//! The observer movement driver: when an observer's reference cell
//! changes, the cells its cube vacated give up the observer's interest and
//! the cells it swept over are requested, in order, one update at a time.

use vstd::prelude::*;
use crate::cell::{Cell, in_region, region_fits};
use crate::coordinator::{Action, Coordinator, merge_effect};
use crate::cube_shell::cube_diff;
use crate::residency::{LoadReason, LodIndex, OwnerId};

verus! {

/// `c` belongs to the cube around `from` but not to the one around `to`:
/// it is vacated when an observer moves from `from` to `to`.
pub open spec fn vacated(from: Cell, to: Cell, r: int, c: Cell) -> bool {
    in_region(from, r, c) && !in_region(to, r, c)
}

/// One independent observer: its identity, its current reference cell, and
/// the radius of the cube it keeps resident.
pub struct Observer {
    pub owner: OwnerId,
    pub center: Cell,
    pub radius: i32,
}

/// Some observer of `s` belongs to `owner`.
pub open spec fn obs_has_owner(s: Seq<Observer>, owner: OwnerId) -> bool {
    exists|i: int| 0 <= i < s.len() && (#[trigger] s[i]).owner == owner
}

/// How one movement update changes the coordinator: every vacated cell
/// gives up the observer's interest at every level of detail, every swept
/// cell is requested at `lod` on the observer's behalf, everything else is
/// untouched, and the ordered actions are exactly the dispatches for swept
/// cells that were neither resident nor already in flight.
pub open spec fn movement_post(
    pre: Coordinator,
    post: Coordinator,
    oldc: Cell,
    newc: Cell,
    r: int,
    owner: OwnerId,
    lod: LodIndex,
    acts: Seq<Action>,
) -> bool {
    &&& forall|c: Cell, l: LodIndex|
        vacated(oldc, newc, r, c) ==> (#[trigger] post.resident.reasons_of(c, l))
            == pre.resident.reasons_of(c, l).remove(LoadReason::Local(owner))
    &&& forall|c: Cell, l: LodIndex|
        vacated(oldc, newc, r, c) ==> ((#[trigger] post.resident.is_present_spec(c, l)) <==> (
        exists|r2: LoadReason|
            #[trigger] pre.resident.reasons_of(c, l).contains(r2) && r2 != LoadReason::Local(
                owner,
            )))
    &&& forall|c: Cell, l: LodIndex|
        vacated(oldc, newc, r, c) ==> (#[trigger] post.pending.reasons_of(c, l))
            == pre.pending.reasons_of(c, l)
    &&& forall|c: Cell, l: LodIndex|
        vacated(oldc, newc, r, c) ==> (#[trigger] post.pending.is_present_spec(c, l))
            == pre.pending.is_present_spec(c, l)
    &&& forall|c: Cell|
        vacated(newc, oldc, r, c) ==> #[trigger] merge_effect(
            pre,
            post,
            c,
            lod,
            LoadReason::Local(owner),
        )
    &&& forall|c: Cell, l: LodIndex|
        !vacated(oldc, newc, r, c) && !(vacated(newc, oldc, r, c) && l == lod) ==> (
        #[trigger] post.resident.reasons_of(c, l)) == pre.resident.reasons_of(c, l)
    &&& forall|c: Cell, l: LodIndex|
        !vacated(oldc, newc, r, c) && !(vacated(newc, oldc, r, c) && l == lod) ==> (
        #[trigger] post.resident.is_present_spec(c, l)) == pre.resident.is_present_spec(c, l)
    &&& forall|c: Cell, l: LodIndex|
        !vacated(oldc, newc, r, c) && !(vacated(newc, oldc, r, c) && l == lod) ==> (
        #[trigger] post.pending.reasons_of(c, l)) == pre.pending.reasons_of(c, l)
    &&& forall|c: Cell, l: LodIndex|
        !vacated(oldc, newc, r, c) && !(vacated(newc, oldc, r, c) && l == lod) ==> (
        #[trigger] post.pending.is_present_spec(c, l)) == pre.pending.is_present_spec(c, l)
    &&& forall|m: int|
        0 <= m < acts.len() ==> match #[trigger] acts[m] {
            Action::Dispatch(c, l) => l == lod && vacated(newc, oldc, r, c)
                && !pre.resident.is_present_spec(c, lod) && !pre.pending.is_present_spec(c, lod),
            _ => false,
        }
    &&& forall|c: Cell|
        vacated(newc, oldc, r, c) && !pre.resident.is_present_spec(c, lod)
            && !pre.pending.is_present_spec(c, lod) ==> #[trigger] acts.contains(
            Action::Dispatch(c, lod),
        )
}

/// The whole streaming engine: the load coordinator plus the registered
/// observers whose movement drives it.
pub struct Engine {
    pub coordinator: Coordinator,
    pub observers: Vec<Observer>,
}

impl Engine {
    /// The coordinator is well formed, observers have distinct owners, and
    /// every observer's cube is representable in cell coordinates.
    pub open spec fn wf(self) -> bool {
        &&& self.coordinator.wf()
        &&& forall|i: int, j: int|
            0 <= i < j < self.observers@.len() ==> (#[trigger] self.observers@[i]).owner != (
            #[trigger] self.observers@[j]).owner
        &&& forall|i: int|
            0 <= i < self.observers@.len() ==> (#[trigger] self.observers@[i]).radius >= 0
                && region_fits(self.observers@[i].center, self.observers@[i].radius as int)
    }

    /// An engine with nothing resident, nothing pending and no observers.
    pub fn new() -> (e: Engine)
        ensures
            e.wf(),
            e.observers@.len() == 0,
            forall|c: Cell, l: LodIndex| !(#[trigger] e.coordinator.is_present_spec(c, l)),
            forall|c: Cell, l: LodIndex| !(#[trigger] e.coordinator.is_pending_spec(c, l)),
            forall|c: Cell, l: LodIndex|
                (#[trigger] e.coordinator.resident.reasons_of(c, l)) == Set::<LoadReason>::empty(),
            forall|c: Cell, l: LodIndex|
                (#[trigger] e.coordinator.pending_reasons(c, l)) == Set::<LoadReason>::empty(),
    {
        Engine { coordinator: Coordinator::new(), observers: Vec::new() }
    }

    /// Index of `owner`'s observer, if one is registered.
    fn find_observer(&self, owner: OwnerId) -> (r: Option<usize>)
        ensures
            match r {
                Some(i) => i < self.observers@.len() && self.observers@[i as int].owner == owner,
                None => !obs_has_owner(self.observers@, owner),
            },
    {
        let mut i: usize = 0;
        while i < self.observers.len()
            invariant
                i <= self.observers@.len(),
                forall|k: int| 0 <= k < i ==> (#[trigger] self.observers@[k]).owner != owner,
            decreases self.observers@.len() - i,
        {
            if self.observers[i].owner == owner {
                return Some(i);
            }
            i = i + 1;
        }
        None
    }

    /// Register a new observer. Refused when the owner is already
    /// registered, the radius is negative, or the cube around `center`
    /// would leave the coordinate range.
    pub fn add_observer(&mut self, owner: OwnerId, center: Cell, radius: i32) -> (ok: bool)
        requires
            old(self).wf(),
        ensures
            final(self).wf(),
            final(self).coordinator == old(self).coordinator,
            ok == (!obs_has_owner(old(self).observers@, owner) && radius >= 0 && region_fits(
                center,
                radius as int,
            )),
            ok ==> final(self).observers@ == old(self).observers@.push(
                Observer { owner, center, radius },
            ),
            !ok ==> final(self).observers@ == old(self).observers@,
    {
        let present = match self.find_observer(owner) {
            Some(_) => true,
            None => false,
        };
        proof {
            if present {
                let i = choose|i: int|
                    0 <= i < self.observers@.len() && (#[trigger] self.observers@[i]).owner
                        == owner;
            }
        }
        let fits = radius >= 0 && (center.x as i64) - (radius as i64) >= (i32::MIN as i64) && (
        center.x as i64) + (radius as i64) <= (i32::MAX as i64) && (center.y as i64) - (
        radius as i64) >= (i32::MIN as i64) && (center.y as i64) + (radius as i64) <= (
        i32::MAX as i64) && (center.z as i64) - (radius as i64) >= (i32::MIN as i64) && (
        center.z as i64) + (radius as i64) <= (i32::MAX as i64);
        if !present && fits {
            self.observers.push(Observer { owner, center, radius });
            proof {
                assert forall|i: int, j: int|
                    0 <= i < j < self.observers@.len() implies (#[trigger] self.observers@[i])
                    .owner != (#[trigger] self.observers@[j]).owner by {
                    if j == self.observers@.len() - 1 {
                        assert(old(self).observers@[i].owner != owner);
                    }
                }
            }
            true
        } else {
            false
        }
    }

    /// Process one movement update for `owner`: diff the old and new cubes,
    /// drop the observer's interest in every vacated cell, and request every
    /// swept cell at `lod` with `LoadReason::Local(owner)`. Updates for an
    /// unregistered owner change nothing. The returned actions are the
    /// dispatches the caller must send to the generation collaborator.
    pub fn on_movement(&mut self, owner: OwnerId, new_center: Cell, lod: LodIndex) -> (acts: Vec<
        Action,
    >)
        requires
            old(self).wf(),
            forall|i: int|
                0 <= i < old(self).observers@.len() && (#[trigger] old(self).observers@[i]).owner
                    == owner ==> region_fits(new_center, old(self).observers@[i].radius as int),
        ensures
            final(self).wf(),
            forall|i: int|
                0 <= i < old(self).observers@.len() && (#[trigger] old(self).observers@[i]).owner
                    == owner ==> final(self).observers@ == old(self).observers@.update(
                    i,
                    Observer {
                        owner,
                        center: new_center,
                        radius: old(self).observers@[i].radius,
                    },
                ) && movement_post(
                    old(self).coordinator,
                    final(self).coordinator,
                    old(self).observers@[i].center,
                    new_center,
                    old(self).observers@[i].radius as int,
                    owner,
                    lod,
                    acts@,
                ),
            !obs_has_owner(old(self).observers@, owner) ==> *final(self) == *old(self)
                && acts@.len() == 0,
    {
        let found = self.find_observer(owner);
        match found {
            None => {
                proof {
                    assert(*self == *old(self));
                    assert(self.wf());
                    assert forall|i: int|
                        0 <= i < old(self).observers@.len() && (#[trigger] old(
                            self,
                        ).observers@[i]).owner == owner implies false by {
                        assert(obs_has_owner(old(self).observers@, owner));
                    }
                }
                Vec::new()
            },
            Some(i) => {
                let oldc = self.observers[i].center;
                let radius = self.observers[i].radius;
                let ghost r = radius as int;
                let mut ob = self.observers.remove(i);
                ob.center = new_center;
                self.observers.insert(i, ob);
                proof {
                    assert(self.observers@ =~= old(self).observers@.update(
                        i as int,
                        Observer { owner, center: new_center, radius },
                    ));
                    assert forall|a: int, b: int|
                        0 <= a < b < self.observers@.len() implies (#[trigger] self.observers@[a])
                        .owner != (#[trigger] self.observers@[b]).owner by {
                        assert(old(self).observers@[a].owner != old(self).observers@[b].owner);
                    }
                    assert forall|a: int|
                        0 <= a < self.observers@.len() implies (#[trigger] self.observers@[a])
                        .radius >= 0 && region_fits(
                        self.observers@[a].center,
                        self.observers@[a].radius as int,
                    ) by {
                        assert(old(self).observers@[i as int].owner == owner);
                        if a != i {
                            assert(self.observers@[a] == old(self).observers@[a]);
                        }
                    }
                }
                let ghost pre = self.coordinator;
                let ghost local = LoadReason::Local(owner);
                let leaving = cube_diff(&oldc, &new_center, radius);
                let entering = cube_diff(&new_center, &oldc, radius);

                // vacated cells give up this owner's interest
                let ghost mut donec = Set::<Cell>::empty();
                let mut a: usize = 0;
                while a < leaving.len()
                    invariant
                        a <= leaving@.len(),
                        local == LoadReason::Local(owner),
                        0 <= i < old(self).observers@.len(),
                        old(self).observers@[i as int].owner == owner,
                        old(self).observers@[i as int].center == oldc,
                        old(self).observers@[i as int].radius == radius,
                        r == radius as int,
                        radius >= 0,
                        region_fits(new_center, r),
                        pre == old(self).coordinator,
                        old(self).wf(),
                        self.observers@ == old(self).observers@.update(
                            i as int,
                            Observer { owner, center: new_center, radius },
                        ),
                        self.coordinator.wf(),
                        self.coordinator.pending == pre.pending,
                        forall|k: int|
                            0 <= k < leaving@.len() ==> vacated(
                                oldc,
                                new_center,
                                r,
                                #[trigger] leaving@[k],
                            ),
                        forall|c: Cell|
                            vacated(oldc, new_center, r, c) ==> leaving@.contains(c),
                        forall|k1: int, k2: int|
                            0 <= k1 < k2 < leaving@.len() ==> leaving@[k1] != leaving@[k2],
                        forall|k: int| 0 <= k < a ==> donec.contains(#[trigger] leaving@[k]),
                        forall|k: int|
                            a <= k < leaving@.len() ==> !donec.contains(#[trigger] leaving@[k]),
                        forall|c: Cell|
                            #[trigger] donec.contains(c) ==> vacated(oldc, new_center, r, c),
                        forall|c: Cell, l: LodIndex|
                            donec.contains(c) ==> (#[trigger] self.coordinator.resident.reasons_of(
                                c,
                                l,
                            )) == pre.resident.reasons_of(c, l).remove(local),
                        forall|c: Cell, l: LodIndex|
                            donec.contains(c) ==> ((#[trigger] self
                                .coordinator
                                .resident
                                .is_present_spec(c, l)) <==> (exists|r2: LoadReason|
                                #[trigger] pre.resident.reasons_of(c, l).contains(r2) && r2
                                    != local)),
                        forall|c: Cell, l: LodIndex|
                            !donec.contains(c) ==> (#[trigger] self.coordinator.resident.reasons_of(
                                c,
                                l,
                            )) == pre.resident.reasons_of(c, l),
                        forall|c: Cell, l: LodIndex|
                            !donec.contains(c) ==> (#[trigger] self
                                .coordinator
                                .resident
                                .is_present_spec(c, l)) == pre.resident.is_present_spec(c, l),
                    decreases leaving@.len() - a,
                {
                    let cc = leaving[a];
                    let ghost mid = self.coordinator;
                    proof {
                        assert(!donec.contains(cc));
                    }
                    self.coordinator.unload_cell(cc, LoadReason::Local(owner));
                    proof {
                        assert forall|l: LodIndex|
                            (#[trigger] self.coordinator.resident.reasons_of(cc, l))
                                == pre.resident.reasons_of(cc, l).remove(local) by {
                            assert(self.coordinator.resident.reasons_of(cc, l)
                                == mid.resident.reasons_of(cc, l).remove(local));
                            assert(mid.resident.reasons_of(cc, l) == pre.resident.reasons_of(
                                cc,
                                l,
                            ));
                        }
                        assert forall|l: LodIndex|
                            (#[trigger] self.coordinator.resident.is_present_spec(cc, l)) <==> (
                        exists|r2: LoadReason|
                            #[trigger] pre.resident.reasons_of(cc, l).contains(r2) && r2
                                != local) by {
                            assert(mid.resident.reasons_of(cc, l) == pre.resident.reasons_of(
                                cc,
                                l,
                            ));
                            if self.coordinator.resident.is_present_spec(cc, l) {
                                let r2 = choose|r2: LoadReason|
                                    #[trigger] mid.resident.reasons_of(cc, l).contains(r2) && r2
                                        != local;
                                assert(pre.resident.reasons_of(cc, l).contains(r2));
                            }
                            if exists|r2: LoadReason|
                                #[trigger] pre.resident.reasons_of(cc, l).contains(r2) && r2
                                    != local {
                                let r2 = choose|r2: LoadReason|
                                    #[trigger] pre.resident.reasons_of(cc, l).contains(r2) && r2
                                        != local;
                                assert(mid.resident.reasons_of(cc, l).contains(r2));
                            }
                        }
                        donec = donec.insert(cc);
                        assert forall|k: int|
                            a + 1 <= k < leaving@.len() implies !donec.contains(
                            #[trigger] leaving@[k]) by {
                            assert(leaving@[k] != leaving@[a as int]);
                        }
                    }
                    a = a + 1;
                }
                proof {
                    assert forall|c: Cell, l: LodIndex|
                        vacated(oldc, new_center, r, c) implies (#[trigger] self
                            .coordinator
                            .resident
                            .reasons_of(c, l)) == pre.resident.reasons_of(c, l).remove(local) && ((
                    #[trigger] self.coordinator.resident.is_present_spec(c, l)) <==> (exists|
                        r2: LoadReason,
                    |
                        #[trigger] pre.resident.reasons_of(c, l).contains(r2) && r2
                            != local)) by {
                        assert(leaving@.contains(c));
                        let k = choose|k: int| 0 <= k < leaving@.len() && leaving@[k] == c;
                        assert(donec.contains(leaving@[k]));
                    }
                    assert forall|c: Cell, l: LodIndex|
                        !vacated(oldc, new_center, r, c) implies (#[trigger] self
                            .coordinator
                            .resident
                            .reasons_of(c, l)) == pre.resident.reasons_of(c, l) && (#[trigger] self
                            .coordinator
                            .resident
                            .is_present_spec(c, l)) == pre.resident.is_present_spec(c, l) by {
                        assert(!donec.contains(c));
                    }
                }

                // swept cells are requested on this owner's behalf
                let ghost mid = self.coordinator;
                let ghost mut donee = Set::<Cell>::empty();
                let mut acts: Vec<Action> = Vec::new();
                let mut b: usize = 0;
                while b < entering.len()
                    invariant
                        b <= entering@.len(),
                        local == LoadReason::Local(owner),
                        self.coordinator.wf(),
                        mid.wf(),
                        0 <= i < old(self).observers@.len(),
                        old(self).observers@[i as int].owner == owner,
                        old(self).observers@[i as int].center == oldc,
                        old(self).observers@[i as int].radius == radius,
                        r == radius as int,
                        radius >= 0,
                        region_fits(new_center, r),
                        pre == old(self).coordinator,
                        old(self).wf(),
                        self.observers@ == old(self).observers@.update(
                            i as int,
                            Observer { owner, center: new_center, radius },
                        ),
                        mid.pending == pre.pending,
                        forall|c: Cell, l: LodIndex|
                            vacated(oldc, new_center, r, c) ==> (#[trigger] mid.resident.reasons_of(
                                c,
                                l,
                            )) == pre.resident.reasons_of(c, l).remove(local),
                        forall|c: Cell, l: LodIndex|
                            vacated(oldc, new_center, r, c) ==> ((#[trigger] mid
                                .resident
                                .is_present_spec(c, l)) <==> (exists|r2: LoadReason|
                                #[trigger] pre.resident.reasons_of(c, l).contains(r2) && r2
                                    != local)),
                        forall|c: Cell, l: LodIndex|
                            !vacated(oldc, new_center, r, c) ==> (#[trigger] mid.resident.reasons_of(
                                c,
                                l,
                            )) == pre.resident.reasons_of(c, l),
                        forall|c: Cell, l: LodIndex|
                            !vacated(oldc, new_center, r, c) ==> (#[trigger] mid
                                .resident
                                .is_present_spec(c, l)) == pre.resident.is_present_spec(c, l),
                        forall|k: int|
                            0 <= k < entering@.len() ==> vacated(
                                new_center,
                                oldc,
                                r,
                                #[trigger] entering@[k],
                            ),
                        forall|k1: int, k2: int|
                            0 <= k1 < k2 < entering@.len() ==> entering@[k1] != entering@[k2],
                        forall|k: int| 0 <= k < b ==> donee.contains(#[trigger] entering@[k]),
                        forall|k: int|
                            b <= k < entering@.len() ==> !donee.contains(#[trigger] entering@[k]),
                        forall|c: Cell|
                            #[trigger] donee.contains(c) ==> vacated(new_center, oldc, r, c),
                        forall|c: Cell|
                            #[trigger] donee.contains(c) ==> merge_effect(
                                mid,
                                self.coordinator,
                                c,
                                lod,
                                local,
                            ),
                        forall|c: Cell, l: LodIndex|
                            !(donee.contains(c) && l == lod) ==> (#[trigger] self
                                .coordinator
                                .resident
                                .reasons_of(c, l)) == mid.resident.reasons_of(c, l),
                        forall|c: Cell, l: LodIndex|
                            !(donee.contains(c) && l == lod) ==> (#[trigger] self
                                .coordinator
                                .resident
                                .is_present_spec(c, l)) == mid.resident.is_present_spec(c, l),
                        forall|c: Cell, l: LodIndex|
                            !(donee.contains(c) && l == lod) ==> (#[trigger] self
                                .coordinator
                                .pending
                                .reasons_of(c, l)) == mid.pending.reasons_of(c, l),
                        forall|c: Cell, l: LodIndex|
                            !(donee.contains(c) && l == lod) ==> (#[trigger] self
                                .coordinator
                                .pending
                                .is_present_spec(c, l)) == mid.pending.is_present_spec(c, l),
                        forall|m: int|
                            0 <= m < acts@.len() ==> match #[trigger] acts@[m] {
                                Action::Dispatch(c, l) => l == lod && donee.contains(c)
                                    && !mid.resident.is_present_spec(c, lod)
                                    && !mid.pending.is_present_spec(c, lod),
                                _ => false,
                            },
                        forall|k: int|
                            0 <= k < b && !mid.resident.is_present_spec(
                                #[trigger] entering@[k],
                                lod,
                            ) && !mid.pending.is_present_spec(entering@[k], lod) ==> acts@
                                .contains(Action::Dispatch(entering@[k], lod)),
                    decreases entering@.len() - b,
                {
                    let cc = entering[b];
                    let ghost cur = self.coordinator;
                    let ghost acts0 = acts@;
                    let act = self.coordinator.request_block(cc, lod, LoadReason::Local(owner));
                    match act {
                        Some(act1) => {
                            acts.push(act1);
                        },
                        None => {},
                    }
                    proof {
                        assert(!donee.contains(cc));
                        assert(cur.resident.reasons_of(cc, lod) == mid.resident.reasons_of(
                            cc,
                            lod,
                        ));
                        assert(cur.resident.is_present_spec(cc, lod) == mid.resident
                            .is_present_spec(cc, lod));
                        assert(cur.pending.reasons_of(cc, lod) == mid.pending.reasons_of(cc, lod));
                        assert(cur.pending.is_present_spec(cc, lod) == mid.pending
                            .is_present_spec(cc, lod));
                        assert(merge_effect(mid, self.coordinator, cc, lod, local));
                        donee = donee.insert(cc);
                        assert forall|k: int|
                            b + 1 <= k < entering@.len() implies !donee.contains(
                            #[trigger] entering@[k]) by {
                            assert(entering@[k] != entering@[b as int]);
                        }
                        assert forall|c: Cell| #[trigger] donee.contains(c) implies merge_effect(
                            mid,
                            self.coordinator,
                            c,
                            lod,
                            local,
                        ) by {
                            if c != cc {
                                assert(self.coordinator.resident.reasons_of(c, lod)
                                    == cur.resident.reasons_of(c, lod));
                                assert(self.coordinator.resident.is_present_spec(c, lod)
                                    == cur.resident.is_present_spec(c, lod));
                                assert(self.coordinator.pending.reasons_of(c, lod)
                                    == cur.pending.reasons_of(c, lod));
                                assert(self.coordinator.pending.is_present_spec(c, lod)
                                    == cur.pending.is_present_spec(c, lod));
                            }
                        }
                        assert forall|m: int| 0 <= m < acts@.len() implies match (
                        #[trigger] acts@[m]) {
                            Action::Dispatch(c, l) => l == lod && donee.contains(c)
                                && !mid.resident.is_present_spec(c, lod)
                                && !mid.pending.is_present_spec(c, lod),
                            _ => false,
                        } by {
                            if m < acts0.len() {
                                assert(acts@[m] == acts0[m]);
                            }
                        }
                        assert forall|k: int|
                            0 <= k < b + 1 && !mid.resident.is_present_spec(
                                #[trigger] entering@[k],
                                lod,
                            ) && !mid.pending.is_present_spec(entering@[k], lod) implies acts@
                            .contains(Action::Dispatch(entering@[k], lod)) by {
                            if k < b {
                                let m = choose|m: int|
                                    0 <= m < acts0.len() && acts0[m] == Action::Dispatch(
                                        entering@[k],
                                        lod,
                                    );
                                assert(acts@[m] == Action::Dispatch(entering@[k], lod));
                            } else {
                                assert(entering@[k] == cc);
                                assert(acts@[acts0.len() as int] == Action::Dispatch(cc, lod));
                            }
                        }
                    }
                    b = b + 1;
                }
                proof {
                    let post = self.coordinator;
                    assert forall|c: Cell|
                        vacated(new_center, oldc, r, c) implies #[trigger] merge_effect(
                        pre,
                        post,
                        c,
                        lod,
                        local,
                    ) by {
                        assert(entering@.contains(c));
                        let k = choose|k: int| 0 <= k < entering@.len() && entering@[k] == c;
                        assert(donee.contains(entering@[k]));
                        assert(merge_effect(mid, post, c, lod, local));
                        assert(!vacated(oldc, new_center, r, c));
                        assert(mid.resident.reasons_of(c, lod) == pre.resident.reasons_of(c, lod));
                        assert(mid.resident.is_present_spec(c, lod) == pre.resident
                            .is_present_spec(c, lod));
                        assert(mid.pending.reasons_of(c, lod) == pre.pending.reasons_of(c, lod));
                        assert(mid.pending.is_present_spec(c, lod) == pre.pending.is_present_spec(
                            c,
                            lod,
                        ));
                    }
                    assert forall|c: Cell, l: LodIndex|
                        vacated(oldc, new_center, r, c) implies (#[trigger] post
                            .resident
                            .reasons_of(c, l)) == pre.resident.reasons_of(c, l).remove(local) by {
                        assert(!donee.contains(c));
                        assert(post.resident.reasons_of(c, l) == mid.resident.reasons_of(c, l));
                        assert(mid.resident.reasons_of(c, l) == pre.resident.reasons_of(
                            c,
                            l,
                        ).remove(local));
                    }
                    assert forall|c: Cell, l: LodIndex|
                        vacated(oldc, new_center, r, c) implies ((#[trigger] post
                            .resident
                            .is_present_spec(c, l)) <==> (exists|r2: LoadReason|
                        #[trigger] pre.resident.reasons_of(c, l).contains(r2) && r2
                            != local)) by {
                        assert(!donee.contains(c));
                        assert(post.resident.is_present_spec(c, l) == mid.resident
                            .is_present_spec(c, l));
                    }
                    assert forall|c: Cell, l: LodIndex|
                        vacated(oldc, new_center, r, c) implies (#[trigger] post
                            .pending
                            .reasons_of(c, l)) == pre.pending.reasons_of(c, l) by {
                        assert(!donee.contains(c));
                        assert(post.pending.reasons_of(c, l) == mid.pending.reasons_of(c, l));
                    }
                    assert forall|c: Cell, l: LodIndex|
                        vacated(oldc, new_center, r, c) implies (#[trigger] post
                            .pending
                            .is_present_spec(c, l)) == pre.pending.is_present_spec(c, l) by {
                        assert(!donee.contains(c));
                        assert(post.pending.is_present_spec(c, l) == mid.pending.is_present_spec(
                            c,
                            l,
                        ));
                    }
                    assert forall|c: Cell, l: LodIndex|
                        !vacated(oldc, new_center, r, c) && !(vacated(new_center, oldc, r, c) && l
                            == lod) implies (#[trigger] post.resident.reasons_of(c, l))
                        == pre.resident.reasons_of(c, l) by {
                        assert(!(donee.contains(c) && l == lod));
                        assert(post.resident.reasons_of(c, l) == mid.resident.reasons_of(c, l));
                    }
                    assert forall|c: Cell, l: LodIndex|
                        !vacated(oldc, new_center, r, c) && !(vacated(new_center, oldc, r, c) && l
                            == lod) implies (#[trigger] post.resident.is_present_spec(c, l))
                        == pre.resident.is_present_spec(c, l) by {
                        assert(!(donee.contains(c) && l == lod));
                        assert(post.resident.is_present_spec(c, l) == mid.resident
                            .is_present_spec(c, l));
                    }
                    assert forall|c: Cell, l: LodIndex|
                        !vacated(oldc, new_center, r, c) && !(vacated(new_center, oldc, r, c) && l
                            == lod) implies (#[trigger] post.pending.reasons_of(c, l))
                        == pre.pending.reasons_of(c, l) by {
                        assert(!(donee.contains(c) && l == lod));
                        assert(post.pending.reasons_of(c, l) == mid.pending.reasons_of(c, l));
                    }
                    assert forall|c: Cell, l: LodIndex|
                        !vacated(oldc, new_center, r, c) && !(vacated(new_center, oldc, r, c) && l
                            == lod) implies (#[trigger] post.pending.is_present_spec(c, l))
                        == pre.pending.is_present_spec(c, l) by {
                        assert(!(donee.contains(c) && l == lod));
                        assert(post.pending.is_present_spec(c, l) == mid.pending.is_present_spec(
                            c,
                            l,
                        ));
                    }
                    assert forall|m: int| 0 <= m < acts@.len() implies match (#[trigger] acts@[m]) {
                        Action::Dispatch(c, l) => l == lod && vacated(new_center, oldc, r, c)
                            && !pre.resident.is_present_spec(c, lod)
                            && !pre.pending.is_present_spec(c, lod),
                        _ => false,
                    } by {
                        match acts@[m] {
                            Action::Dispatch(c, l) => {
                                assert(donee.contains(c));
                                assert(!vacated(oldc, new_center, r, c));
                                assert(mid.resident.is_present_spec(c, lod) == pre.resident
                                    .is_present_spec(c, lod));
                                assert(mid.pending.is_present_spec(c, lod) == pre.pending
                                    .is_present_spec(c, lod));
                            },
                            _ => {},
                        }
                    }
                    assert forall|c: Cell|
                        vacated(new_center, oldc, r, c) && !pre.resident.is_present_spec(c, lod)
                            && !pre.pending.is_present_spec(c, lod) implies #[trigger] acts@
                        .contains(Action::Dispatch(c, lod)) by {
                        assert(entering@.contains(c));
                        let k = choose|k: int| 0 <= k < entering@.len() && entering@[k] == c;
                        assert(!vacated(oldc, new_center, r, c));
                        assert(mid.resident.is_present_spec(c, lod) == pre.resident
                            .is_present_spec(c, lod));
                        assert(mid.pending.is_present_spec(c, lod) == pre.pending.is_present_spec(
                            c,
                            lod,
                        ));
                        assert(acts@.contains(Action::Dispatch(entering@[k], lod)));
                    }
                    assert(movement_post(pre, post, oldc, new_center, r, owner, lod, acts@));
                    // the engine stays well formed and only observer `i` moved
                    assert forall|a2: int, b2: int|
                        0 <= a2 < b2 < self.observers@.len() implies (#[trigger] self
                            .observers@[a2]).owner != (#[trigger] self.observers@[b2]).owner by {
                        assert(old(self).observers@[a2].owner != old(self).observers@[b2].owner);
                    }
                    assert forall|a2: int|
                        0 <= a2 < self.observers@.len() implies (#[trigger] self.observers@[a2])
                        .radius >= 0 && region_fits(
                        self.observers@[a2].center,
                        self.observers@[a2].radius as int,
                    ) by {
                        if a2 != i {
                            assert(self.observers@[a2] == old(self).observers@[a2]);
                            assert(old(self).observers@[a2].radius >= 0);
                        }
                    }
                    assert forall|i2: int|
                        0 <= i2 < old(self).observers@.len() && (#[trigger] old(
                            self,
                        ).observers@[i2]).owner == owner implies i2 == i by {
                        if i2 < i {
                            assert(old(self).observers@[i2].owner != old(
                                self,
                            ).observers@[i as int].owner);
                        }
                        if i2 > i {
                            assert(old(self).observers@[i as int].owner != old(
                                self,
                            ).observers@[i2].owner);
                        }
                    }
                }
                acts
            },
        }
    }
}

} // verus!

//! Deduplicated, ownership-tracked load requests: at most one in-flight
//! request per (cell, level of detail), with later reasons merged into the
//! pending record and fanned out when the generation collaborator reports
//! completion.

use vstd::prelude::*;
use crate::cell::Cell;
use crate::residency::{
    ClientId, LoadReason, LodIndex, OwnerId, ResidencyTracker, lemma_absent_key_no_reasons,
    lemma_present_iff_reason,
};

verus! {

/// An instruction for the surrounding process: the coordinator itself never
/// performs I/O, it only decides.
#[derive(Clone, Copy, PartialEq, Eq, Structural, Debug)]
pub enum Action {
    /// Send exactly one load request for this cell to the generation
    /// collaborator.
    Dispatch(Cell, LodIndex),
    /// Send the already-resident content of this cell to the client.
    DeliverCached(ClientId, Cell, LodIndex),
    /// Forward the freshly generated content of this cell to the client.
    Deliver(ClientId, Cell, LodIndex),
    /// Commit the freshly generated content into this owner's resident
    /// store, for example for physics queries.
    Commit(OwnerId, Cell, LodIndex),
}

/// Routes load requests: deduplicates against residency, coalesces repeated
/// interest in an in-flight load, and fans completions out to every reason
/// that asked for them.
pub struct Coordinator {
    /// Cells whose content is resident, with the reasons retaining them.
    pub resident: ResidencyTracker,
    /// Cells with one in-flight generation request each, with the reasons
    /// awaiting it.
    pub pending: ResidencyTracker,
}

/// How one request for `(cell, lod)` changes the two tables at that key:
/// already-resident content records an owner's interest, an in-flight load
/// absorbs the reason, and an absent cell gains a fresh pending record.
pub open spec fn merge_effect(
    pre: Coordinator,
    post: Coordinator,
    cell: Cell,
    lod: LodIndex,
    reason: LoadReason,
) -> bool {
    if pre.resident.is_present_spec(cell, lod) {
        &&& post.resident.is_present_spec(cell, lod)
        &&& post.pending.reasons_of(cell, lod) == pre.pending.reasons_of(cell, lod)
        &&& post.pending.is_present_spec(cell, lod) == pre.pending.is_present_spec(cell, lod)
        &&& match reason {
            LoadReason::Local(_) => post.resident.reasons_of(cell, lod) == pre.resident.reasons_of(
                cell,
                lod,
            ).insert(reason),
            LoadReason::ForClient(_) => post.resident.reasons_of(cell, lod)
                == pre.resident.reasons_of(cell, lod),
        }
    } else if pre.pending.is_present_spec(cell, lod) {
        &&& post.pending.reasons_of(cell, lod) == pre.pending.reasons_of(cell, lod).insert(reason)
        &&& post.pending.is_present_spec(cell, lod)
        &&& !post.resident.is_present_spec(cell, lod)
        &&& post.resident.reasons_of(cell, lod) == pre.resident.reasons_of(cell, lod)
    } else {
        &&& post.pending.reasons_of(cell, lod) == Set::<LoadReason>::empty().insert(reason)
        &&& post.pending.is_present_spec(cell, lod)
        &&& !post.resident.is_present_spec(cell, lod)
        &&& post.resident.reasons_of(cell, lod) == pre.resident.reasons_of(cell, lod)
    }
}

/// How one `request_block` call changes the coordinator and what it asks
/// the surrounding process to do.
pub open spec fn request_post(
    pre: Coordinator,
    post: Coordinator,
    cell: Cell,
    lod: LodIndex,
    reason: LoadReason,
    act: Option<Action>,
) -> bool {
    &&& forall|c2: Cell, l2: LodIndex|
        !(c2 == cell && l2 == lod) ==> (#[trigger] post.resident.reasons_of(c2, l2))
            == pre.resident.reasons_of(c2, l2)
    &&& forall|c2: Cell, l2: LodIndex|
        !(c2 == cell && l2 == lod) ==> (#[trigger] post.resident.is_present_spec(c2, l2))
            == pre.resident.is_present_spec(c2, l2)
    &&& forall|c2: Cell, l2: LodIndex|
        !(c2 == cell && l2 == lod) ==> (#[trigger] post.pending.reasons_of(c2, l2))
            == pre.pending.reasons_of(c2, l2)
    &&& forall|c2: Cell, l2: LodIndex|
        !(c2 == cell && l2 == lod) ==> (#[trigger] post.pending.is_present_spec(c2, l2))
            == pre.pending.is_present_spec(c2, l2)
    &&& merge_effect(pre, post, cell, lod, reason)
    &&& if pre.resident.is_present_spec(cell, lod) {
        // no request is made; a client is answered from the cache
        match reason {
            LoadReason::Local(_) => act is None,
            LoadReason::ForClient(c) => act == Some(Action::DeliverCached(c, cell, lod)),
        }
    } else if pre.pending.is_present_spec(cell, lod) {
        // coalesced into the in-flight load: no duplicate request
        act is None
    } else {
        // exactly one dispatch
        act == Some(Action::Dispatch(cell, lod))
    }
}

/// How one `on_generation_complete` call changes the coordinator and which
/// deliveries and commits it orders.
pub open spec fn loaded_post(
    pre: Coordinator,
    post: Coordinator,
    cell: Cell,
    lod: LodIndex,
    acts: Seq<Action>,
) -> bool {
    &&& forall|c2: Cell, l2: LodIndex|
        !(c2 == cell && l2 == lod) ==> (#[trigger] post.resident.reasons_of(c2, l2))
            == pre.resident.reasons_of(c2, l2)
    &&& forall|c2: Cell, l2: LodIndex|
        !(c2 == cell && l2 == lod) ==> (#[trigger] post.resident.is_present_spec(c2, l2))
            == pre.resident.is_present_spec(c2, l2)
    &&& forall|c2: Cell, l2: LodIndex|
        !(c2 == cell && l2 == lod) ==> (#[trigger] post.pending.reasons_of(c2, l2))
            == pre.pending.reasons_of(c2, l2)
    &&& forall|c2: Cell, l2: LodIndex|
        !(c2 == cell && l2 == lod) ==> (#[trigger] post.pending.is_present_spec(c2, l2))
            == pre.pending.is_present_spec(c2, l2)
    &&& !post.pending.is_present_spec(cell, lod)
    &&& post.pending.reasons_of(cell, lod) == Set::<LoadReason>::empty()
    &&& if pre.pending.is_present_spec(cell, lod) {
        // every awaiting reason is served exactly as it asked, and the
        // pending record is destroyed
        &&& forall|o: OwnerId|
            #[trigger] pre.pending.reasons_of(cell, lod).contains(LoadReason::Local(o))
                ==> acts.contains(Action::Commit(o, cell, lod))
        &&& forall|cl: ClientId|
            #[trigger] pre.pending.reasons_of(cell, lod).contains(LoadReason::ForClient(cl))
                ==> acts.contains(Action::Deliver(cl, cell, lod))
        &&& forall|m: int|
            0 <= m < acts.len() ==> match #[trigger] acts[m] {
                Action::Commit(o, c2, l2) => c2 == cell && l2 == lod
                    && pre.pending.reasons_of(cell, lod).contains(LoadReason::Local(o)),
                Action::Deliver(cl, c2, l2) => c2 == cell && l2 == lod
                    && pre.pending.reasons_of(cell, lod).contains(LoadReason::ForClient(cl)),
                _ => false,
            }
        // owners retain the content; a client delivery alone retains nothing
        &&& post.resident.reasons_of(cell, lod) == Set::new(
            |rn: LoadReason| rn is Local && pre.pending.reasons_of(cell, lod).contains(rn),
        )
        &&& (post.resident.is_present_spec(cell, lod) <==> (exists|o: OwnerId|
            #[trigger] pre.pending.reasons_of(cell, lod).contains(LoadReason::Local(o))))
    } else {
        // completion for a cell nobody awaits: dropped silently
        &&& acts.len() == 0
        &&& post.resident.reasons_of(cell, lod) == pre.resident.reasons_of(cell, lod)
        &&& post.resident.is_present_spec(cell, lod) == pre.resident.is_present_spec(cell, lod)
    }
}

impl Coordinator {
    /// The reasons awaiting the in-flight load of `(cell, lod)`.
    pub open spec fn pending_reasons(self, cell: Cell, lod: LodIndex) -> Set<LoadReason> {
        self.pending.reasons_of(cell, lod)
    }

    /// A load request for `(cell, lod)` is in flight.
    pub open spec fn is_pending_spec(self, cell: Cell, lod: LodIndex) -> bool {
        self.pending.is_present_spec(cell, lod)
    }

    /// Content for `(cell, lod)` is resident.
    pub open spec fn is_present_spec(self, cell: Cell, lod: LodIndex) -> bool {
        self.resident.is_present_spec(cell, lod)
    }

    /// Both tables are well formed, and a key is never resident and pending
    /// at once.
    pub open spec fn wf(self) -> bool {
        &&& self.resident.wf()
        &&& self.pending.wf()
        &&& forall|c: Cell, l: LodIndex|
            #[trigger] self.pending.is_present_spec(c, l) ==> !self.resident.is_present_spec(c, l)
    }

    /// A coordinator with nothing resident and nothing pending.
    pub fn new() -> (co: Coordinator)
        ensures
            co.wf(),
            forall|c: Cell, l: LodIndex| !(#[trigger] co.is_present_spec(c, l)),
            forall|c: Cell, l: LodIndex| !(#[trigger] co.is_pending_spec(c, l)),
            forall|c: Cell, l: LodIndex|
                (#[trigger] co.resident.reasons_of(c, l)) == Set::<LoadReason>::empty(),
            forall|c: Cell, l: LodIndex|
                (#[trigger] co.pending_reasons(c, l)) == Set::<LoadReason>::empty(),
    {
        let co = Coordinator { resident: ResidencyTracker::new(), pending: ResidencyTracker::new() };
        proof {
            assert forall|c: Cell, l: LodIndex|
                (#[trigger] co.resident.reasons_of(c, l)) == Set::<LoadReason>::empty()
                    && (#[trigger] co.pending_reasons(c, l)) == Set::<LoadReason>::empty() by {
                lemma_absent_key_no_reasons(co.resident, c, l);
                lemma_absent_key_no_reasons(co.pending, c, l);
            }
        }
        co
    }

    /// Whether content for `(cell, lod)` is resident.
    pub fn is_present(&self, cell: Cell, lod: LodIndex) -> (b: bool)
        ensures
            b == self.is_present_spec(cell, lod),
    {
        self.resident.is_present(cell, lod)
    }

    /// Whether a load request for `(cell, lod)` is in flight.
    pub fn is_pending(&self, cell: Cell, lod: LodIndex) -> (b: bool)
        ensures
            b == self.is_pending_spec(cell, lod),
    {
        self.pending.is_present(cell, lod)
    }

    /// Ask for `(cell, lod)` on behalf of `reason`. Already-resident content
    /// answers a client immediately and costs no request; an in-flight load
    /// absorbs the new reason; otherwise exactly one dispatch is ordered.
    pub fn request_block(&mut self, cell: Cell, lod: LodIndex, reason: LoadReason) -> (act: Option<
        Action,
    >)
        requires
            old(self).wf(),
        ensures
            final(self).wf(),
            request_post(*old(self), *final(self), cell, lod, reason, act),
    {
        if self.resident.is_present(cell, lod) {
            match reason {
                LoadReason::Local(_) => {
                    self.resident.mark_loaded(cell, lod, reason);
                    proof {
                        assert forall|c: Cell, l: LodIndex|
                            #[trigger] self.pending.is_present_spec(c, l) implies !self.resident
                            .is_present_spec(c, l) by {
                            if !(c == cell && l == lod) {
                                assert(old(self).pending.is_present_spec(c, l));
                            }
                        }
                    }
                    None
                },
                LoadReason::ForClient(c) => Some(Action::DeliverCached(c, cell, lod)),
            }
        } else if self.pending.is_present(cell, lod) {
            self.pending.mark_loaded(cell, lod, reason);
            proof {
                assert forall|c: Cell, l: LodIndex|
                    #[trigger] self.pending.is_present_spec(c, l) implies !self.resident
                    .is_present_spec(c, l) by {
                    if !(c == cell && l == lod) {
                        assert(old(self).pending.is_present_spec(c, l));
                    }
                }
            }
            None
        } else {
            proof {
                lemma_absent_key_no_reasons(self.pending, cell, lod);
            }
            self.pending.mark_loaded(cell, lod, reason);
            proof {
                assert forall|c: Cell, l: LodIndex|
                    #[trigger] self.pending.is_present_spec(c, l) implies !self.resident
                    .is_present_spec(c, l) by {
                    if !(c == cell && l == lod) {
                        assert(old(self).pending.is_present_spec(c, l));
                    }
                }
            }
            Some(Action::Dispatch(cell, lod))
        }
    }

    /// The generation collaborator reports `(cell, lod)` as loaded: serve
    /// every awaiting reason (commit for owners, delivery for clients) and
    /// destroy the pending record. A completion nobody awaits is dropped.
    pub fn on_generation_complete(&mut self, cell: Cell, lod: LodIndex) -> (acts: Vec<Action>)
        requires
            old(self).wf(),
        ensures
            final(self).wf(),
            loaded_post(*old(self), *final(self), cell, lod, acts@),
    {
        let mut acts: Vec<Action> = Vec::new();
        let taken = self.pending.take_entry(cell, lod);
        match taken {
            None => {
                proof {
                    lemma_absent_key_no_reasons(old(self).pending, cell, lod);
                }
                acts
            },
            Some(v) => {
                let ghost pre = *old(self);
                let ghost pending1 = self.pending;
                let mut k: usize = 0;
                while k < v.len()
                    invariant
                        k <= v@.len(),
                        self.pending == pending1,
                        self.resident.wf(),
                        forall|rn: LoadReason|
                            #[trigger] self.resident.reasons_of(cell, lod).contains(rn) <==> (
                            rn is Local && (exists|m: int|
                                0 <= m < k && (#[trigger] v@[m]) == rn)),
                        self.resident.is_present_spec(cell, lod) <==> (exists|m: int|
                            0 <= m < k && (#[trigger] v@[m]) is Local),
                        forall|c2: Cell, l2: LodIndex|
                            !(c2 == cell && l2 == lod) ==> (#[trigger] self.resident.reasons_of(
                                c2,
                                l2,
                            )) == pre.resident.reasons_of(c2, l2),
                        forall|c2: Cell, l2: LodIndex|
                            !(c2 == cell && l2 == lod) ==> (#[trigger] self
                                .resident
                                .is_present_spec(c2, l2)) == pre.resident.is_present_spec(c2, l2),
                        forall|m: int|
                            0 <= m < acts@.len() ==> match #[trigger] acts@[m] {
                                Action::Commit(o, c2, l2) => c2 == cell && l2 == lod && (exists|
                                    n: int,
                                |
                                    0 <= n < k && (#[trigger] v@[n]) == LoadReason::Local(o)),
                                Action::Deliver(cl, c2, l2) => c2 == cell && l2 == lod && (exists|
                                    n: int,
                                |
                                    0 <= n < k && (#[trigger] v@[n]) == LoadReason::ForClient(cl)),
                                _ => false,
                            },
                        forall|n: int|
                            0 <= n < k ==> match #[trigger] v@[n] {
                                LoadReason::Local(o) => acts@.contains(Action::Commit(o, cell, lod)),
                                LoadReason::ForClient(cl) => acts@.contains(
                                    Action::Deliver(cl, cell, lod),
                                ),
                            },
                    decreases v@.len() - k,
                {
                    let ghost acts0 = acts@;
                    let rn = v[k];
                    match rn {
                        LoadReason::Local(o) => {
                            self.resident.mark_loaded(cell, lod, rn);
                            acts.push(Action::Commit(o, cell, lod));
                        },
                        LoadReason::ForClient(cl) => {
                            acts.push(Action::Deliver(cl, cell, lod));
                        },
                    }
                    proof {
                        assert(acts@[acts0.len() as int] == acts@.last());
                        assert forall|n: int| 0 <= n < k + 1 implies match #[trigger] v@[n] {
                            LoadReason::Local(o) => acts@.contains(Action::Commit(o, cell, lod)),
                            LoadReason::ForClient(cl) => acts@.contains(
                                Action::Deliver(cl, cell, lod),
                            ),
                        } by {
                            if n < k {
                                match v@[n] {
                                    LoadReason::Local(o) => {
                                        let m = choose|m: int|
                                            0 <= m < acts0.len() && acts0[m] == Action::Commit(
                                                o,
                                                cell,
                                                lod,
                                            );
                                        assert(acts@[m] == Action::Commit(o, cell, lod));
                                    },
                                    LoadReason::ForClient(cl) => {
                                        let m = choose|m: int|
                                            0 <= m < acts0.len() && acts0[m] == Action::Deliver(
                                                cl,
                                                cell,
                                                lod,
                                            );
                                        assert(acts@[m] == Action::Deliver(cl, cell, lod));
                                    },
                                }
                            } else {
                                assert(v@[n] == rn);
                            }
                        }
                    }
                    k = k + 1;
                }
                proof {
                    assert forall|o: OwnerId|
                        #[trigger] pre.pending.reasons_of(cell, lod).contains(
                            LoadReason::Local(o),
                        ) implies acts@.contains(Action::Commit(o, cell, lod)) by {
                        assert(v@.contains(LoadReason::Local(o)));
                        let n = choose|n: int| 0 <= n < v@.len() && v@[n] == LoadReason::Local(o);
                    }
                    assert forall|cl: ClientId|
                        #[trigger] pre.pending.reasons_of(cell, lod).contains(
                            LoadReason::ForClient(cl),
                        ) implies acts@.contains(Action::Deliver(cl, cell, lod)) by {
                        assert(v@.contains(LoadReason::ForClient(cl)));
                        let n = choose|n: int|
                            0 <= n < v@.len() && v@[n] == LoadReason::ForClient(cl);
                    }
                    assert forall|m: int| 0 <= m < acts@.len() implies match #[trigger] acts@[m] {
                        Action::Commit(o, c2, l2) => c2 == cell && l2 == lod
                            && pre.pending.reasons_of(cell, lod).contains(LoadReason::Local(o)),
                        Action::Deliver(cl, c2, l2) => c2 == cell && l2 == lod
                            && pre.pending.reasons_of(cell, lod).contains(
                            LoadReason::ForClient(cl),
                        ),
                        _ => false,
                    } by {
                        match acts@[m] {
                            Action::Commit(o, c2, l2) => {
                                let n = choose|n: int|
                                    0 <= n < v@.len() && (#[trigger] v@[n]) == LoadReason::Local(o);
                                assert(v@.contains(LoadReason::Local(o)));
                            },
                            Action::Deliver(cl, c2, l2) => {
                                let n = choose|n: int|
                                    0 <= n < v@.len() && (#[trigger] v@[n])
                                        == LoadReason::ForClient(cl);
                                assert(v@.contains(LoadReason::ForClient(cl)));
                            },
                            _ => {},
                        }
                    }
                    assert(self.resident.reasons_of(cell, lod) =~= Set::new(
                        |rn: LoadReason| rn is Local && pre.pending.reasons_of(cell, lod).contains(
                            rn,
                        ),
                    )) by {
                        assert forall|rn: LoadReason|
                            #[trigger] self.resident.reasons_of(cell, lod).contains(rn) <==> (
                            rn is Local && pre.pending.reasons_of(cell, lod).contains(rn)) by {
                            if self.resident.reasons_of(cell, lod).contains(rn) {
                                assert(v@.contains(rn));
                            }
                            if rn is Local && pre.pending.reasons_of(cell, lod).contains(rn) {
                                assert(v@.contains(rn));
                                let n = choose|n: int| 0 <= n < v@.len() && (#[trigger] v@[n]) == rn;
                                assert(self.resident.reasons_of(cell, lod).contains(rn));
                            }
                        }
                    }
                    assert forall|o: OwnerId|
                        #[trigger] pre.pending.reasons_of(cell, lod).contains(LoadReason::Local(o))
                            implies self.resident.is_present_spec(cell, lod) by {
                        assert(v@.contains(LoadReason::Local(o)));
                        let n = choose|n: int| 0 <= n < v@.len() && v@[n] == LoadReason::Local(o);
                        assert(v@[n] is Local);
                    }
                    if self.resident.is_present_spec(cell, lod) {
                        let m = choose|m: int| 0 <= m < v@.len() && (#[trigger] v@[m]) is Local;
                        assert(v@.contains(v@[m]));
                        assert(pre.pending.reasons_of(cell, lod).contains(v@[m]));
                    }
                    assert forall|c: Cell, l: LodIndex|
                        #[trigger] self.pending.is_present_spec(c, l) implies !self.resident
                        .is_present_spec(c, l) by {
                        if !(c == cell && l == lod) {
                            assert(pre.pending.is_present_spec(c, l));
                        }
                    }
                }
                acts
            },
        }
    }

    /// Remove `reason`'s interest in resident content for `cell` at every
    /// level of detail it held. Content held by any other reason is
    /// retained; pending loads are untouched.
    pub fn unload_cell(&mut self, cell: Cell, reason: LoadReason)
        requires
            old(self).wf(),
        ensures
            final(self).wf(),
            final(self).pending == old(self).pending,
            forall|l: LodIndex|
                (#[trigger] final(self).resident.reasons_of(cell, l)) == old(
                    self,
                ).resident.reasons_of(cell, l).remove(reason),
            forall|l: LodIndex|
                (#[trigger] final(self).resident.is_present_spec(cell, l)) <==> (exists|
                    r2: LoadReason,
                |
                    #[trigger] old(self).resident.reasons_of(cell, l).contains(r2) && r2
                        != reason),
            forall|c2: Cell, l2: LodIndex|
                c2 != cell ==> (#[trigger] final(self).resident.reasons_of(c2, l2)) == old(
                    self,
                ).resident.reasons_of(c2, l2),
            forall|c2: Cell, l2: LodIndex|
                c2 != cell ==> (#[trigger] final(self).resident.is_present_spec(c2, l2)) == old(
                    self,
                ).resident.is_present_spec(c2, l2),
    {
        let ghost pre = *old(self);
        let lods = self.resident.lods_held(cell, reason);
        let ghost mut done = Set::<LodIndex>::empty();
        let mut j: usize = 0;
        while j < lods.len()
            invariant
                pre.wf(),
                j <= lods@.len(),
                self.pending == pre.pending,
                self.resident.wf(),
                forall|l: LodIndex|
                    (#[trigger] pre.resident.reasons_of(cell, l)).contains(reason) ==> lods@
                        .contains(l),
                forall|k: int| 0 <= k < j ==> done.contains(#[trigger] lods@[k]),
                forall|l: LodIndex|
                    #[trigger] done.contains(l) ==> self.resident.reasons_of(cell, l)
                        == pre.resident.reasons_of(cell, l).remove(reason),
                forall|l: LodIndex|
                    #[trigger] done.contains(l) ==> (self.resident.is_present_spec(cell, l) <==> (
                    exists|r2: LoadReason|
                        #[trigger] pre.resident.reasons_of(cell, l).contains(r2) && r2 != reason)),
                forall|l: LodIndex|
                    !(#[trigger] done.contains(l)) ==> self.resident.reasons_of(cell, l)
                        == pre.resident.reasons_of(cell, l) && self.resident.is_present_spec(
                        cell,
                        l,
                    ) == pre.resident.is_present_spec(cell, l),
                forall|c2: Cell, l2: LodIndex|
                    c2 != cell ==> (#[trigger] self.resident.reasons_of(c2, l2))
                        == pre.resident.reasons_of(c2, l2),
                forall|c2: Cell, l2: LodIndex|
                    c2 != cell ==> (#[trigger] self.resident.is_present_spec(c2, l2))
                        == pre.resident.is_present_spec(c2, l2),
            decreases lods@.len() - j,
        {
            let l = lods[j];
            let ghost mid = self.resident;
            self.resident.mark_unloaded(cell, l, reason);
            proof {
                // the state of `(cell, l)` after this removal, whether or not
                // an earlier entry for the same level already removed it
                if done.contains(l) {
                    assert(mid.reasons_of(cell, l) == pre.resident.reasons_of(cell, l).remove(
                        reason,
                    ));
                    assert(self.resident.reasons_of(cell, l) =~= pre.resident.reasons_of(
                        cell,
                        l,
                    ).remove(reason));
                    assert(self.resident.is_present_spec(cell, l) <==> (exists|r2: LoadReason|
                        #[trigger] pre.resident.reasons_of(cell, l).contains(r2) && r2
                            != reason)) by {
                        if self.resident.is_present_spec(cell, l) {
                            let r2 = choose|r2: LoadReason|
                                #[trigger] mid.reasons_of(cell, l).contains(r2) && r2 != reason;
                            assert(pre.resident.reasons_of(cell, l).contains(r2));
                        }
                        if exists|r2: LoadReason|
                            #[trigger] pre.resident.reasons_of(cell, l).contains(r2) && r2
                                != reason {
                            let r2 = choose|r2: LoadReason|
                                #[trigger] pre.resident.reasons_of(cell, l).contains(r2) && r2
                                    != reason;
                            assert(mid.reasons_of(cell, l).contains(r2));
                        }
                    }
                } else {
                    assert(mid.reasons_of(cell, l) == pre.resident.reasons_of(cell, l));
                }
                done = done.insert(l);
                assert forall|l2: LodIndex| #[trigger] done.contains(l2) implies self
                    .resident
                    .reasons_of(cell, l2) == pre.resident.reasons_of(cell, l2).remove(reason) by {
                    if l2 != l {
                        assert(self.resident.reasons_of(cell, l2) == mid.reasons_of(cell, l2));
                    }
                }
                assert forall|l2: LodIndex| #[trigger] done.contains(l2) implies (self
                    .resident
                    .is_present_spec(cell, l2) <==> (exists|r2: LoadReason|
                    #[trigger] pre.resident.reasons_of(cell, l2).contains(r2) && r2
                        != reason)) by {
                    if l2 != l {
                        assert(self.resident.is_present_spec(cell, l2) == mid.is_present_spec(
                            cell,
                            l2,
                        ));
                    }
                }
                assert forall|l2: LodIndex| !(#[trigger] done.contains(l2)) implies self
                    .resident
                    .reasons_of(cell, l2) == pre.resident.reasons_of(cell, l2) && self
                    .resident
                    .is_present_spec(cell, l2) == pre.resident.is_present_spec(cell, l2) by {
                    assert(l2 != l);
                    assert(self.resident.reasons_of(cell, l2) == mid.reasons_of(cell, l2));
                    assert(self.resident.is_present_spec(cell, l2) == mid.is_present_spec(
                        cell,
                        l2,
                    ));
                }
            }
            j = j + 1;
        }
        proof {
            assert forall|l: LodIndex|
                (#[trigger] self.resident.reasons_of(cell, l)) == pre.resident.reasons_of(
                    cell,
                    l,
                ).remove(reason) by {
                if !done.contains(l) {
                    assert(!lods@.contains(l)) by {
                        if lods@.contains(l) {
                            let k = choose|k: int| 0 <= k < lods@.len() && lods@[k] == l;
                            assert(done.contains(lods@[k]));
                        }
                    }
                    assert(!pre.resident.reasons_of(cell, l).contains(reason));
                    assert(self.resident.reasons_of(cell, l) =~= pre.resident.reasons_of(
                        cell,
                        l,
                    ).remove(reason));
                }
            }
            assert forall|l: LodIndex|
                (#[trigger] self.resident.is_present_spec(cell, l)) <==> (exists|r2: LoadReason|
                #[trigger] pre.resident.reasons_of(cell, l).contains(r2) && r2 != reason) by {
                if !done.contains(l) {
                    assert(!lods@.contains(l)) by {
                        if lods@.contains(l) {
                            let k = choose|k: int| 0 <= k < lods@.len() && lods@[k] == l;
                            assert(done.contains(lods@[k]));
                        }
                    }
                    assert(!pre.resident.reasons_of(cell, l).contains(reason));
                    lemma_present_iff_reason(pre.resident, cell, l);
                    if self.resident.is_present_spec(cell, l) {
                        let r2 = choose|r2: LoadReason|
                            #[trigger] pre.resident.reasons_of(cell, l).contains(r2);
                        assert(r2 != reason);
                    }
                    if exists|r2: LoadReason|
                        #[trigger] pre.resident.reasons_of(cell, l).contains(r2) && r2 != reason {
                        let r2 = choose|r2: LoadReason|
                            #[trigger] pre.resident.reasons_of(cell, l).contains(r2) && r2
                                != reason;
                        assert(pre.resident.is_present_spec(cell, l));
                    }
                }
            }
            assert forall|c: Cell, l: LodIndex|
                #[trigger] self.pending.is_present_spec(c, l) implies !self.resident
                .is_present_spec(c, l) by {
                if c != cell {
                    assert(self.resident.is_present_spec(c, l) == pre.resident.is_present_spec(
                        c,
                        l,
                    ));
                } else {
                    if self.resident.is_present_spec(cell, l) {
                        let r2 = choose|r2: LoadReason|
                            #[trigger] pre.resident.reasons_of(cell, l).contains(r2) && r2
                                != reason;
                        lemma_present_iff_reason(pre.resident, cell, l);
                        assert(pre.resident.is_present_spec(cell, l));
                    }
                }
            }
        }
    }

    /// Remove `reason`'s interest in resident content for `(cell, lod)`.
    /// Content held by any other reason is retained; once the last reason is
    /// gone the cell is neither present nor pending.
    pub fn mark_unloaded(&mut self, cell: Cell, lod: LodIndex, reason: LoadReason)
        requires
            old(self).wf(),
        ensures
            final(self).wf(),
            final(self).resident.reasons_of(cell, lod) == old(self).resident.reasons_of(
                cell,
                lod,
            ).remove(reason),
            forall|c2: Cell, l2: LodIndex|
                !(c2 == cell && l2 == lod) ==> (#[trigger] final(self).resident.reasons_of(c2, l2))
                    == old(self).resident.reasons_of(c2, l2),
            forall|c2: Cell, l2: LodIndex|
                !(c2 == cell && l2 == lod) ==> (#[trigger] final(self).resident.is_present_spec(
                    c2,
                    l2,
                )) == old(self).resident.is_present_spec(c2, l2),
            final(self).pending == old(self).pending,
            final(self).is_present_spec(cell, lod) <==> (exists|r2: LoadReason|
                #[trigger] old(self).resident.reasons_of(cell, lod).contains(r2) && r2 != reason),
            old(self).resident.reasons_of(cell, lod) == Set::<LoadReason>::empty().insert(reason)
                ==> !final(self).is_present_spec(cell, lod) && !final(self).is_pending_spec(
                cell,
                lod,
            ),
    {
        self.resident.mark_unloaded(cell, lod, reason);
        proof {
            assert forall|c: Cell, l: LodIndex|
                #[trigger] self.pending.is_present_spec(c, l) implies !self.resident
                .is_present_spec(c, l) by {
                if !(c == cell && l == lod) {
                    assert(old(self).resident.is_present_spec(c, l) == self.resident
                        .is_present_spec(c, l));
                } else {
                    if self.resident.is_present_spec(cell, lod) {
                        let r2 = choose|r2: LoadReason|
                            #[trigger] old(self).resident.reasons_of(cell, lod).contains(r2) && r2
                                != reason;
                        assert(old(self).resident.is_present_spec(cell, lod)) by {
                            let j = choose|j: int|
                                0 <= j < old(self).resident.entries@.len() && (#[trigger] old(
                                    self,
                                ).resident.entries@[j]).cell == cell && old(
                                    self,
                                ).resident.entries@[j].lod == lod && old(
                                    self,
                                ).resident.entries@[j].reasons@.contains(r2);
                            assert(crate::residency::seq_has_key(
                                old(self).resident.entries@,
                                cell,
                                lod,
                            ));
                        }
                    }
                }
            }
            if old(self).resident.reasons_of(cell, lod) == Set::<LoadReason>::empty().insert(
                reason,
            ) {
                assert(old(self).resident.reasons_of(cell, lod).contains(reason));
                assert(old(self).resident.is_present_spec(cell, lod)) by {
                    let j = choose|j: int|
                        0 <= j < old(self).resident.entries@.len() && (#[trigger] old(
                            self,
                        ).resident.entries@[j]).cell == cell && old(self).resident.entries@[j].lod
                            == lod && old(self).resident.entries@[j].reasons@.contains(reason);
                    assert(crate::residency::seq_has_key(old(self).resident.entries@, cell, lod));
                }
                assert(!old(self).pending.is_present_spec(cell, lod));
                assert(!self.is_present_spec(cell, lod)) by {
                    if self.is_present_spec(cell, lod) {
                        let r2 = choose|r2: LoadReason|
                            #[trigger] old(self).resident.reasons_of(cell, lod).contains(r2) && r2
                                != reason;
                    }
                }
            }
        }
    }
}

/// Two `request_block` calls for the same `(cell, lod)` with different
/// reasons, before any completion arrives, cause exactly one dispatch to
/// the generation collaborator: the first call dispatches, the second is
/// absorbed into the pending record. On completion, both reasons receive
/// their delivery or commit.
pub proof fn lemma_coalesced_requests(
    s0: Coordinator,
    s1: Coordinator,
    s2: Coordinator,
    s3: Coordinator,
    cell: Cell,
    lod: LodIndex,
    r1: LoadReason,
    r2: LoadReason,
    a1: Option<Action>,
    a2: Option<Action>,
    acts: Seq<Action>,
)
    requires
        s1.wf(),
        s2.wf(),
        !s0.is_present_spec(cell, lod),
        !s0.is_pending_spec(cell, lod),
        r1 != r2,
        request_post(s0, s1, cell, lod, r1, a1),
        request_post(s1, s2, cell, lod, r2, a2),
        loaded_post(s2, s3, cell, lod, acts),
    ensures
        a1 == Some(Action::Dispatch(cell, lod)),
        a2 is None,
        match r1 {
            LoadReason::Local(o) => acts.contains(Action::Commit(o, cell, lod)),
            LoadReason::ForClient(cl) => acts.contains(Action::Deliver(cl, cell, lod)),
        },
        match r2 {
            LoadReason::Local(o) => acts.contains(Action::Commit(o, cell, lod)),
            LoadReason::ForClient(cl) => acts.contains(Action::Deliver(cl, cell, lod)),
        },
{
    assert(s1.pending.reasons_of(cell, lod) == Set::<LoadReason>::empty().insert(r1));
    assert(s2.pending.reasons_of(cell, lod) == Set::<LoadReason>::empty().insert(r1).insert(r2));
    assert(s2.pending.reasons_of(cell, lod).contains(r1));
    assert(s2.pending.reasons_of(cell, lod).contains(r2));
    match r1 {
        LoadReason::Local(o) => {
            assert(s2.pending.reasons_of(cell, lod).contains(LoadReason::Local(o)));
        },
        LoadReason::ForClient(cl) => {
            assert(s2.pending.reasons_of(cell, lod).contains(LoadReason::ForClient(cl)));
        },
    }
    match r2 {
        LoadReason::Local(o) => {
            assert(s2.pending.reasons_of(cell, lod).contains(LoadReason::Local(o)));
        },
        LoadReason::ForClient(cl) => {
            assert(s2.pending.reasons_of(cell, lod).contains(LoadReason::ForClient(cl)));
        },
    }
}

} // verus!

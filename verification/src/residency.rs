//! Per-consumer residency bookkeeping: which loaded cells exist, at which
//! level of detail, and the set of reasons currently interested in each.

use vstd::prelude::*;
use crate::cell::Cell;

verus! {

/// Selects a level of detail for a loaded cell's content. Opaque to this
/// library: multiple indices may coexist for the same cell.
pub type LodIndex = u32;

/// Identifies an independent observer whose resident region is tracked
/// separately (for example the server's own physics view).
pub type OwnerId = u32;

/// Identifies a connected client.
pub type ClientId = u32;

/// Why a cell's content is wanted. Reasons are not interchangeable:
/// fulfilling one does not satisfy another unless both target the same
/// cell and level of detail.
#[derive(Clone, Copy, PartialEq, Eq, Structural, Debug)]
pub enum LoadReason {
    /// The cell maintains the resident volume of a moving observer.
    Local(OwnerId),
    /// The cell satisfies an explicit request by a specific client.
    ForClient(ClientId),
}

/// One loaded cell at one level of detail, with the reasons holding it
/// resident. An entry only exists while at least one reason remains.
pub struct ResidencyEntry {
    pub cell: Cell,
    pub lod: LodIndex,
    pub reasons: Vec<LoadReason>,
}

/// The set of reasons interested in `(cell, lod)` among the entries of `s`.
pub open spec fn seq_reasons(s: Seq<ResidencyEntry>, cell: Cell, lod: LodIndex) -> Set<
    LoadReason,
> {
    Set::new(
        |rn: LoadReason|
            exists|i: int|
                0 <= i < s.len() && (#[trigger] s[i]).cell == cell && s[i].lod == lod
                    && s[i].reasons@.contains(rn),
    )
}

/// Some entry of `s` is keyed by `(cell, lod)`.
pub open spec fn seq_has_key(s: Seq<ResidencyEntry>, cell: Cell, lod: LodIndex) -> bool {
    exists|i: int| 0 <= i < s.len() && (#[trigger] s[i]).cell == cell && s[i].lod == lod
}

/// Map from loaded `(cell, lod)` pairs to their interested reasons.
pub struct ResidencyTracker {
    pub entries: Vec<ResidencyEntry>,
}

impl ResidencyTracker {
    /// The reasons currently holding `(cell, lod)` resident.
    pub open spec fn reasons_of(self, cell: Cell, lod: LodIndex) -> Set<LoadReason> {
        seq_reasons(self.entries@, cell, lod)
    }

    /// Content for `(cell, lod)` is resident.
    pub open spec fn is_present_spec(self, cell: Cell, lod: LodIndex) -> bool {
        seq_has_key(self.entries@, cell, lod)
    }

    /// Entries have distinct `(cell, lod)` keys, and each holds a nonempty,
    /// duplicate-free set of reasons.
    pub open spec fn wf(self) -> bool {
        &&& forall|i: int, j: int|
            0 <= i < j < self.entries@.len() ==> !((#[trigger] self.entries@[i]).cell == (
            #[trigger] self.entries@[j]).cell && self.entries@[i].lod == self.entries@[j].lod)
        &&& forall|i: int|
            0 <= i < self.entries@.len() ==> (#[trigger] self.entries@[i]).reasons@.len() > 0
        &&& forall|i: int, a: int, b: int|
            #![trigger self.entries@[i].reasons@[a], self.entries@[i].reasons@[b]]
            0 <= i < self.entries@.len() && 0 <= a < b < self.entries@[i].reasons@.len()
                ==> self.entries@[i].reasons@[a] != self.entries@[i].reasons@[b]
    }

    /// An empty tracker: nothing resident.
    pub fn new() -> (t: ResidencyTracker)
        ensures
            t.wf(),
            forall|c: Cell, l: LodIndex| !(#[trigger] t.is_present_spec(c, l)),
            forall|c: Cell, l: LodIndex| (#[trigger] t.reasons_of(c, l)) =~= Set::empty(),
    {
        let t = ResidencyTracker { entries: Vec::new() };
        proof {
            assert forall|c: Cell, l: LodIndex| (#[trigger] t.reasons_of(c, l))
                =~= Set::<LoadReason>::empty() by {}
        }
        t
    }

    /// Index of the entry for `(cell, lod)`, if one exists.
    fn find(&self, cell: Cell, lod: LodIndex) -> (r: Option<usize>)
        ensures
            match r {
                Some(i) => i < self.entries@.len() && self.entries@[i as int].cell == cell
                    && self.entries@[i as int].lod == lod,
                None => !self.is_present_spec(cell, lod),
            },
    {
        let mut i: usize = 0;
        while i < self.entries.len()
            invariant
                i <= self.entries@.len(),
                forall|k: int|
                    0 <= k < i ==> !((#[trigger] self.entries@[k]).cell == cell
                        && self.entries@[k].lod == lod),
            decreases self.entries@.len() - i,
        {
            if self.entries[i].cell == cell && self.entries[i].lod == lod {
                return Some(i);
            }
            i = i + 1;
        }
        None
    }

    /// Whether content for `(cell, lod)` is already resident.
    pub fn is_present(&self, cell: Cell, lod: LodIndex) -> (b: bool)
        ensures
            b == self.is_present_spec(cell, lod),
    {
        match self.find(cell, lod) {
            Some(_) => true,
            None => false,
        }
    }

    /// Record that `reason` now holds `(cell, lod)` resident, creating the
    /// entry if none exists and otherwise merging the reason into it.
    pub fn mark_loaded(&mut self, cell: Cell, lod: LodIndex, reason: LoadReason)
        requires
            old(self).wf(),
        ensures
            final(self).wf(),
            final(self).reasons_of(cell, lod) == old(self).reasons_of(cell, lod).insert(reason),
            final(self).is_present_spec(cell, lod),
            forall|c2: Cell, l2: LodIndex|
                !(c2 == cell && l2 == lod) ==> (#[trigger] final(self).reasons_of(c2, l2)) == old(
                    self,
                ).reasons_of(c2, l2),
            forall|c2: Cell, l2: LodIndex|
                !(c2 == cell && l2 == lod) ==> (#[trigger] final(self).is_present_spec(c2, l2))
                    == old(self).is_present_spec(c2, l2),
    {
        let ghost s0 = self.entries@;
        match self.find(cell, lod) {
            Some(i) => {
                let mut e = self.entries.remove(i);
                let ghost v0 = e.reasons@;
                let had = reasons_contains(&e.reasons, reason);
                if !had {
                    e.reasons.push(reason);
                }
                let ghost v1 = e.reasons@;
                self.entries.insert(i, e);
                proof {
                    assert forall|rn: LoadReason| #[trigger] v1.contains(rn) implies v0.contains(
                        rn,
                    ) || rn == reason by {
                        let k = choose|k: int| 0 <= k < v1.len() && v1[k] == rn;
                        if k < v0.len() {
                            assert(v0[k] == rn);
                        }
                    }
                    assert forall|rn: LoadReason| v0.contains(rn) || rn == reason implies
                        #[trigger] v1.contains(rn) by {
                        if v0.contains(rn) {
                            let k = choose|k: int| 0 <= k < v0.len() && v0[k] == rn;
                            assert(v1[k] == rn);
                        } else if !had {
                            assert(v1[v0.len() as int] == reason);
                        }
                    }
                    assert(self.entries@ =~= s0.update(i as int, s0[i as int]).update(
                        i as int,
                        self.entries@[i as int],
                    ));
                    assert(self.entries@[i as int].reasons@ == v1);
                    lemma_update_entry(s0, self.entries@, i as int, cell, lod, reason);
                    assert(self.entries@[i as int].cell == cell);
                    assert forall|c2: Cell, l2: LodIndex| !(c2 == cell && l2 == lod) implies (
                    #[trigger] self.is_present_spec(c2, l2)) == old(self).is_present_spec(
                        c2,
                        l2,
                    ) by {
                        if self.is_present_spec(c2, l2) {
                            let j = choose|j: int|
                                0 <= j < self.entries@.len() && (#[trigger] self.entries@[j]).cell
                                    == c2 && self.entries@[j].lod == l2;
                            assert(s0[j].cell == c2 && s0[j].lod == l2);
                        }
                        if old(self).is_present_spec(c2, l2) {
                            let j = choose|j: int|
                                0 <= j < s0.len() && (#[trigger] s0[j]).cell == c2 && s0[j].lod
                                    == l2;
                            assert(self.entries@[j].cell == c2 && self.entries@[j].lod == l2);
                        }
                    }
                }
            },
            None => {
                let mut reasons: Vec<LoadReason> = Vec::new();
                reasons.push(reason);
                let ghost v1 = reasons@;
                self.entries.push(ResidencyEntry { cell, lod, reasons });
                proof {
                    let n = s0.len() as int;
                    assert(v1.len() == 1 && v1[0] == reason);
                    assert forall|rn: LoadReason| #[trigger] v1.contains(rn) implies rn
                        == reason by {
                        let k = choose|k: int| 0 <= k < v1.len() && v1[k] == rn;
                    }
                    assert(v1.contains(reason)) by {
                        assert(v1[0] == reason);
                    }
                    assert(self.entries@[n].reasons@ == v1);
                    lemma_push_entry(s0, self.entries@, cell, lod, reason);
                    assert(self.entries@[n].cell == cell);
                    assert forall|c2: Cell, l2: LodIndex| !(c2 == cell && l2 == lod) implies (
                    #[trigger] self.is_present_spec(c2, l2)) == old(self).is_present_spec(
                        c2,
                        l2,
                    ) by {
                        if self.is_present_spec(c2, l2) {
                            let j = choose|j: int|
                                0 <= j < self.entries@.len() && (#[trigger] self.entries@[j]).cell
                                    == c2 && self.entries@[j].lod == l2;
                            assert(j < n);
                            assert(s0[j].cell == c2 && s0[j].lod == l2);
                        }
                        if old(self).is_present_spec(c2, l2) {
                            let j = choose|j: int|
                                0 <= j < s0.len() && (#[trigger] s0[j]).cell == c2 && s0[j].lod
                                    == l2;
                            assert(self.entries@[j].cell == c2 && self.entries@[j].lod == l2);
                        }
                    }
                }
            },
        }
    }
    /// Remove `reason`'s interest in `(cell, lod)`. The entry is destroyed
    /// only when its reason set becomes empty; content held by any other
    /// reason is retained.
    pub fn mark_unloaded(&mut self, cell: Cell, lod: LodIndex, reason: LoadReason)
        requires
            old(self).wf(),
        ensures
            final(self).wf(),
            final(self).reasons_of(cell, lod) == old(self).reasons_of(cell, lod).remove(reason),
            forall|c2: Cell, l2: LodIndex|
                !(c2 == cell && l2 == lod) ==> (#[trigger] final(self).reasons_of(c2, l2)) == old(
                    self,
                ).reasons_of(c2, l2),
            forall|c2: Cell, l2: LodIndex|
                !(c2 == cell && l2 == lod) ==> (#[trigger] final(self).is_present_spec(c2, l2))
                    == old(self).is_present_spec(c2, l2),
            final(self).is_present_spec(cell, lod) <==> (exists|r2: LoadReason|
                #[trigger] old(self).reasons_of(cell, lod).contains(r2) && r2 != reason),
    {
        let ghost s0 = self.entries@;
        match self.find(cell, lod) {
            None => {
                proof {
                    assert forall|rn: LoadReason|
                        !(#[trigger] seq_reasons(s0, cell, lod).contains(rn)) by {
                        if seq_reasons(s0, cell, lod).contains(rn) {
                            let j = choose|j: int|
                                0 <= j < s0.len() && (#[trigger] s0[j]).cell == cell && s0[j].lod
                                    == lod && s0[j].reasons@.contains(rn);
                            assert(old(self).is_present_spec(cell, lod));
                        }
                    }
                    assert(seq_reasons(s0, cell, lod) =~= seq_reasons(s0, cell, lod).remove(
                        reason,
                    ));
                }
            },
            Some(i) => {
                let mut e = self.entries.remove(i);
                let ghost v0 = e.reasons@;
                match find_reason_index(&e.reasons, reason) {
                    None => {
                        self.entries.insert(i, e);
                        proof {
                            assert(self.entries@ =~= s0);
                            assert forall|rn: LoadReason|
                                seq_reasons(s0, cell, lod).contains(rn) <==> seq_reasons(
                                    s0,
                                    cell,
                                    lod,
                                ).remove(reason).contains(rn) by {
                                if rn == reason && seq_reasons(s0, cell, lod).contains(rn) {
                                    let j = choose|j: int|
                                        0 <= j < s0.len() && (#[trigger] s0[j]).cell == cell
                                            && s0[j].lod == lod && s0[j].reasons@.contains(rn);
                                    assert(j == i);
                                    assert(v0.contains(reason));
                                }
                            }
                            assert(seq_reasons(s0, cell, lod) =~= seq_reasons(s0, cell, lod)
                                .remove(reason));
                            assert(self.entries@[i as int].cell == cell);
                            let r2 = v0[0];
                            assert(v0.contains(r2));
                            assert(seq_reasons(s0, cell, lod).contains(r2));
                        }
                    },
                    Some(k) => {
                        e.reasons.swap_remove(k);
                        let ghost v1 = e.reasons@;
                        proof {
                            assert forall|rn: LoadReason| #[trigger] v1.contains(rn) implies v0
                                .contains(rn) && rn != reason by {
                                let m = choose|m: int| 0 <= m < v1.len() && v1[m] == rn;
                                if m == k {
                                    assert(v0[v0.len() - 1] == rn);
                                } else {
                                    assert(v0[m] == rn);
                                }
                            }
                            assert forall|rn: LoadReason|
                                v0.contains(rn) && rn != reason implies #[trigger] v1.contains(
                                rn,
                            ) by {
                                let m = choose|m: int| 0 <= m < v0.len() && v0[m] == rn;
                                assert(m != k);
                                if m == v0.len() - 1 {
                                    assert(v1[k as int] == rn);
                                } else {
                                    assert(v1[m] == rn);
                                }
                            }
                        }
                        if e.reasons.len() > 0 {
                            self.entries.insert(i, e);
                            proof {
                                assert(self.entries@ =~= s0.update(
                                    i as int,
                                    self.entries@[i as int],
                                ));
                                assert(self.entries@[i as int].reasons@ == v1);
                                lemma_shrink_entry(s0, self.entries@, i as int, cell, lod, reason);
                                assert(self.entries@[i as int].cell == cell);
                                assert forall|c2: Cell, l2: LodIndex|
                                    !(c2 == cell && l2 == lod) implies (#[trigger] self
                                    .is_present_spec(c2, l2)) == old(self).is_present_spec(
                                    c2,
                                    l2,
                                ) by {
                                    if self.is_present_spec(c2, l2) {
                                        let j = choose|j: int|
                                            0 <= j < self.entries@.len() && (#[trigger] self
                                                .entries@[j]).cell == c2 && self.entries@[j].lod
                                                == l2;
                                        assert(s0[j].cell == c2 && s0[j].lod == l2);
                                    }
                                    if old(self).is_present_spec(c2, l2) {
                                        let j = choose|j: int|
                                            0 <= j < s0.len() && (#[trigger] s0[j]).cell == c2
                                                && s0[j].lod == l2;
                                        assert(self.entries@[j].cell == c2 && self.entries@[j].lod
                                            == l2);
                                    }
                                }
                                let r2 = v1[0];
                                assert(v1.contains(r2));
                                assert(seq_reasons(s0, cell, lod).contains(r2));
                            }
                        } else {
                            proof {
                                lemma_remove_entry(s0, self.entries@, i as int, cell, lod);
                                assert(v0.len() == 1);
                                assert forall|rn: LoadReason| #[trigger] v0.contains(rn) implies rn
                                    == reason by {
                                    let m = choose|m: int| 0 <= m < v0.len() && v0[m] == rn;
                                }
                                assert(self.reasons_of(cell, lod) =~= old(self).reasons_of(
                                    cell,
                                    lod,
                                ).remove(reason));
                                assert forall|r2: LoadReason|
                                    !(#[trigger] old(self).reasons_of(cell, lod).contains(r2)
                                        && r2 != reason) by {
                                    if old(self).reasons_of(cell, lod).contains(r2) {
                                        assert(v0.contains(r2));
                                    }
                                }
                            }
                        }
                    },
                }
            },
        }
    }

    /// The levels of detail at which `reason` currently holds `cell`
    /// resident, each listed once.
    pub fn lods_held(&self, cell: Cell, reason: LoadReason) -> (lods: Vec<LodIndex>)
        ensures
            forall|k: int|
                0 <= k < lods@.len() ==> self.reasons_of(cell, #[trigger] lods@[k]).contains(
                    reason,
                ),
            forall|l: LodIndex|
                (#[trigger] self.reasons_of(cell, l)).contains(reason) ==> lods@.contains(l),
            forall|k1: int, k2: int| 0 <= k1 < k2 < lods@.len() ==> lods@[k1] != lods@[k2],
    {
        let mut lods: Vec<LodIndex> = Vec::new();
        let mut i: usize = 0;
        while i < self.entries.len()
            invariant
                i <= self.entries@.len(),
                forall|k: int|
                    0 <= k < lods@.len() ==> self.reasons_of(cell, #[trigger] lods@[k]).contains(
                        reason,
                    ),
                forall|j: int|
                    0 <= j < i && (#[trigger] self.entries@[j]).cell == cell && self.entries@[j]
                        .reasons@.contains(reason) ==> lods@.contains(self.entries@[j].lod),
                forall|k1: int, k2: int| 0 <= k1 < k2 < lods@.len() ==> lods@[k1] != lods@[k2],
            decreases self.entries@.len() - i,
        {
            let matched = self.entries[i].cell == cell && reasons_contains(
                &self.entries[i].reasons,
                reason,
            );
            if matched {
                let l = self.entries[i].lod;
                if !lods_contain(&lods, l) {
                    let ghost lods0 = lods@;
                    lods.push(l);
                    proof {
                        assert(seq_reasons(self.entries@, cell, l).contains(reason)) by {
                            assert(self.entries@[i as int].reasons@.contains(reason));
                        }
                        assert forall|j: int|
                            0 <= j <= i && (#[trigger] self.entries@[j]).cell == cell
                                && self.entries@[j].reasons@.contains(reason) implies lods@
                            .contains(self.entries@[j].lod) by {
                            if j < i {
                                let k = choose|k: int|
                                    0 <= k < lods0.len() && lods0[k] == self.entries@[j].lod;
                                assert(lods@[k] == self.entries@[j].lod);
                            } else {
                                assert(lods@[lods0.len() as int] == l);
                            }
                        }
                    }
                } else {
                    proof {
                        assert forall|j: int|
                            0 <= j <= i && (#[trigger] self.entries@[j]).cell == cell
                                && self.entries@[j].reasons@.contains(reason) implies lods@
                            .contains(self.entries@[j].lod) by {}
                    }
                }
            }
            i = i + 1;
        }
        proof {
            assert forall|l: LodIndex| (#[trigger] self.reasons_of(cell, l)).contains(
                reason,
            ) implies lods@.contains(l) by {
                let j = choose|j: int|
                    0 <= j < self.entries@.len() && (#[trigger] self.entries@[j]).cell == cell
                        && self.entries@[j].lod == l && self.entries@[j].reasons@.contains(reason);
            }
        }
        lods
    }

    /// Remove and return the whole entry for `(cell, lod)`, if one exists:
    /// afterwards no reason holds the key.
    pub fn take_entry(&mut self, cell: Cell, lod: LodIndex) -> (r: Option<Vec<LoadReason>>)
        requires
            old(self).wf(),
        ensures
            final(self).wf(),
            !final(self).is_present_spec(cell, lod),
            final(self).reasons_of(cell, lod) == Set::<LoadReason>::empty(),
            forall|c2: Cell, l2: LodIndex|
                !(c2 == cell && l2 == lod) ==> (#[trigger] final(self).reasons_of(c2, l2)) == old(
                    self,
                ).reasons_of(c2, l2),
            forall|c2: Cell, l2: LodIndex|
                !(c2 == cell && l2 == lod) ==> (#[trigger] final(self).is_present_spec(c2, l2))
                    == old(self).is_present_spec(c2, l2),
            match r {
                Some(v) => old(self).is_present_spec(cell, lod) && v@.len() > 0 && (forall|
                    rn: LoadReason,
                |
                    #[trigger] v@.contains(rn) <==> old(self).reasons_of(cell, lod).contains(rn)),
                None => !old(self).is_present_spec(cell, lod),
            },
    {
        let ghost s0 = self.entries@;
        match self.find(cell, lod) {
            None => {
                proof {
                    lemma_absent_key_no_reasons(*self, cell, lod);
                }
                None
            },
            Some(i) => {
                let e = self.entries.remove(i);
                proof {
                    lemma_remove_entry(s0, self.entries@, i as int, cell, lod);
                }
                Some(e.reasons)
            },
        }
    }
}

/// A key with no entry has no interested reasons.
pub proof fn lemma_absent_key_no_reasons(t: ResidencyTracker, cell: Cell, lod: LodIndex)
    requires
        !t.is_present_spec(cell, lod),
    ensures
        t.reasons_of(cell, lod) == Set::<LoadReason>::empty(),
{
    assert forall|rn: LoadReason|
        !(#[trigger] seq_reasons(t.entries@, cell, lod).contains(rn)) by {
        if seq_reasons(t.entries@, cell, lod).contains(rn) {
            let j = choose|j: int|
                0 <= j < t.entries@.len() && (#[trigger] t.entries@[j]).cell == cell
                    && t.entries@[j].lod == lod && t.entries@[j].reasons@.contains(rn);
            assert(seq_has_key(t.entries@, cell, lod));
        }
    }
    assert(t.reasons_of(cell, lod) =~= Set::<LoadReason>::empty());
}

/// In a well-formed tracker a key is present exactly when some reason
/// holds it: entries exist only while their reason set is nonempty.
pub proof fn lemma_present_iff_reason(t: ResidencyTracker, cell: Cell, lod: LodIndex)
    requires
        t.wf(),
    ensures
        t.is_present_spec(cell, lod) <==> (exists|rn: LoadReason|
            #[trigger] t.reasons_of(cell, lod).contains(rn)),
{
    if t.is_present_spec(cell, lod) {
        let j = choose|j: int|
            0 <= j < t.entries@.len() && (#[trigger] t.entries@[j]).cell == cell
                && t.entries@[j].lod == lod;
        let rn = t.entries@[j].reasons@[0];
        assert(t.entries@[j].reasons@.contains(rn));
        assert(t.reasons_of(cell, lod).contains(rn));
    }
    if exists|rn: LoadReason| #[trigger] t.reasons_of(cell, lod).contains(rn) {
        let rn = choose|rn: LoadReason| #[trigger] t.reasons_of(cell, lod).contains(rn);
        let j = choose|j: int|
            0 <= j < t.entries@.len() && (#[trigger] t.entries@[j]).cell == cell
                && t.entries@[j].lod == lod && t.entries@[j].reasons@.contains(rn);
        assert(seq_has_key(t.entries@, cell, lod));
    }
}

/// Whether `l` occurs in `v`.
fn lods_contain(v: &Vec<LodIndex>, l: LodIndex) -> (b: bool)
    ensures
        b == v@.contains(l),
{
    let mut i: usize = 0;
    while i < v.len()
        invariant
            i <= v@.len(),
            forall|k: int| 0 <= k < i ==> v@[k] != l,
        decreases v@.len() - i,
    {
        if v[i] == l {
            return true;
        }
        i = i + 1;
    }
    false
}

/// Index of `rn` in `v`, if it occurs.
fn find_reason_index(v: &Vec<LoadReason>, rn: LoadReason) -> (r: Option<usize>)
    ensures
        match r {
            Some(k) => k < v@.len() && v@[k as int] == rn,
            None => !v@.contains(rn),
        },
{
    let mut i: usize = 0;
    while i < v.len()
        invariant
            i <= v@.len(),
            forall|k: int| 0 <= k < i ==> v@[k] != rn,
        decreases v@.len() - i,
    {
        if v[i] == rn {
            return Some(i);
        }
        i = i + 1;
    }
    None
}

/// Shrinking the reason set of the entry at `i` by exactly `reason`
/// removes that reason from its key and leaves every other key unchanged.
proof fn lemma_shrink_entry(
    s0: Seq<ResidencyEntry>,
    s1: Seq<ResidencyEntry>,
    i: int,
    cell: Cell,
    lod: LodIndex,
    reason: LoadReason,
)
    requires
        0 <= i < s0.len(),
        s1.len() == s0.len(),
        forall|k: int| 0 <= k < s0.len() && k != i ==> s1[k] == s0[k],
        s1[i].cell == cell && s1[i].lod == lod,
        s0[i].cell == cell && s0[i].lod == lod,
        forall|k: int| 0 <= k < s0.len() && k != i ==> !((#[trigger] s0[k]).cell == cell && s0[k].lod == lod),
        forall|rn: LoadReason|
            #[trigger] s1[i].reasons@.contains(rn) <==> s0[i].reasons@.contains(rn) && rn
                != reason,
    ensures
        seq_reasons(s1, cell, lod) == seq_reasons(s0, cell, lod).remove(reason),
        forall|c2: Cell, l2: LodIndex|
            !(c2 == cell && l2 == lod) ==> (#[trigger] seq_reasons(s1, c2, l2)) == seq_reasons(
                s0,
                c2,
                l2,
            ),
{
    assert forall|rn: LoadReason|
        seq_reasons(s1, cell, lod).contains(rn) <==> seq_reasons(s0, cell, lod).remove(
            reason,
        ).contains(rn) by {
        if seq_reasons(s1, cell, lod).contains(rn) {
            let j = choose|j: int|
                0 <= j < s1.len() && (#[trigger] s1[j]).cell == cell && s1[j].lod == lod && s1[j]
                    .reasons@.contains(rn);
            assert(j == i);
            assert(s0[i].reasons@.contains(rn) && rn != reason);
        }
        if rn != reason && seq_reasons(s0, cell, lod).contains(rn) {
            let j = choose|j: int|
                0 <= j < s0.len() && (#[trigger] s0[j]).cell == cell && s0[j].lod == lod && s0[j]
                    .reasons@.contains(rn);
            assert(j == i);
            assert(s1[i].reasons@.contains(rn));
        }
    }
    assert(seq_reasons(s1, cell, lod) =~= seq_reasons(s0, cell, lod).remove(reason));
    assert forall|c2: Cell, l2: LodIndex| !(c2 == cell && l2 == lod) implies (#[trigger] seq_reasons(
        s1,
        c2,
        l2,
    )) == seq_reasons(s0, c2, l2) by {
        assert forall|rn: LoadReason|
            seq_reasons(s1, c2, l2).contains(rn) <==> seq_reasons(s0, c2, l2).contains(rn) by {
            if seq_reasons(s1, c2, l2).contains(rn) {
                let j = choose|j: int|
                    0 <= j < s1.len() && (#[trigger] s1[j]).cell == c2 && s1[j].lod == l2 && s1[j]
                        .reasons@.contains(rn);
                assert(s0[j].reasons@.contains(rn));
            }
            if seq_reasons(s0, c2, l2).contains(rn) {
                let j = choose|j: int|
                    0 <= j < s0.len() && (#[trigger] s0[j]).cell == c2 && s0[j].lod == l2 && s0[j]
                        .reasons@.contains(rn);
                assert(s1[j].reasons@.contains(rn));
            }
        }
        assert(seq_reasons(s1, c2, l2) =~= seq_reasons(s0, c2, l2));
    }
}

/// Removing the entry at `i` empties its key, whose reasons were exactly
/// that entry's, and leaves every other key, and its presence, unchanged.
proof fn lemma_remove_entry(
    s0: Seq<ResidencyEntry>,
    s1: Seq<ResidencyEntry>,
    i: int,
    cell: Cell,
    lod: LodIndex,
)
    requires
        0 <= i < s0.len(),
        s1 == s0.remove(i),
        s0[i].cell == cell && s0[i].lod == lod,
        forall|k: int| 0 <= k < s0.len() && k != i ==> !((#[trigger] s0[k]).cell == cell && s0[k].lod == lod),
    ensures
        seq_reasons(s1, cell, lod) == Set::<LoadReason>::empty(),
        forall|rn: LoadReason|
            #[trigger] seq_reasons(s0, cell, lod).contains(rn) <==> s0[i].reasons@.contains(rn),
        forall|c2: Cell, l2: LodIndex|
            !(c2 == cell && l2 == lod) ==> (#[trigger] seq_reasons(s1, c2, l2)) == seq_reasons(
                s0,
                c2,
                l2,
            ),
        !seq_has_key(s1, cell, lod),
        forall|c2: Cell, l2: LodIndex|
            !(c2 == cell && l2 == lod) ==> ((#[trigger] seq_has_key(s1, c2, l2)) <==> seq_has_key(
                s0,
                c2,
                l2,
            )),
{
    assert forall|j: int| 0 <= j < s1.len() implies !((#[trigger] s1[j]).cell == cell && s1[j].lod
        == lod) by {
        if j < i {
            assert(s1[j] == s0[j]);
        } else {
            assert(s1[j] == s0[j + 1]);
        }
    }
    assert forall|rn: LoadReason|
        #[trigger] seq_reasons(s0, cell, lod).contains(rn) <==> s0[i].reasons@.contains(rn) by {
        if seq_reasons(s0, cell, lod).contains(rn) {
            let j = choose|j: int|
                0 <= j < s0.len() && (#[trigger] s0[j]).cell == cell && s0[j].lod == lod && s0[j]
                    .reasons@.contains(rn);
            assert(j == i);
        }
    }
    assert(seq_reasons(s1, cell, lod) =~= Set::<LoadReason>::empty());
    assert forall|c2: Cell, l2: LodIndex| !(c2 == cell && l2 == lod) implies (#[trigger] seq_reasons(
        s1,
        c2,
        l2,
    )) == seq_reasons(s0, c2, l2) by {
        assert forall|rn: LoadReason|
            seq_reasons(s1, c2, l2).contains(rn) <==> seq_reasons(s0, c2, l2).contains(rn) by {
            if seq_reasons(s1, c2, l2).contains(rn) {
                let j = choose|j: int|
                    0 <= j < s1.len() && (#[trigger] s1[j]).cell == c2 && s1[j].lod == l2 && s1[j]
                        .reasons@.contains(rn);
                if j < i {
                    assert(s0[j].reasons@.contains(rn));
                } else {
                    assert(s0[j + 1].reasons@.contains(rn));
                }
            }
            if seq_reasons(s0, c2, l2).contains(rn) {
                let j = choose|j: int|
                    0 <= j < s0.len() && (#[trigger] s0[j]).cell == c2 && s0[j].lod == l2 && s0[j]
                        .reasons@.contains(rn);
                assert(j != i);
                if j < i {
                    assert(s1[j].reasons@.contains(rn));
                } else {
                    assert(s1[j - 1].reasons@.contains(rn));
                }
            }
        }
        assert(seq_reasons(s1, c2, l2) =~= seq_reasons(s0, c2, l2));
    }
    assert forall|c2: Cell, l2: LodIndex|
        !(c2 == cell && l2 == lod) implies ((#[trigger] seq_has_key(s1, c2, l2)) <==> seq_has_key(
        s0,
        c2,
        l2,
    )) by {
        if exists|j: int| 0 <= j < s1.len() && (#[trigger] s1[j]).cell == c2 && s1[j].lod == l2 {
            let j = choose|j: int|
                0 <= j < s1.len() && (#[trigger] s1[j]).cell == c2 && s1[j].lod == l2;
            if j < i {
                assert(s0[j].cell == c2 && s0[j].lod == l2);
            } else {
                assert(s0[j + 1].cell == c2 && s0[j + 1].lod == l2);
            }
        }
        if exists|j: int| 0 <= j < s0.len() && (#[trigger] s0[j]).cell == c2 && s0[j].lod == l2 {
            let j = choose|j: int|
                0 <= j < s0.len() && (#[trigger] s0[j]).cell == c2 && s0[j].lod == l2;
            assert(j != i);
            if j < i {
                assert(s1[j].cell == c2 && s1[j].lod == l2);
            } else {
                assert(s1[j - 1].cell == c2 && s1[j - 1].lod == l2);
            }
        }
    }
}

/// Whether `rn` occurs in `v`.
fn reasons_contains(v: &Vec<LoadReason>, rn: LoadReason) -> (b: bool)
    ensures
        b == v@.contains(rn),
{
    let mut i: usize = 0;
    while i < v.len()
        invariant
            i <= v@.len(),
            forall|k: int| 0 <= k < i ==> v@[k] != rn,
        decreases v@.len() - i,
    {
        if v[i] == rn {
            return true;
        }
        i = i + 1;
    }
    proof {
        assert forall|k: int| 0 <= k < v@.len() implies v@[k] != rn by {}
    }
    false
}

/// Updating the entry at `i` to hold `reason` as well adds exactly that
/// reason to its key and leaves every other key unchanged.
proof fn lemma_update_entry(
    s0: Seq<ResidencyEntry>,
    s1: Seq<ResidencyEntry>,
    i: int,
    cell: Cell,
    lod: LodIndex,
    reason: LoadReason,
)
    requires
        0 <= i < s0.len(),
        s1.len() == s0.len(),
        forall|k: int| 0 <= k < s0.len() && k != i ==> s1[k] == s0[k],
        s1[i].cell == cell && s1[i].lod == lod,
        s0[i].cell == cell && s0[i].lod == lod,
        forall|rn: LoadReason|
            #[trigger] s1[i].reasons@.contains(rn) <==> s0[i].reasons@.contains(rn) || rn
                == reason,
    ensures
        seq_reasons(s1, cell, lod) == seq_reasons(s0, cell, lod).insert(reason),
        forall|c2: Cell, l2: LodIndex|
            !(c2 == cell && l2 == lod) ==> (#[trigger] seq_reasons(s1, c2, l2)) == seq_reasons(
                s0,
                c2,
                l2,
            ),
{
    assert forall|rn: LoadReason|
        seq_reasons(s1, cell, lod).contains(rn) <==> seq_reasons(s0, cell, lod).insert(
            reason,
        ).contains(rn) by {
        if seq_reasons(s1, cell, lod).contains(rn) {
            let j = choose|j: int|
                0 <= j < s1.len() && (#[trigger] s1[j]).cell == cell && s1[j].lod == lod && s1[j]
                    .reasons@.contains(rn);
            if j == i {
                if rn != reason {
                    assert(s0[i].reasons@.contains(rn));
                }
            } else {
                assert(s0[j].reasons@.contains(rn));
            }
        }
        if rn == reason {
            assert(s1[i].reasons@.contains(rn));
        } else if seq_reasons(s0, cell, lod).contains(rn) {
            let j = choose|j: int|
                0 <= j < s0.len() && (#[trigger] s0[j]).cell == cell && s0[j].lod == lod && s0[j]
                    .reasons@.contains(rn);
            assert(s1[j].reasons@.contains(rn));
        }
    }
    assert(seq_reasons(s1, cell, lod) =~= seq_reasons(s0, cell, lod).insert(reason));
    assert forall|c2: Cell, l2: LodIndex| !(c2 == cell && l2 == lod) implies (#[trigger] seq_reasons(
        s1,
        c2,
        l2,
    )) == seq_reasons(s0, c2, l2) by {
        assert forall|rn: LoadReason|
            seq_reasons(s1, c2, l2).contains(rn) <==> seq_reasons(s0, c2, l2).contains(rn) by {
            if seq_reasons(s1, c2, l2).contains(rn) {
                let j = choose|j: int|
                    0 <= j < s1.len() && (#[trigger] s1[j]).cell == c2 && s1[j].lod == l2 && s1[j]
                        .reasons@.contains(rn);
                assert(s0[j].reasons@.contains(rn));
            }
            if seq_reasons(s0, c2, l2).contains(rn) {
                let j = choose|j: int|
                    0 <= j < s0.len() && (#[trigger] s0[j]).cell == c2 && s0[j].lod == l2 && s0[j]
                        .reasons@.contains(rn);
                assert(s1[j].reasons@.contains(rn));
            }
        }
        assert(seq_reasons(s1, c2, l2) =~= seq_reasons(s0, c2, l2));
    }
}

/// Appending a fresh entry for a key with no existing entry adds exactly
/// its reason to that key and leaves every other key unchanged.
proof fn lemma_push_entry(
    s0: Seq<ResidencyEntry>,
    s1: Seq<ResidencyEntry>,
    cell: Cell,
    lod: LodIndex,
    reason: LoadReason,
)
    requires
        s1.len() == s0.len() + 1,
        forall|k: int| 0 <= k < s0.len() ==> s1[k] == s0[k],
        s1[s0.len() as int].cell == cell && s1[s0.len() as int].lod == lod,
        forall|rn: LoadReason|
            #[trigger] s1[s0.len() as int].reasons@.contains(rn) <==> rn == reason,
        forall|k: int|
            0 <= k < s0.len() ==> !((#[trigger] s0[k]).cell == cell && s0[k].lod == lod),
    ensures
        seq_reasons(s1, cell, lod) == seq_reasons(s0, cell, lod).insert(reason),
        forall|c2: Cell, l2: LodIndex|
            !(c2 == cell && l2 == lod) ==> (#[trigger] seq_reasons(s1, c2, l2)) == seq_reasons(
                s0,
                c2,
                l2,
            ),
{
    let n = s0.len() as int;
    assert forall|rn: LoadReason|
        seq_reasons(s1, cell, lod).contains(rn) <==> seq_reasons(s0, cell, lod).insert(
            reason,
        ).contains(rn) by {
        if seq_reasons(s1, cell, lod).contains(rn) {
            let j = choose|j: int|
                0 <= j < s1.len() && (#[trigger] s1[j]).cell == cell && s1[j].lod == lod && s1[j]
                    .reasons@.contains(rn);
            if j < n {
                assert(s0[j].reasons@.contains(rn));
            }
        }
        if rn == reason {
            assert(s1[n].reasons@.contains(rn));
        } else if seq_reasons(s0, cell, lod).contains(rn) {
            let j = choose|j: int|
                0 <= j < s0.len() && (#[trigger] s0[j]).cell == cell && s0[j].lod == lod && s0[j]
                    .reasons@.contains(rn);
            assert(s1[j].reasons@.contains(rn));
        }
    }
    assert(seq_reasons(s1, cell, lod) =~= seq_reasons(s0, cell, lod).insert(reason));
    assert forall|c2: Cell, l2: LodIndex| !(c2 == cell && l2 == lod) implies (#[trigger] seq_reasons(
        s1,
        c2,
        l2,
    )) == seq_reasons(s0, c2, l2) by {
        assert forall|rn: LoadReason|
            seq_reasons(s1, c2, l2).contains(rn) <==> seq_reasons(s0, c2, l2).contains(rn) by {
            if seq_reasons(s1, c2, l2).contains(rn) {
                let j = choose|j: int|
                    0 <= j < s1.len() && (#[trigger] s1[j]).cell == c2 && s1[j].lod == l2 && s1[j]
                        .reasons@.contains(rn);
                assert(j < n);
                assert(s0[j].reasons@.contains(rn));
            }
            if seq_reasons(s0, c2, l2).contains(rn) {
                let j = choose|j: int|
                    0 <= j < s0.len() && (#[trigger] s0[j]).cell == c2 && s0[j].lod == l2 && s0[j]
                        .reasons@.contains(rn);
                assert(s1[j].reasons@.contains(rn));
            }
        }
        assert(seq_reasons(s1, c2, l2) =~= seq_reasons(s0, c2, l2));
    }
}

} // verus!

//! Bookkeeping for the dense buffer slots that loaded terrain occupies:
//! which entity's triangles sit in which slot, with the slots kept
//! contiguous by moving the last slot into any vacated place.

use vstd::prelude::*;

verus! {

/// Identifies the loaded entity whose geometry fills one buffer slot.
pub type EntityId = u32;

/// Some entry of `s` records that slot `k` holds the entity `t[k]`.
pub open spec fn slot_backed(s: Seq<(EntityId, usize)>, t: Seq<EntityId>, k: int) -> bool {
    exists|e: int| 0 <= e < s.len() && (#[trigger] s[e]).0 == t[k] && s[e].1 == k
}

/// Maps entities to contiguous buffer slots and back. Removing an entity
/// fills its slot with the last one, so the slots stay dense and the
/// buffered vertex count is always three per occupied slot.
pub struct TerrainBufferIndex {
    pub id_to_index: Vec<(EntityId, usize)>,
    pub index_to_id: Vec<EntityId>,
    pub length: usize,
}

impl TerrainBufferIndex {
    /// The entities in slot order.
    pub open spec fn slots(self) -> Seq<EntityId> {
        self.index_to_id@
    }

    /// The number of vertices buffered: three per occupied slot.
    pub open spec fn vertex_count(self) -> int {
        self.length as int
    }

    /// The lookup table is exactly the inverse of the slot list: every
    /// lookup entry points at the slot holding its entity, every slot has a
    /// lookup entry, entities are unique, and the vertex count matches.
    pub open spec fn wf(self) -> bool {
        &&& self.id_to_index@.len() == self.index_to_id@.len()
        &&& self.length == 3 * self.index_to_id@.len()
        &&& forall|e: int|
            0 <= e < self.id_to_index@.len() ==> (#[trigger] self.id_to_index@[e]).1
                < self.index_to_id@.len() && self.index_to_id@[self.id_to_index@[e].1 as int]
                == self.id_to_index@[e].0
        &&& forall|k: int|
            0 <= k < self.index_to_id@.len() ==> #[trigger] slot_backed(
                self.id_to_index@,
                self.index_to_id@,
                k,
            )
        &&& forall|e1: int, e2: int|
            0 <= e1 < e2 < self.id_to_index@.len() ==> (#[trigger] self.id_to_index@[e1]).0 != (
            #[trigger] self.id_to_index@[e2]).0
        &&& forall|k1: int, k2: int|
            0 <= k1 < k2 < self.index_to_id@.len() ==> self.index_to_id@[k1]
                != self.index_to_id@[k2]
    }

    /// An index with no slots occupied.
    pub fn new() -> (t: TerrainBufferIndex)
        ensures
            t.wf(),
            t.slots().len() == 0,
            t.vertex_count() == 0,
    {
        TerrainBufferIndex { id_to_index: Vec::new(), index_to_id: Vec::new(), length: 0 }
    }

    /// Position of `id`'s lookup entry.
    fn find_entry(&self, id: EntityId) -> (e: usize)
        requires
            self.wf(),
            self.slots().contains(id),
        ensures
            e < self.id_to_index@.len(),
            self.id_to_index@[e as int].0 == id,
    {
        let mut e: usize = 0;
        while e < self.id_to_index.len()
            invariant
                e <= self.id_to_index@.len(),
                forall|e2: int| 0 <= e2 < e ==> (#[trigger] self.id_to_index@[e2]).0 != id,
            decreases self.id_to_index@.len() - e,
        {
            if self.id_to_index[e].0 == id {
                return e;
            }
            e = e + 1;
        }
        proof {
            let k = choose|k: int| 0 <= k < self.index_to_id@.len() && self.index_to_id@[k] == id;
            assert(slot_backed(self.id_to_index@, self.index_to_id@, k));
            let e2 = choose|e2: int|
                0 <= e2 < self.id_to_index@.len() && (#[trigger] self.id_to_index@[e2]).0
                    == self.index_to_id@[k] && self.id_to_index@[e2].1 == k;
            assert(false);
        }
        vstd::pervasive::unreached()
    }

    /// Append fresh entities, one new slot each, in order.
    pub fn push_ids(&mut self, ids: &Vec<EntityId>)
        requires
            old(self).wf(),
            forall|k1: int, k2: int| 0 <= k1 < k2 < ids@.len() ==> ids@[k1] != ids@[k2],
            forall|k: int| 0 <= k < ids@.len() ==> !old(self).slots().contains(#[trigger] ids@[k]),
            3 * (old(self).slots().len() + ids@.len()) <= usize::MAX,
        ensures
            final(self).wf(),
            final(self).slots() == old(self).slots() + ids@,
            final(self).vertex_count() == old(self).vertex_count() + 3 * ids@.len(),
    {
        let ghost t0 = self.index_to_id@;
        let mut i: usize = 0;
        while i < ids.len()
            invariant
                i <= ids@.len(),
                t0 == old(self).index_to_id@,
                old(self).wf(),
                forall|k1: int, k2: int| 0 <= k1 < k2 < ids@.len() ==> ids@[k1] != ids@[k2],
                forall|k: int| 0 <= k < ids@.len() ==> !t0.contains(#[trigger] ids@[k]),
                self.length == old(self).length,
                self.id_to_index@.len() == self.index_to_id@.len(),
                self.index_to_id@ == t0 + ids@.subrange(0, i as int),
                forall|e: int|
                    0 <= e < self.id_to_index@.len() ==> (#[trigger] self.id_to_index@[e]).1
                        < self.index_to_id@.len()
                        && self.index_to_id@[self.id_to_index@[e].1 as int]
                        == self.id_to_index@[e].0,
                forall|k: int|
                    0 <= k < self.index_to_id@.len() ==> #[trigger] slot_backed(
                        self.id_to_index@,
                        self.index_to_id@,
                        k,
                    ),
                forall|e1: int, e2: int|
                    0 <= e1 < e2 < self.id_to_index@.len() ==> (
                    #[trigger] self.id_to_index@[e1]).0 != (#[trigger] self.id_to_index@[e2]).0,
                forall|k1: int, k2: int|
                    0 <= k1 < k2 < self.index_to_id@.len() ==> self.index_to_id@[k1]
                        != self.index_to_id@[k2],
            decreases ids@.len() - i,
        {
            let id = ids[i];
            let ghost s1 = self.id_to_index@;
            let ghost t1 = self.index_to_id@;
            let slot = self.index_to_id.len();
            self.id_to_index.push((id, slot));
            self.index_to_id.push(id);
            proof {
                assert(self.index_to_id@ =~= t0 + ids@.subrange(0, i + 1));
                // the appended entity occupies no earlier slot
                assert forall|k: int| 0 <= k < t1.len() implies t1[k] != id by {
                    if k < t0.len() {
                        assert(t0.contains(t0[k])) by {
                            assert(t0[k] == t0[k]);
                        }
                        assert(t0[k] == t1[k]);
                    } else {
                        assert(t1[k] == ids@.subrange(0, i as int)[k - t0.len()]);
                    }
                }
                assert forall|k: int|
                    0 <= k < self.index_to_id@.len() implies #[trigger] slot_backed(
                    self.id_to_index@,
                    self.index_to_id@,
                    k,
                ) by {
                    if k < t1.len() {
                        assert(slot_backed(s1, t1, k));
                        let e = choose|e: int|
                            0 <= e < s1.len() && (#[trigger] s1[e]).0 == t1[k] && s1[e].1 == k;
                        assert(self.id_to_index@[e] == s1[e]);
                        assert(self.index_to_id@[k] == t1[k]);
                    } else {
                        assert((#[trigger] self.id_to_index@[s1.len() as int]) == (id, slot));
                        assert(self.index_to_id@[k] == id);
                    }
                }
                assert forall|e1: int, e2: int|
                    0 <= e1 < e2 < self.id_to_index@.len() implies (
                #[trigger] self.id_to_index@[e1]).0 != (#[trigger] self.id_to_index@[e2]).0 by {
                    if e2 == s1.len() {
                        assert(s1[e1].1 < t1.len() && t1[s1[e1].1 as int] == s1[e1].0);
                    }
                }
            }
            i = i + 1;
        }
        let added = 3 * ids.len();
        self.length = self.length + added;
        proof {
            assert(self.index_to_id@ =~= t0 + ids@);
        }
    }

    /// Free `id`'s slot, moving the last slot into its place, and return
    /// the slot it occupied. The caller mirrors the same swap-removal in
    /// the buffers the slots index into.
    pub fn swap_remove(&mut self, id: EntityId) -> (idx: usize)
        requires
            old(self).wf(),
            old(self).slots().contains(id),
        ensures
            final(self).wf(),
            idx < old(self).slots().len(),
            old(self).slots()[idx as int] == id,
            final(self).slots() == old(self).slots().update(
                idx as int,
                old(self).slots().last(),
            ).drop_last(),
            final(self).vertex_count() == old(self).vertex_count() - 3,
    {
        let ghost s0 = self.id_to_index@;
        let ghost t0 = self.index_to_id@;
        let e = self.find_entry(id);
        let idx = self.id_to_index[e].1;
        let last = self.index_to_id.len() - 1;
        let swapped_id = self.index_to_id[last];
        let ghost mut fg: int = 0;
        if swapped_id != id {
            proof {
                assert(t0[idx as int] == id);
                assert(idx != last);
            }
            let f = self.find_entry(swapped_id);
            proof {
                assert(s0[f as int].1 == last) by {
                    if s0[f as int].1 != last {
                        assert(t0[s0[f as int].1 as int] == swapped_id);
                        assert(t0[last as int] == swapped_id);
                    }
                }
                assert(f != e);
                fg = f as int;
            }
            let moved = (swapped_id, idx);
            self.id_to_index[f] = moved;
        } else {
            proof {
                assert(t0[idx as int] == id && t0[last as int] == swapped_id);
                assert(idx == last);
            }
        }
        let ghost s1 = self.id_to_index@;
        self.index_to_id.swap_remove(idx);
        self.id_to_index.swap_remove(e);
        self.length = self.length - 3;
        proof {
            let t1 = self.index_to_id@;
            let s2 = self.id_to_index@;
            let n = t0.len() as int;
            let b = swapped_id != id;
            assert(t1 =~= t0.update(idx as int, t0[n - 1]).drop_last());
            // the update only redirected a slot: entities stay in place
            assert forall|o: int| 0 <= o < n implies (#[trigger] s1[o]).0 == s0[o].0 by {}
            assert forall|e2: int|
                0 <= e2 < s2.len() implies (#[trigger] s2[e2]).1 < t1.len()
                    && t1[s2[e2].1 as int] == s2[e2].0 by {
                let o: int = if e2 == e as int { n - 1 } else { e2 };
                assert(s2[e2] == s1[o]);
                assert(o != e as int);
                if b && o == fg {
                    assert(s1[o] == (swapped_id, idx));
                    assert(t1[idx as int] == t0[n - 1]);
                } else {
                    assert(s1[o] == s0[o]);
                    let slot = s0[o].1 as int;
                    assert(t0[slot] == s0[o].0);
                    assert(s0[o].0 != s0[e as int].0);
                    assert(slot != idx as int) by {
                        if slot == idx as int {
                            assert(t0[slot] == id);
                        }
                    }
                    assert(slot != n - 1) by {
                        if slot == n - 1 {
                            assert(s0[o].0 == swapped_id);
                            if b {
                                assert(s0[o].0 != s0[fg].0);
                            } else {
                                assert(s0[o].0 != id);
                            }
                        }
                    }
                    assert(t1[slot] == t0[slot]);
                }
            }
            assert forall|k: int|
                0 <= k < t1.len() implies #[trigger] slot_backed(s2, t1, k) by {
                if k == idx as int {
                    assert(t1[k] == t0[n - 1]);
                    let w: int = if fg == n - 1 { e as int } else { fg };
                    assert(s1[fg] == (swapped_id, idx));
                    assert(s2[w] == s1[fg]);
                } else {
                    assert(t1[k] == t0[k]);
                    assert(slot_backed(s0, t0, k));
                    let e3 = choose|e3: int|
                        0 <= e3 < s0.len() && (#[trigger] s0[e3]).0 == t0[k] && s0[e3].1 == k;
                    assert(e3 != e as int) by {
                        assert(s0[e as int].1 == idx as int);
                    }
                    assert(s1[e3] == s0[e3]) by {
                        if b && e3 == fg {
                            assert(s0[fg].1 == n - 1);
                        }
                    }
                    let w: int = if e3 == n - 1 { e as int } else { e3 };
                    assert(s2[w] == s1[e3]);
                }
            }
            assert forall|e1: int, e2: int|
                0 <= e1 < e2 < s2.len() implies (#[trigger] s2[e1]).0 != (#[trigger] s2[e2]).0 by {
                let o1: int = if e1 == e as int { n - 1 } else { e1 };
                let o2: int = if e2 == e as int { n - 1 } else { e2 };
                assert(s2[e1] == s1[o1] && s2[e2] == s1[o2]);
                assert(s1[o1].0 == s0[o1].0 && s1[o2].0 == s0[o2].0);
                assert(o1 != o2);
                if o1 < o2 {
                    assert(s0[o1].0 != s0[o2].0);
                } else {
                    assert(s0[o2].0 != s0[o1].0);
                }
            }
            assert forall|k1: int, k2: int|
                0 <= k1 < k2 < t1.len() implies t1[k1] != t1[k2] by {
                if k1 == idx as int {
                    assert(t1[k1] == t0[n - 1] && t1[k2] == t0[k2]);
                } else if k2 == idx as int {
                    assert(t1[k2] == t0[n - 1] && t1[k1] == t0[k1]);
                } else {
                    assert(t1[k1] == t0[k1] && t1[k2] == t0[k2]);
                }
            }
            assert(self.index_to_id@ == t0.update(idx as int, t0[n - 1]).drop_last());
            assert(t0[n - 1] == t0.last());
        }
        idx
    }
}

} // verus!

//! Slot storage for tree nodes.
//!
//! All nodes live in one contiguous vector of slots, each slot either
//! occupied or vacant, and are addressed by small integer indices. A sorted
//! free list of vacant indices lets `add` reuse the lowest vacant slot.

use vstd::prelude::*;

use crate::node::Node;

verus! {

/// A fixed-capacity arena of node slots with a free list.
///
/// `N` is the arena's nominal capacity: the number of pairs a
/// capacity-checked tree accepts before reporting exhaustion.
pub struct Arena<V, const N: usize> {
    slots: Vec<Option<Node<V>>>,
    free: Vec<usize>,
}

impl<V, const N: usize> Arena<V, N> {
    /// The slot sequence this arena holds.
    pub closed spec fn view(self) -> Seq<Option<Node<V>>> {
        self.slots@
    }

    /// Free-list discipline: the free list holds exactly the vacant slot
    /// indices, each once, in strictly descending order (so the last entry
    /// is the lowest vacant index).
    pub closed spec fn inv(self) -> bool {
        &&& (forall|j: int|
            0 <= j < self.free@.len() ==> (#[trigger] self.free@[j] as int) < self.slots@.len()
                && self.slots@[self.free@[j] as int] is None)
        &&& (forall|i: usize|
            i < self.slots@.len() && self.slots@[i as int] is None ==> self.free@.contains(i))
        &&& (forall|j1: int, j2: int|
            0 <= j1 < j2 < self.free@.len() ==> #[trigger] self.free@[j1] > #[trigger] self.free@[j2])
    }

    /// Makes a new, empty arena.
    pub fn new() -> (a: Self)
        ensures
            a.inv(),
            a@ == Seq::<Option<Node<V>>>::empty(),
    {
        Arena { slots: Vec::new(), free: Vec::new() }
    }

    /// Number of slots in use (occupied or vacant): the storage high-water mark.
    pub fn len(&self) -> (r: usize)
        ensures
            r == self@.len(),
    {
        self.slots.len()
    }

    /// The arena's nominal capacity.
    pub fn capacity(&self) -> (r: usize)
        ensures
            r == N,
    {
        N
    }

    /// The size of one node slot's contents, in bytes.
    pub fn node_size(&self) -> (r: usize)
        ensures
            r == vstd::layout::size_of::<Node<V>>(),
    {
        core::mem::size_of::<Node<V>>()
    }

    /// Read access to the node in an occupied slot.
    pub fn node_ref(&self, idx: usize) -> (r: &Node<V>)
        requires
            idx < self@.len(),
            self@[idx as int] is Some,
        ensures
            self@[idx as int] == Some(*r),
    {
        match &self.slots[idx] {
            Some(n) => n,
            None => vstd::pervasive::unreached(),
        }
    }

    /// Whether `idx` addresses an occupied slot.
    pub fn is_occupied(&self, idx: usize) -> (r: bool)
        ensures
            r == (idx < self@.len() && self@[idx as int] is Some),
    {
        idx < self.slots.len() && self.slots[idx].is_some()
    }

    /// Stores a new node holding `(key, val)` with no children, in the lowest
    /// vacant slot, or in a fresh tail slot if none is vacant.
    pub fn add(&mut self, key: u64, val: V) -> (idx: usize)
        requires
            old(self).inv(),
        ensures
            final(self).inv(),
            idx < final(self)@.len(),
            old(self)@.len() <= final(self)@.len() <= old(self)@.len() + 1,
            idx < old(self)@.len() ==> old(self)@[idx as int] is None && final(self)@ == old(
                self,
            )@.update(idx as int, Some(Node { key, val, left: None, right: None })),
            idx == old(self)@.len() ==> final(self)@ == old(self)@.push(
                Some(Node { key, val, left: None, right: None }),
            ),
            idx >= old(self)@.len() ==> idx == old(self)@.len(),
            // lowest-vacant-first: every slot below the chosen one is occupied
            forall|i: int| 0 <= i < idx ==> old(self)@[i] is Some,
    {
        let node = Node { key, val, left: None, right: None };
        match self.free.pop() {
            Some(idx) => {
                proof {
                    let f = old(self).free@;
                    assert(f[f.len() - 1] == idx);
                    assert forall|i: int| 0 <= i < idx implies old(self)@[i] is Some by {
                        if old(self)@[i] is None {
                            assert(f.contains(i as usize));
                            let j = choose|j: int| 0 <= j < f.len() && f[j] == i as usize;
                            assert(j < f.len() - 1 ==> f[j] > f[f.len() - 1]);
                        }
                    }
                }
                self.slots[idx] = Some(node);
                proof {
                    assert forall|i: usize|
                        i < self.slots@.len() && self.slots@[i as int] is None implies self
                        .free@.contains(i) by {
                        assert(self.slots@[idx as int] is Some);
                        assert(i != idx);
                        assert(old(self)@[i as int] is None);
                        assert(old(self).free@.contains(i));
                        let j = choose|j: int|
                            0 <= j < old(self).free@.len() && old(self).free@[j] == i;
                        assert(old(self).free@[old(self).free@.len() - 1] == idx);
                        assert(j != old(self).free@.len() - 1);
                        assert(self.free@[j] == i);
                    }
                }
                idx
            },
            None => {
                let idx = self.slots.len();
                self.slots.push(Some(node));
                proof {
                    assert forall|i: int| 0 <= i < idx implies old(self)@[i] is Some by {
                        if old(self)@[i] is None {
                            assert(old(self).free@.contains(i as usize));
                        }
                    }
                }
                idx
            },
        }
    }

    /// Vacates an occupied slot, records it in the free list, and returns the
    /// node's key and value by move.
    pub fn hard_remove(&mut self, idx: usize) -> (kv: (u64, V))
        requires
            old(self).inv(),
            idx < old(self)@.len(),
            old(self)@[idx as int] is Some,
        ensures
            final(self).inv(),
            final(self)@ == old(self)@.update(idx as int, None),
            kv.0 == old(self)@[idx as int].unwrap().key,
            kv.1 == old(self)@[idx as int].unwrap().val,
    {
        let node = match self.slots[idx].take() {
            Some(n) => n,
            None => vstd::pervasive::unreached(),
        };
        proof {
            assert forall|j: int| 0 <= j < self.free@.len() implies self.free@[j] != idx by {
                assert(old(self)@[self.free@[j] as int] is None);
            }
        }
        // keep the free list strictly descending: insert before the first
        // entry smaller than `idx`
        let mut at: usize = 0;
        #[verifier::loop_isolation(false)]
        while at < self.free.len() && idx < self.free[at]
            invariant
                at <= self.free@.len(),
                forall|j: int| 0 <= j < at ==> #[trigger] self.free@[j] > idx,
            decreases self.free@.len() - at,
        {
            at = at + 1;
        }
        proof {
            let f1 = self.free@;
            if at < f1.len() {
                assert(f1[at as int] != idx);
                assert(f1[at as int] < idx);
            }
            f1.insert_ensures(at as int, idx);
        }
        self.free.insert(at, idx);
        proof {
            let f1 = old(self).free@;
            let f2 = self.free@;
            assert(f2 == f1.insert(at as int, idx));
            assert forall|j: int|
                0 <= j < f2.len() implies (#[trigger] f2[j] as int) < self.slots@.len()
                && self.slots@[f2[j] as int] is None by {
                if j < at {
                    assert(f2[j] == f1[j]);
                } else if j == at {
                    assert(f2[j] == idx);
                } else {
                    assert(f2[j] == f1[j - 1]);
                }
            }
            assert forall|i: usize|
                i < self.slots@.len() && self.slots@[i as int] is None implies f2.contains(i) by {
                if i == idx {
                    assert(f2[at as int] == idx);
                } else {
                    assert(old(self)@[i as int] is None);
                    assert(f1.contains(i));
                    let j = choose|j: int| 0 <= j < f1.len() && f1[j] == i;
                    if j < at {
                        assert(f2[j] == i);
                    } else {
                        assert(f2[j + 1] == i);
                    }
                }
            }
            assert forall|j1: int, j2: int| 0 <= j1 < j2 < f2.len() implies #[trigger] f2[j1]
                > #[trigger] f2[j2] by {
                if j2 < at {
                    assert(f2[j1] == f1[j1] && f2[j2] == f1[j2]);
                } else if j2 == at {
                    assert(f2[j1] == f1[j1] && f2[j2] == idx);
                } else if j1 < at {
                    assert(f2[j1] == f1[j1] && f2[j2] == f1[j2 - 1]);
                    assert(at <= j2 - 1);
                    assert(f1[j1] > idx);
                    if j1 < j2 - 1 {
                        assert(f1[j1] > f1[j2 - 1]);
                    }
                } else if j1 == at {
                    assert(f2[j1] == idx && f2[j2] == f1[j2 - 1]);
                    assert(at < f1.len());
                    assert(f1[at as int] < idx);
                    if (at as int) < j2 - 1 {
                        assert(f1[at as int] > f1[j2 - 1]);
                    }
                } else {
                    assert(f2[j1] == f1[j1 - 1] && f2[j2] == f1[j2 - 1]);
                }
            }
        }
        (node.key, node.val)
    }

    /// Overwrites the left child link of the node in an occupied slot.
    pub fn set_left(&mut self, idx: usize, left: Option<usize>)
        requires
            old(self).inv(),
            idx < old(self)@.len(),
            old(self)@[idx as int] is Some,
        ensures
            final(self).inv(),
            final(self)@ == old(self)@.update(
                idx as int,
                Some(Node { left, ..old(self)@[idx as int].unwrap() }),
            ),
    {
        let node = match self.slots[idx].take() {
            Some(mut n) => {
                n.left = left;
                n
            },
            None => vstd::pervasive::unreached(),
        };
        self.slots[idx] = Some(node);
        proof {
            assert(self@ =~= old(self)@.update(
                idx as int,
                Some(Node { left, ..old(self)@[idx as int].unwrap() }),
            ));
        }
    }

    /// Overwrites the right child link of the node in an occupied slot.
    pub fn set_right(&mut self, idx: usize, right: Option<usize>)
        requires
            old(self).inv(),
            idx < old(self)@.len(),
            old(self)@[idx as int] is Some,
        ensures
            final(self).inv(),
            final(self)@ == old(self)@.update(
                idx as int,
                Some(Node { right, ..old(self)@[idx as int].unwrap() }),
            ),
    {
        let node = match self.slots[idx].take() {
            Some(mut n) => {
                n.right = right;
                n
            },
            None => vstd::pervasive::unreached(),
        };
        self.slots[idx] = Some(node);
        proof {
            assert(self@ =~= old(self)@.update(
                idx as int,
                Some(Node { right, ..old(self)@[idx as int].unwrap() }),
            ));
        }
    }

    /// Overwrites the key of the node in an occupied slot.
    pub fn set_key(&mut self, idx: usize, key: u64)
        requires
            old(self).inv(),
            idx < old(self)@.len(),
            old(self)@[idx as int] is Some,
        ensures
            final(self).inv(),
            final(self)@ == old(self)@.update(
                idx as int,
                Some(Node { key, ..old(self)@[idx as int].unwrap() }),
            ),
    {
        let node = match self.slots[idx].take() {
            Some(mut n) => {
                n.key = key;
                n
            },
            None => vstd::pervasive::unreached(),
        };
        self.slots[idx] = Some(node);
        proof {
            assert(self@ =~= old(self)@.update(
                idx as int,
                Some(Node { key, ..old(self)@[idx as int].unwrap() }),
            ));
        }
    }

    /// Replaces the value of the node in an occupied slot, returning the
    /// displaced value.
    pub fn replace_val(&mut self, idx: usize, val: V) -> (displaced: V)
        requires
            old(self).inv(),
            idx < old(self)@.len(),
            old(self)@[idx as int] is Some,
        ensures
            final(self).inv(),
            final(self)@ == old(self)@.update(
                idx as int,
                Some(Node { val, ..old(self)@[idx as int].unwrap() }),
            ),
            displaced == old(self)@[idx as int].unwrap().val,
    {
        let (node, displaced) = match self.slots[idx].take() {
            Some(n) => {
                let Node { key, val: d, left, right } = n;
                (Node { key, val, left, right }, d)
            },
            None => vstd::pervasive::unreached(),
        };
        self.slots[idx] = Some(node);
        proof {
            assert(self@ =~= old(self)@.update(
                idx as int,
                Some(Node { val, ..old(self)@[idx as int].unwrap() }),
            ));
        }
        displaced
    }
}

} // verus!

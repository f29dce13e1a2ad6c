//! Index-addressed slot pools with free-list reuse.
//!
//! A slot holds one dense array. Slot 0 is reserved and never handed out, so
//! index 0 can stand for "nothing". A freed slot keeps its place in the
//! backing storage and is handed out again before the storage grows.

use vstd::prelude::*;
use vstd::seq_lib::seq_to_set_is_finite;
use vstd::set_lib::{lemma_int_range, lemma_set_difference_len, set_int_range};

verus! {

/// A pool of slots, each holding a dense array of `T`.
pub struct Arena<T> {
    slots: Vec<Vec<T>>,
    free_list: Vec<usize>,
}

impl<T> Arena<T> {
    /// What each slot holds, by index. Slot 0 is the reserved one.
    pub closed spec fn blocks(&self) -> Seq<Seq<T>> {
        Seq::new(self.slots@.len(), |i: int| self.slots@[i]@)
    }

    /// The freed slots, the most recently freed last.
    pub closed spec fn free_slots(&self) -> Seq<int> {
        Seq::new(self.free_list@.len(), |k: int| self.free_list@[k] as int)
    }

    /// Whether slot `i` has been handed out and not freed since.
    pub open spec fn is_live(&self, i: int) -> bool {
        0 < i < self.blocks().len() && !self.free_slots().contains(i)
    }

    /// The number of slots handed out and not freed since.
    pub open spec fn live_count(&self) -> int {
        self.blocks().len() - 1 - self.free_slots().len()
    }

    /// The slots handed out and not freed since.
    pub open spec fn live_set(&self) -> Set<int> {
        Set::new(|i: int| self.is_live(i))
    }

    /// The reserved slot exists and is empty; the free list names each freed
    /// slot once, and freed slots are empty.
    pub open spec fn wf(&self) -> bool {
        &&& self.blocks().len() >= 1
        &&& self.blocks()[0].len() == 0
        &&& self.free_slots().no_duplicates()
        &&& forall|k: int|
            0 <= k < self.free_slots().len() ==> {
                &&& 0 < #[trigger] self.free_slots()[k] < self.blocks().len()
                &&& self.blocks()[self.free_slots()[k]].len() == 0
            }
    }

    /// An empty pool with storage reserved for `n` slots.
    pub fn with_capacity(n: usize) -> (r: Self)
        ensures
            r.wf(),
            r.blocks() =~= seq![Seq::<T>::empty()],
            r.free_slots() =~= Seq::<int>::empty(),
    {
        let mut slots: Vec<Vec<T>> = Vec::with_capacity(n);
        slots.push(Vec::new());
        Arena { slots, free_list: Vec::new() }
    }

    /// An empty pool.
    pub fn new() -> (r: Self)
        ensures
            r.wf(),
            r.blocks() =~= seq![Seq::<T>::empty()],
            r.free_slots() =~= Seq::<int>::empty(),
    {
        Self::with_capacity(0)
    }

    /// Hands out an empty slot: the most recently freed one if there is any,
    /// else a new one at the end of the storage.
    pub fn allocate(&mut self) -> (index: usize)
        requires
            old(self).wf(),
        ensures
            final(self).wf(),
            !old(self).is_live(index as int),
            final(self).is_live(index as int),
            index != 0,
            final(self).blocks()[index as int].len() == 0,
            old(self).free_slots().len() > 0 ==> {
                &&& index == old(self).free_slots().last()
                &&& final(self).free_slots() =~= old(self).free_slots().drop_last()
                &&& final(self).blocks() == old(self).blocks()
            },
            old(self).free_slots().len() == 0 ==> {
                &&& index == old(self).blocks().len()
                &&& final(self).free_slots() == old(self).free_slots()
                &&& final(self).blocks() == old(self).blocks().push(Seq::<T>::empty())
            },
            forall|i: int| i != index ==> final(self).is_live(i) == old(self).is_live(i),
            forall|i: int|
                0 <= i < old(self).blocks().len() ==> final(self).blocks()[i] == old(
                    self,
                ).blocks()[i],
    {
        match self.free_list.pop() {
            Some(index) => {
                proof {
                    let before = old(self).free_slots();
                    let after = self.free_slots();
                    assert(before[before.len() - 1] == index);
                    assert(after =~= before.drop_last());
                    assert(self.blocks() =~= old(self).blocks());
                    assert forall|i: int| i != index implies self.is_live(i) == old(
                        self,
                    ).is_live(i) by {
                        if after.contains(i) {
                            let k = choose|k: int| 0 <= k < after.len() && after[k] == i;
                            assert(before[k] == i);
                        }
                        if before.contains(i) {
                            let k = choose|k: int| 0 <= k < before.len() && before[k] == i;
                            assert(after[k] == i);
                        }
                    }
                    if after.contains(index as int) {
                        let k = choose|k: int| 0 <= k < after.len() && after[k] == index;
                        assert(before[k] == index);
                    }
                }
                index
            },
            None => {
                let index: usize = self.slots.len();
                self.slots.push(Vec::new());
                proof {
                    assert(self.blocks() =~= old(self).blocks().push(Seq::<T>::empty()));
                    assert(self.free_slots() =~= old(self).free_slots());
                    assert(!self.free_slots().contains(index as int)) by {
                        if self.free_slots().contains(index as int) {
                            let k = choose|k: int|
                                0 <= k < self.free_slots().len() && self.free_slots()[k] == index;
                        }
                    }
                }
                index
            },
        }
    }

    /// Empties slot `index` and puts it on the free list. The backing storage
    /// keeps its size.
    pub fn free(&mut self, index: usize)
        requires
            old(self).wf(),
            old(self).is_live(index as int),
        ensures
            final(self).wf(),
            final(self).blocks() == old(self).blocks().update(index as int, Seq::<T>::empty()),
            final(self).free_slots() =~= old(self).free_slots().push(index as int),
            !final(self).is_live(index as int),
            forall|i: int| i != index ==> final(self).is_live(i) == old(self).is_live(i),
    {
        self.slots[index].clear();
        self.free_list.push(index);
        proof {
            let before = old(self).free_slots();
            let after = self.free_slots();
            assert(self.blocks() =~= old(self).blocks().update(index as int, Seq::<T>::empty()));
            assert(after =~= before.push(index as int));
            assert(after[after.len() - 1] == index);
            assert forall|i: int| i != index implies self.is_live(i) == old(self).is_live(i) by {
                if after.contains(i) {
                    let k = choose|k: int| 0 <= k < after.len() && after[k] == i;
                    assert(before[k] == i);
                }
                if before.contains(i) {
                    let k = choose|k: int| 0 <= k < before.len() && before[k] == i;
                    assert(after[k] == i);
                }
            }
        }
    }

    /// The array in slot `index`.
    pub fn get(&self, index: usize) -> (r: &Vec<T>)
        requires
            index < self.blocks().len(),
        ensures
            r@ == self.blocks()[index as int],
    {
        &self.slots[index]
    }

    /// The array in slot `index`, to be changed in place.
    pub fn get_mut(&mut self, index: usize) -> (r: &mut Vec<T>)
        requires
            old(self).is_live(index as int),
        ensures
            r@ == old(self).blocks()[index as int],
            final(self).blocks() =~= old(self).blocks().update(index as int, final(r)@),
            final(self).free_slots() == old(self).free_slots(),
            old(self).wf() ==> final(self).wf(),
            forall|i: int| final(self).is_live(i) == old(self).is_live(i),
    {
        &mut self.slots[index]
    }

    /// The live slots are as many as the storage holds beyond the reserved
    /// slot and the freed ones.
    pub proof fn lemma_live_count(&self)
        requires
            self.wf(),
        ensures
            self.live_set().finite(),
            self.live_count() == self.live_set().len(),
    {
        let n = self.blocks().len() as int;
        let all = set_int_range(1, n);
        let free = self.free_slots().to_set();
        lemma_int_range(1, n);
        self.free_slots().unique_seq_to_set();
        seq_to_set_is_finite(self.free_slots());
        assert forall|x: int| free.contains(x) implies all.contains(x) by {
            let k = choose|k: int| 0 <= k < self.free_slots().len() && self.free_slots()[k] == x;
            assert(0 < self.free_slots()[k] < n);
        }
        assert(all.intersect(free) =~= free);
        lemma_set_difference_len(all, free);
        assert(self.live_set() =~= all.difference(free));
    }

    /// The number of live slots.
    pub fn live(&self) -> (r: usize)
        requires
            self.wf(),
        ensures
            r == self.live_count(),
            r == self.live_set().len(),
    {
        proof {
            self.lemma_live_count();
        }
        self.slots.len() - 1 - self.free_list.len()
    }

    /// The number of slots in the backing storage, live and freed, without
    /// the reserved one.
    pub fn mem_usage(&self) -> (r: usize)
        requires
            self.wf(),
        ensures
            r == self.live_count() + self.free_slots().len(),
            r == self.blocks().len() - 1,
    {
        self.slots.len() - 1
    }
}

} // verus!

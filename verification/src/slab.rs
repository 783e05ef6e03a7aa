//! The fixed-capacity task slot allocator.
//!
//! Suspended per-file tasks live in slots of a [`TaskSlab`].  Vacant slots
//! form a singly linked free list threaded through the slot array, so
//! allocation and freeing are O(1).  A slot's index doubles as the task's
//! correlation id: it tags every ring submission the task makes, and the
//! matching completion leads back to the slot.  The slab's capacity bounds
//! how many tasks can ever be live at once.

use vstd::prelude::*;
use vstd::seq_lib::*;
use vstd::set_lib::{lemma_int_range, lemma_len_subset, set_int_range};

verus! {

/// One slot: vacant, holding the index of the next vacant slot (the capacity
/// marks the end of the list), or occupied by a task.
enum Slot<T> {
    Vacant { next: usize },
    Occupied { task: T },
}

/// A fixed-capacity allocator of task slots.
pub struct TaskSlab<T> {
    slots: Vec<Slot<T>>,
    free_head: usize,
    len: usize,
    free_list: Ghost<Seq<int>>,
}

impl<T> View for TaskSlab<T> {
    type V = Map<usize, T>;

    /// The live tasks, keyed by slot index.
    closed spec fn view(&self) -> Map<usize, T> {
        Map::new(
            |i: usize| (i as int) < self.slots@.len() && self.slots@[i as int] is Occupied,
            |i: usize| self.slots@[i as int]->Occupied_task,
        )
    }
}

impl<T> TaskSlab<T> {
    pub closed spec fn spec_capacity(&self) -> int {
        self.slots@.len() as int
    }

    pub closed spec fn spec_len(&self) -> int {
        self.len as int
    }

    /// The free list visits exactly the vacant slots, each once, and `len`
    /// counts the occupied ones.
    pub closed spec fn wf(&self) -> bool {
        let n = self.slots@.len() as int;
        let fl = self.free_list@;
        &&& self.len as int + fl.len() == n
        &&& fl.no_duplicates()
        &&& (if fl.len() > 0 {
            self.free_head as int == fl[0]
        } else {
            self.free_head as int == n
        })
        &&& forall|j: int| 0 <= j < fl.len() ==> 0 <= #[trigger] fl[j] < n
        &&& forall|j: int|
            0 <= j < fl.len() ==> ((#[trigger] self.slots@[fl[j]]) matches Slot::Vacant { next }
                && next as int == (if j + 1 < fl.len() {
                fl[j + 1]
            } else {
                n
            }))
    }

    /// The number of live tasks never exceeds the capacity.
    pub proof fn lemma_len_le_capacity(&self)
        requires
            self.wf(),
        ensures
            0 <= self.spec_len() <= self.spec_capacity(),
    {
    }

    /// An empty slab whose slots all sit on the free list, in index order.
    pub fn new(capacity: usize) -> (r: Self)
        ensures
            r.wf(),
            r@ == Map::<usize, T>::empty(),
            r.spec_len() == 0,
            r.spec_capacity() == capacity,
    {
        let mut slots: Vec<Slot<T>> = Vec::new();
        let mut i: usize = 0;
        while i < capacity
            invariant
                i <= capacity,
                slots@.len() == i,
                forall|j: int|
                    0 <= j < i ==> ((#[trigger] slots@[j]) matches Slot::Vacant { next } && next
                        == j + 1),
            decreases capacity - i,
        {
            slots.push(Slot::Vacant { next: i + 1 });
            i = i + 1;
        }
        let r = TaskSlab {
            slots,
            free_head: 0,
            len: 0,
            free_list: Ghost(Seq::new(capacity as nat, |j: int| j)),
        };
        proof {
            assert(r@ =~= Map::<usize, T>::empty());
        }
        r
    }

    /// How many tasks are live.
    pub fn len(&self) -> (r: usize)
        ensures
            r == self.spec_len(),
    {
        self.len
    }

    /// How many slots exist in all.
    pub fn capacity(&self) -> (r: usize)
        ensures
            r == self.spec_capacity(),
    {
        self.slots.len()
    }

    /// Whether `id` names a live task.
    pub fn contains(&self, id: usize) -> (r: bool)
        ensures
            r == self@.contains_key(id),
    {
        if id < self.slots.len() {
            match &self.slots[id] {
                Slot::Occupied { .. } => true,
                Slot::Vacant { .. } => false,
            }
        } else {
            false
        }
    }

    /// Pops the free-list head and stores the task there.  The returned slot
    /// id was not live before the call.  Fails exactly when the slab is full,
    /// leaving it unchanged.
    pub fn allocate(&mut self, t: T) -> (r: Option<usize>)
        requires
            old(self).wf(),
        ensures
            final(self).wf(),
            final(self).spec_capacity() == old(self).spec_capacity(),
            old(self).spec_len() < old(self).spec_capacity() ==> r is Some,
            r matches Some(id) ==> {
                &&& (id as int) < old(self).spec_capacity()
                &&& !old(self)@.contains_key(id)
                &&& final(self)@ == old(self)@.insert(id, t)
                &&& final(self).spec_len() == old(self).spec_len() + 1
            },
            r is None ==> {
                &&& old(self).spec_len() == old(self).spec_capacity()
                &&& *final(self) == *old(self)
            },
    {
        let n = self.slots.len();
        if self.free_head >= n {
            proof {
                assert(self.free_list@.len() == 0);
            }
            None
        } else {
            let ghost fl = self.free_list@;
            let id = self.free_head;
            proof {
                assert(fl.len() > 0);
                assert(self.slots@[id as int] is Vacant);
            }
            let next: usize = match &self.slots[id] {
                Slot::Vacant { next } => *next,
                Slot::Occupied { .. } => vstd::pervasive::unreached(),
            };
            self.free_head = next;
            self.slots[id] = Slot::Occupied { task: t };
            self.len = self.len + 1;
            self.free_list = Ghost(fl.drop_first());
            proof {
                let fl2 = self.free_list@;
                assert forall|j: int| 0 <= j < fl2.len() implies ((
                #[trigger] self.slots@[fl2[j]]) matches Slot::Vacant { next }
                    && next as int == (if j + 1 < fl2.len() {
                    fl2[j + 1]
                } else {
                    self.slots@.len() as int
                })) by {
                    assert(fl2[j] == fl[j + 1]);
                    assert(fl[j + 1] != fl[0]);
                }
                assert(final(self)@ =~= old(self)@.insert(id, t));
            }
            Some(id)
        }
    }

    /// Replaces the task stored under a live id, returning the old task.
    pub fn replace(&mut self, id: usize, t: T) -> (r: T)
        requires
            old(self).wf(),
            old(self)@.contains_key(id),
        ensures
            final(self).wf(),
            final(self).spec_capacity() == old(self).spec_capacity(),
            final(self).spec_len() == old(self).spec_len(),
            r == old(self)@[id],
            final(self)@ == old(self)@.insert(id, t),
    {
        let mut slot = Slot::Occupied { task: t };
        core::mem::swap(&mut slot, &mut self.slots[id]);
        proof {
            let fl = self.free_list@;
            assert forall|j: int| 0 <= j < fl.len() implies ((
            #[trigger] self.slots@[fl[j]]) matches Slot::Vacant { next }
                && next as int == (if j + 1 < fl.len() {
                fl[j + 1]
            } else {
                self.slots@.len() as int
            })) by {
                assert(old(self).slots@[fl[j]] is Vacant);
                assert(fl[j] != id as int);
            }
            assert(final(self)@ =~= old(self)@.insert(id, t));
        }
        match slot {
            Slot::Occupied { task } => task,
            Slot::Vacant { .. } => vstd::pervasive::unreached(),
        }
    }

    /// Frees a live slot, pushing it onto the free-list head, and returns the
    /// task that occupied it.
    pub fn remove(&mut self, id: usize) -> (r: T)
        requires
            old(self).wf(),
            old(self)@.contains_key(id),
        ensures
            final(self).wf(),
            final(self).spec_capacity() == old(self).spec_capacity(),
            final(self).spec_len() == old(self).spec_len() - 1,
            r == old(self)@[id],
            final(self)@ == old(self)@.remove(id),
    {
        let ghost n = self.slots@.len() as int;
        let ghost fl = self.free_list@;
        proof {
            // `id` is occupied, so it is not on the free list; hence the free
            // list cannot cover all slots and at least one task is live.
            assert forall|j: int| 0 <= j < fl.len() implies #[trigger] fl[j] != id as int by {
                assert(self.slots@[fl[j]] is Vacant);
            }
            fl.unique_seq_to_set();
            lemma_int_range(0, n);
            assert(fl.to_set().subset_of(set_int_range(0, n).remove(id as int))) by {
                assert forall|e: int| fl.to_set().contains(e) implies set_int_range(0, n).remove(
                    id as int,
                ).contains(e) by {
                    let j = choose|j: int| 0 <= j < fl.len() && fl[j] == e;
                }
            }
            lemma_len_subset(fl.to_set(), set_int_range(0, n).remove(id as int));
            assert(set_int_range(0, n).remove(id as int).len() == n - 1);
            assert(self.len >= 1);
        }
        let mut slot = Slot::Vacant { next: self.free_head };
        core::mem::swap(&mut slot, &mut self.slots[id]);
        self.free_head = id;
        self.len = self.len - 1;
        self.free_list = Ghost(seq![id as int] + fl);
        proof {
            let fl2 = self.free_list@;
            assert forall|j: int| 0 <= j < fl2.len() implies ((
            #[trigger] self.slots@[fl2[j]]) matches Slot::Vacant { next }
                && next as int == (if j + 1 < fl2.len() {
                fl2[j + 1]
            } else {
                n
            })) by {
                if j > 0 {
                    assert(fl2[j] == fl[j - 1]);
                    assert(fl[j - 1] != id as int);
                    assert(old(self).slots@[fl[j - 1]] is Vacant);
                }
            }
            assert forall|j1: int, j2: int|
                0 <= j1 < fl2.len() && 0 <= j2 < fl2.len() && j1 != j2 implies fl2[j1] != fl2[j2] by {
                if j1 > 0 && j2 > 0 {
                    assert(fl2[j1] == fl[j1 - 1] && fl2[j2] == fl[j2 - 1]);
                }
            }
            assert(final(self)@ =~= old(self)@.remove(id));
        }
        match slot {
            Slot::Occupied { task } => task,
            Slot::Vacant { .. } => vstd::pervasive::unreached(),
        }
    }
}

} // verus!

//! A store that hands out stable, generation-checked handles.

use vstd::prelude::*;

verus! {

/// Names one stored value. A handle is checked against the generation of
/// its slot on every use, so that a handle whose value is gone is found
/// out and never reaches a later value in the same slot.
#[derive(Clone, Copy, Debug, PartialEq, Eq, Hash, Structural)]
pub struct SlotId {
    pub index: usize,
    pub generation: u64,
}

/// One cell of the store.
#[derive(Debug)]
struct Slot<T> {
    /// The generation of the value held, or of the next one if vacant.
    generation: u64,
    value: Option<T>,
}

/// Stores values of type `T` under handles. A handle stays good until its
/// value is removed or the map is cleared; after that it is stale for
/// ever.
#[derive(Debug)]
pub struct SlotMap<T> {
    slots: Vec<Slot<T>>,
    /// Indices of the vacant slots that may be used again, the most
    /// recently vacated last.
    free: Vec<usize>,
}

impl<T> View for SlotMap<T> {
    type V = Map<SlotId, T>;

    /// The values held, by their handles.
    open spec fn view(&self) -> Map<SlotId, T> {
        self.as_map()
    }
}

impl<T> SlotMap<T> {
    /// Whether `h` names a value that is held now.
    closed spec fn live(self, h: SlotId) -> bool {
        &&& h.index < self.slots@.len()
        &&& self.slots@[h.index as int].generation == h.generation
        &&& self.slots@[h.index as int].value.is_some()
    }

    /// The values held, by their handles.
    pub closed spec fn as_map(self) -> Map<SlotId, T> {
        Map::new(|h: SlotId| self.live(h), |h: SlotId| self.slots@[h.index as int].value.unwrap())
    }

    /// The number of slots that the map has made so far.
    pub closed spec fn slot_count(self) -> nat {
        self.slots@.len()
    }

    /// The generation that the slot at `index` is in.
    pub closed spec fn generation_at(self, index: int) -> u64
        recommends
            0 <= index < self.slot_count(),
    {
        self.slots@[index].generation
    }

    /// The slots that wait to be used again, the most recently vacated
    /// last.
    pub closed spec fn vacant(self) -> Seq<usize> {
        self.free@
    }

    /// Whether `h` has been handed out by this map at some time.
    pub open spec fn issued(self, h: SlotId) -> bool {
        &&& h.index < self.slot_count()
        &&& (h.generation < self.generation_at(h.index as int) || (h.generation
            == self.generation_at(h.index as int) && !self.vacant().contains(h.index)))
    }

    /// Whether `h` was handed out once and names nothing any more.
    pub open spec fn stale(self, h: SlotId) -> bool {
        self.issued(h) && !self@.contains_key(h)
    }

    /// The handle that the next `insert` returns.
    pub open spec fn next_id(self) -> SlotId {
        if self.vacant().len() > 0 {
            SlotId {
                index: self.vacant().last(),
                generation: self.generation_at(self.vacant().last() as int),
            }
        } else {
            SlotId { index: self.slot_count() as usize, generation: 0 }
        }
    }

    /// How an `insert` that returned `h` changed the slots: it took the
    /// most recently vacated slot, or made a new one if none was vacant,
    /// and left every generation as it was.
    pub open spec fn took_slot(pre: Self, post: Self, h: SlotId) -> bool {
        &&& h == pre.next_id()
        &&& post.vacant() == (if pre.vacant().len() > 0 {
            pre.vacant().drop_last()
        } else {
            pre.vacant()
        })
        &&& post.slot_count() == (if pre.vacant().len() > 0 {
            pre.slot_count()
        } else {
            pre.slot_count() + 1
        })
        &&& post.generation_at(h.index as int) == h.generation
        &&& forall|i: int|
            0 <= i < pre.slot_count() ==> post.generation_at(i) == pre.generation_at(i)
    }

    /// How a `remove` of `h` changed the slots: if `h` named a value, its
    /// slot moved to the next generation and became the most recently
    /// vacated one, unless it was in its last generation, in which case it
    /// is never used again. Nothing else changed.
    pub open spec fn gave_slot(pre: Self, post: Self, h: SlotId) -> bool {
        &&& post.slot_count() == pre.slot_count()
        &&& post.vacant() == (if pre@.contains_key(h) && h.generation < u64::MAX {
            pre.vacant().push(h.index)
        } else {
            pre.vacant()
        })
        &&& forall|i: int|
            0 <= i < pre.slot_count() ==> post.generation_at(i) == (if i == h.index
                && pre@.contains_key(h) && h.generation < u64::MAX {
                (h.generation + 1) as u64
            } else {
                pre.generation_at(i)
            })
    }

    /// Whether the slot at `index` holds a value.
    pub open spec fn holds_at(self, index: int) -> bool {
        self@.contains_key(
            (SlotId { index: index as usize, generation: self.generation_at(index) }),
        )
    }

    /// Whether the slot at `index` holds a value and has a generation
    /// left, so that it can be used again once the value is gone.
    pub open spec fn releasable(self) -> spec_fn(usize) -> bool {
        |index: usize| self.holds_at(index as int) && self.generation_at(index as int) < u64::MAX
    }

    /// How a `clear` changed the slots: every slot that held a value and
    /// has a generation left moved to the next one and joined the vacant
    /// slots, in the order of the indices. Nothing else changed.
    pub open spec fn gave_all(pre: Self, post: Self) -> bool {
        &&& post.slot_count() == pre.slot_count()
        &&& post.vacant() == pre.vacant() + Seq::new(pre.slot_count(), |i: int| i as usize).filter(
            pre.releasable(),
        )
        &&& forall|i: int|
            0 <= i < pre.slot_count() ==> post.generation_at(i) == (if pre.releasable()(
                i as usize,
            ) {
                (pre.generation_at(i) + 1) as u64
            } else {
                pre.generation_at(i)
            })
    }

    /// The vacant slots listed for reuse are slots of the map, hold
    /// nothing, and none is listed twice.
    pub closed spec fn wf(self) -> bool {
        &&& forall|j: int|
            0 <= j < self.free@.len() ==> (#[trigger] self.free@[j]) < self.slots@.len()
                && self.slots@[self.free@[j] as int].value.is_none()
        &&& self.free@.no_duplicates()
    }

    /// A map that holds nothing and has issued no handle.
    pub fn new() -> (m: Self)
        ensures
            m.wf(),
            m@ == Map::<SlotId, T>::empty(),
            m.slot_count() == 0,
            m.vacant() == Seq::<usize>::empty(),
            forall|h: SlotId| !m.issued(h),
    {
        let m = SlotMap { slots: Vec::new(), free: Vec::new() };
        assert(m@ =~= Map::<SlotId, T>::empty());
        m
    }

    /// Every handle that names a value was issued.
    pub proof fn lemma_live_was_issued(self, h: SlotId)
        requires
            self.wf(),
            self@.contains_key(h),
        ensures
            self.issued(h),
    {
        if self.free@.contains(h.index) {
            let j = choose|j: int| 0 <= j < self.free@.len() && self.free@[j] == h.index;
            assert(self.slots@[self.free@[j] as int].value.is_none());
        }
    }

    /// A stale handle names nothing: `get` finds nothing under it, and
    /// `remove` leaves the map as it is.
    pub proof fn lemma_stale_is_inert(self, h: SlotId)
        requires
            self.stale(h),
        ensures
            !self@.contains_key(h),
            self@.remove(h) == self@,
    {
        assert(self@.remove(h) =~= self@);
    }

    /// Whether `h` names a value that is held now.
    pub fn contains(&self, h: SlotId) -> (r: bool)
        ensures
            r == self@.contains_key(h),
    {
        h.index < self.slots.len() && self.slots[h.index].generation == h.generation
            && self.slots[h.index].value.is_some()
    }

    /// The value that `h` names, or nothing if `h` is stale or was never
    /// issued.
    pub fn get(&self, h: SlotId) -> (r: Option<&T>)
        ensures
            r == (if self@.contains_key(h) {
                Some(&self@[h])
            } else {
                None
            }),
    {
        if h.index < self.slots.len() && self.slots[h.index].generation == h.generation {
            self.slots[h.index].value.as_ref()
        } else {
            None
        }
    }

    /// Stores `value` and returns its handle. The most recently vacated
    /// slot is used again if there is one; otherwise a new slot is made.
    /// The handle has never been issued before.
    pub fn insert(&mut self, value: T) -> (h: SlotId)
        requires
            old(self).wf(),
        ensures
            final(self).wf(),
            !old(self).issued(h),
            final(self).issued(h),
            final(self)@ == old(self)@.insert(h, value),
            Self::took_slot(*old(self), *final(self), h),
            forall|k: SlotId| old(self).issued(k) ==> final(self).issued(k),
            forall|k: SlotId| old(self).stale(k) ==> final(self).stale(k),
    {
        let h = match self.free.pop() {
            Some(index) => {
                assert(old(self).free@[old(self).free@.len() - 1] == index);
                let generation: u64 = self.slots[index].generation;
                self.slots[index] = Slot { generation, value: Some(value) };
                SlotId { index, generation }
            },
            None => {
                let index: usize = self.slots.len();
                self.slots.push(Slot { generation: 0, value: Some(value) });
                SlotId { index, generation: 0 }
            },
        };
        proof {
            assert(self@ =~= old(self)@.insert(h, value));
        }
        h
    }

    /// Takes the value that `h` names out of the map and returns it; the
    /// slot moves to its next generation and waits to be used again. On a
    /// handle that is stale or was never issued nothing happens.
    pub fn remove(&mut self, h: SlotId) -> (r: Option<T>)
        requires
            old(self).wf(),
        ensures
            final(self).wf(),
            r == (if old(self)@.contains_key(h) {
                Some(old(self)@[h])
            } else {
                None
            }),
            final(self)@ == old(self)@.remove(h),
            Self::gave_slot(*old(self), *final(self), h),
            forall|k: SlotId| old(self).issued(k) ==> final(self).issued(k),
            forall|k: SlotId| old(self).stale(k) ==> final(self).stale(k),
    {
        if !self.contains(h) {
            return None;
        }
        proof {
            self.lemma_live_was_issued(h);
        }
        let slot = &mut self.slots[h.index];
        let value = slot.value.take();
        if h.generation < u64::MAX {
            slot.generation = h.generation + 1;
            self.free.push(h.index);
        }
        proof {
            assert(self@ =~= old(self)@.remove(h));
            assert forall|j: int| 0 <= j < self.free@.len() implies (#[trigger] self.free@[j])
                < self.slots@.len() && self.slots@[self.free@[j] as int].value.is_none() by {
                if j < old(self).free@.len() {
                    assert(self.free@[j] == old(self).free@[j]);
                }
            }
        }
        value
    }

    /// Drops every value. Every handle issued so far is stale from now
    /// on, and no later `insert` returns one of them.
    pub fn clear(&mut self)
        requires
            old(self).wf(),
        ensures
            final(self).wf(),
            final(self)@ == Map::<SlotId, T>::empty(),
            Self::gave_all(*old(self), *final(self)),
            forall|k: SlotId| old(self).issued(k) ==> final(self).stale(k),
    {
        let n: usize = self.slots.len();
        let mut i: usize = 0;
        let ghost indices = Seq::new(n as nat, |j: int| j as usize);
        proof {
            reveal(Seq::filter);
            assert(indices.take(0).filter(old(self).releasable()) =~= Seq::<usize>::empty());
            assert(self.free@ =~= old(self).free@ + Seq::<usize>::empty());
        }
        while i < n
            invariant
                old(self).wf(),
                self.wf(),
                self.slots@.len() == n,
                old(self).slots@.len() == n,
                indices == Seq::new(n as nat, |j: int| j as usize),
                i <= n,
                forall|j: int| 0 <= j < i ==> (#[trigger] self.slots@[j]).value.is_none(),
                forall|j: int| i <= j < n ==> (#[trigger] self.slots@[j]) == old(self).slots@[j],
                forall|j: int|
                    0 <= j < i ==> (#[trigger] self.slots@[j]).generation == (if old(
                        self,
                    ).releasable()(j as usize) {
                        (old(self).slots@[j].generation + 1) as u64
                    } else {
                        old(self).slots@[j].generation
                    }),
                self.free@ == old(self).free@ + indices.take(i as int).filter(
                    old(self).releasable(),
                ),
                forall|k: SlotId| old(self).issued(k) ==> self.issued(k),
            decreases n - i,
        {
            let ghost before = *self;
            proof {
                reveal(Seq::filter);
                let upto = indices.take(i + 1);
                assert(upto.drop_last() =~= indices.take(i as int));
                assert(upto.last() == i);
                assert(old(self).holds_at(i as int) == self.slots@[i as int].value.is_some());
            }
            if self.slots[i].value.is_some() {
                let generation: u64 = self.slots[i].generation;
                proof {
                    if self.free@.contains(i) {
                        let j = choose|j: int| 0 <= j < self.free@.len() && self.free@[j] == i;
                        assert(self.slots@[self.free@[j] as int].value.is_none());
                    }
                }
                if generation < u64::MAX {
                    self.slots[i] = Slot { generation: generation + 1, value: None };
                    self.free.push(i);
                } else {
                    self.slots[i] = Slot { generation, value: None };
                }
                proof {
                    assert forall|j: int| 0 <= j < self.free@.len() implies (
                    #[trigger] self.free@[j]) < self.slots@.len()
                        && self.slots@[self.free@[j] as int].value.is_none() by {
                        if j < before.free@.len() {
                            assert(self.free@[j] == before.free@[j]);
                        }
                    }
                    assert forall|k: SlotId| before.issued(k) implies self.issued(k) by {
                        if k.index == i {
                        } else {
                            assert(self.slots@[k.index as int] == before.slots@[k.index as int]);
                        }
                    }
                }
            }
            proof {
                assert(self.free@ =~= old(self).free@ + indices.take(i + 1).filter(
                    old(self).releasable(),
                ));
            }
            i += 1;
        }
        proof {
            assert(indices.take(n as int) =~= indices);
            assert(self@ =~= Map::<SlotId, T>::empty());
        }
    }

    /// The value that `h` names, to be changed in place, or nothing if `h`
    /// is stale or was never issued. Only that value can change.
    pub fn get_mut(&mut self, h: SlotId) -> (r: Option<&mut T>)
        requires
            old(self).wf(),
        ensures
            final(self).wf(),
            match r {
                Some(v) => old(self)@.contains_key(h) && *v == old(self)@[h] && final(self)@ =~= old(
                    self,
                )@.insert(h, *final(v)),
                None => !old(self)@.contains_key(h) && final(self)@ =~= old(self)@,
            },
            final(self).vacant() == old(self).vacant(),
            final(self).slot_count() == old(self).slot_count(),
            forall|i: int|
                0 <= i < old(self).slot_count() ==> final(self).generation_at(i) == old(
                    self,
                ).generation_at(i),
            forall|k: SlotId| old(self).issued(k) <==> final(self).issued(k),
    {
        if !self.contains(h) {
            return None;
        }
        let slot = &mut self.slots[h.index];
        slot.value.as_mut()
    }
}

} // verus!

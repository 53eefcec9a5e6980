//! The slots of a GPU backend, filled and collected in turn.
use crate::error::Error;
use vstd::prelude::*;

verus! {

/// The interface that a device is driven by.
#[derive(Clone, Copy, Debug, PartialEq, Eq, Structural)]
pub enum GpuApi {
    Metal,
    Cuda,
    Vulkan,
}

/// The most slots that a ring can have.
pub const MAX_SLOTS: usize = 0x7fff_ffff;

/// A ring of slots. Batches go in at one end and come out at the other, so the
/// oldest submitted batch is always the next to be collected. Its view is the
/// slots in flight, oldest first.
#[derive(Clone, Copy)]
pub struct SlotRing {
    slots: usize,
    collect_at: usize,
    pending: usize,
}

/// The slot `ahead` places after `from` in a ring of `slots`.
pub open spec fn ring_slot(from: int, ahead: int, slots: int) -> int {
    (from + ahead) % slots
}

impl View for SlotRing {
    type V = Seq<int>;

    closed spec fn view(&self) -> Seq<int> {
        Seq::new(self.pending as nat, |i: int| self.slot_at(i))
    }
}

impl SlotRing {
    /// The number of slots.
    pub closed spec fn slots(&self) -> nat {
        self.slots as nat
    }

    /// The slot that is `ahead` places from the next one to be collected.
    pub closed spec fn slot_at(&self, ahead: int) -> int {
        ring_slot(self.collect_at as int, ahead, self.slots as int)
    }

    /// No more batches are in flight than there are slots.
    #[verifier::type_invariant]
    pub closed spec fn wf(&self) -> bool {
        &&& 0 < self.slots <= MAX_SLOTS
        &&& self.collect_at < self.slots
        &&& self.pending <= self.slots
    }

    /// Whether `next` is this ring with one more batch in flight, in the slot
    /// that was free.
    pub open spec fn fills(&self, next: SlotRing) -> bool {
        &&& next@ == self@.push(self.slot_at(self@.len() as int))
        &&& next.slots() == self.slots()
        &&& forall|i: int| next.slot_at(i) == self.slot_at(i)
    }

    /// Whether `next` is this ring without its oldest batch.
    pub open spec fn frees(&self, next: SlotRing) -> bool {
        &&& next@ == self@.drop_first()
        &&& next.slots() == self.slots()
        &&& forall|i: int| next.slot_at(i) == self.slot_at(i + 1)
    }

    /// A ring of free slots.
    pub fn new(slots: usize) -> (r: SlotRing)
        requires
            0 < slots <= MAX_SLOTS,
        ensures
            r.slots() == slots,
            r@.len() == 0,
            r.slot_at(0) == 0,
    {
        proof {
            vstd::arithmetic::div_mod::lemma_small_mod(0, slots as nat);
        }
        SlotRing { slots, collect_at: 0, pending: 0 }
    }

    /// The number of slots.
    pub fn slot_count(&self) -> (r: usize)
        ensures
            r == self.slots(),
            r > 0,
    {
        proof {
            use_type_invariant(self);
        }
        self.slots
    }

    /// The slot for a batch of `count` addresses on a device that takes
    /// `capacity` at most. An empty batch needs no slot.
    pub fn next_free(&self, api: GpuApi, count: usize, capacity: usize) -> (r: Result<
        Option<usize>,
        Error,
    >)
        ensures
            r == (if count > capacity {
                Err::<Option<usize>, Error>(Error::BatchExceedsCapacity(api))
            } else if self@.len() == self.slots() {
                Err(Error::SlotsExhausted(api))
            } else if count == 0 {
                Ok(None)
            } else {
                Ok(Some(self.slot_at(self@.len() as int) as usize))
            }),
            self@.len() <= self.slots(),
            r matches Ok(Some(slot)) ==> slot < self.slots() && slot == self.slot_at(
                self@.len() as int,
            ),
    {
        proof {
            use_type_invariant(self);
        }
        if count > capacity {
            return Err(Error::BatchExceedsCapacity(api));
        }
        if self.pending >= self.slots {
            return Err(Error::SlotsExhausted(api));
        }
        if count == 0 {
            return Ok(None);
        }
        Ok(Some((self.collect_at + self.pending) % self.slots))
    }

    /// The ring once a batch was submitted to the next free slot.
    pub fn submitted(self) -> (r: SlotRing)
        requires
            self@.len() < self.slots(),
        ensures
            self.fills(r),
    {
        proof {
            use_type_invariant(&self);
        }
        let r = SlotRing {
            slots: self.slots,
            collect_at: self.collect_at,
            pending: self.pending + 1,
        };
        assert(r@ =~= self@.push(self.slot_at(self@.len() as int)));
        r
    }

    /// The slot of the oldest batch in flight.
    pub fn oldest(&self, api: GpuApi) -> (r: Result<usize, Error>)
        ensures
            r == (if self@.len() == 0 {
                Err::<usize, Error>(Error::NothingInFlight(api))
            } else {
                Ok(self@[0] as usize)
            }),
            r matches Ok(slot) ==> slot < self.slots() && slot == self@[0],
    {
        proof {
            use_type_invariant(self);
        }
        if self.pending == 0 {
            return Err(Error::NothingInFlight(api));
        }
        proof {
            vstd::arithmetic::div_mod::lemma_small_mod(self.collect_at as nat, self.slots as nat);
        }
        Ok(self.collect_at)
    }

    /// The ring once the oldest batch was collected.
    pub fn collected(self) -> (r: SlotRing)
        requires
            self@.len() > 0,
        ensures
            self.frees(r),
    {
        proof {
            use_type_invariant(&self);
        }
        let next: usize = (self.collect_at + 1) % self.slots;
        let r = SlotRing { slots: self.slots, collect_at: next, pending: self.pending - 1 };
        proof {
            let slots = self.slots as int;
            assert forall|i: int| r.slot_at(i) == self.slot_at(i + 1) by {
                vstd::arithmetic::div_mod::lemma_add_mod_noop_right(
                    i,
                    self.collect_at + 1,
                    slots,
                );
            }
            assert(r@ =~= self@.drop_first()) by {
                assert forall|i: int| 0 <= i < r@.len() implies r@[i] == self@.drop_first()[i] by {
                    assert(r.slot_at(i) == self.slot_at(i + 1));
                }
            }
        }
        r
    }

    /// The next free slot is one of the slots.
    pub proof fn law_free_slot_is_one_of_the_slots(self)
        requires
            self.wf(),
        ensures
            0 <= self.slot_at(self@.len() as int) < self.slots(),
            self@.len() <= self.slots(),
    {
        vstd::arithmetic::div_mod::lemma_mod_bound(
            self.collect_at + self.pending,
            self.slots as int,
        );
    }

    /// No slot is in flight twice, and the next free slot is not in flight: a
    /// command is never overwritten while the device works on it.
    pub proof fn law_slots_are_distinct(self)
        requires
            self.wf(),
        ensures
            self@.no_duplicates(),
            self@.len() < self.slots() ==> !self@.contains(self.slot_at(self@.len() as int)),
            forall|i: int| 0 <= i < self@.len() ==> 0 <= #[trigger] self@[i] < self.slots(),
    {
        let slots = self.slots as int;
        assert forall|i: int, j: int| 0 <= i < j < slots implies self.slot_at(i) != self.slot_at(
            j,
        ) by {
            lemma_ring_slots_differ(self.collect_at as int, i, j, slots);
        }
        assert forall|i: int| 0 <= i < slots implies 0 <= #[trigger] self.slot_at(i) < slots by {
            vstd::arithmetic::div_mod::lemma_mod_bound(self.collect_at + i, slots);
        }
        assert forall|i: int| 0 <= i < self@.len() implies 0 <= #[trigger] self@[i]
            < self.slots() by {
            assert(self@[i] == self.slot_at(i));
        }
        if self@.len() < self.slots() {
            let free = self.slot_at(self@.len() as int);
            assert forall|i: int| 0 <= i < self@.len() implies self@[i] != free by {
                assert(self.slot_at(i) != self.slot_at(self@.len() as int));
            }
        }
    }
}

/// Places less than a round apart are different slots.
proof fn lemma_ring_slots_differ(from: int, i: int, j: int, slots: int)
    requires
        slots > 0,
        0 <= i < j < slots,
        0 <= from < slots,
    ensures
        ring_slot(from, i, slots) != ring_slot(from, j, slots),
{
    let a = from + i;
    let b = from + j;
    vstd::arithmetic::div_mod::lemma_fundamental_div_mod(a, slots);
    vstd::arithmetic::div_mod::lemma_fundamental_div_mod(b, slots);
    if a % slots == b % slots {
        let qa = a / slots;
        let qb = b / slots;
        assert(slots * (qb - qa) == j - i) by (nonlinear_arith)
            requires
                a == slots * qa + a % slots,
                b == slots * qb + b % slots,
                a % slots == b % slots,
                b - a == j - i,
        ;
        assert(false) by (nonlinear_arith)
            requires
                slots * (qb - qa) == j - i,
                0 < j - i < slots,
                slots > 0,
        ;
    }
}

}

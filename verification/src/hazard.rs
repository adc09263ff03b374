//! Hazard slots and deferred storage reclamation.
//!
//! Readers publish offsets before they visit stored nodes. Writers reserve a
//! retirement slot, publish it once the node is unlinked, and hand an offset
//! back only while no hazard protects it.

use vstd::prelude::*;

use crate::error::Error;

verus! {

/// The hazard slot of one worker.
#[derive(Clone, Copy)]
pub struct HazardSlot {
    pub owned: bool,
    pub first: u64,
    pub second: u64,
}

/// A fixed set of hazard slots, one for each worker.
pub struct HazardRegistry {
    pub slots: Vec<HazardSlot>,
}

/// The claim of one worker on its hazard slot.
pub struct HazardGuard {
    pub index: usize,
}

/// Where a retirement slot stands.
#[derive(Clone, Copy, PartialEq, Eq, Structural)]
pub enum RetireState {
    Free,
    Reserved,
    Published,
}

/// One slot of the retirement queue.
#[derive(Clone, Copy)]
pub struct RetiredSlot {
    pub state: RetireState,
    pub offset: u64,
}

/// A bounded queue of offsets that wait for their hazards to clear.
pub struct RetireQueue {
    pub slots: Vec<RetiredSlot>,
}

/// A reserved retirement slot that is not published yet.
pub struct RetireReservation {
    pub index: usize,
    pub offset: u64,
}

/// A hazard slot without owner or protected offsets.
pub open spec fn unowned() -> HazardSlot {
    HazardSlot { owned: false, first: 0, second: 0 }
}

/// A retirement slot that nothing occupies.
pub open spec fn vacant() -> RetiredSlot {
    RetiredSlot { state: RetireState::Free, offset: 0 }
}

/// Whether `slot` is published and no hazard keeps its offset.
pub open spec fn reclaimable(slot: RetiredSlot, hazards: HazardRegistry) -> bool {
    slot.state is Published && !hazards.protects(slot.offset)
}

/// How many of the first `n` slots are reclaimable.
pub open spec fn reclaimable_among(
    slots: Seq<RetiredSlot>,
    hazards: HazardRegistry,
    n: nat,
) -> nat
    decreases n,
{
    if n == 0 {
        0
    } else {
        reclaimable_among(slots, hazards, (n - 1) as nat) + if reclaimable(
            slots[n - 1],
            hazards,
        ) {
            1nat
        } else {
            0nat
        }
    }
}

impl HazardRegistry {
    /// Whether some slot protects `offset`.
    pub open spec fn protects(&self, offset: u64) -> bool {
        exists|i: int|
            0 <= i < self.slots@.len() && ((#[trigger] self.slots@[i]).first == offset
                || self.slots@[i].second == offset)
    }

    /// Creates one free slot for each of `max_threads` workers.
    pub fn new(max_threads: u16) -> (registry: HazardRegistry)
        ensures
            registry.slots@ == Seq::new(max_threads as nat, |i: int| unowned()),
    {
        let capacity: usize = max_threads as usize;
        let mut slots: Vec<HazardSlot> = Vec::new();
        while slots.len() < capacity
            invariant
                capacity == max_threads,
                slots@.len() <= capacity,
                slots@ =~= Seq::new(slots@.len(), |i: int| unowned()),
            decreases capacity - slots@.len(),
        {
            slots.push(HazardSlot { owned: false, first: 0, second: 0 });
        }
        HazardRegistry { slots }
    }

    /// Claims the first free slot.
    pub fn acquire(&mut self) -> (result: Result<HazardGuard, Error>)
        ensures
            final(self).slots@ == called(old(self).slots@, HazardCall::Acquire),
            match result {
                Ok(guard) => {
                    &&& guard.index < old(self).slots@.len()
                    &&& !old(self).slots@[guard.index as int].owned
                    &&& forall|i: int|
                        0 <= i < guard.index ==> (#[trigger] old(self).slots@[i]).owned
                    &&& final(self).slots@ == old(self).slots@.update(
                        guard.index as int,
                        HazardSlot { owned: true, ..old(self).slots@[guard.index as int] },
                    )
                },
                Err(error) => {
                    &&& forall|i: int|
                        0 <= i < old(self).slots@.len() ==> (#[trigger] old(
                            self,
                        ).slots@[i]).owned
                    &&& error == Error::Busy("all worker hazard slots are occupied")
                    &&& *final(self) == *old(self)
                },
            },
    {
        let mut index: usize = 0;
        while index < self.slots.len()
            invariant
                *self == *old(self),
                index <= self.slots@.len(),
                forall|i: int| 0 <= i < index ==> (#[trigger] self.slots@[i]).owned,
            decreases self.slots@.len() - index,
        {
            let slot = self.slots[index];
            if !slot.owned {
                proof {
                    assert(first_free(self.slots@, index as int));
                    let free = choose|free: int| first_free(self.slots@, free);
                    assert(free == index) by {
                        assert(self.slots@[index as int] == slot);
                        assert(!self.slots@[free].owned);
                    }
                }
                self.slots.set(index, HazardSlot { owned: true, ..slot });
                return Ok(HazardGuard { index });
            }
            index = index + 1;
        }
        Err(Error::Busy("all worker hazard slots are occupied"))
    }

    /// Whether some slot protects `offset`.
    pub fn contains(&self, offset: u64) -> (found: bool)
        ensures
            found == self.protects(offset),
    {
        let mut index: usize = 0;
        while index < self.slots.len()
            invariant
                index <= self.slots@.len(),
                forall|i: int|
                    0 <= i < index ==> (#[trigger] self.slots@[i]).first != offset
                        && self.slots@[i].second != offset,
            decreases self.slots@.len() - index,
        {
            if self.slots[index].first == offset || self.slots[index].second == offset {
                return true;
            }
            index = index + 1;
        }
        false
    }
}

impl HazardGuard {
    /// Publishes `offset` in one of the two hazards of the slot.
    pub fn protect(
        &self,
        registry: &mut HazardRegistry,
        hazard_index: usize,
        offset: u64,
    ) -> (result: Result<(), Error>)
        ensures
            self.index < old(registry).slots@.len() ==> final(registry).slots@ == called(
                old(registry).slots@,
                HazardCall::Protect(self.index as int, hazard_index as int, offset),
            ),
            result is Err ==> *final(registry) == *old(registry),
            self.index >= old(registry).slots@.len() ==> result == Err::<(), Error>(
                Error::Corrupt("hazard owner index is out of range"),
            ),
            self.index < old(registry).slots@.len() && hazard_index >= 2 ==> result == Err::<
                (),
                Error,
            >(Error::Corrupt("hazard index is out of range")),
            self.index < old(registry).slots@.len() && hazard_index < 2 ==> {
                let slot = old(registry).slots@[self.index as int];
                &&& result == Ok::<(), Error>(())
                &&& final(registry).slots@ == old(registry).slots@.update(
                    self.index as int,
                    if hazard_index == 0 {
                        HazardSlot { first: offset, ..slot }
                    } else {
                        HazardSlot { second: offset, ..slot }
                    },
                )
            },
    {
        if self.index >= registry.slots.len() {
            return Err(Error::Corrupt("hazard owner index is out of range"));
        }
        let slot = registry.slots[self.index];
        if hazard_index == 0 {
            registry.slots.set(self.index, HazardSlot { first: offset, ..slot });
            Ok(())
        } else if hazard_index == 1 {
            registry.slots.set(self.index, HazardSlot { second: offset, ..slot });
            Ok(())
        } else {
            Err(Error::Corrupt("hazard index is out of range"))
        }
    }

    /// Withdraws both hazards of the slot.
    pub fn clear(&self, registry: &mut HazardRegistry) -> (result: Result<(), Error>)
        ensures
            self.index < old(registry).slots@.len() ==> final(registry).slots@ == called(
                old(registry).slots@,
                HazardCall::Clear(self.index as int),
            ),
            self.index >= old(registry).slots@.len() ==> result == Err::<(), Error>(
                Error::Corrupt("hazard owner index is out of range"),
            ) && *final(registry) == *old(registry),
            self.index < old(registry).slots@.len() ==> result == Ok::<(), Error>(())
                && final(registry).slots@ == old(registry).slots@.update(
                self.index as int,
                HazardSlot {
                    first: 0,
                    second: 0,
                    ..old(registry).slots@[self.index as int]
                },
            ),
    {
        if self.index >= registry.slots.len() {
            return Err(Error::Corrupt("hazard owner index is out of range"));
        }
        let slot = registry.slots[self.index];
        registry.slots.set(self.index, HazardSlot { first: 0, second: 0, ..slot });
        Ok(())
    }

    /// Withdraws both hazards and frees the slot. A slot that the registry
    /// does not have is left alone.
    pub fn release(self, registry: &mut HazardRegistry)
        ensures
            self.index < old(registry).slots@.len() ==> final(registry).slots@ == called(
                old(registry).slots@,
                HazardCall::Release(self.index as int),
            ),
            self.index >= old(registry).slots@.len() ==> *final(registry) == *old(registry),
            self.index < old(registry).slots@.len() ==> final(registry).slots@ == old(
                registry,
            ).slots@.update(self.index as int, unowned()),
    {
        if self.index < registry.slots.len() {
            registry.slots.set(self.index, HazardSlot { owned: false, first: 0, second: 0 });
        }
    }
}

impl RetireQueue {
    /// A slot holds an offset exactly while it is taken.
    pub open spec fn well_formed(&self) -> bool {
        forall|i: int|
            0 <= i < self.slots@.len() ==> ((#[trigger] self.slots@[i]).state is Free
                <==> self.slots@[i].offset == 0)
    }

    /// Creates a queue with four slots for each worker and eight more.
    pub fn new(max_threads: u16) -> (queue: RetireQueue)
        ensures
            queue.well_formed(),
            queue.slots@ == Seq::new((max_threads * 4 + 8) as nat, |i: int| vacant()),
    {
        let capacity: usize = max_threads as usize * 4 + 8;
        let mut slots: Vec<RetiredSlot> = Vec::new();
        while slots.len() < capacity
            invariant
                capacity == max_threads * 4 + 8,
                slots@.len() <= capacity,
                slots@ =~= Seq::new(slots@.len(), |i: int| vacant()),
            decreases capacity - slots@.len(),
        {
            slots.push(RetiredSlot { state: RetireState::Free, offset: 0 });
        }
        RetireQueue { slots }
    }

    /// Reserves the first free slot for `offset`.
    pub fn reserve(&mut self, offset: u64) -> (result: Result<RetireReservation, Error>)
        requires
            old(self).well_formed(),
        ensures
            final(self).well_formed(),
            match result {
                Ok(reservation) => {
                    &&& offset != 0
                    &&& reservation.offset == offset
                    &&& reservation.index < old(self).slots@.len()
                    &&& old(self).slots@[reservation.index as int].state is Free
                    &&& forall|i: int|
                        0 <= i < reservation.index ==> !((#[trigger] old(
                            self,
                        ).slots@[i]).state is Free)
                    &&& final(self).slots@ == old(self).slots@.update(
                        reservation.index as int,
                        RetiredSlot { state: RetireState::Reserved, offset },
                    )
                },
                Err(error) => {
                    &&& *final(self) == *old(self)
                    &&& if offset == 0 {
                        error == Error::Corrupt("cannot retire a null offset")
                    } else {
                        &&& error == Error::Busy("retirement queue is full")
                        &&& forall|i: int|
                            0 <= i < old(self).slots@.len() ==> !((#[trigger] old(
                                self,
                            ).slots@[i]).state is Free)
                    }
                },
            },
    {
        if offset == 0 {
            return Err(Error::Corrupt("cannot retire a null offset"));
        }
        let mut index: usize = 0;
        while index < self.slots.len()
            invariant
                *self == *old(self),
                self.well_formed(),
                offset != 0,
                index <= self.slots@.len(),
                forall|i: int| 0 <= i < index ==> !((#[trigger] self.slots@[i]).state is Free),
            decreases self.slots@.len() - index,
        {
            if self.slots[index].state == RetireState::Free {
                self.slots.set(index, RetiredSlot { state: RetireState::Reserved, offset });
                return Ok(RetireReservation { index, offset });
            }
            index = index + 1;
        }
        Err(Error::Busy("retirement queue is full"))
    }

    /// Hands every published offset that no hazard protects to `release`, and
    /// frees the slots of those that it took.
    ///
    /// Only such offsets are handed to `release`: it need not accept any other. A
    /// protected offset, and one that `release` refused, stay published for a later
    /// pass. The count of freed slots comes back, or the first refusal.
    ///
    /// The slots are visited once each, from the first to the last. How often and in
    /// what order `release` is called is left unsaid below: a contract has no word for
    /// what a function remembers of its calls.
    pub fn reclaim<F: FnMut(u64) -> Result<(), Error>>(
        &mut self,
        hazards: &HazardRegistry,
        mut release: F,
    ) -> (result: Result<usize, Error>)
        requires
            old(self).well_formed(),
            forall|i: int|
                #![trigger old(self).slots@[i]]
                0 <= i < old(self).slots@.len() && reclaimable(old(self).slots@[i], *hazards)
                    ==> release.requires((old(self).slots@[i].offset,)),
        ensures
            final(self).well_formed(),
            final(self).slots@.len() == old(self).slots@.len(),
            forall|i: int|
                0 <= i < old(self).slots@.len() && !reclaimable(old(self).slots@[i], *hazards)
                    ==> (#[trigger] final(self).slots@[i]) == old(self).slots@[i],
            forall|i: int|
                0 <= i < old(self).slots@.len() && reclaimable(old(self).slots@[i], *hazards)
                    ==> released_or_kept(
                    old(self).slots@[i],
                    #[trigger] final(self).slots@[i],
                    release,
                ),
            match result {
                Ok(count) => {
                    &&& count == reclaimable_among(
                        old(self).slots@,
                        *hazards,
                        old(self).slots@.len(),
                    )
                    &&& forall|i: int|
                        0 <= i < old(self).slots@.len() && reclaimable(
                            old(self).slots@[i],
                            *hazards,
                        ) ==> #[trigger] final(self).slots@[i] == vacant()
                },
                Err(error) => exists|first: int|
                    refused_first(
                        old(self).slots@,
                        final(self).slots@,
                        *hazards,
                        release,
                        first,
                        error,
                    ),
            },
    {
        let ghost before = self.slots@;
        let ghost handed = release;
        let mut reclaimed: usize = 0;
        let mut first_error: Option<Error> = None;
        let mut index: usize = 0;
        let ghost mut first: int = 0;
        while index < self.slots.len()
            invariant
                before == old(self).slots@,
                release == handed,
                self.well_formed(),
                forall|i: int|
                    #![trigger before[i]]
                    0 <= i < before.len() && reclaimable(before[i], *hazards)
                        ==> release.requires((before[i].offset,)),
                self.slots@.len() == before.len(),
                index <= before.len(),
                reclaimed <= index,
                forall|i: int| index <= i < before.len() ==> self.slots@[i] == before[i],
                forall|i: int|
                    0 <= i < index && !reclaimable(before[i], *hazards)
                        ==> (#[trigger] self.slots@[i]) == before[i],
                forall|i: int|
                    0 <= i < index && reclaimable(before[i], *hazards) ==> released_or_kept(
                        before[i],
                        #[trigger] self.slots@[i],
                        release,
                    ),
                first_error is None ==> {
                    &&& reclaimed == reclaimable_among(before, *hazards, index as nat)
                    &&& forall|i: int|
                        0 <= i < index && reclaimable(before[i], *hazards)
                            ==> #[trigger] self.slots@[i] == vacant()
                },
                first_error is Some ==> first < index && refused_first(
                    before,
                    self.slots@,
                    *hazards,
                    release,
                    first,
                    first_error->0,
                ),
            decreases before.len() - index,
        {
            let ghost earlier = self.slots@;
            let slot = self.slots[index];
            assert(slot == before[index as int]);
            if slot.state == RetireState::Published && !hazards.contains(slot.offset) {
                match release(slot.offset) {
                    Err(error) => {
                        if first_error.is_none() {
                            first_error = Some(error);
                            proof {
                                first = index as int;
                            }
                        }
                    },
                    Ok(taken) => {
                        self.slots.set(index, RetiredSlot { state: RetireState::Free, offset: 0 });
                        reclaimed = reclaimed + 1;
                    },
                }
            }
            assert(forall|i: int|
                0 <= i < before.len() && i != index ==> self.slots@[i] == earlier[i]);
            index = index + 1;
        }
        match first_error {
            Some(error) => Err(error),
            None => Ok(reclaimed),
        }
    }
}

/// Whether `release` took the offset of `before` and the slot is vacant, or
/// refused it and the slot is unchanged.
pub open spec fn released_or_kept<F: FnMut(u64) -> Result<(), Error>>(
    before: RetiredSlot,
    after: RetiredSlot,
    release: F,
) -> bool {
    ||| after == vacant() && release.ensures((before.offset,), Ok::<(), Error>(()))
    ||| after == before && exists|error: Error| #[trigger]
        release.ensures((before.offset,), Err::<(), Error>(error))
}

/// Whether slot `first` is the first reclaimable one that `release` refused,
/// with `error`.
pub open spec fn refused_first<F: FnMut(u64) -> Result<(), Error>>(
    before: Seq<RetiredSlot>,
    after: Seq<RetiredSlot>,
    hazards: HazardRegistry,
    release: F,
    first: int,
    error: Error,
) -> bool {
    &&& 0 <= first < before.len()
    &&& reclaimable(before[first], hazards)
    &&& after[first] == before[first]
    &&& release.ensures((before[first].offset,), Err::<(), Error>(error))
    &&& forall|i: int|
        0 <= i < first && reclaimable(before[i], hazards) ==> #[trigger] after[i] == vacant()
}

impl RetireReservation {
    /// Whether this reservation holds its slot of `queue`.
    pub open spec fn holds(&self, queue: RetireQueue) -> bool {
        &&& self.index < queue.slots@.len()
        &&& queue.slots@[self.index as int] == (RetiredSlot {
            state: RetireState::Reserved,
            offset: self.offset,
        })
    }

    /// Publishes the reserved offset.
    pub fn commit(self, queue: &mut RetireQueue) -> (result: Result<(), Error>)
        requires
            old(queue).well_formed(),
        ensures
            final(queue).well_formed(),
            self.index >= old(queue).slots@.len() ==> result == Err::<(), Error>(
                Error::Corrupt("retirement reservation index is invalid"),
            ) && *final(queue) == *old(queue),
            self.index < old(queue).slots@.len() && !(old(
                queue,
            ).slots@[self.index as int].state is Reserved) ==> result == Err::<(), Error>(
                Error::Corrupt("retirement publication state changed"),
            ) && *final(queue) == *old(queue),
            self.index < old(queue).slots@.len() && old(
                queue,
            ).slots@[self.index as int].state is Reserved ==> result == Ok::<(), Error>(())
                && final(queue).slots@ == old(queue).slots@.update(
                self.index as int,
                RetiredSlot {
                    state: RetireState::Published,
                    ..old(queue).slots@[self.index as int]
                },
            ),
    {
        if self.index >= queue.slots.len() {
            return Err(Error::Corrupt("retirement reservation index is invalid"));
        }
        let slot = queue.slots[self.index];
        if slot.state != RetireState::Reserved {
            return Err(Error::Corrupt("retirement publication state changed"));
        }
        queue.slots.set(self.index, RetiredSlot { state: RetireState::Published, ..slot });
        Ok(())
    }

    /// Gives the reserved slot back without publication. A queue in which the
    /// reservation holds no slot is left alone.
    pub fn cancel(self, queue: &mut RetireQueue)
        requires
            old(queue).well_formed(),
        ensures
            final(queue).well_formed(),
            self.holds(*old(queue)) ==> final(queue).slots@ == old(queue).slots@.update(
                self.index as int,
                vacant(),
            ),
            !self.holds(*old(queue)) ==> *final(queue) == *old(queue),
    {
        if self.index < queue.slots.len() {
            let slot = queue.slots[self.index];
            if slot.state == RetireState::Reserved && slot.offset == self.offset {
                queue.slots.set(self.index, RetiredSlot { state: RetireState::Free, offset: 0 });
            }
        }
    }
}

/// What `protect` publishes is protected, and what another slot protects
/// stays so.
pub proof fn law_published_hazard_protects(
    before: HazardRegistry,
    after: HazardRegistry,
    guard: HazardGuard,
    hazard_index: usize,
    offset: u64,
)
    requires
        guard.index < before.slots@.len(),
        hazard_index < 2,
        after.slots@ == before.slots@.update(
            guard.index as int,
            if hazard_index == 0 {
                HazardSlot { first: offset, ..before.slots@[guard.index as int] }
            } else {
                HazardSlot { second: offset, ..before.slots@[guard.index as int] }
            },
        ),
    ensures
        after.protects(offset),
        forall|i: int, other: u64|
            0 <= i < before.slots@.len() && i != guard.index && ((
            #[trigger] before.slots@[i]).first == other || before.slots@[i].second == other)
                ==> #[trigger] after.protects(other),
{
    assert(after.slots@[guard.index as int].first == offset
        || after.slots@[guard.index as int].second == offset);
    assert forall|i: int, other: u64|
        0 <= i < before.slots@.len() && i != guard.index && ((
        #[trigger] before.slots@[i]).first == other || before.slots@[i].second
            == other) implies #[trigger] after.protects(other) by {
        assert(after.slots@[i] == before.slots@[i]);
    }
}

/// After `clear`, only what another slot protects is still protected.
pub proof fn law_cleared_hazard_protects_nothing(
    before: HazardRegistry,
    after: HazardRegistry,
    guard: HazardGuard,
    offset: u64,
)
    requires
        guard.index < before.slots@.len(),
        after.slots@ == before.slots@.update(
            guard.index as int,
            HazardSlot { first: 0, second: 0, ..before.slots@[guard.index as int] },
        ),
        offset != 0,
    ensures
        after.protects(offset) <==> exists|i: int|
            0 <= i < before.slots@.len() && i != guard.index && ((
            #[trigger] before.slots@[i]).first == offset || before.slots@[i].second == offset),
{
    if after.protects(offset) {
        let i = choose|i: int|
            0 <= i < after.slots@.len() && ((#[trigger] after.slots@[i]).first == offset
                || after.slots@[i].second == offset);
        assert(i != guard.index);
        assert(before.slots@[i] == after.slots@[i]);
    }
    if exists|i: int|
        0 <= i < before.slots@.len() && i != guard.index && ((
        #[trigger] before.slots@[i]).first == offset || before.slots@[i].second == offset) {
        let i = choose|i: int|
            0 <= i < before.slots@.len() && i != guard.index && ((
            #[trigger] before.slots@[i]).first == offset || before.slots@[i].second == offset);
        assert(after.slots@[i] == before.slots@[i]);
    }
}

/// One call on a hazard registry.
pub enum HazardCall {
    /// A worker claims the first free slot.
    Acquire,
    /// The guard of a slot publishes an offset in one of its hazards.
    Protect(int, int, u64),
    /// The guard of a slot withdraws both hazards.
    Clear(int),
    /// The guard of a slot is given up.
    Release(int),
}

/// Whether a slot is the first free one.
pub open spec fn first_free(slots: Seq<HazardSlot>, index: int) -> bool {
    &&& 0 <= index < slots.len()
    &&& !slots[index].owned
    &&& forall|i: int| 0 <= i < index ==> (#[trigger] slots[i]).owned
}

/// The slots after a call. A claim without a free slot, and a hazard that a slot does
/// not have, change nothing.
pub open spec fn called(slots: Seq<HazardSlot>, call: HazardCall) -> Seq<HazardSlot> {
    match call {
        HazardCall::Acquire => if exists|index: int| first_free(slots, index) {
            let index = choose|index: int| first_free(slots, index);
            slots.update(index, HazardSlot { owned: true, ..slots[index] })
        } else {
            slots
        },
        HazardCall::Protect(owner, hazard, offset) => if hazard == 0 {
            slots.update(owner, HazardSlot { first: offset, ..slots[owner] })
        } else if hazard == 1 {
            slots.update(owner, HazardSlot { second: offset, ..slots[owner] })
        } else {
            slots
        },
        HazardCall::Clear(owner) => slots.update(
            owner,
            HazardSlot { first: 0, second: 0, ..slots[owner] },
        ),
        HazardCall::Release(owner) => slots.update(owner, unowned()),
    }
}

/// The slots of a new registry after a list of calls.
pub open spec fn after_calls(workers: nat, calls: Seq<HazardCall>) -> Seq<HazardSlot>
    decreases calls.len(),
{
    if calls.len() == 0 {
        Seq::new(workers, |i: int| unowned())
    } else {
        called(after_calls(workers, calls.drop_last()), calls.last())
    }
}

/// The slot whose guard makes a call, if it is made through a guard.
pub open spec fn caller(call: HazardCall) -> Option<int> {
    match call {
        HazardCall::Acquire => None,
        HazardCall::Protect(owner, _, _) => Some(owner),
        HazardCall::Clear(owner) => Some(owner),
        HazardCall::Release(owner) => Some(owner),
    }
}

/// Whether every guard that makes a call is live at that time.
pub open spec fn through_live_guards(workers: nat, calls: Seq<HazardCall>) -> bool
    decreases calls.len(),
{
    calls.len() > 0 ==> {
        let before = after_calls(workers, calls.drop_last());
        &&& through_live_guards(workers, calls.drop_last())
        &&& caller(calls.last()) matches Some(owner) ==> 0 <= owner < workers
            && before[owner].owned
    }
}

/// The offset that a hazard of a slot was last given since the slot was claimed and
/// last cleared, or zero.
pub open spec fn last_given(calls: Seq<HazardCall>, slot: int, hazard: int) -> u64
    decreases calls.len(),
{
    if calls.len() == 0 {
        0
    } else {
        let before = last_given(calls.drop_last(), slot, hazard);
        match calls.last() {
            HazardCall::Protect(owner, index, offset) => if owner == slot && index == hazard {
                offset
            } else {
                before
            },
            HazardCall::Clear(owner) => if owner == slot {
                0
            } else {
                before
            },
            HazardCall::Release(owner) => if owner == slot {
                0
            } else {
                before
            },
            HazardCall::Acquire => before,
        }
    }
}

/// Each hazard holds what it was last given, and a slot without a guard holds nothing.
proof fn lemma_after_calls(workers: nat, calls: Seq<HazardCall>)
    requires
        through_live_guards(workers, calls),
    ensures
        after_calls(workers, calls).len() == workers,
        forall|i: int|
            #![trigger after_calls(workers, calls)[i]]
            0 <= i < workers ==> {
                let slot = after_calls(workers, calls)[i];
                &&& slot.first == last_given(calls, i, 0)
                &&& slot.second == last_given(calls, i, 1)
                &&& !slot.owned ==> slot == unowned()
            },
    decreases calls.len(),
{
    if calls.len() > 0 {
        let rest = calls.drop_last();
        lemma_after_calls(workers, rest);
        let before = after_calls(workers, rest);
        assert forall|i: int|
            #![trigger after_calls(workers, calls)[i]]
            0 <= i < workers implies {
            let slot = after_calls(workers, calls)[i];
            &&& slot.first == last_given(calls, i, 0)
            &&& slot.second == last_given(calls, i, 1)
            &&& !slot.owned ==> slot == unowned()
        } by {
            assert(before[i].first == last_given(rest, i, 0));
        }
    }
}

/// After any history of calls an offset is protected exactly where, for some live
/// guard and one of its two hazards, it is what that hazard was last given since the
/// slot was claimed and last cleared.
pub proof fn law_hazards_after_any_history(
    workers: nat,
    calls: Seq<HazardCall>,
    registry: HazardRegistry,
    offset: u64,
)
    requires
        through_live_guards(workers, calls),
        registry.slots@ == after_calls(workers, calls),
        offset != 0,
    ensures
        registry.protects(offset) <==> exists|slot: int, hazard: int|
            {
                &&& 0 <= slot < workers
                &&& 0 <= hazard < 2
                &&& registry.slots@[slot].owned
                &&& #[trigger] last_given(calls, slot, hazard) == offset
            },
{
    lemma_after_calls(workers, calls);
    let slots = registry.slots@;
    if registry.protects(offset) {
        let i = choose|i: int|
            0 <= i < slots.len() && ((#[trigger] slots[i]).first == offset || slots[i].second
                == offset);
        if slots[i].first == offset {
            assert(last_given(calls, i, 0) == offset);
        } else {
            assert(last_given(calls, i, 1) == offset);
        }
    }
    if exists|slot: int, hazard: int|
        {
            &&& 0 <= slot < workers
            &&& 0 <= hazard < 2
            &&& registry.slots@[slot].owned
            &&& #[trigger] last_given(calls, slot, hazard) == offset
        } {
        let (slot, hazard) = choose|slot: int, hazard: int|
            {
                &&& 0 <= slot < workers
                &&& 0 <= hazard < 2
                &&& registry.slots@[slot].owned
                &&& #[trigger] last_given(calls, slot, hazard) == offset
            };
        assert(slots[slot].first == offset || slots[slot].second == offset);
    }
}

/// A reservation that is given back leaves the queue as it was before it.
pub proof fn law_cancelled_reservation_leaves_no_trace(
    before: RetireQueue,
    reserved: RetireQueue,
    after: RetireQueue,
    reservation: RetireReservation,
)
    requires
        before.well_formed(),
        reservation.index < before.slots@.len(),
        before.slots@[reservation.index as int].state is Free,
        reserved.slots@ == before.slots@.update(
            reservation.index as int,
            RetiredSlot { state: RetireState::Reserved, offset: reservation.offset },
        ),
        reservation.holds(reserved) ==> after.slots@ == reserved.slots@.update(
            reservation.index as int,
            vacant(),
        ),
    ensures
        after.slots@ == before.slots@,
{
    assert(after.slots@ =~= before.slots@);
}

/// New slots belong to nobody, protect nothing, and hold nothing that was retired.
pub proof fn law_new_slots_are_free()
    ensures
        !unowned().owned,
        unowned().first == 0 && unowned().second == 0,
        vacant().state == RetireState::Free,
        vacant().offset == 0,
{
}

/// What was retired is given back exactly where it was committed and neither hazard of any
/// slot has its offset.
pub proof fn law_reclaimed_unprotected(slot: RetiredSlot, hazards: HazardRegistry)
    ensures
        reclaimable(slot, hazards) <==> slot.state == RetireState::Published && forall|i: int|
            0 <= i < hazards.slots@.len() ==> (#[trigger] hazards.slots@[i]).first != slot.offset
                && hazards.slots@[i].second != slot.offset,
{
}

/// What is given back is counted once for every slot that held it.
pub proof fn law_reclaimed_are_counted(
    slots: Seq<RetiredSlot>,
    hazards: HazardRegistry,
    n: nat,
)
    requires
        n <= slots.len(),
    ensures
        ({
            let given = Set::new(|i: int| 0 <= i < n && reclaimable(slots[i], hazards));
            given.finite() && reclaimable_among(slots, hazards, n) == given.len()
        }),
    decreases n,
{
    let given = Set::new(|i: int| 0 <= i < n && reclaimable(slots[i], hazards));
    if n == 0 {
        assert(given =~= Set::empty());
    } else {
        let last = n - 1;
        let before = Set::new(|i: int| 0 <= i < last && reclaimable(slots[i], hazards));
        law_reclaimed_are_counted(slots, hazards, last as nat);
        if reclaimable(slots[last], hazards) {
            assert(given =~= before.insert(last));
        } else {
            assert(given =~= before);
        }
    }
}

} // verus!

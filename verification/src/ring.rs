//! A bounded ring of blocks between fetching and consuming workers.
//!
//! Heights are handed out in order, may be published and finished out of
//! order, and pass each frontier only as a contiguous run. A slot is used
//! again once the height that held it is behind the consumed frontier.

use vstd::prelude::*;

use crate::bytes::{copy_range, push_le64, read_le64};
#[allow(unused_imports)]
use crate::bytes::{le64, le64_bytes, lemma_le_fields, lemma_same_fields};
use crate::hash::xxh64;
#[allow(unused_imports)]
use crate::hash::digest;
use crate::load::LoadError;

verus! {

/// The height of an empty slot.
pub const INVALID_HEIGHT: u64 = 0xffff_ffff_ffff_ffff;

/// First word of every record.
pub const RECORD_MAGIC: u64 = 0x424c_4f43_4b52_494e;

/// Bytes of a record before its block.
pub const RECORD_HEADER_SIZE: u64 = 32;

/// Where a slot stands between two uses.
#[derive(Clone, Copy, PartialEq, Eq, Structural)]
pub enum SlotState {
    Empty,
    Writing,
    Ready,
    Reading,
    Done,
}

/// One slot of the ring.
#[derive(Clone, Copy)]
pub struct Slot {
    pub state: SlotState,
    pub height: u64,
    pub length: u64,
}

/// The right to write the block of one height.
#[derive(Clone, Copy, Debug, PartialEq, Eq, Structural)]
pub struct FetchLease {
    pub height: u64,
    pub index: usize,
}

/// The right to read the block of one height.
#[derive(Clone, Copy, Debug, PartialEq, Eq, Structural)]
pub struct ConsumeLease {
    pub height: u64,
    pub index: usize,
}

/// The answer to a worker that asks for its next height.
#[derive(Debug)]
pub enum Claim<L> {
    /// The worker holds this lease now.
    Leased(L),
    /// Another worker has to make progress first.
    Pending,
    /// Every height was handed out.
    Finished,
}

/// A record and where it goes in the ring file.
pub struct RingWrite {
    pub offset: u64,
    pub record: Vec<u8>,
}

/// The bookkeeping of a ring; the records themselves are in a file.
pub struct BlockRing {
    pub slots: Vec<Slot>,
    pub capacity: u64,
    pub slot_bytes: u64,
    pub end_height: u64,
    pub fetch_claim: u64,
    pub produced_next: u64,
    pub consume_claim: u64,
    pub consumed_next: u64,
    pub aborted: bool,
}

/// A slot that holds no height.
pub open spec fn empty_slot() -> Slot {
    Slot { state: SlotState::Empty, height: INVALID_HEIGHT, length: 0 }
}

/// What stands in the way of a new ring, if anything.
pub open spec fn ring_defect(
    start_height: u64,
    end_height: u64,
    capacity: u64,
    slot_bytes: u64,
) -> Option<LoadError> {
    if start_height >= end_height {
        Some(LoadError::InvalidInput("ring height range must be nonempty"))
    } else if capacity == 0 {
        Some(LoadError::InvalidInput("ring capacity must be nonzero"))
    } else if slot_bytes <= RECORD_HEADER_SIZE {
        Some(LoadError::InvalidInput("ring slot cannot hold its record header"))
    } else if capacity * slot_bytes > u64::MAX {
        Some(LoadError::InvalidInput("ring file length overflow"))
    } else if capacity > usize::MAX {
        Some(LoadError::InvalidInput("ring capacity does not fit memory"))
    } else {
        None
    }
}

/// The header of the record of `block` at `height`.
pub open spec fn record_header(height: u64, block: Seq<u8>) -> Seq<u8> {
    le64_bytes(RECORD_MAGIC) + le64_bytes(height) + le64_bytes(block.len() as u64) + le64_bytes(
        digest(block, height),
    )
}

/// What stands in the way of writing a block under a lease, if anything.
pub open spec fn write_defect(ring: BlockRing, lease: FetchLease, length: int) -> Option<
    LoadError,
> {
    if length > ring.slot_bytes - RECORD_HEADER_SIZE {
        Some(LoadError::InvalidInput("serialized block exceeds ring slot size"))
    } else if lease.index >= ring.slots@.len() {
        Some(LoadError::InvalidData("ring slot index is out of range"))
    } else if !(ring.slots@[lease.index as int].state is Writing)
        || ring.slots@[lease.index as int].height != lease.height {
        Some(LoadError::InvalidData("fetch lease does not own its ring slot"))
    } else {
        None
    }
}

/// What the record bytes of a leased slot hold: a block, or a defect.
pub open spec fn record_content(ring: BlockRing, lease: ConsumeLease, record: Seq<u8>) -> Result<
    Seq<u8>,
    LoadError,
> {
    let slot = ring.slots@[lease.index as int];
    let length = le64(record, 16);
    let block = record.subrange(RECORD_HEADER_SIZE as int, RECORD_HEADER_SIZE + length);
    if lease.index >= ring.slots@.len() {
        Err(LoadError::InvalidData("ring slot index is out of range"))
    } else if !(slot.state is Reading) || slot.height != lease.height {
        Err(LoadError::InvalidData("consume lease does not own its ring slot"))
    } else if record.len() < RECORD_HEADER_SIZE {
        Err(LoadError::Truncated("ring read reached end of file"))
    } else if le64(record, 0) != RECORD_MAGIC || le64(record, 8) != lease.height {
        Err(LoadError::InvalidData("ring record header is invalid"))
    } else if length != slot.length || length > ring.slot_bytes - RECORD_HEADER_SIZE {
        Err(LoadError::InvalidData("ring record length is invalid"))
    } else if record.len() < RECORD_HEADER_SIZE + length {
        Err(LoadError::Truncated("ring read reached end of file"))
    } else if le64(record, 24) != digest(block, lease.height) {
        Err(LoadError::InvalidData("ring record checksum does not match"))
    } else {
        Ok(block)
    }
}

impl BlockRing {
    /// The slot index of a height.
    pub open spec fn index_of(&self, height: int) -> int {
        height % self.capacity as int
    }

    /// The slot of a height.
    pub open spec fn slot_of(&self, height: int) -> Slot {
        self.slots@[self.index_of(height)]
    }

    /// Whether the block of `height` is in its slot, unread or not.
    pub open spec fn complete(&self, height: int) -> bool {
        &&& self.slot_of(height).height == height
        &&& self.slot_of(height).state is Ready || self.slot_of(height).state is Reading
            || self.slot_of(height).state is Done
    }

    /// Whether the block of `height` is consumed but still in its slot.
    pub open spec fn spent(&self, height: int) -> bool {
        self.slot_of(height).height == height && self.slot_of(height).state is Done
    }

    /// Whether a slot in this state may hold `height`.
    pub open spec fn fits(&self, height: int, state: SlotState) -> bool {
        if height < self.consume_claim {
            state is Reading || state is Done
        } else if height < self.produced_next {
            state is Ready
        } else {
            state is Writing || state is Ready
        }
    }

    /// Validity of the slots and the order of the frontiers.
    pub open spec fn consistent(&self) -> bool {
        &&& 0 < self.capacity == self.slots@.len()
        &&& self.capacity * self.slot_bytes <= u64::MAX
        &&& self.slot_bytes > RECORD_HEADER_SIZE
        &&& self.consumed_next <= self.consume_claim <= self.produced_next <= self.fetch_claim
            <= self.end_height
        &&& self.fetch_claim <= self.consumed_next + self.capacity
        &&& forall|h: int|
            self.consumed_next <= h < self.fetch_claim ==> (#[trigger] self.slot_of(h)).height == h
                && self.fits(h, self.slot_of(h).state)
        &&& forall|i: int|
            0 <= i < self.slots@.len() ==> {
                let slot = #[trigger] self.slots@[i];
                ||| slot.state is Empty && slot.height == INVALID_HEIGHT
                ||| self.consumed_next <= slot.height < self.fetch_claim && self.index_of(
                    slot.height as int,
                ) == i
            }
    }

    /// The produced frontier stands at a height that is not published.
    pub open spec fn produced_settled(&self) -> bool {
        self.produced_next < self.end_height ==> !self.complete(self.produced_next as int)
    }

    /// The consumed frontier stands at a height that is not finished.
    pub open spec fn consumed_settled(&self) -> bool {
        self.consumed_next < self.end_height ==> !self.spent(self.consumed_next as int)
    }

    /// Validity of a ring between two operations.
    pub open spec fn well_formed(&self) -> bool {
        self.consistent() && self.produced_settled() && self.consumed_settled()
    }

    /// Lays out a ring for the heights from `start_height` up to `end_height`.
    pub fn create(start_height: u64, end_height: u64, capacity: u64, slot_bytes: u64) -> (result:
        Result<BlockRing, LoadError>)
        ensures
            match result {
                Ok(ring) => {
                    &&& ring_defect(start_height, end_height, capacity, slot_bytes) is None
                    &&& ring.well_formed()
                    &&& ring.slots@ == Seq::new(capacity as nat, |i: int| empty_slot())
                    &&& ring.capacity == capacity
                    &&& ring.slot_bytes == slot_bytes
                    &&& ring.end_height == end_height
                    &&& ring.fetch_claim == start_height
                    &&& ring.produced_next == start_height
                    &&& ring.consume_claim == start_height
                    &&& ring.consumed_next == start_height
                    &&& !ring.aborted
                },
                Err(error) => ring_defect(start_height, end_height, capacity, slot_bytes) == Some(
                    error,
                ),
            },
    {
        if start_height >= end_height {
            return Err(LoadError::InvalidInput("ring height range must be nonempty"));
        }
        if capacity == 0 {
            return Err(LoadError::InvalidInput("ring capacity must be nonzero"));
        }
        if slot_bytes <= RECORD_HEADER_SIZE {
            return Err(LoadError::InvalidInput("ring slot cannot hold its record header"));
        }
        if capacity.checked_mul(slot_bytes).is_none() {
            return Err(LoadError::InvalidInput("ring file length overflow"));
        }
        if capacity > usize::MAX as u64 {
            return Err(LoadError::InvalidInput("ring capacity does not fit memory"));
        }
        let count: usize = capacity as usize;
        let mut slots: Vec<Slot> = Vec::new();
        while slots.len() < count
            invariant
                count == capacity,
                slots@.len() <= count,
                slots@ =~= Seq::new(slots@.len(), |i: int| empty_slot()),
            decreases count - slots@.len(),
        {
            slots.push(Slot { state: SlotState::Empty, height: INVALID_HEIGHT, length: 0 });
        }
        let ring = BlockRing {
            slots,
            capacity,
            slot_bytes,
            end_height,
            fetch_claim: start_height,
            produced_next: start_height,
            consume_claim: start_height,
            consumed_next: start_height,
            aborted: false,
        };
        proof {
            ring.lemma_index(start_height as int);
            assert(ring.slots@[ring.index_of(start_height as int)] == empty_slot());
        }
        Ok(ring)
    }

    /// Bytes of the ring file.
    pub fn file_length(&self) -> (length: u64)
        requires
            self.consistent(),
        ensures
            length == self.capacity * self.slot_bytes,
    {
        self.capacity * self.slot_bytes
    }

    proof fn lemma_index(&self, height: int)
        requires
            0 < self.capacity,
            0 <= height,
        ensures
            0 <= self.index_of(height) < self.capacity,
    {
        vstd::arithmetic::div_mod::lemma_mod_bound(height, self.capacity as int);
    }

    proof fn lemma_next_slot_empty(&self)
        requires
            self.consistent(),
            self.fetch_claim < self.consumed_next + self.capacity,
        ensures
            self.slot_of(self.fetch_claim as int).state is Empty,
            self.slot_of(self.fetch_claim as int).height == INVALID_HEIGHT,
    {
        let next = self.fetch_claim as int;
        self.lemma_index(next);
        let slot = self.slot_of(next);
        if self.consumed_next <= slot.height < self.fetch_claim && self.index_of(
            slot.height as int,
        ) == self.index_of(next) {
            let capacity = self.capacity as int;
            let held = slot.height as int;
            vstd::arithmetic::div_mod::lemma_fundamental_div_mod(next, capacity);
            vstd::arithmetic::div_mod::lemma_fundamental_div_mod(held, capacity);
            let turns = next / capacity - held / capacity;
            assert(next - held == capacity * turns) by (nonlinear_arith)
                requires
                    next == capacity * (next / capacity) + next % capacity,
                    held == capacity * (held / capacity) + held % capacity,
                    next % capacity == held % capacity,
                    turns == next / capacity - held / capacity,
            ;
            assert(false) by (nonlinear_arith)
                requires
                    0 < next - held < capacity,
                    next - held == capacity * turns,
            ;
        }
    }

    /// The slot index of a height.
    fn slot_index(&self, height: u64) -> (index: usize)
        requires
            0 < self.capacity == self.slots@.len(),
        ensures
            index == self.index_of(height as int),
            index < self.slots@.len(),
    {
        let count: usize = self.slots.len();
        proof {
            self.lemma_index(height as int);
            assert(self.capacity == count);
        }
        (height % self.capacity) as usize
    }

    /// Where the record of a slot starts in the ring file.
    pub fn slot_offset(&self, index: usize) -> (result: Result<u64, LoadError>)
        ensures
            result == (if index * self.slot_bytes <= u64::MAX {
                Ok::<u64, LoadError>((index * self.slot_bytes) as u64)
            } else {
                Err(LoadError::InvalidData("ring slot offset overflow"))
            }),
    {
        match (index as u64).checked_mul(self.slot_bytes) {
            Some(offset) => Ok(offset),
            None => Err(LoadError::InvalidData("ring slot offset overflow")),
        }
    }

    /// Hands out the next height to fetch, and its slot.
    pub fn claim_fetch(&mut self) -> (result: Result<Claim<FetchLease>, LoadError>)
        requires
            old(self).well_formed(),
        ensures
            final(self).well_formed(),
            !(result matches Ok(Claim::Leased(_))) ==> *final(self) == *old(self),
            if old(self).aborted {
                result == Err::<Claim<FetchLease>, LoadError>(
                    LoadError::Interrupted("ring processing aborted"),
                )
            } else if old(self).fetch_claim == old(self).end_height {
                result == Ok::<Claim<FetchLease>, LoadError>(Claim::Finished)
            } else if old(self).consumed_next + old(self).capacity > u64::MAX {
                result == Err::<Claim<FetchLease>, LoadError>(
                    LoadError::InvalidData("producer window overflow"),
                )
            } else if old(self).fetch_claim == old(self).consumed_next + old(self).capacity {
                result == Ok::<Claim<FetchLease>, LoadError>(Claim::Pending)
            } else {
                let height = old(self).fetch_claim;
                let index = old(self).index_of(height as int);
                &&& result == Ok::<Claim<FetchLease>, LoadError>(
                    Claim::Leased(FetchLease { height, index: index as usize }),
                )
                &&& final(self).slots@ == old(self).slots@.update(
                    index,
                    Slot { state: SlotState::Writing, height, ..old(self).slots@[index] },
                )
                &&& *final(self) == (BlockRing {
                    slots: final(self).slots,
                    fetch_claim: (height + 1) as u64,
                    ..*old(self)
                })
            },
    {
        if self.aborted {
            return Err(LoadError::Interrupted("ring processing aborted"));
        }
        let height: u64 = self.fetch_claim;
        if height >= self.end_height {
            return Ok(Claim::Finished);
        }
        let limit: u64 = match self.consumed_next.checked_add(self.capacity) {
            Some(limit) => limit,
            None => {
                return Err(LoadError::InvalidData("producer window overflow"));
            },
        };
        if height >= limit {
            return Ok(Claim::Pending);
        }
        let index: usize = self.slot_index(height);
        proof {
            self.lemma_next_slot_empty();
        }
        let ghost before = *self;
        let slot = self.slots[index];
        self.slots.set(index, Slot { state: SlotState::Writing, height, ..slot });
        self.fetch_claim = height + 1;
        proof {
            assert forall|h: int| self.consumed_next <= h < self.fetch_claim implies (
            #[trigger] self.slot_of(h)).height == h && self.fits(h, self.slot_of(h).state) by {
                self.lemma_index(h);
                if h < height {
                    assert(before.slot_of(h).height == h);
                    assert(self.index_of(h) != index);
                }
            }
            assert forall|h: int| self.consumed_next <= h < self.fetch_claim && h < height implies
                #[trigger] self.slot_of(h) == before.slot_of(h) by {
                self.lemma_index(h);
                assert(before.slot_of(h).height == h);
            }
            self.lemma_index(self.produced_next as int);
            self.lemma_index(self.consumed_next as int);
            if self.produced_next < height {
                assert(self.slot_of(self.produced_next as int) == before.slot_of(
                    self.produced_next as int,
                ));
            }
            if self.consumed_next < height {
                assert(self.slot_of(self.consumed_next as int) == before.slot_of(
                    self.consumed_next as int,
                ));
            }
        }
        Ok(Claim::Leased(FetchLease { height, index }))
    }

    /// Frames a fetched block for the slot of its lease.
    pub fn write_fetch(&self, lease: FetchLease, block: &[u8]) -> (result: Result<
        RingWrite,
        LoadError,
    >)
        requires
            self.consistent(),
        ensures
            match result {
                Ok(write) => {
                    &&& write_defect(*self, lease, block@.len() as int) is None
                    &&& write.offset == lease.index * self.slot_bytes
                    &&& write.record@ == record_header(lease.height, block@) + block@
                },
                Err(error) => write_defect(*self, lease, block@.len() as int) == Some(error),
            },
    {
        if block.len() as u64 > self.slot_bytes - RECORD_HEADER_SIZE {
            return Err(LoadError::InvalidInput("serialized block exceeds ring slot size"));
        }
        if lease.index >= self.slots.len() {
            return Err(LoadError::InvalidData("ring slot index is out of range"));
        }
        let slot = self.slots[lease.index];
        if slot.state != SlotState::Writing || slot.height != lease.height {
            return Err(LoadError::InvalidData("fetch lease does not own its ring slot"));
        }
        proof {
            assert(lease.index * self.slot_bytes <= u64::MAX) by (nonlinear_arith)
                requires
                    lease.index < self.capacity,
                    self.capacity * self.slot_bytes <= u64::MAX,
            ;
        }
        let mut record: Vec<u8> = Vec::new();
        push_le64(&mut record, RECORD_MAGIC);
        push_le64(&mut record, lease.height);
        push_le64(&mut record, block.len() as u64);
        push_le64(&mut record, xxh64(block, lease.height));
        record.extend_from_slice(block);
        proof {
            assert(record@ =~= record_header(lease.height, block@) + block@);
        }
        let offset: u64 = lease.index as u64 * self.slot_bytes;
        Ok(RingWrite { offset, record })
    }

    /// Publishes the written block of a lease.
    ///
    /// The length is set first, and stays set where the slot is not one that is
    /// being written.
    pub fn publish_fetch(&mut self, lease: FetchLease, block_length: usize) -> (result: Result<
        (),
        LoadError,
    >)
        requires
            old(self).well_formed(),
        ensures
            final(self).well_formed(),
            if lease.index >= old(self).slots@.len() {
                &&& result == Err::<(), LoadError>(
                    LoadError::InvalidData("ring slot index is out of range"),
                )
                &&& *final(self) == *old(self)
            } else if old(self).slots@[lease.index as int].length != 0 {
                &&& result == Err::<(), LoadError>(
                    LoadError::InvalidData("ring slot length was already published"),
                )
                &&& *final(self) == *old(self)
            } else if !(old(self).slots@[lease.index as int].state is Writing) {
                &&& result == Err::<(), LoadError>(
                    LoadError::InvalidData("ring slot left the writing state"),
                )
                &&& final(self).slots@ == old(self).slots@.update(
                    lease.index as int,
                    Slot {
                        length: block_length as u64,
                        ..old(self).slots@[lease.index as int]
                    },
                )
                &&& *final(self) == (BlockRing { slots: final(self).slots, ..*old(self) })
            } else {
                &&& result == Ok::<(), LoadError>(())
                &&& final(self).slots@ == old(self).slots@.update(
                    lease.index as int,
                    Slot {
                        state: SlotState::Ready,
                        length: block_length as u64,
                        ..old(self).slots@[lease.index as int]
                    },
                )
                &&& *final(self) == (BlockRing {
                    slots: final(self).slots,
                    produced_next: final(self).produced_next,
                    ..*old(self)
                })
                &&& old(self).produced_next <= final(self).produced_next
                &&& forall|h: int|
                    old(self).produced_next <= h < final(self).produced_next
                        ==> #[trigger] final(self).complete(h)
            },
    {
        if lease.index >= self.slots.len() {
            return Err(LoadError::InvalidData("ring slot index is out of range"));
        }
        let ghost before = *self;
        let slot = self.slots[lease.index];
        if slot.length != 0 {
            return Err(LoadError::InvalidData("ring slot length was already published"));
        }
        let length: u64 = block_length as u64;
        if slot.state != SlotState::Writing {
            self.slots.set(lease.index, Slot { length, ..slot });
            proof {
                assert forall|h: int| 0 <= h implies (#[trigger] self.slot_of(h)).state
                    == before.slot_of(h).state && self.slot_of(h).height == before.slot_of(
                    h,
                ).height by {
                    self.lemma_index(h);
                }
            }
            return Err(LoadError::InvalidData("ring slot left the writing state"));
        }
        self.slots.set(lease.index, Slot { state: SlotState::Ready, length, ..slot });
        proof {
            assert(before.slots@[lease.index as int] == slot);
            let held = slot.height as int;
            assert(before.slot_of(held) == slot);
            assert(before.fits(held, slot.state));
            assert forall|h: int| self.consumed_next <= h < self.fetch_claim implies (
            #[trigger] self.slot_of(h)).height == h && self.fits(h, self.slot_of(h).state) by {
                self.lemma_index(h);
                assert(before.slot_of(h).height == h);
            }
            self.lemma_index(self.consumed_next as int);
            assert(before.slot_of(self.consumed_next as int).state is Done == self.slot_of(
                self.consumed_next as int,
            ).state is Done);
        }
        self.advance_produced();
        Ok(())
    }

    /// Moves the produced frontier over every height that is complete.
    fn advance_produced(&mut self)
        requires
            old(self).consistent(),
            old(self).consumed_settled(),
        ensures
            final(self).well_formed(),
            *final(self) == (BlockRing {
                produced_next: final(self).produced_next,
                ..*old(self)
            }),
            old(self).produced_next <= final(self).produced_next,
            forall|h: int|
                old(self).produced_next <= h < final(self).produced_next
                    ==> #[trigger] old(self).complete(h),
    {
        let ghost before = *self;
        while self.produced_next < self.end_height
            invariant
                before == *old(self),
                before.consistent(),
                self.consistent(),
                self.consumed_settled(),
                *self == (BlockRing { produced_next: self.produced_next, ..before }),
                before.produced_next <= self.produced_next,
                forall|h: int|
                    before.produced_next <= h < self.produced_next
                        ==> #[trigger] before.complete(h),
            ensures
                self.produced_settled(),
            decreases self.end_height - self.produced_next,
        {
            let height: u64 = self.produced_next;
            let index: usize = self.slot_index(height);
            let slot = self.slots[index];
            if slot.height != height || !(slot.state == SlotState::Ready || slot.state
                == SlotState::Reading || slot.state == SlotState::Done) {
                break;
            }
            assert(before.complete(height as int));
            assert(self.slots@[index as int] == slot);
            let ghost earlier = *self;
            self.produced_next = height + 1;
            proof {
                assert forall|h: int| self.consumed_next <= h < self.fetch_claim implies (
                #[trigger] self.slot_of(h)).height == h && self.fits(h, self.slot_of(h).state) by {
                    assert(earlier.slot_of(h).height == h);
                }
                assert forall|i: int| 0 <= i < self.slots@.len() implies ({
                    let slot = #[trigger] self.slots@[i];
                    ||| slot.state is Empty && slot.height == INVALID_HEIGHT
                    ||| self.consumed_next <= slot.height < self.fetch_claim && self.index_of(
                        slot.height as int,
                    ) == i
                }) by {
                    assert(earlier.slots@[i] == self.slots@[i]);
                }
            }
        }
        assert forall|h: int|
            old(self).produced_next <= h < self.produced_next implies #[trigger] old(
            self,
        ).complete(h) by {
            assert(before.complete(h));
        }
    }

    /// Hands out the next height to consume, once it is produced.
    pub fn claim_consume(&mut self) -> (result: Result<Claim<ConsumeLease>, LoadError>)
        requires
            old(self).well_formed(),
        ensures
            final(self).well_formed(),
            !(result matches Ok(Claim::Leased(_))) ==> *final(self) == *old(self),
            if old(self).aborted {
                result == Err::<Claim<ConsumeLease>, LoadError>(
                    LoadError::Interrupted("ring processing aborted"),
                )
            } else if old(self).consume_claim == old(self).end_height {
                result == Ok::<Claim<ConsumeLease>, LoadError>(Claim::Finished)
            } else if old(self).consume_claim == old(self).produced_next {
                result == Ok::<Claim<ConsumeLease>, LoadError>(Claim::Pending)
            } else {
                let height = old(self).consume_claim;
                let index = old(self).index_of(height as int);
                &&& result == Ok::<Claim<ConsumeLease>, LoadError>(
                    Claim::Leased(ConsumeLease { height, index: index as usize }),
                )
                &&& final(self).slots@ == old(self).slots@.update(
                    index,
                    Slot { state: SlotState::Reading, ..old(self).slots@[index] },
                )
                &&& *final(self) == (BlockRing {
                    slots: final(self).slots,
                    consume_claim: (height + 1) as u64,
                    ..*old(self)
                })
            },
    {
        if self.aborted {
            return Err(LoadError::Interrupted("ring processing aborted"));
        }
        let height: u64 = self.consume_claim;
        if height >= self.end_height {
            return Ok(Claim::Finished);
        }
        if height >= self.produced_next {
            return Ok(Claim::Pending);
        }
        let index: usize = self.slot_index(height);
        let ghost before = *self;
        let slot = self.slots[index];
        proof {
            assert(self.slot_of(height as int) == slot);
            assert(slot.height == height && slot.state is Ready);
        }
        self.slots.set(index, Slot { state: SlotState::Reading, ..slot });
        self.consume_claim = height + 1;
        proof {
            assert forall|h: int| self.consumed_next <= h < self.fetch_claim implies (
            #[trigger] self.slot_of(h)).height == h && self.fits(h, self.slot_of(h).state) by {
                self.lemma_index(h);
                assert(before.slot_of(h).height == h);
            }
            self.lemma_index(self.consumed_next as int);
            self.lemma_index(self.produced_next as int);
            assert(self.slot_of(self.produced_next as int).height == before.slot_of(
                self.produced_next as int,
            ).height);
            if self.produced_next < self.fetch_claim {
                assert(before.slot_of(self.produced_next as int).height == self.produced_next);
            }
        }
        Ok(Claim::Leased(ConsumeLease { height, index }))
    }

    /// Takes the block of a lease out of the record bytes of its slot.
    pub fn read_consume(&self, lease: ConsumeLease, record: &[u8]) -> (result: Result<
        Vec<u8>,
        LoadError,
    >)
        requires
            self.consistent(),
        ensures
            match record_content(*self, lease, record@) {
                Ok(block) => result matches Ok(bytes) && bytes@ == block,
                Err(error) => result == Err::<Vec<u8>, LoadError>(error),
            },
    {
        if lease.index >= self.slots.len() {
            return Err(LoadError::InvalidData("ring slot index is out of range"));
        }
        let slot = self.slots[lease.index];
        if slot.state != SlotState::Reading || slot.height != lease.height {
            return Err(LoadError::InvalidData("consume lease does not own its ring slot"));
        }
        if (record.len() as u64) < RECORD_HEADER_SIZE {
            return Err(LoadError::Truncated("ring read reached end of file"));
        }
        if read_le64(record, 0) != RECORD_MAGIC || read_le64(record, 8) != lease.height {
            return Err(LoadError::InvalidData("ring record header is invalid"));
        }
        let length: u64 = read_le64(record, 16);
        if length != slot.length || length > self.slot_bytes - RECORD_HEADER_SIZE {
            return Err(LoadError::InvalidData("ring record length is invalid"));
        }
        if record.len() as u64 - RECORD_HEADER_SIZE < length {
            return Err(LoadError::Truncated("ring read reached end of file"));
        }
        let block = copy_range(record, 32, length as usize);
        if read_le64(record, 24) != xxh64(block.as_slice(), lease.height) {
            return Err(LoadError::InvalidData("ring record checksum does not match"));
        }
        Ok(block)
    }

    /// Marks the block of a lease as consumed.
    pub fn finish_consume(&mut self, lease: ConsumeLease) -> (result: Result<(), LoadError>)
        requires
            old(self).well_formed(),
        ensures
            final(self).well_formed(),
            if lease.index >= old(self).slots@.len() {
                &&& result == Err::<(), LoadError>(
                    LoadError::InvalidData("ring slot index is out of range"),
                )
                &&& *final(self) == *old(self)
            } else if !(old(self).slots@[lease.index as int].state is Reading) {
                &&& result == Err::<(), LoadError>(
                    LoadError::InvalidData("ring slot left the reading state"),
                )
                &&& *final(self) == *old(self)
            } else {
                let done = old(self).slots@.update(
                    lease.index as int,
                    Slot { state: SlotState::Done, ..old(self).slots@[lease.index as int] },
                );
                &&& result == Ok::<(), LoadError>(())
                &&& *final(self) == (BlockRing {
                    slots: final(self).slots,
                    consumed_next: final(self).consumed_next,
                    ..*old(self)
                })
                &&& old(self).consumed_next <= final(self).consumed_next
                &&& final(self).slots@ == emptied(
                    done,
                    old(self).consumed_next as int,
                    final(self).consumed_next as int,
                )
                &&& forall|h: int|
                    old(self).consumed_next <= h < final(self).consumed_next
                        ==> (#[trigger] done[old(self).index_of(h)]).state is Done
                        && done[old(self).index_of(h)].height == h
            },
    {
        if lease.index >= self.slots.len() {
            return Err(LoadError::InvalidData("ring slot index is out of range"));
        }
        let ghost before = *self;
        let slot = self.slots[lease.index];
        if slot.state != SlotState::Reading {
            return Err(LoadError::InvalidData("ring slot left the reading state"));
        }
        self.slots.set(lease.index, Slot { state: SlotState::Done, ..slot });
        proof {
            assert(before.slots@[lease.index as int] == slot);
            assert(before.slot_of(slot.height as int) == slot);
            assert forall|h: int| self.consumed_next <= h < self.fetch_claim implies (
            #[trigger] self.slot_of(h)).height == h && self.fits(h, self.slot_of(h).state) by {
                self.lemma_index(h);
                assert(before.slot_of(h).height == h);
            }
            self.lemma_index(self.produced_next as int);
        }
        let ghost marked = *self;
        let ghost done = self.slots@;
        self.advance_consumed();
        proof {
            assert(done =~= before.slots@.update(
                lease.index as int,
                Slot { state: SlotState::Done, ..before.slots@[lease.index as int] },
            ));
            assert forall|h: int| before.consumed_next <= h < self.consumed_next implies (
            #[trigger] done[before.index_of(h)]).state is Done && done[before.index_of(h)].height
                == h by {
                assert(marked.slots@[marked.index_of(h)].state is Done);
            }
        }
        Ok(())
    }

    /// Moves the consumed frontier over every height that is finished, and
    /// empties the slots that it passes.
    fn advance_consumed(&mut self)
        requires
            old(self).consistent(),
            old(self).produced_settled(),
        ensures
            final(self).well_formed(),
            *final(self) == (BlockRing {
                slots: final(self).slots,
                consumed_next: final(self).consumed_next,
                ..*old(self)
            }),
            old(self).consumed_next <= final(self).consumed_next,
            final(self).slots@ == emptied(
                old(self).slots@,
                old(self).consumed_next as int,
                final(self).consumed_next as int,
            ),
            forall|h: int|
                old(self).consumed_next <= h < final(self).consumed_next ==> (#[trigger] old(
                    self,
                ).slots@[old(self).index_of(h)]).state is Done && old(self).slots@[old(
                    self,
                ).index_of(h)].height == h,
    {
        let ghost before = *self;
        proof {
            assert(emptied(
                before.slots@,
                before.consumed_next as int,
                before.consumed_next as int,
            ) =~= before.slots@);
        }
        while self.consumed_next < self.end_height
            invariant
                before == *old(self),
                before.consistent(),
                self.consistent(),
                self.produced_settled(),
                *self == (BlockRing {
                    slots: self.slots,
                    consumed_next: self.consumed_next,
                    ..before
                }),
                before.consumed_next <= self.consumed_next,
                self.slots@ == emptied(
                    before.slots@,
                    before.consumed_next as int,
                    self.consumed_next as int,
                ),
                forall|h: int|
                    before.consumed_next <= h < self.consumed_next ==> (
                    #[trigger] before.slots@[before.index_of(h)]).state is Done
                        && before.slots@[before.index_of(h)].height == h,
            ensures
                self.consumed_settled(),
            decreases self.end_height - self.consumed_next,
        {
            let height: u64 = self.consumed_next;
            let index: usize = self.slot_index(height);
            let slot = self.slots[index];
            if slot.height != height || slot.state != SlotState::Done {
                break;
            }
            let ghost earlier = *self;
            assert(earlier.slots@[index as int] == slot);
            assert(before.slots@[index as int] == slot);
            assert(earlier.slot_of(height as int) == slot);
            assert(height < self.consume_claim);
            self.slots.set(
                index,
                Slot { state: SlotState::Empty, height: INVALID_HEIGHT, length: 0 },
            );
            self.consumed_next = height + 1;
            proof {
                assert forall|h: int| self.consumed_next <= h < self.fetch_claim implies (
                #[trigger] self.slot_of(h)).height == h && self.fits(h, self.slot_of(h).state) by {
                    self.lemma_index(h);
                    assert(earlier.slot_of(h).height == h);
                }
                assert forall|i: int| 0 <= i < self.slots@.len() implies ({
                    let slot = #[trigger] self.slots@[i];
                    ||| slot.state is Empty && slot.height == INVALID_HEIGHT
                    ||| self.consumed_next <= slot.height < self.fetch_claim && self.index_of(
                        slot.height as int,
                    ) == i
                }) by {
                    assert(i != index ==> earlier.slots@[i] == self.slots@[i]);
                }
                self.lemma_index(self.produced_next as int);
                assert(self.slots@ =~= emptied(
                    before.slots@,
                    before.consumed_next as int,
                    self.consumed_next as int,
                )) by {
                    assert forall|i: int| 0 <= i < self.slots@.len() implies self.slots@[i]
                        == emptied(
                        before.slots@,
                        before.consumed_next as int,
                        self.consumed_next as int,
                    )[i] by {
                        if i != index {
                            assert(earlier.slots@[i] == self.slots@[i]);
                            let own = before.slots@[i];
                            assert(own.height != height);
                        }
                    }
                }
            }
        }
    }

    /// Makes every later claim fail.
    pub fn abort(&mut self)
        requires
            old(self).well_formed(),
        ensures
            final(self).well_formed(),
            *final(self) == (BlockRing { aborted: true, ..*old(self) }),
    {
        let ghost before = *self;
        self.aborted = true;
        proof {
            assert forall|h: int| self.consumed_next <= h < self.fetch_claim implies (
            #[trigger] self.slot_of(h)).height == h && self.fits(h, self.slot_of(h).state) by {
                assert(before.slot_of(h) == self.slot_of(h));
            }
            assert forall|i: int| 0 <= i < self.slots@.len() implies ({
                let slot = #[trigger] self.slots@[i];
                ||| slot.state is Empty && slot.height == INVALID_HEIGHT
                ||| self.consumed_next <= slot.height < self.fetch_claim && self.index_of(
                    slot.height as int,
                ) == i
            }) by {
                assert(before.slots@[i] == self.slots@[i]);
            }
        }
    }

    /// Whether the ring was aborted.
    pub fn is_aborted(&self) -> (aborted: bool)
        ensures
            aborted == self.aborted,
    {
        self.aborted
    }

    /// The first height that is not consumed.
    pub fn consumed_height(&self) -> (height: u64)
        ensures
            height == self.consumed_next,
    {
        self.consumed_next
    }
}

/// `slots` without those that hold a height from `from` up to `to`.
pub open spec fn emptied(slots: Seq<Slot>, from: int, to: int) -> Seq<Slot> {
    Seq::new(
        slots.len(),
        |i: int|
            if from <= slots[i].height < to {
                empty_slot()
            } else {
                slots[i]
            },
    )
}

/// A record that was framed for a height comes back as its block, whatever
/// bytes follow it in the slot.
pub proof fn law_record_round_trip(
    writing: BlockRing,
    reading: BlockRing,
    fetch: FetchLease,
    consume: ConsumeLease,
    block: Seq<u8>,
    rest: Seq<u8>,
)
    requires
        write_defect(writing, fetch, block.len() as int) is None,
        reading.slot_bytes == writing.slot_bytes,
        consume.height == fetch.height,
        consume.index < reading.slots@.len(),
        reading.slots@[consume.index as int] == (Slot {
            state: SlotState::Reading,
            height: fetch.height,
            length: block.len() as u64,
        }),
    ensures
        record_content(reading, consume, record_header(fetch.height, block) + block + rest) == Ok::<
            Seq<u8>,
            LoadError,
        >(block),
{
    let record = record_header(fetch.height, block) + block + rest;
    let one = le64_bytes(RECORD_MAGIC);
    let two = le64_bytes(fetch.height);
    let three = le64_bytes(block.len() as u64);
    let four = le64_bytes(digest(block, fetch.height));
    lemma_le_fields();
    lemma_same_fields(record, 0, one, 0, 8);
    lemma_same_fields(record, 8, two, 0, 8);
    lemma_same_fields(record, 16, three, 0, 8);
    lemma_same_fields(record, 24, four, 0, 8);
    assert(record.subrange(32, 32 + block.len() as int) =~= block);
}

/// The records of two slots share no byte, and both are inside the ring file.
pub proof fn law_records_apart(ring: BlockRing, one: int, two: int, length: int)
    requires
        ring.consistent(),
        0 <= one < two < ring.slots@.len(),
        0 <= length <= ring.slot_bytes - RECORD_HEADER_SIZE,
    ensures
        one * ring.slot_bytes + RECORD_HEADER_SIZE + length <= two * ring.slot_bytes,
        two * ring.slot_bytes + RECORD_HEADER_SIZE + length <= ring.capacity * ring.slot_bytes,
{
    assert(one * ring.slot_bytes + ring.slot_bytes <= two * ring.slot_bytes) by (nonlinear_arith)
        requires
            one + 1 <= two,
    ;
    assert(two * ring.slot_bytes + ring.slot_bytes <= ring.capacity * ring.slot_bytes)
        by (nonlinear_arith)
        requires
            two + 1 <= ring.capacity,
    ;
}

/// Of the heights that are handed out and not consumed there are never more
/// than slots, and no two are in one slot.
pub proof fn law_window_fits(ring: BlockRing, one: int, two: int)
    requires
        ring.well_formed(),
        ring.consumed_next <= one < two < ring.fetch_claim,
    ensures
        ring.fetch_claim - ring.consumed_next <= ring.slots@.len(),
        ring.index_of(one) != ring.index_of(two),
{
    assert(ring.slot_of(one).height == one);
    assert(ring.slot_of(two).height == two);
}

/// A ring is made exactly where there are heights and slots, a slot has room for more than
/// the 32 bytes in front of a block, and the file can be as long as the slots together.
pub proof fn law_ring_is_made(start_height: u64, end_height: u64, capacity: u64, slot_bytes: u64)
    ensures
        ring_defect(start_height, end_height, capacity, slot_bytes) is None <==> {
            &&& start_height < end_height
            &&& 0 < capacity <= usize::MAX
            &&& slot_bytes > 32
            &&& capacity * slot_bytes <= 0xffff_ffff_ffff_ffff
        },
{
}

/// A block is written exactly where it fits the slot behind its 32 bytes, and the lease is
/// that of the slot.
pub proof fn law_block_is_written(ring: BlockRing, lease: FetchLease, length: int)
    requires
        ring.slot_bytes > 32,
    ensures
        write_defect(ring, lease, length) is None <==> {
            &&& 32 + length <= ring.slot_bytes
            &&& lease.index < ring.slots@.len()
            &&& ring.slots@[lease.index as int].state == SlotState::Writing
            &&& ring.slots@[lease.index as int].height == lease.height
        },
{
}

/// A record starts with four words: what it is, the height, the length of the block, and
/// the digest of the block under the height.
pub proof fn law_record_layout(height: u64, block: Seq<u8>)
    requires
        block.len() <= u64::MAX,
    ensures
        ({
            let record = record_header(height, block) + block;
            &&& record.len() == 32 + block.len()
            &&& le64(record, 0) == 0x424c_4f43_4b52_494e
            &&& le64(record, 8) == height
            &&& le64(record, 16) == block.len()
            &&& le64(record, 24) == digest(block, height)
            &&& record.skip(32) == block
        }),
{
    let record = record_header(height, block) + block;
    lemma_le_fields();
    lemma_same_fields(record, 0, le64_bytes(RECORD_MAGIC), 0, 8);
    lemma_same_fields(record, 8, le64_bytes(height), 0, 8);
    lemma_same_fields(record, 16, le64_bytes(block.len() as u64), 0, 8);
    lemma_same_fields(record, 24, le64_bytes(digest(block, height)), 0, 8);
    assert(record.skip(32) =~= block);
}

/// A block is read exactly where the lease is that of its slot, and the record says what
/// it is, has the height and the length of the slot, and has the digest of the block.
pub proof fn law_record_is_read(
    ring: BlockRing,
    lease: ConsumeLease,
    record: Seq<u8>,
    block: Seq<u8>,
)
    requires
        ring.slot_bytes > 32,
    ensures
        record_content(ring, lease, record) == Ok::<Seq<u8>, LoadError>(block) <==> {
            &&& lease.index < ring.slots@.len()
            &&& ring.slots@[lease.index as int].state == SlotState::Reading
            &&& ring.slots@[lease.index as int].height == lease.height
            &&& ring.slots@[lease.index as int].length == block.len()
            &&& 32 + block.len() <= ring.slot_bytes
            &&& 32 + block.len() <= record.len()
            &&& record.subrange(32, 32 + block.len() as int) == block
            &&& le64(record, 0) == 0x424c_4f43_4b52_494e
            &&& le64(record, 8) == lease.height
            &&& le64(record, 16) == block.len()
            &&& le64(record, 24) == digest(block, lease.height)
        },
{
}

/// The height of a slot leaves the slot's index when it is divided by the slots.
pub proof fn law_slot_of_height(ring: BlockRing, height: u64)
    requires
        ring.consistent(),
    ensures
        0 <= ring.index_of(height as int) < ring.capacity,
        exists|turns: int|
            height == #[trigger] (turns * ring.capacity) + ring.index_of(height as int),
{
    let capacity = ring.capacity as int;
    vstd::arithmetic::div_mod::lemma_fundamental_div_mod(height as int, capacity);
    vstd::arithmetic::div_mod::lemma_mod_bound(height as int, capacity);
    let turns = height as int / capacity;
    vstd::arithmetic::mul::lemma_mul_is_commutative(turns, capacity);
    assert(height == turns * ring.capacity + ring.index_of(height as int));
}

/// The slots of the heights that are behind the frontier are as new; the others stay.
pub proof fn law_slots_are_emptied(slots: Seq<Slot>, from: int, to: int, index: int)
    requires
        0 <= index < slots.len(),
    ensures
        emptied(slots, from, to).len() == slots.len(),
        ({
            let (before, after) = (slots[index], emptied(slots, from, to)[index]);
            if from <= before.height < to {
                &&& after.state == SlotState::Empty
                &&& after.height == 0xffff_ffff_ffff_ffff
                &&& after.length == 0
            } else {
                after == before
            }
        }),
{
}

} // verus!

//! Page allocation within growable file images.
//!
//! The count file stores one 16-bit live-allocation count per data page. Zero
//! pages are reusable, the largest count marks the open page, and sealed pages
//! carry their exact live count. New pages come from the longest zero run whose
//! predecessor is not open, and the pages behind a filled one are used up in
//! order as long as they are free.

pub mod choice;
pub mod room;

use vstd::prelude::*;

#[allow(unused_imports)]
use crate::accounting::{
    accounts, counted, lemma_claimed, lemma_continued, lemma_entries, lemma_free_page_found,
    lemma_page_of, lemma_readied, lemma_taken, on_page, with_batch,
};
use crate::bytes::{read_le16, read_le64};
#[allow(unused_imports)]
use crate::bytes::{
    le16, le16_bytes, le64, le64_bytes, lemma_le_fields, lemma_patched_fields, lemma_same_fields,
    lemma_zero_fields, patched,
};
use crate::error::Error;
use crate::layout::{align_up, is_power_of_two, DATA_START, FORMAT_PAGE_SIZE};
#[allow(unused_imports)]
use crate::layout::{lemma_round_up, power_of_two, round_up};
#[allow(unused_imports)]
use crate::mapped_file::{
    create_defect, open_growable_defect, range_defect, word_defect, zero_extended, LENGTH_LIMIT,
};
use crate::mapped_file::MappedFile;
use crate::pages::{OpenPage, CLAIMED, MAX_LIVE};
#[allow(unused_imports)]
use crate::pages::{
    entries_for, free_page, lemma_claimed_step, lemma_free_page, lemma_free_page_is_free,
    longest_within, page_layout, with_zero_counts, zero_run, Pages,
};

verus! {

/// Offset of the high-water mark in the count file.
pub const HIGH_WATER_OFFSET: u64 = 0;

/// Offset of the first page count in the count file.
pub const COUNTS_START: u64 = FORMAT_PAGE_SIZE;

/// High-water marks from here up belong to a growth that never finished.
pub const GROWING_BIT: u64 = 0x8000_0000_0000_0000;

/// One range of a data file that was handed out.
#[derive(Clone, Copy, Debug, PartialEq, Eq, Structural)]
pub struct Allocation {
    /// Offset in the data file.
    pub offset: u64,
    /// Length in bytes.
    pub length: u32,
    /// Page that the range lies in.
    pub block: u64,
}

/// Allocations of one length at equal distances on one page.
#[derive(Clone, Copy, Debug, PartialEq, Eq, Structural)]
pub struct AllocationBatch {
    /// Offset of the first allocation.
    pub offset: u64,
    /// Length of each allocation.
    pub length: u32,
    /// Distance between the starts of neighbours.
    pub stride: u32,
    /// Number of allocations.
    pub count: u32,
    /// Page that all of them lie in.
    pub block: u64,
}

impl AllocationBatch {
    /// Every offset of the batch is representable.
    pub open spec fn wf(&self) -> bool {
        self.offset + self.count * self.stride <= u64::MAX
    }

    /// The allocation at `index`.
    pub open spec fn spec_nth(&self, index: int) -> Allocation {
        Allocation {
            offset: (self.offset + index * self.stride) as u64,
            length: self.length,
            block: self.block,
        }
    }

    /// Number of allocations.
    pub fn len(&self) -> (count: usize)
        ensures
            count == self.count,
    {
        self.count as usize
    }

    /// The allocation at `index`.
    pub fn nth(&self, index: u32) -> (allocation: Allocation)
        requires
            self.wf(),
            index < self.count,
        ensures
            allocation == self.spec_nth(index as int),
            self.offset + index * self.stride <= u64::MAX,
    {
        proof {
            vstd::arithmetic::mul::lemma_mul_inequality(
                index as int,
                self.count as int,
                self.stride as int,
            );
        }
        Allocation {
            offset: self.offset + index as u64 * self.stride as u64,
            length: self.length,
            block: self.block,
        }
    }

    /// All allocations in order of their offsets.
    pub fn allocations(&self) -> (allocations: Vec<Allocation>)
        requires
            self.wf(),
        ensures
            allocations@ == Seq::new(self.count as nat, |i: int| self.spec_nth(i)),
    {
        let mut allocations: Vec<Allocation> = Vec::new();
        let mut index: u32 = 0;
        while index < self.count
            invariant
                self.wf(),
                index <= self.count,
                allocations@ == Seq::new(index as nat, |i: int| self.spec_nth(i)),
            decreases self.count - index,
        {
            allocations.push(self.nth(index));
            index = index + 1;
            assert(allocations@ =~= Seq::new(index as nat, |i: int| self.spec_nth(i)));
        }
        allocations
    }
}

/// Data and count file of one allocator.
pub struct AllocatorFiles {
    /// The data file.
    pub data: Vec<u8>,
    /// The count file.
    pub counts: Vec<u8>,
}

impl AllocatorFiles {
    /// Data file and page counts, where no page is open.
    pub open spec fn files(&self, capacity: int, block_size: int) -> Files {
        Files {
            data: self.data@,
            pages: Pages {
                block_size,
                block_count: capacity / block_size,
                counts: count_entries(self.counts@),
                high_water: le64(self.counts@, HIGH_WATER_OFFSET as int) as int,
                open: None,
            },
        }
    }

    /// What stands in the way of opening the files, if anything.
    pub open spec fn open_defect(&self, capacity: int, block_size: int) -> Option<Error> {
        allocator_open_defect(self.data@, self.counts@, capacity, block_size)
    }
}

/// Allocates page ranges of a data file and counts what is live.
pub struct BlockAllocator {
    data: MappedFile,
    counts: MappedFile,
    capacity: u64,
    block_size: u64,
    block_count: u64,
    open_page: Option<OpenPage>,
}

/// Data file and page counts of one allocator.
#[verifier::ext_equal]
pub struct Files {
    /// The bytes of the data file.
    pub data: Seq<u8>,
    /// The page counts.
    pub pages: Pages,
}

impl Files {
    /// Bytes of all pages that the allocator may hold.
    pub open spec fn capacity(self) -> int {
        self.pages.block_count * self.pages.block_size
    }

    /// The data file is long enough for its pages, and no longer than it may be.
    pub open spec fn wf(self) -> bool {
        &&& self.pages.wf()
        &&& data_length(self.pages.high_water, self.pages.block_size) <= self.data.len()
            <= data_length(self.pages.block_count, self.pages.block_size) <= usize::MAX
        &&& data_length(self.pages.block_count, self.pages.block_size) < LENGTH_LIMIT
    }
}

/// The page counts of a count file.
pub open spec fn count_entries(file: Seq<u8>) -> Seq<u16> {
    Seq::new(
        ((file.len() - COUNTS_START) / 2) as nat,
        |i: int| le16(file, COUNTS_START + 2 * i),
    )
}

/// The rule that an allocator's capacity and page size break, if any.
pub open spec fn layout_defect(capacity: int, block_size: int) -> Option<Error> {
    if capacity == 0 || block_size < FORMAT_PAGE_SIZE || !power_of_two(block_size) {
        Some(Error::InvalidConfig("invalid page allocator layout"))
    } else if capacity % block_size != 0 || block_size > u32::MAX {
        Some(Error::InvalidConfig("allocator capacity or page size is not representable"))
    } else if capacity / block_size > u32::MAX {
        Some(Error::InvalidConfig("allocator page count is not representable"))
    } else {
        None
    }
}

/// Length of a data file for `blocks` pages.
pub open spec fn data_length(blocks: int, block_size: int) -> int {
    blocks * block_size + DATA_START
}

/// Length of a count file for `blocks` pages.
pub open spec fn count_length(blocks: int) -> int {
    round_up(2 * blocks + COUNTS_START, FORMAT_PAGE_SIZE as int)
}

/// What stands in the way of a new allocator, if anything.
pub open spec fn allocator_create_defect(capacity: int, block_size: int) -> Option<Error> {
    if layout_defect(capacity, block_size) is Some {
        layout_defect(capacity, block_size)
    } else if capacity + DATA_START > u64::MAX {
        Some(Error::InvalidConfig("data file size overflow"))
    } else if create_defect(capacity + DATA_START, DATA_START as int) is Some {
        create_defect(capacity + DATA_START, DATA_START as int)
    } else {
        create_defect(count_length(capacity / block_size), COUNTS_START as int)
    }
}

/// What stands in the way of opening the files of an allocator, if anything.
pub open spec fn allocator_open_defect(
    data: Seq<u8>,
    counts: Seq<u8>,
    capacity: int,
    block_size: int,
) -> Option<Error> {
    let high_water = le64(counts, HIGH_WATER_OFFSET as int);
    if layout_defect(capacity, block_size) is Some {
        layout_defect(capacity, block_size)
    } else if capacity + DATA_START > u64::MAX {
        Some(Error::InvalidConfig("data file size overflow"))
    } else if open_growable_defect(data.len() as int, capacity + DATA_START) is Some {
        open_growable_defect(data.len() as int, capacity + DATA_START)
    } else if open_growable_defect(
        counts.len() as int,
        count_length(capacity / block_size),
    ) is Some {
        open_growable_defect(counts.len() as int, count_length(capacity / block_size))
    } else if high_water >= GROWING_BIT {
        Some(Error::Corrupt("allocator was closed while growing"))
    } else if high_water > capacity / block_size {
        Some(Error::Corrupt("allocator high-water mark is out of range"))
    } else if counts.len() < count_length(high_water as int) {
        Some(Error::Corrupt("page-count file is shorter than its high-water mark"))
    } else if data.len() < data_length(high_water as int, block_size) {
        Some(Error::Corrupt("data file is shorter than its high-water mark"))
    } else if count_entries(counts).take(high_water as int).contains(CLAIMED) {
        Some(Error::Corrupt("allocator was closed with an unfinished page"))
    } else {
        None
    }
}

/// What is wrong with a range of a data file of the given capacity, if anything.
pub open spec fn data_defect(capacity: int, offset: int, length: int) -> Option<Error> {
    if offset < DATA_START {
        Some(Error::Corrupt("data offset points into the file header"))
    } else if offset - DATA_START + length > u64::MAX {
        Some(Error::Corrupt("data range overflow"))
    } else if offset - DATA_START + length > capacity {
        Some(Error::Corrupt("data range is out of bounds"))
    } else {
        None
    }
}

/// `data` extended with zeros where it is shorter than `length`.
pub open spec fn at_least(data: Seq<u8>, length: int) -> Seq<u8> {
    if data.len() >= length {
        data
    } else {
        zero_extended(data, length)
    }
}

/// Bit `lane` of the result tells whether the two-byte lane `lane` of 16 is zero.
pub fn zero_mask_16(bytes: &[u8]) -> (mask: u32)
    requires
        bytes.len() == 32,
    ensures
        mask < 0x1_0000,
        forall|lane: u32|
            lane < 16 ==> (#[trigger] (mask & (1u32 << lane)) != 0) == (le16(
                bytes@,
                2 * lane as int,
            ) == 0),
{
    let mut mask: u32 = 0;
    let mut lane: u32 = 0;
    assert forall|l: u32| l < 16 implies #[trigger] (0u32 & (1u32 << l)) == 0 by {
        assert(0u32 & (1u32 << l) == 0) by (bit_vector);
    }
    while lane < 16
        invariant
            lane <= 16,
            bytes.len() == 32,
            mask < 0x1_0000,
            forall|l: u32|
                l < 16 ==> (#[trigger] (mask & (1u32 << l)) != 0) == (l < lane && le16(
                    bytes@,
                    2 * l as int,
                ) == 0),
        decreases 16 - lane,
    {
        if read_le16(bytes, 2 * lane as usize) == 0 {
            let ghost before = mask;
            mask = mask | (1u32 << lane);
            assert(before | (1u32 << lane) < 0x1_0000) by (bit_vector)
                requires
                    before < 0x1_0000,
                    lane < 16,
            ;
            assert forall|l: u32| l < 16 implies (#[trigger] (mask & (1u32 << l)) != 0) == (l
                < lane + 1 && le16(bytes@, 2 * l as int) == 0) by {
                assert(((before | (1u32 << lane)) & (1u32 << l) != 0) == (before & (1u32 << l) != 0
                    || l == lane)) by (bit_vector)
                    requires
                        l < 16,
                        lane < 16,
                ;
            }
        }
        lane = lane + 1;
    }
    mask
}

/// Progress of a scan for the longest zero run.
struct RunScan {
    best_start: usize,
    best_length: usize,
    run_start: usize,
    run_length: usize,
    run_claimable: bool,
}

impl RunScan {
    /// The scan has seen the first `end` counts.
    spec fn scanned(&self, counts: Seq<u16>, end: int) -> bool {
        &&& 0 <= end <= counts.len()
        &&& if self.run_length == 0 {
            end == 0 || counts[end - 1] != 0
        } else {
            &&& self.run_start + self.run_length == end
            &&& self.run_start == 0 || counts[self.run_start - 1] != 0
            &&& forall|i: int| self.run_start <= i < end ==> #[trigger] counts[i] == 0
            &&& self.run_claimable == (self.run_start == 0 || counts[self.run_start - 1]
                != CLAIMED)
        }
        &&& if self.best_length == 0 {
            forall|s: int, n: int| #[trigger] zero_run(counts, s, n) ==> s + n > end
        } else {
            longest_within(counts, end, self.best_start as int, self.best_length as int)
        }
    }

    /// Takes up the count at `index`, which is zero or not.
    fn step(&mut self, snapshot: &[u8], index: usize, zero: bool, counts: Ghost<Seq<u16>>)
        requires
            counts@ == Seq::new((snapshot.len() / 2) as nat, |i: int| le16(snapshot@, 2 * i)),
            index < counts@.len(),
            zero == (counts@[index as int] == 0),
            old(self).scanned(counts@, index as int),
        ensures
            final(self).scanned(counts@, index + 1),
    {
        let ghost before = *self;
        let ghost counts = counts@;
        if zero {
            if self.run_length == 0 {
                self.run_start = index;
                self.run_claimable = index == 0 || read_le16(snapshot, 2 * (index - 1)) != CLAIMED;
            }
            self.run_length = self.run_length + 1;
            if self.run_claimable && self.run_length > self.best_length {
                self.best_start = self.run_start;
                self.best_length = self.run_length;
            }
        } else {
            self.run_length = 0;
        }
        proof {
            let end = index as int;
            assert forall|s: int, n: int| #[trigger] zero_run(counts, s, n) && s + n == end
                + 1 implies zero && s == self.run_start && n == self.run_length
                && self.run_claimable by {
                assert(counts[end] == 0);
                if s < self.run_start {
                    assert(counts[self.run_start - 1] == 0);
                }
            }
            if zero && self.run_claimable {
                assert(zero_run(counts, self.run_start as int, self.run_length as int));
            }
            if before.best_length > 0 {
                assert(zero_run(counts, before.best_start as int, before.best_length as int));
            }
            if self.best_length > 0 {
                assert forall|s: int, n: int|
                    #[trigger] zero_run(counts, s, n) && s + n <= end + 1 implies n
                    < self.best_length || (n == self.best_length && self.best_start <= s) by {
                    if s + n <= end && before.best_length == 0 {
                        assert(false);
                    }
                }
            } else {
                assert forall|s: int, n: int| #[trigger] zero_run(counts, s, n) implies s + n
                    > end + 1 by {}
            }
        }
    }
}

/// First page of the first of the longest zero runs in a snapshot of page counts
/// whose predecessor is not open.
pub fn longest_zero_run(snapshot: &[u8]) -> (page: Option<u64>)
    ensures
        match page {
            Some(block) => free_page(
                Seq::new((snapshot@.len() / 2) as nat, |i: int| le16(snapshot@, 2 * i)),
            ) == Some(block as int),
            None => free_page(
                Seq::new((snapshot@.len() / 2) as nat, |i: int| le16(snapshot@, 2 * i)),
            ) is None,
        },
{
    let ghost counts = Seq::new((snapshot@.len() / 2) as nat, |i: int| le16(snapshot@, 2 * i));
    let entries: usize = snapshot.len() / 2;
    let mut scan = RunScan {
        best_start: 0,
        best_length: 0,
        run_start: 0,
        run_length: 0,
        run_claimable: true,
    };
    let mut index: usize = 0;
    while entries - index >= 16
        invariant
            counts == Seq::new((snapshot@.len() / 2) as nat, |i: int| le16(snapshot@, 2 * i)),
            entries == snapshot.len() / 2,
            index <= entries,
            scan.scanned(counts, index as int),
        decreases entries - index,
    {
        let lanes = vstd::slice::slice_subrange(snapshot, 2 * index, 2 * index + 32);
        let zeroes: u32 = zero_mask_16(lanes);
        let mut lane: u32 = 0;
        while lane < 16
            invariant
                counts == Seq::new((snapshot@.len() / 2) as nat, |i: int| le16(snapshot@, 2 * i)),
                entries == snapshot.len() / 2,
                index + 16 <= entries,
                lane <= 16,
                scan.scanned(counts, index + lane),
                lanes@ == snapshot@.subrange(2 * index as int, 2 * index + 32),
                forall|l: u32|
                    l < 16 ==> (#[trigger] (zeroes & (1u32 << l)) != 0) == (le16(
                        lanes@,
                        2 * l as int,
                    ) == 0),
            decreases 16 - lane,
        {
            proof {
                lemma_same_fields(lanes@, 2 * lane as int, snapshot@, 2 * (index + lane), 2);
            }
            scan.step(
                snapshot,
                index + lane as usize,
                zeroes & (1u32 << lane) != 0,
                Ghost(counts),
            );
            lane = lane + 1;
        }
        index = index + 16;
    }
    while index < entries
        invariant
            counts == Seq::new((snapshot@.len() / 2) as nat, |i: int| le16(snapshot@, 2 * i)),
            entries == snapshot.len() / 2,
            index <= entries,
            scan.scanned(counts, index as int),
        decreases entries - index,
    {
        scan.step(snapshot, index, read_le16(snapshot, 2 * index) == 0, Ghost(counts));
        index = index + 1;
    }
    if scan.best_length == 0 {
        proof {
            assert forall|s: int, n: int| !longest_within(counts, counts.len() as int, s, n) by {
                if longest_within(counts, counts.len() as int, s, n) {
                    assert(zero_run(counts, s, n));
                }
            }
        }
        None
    } else {
        proof {
            lemma_free_page(counts, scan.best_start as int, scan.best_length as int);
        }
        Some(scan.best_start as u64)
    }
}

/// Checks the capacity and page size of an allocator.
fn validate_layout(capacity: u64, block_size: u64) -> (result: Result<(), Error>)
    ensures
        result == (match layout_defect(capacity as int, block_size as int) {
            Some(error) => Err::<(), Error>(error),
            None => Ok(()),
        }),
{
    if capacity == 0 || block_size < FORMAT_PAGE_SIZE || !is_power_of_two(block_size) {
        return Err(Error::InvalidConfig("invalid page allocator layout"));
    }
    if capacity % block_size != 0 || block_size > u32::MAX as u64 {
        return Err(Error::InvalidConfig("allocator capacity or page size is not representable"));
    }
    if capacity / block_size > u32::MAX as u64 {
        return Err(Error::InvalidConfig("allocator page count is not representable"));
    }
    Ok(())
}

/// Length of a count file for `blocks` pages.
pub fn count_file_length(blocks: u64) -> (result: Result<u64, Error>)
    ensures
        result == (if 2 * blocks + COUNTS_START + FORMAT_PAGE_SIZE - 1 > u64::MAX {
            Err::<u64, Error>(Error::InvalidConfig("page-count file size overflow"))
        } else {
            Ok(count_length(blocks as int) as u64)
        }),
        result is Ok ==> count_length(blocks as int) <= u64::MAX,
{
    proof {
        assert(power_of_two(FORMAT_PAGE_SIZE as int)) by {
            reveal_with_fuel(power_of_two, 17);
        }
    }
    match blocks.checked_mul(2) {
        None => Err(Error::InvalidConfig("page-count file size overflow")),
        Some(bytes) => match bytes.checked_add(COUNTS_START) {
            None => Err(Error::InvalidConfig("page-count file size overflow")),
            Some(end) => match align_up(end, FORMAT_PAGE_SIZE) {
                None => Err(Error::InvalidConfig("page-count file size overflow")),
                Some(length) => Ok(length),
            },
        },
    }
}

/// Length of a data file for `blocks` pages of `block_size` bytes.
fn data_file_length(blocks: u64, block_size: u64) -> (result: Result<u64, Error>)
    ensures
        result == (if data_length(blocks as int, block_size as int) > u64::MAX {
            Err::<u64, Error>(Error::InvalidConfig("data file size overflow"))
        } else {
            Ok(data_length(blocks as int, block_size as int) as u64)
        }),
{
    match blocks.checked_mul(block_size) {
        None => Err(Error::InvalidConfig("data file size overflow")),
        Some(bytes) => match bytes.checked_add(DATA_START) {
            None => Err(Error::InvalidConfig("data file size overflow")),
            Some(length) => Ok(length),
        },
    }
}

/// The largest data and count file of an allocator, and its number of pages.
pub fn file_lengths(capacity: u64, block_size: u64) -> (result: Result<(u64, u64, u64), Error>)
    requires
        0 < block_size,
    ensures
        ({
            let blocks = capacity as int / block_size as int;
            result == (if data_length(blocks, block_size as int) > u64::MAX {
                Err::<(u64, u64, u64), Error>(Error::InvalidConfig("data file size overflow"))
            } else if 2 * blocks + COUNTS_START + FORMAT_PAGE_SIZE - 1 > u64::MAX {
                Err(Error::InvalidConfig("page-count file size overflow"))
            } else {
                Ok(
                    (
                        data_length(blocks, block_size as int) as u64,
                        count_length(blocks) as u64,
                        blocks as u64,
                    ),
                )
            })
        }),
{
    let block_count: u64 = capacity / block_size;
    let data: u64 = data_file_length(block_count, block_size)?;
    let counts: u64 = count_file_length(block_count)?;
    Ok((data, counts, block_count))
}

/// Checks that an allocator of `capacity` bytes can be created.
pub fn validate_capacity(capacity: u64, block_size: u64) -> (result: Result<(), Error>)
    ensures
        result == (match allocator_create_defect(capacity as int, block_size as int) {
            Some(error) => Err::<(), Error>(error),
            None => Ok(()),
        }),
{
    validate_layout(capacity, block_size)?;
    proof {
        vstd::arithmetic::div_mod::lemma_fundamental_div_mod(capacity as int, block_size as int);
        vstd::arithmetic::mul::lemma_mul_is_commutative(
            capacity as int / block_size as int,
            block_size as int,
        );
    }
    let (data_length, count_bytes, _) = file_lengths(capacity, block_size)?;
    crate::mapped_file::validate_new_mapping(data_length, DATA_START)?;
    crate::mapped_file::validate_new_mapping(count_bytes, COUNTS_START)
}

/// The high-water mark that a count file starts with.
pub fn read_high_water(counts: &[u8]) -> (result: Result<u64, Error>)
    requires
        counts.len() >= 8,
    ensures
        result == (if le64(counts@, HIGH_WATER_OFFSET as int) >= GROWING_BIT {
            Err::<u64, Error>(Error::Corrupt("allocator was closed while growing"))
        } else {
            Ok(le64(counts@, HIGH_WATER_OFFSET as int))
        }),
{
    let high_water: u64 = read_le64(counts, 0);
    if high_water >= GROWING_BIT {
        return Err(Error::Corrupt("allocator was closed while growing"));
    }
    Ok(high_water)
}

/// Storing one page count changes that count alone.
proof fn lemma_store_count(file: Seq<u8>, block: int, count: u16)
    requires
        0 <= block < count_entries(file).len(),
        file.len() >= COUNTS_START,
    ensures
        ({
            let after = patched(file, COUNTS_START + 2 * block, le16_bytes(count));
            &&& count_entries(after) == count_entries(file).update(block, count)
            &&& le64(after, HIGH_WATER_OFFSET as int) == le64(file, HIGH_WATER_OFFSET as int)
        }),
{
    let at = COUNTS_START + 2 * block;
    let after = patched(file, at, le16_bytes(count));
    lemma_le_fields();
    lemma_patched_fields(file, at, le16_bytes(count), HIGH_WATER_OFFSET as int);
    assert forall|i: int| 0 <= i < count_entries(file).len() implies #[trigger] count_entries(
        after,
    )[i] == count_entries(file).update(block, count)[i] by {
        lemma_patched_fields(file, at, le16_bytes(count), COUNTS_START + 2 * i);
    }
    assert(count_entries(after) =~= count_entries(file).update(block, count));
}

/// Storing the high-water mark changes no page count.
proof fn lemma_store_high_water(file: Seq<u8>, high_water: u64)
    requires
        file.len() >= COUNTS_START,
    ensures
        ({
            let after = patched(file, HIGH_WATER_OFFSET as int, le64_bytes(high_water));
            &&& count_entries(after) == count_entries(file)
            &&& le64(after, HIGH_WATER_OFFSET as int) == high_water
        }),
{
    let after = patched(file, HIGH_WATER_OFFSET as int, le64_bytes(high_water));
    lemma_le_fields();
    lemma_patched_fields(file, 0, le64_bytes(high_water), 0);
    assert forall|i: int| 0 <= i < count_entries(file).len() implies #[trigger] count_entries(
        after,
    )[i] == count_entries(file)[i] by {
        lemma_patched_fields(file, 0, le64_bytes(high_water), COUNTS_START + 2 * i);
    }
    assert(count_entries(after) =~= count_entries(file));
}

/// Extending the count file adds zero counts.
proof fn lemma_extend_counts(file: Seq<u8>, length: int)
    requires
        COUNTS_START <= file.len() <= length,
        file.len() % 2 == 0,
        length % 2 == 0,
    ensures
        ({
            let after = zero_extended(file, length);
            &&& count_entries(after) == with_zero_counts(
                count_entries(file),
                (length - COUNTS_START) / 2,
            )
            &&& le64(after, HIGH_WATER_OFFSET as int) == le64(file, HIGH_WATER_OFFSET as int)
        }),
{
    let after = zero_extended(file, length);
    lemma_same_fields(after, 0, file, 0, 8);
    let grown = with_zero_counts(count_entries(file), (length - COUNTS_START) / 2);
    assert forall|i: int| 0 <= i < grown.len() implies #[trigger] count_entries(after)[i]
        == grown[i] by {
        let at = COUNTS_START + 2 * i;
        if i < count_entries(file).len() {
            lemma_same_fields(after, at, file, at, 2);
        } else {
            lemma_zero_fields(after, at, 2);
        }
    }
    assert(count_entries(after) =~= grown);
}

/// A power of two divides every larger one.
pub proof fn lemma_power_divides(small: int, large: int)
    requires
        power_of_two(small),
        power_of_two(large),
        small <= large,
    ensures
        large % small == 0,
    decreases large,
{
    if small == large {
        vstd::arithmetic::div_mod::lemma_mod_self_0(small);
    } else if small == 1 {
    } else {
        lemma_power_divides(small / 2, large / 2);
        let (a, b) = (small / 2, large / 2);
        vstd::arithmetic::div_mod::lemma_fundamental_div_mod(b, a);
        assert(large == small * (b / a)) by (nonlinear_arith)
            requires
                large == 2 * b,
                small == 2 * a,
                b == a * (b / a),
        ;
        vstd::arithmetic::mul::lemma_mul_is_commutative(small, b / a);
        vstd::arithmetic::div_mod::lemma_mod_multiples_basic(b / a, small);
    }
}

impl BlockAllocator {
    /// The page counts.
    pub closed spec fn pages(&self) -> Pages {
        Pages {
            block_size: self.block_size as int,
            block_count: self.block_count as int,
            counts: count_entries(self.counts@),
            high_water: le64(self.counts@, HIGH_WATER_OFFSET as int) as int,
            open: self.open_page,
        }
    }

    /// The bytes of the data file.
    pub closed spec fn data(&self) -> Seq<u8> {
        self.data@
    }

    /// The bytes of the count file.
    pub closed spec fn counts(&self) -> Seq<u8> {
        self.counts@
    }

    /// The files have the lengths that the pages need.
    pub closed spec fn stored(&self) -> bool {
        &&& self.data.wf()
        &&& self.counts.wf()
        &&& self.capacity == self.block_count * self.block_size
        &&& self.data.limit() == data_length(self.block_count as int, self.block_size as int)
        &&& self.counts.limit() == count_length(self.block_count as int)
        &&& count_length(self.pages().high_water) <= self.counts@.len()
    }

    /// Validity: the page counts are valid and the files long enough for them.
    pub open spec fn wf(&self) -> bool {
        &&& self.files().wf()
        &&& self.stored()
    }

    /// Data file and page counts.
    pub open spec fn files(&self) -> Files {
        Files { data: self.data(), pages: self.pages() }
    }

    /// Bytes of all pages that the allocator may hold.
    pub open spec fn capacity(&self) -> int {
        self.files().capacity()
    }

    /// An allocator of `capacity` bytes without any page.
    pub fn create(capacity: u64, block_size: u64) -> (result: Result<BlockAllocator, Error>)
        ensures
            match result {
                Ok(allocator) => {
                    &&& allocator_create_defect(capacity as int, block_size as int) is None
                    &&& allocator.wf()
                    &&& allocator.data() == zero_extended(Seq::empty(), DATA_START as int)
                    &&& allocator.counts() == zero_extended(Seq::empty(), COUNTS_START as int)
                    &&& allocator.pages() == (Pages {
                        block_size: block_size as int,
                        block_count: capacity as int / block_size as int,
                        counts: Seq::empty(),
                        high_water: 0,
                        open: None,
                    })
                },
                Err(error) => allocator_create_defect(capacity as int, block_size as int) == Some(
                    error,
                ),
            },
    {
        validate_layout(capacity, block_size)?;
        proof {
            vstd::arithmetic::div_mod::lemma_fundamental_div_mod(
                capacity as int,
                block_size as int,
            );
            vstd::arithmetic::mul::lemma_mul_is_commutative(
                capacity as int / block_size as int,
                block_size as int,
            );
        }
        let (data_length, count_bytes, block_count) = file_lengths(capacity, block_size)?;
        let data = MappedFile::create_growable(data_length, DATA_START)?;
        let counts = MappedFile::create_growable(count_bytes, COUNTS_START)?;
        let allocator = BlockAllocator {
            data,
            counts,
            capacity,
            block_size,
            block_count,
            open_page: None,
        };
        proof {
            lemma_zero_fields(counts@, 0, 8);
            assert(allocator.pages().counts =~= Seq::empty());
            if block_count == 0 {
                vstd::arithmetic::mul::lemma_mul_basics(block_size as int);
            }
        }
        Ok(allocator)
    }

    /// Takes up the files of an allocator that was synchronised.
    pub fn open(files: AllocatorFiles, capacity: u64, block_size: u64) -> (result: Result<
        BlockAllocator,
        Error,
    >)
        ensures
            match result {
                Ok(allocator) => {
                    &&& files.open_defect(capacity as int, block_size as int) is None
                    &&& allocator.wf()
                    &&& allocator.files() == files.files(capacity as int, block_size as int)
                    &&& allocator.counts() == files.counts@
                },
                Err(error) => files.open_defect(capacity as int, block_size as int) == Some(error),
            },
    {
        validate_layout(capacity, block_size)?;
        proof {
            vstd::arithmetic::div_mod::lemma_fundamental_div_mod(
                capacity as int,
                block_size as int,
            );
            vstd::arithmetic::mul::lemma_mul_is_commutative(
                capacity as int / block_size as int,
                block_size as int,
            );
        }
        let (data_length, count_bytes, block_count) = file_lengths(capacity, block_size)?;
        let data = MappedFile::open_growable(files.data, data_length)?;
        let counts = MappedFile::open_growable(files.counts, count_bytes)?;
        let allocator = BlockAllocator {
            data,
            counts,
            capacity,
            block_size,
            block_count,
            open_page: None,
        };
        proof {
            if block_count == 0 {
                vstd::arithmetic::mul::lemma_mul_basics(block_size as int);
            }
        }
        allocator.validate_header()?;
        Ok(allocator)
    }

    /// Checks the high-water mark and the page counts of a closed allocator.
    fn validate_header(&self) -> (result: Result<(), Error>)
        requires
            self.data.wf(),
            self.counts.wf(),
            page_layout(self.block_size as int, self.block_count as int),
            self.block_count * self.block_size + DATA_START <= u64::MAX,
        ensures
            ({
                let high_water = self.pages().high_water;
                result == (if high_water >= GROWING_BIT {
                    Err::<(), Error>(Error::Corrupt("allocator was closed while growing"))
                } else if high_water > self.block_count {
                    Err(Error::Corrupt("allocator high-water mark is out of range"))
                } else if self.counts@.len() < count_length(high_water) {
                    Err(Error::Corrupt("page-count file is shorter than its high-water mark"))
                } else if self.data@.len() < data_length(high_water, self.block_size as int) {
                    Err(Error::Corrupt("data file is shorter than its high-water mark"))
                } else if self.pages().counts.take(high_water).contains(CLAIMED) {
                    Err(Error::Corrupt("allocator was closed with an unfinished page"))
                } else {
                    Ok(())
                })
            }),
    {
        let high_water: u64 = read_high_water(self.counts.as_bytes())?;
        if high_water > self.block_count {
            return Err(Error::Corrupt("allocator high-water mark is out of range"));
        }
        if self.counts.file_length() < count_file_length(high_water)? {
            return Err(Error::Corrupt("page-count file is shorter than its high-water mark"));
        }
        proof {
            vstd::arithmetic::mul::lemma_mul_inequality(
                high_water as int,
                self.block_count as int,
                self.block_size as int,
            );
        }
        if self.data.file_length() < data_file_length(high_water, self.block_size)? {
            return Err(Error::Corrupt("data file is shorter than its high-water mark"));
        }
        let snapshot = self.count_snapshot(high_water);
        let mut index: usize = 0;
        let ghost seen = self.pages().counts.take(high_water as int);
        #[verifier::loop_isolation(false)]
        while index < high_water as usize
            invariant
                high_water <= usize::MAX,
                index <= high_water,
                snapshot.len() == 2 * high_water,
                seen == Seq::new(high_water as nat, |i: int| le16(snapshot@, 2 * i)),
                forall|i: int| 0 <= i < index ==> seen[i] != CLAIMED,
            decreases high_water - index,
        {
            if read_le16(snapshot.as_slice(), 2 * index) == CLAIMED {
                assert(seen[index as int] == CLAIMED);
                return Err(Error::Corrupt("allocator was closed with an unfinished page"));
            }
            index = index + 1;
        }
        Ok(())
    }

    /// The page counts below `high_water`, as they stand in the count file.
    fn count_snapshot(&self, high_water: u64) -> (snapshot: Vec<u8>)
        requires
            self.counts.wf(),
            COUNTS_START + 2 * high_water <= self.counts@.len(),
        ensures
            snapshot@.len() == 2 * high_water,
            high_water <= usize::MAX,
            self.pages().counts.take(high_water as int) == Seq::new(
                high_water as nat,
                |i: int| le16(snapshot@, 2 * i),
            ),
    {
        let snapshot = crate::bytes::copy_range(
            self.counts.as_bytes(),
            COUNTS_START as usize,
            2 * high_water as usize,
        );
        proof {
            let counts = self.pages().counts;
            assert forall|i: int| 0 <= i < high_water implies counts[i] == #[trigger] le16(
                snapshot@,
                2 * i,
            ) by {
                lemma_same_fields(snapshot@, 2 * i, self.counts@, COUNTS_START + 2 * i, 2);
            }
            assert(counts.take(high_water as int) =~= Seq::new(
                high_water as nat,
                |i: int| le16(snapshot@, 2 * i),
            ));
        }
        snapshot
    }

    /// Stores the count of one page.
    fn store_count(&mut self, block: u64, count: u16)
        requires
            old(self).stored(),
            block < old(self).pages().counts.len(),
        ensures
            final(self).stored(),
            final(self).data() == old(self).data(),
            final(self).pages() == (Pages {
                counts: old(self).pages().counts.update(block as int, count),
                ..old(self).pages()
            }),
    {
        proof {
            lemma_store_count(self.counts@, block as int, count);
            lemma_le_fields();
        }
        let _stored = self.counts.store_u16(COUNTS_START + 2 * block, count);
    }

    /// Count of one page.
    pub fn read_count(&self, block: u64) -> (result: Result<u16, Error>)
        requires
            self.wf(),
        ensures
            result == (if block >= self.pages().block_count {
                Err::<u16, Error>(Error::Corrupt("page index is out of range"))
            } else if block >= self.pages().counts.len() {
                Err(Error::Corrupt("mapped range is beyond the file length"))
            } else {
                Ok(self.pages().counts[block as int])
            }),
    {
        if block >= self.block_count {
            return Err(Error::Corrupt("page index is out of range"));
        }
        self.counts.load_u16(COUNTS_START + 2 * block)
    }

    /// The high-water mark.
    pub fn next_block_value(&self) -> (high_water: u64)
        requires
            self.wf(),
        ensures
            high_water == self.pages().high_water,
    {
        read_le64(self.counts.as_bytes(), 0)
    }

    /// Grows both files for a request of `requested_bytes` bytes.
    fn grow(&mut self, requested_bytes: u64) -> (result: Result<(), Error>)
        requires
            old(self).wf(),
            requested_bytes + old(self).pages().block_size <= u64::MAX,
        ensures
            final(self).wf(),
            result == (if old(self).pages().high_water < old(self).pages().block_count {
                Ok::<(), Error>(())
            } else {
                Err(Error::CapacityExhausted("mapped file"))
            }),
            final(self).pages() == (if result is Ok {
                old(self).pages().grown(requested_bytes as int)
            } else {
                old(self).pages()
            }),
            final(self).data() == at_least(
                old(self).data(),
                data_length(final(self).pages().high_water, old(self).pages().block_size),
            ),
    {
        let old_value: u64 = self.next_block_value();
        if old_value >= self.block_count {
            return Err(Error::CapacityExhausted("mapped file"));
        }
        let ghost before = *self;
        let requested_pages: u64 = (requested_bytes + (self.block_size - 1)) / self.block_size;
        let left: u64 = self.block_count - old_value;
        let pages: u64 = if requested_pages < 1 {
            1
        } else if requested_pages > left {
            left
        } else {
            requested_pages
        };
        let new_value: u64 = old_value + pages;
        self.extend(new_value);
        Ok(())
    }

    /// Extends both files to `new_value` pages and publishes the extent.
    #[verifier::spinoff_prover]
    #[verifier::rlimit(60)]
    fn extend(&mut self, new_value: u64)
        requires
            old(self).wf(),
            old(self).pages().high_water <= new_value <= old(self).pages().block_count,
        ensures
            final(self).wf(),
            final(self).pages() == (Pages {
                counts: with_zero_counts(old(self).pages().counts, entries_for(new_value as int)),
                high_water: new_value as int,
                ..old(self).pages()
            }),
            final(self).data() == at_least(
                old(self).data(),
                data_length(new_value as int, old(self).pages().block_size),
            ),
    {
        let ghost before = *self;
        proof {
            vstd::arithmetic::mul::lemma_mul_inequality(
                new_value as int,
                self.block_count as int,
                self.block_size as int,
            );
            vstd::arithmetic::mul::lemma_mul_nonnegative(new_value as int, self.block_size as int);
            lemma_page_power();
            lemma_power_divides(FORMAT_PAGE_SIZE as int, self.block_size as int);
            lemma_multiple_of_page(new_value as int, self.block_size as int);
            lemma_entries(before.pages().high_water);
        }
        let counts_length: u64 = 2 * new_value + COUNTS_START + (FORMAT_PAGE_SIZE - 1);
        let counts_length: u64 = counts_length / FORMAT_PAGE_SIZE * FORMAT_PAGE_SIZE;
        let _grew = self.counts.grow(counts_length);
        proof {
            lemma_extend_counts(
                before.counts@,
                if counts_length > before.counts@.len() {
                    counts_length as int
                } else {
                    before.counts@.len() as int
                },
            );
            assert(zero_extended(before.counts@, before.counts@.len() as int) =~= before.counts@);
            assert(self.pages().counts =~= with_zero_counts(
                before.pages().counts,
                entries_for(new_value as int),
            ));
        }
        let _grew = self.data.grow(new_value * self.block_size + DATA_START);
        proof {
            lemma_store_high_water(self.counts@, new_value);
            lemma_le_fields();
        }
        let _stored = self.counts.store_u64(HIGH_WATER_OFFSET, new_value);
    }
}

/// Extending twice is extending once.
proof fn lemma_at_least_twice(data: Seq<u8>, first: int, second: int)
    requires
        first <= second,
    ensures
        at_least(at_least(data, first), second) == at_least(data, second),
{
    assert(at_least(at_least(data, first), second) =~= at_least(data, second));
}

impl BlockAllocator {
    /// Marks the first page of the longest zero run as open, if a page is free.
    fn claim_free_page(&mut self) -> (claimed: Option<u64>)
        requires
            old(self).wf(),
            old(self).pages().open is None,
        ensures
            final(self).wf(),
            final(self).data() == old(self).data(),
            match free_page(old(self).pages().counts.take(old(self).pages().high_water)) {
                Some(block) => claimed == Some(block as u64) && 0 <= block
                    < old(self).pages().high_water && final(self).pages() == (Pages {
                    counts: old(self).pages().counts.update(block, CLAIMED),
                    ..old(self).pages()
                }),
                None => claimed is None && final(self).pages() == old(self).pages(),
            },
    {
        let high_water: u64 = self.next_block_value();
        proof {
            lemma_entries(high_water as int);
            lemma_free_page_is_free(self.pages().counts.take(high_water as int));
        }
        let snapshot = self.count_snapshot(high_water);
        assert(self.pages().counts.take(high_water as int) =~= Seq::new(
            (snapshot@.len() / 2) as nat,
            |i: int| le16(snapshot@, 2 * i),
        ));
        match longest_zero_run(snapshot.as_slice()) {
            Some(block) => {
                self.store_count(block, CLAIMED);
                Some(block)
            },
            None => None,
        }
    }

    /// Marks a free page as open, after growth where none is free.
    fn claim_page(&mut self, requested_bytes: u64) -> (result: Result<u64, Error>)
        requires
            old(self).wf(),
            old(self).pages().open is None,
            requested_bytes + old(self).pages().block_size <= u64::MAX,
        ensures
            final(self).wf(),
            final(self).pages() == (Pages {
                open: None,
                ..old(self).pages().claimed(requested_bytes as int)
            }),
            match old(self).pages().claimed(requested_bytes as int).open {
                Some(page) => result == Ok::<u64, Error>(page.block) && page.used == 0 && page.live
                    == 0 && page.block < final(self).pages().high_water
                    && final(self).pages().counts[page.block as int] == CLAIMED,
                None => result == Err::<u64, Error>(Error::CapacityExhausted("mapped file")),
            },
            final(self).pages().block_size == old(self).pages().block_size,
            final(self).data() == at_least(
                old(self).data(),
                data_length(final(self).pages().high_water, old(self).pages().block_size),
            ),
    {
        let ghost first = *self;
        loop
            invariant
                first == *old(self),
                self.wf(),
                self.pages().open is None,
                self.pages().block_size == first.pages().block_size,
                self.pages().claimed(requested_bytes as int) == first.pages().claimed(
                    requested_bytes as int,
                ),
                requested_bytes + self.pages().block_size <= u64::MAX,
                self.data() == at_least(
                    first.data(),
                    data_length(self.pages().high_water, first.pages().block_size),
                ),
            decreases self.pages().block_count - self.pages().high_water,
        {
            proof {
                lemma_claimed_step(self.pages(), requested_bytes as int);
                lemma_entries(self.pages().high_water);
            }
            if let Some(block) = self.claim_free_page() {
                return Ok(block);
            }
            let ghost before = *self;
            match self.grow(requested_bytes) {
                Ok(_) => {},
                Err(error) => {
                    return Err(error);
                },
            }
            proof {
                vstd::arithmetic::mul::lemma_mul_inequality(
                    before.pages().high_water,
                    self.pages().high_water,
                    first.pages().block_size,
                );
                lemma_at_least_twice(
                    first.data(),
                    data_length(before.pages().high_water, first.pages().block_size),
                    data_length(self.pages().high_water, first.pages().block_size),
                );
            }
        }
    }

    /// Opens a claimed page.
    fn install_current(&mut self, requested_bytes: u64) -> (result: Result<(), Error>)
        requires
            old(self).wf(),
            old(self).pages().open is None,
            requested_bytes + old(self).pages().block_size <= u64::MAX,
        ensures
            final(self).wf(),
            final(self).pages() == old(self).pages().claimed(requested_bytes as int),
            result == (if final(self).pages().open is Some {
                Ok::<(), Error>(())
            } else {
                Err(Error::CapacityExhausted("mapped file"))
            }),
            final(self).pages().open matches Some(page) ==> page.used == 0 && page.live == 0,
            final(self).pages().block_size == old(self).pages().block_size,
            final(self).data() == at_least(
                old(self).data(),
                data_length(final(self).pages().high_water, old(self).pages().block_size),
            ),
    {
        let block: u64 = self.claim_page(requested_bytes)?;
        self.open_page = Some(OpenPage { block, used: 0, live: 0 });
        Ok(())
    }

    /// Seals the open page; goes on with the page behind it where that is free and
    /// `continue_run` is set.
    fn seal_current_block(&mut self, continue_run: bool)
        requires
            old(self).wf(),
        ensures
            final(self).wf(),
            final(self).pages() == (if continue_run {
                old(self).pages().continued()
            } else {
                old(self).pages().sealed()
            }),
            final(self).data() == old(self).data(),
    {
        if let Some(page) = self.open_page {
            proof {
                lemma_entries(self.pages().high_water);
            }
            let next: u64 = page.block + 1;
            let next_is_free = continue_run && next < self.next_block_value()
                && self.counts.load_u16(COUNTS_START + 2 * next).unwrap() == 0;
            self.store_count(page.block, page.live);
            if next_is_free {
                self.store_count(next, CLAIMED);
                self.open_page = Some(OpenPage { block: next, used: 0, live: 0 });
            } else {
                self.open_page = None;
            }
        }
    }

    /// Seals the open page, so that the count file tells every live allocation.
    pub fn seal_current(&mut self)
        requires
            old(self).wf(),
        ensures
            final(self).wf(),
            final(self).pages() == old(self).pages().sealed(),
            final(self).data() == old(self).data(),
    {
        self.seal_current_block(false);
    }
}

/// What a request for up to `maximum` allocations of `length` bytes at
/// `alignment` makes of the pages, and what it returns.
pub open spec fn batch_outcome(pages: Pages, length: int, alignment: int, maximum: int) -> (
    Pages,
    Result<AllocationBatch, Error>,
) {
    if length == 0 || length > pages.block_size || maximum == 0 {
        (pages, Err(Error::CapacityExhausted("single-page allocation")))
    } else if !power_of_two(alignment) || alignment > pages.block_size {
        (pages, Err(Error::InvalidConfig("allocation alignment is invalid")))
    } else {
        let stride = round_up(length, alignment);
        let requested = if maximum < MAX_LIVE {
            maximum
        } else {
            MAX_LIVE as int
        };
        let ready = pages.readied(length, alignment, stride * requested);
        match ready.open {
            None => (ready, Err(Error::CapacityExhausted("mapped file"))),
            Some(page) => {
                let count = ready.reserved(length, alignment, requested);
                (
                    ready.taken(length, alignment, count),
                    Ok(
                        AllocationBatch {
                            offset: (ready.page_start(page.block as int) + round_up(
                                page.used as int,
                                alignment,
                            )) as u64,
                            length: length as u32,
                            stride: stride as u32,
                            count: count as u32,
                            block: page.block,
                        },
                    ),
                )
            },
        }
    }
}

/// The files after a request for up to `maximum` allocations.
pub open spec fn after_request(files: Files, length: int, alignment: int, maximum: int) -> Files {
    let pages = batch_outcome(files.pages, length, alignment, maximum).0;
    Files {
        data: at_least(files.data, data_length(pages.high_water, files.pages.block_size)),
        pages,
    }
}

/// Number of allocations that one request takes from a page: at least one, and
/// all of them inside the page.
proof fn lemma_reserved(pages: Pages, length: int, alignment: int, requested: int)
    requires
        pages.wf(),
        pages.fits(length, alignment),
        0 < length,
        0 < alignment,
        0 < requested,
    ensures
        ({
            let page = pages.open->0;
            let stride = round_up(length, alignment);
            let start = round_up(page.used as int, alignment);
            let count = pages.reserved(length, alignment, requested);
            &&& 0 < count <= requested
            &&& page.live + count <= MAX_LIVE
            &&& 0 <= (count - 1) * stride
            &&& start + (count - 1) * stride + length <= pages.block_size
        }),
{
    let page = pages.open->0;
    let stride = round_up(length, alignment);
    let start = round_up(page.used as int, alignment);
    let count = pages.reserved(length, alignment, requested);
    let room = pages.block_size - (start + length);
    lemma_round_up(length, alignment);
    lemma_round_up(page.used as int, alignment);
    vstd::arithmetic::div_mod::lemma_div_pos_is_pos(room, stride);
    vstd::arithmetic::div_mod::lemma_fundamental_div_mod(room, stride);
    vstd::arithmetic::div_mod::lemma_mod_bound(room, stride);
    vstd::arithmetic::mul::lemma_mul_is_commutative(stride, room / stride);
    vstd::arithmetic::mul::lemma_mul_inequality(count - 1, room / stride, stride);
    vstd::arithmetic::mul::lemma_mul_nonnegative(count - 1, stride);
}

/// An unused page has room for every allocation that fits a page.
proof fn lemma_unused_fits(pages: Pages, length: int, alignment: int)
    requires
        pages.open matches Some(page) && page.used == 0 && page.live == 0,
        0 < alignment,
        length <= pages.block_size,
    ensures
        pages.fits(length, alignment),
{
    vstd::arithmetic::div_mod::lemma_basic_div(alignment - 1, alignment);
    vstd::arithmetic::mul::lemma_mul_basics(alignment);
}

/// A stride is no longer than a page.
proof fn lemma_stride(length: int, alignment: int, block_size: int)
    requires
        0 < length <= block_size,
        power_of_two(alignment),
        power_of_two(block_size),
        alignment <= block_size,
    ensures
        0 < alignment,
        length <= round_up(length, alignment) <= block_size,
{
    lemma_round_up(length, alignment);
    lemma_power_divides(alignment, block_size);
    let steps = (length + alignment - 1) / alignment;
    let most = block_size / alignment;
    vstd::arithmetic::div_mod::lemma_fundamental_div_mod(block_size, alignment);
    vstd::arithmetic::mul::lemma_mul_is_commutative(most, alignment);
    if steps > most {
        vstd::arithmetic::mul::lemma_mul_inequality(most + 1, steps, alignment);
        vstd::arithmetic::mul::lemma_mul_is_distributive_add_other_way(alignment, most, 1);
    } else {
        vstd::arithmetic::mul::lemma_mul_inequality(steps, most, alignment);
    }
}

impl BlockAllocator {
    /// Opens a page with room for `length` bytes at `alignment`.
    fn ready_page(&mut self, length: u64, alignment: u64, growth_bytes: u64) -> (result: Result<
        OpenPage,
        Error,
    >)
        requires
            old(self).wf(),
            0 < length <= old(self).pages().block_size,
            power_of_two(alignment as int),
            alignment <= old(self).pages().block_size,
            growth_bytes + old(self).pages().block_size <= u64::MAX,
        ensures
            final(self).wf(),
            final(self).pages() == old(self).pages().readied(
                length as int,
                alignment as int,
                growth_bytes as int,
            ),
            match result {
                Ok(page) => final(self).pages().open == Some(page) && final(self).pages().fits(
                    length as int,
                    alignment as int,
                ),
                Err(error) => final(self).pages().open is None && error == Error::CapacityExhausted(
                    "mapped file",
                ),
            },
            final(self).data() == at_least(
                old(self).data(),
                data_length(final(self).pages().high_water, old(self).pages().block_size),
            ),
    {
        if let Some(page) = self.open_page {
            proof {
                lemma_round_up(page.used as int, alignment as int);
            }
            let start: u64 = match align_up(page.used, alignment) {
                Some(start) => start,
                None => {
                    return Err(Error::CapacityExhausted("page offset"));
                },
            };
            if start + length <= self.block_size && page.live != MAX_LIVE {
                return Ok(page);
            }
            self.seal_current_block(true);
        }
        if let Some(page) = self.open_page {
            proof {
                lemma_unused_fits(self.pages(), length as int, alignment as int);
            }
            return Ok(page);
        }
        self.install_current(growth_bytes)?;
        proof {
            lemma_unused_fits(self.pages(), length as int, alignment as int);
        }
        match self.open_page {
            Some(page) => Ok(page),
            None => Err(Error::CapacityExhausted("mapped file")),
        }
    }

    /// Reserves up to `maximum_count` allocations of `length` bytes on one page.
    pub fn allocate_batch(
        &mut self,
        length: usize,
        alignment: u64,
        maximum_count: usize,
    ) -> (result: Result<AllocationBatch, Error>)
        requires
            old(self).wf(),
        ensures
            final(self).wf(),
            result == batch_outcome(
                old(self).pages(),
                length as int,
                alignment as int,
                maximum_count as int,
            ).1,
            final(self).files() == after_request(
                old(self).files(),
                length as int,
                alignment as int,
                maximum_count as int,
            ),
            result matches Ok(batch) ==> batch.wf(),
    {
        let length: u64 = length as u64;
        if length == 0 || length > self.block_size || maximum_count == 0 {
            return Err(Error::CapacityExhausted("single-page allocation"));
        }
        if !is_power_of_two(alignment) || alignment > self.block_size {
            return Err(Error::InvalidConfig("allocation alignment is invalid"));
        }
        proof {
            lemma_stride(length as int, alignment as int, self.block_size as int);
        }
        let stride: u64 = match align_up(length, alignment) {
            Some(stride) => stride,
            None => {
                return Err(Error::CapacityExhausted("allocation stride"));
            },
        };
        let requested: u64 = if maximum_count < MAX_LIVE as usize {
            maximum_count as u64
        } else {
            MAX_LIVE as u64
        };
        proof {
            vstd::arithmetic::mul::lemma_mul_upper_bound(
                stride as int,
                u32::MAX as int,
                requested as int,
                MAX_LIVE as int,
            );
        }
        let page: OpenPage = self.ready_page(length, alignment, stride * requested)?;
        let ghost ready = self.pages();
        proof {
            lemma_round_up(page.used as int, alignment as int);
            lemma_reserved(ready, length as int, alignment as int, requested as int);
            vstd::arithmetic::mul::lemma_mul_inequality(
                page.block + 1,
                ready.block_count,
                ready.block_size,
            );
            vstd::arithmetic::mul::lemma_mul_is_distributive_add_other_way(
                ready.block_size,
                page.block as int,
                1,
            );
        }
        let start: u64 = match align_up(page.used, alignment) {
            Some(start) => start,
            None => {
                return Err(Error::CapacityExhausted("page offset"));
            },
        };
        let fitting: u64 = 1 + (self.block_size - (start + length)) / stride;
        let left: u64 = (MAX_LIVE - page.live) as u64;
        let reserved: u64 = if requested <= fitting && requested <= left {
            requested
        } else if fitting <= left {
            fitting
        } else {
            left
        };
        assert(reserved == ready.reserved(length as int, alignment as int, requested as int));
        let end: u64 = start + (reserved - 1) * stride + length;
        self.open_page = Some(
            OpenPage { block: page.block, used: end, live: page.live + reserved as u16 },
        );
        let batch = AllocationBatch {
            offset: DATA_START + page.block * self.block_size + start,
            length: length as u32,
            stride: stride as u32,
            count: reserved as u32,
            block: page.block,
        };
        proof {
            vstd::arithmetic::mul::lemma_mul_upper_bound(
                reserved as int,
                MAX_LIVE as int,
                stride as int,
                u32::MAX as int,
            );
        }
        Ok(batch)
    }

    /// Reserves one allocation of `length` bytes.
    pub fn allocate(&mut self, length: usize, alignment: u64) -> (result: Result<
        Allocation,
        Error,
    >)
        requires
            old(self).wf(),
        ensures
            final(self).wf(),
            match batch_outcome(old(self).pages(), length as int, alignment as int, 1).1 {
                Ok(batch) => result == Ok::<Allocation, Error>(batch.spec_nth(0)),
                Err(error) => result == Err::<Allocation, Error>(error),
            },
            final(self).files() == after_request(
                old(self).files(),
                length as int,
                alignment as int,
                1,
            ),
    {
        let batch = self.allocate_batch(length, alignment, 1)?;
        proof {
            lemma_batch_not_empty(old(self).pages(), length as int, alignment as int, 1);
        }
        Ok(batch.nth(0))
    }
}

/// Why `offset` and `length` are not those of an allocation, if they are not.
pub open spec fn extent_defect(pages: Pages, offset: int, length: int) -> Option<Error> {
    let capacity = pages.block_count * pages.block_size;
    let last = if offset + length > DATA_START {
        offset + length - 1
    } else {
        DATA_START as int
    };
    if data_defect(capacity, offset, length) is Some {
        data_defect(capacity, offset, length)
    } else if pages.page_of(last) != pages.page_of(offset) {
        Some(Error::Corrupt("allocation crosses a page boundary"))
    } else {
        None
    }
}

/// Why `allocation` cannot be released, if it cannot.
pub open spec fn release_defect(pages: Pages, allocation: Allocation) -> Option<Error> {
    let block = allocation.block as int;
    if extent_defect(pages, allocation.offset as int, allocation.length as int) is Some {
        extent_defect(pages, allocation.offset as int, allocation.length as int)
    } else if pages.page_of(allocation.offset as int) != block {
        Some(Error::Corrupt("allocation page does not match its offset"))
    } else {
        match pages.open {
            Some(page) if page.block == block => if page.live == 0 {
                Some(Error::Corrupt("page allocation count underflow"))
            } else {
                None
            },
            _ => if block >= pages.counts.len() {
                Some(Error::Corrupt("mapped range is beyond the file length"))
            } else if pages.counts[block] == 0 || pages.counts[block] == CLAIMED {
                Some(Error::Corrupt("released allocation belongs to an inactive page"))
            } else {
                None
            },
        }
    }
}

impl BlockAllocator {
    /// Checks that a range lies inside the data pages.
    fn validate_data_range(&self, offset: u64, length: u64) -> (result: Result<(), Error>)
        requires
            self.wf(),
        ensures
            result == (match data_defect(self.capacity(), offset as int, length as int) {
                Some(error) => Err::<(), Error>(error),
                None => Ok(()),
            }),
    {
        if offset < DATA_START {
            return Err(Error::Corrupt("data offset points into the file header"));
        }
        match (offset - DATA_START).checked_add(length) {
            None => Err(Error::Corrupt("data range overflow")),
            Some(end) => if end > self.capacity {
                Err(Error::Corrupt("data range is out of bounds"))
            } else {
                Ok(())
            },
        }
    }

    /// The allocation at `offset` of `length` bytes.
    pub fn allocation_for(&self, offset: u64, length: u32) -> (result: Result<Allocation, Error>)
        requires
            self.wf(),
        ensures
            match result {
                Ok(allocation) => extent_defect(self.pages(), offset as int, length as int) is None
                    && allocation == (Allocation {
                    offset,
                    length,
                    block: self.pages().page_of(offset as int) as u64,
                }) && allocation.block == self.pages().page_of(offset as int),
                Err(error) => extent_defect(self.pages(), offset as int, length as int) == Some(
                    error,
                ),
            },
    {
        self.validate_data_range(offset, length as u64)?;
        let relative: u64 = offset - DATA_START;
        let block: u64 = relative / self.block_size;
        let end: u64 = relative + length as u64;
        let last: u64 = if end == 0 {
            0
        } else {
            end - 1
        };
        if last / self.block_size != block {
            return Err(Error::Corrupt("allocation crosses a page boundary"));
        }
        Ok(Allocation { offset, length, block })
    }

    /// Checks that `allocation` has the page that its offset lies in.
    fn validate_allocation(&self, allocation: Allocation) -> (result: Result<(), Error>)
        requires
            self.wf(),
        ensures
            ({
                let (offset, length) = (allocation.offset as int, allocation.length as int);
                result == (if extent_defect(self.pages(), offset, length) is Some {
                    Err::<(), Error>(extent_defect(self.pages(), offset, length)->0)
                } else if self.pages().page_of(offset) != allocation.block {
                    Err(Error::Corrupt("allocation page does not match its offset"))
                } else {
                    Ok(())
                })
            }),
    {
        let expected = self.allocation_for(allocation.offset, allocation.length)?;
        if expected.block != allocation.block {
            return Err(Error::Corrupt("allocation page does not match its offset"));
        }
        Ok(())
    }

    /// Checks whether `allocation` can be released.
    pub fn validate_release(&self, allocation: Allocation) -> (result: Result<(), Error>)
        requires
            self.wf(),
        ensures
            result == (match release_defect(self.pages(), allocation) {
                Some(error) => Err::<(), Error>(error),
                None => Ok(()),
            }),
    {
        self.validate_allocation(allocation)?;
        if let Some(page) = self.open_page {
            if page.block == allocation.block {
                if page.live == 0 {
                    return Err(Error::Corrupt("page allocation count underflow"));
                }
                return Ok(());
            }
        }
        proof {
            lemma_extent_page(self.pages(), allocation.offset as int, allocation.length as int);
        }
        let count: u16 = self.read_count(allocation.block)?;
        if count == 0 || count == CLAIMED {
            return Err(Error::Corrupt("released allocation belongs to an inactive page"));
        }
        Ok(())
    }

    /// Gives one allocation back to its page.
    pub fn release(&mut self, allocation: Allocation) -> (result: Result<(), Error>)
        requires
            old(self).wf(),
        ensures
            final(self).wf(),
            final(self).data() == old(self).data(),
            match release_defect(old(self).pages(), allocation) {
                Some(error) => result == Err::<(), Error>(error) && final(self).pages() == old(
                    self,
                ).pages(),
                None => result == Ok::<(), Error>(()) && final(self).pages() == old(
                    self,
                ).pages().released(allocation.block as int),
            },
    {
        self.validate_release(allocation)?;
        if let Some(page) = self.open_page {
            if page.block == allocation.block {
                self.open_page = Some(
                    OpenPage { block: page.block, used: page.used, live: page.live - 1 },
                );
                return Ok(());
            }
        }
        proof {
            lemma_extent_page(self.pages(), allocation.offset as int, allocation.length as int);
        }
        let count: u16 = self.read_count(allocation.block)?;
        self.store_count(allocation.block, count - 1);
        Ok(())
    }

    /// Number of pages that can be reused.
    pub fn recycle_empty_blocks(&self) -> (free: usize)
        requires
            self.wf(),
        ensures
            free == self.pages().counts.take(self.pages().high_water).filter(
                |count: u16| count == 0,
            ).len(),
    {
        let high_water: u64 = self.next_block_value();
        proof {
            lemma_entries(high_water as int);
        }
        let snapshot = self.count_snapshot(high_water);
        let ghost counts = self.pages().counts.take(high_water as int);
        let entries: usize = high_water as usize;
        let mut free: usize = 0;
        let mut index: usize = 0;
        assert(counts.take(0).filter(|count: u16| count == 0).len() == 0) by {
            reveal(Seq::filter);
        }
        while index < entries
            invariant
                free <= index <= entries,
                entries == counts.len(),
                snapshot.len() == 2 * entries,
                counts == Seq::new(entries as nat, |i: int| le16(snapshot@, 2 * i)),
                free == counts.take(index as int).filter(|count: u16| count == 0).len(),
            decreases entries - index,
        {
            proof {
                reveal(Seq::filter);
                assert(counts.take(index + 1).drop_last() =~= counts.take(index as int));
            }
            if read_le16(snapshot.as_slice(), 2 * index) == 0 {
                free = free + 1;
            }
            index = index + 1;
        }
        assert(counts.take(index as int) =~= counts);
        free
    }

    /// Writes `input` at the start of an allocation.
    pub fn write(&mut self, allocation: Allocation, input: &[u8]) -> (result: Result<(), Error>)
        requires
            old(self).wf(),
        ensures
            final(self).wf(),
            final(self).pages() == old(self).pages(),
            match write_defect(old(self).data().len() as int, allocation, 0, input@.len() as int) {
                Some(error) => result == Err::<(), Error>(error) && final(self).data() == old(
                    self,
                ).data(),
                None => result == Ok::<(), Error>(()) && final(self).data() == patched(
                    old(self).data(),
                    allocation.offset as int,
                    input@,
                ),
            },
    {
        self.write_at(allocation, 0, input)
    }

    /// Writes `input` at `relative_offset` of an allocation.
    pub fn write_at(
        &mut self,
        allocation: Allocation,
        relative_offset: usize,
        input: &[u8],
    ) -> (result: Result<(), Error>)
        requires
            old(self).wf(),
        ensures
            final(self).wf(),
            final(self).pages() == old(self).pages(),
            match write_defect(
                old(self).data().len() as int,
                allocation,
                relative_offset as int,
                input@.len() as int,
            ) {
                Some(error) => result == Err::<(), Error>(error) && final(self).data() == old(
                    self,
                ).data(),
                None => result == Ok::<(), Error>(()) && final(self).data() == patched(
                    old(self).data(),
                    allocation.offset + relative_offset,
                    input@,
                ),
            },
    {
        let end: usize = match relative_offset.checked_add(input.len()) {
            Some(end) => end,
            None => {
                return Err(Error::Corrupt("write range overflow"));
            },
        };
        if end > allocation.length as usize {
            return Err(Error::Corrupt("write exceeds allocation"));
        }
        match allocation.offset.checked_add(relative_offset as u64) {
            Some(offset) => self.data.copy_in(offset, input),
            None => Err(Error::Corrupt("write offset overflow")),
        }
    }

    /// Copies `length` bytes out of the data pages.
    pub fn read(&self, offset: u64, length: usize) -> (result: Result<Vec<u8>, Error>)
        requires
            self.wf(),
        ensures
            match result {
                Ok(bytes) => read_defect(
                    self.capacity(),
                    self.data().len() as int,
                    offset as int,
                    length as int,
                ) is None && bytes@ == self.data().subrange(offset as int, offset + length),
                Err(error) => read_defect(
                    self.capacity(),
                    self.data().len() as int,
                    offset as int,
                    length as int,
                ) == Some(error),
            },
    {
        self.validate_data_range(offset, length as u64)?;
        self.data.copy_out(offset, length)
    }

    /// Reads the aligned eight-byte word at `offset` of the data file.
    pub fn load_u64(&self, offset: u64) -> (result: Result<u64, Error>)
        requires
            self.wf(),
        ensures
            match result {
                Ok(value) => word_access_defect(
                    self.capacity(),
                    self.data().len() as int,
                    offset as int,
                ) is None && value == le64(self.data(), offset as int),
                Err(error) => word_access_defect(
                    self.capacity(),
                    self.data().len() as int,
                    offset as int,
                ) == Some(error),
            },
    {
        self.validate_data_range(offset, 8)?;
        self.data.load_u64(offset)
    }

    /// Replaces the aligned eight-byte word at `offset` of the data file.
    pub fn store_u64(&mut self, offset: u64, value: u64) -> (result: Result<(), Error>)
        requires
            old(self).wf(),
        ensures
            final(self).wf(),
            final(self).pages() == old(self).pages(),
            match word_access_defect(
                old(self).capacity(),
                old(self).data().len() as int,
                offset as int,
            ) {
                Some(error) => result == Err::<(), Error>(error) && final(self).data() == old(
                    self,
                ).data(),
                None => result == Ok::<(), Error>(()) && final(self).data() == patched(
                    old(self).data(),
                    offset as int,
                    le64_bytes(value),
                ),
            },
    {
        proof {
            lemma_le_fields();
        }
        self.validate_data_range(offset, 8)?;
        self.data.store_u64(offset, value)
    }

    /// Bytes of all pages that the allocator may hold.
    pub fn byte_capacity(&self) -> (capacity: u64)
        requires
            self.wf(),
        ensures
            capacity == self.capacity(),
    {
        self.capacity
    }

    /// The files, sealed.
    pub fn into_files(self) -> (files: AllocatorFiles)
        requires
            self.wf(),
        ensures
            ({
                let pages = self.pages();
                &&& files.data@ == self.data()
                &&& files.files(self.capacity(), pages.block_size) == (Files {
                    pages: pages.sealed(),
                    ..self.files()
                })
                &&& (forall|i: int|
                    #![trigger pages.sealed().counts[i]]
                    0 <= i < pages.high_water ==> pages.sealed().counts[i] != CLAIMED)
                    ==> files.open_defect(self.capacity(), pages.block_size) is None
            }),
    {
        let mut allocator = self;
        allocator.seal_current();
        proof {
            allocator.lemma_opens();
        }
        AllocatorFiles {
            data: allocator.data.into_bytes(),
            counts: allocator.counts.into_bytes(),
        }
    }

    /// Sealed files without an unfinished page can be opened.
    proof fn lemma_opens(&self)
        requires
            self.wf(),
            self.pages().open is None,
        ensures
            self.capacity() / self.pages().block_size == self.pages().block_count,
            (forall|i: int|
                #![trigger self.pages().counts[i]]
                0 <= i < self.pages().high_water ==> self.pages().counts[i] != CLAIMED)
                ==> allocator_open_defect(
                self.data(),
                self.counts(),
                self.capacity(),
                self.pages().block_size,
            ) is None,
    {
        let pages = self.pages();
        let (count, size) = (pages.block_count, pages.block_size);
        vstd::arithmetic::mul::lemma_mul_is_commutative(count, size);
        vstd::arithmetic::div_mod::lemma_div_multiples_vanish(count, size);
        vstd::arithmetic::div_mod::lemma_mod_multiples_basic(count, size);
        vstd::arithmetic::mul::lemma_mul_strictly_positive(count, size);
        lemma_entries(pages.high_water);
        let used = pages.counts.take(pages.high_water);
        if used.contains(CLAIMED) {
            let i = choose|i: int| 0 <= i < used.len() && used[i] == CLAIMED;
            assert(pages.counts[i] == CLAIMED);
        }
    }

    /// The bytes of the data file.
    pub fn data_file(&self) -> (bytes: &[u8])
        ensures
            bytes@ == self.data(),
    {
        self.data.as_bytes()
    }

    /// The bytes of the count file.
    pub fn count_file(&self) -> (bytes: &[u8])
        ensures
            bytes@ == self.counts(),
            count_entries(bytes@) == self.pages().counts,
            le64(bytes@, HIGH_WATER_OFFSET as int) == self.pages().high_water,
    {
        self.counts.as_bytes()
    }
}

/// Why bytes cannot be written into an allocation, if they cannot.
pub open spec fn write_defect(
    file_length: int,
    allocation: Allocation,
    relative: int,
    length: int,
) -> Option<Error> {
    if relative + length > usize::MAX {
        Some(Error::Corrupt("write range overflow"))
    } else if relative + length > allocation.length {
        Some(Error::Corrupt("write exceeds allocation"))
    } else if allocation.offset + relative > u64::MAX {
        Some(Error::Corrupt("write offset overflow"))
    } else {
        range_defect(file_length, allocation.offset + relative, length)
    }
}

/// Why bytes cannot be read from the data pages, if they cannot.
pub open spec fn read_defect(
    capacity: int,
    file_length: int,
    offset: int,
    length: int,
) -> Option<Error> {
    match data_defect(capacity, offset, length) {
        Some(error) => Some(error),
        None => range_defect(file_length, offset, length),
    }
}

/// Why a word of the data pages cannot be accessed, if it cannot.
pub open spec fn word_access_defect(capacity: int, file_length: int, offset: int) -> Option<Error> {
    match data_defect(capacity, offset, 8) {
        Some(error) => Some(error),
        None => word_defect(file_length, offset, 8),
    }
}

/// An allocation lies on a page of the allocator.
proof fn lemma_extent_page(pages: Pages, offset: int, length: int)
    requires
        pages.wf(),
        0 <= length,
        extent_defect(pages, offset, length) is None,
    ensures
        0 <= pages.page_of(offset) < pages.block_count,
{
    let relative = offset - DATA_START;
    vstd::arithmetic::div_mod::lemma_div_pos_is_pos(relative, pages.block_size);
    let capacity = pages.block_count * pages.block_size;
    vstd::arithmetic::div_mod::lemma_div_multiples_vanish(pages.block_count, pages.block_size);
    vstd::arithmetic::mul::lemma_mul_is_commutative(pages.block_count, pages.block_size);
    let last = if offset + length > DATA_START {
        offset + length - 1
    } else {
        DATA_START as int
    };
    vstd::arithmetic::mul::lemma_mul_strictly_positive(pages.block_count, pages.block_size);
    assert(last - DATA_START < capacity);
    if pages.page_of(last) >= pages.block_count {
        vstd::arithmetic::mul::lemma_mul_inequality(
            pages.block_count,
            pages.page_of(last),
            pages.block_size,
        );
        vstd::arithmetic::div_mod::lemma_fundamental_div_mod(last - DATA_START, pages.block_size);
        vstd::arithmetic::div_mod::lemma_mod_bound(last - DATA_START, pages.block_size);
        vstd::arithmetic::mul::lemma_mul_is_commutative(pages.page_of(last), pages.block_size);
    }
}

/// Each allocation of a batch lies inside the page of the batch, aligned, and
/// inside the pages that the files hold.
pub proof fn lemma_batch_extent(
    pages: Pages,
    length: int,
    alignment: int,
    maximum: int,
    index: int,
)
    requires
        pages.wf(),
        0 <= length,
        0 <= maximum,
        batch_outcome(pages, length, alignment, maximum).1 is Ok,
        0 <= index < (batch_outcome(pages, length, alignment, maximum).1->Ok_0).count,
    ensures
        ({
            let (after, result) = batch_outcome(pages, length, alignment, maximum);
            let batch = result->Ok_0;
            let offset = batch.offset + index * batch.stride;
            &&& after.wf()
            &&& after.block_size == pages.block_size
            &&& after.block_count == pages.block_count
            &&& pages.high_water <= after.high_water
            &&& batch.length == length
            &&& 0 < length
            &&& offset == batch.spec_nth(index).offset
            &&& DATA_START <= offset
            &&& (offset - DATA_START) % alignment == 0
            &&& after.page_of(offset) == batch.block
            &&& batch.block < after.high_water
            &&& offset + length <= after.page_start(batch.block as int) + after.block_size
            &&& offset + length <= data_length(after.high_water, after.block_size)
            &&& extent_defect(after, offset, length) is None
        }),
{
    let stride = round_up(length, alignment);
    let requested = if maximum < MAX_LIVE {
        maximum
    } else {
        MAX_LIVE as int
    };
    lemma_stride(length, alignment, pages.block_size);
    let ready = pages.readied(length, alignment, stride * requested);
    lemma_readied_fits(pages, length, alignment, stride * requested);
    lemma_readied_high_water(pages, length, alignment, stride * requested);
    let page = ready.open->0;
    let count = ready.reserved(length, alignment, requested);
    lemma_reserved(ready, length, alignment, requested);
    lemma_round_up(page.used as int, alignment);
    lemma_round_up(length, alignment);
    let (after, result) = batch_outcome(pages, length, alignment, maximum);
    let batch = result->Ok_0;
    let start = round_up(page.used as int, alignment);
    let block = page.block as int;
    vstd::arithmetic::mul::lemma_mul_upper_bound(
        block,
        u32::MAX as int,
        ready.block_size,
        u32::MAX as int,
    );
    vstd::arithmetic::mul::lemma_mul_nonnegative(block, ready.block_size);
    vstd::arithmetic::mul::lemma_mul_inequality(index, count - 1, stride);
    vstd::arithmetic::mul::lemma_mul_nonnegative(index, stride);
    let within = start + index * stride;
    let offset = ready.page_start(block) + within;
    assert(batch.offset + index * batch.stride == offset);
    lemma_page_of(ready, block, within);
    lemma_page_of(ready, block, within + length - 1);
    vstd::arithmetic::mul::lemma_mul_inequality(block + 1, ready.high_water, ready.block_size);
    vstd::arithmetic::mul::lemma_mul_inequality(
        ready.high_water,
        ready.block_count,
        ready.block_size,
    );
    vstd::arithmetic::mul::lemma_mul_is_distributive_add_other_way(ready.block_size, block, 1);
    vstd::arithmetic::mul::lemma_mul_upper_bound(
        ready.block_count,
        u32::MAX as int,
        ready.block_size,
        u32::MAX as int,
    );
    lemma_power_divides(alignment, ready.block_size);
    assert((block * ready.block_size + start + index * stride) % alignment == 0) by {
        lemma_multiples(block, ready.block_size, alignment);
        lemma_multiples(index, stride, alignment);
        lemma_sum_of_multiples(block * ready.block_size, start, alignment);
        lemma_sum_of_multiples(block * ready.block_size + start, index * stride, alignment);
    }
}

/// What was just reserved can be released.
pub proof fn lemma_fresh_releasable(pages: Pages, length: int, alignment: int, maximum: int)
    requires
        pages.wf(),
        0 <= length,
        0 <= maximum,
    ensures
        batch_outcome(pages, length, alignment, maximum).1 matches Ok(batch) ==> release_defect(
            batch_outcome(pages, length, alignment, maximum).0,
            batch.spec_nth(0),
        ) is None,
{
    if batch_outcome(pages, length, alignment, maximum).1 is Ok {
        lemma_batch_not_empty(pages, length, alignment, maximum);
        lemma_batch_extent(pages, length, alignment, maximum, 0);
        let stride = round_up(length, alignment);
        let requested = if maximum < MAX_LIVE {
            maximum
        } else {
            MAX_LIVE as int
        };
        let ready = pages.readied(length, alignment, stride * requested);
        lemma_stride(length, alignment, pages.block_size);
        lemma_readied_fits(pages, length, alignment, stride * requested);
        lemma_reserved(ready, length, alignment, requested);
    }
}

/// A multiple of a multiple is a multiple.
proof fn lemma_multiples(times: int, value: int, unit: int)
    requires
        0 < unit,
        value % unit == 0,
    ensures
        (times * value) % unit == 0,
{
    vstd::arithmetic::div_mod::lemma_fundamental_div_mod(value, unit);
    assert(times * value == (times * (value / unit)) * unit) by (nonlinear_arith)
        requires
            value == unit * (value / unit),
    ;
    vstd::arithmetic::div_mod::lemma_mod_multiples_basic(times * (value / unit), unit);
}

/// A sum of multiples is a multiple.
proof fn lemma_sum_of_multiples(one: int, two: int, unit: int)
    requires
        0 < unit,
        one % unit == 0,
        two % unit == 0,
    ensures
        (one + two) % unit == 0,
{
    vstd::arithmetic::div_mod::lemma_fundamental_div_mod(one, unit);
    vstd::arithmetic::div_mod::lemma_fundamental_div_mod(two, unit);
    assert(one + two == (one / unit + two / unit) * unit) by (nonlinear_arith)
        requires
            one == unit * (one / unit),
            two == unit * (two / unit),
    ;
    vstd::arithmetic::div_mod::lemma_mod_multiples_basic(one / unit + two / unit, unit);
}

/// Opening a page never shrinks the files.
proof fn lemma_readied_high_water(pages: Pages, length: int, alignment: int, bytes: int)
    ensures
        pages.high_water <= pages.readied(length, alignment, bytes).high_water,
{
    lemma_claimed_high_water(pages.continued(), bytes);
}

/// Claiming a page never shrinks the files.
proof fn lemma_claimed_high_water(pages: Pages, bytes: int)
    ensures
        pages.high_water <= pages.claimed(bytes).high_water,
    decreases pages.block_count - pages.high_water,
{
    lemma_claimed_step(pages, bytes);
    if pages.high_water < pages.block_count {
        lemma_claimed_high_water(pages.grown(bytes), bytes);
    }
}

/// A failed request never shrinks the files either.
pub proof fn lemma_outcome_pages(pages: Pages, length: int, alignment: int, maximum: int)
    requires
        pages.wf(),
        0 <= length,
        0 <= maximum,
    ensures
        batch_outcome(pages, length, alignment, maximum).0.block_size == pages.block_size,
        batch_outcome(pages, length, alignment, maximum).0.block_count == pages.block_count,
        pages.high_water <= batch_outcome(pages, length, alignment, maximum).0.high_water,
{
    if length == 0 || length > pages.block_size || maximum == 0 || !power_of_two(alignment)
        || alignment > pages.block_size {
    } else {
        let stride = round_up(length, alignment);
        let requested = if maximum < MAX_LIVE {
            maximum
        } else {
            MAX_LIVE as int
        };
        lemma_stride(length, alignment, pages.block_size);
        lemma_readied_fits(pages, length, alignment, stride * requested);
        lemma_readied_high_water(pages, length, alignment, stride * requested);
    }
}

/// Reserving a batch keeps the accounting: the batch meets no live allocation
/// and is counted; a request that fails leaves the accounting as it was.
pub proof fn law_allocations_apart(
    pages: Pages,
    live: Map<int, int>,
    length: int,
    alignment: int,
    maximum: int,
)
    requires
        accounts(pages, live),
        0 <= length,
        0 <= maximum,
    ensures
        ({
            let (after, result) = batch_outcome(pages, length, alignment, maximum);
            match result {
                Ok(batch) => {
                    &&& accounts(
                        after,
                        with_batch(
                            live,
                            batch.offset as int,
                            batch.stride as int,
                            length,
                            batch.count as int,
                        ),
                    )
                    &&& forall|i: int|
                        0 <= i < batch.count ==> !live.dom().contains(
                            #[trigger] (batch.offset + i * batch.stride),
                        )
                },
                Err(_) => accounts(after, live),
            }
        }),
{
    let (after, result) = batch_outcome(pages, length, alignment, maximum);
    if length == 0 || length > pages.block_size || maximum == 0 || !power_of_two(alignment)
        || alignment > pages.block_size {
    } else {
        let stride = round_up(length, alignment);
        let requested = if maximum < MAX_LIVE {
            maximum
        } else {
            MAX_LIVE as int
        };
        lemma_stride(length, alignment, pages.block_size);
        let ready = pages.readied(length, alignment, stride * requested);
        lemma_readied(pages, live, length, alignment, stride * requested);
        lemma_readied_fits(pages, length, alignment, stride * requested);
        if ready.open is Some {
            let page = ready.open->0;
            let count = ready.reserved(length, alignment, requested);
            lemma_reserved(ready, length, alignment, requested);
            lemma_taken(ready, live, length, alignment, count);
            lemma_round_up(page.used as int, alignment);
            vstd::arithmetic::mul::lemma_mul_upper_bound(
                page.block as int,
                u32::MAX as int,
                ready.block_size,
                u32::MAX as int,
            );
            vstd::arithmetic::mul::lemma_mul_nonnegative(page.block as int, ready.block_size);
            let first = ready.page_start(page.block as int) + round_up(page.used as int, alignment);
            assert(0 <= first <= u64::MAX);
        }
    }
}

/// An unused page is opened where none has room.
proof fn lemma_readied_fits(pages: Pages, length: int, alignment: int, bytes: int)
    requires
        pages.wf(),
        0 < length <= pages.block_size,
        0 < alignment,
    ensures
        pages.readied(length, alignment, bytes).wf(),
        pages.readied(length, alignment, bytes).open is Some ==> pages.readied(
            length,
            alignment,
            bytes,
        ).fits(length, alignment),
        pages.readied(length, alignment, bytes).block_size == pages.block_size,
        pages.readied(length, alignment, bytes).block_count == pages.block_count,
{
    if !pages.fits(length, alignment) {
        let next = pages.continued();
        lemma_entries(pages.high_water);
        if next.open is Some {
            lemma_unused_fits(next, length, alignment);
        } else {
            lemma_claimed_unused(next, bytes);
            if next.claimed(bytes).open is Some {
                lemma_unused_fits(next.claimed(bytes), length, alignment);
            }
        }
    }
}

/// A claimed page is unused.
proof fn lemma_claimed_unused(pages: Pages, bytes: int)
    requires
        pages.wf(),
        pages.open is None,
    ensures
        pages.claimed(bytes).wf(),
        pages.claimed(bytes).open matches Some(page) ==> page.used == 0 && page.live == 0,
        pages.claimed(bytes).block_size == pages.block_size,
        pages.claimed(bytes).block_count == pages.block_count,
    decreases pages.block_count - pages.high_water,
{
    lemma_claimed_step(pages, bytes);
    lemma_free_page_is_free(pages.counts.take(pages.high_water));
    lemma_entries(pages.high_water);
    if free_page(pages.counts.take(pages.high_water)) is None && pages.high_water
        < pages.block_count {
        lemma_claimed_unused(pages.grown(bytes), bytes);
    }
}

/// A successful request reserves at least one allocation.
pub proof fn lemma_batch_not_empty(pages: Pages, length: int, alignment: int, maximum: int)
    requires
        pages.wf(),
        0 <= length,
        0 <= maximum,
    ensures
        batch_outcome(pages, length, alignment, maximum).1 matches Ok(batch) ==> 0 < batch.count
            <= maximum,
{
    if batch_outcome(pages, length, alignment, maximum).1 is Ok {
        let stride = round_up(length, alignment);
        let requested = if maximum < MAX_LIVE {
            maximum
        } else {
            MAX_LIVE as int
        };
        lemma_stride(length, alignment, pages.block_size);
        lemma_readied_fits(pages, length, alignment, stride * requested);
        lemma_reserved(
            pages.readied(length, alignment, stride * requested),
            length,
            alignment,
            requested,
        );
    }
}

/// The format page is a power of two.
pub proof fn lemma_page_power()
    ensures
        power_of_two(FORMAT_PAGE_SIZE as int),
{
    reveal_with_fuel(power_of_two, 17);
}

/// Pages of a multiple of the format page fill a multiple of it.
proof fn lemma_multiple_of_page(blocks: int, block_size: int)
    requires
        block_size % FORMAT_PAGE_SIZE as int == 0,
    ensures
        data_length(blocks, block_size) % FORMAT_PAGE_SIZE as int == 0,
{
    let unit = FORMAT_PAGE_SIZE as int;
    vstd::arithmetic::div_mod::lemma_fundamental_div_mod(block_size, unit);
    assert(blocks * block_size + unit == (blocks * (block_size / unit) + 1) * unit)
        by (nonlinear_arith)
        requires
            block_size == unit * (block_size / unit),
    ;
    vstd::arithmetic::div_mod::lemma_mod_multiples_basic(blocks * (block_size / unit) + 1, unit);
}

/// The files grow only where the open page has no room and no page is empty.
pub proof fn law_growth_comes_last(
    pages: Pages,
    live: Map<int, int>,
    length: int,
    alignment: int,
    maximum: int,
    block: int,
)
    requires
        accounts(pages, live),
        0 <= length,
        0 <= maximum,
        0 <= block < pages.high_water,
        batch_outcome(pages, length, alignment, maximum).0.high_water > pages.high_water,
    ensures
        !pages.fits(length, alignment),
        counted(pages, block) != 0,
{
    let next = pages.continued();
    let stride = round_up(length, alignment);
    let requested = if maximum < MAX_LIVE {
        maximum
    } else {
        MAX_LIVE as int
    };
    lemma_entries(pages.high_water);
    lemma_claimed_step(next, stride * requested);
    let used = next.counts.take(next.high_water);
    assert(free_page(used) is None);
    if counted(pages, block) == 0 {
        assert(used[block] == 0);
        assert forall|i: int| 0 <= i < used.len() implies used[i] != CLAIMED by {
            assert(on_page(pages, live, i).len() == counted(pages, i));
        }
        lemma_free_page_found(used, block);
    }
}

/// Whether there is a place for one more allocation: a page that was never used, a
/// page without live allocations, or enough bytes behind those of the open page.
pub open spec fn has_room(pages: Pages, length: int, alignment: int) -> bool {
    ||| pages.high_water < pages.block_count
    ||| exists|block: int| 0 <= block < pages.high_water && #[trigger] counted(pages, block) == 0
    ||| pages.open matches Some(page) && page.live < 65_534 && round_up(
        page.used as int,
        alignment,
    ) + length <= pages.block_size
}

/// An allocation that fits a page is made exactly where there is a place for it.
pub proof fn law_room_is_found(
    pages: Pages,
    live: Map<int, int>,
    length: int,
    alignment: int,
    maximum: int,
)
    requires
        accounts(pages, live),
        0 < length <= pages.block_size,
        power_of_two(alignment),
        alignment <= pages.block_size,
        0 < maximum,
    ensures
        batch_outcome(pages, length, alignment, maximum).1 is Ok <==> has_room(
            pages,
            length,
            alignment,
        ),
        batch_outcome(pages, length, alignment, maximum).1 matches Err(error) ==> error
            == Error::CapacityExhausted("mapped file"),
{
    let stride = round_up(length, alignment);
    let requested = if maximum < MAX_LIVE {
        maximum
    } else {
        MAX_LIVE as int
    };
    let bytes = stride * requested;
    if !pages.fits(length, alignment) {
        let next = pages.continued();
        lemma_continued(pages, live);
        lemma_entries(pages.high_water);
        assert forall|block: int| 0 <= block < pages.high_water && next.open is None implies (
        #[trigger] counted(pages, block)) == next.counts[block] by {}
        if next.open is Some {
            let block = pages.open->0.block + 1;
            assert(counted(pages, block) == 0);
        } else {
            lemma_claimed(next, live, bytes);
            if next.claimed(bytes).open is Some {
                if pages.high_water == pages.block_count {
                    lemma_claimed_step(next, bytes);
                    let used = next.counts.take(next.high_water);
                    lemma_free_page_is_free(used);
                    let block = free_page(used)->0;
                    assert(counted(pages, block) == 0);
                }
            } else if exists|block: int|
                0 <= block < pages.high_water && #[trigger] counted(pages, block) == 0 {
                let block = choose|block: int|
                    0 <= block < pages.high_water && #[trigger] counted(pages, block) == 0;
                assert(next.counts[block] == 0);
            }
        }
    }
}

/// A batch takes as many allocations from its page as were asked for, if the page has
/// room for them: where it took fewer, the page has no room for another one.
pub proof fn law_batch_fills_its_page(
    pages: Pages,
    live: Map<int, int>,
    length: int,
    alignment: int,
    maximum: int,
)
    requires
        accounts(pages, live),
        0 < length,
        0 < maximum,
        batch_outcome(pages, length, alignment, maximum).1 is Ok,
    ensures
        ({
            let (after, result) = batch_outcome(pages, length, alignment, maximum);
            let batch = result->Ok_0;
            let page = after.open->0;
            &&& after.open is Some
            &&& 0 < batch.count <= maximum
            &&& batch.count < maximum ==> batch.count == 65_534 || page.live == 65_534 || page.used
                + (batch.stride - length) + length > pages.block_size
            &&& batch.length == length
            &&& length <= batch.stride < length + alignment
            &&& batch.stride as int % alignment == 0
            &&& (batch.offset - DATA_START) as int % alignment == 0
            &&& batch.offset + (batch.count - 1) * batch.stride + length == DATA_START + page.block
                * pages.block_size + page.used
        }),
{
    let stride = round_up(length, alignment);
    let requested = if maximum < MAX_LIVE {
        maximum
    } else {
        MAX_LIVE as int
    };
    let ready = pages.readied(length, alignment, stride * requested);
    lemma_stride(length, alignment, pages.block_size);
    lemma_readied_fits(pages, length, alignment, stride * requested);
    lemma_reserved(ready, length, alignment, requested);
    let page = ready.open->0;
    let start = round_up(page.used as int, alignment);
    let count = ready.reserved(length, alignment, requested);
    let room = pages.block_size - (start + length);
    lemma_round_up(length, alignment);
    lemma_round_up(page.used as int, alignment);
    vstd::arithmetic::mul::lemma_mul_upper_bound(
        page.block as int,
        u32::MAX as int,
        ready.block_size,
        u32::MAX as int,
    );
    vstd::arithmetic::mul::lemma_mul_nonnegative(page.block as int, ready.block_size);
    assert(ready.page_start(page.block as int) + start <= u64::MAX);
    vstd::arithmetic::div_mod::lemma_fundamental_div_mod(room, stride);
    vstd::arithmetic::div_mod::lemma_mod_bound(room, stride);
    if count == 1 + room / stride {
        assert((count - 1) * stride == stride * (room / stride)) by (nonlinear_arith)
            requires
                count == 1 + room / stride,
        ;
    }
    lemma_pages_aligned(ready.block_size, alignment);
    let turns = ready.block_size / alignment;
    vstd::arithmetic::div_mod::lemma_fundamental_div_mod(start, alignment);
    vstd::arithmetic::mul::lemma_mul_is_commutative(alignment, start / alignment);
    assert((page.block * ready.block_size + start) % alignment == 0) by {
        assert(page.block * ready.block_size + start == (page.block * turns + start / alignment)
            * alignment) by (nonlinear_arith)
            requires
                ready.block_size == turns * alignment,
                start == start / alignment * alignment,
        ;
        vstd::arithmetic::div_mod::lemma_mod_multiples_basic(
            page.block * turns + start / alignment,
            alignment,
        );
    }
}

/// A smaller power of two divides a larger one.
proof fn lemma_pages_aligned(large: int, small: int)
    requires
        power_of_two(large),
        power_of_two(small),
        small <= large,
    ensures
        large / small * small == large,
    decreases large,
{
    if small > 1 {
        lemma_pages_aligned(large / 2, small / 2);
        let turns = (large / 2) / (small / 2);
        assert(large == turns * small) by (nonlinear_arith)
            requires
                turns * (small / 2) == large / 2,
                large % 2 == 0,
                small % 2 == 0,
        ;
        vstd::arithmetic::div_mod::lemma_div_by_multiple(turns, small);
    }
}

} // verus!

//! Page allocation.

use floresta_db::allocator::{
    longest_zero_run, read_high_water, zero_mask_16, AllocatorFiles, BlockAllocator, COUNTS_START,
};
use floresta_db::Error;

#[test]
fn reserves_largest_fitting_batch_and_reuses_zero_page() -> Result<(), Error> {
    let mut allocator = BlockAllocator::create(64 * 1_024 * 2, 64 * 1_024)?;
    let batch = allocator.allocate_batch(32, 32, 3_000)?;
    assert_eq!(batch.len(), 2_048);
    let allocations = batch.allocations();
    for allocation in allocations {
        allocator.release(allocation)?;
    }
    allocator.seal_current();
    let reused = allocator.allocate(32, 32)?;
    assert_eq!(reused.block, 0);
    allocator.release(reused)?;
    Ok(())
}

#[test]
fn grows_by_requested_batch_extent() -> Result<(), Error> {
    let mut allocator = BlockAllocator::create(64 * 1_024 * 4, 64 * 1_024)?;
    let allocation = allocator.allocate_batch(32, 32, 4_096)?;
    assert_eq!(allocation.len(), 2_048);
    assert_eq!(read_high_water(allocator.count_file())?, 2);
    Ok(())
}

#[test]
fn consumes_contiguous_zero_run_after_first_cas() -> Result<(), Error> {
    let mut allocator = BlockAllocator::create(64 * 1_024 * 4, 64 * 1_024)?;

    let first = allocator.allocate_batch(32, 32, 6_144)?;
    assert_eq!(first.block, 0);
    assert_eq!(allocator.read_count(0)?, u16::MAX);
    assert_eq!(allocator.read_count(1)?, 0);
    assert_eq!(allocator.read_count(2)?, 0);

    let second = allocator.allocate_batch(32, 32, 6_144)?;
    assert_eq!(second.block, 1);
    assert_eq!(allocator.read_count(0)?, 2_048);
    assert_eq!(allocator.read_count(1)?, u16::MAX);
    assert_eq!(allocator.read_count(2)?, 0);

    let third = allocator.allocate_batch(32, 32, 6_144)?;
    assert_eq!(third.block, 2);
    assert_eq!(allocator.read_count(1)?, 2_048);
    assert_eq!(allocator.read_count(2)?, u16::MAX);
    assert_eq!(read_high_water(allocator.count_file())?, 3);
    Ok(())
}

#[test]
fn skips_zero_tail_after_claimed_page() -> Result<(), Error> {
    let mut allocator = BlockAllocator::create(64 * 1_024 * 6, 64 * 1_024)?;
    let first = allocator.allocate_batch(32, 32, 12_288)?;
    assert_eq!(first.block, 0);
    assert_eq!(read_high_water(allocator.count_file())?, 6);

    let start = COUNTS_START as usize;
    let mut counts = allocator.count_file()[start..start + 12].to_vec();
    counts[6..8].copy_from_slice(&1_u16.to_le_bytes());
    assert_eq!(longest_zero_run(&counts), Some(4));
    Ok(())
}

#[test]
fn clean_reopen_preserves_sixteen_bit_counts() -> Result<(), Error> {
    let mut allocator = BlockAllocator::create(64 * 1_024 * 2, 64 * 1_024)?;
    let allocation = allocator.allocate(64, 8)?;
    let files = allocator.into_files();

    let mut allocator = BlockAllocator::open(files, 64 * 1_024 * 2, 64 * 1_024)?;
    allocator.release(allocation)?;
    let reused = allocator.allocate(64, 8)?;
    assert_eq!(reused.block, allocation.block);
    allocator.release(reused)?;
    Ok(())
}

#[test]
fn concurrent_reservations_do_not_overlap() -> Result<(), Error> {
    let mut allocator = BlockAllocator::create(64 * 1_024 * 8, 64 * 1_024)?;
    let mut offsets = Vec::new();
    for _round in 0..256 {
        for _worker in 0..8 {
            offsets.push(allocator.allocate(32, 32)?.offset);
        }
    }
    offsets.sort_unstable();
    offsets.dedup();
    assert_eq!(offsets.len(), 8 * 256);
    Ok(())
}

#[test]
fn simd_zero_mask_finds_zero_lanes() {
    let mut values = [1_u16; 16];
    values[0] = 0;
    values[7] = 0;
    values[15] = 0;
    let bytes: Vec<u8> = values
        .iter()
        .flat_map(|value| value.to_le_bytes())
        .collect();
    assert_eq!(zero_mask_16(&bytes), 1 | 1 << 7 | 1 << 15);
}

#[test]
fn exhausts_its_capacity() -> Result<(), Error> {
    let mut allocator = BlockAllocator::create(64 * 1_024, 64 * 1_024)?;
    for _page in 0..2_048 {
        allocator.allocate(32, 32)?;
    }
    assert!(matches!(
        allocator.allocate(32, 32),
        Err(Error::CapacityExhausted(_))
    ));
    Ok(())
}

#[test]
fn refuses_to_release_what_is_not_live() -> Result<(), Error> {
    let mut allocator = BlockAllocator::create(64 * 1_024 * 2, 64 * 1_024)?;
    let allocation = allocator.allocate(32, 32)?;
    allocator.release(allocation)?;
    allocator.seal_current();
    assert!(matches!(
        allocator.release(allocation),
        Err(Error::Corrupt(_))
    ));
    Ok(())
}

#[test]
fn reads_back_what_was_written() -> Result<(), Error> {
    let mut allocator = BlockAllocator::create(64 * 1_024 * 2, 64 * 1_024)?;
    let allocation = allocator.allocate(64, 8)?;
    allocator.write(allocation, b"first")?;
    allocator.write_at(allocation, 5, b" and second")?;
    assert_eq!(allocator.read(allocation.offset, 16)?, b"first and second");
    assert!(matches!(
        allocator.write_at(allocation, 60, b"too long"),
        Err(Error::Corrupt(_))
    ));
    allocator.store_u64(allocation.offset, 7)?;
    assert_eq!(allocator.load_u64(allocation.offset)?, 7);
    Ok(())
}

#[test]
fn open_rejects_short_files() {
    let files = AllocatorFiles {
        data: Vec::new(),
        counts: Vec::new(),
    };
    assert!(BlockAllocator::open(files, 64 * 1_024, 64 * 1_024).is_err());
}

#[test]
fn released_pages_can_be_recycled() -> Result<(), Error> {
    let mut allocator = BlockAllocator::create(64 * 1_024 * 4, 64 * 1_024)?;
    let first = allocator.allocate_batch(32, 32, 4_096)?;
    let second = allocator.allocate_batch(32, 32, 2_048)?;
    assert_eq!((first.block, second.block), (0, 1));
    assert_eq!(allocator.recycle_empty_blocks(), 0);
    for allocation in first.allocations() {
        allocator.release(allocation)?;
    }
    assert_eq!(allocator.recycle_empty_blocks(), 1);
    Ok(())
}

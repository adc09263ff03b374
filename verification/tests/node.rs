//! Nodes in a body file.

use floresta_db::allocator::BlockAllocator;
use floresta_db::layout::NODE_POINTER_OFFSET;
use floresta_db::node::{allocate_node, read_next, read_node, set_private_next};
use floresta_db::Error;

#[test]
fn round_trips_packed_node_and_updates_pointer() -> Result<(), Error> {
    let mut allocator = BlockAllocator::create(64 * 1_024, 64 * 1_024)?;
    let key = *b"0123456789abcdef";
    let allocation = allocate_node(&mut allocator, &key, 42)?;
    assert_eq!(allocation.offset % 32, 0);
    set_private_next(&mut allocator, allocation.offset, 0, allocation.offset)?;
    let node = read_node(&allocator, allocation.offset)?;
    assert_eq!(node.key, key);
    assert_eq!(node.value, 42);
    assert_eq!(node.next, allocation.offset);
    assert_eq!(read_next(&allocator, allocation.offset)?, allocation.offset);
    allocator.release(allocation)?;
    Ok(())
}

#[test]
fn detects_static_node_corruption() -> Result<(), Error> {
    let mut allocator = BlockAllocator::create(64 * 1_024, 64 * 1_024)?;
    let allocation = allocate_node(&mut allocator, b"0123456789abcdef", 7)?;
    allocator.write_at(allocation, 0, &[1])?;
    assert!(matches!(
        read_node(&allocator, allocation.offset),
        Err(Error::Corrupt(_))
    ));
    allocator.release(allocation)?;
    Ok(())
}

#[test]
fn a_node_without_a_pointer_word_is_no_node() -> Result<(), Error> {
    let mut allocator = BlockAllocator::create(64 * 1_024, 64 * 1_024)?;
    let allocation = allocate_node(&mut allocator, b"0123456789abcdef", 7)?;
    assert_eq!(read_node(&allocator, allocation.offset)?.next, 0);
    allocator.write_at(allocation, NODE_POINTER_OFFSET, &[0; 8])?;
    assert!(matches!(
        read_node(&allocator, allocation.offset),
        Err(Error::Corrupt(_))
    ));
    Ok(())
}

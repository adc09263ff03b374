//! Serialization and validation of 32-byte bucket-chain nodes.
//!
//! Every node contains a 16-byte key, one tagged 64-bit value, and one packed
//! pointer. The pointer's upper 16 bits hold the checksum of key and value, its
//! lower 48 bits the next-node offset.

use vstd::prelude::*;

use crate::allocator::{Allocation, BlockAllocator};
#[allow(unused_imports)]
use crate::allocator::{
    after_request, batch_outcome, lemma_batch_extent, lemma_batch_not_empty, read_defect,
    word_access_defect, write_defect, Files,
};
#[allow(unused_imports)]
use crate::bytes::{le32, le32_bytes, le64, le64_bytes, lemma_le_fields, lemma_same_fields, patched};
use crate::bytes::{push_le32, push_le64, read_le32, read_le64};
use crate::config::KEY_SIZE;
use crate::error::Error;
use crate::hash::{rotate_left, xxh64};
#[allow(unused_imports)]
use crate::hash::{digest, rotated};
use crate::layout::{
    BLOB_CHECKSUM_SEED, BLOB_HEADER_SIZE, NODE_ALIGNMENT, NODE_CHECKSUM_SEED, NODE_POINTER_LIMIT,
    NODE_POINTER_OFFSET, NODE_SIZE, NODE_VALUE_OFFSET,
};

verus! {

/// A node as it stands in the body file.
#[derive(Clone, Copy, Debug)]
pub struct Node {
    /// Offset of the node.
    pub offset: u64,
    /// Offset of the next node of its chain, or zero.
    pub next: u64,
    /// Tagged value word.
    pub value: u64,
    /// Key.
    pub key: [u8; 16],
}

/// The checksum that a node with this key and value word carries.
#[verifier::opaque]
pub open spec fn node_checksum_of(key: Seq<u8>, value: u64) -> u16 {
    let checksum = digest(key, NODE_CHECKSUM_SEED) ^ rotated(value, 29);
    let folded = checksum ^ (checksum >> 16) ^ (checksum >> 32) ^ (checksum >> 48);
    if folded % 0x1_0000 == 0 {
        1
    } else {
        (folded % 0x1_0000) as u16
    }
}

/// The bytes of a node.
pub open spec fn node_bytes(key: Seq<u8>, value: u64, next: u64) -> Seq<u8> {
    key + le64_bytes(value) + le64_bytes(
        (node_checksum_of(key, value) * NODE_POINTER_LIMIT + next) as u64,
    )
}

/// Key of the node at `offset`.
pub open spec fn key_at(data: Seq<u8>, offset: int) -> Seq<u8> {
    data.subrange(offset, offset + KEY_SIZE)
}

/// Value word of the node at `offset`.
pub open spec fn value_at(data: Seq<u8>, offset: int) -> u64 {
    le64(data, offset + NODE_VALUE_OFFSET)
}

/// Pointer word of the node at `offset`.
pub open spec fn pointer_at(data: Seq<u8>, offset: int) -> u64 {
    le64(data, offset + NODE_POINTER_OFFSET)
}

/// Next-node offset of the node at `offset`.
pub open spec fn next_at(data: Seq<u8>, offset: int) -> u64 {
    pointer_at(data, offset) % NODE_POINTER_LIMIT
}

/// Why there is no node at `offset`, if there is none.
pub open spec fn node_defect(capacity: int, data: Seq<u8>, offset: int) -> Option<Error> {
    if offset == 0 {
        Some(Error::Corrupt("body node offset is null"))
    } else if offset % NODE_ALIGNMENT as int != 0 {
        Some(Error::Corrupt("body node offset is not cache-line aligned"))
    } else if read_defect(capacity, data.len() as int, offset, NODE_SIZE as int) is Some {
        read_defect(capacity, data.len() as int, offset, NODE_SIZE as int)
    } else if pointer_at(data, offset) / NODE_POINTER_LIMIT != node_checksum_of(
        key_at(data, offset),
        value_at(data, offset),
    ) {
        Some(Error::Corrupt("body node checksum does not match"))
    } else {
        None
    }
}

/// No node carries a zero checksum.
pub proof fn law_checksum_is_nonzero(key: Seq<u8>, value: u64)
    ensures
        node_checksum_of(key, value) != 0,
{
    reveal(node_checksum_of);
}

/// Where the pointer word of a node was cleared there is no node any more, whatever
/// its other bytes are.
pub proof fn law_tombstone_is_no_node(capacity: int, data: Seq<u8>, offset: int)
    requires
        0 <= offset,
        offset + NODE_SIZE <= data.len(),
    ensures
        node_defect(
            capacity,
            patched(data, offset + NODE_POINTER_OFFSET, le64_bytes(0)),
            offset,
        ) is Some,
{
    let after = patched(data, offset + NODE_POINTER_OFFSET, le64_bytes(0));
    lemma_le_fields();
    lemma_same_fields(after, offset + NODE_POINTER_OFFSET, le64_bytes(0), 0, 8);
    law_checksum_is_nonzero(key_at(after, offset), value_at(after, offset));
}

/// The checksum of a blob value.
pub open spec fn blob_checksum_of(value: Seq<u8>) -> u32 {
    (digest(value, BLOB_CHECKSUM_SEED) % 0x1_0000_0000) as u32
}

/// The bytes in front of a blob value.
pub open spec fn blob_header_of(value: Seq<u8>) -> Seq<u8> {
    le32_bytes(value.len() as u32) + le32_bytes(blob_checksum_of(value))
}

/// Computes the checksum of a node.
fn node_checksum(key: &[u8], value: u64) -> (checksum: u16)
    ensures
        checksum == node_checksum_of(key@, value),
{
    reveal(node_checksum_of);
    let checksum: u64 = xxh64(key, NODE_CHECKSUM_SEED) ^ rotate_left(value, 29);
    let folded: u64 = checksum ^ (checksum >> 16) ^ (checksum >> 32) ^ (checksum >> 48);
    let low: u64 = folded % 0x1_0000;
    if low == 0 {
        1
    } else {
        low as u16
    }
}

/// The bytes of a node that no other follows.
fn serialize_node(key: &[u8], value: u64) -> (result: Result<Vec<u8>, Error>)
    ensures
        match result {
            Ok(bytes) => key@.len() == KEY_SIZE && bytes@ == node_bytes(key@, value, 0)
                && bytes@.len() == NODE_SIZE,
            Err(error) => key@.len() != KEY_SIZE && error == (Error::InvalidKeyLength {
                expected: KEY_SIZE,
                actual: key@.len() as usize,
            }),
        },
{
    if key.len() != KEY_SIZE {
        return Err(Error::InvalidKeyLength { expected: KEY_SIZE, actual: key.len() });
    }
    proof {
        lemma_le_fields();
    }
    let mut bytes: Vec<u8> = vstd::slice::slice_to_vec(key);
    push_le64(&mut bytes, value);
    push_le64(&mut bytes, node_checksum(key, value) as u64 * NODE_POINTER_LIMIT);
    assert(bytes@ =~= node_bytes(key@, value, 0));
    Ok(bytes)
}

/// The 16 bytes of `bytes` from `at` on.
fn key_array(bytes: &[u8], at: usize) -> (key: [u8; 16])
    requires
        at + 16 <= bytes.len(),
    ensures
        key@ == bytes@.subrange(at as int, at + 16),
{
    let key = [
        bytes[at],
        bytes[at + 1],
        bytes[at + 2],
        bytes[at + 3],
        bytes[at + 4],
        bytes[at + 5],
        bytes[at + 6],
        bytes[at + 7],
        bytes[at + 8],
        bytes[at + 9],
        bytes[at + 10],
        bytes[at + 11],
        bytes[at + 12],
        bytes[at + 13],
        bytes[at + 14],
        bytes[at + 15],
    ];
    assert(key@ =~= bytes@.subrange(at as int, at + 16));
    key
}

/// Reads and checks the node at `offset`.
pub fn read_node(body: &BlockAllocator, offset: u64) -> (result: Result<Node, Error>)
    requires
        body.wf(),
    ensures
        match result {
            Ok(node) => {
                &&& node_defect(body.capacity(), body.data(), offset as int) is None
                &&& node.offset == offset
                &&& node.next == next_at(body.data(), offset as int)
                &&& node.value == value_at(body.data(), offset as int)
                &&& node.key@ == key_at(body.data(), offset as int)
            },
            Err(error) => node_defect(body.capacity(), body.data(), offset as int) == Some(error),
        },
{
    if offset == 0 {
        return Err(Error::Corrupt("body node offset is null"));
    }
    if offset % NODE_ALIGNMENT != 0 {
        return Err(Error::Corrupt("body node offset is not cache-line aligned"));
    }
    let bytes = body.read(offset, NODE_SIZE)?;
    let key = key_array(bytes.as_slice(), 0);
    let value: u64 = read_le64(bytes.as_slice(), NODE_VALUE_OFFSET);
    let pointer: u64 = read_le64(bytes.as_slice(), NODE_POINTER_OFFSET);
    proof {
        let data = body.data();
        let at = offset as int;
        lemma_same_fields(bytes@, NODE_VALUE_OFFSET as int, data, at + NODE_VALUE_OFFSET, 8);
        lemma_same_fields(bytes@, NODE_POINTER_OFFSET as int, data, at + NODE_POINTER_OFFSET, 8);
        assert(key@ =~= key_at(data, at));
    }
    if pointer / NODE_POINTER_LIMIT != node_checksum(key.as_slice(), value) as u64 {
        return Err(Error::Corrupt("body node checksum does not match"));
    }
    Ok(Node { offset, next: pointer % NODE_POINTER_LIMIT, value, key })
}

/// Reads the next-node offset of the node at `offset`.
pub fn read_next(body: &BlockAllocator, offset: u64) -> (result: Result<u64, Error>)
    requires
        body.wf(),
        offset + NODE_POINTER_OFFSET <= u64::MAX,
    ensures
        match result {
            Ok(next) => read_defect(
                body.capacity(),
                body.data().len() as int,
                offset + NODE_POINTER_OFFSET,
                8,
            ) is None && next == next_at(body.data(), offset as int),
            Err(error) => read_defect(
                body.capacity(),
                body.data().len() as int,
                offset + NODE_POINTER_OFFSET,
                8,
            ) == Some(error),
        },
{
    let bytes = body.read(offset + NODE_POINTER_OFFSET as u64, 8)?;
    proof {
        lemma_same_fields(bytes@, 0, body.data(), offset + NODE_POINTER_OFFSET, 8);
    }
    Ok(read_le64(bytes.as_slice(), 0) % NODE_POINTER_LIMIT)
}

/// Writes a node into an allocation of the body file.
pub fn write_node(
    body: &mut BlockAllocator,
    allocation: Allocation,
    key: &[u8],
    value: u64,
) -> (result: Result<(), Error>)
    requires
        old(body).wf(),
    ensures
        final(body).wf(),
        final(body).pages() == old(body).pages(),
        match write_node_defect(old(body).data().len() as int, allocation, key@) {
            Some(error) => result == Err::<(), Error>(error) && final(body).data() == old(
                body,
            ).data(),
            None => result == Ok::<(), Error>(()) && final(body).data() == patched(
                old(body).data(),
                allocation.offset as int,
                node_bytes(key@, value, 0),
            ),
        },
{
    let bytes = serialize_node(key, value)?;
    body.write(allocation, bytes.as_slice())
}

/// Why a node cannot be written into an allocation, if it cannot.
pub open spec fn write_node_defect(
    file_length: int,
    allocation: Allocation,
    key: Seq<u8>,
) -> Option<Error> {
    if key.len() != KEY_SIZE {
        Some(Error::InvalidKeyLength { expected: KEY_SIZE, actual: key.len() as usize })
    } else {
        write_defect(file_length, allocation, 0, NODE_SIZE as int)
    }
}

/// Clears the pointer word of the node at `offset`, so that it is no node any more.
pub fn tombstone_node(body: &mut BlockAllocator, offset: u64) -> (result: Result<(), Error>)
    requires
        old(body).wf(),
        offset + NODE_POINTER_OFFSET <= u64::MAX,
    ensures
        final(body).wf(),
        final(body).pages() == old(body).pages(),
        match word_access_defect(
            old(body).capacity(),
            old(body).data().len() as int,
            offset + NODE_POINTER_OFFSET,
        ) {
            Some(error) => result == Err::<(), Error>(error) && final(body).data() == old(
                body,
            ).data(),
            None => result == Ok::<(), Error>(()) && final(body).data() == patched(
                old(body).data(),
                offset + NODE_POINTER_OFFSET,
                le64_bytes(0),
            ),
        },
{
    body.store_u64(offset + NODE_POINTER_OFFSET as u64, 0)
}

/// Why the next-node offset of a node cannot be replaced, if it cannot.
pub open spec fn set_next_defect(
    capacity: int,
    data: Seq<u8>,
    node: int,
    expected: int,
    replacement: int,
) -> Option<Error> {
    if expected >= NODE_POINTER_LIMIT || replacement >= NODE_POINTER_LIMIT {
        Some(Error::CapacityExhausted("packed node pointer"))
    } else {
        word_access_defect(capacity, data.len() as int, node + NODE_POINTER_OFFSET)
    }
}

/// The data file after the next-node offset of a node was replaced.
pub open spec fn with_next(data: Seq<u8>, node: int, replacement: u64) -> Seq<u8> {
    patched(
        data,
        node + NODE_POINTER_OFFSET,
        le64_bytes((pointer_at(data, node) - next_at(data, node) + replacement) as u64),
    )
}

/// Replaces the next-node offset of a node where it is still `expected`; tells
/// whether it was.
pub fn compare_exchange_next(
    body: &mut BlockAllocator,
    node: u64,
    expected: u64,
    replacement: u64,
) -> (result: Result<bool, Error>)
    requires
        old(body).wf(),
        node + NODE_POINTER_OFFSET <= u64::MAX,
    ensures
        final(body).wf(),
        final(body).pages() == old(body).pages(),
        match set_next_defect(
            old(body).capacity(),
            old(body).data(),
            node as int,
            expected as int,
            replacement as int,
        ) {
            Some(error) => result == Err::<bool, Error>(error) && final(body).data() == old(
                body,
            ).data(),
            None => {
                let matches = next_at(old(body).data(), node as int) == expected;
                &&& result == Ok::<bool, Error>(matches)
                &&& final(body).data() == (if matches {
                    with_next(old(body).data(), node as int, replacement)
                } else {
                    old(body).data()
                })
            },
        },
{
    if expected >= NODE_POINTER_LIMIT || replacement >= NODE_POINTER_LIMIT {
        return Err(Error::CapacityExhausted("packed node pointer"));
    }
    let observed: u64 = body.load_u64(node + NODE_POINTER_OFFSET as u64)?;
    let next: u64 = observed % NODE_POINTER_LIMIT;
    if next != expected {
        return Ok(false);
    }
    body.store_u64(node + NODE_POINTER_OFFSET as u64, observed - next + replacement)?;
    Ok(true)
}

/// Replaces the next-node offset of a node that no chain holds yet.
pub fn set_private_next(
    body: &mut BlockAllocator,
    node: u64,
    expected: u64,
    replacement: u64,
) -> (result: Result<(), Error>)
    requires
        old(body).wf(),
        node + NODE_POINTER_OFFSET <= u64::MAX,
    ensures
        final(body).wf(),
        final(body).pages() == old(body).pages(),
        match set_next_defect(
            old(body).capacity(),
            old(body).data(),
            node as int,
            expected as int,
            replacement as int,
        ) {
            Some(error) => result == Err::<(), Error>(error) && final(body).data() == old(
                body,
            ).data(),
            None => if next_at(old(body).data(), node as int) == expected {
                result == Ok::<(), Error>(()) && final(body).data() == with_next(
                    old(body).data(),
                    node as int,
                    replacement,
                )
            } else {
                result == Err::<(), Error>(
                    Error::Corrupt("private body node next pointer changed"),
                ) && final(body).data() == old(body).data()
            },
        },
{
    if compare_exchange_next(body, node, expected, replacement)? {
        Ok(())
    } else {
        Err(Error::Corrupt("private body node next pointer changed"))
    }
}

/// Computes the checksum of a blob value.
pub fn blob_checksum(value: &[u8]) -> (checksum: u32)
    ensures
        checksum == blob_checksum_of(value@),
{
    (xxh64(value, BLOB_CHECKSUM_SEED) % 0x1_0000_0000) as u32
}

/// The bytes in front of a blob value.
pub fn blob_header(value: &[u8]) -> (result: Result<Vec<u8>, Error>)
    ensures
        match result {
            Ok(header) => value@.len() <= u32::MAX && header@ == blob_header_of(value@)
                && header@.len() == BLOB_HEADER_SIZE,
            Err(error) => value@.len() > u32::MAX && error == Error::CapacityExhausted(
                "blob length",
            ),
        },
{
    if value.len() as u64 > u32::MAX as u64 {
        return Err(Error::CapacityExhausted("blob length"));
    }
    proof {
        lemma_le_fields();
    }
    let mut header: Vec<u8> = Vec::new();
    push_le32(&mut header, value.len() as u32);
    push_le32(&mut header, blob_checksum(value));
    assert(header@ =~= blob_header_of(value@));
    Ok(header)
}

/// Length and checksum that a blob header tells.
pub fn decode_blob_header(bytes: &[u8]) -> (header: (u32, u32))
    requires
        bytes.len() == BLOB_HEADER_SIZE,
    ensures
        header.0 == le32(bytes@, 0),
        header.1 == le32(bytes@, 4),
{
    (read_le32(bytes, 0), read_le32(bytes, 4))
}

/// A new node for `key` and `value` taken from the body, and its allocation.
pub open spec fn node_request(body: Files, key: Seq<u8>, value: u64) -> (
    Files,
    Result<Allocation, Error>,
) {
    if key.len() != KEY_SIZE {
        (body, Err(Error::InvalidKeyLength { expected: KEY_SIZE, actual: key.len() as usize }))
    } else {
        let taken = after_request(body, NODE_SIZE as int, NODE_ALIGNMENT as int, 1);
        match batch_outcome(body.pages, NODE_SIZE as int, NODE_ALIGNMENT as int, 1).1 {
            Ok(batch) => (
                Files {
                    data: patched(
                        taken.data,
                        batch.spec_nth(0).offset as int,
                        node_bytes(key, value, 0),
                    ),
                    ..taken
                },
                Ok(batch.spec_nth(0)),
            ),
            Err(error) => (taken, Err(error)),
        }
    }
}

/// Takes a node from the body and writes key and value into it.
pub fn allocate_node(body: &mut BlockAllocator, key: &[u8], value: u64) -> (result: Result<
    Allocation,
    Error,
>)
    requires
        old(body).wf(),
    ensures
        final(body).wf(),
        (final(body).files(), result) == node_request(old(body).files(), key@, value),
{
    let bytes = serialize_node(key, value)?;
    proof {
        let pages = old(body).pages();
        if batch_outcome(pages, NODE_SIZE as int, NODE_ALIGNMENT as int, 1).1 is Ok {
            lemma_batch_not_empty(pages, NODE_SIZE as int, NODE_ALIGNMENT as int, 1);
            lemma_batch_extent(pages, NODE_SIZE as int, NODE_ALIGNMENT as int, 1, 0);
        }
    }
    let allocation = body.allocate(NODE_SIZE, NODE_ALIGNMENT)?;
    match body.write(allocation, bytes.as_slice()) {
        Ok(_) => Ok(allocation),
        Err(error) => {
            let _released = body.release(allocation);
            Err(error)
        },
    }
}

} // verus!

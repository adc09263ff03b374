//! Value words and blobs.
//!
//! An eight-byte value whose top bit is clear stands in the node itself. Every
//! other value is a blob: length, checksum, and the bytes of the value.

use vstd::prelude::*;

use crate::allocator::{Allocation, BlockAllocator};
#[allow(unused_imports)]
use crate::allocator::{
    after_request, batch_outcome, extent_defect, lemma_batch_extent, lemma_batch_not_empty,
    read_defect, Files,
};
use crate::bytes::{encode_le64, read_le64};
#[allow(unused_imports)]
use crate::bytes::{le32, le64, le64_bytes, lemma_le64_bytes, lemma_same_fields, patched};
use crate::config::Mode;
use crate::error::Error;
use crate::layout::{BLOB_HEADER_SIZE, VALUE_BLOB_TAG};
use crate::node::{blob_checksum, blob_header, decode_blob_header};
#[allow(unused_imports)]
use crate::node::{blob_checksum_of, blob_header_of};
#[allow(unused_imports)]
use crate::storage::{blob_extent, blob_value, valid_blob};

verus! {

/// The word that stands for `value` in a node, if it fits one.
pub open spec fn inline_word(value: Seq<u8>) -> Option<u64> {
    if value.len() == 8 && le64(value, 0) < VALUE_BLOB_TAG {
        Some(le64(value, 0))
    } else {
        None
    }
}

/// The word that stands for `value` in a node, if it fits one.
pub fn inline_value_word(value: &[u8]) -> (word: Option<u64>)
    ensures
        word == inline_word(value@),
{
    if value.len() != 8 {
        return None;
    }
    let word: u64 = read_le64(value, 0);
    if word < VALUE_BLOB_TAG {
        Some(word)
    } else {
        None
    }
}

/// A value that fits a word is the bytes of that word.
pub proof fn lemma_inline_word(value: Seq<u8>)
    ensures
        inline_word(value) matches Some(word) ==> le64_bytes(word) == value,
{
    if inline_word(value) is Some {
        lemma_le64_bytes(value, 0);
        assert(value.subrange(0, 8) =~= value);
    }
}

/// Why no value can be read from the blob at `offset`, if none can; `mismatch` names
/// a wrong checksum.
pub open spec fn checked_blob_defect(blobs: Files, offset: int, mismatch: &'static str) -> Option<
    Error,
> {
    let length = le32(blobs.data, offset) as int;
    let start = offset + BLOB_HEADER_SIZE;
    let (capacity, file_length) = (blobs.capacity(), blobs.data.len() as int);
    if read_defect(capacity, file_length, offset, BLOB_HEADER_SIZE as int) is Some {
        read_defect(capacity, file_length, offset, BLOB_HEADER_SIZE as int)
    } else if read_defect(capacity, file_length, start, length) is Some {
        read_defect(capacity, file_length, start, length)
    } else if le32(blobs.data, offset + 4) != blob_checksum_of(blob_value(blobs, offset)) {
        Some(Error::Corrupt(mismatch))
    } else {
        None
    }
}

/// Why no map value can be read from the blob at `offset`, if none can.
pub open spec fn blob_read_defect(blobs: Files, offset: int) -> Option<Error> {
    checked_blob_defect(blobs, offset, "map value checksum does not match")
}

/// Reads and checks the value of the blob at `offset`.
pub fn read_checked_blob(blobs: &BlockAllocator, offset: u64, mismatch: &'static str) -> (result:
    Result<Vec<u8>, Error>)
    requires
        blobs.wf(),
    ensures
        match result {
            Ok(value) => checked_blob_defect(blobs.files(), offset as int, mismatch) is None
                && value@ == blob_value(blobs.files(), offset as int),
            Err(error) => checked_blob_defect(blobs.files(), offset as int, mismatch) == Some(
                error,
            ),
        },
{
    let header = blobs.read(offset, BLOB_HEADER_SIZE)?;
    let (length, expected_checksum) = decode_blob_header(header.as_slice());
    proof {
        lemma_same_fields(header@, 0, blobs.data(), offset as int, 4);
        lemma_same_fields(header@, 4, blobs.data(), offset + 4, 4);
    }
    let value = blobs.read(offset + BLOB_HEADER_SIZE as u64, length as usize)?;
    if blob_checksum(value.as_slice()) != expected_checksum {
        return Err(Error::Corrupt(mismatch));
    }
    Ok(value)
}

/// Reads the map value of the blob at `offset`.
pub fn read_blob(blobs: &BlockAllocator, offset: u64) -> (result: Result<Vec<u8>, Error>)
    requires
        blobs.wf(),
    ensures
        match result {
            Ok(value) => blob_read_defect(blobs.files(), offset as int) is None && value@
                == blob_value(blobs.files(), offset as int),
            Err(error) => blob_read_defect(blobs.files(), offset as int) == Some(error),
        },
{
    read_checked_blob(blobs, offset, "map value checksum does not match")
}

/// A valid blob can be read.
pub proof fn lemma_valid_blob_reads(blobs: Files, offset: int)
    requires
        blobs.wf(),
        0 <= offset,
        valid_blob(blobs, offset),
    ensures
        blob_read_defect(blobs, offset) is None,
        forall|mismatch: &'static str| #[trigger]
            checked_blob_defect(blobs, offset, mismatch) is None,
{
}

/// A value stored as a blob of its own, and its allocation.
pub open spec fn blob_request(blobs: Files, value: Seq<u8>) -> (Files, Result<Allocation, Error>) {
    let length = BLOB_HEADER_SIZE + value.len();
    let taken = after_request(blobs, length, 8, 1);
    if length > usize::MAX {
        (blobs, Err(Error::CapacityExhausted("blob length")))
    } else {
        match batch_outcome(blobs.pages, length, 8, 1).1 {
            Ok(batch) => {
                let offset = batch.spec_nth(0).offset as int;
                (
                    Files {
                        data: patched(
                            patched(taken.data, offset, blob_header_of(value)),
                            offset + BLOB_HEADER_SIZE,
                            value,
                        ),
                        ..taken
                    },
                    Ok(batch.spec_nth(0)),
                )
            },
            Err(error) => (taken, Err(error)),
        }
    }
}

/// Stores `value` as a blob.
pub fn store_blob(blobs: &mut BlockAllocator, value: &[u8]) -> (result: Result<Allocation, Error>)
    requires
        old(blobs).wf(),
    ensures
        final(blobs).wf(),
        (final(blobs).files(), result) == blob_request(old(blobs).files(), value@),
{
    let length: usize = match BLOB_HEADER_SIZE.checked_add(value.len()) {
        Some(length) => length,
        None => {
            return Err(Error::CapacityExhausted("blob length"));
        },
    };
    proof {
        let pages = old(blobs).pages();
        if batch_outcome(pages, length as int, 8, 1).1 is Ok {
            lemma_batch_not_empty(pages, length as int, 8, 1);
            lemma_batch_extent(pages, length as int, 8, 1, 0);
        }
    }
    let allocation = blobs.allocate(length, 8)?;
    let header = match blob_header(value) {
        Ok(header) => header,
        Err(error) => {
            return Err(error);
        },
    };
    match blobs.write_at(allocation, 0, header.as_slice()) {
        Ok(_) => {},
        Err(error) => {
            let _released = blobs.release(allocation);
            return Err(error);
        },
    }
    match blobs.write_at(allocation, BLOB_HEADER_SIZE, value) {
        Ok(_) => Ok(allocation),
        Err(error) => {
            let _released = blobs.release(allocation);
            Err(error)
        },
    }
}

/// The blob that a value word refers to, if any, as an allocation.
pub open spec fn blob_allocation_of(mode: Mode, blobs: Option<Files>, word: u64) -> Result<
    Option<Allocation>,
    Error,
> {
    let offset = word - VALUE_BLOB_TAG;
    if word < VALUE_BLOB_TAG {
        if mode == Mode::KeySet && word != 0 {
            Err(Error::Corrupt("set node stores a value"))
        } else {
            Ok(None)
        }
    } else if mode != Mode::KeyMap {
        Err(Error::Corrupt("set node has a blob tag"))
    } else {
        match blobs {
            None => Err(Error::Corrupt("map has no blob allocator")),
            Some(files) => if read_defect(
                files.capacity(),
                files.data.len() as int,
                offset,
                BLOB_HEADER_SIZE as int,
            ) is Some {
                Err(
                    read_defect(
                        files.capacity(),
                        files.data.len() as int,
                        offset,
                        BLOB_HEADER_SIZE as int,
                    )->0,
                )
            } else if blob_extent(files, offset) > u32::MAX {
                Err(Error::Corrupt("blob allocation length overflow"))
            } else if extent_defect(files.pages, offset, blob_extent(files, offset)) is Some {
                Err(extent_defect(files.pages, offset, blob_extent(files, offset))->0)
            } else {
                Ok(
                    Some(
                        Allocation {
                            offset: offset as u64,
                            length: blob_extent(files, offset) as u32,
                            block: files.pages.page_of(offset) as u64,
                        },
                    ),
                )
            },
        }
    }
}

/// The files of an optional allocator.
pub open spec fn files_of(blobs: Option<BlockAllocator>) -> Option<Files> {
    match blobs {
        Some(allocator) => Some(allocator.files()),
        None => None,
    }
}

/// Finds the blob that a value word refers to.
pub fn blob_allocation(mode: Mode, blobs: &Option<BlockAllocator>, word: u64) -> (result: Result<
    Option<Allocation>,
    Error,
>)
    requires
        *blobs matches Some(allocator) ==> allocator.wf(),
    ensures
        result == blob_allocation_of(mode, files_of(*blobs), word),
{
    if word < VALUE_BLOB_TAG {
        if mode == Mode::KeySet && word != 0 {
            return Err(Error::Corrupt("set node stores a value"));
        }
        return Ok(None);
    }
    if mode != Mode::KeyMap {
        return Err(Error::Corrupt("set node has a blob tag"));
    }
    let offset: u64 = word - VALUE_BLOB_TAG;
    match blobs {
        None => Err(Error::Corrupt("map has no blob allocator")),
        Some(blobs) => {
            let header = blobs.read(offset, BLOB_HEADER_SIZE)?;
            let (length, _checksum) = decode_blob_header(header.as_slice());
            proof {
                lemma_same_fields(header@, 0, blobs.data(), offset as int, 4);
            }
            match (BLOB_HEADER_SIZE as u32).checked_add(length) {
                None => Err(Error::Corrupt("blob allocation length overflow")),
                Some(total) => {
                    let allocation = blobs.allocation_for(offset, total)?;
                    Ok(Some(allocation))
                },
            }
        },
    }
}

/// Why a value word stands for no value of a map, if it does not.
pub open spec fn value_defect(blobs: Option<Files>, word: u64) -> Option<Error> {
    if word < VALUE_BLOB_TAG {
        None
    } else {
        match blobs {
            None => Some(Error::Corrupt("map has no blob allocator")),
            Some(files) => blob_read_defect(files, word - VALUE_BLOB_TAG),
        }
    }
}

/// Reads the value that a value word stands for.
pub fn read_value(blobs: &Option<BlockAllocator>, word: u64) -> (result: Result<Vec<u8>, Error>)
    requires
        *blobs matches Some(allocator) ==> allocator.wf(),
    ensures
        match result {
            Ok(value) => value_defect(files_of(*blobs), word) is None && value@
                == crate::storage::word_value(files_of(*blobs), word),
            Err(error) => value_defect(files_of(*blobs), word) == Some(error),
        },
{
    if word < VALUE_BLOB_TAG {
        return Ok(encode_le64(word));
    }
    match blobs {
        None => Err(Error::Corrupt("map has no blob allocator")),
        Some(blobs) => read_blob(blobs, word - VALUE_BLOB_TAG),
    }
}

} // verus!

//! Checked access to the image of a growable backing file.
//!
//! A [`MappedFile`] holds the bytes of one backing file and the length that the
//! file may grow to. Every access is checked against the current file length.

use vstd::prelude::*;

use crate::bytes::{copy_range, encode_le16, encode_le64, overwrite, read_le16, read_le64};
use crate::error::Error;
use crate::layout::FORMAT_PAGE_SIZE;
#[allow(unused_imports)]
use crate::bytes::{le16, le16_bytes, le64, le64_bytes, lemma_le_fields, patched};

verus! {

/// One past the largest representable file length.
pub const LENGTH_LIMIT: u64 = 0x8000_0000_0000_0000;

/// The bytes of one backing file, below a fixed maximum length.
pub struct MappedFile {
    bytes: Vec<u8>,
    mapping_length: u64,
}

/// Whether `length` can be the length of a backing file.
pub open spec fn mappable(length: int) -> bool {
    0 < length < LENGTH_LIMIT && length % FORMAT_PAGE_SIZE as int == 0
}

/// Why the bytes from `offset` up to `offset + length` of a file of
/// `file_length` bytes cannot be accessed, if they cannot.
pub open spec fn range_defect(file_length: int, offset: int, length: int) -> Option<Error> {
    if offset + length > u64::MAX {
        Some(Error::Corrupt("mapped range overflow"))
    } else if offset + length > file_length {
        Some(Error::Corrupt("mapped range is beyond the file length"))
    } else {
        None
    }
}

/// What stands in the way of accessing a word of `width` bytes, if anything.
pub open spec fn word_defect(file_length: int, offset: int, width: int) -> Option<Error> {
    match range_defect(file_length, offset, width) {
        Some(error) => Some(error),
        None => if offset % width != 0 {
            Some(Error::Corrupt("atomic offset is not aligned"))
        } else {
            None
        },
    }
}

/// `s` followed by zeros up to `length` bytes.
pub open spec fn zero_extended(s: Seq<u8>, length: int) -> Seq<u8> {
    Seq::new(
        length as nat,
        |i: int|
            if i < s.len() {
                s[i]
            } else {
                0
            },
    )
}

/// Checks that `length` can be the length of a backing file.
pub fn validate_mapping_length(length: u64) -> (result: Result<(), Error>)
    ensures
        result == (if mappable(length as int) {
            Ok::<(), Error>(())
        } else {
            Err(
                Error::InvalidConfig(
                    "mapping length must be page aligned, representable, and nonzero",
                ),
            )
        }),
{
    if length == 0 || length % FORMAT_PAGE_SIZE != 0 || length >= LENGTH_LIMIT {
        return Err(
            Error::InvalidConfig("mapping length must be page aligned, representable, and nonzero"),
        );
    }
    Ok(())
}

/// What stands in the way of mapping a new file, if anything.
pub open spec fn create_defect(mapping_length: int, file_length: int) -> Option<Error> {
    if !mappable(mapping_length) || !mappable(file_length) {
        Some(
            Error::InvalidConfig("mapping length must be page aligned, representable, and nonzero"),
        )
    } else if file_length > mapping_length {
        Some(Error::InvalidConfig("initial file length exceeds its mapping"))
    } else if mapping_length > usize::MAX {
        Some(Error::InvalidConfig("mapping does not fit the address space"))
    } else {
        None
    }
}

/// Checks that a new file can be mapped.
pub fn validate_new_mapping(maximum_length: u64, initial_length: u64) -> (result: Result<
    (),
    Error,
>)
    ensures
        result == (match create_defect(maximum_length as int, initial_length as int) {
            Some(error) => Err::<(), Error>(error),
            None => Ok(()),
        }),
{
    validate_mapping_length(maximum_length)?;
    validate_mapping_length(initial_length)?;
    if initial_length > maximum_length {
        return Err(Error::InvalidConfig("initial file length exceeds its mapping"));
    }
    if maximum_length > usize::MAX as u64 {
        return Err(Error::InvalidConfig("mapping does not fit the address space"));
    }
    Ok(())
}

/// What stands in the way of mapping an existing file of fixed length, if anything.
pub open spec fn open_defect(length: int, expected_length: int) -> Option<Error> {
    if !mappable(expected_length) {
        Some(
            Error::InvalidConfig("mapping length must be page aligned, representable, and nonzero"),
        )
    } else if length != expected_length {
        Some(Error::Corrupt("mapped file has an unexpected length"))
    } else {
        None
    }
}

/// What stands in the way of mapping an existing growable file, if anything.
pub open spec fn open_growable_defect(length: int, maximum_length: int) -> Option<Error> {
    if !mappable(maximum_length) || !mappable(length) {
        Some(
            Error::InvalidConfig("mapping length must be page aligned, representable, and nonzero"),
        )
    } else if length > maximum_length {
        Some(Error::Corrupt("growable file exceeds its configured mapping"))
    } else if maximum_length > usize::MAX {
        Some(Error::InvalidConfig("mapping does not fit the address space"))
    } else {
        None
    }
}

impl View for MappedFile {
    type V = Seq<u8>;

    closed spec fn view(&self) -> Seq<u8> {
        self.bytes@
    }
}

impl MappedFile {
    /// The length that the file may grow to.
    pub closed spec fn limit(&self) -> u64 {
        self.mapping_length
    }

    /// File and mapping have lengths that the format allows.
    pub open spec fn wf(&self) -> bool {
        &&& mappable(self@.len() as int)
        &&& mappable(self.limit() as int)
        &&& self@.len() <= self.limit() <= usize::MAX
    }

    /// A file of `length` zero bytes that cannot grow.
    pub fn create(length: u64) -> (result: Result<MappedFile, Error>)
        ensures
            match result {
                Ok(file) => create_defect(length as int, length as int) is None && file.wf()
                    && file@ == zero_extended(Seq::empty(), length as int) && file.limit()
                    == length,
                Err(error) => create_defect(length as int, length as int) == Some(error),
            },
    {
        MappedFile::create_growable(length, length)
    }

    /// A file of `initial_length` zero bytes that may grow to `maximum_length`.
    pub fn create_growable(maximum_length: u64, initial_length: u64) -> (result: Result<
        MappedFile,
        Error,
    >)
        ensures
            match result {
                Ok(file) => create_defect(maximum_length as int, initial_length as int) is None
                    && file.wf() && file@ == zero_extended(Seq::empty(), initial_length as int)
                    && file.limit() == maximum_length,
                Err(error) => create_defect(maximum_length as int, initial_length as int) == Some(
                    error,
                ),
            },
    {
        validate_new_mapping(maximum_length, initial_length)?;
        let mut bytes: Vec<u8> = Vec::new();
        bytes.resize(initial_length as usize, 0);
        let file = MappedFile { bytes, mapping_length: maximum_length };
        assert(file@ =~= zero_extended(Seq::empty(), initial_length as int));
        Ok(file)
    }

    /// Takes up the bytes of an existing file of fixed length.
    pub fn open(bytes: Vec<u8>, expected_length: u64) -> (result: Result<MappedFile, Error>)
        ensures
            match result {
                Ok(file) => open_defect(bytes@.len() as int, expected_length as int) is None
                    && file.wf() && file@ == bytes@ && file.limit() == expected_length,
                Err(error) => open_defect(bytes@.len() as int, expected_length as int) == Some(
                    error,
                ),
            },
    {
        validate_mapping_length(expected_length)?;
        if bytes.len() as u64 != expected_length {
            return Err(Error::Corrupt("mapped file has an unexpected length"));
        }
        Ok(MappedFile { bytes, mapping_length: expected_length })
    }

    /// Takes up the bytes of an existing file that may grow to `maximum_length`.
    pub fn open_growable(bytes: Vec<u8>, maximum_length: u64) -> (result: Result<
        MappedFile,
        Error,
    >)
        ensures
            match result {
                Ok(file) => open_growable_defect(bytes@.len() as int, maximum_length as int) is None
                    && file.wf() && file@ == bytes@ && file.limit() == maximum_length,
                Err(error) => open_growable_defect(bytes@.len() as int, maximum_length as int)
                    == Some(error),
            },
    {
        validate_mapping_length(maximum_length)?;
        let file_length: u64 = bytes.len() as u64;
        validate_mapping_length(file_length)?;
        if file_length > maximum_length {
            return Err(Error::Corrupt("growable file exceeds its configured mapping"));
        }
        if maximum_length > usize::MAX as u64 {
            return Err(Error::InvalidConfig("mapping does not fit the address space"));
        }
        Ok(MappedFile { bytes, mapping_length: maximum_length })
    }

    /// The bytes of the file, which is given up.
    pub fn into_bytes(self) -> (bytes: Vec<u8>)
        ensures
            bytes@ == self@,
    {
        self.bytes
    }

    /// The bytes of the file.
    pub fn as_bytes(&self) -> (bytes: &[u8])
        ensures
            bytes@ == self@,
    {
        self.bytes.as_slice()
    }

    /// The current file length.
    pub fn file_length(&self) -> (length: u64)
        requires
            self.wf(),
        ensures
            length == self@.len(),
    {
        self.bytes.len() as u64
    }

    /// Extends the file with zeros to `new_length`; reports whether it grew.
    pub fn grow(&mut self, new_length: u64) -> (result: Result<bool, Error>)
        requires
            old(self).wf(),
        ensures
            final(self).wf(),
            final(self).limit() == old(self).limit(),
            result == (if !mappable(new_length as int) {
                Err::<bool, Error>(
                    Error::InvalidConfig(
                        "mapping length must be page aligned, representable, and nonzero",
                    ),
                )
            } else if new_length > old(self).limit() {
                Err(Error::CapacityExhausted("mapped file"))
            } else {
                Ok(new_length > old(self)@.len())
            }),
            final(self)@ == (if result == Ok::<bool, Error>(true) {
                zero_extended(old(self)@, new_length as int)
            } else {
                old(self)@
            }),
    {
        validate_mapping_length(new_length)?;
        if new_length > self.mapping_length {
            return Err(Error::CapacityExhausted("mapped file"));
        }
        if self.bytes.len() as u64 >= new_length {
            return Ok(false);
        }
        let ghost before = self.bytes@;
        self.bytes.resize(new_length as usize, 0);
        proof {
            assert forall|i: int| 0 <= i < before.len() implies self.bytes@[i] == before[i] by {
                assert(self.bytes@.subrange(0, before.len() as int)[i] == before[i]);
            }
            assert(self@ =~= zero_extended(before, new_length as int));
        }
        Ok(true)
    }

    /// Checks that a range lies inside the file.
    pub fn checked_range(&self, offset: u64, length: u64) -> (result: Result<(), Error>)
        requires
            self.wf(),
        ensures
            result == (match range_defect(self@.len() as int, offset as int, length as int) {
                Some(error) => Err::<(), Error>(error),
                None => Ok(()),
            }),
    {
        match offset.checked_add(length) {
            None => Err(Error::Corrupt("mapped range overflow")),
            Some(end) => if end > self.bytes.len() as u64 {
                Err(Error::Corrupt("mapped range is beyond the file length"))
            } else {
                Ok(())
            },
        }
    }

    /// Copies `length` bytes out of the file.
    pub fn copy_out(&self, offset: u64, length: usize) -> (result: Result<Vec<u8>, Error>)
        requires
            self.wf(),
        ensures
            match result {
                Ok(bytes) => range_defect(self@.len() as int, offset as int, length as int) is None
                    && bytes@ == self@.subrange(offset as int, offset + length),
                Err(error) => range_defect(self@.len() as int, offset as int, length as int)
                    == Some(error),
            },
    {
        self.checked_range(offset, length as u64)?;
        Ok(copy_range(self.bytes.as_slice(), offset as usize, length))
    }

    /// Copies `input` into the file.
    pub fn copy_in(&mut self, offset: u64, input: &[u8]) -> (result: Result<(), Error>)
        requires
            old(self).wf(),
        ensures
            final(self).wf(),
            final(self).limit() == old(self).limit(),
            match range_defect(old(self)@.len() as int, offset as int, input@.len() as int) {
                Some(error) => result == Err::<(), Error>(error) && final(self)@ == old(self)@,
                None => result == Ok::<(), Error>(()) && final(self)@ == patched(
                    old(self)@,
                    offset as int,
                    input@,
                ),
            },
    {
        self.checked_range(offset, input.len() as u64)?;
        overwrite(&mut self.bytes, offset as usize, input);
        Ok(())
    }

    /// Reads the aligned eight-byte word at `offset`.
    pub fn load_u64(&self, offset: u64) -> (result: Result<u64, Error>)
        requires
            self.wf(),
        ensures
            match result {
                Ok(value) => word_defect(self@.len() as int, offset as int, 8) is None && value
                    == le64(self@, offset as int),
                Err(error) => word_defect(self@.len() as int, offset as int, 8) == Some(error),
            },
    {
        self.checked_range(offset, 8)?;
        if offset % 8 != 0 {
            return Err(Error::Corrupt("atomic offset is not aligned"));
        }
        Ok(read_le64(self.bytes.as_slice(), offset as usize))
    }

    /// Replaces the aligned eight-byte word at `offset`.
    pub fn store_u64(&mut self, offset: u64, value: u64) -> (result: Result<(), Error>)
        requires
            old(self).wf(),
        ensures
            final(self).wf(),
            final(self).limit() == old(self).limit(),
            match word_defect(old(self)@.len() as int, offset as int, 8) {
                Some(error) => result == Err::<(), Error>(error) && final(self)@ == old(self)@,
                None => result == Ok::<(), Error>(()) && final(self)@ == patched(
                    old(self)@,
                    offset as int,
                    le64_bytes(value),
                ),
            },
    {
        self.checked_range(offset, 8)?;
        if offset % 8 != 0 {
            return Err(Error::Corrupt("atomic offset is not aligned"));
        }
        proof {
            lemma_le_fields();
        }
        let encoded = encode_le64(value);
        overwrite(&mut self.bytes, offset as usize, encoded.as_slice());
        Ok(())
    }

    /// Reads the aligned two-byte word at `offset`.
    pub fn load_u16(&self, offset: u64) -> (result: Result<u16, Error>)
        requires
            self.wf(),
        ensures
            match result {
                Ok(value) => word_defect(self@.len() as int, offset as int, 2) is None && value
                    == le16(self@, offset as int),
                Err(error) => word_defect(self@.len() as int, offset as int, 2) == Some(error),
            },
    {
        self.checked_range(offset, 2)?;
        if offset % 2 != 0 {
            return Err(Error::Corrupt("atomic offset is not aligned"));
        }
        Ok(read_le16(self.bytes.as_slice(), offset as usize))
    }

    /// Replaces the aligned two-byte word at `offset`.
    pub fn store_u16(&mut self, offset: u64, value: u16) -> (result: Result<(), Error>)
        requires
            old(self).wf(),
        ensures
            final(self).wf(),
            final(self).limit() == old(self).limit(),
            match word_defect(old(self)@.len() as int, offset as int, 2) {
                Some(error) => result == Err::<(), Error>(error) && final(self)@ == old(self)@,
                None => result == Ok::<(), Error>(()) && final(self)@ == patched(
                    old(self)@,
                    offset as int,
                    le16_bytes(value),
                ),
            },
    {
        self.checked_range(offset, 2)?;
        if offset % 2 != 0 {
            return Err(Error::Corrupt("atomic offset is not aligned"));
        }
        proof {
            lemma_le_fields();
        }
        let encoded = encode_le16(value);
        overwrite(&mut self.bytes, offset as usize, encoded.as_slice());
        Ok(())
    }
}

} // verus!

//! The bytes of the files of an open database, for whoever writes them out.

use vstd::prelude::*;

use super::{Database, SnapshotFiles};
#[allow(unused_imports)]
use crate::allocator::{count_entries, HIGH_WATER_OFFSET};
#[allow(unused_imports)]
use crate::bytes::le64;
#[allow(unused_imports)]
use crate::pages::Pages;

verus! {

/// Whether the bytes of a count file hold the counts of pages.
pub open spec fn counts_of(bytes: Seq<u8>, pages: Pages) -> bool {
    &&& count_entries(bytes) == pages.counts
    &&& le64(bytes, HIGH_WATER_OFFSET as int) == pages.high_water
}

impl Database {
    /// The bytes of the heads file.
    pub fn heads_file(&self) -> (bytes: &[u8])
        ensures
            bytes@ == self.durable().heads,
    {
        self.heads.as_bytes()
    }

    /// The bytes of the body file.
    pub fn body_file(&self) -> (bytes: &[u8])
        ensures
            bytes@ == self.storage().body.data,
    {
        self.table.body.data_file()
    }

    /// The bytes of the count file of the body.
    pub fn body_count_file(&self) -> (bytes: &[u8])
        ensures
            counts_of(bytes@, self.storage().body.pages),
    {
        self.table.body.count_file()
    }

    /// The bytes of the blob file; none for a set.
    pub fn blob_file(&self) -> (bytes: Option<&[u8]>)
        ensures
            match self.storage().blobs {
                Some(files) => bytes is Some && bytes->0@ == files.data,
                None => bytes is None,
            },
    {
        match &self.table.blobs {
            Some(blobs) => Some(blobs.data_file()),
            None => None,
        }
    }

    /// The bytes of the count file of the blobs; none for a set.
    pub fn blob_count_file(&self) -> (bytes: Option<&[u8]>)
        ensures
            match self.storage().blobs {
                Some(files) => bytes is Some && counts_of(bytes->0@, files.pages),
                None => bytes is None,
            },
    {
        match &self.table.blobs {
            Some(blobs) => Some(blobs.count_file()),
            None => None,
        }
    }

    /// The files of a checkpoint bank, if it has any.
    pub fn bank_files(&self, bank: u64) -> (files: Option<&SnapshotFiles>)
        ensures
            match self.durable().banks.at(bank as int) {
                Some(snapshot) => files is Some && *files->0 == snapshot,
                None => files is None,
            },
    {
        let held = if bank == 0 {
            &self.banks.zero
        } else {
            &self.banks.one
        };
        match held {
            Some(snapshot) => Some(snapshot),
            None => None,
        }
    }
}

} // verus!

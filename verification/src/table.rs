//! Hash-table operations on the files of a database.
//!
//! Buckets are separate chains headed by in-memory words.

use vstd::prelude::*;

use crate::allocator::{Allocation, BlockAllocator};
#[allow(unused_imports)]
use crate::allocator::{
    batch_outcome, lemma_batch_extent, lemma_batch_not_empty, lemma_fresh_releasable,
    lemma_outcome_pages, release_defect, word_access_defect, Files,
};
use crate::config::{Config, Mode, KEY_SIZE};
use crate::error::Error;
use crate::hash::xxh64;
use crate::layout::{NODE_POINTER_LIMIT, NODE_SIZE, VALUE_BLOB_TAG};
#[allow(unused_imports)]
use crate::layout::{BLOB_HEADER_SIZE, DATA_START, NODE_ALIGNMENT, NODE_POINTER_OFFSET};
use crate::node::{allocate_node, compare_exchange_next, set_private_next, tombstone_node, Node};
#[allow(unused_imports)]
use crate::node::{key_at, next_at, node_defect, node_request, value_at, with_next};
#[allow(unused_imports)]
use crate::outcomes::{
    add_outcome, allocations_of, delete_outcome, headed, key_defect, lemma_node_request, lookup,
    put_outcome, relinked, removed, unlink_outcome, value_request, without_blob,
};
use crate::outcomes::PutOutcome;
use crate::search::{find, Found, Link};
#[allow(unused_imports)]
use crate::search::{link_holds, reads_as, search, Walk};
#[allow(unused_imports)]
use crate::storage::{bucket_of, lemma_same_node, lemma_with_next, Storage};
#[allow(unused_imports)]
use crate::transitions::lemma_files_extended;
use crate::values::{blob_allocation, inline_value_word, read_value, store_blob};
#[allow(unused_imports)]
use crate::values::{blob_request, files_of, value_defect};

verus! {

/// Bucket heads, body and blobs.
pub struct Table {
    /// The configuration.
    pub config: Config,
    /// Offset of the first node of each bucket, or zero.
    pub heads: Vec<u64>,
    /// The nodes.
    pub body: BlockAllocator,
    /// The values that do not fit a node; none in a set.
    pub blobs: Option<BlockAllocator>,
}

/// Checks the width of a key.
pub fn validate_key(key: &[u8]) -> (result: Result<(), Error>)
    ensures
        result == (match key_defect(key@) {
            Some(error) => Err::<(), Error>(error),
            None => Ok(()),
        }),
{
    if key.len() != KEY_SIZE {
        return Err(Error::InvalidKeyLength { expected: KEY_SIZE, actual: key.len() });
    }
    Ok(())
}

impl Table {
    /// What the files hold.
    pub open spec fn storage(&self) -> Storage {
        Storage {
            config: self.config,
            heads: self.heads@,
            body: self.body.files(),
            blobs: files_of(self.blobs),
        }
    }

    /// Validity of the files, whatever the chains are like.
    pub open spec fn wf(&self) -> bool {
        &&& self.config.valid()
        &&& self.heads@.len() == self.config.bucket_count
        &&& self.heads.len() == self.config.bucket_count
        &&& self.body.wf()
        &&& self.blobs matches Some(blobs) ==> blobs.wf()
        &&& self.blobs is Some == (self.config.mode == Mode::KeyMap)
        &&& self.storage().sized()
    }

    /// The bucket of a key.
    pub fn bucket(&self, key: &[u8]) -> (bucket: u64)
        requires
            self.wf(),
        ensures
            bucket == bucket_of(self.config, key@),
            bucket < self.config.bucket_count,
    {
        xxh64(key, self.config.hash_seed) % self.config.bucket_count
    }

    /// Searches for a key in its bucket.
    pub fn find(&self, key: &[u8], chain: Ghost<Seq<u64>>) -> (result: Result<Found, Error>)
        requires
            self.wf(),
        ensures
            ({
                let bucket = bucket_of(self.config, key@);
                let files = self.body.files();
                &&& match lookup(self.storage(), key@) {
                    Walk::Found(before, offset) => result matches Ok(found)
                        && found.node matches Some(node) && node.offset == offset && node.key@
                        == key@ && found.link == (match before {
                        Some(before) => Link::Node(before),
                        None => Link::Head(bucket as u64),
                    }),
                    Walk::Missing => result matches Ok(found) && found.node is None,
                    Walk::Broken(error) => result == Err::<Found, Error>(error),
                    Walk::Endless => result == Err::<Found, Error>(
                        Error::Corrupt("body chain contains a cycle"),
                    ),
                }
                &&& result matches Ok(found) ==> {
                    &&& found.root == self.heads@[bucket]
                    &&& found.link matches Link::Head(head) ==> head == bucket
                    &&& found.link matches Link::Node(before) ==> key_at(files.data, before as int)
                        != key@
                    &&& found.root == 0 || node_defect(
                        files.capacity(),
                        files.data,
                        found.root as int,
                    ) is None
                    &&& found.node matches Some(node) ==> {
                        &&& node_defect(files.capacity(), files.data, node.offset as int) is None
                        &&& reads_as(files.data, node)
                        &&& link_holds(files, self.heads@[bucket], found.link, node.offset)
                    }
                }
            }),
    {
        let bucket: u64 = self.bucket(key);
        find(&self.body, bucket, self.heads[bucket as usize], key, chain)
    }

    /// Tells whether a key is present.
    pub fn contains(&self, key: &[u8]) -> (result: Result<bool, Error>)
        requires
            self.wf(),
        ensures
            result == contains_outcome(self.storage(), key@),
    {
        validate_key(key)?;
        let found = self.find(key, Ghost(Seq::empty()))?;
        Ok(found.node.is_some())
    }

    /// Reads the value of the first node that has a key.
    pub fn get(&self, key: &[u8]) -> (result: Result<Option<Vec<u8>>, Error>)
        requires
            self.wf(),
        ensures
            match get_outcome(self.storage(), key@) {
                Ok(Some(value)) => result matches Ok(Some(bytes)) && bytes@ == value,
                Ok(None) => result matches Ok(None),
                Err(error) => result == Err::<Option<Vec<u8>>, Error>(error),
            },
    {
        validate_key(key)?;
        let found = self.find(key, Ghost(Seq::empty()))?;
        match found.node {
            None => Ok(None),
            Some(node) => {
                let value = read_value(&self.blobs, node.value)?;
                Ok(Some(value))
            },
        }
    }
}

/// The node in front of what a link holds, if it is not a head.
pub open spec fn before_of(link: Link) -> Option<u64> {
    match link {
        Link::Head(_) => None,
        Link::Node(before) => Some(before),
    }
}

/// Offsets of nodes fit a packed pointer.
pub proof fn lemma_node_in_range(table: Table, offset: int)
    requires
        table.wf(),
        node_defect(table.body.capacity(), table.body.data(), offset) is None,
    ensures
        DATA_START <= offset,
        offset + NODE_SIZE < NODE_POINTER_LIMIT,
        offset % 32 == 0,
        offset + NODE_SIZE <= table.body.data().len(),
        word_access_defect(
            table.body.capacity(),
            table.body.data().len() as int,
            offset + NODE_POINTER_OFFSET,
        ) is None,
{
    let capacity = table.body.capacity();
    let length = table.body.data().len() as int;
    assert(crate::allocator::read_defect(capacity, length, offset, NODE_SIZE as int) is None);
    assert(capacity == table.config.body_capacity);
}

impl Table {
    /// The allocations of a node and of its blob.
    pub fn node_allocations(&self, offset: u64, word: u64) -> (result: Result<
        (Allocation, Option<Allocation>),
        Error,
    >)
        requires
            self.wf(),
        ensures
            result == allocations_of(self.storage(), offset as int, word),
    {
        let blob = blob_allocation(self.config.mode, &self.blobs, word)?;
        let node = self.body.allocation_for(offset, NODE_SIZE as u32)?;
        self.body.validate_release(node)?;
        if let Some(allocation) = blob {
            if let Some(blobs) = &self.blobs {
                blobs.validate_release(allocation)?;
            }
        }
        Ok((node, blob))
    }

    /// Gives the place that holds the offset of a node another offset; tells whether
    /// it held `expected`.
    pub fn compare_exchange_link(
        &mut self,
        bucket: u64,
        link: Link,
        expected: u64,
        replacement: u64,
    ) -> (result: Result<bool, Error>)
        requires
            old(self).wf(),
            bucket < old(self).config.bucket_count,
            link_holds(old(self).body.files(), old(self).heads@[bucket as int], link, expected),
            expected < NODE_POINTER_LIMIT,
            replacement < NODE_POINTER_LIMIT,
        ensures
            final(self).wf(),
            result == Ok::<bool, Error>(true),
            final(self).storage() == relinked(
                old(self).storage(),
                bucket as int,
                before_of(link),
                replacement,
            ),
    {
        match link {
            Link::Head(_) => {
                if self.heads[bucket as usize] != expected {
                    return Ok(false);
                }
                self.heads.set(bucket as usize, replacement);
                Ok(true)
            },
            Link::Node(before) => {
                proof {
                    lemma_node_in_range(*self, before as int);
                }
                compare_exchange_next(&mut self.body, before, expected, replacement)
            },
        }
    }

    /// Releases a blob that no node refers to.
    pub fn release_blob(&mut self, blob: Option<Allocation>) -> (result: Result<(), Error>)
        requires
            old(self).wf(),
            blob matches Some(blob) ==> old(self).blobs matches Some(blobs) && release_defect(
                blobs.pages(),
                blob,
            ) is None,
        ensures
            final(self).wf(),
            result == Ok::<(), Error>(()),
            final(self).storage() == without_blob(old(self).storage(), blob),
    {
        if let Some(allocation) = blob {
            if let Some(blobs) = &mut self.blobs {
                blobs.release(allocation)?;
            }
        }
        Ok(())
    }

    /// Releases a node that is in no chain, and its blob.
    pub fn release_private(
        &mut self,
        node: Allocation,
        blob: Option<Allocation>,
    ) -> (result: Result<(), Error>)
        requires
            old(self).wf(),
            node_defect(
                old(self).body.capacity(),
                old(self).body.data(),
                node.offset as int,
            ) is None,
            release_defect(old(self).body.pages(), node) is None,
            blob matches Some(blob) ==> old(self).blobs matches Some(blobs) && release_defect(
                blobs.pages(),
                blob,
            ) is None,
        ensures
            final(self).wf(),
            result == Ok::<(), Error>(()),
            final(self).storage() == removed(old(self).storage(), node, blob),
    {
        proof {
            lemma_node_in_range(*self, node.offset as int);
        }
        self.body.validate_release(node)?;
        self.release_blob(blob)?;
        tombstone_node(&mut self.body, node.offset)?;
        self.body.release(node)
    }

    /// Takes a node out of its chain and releases it and its blob.
    pub fn unlink_link(&mut self, bucket: u64, link: Link, target: &Node) -> (result: Result<
        (),
        Error,
    >)
        requires
            old(self).wf(),
            bucket < old(self).config.bucket_count,
            node_defect(
                old(self).body.capacity(),
                old(self).body.data(),
                target.offset as int,
            ) is None,
            target.next < NODE_POINTER_LIMIT,
            link_holds(
                old(self).body.files(),
                old(self).heads@[bucket as int],
                link,
                target.offset,
            ),
        ensures
            final(self).wf(),
            (final(self).storage(), result) == unlink_outcome(
                old(self).storage(),
                bucket as int,
                before_of(link),
                target.offset as int,
                target.next,
                target.value,
            ),
    {
        let ghost before = *self;
        proof {
            lemma_node_in_range(*self, target.offset as int);
        }
        let (node, blob) = self.node_allocations(target.offset, target.value)?;
        if !self.compare_exchange_link(bucket, link, target.offset, target.next)? {
            return Err(Error::Busy("unique deletion link changed before unlink"));
        }
        tombstone_node(&mut self.body, target.offset)?;
        self.release_blob(blob)?;
        self.body.release(node)
    }

    /// Deletes the first node that has a key; tells whether there was one.
    pub fn delete(&mut self, key: &[u8]) -> (result: Result<bool, Error>)
        requires
            old(self).wf(),
        ensures
            final(self).wf(),
            (final(self).storage(), result) == delete_outcome(old(self).storage(), key@),
    {
        validate_key(key)?;
        let bucket: u64 = self.bucket(key);
        let found = self.find(key, Ghost(Seq::empty()))?;
        match found.node {
            None => Ok(false),
            Some(target) => {
                self.unlink_link(bucket, found.link, &target)?;
                Ok(true)
            },
        }
    }
}

impl Table {
    /// Makes a node that is in no chain the head of a bucket.
    fn publish(&mut self, bucket: u64, node: u64) -> (result: Result<(), Error>)
        requires
            old(self).wf(),
            bucket < old(self).config.bucket_count,
            node_defect(
                old(self).body.capacity(),
                old(self).body.data(),
                node as int,
            ) is None,
            next_at(old(self).body.data(), node as int) == 0,
        ensures
            final(self).wf(),
            if old(self).heads@[bucket as int] >= NODE_POINTER_LIMIT {
                result == Err::<(), Error>(Error::CapacityExhausted("packed node pointer"))
                    && final(self).storage() == old(self).storage()
            } else {
                result == Ok::<(), Error>(()) && final(self).storage() == headed(
                    old(self).storage(),
                    bucket as int,
                    node,
                )
            },
    {
        proof {
            lemma_node_in_range(*self, node as int);
        }
        let root: u64 = self.heads[bucket as usize];
        set_private_next(&mut self.body, node, 0, root)?;
        self.heads.set(bucket as usize, node);
        Ok(())
    }

    /// Adds a key to a set without a search.
    pub fn insert_one(&mut self, key: &[u8]) -> (result: Result<(), Error>)
        requires
            old(self).wf(),
            old(self).config.mode == Mode::KeySet,
        ensures
            final(self).wf(),
            (final(self).storage(), result) == add_outcome(old(self).storage(), key@),
    {
        let bucket: u64 = self.bucket(key);
        proof {
            lemma_node_request(self.body.files(), key@, 0);
            lemma_node_request_sized(*self, key@, 0);
        }
        let node = allocate_node(&mut self.body, key, 0)?;
        self.publish(bucket, node.offset)
    }

    /// Takes a place for a map value, in a blob unless it fits a node.
    pub fn allocate_value(&mut self, value: &[u8]) -> (result: Result<
        (u64, Option<Allocation>),
        Error,
    >)
        requires
            old(self).wf(),
            old(self).config.mode == Mode::KeyMap,
        ensures
            final(self).wf(),
            (final(self).storage(), result) == value_request(old(self).storage(), value@),
            result matches Ok((_, Some(blob))) ==> final(self).blobs matches Some(blobs)
                && release_defect(blobs.pages(), blob) is None,
    {
        if let Some(word) = inline_value_word(value) {
            return Ok((word, None));
        }
        match &mut self.blobs {
            None => Err(Error::Corrupt("map has no blob allocator")),
            Some(blobs) => {
                proof {
                    lemma_blob_request(blobs.files(), value@);
                }
                let blob = store_blob(blobs, value)?;
                Ok((VALUE_BLOB_TAG + blob.offset, Some(blob)))
            },
        }
    }

    /// Puts a value for a key.
    pub fn put_inner(
        &mut self,
        key: &[u8],
        value: &[u8],
        replace_existing: bool,
    ) -> (result: Result<PutOutcome, Error>)
        requires
            old(self).wf(),
            old(self).config.mode == Mode::KeyMap,
        ensures
            final(self).wf(),
            (final(self).storage(), result) == put_outcome(
                old(self).storage(),
                key@,
                value@,
                replace_existing,
            ),
    {
        validate_key(key)?;
        let (word, blob) = self.allocate_value(value)?;
        proof {
            lemma_node_request(self.body.files(), key@, word);
            lemma_node_request_sized(*self, key@, word);
        }
        let node = match allocate_node(&mut self.body, key, word) {
            Ok(node) => node,
            Err(error) => {
                let _released = self.release_blob(blob);
                return Err(error);
            },
        };
        let bucket: u64 = self.bucket(key);
        let ghost taken = *self;
        let found = match self.find(key, Ghost(Seq::empty())) {
            Ok(found) => found,
            Err(error) => {
                self.release_private(node, blob)?;
                return Err(error);
            },
        };
        if found.node.is_some() && !replace_existing {
            self.release_private(node, blob)?;
            return Ok(PutOutcome::Existing);
        }
        proof {
            if found.root != 0 {
                lemma_node_in_range(*self, found.root as int);
            }
        }
        self.publish(bucket, node.offset)?;
        match found.node {
            None => Ok(PutOutcome::Inserted),
            Some(existing) => {
                let link = match found.link {
                    Link::Head(_) => Link::Node(node.offset),
                    Link::Node(before) => Link::Node(before),
                };
                proof {
                    lemma_with_next(
                        taken.body.capacity(),
                        taken.body.data(),
                        node.offset as int,
                        found.root,
                    );
                    lemma_headed_link(taken, self.body.files(), node.offset, found, existing, link);
                }
                self.unlink_link(bucket, link, &existing)?;
                Ok(PutOutcome::Replaced)
            },
        }
    }
}

/// Taking a node keeps the sizes of the body.
pub proof fn lemma_node_request_sized(table: Table, key: Seq<u8>, word: u64)
    requires
        table.wf(),
    ensures
        node_request(table.body.files(), key, word).0.pages.block_size
            == table.body.pages().block_size,
        node_request(table.body.files(), key, word).0.pages.block_count
            == table.body.pages().block_count,
{
    lemma_outcome_pages(table.body.pages(), NODE_SIZE as int, NODE_ALIGNMENT as int, 1);
}

/// A stored blob can be released and has an offset that a value word can hold.
pub proof fn lemma_blob_request(blobs: Files, value: Seq<u8>)
    requires
        blobs.wf(),
    ensures
        ({
            let (after, result) = blob_request(blobs, value);
            &&& after.pages.block_size == blobs.pages.block_size
            &&& after.pages.block_count == blobs.pages.block_count
            &&& result matches Ok(blob) ==> {
                &&& release_defect(after.pages, blob) is None
                &&& blob.offset < VALUE_BLOB_TAG
            }
        }),
{
    let length = BLOB_HEADER_SIZE + value.len();
    lemma_outcome_pages(blobs.pages, length, 8, 1);
    lemma_fresh_releasable(blobs.pages, length, 8, 1);
    if batch_outcome(blobs.pages, length, 8, 1).1 is Ok {
        lemma_batch_not_empty(blobs.pages, length, 8, 1);
        lemma_batch_extent(blobs.pages, length, 8, 1, 0);
        lemma_files_extended(blobs, batch_outcome(blobs.pages, length, 8, 1).0);
    }
}

/// Behind a new head, the link to an old node still holds its offset.
proof fn lemma_headed_link(
    taken: Table,
    body: Files,
    node: u64,
    found: Found,
    existing: Node,
    link: Link,
)
    requires
        taken.wf(),
        found.node == Some(existing),
        body == (Files {
            data: with_next(taken.body.data(), node as int, found.root),
            ..taken.body.files()
        }),
        node_defect(taken.body.capacity(), taken.body.data(), node as int) is None,
        node_defect(taken.body.capacity(), taken.body.data(), existing.offset as int) is None,
        link_holds(taken.body.files(), found.root, found.link, existing.offset),
        found.link matches Link::Node(before) ==> before != node,
        link == (match found.link {
            Link::Head(_) => Link::Node(node),
            Link::Node(before) => Link::Node(before),
        }),
        found.root < NODE_POINTER_LIMIT,
    ensures
        link_holds(body, node, link, existing.offset),
        node_defect(body.capacity(), body.data, existing.offset as int) is None,
{
    let (capacity, data) = (taken.body.capacity(), taken.body.data());
    lemma_with_next(capacity, data, node as int, found.root);
    lemma_same_node(capacity, data, body.data, node as int);
    if existing.offset != node {
        lemma_same_node(capacity, data, body.data, existing.offset as int);
    }
    if let Link::Node(before) = found.link {
        lemma_same_node(capacity, data, body.data, before as int);
    }
}

/// What a membership test returns.
pub open spec fn contains_outcome(storage: Storage, key: Seq<u8>) -> Result<bool, Error> {
    if key_defect(key) is Some {
        Err(key_defect(key)->0)
    } else {
        match lookup(storage, key) {
            Walk::Broken(error) => Err(error),
            Walk::Endless => Err(Error::Corrupt("body chain contains a cycle")),
            Walk::Missing => Ok(false),
            Walk::Found(_, _) => Ok(true),
        }
    }
}

/// What reading a value of a map returns.
pub open spec fn get_outcome(storage: Storage, key: Seq<u8>) -> Result<Option<Seq<u8>>, Error> {
    if key_defect(key) is Some {
        Err(key_defect(key)->0)
    } else {
        match lookup(storage, key) {
            Walk::Broken(error) => Err(error),
            Walk::Endless => Err(Error::Corrupt("body chain contains a cycle")),
            Walk::Missing => Ok(None),
            Walk::Found(_, offset) => {
                let word = value_at(storage.body.data, offset as int);
                match value_defect(storage.blobs, word) {
                    Some(error) => Err(error),
                    None => Ok(Some(crate::storage::word_value(storage.blobs, word))),
                }
            },
        }
    }
}

} // verus!

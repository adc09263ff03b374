//! What each single-key operation makes of the files, and what that means for the
//! entries of a database whose files are sound.

use vstd::prelude::*;

#[allow(unused_imports)]
use crate::allocator::{
    after_request, batch_outcome, extent_defect, lemma_batch_extent, lemma_batch_not_empty,
    lemma_fresh_releasable, release_defect, Allocation, Files,
};
#[allow(unused_imports)]
use crate::bytes::{le64_bytes, lemma_le_fields, patched};
#[allow(unused_imports)]
use crate::config::{Config, Mode, KEY_SIZE};
#[allow(unused_imports)]
use crate::error::Error;
#[allow(unused_imports)]
use crate::layout::{
    BLOB_HEADER_SIZE, NODE_ALIGNMENT, NODE_POINTER_LIMIT, NODE_POINTER_OFFSET, NODE_SIZE,
    VALUE_BLOB_TAG,
};
#[allow(unused_imports)]
use crate::node::{key_at, next_at, node_bytes, node_defect, node_request, value_at, with_next};
#[allow(unused_imports)]
use crate::search::{lemma_walk, search, Walk};
#[allow(unused_imports)]
use crate::storage::{
    after_in, blob_extent, bucket_of, chained, first_index, is_first, lemma_chain_length,
    lemma_first_index, lemma_no_first_index, lemma_with_next, linked, node_limit, slot, Entry,
    Storage,
};
#[allow(unused_imports)]
use crate::transitions::{
    batch_offsets, fresh_blob, lemma_blob_releasable, lemma_blob_released, lemma_blob_taken,
    lemma_blob_written, lemma_node_bytes, lemma_node_released, lemma_nodes_taken,
    lemma_private_node, lemma_private_written, lemma_published, lemma_unlinked, publishable,
    unlinked, with_blob_of,
};
#[allow(unused_imports)]
use crate::values::{blob_allocation_of, blob_request, inline_word, lemma_inline_word};

verus! {

/// What is wrong with a key, if anything.
pub open spec fn key_defect(key: Seq<u8>) -> Option<Error> {
    if key.len() != KEY_SIZE {
        Some(Error::InvalidKeyLength { expected: KEY_SIZE, actual: key.len() as usize })
    } else {
        None
    }
}

/// The allocation of the node at `offset`.
pub open spec fn node_allocation(body: Files, offset: int) -> Allocation {
    Allocation {
        offset: offset as u64,
        length: NODE_SIZE as u32,
        block: body.pages.page_of(offset) as u64,
    }
}

/// The allocations of a node and of its blob, both of which can be released.
pub open spec fn allocations_of(storage: Storage, offset: int, word: u64) -> Result<
    (Allocation, Option<Allocation>),
    Error,
> {
    match blob_allocation_of(storage.config.mode, storage.blobs, word) {
        Err(error) => Err(error),
        Ok(blob) => {
            let node = node_allocation(storage.body, offset);
            if extent_defect(storage.body.pages, offset, NODE_SIZE as int) is Some {
                Err(extent_defect(storage.body.pages, offset, NODE_SIZE as int)->0)
            } else if release_defect(storage.body.pages, node) is Some {
                Err(release_defect(storage.body.pages, node)->0)
            } else if blob is Some && release_defect(storage.blobs->0.pages, blob->0) is Some {
                Err(release_defect(storage.blobs->0.pages, blob->0)->0)
            } else {
                Ok((node, blob))
            }
        },
    }
}

/// The storage after the place that holds a node's offset was given another one.
pub open spec fn relinked(
    storage: Storage,
    bucket: int,
    before: Option<u64>,
    replacement: u64,
) -> Storage {
    match before {
        None => Storage { heads: storage.heads.update(bucket, replacement), ..storage },
        Some(node) => Storage {
            body: Files {
                data: with_next(storage.body.data, node as int, replacement),
                ..storage.body
            },
            ..storage
        },
    }
}

/// The storage after a blob was released.
pub open spec fn without_blob(storage: Storage, blob: Option<Allocation>) -> Storage {
    match (storage.blobs, blob) {
        (Some(files), Some(blob)) => Storage {
            blobs: Some(Files { pages: files.pages.released(blob.block as int), ..files }),
            ..storage
        },
        _ => storage,
    }
}

/// The storage after a node and its blob were released.
pub open spec fn removed(storage: Storage, node: Allocation, blob: Option<Allocation>) -> Storage {
    let rest = without_blob(storage, blob);
    Storage {
        body: Files {
            data: patched(rest.body.data, node.offset + NODE_POINTER_OFFSET, le64_bytes(0)),
            pages: rest.body.pages.released(node.block as int),
        },
        ..rest
    }
}

/// Taking the node at `offset` out of its chain, behind `before`, and releasing it.
pub open spec fn unlink_outcome(
    storage: Storage,
    bucket: int,
    before: Option<u64>,
    offset: int,
    next: u64,
    word: u64,
) -> (Storage, Result<(), Error>) {
    match allocations_of(storage, offset, word) {
        Err(error) => (storage, Err(error)),
        Ok((node, blob)) => (removed(relinked(storage, bucket, before, next), node, blob), Ok(())),
    }
}

/// The search for `key` in its bucket.
pub open spec fn lookup(storage: Storage, key: Seq<u8>) -> Walk {
    search(storage.body, storage.heads[bucket_of(storage.config, key)], key)
}

/// Deleting the first node that has `key`.
pub open spec fn delete_outcome(storage: Storage, key: Seq<u8>) -> (Storage, Result<bool, Error>) {
    if key_defect(key) is Some {
        (storage, Err(key_defect(key)->0))
    } else {
        match lookup(storage, key) {
            Walk::Broken(error) => (storage, Err(error)),
            Walk::Endless => (storage, Err(Error::Corrupt("body chain contains a cycle"))),
            Walk::Missing => (storage, Ok(false)),
            Walk::Found(before, offset) => {
                let (after, result) = unlink_outcome(
                    storage,
                    bucket_of(storage.config, key),
                    before,
                    offset as int,
                    next_at(storage.body.data, offset as int),
                    value_at(storage.body.data, offset as int),
                );
                match result {
                    Ok(_) => (after, Ok(true)),
                    Err(error) => (after, Err(error)),
                }
            },
        }
    }
}

/// The storage after the node at `offset` became the head of a bucket.
pub open spec fn headed(storage: Storage, bucket: int, offset: u64) -> Storage {
    Storage {
        heads: storage.heads.update(bucket, offset),
        body: Files {
            data: with_next(storage.body.data, offset as int, storage.heads[bucket]),
            ..storage.body
        },
        ..storage
    }
}

/// Adding a key to a set without a search.
pub open spec fn add_outcome(storage: Storage, key: Seq<u8>) -> (Storage, Result<(), Error>) {
    let bucket = bucket_of(storage.config, key);
    let (body, result) = node_request(storage.body, key, 0);
    let taken = Storage { body, ..storage };
    match result {
        Err(error) => (taken, Err(error)),
        Ok(node) => if storage.heads[bucket] >= NODE_POINTER_LIMIT {
            (taken, Err(Error::CapacityExhausted("packed node pointer")))
        } else {
            (headed(taken, bucket, node.offset), Ok(()))
        },
    }
}

/// A map value put in place of a value word: inline, or in a blob of its own.
pub open spec fn value_request(storage: Storage, value: Seq<u8>) -> (
    Storage,
    Result<(u64, Option<Allocation>), Error>,
) {
    match inline_word(value) {
        Some(word) => (storage, Ok((word, None))),
        None => blob_stored(storage, value),
    }
}

/// A map value put into a blob of its own.
pub open spec fn blob_stored(storage: Storage, value: Seq<u8>) -> (
    Storage,
    Result<(u64, Option<Allocation>), Error>,
) {
    let (files, result) = blob_request(storage.blobs->0, value);
    let after = Storage { blobs: Some(files), ..storage };
    match result {
        Ok(blob) => (after, Ok(((VALUE_BLOB_TAG + blob.offset) as u64, Some(blob)))),
        Err(error) => (after, Err(error)),
    }
}

/// What putting a value did.
#[derive(Clone, Copy, Debug, PartialEq, Eq, Structural)]
pub enum PutOutcome {
    /// The key was absent, and has the value now.
    Inserted,
    /// The key was present, and keeps its value.
    Existing,
    /// The key was present, and has the value now.
    Replaced,
}

/// Putting a value for a key: where the key is present, its first node is replaced
/// or left, as `replace` says.
pub open spec fn put_outcome(storage: Storage, key: Seq<u8>, value: Seq<u8>, replace: bool) -> (
    Storage,
    Result<PutOutcome, Error>,
) {
    let bucket = bucket_of(storage.config, key);
    if key_defect(key) is Some {
        (storage, Err(key_defect(key)->0))
    } else {
        let (valued, result) = value_request(storage, value);
        match result {
            Err(error) => (valued, Err(error)),
            Ok((word, blob)) => {
                let (body, result) = node_request(valued.body, key, word);
                let taken = Storage { body, ..valued };
                match result {
                    Err(error) => (without_blob(taken, blob), Err(error)),
                    Ok(node) => match lookup(taken, key) {
                        Walk::Broken(error) => (removed(taken, node, blob), Err(error)),
                        Walk::Endless => (
                            removed(taken, node, blob),
                            Err(Error::Corrupt("body chain contains a cycle")),
                        ),
                        Walk::Missing => (
                            headed(taken, bucket, node.offset),
                            Ok(PutOutcome::Inserted),
                        ),
                        Walk::Found(before, existing) => if !replace {
                            (removed(taken, node, blob), Ok(PutOutcome::Existing))
                        } else {
                            let (after, result) = unlink_outcome(
                                headed(taken, bucket, node.offset),
                                bucket,
                                Some(
                                    match before {
                                        Some(before) => before,
                                        None => node.offset,
                                    },
                                ),
                                existing as int,
                                next_at(taken.body.data, existing as int),
                                value_at(taken.body.data, existing as int),
                            );
                            match result {
                                Ok(_) => (after, Ok(PutOutcome::Replaced)),
                                Err(error) => (after, Err(error)),
                            }
                        },
                    },
                }
            },
        }
    }
}

/// A node request sets the new node apart; a failed one changes nothing of what is
/// held.
pub proof fn lemma_node_requested(
    before: Storage,
    chains: Seq<Seq<u64>>,
    nodes: Set<int>,
    blobs: Map<int, int>,
    key: Seq<u8>,
    word: u64,
)
    requires
        before.holds(chains, nodes, blobs),
        key.len() == KEY_SIZE,
    ensures
        ({
            let (body, result) = node_request(before.body, key, word);
            let after = Storage { body, ..before };
            &&& after.entries(chains) == before.entries(chains)
            &&& match result {
                Ok(node) => {
                    &&& after.holds(chains, nodes.insert(node.offset as int), blobs)
                    &&& !nodes.contains(node.offset as int)
                    &&& !chained(chains, node.offset as int)
                    &&& node == node_allocation(body, node.offset as int)
                    &&& node_defect(body.capacity(), body.data, node.offset as int) is None
                    &&& key_at(body.data, node.offset as int) == key
                    &&& value_at(body.data, node.offset as int) == word
                    &&& next_at(body.data, node.offset as int) == 0
                    &&& forall|other: int|
                        #![trigger node_defect(before.body.capacity(), before.body.data, other)]
                        other != node.offset && node_defect(
                            before.body.capacity(),
                            before.body.data,
                            other,
                        ) is None ==> crate::storage::same_node(
                            before.body.data,
                            body.data,
                            other,
                        ) && next_at(body.data, other) == next_at(before.body.data, other)
                },
                Err(_) => after.holds(chains, nodes, blobs),
            }
        }),
{
    let (size, alignment) = (NODE_SIZE as int, NODE_ALIGNMENT as int);
    lemma_nodes_taken(before, chains, nodes, blobs, 1);
    let result = batch_outcome(before.body.pages, size, alignment, 1).1;
    let taken = after_request(before.body, size, alignment, 1);
    let middle = Storage { body: taken, ..before };
    if result is Ok {
        let batch = result->Ok_0;
        lemma_batch_not_empty(before.body.pages, size, alignment, 1);
        lemma_batch_extent(before.body.pages, size, alignment, 1, 0);
        let node = batch.spec_nth(0);
        let offset = node.offset as int;
        let more = nodes.union(batch_offsets(batch));
        assert(more.contains(offset));
        assert(more =~= nodes.insert(offset)) by {
            assert forall|o: int| batch_offsets(batch).contains(o) implies o == offset by {
                let i = choose|i: int|
                    0 <= i < batch.count && o == #[trigger] (batch.offset + i * batch.stride);
                assert(i == 0);
            }
        }
        let bytes = node_bytes(key, word, 0);
        lemma_private_node(middle, chains, more, blobs, offset);
        lemma_node_bytes(taken.capacity(), taken.data, offset, key, word);
        lemma_private_written(middle, chains, more, blobs, offset, offset, bytes);
        assert forall|other: int|
            #![trigger node_defect(before.body.capacity(), before.body.data, other)]
            other != offset && node_defect(
                before.body.capacity(),
                before.body.data,
                other,
            ) is None implies crate::storage::same_node(
            before.body.data,
            patched(taken.data, offset, bytes),
            other,
        ) && next_at(patched(taken.data, offset, bytes), other) == next_at(
            before.body.data,
            other,
        ) by {
            crate::storage::lemma_node_bytes_kept(before.body.data, taken.data, other);
            crate::storage::lemma_same_node(
                before.body.capacity(),
                before.body.data,
                taken.data,
                other,
            );
            assert(node_defect(taken.capacity(), taken.data, other) is None);
        }
    }
}

/// A requested node reads back and can be released, whatever the body holds.
pub proof fn lemma_node_request(body: Files, key: Seq<u8>, word: u64)
    requires
        body.wf(),
    ensures
        ({
            let (after, result) = node_request(body, key, word);
            result matches Ok(node) ==> {
                &&& node == node_allocation(after, node.offset as int)
                &&& node_defect(after.capacity(), after.data, node.offset as int) is None
                &&& key_at(after.data, node.offset as int) == key
                &&& value_at(after.data, node.offset as int) == word
                &&& next_at(after.data, node.offset as int) == 0
                &&& release_defect(after.pages, node) is None
                &&& after.pages.block_size == body.pages.block_size
                &&& after.pages.block_count == body.pages.block_count
            }
        }),
{
    let (size, alignment) = (NODE_SIZE as int, NODE_ALIGNMENT as int);
    let (after, result) = node_request(body, key, word);
    if result is Ok {
        lemma_batch_not_empty(body.pages, size, alignment, 1);
        lemma_batch_extent(body.pages, size, alignment, 1, 0);
        lemma_fresh_releasable(body.pages, size, alignment, 1);
        crate::allocator::lemma_outcome_pages(body.pages, size, alignment, 1);
        let taken = after_request(body, size, alignment, 1);
        let node = result->Ok_0;
        crate::transitions::lemma_files_extended(body, taken.pages);
        lemma_node_bytes(taken.capacity(), taken.data, node.offset as int, key, word);
    }
}

/// A node of its own put at the head of its bucket.
pub proof fn lemma_headed(
    before: Storage,
    chains: Seq<Seq<u64>>,
    nodes: Set<int>,
    blobs: Map<int, int>,
    blobs_after: Map<int, int>,
    bucket: int,
    node: u64,
)
    requires
        before.holds(chains, nodes, blobs),
        0 <= bucket < chains.len(),
        nodes.contains(node as int),
        node_defect(before.body.capacity(), before.body.data, node as int) is None,
        next_at(before.body.data, node as int) == 0,
        bucket_of(before.config, key_at(before.body.data, node as int)) == bucket,
        before.valid_word(value_at(before.body.data, node as int)),
        blobs == with_blob_of(before, blobs_after, node as int),
        value_at(before.body.data, node as int) >= VALUE_BLOB_TAG ==> !blobs_after.dom().contains(
            value_at(before.body.data, node as int) - VALUE_BLOB_TAG,
        ),
    ensures
        ({
            let after = headed(before, bucket, node);
            let longer = chains.update(bucket, seq![node] + chains[bucket]);
            &&& after.holds(longer, nodes.remove(node as int), blobs_after)
            &&& after.entries(longer) == before.entries(chains).update(
                bucket,
                seq![before.entry_at(node)] + before.entries(chains)[bucket],
            )
        }),
{
    let capacity = before.body.capacity();
    let data = before.body.data;
    let fresh = seq![node];
    let head = before.heads[bucket];
    assert(linked(before.body, head, chains[bucket]));
    assert(head < NODE_POINTER_LIMIT) by {
        if head != 0 {
            assert(node_defect(capacity, data, chains[bucket][0] as int) is None);
        }
    }
    lemma_with_next(capacity, data, node as int, head);
    lemma_le_fields();
    let word = (crate::node::pointer_at(data, node as int) - next_at(data, node as int)
        + head) as u64;
    lemma_private_written(
        before,
        chains,
        nodes,
        blobs,
        node as int,
        node + NODE_POINTER_OFFSET,
        le64_bytes(word),
    );
    let pointed = Storage {
        body: Files { data: with_next(data, node as int, head), ..before.body },
        ..before
    };
    assert(pointed.holds(chains, nodes, blobs));
    crate::storage::lemma_same_node(capacity, data, pointed.body.data, node as int);
    assert(pointed.entry_at(node) == before.entry_at(node));
    assert forall|offset: int|
        nodes.contains(offset) <==> nodes.remove(node as int).contains(offset) || exists|i: int|
            0 <= i < fresh.len() && #[trigger] fresh[i] == offset by {
        if offset == node {
            assert(fresh[0] == offset);
        }
    }
    let value = value_at(data, node as int);
    assert forall|offset: int| fresh_blob(pointed.body.data, fresh, offset) == (0 <= offset && value
        == VALUE_BLOB_TAG + offset) by {
        if 0 <= offset && value == VALUE_BLOB_TAG + offset {
            assert(value_at(pointed.body.data, fresh[0] as int) == VALUE_BLOB_TAG + offset);
        }
    }
    assert(publishable(pointed, bucket, fresh, nodes, blobs));
    lemma_published(
        pointed,
        chains,
        nodes,
        nodes.remove(node as int),
        blobs,
        blobs_after,
        bucket,
        fresh,
    );
    assert(pointed.entries_of(fresh) =~= seq![before.entry_at(node)]);
}

/// Adding to a sound set: the new key is in front of its bucket, or the request
/// for a node failed and no entry has changed.
pub proof fn lemma_added(storage: Storage, chains: Seq<Seq<u64>>, key: Seq<u8>)
    requires
        storage.holds(chains, Set::empty(), Map::empty()),
        storage.config.mode == Mode::KeySet,
        key.len() == KEY_SIZE,
    ensures
        ({
            let (after, result) = add_outcome(storage, key);
            let bucket = bucket_of(storage.config, key);
            let request = batch_outcome(
                storage.body.pages,
                NODE_SIZE as int,
                NODE_ALIGNMENT as int,
                1,
            ).1;
            match request {
                Ok(batch) => {
                    let longer = chains.update(
                        bucket,
                        seq![batch.spec_nth(0).offset] + chains[bucket],
                    );
                    &&& result == Ok::<(), Error>(())
                    &&& after.holds(longer, Set::empty(), Map::empty())
                    &&& after.entries(longer) == storage.entries(chains).update(
                        bucket,
                        seq![Entry { key, value: Seq::empty() }] + storage.entries(chains)[bucket],
                    )
                },
                Err(error) => {
                    &&& result == Err::<(), Error>(error)
                    &&& after.holds(chains, Set::empty(), Map::empty())
                    &&& after.entries(chains) == storage.entries(chains)
                },
            }
        }),
{
    let bucket = bucket_of(storage.config, key);
    let none = Map::<int, int>::empty();
    lemma_bucket(storage.config, key);
    lemma_node_requested(storage, chains, Set::empty(), none, key, 0);
    let (body, result) = node_request(storage.body, key, 0);
    let taken = Storage { body, ..storage };
    if result is Ok {
        let node = (result->Ok_0).offset;
        let nodes = Set::<int>::empty().insert(node as int);
        lemma_headed(taken, chains, nodes, none, none, bucket, node);
        assert(nodes.remove(node as int) =~= Set::empty());
        lemma_head_in_range(storage, chains, Set::empty(), none, bucket);
        assert(taken.entry_at(node) == Entry { key, value: Seq::empty() });
    }
}

/// A key has a bucket.
pub proof fn lemma_bucket(config: Config, key: Seq<u8>)
    requires
        config.valid(),
    ensures
        0 <= bucket_of(config, key) < config.bucket_count,
{
}

/// A head is zero or the offset of a node.
pub proof fn lemma_head_in_range(
    storage: Storage,
    chains: Seq<Seq<u64>>,
    nodes: Set<int>,
    blobs: Map<int, int>,
    bucket: int,
)
    requires
        storage.holds(chains, nodes, blobs),
        0 <= bucket < chains.len(),
    ensures
        storage.heads[bucket] < NODE_POINTER_LIMIT,
{
    assert(linked(storage.body, storage.heads[bucket], chains[bucket]));
    if storage.heads[bucket] != 0 {
        assert(node_defect(
            storage.body.capacity(),
            storage.body.data,
            chains[bucket][0] as int,
        ) is None);
    }
}

/// The blob that the node of a sound chain refers to.
pub open spec fn blob_of(storage: Storage, word: u64) -> Option<Allocation> {
    if word < VALUE_BLOB_TAG {
        None
    } else {
        Some(
            Allocation {
                offset: (word - VALUE_BLOB_TAG) as u64,
                length: blob_extent(storage.blobs->0, word - VALUE_BLOB_TAG) as u32,
                block: storage.blobs->0.pages.page_of(word - VALUE_BLOB_TAG) as u64,
            },
        )
    }
}

/// A chained node and its blob can be released.
pub proof fn lemma_allocations(
    storage: Storage,
    chains: Seq<Seq<u64>>,
    nodes: Set<int>,
    blobs: Map<int, int>,
    bucket: int,
    index: int,
)
    requires
        storage.holds(chains, nodes, blobs),
        slot(chains, bucket, index),
    ensures
        ({
            let offset = chains[bucket][index] as int;
            let word = value_at(storage.body.data, offset);
            allocations_of(storage, offset, word) == Ok::<
                (Allocation, Option<Allocation>),
                Error,
            >((node_allocation(storage.body, offset), blob_of(storage, word)))
        }),
{
    let offset = chains[bucket][index] as int;
    let word = value_at(storage.body.data, offset);
    assert(chained(chains, offset));
    lemma_private_node(storage, chains, nodes, blobs, offset);
    assert(storage.valid_word(word));
    if word >= VALUE_BLOB_TAG {
        let blob = word - VALUE_BLOB_TAG;
        assert(storage.referred(chains, blob));
        crate::transitions::lemma_referred_apart(storage, chains, nodes, blobs, blob);
        assert(storage.live_blobs(chains, blobs)[blob] == blob_extent(storage.blobs->0, blob));
        lemma_blob_releasable(storage, chains, nodes, blobs, blob);
    }
}

/// Releasing what is set apart.
pub proof fn lemma_removed(
    storage: Storage,
    chains: Seq<Seq<u64>>,
    nodes: Set<int>,
    blobs: Map<int, int>,
    node: Allocation,
    blob: Option<Allocation>,
)
    requires
        storage.holds(chains, nodes, blobs),
        nodes.contains(node.offset as int),
        node.block == storage.body.pages.page_of(node.offset as int),
        blob matches Some(blob) ==> {
            &&& storage.config.mode == Mode::KeyMap
            &&& blobs.dom().contains(blob.offset as int)
            &&& blob.block == storage.blobs->0.pages.page_of(blob.offset as int)
        },
    ensures
        ({
            let after = removed(storage, node, blob);
            let rest = match blob {
                Some(blob) => blobs.remove(blob.offset as int),
                None => blobs,
            };
            &&& after.holds(chains, nodes.remove(node.offset as int), rest)
            &&& after.entries(chains) == storage.entries(chains)
        }),
{
    let offset = node.offset as int;
    lemma_le_fields();
    lemma_private_node(storage, chains, nodes, blobs, offset);
    lemma_private_written(
        storage,
        chains,
        nodes,
        blobs,
        offset,
        offset + NODE_POINTER_OFFSET,
        le64_bytes(0),
    );
    let data = patched(storage.body.data, offset + NODE_POINTER_OFFSET, le64_bytes(0));
    let cleared = Storage { body: Files { data, ..storage.body }, ..storage };
    lemma_node_released(cleared, chains, nodes, blobs, offset);
    let pages = storage.body.pages.released(node.block as int);
    let bare = Storage { body: Files { data, pages }, ..storage };
    if blob is Some {
        lemma_blob_released(
            bare,
            chains,
            nodes.remove(offset),
            blobs,
            (blob->0).offset as int,
        );
    }
}

/// Taking a node out of a sound chain and releasing it: its entry is gone, and
/// nothing else.
pub proof fn lemma_unlink(
    storage: Storage,
    chains: Seq<Seq<u64>>,
    nodes: Set<int>,
    blobs: Map<int, int>,
    bucket: int,
    index: int,
)
    requires
        storage.holds(chains, nodes, blobs),
        slot(chains, bucket, index),
    ensures
        ({
            let offset = chains[bucket][index] as int;
            let before = if index == 0 {
                None
            } else {
                Some(chains[bucket][index - 1])
            };
            let (after, result) = unlink_outcome(
                storage,
                bucket,
                before,
                offset,
                next_at(storage.body.data, offset),
                value_at(storage.body.data, offset),
            );
            let shorter = chains.update(bucket, chains[bucket].remove(index));
            &&& result == Ok::<(), Error>(())
            &&& after.holds(shorter, nodes, blobs)
            &&& after.entries(shorter) == storage.entries(chains).update(
                bucket,
                storage.entries(chains)[bucket].remove(index),
            )
        }),
{
    let offset = chains[bucket][index] as int;
    let word = value_at(storage.body.data, offset);
    let before = if index == 0 {
        None
    } else {
        Some(chains[bucket][index - 1])
    };
    let shorter = chains.update(bucket, chains[bucket].remove(index));
    let loose = relinked(storage, bucket, before, next_at(storage.body.data, offset));
    let node = node_allocation(storage.body, offset);
    let blob = blob_of(storage, word);
    assert(chained(chains, offset));
    lemma_private_node(storage, chains, nodes, blobs, offset);
    lemma_allocations(storage, chains, nodes, blobs, bucket, index);
    lemma_unlinked(storage, chains, nodes, blobs, bucket, index);
    assert(linked(storage.body, storage.heads[bucket], chains[bucket]));
    assert(next_at(storage.body.data, offset) == after_in(chains[bucket], index));
    assert(loose == unlinked(storage, chains, bucket, index));
    let more_nodes = nodes.insert(offset);
    let more_blobs = with_blob_of(storage, blobs, offset);
    if word >= VALUE_BLOB_TAG {
        assert(storage.valid_word(word));
        let at = word - VALUE_BLOB_TAG;
        assert(storage.referred(chains, at));
        crate::transitions::lemma_referred_apart(storage, chains, nodes, blobs, at);
        assert(storage.live_blobs(chains, blobs)[at] == blob_extent(storage.blobs->0, at));
        lemma_blob_releasable(storage, chains, nodes, blobs, at);
        assert(more_blobs.remove(at) =~= blobs);
    }
    lemma_removed(loose, shorter, more_nodes, more_blobs, node, blob);
    assert(!nodes.contains(chains[bucket][index] as int));
    assert(more_nodes.remove(offset) =~= nodes);
}

/// A search in a sound chain tells the first entry for the key.
pub proof fn lemma_lookup(
    storage: Storage,
    chains: Seq<Seq<u64>>,
    nodes: Set<int>,
    blobs: Map<int, int>,
    key: Seq<u8>,
)
    requires
        storage.holds(chains, nodes, blobs),
    ensures
        ({
            let bucket = bucket_of(storage.config, key);
            let chain = chains[bucket];
            &&& 0 <= bucket < chains.len()
            &&& match first_index(storage.entries(chains)[bucket], key) {
                Some(index) => {
                    &&& slot(chains, bucket, index)
                    &&& lookup(storage, key) == Walk::Found(
                        if index == 0 {
                            None
                        } else {
                            Some(chain[index - 1])
                        },
                        chain[index],
                    )
                },
                None => lookup(storage, key) == Walk::Missing,
            }
        }),
{
    let bucket = bucket_of(storage.config, key);
    lemma_bucket(storage.config, key);
    let chain = chains[bucket];
    let entries = storage.entries(chains)[bucket];
    assert(linked(storage.body, storage.heads[bucket], chain));
    lemma_chain_length(storage, chains, nodes, blobs, bucket);
    lemma_walk(storage.body, chain, 0, key, node_limit(storage.body.capacity()) as nat);
    assert(entries == storage.entries_of(chain));
    match lookup(storage, key) {
        Walk::Found(last, offset) => {
            let index = choose|index: int|
                {
                    &&& 0 <= index < chain.len()
                    &&& #[trigger] chain[index] == offset
                    &&& key_at(storage.body.data, offset as int) == key
                    &&& last == (if index == 0 {
                        None
                    } else {
                        Some(chain[index - 1])
                    })
                    &&& forall|j: int|
                        0 <= j < index ==> key_at(storage.body.data, #[trigger] chain[j] as int)
                            != key
                };
            assert forall|j: int| 0 <= j < index implies (#[trigger] entries[j]).key != key by {
                assert(key_at(storage.body.data, chain[j] as int) != key);
            }
            assert(is_first(entries, key, index));
            lemma_first_index(entries, key, index);
        },
        Walk::Missing => {
            assert forall|j: int| 0 <= j < entries.len() implies (#[trigger] entries[j]).key
                != key by {
                assert(key_at(storage.body.data, chain[j] as int) != key);
            }
            lemma_no_first_index(entries, key);
        },
        _ => {},
    }
}

/// The chains after a delete.
pub open spec fn chains_deleted(
    storage: Storage,
    chains: Seq<Seq<u64>>,
    key: Seq<u8>,
) -> Seq<Seq<u64>> {
    let bucket = bucket_of(storage.config, key);
    match first_index(storage.entries(chains)[bucket], key) {
        Some(index) => chains.update(bucket, chains[bucket].remove(index)),
        None => chains,
    }
}

/// The entries after a delete: the first entry for the key is gone.
pub open spec fn entries_deleted(
    config: Config,
    entries: Seq<Seq<Entry>>,
    key: Seq<u8>,
) -> Seq<Seq<Entry>> {
    let bucket = bucket_of(config, key);
    match first_index(entries[bucket], key) {
        Some(index) => entries.update(bucket, entries[bucket].remove(index)),
        None => entries,
    }
}

/// Deleting from sound files removes the first entry for the key, and says whether
/// there was one.
pub proof fn lemma_deleted(storage: Storage, chains: Seq<Seq<u64>>, key: Seq<u8>)
    requires
        storage.holds(chains, Set::empty(), Map::empty()),
        key.len() == KEY_SIZE,
    ensures
        ({
            let (after, result) = delete_outcome(storage, key);
            let shorter = chains_deleted(storage, chains, key);
            &&& result == Ok::<bool, Error>(
                first_index(
                    storage.entries(chains)[bucket_of(storage.config, key)],
                    key,
                ) is Some,
            )
            &&& after.holds(shorter, Set::empty(), Map::empty())
            &&& after.entries(shorter) == entries_deleted(
                storage.config,
                storage.entries(chains),
                key,
            )
        }),
{
    let bucket = bucket_of(storage.config, key);
    lemma_lookup(storage, chains, Set::empty(), Map::empty(), key);
    if let Some(index) = first_index(storage.entries(chains)[bucket], key) {
        lemma_unlink(storage, chains, Set::empty(), Map::empty(), bucket, index);
    }
}

/// The blobs set apart with the blob of a value, if it has one.
pub open spec fn with_blob(blobs: Map<int, int>, blob: Option<Allocation>) -> Map<int, int> {
    match blob {
        Some(blob) => blobs.insert(blob.offset as int, blob.length as int),
        None => blobs,
    }
}

/// A blob that was stored is set apart; a failed request changes nothing of what is
/// held.
pub proof fn lemma_blob_stored(
    before: Storage,
    chains: Seq<Seq<u64>>,
    nodes: Set<int>,
    blobs: Map<int, int>,
    value: Seq<u8>,
)
    requires
        before.holds(chains, nodes, blobs),
        before.config.mode == Mode::KeyMap,
    ensures
        ({
            let (after, result) = blob_stored(before, value);
            &&& after.body == before.body
            &&& after.heads == before.heads
            &&& after.config == before.config
            &&& after.blobs is Some
            &&& after.entries(chains) == before.entries(chains)
            &&& match result {
                Ok((word, blob)) => {
                    &&& after.holds(chains, nodes, with_blob(blobs, blob))
                    &&& after.valid_word(word)
                    &&& after.value_of(word) == value
                    &&& match blob {
                        Some(blob) => {
                            &&& word == VALUE_BLOB_TAG + blob.offset
                            &&& !blobs.dom().contains(blob.offset as int)
                            &&& blob.length == blob_extent(after.blobs->0, blob.offset as int)
                            &&& blob.block == after.blobs->0.pages.page_of(blob.offset as int)
                            &&& release_defect(after.blobs->0.pages, blob) is None
                        },
                        None => word < VALUE_BLOB_TAG,
                    }
                },
                Err(_) => after.holds(chains, nodes, blobs),
            }
        }),
{
    let length = BLOB_HEADER_SIZE + value.len();
    let files = before.blobs->0;
    if length <= usize::MAX {
        lemma_blob_taken(before, chains, nodes, blobs, length);
        let taken = Storage { blobs: Some(after_request(files, length, 8, 1)), ..before };
        if let Ok(batch) = batch_outcome(files.pages, length, 8, 1).1 {
            let blob = batch.spec_nth(0);
            let offset = blob.offset as int;
            let more = blobs.insert(offset, length);
            lemma_blob_written(taken, chains, nodes, more, offset, value);
            let (after, _) = blob_stored(before, value);
            assert(after.holds(chains, nodes, more));
            assert(with_blob(blobs, Some(blob)) == more);
            assert(after.live_blobs(chains, more)[offset] == length);
            lemma_blob_releasable(after, chains, nodes, more, offset);
        }
    }
}

/// A value that was requested is set apart; a failed request changes nothing of
/// what is held.
pub proof fn lemma_value_requested(
    before: Storage,
    chains: Seq<Seq<u64>>,
    nodes: Set<int>,
    blobs: Map<int, int>,
    value: Seq<u8>,
)
    requires
        before.holds(chains, nodes, blobs),
        before.config.mode == Mode::KeyMap,
    ensures
        ({
            let (after, result) = value_request(before, value);
            &&& after.body == before.body
            &&& after.heads == before.heads
            &&& after.config == before.config
            &&& after.blobs is Some
            &&& after.entries(chains) == before.entries(chains)
            &&& match result {
                Ok((word, blob)) => {
                    &&& after.holds(chains, nodes, with_blob(blobs, blob))
                    &&& after.valid_word(word)
                    &&& after.value_of(word) == value
                    &&& match blob {
                        Some(blob) => {
                            &&& word == VALUE_BLOB_TAG + blob.offset
                            &&& !blobs.dom().contains(blob.offset as int)
                            &&& blob.length == blob_extent(after.blobs->0, blob.offset as int)
                            &&& blob.block == after.blobs->0.pages.page_of(blob.offset as int)
                            &&& release_defect(after.blobs->0.pages, blob) is None
                        },
                        None => word < VALUE_BLOB_TAG,
                    }
                },
                Err(_) => after.holds(chains, nodes, blobs),
            }
        }),
{
    lemma_inline_word(value);
    if inline_word(value) is None {
        lemma_blob_stored(before, chains, nodes, blobs, value);
    }
}

/// Offset of the node that the next single-node request gets.
pub open spec fn next_node(body: Files) -> u64 {
    (batch_outcome(body.pages, NODE_SIZE as int, NODE_ALIGNMENT as int, 1).1->Ok_0).spec_nth(
        0,
    ).offset
}

/// Why there is no room for a value and its node, if there is none.
pub open spec fn put_defect(storage: Storage, value: Seq<u8>) -> Option<Error> {
    match value_request(storage, value).1 {
        Err(error) => Some(error),
        Ok(_) => match batch_outcome(
            storage.body.pages,
            NODE_SIZE as int,
            NODE_ALIGNMENT as int,
            1,
        ).1 {
            Err(error) => Some(error),
            Ok(_) => None,
        },
    }
}

/// What putting a value reports where there is room for it.
pub open spec fn put_result(entries: Seq<Entry>, key: Seq<u8>, replace: bool) -> PutOutcome {
    if first_index(entries, key) is None {
        PutOutcome::Inserted
    } else if replace {
        PutOutcome::Replaced
    } else {
        PutOutcome::Existing
    }
}

/// A bucket after a value was put: the new entry is in front, and the first old
/// entry for the key is gone, unless the key was present and is left.
pub open spec fn bucket_put(entries: Seq<Entry>, entry: Entry, replace: bool) -> Seq<Entry> {
    match first_index(entries, entry.key) {
        None => seq![entry] + entries,
        Some(index) => if replace {
            seq![entry] + entries.remove(index)
        } else {
            entries
        },
    }
}

/// The chain of a bucket after a value was put with `node` as the new node.
pub open spec fn chain_put(
    entries: Seq<Entry>,
    chain: Seq<u64>,
    key: Seq<u8>,
    node: u64,
    replace: bool,
) -> Seq<u64> {
    match first_index(entries, key) {
        None => seq![node] + chain,
        Some(index) => if replace {
            seq![node] + chain.remove(index)
        } else {
            chain
        },
    }
}

/// The storage after value and node were taken for a put.
spec fn put_taken(storage: Storage, key: Seq<u8>, value: Seq<u8>) -> Storage {
    let (valued, result) = value_request(storage, value);
    Storage { body: node_request(valued.body, key, (result->Ok_0).0).0, ..valued }
}

/// Value and node taken for a put are set apart.
proof fn lemma_put_taken(storage: Storage, chains: Seq<Seq<u64>>, key: Seq<u8>, value: Seq<u8>)
    requires
        storage.holds(chains, Set::empty(), Map::empty()),
        storage.config.mode == Mode::KeyMap,
        key.len() == KEY_SIZE,
        put_defect(storage, value) is None,
    ensures
        ({
            let (word, blob) = value_request(storage, value).1->Ok_0;
            let taken = put_taken(storage, key, value);
            let node = next_node(storage.body);
            let blobs = with_blob(Map::empty(), blob);
            let (body, result) = node_request(storage.body, key, word);
            &&& result == Ok::<Allocation, Error>(node_allocation(taken.body, node as int))
            &&& taken.body == body
            &&& taken.config == storage.config
            &&& taken.heads == storage.heads
            &&& taken.blobs is Some
            &&& taken.holds(chains, Set::empty().insert(node as int), blobs)
            &&& taken.entries(chains) == storage.entries(chains)
            &&& node_defect(body.capacity(), body.data, node as int) is None
            &&& taken.entry_at(node) == Entry { key, value }
            &&& value_at(body.data, node as int) == word
            &&& next_at(body.data, node as int) == 0
            &&& taken.valid_word(word)
            &&& !chained(chains, node as int)
            &&& blobs == with_blob_of(taken, Map::empty(), node as int)
            &&& blob matches Some(blob) ==> blob.block == taken.blobs->0.pages.page_of(
                blob.offset as int,
            ) && release_defect(taken.blobs->0.pages, blob) is None
        }),
{
    let none = Map::<int, int>::empty();
    let (valued, result) = value_request(storage, value);
    let (word, blob) = result->Ok_0;
    lemma_value_requested(storage, chains, Set::empty(), none, value);
    lemma_node_requested(valued, chains, Set::empty(), with_blob(none, blob), key, word);
    let taken = put_taken(storage, key, value);
    assert(with_blob(none, blob) =~= with_blob_of(taken, none, next_node(storage.body) as int));
}

/// The old node behind a new head of the same key taken out.
proof fn lemma_put_replaced(
    taken: Storage,
    chains: Seq<Seq<u64>>,
    nodes: Set<int>,
    blobs: Map<int, int>,
    bucket: int,
    node: u64,
    index: int,
    entry: Entry,
)
    requires
        taken.holds(chains, nodes, blobs),
        slot(chains, bucket, index),
        node_defect(taken.body.capacity(), taken.body.data, node as int) is None,
        !chained(chains, node as int),
        headed(taken, bucket, node).holds(
            chains.update(bucket, seq![node] + chains[bucket]),
            Set::empty(),
            Map::empty(),
        ),
        headed(taken, bucket, node).entries(chains.update(bucket, seq![node] + chains[bucket]))
            == taken.entries(chains).update(
            bucket,
            seq![entry] + taken.entries(chains)[bucket],
        ),
    ensures
        ({
            let chain = chains[bucket];
            let existing = chain[index];
            let (after, result) = unlink_outcome(
                headed(taken, bucket, node),
                bucket,
                Some(
                    if index == 0 {
                        node
                    } else {
                        chain[index - 1]
                    },
                ),
                existing as int,
                next_at(taken.body.data, existing as int),
                value_at(taken.body.data, existing as int),
            );
            let changed = chains.update(bucket, seq![node] + chain.remove(index));
            let entries = taken.entries(chains);
            &&& result == Ok::<(), Error>(())
            &&& after.holds(changed, Set::empty(), Map::empty())
            &&& after.entries(changed) == entries.update(
                bucket,
                seq![entry] + entries[bucket].remove(index),
            )
        }),
{
    let none = Map::<int, int>::empty();
    let chain = chains[bucket];
    let existing = chain[index];
    let top = headed(taken, bucket, node);
    let longer = chains.update(bucket, seq![node] + chain);
    let entries = taken.entries(chains);
    assert(longer[bucket][index + 1] == existing);
    lemma_head_in_range(taken, chains, nodes, blobs, bucket);
    lemma_with_next(taken.body.capacity(), taken.body.data, node as int, taken.heads[bucket]);
    assert(chained(chains, existing as int));
    assert(linked(taken.body, taken.heads[bucket], chain));
    assert(node_defect(taken.body.capacity(), taken.body.data, existing as int) is None);
    lemma_unlink(top, longer, Set::empty(), none, bucket, index + 1);
    assert(longer[bucket].remove(index + 1) =~= seq![node] + chain.remove(index));
    assert(longer.update(bucket, longer[bucket].remove(index + 1)) =~= chains.update(
        bucket,
        seq![node] + chain.remove(index),
    ));
    let before = top.entries(longer);
    assert(before[bucket].remove(index + 1) =~= seq![entry] + entries[bucket].remove(index));
    assert(before.update(bucket, before[bucket].remove(index + 1)) =~= entries.update(
        bucket,
        seq![entry] + entries[bucket].remove(index),
    ));
}

/// Putting a value into sound files: where there is room, the bucket of the key is
/// as [`bucket_put`] says; where there is none, no entry changes.
pub proof fn lemma_put(
    storage: Storage,
    chains: Seq<Seq<u64>>,
    key: Seq<u8>,
    value: Seq<u8>,
    replace: bool,
)
    requires
        storage.holds(chains, Set::empty(), Map::empty()),
        storage.config.mode == Mode::KeyMap,
        key.len() == KEY_SIZE,
    ensures
        ({
            let (after, result) = put_outcome(storage, key, value, replace);
            let bucket = bucket_of(storage.config, key);
            let entries = storage.entries(chains);
            match put_defect(storage, value) {
                Some(error) => {
                    &&& result == Err::<PutOutcome, Error>(error)
                    &&& after.holds(chains, Set::empty(), Map::empty())
                    &&& after.entries(chains) == entries
                },
                None => {
                    let changed = chains.update(
                        bucket,
                        chain_put(
                            entries[bucket],
                            chains[bucket],
                            key,
                            next_node(storage.body),
                            replace,
                        ),
                    );
                    &&& result == Ok::<PutOutcome, Error>(put_result(entries[bucket], key, replace))
                    &&& after.holds(changed, Set::empty(), Map::empty())
                    &&& after.entries(changed) == entries.update(
                        bucket,
                        bucket_put(entries[bucket], Entry { key, value }, replace),
                    )
                },
            }
        }),
{
    let none = Map::<int, int>::empty();
    let bucket = bucket_of(storage.config, key);
    let entries = storage.entries(chains);
    lemma_bucket(storage.config, key);
    if put_defect(storage, value) is Some {
        lemma_value_requested(storage, chains, Set::empty(), none, value);
        let (valued, result) = value_request(storage, value);
        if result is Ok {
            let (word, blob) = result->Ok_0;
            lemma_node_requested(valued, chains, Set::empty(), with_blob(none, blob), key, word);
            let taken = Storage { body: node_request(valued.body, key, word).0, ..valued };
            if blob is Some {
                let offset = (blob->0).offset as int;
                lemma_blob_released(taken, chains, Set::empty(), with_blob(none, blob), offset);
                assert(with_blob(none, blob).remove(offset) =~= none);
            }
        }
    } else {
        let (word, blob) = value_request(storage, value).1->Ok_0;
        let node = next_node(storage.body);
        let taken = put_taken(storage, key, value);
        let nodes = Set::<int>::empty().insert(node as int);
        let blobs = with_blob(none, blob);
        lemma_put_taken(storage, chains, key, value);
        lemma_lookup(taken, chains, nodes, blobs, key);
        assert(nodes.remove(node as int) =~= Set::empty());
        let chain = chains[bucket];
        let entry = Entry { key, value };
        let found = first_index(entries[bucket], key);
        if found is Some && !replace {
            lemma_removed(
                taken,
                chains,
                nodes,
                blobs,
                node_allocation(taken.body, node as int),
                blob,
            );
            if blob is Some {
                assert(blobs.remove((blob->0).offset as int) =~= none);
            }
            assert(chains.update(bucket, chain) =~= chains);
            assert(entries.update(bucket, entries[bucket]) =~= entries);
        } else {
            lemma_headed(taken, chains, nodes, blobs, none, bucket, node);
            let top = headed(taken, bucket, node);
            let longer = chains.update(bucket, seq![node] + chain);
            if found is Some {
                lemma_put_replaced(taken, chains, nodes, blobs, bucket, node, found->0, entry);
            }
        }
    }
}

/// A key has sixteen bytes; any other length is told with the length that is expected.
pub proof fn law_key_width(key: Seq<u8>)
    ensures
        key_defect(key) == (if key.len() == 16 {
            None
        } else {
            Some(Error::InvalidKeyLength { expected: 16, actual: key.len() as usize })
        }),
{
}

} // verus!

//! Inserting a batch of entries: nodes are reserved and written privately, linked
//! bucket by bucket, and every bucket is published with one change of its head.

pub mod steps;

use vstd::prelude::*;

use crate::allocator::Allocation;
#[allow(unused_imports)]
use crate::allocator::{
    after_request, batch_outcome, lemma_batch_extent, lemma_batch_not_empty, lemma_outcome_pages,
    AllocationBatch, Files,
};
#[allow(unused_imports)]
use crate::bytes::{le64_bytes, lemma_le_fields, patched};
#[allow(unused_imports)]
use crate::config::{Config, Mode, KEY_SIZE};
use crate::error::Error;
#[allow(unused_imports)]
use crate::layout::{
    BLOB_HEADER_SIZE, NODE_ALIGNMENT, NODE_POINTER_LIMIT, NODE_POINTER_OFFSET, NODE_SIZE,
    VALUE_BLOB_TAG,
};
#[allow(unused_imports)]
use crate::node::{
    blob_header_of, key_at, next_at, node_bytes, node_defect, pointer_at, value_at, with_next,
};
#[allow(unused_imports)]
use crate::outcomes::{
    blob_of, blob_stored, lemma_value_requested, node_allocation, value_request, with_blob,
};
#[allow(unused_imports)]
use crate::pages::Pages;
#[allow(unused_imports)]
use crate::prepared::{has_order, key_views, keys_defect, no_later, prepared_for, prepares};
use crate::prepared::{prepare, Prepared};
#[allow(unused_imports)]
use crate::removal::{blobs_of, bounded, detached_from, nodes_of};
use crate::removal::LooseNode;
#[allow(unused_imports)]
use crate::storage::{
    blob_extent, blob_value, bucket_of, lemma_node_bytes_kept, lemma_same_node, lemma_with_next,
    linked, same_node, valid_blob, Entry, Storage,
};
use crate::table::Table;
#[allow(unused_imports)]
use crate::transitions::{
    batch_offsets, lemma_blob_kept, lemma_blob_taken, lemma_files_extended, lemma_node_bytes,
    lemma_node_released, lemma_nodes_taken, lemma_private_node, lemma_private_written,
    lemma_published, lemma_releasable, publishable,
};
#[allow(unused_imports)]
use crate::values::{blob_request, inline_word, lemma_inline_word};
#[allow(unused_imports)]
use crate::insertion::steps::{
    commit_outcome, fill_outcome, insert_outcome, lemma_run_end, link_outcome, reserve_outcome,
    reserved_released, Insertion,
};

verus! {

/// Whether `node` is a complete node in no chain, with its blob, that holds `entry`.
pub open spec fn is_private(storage: Storage, node: LooseNode, entry: Entry) -> bool {
    let offset = node.body.offset as int;
    let word = value_at(storage.body.data, offset);
    &&& node_defect(storage.body.capacity(), storage.body.data, offset) is None
    &&& storage.entry_at(node.body.offset) == entry
    &&& storage.valid_word(word)
    &&& node.blob == blob_of(storage, word)
    &&& node.body == node_allocation(storage.body, offset)
}

/// A private node whose bytes and blob are kept stays as it was.
pub proof fn lemma_private_kept(before: Storage, after: Storage, node: LooseNode, entry: Entry)
    requires
        is_private(before, node, entry),
        after.config == before.config,
        after.body.pages.block_size == before.body.pages.block_size,
        after.body.pages.block_count == before.body.pages.block_count,
        before.body.data.len() <= after.body.data.len(),
        same_node(before.body.data, after.body.data, node.body.offset as int),
        before.blobs is Some ==> after.blobs is Some && after.blobs->0.pages.block_size
            == before.blobs->0.pages.block_size,
        node.blob matches Some(blob) ==> {
            &&& valid_blob(after.blobs->0, blob.offset as int)
            &&& blob_extent(after.blobs->0, blob.offset as int) == blob_extent(
                before.blobs->0,
                blob.offset as int,
            )
            &&& blob_value(after.blobs->0, blob.offset as int) == blob_value(
                before.blobs->0,
                blob.offset as int,
            )
        },
        before.config.mode == Mode::KeyMap ==> before.blobs is Some,
    ensures
        is_private(after, node, entry),
{
    let offset = node.body.offset as int;
    let word = value_at(before.body.data, offset);
    lemma_same_node(before.body.capacity(), before.body.data, after.body.data, offset);
    assert(after.entry_at(node.body.offset) == before.entry_at(node.body.offset));
}

/// Storing a blob keeps every blob that is set apart.
pub proof fn lemma_apart_blob_kept(
    before: Storage,
    chains: Seq<Seq<u64>>,
    nodes: Set<int>,
    blobs: Map<int, int>,
    value: Seq<u8>,
    other: int,
)
    requires
        before.holds(chains, nodes, blobs),
        before.config.mode == Mode::KeyMap,
        blobs.dom().contains(other),
        valid_blob(before.blobs->0, other),
        blobs[other] == blob_extent(before.blobs->0, other),
    ensures
        ({
            let files = before.blobs->0;
            let after = blob_stored(before, value).0.blobs->0;
            &&& valid_blob(after, other)
            &&& blob_extent(after, other) == blob_extent(files, other)
            &&& blob_value(after, other) == blob_value(files, other)
            &&& after.pages.block_size == files.pages.block_size
        }),
{
    let files = before.blobs->0;
    let length = BLOB_HEADER_SIZE + value.len();
    if length <= usize::MAX {
        let taken = after_request(files, length, 8, 1);
        lemma_outcome_pages(files.pages, length, 8, 1);
        lemma_blob_taken(before, chains, nodes, blobs, length);
        lemma_blob_kept(files, taken, other);
        if let Ok(batch) = batch_outcome(files.pages, length, 8, 1).1 {
            let offset = batch.spec_nth(0).offset as int;
            let middle = Storage { blobs: Some(taken), ..before };
            let more = blobs.insert(offset, length);
            let live = middle.live_blobs(chains, more);
            assert(live.dom().contains(offset) && live.dom().contains(other));
            lemma_releasable(taken, live, offset);
            lemma_le_fields();
            let written = blob_stored(before, value).0.blobs->0;
            assert(blob_header_of(value).len() == BLOB_HEADER_SIZE);
            lemma_blob_kept(taken, written, other);
        }
    }
}

/// Why a value cannot be stored, if it cannot, and the blob file after it was.
pub open spec fn value_stored(mode: Mode, blobs: Option<Files>, value: Seq<u8>) -> (
    Option<Files>,
    Option<Error>,
) {
    if mode == Mode::KeySet || inline_word(value) is Some {
        (blobs, None)
    } else {
        let (files, result) = blob_request(blobs->0, value);
        (
            Some(files),
            match result {
                Ok(_) => None,
                Err(error) => Some(error),
            },
        )
    }
}

/// An entry written into a reserved node.
pub open spec fn initialized(storage: Storage, node: Allocation, entry: Entry) -> (
    Storage,
    Result<LooseNode, Error>,
) {
    let (valued, result) = if storage.config.mode == Mode::KeySet {
        (storage, Ok((0u64, None::<Allocation>)))
    } else {
        value_request(storage, entry.value)
    };
    match result {
        Err(error) => (valued, Err(error)),
        Ok((word, blob)) => {
            let data = patched(
                valued.body.data,
                node.offset as int,
                node_bytes(entry.key, word, 0),
            );
            (
                Storage { body: Files { data, ..valued.body }, ..valued },
                Ok(LooseNode { body: node, blob }),
            )
        },
    }
}

/// Whether the blob of a node is set apart with its length.
pub open spec fn blob_apart(blobs: Map<int, int>, node: LooseNode) -> bool {
    node.blob matches Some(blob) ==> blobs.dom().contains(blob.offset as int)
        && blobs[blob.offset as int] == blob.length
}

/// Writing an entry into a reserved node makes a private node of it and keeps every
/// other private node.
proof fn lemma_initialized(
    before: Storage,
    chains: Seq<Seq<u64>>,
    nodes: Set<int>,
    blobs: Map<int, int>,
    node: Allocation,
    entry: Entry,
)
    requires
        before.holds(chains, nodes, blobs),
        nodes.contains(node.offset as int),
        node == node_allocation(before.body, node.offset as int),
        entry.key.len() == KEY_SIZE,
        before.config.mode == Mode::KeySet ==> entry.value == Seq::<u8>::empty(),
    ensures
        ({
            let (after, result) = initialized(before, node, entry);
            let (stored, defect) = value_stored(before.config.mode, before.blobs, entry.value);
            &&& after.config == before.config
            &&& after.heads == before.heads
            &&& after.body.pages == before.body.pages
            &&& after.body.data.len() == before.body.data.len()
            &&& after.blobs == stored
            &&& after.entries(chains) == before.entries(chains)
            &&& match result {
                Err(error) => defect == Some(error) && after.holds(chains, nodes, blobs),
                Ok(made) => {
                    &&& defect is None
                    &&& made.body == node
                    &&& after.holds(chains, nodes, with_blob(blobs, made.blob))
                    &&& is_private(after, made, entry)
                    &&& next_at(after.body.data, node.offset as int) == 0
                    &&& made.blob matches Some(blob) ==> {
                        &&& after.blobs is Some
                        &&& !blobs.dom().contains(blob.offset as int)
                        &&& blob.block == after.blobs->0.pages.page_of(blob.offset as int)
                    }
                    &&& forall|other: LooseNode, one: Entry|
                        #![trigger is_private(before, other, one)]
                        is_private(before, other, one) && other.body.offset != node.offset
                            && blob_apart(blobs, other) ==> is_private(after, other, one)
                            && next_at(after.body.data, other.body.offset as int) == next_at(
                            before.body.data,
                            other.body.offset as int,
                        )
                },
            }
        }),
{
    let offset = node.offset as int;
    let (after, result) = initialized(before, node, entry);
    let map = before.config.mode == Mode::KeyMap;
    let (valued, requested) = if map {
        value_request(before, entry.value)
    } else {
        (before, Ok((0u64, None::<Allocation>)))
    };
    if map {
        lemma_value_requested(before, chains, nodes, blobs, entry.value);
        lemma_inline_word(entry.value);
    }
    if let Ok((word, blob)) = requested {
        let more = with_blob(blobs, blob);
        let bytes = node_bytes(entry.key, word, 0);
        let capacity = before.body.capacity();
        lemma_private_node(valued, chains, nodes, more, offset);
        lemma_node_bytes(capacity, valued.body.data, offset, entry.key, word);
        lemma_private_written(valued, chains, nodes, more, offset, offset, bytes);
        let made = LooseNode { body: node, blob };
        assert(after.entry_at(node.offset) == entry);
        assert(made.blob == blob_of(after, word));
        assert forall|other: LooseNode, one: Entry|
            #![trigger is_private(before, other, one)]
            is_private(before, other, one) && other.body.offset != node.offset && blob_apart(
                blobs,
                other,
            ) implies is_private(after, other, one) && next_at(
            after.body.data,
            other.body.offset as int,
        ) == next_at(before.body.data, other.body.offset as int) by {
            if map {
                lemma_outcome_pages(
                    before.blobs->0.pages,
                    BLOB_HEADER_SIZE + entry.value.len(),
                    8,
                    1,
                );
                if let Some(held) = other.blob {
                    lemma_apart_blob_kept(
                        before,
                        chains,
                        nodes,
                        blobs,
                        entry.value,
                        held.offset as int,
                    );
                }
            }
            assert(node_defect(capacity, valued.body.data, other.body.offset as int) is None);
            lemma_private_kept(before, after, other, one);
        }
    }
}

/// The offsets of a list of allocations, from one on.
pub open spec fn offsets_from(list: Seq<Allocation>, from: int) -> Set<int> {
    Set::new(
        |offset: int|
            exists|i: int| from <= i < list.len() && (#[trigger] list[i]).offset == offset,
    )
}

/// The allocations of a batch.
pub open spec fn batch_allocations(batch: AllocationBatch) -> Seq<Allocation> {
    Seq::new(batch.count as nat, |i: int| batch.spec_nth(i))
}

/// Whether reserved nodes are apart from each other and from `nodes`, and lie inside
/// the body.
pub open spec fn reserved(body: Files, nodes: Set<int>, list: Seq<Allocation>) -> bool {
    &&& forall|i: int|
        #![trigger list[i]]
        0 <= i < list.len() ==> {
            &&& !nodes.contains(list[i].offset as int)
            &&& list[i] == node_allocation(body, list[i].offset as int)
            &&& list[i].offset + NODE_SIZE <= body.data.len()
        }
    &&& forall|i: int, j: int|
        #![trigger list[i], list[j]]
        0 <= i < j < list.len() ==> list[i].offset != list[j].offset
}

/// Nodes that a request takes, whatever the body holds.
proof fn lemma_batch_reserved(body: Files, maximum: int)
    requires
        body.wf(),
        0 <= maximum,
    ensures
        ({
            let (pages, result) = batch_outcome(
                body.pages,
                NODE_SIZE as int,
                NODE_ALIGNMENT as int,
                maximum,
            );
            let after = after_request(body, NODE_SIZE as int, NODE_ALIGNMENT as int, maximum);
            &&& pages.block_size == body.pages.block_size
            &&& pages.block_count == body.pages.block_count
            &&& body.data.len() <= after.data.len()
            &&& forall|k: int| 0 <= k < body.data.len() ==> after.data[k] == body.data[k]
            &&& result matches Ok(batch) ==> {
                &&& 0 < batch.count <= maximum
                &&& reserved(after, Set::empty(), batch_allocations(batch))
            }
        }),
{
    let (size, alignment) = (NODE_SIZE as int, NODE_ALIGNMENT as int);
    let (pages, result) = batch_outcome(body.pages, size, alignment, maximum);
    let after = after_request(body, size, alignment, maximum);
    lemma_outcome_pages(body.pages, size, alignment, maximum);
    lemma_batch_not_empty(body.pages, size, alignment, maximum);
    if let Ok(batch) = result {
        let list = batch_allocations(batch);
        assert(batch.count > 0);
        lemma_batch_extent(body.pages, size, alignment, maximum, 0);
        lemma_files_extended(body, pages);
        assert(batch.stride == 32);
        assert forall|i: int|
            #![trigger list[i]]
            0 <= i < list.len() implies list[i] == node_allocation(after, list[i].offset as int)
            && list[i].offset + NODE_SIZE <= after.data.len() && list[i].offset == batch.offset + i
            * 32 by {
            lemma_batch_extent(body.pages, size, alignment, maximum, i);
        }
    }
}

/// Nodes that a request takes from a sound body are set apart.
proof fn lemma_nodes_reserved(
    before: Storage,
    chains: Seq<Seq<u64>>,
    nodes: Set<int>,
    blobs: Map<int, int>,
    maximum: int,
)
    requires
        before.holds(chains, nodes, blobs),
        0 <= maximum,
    ensures
        ({
            let result = batch_outcome(
                before.body.pages,
                NODE_SIZE as int,
                NODE_ALIGNMENT as int,
                maximum,
            ).1;
            let body = after_request(
                before.body,
                NODE_SIZE as int,
                NODE_ALIGNMENT as int,
                maximum,
            );
            let after = Storage { body, ..before };
            &&& after.entries(chains) == before.entries(chains)
            &&& match result {
                Ok(batch) => {
                    let list = batch_allocations(batch);
                    &&& after.holds(chains, nodes.union(offsets_from(list, 0)), blobs)
                    &&& reserved(body, nodes, list)
                },
                Err(_) => after.holds(chains, nodes, blobs),
            }
            &&& forall|other: LooseNode, one: Entry|
                #![trigger is_private(before, other, one)]
                is_private(before, other, one) ==> is_private(after, other, one) && next_at(
                    body.data,
                    other.body.offset as int,
                ) == next_at(before.body.data, other.body.offset as int)
        }),
{
    let (size, alignment) = (NODE_SIZE as int, NODE_ALIGNMENT as int);
    let result = batch_outcome(before.body.pages, size, alignment, maximum).1;
    let body = after_request(before.body, size, alignment, maximum);
    let after = Storage { body, ..before };
    lemma_nodes_taken(before, chains, nodes, blobs, maximum);
    lemma_batch_reserved(before.body, maximum);
    if let Ok(batch) = result {
        let list = batch_allocations(batch);
        assert forall|i: int|
            #![trigger list[i]]
            0 <= i < list.len() implies !nodes.contains(list[i].offset as int) by {
            assert(list[i] == batch.spec_nth(i));
        }
        assert(batch_offsets(batch) =~= offsets_from(list, 0)) by {
            assert forall|o: int| batch_offsets(batch).contains(o) implies offsets_from(
                list,
                0,
            ).contains(o) by {
                let i = choose|i: int|
                    0 <= i < batch.count && o == #[trigger] (batch.offset + i * batch.stride);
                assert(batch.spec_nth(i).offset == o);
                assert(list[i].offset == o);
            }
            assert forall|o: int| offsets_from(list, 0).contains(o) implies batch_offsets(
                batch,
            ).contains(o) by {
                let i = choose|i: int| 0 <= i < list.len() && (#[trigger] list[i]).offset == o;
                assert(list[i] == batch.spec_nth(i));
                assert(o == batch.offset + i * batch.stride);
            }
        }
    }
    assert forall|other: LooseNode, one: Entry|
        #![trigger is_private(before, other, one)]
        is_private(before, other, one) implies is_private(after, other, one) && next_at(
        body.data,
        other.body.offset as int,
    ) == next_at(before.body.data, other.body.offset as int) by {
        lemma_node_bytes_kept(before.body.data, body.data, other.body.offset as int);
        lemma_private_kept(before, after, other, one);
    }
}

/// Why storing the values of `entries` from one index up to another fails, if it
/// does, and the blob file after it.
pub open spec fn values_stored(
    mode: Mode,
    blobs: Option<Files>,
    entries: Seq<Entry>,
    from: int,
    to: int,
) -> (Option<Files>, Option<Error>)
    decreases to - from,
{
    if from >= to {
        (blobs, None)
    } else {
        let (after, defect) = value_stored(mode, blobs, entries[from].value);
        match defect {
            Some(_) => (after, defect),
            None => values_stored(mode, after, entries, from + 1, to),
        }
    }
}

/// Why reserving nodes for the entries from `start` on and storing their values
/// fails, if it does.
pub open spec fn insert_defect(
    mode: Mode,
    pages: Pages,
    blobs: Option<Files>,
    entries: Seq<Entry>,
    start: int,
) -> Option<Error>
    decreases entries.len() - start,
{
    if start >= entries.len() {
        None
    } else {
        let (after, result) = batch_outcome(
            pages,
            NODE_SIZE as int,
            NODE_ALIGNMENT as int,
            entries.len() - start,
        );
        match result {
            Err(error) => Some(error),
            Ok(batch) => {
                let (stored, defect) = values_stored(
                    mode,
                    blobs,
                    entries,
                    start,
                    start + batch.count,
                );
                if defect is Some || !(0 < batch.count <= entries.len() - start) {
                    defect
                } else {
                    insert_defect(mode, after, stored, entries, start + batch.count)
                }
            },
        }
    }
}

/// The entries of a batch in input order.
pub open spec fn batch_entries(mode: Mode, keys: Seq<Seq<u8>>, values: Seq<Seq<u8>>) -> Seq<Entry> {
    Seq::new(
        keys.len(),
        |i: int|
            Entry {
                key: keys[i],
                value: if mode == Mode::KeySet {
                    Seq::empty()
                } else {
                    values[i]
                },
            },
    )
}

/// The entries of a batch in the order of its items.
pub open spec fn arranged(list: Seq<Entry>, items: Seq<Prepared>) -> Seq<Entry> {
    Seq::new(items.len(), |i: int| list[items[i].order as int])
}

/// Whether a list of private nodes holds the first entries, none of them linked.
pub open spec fn all_private(
    storage: Storage,
    list: Seq<LooseNode>,
    entries: Seq<Entry>,
) -> bool {
    &&& list.len() <= entries.len()
    &&& forall|i: int|
        #![trigger list[i]]
        0 <= i < list.len() ==> is_private(storage, list[i], entries[i]) && blob_apart(
            blobs_of(list),
            list[i],
        )
}

/// Whether no node of a list points to another one.
pub open spec fn unlinked_list(data: Seq<u8>, list: Seq<LooseNode>) -> bool {
    forall|i: int|
        #![trigger list[i]]
        0 <= i < list.len() ==> next_at(data, list[i].body.offset as int) == 0
}

impl Table {
    /// Writes one entry into a reserved node.
    fn initialize_reserved_insert(
        &mut self,
        key: &[u8],
        value: &[u8],
        node: Allocation,
    ) -> (result: Result<LooseNode, Error>)
        requires
            old(self).wf(),
            key@.len() == KEY_SIZE,
            node.length == NODE_SIZE,
            node.offset + NODE_SIZE <= old(self).body.data().len(),
            old(self).config.mode == Mode::KeySet ==> value@ == Seq::<u8>::empty(),
        ensures
            final(self).wf(),
            (final(self).storage(), result) == initialized(
                old(self).storage(),
                node,
                (Entry { key: key@, value: value@ }),
            ),
            final(self).body.data().len() == old(self).body.data().len(),
            result matches Ok(made) ==> made.body == node,
    {
        let mut word: u64 = 0;
        let mut blob: Option<Allocation> = None;
        if self.config.mode == Mode::KeyMap {
            let stored = self.allocate_value(value)?;
            word = stored.0;
            blob = stored.1;
        }
        proof {
            lemma_le_fields();
        }
        match crate::node::write_node(&mut self.body, node, key, word) {
            Ok(_) => Ok(LooseNode { body: node, blob }),
            Err(error) => {
                self.release_blob(blob)?;
                Err(error)
            },
        }
    }
}

/// Putting a private node on a list of them.
proof fn lemma_push_private(
    before: Storage,
    after: Storage,
    chains: Seq<Seq<u64>>,
    list: Seq<LooseNode>,
    entries: Seq<Entry>,
    made: LooseNode,
)
    requires
        all_private(before, list, entries),
        unlinked_list(before.body.data, list),
        detached_from(before, list),
        list.len() < entries.len(),
        (after, Ok::<LooseNode, Error>(made)) == initialized(
            before,
            made.body,
            entries[list.len() as int],
        ),
        is_private(after, made, entries[list.len() as int]),
        next_at(after.body.data, made.body.offset as int) == 0,
        !nodes_of(list).contains(made.body.offset as int),
        made.blob matches Some(blob) ==> {
            &&& after.blobs is Some
            &&& !blobs_of(list).dom().contains(blob.offset as int)
            &&& blob.block == after.blobs->0.pages.page_of(blob.offset as int)
        },
        after.body.pages == before.body.pages,
        before.blobs is Some ==> after.blobs is Some && after.blobs->0.pages.block_size
            == before.blobs->0.pages.block_size,
        forall|other: LooseNode, one: Entry|
            #![trigger is_private(before, other, one)]
            is_private(before, other, one) && other.body.offset != made.body.offset && blob_apart(
                blobs_of(list),
                other,
            ) ==> is_private(after, other, one) && next_at(
                after.body.data,
                other.body.offset as int,
            ) == next_at(before.body.data, other.body.offset as int),
    ensures
        all_private(after, list.push(made), entries),
        unlinked_list(after.body.data, list.push(made)),
        detached_from(after, list.push(made)),
        nodes_of(list.push(made)) == nodes_of(list).insert(made.body.offset as int),
        blobs_of(list.push(made)) == with_blob(blobs_of(list), made.blob),
{
    let longer = list.push(made);
    assert(longer.drop_last() =~= list);
    crate::removal::lemma_detached_kept(before, after, list);
    assert forall|i: int|
        #![trigger longer[i]]
        0 <= i < longer.len() implies is_private(after, longer[i], entries[i]) && blob_apart(
        blobs_of(longer),
        longer[i],
    ) && next_at(after.body.data, longer[i].body.offset as int) == 0 by {
        if i < list.len() {
            assert(longer[i] == list[i]);
            lemma_listed(before, list, i);
            assert(is_private(before, list[i], entries[i]));
        }
    }
}

/// A node of a list is among its nodes.
pub proof fn lemma_listed(storage: Storage, list: Seq<LooseNode>, index: int)
    requires
        0 <= index < list.len(),
    ensures
        nodes_of(list).contains(list[index].body.offset as int),
        list[index].blob matches Some(blob) ==> blobs_of(list).dom().contains(blob.offset as int),
    decreases list.len(),
{
    if index < list.len() - 1 {
        lemma_listed(storage, list.drop_last(), index);
        assert(list.drop_last()[index] == list[index]);
    }
}

impl Table {
    /// Releases reserved nodes from one index on.
    fn release_reserved(
        &mut self,
        list: &Vec<Allocation>,
        from: usize,
        chains: Ghost<Seq<Seq<u64>>>,
        nodes: Ghost<Set<int>>,
        blobs: Ghost<Map<int, int>>,
    ) -> (result: Result<(), Error>)
        requires
            old(self).wf(),
            from <= list.len(),
        ensures
            final(self).wf(),
            final(self).config == old(self).config,
            (final(self).storage(), result) == reserved_released(
                old(self).storage(),
                list@,
                from as int,
            ),
            ({
                let before = old(self).storage();
                let after = final(self).storage();
                before.holds(chains@, nodes@.union(offsets_from(list@, from as int)), blobs@)
                    && reserved(before.body, nodes@, list@.skip(from as int)) ==> {
                    &&& result == Ok::<(), Error>(())
                    &&& after.holds(chains@, nodes@, blobs@)
                    &&& after.entries(chains@) == before.entries(chains@)
                    &&& after.blobs == before.blobs
                    &&& after.body.pages.block_size == before.body.pages.block_size
                }
            }),
    {
        let ghost first = self.storage();
        let ghost sound = first.holds(
            chains@,
            nodes@.union(offsets_from(list@, from as int)),
            blobs@,
        ) && reserved(first.body, nodes@, list@.skip(from as int));
        let mut next: usize = from;
        while next < list.len()
            invariant
                self.wf(),
                self.config == old(self).config,
                from <= next <= list.len(),
                first == old(self).storage(),
                reserved_released(first, list@, from as int) == reserved_released(
                    self.storage(),
                    list@,
                    next as int,
                ),
                sound == (first.holds(
                    chains@,
                    nodes@.union(offsets_from(list@, from as int)),
                    blobs@,
                ) && reserved(first.body, nodes@, list@.skip(from as int))),
                sound ==> {
                    &&& self.storage().holds(
                        chains@,
                        nodes@.union(offsets_from(list@, next as int)),
                        blobs@,
                    )
                    &&& self.storage().entries(chains@) == first.entries(chains@)
                    &&& self.storage().blobs == first.blobs
                    &&& self.body.pages().block_size == first.body.pages.block_size
                },
            decreases list.len() - next,
        {
            let ghost now = self.storage();
            proof {
                if sound {
                    let nodes_now = nodes@.union(offsets_from(list@, next as int));
                    let offset = list@[next as int].offset as int;
                    let rest = list@.skip(from as int);
                    assert(rest[next - from] == list@[next as int]);
                    assert(nodes_now.contains(offset));
                    lemma_private_node(now, chains@, nodes_now, blobs@, offset);
                    lemma_node_released(now, chains@, nodes_now, blobs@, offset);
                    assert forall|i: int|
                        next < i < list@.len() implies (#[trigger] list@[i]).offset != offset by {
                        assert(rest[i - from] == list@[i]);
                    }
                    assert(nodes_now.remove(offset) =~= nodes@.union(
                        offsets_from(list@, next + 1),
                    ));
                    assert(list@[next as int] == node_allocation(now.body, offset));
                }
            }
            self.body.release(list[next])?;
            next = next + 1;
        }
        proof {
            if sound {
                assert(nodes@.union(offsets_from(list@, list@.len() as int)) =~= nodes@);
            }
        }
        Ok(())
    }
}

/// Whether reserved nodes lie inside the data file.
pub open spec fn in_file(list: Seq<Allocation>, file_length: int) -> bool {
    forall|i: int|
        #![trigger list[i]]
        0 <= i < list.len() ==> list[i].length == NODE_SIZE && list[i].offset + NODE_SIZE
            <= file_length
}

/// Whether private nodes hold the first entries of a batch, and `list` is reserved.
pub open spec fn filling(
    storage: Storage,
    chains: Seq<Seq<u64>>,
    private: Seq<LooseNode>,
    list: Seq<Allocation>,
    from: int,
    entries: Seq<Entry>,
) -> bool {
    &&& storage.holds(
        chains,
        nodes_of(private).union(offsets_from(list, from)),
        blobs_of(private),
    )
    &&& reserved(storage.body, nodes_of(private), list.skip(from))
    &&& all_private(storage, private, entries)
    &&& unlinked_list(storage.body.data, private)
    &&& detached_from(storage, private)
}

/// One more reserved node filled.
proof fn lemma_filled(
    before: Storage,
    chains: Seq<Seq<u64>>,
    private: Seq<LooseNode>,
    list: Seq<Allocation>,
    from: int,
    entries: Seq<Entry>,
)
    requires
        filling(before, chains, private, list, from, entries),
        0 <= from < list.len(),
        private.len() < entries.len(),
        entries[private.len() as int].key.len() == KEY_SIZE,
        before.config.mode == Mode::KeySet ==> entries[private.len() as int].value == Seq::<
            u8,
        >::empty(),
    ensures
        ({
            let entry = entries[private.len() as int];
            let (after, result) = initialized(before, list[from], entry);
            let (stored, defect) = value_stored(before.config.mode, before.blobs, entry.value);
            &&& after.body.pages == before.body.pages
            &&& after.entries(chains) == before.entries(chains)
            &&& after.blobs == stored
            &&& match result {
                Ok(made) => {
                    &&& defect is None
                    &&& filling(after, chains, private.push(made), list, from + 1, entries)
                },
                Err(error) => {
                    &&& defect == Some(error)
                    &&& after.holds(
                        chains,
                        nodes_of(private).union(offsets_from(list, from)),
                        blobs_of(private),
                    )
                    &&& detached_from(after, private)
                    &&& reserved(after.body, nodes_of(private), list.skip(from))
                },
            }
        }),
{
    let entry = entries[private.len() as int];
    let (after, result) = initialized(before, list[from], entry);
    let nodes = nodes_of(private).union(offsets_from(list, from));
    let rest = list.skip(from);
    assert(rest[0] == list[from]);
    assert(nodes.contains(list[from].offset as int));
    lemma_initialized(before, chains, nodes, blobs_of(private), list[from], entry);
    if before.config.mode == Mode::KeyMap {
        lemma_outcome_pages(before.blobs->0.pages, BLOB_HEADER_SIZE + entry.value.len(), 8, 1);
    }
    match result {
        Ok(made) => {
            lemma_push_private(before, after, chains, private, entries, made);
            let longer = private.push(made);
            assert(nodes_of(longer).union(offsets_from(list, from + 1)) =~= nodes) by {
                assert forall|o: int|
                    nodes.contains(o) implies nodes_of(longer).union(
                    offsets_from(list, from + 1),
                ).contains(o) by {
                    if offsets_from(list, from).contains(o) {
                        let i = choose|i: int|
                            from <= i < list.len() && (#[trigger] list[i]).offset == o;
                        if i > from {
                            assert(offsets_from(list, from + 1).contains(o));
                        }
                    }
                }
            }
            let next = list.skip(from + 1);
            assert forall|i: int|
                #![trigger next[i]]
                0 <= i < next.len() implies next[i] == rest[i + 1] by {}
            assert(reserved(after.body, nodes_of(longer), next));
        },
        Err(_) => {
            crate::removal::lemma_detached_kept(before, after, private);
        },
    }
}

impl Table {
    /// Writes the entries of items from `start` on into reserved nodes. Where a value
    /// cannot be stored, the reserved nodes that are left are released.
    fn fill_reserved(
        &mut self,
        keys: &[&[u8]],
        values: &Vec<&[u8]>,
        items: &Vec<Prepared>,
        start: usize,
        list: &Vec<Allocation>,
        private: &mut Vec<LooseNode>,
        chains: Ghost<Seq<Seq<u64>>>,
    ) -> (result: Result<(), Error>)
        requires
            old(self).wf(),
            prepared_for(old(self).config, key_views(keys@), false, items@),
            forall|i: int| 0 <= i < keys@.len() ==> (#[trigger] keys@[i])@.len() == KEY_SIZE,
            old(self).config.mode == Mode::KeyMap ==> values.len() == keys.len(),
            start + list.len() <= items.len(),
            old(private)@.len() == start,
            in_file(list@, old(self).body.data().len() as int),
            bounded(old(private)@),
        ensures
            final(self).wf(),
            final(self).config == old(self).config,
            bounded(final(private)@),
            result is Ok ==> final(private)@.len() == start + list@.len(),
            (Insertion { storage: final(self).storage(), private: final(private)@ }, result)
                == fill_outcome(
                Insertion { storage: old(self).storage(), private: old(private)@ },
                list@,
                0,
                arranged(
                    batch_entries(old(self).config.mode, key_views(keys@), key_views(values@)),
                    items@,
                ),
            ),
            ({
                let before = old(self).storage();
                let after = final(self).storage();
                let entries = arranged(
                    batch_entries(before.config.mode, key_views(keys@), key_views(values@)),
                    items@,
                );
                filling(before, chains@, old(private)@, list@, 0, entries) ==> {
                    let (stored, defect) = values_stored(
                        before.config.mode,
                        before.blobs,
                        entries,
                        start as int,
                        start + list@.len(),
                    );
                    &&& after.entries(chains@) == before.entries(chains@)
                    &&& match defect {
                        Some(error) => {
                            &&& result == Err::<(), Error>(error)
                            &&& after.holds(
                                chains@,
                                nodes_of(final(private)@),
                                blobs_of(final(private)@),
                            )
                            &&& detached_from(after, final(private)@)
                        },
                        None => {
                            &&& result == Ok::<(), Error>(())
                            &&& filling(
                                after,
                                chains@,
                                final(private)@,
                                list@,
                                list@.len() as int,
                                entries,
                            )
                            &&& after.body.pages == before.body.pages
                            &&& after.blobs == stored
                        },
                    }
                }
            }),
    {
        let ghost first = self.storage();
        let ghost mode = first.config.mode;
        let ghost views = key_views(keys@);
        let ghost input = batch_entries(mode, views, key_views(values@));
        let ghost entries = arranged(input, items@);
        let ghost sound = filling(first, chains@, private@, list@, 0, entries);
        let ghost outcome = values_stored(
            mode,
            first.blobs,
            entries,
            start as int,
            start + list@.len(),
        );
        let file_length: Ghost<int> = Ghost(self.body.data().len() as int);
        let nothing: Vec<u8> = Vec::new();
        let mut next: usize = 0;
        while next < list.len()
            invariant
                self.wf(),
                self.config == old(self).config,
                self.config == first.config,
                first == old(self).storage(),
                mode == first.config.mode,
                views == key_views(keys@),
                prepared_for(self.config, views, false, items@),
                forall|i: int| 0 <= i < keys@.len() ==> (#[trigger] keys@[i])@.len() == KEY_SIZE,
                self.config.mode == Mode::KeyMap ==> values.len() == keys.len(),
                start + list.len() <= items.len(),
                next <= list.len(),
                private@.len() == start + next,
                in_file(list@, file_length@),
                self.body.data().len() == file_length@,
                bounded(private@),
                nothing@ == Seq::<u8>::empty(),
                input == batch_entries(mode, views, key_views(values@)),
                entries == arranged(input, items@),
                sound == filling(first, chains@, old(private)@, list@, 0, entries),
                outcome == values_stored(
                    mode,
                    first.blobs,
                    entries,
                    start as int,
                    start + list@.len(),
                ),
                fill_outcome(
                    Insertion { storage: first, private: old(private)@ },
                    list@,
                    0,
                    entries,
                ) == fill_outcome(
                    Insertion { storage: self.storage(), private: private@ },
                    list@,
                    next as int,
                    entries,
                ),
                sound ==> {
                    &&& filling(self.storage(), chains@, private@, list@, next as int, entries)
                    &&& self.storage().entries(chains@) == first.entries(chains@)
                    &&& self.storage().body.pages == first.body.pages
                    &&& outcome == values_stored(
                        mode,
                        self.storage().blobs,
                        entries,
                        start + next,
                        start + list@.len(),
                    )
                },
            decreases list.len() - next,
        {
            let item: usize = start + next;
            let order: usize = items[item].order;
            assert(prepares(self.config, views, false, items@[item as int]));
            let value: &[u8] = if self.config.mode == Mode::KeyMap {
                values[order]
            } else {
                nothing.as_slice()
            };
            let ghost now = self.storage();
            proof {
                assert(entries[item as int].key == keys@[order as int]@);
                assert(entries[item as int].value == value@);
                if sound {
                    lemma_filled(now, chains@, private@, list@, next as int, entries);
                }
            }
            assert(list@[next as int].length == NODE_SIZE);
            match self.initialize_reserved_insert(keys[order], value, list[next]) {
                Ok(made) => {
                    private.push(made);
                },
                Err(error) => {
                    let ghost failed = self.storage();
                    self.release_reserved(
                        list,
                        next,
                        chains,
                        Ghost(nodes_of(private@)),
                        Ghost(blobs_of(private@)),
                    )?;
                    proof {
                        if sound {
                            crate::removal::lemma_detached_kept(
                                failed,
                                self.storage(),
                                private@,
                            );
                        }
                    }
                    return Err(error);
                },
            }
            next = next + 1;
        }
        Ok(())
    }
}

/// Whether private nodes hold the first entries of a batch.
pub open spec fn holding(
    storage: Storage,
    chains: Seq<Seq<u64>>,
    private: Seq<LooseNode>,
    entries: Seq<Entry>,
) -> bool {
    &&& storage.holds(chains, nodes_of(private), blobs_of(private))
    &&& all_private(storage, private, entries)
    &&& unlinked_list(storage.body.data, private)
    &&& detached_from(storage, private)
}

/// Reserving nodes for the next entries.
proof fn lemma_reserving(
    before: Storage,
    chains: Seq<Seq<u64>>,
    private: Seq<LooseNode>,
    entries: Seq<Entry>,
    maximum: int,
)
    requires
        holding(before, chains, private, entries),
        0 <= maximum,
    ensures
        ({
            let result = batch_outcome(
                before.body.pages,
                NODE_SIZE as int,
                NODE_ALIGNMENT as int,
                maximum,
            ).1;
            let body = after_request(
                before.body,
                NODE_SIZE as int,
                NODE_ALIGNMENT as int,
                maximum,
            );
            let after = Storage { body, ..before };
            &&& after.entries(chains) == before.entries(chains)
            &&& match result {
                Ok(batch) => filling(
                    after,
                    chains,
                    private,
                    batch_allocations(batch),
                    0,
                    entries,
                ),
                Err(_) => after.holds(chains, nodes_of(private), blobs_of(private))
                    && detached_from(after, private),
            }
        }),
{
    let (size, alignment) = (NODE_SIZE as int, NODE_ALIGNMENT as int);
    let result = batch_outcome(before.body.pages, size, alignment, maximum).1;
    let body = after_request(before.body, size, alignment, maximum);
    let after = Storage { body, ..before };
    lemma_nodes_reserved(before, chains, nodes_of(private), blobs_of(private), maximum);
    lemma_outcome_pages(before.body.pages, size, alignment, maximum);
    crate::removal::lemma_detached_kept(before, after, private);
    assert forall|i: int|
        #![trigger private[i]]
        0 <= i < private.len() implies is_private(after, private[i], entries[i]) && next_at(
        body.data,
        private[i].body.offset as int,
    ) == 0 by {
        assert(is_private(before, private[i], entries[i]));
    }
    if let Ok(batch) = result {
        assert(batch_allocations(batch).skip(0) =~= batch_allocations(batch));
    }
}

impl Table {
    /// Reserves nodes for all items of a batch and writes their entries.
    fn allocate_private_inserts(
        &mut self,
        keys: &[&[u8]],
        values: &Vec<&[u8]>,
        items: &Vec<Prepared>,
        private: &mut Vec<LooseNode>,
        chains: Ghost<Seq<Seq<u64>>>,
    ) -> (result: Result<(), Error>)
        requires
            old(self).wf(),
            prepared_for(old(self).config, key_views(keys@), false, items@),
            forall|i: int| 0 <= i < keys@.len() ==> (#[trigger] keys@[i])@.len() == KEY_SIZE,
            old(self).config.mode == Mode::KeyMap ==> values.len() == keys.len(),
            old(private)@.len() == 0,
        ensures
            final(self).wf(),
            final(self).config == old(self).config,
            bounded(final(private)@),
            result is Ok ==> final(private)@.len() == items@.len(),
            (Insertion { storage: final(self).storage(), private: final(private)@ }, result)
                == reserve_outcome(
                Insertion { storage: old(self).storage(), private: Seq::empty() },
                arranged(
                    batch_entries(old(self).config.mode, key_views(keys@), key_views(values@)),
                    items@,
                ),
            ),
            ({
                let before = old(self).storage();
                let after = final(self).storage();
                let entries = arranged(
                    batch_entries(before.config.mode, key_views(keys@), key_views(values@)),
                    items@,
                );
                before.holds(chains@, Set::empty(), Map::empty()) ==> {
                    &&& after.entries(chains@) == before.entries(chains@)
                    &&& after.holds(chains@, nodes_of(final(private)@), blobs_of(final(private)@))
                    &&& detached_from(after, final(private)@)
                    &&& match insert_defect(
                        before.config.mode,
                        before.body.pages,
                        before.blobs,
                        entries,
                        0,
                    ) {
                        Some(error) => result == Err::<(), Error>(error),
                        None => result == Ok::<(), Error>(()) && holding(
                            after,
                            chains@,
                            final(private)@,
                            entries,
                        ),
                    }
                }
            }),
    {
        let ghost first = self.storage();
        let ghost mode = first.config.mode;
        let ghost views = key_views(keys@);
        let ghost entries = arranged(batch_entries(mode, views, key_views(values@)), items@);
        let ghost sound = first.holds(chains@, Set::empty(), Map::empty());
        let ghost outcome = insert_defect(mode, first.body.pages, first.blobs, entries, 0);
        let count: usize = items.len();
        let mut start: usize = 0;
        proof {
            assert(private@ =~= Seq::empty());
            assert(nodes_of(private@) =~= Set::empty());
            assert(blobs_of(private@) =~= Map::empty());
        }
        while start < count
            invariant
                self.wf(),
                self.config == old(self).config,
                self.config == first.config,
                first == old(self).storage(),
                mode == first.config.mode,
                views == key_views(keys@),
                prepared_for(self.config, views, false, items@),
                forall|i: int| 0 <= i < keys@.len() ==> (#[trigger] keys@[i])@.len() == KEY_SIZE,
                self.config.mode == Mode::KeyMap ==> values.len() == keys.len(),
                count == items.len(),
                start <= count,
                private@.len() == start,
                bounded(private@),
                entries == arranged(batch_entries(mode, views, key_views(values@)), items@),
                sound == first.holds(chains@, Set::empty(), Map::empty()),
                outcome == insert_defect(mode, first.body.pages, first.blobs, entries, 0),
                reserve_outcome(
                    Insertion { storage: first, private: Seq::empty() },
                    entries,
                ) == reserve_outcome(
                    Insertion { storage: self.storage(), private: private@ },
                    entries,
                ),
                sound ==> {
                    &&& holding(self.storage(), chains@, private@, entries)
                    &&& self.storage().entries(chains@) == first.entries(chains@)
                    &&& outcome == insert_defect(
                        mode,
                        self.storage().body.pages,
                        self.storage().blobs,
                        entries,
                        start as int,
                    )
                },
            decreases count - start,
        {
            let ghost now = self.storage();
            proof {
                lemma_batch_reserved(self.body.files(), count - start);
                reveal_with_fuel(reserve_outcome, 2);
                if sound {
                    lemma_reserving(now, chains@, private@, entries, count - start);
                }
            }
            let batch = self.body.allocate_batch(NODE_SIZE, NODE_ALIGNMENT, count - start)?;
            let list = batch.allocations();
            let ghost ready = self.storage();
            proof {
                assert(list@ =~= batch_allocations(batch));
                assert(ready.blobs == now.blobs);
                assert(ready == Storage { body: ready.body, ..now });
            }
            self.fill_reserved(keys, values, items, start, &list, private, chains)?;
            proof {
                if sound {
                    assert(nodes_of(private@).union(
                        offsets_from(list@, list@.len() as int),
                    ) =~= nodes_of(private@));
                }
            }
            start = start + list.len();
        }
        proof {
            reveal_with_fuel(reserve_outcome, 2);
        }
        Ok(())
    }
}

/// Nodes of a list are distinct, and so are their blobs.
pub proof fn lemma_list_distinct(storage: Storage, list: Seq<LooseNode>, i: int, j: int)
    requires
        detached_from(storage, list),
        0 <= i < j < list.len(),
    ensures
        list[i].body.offset != list[j].body.offset,
        list[i].blob is Some && list[j].blob is Some ==> (list[i].blob->0).offset != (
        list[j].blob->0).offset,
    decreases list.len(),
{
    let front = list.drop_last();
    if j < list.len() - 1 {
        lemma_list_distinct(storage, front, i, j);
        assert(front[i] == list[i] && front[j] == list[j]);
    } else {
        lemma_listed(storage, front, i);
        assert(front[i] == list[i]);
    }
}

/// The node that private node `j` points to when the first `upto` are linked: the
/// one before it, where both are in one bucket.
#[verifier::opaque]
pub open spec fn next_in(list: Seq<LooseNode>, items: Seq<Prepared>, upto: int, j: int) -> u64 {
    if 0 < j < upto && items[j - 1].bucket == items[j].bucket {
        list[j - 1].body.offset
    } else {
        0
    }
}

/// Whether the first `upto` nodes of a list are linked.
pub open spec fn bucket_linked(
    data: Seq<u8>,
    list: Seq<LooseNode>,
    items: Seq<Prepared>,
    from: int,
    upto: int,
) -> bool {
    forall|j: int|
        #![trigger list[j]]
        from <= j < list.len() ==> next_at(data, list[j].body.offset as int) == next_in(
            list,
            items,
            upto,
            j,
        )
}

/// Writing the next-node offset of a node that is set apart keeps what is held.
pub proof fn lemma_private_pointed(
    before: Storage,
    chains: Seq<Seq<u64>>,
    nodes: Set<int>,
    blobs: Map<int, int>,
    node: LooseNode,
    entry: Entry,
    replacement: u64,
)
    requires
        before.holds(chains, nodes, blobs),
        nodes.contains(node.body.offset as int),
        is_private(before, node, entry),
        replacement < NODE_POINTER_LIMIT,
    ensures
        ({
            let offset = node.body.offset as int;
            let data = with_next(before.body.data, offset, replacement);
            let after = Storage { body: Files { data, ..before.body }, ..before };
            &&& after.holds(chains, nodes, blobs)
            &&& after.entries(chains) == before.entries(chains)
            &&& is_private(after, node, entry)
            &&& next_at(data, offset) == replacement
            &&& data.len() == before.body.data.len()
            &&& crate::allocator::word_access_defect(
                before.body.capacity(),
                before.body.data.len() as int,
                offset + NODE_POINTER_OFFSET,
            ) is None
            &&& forall|other: LooseNode, one: Entry|
                #![trigger is_private(before, other, one)]
                is_private(before, other, one) && other.body.offset != offset ==> is_private(
                    after,
                    other,
                    one,
                ) && next_at(data, other.body.offset as int) == next_at(
                    before.body.data,
                    other.body.offset as int,
                )
        }),
{
    let offset = node.body.offset as int;
    let capacity = before.body.capacity();
    let data = with_next(before.body.data, offset, replacement);
    let after = Storage { body: Files { data, ..before.body }, ..before };
    let word = (pointer_at(before.body.data, offset) - next_at(before.body.data, offset)
        + replacement) as u64;
    lemma_le_fields();
    lemma_private_node(before, chains, nodes, blobs, offset);
    lemma_with_next(capacity, before.body.data, offset, replacement);
    lemma_private_written(
        before,
        chains,
        nodes,
        blobs,
        offset,
        offset + NODE_POINTER_OFFSET,
        le64_bytes(word),
    );
    lemma_private_kept(before, after, node, entry);
    assert forall|other: LooseNode, one: Entry|
        #![trigger is_private(before, other, one)]
        is_private(before, other, one) && other.body.offset != offset implies is_private(
        after,
        other,
        one,
    ) && next_at(data, other.body.offset as int) == next_at(
        before.body.data,
        other.body.offset as int,
    ) by {
        assert(node_defect(capacity, before.body.data, other.body.offset as int) is None);
        lemma_private_kept(before, after, other, one);
    }
}

/// The offset of a private node can stand in a pointer word.
pub proof fn lemma_private_in_range(storage: Storage, node: LooseNode, entry: Entry)
    requires
        storage.config.valid(),
        storage.sized(),
        is_private(storage, node, entry),
    ensures
        node.body.offset < NODE_POINTER_LIMIT,
{
}

/// One more node of a list linked.
proof fn lemma_link_step(
    before: Storage,
    chains: Seq<Seq<u64>>,
    list: Seq<LooseNode>,
    entries: Seq<Entry>,
    items: Seq<Prepared>,
    i: int,
)
    requires
        before.holds(chains, nodes_of(list), blobs_of(list)),
        all_private(before, list, entries),
        detached_from(before, list),
        bucket_linked(before.body.data, list, items, 0, i),
        0 < i < list.len(),
        list.len() == items.len(),
    ensures
        if items[i - 1].bucket == items[i].bucket {
            let offset = list[i].body.offset as int;
            let data = with_next(before.body.data, offset, list[i - 1].body.offset);
            let after = Storage { body: Files { data, ..before.body }, ..before };
            &&& crate::node::set_next_defect(
                before.body.capacity(),
                before.body.data,
                offset,
                0,
                list[i - 1].body.offset as int,
            ) is None
            &&& next_at(before.body.data, offset) == 0
            &&& after.holds(chains, nodes_of(list), blobs_of(list))
            &&& after.entries(chains) == before.entries(chains)
            &&& all_private(after, list, entries)
            &&& detached_from(after, list)
            &&& bucket_linked(data, list, items, 0, i + 1)
        } else {
            bucket_linked(before.body.data, list, items, 0, i + 1)
        },
{
    reveal(next_in);
    if items[i - 1].bucket == items[i].bucket {
        let offset = list[i].body.offset as int;
        let replacement = list[i - 1].body.offset;
        let data = with_next(before.body.data, offset, replacement);
        let after = Storage { body: Files { data, ..before.body }, ..before };
        lemma_listed(before, list, i);
        assert(is_private(before, list[i - 1], entries[i - 1]));
        assert(is_private(before, list[i], entries[i]));
        lemma_private_in_range(before, list[i - 1], entries[i - 1]);
        lemma_private_pointed(
            before,
            chains,
            nodes_of(list),
            blobs_of(list),
            list[i],
            entries[i],
            replacement,
        );
        crate::removal::lemma_detached_kept(before, after, list);
        assert forall|j: int|
            #![trigger list[j]]
            0 <= j < list.len() implies is_private(after, list[j], entries[j]) && next_at(
            data,
            list[j].body.offset as int,
        ) == next_in(list, items, i + 1, j) by {
            assert(is_private(before, list[j], entries[j]));
            if j < i {
                lemma_list_distinct(before, list, j, i);
            } else if i < j {
                lemma_list_distinct(before, list, i, j);
            }
        }
    }
}

impl Table {
    /// Links private nodes of one bucket, each to the one before it.
    fn link_private_batch(
        &mut self,
        private: &Vec<LooseNode>,
        items: &Vec<Prepared>,
        chains: Ghost<Seq<Seq<u64>>>,
        entries: Ghost<Seq<Entry>>,
    ) -> (result: Result<(), Error>)
        requires
            old(self).wf(),
            private.len() == items.len(),
            bounded(private@),
        ensures
            final(self).wf(),
            final(self).config == old(self).config,
            (final(self).storage(), result) == link_outcome(
                old(self).storage(),
                private@,
                items@,
                1,
            ),
            holding(old(self).storage(), chains@, private@, entries@) ==> {
                let after = final(self).storage();
                &&& result == Ok::<(), Error>(())
                &&& after.entries(chains@) == old(self).storage().entries(chains@)
                &&& after.holds(chains@, nodes_of(private@), blobs_of(private@))
                &&& all_private(after, private@, entries@)
                &&& detached_from(after, private@)
                &&& bucket_linked(
                    after.body.data,
                    private@,
                    items@,
                    0,
                    private@.len() as int,
                )
            },
    {
        let ghost first = self.storage();
        let ghost sound = holding(first, chains@, private@, entries@);
        let count: usize = private.len();
        let mut next: usize = 1;
        proof {
            reveal(next_in);
        }
        while next < count
            invariant
                self.wf(),
                self.config == old(self).config,
                count == private.len(),
                private.len() == items.len(),
                bounded(private@),
                first == old(self).storage(),
                sound == holding(first, chains@, private@, entries@),
                1 <= next,
                count > 0 ==> next <= count,
                link_outcome(first, private@, items@, 1) == link_outcome(
                    self.storage(),
                    private@,
                    items@,
                    next as int,
                ),
                sound ==> {
                    let now = self.storage();
                    &&& now.entries(chains@) == first.entries(chains@)
                    &&& now.holds(chains@, nodes_of(private@), blobs_of(private@))
                    &&& all_private(now, private@, entries@)
                    &&& detached_from(now, private@)
                    &&& bucket_linked(now.body.data, private@, items@, 0, next as int)
                },
            decreases count - next,
        {
            proof {
                reveal_with_fuel(link_outcome, 2);
                if sound {
                    lemma_link_step(
                        self.storage(),
                        chains@,
                        private@,
                        entries@,
                        items@,
                        next as int,
                    );
                }
            }
            if items[next - 1].bucket == items[next].bucket {
                assert(private@[next as int].body.offset + NODE_SIZE <= u64::MAX);
                crate::node::set_private_next(
                    &mut self.body,
                    private[next].body.offset,
                    0,
                    private[next - 1].body.offset,
                )?;
            }
            next = next + 1;
        }
        proof {
            reveal_with_fuel(link_outcome, 2);
        }
        Ok(())
    }
}

/// The nodes of a list from one on.
pub open spec fn nodes_from(list: Seq<LooseNode>, start: int) -> Set<int> {
    Set::new(
        |offset: int|
            exists|i: int| start <= i < list.len() && (#[trigger] list[i]).body.offset == offset,
    )
}

/// Whether the blob of a node stands at `offset`.
pub open spec fn blob_is(node: LooseNode, offset: int) -> bool {
    node.blob matches Some(blob) && blob.offset == offset
}

/// The blobs of a list from one node on.
pub open spec fn blobs_from(blobs: Option<Files>, list: Seq<LooseNode>, start: int) -> Map<
    int,
    int,
> {
    Map::new(
        |offset: int|
            exists|i: int| start <= i < list.len() && blob_is(#[trigger] list[i], offset),
        |offset: int| blob_extent(blobs->0, offset),
    )
}

/// What is among the nodes and blobs of a list belongs to one of its nodes.
pub proof fn lemma_unlisted(list: Seq<LooseNode>)
    ensures
        forall|o: int|
            #![trigger nodes_of(list).contains(o)]
            nodes_of(list).contains(o) ==> exists|i: int|
                0 <= i < list.len() && (#[trigger] list[i]).body.offset == o,
        forall|o: int|
            #![trigger blobs_of(list).dom().contains(o)]
            blobs_of(list).dom().contains(o) ==> exists|i: int|
                0 <= i < list.len() && blob_is(#[trigger] list[i], o),
    decreases list.len(),
{
    if list.len() > 0 {
        let front = list.drop_last();
        lemma_unlisted(front);
        assert forall|o: int|
            #![trigger nodes_of(list).contains(o)]
            nodes_of(list).contains(o) implies exists|i: int|
            0 <= i < list.len() && (#[trigger] list[i]).body.offset == o by {
            if nodes_of(front).contains(o) {
                let i = choose|i: int|
                    0 <= i < front.len() && (#[trigger] front[i]).body.offset == o;
                assert(list[i].body.offset == o);
            } else {
                assert(list[list.len() - 1].body.offset == o);
            }
        }
        assert forall|o: int|
            #![trigger blobs_of(list).dom().contains(o)]
            blobs_of(list).dom().contains(o) implies exists|i: int|
            0 <= i < list.len() && blob_is(#[trigger] list[i], o) by {
            if blobs_of(front).dom().contains(o) {
                let i = choose|i: int| 0 <= i < front.len() && blob_is(#[trigger] front[i], o);
                assert(blob_is(list[i], o));
            } else {
                assert(blob_is(list[list.len() - 1], o));
            }
        }
    }
}

/// Nodes and blobs of a list are those from its first node on.
proof fn lemma_from_start(storage: Storage, list: Seq<LooseNode>, entries: Seq<Entry>)
    requires
        all_private(storage, list, entries),
    ensures
        nodes_from(list, 0) == nodes_of(list),
        blobs_from(storage.blobs, list, 0) == blobs_of(list),
{
    lemma_unlisted(list);
    assert forall|o: int| nodes_from(list, 0).contains(o) implies nodes_of(list).contains(o) by {
        let i = choose|i: int| 0 <= i < list.len() && (#[trigger] list[i]).body.offset == o;
        lemma_listed(storage, list, i);
    }
    assert(nodes_from(list, 0) =~= nodes_of(list));
    assert forall|o: int|
        #![trigger blobs_from(storage.blobs, list, 0).dom().contains(o)]
        blobs_from(storage.blobs, list, 0).dom().contains(o) implies blobs_of(
        list,
    ).dom().contains(o) && blobs_of(list)[o] == blob_extent(storage.blobs->0, o) by {
        let i = choose|i: int| 0 <= i < list.len() && blob_is(#[trigger] list[i], o);
        lemma_listed(storage, list, i);
        assert(is_private(storage, list[i], entries[i]));
    }
    assert(blobs_from(storage.blobs, list, 0) =~= blobs_of(list));
}

/// The offsets of a group of private nodes, the last one first.
pub open spec fn fresh_of(list: Seq<LooseNode>, start: int, end: int) -> Seq<u64> {
    Seq::new((end - start) as nat, |k: int| list[end - 1 - k].body.offset)
}

/// The entries of a group, the last one first.
pub open spec fn fresh_entries(entries: Seq<Entry>, start: int, end: int) -> Seq<Entry> {
    Seq::new((end - start) as nat, |k: int| entries[end - 1 - k])
}

/// Whether the nodes of a list from one on are private, linked, and set apart.
pub open spec fn committing(
    storage: Storage,
    chains: Seq<Seq<u64>>,
    list: Seq<LooseNode>,
    entries: Seq<Entry>,
    items: Seq<Prepared>,
    start: int,
) -> bool {
    &&& storage.holds(chains, nodes_from(list, start), blobs_from(storage.blobs, list, start))
    &&& list.len() == entries.len()
    &&& list.len() == items.len()
    &&& forall|j: int|
        #![trigger list[j]]
        start <= j < list.len() ==> is_private(storage, list[j], entries[j])
    &&& bucket_linked(storage.body.data, list, items, start, list.len() as int)
    &&& detached_from(storage, list)
}

/// Whether `start..end` is all of the items of one bucket.
pub open spec fn is_group(items: Seq<Prepared>, start: int, end: int) -> bool {
    &&& 0 <= start < end <= items.len()
    &&& start > 0 ==> items[start - 1].bucket != items[start].bucket
    &&& end < items.len() ==> items[end].bucket != items[start].bucket
    &&& forall|j: int| start <= j < end ==> (#[trigger] items[j]).bucket == items[start].bucket
}

/// The storage after a group was put in front of its bucket.
pub open spec fn committed(
    storage: Storage,
    list: Seq<LooseNode>,
    bucket: int,
    start: int,
    end: int,
) -> Storage {
    let data = with_next(
        storage.body.data,
        list[start].body.offset as int,
        storage.heads[bucket],
    );
    Storage {
        heads: storage.heads.update(bucket, list[end - 1].body.offset),
        body: Files { data, ..storage.body },
        ..storage
    }
}

/// Pointing the last node of a group to the head of its bucket makes it publishable.
proof fn lemma_group_publishable(
    before: Storage,
    chains: Seq<Seq<u64>>,
    list: Seq<LooseNode>,
    entries: Seq<Entry>,
    items: Seq<Prepared>,
    start: int,
    end: int,
)
    requires
        committing(before, chains, list, entries, items, start),
        is_group(items, start, end),
        items[start].bucket < chains.len(),
        forall|j: int|
            #![trigger entries[j]]
            start <= j < end ==> bucket_of(before.config, entries[j].key) == items[j].bucket,
    ensures
        ({
            let bucket = items[start].bucket as int;
            let tail = list[start].body.offset as int;
            let data = with_next(before.body.data, tail, before.heads[bucket]);
            let pointed = Storage { body: Files { data, ..before.body }, ..before };
            let nodes = nodes_from(list, start);
            let blobs = blobs_from(before.blobs, list, start);
            &&& before.heads[bucket] < NODE_POINTER_LIMIT
            &&& crate::allocator::word_access_defect(
                before.body.capacity(),
                before.body.data.len() as int,
                tail + NODE_POINTER_OFFSET,
            ) is None
            &&& crate::allocator::read_defect(
                before.body.capacity(),
                before.body.data.len() as int,
                tail + NODE_POINTER_OFFSET,
                8,
            ) is None
            &&& next_at(before.body.data, tail) == 0
            &&& pointed.holds(chains, nodes, blobs)
            &&& pointed.entries(chains) == before.entries(chains)
            &&& publishable(pointed, bucket, fresh_of(list, start, end), nodes, blobs)
            &&& forall|j: int|
                #![trigger list[j]]
                start <= j < list.len() ==> is_private(pointed, list[j], entries[j])
            &&& bucket_linked(data, list, items, end, list.len() as int)
        }),
{
    let bucket = items[start].bucket as int;
    let tail = list[start];
    let offset = tail.body.offset as int;
    let head = before.heads[bucket];
    let data = with_next(before.body.data, offset, head);
    let pointed = Storage { body: Files { data, ..before.body }, ..before };
    let nodes = nodes_from(list, start);
    let blobs = blobs_from(before.blobs, list, start);
    let fresh = fresh_of(list, start, end);
    assert(linked(before.body, head, chains[bucket]));
    assert(head < NODE_POINTER_LIMIT) by {
        if head != 0 {
            assert(node_defect(
                before.body.capacity(),
                before.body.data,
                chains[bucket][0] as int,
            ) is None);
        }
    }
    assert(nodes.contains(offset));
    assert(is_private(before, tail, entries[start]));
    lemma_private_pointed(before, chains, nodes, blobs, tail, entries[start], head);
    assert forall|j: int|
        #![trigger list[j]]
        start <= j < list.len() implies is_private(pointed, list[j], entries[j]) && next_at(
        data,
        list[j].body.offset as int,
    ) == (if j == start {
        head
    } else {
        next_in(list, items, list.len() as int, j)
    }) by {
        assert(is_private(before, list[j], entries[j]));
        if j > start {
            lemma_list_distinct(before, list, start, j);
        }
    }
    reveal(next_in);
    assert(next_at(before.body.data, list[start].body.offset as int) == 0);
    assert forall|k: int|
        #![trigger fresh[k]]
        0 <= k < fresh.len() implies {
        let word = value_at(data, fresh[k] as int);
        &&& nodes.contains(fresh[k] as int)
        &&& node_defect(pointed.body.capacity(), data, fresh[k] as int) is None
        &&& bucket_of(pointed.config, key_at(data, fresh[k] as int)) == bucket
        &&& pointed.valid_word(word)
        &&& word >= VALUE_BLOB_TAG ==> blobs.dom().contains(word - VALUE_BLOB_TAG) && blobs[word
            - VALUE_BLOB_TAG] == blob_extent(pointed.blobs->0, word - VALUE_BLOB_TAG)
        &&& next_at(data, fresh[k] as int) == (if k + 1 < fresh.len() {
            fresh[k + 1]
        } else {
            head
        })
    } by {
        let j = end - 1 - k;
        assert(fresh[k] == list[j].body.offset);
        assert(is_private(pointed, list[j], entries[j]));
        assert(items[j].bucket == bucket);
        assert(entries[j].key == key_at(data, fresh[k] as int));
        let word = value_at(data, fresh[k] as int);
        if word >= VALUE_BLOB_TAG {
            assert(blob_is(list[j], word - VALUE_BLOB_TAG));
        }
        if j > start {
            assert(items[j - 1].bucket == bucket);
            assert(fresh[k + 1] == list[j - 1].body.offset);
        }
    }
    assert forall|k: int, l: int|
        #![trigger fresh[k], fresh[l]]
        0 <= k < l < fresh.len() implies fresh[k] != fresh[l] && (value_at(data, fresh[k] as int)
        >= VALUE_BLOB_TAG ==> value_at(data, fresh[k] as int) != value_at(
        data,
        fresh[l] as int,
    )) by {
        let (i, j) = (end - 1 - l, end - 1 - k);
        lemma_list_distinct(before, list, i, j);
        assert(is_private(pointed, list[i], entries[i]));
        assert(is_private(pointed, list[j], entries[j]));
    }
}

/// The nodes of a group are those that leave the nodes of the list.
proof fn lemma_group_nodes(storage: Storage, list: Seq<LooseNode>, start: int, end: int)
    requires
        detached_from(storage, list),
        0 <= start < end <= list.len(),
    ensures
        ({
            let fresh = fresh_of(list, start, end);
            &&& forall|offset: int|
                nodes_from(list, start).contains(offset) <==> nodes_from(list, end).contains(offset)
                    || exists|k: int| 0 <= k < fresh.len() && #[trigger] fresh[k] == offset
            &&& forall|k: int|
                #![trigger fresh[k]]
                0 <= k < fresh.len() ==> !nodes_from(list, end).contains(fresh[k] as int)
        }),
{
    let fresh = fresh_of(list, start, end);
    let nodes = nodes_from(list, start);
    let nodes_after = nodes_from(list, end);
    assert forall|offset: int|
        nodes.contains(offset) <==> nodes_after.contains(offset) || exists|k: int|
            0 <= k < fresh.len() && #[trigger] fresh[k] == offset by {
        if nodes.contains(offset) && !nodes_after.contains(offset) {
            let i = choose|i: int|
                start <= i < list.len() && (#[trigger] list[i]).body.offset == offset;
            assert(fresh[end - 1 - i] == offset);
        }
        if exists|k: int| 0 <= k < fresh.len() && #[trigger] fresh[k] == offset {
            let k = choose|k: int| 0 <= k < fresh.len() && #[trigger] fresh[k] == offset;
            assert(list[end - 1 - k].body.offset == offset);
        }
    }
    assert forall|k: int|
        #![trigger fresh[k]]
        0 <= k < fresh.len() implies !nodes_after.contains(fresh[k] as int) by {
        if nodes_after.contains(fresh[k] as int) {
            let i = choose|i: int|
                end <= i < list.len() && (#[trigger] list[i]).body.offset == fresh[k];
            lemma_list_distinct(storage, list, end - 1 - k, i);
        }
    }
}

/// The blobs of a group are those that leave the blobs of the list.
proof fn lemma_group_blobs(
    storage: Storage,
    list: Seq<LooseNode>,
    entries: Seq<Entry>,
    start: int,
    end: int,
)
    requires
        detached_from(storage, list),
        0 <= start < end <= list.len(),
        list.len() == entries.len(),
        forall|j: int|
            #![trigger list[j]]
            start <= j < list.len() ==> is_private(storage, list[j], entries[j]),
    ensures
        ({
            let fresh = fresh_of(list, start, end);
            let data = storage.body.data;
            let blobs = blobs_from(storage.blobs, list, start);
            let blobs_after = blobs_from(storage.blobs, list, end);
            &&& forall|offset: int|
                #![trigger blobs.dom().contains(offset)]
                blobs.dom().contains(offset) <==> blobs_after.dom().contains(offset)
                    || crate::transitions::fresh_blob(data, fresh, offset)
            &&& forall|offset: int|
                #![trigger blobs_after.dom().contains(offset)]
                blobs_after.dom().contains(offset) ==> !crate::transitions::fresh_blob(
                    data,
                    fresh,
                    offset,
                ) && blobs_after[offset] == blobs[offset]
        }),
{
    let fresh = fresh_of(list, start, end);
    let data = storage.body.data;
    let blobs = blobs_from(storage.blobs, list, start);
    let blobs_after = blobs_from(storage.blobs, list, end);
    assert forall|offset: int|
        #![trigger blobs.dom().contains(offset)]
        blobs.dom().contains(offset) <==> blobs_after.dom().contains(offset)
            || crate::transitions::fresh_blob(data, fresh, offset) by {
        if blobs.dom().contains(offset) && !blobs_after.dom().contains(offset) {
            let i = choose|i: int| start <= i < list.len() && blob_is(#[trigger] list[i], offset);
            assert(is_private(storage, list[i], entries[i]));
            assert(value_at(data, fresh[end - 1 - i] as int) == VALUE_BLOB_TAG + offset);
        }
        if crate::transitions::fresh_blob(data, fresh, offset) {
            lemma_fresh_blob(storage, list, entries, start, end, offset);
        }
    }
    assert forall|offset: int|
        #![trigger blobs_after.dom().contains(offset)]
        blobs_after.dom().contains(offset) implies !crate::transitions::fresh_blob(
        data,
        fresh,
        offset,
    ) && blobs_after[offset] == blobs[offset] by {
        let i = choose|i: int| end <= i < list.len() && blob_is(#[trigger] list[i], offset);
        if crate::transitions::fresh_blob(data, fresh, offset) {
            lemma_fresh_blob(storage, list, entries, start, end, offset);
            let j = choose|j: int| start <= j < end && blob_is(#[trigger] list[j], offset);
            lemma_list_distinct(storage, list, j, i);
        }
        assert(blob_is(list[i], offset));
    }
}

/// A blob that a node of a group refers to is the blob of that node.
proof fn lemma_fresh_blob(
    storage: Storage,
    list: Seq<LooseNode>,
    entries: Seq<Entry>,
    start: int,
    end: int,
    offset: int,
)
    requires
        0 <= start < end <= list.len(),
        list.len() == entries.len(),
        forall|j: int|
            #![trigger list[j]]
            start <= j < list.len() ==> is_private(storage, list[j], entries[j]),
        crate::transitions::fresh_blob(storage.body.data, fresh_of(list, start, end), offset),
    ensures
        exists|j: int| start <= j < end && blob_is(#[trigger] list[j], offset),
{
    let fresh = fresh_of(list, start, end);
    let k = choose|k: int|
        0 <= k < fresh.len() && value_at(storage.body.data, #[trigger] fresh[k] as int)
            == VALUE_BLOB_TAG + offset;
    let j = end - 1 - k;
    assert(is_private(storage, list[j], entries[j]));
    assert(blob_is(list[j], offset));
}

/// A group put in front of its bucket.
proof fn lemma_committed(
    before: Storage,
    chains: Seq<Seq<u64>>,
    list: Seq<LooseNode>,
    entries: Seq<Entry>,
    items: Seq<Prepared>,
    start: int,
    end: int,
)
    requires
        committing(before, chains, list, entries, items, start),
        is_group(items, start, end),
        items[start].bucket < chains.len(),
        forall|j: int|
            #![trigger entries[j]]
            start <= j < end ==> bucket_of(before.config, entries[j].key) == items[j].bucket,
    ensures
        ({
            let bucket = items[start].bucket as int;
            let after = committed(before, list, bucket, start, end);
            let longer = chains.update(bucket, fresh_of(list, start, end) + chains[bucket]);
            &&& committing(after, longer, list, entries, items, end)
            &&& after.entries(longer) == before.entries(chains).update(
                bucket,
                fresh_entries(entries, start, end) + before.entries(chains)[bucket],
            )
        }),
{
    let bucket = items[start].bucket as int;
    let after = committed(before, list, bucket, start, end);
    let fresh = fresh_of(list, start, end);
    let pointed = Storage { body: after.body, ..before };
    let nodes = nodes_from(list, start);
    let blobs = blobs_from(before.blobs, list, start);
    let nodes_after = nodes_from(list, end);
    let blobs_after = blobs_from(before.blobs, list, end);
    lemma_group_publishable(before, chains, list, entries, items, start, end);
    lemma_group_nodes(before, list, start, end);
    crate::removal::lemma_detached_kept(before, pointed, list);
    lemma_group_blobs(pointed, list, entries, start, end);
    lemma_published(pointed, chains, nodes, nodes_after, blobs, blobs_after, bucket, fresh);
    assert(pointed.entries_of(fresh) =~= fresh_entries(entries, start, end)) by {
        assert forall|k: int| 0 <= k < fresh.len() implies #[trigger] pointed.entries_of(fresh)[k]
            == fresh_entries(entries, start, end)[k] by {
            assert(is_private(pointed, list[end - 1 - k], entries[end - 1 - k]));
        }
    }
    crate::removal::lemma_detached_kept(before, after, list);
    assert forall|j: int|
        #![trigger list[j]]
        end <= j < list.len() implies is_private(after, list[j], entries[j]) by {
        assert(is_private(pointed, list[j], entries[j]));
        lemma_private_kept(pointed, after, list[j], entries[j]);
    }
}

/// The entries of a batch that belong to `bucket`, the last one first.
pub open spec fn fronted(config: Config, list: Seq<Entry>, bucket: int) -> Seq<Entry>
    decreases list.len(),
{
    if list.len() == 0 {
        list
    } else {
        let rest = fronted(config, list.drop_last(), bucket);
        if bucket_of(config, list.last().key) == bucket {
            seq![list.last()] + rest
        } else {
            rest
        }
    }
}

/// The entries of all buckets with those of a batch in front of them.
pub open spec fn entries_inserted(
    config: Config,
    entries: Seq<Seq<Entry>>,
    list: Seq<Entry>,
) -> Seq<Seq<Entry>> {
    Seq::new(entries.len(), |b: int| fronted(config, list, b) + entries[b])
}

/// The items of a bucket, taken backwards, are the entries of that bucket: of the
/// first `upto` entries those of the first `count` items.
proof fn lemma_fronted(
    config: Config,
    list: Seq<Entry>,
    items: Seq<Prepared>,
    bucket: int,
    start: int,
    end: int,
    upto: int,
    count: int,
)
    requires
        0 <= upto <= list.len(),
        0 <= start <= end <= items.len(),
        0 <= count <= end - start,
        forall|i: int|
            #![trigger items[i]]
            start <= i < end ==> items[i].order < list.len() && bucket_of(
                config,
                list[items[i].order as int].key,
            ) == bucket,
        forall|i: int, j: int|
            #![trigger items[i], items[j]]
            start <= i < j < end ==> items[i].order < items[j].order,
        forall|order: int|
            #![trigger list[order]]
            0 <= order < list.len() && bucket_of(config, list[order].key) == bucket ==> exists|
                i: int,
            |
                start <= i < end && (#[trigger] items[i]).order == order,
        forall|i: int| start <= i < start + count ==> (#[trigger] items[i]).order < upto,
        forall|i: int| start + count <= i < end ==> (#[trigger] items[i]).order >= upto,
    ensures
        fronted(config, list.take(upto), bucket) == fresh_entries(
            arranged(list, items),
            start,
            start + count,
        ),
    decreases upto,
{
    let part = list.take(upto);
    let arrangement = arranged(list, items);
    let result = fresh_entries(arrangement, start, start + count);
    if upto == 0 {
        if count > 0 {
            assert(items[start].order < 0);
        }
        assert(fronted(config, part, bucket) =~= result);
    } else {
        assert(part.last() == list[upto - 1]);
        assert(part.drop_last() =~= list.take(upto - 1));
        if bucket_of(config, list[upto - 1].key) == bucket {
            let i = choose|i: int| start <= i < end && (#[trigger] items[i]).order == upto - 1;
            assert(items[i].order == upto - 1);
            if i < start + count - 1 {
                assert(items[i].order < items[start + count - 1].order);
            }
            assert(i == start + count - 1);
            lemma_fronted(config, list, items, bucket, start, end, upto - 1, count - 1);
            let shorter = fresh_entries(arrangement, start, start + count - 1);
            assert(seq![list[upto - 1]] + shorter =~= result) by {
                assert forall|k: int| 0 <= k < result.len() implies result[k] == (seq![
                    list[upto - 1],
                ] + shorter)[k] by {}
            }
        } else {
            assert forall|i: int| start <= i < start + count implies (#[trigger] items[i]).order
                < upto - 1 by {
                assert(bucket_of(config, list[items[i].order as int].key) == bucket);
            }
            lemma_fronted(config, list, items, bucket, start, end, upto - 1, count);
        }
    }
}

/// How far a batch insertion has come: the buckets before `done` are finished.
pub open spec fn inserted_below(
    config: Config,
    entries: Seq<Seq<Entry>>,
    now: Seq<Seq<Entry>>,
    list: Seq<Entry>,
    done: int,
) -> bool {
    &&& now.len() == entries.len()
    &&& forall|b: int|
        #![trigger now[b]]
        0 <= b < now.len() ==> now[b] == (if b < done {
            fronted(config, list, b) + entries[b]
        } else {
            entries[b]
        })
}

/// A bucket that no item belongs to gets nothing.
proof fn lemma_none_fronted(
    config: Config,
    keys: Seq<Seq<u8>>,
    list: Seq<Entry>,
    items: Seq<Prepared>,
    bucket: int,
)
    requires
        prepared_for(config, keys, false, items),
        list.len() == keys.len(),
        forall|i: int| #![trigger list[i]] 0 <= i < list.len() ==> list[i].key == keys[i],
        forall|i: int| 0 <= i < items.len() ==> (#[trigger] items[i]).bucket != bucket,
    ensures
        fronted(config, list, bucket).len() == 0,
{
    assert forall|order: int|
        #![trigger list[order]]
        0 <= order < list.len() implies bucket_of(config, list[order].key) != bucket by {
        assert(has_order(items, order));
        let i = choose|i: int| 0 <= i < items.len() && (#[trigger] items[i]).order == order;
        assert(prepares(config, keys, false, items[i]));
    }
    lemma_fronted(config, list, items, bucket, 0, 0, list.len() as int, 0);
    assert(list.take(list.len() as int) =~= list);
}

/// A group finished: so are the buckets up to its own.
proof fn lemma_group_inserted(
    config: Config,
    keys: Seq<Seq<u8>>,
    list: Seq<Entry>,
    items: Seq<Prepared>,
    entries: Seq<Seq<Entry>>,
    before: Seq<Seq<Entry>>,
    after: Seq<Seq<Entry>>,
    start: int,
    end: int,
)
    requires
        prepared_for(config, keys, false, items),
        list.len() == keys.len(),
        forall|i: int| #![trigger list[i]] 0 <= i < list.len() ==> list[i].key == keys[i],
        is_group(items, start, end),
        items[start].bucket < entries.len(),
        inserted_below(
            config,
            entries,
            before,
            list,
            if start == 0 {
                0
            } else {
                items[start - 1].bucket + 1
            },
        ),
        after == before.update(
            items[start].bucket as int,
            fresh_entries(arranged(list, items), start, end)
                + before[items[start].bucket as int],
        ),
    ensures
        inserted_below(config, entries, after, list, items[end - 1].bucket + 1),
{
    let bucket = items[start].bucket as int;
    assert(items[end - 1].bucket == bucket);
    if start > 0 {
        assert(no_later(items[start - 1], items[start]));
    }
    assert forall|i: int|
        #![trigger items[i]]
        start <= i < end implies items[i].order < list.len() && bucket_of(
        config,
        list[items[i].order as int].key,
    ) == bucket by {
        assert(prepares(config, keys, false, items[i]));
    }
    assert forall|i: int, j: int|
        #![trigger items[i], items[j]]
        start <= i < j < end implies items[i].order < items[j].order by {
        assert(no_later(items[i], items[j]));
        assert(prepares(config, keys, false, items[i]));
        assert(prepares(config, keys, false, items[j]));
    }
    assert forall|order: int|
        #![trigger list[order]]
        0 <= order < list.len() && bucket_of(config, list[order].key) == bucket implies exists|
        i: int,
    |
        start <= i < end && (#[trigger] items[i]).order == order by {
        assert(has_order(items, order));
        let i = choose|i: int| 0 <= i < items.len() && (#[trigger] items[i]).order == order;
        assert(prepares(config, keys, false, items[i]));
        if i < start {
            assert(no_later(items[i], items[start - 1]));
        } else if i >= end {
            assert(no_later(items[end], items[i]));
            assert(no_later(items[start], items[end]));
        }
        assert(start <= i < end);
    }
    lemma_fronted(
        config,
        list,
        items,
        bucket,
        start,
        end,
        list.len() as int,
        end - start,
    );
    assert(list.take(list.len() as int) =~= list);
    assert forall|b: int|
        #![trigger after[b]]
        0 <= b < after.len() implies after[b] == (if b < bucket + 1 {
        fronted(config, list, b) + entries[b]
    } else {
        entries[b]
    }) by {
        assert(before[b] == before[b]);
        if b < bucket && (start == 0 || b > items[start - 1].bucket) {
            assert forall|i: int| 0 <= i < items.len() implies (#[trigger] items[i]).bucket
                != b by {
                if i < start {
                    assert(no_later(items[i], items[start - 1]));
                } else {
                    assert(no_later(items[start], items[i]));
                }
            }
            lemma_none_fronted(config, keys, list, items, b);
            assert(fronted(config, list, b) + entries[b] =~= entries[b]);
        }
    }
}

/// Behind the last group no bucket has an entry of the batch.
proof fn lemma_all_inserted(
    config: Config,
    keys: Seq<Seq<u8>>,
    list: Seq<Entry>,
    items: Seq<Prepared>,
    entries: Seq<Seq<Entry>>,
    now: Seq<Seq<Entry>>,
)
    requires
        prepared_for(config, keys, false, items),
        list.len() == keys.len(),
        forall|i: int| #![trigger list[i]] 0 <= i < list.len() ==> list[i].key == keys[i],
        inserted_below(
            config,
            entries,
            now,
            list,
            if items.len() == 0 {
                0
            } else {
                items[items.len() - 1].bucket + 1
            },
        ),
    ensures
        now == entries_inserted(config, entries, list),
{
    assert forall|b: int| 0 <= b < now.len() implies now[b] == #[trigger] entries_inserted(
        config,
        entries,
        list,
    )[b] by {
        if items.len() == 0 || b > items[items.len() - 1].bucket {
            assert forall|i: int| 0 <= i < items.len() implies (#[trigger] items[i]).bucket
                != b by {
                assert(no_later(items[i], items[items.len() - 1]));
            }
            lemma_none_fronted(config, keys, list, items, b);
            assert(fronted(config, list, b) + entries[b] =~= entries[b]);
        }
    }
    assert(now =~= entries_inserted(config, entries, list));
}

/// The items of a batch, sorted by bucket and then by input order.
pub open spec fn arrangement(config: Config, keys: Seq<Seq<u8>>) -> Seq<Prepared> {
    choose|items: Seq<Prepared>| prepared_for(config, keys, false, items)
}

/// A batch can be sorted in one way only.
pub proof fn lemma_arrangement(config: Config, keys: Seq<Seq<u8>>, items: Seq<Prepared>)
    requires
        prepared_for(config, keys, false, items),
    ensures
        arrangement(config, keys) == items,
{
    let other = arrangement(config, keys);
    assert(prepared_for(config, keys, false, other));
    assert forall|i: int| 0 <= i < items.len() implies items[i] == other[i] by {
        lemma_same_item(config, keys, items, other, i);
    }
    assert(items =~= other);
}

/// Two ways to sort a batch agree on every item.
proof fn lemma_same_item(
    config: Config,
    keys: Seq<Seq<u8>>,
    one: Seq<Prepared>,
    two: Seq<Prepared>,
    index: int,
)
    requires
        prepared_for(config, keys, false, one),
        prepared_for(config, keys, false, two),
        0 <= index < one.len(),
    ensures
        one[index] == two[index],
    decreases index,
{
    assert forall|k: int| 0 <= k < index implies one[k] == two[k] by {
        lemma_same_item(config, keys, one, two, k);
    }
    assert(prepares(config, keys, false, one[index]));
    assert(prepares(config, keys, false, two[index]));
    assert(has_order(two, one[index].order as int));
    assert(has_order(one, two[index].order as int));
    let j = choose|j: int| 0 <= j < two.len() && (#[trigger] two[j]).order == one[index].order;
    let k = choose|k: int| 0 <= k < one.len() && (#[trigger] one[k]).order == two[index].order;
    assert(prepares(config, keys, false, two[j]));
    assert(prepares(config, keys, false, one[k]));
    assert(two[j] == one[index] && one[k] == two[index]);
    if j < index {
        assert(one[j] == two[j]);
        assert(one[j].order == one[index].order);
    }
    if k < index {
        assert(one[k] == two[k]);
        assert(two[k].order == two[index].order);
    }
    assert(no_later(two[index], two[j]));
    assert(no_later(one[index], one[k]));
}

impl Table {
    /// Puts a group of private nodes in front of its bucket.
    fn commit_private_group(&mut self, bucket: u64, tail_node: u64, root: u64) -> (result: Result<
        (),
        Error,
    >)
        requires
            old(self).wf(),
            bucket < old(self).config.bucket_count,
            tail_node + NODE_SIZE <= u64::MAX,
        ensures
            final(self).wf(),
            final(self).config == old(self).config,
            ({
                let before = old(self).storage();
                let body = before.body;
                let head = before.heads[bucket as int];
                let unread = crate::allocator::read_defect(
                    body.capacity(),
                    body.data.len() as int,
                    tail_node + NODE_POINTER_OFFSET,
                    8,
                );
                let defect = crate::node::set_next_defect(
                    body.capacity(),
                    body.data,
                    tail_node as int,
                    next_at(body.data, tail_node as int) as int,
                    head as int,
                );
                if unread is Some {
                    result == Err::<(), Error>(unread->0) && final(self).storage() == before
                } else if defect is Some {
                    result == Err::<(), Error>(defect->0) && final(self).storage() == before
                } else {
                    &&& result == Ok::<(), Error>(())
                    &&& final(self).storage() == (Storage {
                        heads: before.heads.update(bucket as int, root),
                        body: Files {
                            data: with_next(body.data, tail_node as int, head),
                            ..body
                        },
                        ..before
                    })
                }
            }),
    {
        let observed: u64 = self.heads[bucket as usize];
        let previous: u64 = crate::node::read_next(&self.body, tail_node)?;
        let _exchanged: bool = crate::node::compare_exchange_next(
            &mut self.body,
            tail_node,
            previous,
            observed,
        )?;
        self.heads.set(bucket as usize, root);
        Ok(())
    }

    /// Publishes linked private nodes, bucket by bucket.
    fn commit_private_groups(
        &mut self,
        private: &Vec<LooseNode>,
        items: &Vec<Prepared>,
        chains: &mut Ghost<Seq<Seq<u64>>>,
        keys: Ghost<Seq<Seq<u8>>>,
        list: Ghost<Seq<Entry>>,
    ) -> (result: Result<(), Error>)
        requires
            old(self).wf(),
            private.len() == items.len(),
            bounded(private@),
            prepared_for(old(self).config, keys@, false, items@),
            list@.len() == keys@.len(),
            forall|i: int| #![trigger list@[i]] 0 <= i < list@.len() ==> list@[i].key == keys@[i],
        ensures
            final(self).wf(),
            final(self).config == old(self).config,
            (final(self).storage(), result) == commit_outcome(
                old(self).storage(),
                private@,
                items@,
                0,
            ),
            ({
                let before = old(self).storage();
                let after = final(self).storage();
                committing(
                    before,
                    old(chains)@,
                    private@,
                    arranged(list@, items@),
                    items@,
                    0,
                ) ==> {
                    &&& result == Ok::<(), Error>(())
                    &&& after.holds(final(chains)@, Set::empty(), Map::empty())
                    &&& after.entries(final(chains)@) == entries_inserted(
                        before.config,
                        before.entries(old(chains)@),
                        list@,
                    )
                }
            }),
    {
        let ghost config = self.config;
        let ghost first = self.storage();
        let ghost first_chains = chains@;
        let ghost entries = arranged(list@, items@);
        let ghost sound = committing(first, first_chains, private@, entries, items@, 0);
        let ghost before = first.entries(first_chains);
        let count: usize = items.len();
        let mut start: usize = 0;
        while start < count
            invariant
                self.wf(),
                self.config == config,
                config == old(self).config,
                config == first.config,
                config.valid(),
                private.len() == items.len(),
                bounded(private@),
                prepared_for(config, keys@, false, items@),
                list@.len() == keys@.len(),
                forall|i: int|
                    #![trigger list@[i]]
                    0 <= i < list@.len() ==> list@[i].key == keys@[i],
                count == items.len(),
                start <= count,
                start > 0 && start < count ==> items@[start - 1].bucket
                    < items@[start as int].bucket,
                first == old(self).storage(),
                first_chains == old(chains)@,
                entries == arranged(list@, items@),
                sound == committing(first, first_chains, private@, entries, items@, 0),
                before == first.entries(first_chains),
                commit_outcome(first, private@, items@, 0) == commit_outcome(
                    self.storage(),
                    private@,
                    items@,
                    start as int,
                ),
                sound ==> {
                    &&& committing(
                        self.storage(),
                        chains@,
                        private@,
                        entries,
                        items@,
                        start as int,
                    )
                    &&& inserted_below(
                        config,
                        before,
                        self.storage().entries(chains@),
                        list@,
                        if start == 0 {
                            0
                        } else {
                            items@[start - 1].bucket + 1
                        },
                    )
                },
            decreases count - start,
        {
            let end: usize = crate::batch::group_end(items, start);
            let bucket: u64 = items[start].bucket;
            let ghost now = self.storage();
            let ghost earlier = chains@;
            proof {
                assert(prepares(config, keys@, false, items@[start as int]));
                crate::outcomes::lemma_bucket(config, keys@[items@[start as int].order as int]);
                assert(items@[end - 1].bucket == bucket);
                assert(private@[start as int].body.offset + NODE_SIZE <= u64::MAX);
                lemma_run_end(items@, start as int, start + 1, end as int);
                reveal_with_fuel(commit_outcome, 2);
                if sound {
                    assert forall|j: int|
                        #![trigger entries[j]]
                        start <= j < end implies bucket_of(config, entries[j].key)
                        == items@[j].bucket by {
                        assert(prepares(config, keys@, false, items@[j]));
                        assert(entries[j] == list@[items@[j].order as int]);
                    }
                    lemma_group_publishable(
                        now,
                        earlier,
                        private@,
                        entries,
                        items@,
                        start as int,
                        end as int,
                    );
                    lemma_committed(
                        now,
                        earlier,
                        private@,
                        entries,
                        items@,
                        start as int,
                        end as int,
                    );
                }
            }
            self.commit_private_group(
                bucket,
                private[start].body.offset,
                private[end - 1].body.offset,
            )?;
            proof {
                if sound {
                    chains@ = earlier.update(
                        bucket as int,
                        fresh_of(private@, start as int, end as int) + earlier[bucket as int],
                    );
                    assert(self.storage() == committed(
                        now,
                        private@,
                        bucket as int,
                        start as int,
                        end as int,
                    ));
                    lemma_group_inserted(
                        config,
                        keys@,
                        list@,
                        items@,
                        before,
                        now.entries(earlier),
                        self.storage().entries(chains@),
                        start as int,
                        end as int,
                    );
                }
            }
            start = end;
        }
        proof {
            reveal_with_fuel(commit_outcome, 2);
            if sound {
                assert(nodes_from(private@, count as int) =~= Set::empty());
                assert(blobs_from(self.storage().blobs, private@, count as int) =~= Map::empty());
                lemma_all_inserted(
                    config,
                    keys@,
                    list@,
                    items@,
                    before,
                    self.storage().entries(chains@),
                );
            }
        }
        Ok(())
    }

    /// Inserts a batch of entries in front of their buckets without a search, and
    /// returns their number. In a set, the values are not looked at.
    pub fn insert_batch(
        &mut self,
        keys: &[&[u8]],
        values: &Vec<&[u8]>,
        chains: &mut Ghost<Seq<Seq<u64>>>,
    ) -> (result: Result<usize, Error>)
        requires
            old(self).wf(),
            old(self).config.mode == Mode::KeyMap ==> values.len() == keys.len(),
        ensures
            final(self).wf(),
            final(self).config == old(self).config,
            result matches Ok(count) ==> count == keys.len(),
            match keys_defect(key_views(keys@)) {
                Some(error) => result == Err::<usize, Error>(error) && final(self).storage()
                    == old(self).storage() && final(chains)@ == old(chains)@,
                None => {
                    let before = old(self).storage();
                    let after = final(self).storage();
                    let list = batch_entries(
                        before.config.mode,
                        key_views(keys@),
                        key_views(values@),
                    );
                    let items = arrangement(before.config, key_views(keys@));
                    let (files, outcome) = insert_outcome(before, arranged(list, items), items);
                    &&& prepared_for(before.config, key_views(keys@), false, items)
                    &&& after == files
                    &&& result == (match outcome {
                        Ok(_) => Ok::<usize, Error>(keys.len()),
                        Err(error) => Err(error),
                    })
                    &&& before.holds(old(chains)@, Set::empty(), Map::empty()) ==> {
                        &&& after.holds(final(chains)@, Set::empty(), Map::empty())
                        &&& match insert_defect(
                            before.config.mode,
                            before.body.pages,
                            before.blobs,
                            arranged(list, arrangement(before.config, key_views(keys@))),
                            0,
                        ) {
                            Some(error) => {
                                &&& result == Err::<usize, Error>(error)
                                &&& after.entries(final(chains)@) == before.entries(old(chains)@)
                            },
                            None => {
                                &&& result == Ok::<usize, Error>(keys.len())
                                &&& after.entries(final(chains)@) == entries_inserted(
                                    before.config,
                                    before.entries(old(chains)@),
                                    list,
                                )
                            },
                        }
                    }
                },
            },
    {
        let ghost views = key_views(keys@);
        let ghost first = self.storage();
        let ghost sound = first.holds(chains@, Set::empty(), Map::empty());
        let ghost list = batch_entries(first.config.mode, views, key_views(values@));
        let items = prepare(&self.config, keys, false)?;
        let count: usize = items.len();
        let ghost entries = arranged(list, items@);
        proof {
            lemma_arrangement(self.config, views, items@);
            crate::prepared::lemma_keys_defect(views);
            assert forall|i: int| 0 <= i < keys@.len() implies (#[trigger] keys@[i])@.len()
                == KEY_SIZE by {
                assert(views[i].len() == KEY_SIZE);
            }
        }
        if count == 0 {
            proof {
                reveal_with_fuel(reserve_outcome, 2);
                reveal_with_fuel(link_outcome, 2);
                reveal_with_fuel(commit_outcome, 2);
                let before = first.entries(chains@);
                assert(entries_inserted(first.config, before, list) =~= before) by {
                    assert forall|b: int| 0 <= b < before.len() implies fronted(
                        first.config,
                        list,
                        b,
                    ) + before[b] == before[b] by {
                        assert(fronted(first.config, list, b).len() == 0);
                        assert(fronted(first.config, list, b) + before[b] =~= before[b]);
                    }
                }
            }
            return Ok(0);
        }
        let mut private: Vec<LooseNode> = Vec::new();
        match self.allocate_private_inserts(keys, values, &items, &mut private, Ghost(chains@)) {
            Ok(_) => {},
            Err(error) => {
                self.release_detached_batch(&private, Ghost(chains@))?;
                return Err(error);
            },
        }
        match self.link_private_batch(&private, &items, Ghost(chains@), Ghost(entries)) {
            Ok(_) => {},
            Err(error) => {
                self.release_detached_batch(&private, Ghost(chains@))?;
                return Err(error);
            },
        }
        proof {
            if sound {
                if insert_defect(
                    first.config.mode,
                    first.body.pages,
                    first.blobs,
                    entries,
                    0,
                ) is None {
                    lemma_from_start(self.storage(), private@, entries);
                }
            }
        }
        self.commit_private_groups(&private, &items, chains, Ghost(views), Ghost(list))?;
        Ok(count)
    }
}

} // verus!

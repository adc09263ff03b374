//! Copying nodes from one table to another.

use vstd::prelude::*;

use crate::allocator::BlockAllocator;
#[allow(unused_imports)]
use crate::allocator::{batch_outcome, lemma_outcome_pages, release_defect, Allocation, Files};
#[allow(unused_imports)]
use crate::bytes::le64_bytes;
#[allow(unused_imports)]
use crate::config::{Mode, KEY_SIZE};
use crate::error::Error;
use crate::insertion::is_private;
#[allow(unused_imports)]
use crate::insertion::{
    blob_apart, lemma_apart_blob_kept, lemma_private_kept, lemma_private_pointed,
};
#[allow(unused_imports)]
use crate::layout::{BLOB_HEADER_SIZE, NODE_ALIGNMENT, NODE_POINTER_LIMIT, NODE_SIZE};
use crate::layout::VALUE_BLOB_TAG;
use crate::node::{allocate_node, set_private_next, Node};
#[allow(unused_imports)]
use crate::node::{key_at, next_at, node_defect, node_request, value_at, with_next};
#[allow(unused_imports)]
use crate::outcomes::{
    blob_stored, lemma_blob_stored, lemma_node_request, lemma_node_requested, node_allocation,
    with_blob, without_blob,
};
#[allow(unused_imports)]
use crate::pages::Pages;
use crate::removal::LooseNode;
#[allow(unused_imports)]
use crate::storage::{
    blob_value, chained, lemma_same_node, lemma_with_next, linked, same_node, slot, Entry, Storage,
};
use crate::table::Table;
#[allow(unused_imports)]
use crate::transitions::lemma_blob_released;
#[allow(unused_imports)]
use crate::values::{blob_request, checked_blob_defect, files_of};
use crate::values::{read_checked_blob, store_blob};

verus! {

/// What a node holds, wherever it is stored: a key, and a value word or the value of
/// a blob.
#[verifier::ext_equal]
pub struct Record {
    pub key: Seq<u8>,
    pub inline: Option<u64>,
    pub value: Seq<u8>,
}

/// What the node at `offset` holds.
pub open spec fn record_at(storage: Storage, offset: u64) -> Record {
    let word = value_at(storage.body.data, offset as int);
    Record {
        key: key_at(storage.body.data, offset as int),
        inline: if word < VALUE_BLOB_TAG {
            Some(word)
        } else {
            None
        },
        value: if word < VALUE_BLOB_TAG {
            Seq::empty()
        } else {
            blob_value(storage.blobs->0, word - VALUE_BLOB_TAG)
        },
    }
}

/// The entry that a record stands for.
pub open spec fn entry_of(mode: Mode, record: Record) -> Entry {
    Entry {
        key: record.key,
        value: match record.inline {
            _ if mode == Mode::KeySet => Seq::empty(),
            Some(word) => le64_bytes(word),
            None => record.value,
        },
    }
}

/// Whether a table can hold a record.
pub open spec fn fitting(mode: Mode, record: Record) -> bool {
    &&& record.key.len() == KEY_SIZE
    &&& mode == Mode::KeySet ==> record.inline == Some(0u64)
    &&& record.inline matches Some(word) ==> word < VALUE_BLOB_TAG && record.value == Seq::<
        u8,
    >::empty()
}

/// The value of a record put in place of a value word.
pub open spec fn record_stored(storage: Storage, record: Record) -> (
    Storage,
    Result<(u64, Option<Allocation>), Error>,
) {
    match record.inline {
        Some(word) => (storage, Ok((word, None))),
        None => blob_stored(storage, record.value),
    }
}

/// A record copied into a node of its own that points to `next`.
pub open spec fn copied(storage: Storage, record: Record, next: u64) -> (
    Storage,
    Result<LooseNode, Error>,
) {
    let (valued, result) = record_stored(storage, record);
    match result {
        Err(error) => (valued, Err(error)),
        Ok((word, blob)) => {
            let (body, result) = node_request(valued.body, record.key, word);
            let taken = Storage { body, ..valued };
            match result {
                Err(error) => (without_blob(taken, blob), Err(error)),
                Ok(node) => {
                    let data = with_next(body.data, node.offset as int, next);
                    (
                        Storage { body: Files { data, ..body }, ..taken },
                        Ok(LooseNode { body: node, blob }),
                    )
                },
            }
        },
    }
}

/// What copying a record makes of the page counts and the blob file, and why it
/// fails, if it does.
pub open spec fn copy_step(pages: Pages, blobs: Option<Files>, record: Record) -> (
    Pages,
    Option<Files>,
    Option<Error>,
) {
    let (stored, defect) = match record.inline {
        Some(_) => (blobs, None),
        None => {
            let (files, result) = blob_request(blobs->0, record.value);
            (
                Some(files),
                match result {
                    Ok(_) => None,
                    Err(error) => Some(error),
                },
            )
        },
    };
    if defect is Some {
        (pages, stored, defect)
    } else {
        let (after, result) = batch_outcome(pages, NODE_SIZE as int, NODE_ALIGNMENT as int, 1);
        (
            after,
            stored,
            match result {
                Ok(_) => None,
                Err(error) => Some(error),
            },
        )
    }
}

/// What copying records one after another makes of the page counts and the blob
/// file, and why it fails, if it does.
pub open spec fn copies(pages: Pages, blobs: Option<Files>, records: Seq<Record>) -> (
    Pages,
    Option<Files>,
    Option<Error>,
)
    decreases records.len(),
{
    if records.len() == 0 {
        (pages, blobs, None)
    } else {
        let front = copies(pages, blobs, records.drop_last());
        if front.2 is Some {
            front
        } else {
            copy_step(front.0, front.1, records.last())
        }
    }
}

/// Where copying some records fails, copying more of them fails in the same way.
pub proof fn lemma_copies_fail(
    pages: Pages,
    blobs: Option<Files>,
    records: Seq<Record>,
    count: int,
)
    requires
        0 <= count <= records.len(),
        copies(pages, blobs, records.take(count)).2 is Some,
    ensures
        copies(pages, blobs, records).2 == copies(pages, blobs, records.take(count)).2,
    decreases records.len(),
{
    if count == records.len() {
        assert(records.take(count) =~= records);
    } else {
        let front = records.drop_last();
        assert(front.take(count) =~= records.take(count));
        lemma_copies_fail(pages, blobs, front, count);
    }
}

/// Whether `node` is a private copy of a record.
pub open spec fn is_copy(storage: Storage, node: LooseNode, record: Record) -> bool {
    &&& is_private(storage, node, entry_of(storage.config.mode, record))
    &&& record_at(storage, node.body.offset) == record
}

/// The records of the nodes of each chain.
pub open spec fn lists_of(storage: Storage, chains: Seq<Seq<u64>>) -> Seq<Seq<Record>> {
    chains.map_values(|chain: Seq<u64>| records_of(storage, chain))
}

/// The records of the nodes of one chain.
pub open spec fn records_of(storage: Storage, chain: Seq<u64>) -> Seq<Record> {
    chain.map_values(|offset: u64| record_at(storage, offset))
}

/// Where chained nodes keep their entries and value words, they keep their records.
pub proof fn lemma_lists_kept(before: Storage, after: Storage, chains: Seq<Seq<u64>>)
    requires
        after.config == before.config,
        before.chains_hold(chains),
        after.entries(chains) == before.entries(chains),
        forall|b: int, i: int|
            #![trigger chains[b][i]]
            slot(chains, b, i) ==> value_at(after.body.data, chains[b][i] as int) == value_at(
                before.body.data,
                chains[b][i] as int,
            ),
    ensures
        lists_of(after, chains) == lists_of(before, chains),
{
    assert forall|b: int| 0 <= b < chains.len() implies #[trigger] lists_of(after, chains)[b]
        == lists_of(before, chains)[b] by {
        let chain = chains[b];
        assert forall|i: int| 0 <= i < chain.len() implies #[trigger] records_of(after, chain)[i]
            == records_of(before, chain)[i] by {
            assert(slot(chains, b, i));
            let offset = chains[b][i];
            assert(before.valid_word(value_at(before.body.data, offset as int)));
            assert(after.entries(chains)[b][i] == after.entry_at(offset));
            assert(before.entries(chains)[b][i] == before.entry_at(offset));
        }
        assert(records_of(after, chain) =~= records_of(before, chain));
    }
    assert(lists_of(after, chains) =~= lists_of(before, chains));
}

/// A copy of a record keeps what is held and every other copy.
pub proof fn lemma_copied(
    before: Storage,
    chains: Seq<Seq<u64>>,
    nodes: Set<int>,
    blobs: Map<int, int>,
    record: Record,
    next: u64,
)
    requires
        before.holds(chains, nodes, blobs),
        fitting(before.config.mode, record),
        next < NODE_POINTER_LIMIT,
    ensures
        ({
            let (after, result) = copied(before, record, next);
            let (pages, files, defect) = copy_step(before.body.pages, before.blobs, record);
            &&& after.config == before.config
            &&& after.heads == before.heads
            &&& after.entries(chains) == before.entries(chains)
            &&& match result {
                Err(error) => defect == Some(error) && after.holds(chains, nodes, blobs),
                Ok(made) => {
                    &&& defect is None
                    &&& after.body.pages == pages
                    &&& after.blobs == files
                    &&& after.body.pages.block_size == before.body.pages.block_size
                    &&& before.blobs is Some ==> after.blobs is Some
                        && after.blobs->0.pages.block_size == before.blobs->0.pages.block_size
                    &&& after.holds(
                        chains,
                        nodes.insert(made.body.offset as int),
                        with_blob(blobs, made.blob),
                    )
                    &&& !nodes.contains(made.body.offset as int)
                    &&& !chained(chains, made.body.offset as int)
                    &&& is_copy(after, made, record)
                    &&& next_at(after.body.data, made.body.offset as int) == next
                    &&& made.body == node_allocation(after.body, made.body.offset as int)
                    &&& made.blob matches Some(blob) ==> {
                        &&& after.blobs is Some
                        &&& !blobs.dom().contains(blob.offset as int)
                        &&& blob.block == after.blobs->0.pages.page_of(blob.offset as int)
                    }
                    &&& forall|other: LooseNode, one: Record|
                        #![trigger is_copy(before, other, one)]
                        is_copy(before, other, one) && nodes.contains(other.body.offset as int)
                            && blob_apart(blobs, other) ==> is_copy(after, other, one) && next_at(
                            after.body.data,
                            other.body.offset as int,
                        ) == next_at(before.body.data, other.body.offset as int)
                    &&& lists_of(after, chains) == lists_of(before, chains)
                },
            }
        }),
{
    let (after, result) = copied(before, record, next);
    let (valued, stored) = record_stored(before, record);
    let entry = entry_of(before.config.mode, record);
    if record.inline is None {
        lemma_blob_stored(before, chains, nodes, blobs, record.value);
        lemma_outcome_pages(
            before.blobs->0.pages,
            BLOB_HEADER_SIZE + record.value.len(),
            8,
            1,
        );
    }
    if let Ok((word, blob)) = stored {
        let more = with_blob(blobs, blob);
        lemma_node_requested(valued, chains, nodes, more, record.key, word);
        lemma_outcome_pages(valued.body.pages, NODE_SIZE as int, NODE_ALIGNMENT as int, 1);
        let (body, requested) = node_request(valued.body, record.key, word);
        let taken = Storage { body, ..valued };
        match requested {
            Err(_) => {
                if let Some(held) = blob {
                    let at = held.offset as int;
                    lemma_blob_released(taken, chains, nodes, more, at);
                    assert(more.remove(at) =~= blobs);
                }
            },
            Ok(node) => {
                let made = LooseNode { body: node, blob };
                let longer = nodes.insert(node.offset as int);
                assert(taken.entry_at(node.offset) == entry);
                assert(is_private(taken, made, entry));
                assert(record_at(taken, node.offset) == record);
                lemma_private_pointed(taken, chains, longer, more, made, entry, next);
                lemma_with_next(body.capacity(), body.data, node.offset as int, next);
                assert forall|b: int, i: int|
                    #![trigger chains[b][i]]
                    slot(chains, b, i) implies value_at(after.body.data, chains[b][i] as int)
                    == value_at(before.body.data, chains[b][i] as int) by {
                    let o = chains[b][i] as int;
                    assert(linked(before.body, before.heads[b], chains[b]));
                    assert(node_defect(before.body.capacity(), before.body.data, o) is None);
                    assert(same_node(before.body.data, body.data, o));
                    lemma_same_node(before.body.capacity(), before.body.data, body.data, o);
                    assert(node_defect(body.capacity(), body.data, o) is None);
                }
                lemma_lists_kept(before, after, chains);
                assert forall|other: LooseNode, one: Record|
                    #![trigger is_copy(before, other, one)]
                    is_copy(before, other, one) && nodes.contains(other.body.offset as int)
                        && blob_apart(blobs, other) implies is_copy(after, other, one) && next_at(
                    after.body.data,
                    other.body.offset as int,
                ) == next_at(before.body.data, other.body.offset as int) by {
                    let o = other.body.offset as int;
                    if record.inline is None {
                        if let Some(held) = other.blob {
                            lemma_apart_blob_kept(
                                before,
                                chains,
                                nodes,
                                blobs,
                                record.value,
                                held.offset as int,
                            );
                        }
                    }
                    assert(node_defect(before.body.capacity(), before.body.data, o) is None);
                    assert(same_node(before.body.data, body.data, o));
                    lemma_same_node(before.body.capacity(), before.body.data, body.data, o);
                    lemma_private_kept(
                        before,
                        after,
                        other,
                        entry_of(before.config.mode, one),
                    );
                }
            },
        }
    }
}

/// Why a value word cannot be copied, if it cannot.
pub open spec fn source_defect(
    source: Option<Files>,
    destination: Option<Files>,
    word: u64,
) -> Option<Error> {
    if word < VALUE_BLOB_TAG {
        None
    } else {
        match source {
            None => Some(Error::Corrupt("checkpoint source blob file is missing")),
            Some(files) => {
                let defect = checked_blob_defect(
                    files,
                    word - VALUE_BLOB_TAG,
                    "checkpoint blob checksum does not match",
                );
                if defect is Some {
                    defect
                } else if destination is None {
                    Some(Error::Corrupt("checkpoint blob file is missing"))
                } else {
                    None
                }
            },
        }
    }
}

/// The record of a node that was read, whose blob stands in `source`.
pub open spec fn record_of(source: Option<Files>, node: Node) -> Record {
    Record {
        key: node.key@,
        inline: if node.value < VALUE_BLOB_TAG {
            Some(node.value)
        } else {
            None
        },
        value: if node.value < VALUE_BLOB_TAG {
            Seq::empty()
        } else {
            blob_value(source->0, node.value - VALUE_BLOB_TAG)
        },
    }
}

/// Copies a value word, and its blob where it has one.
fn copy_blob(
    source: &Option<BlockAllocator>,
    destination: &mut Table,
    word: u64,
) -> (result: Result<(u64, Option<Allocation>), Error>)
    requires
        *source matches Some(blobs) ==> blobs.wf(),
        old(destination).wf(),
    ensures
        final(destination).wf(),
        match source_defect(files_of(*source), old(destination).storage().blobs, word) {
            Some(error) => {
                &&& result == Err::<(u64, Option<Allocation>), Error>(error)
                &&& final(destination).storage() == old(destination).storage()
            },
            None => if word < VALUE_BLOB_TAG {
                &&& result == Ok::<(u64, Option<Allocation>), Error>((word, None))
                &&& final(destination).storage() == old(destination).storage()
            } else {
                (final(destination).storage(), result) == blob_stored(
                    old(destination).storage(),
                    blob_value(files_of(*source)->0, word - VALUE_BLOB_TAG),
                )
            },
        },
        result matches Ok((_, Some(blob))) ==> final(destination).blobs matches Some(blobs)
            && release_defect(blobs.pages(), blob) is None,
{
    if word < VALUE_BLOB_TAG {
        return Ok((word, None));
    }
    let value = match source {
        None => {
            return Err(Error::Corrupt("checkpoint source blob file is missing"));
        },
        Some(blobs) => read_checked_blob(
            blobs,
            word - VALUE_BLOB_TAG,
            "checkpoint blob checksum does not match",
        )?,
    };
    match &mut destination.blobs {
        None => Err(Error::Corrupt("checkpoint blob file is missing")),
        Some(blobs) => {
            proof {
                crate::table::lemma_blob_request(blobs.files(), value@);
            }
            let blob = store_blob(blobs, value.as_slice())?;
            Ok((VALUE_BLOB_TAG + blob.offset, Some(blob)))
        },
    }
}

/// Copies a node that was read from one table into another one, in no chain there.
pub fn copy_node(
    source: &Option<BlockAllocator>,
    destination: &mut Table,
    node: &Node,
    next: u64,
) -> (result: Result<LooseNode, Error>)
    requires
        *source matches Some(blobs) ==> blobs.wf(),
        old(destination).wf(),
        next < NODE_POINTER_LIMIT,
    ensures
        final(destination).wf(),
        final(destination).config == old(destination).config,
        match source_defect(files_of(*source), old(destination).storage().blobs, node.value) {
            Some(error) => {
                &&& result == Err::<LooseNode, Error>(error)
                &&& final(destination).storage() == old(destination).storage()
            },
            None => (final(destination).storage(), result) == copied(
                old(destination).storage(),
                record_of(files_of(*source), *node),
                next,
            ),
        },
        result matches Ok(made) ==> node_defect(
            final(destination).body.capacity(),
            final(destination).body.data(),
            made.body.offset as int,
        ) is None,
{
    let (word, blob) = copy_blob(source, destination, node.value)?;
    let ghost valued = destination.storage();
    proof {
        lemma_node_request(destination.body.files(), node.key@, word);
        crate::table::lemma_node_request_sized(*destination, node.key@, word);
    }
    let allocation = match allocate_node(&mut destination.body, node.key.as_slice(), word) {
        Ok(allocation) => allocation,
        Err(error) => {
            let _released = destination.release_blob(blob);
            return Err(error);
        },
    };
    proof {
        let (capacity, data) = (destination.body.capacity(), destination.body.data());
        let offset = allocation.offset as int;
        crate::table::lemma_node_in_range(*destination, offset);
        lemma_with_next(capacity, data, offset, next);
        lemma_same_node(capacity, data, with_next(data, offset, next), offset);
    }
    set_private_next(&mut destination.body, allocation.offset, 0, next)?;
    Ok(LooseNode { body: allocation, blob })
}

} // verus!

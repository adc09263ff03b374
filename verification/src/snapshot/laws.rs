//! What a table is known to be when it was copied.

use vstd::prelude::*;

#[allow(unused_imports)]
use crate::allocator::Files;
#[allow(unused_imports)]
use crate::bytes::le64;
#[allow(unused_imports)]
use crate::copying::{copied, record_at, source_defect};
#[allow(unused_imports)]
use crate::format::{law_node_is_read, node_stands};
#[allow(unused_imports)]
use crate::node::{key_at, next_at, value_at};
#[allow(unused_imports)]
use crate::reading::word_reads;
#[allow(unused_imports)]
use crate::removal::LooseNode;
#[allow(unused_imports)]
use crate::snapshot::steps::{
    append_outcome, bucket_outcome, bucket_rebuilt, capture_from, capture_outcome, copy_walk,
    lemma_copy_step, lemma_rebuild_walk, listed, rebuild_from, rebuild_outcome, rebuild_walk,
};
#[allow(unused_imports)]
use crate::storage::{node_limit, word_value, Storage};

verus! {

/// Whether a chain begins at an offset, has a whole node at each place, and ends.
pub open spec fn whole_chain(body: Files, first: u64, chain: Seq<u64>) -> bool {
    &&& first == (if chain.len() == 0 {
        0
    } else {
        chain[0]
    })
    &&& forall|i: int|
        0 <= i < chain.len() ==> {
            &&& node_stands(body.capacity(), body.data, (#[trigger] chain[i]) as int)
            &&& le64(body.data, chain[i] + 24) as int % 0x1_0000_0000_0000 == (if i + 1
                < chain.len() {
                chain[i + 1]
            } else {
                0
            })
        }
}

/// Whether the value word of a node stands for a value.
pub open spec fn has_value(storage: Storage, at: u64) -> bool {
    exists|value: Seq<u8>| #[trigger]
        word_reads(storage.blobs, le64(storage.body.data, at + 16), value)
}

/// A value word can be copied exactly where it stands for a value, and there is a blob file
/// for it.
pub proof fn law_value_is_copied(source: Option<Files>, destination: Option<Files>, word: u64)
    requires
        source matches Some(files) ==> files.wf(),
    ensures
        source_defect(source, destination, word) is None <==> {
            &&& exists|value: Seq<u8>| #[trigger] word_reads(source, word, value)
            &&& word >= 0x8000_0000_0000_0000 ==> destination is Some
        },
{
    assert(source_defect(source, destination, word) is None ==> word_reads(
        source,
        word,
        word_value(source, word),
    ));
}

/// A table is copied into a checkpoint only if each of its chains is whole.
pub proof fn law_checkpoint_reads_whole_chains(source: Storage, bucket: int) -> (chain: Seq<u64>)
    requires
        capture_outcome(source) is Ok,
        0 <= bucket < source.config.bucket_count,
        0 <= source.body.capacity() < 0xffff_ffff_ffff_0000,
    ensures
        chain.len() <= source.body.capacity() / 32 + 1,
        whole_chain(source.body, source.heads[bucket], chain),
{
    lemma_captured(source, crate::database::empty_storage(source.config), 0, bucket)
}

proof fn lemma_captured(source: Storage, snapshot: Storage, from: int, bucket: int) -> (chain: Seq<
    u64,
>)
    requires
        capture_from(source, snapshot, from) is Ok,
        from <= bucket < source.config.bucket_count,
        0 <= source.body.capacity() < 0xffff_ffff_ffff_0000,
    ensures
        chain.len() <= source.body.capacity() / 32 + 1,
        whole_chain(source.body, source.heads[bucket], chain),
    decreases bucket - from,
{
    reveal_with_fuel(capture_from, 2);
    let (after, result) = bucket_outcome(source, snapshot, from);
    if from < bucket {
        lemma_captured(source, after, from + 1, bucket)
    } else {
        lemma_copied_chain(
            source,
            snapshot,
            Seq::empty(),
            source.heads[bucket],
            node_limit(source.body.capacity()) as nat,
        )
    }
}

proof fn lemma_copied_chain(
    source: Storage,
    snapshot: Storage,
    list: Seq<LooseNode>,
    current: u64,
    steps: nat,
) -> (chain: Seq<u64>)
    requires
        copy_walk(source, snapshot, list, current, steps).2 is Ok,
        0 <= source.body.capacity() < 0xffff_ffff_ffff_0000,
    ensures
        chain.len() <= steps,
        whole_chain(source.body, current, chain),
    decreases steps,
{
    if current == 0 {
        Seq::empty()
    } else {
        let data = source.body.data;
        let next = next_at(data, current as int);
        lemma_copy_step(source, snapshot, list, current, steps);
        law_node_is_read(source.body.capacity(), data, current as int);
        let (after, longer, result) = append_outcome(source, snapshot, list, current);
        let rest = if listed(snapshot.body, list, key_at(data, current as int), 0)->Ok_0 {
            lemma_copied_chain(source, snapshot, list, next, (steps - 1) as nat)
        } else {
            lemma_copied_chain(source, after, longer, next, (steps - 1) as nat)
        };
        lemma_longer(source.body, current, next, rest);
        seq![current] + rest
    }
}

/// A chain with one more node in front.
proof fn lemma_longer(body: Files, first: u64, next: u64, rest: Seq<u64>)
    requires
        whole_chain(body, next, rest),
        node_stands(body.capacity(), body.data, first as int),
        le64(body.data, first + 24) as int % 0x1_0000_0000_0000 == next,
    ensures
        whole_chain(body, first, seq![first] + rest),
{
    let chain = seq![first] + rest;
    assert forall|i: int| 0 <= i < chain.len() implies {
        &&& node_stands(body.capacity(), body.data, (#[trigger] chain[i]) as int)
        &&& le64(body.data, chain[i] + 24) as int % 0x1_0000_0000_0000 == (if i + 1 < chain.len() {
            chain[i + 1]
        } else {
            0
        })
    } by {
        if i > 0 {
            assert(chain[i] == rest[i - 1]);
            if i + 1 < chain.len() {
                assert(chain[i + 1] == rest[i]);
            }
        } else if rest.len() > 0 {
            assert(chain[1] == rest[0]);
        }
    }
}

/// A table is rebuilt from a snapshot only if each of its chains is whole, and every value
/// word stands for a value.
pub proof fn law_rebuild_reads_whole_chains(source: Storage, bucket: int) -> (chain: Seq<u64>)
    requires
        rebuild_outcome(source) is Ok,
        0 <= bucket < source.config.bucket_count,
        0 <= source.body.capacity() < 0xffff_ffff_ffff_0000,
        source.blobs matches Some(files) ==> files.wf(),
    ensures
        chain.len() <= source.body.capacity() / 32 + 1,
        whole_chain(source.body, source.heads[bucket], chain),
        forall|i: int| 0 <= i < chain.len() ==> has_value(source, #[trigger] chain[i]),
{
    lemma_rebuilt(source, crate::database::empty_storage(source.config), 0, bucket)
}

proof fn lemma_rebuilt(source: Storage, table: Storage, from: int, bucket: int) -> (chain: Seq<u64>)
    requires
        rebuild_from(source, table, from) is Ok,
        from <= bucket < source.config.bucket_count,
        0 <= source.body.capacity() < 0xffff_ffff_ffff_0000,
        source.blobs matches Some(files) ==> files.wf(),
    ensures
        chain.len() <= source.body.capacity() / 32 + 1,
        whole_chain(source.body, source.heads[bucket], chain),
        forall|i: int| 0 <= i < chain.len() ==> has_value(source, #[trigger] chain[i]),
    decreases bucket - from,
{
    reveal_with_fuel(rebuild_from, 2);
    let (after, result) = bucket_rebuilt(source, table, from);
    if from < bucket {
        lemma_rebuilt(source, after, from + 1, bucket)
    } else {
        lemma_rebuilt_chain(
            source,
            table,
            0,
            source.heads[bucket],
            node_limit(source.body.capacity()) as nat,
        )
    }
}

proof fn lemma_rebuilt_chain(
    source: Storage,
    table: Storage,
    root: u64,
    current: u64,
    steps: nat,
) -> (chain: Seq<u64>)
    requires
        rebuild_walk(source, table, root, current, steps).2 is Ok,
        0 <= source.body.capacity() < 0xffff_ffff_ffff_0000,
        source.blobs matches Some(files) ==> files.wf(),
    ensures
        chain.len() <= steps,
        whole_chain(source.body, current, chain),
        forall|i: int| 0 <= i < chain.len() ==> has_value(source, #[trigger] chain[i]),
    decreases steps,
{
    if current == 0 {
        Seq::empty()
    } else {
        let data = source.body.data;
        let next = next_at(data, current as int);
        lemma_rebuild_walk(source, table, root, current, steps);
        law_node_is_read(source.body.capacity(), data, current as int);
        law_value_is_copied(source.blobs, table.blobs, value_at(data, current as int));
        let (after, result) = copied(table, record_at(source, current), root);
        let rest = lemma_rebuilt_chain(
            source,
            after,
            result->Ok_0.body.offset,
            next,
            (steps - 1) as nat,
        );
        lemma_longer(source.body, current, next, rest);
        let chain = seq![current] + rest;
        assert forall|i: int| 0 <= i < chain.len() implies has_value(
            source,
            #[trigger] chain[i],
        ) by {
            if i > 0 {
                assert(chain[i] == rest[i - 1]);
            }
        }
        chain
    }
}

} // verus!

//! Snapshots: capturing the first entry of each key of a table in a table of its
//! own, checking such a table, and rebuilding a table from it.

pub mod laws;
pub mod steps;

use vstd::prelude::*;

#[allow(unused_imports)]
use crate::allocator::Files;
use crate::bytes::same_bytes;
#[allow(unused_imports)]
use crate::config::{Config, Mode};
use crate::copying::copy_node;
#[allow(unused_imports)]
use crate::copying::{
    copied, copies, copy_step, entry_of, fitting, is_copy, lemma_copied, lemma_copies_fail,
    lemma_lists_kept, lists_of, record_at, record_of, records_of, source_defect, Record,
};
#[allow(unused_imports)]
use crate::database::{empty_chains, empty_storage, lemma_empty_storage};
use crate::error::Error;
#[allow(unused_imports)]
use crate::insertion::{
    blob_apart, blob_is, lemma_list_distinct, lemma_listed, lemma_private_in_range,
    lemma_private_pointed, lemma_unlisted,
};
#[allow(unused_imports)]
use crate::layout::{NODE_POINTER_LIMIT, VALUE_BLOB_TAG};
use crate::layout::NODE_SIZE_U64;
use crate::node::{read_node, set_private_next};
#[allow(unused_imports)]
use crate::node::{key_at, next_at, node_defect, set_next_defect, value_at, with_next};
#[allow(unused_imports)]
use crate::outcomes::with_blob;
#[allow(unused_imports)]
use crate::pages::Pages;
#[allow(unused_imports)]
use crate::removal::{blobs_of, detached_from, lemma_detached_kept, nodes_of};
use crate::removal::LooseNode;
#[allow(unused_imports)]
use crate::storage::{
    after_in, bucket_of, first_of, lemma_chain_length, lemma_with_next, linked, node_limit, slot,
    Storage,
};
use crate::table::Table;
#[allow(unused_imports)]
use crate::transitions::{fresh_blob, lemma_published, publishable};
#[allow(unused_imports)]
use crate::values::files_of;
#[allow(unused_imports)]
use crate::snapshot::steps::{
    append_outcome, bucket_outcome, bucket_rebuilt, capture_from, capture_outcome, copy_walk,
    lemma_copy_step, lemma_rebuild_walk, listed, rebuild_from, rebuild_outcome, rebuild_walk,
};

verus! {

/// The node that copy `i` points to: the next one of the list, or the one before it.
#[verifier::opaque]
pub open spec fn next_copy(list: Seq<LooseNode>, i: int, forward: bool) -> u64 {
    let other = if forward {
        i + 1
    } else {
        i - 1
    };
    if 0 <= other < list.len() {
        list[other].body.offset
    } else {
        0
    }
}

/// Whether `list` holds private copies of `records` that are linked in one direction.
pub open spec fn copied_list(
    storage: Storage,
    chains: Seq<Seq<u64>>,
    list: Seq<LooseNode>,
    records: Seq<Record>,
    forward: bool,
) -> bool {
    &&& storage.holds(chains, nodes_of(list), blobs_of(list))
    &&& detached_from(storage, list)
    &&& list.len() == records.len()
    &&& forall|i: int|
        #![trigger list[i]]
        0 <= i < list.len() ==> is_copy(storage, list[i], records[i]) && blob_apart(
            blobs_of(list),
            list[i],
        ) && next_at(storage.body.data, list[i].body.offset as int) == next_copy(list, i, forward)
}

/// The last node of a list, or zero.
pub open spec fn last_of(list: Seq<LooseNode>) -> u64 {
    if list.len() == 0 {
        0
    } else {
        list.last().body.offset
    }
}

/// One more copy, in front of the others.
proof fn lemma_copied_backward(
    before: Storage,
    chains: Seq<Seq<u64>>,
    list: Seq<LooseNode>,
    records: Seq<Record>,
    record: Record,
)
    requires
        copied_list(before, chains, list, records, false),
        fitting(before.config.mode, record),
    ensures
        ({
            let (after, result) = copied(before, record, last_of(list));
            let (pages, files, defect) = copy_step(before.body.pages, before.blobs, record);
            &&& last_of(list) < NODE_POINTER_LIMIT
            &&& after.heads == before.heads
            &&& after.config == before.config
            &&& after.entries(chains) == before.entries(chains)
            &&& match result {
                Err(error) => defect == Some(error),
                Ok(made) => {
                    &&& defect is None
                    &&& after.body.pages == pages
                    &&& after.blobs == files
                    &&& copied_list(after, chains, list.push(made), records.push(record), false)
                    &&& lists_of(after, chains) == lists_of(before, chains)
                },
            }
        }),
{
    let next = last_of(list);
    if list.len() > 0 {
        let last = list.len() - 1;
        assert(is_copy(before, list[last], records[last]));
        lemma_private_in_range(
            before,
            list[last],
            entry_of(before.config.mode, records[last]),
        );
    }
    lemma_copied(before, chains, nodes_of(list), blobs_of(list), record, next);
    let (after, result) = copied(before, record, next);
    if let Ok(made) = result {
        let longer = list.push(made);
        lemma_pushed(before, after, chains, list, records, record, made);
        reveal(next_copy);
        assert forall|i: int|
            #![trigger longer[i]]
            0 <= i < longer.len() implies next_at(after.body.data, longer[i].body.offset as int)
            == next_copy(longer, i, false) by {
            if i < list.len() {
                assert(longer[i] == list[i]);
                assert(is_copy(before, list[i], records[i]));
                lemma_listed(before, list, i);
            }
        }
    }
}

/// A copy put on the list.
proof fn lemma_pushed(
    before: Storage,
    after: Storage,
    chains: Seq<Seq<u64>>,
    list: Seq<LooseNode>,
    records: Seq<Record>,
    record: Record,
    made: LooseNode,
)
    requires
        before.holds(chains, nodes_of(list), blobs_of(list)),
        detached_from(before, list),
        list.len() == records.len(),
        forall|i: int|
            #![trigger list[i]]
            0 <= i < list.len() ==> is_copy(before, list[i], records[i]) && blob_apart(
                blobs_of(list),
                list[i],
            ),
        after.body.pages.block_size == before.body.pages.block_size,
        before.blobs is Some ==> after.blobs is Some && after.blobs->0.pages.block_size
            == before.blobs->0.pages.block_size,
        after.holds(
            chains,
            nodes_of(list).insert(made.body.offset as int),
            with_blob(blobs_of(list), made.blob),
        ),
        !nodes_of(list).contains(made.body.offset as int),
        is_copy(after, made, record),
        made.blob matches Some(blob) ==> {
            &&& after.blobs is Some
            &&& !blobs_of(list).dom().contains(blob.offset as int)
            &&& blob.block == after.blobs->0.pages.page_of(blob.offset as int)
        },
        forall|other: LooseNode, one: Record|
            #![trigger is_copy(before, other, one)]
            is_copy(before, other, one) && nodes_of(list).contains(other.body.offset as int)
                && blob_apart(blobs_of(list), other) ==> is_copy(after, other, one),
    ensures
        ({
            let longer = list.push(made);
            let more = records.push(record);
            &&& after.holds(chains, nodes_of(longer), blobs_of(longer))
            &&& detached_from(after, longer)
            &&& forall|i: int|
                #![trigger longer[i]]
                0 <= i < longer.len() ==> is_copy(after, longer[i], more[i]) && blob_apart(
                    blobs_of(longer),
                    longer[i],
                )
        }),
{
    let longer = list.push(made);
    let more = records.push(record);
    assert(longer.drop_last() =~= list);
    lemma_detached_kept(before, after, list);
    assert forall|i: int|
        #![trigger longer[i]]
        0 <= i < longer.len() implies is_copy(after, longer[i], more[i]) && blob_apart(
        blobs_of(longer),
        longer[i],
    ) by {
        if i < list.len() {
            assert(longer[i] == list[i]);
            assert(is_copy(before, list[i], records[i]));
            lemma_listed(before, list, i);
        }
    }
}

/// One more copy, behind the others: it is made, and the last one then points to it.
proof fn lemma_copied_forward(
    before: Storage,
    chains: Seq<Seq<u64>>,
    list: Seq<LooseNode>,
    records: Seq<Record>,
    record: Record,
)
    requires
        copied_list(before, chains, list, records, true),
        fitting(before.config.mode, record),
    ensures
        ({
            let (made_storage, result) = copied(before, record, 0);
            let (pages, files, defect) = copy_step(before.body.pages, before.blobs, record);
            &&& match result {
                Err(error) => defect == Some(error),
                Ok(made) => {
                    let tail = last_of(list);
                    let data = if list.len() == 0 {
                        made_storage.body.data
                    } else {
                        with_next(made_storage.body.data, tail as int, made.body.offset)
                    };
                    let after = Storage {
                        body: Files { data, ..made_storage.body },
                        ..made_storage
                    };
                    &&& defect is None
                    &&& list.len() > 0 ==> set_next_defect(
                        made_storage.body.capacity(),
                        made_storage.body.data,
                        tail as int,
                        0,
                        made.body.offset as int,
                    ) is None && next_at(made_storage.body.data, tail as int) == 0
                    &&& after.body.pages == pages
                    &&& after.blobs == files
                    &&& after.heads == before.heads
                    &&& after.config == before.config
                    &&& after.entries(chains) == before.entries(chains)
                    &&& copied_list(after, chains, list.push(made), records.push(record), true)
                    &&& lists_of(after, chains) == lists_of(before, chains)
                },
            }
        }),
{
    lemma_copied(before, chains, nodes_of(list), blobs_of(list), record, 0);
    let (middle, result) = copied(before, record, 0);
    if let Ok(made) = result {
        let longer = list.push(made);
        let more = records.push(record);
        lemma_pushed(before, middle, chains, list, records, record, made);
        let mode = before.config.mode;
        reveal(next_copy);
        if list.len() > 0 {
            let last = list.len() - 1;
            let tail = longer[last];
            let data = with_next(middle.body.data, tail.body.offset as int, made.body.offset);
            let after = Storage { body: Files { data, ..middle.body }, ..middle };
            assert(is_copy(before, list[last], records[last]));
            lemma_listed(before, list, last);
            lemma_listed(middle, longer, last);
            assert(longer[list.len() as int] == made);
            lemma_private_in_range(middle, made, entry_of(mode, record));
            lemma_private_pointed(
                middle,
                chains,
                nodes_of(longer),
                blobs_of(longer),
                tail,
                entry_of(mode, records[last]),
                made.body.offset,
            );
            lemma_with_next(
                middle.body.capacity(),
                middle.body.data,
                tail.body.offset as int,
                made.body.offset,
            );
            assert forall|b: int, i: int|
                #![trigger chains[b][i]]
                slot(chains, b, i) implies value_at(data, chains[b][i] as int) == value_at(
                middle.body.data,
                chains[b][i] as int,
            ) by {
                let o = chains[b][i] as int;
                assert(linked(middle.body, middle.heads[b], chains[b]));
                assert(node_defect(middle.body.capacity(), middle.body.data, o) is None);
            }
            lemma_lists_kept(middle, after, chains);
            lemma_detached_kept(middle, after, longer);
            assert forall|i: int|
                #![trigger longer[i]]
                0 <= i < longer.len() implies is_copy(after, longer[i], more[i]) && next_at(
                data,
                longer[i].body.offset as int,
            ) == next_copy(longer, i, true) by {
                assert(is_copy(middle, longer[i], more[i]));
                if i < list.len() {
                    assert(longer[i] == list[i]);
                    assert(is_copy(before, list[i], records[i]));
                    lemma_listed(before, list, i);
                }
                if i < last {
                    lemma_list_distinct(middle, longer, i, last);
                } else if i > last {
                    lemma_list_distinct(middle, longer, last, i);
                }
                let o = longer[i].body.offset as int;
                assert(node_defect(middle.body.capacity(), middle.body.data, o) is None);
            }
        } else {
            let after = Storage {
                body: Files { data: middle.body.data, ..middle.body },
                ..middle
            };
            assert(after == middle);
            assert forall|i: int|
                #![trigger longer[i]]
                0 <= i < longer.len() implies next_at(
                middle.body.data,
                longer[i].body.offset as int,
            ) == next_copy(longer, i, true) by {}
        }
    }
}

/// Place of copy `k` of a chain in the list of copies.
pub open spec fn place(count: int, k: int, forward: bool) -> int {
    if forward {
        k
    } else {
        count - 1 - k
    }
}

/// The offsets of a list of copies in the order of their chain.
pub open spec fn chain_of(list: Seq<LooseNode>, forward: bool) -> Seq<u64> {
    Seq::new(list.len(), |k: int| list[place(list.len() as int, k, forward)].body.offset)
}

/// Records in the order of the chain of their copies.
pub open spec fn turned(records: Seq<Record>, forward: bool) -> Seq<Record> {
    Seq::new(records.len(), |k: int| records[place(records.len() as int, k, forward)])
}

/// Nodes and blobs of a list of copies are those of its chain.
proof fn lemma_chain_nodes(
    storage: Storage,
    chains: Seq<Seq<u64>>,
    list: Seq<LooseNode>,
    records: Seq<Record>,
    forward: bool,
)
    requires
        copied_list(storage, chains, list, records, forward),
    ensures
        ({
            let fresh = chain_of(list, forward);
            &&& forall|o: int|
                nodes_of(list).contains(o) <==> Set::<int>::empty().contains(o) || exists|k: int|
                    0 <= k < fresh.len() && #[trigger] fresh[k] == o
            &&& forall|o: int|
                #![trigger blobs_of(list).dom().contains(o)]
                blobs_of(list).dom().contains(o) <==> Map::<int, int>::empty().dom().contains(o)
                    || fresh_blob(storage.body.data, fresh, o)
        }),
{
    let fresh = chain_of(list, forward);
    let count = list.len() as int;
    let data = storage.body.data;
    lemma_unlisted(list);
    assert forall|o: int|
        nodes_of(list).contains(o) <==> Set::<int>::empty().contains(o) || exists|k: int|
            0 <= k < fresh.len() && #[trigger] fresh[k] == o by {
        if nodes_of(list).contains(o) {
            let i = choose|i: int| 0 <= i < list.len() && (#[trigger] list[i]).body.offset == o;
            assert(fresh[place(count, i, forward)] == o);
        }
        if exists|k: int| 0 <= k < fresh.len() && #[trigger] fresh[k] == o {
            let k = choose|k: int| 0 <= k < fresh.len() && #[trigger] fresh[k] == o;
            lemma_listed(storage, list, place(count, k, forward));
        }
    }
    assert forall|o: int|
        #![trigger blobs_of(list).dom().contains(o)]
        blobs_of(list).dom().contains(o) <==> Map::<int, int>::empty().dom().contains(o)
            || fresh_blob(data, fresh, o) by {
        if blobs_of(list).dom().contains(o) {
            let i = choose|i: int| 0 <= i < list.len() && blob_is(#[trigger] list[i], o);
            assert(is_copy(storage, list[i], records[i]));
            assert(value_at(data, fresh[place(count, i, forward)] as int) == VALUE_BLOB_TAG + o);
        }
        if fresh_blob(data, fresh, o) {
            let k = choose|k: int|
                0 <= k < fresh.len() && value_at(data, #[trigger] fresh[k] as int)
                    == VALUE_BLOB_TAG + o;
            let i = place(count, k, forward);
            assert(is_copy(storage, list[i], records[i]));
            lemma_listed(storage, list, i);
        }
    }
}

/// Copies made the chain of an empty bucket.
proof fn lemma_copies_published(
    before: Storage,
    chains: Seq<Seq<u64>>,
    list: Seq<LooseNode>,
    records: Seq<Record>,
    forward: bool,
    bucket: int,
)
    requires
        copied_list(before, chains, list, records, forward),
        0 <= bucket < chains.len(),
        before.heads[bucket] == 0,
        forall|i: int|
            0 <= i < records.len() ==> bucket_of(before.config, (#[trigger] records[i]).key)
                == bucket,
    ensures
        ({
            let fresh = chain_of(list, forward);
            let after = Storage {
                heads: before.heads.update(bucket, first_of(fresh)),
                ..before
            };
            let longer = chains.update(bucket, fresh);
            &&& after.holds(longer, Set::empty(), Map::empty())
            &&& lists_of(after, longer) == lists_of(before, chains).update(
                bucket,
                turned(records, forward),
            )
        }),
{
    let fresh = chain_of(list, forward);
    let count = list.len() as int;
    let after = Storage { heads: before.heads.update(bucket, first_of(fresh)), ..before };
    let longer = chains.update(bucket, fresh);
    assert(linked(before.body, before.heads[bucket], chains[bucket]));
    assert(chains[bucket].len() == 0) by {
        if chains[bucket].len() > 0 {
            assert(node_defect(
                before.body.capacity(),
                before.body.data,
                chains[bucket][0] as int,
            ) is None);
        }
    }
    if count == 0 {
        assert(nodes_of(list) =~= Set::empty());
        assert(blobs_of(list) =~= Map::empty());
        assert(fresh =~= chains[bucket]);
        assert(longer =~= chains);
        assert(after.heads =~= before.heads);
        assert(lists_of(before, chains)[bucket] =~= turned(records, forward));
        assert(lists_of(before, chains) =~= lists_of(before, chains).update(
            bucket,
            turned(records, forward),
        ));
    } else {
        lemma_chain_publishable(before, chains, list, records, forward, bucket);
        lemma_chain_nodes(before, chains, list, records, forward);
        lemma_published(
            before,
            chains,
            nodes_of(list),
            Set::empty(),
            blobs_of(list),
            Map::empty(),
            bucket,
            fresh,
        );
        assert(fresh + chains[bucket] =~= fresh);
        assert forall|b: int| 0 <= b < longer.len() implies #[trigger] lists_of(after, longer)[b]
            == lists_of(before, chains).update(bucket, turned(records, forward))[b] by {
            if b == bucket {
                assert forall|k: int| 0 <= k < count implies #[trigger] records_of(
                    after,
                    fresh,
                )[k] == turned(records, forward)[k] by {
                    let i = place(count, k, forward);
                    assert(is_copy(before, list[i], records[i]));
                }
                assert(records_of(after, fresh) =~= turned(records, forward));
            } else {
                assert(records_of(after, chains[b]) =~= records_of(before, chains[b]));
            }
        }
        assert(lists_of(after, longer) =~= lists_of(before, chains).update(
            bucket,
            turned(records, forward),
        ));
    }
}

/// A chain of copies can be put into an empty bucket.
proof fn lemma_chain_publishable(
    before: Storage,
    chains: Seq<Seq<u64>>,
    list: Seq<LooseNode>,
    records: Seq<Record>,
    forward: bool,
    bucket: int,
)
    requires
        copied_list(before, chains, list, records, forward),
        before.heads[bucket] == 0,
        list.len() > 0,
        forall|i: int|
            0 <= i < records.len() ==> bucket_of(before.config, (#[trigger] records[i]).key)
                == bucket,
    ensures
        publishable(
            before,
            bucket,
            chain_of(list, forward),
            nodes_of(list),
            blobs_of(list),
        ),
{
    let fresh = chain_of(list, forward);
    let count = list.len() as int;
    let data = before.body.data;
    let (nodes, blobs) = (nodes_of(list), blobs_of(list));
    reveal(next_copy);
    assert forall|k: int|
        #![trigger fresh[k]]
        0 <= k < fresh.len() implies {
        let word = value_at(data, fresh[k] as int);
        &&& nodes.contains(fresh[k] as int)
        &&& node_defect(before.body.capacity(), data, fresh[k] as int) is None
        &&& bucket_of(before.config, key_at(data, fresh[k] as int)) == bucket
        &&& before.valid_word(word)
        &&& word >= VALUE_BLOB_TAG ==> blobs.dom().contains(word - VALUE_BLOB_TAG) && blobs[word
            - VALUE_BLOB_TAG] == crate::storage::blob_extent(
            before.blobs->0,
            word - VALUE_BLOB_TAG,
        )
        &&& next_at(data, fresh[k] as int) == (if k + 1 < fresh.len() {
            fresh[k + 1]
        } else {
            before.heads[bucket]
        })
    } by {
        let i = place(count, k, forward);
        assert(fresh[k] == list[i].body.offset);
        assert(is_copy(before, list[i], records[i]));
        lemma_listed(before, list, i);
        if k + 1 < fresh.len() {
            assert(fresh[k + 1] == list[place(count, k + 1, forward)].body.offset);
        }
    }
    assert forall|k: int, l: int|
        #![trigger fresh[k], fresh[l]]
        0 <= k < l < fresh.len() implies fresh[k] != fresh[l] && (value_at(data, fresh[k] as int)
        >= VALUE_BLOB_TAG ==> value_at(data, fresh[k] as int) != value_at(
        data,
        fresh[l] as int,
    )) by {
        let i = place(count, k, forward);
        let j = place(count, l, forward);
        assert(is_copy(before, list[i], records[i]));
        assert(is_copy(before, list[j], records[j]));
        if i < j {
            lemma_list_distinct(before, list, i, j);
        } else {
            lemma_list_distinct(before, list, j, i);
        }
    }
}

/// Whether some record has `key`.
pub open spec fn has_key(records: Seq<Record>, key: Seq<u8>) -> bool {
    exists|i: int| 0 <= i < records.len() && (#[trigger] records[i]).key == key
}

/// The first record of each key.
pub open spec fn firsts(records: Seq<Record>) -> Seq<Record>
    decreases records.len(),
{
    if records.len() == 0 {
        records
    } else {
        let front = firsts(records.drop_last());
        if has_key(front, records.last().key) {
            front
        } else {
            front.push(records.last())
        }
    }
}

/// First records are distinct, and each of them is a record.
pub proof fn lemma_firsts(records: Seq<Record>)
    ensures
        forall|i: int, j: int|
            #![trigger firsts(records)[i], firsts(records)[j]]
            0 <= i < j < firsts(records).len() ==> firsts(records)[i].key != firsts(records)[j].key,
        forall|i: int|
            0 <= i < firsts(records).len() ==> records.contains(#[trigger] firsts(records)[i]),
        forall|key: Seq<u8>| has_key(records, key) == #[trigger] has_key(firsts(records), key),
    decreases records.len(),
{
    if records.len() > 0 {
        let front = records.drop_last();
        let kept = firsts(front);
        let last = records.last();
        lemma_firsts(front);
        let result = firsts(records);
        assert forall|i: int| 0 <= i < result.len() implies records.contains(
            #[trigger] result[i],
        ) by {
            if i < kept.len() {
                assert(front.contains(kept[i]));
                let k = choose|k: int| 0 <= k < front.len() && front[k] == kept[i];
                assert(records[k] == result[i]);
            } else {
                assert(records[records.len() - 1] == result[i]);
            }
        }
        assert forall|i: int, j: int|
            #![trigger result[i], result[j]]
            0 <= i < j < result.len() implies result[i].key != result[j].key by {
            if j == kept.len() && result[i].key == last.key {
                assert(has_key(kept, last.key)) by {
                    assert(kept[i].key == last.key);
                }
            }
        }
        assert forall|key: Seq<u8>| has_key(records, key) == #[trigger] has_key(result, key) by {
            assert(has_key(front, key) == has_key(kept, key));
            if has_key(records, key) {
                let k = choose|k: int| 0 <= k < records.len() && (#[trigger] records[k]).key == key;
                if k < front.len() {
                    assert(front[k].key == key);
                    let i = choose|i: int| 0 <= i < kept.len() && (#[trigger] kept[i]).key == key;
                    assert(result[i].key == key);
                } else if has_key(kept, key) {
                    let i = choose|i: int| 0 <= i < kept.len() && (#[trigger] kept[i]).key == key;
                    assert(result[i].key == key);
                } else {
                    assert(result[kept.len() as int].key == key);
                }
            }
            if has_key(result, key) {
                let i = choose|i: int| 0 <= i < result.len() && (#[trigger] result[i]).key == key;
                assert(records.contains(result[i]));
                let k = choose|k: int| 0 <= k < records.len() && records[k] == result[i];
                assert(records[k].key == key);
            }
        }
    }
}

/// Whether every chain of a table can be read to its end.
pub open spec fn readable(storage: Storage, chains: Seq<Seq<u64>>) -> bool {
    &&& storage.config.valid()
    &&& storage.body.wf()
    &&& storage.blobs matches Some(files) ==> files.wf()
    &&& storage.blobs is Some == (storage.config.mode == Mode::KeyMap)
    &&& storage.sized()
    &&& storage.chains_hold(chains)
    &&& forall|b: int|
        0 <= b < chains.len() ==> (#[trigger] chains[b]).len() <= node_limit(
            storage.body.capacity(),
        )
}

/// The chains of sound files can be read.
pub proof fn lemma_readable(storage: Storage, chains: Seq<Seq<u64>>)
    requires
        storage.holds(chains, Set::empty(), Map::empty()),
    ensures
        readable(storage, chains),
{
    assert forall|b: int| 0 <= b < chains.len() implies (#[trigger] chains[b]).len() <= node_limit(
        storage.body.capacity(),
    ) by {
        lemma_chain_length(storage, chains, Set::empty(), Map::empty(), b);
    }
}

/// The record of a node that was read.
proof fn lemma_read_record(storage: Storage, chains: Seq<Seq<u64>>, bucket: int, index: int)
    requires
        readable(storage, chains),
        slot(chains, bucket, index),
    ensures
        fitting(storage.config.mode, record_at(storage, chains[bucket][index])),
        bucket_of(storage.config, record_at(storage, chains[bucket][index]).key) == bucket,
        forall|destination: Option<Files>|
            destination is Some == (storage.config.mode == Mode::KeyMap) ==> #[trigger]
                source_defect(
                    storage.blobs,
                    destination,
                    value_at(storage.body.data, chains[bucket][index] as int),
                ) is None,
{
    let word = value_at(storage.body.data, chains[bucket][index] as int);
    assert(storage.valid_word(word));
    if word >= VALUE_BLOB_TAG {
        crate::values::lemma_valid_blob_reads(storage.blobs->0, word - VALUE_BLOB_TAG);
    }
}

/// Tests whether one of the copies has a key.
fn copies_contain(snapshot: &Table, list: &Vec<LooseNode>, key: &[u8]) -> (result: Result<
    bool,
    Error,
>)
    requires
        snapshot.wf(),
    ensures
        result == listed(snapshot.body.files(), list@, key@, 0),
        (forall|i: int|
            0 <= i < list@.len() ==> node_defect(
                snapshot.body.capacity(),
                snapshot.body.data(),
                (#[trigger] list@[i]).body.offset as int,
            ) is None) ==> result == Ok::<bool, Error>(
            exists|i: int|
                0 <= i < list@.len() && key_at(
                    snapshot.body.data(),
                    (#[trigger] list@[i]).body.offset as int,
                ) == key@,
        ),
{
    let mut next: usize = 0;
    while next < list.len()
        invariant
            snapshot.wf(),
            next <= list.len(),
            listed(snapshot.body.files(), list@, key@, 0) == listed(
                snapshot.body.files(),
                list@,
                key@,
                next as int,
            ),
            forall|i: int|
                0 <= i < next ==> key_at(
                    snapshot.body.data(),
                    (#[trigger] list@[i]).body.offset as int,
                ) != key@,
        decreases list.len() - next,
    {
        assert(list@[next as int] == list@[next as int]);
        let node = read_node(&snapshot.body, list[next].body.offset)?;
        if same_bytes(node.key.as_slice(), key) {
            return Ok(true);
        }
        next = next + 1;
    }
    Ok(false)
}

/// How far copying a bucket has come: `list` holds copies of the first records of the
/// `index` nodes in front, and all copies so far were made in the order of `done`.
pub open spec fn capturing(
    snapshot: Storage,
    chains: Seq<Seq<u64>>,
    list: Seq<LooseNode>,
    records: Seq<Record>,
    pages: Pages,
    blobs: Option<Files>,
    done: Seq<Record>,
    forward: bool,
) -> bool {
    &&& copied_list(snapshot, chains, list, records, forward)
    &&& copies(pages, blobs, done + records) == (
        snapshot.body.pages,
        snapshot.blobs,
        None::<Error>,
    )
}

/// Where copying some first records fails, copying all of them fails in the same way.
proof fn lemma_capture_fails(
    all: Seq<Record>,
    count: int,
    pages: Pages,
    blobs: Option<Files>,
    done: Seq<Record>,
)
    requires
        0 <= count <= all.len(),
    ensures
        copies(pages, blobs, done + firsts(all.take(count))).2 is Some ==> copies(
            pages,
            blobs,
            done + firsts(all),
        ).2 == copies(pages, blobs, done + firsts(all.take(count))).2,
{
    let part = done + firsts(all.take(count));
    let total = done + firsts(all);
    lemma_firsts_prefix(all, count);
    assert(total.take(part.len() as int) =~= part);
    if copies(pages, blobs, part).2 is Some {
        lemma_copies_fail(pages, blobs, total, part.len() as int);
    }
}

impl Table {
    /// Copies a node that was read from this table behind the copies of `list`.
    fn append_copy(
        &self,
        node: &crate::node::Node,
        snapshot: &mut Table,
        list: &mut Vec<LooseNode>,
        chains: Ghost<Seq<Seq<u64>>>,
        records: Ghost<Seq<Record>>,
        pages: Ghost<Pages>,
        blobs: Ghost<Option<Files>>,
        done: Ghost<Seq<Record>>,
    ) -> (result: Result<(), Error>)
        requires
            self.wf(),
            old(snapshot).wf(),
            forall|i: int|
                0 <= i < old(list)@.len() ==> (#[trigger] old(list)@[i]).body.offset
                    < NODE_POINTER_LIMIT,
            crate::search::reads_as(self.body.data(), *node),
        ensures
            final(snapshot).wf(),
            final(snapshot).config == old(snapshot).config,
            (final(snapshot).storage(), final(list)@, result) == append_outcome(
                self.storage(),
                old(snapshot).storage(),
                old(list)@,
                node.offset,
            ),
            forall|i: int|
                0 <= i < final(list)@.len() ==> (#[trigger] final(list)@[i]).body.offset
                    < NODE_POINTER_LIMIT,
            ({
                let before = old(snapshot).storage();
                let after = final(snapshot).storage();
                let record = record_of(files_of(self.blobs), *node);
                capturing(
                    before,
                    chains@,
                    old(list)@,
                    records@,
                    pages@,
                    blobs@,
                    done@,
                    true,
                ) && fitting(before.config.mode, record) && source_defect(
                    files_of(self.blobs),
                    before.blobs,
                    node.value,
                ) is None ==> match copies(pages@, blobs@, done@ + records@.push(record)).2 {
                    Some(error) => result == Err::<(), Error>(error),
                    None => {
                        &&& result == Ok::<(), Error>(())
                        &&& capturing(
                            after,
                            chains@,
                            final(list)@,
                            records@.push(record),
                            pages@,
                            blobs@,
                            done@,
                            true,
                        )
                        &&& after.heads == before.heads
                        &&& lists_of(after, chains@) == lists_of(before, chains@)
                    },
                }
            }),
    {
        let ghost before = snapshot.storage();
        let ghost record = record_of(files_of(self.blobs), *node);
        let ghost sound = capturing(
            before,
            chains@,
            list@,
            records@,
            pages@,
            blobs@,
            done@,
            true,
        ) && fitting(before.config.mode, record) && source_defect(
            files_of(self.blobs),
            before.blobs,
            node.value,
        ) is None;
        proof {
            reveal(append_outcome);
            assert(record == record_at(self.storage(), node.offset));
            if sound {
                lemma_copied_forward(before, chains@, list@, records@, record);
                assert((done@ + records@.push(record)).drop_last() =~= done@ + records@);
                assert((done@ + records@.push(record)).last() == record);
            }
        }
        let copy = copy_node(&self.blobs, snapshot, node, 0)?;
        proof {
            crate::table::lemma_node_in_range(*snapshot, copy.body.offset as int);
        }
        if list.len() > 0 {
            let tail: u64 = list[list.len() - 1].body.offset;
            assert(list@[list@.len() - 1].body.offset < NODE_POINTER_LIMIT);
            set_private_next(&mut snapshot.body, tail, 0, copy.body.offset)?;
        }
        list.push(copy);
        Ok(())
    }

    /// Copies the first node of each key of a bucket into the same, empty bucket of a
    /// snapshot, and returns the first copy.
    fn copy_bucket_to_snapshot(
        &self,
        bucket: u64,
        snapshot: &mut Table,
        source_chains: Ghost<Seq<Seq<u64>>>,
        chains: Ghost<Seq<Seq<u64>>>,
        pages: Ghost<Pages>,
        blobs: Ghost<Option<Files>>,
        done: Ghost<Seq<Record>>,
    ) -> (result: Result<Ghost<Seq<u64>>, Error>)
        requires
            self.wf(),
            old(snapshot).wf(),
            old(snapshot).config == self.config,
            bucket < self.config.bucket_count,
        ensures
            final(snapshot).wf(),
            final(snapshot).config == old(snapshot).config,
            ({
                let (after, outcome) = bucket_outcome(
                    self.storage(),
                    old(snapshot).storage(),
                    bucket as int,
                );
                &&& final(snapshot).storage() == after
                &&& match outcome {
                    Ok(_) => result is Ok,
                    Err(error) => result == Err::<Ghost<Seq<u64>>, Error>(error),
                }
            }),
            ({
                let before = old(snapshot).storage();
                let after = final(snapshot).storage();
                let b = bucket as int;
                let records = firsts(records_of(self.storage(), source_chains@[b]));
                readable(self.storage(), source_chains@) && before.holds(
                    chains@,
                    Set::empty(),
                    Map::empty(),
                ) && before.heads[b] == 0 && copies(pages@, blobs@, done@) == (
                    before.body.pages,
                    before.blobs,
                    None::<Error>,
                ) ==> match copies(pages@, blobs@, done@ + records).2 {
                    Some(error) => result == Err::<Ghost<Seq<u64>>, Error>(error),
                    None => {
                        &&& result is Ok
                        &&& after.holds(
                            chains@.update(b, (result->Ok_0)@),
                            Set::empty(),
                            Map::empty(),
                        )
                        &&& lists_of(after, chains@.update(b, (result->Ok_0)@)) == lists_of(
                            before,
                            chains@,
                        ).update(b, records)
                        &&& copies(pages@, blobs@, done@ + records) == (
                            after.body.pages,
                            after.blobs,
                            None::<Error>,
                        )
                        &&& forall|other: int|
                            0 <= other < before.heads.len() && other != b ==> #[trigger]
                                after.heads[other] == before.heads[other]
                    }
                }
            }),
    {
        let ghost b = bucket as int;
        let ghost source = self.storage();
        let ghost before = snapshot.storage();
        let ghost chain = source_chains@[b];
        let ghost all = records_of(source, chain);
        let ghost sound = readable(source, source_chains@) && before.holds(
            chains@,
            Set::empty(),
            Map::empty(),
        ) && before.heads[b] == 0 && copies(pages@, blobs@, done@) == (
            before.body.pages,
            before.blobs,
            None::<Error>,
        );
        let limit: u64 = self.body.byte_capacity() / NODE_SIZE_U64 + 1;
        let mut current: u64 = self.heads[bucket as usize];
        let mut visited: u64 = 0;
        let mut list: Vec<LooseNode> = Vec::new();
        let ghost mut records: Seq<Record> = Seq::empty();
        let ghost outcome = copy_walk(source, before, Seq::empty(), current, limit as nat);
        proof {
            assert(list@ =~= Seq::empty());
            if sound {
                assert(nodes_of(list@) =~= Set::empty());
                assert(blobs_of(list@) =~= Map::empty());
                assert(done@ + records =~= done@);
                assert(firsts(all.take(0)) =~= records);
                assert(linked(source.body, source.heads[b], chain));
            }
        }
        while current != 0
            invariant
                self.wf(),
                snapshot.wf(),
                snapshot.config == self.config,
                old(snapshot).config == self.config,
                bucket < self.config.bucket_count,
                b == bucket,
                source == self.storage(),
                before == old(snapshot).storage(),
                chain == source_chains@[b],
                all == records_of(source, chain),
                limit == node_limit(source.body.capacity()),
                visited <= limit,
                outcome == copy_walk(
                    source,
                    before,
                    Seq::empty(),
                    source.heads[b],
                    limit as nat,
                ),
                outcome == copy_walk(
                    source,
                    snapshot.storage(),
                    list@,
                    current,
                    (limit - visited) as nat,
                ),
                sound == (readable(source, source_chains@) && before.holds(
                    chains@,
                    Set::empty(),
                    Map::empty(),
                ) && before.heads[b] == 0 && copies(pages@, blobs@, done@) == (
                    before.body.pages,
                    before.blobs,
                    None::<Error>,
                )),
                forall|i: int|
                    0 <= i < list@.len() ==> (#[trigger] list@[i]).body.offset
                        < NODE_POINTER_LIMIT,
                sound ==> {
                    &&& visited <= chain.len() <= limit
                    &&& current == (if visited < chain.len() {
                        chain[visited as int]
                    } else {
                        0
                    })
                    &&& records == firsts(all.take(visited as int))
                    &&& capturing(
                        snapshot.storage(),
                        chains@,
                        list@,
                        records,
                        pages@,
                        blobs@,
                        done@,
                        true,
                    )
                    &&& snapshot.storage().heads == before.heads
                    &&& lists_of(snapshot.storage(), chains@) == lists_of(before, chains@)
                },
            decreases limit - visited,
        {
            let ghost now = snapshot.storage();
            proof {
                lemma_copy_step(
                    source,
                    now,
                    list@,
                    current,
                    (limit - visited) as nat,
                );
                if sound {
                    assert(slot(source_chains@, b, visited as int));
                    assert(source_chains@[b][visited as int] == current);
                    lemma_read_record(source, source_chains@, b, visited as int);
                    assert(linked(source.body, source.heads[b], chain));
                    assert(all.take(visited + 1).drop_last() =~= all.take(visited as int));
                    assert(all.take(visited + 1).last() == record_at(source, current));
                    assert(next_at(source.body.data, current as int) == after_in(
                        chain,
                        visited as int,
                    )) by {
                        assert(chain[visited as int] == current);
                    }
                    reveal(after_in);
                }
            }
            if visited == limit {
                return Err(Error::Corrupt("body chain contains a cycle"));
            }
            let node = read_node(&self.body, current)?;
            proof {
                if sound {
                    lemma_keys_listed(now, chains@, list@, records, node.key@);
                }
            }
            if !copies_contain(snapshot, &list, node.key.as_slice())? {
                proof {
                    if sound {
                        assert(record_at(source, current) == record_of(source.blobs, node));
                        assert(records.push(record_at(source, current)) == firsts(
                            all.take(visited + 1),
                        ));
                        lemma_capture_fails(all, visited + 1, pages@, blobs@, done@);
                    }
                }
                self.append_copy(
                    &node,
                    snapshot,
                    &mut list,
                    chains,
                    Ghost(records),
                    pages,
                    blobs,
                    done,
                )?;
                proof {
                    records = firsts(all.take(visited + 1));
                }
            }
            current = node.next;
            visited = visited + 1;
        }
        let root: u64 = if list.len() == 0 {
            0
        } else {
            list[0].body.offset
        };
        let ghost ready = snapshot.storage();
        proof {
            reveal_with_fuel(copy_walk, 2);
            if sound {
                assert(all.take(visited as int) =~= all);
                lemma_firsts(all);
                assert forall|i: int| 0 <= i < records.len() implies bucket_of(
                    ready.config,
                    (#[trigger] records[i]).key,
                ) == bucket by {
                    assert(all.contains(records[i]));
                    let k = choose|k: int| 0 <= k < all.len() && all[k] == records[i];
                    lemma_read_record(source, source_chains@, b, k);
                }
                lemma_copies_published(ready, chains@, list@, records, true, b);
                assert(turned(records, true) =~= records);
                assert(root == first_of(chain_of(list@, true)));
            }
        }
        snapshot.heads.set(bucket as usize, root);
        Ok(Ghost(chain_of(list@, true)))
    }
}

/// A key is among the copies where it is among the records.
proof fn lemma_keys_listed(
    storage: Storage,
    chains: Seq<Seq<u64>>,
    list: Seq<LooseNode>,
    records: Seq<Record>,
    key: Seq<u8>,
)
    requires
        copied_list(storage, chains, list, records, true),
    ensures
        forall|i: int|
            0 <= i < list.len() ==> node_defect(
                storage.body.capacity(),
                storage.body.data,
                (#[trigger] list[i]).body.offset as int,
            ) is None,
        has_key(records, key) == exists|i: int|
            0 <= i < list.len() && key_at(
                storage.body.data,
                (#[trigger] list[i]).body.offset as int,
            ) == key,
{
    assert forall|i: int| 0 <= i < list.len() implies is_copy(
        storage,
        #[trigger] list[i],
        records[i],
    ) by {}
    if has_key(records, key) {
        let i = choose|i: int| 0 <= i < records.len() && (#[trigger] records[i]).key == key;
        assert(is_copy(storage, list[i], records[i]));
        assert(key_at(storage.body.data, list[i].body.offset as int) == key);
    }
    if exists|i: int|
        0 <= i < list.len() && key_at(storage.body.data, (#[trigger] list[i]).body.offset as int)
            == key {
        let i = choose|i: int|
            0 <= i < list.len() && key_at(
                storage.body.data,
                (#[trigger] list[i]).body.offset as int,
            ) == key;
        assert(is_copy(storage, list[i], records[i]));
        assert(records[i].key == key);
    }
}

/// First records of some records in front are in front of the first records.
proof fn lemma_firsts_prefix(records: Seq<Record>, count: int)
    requires
        0 <= count <= records.len(),
    ensures
        firsts(records.take(count)).len() <= firsts(records).len(),
        firsts(records).take(firsts(records.take(count)).len() as int) == firsts(
            records.take(count),
        ),
    decreases records.len(),
{
    let short = firsts(records.take(count));
    if count == records.len() {
        assert(records.take(count) =~= records);
        assert(short.take(short.len() as int) =~= short);
    } else {
        let front = records.drop_last();
        assert(front.take(count) =~= records.take(count));
        lemma_firsts_prefix(front, count);
        assert(firsts(records).take(short.len() as int) =~= firsts(front).take(
            short.len() as int,
        ));
    }
}

/// The records of the first `count` lists, one list behind the other.
pub open spec fn flat(lists: Seq<Seq<Record>>, count: int) -> Seq<Record>
    decreases count,
{
    if count <= 0 {
        Seq::empty()
    } else {
        flat(lists, count - 1) + lists[count - 1]
    }
}

/// The records of some lists in front are in front of the records of more lists.
proof fn lemma_flat_prefix(lists: Seq<Seq<Record>>, few: int, many: int)
    requires
        0 <= few <= many,
    ensures
        flat(lists, few).len() <= flat(lists, many).len(),
        flat(lists, many).take(flat(lists, few).len() as int) == flat(lists, few),
    decreases many,
{
    let short = flat(lists, few);
    if few == many {
        assert(short.take(short.len() as int) =~= short);
    } else {
        lemma_flat_prefix(lists, few, many - 1);
        assert(flat(lists, many).take(short.len() as int) =~= flat(lists, many - 1).take(
            short.len() as int,
        ));
    }
}

/// Where copying some lists fails, copying more of them fails in the same way.
proof fn lemma_flat_fails(
    pages: Pages,
    blobs: Option<Files>,
    lists: Seq<Seq<Record>>,
    few: int,
    many: int,
)
    requires
        0 <= few <= many,
        copies(pages, blobs, flat(lists, few)).2 is Some,
    ensures
        copies(pages, blobs, flat(lists, many)).2 == copies(pages, blobs, flat(lists, few)).2,
{
    lemma_flat_prefix(lists, few, many);
    lemma_copies_fail(pages, blobs, flat(lists, many), flat(lists, few).len() as int);
}

/// What stands in the way of an empty table, if anything.
pub open spec fn table_defect(config: Config) -> Option<Error> {
    let body = crate::allocator::allocator_create_defect(
        config.body_capacity as int,
        config.block_size as int,
    );
    if body is Some {
        body
    } else if config.mode == Mode::KeyMap {
        crate::allocator::allocator_create_defect(
            config.blob_capacity as int,
            config.block_size as int,
        )
    } else {
        None
    }
}

impl Table {
    /// Creates a table without any entry.
    pub fn create(config: &Config, buckets: usize) -> (result: Result<Table, Error>)
        requires
            config.valid(),
            buckets == config.bucket_count,
        ensures
            match result {
                Ok(table) => {
                    &&& table_defect(*config) is None
                    &&& table.wf()
                    &&& table.storage() == empty_storage(*config)
                },
                Err(error) => table_defect(*config) == Some(error),
            },
    {
        let body = crate::allocator::BlockAllocator::create(
            config.body_capacity,
            config.block_size,
        )?;
        let blobs = if config.mode == Mode::KeyMap {
            Some(
                crate::allocator::BlockAllocator::create(config.blob_capacity, config.block_size)?,
            )
        } else {
            None
        };
        let mut heads: Vec<u64> = Vec::new();
        while heads.len() < buckets
            invariant
                heads@.len() <= buckets,
                forall|i: int| 0 <= i < heads@.len() ==> #[trigger] heads@[i] == 0,
            decreases buckets - heads.len(),
        {
            heads.push(0);
        }
        let table = Table {
            config: *config,
            heads,
            body,
            blobs,
        };
        proof {
            crate::database::lemma_capacity(*config);
            assert(table.storage().heads =~= empty_storage(*config).heads);
        }
        Ok(table)
    }
}

/// How far copying the buckets of a table has come: the buckets before `done` hold
/// the lists they have to hold, and the others are empty.
pub open spec fn filled(
    storage: Storage,
    chains: Seq<Seq<u64>>,
    lists: Seq<Seq<Record>>,
    copied_lists: Seq<Seq<Record>>,
    done: int,
) -> bool {
    let empty = empty_storage(storage.config);
    &&& storage.holds(chains, Set::empty(), Map::empty())
    &&& lists.len() == chains.len()
    &&& copied_lists.len() == chains.len()
    &&& forall|b: int|
        #![trigger lists_of(storage, chains)[b]]
        0 <= b < chains.len() ==> lists_of(storage, chains)[b] == (if b < done {
            lists[b]
        } else {
            Seq::empty()
        })
    &&& forall|b: int| done <= b < chains.len() ==> #[trigger] storage.heads[b] == 0
    &&& copies(empty.body.pages, empty.blobs, flat(copied_lists, done)) == (
        storage.body.pages,
        storage.blobs,
        None::<Error>,
    )
}

/// An empty table, to be filled.
proof fn lemma_filled_none(
    config: Config,
    lists: Seq<Seq<Record>>,
    copied_lists: Seq<Seq<Record>>,
)
    requires
        config.valid(),
        empty_storage(config).body.wf(),
        empty_storage(config).blobs matches Some(files) ==> files.wf(),
        lists.len() == config.bucket_count,
        copied_lists.len() == config.bucket_count,
    ensures
        filled(empty_storage(config), empty_chains(config), lists, copied_lists, 0),
{
    let empty = empty_storage(config);
    let chains = empty_chains(config);
    lemma_empty_storage(config);
    assert forall|b: int|
        #![trigger lists_of(empty, chains)[b]]
        0 <= b < chains.len() implies lists_of(empty, chains)[b] == Seq::<Record>::empty() by {
        assert(lists_of(empty, chains)[b] =~= Seq::<Record>::empty());
    }
}

/// One more bucket filled.
proof fn lemma_filled_step(
    before: Storage,
    after: Storage,
    chains: Seq<Seq<u64>>,
    longer: Seq<Seq<u64>>,
    lists: Seq<Seq<Record>>,
    copied_lists: Seq<Seq<Record>>,
    bucket: int,
)
    requires
        filled(before, chains, lists, copied_lists, bucket),
        0 <= bucket < chains.len(),
        after.config == before.config,
        longer.len() == chains.len(),
        after.holds(longer, Set::empty(), Map::empty()),
        lists_of(after, longer) == lists_of(before, chains).update(bucket, lists[bucket]),
        copies(
            empty_storage(before.config).body.pages,
            empty_storage(before.config).blobs,
            flat(copied_lists, bucket) + copied_lists[bucket],
        ) == (after.body.pages, after.blobs, None::<Error>),
        forall|other: int|
            0 <= other < before.heads.len() && other != bucket ==> #[trigger] after.heads[other]
                == before.heads[other],
    ensures
        filled(after, longer, lists, copied_lists, bucket + 1),
{
    assert forall|b: int|
        #![trigger lists_of(after, longer)[b]]
        0 <= b < longer.len() implies lists_of(after, longer)[b] == (if b < bucket + 1 {
        lists[b]
    } else {
        Seq::empty()
    }) by {
        if b != bucket {
            assert(lists_of(before, chains)[b] == lists_of(before, chains)[b]);
        }
    }
    assert forall|b: int| bucket + 1 <= b < longer.len() implies #[trigger] after.heads[b] == 0 by {
        assert(before.heads[b] == 0);
    }
}

/// The first records of each list.
pub open spec fn all_firsts(lists: Seq<Seq<Record>>) -> Seq<Seq<Record>> {
    lists.map_values(|records: Seq<Record>| firsts(records))
}

/// Why no snapshot of a table can be made, if none can.
pub open spec fn capture_defect(config: Config, lists: Seq<Seq<Record>>) -> Option<Error> {
    let empty = empty_storage(config);
    if table_defect(config) is Some {
        table_defect(config)
    } else {
        copies(
            empty.body.pages,
            empty.blobs,
            flat(all_firsts(lists), config.bucket_count as int),
        ).2
    }
}

impl Table {
    /// Makes a snapshot: a table with the first entry of each key.
    pub fn capture(&self, source_chains: Ghost<Seq<Seq<u64>>>) -> (result: Result<
        (Table, Ghost<Seq<Seq<u64>>>),
        Error,
    >)
        requires
            self.wf(),
        ensures
            result matches Ok(made) ==> made.0.wf() && made.0.config == self.config,
            match capture_outcome(self.storage()) {
                Ok(snapshot) => result is Ok && (result->Ok_0).0.storage() == snapshot,
                Err(error) => result == Err::<(Table, Ghost<Seq<Seq<u64>>>), Error>(error),
            },
            ({
                let lists = lists_of(self.storage(), source_chains@);
                readable(self.storage(), source_chains@) ==> match capture_defect(
                    self.config,
                    lists,
                ) {
                    Some(error) => result == Err::<(Table, Ghost<Seq<Seq<u64>>>), Error>(error),
                    None => {
                        &&& result is Ok
                        &&& (result->Ok_0).0.storage().holds(
                            (result->Ok_0).1@,
                            Set::empty(),
                            Map::empty(),
                        )
                        &&& lists_of((result->Ok_0).0.storage(), (result->Ok_0).1@) == all_firsts(
                            lists,
                        )
                        &&& packed((result->Ok_0).0.storage(), all_firsts(lists))
                    },
                }
            }),
    {
        let ghost config = self.config;
        let ghost source = self.storage();
        let ghost lists = lists_of(source, source_chains@);
        let ghost firsts_only = all_firsts(lists);
        let ghost sound = readable(source, source_chains@);
        let mut snapshot = Table::create(&self.config, self.heads.len())?;
        let mut chains: Ghost<Seq<Seq<u64>>> = Ghost(empty_chains(config));
        let ghost empty = empty_storage(config);
        let count: u64 = self.config.bucket_count;
        proof {
            if sound {
                lemma_filled_none(config, firsts_only, firsts_only);
            }
        }
        let mut bucket: u64 = 0;
        while bucket < count
            invariant
                self.wf(),
                snapshot.wf(),
                snapshot.config == config,
                config == self.config,
                count == self.config.bucket_count,
                bucket <= count,
                source == self.storage(),
                lists == lists_of(source, source_chains@),
                firsts_only == all_firsts(lists),
                sound == readable(source, source_chains@),
                empty == empty_storage(config),
                table_defect(config) is None,
                capture_outcome(source) == capture_from(
                    source,
                    snapshot.storage(),
                    bucket as int,
                ),
                sound ==> filled(
                    snapshot.storage(),
                    chains@,
                    firsts_only,
                    firsts_only,
                    bucket as int,
                ),
            decreases count - bucket,
        {
            let ghost before = snapshot.storage();
            let ghost b = bucket as int;
            let ghost done = flat(firsts_only, b);
            proof {
                reveal_with_fuel(capture_from, 2);
                if sound {
                    assert(before.heads[b] == 0);
                    assert(lists[b] == records_of(source, source_chains@[b]));
                    assert(firsts_only[b] == firsts(lists[b]));
                    assert(flat(firsts_only, b + 1) == done + firsts_only[b]);
                    if copies(empty.body.pages, empty.blobs, flat(firsts_only, b + 1)).2 is Some {
                        lemma_flat_fails(
                            empty.body.pages,
                            empty.blobs,
                            firsts_only,
                            b + 1,
                            count as int,
                        );
                    }
                }
            }
            let chain = self.copy_bucket_to_snapshot(
                bucket,
                &mut snapshot,
                source_chains,
                chains,
                Ghost(empty.body.pages),
                Ghost(empty.blobs),
                Ghost(done),
            )?;
            proof {
                if sound {
                    lemma_filled_step(
                        before,
                        snapshot.storage(),
                        chains@,
                        chains@.update(b, chain@),
                        firsts_only,
                        firsts_only,
                        b,
                    );
                    chains@ = chains@.update(b, chain@);
                }
            }
            bucket = bucket + 1;
        }
        proof {
            reveal_with_fuel(capture_from, 2);
            if sound {
                assert(lists_of(snapshot.storage(), chains@) =~= firsts_only);
            }
        }
        Ok((snapshot, chains))
    }
}

/// Lists turned around.
pub open spec fn all_turned(lists: Seq<Seq<Record>>) -> Seq<Seq<Record>> {
    lists.map_values(|records: Seq<Record>| turned(records, false))
}

/// Why no table can be rebuilt from a snapshot, if none can.
pub open spec fn rebuild_defect(config: Config, lists: Seq<Seq<Record>>) -> Option<Error> {
    let empty = empty_storage(config);
    if table_defect(config) is Some {
        table_defect(config)
    } else {
        copies(empty.body.pages, empty.blobs, flat(lists, config.bucket_count as int)).2
    }
}

/// Whether the pages of a table are those that copying lists of records one after
/// another into empty files makes: nothing else has taken any room.
pub open spec fn packed(storage: Storage, lists: Seq<Seq<Record>>) -> bool {
    let empty = empty_storage(storage.config);
    copies(
        empty.body.pages,
        empty.blobs,
        flat(lists, storage.config.bucket_count as int),
    ) == (storage.body.pages, storage.blobs, None::<Error>)
}

impl Table {
    /// Copies a bucket into the same, empty bucket of another table, each node in front
    /// of the one before it.
    fn rebuild_bucket(
        &self,
        bucket: u64,
        table: &mut Table,
        source_chains: Ghost<Seq<Seq<u64>>>,
        chains: Ghost<Seq<Seq<u64>>>,
        pages: Ghost<Pages>,
        blobs: Ghost<Option<Files>>,
        done: Ghost<Seq<Record>>,
    ) -> (result: Result<Ghost<Seq<u64>>, Error>)
        requires
            self.wf(),
            old(table).wf(),
            old(table).config == self.config,
            bucket < self.config.bucket_count,
        ensures
            final(table).wf(),
            final(table).config == old(table).config,
            ({
                let (after, outcome) = bucket_rebuilt(
                    self.storage(),
                    old(table).storage(),
                    bucket as int,
                );
                &&& final(table).storage() == after
                &&& match outcome {
                    Ok(_) => result is Ok,
                    Err(error) => result == Err::<Ghost<Seq<u64>>, Error>(error),
                }
            }),
            ({
                let before = old(table).storage();
                let after = final(table).storage();
                let b = bucket as int;
                let records = records_of(self.storage(), source_chains@[b]);
                readable(self.storage(), source_chains@) && before.holds(
                    chains@,
                    Set::empty(),
                    Map::empty(),
                ) && before.heads[b] == 0 && copies(pages@, blobs@, done@) == (
                    before.body.pages,
                    before.blobs,
                    None::<Error>,
                ) ==> match copies(pages@, blobs@, done@ + records).2 {
                    Some(error) => result == Err::<Ghost<Seq<u64>>, Error>(error),
                    None => {
                        &&& result is Ok
                        &&& after.holds(
                            chains@.update(b, (result->Ok_0)@),
                            Set::empty(),
                            Map::empty(),
                        )
                        &&& lists_of(after, chains@.update(b, (result->Ok_0)@)) == lists_of(
                            before,
                            chains@,
                        ).update(b, turned(records, false))
                        &&& copies(pages@, blobs@, done@ + records) == (
                            after.body.pages,
                            after.blobs,
                            None::<Error>,
                        )
                        &&& forall|other: int|
                            0 <= other < before.heads.len() && other != b ==> #[trigger]
                                after.heads[other] == before.heads[other]
                    },
                }
            }),
    {
        let ghost b = bucket as int;
        let ghost source = self.storage();
        let ghost before = table.storage();
        let ghost chain = source_chains@[b];
        let ghost all = records_of(source, chain);
        let ghost sound = readable(source, source_chains@) && before.holds(
            chains@,
            Set::empty(),
            Map::empty(),
        ) && before.heads[b] == 0 && copies(pages@, blobs@, done@) == (
            before.body.pages,
            before.blobs,
            None::<Error>,
        );
        let limit: u64 = self.body.byte_capacity() / NODE_SIZE_U64 + 1;
        let mut current: u64 = self.heads[bucket as usize];
        let mut visited: u64 = 0;
        let mut root: u64 = 0;
        let ghost mut list: Seq<LooseNode> = Seq::empty();
        let ghost outcome = rebuild_walk(source, before, 0, current, limit as nat);
        proof {
            if sound {
                assert(nodes_of(list) =~= Set::empty());
                assert(blobs_of(list) =~= Map::empty());
                assert(done@ + all.take(0) =~= done@);
                assert(linked(source.body, source.heads[b], chain));
            }
        }
        while current != 0
            invariant
                self.wf(),
                table.wf(),
                table.config == self.config,
                old(table).config == self.config,
                bucket < self.config.bucket_count,
                b == bucket,
                root < NODE_POINTER_LIMIT,
                source == self.storage(),
                before == old(table).storage(),
                chain == source_chains@[b],
                all == records_of(source, chain),
                limit == node_limit(source.body.capacity()),
                visited <= limit,
                outcome == rebuild_walk(source, before, 0, source.heads[b], limit as nat),
                outcome == rebuild_walk(
                    source,
                    table.storage(),
                    root,
                    current,
                    (limit - visited) as nat,
                ),
                sound == (readable(source, source_chains@) && before.holds(
                    chains@,
                    Set::empty(),
                    Map::empty(),
                ) && before.heads[b] == 0 && copies(pages@, blobs@, done@) == (
                    before.body.pages,
                    before.blobs,
                    None::<Error>,
                )),
                sound ==> {
                    &&& visited <= chain.len() <= limit
                    &&& current == (if visited < chain.len() {
                        chain[visited as int]
                    } else {
                        0
                    })
                    &&& root == last_of(list)
                    &&& capturing(
                        table.storage(),
                        chains@,
                        list,
                        all.take(visited as int),
                        pages@,
                        blobs@,
                        done@,
                        false,
                    )
                    &&& table.storage().heads == before.heads
                    &&& lists_of(table.storage(), chains@) == lists_of(before, chains@)
                },
            decreases limit - visited,
        {
            let ghost now = table.storage();
            let ghost record = record_at(source, current);
            proof {
                lemma_rebuild_walk(source, now, root, current, (limit - visited) as nat);
                if sound {
                    assert(slot(source_chains@, b, visited as int));
                    assert(source_chains@[b][visited as int] == current);
                    lemma_read_record(source, source_chains@, b, visited as int);
                    assert(linked(source.body, source.heads[b], chain));
                    assert(next_at(source.body.data, current as int) == after_in(
                        chain,
                        visited as int,
                    )) by {
                        assert(chain[visited as int] == current);
                    }
                    reveal(after_in);
                    lemma_rebuild_step(
                        now,
                        chains@,
                        list,
                        all,
                        visited as int,
                        pages@,
                        blobs@,
                        done@,
                    );
                }
            }
            if visited == limit {
                return Err(Error::Corrupt("body chain contains a cycle"));
            }
            let node = read_node(&self.body, current)?;
            assert(record == record_of(source.blobs, node));
            let copy = copy_node(&self.blobs, table, &node, root)?;
            proof {
                crate::table::lemma_node_in_range(*table, copy.body.offset as int);
                if sound {
                    list = list.push(copy);
                }
            }
            root = copy.body.offset;
            current = node.next;
            visited = visited + 1;
        }
        let ghost ready = table.storage();
        proof {
            reveal_with_fuel(rebuild_walk, 2);
            if sound {
                assert(all.take(visited as int) =~= all);
                assert forall|i: int| 0 <= i < all.len() implies bucket_of(
                    ready.config,
                    (#[trigger] all[i]).key,
                ) == bucket by {
                    lemma_read_record(source, source_chains@, b, i);
                }
                lemma_copies_published(ready, chains@, list, all, false, b);
                assert(root == first_of(chain_of(list, false)));
            }
        }
        table.heads.set(bucket as usize, root);
        Ok(Ghost(chain_of(list, false)))
    }

    /// Makes a table of its own from a snapshot.
    pub fn rebuild(&self, source_chains: Ghost<Seq<Seq<u64>>>) -> (result: Result<
        (Table, Ghost<Seq<Seq<u64>>>),
        Error,
    >)
        requires
            self.wf(),
        ensures
            result matches Ok(made) ==> made.0.wf() && made.0.config == self.config,
            match rebuild_outcome(self.storage()) {
                Ok(table) => result is Ok && (result->Ok_0).0.storage() == table,
                Err(error) => result == Err::<(Table, Ghost<Seq<Seq<u64>>>), Error>(error),
            },
            ({
                let lists = lists_of(self.storage(), source_chains@);
                readable(self.storage(), source_chains@) ==> match rebuild_defect(
                    self.config,
                    lists,
                ) {
                    Some(error) => result == Err::<(Table, Ghost<Seq<Seq<u64>>>), Error>(error),
                    None => {
                        &&& result is Ok
                        &&& (result->Ok_0).0.storage().holds(
                            (result->Ok_0).1@,
                            Set::empty(),
                            Map::empty(),
                        )
                        &&& lists_of((result->Ok_0).0.storage(), (result->Ok_0).1@) == all_turned(
                            lists,
                        )
                        &&& packed((result->Ok_0).0.storage(), lists)
                    },
                }
            }),
    {
        let ghost config = self.config;
        let ghost source = self.storage();
        let ghost lists = lists_of(source, source_chains@);
        let ghost results = all_turned(lists);
        let ghost sound = readable(source, source_chains@);
        let mut table = Table::create(&self.config, self.heads.len())?;
        let mut chains: Ghost<Seq<Seq<u64>>> = Ghost(empty_chains(config));
        let ghost empty = empty_storage(config);
        let count: u64 = self.config.bucket_count;
        proof {
            if sound {
                lemma_filled_none(config, results, lists);
            }
        }
        let mut bucket: u64 = 0;
        while bucket < count
            invariant
                self.wf(),
                table.wf(),
                table.config == config,
                config == self.config,
                count == self.config.bucket_count,
                bucket <= count,
                source == self.storage(),
                lists == lists_of(source, source_chains@),
                results == all_turned(lists),
                sound == readable(source, source_chains@),
                empty == empty_storage(config),
                table_defect(config) is None,
                rebuild_outcome(source) == rebuild_from(source, table.storage(), bucket as int),
                sound ==> filled(table.storage(), chains@, results, lists, bucket as int),
            decreases count - bucket,
        {
            let ghost before = table.storage();
            let ghost b = bucket as int;
            let ghost done = flat(lists, b);
            proof {
                reveal_with_fuel(rebuild_from, 2);
                if sound {
                    assert(before.heads[b] == 0);
                    assert(lists[b] == records_of(source, source_chains@[b]));
                    assert(results[b] == turned(lists[b], false));
                    assert(flat(lists, b + 1) == done + lists[b]);
                    if copies(empty.body.pages, empty.blobs, flat(lists, b + 1)).2 is Some {
                        lemma_flat_fails(
                            empty.body.pages,
                            empty.blobs,
                            lists,
                            b + 1,
                            count as int,
                        );
                    }
                }
            }
            let chain = self.rebuild_bucket(
                bucket,
                &mut table,
                source_chains,
                chains,
                Ghost(empty.body.pages),
                Ghost(empty.blobs),
                Ghost(done),
            )?;
            proof {
                if sound {
                    lemma_filled_step(
                        before,
                        table.storage(),
                        chains@,
                        chains@.update(b, chain@),
                        results,
                        lists,
                        b,
                    );
                    chains@ = chains@.update(b, chain@);
                }
            }
            bucket = bucket + 1;
        }
        proof {
            reveal_with_fuel(rebuild_from, 2);
            if sound {
                assert(lists_of(table.storage(), chains@) =~= results);
            }
        }
        Ok((table, chains))
    }
}

/// One more node of a bucket copied in front of the others.
proof fn lemma_rebuild_step(
    now: Storage,
    chains: Seq<Seq<u64>>,
    list: Seq<LooseNode>,
    all: Seq<Record>,
    index: int,
    pages: Pages,
    blobs: Option<Files>,
    done: Seq<Record>,
)
    requires
        0 <= index < all.len(),
        capturing(now, chains, list, all.take(index), pages, blobs, done, false),
        fitting(now.config.mode, all[index]),
    ensures
        ({
            let (after, result) = copied(now, all[index], last_of(list));
            &&& last_of(list) < NODE_POINTER_LIMIT
            &&& match result {
                Err(error) => copies(pages, blobs, done + all).2 == Some(error),
                Ok(made) => {
                    &&& capturing(
                        after,
                        chains,
                        list.push(made),
                        all.take(index + 1),
                        pages,
                        blobs,
                        done,
                        false,
                    )
                    &&& after.heads == now.heads
                    &&& lists_of(after, chains) == lists_of(now, chains)
                },
            }
        }),
{
    let record = all[index];
    let part = all.take(index);
    let more = all.take(index + 1);
    lemma_copied_backward(now, chains, list, part, record);
    assert(more =~= part.push(record));
    assert((done + more).drop_last() =~= done + part);
    assert((done + more).last() == record);
    let total = done + all;
    assert(total.take((done + more).len() as int) =~= done + more);
    if copy_step(now.body.pages, now.blobs, record).2 is Some {
        lemma_copies_fail(pages, blobs, total, (done + more).len() as int);
    }
}

} // verus!

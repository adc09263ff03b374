//! Steps between the states of a database's files: taking and releasing nodes
//! and blobs, and chaining and unchaining nodes.

use vstd::prelude::*;

#[allow(unused_imports)]
use crate::accounting::{
    accounts, law_release_keeps_accounts, lemma_entries, lemma_page_of, lemma_placed_within, placed,
    with_batch,
};
#[allow(unused_imports)]
use crate::allocator::{
    after_request, at_least, batch_outcome, data_length, extent_defect, law_allocations_apart,
    lemma_batch_extent, lemma_batch_not_empty, lemma_outcome_pages, release_defect,
    word_access_defect, Allocation, AllocationBatch, Files,
};
#[allow(unused_imports)]
use crate::bytes::{le32_bytes, le64_bytes, lemma_le_fields, lemma_same_fields, patched};
#[allow(unused_imports)]
use crate::config::Mode;
#[allow(unused_imports)]
use crate::layout::{
    BLOB_HEADER_SIZE, DATA_START, NODE_ALIGNMENT, NODE_POINTER_LIMIT, NODE_POINTER_OFFSET,
    NODE_SIZE, NODE_VALUE_OFFSET, VALUE_BLOB_TAG,
};
#[allow(unused_imports)]
use crate::node::{
    blob_checksum_of, blob_header_of, key_at, next_at, node_bytes, node_checksum_of, node_defect,
    value_at, with_next,
};
#[allow(unused_imports)]
use crate::pages::Pages;
#[allow(unused_imports)]
use crate::storage::{
    after_in, blob_extent, blob_value, bucket_of, chained, first_of, lemma_node_bytes_kept,
    lemma_nodes_apart, lemma_same_node, lemma_with_next, linked, same_node, slot, valid_blob,
    Storage,
};

verus! {

/// The same chains over other nodes: where each chained node agrees but for its
/// next-node offset, entries stay as they were.
pub proof fn lemma_entries_kept(before: Storage, after: Storage, chain: Seq<u64>)
    requires
        after.config == before.config,
        after.blobs == before.blobs,
        forall|i: int|
            #![trigger chain[i]]
            0 <= i < chain.len() ==> same_node(before.body.data, after.body.data, chain[i] as int),
    ensures
        after.entries_of(chain) == before.entries_of(chain),
{
    assert forall|i: int| 0 <= i < chain.len() implies #[trigger] after.entries_of(chain)[i]
        == before.entries_of(chain)[i] by {
        assert(same_node(before.body.data, after.body.data, chain[i] as int));
    }
    assert(after.entries_of(chain) =~= before.entries_of(chain));
}

/// A change of the body that keeps the bytes of every chained node, and whose
/// counts are those of the chained nodes and `nodes_after`, keeps what is held.
pub proof fn lemma_body_changed(
    before: Storage,
    body: Files,
    chains: Seq<Seq<u64>>,
    nodes: Set<int>,
    nodes_after: Set<int>,
    blobs: Map<int, int>,
)
    requires
        before.holds(chains, nodes, blobs),
        body.wf(),
        body.pages.block_size == before.body.pages.block_size,
        body.pages.block_count == before.body.pages.block_count,
        before.body.data.len() <= body.data.len(),
        forall|b: int, i: int, k: int|
            #![trigger chains[b][i], body.data[k]]
            slot(chains, b, i) && chains[b][i] <= k < chains[b][i] + NODE_SIZE ==> body.data[k]
                == before.body.data[k],
        forall|b: int, i: int|
            #![trigger chains[b][i]]
            slot(chains, b, i) ==> !nodes_after.contains(chains[b][i] as int),
        forall|offset: int| #[trigger] nodes_after.contains(offset) ==> offset % 32 == 0,
        accounts(body.pages, before.live_nodes(chains, nodes_after)),
    ensures
        (Storage { body, ..before }).holds(chains, nodes_after, blobs),
        (Storage { body, ..before }).entries(chains) == before.entries(chains),
{
    let after = Storage { body, ..before };
    assert forall|b: int, i: int|
        #![trigger chains[b][i]]
        slot(chains, b, i) implies same_node(before.body.data, body.data, chains[b][i] as int)
        && next_at(body.data, chains[b][i] as int) == next_at(
        before.body.data,
        chains[b][i] as int,
    ) && node_defect(body.capacity(), body.data, chains[b][i] as int) is None by {
        let o = chains[b][i] as int;
        assert(linked(before.body, before.heads[b], chains[b]));
        assert(node_defect(before.body.capacity(), before.body.data, o) is None);
        assert forall|k: int|
            o <= k < o + NODE_SIZE implies before.body.data[k] == body.data[k] by {
            assert(body.data[k] == before.body.data[k]);
        }
        lemma_node_bytes_kept(before.body.data, body.data, o);
        lemma_same_node(body.capacity(), before.body.data, body.data, o);
    }
    assert forall|b: int|
        #![trigger chains[b]]
        0 <= b < chains.len() implies linked(body, before.heads[b], chains[b]) by {
        assert(linked(before.body, before.heads[b], chains[b]));
        assert forall|i: int|
            #![trigger chains[b][i]]
            0 <= i < chains[b].len() implies node_defect(
            body.capacity(),
            body.data,
            chains[b][i] as int,
        ) is None && next_at(body.data, chains[b][i] as int) == after_in(chains[b], i) by {
            assert(slot(chains, b, i));
        }
    }
    assert forall|b: int, i: int|
        #![trigger chains[b][i]]
        slot(chains, b, i) implies after.valid_word(value_at(body.data, chains[b][i] as int))
        && bucket_of(after.config, key_at(body.data, chains[b][i] as int)) == b by {
        assert(same_node(before.body.data, body.data, chains[b][i] as int));
    }
    assert forall|b: int, i: int|
        #![trigger chains[b][i]]
        slot(chains, b, i) implies value_at(body.data, chains[b][i] as int) == value_at(
        before.body.data,
        chains[b][i] as int,
    ) by {
        assert(same_node(before.body.data, body.data, chains[b][i] as int));
    }
    assert(after.apart(chains, nodes_after, blobs));
    assert(after.live_nodes(chains, nodes_after) =~= before.live_nodes(chains, nodes_after));
    lemma_referred_kept(before, after, chains, blobs);
    lemma_all_entries_kept(before, after, chains);
}

/// Where chained nodes agree, they refer to the same blobs.
proof fn lemma_referred_kept(
    before: Storage,
    after: Storage,
    chains: Seq<Seq<u64>>,
    blobs: Map<int, int>,
)
    requires
        after.blobs == before.blobs,
        forall|b: int, i: int|
            #![trigger chains[b][i]]
            slot(chains, b, i) ==> value_at(after.body.data, chains[b][i] as int) == value_at(
                before.body.data,
                chains[b][i] as int,
            ),
    ensures
        after.live_blobs(chains, blobs) == before.live_blobs(chains, blobs),
{
    assert forall|offset: int|
        after.referred(chains, offset) == before.referred(chains, offset) by {
        if after.referred(chains, offset) {
            let (b, i) = choose|b: int, i: int|
                slot(chains, b, i) && value_at(after.body.data, #[trigger] chains[b][i] as int)
                    == VALUE_BLOB_TAG + offset;
            assert(value_at(before.body.data, chains[b][i] as int) == VALUE_BLOB_TAG + offset);
        }
        if before.referred(chains, offset) {
            let (b, i) = choose|b: int, i: int|
                slot(chains, b, i) && value_at(before.body.data, #[trigger] chains[b][i] as int)
                    == VALUE_BLOB_TAG + offset;
            assert(value_at(after.body.data, chains[b][i] as int) == VALUE_BLOB_TAG + offset);
        }
    }
    assert(after.live_blobs(chains, blobs) =~= before.live_blobs(chains, blobs));
}

/// Where chained nodes agree, all entries stay as they were.
proof fn lemma_all_entries_kept(before: Storage, after: Storage, chains: Seq<Seq<u64>>)
    requires
        after.config == before.config,
        after.blobs == before.blobs,
        forall|b: int, i: int|
            #![trigger chains[b][i]]
            slot(chains, b, i) ==> same_node(
                before.body.data,
                after.body.data,
                chains[b][i] as int,
            ),
    ensures
        after.entries(chains) == before.entries(chains),
{
    assert forall|b: int| 0 <= b < chains.len() implies #[trigger] after.entries(chains)[b]
        == before.entries(chains)[b] by {
        assert forall|i: int|
            #![trigger chains[b][i]]
            0 <= i < chains[b].len() implies same_node(
            before.body.data,
            after.body.data,
            chains[b][i] as int,
        ) by {
            assert(slot(chains, b, i));
        }
        lemma_entries_kept(before, after, chains[b]);
    }
    assert(after.entries(chains) =~= before.entries(chains));
}

/// A change of the blob file that keeps the bytes of every blob that a chained
/// node refers to, and whose counts are those of these blobs and `blobs_after`,
/// keeps what is held.
pub proof fn lemma_blobs_changed(
    before: Storage,
    files: Files,
    chains: Seq<Seq<u64>>,
    nodes: Set<int>,
    blobs: Map<int, int>,
    blobs_after: Map<int, int>,
)
    requires
        before.holds(chains, nodes, blobs),
        before.config.mode == Mode::KeyMap,
        files.wf(),
        files.pages.block_size == before.blobs->0.pages.block_size,
        files.pages.block_count == before.blobs->0.pages.block_count,
        before.blobs->0.data.len() <= files.data.len(),
        forall|offset: int, k: int|
            #![trigger before.referred(chains, offset), files.data[k]]
            before.referred(chains, offset) && offset <= k < offset + blob_extent(
                before.blobs->0,
                offset,
            ) ==> files.data[k] == before.blobs->0.data[k],
        forall|offset: int|
            #![trigger before.referred(chains, offset)]
            before.referred(chains, offset) ==> !blobs_after.dom().contains(offset),
        accounts(files.pages, before.live_blobs(chains, blobs_after)),
    ensures
        (Storage { blobs: Some(files), ..before }).holds(chains, nodes, blobs_after),
        (Storage { blobs: Some(files), ..before }).entries(chains) == before.entries(chains),
{
    let after = Storage { blobs: Some(files), ..before };
    let old_files = before.blobs->0;
    assert forall|b: int, i: int|
        #![trigger chains[b][i]]
        slot(chains, b, i) implies after.valid_word(value_at(before.body.data, chains[b][i] as int))
        && after.value_of(value_at(before.body.data, chains[b][i] as int)) == before.value_of(
        value_at(before.body.data, chains[b][i] as int),
    ) by {
        let word = value_at(before.body.data, chains[b][i] as int);
        assert(before.valid_word(word));
        if word >= VALUE_BLOB_TAG {
            let offset = word - VALUE_BLOB_TAG;
            assert(before.referred(chains, offset));
            lemma_blob_kept(old_files, files, offset);
        }
    }
    assert(after.chains_hold(chains));
    assert forall|b: int, i: int|
        #![trigger chains[b][i]]
        slot(chains, b, i) && value_at(before.body.data, chains[b][i] as int)
        >= VALUE_BLOB_TAG implies !blobs_after.dom().contains(
        value_at(before.body.data, chains[b][i] as int) - VALUE_BLOB_TAG,
    ) by {
        let word = value_at(before.body.data, chains[b][i] as int);
        assert(before.referred(chains, word - VALUE_BLOB_TAG));
    }
    assert forall|offset: int| before.referred(chains, offset) implies blob_extent(files, offset)
        == blob_extent(old_files, offset) by {
        let (b, i) = choose|b: int, i: int|
            slot(chains, b, i) && value_at(before.body.data, #[trigger] chains[b][i] as int)
                == VALUE_BLOB_TAG + offset;
        assert(before.valid_word(value_at(before.body.data, chains[b][i] as int)));
        lemma_blob_kept(old_files, files, offset);
    }
    assert forall|offset: int|
        after.referred(chains, offset) == before.referred(chains, offset) by {
        assert(after.body == before.body);
    }
    assert(after.live_blobs(chains, blobs_after) =~= before.live_blobs(chains, blobs_after));
    assert(after.live_nodes(chains, nodes) =~= before.live_nodes(chains, nodes));
    assert forall|b: int| 0 <= b < chains.len() implies #[trigger] after.entries(chains)[b]
        == before.entries(chains)[b] by {
        assert forall|i: int| 0 <= i < chains[b].len() implies #[trigger] after.entries_of(
            chains[b],
        )[i] == before.entries_of(chains[b])[i] by {
            assert(slot(chains, b, i));
        }
        assert(after.entries_of(chains[b]) =~= before.entries_of(chains[b]));
    }
    assert(after.entries(chains) =~= before.entries(chains));
}

/// A blob whose bytes are kept stays as it was.
pub proof fn lemma_blob_kept(before: Files, after: Files, offset: int)
    requires
        valid_blob(before, offset),
        before.data.len() <= after.data.len(),
        after.pages.block_size == before.pages.block_size,
        after.pages.block_count == before.pages.block_count,
        forall|k: int|
            offset <= k < offset + blob_extent(before, offset) ==> #[trigger] after.data[k]
                == before.data[k],
    ensures
        valid_blob(after, offset),
        blob_extent(after, offset) == blob_extent(before, offset),
        blob_value(after, offset) == blob_value(before, offset),
{
    lemma_same_fields(after.data, offset, before.data, offset, 4);
    lemma_same_fields(after.data, offset + 4, before.data, offset + 4, 4);
    assert(blob_value(after, offset) =~= blob_value(before, offset));
}

/// Whether one of `fresh` refers to the blob at `offset`.
pub open spec fn fresh_blob(data: Seq<u8>, fresh: Seq<u64>, offset: int) -> bool {
    0 <= offset && exists|i: int|
        0 <= i < fresh.len() && value_at(data, #[trigger] fresh[i] as int) == VALUE_BLOB_TAG
            + offset
}

/// Whether the private nodes `fresh` can be put in front of the chain of `bucket`:
/// each is a node of that bucket with a value, each points to the next one, and
/// the last one to the head of the bucket.
pub open spec fn publishable(
    storage: Storage,
    bucket: int,
    fresh: Seq<u64>,
    nodes: Set<int>,
    blobs: Map<int, int>,
) -> bool {
    let data = storage.body.data;
    &&& fresh.len() > 0
    &&& forall|i: int|
        #![trigger fresh[i]]
        0 <= i < fresh.len() ==> {
            let word = value_at(data, fresh[i] as int);
            &&& nodes.contains(fresh[i] as int)
            &&& node_defect(storage.body.capacity(), data, fresh[i] as int) is None
            &&& bucket_of(storage.config, key_at(data, fresh[i] as int)) == bucket
            &&& storage.valid_word(word)
            &&& word >= VALUE_BLOB_TAG ==> blobs.dom().contains(word - VALUE_BLOB_TAG)
                && blobs[word - VALUE_BLOB_TAG] == blob_extent(
                storage.blobs->0,
                word - VALUE_BLOB_TAG,
            )
            &&& next_at(data, fresh[i] as int) == (if i + 1 < fresh.len() {
                fresh[i + 1]
            } else {
                storage.heads[bucket]
            })
        }
    &&& forall|i: int, j: int|
        #![trigger fresh[i], fresh[j]]
        0 <= i < j < fresh.len() ==> fresh[i] != fresh[j] && (value_at(data, fresh[i] as int)
            >= VALUE_BLOB_TAG ==> value_at(data, fresh[i] as int) != value_at(
            data,
            fresh[j] as int,
        ))
}

/// Where a chain grows at its front, an old slot moves by the number of new nodes.
proof fn lemma_grown_slots(chains: Seq<Seq<u64>>, bucket: int, fresh: Seq<u64>)
    requires
        0 <= bucket < chains.len(),
    ensures
        ({
            let after = chains.update(bucket, fresh + chains[bucket]);
            &&& forall|b: int, i: int|
                #![trigger after[b][i]]
                slot(after, b, i) ==> if b == bucket && i < fresh.len() {
                    after[b][i] == fresh[i]
                } else if b == bucket {
                    slot(chains, b, i - fresh.len()) && after[b][i] == chains[b][i - fresh.len()]
                } else {
                    slot(chains, b, i) && after[b][i] == chains[b][i]
                }
            &&& forall|b: int, i: int|
                #![trigger chains[b][i]]
                slot(chains, b, i) ==> if b == bucket {
                    slot(after, b, i + fresh.len()) && after[b][i + fresh.len()] == chains[b][i]
                } else {
                    slot(after, b, i) && after[b][i] == chains[b][i]
                }
            &&& forall|i: int|
                #![trigger fresh[i]]
                0 <= i < fresh.len() ==> slot(after, bucket, i) && after[bucket][i] == fresh[i]
        }),
{
}

/// Private nodes put in front of a chain, as the head of its bucket: the bucket
/// has their entries in front of its own.
#[verifier::rlimit(40)]
pub proof fn lemma_published(
    before: Storage,
    chains: Seq<Seq<u64>>,
    nodes: Set<int>,
    nodes_after: Set<int>,
    blobs: Map<int, int>,
    blobs_after: Map<int, int>,
    bucket: int,
    fresh: Seq<u64>,
)
    requires
        before.holds(chains, nodes, blobs),
        0 <= bucket < chains.len(),
        publishable(before, bucket, fresh, nodes, blobs),
        forall|offset: int|
            nodes.contains(offset) <==> nodes_after.contains(offset) || exists|i: int|
                0 <= i < fresh.len() && #[trigger] fresh[i] == offset,
        forall|i: int|
            #![trigger fresh[i]]
            0 <= i < fresh.len() ==> !nodes_after.contains(fresh[i] as int),
        forall|offset: int|
            #![trigger blobs.dom().contains(offset)]
            blobs.dom().contains(offset) <==> blobs_after.dom().contains(offset) || fresh_blob(
                before.body.data,
                fresh,
                offset,
            ),
        forall|offset: int|
            #![trigger blobs_after.dom().contains(offset)]
            blobs_after.dom().contains(offset) ==> !fresh_blob(before.body.data, fresh, offset)
                && blobs_after[offset] == blobs[offset],
    ensures
        ({
            let after = Storage { heads: before.heads.update(bucket, fresh[0]), ..before };
            let longer = chains.update(bucket, fresh + chains[bucket]);
            &&& after.holds(longer, nodes_after, blobs_after)
            &&& after.entries(longer) == before.entries(chains).update(
                bucket,
                before.entries_of(fresh) + before.entries(chains)[bucket],
            )
        }),
{
    let after = Storage { heads: before.heads.update(bucket, fresh[0]), ..before };
    let longer = chains.update(bucket, fresh + chains[bucket]);
    let data = before.body.data;
    let count = fresh.len() as int;
    lemma_grown_slots(chains, bucket, fresh);
    // chains
    assert forall|b: int|
        #![trigger longer[b]]
        0 <= b < longer.len() implies linked(after.body, after.heads[b], longer[b]) by {
        assert(linked(before.body, before.heads[b], chains[b]));
        if b == bucket {
            assert forall|i: int|
                #![trigger longer[b][i]]
                0 <= i < longer[b].len() implies node_defect(
                after.body.capacity(),
                data,
                longer[b][i] as int,
            ) is None && next_at(data, longer[b][i] as int) == after_in(longer[b], i) by {
                reveal(after_in);
                if i < count {
                    assert(longer[b][i] == fresh[i]);
                } else {
                    assert(longer[b][i] == chains[b][i - count]);
                    assert(after_in(longer[b], i) == after_in(chains[b], i - count));
                }
            }
        }
    }
    assert forall|b: int, i: int|
        #![trigger longer[b][i]]
        slot(longer, b, i) implies after.valid_word(value_at(data, longer[b][i] as int))
        && bucket_of(after.config, key_at(data, longer[b][i] as int)) == b by {
        if b == bucket && i < count {
            assert(longer[b][i] == fresh[i]);
        } else if b == bucket {
            assert(slot(chains, b, i - count));
        }
    }
    assert(after.chains_hold(longer));
    // apartness
    assert forall|b: int, i: int, c: int, j: int|
        #![trigger longer[b][i], longer[c][j]]
        slot(longer, b, i) && slot(longer, c, j) implies (longer[b][i] == longer[c][j] ==> b == c
        && i == j) && (value_at(data, longer[b][i] as int) >= VALUE_BLOB_TAG && value_at(
        data,
        longer[b][i] as int,
    ) == value_at(data, longer[c][j] as int) ==> b == c && i == j) by {
        lemma_fresh_apart(before, chains, nodes, blobs, bucket, fresh, b, i, c, j);
    }
    assert forall|b: int, i: int|
        #![trigger longer[b][i]]
        slot(longer, b, i) implies !nodes_after.contains(longer[b][i] as int) && (value_at(
        data,
        longer[b][i] as int,
    ) >= VALUE_BLOB_TAG ==> !blobs_after.dom().contains(
        value_at(data, longer[b][i] as int) - VALUE_BLOB_TAG,
    )) by {
        let word = value_at(data, longer[b][i] as int);
        if b == bucket && i < count {
            assert(longer[b][i] == fresh[i]);
            if word >= VALUE_BLOB_TAG {
                assert(fresh_blob(data, fresh, word - VALUE_BLOB_TAG));
            }
        } else {
            let k = if b == bucket {
                i - count
            } else {
                i
            };
            assert(slot(chains, b, k));
            assert(longer[b][i] == chains[b][k]);
            assert(!nodes.contains(chains[b][k] as int));
            if word >= VALUE_BLOB_TAG {
                assert(!blobs.dom().contains(word - VALUE_BLOB_TAG));
            }
        }
    }
    assert forall|offset: int| #[trigger] nodes_after.contains(offset) implies offset % 32 == 0 by {
        assert(nodes.contains(offset));
    }
    assert(after.apart(longer, nodes_after, blobs_after));
    // counts
    assert forall|offset: int| (nodes_after.contains(offset) || chained(longer, offset)) == (
    nodes.contains(offset) || chained(chains, offset)) by {
        if chained(longer, offset) {
            let (b, i) = choose|b: int, i: int| slot(longer, b, i) && #[trigger] longer[b][i]
                == offset;
            if b == bucket && i < count {
                assert(fresh[i] == offset);
            } else {
                let k = if b == bucket {
                    i - count
                } else {
                    i
                };
                assert(slot(chains, b, k) && chains[b][k] == offset);
            }
        }
        if chained(chains, offset) {
            let (b, i) = choose|b: int, i: int| slot(chains, b, i) && #[trigger] chains[b][i]
                == offset;
            let k = if b == bucket {
                i + count
            } else {
                i
            };
            assert(slot(longer, b, k) && longer[b][k] == offset);
        }
        if nodes.contains(offset) && !nodes_after.contains(offset) {
            let i = choose|i: int| 0 <= i < fresh.len() && #[trigger] fresh[i] == offset;
            assert(slot(longer, bucket, i) && longer[bucket][i] == offset);
        }
    }
    assert(after.live_nodes(longer, nodes_after) =~= before.live_nodes(chains, nodes));
    assert forall|offset: int| (blobs_after.dom().contains(offset) || after.referred(
        longer,
        offset,
    )) == (blobs.dom().contains(offset) || before.referred(chains, offset)) && (
    !blobs_after.dom().contains(offset) && blobs.dom().contains(offset) ==> blobs[offset]
        == blob_extent(before.blobs->0, offset)) by {
        lemma_fresh_referred(before, chains, nodes, blobs, bucket, fresh, offset);
    }
    assert(after.live_blobs(longer, blobs_after) =~= before.live_blobs(chains, blobs));
    // entries
    let expected = before.entries(chains).update(
        bucket,
        before.entries_of(fresh) + before.entries(chains)[bucket],
    );
    assert forall|b: int| 0 <= b < longer.len() implies #[trigger] after.entries(longer)[b]
        == expected[b] by {
        assert forall|i: int| 0 <= i < longer[b].len() implies after.entries_of(longer[b])[i]
            == #[trigger] expected[b][i] by {
            if b == bucket && i < count {
                assert(longer[b][i] == fresh[i]);
            } else if b == bucket {
                assert(longer[b][i] == chains[b][i - count]);
            }
        }
        assert(after.entries_of(longer[b]) =~= expected[b]);
    }
    assert(after.entries(longer) =~= expected);
}

/// New and old nodes are in different places and refer to different blobs.
proof fn lemma_fresh_apart(
    before: Storage,
    chains: Seq<Seq<u64>>,
    nodes: Set<int>,
    blobs: Map<int, int>,
    bucket: int,
    fresh: Seq<u64>,
    b: int,
    i: int,
    c: int,
    j: int,
)
    requires
        before.apart(chains, nodes, blobs),
        0 <= bucket < chains.len(),
        publishable(before, bucket, fresh, nodes, blobs),
        slot(chains.update(bucket, fresh + chains[bucket]), b, i),
        slot(chains.update(bucket, fresh + chains[bucket]), c, j),
    ensures
        ({
            let longer = chains.update(bucket, fresh + chains[bucket]);
            let data = before.body.data;
            &&& longer[b][i] == longer[c][j] ==> b == c && i == j
            &&& value_at(data, longer[b][i] as int) >= VALUE_BLOB_TAG && value_at(
                data,
                longer[b][i] as int,
            ) == value_at(data, longer[c][j] as int) ==> b == c && i == j
        }),
{
    let longer = chains.update(bucket, fresh + chains[bucket]);
    let count = fresh.len() as int;
    lemma_grown_slots(chains, bucket, fresh);
    let new_one = b == bucket && i < count;
    let new_two = c == bucket && j < count;
    let k = if b == bucket {
        i - count
    } else {
        i
    };
    let l = if c == bucket {
        j - count
    } else {
        j
    };
    if new_one && new_two {
        assert(longer[b][i] == fresh[i]);
        assert(longer[c][j] == fresh[j]);
    } else if new_one {
        assert(longer[b][i] == fresh[i]);
        assert(slot(chains, c, l) && longer[c][j] == chains[c][l]);
    } else if new_two {
        assert(longer[c][j] == fresh[j]);
        assert(slot(chains, b, k) && longer[b][i] == chains[b][k]);
    } else {
        assert(slot(chains, b, k) && longer[b][i] == chains[b][k]);
        assert(slot(chains, c, l) && longer[c][j] == chains[c][l]);
    }
}

/// The blobs referred to after publication are those referred to before, and
/// those of the new nodes.
proof fn lemma_fresh_referred(
    before: Storage,
    chains: Seq<Seq<u64>>,
    nodes: Set<int>,
    blobs: Map<int, int>,
    bucket: int,
    fresh: Seq<u64>,
    offset: int,
)
    requires
        0 <= bucket < chains.len(),
        publishable(before, bucket, fresh, nodes, blobs),
    ensures
        before.referred(chains.update(bucket, fresh + chains[bucket]), offset) == (before.referred(
            chains,
            offset,
        ) || fresh_blob(before.body.data, fresh, offset)),
        fresh_blob(before.body.data, fresh, offset) ==> blobs.dom().contains(offset)
            && blobs[offset] == blob_extent(before.blobs->0, offset),
{
    let longer = chains.update(bucket, fresh + chains[bucket]);
    let data = before.body.data;
    let count = fresh.len() as int;
    lemma_grown_slots(chains, bucket, fresh);
    if before.referred(longer, offset) {
        let (b, i) = choose|b: int, i: int|
            slot(longer, b, i) && value_at(data, #[trigger] longer[b][i] as int)
                == VALUE_BLOB_TAG + offset;
        if b == bucket && i < count {
            assert(longer[b][i] == fresh[i]);
        } else {
            let k = if b == bucket {
                i - count
            } else {
                i
            };
            assert(slot(chains, b, k) && longer[b][i] == chains[b][k]);
        }
    }
    if before.referred(chains, offset) {
        let (b, i) = choose|b: int, i: int|
            slot(chains, b, i) && value_at(data, #[trigger] chains[b][i] as int) == VALUE_BLOB_TAG
                + offset;
        let k = if b == bucket {
            i + count
        } else {
            i
        };
        assert(slot(longer, b, k) && longer[b][k] == chains[b][i]);
    }
    if fresh_blob(data, fresh, offset) {
        let i = choose|i: int|
            0 <= i < fresh.len() && value_at(data, #[trigger] fresh[i] as int) == VALUE_BLOB_TAG
                + offset;
        assert(slot(longer, bucket, i) && longer[bucket][i] == fresh[i]);
    }
}

/// The storage after the node `chains[bucket][index]` was taken out of its chain.
pub open spec fn unlinked(
    storage: Storage,
    chains: Seq<Seq<u64>>,
    bucket: int,
    index: int,
) -> Storage {
    let next = after_in(chains[bucket], index);
    if index == 0 {
        Storage { heads: storage.heads.update(bucket, next), ..storage }
    } else {
        Storage {
            body: Files {
                data: with_next(storage.body.data, chains[bucket][index - 1] as int, next),
                ..storage.body
            },
            ..storage
        }
    }
}

/// `blobs` with the blob of the node at `offset`, if it has one.
pub open spec fn with_blob_of(storage: Storage, blobs: Map<int, int>, offset: int) -> Map<
    int,
    int,
> {
    let word = value_at(storage.body.data, offset);
    if word >= VALUE_BLOB_TAG {
        blobs.insert(
            word - VALUE_BLOB_TAG,
            blob_extent(storage.blobs->0, word - VALUE_BLOB_TAG),
        )
    } else {
        blobs
    }
}

/// Where a node leaves its chain, the slots behind it move up.
proof fn lemma_shrunk_slots(chains: Seq<Seq<u64>>, bucket: int, index: int)
    requires
        slot(chains, bucket, index),
    ensures
        ({
            let after = chains.update(bucket, chains[bucket].remove(index));
            &&& forall|b: int, i: int|
                #![trigger after[b][i]]
                slot(after, b, i) ==> if b == bucket && i >= index {
                    slot(chains, b, i + 1) && after[b][i] == chains[b][i + 1]
                } else {
                    slot(chains, b, i) && after[b][i] == chains[b][i]
                }
            &&& forall|b: int, i: int|
                #![trigger chains[b][i]]
                slot(chains, b, i) && !(b == bucket && i == index) ==> if b == bucket && i
                    > index {
                    slot(after, b, i - 1) && after[b][i - 1] == chains[b][i]
                } else {
                    slot(after, b, i) && after[b][i] == chains[b][i]
                }
        }),
{
}

/// The node that stands in a slot of the shorter chains stood in a slot before.
spec fn old_slot(bucket: int, index: int, b: int, i: int) -> int {
    if b == bucket && i >= index {
        i + 1
    } else {
        i
    }
}

/// What follows in a chain that has lost a node.
proof fn lemma_after_removed(chain: Seq<u64>, index: int)
    requires
        0 <= index < chain.len(),
    ensures
        first_of(chain.remove(index)) == (if index == 0 {
            after_in(chain, 0)
        } else {
            first_of(chain)
        }),
        forall|i: int|
            #![trigger after_in(chain.remove(index), i)]
            0 <= i < chain.len() - 1 ==> after_in(chain.remove(index), i) == (if i + 1 == index {
                after_in(chain, index)
            } else if i >= index {
                after_in(chain, i + 1)
            } else {
                after_in(chain, i)
            }),
{
    reveal(after_in);
}

/// Taking a node out of its chain keeps every chained node but for the next-node
/// offset of the one in front of it.
proof fn lemma_unlinked_nodes(
    before: Storage,
    chains: Seq<Seq<u64>>,
    nodes: Set<int>,
    blobs: Map<int, int>,
    bucket: int,
    index: int,
)
    requires
        before.holds(chains, nodes, blobs),
        slot(chains, bucket, index),
    ensures
        ({
            let data = unlinked(before, chains, bucket, index).body.data;
            forall|b: int, i: int|
                #![trigger chains[b][i]]
                slot(chains, b, i) ==> same_node(before.body.data, data, chains[b][i] as int)
                    && node_defect(before.body.capacity(), data, chains[b][i] as int) is None
                    && next_at(data, chains[b][i] as int) == (if index > 0 && b == bucket && i
                    == index - 1 {
                    after_in(chains[bucket], index)
                } else {
                    after_in(chains[b], i)
                })
        }),
        unlinked(before, chains, bucket, index).body.data.len() == before.body.data.len(),
{
    let after = unlinked(before, chains, bucket, index);
    let (old_data, data) = (before.body.data, after.body.data);
    let next = after_in(chains[bucket], index);
    let capacity = before.body.capacity();
    assert(linked(before.body, before.heads[bucket], chains[bucket]));
    assert(next < NODE_POINTER_LIMIT) by {
        assert(next_at(old_data, chains[bucket][index] as int) == next);
    }
    assert forall|b: int, i: int|
        #![trigger chains[b][i]]
        slot(chains, b, i) implies same_node(old_data, data, chains[b][i] as int) && node_defect(
        capacity,
        data,
        chains[b][i] as int,
    ) is None && next_at(data, chains[b][i] as int) == (if index > 0 && b == bucket && i == index
        - 1 {
        next
    } else {
        after_in(chains[b], i)
    }) by {
        assert(linked(before.body, before.heads[b], chains[b]));
        let o = chains[b][i] as int;
        assert(node_defect(capacity, old_data, o) is None);
        if index > 0 {
            let p = chains[bucket][index - 1] as int;
            assert(slot(chains, bucket, index - 1));
            assert(node_defect(capacity, old_data, p) is None);
            lemma_with_next(capacity, old_data, p, next);
            if o != p {
                assert(same_node(old_data, data, o));
            }
        }
        lemma_same_node(capacity, old_data, data, o);
    }
}

/// The shorter chains are linked.
proof fn lemma_unlinked_chains(
    before: Storage,
    chains: Seq<Seq<u64>>,
    nodes: Set<int>,
    blobs: Map<int, int>,
    bucket: int,
    index: int,
)
    requires
        before.holds(chains, nodes, blobs),
        slot(chains, bucket, index),
    ensures
        unlinked(before, chains, bucket, index).chains_hold(
            chains.update(bucket, chains[bucket].remove(index)),
        ),
{
    let after = unlinked(before, chains, bucket, index);
    let shorter = chains.update(bucket, chains[bucket].remove(index));
    let data = after.body.data;
    lemma_unlinked_nodes(before, chains, nodes, blobs, bucket, index);
    lemma_after_removed(chains[bucket], index);
    assert forall|b: int|
        #![trigger shorter[b]]
        0 <= b < shorter.len() implies linked(after.body, after.heads[b], shorter[b]) by {
        assert(linked(before.body, before.heads[b], chains[b]));
        assert forall|i: int|
            #![trigger shorter[b][i]]
            0 <= i < shorter[b].len() implies node_defect(
            after.body.capacity(),
            data,
            shorter[b][i] as int,
        ) is None && next_at(data, shorter[b][i] as int) == after_in(shorter[b], i) by {
            let k = old_slot(bucket, index, b, i);
            assert(slot(chains, b, k) && shorter[b][i] == chains[b][k]);
        }
    }
    assert forall|b: int, i: int|
        #![trigger shorter[b][i]]
        slot(shorter, b, i) implies after.valid_word(value_at(data, shorter[b][i] as int))
        && bucket_of(after.config, key_at(data, shorter[b][i] as int)) == b by {
        let k = old_slot(bucket, index, b, i);
        assert(slot(chains, b, k) && shorter[b][i] == chains[b][k]);
    }
}

/// No node of the shorter chains is set apart.
proof fn lemma_unlinked_apart(
    before: Storage,
    chains: Seq<Seq<u64>>,
    nodes: Set<int>,
    blobs: Map<int, int>,
    bucket: int,
    index: int,
)
    requires
        before.holds(chains, nodes, blobs),
        slot(chains, bucket, index),
    ensures
        unlinked(before, chains, bucket, index).apart(
            chains.update(bucket, chains[bucket].remove(index)),
            nodes.insert(chains[bucket][index] as int),
            with_blob_of(before, blobs, chains[bucket][index] as int),
        ),
{
    let after = unlinked(before, chains, bucket, index);
    let offset = chains[bucket][index] as int;
    let shorter = chains.update(bucket, chains[bucket].remove(index));
    let more_nodes = nodes.insert(offset);
    let more_blobs = with_blob_of(before, blobs, offset);
    let data = after.body.data;
    lemma_unlinked_nodes(before, chains, nodes, blobs, bucket, index);
    assert forall|b: int, i: int|
        #![trigger shorter[b][i]]
        slot(shorter, b, i) implies slot(chains, b, old_slot(bucket, index, b, i))
        && shorter[b][i] == chains[b][old_slot(bucket, index, b, i)] && value_at(
        data,
        shorter[b][i] as int,
    ) == value_at(before.body.data, chains[b][old_slot(bucket, index, b, i)] as int) by {
        assert(same_node(
            before.body.data,
            data,
            chains[b][old_slot(bucket, index, b, i)] as int,
        ));
    }
    assert forall|b: int, i: int|
        #![trigger shorter[b][i]]
        slot(shorter, b, i) implies !more_nodes.contains(shorter[b][i] as int) && (value_at(
        data,
        shorter[b][i] as int,
    ) >= VALUE_BLOB_TAG ==> !more_blobs.dom().contains(
        value_at(data, shorter[b][i] as int) - VALUE_BLOB_TAG,
    )) by {
        let k = old_slot(bucket, index, b, i);
        assert(slot(chains, b, k) && shorter[b][i] == chains[b][k]);
        assert(chains[bucket][index] == offset);
    }
    assert(offset % 32 == 0) by {
        assert(node_defect(before.body.capacity(), data, chains[bucket][index] as int) is None);
    }
}

/// The counts are those of the shorter chains and of what is set apart.
proof fn lemma_unlinked_counted(
    before: Storage,
    chains: Seq<Seq<u64>>,
    nodes: Set<int>,
    blobs: Map<int, int>,
    bucket: int,
    index: int,
)
    requires
        before.holds(chains, nodes, blobs),
        slot(chains, bucket, index),
    ensures
        unlinked(before, chains, bucket, index).counted(
            chains.update(bucket, chains[bucket].remove(index)),
            nodes.insert(chains[bucket][index] as int),
            with_blob_of(before, blobs, chains[bucket][index] as int),
        ),
{
    let after = unlinked(before, chains, bucket, index);
    let offset = chains[bucket][index] as int;
    let shorter = chains.update(bucket, chains[bucket].remove(index));
    let more_nodes = nodes.insert(offset);
    let more_blobs = with_blob_of(before, blobs, offset);
    let (old_data, data) = (before.body.data, after.body.data);
    let removed_word = value_at(old_data, offset);
    lemma_shrunk_slots(chains, bucket, index);
    lemma_unlinked_nodes(before, chains, nodes, blobs, bucket, index);
    assert forall|o: int| (more_nodes.contains(o) || chained(shorter, o)) == (nodes.contains(o)
        || chained(chains, o)) by {
        if chained(shorter, o) {
            let (b, i) = choose|b: int, i: int| slot(shorter, b, i) && #[trigger] shorter[b][i]
                == o;
            let k = old_slot(bucket, index, b, i);
            assert(slot(chains, b, k) && chains[b][k] == o);
        }
        if chained(chains, o) {
            let (b, i) = choose|b: int, i: int| slot(chains, b, i) && #[trigger] chains[b][i] == o;
            if !(b == bucket && i == index) {
                let k = if b == bucket && i > index {
                    i - 1
                } else {
                    i
                };
                assert(slot(shorter, b, k) && shorter[b][k] == o);
            }
        }
        if o == offset {
            assert(slot(chains, bucket, index) && chains[bucket][index] == o);
        }
    }
    assert(after.live_nodes(shorter, more_nodes) =~= before.live_nodes(chains, nodes));
    assert forall|o: int| #![auto]
        (more_blobs.dom().contains(o) || after.referred(shorter, o)) == (blobs.dom().contains(o)
        || before.referred(chains, o)) by {
        if after.referred(shorter, o) {
            let (b, i) = choose|b: int, i: int|
                slot(shorter, b, i) && value_at(data, #[trigger] shorter[b][i] as int)
                    == VALUE_BLOB_TAG + o;
            let k = old_slot(bucket, index, b, i);
            assert(slot(chains, b, k) && shorter[b][i] == chains[b][k]);
            assert(same_node(old_data, data, chains[b][k] as int));
        }
        if before.referred(chains, o) {
            let (b, i) = choose|b: int, i: int|
                slot(chains, b, i) && value_at(old_data, #[trigger] chains[b][i] as int)
                    == VALUE_BLOB_TAG + o;
            assert(same_node(old_data, data, chains[b][i] as int));
            if !(b == bucket && i == index) {
                let k = if b == bucket && i > index {
                    i - 1
                } else {
                    i
                };
                assert(slot(shorter, b, k) && shorter[b][k] == chains[b][i]);
            }
        }
        if removed_word == VALUE_BLOB_TAG + o {
            assert(slot(chains, bucket, index) && value_at(
                old_data,
                chains[bucket][index] as int,
            ) == VALUE_BLOB_TAG + o);
        }
    }
    assert(removed_word >= VALUE_BLOB_TAG ==> !blobs.dom().contains(
        removed_word - VALUE_BLOB_TAG,
    )) by {
        assert(chains[bucket][index] == offset);
    }
    assert(after.live_blobs(shorter, more_blobs) =~= before.live_blobs(chains, blobs));
    if before.blobs is None {
        assert(chains[bucket][index] == offset);
        assert(before.valid_word(removed_word));
        assert(more_blobs.dom() =~= Set::empty());
    }
}

/// A node taken out of its chain: the bucket has lost its entry, and the node and
/// its blob are set apart.
pub proof fn lemma_unlinked(
    before: Storage,
    chains: Seq<Seq<u64>>,
    nodes: Set<int>,
    blobs: Map<int, int>,
    bucket: int,
    index: int,
)
    requires
        before.holds(chains, nodes, blobs),
        slot(chains, bucket, index),
    ensures
        ({
            let after = unlinked(before, chains, bucket, index);
            let offset = chains[bucket][index] as int;
            let shorter = chains.update(bucket, chains[bucket].remove(index));
            &&& after.holds(shorter, nodes.insert(offset), with_blob_of(before, blobs, offset))
            &&& after.entries(shorter) == before.entries(chains).update(
                bucket,
                before.entries(chains)[bucket].remove(index),
            )
        }),
{
    let after = unlinked(before, chains, bucket, index);
    let shorter = chains.update(bucket, chains[bucket].remove(index));
    lemma_unlinked_chains(before, chains, nodes, blobs, bucket, index);
    lemma_unlinked_apart(before, chains, nodes, blobs, bucket, index);
    lemma_unlinked_counted(before, chains, nodes, blobs, bucket, index);
    lemma_unlinked_nodes(before, chains, nodes, blobs, bucket, index);
    let expected = before.entries(chains).update(
        bucket,
        before.entries(chains)[bucket].remove(index),
    );
    assert forall|b: int| 0 <= b < shorter.len() implies #[trigger] after.entries(shorter)[b]
        == expected[b] by {
        assert forall|i: int| 0 <= i < shorter[b].len() implies after.entries_of(shorter[b])[i]
            == #[trigger] expected[b][i] by {
            let k = old_slot(bucket, index, b, i);
            assert(slot(chains, b, k) && shorter[b][i] == chains[b][k]);
            assert(same_node(before.body.data, after.body.data, chains[b][k] as int));
        }
        assert(after.entries_of(shorter[b]) =~= expected[b]);
    }
    assert(after.entries(shorter) =~= expected);
}

/// A live allocation can be released, and lies inside the data file.
pub proof fn lemma_releasable(files: Files, live: Map<int, int>, offset: int)
    requires
        files.wf(),
        accounts(files.pages, live),
        live.dom().contains(offset),
        live[offset] <= u32::MAX,
    ensures
        ({
            let pages = files.pages;
            let allocation = Allocation {
                offset: offset as u64,
                length: live[offset] as u32,
                block: pages.page_of(offset) as u64,
            };
            &&& DATA_START <= offset <= u64::MAX - 0x1_0000_0000
            &&& 0 < live[offset]
            &&& 0 <= pages.page_of(offset) < pages.high_water
            &&& offset + live[offset] <= files.data.len()
            &&& extent_defect(pages, offset, live[offset]) is None
            &&& release_defect(pages, allocation) is None
        }),
{
    let pages = files.pages;
    let length = live[offset];
    let block = pages.page_of(offset);
    assert(placed(pages, offset, length));
    lemma_placed_within(pages, offset);
    lemma_page_of(pages, block, offset - pages.page_start(block));
    lemma_page_of(pages, block, offset + length - 1 - pages.page_start(block));
    law_release_keeps_accounts(pages, live, offset);
    vstd::arithmetic::mul::lemma_mul_inequality(block + 1, pages.high_water, pages.block_size);
    vstd::arithmetic::mul::lemma_mul_inequality(
        pages.high_water,
        pages.block_count,
        pages.block_size,
    );
    vstd::arithmetic::mul::lemma_mul_is_distributive_add_other_way(pages.block_size, block, 1);
    lemma_entries(pages.high_water);
}

/// Whether `offset` is one of `count` offsets from `first` on, `stride` apart.
pub open spec fn in_batch(first: int, stride: int, count: int, offset: int) -> bool {
    exists|i: int| 0 <= i < count && offset == #[trigger] (first + i * stride)
}

/// The offsets of a batch.
pub open spec fn batch_offsets(batch: AllocationBatch) -> Set<int> {
    Set::new(
        |offset: int|
            in_batch(batch.offset as int, batch.stride as int, batch.count as int, offset),
    )
}

/// The live allocations after a batch are those before it and those of the batch.
pub proof fn lemma_with_batch(
    live: Map<int, int>,
    first: int,
    stride: int,
    length: int,
    count: int,
)
    ensures
        forall|offset: int|
            #![trigger with_batch(live, first, stride, length, count).dom().contains(offset)]
            with_batch(live, first, stride, length, count).dom().contains(offset)
                <==> live.dom().contains(offset) || in_batch(first, stride, count, offset),
        forall|offset: int|
            #![trigger with_batch(live, first, stride, length, count)[offset]]
            with_batch(live, first, stride, length, count).dom().contains(offset)
                ==> with_batch(live, first, stride, length, count)[offset] == (if in_batch(
                first,
                stride,
                count,
                offset,
            ) {
                length
            } else {
                live[offset]
            }),
    decreases count,
{
    if count > 0 {
        lemma_with_batch(live, first, stride, length, count - 1);
        let last = first + (count - 1) * stride;
        assert forall|offset: int|
            #![trigger in_batch(first, stride, count, offset)]
            #![trigger in_batch(first, stride, count - 1, offset)]
            in_batch(first, stride, count, offset) == (offset == last || in_batch(
                first,
                stride,
                count - 1,
                offset,
            )) by {
            if in_batch(first, stride, count, offset) {
                let i = choose|i: int| 0 <= i < count && offset == #[trigger] (first + i * stride);
                if i < count - 1 {
                    assert(offset == first + i * stride);
                }
            }
            if in_batch(first, stride, count - 1, offset) {
                let i = choose|i: int|
                    0 <= i < count - 1 && offset == #[trigger] (first + i * stride);
                assert(offset == first + i * stride);
            }
        }
        let most = with_batch(live, first, stride, length, count - 1);
        let all = with_batch(live, first, stride, length, count);
        assert(all == most.insert(last, length));
        assert forall|offset: int|
            #![trigger all.dom().contains(offset)]
            (all.dom().contains(offset) <==> live.dom().contains(offset) || in_batch(
                first,
                stride,
                count,
                offset,
            )) && (all.dom().contains(offset) ==> all[offset] == (if in_batch(
                first,
                stride,
                count,
                offset,
            ) {
                length
            } else {
                live[offset]
            })) by {
            assert(most.dom().contains(offset) <==> live.dom().contains(offset) || in_batch(
                first,
                stride,
                count - 1,
                offset,
            ));
            assert(in_batch(first, stride, count, offset) == (offset == last || in_batch(
                first,
                stride,
                count - 1,
                offset,
            )));
        }
    } else {
        assert forall|offset: int| !#[trigger] in_batch(first, stride, count, offset) by {}
    }
}

/// The nodes that a request takes are set apart; a failed request changes nothing
/// of what is held.
pub proof fn lemma_nodes_taken(
    before: Storage,
    chains: Seq<Seq<u64>>,
    nodes: Set<int>,
    blobs: Map<int, int>,
    maximum: int,
)
    requires
        before.holds(chains, nodes, blobs),
        0 <= maximum,
    ensures
        ({
            let result = batch_outcome(
                before.body.pages,
                NODE_SIZE as int,
                NODE_ALIGNMENT as int,
                maximum,
            ).1;
            let body = after_request(
                before.body,
                NODE_SIZE as int,
                NODE_ALIGNMENT as int,
                maximum,
            );
            let after = Storage { body, ..before };
            let more = match result {
                Ok(batch) => nodes.union(batch_offsets(batch)),
                Err(_) => nodes,
            };
            &&& after.holds(chains, more, blobs)
            &&& after.entries(chains) == before.entries(chains)
            &&& result matches Ok(batch) ==> {
                &&& batch.length == NODE_SIZE
                &&& forall|i: int|
                    #![trigger batch.spec_nth(i)]
                    0 <= i < batch.count ==> {
                        let offset = batch.spec_nth(i).offset as int;
                        &&& offset == batch.offset + i * batch.stride
                        &&& !nodes.contains(offset)
                        &&& !chained(chains, offset)
                        &&& more.contains(offset)
                        &&& DATA_START <= offset
                        &&& offset + NODE_SIZE <= after.body.data.len()
                    }
            }
        }),
{
    let (length, alignment) = (NODE_SIZE as int, NODE_ALIGNMENT as int);
    let pages = before.body.pages;
    let (after_pages, result) = batch_outcome(pages, length, alignment, maximum);
    let body = after_request(before.body, NODE_SIZE as int, NODE_ALIGNMENT as int, maximum);
    let live = before.live_nodes(chains, nodes);
    law_allocations_apart(pages, live, length, alignment, maximum);
    lemma_outcome_pages(pages, length, alignment, maximum);
    lemma_files_extended(before.body, after_pages);
    match result {
        Ok(batch) => {
            let (first, stride, count) = (
                batch.offset as int,
                batch.stride as int,
                batch.count as int,
            );
            let more = nodes.union(batch_offsets(batch));
            lemma_with_batch(live, first, stride, length, count);
            assert(with_batch(live, first, stride, length, count) =~= before.live_nodes(
                chains,
                more,
            ));
            assert forall|i: int|
                #![trigger batch.spec_nth(i)]
                0 <= i < batch.count implies {
                let offset = batch.spec_nth(i).offset as int;
                &&& offset == batch.offset + i * batch.stride
                &&& !nodes.contains(offset)
                &&& !chained(chains, offset)
                &&& more.contains(offset)
                &&& DATA_START <= offset
                &&& offset % 32 == 0
                &&& offset + NODE_SIZE <= body.data.len()
            } by {
                lemma_batch_extent(pages, length, alignment, maximum, i);
                assert(!live.dom().contains(batch.offset + i * batch.stride));
            }
            assert forall|offset: int| #[trigger]
                more.contains(offset) implies offset % 32 == 0 by {
                if !nodes.contains(offset) {
                    let i = choose|i: int|
                        0 <= i < count && offset == #[trigger] (first + i * stride);
                    assert(batch.spec_nth(i).offset == offset);
                }
            }
            assert forall|b: int, i: int|
                #![trigger chains[b][i]]
                slot(chains, b, i) implies !more.contains(chains[b][i] as int) by {
                let offset = chains[b][i] as int;
                if batch_offsets(batch).contains(offset) {
                    let k = choose|k: int|
                        0 <= k < count && offset == #[trigger] (first + k * stride);
                    assert(!live.dom().contains(first + k * stride));
                    assert(chained(chains, offset));
                }
            }
            if batch.count > 0 {
                lemma_batch_extent(pages, length, alignment, maximum, 0);
            } else {
                lemma_batch_not_empty(pages, length, alignment, maximum);
            }
            lemma_chained_bytes(before, chains, nodes, blobs, body);
            lemma_body_changed(before, body, chains, nodes, more, blobs);
        },
        Err(_) => {
            lemma_chained_bytes(before, chains, nodes, blobs, body);
            lemma_body_changed(before, body, chains, nodes, nodes, blobs);
        },
    }
}

/// Chained nodes lie inside the data file, where growth changes no byte.
proof fn lemma_chained_bytes(
    before: Storage,
    chains: Seq<Seq<u64>>,
    nodes: Set<int>,
    blobs: Map<int, int>,
    body: Files,
)
    requires
        before.holds(chains, nodes, blobs),
        forall|k: int| 0 <= k < before.body.data.len() ==> body.data[k] == before.body.data[k],
    ensures
        forall|b: int, i: int, k: int|
            #![trigger chains[b][i], body.data[k]]
            slot(chains, b, i) && chains[b][i] <= k < chains[b][i] + NODE_SIZE ==> body.data[k]
                == before.body.data[k],
{
    assert forall|b: int, i: int, k: int|
        #![trigger chains[b][i], body.data[k]]
        slot(chains, b, i) && chains[b][i] <= k < chains[b][i] + NODE_SIZE implies body.data[k]
        == before.body.data[k] by {
        assert(linked(before.body, before.heads[b], chains[b]));
        assert(node_defect(before.body.capacity(), before.body.data, chains[b][i] as int) is None);
    }
}

/// Files that were extended for more pages are valid.
pub proof fn lemma_files_extended(files: Files, pages: Pages)
    requires
        files.wf(),
        pages.wf(),
        pages.block_size == files.pages.block_size,
        pages.block_count == files.pages.block_count,
        files.pages.high_water <= pages.high_water,
    ensures
        (Files {
            data: at_least(files.data, data_length(pages.high_water, pages.block_size)),
            pages,
        }).wf(),
        files.data.len() <= at_least(
            files.data,
            data_length(pages.high_water, pages.block_size),
        ).len(),
{
    vstd::arithmetic::mul::lemma_mul_inequality(
        pages.high_water,
        pages.block_count,
        pages.block_size,
    );
    vstd::arithmetic::mul::lemma_mul_nonnegative(pages.high_water, pages.block_size);
}

/// A node written into a range reads back, and no other node changes.
pub proof fn lemma_node_bytes(
    capacity: int,
    data: Seq<u8>,
    offset: int,
    key: Seq<u8>,
    value: u64,
)
    requires
        key.len() == 16,
        offset % 32 == 0,
        DATA_START <= offset,
        offset + NODE_SIZE <= data.len(),
        data.len() <= DATA_START + capacity,
        data.len() <= u64::MAX,
    ensures
        ({
            let after = patched(data, offset, node_bytes(key, value, 0));
            &&& node_bytes(key, value, 0).len() == NODE_SIZE
            &&& node_defect(capacity, after, offset) is None
            &&& key_at(after, offset) == key
            &&& value_at(after, offset) == value
            &&& next_at(after, offset) == 0
            &&& forall|other: int|
                #![trigger node_defect(capacity, data, other)]
                other != offset && node_defect(capacity, data, other) is None ==> same_node(
                    data,
                    after,
                    other,
                ) && next_at(after, other) == next_at(data, other)
        }),
{
    let bytes = node_bytes(key, value, 0);
    let after = patched(data, offset, bytes);
    let word = (node_checksum_of(key, value) * NODE_POINTER_LIMIT) as u64;
    lemma_le_fields();
    lemma_same_fields(after, offset + NODE_VALUE_OFFSET, le64_bytes(value), 0, 8);
    lemma_same_fields(after, offset + NODE_POINTER_OFFSET, le64_bytes(word), 0, 8);
    assert(key_at(after, offset) =~= key);
    assert forall|other: int|
        #![trigger node_defect(capacity, data, other)]
        other != offset && node_defect(capacity, data, other) is None implies same_node(
        data,
        after,
        other,
    ) && next_at(after, other) == next_at(data, other) by {
        lemma_nodes_apart(capacity, data, other, offset);
        lemma_node_bytes_kept(data, after, other);
    }
}

/// Writing into a node that is set apart keeps what is held.
pub proof fn lemma_private_written(
    before: Storage,
    chains: Seq<Seq<u64>>,
    nodes: Set<int>,
    blobs: Map<int, int>,
    node: int,
    at: int,
    bytes: Seq<u8>,
)
    requires
        before.holds(chains, nodes, blobs),
        nodes.contains(node),
        node <= at,
        at + bytes.len() <= node + NODE_SIZE,
    ensures
        ({
            let body = Files { data: patched(before.body.data, at, bytes), ..before.body };
            let after = Storage { body, ..before };
            &&& after.holds(chains, nodes, blobs)
            &&& after.entries(chains) == before.entries(chains)
        }),
{
    let body = Files { data: patched(before.body.data, at, bytes), ..before.body };
    assert forall|b: int, i: int, k: int|
        #![trigger chains[b][i], body.data[k]]
        slot(chains, b, i) && chains[b][i] <= k < chains[b][i] + NODE_SIZE implies body.data[k]
        == before.body.data[k] by {
        assert(linked(before.body, before.heads[b], chains[b]));
        assert(!nodes.contains(chains[b][i] as int));
        lemma_nodes_apart(
            before.body.capacity(),
            before.body.data,
            chains[b][i] as int,
            node,
        );
    }
    lemma_body_changed(before, body, chains, nodes, nodes, blobs);
}

/// A node that is set apart lies inside the body, aligned, and can be released.
pub proof fn lemma_private_node(
    before: Storage,
    chains: Seq<Seq<u64>>,
    nodes: Set<int>,
    blobs: Map<int, int>,
    node: int,
)
    requires
        before.holds(chains, nodes, blobs),
        nodes.contains(node) || chained(chains, node),
    ensures
        ({
            let pages = before.body.pages;
            let allocation = Allocation {
                offset: node as u64,
                length: NODE_SIZE as u32,
                block: pages.page_of(node) as u64,
            };
            &&& node % 32 == 0
            &&& DATA_START <= node <= u64::MAX - 0x1_0000_0000
            &&& node + NODE_SIZE <= before.body.data.len()
            &&& node + NODE_SIZE <= DATA_START + before.body.capacity()
            &&& 0 <= pages.page_of(node) < pages.high_water
            &&& extent_defect(pages, node, NODE_SIZE as int) is None
            &&& release_defect(pages, allocation) is None
            &&& word_access_defect(
                before.body.capacity(),
                before.body.data.len() as int,
                node + NODE_POINTER_OFFSET,
            ) is None
        }),
{
    let live = before.live_nodes(chains, nodes);
    assert(live.dom().contains(node));
    lemma_releasable(before.body, live, node);
    if !nodes.contains(node) {
        let (b, i) = choose|b: int, i: int| slot(chains, b, i) && #[trigger] chains[b][i] == node;
        assert(linked(before.body, before.heads[b], chains[b]));
        assert(node_defect(before.body.capacity(), before.body.data, chains[b][i] as int) is None);
    }
}

/// A node that is set apart released: it is gone, and nothing else.
pub proof fn lemma_node_released(
    before: Storage,
    chains: Seq<Seq<u64>>,
    nodes: Set<int>,
    blobs: Map<int, int>,
    node: int,
)
    requires
        before.holds(chains, nodes, blobs),
        nodes.contains(node),
    ensures
        ({
            let pages = before.body.pages.released(before.body.pages.page_of(node));
            let after = Storage { body: Files { pages, ..before.body }, ..before };
            &&& after.holds(chains, nodes.remove(node), blobs)
            &&& after.entries(chains) == before.entries(chains)
        }),
{
    let pages = before.body.pages.released(before.body.pages.page_of(node));
    let body = Files { pages, ..before.body };
    let live = before.live_nodes(chains, nodes);
    assert(live.dom().contains(node));
    law_release_keeps_accounts(before.body.pages, live, node);
    assert forall|o: int| chained(chains, o) implies o != node by {
        let (b, i) = choose|b: int, i: int| slot(chains, b, i) && #[trigger] chains[b][i] == o;
        assert(!nodes.contains(chains[b][i] as int));
    }
    assert(live.remove(node) =~= before.live_nodes(chains, nodes.remove(node)));
    lemma_body_changed(before, body, chains, nodes, nodes.remove(node), blobs);
}

/// A blob that is set apart can be released.
pub proof fn lemma_blob_releasable(
    before: Storage,
    chains: Seq<Seq<u64>>,
    nodes: Set<int>,
    blobs: Map<int, int>,
    blob: int,
)
    requires
        before.holds(chains, nodes, blobs),
        before.config.mode == Mode::KeyMap,
        blobs.dom().contains(blob) || before.referred(chains, blob),
        before.live_blobs(chains, blobs)[blob] <= u32::MAX,
    ensures
        ({
            let pages = before.blobs->0.pages;
            let length = before.live_blobs(chains, blobs)[blob];
            let allocation = Allocation {
                offset: blob as u64,
                length: length as u32,
                block: pages.page_of(blob) as u64,
            };
            &&& DATA_START <= blob <= u64::MAX - 0x1_0000_0000
            &&& 0 < length
            &&& blob + length <= before.blobs->0.data.len()
            &&& 0 <= pages.page_of(blob) < pages.high_water
            &&& extent_defect(pages, blob, length) is None
            &&& release_defect(pages, allocation) is None
        }),
{
    let live = before.live_blobs(chains, blobs);
    assert(live.dom().contains(blob));
    lemma_releasable(before.blobs->0, live, blob);
}

/// A blob that is set apart released: it is gone, and nothing else.
pub proof fn lemma_blob_released(
    before: Storage,
    chains: Seq<Seq<u64>>,
    nodes: Set<int>,
    blobs: Map<int, int>,
    blob: int,
)
    requires
        before.holds(chains, nodes, blobs),
        before.config.mode == Mode::KeyMap,
        blobs.dom().contains(blob),
    ensures
        ({
            let files = before.blobs->0;
            let pages = files.pages.released(files.pages.page_of(blob));
            let after = Storage { blobs: Some(Files { pages, ..files }), ..before };
            &&& after.holds(chains, nodes, blobs.remove(blob))
            &&& after.entries(chains) == before.entries(chains)
        }),
{
    let files = before.blobs->0;
    let pages = files.pages.released(files.pages.page_of(blob));
    let live = before.live_blobs(chains, blobs);
    assert(live.dom().contains(blob));
    law_release_keeps_accounts(files.pages, live, blob);
    assert forall|o: int| #[trigger] before.referred(chains, o) implies o != blob
        && !blobs.dom().contains(o) by {
        let (b, i) = choose|b: int, i: int|
            slot(chains, b, i) && value_at(before.body.data, #[trigger] chains[b][i] as int)
                == VALUE_BLOB_TAG + o;
        assert(!blobs.dom().contains(
            value_at(before.body.data, chains[b][i] as int) - VALUE_BLOB_TAG,
        ));
    }
    assert(live.remove(blob) =~= before.live_blobs(chains, blobs.remove(blob)));
    lemma_blobs_changed(
        before,
        Files { pages, ..files },
        chains,
        nodes,
        blobs,
        blobs.remove(blob),
    );
}

/// A request for a blob sets the range apart that it takes; a failed one changes
/// nothing of what is held.
pub proof fn lemma_blob_taken(
    before: Storage,
    chains: Seq<Seq<u64>>,
    nodes: Set<int>,
    blobs: Map<int, int>,
    length: int,
)
    requires
        before.holds(chains, nodes, blobs),
        before.config.mode == Mode::KeyMap,
        0 <= length,
    ensures
        ({
            let result = batch_outcome(before.blobs->0.pages, length, 8, 1).1;
            let files = after_request(before.blobs->0, length, 8, 1);
            let after = Storage { blobs: Some(files), ..before };
            let offset = (result->Ok_0).spec_nth(0).offset as int;
            let more = match result {
                Ok(batch) => blobs.insert(offset, length),
                Err(_) => blobs,
            };
            &&& after.holds(chains, nodes, more)
            &&& after.entries(chains) == before.entries(chains)
            &&& result matches Ok(batch) ==> {
                &&& batch.spec_nth(0).length == length
                &&& 0 < length <= u32::MAX
                &&& !blobs.dom().contains(offset)
                &&& !before.referred(chains, offset)
                &&& DATA_START <= offset
                &&& offset + length <= files.data.len()
                &&& files.pages.page_of(offset) == batch.block
                &&& extent_defect(files.pages, offset, length) is None
            }
        }),
{
    let files = before.blobs->0;
    let pages = files.pages;
    let (after_pages, result) = batch_outcome(pages, length, 8, 1);
    let extended = after_request(files, length, 8, 1);
    let live = before.live_blobs(chains, blobs);
    law_allocations_apart(pages, live, length, 8, 1);
    lemma_outcome_pages(pages, length, 8, 1);
    lemma_files_extended(files, after_pages);
    assert forall|offset: int, k: int|
        #![trigger before.referred(chains, offset), extended.data[k]]
        before.referred(chains, offset) && offset <= k < offset + blob_extent(
            files,
            offset,
        ) implies extended.data[k] == files.data[k] by {
        lemma_referred_valid(before, chains, offset);
    }
    match result {
        Ok(batch) => {
            lemma_batch_not_empty(pages, length, 8, 1);
            lemma_batch_extent(pages, length, 8, 1, 0);
            let offset = batch.spec_nth(0).offset as int;
            assert(batch.offset + 0 * batch.stride == offset);
            let more = blobs.insert(offset, length);
            reveal_with_fuel(with_batch, 2);
            assert(with_batch(live, batch.offset as int, batch.stride as int, length, 1)
                =~= live.insert(offset, length));
            assert(!live.dom().contains(batch.offset + 0 * batch.stride));
            assert(live.insert(offset, length) =~= before.live_blobs(chains, more));
            assert forall|o: int| #[trigger]
                before.referred(chains, o) implies !more.dom().contains(
                o,
            ) by {
                lemma_referred_apart(before, chains, nodes, blobs, o);
            }
            lemma_blobs_changed(before, extended, chains, nodes, blobs, more);
        },
        Err(_) => {
            assert forall|o: int| #[trigger]
                before.referred(chains, o) implies !blobs.dom().contains(
                o,
            ) by {
                lemma_referred_apart(before, chains, nodes, blobs, o);
            }
            lemma_blobs_changed(before, extended, chains, nodes, blobs, blobs);
        },
    }
}

/// A blob that a chained node refers to is not set apart.
pub proof fn lemma_referred_apart(
    before: Storage,
    chains: Seq<Seq<u64>>,
    nodes: Set<int>,
    blobs: Map<int, int>,
    offset: int,
)
    requires
        before.apart(chains, nodes, blobs),
        before.referred(chains, offset),
    ensures
        !blobs.dom().contains(offset),
{
    let (b, i) = choose|b: int, i: int|
        slot(chains, b, i) && value_at(before.body.data, #[trigger] chains[b][i] as int)
            == VALUE_BLOB_TAG + offset;
    assert(!blobs.dom().contains(
        value_at(before.body.data, chains[b][i] as int) - VALUE_BLOB_TAG,
    ));
}

/// A blob that a chained node refers to is valid.
pub proof fn lemma_referred_valid(before: Storage, chains: Seq<Seq<u64>>, offset: int)
    requires
        before.chains_hold(chains),
        before.referred(chains, offset),
    ensures
        before.config.mode == Mode::KeyMap,
        valid_blob(before.blobs->0, offset),
{
    let (b, i) = choose|b: int, i: int|
        slot(chains, b, i) && value_at(before.body.data, #[trigger] chains[b][i] as int)
            == VALUE_BLOB_TAG + offset;
    assert(before.valid_word(value_at(before.body.data, chains[b][i] as int)));
}

/// Header and value written into a blob that is set apart: the blob is valid and
/// holds the value.
pub proof fn lemma_blob_written(
    before: Storage,
    chains: Seq<Seq<u64>>,
    nodes: Set<int>,
    blobs: Map<int, int>,
    offset: int,
    value: Seq<u8>,
)
    requires
        before.holds(chains, nodes, blobs),
        before.config.mode == Mode::KeyMap,
        blobs.dom().contains(offset),
        blobs[offset] == BLOB_HEADER_SIZE + value.len(),
        BLOB_HEADER_SIZE + value.len() <= u32::MAX,
    ensures
        ({
            let files = before.blobs->0;
            let data = patched(
                patched(files.data, offset, blob_header_of(value)),
                offset + BLOB_HEADER_SIZE,
                value,
            );
            let written = Files { data, ..files };
            let after = Storage { blobs: Some(written), ..before };
            &&& blob_header_of(value).len() == BLOB_HEADER_SIZE
            &&& after.holds(chains, nodes, blobs)
            &&& after.entries(chains) == before.entries(chains)
            &&& valid_blob(written, offset)
            &&& blob_value(written, offset) == value
            &&& blob_extent(written, offset) == BLOB_HEADER_SIZE + value.len()
        }),
{
    let files = before.blobs->0;
    let header = blob_header_of(value);
    let first = patched(files.data, offset, header);
    let data = patched(first, offset + BLOB_HEADER_SIZE, value);
    let written = Files { data, ..files };
    let live = before.live_blobs(chains, blobs);
    lemma_le_fields();
    assert(live.dom().contains(offset));
    lemma_releasable(files, live, offset);
    lemma_same_fields(data, offset, le32_bytes(value.len() as u32), 0, 4);
    lemma_same_fields(data, offset + 4, le32_bytes(blob_checksum_of(value)), 0, 4);
    assert(blob_value(written, offset) =~= value);
    assert forall|other: int, k: int|
        #![trigger before.referred(chains, other), written.data[k]]
        before.referred(chains, other) && other <= k < other + blob_extent(
            files,
            other,
        ) implies written.data[k] == files.data[k] by {
        lemma_referred_apart(before, chains, nodes, blobs, other);
        lemma_referred_valid(before, chains, other);
        assert(live.dom().contains(other));
        assert(live[other] == blob_extent(files, other));
    }
    assert forall|o: int| #[trigger]
        before.referred(chains, o) implies !blobs.dom().contains(o) by {
        lemma_referred_apart(before, chains, nodes, blobs, o);
    }
    lemma_blobs_changed(before, written, chains, nodes, blobs, blobs);
}

} // verus!

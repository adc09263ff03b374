//! Removing a batch of keys: each bucket chain is walked once, and the first node
//! of each requested key leaves it.

use vstd::prelude::*;

use crate::allocator::Allocation;
#[allow(unused_imports)]
use crate::allocator::Files;
#[allow(unused_imports)]
use crate::batch::{lemma_open_results, lemma_result_settled, open_results};
use crate::batch::partition_point;
use crate::bytes::same_bytes;
#[allow(unused_imports)]
use crate::bytes::{le64_bytes, lemma_le_fields, patched};
#[allow(unused_imports)]
use crate::config::{Config, Mode};
use crate::error::Error;
use crate::hash::xxh64;
#[allow(unused_imports)]
use crate::hash::digest;
#[allow(unused_imports)]
use crate::layout::{NODE_POINTER_OFFSET, NODE_SIZE, VALUE_BLOB_TAG};
use crate::layout::NODE_SIZE_U64;
use crate::node::read_node;
#[allow(unused_imports)]
use crate::node::{key_at, next_at, node_defect, value_at};
#[allow(unused_imports)]
use crate::outcomes::{
    allocations_of, blob_of, lemma_allocations, lemma_removed, node_allocation, relinked, removed,
};
#[allow(unused_imports)]
use crate::prepared::{key_views, no_later, prepared_for, prepares};
use crate::prepared::Prepared;
use crate::search::Link;
#[allow(unused_imports)]
use crate::search::link_holds;
#[allow(unused_imports)]
use crate::storage::{
    after_in, chained, first_index, is_first, lemma_chain_length, lemma_first_index,
    lemma_no_first_index, lemma_same_node, lemma_with_next, linked, node_limit, slot, Entry,
    Storage,
};
use crate::table::Table;
#[allow(unused_imports)]
use crate::table::before_of;
#[allow(unused_imports)]
use crate::transitions::{lemma_unlinked, unlinked, with_blob_of};

verus! {

/// `entries` without the first entry of each key in `pending`.
pub open spec fn stripped(entries: Seq<Entry>, pending: Set<Seq<u8>>) -> Seq<Entry>
    decreases entries.len(),
{
    if entries.len() == 0 {
        entries
    } else if pending.contains(entries[0].key) {
        stripped(entries.drop_first(), pending.remove(entries[0].key))
    } else {
        seq![entries[0]] + stripped(entries.drop_first(), pending)
    }
}

/// Without a pending key nothing is taken away.
pub proof fn lemma_stripped_none(entries: Seq<Entry>, pending: Set<Seq<u8>>)
    requires
        forall|i: int|
            0 <= i < entries.len() ==> !pending.contains((#[trigger] entries[i]).key),
    ensures
        stripped(entries, pending) == entries,
    decreases entries.len(),
{
    if entries.len() > 0 {
        let rest = entries.drop_first();
        assert forall|i: int| 0 <= i < rest.len() implies !pending.contains(
            (#[trigger] rest[i]).key,
        ) by {
            assert(rest[i] == entries[i + 1]);
        }
        lemma_stripped_none(rest, pending);
        assert(seq![entries[0]] + rest =~= entries);
    }
}

/// Pending keys that no entry has make no difference.
pub proof fn lemma_stripped_same(entries: Seq<Entry>, one: Set<Seq<u8>>, two: Set<Seq<u8>>)
    requires
        forall|i: int|
            0 <= i < entries.len() ==> one.contains((#[trigger] entries[i]).key) == two.contains(
                entries[i].key,
            ),
    ensures
        stripped(entries, one) == stripped(entries, two),
    decreases entries.len(),
{
    if entries.len() > 0 {
        let rest = entries.drop_first();
        let key = entries[0].key;
        assert forall|i: int| 0 <= i < rest.len() implies one.contains((#[trigger] rest[i]).key)
            == two.contains(rest[i].key) by {
            assert(rest[i] == entries[i + 1]);
        }
        if one.contains(key) {
            lemma_stripped_same(rest, one.remove(key), two.remove(key));
        } else {
            lemma_stripped_same(rest, one, two);
        }
    }
}

/// Taking away the first entry of one key is removing the entry at its first index.
pub proof fn lemma_stripped_one(entries: Seq<Entry>, key: Seq<u8>)
    ensures
        stripped(entries, Set::empty().insert(key)) == (match first_index(entries, key) {
            Some(index) => entries.remove(index),
            None => entries,
        }),
    decreases entries.len(),
{
    let pending = Set::<Seq<u8>>::empty().insert(key);
    if entries.len() == 0 {
        lemma_no_first_index(entries, key);
    } else if entries[0].key == key {
        assert(is_first(entries, key, 0));
        lemma_first_index(entries, key, 0);
        lemma_stripped_none(entries.drop_first(), pending.remove(key));
        assert(entries.drop_first() =~= entries.remove(0));
    } else {
        let rest = entries.drop_first();
        lemma_stripped_one(rest, key);
        if let Some(index) = first_index(rest, key) {
            let found = choose|i: int| is_first(rest, key, i);
            assert(is_first(rest, key, found));
            lemma_first_index(rest, key, found);
            assert forall|j: int| 0 <= j < index + 1 implies (#[trigger] entries[j]).key != key by {
                if j > 0 {
                    assert(rest[j - 1] == entries[j]);
                }
            }
            assert(is_first(entries, key, index + 1));
            lemma_first_index(entries, key, index + 1);
            assert(seq![entries[0]] + rest.remove(index) =~= entries.remove(index + 1));
        } else {
            assert forall|j: int| 0 <= j < entries.len() implies (#[trigger] entries[j]).key
                != key by {
                if j > 0 && entries[j].key == key {
                    crate::storage::lemma_has_first_index(rest, key, j - 1);
                }
            }
            lemma_no_first_index(entries, key);
            assert(seq![entries[0]] + rest =~= entries);
        }
    }
}

/// A node that is in no chain, and its blob.
#[derive(Clone, Copy, Debug, PartialEq, Eq, Structural)]
pub struct LooseNode {
    /// The node.
    pub body: Allocation,
    /// The blob of its value.
    pub blob: Option<Allocation>,
}

/// The nodes of a list.
pub open spec fn nodes_of(list: Seq<LooseNode>) -> Set<int>
    decreases list.len(),
{
    if list.len() == 0 {
        Set::empty()
    } else {
        nodes_of(list.drop_last()).insert(list.last().body.offset as int)
    }
}

/// The blobs of a list.
pub open spec fn blobs_of(list: Seq<LooseNode>) -> Map<int, int>
    decreases list.len(),
{
    if list.len() == 0 {
        Map::empty()
    } else {
        crate::outcomes::with_blob(blobs_of(list.drop_last()), list.last().blob)
    }
}

/// Whether the allocations of a list are those of its nodes and blobs, each once.
pub open spec fn detached_from(storage: Storage, list: Seq<LooseNode>) -> bool
    decreases list.len(),
{
    if list.len() == 0 {
        true
    } else {
        let last = list.last();
        &&& detached_from(storage, list.drop_last())
        &&& !nodes_of(list.drop_last()).contains(last.body.offset as int)
        &&& last.body == node_allocation(storage.body, last.body.offset as int)
        &&& last.blob matches Some(blob) ==> {
            &&& storage.blobs is Some
            &&& !blobs_of(list.drop_last()).dom().contains(blob.offset as int)
            &&& blob.block == storage.blobs->0.pages.page_of(blob.offset as int)
        }
    }
}

/// Whether the offsets of the nodes of a list leave room for a node.
pub open spec fn bounded(list: Seq<LooseNode>) -> bool {
    forall|i: int| 0 <= i < list.len() ==> (#[trigger] list[i]).body.offset + NODE_SIZE <= u64::MAX
}

/// A list keeps its meaning where page sizes stay as they were.
pub proof fn lemma_detached_kept(before: Storage, after: Storage, list: Seq<LooseNode>)
    requires
        detached_from(before, list),
        after.body.pages.block_size == before.body.pages.block_size,
        before.blobs is Some ==> after.blobs is Some && after.blobs->0.pages.block_size
            == before.blobs->0.pages.block_size,
    ensures
        detached_from(after, list),
    decreases list.len(),
{
    if list.len() > 0 {
        lemma_detached_kept(before, after, list.drop_last());
    }
}

/// The keys of a group whose results are open.
pub open spec fn pending_keys(
    views: Seq<Seq<u8>>,
    items: Seq<Prepared>,
    results: Seq<Option<u64>>,
    start: int,
    end: int,
) -> Set<Seq<u8>> {
    Set::new(
        |key: Seq<u8>|
            exists|i: int|
                start <= i < end && results[(#[trigger] items[i]).order as int] is None
                    && views[items[i].order as int] == key,
    )
}

/// Whether no key occurs twice in a batch.
pub open spec fn all_distinct(views: Seq<Seq<u8>>) -> bool {
    forall|i: int, j: int|
        #![trigger views[i], views[j]]
        0 <= i < views.len() && 0 <= j < views.len() && views[i] == views[j] ==> i == j
}

/// Settling the result of a key takes it out of the pending keys.
proof fn lemma_pending_settled(
    views: Seq<Seq<u8>>,
    items: Seq<Prepared>,
    results: Seq<Option<u64>>,
    start: int,
    end: int,
    item: int,
    word: u64,
)
    requires
        0 <= start <= item < end <= items.len(),
        all_distinct(views),
        results.len() == views.len(),
        forall|i: int| 0 <= i < items.len() ==> (#[trigger] items[i]).order < views.len(),
    ensures
        pending_keys(
            views,
            items,
            results.update(items[item].order as int, Some(word)),
            start,
            end,
        ) == pending_keys(views, items, results, start, end).remove(
            views[items[item].order as int],
        ),
{
    let order = items[item].order as int;
    let after = results.update(order, Some(word));
    let key = views[order];
    let one = pending_keys(views, items, after, start, end);
    let two = pending_keys(views, items, results, start, end).remove(key);
    assert forall|k: Seq<u8>| one.contains(k) == two.contains(k) by {
        if one.contains(k) {
            let i = choose|i: int|
                start <= i < end && after[(#[trigger] items[i]).order as int] is None
                    && views[items[i].order as int] == k;
            assert(items[i].order != order);
            assert(results[items[i].order as int] is None);
        }
        if two.contains(k) {
            let i = choose|i: int|
                start <= i < end && results[(#[trigger] items[i]).order as int] is None
                    && views[items[i].order as int] == k;
            assert(after[items[i].order as int] is None);
        }
    }
    assert(one =~= two);
}

/// How far a batch removal has come.
#[verifier::ext_equal]
pub struct Removal {
    /// The files.
    pub storage: Storage,
    /// The value words of the keys whose node was taken out.
    pub words: Map<Seq<u8>, u64>,
    /// The nodes that were taken out and not released.
    pub loose: Seq<LooseNode>,
}

/// Taking the node at `offset` out of its chain, behind `before`: where `release_now`
/// is set, it is released with its blob; otherwise it is put on the list.
pub open spec fn detach_outcome(
    storage: Storage,
    loose: Seq<LooseNode>,
    bucket: int,
    before: Option<u64>,
    offset: u64,
    release_now: bool,
) -> (Storage, Seq<LooseNode>, Result<(), Error>) {
    let data = storage.body.data;
    match allocations_of(storage, offset as int, value_at(data, offset as int)) {
        Err(error) => (storage, loose, Err(error)),
        Ok((node, blob)) => {
            let rest = relinked(storage, bucket, before, next_at(data, offset as int));
            if release_now {
                (removed(rest, node, blob), loose, Ok(()))
            } else {
                (rest, loose.push(LooseNode { body: node, blob }), Ok(()))
            }
        },
    }
}

/// The walk along a chain from `current` on, which stands behind `before`, over at
/// most `steps` nodes: the first node of each key in `pending` is taken out.
#[verifier::opaque]
pub open spec fn removal_walk(
    now: Removal,
    bucket: int,
    before: Option<u64>,
    current: u64,
    pending: Set<Seq<u8>>,
    steps: nat,
    release_now: bool,
) -> (Removal, Result<(), Error>)
    decreases steps,
{
    let body = now.storage.body;
    let key = key_at(body.data, current as int);
    let next = next_at(body.data, current as int);
    if current == 0 || pending == Set::<Seq<u8>>::empty() {
        (now, Ok(()))
    } else if steps == 0 {
        (now, Err(Error::Corrupt("body chain contains a cycle")))
    } else if node_defect(body.capacity(), body.data, current as int) is Some {
        (now, Err(node_defect(body.capacity(), body.data, current as int)->0))
    } else if !pending.contains(key) {
        let rest = (steps - 1) as nat;
        removal_walk(now, bucket, Some(current), next, pending, rest, release_now)
    } else {
        let (storage, loose, result) = detach_outcome(
            now.storage,
            now.loose,
            bucket,
            before,
            current,
            release_now,
        );
        match result {
            Err(error) => (now, Err(error)),
            Ok(_) => removal_walk(
                Removal {
                    storage,
                    words: now.words.insert(key, value_at(body.data, current as int)),
                    loose,
                },
                bucket,
                before,
                next,
                pending.remove(key),
                (steps - 1) as nat,
                release_now,
            ),
        }
    }
}

/// A walk ends behind the last node, and where no key is left to take out.
pub proof fn lemma_walk_ended(
    now: Removal,
    bucket: int,
    before: Option<u64>,
    current: u64,
    pending: Set<Seq<u8>>,
    steps: nat,
    release_now: bool,
)
    requires
        current == 0 || (forall|key: Seq<u8>| !#[trigger] pending.contains(key)),
    ensures
        removal_walk(now, bucket, before, current, pending, steps, release_now) == (
            now,
            Ok::<(), Error>(()),
        ),
{
    reveal(removal_walk);
    if current != 0 {
        assert(pending =~= Set::empty());
    }
}

/// A walk fails where there is no node, and where it is too long.
proof fn lemma_walk_failed(
    now: Removal,
    bucket: int,
    before: Option<u64>,
    current: u64,
    pending: Set<Seq<u8>>,
    key: Seq<u8>,
    steps: nat,
    release_now: bool,
)
    requires
        current != 0,
        pending.contains(key),
    ensures
        ({
            let body = now.storage.body;
            let defect = node_defect(body.capacity(), body.data, current as int);
            let outcome = removal_walk(now, bucket, before, current, pending, steps, release_now);
            &&& steps == 0 ==> outcome == (
                now,
                Err::<(), Error>(Error::Corrupt("body chain contains a cycle")),
            )
            &&& steps > 0 && defect is Some ==> outcome == (now, Err::<(), Error>(defect->0))
        }),
{
    reveal(removal_walk);
}

/// A walk goes on behind a node that stays.
proof fn lemma_walk_kept(
    now: Removal,
    bucket: int,
    before: Option<u64>,
    current: u64,
    pending: Set<Seq<u8>>,
    key: Seq<u8>,
    steps: nat,
    release_now: bool,
)
    requires
        current != 0,
        steps > 0,
        pending.contains(key),
        node_defect(now.storage.body.capacity(), now.storage.body.data, current as int) is None,
        !pending.contains(key_at(now.storage.body.data, current as int)),
    ensures
        removal_walk(now, bucket, before, current, pending, steps, release_now) == removal_walk(
            now,
            bucket,
            Some(current),
            next_at(now.storage.body.data, current as int),
            pending,
            (steps - 1) as nat,
            release_now,
        ),
{
    reveal_with_fuel(removal_walk, 2);
}

/// A walk goes on behind a node that leaves.
proof fn lemma_walk_taken(
    now: Removal,
    bucket: int,
    before: Option<u64>,
    current: u64,
    pending: Set<Seq<u8>>,
    steps: nat,
    release_now: bool,
)
    requires
        current != 0,
        steps > 0,
        node_defect(now.storage.body.capacity(), now.storage.body.data, current as int) is None,
        pending.contains(key_at(now.storage.body.data, current as int)),
    ensures
        ({
            let data = now.storage.body.data;
            let key = key_at(data, current as int);
            let outcome = removal_walk(now, bucket, before, current, pending, steps, release_now);
            let (storage, loose, result) = detach_outcome(
                now.storage,
                now.loose,
                bucket,
                before,
                current,
                release_now,
            );
            match result {
                Err(error) => outcome == (now, Err::<(), Error>(error)),
                Ok(_) => outcome == removal_walk(
                    Removal {
                        storage,
                        words: now.words.insert(key, value_at(data, current as int)),
                        loose,
                    },
                    bucket,
                    before,
                    next_at(data, current as int),
                    pending.remove(key),
                    (steps - 1) as nat,
                    release_now,
                ),
            }
        }),
{
    reveal_with_fuel(removal_walk, 2);
}

/// The value words of the keys of a batch that have a result.
pub open spec fn words_of(views: Seq<Seq<u8>>, results: Seq<Option<u64>>) -> Map<Seq<u8>, u64> {
    Map::new(
        |key: Seq<u8>| views.contains(key) && results[views.index_of(key)] is Some,
        |key: Seq<u8>| results[views.index_of(key)]->0,
    )
}

/// Settling the result of a key sets its value word.
proof fn lemma_word_settled(
    views: Seq<Seq<u8>>,
    results: Seq<Option<u64>>,
    order: int,
    word: u64,
)
    requires
        all_distinct(views),
        results.len() == views.len(),
        0 <= order < views.len(),
    ensures
        words_of(views, results.update(order, Some(word))) == words_of(views, results).insert(
            views[order],
            word,
        ),
{
    let after = results.update(order, Some(word));
    let one = words_of(views, after);
    let two = words_of(views, results).insert(views[order], word);
    assert forall|key: Seq<u8>| views.contains(key) implies 0 <= #[trigger] views.index_of(key)
        < views.len() && views[views.index_of(key)] == key by {
        let i = choose|i: int| 0 <= i < views.len() && views[i] == key;
        assert(views[i] == key);
    }
    assert(views.contains(views[order]));
    assert(views.index_of(views[order]) == order);
    assert(one =~= two);
}

/// The link that holds the offset of node `index` of a chain.
pub open spec fn link_at(bucket: u64, chain: Seq<u64>, index: int) -> Link {
    if index == 0 {
        Link::Head(bucket)
    } else {
        Link::Node(chain[index - 1])
    }
}

/// Clearing the pointer word of a node keeps every other node.
proof fn lemma_other_cleared(capacity: int, data: Seq<u8>, node: int, other: int)
    requires
        node_defect(capacity, data, node) is None,
        node_defect(capacity, data, other) is None,
        node != other,
    ensures
        ({
            let after = patched(data, node + NODE_POINTER_OFFSET, le64_bytes(0));
            &&& node_defect(capacity, after, other) is None
            &&& next_at(after, other) == next_at(data, other)
            &&& key_at(after, other) == key_at(data, other)
        }),
{
    lemma_le_fields();
    let after = patched(data, node + NODE_POINTER_OFFSET, le64_bytes(0));
    crate::storage::lemma_nodes_apart(capacity, data, other, node);
    crate::storage::lemma_node_bytes_kept(data, after, other);
    lemma_same_node(capacity, data, after, other);
}

impl Table {
    /// Takes a node out of its chain. Where `release_now` is set, it is released with
    /// its blob; otherwise it is put on the list.
    fn detach_link(
        &mut self,
        bucket: u64,
        link: Link,
        target: &crate::node::Node,
        release_now: bool,
        detached: &mut Vec<LooseNode>,
        chains: Ghost<Seq<Seq<u64>>>,
        index: Ghost<int>,
    ) -> (result: Result<(), Error>)
        requires
            old(self).wf(),
            bucket < old(self).config.bucket_count,
            node_defect(
                old(self).body.capacity(),
                old(self).body.data(),
                target.offset as int,
            ) is None,
            crate::search::reads_as(old(self).body.data(), *target),
            link_holds(
                old(self).body.files(),
                old(self).heads@[bucket as int],
                link,
                target.offset,
            ),
            link matches Link::Node(before) ==> before != target.offset,
        ensures
            final(self).wf(),
            final(self).config == old(self).config,
            (final(self).storage(), final(detached)@, result) == detach_outcome(
                old(self).storage(),
                old(detached)@,
                bucket as int,
                before_of(link),
                target.offset,
                release_now,
            ),
            bounded(old(detached)@) ==> bounded(final(detached)@),
            result is Ok ==> link_holds(
                final(self).body.files(),
                final(self).heads@[bucket as int],
                link,
                target.next,
            ),
            result is Ok ==> (link matches Link::Node(before) ==> key_at(
                final(self).body.data(),
                before as int,
            ) == key_at(old(self).body.data(), before as int)),
            ({
                let before = old(self).storage();
                let after = final(self).storage();
                let list = old(detached)@;
                &&& before.holds(chains@, nodes_of(list), blobs_of(list)) && detached_from(
                    before,
                    list,
                ) && slot(chains@, bucket as int, index@) && chains@[bucket as int][index@]
                    == target.offset && link == link_at(
                    bucket,
                    chains@[bucket as int],
                    index@,
                ) ==> {
                    let shorter = chains@.update(
                        bucket as int,
                        chains@[bucket as int].remove(index@),
                    );
                    &&& result == Ok::<(), Error>(())
                    &&& after.holds(
                        shorter,
                        nodes_of(final(detached)@),
                        blobs_of(final(detached)@),
                    )
                    &&& detached_from(after, final(detached)@)
                    &&& after.entries(shorter) == before.entries(chains@).update(
                        bucket as int,
                        before.entries(chains@)[bucket as int].remove(index@),
                    )
                    &&& !release_now ==> after.blobs == before.blobs
                    &&& release_now ==> final(detached)@ == old(detached)@
                }
            }),
    {
        let ghost before = self.storage();
        let ghost list = detached@;
        let ghost sound = before.holds(chains@, nodes_of(list), blobs_of(list)) && detached_from(
            before,
            list,
        ) && slot(chains@, bucket as int, index@) && chains@[bucket as int][index@]
            == target.offset && link == link_at(bucket, chains@[bucket as int], index@);
        let ghost shorter = chains@.update(bucket as int, chains@[bucket as int].remove(index@));
        let ghost word = value_at(before.body.data, target.offset as int);
        proof {
            crate::table::lemma_node_in_range(*self, target.offset as int);
            if sound {
                lemma_allocations(
                    before,
                    chains@,
                    nodes_of(list),
                    blobs_of(list),
                    bucket as int,
                    index@,
                );
            }
        }
        let (body, blob) = self.node_allocations(target.offset, target.value)?;
        if !self.compare_exchange_link(bucket, link, target.offset, target.next)? {
            return Err(Error::Busy("unique deletion link changed before unlink"));
        }
        let ghost loose = self.storage();
        proof {
            if let Link::Node(ahead) = link {
                lemma_with_next(
                    before.body.capacity(),
                    before.body.data,
                    ahead as int,
                    target.next,
                );
                lemma_same_node(
                    before.body.capacity(),
                    before.body.data,
                    loose.body.data,
                    ahead as int,
                );
                lemma_same_node(
                    before.body.capacity(),
                    before.body.data,
                    loose.body.data,
                    target.offset as int,
                );
            }
            if sound {
                lemma_unlinked(
                    before,
                    chains@,
                    nodes_of(list),
                    blobs_of(list),
                    bucket as int,
                    index@,
                );
                assert(linked(before.body, before.heads[bucket as int], chains@[bucket as int]));
                assert(loose == unlinked(before, chains@, bucket as int, index@));
            }
        }
        if release_now {
            proof {
                if let Link::Node(ahead) = link {
                    lemma_other_cleared(
                        loose.body.capacity(),
                        loose.body.data,
                        target.offset as int,
                        ahead as int,
                    );
                }
                if sound {
                    lemma_release_detached(
                        before,
                        loose,
                        chains@,
                        shorter,
                        list,
                        body,
                        blob,
                        word,
                    );
                }
            }
            return self.release_private(body, blob);
        }
        detached.push(LooseNode { body, blob });
        proof {
            if sound {
                lemma_push_detached(before, loose, chains@, shorter, list, body, blob, word);
                assert(detached@.drop_last() =~= list);
            }
        }
        Ok(())
    }
}

/// What a node that was just taken out adds to what is set apart.
proof fn lemma_detached_blob(
    before: Storage,
    chains: Seq<Seq<u64>>,
    list: Seq<LooseNode>,
    body: Allocation,
    blob: Option<Allocation>,
    word: u64,
)
    requires
        before.holds(chains, nodes_of(list), blobs_of(list)),
        chained(chains, body.offset as int),
        body == node_allocation(before.body, body.offset as int),
        word == value_at(before.body.data, body.offset as int),
        blob == blob_of(before, word),
    ensures
        !nodes_of(list).contains(body.offset as int),
        crate::outcomes::with_blob(blobs_of(list), blob) == with_blob_of(
            before,
            blobs_of(list),
            body.offset as int,
        ),
        blob matches Some(blob) ==> {
            &&& before.config.mode == Mode::KeyMap
            &&& !blobs_of(list).dom().contains(blob.offset as int)
            &&& blob.block == before.blobs->0.pages.page_of(blob.offset as int)
        },
{
    let offset = body.offset as int;
    let (b, i) = choose|b: int, i: int| slot(chains, b, i) && #[trigger] chains[b][i] == offset;
    assert(!nodes_of(list).contains(chains[b][i] as int));
    assert(before.valid_word(value_at(before.body.data, chains[b][i] as int)));
    if word >= VALUE_BLOB_TAG {
        let at = word - VALUE_BLOB_TAG;
        assert(before.referred(chains, at));
        crate::transitions::lemma_referred_apart(
            before,
            chains,
            nodes_of(list),
            blobs_of(list),
            at,
        );
        assert(before.live_blobs(chains, blobs_of(list))[at] == crate::storage::blob_extent(
            before.blobs->0,
            at,
        ));
        crate::transitions::lemma_blob_releasable(
            before,
            chains,
            nodes_of(list),
            blobs_of(list),
            at,
        );
        assert(crate::outcomes::with_blob(blobs_of(list), blob) =~= with_blob_of(
            before,
            blobs_of(list),
            offset,
        ));
    }
}

/// A node that was just taken out, put on the list.
proof fn lemma_push_detached(
    before: Storage,
    loose: Storage,
    chains: Seq<Seq<u64>>,
    shorter: Seq<Seq<u64>>,
    list: Seq<LooseNode>,
    body: Allocation,
    blob: Option<Allocation>,
    word: u64,
)
    requires
        before.holds(chains, nodes_of(list), blobs_of(list)),
        detached_from(before, list),
        chained(chains, body.offset as int),
        body == node_allocation(before.body, body.offset as int),
        word == value_at(before.body.data, body.offset as int),
        blob == blob_of(before, word),
        loose.body.pages == before.body.pages,
        loose.blobs == before.blobs,
        loose.holds(
            shorter,
            nodes_of(list).insert(body.offset as int),
            with_blob_of(before, blobs_of(list), body.offset as int),
        ),
    ensures
        ({
            let longer = list.push(LooseNode { body, blob });
            &&& loose.holds(shorter, nodes_of(longer), blobs_of(longer))
            &&& detached_from(loose, longer)
        }),
{
    let longer = list.push(LooseNode { body, blob });
    lemma_detached_blob(before, chains, list, body, blob, word);
    assert(longer.drop_last() =~= list);
    lemma_detached_kept(before, loose, list);
}

/// A node that was just taken out, released.
proof fn lemma_release_detached(
    before: Storage,
    loose: Storage,
    chains: Seq<Seq<u64>>,
    shorter: Seq<Seq<u64>>,
    list: Seq<LooseNode>,
    body: Allocation,
    blob: Option<Allocation>,
    word: u64,
)
    requires
        before.holds(chains, nodes_of(list), blobs_of(list)),
        detached_from(before, list),
        chained(chains, body.offset as int),
        body == node_allocation(before.body, body.offset as int),
        body.block == before.body.pages.page_of(body.offset as int),
        word == value_at(before.body.data, body.offset as int),
        blob == blob_of(before, word),
        loose.config == before.config,
        loose.body.pages == before.body.pages,
        loose.blobs == before.blobs,
        loose.holds(
            shorter,
            nodes_of(list).insert(body.offset as int),
            with_blob_of(before, blobs_of(list), body.offset as int),
        ),
    ensures
        removed(loose, body, blob).holds(shorter, nodes_of(list), blobs_of(list)),
        removed(loose, body, blob).entries(shorter) == loose.entries(shorter),
        detached_from(removed(loose, body, blob), list),
{
    let offset = body.offset as int;
    let nodes = nodes_of(list).insert(offset);
    let blobs = with_blob_of(before, blobs_of(list), offset);
    lemma_detached_blob(before, chains, list, body, blob, word);
    lemma_removed(loose, shorter, nodes, blobs, body, blob);
    assert(nodes.remove(offset) =~= nodes_of(list));
    if blob is Some {
        assert(blobs.remove((blob->0).offset as int) =~= blobs_of(list));
    }
    lemma_detached_kept(before, removed(loose, body, blob), list);
}

/// First item of a group that is open and has the key of a node.
fn matching_item(
    keys: &[&[u8]],
    items: &Vec<Prepared>,
    start: usize,
    end: usize,
    results: &Vec<Option<u64>>,
    key: &[u8],
    hash: u64,
    config: Ghost<Config>,
) -> (found: Option<usize>)
    requires
        prepared_for(config@, key_views(keys@), true, items@),
        start < end <= items.len(),
        results.len() == keys.len(),
        hash == digest(key@, config@.hash_seed),
        forall|i: int|
            start <= i < end ==> (#[trigger] items@[i]).bucket == items@[start as int].bucket,
    ensures
        match found {
            Some(index) => start <= index < end && results@[items@[index as int].order as int]
                is None && key_views(keys@)[items@[index as int].order as int] == key@,
            None => !pending_keys(
                key_views(keys@),
                items@,
                results@,
                start as int,
                end as int,
            ).contains(key@),
        },
{
    let ghost views = key_views(keys@);
    proof {
        assert forall|i: int, j: int|
            #![trigger items@[i], items@[j]]
            start <= i <= j < end implies items@[i].rank <= items@[j].rank by {
            assert(no_later(items@[i], items@[j]));
        }
    }
    let first: usize = partition_point(items, start, end, hash);
    let mut index: usize = first;
    while index < end && items[index].rank == hash
        invariant
            prepared_for(config@, views, true, items@),
            views == key_views(keys@),
            start <= first <= index <= end <= items.len(),
            start < end,
            results.len() == keys.len(),
            forall|i: int|
                first <= i < index && results@[(#[trigger] items@[i]).order as int] is None
                    ==> views[items@[i].order as int] != key@,
        decreases end - index,
    {
        let order: usize = items[index].order;
        assert(prepares(config@, views, true, items@[index as int]));
        if results[order].is_none() && same_bytes(keys[order], key) {
            return Some(index);
        }
        index = index + 1;
    }
    proof {
        assert forall|i: int|
            start <= i < end && results@[(
            #[trigger] items@[i]).order as int] is None implies views[items@[i].order as int]
            != key@ by {
            assert(prepares(config@, views, true, items@[i]));
            if i >= index {
                assert(no_later(items@[index as int], items@[i]));
            }
        }
    }
    None
}

/// Whether there was an entry for `key` and, where blobs are `kept`, `word` stands
/// for the value of the first one.
pub open spec fn took_first(
    storage: Storage,
    entries: Seq<Entry>,
    key: Seq<u8>,
    word: u64,
    kept: bool,
) -> bool {
    &&& first_index(entries, key) is Some
    &&& kept ==> storage.valid_word(word) && storage.value_of(word) == entries[first_index(
        entries,
        key,
    )->0].value
}

/// Whether the results of a group tell what was taken out of a bucket.
pub open spec fn group_taken(
    storage: Storage,
    entries: Seq<Entry>,
    views: Seq<Seq<u8>>,
    items: Seq<Prepared>,
    results: Seq<Option<u64>>,
    start: int,
    end: int,
    kept: bool,
) -> bool {
    forall|i: int|
        start <= i < end ==> match results[(#[trigger] items[i]).order as int] {
            Some(word) => took_first(storage, entries, views[items[i].order as int], word, kept),
            None => first_index(entries, views[items[i].order as int]) is None,
        }
}

/// How far one walk that takes out keys has come, in sound files: `index` nodes of
/// the chain were kept, and `visited` entries of the bucket as it was were seen.
pub open spec fn removal_state(
    first_entries: Seq<Seq<Entry>>,
    now: Storage,
    chains: Seq<Seq<u64>>,
    bucket: int,
    all: Set<Seq<u8>>,
    pending: Set<Seq<u8>>,
    index: int,
    visited: int,
) -> bool {
    let before = first_entries[bucket];
    let entries = now.entries(chains)[bucket];
    &&& 0 <= bucket < chains.len()
    &&& first_entries.len() == chains.len()
    &&& now.entries(chains) == first_entries.update(bucket, entries)
    &&& 0 <= index <= entries.len()
    &&& 0 <= visited <= before.len()
    &&& entries.skip(index) == before.skip(visited)
    &&& stripped(before, all) == entries.take(index) + stripped(entries.skip(index), pending)
    &&& forall|key: Seq<u8>, j: int|
        #![trigger pending.contains(key), before[j]]
        pending.contains(key) && 0 <= j < visited ==> before[j].key != key
}

/// A node that stays: the walk moves past it.
proof fn lemma_removal_kept(
    first_entries: Seq<Seq<Entry>>,
    now: Storage,
    chains: Seq<Seq<u64>>,
    bucket: int,
    all: Set<Seq<u8>>,
    pending: Set<Seq<u8>>,
    index: int,
    visited: int,
)
    requires
        removal_state(first_entries, now, chains, bucket, all, pending, index, visited),
        index < now.entries(chains)[bucket].len(),
        !pending.contains(now.entries(chains)[bucket][index].key),
    ensures
        removal_state(
            first_entries,
            now,
            chains,
            bucket,
            all,
            pending,
            index + 1,
            visited + 1,
        ),
{
    let before = first_entries[bucket];
    let entries = now.entries(chains)[bucket];
    let rest = entries.skip(index);
    assert(rest.len() == entries.len() - index);
    assert(before.skip(visited).len() == before.len() - visited);
    assert(rest[0] == entries[index]);
    assert(before.skip(visited)[0] == before[visited]);
    assert(rest.drop_first() =~= entries.skip(index + 1));
    assert(before.skip(visited).drop_first() =~= before.skip(visited + 1));
    assert(entries.take(index + 1) =~= entries.take(index) + seq![entries[index]]);
    assert(entries.take(index) + (seq![entries[index]] + stripped(rest.drop_first(), pending))
        =~= entries.take(index + 1) + stripped(entries.skip(index + 1), pending));
}

/// A node that leaves: the walk sees what was behind it.
proof fn lemma_removal_taken(
    first_entries: Seq<Seq<Entry>>,
    now: Storage,
    after: Storage,
    chains: Seq<Seq<u64>>,
    shorter: Seq<Seq<u64>>,
    bucket: int,
    all: Set<Seq<u8>>,
    pending: Set<Seq<u8>>,
    index: int,
    visited: int,
)
    requires
        removal_state(first_entries, now, chains, bucket, all, pending, index, visited),
        index < now.entries(chains)[bucket].len(),
        pending.contains(now.entries(chains)[bucket][index].key),
        shorter.len() == chains.len(),
        after.entries(shorter) == now.entries(chains).update(
            bucket,
            now.entries(chains)[bucket].remove(index),
        ),
    ensures
        removal_state(
            first_entries,
            after,
            shorter,
            bucket,
            all,
            pending.remove(now.entries(chains)[bucket][index].key),
            index,
            visited + 1,
        ),
        first_index(first_entries[bucket], now.entries(chains)[bucket][index].key) == Some(visited),
        first_entries[bucket][visited] == now.entries(chains)[bucket][index],
{
    let before = first_entries[bucket];
    let entries = now.entries(chains)[bucket];
    let key = entries[index].key;
    let rest = entries.skip(index);
    let fewer = entries.remove(index);
    assert(rest.len() == entries.len() - index);
    assert(before.skip(visited).len() == before.len() - visited);
    assert(rest[0] == entries[index]);
    assert(before.skip(visited)[0] == before[visited]);
    assert(rest.drop_first() =~= fewer.skip(index));
    assert(rest.drop_first() =~= before.skip(visited + 1));
    assert(fewer.take(index) =~= entries.take(index));
    assert(after.entries(shorter)[bucket] == fewer);
    assert(after.entries(shorter) =~= first_entries.update(bucket, fewer));
    assert(is_first(before, key, visited));
    lemma_first_index(before, key, visited);
}

/// With no pending key left, the bucket is as it has to be.
proof fn lemma_removal_done(
    first_entries: Seq<Seq<Entry>>,
    now: Storage,
    chains: Seq<Seq<u64>>,
    bucket: int,
    all: Set<Seq<u8>>,
    pending: Set<Seq<u8>>,
    index: int,
    visited: int,
)
    requires
        removal_state(first_entries, now, chains, bucket, all, pending, index, visited),
        index == now.entries(chains)[bucket].len() || (forall|key: Seq<u8>|
            !#[trigger] pending.contains(key)),
    ensures
        now.entries(chains) == first_entries.update(
            bucket,
            stripped(first_entries[bucket], all),
        ),
        index == now.entries(chains)[bucket].len() ==> forall|key: Seq<u8>| #[trigger]
            pending.contains(key) ==> first_index(first_entries[bucket], key) is None,
{
    let before = first_entries[bucket];
    let entries = now.entries(chains)[bucket];
    lemma_stripped_none(entries.skip(index), pending);
    assert(entries.take(index) + entries.skip(index) =~= entries);
    if index == entries.len() {
        assert(before.skip(visited).len() == entries.skip(index).len());
        assert forall|key: Seq<u8>| #[trigger] pending.contains(key) implies first_index(
            before,
            key,
        ) is None by {
            lemma_no_first_index(before, key);
        }
    }
}

/// The node behind a node that stays.
proof fn lemma_next_kept(body: Files, root: u64, bucket: u64, chain: Seq<u64>, index: int)
    requires
        linked(body, root, chain),
        0 <= index < chain.len(),
    ensures
        next_at(body.data, chain[index] as int) == (if index + 1 < chain.len() {
            chain[index + 1]
        } else {
            0
        }),
        link_at(bucket, chain, index + 1) == Link::Node(chain[index]),
{
    reveal(after_in);
    assert(chain[index] == chain[index]);
}

/// The node behind a node that leaves takes its place.
proof fn lemma_next_taken(body: Files, root: u64, bucket: u64, chain: Seq<u64>, index: int)
    requires
        linked(body, root, chain),
        0 <= index < chain.len(),
    ensures
        next_at(body.data, chain[index] as int) == (if index < chain.remove(index).len() {
            chain.remove(index)[index]
        } else {
            0
        }),
        link_at(bucket, chain.remove(index), index) == link_at(bucket, chain, index),
{
    lemma_next_kept(body, root, bucket, chain, index);
}

impl Table {
    /// Takes the first node of each key of one group out of the chain of its bucket,
    /// in one walk.
    #[verifier::spinoff_prover]
    #[verifier::rlimit(60)]
    pub fn remove_bucket_batch(
        &mut self,
        keys: &[&[u8]],
        items: &Vec<Prepared>,
        start: usize,
        end: usize,
        results: &mut Vec<Option<u64>>,
        detached: &mut Vec<LooseNode>,
        release_now: bool,
        chains: &mut Ghost<Seq<Seq<u64>>>,
    ) -> (result: Result<(), Error>)
        requires
            old(self).wf(),
            prepared_for(old(self).config, key_views(keys@), true, items@),
            all_distinct(key_views(keys@)),
            start < end <= items.len(),
            old(results).len() == keys.len(),
            forall|i: int|
                start <= i < end ==> (#[trigger] items@[i]).bucket == items@[start as int].bucket
                    && old(results)@[items@[i].order as int] is None,
        ensures
            final(self).wf(),
            final(self).config == old(self).config,
            bounded(old(detached)@) ==> bounded(final(detached)@),
            (
                Removal {
                    storage: final(self).storage(),
                    words: words_of(key_views(keys@), final(results)@),
                    loose: final(detached)@,
                },
                result,
            ) == removal_walk(
                Removal {
                    storage: old(self).storage(),
                    words: words_of(key_views(keys@), old(results)@),
                    loose: old(detached)@,
                },
                items@[start as int].bucket as int,
                None,
                old(self).storage().heads[items@[start as int].bucket as int],
                pending_keys(
                    key_views(keys@),
                    items@,
                    old(results)@,
                    start as int,
                    end as int,
                ),
                node_limit(old(self).config.body_capacity as int) as nat,
                release_now,
            ),
            final(results)@.len() == old(results)@.len(),
            forall|i: int|
                0 <= i < items@.len() && !(start <= i < end) ==> final(results)@[(
                #[trigger] items@[i]).order as int] == old(results)@[items@[i].order as int],
            ({
                let before = old(self).storage();
                let after = final(self).storage();
                let bucket = items@[start as int].bucket as int;
                let entries = before.entries(old(chains)@);
                let list = old(detached)@;
                before.holds(old(chains)@, nodes_of(list), blobs_of(list)) && detached_from(
                    before,
                    list,
                ) ==> {
                    &&& result == Ok::<(), Error>(())
                    &&& after.holds(
                        final(chains)@,
                        nodes_of(final(detached)@),
                        blobs_of(final(detached)@),
                    )
                    &&& detached_from(after, final(detached)@)
                    &&& after.entries(final(chains)@) == entries.update(
                        bucket,
                        stripped(
                            entries[bucket],
                            pending_keys(
                                key_views(keys@),
                                items@,
                                old(results)@,
                                start as int,
                                end as int,
                            ),
                        ),
                    )
                    &&& group_taken(
                        before,
                        entries[bucket],
                        key_views(keys@),
                        items@,
                        final(results)@,
                        start as int,
                        end as int,
                        !release_now,
                    )
                    &&& !release_now ==> after.blobs == before.blobs
                    &&& release_now ==> final(detached)@ == old(detached)@
                }
            }),
    {
        let ghost views = key_views(keys@);
        let ghost config = self.config;
        let ghost first = self.storage();
        let ghost list = detached@;
        let ghost first_chains = chains@;
        let ghost entries = first.entries(first_chains);
        let ghost sound = first.holds(first_chains, nodes_of(list), blobs_of(list))
            && detached_from(first, list);
        let bucket: u64 = items[start].bucket;
        let ghost b = bucket as int;
        let ghost before = results@;
        let ghost all = pending_keys(views, items@, results@, start as int, end as int);
        let limit: u64 = self.body.byte_capacity() / NODE_SIZE_U64 + 1;
        let mut remaining: usize = end - start;
        let mut link = Link::Head(bucket);
        let mut current: u64 = self.heads[bucket as usize];
        let mut visited: u64 = 0;
        let ghost mut index: int = 0;
        let ghost outcome = removal_walk(
            Removal { storage: first, words: words_of(views, before), loose: list },
            b,
            None,
            current,
            all,
            limit as nat,
            release_now,
        );
        proof {
            lemma_open_results(items@, results@, start as int, end as int);
            assert(prepares(config, views, true, items@[start as int]));
            if sound {
                assert(linked(first.body, first.heads[b], first_chains[b]));
                lemma_chain_length(first, first_chains, nodes_of(list), blobs_of(list), b);
                assert(entries[b].skip(0) =~= entries[b]);
                assert(entries[b].take(0) + stripped(entries[b], all) =~= stripped(
                    entries[b],
                    all,
                ));
                assert(entries.update(b, entries[b]) =~= entries);
            }
        }
        while current != 0
            invariant
                self.wf(),
                self.config == config,
                config == old(self).config,
                bounded(old(detached)@) ==> bounded(detached@),
                views == key_views(keys@),
                prepared_for(config, views, true, items@),
                all_distinct(views),
                start < end <= items.len(),
                results.len() == keys.len(),
                before == old(results)@,
                before.len() == results@.len(),
                first == old(self).storage(),
                list == old(detached)@,
                first_chains == old(chains)@,
                entries == first.entries(first_chains),
                sound == (first.holds(first_chains, nodes_of(list), blobs_of(list))
                    && detached_from(first, list)),
                b == bucket,
                bucket == items@[start as int].bucket,
                bucket < self.config.bucket_count,
                all == pending_keys(views, items@, before, start as int, end as int),
                limit == node_limit(config.body_capacity as int),
                visited <= limit,
                outcome == removal_walk(
                    Removal {
                        storage: self.storage(),
                        words: words_of(views, results@),
                        loose: detached@,
                    },
                    b,
                    before_of(link),
                    current,
                    pending_keys(views, items@, results@, start as int, end as int),
                    (limit - visited) as nat,
                    release_now,
                ),
                outcome == removal_walk(
                    Removal { storage: first, words: words_of(views, before), loose: list },
                    b,
                    None,
                    first.heads[b],
                    all,
                    limit as nat,
                    release_now,
                ),
                remaining == open_results(items@, results@, start as int, end as int),
                remaining > 0,
                current != 0 ==> link_holds(
                    self.body.files(),
                    self.heads@[bucket as int],
                    link,
                    current,
                ),
                link matches Link::Node(ahead) ==> !pending_keys(
                    views,
                    items@,
                    results@,
                    start as int,
                    end as int,
                ).contains(key_at(self.body.data(), ahead as int)),
                forall|i: int| start <= i < end ==> (#[trigger] items@[i]).bucket == bucket,
                forall|i: int|
                    0 <= i < items@.len() && !(start <= i < end) ==> results@[(
                    #[trigger] items@[i]).order as int] == before[items@[i].order as int],
                sound ==> {
                    &&& self.storage().holds(chains@, nodes_of(detached@), blobs_of(detached@))
                    &&& detached_from(self.storage(), detached@)
                    &&& removal_state(
                        entries,
                        self.storage(),
                        chains@,
                        b,
                        all,
                        pending_keys(views, items@, results@, start as int, end as int),
                        index,
                        visited as int,
                    )
                    &&& entries[b].len() < limit
                    &&& current == (if index < chains@[b].len() {
                        chains@[b][index]
                    } else {
                        0
                    })
                    &&& link == link_at(bucket, chains@[b], index)
                    &&& forall|i: int|
                        start <= i < end ==> (results@[(#[trigger] items@[i]).order as int]
                            matches Some(word) ==> took_first(
                            first,
                            entries[b],
                            views[items@[i].order as int],
                            word,
                            !release_now,
                        ))
                    &&& !release_now ==> self.storage().blobs == first.blobs
                    &&& release_now ==> detached@ == list
                },
            decreases limit - visited,
        {
            let ghost now = self.storage();
            let ghost reached = Removal {
                storage: now,
                words: words_of(views, results@),
                loose: detached@,
            };
            let ghost pending = pending_keys(views, items@, results@, start as int, end as int);
            proof {
                lemma_open_results(items@, results@, start as int, end as int);
                let open = choose|i: int|
                    start <= i < end && results@[(#[trigger] items@[i]).order as int] is None;
                assert(pending.contains(views[items@[open].order as int]));
                lemma_walk_failed(
                    reached,
                    b,
                    before_of(link),
                    current,
                    pending,
                    views[items@[open].order as int],
                    (limit - visited) as nat,
                    release_now,
                );
                if sound {
                    assert(linked(now.body, now.heads[b], chains@[b]));
                    assert(now.entries(chains@)[b].len() == chains@[b].len());
                    assert(slot(chains@, b, index));
                    assert(chains@[b][index] == current);
                    assert(now.entries(chains@)[b].skip(index).len() == entries[b].skip(
                        visited as int,
                    ).len());
                }
            }
            if visited == limit {
                return Err(Error::Corrupt("body chain contains a cycle"));
            }
            let node = read_node(&self.body, current)?;
            let hash: u64 = xxh64(node.key.as_slice(), self.config.hash_seed);
            let matching = matching_item(
                keys,
                items,
                start,
                end,
                results,
                node.key.as_slice(),
                hash,
                Ghost(config),
            );
            if let Some(item) = matching {
                let order: usize = items[item].order;
                proof {
                    assert(pending.contains(node.key@));
                    lemma_walk_taken(
                        reached,
                        b,
                        before_of(link),
                        current,
                        pending,
                        (limit - visited) as nat,
                        release_now,
                    );
                }
                self.detach_link(
                    bucket,
                    link,
                    &node,
                    release_now,
                    detached,
                    Ghost(chains@),
                    Ghost(index),
                )?;
                proof {
                    assert forall|i: int| 0 <= i < items@.len() implies (#[trigger] items@[i]).order
                        < results@.len() by {
                        assert(prepares(config, views, true, items@[i]));
                    }
                    lemma_result_settled(
                        items@,
                        results@,
                        start as int,
                        end as int,
                        item as int,
                        node.value,
                    );
                    lemma_word_settled(views, results@, order as int, node.value);
                    lemma_pending_settled(
                        views,
                        items@,
                        results@,
                        start as int,
                        end as int,
                        item as int,
                        node.value,
                    );
                    if sound {
                        let shorter = chains@.update(b, chains@[b].remove(index));
                        lemma_removal_taken(
                            entries,
                            now,
                            self.storage(),
                            chains@,
                            shorter,
                            b,
                            all,
                            pending,
                            index,
                            visited as int,
                        );
                        assert(now.valid_word(value_at(now.body.data, chains@[b][index] as int)));
                        lemma_next_taken(now.body, now.heads[b], bucket, chains@[b], index);
                        chains@ = shorter;
                    }
                }
                results.set(order, Some(node.value));
                remaining = remaining - 1;
                proof {
                    lemma_open_results(items@, results@, start as int, end as int);
                }
                if remaining == 0 {
                    proof {
                        lemma_walk_ended(
                            Removal {
                                storage: self.storage(),
                                words: words_of(views, results@),
                                loose: detached@,
                            },
                            b,
                            before_of(link),
                            node.next,
                            pending_keys(views, items@, results@, start as int, end as int),
                            (limit - visited - 1) as nat,
                            release_now,
                        );
                        if sound {
                            lemma_removal_done(
                                entries,
                                self.storage(),
                                chains@,
                                b,
                                all,
                                pending_keys(views, items@, results@, start as int, end as int),
                                index,
                                visited + 1,
                            );
                        }
                    }
                    return Ok(());
                }
            } else {
                proof {
                    let open = choose|i: int|
                        start <= i < end && results@[(#[trigger] items@[i]).order as int] is None;
                    lemma_walk_kept(
                        reached,
                        b,
                        before_of(link),
                        current,
                        pending,
                        views[items@[open].order as int],
                        (limit - visited) as nat,
                        release_now,
                    );
                    if sound {
                        lemma_removal_kept(
                            entries,
                            now,
                            chains@,
                            b,
                            all,
                            pending,
                            index,
                            visited as int,
                        );
                        lemma_next_kept(now.body, now.heads[b], bucket, chains@[b], index);
                        index = index + 1;
                    }
                }
                link = Link::Node(current);
            }
            current = node.next;
            visited = visited + 1;
        }
        proof {
            lemma_walk_ended(
                Removal {
                    storage: self.storage(),
                    words: words_of(views, results@),
                    loose: detached@,
                },
                b,
                before_of(link),
                current,
                pending_keys(views, items@, results@, start as int, end as int),
                (limit - visited) as nat,
                release_now,
            );
            if sound {
                lemma_removal_done(
                    entries,
                    self.storage(),
                    chains@,
                    b,
                    all,
                    pending_keys(views, items@, results@, start as int, end as int),
                    index,
                    visited as int,
                );
                assert forall|i: int| start <= i < end implies match results@[(
                #[trigger] items@[i]).order as int] {
                    Some(word) => took_first(
                        first,
                        entries[b],
                        views[items@[i].order as int],
                        word,
                        !release_now,
                    ),
                    None => first_index(entries[b], views[items@[i].order as int]) is None,
                } by {
                    let key = views[items@[i].order as int];
                    if results@[items@[i].order as int] is None {
                        assert(pending_keys(
                            views,
                            items@,
                            results@,
                            start as int,
                            end as int,
                        ).contains(key));
                        lemma_no_first_index(entries[b], key);
                    }
                }
            }
        }
        Ok(())
    }
}

} // verus!

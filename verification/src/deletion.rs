//! Deleting and popping a batch of keys.

use vstd::prelude::*;

#[allow(unused_imports)]
use crate::allocator::{release_defect, word_access_defect, Files};
use crate::batch::group_end;
#[allow(unused_imports)]
use crate::batch::{first_unreadable, stands_for};
#[allow(unused_imports)]
use crate::bytes::{le64_bytes, patched};
use crate::bytes::same_bytes;
#[allow(unused_imports)]
use crate::config::{Config, Mode};
#[allow(unused_imports)]
use crate::database::{value_for, values_for};
use crate::error::Error;
#[allow(unused_imports)]
use crate::layout::{NODE_POINTER_OFFSET, NODE_SIZE, VALUE_BLOB_TAG};
#[allow(unused_imports)]
use crate::outcomes::{removed, without_blob};
use crate::prepared::{prepare, Prepared};
#[allow(unused_imports)]
use crate::prepared::{has_order, key_views, keys_defect, no_later, prepared_for, prepares};
#[allow(unused_imports)]
use crate::removal::{
    all_distinct, blobs_of, bounded, detached_from, lemma_stripped_none, lemma_stripped_same,
    lemma_walk_ended, nodes_of, pending_keys, removal_walk, stripped, took_first, words_of, Removal,
};
use crate::removal::LooseNode;
#[allow(unused_imports)]
use crate::storage::{bucket_of, first_index, node_limit, slot, Entry, Storage};
use crate::table::Table;

verus! {

/// Rejects a batch in which some key occurs twice.
pub fn validate_unique_batch_keys(
    keys: &[&[u8]],
    items: &Vec<Prepared>,
    config: Ghost<Config>,
) -> (result: Result<(), Error>)
    requires
        prepared_for(config@, key_views(keys@), true, items@),
    ensures
        result == (if all_distinct(key_views(keys@)) {
            Ok::<(), Error>(())
        } else {
            Err(Error::InvalidConfig("batch_delete keys must be globally unique"))
        }),
{
    let ghost views = key_views(keys@);
    let count: usize = items.len();
    let mut start: usize = 0;
    while start < count
        invariant
            prepared_for(config@, views, true, items@),
            views == key_views(keys@),
            count == items.len(),
            count == keys.len(),
            start <= count,
            forall|p: int, q: int|
                #![trigger items@[p], items@[q]]
                0 <= p < start && p < q < count ==> views[items@[p].order as int]
                    != views[items@[q].order as int],
        decreases count - start,
    {
        let item: Prepared = items[start];
        assert(prepares(config@, views, true, items@[start as int]));
        let mut other: usize = start + 1;
        while other < count && items[other].bucket == item.bucket && items[other].rank == item.rank
            invariant
                prepared_for(config@, views, true, items@),
                views == key_views(keys@),
                count == items.len(),
                count == keys.len(),
                start < other <= count,
                item == items@[start as int],
                item.order < count,
                forall|q: int|
                    start < q < other ==> views[item.order as int] != views[(
                    #[trigger] items@[q]).order as int],
            decreases count - other,
        {
            let order: usize = items[other].order;
            assert(prepares(config@, views, true, items@[other as int]));
            if same_bytes(keys[item.order], keys[order]) {
                assert(items@[start as int].order != items@[other as int].order);
                assert(views[item.order as int] == views[order as int]);
                return Err(Error::InvalidConfig("batch_delete keys must be globally unique"));
            }
            other = other + 1;
        }
        assert forall|q: int| start < q < count implies views[item.order as int] != views[(
        #[trigger] items@[q]).order as int] by {
            if q >= other {
                assert(prepares(config@, views, true, items@[q]));
                assert(no_later(items@[start as int], items@[other as int]));
                assert(no_later(items@[other as int], items@[q]));
            }
        }
        start = start + 1;
    }
    proof {
        assert forall|i: int, j: int|
            #![trigger views[i], views[j]]
            0 <= i < views.len() && 0 <= j < views.len() && views[i] == views[j] implies i == j by {
            assert(has_order(items@, i) && has_order(items@, j));
            let p = choose|p: int| 0 <= p < items@.len() && (#[trigger] items@[p]).order == i;
            let q = choose|q: int| 0 <= q < items@.len() && (#[trigger] items@[q]).order == j;
            assert(items@[p].order == i && items@[q].order == j);
            if p < q {
                assert(views[items@[p].order as int] != views[items@[q].order as int]);
            } else if q < p {
                assert(views[items@[q].order as int] != views[items@[p].order as int]);
            }
        }
    }
    Ok(())
}

/// The entries of all buckets without the first entry of each key of a batch.
pub open spec fn entries_stripped(entries: Seq<Seq<Entry>>, views: Seq<Seq<u8>>) -> Seq<
    Seq<Entry>,
> {
    Seq::new(entries.len(), |b: int| stripped(entries[b], views.to_set()))
}

/// How far a batch removal has come: the buckets before `done` are finished.
pub open spec fn stripped_below(
    entries: Seq<Seq<Entry>>,
    now: Seq<Seq<Entry>>,
    views: Seq<Seq<u8>>,
    done: int,
) -> bool {
    &&& now.len() == entries.len()
    &&& forall|b: int|
        #![trigger now[b]]
        0 <= b < now.len() ==> now[b] == (if b < done {
            stripped(entries[b], views.to_set())
        } else {
            entries[b]
        })
}

/// Whether every entry is in the bucket of its key.
pub open spec fn sorted_out(config: Config, entries: Seq<Seq<Entry>>) -> bool {
    forall|b: int, i: int|
        #![trigger entries[b][i]]
        0 <= b < entries.len() && 0 <= i < entries[b].len() ==> bucket_of(config, entries[b][i].key)
            == b
}

/// In sound files every entry is in the bucket of its key.
pub proof fn lemma_sorted_out(storage: Storage, chains: Seq<Seq<u64>>)
    requires
        storage.chains_hold(chains),
    ensures
        sorted_out(storage.config, storage.entries(chains)),
{
    let entries = storage.entries(chains);
    assert forall|b: int, i: int|
        #![trigger entries[b][i]]
        0 <= b < entries.len() && 0 <= i < entries[b].len() implies bucket_of(
        storage.config,
        entries[b][i].key,
    ) == b by {
        assert(slot(chains, b, i));
        assert(entries[b][i] == storage.entry_at(chains[b][i]));
    }
}

/// One group finished: so are the buckets up to its own.
proof fn lemma_group_stripped(
    config: Config,
    entries: Seq<Seq<Entry>>,
    before: Seq<Seq<Entry>>,
    after: Seq<Seq<Entry>>,
    views: Seq<Seq<u8>>,
    items: Seq<Prepared>,
    results: Seq<Option<u64>>,
    start: int,
    end: int,
)
    requires
        prepared_for(config, views, true, items),
        sorted_out(config, entries),
        0 <= start < end <= items.len(),
        items[start].bucket < entries.len(),
        stripped_below(
            entries,
            before,
            views,
            if start == 0 {
                0
            } else {
                items[start - 1].bucket + 1
            },
        ),
        start > 0 ==> items[start - 1].bucket < items[start].bucket,
        forall|i: int|
            start <= i < end ==> (#[trigger] items[i]).bucket == items[start].bucket
                && results[items[i].order as int] is None,
        forall|i: int|
            end <= i < items.len() ==> (#[trigger] items[i]).bucket > items[start].bucket,
        after == before.update(
            items[start].bucket as int,
            stripped(
                before[items[start].bucket as int],
                pending_keys(views, items, results, start, end),
            ),
        ),
    ensures
        before[items[start].bucket as int] == entries[items[start].bucket as int],
        stripped_below(entries, after, views, items[end - 1].bucket + 1),
{
    let bucket = items[start].bucket as int;
    let pending = pending_keys(views, items, results, start, end);
    let all = views.to_set();
    assert(items[end - 1].bucket == bucket);
    assert(before[bucket] == entries[bucket]);
    assert forall|i: int| 0 <= i < entries[bucket].len() implies pending.contains(
        (#[trigger] entries[bucket][i]).key,
    ) == all.contains(entries[bucket][i].key) by {
        let key = entries[bucket][i].key;
        if all.contains(key) {
            let order = choose|order: int| 0 <= order < views.len() && views[order] == key;
            lemma_item_of(config, views, items, order, start, end);
        }
        if pending.contains(key) {
            let k = choose|k: int|
                start <= k < end && results[(#[trigger] items[k]).order as int] is None
                    && views[items[k].order as int] == key;
            assert(prepares(config, views, true, items[k]));
            assert(views[items[k].order as int] == key);
        }
    }
    lemma_stripped_same(entries[bucket], pending, all);
    assert forall|b: int|
        #![trigger after[b]]
        0 <= b < after.len() implies after[b] == (if b < bucket + 1 {
        stripped(entries[b], all)
    } else {
        entries[b]
    }) by {
        assert(before[b] == before[b]);
        if b < bucket && (start == 0 || b > items[start - 1].bucket) {
            assert forall|i: int| 0 <= i < entries[b].len() implies !all.contains(
                (#[trigger] entries[b][i]).key,
            ) by {
                lemma_no_item(config, entries, views, items, b, i, start);
            }
            lemma_stripped_none(entries[b], all);
        }
    }
}

/// A key of the batch that belongs to the bucket of a group is in the group.
proof fn lemma_item_of(
    config: Config,
    views: Seq<Seq<u8>>,
    items: Seq<Prepared>,
    order: int,
    start: int,
    end: int,
)
    requires
        prepared_for(config, views, true, items),
        0 <= start < end <= items.len(),
        0 <= order < views.len(),
        bucket_of(config, views[order]) == items[start].bucket,
        start > 0 ==> items[start - 1].bucket < items[start].bucket,
        forall|i: int|
            end <= i < items.len() ==> (#[trigger] items[i]).bucket > items[start].bucket,
    ensures
        exists|k: int| start <= k < end && (#[trigger] items[k]).order == order,
{
    assert(has_order(items, order));
    let k = choose|k: int| 0 <= k < items.len() && (#[trigger] items[k]).order == order;
    assert(prepares(config, views, true, items[k]));
    if k < start {
        assert(no_later(items[k], items[start - 1]));
    }
    assert(start <= k < end);
}

/// Between two groups no bucket has a key of the batch.
proof fn lemma_no_item(
    config: Config,
    entries: Seq<Seq<Entry>>,
    views: Seq<Seq<u8>>,
    items: Seq<Prepared>,
    bucket: int,
    index: int,
    start: int,
)
    requires
        prepared_for(config, views, true, items),
        sorted_out(config, entries),
        0 <= bucket < entries.len(),
        0 <= index < entries[bucket].len(),
        0 <= start <= items.len(),
        start < items.len() ==> bucket < items[start].bucket,
        start > 0 ==> items[start - 1].bucket < bucket,
    ensures
        !views.to_set().contains(entries[bucket][index].key),
{
    let key = entries[bucket][index].key;
    if views.to_set().contains(key) {
        let order = choose|order: int| 0 <= order < views.len() && views[order] == key;
        assert(has_order(items, order));
        let k = choose|k: int| 0 <= k < items.len() && (#[trigger] items[k]).order == order;
        assert(prepares(config, views, true, items[k]));
        assert(items[k].bucket == bucket);
        if k < start {
            assert(no_later(items[k], items[start - 1]));
        } else {
            assert(no_later(items[start], items[k]));
        }
    }
}

/// The keys of a batch that belong to a bucket.
pub open spec fn bucket_keys(config: Config, views: Seq<Seq<u8>>, bucket: int) -> Set<Seq<u8>> {
    Set::new(|key: Seq<u8>| views.contains(key) && bucket_of(config, key) == bucket)
}

/// The removal of a batch of keys from the chains of the buckets from `bucket` on.
#[verifier::opaque]
pub open spec fn removal_from(
    now: Removal,
    config: Config,
    views: Seq<Seq<u8>>,
    bucket: int,
    release_now: bool,
) -> (Removal, Result<(), Error>)
    decreases config.bucket_count - bucket,
{
    if bucket >= config.bucket_count {
        (now, Ok(()))
    } else {
        let (after, result) = removal_walk(
            now,
            bucket,
            None,
            now.storage.heads[bucket],
            bucket_keys(config, views, bucket),
            node_limit(config.body_capacity as int) as nat,
            release_now,
        );
        match result {
            Err(error) => (after, Err(error)),
            Ok(_) => removal_from(after, config, views, bucket + 1, release_now),
        }
    }
}

/// The removal of a batch of keys: bucket by bucket, until a chain is damaged.
pub open spec fn removal_outcome(storage: Storage, views: Seq<Seq<u8>>, release_now: bool) -> (
    Removal,
    Result<(), Error>,
) {
    removal_from(
        Removal { storage, words: Map::empty(), loose: Seq::empty() },
        storage.config,
        views,
        0,
        release_now,
    )
}

/// Buckets without a key of the batch stay as they are.
proof fn lemma_buckets_skipped(
    now: Removal,
    config: Config,
    views: Seq<Seq<u8>>,
    from: int,
    to: int,
    release_now: bool,
)
    requires
        from <= to <= config.bucket_count,
        forall|i: int|
            0 <= i < views.len() ==> !(from <= bucket_of(config, #[trigger] views[i]) < to),
    ensures
        removal_from(now, config, views, from, release_now) == removal_from(
            now,
            config,
            views,
            to,
            release_now,
        ),
    decreases to - from,
{
    if from < to {
        let keys = bucket_keys(config, views, from);
        assert forall|key: Seq<u8>| !#[trigger] keys.contains(key) by {
            if keys.contains(key) {
                let i = choose|i: int| 0 <= i < views.len() && views[i] == key;
                assert(bucket_of(config, views[i]) == from);
            }
        }
        lemma_walk_ended(
            now,
            from,
            None,
            now.storage.heads[from],
            keys,
            node_limit(config.body_capacity as int) as nat,
            release_now,
        );
        lemma_buckets_skipped(now, config, views, from + 1, to, release_now);
        reveal_with_fuel(removal_from, 2);
    }
}

/// The open keys of a group are the keys of its bucket.
proof fn lemma_group_keys(
    config: Config,
    views: Seq<Seq<u8>>,
    items: Seq<Prepared>,
    results: Seq<Option<u64>>,
    start: int,
    end: int,
)
    requires
        prepared_for(config, views, true, items),
        0 <= start < end <= items.len(),
        start > 0 ==> items[start - 1].bucket < items[start].bucket,
        forall|i: int|
            start <= i < end ==> (#[trigger] items[i]).bucket == items[start].bucket
                && results[items[i].order as int] is None,
        forall|i: int|
            end <= i < items.len() ==> (#[trigger] items[i]).bucket > items[start].bucket,
    ensures
        pending_keys(views, items, results, start, end) == bucket_keys(
            config,
            views,
            items[start].bucket as int,
        ),
        start == 0 ==> forall|i: int|
            0 <= i < views.len() ==> !(0 <= bucket_of(config, #[trigger] views[i])
                < items[start].bucket),
        start > 0 ==> forall|i: int|
            0 <= i < views.len() ==> !(items[start - 1].bucket + 1 <= bucket_of(
                config,
                #[trigger] views[i],
            ) < items[start].bucket),
{
    let bucket = items[start].bucket as int;
    let pending = pending_keys(views, items, results, start, end);
    let keys = bucket_keys(config, views, bucket);
    assert forall|key: Seq<u8>| pending.contains(key) == keys.contains(key) by {
        if keys.contains(key) {
            let order = choose|order: int| 0 <= order < views.len() && views[order] == key;
            lemma_item_of(config, views, items, order, start, end);
        }
        if pending.contains(key) {
            let k = choose|k: int|
                start <= k < end && results[(#[trigger] items[k]).order as int] is None
                    && views[items[k].order as int] == key;
            assert(prepares(config, views, true, items[k]));
            assert(views[items[k].order as int] == key);
        }
    }
    assert(pending =~= keys);
    assert forall|order: int| 0 <= order < views.len() implies bucket_of(
        config,
        #[trigger] views[order],
    ) >= bucket || (start > 0 && bucket_of(config, views[order]) <= items[start - 1].bucket) by {
        assert(has_order(items, order));
        let k = choose|k: int| 0 <= k < items.len() && (#[trigger] items[k]).order == order;
        assert(prepares(config, views, true, items[k]));
        if k < start {
            assert(no_later(items[k], items[start - 1]));
        }
    }
}

/// Behind the last group no bucket is left to do.
proof fn lemma_groups_done(
    now: Removal,
    config: Config,
    views: Seq<Seq<u8>>,
    items: Seq<Prepared>,
    release_now: bool,
)
    requires
        prepared_for(config, views, true, items),
        config.valid(),
    ensures
        removal_from(
            now,
            config,
            views,
            if items.len() == 0 {
                0
            } else {
                items[items.len() - 1].bucket + 1
            },
            release_now,
        ) == (now, Ok::<(), Error>(())),
{
    let from = if items.len() == 0 {
        0
    } else {
        items[items.len() - 1].bucket + 1
    };
    if items.len() > 0 {
        let last = items[items.len() - 1];
        assert(prepares(config, views, true, last));
        crate::outcomes::lemma_bucket(config, views[last.order as int]);
    }
    assert forall|order: int| 0 <= order < views.len() implies !(from <= bucket_of(
        config,
        #[trigger] views[order],
    ) < config.bucket_count) by {
        assert(has_order(items, order));
        let k = choose|k: int| 0 <= k < items.len() && (#[trigger] items[k]).order == order;
        assert(prepares(config, views, true, items[k]));
        assert(no_later(items[k], items[items.len() - 1]));
    }
    lemma_buckets_skipped(
        now,
        config,
        views,
        from,
        config.bucket_count as int,
        release_now,
    );
    reveal_with_fuel(removal_from, 2);
}

/// Behind the last group no bucket has a key of the batch.
proof fn lemma_all_stripped(
    config: Config,
    entries: Seq<Seq<Entry>>,
    now: Seq<Seq<Entry>>,
    views: Seq<Seq<u8>>,
    items: Seq<Prepared>,
)
    requires
        prepared_for(config, views, true, items),
        sorted_out(config, entries),
        stripped_below(
            entries,
            now,
            views,
            if items.len() == 0 {
                0
            } else {
                items[items.len() - 1].bucket + 1
            },
        ),
    ensures
        now == entries_stripped(entries, views),
{
    assert forall|b: int| 0 <= b < now.len() implies now[b] == #[trigger] entries_stripped(
        entries,
        views,
    )[b] by {
        if items.len() == 0 || b > items[items.len() - 1].bucket {
            assert forall|i: int| 0 <= i < entries[b].len() implies !views.to_set().contains(
                (#[trigger] entries[b][i]).key,
            ) by {
                lemma_no_item(config, entries, views, items, b, i, items.len() as int);
            }
            lemma_stripped_none(entries[b], views.to_set());
        }
    }
    assert(now =~= entries_stripped(entries, views));
}

/// Whether the results of a whole batch tell what was taken out.
pub open spec fn batch_taken(
    storage: Storage,
    entries: Seq<Seq<Entry>>,
    views: Seq<Seq<u8>>,
    results: Seq<Option<u64>>,
    kept: bool,
) -> bool {
    &&& results.len() == views.len()
    &&& forall|i: int|
        #![trigger results[i]]
        0 <= i < results.len() ==> result_taken(storage, entries, views[i], results[i], kept)
}

/// Whether the result for one key tells what was taken out.
pub open spec fn result_taken(
    storage: Storage,
    entries: Seq<Seq<Entry>>,
    key: Seq<u8>,
    result: Option<u64>,
    kept: bool,
) -> bool {
    let bucket = entries[bucket_of(storage.config, key)];
    match result {
        Some(word) => took_first(storage, bucket, key, word, kept),
        None => first_index(bucket, key) is None,
    }
}

/// Releasing a node that was taken out of its chain, and its blob. A failure leaves
/// what was done before it.
pub open spec fn release_outcome(
    storage: Storage,
    node: LooseNode,
) -> (Storage, Result<(), Error>) {
    let defect = word_access_defect(
        storage.body.capacity(),
        storage.body.data.len() as int,
        node.body.offset + NODE_POINTER_OFFSET,
    );
    let cleared = Storage {
        body: Files {
            data: patched(
                storage.body.data,
                node.body.offset + NODE_POINTER_OFFSET,
                le64_bytes(0),
            ),
            ..storage.body
        },
        ..storage
    };
    let blob_defect = match (storage.blobs, node.blob) {
        (Some(files), Some(blob)) => release_defect(files.pages, blob),
        _ => None,
    };
    let rest = without_blob(cleared, node.blob);
    if defect is Some {
        (storage, Err(defect->0))
    } else if blob_defect is Some {
        (cleared, Err(blob_defect->0))
    } else if release_defect(rest.body.pages, node.body) is Some {
        (rest, Err(release_defect(rest.body.pages, node.body)->0))
    } else {
        (removed(storage, node.body, node.blob), Ok(()))
    }
}

/// Releasing the nodes of a list, the last one first, with the first failure.
pub open spec fn release_all(storage: Storage, list: Seq<LooseNode>) -> (
    Storage,
    Result<(), Error>,
)
    decreases list.len(),
{
    if list.len() == 0 {
        (storage, Ok(()))
    } else {
        let (after, result) = release_outcome(storage, list.last());
        let (rest, later) = release_all(after, list.drop_last());
        (rest, match result {
            Err(error) => Err(error),
            Ok(_) => later,
        })
    }
}

impl Table {
    /// Takes the first node of each key out of its chain, bucket by bucket.
    fn remove_groups(
        &mut self,
        keys: &[&[u8]],
        items: &Vec<Prepared>,
        results: &mut Vec<Option<u64>>,
        detached: &mut Vec<LooseNode>,
        release_now: bool,
        chains: &mut Ghost<Seq<Seq<u64>>>,
    ) -> (result: Result<(), Error>)
        requires
            old(self).wf(),
            prepared_for(old(self).config, key_views(keys@), true, items@),
            all_distinct(key_views(keys@)),
            old(results).len() == keys.len(),
            forall|i: int| 0 <= i < old(results)@.len() ==> #[trigger] old(results)@[i] is None,
            old(detached)@.len() == 0,
        ensures
            final(self).wf(),
            final(self).config == old(self).config,
            bounded(final(detached)@),
            final(results)@.len() == old(results)@.len(),
            (
                Removal {
                    storage: final(self).storage(),
                    words: words_of(key_views(keys@), final(results)@),
                    loose: final(detached)@,
                },
                result,
            ) == removal_outcome(old(self).storage(), key_views(keys@), release_now),
            ({
                let before = old(self).storage();
                let after = final(self).storage();
                let entries = before.entries(old(chains)@);
                before.holds(old(chains)@, Set::empty(), Map::empty()) ==> {
                    &&& result == Ok::<(), Error>(())
                    &&& after.holds(
                        final(chains)@,
                        nodes_of(final(detached)@),
                        blobs_of(final(detached)@),
                    )
                    &&& detached_from(after, final(detached)@)
                    &&& after.entries(final(chains)@) == entries_stripped(
                        entries,
                        key_views(keys@),
                    )
                    &&& batch_taken(
                        before,
                        entries,
                        key_views(keys@),
                        final(results)@,
                        !release_now,
                    )
                    &&& !release_now ==> after.blobs == before.blobs
                    &&& release_now ==> final(detached)@.len() == 0
                }
            }),
    {
        let ghost views = key_views(keys@);
        let ghost config = self.config;
        let ghost first = self.storage();
        let ghost first_chains = chains@;
        let ghost entries = first.entries(first_chains);
        let ghost sound = first.holds(first_chains, Set::empty(), Map::empty());
        let count: usize = items.len();
        let mut start: usize = 0;
        proof {
            assert(words_of(views, results@) =~= Map::empty());
            assert(detached@ =~= Seq::empty());
            if sound {
                lemma_sorted_out(first, first_chains);
                assert(nodes_of(detached@) =~= Set::empty());
                assert(blobs_of(detached@) =~= Map::empty());
            }
        }
        while start < count
            invariant
                self.wf(),
                self.config == config,
                config == old(self).config,
                config.valid(),
                views == key_views(keys@),
                prepared_for(config, views, true, items@),
                all_distinct(views),
                results@.len() == old(results)@.len(),
                results.len() == keys.len(),
                count == items.len(),
                start <= count,
                bounded(detached@),
                first == old(self).storage(),
                first.config == config,
                first_chains == old(chains)@,
                entries == first.entries(first_chains),
                sound == first.holds(first_chains, Set::empty(), Map::empty()),
                removal_outcome(first, views, release_now) == removal_from(
                    Removal {
                        storage: self.storage(),
                        words: words_of(views, results@),
                        loose: detached@,
                    },
                    config,
                    views,
                    if start == 0 {
                        0
                    } else {
                        items@[start - 1].bucket + 1
                    },
                    release_now,
                ),
                start > 0 && start < count ==> items@[start - 1].bucket
                    < items@[start as int].bucket,
                forall|i: int|
                    start <= i < count ==> results@[(#[trigger] items@[i]).order as int] is None,
                sound ==> {
                    &&& sorted_out(config, entries)
                    &&& self.storage().holds(chains@, nodes_of(detached@), blobs_of(detached@))
                    &&& detached_from(self.storage(), detached@)
                    &&& stripped_below(
                        entries,
                        self.storage().entries(chains@),
                        views,
                        if start == 0 {
                            0
                        } else {
                            items@[start - 1].bucket + 1
                        },
                    )
                    &&& forall|i: int|
                        0 <= i < start ==> result_taken(
                            first,
                            entries,
                            views[(#[trigger] items@[i]).order as int],
                            results@[items@[i].order as int],
                            !release_now,
                        )
                    &&& !release_now ==> self.storage().blobs == first.blobs
                    &&& release_now ==> detached@.len() == 0
                },
            decreases count - start,
        {
            let end: usize = group_end(items, start);
            let ghost now = self.storage();
            let ghost earlier = chains@;
            let ghost before = results@;
            proof {
                assert(prepares(config, views, true, items@[start as int]));
                crate::outcomes::lemma_bucket(config, views[items@[start as int].order as int]);
                lemma_group_keys(config, views, items@, before, start as int, end as int);
                lemma_buckets_skipped(
                    Removal { storage: now, words: words_of(views, before), loose: detached@ },
                    config,
                    views,
                    if start == 0 {
                        0
                    } else {
                        items@[start - 1].bucket + 1
                    },
                    items@[start as int].bucket as int,
                    release_now,
                );
                reveal_with_fuel(removal_from, 2);
                if sound {
                    lemma_bucket_room(now, earlier, config, views, items@, start as int);
                }
            }
            self.remove_bucket_batch(
                keys,
                items,
                start,
                end,
                results,
                detached,
                release_now,
                chains,
            )?;
            proof {
                assert(items@[end - 1].bucket == items@[start as int].bucket);
                assert forall|i: int| end <= i < count implies results@[(
                #[trigger] items@[i]).order as int] is None by {
                    assert(before[items@[i].order as int] is None);
                }
                if sound {
                    let bucket = items@[start as int].bucket as int;
                    lemma_group_stripped(
                        config,
                        entries,
                        now.entries(earlier),
                        self.storage().entries(chains@),
                        views,
                        items@,
                        before,
                        start as int,
                        end as int,
                    );
                    assert forall|i: int| 0 <= i < end implies result_taken(
                        first,
                        entries,
                        views[(#[trigger] items@[i]).order as int],
                        results@[items@[i].order as int],
                        !release_now,
                    ) by {
                        assert(prepares(config, views, true, items@[i]));
                        if i < start {
                            let order = items@[i].order as int;
                            assert(results@[order] == before[order]);
                        }
                    }
                }
            }
            start = end;
        }
        proof {
            lemma_groups_done(
                Removal {
                    storage: self.storage(),
                    words: words_of(views, results@),
                    loose: detached@,
                },
                config,
                views,
                items@,
                release_now,
            );
            if sound {
                lemma_all_stripped(
                    config,
                    entries,
                    self.storage().entries(chains@),
                    views,
                    items@,
                );
                assert forall|order: int|
                    #![trigger results@[order]]
                    0 <= order < results@.len() implies result_taken(
                    first,
                    entries,
                    views[order],
                    results@[order],
                    !release_now,
                ) by {
                    assert(has_order(items@, order));
                    let i = choose|i: int|
                        0 <= i < items@.len() && (#[trigger] items@[i]).order == order;
                    assert(items@[i].order == order);
                }
            }
        }
        Ok(())
    }

    /// Releases a node that was taken out of its chain, and its blob.
    fn release_detached(&mut self, node: &LooseNode) -> (result: Result<(), Error>)
        requires
            old(self).wf(),
            node.body.offset + NODE_SIZE <= u64::MAX,
        ensures
            final(self).wf(),
            final(self).config == old(self).config,
            (final(self).storage(), result) == release_outcome(old(self).storage(), *node),
    {
        crate::node::tombstone_node(&mut self.body, node.body.offset)?;
        if let Some(allocation) = node.blob {
            if let Some(blobs) = &mut self.blobs {
                blobs.release(allocation)?;
            }
        }
        self.body.release(node.body)
    }

    /// Releases nodes that were taken out of their chains, the last one first, and
    /// reports the first failure.
    pub(crate) fn release_detached_batch(
        &mut self,
        detached: &Vec<LooseNode>,
        chains: Ghost<Seq<Seq<u64>>>,
    ) -> (result: Result<(), Error>)
        requires
            old(self).wf(),
            bounded(detached@),
        ensures
            final(self).wf(),
            final(self).config == old(self).config,
            (final(self).storage(), result) == release_all(old(self).storage(), detached@),
            old(self).storage().holds(chains@, nodes_of(detached@), blobs_of(detached@))
                && detached_from(old(self).storage(), detached@) ==> {
                &&& result == Ok::<(), Error>(())
                &&& final(self).storage().holds(chains@, Set::empty(), Map::empty())
                &&& final(self).storage().entries(chains@) == old(self).storage().entries(chains@)
            },
    {
        let ghost first = self.storage();
        let ghost list = detached@;
        let ghost sound = first.holds(chains@, nodes_of(list), blobs_of(list)) && detached_from(
            first,
            list,
        );
        let mut first_error: Result<(), Error> = Ok(());
        let mut left: usize = detached.len();
        assert(list.take(list.len() as int) =~= list);
        while left > 0
            invariant
                self.wf(),
                self.config == old(self).config,
                list == detached@,
                left <= detached.len(),
                bounded(list),
                first == old(self).storage(),
                ({
                    let (rest, later) = release_all(self.storage(), list.take(left as int));
                    release_all(first, list) == (rest, match first_error {
                        Err(error) => Err::<(), Error>(error),
                        Ok(_) => later,
                    })
                }),
                sound == (first.holds(chains@, nodes_of(list), blobs_of(list)) && detached_from(
                    first,
                    list,
                )),
                sound ==> {
                    let rest = list.take(left as int);
                    &&& first_error == Ok::<(), Error>(())
                    &&& self.storage().holds(chains@, nodes_of(rest), blobs_of(rest))
                    &&& detached_from(self.storage(), rest)
                    &&& self.storage().entries(chains@) == first.entries(chains@)
                },
            decreases left,
        {
            left = left - 1;
            let ghost now = self.storage();
            proof {
                assert(list.take(left + 1).drop_last() =~= list.take(left as int));
                assert(list.take(left + 1).last() == list[left as int]);
                if sound {
                    lemma_detached_released(now, chains@, list.take(left + 1));
                }
            }
            let released = self.release_detached(&detached[left]);
            if released.is_err() && first_error.is_ok() {
                first_error = released;
            }
        }
        proof {
            assert(list.take(left as int).len() == 0);
            if let Ok(done) = first_error {
                assert(done == ());
            }
        }
        first_error
    }
}

/// The bucket of a prepared key is one of the buckets.
proof fn lemma_bucket_room(
    storage: Storage,
    chains: Seq<Seq<u64>>,
    config: Config,
    views: Seq<Seq<u8>>,
    items: Seq<Prepared>,
    item: int,
)
    requires
        storage.config == config,
        config.valid(),
        storage.chains_hold(chains),
        prepared_for(config, views, true, items),
        0 <= item < items.len(),
    ensures
        items[item].bucket < storage.entries(chains).len(),
{
    assert(prepares(config, views, true, items[item]));
    crate::outcomes::lemma_bucket(config, views[items[item].order as int]);
}

/// The last node of a list can be released, which leaves the rest of the list.
proof fn lemma_detached_released(
    storage: Storage,
    chains: Seq<Seq<u64>>,
    list: Seq<LooseNode>,
)
    requires
        storage.holds(chains, nodes_of(list), blobs_of(list)),
        detached_from(storage, list),
        list.len() > 0,
    ensures
        ({
            let rest = list.drop_last();
            let node = list.last();
            let after = removed(storage, node.body, node.blob);
            &&& word_access_defect(
                storage.body.capacity(),
                storage.body.data.len() as int,
                node.body.offset + NODE_POINTER_OFFSET,
            ) is None
            &&& release_defect(storage.body.pages, node.body) is None
            &&& node.blob matches Some(blob) ==> storage.blobs is Some
                && release_defect(storage.blobs->0.pages, blob) is None
            &&& after.holds(chains, nodes_of(rest), blobs_of(rest))
            &&& detached_from(after, rest)
            &&& after.entries(chains) == storage.entries(chains)
        }),
{
    let rest = list.drop_last();
    let node = list.last();
    let nodes = nodes_of(list);
    let blobs = blobs_of(list);
    let after = removed(storage, node.body, node.blob);
    let offset = node.body.offset as int;
    crate::transitions::lemma_private_node(storage, chains, nodes, blobs, offset);
    if let Some(blob) = node.blob {
        let at = blob.offset as int;
        assert(blobs.dom().contains(at));
        assert(storage.live_blobs(chains, blobs)[at] == blob.length);
        crate::transitions::lemma_blob_releasable(storage, chains, nodes, blobs, at);
        assert(blobs.remove(at) =~= blobs_of(rest));
    }
    crate::outcomes::lemma_removed(storage, chains, nodes, blobs, node.body, node.blob);
    assert(nodes.remove(offset) =~= nodes_of(rest));
    crate::removal::lemma_detached_kept(storage, after, rest);
}

/// Why a batch of keys is rejected before anything is taken out, if it is.
pub open spec fn batch_defect(views: Seq<Seq<u8>>) -> Option<Error> {
    if keys_defect(views) is Some {
        keys_defect(views)
    } else if !all_distinct(views) {
        Some(Error::InvalidConfig("batch_delete keys must be globally unique"))
    } else {
        None
    }
}

/// A batch of keys is taken exactly where each has sixteen bytes and no two are the same.
pub proof fn law_batch_of_keys(views: Seq<Seq<u8>>)
    ensures
        batch_defect(views) is None <==> {
            &&& forall|i: int| 0 <= i < views.len() ==> (#[trigger] views[i]).len() == 16
            &&& forall|i: int, j: int|
                0 <= i < j < views.len() ==> #[trigger] views[i] != #[trigger] views[j]
        },
{
    crate::prepared::lemma_keys_defect(views);
}

/// Whether a batch deletion did to the files what it has to, and tells so: each key
/// whose node was taken out was deleted, and a damaged chain ends the batch.
pub open spec fn deletion_report(
    before: Storage,
    keys: Seq<&[u8]>,
    after: Storage,
    result: Result<Vec<bool>, Error>,
) -> bool {
    let (removal, outcome) = removal_outcome(before, key_views(keys), true);
    &&& after == removal.storage
    &&& match outcome {
        Err(error) => result == Err::<Vec<bool>, Error>(error),
        Ok(_) => {
            &&& result is Ok
            &&& result->Ok_0@.len() == keys.len()
            &&& forall|i: int|
                #![trigger result->Ok_0@[i]]
                0 <= i < keys.len() ==> result->Ok_0@[i] == removal.words.dom().contains(keys[i]@)
        },
    }
}

/// The value word of a key, if it has one.
pub open spec fn word_for(words: Map<Seq<u8>, u64>, key: Seq<u8>) -> Option<u64> {
    if words.dom().contains(key) {
        Some(words[key])
    } else {
        None
    }
}

/// Whether a batch pop did to the files what it has to, and tells so: the nodes taken
/// out are released whatever happens, and the values are those that they had. A
/// damaged chain, a value that cannot be read and a node that cannot be released are
/// reported in this order.
pub open spec fn pop_report(
    before: Storage,
    keys: Seq<&[u8]>,
    after: Storage,
    result: Result<Vec<Option<Vec<u8>>>, Error>,
) -> bool {
    let (removal, outcome) = removal_outcome(before, key_views(keys), false);
    let (rest, released) = release_all(removal.storage, removal.loose);
    let slots = key_views(keys).map_values(|key: Seq<u8>| word_for(removal.words, key));
    &&& after == rest
    &&& match outcome {
        Err(error) => result == Err::<Vec<Option<Vec<u8>>>, Error>(error),
        Ok(_) => match result {
            Ok(values) => {
                &&& released is Ok
                &&& values@.len() == keys.len()
                &&& forall|i: int|
                    #![trigger values@[i]]
                    0 <= i < keys.len() ==> stands_for(
                        removal.storage,
                        word_for(removal.words, keys[i]@),
                        values@[i],
                    )
            },
            Err(error) => {
                ||| exists|i: int|
                    0 <= i < keys.len() && first_unreadable(
                        removal.storage,
                        slots,
                        #[trigger] slots[i],
                        error,
                    )
                ||| released == Err::<(), Error>(error) && forall|i: int|
                    0 <= i < keys.len() ==> unreadable(
                        removal.storage,
                        word_for(removal.words, (#[trigger] keys[i])@),
                    ) is None
            },
        },
    }
}

/// Why the value that a word stands for cannot be read, if it cannot.
pub open spec fn unreadable(storage: Storage, word: Option<u64>) -> Option<Error> {
    match word {
        Some(word) => crate::values::value_defect(storage.blobs, word),
        None => None,
    }
}

/// The value words of a batch are its results.
proof fn lemma_words(views: Seq<Seq<u8>>, results: Seq<Option<u64>>, order: int)
    requires
        all_distinct(views),
        results.len() == views.len(),
        0 <= order < views.len(),
    ensures
        word_for(words_of(views, results), views[order]) == results[order],
{
    assert(views.contains(views[order]));
    assert(views[views.index_of(views[order])] == views[order]);
    assert(views.index_of(views[order]) == order);
}

/// A list of results that are all open.
fn no_results(count: usize) -> (results: Vec<Option<u64>>)
    ensures
        results@.len() == count,
        results.len() == count,
        forall|i: int| 0 <= i < count ==> #[trigger] results@[i] is None,
{
    let mut results: Vec<Option<u64>> = Vec::new();
    while results.len() < count
        invariant
            results@.len() <= count,
            forall|i: int| 0 <= i < results@.len() ==> #[trigger] results@[i] is None,
        decreases count - results.len(),
    {
        results.push(None);
    }
    results
}

impl Table {
    /// Deletes the first node of each key of a batch, and tells for each key whether
    /// there was one.
    pub fn batch_delete(&mut self, keys: &[&[u8]], chains: &mut Ghost<Seq<Seq<u64>>>) -> (result:
        Result<Vec<bool>, Error>)
        requires
            old(self).wf(),
        ensures
            final(self).wf(),
            final(self).config == old(self).config,
            result matches Ok(deleted) ==> deleted@.len() == keys@.len(),
            match batch_defect(key_views(keys@)) {
                Some(error) => result == Err::<Vec<bool>, Error>(error) && final(self).storage()
                    == old(self).storage() && final(chains)@ == old(chains)@,
                None => {
                    let before = old(self).storage();
                    let after = final(self).storage();
                    let entries = before.entries(old(chains)@);
                    &&& deletion_report(before, keys@, after, result)
                    &&& before.holds(old(chains)@, Set::empty(), Map::empty()) ==> {
                        &&& after.holds(final(chains)@, Set::empty(), Map::empty())
                        &&& after.entries(final(chains)@) == entries_stripped(
                            entries,
                            key_views(keys@),
                        )
                        &&& result matches Ok(deleted) && deleted@.len() == keys@.len() && forall|
                            i: int,
                        |
                            0 <= i < keys@.len() ==> #[trigger] deleted@[i] == (value_for(
                                old(self).config,
                                entries,
                                keys@[i]@,
                            ) is Some)
                    }
                },
            },
    {
        let ghost views = key_views(keys@);
        let ghost before = self.storage();
        let ghost entries = before.entries(chains@);
        let ghost sound = before.holds(chains@, Set::empty(), Map::empty());
        let items = prepare(&self.config, keys, true)?;
        validate_unique_batch_keys(keys, &items, Ghost(self.config))?;
        let count: usize = items.len();
        let mut results = no_results(count);
        let mut detached: Vec<LooseNode> = Vec::new();
        self.remove_groups(keys, &items, &mut results, &mut detached, true, chains)?;
        let mut deleted: Vec<bool> = Vec::new();
        let mut order: usize = 0;
        while order < count
            invariant
                count == results.len(),
                order <= count,
                deleted@.len() == order,
                forall|i: int|
                    0 <= i < order ==> #[trigger] deleted@[i] == (results@[i] is Some),
            decreases count - order,
        {
            deleted.push(results[order].is_some());
            order = order + 1;
        }
        proof {
            assert forall|i: int|
                #![trigger deleted@[i]]
                0 <= i < keys@.len() implies deleted@[i] == words_of(
                views,
                results@,
            ).dom().contains(keys@[i]@) by {
                assert(views[i] == keys@[i]@);
                lemma_words(views, results@, i);
            }
            if sound {
                assert(nodes_of(detached@) =~= Set::empty());
                assert(blobs_of(detached@) =~= Map::empty());
                assert forall|i: int| 0 <= i < keys@.len() implies #[trigger] deleted@[i] == (
                value_for(self.config, entries, keys@[i]@) is Some) by {
                    assert(views[i] == keys@[i]@);
                    assert(result_taken(before, entries, views[i], results@[i], false));
                }
            }
        }
        Ok(deleted)
    }

    /// Deletes the first node of each key of a batch, and returns the values.
    pub fn batch_pop(&mut self, keys: &[&[u8]], chains: &mut Ghost<Seq<Seq<u64>>>) -> (result:
        Result<Vec<Option<Vec<u8>>>, Error>)
        requires
            old(self).wf(),
            old(self).config.mode == Mode::KeyMap,
        ensures
            final(self).wf(),
            final(self).config == old(self).config,
            result matches Ok(values) ==> values@.len() == keys@.len(),
            match batch_defect(key_views(keys@)) {
                Some(error) => {
                    &&& result == Err::<Vec<Option<Vec<u8>>>, Error>(error)
                    &&& final(self).storage() == old(self).storage()
                    &&& final(chains)@ == old(chains)@
                },
                None => {
                    let before = old(self).storage();
                    let after = final(self).storage();
                    let entries = before.entries(old(chains)@);
                    &&& pop_report(before, keys@, after, result)
                    &&& before.holds(old(chains)@, Set::empty(), Map::empty()) ==> {
                        &&& after.holds(final(chains)@, Set::empty(), Map::empty())
                        &&& after.entries(final(chains)@) == entries_stripped(
                            entries,
                            key_views(keys@),
                        )
                        &&& result is Ok
                        &&& values_for(old(self).config, entries, keys@, result->Ok_0@)
                    }
                },
            },
    {
        let ghost views = key_views(keys@);
        let ghost before = self.storage();
        let ghost entries = before.entries(chains@);
        let ghost sound = before.holds(chains@, Set::empty(), Map::empty());
        let items = prepare(&self.config, keys, true)?;
        validate_unique_batch_keys(keys, &items, Ghost(self.config))?;
        let mut encoded = no_results(items.len());
        let mut detached: Vec<LooseNode> = Vec::new();
        let removal = self.remove_groups(
            keys,
            &items,
            &mut encoded,
            &mut detached,
            false,
            chains,
        );
        let ghost taken = self.storage();
        let operation = match removal {
            Ok(_) => self.materialize_values(&encoded),
            Err(error) => Err(error),
        };
        let release = self.release_detached_batch(&detached, Ghost(chains@));
        proof {
            assert forall|i: int| 0 <= i < keys@.len() implies word_for(
                words_of(views, encoded@),
                (#[trigger] keys@[i])@,
            ) == encoded@[i] by {
                assert(views[i] == keys@[i]@);
                lemma_words(views, encoded@, i);
            }
            assert(views.map_values(|key: Seq<u8>| word_for(words_of(views, encoded@), key))
                =~= encoded@);
            if operation is Ok {
                let values = operation->Ok_0;
                assert forall|i: int|
                    #![trigger values@[i]]
                    0 <= i < keys@.len() implies stands_for(
                    taken,
                    word_for(words_of(views, encoded@), keys@[i]@),
                    values@[i],
                ) by {
                    assert(stands_for(taken, encoded@[i], values@[i]));
                    assert(word_for(words_of(views, encoded@), keys@[i]@) == encoded@[i]);
                }
                assert forall|i: int| 0 <= i < keys@.len() implies unreadable(
                    taken,
                    word_for(words_of(views, encoded@), (#[trigger] keys@[i])@),
                ) is None by {
                    assert(stands_for(taken, encoded@[i], values@[i]));
                }
            }
            if sound {
                assert forall|i: int| 0 <= i < encoded@.len() implies (
                #[trigger] encoded@[i] matches Some(word) ==> crate::values::value_defect(
                    before.blobs,
                    word,
                ) is None) by {
                    if let Some(word) = encoded@[i] {
                        assert(result_taken(before, entries, views[i], encoded@[i], true));
                        if word >= VALUE_BLOB_TAG {
                            crate::values::lemma_valid_blob_reads(
                                before.blobs->0,
                                word - VALUE_BLOB_TAG,
                            );
                        }
                    }
                }
                if operation is Ok {
                    let values = operation->Ok_0;
                    assert forall|i: int| 0 <= i < keys@.len() implies match value_for(
                        self.config,
                        entries,
                        keys@[i]@,
                    ) {
                        Some(value) => #[trigger] values@[i] matches Some(bytes) && bytes@ == value,
                        None => values@[i] is None,
                    } by {
                        assert(views[i] == keys@[i]@);
                        assert(result_taken(before, entries, views[i], encoded@[i], true));
                        assert(stands_for(
                            Storage { blobs: before.blobs, ..before },
                            encoded@[i],
                            values@[i],
                        ));
                    }
                }
            }
        }
        match operation {
            Err(error) => Err(error),
            Ok(values) => match release {
                Ok(_) => Ok(values),
                Err(error) => Err(error),
            },
        }
    }
}

} // verus!

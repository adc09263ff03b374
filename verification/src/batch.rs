//! Batch operations: keys are prepared together and every bucket chain is walked
//! once per batch.

use vstd::prelude::*;

use crate::bytes::same_bytes;
use crate::error::Error;
use crate::hash::xxh64;
#[allow(unused_imports)]
use crate::hash::digest;
use crate::config::KEY_SIZE;
use crate::layout::{NODE_SIZE_U64, VALUE_BLOB_TAG};
#[allow(unused_imports)]
use crate::node::{key_at, node_defect, value_at};
use crate::node::read_node;
#[allow(unused_imports)]
use crate::outcomes::lookup;
use crate::prepared::{prepare, sort, Prepared};
#[allow(unused_imports)]
use crate::prepared::{
    has_order, in_order, key_views, keys_defect, lemma_keys_defect, lemma_same_items, no_later,
    prepared_for, prepares,
};
#[allow(unused_imports)]
use crate::search::{search, walk, Walk};
#[allow(unused_imports)]
use crate::storage::{bucket_of, node_limit, word_value, Storage};
use crate::table::Table;
#[allow(unused_imports)]
use crate::table::get_outcome;
use crate::values::read_value;
#[allow(unused_imports)]
use crate::values::value_defect;

verus! {

/// Why a search did not come to an end, if it did not.
pub open spec fn walk_error(outcome: Walk) -> Option<Error> {
    match outcome {
        Walk::Broken(error) => Some(error),
        Walk::Endless => Some(Error::Corrupt("body chain contains a cycle")),
        _ => None,
    }
}

/// Whether `word` is the value word that a search for `key` comes upon.
pub open spec fn settled(storage: Storage, key: Seq<u8>, word: Option<u64>) -> bool {
    match word {
        Some(word) => lookup(storage, key) matches Walk::Found(_, offset) && value_at(
            storage.body.data,
            offset as int,
        ) == word,
        None => lookup(storage, key) is Missing,
    }
}

/// Number of items from `start` up to `end` whose result is open.
pub open spec fn open_results(
    items: Seq<Prepared>,
    results: Seq<Option<u64>>,
    start: int,
    end: int,
) -> int
    decreases end - start,
{
    if end <= start {
        0
    } else {
        open_results(items, results, start, end - 1) + (if results[items[end - 1].order as int]
            is None {
            1int
        } else {
            0
        })
    }
}

/// Where no result is open, none of the items is; where one is, some item is.
pub proof fn lemma_open_results(
    items: Seq<Prepared>,
    results: Seq<Option<u64>>,
    start: int,
    end: int,
)
    requires
        0 <= start <= end <= items.len(),
    ensures
        0 <= open_results(items, results, start, end) <= end - start,
        open_results(items, results, start, end) == 0 ==> forall|i: int|
            start <= i < end ==> results[(#[trigger] items[i]).order as int] is Some,
        open_results(items, results, start, end) > 0 ==> exists|i: int|
            start <= i < end && results[(#[trigger] items[i]).order as int] is None,
        (forall|i: int| start <= i < end ==> results[(#[trigger] items[i]).order as int] is None)
            ==> open_results(items, results, start, end) == end - start,
    decreases end - start,
{
    if start < end {
        lemma_open_results(items, results, start, end - 1);
        if open_results(items, results, start, end) > 0 {
            if results[items[end - 1].order as int] is None {
                assert(results[items[end - 1].order as int] is None);
            }
        }
    }
}

/// Settling the result of one item leaves one fewer open.
pub proof fn lemma_result_settled(
    items: Seq<Prepared>,
    results: Seq<Option<u64>>,
    start: int,
    end: int,
    item: int,
    word: u64,
)
    requires
        0 <= start <= end <= items.len(),
        0 <= item < items.len(),
        forall|i: int| 0 <= i < items.len() ==> (#[trigger] items[i]).order < results.len(),
        results[items[item].order as int] is None,
        forall|i: int, j: int|
            #![trigger items[i], items[j]]
            0 <= i < items.len() && 0 <= j < items.len() && items[i].order == items[j].order ==> i
                == j,
    ensures
        open_results(
            items,
            results.update(items[item].order as int, Some(word)),
            start,
            end,
        ) == open_results(items, results, start, end) - (if start <= item < end {
            1int
        } else {
            0
        }),
    decreases end - start,
{
    if start < end {
        lemma_result_settled(items, results, start, end - 1, item, word);
        assert(items[end - 1].order == items[item].order ==> end - 1 == item);
    }
}

/// The value word that a search for `key` comes upon, if it comes upon one.
pub open spec fn word_at(storage: Storage, key: Seq<u8>) -> Option<u64> {
    match lookup(storage, key) {
        Walk::Found(_, offset) => Some(value_at(storage.body.data, offset as int)),
        _ => None,
    }
}

/// Whether reading a batch of keys fails with `error`: the chain of the first bucket
/// with a damaged chain is reported, and a value that cannot be read only where no
/// chain is damaged.
pub open spec fn fetch_fails(storage: Storage, keys: Seq<Seq<u8>>, error: Error) -> bool {
    ||| exists|i: int|
        #![trigger keys[i]]
        {
            &&& 0 <= i < keys.len()
            &&& walk_error(lookup(storage, keys[i])) == Some(error)
            &&& forall|j: int|
                #![trigger lookup(storage, keys[j])]
                0 <= j < keys.len() && walk_error(lookup(storage, keys[j])) is Some ==> bucket_of(
                    storage.config,
                    keys[i],
                ) <= bucket_of(storage.config, keys[j])
        }
    ||| {
        let slots = keys.map_values(|key: Seq<u8>| word_at(storage, key));
        &&& forall|j: int|
            #![trigger lookup(storage, keys[j])]
            0 <= j < keys.len() ==> walk_error(lookup(storage, keys[j])) is None
        &&& exists|i: int|
            0 <= i < keys.len() && first_unreadable(storage, slots, #[trigger] slots[i], error)
    }
}

/// A batch that fails does so because reading one of its keys fails in the same way.
pub proof fn lemma_fetch_fails(storage: Storage, keys: Seq<Seq<u8>>, error: Error)
    requires
        fetch_fails(storage, keys, error),
        forall|i: int| 0 <= i < keys.len() ==> (#[trigger] keys[i]).len() == KEY_SIZE,
    ensures
        exists|i: int|
            0 <= i < keys.len() && get_outcome(storage, #[trigger] keys[i]) == Err::<
                Option<Seq<u8>>,
                Error,
            >(error),
{
    if exists|i: int|
        #![trigger keys[i]]
        0 <= i < keys.len() && walk_error(lookup(storage, keys[i])) == Some(error) {
        let i = choose|i: int|
            #![trigger keys[i]]
            0 <= i < keys.len() && walk_error(lookup(storage, keys[i])) == Some(error);
        assert(get_outcome(storage, keys[i]) == Err::<Option<Seq<u8>>, Error>(error));
    } else {
        let slots = keys.map_values(|key: Seq<u8>| word_at(storage, key));
        let i = choose|i: int|
            0 <= i < keys.len() && first_unreadable(storage, slots, #[trigger] slots[i], error);
        assert(slots[i] == word_at(storage, keys[i]));
        assert(get_outcome(storage, keys[i]) == Err::<Option<Seq<u8>>, Error>(error));
    }
}

/// First item from `start` up to `end` whose rank is no smaller than `rank`.
pub(crate) fn partition_point(
    items: &Vec<Prepared>,
    start: usize,
    end: usize,
    rank: u64,
) -> (first: usize)
    requires
        start <= end <= items.len(),
        forall|i: int, j: int|
            #![trigger items@[i], items@[j]]
            start <= i <= j < end ==> items@[i].rank <= items@[j].rank,
    ensures
        start <= first <= end,
        forall|i: int| start <= i < first ==> (#[trigger] items@[i]).rank < rank,
        forall|i: int| first <= i < end ==> (#[trigger] items@[i]).rank >= rank,
{
    let mut low: usize = start;
    let mut high: usize = end;
    while low < high
        invariant
            start <= low <= high <= end <= items.len(),
            forall|i: int, j: int|
                #![trigger items@[i], items@[j]]
                start <= i <= j < end ==> items@[i].rank <= items@[j].rank,
            forall|i: int| start <= i < low ==> (#[trigger] items@[i]).rank < rank,
            forall|i: int| high <= i < end ==> (#[trigger] items@[i]).rank >= rank,
        decreases high - low,
    {
        let middle: usize = low + (high - low) / 2;
        if items[middle].rank < rank {
            low = middle + 1;
        } else {
            high = middle;
        }
    }
    low
}

/// End of the group of items that have the bucket of the item at `start`.
pub(crate) fn group_end(items: &Vec<Prepared>, start: usize) -> (end: usize)
    requires
        start < items.len(),
        in_order(items@),
    ensures
        start < end <= items.len(),
        forall|i: int| start <= i < end ==> (#[trigger] items@[i]).bucket
            == items@[start as int].bucket,
        forall|i: int| end <= i < items@.len() ==> (#[trigger] items@[i]).bucket
            > items@[start as int].bucket,
{
    let bucket: u64 = items[start].bucket;
    let mut end: usize = start + 1;
    while end < items.len() && items[end].bucket == bucket
        invariant
            start < end <= items.len(),
            bucket == items@[start as int].bucket,
            forall|i: int| start <= i < end ==> (#[trigger] items@[i]).bucket == bucket,
        decreases items.len() - end,
    {
        end = end + 1;
    }
    assert forall|i: int| end <= i < items@.len() implies (#[trigger] items@[i]).bucket
        > bucket by {
        assert(no_later(items@[start as int], items@[end as int]));
        assert(no_later(items@[end as int], items@[i]));
    }
    end
}

impl Table {
    /// Looks up one group of keys of the same bucket in one walk along its chain.
    fn fetch_bucket_batch(
        &self,
        keys: &[&[u8]],
        items: &Vec<Prepared>,
        start: usize,
        end: usize,
        results: &mut Vec<Option<u64>>,
    ) -> (result: Result<(), Error>)
        requires
            self.wf(),
            prepared_for(self.config, key_views(keys@), true, items@),
            start < end <= items.len(),
            old(results).len() == keys.len(),
            forall|i: int|
                start <= i < end ==> (#[trigger] items@[i]).bucket == items@[start as int].bucket
                    && old(results)@[items@[i].order as int] is None,
        ensures
            final(results)@.len() == old(results)@.len(),
            forall|i: int|
                0 <= i < items@.len() && !(start <= i < end) ==> final(results)@[(
                #[trigger] items@[i]).order as int] == old(results)@[items@[i].order as int],
            match result {
                Ok(_) => forall|i: int|
                    start <= i < end ==> settled(
                        self.storage(),
                        key_views(keys@)[(#[trigger] items@[i]).order as int],
                        final(results)@[items@[i].order as int],
                    ),
                Err(error) => exists|i: int|
                    start <= i < end && walk_error(
                        lookup(
                            self.storage(),
                            key_views(keys@)[(#[trigger] items@[i]).order as int],
                        ),
                    ) == Some(error),
            },
    {
        let ghost views = key_views(keys@);
        let ghost files = self.body.files();
        let ghost before = results@;
        let bucket: u64 = items[start].bucket;
        let root: u64 = self.heads[bucket as usize];
        let limit: u64 = self.body.byte_capacity() / NODE_SIZE_U64 + 1;
        let mut remaining: usize = end - start;
        let mut current: u64 = root;
        let mut visited: u64 = 0;
        let ghost mut last: Option<u64> = None;
        proof {
            lemma_open_results(items@, results@, start as int, end as int);
            assert forall|i: int, j: int|
                #![trigger items@[i], items@[j]]
                start <= i <= j < end implies items@[i].rank <= items@[j].rank by {
                assert(no_later(items@[i], items@[j]));
            }
        }
        while current != 0
            invariant
                self.wf(),
                views == key_views(keys@),
                files == self.body.files(),
                prepared_for(self.config, views, true, items@),
                start < end <= items.len(),
                results.len() == keys.len(),
                before == old(results)@,
                before.len() == results@.len(),
                limit == node_limit(files.capacity()),
                visited <= limit,
                bucket < self.heads.len(),
                root == self.heads@[bucket as int],
                remaining == open_results(items@, results@, start as int, end as int),
                remaining > 0,
                forall|i: int| start <= i < end ==> (#[trigger] items@[i]).bucket == bucket,
                forall|i: int, j: int|
                    #![trigger items@[i], items@[j]]
                    start <= i <= j < end ==> items@[i].rank <= items@[j].rank,
                forall|i: int|
                    0 <= i < items@.len() && !(start <= i < end) ==> results@[(
                    #[trigger] items@[i]).order as int] == before[items@[i].order as int],
                forall|i: int|
                    start <= i < end ==> match results@[(#[trigger] items@[i]).order as int] {
                        Some(word) => settled(
                            self.storage(),
                            views[items@[i].order as int],
                            Some(word),
                        ),
                        None => lookup(self.storage(), views[items@[i].order as int]) == walk(
                            files,
                            last,
                            current,
                            views[items@[i].order as int],
                            (limit - visited) as nat,
                        ),
                    },
            decreases limit - visited,
        {
            proof {
                lemma_open_results(items@, results@, start as int, end as int);
            }
            if visited == limit {
                proof {
                    let i = choose|i: int|
                        start <= i < end && results@[(#[trigger] items@[i]).order as int] is None;
                    assert(walk_error(lookup(self.storage(), views[items@[i].order as int]))
                        == Some(Error::Corrupt("body chain contains a cycle")));
                }
                return Err(Error::Corrupt("body chain contains a cycle"));
            }
            let node = match read_node(&self.body, current) {
                Ok(node) => node,
                Err(error) => {
                    proof {
                        let i = choose|i: int|
                            start <= i < end && results@[(
                            #[trigger] items@[i]).order as int] is None;
                        assert(walk_error(lookup(self.storage(), views[items@[i].order as int]))
                            == Some(error));
                    }
                    return Err(error);
                },
            };
            let hash: u64 = xxh64(node.key.as_slice(), self.config.hash_seed);
            let first: usize = partition_point(items, start, end, hash);
            let mut index: usize = first;
            let ghost key = key_at(files.data, current as int);
            while index < end && items[index].rank == hash
                invariant
                    self.wf(),
                    views == key_views(keys@),
                    files == self.body.files(),
                    prepared_for(self.config, views, true, items@),
                    start <= first <= index <= end <= items.len(),
                    start < end,
                    results.len() == keys.len(),
                    before.len() == results@.len(),
                    limit == node_limit(files.capacity()),
                    visited < limit,
                    current != 0,
                    node_defect(files.capacity(), files.data, current as int) is None,
                    key == key_at(files.data, current as int),
                    node.key@ == key,
                    node.value == value_at(files.data, current as int),
                    hash == digest(key, self.config.hash_seed),
                    remaining == open_results(items@, results@, start as int, end as int),
                    forall|i: int| start <= i < first ==> (#[trigger] items@[i]).rank < hash,
                    forall|i: int| first <= i < index ==> (#[trigger] items@[i]).rank == hash,
                    forall|i: int|
                        0 <= i < items@.len() && !(start <= i < end) ==> results@[(
                        #[trigger] items@[i]).order as int] == before[items@[i].order as int],
                    forall|i: int|
                        start <= i < end ==> match results@[(#[trigger] items@[i]).order as int] {
                            Some(word) => settled(
                                self.storage(),
                                views[items@[i].order as int],
                                Some(word),
                            ),
                            None => lookup(self.storage(), views[items@[i].order as int]) == walk(
                                files,
                                last,
                                current,
                                views[items@[i].order as int],
                                (limit - visited) as nat,
                            ),
                        },
                    forall|i: int|
                        first <= i < index && results@[(#[trigger] items@[i]).order as int] is None
                            ==> views[items@[i].order as int] != key,
                decreases end - index,
            {
                let order: usize = items[index].order;
                if results[order].is_none() && same_bytes(keys[order], node.key.as_slice()) {
                    proof {
                        assert(views[order as int] == key);
                        assert forall|i: int| 0 <= i < items@.len() implies (
                        #[trigger] items@[i]).order < results@.len() by {
                            assert(prepares(self.config, views, true, items@[i]));
                        }
                        lemma_result_settled(
                            items@,
                            results@,
                            start as int,
                            end as int,
                            index as int,
                            node.value,
                        );
                        lemma_open_results(items@, results@, start as int, end as int);
                        lemma_open_results(
                            items@,
                            results@.update(order as int, Some(node.value)),
                            start as int,
                            end as int,
                        );
                    }
                    results.set(order, Some(node.value));
                    remaining = remaining - 1;
                }
                index = index + 1;
            }
            proof {
                assert forall|i: int|
                    start <= i < end && results@[(#[trigger] items@[i]).order as int]
                        is None implies views[items@[i].order as int] != key by {
                    if i >= index {
                        assert(items@[index as int].rank <= items@[i].rank);
                        assert(items@[index as int].rank != hash);
                    }
                    if items@[i].rank != hash {
                        assert(prepares(self.config, views, true, items@[i]));
                    }
                }
                lemma_open_results(items@, results@, start as int, end as int);
            }
            if remaining == 0 {
                return Ok(());
            }
            proof {
                last = Some(current);
            }
            current = node.next;
            visited = visited + 1;
        }
        Ok(())
    }
}

/// Whether `value` is what the value word in `slot` stands for.
pub open spec fn stands_for(
    storage: Storage,
    slot: Option<u64>,
    value: Option<Vec<u8>>,
) -> bool {
    match slot {
        None => value is None,
        Some(word) => {
            &&& value_defect(storage.blobs, word) is None
            &&& value matches Some(bytes) && bytes@ == word_value(storage.blobs, word)
        },
    }
}

/// Whether the value word in `slot` cannot be read because of `error`, and has the
/// least offset among the words that cannot be read.
pub open spec fn first_unreadable(
    storage: Storage,
    slots: Seq<Option<u64>>,
    slot: Option<u64>,
    error: Error,
) -> bool {
    &&& slot is Some
    &&& value_defect(storage.blobs, slot->0) == Some(error)
    &&& forall|j: int|
        #![trigger slots[j]]
        0 <= j < slots.len() && slots[j] is Some && value_defect(storage.blobs, slots[j]->0) is Some
            ==> slot->0 <= slots[j]->0
}

impl Table {
    /// Reads the values that value words stand for. Blobs are read in the order of
    /// their offsets.
    pub(crate) fn materialize_values(&self, encoded: &Vec<Option<u64>>) -> (result: Result<
        Vec<Option<Vec<u8>>>,
        Error,
    >)
        requires
            self.wf(),
        ensures
            match result {
                Ok(values) => {
                    &&& values@.len() == encoded@.len()
                    &&& forall|i: int|
                        0 <= i < values@.len() ==> stands_for(
                            self.storage(),
                            encoded@[i],
                            #[trigger] values@[i],
                        )
                },
                Err(error) => exists|i: int|
                    0 <= i < encoded@.len() && first_unreadable(
                        self.storage(),
                        encoded@,
                        #[trigger] encoded@[i],
                        error,
                    ),
            },
    {
        let ghost storage = self.storage();
        let count: usize = encoded.len();
        let mut results: Vec<Option<Vec<u8>>> = Vec::new();
        let mut blobs: Vec<Prepared> = Vec::new();
        let mut order: usize = 0;
        while order < count
            invariant
                self.wf(),
                storage == self.storage(),
                count == encoded.len(),
                order <= count,
                results@.len() == order,
                forall|i: int|
                    0 <= i < order && !(encoded@[i] matches Some(word) && word >= VALUE_BLOB_TAG)
                        ==> stands_for(storage, encoded@[i], #[trigger] results@[i]),
                forall|i: int|
                    0 <= i < blobs@.len() ==> (#[trigger] blobs@[i]).order < order
                        && encoded@[blobs@[i].order as int] == Some(
                        (VALUE_BLOB_TAG + blobs@[i].bucket) as u64,
                    ) && VALUE_BLOB_TAG + blobs@[i].bucket <= u64::MAX,
                forall|i: int|
                    0 <= i < order && (#[trigger] encoded@[i] matches Some(word) && word
                        >= VALUE_BLOB_TAG) ==> has_order(blobs@, i),
            decreases count - order,
        {
            let ghost before = blobs@;
            match encoded[order] {
                None => {
                    results.push(None);
                },
                Some(word) => {
                    if word < VALUE_BLOB_TAG {
                        let value = read_value(&self.blobs, word)?;
                        results.push(Some(value));
                    } else {
                        results.push(None);
                        blobs.push(
                            Prepared { bucket: word - VALUE_BLOB_TAG, rank: 0, order },
                        );
                        assert(blobs@[before.len() as int].order == order);
                    }
                },
            }
            proof {
                assert forall|i: int|
                    0 <= i < order + 1 && (#[trigger] encoded@[i] matches Some(word) && word
                        >= VALUE_BLOB_TAG) implies has_order(blobs@, i) by {
                    if i < order {
                        assert(has_order(before, i));
                        let k = choose|k: int|
                            0 <= k < before.len() && (#[trigger] before[k]).order == i;
                        assert(blobs@[k].order == i);
                    }
                }
            }
            order = order + 1;
        }
        let ghost unsorted = blobs@;
        let blobs = sort(blobs);
        proof {
            lemma_same_items(unsorted, blobs@);
            assert forall|i: int| 0 <= i < blobs@.len() implies (#[trigger] blobs@[i]).order < count
                && encoded@[blobs@[i].order as int] == Some(
                (VALUE_BLOB_TAG + blobs@[i].bucket) as u64,
            ) && VALUE_BLOB_TAG + blobs@[i].bucket <= u64::MAX by {
                assert(unsorted.contains(blobs@[i]));
            }
            assert forall|i: int|
                0 <= i < count && (#[trigger] encoded@[i] matches Some(word) && word
                    >= VALUE_BLOB_TAG) implies has_order(blobs@, i) by {
                assert(has_order(unsorted, i));
                let k = choose|k: int|
                    0 <= k < unsorted.len() && (#[trigger] unsorted[k]).order == i;
                assert(blobs@.contains(unsorted[k]));
            }
        }
        let mut next: usize = 0;
        while next < blobs.len()
            invariant
                self.wf(),
                storage == self.storage(),
                count == encoded.len(),
                results@.len() == count,
                next <= blobs.len(),
                in_order(blobs@),
                forall|i: int|
                    0 <= i < count && (#[trigger] encoded@[i] matches Some(word) && word
                        >= VALUE_BLOB_TAG) ==> has_order(blobs@, i),
                forall|i: int|
                    0 <= i < count && !(encoded@[i] matches Some(word) && word >= VALUE_BLOB_TAG)
                        ==> stands_for(storage, encoded@[i], #[trigger] results@[i]),
                forall|i: int|
                    0 <= i < blobs@.len() ==> (#[trigger] blobs@[i]).order < count
                        && encoded@[blobs@[i].order as int] == Some(
                        (VALUE_BLOB_TAG + blobs@[i].bucket) as u64,
                    ) && VALUE_BLOB_TAG + blobs@[i].bucket <= u64::MAX,
                forall|i: int|
                    0 <= i < next ==> stands_for(
                        storage,
                        encoded@[(#[trigger] blobs@[i]).order as int],
                        results@[blobs@[i].order as int],
                    ),
            decreases blobs.len() - next,
        {
            let item: Prepared = blobs[next];
            match read_value(&self.blobs, VALUE_BLOB_TAG + item.bucket) {
                Ok(value) => {
                    results.set(item.order, Some(value));
                },
                Err(error) => {
                    proof {
                        let slot = encoded@[item.order as int];
                        assert forall|j: int|
                            #![trigger encoded@[j]]
                            0 <= j < count && encoded@[j] is Some && value_defect(
                                storage.blobs,
                                encoded@[j]->0,
                            ) is Some implies slot->0 <= encoded@[j]->0 by {
                            assert(has_order(blobs@, j));
                            let k = choose|k: int|
                                0 <= k < blobs@.len() && (#[trigger] blobs@[k]).order == j;
                            assert(blobs@[k].order == j);
                            if k >= next {
                                assert(no_later(blobs@[next as int], blobs@[k]));
                            }
                        }
                        assert(first_unreadable(storage, encoded@, slot, error));
                    }
                    return Err(error);
                },
            }
            next = next + 1;
        }
        proof {
            assert forall|i: int| 0 <= i < count implies stands_for(
                storage,
                encoded@[i],
                #[trigger] results@[i],
            ) by {
                if encoded@[i] matches Some(word) && word >= VALUE_BLOB_TAG {
                    assert(has_order(blobs@, i));
                    let k = choose|k: int|
                        0 <= k < blobs@.len() && (#[trigger] blobs@[k]).order == i;
                    assert(blobs@[k].order == i);
                }
            }
        }
        Ok(results)
    }

    /// Reads the values of a batch of keys, in input order.
    #[verifier::spinoff_prover]
    #[verifier::rlimit(60)]
    pub fn batch_fetch(&self, keys: &[&[u8]]) -> (result: Result<Vec<Option<Vec<u8>>>, Error>)
        requires
            self.wf(),
        ensures
            match keys_defect(key_views(keys@)) {
                Some(error) => result == Err::<Vec<Option<Vec<u8>>>, Error>(error),
                None => match result {
                    Ok(values) => {
                        &&& values@.len() == keys@.len()
                        &&& forall|i: int|
                            0 <= i < keys@.len() ==> match get_outcome(
                                self.storage(),
                                keys@[i]@,
                            ) {
                                Ok(Some(value)) => #[trigger] values@[i] matches Some(bytes)
                                    && bytes@ == value,
                                Ok(None) => values@[i] is None,
                                Err(_) => false,
                            }
                    },
                    Err(error) => fetch_fails(self.storage(), key_views(keys@), error),
                },
            },
    {
        let ghost views = key_views(keys@);
        let ghost storage = self.storage();
        let items = prepare(&self.config, keys, true)?;
        let count: usize = items.len();
        let mut encoded: Vec<Option<u64>> = Vec::new();
        while encoded.len() < count
            invariant
                encoded@.len() <= count,
                forall|i: int| 0 <= i < encoded@.len() ==> #[trigger] encoded@[i] is None,
            decreases count - encoded.len(),
        {
            encoded.push(None);
        }
        proof {
            lemma_keys_defect(views);
        }
        let mut start: usize = 0;
        while start < count
            invariant
                self.wf(),
                storage == self.storage(),
                views == key_views(keys@),
                prepared_for(self.config, views, true, items@),
                keys_defect(views) is None,
                forall|i: int| 0 <= i < views.len() ==> (#[trigger] views[i]).len() == KEY_SIZE,
                count == items.len(),
                count == keys.len(),
                start <= count,
                encoded.len() == count,
                forall|i: int|
                    start <= i < count ==> encoded@[(#[trigger] items@[i]).order as int] is None,
                forall|i: int|
                    0 <= i < start ==> settled(
                        storage,
                        views[(#[trigger] items@[i]).order as int],
                        encoded@[items@[i].order as int],
                    ),
            decreases count - start,
        {
            let end: usize = group_end(&items, start);
            match self.fetch_bucket_batch(keys, &items, start, end, &mut encoded) {
                Ok(_) => {},
                Err(error) => {
                    proof {
                        let i = choose|i: int|
                            start <= i < end && walk_error(
                                lookup(storage, views[(#[trigger] items@[i]).order as int]),
                            ) == Some(error);
                        assert(prepares(self.config, views, true, items@[i]));
                        let order = items@[i].order as int;
                        assert forall|j: int|
                            #![trigger lookup(storage, views[j])]
                            0 <= j < views.len() && walk_error(lookup(storage, views[j]))
                                is Some implies bucket_of(storage.config, views[order])
                            <= bucket_of(storage.config, views[j]) by {
                            assert(has_order(items@, j));
                            let k = choose|k: int|
                                0 <= k < items@.len() && (#[trigger] items@[k]).order == j;
                            assert(prepares(self.config, views, true, items@[k]));
                            if k >= start {
                                assert(no_later(items@[start as int], items@[k]));
                            }
                        }
                        assert(walk_error(lookup(storage, views[order])) == Some(error));
                        assert(fetch_fails(storage, views, error));
                    }
                    return Err(error);
                },
            }
            start = end;
        }
        proof {
            assert forall|order: int| 0 <= order < count implies settled(
                storage,
                #[trigger] views[order],
                encoded@[order],
            ) by {
                assert(has_order(items@, order));
                let i = choose|i: int|
                    0 <= i < items@.len() && (#[trigger] items@[i]).order == order;
                assert(items@[i].order == order);
            }
        }
        match self.materialize_values(&encoded) {
            Ok(values) => {
                proof {
                    assert forall|i: int| 0 <= i < count implies match get_outcome(
                        storage,
                        keys@[i]@,
                    ) {
                        Ok(Some(value)) => #[trigger] values@[i] matches Some(bytes) && bytes@
                            == value,
                        Ok(None) => values@[i] is None,
                        Err(_) => false,
                    } by {
                        assert(stands_for(storage, encoded@[i], values@[i]));
                        assert(settled(storage, views[i], encoded@[i]));
                        assert(views[i].len() == KEY_SIZE);
                    }
                }
                Ok(values)
            },
            Err(error) => {
                proof {
                    let slots = views.map_values(|key: Seq<u8>| word_at(storage, key));
                    assert forall|j: int| 0 <= j < views.len() implies slots[j] == encoded@[j]
                        && walk_error(lookup(storage, #[trigger] views[j])) is None by {
                        assert(settled(storage, views[j], encoded@[j]));
                    }
                    assert(slots =~= encoded@);
                    assert(fetch_fails(storage, views, error));
                }
                Err(error)
            },
        }
    }
}

} // verus!

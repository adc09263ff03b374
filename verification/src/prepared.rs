//! Preparing a batch of keys: hashed, and sorted by bucket.

use vstd::prelude::*;

use crate::config::Config;
use crate::error::Error;
use crate::hash::{xxh64, xxh64_batch4};
#[allow(unused_imports)]
use crate::hash::digest;
#[allow(unused_imports)]
use crate::outcomes::key_defect;
#[allow(unused_imports)]
use crate::storage::bucket_of;
use crate::table::validate_key;

verus! {

/// One key of a batch.
#[derive(Clone, Copy, Debug, PartialEq, Eq, Structural)]
pub struct Prepared {
    /// Bucket of the key.
    pub bucket: u64,
    /// Hash of the key where the batch is sorted by hashes, zero otherwise.
    pub rank: u64,
    /// Index of the key in the batch.
    pub order: usize,
}

/// Whether `one` sorts no later than `two`: by bucket, then by rank, then by input
/// order.
pub open spec fn no_later(one: Prepared, two: Prepared) -> bool {
    one.bucket < two.bucket || (one.bucket == two.bucket && (one.rank < two.rank || (one.rank
        == two.rank && one.order <= two.order)))
}

/// Whether a batch is sorted.
pub open spec fn in_order(items: Seq<Prepared>) -> bool {
    forall|i: int, j: int|
        #![trigger items[i], items[j]]
        0 <= i <= j < items.len() ==> no_later(items[i], items[j])
}

/// The bytes of each key.
pub open spec fn key_views(keys: Seq<&[u8]>) -> Seq<Seq<u8>> {
    keys.map_values(|key: &[u8]| key@)
}

/// What is wrong with the first key that has a wrong width, if one has.
pub open spec fn keys_defect(keys: Seq<Seq<u8>>) -> Option<Error>
    decreases keys.len(),
{
    if keys.len() == 0 {
        None
    } else {
        match keys_defect(keys.drop_last()) {
            Some(error) => Some(error),
            None => key_defect(keys.last()),
        }
    }
}

/// Without a defect every key has the right width.
pub proof fn lemma_keys_defect(keys: Seq<Seq<u8>>)
    ensures
        keys_defect(keys) is None <==> forall|i: int|
            0 <= i < keys.len() ==> (#[trigger] keys[i]).len() == crate::config::KEY_SIZE,
    decreases keys.len(),
{
    if keys.len() > 0 {
        let front = keys.drop_last();
        lemma_keys_defect(front);
        if keys_defect(keys) is None {
            assert forall|i: int| 0 <= i < keys.len() implies (#[trigger] keys[i]).len()
                == crate::config::KEY_SIZE by {
                if i < front.len() {
                    assert(front[i] == keys[i]);
                }
            }
        }
        if forall|i: int|
            0 <= i < keys.len() ==> (#[trigger] keys[i]).len() == crate::config::KEY_SIZE {
            assert forall|i: int| 0 <= i < front.len() implies (#[trigger] front[i]).len()
                == crate::config::KEY_SIZE by {
                assert(front[i] == keys[i]);
            }
        }
    }
}

/// Whether `item` is what the key at its order becomes.
pub open spec fn prepares(
    config: Config,
    keys: Seq<Seq<u8>>,
    ranked: bool,
    item: Prepared,
) -> bool {
    &&& item.order < keys.len()
    &&& item.bucket == bucket_of(config, keys[item.order as int])
    &&& item.rank == (if ranked {
        digest(keys[item.order as int], config.hash_seed)
    } else {
        0
    })
}

/// Whether `items` holds each key of a batch once, sorted.
pub open spec fn prepared_for(
    config: Config,
    keys: Seq<Seq<u8>>,
    ranked: bool,
    items: Seq<Prepared>,
) -> bool {
    &&& items.len() == keys.len()
    &&& in_order(items)
    &&& forall|i: int|
        0 <= i < items.len() ==> prepares(config, keys, ranked, #[trigger] items[i])
    &&& forall|i: int, j: int|
        #![trigger items[i], items[j]]
        0 <= i < items.len() && 0 <= j < items.len() && items[i].order == items[j].order ==> i == j
    &&& forall|order: int| 0 <= order < keys.len() ==> #[trigger] has_order(items, order)
}

/// Whether some item stands for the key at `order`.
pub open spec fn has_order(items: Seq<Prepared>, order: int) -> bool {
    exists|i: int| 0 <= i < items.len() && (#[trigger] items[i]).order == order
}

/// Tests whether `one` sorts no later than `two`.
fn sorts_no_later(one: Prepared, two: Prepared) -> (result: bool)
    ensures
        result == no_later(one, two),
{
    one.bucket < two.bucket || (one.bucket == two.bucket && (one.rank < two.rank || (one.rank
        == two.rank && one.order <= two.order)))
}

/// Merges two sorted batches.
fn merge(left: &Vec<Prepared>, right: &Vec<Prepared>) -> (merged: Vec<Prepared>)
    requires
        in_order(left@),
        in_order(right@),
    ensures
        in_order(merged@),
        merged@.to_multiset() == (left@ + right@).to_multiset(),
{
    let mut merged: Vec<Prepared> = Vec::new();
    let mut i: usize = 0;
    let mut j: usize = 0;
    proof {
        assert(left@.take(0) + right@.take(0) =~= Seq::<Prepared>::empty());
    }
    while i < left.len() || j < right.len()
        invariant
            i <= left.len(),
            j <= right.len(),
            in_order(left@),
            in_order(right@),
            in_order(merged@),
            merged@.to_multiset() == (left@.take(i as int) + right@.take(j as int)).to_multiset(),
            forall|k: int, l: int|
                #![trigger merged@[k], left@[l]]
                0 <= k < merged@.len() && i <= l < left@.len() ==> no_later(merged@[k], left@[l]),
            forall|k: int, l: int|
                #![trigger merged@[k], right@[l]]
                0 <= k < merged@.len() && j <= l < right@.len() ==> no_later(
                    merged@[k],
                    right@[l],
                ),
        decreases left@.len() - i + right@.len() - j,
    {
        let ghost before = merged@;
        let ghost (a, b) = (left@.take(i as int), right@.take(j as int));
        if j == right.len() || (i < left.len() && sorts_no_later(left[i], right[j])) {
            merged.push(left[i]);
            proof {
                broadcast use vstd::multiset::group_multiset_axioms;

                let item = left@[i as int];
                vstd::seq_lib::to_multiset_build(a, item);
                vstd::seq_lib::to_multiset_build(before, item);
                assert(left@.take(i + 1) =~= a.push(item));
                vstd::seq_lib::lemma_multiset_commutative(a, b);
                vstd::seq_lib::lemma_multiset_commutative(a.push(item), b);
                assert(a.push(item).to_multiset().add(b.to_multiset()) =~= a.to_multiset().add(
                    b.to_multiset(),
                ).insert(item));
            }
            i = i + 1;
        } else {
            merged.push(right[j]);
            proof {
                broadcast use vstd::multiset::group_multiset_axioms;

                let item = right@[j as int];
                vstd::seq_lib::to_multiset_build(b, item);
                vstd::seq_lib::to_multiset_build(before, item);
                assert(right@.take(j + 1) =~= b.push(item));
                vstd::seq_lib::lemma_multiset_commutative(a, b);
                vstd::seq_lib::lemma_multiset_commutative(a, b.push(item));
                assert(a.to_multiset().add(b.push(item).to_multiset()) =~= a.to_multiset().add(
                    b.to_multiset(),
                ).insert(item));
            }
            j = j + 1;
        }
    }
    proof {
        assert(left@.take(i as int) =~= left@);
        assert(right@.take(j as int) =~= right@);
    }
    merged
}

/// Sorts a batch.
pub fn sort(items: Vec<Prepared>) -> (sorted: Vec<Prepared>)
    ensures
        in_order(sorted@),
        sorted@.to_multiset() == items@.to_multiset(),
    decreases items.len(),
{
    let count: usize = items.len();
    if count <= 1 {
        return items;
    }
    let middle: usize = count / 2;
    let mut left: Vec<Prepared> = Vec::new();
    let mut right: Vec<Prepared> = Vec::new();
    let mut i: usize = 0;
    while i < count
        invariant
            i <= count,
            count == items.len(),
            middle <= count,
            left@ == items@.subrange(
                0,
                if i < middle {
                    i as int
                } else {
                    middle as int
                },
            ),
            right@ == items@.subrange(
                middle as int,
                if i < middle {
                    middle as int
                } else {
                    i as int
                },
            ),
        decreases count - i,
    {
        let ghost (a, b) = (left@, right@);
        if i < middle {
            left.push(items[i]);
        } else {
            right.push(items[i]);
        }
        i = i + 1;
        assert(left@ =~= items@.subrange(
            0,
            if i < middle {
                i as int
            } else {
                middle as int
            },
        ));
        assert(right@ =~= items@.subrange(
            middle as int,
            if i < middle {
                middle as int
            } else {
                i as int
            },
        ));
    }
    let ghost (a, b) = (left@, right@);
    assert(items@ =~= a + b);
    let left = sort(left);
    let right = sort(right);
    proof {
        vstd::seq_lib::lemma_multiset_commutative(a, b);
        vstd::seq_lib::lemma_multiset_commutative(left@, right@);
    }
    merge(&left, &right)
}

/// Sorting keeps every item.
pub proof fn lemma_same_items(items: Seq<Prepared>, sorted: Seq<Prepared>)
    requires
        sorted.to_multiset() == items.to_multiset(),
    ensures
        forall|i: int| 0 <= i < sorted.len() ==> items.contains(#[trigger] sorted[i]),
        forall|i: int| 0 <= i < items.len() ==> sorted.contains(#[trigger] items[i]),
{
    broadcast use vstd::seq_lib::group_to_multiset_ensures;

    assert forall|i: int| 0 <= i < sorted.len() implies items.contains(#[trigger] sorted[i]) by {
        assert(sorted.contains(sorted[i]));
        assert(sorted.to_multiset().count(sorted[i]) > 0);
    }
    assert forall|i: int| 0 <= i < items.len() implies sorted.contains(#[trigger] items[i]) by {
        assert(items.contains(items[i]));
        assert(items.to_multiset().count(items[i]) > 0);
    }
}

/// Sorting keeps every item, and each once.
proof fn lemma_sorted_items(items: Seq<Prepared>, sorted: Seq<Prepared>)
    requires
        sorted.to_multiset() == items.to_multiset(),
        forall|i: int| 0 <= i < items.len() ==> (#[trigger] items[i]).order == i,
    ensures
        sorted.len() == items.len(),
        forall|i: int| 0 <= i < sorted.len() ==> items.contains(#[trigger] sorted[i]),
        forall|i: int| 0 <= i < items.len() ==> sorted.contains(#[trigger] items[i]),
        sorted.no_duplicates(),
{
    broadcast use vstd::seq_lib::group_to_multiset_ensures;

    assert(items.no_duplicates());
    items.lemma_multiset_has_no_duplicates();
    sorted.lemma_multiset_has_no_duplicates_conv();
    assert(sorted.len() == sorted.to_multiset().len());
    assert(items.len() == items.to_multiset().len());
    lemma_same_items(items, sorted);
}

/// Checks, hashes and sorts a batch of keys: by bucket, by hash where `ranked` is
/// set, and by input order.
pub fn prepare(config: &Config, keys: &[&[u8]], ranked: bool) -> (result: Result<
    Vec<Prepared>,
    Error,
>)
    requires
        config.valid(),
    ensures
        match result {
            Ok(items) => keys_defect(key_views(keys@)) is None && prepared_for(
                *config,
                key_views(keys@),
                ranked,
                items@,
            ),
            Err(error) => keys_defect(key_views(keys@)) == Some(error),
        },
{
    let ghost views = key_views(keys@);
    let count: usize = keys.len();
    let mut checked: usize = 0;
    while checked < count
        invariant
            count == keys.len(),
            checked <= count,
            views == key_views(keys@),
            keys_defect(views.take(checked as int)) is None,
        decreases count - checked,
    {
        let valid = validate_key(keys[checked]);
        proof {
            assert(views.take(checked + 1).drop_last() =~= views.take(checked as int));
            assert(views.take(checked + 1).last() == keys@[checked as int]@);
        }
        match valid {
            Ok(_) => {},
            Err(error) => {
                proof {
                    lemma_defect_of_prefix(views, checked + 1);
                }
                return Err(error);
            },
        }
        checked = checked + 1;
    }
    assert(views.take(count as int) =~= views);
    let items = hash_all(config, keys, ranked);
    let ghost unsorted = items@;
    let sorted = sort(items);
    proof {
        lemma_sorted_items(unsorted, sorted@);
        assert forall|i: int| 0 <= i < sorted@.len() implies prepares(
            *config,
            views,
            ranked,
            #[trigger] sorted@[i],
        ) by {
            assert(unsorted.contains(sorted@[i]));
        }
        assert forall|i: int, j: int|
            #![trigger sorted@[i], sorted@[j]]
            0 <= i < sorted@.len() && 0 <= j < sorted@.len() && sorted@[i].order
                == sorted@[j].order implies i == j by {
            assert(unsorted.contains(sorted@[i]));
            assert(unsorted.contains(sorted@[j]));
        }
        assert forall|order: int| 0 <= order < views.len() implies #[trigger] has_order(
            sorted@,
            order,
        ) by {
            assert(sorted@.contains(unsorted[order]));
            let i = choose|i: int| 0 <= i < sorted@.len() && sorted@[i] == unsorted[order];
            assert(sorted@[i].order == order);
        }
    }
    Ok(sorted)
}

/// A defect in a prefix is the defect of the whole.
proof fn lemma_defect_of_prefix(keys: Seq<Seq<u8>>, length: int)
    requires
        0 <= length <= keys.len(),
        keys_defect(keys.take(length)) is Some,
    ensures
        keys_defect(keys) == keys_defect(keys.take(length)),
    decreases keys.len() - length,
{
    if length < keys.len() {
        assert(keys.take(length + 1).drop_last() =~= keys.take(length));
        lemma_defect_of_prefix(keys, length + 1);
    } else {
        assert(keys.take(length) =~= keys);
    }
}

/// Hashes a batch of keys, four at a time.
fn hash_all(config: &Config, keys: &[&[u8]], ranked: bool) -> (items: Vec<Prepared>)
    requires
        config.valid(),
    ensures
        items@.len() == keys@.len(),
        forall|i: int|
            0 <= i < items@.len() ==> (#[trigger] items@[i]).order == i && prepares(
                *config,
                key_views(keys@),
                ranked,
                items@[i],
            ),
{
    let mut items: Vec<Prepared> = Vec::new();
    let count: usize = keys.len();
    let mut next: usize = 0;
    while next < count
        invariant
            config.valid(),
            count == keys.len(),
            next <= count,
            items@.len() == next,
            forall|i: int|
                0 <= i < items@.len() ==> (#[trigger] items@[i]).order == i && prepares(
                    *config,
                    key_views(keys@),
                    ranked,
                    items@[i],
                ),
        decreases count - next,
    {
        if count - next >= 4 {
            let hashes = xxh64_batch4(
                [keys[next], keys[next + 1], keys[next + 2], keys[next + 3]],
                config.hash_seed,
            );
            items.push(item_of(config, hashes[0], next, ranked));
            items.push(item_of(config, hashes[1], next + 1, ranked));
            items.push(item_of(config, hashes[2], next + 2, ranked));
            items.push(item_of(config, hashes[3], next + 3, ranked));
            next = next + 4;
        } else {
            items.push(item_of(config, xxh64(keys[next], config.hash_seed), next, ranked));
            next = next + 1;
        }
    }
    items
}

/// The item of the key at `order`, which has hash `hash`.
fn item_of(config: &Config, hash: u64, order: usize, ranked: bool) -> (item: Prepared)
    requires
        config.valid(),
    ensures
        item.bucket == hash % config.bucket_count,
        item.rank == (if ranked {
            hash
        } else {
            0
        }),
        item.order == order,
{
    Prepared {
        bucket: hash % config.bucket_count,
        rank: if ranked {
            hash
        } else {
            0
        },
        order,
    }
}

} // verus!

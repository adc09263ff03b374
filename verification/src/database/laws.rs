//! What operations do to the values of a key.
//!
//! A database is a stack of values for every key: a put or an add goes on top,
//! a read sees the top, and a delete takes it away.

use vstd::prelude::*;

#[allow(unused_imports)]
use super::{
    bucket_entries, entry_keys, entry_values, put_new_report, put_report, value_for, values_for,
    PutResult,
};
#[allow(unused_imports)]
use crate::config::Config;
#[allow(unused_imports)]
use crate::deletion::entries_stripped;
#[allow(unused_imports)]
use crate::error::Error;
#[allow(unused_imports)]
use crate::insertion::{entries_inserted, fronted};
#[allow(unused_imports)]
use crate::outcomes::{bucket_put, entries_deleted, PutOutcome};
#[allow(unused_imports)]
use crate::prepared::key_views;
#[allow(unused_imports)]
use crate::removal::stripped;
#[allow(unused_imports)]
use crate::storage::{
    bucket_of, first_index, is_first, lemma_first_index, lemma_has_first_index,
    lemma_no_first_index, Entry,
};

verus! {

/// The values that a bucket holds for `key`, the one that is read first.
pub open spec fn held(bucket: Seq<Entry>, key: Seq<u8>) -> Seq<Seq<u8>>
    decreases bucket.len(),
{
    if bucket.len() == 0 {
        Seq::empty()
    } else if bucket[0].key == key {
        seq![bucket[0].value] + held(bucket.drop_first(), key)
    } else {
        held(bucket.drop_first(), key)
    }
}

/// The values that a database holds for `key`, the one that is read first.
pub open spec fn values_of(config: Config, entries: Seq<Seq<Entry>>, key: Seq<u8>) -> Seq<
    Seq<u8>,
> {
    held(bucket_entries(config, entries, key), key)
}

/// A list without its first element, if it has one.
pub open spec fn without_first(values: Seq<Seq<u8>>) -> Seq<Seq<u8>> {
    if values.len() == 0 {
        values
    } else {
        values.drop_first()
    }
}

/// What two lists of entries hold is what they hold together.
proof fn lemma_held_joined(one: Seq<Entry>, two: Seq<Entry>, key: Seq<u8>)
    ensures
        held(one + two, key) == held(one, key) + held(two, key),
    decreases one.len(),
{
    if one.len() == 0 {
        assert(one + two =~= two);
        assert(held(one, key) + held(two, key) =~= held(two, key));
    } else {
        let rest = one.drop_first();
        lemma_held_joined(rest, two, key);
        assert((one + two).drop_first() =~= rest + two);
        if one[0].key == key {
            assert(seq![one[0].value] + (held(rest, key) + held(two, key)) =~= (seq![one[0].value]
                + held(rest, key)) + held(two, key));
        }
    }
}

/// One entry is held for its own key.
proof fn lemma_held_one(entry: Entry, key: Seq<u8>)
    ensures
        held(seq![entry], key) == (if entry.key == key {
            seq![entry.value]
        } else {
            Seq::<Seq<u8>>::empty()
        }),
{
    let list = seq![entry];
    assert(list.drop_first() =~= Seq::<Entry>::empty());
    assert(held(list.drop_first(), key) =~= Seq::<Seq<u8>>::empty());
    assert(seq![entry.value] + Seq::<Seq<u8>>::empty() =~= seq![entry.value]);
}

/// The first entry for a key is the first one held for it.
proof fn lemma_held_first(bucket: Seq<Entry>, key: Seq<u8>)
    ensures
        match first_index(bucket, key) {
            Some(index) => is_first(bucket, key, index) && held(bucket, key).len() > 0 && held(
                bucket,
                key,
            )[0] == bucket[index].value,
            None => held(bucket, key).len() == 0,
        },
    decreases bucket.len(),
{
    if bucket.len() == 0 {
        lemma_no_first_index(bucket, key);
    } else if bucket[0].key == key {
        assert(is_first(bucket, key, 0));
        lemma_first_index(bucket, key, 0);
    } else {
        let rest = bucket.drop_first();
        lemma_held_first(rest, key);
        match first_index(rest, key) {
            Some(index) => {
                assert forall|j: int| 0 <= j < index + 1 implies (#[trigger] bucket[j]).key
                    != key by {
                    if j > 0 {
                        assert(rest[j - 1] == bucket[j]);
                    }
                }
                assert(is_first(bucket, key, index + 1));
                lemma_first_index(bucket, key, index + 1);
            },
            None => {
                assert forall|j: int| 0 <= j < bucket.len() implies (#[trigger] bucket[j]).key
                    != key by {
                    if j > 0 && bucket[j].key == key {
                        assert(rest[j - 1] == bucket[j]);
                        lemma_has_first_index(rest, key, j - 1);
                    }
                }
                lemma_no_first_index(bucket, key);
            },
        }
    }
}

/// Without its first entry a key holds one value less, and every other key
/// what it held.
proof fn lemma_held_removed(bucket: Seq<Entry>, removed: Seq<u8>, index: int, key: Seq<u8>)
    requires
        is_first(bucket, removed, index),
    ensures
        held(bucket.remove(index), key) == (if key == removed {
            without_first(held(bucket, key))
        } else {
            held(bucket, key)
        }),
{
    let before = bucket.take(index);
    let behind = bucket.skip(index + 1);
    let entry = bucket[index];
    assert(bucket =~= before + (seq![entry] + behind));
    assert(bucket.remove(index) =~= before + behind);
    lemma_held_joined(before, seq![entry] + behind, key);
    lemma_held_joined(seq![entry], behind, key);
    lemma_held_joined(before, behind, key);
    lemma_held_one(entry, key);
    if key == removed {
        assert(held(before, key).len() == 0) by {
            assert forall|j: int|
                0 <= j < before.len() implies (#[trigger] before[j]).key != key by {
                assert(bucket[j].key != removed);
            }
            lemma_no_first_index(before, key);
            lemma_held_first(before, key);
        }
        assert(held(bucket, key) =~= seq![entry.value] + held(behind, key));
        assert(held(bucket, key).drop_first() =~= held(behind, key));
        assert(held(before, key) + held(behind, key) =~= held(behind, key));
    } else {
        assert(held(seq![entry], key) + held(behind, key) =~= held(behind, key));
    }
}

/// Where no two entries have one key, a key holds one value at most.
pub proof fn lemma_held_once(bucket: Seq<Entry>, key: Seq<u8>)
    requires
        forall|i: int, j: int|
            0 <= i < j < bucket.len() ==> (#[trigger] bucket[i]).key != (#[trigger] bucket[j]).key,
    ensures
        held(bucket, key).len() <= 1,
    decreases bucket.len(),
{
    if bucket.len() > 0 {
        let rest = bucket.drop_first();
        assert forall|i: int, j: int| 0 <= i < j < rest.len() implies (#[trigger] rest[i]).key != (
        #[trigger] rest[j]).key by {
            assert(bucket[i + 1].key != bucket[j + 1].key);
        }
        lemma_held_once(rest, key);
        if bucket[0].key == key {
            assert forall|j: int| 0 <= j < rest.len() implies (#[trigger] rest[j]).key != key by {
                assert(bucket[0].key != bucket[j + 1].key);
            }
            lemma_no_first_index(rest, key);
            lemma_held_first(rest, key);
        }
    }
}

/// Every key belongs to a bucket.
pub proof fn lemma_bucket_in_range(config: Config, key: Seq<u8>)
    requires
        config.bucket_count > 0,
    ensures
        0 <= bucket_of(config, key) < config.bucket_count,
{
    vstd::arithmetic::div_mod::lemma_mod_bound(
        crate::hash::digest(key, config.hash_seed) as int,
        config.bucket_count as int,
    );
}

/// A read sees the first value that is held for the key, and a key is absent
/// exactly when none is.
pub proof fn law_read_sees_first(config: Config, entries: Seq<Seq<Entry>>, key: Seq<u8>)
    ensures
        value_for(config, entries, key) == (if values_of(config, entries, key).len() > 0 {
            Some(values_of(config, entries, key)[0])
        } else {
            None
        }),
{
    lemma_held_first(bucket_entries(config, entries, key), key);
}

/// A put goes in front, in place of the value that was read so far. Every
/// other key keeps its values.
pub proof fn law_put(
    config: Config,
    entries: Seq<Seq<Entry>>,
    put: Seq<u8>,
    value: Seq<u8>,
    key: Seq<u8>,
)
    requires
        config.bucket_count > 0,
        entries.len() == config.bucket_count,
    ensures
        ({
            let after = entries.update(
                bucket_of(config, put),
                bucket_put(
                    bucket_entries(config, entries, put),
                    Entry { key: put, value },
                    true,
                ),
            );
            &&& values_of(config, after, key) == (if key == put {
                seq![value] + without_first(values_of(config, entries, key))
            } else {
                values_of(config, entries, key)
            })
            &&& value_for(config, after, key) == (if key == put {
                Some(value)
            } else {
                value_for(config, entries, key)
            })
        }),
{
    let bucket = bucket_entries(config, entries, put);
    let entry = Entry { key: put, value };
    let now = bucket_put(bucket, entry, true);
    let after = entries.update(bucket_of(config, put), now);
    lemma_bucket_in_range(config, put);
    lemma_bucket_in_range(config, key);
    lemma_held_first(bucket, put);
    match first_index(bucket, put) {
        Some(index) => {
            lemma_held_joined(seq![entry], bucket.remove(index), key);
            lemma_held_removed(bucket, put, index, key);
        },
        None => {
            lemma_held_joined(seq![entry], bucket, key);
        },
    }
    lemma_held_one(entry, key);
    if key != put {
        assert(Seq::<Seq<u8>>::empty() + held(bucket, key) =~= held(bucket, key));
    }
    law_read_sees_first(config, entries, key);
    law_read_sees_first(config, after, key);
}

/// A put of an absent key is an ordinary put; one of a present key changes
/// nothing.
pub proof fn law_put_new(
    config: Config,
    entries: Seq<Seq<Entry>>,
    put: Seq<u8>,
    value: Seq<u8>,
)
    requires
        config.bucket_count > 0,
        entries.len() == config.bucket_count,
    ensures
        ({
            let bucket = bucket_entries(config, entries, put);
            let entry = Entry { key: put, value };
            let after = entries.update(bucket_of(config, put), bucket_put(bucket, entry, false));
            if value_for(config, entries, put) is None {
                after == entries.update(bucket_of(config, put), bucket_put(bucket, entry, true))
            } else {
                after == entries
            }
        }),
{
    let bucket = bucket_entries(config, entries, put);
    lemma_bucket_in_range(config, put);
    assert(entries.update(bucket_of(config, put), bucket) =~= entries);
}

/// An add goes in front of everything that is held for the key. Every other
/// key keeps its values.
pub proof fn law_add(config: Config, entries: Seq<Seq<Entry>>, added: Entry, key: Seq<u8>)
    requires
        config.bucket_count > 0,
        entries.len() == config.bucket_count,
    ensures
        values_of(
            config,
            entries.update(
                bucket_of(config, added.key),
                seq![added] + bucket_entries(config, entries, added.key),
            ),
            key,
        ) == (if key == added.key {
            seq![added.value] + values_of(config, entries, key)
        } else {
            values_of(config, entries, key)
        }),
{
    let bucket = bucket_entries(config, entries, added.key);
    lemma_bucket_in_range(config, added.key);
    lemma_bucket_in_range(config, key);
    lemma_held_joined(seq![added], bucket, key);
    lemma_held_one(added, key);
    if key != added.key {
        assert(Seq::<Seq<u8>>::empty() + held(bucket, key) =~= held(bucket, key));
    }
}

/// A delete takes the value that was read so far. Every other key keeps its
/// values.
pub proof fn law_delete(
    config: Config,
    entries: Seq<Seq<Entry>>,
    deleted: Seq<u8>,
    key: Seq<u8>,
)
    requires
        config.bucket_count > 0,
        entries.len() == config.bucket_count,
    ensures
        values_of(config, entries_deleted(config, entries, deleted), key) == (if key == deleted {
            without_first(values_of(config, entries, key))
        } else {
            values_of(config, entries, key)
        }),
{
    let bucket = bucket_entries(config, entries, deleted);
    lemma_bucket_in_range(config, deleted);
    lemma_bucket_in_range(config, key);
    lemma_held_first(bucket, deleted);
    if let Some(index) = first_index(bucket, deleted) {
        lemma_held_removed(bucket, deleted, index, key);
    }
}

/// A key that holds one value at most is absent after a delete.
pub proof fn law_deleted_is_absent(config: Config, entries: Seq<Seq<Entry>>, key: Seq<u8>)
    requires
        config.bucket_count > 0,
        entries.len() == config.bucket_count,
        values_of(config, entries, key).len() <= 1,
    ensures
        value_for(config, entries_deleted(config, entries, key), key) is None,
{
    law_delete(config, entries, key, key);
    law_read_sees_first(config, entries_deleted(config, entries, key), key);
}

/// Deleting what was put gives back what other keys hold, and for the key
/// itself what was behind the value that the put replaced.
pub proof fn law_delete_undoes_put(
    config: Config,
    entries: Seq<Seq<Entry>>,
    put: Seq<u8>,
    value: Seq<u8>,
    key: Seq<u8>,
)
    requires
        config.bucket_count > 0,
        entries.len() == config.bucket_count,
    ensures
        ({
            let after = entries.update(
                bucket_of(config, put),
                bucket_put(
                    bucket_entries(config, entries, put),
                    Entry { key: put, value },
                    true,
                ),
            );
            values_of(config, entries_deleted(config, after, put), key) == (if key == put {
                without_first(values_of(config, entries, key))
            } else {
                values_of(config, entries, key)
            })
        }),
{
    let after = entries.update(
        bucket_of(config, put),
        bucket_put(bucket_entries(config, entries, put), Entry { key: put, value }, true),
    );
    law_put(config, entries, put, value, key);
    law_delete(config, after, put, key);
    if key == put {
        assert(without_first(seq![value] + without_first(values_of(config, entries, key)))
            =~= without_first(values_of(config, entries, key)));
    }
}

/// The values of a list for `key`, the last one first.
pub open spec fn listed(list: Seq<Entry>, key: Seq<u8>) -> Seq<Seq<u8>>
    decreases list.len(),
{
    if list.len() == 0 {
        Seq::empty()
    } else if list.last().key == key {
        seq![list.last().value] + listed(list.drop_last(), key)
    } else {
        listed(list.drop_last(), key)
    }
}

proof fn lemma_held_fronted(config: Config, list: Seq<Entry>, key: Seq<u8>)
    ensures
        held(fronted(config, list, bucket_of(config, key)), key) == listed(list, key),
    decreases list.len(),
{
    let bucket = bucket_of(config, key);
    if list.len() > 0 {
        let last = list.last();
        let rest = fronted(config, list.drop_last(), bucket);
        lemma_held_fronted(config, list.drop_last(), key);
        lemma_held_joined(seq![last], rest, key);
        lemma_held_one(last, key);
        if last.key != key {
            assert(Seq::<Seq<u8>>::empty() + held(rest, key) =~= held(rest, key));
        }
    }
}

/// A batch goes in front of what a key holds, its last value first; nothing
/// that was held is lost.
pub proof fn law_batch_retains_duplicates(
    config: Config,
    entries: Seq<Seq<Entry>>,
    list: Seq<Entry>,
    key: Seq<u8>,
)
    requires
        config.bucket_count > 0,
        entries.len() == config.bucket_count,
    ensures
        values_of(config, entries_inserted(config, entries, list), key) == listed(list, key)
            + values_of(config, entries, key),
{
    lemma_bucket_in_range(config, key);
    let bucket = bucket_of(config, key);
    lemma_held_joined(fronted(config, list, bucket), entries[bucket], key);
    lemma_held_fronted(config, list, key);
}

/// The entries after single adds of a list of entries.
pub open spec fn all_added(
    config: Config,
    entries: Seq<Seq<Entry>>,
    list: Seq<Entry>,
) -> Seq<Seq<Entry>>
    decreases list.len(),
{
    if list.len() == 0 {
        entries
    } else {
        let before = all_added(config, entries, list.drop_last());
        before.update(
            bucket_of(config, list.last().key),
            seq![list.last()] + bucket_entries(config, before, list.last().key),
        )
    }
}

/// A batch puts the entries where single adds in input order would put them.
pub proof fn law_batch_is_adds(config: Config, entries: Seq<Seq<Entry>>, list: Seq<Entry>)
    requires
        config.bucket_count > 0,
        entries.len() == config.bucket_count,
    ensures
        entries_inserted(config, entries, list) == all_added(config, entries, list),
    decreases list.len(),
{
    let inserted = entries_inserted(config, entries, list);
    let added = all_added(config, entries, list);
    if list.len() > 0 {
        let rest = list.drop_last();
        let last = list.last();
        law_batch_is_adds(config, entries, rest);
        lemma_bucket_in_range(config, last.key);
        assert forall|b: int| 0 <= b < entries.len() implies inserted[b] == #[trigger] added[b] by {
            let front = fronted(config, rest, b);
            assert(entries_inserted(config, entries, rest)[b] == front + entries[b]);
            if b == bucket_of(config, last.key) {
                assert((seq![last] + front) + entries[b] =~= seq![last] + (front + entries[b]));
            }
        }
    } else {
        assert forall|b: int| 0 <= b < entries.len() implies inserted[b] == #[trigger] added[b] by {
            assert(fronted(config, list, b) + entries[b] =~= entries[b]);
        }
    }
    assert(inserted =~= added);
}

/// After a batch a read of a key sees the last value that the batch has for it.
pub proof fn law_batch_last_is_read(
    config: Config,
    entries: Seq<Seq<Entry>>,
    list: Seq<Entry>,
    last: int,
)
    requires
        config.bucket_count > 0,
        entries.len() == config.bucket_count,
        0 <= last < list.len(),
        forall|i: int| last < i < list.len() ==> (#[trigger] list[i]).key != list[last].key,
    ensures
        value_for(config, entries_inserted(config, entries, list), list[last].key) == Some(
            list[last].value,
        ),
{
    let key = list[last].key;
    law_batch_retains_duplicates(config, entries, list, key);
    lemma_listed_last(list, last);
    law_read_sees_first(config, entries_inserted(config, entries, list), key);
}

proof fn lemma_listed_last(list: Seq<Entry>, last: int)
    requires
        0 <= last < list.len(),
        forall|i: int| last < i < list.len() ==> (#[trigger] list[i]).key != list[last].key,
    ensures
        listed(list, list[last].key).len() > 0,
        listed(list, list[last].key)[0] == list[last].value,
    decreases list.len(),
{
    if last < list.len() - 1 {
        lemma_listed_last(list.drop_last(), last);
    }
}

proof fn lemma_held_stripped(bucket: Seq<Entry>, pending: Set<Seq<u8>>, key: Seq<u8>)
    ensures
        held(stripped(bucket, pending), key) == (if pending.contains(key) {
            without_first(held(bucket, key))
        } else {
            held(bucket, key)
        }),
    decreases bucket.len(),
{
    if bucket.len() > 0 {
        let first = bucket[0];
        let rest = bucket.drop_first();
        if pending.contains(first.key) {
            lemma_held_stripped(rest, pending.remove(first.key), key);
            if first.key == key {
                assert(held(bucket, key).drop_first() =~= held(rest, key));
            }
        } else {
            lemma_held_stripped(rest, pending, key);
            lemma_held_joined(seq![first], stripped(rest, pending), key);
            lemma_held_one(first, key);
            if first.key != key {
                assert(Seq::<Seq<u8>>::empty() + held(stripped(rest, pending), key) =~= held(
                    stripped(rest, pending),
                    key,
                ));
            }
        }
    }
}

/// A batch removal takes from each key of the batch the value that was read
/// so far. Every other key keeps its values.
pub proof fn law_batch_removal(
    config: Config,
    entries: Seq<Seq<Entry>>,
    keys: Seq<Seq<u8>>,
    key: Seq<u8>,
)
    requires
        config.bucket_count > 0,
        entries.len() == config.bucket_count,
    ensures
        values_of(config, entries_stripped(entries, keys), key) == (if keys.contains(key) {
            without_first(values_of(config, entries, key))
        } else {
            values_of(config, entries, key)
        }),
{
    lemma_bucket_in_range(config, key);
    lemma_held_stripped(entries[bucket_of(config, key)], keys.to_set(), key);
    assert(keys.to_set().contains(key) == keys.contains(key));
}

/// A batch removal of distinct keys and single deletes of them leave every
/// key with the same values.
pub proof fn law_batch_removal_is_deletes(
    config: Config,
    entries: Seq<Seq<Entry>>,
    keys: Seq<Seq<u8>>,
    key: Seq<u8>,
)
    requires
        config.bucket_count > 0,
        entries.len() == config.bucket_count,
        keys.no_duplicates(),
    ensures
        values_of(config, entries_stripped(entries, keys), key) == values_of(
            config,
            all_deleted(config, entries, keys),
            key,
        ),
{
    law_batch_removal(config, entries, keys, key);
    lemma_all_deleted(config, entries, keys, key);
}

/// The entries after single deletes of a list of keys.
pub open spec fn all_deleted(
    config: Config,
    entries: Seq<Seq<Entry>>,
    keys: Seq<Seq<u8>>,
) -> Seq<Seq<Entry>>
    decreases keys.len(),
{
    if keys.len() == 0 {
        entries
    } else {
        entries_deleted(config, all_deleted(config, entries, keys.drop_last()), keys.last())
    }
}

proof fn lemma_all_deleted(
    config: Config,
    entries: Seq<Seq<Entry>>,
    keys: Seq<Seq<u8>>,
    key: Seq<u8>,
)
    requires
        config.bucket_count > 0,
        entries.len() == config.bucket_count,
        keys.no_duplicates(),
    ensures
        all_deleted(config, entries, keys).len() == entries.len(),
        values_of(config, all_deleted(config, entries, keys), key) == (if keys.contains(key) {
            without_first(values_of(config, entries, key))
        } else {
            values_of(config, entries, key)
        }),
    decreases keys.len(),
{
    if keys.len() > 0 {
        let rest = keys.drop_last();
        assert(rest.no_duplicates());
        lemma_all_deleted(config, entries, rest, key);
        law_delete(config, all_deleted(config, entries, rest), keys.last(), key);
        if keys.last() == key {
            assert(!rest.contains(key)) by {
                if rest.contains(key) {
                    let i = choose|i: int| 0 <= i < rest.len() && rest[i] == key;
                    assert(keys[i] == keys[keys.len() - 1]);
                }
            }
            assert(keys[keys.len() - 1] == key);
        } else {
            if rest.contains(key) {
                let i = choose|i: int| 0 <= i < rest.len() && rest[i] == key;
                assert(keys[i] == key);
            }
            if keys.contains(key) {
                let i = choose|i: int| 0 <= i < keys.len() && keys[i] == key;
                assert(rest[i] == key);
            }
        }
    }
}

/// What a batch tells is, for each key in its place, the value that is read first, and
/// nothing exactly where the key is absent.
pub proof fn law_values_are_told(
    config: Config,
    entries: Seq<Seq<Entry>>,
    keys: Seq<&[u8]>,
    values: Seq<Option<Vec<u8>>>,
)
    ensures
        values_for(config, entries, keys, values) <==> {
            &&& values.len() == keys.len()
            &&& forall|i: int|
                0 <= i < keys.len() ==> {
                    let held = values_of(config, entries, (#[trigger] keys[i])@);
                    if held.len() == 0 {
                        values[i] is None
                    } else {
                        values[i] is Some && values[i]->0@ == held[0]
                    }
                }
        },
{
    assert forall|i: int| 0 <= i < keys.len() implies value_for(
        config,
        entries,
        (#[trigger] keys[i])@,
    ) == (if values_of(config, entries, keys[i]@).len() > 0 {
        Some(values_of(config, entries, keys[i]@)[0])
    } else {
        None
    }) by {
        law_read_sees_first(config, entries, keys[i]@);
    }
    if values_for(config, entries, keys, values) {
        assert forall|i: int| 0 <= i < keys.len() implies {
            let held = values_of(config, entries, (#[trigger] keys[i])@);
            if held.len() == 0 {
                values[i] is None
            } else {
                values[i] is Some && values[i]->0@ == held[0]
            }
        } by {
            assert(values[i] == values[i]);
        }
    }
}

/// How a put is reported: a new key as inserted and a known one as replaced; a put of new
/// keys alone with whether the key was new. Failures stay what they are.
pub proof fn law_puts_are_reported(outcome: Result<PutOutcome, Error>)
    ensures
        put_report(outcome) == Ok::<PutResult, Error>(PutResult::Inserted) <==> outcome == Ok::<
            PutOutcome,
            Error,
        >(PutOutcome::Inserted),
        put_report(outcome) == Ok::<PutResult, Error>(PutResult::Replaced) <==> outcome == Ok::<
            PutOutcome,
            Error,
        >(PutOutcome::Replaced),
        put_new_report(outcome) == Ok::<bool, Error>(true) <==> outcome == Ok::<PutOutcome, Error>(
            PutOutcome::Inserted,
        ),
        put_new_report(outcome) == Ok::<bool, Error>(false) <==> outcome == Ok::<PutOutcome, Error>(
            PutOutcome::Existing,
        ),
        outcome matches Err(error) ==> put_report(outcome) == Err::<PutResult, Error>(error)
            && put_new_report(outcome) == Err::<bool, Error>(error),
{
}

/// Keys and values of a batch are those of its pairs, in their order.
pub proof fn law_batch_pairs(pairs: Seq<(&[u8], &[u8])>, keys: Seq<&[u8]>, index: int)
    requires
        0 <= index < pairs.len(),
        index < keys.len(),
    ensures
        entry_keys(pairs).len() == pairs.len(),
        entry_keys(pairs)[index] == pairs[index].0@,
        entry_values(pairs).len() == pairs.len(),
        entry_values(pairs)[index] == pairs[index].1@,
        key_views(keys).len() == keys.len(),
        key_views(keys)[index] == keys[index]@,
{
}

} // verus!

//! The room that the run of an input takes.
//!
//! An operation takes at most one node and one blob, and the run of an input has
//! no more operations than fit one page of each.

use vstd::prelude::*;

#[allow(unused_imports)]
use crate::allocator::batch_outcome;
#[allow(unused_imports)]
use crate::config::{Config, Mode};
#[allow(unused_imports)]
use crate::copying::{copies, entry_of, lists_of, Record};
#[allow(unused_imports)]
use crate::database::checkpoint::{entries_of_lists, kept_entries, lemma_entries_of_lists};
#[allow(unused_imports)]
use crate::database::laws::lemma_bucket_in_range;
#[allow(unused_imports)]
use crate::database::{bucket_entries, empty_storage};
#[allow(unused_imports)]
use crate::exercise::{input_config, lemma_input_config};
#[allow(unused_imports)]
use crate::layout::{power_of_two, round_up};
#[allow(unused_imports)]
use crate::load::utxo::{entry_count, lemma_entry_count, lemma_first_in_range};
#[allow(unused_imports)]
use crate::outcomes::{bucket_put, delete_outcome, entries_deleted, put_defect, put_outcome};
#[allow(unused_imports)]
use crate::pages::{free_page, lemma_claimed_step, lemma_free_page, longest_within, zero_run, Pages};
#[allow(unused_imports)]
use crate::snapshot::{
    all_firsts, all_turned, capture_defect, firsts, flat, lemma_firsts, packed, turned,
};
#[allow(unused_imports)]
use crate::storage::{bucket_of, first_index, Entry, Storage};

verus! {

/// Whether no more than `n` allocations of `unit` bytes were taken from the pages,
/// all of them from one page.
pub open spec fn modest(pages: Pages, unit: int, n: int) -> bool {
    &&& pages.block_size == 0x1_0000
    &&& pages.block_count == 16
    &&& match pages.open {
        None => pages.high_water == 0 && pages.counts.len() == 0,
        Some(page) => page.used as int % unit == 0 && page.used <= unit * n && page.live <= n,
    }
}

/// A page of modest pages has room for one more allocation.
proof fn lemma_modest_batch(pages: Pages, unit: int, alignment: int, n: int)
    requires
        modest(pages, unit, n),
        unit == 32 && alignment == 32 || unit == 16 && alignment == 8,
        0 <= n < 1_024,
    ensures
        ({
            let (after, result) = batch_outcome(pages, unit, alignment, 1);
            &&& result is Ok
            &&& modest(after, unit, n + 1)
            &&& after.open is Some
            &&& (after.open->0).live >= 1
            &&& (result->Ok_0).block == (after.open->0).block
        }),
{
    assert(power_of_two(alignment)) by {
        reveal_with_fuel(power_of_two, 7);
    }
    assert(round_up(unit, alignment) == unit);
    let ready = pages.readied(unit, alignment, unit);
    if pages.open is None {
        lemma_first_page(pages, unit);
    }
    let page = ready.open->0;
    assert(round_up(page.used as int, alignment) == page.used);
    assert(ready.reserved(unit, alignment, 1) == 1);
}

/// The first page is opened for the first allocation.
proof fn lemma_first_page(pages: Pages, bytes: int)
    requires
        pages.block_size == 0x1_0000,
        pages.block_count == 16,
        pages.open is None,
        pages.high_water == 0,
        pages.counts.len() == 0,
        0 < bytes <= 0x1_0000,
    ensures
        pages.claimed(bytes) == pages.grown(bytes).opened(0),
{
    let none = pages.counts.take(0);
    assert(free_page(none) is None) by {
        if free_page(none) is Some {
            let (s, n) = choose|s: int, n: int| longest_within(none, none.len() as int, s, n);
            assert(zero_run(none, s, n));
        }
    }
    lemma_claimed_step(pages, bytes);
    let grown = pages.grown(bytes);
    assert(pages.growth(bytes) == 1);
    let first = grown.counts.take(1);
    assert(first.len() == 1 && first[0] == 0);
    assert(zero_run(first, 0, 1));
    assert(longest_within(first, 1, 0, 1));
    lemma_free_page(first, 0, 1);
    lemma_claimed_step(grown, bytes);
}

/// Whether the run of `n` operations can have made these files.
pub open spec fn roomy(storage: Storage, n: int) -> bool {
    &&& modest(storage.body.pages, 32, n)
    &&& storage.blobs is Some
    &&& modest((storage.blobs->0).pages, 16, n)
}

/// A put of eight bytes finds room, and takes that of one operation.
pub proof fn lemma_put_roomy(
    storage: Storage,
    key: Seq<u8>,
    value: Seq<u8>,
    replace: bool,
    n: int,
)
    requires
        roomy(storage, n),
        0 <= n < 1_024,
        key.len() == 16,
        value.len() == 8,
    ensures
        put_defect(storage, value) is None,
        put_outcome(storage, key, value, replace).1 is Ok ==> roomy(
            put_outcome(storage, key, value, replace).0,
            n + 1,
        ),
{
    lemma_modest_batch(storage.body.pages, 32, 32, n);
    lemma_modest_batch((storage.blobs->0).pages, 16, 8, n);
}

/// A delete takes no room.
pub proof fn lemma_delete_roomy(storage: Storage, key: Seq<u8>, n: int)
    requires
        roomy(storage, n),
    ensures
        delete_outcome(storage, key).1 is Ok ==> roomy(delete_outcome(storage, key).0, n),
{
}

/// Copies of a few records find room in empty files.
pub proof fn lemma_copies_roomy(records: Seq<Record>)
    requires
        records.len() <= 1_024,
        forall|i: int|
            0 <= i < records.len() ==> (#[trigger] records[i]).inline is Some
                || records[i].value.len() == 8,
    ensures
        ({
            let empty = empty_storage(input_config());
            let (pages, blobs, defect) = copies(empty.body.pages, empty.blobs, records);
            &&& defect is None
            &&& modest(pages, 32, records.len() as int)
            &&& blobs is Some
            &&& modest((blobs->0).pages, 16, records.len() as int)
        }),
    decreases records.len(),
{
    let empty = empty_storage(input_config());
    if records.len() > 0 {
        let front = records.drop_last();
        assert forall|i: int| 0 <= i < front.len() implies (#[trigger] front[i]).inline is Some
            || front[i].value.len() == 8 by {
            assert(front[i] == records[i]);
        }
        lemma_copies_roomy(front);
        let (pages, blobs, defect) = copies(empty.body.pages, empty.blobs, front);
        lemma_modest_batch(pages, 32, 32, front.len() as int);
        lemma_modest_batch((blobs->0).pages, 16, 8, front.len() as int);
        assert(records[records.len() - 1] == records.last());
    }
}

/// Whether there are no more than `n` entries, with values of eight bytes.
pub open spec fn small(entries: Seq<Seq<Entry>>, n: int) -> bool {
    &&& entry_count(entries, entries.len()) <= n
    &&& forall|b: int, i: int|
        #![trigger entries[b][i]]
        0 <= b < entries.len() && 0 <= i < entries[b].len() ==> entries[b][i].value.len() == 8
}

/// Empty buckets hold no entry.
pub proof fn lemma_none_small(entries: Seq<Seq<Entry>>, count: nat)
    requires
        forall|b: int| 0 <= b < count ==> (#[trigger] entries[b]).len() == 0,
    ensures
        entry_count(entries, count) == 0,
    decreases count,
{
    if count > 0 {
        lemma_none_small(entries, (count - 1) as nat);
        assert(entries[count - 1].len() == 0);
    }
}

/// A put adds one entry at most.
pub proof fn lemma_put_small(
    config: Config,
    entries: Seq<Seq<Entry>>,
    entry: Entry,
    replace: bool,
    n: int,
)
    requires
        config.bucket_count > 0,
        entries.len() == config.bucket_count,
        small(entries, n),
        entry.value.len() == 8,
    ensures
        ({
            let bucket = bucket_of(config, entry.key);
            small(
                entries.update(
                    bucket,
                    bucket_put(bucket_entries(config, entries, entry.key), entry, replace),
                ),
                n + 1,
            )
        }),
{
    let bucket = bucket_of(config, entry.key);
    lemma_bucket_in_range(config, entry.key);
    let held = bucket_entries(config, entries, entry.key);
    let now = bucket_put(held, entry, replace);
    lemma_first_in_range(held, entry.key);
    lemma_entry_count(entries, bucket, now, entries.len());
    assert forall|i: int| 0 <= i < now.len() implies (#[trigger] now[i]).value.len() == 8 by {
        assert(now[i] == entry || exists|j: int|
            0 <= j < held.len() && now[i] == #[trigger] entries[bucket][j]) by {
            match first_index(held, entry.key) {
                None => {
                    if i > 0 {
                        assert(now[i] == entries[bucket][i - 1]);
                    }
                },
                Some(index) => if replace {
                    if 0 < i <= index {
                        assert(now[i] == entries[bucket][i - 1]);
                    } else if i > index {
                        assert(now[i] == entries[bucket][i]);
                    }
                } else {
                    assert(now[i] == entries[bucket][i]);
                },
            }
        }
    }
}

/// A delete adds no entry.
pub proof fn lemma_delete_small(config: Config, entries: Seq<Seq<Entry>>, key: Seq<u8>, n: int)
    requires
        config.bucket_count > 0,
        entries.len() == config.bucket_count,
        small(entries, n),
    ensures
        small(entries_deleted(config, entries, key), n),
{
    let bucket = bucket_of(config, key);
    let after = entries_deleted(config, entries, key);
    lemma_bucket_in_range(config, key);
    lemma_first_in_range(entries[bucket], key);
    if let Some(index) = first_index(entries[bucket], key) {
        let now = entries[bucket].remove(index);
        lemma_entry_count(entries, bucket, now, entries.len());
        assert forall|b: int, i: int|
            #![trigger after[b][i]]
            0 <= b < after.len() && 0 <= i < after[b].len() implies after[b][i].value.len()
            == 8 by {
            if b == bucket {
                let place = if i < index {
                    i
                } else {
                    i + 1
                };
                assert(after[b][i] == entries[bucket][place]);
            } else {
                assert(after[b][i] == entries[b][i]);
            }
        }
    }
}

/// Whether each list has as many records as the bucket has entries at most, and each
/// record a word or a value of eight bytes.
pub open spec fn within(lists: Seq<Seq<Record>>, entries: Seq<Seq<Entry>>) -> bool {
    &&& lists.len() == entries.len()
    &&& forall|b: int| 0 <= b < lists.len() ==> (#[trigger] lists[b]).len() <= entries[b].len()
    &&& forall|b: int, i: int|
        #![trigger lists[b][i]]
        0 <= b < lists.len() && 0 <= i < lists[b].len() ==> lists[b][i].inline is Some
            || lists[b][i].value.len() == 8
}

/// The records of lists are no more than the entries that they are within.
proof fn lemma_within(lists: Seq<Seq<Record>>, entries: Seq<Seq<Entry>>, count: int)
    requires
        within(lists, entries),
        0 <= count <= lists.len(),
    ensures
        flat(lists, count).len() <= entry_count(entries, count as nat),
        forall|i: int|
            0 <= i < flat(lists, count).len() ==> (#[trigger] flat(lists, count)[i]).inline is Some
                || flat(lists, count)[i].value.len() == 8,
    decreases count,
{
    if count > 0 {
        lemma_within(lists, entries, count - 1);
        let front = flat(lists, count - 1);
        let all = flat(lists, count);
        assert(lists[count - 1].len() <= entries[count - 1].len());
        assert forall|i: int| 0 <= i < all.len() implies (#[trigger] all[i]).inline is Some
            || all[i].value.len() == 8 by {
            if i < front.len() {
                assert(all[i] == front[i]);
            } else {
                assert(all[i] == lists[count - 1][i - front.len()]);
            }
        }
    }
}

/// A table that lists of few records were copied into has taken their room.
pub proof fn lemma_packed_roomy(
    storage: Storage,
    lists: Seq<Seq<Record>>,
    entries: Seq<Seq<Entry>>,
    n: int,
)
    requires
        storage.config == input_config(),
        packed(storage, lists),
        lists.len() == 64,
        entries == entries_of_lists(Mode::KeyMap, all_turned(lists)),
        small(entries, n),
        n <= 1_024,
    ensures
        roomy(storage, n),
{
    lemma_turned_within(lists, entries);
    lemma_within(lists, entries, 64);
    lemma_copies_roomy(flat(lists, 64));
}

/// Lists are within the entries that they stand for from back to front.
proof fn lemma_turned_within(lists: Seq<Seq<Record>>, entries: Seq<Seq<Entry>>)
    requires
        entries == entries_of_lists(Mode::KeyMap, all_turned(lists)),
        forall|b: int, i: int|
            #![trigger entries[b][i]]
            0 <= b < entries.len() && 0 <= i < entries[b].len() ==> entries[b][i].value.len() == 8,
    ensures
        within(lists, entries),
{
    assert forall|b: int| 0 <= b < lists.len() implies (#[trigger] lists[b]).len()
        == entries[b].len() by {
        assert(all_turned(lists)[b] == turned(lists[b], false));
    }
    assert forall|b: int, i: int|
        #![trigger lists[b][i]]
        0 <= b < lists.len() && 0 <= i < lists[b].len() implies lists[b][i].inline is Some
        || lists[b][i].value.len() == 8 by {
        let k = lists[b].len() - 1 - i;
        assert(all_turned(lists)[b] == turned(lists[b], false));
        assert(turned(lists[b], false)[k] == lists[b][i]);
        assert(entries[b][k] == entry_of(Mode::KeyMap, lists[b][i]));
    }
}

/// A checkpoint of a database with few entries finds room, and keeps no more of them.
pub proof fn lemma_checkpoint_roomy(storage: Storage, chains: Seq<Seq<u64>>, n: int)
    requires
        storage.config == input_config(),
        storage.holds(chains, Set::empty(), Map::empty()),
        small(storage.entries(chains), n),
        n <= 1_024,
    ensures
        capture_defect(storage.config, lists_of(storage, chains)) is None,
        small(kept_entries(storage, chains), n),
{
    let entries = storage.entries(chains);
    let lists = lists_of(storage, chains);
    let kept = all_firsts(lists);
    let left = kept_entries(storage, chains);
    lemma_entries_of_lists(storage, chains);
    assert forall|b: int| 0 <= b < kept.len() implies (#[trigger] kept[b]).len()
        <= entries[b].len() && left[b].len() == kept[b].len() by {
        assert(kept[b] == firsts(lists[b]));
        lemma_firsts_count(lists[b]);
        assert(all_turned(kept)[b] == turned(kept[b], false));
    }
    assert forall|b: int, i: int|
        #![trigger kept[b][i]]
        0 <= b < kept.len() && 0 <= i < kept[b].len() implies entry_of(
        Mode::KeyMap,
        kept[b][i],
    ).value.len() == 8 by {
        assert(kept[b] == firsts(lists[b]));
        lemma_firsts(lists[b]);
        assert(lists[b].contains(firsts(lists[b])[i]));
        let j = choose|j: int| 0 <= j < lists[b].len() && lists[b][j] == kept[b][i];
        assert(entries[b][j] == entry_of(Mode::KeyMap, lists[b][j]));
    }
    assert forall|b: int, i: int|
        #![trigger left[b][i]]
        0 <= b < left.len() && 0 <= i < left[b].len() implies left[b][i].value.len() == 8 by {
        let k = kept[b].len() - 1 - i;
        assert(all_turned(kept)[b] == turned(kept[b], false));
        assert(turned(kept[b], false)[i] == kept[b][k]);
        assert(left[b][i] == entry_of(Mode::KeyMap, kept[b][k]));
    }
    assert(within(kept, entries));
    lemma_within(kept, entries, 64);
    lemma_copies_roomy(flat(kept, 64));
    lemma_input_config();
    reveal(Config::layout_defect);
    lemma_fewer(left, entries, 64);
}

/// Smaller buckets hold fewer entries.
proof fn lemma_fewer(few: Seq<Seq<Entry>>, many: Seq<Seq<Entry>>, count: nat)
    requires
        forall|b: int| 0 <= b < count ==> (#[trigger] few[b]).len() <= many[b].len(),
    ensures
        entry_count(few, count) <= entry_count(many, count),
    decreases count,
{
    if count > 0 {
        lemma_fewer(few, many, (count - 1) as nat);
        assert(few[count - 1].len() <= many[count - 1].len());
    }
}

/// There are no more first records than records.
proof fn lemma_firsts_count(records: Seq<Record>)
    ensures
        firsts(records).len() <= records.len(),
    decreases records.len(),
{
    if records.len() > 0 {
        lemma_firsts_count(records.drop_last());
    }
}

} // verus!

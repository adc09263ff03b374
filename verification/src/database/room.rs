//! When a write finds room.

use vstd::prelude::*;

#[allow(unused_imports)]
use crate::accounting::{accounts, lemma_placed_within, placed};
#[allow(unused_imports)]
use crate::allocator::room::{
    law_nodes_take_places, law_vacant_page_is_enough, lemma_accounted, lemma_all_vacant,
    node_places, nodes_per_page, vacant,
};
#[allow(unused_imports)]
use crate::allocator::{batch_outcome, has_room, law_room_is_found, Files};
#[allow(unused_imports)]
use crate::config::{Config, Mode};
#[allow(unused_imports)]
use crate::copying::{copies, lists_of, record_at, Record};
#[allow(unused_imports)]
use crate::database::{empty_chains, empty_storage, insert_report, lemma_empty_storage};
#[allow(unused_imports)]
use crate::error::Error;
#[allow(unused_imports)]
use crate::insertion::{
    arranged, arrangement, batch_entries, insert_defect, value_stored, values_stored,
};
#[allow(unused_imports)]
use crate::layout::{power_of_two, VALUE_BLOB_TAG};
#[allow(unused_imports)]
use crate::load::utxo::entry_count;
#[allow(unused_imports)]
use crate::node::value_at;
#[allow(unused_imports)]
use crate::outcomes::{add_outcome, lemma_added, lemma_put, put_defect, put_outcome, PutOutcome};
#[allow(unused_imports)]
use crate::pages::Pages;
#[allow(unused_imports)]
use crate::prepared::{prepared_for, prepares};
#[allow(unused_imports)]
use crate::snapshot::{all_firsts, capture_defect, firsts, flat, lemma_firsts};
#[allow(unused_imports)]
use crate::storage::{blob_extent, slot, valid_blob, Entry, Storage};
#[allow(unused_imports)]
use crate::values::inline_word;

verus! {

/// Whether a value stands in the word of its node: it has eight bytes, and the last
/// of them leaves the tag of the word free.
pub open spec fn stands_inline(value: Seq<u8>) -> bool {
    value.len() == 8 && crate::bytes::le64(value, 0) < 0x8000_0000_0000_0000
}

/// A put of a key of sixteen bytes succeeds exactly where the body has a place for a
/// node of 32 bytes and, unless the value stands in the node, the value with its header
/// of eight bytes fits a page and the blob file has a place for it.
pub proof fn law_put_finds_room(
    storage: Storage,
    chains: Seq<Seq<u64>>,
    key: Seq<u8>,
    value: Seq<u8>,
    replace: bool,
)
    requires
        storage.holds(chains, Set::empty(), Map::empty()),
        storage.config.mode == Mode::KeyMap,
        key.len() == 16,
    ensures
        put_outcome(storage, key, value, replace).1 is Ok <==> {
            &&& has_room(storage.body.pages, 32, 32)
            &&& stands_inline(value) || (value.len() + 8 <= storage.config.block_size && has_room(
                storage.blobs->0.pages,
                8 + value.len() as int,
                8,
            ))
        },
        put_outcome(storage, key, value, replace).1 is Ok <==> put_defect(storage, value) is None,
{
    lemma_put(storage, chains, key, value, replace);
    lemma_alignments(storage.config);
    law_room_is_found(
        storage.body.pages,
        storage.live_nodes(chains, Set::empty()),
        32,
        32,
        1,
    );
    if value.len() + 8 <= storage.config.block_size {
        law_room_is_found(
            storage.blobs->0.pages,
            storage.live_blobs(chains, Map::empty()),
            8 + value.len() as int,
            8,
            1,
        );
    }
}

/// A value whose header and bytes fit a page can be put into every empty map.
pub proof fn law_empty_map_has_room(config: Config, key: Seq<u8>, value: Seq<u8>)
    requires
        config.valid(),
        config.mode == Mode::KeyMap,
        key.len() == 16,
        value.len() + 8 <= config.block_size,
    ensures
        put_defect(empty_storage(config), value) is None,
        put_outcome(empty_storage(config), key, value, true).1 == Ok::<PutOutcome, Error>(
            PutOutcome::Inserted,
        ),
{
    let storage = empty_storage(config);
    let chains = empty_chains(config);
    lemma_empty_files(config);
    lemma_empty_storage(config);
    law_put_finds_room(storage, chains, key, value, true);
    lemma_put(storage, chains, key, value, true);
    crate::outcomes::lemma_bucket(config, key);
    let bucket = crate::storage::bucket_of(config, key);
    assert(storage.entries(chains)[bucket].len() == 0);
    crate::load::utxo::lemma_first_in_range(storage.entries(chains)[bucket], key);
}

/// An add of a key of sixteen bytes to a set succeeds exactly where the body has a place
/// for a node of 32 bytes.
pub proof fn law_add_finds_room(storage: Storage, chains: Seq<Seq<u64>>, key: Seq<u8>)
    requires
        storage.holds(chains, Set::empty(), Map::empty()),
        storage.config.mode == Mode::KeySet,
        key.len() == 16,
    ensures
        add_outcome(storage, key).1 is Ok <==> has_room(storage.body.pages, 32, 32),
{
    lemma_added(storage, chains, key);
    lemma_alignments(storage.config);
    law_room_is_found(
        storage.body.pages,
        storage.live_nodes(chains, Set::empty()),
        32,
        32,
        1,
    );
}

/// Whether there is room for a batch: as many places for nodes as the batch has keys, and
/// in a map, unless every value stands in its node, as many vacant pages for values that
/// fit a page with their headers.
pub open spec fn batch_fits(storage: Storage, values: Seq<Seq<u8>>, count: int) -> bool {
    &&& count <= node_places(storage.body.pages)
    &&& storage.config.mode == Mode::KeyMap ==> {
        ||| forall|i: int| 0 <= i < values.len() ==> stands_inline(#[trigger] values[i])
        ||| {
            &&& count <= vacant(storage.blobs->0.pages).len()
            &&& forall|i: int|
                0 <= i < values.len() ==> (#[trigger] values[i]).len() + 8
                    <= storage.config.block_size
        }
    }
}

/// A batch that there is room for is inserted.
pub proof fn law_batch_finds_room(
    storage: Storage,
    chains: Seq<Seq<u64>>,
    keys: Seq<Seq<u8>>,
    values: Seq<Seq<u8>>,
)
    requires
        storage.holds(chains, Set::empty(), Map::empty()),
        storage.config.mode == Mode::KeyMap ==> values.len() == keys.len(),
        prepared_for(storage.config, keys, false, arrangement(storage.config, keys)),
        batch_fits(storage, values, keys.len() as int),
    ensures
        insert_report(storage, storage.entries(chains), keys, values).1 is None,
{
    let mode = storage.config.mode;
    let list = batch_entries(mode, keys, values);
    let items = arrangement(storage.config, keys);
    let entries = arranged(list, items);
    let inline = forall|i: int| 0 <= i < values.len() ==> stands_inline(#[trigger] values[i]);
    lemma_alignments(storage.config);
    assert forall|i: int| 0 <= i < entries.len() && mode == Mode::KeyMap implies (
    inline ==> stands_inline((#[trigger] entries[i]).value)) && (!inline ==> entries[i].value.len()
        + 8 <= storage.config.block_size) by {
        assert(prepares(storage.config, keys, false, items[i]));
        assert(entries[i].value == values[items[i].order as int]);
    }
    let values_live = match storage.blobs {
        Some(_) => storage.live_blobs(chains, Map::empty()),
        None => Map::empty(),
    };
    lemma_insert_fits(
        mode,
        storage.body.pages,
        storage.blobs,
        entries,
        0,
        storage.live_nodes(chains, Set::empty()),
        values_live,
        inline,
    );
}

/// Whether the values of some entries can be stored: they stand in their nodes, or there
/// is a vacant page for each of them.
spec fn storable(
    blobs: Option<Files>,
    live: Map<int, int>,
    entries: Seq<Entry>,
    start: int,
    inline: bool,
) -> bool {
    &&& blobs is Some
    &&& power_of_two(8)
    &&& 8 <= (blobs->0).pages.block_size
    &&& accounts((blobs->0).pages, live)
    &&& !inline ==> entries.len() - start <= vacant((blobs->0).pages).len()
    &&& forall|i: int|
        0 <= i < entries.len() ==> if inline {
            stands_inline((#[trigger] entries[i]).value)
        } else {
            entries[i].value.len() + 8 <= (blobs->0).pages.block_size
        }
}

proof fn lemma_insert_fits(
    mode: Mode,
    pages: Pages,
    blobs: Option<Files>,
    entries: Seq<Entry>,
    start: int,
    live: Map<int, int>,
    values_live: Map<int, int>,
    inline: bool,
)
    requires
        0 <= start <= entries.len(),
        accounts(pages, live),
        entries.len() - start <= node_places(pages),
        mode == Mode::KeyMap ==> storable(blobs, values_live, entries, start, inline),
    ensures
        insert_defect(mode, pages, blobs, entries, start) is None,
    decreases entries.len() - start,
{
    if start < entries.len() {
        law_nodes_take_places(pages, live, entries.len() - start);
        let (after, result) = batch_outcome(pages, 32, 32, entries.len() - start);
        let now = lemma_accounted(pages, live, 32, 32, entries.len() - start);
        let end = start + (result->Ok_0).count;
        let (stored, values_now) = lemma_values_fit(
            mode,
            blobs,
            entries,
            start,
            end,
            values_live,
            inline,
        );
        lemma_insert_fits(mode, after, stored, entries, end, now, values_now, inline);
    }
}

proof fn lemma_values_fit(
    mode: Mode,
    blobs: Option<Files>,
    entries: Seq<Entry>,
    from: int,
    to: int,
    live: Map<int, int>,
    inline: bool,
) -> (stored: (Option<Files>, Map<int, int>))
    requires
        0 <= from <= to <= entries.len(),
        mode == Mode::KeyMap ==> storable(blobs, live, entries, from, inline),
    ensures
        values_stored(mode, blobs, entries, from, to) == (stored.0, None::<Error>),
        mode == Mode::KeyMap ==> storable(stored.0, stored.1, entries, to, inline),
    decreases to - from,
{
    if from == to {
        (blobs, live)
    } else {
        let value = entries[from].value;
        let (after, defect) = value_stored(mode, blobs, value);
        let now = if mode == Mode::KeyMap && !inline && inline_word(value) is None {
            let length = 8 + value.len() as int;
            law_vacant_page_is_enough((blobs->0).pages, live, length, 8);
            lemma_accounted((blobs->0).pages, live, length, 8, 1)
        } else {
            live
        };
        lemma_values_fit(mode, after, entries, from + 1, to, now, inline)
    }
}

/// A checkpoint finds room where the body has pages for as many nodes as there are
/// entries and the blob file a page for each value that does not stand in its node.
pub proof fn law_checkpoint_finds_room(storage: Storage, chains: Seq<Seq<u64>>)
    requires
        storage.holds(chains, Set::empty(), Map::empty()),
        ({
            let config = storage.config;
            let entries = storage.entries(chains);
            let count = entry_count(entries, entries.len());
            let pages = config.body_capacity as int / config.block_size as int;
            &&& count <= pages * nodes_per_page(config.block_size as int)
            &&& config.mode == Mode::KeyMap ==> {
                ||| count <= config.blob_capacity as int / config.block_size as int
                ||| forall|b: int, i: int|
                    #![trigger chains[b][i]]
                    slot(chains, b, i) ==> value_at(storage.body.data, chains[b][i] as int)
                        < 0x8000_0000_0000_0000
            }
        }),
    ensures
        capture_defect(storage.config, lists_of(storage, chains)) is None,
{
    let config = storage.config;
    let entries = storage.entries(chains);
    let lists = lists_of(storage, chains);
    let kept = all_firsts(lists);
    let records = flat(kept, config.bucket_count as int);
    let empty = empty_storage(config);
    let inline = !(entry_count(entries, entries.len()) <= config.blob_capacity as int
        / config.block_size as int);
    lemma_alignments(config);
    lemma_empty_files(config);
    lemma_empty_storage(config);
    reveal(Config::layout_defect);
    crate::config::lemma_layout_rule(config);
    assert forall|b: int| 0 <= b < kept.len() implies (#[trigger] kept[b]).len()
        <= entries[b].len() by {
        assert(kept[b] == firsts(lists[b]));
        lemma_firsts_fewer(lists[b]);
    }
    assert forall|b: int, i: int|
        #![trigger kept[b][i]]
        0 <= b < kept.len() && 0 <= i < kept[b].len() && config.mode
            == Mode::KeyMap implies copyable(config, kept[b][i], inline) by {
        assert(kept[b] == firsts(lists[b]));
        lemma_firsts(lists[b]);
        assert(lists[b].contains(firsts(lists[b])[i]));
        let j = choose|j: int| 0 <= j < lists[b].len() && lists[b][j] == kept[b][i];
        assert(slot(chains, b, j));
        lemma_record_copyable(storage, chains, b, j, inline);
    }
    assert forall|b: int, i: int|
        #![trigger kept[b][i]]
        0 <= b < kept.len() && 0 <= i < kept[b].len() && config.mode
            == Mode::KeySet implies kept[b][i].inline is Some by {
        assert(kept[b] == firsts(lists[b]));
        lemma_firsts(lists[b]);
        assert(lists[b].contains(firsts(lists[b])[i]));
        let j = choose|j: int| 0 <= j < lists[b].len() && lists[b][j] == kept[b][i];
        assert(slot(chains, b, j));
        assert(storage.valid_word(value_at(storage.body.data, chains[b][j] as int)));
    }
    lemma_flat_copyable(config, kept, entries, config.bucket_count as int, inline);
    lemma_all_vacant(empty.body.pages);
    let live = empty.live_nodes(empty_chains(config), Set::empty());
    let values_live = if config.mode == Mode::KeyMap {
        lemma_all_vacant((empty.blobs->0).pages);
        empty.live_blobs(empty_chains(config), Map::empty())
    } else {
        Map::empty()
    };
    let _ = lemma_copies_fit(
        config,
        empty.body.pages,
        empty.blobs,
        records,
        live,
        values_live,
        inline,
    );
}

/// Whether a record is copied without a blob, or fits a page of its own.
spec fn copyable(config: Config, record: Record, inline: bool) -> bool {
    record.inline is Some || (!inline && record.value.len() + 8 <= config.block_size)
}

/// The value of a node stands in it, or fits a page.
proof fn lemma_record_copyable(
    storage: Storage,
    chains: Seq<Seq<u64>>,
    bucket: int,
    index: int,
    inline: bool,
)
    requires
        storage.holds(chains, Set::empty(), Map::empty()),
        storage.config.mode == Mode::KeyMap,
        slot(chains, bucket, index),
        inline ==> value_at(storage.body.data, chains[bucket][index] as int)
            < 0x8000_0000_0000_0000,
    ensures
        copyable(storage.config, lists_of(storage, chains)[bucket][index], inline),
{
    let offset = chains[bucket][index];
    let word = value_at(storage.body.data, offset as int);
    let record = lists_of(storage, chains)[bucket][index];
    assert(storage.valid_word(word));
    assert(record == record_at(storage, offset));
    if record.inline is None {
        let at = word - VALUE_BLOB_TAG;
        let blobs = storage.blobs->0;
        assert(valid_blob(blobs, at));
        assert(storage.referred(chains, at)) by {
            assert(chains[bucket][index] == offset);
        }
        let live = storage.live_blobs(chains, Map::empty());
        assert(live.dom().contains(at));
        assert(placed(blobs.pages, at, live[at]));
        lemma_placed_within(blobs.pages, at);
        assert(record.value.len() == blob_extent(blobs, at) - 8);
    }
}

proof fn lemma_firsts_fewer(records: Seq<Record>)
    ensures
        firsts(records).len() <= records.len(),
    decreases records.len(),
{
    if records.len() > 0 {
        lemma_firsts_fewer(records.drop_last());
    }
}

proof fn lemma_flat_copyable(
    config: Config,
    lists: Seq<Seq<Record>>,
    entries: Seq<Seq<Entry>>,
    count: int,
    inline: bool,
)
    requires
        0 <= count <= lists.len(),
        lists.len() == entries.len(),
        forall|b: int| 0 <= b < lists.len() ==> (#[trigger] lists[b]).len() <= entries[b].len(),
        forall|b: int, i: int|
            #![trigger lists[b][i]]
            0 <= b < lists.len() && 0 <= i < lists[b].len() ==> if config.mode == Mode::KeyMap {
                copyable(config, lists[b][i], inline)
            } else {
                lists[b][i].inline is Some
            },
    ensures
        flat(lists, count).len() <= entry_count(entries, count as nat),
        forall|i: int|
            #![trigger flat(lists, count)[i]]
            0 <= i < flat(lists, count).len() ==> if config.mode == Mode::KeyMap {
                copyable(config, flat(lists, count)[i], inline)
            } else {
                flat(lists, count)[i].inline is Some
            },
    decreases count,
{
    if count > 0 {
        lemma_flat_copyable(config, lists, entries, count - 1, inline);
        let front = flat(lists, count - 1);
        let all = flat(lists, count);
        assert(lists[count - 1].len() <= entries[count - 1].len());
        assert forall|i: int| 0 <= i < all.len() implies if config.mode == Mode::KeyMap {
            copyable(config, #[trigger] all[i], inline)
        } else {
            all[i].inline is Some
        } by {
            if i < front.len() {
                assert(all[i] == front[i]);
            } else {
                assert(all[i] == lists[count - 1][i - front.len()]);
            }
        }
    }
}

proof fn lemma_copies_fit(
    config: Config,
    pages: Pages,
    blobs: Option<Files>,
    records: Seq<Record>,
    live: Map<int, int>,
    values_live: Map<int, int>,
    inline: bool,
) -> (now: (Map<int, int>, Map<int, int>))
    requires
        accounts(pages, live),
        power_of_two(8),
        records.len() <= node_places(pages),
        config.mode == Mode::KeyMap ==> {
            &&& blobs is Some
            &&& accounts((blobs->0).pages, values_live)
            &&& (blobs->0).pages.block_size == config.block_size
            &&& 8 <= config.block_size
            &&& config.block_size <= u32::MAX
            &&& !inline ==> records.len() <= vacant((blobs->0).pages).len()
        },
        forall|i: int|
            #![trigger records[i]]
            0 <= i < records.len() ==> if config.mode == Mode::KeyMap {
                copyable(config, records[i], inline)
            } else {
                records[i].inline is Some
            },
    ensures
        ({
            let (after, stored, defect) = copies(pages, blobs, records);
            &&& defect is None
            &&& accounts(after, now.0)
            &&& node_places(after) >= node_places(pages) - records.len()
            &&& config.mode == Mode::KeyMap ==> {
                &&& stored is Some
                &&& accounts((stored->0).pages, now.1)
                &&& (stored->0).pages.block_size == config.block_size
                &&& vacant((stored->0).pages).len() >= vacant((blobs->0).pages).len()
                    - records.len()
            }
        }),
    decreases records.len(),
{
    if records.len() == 0 {
        (live, values_live)
    } else {
        let front = records.drop_last();
        assert forall|i: int|
            #![trigger front[i]]
            0 <= i < front.len() implies if config.mode == Mode::KeyMap {
            copyable(config, front[i], inline)
        } else {
            front[i].inline is Some
        } by {
            assert(front[i] == records[i]);
        }
        let before = lemma_copies_fit(config, pages, blobs, front, live, values_live, inline);
        let (after, stored, _) = copies(pages, blobs, front);
        let record = records.last();
        assert(records[records.len() - 1] == record);
        let values_now = if record.inline is None {
            let length = 8 + record.value.len() as int;
            law_vacant_page_is_enough((stored->0).pages, before.1, length, 8);
            lemma_accounted((stored->0).pages, before.1, length, 8, 1)
        } else {
            before.1
        };
        law_nodes_take_places(after, before.0, 1);
        (lemma_accounted(after, before.0, 32, 32, 1), values_now)
    }
}

/// The files of an empty database are in order.
pub proof fn lemma_empty_files(config: Config)
    requires
        config.valid(),
    ensures
        empty_storage(config).body.wf(),
        empty_storage(config).blobs matches Some(files) ==> files.wf(),
        0 < empty_storage(config).body.pages.block_count,
        empty_storage(config).blobs matches Some(files) ==> 0 < files.pages.block_count,
{
    reveal(Config::layout_defect);
    crate::config::lemma_layout_rule(config);
    crate::database::lemma_capacity(config);
    crate::accounting::lemma_entries(0);
}

/// The alignments of nodes and blobs are powers of two that no page is smaller than.
pub proof fn lemma_alignments(config: Config)
    requires
        config.valid(),
    ensures
        power_of_two(32),
        power_of_two(8),
        32 <= config.block_size,
{
    reveal_with_fuel(power_of_two, 7);
}

} // verus!

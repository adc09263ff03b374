//! Enlarging the body of a database that is not open.

use vstd::prelude::*;

#[allow(unused_imports)]
use crate::accounting::{accounts, counted, on_page, placed};
use crate::allocator::read_high_water;
#[allow(unused_imports)]
use crate::allocator::{
    allocator_create_defect, count_length, Files, COUNTS_START, GROWING_BIT, HIGH_WATER_OFFSET,
};
use crate::bytes::{encode_le64, overwrite};
#[allow(unused_imports)]
use crate::bytes::{le64, le64_bytes, lemma_le_fields, lemma_same_fields, patched};
#[allow(unused_imports)]
use crate::config::Config;
use crate::database::Database;
#[allow(unused_imports)]
use crate::database::{lemma_sealed_storage, sealed, RuntimeFiles};
use crate::error::Error;
#[allow(unused_imports)]
use crate::hash::digest;
use crate::header::{header_checksum, read_config, BODY_CAPACITY_OFFSET, HEADER_CHECKSUM_OFFSET};
#[allow(unused_imports)]
use crate::header::{config_of, HEADER_CHECKSUM_SEED};
#[allow(unused_imports)]
use crate::layout::{power_of_two, DATA_START, FORMAT_PAGE_SIZE, HEADS_START};
#[allow(unused_imports)]
use crate::pages::{Pages, MAX_LIVE};
#[allow(unused_imports)]
use crate::storage::{linked, Storage};

verus! {

/// The heads file with another body capacity.
pub open spec fn with_body_capacity(heads: Seq<u8>, capacity: u64) -> Seq<u8> {
    let changed = patched(heads, BODY_CAPACITY_OFFSET as int, le64_bytes(capacity));
    patched(
        changed,
        HEADER_CHECKSUM_OFFSET as int,
        le64_bytes(digest(changed.subrange(0, 96), HEADER_CHECKSUM_SEED)),
    )
}

/// The smallest multiple of `unit` that is no smaller than `value`.
pub open spec fn whole(value: int, unit: int) -> int {
    (value + unit - 1) / unit * unit
}

/// The capacity that a body needs for `headroom` more bytes, if it has not got it, or
/// why there is none.
pub open spec fn headroom_outcome(heads: Seq<u8>, counts: Seq<u8>, headroom: u64) -> Result<
    Option<u64>,
    Error,
> {
    let length = heads.len() as int;
    if crate::mapped_file::open_defect(length, length) is Some {
        Err(crate::mapped_file::open_defect(length, length)->0)
    } else {
        match config_of(heads) {
            Err(error) => Err(error),
            Ok(config) => {
                let required = whole(headroom as int, config.block_size as int);
                let high_water = le64(counts, HIGH_WATER_OFFSET as int);
                let used = high_water * config.block_size;
                if headroom == 0 {
                    Err(Error::InvalidConfig("runtime body headroom must be nonzero"))
                } else if required > u64::MAX {
                    Err(Error::InvalidConfig("runtime body headroom overflow"))
                } else if high_water >= GROWING_BIT {
                    Err(Error::Corrupt("allocator was closed while growing"))
                } else if high_water > config.body_capacity / config.block_size {
                    Err(Error::Corrupt("body allocator high-water mark is out of range"))
                } else if config.body_capacity - used >= required {
                    Ok(None)
                } else if used + required > u64::MAX {
                    Err(Error::InvalidConfig("runtime body capacity overflow"))
                } else {
                    let capacity = (used + required) as u64;
                    match (Config { body_capacity: capacity, ..config }).defect() {
                        Some(rule) => Err(Error::InvalidConfig(rule)),
                        None => Ok(Some(capacity)),
                    }
                }
            },
        }
    }
}

/// A heads file whose body capacity was enlarged for some headroom tells the same
/// configuration but for that capacity, which is a valid one.
pub proof fn law_capacity_enlarged(
    heads: Seq<u8>,
    counts: Seq<u8>,
    headroom: u64,
    config: Config,
    capacity: u64,
)
    requires
        headroom_outcome(heads, counts, headroom) == Ok::<Option<u64>, Error>(Some(capacity)),
        config_of(heads) == Ok::<Config, Error>(config),
    ensures
        (Config { body_capacity: capacity, ..config }).valid(),
        config_of(with_body_capacity(heads, capacity)) == Ok::<Config, Error>(
            Config { body_capacity: capacity, ..config },
        ),
        with_body_capacity(heads, capacity).len() == heads.len(),
        forall|k: int|
            104 <= k < heads.len() ==> with_body_capacity(heads, capacity)[k] == heads[k],
{
    lemma_le_fields();
    let changed = patched(heads, 40, le64_bytes(capacity));
    let checksum = digest(changed.subrange(0, 96), HEADER_CHECKSUM_SEED);
    let after = with_body_capacity(heads, capacity);
    lemma_same_fields(after, 40, le64_bytes(capacity), 0, 8);
    lemma_same_fields(after, 96, le64_bytes(checksum), 0, 8);
    lemma_same_fields(after, 0, heads, 0, 8);
    lemma_same_fields(after, 8, heads, 8, 8);
    lemma_same_fields(after, 16, heads, 16, 8);
    lemma_same_fields(after, 24, heads, 24, 8);
    lemma_same_fields(after, 32, heads, 32, 8);
    lemma_same_fields(after, 48, heads, 48, 8);
    lemma_same_fields(after, 56, heads, 56, 8);
    lemma_same_fields(after, 72, heads, 72, 8);
    lemma_same_fields(after, 80, heads, 80, 8);
    lemma_same_fields(after, 88, heads, 88, 8);
    assert(after.subrange(0, 96) =~= changed.subrange(0, 96));
}

/// A body has the headroom that was asked for, beyond the pages in use: it is enlarged
/// exactly where it has less, and then to the smallest number of whole pages that is
/// enough.
pub proof fn law_headroom_is_there(
    heads: Seq<u8>,
    counts: Seq<u8>,
    headroom: u64,
    config: Config,
)
    requires
        config_of(heads) == Ok::<Config, Error>(config),
        headroom_outcome(heads, counts, headroom) is Ok,
    ensures
        ({
            let in_use = le64(counts, 0) * config.block_size;
            let enough = in_use + headroom;
            &&& 0 < headroom
            &&& in_use <= config.body_capacity
            &&& match headroom_outcome(heads, counts, headroom)->Ok_0 {
                None => enough <= config.body_capacity,
                Some(capacity) => {
                    &&& config.body_capacity < enough <= capacity < enough + config.block_size
                    &&& capacity as int % config.block_size as int == 0
                },
            }
        }),
{
    let unit = config.block_size as int;
    let required = whole(headroom as int, unit);
    let in_use = le64(counts, 0) * config.block_size;
    crate::layout::lemma_round_up(headroom as int, unit);
    crate::database::lemma_capacity(config);
    vstd::arithmetic::mul::lemma_mul_inequality(
        le64(counts, 0) as int,
        config.body_capacity as int / unit,
        unit,
    );
    let pages = (headroom + unit - 1) / unit;
    assert(config.body_capacity - in_use < required ==> config.body_capacity < in_use + headroom)
        by {
        let free = config.body_capacity as int / unit - le64(counts, 0);
        assert(config.body_capacity - in_use == free * unit) by (nonlinear_arith)
            requires
                free == config.body_capacity as int / unit - le64(counts, 0),
                config.body_capacity as int / unit * unit == config.body_capacity,
                in_use == le64(counts, 0) * config.block_size,
                unit == config.block_size,
        ;
        if config.body_capacity - in_use < required && free * unit >= headroom {
            assert(free >= pages) by (nonlinear_arith)
                requires
                    free * unit >= headroom,
                    pages == (headroom + unit - 1) / unit,
                    0 < unit,
            ;
            vstd::arithmetic::mul::lemma_mul_inequality(pages, free, unit);
        }
    }
}

/// Headroom that a body can be given is given: an error comes where it is zero, where
/// the files are damaged, or where no valid configuration has room for it.
pub proof fn law_headroom_is_granted(
    heads: Seq<u8>,
    counts: Seq<u8>,
    headroom: u64,
    config: Config,
    capacity: u64,
)
    requires
        crate::mapped_file::open_defect(heads.len() as int, heads.len() as int) is None,
        config_of(heads) == Ok::<Config, Error>(config),
        0 < headroom,
        le64(counts, 0) < 0x8000_0000_0000_0000,
        le64(counts, 0) * config.block_size <= config.body_capacity,
        le64(counts, 0) * config.block_size + headroom <= capacity,
        (Config { body_capacity: capacity, ..config }).valid(),
    ensures
        headroom_outcome(heads, counts, headroom) is Ok,
{
    let unit = config.block_size as int;
    let larger = Config { body_capacity: capacity, ..config };
    let required = whole(headroom as int, unit);
    let high_water = le64(counts, 0) as int;
    let needed = high_water * unit + required;
    crate::layout::lemma_round_up(headroom as int, unit);
    crate::database::lemma_capacity(config);
    crate::database::lemma_capacity(larger);
    let pages = (headroom + unit - 1) / unit;
    let most = capacity as int / unit;
    assert(pages <= most - high_water) by (nonlinear_arith)
        requires
            high_water * unit + headroom <= capacity,
            most * unit == capacity,
            pages == (headroom + unit - 1) / unit,
            0 < unit,
    ;
    assert(needed <= capacity && needed == (high_water + pages) * unit) by (nonlinear_arith)
        requires
            pages <= most - high_water,
            most * unit == capacity,
            needed == high_water * unit + pages * unit,
            0 < unit,
    ;
    assert(high_water <= config.body_capacity as int / unit) by (nonlinear_arith)
        requires
            high_water * unit <= config.body_capacity,
            0 < unit,
    ;
    if config.body_capacity - high_water * unit < required {
        lemma_layout_between(config, larger, needed as u64, high_water + pages);
    }
}

/// What lies between two valid body capacities and is a whole number of pages is a
/// valid one.
proof fn lemma_layout_between(config: Config, larger: Config, capacity: u64, pages: int)
    requires
        config.valid(),
        larger.valid(),
        larger == (Config { body_capacity: larger.body_capacity, ..config }),
        config.body_capacity <= capacity <= larger.body_capacity,
        0 <= pages,
        capacity == pages * config.block_size,
    ensures
        (Config { body_capacity: capacity, ..config }).valid(),
{
    let unit = config.block_size as int;
    let most = larger.body_capacity as int / unit;
    reveal(Config::layout_defect);
    crate::config::lemma_layout_rule(config);
    crate::config::lemma_layout_rule(larger);
    crate::database::lemma_capacity(larger);
    vstd::arithmetic::div_mod::lemma_mod_multiples_basic(pages, unit);
    vstd::arithmetic::div_mod::lemma_div_by_multiple(pages, unit);
    vstd::arithmetic::div_mod::lemma_div_is_ordered(
        capacity as int,
        larger.body_capacity as int,
        unit,
    );
    vstd::arithmetic::div_mod::lemma_div_is_ordered(
        config.body_capacity as int,
        capacity as int,
        unit,
    );
    let few = config.body_capacity as int / unit;
    crate::layout::lemma_round_up(2 * pages + COUNTS_START, FORMAT_PAGE_SIZE as int);
    crate::layout::lemma_round_up(2 * most + COUNTS_START, FORMAT_PAGE_SIZE as int);
    crate::layout::lemma_round_up(2 * few + COUNTS_START, FORMAT_PAGE_SIZE as int);
    assert(count_length(few) <= count_length(pages) <= count_length(most));
    assert((capacity + DATA_START) % FORMAT_PAGE_SIZE as int == 0) by {
        lemma_whole_pages(unit);
        vstd::arithmetic::mul::lemma_mul_is_associative(
            pages,
            unit / FORMAT_PAGE_SIZE as int,
            FORMAT_PAGE_SIZE as int,
        );
        vstd::arithmetic::div_mod::lemma_mod_multiples_basic(
            pages * (unit / FORMAT_PAGE_SIZE as int),
            FORMAT_PAGE_SIZE as int,
        );
    }
}

/// A page of an allocator is a whole number of file pages.
proof fn lemma_whole_pages(unit: int)
    requires
        power_of_two(unit),
        unit >= FORMAT_PAGE_SIZE,
    ensures
        unit % FORMAT_PAGE_SIZE as int == 0,
        unit / FORMAT_PAGE_SIZE as int * FORMAT_PAGE_SIZE as int == unit,
    decreases unit,
{
    if unit >= 2 * FORMAT_PAGE_SIZE {
        lemma_whole_pages(unit / 2);
    } else {
        reveal_with_fuel(power_of_two, 17);
        assert(power_of_two(0x1_0000));
        lemma_next_power(unit, FORMAT_PAGE_SIZE as int);
    }
}

/// There is no power of two between one and its double.
proof fn lemma_next_power(n: int, power: int)
    requires
        power_of_two(n),
        power_of_two(power),
        power <= n < 2 * power,
    ensures
        n == power,
    decreases n,
{
    if power > 1 {
        lemma_next_power(n / 2, power / 2);
    }
}

/// A storage with another body capacity: the bytes and the page counts stay.
pub open spec fn enlarged(storage: Storage, capacity: u64) -> Storage {
    Storage {
        config: Config { body_capacity: capacity, ..storage.config },
        body: Files {
            pages: Pages {
                block_count: capacity as int / storage.config.block_size as int,
                ..storage.body.pages
            },
            ..storage.body
        },
        ..storage
    }
}

/// A larger body capacity keeps every chain and every entry.
pub proof fn law_larger_body_keeps_entries(
    storage: Storage,
    chains: Seq<Seq<u64>>,
    capacity: u64,
)
    requires
        storage.holds(chains, Set::empty(), Map::empty()),
        storage.config.body_capacity <= capacity,
        (Config { body_capacity: capacity, ..storage.config }).valid(),
    ensures
        enlarged(storage, capacity).holds(chains, Set::empty(), Map::empty()),
        enlarged(storage, capacity).entries(chains) == storage.entries(chains),
{
    let after = enlarged(storage, capacity);
    lemma_larger_layout(storage.config, capacity);
    vstd::arithmetic::div_mod::lemma_div_by_multiple(
        storage.body.pages.block_count,
        storage.config.block_size as int,
    );
    assert(after.entries(chains) =~= storage.entries(chains)) by {
        assert forall|b: int| 0 <= b < chains.len() implies after.entries(chains)[b]
            == #[trigger] storage.entries(chains)[b] by {
            assert(after.entries_of(chains[b]) =~= storage.entries_of(chains[b]));
        }
    }
    assert(after.chains_hold(chains)) by {
        assert forall|bucket: int|
            #![trigger chains[bucket]]
            0 <= bucket < chains.len() implies linked(
            after.body,
            after.heads[bucket],
            chains[bucket],
        ) by {
            assert(linked(storage.body, storage.heads[bucket], chains[bucket]));
        }
    }
    let live = storage.live_nodes(chains, Set::empty());
    assert(after.live_nodes(chains, Set::empty()) == live);
    assert(accounts(after.body.pages, live)) by {
        assert forall|block: int|
            #![trigger on_page(after.body.pages, live, block)]
            on_page(after.body.pages, live, block) == on_page(storage.body.pages, live, block) by {
            assert(on_page(after.body.pages, live, block) =~= on_page(
                storage.body.pages,
                live,
                block,
            ));
        }
        assert forall|block: int|
            #![trigger after.body.pages.counts[block]]
            0 <= block < after.body.pages.high_water implies on_page(
            after.body.pages,
            live,
            block,
        ).len() == counted(after.body.pages, block) && counted(after.body.pages, block)
            <= MAX_LIVE by {
            assert(on_page(storage.body.pages, live, block).len() == counted(
                storage.body.pages,
                block,
            ));
        }
        assert forall|offset: int| #[trigger] live.dom().contains(offset) implies placed(
            after.body.pages,
            offset,
            live[offset],
        ) by {
            assert(placed(storage.body.pages, offset, live[offset]));
        }
    }
    if storage.blobs is Some {
        assert(after.live_blobs(chains, Map::empty()) == storage.live_blobs(
            chains,
            Map::empty(),
        ));
    }
}

/// A larger capacity has no fewer pages, and there are files of its length.
proof fn lemma_larger_layout(config: Config, capacity: u64)
    requires
        config.valid(),
        config.body_capacity <= capacity,
        (Config { body_capacity: capacity, ..config }).valid(),
    ensures
        config.body_capacity as int / config.block_size as int <= capacity as int
            / config.block_size as int,
        capacity as int / config.block_size as int * config.block_size == capacity,
        allocator_create_defect(capacity as int, config.block_size as int) is None,
{
    let larger = Config { body_capacity: capacity, ..config };
    reveal(Config::layout_defect);
    crate::config::lemma_layout_rule(larger);
    crate::database::lemma_capacity(larger);
    vstd::arithmetic::div_mod::lemma_div_is_ordered(
        config.body_capacity as int,
        capacity as int,
        config.block_size as int,
    );
}

/// Whether `grown` are the files that a closed database leaves, with the body
/// capacity enlarged for some headroom.
pub open spec fn grown_from(
    closed: Database,
    files: RuntimeFiles,
    headroom: u64,
    capacity: u64,
    grown: RuntimeFiles,
) -> bool {
    &&& files.storage(closed.config()) == sealed(closed.storage())
    &&& config_of(files.heads@) == Ok::<Config, Error>(closed.config())
    &&& files.open_defect() is None
    &&& headroom_outcome(files.heads@, files.body.counts@, headroom) == Ok::<Option<u64>, Error>(
        Some(capacity),
    )
    &&& grown.heads@ == with_body_capacity(files.heads@, capacity)
    &&& grown.body == files.body
    &&& grown.blobs == files.blobs
}

/// The files of a closed database whose body capacity was enlarged can be opened, and
/// hold the chains and the entries of the closed one: every offset stays where it is.
pub proof fn law_headroom_keeps_files(
    closed: Database,
    files: RuntimeFiles,
    headroom: u64,
    capacity: u64,
    grown: RuntimeFiles,
)
    requires
        closed.sound(),
        grown_from(closed, files, headroom, capacity, grown),
    ensures
        ({
            let config = Config { body_capacity: capacity, ..closed.config() };
            let storage = enlarged(sealed(closed.storage()), capacity);
            &&& grown.open_defect() is None
            &&& config_of(grown.heads@) == Ok::<Config, Error>(config)
            &&& grown.storage(config) == storage
            &&& storage.holds(closed.chains(), Set::empty(), Map::empty())
            &&& storage.entries(closed.chains()) == closed@
        }),
{
    let config = closed.config();
    let larger = Config { body_capacity: capacity, ..config };
    let before = sealed(closed.storage());
    law_capacity_enlarged(files.heads@, files.body.counts@, headroom, config, capacity);
    lemma_sealed_storage(closed.storage(), closed.chains());
    lemma_larger_layout(config, capacity);
    law_larger_body_keeps_entries(before, closed.chains(), capacity);
    crate::database::lemma_heads_room(config.bucket_count as int);
    assert forall|i: int| 0 <= i < config.bucket_count implies le64(
        grown.heads@,
        HEADS_START + 8 * i,
    ) == #[trigger] le64(files.heads@, HEADS_START + 8 * i) by {
        lemma_same_fields(grown.heads@, HEADS_START + 8 * i, files.heads@, HEADS_START + 8 * i, 8);
    }
    assert(grown.storage(larger).heads =~= files.storage(config).heads);
    assert(grown.storage(larger) == enlarged(before, capacity));
    let pages = capacity as int / config.block_size as int;
    let fewer = config.body_capacity as int / config.block_size as int;
    crate::layout::lemma_round_up(2 * pages + COUNTS_START, FORMAT_PAGE_SIZE as int);
    crate::layout::lemma_round_up(2 * fewer + COUNTS_START, FORMAT_PAGE_SIZE as int);
    assert(count_length(fewer) <= count_length(pages));
}

/// A closed database whose body capacity was enlarged is opened with the entries that
/// it was closed with.
pub proof fn law_headroom_keeps_entries(
    closed: Database,
    files: RuntimeFiles,
    headroom: u64,
    capacity: u64,
    grown: RuntimeFiles,
    reopened: Database,
)
    requires
        closed.sound(),
        grown_from(closed, files, headroom, capacity, grown),
        config_of(grown.heads@) == Ok::<Config, Error>(reopened.config()),
        reopened.storage() == grown.storage(reopened.config()),
        forall|chains: Seq<Seq<u64>>| #[trigger]
            reopened.storage().holds(chains, Set::empty(), Map::empty()) ==> reopened.sound()
                && reopened.chains() == chains,
    ensures
        reopened.sound(),
        reopened@ == closed@,
{
    law_headroom_keeps_files(closed, files, headroom, capacity, grown);
    assert(reopened.storage().holds(closed.chains(), Set::empty(), Map::empty()));
}

impl Database {
    /// Makes sure that an unopened database can hold at least `headroom` bytes of nodes
    /// beyond the high-water mark of its body, and tells whether the capacity was
    /// enlarged. Offsets and file lengths stay as they are.
    pub fn ensure_runtime_body_headroom(
        heads: &mut Vec<u8>,
        body_counts: &[u8],
        headroom: u64,
    ) -> (result: Result<bool, Error>)
        requires
            body_counts.len() >= 8,
        ensures
            match headroom_outcome(old(heads)@, body_counts@, headroom) {
                Err(error) => result == Err::<bool, Error>(error) && final(heads)@ == old(heads)@,
                Ok(None) => result == Ok::<bool, Error>(false) && final(heads)@ == old(heads)@,
                Ok(Some(capacity)) => result == Ok::<bool, Error>(true) && final(heads)@
                    == with_body_capacity(old(heads)@, capacity) && config_of(final(heads)@)
                    == Ok::<Config, Error>(
                    Config { body_capacity: capacity, ..config_of(old(heads)@)->Ok_0 },
                ),
            },
    {
        crate::mapped_file::validate_mapping_length(heads.len() as u64)?;
        let config = read_config(heads.as_slice())?;
        if headroom == 0 {
            return Err(Error::InvalidConfig("runtime body headroom must be nonzero"));
        }
        let blocks: u64 = (headroom - 1) / config.block_size + 1;
        proof {
            lemma_blocks(headroom as int, config.block_size as int);
        }
        let required: u64 = match blocks.checked_mul(config.block_size) {
            Some(required) => required,
            None => {
                return Err(Error::InvalidConfig("runtime body headroom overflow"));
            },
        };
        let next_block: u64 = read_high_water(body_counts)?;
        if next_block > config.body_capacity / config.block_size {
            return Err(Error::Corrupt("body allocator high-water mark is out of range"));
        }
        proof {
            vstd::arithmetic::mul::lemma_mul_inequality(
                next_block as int,
                config.body_capacity as int / config.block_size as int,
                config.block_size as int,
            );
            crate::database::lemma_capacity(config);
        }
        let used: u64 = next_block * config.block_size;
        if config.body_capacity - used >= required {
            return Ok(false);
        }
        let capacity: u64 = match used.checked_add(required) {
            Some(capacity) => capacity,
            None => {
                return Err(Error::InvalidConfig("runtime body capacity overflow"));
            },
        };
        let enlarged = Config { body_capacity: capacity, ..config };
        enlarged.validate()?;
        proof {
            law_capacity_enlarged(heads@, body_counts@, headroom, config, capacity);
            lemma_le_fields();
        }
        let encoded = encode_le64(capacity);
        overwrite(heads, BODY_CAPACITY_OFFSET, encoded.as_slice());
        let checksum = encode_le64(header_checksum(heads.as_slice())?);
        overwrite(heads, HEADER_CHECKSUM_OFFSET, checksum.as_slice());
        Ok(true)
    }
}

/// Rounding up by division.
proof fn lemma_blocks(value: int, unit: int)
    requires
        0 < value,
        0 < unit,
    ensures
        ((value - 1) / unit + 1) * unit == whole(value, unit),
{
    assert((value + unit - 1) / unit == (value - 1) / unit + 1) by (nonlinear_arith)
        requires
            0 < value,
            0 < unit,
    ;
}

} // verus!

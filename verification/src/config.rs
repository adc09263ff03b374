//! Database modes and validated storage configuration.

use vstd::prelude::*;
#[allow(unused_imports)]
use vstd::arithmetic::power2::pow2;

use crate::allocator::validate_capacity;
#[allow(unused_imports)]
use crate::allocator::allocator_create_defect;
use crate::error::Error;
use crate::header::heads_length;
#[allow(unused_imports)]
use crate::header::{heads_bytes, heads_defect};
use crate::layout::{is_power_of_two, DATA_START, FORMAT_PAGE_SIZE, NODE_POINTER_LIMIT};
#[allow(unused_imports)]
use crate::allocator::{count_length, COUNTS_START};
#[allow(unused_imports)]
use crate::layout::{law_power_of_two, lemma_round_up, power_of_two};
use crate::mapped_file::validate_new_mapping;
#[allow(unused_imports)]
use crate::mapped_file::create_defect;

verus! {

/// The default seed used for key hashing.
pub const DEFAULT_HASH_SEED: u64 = 0;

/// Required key width for every database operation.
pub const KEY_SIZE: usize = 16;

/// Width of a value that can be stored directly in a node.
pub const MAX_INLINE_VALUE_SIZE: usize = 8;

/// Largest body capacity whose every offset fits a packed node pointer.
pub const MAX_BODY_CAPACITY: u64 = NODE_POINTER_LIMIT - 1 - DATA_START;

/// Selects whether a database stores keys alone or key-value pairs.
#[derive(Clone, Copy, Debug, PartialEq, Eq, Structural)]
pub enum Mode {
    /// Stores fixed-width keys without values.
    KeySet,
    /// Stores a value for every fixed-width key.
    KeyMap,
}

/// Defines the persistent layout of a database.
#[derive(Clone, Copy, Debug, PartialEq, Eq, Structural)]
pub struct Config {
    /// Whether the database is a set or a map.
    pub mode: Mode,
    /// Number of hash buckets fixed at database creation.
    pub bucket_count: u64,
    /// Maximum logical bytes reserved for body nodes.
    pub body_capacity: u64,
    /// Maximum logical bytes reserved for map values.
    pub blob_capacity: u64,
    /// Allocation and reclamation granularity in bytes.
    pub block_size: u64,
    /// Seed supplied to XXH64 when selecting buckets.
    pub hash_seed: u64,
}

impl Config {
    /// Creates a configuration with one-GiB sparse capacities and one-MiB pages.
    ///
    /// Set mode starts with zero blob capacity; map mode with one GiB.
    #[must_use]
    pub fn new(mode: Mode, bucket_count: u64) -> (config: Config)
        ensures
            config == (Config {
                mode,
                bucket_count,
                body_capacity: 0x4000_0000,
                blob_capacity: if mode == Mode::KeyMap {
                    0x4000_0000
                } else {
                    0
                },
                block_size: 0x10_0000,
                hash_seed: DEFAULT_HASH_SEED,
            }),
    {
        Config {
            mode,
            bucket_count,
            body_capacity: 0x4000_0000,
            blob_capacity: if mode == Mode::KeyMap {
                0x4000_0000
            } else {
                0
            },
            block_size: 0x10_0000,
            hash_seed: DEFAULT_HASH_SEED,
        }
    }

    /// Why there are no files of this layout, if there are none: no heads file for so
    /// many buckets, or no body or blob files of such a capacity.
    #[verifier::opaque]
    pub open spec fn layout_defect(self) -> Option<Error> {
        let length = heads_bytes(self.bucket_count as int);
        let body = allocator_create_defect(self.body_capacity as int, self.block_size as int);
        if heads_defect(self.bucket_count as int) is Some {
            heads_defect(self.bucket_count as int)
        } else if create_defect(length, length) is Some {
            create_defect(length, length)
        } else if body is Some {
            body
        } else if self.mode == Mode::KeyMap {
            allocator_create_defect(self.blob_capacity as int, self.block_size as int)
        } else {
            None
        }
    }

    /// The first rule that the configuration breaks, if any.
    pub open spec fn defect(self) -> Option<&'static str> {
        if self.bucket_count == 0 {
            Some("bucket count must be nonzero")
        } else if self.body_capacity == 0 {
            Some("body capacity must be nonzero")
        } else if self.body_capacity > MAX_BODY_CAPACITY {
            Some("body capacity exceeds the packed node-pointer range")
        } else if self.mode == Mode::KeyMap && self.blob_capacity == 0 {
            Some("map mode requires nonzero fallback blob capacity")
        } else if self.mode == Mode::KeySet && self.blob_capacity != 0 {
            Some("set mode cannot have blob capacity")
        } else if self.block_size < FORMAT_PAGE_SIZE || !power_of_two(self.block_size as int) {
            Some("block size must be a power of two no smaller than 65536")
        } else if self.block_size > u32::MAX {
            Some("block size must fit in 32 bits")
        } else if self.body_capacity % self.block_size != 0 {
            Some("body capacity must be block aligned")
        } else if self.blob_capacity % self.block_size != 0 {
            Some("blob capacity must be block aligned")
        } else {
            match self.layout_defect() {
                Some(Error::InvalidConfig(rule)) => Some(rule),
                _ => None,
            }
        }
    }

    /// A configuration that breaks no rule: there are files of its layout.
    pub open spec fn valid(self) -> bool {
        self.defect() is None
    }

    /// Validates that capacities and layouts can be represented safely.
    pub fn validate(&self) -> (result: Result<(), Error>)
        ensures
            result == (match self.defect() {
                Some(rule) => Err::<(), Error>(Error::InvalidConfig(rule)),
                None => Ok(()),
            }),
            result is Ok ==> {
                let block_size = self.block_size as int;
                &&& heads_defect(self.bucket_count as int) is None
                &&& allocator_create_defect(self.body_capacity as int, block_size) is None
                &&& self.mode == Mode::KeyMap ==> allocator_create_defect(
                    self.blob_capacity as int,
                    block_size,
                ) is None
            },
    {
        proof {
            reveal(Config::layout_defect);
        }
        if self.bucket_count == 0 {
            return Err(Error::InvalidConfig("bucket count must be nonzero"));
        }
        if self.body_capacity == 0 {
            return Err(Error::InvalidConfig("body capacity must be nonzero"));
        }
        if self.body_capacity > MAX_BODY_CAPACITY {
            return Err(Error::InvalidConfig("body capacity exceeds the packed node-pointer range"));
        }
        if self.mode == Mode::KeyMap && self.blob_capacity == 0 {
            return Err(Error::InvalidConfig("map mode requires nonzero fallback blob capacity"));
        }
        if self.mode == Mode::KeySet && self.blob_capacity != 0 {
            return Err(Error::InvalidConfig("set mode cannot have blob capacity"));
        }
        if self.block_size < FORMAT_PAGE_SIZE || !is_power_of_two(self.block_size) {
            return Err(
                Error::InvalidConfig("block size must be a power of two no smaller than 65536"),
            );
        }
        if self.block_size > u32::MAX as u64 {
            return Err(Error::InvalidConfig("block size must fit in 32 bits"));
        }
        if self.body_capacity % self.block_size != 0 {
            return Err(Error::InvalidConfig("body capacity must be block aligned"));
        }
        if self.blob_capacity % self.block_size != 0 {
            return Err(Error::InvalidConfig("blob capacity must be block aligned"));
        }
        self.validate_layout()
    }

    /// Checks that there are files of this layout.
    fn validate_layout(&self) -> (result: Result<(), Error>)
        ensures
            result == (match self.layout_defect() {
                Some(error) => Err::<(), Error>(error),
                None => Ok(()),
            }),
            result matches Err(error) ==> error is InvalidConfig,
    {
        proof {
            reveal(Config::layout_defect);
        }
        let length: u64 = heads_length(self.bucket_count)?;
        validate_new_mapping(length, length)?;
        validate_capacity(self.body_capacity, self.block_size)?;
        if self.mode == Mode::KeyMap {
            validate_capacity(self.blob_capacity, self.block_size)?;
        }
        Ok(())
    }
}

/// A layout that is wrong breaks a rule of the configuration.
pub proof fn lemma_layout_rule(config: Config)
    ensures
        config.layout_defect() matches Some(error) ==> error is InvalidConfig,
{
    reveal(Config::layout_defect);
}

/// A configuration is valid exactly where each of its numbers is in range, the capacities
/// are whole pages, and the files can be mapped.
pub proof fn law_valid_configs(config: Config)
    ensures
        config.valid() <==> {
            let (body, blob) = (config.body_capacity as int, config.blob_capacity as int);
            let page = config.block_size as int;
            let heads = heads_bytes(config.bucket_count as int);
            &&& config.bucket_count > 0
            &&& 0 < body < 0x1_0000_0000_0000 - 65_536
            &&& config.mode == Mode::KeyMap <==> blob > 0
            &&& exists|e: nat| page == #[trigger] pow2(e)
            &&& 65_536 <= page <= 0xffff_ffff
            &&& body % page == 0 && body / page <= 0xffff_ffff
            &&& blob % page == 0 && blob / page <= 0xffff_ffff
            &&& heads < 0x8000_0000_0000_0000 && heads <= usize::MAX
            &&& body + 65_536 <= usize::MAX
            &&& count_length(body / page) <= usize::MAX
            &&& blob + 65_536 < 0x8000_0000_0000_0000
            &&& blob > 0 ==> blob + 65_536 <= usize::MAX && count_length(blob / page)
                <= usize::MAX
        },
{
    reveal(Config::layout_defect);
    let (body, blob) = (config.body_capacity as int, config.blob_capacity as int);
    let page = config.block_size as int;
    let heads = config.bucket_count as int;
    law_power_of_two(page);
    lemma_round_up(8 * heads, 65_536);
    lemma_round_up(2 * (body / page) + COUNTS_START, 65_536);
    lemma_round_up(2 * (blob / page) + COUNTS_START, 65_536);
    lemma_layout_rule(config);
    if power_of_two(page) && 65_536 <= page {
        lemma_page_divides(page);
        if body % page == 0 {
            lemma_divides(body, page, 65_536);
        }
        if blob % page == 0 {
            lemma_divides(blob, page, 65_536);
        }
        vstd::arithmetic::div_mod::lemma_div_pos_is_pos(body, page);
        vstd::arithmetic::div_mod::lemma_div_pos_is_pos(blob, page);
    }
}

/// A page of an allocator is made of whole pages of the format.
proof fn lemma_page_divides(page: int)
    requires
        power_of_two(page),
        65_536 <= page,
    ensures
        page % 65_536 == 0,
    decreases page,
{
    if page > 65_536 {
        if page / 2 < 65_536 {
            reveal_with_fuel(power_of_two, 18);
        } else {
            lemma_page_divides(page / 2);
        }
    }
}

/// What a number divides, its divisors divide.
proof fn lemma_divides(number: int, large: int, small: int)
    requires
        large > 0,
        small > 0,
        number % large == 0,
        large % small == 0,
    ensures
        number % small == 0,
{
    vstd::arithmetic::div_mod::lemma_fundamental_div_mod(number, large);
    vstd::arithmetic::div_mod::lemma_fundamental_div_mod(large, small);
    assert(number == ((number / large) * (large / small)) * small) by (nonlinear_arith)
        requires
            number == large * (number / large),
            large == small * (large / small),
    ;
    vstd::arithmetic::div_mod::lemma_mod_multiples_basic(
        (number / large) * (large / small),
        small,
    );
}

/// The numbers that every configuration goes by.
pub proof fn law_fixed_numbers()
    ensures
        KEY_SIZE == 16,
        MAX_INLINE_VALUE_SIZE == 8,
        DEFAULT_HASH_SEED == 0,
        MAX_BODY_CAPACITY == 0x1_0000_0000_0000 - 1 - 65_536,
{
}

} // verus!

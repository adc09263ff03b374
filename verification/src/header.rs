//! The header of the heads file and the layout behind it.
//!
//! The heads file starts with one format page that holds the configuration and
//! the checkpoint manifests. Three banks of bucket roots follow: the persisted
//! runtime heads, and one bank for each of the two checkpoint generations.

use vstd::prelude::*;

use crate::bytes::{push_le64, read_le64};
#[allow(unused_imports)]
use crate::bytes::{le64, le64_bytes, lemma_le_fields, lemma_same_fields};
use crate::config::{Config, Mode, KEY_SIZE};
use crate::error::Error;
use crate::hash::xxh64;
#[allow(unused_imports)]
use crate::hash::digest;
use crate::layout::{align_up, FORMAT_PAGE_SIZE, HEADS_START, NODE_SIZE_U64};
#[allow(unused_imports)]
use crate::layout::{lemma_round_up, round_up};

verus! {

/// The first word of every heads file: `CASDB001`.
pub const HEADER_MAGIC: u64 = 0x3130_3042_4453_4143;

/// Version of the file format.
pub const FORMAT_VERSION: u64 = 7;

/// Offset of the header checksum.
pub const HEADER_CHECKSUM_OFFSET: usize = 96;

/// Seed of the header checksum.
pub const HEADER_CHECKSUM_SEED: u64 = 0x4341_5344_4248_4452;

/// Offset of the body capacity in the header.
pub const BODY_CAPACITY_OFFSET: usize = 40;

/// The number that stands for a mode in the header.
pub open spec fn mode_code(mode: Mode) -> u64 {
    match mode {
        Mode::KeySet => 1,
        Mode::KeyMap => 2,
    }
}

/// The words of a header in front of its checksum.
pub open spec fn header_words(config: Config) -> Seq<u64> {
    seq![
        HEADER_MAGIC,
        FORMAT_VERSION,
        mode_code(config.mode),
        config.bucket_count,
        KEY_SIZE as u64,
        config.body_capacity,
        config.blob_capacity,
        config.block_size,
        0,
        config.hash_seed,
        NODE_SIZE_U64,
        0,
    ]
}

/// The bytes of `words`.
pub open spec fn word_bytes(words: Seq<u64>) -> Seq<u8>
    decreases words.len(),
{
    if words.len() == 0 {
        Seq::empty()
    } else {
        word_bytes(words.drop_last()) + le64_bytes(words.last())
    }
}

/// The header of a database.
pub open spec fn header_of(config: Config) -> Seq<u8> {
    let fields = word_bytes(header_words(config));
    fields + le64_bytes(digest(fields, HEADER_CHECKSUM_SEED))
}

/// The configuration that a heads file tells.
pub open spec fn config_of(heads: Seq<u8>) -> Result<Config, Error> {
    let config = Config {
        mode: if le64(heads, 16) == 1 {
            Mode::KeySet
        } else {
            Mode::KeyMap
        },
        bucket_count: le64(heads, 24),
        body_capacity: le64(heads, 40),
        blob_capacity: le64(heads, 48),
        block_size: le64(heads, 56),
        hash_seed: le64(heads, 72),
    };
    if le64(heads, 0) != HEADER_MAGIC {
        Err(Error::Corrupt("heads header magic does not match"))
    } else if le64(heads, 8) != FORMAT_VERSION {
        Err(Error::Unsupported("database format version is not supported"))
    } else if le64(heads, 96) != digest(heads.subrange(0, 96), HEADER_CHECKSUM_SEED) {
        Err(Error::Corrupt("heads header checksum does not match"))
    } else if le64(heads, 16) != 1 && le64(heads, 16) != 2 {
        Err(Error::Corrupt("database mode is invalid"))
    } else if le64(heads, 32) > usize::MAX {
        Err(Error::Corrupt("key size does not fit memory"))
    } else if le64(heads, 32) != KEY_SIZE {
        Err(Error::Corrupt("stored key size is invalid"))
    } else if le64(heads, 88) != 0 {
        Err(Error::Corrupt("stored inline policy is invalid"))
    } else if config.defect() is Some {
        Err(Error::InvalidConfig(config.defect()->0))
    } else if le64(heads, 80) != NODE_SIZE_U64 {
        Err(Error::Corrupt("stored body node size is invalid"))
    } else {
        Ok(config)
    }
}

/// Word `index` of the bytes of `words`.
pub proof fn lemma_word_bytes(words: Seq<u64>, index: int)
    requires
        0 <= index < words.len(),
    ensures
        word_bytes(words).len() == 8 * words.len(),
        le64(word_bytes(words), 8 * index) == words[index],
    decreases words.len(),
{
    lemma_le_fields();
    lemma_word_bytes_length(words);
    lemma_word_bytes_length(words.drop_last());
    let front = word_bytes(words.drop_last());
    if index == words.len() - 1 {
        lemma_same_fields(word_bytes(words), 8 * index, le64_bytes(words.last()), 0, 8);
    } else {
        lemma_word_bytes(words.drop_last(), index);
        lemma_same_fields(word_bytes(words), 8 * index, front, 8 * index, 8);
    }
}

/// Eight bytes per word.
pub proof fn lemma_word_bytes_length(words: Seq<u64>)
    ensures
        word_bytes(words).len() == 8 * words.len(),
    decreases words.len(),
{
    lemma_le_fields();
    if words.len() > 0 {
        lemma_word_bytes_length(words.drop_last());
    }
}

/// A heads file that starts with the header of a valid configuration tells that
/// configuration.
pub proof fn lemma_header(heads: Seq<u8>, config: Config)
    requires
        config.valid(),
        heads.len() >= 104,
        heads.subrange(0, 104) == header_of(config),
    ensures
        config_of(heads) == Ok::<Config, Error>(config),
{
    let words = header_words(config);
    let fields = word_bytes(words);
    lemma_le_fields();
    lemma_word_bytes_length(words);
    assert(header_of(config).len() == 104);
    assert forall|i: int| 0 <= i < 12 implies #[trigger] le64(heads, 8 * i) == words[i] by {
        lemma_word_bytes(words, i);
        assert forall|k: int| 0 <= k < 8 implies #[trigger] heads[8 * i + k] == fields[8 * i
            + k] by {
            assert(heads.subrange(0, 104)[8 * i + k] == header_of(config)[8 * i + k]);
        }
        lemma_same_fields(heads, 8 * i, fields, 8 * i, 8);
    }
    assert(heads.subrange(0, 96) =~= fields) by {
        assert forall|k: int| 0 <= k < 96 implies heads[k] == fields[k] by {
            assert(heads.subrange(0, 104)[k] == header_of(config)[k]);
        }
    }
    let checksum = digest(fields, HEADER_CHECKSUM_SEED);
    assert forall|k: int| 0 <= k < 8 implies #[trigger] heads[96 + k] == le64_bytes(checksum)[0
        + k] by {
        assert(heads.subrange(0, 104)[96 + k] == header_of(config)[96 + k]);
    }
    lemma_same_fields(heads, 96, le64_bytes(checksum), 0, 8);
    assert(le64(heads, 8 * 0int) == words[0]);
    assert(le64(heads, 8 * 1int) == words[1]);
    assert(le64(heads, 8 * 2int) == words[2]);
    assert(le64(heads, 8 * 3int) == words[3]);
    assert(le64(heads, 8 * 4int) == words[4]);
    assert(le64(heads, 8 * 5int) == words[5]);
    assert(le64(heads, 8 * 6int) == words[6]);
    assert(le64(heads, 8 * 7int) == words[7]);
    assert(le64(heads, 8 * 9int) == words[9]);
    assert(le64(heads, 8 * 10int) == words[10]);
    assert(le64(heads, 8 * 11int) == words[11]);
}

/// The number that stands for a mode in the header.
fn encode_mode(mode: Mode) -> (code: u64)
    ensures
        code == mode_code(mode),
{
    match mode {
        Mode::KeySet => 1,
        Mode::KeyMap => 2,
    }
}

/// Writes one word of a header.
fn push_field(header: &mut Vec<u8>, value: u64, words: Ghost<Seq<u64>>)
    requires
        old(header)@ == word_bytes(words@),
    ensures
        final(header)@ == word_bytes(words@.push(value)),
{
    push_le64(header, value);
    assert(words@.push(value).drop_last() =~= words@);
}

/// The header of a database.
pub fn initialize_header(config: &Config) -> (header: Vec<u8>)
    ensures
        header@ == header_of(*config),
        header@.len() == 104,
{
    let mut header: Vec<u8> = Vec::new();
    let ghost w0: Seq<u64> = Seq::empty();
    push_field(&mut header, HEADER_MAGIC, Ghost(w0));
    let ghost w1 = w0.push(HEADER_MAGIC);
    push_field(&mut header, FORMAT_VERSION, Ghost(w1));
    let ghost w2 = w1.push(FORMAT_VERSION);
    push_field(&mut header, encode_mode(config.mode), Ghost(w2));
    let ghost w3 = w2.push(mode_code(config.mode));
    push_field(&mut header, config.bucket_count, Ghost(w3));
    let ghost w4 = w3.push(config.bucket_count);
    push_field(&mut header, KEY_SIZE as u64, Ghost(w4));
    let ghost w5 = w4.push(KEY_SIZE as u64);
    push_field(&mut header, config.body_capacity, Ghost(w5));
    let ghost w6 = w5.push(config.body_capacity);
    push_field(&mut header, config.blob_capacity, Ghost(w6));
    let ghost w7 = w6.push(config.blob_capacity);
    push_field(&mut header, config.block_size, Ghost(w7));
    let ghost w8 = w7.push(config.block_size);
    push_field(&mut header, 0, Ghost(w8));
    let ghost w9 = w8.push(0);
    push_field(&mut header, config.hash_seed, Ghost(w9));
    let ghost w10 = w9.push(config.hash_seed);
    push_field(&mut header, NODE_SIZE_U64, Ghost(w10));
    let ghost w11 = w10.push(NODE_SIZE_U64);
    push_field(&mut header, 0, Ghost(w11));
    proof {
        assert(w11.push(0) =~= header_words(*config));
        lemma_word_bytes_length(header_words(*config));
        lemma_le_fields();
    }
    let checksum: u64 = xxh64(header.as_slice(), HEADER_CHECKSUM_SEED);
    push_le64(&mut header, checksum);
    header
}

/// The checksum of the header that `header` starts with: of its fields alone, not of
/// the checksum and the manifests behind them.
pub fn header_checksum(header: &[u8]) -> (result: Result<u64, Error>)
    ensures
        result == (if header@.len() < HEADER_CHECKSUM_OFFSET {
            Err::<u64, Error>(Error::Corrupt("heads header checksum range is invalid"))
        } else {
            Ok(digest(header@.subrange(0, 96), HEADER_CHECKSUM_SEED))
        }),
{
    if header.len() < HEADER_CHECKSUM_OFFSET {
        return Err(Error::Corrupt("heads header checksum range is invalid"));
    }
    Ok(
        xxh64(
            vstd::slice::slice_subrange(header, 0, HEADER_CHECKSUM_OFFSET),
            HEADER_CHECKSUM_SEED,
        ),
    )
}

/// Reads and checks the configuration that a heads file tells.
pub fn read_config(heads: &[u8]) -> (result: Result<Config, Error>)
    requires
        heads.len() >= FORMAT_PAGE_SIZE,
    ensures
        result == config_of(heads@),
{
    if read_le64(heads, 0) != HEADER_MAGIC {
        return Err(Error::Corrupt("heads header magic does not match"));
    }
    if read_le64(heads, 8) != FORMAT_VERSION {
        return Err(Error::Unsupported("database format version is not supported"));
    }
    if read_le64(heads, HEADER_CHECKSUM_OFFSET) != header_checksum(heads)? {
        return Err(Error::Corrupt("heads header checksum does not match"));
    }
    let code: u64 = read_le64(heads, 16);
    let mode = if code == 1 {
        Mode::KeySet
    } else if code == 2 {
        Mode::KeyMap
    } else {
        return Err(Error::Corrupt("database mode is invalid"));
    };
    let key_size: u64 = read_le64(heads, 32);
    if key_size > usize::MAX as u64 {
        return Err(Error::Corrupt("key size does not fit memory"));
    }
    if key_size != KEY_SIZE as u64 {
        return Err(Error::Corrupt("stored key size is invalid"));
    }
    if read_le64(heads, 88) != 0 {
        return Err(Error::Corrupt("stored inline policy is invalid"));
    }
    let config = Config {
        mode,
        bucket_count: read_le64(heads, 24),
        body_capacity: read_le64(heads, BODY_CAPACITY_OFFSET),
        blob_capacity: read_le64(heads, 48),
        block_size: read_le64(heads, 56),
        hash_seed: read_le64(heads, 72),
    };
    config.validate()?;
    if read_le64(heads, 80) != NODE_SIZE_U64 {
        return Err(Error::Corrupt("stored body node size is invalid"));
    }
    Ok(config)
}

/// Bytes of one bank of bucket roots.
pub open spec fn bank_bytes(bucket_count: int) -> int {
    round_up(8 * bucket_count, FORMAT_PAGE_SIZE as int)
}

/// Length of a heads file.
pub open spec fn heads_bytes(bucket_count: int) -> int {
    HEADS_START + 3 * bank_bytes(bucket_count)
}

/// Offset of the roots of checkpoint bank `bank`.
pub open spec fn bank_start(bucket_count: int, bank: int) -> int {
    if bank == 0 {
        HEADS_START + bank_bytes(bucket_count)
    } else {
        HEADS_START + 2 * bank_bytes(bucket_count)
    }
}

/// Why a number of buckets has no heads file, if it has none.
pub open spec fn heads_defect(bucket_count: int) -> Option<Error> {
    if 8 * bucket_count + FORMAT_PAGE_SIZE - 1 > u64::MAX {
        Some(Error::InvalidConfig("checkpoint bank size overflow"))
    } else if heads_bytes(bucket_count) > u64::MAX {
        Some(Error::InvalidConfig("heads file size overflow"))
    } else {
        None
    }
}

/// Bytes of one bank of bucket roots.
pub fn bank_size(bucket_count: u64) -> (result: Result<u64, Error>)
    ensures
        result == (if 8 * bucket_count + FORMAT_PAGE_SIZE - 1 > u64::MAX {
            Err::<u64, Error>(Error::InvalidConfig("checkpoint bank size overflow"))
        } else {
            Ok(bank_bytes(bucket_count as int) as u64)
        }),
        result is Ok ==> bank_bytes(bucket_count as int) <= u64::MAX,
{
    proof {
        crate::allocator::lemma_page_power();
        lemma_round_up(8 * bucket_count, FORMAT_PAGE_SIZE as int);
    }
    match bucket_count.checked_mul(8) {
        None => Err(Error::InvalidConfig("checkpoint bank size overflow")),
        Some(bytes) => match align_up(bytes, FORMAT_PAGE_SIZE) {
            None => Err(Error::InvalidConfig("checkpoint bank size overflow")),
            Some(size) => Ok(size),
        },
    }
}

/// Offset of the roots of one checkpoint bank.
pub fn snapshot_bank_start(bucket_count: u64, bank: u64) -> (result: Result<u64, Error>)
    ensures
        result == (if bank > 1 {
            Err::<u64, Error>(Error::Corrupt("checkpoint bank index is out of range"))
        } else if 8 * bucket_count + FORMAT_PAGE_SIZE - 1 > u64::MAX {
            Err(Error::InvalidConfig("checkpoint bank size overflow"))
        } else if bank_start(bucket_count as int, bank as int) > u64::MAX {
            Err(Error::InvalidConfig("checkpoint bank offset overflow"))
        } else {
            Ok(bank_start(bucket_count as int, bank as int) as u64)
        }),
{
    if bank > 1 {
        return Err(Error::Corrupt("checkpoint bank index is out of range"));
    }
    let size: u64 = bank_size(bucket_count)?;
    let start: u64 = match HEADS_START.checked_add(size) {
        Some(start) => start,
        None => {
            return Err(Error::InvalidConfig("checkpoint bank offset overflow"));
        },
    };
    if bank == 0 {
        return Ok(start);
    }
    match start.checked_add(size) {
        Some(start) => Ok(start),
        None => Err(Error::InvalidConfig("checkpoint bank offset overflow")),
    }
}

/// Length of a heads file.
pub fn heads_length(bucket_count: u64) -> (result: Result<u64, Error>)
    ensures
        result == (match heads_defect(bucket_count as int) {
            Some(error) => Err::<u64, Error>(error),
            None => Ok(heads_bytes(bucket_count as int) as u64),
        }),
{
    let size: u64 = bank_size(bucket_count)?;
    match size.checked_mul(3) {
        None => Err(Error::InvalidConfig("heads file size overflow")),
        Some(banks) => match HEADS_START.checked_add(banks) {
            None => Err(Error::InvalidConfig("heads file size overflow")),
            Some(length) => Ok(length),
        },
    }
}

} // verus!

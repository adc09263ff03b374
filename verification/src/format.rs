//! Where everything stands in the files.
//!
//! The laws of this module give the file format in plain numbers.

use vstd::prelude::*;
#[allow(unused_imports)]
use vstd::arithmetic::power2::pow2;

#[allow(unused_imports)]
use crate::allocator::{
    allocator_create_defect, allocator_open_defect, count_entries, count_length, data_length,
    extent_defect, read_defect, word_access_defect, write_defect, Allocation, Files,
};
#[allow(unused_imports)]
use crate::bytes::{
    le16, le32, le32_bytes, le64, le64_bytes, lemma_le_fields, lemma_same_fields, patched,
};
#[allow(unused_imports)]
use crate::config::{Config, Mode};
#[allow(unused_imports)]
use crate::database::files::counts_of;
#[allow(unused_imports)]
use crate::error::Error;
#[allow(unused_imports)]
use crate::hash::{digest, rotated};
#[allow(unused_imports)]
use crate::header::{
    bank_start, config_of, header_of, header_words, heads_bytes, lemma_word_bytes,
    lemma_word_bytes_length, word_bytes,
};
#[allow(unused_imports)]
use crate::layout::{law_power_of_two, lemma_round_up};
#[allow(unused_imports)]
use crate::manifest::{manifest_at, manifest_start, manifests_of, newest_generation, Manifest};
#[allow(unused_imports)]
use crate::mapped_file::{
    create_defect, open_defect, open_growable_defect, range_defect, word_defect, zero_extended,
};
#[allow(unused_imports)]
use crate::node::{
    blob_checksum_of, blob_header_of, key_at, next_at, node_bytes, node_checksum_of, node_defect,
    set_next_defect, value_at, with_next, write_node_defect,
};
#[allow(unused_imports)]
use crate::pages::Pages;
#[allow(unused_imports)]
use crate::storage::{bucket_of, valid_blob};
#[allow(unused_imports)]
use crate::values::blob_allocation_of;

verus! {

/// Overwriting puts the new bytes where they belong, and leaves every other byte.
pub proof fn law_overwritten(s: Seq<u8>, at: int, data: Seq<u8>)
    requires
        0 <= at,
        at + data.len() <= s.len(),
    ensures
        patched(s, at, data).len() == s.len(),
        patched(s, at, data).subrange(at, at + data.len()) == data,
        patched(s, at, data).take(at) == s.take(at),
        patched(s, at, data).skip(at + data.len()) == s.skip(at + data.len()),
{
    assert(patched(s, at, data).subrange(at, at + data.len()) =~= data);
    assert(patched(s, at, data).take(at) =~= s.take(at));
    assert(patched(s, at, data).skip(at + data.len()) =~= s.skip(at + data.len()));
}

/// Whether a heads file begins with the thirteen words of a header: what the file is,
/// the version of its format, the mode, the sizes, the seed, the size of a node, and the
/// checksum of the words in front of it.
pub open spec fn tells(heads: Seq<u8>, config: Config) -> bool {
    &&& le64(heads, 0) == 0x3130_3042_4453_4143
    &&& le64(heads, 8) == 7
    &&& le64(heads, 16) == (if config.mode == Mode::KeySet {
        1int
    } else {
        2
    })
    &&& le64(heads, 24) == config.bucket_count
    &&& le64(heads, 32) == 16
    &&& le64(heads, 40) == config.body_capacity
    &&& le64(heads, 48) == config.blob_capacity
    &&& le64(heads, 56) == config.block_size
    &&& le64(heads, 72) == config.hash_seed
    &&& le64(heads, 80) == 32
    &&& le64(heads, 88) == 0
    &&& le64(heads, 96) == digest(heads.take(96), 0x4341_5344_4248_4452)
}

/// A header that is written tells its configuration.
pub proof fn law_header_layout(config: Config)
    ensures
        header_of(config).len() == 104,
        tells(header_of(config), config),
        le64(header_of(config), 64) == 0,
{
    let words = header_words(config);
    let fields = word_bytes(words);
    let header = header_of(config);
    lemma_le_fields();
    lemma_word_bytes_length(words);
    assert(header.take(96) =~= fields);
    lemma_same_fields(header, 96, le64_bytes(digest(fields, 0x4341_5344_4248_4452)), 0, 8);
    assert forall|i: int| 0 <= i < 12 implies #[trigger] le64(header, 8 * i) == words[i] by {
        lemma_word_bytes(words, i);
        lemma_same_fields(header, 8 * i, fields, 8 * i, 8);
    }
    assert(le64(header, 8 * 0int) == words[0]);
    assert(le64(header, 8 * 1int) == words[1]);
    assert(le64(header, 8 * 2int) == words[2]);
    assert(le64(header, 8 * 3int) == words[3]);
    assert(le64(header, 8 * 4int) == words[4]);
    assert(le64(header, 8 * 5int) == words[5]);
    assert(le64(header, 8 * 6int) == words[6]);
    assert(le64(header, 8 * 7int) == words[7]);
    assert(le64(header, 8 * 8int) == words[8]);
    assert(le64(header, 8 * 9int) == words[9]);
    assert(le64(header, 8 * 10int) == words[10]);
    assert(le64(header, 8 * 11int) == words[11]);
}

/// A configuration is read from a heads file exactly where it is a valid one and the file
/// tells it.
pub proof fn law_header_is_read(heads: Seq<u8>, config: Config)
    requires
        heads.len() >= 104,
    ensures
        config_of(heads) == Ok::<Config, Error>(config) <==> tells(heads, config)
            && config.valid(),
{
    assert(heads.subrange(0, 96) =~= heads.take(96));
}

/// The heads file: one page of 65,536 bytes, then the bucket heads, and then the roots of
/// the two checkpoint banks, each with eight bytes for a bucket and in whole pages.
pub proof fn law_heads_layout(bucket_count: int)
    requires
        0 <= bucket_count,
    ensures
        ({
            let bank = (heads_bytes(bucket_count) - 65_536) / 3;
            &&& 8 * bucket_count <= bank < 8 * bucket_count + 65_536
            &&& bank % 65_536 == 0
            &&& heads_bytes(bucket_count) == 65_536 + 3 * bank
            &&& bank_start(bucket_count, 0) == 65_536 + bank
            &&& bank_start(bucket_count, 1) == 65_536 + 2 * bank
        }),
{
    lemma_round_up(8 * bucket_count, 65_536);
}

/// The data file of an allocator and its count file have 65,536 bytes in front; then come
/// the pages, and two bytes for each page.
pub proof fn law_allocator_layout(blocks: int, block_size: int, counts: Seq<u8>, block: int)
    requires
        0 <= blocks,
        0 <= block,
        65_536 + 2 * block + 2 <= counts.len(),
    ensures
        data_length(blocks, block_size) == 65_536 + blocks * block_size,
        65_536 + 2 * blocks <= count_length(blocks) < 65_536 + 2 * blocks + 65_536,
        count_length(blocks) % 65_536 == 0,
        count_entries(counts)[block] == le16(counts, 65_536 + 2 * block),
{
    lemma_round_up(2 * blocks + 65_536, 65_536);
    assert(block < (counts.len() - 65_536) / 2);
}

/// The bucket of a key is what the digest leaves when it is divided by the number of
/// buckets.
pub proof fn law_bucket_of_key(config: Config, key: Seq<u8>)
    requires
        config.bucket_count > 0,
    ensures
        ({
            let bucket = bucket_of(config, key);
            let turns = digest(key, config.hash_seed) as int / config.bucket_count as int;
            &&& 0 <= bucket < config.bucket_count
            &&& digest(key, config.hash_seed) == turns * config.bucket_count + bucket
        }),
{
    let hash = digest(key, config.hash_seed) as int;
    let count = config.bucket_count as int;
    vstd::arithmetic::div_mod::lemma_fundamental_div_mod(hash, count);
    vstd::arithmetic::div_mod::lemma_mod_bound(hash, count);
    vstd::arithmetic::mul::lemma_mul_is_commutative(count, hash / count);
}

/// A node: sixteen bytes of key, a value word, and a word with the next node in its lower
/// 48 bits and the checksum above them.
pub proof fn law_node_layout(key: Seq<u8>, value: u64, next: u64)
    requires
        key.len() == 16,
        next < 0x1_0000_0000_0000,
    ensures
        ({
            let node = node_bytes(key, value, next);
            &&& node.len() == 32
            &&& node.take(16) == key
            &&& le64(node, 16) == value
            &&& le64(node, 24) == node_checksum_of(key, value) * 0x1_0000_0000_0000 + next
            &&& key_at(node, 0) == key
            &&& value_at(node, 0) == value
            &&& next_at(node, 0) == next
        }),
{
    let node = node_bytes(key, value, next);
    let pointer = (node_checksum_of(key, value) * 0x1_0000_0000_0000 + next) as u64;
    lemma_le_fields();
    assert(node.take(16) =~= key);
    assert(key_at(node, 0) =~= key);
    lemma_same_fields(node, 16, le64_bytes(value), 0, 8);
    lemma_same_fields(node, 24, le64_bytes(pointer), 0, 8);
}

/// The checksum of a node: the digest of the key under a seed and the value word, turned
/// by 29 bits, are folded into sixteen bits, and one stands for zero.
pub proof fn law_node_checksum(key: Seq<u8>, value: u64)
    ensures
        ({
            let mixed = digest(key, 0x4341_534e_4f44_4532) ^ rotated(value, 29);
            let low = (mixed % 0x1_0000) as u16;
            let second = (mixed / 0x1_0000 % 0x1_0000) as u16;
            let third = (mixed / 0x1_0000_0000 % 0x1_0000) as u16;
            let high = (mixed / 0x1_0000_0000_0000) as u16;
            let folded = low ^ second ^ third ^ high;
            node_checksum_of(key, value) == (if folded == 0 {
                1
            } else {
                folded
            })
        }),
{
    reveal(node_checksum_of);
    let mixed = digest(key, 0x4341_534e_4f44_4532) ^ rotated(value, 29);
    assert(((mixed ^ (mixed >> 16) ^ (mixed >> 32) ^ (mixed >> 48)) % 0x1_0000u64) as u16 == ((mixed
        % 0x1_0000u64) as u16) ^ ((mixed / 0x1_0000u64 % 0x1_0000u64) as u16) ^ ((mixed
        / 0x1_0000_0000u64 % 0x1_0000u64) as u16) ^ ((mixed / 0x1_0000_0000_0000u64) as u16))
        by (bit_vector);
}

/// Whether a range of a data file lies on one page.
pub open spec fn on_one_page(pages: Pages, at: int, length: int) -> bool {
    (at - 65_536) / pages.block_size == (at + length - 1 - 65_536) / pages.block_size
}

/// Whether a whole node stands at an offset of the body: on a multiple of 32 behind the
/// first 65,536 bytes, inside the capacity and the file, and with its own checksum.
pub open spec fn node_stands(capacity: int, data: Seq<u8>, at: int) -> bool {
    &&& at % 32 == 0
    &&& 65_536 <= at
    &&& at + 32 <= 65_536 + capacity
    &&& at + 32 <= data.len()
    &&& le64(data, at + 24) as int / 0x1_0000_0000_0000 == node_checksum_of(
        data.subrange(at, at + 16),
        le64(data, at + 16),
    )
}

/// A node is read exactly where a whole one stands.
pub proof fn law_node_is_read(capacity: int, data: Seq<u8>, at: int)
    requires
        0 <= at <= u64::MAX,
        capacity < 0xffff_ffff_ffff_0000,
    ensures
        node_defect(capacity, data, at) is None <==> node_stands(capacity, data, at),
{
}

/// Whether a whole blob stands at an offset of the blob file: behind the first 65,536
/// bytes, on one page, inside the capacity and the file, and with its own checksum.
pub open spec fn blob_stands(blobs: Files, at: int) -> bool {
    let length = le32(blobs.data, at) as int;
    &&& 65_536 <= at
    &&& 8 + length <= 0xffff_ffff
    &&& at + 8 + length <= 65_536 + blobs.capacity()
    &&& at + 8 + length <= blobs.data.len()
    &&& on_one_page(blobs.pages, at, 8 + length)
    &&& le32(blobs.data, at + 4) == digest(
        blobs.data.subrange(at + 8, at + 8 + length),
        0x4341_5342_4c4f_4232,
    ) % 0x1_0000_0000
}

/// A blob is valid exactly where a whole one stands.
pub proof fn law_blob_is_read(blobs: Files, at: int)
    requires
        0 <= at <= u64::MAX,
        blobs.wf(),
    ensures
        valid_blob(blobs, at) <==> blob_stands(blobs, at),
{
}

/// A change of the next node keeps key, value and checksum of a node.
pub proof fn law_relinking_keeps_a_node(data: Seq<u8>, node: int, next: u64)
    requires
        0 <= node,
        node + 32 <= data.len(),
        next < 0x1_0000_0000_0000,
    ensures
        ({
            let after = with_next(data, node, next);
            &&& after.len() == data.len()
            &&& key_at(after, node) == key_at(data, node)
            &&& value_at(after, node) == value_at(data, node)
            &&& next_at(after, node) == next
            &&& le64(after, node + 24) / 0x1_0000_0000_0000 == le64(data, node + 24)
                / 0x1_0000_0000_0000
            &&& forall|i: int|
                0 <= i < data.len() && !(node + 24 <= i < node + 32) ==> after[i] == data[i]
        }),
{
    let after = with_next(data, node, next);
    let pointer = le64(data, node + 24);
    let word = (pointer - pointer % 0x1_0000_0000_0000 + next) as u64;
    lemma_le_fields();
    assert(key_at(after, node) =~= key_at(data, node));
    lemma_same_fields(after, node + 16, data, node + 16, 8);
    lemma_same_fields(after, node + 24, le64_bytes(word), 0, 8);
}

/// A blob: four bytes with the length of the value, four with the lower half of its digest
/// under a seed.
pub proof fn law_blob_layout(value: Seq<u8>)
    requires
        value.len() <= u32::MAX,
    ensures
        blob_header_of(value).len() == 8,
        le32(blob_header_of(value), 0) == value.len(),
        le32(blob_header_of(value), 4) == digest(value, 0x4341_5342_4c4f_4232)
            % 0x1_0000_0000,
{
    lemma_le_fields();
    let header = blob_header_of(value);
    lemma_same_fields(header, 0, le32_bytes(value.len() as u32), 0, 4);
    lemma_same_fields(header, 4, le32_bytes(blob_checksum_of(value)), 0, 4);
}

/// A manifest is valid exactly where its five words agree: what it is, a generation that
/// belongs into the bank, the bank, a checksum over the others, and the checksum of the
/// snapshot. The manifest of bank zero stands at 128, that of bank one at 192.
pub proof fn law_manifest_layout(heads: Seq<u8>, bank: u64, manifest: Manifest)
    requires
        bank <= 1,
        manifest.bank == bank,
    ensures
        manifest_at(heads, bank) == Some(manifest) <==> {
            let at = 128 + 64 * bank;
            let first = digest(
                le64_bytes(manifest.generation),
                0x4341_5343_484b_5031u64 ^ bank,
            );
            &&& le64(heads, at) == 0x4341_5343_484b_5031
            &&& le64(heads, at + 8) == manifest.generation
            &&& manifest.generation as int % 2 == bank
            &&& le64(heads, at + 16) == bank
            &&& le64(heads, at + 24) == digest(le64_bytes(manifest.snapshot_checksum), first)
            &&& le64(heads, at + 32) == manifest.snapshot_checksum
        },
        manifest_start(bank as int) == 128 + 64 * bank,
{
}

/// Recovery looks at the larger generation first, and only at manifests that are valid.
pub proof fn law_newest_manifest_comes_first(heads: Seq<u8>)
    ensures
        ({
            let (first, second) = manifests_of(heads);
            let (zero, one) = (manifest_at(heads, 0), manifest_at(heads, 1));
            &&& (first, second) == (zero, one) || (first, second) == (one, zero)
            &&& first is Some && second is Some ==> (first->0).generation
                >= (second->0).generation
            &&& zero is Some ==> (zero->0).generation <= newest_generation(heads)
            &&& one is Some ==> (one->0).generation <= newest_generation(heads)
            &&& newest_generation(heads) != 0 ==> (zero is Some && (zero->0).generation
                == newest_generation(heads)) || (one is Some && (one->0).generation
                == newest_generation(heads))
        }),
{
}

/// Bytes of a file are accessed exactly where the file has them, and a word only where its
/// offset is a multiple of its width.
pub proof fn law_range_is_in_file(file_length: int, offset: int, length: int)
    requires
        0 <= offset,
        0 < length,
        file_length <= u64::MAX,
    ensures
        range_defect(file_length, offset, length) is None <==> offset + length <= file_length,
        word_defect(file_length, offset, length) is None <==> offset + length <= file_length
            && offset % length == 0,
{
}

/// A range of a data file is read or written exactly where it lies behind the first 65,536
/// bytes, inside the capacity and inside the file.
pub proof fn law_range_is_in_pages(capacity: int, file_length: int, offset: int, length: int)
    requires
        0 <= offset,
        0 <= length,
        capacity < 0xffff_ffff_ffff_0000,
        file_length <= u64::MAX,
    ensures
        read_defect(capacity, file_length, offset, length) is None <==> {
            &&& 65_536 <= offset
            &&& offset + length <= 65_536 + capacity
            &&& offset + length <= file_length
        },
{
}

/// Whether a file has a length that can be mapped: whole pages of 65,536 bytes, at least
/// one, and less than 2^63 bytes.
pub open spec fn paged(length: int) -> bool {
    0 < length < 0x8000_0000_0000_0000 && length % 65_536 == 0
}

/// The files of an allocator are opened exactly where its capacity and its page size are
/// those of an allocator, the files are whole pages and no longer than the capacity needs,
/// the high-water mark is in range and covered by both files, and no page below it was
/// left open.
pub proof fn law_allocator_is_opened(
    data: Seq<u8>,
    counts: Seq<u8>,
    capacity: int,
    block_size: int,
)
    requires
        0 < block_size,
        0 <= capacity <= u64::MAX,
    ensures
        allocator_open_defect(data, counts, capacity, block_size) is None <==> {
            let blocks = capacity / block_size;
            let high_water = le64(counts, 0) as int;
            &&& 0 < capacity
            &&& exists|e: nat| block_size == #[trigger] pow2(e)
            &&& 65_536 <= block_size <= 0xffff_ffff
            &&& capacity % block_size == 0 && blocks <= 0xffff_ffff
            &&& paged(capacity + 65_536) && capacity + 65_536 <= usize::MAX
            &&& count_length(blocks) <= usize::MAX
            &&& paged(data.len() as int) && data.len() <= capacity + 65_536
            &&& paged(counts.len() as int) && counts.len() <= count_length(blocks)
            &&& high_water <= blocks
            &&& 65_536 + high_water * block_size <= data.len()
            &&& 65_536 + 2 * high_water <= counts.len()
            &&& forall|i: int|
                0 <= i < high_water ==> le16(counts, #[trigger] (65_536 + 2 * i)) != 0xffff
        },
{
    let blocks = capacity / block_size;
    let high_water = le64(counts, 0) as int;
    law_power_of_two(block_size);
    lemma_round_up(2 * blocks + 65_536, 65_536);
    lemma_round_up(2 * high_water + 65_536, 65_536);
    vstd::arithmetic::div_mod::lemma_div_pos_is_pos(capacity, block_size);
    assert(counts.len() as int % 65_536 == 0 ==> (count_length(high_water) <= counts.len()
        <==> 65_536 + 2 * high_water <= counts.len()));
    if 65_536 + 2 * high_water <= counts.len() {
        let entries = count_entries(counts);
        assert(entries.take(high_water).contains(0xffff) <==> exists|i: int|
            0 <= i < high_water && le16(counts, #[trigger] (65_536 + 2 * i)) == 0xffff) by {
            if entries.take(high_water).contains(0xffff) {
                let i = entries.take(high_water).index_of(0xffff);
                assert(le16(counts, 65_536 + 2 * i) == 0xffff);
            }
            if exists|i: int|
                0 <= i < high_water && le16(counts, #[trigger] (65_536 + 2 * i)) == 0xffff {
                let i = choose|i: int|
                    0 <= i < high_water && le16(counts, #[trigger] (65_536 + 2 * i)) == 0xffff;
                assert(entries.take(high_water)[i] == 0xffff);
            }
        }
    }
}

/// A file grows by zeros.
pub proof fn law_growth_is_zero(s: Seq<u8>, length: int)
    requires
        s.len() <= length,
    ensures
        zero_extended(s, length).len() == length,
        zero_extended(s, length).take(s.len() as int) == s,
        forall|i: int| s.len() <= i < length ==> #[trigger] zero_extended(s, length)[i] == 0,
{
    assert(zero_extended(s, length).take(s.len() as int) =~= s);
}

/// A node is linked to another exactly where both offsets fit 48 bits and its pointer word
/// is one of the file.
pub proof fn law_node_is_linked(
    capacity: int,
    data: Seq<u8>,
    node: int,
    expected: int,
    replacement: int,
)
    requires
        0 <= node,
        capacity < 0xffff_ffff_ffff_0000,
        data.len() <= u64::MAX,
    ensures
        set_next_defect(capacity, data, node, expected, replacement) is None <==> {
            &&& expected < 0x1_0000_0000_0000
            &&& replacement < 0x1_0000_0000_0000
            &&& 65_536 <= node + 24
            &&& node + 32 <= 65_536 + capacity
            &&& node + 32 <= data.len()
            &&& node % 8 == 0
        },
{
}

/// Bytes are written to an allocation exactly where they are inside it and inside the file,
/// and a node only with a key of sixteen bytes.
pub proof fn law_write_is_in_allocation(
    file_length: int,
    allocation: Allocation,
    relative: int,
    length: int,
    key: Seq<u8>,
)
    requires
        0 <= relative,
        0 <= length,
        relative + length <= usize::MAX,
        file_length <= u64::MAX,
    ensures
        write_defect(file_length, allocation, relative, length) is None <==> {
            &&& relative + length <= allocation.length
            &&& allocation.offset + relative + length <= file_length
        },
        write_node_defect(file_length, allocation, key) is None <==> {
            &&& key.len() == 16
            &&& 32 <= allocation.length
            &&& allocation.offset + 32 <= file_length
        },
{
}

/// The counts of a count file: the high-water mark in its first word, and two bytes for
/// each page behind 65,536 bytes.
pub proof fn law_counts_are_written(bytes: Seq<u8>, pages: Pages, block: int)
    requires
        counts_of(bytes, pages),
        0 <= block,
        65_536 + 2 * block + 2 <= bytes.len(),
    ensures
        le64(bytes, 0) == pages.high_water,
        le16(bytes, 65_536 + 2 * block) == pages.counts[block],
{
    assert(block < (bytes.len() - 65_536) / 2);
}

/// A file is mapped exactly where its lengths can be mapped and fit the address space: a new
/// one no longer than its mapping, an existing one with the length that is expected, and one
/// that grows no longer than its mapping.
pub proof fn law_file_is_mapped(mapping_length: int, file_length: int)
    ensures
        create_defect(mapping_length, file_length) is None <==> {
            &&& paged(mapping_length) && paged(file_length)
            &&& file_length <= mapping_length <= usize::MAX
        },
        open_defect(file_length, mapping_length) is None <==> {
            &&& paged(mapping_length)
            &&& file_length == mapping_length
        },
        open_growable_defect(file_length, mapping_length) is None <==> {
            &&& paged(mapping_length) && paged(file_length)
            &&& file_length <= mapping_length <= usize::MAX
        },
{
}

/// There is an allocator exactly where its capacity is a number of pages, the page size a
/// power of two from 65,536 on, both numbers fit 32 bits, and its files can be mapped.
pub proof fn law_allocator_is_created(capacity: int, block_size: int)
    requires
        0 < block_size,
        0 <= capacity <= u64::MAX,
    ensures
        allocator_create_defect(capacity, block_size) is None <==> {
            let blocks = capacity / block_size;
            &&& 0 < capacity
            &&& exists|e: nat| block_size == #[trigger] pow2(e)
            &&& 65_536 <= block_size <= 0xffff_ffff
            &&& capacity % block_size == 0 && blocks <= 0xffff_ffff
            &&& paged(capacity + 65_536) && capacity + 65_536 <= usize::MAX
            &&& count_length(blocks) <= usize::MAX
        },
{
    law_power_of_two(block_size);
    lemma_round_up(2 * (capacity / block_size) + 65_536, 65_536);
    vstd::arithmetic::div_mod::lemma_div_pos_is_pos(capacity, block_size);
}

/// A range is that of an allocation exactly where it lies in the pages and on one page, and
/// a word of the pages is accessed exactly where it is a whole one.
pub proof fn law_allocation_is_checked(pages: Pages, file_length: int, at: int, length: int)
    requires
        pages.wf(),
        0 <= at <= u64::MAX,
        0 < length <= u32::MAX,
        file_length <= u64::MAX,
    ensures
        extent_defect(pages, at, length) is None <==> {
            &&& 65_536 <= at
            &&& at + length <= 65_536 + pages.block_count * pages.block_size
            &&& on_one_page(pages, at, length)
        },
        word_access_defect(
            pages.block_count * pages.block_size,
            file_length,
            at,
        ) is None <==> {
            &&& 65_536 <= at
            &&& at + 8 <= 65_536 + pages.block_count * pages.block_size
            &&& at + 8 <= file_length
            &&& at % 8 == 0
        },
{
    vstd::arithmetic::mul::lemma_mul_upper_bound(
        pages.block_count,
        u32::MAX as int,
        pages.block_size,
        u32::MAX as int,
    );
}

/// The blob that a value word of a map refers to is found exactly where the word has the tag
/// and the header of the blob lies in the file, and the blob on one page.
pub proof fn law_blob_is_found(blobs: Files, word: u64)
    requires
        blobs.wf(),
    ensures
        ({
            let at = word - 0x8000_0000_0000_0000;
            let total = 8 + le32(blobs.data, at);
            let found = blob_allocation_of(Mode::KeyMap, Some(blobs), word);
            &&& word < 0x8000_0000_0000_0000 ==> found == Ok::<Option<Allocation>, Error>(None)
            &&& word >= 0x8000_0000_0000_0000 ==> {
                &&& found is Ok <==> {
                    &&& 65_536 <= at
                    &&& at + 8 <= blobs.data.len()
                    &&& total <= 0xffff_ffff
                    &&& at + total <= 65_536 + blobs.capacity()
                    &&& on_one_page(blobs.pages, at, total)
                }
                &&& found matches Ok(allocation) ==> allocation is Some && allocation->0.offset
                    == at && allocation->0.length == total && allocation->0.block == (at - 65_536)
                    / blobs.pages.block_size
            }
        }),
{
    vstd::arithmetic::mul::lemma_mul_upper_bound(
        blobs.pages.block_count,
        u32::MAX as int,
        blobs.pages.block_size,
        u32::MAX as int,
    );
    let at = word - 0x8000_0000_0000_0000;
    if 65_536 <= at {
        vstd::arithmetic::div_mod::lemma_div_pos_is_pos(at - 65_536, blobs.pages.block_size);
        vstd::arithmetic::div_mod::lemma_div_nonincreasing(at - 65_536, blobs.pages.block_size);
    }
}

} // verus!

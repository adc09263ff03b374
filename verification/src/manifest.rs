//! Manifests and root banks of the heads file.
//!
//! A manifest says which checkpoint generation a bank holds, and what the checksum of
//! its snapshot is. It stands in the header page, one for each bank; the roots of the
//! snapshot stand in the bank itself.

use vstd::prelude::*;

use crate::bytes::{encode_le64, read_le64};
#[allow(unused_imports)]
use crate::bytes::{le64, le64_bytes, lemma_le_fields, lemma_patched_fields, patched};
use crate::error::Error;
use crate::hash::xxh64;
#[allow(unused_imports)]
use crate::hash::digest;
#[allow(unused_imports)]
use crate::header::{bank_start, heads_bytes, lemma_word_bytes, lemma_word_bytes_length, word_bytes};
use crate::inspection::MANIFEST_MAGIC;
#[allow(unused_imports)]
use crate::layout::{FORMAT_PAGE_SIZE, HEADS_START};
use crate::mapped_file::MappedFile;

verus! {

/// Offset of the first manifest.
pub const MANIFEST_BASE: u64 = 128;

/// Distance between the manifests.
pub const MANIFEST_STRIDE: u64 = 64;

/// Bytes of a manifest.
pub const MANIFEST_SIZE: u64 = 40;

/// Which generation a bank holds.
#[derive(Clone, Copy, Debug, PartialEq, Eq, Structural)]
pub struct Manifest {
    /// The generation.
    pub generation: u64,
    /// The bank.
    pub bank: u64,
    /// Checksum of the snapshot.
    pub snapshot_checksum: u64,
}

/// Offset of the manifest of a bank.
pub open spec fn manifest_start(bank: int) -> int {
    MANIFEST_BASE + MANIFEST_STRIDE * bank
}

/// The checksum of a manifest.
pub open spec fn manifest_checksum_of(manifest: Manifest) -> u64 {
    let first = digest(le64_bytes(manifest.generation), MANIFEST_MAGIC ^ manifest.bank);
    digest(le64_bytes(manifest.snapshot_checksum), first)
}

/// The words of a manifest.
pub open spec fn manifest_words(manifest: Manifest) -> Seq<u64> {
    seq![
        MANIFEST_MAGIC,
        manifest.generation,
        manifest.bank,
        manifest_checksum_of(manifest),
        manifest.snapshot_checksum,
    ]
}

/// The manifest of a bank, if it is valid.
pub open spec fn manifest_at(heads: Seq<u8>, bank: u64) -> Option<Manifest> {
    let start = manifest_start(bank as int);
    let manifest = Manifest {
        generation: le64(heads, start + 8),
        bank,
        snapshot_checksum: le64(heads, start + 32),
    };
    if le64(heads, start) == MANIFEST_MAGIC && le64(heads, start + 16) == bank
        && manifest.generation % 2 == bank && le64(heads, start + 24) == manifest_checksum_of(
        manifest,
    ) {
        Some(manifest)
    } else {
        None
    }
}

/// Computes the checksum of a manifest.
pub fn manifest_checksum(generation: u64, bank: u64, snapshot_checksum: u64) -> (checksum: u64)
    ensures
        checksum == manifest_checksum_of((Manifest { generation, bank, snapshot_checksum })),
{
    let generation_bytes = encode_le64(generation);
    let checksum_bytes = encode_le64(snapshot_checksum);
    let first: u64 = xxh64(generation_bytes.as_slice(), MANIFEST_MAGIC ^ bank);
    xxh64(checksum_bytes.as_slice(), first)
}

/// Offset of the manifest of a bank.
pub fn manifest_offset(bank: u64) -> (result: Result<u64, Error>)
    ensures
        result == (if bank > 1 {
            Err::<u64, Error>(Error::Corrupt("manifest bank is out of range"))
        } else {
            Ok(manifest_start(bank as int) as u64)
        }),
{
    if bank > 1 {
        return Err(Error::Corrupt("manifest bank is out of range"));
    }
    Ok(MANIFEST_BASE + bank * MANIFEST_STRIDE)
}

/// Reads the manifest of a bank.
pub fn read_manifest(heads: &[u8], bank: u64) -> (manifest: Option<Manifest>)
    requires
        bank <= 1,
        heads.len() >= HEADS_START,
    ensures
        manifest == manifest_at(heads@, bank),
{
    let start: usize = (MANIFEST_BASE + bank * MANIFEST_STRIDE) as usize;
    if read_le64(heads, start) != MANIFEST_MAGIC {
        return None;
    }
    let generation: u64 = read_le64(heads, start + 8);
    let stored_bank: u64 = read_le64(heads, start + 16);
    let checksum: u64 = read_le64(heads, start + 24);
    let snapshot_checksum: u64 = read_le64(heads, start + 32);
    if stored_bank != bank || generation % 2 != bank || checksum != manifest_checksum(
        generation,
        bank,
        snapshot_checksum,
    ) {
        return None;
    }
    Some(Manifest { generation, bank, snapshot_checksum })
}

/// The valid manifests, the newest generation first.
pub open spec fn manifests_of(heads: Seq<u8>) -> (Option<Manifest>, Option<Manifest>) {
    let (first, second) = (manifest_at(heads, 0), manifest_at(heads, 1));
    match (first, second) {
        (Some(left), Some(right)) if right.generation > left.generation => (second, first),
        _ => (first, second),
    }
}

/// The newest generation that a heads file tells of, or zero.
pub open spec fn newest_generation(heads: Seq<u8>) -> u64 {
    match manifests_of(heads) {
        (Some(manifest), _) => manifest.generation,
        (None, Some(manifest)) => manifest.generation,
        (None, None) => 0,
    }
}

/// Reads both manifests, the newest generation first.
pub fn read_manifests(heads: &[u8]) -> (manifests: (Option<Manifest>, Option<Manifest>))
    requires
        heads.len() >= HEADS_START,
    ensures
        manifests == manifests_of(heads@),
{
    let first = read_manifest(heads, 0);
    let second = read_manifest(heads, 1);
    if let Some(left) = first {
        if let Some(right) = second {
            if right.generation > left.generation {
                return (second, first);
            }
        }
    }
    (first, second)
}

/// Replaces one word of the heads file.
fn replace_word(heads: &mut MappedFile, offset: u64, value: u64)
    requires
        old(heads).wf(),
        offset % 8 == 0,
        offset + 8 <= old(heads)@.len(),
    ensures
        final(heads).wf(),
        final(heads).limit() == old(heads).limit(),
        final(heads)@ == patched(old(heads)@, offset as int, le64_bytes(value)),
        final(heads)@.len() == old(heads)@.len(),
{
    proof {
        lemma_le_fields();
    }
    let _stored = heads.store_u64(offset, value);
}

/// Writes the manifest of a bank. Its first word is cleared before and set after the
/// others, so that a manifest that is written in part is not valid.
pub fn write_manifest(heads: &mut MappedFile, manifest: Manifest)
    requires
        old(heads).wf(),
        old(heads)@.len() >= HEADS_START,
        manifest.bank <= 1,
    ensures
        final(heads).wf(),
        final(heads).limit() == old(heads).limit(),
        final(heads)@ == patched(
            old(heads)@,
            manifest_start(manifest.bank as int),
            word_bytes(manifest_words(manifest)),
        ),
{
    let ghost before = heads@;
    let offset: u64 = MANIFEST_BASE + manifest.bank * MANIFEST_STRIDE;
    let checksum: u64 = manifest_checksum(
        manifest.generation,
        manifest.bank,
        manifest.snapshot_checksum,
    );
    replace_word(heads, offset, 0);
    replace_word(heads, offset + 8, manifest.generation);
    replace_word(heads, offset + 16, manifest.bank);
    replace_word(heads, offset + 32, manifest.snapshot_checksum);
    replace_word(heads, offset + 24, checksum);
    replace_word(heads, offset, MANIFEST_MAGIC);
    proof {
        lemma_le_fields();
        let words = manifest_words(manifest);
        lemma_word_bytes_length(words);
        reveal_with_fuel(word_bytes, 6);
        assert(words.drop_last() =~= words.take(4));
        assert(words.take(4).drop_last() =~= words.take(3));
        assert(words.take(3).drop_last() =~= words.take(2));
        assert(words.take(2).drop_last() =~= words.take(1));
        assert(words.take(1).drop_last() =~= words.take(0));
        assert(heads@ =~= patched(before, offset as int, word_bytes(words)));
    }
}

/// Makes the manifest of a bank invalid.
pub fn invalidate_manifest(heads: &mut MappedFile, bank: u64)
    requires
        old(heads).wf(),
        old(heads)@.len() >= HEADS_START,
        bank <= 1,
    ensures
        final(heads).wf(),
        final(heads).limit() == old(heads).limit(),
        final(heads)@ == patched(old(heads)@, manifest_start(bank as int), le64_bytes(0)),
        final(heads)@.len() == old(heads)@.len(),
{
    replace_word(heads, MANIFEST_BASE + bank * MANIFEST_STRIDE, 0);
}

/// A written manifest reads back; the other one stays as it was.
pub proof fn lemma_manifest_written(heads: Seq<u8>, manifest: Manifest)
    requires
        heads.len() >= HEADS_START,
        manifest.bank <= 1,
        manifest.generation % 2 == manifest.bank,
    ensures
        ({
            let after = patched(
                heads,
                manifest_start(manifest.bank as int),
                word_bytes(manifest_words(manifest)),
            );
            &&& after.len() == heads.len()
            &&& manifest_at(after, manifest.bank) == Some(manifest)
            &&& manifest_at(after, (1 - manifest.bank) as u64) == manifest_at(
                heads,
                (1 - manifest.bank) as u64,
            )
        }),
{
    let words = manifest_words(manifest);
    let start = manifest_start(manifest.bank as int);
    let after = patched(heads, start, word_bytes(words));
    lemma_word_bytes_length(words);
    assert forall|i: int| 0 <= i < 5 implies #[trigger] le64(after, start + 8 * i) == words[i] by {
        lemma_word_bytes(words, i);
        lemma_patched_fields(heads, start, word_bytes(words), start + 8 * i);
    }
    assert(le64(after, start + 8 * 0int) == words[0]);
    assert(le64(after, start + 8 * 1int) == words[1]);
    assert(le64(after, start + 8 * 2int) == words[2]);
    assert(le64(after, start + 8 * 3int) == words[3]);
    assert(le64(after, start + 8 * 4int) == words[4]);
    lemma_other_manifest(heads, start, word_bytes(words), (1 - manifest.bank) as u64);
}

/// A change that does not meet a manifest keeps it.
pub proof fn lemma_other_manifest(heads: Seq<u8>, at: int, bytes: Seq<u8>, bank: u64)
    requires
        heads.len() >= HEADS_START,
        bank <= 1,
        0 <= at,
        at + bytes.len() <= heads.len(),
        at + bytes.len() <= manifest_start(bank as int) || manifest_start(bank as int)
            + MANIFEST_SIZE <= at,
    ensures
        manifest_at(patched(heads, at, bytes), bank) == manifest_at(heads, bank),
{
    let start = manifest_start(bank as int);
    lemma_patched_fields(heads, at, bytes, start);
    lemma_patched_fields(heads, at, bytes, start + 8);
    lemma_patched_fields(heads, at, bytes, start + 16);
    lemma_patched_fields(heads, at, bytes, start + 24);
    lemma_patched_fields(heads, at, bytes, start + 32);
}

/// A manifest that was made invalid is not valid.
pub proof fn lemma_manifest_invalid(heads: Seq<u8>, bank: u64)
    requires
        heads.len() >= HEADS_START,
        bank <= 1,
    ensures
        ({
            let after = patched(heads, manifest_start(bank as int), le64_bytes(0));
            &&& after.len() == heads.len()
            &&& manifest_at(after, bank) is None
            &&& manifest_at(after, (1 - bank) as u64) == manifest_at(heads, (1 - bank) as u64)
        }),
{
    let start = manifest_start(bank as int);
    lemma_le_fields();
    lemma_patched_fields(heads, start, le64_bytes(0), start);
    crate::bytes::lemma_same_fields(
        patched(heads, start, le64_bytes(0)),
        start,
        le64_bytes(0),
        0,
        8,
    );
    lemma_other_manifest(heads, start, le64_bytes(0), (1 - bank) as u64);
}

/// Writes words one behind the other into the heads file.
pub fn store_words(heads: &mut MappedFile, start: u64, words: &Vec<u64>)
    requires
        old(heads).wf(),
        start % 8 == 0,
        start + 8 * words.len() <= old(heads)@.len(),
    ensures
        final(heads).wf(),
        final(heads).limit() == old(heads).limit(),
        final(heads)@ == patched(old(heads)@, start as int, word_bytes(words@)),
        final(heads)@.len() == old(heads)@.len(),
{
    let ghost file = heads@;
    let count: usize = words.len();
    let mut next: usize = 0;
    assert(patched(file, start as int, word_bytes(words@.take(0))) =~= file);
    while next < count
        invariant
            next <= count,
            count == words.len(),
            heads.wf(),
            heads.limit() == old(heads).limit(),
            start % 8 == 0,
            file == old(heads)@,
            start + 8 * count <= file.len(),
            heads@.len() == file.len(),
            heads@ == patched(file, start as int, word_bytes(words@.take(next as int))),
        decreases count - next,
    {
        proof {
            lemma_le_fields();
            lemma_word_bytes_length(words@.take(next as int));
            lemma_word_bytes_length(words@.take(next + 1));
            assert(words@.take(next + 1).drop_last() =~= words@.take(next as int));
        }
        replace_word(heads, start + 8 * next as u64, words[next]);
        next = next + 1;
        assert(heads@ =~= patched(file, start as int, word_bytes(words@.take(next as int))));
    }
    assert(words@.take(count as int) =~= words@);
}

/// The roots of a bank.
pub open spec fn roots_at(heads: Seq<u8>, bucket_count: int, bank: int) -> Seq<u64> {
    Seq::new(bucket_count as nat, |i: int| le64(heads, bank_start(bucket_count, bank) + 8 * i))
}

/// The heads file with the roots of a bank replaced.
pub open spec fn with_roots(heads: Seq<u8>, bank: int, roots: Seq<u64>) -> Seq<u8> {
    patched(heads, bank_start(roots.len() as int, bank), word_bytes(roots))
}

/// Both banks lie behind each other inside the heads file.
pub proof fn lemma_banks(bucket_count: int)
    requires
        0 <= bucket_count,
    ensures
        bank_start(bucket_count, 0) + 8 * bucket_count <= bank_start(bucket_count, 1),
        bank_start(bucket_count, 1) + 8 * bucket_count <= heads_bytes(bucket_count),
        HEADS_START + 8 * bucket_count <= bank_start(bucket_count, 0),
        bank_start(bucket_count, 0) % 8 == 0,
        bank_start(bucket_count, 1) % 8 == 0,
{
    crate::layout::lemma_round_up(8 * bucket_count, FORMAT_PAGE_SIZE as int);
}

/// Roots that were written read back; the other bank and both manifests stay as they
/// were.
pub proof fn lemma_roots_written(heads: Seq<u8>, bank: int, roots: Seq<u64>)
    requires
        0 <= bank <= 1,
        heads.len() == heads_bytes(roots.len() as int),
    ensures
        ({
            let after = with_roots(heads, bank, roots);
            let count = roots.len() as int;
            &&& after.len() == heads.len()
            &&& roots_at(after, count, bank) == roots
            &&& roots_at(after, count, 1 - bank) == roots_at(heads, count, 1 - bank)
            &&& manifest_at(after, 0) == manifest_at(heads, 0)
            &&& manifest_at(after, 1) == manifest_at(heads, 1)
            &&& forall|k: int| 0 <= k < HEADS_START ==> after[k] == heads[k]
        }),
{
    let after = with_roots(heads, bank, roots);
    let count = roots.len() as int;
    let start = bank_start(count, bank);
    lemma_banks(count);
    lemma_word_bytes_length(roots);
    assert forall|i: int| 0 <= i < count implies #[trigger] le64(after, start + 8 * i)
        == roots[i] by {
        lemma_word_bytes(roots, i);
        lemma_patched_fields(heads, start, word_bytes(roots), start + 8 * i);
    }
    assert(roots_at(after, count, bank) =~= roots);
    let other = bank_start(count, 1 - bank);
    assert forall|i: int| 0 <= i < count implies #[trigger] le64(after, other + 8 * i) == le64(
        heads,
        other + 8 * i,
    ) by {
        lemma_patched_fields(heads, start, word_bytes(roots), other + 8 * i);
    }
    assert(roots_at(after, count, 1 - bank) =~= roots_at(heads, count, 1 - bank));
    lemma_other_manifest(heads, start, word_bytes(roots), 0);
    lemma_other_manifest(heads, start, word_bytes(roots), 1);
}

/// Reads the roots of a bank.
pub fn read_roots(
    heads: &[u8],
    bucket_count: u64,
    start: u64,
    bank: Ghost<int>,
) -> (roots: Vec<u64>)
    requires
        0 <= bank@ <= 1,
        start == bank_start(bucket_count as int, bank@),
        start + 8 * bucket_count <= heads.len(),
    ensures
        roots@ == roots_at(heads@, bucket_count as int, bank@),
        roots.len() == bucket_count,
{
    let mut roots: Vec<u64> = Vec::new();
    let ghost all = roots_at(heads@, bucket_count as int, bank@);
    let mut bucket: u64 = 0;
    while bucket < bucket_count
        invariant
            0 <= bank@ <= 1,
            start == bank_start(bucket_count as int, bank@),
            start + 8 * bucket_count <= heads.len(),
            bucket <= bucket_count,
            all == roots_at(heads@, bucket_count as int, bank@),
            roots@ == all.take(bucket as int),
        decreases bucket_count - bucket,
    {
        roots.push(read_le64(heads, (start + 8 * bucket) as usize));
        bucket = bucket + 1;
        assert(roots@ =~= all.take(bucket as int));
    }
    assert(all.take(bucket as int) =~= all);
    roots
}

} // verus!

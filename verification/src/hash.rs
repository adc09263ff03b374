//! XXH64 hashing.
//!
//! The table uses XXH64 for bucket selection and for every checksum of the
//! file format. Batch paths hash four keys per call.

pub mod laws;
pub mod vectors;

use vstd::prelude::*;

use crate::bytes::{read_le32, read_le64};
#[allow(unused_imports)]
use crate::bytes::{le32, le64};
#[allow(unused_imports)]
use crate::lanes::digests;
use crate::lanes::xxh64_lanes4;

verus! {

pub const PRIME_1: u64 = 11_400_714_785_074_694_791;

pub const PRIME_2: u64 = 14_029_467_366_897_019_727;

pub const PRIME_3: u64 = 1_609_587_929_392_839_161;

pub const PRIME_4: u64 = 9_650_029_242_287_828_579;

pub const PRIME_5: u64 = 2_870_177_450_012_600_261;

/// The four accumulators that 32-byte stripes feed.
pub struct Lanes {
    pub one: u64,
    pub two: u64,
    pub three: u64,
    pub four: u64,
}

/// `x` rotated left by `n` bits, `0 < n < 64`.
pub open spec fn rotated(x: u64, n: u64) -> u64 {
    (x << n) | (x >> ((64 - n) as u64))
}

/// One accumulator after taking in one word.
#[verifier::opaque]
pub open spec fn round_of(accumulator: u64, lane: u64) -> u64 {
    rotated(accumulator.wrapping_add(lane.wrapping_mul(PRIME_2)), 31).wrapping_mul(PRIME_1)
}

/// The merged state after folding in one accumulator.
#[verifier::opaque]
pub open spec fn merge_of(accumulator: u64, lane: u64) -> u64 {
    (accumulator ^ round_of(0, lane)).wrapping_mul(PRIME_1).wrapping_add(PRIME_4)
}

/// The accumulators after the first `n` stripes of `input`.
pub open spec fn striped(input: Seq<u8>, seed: u64, n: nat) -> Lanes
    decreases n,
{
    if n == 0 {
        Lanes {
            one: seed.wrapping_add(PRIME_1).wrapping_add(PRIME_2),
            two: seed.wrapping_add(PRIME_2),
            three: seed,
            four: seed.wrapping_sub(PRIME_1),
        }
    } else {
        let before = striped(input, seed, (n - 1) as nat);
        let at = 32 * (n - 1);
        Lanes {
            one: round_of(before.one, le64(input, at)),
            two: round_of(before.two, le64(input, at + 8)),
            three: round_of(before.three, le64(input, at + 16)),
            four: round_of(before.four, le64(input, at + 24)),
        }
    }
}

/// One hash out of the four accumulators.
pub open spec fn converged(lanes: Lanes) -> u64 {
    let combined = rotated(lanes.one, 1).wrapping_add(rotated(lanes.two, 7)).wrapping_add(
        rotated(lanes.three, 12),
    ).wrapping_add(rotated(lanes.four, 18));
    merge_of(merge_of(merge_of(merge_of(combined, lanes.one), lanes.two), lanes.three), lanes.four)
}

/// `hash` after taking in `n` words of `input` from `at` on.
pub open spec fn with_words(hash: u64, input: Seq<u8>, at: int, n: nat) -> u64
    decreases n,
{
    if n == 0 {
        hash
    } else {
        let before = with_words(hash, input, at, (n - 1) as nat);
        rotated(before ^ round_of(0, le64(input, at + 8 * (n - 1))), 27).wrapping_mul(
            PRIME_1,
        ).wrapping_add(PRIME_4)
    }
}

/// `hash` after taking in one half word.
pub open spec fn with_half_word(hash: u64, half: u32) -> u64 {
    rotated(hash ^ (half as u64).wrapping_mul(PRIME_1), 23).wrapping_mul(PRIME_2).wrapping_add(
        PRIME_3,
    )
}

/// `hash` after taking in `n` single bytes of `input` from `at` on.
pub open spec fn with_bytes(hash: u64, input: Seq<u8>, at: int, n: nat) -> u64
    decreases n,
{
    if n == 0 {
        hash
    } else {
        let before = with_bytes(hash, input, at, (n - 1) as nat);
        rotated(before ^ (input[at + n - 1] as u64).wrapping_mul(PRIME_5), 11).wrapping_mul(PRIME_1)
    }
}

/// The finalisation that spreads every input bit over the digest.
pub open spec fn avalanched(hash: u64) -> u64 {
    let first = (hash ^ (hash >> 33)).wrapping_mul(PRIME_2);
    let second = (first ^ (first >> 29)).wrapping_mul(PRIME_3);
    second ^ (second >> 32)
}

/// The XXH64 digest of `input` under `seed`.
#[verifier::opaque]
pub open spec fn digest(input: Seq<u8>, seed: u64) -> u64 {
    let length = input.len() as int;
    let start = if length >= 32 {
        converged(striped(input, seed, (length / 32) as nat))
    } else {
        seed.wrapping_add(PRIME_5)
    };
    let words_at = length / 32 * 32;
    let words = (length - words_at) / 8;
    let worded = with_words(start.wrapping_add(length as u64), input, words_at, words as nat);
    let half_at = words_at + 8 * words;
    let halved = length - half_at >= 4;
    let hash = if halved {
        with_half_word(worded, le32(input, half_at))
    } else {
        worded
    };
    let bytes_at = if halved {
        half_at + 4
    } else {
        half_at
    };
    avalanched(with_bytes(hash, input, bytes_at, (length - bytes_at) as nat))
}

/// Multiplying by a number that has an inverse tells different numbers apart.
proof fn lemma_multiplied(x: u64, y: u64, factor: u64, inverse: u64, carry: int)
    requires
        factor * inverse == 1 + carry * 0x1_0000_0000_0000_0000,
        x.wrapping_mul(factor) == y.wrapping_mul(factor),
    ensures
        x == y,
{
    let modulus: int = 0x1_0000_0000_0000_0000;
    let one = x * factor;
    let two = y * factor;
    vstd::arithmetic::div_mod::lemma_fundamental_div_mod(one, modulus);
    vstd::arithmetic::div_mod::lemma_fundamental_div_mod(two, modulus);
    assert(one % modulus == two % modulus);
    let apart = x - y;
    let turns = one / modulus - two / modulus;
    assert(apart * factor == modulus * turns) by (nonlinear_arith)
        requires
            apart == x - y,
            one == x * factor,
            two == y * factor,
            turns == one / modulus - two / modulus,
            one == modulus * (one / modulus) + one % modulus,
            two == modulus * (two / modulus) + two % modulus,
            one % modulus == two % modulus,
    ;
    let whole = turns * inverse - apart * carry;
    assert(apart == modulus * whole) by (nonlinear_arith)
        requires
            apart * factor == modulus * turns,
            factor * inverse == 1 + carry * modulus,
            whole == turns * inverse - apart * carry,
    ;
    assert(whole == 0) by (nonlinear_arith)
        requires
            apart == modulus * whole,
            -modulus < apart < modulus,
            modulus == 0x1_0000_0000_0000_0000,
    ;
}

/// The primes have inverses.
proof fn lemma_primes(x: u64, y: u64)
    ensures
        x.wrapping_mul(PRIME_1) == y.wrapping_mul(PRIME_1) ==> x == y,
        x.wrapping_mul(PRIME_2) == y.wrapping_mul(PRIME_2) ==> x == y,
        x.wrapping_mul(PRIME_3) == y.wrapping_mul(PRIME_3) ==> x == y,
{
    if x.wrapping_mul(PRIME_1) == y.wrapping_mul(PRIME_1) {
        lemma_multiplied(x, y, PRIME_1, 614540362697595703, 379806830464837242);
    }
    if x.wrapping_mul(PRIME_2) == y.wrapping_mul(PRIME_2) {
        lemma_multiplied(x, y, PRIME_2, 839798700976720815, 638699622168397319);
    }
    if x.wrapping_mul(PRIME_3) == y.wrapping_mul(PRIME_3) {
        lemma_multiplied(x, y, PRIME_3, 16855272203555305545, 1470722560960728959);
    }
}

/// The finalisation tells different hashes apart.
proof fn lemma_avalanched(x: u64, y: u64)
    ensures
        avalanched(x) == avalanched(y) ==> x == y,
{
    if avalanched(x) == avalanched(y) {
        let (x1, y1) = (x ^ (x >> 33), y ^ (y >> 33));
        let (x2, y2) = (x1.wrapping_mul(PRIME_2), y1.wrapping_mul(PRIME_2));
        let (x3, y3) = (x2 ^ (x2 >> 29), y2 ^ (y2 >> 29));
        let (x4, y4) = (x3.wrapping_mul(PRIME_3), y3.wrapping_mul(PRIME_3));
        assert(x4 ^ (x4 >> 32) == y4 ^ (y4 >> 32) ==> x4 == y4) by (bit_vector);
        lemma_primes(x3, y3);
        assert(x2 ^ (x2 >> 29) == y2 ^ (y2 >> 29) ==> x2 == y2) by (bit_vector);
        lemma_primes(x1, y1);
        assert(x ^ (x >> 33) == y ^ (y >> 33) ==> x == y) by (bit_vector);
    }
}

/// A round from zero tells different words apart.
proof fn lemma_round(x: u64, y: u64)
    ensures
        round_of(0, x) == round_of(0, y) ==> x == y,
{
    reveal(round_of);
    if round_of(0, x) == round_of(0, y) {
        let (x1, y1) = (x.wrapping_mul(PRIME_2), y.wrapping_mul(PRIME_2));
        assert(0u64.wrapping_add(x1) == x1 && 0u64.wrapping_add(y1) == y1);
        lemma_primes(rotated(x1, 31), rotated(y1, 31));
        assert((x1 << 31u64) | (x1 >> 33u64) == (y1 << 31u64) | (y1 >> 33u64) ==> x1 == y1)
            by (bit_vector);
        lemma_primes(x, y);
    }
}

/// The digest of eight bytes in terms of their word.
pub open spec fn word_digest(word: u64, seed: u64) -> u64 {
    let start = seed.wrapping_add(PRIME_5).wrapping_add(8);
    avalanched(
        rotated(start ^ round_of(0, word), 27).wrapping_mul(PRIME_1).wrapping_add(PRIME_4),
    )
}

proof fn lemma_word_digest(input: Seq<u8>, seed: u64)
    requires
        input.len() == 8,
    ensures
        digest(input, seed) == word_digest(le64(input, 0), seed),
{
    reveal(digest);
    reveal_with_fuel(with_words, 2);
    reveal_with_fuel(with_bytes, 1);
}

/// What enters a word digest comes out of it again.
proof fn lemma_mixed(x: u64, y: u64)
    ensures
        avalanched(rotated(x, 27).wrapping_mul(PRIME_1).wrapping_add(PRIME_4)) == avalanched(
            rotated(y, 27).wrapping_mul(PRIME_1).wrapping_add(PRIME_4),
        ) ==> x == y,
{
    let (x1, y1) = (rotated(x, 27), rotated(y, 27));
    let (x2, y2) = (x1.wrapping_mul(PRIME_1), y1.wrapping_mul(PRIME_1));
    lemma_avalanched(x2.wrapping_add(PRIME_4), y2.wrapping_add(PRIME_4));
    lemma_primes(x1, y1);
    assert((x << 27u64) | (x >> 37u64) == (y << 27u64) | (y >> 37u64) ==> x == y) by (bit_vector);
}

/// Under one seed, different inputs of eight bytes have different digests.
pub proof fn law_digest_tells_words_apart(one: Seq<u8>, two: Seq<u8>, seed: u64)
    requires
        one.len() == 8,
        two.len() == 8,
        one != two,
    ensures
        digest(one, seed) != digest(two, seed),
{
    let (x, y) = (le64(one, 0), le64(two, 0));
    lemma_word_digest(one, seed);
    lemma_word_digest(two, seed);
    crate::bytes::lemma_le64_bytes(one, 0);
    crate::bytes::lemma_le64_bytes(two, 0);
    assert(one.subrange(0, 8) =~= one);
    assert(two.subrange(0, 8) =~= two);
    let start = seed.wrapping_add(PRIME_5).wrapping_add(8);
    let (a, b) = (round_of(0, x), round_of(0, y));
    lemma_mixed(start ^ a, start ^ b);
    assert(start ^ a == start ^ b ==> a == b) by (bit_vector);
    lemma_round(x, y);
}

/// Under different seeds, an input of eight bytes has different digests.
pub proof fn law_digest_tells_seeds_apart(input: Seq<u8>, one: u64, two: u64)
    requires
        input.len() == 8,
        one != two,
    ensures
        digest(input, one) != digest(input, two),
{
    lemma_word_digest(input, one);
    lemma_word_digest(input, two);
    let a = one.wrapping_add(PRIME_5).wrapping_add(8);
    let b = two.wrapping_add(PRIME_5).wrapping_add(8);
    let word = round_of(0, le64(input, 0));
    lemma_mixed(a ^ word, b ^ word);
    assert(a ^ word == b ^ word ==> a == b) by (bit_vector);
}

/// Rotates `x` left by `n` bits.
pub fn rotate_left(x: u64, n: u64) -> (result: u64)
    requires
        0 < n < 64,
    ensures
        result == rotated(x, n),
{
    (x << n) | (x >> (64 - n))
}

fn round(accumulator: u64, lane: u64) -> (result: u64)
    ensures
        result == round_of(accumulator, lane),
{
    proof {
        reveal(round_of);
    }
    rotate_left(accumulator.wrapping_add(lane.wrapping_mul(PRIME_2)), 31).wrapping_mul(PRIME_1)
}

fn merge_round(accumulator: u64, lane: u64) -> (result: u64)
    ensures
        result == merge_of(accumulator, lane),
{
    proof {
        reveal(merge_of);
    }
    (accumulator ^ round(0, lane)).wrapping_mul(PRIME_1).wrapping_add(PRIME_4)
}

fn avalanche(hash: u64) -> (result: u64)
    ensures
        result == avalanched(hash),
{
    let first: u64 = (hash ^ (hash >> 33)).wrapping_mul(PRIME_2);
    let second: u64 = (first ^ (first >> 29)).wrapping_mul(PRIME_3);
    second ^ (second >> 32)
}

/// Computes the XXH64 digest of `input` with the supplied seed.
#[must_use]
pub fn xxh64(input: &[u8], seed: u64) -> (hash: u64)
    ensures
        hash == digest(input@, seed),
{
    let length: usize = input.len();
    let mut at: usize = 0;
    let mut hash: u64;
    if length >= 32 {
        let mut one: u64 = seed.wrapping_add(PRIME_1).wrapping_add(PRIME_2);
        let mut two: u64 = seed.wrapping_add(PRIME_2);
        let mut three: u64 = seed;
        let mut four: u64 = seed.wrapping_sub(PRIME_1);
        let ghost mut stripes: nat = 0;
        while length - at >= 32
            invariant
                length == input.len(),
                at <= length,
                at == 32 * stripes,
                striped(input@, seed, stripes) == (Lanes { one, two, three, four }),
            decreases length - at,
        {
            one = round(one, read_le64(input, at));
            two = round(two, read_le64(input, at + 8));
            three = round(three, read_le64(input, at + 16));
            four = round(four, read_le64(input, at + 24));
            at = at + 32;
            proof {
                stripes = stripes + 1;
            }
        }
        assert(stripes == length / 32);
        let combined: u64 = rotate_left(one, 1).wrapping_add(rotate_left(two, 7)).wrapping_add(
            rotate_left(three, 12),
        ).wrapping_add(rotate_left(four, 18));
        hash =
        merge_round(merge_round(merge_round(merge_round(combined, one), two), three), four);
    } else {
        hash = seed.wrapping_add(PRIME_5);
    }
    assert(at == length / 32 * 32);
    hash = hash.wrapping_add(length as u64);
    let ghost words_at = at as int;
    let ghost start = hash;
    let ghost mut words: nat = 0;
    while length - at >= 8
        invariant
            length == input.len(),
            at <= length,
            at == words_at + 8 * words,
            hash == with_words(start, input@, words_at, words),
        decreases length - at,
    {
        hash = rotate_left(hash ^ round(0, read_le64(input, at)), 27).wrapping_mul(
            PRIME_1,
        ).wrapping_add(PRIME_4);
        at = at + 8;
        proof {
            words = words + 1;
        }
    }
    assert(words == (length - words_at) / 8);
    if length - at >= 4 {
        hash = rotate_left(hash ^ (read_le32(input, at) as u64).wrapping_mul(PRIME_1), 23)
            .wrapping_mul(PRIME_2).wrapping_add(PRIME_3);
        at = at + 4;
    }
    let ghost bytes_at = at as int;
    let ghost start = hash;
    while at < length
        invariant
            length == input.len(),
            bytes_at <= at <= length,
            hash == with_bytes(start, input@, bytes_at, (at - bytes_at) as nat),
        decreases length - at,
    {
        hash = rotate_left(hash ^ (input[at] as u64).wrapping_mul(PRIME_5), 11).wrapping_mul(
            PRIME_1,
        );
        at = at + 1;
    }
    proof {
        reveal(digest);
    }
    avalanche(hash)
}

/// Computes the digests of four inputs under one seed. Inputs of one length
/// are hashed in step.
pub fn xxh64_batch4(inputs: [&[u8]; 4], seed: u64) -> (hashes: [u64; 4])
    ensures
        digests(inputs, seed, hashes),
{
    let length: usize = inputs[0].len();
    if inputs[1].len() == length && inputs[2].len() == length && inputs[3].len() == length {
        return xxh64_lanes4(inputs, seed);
    }
    [
        xxh64(inputs[0], seed),
        xxh64(inputs[1], seed),
        xxh64(inputs[2], seed),
        xxh64(inputs[3], seed),
    ]
}

} // verus!

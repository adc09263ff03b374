//! The digest is that of XXH64.
//!
//! The steps are stated here with the numbers of the published algorithm, and in the order
//! in which it takes in an input: from the first byte to the last.

use vstd::prelude::*;

#[allow(unused_imports)]
use crate::bytes::{le32, le64, lemma_same_fields};
#[allow(unused_imports)]
use crate::hash::{
    avalanched, converged, digest, merge_of, rotated, round_of, striped, with_bytes, with_half_word,
    with_words, Lanes, PRIME_1, PRIME_2, PRIME_3, PRIME_4, PRIME_5,
};

verus! {

/// A rotation moves every bit to the place that is `n` further up, past the last place
/// round to the first.
pub proof fn law_rotation_moves_every_bit(x: u64, n: u64, bit: u64)
    requires
        0 < n < 64,
        bit < 64,
    ensures
        (rotated(x, n) >> ((bit + n) % 64) as u64) & 1 == (x >> bit) & 1,
{
    let to = ((bit + n) % 64) as u64;
    let back = (64 - n) as u64;
    assert((((x << n) | (x >> back)) >> to) & 1 == (x >> bit) & 1) by (bit_vector)
        requires
            0 < n < 64,
            bit < 64,
            back == 64 - n,
            to == (bit + n) % 64,
    ;
}

/// A rotation multiplies by a power of two, and adds what the product carries over: it is
/// stated for the amounts that occur.
pub proof fn law_rotation_multiplies(x: u64)
    ensures
        rotated(x, 1) == x * 0x2 % 0x1_0000_0000_0000_0000 + x as int / 0x8000_0000_0000_0000,
        rotated(x, 7) == x * 0x80 % 0x1_0000_0000_0000_0000 + x as int / 0x200_0000_0000_0000,
        rotated(x, 11) == x * 0x800 % 0x1_0000_0000_0000_0000 + x as int / 0x20_0000_0000_0000,
        rotated(x, 12) == x * 0x1000 % 0x1_0000_0000_0000_0000 + x as int / 0x10_0000_0000_0000,
        rotated(x, 18) == x * 0x4_0000 % 0x1_0000_0000_0000_0000 + x as int / 0x4000_0000_0000,
        rotated(x, 23) == x * 0x80_0000 % 0x1_0000_0000_0000_0000 + x as int / 0x200_0000_0000,
        rotated(x, 27) == x * 0x800_0000 % 0x1_0000_0000_0000_0000 + x as int / 0x20_0000_0000,
        rotated(x, 31) == x * 0x8000_0000 % 0x1_0000_0000_0000_0000 + x as int / 0x2_0000_0000,
{
    lemma_turned_by_one(x);
    lemma_turned_by_seven(x);
    lemma_turned_by_eleven(x);
    lemma_turned_by_twelve(x);
    lemma_turned_by_eighteen(x);
    lemma_turned_by_twenty_three(x);
    lemma_turned_by_twenty_seven(x);
    lemma_turned_by_thirty_one(x);
}

proof fn lemma_turned_by_one(x: u64)
    ensures
        rotated(x, 1) == x * 0x2 % 0x1_0000_0000_0000_0000 + x as int / 0x8000_0000_0000_0000,
{
    assert((x << 1u64) == (x % 0x8000_0000_0000_0000u64) * 0x2u64
        && x >> 63u64 == x / 0x8000_0000_0000_0000u64
        && ((x << 1u64) | (x >> 63u64)) == (x << 1u64) + (x >> 63u64))
        by (bit_vector);
}

proof fn lemma_turned_by_seven(x: u64)
    ensures
        rotated(x, 7) == x * 0x80 % 0x1_0000_0000_0000_0000 + x as int / 0x200_0000_0000_0000,
{
    assert((x << 7u64) == (x % 0x200_0000_0000_0000u64) * 0x80u64
        && x >> 57u64 == x / 0x200_0000_0000_0000u64
        && ((x << 7u64) | (x >> 57u64)) == (x << 7u64) + (x >> 57u64))
        by (bit_vector);
}

proof fn lemma_turned_by_eleven(x: u64)
    ensures
        rotated(x, 11) == x * 0x800 % 0x1_0000_0000_0000_0000 + x as int / 0x20_0000_0000_0000,
{
    assert((x << 11u64) == (x % 0x20_0000_0000_0000u64) * 0x800u64
        && x >> 53u64 == x / 0x20_0000_0000_0000u64
        && ((x << 11u64) | (x >> 53u64)) == (x << 11u64) + (x >> 53u64))
        by (bit_vector);
}

proof fn lemma_turned_by_twelve(x: u64)
    ensures
        rotated(x, 12) == x * 0x1000 % 0x1_0000_0000_0000_0000 + x as int / 0x10_0000_0000_0000,
{
    assert((x << 12u64) == (x % 0x10_0000_0000_0000u64) * 0x1000u64
        && x >> 52u64 == x / 0x10_0000_0000_0000u64
        && ((x << 12u64) | (x >> 52u64)) == (x << 12u64) + (x >> 52u64))
        by (bit_vector);
}

proof fn lemma_turned_by_eighteen(x: u64)
    ensures
        rotated(x, 18) == x * 0x4_0000 % 0x1_0000_0000_0000_0000 + x as int / 0x4000_0000_0000,
{
    assert((x << 18u64) == (x % 0x4000_0000_0000u64) * 0x4_0000u64
        && x >> 46u64 == x / 0x4000_0000_0000u64
        && ((x << 18u64) | (x >> 46u64)) == (x << 18u64) + (x >> 46u64))
        by (bit_vector);
}

proof fn lemma_turned_by_twenty_three(x: u64)
    ensures
        rotated(x, 23) == x * 0x80_0000 % 0x1_0000_0000_0000_0000 + x as int / 0x200_0000_0000,
{
    assert((x << 23u64) == (x % 0x200_0000_0000u64) * 0x80_0000u64
        && x >> 41u64 == x / 0x200_0000_0000u64
        && ((x << 23u64) | (x >> 41u64)) == (x << 23u64) + (x >> 41u64))
        by (bit_vector);
}

proof fn lemma_turned_by_twenty_seven(x: u64)
    ensures
        rotated(x, 27) == x * 0x800_0000 % 0x1_0000_0000_0000_0000 + x as int / 0x20_0000_0000,
{
    assert((x << 27u64) == (x % 0x20_0000_0000u64) * 0x800_0000u64
        && x >> 37u64 == x / 0x20_0000_0000u64
        && ((x << 27u64) | (x >> 37u64)) == (x << 27u64) + (x >> 37u64))
        by (bit_vector);
}

proof fn lemma_turned_by_thirty_one(x: u64)
    ensures
        rotated(x, 31) == x * 0x8000_0000 % 0x1_0000_0000_0000_0000 + x as int / 0x2_0000_0000,
{
    assert((x << 31u64) == (x % 0x2_0000_0000u64) * 0x8000_0000u64
        && x >> 33u64 == x / 0x2_0000_0000u64
        && ((x << 31u64) | (x >> 33u64)) == (x << 31u64) + (x >> 33u64))
        by (bit_vector);
}

/// One accumulator takes in one word: the word times the second prime is added, the sum
/// turned by 31 bits, and the result multiplied by the first prime.
pub proof fn law_round(accumulator: u64, word: u64)
    ensures
        ({
            let sum = (accumulator + word * 14_029_467_366_897_019_727)
                % 0x1_0000_0000_0000_0000;
            let turned = sum * 0x8000_0000 % 0x1_0000_0000_0000_0000 + sum / 0x2_0000_0000;
            round_of(accumulator, word) == turned * 11_400_714_785_074_694_791
                % 0x1_0000_0000_0000_0000
        }),
{
    let sum = accumulator.wrapping_add(word.wrapping_mul(PRIME_2));
    let turned = rotated(sum, 31);
    lemma_turned_by_thirty_one(sum);
    lemma_added_product(accumulator, word);
    lemma_product(turned);
    assert(round_of(accumulator, word) == turned.wrapping_mul(PRIME_1)) by {
        reveal(round_of);
    }
}

#[verifier::spinoff_prover]
proof fn lemma_added_product(accumulator: u64, word: u64)
    ensures
        accumulator.wrapping_add(word.wrapping_mul(PRIME_2)) == (accumulator + word
            * 14_029_467_366_897_019_727) % 0x1_0000_0000_0000_0000,
{
    let product = word * 14_029_467_366_897_019_727;
    vstd::arithmetic::div_mod::lemma_add_mod_noop_right(
        accumulator as int,
        product,
        0x1_0000_0000_0000_0000,
    );
    assert(word.wrapping_mul(PRIME_2) == product % 0x1_0000_0000_0000_0000);
}

#[verifier::spinoff_prover]
proof fn lemma_product(x: u64)
    ensures
        x.wrapping_mul(PRIME_1) == x * 11_400_714_785_074_694_791 % 0x1_0000_0000_0000_0000,
{
}

/// One accumulator is folded into the merged state.
pub proof fn law_merge(state: u64, lane: u64)
    ensures
        merge_of(state, lane) == ((state ^ round_of(0, lane)) * 11_400_714_785_074_694_791
            + 9_650_029_242_287_828_579) % 0x1_0000_0000_0000_0000,
{
    let folded = state ^ round_of(0, lane);
    let product = folded * 11_400_714_785_074_694_791;
    lemma_product(folded);
    vstd::arithmetic::div_mod::lemma_add_mod_noop(
        product,
        9_650_029_242_287_828_579,
        0x1_0000_0000_0000_0000,
    );
    vstd::arithmetic::div_mod::lemma_small_mod(
        9_650_029_242_287_828_579,
        0x1_0000_0000_0000_0000,
    );
    assert(merge_of(state, lane) == folded.wrapping_mul(PRIME_1).wrapping_add(PRIME_4)) by {
        reveal(merge_of);
    }
}

/// The state of a digest after a word of eight bytes.
pub open spec fn after_word(state: u64, word: u64) -> u64 {
    rotated(state ^ round_of(0, word), 27).wrapping_mul(11_400_714_785_074_694_791).wrapping_add(
        9_650_029_242_287_828_579,
    )
}

/// The state of a digest after a word of four bytes.
pub open spec fn after_half_word(state: u64, half: u32) -> u64 {
    rotated(
        state ^ (half as u64).wrapping_mul(11_400_714_785_074_694_791),
        23,
    ).wrapping_mul(14_029_467_366_897_019_727).wrapping_add(1_609_587_929_392_839_161)
}

/// The state of a digest after a single byte.
pub open spec fn after_byte(state: u64, byte: u8) -> u64 {
    rotated(
        state ^ (byte as u64).wrapping_mul(2_870_177_450_012_600_261),
        11,
    ).wrapping_mul(11_400_714_785_074_694_791)
}

/// The digest of a state.
pub open spec fn spread(state: u64) -> u64 {
    let one = (state ^ (state / 0x2_0000_0000)).wrapping_mul(14_029_467_366_897_019_727);
    let two = (one ^ (one / 0x2000_0000)).wrapping_mul(1_609_587_929_392_839_161);
    two ^ (two / 0x1_0000_0000)
}

/// The state of a digest after the last bytes of an input: words of eight bytes as long
/// as there are any, then one of four, then single bytes.
pub open spec fn after_rest(state: u64, rest: Seq<u8>) -> u64
    decreases rest.len(),
{
    if rest.len() >= 8 {
        after_rest(after_word(state, le64(rest, 0)), rest.skip(8))
    } else if rest.len() >= 4 {
        after_rest(after_half_word(state, le32(rest, 0)), rest.skip(4))
    } else if rest.len() > 0 {
        after_rest(after_byte(state, rest[0]), rest.skip(1))
    } else {
        state
    }
}

/// The accumulators after every whole stripe of `rest`, and the bytes behind them.
pub open spec fn after_stripes(lanes: Lanes, rest: Seq<u8>) -> (Lanes, Seq<u8>)
    decreases rest.len(),
{
    if rest.len() >= 32 {
        after_stripes(
            Lanes {
                one: round_of(lanes.one, le64(rest, 0)),
                two: round_of(lanes.two, le64(rest, 8)),
                three: round_of(lanes.three, le64(rest, 16)),
                four: round_of(lanes.four, le64(rest, 24)),
            },
            rest.skip(32),
        )
    } else {
        (lanes, rest)
    }
}

/// The accumulators that a seed starts from: its sums with the first two primes, with
/// the second, with none, and what is left of it without the first.
pub open spec fn starting(seed: u64) -> Lanes {
    Lanes {
        one: seed.wrapping_add(11_400_714_785_074_694_791).wrapping_add(
            14_029_467_366_897_019_727,
        ),
        two: seed.wrapping_add(14_029_467_366_897_019_727),
        three: seed,
        four: seed.wrapping_sub(11_400_714_785_074_694_791),
    }
}

/// The sum of the accumulators, turned by one, seven, twelve and eighteen bits, with
/// each of them folded in.
pub open spec fn gathered(lanes: Lanes) -> u64 {
    let sum = rotated(lanes.one, 1).wrapping_add(rotated(lanes.two, 7)).wrapping_add(
        rotated(lanes.three, 12),
    ).wrapping_add(rotated(lanes.four, 18));
    let one = merge_of(sum, lanes.one);
    let two = merge_of(one, lanes.two);
    let three = merge_of(two, lanes.three);
    merge_of(three, lanes.four)
}

/// The digest of an input of less than 32 bytes: the seed, the fifth prime and the
/// length begin the state, every byte enters it, and the state is spread out.
pub proof fn law_short_digest(input: Seq<u8>, seed: u64)
    requires
        input.len() < 32,
    ensures
        digest(input, seed) == spread(
            after_rest(
                seed.wrapping_add(2_870_177_450_012_600_261).wrapping_add(input.len() as u64),
                input,
            ),
        ),
{
    reveal(digest);
    let state = seed.wrapping_add(crate::hash::PRIME_5).wrapping_add(input.len() as u64);
    lemma_rest(state, input, 0);
    assert(input.skip(0) =~= input);
}

/// The digest of an input of 32 bytes or more: its stripes feed four accumulators, which
/// begin the state with the length, and the bytes behind the last stripe enter it.
pub proof fn law_long_digest(input: Seq<u8>, seed: u64)
    requires
        32 <= input.len() <= u64::MAX,
    ensures
        ({
            let (fed, rest) = after_stripes(starting(seed), input);
            let state = gathered(fed).wrapping_add(input.len() as u64);
            &&& rest.len() < 32
            &&& digest(input, seed) == spread(after_rest(state, rest))
        }),
{
    reveal(digest);
    let stripes = (input.len() / 32) as nat;
    assert(striped(input, seed, 0) == starting(seed));
    assert(input.skip(0) =~= input);
    lemma_stripes(input, seed, 0);
    let fed = striped(input, seed, stripes);
    assert(gathered(fed) == converged(fed));
    let state = converged(fed).wrapping_add(input.len() as u64);
    lemma_rest(state, input, 32 * stripes as int);
}

/// Stripes from the front.
proof fn lemma_stripes(input: Seq<u8>, seed: u64, n: nat)
    requires
        32 * n <= input.len(),
    ensures
        after_stripes(striped(input, seed, n), input.skip(32 * n as int)) == (
            striped(input, seed, (input.len() / 32) as nat),
            input.skip(32 * (input.len() / 32) as int),
        ),
    decreases input.len() - 32 * n,
{
    let rest = input.skip(32 * n as int);
    if rest.len() >= 32 {
        let at = 32 * n as int;
        lemma_same_fields(rest, 0, input, at, 8);
        lemma_same_fields(rest, 8, input, at + 8, 8);
        lemma_same_fields(rest, 16, input, at + 16, 8);
        lemma_same_fields(rest, 24, input, at + 24, 8);
        assert(rest.skip(32) =~= input.skip(32 * (n + 1) as int));
        lemma_stripes(input, seed, n + 1);
    }
}

/// The bytes behind the stripes from the front.
proof fn lemma_rest(state: u64, input: Seq<u8>, at: int)
    requires
        0 <= at <= input.len(),
        input.len() - at < 32,
    ensures
        ({
            let words = (input.len() - at) / 8;
            let worded = with_words(state, input, at, words as nat);
            let half_at = at + 8 * words;
            let halved = input.len() - half_at >= 4;
            let hash = if halved {
                with_half_word(worded, le32(input, half_at))
            } else {
                worded
            };
            let bytes_at = if halved {
                half_at + 4
            } else {
                half_at
            };
            avalanched(with_bytes(hash, input, bytes_at, (input.len() - bytes_at) as nat))
                == spread(after_rest(state, input.skip(at)))
        }),
    decreases input.len() - at,
{
    let rest = input.skip(at);
    if rest.len() >= 8 {
        let words = ((input.len() - at) / 8) as nat;
        let word = le64(input, at);
        lemma_same_fields(rest, 0, input, at, 8);
        assert(rest.skip(8) =~= input.skip(at + 8));
        lemma_words_from_front(state, input, at, words);
        lemma_rest(after_word(state, word), input, at + 8);
        assert((input.len() - (at + 8)) / 8 == words - 1);
    } else {
        assert(with_words(state, input, at, 0) == state);
        if rest.len() >= 4 {
            let half = le32(input, at);
            lemma_same_fields(rest, 0, input, at, 4);
            assert(rest.skip(4) =~= input.skip(at + 4));
            lemma_bytes_rest(after_half_word(state, half), input, at + 4);
        } else {
            lemma_bytes_rest(state, input, at);
        }
    }
}

/// The single bytes from the front.
proof fn lemma_bytes_rest(state: u64, input: Seq<u8>, at: int)
    requires
        0 <= at <= input.len(),
        input.len() - at < 4,
    ensures
        with_bytes(state, input, at, (input.len() - at) as nat) == after_rest(
            state,
            input.skip(at),
        ),
        avalanched(with_bytes(state, input, at, (input.len() - at) as nat)) == spread(
            after_rest(state, input.skip(at)),
        ),
    decreases input.len() - at,
{
    let rest = input.skip(at);
    let n = (input.len() - at) as nat;
    if n > 0 {
        assert(rest.skip(1) =~= input.skip(at + 1));
        lemma_bytes_from_front(state, input, at, n);
        lemma_bytes_rest(after_byte(state, input[at]), input, at + 1);
    }
    lemma_spread(with_bytes(state, input, at, n));
}

proof fn lemma_words_from_front(state: u64, input: Seq<u8>, at: int, n: nat)
    requires
        n > 0,
    ensures
        with_words(state, input, at, n) == with_words(
            with_words(state, input, at, 1),
            input,
            at + 8,
            (n - 1) as nat,
        ),
        with_words(state, input, at, 1) == after_word(state, le64(input, at)),
    decreases n,
{
    reveal_with_fuel(with_words, 2);
    if n > 1 {
        lemma_words_from_front(state, input, at, (n - 1) as nat);
        assert(at + 8 + 8 * (n - 2) == at + 8 * (n - 1));
    }
}

proof fn lemma_bytes_from_front(state: u64, input: Seq<u8>, at: int, n: nat)
    requires
        n > 0,
    ensures
        with_bytes(state, input, at, n) == with_bytes(
            with_bytes(state, input, at, 1),
            input,
            at + 1,
            (n - 1) as nat,
        ),
        with_bytes(state, input, at, 1) == after_byte(state, input[at]),
    decreases n,
{
    reveal_with_fuel(with_bytes, 2);
    if n > 1 {
        lemma_bytes_from_front(state, input, at, (n - 1) as nat);
    }
}

proof fn lemma_spread(state: u64)
    ensures
        avalanched(state) == spread(state),
{
    let one = (state ^ (state >> 33)).wrapping_mul(PRIME_2);
    let two = (one ^ (one >> 29)).wrapping_mul(PRIME_3);
    assert(state >> 33 == state / 0x2_0000_0000 && one >> 29 == one / 0x2000_0000 && two >> 32
        == two / 0x1_0000_0000) by (bit_vector);
}

} // verus!

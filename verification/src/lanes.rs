//! XXH64 of four inputs of one length, step by step in four lanes.

use vstd::prelude::*;

use crate::bytes::{read_le32, read_le64};
#[allow(unused_imports)]
use crate::bytes::{le32, le64};
use crate::hash::{rotate_left, PRIME_1, PRIME_2, PRIME_3, PRIME_4, PRIME_5};
#[allow(unused_imports)]
use crate::hash::{
    avalanched, converged, digest, merge_of, rotated, round_of, striped, with_bytes, with_half_word,
    with_words, Lanes,
};

verus! {

/// One word for each of four inputs.
#[derive(Clone, Copy)]
pub struct Quad {
    pub first: u64,
    pub second: u64,
    pub third: u64,
    pub fourth: u64,
}

/// Whether `hashes` are the digests of four inputs.
pub open spec fn digests(inputs: [&[u8]; 4], seed: u64, hashes: [u64; 4]) -> bool {
    forall|i: int| 0 <= i < 4 ==> hashes@[i] == digest(#[trigger] inputs@[i]@, seed)
}

/// Multiplies by way of 32-bit halves, as lanes without a wide product do.
pub fn multiply(left: u64, right: u64) -> (product: u64)
    ensures
        product == left.wrapping_mul(right),
{
    let left_low: u64 = left % 0x1_0000_0000;
    let left_high: u64 = left / 0x1_0000_0000;
    let right_low: u64 = right % 0x1_0000_0000;
    let right_high: u64 = right / 0x1_0000_0000;
    proof {
        lemma_half_product(left_low, right_low);
        lemma_half_product(left_high, right_low);
        lemma_half_product(left_low, right_high);
    }
    let low: u64 = left_low * right_low;
    let cross: u64 = (left_high * right_low).wrapping_add(left_low * right_high);
    let product: u64 = low.wrapping_add((cross % 0x1_0000_0000) * 0x1_0000_0000);
    proof {
        lemma_product(
            left as int,
            right as int,
            left_high as int,
            left_low as int,
            right_high as int,
            right_low as int,
        );
        let whole = left_high * right_low + left_low * right_high;
        assert(cross % 0x1_0000_0000 == whole % 0x1_0000_0000);
    }
    product
}

proof fn lemma_half_product(left: u64, right: u64)
    requires
        left < 0x1_0000_0000,
        right < 0x1_0000_0000,
    ensures
        0 <= left * right <= 0xffff_fffe_0000_0001,
{
    assert(0 <= left * right <= 0xffff_ffff * 0xffff_ffff) by (nonlinear_arith)
        requires
            0 <= left <= 0xffff_ffff,
            0 <= right <= 0xffff_ffff,
    ;
}

/// Of the product of two numbers in halves, only the low half of the middle
/// part matters.
proof fn lemma_product(
    left: int,
    right: int,
    left_high: int,
    left_low: int,
    right_high: int,
    right_low: int,
)
    requires
        left == left_high * 0x1_0000_0000 + left_low,
        right == right_high * 0x1_0000_0000 + right_low,
    ensures
        ({
            let cross = left_high * right_low + left_low * right_high;
            (left * right) % 0x1_0000_0000_0000_0000 == (left_low * right_low + (cross
                % 0x1_0000_0000) * 0x1_0000_0000) % 0x1_0000_0000_0000_0000
        }),
{
    let cross = left_high * right_low + left_low * right_high;
    let high = left_high * right_high;
    let low = left_low * right_low;
    assert(left * right == high * 0x1_0000_0000_0000_0000 + cross * 0x1_0000_0000 + low)
        by (nonlinear_arith)
        requires
            left == left_high * 0x1_0000_0000 + left_low,
            right == right_high * 0x1_0000_0000 + right_low,
            cross == left_high * right_low + left_low * right_high,
            high == left_high * right_high,
            low == left_low * right_low,
    ;
    let quotient = cross / 0x1_0000_0000;
    let rest = cross % 0x1_0000_0000;
    assert(cross == quotient * 0x1_0000_0000 + rest);
    assert(left * right == (high + quotient) * 0x1_0000_0000_0000_0000 + (low + rest
        * 0x1_0000_0000));
}

impl Quad {
    /// The word of a lane.
    pub open spec fn at(self, lane: int) -> u64 {
        if lane == 0 {
            self.first
        } else if lane == 1 {
            self.second
        } else if lane == 2 {
            self.third
        } else {
            self.fourth
        }
    }

    /// The same word in every lane.
    fn splat(word: u64) -> (quad: Quad)
        ensures
            forall|i: int| #[trigger] quad.at(i) == word,
    {
        Quad { first: word, second: word, third: word, fourth: word }
    }

    /// The eight bytes at `offset` of every input.
    fn load64(inputs: [&[u8]; 4], offset: usize) -> (quad: Quad)
        requires
            forall|i: int| 0 <= i < 4 ==> offset + 8 <= (#[trigger] inputs@[i])@.len(),
        ensures
            forall|i: int| 0 <= i < 4 ==> #[trigger] quad.at(i) == le64(inputs@[i]@, offset as int),
    {
        assert(offset + 8 <= inputs@[0]@.len() && offset + 8 <= inputs@[1]@.len());
        assert(offset + 8 <= inputs@[2]@.len() && offset + 8 <= inputs@[3]@.len());
        Quad {
            first: read_le64(inputs[0], offset),
            second: read_le64(inputs[1], offset),
            third: read_le64(inputs[2], offset),
            fourth: read_le64(inputs[3], offset),
        }
    }

    /// The four bytes at `offset` of every input.
    fn load32(inputs: [&[u8]; 4], offset: usize) -> (quad: Quad)
        requires
            forall|i: int| 0 <= i < 4 ==> offset + 4 <= (#[trigger] inputs@[i])@.len(),
        ensures
            forall|i: int|
                0 <= i < 4 ==> #[trigger] quad.at(i) == le32(inputs@[i]@, offset as int) as u64,
    {
        assert(offset + 4 <= inputs@[0]@.len() && offset + 4 <= inputs@[1]@.len());
        assert(offset + 4 <= inputs@[2]@.len() && offset + 4 <= inputs@[3]@.len());
        Quad {
            first: read_le32(inputs[0], offset) as u64,
            second: read_le32(inputs[1], offset) as u64,
            third: read_le32(inputs[2], offset) as u64,
            fourth: read_le32(inputs[3], offset) as u64,
        }
    }

    /// The byte at `offset` of every input.
    fn load8(inputs: [&[u8]; 4], offset: usize) -> (quad: Quad)
        requires
            forall|i: int| 0 <= i < 4 ==> offset < (#[trigger] inputs@[i])@.len(),
        ensures
            forall|i: int|
                0 <= i < 4 ==> #[trigger] quad.at(i) == inputs@[i]@[offset as int] as u64,
    {
        assert(offset < inputs@[0]@.len() && offset < inputs@[1]@.len());
        assert(offset < inputs@[2]@.len() && offset < inputs@[3]@.len());
        Quad {
            first: inputs[0][offset] as u64,
            second: inputs[1][offset] as u64,
            third: inputs[2][offset] as u64,
            fourth: inputs[3][offset] as u64,
        }
    }

    fn plus(self, other: Quad) -> (sum: Quad)
        ensures
            forall|i: int| #[trigger] sum.at(i) == self.at(i).wrapping_add(other.at(i)),
    {
        Quad {
            first: self.first.wrapping_add(other.first),
            second: self.second.wrapping_add(other.second),
            third: self.third.wrapping_add(other.third),
            fourth: self.fourth.wrapping_add(other.fourth),
        }
    }

    fn mixed(self, other: Quad) -> (result: Quad)
        ensures
            forall|i: int| #[trigger] result.at(i) == self.at(i) ^ other.at(i),
    {
        Quad {
            first: self.first ^ other.first,
            second: self.second ^ other.second,
            third: self.third ^ other.third,
            fourth: self.fourth ^ other.fourth,
        }
    }

    fn turned(self, n: u64) -> (result: Quad)
        requires
            0 < n < 64,
        ensures
            forall|i: int| #[trigger] result.at(i) == rotated(self.at(i), n),
    {
        Quad {
            first: rotate_left(self.first, n),
            second: rotate_left(self.second, n),
            third: rotate_left(self.third, n),
            fourth: rotate_left(self.fourth, n),
        }
    }

    fn shifted_down(self, n: u64) -> (result: Quad)
        requires
            n < 64,
        ensures
            forall|i: int| #[trigger] result.at(i) == self.at(i) >> n,
    {
        Quad {
            first: self.first >> n,
            second: self.second >> n,
            third: self.third >> n,
            fourth: self.fourth >> n,
        }
    }

    fn times(self, prime: u64) -> (product: Quad)
        ensures
            forall|i: int| #[trigger] product.at(i) == self.at(i).wrapping_mul(prime),
    {
        Quad {
            first: multiply(self.first, prime),
            second: multiply(self.second, prime),
            third: multiply(self.third, prime),
            fourth: multiply(self.fourth, prime),
        }
    }

    fn round(self, lane: Quad) -> (result: Quad)
        ensures
            forall|i: int| #[trigger] result.at(i) == round_of(self.at(i), lane.at(i)),
    {
        proof {
            reveal(round_of);
        }
        self.plus(lane.times(PRIME_2)).turned(31).times(PRIME_1)
    }

    fn merge_round(self, lane: Quad) -> (result: Quad)
        ensures
            forall|i: int| #[trigger] result.at(i) == merge_of(self.at(i), lane.at(i)),
    {
        proof {
            reveal(merge_of);
        }
        self.mixed(Quad::splat(0).round(lane)).times(PRIME_1).plus(Quad::splat(PRIME_4))
    }
}

/// The accumulators of four inputs after their whole stripes, as one word each.
fn stripes(inputs: [&[u8]; 4], seed: u64, length: usize) -> (result: (Quad, usize))
    requires
        length >= 32,
        forall|i: int| 0 <= i < 4 ==> (#[trigger] inputs@[i])@.len() == length,
    ensures
        result.1 == length / 32 * 32,
        forall|i: int|
            0 <= i < 4 ==> #[trigger] result.0.at(i) == converged(
                striped(inputs@[i]@, seed, (length / 32) as nat),
            ),
{
    let mut one = Quad::splat(seed.wrapping_add(PRIME_1).wrapping_add(PRIME_2));
    let mut two = Quad::splat(seed.wrapping_add(PRIME_2));
    let mut three = Quad::splat(seed);
    let mut four = Quad::splat(seed.wrapping_sub(PRIME_1));
    let mut offset: usize = 0;
    let ghost mut done: nat = 0;
    while length - offset >= 32
        invariant
            offset <= length,
            offset == 32 * done,
            forall|i: int| 0 <= i < 4 ==> (#[trigger] inputs@[i])@.len() == length,
            forall|i: int|
                0 <= i < 4 ==> striped(#[trigger] inputs@[i]@, seed, done) == (Lanes {
                    one: one.at(i),
                    two: two.at(i),
                    three: three.at(i),
                    four: four.at(i),
                }),
        decreases length - offset,
    {
        one = one.round(Quad::load64(inputs, offset));
        two = two.round(Quad::load64(inputs, offset + 8));
        three = three.round(Quad::load64(inputs, offset + 16));
        four = four.round(Quad::load64(inputs, offset + 24));
        offset = offset + 32;
        proof {
            done = done + 1;
        }
    }
    assert(done == length / 32);
    let combined = one.turned(1).plus(two.turned(7)).plus(three.turned(12)).plus(four.turned(18));
    let hash = combined.merge_round(one).merge_round(two).merge_round(three).merge_round(four);
    proof {
        assert forall|i: int| 0 <= i < 4 implies #[trigger] hash.at(i) == converged(
            striped(inputs@[i]@, seed, (length / 32) as nat),
        ) by {
            assert(striped(inputs@[i]@, seed, done) == (Lanes {
                one: one.at(i),
                two: two.at(i),
                three: three.at(i),
                four: four.at(i),
            }));
        }
    }
    (hash, offset)
}

/// The digest of one input, from its last step on: what is left is mixed in.
pub open spec fn finished(input: Seq<u8>, start: u64, at: int) -> u64 {
    let length = input.len() as int;
    let words = (length - at) / 8;
    let worded = with_words(start.wrapping_add(length as u64), input, at, words as nat);
    let half_at = at + 8 * words;
    let halved = length - half_at >= 4;
    let hash = if halved {
        with_half_word(worded, le32(input, half_at))
    } else {
        worded
    };
    let bytes_at = if halved {
        half_at + 4
    } else {
        half_at
    };
    avalanched(with_bytes(hash, input, bytes_at, (length - bytes_at) as nat))
}

/// Mixes what is left of four inputs into their hashes.
fn finish(inputs: [&[u8]; 4], start: Quad, at: usize, length: usize) -> (hash: Quad)
    requires
        at <= length,
        forall|i: int| 0 <= i < 4 ==> (#[trigger] inputs@[i])@.len() == length,
    ensures
        forall|i: int|
            0 <= i < 4 ==> #[trigger] hash.at(i) == finished(inputs@[i]@, start.at(i), at as int),
{
    let begun = start.plus(Quad::splat(length as u64));
    let mut hash = begun;
    let mut offset: usize = at;
    let ghost mut words: nat = 0;
    while length - offset >= 8
        invariant
            at <= offset <= length,
            offset == at + 8 * words,
            forall|i: int| 0 <= i < 4 ==> (#[trigger] inputs@[i])@.len() == length,
            forall|i: int|
                0 <= i < 4 ==> #[trigger] hash.at(i) == with_words(
                    begun.at(i),
                    inputs@[i]@,
                    at as int,
                    words,
                ),
        decreases length - offset,
    {
        let ghost earlier = hash;
        let word = Quad::splat(0).round(Quad::load64(inputs, offset));
        hash = hash.mixed(word).turned(27).times(PRIME_1).plus(Quad::splat(PRIME_4));
        proof {
            assert forall|i: int| 0 <= i < 4 implies #[trigger] hash.at(i) == with_words(
                begun.at(i),
                inputs@[i]@,
                at as int,
                words + 1,
            ) by {
                assert(earlier.at(i) == with_words(begun.at(i), inputs@[i]@, at as int, words));
            }
            words = words + 1;
        }
        offset = offset + 8;
    }
    let ghost worded = hash;
    assert(words == (length - at) / 8);
    if length - offset >= 4 {
        let half = Quad::load32(inputs, offset);
        hash = hash.mixed(half.times(PRIME_1)).turned(23).times(PRIME_2).plus(
            Quad::splat(PRIME_3),
        );
        proof {
            assert forall|i: int| 0 <= i < 4 implies #[trigger] hash.at(i) == with_half_word(
                worded.at(i),
                le32(inputs@[i]@, offset as int),
            ) by {
                assert(half.at(i) == le32(inputs@[i]@, offset as int) as u64);
            }
        }
        offset = offset + 4;
    }
    let ghost halved = hash;
    let ghost bytes_at = offset as int;
    while offset < length
        invariant
            bytes_at <= offset <= length,
            forall|i: int| 0 <= i < 4 ==> (#[trigger] inputs@[i])@.len() == length,
            forall|i: int|
                0 <= i < 4 ==> #[trigger] hash.at(i) == with_bytes(
                    halved.at(i),
                    inputs@[i]@,
                    bytes_at,
                    (offset - bytes_at) as nat,
                ),
        decreases length - offset,
    {
        let ghost earlier = hash;
        let bytes = Quad::load8(inputs, offset);
        hash = hash.mixed(bytes.times(PRIME_5)).turned(11).times(PRIME_1);
        proof {
            assert forall|i: int| 0 <= i < 4 implies #[trigger] hash.at(i) == with_bytes(
                halved.at(i),
                inputs@[i]@,
                bytes_at,
                (offset + 1 - bytes_at) as nat,
            ) by {
                assert(earlier.at(i) == with_bytes(
                    halved.at(i),
                    inputs@[i]@,
                    bytes_at,
                    (offset - bytes_at) as nat,
                ));
                assert(bytes.at(i) == inputs@[i]@[offset as int] as u64);
            }
        }
        offset = offset + 1;
    }
    let ghost mixed = hash;
    hash = hash.mixed(hash.shifted_down(33)).times(PRIME_2);
    hash = hash.mixed(hash.shifted_down(29)).times(PRIME_3);
    hash = hash.mixed(hash.shifted_down(32));
    proof {
        assert forall|i: int| 0 <= i < 4 implies #[trigger] hash.at(i) == finished(
            inputs@[i]@,
            start.at(i),
            at as int,
        ) by {
            assert(hash.at(i) == avalanched(mixed.at(i)));
            assert(mixed.at(i) == with_bytes(
                halved.at(i),
                inputs@[i]@,
                bytes_at,
                (length - bytes_at) as nat,
            ));
            assert(worded.at(i) == with_words(begun.at(i), inputs@[i]@, at as int, words));
        }
    }
    hash
}

/// Computes the digests of four inputs of one length in step.
pub fn xxh64_lanes4(inputs: [&[u8]; 4], seed: u64) -> (hashes: [u64; 4])
    requires
        forall|i: int| 0 <= i < 4 ==> (#[trigger] inputs@[i])@.len() == inputs@[0]@.len(),
    ensures
        digests(inputs, seed, hashes),
{
    let length: usize = inputs[0].len();
    let (start, at) = if length >= 32 {
        stripes(inputs, seed, length)
    } else {
        (Quad::splat(seed.wrapping_add(PRIME_5)), 0)
    };
    let hash = finish(inputs, start, at, length);
    let hashes = [hash.first, hash.second, hash.third, hash.fourth];
    proof {
        reveal(digest);
        assert forall|i: int| 0 <= i < 4 implies hashes@[i] == digest(
            #[trigger] inputs@[i]@,
            seed,
        ) by {
            assert(hashes@[i] == hash.at(i));
            assert(hash.at(i) == finished(inputs@[i]@, start.at(i), at as int));
        }
    }
    hashes
}

/// Four inputs have four digests, each that of its own input under the seed.
pub proof fn law_four_digests(inputs: [&[u8]; 4], seed: u64, hashes: [u64; 4])
    ensures
        digests(inputs, seed, hashes) <==> {
            &&& hashes@[0] == digest(inputs@[0]@, seed)
            &&& hashes@[1] == digest(inputs@[1]@, seed)
            &&& hashes@[2] == digest(inputs@[2]@, seed)
            &&& hashes@[3] == digest(inputs@[3]@, seed)
        },
{
    if digests(inputs, seed, hashes) {
        assert(inputs@[0] == inputs@[0]);
        assert(inputs@[1] == inputs@[1]);
        assert(inputs@[2] == inputs@[2]);
        assert(inputs@[3] == inputs@[3]);
    }
}

} // verus!

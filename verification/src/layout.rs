//! Constants and alignment helpers for the persistent file format.

use vstd::prelude::*;
#[allow(unused_imports)]
use vstd::arithmetic::power2::pow2;

verus! {

/// Unit in which every backing file is laid out.
pub const FORMAT_PAGE_SIZE: u64 = 65_536;

/// Offset of the first data page of a body or blob file.
pub const DATA_START: u64 = 65_536;

/// Offset of the persisted bucket heads.
pub const HEADS_START: u64 = 65_536;

/// Bytes of one body node.
pub const NODE_SIZE: usize = 32;

/// [`NODE_SIZE`] as a file length.
pub const NODE_SIZE_U64: u64 = 32;

/// Alignment of every body node.
pub const NODE_ALIGNMENT: u64 = 32;

/// Offset of the key inside a node.
pub const NODE_KEY_OFFSET: usize = 0;

/// Offset of the tagged value word inside a node.
pub const NODE_VALUE_OFFSET: usize = 16;

/// Offset of the packed pointer word inside a node.
pub const NODE_POINTER_OFFSET: usize = 24;

/// One past the largest next-node offset that a packed pointer can hold.
pub const NODE_POINTER_LIMIT: u64 = 0x1_0000_0000_0000;

/// Seed of the node checksum.
pub const NODE_CHECKSUM_SEED: u64 = 0x4341_534e_4f44_4532;

/// Value words from here up hold a blob offset; smaller ones are inline values.
pub const VALUE_BLOB_TAG: u64 = 0x8000_0000_0000_0000;

/// Bytes in front of every blob value.
pub const BLOB_HEADER_SIZE: usize = 8;

/// Seed of the blob checksum.
pub const BLOB_CHECKSUM_SEED: u64 = 0x4341_5342_4c4f_4232;

/// Whether `n` is a power of two.
pub open spec fn power_of_two(n: int) -> bool
    decreases n,
{
    n == 1 || (n > 1 && n % 2 == 0 && power_of_two(n / 2))
}

/// Tests whether `n` is a power of two.
pub fn is_power_of_two(n: u64) -> (result: bool)
    ensures
        result == power_of_two(n as int),
{
    if n == 0 {
        return false;
    }
    let mut rest: u64 = n;
    while rest % 2 == 0
        invariant
            rest > 0,
            power_of_two(n as int) == power_of_two(rest as int),
        decreases rest,
    {
        rest = rest / 2;
    }
    rest == 1
}

/// The smallest multiple of `alignment` that is no smaller than `value`.
pub open spec fn round_up(value: int, alignment: int) -> int {
    (value + alignment - 1) / alignment * alignment
}

/// Rounds `value` up to a multiple of `alignment`; none when `alignment` is no
/// power of two or the rounding does not fit.
pub fn align_up(value: u64, alignment: u64) -> (result: Option<u64>)
    ensures
        result == (if power_of_two(alignment as int) && value + alignment - 1 <= u64::MAX {
            Some(round_up(value as int, alignment as int) as u64)
        } else {
            None
        }),
        result is Some ==> round_up(value as int, alignment as int) <= u64::MAX,
{
    if !is_power_of_two(alignment) {
        return None;
    }
    let mask = alignment - 1;
    match value.checked_add(mask) {
        Some(sum) => {
            proof {
                lemma_round_up(value as int, alignment as int);
                vstd::arithmetic::div_mod::lemma_fundamental_div_mod(sum as int, alignment as int);
                vstd::arithmetic::mul::lemma_mul_is_commutative(
                    sum as int / alignment as int,
                    alignment as int,
                );
            }
            Some(sum - sum % alignment)
        },
        None => None,
    }
}

/// Rounding up gives a multiple of the alignment, at or above the value and
/// less than one alignment away from it.
pub proof fn lemma_round_up(value: int, alignment: int)
    requires
        alignment > 0,
    ensures
        value <= round_up(value, alignment) < value + alignment,
        round_up(value, alignment) % alignment == 0,
{
    let sum = value + alignment - 1;
    vstd::arithmetic::div_mod::lemma_fundamental_div_mod(sum, alignment);
    vstd::arithmetic::mul::lemma_mul_is_commutative(sum / alignment, alignment);
    vstd::arithmetic::div_mod::lemma_mod_multiples_basic(sum / alignment, alignment);
    vstd::arithmetic::div_mod::lemma_mod_bound(sum, alignment);
}

/// The powers of two are one, and what comes of doubling it again and again.
pub proof fn law_power_of_two(n: int)
    ensures
        power_of_two(n) <==> exists|e: nat| n == #[trigger] pow2(e),
    decreases n,
{
    vstd::arithmetic::power2::lemma2_to64();
    if n == 1 {
        assert(n == pow2(0));
    } else if power_of_two(n) {
        law_power_of_two(n / 2);
        let e = choose|e: nat| n / 2 == #[trigger] pow2(e);
        vstd::arithmetic::power2::lemma_pow2_unfold(e + 1);
        assert(n == pow2(e + 1));
    } else if exists|e: nat| n == #[trigger] pow2(e) {
        let e = choose|e: nat| n == #[trigger] pow2(e);
        vstd::arithmetic::power2::lemma_pow2_pos(e);
        vstd::arithmetic::power2::lemma_pow2_unfold(e);
        assert(n / 2 == pow2((e - 1) as nat));
        law_power_of_two(n / 2);
    }
}

} // verus!

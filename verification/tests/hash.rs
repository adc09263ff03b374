//! XXH64, one input at a time and four at once.

use floresta_db::hash::xxh64_batch4;
use floresta_db::lanes::{multiply, xxh64_lanes4};
use floresta_db::xxh64;

#[test]
fn matches_official_seed_zero_vectors() {
    assert_eq!(xxh64(b"", 0), 0xef46_db37_51d8_e999);
    assert_eq!(xxh64(b"a", 0), 0xd24e_c4f1_a98c_6e5b);
    assert_eq!(xxh64(b"abc", 0), 0x44bc_2cf5_ad77_0999);
}

#[test]
fn hashes_every_tail_length() {
    let bytes: Vec<u8> = (0..96).collect();
    let hashes: Vec<u64> = (0..bytes.len())
        .map(|length| xxh64(&bytes[..length], 1))
        .collect();
    assert!(hashes.windows(2).all(|pair| pair[0] != pair[1]));
}

fn lanes() -> [Vec<u8>; 4] {
    std::array::from_fn(|lane| {
        (0_u16..160)
            .map(|byte| {
                u8::try_from(byte)
                    .unwrap_or(u8::MAX)
                    .wrapping_mul(u8::try_from(lane + 1).unwrap_or(u8::MAX))
                    .wrapping_add(u8::try_from(lane * 17).unwrap_or(u8::MAX))
            })
            .collect()
    })
}

#[test]
fn simd_batch_matches_scalar_for_every_tail_length() {
    let lanes = lanes();
    for seed in [0, 1, 0x0123_4567_89ab_cdef, u64::MAX] {
        for length in 0..=128 {
            let inputs = [
                &lanes[0][..length],
                &lanes[1][..length],
                &lanes[2][..length],
                &lanes[3][..length],
            ];
            let expected = inputs.map(|input| xxh64(input, seed));
            assert_eq!(xxh64_batch4(inputs, seed), expected);
            assert_eq!(xxh64_lanes4(inputs, seed), expected);
        }
    }
}

#[test]
fn unequal_batch_lengths_use_scalar_fallback() {
    let inputs: [&[u8]; 4] = [b"a", b"ab", b"abc", b"abcd"];
    assert_eq!(
        xxh64_batch4(inputs, 42),
        inputs.map(|input| xxh64(input, 42))
    );
}

#[test]
fn multiplies_through_halves() {
    for (left, right) in [
        (0, 0),
        (u64::MAX, u64::MAX),
        (0x1_0000_0000, 0x1_0000_0000),
        (0xdead_beef_0123_4567, 0x89ab_cdef_fedc_ba98),
    ] {
        assert_eq!(multiply(left, right), left.wrapping_mul(right));
    }
}

#[test]
fn digests_of_words_differ_where_the_words_or_the_seeds_do() {
    let words = [0_u64, 1, 1 << 63, u64::MAX, 0x0123_4567_89ab_cdef];
    for (i, one) in words.iter().enumerate() {
        for (j, two) in words.iter().enumerate() {
            let (a, b) = (one.to_le_bytes(), two.to_le_bytes());
            assert_eq!(xxh64(&a, 7) == xxh64(&b, 7), i == j);
            assert_eq!(xxh64(&a, *one) == xxh64(&a, *two), i == j);
        }
    }
}

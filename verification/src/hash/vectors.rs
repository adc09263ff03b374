//! Digests that are published for XXH64.

use vstd::prelude::*;

#[allow(unused_imports)]
use crate::bytes::{le32, le64};
#[allow(unused_imports)]
use crate::hash::{
    avalanched, converged, digest, merge_of, rotated, round_of, striped, with_bytes, with_half_word,
    with_words, Lanes, PRIME_1, PRIME_2, PRIME_3, PRIME_4, PRIME_5,
};

verus! {

/// The bytes of "xxhash".
pub open spec fn tool_name() -> Seq<u8> {
    seq![
        120u8, 120u8, 104u8, 97u8, 115u8, 104u8,
    ]
}

/// The bytes of "0123456789abcdef".
pub open spec fn hex_digits() -> Seq<u8> {
    seq![
        48u8, 49u8, 50u8, 51u8, 52u8, 53u8, 54u8, 55u8, 56u8, 57u8, 97u8, 98u8, 99u8, 100u8,
        101u8, 102u8,
    ]
}

/// The bytes of "Nobody inspects the spammish repetition".
pub open spec fn sentence() -> Seq<u8> {
    seq![
        78u8, 111u8, 98u8, 111u8, 100u8, 121u8, 32u8, 105u8, 110u8, 115u8, 112u8, 101u8, 99u8,
        116u8, 115u8, 32u8, 116u8, 104u8, 101u8, 32u8, 115u8, 112u8, 97u8, 109u8, 109u8, 105u8,
        115u8, 104u8, 32u8, 114u8, 101u8, 112u8, 101u8, 116u8, 105u8, 116u8, 105u8, 111u8,
        110u8,
    ]
}

/// The digests that are published for "xxhash" under a seed, for "0123456789abcdef", and
/// for "Nobody inspects the spammish repetition". Between them they take every step.
pub proof fn law_published_digests()
    ensures
        digest(tool_name(), 20_141_025) == 13_067_679_811_253_438_005,
        digest(hex_digits(), 0) == 0x5c5b_90c3_4e37_6d0b,
        digest(sentence(), 0) == 0xfbce_a83c_8a37_8bf1,
{
    lemma_short_vector();
    lemma_key_vector();
    lemma_long_vector();
}

proof fn lemma_word(s: Seq<u8>, at: int, word: u64)
    requires
        0 <= at,
        at + 8 <= s.len(),
        word == s[at] + 0x100 * s[at + 1] + 0x1_0000 * s[at + 2] + 0x100_0000 * s[at + 3]
            + 0x1_0000_0000 * s[at + 4] + 0x100_0000_0000 * s[at + 5] + 0x1_0000_0000_0000 * s[at
            + 6] + 0x100_0000_0000_0000 * s[at + 7],
    ensures
        le64(s, at) == word,
{
    crate::bytes::law_little_endian(s, at);
}

proof fn lemma_half_word(s: Seq<u8>, at: int, half: u32)
    requires
        0 <= at,
        at + 4 <= s.len(),
        half == s[at] + 0x100 * s[at + 1] + 0x1_0000 * s[at + 2] + 0x100_0000 * s[at + 3],
    ensures
        le32(s, at) == half,
{
    crate::bytes::law_little_endian(s, at);
}

proof fn lemma_short_bits()
    by (bit_vector)
    ensures
        0x27d4_eb2f_1789_bbacu64 ^ 0xdee9_0184_bb4e_3748u64 == 0xf93d_eaab_acc7_8ce4u64,
        ((0xf93d_eaab_acc7_8ce4u64 << 23u64) | (0xf93d_eaab_acc7_8ce4u64 >> 41u64))
            == 0x55d6_63c6_727c_9ef5u64,
        0x68f4_8ed3_4e7b_6e94u64 ^ 0xe4a5_a627_08d0_9d7fu64 == 0x8c51_28f4_46ab_f3ebu64,
        ((0x8c51_28f4_46ab_f3ebu64 << 11u64) | (0x8c51_28f4_46ab_f3ebu64 >> 53u64))
            == 0x8947_a235_5f9f_5c62u64,
        0x5158_6ba3_e3e5_0baeu64 ^ 0x2e7f_8b21_131a_2808u64 == 0x7f27_e082_f0ff_23a6u64,
        ((0x7f27_e082_f0ff_23a6u64 << 11u64) | (0x7f27_e082_f0ff_23a6u64 >> 53u64))
            == 0x3f04_1787_f91d_33f9u64,
        0x9738_2d3d_7bfb_e24fu64 >> 33u64 == 0x4b9c_169eu64,
        0x9738_2d3d_7bfb_e24fu64 ^ 0x4b9c_169eu64 == 0x9738_2d3d_3067_f4d1u64,
        0xd166_7180_f1e4_677fu64 >> 29u64 == 0x6_8b33_8c07u64,
        0xd166_7180_f1e4_677fu64 ^ 0x6_8b33_8c07u64 == 0xd166_7186_7ad7_eb78u64,
        0xb559_b98d_3117_bfb8u64 >> 32u64 == 0xb559_b98du64,
        0xb559_b98d_3117_bfb8u64 ^ 0xb559_b98du64 == 0xb559_b98d_844e_0635u64,
{
}

proof fn lemma_short_step_1()
    ensures
        with_half_word(0x27d4_eb2f_1789_bbac, 0x6168_7878) == 0x68f4_8ed3_4e7b_6e94,
{
    lemma_short_bits();
    assert(0x6168_7878u64.wrapping_mul(PRIME_1) == 0xdee9_0184_bb4e_3748);
    assert(0x55d6_63c6_727c_9ef5u64.wrapping_mul(PRIME_2) == 0x529e_2721_b043_f49b);
}

proof fn lemma_short_step_2()
    ensures
        rotated(0x68f4_8ed3_4e7b_6e94u64 ^ 115u64.wrapping_mul(PRIME_5), 11).wrapping_mul(PRIME_1)
            == 0x5158_6ba3_e3e5_0bae,
{
    lemma_short_bits();
    assert(115u64.wrapping_mul(PRIME_5) == 0xe4a5_a627_08d0_9d7f);
    assert(0x8947_a235_5f9f_5c62u64.wrapping_mul(PRIME_1) == 0x5158_6ba3_e3e5_0bae);
}

proof fn lemma_short_step_3()
    ensures
        rotated(0x5158_6ba3_e3e5_0baeu64 ^ 104u64.wrapping_mul(PRIME_5), 11).wrapping_mul(PRIME_1)
            == 0x9738_2d3d_7bfb_e24f,
{
    lemma_short_bits();
    assert(104u64.wrapping_mul(PRIME_5) == 0x2e7f_8b21_131a_2808);
    assert(0x3f04_1787_f91d_33f9u64.wrapping_mul(PRIME_1) == 0x9738_2d3d_7bfb_e24f);
}

proof fn lemma_short_step_4()
    ensures
        avalanched(0x9738_2d3d_7bfb_e24f) == 0xb559_b98d_844e_0635,
{
    lemma_short_bits();
    assert(0x9738_2d3d_3067_f4d1u64.wrapping_mul(PRIME_2) == 0xd166_7180_f1e4_677f);
    assert(0xd166_7186_7ad7_eb78u64.wrapping_mul(PRIME_3) == 0xb559_b98d_3117_bfb8);
}

proof fn lemma_short_digest(s: Seq<u8>)
    requires
        s.len() == 6,
        le32(s, 0) == 0x6168_7878,
        s[4] == 115,
        s[5] == 104,
    ensures
        digest(s, 20141025) == 0xb559_b98d_844e_0635,
{
    lemma_short_step_1();
    lemma_short_step_2();
    lemma_short_step_3();
    lemma_short_step_4();
    assert(20141025u64.wrapping_add(PRIME_5) == 0x27d4_eb2f_1789_bba6);
    assert(0x27d4_eb2f_1789_bba6u64.wrapping_add(6) == 0x27d4_eb2f_1789_bbac);
    assert(with_words(0x27d4_eb2f_1789_bbac, s, 0, 0) == 0x27d4_eb2f_1789_bbac);
    assert(with_bytes(0x68f4_8ed3_4e7b_6e94, s, 4, 0) == 0x68f4_8ed3_4e7b_6e94);
    assert(with_bytes(0x68f4_8ed3_4e7b_6e94, s, 4, 1) == 0x5158_6ba3_e3e5_0bae);
    assert(with_bytes(0x68f4_8ed3_4e7b_6e94, s, 4, 2) == 0x9738_2d3d_7bfb_e24f);
    reveal(digest);
}

proof fn lemma_short_vector()
    ensures
        digest(tool_name(), 20141025) == 0xb559_b98d_844e_0635,
{
    let s = tool_name();
    lemma_half_word(s, 0, 0x6168_7878);
    lemma_short_digest(s);
}

proof fn lemma_key_bits()
    by (bit_vector)
    ensures
        ((0xb35c_b999_eb64_3dd0u64 << 31u64) | (0xb35c_b999_eb64_3dd0u64 >> 33u64))
            == 0xf5b2_1ee8_59ae_5cccu64,
        0x27d4_eb2f_1656_67d5u64 ^ 0x7672_219c_0b6f_e794u64 == 0x51a6_cab3_1d39_8041u64,
        ((0x51a6_cab3_1d39_8041u64 << 27u64) | (0x51a6_cab3_1d39_8041u64 >> 37u64))
            == 0x98e9_cc02_0a8d_3655u64,
        ((0xb1ba_308d_85e7_1048u64 << 31u64) | (0xb1ba_308d_85e7_1048u64 >> 33u64))
            == 0xc2f3_8824_58dd_1846u64,
        0x261e_c67e_c910_6736u64 ^ 0x2fc2_c840_f801_08eau64 == 0x9dc_0e3e_3111_6fdcu64,
        ((0x9dc_0e3e_3111_6fdcu64 << 27u64) | (0x9dc_0e3e_3111_6fdcu64 >> 37u64))
            == 0xf188_8b7e_e04e_e071u64,
        0xefe5_f182_061f_33fau64 >> 33u64 == 0x77f2_f8c1u64,
        0xefe5_f182_061f_33fau64 ^ 0x77f2_f8c1u64 == 0xefe5_f182_71ed_cb3bu64,
        0xc6db_5fc7_bbcc_e035u64 >> 29u64 == 0x6_36da_fe3du64,
        0xc6db_5fc7_bbcc_e035u64 ^ 0x6_36da_fe3du64 == 0xc6db_5fc1_8d16_1e08u64,
        0x5c5b_90c3_126c_fdc8u64 >> 32u64 == 0x5c5b_90c3u64,
        0x5c5b_90c3_126c_fdc8u64 ^ 0x5c5b_90c3u64 == 0x5c5b_90c3_4e37_6d0bu64,
{
}

proof fn lemma_key_step_1()
    ensures
        round_of(0x0, 0x3736_3534_3332_3130) == 0x7672_219c_0b6f_e794,
{
    lemma_key_bits();
    reveal(round_of);
    assert(0x3736_3534_3332_3130u64.wrapping_mul(PRIME_2) == 0xb35c_b999_eb64_3dd0);
    assert(0x0u64.wrapping_add(0xb35c_b999_eb64_3dd0) == 0xb35c_b999_eb64_3dd0);
    assert(0xf5b2_1ee8_59ae_5cccu64.wrapping_mul(PRIME_1) == 0x7672_219c_0b6f_e794);
}

proof fn lemma_key_step_2()
    ensures
        rotated(0x27d4_eb2f_1656_67d5u64 ^ 0x7672_219c_0b6f_e794u64, 27).wrapping_mul(PRIME_1)
            .wrapping_add(PRIME_4)
            == 0x261e_c67e_c910_6736,
{
    lemma_key_bits();
    assert(0x98e9_cc02_0a8d_3655u64.wrapping_mul(PRIME_1) == 0xa032_fc07_065d_b8d3);
}

proof fn lemma_key_step_3()
    ensures
        round_of(0x0, 0x6665_6463_6261_3938) == 0x2fc2_c840_f801_08ea,
{
    lemma_key_bits();
    reveal(round_of);
    assert(0x6665_6463_6261_3938u64.wrapping_mul(PRIME_2) == 0xb1ba_308d_85e7_1048);
    assert(0x0u64.wrapping_add(0xb1ba_308d_85e7_1048) == 0xb1ba_308d_85e7_1048);
    assert(0xc2f3_8824_58dd_1846u64.wrapping_mul(PRIME_1) == 0x2fc2_c840_f801_08ea);
}

proof fn lemma_key_step_4()
    ensures
        rotated(0x261e_c67e_c910_6736u64 ^ 0x2fc2_c840_f801_08eau64, 27).wrapping_mul(PRIME_1)
            .wrapping_add(PRIME_4)
            == 0xefe5_f182_061f_33fa,
{
    lemma_key_bits();
    assert(0xf188_8b7e_e04e_e071u64.wrapping_mul(PRIME_1) == 0x69fa_270a_436c_8597);
}

proof fn lemma_key_step_5()
    ensures
        avalanched(0xefe5_f182_061f_33fa) == 0x5c5b_90c3_4e37_6d0b,
{
    lemma_key_bits();
    assert(0xefe5_f182_71ed_cb3bu64.wrapping_mul(PRIME_2) == 0xc6db_5fc7_bbcc_e035);
    assert(0xc6db_5fc1_8d16_1e08u64.wrapping_mul(PRIME_3) == 0x5c5b_90c3_126c_fdc8);
}

proof fn lemma_key_digest(s: Seq<u8>)
    requires
        s.len() == 16,
        le64(s, 0) == 0x3736_3534_3332_3130,
        le64(s, 8) == 0x6665_6463_6261_3938,
    ensures
        digest(s, 0) == 0x5c5b_90c3_4e37_6d0b,
{
    lemma_key_step_1();
    lemma_key_step_2();
    lemma_key_step_3();
    lemma_key_step_4();
    lemma_key_step_5();
    assert(0u64.wrapping_add(PRIME_5) == 0x27d4_eb2f_1656_67c5);
    assert(0x27d4_eb2f_1656_67c5u64.wrapping_add(16) == 0x27d4_eb2f_1656_67d5);
    assert(with_words(0x27d4_eb2f_1656_67d5, s, 0, 0) == 0x27d4_eb2f_1656_67d5);
    assert(with_words(0x27d4_eb2f_1656_67d5, s, 0, 1) == 0x261e_c67e_c910_6736);
    assert(with_words(0x27d4_eb2f_1656_67d5, s, 0, 2) == 0xefe5_f182_061f_33fa);
    assert(with_bytes(0xefe5_f182_061f_33fa, s, 16, 0) == 0xefe5_f182_061f_33fa);
    reveal(digest);
}

proof fn lemma_key_vector()
    ensures
        digest(hex_digits(), 0) == 0x5c5b_90c3_4e37_6d0b,
{
    let s = hex_digits();
    lemma_word(s, 0, 0x3736_3534_3332_3130);
    lemma_word(s, 8, 0x6665_6463_6261_3938);
    lemma_key_digest(s);
}

proof fn lemma_long_bits()
    by (bit_vector)
    ensures
        ((0x67da_963b_77e5_a8e8u64 << 31u64) | (0x67da_963b_77e5_a8e8u64 >> 33u64))
            == 0xbbf2_d474_33ed_4b1du64,
        ((0x81ab_3ef3_0896_8441u64 << 31u64) | (0x81ab_3ef3_0896_8441u64 >> 33u64))
            == 0x844b_4220_c0d5_9f79u64,
        ((0xa62_64cc_423d_b7ccu64 << 31u64) | (0xa62_64cc_423d_b7ccu64 >> 33u64))
            == 0x211e_dbe6_0531_3266u64,
        ((0xe08c_c7cc_90bc_cd1cu64 << 31u64) | (0xe08c_c7cc_90bc_cd1cu64 >> 33u64))
            == 0x485e_668e_7046_63e6u64,
        ((0x3724_5127_a406_7e4bu64 << 1u64) | (0x3724_5127_a406_7e4bu64 >> 63u64))
            == 0x6e48_a24f_480c_fc96u64,
        ((0x1b30_2b0a_818f_92cfu64 << 7u64) | (0x1b30_2b0a_818f_92cfu64 >> 57u64))
            == 0x9815_8540_c7c9_678du64,
        ((0xcd62_d843_d058_0fcau64 << 12u64) | (0xcd62_d843_d058_0fcau64 >> 52u64))
            == 0x2d84_3d05_80fc_acd6u64,
        ((0x1c16_e43e_f214_2a4au64 << 18u64) | (0x1c16_e43e_f214_2a4au64 >> 46u64))
            == 0x90fb_c850_a928_705bu64,
        ((0xbf0e_534a_970b_d225u64 << 31u64) | (0xbf0e_534a_970b_d225u64 >> 33u64))
            == 0x4b85_e912_df87_29a5u64,
        0xc4de_2ce6_39fb_8154u64 ^ 0x7790_ff1f_7a9a_2803u64 == 0xb34e_d3f9_4361_a957u64,
        ((0x40bc_c4c2_e37e_52e1u64 << 31u64) | (0x40bc_c4c2_e37e_52e1u64 >> 33u64))
            == 0x71bf_2970_a05e_6261u64,
        0x30d4_0ddd_00ae_a144u64 ^ 0xdece_d6c0_bf71_6b27u64 == 0xee1a_db1d_bfdf_ca63u64,
        ((0x1917_ffa4_faf3_4d56u64 << 31u64) | (0x1917_ffa4_faf3_4d56u64 >> 33u64))
            == 0x7d79_a6ab_0c8b_ffd2u64,
        0xe5a1_f095_bf49_8698u64 ^ 0x7007_3eb8_0575_9bbeu64 == 0x95a6_ce2d_ba3c_1d26u64,
        ((0x2898_226b_8252_fad6u64 << 31u64) | (0x2898_226b_8252_fad6u64 >> 33u64))
            == 0xc129_7d6b_144c_1135u64,
        0xf9ce_e721_e748_096du64 ^ 0xc1cb_bae5_0e57_e4f3u64 == 0x3805_5dc4_e91f_ed9eu64,
        0x84f2_2c42_1a11_a8dcu64 ^ 0xe986_3933_eb2b_1343u64 == 0x6d74_1571_f13a_bb9fu64,
        ((0x6d74_1571_f13a_bb9fu64 << 23u64) | (0x6d74_1571_f13a_bb9fu64 >> 41u64))
            == 0xb8f8_9d5d_cfb6_ba0au64,
        0x9fca_0f5d_0aaa_110fu64 ^ 0x5654_7650_2970_8fcdu64 == 0xc99e_790d_23da_9ec2u64,
        ((0xc99e_790d_23da_9ec2u64 << 11u64) | (0xc99e_790d_23da_9ec2u64 >> 53u64))
            == 0xf3c8_691e_d4f6_164cu64,
        0x7696_7154_6f21_ba14u64 ^ 0x4551_f96a_af76_fe6bu64 == 0x33c7_883e_c057_447fu64,
        ((0x33c7_883e_c057_447fu64 << 11u64) | (0x33c7_883e_c057_447fu64 >> 53u64))
            == 0x3c41_f602_ba23_f99eu64,
        0xeae9_b643_c5f9_4e52u64 ^ 0x1d7d_0e3b_9920_96a6u64 == 0xf794_b878_5cd9_d8f4u64,
        ((0xf794_b878_5cd9_d8f4u64 << 11u64) | (0xf794_b878_5cd9_d8f4u64 >> 53u64))
            == 0xa5c3_c2e6_cec7_a7bcu64,
        0x1d0a_4748_3b37_cc24u64 >> 33u64 == 0xe85_23a4u64,
        0x1d0a_4748_3b37_cc24u64 ^ 0xe85_23a4u64 == 0x1d0a_4748_35b2_ef80u64,
        0x5f02_14be_aa12_6880u64 >> 29u64 == 0x2_f810_a5f5u64,
        0x5f02_14be_aa12_6880u64 ^ 0x2_f810_a5f5u64 == 0x5f02_14bc_5202_cd75u64,
        0xfbce_a83c_71f9_23cdu64 >> 32u64 == 0xfbce_a83cu64,
        0xfbce_a83c_71f9_23cdu64 ^ 0xfbce_a83cu64 == 0xfbce_a83c_8a37_8bf1u64,
{
}

proof fn lemma_long_step_1()
    ensures
        round_of(0x60ea_27ee_adc0_b5d6, 0x6920_7964_6f62_6f4e) == 0x3724_5127_a406_7e4b,
{
    lemma_long_bits();
    reveal(round_of);
    assert(0x6920_7964_6f62_6f4eu64.wrapping_mul(PRIME_2) == 0x6f0_6e4c_ca24_f312);
    assert(0x60ea_27ee_adc0_b5d6u64.wrapping_add(0x6f0_6e4c_ca24_f312) == 0x67da_963b_77e5_a8e8);
    assert(0xbbf2_d474_33ed_4b1du64.wrapping_mul(PRIME_1) == 0x3724_5127_a406_7e4b);
}

proof fn lemma_long_step_2()
    ensures
        round_of(0xc2b2_ae3d_27d4_eb4f, 0x2073_7463_6570_736e) == 0x1b30_2b0a_818f_92cf,
{
    lemma_long_bits();
    reveal(round_of);
    assert(0x2073_7463_6570_736eu64.wrapping_mul(PRIME_2) == 0xbef8_90b5_e0c1_98f2);
    assert(0xc2b2_ae3d_27d4_eb4fu64.wrapping_add(0xbef8_90b5_e0c1_98f2) == 0x81ab_3ef3_0896_8441);
    assert(0x844b_4220_c0d5_9f79u64.wrapping_mul(PRIME_1) == 0x1b30_2b0a_818f_92cf);
}

proof fn lemma_long_step_3()
    ensures
        round_of(0x0, 0x6d61_7073_2065_6874) == 0xcd62_d843_d058_0fca,
{
    lemma_long_bits();
    reveal(round_of);
    assert(0x6d61_7073_2065_6874u64.wrapping_mul(PRIME_2) == 0xa62_64cc_423d_b7cc);
    assert(0x0u64.wrapping_add(0xa62_64cc_423d_b7cc) == 0xa62_64cc_423d_b7cc);
    assert(0x211e_dbe6_0531_3266u64.wrapping_mul(PRIME_1) == 0xcd62_d843_d058_0fca);
}

proof fn lemma_long_step_4()
    ensures
        round_of(0x61c8_864e_7a14_3579, 0x7065_7220_6873_696d) == 0x1c16_e43e_f214_2a4a,
{
    lemma_long_bits();
    reveal(round_of);
    assert(0x7065_7220_6873_696du64.wrapping_mul(PRIME_2) == 0x7ec4_417e_16a8_97a3);
    assert(0x61c8_864e_7a14_3579u64.wrapping_add(0x7ec4_417e_16a8_97a3) == 0xe08c_c7cc_90bc_cd1c);
    assert(0x485e_668e_7046_63e6u64.wrapping_mul(PRIME_1) == 0x1c16_e43e_f214_2a4a);
}

proof fn lemma_long_step_5()
    ensures
        rotated(0x3724_5127_a406_7e4b, 1).wrapping_add(rotated(0x1b30_2b0a_818f_92cf, 7))
            .wrapping_add(rotated(0xcd62_d843_d058_0fca, 12))
            .wrapping_add(rotated(0x1c16_e43e_f214_2a4a, 18))
            == 0xc4de_2ce6_39fb_8154,
{
    lemma_long_bits();
    assert(0x6e48_a24f_480c_fc96u64.wrapping_add(0x9815_8540_c7c9_678d) == 0x65e_2790_0fd6_6423);
    assert(0x65e_2790_0fd6_6423u64.wrapping_add(0x2d84_3d05_80fc_acd6) == 0x33e2_6495_90d3_10f9);
    assert(0x33e2_6495_90d3_10f9u64.wrapping_add(0x90fb_c850_a928_705b) == 0xc4de_2ce6_39fb_8154);
}

proof fn lemma_long_step_6()
    ensures
        round_of(0x0, 0x3724_5127_a406_7e4b) == 0x7790_ff1f_7a9a_2803,
{
    lemma_long_bits();
    reveal(round_of);
    assert(0x3724_5127_a406_7e4bu64.wrapping_mul(PRIME_2) == 0xbf0e_534a_970b_d225);
    assert(0x0u64.wrapping_add(0xbf0e_534a_970b_d225) == 0xbf0e_534a_970b_d225);
    assert(0x4b85_e912_df87_29a5u64.wrapping_mul(PRIME_1) == 0x7790_ff1f_7a9a_2803);
}

proof fn lemma_long_step_7()
    ensures
        merge_of(0xc4de_2ce6_39fb_8154, 0x3724_5127_a406_7e4b) == 0x30d4_0ddd_00ae_a144,
{
    lemma_long_bits();
    reveal(merge_of);
    lemma_long_step_6();
    assert(0xb34e_d3f9_4361_a957u64.wrapping_mul(PRIME_1) == 0xaae8_4365_3dfb_f2e1);
}

proof fn lemma_long_step_8()
    ensures
        round_of(0x0, 0x1b30_2b0a_818f_92cf) == 0xdece_d6c0_bf71_6b27,
{
    lemma_long_bits();
    reveal(round_of);
    assert(0x1b30_2b0a_818f_92cfu64.wrapping_mul(PRIME_2) == 0x40bc_c4c2_e37e_52e1);
    assert(0x0u64.wrapping_add(0x40bc_c4c2_e37e_52e1) == 0x40bc_c4c2_e37e_52e1);
    assert(0x71bf_2970_a05e_6261u64.wrapping_mul(PRIME_1) == 0xdece_d6c0_bf71_6b27);
}

proof fn lemma_long_step_9()
    ensures
        merge_of(0x30d4_0ddd_00ae_a144, 0x1b30_2b0a_818f_92cf) == 0xe5a1_f095_bf49_8698,
{
    lemma_long_bits();
    reveal(merge_of);
    lemma_long_step_8();
    assert(0xee1a_db1d_bfdf_ca63u64.wrapping_mul(PRIME_1) == 0x5fb6_261d_fc96_d835);
}

proof fn lemma_long_step_10()
    ensures
        round_of(0x0, 0xcd62_d843_d058_0fca) == 0x7007_3eb8_0575_9bbe,
{
    lemma_long_bits();
    reveal(round_of);
    assert(0xcd62_d843_d058_0fcau64.wrapping_mul(PRIME_2) == 0x1917_ffa4_faf3_4d56);
    assert(0x0u64.wrapping_add(0x1917_ffa4_faf3_4d56) == 0x1917_ffa4_faf3_4d56);
    assert(0x7d79_a6ab_0c8b_ffd2u64.wrapping_mul(PRIME_1) == 0x7007_3eb8_0575_9bbe);
}

proof fn lemma_long_step_11()
    ensures
        merge_of(0xe5a1_f095_bf49_8698, 0xcd62_d843_d058_0fca) == 0xf9ce_e721_e748_096d,
{
    lemma_long_bits();
    reveal(merge_of);
    lemma_long_step_10();
    assert(0x95a6_ce2d_ba3c_1d26u64.wrapping_mul(PRIME_1) == 0x73e3_1caa_2495_5b0a);
}

proof fn lemma_long_step_12()
    ensures
        round_of(0x0, 0x1c16_e43e_f214_2a4a) == 0xc1cb_bae5_0e57_e4f3,
{
    lemma_long_bits();
    reveal(round_of);
    assert(0x1c16_e43e_f214_2a4au64.wrapping_mul(PRIME_2) == 0x2898_226b_8252_fad6);
    assert(0x0u64.wrapping_add(0x2898_226b_8252_fad6) == 0x2898_226b_8252_fad6);
    assert(0xc129_7d6b_144c_1135u64.wrapping_mul(PRIME_1) == 0xc1cb_bae5_0e57_e4f3);
}

proof fn lemma_long_step_13()
    ensures
        merge_of(0xf9ce_e721_e748_096d, 0x1c16_e43e_f214_2a4a) == 0x84f2_2c42_1a11_a8b5,
{
    lemma_long_bits();
    reveal(merge_of);
    lemma_long_step_12();
    assert(0x3805_5dc4_e91f_ed9eu64.wrapping_mul(PRIME_1) == 0xff06_61ca_575e_fa52);
}

proof fn lemma_long_step_14()
    ensures
        with_half_word(0x84f2_2c42_1a11_a8dc, 0x7469_7465) == 0x9fca_0f5d_0aaa_110f,
{
    lemma_long_bits();
    assert(0x7469_7465u64.wrapping_mul(PRIME_1) == 0xe986_3933_eb2b_1343);
    assert(0xb8f8_9d5d_cfb6_ba0au64.wrapping_mul(PRIME_2) == 0x8973_a7ab_6c72_9716);
}

proof fn lemma_long_step_15()
    ensures
        rotated(0x9fca_0f5d_0aaa_110fu64 ^ 105u64.wrapping_mul(PRIME_5), 11).wrapping_mul(PRIME_1)
            == 0x7696_7154_6f21_ba14,
{
    lemma_long_bits();
    assert(105u64.wrapping_mul(PRIME_5) == 0x5654_7650_2970_8fcd);
    assert(0xf3c8_691e_d4f6_164cu64.wrapping_mul(PRIME_1) == 0x7696_7154_6f21_ba14);
}

proof fn lemma_long_step_16()
    ensures
        rotated(0x7696_7154_6f21_ba14u64 ^ 111u64.wrapping_mul(PRIME_5), 11).wrapping_mul(PRIME_1)
            == 0xeae9_b643_c5f9_4e52,
{
    lemma_long_bits();
    assert(111u64.wrapping_mul(PRIME_5) == 0x4551_f96a_af76_fe6b);
    assert(0x3c41_f602_ba23_f99eu64.wrapping_mul(PRIME_1) == 0xeae9_b643_c5f9_4e52);
}

proof fn lemma_long_step_17()
    ensures
        rotated(0xeae9_b643_c5f9_4e52u64 ^ 110u64.wrapping_mul(PRIME_5), 11).wrapping_mul(PRIME_1)
            == 0x1d0a_4748_3b37_cc24,
{
    lemma_long_bits();
    assert(110u64.wrapping_mul(PRIME_5) == 0x1d7d_0e3b_9920_96a6);
    assert(0xa5c3_c2e6_cec7_a7bcu64.wrapping_mul(PRIME_1) == 0x1d0a_4748_3b37_cc24);
}

proof fn lemma_long_step_18()
    ensures
        avalanched(0x1d0a_4748_3b37_cc24) == 0xfbce_a83c_8a37_8bf1,
{
    lemma_long_bits();
    assert(0x1d0a_4748_35b2_ef80u64.wrapping_mul(PRIME_2) == 0x5f02_14be_aa12_6880);
    assert(0x5f02_14bc_5202_cd75u64.wrapping_mul(PRIME_3) == 0xfbce_a83c_71f9_23cd);
}

proof fn lemma_long_digest(s: Seq<u8>)
    requires
        s.len() == 39,
        le64(s, 0) == 0x6920_7964_6f62_6f4e,
        le64(s, 8) == 0x2073_7463_6570_736e,
        le64(s, 16) == 0x6d61_7073_2065_6874,
        le64(s, 24) == 0x7065_7220_6873_696d,
        le32(s, 32) == 0x7469_7465,
        s[36] == 105,
        s[37] == 111,
        s[38] == 110,
    ensures
        digest(s, 0) == 0xfbce_a83c_8a37_8bf1,
{
    lemma_long_step_1();
    lemma_long_step_2();
    lemma_long_step_3();
    lemma_long_step_4();
    lemma_long_step_5();
    lemma_long_step_6();
    lemma_long_step_7();
    lemma_long_step_8();
    lemma_long_step_9();
    lemma_long_step_10();
    lemma_long_step_11();
    lemma_long_step_12();
    lemma_long_step_13();
    lemma_long_step_14();
    lemma_long_step_15();
    lemma_long_step_16();
    lemma_long_step_17();
    lemma_long_step_18();
    assert(striped(s, 0, 0) == (Lanes {
        one: 0x60ea_27ee_adc0_b5d6,
        two: 0xc2b2_ae3d_27d4_eb4f,
        three: 0x0,
        four: 0x61c8_864e_7a14_3579,
    }));
    let lanes = Lanes {
        one: 0x3724_5127_a406_7e4b,
        two: 0x1b30_2b0a_818f_92cf,
        three: 0xcd62_d843_d058_0fca,
        four: 0x1c16_e43e_f214_2a4a,
    };
    assert(striped(s, 0, 1) == lanes);
    assert(converged(lanes) == 0x84f2_2c42_1a11_a8b5);
    assert(0x84f2_2c42_1a11_a8b5u64.wrapping_add(39) == 0x84f2_2c42_1a11_a8dc);
    assert(with_words(0x84f2_2c42_1a11_a8dc, s, 32, 0) == 0x84f2_2c42_1a11_a8dc);
    assert(with_bytes(0x9fca_0f5d_0aaa_110f, s, 36, 0) == 0x9fca_0f5d_0aaa_110f);
    assert(with_bytes(0x9fca_0f5d_0aaa_110f, s, 36, 1) == 0x7696_7154_6f21_ba14);
    assert(with_bytes(0x9fca_0f5d_0aaa_110f, s, 36, 2) == 0xeae9_b643_c5f9_4e52);
    assert(with_bytes(0x9fca_0f5d_0aaa_110f, s, 36, 3) == 0x1d0a_4748_3b37_cc24);
    reveal(digest);
}

proof fn lemma_long_vector()
    ensures
        digest(sentence(), 0) == 0xfbce_a83c_8a37_8bf1,
{
    let s = sentence();
    lemma_word(s, 0, 0x6920_7964_6f62_6f4e);
    lemma_word(s, 8, 0x2073_7463_6570_736e);
    lemma_word(s, 16, 0x6d61_7073_2065_6874);
    lemma_word(s, 24, 0x7065_7220_6873_696d);
    lemma_half_word(s, 32, 0x7469_7465);
    lemma_long_digest(s);
}

} // verus!

use vstd::prelude::*;
use vstd::arithmetic::power2::{lemma2_to64, lemma_pow2_strictly_increases, pow2};
use crate::canonical::{count_from, has_room, room_from};
use crate::stuffit13_tables::{
    built_in_lengths, first_lengths, offset_lengths, second_lengths, FIRST_CODE_LENGTHS_1, FIRST_CODE_LENGTHS_2, FIRST_CODE_LENGTHS_3,
    FIRST_CODE_LENGTHS_4, FIRST_CODE_LENGTHS_5, OFFSET_CODE_LENGTHS_1, OFFSET_CODE_LENGTHS_2, OFFSET_CODE_LENGTHS_3,
    OFFSET_CODE_LENGTHS_4, OFFSET_CODE_LENGTHS_5, SECOND_CODE_LENGTHS_1, SECOND_CODE_LENGTHS_2, SECOND_CODE_LENGTHS_3,
    SECOND_CODE_LENGTHS_4, SECOND_CODE_LENGTHS_5,
};

verus! {

// In each of the built-in codes there is room for all words, and none is left.

/// The part of 2 to the 18 that a word of `n` bits takes; none has more than 18.
pub open spec fn word_share(n: u32) -> int {
    if n == 0 {
        0
    } else if n == 1 {
        0x2_0000
    } else if n == 2 {
        0x1_0000
    } else if n == 3 {
        0x8000
    } else if n == 4 {
        0x4000
    } else if n == 5 {
        0x2000
    } else if n == 6 {
        0x1000
    } else if n == 7 {
        0x800
    } else if n == 8 {
        0x400
    } else if n == 9 {
        0x200
    } else if n == 10 {
        0x100
    } else if n == 11 {
        0x80
    } else if n == 12 {
        0x40
    } else if n == 13 {
        0x20
    } else if n == 14 {
        0x10
    } else if n == 15 {
        0x8
    } else if n == 16 {
        0x4
    } else if n == 17 {
        0x2
    } else {
        1
    }
}

/// What the first `n` words take together.
pub open spec fn share(lengths: Seq<u32>, n: int) -> int
    decreases n,
{
    if n <= 0 {
        0
    } else {
        share(lengths, n - 1) + word_share(lengths[n - 1])
    }
}

// === room and shares ==========================================================

proof fn count_of_one_more(s: Seq<u32>, x: u32, length: u32, i: int)
    requires
        0 <= i <= s.len(),
    ensures
        count_from(s.push(x), length, i) == count_from(s, length, i) + (if x == length {
            1int
        } else {
            0int
        }),
    decreases s.len() - i,
{
    if i < s.len() {
        count_of_one_more(s, x, length, i + 1);
    } else {
        reveal_with_fuel(count_from, 2);
    }
}

/// What a word of `x` bits takes of the room for the lengths from `length` on.
spec fn taken(x: u32, length: u32) -> int {
    if length <= x <= 32 {
        pow2((32 - x) as nat) as int
    } else {
        0
    }
}

proof fn room_for_one_more(s: Seq<u32>, x: u32, length: u32)
    requires
        length <= 33,
    ensures
        room_from(s.push(x), length, 32) == room_from(s, length, 32) + taken(x, length),
    decreases 33 - length,
{
    if length <= 32 {
        count_of_one_more(s, x, length, 0);
        room_for_one_more(s, x, (length + 1) as u32);
        let unit = pow2((32 - length) as nat) as int;
        let n = count_from(s, length, 0) as int;
        assert((n + 1) * unit == n * unit + unit) by (nonlinear_arith);
    }
}

proof fn no_room_for_nothing(length: u32)
    requires
        length <= 33,
    ensures
        room_from(Seq::<u32>::empty(), length, 32) == 0,
    decreases 33 - length,
{
    if length <= 32 {
        no_room_for_nothing((length + 1) as u32);
        assert(0 * pow2((32 - length) as nat) == 0) by (nonlinear_arith);
    }
}

proof fn share_covers_room(x: u32)
    ensures
        taken(x, 1) <= 0x4000 * word_share(x),
{
    lemma2_to64();
    if 18 < x <= 32 {
        lemma_pow2_strictly_increases((32 - x) as nat, 14);
    }
}

proof fn shares_cover_room(s: Seq<u32>, n: int)
    requires
        0 <= n <= s.len(),
    ensures
        room_from(s.take(n), 1, 32) <= 0x4000 * share(s, n),
    decreases n,
{
    if n == 0 {
        assert(s.take(0) =~= Seq::<u32>::empty());
        no_room_for_nothing(1);
    } else {
        shares_cover_room(s, n - 1);
        assert(s.take(n) =~= s.take(n - 1).push(s[n - 1]));
        room_for_one_more(s.take(n - 1), s[n - 1], 1);
        share_covers_room(s[n - 1]);
    }
}

/// Words that take no more than all have room.
proof fn full_code_has_room(s: Seq<u32>)
    requires
        share(s, s.len() as int) <= 0x4_0000,
    ensures
        has_room(s, 32),
{
    shares_cover_room(s, s.len() as int);
    assert(s.take(s.len() as int) =~= s);
    lemma2_to64();
}

// === the tables ===============================================================

#[verifier::spinoff_prover]
proof fn first_set_1_is_full()
    ensures
        share(FIRST_CODE_LENGTHS_1@, 321) == 0x4_0000,
{
    reveal_with_fuel(share, 9);
    assert(share(FIRST_CODE_LENGTHS_1@, 8) == 0x7600);
    assert(share(FIRST_CODE_LENGTHS_1@, 16) == 0x8e00);
    assert(share(FIRST_CODE_LENGTHS_1@, 24) == 0x9d00);
    assert(share(FIRST_CODE_LENGTHS_1@, 32) == 0xaa00);
    assert(share(FIRST_CODE_LENGTHS_1@, 40) == 0xd700);
    assert(share(FIRST_CODE_LENGTHS_1@, 48) == 0xed00);
    assert(share(FIRST_CODE_LENGTHS_1@, 56) == 0xff00);
    assert(share(FIRST_CODE_LENGTHS_1@, 64) == 0x1_0f00);
    assert(share(FIRST_CODE_LENGTHS_1@, 72) == 0x1_2500);
    assert(share(FIRST_CODE_LENGTHS_1@, 80) == 0x1_3d00);
    assert(share(FIRST_CODE_LENGTHS_1@, 88) == 0x1_5f00);
    assert(share(FIRST_CODE_LENGTHS_1@, 96) == 0x1_6b00);
    assert(share(FIRST_CODE_LENGTHS_1@, 104) == 0x1_c100);
    assert(share(FIRST_CODE_LENGTHS_1@, 112) == 0x2_1900);
    assert(share(FIRST_CODE_LENGTHS_1@, 120) == 0x2_6e00);
    assert(share(FIRST_CODE_LENGTHS_1@, 128) == 0x2_7c00);
    assert(share(FIRST_CODE_LENGTHS_1@, 136) == 0x2_8500);
    assert(share(FIRST_CODE_LENGTHS_1@, 144) == 0x2_8e00);
    assert(share(FIRST_CODE_LENGTHS_1@, 152) == 0x2_9700);
    assert(share(FIRST_CODE_LENGTHS_1@, 160) == 0x2_9f00);
    assert(share(FIRST_CODE_LENGTHS_1@, 168) == 0x2_a800);
    assert(share(FIRST_CODE_LENGTHS_1@, 176) == 0x2_b200);
    assert(share(FIRST_CODE_LENGTHS_1@, 184) == 0x2_ba00);
    assert(share(FIRST_CODE_LENGTHS_1@, 192) == 0x2_c300);
    assert(share(FIRST_CODE_LENGTHS_1@, 200) == 0x2_cc00);
    assert(share(FIRST_CODE_LENGTHS_1@, 208) == 0x2_d400);
    assert(share(FIRST_CODE_LENGTHS_1@, 216) == 0x2_dc00);
    assert(share(FIRST_CODE_LENGTHS_1@, 224) == 0x2_e400);
    assert(share(FIRST_CODE_LENGTHS_1@, 232) == 0x2_ed00);
    assert(share(FIRST_CODE_LENGTHS_1@, 240) == 0x2_f700);
    assert(share(FIRST_CODE_LENGTHS_1@, 248) == 0x3_0000);
    assert(share(FIRST_CODE_LENGTHS_1@, 256) == 0x3_2a00);
    assert(share(FIRST_CODE_LENGTHS_1@, 264) == 0x3_8600);
    assert(share(FIRST_CODE_LENGTHS_1@, 272) == 0x3_9100);
    assert(share(FIRST_CODE_LENGTHS_1@, 280) == 0x3_9900);
    assert(share(FIRST_CODE_LENGTHS_1@, 288) == 0x3_a100);
    assert(share(FIRST_CODE_LENGTHS_1@, 296) == 0x3_ad00);
    assert(share(FIRST_CODE_LENGTHS_1@, 304) == 0x3_b900);
    assert(share(FIRST_CODE_LENGTHS_1@, 312) == 0x3_c300);
    assert(share(FIRST_CODE_LENGTHS_1@, 320) == 0x3_e000);
    assert(share(FIRST_CODE_LENGTHS_1@, 321) == 0x4_0000);
}

#[verifier::spinoff_prover]
proof fn first_set_2_is_full()
    ensures
        share(FIRST_CODE_LENGTHS_2@, 321) == 0x4_0000,
{
    reveal_with_fuel(share, 9);
    assert(share(FIRST_CODE_LENGTHS_2@, 8) == 0x6800);
    assert(share(FIRST_CODE_LENGTHS_2@, 16) == 0x9200);
    assert(share(FIRST_CODE_LENGTHS_2@, 24) == 0xa400);
    assert(share(FIRST_CODE_LENGTHS_2@, 32) == 0xaf00);
    assert(share(FIRST_CODE_LENGTHS_2@, 40) == 0xdc80);
    assert(share(FIRST_CODE_LENGTHS_2@, 48) == 0xf880);
    assert(share(FIRST_CODE_LENGTHS_2@, 56) == 0x1_0b80);
    assert(share(FIRST_CODE_LENGTHS_2@, 64) == 0x1_1980);
    assert(share(FIRST_CODE_LENGTHS_2@, 72) == 0x1_4380);
    assert(share(FIRST_CODE_LENGTHS_2@, 80) == 0x1_6380);
    assert(share(FIRST_CODE_LENGTHS_2@, 88) == 0x1_8680);
    assert(share(FIRST_CODE_LENGTHS_2@, 96) == 0x1_8f00);
    assert(share(FIRST_CODE_LENGTHS_2@, 104) == 0x1_e700);
    assert(share(FIRST_CODE_LENGTHS_2@, 112) == 0x2_3d00);
    assert(share(FIRST_CODE_LENGTHS_2@, 120) == 0x2_8700);
    assert(share(FIRST_CODE_LENGTHS_2@, 128) == 0x2_9900);
    assert(share(FIRST_CODE_LENGTHS_2@, 136) == 0x2_a700);
    assert(share(FIRST_CODE_LENGTHS_2@, 144) == 0x2_b000);
    assert(share(FIRST_CODE_LENGTHS_2@, 152) == 0x2_b880);
    assert(share(FIRST_CODE_LENGTHS_2@, 160) == 0x2_bf80);
    assert(share(FIRST_CODE_LENGTHS_2@, 168) == 0x2_c800);
    assert(share(FIRST_CODE_LENGTHS_2@, 176) == 0x2_d080);
    assert(share(FIRST_CODE_LENGTHS_2@, 184) == 0x2_d540);
    assert(share(FIRST_CODE_LENGTHS_2@, 192) == 0x2_da80);
    assert(share(FIRST_CODE_LENGTHS_2@, 200) == 0x2_e080);
    assert(share(FIRST_CODE_LENGTHS_2@, 208) == 0x2_e700);
    assert(share(FIRST_CODE_LENGTHS_2@, 216) == 0x2_ed80);
    assert(share(FIRST_CODE_LENGTHS_2@, 224) == 0x2_f2c0);
    assert(share(FIRST_CODE_LENGTHS_2@, 232) == 0x2_f880);
    assert(share(FIRST_CODE_LENGTHS_2@, 240) == 0x2_fd40);
    assert(share(FIRST_CODE_LENGTHS_2@, 248) == 0x3_0380);
    assert(share(FIRST_CODE_LENGTHS_2@, 256) == 0x3_1380);
    assert(share(FIRST_CODE_LENGTHS_2@, 264) == 0x3_eb80);
    assert(share(FIRST_CODE_LENGTHS_2@, 272) == 0x3_f900);
    assert(share(FIRST_CODE_LENGTHS_2@, 280) == 0x3_fb40);
    assert(share(FIRST_CODE_LENGTHS_2@, 288) == 0x3_fd10);
    assert(share(FIRST_CODE_LENGTHS_2@, 296) == 0x3_fd98);
    assert(share(FIRST_CODE_LENGTHS_2@, 304) == 0x3_fe00);
    assert(share(FIRST_CODE_LENGTHS_2@, 312) == 0x3_fe88);
    assert(share(FIRST_CODE_LENGTHS_2@, 320) == 0x3_ff00);
    assert(share(FIRST_CODE_LENGTHS_2@, 321) == 0x4_0000);
}

#[verifier::spinoff_prover]
proof fn first_set_3_is_full()
    ensures
        share(FIRST_CODE_LENGTHS_3@, 321) == 0x4_0000,
{
    reveal_with_fuel(share, 9);
    assert(share(FIRST_CODE_LENGTHS_3@, 8) == 0x5a00);
    assert(share(FIRST_CODE_LENGTHS_3@, 16) == 0xac00);
    assert(share(FIRST_CODE_LENGTHS_3@, 24) == 0xbc00);
    assert(share(FIRST_CODE_LENGTHS_3@, 32) == 0xc700);
    assert(share(FIRST_CODE_LENGTHS_3@, 40) == 0xd600);
    assert(share(FIRST_CODE_LENGTHS_3@, 48) == 0xe600);
    assert(share(FIRST_CODE_LENGTHS_3@, 56) == 0xf400);
    assert(share(FIRST_CODE_LENGTHS_3@, 64) == 0x1_0200);
    assert(share(FIRST_CODE_LENGTHS_3@, 72) == 0x1_1e00);
    assert(share(FIRST_CODE_LENGTHS_3@, 80) == 0x1_3100);
    assert(share(FIRST_CODE_LENGTHS_3@, 88) == 0x1_4900);
    assert(share(FIRST_CODE_LENGTHS_3@, 96) == 0x1_5400);
    assert(share(FIRST_CODE_LENGTHS_3@, 104) == 0x1_7400);
    assert(share(FIRST_CODE_LENGTHS_3@, 112) == 0x1_8a00);
    assert(share(FIRST_CODE_LENGTHS_3@, 120) == 0x1_a300);
    assert(share(FIRST_CODE_LENGTHS_3@, 128) == 0x1_ae00);
    assert(share(FIRST_CODE_LENGTHS_3@, 136) == 0x1_bf00);
    assert(share(FIRST_CODE_LENGTHS_3@, 144) == 0x1_c900);
    assert(share(FIRST_CODE_LENGTHS_3@, 152) == 0x1_d200);
    assert(share(FIRST_CODE_LENGTHS_3@, 160) == 0x1_db00);
    assert(share(FIRST_CODE_LENGTHS_3@, 168) == 0x1_e400);
    assert(share(FIRST_CODE_LENGTHS_3@, 176) == 0x1_ef00);
    assert(share(FIRST_CODE_LENGTHS_3@, 184) == 0x1_f700);
    assert(share(FIRST_CODE_LENGTHS_3@, 192) == 0x2_0100);
    assert(share(FIRST_CODE_LENGTHS_3@, 200) == 0x2_0d00);
    assert(share(FIRST_CODE_LENGTHS_3@, 208) == 0x2_1600);
    assert(share(FIRST_CODE_LENGTHS_3@, 216) == 0x2_1f00);
    assert(share(FIRST_CODE_LENGTHS_3@, 224) == 0x2_2800);
    assert(share(FIRST_CODE_LENGTHS_3@, 232) == 0x2_3200);
    assert(share(FIRST_CODE_LENGTHS_3@, 240) == 0x2_3c00);
    assert(share(FIRST_CODE_LENGTHS_3@, 248) == 0x2_4600);
    assert(share(FIRST_CODE_LENGTHS_3@, 256) == 0x2_5900);
    assert(share(FIRST_CODE_LENGTHS_3@, 264) == 0x2_db00);
    assert(share(FIRST_CODE_LENGTHS_3@, 272) == 0x2_e500);
    assert(share(FIRST_CODE_LENGTHS_3@, 280) == 0x2_ed00);
    assert(share(FIRST_CODE_LENGTHS_3@, 288) == 0x2_fc00);
    assert(share(FIRST_CODE_LENGTHS_3@, 296) == 0x3_2000);
    assert(share(FIRST_CODE_LENGTHS_3@, 304) == 0x3_5a00);
    assert(share(FIRST_CODE_LENGTHS_3@, 312) == 0x3_b200);
    assert(share(FIRST_CODE_LENGTHS_3@, 320) == 0x3_ff00);
    assert(share(FIRST_CODE_LENGTHS_3@, 321) == 0x4_0000);
}

#[verifier::spinoff_prover]
proof fn first_set_4_is_full()
    ensures
        share(FIRST_CODE_LENGTHS_4@, 321) == 0x4_0000,
{
    reveal_with_fuel(share, 9);
    assert(share(FIRST_CODE_LENGTHS_4@, 8) == 0x1_4000);
    assert(share(FIRST_CODE_LENGTHS_4@, 16) == 0x1_5c00);
    assert(share(FIRST_CODE_LENGTHS_4@, 24) == 0x1_6e00);
    assert(share(FIRST_CODE_LENGTHS_4@, 32) == 0x1_7d00);
    assert(share(FIRST_CODE_LENGTHS_4@, 40) == 0x1_9c00);
    assert(share(FIRST_CODE_LENGTHS_4@, 48) == 0x1_af00);
    assert(share(FIRST_CODE_LENGTHS_4@, 56) == 0x1_c500);
    assert(share(FIRST_CODE_LENGTHS_4@, 64) == 0x1_d300);
    assert(share(FIRST_CODE_LENGTHS_4@, 72) == 0x1_f700);
    assert(share(FIRST_CODE_LENGTHS_4@, 80) == 0x2_1a00);
    assert(share(FIRST_CODE_LENGTHS_4@, 88) == 0x2_3300);
    assert(share(FIRST_CODE_LENGTHS_4@, 96) == 0x2_3e00);
    assert(share(FIRST_CODE_LENGTHS_4@, 104) == 0x2_6c00);
    assert(share(FIRST_CODE_LENGTHS_4@, 112) == 0x2_9700);
    assert(share(FIRST_CODE_LENGTHS_4@, 120) == 0x2_bc00);
    assert(share(FIRST_CODE_LENGTHS_4@, 128) == 0x2_c700);
    assert(share(FIRST_CODE_LENGTHS_4@, 136) == 0x2_d600);
    assert(share(FIRST_CODE_LENGTHS_4@, 144) == 0x2_dc80);
    assert(share(FIRST_CODE_LENGTHS_4@, 152) == 0x2_e400);
    assert(share(FIRST_CODE_LENGTHS_4@, 160) == 0x2_eb00);
    assert(share(FIRST_CODE_LENGTHS_4@, 168) == 0x2_f380);
    assert(share(FIRST_CODE_LENGTHS_4@, 176) == 0x2_fb80);
    assert(share(FIRST_CODE_LENGTHS_4@, 184) == 0x3_00c0);
    assert(share(FIRST_CODE_LENGTHS_4@, 192) == 0x3_06c0);
    assert(share(FIRST_CODE_LENGTHS_4@, 200) == 0x3_0fc0);
    assert(share(FIRST_CODE_LENGTHS_4@, 208) == 0x3_1540);
    assert(share(FIRST_CODE_LENGTHS_4@, 216) == 0x3_1bc0);
    assert(share(FIRST_CODE_LENGTHS_4@, 224) == 0x3_2240);
    assert(share(FIRST_CODE_LENGTHS_4@, 232) == 0x3_28c0);
    assert(share(FIRST_CODE_LENGTHS_4@, 240) == 0x3_3040);
    assert(share(FIRST_CODE_LENGTHS_4@, 248) == 0x3_37c0);
    assert(share(FIRST_CODE_LENGTHS_4@, 256) == 0x3_5540);
    assert(share(FIRST_CODE_LENGTHS_4@, 264) == 0x3_b140);
    assert(share(FIRST_CODE_LENGTHS_4@, 272) == 0x3_b800);
    assert(share(FIRST_CODE_LENGTHS_4@, 280) == 0x3_bae0);
    assert(share(FIRST_CODE_LENGTHS_4@, 288) == 0x3_bbe8);
    assert(share(FIRST_CODE_LENGTHS_4@, 296) == 0x3_bcf4);
    assert(share(FIRST_CODE_LENGTHS_4@, 304) == 0x3_bd25);
    assert(share(FIRST_CODE_LENGTHS_4@, 312) == 0x3_be89);
    assert(share(FIRST_CODE_LENGTHS_4@, 320) == 0x3_c000);
    assert(share(FIRST_CODE_LENGTHS_4@, 321) == 0x4_0000);
}

#[verifier::spinoff_prover]
proof fn first_set_5_is_full()
    ensures
        share(FIRST_CODE_LENGTHS_5@, 321) == 0x4_0000,
{
    reveal_with_fuel(share, 9);
    assert(share(FIRST_CODE_LENGTHS_5@, 8) == 0x1600);
    assert(share(FIRST_CODE_LENGTHS_5@, 16) == 0x2e00);
    assert(share(FIRST_CODE_LENGTHS_5@, 24) == 0x3d00);
    assert(share(FIRST_CODE_LENGTHS_5@, 32) == 0x4a00);
    assert(share(FIRST_CODE_LENGTHS_5@, 40) == 0x7e00);
    assert(share(FIRST_CODE_LENGTHS_5@, 48) == 0xb400);
    assert(share(FIRST_CODE_LENGTHS_5@, 56) == 0xd400);
    assert(share(FIRST_CODE_LENGTHS_5@, 64) == 0xf600);
    assert(share(FIRST_CODE_LENGTHS_5@, 72) == 0x1_2400);
    assert(share(FIRST_CODE_LENGTHS_5@, 80) == 0x1_5200);
    assert(share(FIRST_CODE_LENGTHS_5@, 88) == 0x1_7600);
    assert(share(FIRST_CODE_LENGTHS_5@, 96) == 0x1_8600);
    assert(share(FIRST_CODE_LENGTHS_5@, 104) == 0x1_b400);
    assert(share(FIRST_CODE_LENGTHS_5@, 112) == 0x2_0a00);
    assert(share(FIRST_CODE_LENGTHS_5@, 120) == 0x2_8400);
    assert(share(FIRST_CODE_LENGTHS_5@, 128) == 0x2_9600);
    assert(share(FIRST_CODE_LENGTHS_5@, 136) == 0x2_a200);
    assert(share(FIRST_CODE_LENGTHS_5@, 144) == 0x2_ab00);
    assert(share(FIRST_CODE_LENGTHS_5@, 152) == 0x2_b400);
    assert(share(FIRST_CODE_LENGTHS_5@, 160) == 0x2_bd00);
    assert(share(FIRST_CODE_LENGTHS_5@, 168) == 0x2_c900);
    assert(share(FIRST_CODE_LENGTHS_5@, 176) == 0x2_d400);
    assert(share(FIRST_CODE_LENGTHS_5@, 184) == 0x2_dd00);
    assert(share(FIRST_CODE_LENGTHS_5@, 192) == 0x2_e500);
    assert(share(FIRST_CODE_LENGTHS_5@, 200) == 0x2_ef00);
    assert(share(FIRST_CODE_LENGTHS_5@, 208) == 0x2_fa00);
    assert(share(FIRST_CODE_LENGTHS_5@, 216) == 0x3_0500);
    assert(share(FIRST_CODE_LENGTHS_5@, 224) == 0x3_0e00);
    assert(share(FIRST_CODE_LENGTHS_5@, 232) == 0x3_1700);
    assert(share(FIRST_CODE_LENGTHS_5@, 240) == 0x3_1f00);
    assert(share(FIRST_CODE_LENGTHS_5@, 248) == 0x3_2800);
    assert(share(FIRST_CODE_LENGTHS_5@, 256) == 0x3_3400);
    assert(share(FIRST_CODE_LENGTHS_5@, 264) == 0x3_8600);
    assert(share(FIRST_CODE_LENGTHS_5@, 272) == 0x3_9600);
    assert(share(FIRST_CODE_LENGTHS_5@, 280) == 0x3_a600);
    assert(share(FIRST_CODE_LENGTHS_5@, 288) == 0x3_b600);
    assert(share(FIRST_CODE_LENGTHS_5@, 296) == 0x3_bf00);
    assert(share(FIRST_CODE_LENGTHS_5@, 304) == 0x3_c700);
    assert(share(FIRST_CODE_LENGTHS_5@, 312) == 0x3_cf00);
    assert(share(FIRST_CODE_LENGTHS_5@, 320) == 0x3_fe00);
    assert(share(FIRST_CODE_LENGTHS_5@, 321) == 0x4_0000);
}

#[verifier::spinoff_prover]
proof fn second_set_1_is_full()
    ensures
        share(SECOND_CODE_LENGTHS_1@, 321) == 0x4_0000,
{
    reveal_with_fuel(share, 9);
    assert(share(SECOND_CODE_LENGTHS_1@, 8) == 0xa800);
    assert(share(SECOND_CODE_LENGTHS_1@, 16) == 0xe000);
    assert(share(SECOND_CODE_LENGTHS_1@, 24) == 0x1_0400);
    assert(share(SECOND_CODE_LENGTHS_1@, 32) == 0x1_3900);
    assert(share(SECOND_CODE_LENGTHS_1@, 40) == 0x1_5b00);
    assert(share(SECOND_CODE_LENGTHS_1@, 48) == 0x1_7500);
    assert(share(SECOND_CODE_LENGTHS_1@, 56) == 0x1_9b00);
    assert(share(SECOND_CODE_LENGTHS_1@, 64) == 0x1_ac00);
    assert(share(SECOND_CODE_LENGTHS_1@, 72) == 0x1_cb00);
    assert(share(SECOND_CODE_LENGTHS_1@, 80) == 0x1_f180);
    assert(share(SECOND_CODE_LENGTHS_1@, 88) == 0x2_1780);
    assert(share(SECOND_CODE_LENGTHS_1@, 96) == 0x2_2480);
    assert(share(SECOND_CODE_LENGTHS_1@, 104) == 0x2_3d80);
    assert(share(SECOND_CODE_LENGTHS_1@, 112) == 0x2_5180);
    assert(share(SECOND_CODE_LENGTHS_1@, 120) == 0x2_6500);
    assert(share(SECOND_CODE_LENGTHS_1@, 128) == 0x2_7380);
    assert(share(SECOND_CODE_LENGTHS_1@, 136) == 0x2_8180);
    assert(share(SECOND_CODE_LENGTHS_1@, 144) == 0x2_8800);
    assert(share(SECOND_CODE_LENGTHS_1@, 152) == 0x2_8f80);
    assert(share(SECOND_CODE_LENGTHS_1@, 160) == 0x2_9780);
    assert(share(SECOND_CODE_LENGTHS_1@, 168) == 0x2_bc80);
    assert(share(SECOND_CODE_LENGTHS_1@, 176) == 0x2_c380);
    assert(share(SECOND_CODE_LENGTHS_1@, 184) == 0x2_c880);
    assert(share(SECOND_CODE_LENGTHS_1@, 192) == 0x2_ce80);
    assert(share(SECOND_CODE_LENGTHS_1@, 200) == 0x2_d440);
    assert(share(SECOND_CODE_LENGTHS_1@, 208) == 0x2_d7c0);
    assert(share(SECOND_CODE_LENGTHS_1@, 216) == 0x2_dc00);
    assert(share(SECOND_CODE_LENGTHS_1@, 224) == 0x2_e140);
    assert(share(SECOND_CODE_LENGTHS_1@, 232) == 0x2_e640);
    assert(share(SECOND_CODE_LENGTHS_1@, 240) == 0x2_eb40);
    assert(share(SECOND_CODE_LENGTHS_1@, 248) == 0x2_f100);
    assert(share(SECOND_CODE_LENGTHS_1@, 256) == 0x2_fe40);
    assert(share(SECOND_CODE_LENGTHS_1@, 264) == 0x3_9a40);
    assert(share(SECOND_CODE_LENGTHS_1@, 272) == 0x3_e240);
    assert(share(SECOND_CODE_LENGTHS_1@, 280) == 0x3_eec0);
    assert(share(SECOND_CODE_LENGTHS_1@, 288) == 0x3_f280);
    assert(share(SECOND_CODE_LENGTHS_1@, 296) == 0x3_f500);
    assert(share(SECOND_CODE_LENGTHS_1@, 304) == 0x3_f860);
    assert(share(SECOND_CODE_LENGTHS_1@, 312) == 0x3_f9e8);
    assert(share(SECOND_CODE_LENGTHS_1@, 320) == 0x3_fc00);
    assert(share(SECOND_CODE_LENGTHS_1@, 321) == 0x4_0000);
}

#[verifier::spinoff_prover]
proof fn second_set_2_is_full()
    ensures
        share(SECOND_CODE_LENGTHS_2@, 321) == 0x4_0000,
{
    reveal_with_fuel(share, 9);
    assert(share(SECOND_CODE_LENGTHS_2@, 8) == 0x7800);
    assert(share(SECOND_CODE_LENGTHS_2@, 16) == 0xb000);
    assert(share(SECOND_CODE_LENGTHS_2@, 24) == 0xd000);
    assert(share(SECOND_CODE_LENGTHS_2@, 32) == 0xec00);
    assert(share(SECOND_CODE_LENGTHS_2@, 40) == 0x1_1000);
    assert(share(SECOND_CODE_LENGTHS_2@, 48) == 0x1_2a00);
    assert(share(SECOND_CODE_LENGTHS_2@, 56) == 0x1_4400);
    assert(share(SECOND_CODE_LENGTHS_2@, 64) == 0x1_5800);
    assert(share(SECOND_CODE_LENGTHS_2@, 72) == 0x1_7800);
    assert(share(SECOND_CODE_LENGTHS_2@, 80) == 0x1_9300);
    assert(share(SECOND_CODE_LENGTHS_2@, 88) == 0x1_ab00);
    assert(share(SECOND_CODE_LENGTHS_2@, 96) == 0x1_b680);
    assert(share(SECOND_CODE_LENGTHS_2@, 104) == 0x1_d280);
    assert(share(SECOND_CODE_LENGTHS_2@, 112) == 0x1_e980);
    assert(share(SECOND_CODE_LENGTHS_2@, 120) == 0x2_0400);
    assert(share(SECOND_CODE_LENGTHS_2@, 128) == 0x2_1300);
    assert(share(SECOND_CODE_LENGTHS_2@, 136) == 0x2_2200);
    assert(share(SECOND_CODE_LENGTHS_2@, 144) == 0x2_2e00);
    assert(share(SECOND_CODE_LENGTHS_2@, 152) == 0x2_3680);
    assert(share(SECOND_CODE_LENGTHS_2@, 160) == 0x2_4080);
    assert(share(SECOND_CODE_LENGTHS_2@, 168) == 0x2_4f00);
    assert(share(SECOND_CODE_LENGTHS_2@, 176) == 0x2_5980);
    assert(share(SECOND_CODE_LENGTHS_2@, 184) == 0x2_6180);
    assert(share(SECOND_CODE_LENGTHS_2@, 192) == 0x2_6980);
    assert(share(SECOND_CODE_LENGTHS_2@, 200) == 0x2_7580);
    assert(share(SECOND_CODE_LENGTHS_2@, 208) == 0x2_8000);
    assert(share(SECOND_CODE_LENGTHS_2@, 216) == 0x2_8c00);
    assert(share(SECOND_CODE_LENGTHS_2@, 224) == 0x2_9600);
    assert(share(SECOND_CODE_LENGTHS_2@, 232) == 0x2_a080);
    assert(share(SECOND_CODE_LENGTHS_2@, 240) == 0x2_ab00);
    assert(share(SECOND_CODE_LENGTHS_2@, 248) == 0x2_b880);
    assert(share(SECOND_CODE_LENGTHS_2@, 256) == 0x2_d580);
    assert(share(SECOND_CODE_LENGTHS_2@, 264) == 0x3_b580);
    assert(share(SECOND_CODE_LENGTHS_2@, 272) == 0x3_e180);
    assert(share(SECOND_CODE_LENGTHS_2@, 280) == 0x3_eb80);
    assert(share(SECOND_CODE_LENGTHS_2@, 288) == 0x3_f000);
    assert(share(SECOND_CODE_LENGTHS_2@, 296) == 0x3_f280);
    assert(share(SECOND_CODE_LENGTHS_2@, 304) == 0x3_f4e0);
    assert(share(SECOND_CODE_LENGTHS_2@, 312) == 0x3_f5b8);
    assert(share(SECOND_CODE_LENGTHS_2@, 320) == 0x3_fe00);
    assert(share(SECOND_CODE_LENGTHS_2@, 321) == 0x4_0000);
}

#[verifier::spinoff_prover]
proof fn second_set_3_is_full()
    ensures
        share(SECOND_CODE_LENGTHS_3@, 321) == 0x4_0000,
{
    reveal_with_fuel(share, 9);
    assert(share(SECOND_CODE_LENGTHS_3@, 8) == 0x7800);
    assert(share(SECOND_CODE_LENGTHS_3@, 16) == 0xaa00);
    assert(share(SECOND_CODE_LENGTHS_3@, 24) == 0xc700);
    assert(share(SECOND_CODE_LENGTHS_3@, 32) == 0xdb00);
    assert(share(SECOND_CODE_LENGTHS_3@, 40) == 0xfa00);
    assert(share(SECOND_CODE_LENGTHS_3@, 48) == 0x1_0b00);
    assert(share(SECOND_CODE_LENGTHS_3@, 56) == 0x1_1d00);
    assert(share(SECOND_CODE_LENGTHS_3@, 64) == 0x1_2d80);
    assert(share(SECOND_CODE_LENGTHS_3@, 72) == 0x1_4880);
    assert(share(SECOND_CODE_LENGTHS_3@, 80) == 0x1_5900);
    assert(share(SECOND_CODE_LENGTHS_3@, 88) == 0x1_6d00);
    assert(share(SECOND_CODE_LENGTHS_3@, 96) == 0x1_73c0);
    assert(share(SECOND_CODE_LENGTHS_3@, 104) == 0x1_8bc0);
    assert(share(SECOND_CODE_LENGTHS_3@, 112) == 0x1_9940);
    assert(share(SECOND_CODE_LENGTHS_3@, 120) == 0x1_ad80);
    assert(share(SECOND_CODE_LENGTHS_3@, 128) == 0x1_b9c0);
    assert(share(SECOND_CODE_LENGTHS_3@, 136) == 0x1_c940);
    assert(share(SECOND_CODE_LENGTHS_3@, 144) == 0x1_d5c0);
    assert(share(SECOND_CODE_LENGTHS_3@, 152) == 0x1_dd00);
    assert(share(SECOND_CODE_LENGTHS_3@, 160) == 0x1_e380);
    assert(share(SECOND_CODE_LENGTHS_3@, 168) == 0x1_ecc0);
    assert(share(SECOND_CODE_LENGTHS_3@, 176) == 0x1_f700);
    assert(share(SECOND_CODE_LENGTHS_3@, 184) == 0x1_fbe0);
    assert(share(SECOND_CODE_LENGTHS_3@, 192) == 0x2_0460);
    assert(share(SECOND_CODE_LENGTHS_3@, 200) == 0x2_0ca0);
    assert(share(SECOND_CODE_LENGTHS_3@, 208) == 0x2_1520);
    assert(share(SECOND_CODE_LENGTHS_3@, 216) == 0x2_1c20);
    assert(share(SECOND_CODE_LENGTHS_3@, 224) == 0x2_2260);
    assert(share(SECOND_CODE_LENGTHS_3@, 232) == 0x2_29a0);
    assert(share(SECOND_CODE_LENGTHS_3@, 240) == 0x2_35a0);
    assert(share(SECOND_CODE_LENGTHS_3@, 248) == 0x2_4020);
    assert(share(SECOND_CODE_LENGTHS_3@, 256) == 0x2_5b20);
    assert(share(SECOND_CODE_LENGTHS_3@, 264) == 0x3_ab20);
    assert(share(SECOND_CODE_LENGTHS_3@, 272) == 0x3_df20);
    assert(share(SECOND_CODE_LENGTHS_3@, 280) == 0x3_ee20);
    assert(share(SECOND_CODE_LENGTHS_3@, 288) == 0x3_f7e0);
    assert(share(SECOND_CODE_LENGTHS_3@, 296) == 0x3_f8e0);
    assert(share(SECOND_CODE_LENGTHS_3@, 304) == 0x3_fa10);
    assert(share(SECOND_CODE_LENGTHS_3@, 312) == 0x3_fad0);
    assert(share(SECOND_CODE_LENGTHS_3@, 320) == 0x3_ff00);
    assert(share(SECOND_CODE_LENGTHS_3@, 321) == 0x4_0000);
}

#[verifier::spinoff_prover]
proof fn second_set_4_is_full()
    ensures
        share(SECOND_CODE_LENGTHS_4@, 321) == 0x4_0000,
{
    reveal_with_fuel(share, 9);
    assert(share(SECOND_CODE_LENGTHS_4@, 8) == 0xb000);
    assert(share(SECOND_CODE_LENGTHS_4@, 16) == 0xf200);
    assert(share(SECOND_CODE_LENGTHS_4@, 24) == 0x1_2000);
    assert(share(SECOND_CODE_LENGTHS_4@, 32) == 0x1_3c00);
    assert(share(SECOND_CODE_LENGTHS_4@, 40) == 0x1_5d00);
    assert(share(SECOND_CODE_LENGTHS_4@, 48) == 0x1_7300);
    assert(share(SECOND_CODE_LENGTHS_4@, 56) == 0x1_8d00);
    assert(share(SECOND_CODE_LENGTHS_4@, 64) == 0x1_9e00);
    assert(share(SECOND_CODE_LENGTHS_4@, 72) == 0x1_b800);
    assert(share(SECOND_CODE_LENGTHS_4@, 80) == 0x1_ce00);
    assert(share(SECOND_CODE_LENGTHS_4@, 88) == 0x1_e500);
    assert(share(SECOND_CODE_LENGTHS_4@, 96) == 0x1_f200);
    assert(share(SECOND_CODE_LENGTHS_4@, 104) == 0x2_0900);
    assert(share(SECOND_CODE_LENGTHS_4@, 112) == 0x2_1580);
    assert(share(SECOND_CODE_LENGTHS_4@, 120) == 0x2_2b80);
    assert(share(SECOND_CODE_LENGTHS_4@, 128) == 0x2_3700);
    assert(share(SECOND_CODE_LENGTHS_4@, 136) == 0x2_4280);
    assert(share(SECOND_CODE_LENGTHS_4@, 144) == 0x2_4900);
    assert(share(SECOND_CODE_LENGTHS_4@, 152) == 0x2_51c0);
    assert(share(SECOND_CODE_LENGTHS_4@, 160) == 0x2_5900);
    assert(share(SECOND_CODE_LENGTHS_4@, 168) == 0x2_5ec0);
    assert(share(SECOND_CODE_LENGTHS_4@, 176) == 0x2_6580);
    assert(share(SECOND_CODE_LENGTHS_4@, 184) == 0x2_6d80);
    assert(share(SECOND_CODE_LENGTHS_4@, 192) == 0x2_7780);
    assert(share(SECOND_CODE_LENGTHS_4@, 200) == 0x2_8280);
    assert(share(SECOND_CODE_LENGTHS_4@, 208) == 0x2_86a0);
    assert(share(SECOND_CODE_LENGTHS_4@, 216) == 0x2_8c20);
    assert(share(SECOND_CODE_LENGTHS_4@, 224) == 0x2_91e0);
    assert(share(SECOND_CODE_LENGTHS_4@, 232) == 0x2_96e0);
    assert(share(SECOND_CODE_LENGTHS_4@, 240) == 0x2_9da0);
    assert(share(SECOND_CODE_LENGTHS_4@, 248) == 0x2_a5a0);
    assert(share(SECOND_CODE_LENGTHS_4@, 256) == 0x2_b720);
    assert(share(SECOND_CODE_LENGTHS_4@, 264) == 0x3_8f20);
    assert(share(SECOND_CODE_LENGTHS_4@, 272) == 0x3_b320);
    assert(share(SECOND_CODE_LENGTHS_4@, 280) == 0x3_ba60);
    assert(share(SECOND_CODE_LENGTHS_4@, 288) == 0x3_bea0);
    assert(share(SECOND_CODE_LENGTHS_4@, 296) == 0x3_c120);
    assert(share(SECOND_CODE_LENGTHS_4@, 304) == 0x3_cca0);
    assert(share(SECOND_CODE_LENGTHS_4@, 312) == 0x3_cf88);
    assert(share(SECOND_CODE_LENGTHS_4@, 320) == 0x3_e000);
    assert(share(SECOND_CODE_LENGTHS_4@, 321) == 0x4_0000);
}

#[verifier::spinoff_prover]
proof fn second_set_5_is_full()
    ensures
        share(SECOND_CODE_LENGTHS_5@, 321) == 0x4_0000,
{
    reveal_with_fuel(share, 9);
    assert(share(SECOND_CODE_LENGTHS_5@, 8) == 0x7c0);
    assert(share(SECOND_CODE_LENGTHS_5@, 16) == 0x3a40);
    assert(share(SECOND_CODE_LENGTHS_5@, 24) == 0x3bd0);
    assert(share(SECOND_CODE_LENGTHS_5@, 32) == 0x3d18);
    assert(share(SECOND_CODE_LENGTHS_5@, 40) == 0x8c18);
    assert(share(SECOND_CODE_LENGTHS_5@, 48) == 0xda18);
    assert(share(SECOND_CODE_LENGTHS_5@, 56) == 0x1_0218);
    assert(share(SECOND_CODE_LENGTHS_5@, 64) == 0x1_1918);
    assert(share(SECOND_CODE_LENGTHS_5@, 72) == 0x1_4798);
    assert(share(SECOND_CODE_LENGTHS_5@, 80) == 0x1_6998);
    assert(share(SECOND_CODE_LENGTHS_5@, 88) == 0x1_9a98);
    assert(share(SECOND_CODE_LENGTHS_5@, 96) == 0x1_a298);
    assert(share(SECOND_CODE_LENGTHS_5@, 104) == 0x1_ff18);
    assert(share(SECOND_CODE_LENGTHS_5@, 112) == 0x2_5218);
    assert(share(SECOND_CODE_LENGTHS_5@, 120) == 0x2_b318);
    assert(share(SECOND_CODE_LENGTHS_5@, 128) == 0x2_c2cc);
    assert(share(SECOND_CODE_LENGTHS_5@, 136) == 0x2_c354);
    assert(share(SECOND_CODE_LENGTHS_5@, 144) == 0x2_c394);
    assert(share(SECOND_CODE_LENGTHS_5@, 152) == 0x2_c3fa);
    assert(share(SECOND_CODE_LENGTHS_5@, 160) == 0x2_c48a);
    assert(share(SECOND_CODE_LENGTHS_5@, 168) == 0x2_c54e);
    assert(share(SECOND_CODE_LENGTHS_5@, 176) == 0x2_c5e8);
    assert(share(SECOND_CODE_LENGTHS_5@, 184) == 0x2_c662);
    assert(share(SECOND_CODE_LENGTHS_5@, 192) == 0x2_c696);
    assert(share(SECOND_CODE_LENGTHS_5@, 200) == 0x2_c6ea);
    assert(share(SECOND_CODE_LENGTHS_5@, 208) == 0x2_c770);
    assert(share(SECOND_CODE_LENGTHS_5@, 216) == 0x2_c7ee);
    assert(share(SECOND_CODE_LENGTHS_5@, 224) == 0x2_c814);
    assert(share(SECOND_CODE_LENGTHS_5@, 232) == 0x2_c854);
    assert(share(SECOND_CODE_LENGTHS_5@, 240) == 0x2_c882);
    assert(share(SECOND_CODE_LENGTHS_5@, 248) == 0x2_c8b4);
    assert(share(SECOND_CODE_LENGTHS_5@, 256) == 0x2_c920);
    assert(share(SECOND_CODE_LENGTHS_5@, 264) == 0x3_c120);
    assert(share(SECOND_CODE_LENGTHS_5@, 272) == 0x3_e520);
    assert(share(SECOND_CODE_LENGTHS_5@, 280) == 0x3_efa0);
    assert(share(SECOND_CODE_LENGTHS_5@, 288) == 0x3_f2e0);
    assert(share(SECOND_CODE_LENGTHS_5@, 296) == 0x3_f420);
    assert(share(SECOND_CODE_LENGTHS_5@, 304) == 0x3_f530);
    assert(share(SECOND_CODE_LENGTHS_5@, 312) == 0x3_f5b0);
    assert(share(SECOND_CODE_LENGTHS_5@, 320) == 0x3_f800);
    assert(share(SECOND_CODE_LENGTHS_5@, 321) == 0x4_0000);
}

#[verifier::spinoff_prover]
proof fn offset_set_1_is_full()
    ensures
        share(OFFSET_CODE_LENGTHS_1@, 11) == 0x4_0000,
{
    reveal_with_fuel(share, 9);
    assert(share(OFFSET_CODE_LENGTHS_1@, 8) == 0x3_3000);
    assert(share(OFFSET_CODE_LENGTHS_1@, 11) == 0x4_0000);
}

#[verifier::spinoff_prover]
proof fn offset_set_2_is_full()
    ensures
        share(OFFSET_CODE_LENGTHS_2@, 13) == 0x4_0000,
{
    reveal_with_fuel(share, 9);
    assert(share(OFFSET_CODE_LENGTHS_2@, 8) == 0x2_b000);
    assert(share(OFFSET_CODE_LENGTHS_2@, 13) == 0x4_0000);
}

#[verifier::spinoff_prover]
proof fn offset_set_3_is_full()
    ensures
        share(OFFSET_CODE_LENGTHS_3@, 14) == 0x4_0000,
{
    reveal_with_fuel(share, 9);
    assert(share(OFFSET_CODE_LENGTHS_3@, 8) == 0x2_9800);
    assert(share(OFFSET_CODE_LENGTHS_3@, 14) == 0x4_0000);
}

#[verifier::spinoff_prover]
proof fn offset_set_4_is_full()
    ensures
        share(OFFSET_CODE_LENGTHS_4@, 11) == 0x4_0000,
{
    reveal_with_fuel(share, 9);
    assert(share(OFFSET_CODE_LENGTHS_4@, 8) == 0x3_7000);
    assert(share(OFFSET_CODE_LENGTHS_4@, 11) == 0x4_0000);
}

#[verifier::spinoff_prover]
proof fn offset_set_5_is_full()
    ensures
        share(OFFSET_CODE_LENGTHS_5@, 11) == 0x4_0000,
{
    reveal_with_fuel(share, 9);
    assert(share(OFFSET_CODE_LENGTHS_5@, 8) == 0x2_f000);
    assert(share(OFFSET_CODE_LENGTHS_5@, 11) == 0x4_0000);
}

/// In every built-in code there is room for all words.
pub proof fn built_in_codes_have_room(t: int)
    requires
        1 <= t <= 5,
    ensures
        has_room(first_lengths(t), 32),
        has_room(second_lengths(t), 32),
        has_room(offset_lengths(t), 32),
{
    built_in_lengths(t);
    first_set_1_is_full();
    first_set_2_is_full();
    first_set_3_is_full();
    first_set_4_is_full();
    first_set_5_is_full();
    second_set_1_is_full();
    second_set_2_is_full();
    second_set_3_is_full();
    second_set_4_is_full();
    second_set_5_is_full();
    offset_set_1_is_full();
    offset_set_2_is_full();
    offset_set_3_is_full();
    offset_set_4_is_full();
    offset_set_5_is_full();
    full_code_has_room(first_lengths(t));
    full_code_has_room(second_lengths(t));
    full_code_has_room(offset_lengths(t));
}

} // verus!

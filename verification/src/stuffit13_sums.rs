use vstd::prelude::*;
use crate::stuffit13_tables::{
    built_in_lengths, first_lengths, meta_code, meta_length, meta_tables, offset_lengths, second_lengths,
    FIRST_CODE_LENGTHS_1, FIRST_CODE_LENGTHS_2, FIRST_CODE_LENGTHS_3, FIRST_CODE_LENGTHS_4, FIRST_CODE_LENGTHS_5,
    META_CODES, META_CODE_LENGTHS, OFFSET_CODE_LENGTHS_1, OFFSET_CODE_LENGTHS_2, OFFSET_CODE_LENGTHS_3,
    OFFSET_CODE_LENGTHS_4, OFFSET_CODE_LENGTHS_5, SECOND_CODE_LENGTHS_1, SECOND_CODE_LENGTHS_2, SECOND_CODE_LENGTHS_3,
    SECOND_CODE_LENGTHS_4, SECOND_CODE_LENGTHS_5,
};

verus! {

// The built-in tables are told apart, and slips in them found, by the sums of their
// numbers, each weighed by its place.

/// The first `n` numbers added up, the first once, the second twice, and so on.
pub open spec fn weighted(s: Seq<u32>, n: int) -> int
    decreases n,
{
    if n <= 0 {
        0
    } else {
        weighted(s, n - 1) + n * s[n - 1]
    }
}

#[verifier::spinoff_prover]
proof fn first_set_1_adds_up()
    ensures
        weighted(FIRST_CODE_LENGTHS_1@, 321) == 486117,
{
    reveal_with_fuel(weighted, 9);
    assert(weighted(FIRST_CODE_LENGTHS_1@, 8) == 296);
    assert(weighted(FIRST_CODE_LENGTHS_1@, 16) == 1162);
    assert(weighted(FIRST_CODE_LENGTHS_1@, 24) == 2662);
    assert(weighted(FIRST_CODE_LENGTHS_1@, 32) == 4799);
    assert(weighted(FIRST_CODE_LENGTHS_1@, 40) == 7333);
    assert(weighted(FIRST_CODE_LENGTHS_1@, 48) == 10443);
    assert(weighted(FIRST_CODE_LENGTHS_1@, 56) == 14173);
    assert(weighted(FIRST_CODE_LENGTHS_1@, 64) == 18529);
    assert(weighted(FIRST_CODE_LENGTHS_1@, 72) == 23256);
    assert(weighted(FIRST_CODE_LENGTHS_1@, 80) == 28529);
    assert(weighted(FIRST_CODE_LENGTHS_1@, 88) == 34113);
    assert(weighted(FIRST_CODE_LENGTHS_1@, 96) == 41142);
    assert(weighted(FIRST_CODE_LENGTHS_1@, 104) == 47172);
    assert(weighted(FIRST_CODE_LENGTHS_1@, 112) == 53556);
    assert(weighted(FIRST_CODE_LENGTHS_1@, 120) == 60670);
    assert(weighted(FIRST_CODE_LENGTHS_1@, 128) == 69885);
    assert(weighted(FIRST_CODE_LENGTHS_1@, 136) == 80356);
    assert(weighted(FIRST_CODE_LENGTHS_1@, 144) == 91459);
    assert(weighted(FIRST_CODE_LENGTHS_1@, 152) == 103194);
    assert(weighted(FIRST_CODE_LENGTHS_1@, 160) == 115714);
    assert(weighted(FIRST_CODE_LENGTHS_1@, 168) == 128713);
    assert(weighted(FIRST_CODE_LENGTHS_1@, 176) == 142174);
    assert(weighted(FIRST_CODE_LENGTHS_1@, 184) == 156614);
    assert(weighted(FIRST_CODE_LENGTHS_1@, 192) == 171507);
    assert(weighted(FIRST_CODE_LENGTHS_1@, 200) == 187034);
    assert(weighted(FIRST_CODE_LENGTHS_1@, 208) == 203394);
    assert(weighted(FIRST_CODE_LENGTHS_1@, 216) == 220394);
    assert(weighted(FIRST_CODE_LENGTHS_1@, 224) == 238034);
    assert(weighted(FIRST_CODE_LENGTHS_1@, 232) == 256089);
    assert(weighted(FIRST_CODE_LENGTHS_1@, 240) == 274534);
    assert(weighted(FIRST_CODE_LENGTHS_1@, 248) == 293853);
    assert(weighted(FIRST_CODE_LENGTHS_1@, 256) == 312016);
    assert(weighted(FIRST_CODE_LENGTHS_1@, 264) == 327673);
    assert(weighted(FIRST_CODE_LENGTHS_1@, 272) == 348352);
    assert(weighted(FIRST_CODE_LENGTHS_1@, 280) == 370472);
    assert(weighted(FIRST_CODE_LENGTHS_1@, 288) == 393232);
    assert(weighted(FIRST_CODE_LENGTHS_1@, 296) == 415455);
    assert(weighted(FIRST_CODE_LENGTHS_1@, 304) == 438291);
    assert(weighted(FIRST_CODE_LENGTHS_1@, 312) == 462353);
    assert(weighted(FIRST_CODE_LENGTHS_1@, 320) == 484512);
    assert(weighted(FIRST_CODE_LENGTHS_1@, 321) == 486117);
}

#[verifier::spinoff_prover]
proof fn first_set_2_adds_up()
    ensures
        weighted(FIRST_CODE_LENGTHS_2@, 321) == 555346,
{
    reveal_with_fuel(weighted, 9);
    assert(weighted(FIRST_CODE_LENGTHS_2@, 8) == 274);
    assert(weighted(FIRST_CODE_LENGTHS_2@, 16) == 1053);
    assert(weighted(FIRST_CODE_LENGTHS_2@, 24) == 2541);
    assert(weighted(FIRST_CODE_LENGTHS_2@, 32) == 4733);
    assert(weighted(FIRST_CODE_LENGTHS_2@, 40) == 7309);
    assert(weighted(FIRST_CODE_LENGTHS_2@, 48) == 10285);
    assert(weighted(FIRST_CODE_LENGTHS_2@, 56) == 14022);
    assert(weighted(FIRST_CODE_LENGTHS_2@, 64) == 18501);
    assert(weighted(FIRST_CODE_LENGTHS_2@, 72) == 22753);
    assert(weighted(FIRST_CODE_LENGTHS_2@, 80) == 27721);
    assert(weighted(FIRST_CODE_LENGTHS_2@, 88) == 33304);
    assert(weighted(FIRST_CODE_LENGTHS_2@, 96) == 40798);
    assert(weighted(FIRST_CODE_LENGTHS_2@, 104) == 46320);
    assert(weighted(FIRST_CODE_LENGTHS_2@, 112) == 52280);
    assert(weighted(FIRST_CODE_LENGTHS_2@, 120) == 58923);
    assert(weighted(FIRST_CODE_LENGTHS_2@, 128) == 67894);
    assert(weighted(FIRST_CODE_LENGTHS_2@, 136) == 77837);
    assert(weighted(FIRST_CODE_LENGTHS_2@, 144) == 88940);
    assert(weighted(FIRST_CODE_LENGTHS_2@, 152) == 100823);
    assert(weighted(FIRST_CODE_LENGTHS_2@, 160) == 113657);
    assert(weighted(FIRST_CODE_LENGTHS_2@, 168) == 126818);
    assert(weighted(FIRST_CODE_LENGTHS_2@, 176) == 140801);
    assert(weighted(FIRST_CODE_LENGTHS_2@, 184) == 156692);
    assert(weighted(FIRST_CODE_LENGTHS_2@, 192) == 172905);
    assert(weighted(FIRST_CODE_LENGTHS_2@, 200) == 189814);
    assert(weighted(FIRST_CODE_LENGTHS_2@, 208) == 206787);
    assert(weighted(FIRST_CODE_LENGTHS_2@, 216) == 224645);
    assert(weighted(FIRST_CODE_LENGTHS_2@, 224) == 243605);
    assert(weighted(FIRST_CODE_LENGTHS_2@, 232) == 263032);
    assert(weighted(FIRST_CODE_LENGTHS_2@, 240) == 283608);
    assert(weighted(FIRST_CODE_LENGTHS_2@, 248) == 304394);
    assert(weighted(FIRST_CODE_LENGTHS_2@, 256) == 323820);
    assert(weighted(FIRST_CODE_LENGTHS_2@, 264) == 336872);
    assert(weighted(FIRST_CODE_LENGTHS_2@, 272) == 357290);
    assert(weighted(FIRST_CODE_LENGTHS_2@, 280) == 383834);
    assert(weighted(FIRST_CODE_LENGTHS_2@, 288) == 412011);
    assert(weighted(FIRST_CODE_LENGTHS_2@, 296) == 445069);
    assert(weighted(FIRST_CODE_LENGTHS_2@, 304) == 479933);
    assert(weighted(FIRST_CODE_LENGTHS_2@, 312) == 514797);
    assert(weighted(FIRST_CODE_LENGTHS_2@, 320) == 552136);
    assert(weighted(FIRST_CODE_LENGTHS_2@, 321) == 555346);
}

#[verifier::spinoff_prover]
proof fn first_set_3_adds_up()
    ensures
        weighted(FIRST_CODE_LENGTHS_3@, 321) == 468447,
{
    reveal_with_fuel(weighted, 9);
    assert(weighted(FIRST_CODE_LENGTHS_3@, 8) == 264);
    assert(weighted(FIRST_CODE_LENGTHS_3@, 16) == 1095);
    assert(weighted(FIRST_CODE_LENGTHS_3@, 24) == 2622);
    assert(weighted(FIRST_CODE_LENGTHS_3@, 32) == 4816);
    assert(weighted(FIRST_CODE_LENGTHS_3@, 40) == 7523);
    assert(weighted(FIRST_CODE_LENGTHS_3@, 48) == 10766);
    assert(weighted(FIRST_CODE_LENGTHS_3@, 56) == 14715);
    assert(weighted(FIRST_CODE_LENGTHS_3@, 64) == 19193);
    assert(weighted(FIRST_CODE_LENGTHS_3@, 72) == 23793);
    assert(weighted(FIRST_CODE_LENGTHS_3@, 80) == 29225);
    assert(weighted(FIRST_CODE_LENGTHS_3@, 88) == 34976);
    assert(weighted(FIRST_CODE_LENGTHS_3@, 96) == 42101);
    assert(weighted(FIRST_CODE_LENGTHS_3@, 104) == 48631);
    assert(weighted(FIRST_CODE_LENGTHS_3@, 112) == 56220);
    assert(weighted(FIRST_CODE_LENGTHS_3@, 120) == 64143);
    assert(weighted(FIRST_CODE_LENGTHS_3@, 128) == 73732);
    assert(weighted(FIRST_CODE_LENGTHS_3@, 136) == 83684);
    assert(weighted(FIRST_CODE_LENGTHS_3@, 144) == 94643);
    assert(weighted(FIRST_CODE_LENGTHS_3@, 152) == 106378);
    assert(weighted(FIRST_CODE_LENGTHS_3@, 160) == 118744);
    assert(weighted(FIRST_CODE_LENGTHS_3@, 168) == 131743);
    assert(weighted(FIRST_CODE_LENGTHS_3@, 176) == 145033);
    assert(weighted(FIRST_CODE_LENGTHS_3@, 184) == 159473);
    assert(weighted(FIRST_CODE_LENGTHS_3@, 192) == 174174);
    assert(weighted(FIRST_CODE_LENGTHS_3@, 200) == 189314);
    assert(weighted(FIRST_CODE_LENGTHS_3@, 208) == 205469);
    assert(weighted(FIRST_CODE_LENGTHS_3@, 216) == 222260);
    assert(weighted(FIRST_CODE_LENGTHS_3@, 224) == 239676);
    assert(weighted(FIRST_CODE_LENGTHS_3@, 232) == 257499);
    assert(weighted(FIRST_CODE_LENGTHS_3@, 240) == 275940);
    assert(weighted(FIRST_CODE_LENGTHS_3@, 248) == 295011);
    assert(weighted(FIRST_CODE_LENGTHS_3@, 256) == 312933);
    assert(weighted(FIRST_CODE_LENGTHS_3@, 264) == 327026);
    assert(weighted(FIRST_CODE_LENGTHS_3@, 272) == 347972);
    assert(weighted(FIRST_CODE_LENGTHS_3@, 280) == 370092);
    assert(weighted(FIRST_CODE_LENGTHS_3@, 288) == 391991);
    assert(weighted(FIRST_CODE_LENGTHS_3@, 296) == 411863);
    assert(weighted(FIRST_CODE_LENGTHS_3@, 304) == 430207);
    assert(weighted(FIRST_CODE_LENGTHS_3@, 312) == 446554);
    assert(weighted(FIRST_CODE_LENGTHS_3@, 320) == 465237);
    assert(weighted(FIRST_CODE_LENGTHS_3@, 321) == 468447);
}

#[verifier::spinoff_prover]
proof fn first_set_4_adds_up()
    ensures
        weighted(FIRST_CODE_LENGTHS_4@, 321) == 558426,
{
    reveal_with_fuel(weighted, 9);
    assert(weighted(FIRST_CODE_LENGTHS_4@, 8) == 256);
    assert(weighted(FIRST_CODE_LENGTHS_4@, 16) == 1104);
    assert(weighted(FIRST_CODE_LENGTHS_4@, 24) == 2590);
    assert(weighted(FIRST_CODE_LENGTHS_4@, 32) == 4701);
    assert(weighted(FIRST_CODE_LENGTHS_4@, 40) == 7233);
    assert(weighted(FIRST_CODE_LENGTHS_4@, 48) == 10384);
    assert(weighted(FIRST_CODE_LENGTHS_4@, 56) == 14014);
    assert(weighted(FIRST_CODE_LENGTHS_4@, 64) == 18495);
    assert(weighted(FIRST_CODE_LENGTHS_4@, 72) == 22891);
    assert(weighted(FIRST_CODE_LENGTHS_4@, 80) == 27862);
    assert(weighted(FIRST_CODE_LENGTHS_4@, 88) == 33608);
    assert(weighted(FIRST_CODE_LENGTHS_4@, 96) == 40823);
    assert(weighted(FIRST_CODE_LENGTHS_4@, 104) == 47052);
    assert(weighted(FIRST_CODE_LENGTHS_4@, 112) == 53880);
    assert(weighted(FIRST_CODE_LENGTHS_4@, 120) == 61455);
    assert(weighted(FIRST_CODE_LENGTHS_4@, 128) == 71169);
    assert(weighted(FIRST_CODE_LENGTHS_4@, 136) == 81521);
    assert(weighted(FIRST_CODE_LENGTHS_4@, 144) == 93184);
    assert(weighted(FIRST_CODE_LENGTHS_4@, 152) == 105369);
    assert(weighted(FIRST_CODE_LENGTHS_4@, 160) == 118203);
    assert(weighted(FIRST_CODE_LENGTHS_4@, 168) == 131366);
    assert(weighted(FIRST_CODE_LENGTHS_4@, 176) == 145347);
    assert(weighted(FIRST_CODE_LENGTHS_4@, 184) == 160876);
    assert(weighted(FIRST_CODE_LENGTHS_4@, 192) == 176711);
    assert(weighted(FIRST_CODE_LENGTHS_4@, 200) == 192838);
    assert(weighted(FIRST_CODE_LENGTHS_4@, 208) == 210225);
    assert(weighted(FIRST_CODE_LENGTHS_4@, 216) == 228084);
    assert(weighted(FIRST_CODE_LENGTHS_4@, 224) == 246381);
    assert(weighted(FIRST_CODE_LENGTHS_4@, 232) == 265346);
    assert(weighted(FIRST_CODE_LENGTHS_4@, 240) == 284742);
    assert(weighted(FIRST_CODE_LENGTHS_4@, 248) == 304544);
    assert(weighted(FIRST_CODE_LENGTHS_4@, 256) == 322705);
    assert(weighted(FIRST_CODE_LENGTHS_4@, 264) == 337051);
    assert(weighted(FIRST_CODE_LENGTHS_4@, 272) == 359618);
    assert(weighted(FIRST_CODE_LENGTHS_4@, 280) == 385619);
    assert(weighted(FIRST_CODE_LENGTHS_4@, 288) == 415498);
    assert(weighted(FIRST_CODE_LENGTHS_4@, 296) == 447082);
    assert(weighted(FIRST_CODE_LENGTHS_4@, 304) == 485259);
    assert(weighted(FIRST_CODE_LENGTHS_4@, 312) == 519782);
    assert(weighted(FIRST_CODE_LENGTHS_4@, 320) == 557142);
    assert(weighted(FIRST_CODE_LENGTHS_4@, 321) == 558426);
}

#[verifier::spinoff_prover]
proof fn first_set_5_adds_up()
    ensures
        weighted(FIRST_CODE_LENGTHS_5@, 321) == 477490,
{
    reveal_with_fuel(weighted, 9);
    assert(weighted(FIRST_CODE_LENGTHS_5@, 8) == 322);
    assert(weighted(FIRST_CODE_LENGTHS_5@, 16) == 1184);
    assert(weighted(FIRST_CODE_LENGTHS_5@, 24) == 2684);
    assert(weighted(FIRST_CODE_LENGTHS_5@, 32) == 4820);
    assert(weighted(FIRST_CODE_LENGTHS_5@, 40) == 7246);
    assert(weighted(FIRST_CODE_LENGTHS_5@, 48) == 9873);
    assert(weighted(FIRST_CODE_LENGTHS_5@, 56) == 13348);
    assert(weighted(FIRST_CODE_LENGTHS_5@, 64) == 17356);
    assert(weighted(FIRST_CODE_LENGTHS_5@, 72) == 21600);
    assert(weighted(FIRST_CODE_LENGTHS_5@, 80) == 26332);
    assert(weighted(FIRST_CODE_LENGTHS_5@, 88) == 31834);
    assert(weighted(FIRST_CODE_LENGTHS_5@, 96) == 38494);
    assert(weighted(FIRST_CODE_LENGTHS_5@, 104) == 44622);
    assert(weighted(FIRST_CODE_LENGTHS_5@, 112) == 50693);
    assert(weighted(FIRST_CODE_LENGTHS_5@, 120) == 56750);
    assert(weighted(FIRST_CODE_LENGTHS_5@, 128) == 65592);
    assert(weighted(FIRST_CODE_LENGTHS_5@, 136) == 75665);
    assert(weighted(FIRST_CODE_LENGTHS_5@, 144) == 86768);
    assert(weighted(FIRST_CODE_LENGTHS_5@, 152) == 98503);
    assert(weighted(FIRST_CODE_LENGTHS_5@, 160) == 110866);
    assert(weighted(FIRST_CODE_LENGTHS_5@, 168) == 123366);
    assert(weighted(FIRST_CODE_LENGTHS_5@, 176) == 136656);
    assert(weighted(FIRST_CODE_LENGTHS_5@, 184) == 150913);
    assert(weighted(FIRST_CODE_LENGTHS_5@, 192) == 165993);
    assert(weighted(FIRST_CODE_LENGTHS_5@, 200) == 181323);
    assert(weighted(FIRST_CODE_LENGTHS_5@, 208) == 197077);
    assert(weighted(FIRST_CODE_LENGTHS_5@, 216) == 213443);
    assert(weighted(FIRST_CODE_LENGTHS_5@, 224) == 230866);
    assert(weighted(FIRST_CODE_LENGTHS_5@, 232) == 248921);
    assert(weighted(FIRST_CODE_LENGTHS_5@, 240) == 267841);
    assert(weighted(FIRST_CODE_LENGTHS_5@, 248) == 287160);
    assert(weighted(FIRST_CODE_LENGTHS_5@, 256) == 306351);
    assert(weighted(FIRST_CODE_LENGTHS_5@, 264) == 321214);
    assert(weighted(FIRST_CODE_LENGTHS_5@, 272) == 340546);
    assert(weighted(FIRST_CODE_LENGTHS_5@, 280) == 360454);
    assert(weighted(FIRST_CODE_LENGTHS_5@, 288) == 380938);
    assert(weighted(FIRST_CODE_LENGTHS_5@, 296) == 404049);
    assert(weighted(FIRST_CODE_LENGTHS_5@, 304) == 428089);
    assert(weighted(FIRST_CODE_LENGTHS_5@, 312) == 452769);
    assert(weighted(FIRST_CODE_LENGTHS_5@, 320) == 474601);
    assert(weighted(FIRST_CODE_LENGTHS_5@, 321) == 477490);
}

#[verifier::spinoff_prover]
proof fn second_set_1_adds_up()
    ensures
        weighted(SECOND_CODE_LENGTHS_1@, 321) == 538793,
{
    reveal_with_fuel(weighted, 9);
    assert(weighted(SECOND_CODE_LENGTHS_1@, 8) == 231);
    assert(weighted(SECOND_CODE_LENGTHS_1@, 16) == 977);
    assert(weighted(SECOND_CODE_LENGTHS_1@, 24) == 2335);
    assert(weighted(SECOND_CODE_LENGTHS_1@, 32) == 4210);
    assert(weighted(SECOND_CODE_LENGTHS_1@, 40) == 6699);
    assert(weighted(SECOND_CODE_LENGTHS_1@, 48) == 9725);
    assert(weighted(SECOND_CODE_LENGTHS_1@, 56) == 13144);
    assert(weighted(SECOND_CODE_LENGTHS_1@, 64) == 17562);
    assert(weighted(SECOND_CODE_LENGTHS_1@, 72) == 22089);
    assert(weighted(SECOND_CODE_LENGTHS_1@, 80) == 27219);
    assert(weighted(SECOND_CODE_LENGTHS_1@, 88) == 32886);
    assert(weighted(SECOND_CODE_LENGTHS_1@, 96) == 40013);
    assert(weighted(SECOND_CODE_LENGTHS_1@, 104) == 46849);
    assert(weighted(SECOND_CODE_LENGTHS_1@, 112) == 54544);
    assert(weighted(SECOND_CODE_LENGTHS_1@, 120) == 62934);
    assert(weighted(SECOND_CODE_LENGTHS_1@, 128) == 72397);
    assert(weighted(SECOND_CODE_LENGTHS_1@, 136) == 82476);
    assert(weighted(SECOND_CODE_LENGTHS_1@, 144) == 94421);
    assert(weighted(SECOND_CODE_LENGTHS_1@, 152) == 106602);
    assert(weighted(SECOND_CODE_LENGTHS_1@, 160) == 119272);
    assert(weighted(SECOND_CODE_LENGTHS_1@, 168) == 130634);
    assert(weighted(SECOND_CODE_LENGTHS_1@, 176) == 145301);
    assert(weighted(SECOND_CODE_LENGTHS_1@, 184) == 161004);
    assert(weighted(SECOND_CODE_LENGTHS_1@, 192) == 176845);
    assert(weighted(SECOND_CODE_LENGTHS_1@, 200) == 193945);
    assert(weighted(SECOND_CODE_LENGTHS_1@, 208) == 212560);
    assert(weighted(SECOND_CODE_LENGTHS_1@, 216) == 231474);
    assert(weighted(SECOND_CODE_LENGTHS_1@, 224) == 250664);
    assert(weighted(SECOND_CODE_LENGTHS_1@, 232) == 270318);
    assert(weighted(SECOND_CODE_LENGTHS_1@, 240) == 290892);
    assert(weighted(SECOND_CODE_LENGTHS_1@, 248) == 312168);
    assert(weighted(SECOND_CODE_LENGTHS_1@, 256) == 332608);
    assert(weighted(SECOND_CODE_LENGTHS_1@, 264) == 345653);
    assert(weighted(SECOND_CODE_LENGTHS_1@, 272) == 360685);
    assert(weighted(SECOND_CODE_LENGTHS_1@, 280) == 382270);
    assert(weighted(SECOND_CODE_LENGTHS_1@, 288) == 407876);
    assert(weighted(SECOND_CODE_LENGTHS_1@, 296) == 435367);
    assert(weighted(SECOND_CODE_LENGTHS_1@, 304) == 463008);
    assert(weighted(SECOND_CODE_LENGTHS_1@, 312) == 496033);
    assert(weighted(SECOND_CODE_LENGTHS_1@, 320) == 536225);
    assert(weighted(SECOND_CODE_LENGTHS_1@, 321) == 538793);
}

#[verifier::spinoff_prover]
proof fn second_set_2_adds_up()
    ensures
        weighted(SECOND_CODE_LENGTHS_2@, 321) == 513687,
{
    reveal_with_fuel(weighted, 9);
    assert(weighted(SECOND_CODE_LENGTHS_2@, 8) == 236);
    assert(weighted(SECOND_CODE_LENGTHS_2@, 16) == 962);
    assert(weighted(SECOND_CODE_LENGTHS_2@, 24) == 2303);
    assert(weighted(SECOND_CODE_LENGTHS_2@, 32) == 4209);
    assert(weighted(SECOND_CODE_LENGTHS_2@, 40) == 6627);
    assert(weighted(SECOND_CODE_LENGTHS_2@, 48) == 9607);
    assert(weighted(SECOND_CODE_LENGTHS_2@, 56) == 13129);
    assert(weighted(SECOND_CODE_LENGTHS_2@, 64) == 17419);
    assert(weighted(SECOND_CODE_LENGTHS_2@, 72) == 21878);
    assert(weighted(SECOND_CODE_LENGTHS_2@, 80) == 27085);
    assert(weighted(SECOND_CODE_LENGTHS_2@, 88) == 32836);
    assert(weighted(SECOND_CODE_LENGTHS_2@, 96) == 39960);
    assert(weighted(SECOND_CODE_LENGTHS_2@, 104) == 46596);
    assert(weighted(SECOND_CODE_LENGTHS_2@, 112) == 54078);
    assert(weighted(SECOND_CODE_LENGTHS_2@, 120) == 62117);
    assert(weighted(SECOND_CODE_LENGTHS_2@, 128) == 71325);
    assert(weighted(SECOND_CODE_LENGTHS_2@, 136) == 81138);
    assert(weighted(SECOND_CODE_LENGTHS_2@, 144) == 92110);
    assert(weighted(SECOND_CODE_LENGTHS_2@, 152) == 104142);
    assert(weighted(SECOND_CODE_LENGTHS_2@, 160) == 116511);
    assert(weighted(SECOND_CODE_LENGTHS_2@, 168) == 128854);
    assert(weighted(SECOND_CODE_LENGTHS_2@, 176) == 142491);
    assert(weighted(SECOND_CODE_LENGTHS_2@, 184) == 157299);
    assert(weighted(SECOND_CODE_LENGTHS_2@, 192) == 172568);
    assert(weighted(SECOND_CODE_LENGTHS_2@, 200) == 187906);
    assert(weighted(SECOND_CODE_LENGTHS_2@, 208) == 203856);
    assert(weighted(SECOND_CODE_LENGTHS_2@, 216) == 220008);
    assert(weighted(SECOND_CODE_LENGTHS_2@, 224) == 237427);
    assert(weighted(SECOND_CODE_LENGTHS_2@, 232) == 255479);
    assert(weighted(SECOND_CODE_LENGTHS_2@, 240) == 274163);
    assert(weighted(SECOND_CODE_LENGTHS_2@, 248) == 292748);
    assert(weighted(SECOND_CODE_LENGTHS_2@, 256) == 309658);
    assert(weighted(SECOND_CODE_LENGTHS_2@, 264) == 321400);
    assert(weighted(SECOND_CODE_LENGTHS_2@, 272) == 337783);
    assert(weighted(SECOND_CODE_LENGTHS_2@, 280) == 359356);
    assert(weighted(SECOND_CODE_LENGTHS_2@, 288) == 384398);
    assert(weighted(SECOND_CODE_LENGTHS_2@, 296) == 411895);
    assert(weighted(SECOND_CODE_LENGTHS_2@, 304) == 440444);
    assert(weighted(SECOND_CODE_LENGTHS_2@, 312) == 473771);
    assert(weighted(SECOND_CODE_LENGTHS_2@, 320) == 510798);
    assert(weighted(SECOND_CODE_LENGTHS_2@, 321) == 513687);
}

#[verifier::spinoff_prover]
proof fn second_set_3_adds_up()
    ensures
        weighted(SECOND_CODE_LENGTHS_3@, 321) == 535884,
{
    reveal_with_fuel(weighted, 9);
    assert(weighted(SECOND_CODE_LENGTHS_3@, 8) == 236);
    assert(weighted(SECOND_CODE_LENGTHS_3@, 16) == 1008);
    assert(weighted(SECOND_CODE_LENGTHS_3@, 24) == 2419);
    assert(weighted(SECOND_CODE_LENGTHS_3@, 32) == 4443);
    assert(weighted(SECOND_CODE_LENGTHS_3@, 40) == 7008);
    assert(weighted(SECOND_CODE_LENGTHS_3@, 48) == 10209);
    assert(weighted(SECOND_CODE_LENGTHS_3@, 56) == 13999);
    assert(weighted(SECOND_CODE_LENGTHS_3@, 64) == 18479);
    assert(weighted(SECOND_CODE_LENGTHS_3@, 72) == 23147);
    assert(weighted(SECOND_CODE_LENGTHS_3@, 80) == 28817);
    assert(weighted(SECOND_CODE_LENGTHS_3@, 88) == 34734);
    assert(weighted(SECOND_CODE_LENGTHS_3@, 96) == 42412);
    assert(weighted(SECOND_CODE_LENGTHS_3@, 104) == 49243);
    assert(weighted(SECOND_CODE_LENGTHS_3@, 112) == 57484);
    assert(weighted(SECOND_CODE_LENGTHS_3@, 120) == 65866);
    assert(weighted(SECOND_CODE_LENGTHS_3@, 128) == 75574);
    assert(weighted(SECOND_CODE_LENGTHS_3@, 136) == 85920);
    assert(weighted(SECOND_CODE_LENGTHS_3@, 144) == 97595);
    assert(weighted(SECOND_CODE_LENGTHS_3@, 152) == 110229);
    assert(weighted(SECOND_CODE_LENGTHS_3@, 160) == 123538);
    assert(weighted(SECOND_CODE_LENGTHS_3@, 168) == 136878);
    assert(weighted(SECOND_CODE_LENGTHS_3@, 176) == 151209);
    assert(weighted(SECOND_CODE_LENGTHS_3@, 184) == 167277);
    assert(weighted(SECOND_CODE_LENGTHS_3@, 192) == 182729);
    assert(weighted(SECOND_CODE_LENGTHS_3@, 200) == 199445);
    assert(weighted(SECOND_CODE_LENGTHS_3@, 208) == 216625);
    assert(weighted(SECOND_CODE_LENGTHS_3@, 216) == 234482);
    assert(weighted(SECOND_CODE_LENGTHS_3@, 224) == 253443);
    assert(weighted(SECOND_CODE_LENGTHS_3@, 232) == 272416);
    assert(weighted(SECOND_CODE_LENGTHS_3@, 240) == 292047);
    assert(weighted(SECOND_CODE_LENGTHS_3@, 248) == 311610);
    assert(weighted(SECOND_CODE_LENGTHS_3@, 256) == 328771);
    assert(weighted(SECOND_CODE_LENGTHS_3@, 264) == 339206);
    assert(weighted(SECOND_CODE_LENGTHS_3@, 272) == 355046);
    assert(weighted(SECOND_CODE_LENGTHS_3@, 280) == 375792);
    assert(weighted(SECOND_CODE_LENGTHS_3@, 288) == 399715);
    assert(weighted(SECOND_CODE_LENGTHS_3@, 296) == 430432);
    assert(weighted(SECOND_CODE_LENGTHS_3@, 304) == 461376);
    assert(weighted(SECOND_CODE_LENGTHS_3@, 312) == 494698);
    assert(weighted(SECOND_CODE_LENGTHS_3@, 320) == 532674);
    assert(weighted(SECOND_CODE_LENGTHS_3@, 321) == 535884);
}

#[verifier::spinoff_prover]
proof fn second_set_4_adds_up()
    ensures
        weighted(SECOND_CODE_LENGTHS_4@, 321) == 527766,
{
    reveal_with_fuel(weighted, 9);
    assert(weighted(SECOND_CODE_LENGTHS_4@, 8) == 227);
    assert(weighted(SECOND_CODE_LENGTHS_4@, 16) == 958);
    assert(weighted(SECOND_CODE_LENGTHS_4@, 24) == 2233);
    assert(weighted(SECOND_CODE_LENGTHS_4@, 32) == 4148);
    assert(weighted(SECOND_CODE_LENGTHS_4@, 40) == 6643);
    assert(weighted(SECOND_CODE_LENGTHS_4@, 48) == 9757);
    assert(weighted(SECOND_CODE_LENGTHS_4@, 56) == 13336);
    assert(weighted(SECOND_CODE_LENGTHS_4@, 64) == 17751);
    assert(weighted(SECOND_CODE_LENGTHS_4@, 72) == 22418);
    assert(weighted(SECOND_CODE_LENGTHS_4@, 80) == 27851);
    assert(weighted(SECOND_CODE_LENGTHS_4@, 88) == 33690);
    assert(weighted(SECOND_CODE_LENGTHS_4@, 96) == 40822);
    assert(weighted(SECOND_CODE_LENGTHS_4@, 104) == 47761);
    assert(weighted(SECOND_CODE_LENGTHS_4@, 112) == 56001);
    assert(weighted(SECOND_CODE_LENGTHS_4@, 120) == 64165);
    assert(weighted(SECOND_CODE_LENGTHS_4@, 128) == 74009);
    assert(weighted(SECOND_CODE_LENGTHS_4@, 136) == 84491);
    assert(weighted(SECOND_CODE_LENGTHS_4@, 144) == 96441);
    assert(weighted(SECOND_CODE_LENGTHS_4@, 152) == 108615);
    assert(weighted(SECOND_CODE_LENGTHS_4@, 160) == 121608);
    assert(weighted(SECOND_CODE_LENGTHS_4@, 168) == 135765);
    assert(weighted(SECOND_CODE_LENGTHS_4@, 176) == 150263);
    assert(weighted(SECOND_CODE_LENGTHS_4@, 184) == 165067);
    assert(weighted(SECOND_CODE_LENGTHS_4@, 192) == 180341);
    assert(weighted(SECOND_CODE_LENGTHS_4@, 200) == 197255);
    assert(weighted(SECOND_CODE_LENGTHS_4@, 208) == 215661);
    assert(weighted(SECOND_CODE_LENGTHS_4@, 216) == 233728);
    assert(weighted(SECOND_CODE_LENGTHS_4@, 224) == 252465);
    assert(weighted(SECOND_CODE_LENGTHS_4@, 232) == 272348);
    assert(weighted(SECOND_CODE_LENGTHS_4@, 240) == 292223);
    assert(weighted(SECOND_CODE_LENGTHS_4@, 248) == 312272);
    assert(weighted(SECOND_CODE_LENGTHS_4@, 256) == 331197);
    assert(weighted(SECOND_CODE_LENGTHS_4@, 264) == 342673);
    assert(weighted(SECOND_CODE_LENGTHS_4@, 272) == 359858);
    assert(weighted(SECOND_CODE_LENGTHS_4@, 280) == 382817);
    assert(weighted(SECOND_CODE_LENGTHS_4@, 288) == 407855);
    assert(weighted(SECOND_CODE_LENGTHS_4@, 296) == 435649);
    assert(weighted(SECOND_CODE_LENGTHS_4@, 304) == 462376);
    assert(weighted(SECOND_CODE_LENGTHS_4@, 312) == 492309);
    assert(weighted(SECOND_CODE_LENGTHS_4@, 320) == 526161);
    assert(weighted(SECOND_CODE_LENGTHS_4@, 321) == 527766);
}

#[verifier::spinoff_prover]
proof fn second_set_5_adds_up()
    ensures
        weighted(SECOND_CODE_LENGTHS_5@, 321) == 654934,
{
    reveal_with_fuel(weighted, 9);
    assert(weighted(SECOND_CODE_LENGTHS_5@, 8) == 397);
    assert(weighted(SECOND_CODE_LENGTHS_5@, 16) == 1402);
    assert(weighted(SECOND_CODE_LENGTHS_5@, 24) == 3463);
    assert(weighted(SECOND_CODE_LENGTHS_5@, 32) == 6404);
    assert(weighted(SECOND_CODE_LENGTHS_5@, 40) == 9020);
    assert(weighted(SECOND_CODE_LENGTHS_5@, 48) == 11510);
    assert(weighted(SECOND_CODE_LENGTHS_5@, 56) == 14769);
    assert(weighted(SECOND_CODE_LENGTHS_5@, 64) == 19077);
    assert(weighted(SECOND_CODE_LENGTHS_5@, 72) == 23457);
    assert(weighted(SECOND_CODE_LENGTHS_5@, 80) == 28503);
    assert(weighted(SECOND_CODE_LENGTHS_5@, 88) == 33831);
    assert(weighted(SECOND_CODE_LENGTHS_5@, 96) == 41591);
    assert(weighted(SECOND_CODE_LENGTHS_5@, 104) == 47207);
    assert(weighted(SECOND_CODE_LENGTHS_5@, 112) == 53382);
    assert(weighted(SECOND_CODE_LENGTHS_5@, 120) == 59784);
    assert(weighted(SECOND_CODE_LENGTHS_5@, 128) == 70772);
    assert(weighted(SECOND_CODE_LENGTHS_5@, 136) == 86157);
    assert(weighted(SECOND_CODE_LENGTHS_5@, 144) == 103017);
    assert(weighted(SECOND_CODE_LENGTHS_5@, 152) == 120555);
    assert(weighted(SECOND_CODE_LENGTHS_5@, 160) == 139015);
    assert(weighted(SECOND_CODE_LENGTHS_5@, 168) == 157599);
    assert(weighted(SECOND_CODE_LENGTHS_5@, 176) == 177456);
    assert(weighted(SECOND_CODE_LENGTHS_5@, 184) == 198932);
    assert(weighted(SECOND_CODE_LENGTHS_5@, 192) == 222510);
    assert(weighted(SECOND_CODE_LENGTHS_5@, 200) == 246280);
    assert(weighted(SECOND_CODE_LENGTHS_5@, 208) == 270631);
    assert(weighted(SECOND_CODE_LENGTHS_5@, 216) == 295504);
    assert(weighted(SECOND_CODE_LENGTHS_5@, 224) == 324168);
    assert(weighted(SECOND_CODE_LENGTHS_5@, 232) == 352278);
    assert(weighted(SECOND_CODE_LENGTHS_5@, 240) == 381841);
    assert(weighted(SECOND_CODE_LENGTHS_5@, 248) == 412652);
    assert(weighted(SECOND_CODE_LENGTHS_5@, 256) == 443199);
    assert(weighted(SECOND_CODE_LENGTHS_5@, 264) == 454418);
    assert(weighted(SECOND_CODE_LENGTHS_5@, 272) == 471614);
    assert(weighted(SECOND_CODE_LENGTHS_5@, 280) == 493191);
    assert(weighted(SECOND_CODE_LENGTHS_5@, 288) == 519088);
    assert(weighted(SECOND_CODE_LENGTHS_5@, 296) == 549217);
    assert(weighted(SECOND_CODE_LENGTHS_5@, 304) == 580468);
    assert(weighted(SECOND_CODE_LENGTHS_5@, 312) == 615335);
    assert(weighted(SECOND_CODE_LENGTHS_5@, 320) == 652687);
    assert(weighted(SECOND_CODE_LENGTHS_5@, 321) == 654934);
}

#[verifier::spinoff_prover]
proof fn offset_set_1_adds_up()
    ensures
        weighted(OFFSET_CODE_LENGTHS_1@, 11) == 249,
{
    reveal_with_fuel(weighted, 9);
    assert(weighted(OFFSET_CODE_LENGTHS_1@, 8) == 116);
    assert(weighted(OFFSET_CODE_LENGTHS_1@, 11) == 249);
}

#[verifier::spinoff_prover]
proof fn offset_set_2_adds_up()
    ensures
        weighted(OFFSET_CODE_LENGTHS_2@, 13) == 360,
{
    reveal_with_fuel(weighted, 9);
    assert(weighted(OFFSET_CODE_LENGTHS_2@, 8) == 123);
    assert(weighted(OFFSET_CODE_LENGTHS_2@, 13) == 360);
}

#[verifier::spinoff_prover]
proof fn offset_set_3_adds_up()
    ensures
        weighted(OFFSET_CODE_LENGTHS_3@, 14) == 448,
{
    reveal_with_fuel(weighted, 9);
    assert(weighted(OFFSET_CODE_LENGTHS_3@, 8) == 126);
    assert(weighted(OFFSET_CODE_LENGTHS_3@, 14) == 448);
}

#[verifier::spinoff_prover]
proof fn offset_set_4_adds_up()
    ensures
        weighted(OFFSET_CODE_LENGTHS_4@, 11) == 261,
{
    reveal_with_fuel(weighted, 9);
    assert(weighted(OFFSET_CODE_LENGTHS_4@, 8) == 119);
    assert(weighted(OFFSET_CODE_LENGTHS_4@, 11) == 261);
}

#[verifier::spinoff_prover]
proof fn offset_set_5_adds_up()
    ensures
        weighted(OFFSET_CODE_LENGTHS_5@, 11) == 256,
{
    reveal_with_fuel(weighted, 9);
    assert(weighted(OFFSET_CODE_LENGTHS_5@, 8) == 133);
    assert(weighted(OFFSET_CODE_LENGTHS_5@, 11) == 256);
}

#[verifier::spinoff_prover]
proof fn meta_codes_adds_up()
    ensures
        weighted(META_CODES@, 37) == 592572,
{
    reveal_with_fuel(weighted, 9);
    assert(weighted(META_CODES@, 8) == 3813);
    assert(weighted(META_CODES@, 16) == 6510);
    assert(weighted(META_CODES@, 24) == 283254);
    assert(weighted(META_CODES@, 32) == 591822);
    assert(weighted(META_CODES@, 37) == 592572);
}

#[verifier::spinoff_prover]
proof fn meta_lengths_adds_up()
    ensures
        weighted(META_CODE_LENGTHS@, 37) == 5678,
{
    reveal_with_fuel(weighted, 9);
    assert(weighted(META_CODE_LENGTHS@, 8) == 247);
    assert(weighted(META_CODE_LENGTHS@, 16) == 835);
    assert(weighted(META_CODE_LENGTHS@, 24) == 2649);
    assert(weighted(META_CODE_LENGTHS@, 32) == 5110);
    assert(weighted(META_CODE_LENGTHS@, 37) == 5678);
}

/// Which numbers each built-in set has, and how many.
pub proof fn built_in_sets_add_up()
    ensures
        first_lengths(1).len() == 321 && weighted(first_lengths(1), 321) == 486117,
        first_lengths(2).len() == 321 && weighted(first_lengths(2), 321) == 555346,
        first_lengths(3).len() == 321 && weighted(first_lengths(3), 321) == 468447,
        first_lengths(4).len() == 321 && weighted(first_lengths(4), 321) == 558426,
        first_lengths(5).len() == 321 && weighted(first_lengths(5), 321) == 477490,
        second_lengths(1).len() == 321 && weighted(second_lengths(1), 321) == 538793,
        second_lengths(2).len() == 321 && weighted(second_lengths(2), 321) == 513687,
        second_lengths(3).len() == 321 && weighted(second_lengths(3), 321) == 535884,
        second_lengths(4).len() == 321 && weighted(second_lengths(4), 321) == 527766,
        second_lengths(5).len() == 321 && weighted(second_lengths(5), 321) == 654934,
        offset_lengths(1).len() == 11 && weighted(offset_lengths(1), 11) == 249,
        offset_lengths(2).len() == 13 && weighted(offset_lengths(2), 13) == 360,
        offset_lengths(3).len() == 14 && weighted(offset_lengths(3), 14) == 448,
        offset_lengths(4).len() == 11 && weighted(offset_lengths(4), 11) == 261,
        offset_lengths(5).len() == 11 && weighted(offset_lengths(5), 11) == 256,
        weighted(Seq::new(37, |i: int| meta_code(i)), 37) == 592572,
        weighted(Seq::new(37, |i: int| meta_length(i)), 37) == 5678,
{
    built_in_lengths(1);
    built_in_lengths(2);
    built_in_lengths(3);
    built_in_lengths(4);
    built_in_lengths(5);
    meta_tables();
    assert(Seq::new(37, |i: int| meta_code(i)) =~= META_CODES@);
    assert(Seq::new(37, |i: int| meta_length(i)) =~= META_CODE_LENGTHS@);
    first_set_1_adds_up();
    first_set_2_adds_up();
    first_set_3_adds_up();
    first_set_4_adds_up();
    first_set_5_adds_up();
    second_set_1_adds_up();
    second_set_2_adds_up();
    second_set_3_adds_up();
    second_set_4_adds_up();
    second_set_5_adds_up();
    offset_set_1_adds_up();
    offset_set_2_adds_up();
    offset_set_3_adds_up();
    offset_set_4_adds_up();
    offset_set_5_adds_up();
    meta_codes_adds_up();
    meta_lengths_adds_up();
}

} // verus!

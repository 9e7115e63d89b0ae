use vstd::prelude::*;
use crate::stuffit15::{gap, gaps_are_listed, RANDOMIZATION_TABLE};

verus! {

// The gaps between flipped bytes.

/// The first `n` numbers added up, the first once, the second twice, and so on.
pub open spec fn weighted(s: Seq<u16>, n: int) -> int
    decreases n,
{
    if n <= 0 {
        0
    } else {
        weighted(s, n - 1) + n * s[n - 1]
    }
}

#[verifier::spinoff_prover]
proof fn gap_table_adds_up()
    ensures
        weighted(RANDOMIZATION_TABLE@, 256) == 4149666,
{
    reveal_with_fuel(weighted, 9);
    assert(weighted(RANDOMIZATION_TABLE@, 8) == 5243);
    assert(weighted(RANDOMIZATION_TABLE@, 16) == 20206);
    assert(weighted(RANDOMIZATION_TABLE@, 24) == 42265);
    assert(weighted(RANDOMIZATION_TABLE@, 32) == 73001);
    assert(weighted(RANDOMIZATION_TABLE@, 40) == 102611);
    assert(weighted(RANDOMIZATION_TABLE@, 48) == 149154);
    assert(weighted(RANDOMIZATION_TABLE@, 56) == 184038);
    assert(weighted(RANDOMIZATION_TABLE@, 64) == 239537);
    assert(weighted(RANDOMIZATION_TABLE@, 72) == 334158);
    assert(weighted(RANDOMIZATION_TABLE@, 80) == 445454);
    assert(weighted(RANDOMIZATION_TABLE@, 88) == 507522);
    assert(weighted(RANDOMIZATION_TABLE@, 96) == 618404);
    assert(weighted(RANDOMIZATION_TABLE@, 104) == 690816);
    assert(weighted(RANDOMIZATION_TABLE@, 112) == 802972);
    assert(weighted(RANDOMIZATION_TABLE@, 120) == 906612);
    assert(weighted(RANDOMIZATION_TABLE@, 128) == 1082020);
    assert(weighted(RANDOMIZATION_TABLE@, 136) == 1167539);
    assert(weighted(RANDOMIZATION_TABLE@, 144) == 1293645);
    assert(weighted(RANDOMIZATION_TABLE@, 152) == 1434402);
    assert(weighted(RANDOMIZATION_TABLE@, 160) == 1607059);
    assert(weighted(RANDOMIZATION_TABLE@, 168) == 1762715);
    assert(weighted(RANDOMIZATION_TABLE@, 176) == 1964686);
    assert(weighted(RANDOMIZATION_TABLE@, 184) == 2154907);
    assert(weighted(RANDOMIZATION_TABLE@, 192) == 2391104);
    assert(weighted(RANDOMIZATION_TABLE@, 200) == 2548780);
    assert(weighted(RANDOMIZATION_TABLE@, 208) == 2735856);
    assert(weighted(RANDOMIZATION_TABLE@, 216) == 2911541);
    assert(weighted(RANDOMIZATION_TABLE@, 224) == 3113102);
    assert(weighted(RANDOMIZATION_TABLE@, 232) == 3339329);
    assert(weighted(RANDOMIZATION_TABLE@, 240) == 3641804);
    assert(weighted(RANDOMIZATION_TABLE@, 248) == 3844957);
    assert(weighted(RANDOMIZATION_TABLE@, 256) == 4149666);
}

/// The 256 gaps, weighed by their places, add up.
pub proof fn gaps_add_up()
    ensures
        weighted(Seq::new(256, |i: int| gap(i) as u16), 256) == 4149666,
{
    gaps_are_listed();
    gap_table_adds_up();
    assert(Seq::new(256, |i: int| gap(i) as u16) =~= RANDOMIZATION_TABLE@);
}

} // verus!

use vstd::prelude::*;
use vstd::arithmetic::power2::{lemma2_to64, lemma_pow2_pos, lemma_pow2_strictly_increases, lemma_pow2_unfold, pow2};
use crate::sitx::range_encoding::Item;

verus! {

// What the writers of several formats have in common.

/// What is to be sent, and the weights after it.
pub struct Plan {
    pub items: Seq<Item>,
    pub w: Seq<u32>,
}

/// One plan behind another.
pub open spec fn then_send(a: Plan, b: Plan) -> Plan {
    Plan { items: a.items + b.items, w: b.w }
}

pub open spec fn send_nothing(w: Seq<u32>) -> Plan {
    Plan { items: seq![], w }
}

// === binary digits ============================================================

/// Bit `k` of `v`.
pub open spec fn digit(v: int, k: nat) -> int {
    (v / (pow2(k) as int)) % 2
}

/// The low bits of a number without and with its next bit.
pub proof fn low_bits(v: int, num: nat)
    requires
        num > 0,
    ensures
        v % (pow2(num) as int) == digit(v, (num - 1) as nat) * pow2((num - 1) as nat) + v % (pow2((num - 1) as nat) as int),
        0 <= digit(v, (num - 1) as nat) <= 1,
{
    let p = pow2((num - 1) as nat) as int;
    lemma_pow2_unfold(num);
    lemma_pow2_pos((num - 1) as nat);
    let q = v / p;
    let r = v % p;
    vstd::arithmetic::div_mod::lemma_fundamental_div_mod(v, p);
    vstd::arithmetic::div_mod::lemma_fundamental_div_mod(q, 2);
    let h = q / 2;
    let bit = q % 2;
    assert(v == (2 * p) * h + (bit * p + r)) by (nonlinear_arith)
        requires v == p * q + r, q == 2 * h + bit;
    assert(0 <= bit * p + r < 2 * p) by (nonlinear_arith)
        requires 0 <= bit <= 1, 0 <= r < p;
    vstd::arithmetic::div_mod::lemma_fundamental_div_mod_converse(v, 2 * p, h, bit * p + r);
}

/// The place of the highest 1 in `v`.
pub open spec fn height(v: int) -> int
    decreases v,
{
    if v <= 1 {
        0
    } else {
        1 + height(v / 2)
    }
}

/// It is the place of the highest 1.
pub proof fn height_is_tight(v: int)
    requires
        v >= 1,
    ensures
        height(v) >= 0,
        pow2(height(v) as nat) <= v < 2 * pow2(height(v) as nat),
        v >= 2 ==> height(v) >= 1,
    decreases v,
{
    lemma2_to64();
    if v > 1 {
        height_is_tight(v / 2);
        lemma_pow2_unfold(height(v) as nat);
    }
}

/// A number of `n` digits has its highest 1 among them.
pub proof fn height_is_below(v: int, n: nat)
    requires
        1 <= v < pow2(n),
    ensures
        height(v) < n,
{
    height_is_tight(v);
    let k = height(v) as nat;
    if k > n {
        lemma_pow2_strictly_increases(n, k);
    }
}

/// A number is its highest 1 and the bits behind it.
pub proof fn behind_the_highest(v: int, n: nat)
    requires
        pow2(n) <= v < 2 * pow2(n),
    ensures
        1 * pow2(n) + v % (pow2(n) as int) == v,
{
    let p = pow2(n) as int;
    vstd::arithmetic::div_mod::lemma_fundamental_div_mod_converse(v, p, 1, v - p);
}

} // verus!

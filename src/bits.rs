//! Bit decompositions: what `to_bits` produces and `from_bits` folds back.
use crate::arithmetic_chip::AssignedValue;
use crate::field::p;
use vstd::arithmetic::div_mod::{lemma_mod_breakdown, lemma_small_mod};
use vstd::arithmetic::power2::{lemma2_to64, lemma2_to64_rest, lemma_pow2_pos, lemma_pow2_unfold, pow2};
use vstd::prelude::*;

verus! {

/// Bit `i` of `x`.
pub open spec fn bit_of(x: nat, i: nat) -> nat {
    (x / pow2(i)) % 2
}

/// The low `n` bits of `x`, least significant first.
pub open spec fn bits_le(x: nat, n: nat) -> Seq<nat> {
    Seq::new(n, |i: int| bit_of(x, i as nat))
}

/// `sum of s[i] * 2^i`.
pub open spec fn bits_sum(s: Seq<nat>) -> nat
    decreases s.len(),
{
    if s.len() == 0 {
        0
    } else {
        bits_sum(s.drop_last()) + s.last() * pow2((s.len() - 1) as nat)
    }
}

/// The values held by a sequence of cells.
pub open spec fn values(ws: Seq<AssignedValue>) -> Seq<nat> {
    Seq::new(ws.len(), |i: int| ws[i]@)
}

/// The low `n` bits of `x` add up to `x mod 2^n`.
pub proof fn lemma_bits_sum_low(x: nat, n: nat)
    ensures
        bits_sum(bits_le(x, n)) == x % pow2(n),
    decreases n,
{
    if n == 0 {
        assert(pow2(0) == 1) by {
            lemma2_to64();
        }
        assert(x % 1 == 0) by (nonlinear_arith);
    } else {
        let k = (n - 1) as nat;
        lemma_bits_sum_low(x, k);
        assert(bits_le(x, n).drop_last() =~= bits_le(x, k));
        lemma_pow2_unfold(n);
        lemma_pow2_pos(k);
        lemma_mod_breakdown(x as int, pow2(k) as int, 2);
        assert(pow2(k) * 2 == pow2(n));
        let s = bits_le(x, n);
        assert(s.last() == bit_of(x, k));
        assert(s.last() * pow2(k) == pow2(k) * bit_of(x, k)) by (nonlinear_arith)
            requires
                s.last() == bit_of(x, k),
        ;
    }
}

/// Decomposing a canonical value into 64 bits and folding them back gives
/// the value again.
pub proof fn lemma_bits_round_trip(v: nat)
    requires
        v < p(),
    ensures
        bits_le(v, 64).len() == 64,
        bits_sum(bits_le(v, 64)) % p() == v,
{
    lemma_bits_sum_low(v, 64);
    lemma2_to64();
    lemma2_to64_rest();
    lemma_small_mod(v, pow2(64));
    lemma_small_mod(v, p());
}

} // verus!

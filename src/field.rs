//! Plain (out-of-circuit) Goldilocks field values and the host-side field
//! operations that witness generation needs.
use vstd::arithmetic::div_mod::{
    lemma_mod_multiples_vanish, lemma_mod_twice, lemma_mul_mod_noop, lemma_mul_mod_noop_left,
    lemma_mul_mod_noop_right, lemma_small_mod,
};
use vstd::arithmetic::mul::lemma_mul_is_commutative;
use vstd::arithmetic::power::{lemma_pow0, lemma_pow1, lemma_pow_adds, lemma_pow_multiplies, pow};
use vstd::prelude::*;

verus! {

/// The Goldilocks prime `2^64 - 2^32 + 1`.
pub const GOLDILOCKS_MODULUS: u64 = 0xffff_ffff_0000_0001;

/// The Goldilocks modulus as a mathematical integer.
pub open spec fn p() -> nat {
    GOLDILOCKS_MODULUS as nat
}

/// `a + b` in the Goldilocks field.
pub open spec fn gl_add(a: nat, b: nat) -> nat {
    (a + b) % p()
}

/// `a - b` in the Goldilocks field.
pub open spec fn gl_sub(a: nat, b: nat) -> nat {
    ((a - b) % (p() as int)) as nat
}

/// `a * b` in the Goldilocks field.
pub open spec fn gl_mul(a: nat, b: nat) -> nat {
    (a * b) % p()
}

/// `a ^ e` in the Goldilocks field.
pub open spec fn gl_pow(a: nat, e: nat) -> nat {
    (pow(a as int, e) % (p() as int)) as nat
}

/// A Goldilocks field element. The stored word need not be reduced; the
/// element it denotes is the word modulo `p`.
#[derive(Clone, Copy, Debug)]
pub struct GoldilocksField(pub u64);

impl View for GoldilocksField {
    type V = nat;

    open spec fn view(&self) -> nat {
        (self.0 as nat) % p()
    }
}

impl GoldilocksField {
    pub fn zero() -> (r: GoldilocksField)
        ensures
            r@ == 0,
    {
        proof {
            lemma_small_mod(0, p());
        }
        GoldilocksField(0)
    }

    pub fn one() -> (r: GoldilocksField)
        ensures
            r@ == 1,
    {
        proof {
            lemma_small_mod(1, p());
        }
        GoldilocksField(1)
    }

    /// The element `p - 1`, that is `-1`.
    pub fn neg_one() -> (r: GoldilocksField)
        ensures
            r@ == p() - 1,
    {
        proof {
            lemma_small_mod((GOLDILOCKS_MODULUS - 1) as nat, p());
        }
        GoldilocksField(GOLDILOCKS_MODULUS - 1)
    }

    pub fn from_canonical_u64(v: u64) -> (r: GoldilocksField)
        requires
            v < GOLDILOCKS_MODULUS,
        ensures
            r@ == v,
    {
        proof {
            lemma_small_mod(v as nat, p());
        }
        GoldilocksField(v)
    }

    pub fn from_noncanonical_u64(v: u64) -> (r: GoldilocksField)
        ensures
            r@ == (v as nat) % p(),
    {
        GoldilocksField(v)
    }

    /// The reduced representative in `[0, p)`.
    pub fn to_canonical_u64(&self) -> (r: u64)
        ensures
            r == self@,
            r < GOLDILOCKS_MODULUS,
    {
        if self.0 >= GOLDILOCKS_MODULUS {
            proof {
                let x = self.0 as int;
                let m = p() as int;
                lemma_mod_multiples_vanish(1, x - m, m);
                lemma_small_mod((x - m) as nat, p());
            }
            self.0 - GOLDILOCKS_MODULUS
        } else {
            proof {
                lemma_small_mod(self.0 as nat, p());
            }
            self.0
        }
    }
}

/// `a * b mod p` on reduced operands.
pub fn mul_mod(a: u64, b: u64) -> (r: u64)
    requires
        a < GOLDILOCKS_MODULUS,
        b < GOLDILOCKS_MODULUS,
    ensures
        r < GOLDILOCKS_MODULUS,
        r == gl_mul(a as nat, b as nat),
{
    assert((a as int) * (b as int) <= u128::MAX) by (nonlinear_arith)
        requires
            a < GOLDILOCKS_MODULUS,
            b < GOLDILOCKS_MODULUS,
    ;
    (((a as u128) * (b as u128)) % (GOLDILOCKS_MODULUS as u128)) as u64
}

/// `base ^ power` in the field, by square-and-multiply.
pub fn exp_u64(base: u64, power: u64) -> (r: u64)
    requires
        base < GOLDILOCKS_MODULUS,
    ensures
        r < GOLDILOCKS_MODULUS,
        r == gl_pow(base as nat, power as nat),
{
    let mut acc: u64 = 1;
    let mut sq: u64 = base;
    let mut e: u64 = power;
    proof {
        lemma_pow1(base as int);
        lemma_small_mod(1, p());
        lemma_small_mod(base as nat, p());
    }
    while e > 0
        invariant
            acc < GOLDILOCKS_MODULUS,
            sq < GOLDILOCKS_MODULUS,
            (acc * pow(sq as int, e as nat)) % (p() as int) == gl_pow(base as nat, power as nat),
        decreases e,
    {
        let ghost e0 = e as nat;
        let ghost half = (e / 2) as nat;
        proof {
            assert(e0 == 2 * half + e0 % 2);
            lemma_pow_adds(sq as int, half, half);
            lemma_pow_multiplies(sq as int, 2, half);
            lemma_pow2_sq(sq as int);
            if e0 % 2 == 1 {
                lemma_pow_adds(sq as int, 2 * half, 1);
                lemma_pow1(sq as int);
            }
        }
        let next_sq = mul_mod(sq, sq);
        let next_acc = if e % 2 == 1 { mul_mod(acc, sq) } else { acc };
        proof {
            let m = p() as int;
            let s = sq as int;
            let ph = pow(s * s, half);
            // pow(sq*sq, half) and pow(next_sq, half) agree modulo p
            lemma_pow_mod_noop(s * s, half, m);
            lemma_pow_mod_noop(next_sq as int, half, m);
            lemma_small_mod(next_sq as nat, p());
            assert(next_sq as int == (s * s) % m);
            lemma_mod_twice(s * s, m);
            if e0 % 2 == 1 {
                assert(pow(s, e0) == s * ph) by {
                    lemma_pow_multiplies(s, 2, half);
                    assert(pow(s, 2 * half + 1) == pow(s, 2 * half) * pow(s, 1));
                    lemma_mul_is_commutative(pow(s, 2 * half), s);
                }
                assert((acc as int) * pow(s, e0) == ((acc as int) * s) * ph) by (nonlinear_arith)
                    requires pow(s, e0) == s * ph;
                lemma_mul_mod_noop_left((acc as int) * s, ph, m);
                lemma_mul_mod_noop_right(next_acc as int, ph, m);
                lemma_mul_mod_noop_right(next_acc as int, pow(next_sq as int, half), m);
            } else {
                assert(pow(s, e0) == ph) by {
                    lemma_pow_multiplies(s, 2, half);
                    assert(e0 == 2 * half);
                }
                lemma_mul_mod_noop_right(acc as int, ph, m);
                lemma_mul_mod_noop_right(acc as int, pow(next_sq as int, half), m);
            }
        }
        acc = next_acc;
        sq = next_sq;
        e = e / 2;
    }
    proof {
        lemma_pow0(sq as int);
        lemma_small_mod(acc as nat, p());
    }
    acc
}

/// `b ^ 2 == b * b`.
proof fn lemma_pow2_sq(b: int)
    ensures
        pow(b, 2) == b * b,
{
    reveal(pow);
    assert(pow(b, 2) == b * pow(b, 1));
    assert(pow(b, 1) == b * pow(b, 0));
}

/// Raising to a power commutes with reduction modulo `m`.
proof fn lemma_pow_mod_noop(b: int, e: nat, m: int)
    requires
        m > 0,
    ensures
        pow(b % m, e) % m == pow(b, e) % m,
    decreases e,
{
    reveal(pow);
    if e > 0 {
        lemma_pow_mod_noop(b, (e - 1) as nat, m);
        lemma_mul_mod_noop(b % m, pow(b % m, (e - 1) as nat), m);
        lemma_mul_mod_noop(b, pow(b, (e - 1) as nat), m);
        lemma_mod_twice(b, m);
    }
}

} // verus!

//! The Goldilocks gadget layer: field operations on cells, each laid out as a
//! fixed sequence of applications of the range-checked primitive.
use crate::arithmetic_chip::{
    region_step, ArithmeticChip, ArithmeticChipConfig, AssignedCondition, AssignedValue, Error,
    RegionCtx, Term,
};
use crate::bits::{bit_of, bits_le, bits_sum, lemma_bits_sum_low, values};
use crate::field::{
    exp_u64, gl_add, gl_mul, gl_pow, gl_sub, p, GoldilocksField, GOLDILOCKS_MODULUS,
};
use vstd::arithmetic::div_mod::{
    lemma_add_mod_noop, lemma_add_mod_noop_right, lemma_mod_bound, lemma_mod_decreases,
    lemma_mod_multiples_vanish, lemma_mul_mod_noop, lemma_small_mod,
};
use vstd::arithmetic::power::{lemma1_pow, lemma_pow0, lemma_pow1, lemma_pow_adds, pow};
use vstd::arithmetic::power2::{
    lemma2_to64, lemma2_to64_rest, lemma_pow2_pos, lemma_pow2_strictly_increases, lemma_pow2_unfold,
    pow2,
};
use vstd::bits::{lemma_u64_pow2_no_overflow, lemma_u64_shl_is_mul, lemma_u64_shr_is_div};
use vstd::prelude::*;

verus! {

/// The configuration of the gadget layer: the primitive's layout, cloned
/// into every chip of a circuit.
#[derive(Clone, Copy, Debug)]
pub struct GoldilocksChipConfig {
    pub arithmetic_config: ArithmeticChipConfig,
}

/// Goldilocks field gadgets over one configuration; it holds no other state.
pub struct GoldilocksChip {
    pub goldilocks_chip_config: GoldilocksChipConfig,
}

/// `(l - r) mod p` is what `r * (p - 1) + l` reduces to.
proof fn lemma_sub_as_neg_mul(l: nat, r: nat)
    ensures
        (r * (p() - 1) + l) % (p() as int) == gl_sub(l, r),
{
    let m = p() as int;
    assert(r * (m - 1) + l == m * r + (l - r)) by (nonlinear_arith);
    lemma_mod_multiples_vanish(r as int, l - r, m);
}

impl GoldilocksChip {
    pub fn configure(arithmetic_chip_config: &ArithmeticChipConfig) -> (r: GoldilocksChipConfig)
        ensures
            r.arithmetic_config == *arithmetic_chip_config,
    {
        GoldilocksChipConfig { arithmetic_config: *arithmetic_chip_config }
    }

    pub fn new(goldilocks_chip_config: &GoldilocksChipConfig) -> (r: GoldilocksChip)
        ensures
            r.goldilocks_chip_config == *goldilocks_chip_config,
    {
        GoldilocksChip { goldilocks_chip_config: *goldilocks_chip_config }
    }

    pub fn arithmetic_chip(&self) -> (r: ArithmeticChip)
        ensures
            r.config == self.goldilocks_chip_config.arithmetic_config,
    {
        ArithmeticChip::new(&self.goldilocks_chip_config.arithmetic_config)
    }

    pub fn goldilocks_modulus(&self) -> (r: u64)
        ensures
            r == p(),
    {
        GOLDILOCKS_MODULUS
    }

    /// The cell value that stands for a field element.
    pub fn goldilocks_to_native_fe(&self, goldilocks: GoldilocksField) -> (r: u64)
        ensures
            r == goldilocks@,
    {
        goldilocks.to_canonical_u64()
    }

    /// The field element a cell value stands for. Only meaningful where the
    /// value is already below `p`; a larger value is read modulo `p`.
    pub fn native_fe_to_goldilocks(&self, fe: u64) -> (r: GoldilocksField)
        ensures
            r@ == (fe as nat) % p(),
    {
        GoldilocksField::from_noncanonical_u64(fe)
    }

    /// A fresh range-checked cell holding the witness `unassigned`.
    pub fn assign_value(&self, ctx: &mut RegionCtx, unassigned: u64) -> (r: Result<
        AssignedValue,
        Error,
    >)
        ensures
            region_step(*old(ctx), *final(ctx), 1, r is Ok),
            r matches Ok(w) ==> w@ == unassigned && final(ctx).holds() == (old(ctx).holds()
                && unassigned < p()),
    {
        self.arithmetic_chip().assign_value(ctx, unassigned)
    }

    /// A fixed cell holding the constant.
    pub fn assign_constant(&self, ctx: &mut RegionCtx, constant: GoldilocksField) -> (r: Result<
        AssignedValue,
        Error,
    >)
        ensures
            region_step(*old(ctx), *final(ctx), 1, r is Ok),
            r matches Ok(w) ==> w@ == constant@ && w@ < p() && final(ctx).holds() == old(
                ctx,
            ).holds(),
    {
        let v = self.goldilocks_to_native_fe(constant);
        self.arithmetic_chip().assign_fixed(ctx, v)
    }

    /// `lhs + rhs`.
    pub fn add(&self, ctx: &mut RegionCtx, lhs: &AssignedValue, rhs: &AssignedValue) -> (r: Result<
        AssignedValue,
        Error,
    >)
        ensures
            region_step(*old(ctx), *final(ctx), 1, r is Ok),
            r matches Ok(w) ==> w@ == gl_add(lhs@, rhs@) && final(ctx).holds() == (
            old(ctx).holds() && lhs@ < p() && rhs@ < p()),
    {
        let assigned = self.arithmetic_chip().apply(
            ctx,
            Term::Assigned(*lhs),
            Term::Fixed(1),
            Term::Assigned(*rhs),
        )?;
        Ok(assigned.r)
    }

    /// `lhs - rhs`, as `rhs * (p - 1) + lhs`.
    pub fn sub(&self, ctx: &mut RegionCtx, lhs: &AssignedValue, rhs: &AssignedValue) -> (r: Result<
        AssignedValue,
        Error,
    >)
        ensures
            region_step(*old(ctx), *final(ctx), 1, r is Ok),
            r matches Ok(w) ==> w@ == gl_sub(lhs@, rhs@) && final(ctx).holds() == (
            old(ctx).holds() && lhs@ < p() && rhs@ < p()),
    {
        let neg_one = self.goldilocks_to_native_fe(GoldilocksField::neg_one());
        let assigned = self.arithmetic_chip().apply(
            ctx,
            Term::Assigned(*rhs),
            Term::Fixed(neg_one),
            Term::Assigned(*lhs),
        )?;
        proof {
            lemma_sub_as_neg_mul(lhs@, rhs@);
        }
        Ok(assigned.r)
    }

    /// `lhs * rhs`.
    pub fn mul(&self, ctx: &mut RegionCtx, lhs: &AssignedValue, rhs: &AssignedValue) -> (r: Result<
        AssignedValue,
        Error,
    >)
        ensures
            region_step(*old(ctx), *final(ctx), 1, r is Ok),
            r matches Ok(w) ==> w@ == gl_mul(lhs@, rhs@) && final(ctx).holds() == (
            old(ctx).holds() && lhs@ < p() && rhs@ < p()),
    {
        self.mul_add_constant(ctx, lhs, rhs, GoldilocksField::zero())
    }

    /// `lhs * rhs * constant`, in two rows: the product, then the product
    /// times the constant plus the zero cell of the first row.
    pub fn mul_with_constant(
        &self,
        ctx: &mut RegionCtx,
        lhs: &AssignedValue,
        rhs: &AssignedValue,
        constant: GoldilocksField,
    ) -> (r: Result<AssignedValue, Error>)
        ensures
            region_step(*old(ctx), *final(ctx), 2, r is Ok),
            r matches Ok(w) ==> w@ == gl_mul(gl_mul(lhs@, rhs@), constant@)
                && final(ctx).holds() == (old(ctx).holds() && lhs@ < p() && rhs@ < p()),
    {
        let mul_assigned = self.arithmetic_chip().apply(
            ctx,
            Term::Assigned(*lhs),
            Term::Assigned(*rhs),
            Term::Fixed(0),
        )?;
        let zero_assigned = mul_assigned.c;
        let k = self.goldilocks_to_native_fe(constant);
        let assigned = self.arithmetic_chip().apply(
            ctx,
            Term::Assigned(mul_assigned.r),
            Term::Fixed(k),
            Term::Assigned(zero_assigned),
        )?;
        Ok(assigned.r)
    }

    /// `a * b + to_add`.
    pub fn mul_add_constant(
        &self,
        ctx: &mut RegionCtx,
        a: &AssignedValue,
        b: &AssignedValue,
        to_add: GoldilocksField,
    ) -> (r: Result<AssignedValue, Error>)
        ensures
            region_step(*old(ctx), *final(ctx), 1, r is Ok),
            r matches Ok(w) ==> w@ == gl_add(a@ * b@, to_add@) && final(ctx).holds() == (
            old(ctx).holds() && a@ < p() && b@ < p()),
    {
        let k = self.goldilocks_to_native_fe(to_add);
        let assigned = self.arithmetic_chip().apply(
            ctx,
            Term::Assigned(*a),
            Term::Assigned(*b),
            Term::Fixed(k),
        )?;
        Ok(assigned.r)
    }

    /// `a * constant + b`.
    fn mul_const_add(
        &self,
        ctx: &mut RegionCtx,
        a: &AssignedValue,
        constant: GoldilocksField,
        b: &AssignedValue,
    ) -> (r: Result<AssignedValue, Error>)
        ensures
            region_step(*old(ctx), *final(ctx), 1, r is Ok),
            r matches Ok(w) ==> w@ == gl_add(a@ * constant@, b@) && final(ctx).holds() == (
            old(ctx).holds() && a@ < p() && b@ < p()),
    {
        let k = self.goldilocks_to_native_fe(constant);
        let assigned = self.arithmetic_chip().apply(
            ctx,
            Term::Assigned(*a),
            Term::Fixed(k),
            Term::Assigned(*b),
        )?;
        Ok(assigned.r)
    }

    /// `a + constant`.
    pub fn add_constant(&self, ctx: &mut RegionCtx, a: &AssignedValue, constant: GoldilocksField) -> (r:
        Result<AssignedValue, Error>)
        ensures
            region_step(*old(ctx), *final(ctx), 2, r is Ok),
            r matches Ok(w) ==> w@ == gl_add(a@, constant@) && final(ctx).holds() == (
            old(ctx).holds() && a@ < p()),
    {
        let one = self.assign_constant(ctx, GoldilocksField::one())?;
        self.mul_add_constant(ctx, a, &one, constant)
    }

    /// Constrains `lhs == rhs`.
    pub fn assert_equal(&self, ctx: &mut RegionCtx, lhs: &AssignedValue, rhs: &AssignedValue) -> (r:
        Result<(), Error>)
        ensures
            r is Ok,
            region_step(*old(ctx), *final(ctx), 0, true),
            final(ctx).holds() == (old(ctx).holds() && lhs@ == rhs@),
    {
        self.arithmetic_chip().assert_equal(ctx, lhs, rhs)
    }

    /// Constrains `a == 1`.
    pub fn assert_one(&self, ctx: &mut RegionCtx, a: &AssignedValue) -> (r: Result<(), Error>)
        ensures
            region_step(*old(ctx), *final(ctx), 1, r is Ok),
            r is Ok ==> final(ctx).holds() == (old(ctx).holds() && a@ == 1),
    {
        let one = self.assign_constant(ctx, GoldilocksField::one())?;
        self.assert_equal(ctx, a, &one)
    }

    /// Constrains `a == 0`.
    pub fn assert_zero(&self, ctx: &mut RegionCtx, a: &AssignedValue) -> (r: Result<(), Error>)
        ensures
            region_step(*old(ctx), *final(ctx), 1, r is Ok),
            r is Ok ==> final(ctx).holds() == (old(ctx).holds() && a@ == 0),
    {
        let zero = self.assign_constant(ctx, GoldilocksField::zero())?;
        self.assert_equal(ctx, a, &zero)
    }

    /// `(a - b) * cond + b`: `a` where `cond` is 1 and `b` where it is 0. The
    /// condition is not checked to be a bit here.
    pub fn select(
        &self,
        ctx: &mut RegionCtx,
        a: &AssignedValue,
        b: &AssignedValue,
        cond: &AssignedCondition,
    ) -> (r: Result<AssignedValue, Error>)
        ensures
            region_step(*old(ctx), *final(ctx), 3, r is Ok),
            r matches Ok(w) ==> {
                &&& w@ == gl_add(gl_mul(gl_sub(a@, b@), cond@), b@)
                &&& final(ctx).holds() == (old(ctx).holds() && a@ < p() && b@ < p() && cond@ < p())
                &&& (cond@ <= 1 && a@ < p() && b@ < p()) ==> w@ == (if cond@ == 1 { a@ } else { b@ })
            },
    {
        let a_minus_b = self.sub(ctx, a, b)?;
        let a_minus_b_cond = self.mul(ctx, &a_minus_b, cond)?;
        let r = self.add(ctx, &a_minus_b_cond, b);
        proof {
            if r is Ok && cond@ <= 1 && a@ < p() && b@ < p() {
                lemma_select_bit(a@, b@, cond@);
            }
        }
        r
    }

    /// Loads the primitive's range-check table; called once per circuit,
    /// after the gadgets that rely on it.
    pub fn load_table(&self, ctx: &mut RegionCtx) -> (r: Result<(), Error>)
        ensures
            r is Ok,
            final(ctx).rows_used() == old(ctx).rows_used(),
            final(ctx).row_capacity() == old(ctx).row_capacity(),
            final(ctx).table_loaded(),
            final(ctx).holds() == (old(ctx).holds() && !old(ctx).table_loaded()),
    {
        self.arithmetic_chip().load_table(ctx)
    }

    /// `1` where `a` is zero and `0` elsewhere: the witness `a^-1` (or `0`) is
    /// supplied, `out = 1 - a * a^-1` is computed, and `out * a == 0` is
    /// enforced. Takes four rows.
    pub fn is_zero(&self, ctx: &mut RegionCtx, a: &AssignedValue) -> (r: Result<
        AssignedCondition,
        Error,
    >)
        ensures
            region_step(*old(ctx), *final(ctx), 4, r is Ok),
            r matches Ok(w) ==> {
                &&& w@ == zero_flag(a@)
                &&& final(ctx).holds() == (old(ctx).holds() && zero_check_holds(a@))
                &&& a@ % p() == 0 ==> w@ == 1 && final(ctx).holds() == (old(ctx).holds() && a@
                    < p())
                &&& gl_mul(a@, inverse_witness(a@)) == 1 ==> w@ == 0 && final(ctx).holds() == (
                old(ctx).holds() && a@ < p())
            },
    {
        let a_val = self.native_fe_to_goldilocks(a.value()).to_canonical_u64();
        let a_inv = if a_val == 0 {
            0
        } else {
            exp_u64(a_val, GOLDILOCKS_MODULUS - 2)
        };
        let assigned = self.arithmetic_chip().apply(
            ctx,
            Term::Assigned(*a),
            Term::Unassigned(a_inv),
            Term::Fixed(0),
        )?;
        let a_a_inv = assigned.r;
        let zero = assigned.c;
        let one = self.assign_constant(ctx, GoldilocksField::one())?;
        let out = self.sub(ctx, &one, &a_a_inv)?;
        let out_a = self.mul(ctx, &out, a)?;
        self.assert_equal(ctx, &out_a, &zero)?;
        proof {
            assert(a_inv == inverse_witness(a@));
            if gl_mul(a@, inverse_witness(a@)) == 1 {
                lemma_small_mod(0, p());
                assert(a_a_inv@ == 1);
                assert(out@ * a@ == 0) by (nonlinear_arith)
                    requires
                        out@ == 0,
                ;
            }
            if a@ % p() == 0 {
                lemma_mul_by_zero_class(a@, a_inv as nat);
                lemma_small_mod(1, p());
                lemma_mul_by_zero_class(a@, out@);
                assert(out@ * a@ == a@ * out@) by (nonlinear_arith);
            }
        }
        Ok(out)
    }

    /// `1` where `a == b` and `0` elsewhere, as `is_zero(a - b)`.
    pub fn is_equal(&self, ctx: &mut RegionCtx, a: &AssignedValue, b: &AssignedValue) -> (r:
        Result<AssignedCondition, Error>)
        ensures
            region_step(*old(ctx), *final(ctx), 5, r is Ok),
            r matches Ok(w) ==> {
                let d = gl_sub(a@, b@);
                &&& w@ == gl_sub(1, gl_mul(d, inverse_witness(d)))
                &&& final(ctx).holds() == (old(ctx).holds() && a@ < p() && b@ < p() && gl_mul(
                    w@,
                    d,
                ) == 0)
                &&& a@ == b@ ==> w@ == 1
            },
    {
        let a_minus_b = self.sub(ctx, a, b)?;
        proof {
            lemma_small_mod(0, p());
            assert(a@ == b@ ==> a_minus_b@ == 0);
            assert(a_minus_b@ < p());
            lemma_small_mod(a_minus_b@, p());
        }
        self.is_zero(ctx, &a_minus_b)
    }

    /// A fresh cell holding the witness `bit`, constrained to `bit * (bit - 1) == 0`
    /// through the two given constant cells. Takes two rows.
    pub fn assign_bit(
        &self,
        ctx: &mut RegionCtx,
        zero: &AssignedValue,
        one: &AssignedValue,
        bit: u64,
    ) -> (r: Result<AssignedCondition, Error>)
        requires
            zero@ == 0,
            one@ == 1,
        ensures
            region_step(*old(ctx), *final(ctx), 2, r is Ok),
            r matches Ok(w) ==> {
                &&& w@ == bit
                &&& final(ctx).holds() == (old(ctx).holds() && bit < p() && gl_mul(
                    bit as nat,
                    gl_sub(bit as nat, 1),
                ) == 0)
                &&& bit <= 1 ==> final(ctx).holds() == old(ctx).holds()
                &&& (bit >= p() || (2 <= bit < 0x1_0000_0000)) ==> !final(ctx).holds()
            },
    {
        let neg_one = self.goldilocks_to_native_fe(GoldilocksField::neg_one());
        let assigned = self.arithmetic_chip().apply(
            ctx,
            Term::Unassigned(bit),
            Term::Assigned(*one),
            Term::Fixed(neg_one),
        )?;
        let b = assigned.a;
        let b_minus_one = assigned.r;
        proof {
            let m = p() as int;
            lemma_mod_multiples_vanish(1, bit - 1, m);
        }
        let should_zero = self.mul(ctx, &b, &b_minus_one)?;
        self.assert_equal(ctx, &should_zero, zero)?;
        proof {
            lemma_bit_product(bit as nat);
        }
        Ok(b)
    }
}

/// The witness `is_zero` supplies for `a`: its inverse `a^(p-2)`, or `0`.
/// The value `is_zero` returns for a cell holding `a`.
pub open spec fn zero_flag(a: nat) -> nat {
    gl_sub(1, gl_mul(a, inverse_witness(a)))
}

/// The constraints `is_zero` places on a cell holding `a` are met.
pub open spec fn zero_check_holds(a: nat) -> bool {
    a < p() && gl_mul(zero_flag(a), a) == 0
}

pub open spec fn inverse_witness(a: nat) -> nat {
    if a % p() == 0 {
        0
    } else {
        gl_pow(a % p(), (p() - 2) as nat)
    }
}

/// A product with a multiple of `p` is a multiple of `p`.
proof fn lemma_mul_by_zero_class(a: nat, b: nat)
    requires
        a % p() == 0,
    ensures
        gl_mul(a, b) == 0,
{
    let m = p() as int;
    lemma_mul_mod_noop(a as int, b as int, m);
    lemma_small_mod(0, p());
}

/// `bit * (bit - 1)` vanishes modulo `p` for `0` and `1`, and not for the
/// values from `2` below `2^32`.
proof fn lemma_bit_product(bit: nat)
    ensures
        bit <= 1 ==> gl_mul(bit, gl_sub(bit, 1)) == 0,
        2 <= bit < 0x1_0000_0000 ==> gl_mul(bit, gl_sub(bit, 1)) != 0,
{
    let m = p() as int;
    lemma_small_mod(0, p());
    if bit == 0 {
        lemma_small_mod((m - 1) as nat, p());
        lemma_mod_multiples_vanish(-1, m - 1, m);
    } else if 2 <= bit < 0x1_0000_0000 {
        lemma_small_mod((bit - 1) as nat, p());
        assert(bit * (bit - 1) < m && bit * (bit - 1) > 0) by (nonlinear_arith)
            requires
                2 <= bit < 0x1_0000_0000,
                m == 0xffff_ffff_0000_0001,
        ;
        lemma_small_mod((bit * (bit - 1)) as nat, p());
    }
}

/// Selection on a condition bit picks `a` when the bit is 1 and `b` when it
/// is 0, for any two canonical values.
pub proof fn lemma_select_bit(a: nat, b: nat, c: nat)
    requires
        a < p(),
        b < p(),
        c == 0 || c == 1,
    ensures
        gl_add(gl_mul(gl_sub(a, b), c), b) == (if c == 1 { a } else { b }),
{
    let m = p() as int;
    lemma_small_mod(b, p());
    lemma_small_mod(a, p());
    if c == 1 {
        let d = gl_sub(a, b);
        lemma_small_mod(d, p());
        lemma_add_mod_noop(a - b, b as int, m);
    } else {
        lemma_small_mod(0, p());
    }
}

impl GoldilocksChip {
    /// The low `number_of_bits` bits of `composed`, least significant first.
    /// All 64 bits are assigned as constrained bits and folded back into a
    /// value that is constrained equal to `composed`, whatever the number of
    /// bits asked for; this binds the cell to a value below `p`. Takes 194
    /// rows.
    pub fn to_bits(&self, ctx: &mut RegionCtx, composed: &AssignedValue, number_of_bits: usize) -> (r:
        Result<Vec<AssignedCondition>, Error>)
        requires
            number_of_bits <= 64,
        ensures
            region_step(*old(ctx), *final(ctx), 194, r is Ok),
            r matches Ok(bits) ==> {
                &&& values(bits@) == bits_le(composed@ % p(), number_of_bits as nat)
                &&& final(ctx).holds() == (old(ctx).holds() && composed@ < p())
            },
    {
        let ghost start = *ctx;
        let zero = self.assign_constant(ctx, GoldilocksField::zero())?;
        let one = self.assign_constant(ctx, GoldilocksField::one())?;
        let x = self.native_fe_to_goldilocks(composed.value()).to_canonical_u64();
        let mut bit_assigned: Vec<AssignedCondition> = Vec::new();
        let mut i: u64 = 0;
        while i < 64
            invariant
                i <= 64,
                zero@ == 0,
                one@ == 1,
                x as nat == composed@ % p(),
                bit_assigned.len() == i,
                forall|j: int| 0 <= j < i ==> #[trigger] bit_assigned@[j]@ == bit_of(x as nat, j as nat),
                start == *old(ctx),
                ctx.row_capacity() == start.row_capacity(),
                ctx.table_loaded() == start.table_loaded(),
                ctx.rows_used() == start.rows_used() + 2 + 2 * i,
                ctx.holds() == start.holds(),
            decreases 64 - i,
        {
            let shifted = x >> i;
            let bit = shifted & 1;
            proof {
                lemma_u64_shr_is_div(x, i);
                assert(shifted & 1 == shifted % 2) by (bit_vector);
            }
            let b = self.assign_bit(ctx, &zero, &one, bit)?;
            bit_assigned.push(b);
            i = i + 1;
        }
        let mut acc = zero;
        let mut k: usize = 0;
        proof {
            lemma2_to64();
            lemma2_to64_rest();
            assert((x as nat) % 1 == 0) by (nonlinear_arith);
        }
        while k < 64
            invariant
                k <= 64,
                x < p(),
                bit_assigned.len() == 64,
                forall|j: int| 0 <= j < 64 ==> #[trigger] bit_assigned@[j]@ == bit_of(x as nat, j as nat),
                acc@ == (x as nat) % pow2(k as nat),
                start == *old(ctx),
                ctx.row_capacity() == start.row_capacity(),
                ctx.table_loaded() == start.table_loaded(),
                ctx.rows_used() == start.rows_used() + 130 + k,
                ctx.holds() == start.holds(),
            decreases 64 - k,
        {
            let bit = bit_assigned[k];
            let coeff: u64 = 1u64 << (k as u64);
            proof {
                lemma_u64_pow2_no_overflow(k as nat);
                lemma_u64_shl_is_mul(1, k as u64);
                if k < 63 {
                    lemma_pow2_strictly_increases(k as nat, 63);
                }
                lemma2_to64();
                lemma2_to64_rest();
                lemma_bits_sum_low(x as nat, k as nat);
                lemma_bits_sum_low(x as nat, (k + 1) as nat);
                assert(bits_le(x as nat, (k + 1) as nat).drop_last() =~= bits_le(x as nat, k as nat));
                lemma_pow2_pos((k + 1) as nat);
                lemma_mod_decreases(x as nat, pow2((k + 1) as nat));
                lemma_pow2_pos(k as nat);
                lemma_mod_decreases(x as nat, pow2(k as nat));
                assert(bit@ < 2);
                assert(coeff < p());
                assert(acc@ < p());
                lemma_small_mod((x as nat) % pow2((k + 1) as nat), p());
            }
            let assigned = self.arithmetic_chip().apply(
                ctx,
                Term::Assigned(bit),
                Term::Fixed(coeff),
                Term::Assigned(acc),
            )?;
            acc = assigned.r;
            k = k + 1;
        }
        proof {
            lemma2_to64();
            lemma2_to64_rest();
            lemma_small_mod(x as nat, pow2(64));
            if composed@ >= p() {
                lemma_small_mod(x as nat, p());
            } else {
                lemma_small_mod(composed@, p());
            }
        }
        self.assert_equal(ctx, &acc, composed)?;
        let mut out: Vec<AssignedCondition> = Vec::new();
        let mut j: usize = 0;
        while j < number_of_bits
            invariant
                j <= number_of_bits <= 64,
                bit_assigned.len() == 64,
                out.len() == j,
                forall|t: int| 0 <= t < j ==> #[trigger] out@[t] == bit_assigned@[t],
            decreases number_of_bits - j,
        {
            out.push(bit_assigned[j]);
            j = j + 1;
        }
        proof {
            assert(values(out@) =~= bits_le(composed@ % p(), number_of_bits as nat));
        }
        Ok(out)
    }

    /// `sum of bits[i] * 2^i`, folded one row per bit onto a zero cell. The
    /// cells are not checked to be bits here. Takes `1 + bits.len()` rows.
    pub fn from_bits(&self, ctx: &mut RegionCtx, bits: &Vec<AssignedValue>) -> (r: Result<
        AssignedValue,
        Error,
    >)
        requires
            bits.len() <= 64,
        ensures
            region_step(*old(ctx), *final(ctx), (1 + bits.len()) as nat, r is Ok),
            r matches Ok(w) ==> {
                &&& w@ == bits_sum(values(bits@)) % p()
                &&& final(ctx).holds() == (old(ctx).holds() && forall|j: int|
                    0 <= j < bits.len() ==> #[trigger] bits@[j]@ < p())
            },
    {
        let ghost start = *ctx;
        let zero = self.assign_constant(ctx, GoldilocksField::zero())?;
        let mut acc = zero;
        let mut k: usize = 0;
        proof {
            assert(values(bits@).take(0) =~= Seq::<nat>::empty());
            lemma_small_mod(0, p());
        }
        while k < bits.len()
            invariant
                k <= bits.len() <= 64,
                acc@ == bits_sum(values(bits@).take(k as int)) % p(),
                acc@ < p(),
                start == *old(ctx),
                ctx.row_capacity() == start.row_capacity(),
                ctx.table_loaded() == start.table_loaded(),
                ctx.rows_used() == start.rows_used() + 1 + k,
                ctx.rows_used() <= ctx.row_capacity(),
                ctx.holds() == (start.holds() && forall|j: int| 0 <= j < k ==> #[trigger] bits@[j]@ < p()),
            decreases bits.len() - k,
        {
            let bit = bits[k];
            let coeff: u64 = 1u64 << (k as u64);
            proof {
                lemma_u64_pow2_no_overflow(k as nat);
                lemma_u64_shl_is_mul(1, k as u64);
                if k < 63 {
                    lemma_pow2_strictly_increases(k as nat, 63);
                }
                lemma2_to64();
                lemma2_to64_rest();
                let vs = values(bits@);
                assert(vs.take(k + 1).drop_last() =~= vs.take(k as int));
                assert(coeff < p());
                lemma_add_mod_noop_right(
                    (bit@ * pow2(k as nat)) as int,
                    bits_sum(vs.take(k as int)) as int,
                    p() as int,
                );
            }
            let assigned = self.arithmetic_chip().apply(
                ctx,
                Term::Assigned(bit),
                Term::Fixed(coeff),
                Term::Assigned(acc),
            )?;
            acc = assigned.r;
            k = k + 1;
            proof {
                assert(ctx.holds() == (start.holds() && forall|j: int| 0 <= j < k ==> #[trigger] bits@[j]@ < p()));
            }
        }
        proof {
            assert(values(bits@).take(bits.len() as int) =~= values(bits@));
        }
        Ok(acc)
    }
}


/// The factor `exp_from_bits` multiplies in for bit `i` holding `b`: the
/// selection between `1` and `base^(2^i)` on `is_zero(b)`.
pub open spec fn exp_factor(base: nat, b: nat, i: nat) -> nat {
    let c = gl_pow(base, pow2(i));
    gl_add(gl_mul(gl_sub(1, c), zero_flag(b)), c)
}

/// What `exp_from_bits` computes for the bit cells `bits`.
pub open spec fn exp_bits_value(base: nat, bits: Seq<nat>) -> nat
    decreases bits.len(),
{
    if bits.len() == 0 {
        1
    } else {
        gl_mul(
            exp_bits_value(base, bits.drop_last()),
            exp_factor(base, bits.last(), (bits.len() - 1) as nat),
        )
    }
}

impl GoldilocksChip {
    /// `a^(2^power_log)` by `power_log` squarings, one row each.
    pub fn exp_power_of_2(&self, ctx: &mut RegionCtx, a: &AssignedValue, power_log: usize) -> (r:
        Result<AssignedValue, Error>)
        ensures
            region_step(*old(ctx), *final(ctx), power_log as nat, r is Ok),
            r matches Ok(w) ==> {
                &&& power_log == 0 ==> w@ == a@ && final(ctx).holds() == old(ctx).holds()
                &&& power_log > 0 ==> w@ == gl_pow(a@, pow2(power_log as nat))
                    && final(ctx).holds() == (old(ctx).holds() && a@ < p())
            },
    {
        let ghost start = *ctx;
        ctx.rows_left();
        let mut result = *a;
        let mut i: usize = 0;
        while i < power_log
            invariant
                i <= power_log,
                start == *old(ctx),
                ctx.row_capacity() == start.row_capacity(),
                ctx.table_loaded() == start.table_loaded(),
                ctx.rows_used() == start.rows_used() + i,
                ctx.rows_used() <= ctx.row_capacity(),
                i == 0 ==> result@ == a@ && ctx.holds() == start.holds(),
                i > 0 ==> result@ == gl_pow(a@, pow2(i as nat)) && result@ < p() && ctx.holds() == (
                start.holds() && a@ < p()),
            decreases power_log - i,
        {
            let next = self.mul(ctx, &result, &result)?;
            proof {
                let m = p() as int;
                let e = pow2(i as nat);
                lemma_pow2_unfold((i + 1) as nat);
                lemma_pow_adds(a@ as int, e, e);
                assert(e + e == pow2((i + 1) as nat));
                if i == 0 {
                    assert(pow2(0) == 1) by {
                        lemma2_to64();
                    }
                    lemma_pow1(a@ as int);
                } else {
                    lemma_mul_mod_noop(pow(a@ as int, e), pow(a@ as int, e), m);
                }
            }
            result = next;
            i = i + 1;
        }
        Ok(result)
    }

    /// `base^e` for the exponent `e = sum of power_bits[i] * 2^i`: for each bit,
    /// the constant `base^(2^i)` or `1` is selected on `is_zero(bit)` and
    /// multiplied in. Takes `2 + 9 * power_bits.len()` rows.
    pub fn exp_from_bits(&self, ctx: &mut RegionCtx, base: GoldilocksField, power_bits: &Vec<
        AssignedValue,
    >) -> (r: Result<AssignedValue, Error>)
        requires
            power_bits.len() <= 64,
        ensures
            region_step(*old(ctx), *final(ctx), (2 + 9 * power_bits.len()) as nat, r is Ok),
            r matches Ok(w) ==> {
                &&& w@ == exp_bits_value(base@, values(power_bits@))
                &&& final(ctx).holds() == (old(ctx).holds() && forall|j: int|
                    0 <= j < power_bits.len() ==> #[trigger] zero_check_holds(power_bits@[j]@))
            },
    {
        let ghost start = *ctx;
        let mut x = self.assign_constant(ctx, GoldilocksField::one())?;
        let one = self.assign_constant(ctx, GoldilocksField::one())?;
        let base_val = base.to_canonical_u64();
        let ghost vs = values(power_bits@);
        proof {
            assert(vs.take(0) =~= Seq::<nat>::empty());
        }
        let mut i: usize = 0;
        while i < power_bits.len()
            invariant
                i <= power_bits.len() <= 64,
                vs == values(power_bits@),
                base_val == base@,
                one@ == 1,
                x@ == exp_bits_value(base@, vs.take(i as int)),
                x@ < p(),
                start == *old(ctx),
                ctx.row_capacity() == start.row_capacity(),
                ctx.table_loaded() == start.table_loaded(),
                ctx.rows_used() == start.rows_used() + 2 + 9 * i,
                ctx.rows_used() <= ctx.row_capacity(),
                ctx.holds() == (start.holds() && forall|j: int|
                    0 <= j < i ==> #[trigger] zero_check_holds(power_bits@[j]@)),
            decreases power_bits.len() - i,
        {
            let bit = &power_bits[i];
            let is_zero_bit = self.is_zero(ctx, bit)?;
            proof {
                lemma_u64_pow2_no_overflow(i as nat);
                lemma_u64_shl_is_mul(1, i as u64);
            }
            let power: u64 = 1u64 << (i as u64);
            let c = self.assign_constant(ctx, GoldilocksField::from_canonical_u64(exp_u64(base_val, power)))?;
            let multiplicand = self.select(ctx, &one, &c, &is_zero_bit)?;
            let next = self.mul(ctx, &x, &multiplicand)?;
            proof {
                assert(vs.take(i + 1).drop_last() =~= vs.take(i as int));
                assert(ctx.holds() == (start.holds() && forall|j: int|
                    0 <= j < i + 1 ==> #[trigger] zero_check_holds(power_bits@[j]@)));
            }
            x = next;
            i = i + 1;
        }
        proof {
            assert(vs.take(power_bits.len() as int) =~= vs);
        }
        Ok(x)
    }
}


/// One term of a linear combination: an assigned cell with its coefficient,
/// a value not assigned yet with its coefficient, or nothing.
#[derive(Clone, Copy, Debug)]
pub enum LinearTerm {
    Assigned(AssignedValue, u64),
    Unassigned(u64, u64),
    Zero,
}

/// `sum of cell * (coefficient mod p)` over the assigned terms.
pub open spec fn linear_sum(terms: Seq<LinearTerm>) -> nat
    decreases terms.len(),
{
    if terms.len() == 0 {
        0
    } else {
        linear_sum(terms.drop_last()) + match terms.last() {
            LinearTerm::Assigned(w, coeff) => w@ * ((coeff as nat) % p()),
            _ => 0,
        }
    }
}

impl GoldilocksChip {
    /// `constant + sum of cell * coefficient` over terms that must all be
    /// assigned cells, accumulated one row per term onto the constant. Takes
    /// `1 + terms.len()` rows.
    pub fn compose(&self, ctx: &mut RegionCtx, terms: &Vec<LinearTerm>, constant: GoldilocksField) -> (r:
        Result<AssignedValue, Error>)
        requires
            forall|j: int| 0 <= j < terms.len() ==> #[trigger] terms@[j] is Assigned,
        ensures
            region_step(*old(ctx), *final(ctx), (1 + terms.len()) as nat, r is Ok),
            r matches Ok(w) ==> {
                &&& w@ == (constant@ + linear_sum(terms@)) % p()
                &&& final(ctx).holds() == (old(ctx).holds() && forall|j: int|
                    0 <= j < terms.len() ==> #[trigger] terms@[j]->Assigned_0@ < p())
            },
    {
        let ghost start = *ctx;
        let mut acc = self.assign_constant(ctx, constant)?;
        proof {
            assert(terms@.take(0) =~= Seq::<LinearTerm>::empty());
            lemma_small_mod(constant@, p());
        }
        let mut i: usize = 0;
        while i < terms.len()
            invariant
                i <= terms.len(),
                forall|j: int| 0 <= j < terms.len() ==> #[trigger] terms@[j] is Assigned,
                acc@ == (constant@ + linear_sum(terms@.take(i as int))) % p(),
                acc@ < p(),
                start == *old(ctx),
                ctx.row_capacity() == start.row_capacity(),
                ctx.table_loaded() == start.table_loaded(),
                ctx.rows_used() == start.rows_used() + 1 + i,
                ctx.rows_used() <= ctx.row_capacity(),
                ctx.holds() == (start.holds() && forall|j: int|
                    0 <= j < i ==> #[trigger] terms@[j]->Assigned_0@ < p()),
            decreases terms.len() - i,
        {
            let term = terms[i];
            match term {
                LinearTerm::Assigned(cell, coeff) => {
                    let k = self.native_fe_to_goldilocks(coeff);
                    proof {
                        assert(terms@.take(i + 1).drop_last() =~= terms@.take(i as int));
                        lemma_add_mod_noop_right(
                            (cell@ * k@) as int,
                            (constant@ + linear_sum(terms@.take(i as int))) as int,
                            p() as int,
                        );
                    }
                    acc = self.mul_const_add(ctx, &cell, k, &acc)?;
                },
                LinearTerm::Unassigned(_, _) => {
                    proof {
                        assert(terms@[i as int] is Assigned);
                    }
                },
                LinearTerm::Zero => {
                    proof {
                        assert(terms@[i as int] is Assigned);
                    }
                },
            }
            i = i + 1;
        }
        proof {
            assert(terms@.take(terms.len() as int) =~= terms@);
        }
        Ok(acc)
    }
}


/// `exp_from_bits` on bit cells that hold 0 or 1 computes `base` raised to
/// the number those bits spell, least significant first, and its zero
/// checks are all met.
pub proof fn lemma_exp_from_bits(base: nat, bits: Seq<nat>)
    requires
        base < p(),
        forall|j: int| 0 <= j < bits.len() ==> #[trigger] bits[j] <= 1,
    ensures
        exp_bits_value(base, bits) == gl_pow(base, bits_sum(bits)),
        forall|j: int| 0 <= j < bits.len() ==> #[trigger] zero_check_holds(bits[j]),
    decreases bits.len(),
{
    let m = p() as int;
    lemma_small_mod(0, p());
    lemma_small_mod(1, p());
    lemma_zero_check_bits();
    if bits.len() == 0 {
        lemma_pow0(base as int);
        assert(bits_sum(bits) == 0);
        assert(exp_bits_value(base, bits) == 1);
        assert(gl_pow(base, 0) == 1);
    } else {
        let rest = bits.drop_last();
        let i = (bits.len() - 1) as nat;
        let b = bits.last();
        lemma_exp_from_bits(base, rest);
        assert(bits[bits.len() - 1] <= 1);
        let c = gl_pow(base, pow2(i));
        let prev = gl_pow(base, bits_sum(rest));
        if b == 0 {
            assert(exp_factor(base, b, i) == 1) by {
                let d = gl_sub(1, c);
                lemma_small_mod(d, p());
                lemma_add_mod_noop(1 - c, c as int, m);
            }
            lemma_mod_bound(pow(base as int, bits_sum(rest)), m);
            lemma_small_mod(prev, p());
            assert(b * pow2(i) == 0) by (nonlinear_arith)
                requires
                    b == 0,
            ;
            assert(bits_sum(bits) == bits_sum(rest));
            assert(exp_bits_value(base, bits) == gl_mul(prev, 1));
            assert(exp_bits_value(base, bits) == gl_pow(base, bits_sum(bits)));
        } else {
            assert(exp_factor(base, b, i) == c) by {
                assert(zero_flag(b) == 0);
                assert(gl_sub(1, c) * 0 == 0);
                lemma_mod_bound(pow(base as int, pow2(i)), m);
                assert(c < p());
                lemma_small_mod(c, p());
            }
            assert(b * pow2(i) == pow2(i)) by (nonlinear_arith)
                requires
                    b == 1,
            ;
            assert(bits_sum(bits) == bits_sum(rest) + pow2(i));
            assert(exp_bits_value(base, bits) == gl_mul(prev, c));
            lemma_mul_mod_noop(pow(base as int, bits_sum(rest)), pow(base as int, pow2(i)), m);
            lemma_pow_adds(base as int, bits_sum(rest), pow2(i));
            assert(gl_mul(prev, c) == gl_pow(base, bits_sum(rest) + pow2(i)));
            assert(exp_bits_value(base, bits) == gl_pow(base, bits_sum(bits)));
        }
    }
}

/// The values 0 and 1 pass the zero check, with flags 1 and 0.
proof fn lemma_zero_check_bits()
    ensures
        zero_flag(0) == 1,
        zero_flag(1) == 0,
        zero_check_holds(0),
        zero_check_holds(1),
{
    lemma_small_mod(0, p());
    lemma_small_mod(1, p());
    lemma1_pow((p() - 2) as nat);
}

} // verus!

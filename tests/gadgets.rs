use goldilocks_gadgets::arithmetic_chip::{
    ArithmeticChip, ArithmeticChipConfig, AssignedValue, Error, RegionCtx, Term,
};
use goldilocks_gadgets::chip::{GoldilocksChip, LinearTerm};
use goldilocks_gadgets::field::{exp_u64, mul_mod, GoldilocksField, GOLDILOCKS_MODULUS};

const P: u64 = GOLDILOCKS_MODULUS;
const DEGREE: u32 = 17;

fn chip() -> GoldilocksChip {
    let arithmetic_config = ArithmeticChipConfig::configure();
    let config = GoldilocksChip::configure(&arithmetic_config);
    GoldilocksChip::new(&config)
}

fn region() -> RegionCtx {
    RegionCtx::new(1usize << DEGREE)
}

fn constant(chip: &GoldilocksChip, ctx: &mut RegionCtx, v: u64) -> AssignedValue {
    chip.assign_constant(ctx, GoldilocksField::from_canonical_u64(v))
        .unwrap()
}

fn finish(chip: &GoldilocksChip, ctx: &mut RegionCtx) -> bool {
    chip.load_table(ctx).unwrap();
    ctx.is_satisfied()
}

#[test]
fn test_goldilocks_chip() {
    let chip = chip();
    let mut ctx = region();
    let a = chip
        .assign_constant(&mut ctx, GoldilocksField::from_canonical_u64(P - 2))
        .unwrap();
    let b = chip
        .assign_constant(&mut ctx, GoldilocksField::from_canonical_u64(3))
        .unwrap();
    let _c = chip.add(&mut ctx, &a, &b).unwrap();
    assert!(finish(&chip, &mut ctx));
}

#[test]
fn add_wraps_around_the_modulus() {
    let chip = chip();
    let mut ctx = region();
    let a = constant(&chip, &mut ctx, P - 2);
    let b = constant(&chip, &mut ctx, 3);
    let c = chip.add(&mut ctx, &a, &b).unwrap();
    let decoded = chip.native_fe_to_goldilocks(c.value());
    assert_eq!(decoded.to_canonical_u64(), 1);
    assert!(finish(&chip, &mut ctx));
}

#[test]
fn sub_and_mul_match_field_arithmetic() {
    let chip = chip();
    let mut ctx = region();
    let a = constant(&chip, &mut ctx, 3);
    let b = constant(&chip, &mut ctx, 5);
    let d = chip.sub(&mut ctx, &a, &b).unwrap();
    assert_eq!(d.value(), P - 2);
    let m1 = constant(&chip, &mut ctx, P - 1);
    let sq = chip.mul(&mut ctx, &m1, &m1).unwrap();
    assert_eq!(sq.value(), 1);
    let big = constant(&chip, &mut ctx, 1u64 << 40);
    let prod = chip.mul(&mut ctx, &big, &big).unwrap();
    // 2^80 = 2^16 * 2^64 and 2^64 = 2^32 - 1 modulo p
    assert_eq!(prod.value(), (1u64 << 48) - (1u64 << 16));
    assert!(finish(&chip, &mut ctx));
}

#[test]
fn constant_multiplications() {
    let chip = chip();
    let mut ctx = region();
    let a = constant(&chip, &mut ctx, 6);
    let b = constant(&chip, &mut ctx, 7);
    let r = chip
        .mul_with_constant(&mut ctx, &a, &b, GoldilocksField::from_canonical_u64(10))
        .unwrap();
    assert_eq!(r.value(), 420);
    let r = chip
        .mul_add_constant(&mut ctx, &a, &b, GoldilocksField::from_canonical_u64(P - 2))
        .unwrap();
    assert_eq!(r.value(), 40);
    let r = chip
        .add_constant(&mut ctx, &a, GoldilocksField::from_canonical_u64(P - 1))
        .unwrap();
    assert_eq!(r.value(), 5);
    assert!(finish(&chip, &mut ctx));
}

#[test]
fn assertions_on_constants() {
    let chip = chip();
    let mut ctx = region();
    let one = constant(&chip, &mut ctx, 1);
    let zero = constant(&chip, &mut ctx, 0);
    chip.assert_one(&mut ctx, &one).unwrap();
    chip.assert_zero(&mut ctx, &zero).unwrap();
    assert!(finish(&chip, &mut ctx));

    let mut ctx = region();
    let one = constant(&chip, &mut ctx, 1);
    chip.assert_zero(&mut ctx, &one).unwrap();
    assert!(!finish(&chip, &mut ctx));
}

#[test]
fn select_picks_by_condition() {
    let chip = chip();
    let mut ctx = region();
    let a = constant(&chip, &mut ctx, 11);
    let b = constant(&chip, &mut ctx, 22);
    let one = constant(&chip, &mut ctx, 1);
    let zero = constant(&chip, &mut ctx, 0);
    let s1 = chip.select(&mut ctx, &a, &b, &one).unwrap();
    let s0 = chip.select(&mut ctx, &a, &b, &zero).unwrap();
    assert_eq!(s1.value(), 11);
    assert_eq!(s0.value(), 22);
    chip.assert_equal(&mut ctx, &s1, &a).unwrap();
    assert!(finish(&chip, &mut ctx));
}

#[test]
fn is_zero_and_is_equal() {
    let chip = chip();
    let mut ctx = region();
    let zero = constant(&chip, &mut ctx, 0);
    let five = constant(&chip, &mut ctx, 5);
    let other = constant(&chip, &mut ctx, P - 1);
    assert_eq!(chip.is_zero(&mut ctx, &zero).unwrap().value(), 1);
    assert_eq!(chip.is_zero(&mut ctx, &five).unwrap().value(), 0);
    assert_eq!(chip.is_zero(&mut ctx, &other).unwrap().value(), 0);
    assert_eq!(chip.is_equal(&mut ctx, &five, &five).unwrap().value(), 1);
    assert_eq!(chip.is_equal(&mut ctx, &five, &other).unwrap().value(), 0);
    assert!(finish(&chip, &mut ctx));
}

#[test]
fn exp_power_of_2_of_five() {
    let chip = chip();
    let mut ctx = region();
    let five = constant(&chip, &mut ctx, 5);
    let r = chip.exp_power_of_2(&mut ctx, &five, 3).unwrap();
    let decoded = chip.native_fe_to_goldilocks(r.value());
    assert_eq!(decoded.to_canonical_u64(), 390625);
    let same = chip.exp_power_of_2(&mut ctx, &five, 0).unwrap();
    assert_eq!(same.value(), 5);
    assert!(finish(&chip, &mut ctx));
}

#[test]
fn exp_from_bits_spells_the_exponent() {
    let chip = chip();
    let mut ctx = region();
    let one = constant(&chip, &mut ctx, 1);
    let zero = constant(&chip, &mut ctx, 0);
    let bits = vec![one, zero, one];
    let r = chip
        .exp_from_bits(&mut ctx, GoldilocksField::from_canonical_u64(3), &bits)
        .unwrap();
    assert_eq!(r.value(), 243);
    let none: Vec<AssignedValue> = Vec::new();
    let r = chip
        .exp_from_bits(&mut ctx, GoldilocksField::from_canonical_u64(3), &none)
        .unwrap();
    assert_eq!(r.value(), 1);
    assert!(finish(&chip, &mut ctx));
}

#[test]
fn bits_of_zero_round_trip() {
    let chip = chip();
    let mut ctx = region();
    let zero = constant(&chip, &mut ctx, 0);
    let bits = chip.to_bits(&mut ctx, &zero, 64).unwrap();
    assert_eq!(bits.len(), 64);
    for bit in bits.iter() {
        chip.assert_equal(&mut ctx, bit, &zero).unwrap();
        assert_eq!(bit.value(), 0);
    }
    let back = chip.from_bits(&mut ctx, &bits).unwrap();
    chip.assert_equal(&mut ctx, &back, &zero).unwrap();
    assert_eq!(back.value(), 0);
    assert!(finish(&chip, &mut ctx));
}

#[test]
fn bits_round_trip_and_truncation() {
    let chip = chip();
    let mut ctx = region();
    for v in [P - 1, 0xdead_beef_u64, 1u64 << 63] {
        let a = constant(&chip, &mut ctx, v);
        let bits = chip.to_bits(&mut ctx, &a, 64).unwrap();
        for (i, bit) in bits.iter().enumerate() {
            assert_eq!(bit.value(), (v >> i) & 1);
        }
        let back = chip.from_bits(&mut ctx, &bits).unwrap();
        assert_eq!(back.value(), v);
    }
    let a = constant(&chip, &mut ctx, 0b1011);
    let low = chip.to_bits(&mut ctx, &a, 3).unwrap();
    let values: Vec<u64> = low.iter().map(|b| b.value()).collect();
    assert_eq!(values, vec![1, 1, 0]);
    assert!(finish(&chip, &mut ctx));
}

#[test]
fn to_bits_rejects_an_out_of_range_witness() {
    let chip = chip();
    let mut ctx = region();
    let a = chip.assign_value(&mut ctx, P + 3).unwrap();
    let bits = chip.to_bits(&mut ctx, &a, 64).unwrap();
    let values: Vec<u64> = bits.iter().take(3).map(|b| b.value()).collect();
    assert_eq!(values, vec![1, 1, 0]);
    assert!(!finish(&chip, &mut ctx));
}

#[test]
fn compose_accumulates_terms() {
    let chip = chip();
    let mut ctx = region();
    let a = constant(&chip, &mut ctx, 2);
    let b = constant(&chip, &mut ctx, 3);
    let terms = vec![LinearTerm::Assigned(a, 10), LinearTerm::Assigned(b, P - 1)];
    let r = chip
        .compose(&mut ctx, &terms, GoldilocksField::from_canonical_u64(100))
        .unwrap();
    assert_eq!(r.value(), 117);
    assert!(finish(&chip, &mut ctx));
}

#[test]
fn bit_gadget_enforces_booleanity() {
    let chip = chip();
    for (bit, ok) in [(0u64, true), (1, true), (2, false), (P - 1, false), (P, false)] {
        let mut ctx = region();
        let zero = constant(&chip, &mut ctx, 0);
        let one = constant(&chip, &mut ctx, 1);
        let b = chip.assign_bit(&mut ctx, &zero, &one, bit).unwrap();
        assert_eq!(b.value(), bit);
        assert_eq!(finish(&chip, &mut ctx), ok);
    }
}

#[test]
fn range_check_rejects_values_outside_the_field() {
    let chip = chip();
    let mut ctx = region();
    chip.assign_value(&mut ctx, P - 1).unwrap();
    assert!(finish(&chip, &mut ctx));

    let mut ctx = region();
    chip.assign_value(&mut ctx, P).unwrap();
    assert!(!finish(&chip, &mut ctx));

    let mut ctx = region();
    let arithmetic = ArithmeticChip::new(&ArithmeticChipConfig::configure());
    let r = arithmetic
        .apply(&mut ctx, Term::Unassigned(u64::MAX), Term::Fixed(1), Term::Fixed(0))
        .unwrap();
    assert_eq!(r.r.value(), u64::MAX % P);
    assert!(!finish(&chip, &mut ctx));
}

#[test]
fn table_must_be_loaded_exactly_once() {
    let chip = chip();
    let mut ctx = region();
    constant(&chip, &mut ctx, 4);
    assert!(!ctx.is_satisfied());
    assert!(finish(&chip, &mut ctx));
    assert!(!finish(&chip, &mut ctx));
}

#[test]
fn running_out_of_rows_fails() {
    let chip = chip();
    let mut ctx = RegionCtx::new(3);
    let a = constant(&chip, &mut ctx, 1);
    let b = constant(&chip, &mut ctx, 2);
    assert_eq!(ctx.rows_left(), 1);
    assert!(chip.add(&mut ctx, &a, &b).is_ok());
    assert_eq!(chip.add(&mut ctx, &a, &b).err(), Some(Error::NotEnoughRowsAvailable));
    assert_eq!(ctx.offset(), 3);

    let mut ctx = RegionCtx::new(193);
    let zero = chip.assign_value(&mut ctx, 0).unwrap();
    assert!(chip.to_bits(&mut ctx, &zero, 64).is_err());
}

#[test]
fn field_helpers() {
    assert_eq!(exp_u64(2, 64), (1u64 << 32) - 1);
    assert_eq!(exp_u64(7, 0), 1);
    assert_eq!(exp_u64(0, 5), 0);
    assert_eq!(mul_mod(7, exp_u64(7, P - 2)), 1);
    assert_eq!(mul_mod(P - 1, 2), P - 2);
    assert_eq!(GoldilocksField::from_noncanonical_u64(P + 5).to_canonical_u64(), 5);
    assert_eq!(GoldilocksField::neg_one().to_canonical_u64(), P - 1);
    let chip = chip();
    assert_eq!(chip.goldilocks_modulus(), P);
    assert_eq!(chip.goldilocks_to_native_fe(GoldilocksField(P + 1)), 1);
}

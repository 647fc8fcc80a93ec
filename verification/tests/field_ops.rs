use fri_goldilocks::field::{GoldilocksField, CUBE_ROOT_EXPONENT, EPSILON, ORDER, TWO_ADICITY};

fn f(x: u64) -> GoldilocksField {
    GoldilocksField(x)
}

#[test]
fn field_constants() {
    assert_eq!(ORDER, 0xFFFF_FFFF_0000_0001);
    assert_eq!(EPSILON, 0xFFFF_FFFF);
    assert_eq!(CUBE_ROOT_EXPONENT, 0xAAAA_AAAA_4AAA_AAAB);
}

#[test]
fn order_minus_one_plus_one_is_zero() {
    assert_eq!(f(ORDER - 1).add(f(1)), f(0));
    assert_eq!(f(ORDER - 1).add(f(1)).to_canonical_u64(), 0);
}

#[test]
fn order_minus_one_squared_is_one() {
    assert_eq!(f(ORDER - 1).mul(f(ORDER - 1)).to_canonical_u64(), 1);
}

#[test]
fn weakly_reduced_representative_canonicalizes() {
    // 2^64 - 1 stands for 2^32 - 2.
    let a = GoldilocksField::from_canonical_u64(0xFFFF_FFFF_FFFF_FFFF);
    assert_eq!(a.to_canonical_u64(), 0xFFFF_FFFE);
}

#[test]
fn add_then_sub_gives_back_the_first_summand() {
    let a = f(12345);
    let b = f(9876543210);
    assert_eq!(a.add(b).sub(b), a);
    let c = f(ORDER - 2);
    let d = f(ORDER - 3);
    assert_eq!(c.add(d).sub(d), c);
}

#[test]
fn one_and_zero_are_identities() {
    let a = f(77777777777);
    assert_eq!(a.mul(f(1)), a);
    assert_eq!(a.add(f(0)), a);
}

#[test]
fn double_negation_is_identity() {
    let a = f(424242);
    assert_eq!(a.neg().neg(), a);
    assert_eq!(f(7).neg().to_canonical_u64(), ORDER - 7);
    assert_eq!(f(0).neg().to_canonical_u64(), 0);
}

#[test]
fn multiplication_is_commutative_and_associative() {
    let a = f(123456789);
    let b = f(987654321);
    let c = f(0xDEADBEEF);
    assert_eq!(a.mul(b), b.mul(a));
    assert_eq!(a.mul(b).to_canonical_u64(), 121932631112635269);
    assert_eq!(a.mul(b).mul(c), a.mul(b.mul(c)));
}

#[test]
fn multiplication_distributes_over_addition() {
    let a = f(31415926535);
    let b = f(27182818284);
    let c = f(16180339887);
    assert_eq!(a.mul(b.add(c)), a.mul(b).add(a.mul(c)));
}

#[test]
fn multiplication_reduces_the_hard_carry_case() {
    // (2^48 - 1) * (2^48 + 1) = 2^96 - 1, whose residue is ORDER - 2; the
    // 128-bit reduction must carry correctly across the 2^64 boundary.
    let a = f((1u64 << 48) - 1);
    let b = f((1u64 << 48) + 1);
    assert_eq!(a.mul(b).to_canonical_u64(), ORDER - 2);
}

#[test]
fn square_and_cube() {
    let a = f(65536);
    assert_eq!(a.square(), a.mul(a));
    assert_eq!(a.cube(), a.mul(a).mul(a));
    assert_eq!(f(3).cube().to_canonical_u64(), 27);
}

#[test]
fn inverse_of_five_multiplies_to_one() {
    let a = f(5);
    let inv = a.try_inverse().unwrap();
    assert_eq!(inv.to_canonical_u64(), 14757395255531667457);
    assert_eq!(a.mul(inv).to_canonical_u64(), 1);
}

#[test]
fn inverses_multiply_to_one_across_a_sample() {
    for x in [1u64, 2, 3, 5, 7, 0xFFFF_FFFE, ORDER - 1, 1234567890123456789] {
        let a = f(x);
        let inv = a.try_inverse().unwrap();
        assert_eq!(a.mul(inv).to_canonical_u64(), 1, "inverse failed for {x}");
    }
}

#[test]
fn zero_has_no_inverse() {
    assert!(f(0).try_inverse().is_none());
    // A weakly reduced representative of zero has none either.
    assert!(f(ORDER).try_inverse().is_none());
}

#[test]
fn cube_root_chain_fixed_points() {
    assert_eq!(f(0).cube_root().to_canonical_u64(), 0);
    assert_eq!(f(1).cube_root().to_canonical_u64(), 1);
}

#[test]
fn cube_root_chain_on_the_generator() {
    // The chain raises its input to CUBE_ROOT_EXPONENT; on the
    // multiplicative generator 5 that gives this value.
    let r = f(5).cube_root();
    assert_eq!(r.to_canonical_u64(), 8975811126252041633);
    assert_eq!(r.cube().to_canonical_u64(), 12937580738015319414);
}

#[test]
fn equality_is_on_canonical_form() {
    assert_eq!(f(ORDER), f(0));
    assert_eq!(f(ORDER + 41), f(41));
    assert_ne!(f(1), f(2));
}

#[test]
fn named_elements() {
    assert_eq!(GoldilocksField::zero().0, 0);
    assert_eq!(GoldilocksField::one().0, 1);
    assert_eq!(GoldilocksField::two().0, 2);
    assert_eq!(GoldilocksField::neg_one().to_canonical_u64(), ORDER - 1);
    assert_eq!(GoldilocksField::neg_one().add(GoldilocksField::one()), GoldilocksField::zero());
    assert_eq!(GoldilocksField::multiplicative_group_generator().0, 5);
    assert_eq!(GoldilocksField::power_of_two_generator().0, 10281950781551402419);
    assert_eq!(TWO_ADICITY, 32);
}

#[test]
fn division_inverts_multiplication() {
    assert_eq!(f(10).div(f(2)), f(5));
    assert_eq!(f(7).div(f(7)), f(1));
    let a = f(123456789123456789);
    let b = f(987654321);
    assert_eq!(a.div(b).mul(b), a);
    assert_eq!(a.mul(b).div(b), a);
}

#[test]
fn zero_test_is_on_canonical_form() {
    assert!(f(0).is_zero());
    assert!(f(ORDER).is_zero());
    assert!(!f(1).is_zero());
}

use algokit::math::modular::{MInt, MInt128};

const MOD: u64 = 1_000_000_007;

#[test]
fn test_constructors_and_basic_properties() {
    let a = MInt::<MOD>::one();
    let b = MInt::<MOD>::zero();
    let c = MInt::<MOD>::new(123456789);

    assert_eq!(a.value, 1);
    assert_eq!(b.value, 0);
    assert_eq!(c.value, 123456789);
}

#[test]
fn test_addition() {
    let a = MInt::<MOD>::new(500_000_004);
    let b = MInt::<MOD>::new(500_000_004);

    let sum = a.add(b);

    assert_eq!(sum.value, 1);
}

#[test]
fn test_subtraction() {
    let a = MInt::<MOD>::new(5);
    let b = MInt::<MOD>::new(7);

    let diff = a.sub(b);

    assert_eq!(diff.value, MOD - 2);
}

#[test]
fn test_multiplication() {
    let a = MInt::<MOD>::new(500_000_004);
    let b = MInt::<MOD>::new(2);

    let prod = a.mul(b);

    assert_eq!(prod.value, 1);
}

#[test]
fn test_add_assign() {
    let mut a = MInt::<MOD>::new(500_000_004);
    let b = MInt::<MOD>::new(500_000_004);

    a.add_assign(b);

    assert_eq!(a.value, 1);
}

#[test]
fn test_sub_assign() {
    let mut a = MInt::<MOD>::new(5);
    let b = MInt::<MOD>::new(7);

    a.sub_assign(b);

    assert_eq!(a.value, MOD - 2);
}

#[test]
fn test_mul_assign() {
    let mut a = MInt::<MOD>::new(500_000_004);
    let b = MInt::<MOD>::new(2);

    a.mul_assign(b);

    assert_eq!(a.value, 1);
}

#[test]
fn test_pow() {
    let a = MInt::<MOD>::new(3);
    let result = a.pow(4);

    assert_eq!(result.value, 81);
}

#[test]
fn test_inv() {
    let a = MInt::<MOD>::new(500_000_004);
    let inverse = a.inv();

    assert_eq!(inverse.value, 2);
}

#[test]
fn division_undoes_multiplication() {
    let a = MInt::<MOD>::new(123456);
    let b = MInt::<MOD>::new(654321);
    let prod = a.mul(b);
    let back = prod.div(b);
    assert_eq!(back.value, 123456);
}

#[test]
fn new_reduces_large_values() {
    let a = MInt::<MOD>::new(MOD + 5);
    assert_eq!(a.value, 5);
    let b = MInt::<MOD>::new(MOD);
    assert_eq!(b.value, 0);
}

#[test]
fn pow_of_zero_exponent_is_one() {
    let a = MInt::<MOD>::new(987654321);
    assert_eq!(a.pow(0).value, 1);
}

const MOD128: u128 = 1_000_000_007;

#[test]
fn wide_modulus_matches_narrow() {
    let a = MInt128::<MOD128>::new(500_000_004);
    let b = MInt128::<MOD128>::new(500_000_004);
    assert_eq!(a.add(b).value, 1);
    assert_eq!(a.mul(MInt128::<MOD128>::new(2)).value, 1);
    assert_eq!(MInt128::<MOD128>::new(3).pow(4).value, 81);
    assert_eq!(a.inv().value, 2);
    let mut c = MInt128::<MOD128>::new(5);
    c.sub_assign(MInt128::<MOD128>::new(7));
    assert_eq!(c.value, (MOD128 - 2) as u128);
}

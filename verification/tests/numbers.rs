use algokit::math::{gcd, lcm};
use algokit::math::fractions::Fract;
use algokit::misc::random::XorShift;

#[test]
fn gcd_exact_values() {
    assert_eq!(gcd(12, 18), 6);
    assert_eq!(gcd(18, 12), 6);
    assert_eq!(gcd(7, 13), 1);
    assert_eq!(gcd(0, 9), 9);
    assert_eq!(gcd(9, 0), 9);
    assert_eq!(gcd(0, 0), 0);
}

#[test]
fn lcm_exact_values() {
    assert_eq!(lcm(4, 6), 12);
    assert_eq!(lcm(3, 5), 15);
    assert_eq!(lcm(0, 5), 0);
    assert_eq!(lcm(21, 6), 42);
}

#[test]
fn base_form_reduces_and_fixes_sign() {
    assert_eq!(Fract::base_form(2, 4), (1, 2));
    assert_eq!(Fract::base_form(-2, 4), (-1, 2));
    assert_eq!(Fract::base_form(2, -4), (-1, 2));
    assert_eq!(Fract::base_form(-2, -4), (1, 2));
    assert_eq!(Fract::base_form(0, 7), (0, 1));
    assert_eq!(Fract::base_form(9, 3), (3, 1));
}

#[test]
fn new_fraction_is_in_base_form() {
    let f = Fract::new(10, -15);
    assert_eq!(f.num, -2);
    assert_eq!(f.den, 3);
}

#[test]
fn xorshift_is_deterministic_per_seed() {
    let mut a = XorShift::new(12345);
    let mut b = XorShift::new(12345);
    for _ in 0..10 {
        assert_eq!(a.next(), b.next());
    }
    let mut c = XorShift::new(54321);
    let mut saw_difference = false;
    for _ in 0..10 {
        if a.next() != c.next() {
            saw_difference = true;
        }
    }
    assert!(saw_difference);
}

#[test]
fn xorshift_walks_its_state() {
    let mut g = XorShift::new(1);
    let first = g.next();
    let second = g.next();
    let third = g.next();
    assert!(first != second || second != third);
}

#[test]
fn fraction_arithmetic() {
    let half = Fract::new(1, 2);
    let third = Fract::new(1, 3);
    let sum = half.add(third);
    assert_eq!((sum.num, sum.den), (5, 6));
    let diff = half.sub(third);
    assert_eq!((diff.num, diff.den), (1, 6));
    let prod = half.mul(third);
    assert_eq!((prod.num, prod.den), (1, 6));
    let quot = half.div(third);
    assert_eq!((quot.num, quot.den), (3, 2));
}

#[test]
fn fraction_assign_ops() {
    let mut f = Fract::new(3, 4);
    f.add_assign(Fract::new(1, 4));
    assert_eq!((f.num, f.den), (1, 1));
    f.sub_assign(Fract::new(1, 2));
    assert_eq!((f.num, f.den), (1, 2));
    f.mul_assign(Fract::new(2, 3));
    assert_eq!((f.num, f.den), (1, 3));
    f.div_assign(Fract::new(-1, 3));
    assert_eq!((f.num, f.den), (-1, 1));
}

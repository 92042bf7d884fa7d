use ectools::extension::{Csidh512Fp2, ExtensionFieldElement};
use ectools::field::FieldElement;
use ectools::fields::Csidh512FieldOrder;

type Fp = FieldElement<Csidh512FieldOrder>;
type F2 = ExtensionFieldElement<Csidh512Fp2>;

fn i() -> F2 {
    F2::new(Fp::zero(), Fp::one())
}

fn fe(x: u64) -> Fp {
    Fp::from_u64(x)
}

fn el(a: u64, b: u64) -> F2 {
    F2::new(fe(a), fe(b))
}

#[test]
fn i_squared_is_neg_one() {
    let i2 = i() * i();
    assert_eq!(i2, F2::new(Fp::zero() - Fp::one(), Fp::zero()));
}

#[test]
fn add_componentwise() {
    let a = el(3, 5);
    let b = el(7, 11);
    assert_eq!(a + b, el(10, 16));
}

#[test]
fn sub_componentwise() {
    let a = el(10, 20);
    let b = el(3, 5);
    assert_eq!(a - b, el(7, 15));
}

#[test]
fn neg_negates_both_coords() {
    let a = el(3, 5);
    assert_eq!(a + (-a), F2::zero());
}

#[test]
fn mul_matches_definition() {
    let a = el(3, 5);
    let b = el(7, 11);
    let expected = F2::new(
        fe(3) * fe(7) - fe(5) * fe(11),
        fe(3) * fe(11) + fe(5) * fe(7),
    );
    assert_eq!(a * b, expected);
}

#[test]
fn extension_mul_one_is_identity() {
    let a = el(12345, 67890);
    assert_eq!(a * F2::one(), a);
    assert_eq!(F2::one() * a, a);
}

#[test]
fn mul_zero_is_zero() {
    let a = el(12345, 67890);
    assert_eq!(a * F2::zero(), F2::zero());
}

#[test]
fn extension_mul_commutative() {
    let a = F2::new(
        Fp::from_limbs_unchecked([0x1234, 0x5678, 0xABCD, 0, 0, 0, 0, 0]),
        Fp::from_limbs_unchecked([0xF00D, 0xBEEF, 0, 0, 0, 0, 0, 0]),
    );
    let b = F2::new(
        Fp::from_limbs_unchecked([0xAAAA, 0xBBBB, 0, 7, 0, 0, 0, 0]),
        Fp::from_limbs_unchecked([13, 17, 19, 0, 0, 0, 0, 0]),
    );
    assert_eq!(a * b, b * a);
}

#[test]
fn sqr_matches_mul_self() {
    let a = el(1234567, 7654321);
    assert_eq!(a.sqr(), a * a);
}

#[test]
fn extension_inv_of_one_is_one() {
    assert_eq!(F2::one().inv(), F2::one());
}

#[test]
fn x_times_inv_x_is_one() {
    let a = el(3, 5);
    assert_eq!(a * a.inv(), F2::one());
}

#[test]
fn x_times_inv_x_is_one_multilimb() {
    let a = F2::new(
        Fp::from_limbs_unchecked([0xDEADBEEF, 0xABCD, 0x1234, 0x5678, 0, 0, 0, 0]),
        Fp::from_limbs_unchecked([0xCAFEF00D, 0x9999, 0, 0x1111, 0, 0, 0, 0]),
    );
    assert_eq!(a * a.inv(), F2::one());
}

#[test]
fn inv_of_pure_imaginary() {
    let a = i();
    assert_eq!(a * a.inv(), F2::one());
}

#[test]
fn conjugate_involution() {
    let a = el(42, 99);
    assert_eq!(a.conjugate().conjugate(), a);
}

#[test]
fn conjugate_is_homomorphism() {
    let a = el(3, 5);
    let b = el(7, 11);
    assert_eq!((a * b).conjugate(), a.conjugate() * b.conjugate());
}

#[test]
fn conjugate_flips_imag_sign() {
    let a = el(3, 5);
    assert_eq!(a.conjugate(), F2::new(fe(3), Fp::zero() - fe(5)));
}

#[test]
fn pow_zero_is_one() {
    let a = el(42, 17);
    assert_eq!(a.pow(&[]), F2::one());
    assert_eq!(a.pow(&[0]), F2::one());
}

#[test]
fn pow_one_is_identity() {
    let a = el(42, 17);
    assert_eq!(a.pow(&[1]), a);
}

#[test]
fn pow_two_equals_square() {
    let a = el(42, 17);
    assert_eq!(a.pow(&[2]), a * a);
}

#[test]
fn scale_by_base() {
    let a = el(3, 5);
    let s = fe(4);
    assert_eq!(a.scale(s), el(12, 20));
    assert_eq!(a * s, el(12, 20));
}

#[test]
fn extension_sqrt_of_zero_is_zero() {
    assert_eq!(F2::zero().sqrt(), F2::zero());
}

#[test]
fn extension_sqrt_of_one_squares_to_one() {
    let r = F2::one().sqrt();
    assert_eq!(r * r, F2::one());
}

#[test]
fn sqrt_of_pure_real_square() {
    let x = el(7, 0);
    let x2 = x * x;
    let r = x2.sqrt();
    assert_eq!(r * r, x2);
}

#[test]
fn sqrt_of_pure_imag_square() {
    let x = el(0, 7);
    let x2 = x * x;
    let r = x2.sqrt();
    assert_eq!(r * r, x2);
}

#[test]
fn sqrt_of_mixed_square_roundtrips() {
    let x = el(3, 5);
    let x2 = x * x;
    let r = x2.sqrt();
    assert_eq!(r * r, x2);
}

#[test]
fn sqrt_of_multilimb_square_roundtrips() {
    let x = F2::new(
        Fp::from_limbs_unchecked([
            0x0123456789ABCDEF,
            0xFEDCBA9876543210,
            0x1111222233334444,
            0x5555666677778888,
            0,
            0,
            0,
            0,
        ]),
        Fp::from_limbs_unchecked([0xDEADBEEFCAFEF00D, 0x9999AAAABBBBCCCC, 0, 0, 0, 0, 0, 0]),
    );
    let x2 = x * x;
    let r = x2.sqrt();
    assert_eq!(r * r, x2);
}

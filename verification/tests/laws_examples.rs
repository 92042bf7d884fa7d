use ectools::curve::montgomery::{
    ext_montgomery_a24, ext_montgomery_j_invariant, montgomery_a24, montgomery_is_on_curve, montgomery_j_invariant,
    ExtensionMontgomeryPoint,
    ExtensionMontgomeryPointRepresentation, MontgomeryPoint, MontgomeryPointRepresentation,
};
use ectools::curve::{
    weierstrass_j_invariant, weierstrass_lift_x, Point, PointRepresentation, Scalar,
};
use ectools::extension::{Csidh512Fp2, ExtensionFieldElement};
use ectools::field::{mont_mul, Field, FieldElement, Sqrt3Mod4};
use ectools::fields::{Csidh512FieldOrder, Secp256k1FieldOrder, Secp256k1GroupOrder};

#[derive(Debug, Clone, Copy, PartialEq, Eq, Hash)]
struct Small13;

impl Field for Small13 {
    type Limbs = [u64; 1];
    const MODULUS: [u64; 1] = [13];
    const R_SQUARED: [u64; 1] = [9];
    const P_INV: u64 = 0xB13B13B13B13B13B;
}

#[derive(Debug, Clone, Copy, PartialEq, Eq, Hash)]
struct Small7;

impl Field for Small7 {
    type Limbs = [u64; 1];
    const MODULUS: [u64; 1] = [7];
    const R_SQUARED: [u64; 1] = [4];
    const P_INV: u64 = 0x9249249249249249;
}

impl Sqrt3Mod4 for Small7 {}

type F13 = FieldElement<Small13>;
type F7 = FieldElement<Small7>;
type Fs = FieldElement<Secp256k1FieldOrder>;
type Fc = FieldElement<Csidh512FieldOrder>;
type E2 = ExtensionFieldElement<Csidh512Fp2>;

fn f13(x: u64) -> F13 {
    F13::from_u64(x)
}

fn secp(limbs: [u64; 4]) -> Fs {
    Fs::from_limbs_unchecked(limbs)
}

fn e2(a: u64, b: u64) -> E2 {
    E2::new(Fc::from_u64(a), Fc::from_u64(b))
}

#[test]
fn from_u64_reduces_modulo_p() {
    assert_eq!(f13(20), f13(7));
    assert_eq!(f13(13), F13::zero());
}

#[test]
fn mont_mul_divides_by_the_radix() {
    // R = 2^64 = 3 (mod 13), so 3 * 5 / R = 15 * 9 = 5 (mod 13).
    assert_eq!(mont_mul::<Small13>(&[3], &[5]), [5]);
}

#[test]
fn add_is_associative_on_values() {
    let a = secp([0xFFFF_FFFF_FFFF_0000, 1, 2, 3]);
    let b = secp([5, 0xFFFF_FFFF_FFFF_FFFF, 7, 0x8000_0000_0000_0000]);
    let c = secp([9, 8, 7, 0xFFFF_FFFF_FFFF_FFFE]);
    assert_eq!((a + b) + c, a + (b + c));
}

#[test]
fn mul_distributes_over_add_on_values() {
    let a = secp([0x1234, 0x5678, 0x9ABC, 0xDEF0]);
    let b = secp([11, 22, 33, 44]);
    let c = secp([0xFFFF_FFFF_FFFF_FFFF, 0, 0xFFFF, 1]);
    assert_eq!(a * (b + c), a * b + a * c);
    assert_eq!((a * b) * c, a * (b * c));
}

#[test]
fn sub_then_add_gives_back() {
    let a = f13(3);
    let b = f13(11);
    assert_eq!((a - b) + b, a);
    assert_eq!(a - b, f13(5));
}

#[test]
fn bytes_roundtrip() {
    let a = secp([0xDEAD_BEEF, 0x1234_5678_9ABC_DEF0, 42, 0x7FFF_FFFF_FFFF_FFFF]);
    let bytes = a.to_bytes_le();
    assert_eq!(bytes[0], 0xEF);
    assert_eq!(bytes[8], 0xF0);
    assert_eq!(Fs::from_bytes_unchecked(bytes), a);
}

#[test]
fn inverse_in_small_field() {
    for x in 1..13u64 {
        assert_eq!(f13(x) * f13(x).inv(), F13::one());
    }
    assert_eq!(F13::zero().inv(), F13::zero());
    assert_eq!(f13(4).inv(), f13(10));
}

#[test]
fn pow_matches_repeated_multiplication() {
    let x = f13(6);
    assert_eq!(x.pow([3]), x * x * x);
    assert_eq!(x.pow([12]), F13::one());
}

#[test]
fn equals_compares_values() {
    assert!(f13(2).equals(&f13(15)));
    assert!(!f13(2).equals(&f13(3)));
}

#[test]
fn extension_mul_is_associative_on_values() {
    let a = e2(3, 5);
    let b = e2(7, 11);
    let c = e2(13, 17);
    assert_eq!((a * b) * c, a * (b * c));
}

#[test]
fn extension_conjugate_of_product() {
    let a = e2(123, 456);
    let b = e2(789, 1011);
    assert_eq!((a * b).frobenius(), a.frobenius() * b.frobenius());
    assert_eq!(a.conjugate() + a, e2(246, 0));
}

#[test]
fn extension_inverse_of_pure_real() {
    let a = e2(7, 0);
    assert_eq!(a * a.inv(), E2::one());
    assert_eq!(a.inv().c1(), Fc::zero());
}

#[test]
fn extension_pow_by_multi_limb_exponent() {
    let a = e2(2, 1);
    // (2 + i)^(2^64) computed two ways
    let by_pow = a.pow(&[0, 1]);
    let mut by_squaring = a;
    for _ in 0..64 {
        by_squaring = by_squaring.sqr();
    }
    assert_eq!(by_pow, by_squaring);
}

#[test]
fn extension_sub_and_neg() {
    let a = e2(10, 20);
    let b = e2(30, 5);
    assert_eq!(a - b + b, a);
    assert_eq!(-(-a), a);
    assert_eq!(a.neg() + a, E2::zero());
}

#[test]
fn weierstrass_double_small_curve() {
    // y^2 = x^3 + 2 x + 3 over F_13: 2 (0, 4) = (9, 10) and 3 (0, 4) = (3, 7).
    let a = f13(2);
    let p = Point::<Small13>::from_affine(f13(0), f13(4));
    let two_p = p.double(a);
    assert_eq!(two_p, Point::from_affine(f13(9), f13(10)));
    let three_p = two_p.add(&p, a);
    assert_eq!(three_p, Point::from_affine(f13(3), f13(7)));
    assert_eq!(p.mul(Scalar::<Small7>::from_u64(3), a), three_p);
}

#[test]
fn weierstrass_addition_commutes_and_negation_cancels() {
    let a = f13(2);
    let p = Point::<Small13>::from_affine(f13(0), f13(4));
    let q = Point::<Small13>::from_affine(f13(7), f13(3));
    assert_eq!(p.add(&q, a), q.add(&p, a));
    assert!(p.add(&p.neg(), a).is_infinity());
    assert_eq!(Point::<Small13>::infinity().double(a), Point::infinity());
}

#[test]
fn weierstrass_representation_divides_by_z() {
    // 2 (0 : 4 : 1) has Z = 2 Y Z = 8; its affine form is (9, 10).
    let p = Point::<Small13>::from_affine(f13(0), f13(4));
    let two_p = p.double(f13(2));
    assert_eq!(
        two_p.representation(),
        PointRepresentation::Affine { x: f13(9), y: f13(10) }
    );
}

#[test]
fn weierstrass_j_invariant_formula() {
    // 1728 * 4 * 2^3 / (4 * 2^3 + 27 * 3^2) = 10 over F_13.
    assert_eq!(weierstrass_j_invariant(f13(2), f13(3)), f13(10));
}

#[test]
fn weierstrass_lift_small_curve() {
    // y^2 = x^3 + 2 x + 3 over F_7: above x = 2 lies (2, 1), found as 1^((7 + 1) / 4).
    let f7 = |x: u64| F7::from_u64(x);
    let lifted = weierstrass_lift_x(f7(2), f7(2), f7(3)).expect("2 is on the curve");
    assert_eq!(
        lifted.representation(),
        PointRepresentation::Affine { x: f7(2), y: f7(1) }
    );
    // x = 0: 3 is not a square modulo 7.
    assert!(weierstrass_lift_x(f7(0), f7(2), f7(3)).is_none());
}

#[test]
fn montgomery_a24_and_j_formulas() {
    // a = 3 over F_13: (3 + 2) / 4 = 11 and 256 * 6^3 / 5 = 4.
    assert_eq!(montgomery_a24(f13(3)), f13(11));
    assert_eq!(montgomery_j_invariant(f13(3)), f13(4));
}

#[test]
fn montgomery_x_add_with_infinity() {
    let p = MontgomeryPoint::<Small13>::from_affine(f13(5));
    let inf = MontgomeryPoint::<Small13>::infinity();
    let r = inf.x_add(&p, &p);
    assert_eq!(r, p);
    assert_eq!(r.representation(), MontgomeryPointRepresentation::Affine(f13(5)));
}

#[test]
fn scalar_from_u128_truncates_single_limb() {
    let n: u128 = (1u128 << 64) + 3;
    assert_eq!(Scalar::<Small7>::from_u128(n), Scalar::<Small7>::from_u64(3));
    assert_eq!(
        Scalar::<Secp256k1GroupOrder>::from_u128(n),
        Scalar::<Secp256k1GroupOrder>::from_limbs([3, 1, 0, 0])
    );
}

#[test]
fn scalar_from_bytes_is_little_endian() {
    let mut bytes = [0u8; 32];
    bytes[0] = 1;
    bytes[8] = 2;
    bytes[31] = 0x80;
    assert_eq!(
        Scalar::<Secp256k1GroupOrder>::from_bytes(bytes),
        Scalar::<Secp256k1GroupOrder>::from_limbs([1, 2, 0, 0x8000_0000_0000_0000])
    );
}

#[test]
fn equal_points_have_equal_representations() {
    // 2 (0, 4) computed as (0 : 4 : 1) doubled has Z = 8; from_affine(9, 10) has Z = 1.
    let a = f13(2);
    let doubled = Point::<Small13>::from_affine(f13(0), f13(4)).double(a);
    let affine = Point::<Small13>::from_affine(f13(9), f13(10));
    assert_eq!(doubled, affine);
    assert_eq!(doubled.representation(), affine.representation());
    // different points differ in both
    let other = Point::<Small13>::from_affine(f13(3), f13(7));
    assert_ne!(doubled, other);
    assert_ne!(doubled.representation(), other.representation());
    // (6 : 3) and (2 : 1) over F_13 are both x = 2
    let s = MontgomeryPoint::<Small13>::from_projective_unchecked(f13(6), f13(3));
    let t = MontgomeryPoint::<Small13>::from_affine(f13(2));
    assert_eq!(s, t);
    assert_eq!(s.representation(), t.representation());
    assert_ne!(s, MontgomeryPoint::<Small13>::from_affine(f13(3)));
}

#[test]
fn extension_agrees_with_base_field_on_base_points() {
    let fc = |x: u64| Fc::from_u64(x);
    let a = fc(6);
    let a24 = montgomery_a24(a);
    assert_eq!(ext_montgomery_a24(E2::from_base(a)), E2::from_base(a24));
    assert_eq!(
        ext_montgomery_j_invariant(E2::from_base(a)),
        E2::from_base(montgomery_j_invariant(a))
    );
    let p = MontgomeryPoint::<Csidh512FieldOrder>::from_projective_unchecked(fc(10), fc(5));
    let q = ExtensionMontgomeryPoint::<Csidh512Fp2>::from_projective_unchecked(
        E2::from_base(fc(10)),
        E2::from_base(fc(5)),
    );
    assert_eq!(p.representation(), MontgomeryPointRepresentation::Affine(fc(2)));
    assert_eq!(
        q.representation(),
        ExtensionMontgomeryPointRepresentation::Affine(E2::from_base(fc(2)))
    );
    let n = Scalar::<Secp256k1GroupOrder>::from_u64(11);
    let pm = p.mult(n, a24);
    let qm = q.mult(n, E2::from_base(a24));
    match (pm.representation(), qm.representation()) {
        (
            MontgomeryPointRepresentation::Affine(x),
            ExtensionMontgomeryPointRepresentation::Affine(y),
        ) => assert_eq!(y, E2::from_base(x)),
        (MontgomeryPointRepresentation::Infinity, ExtensionMontgomeryPointRepresentation::Infinity) => {}
        _ => panic!("the two ladders disagree"),
    }
}

#[test]
fn lift_and_on_curve_find_exactly_the_squares() {
    // over F_7 (7 = 3 mod 4): y^2 = x^3 + 2 x + 3 and 3 y^2 = x^3 + 2 x^2 + x
    let f7 = |x: u64| F7::from_u64(x);
    let is_square = |v: u64| (0..7u64).any(|y| (y * y) % 7 == v % 7);
    for x in 0..7u64 {
        let rhs = (x * x * x + 2 * x + 3) % 7;
        let lifted = weierstrass_lift_x(f7(x), f7(2), f7(3));
        assert_eq!(lifted.is_some(), is_square(rhs), "x = {x}");
        if let Some(pt) = lifted {
            match pt.representation() {
                PointRepresentation::Affine { x: px, y } => {
                    assert_eq!(px, f7(x));
                    assert_eq!(y * y, f7(rhs));
                }
                PointRepresentation::Infinity => panic!("a lifted point is affine"),
            }
        }
        // 3^-1 = 5 modulo 7
        let y2 = (x * (x * x + 2 * x + 1) * 5) % 7;
        assert_eq!(montgomery_is_on_curve(f7(x), f7(2), f7(3)), is_square(y2), "x = {x}");
    }
}

#[test]
fn j_invariant_1728_for_b_zero_and_a_zero() {
    // 1728 = 12 modulo 13
    for a in 1..13u64 {
        assert_eq!(weierstrass_j_invariant(f13(a), f13(0)), f13(12), "a = {a}");
    }
    assert_eq!(montgomery_j_invariant(f13(0)), f13(12));
}

fn ladder_chain(
    p: MontgomeryPoint<Small13>,
    n: u64,
    a24: F13,
) -> MontgomeryPoint<Small13> {
    if n == 0 {
        MontgomeryPoint::infinity()
    } else if n == 1 {
        p
    } else if n % 2 == 0 {
        ladder_chain(p, n / 2, a24).x_double(a24)
    } else {
        ladder_chain(p, n / 2 + 1, a24).x_add(&ladder_chain(p, n / 2, a24), &p)
    }
}

#[test]
fn ladder_follows_the_differential_chain() {
    // y^2 = x^3 + 3 x^2 + x over F_13, a24 = (3 + 2) / 4 = 11
    let a24 = montgomery_a24(f13(3));
    assert_eq!(a24, f13(11));
    for x in 1..13u64 {
        let p = MontgomeryPoint::<Small13>::from_affine(f13(x));
        for n in 0..40u64 {
            let by_ladder = p.mult(Scalar::<Small7>::from_u64(n), a24);
            assert_eq!(by_ladder, ladder_chain(p, n, a24), "x = {x}, n = {n}");
        }
    }
}

#[test]
fn reference_left_operators_agree_with_the_value_forms() {
    let a = f13(7);
    let b = f13(9);
    assert_eq!(&a + b, a + b);
    assert_eq!(&a - b, a - b);
    assert_eq!(&a * b, a * b);
    assert_eq!(&a + b, f13(3));
    let x = e2(3, 5);
    let y = e2(11, 2);
    assert_eq!(&x + y, x + y);
    assert_eq!(&x - y, x - y);
    assert_eq!(&x * y, x * y);
    let s = Fc::from_u64(4);
    assert_eq!(&x * s, x * s);
    assert_eq!(&x * s, e2(12, 20));
}

#[test]
fn base_field_is_a_subfield_of_the_extension() {
    let x = Fc::from_u64(1234567);
    let y = Fc::from_u64(7654321);
    assert_eq!(E2::from_base(x) + E2::from_base(y), E2::from_base(x + y));
    assert_eq!(E2::from_base(x) - E2::from_base(y), E2::from_base(x - y));
    assert_eq!(E2::from_base(x) * E2::from_base(y), E2::from_base(x * y));
    assert_eq!(E2::from_base(x).inv(), E2::from_base(x.inv()));
    assert_eq!(E2::from_base(Fc::zero()).inv(), E2::from_base(Fc::zero()));
}

#[derive(Debug, Clone, Copy, PartialEq, Eq)]
struct Three13;

impl Field for Three13 {
    type Limbs = [u64; 3];
    const MODULUS: [u64; 3] = [13, 0, 0];
    // R = 2^192 and 2^12 = 1 modulo 13, so R^2 = 2^384 = 1
    const R_SQUARED: [u64; 3] = [1, 0, 0];
    const P_INV: u64 = 0xB13B13B13B13B13B;
}

#[test]
fn three_limb_field_without_hash() {
    let f = |x: u64| FieldElement::<Three13>::from_u64(x);
    assert_eq!(f(7) * f(9), f(11));
    assert_eq!(f(7) + f(9), f(3));
    assert_eq!(f(7) - f(9), f(11));
    assert_eq!(f(7) * f(7).inv(), f(1));
    assert_eq!(f(20), f(7));
}

#[test]
fn negation_flips_the_ordinate() {
    // 2 (0, 4) on y^2 = x^3 + 2 x + 3 over F_13 is (9, 10), held with Z = 8
    let two_p = Point::<Small13>::from_affine(f13(0), f13(4)).double(f13(2));
    assert_eq!(
        two_p.neg().representation(),
        PointRepresentation::Affine { x: f13(9), y: f13(3) }
    );
    assert_eq!(two_p.neg().neg(), two_p);
    assert!(Point::<Small13>::infinity().neg().is_infinity());
    assert!(!two_p.neg().is_infinity());
}

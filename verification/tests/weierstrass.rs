use std::hash::{Hash, Hasher};
use ectools::curve::{Curve, Point, PointRepresentation, Scalar, Secp256k1Curve};
use ectools::field::FieldElement;
use ectools::fields::{Secp256k1FieldOrder as Fp, Secp256k1GroupOrder};

type Fe = FieldElement<Fp>;
type Pt = Point<Fp>;
type Sc = Scalar<Secp256k1GroupOrder>;

const CURVE: Secp256k1Curve = Secp256k1Curve;

fn fe(limbs: [u64; 4]) -> Fe {
    Fe::from_limbs_unchecked(limbs)
}

fn generator() -> Pt {
    Pt::from_affine(
        fe([
            0x59F2815B16F81798,
            0x029BFCDB2DCE28D9,
            0x55A06295CE870B07,
            0x79BE667EF9DCBBAC,
        ]),
        fe([
            0x9C47D08FFB10D4B8,
            0xFD17B448A6855419,
            0x5DA4FBFC0E1108A8,
            0x483ADA7726A3C465,
        ]),
    )
}

fn two_g() -> Pt {
    Pt::from_affine(
        fe([
            0xABAC09B95C709EE5,
            0x5C778E4B8CEF3CA7,
            0x3045406E95C07CD8,
            0xC6047F9441ED7D6D,
        ]),
        fe([
            0x236431A950CFE52A,
            0xF7F632653266D0E1,
            0xA3C58419466CEAEE,
            0x1AE168FEA63DC339,
        ]),
    )
}

fn three_g() -> Pt {
    Pt::from_affine(
        fe([
            0x8601F113BCE036F9,
            0xB531C845836F99B0,
            0x49344F85F89D5229,
            0xF9308A019258C310,
        ]),
        fe([
            0x6CB9FD7584B8E672,
            0x6500A99934C2231B,
            0x0FE337E62A37F356,
            0x388F7B0F632DE814,
        ]),
    )
}

fn infinity() -> Pt {
    Pt::infinity()
}

/// `y^2 = x^3 + x` over the field of the secp256k1 group order.
#[derive(Debug, Clone, Copy, PartialEq, Eq)]
struct JCurve;

impl Curve<Secp256k1GroupOrder> for JCurve {
    fn a(&self) -> FieldElement<Secp256k1GroupOrder> {
        FieldElement::one()
    }
    fn b(&self) -> FieldElement<Secp256k1GroupOrder> {
        FieldElement::zero()
    }
}

/// `y^2 = x^3 + x - 2`, on which `(1, 0)` has order two.
#[derive(Debug, Clone, Copy, PartialEq, Eq)]
struct TorsionCurve;

impl Curve<Fp> for TorsionCurve {
    fn a(&self) -> Fe {
        Fe::one()
    }
    fn b(&self) -> Fe {
        Fe::zero() - Fe::two()
    }
}

#[test]
fn double_generator_matches_2g() {
    assert_eq!(CURVE.add(generator(), generator()), two_g());
}

#[test]
fn add_g_plus_2g_matches_3g() {
    assert_eq!(CURVE.add(generator(), two_g()), three_g());
}

#[test]
fn add_2g_plus_g_matches_3g() {
    assert_eq!(CURVE.add(two_g(), generator()), three_g());
}

#[test]
fn add_infinity_right_identity() {
    let g = generator();
    assert_eq!(CURVE.add(g, infinity()), g);
}

#[test]
fn add_infinity_left_identity() {
    let g = generator();
    assert_eq!(CURVE.add(infinity(), g), g);
}

#[test]
fn add_point_and_negation_is_infinity() {
    let g = generator();
    assert!(CURVE.add(g, g.neg()).is_infinity());
}

#[test]
fn add_is_commutative() {
    let a = generator();
    let b = two_g();
    assert_eq!(CURVE.add(a, b), CURVE.add(b, a));
}

#[test]
fn add_is_associative() {
    let a = generator();
    let b = two_g();
    let c = three_g();
    assert_eq!(CURVE.add(CURVE.add(a, b), c), CURVE.add(a, CURVE.add(b, c)));
}

#[test]
fn infinity_plus_infinity_is_infinity() {
    assert!(CURVE.add(infinity(), infinity()).is_infinity());
}

#[test]
fn mul_by_zero_is_infinity() {
    assert!(CURVE.multiply(Sc::from_u128(0), generator()).is_infinity());
}

#[test]
fn mul_by_one_is_identity() {
    let g = generator();
    assert_eq!(CURVE.multiply(Sc::from_u128(1), g), g);
}

#[test]
fn mul_by_two_matches_double() {
    let g = generator();
    assert_eq!(CURVE.multiply(Sc::from_u128(2), g), CURVE.add(g, g));
}

#[test]
fn mul_by_three_matches_3g() {
    assert_eq!(CURVE.multiply(Sc::from_u128(3), generator()), three_g());
}

#[test]
fn mul_scalar_additivity() {
    let g = generator();
    let a = CURVE.multiply(Sc::from_u128(7), g);
    let b = CURVE.multiply(Sc::from_u128(11), g);
    let sum = CURVE.multiply(Sc::from_u128(18), g);
    assert_eq!(CURVE.add(a, b), sum);
}

#[test]
fn mul_infinity_is_infinity() {
    assert!(
        CURVE
            .multiply(Sc::from_u128(12345), infinity())
            .is_infinity()
    );
}

#[test]
fn struct_generator_matches_local_generator() {
    assert_eq!(Secp256k1Curve::generator(), generator());
}

#[test]
fn struct_generator_mul_by_one_is_itself() {
    assert_eq!(
        CURVE.multiply(Sc::from_u128(1), Secp256k1Curve::generator()),
        Secp256k1Curve::generator()
    );
}

#[test]
fn struct_generator_mul_by_two_matches_2g() {
    assert_eq!(
        CURVE.multiply(Sc::from_u128(2), Secp256k1Curve::generator()),
        two_g()
    );
}

#[test]
fn struct_generator_mul_by_three_matches_3g() {
    assert_eq!(
        CURVE.multiply(Sc::from_u128(3), Secp256k1Curve::generator()),
        three_g()
    );
}

#[test]
fn struct_generator_mul_scalar_additivity() {
    let a = CURVE.multiply(Sc::from_u128(7), Secp256k1Curve::generator());
    let b = CURVE.multiply(Sc::from_u128(11), Secp256k1Curve::generator());
    let sum = CURVE.multiply(Sc::from_u128(18), Secp256k1Curve::generator());
    assert_eq!(CURVE.add(a, b), sum);
}

#[test]
fn struct_generator_mul_by_group_order_is_infinity() {
    let n = Sc::from_bytes([
        0x41, 0x41, 0x36, 0xD0, 0x8C, 0x5E, 0xD2, 0xBF, 0x3B, 0xA0, 0x48, 0xAF, 0xE6, 0xDC,
        0xAE, 0xBA, 0xFE, 0xFF, 0xFF, 0xFF, 0xFF, 0xFF, 0xFF, 0xFF, 0xFF, 0xFF, 0xFF, 0xFF,
        0xFF, 0xFF, 0xFF, 0xFF,
    ]);
    assert!(CURVE.multiply(n, Secp256k1Curve::generator()).is_infinity());
}

#[test]
fn mul_by_group_order_is_infinity() {
    let n = Sc::from_bytes([
        0x41, 0x41, 0x36, 0xD0, 0x8C, 0x5E, 0xD2, 0xBF, 0x3B, 0xA0, 0x48, 0xAF, 0xE6, 0xDC,
        0xAE, 0xBA, 0xFE, 0xFF, 0xFF, 0xFF, 0xFF, 0xFF, 0xFF, 0xFF, 0xFF, 0xFF, 0xFF, 0xFF,
        0xFF, 0xFF, 0xFF, 0xFF,
    ]);
    assert!(CURVE.multiply(n, generator()).is_infinity());
}

#[test]
fn j_invariant() {
    assert_eq!(FieldElement::from_u64(1728), JCurve.j_invariant());
}

#[test]
fn representation_of_infinity_is_infinity_variant() {
    assert_eq!(Pt::infinity().representation(), PointRepresentation::Infinity);
}

#[test]
fn representation_of_affine_recovers_coords() {
    let g = generator();
    let g_x = fe([
        0x59F2815B16F81798,
        0x029BFCDB2DCE28D9,
        0x55A06295CE870B07,
        0x79BE667EF9DCBBAC,
    ]);
    let g_y = fe([
        0x9C47D08FFB10D4B8,
        0xFD17B448A6855419,
        0x5DA4FBFC0E1108A8,
        0x483ADA7726A3C465,
    ]);
    assert_eq!(
        g.representation(),
        PointRepresentation::Affine { x: g_x, y: g_y }
    );
}

#[test]
fn representation_after_arithmetic_normalizes() {
    let two_g_via_add = CURVE.add(generator(), generator());
    let g_x = fe([
        0xABAC09B95C709EE5,
        0x5C778E4B8CEF3CA7,
        0x3045406E95C07CD8,
        0xC6047F9441ED7D6D,
    ]);
    let g_y = fe([
        0x236431A950CFE52A,
        0xF7F632653266D0E1,
        0xA3C58419466CEAEE,
        0x1AE168FEA63DC339,
    ]);
    assert_eq!(
        two_g_via_add.representation(),
        PointRepresentation::Affine { x: g_x, y: g_y }
    );
}

#[test]
fn lift_recovers_generator() {
    let g_x = fe([
        0x59F2815B16F81798,
        0x029BFCDB2DCE28D9,
        0x55A06295CE870B07,
        0x79BE667EF9DCBBAC,
    ]);
    let lifted = CURVE.lift(g_x).expect("generator x is on-curve");
    match lifted.representation() {
        PointRepresentation::Affine { x, y } => {
            assert_eq!(x, g_x);
            let g_y = fe([
                0x9C47D08FFB10D4B8,
                0xFD17B448A6855419,
                0x5DA4FBFC0E1108A8,
                0x483ADA7726A3C465,
            ]);
            assert!(y == g_y || y == Fe::zero() - g_y);
        }
        PointRepresentation::Infinity => panic!("expected affine"),
    }
}

#[test]
fn lift_none_off_curve() {
    assert!(TorsionCurve.lift(Fe::zero()).is_none());
}

#[test]
fn lift_two_torsion() {
    let p = TorsionCurve.lift(Fe::one()).expect("(1, 0) is on E");
    assert_eq!(
        p.representation(),
        PointRepresentation::Affine {
            x: Fe::one(),
            y: Fe::zero()
        }
    );
}

#[test]
fn hash_agrees_for_equal_points_in_other_coordinates() {
    let hash_of = |p: &Pt| {
        let mut state = std::collections::hash_map::DefaultHasher::new();
        p.hash(&mut state);
        state.finish()
    };
    let g = generator();
    let two_g_via_add = CURVE.add(g, g);
    let two_g_via_mul = CURVE.multiply(Sc::from_u64(2), g);
    assert_eq!(two_g_via_add, two_g_via_mul);
    assert_eq!(hash_of(&two_g_via_add), hash_of(&two_g_via_mul));
    assert_eq!(hash_of(&Pt::infinity()), hash_of(&CURVE.add(g, g.neg())));
}

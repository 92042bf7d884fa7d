use std::hash::{Hash, Hasher};
use ectools::curve::montgomery::{
    Csidh512BaseCurve, ExtensionMontgomeryCurve, ExtensionMontgomeryPoint,
    ExtensionMontgomeryPointRepresentation, MontgomeryCurve, MontgomeryPoint,
    MontgomeryPointRepresentation,
};
use ectools::curve::Scalar;
use ectools::extension::{Csidh512Fp2, ExtensionFieldElement};
use ectools::field::{Field, FieldElement};
use ectools::fields::Csidh512FieldOrder;

#[derive(Debug, Clone, Copy, PartialEq, Eq, Hash)]
struct Fp13;

impl Field for Fp13 {
    type Limbs = [u64; 1];
    const MODULUS: [u64; 1] = [13];
    const R_SQUARED: [u64; 1] = [9];
    const P_INV: u64 = 0xB13B13B13B13B13B;
}

#[derive(Debug, Clone, Copy, PartialEq, Eq, Hash)]
struct Fr7;

impl Field for Fr7 {
    type Limbs = [u64; 1];
    const MODULUS: [u64; 1] = [7];
    const R_SQUARED: [u64; 1] = [4];
    const P_INV: u64 = 0x9249249249249249;
}

type Fe13 = FieldElement<Fp13>;
type Pt13 = MontgomeryPoint<Fp13>;
type Sc = Scalar<Fr7>;

#[derive(Debug, Clone, Copy, PartialEq, Eq)]
struct TinyMont;

impl MontgomeryCurve<Fp13> for TinyMont {
    fn a(&self) -> Fe13 {
        Fe13::zero()
    }
    fn b(&self) -> Fe13 {
        Fe13::one()
    }
}

fn fe(x: u64) -> Fe13 {
    Fe13::from_u64(x)
}

fn pt(x: u64) -> Pt13 {
    Pt13::from_affine(fe(x))
}

#[test]
fn a24_of_e0_is_one_half() {
    assert_eq!(TinyMont.a24(), fe(7));
}

#[test]
fn x_double_of_g_matches_2g() {
    let g = pt(2);
    assert_eq!(TinyMont.x_double(g), pt(9));
}

#[test]
fn x_add_matches_hand_computation() {
    let g = pt(2);
    let two_g = pt(9);
    assert_eq!(TinyMont.x_add(two_g, g, g), pt(6));
}

#[test]
fn x_add_is_symmetric_in_p_and_q() {
    let g = pt(2);
    let two_g = pt(9);
    let a = TinyMont.x_add(two_g, g, g);
    let b = TinyMont.x_add(g, two_g, g);
    assert_eq!(a, b);
}

#[test]
fn x_add_infinity_and_p_with_diff_p_is_p() {
    let g = pt(2);
    assert_eq!(TinyMont.x_add(Pt13::infinity(), g, g), g);
}

#[test]
fn x_double_of_infinity_is_infinity() {
    assert!(TinyMont.x_double(Pt13::infinity()).is_infinity());
}

#[test]
fn x_double_of_two_torsion_is_infinity() {
    let two_torsion = pt(8);
    assert!(TinyMont.x_double(two_torsion).is_infinity());
}

#[test]
fn x_double_and_add_matches_separate_ops() {
    let g = pt(2);
    let two_g = pt(9);
    let (dbl_g, add) = TinyMont.x_double_and_add(g, two_g, g);
    assert_eq!(dbl_g, TinyMont.x_double(g));
    assert_eq!(add, TinyMont.x_add(g, two_g, g));
}

#[test]
fn mult_by_zero_is_infinity() {
    assert!(TinyMont.mult(Sc::from_u64(0), pt(2)).is_infinity());
}

#[test]
fn mult_by_one_is_identity() {
    assert_eq!(TinyMont.mult(Sc::from_u64(1), pt(2)), pt(2));
}

#[test]
fn mult_by_two_matches_x_double() {
    assert_eq!(TinyMont.mult(Sc::from_u64(2), pt(2)), pt(9));
}

#[test]
fn mult_by_three_matches_hand_computation() {
    assert_eq!(TinyMont.mult(Sc::from_u64(3), pt(2)), pt(6));
}

#[test]
fn mult_by_four_matches_hand_computation() {
    assert_eq!(TinyMont.mult(Sc::from_u64(4), pt(2)), pt(4));
}

#[test]
fn mult_by_five_lands_on_two_torsion() {
    let result = TinyMont.mult(Sc::from_u64(5), pt(2));
    assert_eq!(result, pt(8));
}

#[test]
fn mult_by_group_order_is_infinity() {
    assert!(TinyMont.mult(Sc::from_u64(10), pt(2)).is_infinity());
}

#[test]
fn mult_wraps_symmetrically() {
    for k in 1..10u64 {
        let a = TinyMont.mult(Sc::from_u64(k), pt(2));
        let b = TinyMont.mult(Sc::from_u64(10 - k), pt(2));
        assert_eq!(a, b);
    }
}

#[test]
fn mult_on_infinity_is_infinity() {
    assert!(
        TinyMont
            .mult(Sc::from_u64(12345), Pt13::infinity())
            .is_infinity()
    );
}

#[test]
fn j_invariant_of_e0_matches_1728() {
    assert_eq!(TinyMont.j_invariant(), fe(1728));
}

#[test]
fn representation_of_infinity() {
    assert_eq!(
        Pt13::infinity().representation(),
        MontgomeryPointRepresentation::Infinity
    );
}

#[test]
fn representation_of_scaled_point_normalizes() {
    let scaled = Pt13::from_projective_unchecked(fe(4), fe(2));
    assert_eq!(
        scaled.representation(),
        MontgomeryPointRepresentation::Affine(fe(2))
    );
}

#[test]
fn equality_respects_projective_scaling() {
    let a = Pt13::from_projective_unchecked(fe(2), fe(1));
    let b = Pt13::from_projective_unchecked(fe(4), fe(2));
    assert_eq!(a, b);
}

#[test]
fn csidh512_e0_has_j_1728() {
    assert_eq!(
        Csidh512BaseCurve.j_invariant(),
        FieldElement::<Csidh512FieldOrder>::from_u64(1728)
    );
}

#[test]
fn csidh512_e0_a24_is_half() {
    let a24 = Csidh512BaseCurve.a24();
    let two = FieldElement::<Csidh512FieldOrder>::two();
    let four = FieldElement::<Csidh512FieldOrder>::from_u64(4);
    assert_eq!(a24 * four, two);
}

#[test]
fn csidh512_is_on_curve_zero() {
    assert!(Csidh512BaseCurve.is_on_curve(FieldElement::zero()));
}

#[test]
fn csidh512_is_on_curve_x_one_is_false() {
    assert!(!Csidh512BaseCurve.is_on_curve(FieldElement::one()));
}

#[test]
fn csidh512_lift_zero_gives_two_torsion() {
    let p = Csidh512BaseCurve
        .lift(FieldElement::zero())
        .expect("x=0 is on E_0");
    assert_eq!(
        p.representation(),
        MontgomeryPointRepresentation::Affine(FieldElement::zero())
    );
}

#[test]
fn csidh512_lift_x_one_gives_none() {
    assert!(Csidh512BaseCurve.lift(FieldElement::one()).is_none());
}


type F2 = ExtensionFieldElement<Csidh512Fp2>;
type ExtPt = ExtensionMontgomeryPoint<Csidh512Fp2>;

#[derive(Debug, Clone, Copy, PartialEq, Eq)]
struct Csidh512ExtBaseCurve;

impl ExtensionMontgomeryCurve<Csidh512Fp2> for Csidh512ExtBaseCurve {
    fn a(&self) -> F2 {
        F2::zero()
    }
    fn b(&self) -> F2 {
        F2::one()
    }
}

fn ext_from_u64(x: u64) -> F2 {
    F2::from_base(FieldElement::from_u64(x))
}

#[test]
fn ext_a24_of_e0_over_fp2_matches_half() {
    let a24 = Csidh512ExtBaseCurve.a24();
    let two = ext_from_u64(2);
    let four = ext_from_u64(4);
    assert_eq!(a24 * four, two);
}

#[test]
fn ext_j_invariant_of_e0_over_fp2_is_1728() {
    assert_eq!(Csidh512ExtBaseCurve.j_invariant(), ext_from_u64(1728));
}

#[test]
fn ext_x_double_of_infinity_is_infinity() {
    assert!(
        Csidh512ExtBaseCurve
            .x_double(ExtPt::infinity())
            .is_infinity()
    );
}

#[test]
fn ext_mult_by_zero_is_infinity() {
    let p = ExtPt::from_affine(ext_from_u64(5));
    assert!(Csidh512ExtBaseCurve.mult(Sc::from_u64(0), p).is_infinity());
}

#[test]
fn ext_mult_by_one_is_identity() {
    let p = ExtPt::from_affine(ext_from_u64(5));
    assert_eq!(Csidh512ExtBaseCurve.mult(Sc::from_u64(1), p), p);
}

#[test]
fn ext_mult_by_two_matches_x_double() {
    let x = F2::new(FieldElement::from_u64(3), FieldElement::from_u64(7));
    let p = ExtPt::from_affine(x);
    let via_mult = Csidh512ExtBaseCurve.mult(Sc::from_u64(2), p);
    let via_double = Csidh512ExtBaseCurve.x_double(p);
    assert_eq!(via_mult, via_double);
}

#[test]
fn ext_mult_matches_base_on_rational_point() {
    let x_base = FieldElement::<Csidh512FieldOrder>::from_u64(9);
    let p_base = MontgomeryPoint::<Csidh512FieldOrder>::from_affine(x_base);
    let p_ext = ExtPt::from_affine(F2::from_base(x_base));
    for k in 1..8u64 {
        let base_result = Csidh512BaseCurve.mult(Sc::from_u64(k), p_base);
        let ext_result = Csidh512ExtBaseCurve.mult(Sc::from_u64(k), p_ext);
        match (base_result.representation(), ext_result.representation()) {
            (
                MontgomeryPointRepresentation::Affine(xb),
                ExtensionMontgomeryPointRepresentation::Affine(xe),
            ) => {
                assert_eq!(xe, F2::from_base(xb), "k={k}");
            }
            (
                MontgomeryPointRepresentation::Infinity,
                ExtensionMontgomeryPointRepresentation::Infinity,
            ) => {}
            _ => panic!("representation mismatch at k={k}"),
        }
    }
}

#[test]
fn ext_x_add_symmetric() {
    let x_a = F2::new(FieldElement::from_u64(3), FieldElement::from_u64(1));
    let p = ExtPt::from_affine(x_a);
    let two_p = Csidh512ExtBaseCurve.x_double(p);
    let a = Csidh512ExtBaseCurve.x_add(two_p, p, p);
    let b = Csidh512ExtBaseCurve.x_add(p, two_p, p);
    assert_eq!(a, b);
}

#[test]
fn ext_mult_by_seven_matches_iterated_add() {
    let x_a = F2::new(FieldElement::from_u64(3), FieldElement::from_u64(1));
    let p = ExtPt::from_affine(x_a);
    let two_p = Csidh512ExtBaseCurve.x_double(p);
    let three_p = Csidh512ExtBaseCurve.x_add(two_p, p, p);
    let four_p = Csidh512ExtBaseCurve.x_add(three_p, p, two_p);
    let five_p = Csidh512ExtBaseCurve.x_add(four_p, p, three_p);
    let six_p = Csidh512ExtBaseCurve.x_add(five_p, p, four_p);
    let seven_p = Csidh512ExtBaseCurve.x_add(six_p, p, five_p);
    assert_eq!(Csidh512ExtBaseCurve.mult(Sc::from_u64(7), p), seven_p);
}

fn hash_of<T: std::hash::Hash>(value: &T) -> u64 {
    let mut state = std::collections::hash_map::DefaultHasher::new();
    value.hash(&mut state);
    state.finish()
}

#[test]
fn hash_respects_projective_scaling() {
    let a = Pt13::from_projective_unchecked(fe(2), fe(1));
    let b = Pt13::from_projective_unchecked(fe(4), fe(2));
    assert_eq!(hash_of(&a), hash_of(&b));
    let inf1 = Pt13::from_projective_unchecked(fe(3), fe(0));
    let inf2 = Pt13::from_projective_unchecked(fe(5), fe(0));
    assert_eq!(hash_of(&inf1), hash_of(&inf2));
}

#[test]
fn ext_hash_respects_projective_scaling() {
    let a = ExtPt::from_projective_unchecked(ext_from_u64(3), ext_from_u64(1));
    let b = ExtPt::from_projective_unchecked(ext_from_u64(21), ext_from_u64(7));
    assert_eq!(a, b);
    assert_eq!(a.representation(), b.representation());
    assert_eq!(hash_of(&a), hash_of(&b));
}

#[test]
fn ext_x_add_infinity_and_p_with_diff_p_is_p() {
    let x_a = F2::new(FieldElement::from_u64(3), FieldElement::from_u64(1));
    let p = ExtPt::from_affine(x_a);
    let r = p.x_add(&ExtPt::infinity(), &p);
    assert_eq!(r, p);
    assert_eq!(
        r.representation(),
        ExtensionMontgomeryPointRepresentation::Affine(x_a)
    );
    let s = ExtPt::infinity().x_add(&p, &p);
    assert_eq!(s, p);
}

fn ext_chain(p: ExtPt, n: u64, a24: F2) -> ExtPt {
    if n == 0 {
        ExtPt::infinity()
    } else if n == 1 {
        p
    } else if n % 2 == 0 {
        ext_chain(p, n / 2, a24).x_double(a24)
    } else {
        ext_chain(p, n / 2 + 1, a24).x_add(&ext_chain(p, n / 2, a24), &p)
    }
}

#[test]
fn ext_ladder_follows_the_differential_chain() {
    let x_a = F2::new(FieldElement::from_u64(3), FieldElement::from_u64(1));
    let p = ExtPt::from_affine(x_a);
    let a24 = Csidh512ExtBaseCurve.a24();
    for n in 0..24u64 {
        assert_eq!(p.mult(Sc::from_u64(n), a24), ext_chain(p, n, a24), "n = {n}");
    }
}

//! Elliptic curves in short Weierstrass form `y^2 = x^3 + a x + b`, with points held
//! in Jacobian coordinates `(X : Y : Z)`, which stand for the affine point
//! `(X / Z^2, Y / Z^3)`; `Z = 0` is the point at infinity.
use vstd::prelude::*;

use crate::bytes::{bytes_nat, lemma_words_of_bytes, u64_from_le_bytes};
use crate::field::{
    hash_into, lemma_params, lemma_well_formed, limb_count, modulus, params_valid, sqrt_exponent, Field,
    FieldElement, Sqrt3Mod4,
};
use crate::fields::{
    lemma_secp256k1_field_modulus_value, lemma_secp256k1_field_params, Secp256k1FieldOrder,
    Secp256k1GroupOrder,
};
use crate::limbs::{
    lemma_limb_bit, lemma_limbs_nat_4, lemma_limbs_nat_bound, lemma_limbs_nat_single, lemma_shift_step,
    lemma_word_pow_is_pow2, limbs_nat, Limbs,
};
use crate::modular::{
    cong, lemma_add_step, lemma_cong_mod, lemma_cong_to_mod, lemma_mul_step, lemma_sub_step,
    pow_mod,
};
use vstd::arithmetic::power2::{lemma_pow2_pos, pow2};
use vstd::std_specs::cmp::PartialEqSpecImpl;

pub mod montgomery;

verus! {

/// Jacobian coordinates `(X, Y, Z)` as residues.
pub type Jac = (nat, nat, nat);

/// `v mod p`, as a residue in `0..p`.
pub open spec fn residue(v: int, p: nat) -> nat {
    (v % (p as int)) as nat
}

/// The representative `(1 : 1 : 0)` of the point at infinity.
pub open spec fn jac_infinity() -> Jac {
    (1, 1, 0)
}

/// Doubling in Jacobian coordinates: with `S = 4 X Y^2` and `M = 3 X^2 + a Z^4`,
/// `2 (X : Y : Z) = (M^2 - 2 S : M (S - X3) - 8 Y^4 : 2 Y Z)`. The point at infinity is
/// returned as it is.
pub open spec fn jac_double(pt: Jac, a: nat, p: nat) -> Jac {
    if pt.2 == 0 {
        pt
    } else {
        let x = pt.0 as int;
        let y = pt.1 as int;
        let z = pt.2 as int;
        let yy = y * y;
        let s = 4 * x * yy;
        let m = 3 * (x * x) + a * (z * z) * (z * z);
        let x3 = m * m - 2 * s;
        (residue(x3, p), residue(m * (s - x3) - 8 * (yy * yy), p), residue(2 * y * z, p))
    }
}

/// Addition in Jacobian coordinates. With `U1 = X1 Z2^2`, `U2 = X2 Z1^2`,
/// `S1 = Y1 Z2^3`, `S2 = Y2 Z1^3`, `H = U2 - U1` and `R = 2 (S2 - S1)`: equal points
/// (`H = 0`, `S2 = S1`) are doubled, opposite ones (`H = 0`, `S2 != S1`) give infinity,
/// and otherwise, with `I = 4 H^2`, `J = H I` and `V = U1 I`, the sum is
/// `(R^2 - J - 2 V : R (V - X3) - 2 S1 J : 2 Z1 Z2 H)`. Infinity is the identity.
pub open spec fn jac_add(p1: Jac, p2: Jac, a: nat, p: nat) -> Jac {
    if p1.2 == 0 {
        p2
    } else if p2.2 == 0 {
        p1
    } else {
        let x1 = p1.0 as int;
        let y1 = p1.1 as int;
        let z1 = p1.2 as int;
        let x2 = p2.0 as int;
        let y2 = p2.1 as int;
        let z2 = p2.2 as int;
        let z1z1 = z1 * z1;
        let z2z2 = z2 * z2;
        let u1 = x1 * z2z2;
        let u2 = x2 * z1z1;
        let s1 = y1 * z2 * z2z2;
        let s2 = y2 * z1 * z1z1;
        let h = u2 - u1;
        if h % (p as int) == 0 {
            if (s2 - s1) % (p as int) == 0 {
                jac_double(p1, a, p)
            } else {
                jac_infinity()
            }
        } else {
            let r = 2 * (s2 - s1);
            let i = 4 * (h * h);
            let j = h * i;
            let v = u1 * i;
            let x3 = r * r - j - 2 * v;
            (
                residue(x3, p),
                residue(r * (v - x3) - 2 * (s1 * j), p),
                residue(2 * z1 * z2 * h, p),
            )
        }
    }
}

/// `n pt` by double-and-add from the most significant bit of `n` down:
/// `n pt = 2 ((n / 2) pt) + (n mod 2) pt`.
pub open spec fn jac_mul(pt: Jac, n: nat, a: nat, p: nat) -> Jac
    decreases n,
{
    if n == 0 {
        jac_infinity()
    } else {
        let d = jac_double(jac_mul(pt, n / 2, a, p), a, p);
        if n % 2 == 1 {
            jac_add(d, pt, a, p)
        } else {
            d
        }
    }
}

/// Whether two Jacobian triples stand for the same point: both at infinity, or
/// neither, with `X1 Z2^2 = X2 Z1^2` and `Y1 Z2^3 = Y2 Z1^3`.
pub open spec fn jac_eq(p1: Jac, p2: Jac, p: nat) -> bool {
    if p1.2 == 0 || p2.2 == 0 {
        p1.2 == 0 && p2.2 == 0
    } else {
        let z1 = p1.2 as int;
        let z2 = p2.2 as int;
        &&& cong(p1.0 * (z2 * z2), p2.0 * (z1 * z1), p as int)
        &&& cong(p1.1 * ((z2 * z2) * z2), p2.1 * ((z1 * z1) * z1), p as int)
    }
}

/// The inverse that `FieldElement::inv` computes: `v^(p - 2)`.
pub open spec fn inv_mod(v: nat, p: nat) -> nat {
    pow_mod(v, (p - 2) as nat, p)
}

/// The affine form `(X / Z^2, Y / Z^3)` of a Jacobian triple, the division done with the
/// inverse `Z^(p - 2)`; `None` for the point at infinity (`Z = 0`).
pub open spec fn jac_affine(pt: Jac, p: nat) -> Option<(nat, nat)> {
    if pt.2 == 0 {
        None
    } else {
        let zi = inv_mod(pt.2, p) as int;
        Some((residue(pt.0 * (zi * zi), p), residue(pt.1 * ((zi * zi) * zi), p)))
    }
}

/// A point of a curve over the prime field `F`, in Jacobian coordinates.
#[derive(Debug, Clone, Copy)]
pub struct Point<F: Field> {
    x: FieldElement<F>,
    y: FieldElement<F>,
    z: FieldElement<F>,
}

impl<F: Field> View for Point<F> {
    type V = Jac;

    closed spec fn view(&self) -> Jac {
        (self.x@, self.y@, self.z@)
    }
}

/// The three coordinates of every point are residues below `p`.
pub proof fn lemma_point_reduced<F: Field>(pt: Point<F>)
    requires
        modulus::<F>() > 0,
    ensures
        pt@.0 < modulus::<F>(),
        pt@.1 < modulus::<F>(),
        pt@.2 < modulus::<F>(),
{
    crate::field::lemma_view_reduced(pt.x);
    crate::field::lemma_view_reduced(pt.y);
    crate::field::lemma_view_reduced(pt.z);
}

/// A point in affine form, or the point at infinity.
#[derive(Debug, Clone, Copy, PartialEq, Eq, Hash)]
pub enum PointRepresentation<F: Field> {
    Affine { x: FieldElement<F>, y: FieldElement<F> },
    Infinity,
}

impl<F: Field> Point<F> {
    proof fn lemma_wf(self)
        requires
            self.x.well_formed(),
            self.y.well_formed(),
            self.z.well_formed(),
        ensures
            params_valid::<F>(),
            self@.0 < modulus::<F>(),
            self@.1 < modulus::<F>(),
            self@.2 < modulus::<F>(),
    {
        lemma_well_formed(self.x);
        lemma_well_formed(self.y);
        lemma_well_formed(self.z);
    }

    /// The point at infinity, as `(1 : 1 : 0)`.
    pub fn infinity() -> (r: Self)
        requires
            params_valid::<F>(),
        ensures
            r@ == jac_infinity(),
    {
        Point { x: FieldElement::one(), y: FieldElement::one(), z: FieldElement::zero() }
    }

    /// The affine point `(x, y)`, as `(x : y : 1)`.
    pub fn from_affine(x: FieldElement<F>, y: FieldElement<F>) -> (r: Self)
        ensures
            r@ == (x@, y@, 1nat),
    {
        proof {
            use_type_invariant(&x);
            lemma_well_formed(x);
        }
        Point { x, y, z: FieldElement::one() }
    }

    /// Whether this is the point at infinity.
    pub fn is_infinity(&self) -> (r: bool)
        ensures
            r == (self@.2 == 0),
    {
        proof {
            use_type_invariant(&self.z);
            lemma_well_formed(self.z);
        }
        self.z.equals(&FieldElement::zero())
    }

    /// The point in affine form `(X / Z^2, Y / Z^3)`, the division done with the inverse
    /// `Z^(p - 2)`; or infinity when `Z = 0`.
    pub fn representation(&self) -> (r: PointRepresentation<F>)
        ensures
            match r {
                PointRepresentation::Infinity => jac_affine(self@, modulus::<F>()) == None::<(nat, nat)>,
                PointRepresentation::Affine { x, y } => jac_affine(self@, modulus::<F>()) == Some((x@, y@)),
            },
    {
        proof {
            use_type_invariant(&self.x);
            use_type_invariant(&self.y);
            use_type_invariant(&self.z);
            self.lemma_wf();
        }
        if self.z.equals(&FieldElement::zero()) {
            return PointRepresentation::Infinity;
        }
        let z_inv = self.z.inv();
        let z_inv_sq = z_inv.mul(&z_inv);
        let z_inv_cu = z_inv_sq.mul(&z_inv);
        let x = self.x.mul(&z_inv_sq);
        let y = self.y.mul(&z_inv_cu);
        proof {
            let p = modulus::<F>() as int;
            let zi = z_inv@ as int;
            lemma_mul_step(z_inv_sq@ as int, zi, zi, zi, zi, p);
            lemma_mul_step(z_inv_cu@ as int, z_inv_sq@ as int, zi, zi * zi, zi, p);
            lemma_mul_step(x@ as int, self.x@ as int, z_inv_sq@ as int, self.x@ as int, zi * zi, p);
            lemma_mul_step(y@ as int, self.y@ as int, z_inv_cu@ as int, self.y@ as int, (zi * zi) * zi, p);
            lemma_cong_to_mod(x@ as int, self@.0 * (zi * zi), p);
            lemma_cong_to_mod(y@ as int, self@.1 * ((zi * zi) * zi), p);
        }
        PointRepresentation::Affine { x, y }
    }

    /// The opposite point `(X : -Y : Z)`.
    pub fn neg(&self) -> (r: Self)
        ensures
            r@ == (self@.0, residue(0 - self@.1, modulus::<F>()), self@.2),
    {
        proof {
            use_type_invariant(&self.y);
            lemma_well_formed(self.y);
        }
        Point { x: self.x, y: FieldElement::zero().sub(&self.y), z: self.z }
    }

    /// `2 self` on the curve with coefficient `a`.
    #[verifier::spinoff_prover]
    pub fn double(&self, a: FieldElement<F>) -> (r: Self)
        ensures
            r@ == jac_double(self@, a@, modulus::<F>()),
    {
        proof {
            use_type_invariant(&self.x);
            use_type_invariant(&self.y);
            use_type_invariant(&self.z);
            self.lemma_wf();
        }
        if self.z.equals(&FieldElement::zero()) {
            return *self;
        }
        let ghost p = modulus::<F>() as int;
        let ghost gx = self.x@ as int;
        let ghost gy = self.y@ as int;
        let ghost gz = self.z@ as int;
        let ghost ga = a@ as int;
        let xx = self.x.mul(&self.x);
        let yy = self.y.mul(&self.y);
        let yyyy = yy.mul(&yy);
        let zz = self.z.mul(&self.z);
        let x_plus_yy = self.x.add(&yy);
        let sq = x_plus_yy.mul(&x_plus_yy);
        let sq_minus_xx = sq.sub(&xx);
        let s_half = sq_minus_xx.sub(&yyyy);
        let s = s_half.add(&s_half);
        let two_xx = xx.add(&xx);
        let three_xx = two_xx.add(&xx);
        let azz = a.mul(&zz);
        let azzzz = azz.mul(&zz);
        let m = three_xx.add(&azzzz);
        let two_s = s.add(&s);
        let mm = m.mul(&m);
        let t = mm.sub(&two_s);
        let two_yyyy = yyyy.add(&yyyy);
        let four_yyyy = two_yyyy.add(&two_yyyy);
        let eight_yyyy = four_yyyy.add(&four_yyyy);
        let s_minus_t = s.sub(&t);
        let m_s_minus_t = m.mul(&s_minus_t);
        let y3 = m_s_minus_t.sub(&eight_yyyy);
        let y_plus_z = self.y.add(&self.z);
        let ypz2 = y_plus_z.mul(&y_plus_z);
        let ypz2_minus_yy = ypz2.sub(&yy);
        let z3 = ypz2_minus_yy.sub(&zz);
        proof {
            let i_yy = gy * gy;
            let i_yyyy = i_yy * i_yy;
            let i_xx = gx * gx;
            let i_zz = gz * gz;
            lemma_mul_step(xx@ as int, gx, gx, gx, gx, p);
            lemma_mul_step(yy@ as int, gy, gy, gy, gy, p);
            lemma_mul_step(yyyy@ as int, yy@ as int, yy@ as int, i_yy, i_yy, p);
            lemma_mul_step(zz@ as int, gz, gz, gz, gz, p);
            lemma_add_step(x_plus_yy@ as int, gx, yy@ as int, gx, i_yy, p);
            let i_xpyy = gx + i_yy;
            lemma_mul_step(sq@ as int, x_plus_yy@ as int, x_plus_yy@ as int, i_xpyy, i_xpyy, p);
            lemma_sub_step(sq_minus_xx@ as int, sq@ as int, xx@ as int, i_xpyy * i_xpyy, i_xx, p);
            lemma_sub_step(
                s_half@ as int,
                sq_minus_xx@ as int,
                yyyy@ as int,
                i_xpyy * i_xpyy - i_xx,
                i_yyyy,
                p,
            );
            let i_shalf = i_xpyy * i_xpyy - i_xx - i_yyyy;
            lemma_add_step(s@ as int, s_half@ as int, s_half@ as int, i_shalf, i_shalf, p);
            let i_s = 4 * gx * i_yy;
            assert(i_shalf + i_shalf == i_s) by (nonlinear_arith)
                requires
                    i_shalf == i_xpyy * i_xpyy - i_xx - i_yyyy,
                    i_xpyy == gx + i_yy,
                    i_xx == gx * gx,
                    i_yyyy == i_yy * i_yy,
                    i_s == 4 * gx * i_yy,
            ;
            lemma_add_step(two_xx@ as int, xx@ as int, xx@ as int, i_xx, i_xx, p);
            lemma_add_step(three_xx@ as int, two_xx@ as int, xx@ as int, i_xx + i_xx, i_xx, p);
            lemma_mul_step(azz@ as int, ga, zz@ as int, ga, i_zz, p);
            lemma_mul_step(azzzz@ as int, azz@ as int, zz@ as int, ga * i_zz, i_zz, p);
            let i_m = 3 * (gx * gx) + ga * (gz * gz) * (gz * gz);
            lemma_add_step(m@ as int, three_xx@ as int, azzzz@ as int, i_xx + i_xx + i_xx, ga * i_zz * i_zz, p);
            lemma_add_step(two_s@ as int, s@ as int, s@ as int, i_s, i_s, p);
            lemma_mul_step(mm@ as int, m@ as int, m@ as int, i_m, i_m, p);
            let i_x3 = i_m * i_m - 2 * i_s;
            lemma_sub_step(t@ as int, mm@ as int, two_s@ as int, i_m * i_m, i_s + i_s, p);
            lemma_add_step(two_yyyy@ as int, yyyy@ as int, yyyy@ as int, i_yyyy, i_yyyy, p);
            lemma_add_step(four_yyyy@ as int, two_yyyy@ as int, two_yyyy@ as int, 2 * i_yyyy, 2 * i_yyyy, p);
            lemma_add_step(eight_yyyy@ as int, four_yyyy@ as int, four_yyyy@ as int, 4 * i_yyyy, 4 * i_yyyy, p);
            lemma_sub_step(s_minus_t@ as int, s@ as int, t@ as int, i_s, i_x3, p);
            lemma_mul_step(m_s_minus_t@ as int, m@ as int, s_minus_t@ as int, i_m, i_s - i_x3, p);
            lemma_sub_step(y3@ as int, m_s_minus_t@ as int, eight_yyyy@ as int, i_m * (i_s - i_x3), 8 * i_yyyy, p);
            lemma_add_step(y_plus_z@ as int, gy, gz, gy, gz, p);
            lemma_mul_step(ypz2@ as int, y_plus_z@ as int, y_plus_z@ as int, gy + gz, gy + gz, p);
            lemma_sub_step(ypz2_minus_yy@ as int, ypz2@ as int, yy@ as int, (gy + gz) * (gy + gz), i_yy, p);
            lemma_sub_step(z3@ as int, ypz2_minus_yy@ as int, zz@ as int, (gy + gz) * (gy + gz) - i_yy, i_zz, p);
            assert((gy + gz) * (gy + gz) - i_yy - i_zz == 2 * gy * gz) by (nonlinear_arith)
                requires
                    i_yy == gy * gy,
                    i_zz == gz * gz,
            ;
            lemma_cong_to_mod(t@ as int, i_x3, p);
            lemma_cong_to_mod(y3@ as int, i_m * (i_s - i_x3) - 8 * (i_yy * i_yy), p);
            lemma_cong_to_mod(z3@ as int, 2 * gy * gz, p);
        }
        Point { x: t, y: y3, z: z3 }
    }

    /// `self + other` on the curve with coefficient `a`.
    #[verifier::spinoff_prover]
    pub fn add(&self, other: &Self, a: FieldElement<F>) -> (r: Self)
        ensures
            r@ == jac_add(self@, other@, a@, modulus::<F>()),
    {
        proof {
            use_type_invariant(&self.x);
            use_type_invariant(&self.y);
            use_type_invariant(&self.z);
            use_type_invariant(&other.x);
            use_type_invariant(&other.y);
            use_type_invariant(&other.z);
            self.lemma_wf();
            other.lemma_wf();
        }
        let zero = FieldElement::zero();
        if self.z.equals(&zero) {
            return *other;
        }
        if other.z.equals(&zero) {
            return *self;
        }
        let ghost p = modulus::<F>() as int;
        let ghost x1 = self.x@ as int;
        let ghost y1 = self.y@ as int;
        let ghost z1 = self.z@ as int;
        let ghost x2 = other.x@ as int;
        let ghost y2 = other.y@ as int;
        let ghost z2 = other.z@ as int;
        let z1z1 = self.z.mul(&self.z);
        let z2z2 = other.z.mul(&other.z);
        let u1 = self.x.mul(&z2z2);
        let u2 = other.x.mul(&z1z1);
        let y1z2 = self.y.mul(&other.z);
        let s1 = y1z2.mul(&z2z2);
        let y2z1 = other.y.mul(&self.z);
        let s2 = y2z1.mul(&z1z1);
        let h = u2.sub(&u1);
        let r_half = s2.sub(&s1);
        let ghost i_u1 = x1 * (z2 * z2);
        let ghost i_u2 = x2 * (z1 * z1);
        let ghost i_s1 = y1 * z2 * (z2 * z2);
        let ghost i_s2 = y2 * z1 * (z1 * z1);
        let ghost i_h = i_u2 - i_u1;
        proof {
            lemma_mul_step(z1z1@ as int, z1, z1, z1, z1, p);
            lemma_mul_step(z2z2@ as int, z2, z2, z2, z2, p);
            lemma_mul_step(u1@ as int, x1, z2z2@ as int, x1, z2 * z2, p);
            lemma_mul_step(u2@ as int, x2, z1z1@ as int, x2, z1 * z1, p);
            lemma_mul_step(y1z2@ as int, y1, z2, y1, z2, p);
            lemma_mul_step(s1@ as int, y1z2@ as int, z2z2@ as int, y1 * z2, z2 * z2, p);
            lemma_mul_step(y2z1@ as int, y2, z1, y2, z1, p);
            lemma_mul_step(s2@ as int, y2z1@ as int, z1z1@ as int, y2 * z1, z1 * z1, p);
            lemma_sub_step(h@ as int, u2@ as int, u1@ as int, i_u2, i_u1, p);
            lemma_sub_step(r_half@ as int, s2@ as int, s1@ as int, i_s2, i_s1, p);
            lemma_cong_to_mod(h@ as int, i_h, p);
            lemma_cong_to_mod(r_half@ as int, i_s2 - i_s1, p);
        }
        if h.equals(&zero) {
            if r_half.equals(&zero) {
                return self.double(a);
            } else {
                return Self::infinity();
            }
        }
        let two_h = h.add(&h);
        let i = two_h.mul(&two_h);
        let j = h.mul(&i);
        let r = r_half.add(&r_half);
        let v = u1.mul(&i);
        let two_v = v.add(&v);
        let rr = r.mul(&r);
        let rr_j = rr.sub(&j);
        let x3 = rr_j.sub(&two_v);
        let s1_j = s1.mul(&j);
        let two_s1_j = s1_j.add(&s1_j);
        let v_x3 = v.sub(&x3);
        let r_v_x3 = r.mul(&v_x3);
        let y3 = r_v_x3.sub(&two_s1_j);
        let z1_plus_z2 = self.z.add(&other.z);
        let zsq = z1_plus_z2.mul(&z1_plus_z2);
        let zsq1 = zsq.sub(&z1z1);
        let zsq2 = zsq1.sub(&z2z2);
        let z3 = zsq2.mul(&h);
        proof {
            let i_r = 2 * (i_s2 - i_s1);
            let i_i = 4 * (i_h * i_h);
            let i_j = i_h * i_i;
            let i_v = i_u1 * i_i;
            let i_x3 = i_r * i_r - i_j - 2 * i_v;
            lemma_add_step(two_h@ as int, h@ as int, h@ as int, i_h, i_h, p);
            lemma_mul_step(i@ as int, two_h@ as int, two_h@ as int, i_h + i_h, i_h + i_h, p);
            assert((i_h + i_h) * (i_h + i_h) == i_i) by (nonlinear_arith)
                requires
                    i_i == 4 * (i_h * i_h),
            ;
            lemma_mul_step(j@ as int, h@ as int, i@ as int, i_h, i_i, p);
            lemma_add_step(r@ as int, r_half@ as int, r_half@ as int, i_s2 - i_s1, i_s2 - i_s1, p);
            lemma_mul_step(v@ as int, u1@ as int, i@ as int, i_u1, i_i, p);
            lemma_add_step(two_v@ as int, v@ as int, v@ as int, i_v, i_v, p);
            lemma_mul_step(rr@ as int, r@ as int, r@ as int, i_r, i_r, p);
            lemma_sub_step(rr_j@ as int, rr@ as int, j@ as int, i_r * i_r, i_j, p);
            lemma_sub_step(x3@ as int, rr_j@ as int, two_v@ as int, i_r * i_r - i_j, i_v + i_v, p);
            lemma_mul_step(s1_j@ as int, s1@ as int, j@ as int, i_s1, i_j, p);
            lemma_add_step(two_s1_j@ as int, s1_j@ as int, s1_j@ as int, i_s1 * i_j, i_s1 * i_j, p);
            lemma_sub_step(v_x3@ as int, v@ as int, x3@ as int, i_v, i_x3, p);
            lemma_mul_step(r_v_x3@ as int, r@ as int, v_x3@ as int, i_r, i_v - i_x3, p);
            lemma_sub_step(y3@ as int, r_v_x3@ as int, two_s1_j@ as int, i_r * (i_v - i_x3), i_s1 * i_j + i_s1 * i_j, p);
            lemma_add_step(z1_plus_z2@ as int, z1, z2, z1, z2, p);
            lemma_mul_step(zsq@ as int, z1_plus_z2@ as int, z1_plus_z2@ as int, z1 + z2, z1 + z2, p);
            lemma_sub_step(zsq1@ as int, zsq@ as int, z1z1@ as int, (z1 + z2) * (z1 + z2), z1 * z1, p);
            lemma_sub_step(zsq2@ as int, zsq1@ as int, z2z2@ as int, (z1 + z2) * (z1 + z2) - z1 * z1, z2 * z2, p);
            lemma_mul_step(z3@ as int, zsq2@ as int, h@ as int, (z1 + z2) * (z1 + z2) - z1 * z1 - z2 * z2, i_h, p);
            assert(((z1 + z2) * (z1 + z2) - z1 * z1 - z2 * z2) * i_h == 2 * z1 * z2 * i_h) by (nonlinear_arith);
            lemma_cong_to_mod(x3@ as int, i_x3, p);
            lemma_cong_to_mod(y3@ as int, i_r * (i_v - i_x3) - 2 * (i_s1 * i_j), p);
            lemma_cong_to_mod(z3@ as int, 2 * z1 * z2 * i_h, p);
        }
        Point { x: x3, y: y3, z: z3 }
    }

    /// `n self`, where `n` is the value of `scalar`, by double-and-add over all the bits
    /// of the scalar's limbs, the most significant first.
    pub fn mul<G: Field>(&self, scalar: Scalar<G>, a: FieldElement<F>) -> (r: Self)
        ensures
            r@ == jac_mul(self@, scalar@, a@, modulus::<F>()),
    {
        proof {
            use_type_invariant(&self.x);
            use_type_invariant(&self.y);
            use_type_invariant(&self.z);
            self.lemma_wf();
        }
        let ghost pt = self@;
        let ghost av = a@;
        let ghost p = modulus::<F>();
        let ghost e = scalar@;
        let limbs = scalar.0;
        let n = limbs.len();
        let mut result = Self::infinity();
        proof {
            limbs.lemma_len();
            lemma_limbs_nat_bound(limbs@);
            lemma_word_pow_is_pow2(n as nat);
            lemma_pow2_pos((64 * n) as nat);
            vstd::arithmetic::div_mod::lemma_basic_div(e as int, pow2((64 * n) as nat) as int);
        }
        let mut i = n;
        while i > 0
            invariant
                i <= n,
                n == limb_count::<G>(),
                limbs@.len() == n,
                e == limbs_nat(limbs@),
                pt == self@,
                av == a@,
                p == modulus::<F>(),
                params_valid::<F>(),
                result@ == jac_mul(pt, e / pow2((64 * i) as nat), av, p),
            decreases i,
        {
            i = i - 1;
            let limb = limbs.get(i);
            let mut bit: u32 = 64;
            while bit > 0
                invariant
                    bit <= 64,
                    i < n,
                    n == limb_count::<G>(),
                    limbs@.len() == n,
                    e == limbs_nat(limbs@),
                    limb == limbs@[i as int],
                    pt == self@,
                    av == a@,
                    p == modulus::<F>(),
                    params_valid::<F>(),
                    result@ == jac_mul(pt, e / pow2((64 * i + bit) as nat), av, p),
                decreases bit,
            {
                bit = bit - 1;
                let ghost g = (64 * i + bit) as nat;
                let ghost q = e / pow2(g);
                let ghost h = e / pow2(g + 1);
                proof {
                    lemma_shift_step(e, g);
                    lemma_limb_bit(limbs@, i as int, bit);
                    lemma_pow2_pos(g);
                    lemma_pow2_pos(g + 1);
                    assert(g + 1 == (64 * i + bit + 1) as nat);
                    let b = q % 2;
                    assert(q / 2 == h) by (nonlinear_arith)
                        requires
                            q == 2 * h + b,
                            0 <= b < 2,
                            h >= 0,
                    ;
                }
                let ghost before = result@;
                result = result.double(a);
                if (limb >> bit) & 1 == 1 {
                    result = result.add(self, a);
                }
                proof {
                    if q == 0 {
                        assert(h == 0);
                    } else {
                        assert(jac_mul(pt, q, av, p) == {
                            let d = jac_double(jac_mul(pt, h, av, p), av, p);
                            if q % 2 == 1 { jac_add(d, pt, av, p) } else { d }
                        });
                    }
                    assert(result@ == jac_mul(pt, q, av, p));
                }
            }
        }
        proof {
            vstd::arithmetic::power::lemma_pow0(2);
            assert(pow2((64 * i) as nat) == 1);
            assert(e / 1 == e);
        }
        result
    }

    /// Whether the two triples stand for the same point.
    fn same_point(&self, other: &Self) -> (r: bool)
        ensures
            r == jac_eq(self@, other@, modulus::<F>()),
    {
        proof {
            use_type_invariant(&self.x);
            use_type_invariant(&self.y);
            use_type_invariant(&self.z);
            use_type_invariant(&other.x);
            use_type_invariant(&other.y);
            use_type_invariant(&other.z);
            self.lemma_wf();
            other.lemma_wf();
        }
        let zero = FieldElement::zero();
        let z1_zero = self.z.equals(&zero);
        let z2_zero = other.z.equals(&zero);
        if z1_zero || z2_zero {
            return z1_zero && z2_zero;
        }
        let z1_sq = self.z.mul(&self.z);
        let z2_sq = other.z.mul(&other.z);
        let z1_cu = z1_sq.mul(&self.z);
        let z2_cu = z2_sq.mul(&other.z);
        let lx = self.x.mul(&z2_sq);
        let rx = other.x.mul(&z1_sq);
        let ly = self.y.mul(&z2_cu);
        let ry = other.y.mul(&z1_cu);
        proof {
            let p = modulus::<F>() as int;
            let x1 = self.x@ as int;
            let y1 = self.y@ as int;
            let z1 = self.z@ as int;
            let x2 = other.x@ as int;
            let y2 = other.y@ as int;
            let z2 = other.z@ as int;
            lemma_mul_step(z1_sq@ as int, z1, z1, z1, z1, p);
            lemma_mul_step(z2_sq@ as int, z2, z2, z2, z2, p);
            lemma_mul_step(z1_cu@ as int, z1_sq@ as int, z1, z1 * z1, z1, p);
            lemma_mul_step(z2_cu@ as int, z2_sq@ as int, z2, z2 * z2, z2, p);
            lemma_mul_step(lx@ as int, x1, z2_sq@ as int, x1, z2 * z2, p);
            lemma_mul_step(rx@ as int, x2, z1_sq@ as int, x2, z1 * z1, p);
            lemma_mul_step(ly@ as int, y1, z2_cu@ as int, y1, (z2 * z2) * z2, p);
            lemma_mul_step(ry@ as int, y2, z1_cu@ as int, y2, (z1 * z1) * z1, p);
            lemma_cong_to_mod(lx@ as int, x1 * (z2 * z2), p);
            lemma_cong_to_mod(rx@ as int, x2 * (z1 * z1), p);
            lemma_cong_to_mod(ly@ as int, y1 * ((z2 * z2) * z2), p);
            lemma_cong_to_mod(ry@ as int, y2 * ((z1 * z1) * z1), p);
        }
        lx.equals(&rx) && ly.equals(&ry)
    }
}

impl<F: Field> PartialEq for Point<F> {
    fn eq(&self, other: &Self) -> (r: bool) {
        self.same_point(other)
    }
}

impl<F: Field> PartialEqSpecImpl for Point<F> {
    open spec fn obeys_eq_spec() -> bool {
        true
    }

    open spec fn eq_spec(&self, other: &Self) -> bool {
        jac_eq(self@, other@, modulus::<F>())
    }
}

impl<F: Field> Eq for Point<F> {

}

impl<F: Field> core::hash::Hash for Point<F> {
    /// Hashes the normalised representation, so that points equal under `==` hash alike:
    /// a tag, then the affine coordinates.
    fn hash<H: core::hash::Hasher>(&self, state: &mut H) {
        match self.representation() {
            PointRepresentation::Infinity => {
                hash_into(&0u8, state);
            },
            PointRepresentation::Affine { x, y } => {
                hash_into(&1u8, state);
                hash_into(&x, state);
                hash_into(&y, state);
            },
        }
    }
}

/// An integer scalar, stored in the limbs of the field `F` (usually the group order).
#[derive(Debug, Clone, Copy, PartialEq, Eq, PartialOrd, Ord, Hash)]
pub struct Scalar<F: Field>(F::Limbs);

impl<F: Field> View for Scalar<F> {
    type V = nat;

    /// The number the limbs stand for.
    closed spec fn view(&self) -> nat {
        limbs_nat(self.0@)
    }
}

impl<F: Field> Scalar<F> {
    /// The scalar whose little-endian limbs are `limbs`.
    pub fn from_limbs(limbs: F::Limbs) -> (r: Self)
        ensures
            r@ == limbs_nat(limbs@),
    {
        Scalar(limbs)
    }

    /// The scalar `x` (there must be a limb to hold it).
    pub fn from_u64(x: u64) -> (r: Self)
        requires
            limb_count::<F>() >= 1,
        ensures
            r@ == x,
    {
        let mut limbs = <F::Limbs as Limbs>::zeroed();
        proof {
            limbs.lemma_len();
        }
        limbs.set(0, x);
        proof {
            lemma_limbs_nat_single(limbs@);
        }
        Scalar(limbs)
    }

    /// The scalar `n`, truncated to 64 bits when there is a single limb.
    pub fn from_u128(n: u128) -> (r: Self)
        requires
            limb_count::<F>() >= 1,
        ensures
            r@ == (if limb_count::<F>() >= 2 {
                n as nat
            } else {
                (n as nat) % 0x1_0000_0000_0000_0000
            }),
    {
        let mut limbs = <F::Limbs as Limbs>::zeroed();
        proof {
            limbs.lemma_len();
        }
        let lo = n as u64;
        let hi = (n >> 64u32) as u64;
        proof {
            assert(lo as nat == (n as nat) % 0x1_0000_0000_0000_0000 && hi as nat == (n as nat) / 0x1_0000_0000_0000_0000) by (bit_vector)
                requires
                    lo == n as u64,
                    hi == (n >> 64u32) as u64,
            ;
        }
        limbs.set(0, lo);
        if limbs.len() >= 2 {
            limbs.set(1, hi);
            proof {
                crate::limbs::lemma_limbs_nat_first(limbs@);
                let rest = limbs@.skip(1);
                crate::limbs::lemma_limbs_nat_first(rest);
                assert(rest.skip(1) =~= Seq::new((rest.len() - 1) as nat, |k: int| 0u64));
                crate::limbs::lemma_limbs_nat_zeros((rest.len() - 1) as nat);
                vstd::arithmetic::div_mod::lemma_fundamental_div_mod(n as int, 0x1_0000_0000_0000_0000);
            }
        } else {
            proof {
                lemma_limbs_nat_single(limbs@);
            }
        }
        Scalar(limbs)
    }
}

impl<F: Field<Limbs = [u64; 4]>> Scalar<F> {
    /// The scalar whose value is the little-endian number `bytes`.
    pub fn from_bytes(bytes: [u8; 32]) -> (r: Self)
        ensures
            r@ == bytes_nat(bytes@),
    {
        let limbs = [
            u64_from_le_bytes(&bytes, 0),
            u64_from_le_bytes(&bytes, 8),
            u64_from_le_bytes(&bytes, 16),
            u64_from_le_bytes(&bytes, 24),
        ];
        proof {
            lemma_words_of_bytes(bytes@, limbs@);
        }
        Scalar(limbs)
    }
}

/// The `j`-invariant `1728 * 4 a^3 / (4 a^3 + 27 b^2)` of `y^2 = x^3 + a x + b`, the
/// division done with the inverse `v^(p - 2)`.
pub open spec fn weierstrass_j(a: nat, b: nat, p: nat) -> nat {
    let f = 4 * a * a * a;
    let d = (f + 27 * b * b) % p;
    (1728 * f * inv_mod(d, p)) % p
}

/// The point that `lift` finds above `x`: `y` is the candidate square root
/// `rhs^e` of `rhs = x^3 + a x + b`, and the point `(x : y : 1)` is returned when
/// `y^2 = rhs`.
pub open spec fn weierstrass_lift(x: nat, a: nat, b: nat, e: nat, p: nat) -> Option<Jac> {
    let rhs = (x * x * x + a * x + b) % p;
    let y = pow_mod(rhs, e, p);
    if (y * y) % p == rhs {
        Some((x, y, 1nat))
    } else {
        None
    }
}

/// The `j`-invariant of the curve with coefficients `a` and `b`.
pub fn weierstrass_j_invariant<F: Field>(a: FieldElement<F>, b: FieldElement<F>) -> (r: FieldElement<F>)
    ensures
        r@ == weierstrass_j(a@, b@, modulus::<F>()),
{
    proof {
        use_type_invariant(&a);
        use_type_invariant(&b);
        lemma_well_formed(a);
        lemma_well_formed(b);
    }
    let four = FieldElement::from_u64(4);
    let four_a = four.mul(&a);
    let four_a_a = four_a.mul(&a);
    let four_a_cubed = four_a_a.mul(&a);
    let twenty_seven = FieldElement::from_u64(27);
    let tb = twenty_seven.mul(&b);
    let tbb = tb.mul(&b);
    let discriminant = four_a_cubed.add(&tbb);
    let c1728 = FieldElement::from_u64(1728);
    let num = c1728.mul(&four_a_cubed);
    let d_inv = discriminant.inv();
    let r = num.mul(&d_inv);
    proof {
        let p = modulus::<F>() as int;
        let ga = a@ as int;
        let gb = b@ as int;
        lemma_cong_mod(4, p);
        lemma_cong_mod(27, p);
        lemma_cong_mod(1728, p);
        lemma_mul_step(four_a@ as int, four@ as int, ga, 4, ga, p);
        lemma_mul_step(four_a_a@ as int, four_a@ as int, ga, 4 * ga, ga, p);
        lemma_mul_step(four_a_cubed@ as int, four_a_a@ as int, ga, 4 * ga * ga, ga, p);
        lemma_mul_step(tb@ as int, twenty_seven@ as int, gb, 27, gb, p);
        lemma_mul_step(tbb@ as int, tb@ as int, gb, 27 * gb, gb, p);
        lemma_add_step(discriminant@ as int, four_a_cubed@ as int, tbb@ as int, 4 * ga * ga * ga, 27 * gb * gb, p);
        lemma_cong_to_mod(discriminant@ as int, 4 * ga * ga * ga + 27 * gb * gb, p);
        lemma_mul_step(num@ as int, c1728@ as int, four_a_cubed@ as int, 1728, 4 * ga * ga * ga, p);
        lemma_mul_step(r@ as int, num@ as int, d_inv@ as int, 1728 * (4 * ga * ga * ga), d_inv@ as int, p);
        assert(1728 * (4 * ga * ga * ga) == 1728 * (4 * a@ * a@ * a@));
        lemma_cong_to_mod(r@ as int, 1728 * (4 * ga * ga * ga) * (d_inv@ as int), p);
    }
    r
}

/// The point `(x, y)` of the curve with coefficients `a` and `b`, where `y` is the
/// square root that `sqrt` finds; `None` when `x^3 + a x + b` is not a square.
pub fn weierstrass_lift_x<F: Sqrt3Mod4>(x: FieldElement<F>, a: FieldElement<F>, b: FieldElement<F>) -> (r: Option<Point<F>>)
    ensures
        (match r {
            Some(pt) => Some(pt@),
            None => None::<Jac>,
        }) == weierstrass_lift(x@, a@, b@, sqrt_exponent::<F>(), modulus::<F>()),
{
    proof {
        use_type_invariant(&x);
        use_type_invariant(&a);
        use_type_invariant(&b);
        lemma_well_formed(x);
        lemma_well_formed(a);
        lemma_well_formed(b);
    }
    let xx = x.mul(&x);
    let xxx = xx.mul(&x);
    let ax = a.mul(&x);
    let t = xxx.add(&ax);
    let rhs = t.add(&b);
    proof {
        let p = modulus::<F>() as int;
        let gx = x@ as int;
        lemma_mul_step(xx@ as int, gx, gx, gx, gx, p);
        lemma_mul_step(xxx@ as int, xx@ as int, gx, gx * gx, gx, p);
        lemma_mul_step(ax@ as int, a@ as int, gx, a@ as int, gx, p);
        lemma_add_step(t@ as int, xxx@ as int, ax@ as int, gx * gx * gx, (a@ as int) * gx, p);
        lemma_add_step(rhs@ as int, t@ as int, b@ as int, gx * gx * gx + (a@ as int) * gx, b@ as int, p);
        lemma_cong_to_mod(rhs@ as int, gx * gx * gx + (a@ as int) * gx + (b@ as int), p);
    }
    let y = rhs.sqrt();
    if y.mul(&y).equals(&rhs) {
        Some(Point::from_affine(x, y))
    } else {
        None
    }
}

/// An elliptic curve `y^2 = x^3 + a x + b` over the prime field `F`, given by its
/// coefficients.
pub trait Curve<F: Field>: Copy + Clone + core::fmt::Debug + PartialEq + Eq {
    /// The value of the coefficient `a`, in `0..p`. A curve verified with Verus defines it;
    /// the default, an unspecified number, serves impls written outside Verus.
    open spec fn spec_a(&self) -> nat {
        arbitrary()
    }

    /// The value of the coefficient `b`, in `0..p`, defined as `spec_a` is.
    open spec fn spec_b(&self) -> nat {
        arbitrary()
    }

    /// The coefficient `a`.
    fn a(&self) -> (r: FieldElement<F>)
        ensures
            r@ == self.spec_a(),
    ;

    /// The coefficient `b`.
    fn b(&self) -> (r: FieldElement<F>)
        ensures
            r@ == self.spec_b(),
    ;

    /// `p1 + p2` on this curve.
    fn add(&self, p1: Point<F>, p2: Point<F>) -> (r: Point<F>)
        ensures
            r@ == jac_add(p1@, p2@, self.spec_a(), modulus::<F>()),
    {
        let a = self.a();
        proof {
            use_type_invariant(&a);
            lemma_well_formed(a);
        }
        p1.add(&p2, a)
    }

    /// `n point` on this curve, where `n` is the value of `scalar`.
    fn multiply<G: Field>(&self, scalar: Scalar<G>, point: Point<F>) -> (r: Point<F>)
        ensures
            r@ == jac_mul(point@, scalar@, self.spec_a(), modulus::<F>()),
    {
        let a = self.a();
        proof {
            use_type_invariant(&a);
            lemma_well_formed(a);
        }
        point.mul(scalar, a)
    }

    /// The `j`-invariant of this curve.
    fn j_invariant(&self) -> (r: FieldElement<F>)
        ensures
            r@ == weierstrass_j(self.spec_a(), self.spec_b(), modulus::<F>()),
    {
        let a = self.a();
        let b = self.b();
        proof {
            use_type_invariant(&a);
            use_type_invariant(&b);
            lemma_well_formed(a);
            lemma_well_formed(b);
        }
        weierstrass_j_invariant(a, b)
    }

    /// A point of this curve with abscissa `x`, or `None` when there is none.
    fn lift(&self, x: FieldElement<F>) -> (r: Option<Point<F>>) where F: Sqrt3Mod4
        ensures
            (match r {
                Some(pt) => Some(pt@),
                None => None::<Jac>,
            }) == weierstrass_lift(x@, self.spec_a(), self.spec_b(), sqrt_exponent::<F>(), modulus::<F>()),
    {
        let a = self.a();
        let b = self.b();
        proof {
            use_type_invariant(&a);
            use_type_invariant(&b);
            lemma_well_formed(a);
            lemma_well_formed(b);
        }
        weierstrass_lift_x(x, a, b)
    }
}

/// The abscissa of the secp256k1 generator.
pub open spec fn secp256k1_gx() -> nat {
    0x79BE667EF9DCBBAC55A06295CE870B07029BFCDB2DCE28D959F2815B16F81798nat
}

/// The ordinate of the secp256k1 generator.
pub open spec fn secp256k1_gy() -> nat {
    0x483ADA7726A3C4655DA4FBFC0E1108A8FD17B448A68554199C47D08FFB10D4B8nat
}

#[verifier::spinoff_prover]
proof fn lemma_generator_limbs()
    ensures
        limbs_nat(seq![0x59F2815B16F81798u64, 0x029BFCDB2DCE28D9u64, 0x55A06295CE870B07u64, 0x79BE667EF9DCBBACu64])
            == secp256k1_gx(),
        limbs_nat(seq![0x9C47D08FFB10D4B8u64, 0xFD17B448A6855419u64, 0x5DA4FBFC0E1108A8u64, 0x483ADA7726A3C465u64])
            == secp256k1_gy(),
        secp256k1_gx() < modulus::<Secp256k1FieldOrder>(),
        secp256k1_gy() < modulus::<Secp256k1FieldOrder>(),
{
    lemma_limbs_nat_4(0x59F2815B16F81798u64, 0x029BFCDB2DCE28D9u64, 0x55A06295CE870B07u64, 0x79BE667EF9DCBBACu64);
    lemma_limbs_nat_4(0x9C47D08FFB10D4B8u64, 0xFD17B448A6855419u64, 0x5DA4FBFC0E1108A8u64, 0x483ADA7726A3C465u64);
    lemma_secp256k1_field_modulus_value();
}

/// The curve secp256k1, `y^2 = x^3 + 7` over its base field.
#[derive(Debug, Clone, Copy, PartialEq, Eq, Hash)]
pub struct Secp256k1Curve;

impl Secp256k1Curve {
    /// The standard generator `G` of secp256k1.
    pub fn generator() -> (r: Point<Secp256k1FieldOrder>)
        ensures
            r@ == (secp256k1_gx(), secp256k1_gy(), 1nat),
    {
        proof {
            lemma_secp256k1_field_params();
            lemma_generator_limbs();
        }
        let gx: [u64; 4] = [0x59F2815B16F81798, 0x029BFCDB2DCE28D9, 0x55A06295CE870B07, 0x79BE667EF9DCBBAC];
        let gy: [u64; 4] = [0x9C47D08FFB10D4B8, 0xFD17B448A6855419, 0x5DA4FBFC0E1108A8, 0x483ADA7726A3C465];
        proof {
            assert(gx@ =~= seq![0x59F2815B16F81798u64, 0x029BFCDB2DCE28D9u64, 0x55A06295CE870B07u64, 0x79BE667EF9DCBBACu64]);
            assert(gy@ =~= seq![0x9C47D08FFB10D4B8u64, 0xFD17B448A6855419u64, 0x5DA4FBFC0E1108A8u64, 0x483ADA7726A3C465u64]);
            vstd::arithmetic::div_mod::lemma_small_mod(secp256k1_gx(), modulus::<Secp256k1FieldOrder>());
            vstd::arithmetic::div_mod::lemma_small_mod(secp256k1_gy(), modulus::<Secp256k1FieldOrder>());
        }
        Point::from_affine(FieldElement::from_limbs_unchecked(gx), FieldElement::from_limbs_unchecked(gy))
    }

    /// `n G`, where `n` is the value of `scalar`.
    pub fn point_from_scalar(scalar: Scalar<Secp256k1GroupOrder>) -> (r: Point<Secp256k1FieldOrder>)
        ensures
            r@ == jac_mul(
                (secp256k1_gx(), secp256k1_gy(), 1nat),
                scalar@,
                0,
                modulus::<Secp256k1FieldOrder>(),
            ),
    {
        let g = Self::generator();
        g.mul(scalar, Secp256k1Curve.a())
    }
}

impl Curve<Secp256k1FieldOrder> for Secp256k1Curve {
    open spec fn spec_a(&self) -> nat {
        0
    }

    open spec fn spec_b(&self) -> nat {
        7
    }

    fn a(&self) -> (r: FieldElement<Secp256k1FieldOrder>)
        ensures
            r@ == 0,
    {
        proof {
            lemma_secp256k1_field_params();
        }
        FieldElement::zero()
    }

    fn b(&self) -> (r: FieldElement<Secp256k1FieldOrder>)
        ensures
            r@ == 7,
    {
        proof {
            lemma_secp256k1_field_params();
            lemma_secp256k1_field_modulus_value();
        }
        let seven: [u64; 4] = [7, 0, 0, 0];
        proof {
            lemma_limbs_nat_single(seven@);
            vstd::arithmetic::div_mod::lemma_small_mod(7, modulus::<Secp256k1FieldOrder>());
        }
        FieldElement::from_limbs_unchecked(seven)
    }
}

/// The generator of secp256k1 lies on `y^2 = x^3 + 7`.
#[verifier::spinoff_prover]
#[verifier::rlimit(30)]
pub proof fn lemma_secp256k1_generator_on_curve()
    ensures
        (secp256k1_gy() * secp256k1_gy()) % modulus::<Secp256k1FieldOrder>() == (secp256k1_gx()
            * secp256k1_gx() * secp256k1_gx() + 7) % modulus::<Secp256k1FieldOrder>(),
{
    lemma_secp256k1_field_modulus_value();
    assert((0x483ADA7726A3C4655DA4FBFC0E1108A8FD17B448A68554199C47D08FFB10D4B8nat * 0x483ADA7726A3C4655DA4FBFC0E1108A8FD17B448A68554199C47D08FFB10D4B8nat) % 0xFFFFFFFFFFFFFFFFFFFFFFFFFFFFFFFFFFFFFFFFFFFFFFFFFFFFFFFEFFFFFC2Fnat == (0x79BE667EF9DCBBAC55A06295CE870B07029BFCDB2DCE28D959F2815B16F81798nat * 0x79BE667EF9DCBBAC55A06295CE870B07029BFCDB2DCE28D959F2815B16F81798nat * 0x79BE667EF9DCBBAC55A06295CE870B07029BFCDB2DCE28D959F2815B16F81798nat + 7) % 0xFFFFFFFFFFFFFFFFFFFFFFFFFFFFFFFFFFFFFFFFFFFFFFFFFFFFFFFEFFFFFC2Fnat);
}

} // verus!

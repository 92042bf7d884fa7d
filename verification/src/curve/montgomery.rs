//! Montgomery curves `b y^2 = x^3 + a x^2 + x`, with x-only arithmetic on points held
//! as `(X : Z)`, which stand for the abscissa `X / Z`; `Z = 0` is the point at infinity.
use vstd::prelude::*;

use super::{inv_mod, residue, Scalar};
use crate::extension::{
    fp2_add, fp2_inv, fp2_mul, fp2_sqrt, fp2_sub, lemma_well_formed_ext, ExtensionField,
    ExtensionFieldElement, Fp2, NonResidueMinusOne,
};
use crate::field::{
    hash_into, lemma_well_formed, limb_count, modulus, params_valid, sqrt_exponent, Field, FieldElement,
    Sqrt3Mod4,
};
use crate::fields::{lemma_csidh512_field_params, Csidh512FieldOrder};
use crate::limbs::{
    lemma_limb_bit, lemma_limbs_nat_bound, lemma_shift_step, lemma_word_pow_is_pow2, limbs_nat,
    Limbs,
};
use crate::modular::{
    cong, lemma_add_step, lemma_cong_mod, lemma_cong_to_mod, lemma_mul_step, lemma_sub_step,
    pow_mod,
};
use vstd::arithmetic::power2::{lemma_pow2_pos, pow2};
use vstd::std_specs::cmp::PartialEqSpecImpl;

verus! {

/// Projective x-coordinates `(X, Z)` as residues.
pub type Xz = (nat, nat);

/// The representative `(1 : 0)` of the point at infinity.
pub open spec fn xz_infinity() -> Xz {
    (1, 0)
}

/// x-only doubling: `2 (X : Z) = ((X + Z)^2 (X - Z)^2 : 4 X Z ((X - Z)^2 + a24 * 4 X Z))`.
pub open spec fn xz_double(pt: Xz, a24: nat, p: nat) -> Xz {
    let x = pt.0 as int;
    let z = pt.1 as int;
    let s = (x + z) * (x + z);
    let d = (x - z) * (x - z);
    let e = 4 * x * z;
    (residue(s * d, p), residue(e * (d + a24 * e), p))
}

/// x-only differential addition of `P = (X1 : Z1)` and `Q = (X2 : Z2)` given
/// `P - Q = (Xd : Zd)`:
/// `(Zd (2 (X1 X2 - Z1 Z2))^2 : Xd (2 (X2 Z1 - X1 Z2))^2)`.
pub open spec fn xz_add(pt: Xz, other: Xz, diff: Xz, p: nat) -> Xz {
    let x1 = pt.0 as int;
    let z1 = pt.1 as int;
    let x2 = other.0 as int;
    let z2 = other.1 as int;
    let u = 2 * (x1 * x2 - z1 * z2);
    let w = 2 * (x2 * z1 - x1 * z2);
    (residue(diff.1 * u * u, p), residue(diff.0 * w * w, p))
}

/// The state `(R0, R1)` of the Montgomery ladder on `base` after the `k` bits of `q`,
/// the most significant first, starting from `(infinity, base)`: a zero bit makes it
/// `(2 R0, R0 + R1)`, a one bit `(R1 + R0, 2 R1)`.
pub open spec fn xz_ladder(base: Xz, q: nat, k: nat, a24: nat, p: nat) -> (Xz, Xz)
    decreases k,
{
    if k == 0 {
        (xz_infinity(), base)
    } else {
        let prev = xz_ladder(base, q / 2, (k - 1) as nat, a24, p);
        if q % 2 == 1 {
            (xz_add(prev.1, prev.0, base, p), xz_double(prev.1, a24, p))
        } else {
            (xz_double(prev.0, a24, p), xz_add(prev.0, prev.1, base, p))
        }
    }
}

/// `n base` by the ladder over `k` bits of `n`; infinity for the point at infinity.
pub open spec fn xz_mult(base: Xz, n: nat, k: nat, a24: nat, p: nat) -> Xz {
    if base.1 == 0 {
        xz_infinity()
    } else {
        xz_ladder(base, n, k, a24, p).0
    }
}

/// The abscissa `X / Z` of an `(X : Z)` pair, the division done with the inverse
/// `Z^(p - 2)`; `None` for the point at infinity (`Z = 0`).
pub open spec fn xz_affine(pt: Xz, p: nat) -> Option<nat> {
    if pt.1 == 0 {
        None
    } else {
        Some((pt.0 * inv_mod(pt.1, p)) % p)
    }
}

/// Whether two pairs stand for the same abscissa: both at infinity, or neither,
/// with `X1 Z2 = X2 Z1`.
pub open spec fn xz_eq(p1: Xz, p2: Xz, p: nat) -> bool {
    if p1.1 == 0 || p2.1 == 0 {
        p1.1 == 0 && p2.1 == 0
    } else {
        cong((p1.0 * p2.1) as int, (p2.0 * p1.1) as int, p as int)
    }
}

/// `(a + 2) / 4`, the division done with the inverse `4^(p - 2)`.
pub open spec fn montgomery_a24_of(a: nat, p: nat) -> nat {
    ((a + 2) * inv_mod(4nat % p, p)) % p
}

/// The `j`-invariant `256 (a^2 - 3)^3 / (a^2 - 4)`, the division done with the
/// inverse `v^(p - 2)`.
pub open spec fn montgomery_j(a: nat, p: nat) -> nat {
    let t = a * a - 3;
    let d = residue(a * a - 4, p);
    residue(256 * t * t * t * inv_mod(d, p), p)
}

/// Whether `is_on_curve` accepts `x`: with `y2 = x (x^2 + a x + 1) / b`, the candidate
/// square root `y = y2^e` squares to `y2`.
pub open spec fn montgomery_on_curve(x: nat, a: nat, b: nat, e: nat, p: nat) -> bool {
    let rhs = x * (x * x + a * x + 1);
    let y2 = (rhs * inv_mod(b, p)) % p;
    let y = pow_mod(y2, e, p);
    (y * y) % p == y2
}

/// A point of a Montgomery curve over `F`, as `(X : Z)`.
#[derive(Debug, Clone, Copy)]
pub struct MontgomeryPoint<F: Field> {
    x: FieldElement<F>,
    z: FieldElement<F>,
}

impl<F: Field> View for MontgomeryPoint<F> {
    type V = Xz;

    closed spec fn view(&self) -> Xz {
        (self.x@, self.z@)
    }
}

/// Both coordinates of every point are residues below `p`.
pub proof fn lemma_montgomery_point_reduced<F: Field>(pt: MontgomeryPoint<F>)
    requires
        modulus::<F>() > 0,
    ensures
        pt@.0 < modulus::<F>(),
        pt@.1 < modulus::<F>(),
{
    crate::field::lemma_view_reduced(pt.x);
    crate::field::lemma_view_reduced(pt.z);
}

/// The abscissa of a point, or the point at infinity.
#[derive(Debug, Clone, Copy, PartialEq, Eq, Hash)]
pub enum MontgomeryPointRepresentation<F: Field> {
    Affine(FieldElement<F>),
    Infinity,
}

/// Swaps `a` and `b` when `swap` holds.
fn cswap<F: Field>(a: &mut MontgomeryPoint<F>, b: &mut MontgomeryPoint<F>, swap: bool)
    ensures
        swap ==> *final(a) == *old(b) && *final(b) == *old(a),
        !swap ==> *final(a) == *old(a) && *final(b) == *old(b),
{
    if swap {
        core::mem::swap(a, b);
    }
}

impl<F: Field> MontgomeryPoint<F> {
    proof fn lemma_wf(self)
        requires
            self.x.well_formed(),
            self.z.well_formed(),
        ensures
            params_valid::<F>(),
            self@.0 < modulus::<F>(),
            self@.1 < modulus::<F>(),
    {
        lemma_well_formed(self.x);
        lemma_well_formed(self.z);
    }

    /// The point at infinity, as `(1 : 0)`.
    pub fn infinity() -> (r: Self)
        requires
            params_valid::<F>(),
        ensures
            r@ == xz_infinity(),
    {
        MontgomeryPoint { x: FieldElement::one(), z: FieldElement::zero() }
    }

    /// The point `(x : z)`, taken as given.
    pub fn from_projective_unchecked(x: FieldElement<F>, z: FieldElement<F>) -> (r: Self)
        ensures
            r@ == (x@, z@),
    {
        MontgomeryPoint { x, z }
    }

    /// The point with abscissa `x`, as `(x : 1)`.
    pub fn from_affine(x: FieldElement<F>) -> (r: Self)
        ensures
            r@ == (x@, 1nat),
    {
        proof {
            use_type_invariant(&x);
            lemma_well_formed(x);
        }
        Self::from_projective_unchecked(x, FieldElement::one())
    }

    /// The coordinate `X`.
    pub fn x(&self) -> (r: FieldElement<F>)
        ensures
            r@ == self@.0,
    {
        self.x
    }

    /// The coordinate `Z`.
    pub fn z(&self) -> (r: FieldElement<F>)
        ensures
            r@ == self@.1,
    {
        self.z
    }

    /// Whether this is the point at infinity.
    pub fn is_infinity(&self) -> (r: bool)
        ensures
            r == (self@.1 == 0),
    {
        proof {
            use_type_invariant(&self.z);
            lemma_well_formed(self.z);
        }
        self.z.equals(&FieldElement::zero())
    }

    /// The abscissa `X / Z`, the division done with the inverse `Z^(p - 2)`; or infinity.
    pub fn representation(&self) -> (r: MontgomeryPointRepresentation<F>)
        ensures
            match r {
                MontgomeryPointRepresentation::Infinity => xz_affine(self@, modulus::<F>()) == None::<nat>,
                MontgomeryPointRepresentation::Affine(x) => xz_affine(self@, modulus::<F>()) == Some(x@),
            },
    {
        if self.is_infinity() {
            MontgomeryPointRepresentation::Infinity
        } else {
            MontgomeryPointRepresentation::Affine(self.x.mul(&self.z.inv()))
        }
    }

    /// `2 self`, given `a24 = (a + 2) / 4`.
    pub fn x_double(&self, a24: FieldElement<F>) -> (r: Self)
        ensures
            r@ == xz_double(self@, a24@, modulus::<F>()),
    {
        proof {
            use_type_invariant(&self.x);
            use_type_invariant(&self.z);
            self.lemma_wf();
        }
        let a = self.x.add(&self.z);
        let aa = a.mul(&a);
        let b = self.x.sub(&self.z);
        let bb = b.mul(&b);
        let x3 = aa.mul(&bb);
        let e = aa.sub(&bb);
        let a24e = a24.mul(&e);
        let bb_a24e = bb.add(&a24e);
        let z3 = e.mul(&bb_a24e);
        proof {
            let p = modulus::<F>() as int;
            let gx = self.x@ as int;
            let gz = self.z@ as int;
            let g24 = a24@ as int;
            let i_s = (gx + gz) * (gx + gz);
            let i_d = (gx - gz) * (gx - gz);
            let i_e = 4 * gx * gz;
            lemma_add_step(a@ as int, gx, gz, gx, gz, p);
            lemma_mul_step(aa@ as int, a@ as int, a@ as int, gx + gz, gx + gz, p);
            lemma_sub_step(b@ as int, gx, gz, gx, gz, p);
            lemma_mul_step(bb@ as int, b@ as int, b@ as int, gx - gz, gx - gz, p);
            lemma_mul_step(x3@ as int, aa@ as int, bb@ as int, i_s, i_d, p);
            lemma_sub_step(e@ as int, aa@ as int, bb@ as int, i_s, i_d, p);
            assert(i_s - i_d == i_e) by (nonlinear_arith)
                requires
                    i_s == (gx + gz) * (gx + gz),
                    i_d == (gx - gz) * (gx - gz),
                    i_e == 4 * gx * gz,
            ;
            lemma_mul_step(a24e@ as int, g24, e@ as int, g24, i_e, p);
            lemma_add_step(bb_a24e@ as int, bb@ as int, a24e@ as int, i_d, g24 * i_e, p);
            lemma_mul_step(z3@ as int, e@ as int, bb_a24e@ as int, i_e, i_d + g24 * i_e, p);
            lemma_cong_to_mod(x3@ as int, i_s * i_d, p);
            lemma_cong_to_mod(z3@ as int, i_e * (i_d + g24 * i_e), p);
        }
        MontgomeryPoint { x: x3, z: z3 }
    }

    /// `self + other`, given `p_minus_q = self - other`.
    pub fn x_add(&self, other: &Self, p_minus_q: &Self) -> (r: Self)
        ensures
            r@ == xz_add(self@, other@, p_minus_q@, modulus::<F>()),
    {
        proof {
            use_type_invariant(&self.x);
            use_type_invariant(&self.z);
            use_type_invariant(&other.x);
            use_type_invariant(&other.z);
            use_type_invariant(&p_minus_q.x);
            use_type_invariant(&p_minus_q.z);
            self.lemma_wf();
            other.lemma_wf();
            p_minus_q.lemma_wf();
        }
        let a = self.x.add(&self.z);
        let b = self.x.sub(&self.z);
        let c = other.x.add(&other.z);
        let d = other.x.sub(&other.z);
        let da = d.mul(&a);
        let bc = b.mul(&c);
        let sum = da.add(&bc);
        let diff = da.sub(&bc);
        let zs = p_minus_q.z.mul(&sum);
        let x3 = zs.mul(&sum);
        let xd = p_minus_q.x.mul(&diff);
        let z3 = xd.mul(&diff);
        proof {
            let p = modulus::<F>() as int;
            let x1 = self.x@ as int;
            let z1 = self.z@ as int;
            let x2 = other.x@ as int;
            let z2 = other.z@ as int;
            let xm = p_minus_q.x@ as int;
            let zm = p_minus_q.z@ as int;
            let i_da = (x2 - z2) * (x1 + z1);
            let i_bc = (x1 - z1) * (x2 + z2);
            let u = 2 * (x1 * x2 - z1 * z2);
            let w = 2 * (x2 * z1 - x1 * z2);
            lemma_add_step(a@ as int, x1, z1, x1, z1, p);
            lemma_sub_step(b@ as int, x1, z1, x1, z1, p);
            lemma_add_step(c@ as int, x2, z2, x2, z2, p);
            lemma_sub_step(d@ as int, x2, z2, x2, z2, p);
            lemma_mul_step(da@ as int, d@ as int, a@ as int, x2 - z2, x1 + z1, p);
            lemma_mul_step(bc@ as int, b@ as int, c@ as int, x1 - z1, x2 + z2, p);
            lemma_add_step(sum@ as int, da@ as int, bc@ as int, i_da, i_bc, p);
            lemma_sub_step(diff@ as int, da@ as int, bc@ as int, i_da, i_bc, p);
            assert(i_da + i_bc == u && i_da - i_bc == w) by (nonlinear_arith)
                requires
                    i_da == (x2 - z2) * (x1 + z1),
                    i_bc == (x1 - z1) * (x2 + z2),
                    u == 2 * (x1 * x2 - z1 * z2),
                    w == 2 * (x2 * z1 - x1 * z2),
            ;
            lemma_mul_step(zs@ as int, zm, sum@ as int, zm, u, p);
            lemma_mul_step(x3@ as int, zs@ as int, sum@ as int, zm * u, u, p);
            lemma_mul_step(xd@ as int, xm, diff@ as int, xm, w, p);
            lemma_mul_step(z3@ as int, xd@ as int, diff@ as int, xm * w, w, p);
            lemma_cong_to_mod(x3@ as int, zm * u * u, p);
            lemma_cong_to_mod(z3@ as int, xm * w * w, p);
        }
        MontgomeryPoint { x: x3, z: z3 }
    }

    /// `(2 self, self + other)`, given `p_minus_q = self - other` and `a24`.
    pub fn x_double_and_add(&self, other: &Self, p_minus_q: &Self, a24: FieldElement<F>) -> (r: (Self, Self))
        ensures
            r.0@ == xz_double(self@, a24@, modulus::<F>()),
            r.1@ == xz_add(self@, other@, p_minus_q@, modulus::<F>()),
    {
        (self.x_double(a24), self.x_add(other, p_minus_q))
    }

    /// `n self`, where `n` is the value of `scalar`, by the Montgomery ladder over all
    /// the bits of the scalar's limbs, the most significant first.
    pub fn mult<G: Field>(&self, scalar: Scalar<G>, a24: FieldElement<F>) -> (r: Self)
        ensures
            r@ == xz_mult(self@, scalar@, 64 * limb_count::<G>(), a24@, modulus::<F>()),
    {
        proof {
            use_type_invariant(&self.x);
            use_type_invariant(&self.z);
            self.lemma_wf();
        }
        if self.is_infinity() {
            return Self::infinity();
        }
        let ghost base = self@;
        let ghost av = a24@;
        let ghost p = modulus::<F>();
        let ghost e = scalar@;
        let mut r0 = Self::infinity();
        let mut r1 = *self;
        let limbs = scalar.0;
        let n = limbs.len();
        proof {
            limbs.lemma_len();
            lemma_limbs_nat_bound(limbs@);
            lemma_word_pow_is_pow2(n as nat);
            lemma_pow2_pos((64 * n) as nat);
            vstd::arithmetic::div_mod::lemma_basic_div(e as int, pow2((64 * n) as nat) as int);
        }
        let mut i = n;
        while i > 0
            invariant
                i <= n,
                n == limb_count::<G>(),
                limbs@.len() == n,
                e == limbs_nat(limbs@),
                base == self@,
                av == a24@,
                p == modulus::<F>(),
                params_valid::<F>(),
                (r0@, r1@) == xz_ladder(base, e / pow2((64 * i) as nat), (64 * n - 64 * i) as nat, av, p),
            decreases i,
        {
            i = i - 1;
            let limb = limbs.get(i);
            let mut bit: u32 = 64;
            while bit > 0
                invariant
                    bit <= 64,
                    i < n,
                    n == limb_count::<G>(),
                    limbs@.len() == n,
                    e == limbs_nat(limbs@),
                    limb == limbs@[i as int],
                    base == self@,
                    av == a24@,
                    p == modulus::<F>(),
                    params_valid::<F>(),
                    (r0@, r1@) == xz_ladder(
                        base,
                        e / pow2((64 * i + bit) as nat),
                        (64 * n - (64 * i + bit)) as nat,
                        av,
                        p,
                    ),
                decreases bit,
            {
                bit = bit - 1;
                let ghost g = (64 * i + bit) as nat;
                let ghost q = e / pow2(g);
                let ghost h = e / pow2(g + 1);
                let ghost k = (64 * n - g) as nat;
                proof {
                    lemma_shift_step(e, g);
                    lemma_limb_bit(limbs@, i as int, bit);
                    lemma_pow2_pos(g);
                    lemma_pow2_pos(g + 1);
                    assert(g + 1 == (64 * i + bit + 1) as nat);
                    let b = q % 2;
                    assert(q / 2 == h) by (nonlinear_arith)
                        requires
                            q == 2 * h + b,
                            0 <= b < 2,
                            h >= 0,
                    ;
                    assert(k >= 1 && (k - 1) as nat == (64 * n - (64 * i + bit + 1)) as nat);
                }
                let ghost before = (r0@, r1@);
                let swap = (limb >> bit) & 1 == 1;
                cswap(&mut r0, &mut r1, swap);
                let new_r1 = r0.x_add(&r1, self);
                let new_r0 = r0.x_double(a24);
                r0 = new_r0;
                r1 = new_r1;
                cswap(&mut r0, &mut r1, swap);
                proof {
                    assert(before == xz_ladder(base, h, (k - 1) as nat, av, p));
                    assert((r0@, r1@) == xz_ladder(base, q, k, av, p));
                }
            }
        }
        proof {
            vstd::arithmetic::power::lemma_pow0(2);
            assert(pow2((64 * i) as nat) == 1);
            assert(e / 1 == e);
        }
        r0
    }

    /// Whether the two pairs stand for the same abscissa.
    fn same_point(&self, other: &Self) -> (r: bool)
        ensures
            r == xz_eq(self@, other@, modulus::<F>()),
    {
        proof {
            use_type_invariant(&self.x);
            use_type_invariant(&self.z);
            use_type_invariant(&other.x);
            use_type_invariant(&other.z);
            self.lemma_wf();
            other.lemma_wf();
        }
        let zero = FieldElement::zero();
        let z1_zero = self.z.equals(&zero);
        let z2_zero = other.z.equals(&zero);
        if z1_zero || z2_zero {
            return z1_zero && z2_zero;
        }
        let l = self.x.mul(&other.z);
        let r = other.x.mul(&self.z);
        proof {
            let p = modulus::<F>() as int;
            lemma_mul_step(l@ as int, self.x@ as int, other.z@ as int, self.x@ as int, other.z@ as int, p);
            lemma_mul_step(r@ as int, other.x@ as int, self.z@ as int, other.x@ as int, self.z@ as int, p);
            lemma_cong_to_mod(l@ as int, (self.x@ as int) * (other.z@ as int), p);
            lemma_cong_to_mod(r@ as int, (other.x@ as int) * (self.z@ as int), p);
        }
        l.equals(&r)
    }
}

impl<F: Field> PartialEq for MontgomeryPoint<F> {
    fn eq(&self, other: &Self) -> (r: bool) {
        self.same_point(other)
    }
}

impl<F: Field> PartialEqSpecImpl for MontgomeryPoint<F> {
    open spec fn obeys_eq_spec() -> bool {
        true
    }

    open spec fn eq_spec(&self, other: &Self) -> bool {
        xz_eq(self@, other@, modulus::<F>())
    }
}

impl<F: Field> Eq for MontgomeryPoint<F> {

}

impl<F: Field> core::hash::Hash for MontgomeryPoint<F> {
    /// Hashes the normalised representation, so that points equal under `==` hash alike.
    fn hash<H: core::hash::Hasher>(&self, state: &mut H) {
        match self.representation() {
            MontgomeryPointRepresentation::Infinity => {
                hash_into(&0u8, state);
            },
            MontgomeryPointRepresentation::Affine(x) => {
                hash_into(&1u8, state);
                hash_into(&x, state);
            },
        }
    }
}

/// `(a + 2) / 4` for the curve with coefficient `a`.
pub fn montgomery_a24<F: Field>(a: FieldElement<F>) -> (r: FieldElement<F>)
    ensures
        r@ == montgomery_a24_of(a@, modulus::<F>()),
{
    proof {
        use_type_invariant(&a);
        lemma_well_formed(a);
    }
    let a_plus_two = a.add(&FieldElement::two());
    let four_inv = FieldElement::from_u64(4).inv();
    let r = a_plus_two.mul(&four_inv);
    proof {
        let p = modulus::<F>() as int;
        lemma_cong_mod(2, p);
        lemma_add_step(a_plus_two@ as int, a@ as int, 2int % p, a@ as int, 2, p);
        lemma_mul_step(r@ as int, a_plus_two@ as int, four_inv@ as int, (a@ as int) + 2, four_inv@ as int, p);
        lemma_cong_to_mod(r@ as int, ((a@ as int) + 2) * (four_inv@ as int), p);
    }
    r
}

/// The `j`-invariant of the Montgomery curve with coefficient `a`.
pub fn montgomery_j_invariant<F: Field>(a: FieldElement<F>) -> (r: FieldElement<F>)
    ensures
        r@ == montgomery_j(a@, modulus::<F>()),
{
    proof {
        use_type_invariant(&a);
        lemma_well_formed(a);
    }
    let a2 = a.mul(&a);
    let t = a2.sub(&FieldElement::three());
    let c256 = FieldElement::from_u64(256);
    let n1 = c256.mul(&t);
    let n2 = n1.mul(&t);
    let num = n2.mul(&t);
    let denom = a2.sub(&FieldElement::from_u64(4));
    let d_inv = denom.inv();
    let r = num.mul(&d_inv);
    proof {
        let p = modulus::<F>() as int;
        let ga = a@ as int;
        let i_t = ga * ga - 3;
        lemma_cong_mod(3, p);
        lemma_cong_mod(4, p);
        lemma_cong_mod(256, p);
        lemma_mul_step(a2@ as int, ga, ga, ga, ga, p);
        lemma_sub_step(t@ as int, a2@ as int, 3int % p, ga * ga, 3, p);
        lemma_mul_step(n1@ as int, c256@ as int, t@ as int, 256, i_t, p);
        lemma_mul_step(n2@ as int, n1@ as int, t@ as int, 256 * i_t, i_t, p);
        lemma_mul_step(num@ as int, n2@ as int, t@ as int, 256 * i_t * i_t, i_t, p);
        lemma_sub_step(denom@ as int, a2@ as int, 4int % p, ga * ga, 4, p);
        lemma_cong_to_mod(denom@ as int, ga * ga - 4, p);
        lemma_mul_step(r@ as int, num@ as int, d_inv@ as int, 256 * i_t * i_t * i_t, d_inv@ as int, p);
        lemma_cong_to_mod(r@ as int, 256 * i_t * i_t * i_t * (d_inv@ as int), p);
    }
    r
}

/// Whether `x` is the abscissa of a point of `b y^2 = x^3 + a x^2 + x`, by testing the
/// candidate square root of `x (x^2 + a x + 1) / b`.
pub fn montgomery_is_on_curve<F: Sqrt3Mod4>(x: FieldElement<F>, a: FieldElement<F>, b: FieldElement<F>) -> (r: bool)
    ensures
        r == montgomery_on_curve(x@, a@, b@, sqrt_exponent::<F>(), modulus::<F>()),
{
    proof {
        use_type_invariant(&x);
        use_type_invariant(&a);
        use_type_invariant(&b);
        lemma_well_formed(x);
        lemma_well_formed(a);
        lemma_well_formed(b);
    }
    let xx = x.mul(&x);
    let ax = a.mul(&x);
    let s1 = xx.add(&ax);
    let s2 = s1.add(&FieldElement::one());
    let rhs = x.mul(&s2);
    let b_inv = b.inv();
    let y2 = rhs.mul(&b_inv);
    proof {
        let p = modulus::<F>() as int;
        let gx = x@ as int;
        let ga = a@ as int;
        lemma_mul_step(xx@ as int, gx, gx, gx, gx, p);
        lemma_mul_step(ax@ as int, ga, gx, ga, gx, p);
        lemma_add_step(s1@ as int, xx@ as int, ax@ as int, gx * gx, ga * gx, p);
        lemma_add_step(s2@ as int, s1@ as int, 1, gx * gx + ga * gx, 1, p);
        lemma_mul_step(rhs@ as int, gx, s2@ as int, gx, gx * gx + ga * gx + 1, p);
        lemma_mul_step(y2@ as int, rhs@ as int, b_inv@ as int, gx * (gx * gx + ga * gx + 1), b_inv@ as int, p);
        lemma_cong_to_mod(y2@ as int, gx * (gx * gx + ga * gx + 1) * (b_inv@ as int), p);
    }
    let y = y2.sqrt();
    y.mul(&y).equals(&y2)
}

/// A Montgomery curve `b y^2 = x^3 + a x^2 + x` over the prime field `F`, given by its
/// coefficients.
pub trait MontgomeryCurve<F: Field>: Copy + Clone + core::fmt::Debug + PartialEq + Eq {
    /// The value of the coefficient `a`, in `0..p`. A curve verified with Verus defines it;
    /// the default, an unspecified number, serves impls written outside Verus.
    open spec fn spec_a(&self) -> nat {
        arbitrary()
    }

    /// The value of the coefficient `b`, in `0..p`, defined as `spec_a` is.
    open spec fn spec_b(&self) -> nat {
        arbitrary()
    }

    /// The coefficient `a`.
    fn a(&self) -> (r: FieldElement<F>)
        ensures
            r@ == self.spec_a(),
    ;

    /// The coefficient `b`.
    fn b(&self) -> (r: FieldElement<F>)
        ensures
            r@ == self.spec_b(),
    ;

    /// `(a + 2) / 4`, the constant of the doubling formula.
    fn a24(&self) -> (r: FieldElement<F>)
        ensures
            r@ == montgomery_a24_of(self.spec_a(), modulus::<F>()),
    {
        let a = self.a();
        proof {
            use_type_invariant(&a);
            lemma_well_formed(a);
        }
        montgomery_a24(a)
    }

    /// `2 point`.
    fn x_double(&self, point: MontgomeryPoint<F>) -> (r: MontgomeryPoint<F>)
        ensures
            r@ == xz_double(point@, montgomery_a24_of(self.spec_a(), modulus::<F>()), modulus::<F>()),
    {
        point.x_double(self.a24())
    }

    /// `p + q`, given `p_minus_q = p - q`.
    fn x_add(&self, p: MontgomeryPoint<F>, q: MontgomeryPoint<F>, p_minus_q: MontgomeryPoint<F>) -> (r: MontgomeryPoint<F>)
        ensures
            r@ == xz_add(p@, q@, p_minus_q@, modulus::<F>()),
    {
        p.x_add(&q, &p_minus_q)
    }

    /// `(2 p, p + q)`, given `p_minus_q = p - q`.
    fn x_double_and_add(&self, p: MontgomeryPoint<F>, q: MontgomeryPoint<F>, p_minus_q: MontgomeryPoint<F>) -> (r: (MontgomeryPoint<F>, MontgomeryPoint<F>))
        ensures
            r.0@ == xz_double(p@, montgomery_a24_of(self.spec_a(), modulus::<F>()), modulus::<F>()),
            r.1@ == xz_add(p@, q@, p_minus_q@, modulus::<F>()),
    {
        p.x_double_and_add(&q, &p_minus_q, self.a24())
    }

    /// `n point`, where `n` is the value of `scalar`.
    fn mult<G: Field>(&self, scalar: Scalar<G>, point: MontgomeryPoint<F>) -> (r: MontgomeryPoint<F>)
        ensures
            r@ == xz_mult(
                point@,
                scalar@,
                64 * limb_count::<G>(),
                montgomery_a24_of(self.spec_a(), modulus::<F>()),
                modulus::<F>(),
            ),
    {
        point.mult(scalar, self.a24())
    }

    /// The `j`-invariant of this curve.
    fn j_invariant(&self) -> (r: FieldElement<F>)
        ensures
            r@ == montgomery_j(self.spec_a(), modulus::<F>()),
    {
        let a = self.a();
        proof {
            use_type_invariant(&a);
            lemma_well_formed(a);
        }
        montgomery_j_invariant(a)
    }

    /// Whether `x` is the abscissa of a point of this curve.
    fn is_on_curve(&self, x: FieldElement<F>) -> (r: bool) where F: Sqrt3Mod4
        ensures
            r == montgomery_on_curve(x@, self.spec_a(), self.spec_b(), sqrt_exponent::<F>(), modulus::<F>()),
    {
        let a = self.a();
        let b = self.b();
        proof {
            use_type_invariant(&a);
            use_type_invariant(&b);
            lemma_well_formed(a);
            lemma_well_formed(b);
        }
        montgomery_is_on_curve(x, a, b)
    }

    /// The point `(x : 1)` when `x` is on this curve, `None` otherwise.
    fn lift(&self, x: FieldElement<F>) -> (r: Option<MontgomeryPoint<F>>) where F: Sqrt3Mod4
        ensures
            r.is_some() == montgomery_on_curve(
                x@,
                self.spec_a(),
                self.spec_b(),
                sqrt_exponent::<F>(),
                modulus::<F>(),
            ),
            r.is_some() ==> r.unwrap()@ == (x@, 1nat),
    {
        if self.is_on_curve(x) {
            Some(MontgomeryPoint::from_affine(x))
        } else {
            None
        }
    }
}

/// The CSIDH-512 base curve `E_0: y^2 = x^3 + x` (`a = 0`, `b = 1`).
#[derive(Debug, Clone, Copy, PartialEq, Eq, Hash)]
pub struct Csidh512BaseCurve;

impl MontgomeryCurve<Csidh512FieldOrder> for Csidh512BaseCurve {
    open spec fn spec_a(&self) -> nat {
        0
    }

    open spec fn spec_b(&self) -> nat {
        1
    }

    fn a(&self) -> (r: FieldElement<Csidh512FieldOrder>)
        ensures
            r@ == 0,
    {
        proof {
            lemma_csidh512_field_params();
        }
        FieldElement::zero()
    }

    fn b(&self) -> (r: FieldElement<Csidh512FieldOrder>)
        ensures
            r@ == 1,
    {
        proof {
            lemma_csidh512_field_params();
        }
        FieldElement::one()
    }
}

/// Projective x-coordinates `(X, Z)` over a quadratic extension.
pub type Xz2 = (Fp2, Fp2);

/// The representative `(1 : 0)` of the point at infinity.
pub open spec fn xz2_infinity() -> Xz2 {
    ((1, 0), (0, 0))
}

/// x-only doubling over the extension, in the same steps as over the base field:
/// `X3 = (X + Z)^2 (X - Z)^2`, `E = (X + Z)^2 - (X - Z)^2`, `Z3 = E ((X - Z)^2 + a24 E)`.
pub open spec fn xz2_double(pt: Xz2, a24: Fp2, beta: nat, p: nat) -> Xz2 {
    let s = fp2_add(pt.0, pt.1, p);
    let ss = fp2_mul(s, s, beta, p);
    let d = fp2_sub(pt.0, pt.1, p);
    let dd = fp2_mul(d, d, beta, p);
    let e = fp2_sub(ss, dd, p);
    (fp2_mul(ss, dd, beta, p), fp2_mul(e, fp2_add(dd, fp2_mul(a24, e, beta, p), p), beta, p))
}

/// x-only differential addition over the extension: with `DA = (X2 - Z2)(X1 + Z1)` and
/// `CB = (X1 - Z1)(X2 + Z2)`, the sum is `(Zd (DA + CB)^2 : Xd (DA - CB)^2)`.
pub open spec fn xz2_add(pt: Xz2, other: Xz2, diff: Xz2, beta: nat, p: nat) -> Xz2 {
    let a = fp2_add(pt.0, pt.1, p);
    let b = fp2_sub(pt.0, pt.1, p);
    let c = fp2_add(other.0, other.1, p);
    let d = fp2_sub(other.0, other.1, p);
    let da = fp2_mul(d, a, beta, p);
    let cb = fp2_mul(b, c, beta, p);
    let sum = fp2_add(da, cb, p);
    let dif = fp2_sub(da, cb, p);
    (
        fp2_mul(fp2_mul(diff.1, sum, beta, p), sum, beta, p),
        fp2_mul(fp2_mul(diff.0, dif, beta, p), dif, beta, p),
    )
}

/// The Montgomery ladder over the extension, as `xz_ladder`.
pub open spec fn xz2_ladder(base: Xz2, q: nat, k: nat, a24: Fp2, beta: nat, p: nat) -> (Xz2, Xz2)
    decreases k,
{
    if k == 0 {
        (xz2_infinity(), base)
    } else {
        let prev = xz2_ladder(base, q / 2, (k - 1) as nat, a24, beta, p);
        if q % 2 == 1 {
            (xz2_add(prev.1, prev.0, base, beta, p), xz2_double(prev.1, a24, beta, p))
        } else {
            (xz2_double(prev.0, a24, beta, p), xz2_add(prev.0, prev.1, base, beta, p))
        }
    }
}

/// `n base` by the ladder over `k` bits of `n`; infinity for the point at infinity.
pub open spec fn xz2_mult(base: Xz2, n: nat, k: nat, a24: Fp2, beta: nat, p: nat) -> Xz2 {
    if base.1 == (0nat, 0nat) {
        xz2_infinity()
    } else {
        xz2_ladder(base, n, k, a24, beta, p).0
    }
}

/// The abscissa `X / Z` of an `(X : Z)` pair over the extension, the division done with
/// the inverse of the extension; `None` for the point at infinity (`Z = 0`).
pub open spec fn xz2_affine(pt: Xz2, beta: nat, p: nat) -> Option<Fp2> {
    if pt.1 == (0nat, 0nat) {
        None
    } else {
        Some(fp2_mul(pt.0, fp2_inv(pt.1, beta, p), beta, p))
    }
}

/// Whether two pairs stand for the same abscissa: both at infinity, or neither, with
/// `X1 Z2 = X2 Z1`.
pub open spec fn xz2_eq(p1: Xz2, p2: Xz2, beta: nat, p: nat) -> bool {
    if p1.1 == (0nat, 0nat) || p2.1 == (0nat, 0nat) {
        p1.1 == (0nat, 0nat) && p2.1 == (0nat, 0nat)
    } else {
        fp2_mul(p1.0, p2.1, beta, p) == fp2_mul(p2.0, p1.1, beta, p)
    }
}

/// `(a + 2) / 4` over the extension.
pub open spec fn ext_a24_of(a: Fp2, beta: nat, p: nat) -> Fp2 {
    fp2_mul(fp2_add(a, (2nat % p, 0nat), p), fp2_inv((4nat % p, 0nat), beta, p), beta, p)
}

/// The `j`-invariant `256 (a^2 - 3)^3 / (a^2 - 4)` over the extension.
pub open spec fn ext_montgomery_j(a: Fp2, beta: nat, p: nat) -> Fp2 {
    let a2 = fp2_mul(a, a, beta, p);
    let t = fp2_sub(a2, (3nat % p, 0nat), p);
    let num = fp2_mul(fp2_mul(fp2_mul((256nat % p, 0nat), t, beta, p), t, beta, p), t, beta, p);
    fp2_mul(num, fp2_inv(fp2_sub(a2, (4nat % p, 0nat), p), beta, p), beta, p)
}

/// Whether `is_on_curve` accepts `x` over the extension: with
/// `y2 = x (x^2 + a x + 1) / b`, the square root that `sqrt` finds squares to `y2`.
pub open spec fn ext_montgomery_on_curve(x: Fp2, a: Fp2, b: Fp2, beta: nat, e: nat, p: nat) -> bool {
    let inner = fp2_add(fp2_add(fp2_mul(x, x, beta, p), fp2_mul(a, x, beta, p), p), (1nat, 0nat), p);
    let y2 = fp2_mul(fp2_mul(x, inner, beta, p), fp2_inv(b, beta, p), beta, p);
    let y = fp2_sqrt(y2, e, p);
    fp2_mul(y, y, beta, p) == y2
}

/// A point of a Montgomery curve over the extension `E`, as `(X : Z)`.
#[derive(Debug, Clone, Copy)]
pub struct ExtensionMontgomeryPoint<E: ExtensionField> {
    x: ExtensionFieldElement<E>,
    z: ExtensionFieldElement<E>,
}

impl<E: ExtensionField> View for ExtensionMontgomeryPoint<E> {
    type V = Xz2;

    closed spec fn view(&self) -> Xz2 {
        (self.x@, self.z@)
    }
}

/// All four coordinates of every point over the extension are residues below `p`.
pub proof fn lemma_ext_montgomery_point_reduced<E: ExtensionField>(pt: ExtensionMontgomeryPoint<E>)
    requires
        modulus::<E::Base>() > 0,
    ensures
        pt@.0.0 < modulus::<E::Base>(),
        pt@.0.1 < modulus::<E::Base>(),
        pt@.1.0 < modulus::<E::Base>(),
        pt@.1.1 < modulus::<E::Base>(),
{
    crate::extension::lemma_view_reduced_ext(pt.x);
    crate::extension::lemma_view_reduced_ext(pt.z);
}

/// The abscissa of a point over the extension, or the point at infinity.
#[derive(Debug, Clone, Copy, PartialEq, Eq, Hash)]
pub enum ExtensionMontgomeryPointRepresentation<E: ExtensionField> {
    Affine(ExtensionFieldElement<E>),
    Infinity,
}

/// Swaps `a` and `b` when `swap` holds.
fn ext_cswap<E: ExtensionField>(a: &mut ExtensionMontgomeryPoint<E>, b: &mut ExtensionMontgomeryPoint<E>, swap: bool)
    ensures
        swap ==> *final(a) == *old(b) && *final(b) == *old(a),
        !swap ==> *final(a) == *old(a) && *final(b) == *old(b),
{
    if swap {
        core::mem::swap(a, b);
    }
}

impl<E: ExtensionField> ExtensionMontgomeryPoint<E> {
    /// The point at infinity, as `(1 : 0)`.
    pub fn infinity() -> (r: Self)
        requires
            params_valid::<E::Base>(),
        ensures
            r@ == xz2_infinity(),
    {
        ExtensionMontgomeryPoint { x: ExtensionFieldElement::one(), z: ExtensionFieldElement::zero() }
    }

    /// The point `(x : z)`, taken as given.
    pub fn from_projective_unchecked(x: ExtensionFieldElement<E>, z: ExtensionFieldElement<E>) -> (r: Self)
        ensures
            r@ == (x@, z@),
    {
        ExtensionMontgomeryPoint { x, z }
    }

    /// The point with abscissa `x`, as `(x : 1)`.
    pub fn from_affine(x: ExtensionFieldElement<E>) -> (r: Self)
        ensures
            r@ == (x@, (1nat, 0nat)),
    {
        proof {
            use_type_invariant(&x);
            lemma_well_formed_ext(x);
        }
        Self::from_projective_unchecked(x, ExtensionFieldElement::one())
    }

    /// The coordinate `X`.
    pub fn x(&self) -> (r: ExtensionFieldElement<E>)
        ensures
            r@ == self@.0,
    {
        self.x
    }

    /// The coordinate `Z`.
    pub fn z(&self) -> (r: ExtensionFieldElement<E>)
        ensures
            r@ == self@.1,
    {
        self.z
    }

    /// Whether this is the point at infinity.
    pub fn is_infinity(&self) -> (r: bool)
        ensures
            r == (self@.1 == (0nat, 0nat)),
    {
        proof {
            use_type_invariant(&self.z);
            lemma_well_formed_ext(self.z);
        }
        self.z.equals(&ExtensionFieldElement::zero())
    }

    /// The abscissa `X / Z`, with the inverse of the extension; or infinity.
    pub fn representation(&self) -> (r: ExtensionMontgomeryPointRepresentation<E>)
        ensures
            match r {
                ExtensionMontgomeryPointRepresentation::Infinity => xz2_affine(
                    self@,
                    E::spec_non_residue(),
                    modulus::<E::Base>(),
                ) == None::<Fp2>,
                ExtensionMontgomeryPointRepresentation::Affine(x) => xz2_affine(
                    self@,
                    E::spec_non_residue(),
                    modulus::<E::Base>(),
                ) == Some(x@),
            },
    {
        if self.is_infinity() {
            ExtensionMontgomeryPointRepresentation::Infinity
        } else {
            ExtensionMontgomeryPointRepresentation::Affine(self.x.mul(&self.z.inv()))
        }
    }

    /// `2 self`, given `a24 = (a + 2) / 4`.
    pub fn x_double(&self, a24: ExtensionFieldElement<E>) -> (r: Self)
        ensures
            r@ == xz2_double(self@, a24@, E::spec_non_residue(), modulus::<E::Base>()),
    {
        let a = self.x.add(&self.z);
        let aa = a.mul(&a);
        let b = self.x.sub(&self.z);
        let bb = b.mul(&b);
        let x3 = aa.mul(&bb);
        let e = aa.sub(&bb);
        let z3 = e.mul(&bb.add(&a24.mul(&e)));
        ExtensionMontgomeryPoint { x: x3, z: z3 }
    }

    /// `self + other`, given `p_minus_q = self - other`.
    pub fn x_add(&self, other: &Self, p_minus_q: &Self) -> (r: Self)
        ensures
            r@ == xz2_add(self@, other@, p_minus_q@, E::spec_non_residue(), modulus::<E::Base>()),
    {
        let a = self.x.add(&self.z);
        let b = self.x.sub(&self.z);
        let c = other.x.add(&other.z);
        let d = other.x.sub(&other.z);
        let da = d.mul(&a);
        let bc = b.mul(&c);
        let sum = da.add(&bc);
        let diff = da.sub(&bc);
        ExtensionMontgomeryPoint {
            x: p_minus_q.z.mul(&sum).mul(&sum),
            z: p_minus_q.x.mul(&diff).mul(&diff),
        }
    }

    /// `(2 self, self + other)`, given `p_minus_q = self - other` and `a24`.
    pub fn x_double_and_add(&self, other: &Self, p_minus_q: &Self, a24: ExtensionFieldElement<E>) -> (r: (Self, Self))
        ensures
            r.0@ == xz2_double(self@, a24@, E::spec_non_residue(), modulus::<E::Base>()),
            r.1@ == xz2_add(self@, other@, p_minus_q@, E::spec_non_residue(), modulus::<E::Base>()),
    {
        (self.x_double(a24), self.x_add(other, p_minus_q))
    }

    /// `n self`, where `n` is the value of `scalar`, by the Montgomery ladder over all
    /// the bits of the scalar's limbs, the most significant first.
    pub fn mult<G: Field>(&self, scalar: Scalar<G>, a24: ExtensionFieldElement<E>) -> (r: Self)
        ensures
            r@ == xz2_mult(
                self@,
                scalar@,
                64 * limb_count::<G>(),
                a24@,
                E::spec_non_residue(),
                modulus::<E::Base>(),
            ),
    {
        proof {
            use_type_invariant(&self.x);
            lemma_well_formed_ext(self.x);
        }
        if self.is_infinity() {
            return Self::infinity();
        }
        let ghost base = self@;
        let ghost av = a24@;
        let ghost beta = E::spec_non_residue();
        let ghost p = modulus::<E::Base>();
        let ghost e = scalar@;
        let mut r0 = Self::infinity();
        let mut r1 = *self;
        let limbs = scalar.0;
        let n = limbs.len();
        proof {
            limbs.lemma_len();
            lemma_limbs_nat_bound(limbs@);
            lemma_word_pow_is_pow2(n as nat);
            lemma_pow2_pos((64 * n) as nat);
            vstd::arithmetic::div_mod::lemma_basic_div(e as int, pow2((64 * n) as nat) as int);
        }
        let mut i = n;
        while i > 0
            invariant
                i <= n,
                n == limb_count::<G>(),
                limbs@.len() == n,
                e == limbs_nat(limbs@),
                base == self@,
                av == a24@,
                beta == E::spec_non_residue(),
                p == modulus::<E::Base>(),
                (r0@, r1@) == xz2_ladder(base, e / pow2((64 * i) as nat), (64 * n - 64 * i) as nat, av, beta, p),
            decreases i,
        {
            i = i - 1;
            let limb = limbs.get(i);
            let mut bit: u32 = 64;
            while bit > 0
                invariant
                    bit <= 64,
                    i < n,
                    n == limb_count::<G>(),
                    limbs@.len() == n,
                    e == limbs_nat(limbs@),
                    limb == limbs@[i as int],
                    base == self@,
                    av == a24@,
                    beta == E::spec_non_residue(),
                    p == modulus::<E::Base>(),
                    (r0@, r1@) == xz2_ladder(
                        base,
                        e / pow2((64 * i + bit) as nat),
                        (64 * n - (64 * i + bit)) as nat,
                        av,
                        beta,
                        p,
                    ),
                decreases bit,
            {
                bit = bit - 1;
                let ghost g = (64 * i + bit) as nat;
                let ghost q = e / pow2(g);
                let ghost h = e / pow2(g + 1);
                let ghost k = (64 * n - g) as nat;
                proof {
                    lemma_shift_step(e, g);
                    lemma_limb_bit(limbs@, i as int, bit);
                    lemma_pow2_pos(g);
                    lemma_pow2_pos(g + 1);
                    assert(g + 1 == (64 * i + bit + 1) as nat);
                    let b = q % 2;
                    assert(q / 2 == h) by (nonlinear_arith)
                        requires
                            q == 2 * h + b,
                            0 <= b < 2,
                            h >= 0,
                    ;
                    assert(k >= 1 && (k - 1) as nat == (64 * n - (64 * i + bit + 1)) as nat);
                }
                let ghost before = (r0@, r1@);
                let swap = (limb >> bit) & 1 == 1;
                ext_cswap(&mut r0, &mut r1, swap);
                let new_r1 = r0.x_add(&r1, self);
                let new_r0 = r0.x_double(a24);
                r0 = new_r0;
                r1 = new_r1;
                ext_cswap(&mut r0, &mut r1, swap);
                proof {
                    assert(before == xz2_ladder(base, h, (k - 1) as nat, av, beta, p));
                    assert((r0@, r1@) == xz2_ladder(base, q, k, av, beta, p));
                }
            }
        }
        proof {
            vstd::arithmetic::power::lemma_pow0(2);
            assert(pow2((64 * i) as nat) == 1);
            assert(e / 1 == e);
        }
        r0
    }

    /// Whether the two pairs stand for the same abscissa.
    fn same_point(&self, other: &Self) -> (r: bool)
        ensures
            r == xz2_eq(self@, other@, E::spec_non_residue(), modulus::<E::Base>()),
    {
        proof {
            use_type_invariant(&self.z);
            lemma_well_formed_ext(self.z);
        }
        let zero = ExtensionFieldElement::zero();
        let z1_zero = self.z.equals(&zero);
        let z2_zero = other.z.equals(&zero);
        if z1_zero || z2_zero {
            return z1_zero && z2_zero;
        }
        self.x.mul(&other.z).equals(&other.x.mul(&self.z))
    }
}

impl<E: ExtensionField> PartialEq for ExtensionMontgomeryPoint<E> {
    fn eq(&self, other: &Self) -> (r: bool) {
        self.same_point(other)
    }
}

impl<E: ExtensionField> PartialEqSpecImpl for ExtensionMontgomeryPoint<E> {
    open spec fn obeys_eq_spec() -> bool {
        true
    }

    open spec fn eq_spec(&self, other: &Self) -> bool {
        xz2_eq(self@, other@, E::spec_non_residue(), modulus::<E::Base>())
    }
}

impl<E: ExtensionField> Eq for ExtensionMontgomeryPoint<E> {

}

impl<E: ExtensionField> core::hash::Hash for ExtensionMontgomeryPoint<E> {
    /// Hashes the normalised representation, so that points equal under `==` hash alike:
    /// a tag, then the abscissa.
    fn hash<H: core::hash::Hasher>(&self, state: &mut H) {
        match self.representation() {
            ExtensionMontgomeryPointRepresentation::Infinity => {
                hash_into(&0u8, state);
            },
            ExtensionMontgomeryPointRepresentation::Affine(x) => {
                hash_into(&1u8, state);
                hash_into(&x, state);
            },
        }
    }
}

/// `(a + 2) / 4` for the curve over the extension with coefficient `a`.
pub fn ext_montgomery_a24<E: ExtensionField>(a: ExtensionFieldElement<E>) -> (r: ExtensionFieldElement<E>)
    ensures
        r@ == ext_a24_of(a@, E::spec_non_residue(), modulus::<E::Base>()),
{
    proof {
        use_type_invariant(&a);
        lemma_well_formed_ext(a);
    }
    let two = ExtensionFieldElement::from_base(FieldElement::two());
    let four = ExtensionFieldElement::from_base(FieldElement::from_u64(4));
    a.add(&two).mul(&four.inv())
}

/// The `j`-invariant of the curve over the extension with coefficient `a`.
pub fn ext_montgomery_j_invariant<E: ExtensionField>(a: ExtensionFieldElement<E>) -> (r: ExtensionFieldElement<E>)
    ensures
        r@ == ext_montgomery_j(a@, E::spec_non_residue(), modulus::<E::Base>()),
{
    proof {
        use_type_invariant(&a);
        lemma_well_formed_ext(a);
    }
    let a2 = a.mul(&a);
    let three = ExtensionFieldElement::from_base(FieldElement::three());
    let four = ExtensionFieldElement::from_base(FieldElement::from_u64(4));
    let t = a2.sub(&three);
    let c256 = ExtensionFieldElement::from_base(FieldElement::from_u64(256));
    let num = c256.mul(&t).mul(&t).mul(&t);
    let denom = a2.sub(&four);
    num.mul(&denom.inv())
}

/// Whether `x` is the abscissa of a point of `b y^2 = x^3 + a x^2 + x` over the
/// extension, by testing the square root that `sqrt` finds.
pub fn ext_montgomery_is_on_curve<E: NonResidueMinusOne>(
    x: ExtensionFieldElement<E>,
    a: ExtensionFieldElement<E>,
    b: ExtensionFieldElement<E>,
) -> (r: bool) where E::Base: Sqrt3Mod4
    ensures
        r == ext_montgomery_on_curve(
            x@,
            a@,
            b@,
            E::spec_non_residue(),
            sqrt_exponent::<E::Base>(),
            modulus::<E::Base>(),
        ),
{
    proof {
        use_type_invariant(&x);
        lemma_well_formed_ext(x);
    }
    let inner = x.mul(&x).add(&a.mul(&x)).add(&ExtensionFieldElement::one());
    let rhs = x.mul(&inner);
    let y2 = rhs.mul(&b.inv());
    let y = y2.sqrt();
    y.mul(&y).equals(&y2)
}

/// A Montgomery curve `b y^2 = x^3 + a x^2 + x` over the quadratic extension `E`.
pub trait ExtensionMontgomeryCurve<E: ExtensionField>: Copy + Clone + core::fmt::Debug + PartialEq + Eq {
    /// The value of the coefficient `a`, as a pair of residues. A curve verified with Verus
    /// defines it; the default, an unspecified pair, serves impls written outside Verus.
    open spec fn spec_a(&self) -> Fp2 {
        arbitrary()
    }

    /// The value of the coefficient `b`, as a pair of residues, defined as `spec_a` is.
    open spec fn spec_b(&self) -> Fp2 {
        arbitrary()
    }

    /// The coefficient `a`.
    fn a(&self) -> (r: ExtensionFieldElement<E>)
        ensures
            r@ == self.spec_a(),
    ;

    /// The coefficient `b`.
    fn b(&self) -> (r: ExtensionFieldElement<E>)
        ensures
            r@ == self.spec_b(),
    ;

    /// `(a + 2) / 4`, the constant of the doubling formula.
    fn a24(&self) -> (r: ExtensionFieldElement<E>)
        ensures
            r@ == ext_a24_of(self.spec_a(), E::spec_non_residue(), modulus::<E::Base>()),
    {
        ext_montgomery_a24(self.a())
    }

    /// `2 point`.
    fn x_double(&self, point: ExtensionMontgomeryPoint<E>) -> (r: ExtensionMontgomeryPoint<E>)
        ensures
            r@ == xz2_double(
                point@,
                ext_a24_of(self.spec_a(), E::spec_non_residue(), modulus::<E::Base>()),
                E::spec_non_residue(),
                modulus::<E::Base>(),
            ),
    {
        point.x_double(self.a24())
    }

    /// `p + q`, given `p_minus_q = p - q`.
    fn x_add(
        &self,
        p: ExtensionMontgomeryPoint<E>,
        q: ExtensionMontgomeryPoint<E>,
        p_minus_q: ExtensionMontgomeryPoint<E>,
    ) -> (r: ExtensionMontgomeryPoint<E>)
        ensures
            r@ == xz2_add(p@, q@, p_minus_q@, E::spec_non_residue(), modulus::<E::Base>()),
    {
        p.x_add(&q, &p_minus_q)
    }

    /// `(2 p, p + q)`, given `p_minus_q = p - q`.
    fn x_double_and_add(
        &self,
        p: ExtensionMontgomeryPoint<E>,
        q: ExtensionMontgomeryPoint<E>,
        p_minus_q: ExtensionMontgomeryPoint<E>,
    ) -> (r: (ExtensionMontgomeryPoint<E>, ExtensionMontgomeryPoint<E>))
        ensures
            r.0@ == xz2_double(
                p@,
                ext_a24_of(self.spec_a(), E::spec_non_residue(), modulus::<E::Base>()),
                E::spec_non_residue(),
                modulus::<E::Base>(),
            ),
            r.1@ == xz2_add(p@, q@, p_minus_q@, E::spec_non_residue(), modulus::<E::Base>()),
    {
        p.x_double_and_add(&q, &p_minus_q, self.a24())
    }

    /// `n point`, where `n` is the value of `scalar`.
    fn mult<G: Field>(&self, scalar: Scalar<G>, point: ExtensionMontgomeryPoint<E>) -> (r: ExtensionMontgomeryPoint<E>)
        ensures
            r@ == xz2_mult(
                point@,
                scalar@,
                64 * limb_count::<G>(),
                ext_a24_of(self.spec_a(), E::spec_non_residue(), modulus::<E::Base>()),
                E::spec_non_residue(),
                modulus::<E::Base>(),
            ),
    {
        point.mult(scalar, self.a24())
    }

    /// The `j`-invariant of this curve.
    fn j_invariant(&self) -> (r: ExtensionFieldElement<E>)
        ensures
            r@ == ext_montgomery_j(self.spec_a(), E::spec_non_residue(), modulus::<E::Base>()),
    {
        ext_montgomery_j_invariant(self.a())
    }

    /// Whether `x` is the abscissa of a point of this curve.
    fn is_on_curve(&self, x: ExtensionFieldElement<E>) -> (r: bool) where
        E: NonResidueMinusOne,
        E::Base: Sqrt3Mod4,
        ensures
            r == ext_montgomery_on_curve(
                x@,
                self.spec_a(),
                self.spec_b(),
                E::spec_non_residue(),
                sqrt_exponent::<E::Base>(),
                modulus::<E::Base>(),
            ),
    {
        ext_montgomery_is_on_curve(x, self.a(), self.b())
    }

    /// The point `(x : 1)` when `x` is on this curve, `None` otherwise.
    fn lift(&self, x: ExtensionFieldElement<E>) -> (r: Option<ExtensionMontgomeryPoint<E>>) where
        E: NonResidueMinusOne,
        E::Base: Sqrt3Mod4,
        ensures
            r.is_some() == ext_montgomery_on_curve(
                x@,
                self.spec_a(),
                self.spec_b(),
                E::spec_non_residue(),
                sqrt_exponent::<E::Base>(),
                modulus::<E::Base>(),
            ),
            r.is_some() ==> r.unwrap()@ == (x@, (1nat, 0nat)),
    {
        if self.is_on_curve(x) {
            Some(ExtensionMontgomeryPoint::from_affine(x))
        } else {
            None
        }
    }
}

} // verus!

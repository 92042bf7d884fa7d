//! Quadratic extensions `F_p[i] / (i^2 - beta)` of a prime field.
use vstd::prelude::*;

use crate::field::{
    lemma_well_formed, modulus, params_valid, sqrt_exponent, sub_mod, Field, FieldElement,
    Sqrt3Mod4,
};
use crate::fields::{lemma_csidh512_field_params, Csidh512FieldOrder};
use crate::limbs::{lemma_limb_bit, lemma_limbs_nat_bound, lemma_shift_step, lemma_word_pow_is_pow2, limbs_nat};
use crate::modular::{
    cong, lemma_cong_add, lemma_cong_mod, lemma_cong_mul, lemma_cong_residues, lemma_cong_sub, pow_mod,
};
use vstd::arithmetic::power2::pow2;
use vstd::std_specs::cmp::PartialEqSpecImpl;

verus! {

/// A quadratic extension of the prime field `Base`, generated by a square root of
/// the non-residue `beta`.
pub trait ExtensionField: Copy + Clone + core::fmt::Debug + PartialEq + Eq {
    type Base: Field;

    /// The value of `beta` in `0..p`.
    spec fn spec_non_residue() -> nat;

    fn non_residue() -> (r: FieldElement<Self::Base>)
        requires
            params_valid::<Self::Base>(),
        ensures
            r@ == Self::spec_non_residue(),
    ;

    /// `x * beta`.
    fn mul_by_non_residue(x: FieldElement<Self::Base>) -> (r: FieldElement<Self::Base>)
        ensures
            r@ == (x@ * Self::spec_non_residue()) % modulus::<Self::Base>(),
    {
        proof {
            use_type_invariant(&x);
            lemma_well_formed(x);
        }
        x.mul(&Self::non_residue())
    }
}

/// Extensions whose non-residue is `-1`, so that `i^2 = -1`.
pub trait NonResidueMinusOne: ExtensionField {
    /// The non-residue is `p - 1`.
    proof fn lemma_non_residue_is_minus_one()
        ensures
            Self::spec_non_residue() == (modulus::<Self::Base>() - 1) as nat,
    ;
}

/// An element of an extension, as a pair of residues `(c0, c1)` for `c0 + c1 i`.
pub type Fp2 = (nat, nat);

/// `a + b`.
pub open spec fn fp2_add(a: Fp2, b: Fp2, p: nat) -> Fp2 {
    ((a.0 + b.0) % p, (a.1 + b.1) % p)
}

/// `a - b`.
pub open spec fn fp2_sub(a: Fp2, b: Fp2, p: nat) -> Fp2 {
    (sub_mod(a.0, b.0, p), sub_mod(a.1, b.1, p))
}

/// `-a`.
pub open spec fn fp2_neg(a: Fp2, p: nat) -> Fp2 {
    (sub_mod(0, a.0, p), sub_mod(0, a.1, p))
}

/// `a * b` where `i^2 = beta`.
pub open spec fn fp2_mul(a: Fp2, b: Fp2, beta: nat, p: nat) -> Fp2 {
    ((a.0 * b.0 + beta * (a.1 * b.1)) % p, (a.0 * b.1 + a.1 * b.0) % p)
}

/// `a * s` for `s` in the base field.
pub open spec fn fp2_scale(a: Fp2, s: nat, p: nat) -> Fp2 {
    ((a.0 * s) % p, (a.1 * s) % p)
}

/// The conjugate `c0 - c1 i`.
pub open spec fn fp2_conjugate(a: Fp2, p: nat) -> Fp2 {
    (a.0, sub_mod(0, a.1, p))
}

/// The inverse `conj(a) / norm(a)`, the division done as a power `p - 2` in the base field.
pub open spec fn fp2_inv(a: Fp2, beta: nat, p: nat) -> Fp2 {
    let norm = (((a.0 * a.0) - beta * (a.1 * a.1)) % (p as int)) as nat;
    let ninv = pow_mod(norm, (p - 2) as nat, p);
    ((a.0 * ninv) % p, (sub_mod(0, a.1, p) * ninv) % p)
}

/// `x^e` by repeated squaring: `x^e = (x^(e / 2))^2 * x^(e mod 2)`.
pub open spec fn fp2_pow(x: Fp2, e: nat, beta: nat, p: nat) -> Fp2
    decreases e,
{
    if e == 0 {
        (1, 0)
    } else {
        let h = fp2_pow(x, e / 2, beta, p);
        let s = fp2_mul(h, h, beta, p);
        if e % 2 == 1 {
            fp2_mul(s, x, beta, p)
        } else {
            s
        }
    }
}

/// The square root that `ExtensionFieldElement::sqrt` finds for `(a, b)`: from square
/// roots in the base field, taken as powers `(p + 1) / 4`, and inverses, taken as
/// powers `p - 2`.
pub open spec fn fp2_sqrt(x: Fp2, e: nat, p: nat) -> Fp2 {
    let a = x.0;
    let b = x.1;
    let inv = |v: nat| pow_mod(v, (p - 2) as nat, p);
    let root = |v: nat| pow_mod(v, e, p);
    if b == 0 {
        let sa = root(a);
        if (sa * sa) % p == a {
            (sa, 0)
        } else {
            (0, root(sub_mod(0, a, p)))
        }
    } else {
        let n = root(((a * a) % p + (b * b) % p) % p);
        let two_inv = inv(2nat % p);
        let delta1 = ((a + n) % p * two_inv) % p;
        let x1 = root(delta1);
        let delta = if (x1 * x1) % p != delta1 {
            (sub_mod(a, n, p) * two_inv) % p
        } else {
            delta1
        };
        let x = if (x1 * x1) % p != delta1 {
            root(delta)
        } else {
            x1
        };
        let y = (b * inv((x + x) % p)) % p;
        (x, y)
    }
}

/// An element `c0 + c1 i` of the extension `E`.
#[derive(Copy, Debug)]
pub struct ExtensionFieldElement<E: ExtensionField> {
    c0: FieldElement<E::Base>,
    c1: FieldElement<E::Base>,
}

impl<E: ExtensionField> core::hash::Hash for ExtensionFieldElement<E> {
    /// Hashes the two coordinates.
    fn hash<H: core::hash::Hasher>(&self, state: &mut H) {
        crate::field::hash_into(&self.c0, state);
        crate::field::hash_into(&self.c1, state);
    }
}

impl<E: ExtensionField> Clone for ExtensionFieldElement<E> {
    fn clone(&self) -> (r: Self)
        ensures
            r == *self,
    {
        *self
    }
}

impl<E: ExtensionField> View for ExtensionFieldElement<E> {
    type V = Fp2;

    closed spec fn view(&self) -> Fp2 {
        (self.c0@, self.c1@)
    }
}

/// Both coordinates of every element, even one no constructor made, are residues below `p`.
pub proof fn lemma_view_reduced_ext<E: ExtensionField>(x: ExtensionFieldElement<E>)
    requires
        modulus::<E::Base>() > 0,
    ensures
        x@.0 < modulus::<E::Base>(),
        x@.1 < modulus::<E::Base>(),
{
    crate::field::lemma_view_reduced(x.c0);
    crate::field::lemma_view_reduced(x.c1);
}

impl<E: ExtensionField> ExtensionFieldElement<E> {
    /// Both coordinates are well-formed elements of the base field.
    #[verifier::type_invariant]
    pub closed spec fn well_formed(self) -> bool {
        self.c0.well_formed() && self.c1.well_formed()
    }
}

/// What a well-formed extension element tells about its base field.
pub proof fn lemma_well_formed_ext<E: ExtensionField>(x: ExtensionFieldElement<E>)
    requires
        x.well_formed(),
    ensures
        params_valid::<E::Base>(),
        x@.0 < modulus::<E::Base>(),
        x@.1 < modulus::<E::Base>(),
{
    lemma_well_formed(x.c0);
    lemma_well_formed(x.c1);
}

proof fn lemma_ext_well_formed<E: ExtensionField>(x: ExtensionFieldElement<E>)
    requires
        x.c0.well_formed(),
        x.c1.well_formed(),
    ensures
        params_valid::<E::Base>(),
        x@.0 < modulus::<E::Base>(),
        x@.1 < modulus::<E::Base>(),
{
    lemma_well_formed(x.c0);
    lemma_well_formed(x.c1);
}

impl<E: ExtensionField> ExtensionFieldElement<E> {
    /// The element `c0 + c1 i`.
    pub fn new(c0: FieldElement<E::Base>, c1: FieldElement<E::Base>) -> (r: Self)
        ensures
            r@ == (c0@, c1@),
    {
        proof {
            use_type_invariant(&c0);
            use_type_invariant(&c1);
        }
        ExtensionFieldElement { c0, c1 }
    }

    /// The element `0`.
    pub fn zero() -> (r: Self)
        requires
            params_valid::<E::Base>(),
        ensures
            r@ == (0nat, 0nat),
    {
        Self::new(FieldElement::zero(), FieldElement::zero())
    }

    /// The element `1`.
    pub fn one() -> (r: Self)
        requires
            params_valid::<E::Base>(),
        ensures
            r@ == (1nat, 0nat),
    {
        Self::new(FieldElement::one(), FieldElement::zero())
    }

    /// The base-field element `x`, embedded.
    pub fn from_base(x: FieldElement<E::Base>) -> (r: Self)
        ensures
            r@ == (x@, 0nat),
    {
        proof {
            use_type_invariant(&x);
            lemma_well_formed(x);
        }
        Self::new(x, FieldElement::zero())
    }

    /// The coordinate `c0`.
    pub fn c0(&self) -> (r: FieldElement<E::Base>)
        ensures
            r@ == self@.0,
    {
        self.c0
    }

    /// The coordinate `c1`.
    pub fn c1(&self) -> (r: FieldElement<E::Base>)
        ensures
            r@ == self@.1,
    {
        self.c1
    }

    /// `self + rhs`.
    pub fn add(&self, rhs: &Self) -> (r: Self)
        ensures
            r@ == fp2_add(self@, rhs@, modulus::<E::Base>()),
    {
        Self::new(self.c0.add(&rhs.c0), self.c1.add(&rhs.c1))
    }

    /// `self - rhs`.
    pub fn sub(&self, rhs: &Self) -> (r: Self)
        ensures
            r@ == fp2_sub(self@, rhs@, modulus::<E::Base>()),
    {
        Self::new(self.c0.sub(&rhs.c0), self.c1.sub(&rhs.c1))
    }

    /// `-self`.
    pub fn neg(&self) -> (r: Self)
        ensures
            r@ == fp2_neg(self@, modulus::<E::Base>()),
    {
        proof {
            use_type_invariant(&self.c0);
            lemma_well_formed(self.c0);
        }
        let zero = FieldElement::zero();
        Self::new(zero.sub(&self.c0), zero.sub(&self.c1))
    }

    /// `self * rhs`, with three base-field multiplications.
    pub fn mul(&self, rhs: &Self) -> (r: Self)
        ensures
            r@ == fp2_mul(self@, rhs@, E::spec_non_residue(), modulus::<E::Base>()),
    {
        proof {
            use_type_invariant(&self.c0);
            use_type_invariant(&self.c1);
            use_type_invariant(&rhs.c0);
            use_type_invariant(&rhs.c1);
            lemma_well_formed(self.c0);
            lemma_well_formed(self.c1);
            lemma_well_formed(rhs.c0);
            lemma_well_formed(rhs.c1);
        }
        let t0 = self.c0.mul(&rhs.c0);
        let t1 = self.c1.mul(&rhs.c1);
        let s = (self.c0.add(&self.c1)).mul(&rhs.c0.add(&rhs.c1));
        let c1 = s.sub(&t0).sub(&t1);
        let nt1 = E::mul_by_non_residue(t1);
        let c0 = t0.add(&nt1);
        proof {
            let p = modulus::<E::Base>() as int;
            let beta = E::spec_non_residue() as int;
            let a0 = self.c0@ as int;
            let a1 = self.c1@ as int;
            let b0 = rhs.c0@ as int;
            let b1 = rhs.c1@ as int;
            lemma_cong_mod(a0 * b0, p);
            lemma_cong_mod(a1 * b1, p);
            lemma_cong_mod(a0 + a1, p);
            lemma_cong_mod(b0 + b1, p);
            lemma_cong_mul((a0 + a1) % p, (b0 + b1) % p, a0 + a1, b0 + b1, p);
            lemma_cong_mod(((a0 + a1) % p) * ((b0 + b1) % p), p);
            lemma_cong_sub(s@ as int, t0@ as int, (a0 + a1) * (b0 + b1), a0 * b0, p);
            lemma_cong_mod((s@ as int) - (t0@ as int), p);
            lemma_cong_sub(
                ((s@ as int) - (t0@ as int)) % p,
                t1@ as int,
                (a0 + a1) * (b0 + b1) - a0 * b0,
                a1 * b1,
                p,
            );
            lemma_cong_mod(((((s@ as int) - (t0@ as int)) % p) - (t1@ as int)), p);
            assert((a0 + a1) * (b0 + b1) - a0 * b0 - a1 * b1 == a0 * b1 + a1 * b0) by (nonlinear_arith);
            lemma_cong_mod(a0 * b1 + a1 * b0, p);
            lemma_cong_residues(c1@ as int, (a0 * b1 + a1 * b0) % p, p);
            lemma_cong_mul(t1@ as int, beta, a1 * b1, beta, p);
            lemma_cong_mod((t1@ as int) * beta, p);
            lemma_cong_add(t0@ as int, nt1@ as int, a0 * b0, (a1 * b1) * beta, p);
            lemma_cong_mod((t0@ as int) + (nt1@ as int), p);
            assert((a1 * b1) * beta == beta * (a1 * b1)) by (nonlinear_arith);
            lemma_cong_mod(a0 * b0 + beta * (a1 * b1), p);
            lemma_cong_residues(c0@ as int, (a0 * b0 + beta * (a1 * b1)) % p, p);
        }
        Self::new(c0, c1)
    }

    /// `self * self`.
    pub fn sqr(&self) -> (r: Self)
        ensures
            r@ == fp2_mul(self@, self@, E::spec_non_residue(), modulus::<E::Base>()),
    {
        proof {
            use_type_invariant(&self.c0);
            use_type_invariant(&self.c1);
            lemma_well_formed(self.c0);
            lemma_well_formed(self.c1);
        }
        let t0 = self.c0.mul(&self.c0);
        let t1 = self.c1.mul(&self.c1);
        let ab = self.c0.mul(&self.c1);
        let nt1 = E::mul_by_non_residue(t1);
        let c0 = t0.add(&nt1);
        let c1 = ab.add(&ab);
        proof {
            let p = modulus::<E::Base>() as int;
            let beta = E::spec_non_residue() as int;
            let a0 = self.c0@ as int;
            let a1 = self.c1@ as int;
            lemma_cong_mod(a0 * a0, p);
            lemma_cong_mod(a1 * a1, p);
            lemma_cong_mod(a0 * a1, p);
            lemma_cong_add(ab@ as int, ab@ as int, a0 * a1, a0 * a1, p);
            lemma_cong_mod((ab@ as int) + (ab@ as int), p);
            assert(a0 * a1 + a0 * a1 == a0 * a1 + a1 * a0) by (nonlinear_arith);
            lemma_cong_mod(a0 * a1 + a1 * a0, p);
            lemma_cong_residues(c1@ as int, (a0 * a1 + a1 * a0) % p, p);
            lemma_cong_mul(t1@ as int, beta, a1 * a1, beta, p);
            lemma_cong_mod((t1@ as int) * beta, p);
            lemma_cong_add(t0@ as int, nt1@ as int, a0 * a0, (a1 * a1) * beta, p);
            lemma_cong_mod((t0@ as int) + (nt1@ as int), p);
            assert((a1 * a1) * beta == beta * (a1 * a1)) by (nonlinear_arith);
            lemma_cong_mod(a0 * a0 + beta * (a1 * a1), p);
            lemma_cong_residues(c0@ as int, (a0 * a0 + beta * (a1 * a1)) % p, p);
        }
        Self::new(c0, c1)
    }

    /// The conjugate `c0 - c1 i`.
    pub fn conjugate(&self) -> (r: Self)
        ensures
            r@ == fp2_conjugate(self@, modulus::<E::Base>()),
    {
        proof {
            use_type_invariant(&self.c0);
            lemma_well_formed(self.c0);
        }
        Self::new(self.c0, FieldElement::zero().sub(&self.c1))
    }

    /// The Frobenius map `x -> x^p`, which on a quadratic extension is conjugation.
    pub fn frobenius(&self) -> (r: Self)
        ensures
            r@ == fp2_conjugate(self@, modulus::<E::Base>()),
    {
        self.conjugate()
    }

    /// `conj(self) / norm(self)`: the inverse of a nonzero element; zero maps to zero.
    pub fn inv(&self) -> (r: Self)
        ensures
            r@ == fp2_inv(self@, E::spec_non_residue(), modulus::<E::Base>()),
    {
        proof {
            use_type_invariant(&self.c0);
            use_type_invariant(&self.c1);
            lemma_well_formed(self.c0);
            lemma_well_formed(self.c1);
        }
        let t0 = self.c0.mul(&self.c0);
        let t1 = self.c1.mul(&self.c1);
        let nt1 = E::mul_by_non_residue(t1);
        let norm = t0.sub(&nt1);
        let norm_inv = norm.inv();
        let neg_c1 = FieldElement::zero().sub(&self.c1);
        proof {
            let p = modulus::<E::Base>() as int;
            let beta = E::spec_non_residue() as int;
            let a0 = self.c0@ as int;
            let a1 = self.c1@ as int;
            lemma_cong_mod(a0 * a0, p);
            lemma_cong_mod(a1 * a1, p);
            lemma_cong_mul(t1@ as int, beta, a1 * a1, beta, p);
            lemma_cong_mod((t1@ as int) * beta, p);
            lemma_cong_sub(t0@ as int, nt1@ as int, a0 * a0, (a1 * a1) * beta, p);
            lemma_cong_mod((t0@ as int) - (nt1@ as int), p);
            assert((a1 * a1) * beta == beta * (a1 * a1)) by (nonlinear_arith);
            lemma_cong_mod(a0 * a0 - beta * (a1 * a1), p);
            lemma_cong_residues(norm@ as int, (a0 * a0 - beta * (a1 * a1)) % p, p);
        }
        Self::new(self.c0.mul(&norm_inv), neg_c1.mul(&norm_inv))
    }

    /// `self^e`, where `e` is the little-endian number in `exp`, by square-and-multiply.
    pub fn pow(&self, exp: &[u64]) -> (r: Self)
        ensures
            r@ == fp2_pow(self@, limbs_nat(exp@), E::spec_non_residue(), modulus::<E::Base>()),
    {
        proof {
            use_type_invariant(&self.c0);
            use_type_invariant(&self.c1);
            lemma_ext_well_formed(*self);
        }
        let ghost x = self@;
        let ghost beta = E::spec_non_residue();
        let ghost p = modulus::<E::Base>();
        let ghost e = limbs_nat(exp@);
        let n = exp.len();
        let mut result = Self::one();
        proof {
            lemma_limbs_nat_bound(exp@);
            lemma_word_pow_is_pow2(n as nat);
            vstd::arithmetic::power2::lemma_pow2_pos((64 * n) as nat);
            vstd::arithmetic::div_mod::lemma_basic_div(e as int, pow2((64 * n) as nat) as int);
        }
        let mut i = n;
        while i > 0
            invariant
                i <= n,
                exp@.len() == n,
                e == limbs_nat(exp@),
                x == self@,
                beta == E::spec_non_residue(),
                p == modulus::<E::Base>(),
                p > 1,
                result@ == fp2_pow(x, e / pow2((64 * i) as nat), beta, p),
            decreases i,
        {
            i = i - 1;
            let limb = exp[i];
            let mut bit: u32 = 64;
            while bit > 0
                invariant
                    bit <= 64,
                    i < n,
                    exp@.len() == n,
                    e == limbs_nat(exp@),
                    limb == exp@[i as int],
                    x == self@,
                    beta == E::spec_non_residue(),
                    p == modulus::<E::Base>(),
                    p > 1,
                    result@ == fp2_pow(x, e / pow2((64 * i + bit) as nat), beta, p),
                decreases bit,
            {
                bit = bit - 1;
                let ghost g = (64 * i + bit) as nat;
                let ghost q = e / pow2(g);
                let ghost h = e / pow2(g + 1);
                proof {
                    lemma_shift_step(e, g);
                    lemma_limb_bit(exp@, i as int, bit);
                    vstd::arithmetic::power2::lemma_pow2_pos(g);
                    vstd::arithmetic::power2::lemma_pow2_pos(g + 1);
                    assert(g + 1 == (64 * i + bit + 1) as nat);
                    let b = q % 2;
                    assert(q / 2 == h) by (nonlinear_arith)
                        requires
                            q == 2 * h + b,
                            0 <= b < 2,
                            h >= 0,
                    ;
                    if q == 0 {
                        assert(h == 0);
                        vstd::arithmetic::div_mod::lemma_small_mod(1, p);
                        vstd::arithmetic::div_mod::lemma_small_mod(0, p);
                        assert(1nat * 1nat + beta * (0nat * 0nat) == 1) by (nonlinear_arith);
                        assert(1nat * 0nat + 0nat * 1nat == 0) by (nonlinear_arith);
                        assert(fp2_mul((1nat, 0nat), (1nat, 0nat), beta, p) == (1nat, 0nat));
                    }
                }
                let ghost before = result@;
                result = result.sqr();
                if (limb >> bit) & 1 == 1 {
                    result = result.mul(self);
                }
                proof {
                    assert(before == fp2_pow(x, h, beta, p));
                    if q > 0 {
                        assert(fp2_pow(x, q, beta, p) == {
                            let s = fp2_mul(before, before, beta, p);
                            if q % 2 == 1 { fp2_mul(s, x, beta, p) } else { s }
                        });
                    }
                    assert(result@ == fp2_pow(x, q, beta, p));
                }
            }
        }
        proof {
            vstd::arithmetic::power::lemma_pow0(2);
            assert(pow2((64 * i) as nat) == 1);
            assert(e / 1 == e);
        }
        result
    }

    /// `self * s` for `s` in the base field.
    pub fn scale(&self, s: FieldElement<E::Base>) -> (r: Self)
        ensures
            r@ == fp2_scale(self@, s@, modulus::<E::Base>()),
    {
        Self::new(self.c0.mul(&s), self.c1.mul(&s))
    }

    /// Whether the two elements are equal.
    pub fn equals(&self, rhs: &Self) -> (r: bool)
        ensures
            r == (self@ == rhs@),
    {
        self.c0.equals(&rhs.c0) && self.c1.equals(&rhs.c1)
    }
}

impl<E: NonResidueMinusOne> ExtensionFieldElement<E> where E::Base: Sqrt3Mod4 {
    /// A square root of `self`, from square roots in the base field.
    pub fn sqrt(&self) -> (r: Self)
        ensures
            r@ == fp2_sqrt(self@, sqrt_exponent::<E::Base>(), modulus::<E::Base>()),
    {
        proof {
            use_type_invariant(&self.c0);
            use_type_invariant(&self.c1);
            lemma_ext_well_formed(*self);
        }
        let a = self.c0;
        let b = self.c1;
        let zero = FieldElement::zero();

        if b.equals(&zero) {
            let sa = a.sqrt();
            if sa.mul(&sa).equals(&a) {
                return Self::new(sa, zero);
            }
            let s = zero.sub(&a).sqrt();
            return Self::new(zero, s);
        }
        let n = a.mul(&a).add(&b.mul(&b)).sqrt();
        let two_inv = FieldElement::two().inv();
        let mut delta = a.add(&n).mul(&two_inv);
        let mut x = delta.sqrt();
        if !x.mul(&x).equals(&delta) {
            delta = a.sub(&n).mul(&two_inv);
            x = delta.sqrt();
        }
        let two_x_inv = x.add(&x).inv();
        let y = b.mul(&two_x_inv);
        Self::new(x, y)
    }
}

impl<E: ExtensionField> PartialEq for ExtensionFieldElement<E> {
    fn eq(&self, other: &Self) -> (r: bool) {
        self.equals(other)
    }
}

impl<E: ExtensionField> PartialEqSpecImpl for ExtensionFieldElement<E> {
    open spec fn obeys_eq_spec() -> bool {
        true
    }

    open spec fn eq_spec(&self, other: &Self) -> bool {
        self@ == other@
    }
}

impl<E: ExtensionField> Eq for ExtensionFieldElement<E> {

}

impl<E: ExtensionField> core::ops::Add<ExtensionFieldElement<E>> for ExtensionFieldElement<E> {
    type Output = ExtensionFieldElement<E>;

    fn add(self, rhs: ExtensionFieldElement<E>) -> (r: ExtensionFieldElement<E>)
        ensures
            r@ == fp2_add(self@, rhs@, modulus::<E::Base>()),
    {
        ExtensionFieldElement::<E>::add(&self, &rhs)
    }
}

impl<E: ExtensionField> vstd::std_specs::ops::AddSpecImpl<ExtensionFieldElement<E>> for ExtensionFieldElement<E> {
    open spec fn obeys_add_spec() -> bool {
        false
    }

    open spec fn add_req(self, rhs: ExtensionFieldElement<E>) -> bool {
        true
    }

    open spec fn add_spec(self, rhs: ExtensionFieldElement<E>) -> ExtensionFieldElement<E> {
        arbitrary()
    }
}

impl<E: ExtensionField> core::ops::Add<&ExtensionFieldElement<E>> for ExtensionFieldElement<E> {
    type Output = ExtensionFieldElement<E>;

    fn add(self, rhs: &ExtensionFieldElement<E>) -> (r: ExtensionFieldElement<E>)
        ensures
            r@ == fp2_add(self@, rhs@, modulus::<E::Base>()),
    {
        ExtensionFieldElement::<E>::add(&self, rhs)
    }
}

impl<E: ExtensionField> vstd::std_specs::ops::AddSpecImpl<&ExtensionFieldElement<E>> for ExtensionFieldElement<E> {
    open spec fn obeys_add_spec() -> bool {
        false
    }

    open spec fn add_req(self, rhs: &ExtensionFieldElement<E>) -> bool {
        true
    }

    open spec fn add_spec(self, rhs: &ExtensionFieldElement<E>) -> ExtensionFieldElement<E> {
        arbitrary()
    }
}

impl<E: ExtensionField> core::ops::Add<&ExtensionFieldElement<E>> for &ExtensionFieldElement<E> {
    type Output = ExtensionFieldElement<E>;

    fn add(self, rhs: &ExtensionFieldElement<E>) -> (r: ExtensionFieldElement<E>)
        ensures
            r@ == fp2_add(self@, rhs@, modulus::<E::Base>()),
    {
        ExtensionFieldElement::<E>::add(self, rhs)
    }
}

impl<E: ExtensionField> vstd::std_specs::ops::AddSpecImpl<&ExtensionFieldElement<E>> for &ExtensionFieldElement<E> {
    open spec fn obeys_add_spec() -> bool {
        false
    }

    open spec fn add_req(self, rhs: &ExtensionFieldElement<E>) -> bool {
        true
    }

    open spec fn add_spec(self, rhs: &ExtensionFieldElement<E>) -> ExtensionFieldElement<E> {
        arbitrary()
    }
}

impl<E: ExtensionField> core::ops::AddAssign<ExtensionFieldElement<E>> for ExtensionFieldElement<E> {
    fn add_assign(&mut self, rhs: ExtensionFieldElement<E>)
        ensures
            final(self)@ == fp2_add(old(self)@, rhs@, modulus::<E::Base>()),
    {
        *self = ExtensionFieldElement::<E>::add(self, &rhs);
    }
}

impl<E: ExtensionField> core::ops::AddAssign<&ExtensionFieldElement<E>> for ExtensionFieldElement<E> {
    fn add_assign(&mut self, rhs: &ExtensionFieldElement<E>)
        ensures
            final(self)@ == fp2_add(old(self)@, rhs@, modulus::<E::Base>()),
    {
        *self = ExtensionFieldElement::<E>::add(self, rhs);
    }
}

impl<E: ExtensionField> core::ops::Sub<ExtensionFieldElement<E>> for ExtensionFieldElement<E> {
    type Output = ExtensionFieldElement<E>;

    fn sub(self, rhs: ExtensionFieldElement<E>) -> (r: ExtensionFieldElement<E>)
        ensures
            r@ == fp2_sub(self@, rhs@, modulus::<E::Base>()),
    {
        ExtensionFieldElement::<E>::sub(&self, &rhs)
    }
}

impl<E: ExtensionField> vstd::std_specs::ops::SubSpecImpl<ExtensionFieldElement<E>> for ExtensionFieldElement<E> {
    open spec fn obeys_sub_spec() -> bool {
        false
    }

    open spec fn sub_req(self, rhs: ExtensionFieldElement<E>) -> bool {
        true
    }

    open spec fn sub_spec(self, rhs: ExtensionFieldElement<E>) -> ExtensionFieldElement<E> {
        arbitrary()
    }
}

impl<E: ExtensionField> core::ops::Sub<&ExtensionFieldElement<E>> for ExtensionFieldElement<E> {
    type Output = ExtensionFieldElement<E>;

    fn sub(self, rhs: &ExtensionFieldElement<E>) -> (r: ExtensionFieldElement<E>)
        ensures
            r@ == fp2_sub(self@, rhs@, modulus::<E::Base>()),
    {
        ExtensionFieldElement::<E>::sub(&self, rhs)
    }
}

impl<E: ExtensionField> vstd::std_specs::ops::SubSpecImpl<&ExtensionFieldElement<E>> for ExtensionFieldElement<E> {
    open spec fn obeys_sub_spec() -> bool {
        false
    }

    open spec fn sub_req(self, rhs: &ExtensionFieldElement<E>) -> bool {
        true
    }

    open spec fn sub_spec(self, rhs: &ExtensionFieldElement<E>) -> ExtensionFieldElement<E> {
        arbitrary()
    }
}

impl<E: ExtensionField> core::ops::Sub<&ExtensionFieldElement<E>> for &ExtensionFieldElement<E> {
    type Output = ExtensionFieldElement<E>;

    fn sub(self, rhs: &ExtensionFieldElement<E>) -> (r: ExtensionFieldElement<E>)
        ensures
            r@ == fp2_sub(self@, rhs@, modulus::<E::Base>()),
    {
        ExtensionFieldElement::<E>::sub(self, rhs)
    }
}

impl<E: ExtensionField> vstd::std_specs::ops::SubSpecImpl<&ExtensionFieldElement<E>> for &ExtensionFieldElement<E> {
    open spec fn obeys_sub_spec() -> bool {
        false
    }

    open spec fn sub_req(self, rhs: &ExtensionFieldElement<E>) -> bool {
        true
    }

    open spec fn sub_spec(self, rhs: &ExtensionFieldElement<E>) -> ExtensionFieldElement<E> {
        arbitrary()
    }
}

impl<E: ExtensionField> core::ops::SubAssign<ExtensionFieldElement<E>> for ExtensionFieldElement<E> {
    fn sub_assign(&mut self, rhs: ExtensionFieldElement<E>)
        ensures
            final(self)@ == fp2_sub(old(self)@, rhs@, modulus::<E::Base>()),
    {
        *self = ExtensionFieldElement::<E>::sub(self, &rhs);
    }
}

impl<E: ExtensionField> core::ops::SubAssign<&ExtensionFieldElement<E>> for ExtensionFieldElement<E> {
    fn sub_assign(&mut self, rhs: &ExtensionFieldElement<E>)
        ensures
            final(self)@ == fp2_sub(old(self)@, rhs@, modulus::<E::Base>()),
    {
        *self = ExtensionFieldElement::<E>::sub(self, rhs);
    }
}

impl<E: ExtensionField> core::ops::Mul<ExtensionFieldElement<E>> for ExtensionFieldElement<E> {
    type Output = ExtensionFieldElement<E>;

    fn mul(self, rhs: ExtensionFieldElement<E>) -> (r: ExtensionFieldElement<E>)
        ensures
            r@ == fp2_mul(self@, rhs@, E::spec_non_residue(), modulus::<E::Base>()),
    {
        ExtensionFieldElement::<E>::mul(&self, &rhs)
    }
}

impl<E: ExtensionField> vstd::std_specs::ops::MulSpecImpl<ExtensionFieldElement<E>> for ExtensionFieldElement<E> {
    open spec fn obeys_mul_spec() -> bool {
        false
    }

    open spec fn mul_req(self, rhs: ExtensionFieldElement<E>) -> bool {
        true
    }

    open spec fn mul_spec(self, rhs: ExtensionFieldElement<E>) -> ExtensionFieldElement<E> {
        arbitrary()
    }
}

impl<E: ExtensionField> core::ops::Mul<&ExtensionFieldElement<E>> for ExtensionFieldElement<E> {
    type Output = ExtensionFieldElement<E>;

    fn mul(self, rhs: &ExtensionFieldElement<E>) -> (r: ExtensionFieldElement<E>)
        ensures
            r@ == fp2_mul(self@, rhs@, E::spec_non_residue(), modulus::<E::Base>()),
    {
        ExtensionFieldElement::<E>::mul(&self, rhs)
    }
}

impl<E: ExtensionField> vstd::std_specs::ops::MulSpecImpl<&ExtensionFieldElement<E>> for ExtensionFieldElement<E> {
    open spec fn obeys_mul_spec() -> bool {
        false
    }

    open spec fn mul_req(self, rhs: &ExtensionFieldElement<E>) -> bool {
        true
    }

    open spec fn mul_spec(self, rhs: &ExtensionFieldElement<E>) -> ExtensionFieldElement<E> {
        arbitrary()
    }
}

impl<E: ExtensionField> core::ops::Mul<&ExtensionFieldElement<E>> for &ExtensionFieldElement<E> {
    type Output = ExtensionFieldElement<E>;

    fn mul(self, rhs: &ExtensionFieldElement<E>) -> (r: ExtensionFieldElement<E>)
        ensures
            r@ == fp2_mul(self@, rhs@, E::spec_non_residue(), modulus::<E::Base>()),
    {
        ExtensionFieldElement::<E>::mul(self, rhs)
    }
}

impl<E: ExtensionField> vstd::std_specs::ops::MulSpecImpl<&ExtensionFieldElement<E>> for &ExtensionFieldElement<E> {
    open spec fn obeys_mul_spec() -> bool {
        false
    }

    open spec fn mul_req(self, rhs: &ExtensionFieldElement<E>) -> bool {
        true
    }

    open spec fn mul_spec(self, rhs: &ExtensionFieldElement<E>) -> ExtensionFieldElement<E> {
        arbitrary()
    }
}

impl<E: ExtensionField> core::ops::MulAssign<ExtensionFieldElement<E>> for ExtensionFieldElement<E> {
    fn mul_assign(&mut self, rhs: ExtensionFieldElement<E>)
        ensures
            final(self)@ == fp2_mul(old(self)@, rhs@, E::spec_non_residue(), modulus::<E::Base>()),
    {
        *self = ExtensionFieldElement::<E>::mul(self, &rhs);
    }
}

impl<E: ExtensionField> core::ops::MulAssign<&ExtensionFieldElement<E>> for ExtensionFieldElement<E> {
    fn mul_assign(&mut self, rhs: &ExtensionFieldElement<E>)
        ensures
            final(self)@ == fp2_mul(old(self)@, rhs@, E::spec_non_residue(), modulus::<E::Base>()),
    {
        *self = ExtensionFieldElement::<E>::mul(self, rhs);
    }
}

impl<E: ExtensionField> core::ops::Mul<FieldElement<E::Base>> for ExtensionFieldElement<E> {
    type Output = ExtensionFieldElement<E>;

    fn mul(self, rhs: FieldElement<E::Base>) -> (r: ExtensionFieldElement<E>)
        ensures
            r@ == fp2_scale(self@, rhs@, modulus::<E::Base>()),
    {
        self.scale(rhs)
    }
}

impl<E: ExtensionField> vstd::std_specs::ops::MulSpecImpl<FieldElement<E::Base>> for ExtensionFieldElement<E> {
    open spec fn obeys_mul_spec() -> bool {
        false
    }

    open spec fn mul_req(self, rhs: FieldElement<E::Base>) -> bool {
        true
    }

    open spec fn mul_spec(self, rhs: FieldElement<E::Base>) -> ExtensionFieldElement<E> {
        arbitrary()
    }
}

/// `&a + b`, computed as `a.add(&b)`. Verus refuses an `ensures` on this impl (its check
/// resolves to the inherent method), so no contract states its result.
impl<E: ExtensionField> core::ops::Add<ExtensionFieldElement<E>> for &ExtensionFieldElement<E> {
    type Output = ExtensionFieldElement<E>;

    fn add(self, rhs: ExtensionFieldElement<E>) -> (r: ExtensionFieldElement<E>) {
        self.add(&rhs)
    }
}

impl<E: ExtensionField> vstd::std_specs::ops::AddSpecImpl<ExtensionFieldElement<E>> for &ExtensionFieldElement<E> {
    open spec fn obeys_add_spec() -> bool {
        false
    }

    open spec fn add_req(self, rhs: ExtensionFieldElement<E>) -> bool {
        true
    }

    open spec fn add_spec(self, rhs: ExtensionFieldElement<E>) -> ExtensionFieldElement<E> {
        arbitrary()
    }
}

/// `&a - b`, computed as `a.sub(&b)`. Verus refuses an `ensures` on this impl (its check
/// resolves to the inherent method), so no contract states its result.
impl<E: ExtensionField> core::ops::Sub<ExtensionFieldElement<E>> for &ExtensionFieldElement<E> {
    type Output = ExtensionFieldElement<E>;

    fn sub(self, rhs: ExtensionFieldElement<E>) -> (r: ExtensionFieldElement<E>) {
        self.sub(&rhs)
    }
}

impl<E: ExtensionField> vstd::std_specs::ops::SubSpecImpl<ExtensionFieldElement<E>> for &ExtensionFieldElement<E> {
    open spec fn obeys_sub_spec() -> bool {
        false
    }

    open spec fn sub_req(self, rhs: ExtensionFieldElement<E>) -> bool {
        true
    }

    open spec fn sub_spec(self, rhs: ExtensionFieldElement<E>) -> ExtensionFieldElement<E> {
        arbitrary()
    }
}

/// `&a * b`, computed as `a.mul(&b)`. Verus refuses an `ensures` on this impl (its check
/// resolves to the inherent method), so no contract states its result.
impl<E: ExtensionField> core::ops::Mul<ExtensionFieldElement<E>> for &ExtensionFieldElement<E> {
    type Output = ExtensionFieldElement<E>;

    fn mul(self, rhs: ExtensionFieldElement<E>) -> (r: ExtensionFieldElement<E>) {
        self.mul(&rhs)
    }
}

impl<E: ExtensionField> vstd::std_specs::ops::MulSpecImpl<ExtensionFieldElement<E>> for &ExtensionFieldElement<E> {
    open spec fn obeys_mul_spec() -> bool {
        false
    }

    open spec fn mul_req(self, rhs: ExtensionFieldElement<E>) -> bool {
        true
    }

    open spec fn mul_spec(self, rhs: ExtensionFieldElement<E>) -> ExtensionFieldElement<E> {
        arbitrary()
    }
}

/// `&a * b`, computed as `a.scale(b)`. Verus refuses an `ensures` on this impl (its check
/// resolves to the inherent method), so no contract states its result.
impl<E: ExtensionField> core::ops::Mul<FieldElement<E::Base>> for &ExtensionFieldElement<E> {
    type Output = ExtensionFieldElement<E>;

    fn mul(self, rhs: FieldElement<E::Base>) -> (r: ExtensionFieldElement<E>) {
        self.scale(rhs)
    }
}

impl<E: ExtensionField> vstd::std_specs::ops::MulSpecImpl<FieldElement<E::Base>> for &ExtensionFieldElement<E> {
    open spec fn obeys_mul_spec() -> bool {
        false
    }

    open spec fn mul_req(self, rhs: FieldElement<E::Base>) -> bool {
        true
    }

    open spec fn mul_spec(self, rhs: FieldElement<E::Base>) -> ExtensionFieldElement<E> {
        arbitrary()
    }
}

impl<E: ExtensionField> core::ops::Neg for ExtensionFieldElement<E> {
    type Output = ExtensionFieldElement<E>;

    fn neg(self) -> (r: ExtensionFieldElement<E>)
        ensures
            r@ == fp2_neg(self@, modulus::<E::Base>()),
    {
        ExtensionFieldElement::<E>::neg(&self)
    }
}

impl<E: ExtensionField> vstd::std_specs::ops::NegSpecImpl for ExtensionFieldElement<E> {
    open spec fn obeys_neg_spec() -> bool {
        false
    }

    open spec fn neg_req(self) -> bool {
        true
    }

    open spec fn neg_spec(self) -> ExtensionFieldElement<E> {
        arbitrary()
    }
}

impl<E: ExtensionField> core::ops::Neg for &ExtensionFieldElement<E> {
    type Output = ExtensionFieldElement<E>;

    fn neg(self) -> (r: ExtensionFieldElement<E>)
        ensures
            r@ == fp2_neg(self@, modulus::<E::Base>()),
    {
        ExtensionFieldElement::<E>::neg(self)
    }
}

impl<E: ExtensionField> vstd::std_specs::ops::NegSpecImpl for &ExtensionFieldElement<E> {
    open spec fn obeys_neg_spec() -> bool {
        false
    }

    open spec fn neg_req(self) -> bool {
        true
    }

    open spec fn neg_spec(self) -> ExtensionFieldElement<E> {
        arbitrary()
    }
}

/// The extension of the CSIDH-512 base field by `i` with `i^2 = -1`.
#[derive(Debug, Clone, Copy, PartialEq, Eq, Hash)]
pub struct Csidh512Fp2;

impl ExtensionField for Csidh512Fp2 {
    type Base = Csidh512FieldOrder;

    open spec fn spec_non_residue() -> nat {
        (modulus::<Csidh512FieldOrder>() - 1) as nat
    }

    fn non_residue() -> (r: FieldElement<Csidh512FieldOrder>) {
        let r = FieldElement::zero().sub(&FieldElement::one());
        proof {
            lemma_csidh512_field_params();
            vstd::arithmetic::div_mod::lemma_mod_add_multiples_vanish(-1, modulus::<Csidh512FieldOrder>() as int);
            vstd::arithmetic::div_mod::lemma_small_mod((modulus::<Csidh512FieldOrder>() - 1) as nat, modulus::<Csidh512FieldOrder>());
        }
        r
    }

    fn mul_by_non_residue(x: FieldElement<Csidh512FieldOrder>) -> (r: FieldElement<Csidh512FieldOrder>) {
        proof {
            use_type_invariant(&x);
            lemma_well_formed(x);
        }
        let r = FieldElement::zero().sub(&x);
        proof {
            let p = modulus::<Csidh512FieldOrder>() as int;
            let v = x@ as int;
            assert(v * (p - 1) == (-v) + v * p) by (nonlinear_arith);
            vstd::arithmetic::div_mod::lemma_mod_multiples_vanish(v, -v, p);
            assert(v * p == p * v) by (nonlinear_arith);
        }
        r
    }
}

impl NonResidueMinusOne for Csidh512Fp2 {
    proof fn lemma_non_residue_is_minus_one() {
    }
}

} // verus!

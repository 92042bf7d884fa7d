//! Algebraic laws of the field, extension and curve operations, stated over the
//! same spec functions as the operations' contracts.
use vstd::arithmetic::div_mod::*;
use vstd::arithmetic::mul::*;
use vstd::arithmetic::power::*;
use vstd::arithmetic::power2::{lemma_pow2_unfold, pow2};
use vstd::prelude::*;

use crate::bytes::bytes_nat;
use crate::extension::{
    fp2_add, fp2_conjugate, fp2_inv, fp2_mul, fp2_neg, fp2_pow, fp2_scale, fp2_sqrt, fp2_sub,
    lemma_well_formed_ext, Csidh512Fp2, ExtensionField, ExtensionFieldElement, Fp2,
    NonResidueMinusOne,
};
use crate::fields::{lemma_csidh512_field_params, Csidh512FieldOrder};
use crate::curve::{
    inv_mod, jac_add, jac_affine, jac_double, jac_eq, jac_infinity, jac_mul, lemma_point_reduced,
    residue, weierstrass_j, weierstrass_lift, Jac, Point,
};
use crate::curve::montgomery::{
    ext_a24_of, ext_montgomery_j, lemma_ext_montgomery_point_reduced,
    lemma_montgomery_point_reduced, ExtensionMontgomeryPoint, MontgomeryPoint, ext_montgomery_on_curve, montgomery_a24_of, montgomery_j, montgomery_on_curve, xz2_add, xz2_affine, xz2_double, xz2_eq,
    xz2_infinity, xz2_ladder, xz2_mult, xz_add, xz_affine, xz_double, xz_eq, xz_infinity,
    xz_ladder, xz_mult, Xz, Xz2,
};
use crate::field::{
    lemma_params, lemma_well_formed, limb_count, modulus, radix, sqrt_exponent, sub_mod, Field,
    FieldElement, Sqrt3Mod4,
};
use crate::limbs::{word, word_pow};
use crate::primes::{
    is_prime, lemma_euclid, lemma_fermat, lemma_fermat_inverse, lemma_inverse_exists,
    lemma_minus_one_not_square, lemma_root_of_negation, lemma_root_of_square, lemma_square_roots,
};
use crate::modular::{
    cong, lemma_add_step, lemma_cong_add, lemma_cong_mod, lemma_cong_mul, lemma_cong_residues,
    lemma_cong_to_mod, lemma_mul_step, lemma_sub_step, pow_mod,
};

verus! {

/// Addition is commutative: `a + b = b + a`.
pub proof fn law_add_commutative<P: Field>(a: FieldElement<P>, b: FieldElement<P>)
    ensures
        (a@ + b@) % modulus::<P>() == (b@ + a@) % modulus::<P>(),
{
}

/// Addition is associative: `(a + b) + c = a + (b + c)`.
pub proof fn law_add_associative<P: Field>(a: FieldElement<P>, b: FieldElement<P>, c: FieldElement<P>)
    requires
        a.well_formed(),
    ensures
        ((a@ + b@) % modulus::<P>() + c@) % modulus::<P>() == (a@ + (b@ + c@) % modulus::<P>())
            % modulus::<P>(),
{
    lemma_well_formed(a);
    let p = modulus::<P>() as int;
    let (x, y, z) = (a@ as int, b@ as int, c@ as int);
    lemma_cong_mod(x + y, p);
    lemma_cong_mod(y + z, p);
    lemma_cong_add((x + y) % p, z, x + y, z, p);
    lemma_cong_add(x, (y + z) % p, x, y + z, p);
    assert((x + y) + z == x + (y + z));
}

/// `0` is the identity of addition: `a + 0 = a`.
pub proof fn law_add_zero<P: Field>(a: FieldElement<P>)
    requires
        a.well_formed(),
    ensures
        (a@ + 0) % modulus::<P>() == a@,
{
    lemma_well_formed(a);
    lemma_small_mod(a@, modulus::<P>());
}

/// Subtraction undoes addition: `(a - b) + b = a`.
pub proof fn law_sub_then_add<P: Field>(a: FieldElement<P>, b: FieldElement<P>)
    requires
        a.well_formed(),
    ensures
        (sub_mod(a@, b@, modulus::<P>()) + b@) % modulus::<P>() == a@,
{
    lemma_well_formed(a);
    let p = modulus::<P>() as int;
    lemma_cong_mod(a@ - b@, p);
    lemma_cong_add((a@ - b@) % p, b@ as int, a@ - b@, b@ as int, p);
    lemma_cong_mod((((a@ - b@) % p) + b@), p);
    lemma_small_mod(a@, p as nat);
}

/// `a - a = 0`.
pub proof fn law_sub_self<P: Field>(a: FieldElement<P>)
    requires
        a.well_formed(),
    ensures
        sub_mod(a@, a@, modulus::<P>()) == 0,
{
    lemma_well_formed(a);
    assert((a@ as int) - (a@ as int) == 0);
    lemma_small_mod(0, modulus::<P>());
}

/// Multiplication is commutative: `a b = b a`.
pub proof fn law_mul_commutative<P: Field>(a: FieldElement<P>, b: FieldElement<P>)
    ensures
        (a@ * b@) % modulus::<P>() == (b@ * a@) % modulus::<P>(),
{
    lemma_mul_is_commutative(a@ as int, b@ as int);
}

/// Multiplication is associative: `(a b) c = a (b c)`.
pub proof fn law_mul_associative<P: Field>(a: FieldElement<P>, b: FieldElement<P>, c: FieldElement<P>)
    requires
        a.well_formed(),
    ensures
        ((a@ * b@) % modulus::<P>() * c@) % modulus::<P>() == (a@ * ((b@ * c@) % modulus::<P>()))
            % modulus::<P>(),
{
    lemma_well_formed(a);
    let p = modulus::<P>() as int;
    let (x, y, z) = (a@ as int, b@ as int, c@ as int);
    lemma_cong_mod(x * y, p);
    lemma_cong_mod(y * z, p);
    lemma_cong_mul((x * y) % p, z, x * y, z, p);
    lemma_cong_mul(x, (y * z) % p, x, y * z, p);
    lemma_mul_is_associative(x, y, z);
}

/// Multiplication distributes over addition: `a (b + c) = a b + a c`.
pub proof fn law_distributive<P: Field>(a: FieldElement<P>, b: FieldElement<P>, c: FieldElement<P>)
    requires
        a.well_formed(),
    ensures
        (a@ * ((b@ + c@) % modulus::<P>())) % modulus::<P>() == ((a@ * b@) % modulus::<P>() + (a@
            * c@) % modulus::<P>()) % modulus::<P>(),
{
    lemma_well_formed(a);
    let p = modulus::<P>() as int;
    let (x, y, z) = (a@ as int, b@ as int, c@ as int);
    lemma_cong_mod(y + z, p);
    lemma_cong_mul(x, (y + z) % p, x, y + z, p);
    lemma_cong_mod(x * y, p);
    lemma_cong_mod(x * z, p);
    lemma_cong_add((x * y) % p, (x * z) % p, x * y, x * z, p);
    lemma_mul_is_distributive_add(x, y, z);
}

/// Multiplying by `-1 = p - 1` negates: `(-1) a = -a`, and `(-1) (-1) = 1`.
pub proof fn law_mul_minus_one<P: Field>(a: FieldElement<P>)
    requires
        a.well_formed(),
    ensures
        (((modulus::<P>() - 1) as nat) * a@) % modulus::<P>() == sub_mod(0, a@, modulus::<P>()),
        (((modulus::<P>() - 1) as nat) * ((modulus::<P>() - 1) as nat)) % modulus::<P>() == 1nat
            % modulus::<P>(),
{
    lemma_well_formed(a);
    let p = modulus::<P>() as int;
    let x = a@ as int;
    let m = p - 1;
    assert(m * x == p * x + (0 - x)) by (nonlinear_arith)
        requires
            m == p - 1,
    ;
    lemma_mod_multiples_vanish(x, 0 - x, p);
    assert(m * m == p * (p - 2) + 1) by (nonlinear_arith)
        requires
            m == p - 1,
    ;
    lemma_mod_multiples_vanish(p - 2, 1, p);
}

/// `1` is the identity of multiplication and `0` absorbs it: `a 1 = a`, `a 0 = 0`.
pub proof fn law_mul_one_zero<P: Field>(a: FieldElement<P>)
    requires
        a.well_formed(),
    ensures
        (a@ * 1) % modulus::<P>() == a@,
        (a@ * 0) % modulus::<P>() == 0,
{
    lemma_well_formed(a);
    lemma_small_mod(a@, modulus::<P>());
    lemma_small_mod(0, modulus::<P>());
    assert(a@ * 0 == 0);
}

/// Small powers: `a^0 = 1`, `a^1 = a` and `a^2 = a a`.
pub proof fn law_pow_small<P: Field>(a: FieldElement<P>)
    requires
        a.well_formed(),
    ensures
        pow_mod(a@, 0, modulus::<P>()) == 1,
        pow_mod(a@, 1, modulus::<P>()) == a@,
        pow_mod(a@, 2, modulus::<P>()) == (a@ * a@) % modulus::<P>(),
{
    lemma_well_formed(a);
    let p = modulus::<P>();
    lemma_pow0(a@ as int);
    lemma_pow1(a@ as int);
    lemma_small_mod(1, p);
    lemma_small_mod(a@, p);
    reveal_with_fuel(pow, 3);
    assert(pow(a@ as int, 2) == a@ * pow(a@ as int, 1));
}

/// The inverse of zero is zero: `0^(p - 2) = 0`.
pub proof fn law_inv_zero<P: Field>(a: FieldElement<P>)
    requires
        a.well_formed(),
        a@ == 0,
    ensures
        pow_mod(a@, (modulus::<P>() - 2) as nat, modulus::<P>()) == 0,
{
    lemma_well_formed(a);
    let p = modulus::<P>();
    assert(p >= 3);
    lemma0_pow((p - 2) as nat);
    lemma_small_mod(0, p);
}

/// Writing an element to bytes and reading them back gives the element: the bytes
/// that `to_bytes_le` returns stand for `a`, and `from_bytes_unchecked` of them is
/// their value reduced modulo `p`, which is `a` again.
pub proof fn law_bytes_roundtrip<P: Field>(a: FieldElement<P>, bytes: Seq<u8>)
    requires
        a.well_formed(),
        bytes_nat(bytes) == a@,
    ensures
        bytes_nat(bytes) % modulus::<P>() == a@,
{
    lemma_well_formed(a);
    lemma_small_mod(a@, modulus::<P>());
}

/// Multiplication in the extension is commutative: `a b = b a`.
pub proof fn law_fp2_mul_commutative<E: ExtensionField>(a: ExtensionFieldElement<E>, b: ExtensionFieldElement<E>)
    ensures
        fp2_mul(a@, b@, E::spec_non_residue(), modulus::<E::Base>()) == fp2_mul(
            b@,
            a@,
            E::spec_non_residue(),
            modulus::<E::Base>(),
        ),
{
    let (x, y) = (a@, b@);
    lemma_mul_is_commutative(x.0 as int, y.0 as int);
    lemma_mul_is_commutative(x.1 as int, y.1 as int);
    lemma_mul_is_commutative(x.0 as int, y.1 as int);
    lemma_mul_is_commutative(x.1 as int, y.0 as int);
}

/// `1` is the identity of multiplication in the extension and `0` absorbs it.
pub proof fn law_fp2_mul_one_zero<E: ExtensionField>(a: ExtensionFieldElement<E>)
    requires
        a.well_formed(),
    ensures
        fp2_mul(a@, (1nat, 0nat), E::spec_non_residue(), modulus::<E::Base>()) == a@,
        fp2_mul(a@, (0nat, 0nat), E::spec_non_residue(), modulus::<E::Base>()) == (0nat, 0nat),
{
    lemma_well_formed_ext(a);
    let p = modulus::<E::Base>();
    let beta = E::spec_non_residue();
    let x = a@;
    assert(x.0 * 1 + beta * (x.1 * 0) == x.0) by (nonlinear_arith);
    assert(x.0 * 0 + x.1 * 1 == x.1) by (nonlinear_arith);
    assert(x.0 * 0 + beta * (x.1 * 0) == 0) by (nonlinear_arith);
    assert(x.0 * 0 + x.1 * 0 == 0) by (nonlinear_arith);
    lemma_small_mod(x.0, p);
    lemma_small_mod(x.1, p);
    lemma_small_mod(0, p);
}

/// Multiplication in the extension is associative: `(a b) c = a (b c)`.
#[verifier::spinoff_prover]
pub proof fn law_fp2_mul_associative<E: ExtensionField>(
    a: ExtensionFieldElement<E>,
    b: ExtensionFieldElement<E>,
    c: ExtensionFieldElement<E>,
)
    requires
        a.well_formed(),
    ensures
        fp2_mul(
            fp2_mul(a@, b@, E::spec_non_residue(), modulus::<E::Base>()),
            c@,
            E::spec_non_residue(),
            modulus::<E::Base>(),
        ) == fp2_mul(
            a@,
            fp2_mul(b@, c@, E::spec_non_residue(), modulus::<E::Base>()),
            E::spec_non_residue(),
            modulus::<E::Base>(),
        ),
{
    lemma_well_formed_ext(a);
    lemma_fp2_mul_assoc(a@, b@, c@, E::spec_non_residue(), modulus::<E::Base>());
}

/// Associativity of `fp2_mul` on pairs of integers.
#[verifier::spinoff_prover]
proof fn lemma_fp2_mul_assoc(a: Fp2, b: Fp2, c: Fp2, beta_n: nat, pn: nat)
    requires
        pn > 0,
    ensures
        fp2_mul(fp2_mul(a, b, beta_n, pn), c, beta_n, pn) == fp2_mul(a, fp2_mul(b, c, beta_n, pn), beta_n, pn),
{
    let p = pn as int;
    let beta = beta_n as int;
    let (a0, a1) = (a.0 as int, a.1 as int);
    let (b0, b1) = (b.0 as int, b.1 as int);
    let (c0, c1) = (c.0 as int, c.1 as int);
    let i_u0 = a0 * b0 + beta * (a1 * b1);
    let i_u1 = a0 * b1 + a1 * b0;
    let i_v0 = b0 * c0 + beta * (b1 * c1);
    let i_v1 = b0 * c1 + b1 * c0;
    let u0 = i_u0 % p;
    let u1 = i_u1 % p;
    let v0 = i_v0 % p;
    let v1 = i_v1 % p;
    lemma_cong_mod(i_u0, p);
    lemma_cong_mod(i_u1, p);
    lemma_cong_mod(i_v0, p);
    lemma_cong_mod(i_v1, p);
    // left: ((u0 c0 + beta u1 c1), (u0 c1 + u1 c0))
    lemma_cong_mul(u0, c0, i_u0, c0, p);
    lemma_cong_mul(u1, c1, i_u1, c1, p);
    lemma_cong_mul(beta, u1 * c1, beta, i_u1 * c1, p);
    lemma_cong_add(u0 * c0, beta * (u1 * c1), i_u0 * c0, beta * (i_u1 * c1), p);
    lemma_cong_mul(u0, c1, i_u0, c1, p);
    lemma_cong_mul(u1, c0, i_u1, c0, p);
    lemma_cong_add(u0 * c1, u1 * c0, i_u0 * c1, i_u1 * c0, p);
    // right: ((a0 v0 + beta a1 v1), (a0 v1 + a1 v0))
    lemma_cong_mul(a0, v0, a0, i_v0, p);
    lemma_cong_mul(a1, v1, a1, i_v1, p);
    lemma_cong_mul(beta, a1 * v1, beta, a1 * i_v1, p);
    lemma_cong_add(a0 * v0, beta * (a1 * v1), a0 * i_v0, beta * (a1 * i_v1), p);
    lemma_cong_mul(a0, v1, a0, i_v1, p);
    lemma_cong_mul(a1, v0, a1, i_v0, p);
    lemma_cong_add(a0 * v1, a1 * v0, a0 * i_v1, a1 * i_v0, p);
    assert((a0 * b0 + beta * (a1 * b1)) * c0 + beta * ((a0 * b1 + a1 * b0) * c1) == a0 * (b0 * c0
        + beta * (b1 * c1)) + beta * (a1 * (b0 * c1 + b1 * c0))) by {
        lemma_fp2_assoc_real(a0, a1, b0, b1, c0, c1, beta);
    }
    assert((a0 * b0 + beta * (a1 * b1)) * c1 + (a0 * b1 + a1 * b0) * c0 == a0 * (b0 * c1 + b1 * c0)
        + a1 * (b0 * c0 + beta * (b1 * c1))) by {
        lemma_fp2_assoc_imag(a0, a1, b0, b1, c0, c1, beta);
    }
}

proof fn lemma_fp2_assoc_real(a0: int, a1: int, b0: int, b1: int, c0: int, c1: int, beta: int)
    ensures
        (a0 * b0 + beta * (a1 * b1)) * c0 + beta * ((a0 * b1 + a1 * b0) * c1) == a0 * (b0 * c0 + beta
            * (b1 * c1)) + beta * (a1 * (b0 * c1 + b1 * c0)),
{
    lemma_mul_is_distributive_add_other_way(c0, a0 * b0, beta * (a1 * b1));
    lemma_mul_is_distributive_add_other_way(c1, a0 * b1, a1 * b0);
    lemma_mul_is_distributive_add(beta, (a0 * b1) * c1, (a1 * b0) * c1);
    lemma_mul_is_distributive_add(a0, b0 * c0, beta * (b1 * c1));
    lemma_mul_is_distributive_add(a1, b0 * c1, b1 * c0);
    lemma_mul_is_distributive_add(beta, a1 * (b0 * c1), a1 * (b1 * c0));
    assert((a0 * b0) * c0 == a0 * (b0 * c0)) by (nonlinear_arith);
    assert((beta * (a1 * b1)) * c0 == beta * (a1 * (b1 * c0))) by (nonlinear_arith);
    assert(beta * ((a0 * b1) * c1) == a0 * (beta * (b1 * c1))) by (nonlinear_arith);
    assert(beta * ((a1 * b0) * c1) == beta * (a1 * (b0 * c1))) by (nonlinear_arith);
}

proof fn lemma_fp2_assoc_imag(a0: int, a1: int, b0: int, b1: int, c0: int, c1: int, beta: int)
    ensures
        (a0 * b0 + beta * (a1 * b1)) * c1 + (a0 * b1 + a1 * b0) * c0 == a0 * (b0 * c1 + b1 * c0) + a1
            * (b0 * c0 + beta * (b1 * c1)),
{
    lemma_mul_is_distributive_add_other_way(c1, a0 * b0, beta * (a1 * b1));
    lemma_mul_is_distributive_add_other_way(c0, a0 * b1, a1 * b0);
    lemma_mul_is_distributive_add(a0, b0 * c1, b1 * c0);
    lemma_mul_is_distributive_add(a1, b0 * c0, beta * (b1 * c1));
    assert((a0 * b0) * c1 == a0 * (b0 * c1)) by (nonlinear_arith);
    assert((beta * (a1 * b1)) * c1 == a1 * (beta * (b1 * c1))) by (nonlinear_arith);
    assert((a0 * b1) * c0 == a0 * (b1 * c0)) by (nonlinear_arith);
    assert((a1 * b0) * c0 == a1 * (b0 * c0)) by (nonlinear_arith);
}

/// Conjugation is an involution: `conj(conj(a)) = a`.
pub proof fn law_fp2_conjugate_involution<E: ExtensionField>(a: ExtensionFieldElement<E>)
    requires
        a.well_formed(),
    ensures
        fp2_conjugate(fp2_conjugate(a@, modulus::<E::Base>()), modulus::<E::Base>()) == a@,
{
    lemma_well_formed_ext(a);
    let p = modulus::<E::Base>() as int;
    let x = a@.1 as int;
    lemma_cong_mod(0 - x, p);
    crate::modular::lemma_cong_sub(0, (0 - x) % p, 0, 0 - x, p);
    lemma_small_mod(x as nat, p as nat);
    lemma_cong_to_mod(x, 0 - (0 - x) % p, p);
}

/// Conjugation is multiplicative: `conj(a b) = conj(a) conj(b)`.
#[verifier::spinoff_prover]
pub proof fn law_fp2_conjugate_multiplicative<E: ExtensionField>(
    a: ExtensionFieldElement<E>,
    b: ExtensionFieldElement<E>,
)
    requires
        a.well_formed(),
    ensures
        fp2_conjugate(fp2_mul(a@, b@, E::spec_non_residue(), modulus::<E::Base>()), modulus::<E::Base>())
            == fp2_mul(
            fp2_conjugate(a@, modulus::<E::Base>()),
            fp2_conjugate(b@, modulus::<E::Base>()),
            E::spec_non_residue(),
            modulus::<E::Base>(),
        ),
{
    lemma_well_formed_ext(a);
    let p = modulus::<E::Base>() as int;
    let beta = E::spec_non_residue() as int;
    let (a0, a1) = (a@.0 as int, a@.1 as int);
    let (b0, b1) = (b@.0 as int, b@.1 as int);
    let na1 = (0 - a1) % p;
    let nb1 = (0 - b1) % p;
    lemma_cong_mod(0 - a1, p);
    lemma_cong_mod(0 - b1, p);
    lemma_cong_mul(na1, nb1, 0 - a1, 0 - b1, p);
    lemma_cong_mul(beta, na1 * nb1, beta, (0 - a1) * (0 - b1), p);
    lemma_cong_add(a0 * b0, beta * (na1 * nb1), a0 * b0, beta * ((0 - a1) * (0 - b1)), p);
    assert(a0 * b0 + beta * ((0 - a1) * (0 - b1)) == a0 * b0 + beta * (a1 * b1)) by (nonlinear_arith);
    lemma_cong_mul(a0, nb1, a0, 0 - b1, p);
    lemma_cong_mul(na1, b0, 0 - a1, b0, p);
    lemma_cong_add(a0 * nb1, na1 * b0, a0 * (0 - b1), (0 - a1) * b0, p);
    assert(a0 * (0 - b1) + (0 - a1) * b0 == 0 - (a0 * b1 + a1 * b0)) by (nonlinear_arith);
    let i1 = a0 * b1 + a1 * b0;
    lemma_cong_mod(i1, p);
    crate::modular::lemma_cong_sub(0, i1 % p, 0, i1, p);
    lemma_cong_mod(a0 * nb1 + na1 * b0, p);
    lemma_cong_to_mod((a0 * nb1 + na1 * b0) % p, 0 - i1 % p, p);
    lemma_cong_mod(a0 * b0 + beta * (a1 * b1), p);
    lemma_cong_mod(a0 * b0 + beta * (na1 * nb1), p);
}

/// `a + (-a) = 0` in the extension.
pub proof fn law_fp2_add_neg<E: ExtensionField>(a: ExtensionFieldElement<E>)
    requires
        a.well_formed(),
    ensures
        fp2_add(a@, fp2_neg(a@, modulus::<E::Base>()), modulus::<E::Base>()) == (0nat, 0nat),
{
    lemma_well_formed_ext(a);
    let p = modulus::<E::Base>() as int;
    let (x, y) = (a@.0 as int, a@.1 as int);
    lemma_cong_mod(0 - x, p);
    lemma_cong_mod(0 - y, p);
    lemma_cong_add(x, (0 - x) % p, x, 0 - x, p);
    lemma_cong_add(y, (0 - y) % p, y, 0 - y, p);
    lemma_small_mod(0, p as nat);
}

/// Subtraction undoes addition in the extension: `(a - b) + b = a`.
pub proof fn law_fp2_sub_then_add<E: ExtensionField>(a: ExtensionFieldElement<E>, b: ExtensionFieldElement<E>)
    requires
        a.well_formed(),
    ensures
        fp2_add(fp2_sub(a@, b@, modulus::<E::Base>()), b@, modulus::<E::Base>()) == a@,
{
    lemma_well_formed_ext(a);
    let p = modulus::<E::Base>() as int;
    let (x0, x1) = (a@.0 as int, a@.1 as int);
    let (y0, y1) = (b@.0 as int, b@.1 as int);
    lemma_cong_mod(x0 - y0, p);
    lemma_cong_mod(x1 - y1, p);
    lemma_cong_add((x0 - y0) % p, y0, x0 - y0, y0, p);
    lemma_cong_add((x1 - y1) % p, y1, x1 - y1, y1, p);
    lemma_cong_to_mod(x0, (x0 - y0) % p + y0, p);
    lemma_cong_to_mod(x1, (x1 - y1) % p + y1, p);
}

/// Small powers in the extension: `x^0 = 1`, `x^1 = x` and `x^2 = x x`.
pub proof fn law_fp2_pow_small<E: ExtensionField>(x: ExtensionFieldElement<E>)
    requires
        x.well_formed(),
    ensures
        fp2_pow(x@, 0, E::spec_non_residue(), modulus::<E::Base>()) == (1nat, 0nat),
        fp2_pow(x@, 1, E::spec_non_residue(), modulus::<E::Base>()) == x@,
        fp2_pow(x@, 2, E::spec_non_residue(), modulus::<E::Base>()) == fp2_mul(
            x@,
            x@,
            E::spec_non_residue(),
            modulus::<E::Base>(),
        ),
{
    lemma_well_formed_ext(x);
    let p = modulus::<E::Base>();
    let beta = E::spec_non_residue();
    assert(1nat * 1nat + beta * (0nat * 0nat) == 1) by (nonlinear_arith);
    assert(1nat * 0nat + 0nat * 1nat == 0) by (nonlinear_arith);
    lemma_small_mod(1, p);
    lemma_small_mod(0, p);
    assert(fp2_mul((1nat, 0nat), (1nat, 0nat), beta, p) == (1nat, 0nat));
    let y = x@;
    assert(1 * y.0 + beta * (0 * y.1) == y.0) by (nonlinear_arith);
    assert(1 * y.1 + 0 * y.0 == y.1) by (nonlinear_arith);
    lemma_small_mod(y.0, p);
    lemma_small_mod(y.1, p);
    assert(fp2_mul((1nat, 0nat), y, beta, p) == y);
    assert(fp2_pow(y, 1, beta, p) == fp2_mul(fp2_mul(fp2_pow(y, 0, beta, p), fp2_pow(y, 0, beta, p), beta, p), y, beta, p));
    assert(fp2_pow(y, 2, beta, p) == fp2_mul(fp2_pow(y, 1, beta, p), fp2_pow(y, 1, beta, p), beta, p));
}

/// Scaling by a base-field element is multiplication by its embedding: `a s = a (s + 0 i)`.
pub proof fn law_fp2_scale_is_mul<E: ExtensionField>(a: ExtensionFieldElement<E>, s: FieldElement<E::Base>)
    ensures
        fp2_scale(a@, s@, modulus::<E::Base>()) == fp2_mul(
            a@,
            (s@, 0nat),
            E::spec_non_residue(),
            modulus::<E::Base>(),
        ),
{
    let beta = E::spec_non_residue();
    let x = a@;
    assert(x.0 * s@ + beta * (x.1 * 0) == x.0 * s@) by (nonlinear_arith);
    assert(x.0 * 0 + x.1 * s@ == x.1 * s@) by (nonlinear_arith);
}

/// In the CSIDH-512 extension `i^2 = -1`.
pub proof fn law_csidh512_i_squared()
    ensures
        fp2_mul((0nat, 1nat), (0nat, 1nat), Csidh512Fp2::spec_non_residue(), modulus::<Csidh512FieldOrder>())
            == ((modulus::<Csidh512FieldOrder>() - 1) as nat, 0nat),
{
    lemma_csidh512_field_params();
    let p = modulus::<Csidh512FieldOrder>();
    let beta = Csidh512Fp2::spec_non_residue();
    assert(0nat * 0nat + beta * (1nat * 1nat) == beta) by (nonlinear_arith);
    assert(0nat * 1nat + 1nat * 0nat == 0) by (nonlinear_arith);
    lemma_small_mod(beta, p);
    lemma_small_mod(0, p);
}

/// The point at infinity is the identity of addition, on either side.
pub proof fn law_jac_add_infinity(p1: Jac, p2: Jac, a: nat, p: nat)
    ensures
        p1.2 == 0 ==> jac_add(p1, p2, a, p) == p2,
        p2.2 == 0 && p1.2 != 0 ==> jac_add(p1, p2, a, p) == p1,
        p2.2 == 0 && p1.2 == 0 ==> jac_add(p1, p2, a, p) == p2,
{
}

/// Doubling the point at infinity leaves it as it is.
pub proof fn law_jac_double_infinity(pt: Jac, a: nat, p: nat)
    requires
        pt.2 == 0,
    ensures
        jac_double(pt, a, p) == pt,
{
}

/// Negation is an involution: `-(-P) = P`.
pub proof fn law_jac_neg_involution(pt: Jac, p: nat)
    requires
        p > 0,
        pt.1 < p,
    ensures
        residue(0 - residue(0 - pt.1, p), p) == pt.1,
{
    let y = pt.1 as int;
    let pp = p as int;
    lemma_cong_mod(0 - y, pp);
    crate::modular::lemma_cong_sub(0, (0 - y) % pp, 0, 0 - y, pp);
    lemma_small_mod(pt.1, p);
    lemma_cong_to_mod(y, 0 - (0 - y) % pp, pp);
}

/// Small multiples: `0 P` is the point at infinity, `1 P = P`, and `2 P = P + P`.
pub proof fn law_jac_mul_small(pt: Jac, a: nat, p: nat)
    requires
        p > 0,
    ensures
        jac_mul(pt, 0, a, p) == jac_infinity(),
        jac_mul(pt, 1, a, p) == pt,
        jac_mul(pt, 2, a, p) == jac_add(pt, pt, a, p),
{
    assert(jac_mul(pt, 1, a, p) == jac_add(jac_double(jac_mul(pt, 0, a, p), a, p), pt, a, p));
    assert(jac_mul(pt, 2, a, p) == jac_double(jac_mul(pt, 1, a, p), a, p));
    if pt.2 != 0 {
        let x = pt.0 as int;
        let y = pt.1 as int;
        let z = pt.2 as int;
        assert(x * (z * z) - x * (z * z) == 0);
        assert(y * z * (z * z) - y * z * (z * z) == 0);
        lemma_small_mod(0, p);
    }
}

/// Every multiple of the point at infinity is at infinity.
pub proof fn law_jac_mul_infinity(pt: Jac, n: nat, a: nat, p: nat)
    requires
        pt.2 == 0,
    ensures
        jac_mul(pt, n, a, p).2 == 0,
    decreases n,
{
    if n > 0 {
        law_jac_mul_infinity(pt, n / 2, a, p);
    }
}

/// Addition is commutative, up to the representation of the sum: over a prime field,
/// `P + Q` and `Q + P` stand for the same point.
#[verifier::spinoff_prover]
pub proof fn law_jac_add_commutative(p1: Jac, p2: Jac, a: nat, p: nat)
    requires
        is_prime(p),
        p1.0 < p,
        p1.1 < p,
        p1.2 < p,
        p2.0 < p,
        p2.1 < p,
        p2.2 < p,
    ensures
        jac_eq(jac_add(p1, p2, a, p), jac_add(p2, p1, a, p), p),
{
    if p1 != p2 && p1.2 != 0 && p2.2 != 0 && jac_eq(p1, p2, p) {
        // both sums double their first operand, and doubling respects equality
        let pp = p as int;
        let x1 = p1.0 as int;
        let y1 = p1.1 as int;
        let z1 = p1.2 as int;
        let x2 = p2.0 as int;
        let y2 = p2.1 as int;
        let z2 = p2.2 as int;
        let u1 = x1 * (z2 * z2);
        let u2 = x2 * (z1 * z1);
        let s1 = y1 * z2 * (z2 * z2);
        let s2 = y2 * z1 * (z1 * z1);
        assert(y1 * z2 * (z2 * z2) == y1 * ((z2 * z2) * z2)) by (nonlinear_arith);
        assert(y2 * z1 * (z1 * z1) == y2 * ((z1 * z1) * z1)) by (nonlinear_arith);
        crate::modular::lemma_cong_iff_diff(u1, u2, pp);
        crate::modular::lemma_cong_iff_diff(u2, u1, pp);
        crate::modular::lemma_cong_iff_diff(s1, s2, pp);
        crate::modular::lemma_cong_iff_diff(s2, s1, pp);
        assert(jac_add(p1, p2, a, p) == jac_double(p1, a, p));
        assert(jac_add(p2, p1, a, p) == jac_double(p2, a, p));
        lemma_double_respects_eq(p1, p2, a, p);
    } else {
        lemma_add_commutative_other(p1, p2, a, p);
    }
}

/// Commutativity for all pairs but distinct triples of one point.
proof fn lemma_add_commutative_other(p1: Jac, p2: Jac, a: nat, p: nat)
    requires
        p > 0,
        p1 == p2 || p1.2 == 0 || p2.2 == 0 || !jac_eq(p1, p2, p),
    ensures
        jac_eq(jac_add(p1, p2, a, p), jac_add(p2, p1, a, p), p),
{
    let pp = p as int;
    if p1 == p2 {
        lemma_jac_eq_refl(jac_add(p1, p2, a, p), p);
    } else if p1.2 == 0 || p2.2 == 0 {
        if p1.2 == 0 && p2.2 == 0 {
        } else if p1.2 == 0 {
            lemma_jac_eq_refl(p2, p);
        } else {
            lemma_jac_eq_refl(p1, p);
        }
    } else {
        let x1 = p1.0 as int;
        let y1 = p1.1 as int;
        let z1 = p1.2 as int;
        let x2 = p2.0 as int;
        let y2 = p2.1 as int;
        let z2 = p2.2 as int;
        let u1 = x1 * (z2 * z2);
        let u2 = x2 * (z1 * z1);
        let s1 = y1 * z2 * (z2 * z2);
        let s2 = y2 * z1 * (z1 * z1);
        let h = u2 - u1;
        let hh = u1 - u2;
        assert(hh == 0 - h);
        lemma_cong_mod(h, pp);
        lemma_cong_mod(hh, pp);
        crate::modular::lemma_cong_sub(0, h % pp, 0, h, pp);
        lemma_cong_mod(s2 - s1, pp);
        lemma_cong_mod(s1 - s2, pp);
        crate::modular::lemma_cong_sub(0, (s2 - s1) % pp, 0, s2 - s1, pp);
        assert(s1 - s2 == 0 - (s2 - s1));
        if h % pp == 0 {
            lemma_small_mod(0, p);
            assert(hh % pp == 0);
            if (s2 - s1) % pp == 0 {
                assert((s1 - s2) % pp == 0);
                crate::modular::lemma_cong_iff_diff(u1, u2, pp);
                crate::modular::lemma_cong_iff_diff(u2, u1, pp);
                assert(cong(x1 * (z2 * z2), x2 * (z1 * z1), pp));
                crate::modular::lemma_cong_iff_diff(s2, s1, pp);
                assert(cong(y1 * ((z2 * z2) * z2), y2 * ((z1 * z1) * z1), pp)) by {
                    assert(y1 * z2 * (z2 * z2) == y1 * ((z2 * z2) * z2)) by (nonlinear_arith);
                    assert(y2 * z1 * (z1 * z1) == y2 * ((z1 * z1) * z1)) by (nonlinear_arith);
                }
                assert(jac_eq(p1, p2, p));
            } else {
                crate::modular::lemma_cong_iff_diff(s2, s1, pp);
                crate::modular::lemma_cong_iff_diff(s1, s2, pp);
                assert((s1 - s2) % pp != 0);
            }
        } else {
            crate::modular::lemma_cong_iff_diff(u1, u2, pp);
            crate::modular::lemma_cong_iff_diff(u2, u1, pp);
            assert(hh % pp != 0);
            lemma_add_commutative_generic(p1, p2, a, p);
        }
    }
}

proof fn lemma_jac_eq_refl(pt: Jac, p: nat)
    ensures
        jac_eq(pt, pt, p),
{
}

/// In the generic branch of addition, swapping the operands gives `(X, -Y, -Z)`, which
/// stands for the same point.
#[verifier::spinoff_prover]
proof fn lemma_add_commutative_generic(p1: Jac, p2: Jac, a: nat, p: nat)
    requires
        p > 0,
        p1.2 != 0,
        p2.2 != 0,
        ((p2.0 * (p1.2 * p1.2)) as int - (p1.0 * (p2.2 * p2.2)) as int) % (p as int) != 0,
        ((p1.0 * (p2.2 * p2.2)) as int - (p2.0 * (p1.2 * p1.2)) as int) % (p as int) != 0,
    ensures
        jac_eq(jac_add(p1, p2, a, p), jac_add(p2, p1, a, p), p),
{
    let pp = p as int;
    let x1 = p1.0 as int;
    let y1 = p1.1 as int;
    let z1 = p1.2 as int;
    let x2 = p2.0 as int;
    let y2 = p2.1 as int;
    let z2 = p2.2 as int;
    let u1 = x1 * (z2 * z2);
    let u2 = x2 * (z1 * z1);
    let s1 = y1 * z2 * (z2 * z2);
    let s2 = y2 * z1 * (z1 * z1);
    let h = u2 - u1;
    let r = 2 * (s2 - s1);
    let i = 4 * (h * h);
    let j = h * i;
    let v = u1 * i;
    let x3 = r * r - j - 2 * v;
    let y3 = r * (v - x3) - 2 * (s1 * j);
    let z3 = 2 * z1 * z2 * h;
    let hq = u1 - u2;
    let rq = 2 * (s1 - s2);
    let iq = 4 * (hq * hq);
    let jq = hq * iq;
    let vq = u2 * iq;
    let x3q = rq * rq - jq - 2 * vq;
    let y3q = rq * (vq - x3q) - 2 * (s2 * jq);
    let z3q = 2 * z2 * z1 * hq;
    assert(jac_add(p1, p2, a, p) == (residue(x3, p), residue(y3, p), residue(z3, p)));
    assert(jac_add(p2, p1, a, p) == (residue(x3q, p), residue(y3q, p), residue(z3q, p)));
    assert(iq == i) by (nonlinear_arith)
        requires
            hq == 0 - h,
            i == 4 * (h * h),
            iq == 4 * (hq * hq),
    ;
    assert(jq == 0 - j) by (nonlinear_arith)
        requires
            hq == 0 - h,
            iq == i,
            j == h * i,
            jq == hq * iq,
    ;
    assert(x3q == x3) by (nonlinear_arith)
        requires
            h == u2 - u1,
            rq == 0 - r,
            iq == i,
            j == h * i,
            jq == 0 - j,
            v == u1 * i,
            vq == u2 * iq,
            x3 == r * r - j - 2 * v,
            x3q == rq * rq - jq - 2 * vq,
    ;
    let ea = r * (u1 * i - x3);
    let eb = r * (u2 * i - x3);
    assert(y3 == ea - 2 * (s1 * j)) by (nonlinear_arith)
        requires
            v == u1 * i,
            y3 == r * (v - x3) - 2 * (s1 * j),
            ea == r * (u1 * i - x3),
    ;
    assert(y3q == 0 - eb + 2 * (s2 * j)) by (nonlinear_arith)
        requires
            rq == 0 - r,
            iq == i,
            vq == u2 * iq,
            x3q == x3,
            jq == 0 - j,
            y3q == rq * (vq - x3q) - 2 * (s2 * jq),
            eb == r * (u2 * i - x3),
    ;
    assert(ea - eb == 0 - r * j) by (nonlinear_arith)
        requires
            ea == r * (u1 * i - x3),
            eb == r * (u2 * i - x3),
            j == h * i,
            h == u2 - u1,
    ;
    assert(2 * (s2 * j) - 2 * (s1 * j) == r * j) by (nonlinear_arith)
        requires
            r == 2 * (s2 - s1),
    ;
    assert(z3q == 0 - z3) by (nonlinear_arith)
        requires
            hq == 0 - h,
            z3 == 2 * z1 * z2 * h,
            z3q == 2 * z2 * z1 * hq,
    ;
    let rx = residue(x3, p) as int;
    let ry = residue(y3, p) as int;
    let rz = residue(z3, p) as int;
    let ryq = residue(y3q, p) as int;
    let rzq = residue(z3q, p) as int;
    lemma_cong_mod(z3, pp);
    lemma_cong_mod(z3q, pp);
    lemma_cong_mod(y3, pp);
    lemma_cong_mod(y3q, pp);
    crate::modular::lemma_cong_sub(0, z3, 0, z3, pp);
    if rz == 0 {
        assert(rzq == 0) by {
            lemma_mod_multiples_vanish(-1, 0, pp);
            crate::modular::lemma_cong_sub(0, rz, 0, z3, pp);
            lemma_small_mod(0, p);
        }
    } else {
        assert(rzq != 0) by {
            if rzq == 0 {
                crate::modular::lemma_cong_sub(0, rzq, 0, z3q, pp);
                lemma_small_mod(0, p);
            }
        }
        // rzq is congruent to -rz
        crate::modular::lemma_cong_sub(0, rz, 0, z3, pp);
        lemma_cong_mul(rzq, rzq, 0 - rz, 0 - rz, pp);
        assert((0 - rz) * (0 - rz) == rz * rz) by (nonlinear_arith);
        lemma_cong_mul(rx, rzq * rzq, rx, rz * rz, pp);
        lemma_cong_mul(rzq * rzq, rzq, rz * rz, 0 - rz, pp);
        lemma_cong_mul(ry, (rzq * rzq) * rzq, ry, (rz * rz) * (0 - rz), pp);
        crate::modular::lemma_cong_sub(0, ry, 0, y3, pp);
        lemma_cong_mul(ryq, (rz * rz) * rz, 0 - ry, (rz * rz) * rz, pp);
        assert(ry * ((rz * rz) * (0 - rz)) == (0 - ry) * ((rz * rz) * rz)) by (nonlinear_arith);
    }
}

/// Differential addition is symmetric in its two operands: `P + Q = Q + P` given the
/// same difference.
pub proof fn law_xz_add_symmetric(pt: Xz, other: Xz, diff: Xz, p: nat)
    ensures
        xz_add(pt, other, diff, p) == xz_add(other, pt, diff, p),
{
    let x1 = pt.0 as int;
    let z1 = pt.1 as int;
    let x2 = other.0 as int;
    let z2 = other.1 as int;
    let d0 = diff.0 as int;
    let d1 = diff.1 as int;
    assert(2 * (x1 * x2 - z1 * z2) == 2 * (x2 * x1 - z2 * z1)) by (nonlinear_arith);
    let w = 2 * (x2 * z1 - x1 * z2);
    let wq = 2 * (x1 * z2 - x2 * z1);
    assert(wq == 0 - w);
    assert(d0 * wq * wq == d0 * w * w) by (nonlinear_arith)
        requires
            wq == 0 - w,
    ;
}

/// Doubling the point at infinity, or a point of abscissa zero (a point of order two),
/// gives the point at infinity.
pub proof fn law_xz_double_infinity(pt: Xz, a24: nat, p: nat)
    requires
        p > 0,
        pt.0 == 0 || pt.1 == 0,
    ensures
        xz_double(pt, a24, p).1 == 0,
{
    let x = pt.0 as int;
    let z = pt.1 as int;
    let d = (x - z) * (x - z);
    let e = 4 * x * z;
    assert(e == 0) by (nonlinear_arith)
        requires
            e == 4 * x * z,
            x == 0 || z == 0,
    ;
    assert(e * (d + a24 * e) == 0) by (nonlinear_arith)
        requires
            e == 0,
    ;
    lemma_small_mod(0, p);
}

/// The ladder by zero gives the point at infinity `(1 : 0)`, and so does the ladder on
/// the point at infinity.
pub proof fn law_xz_mult_zero(pt: Xz, k: nat, a24: nat, p: nat)
    requires
        p > 1,
    ensures
        xz_mult(pt, 0, k, a24, p) == xz_infinity(),
        pt.1 == 0 ==> forall|n: nat| #[trigger] xz_mult(pt, n, k, a24, p) == xz_infinity(),
{
    lemma_xz_ladder_zero(pt, k, a24, p);
}

proof fn lemma_xz_ladder_zero(pt: Xz, k: nat, a24: nat, p: nat)
    requires
        p > 1,
    ensures
        xz_ladder(pt, 0, k, a24, p).0 == xz_infinity(),
    decreases k,
{
    if k > 0 {
        lemma_xz_ladder_zero(pt, (k - 1) as nat, a24, p);
        assert(1int * 1 * (1 * 1) == 1);
        assert(4 * 1int * 0 == 0);
        assert(0int * (1 * 1 + a24 * 0) == 0) by (nonlinear_arith);
        lemma_small_mod(1, p);
        lemma_small_mod(0, p);
    }
}

/// In a prime field every nonzero element times its inverse `a^(p - 2)` is one.
pub proof fn law_inverse<P: Field>(a: FieldElement<P>)
    requires
        a.well_formed(),
        is_prime(modulus::<P>()),
        a@ != 0,
    ensures
        (a@ * pow_mod(a@, (modulus::<P>() - 2) as nat, modulus::<P>())) % modulus::<P>() == 1,
{
    lemma_well_formed(a);
    let p = modulus::<P>();
    let pp = p as int;
    let x = a@ as int;
    lemma_small_mod(a@, p);
    lemma_fermat(a@, p);
    lemma_pow_adds(x, 1, (p - 2) as nat);
    lemma_pow1(x);
    assert((1 + (p - 2)) as nat == (p - 1) as nat);
    lemma_cong_mod(pow(x, (p - 2) as nat), pp);
    lemma_cong_mul(x, pow(x, (p - 2) as nat) % pp, x, pow(x, (p - 2) as nat), pp);
}

/// `word_pow(n)` leaves remainder one when divided by three.
proof fn lemma_word_pow_mod3(n: nat)
    ensures
        word_pow(n) % 3 == 1,
    decreases n,
{
    if n > 0 {
        lemma_word_pow_mod3((n - 1) as nat);
        assert(word() % 3 == 1);
        lemma_mul_mod_noop(word() as int, word_pow((n - 1) as nat) as int, 3);
    }
}

/// For a prime modulus the square-root exponent computed on limbs is exactly
/// `(p + 1) / 4`: the radix minus one is a multiple of three, hence not prime.
proof fn lemma_sqrt_exponent_exact<P: Field>()
    requires
        params_valid_prime::<P>(),
    ensures
        sqrt_exponent::<P>() == (modulus::<P>() + 1) / 4,
{
    lemma_params::<P>();
    let p = modulus::<P>();
    let r = radix::<P>();
    if p + 1 == r {
        lemma_word_pow_mod3(limb_count::<P>());
        crate::limbs::lemma_word_pow_mono(1, limb_count::<P>());
        assert(word_pow(1) == word() * word_pow(0));
        assert(p % 3 == 0);
        assert(1 < 3 < p);
        assert(false);
    }
    lemma_small_mod(p + 1, r);
}

/// The constants of `P` are valid and its modulus is prime.
pub open spec fn params_valid_prime<P: Field>() -> bool {
    crate::field::params_valid::<P>() && is_prime(modulus::<P>())
}

/// In a prime field with `p = 3 (mod 4)`, the square root `x^((p + 1) / 4)` of a
/// square `x = t^2` squares back to `x`.
#[verifier::spinoff_prover]
pub proof fn law_sqrt_of_square<P: Sqrt3Mod4>(t: FieldElement<P>)
    requires
        t.well_formed(),
        is_prime(modulus::<P>()),
        modulus::<P>() % 4 == 3,
    ensures
        ({
            let p = modulus::<P>();
            let x = (t@ * t@) % p;
            let y = pow_mod(x, sqrt_exponent::<P>(), p);
            (y * y) % p == x
        }),
{
    lemma_well_formed(t);
    lemma_sqrt_exponent_exact::<P>();
    let p = modulus::<P>();
    let pp = p as int;
    let e = sqrt_exponent::<P>();
    assert(4 * e == p + 1);
    let tt = t@ as int;
    let x = (t@ * t@) % p;
    // y = t^(2 e) modulo p
    lemma_pow_mod_noop(tt * tt, e, pp);
    lemma_square_is_pow2(tt);
    lemma_pow_multiplies(tt, 2, e);
    let q = pow(tt, 2 * e);
    let y = pow_mod(x, e, p) as int;
    assert(y == q % pp);
    // y^2 = t^(4 e) = t^(p + 1) = t^(p - 1) t^2
    lemma_cong_mod(q, pp);
    lemma_cong_mul(y, y, q, q, pp);
    lemma_pow_adds(tt, 2 * e, 2 * e);
    assert(2 * e + 2 * e == (p + 1) as nat);
    lemma_pow_adds(tt, (p - 1) as nat, 2);
    assert((p - 1) as nat + 2 == (p + 1) as nat);
    if t@ == 0 {
        lemma0_pow((p + 1) as nat);
        lemma_small_mod(0, p);
    } else {
        lemma_small_mod(t@, p);
        lemma_fermat(t@, p);
        let f = pow(tt, (p - 1) as nat);
        lemma_cong_mod(f, pp);
        lemma_small_mod(1, p);
        lemma_cong_mul(f, tt * tt, 1, tt * tt, pp);
    }
}

/// When `x` is not a square, the candidate root `x^((p + 1) / 4)` does not square to it.
pub proof fn law_sqrt_of_non_residue<P: Sqrt3Mod4>(x: FieldElement<P>)
    requires
        x.well_formed(),
        forall|s: nat| s < modulus::<P>() ==> #[trigger] ((s * s) % modulus::<P>()) != x@,
    ensures
        ({
            let p = modulus::<P>();
            let y = pow_mod(x@, sqrt_exponent::<P>(), p);
            (y * y) % p != x@
        }),
{
    lemma_well_formed(x);
    let p = modulus::<P>();
    let y = pow_mod(x@, sqrt_exponent::<P>(), p);
    lemma_mod_bound(pow(x@ as int, sqrt_exponent::<P>()), p as int);
    assert(y < p);
    assert(((y * y) % p) != x@);
}

/// Over a prime field of odd characteristic, a point plus its opposite is the point at
/// infinity: `P + (-P) = O`.
#[verifier::spinoff_prover]
pub proof fn law_jac_add_negation(pt: Jac, a: nat, p: nat)
    requires
        is_prime(p),
        p > 2,
        pt.0 < p,
        pt.1 < p,
        pt.2 < p,
    ensures
        jac_add(pt, (pt.0, residue(0 - pt.1, p), pt.2), a, p).2 == 0,
{
    let pp = p as int;
    let q = (pt.0, residue(0 - pt.1, p), pt.2);
    if pt.2 != 0 {
        let x = pt.0 as int;
        let y = pt.1 as int;
        let z = pt.2 as int;
        let yq = residue(0 - pt.1, p) as int;
        let zzz = z * (z * z);
        let s1 = y * z * (z * z);
        let s2 = yq * z * (z * z);
        assert(x * (z * z) - x * (z * z) == 0);
        lemma_small_mod(0, p);
        if (s2 - s1) % pp == 0 {
            // then -2 y z^3 is a multiple of p, so 2 y z is
            lemma_cong_mod(0 - y, pp);
            lemma_cong_mul(yq, zzz, 0 - y, zzz, pp);
            assert(s2 == yq * zzz && s1 == y * zzz) by (nonlinear_arith)
                requires
                    zzz == z * (z * z),
                    s1 == y * z * (z * z),
                    s2 == yq * z * (z * z),
            ;
            crate::modular::lemma_cong_iff_diff(s2, s1, pp);
            crate::modular::lemma_cong_iff_diff((0 - y) * zzz, y * zzz, pp);
            assert((0 - y) * zzz - y * zzz == (2 * y * z) * (0 - z * z)) by (nonlinear_arith)
                requires
                    zzz == z * (z * z),
            ;
            lemma_euclid(2 * y * z, 0 - z * z, p);
            if (0 - z * z) % pp == 0 {
                crate::modular::lemma_cong_iff_diff(0, z * z, pp);
                lemma_euclid(z, z, p);
                lemma_small_mod(pt.2, p);
            }
            assert(jac_add(pt, q, a, p) == jac_double(pt, a, p));
        }
    }
}

/// Over a prime field of odd characteristic, differential addition of the point at
/// infinity and `P`, with difference `P`, gives `P` back (up to representation) when
/// `P` has a nonzero abscissa.
#[verifier::spinoff_prover]
pub proof fn law_xz_add_infinity(pt: Xz, p: nat)
    requires
        is_prime(p),
        p > 2,
        pt.0 < p,
        pt.1 < p,
        pt.0 != 0,
    ensures
        xz_eq(xz_add(xz_infinity(), pt, pt, p), pt, p),
{
    let pp = p as int;
    let x = pt.0 as int;
    let z = pt.1 as int;
    let u = 2 * (1 * x - 0 * z);
    let w = 2 * (x * 0 - 1 * z);
    assert(u == 2 * x && w == 0 - 2 * z);
    let r0 = z * u * u;
    let r1 = x * w * w;
    assert(r0 == 4 * (x * x * z) && r1 == 4 * (x * z * z)) by (nonlinear_arith)
        requires
            u == 2 * x,
            w == 0 - 2 * z,
            r0 == z * u * u,
            r1 == x * w * w,
    ;
    let res = xz_add(xz_infinity(), pt, pt, p);
    assert(res == (residue(r0, p), residue(r1, p)));
    lemma_small_mod(0, p);
    if z == 0 {
        assert(r1 == 0);
    } else {
        // the new Z is nonzero: p divides none of 4, x, z
        if r1 % pp == 0 {
            assert(4 * (x * z * z) == (4 * x) * (z * z)) by (nonlinear_arith);
            lemma_euclid(4 * x, z * z, p);
            if (4 * x) % pp == 0 {
                lemma_euclid(4, x, p);
                if 4int % pp == 0 {
                    if p == 3 {
                        assert(4int % 3 == 1);
                    } else if p == 4 {
                        assert(p % 2 == 0);
                    } else {
                        lemma_small_mod(4, p);
                    }
                }
                lemma_small_mod(pt.0, p);
            } else {
                lemma_euclid(z, z, p);
                lemma_small_mod(pt.1, p);
            }
            assert(false);
        }
        lemma_cong_mod(r0, pp);
        lemma_cong_mod(r1, pp);
        lemma_cong_mul(residue(r0, p) as int, z, r0, z, pp);
        lemma_cong_mul(x, residue(r1, p) as int, x, r1, pp);
        assert(r0 * z == x * r1) by (nonlinear_arith)
            requires
                r0 == 4 * (x * x * z),
                r1 == 4 * (x * z * z),
        ;
    }
}

/// The norm `a^2 + b^2` of a nonzero element `a + b i` is nonzero when `-1` is not a
/// square.
#[verifier::spinoff_prover]
proof fn lemma_norm_nonzero(a: nat, b: nat, p: nat)
    requires
        is_prime(p),
        p % 4 == 3,
        a < p,
        b < p,
        a != 0 || b != 0,
    ensures
        ((a * a + b * b) as int) % (p as int) != 0,
{
    let pp = p as int;
    let ai = a as int;
    let bi = b as int;
    if (ai * ai + bi * bi) % pp == 0 {
        if b == 0 {
            assert(ai * ai + bi * bi == ai * ai);
            lemma_euclid(ai, ai, p);
            lemma_small_mod(a, p);
        } else {
            let s = lemma_inverse_exists(b, p);
            let si = s as int;
            let c = ai * si;
            lemma_minus_one_not_square(c, p);
            // c^2 + 1 is congruent to s^2 (a^2 + b^2), a multiple of p
            lemma_small_mod(1, p);
            assert(cong(bi * si, 1, pp));
            lemma_cong_mul(bi * si, bi * si, 1, 1, pp);
            lemma_cong_add(c * c, (bi * si) * (bi * si), c * c, 1, pp);
            assert(c * c + (bi * si) * (bi * si) == (si * si) * (ai * ai + bi * bi)) by (nonlinear_arith)
                requires
                    c == ai * si,
            ;
            lemma_cong_mul(si * si, ai * ai + bi * bi, si * si, 0, pp);
            lemma_small_mod(0, p);
            assert(false);
        }
    }
}

/// In an extension by `i` with `i^2 = -1` of a prime field with `p = 3 (mod 4)`, every
/// nonzero element times its inverse is one.
#[verifier::spinoff_prover]
pub proof fn law_fp2_inverse<E: NonResidueMinusOne>(x: ExtensionFieldElement<E>)
    requires
        x.well_formed(),
        is_prime(modulus::<E::Base>()),
        modulus::<E::Base>() % 4 == 3,
        x@ != (0nat, 0nat),
    ensures
        fp2_mul(
            x@,
            fp2_inv(x@, E::spec_non_residue(), modulus::<E::Base>()),
            E::spec_non_residue(),
            modulus::<E::Base>(),
        ) == (1nat, 0nat),
{
    lemma_well_formed_ext(x);
    E::lemma_non_residue_is_minus_one();
    lemma_fp2_inverse(x@, E::spec_non_residue(), modulus::<E::Base>());
}

/// A nonzero pair of residues times its inverse is one, when `i^2 = -1` and `p = 3 (mod 4)`.
#[verifier::spinoff_prover]
proof fn lemma_fp2_inverse(x: Fp2, beta: nat, p: nat)
    requires
        is_prime(p),
        p % 4 == 3,
        beta == (p - 1) as nat,
        x.0 < p,
        x.1 < p,
        x != (0nat, 0nat),
    ensures
        fp2_mul(x, fp2_inv(x, beta, p), beta, p) == (1nat, 0nat),
{
    lemma_minus_one_non_square(p);
    lemma_fp2_inverse_general(x, beta, p);
}

/// `-1` is not a square modulo a prime `p = 3 (mod 4)`.
proof fn lemma_minus_one_non_square(p: nat)
    requires
        is_prime(p),
        p % 4 == 3,
    ensures
        is_non_square((p - 1) as nat, p),
{
    let pp = p as int;
    assert forall|c: nat| c < p implies #[trigger] ((c * c) % p) != ((p - 1) as nat) % p by {
        lemma_minus_one_not_square(c as int, p);
        lemma_small_mod((p - 1) as nat, p);
        if (c * c) % p == (p - 1) as nat {
            lemma_fundamental_div_mod((c * c) as int, pp);
            let q = (c * c) as int / pp;
            assert((c * c) as int + 1 == pp * (q + 1)) by (nonlinear_arith)
                requires
                    (c * c) as int == pp * q + (pp - 1),
            ;
            lemma_mod_multiples_vanish(q + 1, 0, pp);
            lemma_small_mod(0, p);
            assert(pp * (q + 1) == (q + 1) * pp) by (nonlinear_arith);
        }
    }
}

/// The norm `a^2 - beta b^2` of a nonzero pair of residues is nonzero modulo a prime `p`
/// when `beta` is not a square modulo `p`.
proof fn lemma_norm_nonzero_general(a: nat, b: nat, beta: nat, p: nat)
    requires
        is_prime(p),
        is_non_square(beta, p),
        a < p,
        b < p,
        a != 0 || b != 0,
    ensures
        ((a * a) as int - (beta as int) * ((b * b) as int)) % (p as int) != 0,
{
    let pp = p as int;
    let (ai, bi, bt) = (a as int, b as int, beta as int);
    if (ai * ai - bt * (bi * bi)) % pp == 0 {
        crate::modular::lemma_cong_iff_diff(ai * ai, bt * (bi * bi), pp);
        if b == 0 {
            assert(bt * (0int * 0int) == 0) by (nonlinear_arith);
            lemma_small_mod(0, p);
            lemma_euclid(ai, ai, p);
            lemma_small_mod(a, p);
        } else {
            let s = lemma_inverse_exists(b, p);
            let si = s as int;
            let c = ((a * s) % p) as nat;
            let ci = c as int;
            lemma_small_mod(1, p);
            // c^2 = a^2 s^2 = beta (b s)^2 = beta
            lemma_cong_mod(ai * si, pp);
            lemma_cong_mul(ci, ci, ai * si, ai * si, pp);
            assert((ai * si) * (ai * si) == (ai * ai) * (si * si)) by (nonlinear_arith);
            lemma_cong_mul(ai * ai, si * si, bt * (bi * bi), si * si, pp);
            assert((bt * (bi * bi)) * (si * si) == bt * ((bi * si) * (bi * si))) by (nonlinear_arith);
            assert(cong(bi * si, 1, pp));
            lemma_cong_mul(bi * si, bi * si, 1, 1, pp);
            lemma_cong_mul(bt, (bi * si) * (bi * si), bt, 1, pp);
            assert(cong(ci * ci, bt, pp));
            assert(c < p);
            assert(((c * c) % p) == beta % p);
            assert(false);
        }
    }
}

/// A nonzero pair of residues times its inverse is one, when `beta` is not a square
/// modulo the prime `p`.
#[verifier::spinoff_prover]
proof fn lemma_fp2_inverse_general(x: Fp2, beta: nat, p: nat)
    requires
        is_prime(p),
        is_non_square(beta, p),
        x.0 < p,
        x.1 < p,
        x != (0nat, 0nat),
    ensures
        fp2_mul(x, fp2_inv(x, beta, p), beta, p) == (1nat, 0nat),
{
    let pp = p as int;
    let bi_ = beta as int;
    let (a, b) = (x.0, x.1);
    let ai = a as int;
    let bi = b as int;
    let norm_i = ai * ai - bi_ * (bi * bi);
    let n = (norm_i % pp) as nat;
    lemma_mod_bound(norm_i, pp);
    lemma_norm_nonzero_general(a, b, beta, p);
    assert(n != 0);
    let ninv = pow_mod(n, (p - 2) as nat, p) as int;
    // n ninv = 1, as in the base field
    lemma_small_mod(n, p);
    lemma_fermat(n, p);
    lemma_pow_adds(n as int, 1, (p - 2) as nat);
    lemma_pow1(n as int);
    assert((1 + (p - 2)) as nat == (p - 1) as nat);
    lemma_cong_mod(pow(n as int, (p - 2) as nat), pp);
    lemma_cong_mul(n as int, ninv, n as int, pow(n as int, (p - 2) as nat), pp);
    assert(((n as int) * ninv) % pp == 1);
    // the coordinates of the inverse
    let inv = fp2_inv(x, beta, p);
    let nb = sub_mod(0, b, p) as int;
    lemma_cong_mod(0 - bi, pp);
    lemma_cong_mod(ai * ninv, pp);
    lemma_cong_mod(nb * ninv, pp);
    assert(inv.0 as int == (ai * ninv) % pp);
    assert(inv.1 as int == (nb * ninv) % pp);
    lemma_cong_mul(nb, ninv, 0 - bi, ninv, pp);
    let i0 = inv.0 as int;
    let i1 = inv.1 as int;
    // first coordinate
    lemma_cong_mul(ai, i0, ai, ai * ninv, pp);
    lemma_cong_mul(bi, i1, bi, (0 - bi) * ninv, pp);
    lemma_cong_mul(bi_, bi * i1, bi_, bi * ((0 - bi) * ninv), pp);
    lemma_cong_add(ai * i0, bi_ * (bi * i1), ai * (ai * ninv), bi_ * (bi * ((0 - bi) * ninv)), pp);
    assert(ai * (ai * ninv) + bi_ * (bi * ((0 - bi) * ninv)) == norm_i * ninv) by (nonlinear_arith)
        requires
            norm_i == ai * ai - bi_ * (bi * bi),
    ;
    lemma_cong_mod(norm_i, pp);
    lemma_cong_mul(norm_i, ninv, n as int, ninv, pp);
    lemma_small_mod(1, p);
    lemma_cong_to_mod(1, ai * i0 + bi_ * (bi * i1), pp);
    // second coordinate
    lemma_cong_mul(ai, i1, ai, (0 - bi) * ninv, pp);
    lemma_cong_mul(bi, i0, bi, ai * ninv, pp);
    lemma_cong_add(ai * i1, bi * i0, ai * ((0 - bi) * ninv), bi * (ai * ninv), pp);
    assert(ai * ((0 - bi) * ninv) + bi * (ai * ninv) == 0) by (nonlinear_arith);
    lemma_small_mod(0, p);
    lemma_cong_to_mod(0, ai * i1 + bi * i0, pp);
}

/// Multiplying by an opposite twice is multiplying by the element twice:
/// `(e (-u)) (-u) = (e u) u` in the extension.
#[verifier::spinoff_prover]
proof fn lemma_fp2_mul_neg_twice(e: Fp2, u: Fp2, beta: nat, p: nat)
    requires
        p > 0,
    ensures
        fp2_mul(fp2_mul(e, fp2_neg(u, p), beta, p), fp2_neg(u, p), beta, p) == fp2_mul(
            fp2_mul(e, u, beta, p),
            u,
            beta,
            p,
        ),
{
    let pp = p as int;
    let bt = beta as int;
    let (e0, e1) = (e.0 as int, e.1 as int);
    let (u0, u1) = (u.0 as int, u.1 as int);
    let n = fp2_neg(u, p);
    let (n0, n1) = (n.0 as int, n.1 as int);
    lemma_cong_mod(0 - u0, pp);
    lemma_cong_mod(0 - u1, pp);
    // w = e (-u) is congruent to -(e u)
    let w = fp2_mul(e, n, beta, p);
    let v = fp2_mul(e, u, beta, p);
    let iw0 = e0 * n0 + bt * (e1 * n1);
    let iw1 = e0 * n1 + e1 * n0;
    let iv0 = e0 * u0 + bt * (e1 * u1);
    let iv1 = e0 * u1 + e1 * u0;
    lemma_cong_mul(e0, n0, e0, 0 - u0, pp);
    lemma_cong_mul(e1, n1, e1, 0 - u1, pp);
    lemma_cong_mul(bt, e1 * n1, bt, e1 * (0 - u1), pp);
    lemma_cong_add(e0 * n0, bt * (e1 * n1), e0 * (0 - u0), bt * (e1 * (0 - u1)), pp);
    assert(e0 * (0 - u0) + bt * (e1 * (0 - u1)) == 0 - iv0) by (nonlinear_arith)
        requires
            iv0 == e0 * u0 + bt * (e1 * u1),
    ;
    lemma_cong_mul(e0, n1, e0, 0 - u1, pp);
    lemma_cong_mul(e1, n0, e1, 0 - u0, pp);
    lemma_cong_add(e0 * n1, e1 * n0, e0 * (0 - u1), e1 * (0 - u0), pp);
    assert(e0 * (0 - u1) + e1 * (0 - u0) == 0 - iv1) by (nonlinear_arith)
        requires
            iv1 == e0 * u1 + e1 * u0,
    ;
    let (w0, w1) = (w.0 as int, w.1 as int);
    let (v0, v1) = (v.0 as int, v.1 as int);
    lemma_cong_mod(iw0, pp);
    lemma_cong_mod(iw1, pp);
    lemma_cong_mod(iv0, pp);
    lemma_cong_mod(iv1, pp);
    // now (w n) is congruent to (v u)
    lemma_cong_mul(w0, n0, 0 - iv0, 0 - u0, pp);
    lemma_cong_mul(w1, n1, 0 - iv1, 0 - u1, pp);
    lemma_cong_mul(bt, w1 * n1, bt, (0 - iv1) * (0 - u1), pp);
    lemma_cong_add(w0 * n0, bt * (w1 * n1), (0 - iv0) * (0 - u0), bt * ((0 - iv1) * (0 - u1)), pp);
    lemma_cong_mul(v0, u0, iv0, u0, pp);
    lemma_cong_mul(v1, u1, iv1, u1, pp);
    lemma_cong_mul(bt, v1 * u1, bt, iv1 * u1, pp);
    lemma_cong_add(v0 * u0, bt * (v1 * u1), iv0 * u0, bt * (iv1 * u1), pp);
    assert((0 - iv0) * (0 - u0) + bt * ((0 - iv1) * (0 - u1)) == iv0 * u0 + bt * (iv1 * u1)) by (nonlinear_arith);
    lemma_cong_mul(w0, n1, 0 - iv0, 0 - u1, pp);
    lemma_cong_mul(w1, n0, 0 - iv1, 0 - u0, pp);
    lemma_cong_add(w0 * n1, w1 * n0, (0 - iv0) * (0 - u1), (0 - iv1) * (0 - u0), pp);
    lemma_cong_mul(v0, u1, iv0, u1, pp);
    lemma_cong_mul(v1, u0, iv1, u0, pp);
    lemma_cong_add(v0 * u1, v1 * u0, iv0 * u1, iv1 * u0, pp);
    assert((0 - iv0) * (0 - u1) + (0 - iv1) * (0 - u0) == iv0 * u1 + iv1 * u0) by (nonlinear_arith);
    lemma_cong_mod(w0 * n0 + bt * (w1 * n1), pp);
    lemma_cong_mod(v0 * u0 + bt * (v1 * u1), pp);
    lemma_cong_mod(w0 * n1 + w1 * n0, pp);
    lemma_cong_mod(v0 * u1 + v1 * u0, pp);
}

/// Differential addition over the extension is symmetric in its two operands.
pub proof fn law_xz2_add_symmetric(pt: Xz2, other: Xz2, diff: Xz2, beta: nat, p: nat)
    requires
        p > 0,
    ensures
        xz2_add(pt, other, diff, beta, p) == xz2_add(other, pt, diff, beta, p),
{
    let a = fp2_add(pt.0, pt.1, p);
    let b = fp2_sub(pt.0, pt.1, p);
    let c = fp2_add(other.0, other.1, p);
    let d = fp2_sub(other.0, other.1, p);
    let da = fp2_mul(d, a, beta, p);
    let cb = fp2_mul(b, c, beta, p);
    let dif = fp2_sub(da, cb, p);
    let difq = fp2_sub(cb, da, p);
    // the swapped difference is the opposite of the difference
    let pp = p as int;
    let (x0, x1) = (da.0 as int, da.1 as int);
    let (y0, y1) = (cb.0 as int, cb.1 as int);
    lemma_cong_mod(x0 - y0, pp);
    lemma_cong_mod(x1 - y1, pp);
    crate::modular::lemma_cong_sub(0, (x0 - y0) % pp, 0, x0 - y0, pp);
    crate::modular::lemma_cong_sub(0, (x1 - y1) % pp, 0, x1 - y1, pp);
    lemma_mod_bound(y0 - x0, pp);
    lemma_mod_bound(y1 - x1, pp);
    lemma_cong_mod(y0 - x0, pp);
    lemma_cong_mod(y1 - x1, pp);
    assert(y0 - x0 == 0 - (x0 - y0));
    assert(y1 - x1 == 0 - (x1 - y1));
    lemma_cong_to_mod((y0 - x0) % pp, 0 - (x0 - y0) % pp, pp);
    lemma_cong_to_mod((y1 - x1) % pp, 0 - (x1 - y1) % pp, pp);
    assert(difq == fp2_neg(dif, p));
    lemma_fp2_mul_neg_twice(diff.0, dif, beta, p);
    assert((da.0 + cb.0) % p == (cb.0 + da.0) % p);
    assert((da.1 + cb.1) % p == (cb.1 + da.1) % p);
}

/// The square root over the extension of a base-field element `a + 0 i` squares back
/// to it: either `a` has a root in the base field, or `-a` has one and `i` times it
/// squares to `a`.
#[verifier::spinoff_prover]
proof fn lemma_fp2_sqrt_of_base(a: nat, p: nat)
    requires
        is_prime(p),
        p % 4 == 3,
        a < p,
    ensures
        ({
            let r = fp2_sqrt((a, 0nat), (p + 1) / 4, p);
            fp2_mul(r, r, (p - 1) as nat, p) == (a, 0nat)
        }),
{
    let pp = p as int;
    let e = (p + 1) / 4;
    let beta = (p - 1) as nat;
    let sa = pow_mod(a, e, p);
    lemma_small_mod(0, p);
    if (sa * sa) % p == a {
        assert(sa * sa + beta * (0nat * 0nat) == sa * sa) by (nonlinear_arith);
        assert(sa * 0 + 0 * sa == 0) by (nonlinear_arith);
    } else {
        lemma_root_of_negation(a, p);
        let na = sub_mod(0, a, p);
        let s = pow_mod(na, e, p);
        assert((s * s) % p == na);
        let si = s as int;
        // beta s^2 is congruent to (-1)(-a) = a
        crate::modular::lemma_cong_iff_diff(beta as int, -1, pp);
        lemma_mod_self_0(pp);
        assert(beta as int - (-1) == pp);
        lemma_cong_mod(si * si, pp);
        lemma_cong_mod(0 - a, pp);
        lemma_cong_mul(beta as int, si * si, -1, 0 - a, pp);
        assert((-1) * (0 - a) == a as int);
        assert(0nat * 0nat + beta * (s * s) == beta * (s * s)) by (nonlinear_arith);
        assert(0 * s + s * 0 == 0) by (nonlinear_arith);
        lemma_small_mod(a, p);
        lemma_cong_to_mod(a as int, (beta as int) * (si * si), pp);
    }
}

/// The candidate root that the extension square root takes for `x = (c + d i)^2` with
/// a nonzero imaginary part squares to `c^2`.
#[verifier::spinoff_prover]
proof fn lemma_fp2_sqrt_real_part(c: nat, d: nat, p: nat)
    requires
        is_prime(p),
        p % 4 == 3,
        c < p,
        d < p,
        d != 0,
        fp2_mul((c, d), (c, d), (p - 1) as nat, p).1 != 0,
        ({
            let x = fp2_mul((c, d), (c, d), (p - 1) as nat, p);
            let n = pow_mod(((x.0 * x.0) % p + (x.1 * x.1) % p) % p, (p + 1) / 4, p);
            cong(n as int, (c * c + d * d) as int, p as int) || cong(n as int, 0 - (c * c + d * d), p as int)
        }),
    ensures
        ({
            let x = fp2_mul((c, d), (c, d), (p - 1) as nat, p);
            let r = fp2_sqrt(x, (p + 1) / 4, p);
            (r.0 * r.0) % p == (c * c) % p
        }),
{
    let pp = p as int;
    let e = (p + 1) / 4;
    let beta = (p - 1) as nat;
    let x = fp2_mul((c, d), (c, d), beta, p);
    let (a, b) = (x.0, x.1);
    let (ci, di, ai) = (c as int, d as int, a as int);
    let m = c * c + d * d;
    let n = pow_mod(((a * a) % p + (b * b) % p) % p, e, p);
    let ni = n as int;
    // a is congruent to c^2 - d^2
    crate::modular::lemma_cong_iff_diff(beta as int, -1, pp);
    lemma_mod_self_0(pp);
    assert(beta as int - (-1) == pp);
    lemma_cong_mod((c * c + beta * (d * d)) as int, pp);
    lemma_cong_mul(beta as int, (d * d) as int, -1, (d * d) as int, pp);
    lemma_cong_add((c * c) as int, (beta * (d * d)) as int, (c * c) as int, -1 * ((d * d) as int), pp);
    assert(cong(ai, ci * ci - di * di, pp));
    // 2^(p - 2) is the inverse of two
    let two_inv = pow_mod(2nat % p, (p - 2) as nat, p);
    lemma_small_mod(2, p);
    lemma_fermat_inverse(2, p);
    let ti = two_inv as int;
    let delta1 = (((a + n) % p) * two_inv) % p;
    lemma_cong_mod((a + n) as int, pp);
    lemma_cong_mod((((a + n) % p) * two_inv) as int, pp);
    lemma_cong_mul(((a + n) % p) as int, ti, (a + n) as int, ti, pp);
    lemma_small_mod(1, p);
    let x1 = pow_mod(delta1, e, p);
    if cong(ni, m as int, pp) {
        // a + n is congruent to 2 c^2, so delta1 to c^2
        lemma_cong_add(ai, ni, ci * ci - di * di, m as int, pp);
        assert(ci * ci - di * di + m == 2 * (ci * ci));
        lemma_cong_mul((a + n) as int, ti, 2 * (ci * ci), ti, pp);
        assert(2 * (ci * ci) * ti == (ci * ci) * (2 * ti)) by (nonlinear_arith);
        lemma_cong_mul(ci * ci, 2 * ti, ci * ci, 1, pp);
        lemma_mod_bound((((a + n) % p) * two_inv) as int, pp);
        lemma_cong_to_mod(delta1 as int, ci * ci, pp);
        lemma_root_of_square(c, p);
        assert((x1 * x1) % p == delta1);
        assert(fp2_sqrt(x, e, p).0 == x1);
    } else {
        // a + n is congruent to -2 d^2, so delta1 to -d^2, which is not a square
        lemma_cong_add(ai, ni, ci * ci - di * di, 0 - m, pp);
        assert(ci * ci - di * di + (0 - m) == -2 * (di * di));
        lemma_cong_mul((a + n) as int, ti, -2 * (di * di), ti, pp);
        assert(-2 * (di * di) * ti == (0 - di * di) * (2 * ti)) by (nonlinear_arith);
        lemma_cong_mul(0 - di * di, 2 * ti, 0 - di * di, 1, pp);
        assert(cong(delta1 as int, 0 - di * di, pp));
        if (x1 * x1) % p == delta1 {
            lemma_mod_bound((x1 * x1) as int, pp);
            lemma_cong_mod((x1 * x1) as int, pp);
            lemma_cong_add((x1 * x1) as int, (d * d) as int, 0 - di * di, (d * d) as int, pp);
            lemma_small_mod(0, p);
            lemma_mod_bound(pow(delta1 as int, e), pp);
            lemma_norm_nonzero(x1, d, p);
            assert(false);
        }
        // delta = (a - n) / 2 is congruent to c^2
        let na = sub_mod(a, n, p);
        lemma_cong_mod(ai - ni, pp);
        crate::modular::lemma_cong_sub(ai, ni, ci * ci - di * di, 0 - m, pp);
        assert(ci * ci - di * di - (0 - m) == 2 * (ci * ci));
        lemma_cong_mul(na as int, ti, 2 * (ci * ci), ti, pp);
        assert(2 * (ci * ci) * ti == (ci * ci) * (2 * ti)) by (nonlinear_arith);
        lemma_cong_mul(ci * ci, 2 * ti, ci * ci, 1, pp);
        let delta = (na * two_inv) % p;
        lemma_cong_mod((na * two_inv) as int, pp);
        lemma_mod_bound((na * two_inv) as int, pp);
        lemma_cong_to_mod(delta as int, ci * ci, pp);
        lemma_root_of_square(c, p);
        assert(fp2_sqrt(x, e, p).0 == pow_mod(delta, e, p));
    }
}

/// The coordinates of `(c + d i)^2` when `i^2 = -1`: `c^2 - d^2` and `2 c d`.
proof fn lemma_square_coords(c: nat, d: nat, p: nat)
    requires
        p > 1,
    ensures
        ({
            let x = fp2_mul((c, d), (c, d), (p - 1) as nat, p);
            &&& cong(x.0 as int, (c * c) as int - (d * d) as int, p as int)
            &&& cong(x.1 as int, (2 * (c * d)) as int, p as int)
        }),
{
    let pp = p as int;
    let beta = (p - 1) as nat;
    crate::modular::lemma_cong_iff_diff(beta as int, -1, pp);
    lemma_mod_self_0(pp);
    assert(beta as int - (-1) == pp);
    lemma_cong_mod((c * c + beta * (d * d)) as int, pp);
    lemma_cong_mul(beta as int, (d * d) as int, -1, (d * d) as int, pp);
    lemma_cong_add((c * c) as int, (beta * (d * d)) as int, (c * c) as int, -1 * ((d * d) as int), pp);
    lemma_cong_mod((c * d + d * c) as int, pp);
    assert(c * d + d * c == 2 * (c * d)) by (nonlinear_arith);
}

/// Over the CSIDH-style extension (`i^2 = -1`, `p = 3 (mod 4)` prime), the square root
/// of a square squares back to it.
#[verifier::spinoff_prover]
proof fn lemma_fp2_sqrt_of_square_core(c: nat, d: nat, p: nat)
    requires
        is_prime(p),
        p % 4 == 3,
        c < p,
        d < p,
    ensures
        ({
            let x = fp2_mul((c, d), (c, d), (p - 1) as nat, p);
            let r = fp2_sqrt(x, (p + 1) / 4, p);
            fp2_mul(r, r, (p - 1) as nat, p) == x
        }),
{
    let pp = p as int;
    let e = (p + 1) / 4;
    let beta = (p - 1) as nat;
    let x = fp2_mul((c, d), (c, d), beta, p);
    let (a, b) = (x.0, x.1);
    if b == 0 {
        lemma_fp2_sqrt_of_base(a, p);
        assert(x == (a, 0nat));
    } else {
        let (ci, di) = (c as int, d as int);
        lemma_square_coords(c, d, p);
        lemma_small_mod(0, p);
        if c == 0 || d == 0 {
            assert(2 * (c * d) == 0) by (nonlinear_arith)
                requires
                    c == 0 || d == 0,
            ;
            assert(false);
        }
        // the norm a^2 + b^2 is the square of m = c^2 + d^2
        let m = c * c + d * d;
        let nn = ((a * a) % p + (b * b) % p) % p;
        let ai = a as int;
        let bi = b as int;
        lemma_cong_mul(ai, ai, ci * ci - di * di, ci * ci - di * di, pp);
        lemma_cong_mul(bi, bi, 2 * (ci * di), 2 * (ci * di), pp);
        lemma_cong_mod(ai * ai, pp);
        lemma_cong_mod(bi * bi, pp);
        lemma_cong_add((ai * ai) % pp, (bi * bi) % pp, (ci * ci - di * di) * (ci * ci - di * di), (2 * (ci * di)) * (2 * (ci * di)), pp);
        assert((ci * ci - di * di) * (ci * ci - di * di) + (2 * (ci * di)) * (2 * (ci * di)) == (m as int) * (m as int)) by (nonlinear_arith)
            requires
                m == ci * ci + di * di,
        ;
        lemma_cong_mod(((a * a) % p + (b * b) % p) as int, pp);
        lemma_mod_bound(((a * a) % p + (b * b) % p) as int, pp);
        lemma_cong_to_mod(nn as int, (m * m) as int, pp);
        lemma_root_of_square(m, p);
        let n = pow_mod(nn, e, p);
        lemma_square_roots(n as int, m as int, p);
        lemma_fp2_sqrt_real_part(c, d, p);
        let r = fp2_sqrt(x, e, p);
        let xr = r.0;
        let xi = xr as int;
        assert(cong(xi * xi, ci * ci, pp));
        lemma_square_roots(xi, ci, p);
        // the abscissa is nonzero, and so is 2 x
        if xr == 0 {
            crate::modular::lemma_cong_iff_diff(0, 0 - ci, pp);
            assert(0 - (0 - ci) == ci);
            lemma_small_mod(c, p);
            assert(false);
        }
        let w = (xr + xr) % p;
        lemma_cong_mod((xr + xr) as int, pp);
        if w == 0 {
            assert(((xr + xr) as int) == 2 * xi);
            lemma_euclid(2, xi, p);
            lemma_small_mod(2, p);
            lemma_small_mod(xr, p);
            assert(false);
        }
        lemma_mod_bound((xr + xr) as int, pp);
        lemma_fermat_inverse(w, p);
        let winv = pow_mod(w, (p - 2) as nat, p);
        let y = (b * winv) % p;
        assert(r.1 == y);
        let yi = y as int;
        // y 2x is congruent to b, which is congruent to 2 c d
        lemma_cong_mod(bi * (winv as int), pp);
        lemma_cong_mul(yi, w as int, bi * (winv as int), w as int, pp);
        assert(bi * (winv as int) * (w as int) == bi * ((w as int) * (winv as int))) by (nonlinear_arith);
        lemma_small_mod(1, p);
        lemma_cong_mul(bi, (w as int) * (winv as int), bi, 1, pp);
        lemma_cong_mul(yi, w as int, yi, 2 * xi, pp);
        assert(cong(yi * (2 * xi), 2 * (ci * di), pp));
        if cong(xi, ci, pp) {
            lemma_cong_mul(2, xi, 2, ci, pp);
            lemma_cong_mul(yi, 2 * xi, yi, 2 * ci, pp);
            assert(yi * (2 * ci) - 2 * (ci * di) == (2 * ci) * (yi - di)) by (nonlinear_arith);
            crate::modular::lemma_cong_iff_diff(yi * (2 * ci), 2 * (ci * di), pp);
            lemma_euclid(2 * ci, yi - di, p);
            if (2 * ci) % pp == 0 {
                lemma_euclid(2, ci, p);
                lemma_small_mod(2, p);
                lemma_small_mod(c, p);
                assert(false);
            }
            crate::modular::lemma_cong_iff_diff(yi, di, pp);
            lemma_cong_mul(yi, yi, di, di, pp);
            lemma_cong_mul(xi, yi, ci, di, pp);
            lemma_cong_mul(yi, xi, di, ci, pp);
        } else {
            lemma_cong_mul(2, xi, 2, 0 - ci, pp);
            lemma_cong_mul(yi, 2 * xi, yi, 2 * (0 - ci), pp);
            assert(yi * (2 * (0 - ci)) - 2 * (ci * di) == (0 - 2 * ci) * (yi + di)) by (nonlinear_arith);
            crate::modular::lemma_cong_iff_diff(yi * (2 * (0 - ci)), 2 * (ci * di), pp);
            lemma_euclid(0 - 2 * ci, yi + di, p);
            if (0 - 2 * ci) % pp == 0 {
                crate::modular::lemma_cong_iff_diff(0, 2 * ci, pp);
                lemma_euclid(2, ci, p);
                lemma_small_mod(2, p);
                lemma_small_mod(c, p);
                assert(false);
            }
            crate::modular::lemma_cong_iff_diff(yi, 0 - di, pp);
            assert(yi - (0 - di) == yi + di);
            lemma_cong_mul(yi, yi, 0 - di, 0 - di, pp);
            assert((0 - di) * (0 - di) == di * di) by (nonlinear_arith);
            lemma_cong_mul(xi, yi, 0 - ci, 0 - di, pp);
            lemma_cong_mul(yi, xi, 0 - di, 0 - ci, pp);
            assert((0 - ci) * (0 - di) == ci * di) by (nonlinear_arith);
            assert((0 - di) * (0 - ci) == ci * di) by (nonlinear_arith);
        }
        // the square of (x, y)
        lemma_cong_mul(beta as int, yi * yi, beta as int, di * di, pp);
        lemma_cong_add(xi * xi, (beta as int) * (yi * yi), ci * ci, (beta as int) * (di * di), pp);
        lemma_cong_mod((c * c + beta * (d * d)) as int, pp);
        lemma_cong_to_mod(ai, xi * xi + (beta as int) * (yi * yi), pp);
        assert(di * ci == ci * di) by (nonlinear_arith);
        lemma_cong_add(xi * yi, yi * xi, ci * di, ci * di, pp);
        lemma_cong_to_mod(bi, xi * yi + yi * xi, pp);
    }
}

/// Over an extension by `i` with `i^2 = -1` of a prime field with `p = 3 (mod 4)`, the
/// square root of a square squares back to it.
pub proof fn law_fp2_sqrt_of_square<E: NonResidueMinusOne>(t: ExtensionFieldElement<E>)
    where
        E::Base: Sqrt3Mod4,
    requires
        t.well_formed(),
        is_prime(modulus::<E::Base>()),
        modulus::<E::Base>() % 4 == 3,
    ensures
        ({
            let beta = E::spec_non_residue();
            let p = modulus::<E::Base>();
            let x = fp2_mul(t@, t@, beta, p);
            let r = fp2_sqrt(x, sqrt_exponent::<E::Base>(), p);
            fp2_mul(r, r, beta, p) == x
        }),
{
    lemma_well_formed_ext(t);
    E::lemma_non_residue_is_minus_one();
    lemma_sqrt_exponent_exact::<E::Base>();
    lemma_fp2_sqrt_of_square_core(t@.0, t@.1, modulus::<E::Base>());
}

/// The doubling formula without the final reduction.
spec fn double_raw(pt: Jac, a: nat) -> (int, int, int) {
    let x = pt.0 as int;
    let y = pt.1 as int;
    let z = pt.2 as int;
    let yy = y * y;
    let s = 4 * x * yy;
    let m = 3 * (x * x) + a * (z * z) * (z * z);
    let x3 = m * m - 2 * s;
    (x3, m * (s - x3) - 8 * (yy * yy), 2 * y * z)
}

/// Doubling congruent triples gives the same residues.
#[verifier::spinoff_prover]
proof fn lemma_double_congruent(u: Jac, v: Jac, a: nat, p: nat)
    requires
        p > 0,
        u.2 != 0,
        v.2 != 0,
        cong(u.0 as int, v.0 as int, p as int),
        cong(u.1 as int, v.1 as int, p as int),
        cong(u.2 as int, v.2 as int, p as int),
    ensures
        jac_double(u, a, p) == jac_double(v, a, p),
{
    let pp = p as int;
    let ai = a as int;
    let (x, y, z) = (u.0 as int, u.1 as int, u.2 as int);
    let (xq, yq, zq) = (v.0 as int, v.1 as int, v.2 as int);
    lemma_cong_mul(y, y, yq, yq, pp);
    lemma_cong_mul(4, x, 4, xq, pp);
    lemma_cong_mul(4 * x, y * y, 4 * xq, yq * yq, pp);
    lemma_cong_mul(x, x, xq, xq, pp);
    lemma_cong_mul(3, x * x, 3, xq * xq, pp);
    lemma_cong_mul(z, z, zq, zq, pp);
    lemma_cong_mul(ai, z * z, ai, zq * zq, pp);
    lemma_cong_mul(ai * (z * z), z * z, ai * (zq * zq), zq * zq, pp);
    lemma_cong_add(3 * (x * x), ai * (z * z) * (z * z), 3 * (xq * xq), ai * (zq * zq) * (zq * zq), pp);
    let m = 3 * (x * x) + ai * (z * z) * (z * z);
    let mq = 3 * (xq * xq) + ai * (zq * zq) * (zq * zq);
    let s_ = 4 * x * (y * y);
    let sq = 4 * xq * (yq * yq);
    lemma_cong_mul(m, m, mq, mq, pp);
    lemma_cong_mul(2, s_, 2, sq, pp);
    crate::modular::lemma_cong_sub(m * m, 2 * s_, mq * mq, 2 * sq, pp);
    let x3 = m * m - 2 * s_;
    let x3q = mq * mq - 2 * sq;
    crate::modular::lemma_cong_sub(s_, x3, sq, x3q, pp);
    lemma_cong_mul(m, s_ - x3, mq, sq - x3q, pp);
    lemma_cong_mul(y * y, y * y, yq * yq, yq * yq, pp);
    lemma_cong_mul(8, (y * y) * (y * y), 8, (yq * yq) * (yq * yq), pp);
    crate::modular::lemma_cong_sub(m * (s_ - x3), 8 * ((y * y) * (y * y)), mq * (sq - x3q), 8 * ((yq * yq) * (yq * yq)), pp);
    lemma_cong_mul(2, y, 2, yq, pp);
    lemma_cong_mul(2 * y, z, 2 * yq, zq, pp);
}

/// Doubling `(l^2 X : l^3 Y : l Z)` gives the raw result of `(X : Y : Z)` scaled by
/// `l^8`, `l^12` and `l^4`.
#[verifier::spinoff_prover]
proof fn lemma_double_scaled(pt: Jac, l: nat, a: nat)
    ensures
        ({
            let q: Jac = (l * l * pt.0, l * l * l * pt.1, l * pt.2);
            let l4 = (l * l) * (l * l);
            let r = double_raw(pt, a);
            let rq = double_raw(q, a);
            &&& rq.0 == (l4 * l4) * r.0
            &&& rq.1 == (l4 * l4 * l4) * r.1
            &&& rq.2 == l4 * r.2
        }),
{
    let li = l as int;
    let ai = a as int;
    let (x, y, z) = (pt.0 as int, pt.1 as int, pt.2 as int);
    let l2 = li * li;
    let l3 = l2 * li;
    let l4 = l2 * l2;
    let l8 = l4 * l4;
    let l12 = l8 * l4;
    let xq = l2 * x;
    let yq = l3 * y;
    let zq = li * z;
    assert((l * l * pt.0) as int == xq && (l * l * l * pt.1) as int == yq && (l * pt.2) as int == zq);
    let yy = y * y;
    let yyq = yq * yq;
    assert(yyq == (l3 * l3) * yy) by (nonlinear_arith)
        requires
            yq == l3 * y,
            yy == y * y,
            yyq == yq * yq,
    ;
    assert(l3 * l3 == l2 * l4) by (nonlinear_arith)
        requires
            l3 == l2 * li,
            l4 == l2 * l2,
            l2 == li * li,
    ;
    let s_ = 4 * x * yy;
    let sq = 4 * xq * yyq;
    assert(sq == l8 * s_) by (nonlinear_arith)
        requires
            sq == 4 * xq * yyq,
            xq == l2 * x,
            yyq == (l2 * l4) * yy,
            s_ == 4 * x * yy,
            l8 == l4 * l4,
            l4 == l2 * l2,
    ;
    let m = 3 * (x * x) + ai * (z * z) * (z * z);
    let mq = 3 * (xq * xq) + ai * (zq * zq) * (zq * zq);
    assert(xq * xq == l4 * (x * x)) by (nonlinear_arith)
        requires
            xq == l2 * x,
            l4 == l2 * l2,
    ;
    assert(zq * zq == l2 * (z * z)) by (nonlinear_arith)
        requires
            zq == li * z,
            l2 == li * li,
    ;
    assert(ai * (zq * zq) * (zq * zq) == l4 * (ai * (z * z) * (z * z))) by (nonlinear_arith)
        requires
            zq * zq == l2 * (z * z),
            l4 == l2 * l2,
    ;
    assert(mq == l4 * m) by (nonlinear_arith)
        requires
            mq == 3 * (xq * xq) + ai * (zq * zq) * (zq * zq),
            m == 3 * (x * x) + ai * (z * z) * (z * z),
            xq * xq == l4 * (x * x),
            ai * (zq * zq) * (zq * zq) == l4 * (ai * (z * z) * (z * z)),
    ;
    let x3 = m * m - 2 * s_;
    let x3q = mq * mq - 2 * sq;
    assert(x3q == l8 * x3) by (nonlinear_arith)
        requires
            mq == l4 * m,
            sq == l8 * s_,
            l8 == l4 * l4,
            x3 == m * m - 2 * s_,
            x3q == mq * mq - 2 * sq,
    ;
    assert(yyq * yyq == l12 * (yy * yy)) by (nonlinear_arith)
        requires
            yyq == (l2 * l4) * yy,
            l12 == l8 * l4,
            l8 == l4 * l4,
            l4 == l2 * l2,
    ;
    assert(sq - x3q == l8 * (s_ - x3)) by (nonlinear_arith)
        requires
            sq == l8 * s_,
            x3q == l8 * x3,
    ;
    assert(mq * (sq - x3q) == l12 * (m * (s_ - x3))) by (nonlinear_arith)
        requires
            mq == l4 * m,
            sq - x3q == l8 * (s_ - x3),
            l12 == l8 * l4,
    ;
    assert(l12 * (m * (s_ - x3)) - 8 * (l12 * (yy * yy)) == l12 * (m * (s_ - x3) - 8 * (yy * yy))) by (nonlinear_arith);
    assert(2 * yq * zq == l4 * (2 * y * z)) by (nonlinear_arith)
        requires
            yq == l3 * y,
            zq == li * z,
            l3 == l2 * li,
            l4 == l2 * l2,
            l2 == li * li,
    ;
}

/// Scaling a Jacobian triple by a nonzero `mu` gives the same point.
#[verifier::spinoff_prover]
proof fn lemma_scaled_jac_eq(x: int, y: int, z: int, mu: int, p: nat)
    requires
        is_prime(p),
        mu % (p as int) != 0,
    ensures
        jac_eq(
            (residue(x, p), residue(y, p), residue(z, p)),
            (residue(mu * mu * x, p), residue(mu * mu * mu * y, p), residue(mu * z, p)),
            p,
        ),
{
    let pp = p as int;
    let (rx, ry, rz) = (residue(x, p) as int, residue(y, p) as int, residue(z, p) as int);
    let (sx, sy, sz) = (residue(mu * mu * x, p) as int, residue(mu * mu * mu * y, p) as int, residue(mu * z, p) as int);
    lemma_cong_mod(x, pp);
    lemma_cong_mod(y, pp);
    lemma_cong_mod(z, pp);
    lemma_cong_mod(mu * mu * x, pp);
    lemma_cong_mod(mu * mu * mu * y, pp);
    lemma_cong_mod(mu * z, pp);
    lemma_small_mod(0, p);
    if rz == 0 || sz == 0 {
        // mu z is a multiple of p exactly when z is
        if rz == 0 {
            lemma_cong_mul(mu, z, mu, 0, pp);
            assert(mu * 0 == 0);
        } else {
            lemma_euclid(mu, z, p);
        }
    } else {
        lemma_cong_mul(sz, sz, mu * z, mu * z, pp);
        lemma_cong_mul(rx, sz * sz, x, (mu * z) * (mu * z), pp);
        lemma_cong_mul(rz, rz, z, z, pp);
        lemma_cong_mul(sx, rz * rz, mu * mu * x, z * z, pp);
        assert(x * ((mu * z) * (mu * z)) == mu * mu * x * (z * z)) by (nonlinear_arith);
        lemma_cong_mul(sz * sz, sz, (mu * z) * (mu * z), mu * z, pp);
        lemma_cong_mul(ry, (sz * sz) * sz, y, ((mu * z) * (mu * z)) * (mu * z), pp);
        lemma_cong_mul(rz * rz, rz, z * z, z, pp);
        lemma_cong_mul(sy, (rz * rz) * rz, mu * mu * mu * y, (z * z) * z, pp);
        assert(y * (((mu * z) * (mu * z)) * (mu * z)) == mu * mu * mu * y * ((z * z) * z)) by (nonlinear_arith);
    }
}

/// Over a prime field, doubling two triples of one point gives triples of one point.
#[verifier::spinoff_prover]
proof fn lemma_double_respects_eq(p1: Jac, p2: Jac, a: nat, p: nat)
    requires
        is_prime(p),
        p1.2 != 0,
        p2.2 != 0,
        p1.2 < p,
        p2.2 < p,
        jac_eq(p1, p2, p),
    ensures
        jac_eq(jac_double(p1, a, p), jac_double(p2, a, p), p),
{
    let pp = p as int;
    let (x1, y1, z1) = (p1.0 as int, p1.1 as int, p1.2 as int);
    let (x2, y2, z2) = (p2.0 as int, p2.1 as int, p2.2 as int);
    // l = z2 / z1
    let zi = lemma_inverse_exists(p1.2, p);
    let l = (p2.2 * zi) % p;
    let li = l as int;
    lemma_cong_mod((p2.2 * zi) as int, pp);
    lemma_small_mod(1, p);
    assert(cong(z1 * (zi as int), 1, pp));
    lemma_cong_mul(li, z1, z2 * (zi as int), z1, pp);
    assert(z2 * (zi as int) * z1 == z2 * (z1 * (zi as int))) by (nonlinear_arith);
    lemma_cong_mul(z2, z1 * (zi as int), z2, 1, pp);
    assert(cong(li * z1, z2, pp));
    lemma_small_mod(0, p);
    lemma_small_mod(p2.2, p);
    lemma_small_mod(p1.2, p);
    if l == 0 {
        assert(li * z1 == 0);
        assert(false);
    }
    // z1^2 and z1^3 are not multiples of p
    if (z1 * z1) % pp == 0 {
        lemma_euclid(z1, z1, p);
    }
    if ((z1 * z1) * z1) % pp == 0 {
        lemma_euclid(z1 * z1, z1, p);
        lemma_euclid(z1, z1, p);
    }
    // x2 = l^2 x1 and y2 = l^3 y1
    lemma_cong_mul(li * z1, li * z1, z2, z2, pp);
    lemma_cong_mul(x1, (li * z1) * (li * z1), x1, z2 * z2, pp);
    assert(x1 * ((li * z1) * (li * z1)) - x2 * (z1 * z1) == (li * li * x1 - x2) * (z1 * z1)) by (nonlinear_arith);
    crate::modular::lemma_cong_iff_diff(x1 * ((li * z1) * (li * z1)), x2 * (z1 * z1), pp);
    lemma_euclid(li * li * x1 - x2, z1 * z1, p);
    crate::modular::lemma_cong_iff_diff(li * li * x1, x2, pp);
    lemma_cong_mul((li * z1) * (li * z1), li * z1, z2 * z2, z2, pp);
    lemma_cong_mul(y1, ((li * z1) * (li * z1)) * (li * z1), y1, (z2 * z2) * z2, pp);
    assert(y1 * (((li * z1) * (li * z1)) * (li * z1)) - y2 * ((z1 * z1) * z1) == (li * li * li * y1 - y2) * ((z1 * z1) * z1)) by (nonlinear_arith);
    crate::modular::lemma_cong_iff_diff(y1 * (((li * z1) * (li * z1)) * (li * z1)), y2 * ((z1 * z1) * z1), pp);
    lemma_euclid(li * li * li * y1 - y2, (z1 * z1) * z1, p);
    crate::modular::lemma_cong_iff_diff(li * li * li * y1, y2, pp);
    // double(p2) = double(scaled p1), which is double(p1) scaled by l^4
    let q: Jac = (l * l * p1.0, l * l * l * p1.1, l * p1.2);
    assert(l * p1.2 != 0) by (nonlinear_arith)
        requires
            l > 0,
            p1.2 > 0,
    ;
    lemma_double_congruent(p2, q, a, p);
    lemma_double_scaled(p1, l, a);
    let r = double_raw(p1, a);
    let l4 = (li * li) * (li * li);
    assert(jac_double(p1, a, p) == (residue(r.0, p), residue(r.1, p), residue(r.2, p)));
    assert(jac_double(q, a, p) == (residue(double_raw(q, a).0, p), residue(double_raw(q, a).1, p), residue(double_raw(q, a).2, p)));
    if l4 % pp == 0 {
        lemma_euclid(li * li, li * li, p);
        lemma_euclid(li, li, p);
        lemma_small_mod(l, p);
    }
    assert(l4 * l4 * l4 == l4 * l4 * l4);
    lemma_scaled_jac_eq(r.0, r.1, r.2, l4, p);
}

/// Doubling the point at infinity over the extension, or a point of abscissa zero,
/// gives the point at infinity.
pub proof fn law_xz2_double_infinity(pt: Xz2, a24: Fp2, beta: nat, p: nat)
    requires
        p > 0,
        pt.0 == (0nat, 0nat) || pt.1 == (0nat, 0nat),
    ensures
        xz2_double(pt, a24, beta, p).1 == (0nat, 0nat),
{
    let s = fp2_add(pt.0, pt.1, p);
    let d = fp2_sub(pt.0, pt.1, p);
    let ss = fp2_mul(s, s, beta, p);
    let dd = fp2_mul(d, d, beta, p);
    lemma_small_mod(0, p);
    let pp = p as int;
    let (x0, x1, z0, z1) = (pt.0.0 as int, pt.0.1 as int, pt.1.0 as int, pt.1.1 as int);
    lemma_cong_mod(x0 + z0, pp);
    lemma_cong_mod(x1 + z1, pp);
    lemma_cong_mod(x0 - z0, pp);
    lemma_cong_mod(x1 - z1, pp);
    crate::modular::lemma_cong_sub(0, d.0 as int, 0, x0 - z0, pp);
    crate::modular::lemma_cong_sub(0, d.1 as int, 0, x1 - z1, pp);
    lemma_fp2_square_of_opposite(s, d, beta, p);
    let e = fp2_sub(ss, dd, p);
    assert(e == (0nat, 0nat));
    let w = fp2_add(dd, fp2_mul(a24, e, beta, p), p);
    assert(0nat * w.0 + beta * (0nat * w.1) == 0) by (nonlinear_arith);
    assert(0nat * w.1 + 0nat * w.0 == 0) by (nonlinear_arith);
}

/// `x + z` and `x - z`, when `x` or `z` is zero, are equal or opposite, so their squares
/// are equal.
proof fn lemma_fp2_square_of_opposite(s: Fp2, d: Fp2, beta: nat, p: nat)
    requires
        p > 0,
        cong(s.0 as int, d.0 as int, p as int) && cong(s.1 as int, d.1 as int, p as int) || cong(
            s.0 as int,
            0 - d.0,
            p as int,
        ) && cong(s.1 as int, 0 - d.1, p as int),
    ensures
        fp2_mul(s, s, beta, p) == fp2_mul(d, d, beta, p),
{
    let pp = p as int;
    let (s0, s1, d0, d1) = (s.0 as int, s.1 as int, d.0 as int, d.1 as int);
    let b = beta as int;
    if cong(s0, d0, pp) && cong(s1, d1, pp) {
        lemma_cong_mul(s0, s0, d0, d0, pp);
        lemma_cong_mul(s1, s1, d1, d1, pp);
        lemma_cong_mul(b, s1 * s1, b, d1 * d1, pp);
        lemma_cong_add(s0 * s0, b * (s1 * s1), d0 * d0, b * (d1 * d1), pp);
        lemma_cong_mul(s0, s1, d0, d1, pp);
        lemma_cong_mul(s1, s0, d1, d0, pp);
        lemma_cong_add(s0 * s1, s1 * s0, d0 * d1, d1 * d0, pp);
    } else {
        lemma_cong_mul(s0, s0, 0 - d0, 0 - d0, pp);
        lemma_cong_mul(s1, s1, 0 - d1, 0 - d1, pp);
        lemma_cong_mul(b, s1 * s1, b, (0 - d1) * (0 - d1), pp);
        lemma_cong_add(s0 * s0, b * (s1 * s1), (0 - d0) * (0 - d0), b * ((0 - d1) * (0 - d1)), pp);
        lemma_cong_mul(s0, s1, 0 - d0, 0 - d1, pp);
        lemma_cong_mul(s1, s0, 0 - d1, 0 - d0, pp);
        lemma_cong_add(s0 * s1, s1 * s0, (0 - d0) * (0 - d1), (0 - d1) * (0 - d0), pp);
        assert((0 - d0) * (0 - d0) == d0 * d0) by (nonlinear_arith);
        assert((0 - d1) * (0 - d1) == d1 * d1) by (nonlinear_arith);
        assert((0 - d0) * (0 - d1) == d0 * d1) by (nonlinear_arith);
        assert((0 - d1) * (0 - d0) == d1 * d0) by (nonlinear_arith);
    }
    lemma_cong_mod(s0 * s0 + b * (s1 * s1), pp);
    lemma_cong_mod(d0 * d0 + b * (d1 * d1), pp);
    lemma_cong_mod(s0 * s1 + s1 * s0, pp);
    lemma_cong_mod(d0 * d1 + d1 * d0, pp);
}

/// The ladder by zero over the extension gives the point at infinity `(1 : 0)`.
pub proof fn law_xz2_mult_zero(pt: Xz2, k: nat, a24: Fp2, beta: nat, p: nat)
    requires
        p > 1,
    ensures
        xz2_mult(pt, 0, k, a24, beta, p) == xz2_infinity(),
{
    lemma_xz2_ladder_zero(pt, k, a24, beta, p);
}

proof fn lemma_xz2_ladder_zero(pt: Xz2, k: nat, a24: Fp2, beta: nat, p: nat)
    requires
        p > 1,
    ensures
        xz2_ladder(pt, 0, k, a24, beta, p).0 == xz2_infinity(),
    decreases k,
{
    if k > 0 {
        lemma_xz2_ladder_zero(pt, (k - 1) as nat, a24, beta, p);
        lemma_small_mod(1, p);
        lemma_small_mod(0, p);
        let one: Fp2 = (1nat, 0nat);
        let zero: Fp2 = (0nat, 0nat);
        assert(fp2_add(one, zero, p) == one);
        assert(fp2_sub(one, zero, p) == one);
        assert(1nat * 1nat + beta * (0nat * 0nat) == 1) by (nonlinear_arith);
        assert(1nat * 0nat + 0nat * 1nat == 0) by (nonlinear_arith);
        assert(fp2_mul(one, one, beta, p) == one);
        assert(fp2_sub(one, one, p) == zero);
        let w = fp2_add(one, fp2_mul(a24, zero, beta, p), p);
        assert(0nat * w.0 + beta * (0nat * w.1) == 0) by (nonlinear_arith);
        assert(0nat * w.1 + 0nat * w.0 == 0) by (nonlinear_arith);
        assert(xz2_double(xz2_infinity(), a24, beta, p) == xz2_infinity());
    }
}

/// `q` is `l` times `pt`, coordinate by coordinate, modulo `p`.
spec fn xz_scaled(q: Xz, pt: Xz, l: int, p: nat) -> bool {
    &&& cong(q.0 as int, l * pt.0, p as int)
    &&& cong(q.1 as int, l * pt.1, p as int)
}

/// Differential addition of a multiple of `P` and the point at infinity, with difference
/// `P`, in either order, gives `4 l^2 x z` times `P`.
#[verifier::spinoff_prover]
proof fn lemma_xz_add_infinity_scaled(q: Xz, pt: Xz, l: int, p: nat)
    requires
        p > 0,
        xz_scaled(q, pt, l, p),
    ensures
        xz_scaled(xz_add(xz_infinity(), q, pt, p), pt, 4 * (l * l) * (pt.0 * pt.1), p),
        xz_scaled(xz_add(q, xz_infinity(), pt, p), pt, 4 * (l * l) * (pt.0 * pt.1), p),
{
    let pp = p as int;
    let (x, z) = (pt.0 as int, pt.1 as int);
    let (xq, zq) = (q.0 as int, q.1 as int);
    let lq = 4 * (l * l) * (x * z);
    assert(2 * (1 * xq - 0 * zq) == 2 * xq && 2 * (xq * 0 - 1 * zq) == 0 - 2 * zq);
    assert(2 * (xq * 1 - zq * 0) == 2 * xq && 2 * (1 * zq - xq * 0) == 2 * zq);
    lemma_cong_mul(2, xq, 2, l * x, pp);
    lemma_cong_mul(2, zq, 2, l * z, pp);
    lemma_cong_mul(z, 2 * xq, z, 2 * (l * x), pp);
    lemma_cong_mul(z * (2 * xq), 2 * xq, z * (2 * (l * x)), 2 * (l * x), pp);
    assert(z * (2 * (l * x)) * (2 * (l * x)) == lq * x) by (nonlinear_arith)
        requires
            lq == 4 * (l * l) * (x * z),
    ;
    assert(z * (2 * xq) * (2 * xq) == z * 2 * xq * (2 * xq)) by (nonlinear_arith);
    crate::modular::lemma_cong_sub(0, 2 * zq, 0, 2 * (l * z), pp);
    lemma_cong_mul(0 - 2 * zq, 0 - 2 * zq, 0 - 2 * (l * z), 0 - 2 * (l * z), pp);
    lemma_cong_mul(x, (0 - 2 * zq) * (0 - 2 * zq), x, (0 - 2 * (l * z)) * (0 - 2 * (l * z)), pp);
    assert(x * ((0 - 2 * (l * z)) * (0 - 2 * (l * z))) == lq * z) by (nonlinear_arith)
        requires
            lq == 4 * (l * l) * (x * z),
    ;
    assert(x * (0 - 2 * zq) * (0 - 2 * zq) == x * ((0 - 2 * zq) * (0 - 2 * zq))) by (nonlinear_arith);
    lemma_cong_mul(2 * zq, 2 * zq, 2 * (l * z), 2 * (l * z), pp);
    lemma_cong_mul(x, (2 * zq) * (2 * zq), x, (2 * (l * z)) * (2 * (l * z)), pp);
    assert(x * ((2 * (l * z)) * (2 * (l * z))) == lq * z) by (nonlinear_arith)
        requires
            lq == 4 * (l * l) * (x * z),
    ;
    assert(x * (2 * zq) * (2 * zq) == x * ((2 * zq) * (2 * zq))) by (nonlinear_arith);
    lemma_cong_mod(z * (2 * xq) * (2 * xq), pp);
    lemma_cong_mod(x * (0 - 2 * zq) * (0 - 2 * zq), pp);
    lemma_cong_mod(x * (2 * zq) * (2 * zq), pp);
}

/// Along the leading zero bits, the ladder keeps `(infinity, l P)` for a nonzero `l`.
proof fn lemma_xz_ladder_zero_scaled(pt: Xz, k: nat, a24: nat, p: nat) -> (l: int)
    requires
        is_prime(p),
        p > 2,
        (pt.0 as int * pt.1 as int) % (p as int) != 0,
    ensures
        xz_ladder(pt, 0, k, a24, p).0 == xz_infinity(),
        xz_scaled(xz_ladder(pt, 0, k, a24, p).1, pt, l, p),
        l % (p as int) != 0,
    decreases k,
{
    let pp = p as int;
    lemma_xz_ladder_zero(pt, k, a24, p);
    if k == 0 {
        lemma_small_mod(1, p);
        assert(1 * (pt.0 as int) == pt.0 as int && 1 * (pt.1 as int) == pt.1 as int);
        1
    } else {
        let l0 = lemma_xz_ladder_zero_scaled(pt, (k - 1) as nat, a24, p);
        let prev = xz_ladder(pt, 0, (k - 1) as nat, a24, p);
        lemma_xz_add_infinity_scaled(prev.1, pt, l0, p);
        let l = 4 * (l0 * l0) * (pt.0 * pt.1);
        lemma_nonzero_product4(l0, pt.0 as int * pt.1 as int, p);
        l
    }
}

/// `4 l^2 m` is not a multiple of an odd prime `p` when neither `l` nor `m` is.
proof fn lemma_nonzero_product4(l: int, m: int, p: nat)
    requires
        is_prime(p),
        l % (p as int) != 0,
        m % (p as int) != 0,
    ensures
        (4 * (l * l) * m) % (p as int) != 0 || p == 2,
{
    if (4 * (l * l) * m) % (p as int) == 0 && p != 2 {
        lemma_euclid(4 * (l * l), m, p);
        lemma_euclid(4, l * l, p);
        if (l * l) % (p as int) == 0 {
            lemma_euclid(l, l, p);
        } else {
            assert(4int == 2 * 2);
            lemma_euclid(2, 2, p);
            if p > 2 {
                lemma_small_mod(2, p);
            }
        }
    }
}

/// After the bits of one, the ladder's first point is a nonzero multiple of `P`.
proof fn lemma_xz_ladder_one_scaled(pt: Xz, k: nat, a24: nat, p: nat) -> (l: int)
    requires
        is_prime(p),
        p > 2,
        k >= 1,
        (pt.0 as int * pt.1 as int) % (p as int) != 0,
    ensures
        xz_scaled(xz_ladder(pt, 1, k, a24, p).0, pt, l, p),
        l % (p as int) != 0,
{
    let l0 = lemma_xz_ladder_zero_scaled(pt, (k - 1) as nat, a24, p);
    let prev = xz_ladder(pt, 0, (k - 1) as nat, a24, p);
    assert(xz_ladder(pt, 1, k, a24, p).0 == xz_add(prev.1, prev.0, pt, p));
    lemma_xz_add_infinity_scaled(prev.1, pt, l0, p);
    lemma_nonzero_product4(l0, pt.0 as int * pt.1 as int, p);
    4 * (l0 * l0) * (pt.0 * pt.1)
}

/// Doubling `l P` gives `l^4` times the double of `P`.
#[verifier::spinoff_prover]
proof fn lemma_xz_double_scaled(q: Xz, pt: Xz, l: int, a24: nat, p: nat)
    requires
        p > 0,
        xz_scaled(q, pt, l, p),
    ensures
        xz_scaled(xz_double(q, a24, p), xz_double(pt, a24, p), (l * l) * (l * l), p),
{
    let pp = p as int;
    let g = a24 as int;
    let (x, z) = (pt.0 as int, pt.1 as int);
    let (xq, zq) = (q.0 as int, q.1 as int);
    let l2 = l * l;
    let l4 = l2 * l2;
    let s_ = (x + z) * (x + z);
    let d = (x - z) * (x - z);
    let e = 4 * x * z;
    let sq = (xq + zq) * (xq + zq);
    let dq = (xq - zq) * (xq - zq);
    let eq = 4 * xq * zq;
    lemma_cong_add(xq, zq, l * x, l * z, pp);
    crate::modular::lemma_cong_sub(xq, zq, l * x, l * z, pp);
    lemma_cong_mul(xq + zq, xq + zq, l * x + l * z, l * x + l * z, pp);
    lemma_cong_mul(xq - zq, xq - zq, l * x - l * z, l * x - l * z, pp);
    lemma_cong_mul(4, xq, 4, l * x, pp);
    lemma_cong_mul(4 * xq, zq, 4 * (l * x), l * z, pp);
    assert((l * x + l * z) * (l * x + l * z) == l2 * s_) by (nonlinear_arith)
        requires
            l2 == l * l,
            s_ == (x + z) * (x + z),
    ;
    assert((l * x - l * z) * (l * x - l * z) == l2 * d) by (nonlinear_arith)
        requires
            l2 == l * l,
            d == (x - z) * (x - z),
    ;
    assert(4 * (l * x) * (l * z) == l2 * e) by (nonlinear_arith)
        requires
            l2 == l * l,
            e == 4 * x * z,
    ;
    lemma_cong_mul(sq, dq, l2 * s_, l2 * d, pp);
    assert((l2 * s_) * (l2 * d) == l4 * (s_ * d)) by (nonlinear_arith)
        requires
            l4 == l2 * l2,
    ;
    lemma_cong_mul(g, eq, g, l2 * e, pp);
    lemma_cong_add(dq, g * eq, l2 * d, g * (l2 * e), pp);
    lemma_cong_mul(eq, dq + g * eq, l2 * e, l2 * d + g * (l2 * e), pp);
    assert((l2 * e) * (l2 * d + g * (l2 * e)) == l4 * (e * (d + g * e))) by (nonlinear_arith)
        requires
            l4 == l2 * l2,
    ;
    lemma_cong_mod(s_ * d, pp);
    lemma_cong_mod(e * (d + g * e), pp);
    lemma_cong_mod(sq * dq, pp);
    lemma_cong_mod(eq * (dq + g * eq), pp);
    lemma_cong_mul(l4, (s_ * d) % pp, l4, s_ * d, pp);
    lemma_cong_mul(l4, (e * (d + g * e)) % pp, l4, e * (d + g * e), pp);
}

/// A nonzero multiple of a point stands for the same abscissa.
proof fn lemma_xz_eq_scaled(q: Xz, pt: Xz, l: int, p: nat)
    requires
        is_prime(p),
        q.0 < p,
        q.1 < p,
        pt.1 < p,
        xz_scaled(q, pt, l, p),
        l % (p as int) != 0,
    ensures
        xz_eq(q, pt, p),
{
    let pp = p as int;
    lemma_small_mod(0, p);
    lemma_small_mod(q.1, p);
    lemma_small_mod(pt.1, p);
    if q.1 == 0 || pt.1 == 0 {
        if pt.1 == 0 {
            assert(l * 0 == 0);
        } else {
            lemma_euclid(l, pt.1 as int, p);
        }
    } else {
        lemma_cong_mul(q.0 as int, pt.1 as int, l * pt.0, pt.1 as int, pp);
        lemma_cong_mul(pt.0 as int, q.1 as int, pt.0 as int, l * pt.1, pp);
        assert((l * pt.0) * pt.1 == pt.0 * (l * pt.1)) by (nonlinear_arith);
    }
}

/// Over a prime field of odd characteristic, the ladder by one gives `P` back, up to
/// representation, for a point with nonzero coordinates.
pub proof fn law_xz_mult_one(pt: Xz, k: nat, a24: nat, p: nat)
    requires
        is_prime(p),
        p > 2,
        k >= 1,
        0 < pt.0 < p,
        0 < pt.1 < p,
    ensures
        xz_eq(xz_mult(pt, 1, k, a24, p), pt, p),
{
    lemma_nonzero_coordinates(pt, p);
    let l = lemma_xz_ladder_one_scaled(pt, k, a24, p);
    let r = xz_ladder(pt, 1, k, a24, p).0;
    lemma_xz_eq_scaled(r, pt, l, p);
}

/// Over a prime field of odd characteristic, the ladder by two gives the double of `P`,
/// up to representation, for a point with nonzero coordinates.
pub proof fn law_xz_mult_two(pt: Xz, k: nat, a24: nat, p: nat)
    requires
        is_prime(p),
        p > 2,
        k >= 2,
        0 < pt.0 < p,
        0 < pt.1 < p,
    ensures
        xz_eq(xz_mult(pt, 2, k, a24, p), xz_double(pt, a24, p), p),
{
    let pp = p as int;
    lemma_nonzero_coordinates(pt, p);
    let l = lemma_xz_ladder_one_scaled(pt, (k - 1) as nat, a24, p);
    let prev = xz_ladder(pt, 1, (k - 1) as nat, a24, p);
    assert(xz_ladder(pt, 2, k, a24, p).0 == xz_double(prev.0, a24, p));
    lemma_xz_double_scaled(prev.0, pt, l, a24, p);
    let l4 = (l * l) * (l * l);
    if l4 % pp == 0 {
        lemma_euclid(l * l, l * l, p);
        lemma_euclid(l, l, p);
    }
    let d = xz_double(prev.0, a24, p);
    let dp = xz_double(pt, a24, p);
    lemma_xz_eq_scaled(d, dp, l4, p);
}

/// The coordinates of a point whose coordinates are nonzero residues multiply to a
/// nonzero residue.
proof fn lemma_nonzero_coordinates(pt: Xz, p: nat)
    requires
        is_prime(p),
        0 < pt.0 < p,
        0 < pt.1 < p,
    ensures
        (pt.0 as int * pt.1 as int) % (p as int) != 0,
{
    if (pt.0 as int * pt.1 as int) % (p as int) == 0 {
        lemma_euclid(pt.0 as int, pt.1 as int, p);
        lemma_small_mod(pt.0, p);
        lemma_small_mod(pt.1, p);
    }
}

/// Cross-multiplying by units: with `si`, `ti` inverses of `s`, `t` modulo `p`,
/// `a t = b s` exactly when `a si = b ti`.
proof fn lemma_cross_cancel(a: int, b: int, s: int, t: int, si: int, ti: int, p: int)
    requires
        p > 0,
        cong(s * si, 1, p),
        cong(t * ti, 1, p),
    ensures
        cong(a * t, b * s, p) <==> cong(a * si, b * ti, p),
{
    assert((a * t) * (si * ti) == (a * si) * (t * ti)) by (nonlinear_arith);
    assert((b * s) * (si * ti) == (b * ti) * (s * si)) by (nonlinear_arith);
    assert((a * si) * (s * t) == (a * t) * (s * si)) by (nonlinear_arith);
    assert((b * ti) * (s * t) == (b * s) * (t * ti)) by (nonlinear_arith);
    lemma_cong_mul(a * si, t * ti, a * si, 1, p);
    lemma_cong_mul(b * ti, s * si, b * ti, 1, p);
    lemma_cong_mul(a * t, s * si, a * t, 1, p);
    lemma_cong_mul(b * s, t * ti, b * s, 1, p);
    if cong(a * t, b * s, p) {
        lemma_cong_mul(a * t, si * ti, b * s, si * ti, p);
    }
    if cong(a * si, b * ti, p) {
        lemma_cong_mul(a * si, s * t, b * ti, s * t, p);
    }
}

/// A nonzero residue times its inverse `z^(p - 2)` is one modulo a prime, and so are
/// their squares and cubes.
proof fn lemma_unit_powers(z: nat, p: nat)
    requires
        is_prime(p),
        0 < z < p,
    ensures
        ({
            let zz = z as int;
            let zi = inv_mod(z, p) as int;
            &&& cong(zz * zi, 1, p as int)
            &&& cong((zz * zz) * (zi * zi), 1, p as int)
            &&& cong(((zz * zz) * zz) * ((zi * zi) * zi), 1, p as int)
        }),
{
    let pp = p as int;
    let zz = z as int;
    let zi = inv_mod(z, p) as int;
    lemma_fermat_inverse(z, p);
    lemma_small_mod(1, p);
    lemma_cong_mul(zz * zi, zz * zi, 1, 1, pp);
    lemma_cong_mul((zz * zi) * (zz * zi), zz * zi, 1, 1, pp);
    assert((zz * zz) * (zi * zi) == (zz * zi) * (zz * zi)) by (nonlinear_arith);
    assert(((zz * zz) * zz) * ((zi * zi) * zi) == ((zz * zi) * (zz * zi)) * (zz * zi))
        by (nonlinear_arith);
}

/// Over a prime field, two Jacobian triples (with `Z` in `0..p`) are the same point exactly
/// when their affine forms, which `Point::representation` returns, are equal: `==` on points
/// and equality of representations agree, so equal points hash alike.
pub proof fn law_jac_eq_iff_same_affine(p1: Jac, p2: Jac, p: nat)
    requires
        is_prime(p),
        p1.2 < p,
        p2.2 < p,
    ensures
        jac_eq(p1, p2, p) <==> jac_affine(p1, p) == jac_affine(p2, p),
{
    if p1.2 != 0 && p2.2 != 0 {
        let pp = p as int;
        let (x1, y1, z1) = (p1.0 as int, p1.1 as int, p1.2 as int);
        let (x2, y2, z2) = (p2.0 as int, p2.1 as int, p2.2 as int);
        let i1 = inv_mod(p1.2, p) as int;
        let i2 = inv_mod(p2.2, p) as int;
        lemma_unit_powers(p1.2, p);
        lemma_unit_powers(p2.2, p);
        lemma_cross_cancel(x1, x2, z1 * z1, z2 * z2, i1 * i1, i2 * i2, pp);
        lemma_cross_cancel(y1, y2, (z1 * z1) * z1, (z2 * z2) * z2, (i1 * i1) * i1, (i2 * i2) * i2, pp);
        lemma_cong_mod(x1 * (i1 * i1), pp);
        lemma_cong_mod(x2 * (i2 * i2), pp);
        lemma_cong_mod(y1 * ((i1 * i1) * i1), pp);
        lemma_cong_mod(y2 * ((i2 * i2) * i2), pp);
    }
}

/// Over a prime field, two `(X : Z)` pairs (with `Z` in `0..p`) are the same point exactly
/// when their abscissas, which `MontgomeryPoint::representation` returns, are equal.
pub proof fn law_xz_eq_iff_same_affine(p1: Xz, p2: Xz, p: nat)
    requires
        is_prime(p),
        p1.1 < p,
        p2.1 < p,
    ensures
        xz_eq(p1, p2, p) <==> xz_affine(p1, p) == xz_affine(p2, p),
{
    if p1.1 != 0 && p2.1 != 0 {
        let pp = p as int;
        let (x1, z1) = (p1.0 as int, p1.1 as int);
        let (x2, z2) = (p2.0 as int, p2.1 as int);
        let i1 = inv_mod(p1.1, p) as int;
        let i2 = inv_mod(p2.1, p) as int;
        lemma_unit_powers(p1.1, p);
        lemma_unit_powers(p2.1, p);
        lemma_cross_cancel(x1, x2, z1, z2, i1, i2, pp);
        lemma_cong_mod(x1 * i1, pp);
        lemma_cong_mod(x2 * i2, pp);
    }
}

/// `beta` is not a square modulo `p`: no residue squares to it.
pub open spec fn is_non_square(beta: nat, p: nat) -> bool {
    forall|s: nat| s < p ==> #[trigger] ((s * s) % p) != beta % p
}

/// Commutativity of `fp2_mul`.
proof fn lemma_fp2_mul_comm(a: Fp2, b: Fp2, beta: nat, p: nat)
    ensures
        fp2_mul(a, b, beta, p) == fp2_mul(b, a, beta, p),
{
    lemma_mul_is_commutative(a.0 as int, b.0 as int);
    lemma_mul_is_commutative(a.1 as int, b.1 as int);
    lemma_mul_is_commutative(a.0 as int, b.1 as int);
    lemma_mul_is_commutative(a.1 as int, b.0 as int);
}

/// A reduced pair times `1` is itself.
proof fn lemma_fp2_mul_one(w: Fp2, beta: nat, p: nat)
    requires
        w.0 < p,
        w.1 < p,
    ensures
        fp2_mul(w, (1nat, 0nat), beta, p) == w,
{
    assert(w.0 * 1 + beta * (w.1 * 0) == w.0) by (nonlinear_arith);
    assert(w.0 * 0 + w.1 * 1 == w.1) by (nonlinear_arith);
    lemma_small_mod(w.0, p);
    lemma_small_mod(w.1, p);
}

/// `(a b) (c d) = (a c) (b d)` in the extension.
proof fn lemma_fp2_mul_swap_middle(a: Fp2, b: Fp2, c: Fp2, d: Fp2, beta: nat, p: nat)
    requires
        p > 0,
    ensures
        fp2_mul(fp2_mul(a, b, beta, p), fp2_mul(c, d, beta, p), beta, p) == fp2_mul(
            fp2_mul(a, c, beta, p),
            fp2_mul(b, d, beta, p),
            beta,
            p,
        ),
{
    lemma_fp2_mul_assoc(a, b, fp2_mul(c, d, beta, p), beta, p);
    lemma_fp2_mul_assoc(b, c, d, beta, p);
    lemma_fp2_mul_comm(b, c, beta, p);
    lemma_fp2_mul_assoc(c, b, d, beta, p);
    lemma_fp2_mul_assoc(a, c, fp2_mul(b, d, beta, p), beta, p);
}

/// In an extension by `i` with `i^2 = -1` of a prime field with `p = 3 (mod 4)`, two
/// `(X : Z)` pairs (with `Z` reduced) are the same point exactly when their abscissas,
/// which `ExtensionMontgomeryPoint::representation` returns, are equal.
#[verifier::spinoff_prover]
pub proof fn law_xz2_eq_iff_same_affine(p1: Xz2, p2: Xz2, beta: nat, p: nat)
    requires
        is_prime(p),
        p % 4 == 3,
        beta == (p - 1) as nat,
        p1.1.0 < p,
        p1.1.1 < p,
        p2.1.0 < p,
        p2.1.1 < p,
    ensures
        xz2_eq(p1, p2, beta, p) <==> xz2_affine(p1, beta, p) == xz2_affine(p2, beta, p),
{
    if p1.1 != (0nat, 0nat) && p2.1 != (0nat, 0nat) {
        let (x1, z1) = p1;
        let (x2, z2) = p2;
        let i1 = fp2_inv(z1, beta, p);
        let i2 = fp2_inv(z2, beta, p);
        let one = (1nat, 0nat);
        lemma_fp2_inverse(z1, beta, p);
        lemma_fp2_inverse(z2, beta, p);
        lemma_fp2_mul_comm(z1, i1, beta, p);
        lemma_fp2_mul_comm(z2, i2, beta, p);
        lemma_fp2_mul_comm(i1, i2, beta, p);
        lemma_fp2_mul_comm(z1, z2, beta, p);
        let a = fp2_mul(x1, i1, beta, p);
        let b = fp2_mul(x2, i2, beta, p);
        let c1 = fp2_mul(x1, z2, beta, p);
        let c2 = fp2_mul(x2, z1, beta, p);
        lemma_fp2_mul_one(a, beta, p);
        lemma_fp2_mul_one(b, beta, p);
        lemma_fp2_mul_one(c1, beta, p);
        lemma_fp2_mul_one(c2, beta, p);
        lemma_fp2_mul_swap_middle(x1, i1, z2, i2, beta, p);
        lemma_fp2_mul_swap_middle(x2, i2, z1, i1, beta, p);
        lemma_fp2_mul_swap_middle(x1, z2, i1, z1, beta, p);
        lemma_fp2_mul_swap_middle(x2, z1, i2, z2, beta, p);
    }
}

/// An `(X : Z)` pair of the base field, as a pair over the extension.
pub open spec fn xz_embed(pt: Xz) -> Xz2 {
    ((pt.0, 0nat), (pt.1, 0nat))
}

/// On elements of the base field, the operations of the extension are those of the base
/// field.
proof fn lemma_fp2_ops_on_base(a: nat, b: nat, beta: nat, p: nat)
    requires
        p > 0,
    ensures
        fp2_add((a, 0nat), (b, 0nat), p) == ((a + b) % p, 0nat),
        fp2_sub((a, 0nat), (b, 0nat), p) == (sub_mod(a, b, p), 0nat),
        fp2_mul((a, 0nat), (b, 0nat), beta, p) == ((a * b) % p, 0nat),
{
    lemma_small_mod(0, p);
    assert(beta * (0nat * 0nat) == 0) by (nonlinear_arith);
    assert(a * 0nat + 0nat * b == 0) by (nonlinear_arith);
    assert(a * b + beta * (0nat * 0nat) == a * b);
}

/// Doubling a pair of the base field over the extension is doubling it over the base field.
#[verifier::spinoff_prover]
proof fn lemma_xz2_double_on_base(pt: Xz, a24: nat, beta: nat, p: nat)
    requires
        p > 0,
    ensures
        xz2_double(xz_embed(pt), (a24, 0nat), beta, p) == xz_embed(xz_double(pt, a24, p)),
{
    let pp = p as int;
    let x = pt.0 as int;
    let z = pt.1 as int;
    let big_s = (x + z) * (x + z);
    let big_d = (x - z) * (x - z);
    let e = 4 * x * z;
    let s1 = (pt.0 + pt.1) % p;
    let ss = (s1 * s1) % p;
    let d1 = sub_mod(pt.0, pt.1, p);
    let dd = (d1 * d1) % p;
    let e1 = sub_mod(ss, dd, p);
    let ae = (a24 * e1) % p;
    let t = (dd + ae) % p;
    lemma_fp2_ops_on_base(pt.0, pt.1, beta, p);
    lemma_fp2_ops_on_base(s1, s1, beta, p);
    lemma_fp2_ops_on_base(d1, d1, beta, p);
    lemma_fp2_ops_on_base(ss, dd, beta, p);
    lemma_fp2_ops_on_base(a24, e1, beta, p);
    lemma_fp2_ops_on_base(dd, ae, beta, p);
    lemma_fp2_ops_on_base(e1, t, beta, p);
    lemma_cong_mod(x + z, pp);
    lemma_cong_mod(x - z, pp);
    lemma_mul_step(ss as int, s1 as int, s1 as int, x + z, x + z, pp);
    lemma_mul_step(dd as int, d1 as int, d1 as int, x - z, x - z, pp);
    lemma_mul_step(((ss * dd) % p) as int, ss as int, dd as int, big_s, big_d, pp);
    lemma_cong_to_mod(((ss * dd) % p) as int, big_s * big_d, pp);
    lemma_sub_step(e1 as int, ss as int, dd as int, big_s, big_d, pp);
    assert(big_s - big_d == e) by (nonlinear_arith)
        requires
            big_s == (x + z) * (x + z),
            big_d == (x - z) * (x - z),
            e == 4 * x * z,
    ;
    lemma_cong_mul(a24 as int, e1 as int, a24 as int, e, pp);
    lemma_mul_step(ae as int, a24 as int, e1 as int, a24 as int, e, pp);
    lemma_add_step(t as int, dd as int, ae as int, big_d, a24 * e, pp);
    lemma_mul_step(((e1 * t) % p) as int, e1 as int, t as int, e, big_d + a24 * e, pp);
    lemma_cong_to_mod(((e1 * t) % p) as int, e * (big_d + a24 * e), pp);
}

/// Differential addition of pairs of the base field over the extension is differential
/// addition over the base field.
#[verifier::spinoff_prover]
proof fn lemma_xz2_add_on_base(pt: Xz, other: Xz, diff: Xz, beta: nat, p: nat)
    requires
        p > 0,
    ensures
        xz2_add(xz_embed(pt), xz_embed(other), xz_embed(diff), beta, p) == xz_embed(
            xz_add(pt, other, diff, p),
        ),
{
    let pp = p as int;
    let (x1, z1) = (pt.0 as int, pt.1 as int);
    let (x2, z2) = (other.0 as int, other.1 as int);
    let u = 2 * (x1 * x2 - z1 * z2);
    let w = 2 * (x2 * z1 - x1 * z2);
    let a = (pt.0 + pt.1) % p;
    let b = sub_mod(pt.0, pt.1, p);
    let c = (other.0 + other.1) % p;
    let d = sub_mod(other.0, other.1, p);
    let da = (d * a) % p;
    let cb = (b * c) % p;
    let sum = (da + cb) % p;
    let dif = sub_mod(da, cb, p);
    let zs = (diff.1 * sum) % p;
    let xd = (diff.0 * dif) % p;
    lemma_fp2_ops_on_base(pt.0, pt.1, beta, p);
    lemma_fp2_ops_on_base(other.0, other.1, beta, p);
    lemma_fp2_ops_on_base(d, a, beta, p);
    lemma_fp2_ops_on_base(b, c, beta, p);
    lemma_fp2_ops_on_base(da, cb, beta, p);
    lemma_fp2_ops_on_base(diff.1, sum, beta, p);
    lemma_fp2_ops_on_base(zs, sum, beta, p);
    lemma_fp2_ops_on_base(diff.0, dif, beta, p);
    lemma_fp2_ops_on_base(xd, dif, beta, p);
    lemma_cong_mod(x1 + z1, pp);
    lemma_cong_mod(x1 - z1, pp);
    lemma_cong_mod(x2 + z2, pp);
    lemma_cong_mod(x2 - z2, pp);
    lemma_mul_step(da as int, d as int, a as int, x2 - z2, x1 + z1, pp);
    lemma_mul_step(cb as int, b as int, c as int, x1 - z1, x2 + z2, pp);
    assert((x2 - z2) * (x1 + z1) + (x1 - z1) * (x2 + z2) == u) by (nonlinear_arith)
        requires
            u == 2 * (x1 * x2 - z1 * z2),
    ;
    assert((x2 - z2) * (x1 + z1) - (x1 - z1) * (x2 + z2) == w) by (nonlinear_arith)
        requires
            w == 2 * (x2 * z1 - x1 * z2),
    ;
    lemma_add_step(sum as int, da as int, cb as int, (x2 - z2) * (x1 + z1), (x1 - z1) * (x2 + z2), pp);
    lemma_sub_step(dif as int, da as int, cb as int, (x2 - z2) * (x1 + z1), (x1 - z1) * (x2 + z2), pp);
    lemma_mul_step(zs as int, diff.1 as int, sum as int, diff.1 as int, u, pp);
    lemma_mul_step(((zs * sum) % p) as int, zs as int, sum as int, diff.1 * u, u, pp);
    lemma_cong_to_mod(((zs * sum) % p) as int, diff.1 * u * u, pp);
    lemma_mul_step(xd as int, diff.0 as int, dif as int, diff.0 as int, w, pp);
    lemma_mul_step(((xd * dif) % p) as int, xd as int, dif as int, diff.0 * w, w, pp);
    lemma_cong_to_mod(((xd * dif) % p) as int, diff.0 * w * w, pp);
}

/// The ladder over the extension on a pair of the base field is the ladder over the base
/// field.
proof fn lemma_xz2_ladder_on_base(pt: Xz, q: nat, k: nat, a24: nat, beta: nat, p: nat)
    requires
        p > 0,
    ensures
        ({
            let l = xz_ladder(pt, q, k, a24, p);
            xz2_ladder(xz_embed(pt), q, k, (a24, 0nat), beta, p) == (xz_embed(l.0), xz_embed(l.1))
        }),
    decreases k,
{
    if k > 0 {
        lemma_xz2_ladder_on_base(pt, q / 2, (k - 1) as nat, a24, beta, p);
        let prev = xz_ladder(pt, q / 2, (k - 1) as nat, a24, p);
        lemma_xz2_double_on_base(prev.0, a24, beta, p);
        lemma_xz2_double_on_base(prev.1, a24, beta, p);
        lemma_xz2_add_on_base(prev.0, prev.1, pt, beta, p);
        lemma_xz2_add_on_base(prev.1, prev.0, pt, beta, p);
    }
}

/// On a point whose coordinates lie in the base field, the Montgomery ladder over the
/// extension computes exactly the ladder over the base field: multiplication by `n`
/// commutes with the inclusion of the base field in the extension.
pub proof fn law_xz2_mult_on_base(pt: Xz, n: nat, k: nat, a24: nat, beta: nat, p: nat)
    requires
        p > 0,
    ensures
        xz2_mult(xz_embed(pt), n, k, (a24, 0nat), beta, p) == xz_embed(xz_mult(pt, n, k, a24, p)),
{
    lemma_xz2_ladder_on_base(pt, n, k, a24, beta, p);
}

/// Over a prime field, the inverse of the extension on a nonzero element of the base field
/// is its inverse in the base field.
#[verifier::spinoff_prover]
proof fn lemma_fp2_inv_on_base(z: nat, beta: nat, p: nat)
    requires
        is_prime(p),
        0 < z < p,
    ensures
        fp2_inv((z, 0nat), beta, p) == (inv_mod(z, p), 0nat),
{
    let pp = p as int;
    let zi = z as int;
    let i = inv_mod(z, p) as int;
    let n = ((zi * zi) % pp) as nat;
    assert(zi * zi - beta * (0nat * 0nat) == zi * zi) by (nonlinear_arith);
    lemma_mod_bound(zi * zi, pp);
    lemma_small_mod(0, p);
    assert(0int * pow_mod(n, (p - 2) as nat, p) == 0);
    lemma_small_mod(1, p);
    lemma_fermat_inverse(z, p);
    if n == 0 {
        lemma_euclid(zi, zi, p);
        lemma_small_mod(z, p);
    }
    lemma_fermat_inverse(n, p);
    let ninv = pow_mod(n, (p - 2) as nat, p) as int;
    // n (i i) is congruent to (z i)^2, so to one
    lemma_cong_mod(zi * zi, pp);
    lemma_cong_mul(n as int, i * i, zi * zi, i * i, pp);
    assert((zi * zi) * (i * i) == (zi * i) * (zi * i)) by (nonlinear_arith);
    lemma_cong_mul(zi * i, zi * i, 1, 1, pp);
    // so the inverse of n is i i
    lemma_cong_mul(ninv, (n as int) * (i * i), ninv, 1, pp);
    assert(ninv * ((n as int) * (i * i)) == ((n as int) * ninv) * (i * i)) by (nonlinear_arith);
    lemma_cong_mul((n as int) * ninv, i * i, 1, i * i, pp);
    // and z times it is i
    lemma_cong_mul(zi, ninv, zi, i * i, pp);
    assert(zi * (i * i) == (zi * i) * i) by (nonlinear_arith);
    lemma_cong_mul(zi * i, i, 1, i, pp);
    lemma_mod_bound(pow(zi, (p - 2) as nat), pp);
    lemma_cong_to_mod(i, zi * ninv, pp);
}

/// Over a prime field, the abscissa over the extension of a point of the base field is
/// its abscissa over the base field: `representation` commutes with the inclusion of the
/// base field in the extension.
pub proof fn law_xz2_affine_on_base(pt: Xz, beta: nat, p: nat)
    requires
        is_prime(p),
        pt.1 < p,
    ensures
        xz2_affine(xz_embed(pt), beta, p) == (match xz_affine(pt, p) {
            Some(x) => Some((x, 0nat)),
            None => None::<Fp2>,
        }),
{
    if pt.1 != 0 {
        lemma_fp2_inv_on_base(pt.1, beta, p);
        lemma_fp2_ops_on_base(pt.0, inv_mod(pt.1, p), beta, p);
    }
}

/// Over a prime field of odd characteristic, `(a + 2) / 4` over the extension of an
/// element `a` of the base field is `(a + 2) / 4` over the base field.
pub proof fn law_ext_a24_on_base(a: nat, beta: nat, p: nat)
    requires
        is_prime(p),
        p > 2,
    ensures
        ext_a24_of((a, 0nat), beta, p) == (montgomery_a24_of(a, p), 0nat),
{
    let pp = p as int;
    lemma_four_nonzero(p);
    lemma_mod_bound(4, pp);
    assert(4nat % p == (4int % pp) as nat);
    lemma_fp2_inv_on_base(4nat % p, beta, p);
    let inv4 = inv_mod(4nat % p, p);
    lemma_fp2_ops_on_base(a, 2nat % p, beta, p);
    let s = (a + 2nat % p) % p;
    lemma_fp2_ops_on_base(s, inv4, beta, p);
    lemma_cong_mod(2, pp);
    lemma_add_step(s as int, a as int, (2nat % p) as int, a as int, 2, pp);
    lemma_mul_step(((s * inv4) % p) as int, s as int, inv4 as int, (a + 2) as int, inv4 as int, pp);
    lemma_cong_to_mod(((s * inv4) % p) as int, ((a + 2) * inv4) as int, pp);
}

/// Over a prime field with `p = 3 (mod 4)`, `lift` finds a point above `x` exactly when
/// `x^3 + a x + b` is a square, and the point it finds, `(x : y : 1)`, lies on the curve
/// `y^2 = x^3 + a x + b`.
pub proof fn law_weierstrass_lift<F: Sqrt3Mod4>(x: FieldElement<F>, a: nat, b: nat)
    requires
        x.well_formed(),
        is_prime(modulus::<F>()),
        modulus::<F>() % 4 == 3,
    ensures
        ({
            let p = modulus::<F>();
            let rhs = (x@ * x@ * x@ + a * x@ + b) % p;
            let r = weierstrass_lift(x@, a, b, sqrt_exponent::<F>(), p);
            &&& (r is Some <==> exists|y: nat| #[trigger] ((y * y) % p) == rhs)
            &&& (r matches Some(pt) ==> pt.0 == x@ && pt.2 == 1 && (pt.1 * pt.1) % p == rhs)
        }),
{
    lemma_well_formed(x);
    lemma_sqrt_exponent_exact::<F>();
    let p = modulus::<F>();
    let rhs = (x@ * x@ * x@ + a * x@ + b) % p;
    let y = pow_mod(rhs, sqrt_exponent::<F>(), p);
    assert((y * y) % p == (y * y) % p);
    if exists|c: nat| #[trigger] ((c * c) % p) == rhs {
        let c = choose|c: nat| #[trigger] ((c * c) % p) == rhs;
        lemma_root_of_square(c, p);
    }
}

/// Over a prime field with `p = 3 (mod 4)`, `is_on_curve` accepts `x` exactly when
/// `x (x^2 + a x + 1) / b` is a square, that is when some `y` has `b y^2 = x^3 + a x^2 + x`
/// (for `b` nonzero).
pub proof fn law_montgomery_on_curve<F: Sqrt3Mod4>(x: FieldElement<F>, a: nat, b: nat)
    requires
        x.well_formed(),
        is_prime(modulus::<F>()),
        modulus::<F>() % 4 == 3,
    ensures
        ({
            let p = modulus::<F>();
            let y2 = ((x@ * (x@ * x@ + a * x@ + 1)) * inv_mod(b, p)) % p;
            montgomery_on_curve(x@, a, b, sqrt_exponent::<F>(), p) <==> exists|y: nat|
                #[trigger] ((y * y) % p) == y2
        }),
{
    lemma_well_formed(x);
    lemma_sqrt_exponent_exact::<F>();
    let p = modulus::<F>();
    let y2 = ((x@ * (x@ * x@ + a * x@ + 1)) * inv_mod(b, p)) % p;
    let y = pow_mod(y2, sqrt_exponent::<F>(), p);
    assert((y * y) % p == (y * y) % p);
    if exists|c: nat| #[trigger] ((c * c) % p) == y2 {
        let c = choose|c: nat| #[trigger] ((c * c) % p) == y2;
        lemma_root_of_square(c, p);
    }
}

/// The square root of the extension returns reduced coordinates.
proof fn lemma_fp2_sqrt_reduced(x: Fp2, e: nat, p: nat)
    requires
        p > 0,
    ensures
        fp2_sqrt(x, e, p).0 < p,
        fp2_sqrt(x, e, p).1 < p,
{
    assert forall|v: nat, k: nat| #[trigger] pow_mod(v, k, p) < p by {
        lemma_mod_bound(pow(v as int, k), p as int);
    }
}

/// Over the extension by `i` with `i^2 = -1` of a prime field with `p = 3 (mod 4)`,
/// `is_on_curve` accepts `x` exactly when `x (x^2 + a x + 1) / b` is a square.
pub proof fn law_ext_montgomery_on_curve<E: NonResidueMinusOne>(x: ExtensionFieldElement<E>, a: Fp2, b: Fp2)
    where
        E::Base: Sqrt3Mod4,
    requires
        x.well_formed(),
        is_prime(modulus::<E::Base>()),
        modulus::<E::Base>() % 4 == 3,
    ensures
        ({
            let p = modulus::<E::Base>();
            let beta = E::spec_non_residue();
            let inner = fp2_add(fp2_add(fp2_mul(x@, x@, beta, p), fp2_mul(a, x@, beta, p), p), (1nat, 0nat), p);
            let y2 = fp2_mul(fp2_mul(x@, inner, beta, p), fp2_inv(b, beta, p), beta, p);
            ext_montgomery_on_curve(x@, a, b, beta, sqrt_exponent::<E::Base>(), p) <==> exists|y: Fp2|
                y.0 < p && y.1 < p && #[trigger] fp2_mul(y, y, beta, p) == y2
        }),
{
    lemma_well_formed_ext(x);
    E::lemma_non_residue_is_minus_one();
    lemma_sqrt_exponent_exact::<E::Base>();
    let p = modulus::<E::Base>();
    let beta = E::spec_non_residue();
    let inner = fp2_add(fp2_add(fp2_mul(x@, x@, beta, p), fp2_mul(a, x@, beta, p), p), (1nat, 0nat), p);
    let y2 = fp2_mul(fp2_mul(x@, inner, beta, p), fp2_inv(b, beta, p), beta, p);
    let r = fp2_sqrt(y2, sqrt_exponent::<E::Base>(), p);
    lemma_fp2_sqrt_reduced(y2, sqrt_exponent::<E::Base>(), p);
    assert(fp2_mul(r, r, beta, p) == fp2_mul(r, r, beta, p));
    if exists|y: Fp2| y.0 < p && y.1 < p && #[trigger] fp2_mul(y, y, beta, p) == y2 {
        let y = choose|y: Fp2| y.0 < p && y.1 < p && #[trigger] fp2_mul(y, y, beta, p) == y2;
        lemma_fp2_sqrt_of_square_core(y.0, y.1, p);
    }
}

/// Four is a unit modulo a prime other than two.
proof fn lemma_four_nonzero(p: nat)
    requires
        is_prime(p),
        p > 2,
    ensures
        4int % (p as int) != 0,
        (0int - 4) % (p as int) != 0,
{
    let pp = p as int;
    if p <= 4 {
        assert(p == 3 || p == 4);
        assert(4nat % 2 == 0);
        assert(p == 3);
        assert(4int % 3 == 1);
        assert((0int - 4) % 3 == 2);
    } else {
        lemma_small_mod(4, p);
        assert(0int - 4 == pp * (-1) + (pp - 4));
        lemma_mod_multiples_vanish(-1, pp - 4, pp);
        lemma_small_mod((pp - 4) as nat, p);
    }
}

/// Over a prime field of odd characteristic, a curve `y^2 = x^3 + a x` with `a` nonzero
/// has `j`-invariant `1728`.
pub proof fn law_weierstrass_j_of_b_zero(a: nat, p: nat)
    requires
        is_prime(p),
        p > 2,
        a % p != 0,
    ensures
        weierstrass_j(a, 0, p) == 1728nat % p,
{
    let pp = p as int;
    let ai = a as int;
    let f = 4 * a * a * a;
    let d = (f + 27 * 0nat * 0nat) % p;
    assert(f + 27 * 0nat * 0nat == f);
    lemma_four_nonzero(p);
    if d == 0 {
        assert(f == 4 * (ai * (ai * ai))) by (nonlinear_arith)
            requires
                f == 4 * a * a * a,
                ai == a,
        ;
        lemma_euclid(4, ai * (ai * ai), p);
        lemma_euclid(ai, ai * ai, p);
        lemma_euclid(ai, ai, p);
    }
    lemma_mod_bound(f as int, pp);
    lemma_fermat_inverse(d, p);
    let inv = inv_mod(d, p) as int;
    lemma_small_mod(1, p);
    lemma_cong_mod(f as int, pp);
    lemma_cong_mul(1728, f as int, 1728, d as int, pp);
    lemma_cong_mul(1728 * (f as int), inv, 1728 * (d as int), inv, pp);
    assert(1728 * (d as int) * inv == 1728 * ((d as int) * inv)) by (nonlinear_arith);
    lemma_cong_mul(1728, (d as int) * inv, 1728, 1, pp);
    lemma_cong_mod(1728, pp);
    lemma_cong_to_mod((1728nat % p) as int, 1728 * (f as int) * inv, pp);
}

/// Over a prime field of odd characteristic, the Montgomery curve with `a = 0` has
/// `j`-invariant `1728`.
pub proof fn law_montgomery_j_of_a_zero(p: nat)
    requires
        is_prime(p),
        p > 2,
    ensures
        montgomery_j(0, p) == 1728nat % p,
{
    let pp = p as int;
    let t = 0nat * 0nat - 3;
    let d = residue(0nat * 0nat - 4, p);
    assert(t == -3);
    assert(0nat * 0nat - 4 == -4);
    lemma_four_nonzero(p);
    lemma_mod_bound(-4, pp);
    lemma_fermat_inverse(d, p);
    let inv = inv_mod(d, p) as int;
    lemma_cong_mod(-4, pp);
    assert(256 * t * t * t * inv == 1728 * (-4 * inv)) by (nonlinear_arith)
        requires
            t == -3,
    ;
    lemma_small_mod(1, p);
    lemma_cong_mul(-4, inv, d as int, inv, pp);
    lemma_cong_mul(1728, -4 * inv, 1728, 1, pp);
    lemma_cong_mod(1728, pp);
    lemma_cong_to_mod((1728nat % p) as int, 256 * t * t * t * inv, pp);
}

/// Over a prime field of odd characteristic, the inverse of the extension of an element
/// of the base field is its inverse in the base field, zero included.
proof fn lemma_fp2_inv_on_base_any(z: nat, beta: nat, p: nat)
    requires
        is_prime(p),
        p > 2,
        z < p,
    ensures
        fp2_inv((z, 0nat), beta, p) == (inv_mod(z, p), 0nat),
{
    if z == 0 {
        let n = ((0int * 0int - beta * (0nat * 0nat)) % (p as int)) as nat;
        assert(0int * 0int - beta * (0nat * 0nat) == 0) by (nonlinear_arith);
        lemma_small_mod(0, p);
        lemma0_pow((p - 2) as nat);
        assert(0nat * pow_mod(n, (p - 2) as nat, p) == 0);
        assert(sub_mod(0, 0, p) == 0);
    } else {
        lemma_fp2_inv_on_base(z, beta, p);
    }
}

/// Over a prime field of odd characteristic, the `j`-invariant over the extension of a
/// Montgomery curve whose `a` lies in the base field is its `j`-invariant over the base field.
#[verifier::spinoff_prover]
pub proof fn law_ext_montgomery_j_on_base(a: nat, beta: nat, p: nat)
    requires
        is_prime(p),
        p > 2,
    ensures
        ext_montgomery_j((a, 0nat), beta, p) == (montgomery_j(a, p), 0nat),
{
    let pp = p as int;
    let ai = a as int;
    let a2 = (a * a) % p;
    let t0 = sub_mod(a2, 3nat % p, p);
    let d0 = sub_mod(a2, 4nat % p, p);
    let c256 = 256nat % p;
    let n1 = (c256 * t0) % p;
    let n2 = (n1 * t0) % p;
    let n3 = (n2 * t0) % p;
    lemma_fp2_ops_on_base(a, a, beta, p);
    lemma_fp2_ops_on_base(a2, 3nat % p, beta, p);
    lemma_fp2_ops_on_base(a2, 4nat % p, beta, p);
    lemma_fp2_ops_on_base(c256, t0, beta, p);
    lemma_fp2_ops_on_base(n1, t0, beta, p);
    lemma_fp2_ops_on_base(n2, t0, beta, p);
    // the denominator is a * a - 4 reduced
    lemma_cong_mod(ai * ai, pp);
    lemma_cong_mod(3, pp);
    lemma_cong_mod(4, pp);
    lemma_cong_mod(256, pp);
    lemma_sub_step(t0 as int, a2 as int, (3nat % p) as int, ai * ai, 3, pp);
    lemma_sub_step(d0 as int, a2 as int, (4nat % p) as int, ai * ai, 4, pp);
    lemma_cong_to_mod(d0 as int, ai * ai - 4, pp);
    assert(d0 == residue(a * a - 4, p));
    lemma_fp2_inv_on_base_any(d0, beta, p);
    let inv = inv_mod(d0, p);
    lemma_fp2_ops_on_base(n3, inv, beta, p);
    // the numerator is 256 t^3
    let t = ai * ai - 3;
    lemma_mul_step(n1 as int, c256 as int, t0 as int, 256, t, pp);
    lemma_mul_step(n2 as int, n1 as int, t0 as int, 256 * t, t, pp);
    lemma_mul_step(n3 as int, n2 as int, t0 as int, 256 * t * t, t, pp);
    lemma_mul_step(((n3 * inv) % p) as int, n3 as int, inv as int, 256 * t * t * t, inv as int, pp);
    lemma_cong_to_mod(((n3 * inv) % p) as int, 256 * t * t * t * inv, pp);
}

/// `a (b + c) = a b + a c` in the extension.
proof fn lemma_fp2_mul_add(a: Fp2, b: Fp2, c: Fp2, beta: nat, p: nat)
    requires
        p > 0,
    ensures
        fp2_mul(a, fp2_add(b, c, p), beta, p) == fp2_add(
            fp2_mul(a, b, beta, p),
            fp2_mul(a, c, beta, p),
            p,
        ),
{
    let pp = p as int;
    let (a0, a1, b0, b1, c0, c1) = (a.0 as int, a.1 as int, b.0 as int, b.1 as int, c.0 as int, c.1 as int);
    let bt = beta as int;
    let s = fp2_add(b, c, p);
    let ab = fp2_mul(a, b, beta, p);
    let ac = fp2_mul(a, c, beta, p);
    lemma_cong_mod(b0 + c0, pp);
    lemma_cong_mod(b1 + c1, pp);
    // first coordinate
    lemma_cong_mul(a0, s.0 as int, a0, b0 + c0, pp);
    lemma_cong_mul(a1, s.1 as int, a1, b1 + c1, pp);
    lemma_cong_mul(bt, a1 * (s.1 as int), bt, a1 * (b1 + c1), pp);
    lemma_cong_add(a0 * (s.0 as int), bt * (a1 * (s.1 as int)), a0 * (b0 + c0), bt * (a1 * (b1 + c1)), pp);
    lemma_cong_mod(a0 * b0 + bt * (a1 * b1), pp);
    lemma_cong_mod(a0 * c0 + bt * (a1 * c1), pp);
    lemma_add_step(
        ((ab.0 + ac.0) % p) as int,
        ab.0 as int,
        ac.0 as int,
        a0 * b0 + bt * (a1 * b1),
        a0 * c0 + bt * (a1 * c1),
        pp,
    );
    assert(a0 * (b0 + c0) + bt * (a1 * (b1 + c1)) == (a0 * b0 + bt * (a1 * b1)) + (a0 * c0 + bt * (a1
        * c1))) by (nonlinear_arith);
    lemma_cong_to_mod(((ab.0 + ac.0) % p) as int, a0 * (s.0 as int) + bt * (a1 * (s.1 as int)), pp);
    // second coordinate
    lemma_cong_mul(a0, s.1 as int, a0, b1 + c1, pp);
    lemma_cong_mul(a1, s.0 as int, a1, b0 + c0, pp);
    lemma_cong_add(a0 * (s.1 as int), a1 * (s.0 as int), a0 * (b1 + c1), a1 * (b0 + c0), pp);
    lemma_cong_mod(a0 * b1 + a1 * b0, pp);
    lemma_cong_mod(a0 * c1 + a1 * c0, pp);
    lemma_add_step(
        ((ab.1 + ac.1) % p) as int,
        ab.1 as int,
        ac.1 as int,
        a0 * b1 + a1 * b0,
        a0 * c1 + a1 * c0,
        pp,
    );
    assert(a0 * (b1 + c1) + a1 * (b0 + c0) == (a0 * b1 + a1 * b0) + (a0 * c1 + a1 * c0)) by (nonlinear_arith);
    lemma_cong_to_mod(((ab.1 + ac.1) % p) as int, a0 * (s.1 as int) + a1 * (s.0 as int), pp);
}

/// `a (b - c) = a b - a c` in the extension.
proof fn lemma_fp2_mul_sub(a: Fp2, b: Fp2, c: Fp2, beta: nat, p: nat)
    requires
        p > 0,
    ensures
        fp2_mul(a, fp2_sub(b, c, p), beta, p) == fp2_sub(
            fp2_mul(a, b, beta, p),
            fp2_mul(a, c, beta, p),
            p,
        ),
{
    let pp = p as int;
    let (a0, a1, b0, b1, c0, c1) = (a.0 as int, a.1 as int, b.0 as int, b.1 as int, c.0 as int, c.1 as int);
    let bt = beta as int;
    let s = fp2_sub(b, c, p);
    let ab = fp2_mul(a, b, beta, p);
    let ac = fp2_mul(a, c, beta, p);
    lemma_cong_mod(b0 - c0, pp);
    lemma_cong_mod(b1 - c1, pp);
    // first coordinate
    lemma_cong_mul(a0, s.0 as int, a0, b0 - c0, pp);
    lemma_cong_mul(a1, s.1 as int, a1, b1 - c1, pp);
    lemma_cong_mul(bt, a1 * (s.1 as int), bt, a1 * (b1 - c1), pp);
    lemma_cong_add(a0 * (s.0 as int), bt * (a1 * (s.1 as int)), a0 * (b0 - c0), bt * (a1 * (b1 - c1)), pp);
    lemma_cong_mod(a0 * b0 + bt * (a1 * b1), pp);
    lemma_cong_mod(a0 * c0 + bt * (a1 * c1), pp);
    lemma_sub_step(
        sub_mod(ab.0, ac.0, p) as int,
        ab.0 as int,
        ac.0 as int,
        a0 * b0 + bt * (a1 * b1),
        a0 * c0 + bt * (a1 * c1),
        pp,
    );
    assert(a0 * (b0 - c0) + bt * (a1 * (b1 - c1)) == (a0 * b0 + bt * (a1 * b1)) - (a0 * c0 + bt * (a1
        * c1))) by (nonlinear_arith);
    lemma_cong_to_mod(sub_mod(ab.0, ac.0, p) as int, a0 * (s.0 as int) + bt * (a1 * (s.1 as int)), pp);
    // second coordinate
    lemma_cong_mul(a0, s.1 as int, a0, b1 - c1, pp);
    lemma_cong_mul(a1, s.0 as int, a1, b0 - c0, pp);
    lemma_cong_add(a0 * (s.1 as int), a1 * (s.0 as int), a0 * (b1 - c1), a1 * (b0 - c0), pp);
    lemma_cong_mod(a0 * b1 + a1 * b0, pp);
    lemma_cong_mod(a0 * c1 + a1 * c0, pp);
    lemma_sub_step(
        sub_mod(ab.1, ac.1, p) as int,
        ab.1 as int,
        ac.1 as int,
        a0 * b1 + a1 * b0,
        a0 * c1 + a1 * c0,
        pp,
    );
    assert(a0 * (b1 - c1) + a1 * (b0 - c0) == (a0 * b1 + a1 * b0) - (a0 * c1 + a1 * c0)) by (nonlinear_arith);
    lemma_cong_to_mod(sub_mod(ab.1, ac.1, p) as int, a0 * (s.1 as int) + a1 * (s.0 as int), pp);
}

/// Zero times anything is zero in the extension.
proof fn lemma_fp2_zero_mul(u: Fp2, beta: nat, p: nat)
    requires
        p > 0,
    ensures
        fp2_mul((0nat, 0nat), u, beta, p) == (0nat, 0nat),
{
    assert(0nat * u.0 + beta * (0nat * u.1) == 0) by (nonlinear_arith);
    assert(0nat * u.1 + 0nat * u.0 == 0) by (nonlinear_arith);
    lemma_small_mod(0, p);
}

/// The extension by `i` with `i^2 = -1` of a prime field with `p = 3 (mod 4)` has no zero
/// divisors: a product of nonzero reduced elements is nonzero.
proof fn lemma_fp2_mul_nonzero(u: Fp2, v: Fp2, beta: nat, p: nat)
    requires
        is_prime(p),
        p % 4 == 3,
        beta == (p - 1) as nat,
        u.0 < p,
        u.1 < p,
        v.0 < p,
        v.1 < p,
        u != (0nat, 0nat),
        v != (0nat, 0nat),
    ensures
        fp2_mul(u, v, beta, p) != (0nat, 0nat),
{
    let i = fp2_inv(u, beta, p);
    let one = (1nat, 0nat);
    lemma_fp2_inverse(u, beta, p);
    lemma_fp2_mul_one(v, beta, p);
    lemma_fp2_mul_assoc(v, u, i, beta, p);
    lemma_fp2_mul_comm(v, u, beta, p);
    lemma_fp2_zero_mul(i, beta, p);
}

/// Doubling `l P` gives `l^4` times the double of `P` over the extension.
#[verifier::spinoff_prover]
proof fn lemma_xz2_double_scaled(pt: Xz2, l: Fp2, a24: Fp2, beta: nat, p: nat)
    requires
        p > 0,
    ensures
        ({
            let l2 = fp2_mul(l, l, beta, p);
            let l4 = fp2_mul(l2, l2, beta, p);
            let q = (fp2_mul(l, pt.0, beta, p), fp2_mul(l, pt.1, beta, p));
            let dbl = xz2_double(pt, a24, beta, p);
            xz2_double(q, a24, beta, p) == (fp2_mul(l4, dbl.0, beta, p), fp2_mul(l4, dbl.1, beta, p))
        }),
{
    let m = |a: Fp2, b: Fp2| fp2_mul(a, b, beta, p);
    let (x, z) = pt;
    let l2 = m(l, l);
    let l4 = m(l2, l2);
    let s = fp2_add(x, z, p);
    let d = fp2_sub(x, z, p);
    let ss = m(s, s);
    let dd = m(d, d);
    let e = fp2_sub(ss, dd, p);
    let ae = m(a24, e);
    let w = fp2_add(dd, ae, p);
    lemma_fp2_mul_add(l, x, z, beta, p);
    lemma_fp2_mul_sub(l, x, z, beta, p);
    lemma_fp2_mul_swap_middle(l, s, l, s, beta, p);
    lemma_fp2_mul_swap_middle(l, d, l, d, beta, p);
    lemma_fp2_mul_swap_middle(l2, ss, l2, dd, beta, p);
    lemma_fp2_mul_sub(l2, ss, dd, beta, p);
    lemma_fp2_mul_assoc(a24, l2, e, beta, p);
    lemma_fp2_mul_comm(a24, l2, beta, p);
    lemma_fp2_mul_assoc(l2, a24, e, beta, p);
    lemma_fp2_mul_add(l2, dd, ae, beta, p);
    lemma_fp2_mul_swap_middle(l2, e, l2, w, beta, p);
}

/// `((a b) b) a = (b a) (b a)` in the extension.
proof fn lemma_fp2_mul_rearrange_square(a: Fp2, b: Fp2, beta: nat, p: nat)
    requires
        p > 0,
    ensures
        fp2_mul(fp2_mul(fp2_mul(a, b, beta, p), b, beta, p), a, beta, p) == fp2_mul(
            fp2_mul(b, a, beta, p),
            fp2_mul(b, a, beta, p),
            beta,
            p,
        ),
{
    lemma_fp2_mul_assoc(fp2_mul(a, b, beta, p), b, a, beta, p);
    lemma_fp2_mul_comm(a, b, beta, p);
}

/// Multiplying by a pair congruent to `c k` gives `c` times the product with `k`.
proof fn lemma_fp2_mul_by_multiple(a: Fp2, b: Fp2, k: Fp2, c: int, beta: nat, p: nat)
    requires
        p > 0,
        cong(b.0 as int, c * k.0, p as int),
        cong(b.1 as int, c * k.1, p as int),
    ensures
        cong(fp2_mul(a, b, beta, p).0 as int, c * fp2_mul(a, k, beta, p).0, p as int),
        cong(fp2_mul(a, b, beta, p).1 as int, c * fp2_mul(a, k, beta, p).1, p as int),
{
    let pp = p as int;
    let (a0, a1, b0, b1, k0, k1) = (a.0 as int, a.1 as int, b.0 as int, b.1 as int, k.0 as int, k.1 as int);
    let bt = beta as int;
    lemma_cong_mul(a0, b0, a0, c * k0, pp);
    lemma_cong_mul(a1, b1, a1, c * k1, pp);
    lemma_cong_mul(bt, a1 * b1, bt, a1 * (c * k1), pp);
    lemma_cong_add(a0 * b0, bt * (a1 * b1), a0 * (c * k0), bt * (a1 * (c * k1)), pp);
    lemma_cong_mod(a0 * b0 + bt * (a1 * b1), pp);
    assert(a0 * (c * k0) == c * (a0 * k0)) by (nonlinear_arith);
    assert(a1 * (c * k1) == c * (a1 * k1)) by (nonlinear_arith);
    assert(bt * (c * (a1 * k1)) == c * (bt * (a1 * k1))) by (nonlinear_arith);
    lemma_mul_is_distributive_add(c, a0 * k0, bt * (a1 * k1));
    lemma_cong_mod(a0 * k0 + bt * (a1 * k1), pp);
    lemma_cong_mul(c, (a0 * k0 + bt * (a1 * k1)) % pp, c, a0 * k0 + bt * (a1 * k1), pp);
    lemma_cong_mul(a0, b1, a0, c * k1, pp);
    lemma_cong_mul(a1, b0, a1, c * k0, pp);
    lemma_cong_add(a0 * b1, a1 * b0, a0 * (c * k1), a1 * (c * k0), pp);
    lemma_cong_mod(a0 * b1 + a1 * b0, pp);
    assert(a0 * (c * k1) == c * (a0 * k1)) by (nonlinear_arith);
    assert(a1 * (c * k0) == c * (a1 * k0)) by (nonlinear_arith);
    lemma_mul_is_distributive_add(c, a0 * k1, a1 * k0);
    lemma_cong_mod(a0 * k1 + a1 * k0, pp);
    lemma_cong_mul(c, (a0 * k1 + a1 * k0) % pp, c, a0 * k1 + a1 * k0, pp);
}

/// With `sum = 2 X_Q` and `dif = 2 Z_Q` or `-2 Z_Q`, the pair `(Z_P sum^2 : X_P dif^2)`
/// stands for the same point as `P` when `Q` does and `P` has nonzero coordinates.
#[verifier::spinoff_prover]
proof fn lemma_xz2_add_core(q: Xz2, pt: Xz2, sum: Fp2, dif: Fp2, sign: int, beta: nat, p: nat)
    requires
        is_prime(p),
        p % 4 == 3,
        beta == (p - 1) as nat,
        q.1.0 < p,
        q.1.1 < p,
        pt.0.0 < p,
        pt.0.1 < p,
        dif.0 < p,
        dif.1 < p,
        pt.0 != (0nat, 0nat),
        pt.1 != (0nat, 0nat),
        xz2_eq(q, pt, beta, p),
        sign == 1 || sign == -1,
        cong(sum.0 as int, 2 * (q.0.0 as int), p as int),
        cong(sum.1 as int, 2 * (q.0.1 as int), p as int),
        cong(dif.0 as int, (2 * sign) * q.1.0, p as int),
        cong(dif.1 as int, (2 * sign) * q.1.1, p as int),
    ensures
        xz2_eq(
            (
                fp2_mul(fp2_mul(pt.1, sum, beta, p), sum, beta, p),
                fp2_mul(fp2_mul(pt.0, dif, beta, p), dif, beta, p),
            ),
            pt,
            beta,
            p,
        ),
{
    let pp = p as int;
    let (qx, qz) = q;
    let (x, z) = pt;
    let m = |a: Fp2, b: Fp2| fp2_mul(a, b, beta, p);
    let out0 = m(m(z, sum), sum);
    let out1 = m(m(x, dif), dif);
    lemma_small_mod(0, p);
    lemma_small_mod(2, p);
    // the difference is nonzero, so is the second coordinate
    if dif == (0nat, 0nat) {
        lemma_cong_mul(sign, (2 * sign) * qz.0, sign, 0, pp);
        lemma_cong_mul(sign, (2 * sign) * qz.1, sign, 0, pp);
        assert(sign * ((2 * sign) * qz.0) == 2 * qz.0) by (nonlinear_arith)
            requires
                sign == 1 || sign == -1,
        ;
        assert(sign * ((2 * sign) * qz.1) == 2 * qz.1) by (nonlinear_arith)
            requires
                sign == 1 || sign == -1,
        ;
        lemma_euclid(2, qz.0 as int, p);
        lemma_euclid(2, qz.1 as int, p);
        lemma_small_mod(qz.0, p);
        lemma_small_mod(qz.1, p);
        assert(false);
    }
    lemma_fp2_mul_nonzero(x, dif, beta, p);
    lemma_fp2_mul_nonzero(m(x, dif), dif, beta, p);
    // the two squares agree
    let k = m(x, qz);
    lemma_fp2_mul_comm(z, qx, beta, p);
    lemma_fp2_mul_by_multiple(z, sum, qx, 2, beta, p);
    lemma_fp2_mul_by_multiple(x, dif, qz, 2 * sign, beta, p);
    let w = m(z, sum);
    let v = m(x, dif);
    if sign == -1 {
        crate::modular::lemma_cong_sub(0, v.0 as int, 0, (2 * sign) * k.0, pp);
        crate::modular::lemma_cong_sub(0, v.1 as int, 0, (2 * sign) * k.1, pp);
    }
    lemma_fp2_square_of_opposite(w, v, beta, p);
    lemma_fp2_mul_rearrange_square(z, sum, beta, p);
    lemma_fp2_mul_comm(sum, z, beta, p);
    lemma_fp2_mul_rearrange_square(x, dif, beta, p);
    lemma_fp2_mul_comm(dif, x, beta, p);
    lemma_fp2_mul_comm(x, out1, beta, p);
}

/// Over the extension, differential addition of the point at infinity and `Q`, with
/// difference `P`, in either order, stands for `P` when `Q` does and `P` has nonzero
/// coordinates.
#[verifier::spinoff_prover]
proof fn lemma_xz2_add_infinity_eq(q: Xz2, pt: Xz2, beta: nat, p: nat)
    requires
        is_prime(p),
        p % 4 == 3,
        beta == (p - 1) as nat,
        q.0.0 < p,
        q.0.1 < p,
        q.1.0 < p,
        q.1.1 < p,
        pt.0.0 < p,
        pt.0.1 < p,
        pt.0 != (0nat, 0nat),
        pt.1 != (0nat, 0nat),
        xz2_eq(q, pt, beta, p),
    ensures
        xz2_eq(xz2_add(xz2_infinity(), q, pt, beta, p), pt, beta, p),
        xz2_eq(xz2_add(q, xz2_infinity(), pt, beta, p), pt, beta, p),
{
    let pp = p as int;
    let (qx, qz) = q;
    let one = (1nat, 0nat);
    let zero = (0nat, 0nat);
    lemma_small_mod(1, p);
    lemma_small_mod(0, p);
    assert(fp2_add(one, zero, p) == one);
    assert(fp2_sub(one, zero, p) == one);
    let c = fp2_add(qx, qz, p);
    let d = fp2_sub(qx, qz, p);
    lemma_fp2_mul_one(c, beta, p);
    lemma_fp2_mul_one(d, beta, p);
    lemma_fp2_mul_comm(one, c, beta, p);
    lemma_fp2_mul_comm(one, d, beta, p);
    let (x0, x1, z0, z1) = (qx.0 as int, qx.1 as int, qz.0 as int, qz.1 as int);
    lemma_cong_mod(x0 + z0, pp);
    lemma_cong_mod(x1 + z1, pp);
    lemma_cong_mod(x0 - z0, pp);
    lemma_cong_mod(x1 - z1, pp);
    // infinity first: sum = d + c = 2 X_Q, dif = d - c = -2 Z_Q
    let sum_l = fp2_add(d, c, p);
    let dif_l = fp2_sub(d, c, p);
    lemma_add_step(sum_l.0 as int, d.0 as int, c.0 as int, x0 - z0, x0 + z0, pp);
    lemma_add_step(sum_l.1 as int, d.1 as int, c.1 as int, x1 - z1, x1 + z1, pp);
    lemma_sub_step(dif_l.0 as int, d.0 as int, c.0 as int, x0 - z0, x0 + z0, pp);
    lemma_sub_step(dif_l.1 as int, d.1 as int, c.1 as int, x1 - z1, x1 + z1, pp);
    lemma_xz2_add_core(q, pt, sum_l, dif_l, -1, beta, p);
    // infinity second: sum = c + d = 2 X_Q, dif = c - d = 2 Z_Q
    let sum_r = fp2_add(c, d, p);
    let dif_r = fp2_sub(c, d, p);
    lemma_add_step(sum_r.0 as int, c.0 as int, d.0 as int, x0 + z0, x0 - z0, pp);
    lemma_add_step(sum_r.1 as int, c.1 as int, d.1 as int, x1 + z1, x1 - z1, pp);
    lemma_sub_step(dif_r.0 as int, c.0 as int, d.0 as int, x0 + z0, x0 - z0, pp);
    lemma_sub_step(dif_r.1 as int, c.1 as int, d.1 as int, x1 + z1, x1 - z1, pp);
    lemma_xz2_add_core(q, pt, sum_r, dif_r, 1, beta, p);
}

/// Along the leading zero bits, the ladder over the extension keeps
/// `(infinity, Q)` with `Q` standing for `P`.
proof fn lemma_xz2_ladder_zero_eq(pt: Xz2, k: nat, a24: Fp2, beta: nat, p: nat)
    requires
        is_prime(p),
        p % 4 == 3,
        beta == (p - 1) as nat,
        pt.0.0 < p,
        pt.0.1 < p,
        pt.1.0 < p,
        pt.1.1 < p,
        pt.0 != (0nat, 0nat),
        pt.1 != (0nat, 0nat),
    ensures
        xz2_ladder(pt, 0, k, a24, beta, p).0 == xz2_infinity(),
        ({
            let q = xz2_ladder(pt, 0, k, a24, beta, p).1;
            &&& q.0.0 < p
            &&& q.0.1 < p
            &&& q.1.0 < p
            &&& q.1.1 < p
            &&& xz2_eq(q, pt, beta, p)
        }),
    decreases k,
{
    lemma_xz2_ladder_zero(pt, k, a24, beta, p);
    if k > 0 {
        lemma_xz2_ladder_zero_eq(pt, (k - 1) as nat, a24, beta, p);
        let prev = xz2_ladder(pt, 0, (k - 1) as nat, a24, beta, p);
        lemma_xz2_add_infinity_eq(prev.1, pt, beta, p);
    }
}

/// A pair standing for `P` (with `Z_P` nonzero) is `l P` for a nonzero `l`.
proof fn lemma_xz2_eq_scale(q: Xz2, pt: Xz2, beta: nat, p: nat) -> (l: Fp2)
    requires
        is_prime(p),
        p % 4 == 3,
        beta == (p - 1) as nat,
        q.0.0 < p,
        q.0.1 < p,
        q.1.0 < p,
        q.1.1 < p,
        pt.1.0 < p,
        pt.1.1 < p,
        pt.1 != (0nat, 0nat),
        xz2_eq(q, pt, beta, p),
    ensures
        q == (fp2_mul(l, pt.0, beta, p), fp2_mul(l, pt.1, beta, p)),
        l.0 < p,
        l.1 < p,
        l != (0nat, 0nat),
{
    let (qx, qz) = q;
    let (x, z) = pt;
    let m = |a: Fp2, b: Fp2| fp2_mul(a, b, beta, p);
    let iz = fp2_inv(z, beta, p);
    let one = (1nat, 0nat);
    let l = m(qz, iz);
    lemma_fp2_inverse(z, beta, p);
    lemma_fp2_mul_comm(z, iz, beta, p);
    // l z = Z_Q
    lemma_fp2_mul_assoc(qz, iz, z, beta, p);
    lemma_fp2_mul_one(qz, beta, p);
    // l x = X_Q
    lemma_fp2_mul_comm(qz, iz, beta, p);
    lemma_fp2_mul_assoc(iz, qz, x, beta, p);
    lemma_fp2_mul_comm(qz, x, beta, p);
    lemma_fp2_mul_comm(qx, z, beta, p);
    lemma_fp2_mul_assoc(iz, z, qx, beta, p);
    lemma_fp2_mul_comm(one, qx, beta, p);
    lemma_fp2_mul_one(qx, beta, p);
    if l == (0nat, 0nat) {
        lemma_fp2_zero_mul(z, beta, p);
    }
    l
}

/// Over the extension by `i` with `i^2 = -1` of a prime field with `p = 3 (mod 4)`, the
/// ladder by one gives `P` back, up to representation, for a point with nonzero
/// coordinates.
pub proof fn law_xz2_mult_one(pt: Xz2, k: nat, a24: Fp2, beta: nat, p: nat)
    requires
        is_prime(p),
        p % 4 == 3,
        beta == (p - 1) as nat,
        k >= 1,
        pt.0.0 < p,
        pt.0.1 < p,
        pt.1.0 < p,
        pt.1.1 < p,
        pt.0 != (0nat, 0nat),
        pt.1 != (0nat, 0nat),
    ensures
        xz2_eq(xz2_mult(pt, 1, k, a24, beta, p), pt, beta, p),
{
    lemma_xz2_ladder_zero_eq(pt, (k - 1) as nat, a24, beta, p);
    let prev = xz2_ladder(pt, 0, (k - 1) as nat, a24, beta, p);
    assert(xz2_ladder(pt, 1, k, a24, beta, p).0 == xz2_add(prev.1, prev.0, pt, beta, p));
    lemma_xz2_add_infinity_eq(prev.1, pt, beta, p);
}

/// Over the extension by `i` with `i^2 = -1` of a prime field with `p = 3 (mod 4)`, the
/// ladder by two gives the double of `P`, up to representation, for a point with nonzero
/// coordinates.
#[verifier::spinoff_prover]
pub proof fn law_xz2_mult_two(pt: Xz2, k: nat, a24: Fp2, beta: nat, p: nat)
    requires
        is_prime(p),
        p % 4 == 3,
        beta == (p - 1) as nat,
        k >= 2,
        pt.0.0 < p,
        pt.0.1 < p,
        pt.1.0 < p,
        pt.1.1 < p,
        pt.0 != (0nat, 0nat),
        pt.1 != (0nat, 0nat),
    ensures
        xz2_eq(xz2_mult(pt, 2, k, a24, beta, p), xz2_double(pt, a24, beta, p), beta, p),
{
    let m = |a: Fp2, b: Fp2| fp2_mul(a, b, beta, p);
    law_xz2_mult_one(pt, (k - 1) as nat, a24, beta, p);
    let prev = xz2_ladder(pt, 1, (k - 1) as nat, a24, beta, p);
    assert(xz2_ladder(pt, 2, k, a24, beta, p).0 == xz2_double(prev.0, a24, beta, p));
    let q = prev.0;
    let l = lemma_xz2_eq_scale(q, pt, beta, p);
    lemma_xz2_double_scaled(pt, l, a24, beta, p);
    let l2 = m(l, l);
    let l4 = m(l2, l2);
    lemma_fp2_mul_nonzero(l, l, beta, p);
    lemma_fp2_mul_nonzero(l2, l2, beta, p);
    let dbl = xz2_double(pt, a24, beta, p);
    if dbl.1 == (0nat, 0nat) {
        lemma_fp2_mul_comm(l4, dbl.1, beta, p);
        lemma_fp2_zero_mul(l4, beta, p);
    } else {
        lemma_fp2_mul_nonzero(l4, dbl.1, beta, p);
        lemma_fp2_mul_comm(l4, dbl.0, beta, p);
        lemma_fp2_mul_assoc(dbl.0, l4, dbl.1, beta, p);
    }
}

/// Over the extension by `i` with `i^2 = -1` of a prime field with `p = 3 (mod 4)`,
/// differential addition of the point at infinity and `P`, with difference `P`, gives `P`
/// back (up to representation) when `P` has a nonzero abscissa.
pub proof fn law_xz2_add_infinity(pt: Xz2, beta: nat, p: nat)
    requires
        is_prime(p),
        p % 4 == 3,
        beta == (p - 1) as nat,
        pt.0.0 < p,
        pt.0.1 < p,
        pt.1.0 < p,
        pt.1.1 < p,
        pt.0 != (0nat, 0nat),
    ensures
        xz2_eq(xz2_add(xz2_infinity(), pt, pt, beta, p), pt, beta, p),
{
    if pt.1 != (0nat, 0nat) {
        lemma_xz2_add_infinity_eq(pt, pt, beta, p);
    } else {
        let x = pt.0;
        let zero = (0nat, 0nat);
        let one = (1nat, 0nat);
        lemma_small_mod(1, p);
        lemma_small_mod(0, p);
        lemma_small_mod(x.0, p);
        lemma_small_mod(x.1, p);
        assert(fp2_add(one, zero, p) == one);
        assert(fp2_sub(one, zero, p) == one);
        assert(fp2_add(x, zero, p) == x);
        assert(fp2_sub(x, zero, p) == x);
        lemma_fp2_mul_one(x, beta, p);
        lemma_fp2_mul_comm(one, x, beta, p);
        assert(fp2_sub(x, x, p) == zero);
        lemma_fp2_mul_comm(x, zero, beta, p);
        lemma_fp2_zero_mul(x, beta, p);
        lemma_fp2_mul_comm(zero, zero, beta, p);
        lemma_fp2_zero_mul(zero, beta, p);
    }
}

/// Over a prime field, `==` on points is an equivalence relation (as `Eq` promises):
/// reflexive, symmetric and transitive on triples with `Z` in `0..p`.
pub proof fn law_jac_eq_equivalence(p1: Jac, p2: Jac, p3: Jac, p: nat)
    requires
        is_prime(p),
        p1.2 < p,
        p2.2 < p,
        p3.2 < p,
    ensures
        jac_eq(p1, p1, p),
        jac_eq(p1, p2, p) ==> jac_eq(p2, p1, p),
        jac_eq(p1, p2, p) && jac_eq(p2, p3, p) ==> jac_eq(p1, p3, p),
{
    law_jac_eq_iff_same_affine(p1, p1, p);
    law_jac_eq_iff_same_affine(p1, p2, p);
    law_jac_eq_iff_same_affine(p2, p1, p);
    law_jac_eq_iff_same_affine(p2, p3, p);
    law_jac_eq_iff_same_affine(p1, p3, p);
}

/// Over a prime field, `==` on Montgomery points is an equivalence relation on pairs with
/// `Z` in `0..p`.
pub proof fn law_xz_eq_equivalence(p1: Xz, p2: Xz, p3: Xz, p: nat)
    requires
        is_prime(p),
        p1.1 < p,
        p2.1 < p,
        p3.1 < p,
    ensures
        xz_eq(p1, p1, p),
        xz_eq(p1, p2, p) ==> xz_eq(p2, p1, p),
        xz_eq(p1, p2, p) && xz_eq(p2, p3, p) ==> xz_eq(p1, p3, p),
{
    law_xz_eq_iff_same_affine(p1, p1, p);
    law_xz_eq_iff_same_affine(p1, p2, p);
    law_xz_eq_iff_same_affine(p2, p1, p);
    law_xz_eq_iff_same_affine(p2, p3, p);
    law_xz_eq_iff_same_affine(p1, p3, p);
}

/// Over the extension by `i` with `i^2 = -1` of a prime field with `p = 3 (mod 4)`, `==`
/// on Montgomery points is an equivalence relation on pairs with reduced `Z`.
pub proof fn law_xz2_eq_equivalence(p1: Xz2, p2: Xz2, p3: Xz2, beta: nat, p: nat)
    requires
        is_prime(p),
        p % 4 == 3,
        beta == (p - 1) as nat,
        p1.1.0 < p,
        p1.1.1 < p,
        p2.1.0 < p,
        p2.1.1 < p,
        p3.1.0 < p,
        p3.1.1 < p,
    ensures
        xz2_eq(p1, p1, beta, p),
        xz2_eq(p1, p2, beta, p) ==> xz2_eq(p2, p1, beta, p),
        xz2_eq(p1, p2, beta, p) && xz2_eq(p2, p3, beta, p) ==> xz2_eq(p1, p3, beta, p),
{
    law_xz2_eq_iff_same_affine(p1, p1, beta, p);
    law_xz2_eq_iff_same_affine(p1, p2, beta, p);
    law_xz2_eq_iff_same_affine(p2, p1, beta, p);
    law_xz2_eq_iff_same_affine(p2, p3, beta, p);
    law_xz2_eq_iff_same_affine(p1, p3, beta, p);
}

/// Differential addition of `l A` and `m B` gives `(l m)^2` times the sum of `A` and `B`.
#[verifier::spinoff_prover]
proof fn lemma_xz_add_scaled(q1: Xz, q2: Xz, a: Xz, b: Xz, diff: Xz, l: int, m: int, p: nat)
    requires
        p > 0,
        xz_scaled(q1, a, l, p),
        xz_scaled(q2, b, m, p),
    ensures
        xz_scaled(xz_add(q1, q2, diff, p), xz_add(a, b, diff, p), (l * m) * (l * m), p),
{
    let pp = p as int;
    let (x1, z1, x2, z2) = (q1.0 as int, q1.1 as int, q2.0 as int, q2.1 as int);
    let (a1, c1, a2, c2) = (a.0 as int, a.1 as int, b.0 as int, b.1 as int);
    let lm = l * m;
    let u = 2 * (x1 * x2 - z1 * z2);
    let w = 2 * (x2 * z1 - x1 * z2);
    let ua = 2 * (a1 * a2 - c1 * c2);
    let wa = 2 * (a2 * c1 - a1 * c2);
    lemma_cong_mul(x1, x2, l * a1, m * a2, pp);
    lemma_cong_mul(z1, z2, l * c1, m * c2, pp);
    crate::modular::lemma_cong_sub(x1 * x2, z1 * z2, (l * a1) * (m * a2), (l * c1) * (m * c2), pp);
    lemma_cong_mul(2, x1 * x2 - z1 * z2, 2, (l * a1) * (m * a2) - (l * c1) * (m * c2), pp);
    assert((l * a1) * (m * a2) == lm * (a1 * a2)) by (nonlinear_arith)
        requires
            lm == l * m,
    ;
    assert((l * c1) * (m * c2) == lm * (c1 * c2)) by (nonlinear_arith)
        requires
            lm == l * m,
    ;
    assert(2 * (lm * (a1 * a2) - lm * (c1 * c2)) == lm * ua) by (nonlinear_arith)
        requires
            ua == 2 * (a1 * a2 - c1 * c2),
    ;
    lemma_cong_mul(x2, z1, m * a2, l * c1, pp);
    lemma_cong_mul(x1, z2, l * a1, m * c2, pp);
    crate::modular::lemma_cong_sub(x2 * z1, x1 * z2, (m * a2) * (l * c1), (l * a1) * (m * c2), pp);
    lemma_cong_mul(2, x2 * z1 - x1 * z2, 2, (m * a2) * (l * c1) - (l * a1) * (m * c2), pp);
    assert((m * a2) * (l * c1) == lm * (a2 * c1)) by (nonlinear_arith)
        requires
            lm == l * m,
    ;
    assert((l * a1) * (m * c2) == lm * (a1 * c2)) by (nonlinear_arith)
        requires
            lm == l * m,
    ;
    assert(2 * (lm * (a2 * c1) - lm * (a1 * c2)) == lm * wa) by (nonlinear_arith)
        requires
            wa == 2 * (a2 * c1 - a1 * c2),
    ;
    let d0 = diff.0 as int;
    let d1 = diff.1 as int;
    lemma_cong_mul(d1, u, d1, lm * ua, pp);
    lemma_cong_mul(d1 * u, u, d1 * (lm * ua), lm * ua, pp);
    assert(d1 * (lm * ua) * (lm * ua) == (lm * lm) * (d1 * ua * ua)) by (nonlinear_arith);
    lemma_cong_mul(d0, w, d0, lm * wa, pp);
    lemma_cong_mul(d0 * w, w, d0 * (lm * wa), lm * wa, pp);
    assert(d0 * (lm * wa) * (lm * wa) == (lm * lm) * (d0 * wa * wa)) by (nonlinear_arith);
    lemma_cong_mod(d1 * u * u, pp);
    lemma_cong_mod(d0 * w * w, pp);
    lemma_cong_mod(d1 * ua * ua, pp);
    lemma_cong_mod(d0 * wa * wa, pp);
    lemma_cong_mul(lm * lm, (d1 * ua * ua) % pp, lm * lm, d1 * ua * ua, pp);
    lemma_cong_mul(lm * lm, (d0 * wa * wa) % pp, lm * lm, d0 * wa * wa, pp);
}

/// A product of two numbers that are not multiples of a prime is not one.
proof fn lemma_nonzero_product(l: int, m: int, p: nat)
    requires
        is_prime(p),
        l % (p as int) != 0,
        m % (p as int) != 0,
    ensures
        (l * m) % (p as int) != 0,
{
    if (l * m) % (p as int) == 0 {
        lemma_euclid(l, m, p);
    }
}

/// Over a prime field of odd characteristic, the ladder by three gives `2P + P` (with
/// difference `P`), up to representation, for a point with nonzero coordinates.
pub proof fn law_xz_mult_three(pt: Xz, k: nat, a24: nat, p: nat)
    requires
        is_prime(p),
        p > 2,
        k >= 2,
        0 < pt.0 < p,
        0 < pt.1 < p,
    ensures
        xz_eq(xz_mult(pt, 3, k, a24, p), xz_add(xz_double(pt, a24, p), pt, pt, p), p),
{
    lemma_nonzero_coordinates(pt, p);
    // after the bits of one: (l P, l0^4 2P)
    let l0 = lemma_xz_ladder_zero_scaled(pt, (k - 2) as nat, a24, p);
    let lam = lemma_xz_ladder_one_scaled(pt, (k - 1) as nat, a24, p);
    let first = xz_ladder(pt, 0, (k - 2) as nat, a24, p);
    let prev = xz_ladder(pt, 1, (k - 1) as nat, a24, p);
    assert(prev.1 == xz_double(first.1, a24, p));
    lemma_xz_double_scaled(first.1, pt, l0, a24, p);
    let l4 = (l0 * l0) * (l0 * l0);
    lemma_nonzero_product(l0, l0, p);
    lemma_nonzero_product(l0 * l0, l0 * l0, p);
    // then the bit one: R0 = R1 + R0
    assert(xz_ladder(pt, 3, k, a24, p).0 == xz_add(prev.1, prev.0, pt, p));
    lemma_xz_add_scaled(prev.1, prev.0, xz_double(pt, a24, p), pt, pt, l4, lam, p);
    lemma_nonzero_product(l4, lam, p);
    lemma_nonzero_product(l4 * lam, l4 * lam, p);
    let r = xz_ladder(pt, 3, k, a24, p).0;
    let target = xz_add(xz_double(pt, a24, p), pt, pt, p);
    lemma_xz_eq_scaled(r, target, (l4 * lam) * (l4 * lam), p);
}

/// Over a prime field of odd characteristic, the ladder by four gives the double of the
/// double of `P`, up to representation, for a point with nonzero coordinates.
pub proof fn law_xz_mult_four(pt: Xz, k: nat, a24: nat, p: nat)
    requires
        is_prime(p),
        p > 2,
        k >= 3,
        0 < pt.0 < p,
        0 < pt.1 < p,
    ensures
        xz_eq(xz_mult(pt, 4, k, a24, p), xz_double(xz_double(pt, a24, p), a24, p), p),
{
    lemma_nonzero_coordinates(pt, p);
    let lam = lemma_xz_ladder_one_scaled(pt, (k - 2) as nat, a24, p);
    let one = xz_ladder(pt, 1, (k - 2) as nat, a24, p);
    let two = xz_ladder(pt, 2, (k - 1) as nat, a24, p);
    assert(two.0 == xz_double(one.0, a24, p));
    lemma_xz_double_scaled(one.0, pt, lam, a24, p);
    let l4 = (lam * lam) * (lam * lam);
    lemma_nonzero_product(lam, lam, p);
    lemma_nonzero_product(lam * lam, lam * lam, p);
    assert(xz_ladder(pt, 4, k, a24, p).0 == xz_double(two.0, a24, p));
    lemma_xz_double_scaled(two.0, xz_double(pt, a24, p), l4, a24, p);
    let l16 = (l4 * l4) * (l4 * l4);
    lemma_nonzero_product(l4, l4, p);
    lemma_nonzero_product(l4 * l4, l4 * l4, p);
    let r = xz_ladder(pt, 4, k, a24, p).0;
    let target = xz_double(xz_double(pt, a24, p), a24, p);
    lemma_xz_eq_scaled(r, target, l16, p);
}

/// The `n`-th term of the differential addition chain of `P`: `0 P` is the point at
/// infinity, `1 P = P`, `(2 m) P` doubles `m P`, and `(2 m + 1) P` adds `(m + 1) P` and
/// `m P`, whose difference is `P`.
pub open spec fn xz_chain(pt: Xz, n: nat, a24: nat, p: nat) -> Xz
    decreases n,
{
    if n == 0 {
        xz_infinity()
    } else if n == 1 {
        pt
    } else if n % 2 == 0 {
        xz_double(xz_chain(pt, n / 2, a24, p), a24, p)
    } else {
        xz_add(xz_chain(pt, n / 2 + 1, a24, p), xz_chain(pt, n / 2, a24, p), pt, p)
    }
}

/// Scaling composes: `a = l b` and `b = m c` give `a = (l m) c`.
proof fn lemma_xz_scaled_trans(a: Xz, b: Xz, c: Xz, l: int, m: int, p: nat)
    requires
        p > 0,
        xz_scaled(a, b, l, p),
        xz_scaled(b, c, m, p),
    ensures
        xz_scaled(a, c, l * m, p),
{
    let pp = p as int;
    lemma_cong_mul(l, b.0 as int, l, m * c.0, pp);
    lemma_cong_mul(l, b.1 as int, l, m * c.1, pp);
    assert(l * (m * c.0) == (l * m) * c.0) by (nonlinear_arith);
    assert(l * (m * c.1) == (l * m) * c.1) by (nonlinear_arith);
}

/// The ladder over `k` bits of `q < 2^k` holds nonzero multiples of the chain's terms
/// `q P` and `(q + 1) P`.
proof fn lemma_xz_ladder_chain(pt: Xz, q: nat, k: nat, a24: nat, p: nat) -> (lm: (int, int))
    requires
        is_prime(p),
        p > 2,
        0 < pt.0 < p,
        0 < pt.1 < p,
        q < pow2(k),
    ensures
        xz_scaled(xz_ladder(pt, q, k, a24, p).0, xz_chain(pt, q, a24, p), lm.0, p),
        xz_scaled(xz_ladder(pt, q, k, a24, p).1, xz_chain(pt, q + 1, a24, p), lm.1, p),
        lm.0 % (p as int) != 0,
        lm.1 % (p as int) != 0,
    decreases k,
{
    let pp = p as int;
    lemma_small_mod(1, p);
    if k == 0 {
        lemma_pow0(2);
        assert(1 * (1nat as int) == 1 && 1 * (0nat as int) == 0);
        assert(1 * (pt.0 as int) == pt.0 as int && 1 * (pt.1 as int) == pt.1 as int);
        (1, 1)
    } else {
        lemma_pow2_unfold(k);
        let m = q / 2;
        let (l0, m0) = lemma_xz_ladder_chain(pt, m, (k - 1) as nat, a24, p);
        let prev = xz_ladder(pt, m, (k - 1) as nat, a24, p);
        let cm = xz_chain(pt, m, a24, p);
        let cm1 = xz_chain(pt, m + 1, a24, p);
        lemma_nonzero_coordinates(pt, p);
        let f: int = 4 * (1int * 1int) * (pt.0 * pt.1);
        assert(1 * (pt.0 as int) == pt.0 as int && 1 * (pt.1 as int) == pt.1 as int);
        lemma_nonzero_product4(1, pt.0 as int * pt.1 as int, p);
        if q % 2 == 1 {
            // (R1 + R0, 2 R1)
            lemma_xz_add_scaled(prev.1, prev.0, cm1, cm, pt, m0, l0, p);
            lemma_xz_double_scaled(prev.1, cm1, m0, a24, p);
            let a = (m0 * l0) * (m0 * l0);
            let b = (m0 * m0) * (m0 * m0);
            lemma_nonzero_product(m0, l0, p);
            lemma_nonzero_product(m0 * l0, m0 * l0, p);
            lemma_nonzero_product(m0, m0, p);
            lemma_nonzero_product(m0 * m0, m0 * m0, p);
            assert(q + 1 == 2 * (m + 1));
            if m == 0 {
                // (1 + 0) P is P, reached as P + infinity, which is 4 x z P
                lemma_xz_add_infinity_scaled(pt, pt, 1, p);
                lemma_xz_scaled_trans(xz_ladder(pt, q, k, a24, p).0, xz_add(cm1, cm, pt, p), pt, a, f, p);
                lemma_nonzero_product(a, f, p);
                (a * f, b)
            } else {
                (a, b)
            }
        } else {
            // (2 R0, R0 + R1)
            lemma_xz_double_scaled(prev.0, cm, l0, a24, p);
            lemma_xz_add_scaled(prev.0, prev.1, cm, cm1, pt, l0, m0, p);
            law_xz_add_symmetric(cm, cm1, pt, p);
            let a = (l0 * l0) * (l0 * l0);
            let b = (l0 * m0) * (l0 * m0);
            lemma_nonzero_product(l0, l0, p);
            lemma_nonzero_product(l0 * l0, l0 * l0, p);
            lemma_nonzero_product(l0, m0, p);
            lemma_nonzero_product(l0 * m0, l0 * m0, p);
            if m == 0 {
                // 2 * 0 is 0, the double of infinity; 0 + 1 is 1, reached as infinity + P
                lemma_xz_ladder_zero(pt, 1, a24, p);
                assert(xz_ladder(pt, 0, 0, a24, p).0 == xz_infinity());
                assert(xz_ladder(pt, 0, 1, a24, p).0 == xz_double(xz_infinity(), a24, p));
                lemma_xz_add_infinity_scaled(pt, pt, 1, p);
                lemma_xz_scaled_trans(xz_ladder(pt, q, k, a24, p).1, xz_add(cm, cm1, pt, p), pt, b, f, p);
                lemma_nonzero_product(b, f, p);
                (a, b * f)
            } else {
                (a, b)
            }
        }
    }
}

/// Over a prime field of odd characteristic, for a point with nonzero coordinates and
/// `n < 2^k`, the Montgomery ladder by `n` gives the `n`-th term of the differential
/// addition chain, up to representation: whatever the number of bits `k`,
/// `[2 m] P = 2 [m] P` and `[2 m + 1] P = [m + 1] P + [m] P` (difference `P`).
pub proof fn law_xz_mult_is_chain(pt: Xz, n: nat, k: nat, a24: nat, p: nat)
    requires
        is_prime(p),
        p > 2,
        0 < pt.0 < p,
        0 < pt.1 < p,
        n < pow2(k),
    ensures
        xz_eq(xz_mult(pt, n, k, a24, p), xz_chain(pt, n, a24, p), p),
{
    let lm = lemma_xz_ladder_chain(pt, n, k, a24, p);
    let r = xz_ladder(pt, n, k, a24, p).0;
    let c = xz_chain(pt, n, a24, p);
    lemma_small_mod(1, p);
    lemma_xz_eq_scaled(r, c, lm.0, p);
}

/// `q` is `l` times `pt`, coordinate by coordinate, over the extension.
spec fn xz2_scaled(q: Xz2, pt: Xz2, l: Fp2, beta: nat, p: nat) -> bool {
    &&& q.0 == fp2_mul(l, pt.0, beta, p)
    &&& q.1 == fp2_mul(l, pt.1, beta, p)
}

/// Scaling composes over the extension.
proof fn lemma_xz2_scaled_trans(a: Xz2, b: Xz2, c: Xz2, l: Fp2, m: Fp2, beta: nat, p: nat)
    requires
        p > 0,
        xz2_scaled(a, b, l, beta, p),
        xz2_scaled(b, c, m, beta, p),
    ensures
        xz2_scaled(a, c, fp2_mul(l, m, beta, p), beta, p),
{
    lemma_fp2_mul_assoc(l, m, c.0, beta, p);
    lemma_fp2_mul_assoc(l, m, c.1, beta, p);
}

/// Differential addition of `l A` and `m B` over the extension gives `(l m)^2` times the
/// sum of `A` and `B`.
#[verifier::spinoff_prover]
proof fn lemma_xz2_add_scaled(q1: Xz2, q2: Xz2, a: Xz2, b: Xz2, diff: Xz2, l: Fp2, m: Fp2, beta: nat, p: nat)
    requires
        p > 0,
        xz2_scaled(q1, a, l, beta, p),
        xz2_scaled(q2, b, m, beta, p),
    ensures
        ({
            let lm = fp2_mul(l, m, beta, p);
            xz2_scaled(xz2_add(q1, q2, diff, beta, p), xz2_add(a, b, diff, beta, p), fp2_mul(lm, lm, beta, p), beta, p)
        }),
{
    let mm = |u: Fp2, v: Fp2| fp2_mul(u, v, beta, p);
    let lm = mm(l, m);
    let ml = mm(m, l);
    // the sums and differences of the coordinates
    let a1 = fp2_add(a.0, a.1, p);
    let b1 = fp2_sub(a.0, a.1, p);
    let c1 = fp2_add(b.0, b.1, p);
    let d1 = fp2_sub(b.0, b.1, p);
    lemma_fp2_mul_add(l, a.0, a.1, beta, p);
    lemma_fp2_mul_sub(l, a.0, a.1, beta, p);
    lemma_fp2_mul_add(m, b.0, b.1, beta, p);
    lemma_fp2_mul_sub(m, b.0, b.1, beta, p);
    // DA and CB
    lemma_fp2_mul_swap_middle(m, d1, l, a1, beta, p);
    lemma_fp2_mul_swap_middle(l, b1, m, c1, beta, p);
    lemma_fp2_mul_comm(m, l, beta, p);
    let da = mm(d1, a1);
    let cb = mm(b1, c1);
    lemma_fp2_mul_add(lm, da, cb, beta, p);
    lemma_fp2_mul_sub(lm, da, cb, beta, p);
    let sum = fp2_add(da, cb, p);
    let dif = fp2_sub(da, cb, p);
    // Zd (lm sum) (lm sum) and Xd (lm dif) (lm dif)
    lemma_fp2_mul_assoc(diff.1, lm, sum, beta, p);
    lemma_fp2_mul_comm(diff.1, lm, beta, p);
    lemma_fp2_mul_assoc(lm, diff.1, sum, beta, p);
    lemma_fp2_mul_swap_middle(lm, mm(diff.1, sum), lm, sum, beta, p);
    lemma_fp2_mul_assoc(diff.0, lm, dif, beta, p);
    lemma_fp2_mul_comm(diff.0, lm, beta, p);
    lemma_fp2_mul_assoc(lm, diff.0, dif, beta, p);
    lemma_fp2_mul_swap_middle(lm, mm(diff.0, dif), lm, dif, beta, p);
}

/// The `n`-th term of the differential addition chain of `P` over the extension, as
/// `xz_chain`.
pub open spec fn xz2_chain(pt: Xz2, n: nat, a24: Fp2, beta: nat, p: nat) -> Xz2
    decreases n,
{
    if n == 0 {
        xz2_infinity()
    } else if n == 1 {
        pt
    } else if n % 2 == 0 {
        xz2_double(xz2_chain(pt, n / 2, a24, beta, p), a24, beta, p)
    } else {
        xz2_add(xz2_chain(pt, n / 2 + 1, a24, beta, p), xz2_chain(pt, n / 2, a24, beta, p), pt, beta, p)
    }
}

/// The terms of the chain of a reduced pair are reduced.
proof fn lemma_xz2_chain_reduced(pt: Xz2, n: nat, a24: Fp2, beta: nat, p: nat)
    requires
        p > 1,
        pt.0.0 < p,
        pt.0.1 < p,
        pt.1.0 < p,
        pt.1.1 < p,
    ensures
        ({
            let c = xz2_chain(pt, n, a24, beta, p);
            c.0.0 < p && c.0.1 < p && c.1.0 < p && c.1.1 < p
        }),
{
}

/// A nonzero multiple of a pair stands for the same point over the extension.
proof fn lemma_xz2_eq_of_scaled(q: Xz2, c: Xz2, l: Fp2, beta: nat, p: nat)
    requires
        is_prime(p),
        p % 4 == 3,
        beta == (p - 1) as nat,
        c.1.0 < p,
        c.1.1 < p,
        l.0 < p,
        l.1 < p,
        l != (0nat, 0nat),
        xz2_scaled(q, c, l, beta, p),
    ensures
        xz2_eq(q, c, beta, p),
{
    if c.1 == (0nat, 0nat) {
        lemma_fp2_mul_comm(l, c.1, beta, p);
        lemma_fp2_zero_mul(l, beta, p);
    } else {
        lemma_fp2_mul_nonzero(l, c.1, beta, p);
        lemma_fp2_mul_comm(l, c.0, beta, p);
        lemma_fp2_mul_assoc(c.0, l, c.1, beta, p);
    }
}

/// One times a reduced pair is itself.
proof fn lemma_xz2_scaled_one(pt: Xz2, beta: nat, p: nat)
    requires
        pt.0.0 < p,
        pt.0.1 < p,
        pt.1.0 < p,
        pt.1.1 < p,
    ensures
        xz2_scaled(pt, pt, (1nat, 0nat), beta, p),
{
    lemma_fp2_mul_one(pt.0, beta, p);
    lemma_fp2_mul_one(pt.1, beta, p);
    lemma_fp2_mul_comm((1nat, 0nat), pt.0, beta, p);
    lemma_fp2_mul_comm((1nat, 0nat), pt.1, beta, p);
}

/// Differential addition of `P` and the point at infinity, with difference `P`, in either
/// order, is a nonzero multiple of `P` over the extension, for `P` with nonzero coordinates.
proof fn lemma_xz2_add_infinity_scale(pt: Xz2, beta: nat, p: nat) -> (f: (Fp2, Fp2))
    requires
        is_prime(p),
        p % 4 == 3,
        beta == (p - 1) as nat,
        pt.0.0 < p,
        pt.0.1 < p,
        pt.1.0 < p,
        pt.1.1 < p,
        pt.0 != (0nat, 0nat),
        pt.1 != (0nat, 0nat),
    ensures
        xz2_scaled(xz2_add(pt, xz2_infinity(), pt, beta, p), pt, f.0, beta, p),
        xz2_scaled(xz2_add(xz2_infinity(), pt, pt, beta, p), pt, f.1, beta, p),
        f.0.0 < p && f.0.1 < p && f.0 != (0nat, 0nat),
        f.1.0 < p && f.1.1 < p && f.1 != (0nat, 0nat),
{
    lemma_small_mod(1, p);
    lemma_xz2_add_infinity_eq(pt, pt, beta, p);
    let r = xz2_add(pt, xz2_infinity(), pt, beta, p);
    let s = xz2_add(xz2_infinity(), pt, pt, beta, p);
    let f0 = lemma_xz2_eq_scale(r, pt, beta, p);
    let f1 = lemma_xz2_eq_scale(s, pt, beta, p);
    (f0, f1)
}

/// The ladder over the extension, over `k` bits of `q < 2^k`, holds nonzero multiples of
/// the chain's terms `q P` and `(q + 1) P`.
#[verifier::spinoff_prover]
proof fn lemma_xz2_ladder_chain(pt: Xz2, q: nat, k: nat, a24: Fp2, beta: nat, p: nat) -> (lm: (Fp2, Fp2))
    requires
        is_prime(p),
        p % 4 == 3,
        beta == (p - 1) as nat,
        pt.0.0 < p,
        pt.0.1 < p,
        pt.1.0 < p,
        pt.1.1 < p,
        pt.0 != (0nat, 0nat),
        pt.1 != (0nat, 0nat),
        q < pow2(k),
    ensures
        xz2_scaled(xz2_ladder(pt, q, k, a24, beta, p).0, xz2_chain(pt, q, a24, beta, p), lm.0, beta, p),
        xz2_scaled(xz2_ladder(pt, q, k, a24, beta, p).1, xz2_chain(pt, q + 1, a24, beta, p), lm.1, beta, p),
        lm.0.0 < p && lm.0.1 < p && lm.0 != (0nat, 0nat),
        lm.1.0 < p && lm.1.1 < p && lm.1 != (0nat, 0nat),
    decreases k,
{
    let mm = |u: Fp2, v: Fp2| fp2_mul(u, v, beta, p);
    lemma_small_mod(1, p);
    lemma_small_mod(0, p);
    if k == 0 {
        lemma_pow0(2);
        lemma_xz2_scaled_one(xz2_infinity(), beta, p);
        lemma_xz2_scaled_one(pt, beta, p);
        ((1nat, 0nat), (1nat, 0nat))
    } else {
        lemma_pow2_unfold(k);
        let m = q / 2;
        let (l0, m0) = lemma_xz2_ladder_chain(pt, m, (k - 1) as nat, a24, beta, p);
        let prev = xz2_ladder(pt, m, (k - 1) as nat, a24, beta, p);
        let cm = xz2_chain(pt, m, a24, beta, p);
        let cm1 = xz2_chain(pt, m + 1, a24, beta, p);
        let (f0, f1) = lemma_xz2_add_infinity_scale(pt, beta, p);
        if q % 2 == 1 {
            // (R1 + R0, 2 R1)
            lemma_xz2_add_scaled(prev.1, prev.0, cm1, cm, pt, m0, l0, beta, p);
            lemma_xz2_double_scaled(cm1, m0, a24, beta, p);
            let ml = mm(m0, l0);
            let a = mm(ml, ml);
            let m2 = mm(m0, m0);
            let b = mm(m2, m2);
            lemma_fp2_mul_nonzero(m0, l0, beta, p);
            lemma_fp2_mul_nonzero(ml, ml, beta, p);
            lemma_fp2_mul_nonzero(m0, m0, beta, p);
            lemma_fp2_mul_nonzero(m2, m2, beta, p);
            assert(q + 1 == 2 * (m + 1));
            if m == 0 {
                lemma_xz2_scaled_trans(xz2_ladder(pt, q, k, a24, beta, p).0, xz2_add(cm1, cm, pt, beta, p), pt, a, f0, beta, p);
                lemma_fp2_mul_nonzero(a, f0, beta, p);
                (mm(a, f0), b)
            } else {
                (a, b)
            }
        } else {
            // (2 R0, R0 + R1)
            lemma_xz2_double_scaled(cm, l0, a24, beta, p);
            lemma_xz2_add_scaled(prev.0, prev.1, cm, cm1, pt, l0, m0, beta, p);
            law_xz2_add_symmetric(cm, cm1, pt, beta, p);
            let l2 = mm(l0, l0);
            let a = mm(l2, l2);
            let lm0 = mm(l0, m0);
            let b = mm(lm0, lm0);
            lemma_fp2_mul_nonzero(l0, l0, beta, p);
            lemma_fp2_mul_nonzero(l2, l2, beta, p);
            lemma_fp2_mul_nonzero(l0, m0, beta, p);
            lemma_fp2_mul_nonzero(lm0, lm0, beta, p);
            if m == 0 {
                lemma_xz2_ladder_zero(pt, 1, a24, beta, p);
                assert(xz2_ladder(pt, 0, 0, a24, beta, p).0 == xz2_infinity());
                assert(xz2_ladder(pt, 0, 1, a24, beta, p).0 == xz2_double(xz2_infinity(), a24, beta, p));
                lemma_xz2_scaled_trans(xz2_ladder(pt, q, k, a24, beta, p).1, xz2_add(cm, cm1, pt, beta, p), pt, b, f1, beta, p);
                lemma_fp2_mul_nonzero(b, f1, beta, p);
                (a, mm(b, f1))
            } else {
                (a, b)
            }
        }
    }
}

/// Over the extension by `i` with `i^2 = -1` of a prime field with `p = 3 (mod 4)`, for a
/// point with nonzero coordinates and `n < 2^k`, the Montgomery ladder by `n` gives the
/// `n`-th term of the differential addition chain, up to representation.
pub proof fn law_xz2_mult_is_chain(pt: Xz2, n: nat, k: nat, a24: Fp2, beta: nat, p: nat)
    requires
        is_prime(p),
        p % 4 == 3,
        beta == (p - 1) as nat,
        pt.0.0 < p,
        pt.0.1 < p,
        pt.1.0 < p,
        pt.1.1 < p,
        pt.0 != (0nat, 0nat),
        pt.1 != (0nat, 0nat),
        n < pow2(k),
    ensures
        xz2_eq(xz2_mult(pt, n, k, a24, beta, p), xz2_chain(pt, n, a24, beta, p), beta, p),
{
    let lm = lemma_xz2_ladder_chain(pt, n, k, a24, beta, p);
    lemma_xz2_chain_reduced(pt, n, a24, beta, p);
    lemma_xz2_eq_of_scaled(xz2_ladder(pt, n, k, a24, beta, p).0, xz2_chain(pt, n, a24, beta, p), lm.0, beta, p);
}

/// The base field sits in the extension as a subfield: on embedded elements `(x, 0)`,
/// sum, difference and product are those of the base field, and so is the inverse when the
/// modulus is an odd prime.
pub proof fn law_from_base_is_subfield<E: ExtensionField>(x: FieldElement<E::Base>, y: FieldElement<E::Base>)
    requires
        x.well_formed(),
    ensures
        ({
            let p = modulus::<E::Base>();
            let beta = E::spec_non_residue();
            &&& fp2_add((x@, 0nat), (y@, 0nat), p) == ((x@ + y@) % p, 0nat)
            &&& fp2_sub((x@, 0nat), (y@, 0nat), p) == (sub_mod(x@, y@, p), 0nat)
            &&& fp2_mul((x@, 0nat), (y@, 0nat), beta, p) == ((x@ * y@) % p, 0nat)
            &&& (is_prime(p) && p > 2 ==> fp2_inv((x@, 0nat), beta, p) == (
                pow_mod(x@, (p - 2) as nat, p),
                0nat,
            ))
        }),
{
    lemma_well_formed(x);
    let p = modulus::<E::Base>();
    let beta = E::spec_non_residue();
    lemma_fp2_ops_on_base(x@, y@, beta, p);
    if is_prime(p) && p > 2 {
        lemma_fp2_inv_on_base_any(x@, beta, p);
    }
}

/// Over a prime field, `==` on points is equality of their affine forms (what
/// `representation` returns, and what `Hash` feeds), and it is an equivalence relation.
pub proof fn law_point_eq<F: Field>(p1: Point<F>, p2: Point<F>, p3: Point<F>)
    requires
        is_prime(modulus::<F>()),
    ensures
        jac_eq(p1@, p2@, modulus::<F>()) <==> jac_affine(p1@, modulus::<F>()) == jac_affine(
            p2@,
            modulus::<F>(),
        ),
        jac_eq(p1@, p1@, modulus::<F>()),
        jac_eq(p1@, p2@, modulus::<F>()) ==> jac_eq(p2@, p1@, modulus::<F>()),
        jac_eq(p1@, p2@, modulus::<F>()) && jac_eq(p2@, p3@, modulus::<F>()) ==> jac_eq(
            p1@,
            p3@,
            modulus::<F>(),
        ),
{
    lemma_point_reduced(p1);
    lemma_point_reduced(p2);
    lemma_point_reduced(p3);
    law_jac_eq_iff_same_affine(p1@, p2@, modulus::<F>());
    law_jac_eq_equivalence(p1@, p2@, p3@, modulus::<F>());
}

/// Negation of a point: negating twice gives the point back, the point at infinity stays
/// the only point at infinity, and the affine form of `-P` is `(x, -y)`.
pub proof fn law_point_neg<F: Field>(pt: Point<F>)
    requires
        modulus::<F>() > 0,
    ensures
        ({
            let p = modulus::<F>();
            let n = (pt@.0, residue(0 - pt@.1, p), pt@.2);
            &&& (n.0, residue(0 - n.1, p), n.2) == pt@
            &&& (n.2 == 0 <==> pt@.2 == 0)
            &&& jac_affine(n, p) == (match jac_affine(pt@, p) {
                Some(xy) => Some((xy.0, sub_mod(0, xy.1, p))),
                None => None::<(nat, nat)>,
            })
        }),
{
    let p = modulus::<F>();
    let pp = p as int;
    lemma_point_reduced(pt);
    law_jac_neg_involution(pt@, p);
    if pt@.2 != 0 {
        let zi = inv_mod(pt@.2, p) as int;
        let c = (zi * zi) * zi;
        let y = pt@.1 as int;
        let ny = residue(0 - pt@.1, p) as int;
        lemma_cong_mod(0 - y, pp);
        lemma_cong_mul(ny, c, 0 - y, c, pp);
        assert((0 - y) * c == 0 - y * c) by (nonlinear_arith);
        lemma_cong_mod(y * c, pp);
        crate::modular::lemma_cong_sub(0, (y * c) % pp, 0, y * c, pp);
        lemma_mod_bound(ny * c, pp);
        lemma_cong_mod(ny * c, pp);
        lemma_cong_to_mod((ny * c) % pp, 0 - (y * c) % pp, pp);
    }
}

/// Over a prime field, `==` on Montgomery points is equality of their abscissas (what
/// `representation` returns), and it is an equivalence relation.
pub proof fn law_montgomery_point_eq<F: Field>(p1: MontgomeryPoint<F>, p2: MontgomeryPoint<F>, p3: MontgomeryPoint<F>)
    requires
        is_prime(modulus::<F>()),
    ensures
        xz_eq(p1@, p2@, modulus::<F>()) <==> xz_affine(p1@, modulus::<F>()) == xz_affine(
            p2@,
            modulus::<F>(),
        ),
        xz_eq(p1@, p1@, modulus::<F>()),
        xz_eq(p1@, p2@, modulus::<F>()) ==> xz_eq(p2@, p1@, modulus::<F>()),
        xz_eq(p1@, p2@, modulus::<F>()) && xz_eq(p2@, p3@, modulus::<F>()) ==> xz_eq(
            p1@,
            p3@,
            modulus::<F>(),
        ),
{
    lemma_montgomery_point_reduced(p1);
    lemma_montgomery_point_reduced(p2);
    lemma_montgomery_point_reduced(p3);
    law_xz_eq_iff_same_affine(p1@, p2@, modulus::<F>());
    law_xz_eq_equivalence(p1@, p2@, p3@, modulus::<F>());
}

/// In an extension by `i` with `i^2 = -1` of a prime field with `p = 3 (mod 4)`, `==` on
/// Montgomery points is equality of their abscissas, and it is an equivalence relation.
pub proof fn law_ext_montgomery_point_eq<E: NonResidueMinusOne>(
    p1: ExtensionMontgomeryPoint<E>,
    p2: ExtensionMontgomeryPoint<E>,
    p3: ExtensionMontgomeryPoint<E>,
)
    requires
        is_prime(modulus::<E::Base>()),
        modulus::<E::Base>() % 4 == 3,
    ensures
        ({
            let p = modulus::<E::Base>();
            let beta = E::spec_non_residue();
            &&& xz2_eq(p1@, p2@, beta, p) <==> xz2_affine(p1@, beta, p) == xz2_affine(p2@, beta, p)
            &&& xz2_eq(p1@, p1@, beta, p)
            &&& xz2_eq(p1@, p2@, beta, p) ==> xz2_eq(p2@, p1@, beta, p)
            &&& xz2_eq(p1@, p2@, beta, p) && xz2_eq(p2@, p3@, beta, p) ==> xz2_eq(p1@, p3@, beta, p)
        }),
{
    let p = modulus::<E::Base>();
    let beta = E::spec_non_residue();
    E::lemma_non_residue_is_minus_one();
    lemma_ext_montgomery_point_reduced(p1);
    lemma_ext_montgomery_point_reduced(p2);
    lemma_ext_montgomery_point_reduced(p3);
    law_xz2_eq_iff_same_affine(p1@, p2@, beta, p);
    law_xz2_eq_equivalence(p1@, p2@, p3@, beta, p);
}

/// In any extension `F_p[i]` with `i^2 = beta`, `beta` not a square modulo the prime `p`,
/// every nonzero element times its inverse (what `ExtensionFieldElement::inv` returns) is
/// one.
pub proof fn law_fp2_inverse_any(x: Fp2, beta: nat, p: nat)
    requires
        is_prime(p),
        is_non_square(beta, p),
        x.0 < p,
        x.1 < p,
        x != (0nat, 0nat),
    ensures
        fp2_mul(x, fp2_inv(x, beta, p), beta, p) == (1nat, 0nat),
        fp2_mul(fp2_inv(x, beta, p), x, beta, p) == (1nat, 0nat),
{
    lemma_fp2_inverse_general(x, beta, p);
    lemma_fp2_mul_comm(x, fp2_inv(x, beta, p), beta, p);
}

/// The same, for an element of an extension type whose non-residue is not a square.
pub proof fn law_ext_inverse<E: ExtensionField>(x: ExtensionFieldElement<E>)
    requires
        is_prime(modulus::<E::Base>()),
        is_non_square(E::spec_non_residue(), modulus::<E::Base>()),
        x@ != (0nat, 0nat),
    ensures
        fp2_mul(
            x@,
            fp2_inv(x@, E::spec_non_residue(), modulus::<E::Base>()),
            E::spec_non_residue(),
            modulus::<E::Base>(),
        ) == (1nat, 0nat),
{
    crate::extension::lemma_view_reduced_ext(x);
    law_fp2_inverse_any(x@, E::spec_non_residue(), modulus::<E::Base>());
}

/// Four times a quarter is one, in the base field and in the extension.
proof fn lemma_four_times_quarter(beta: nat, p: nat)
    requires
        is_prime(p),
        p > 2,
    ensures
        0 < 4nat % p < p,
        (4nat % p * inv_mod(4nat % p, p)) % p == 1,
        fp2_inv((4nat % p, 0nat), beta, p) == (inv_mod(4nat % p, p), 0nat),
        fp2_mul((4nat % p, 0nat), fp2_inv((4nat % p, 0nat), beta, p), beta, p) == (1nat, 0nat),
{
    lemma_four_nonzero(p);
    lemma_mod_bound(4, p as int);
    assert(4nat % p == (4int % (p as int)) as nat);
    lemma_fermat_inverse(4nat % p, p);
    lemma_fp2_inv_on_base(4nat % p, beta, p);
    lemma_fp2_ops_on_base(4nat % p, inv_mod(4nat % p, p), beta, p);
}

/// Over a prime field of odd characteristic, for every `a` of the extension,
/// `(a + 2) / 4` (the `a24` of the Montgomery curve with coefficient `a`) times four is
/// `a + 2`.
pub proof fn law_ext_a24(a: Fp2, beta: nat, p: nat)
    requires
        is_prime(p),
        p > 2,
    ensures
        fp2_mul((4nat % p, 0nat), ext_a24_of(a, beta, p), beta, p) == fp2_add(a, (2nat % p, 0nat), p),
{
    let four = (4nat % p, 0nat);
    let s = fp2_add(a, (2nat % p, 0nat), p);
    let i = fp2_inv(four, beta, p);
    lemma_four_times_quarter(beta, p);
    lemma_fp2_mul_assoc(four, s, i, beta, p);
    lemma_fp2_mul_comm(four, s, beta, p);
    lemma_fp2_mul_assoc(s, four, i, beta, p);
    lemma_fp2_mul_one(s, beta, p);
}

/// In any extension with `beta` not a square modulo the prime `p`, for every `a` with
/// `a^2 != 4`, the `j`-invariant of the Montgomery curve with coefficient `a` satisfies
/// `j (a^2 - 4) = 256 (a^2 - 3)^3`.
pub proof fn law_ext_montgomery_j(a: Fp2, beta: nat, p: nat)
    requires
        is_prime(p),
        is_non_square(beta, p),
    ensures
        ({
            let a2 = fp2_mul(a, a, beta, p);
            let t = fp2_sub(a2, (3nat % p, 0nat), p);
            let d = fp2_sub(a2, (4nat % p, 0nat), p);
            d != (0nat, 0nat) ==> fp2_mul(ext_montgomery_j(a, beta, p), d, beta, p) == fp2_mul(
                fp2_mul(fp2_mul((256nat % p, 0nat), t, beta, p), t, beta, p),
                t,
                beta,
                p,
            )
        }),
{
    let a2 = fp2_mul(a, a, beta, p);
    let t = fp2_sub(a2, (3nat % p, 0nat), p);
    let d = fp2_sub(a2, (4nat % p, 0nat), p);
    let num = fp2_mul(fp2_mul(fp2_mul((256nat % p, 0nat), t, beta, p), t, beta, p), t, beta, p);
    if d != (0nat, 0nat) {
        let di = fp2_inv(d, beta, p);
        lemma_fp2_inverse_general(d, beta, p);
        lemma_fp2_mul_assoc(num, di, d, beta, p);
        lemma_fp2_mul_comm(di, d, beta, p);
        lemma_fp2_mul_one(num, beta, p);
    }
}

/// Over a prime field of odd characteristic, `a24 = (a + 2) / 4` of a Montgomery curve
/// satisfies `4 a24 = a + 2`.
pub proof fn law_montgomery_a24(a: nat, p: nat)
    requires
        is_prime(p),
        p > 2,
    ensures
        (4 * montgomery_a24_of(a, p)) % p == (a + 2) % p,
{
    let pp = p as int;
    lemma_four_times_quarter(0, p);
    let i4 = inv_mod(4nat % p, p) as int;
    let s = (a + 2) as int;
    lemma_cong_mod(4, pp);
    lemma_cong_mod(s * i4, pp);
    lemma_cong_mul(4, (s * i4) % pp, 4, s * i4, pp);
    assert(4 * (s * i4) == s * (4 * i4)) by (nonlinear_arith);
    lemma_cong_mul(4, i4, (4nat % p) as int, i4, pp);
    lemma_small_mod(1, p);
    lemma_cong_mul(s, 4 * i4, s, 1, pp);
}

/// Over a prime field, the `j`-invariant of a Montgomery curve satisfies
/// `j (a^2 - 4) = 256 (a^2 - 3)^3` whenever `a^2 != 4`.
pub proof fn law_montgomery_j_relation(a: nat, p: nat)
    requires
        is_prime(p),
    ensures
        ({
            let t = a * a - 3;
            let d = a * a - 4;
            d % (p as int) != 0 ==> (montgomery_j(a, p) * d) % (p as int) == (256 * t * t * t) % (p as int)
        }),
{
    let pp = p as int;
    let t = a * a - 3;
    let d = a * a - 4;
    if d % pp != 0 {
        let dr = residue(d, p);
        lemma_mod_bound(d, pp);
        lemma_fermat_inverse(dr, p);
        let i = inv_mod(dr, p) as int;
        let num = 256 * t * t * t;
        lemma_cong_mod(num * i, pp);
        lemma_cong_mul((num * i) % pp, d, num * i, d, pp);
        lemma_cong_mod(d, pp);
        lemma_cong_mul(num * i, d, num * i, dr as int, pp);
        assert((num * i) * (dr as int) == num * ((dr as int) * i)) by (nonlinear_arith);
        lemma_small_mod(1, p);
        lemma_cong_mul(num, (dr as int) * i, num, 1, pp);
    }
}

/// Over a prime field, the `j`-invariant of `y^2 = x^3 + a x + b` satisfies
/// `j (4 a^3 + 27 b^2) = 1728 (4 a^3)` whenever the discriminant `4 a^3 + 27 b^2` is nonzero.
pub proof fn law_weierstrass_j_relation(a: nat, b: nat, p: nat)
    requires
        is_prime(p),
    ensures
        ({
            let f = 4 * a * a * a;
            let d = f + 27 * b * b;
            d % p != 0 ==> (weierstrass_j(a, b, p) * d) % p == (1728 * f) % p
        }),
{
    let pp = p as int;
    let f = 4 * a * a * a;
    let d = f + 27 * b * b;
    if d % p != 0 {
        let dr = d % p;
        lemma_fermat_inverse(dr, p);
        let i = inv_mod(dr, p) as int;
        let num = (1728 * f) as int;
        lemma_cong_mod(num * i, pp);
        lemma_cong_mul((num * i) % pp, d as int, num * i, d as int, pp);
        lemma_cong_mod(d as int, pp);
        lemma_cong_mul(num * i, d as int, num * i, dr as int, pp);
        assert((num * i) * (dr as int) == num * ((dr as int) * i)) by (nonlinear_arith);
        lemma_small_mod(1, p);
        lemma_cong_mul(num, (dr as int) * i, num, 1, pp);
    }
}

/// `x^n` by `n` multiplications, one factor at a time.
spec fn fp2_npow(x: Fp2, n: nat, beta: nat, p: nat) -> Fp2
    decreases n,
{
    if n == 0 {
        (1nat, 0nat)
    } else {
        fp2_mul(fp2_npow(x, (n - 1) as nat, beta, p), x, beta, p)
    }
}

/// `x^(m + n) = x^m x^n`, one factor at a time.
proof fn lemma_fp2_npow_add(x: Fp2, m: nat, n: nat, beta: nat, p: nat)
    requires
        p > 1,
    ensures
        fp2_npow(x, m + n, beta, p) == fp2_mul(fp2_npow(x, m, beta, p), fp2_npow(x, n, beta, p), beta, p),
    decreases n,
{
    lemma_small_mod(1, p);
    if n == 0 {
        assert(m + n == m);
        lemma_fp2_mul_one(fp2_npow(x, m, beta, p), beta, p);
    } else {
        lemma_fp2_npow_add(x, m, (n - 1) as nat, beta, p);
        assert((m + n - 1) as nat == m + (n - 1) as nat);
        lemma_fp2_mul_assoc(fp2_npow(x, m, beta, p), fp2_npow(x, (n - 1) as nat, beta, p), x, beta, p);
    }
}

/// Square-and-multiply computes the power one factor at a time would.
proof fn lemma_fp2_pow_is_npow(x: Fp2, e: nat, beta: nat, p: nat)
    requires
        p > 1,
    ensures
        fp2_pow(x, e, beta, p) == fp2_npow(x, e, beta, p),
    decreases e,
{
    if e > 0 {
        let k = e / 2;
        lemma_fp2_pow_is_npow(x, k, beta, p);
        lemma_fp2_npow_add(x, k, k, beta, p);
        if e % 2 == 1 {
            assert(e == (k + k) + 1);
        } else {
            assert(e == k + k);
        }
    }
}

/// Powers in the extension: `x^0 = 1`, `x^(e + 1) = x^e x`, and `x^(m + n) = x^m x^n`,
/// whatever the way `ExtensionFieldElement::pow` computes them.
pub proof fn law_fp2_pow(x: Fp2, m: nat, n: nat, beta: nat, p: nat)
    requires
        p > 1,
    ensures
        fp2_pow(x, 0, beta, p) == (1nat, 0nat),
        fp2_pow(x, m + 1, beta, p) == fp2_mul(fp2_pow(x, m, beta, p), x, beta, p),
        fp2_pow(x, m + n, beta, p) == fp2_mul(fp2_pow(x, m, beta, p), fp2_pow(x, n, beta, p), beta, p),
{
    lemma_fp2_pow_is_npow(x, m, beta, p);
    lemma_fp2_pow_is_npow(x, n, beta, p);
    lemma_fp2_pow_is_npow(x, m + 1, beta, p);
    lemma_fp2_pow_is_npow(x, m + n, beta, p);
    lemma_fp2_npow_add(x, m, n, beta, p);
}

/// Over a prime field of odd characteristic, x-only doubling on the Montgomery curve with
/// coefficient `a` (through `a24 = (a + 2) / 4`) is
/// `2 (X : Z) = ((X^2 - Z^2)^2 : 4 X Z (X^2 + a X Z + Z^2))`.
pub proof fn law_xz_double_formula(pt: Xz, a: nat, p: nat)
    requires
        is_prime(p),
        p > 2,
    ensures
        ({
            let x = pt.0 as int;
            let z = pt.1 as int;
            xz_double(pt, montgomery_a24_of(a, p), p) == (
                residue((x * x - z * z) * (x * x - z * z), p),
                residue(4 * x * z * (x * x + a * x * z + z * z), p),
            )
        }),
{
    let pp = p as int;
    let x = pt.0 as int;
    let z = pt.1 as int;
    let ai = a as int;
    let g = montgomery_a24_of(a, p) as int;
    let s2 = (x + z) * (x + z);
    let d = (x - z) * (x - z);
    let e = 4 * x * z;
    assert(s2 * d == (x * x - z * z) * (x * x - z * z)) by (nonlinear_arith)
        requires
            s2 == (x + z) * (x + z),
            d == (x - z) * (x - z),
    ;
    law_montgomery_a24(a, p);
    lemma_cong_mod(4 * g, pp);
    lemma_cong_mod(ai + 2, pp);
    assert(cong(4 * g, ai + 2, pp));
    lemma_cong_mul(4 * g, x * z, ai + 2, x * z, pp);
    assert(g * e == (4 * g) * (x * z)) by (nonlinear_arith)
        requires
            e == 4 * x * z,
    ;
    lemma_cong_add(d, g * e, d, (ai + 2) * (x * z), pp);
    assert(d + (ai + 2) * (x * z) == x * x + ai * x * z + z * z) by (nonlinear_arith)
        requires
            d == (x - z) * (x - z),
    ;
    lemma_cong_mul(e, d + g * e, e, x * x + ai * x * z + z * z, pp);
    assert(e * (x * x + ai * x * z + z * z) == 4 * x * z * (x * x + ai * x * z + z * z)) by (nonlinear_arith)
        requires
            e == 4 * x * z,
    ;
}

/// The conjugate is the other root's image: `x + conj(x) = 2 c0` and
/// `x conj(x) = c0^2 - beta c1^2` (the norm), both in the base field.
pub proof fn law_fp2_conjugate_trace_norm(x: Fp2, beta: nat, p: nat)
    requires
        p > 0,
        x.0 < p,
        x.1 < p,
    ensures
        fp2_add(x, fp2_conjugate(x, p), p) == ((2 * x.0) % p, 0nat),
        fp2_mul(x, fp2_conjugate(x, p), beta, p) == (
            (((x.0 * x.0) as int - (beta as int) * ((x.1 * x.1) as int)) % (p as int)) as nat,
            0nat,
        ),
{
    let pp = p as int;
    let (a, b, bt) = (x.0 as int, x.1 as int, beta as int);
    let nb = sub_mod(0, x.1, p) as int;
    lemma_cong_mod(0 - b, pp);
    // trace
    lemma_cong_add(a, nb, a, 0 - b, pp);
    lemma_cong_mod(a + nb, pp);
    lemma_small_mod(0, p);
    assert(x.1 + nb == b + nb);
    lemma_cong_add(b, nb, b, 0 - b, pp);
    assert(b + (0 - b) == 0);
    // norm
    lemma_cong_mul(b, nb, b, 0 - b, pp);
    lemma_cong_mul(bt, b * nb, bt, b * (0 - b), pp);
    lemma_cong_add(a * a, bt * (b * nb), a * a, bt * (b * (0 - b)), pp);
    assert(a * a + bt * (b * (0 - b)) == a * a - bt * (b * b)) by (nonlinear_arith);
    lemma_cong_mod(a * a + bt * (b * nb), pp);
    lemma_cong_mul(a, nb, a, 0 - b, pp);
    lemma_cong_add(a * nb, b * a, a * (0 - b), b * a, pp);
    assert(a * (0 - b) + b * a == 0) by (nonlinear_arith);
    assert(2 * x.0 == a + a);
}

} // verus!

//! Prime fields of odd characteristic, with elements kept in Montgomery form.
use vstd::arithmetic::div_mod::*;
use vstd::arithmetic::mul::*;
use vstd::prelude::*;

use crate::limbs::{
    adc, lemma_limbs_nat_bound, lemma_limbs_nat_first, lemma_limbs_nat_lex,
    lemma_limbs_nat_take_all, lemma_limbs_nat_take_step, lemma_limbs_nat_zeros,
    lemma_word_pow_pos, limbs_nat, mac, sub_limbs, word, word_pow, Limbs,
};
use crate::limbs::{
    add_limbs, lemma_limb_bit, lemma_limbs_nat_4, lemma_limbs_nat_8, lemma_limbs_nat_injective,
    lemma_limbs_nat_single, lemma_limbs_nat_split, lemma_shift_step, lemma_word_pow_is_pow2,
};
use crate::modular::{lemma_pow_mod_step, lemma_pow_mod_zero, pow_mod};
use crate::bytes::{bytes_nat, lemma_words_of_bytes, u64_from_le_bytes, u64_to_le_bytes};
use vstd::arithmetic::power2::pow2;
use crate::modular::{
    lemma_mont_value_add, lemma_mont_value_bound, lemma_mont_value_injective, lemma_mont_value_mul,
    lemma_mont_value_sub, lemma_mont_value_to_mont, lemma_radix_inverse, lemma_redc, mont_value,
    radix_inverse, redc_result,
};
use vstd::std_specs::cmp::PartialEqSpecImpl;

verus! {

/// The constants of Montgomery multiplication for one modulus `p` with `n` limbs:
/// `r_squared` is `R^2 mod p` for `R = 2^(64 n)`, and `p_inv` is `-p^(-1) mod 2^64`.
pub struct MontgomeryParams<T: Limbs> {
    pub r_squared: T,
    pub p_inv: u64,
}

impl<T: Limbs> MontgomeryParams<T> {
    pub fn new(r_squared: T, p_inv: u64) -> (r: Self)
        ensures
            r.r_squared == r_squared,
            r.p_inv == p_inv,
    {
        MontgomeryParams { r_squared, p_inv }
    }
}

/// A prime field given by its modulus and Montgomery constants.
pub trait Field: Copy + Clone + core::fmt::Debug + PartialEq + Eq {
    type Limbs: Limbs;

    /// The modulus `p`, least significant limb first.
    const MODULUS: Self::Limbs;

    /// `R^2 mod p`.
    const R_SQUARED: Self::Limbs;

    /// `-p^(-1) mod 2^64`.
    const P_INV: u64;

    /// The Montgomery constants gathered in one value.
    fn params() -> (r: MontgomeryParams<Self::Limbs>)
        ensures
            r.r_squared == Self::R_SQUARED,
            r.p_inv == Self::P_INV,
    {
        MontgomeryParams::new(Self::R_SQUARED, Self::P_INV)
    }
}

/// The modulus `p` of the field.
pub open spec fn modulus<P: Field>() -> nat {
    limbs_nat(P::MODULUS@)
}

/// The number of limbs of an element.
pub open spec fn limb_count<P: Field>() -> nat {
    <P::Limbs as Limbs>::count()
}

/// The Montgomery radix `R = 2^(64 n)`.
pub open spec fn radix<P: Field>() -> nat {
    word_pow(limb_count::<P>())
}

/// `R^(-1) mod p`.
pub open spec fn radix_inv<P: Field>() -> nat {
    radix_inverse(modulus::<P>(), limb_count::<P>())
}

/// What Montgomery multiplication needs of `P`: between one and thirty-two limbs (the
/// arrays that have `Default`), `p` odd and greater than one, and `p_inv * p` equal to
/// `-1` modulo `2^64`.
pub open spec fn mont_params_valid<P: Field>() -> bool {
    let p = modulus::<P>();
    &&& 1 <= limb_count::<P>() <= 32
    &&& p > 1
    &&& p % 2 == 1
    &&& ((P::P_INV as nat) * (P::MODULUS@[0] as nat) + 1) % word() == 0
}

/// The constants of `P` fit together: those of Montgomery multiplication, and
/// `r_squared` is `R^2 mod p`.
pub open spec fn params_valid<P: Field>() -> bool {
    &&& mont_params_valid::<P>()
    &&& limbs_nat(P::R_SQUARED@) == (radix::<P>() * radix::<P>()) % modulus::<P>()
}

/// The field element that a number in Montgomery form stands for.
pub open spec fn from_mont<P: Field>(m: nat) -> nat {
    mont_value(m, radix_inv::<P>(), modulus::<P>())
}

/// `(a - b) mod p`, in `0..p`.
pub open spec fn sub_mod(a: nat, b: nat, p: nat) -> nat {
    (((a as int) - (b as int)) % (p as int)) as nat
}

/// What valid parameters tell: the modulus is below the radix `R`, the limb arrays have
/// the declared length, `R^2 mod p` is reduced, and `R` has an inverse modulo `p`.
pub proof fn lemma_params<P: Field>()
    requires
        params_valid::<P>(),
    ensures
        modulus::<P>() < radix::<P>(),
        1 <= limb_count::<P>() <= 32,
        P::MODULUS@.len() == limb_count::<P>(),
        P::R_SQUARED@.len() == limb_count::<P>(),
        limbs_nat(P::R_SQUARED@) < modulus::<P>(),
        radix_inv::<P>() < modulus::<P>(),
        (radix::<P>() * radix_inv::<P>()) % modulus::<P>() == 1,
        radix::<P>() > 0,
{
    lemma_mont_params::<P>();
    P::R_SQUARED.lemma_len();
    lemma_mod_bound((radix::<P>() * radix::<P>()) as int, modulus::<P>() as int);
}

/// What the constants of Montgomery multiplication tell: the modulus is below the radix
/// `R`, the modulus has the declared number of limbs, and `R` has an inverse modulo `p`.
pub proof fn lemma_mont_params<P: Field>()
    requires
        mont_params_valid::<P>(),
    ensures
        modulus::<P>() < radix::<P>(),
        1 <= limb_count::<P>() <= 32,
        P::MODULUS@.len() == limb_count::<P>(),
        radix_inv::<P>() < modulus::<P>(),
        (radix::<P>() * radix_inv::<P>()) % modulus::<P>() == 1,
        radix::<P>() > 0,
{
    P::MODULUS.lemma_len();
    lemma_limbs_nat_bound(P::MODULUS@);
    lemma_radix_inverse(modulus::<P>(), limb_count::<P>());
    lemma_word_pow_pos(limb_count::<P>());
}

/// Whether `x >= p`, comparing limbs from the most significant one down.
fn ge_modulus<P: Field>(x: &P::Limbs) -> (r: bool)
    requires
        mont_params_valid::<P>(),
    ensures
        r == (limbs_nat(x@) >= modulus::<P>()),
{
    proof {
        lemma_mont_params::<P>();
        x.lemma_len();
    }
    let m = P::MODULUS;
    let n = x.len();
    let mut i = n;
    while i > 0
        invariant
            0 <= i <= n,
            n == limb_count::<P>(),
            x@.len() == n,
            m@ == P::MODULUS@,
            m@.len() == n,
            x@.skip(i as int) == m@.skip(i as int),
        decreases i,
    {
        i = i - 1;
        let xi = x.get(i);
        let mi = m.get(i);
        if xi != mi {
            proof {
                assert(x@.skip(i + 1) == m@.skip(i + 1));
                if xi > mi {
                    lemma_limbs_nat_lex(x@, m@, i as int);
                } else {
                    lemma_limbs_nat_lex(m@, x@, i as int);
                }
            }
            return xi > mi;
        }
        proof {
            assert(x@.skip(i as int) =~= seq![xi].add(x@.skip(i + 1)));
            assert(m@.skip(i as int) =~= seq![mi].add(m@.skip(i + 1)));
        }
    }
    proof {
        assert(x@ =~= x@.skip(0));
        assert(m@ =~= m@.skip(0));
    }
    true
}


/// `t += a * bi` over all limbs; the limb that spills out above the top is returned.
fn mul_acc_row<L: Limbs>(t: &mut L, a: &L, bi: u64) -> (carry: u64)
    ensures
        limbs_nat(final(t)@) + carry * word_pow(L::count()) == limbs_nat(old(t)@) + limbs_nat(a@)
            * bi,
{
    proof {
        t.lemma_len();
        a.lemma_len();
    }
    let ghost t0 = t@;
    let n = a.len();
    let mut carry: u64 = 0;
    let mut j: usize = 0;
    proof {
        assert(limbs_nat(t@.take(0)) == 0);
        assert(limbs_nat(t0.take(0)) == 0);
        assert(limbs_nat(a@.take(0)) == 0);
        assert(0 * bi == 0);
    }
    while j < n
        invariant
            n == L::count(),
            a@.len() == n,
            t@.len() == n,
            t0.len() == n,
            0 <= j <= n,
            forall|k: int| j <= k < n ==> t@[k] == t0[k],
            limbs_nat(t@.take(j as int)) + carry * word_pow(j as nat) == limbs_nat(t0.take(j as int))
                + limbs_nat(a@.take(j as int)) * bi,
        decreases n - j,
    {
        let (lo, hi) = mac(a.get(j), bi, t.get(j), carry);
        let ghost t_before = t@;
        t.set(j, lo);
        proof {
            assert(t@.take(j as int) =~= t_before.take(j as int));
            lemma_limbs_nat_take_step(t@, j as int);
            lemma_limbs_nat_take_step(t0, j as int);
            lemma_limbs_nat_take_step(a@, j as int);
            let bj = word_pow(j as nat);
            assert(word_pow((j + 1) as nat) == word() * bj);
            let aj = a@[j as int] as nat;
            let tj = t0[j as int] as nat;
            let pa = limbs_nat(a@.take(j as int));
            assert(lo + hi * word() == aj * bi + tj + carry);
            assert((lo + hi * word()) * bj == lo * bj + hi * (word() * bj)) by (nonlinear_arith);
            assert((aj * bi + tj + carry) * bj == aj * bi * bj + tj * bj + carry * bj) by (nonlinear_arith);
            assert((pa + aj * bj) * bi == pa * bi + aj * bi * bj) by (nonlinear_arith);
        }
        carry = hi;
        j = j + 1;
    }
    proof {
        lemma_limbs_nat_take_all(t@);
        lemma_limbs_nat_take_all(t0);
        lemma_limbs_nat_take_all(a@);
    }
    carry
}

/// Adds `mm * m` to `t` and shifts the sum down by one limb, given the carry `c0` out of
/// the lowest limb (whose own value is zero). The top limb of `t` is left as it was; the
/// carry out of the top is returned.
fn reduce_row<L: Limbs>(t: &mut L, m: &L, mm: u64, c0: u64) -> (carry: u64)
    requires
        L::count() >= 1,
        c0 * word() == old(t)@[0] + mm * m@[0],
    ensures
        final(t)@.len() == L::count(),
        final(t)@[L::count() - 1] == old(t)@[L::count() - 1],
        limbs_nat(final(t)@.take(L::count() - 1)) * word() + carry * word_pow(L::count())
            == limbs_nat(old(t)@) + mm * limbs_nat(m@),
{
    proof {
        t.lemma_len();
        m.lemma_len();
    }
    let ghost t0 = t@;
    let n = m.len();
    let mut carry: u64 = c0;
    let mut j: usize = 1;
    proof {
        lemma_limbs_nat_take_step(t0, 0);
        lemma_limbs_nat_take_step(m@, 0);
        assert(word_pow(1) == word() * word_pow(0));
        assert(word_pow(0) == 1);
        assert(limbs_nat(t0.take(0)) == 0);
        assert(limbs_nat(m@.take(0)) == 0);
        assert(limbs_nat(t@.take(0)) == 0);
        let x = t0[0] as nat;
        let y = m@[0] as nat;
        assert(x * 1 == x && y * 1 == y) by (nonlinear_arith);
    }
    while j < n
        invariant
            n == L::count(),
            m@.len() == n,
            t@.len() == n,
            t0.len() == n,
            1 <= j <= n,
            forall|k: int| j <= k < n ==> t@[k] == t0[k],
            t@[n - 1] == t0[n - 1],
            limbs_nat(t@.take(j - 1)) * word() + carry * word_pow(j as nat) == limbs_nat(
                t0.take(j as int),
            ) + mm * limbs_nat(m@.take(j as int)),
        decreases n - j,
    {
        let (lo, hi) = mac(mm, m.get(j), t.get(j), carry);
        let ghost t_before = t@;
        t.set(j - 1, lo);
        proof {
            assert(t@.take(j - 1) =~= t_before.take(j - 1));
            lemma_limbs_nat_take_step(t@, j - 1);
            lemma_limbs_nat_take_step(t0, j as int);
            lemma_limbs_nat_take_step(m@, j as int);
            let bj1 = word_pow((j - 1) as nat);
            let bj = word_pow(j as nat);
            assert(bj == word() * bj1);
            assert(word_pow((j + 1) as nat) == word() * bj);
            let mj = m@[j as int] as nat;
            let tj = t0[j as int] as nat;
            let pm = limbs_nat(m@.take(j as int));
            let lt = limbs_nat(t_before.take(j - 1));
            assert(lo + hi * word() == mm * mj + tj + carry);
            assert((lt + lo * bj1) * word() == lt * word() + lo * bj) by (nonlinear_arith)
                requires
                    bj == word() * bj1,
            ;
            assert((lo + hi * word()) * bj == lo * bj + hi * (word() * bj)) by (nonlinear_arith);
            assert((mm * mj + tj + carry) * bj == mm * mj * bj + tj * bj + carry * bj) by (nonlinear_arith);
            assert(mm * (pm + mj * bj) == mm * pm + mm * mj * bj) by (nonlinear_arith);
        }
        carry = hi;
        j = j + 1;
    }
    proof {
        lemma_limbs_nat_take_all(t0);
        lemma_limbs_nat_take_all(m@);
    }
    carry
}

proof fn lemma_mont_tail(
    lt: nat,
    c2: nat,
    l1: nat,
    mm: nat,
    p: nat,
    r: nat,
    bn1: nat,
    h: nat,
    h1: nat,
    sl: nat,
    sh: nat,
    s2l: nat,
    s2h: nat,
)
    requires
        lt * word() + c2 * r == l1 + mm * p,
        sl + sh * word() == h + c2,
        s2l + s2h * word() == h1 + sh,
        r == word() * bn1,
    ensures
        (lt + sl * bn1 + s2l * r + s2h * r * word()) * word() == (l1 + h * r + h1 * r * word()) + mm
            * p,
{
    let w = word();
    assert((lt + sl * bn1 + s2l * r + s2h * r * w) * w == lt * w + sl * r + (s2l + s2h * w) * r
        * w) by (nonlinear_arith)
        requires
            r == w * bn1,
    ;
    assert((s2l + s2h * w) * r * w == (h1 + sh) * r * w);
    assert((h1 + sh) * r * w == h1 * r * w + sh * w * r) by (nonlinear_arith);
    assert(sl * r + sh * w * r == (sl + sh * w) * r) by (nonlinear_arith);
    assert((sl + sh * w) * r == (h + c2) * r);
    assert((h + c2) * r == h * r + c2 * r) by (nonlinear_arith);
}

proof fn lemma_mont_step(
    s0: nat,
    s1: nat,
    s2: nat,
    a: nat,
    bi: nat,
    mm: nat,
    p: nat,
    wi: nat,
    bprefix: nat,
    mq: nat,
    r: nat,
)
    requires
        s0 * wi == a * bprefix + mq * p,
        s1 == s0 + a * bi,
        s2 * word() == s1 + mm * p,
        wi > 0,
        mq < wi,
        mm < word(),
        a < r,
        bi < word(),
        bprefix < wi,
        p > 0,
    ensures
        s2 * (word() * wi) == a * (bprefix + bi * wi) + (mq + mm * wi) * p,
        mq + mm * wi < word() * wi,
        s2 < r + p,
{
    let w = word();
    assert(s2 * (w * wi) == (s1 + mm * p) * wi) by (nonlinear_arith)
        requires
            s2 * w == s1 + mm * p,
    ;
    assert((s1 + mm * p) * wi == s0 * wi + a * bi * wi + mm * p * wi) by (nonlinear_arith)
        requires
            s1 == s0 + a * bi,
    ;
    assert(a * (bprefix + bi * wi) == a * bprefix + a * bi * wi) by (nonlinear_arith);
    assert((mq + mm * wi) * p == mq * p + mm * p * wi) by (nonlinear_arith);
    assert(mq + mm * wi < w * wi) by (nonlinear_arith)
        requires
            mq < wi,
            mm < w,
    ;
    assert(bprefix + bi * wi < w * wi) by (nonlinear_arith)
        requires
            bprefix < wi,
            bi < w,
    ;
    let x = bprefix + bi * wi;
    let y = mq + mm * wi;
    let z = w * wi;
    assert(s2 * z == a * x + y * p);
    assert(a * x + y * p < r * z + z * p) by (nonlinear_arith)
        requires
            a < r,
            x < z,
            y < z,
            p > 0,
    ;
    assert((r + p) * z == r * z + z * p) by (nonlinear_arith);
    assert(s2 * z < (r + p) * z);
    assert(s2 < r + p) by (nonlinear_arith)
        requires
            s2 * z < (r + p) * z,
            z > 0,
    ;
}

/// Montgomery multiplication: `a * b * R^(-1) mod p`, by coarsely integrated operand
/// scanning.
///
/// The result is the Montgomery reduction of `a * b`: reduced below `p` whenever
/// `a * b < R * p`, and below `R` always.
pub fn mont_mul<P: Field>(a: &P::Limbs, b: &P::Limbs) -> (res: P::Limbs)
    requires
        mont_params_valid::<P>(),
    ensures
        redc_result(limbs_nat(res@), limbs_nat(a@) * limbs_nat(b@), modulus::<P>(), radix::<P>()),
{
    proof {
        lemma_mont_params::<P>();
        a.lemma_len();
        b.lemma_len();
    }
    let m = P::MODULUS;
    let p_inv = P::P_INV;
    let n = a.len();
    let ghost p = modulus::<P>();
    let ghost r = radix::<P>();
    let ghost av = limbs_nat(a@);

    let mut t = <P::Limbs as Limbs>::zeroed();
    let mut t_hi: u64 = 0;
    let mut t_hi1: u64 = 0;
    let ghost mut mq: nat = 0;
    proof {
        t.lemma_len();
        lemma_limbs_nat_zeros(n as nat);
        lemma_limbs_nat_bound(a@);
        lemma_limbs_nat_bound(b@);
        assert(b@.take(0).len() == 0);
        assert(limbs_nat(b@.take(0)) == 0);
        assert(word_pow(0) == 1);
    }
    let mut i: usize = 0;
    while i < n
        invariant
            n == limb_count::<P>(),
            a@.len() == n,
            b@.len() == n,
            t@.len() == n,
            m@ == P::MODULUS@,
            p_inv == P::P_INV,
            p == modulus::<P>(),
            r == radix::<P>(),
            av == limbs_nat(a@),
            av < r,
            mont_params_valid::<P>(),
            p < r,
            0 <= i <= n,
            t_hi1 == 0,
            limbs_nat(t@) + t_hi * r < r + p,
            (limbs_nat(t@) + t_hi * r) * word_pow(i as nat) == av * limbs_nat(b@.take(i as int))
                + mq * p,
            mq < word_pow(i as nat),
        decreases n - i,
    {
        let ghost s0: nat = limbs_nat(t@) + (t_hi as nat) * r;
        let ghost l0 = limbs_nat(t@);
        let bi = b.get(i);
        let carry = mul_acc_row(&mut t, a, bi);
        let ghost l1 = limbs_nat(t@);
        let (s_lo, s_hi) = adc(t_hi, carry, false);
        let ghost h_before = t_hi;
        t_hi = s_lo;
        t_hi1 = if s_hi { 1 } else { 0 };
        proof {
            assert(l1 + t_hi * r + t_hi1 * r * word() == s0 + av * bi) by (nonlinear_arith)
                requires
                    l1 + carry * r == l0 + av * bi,
                    s0 == l0 + h_before * r,
                    t_hi + t_hi1 * word() == h_before + carry,
            ;
        }
        let ghost h = t_hi;
        let ghost h1 = t_hi1;
        let ghost t1 = t@;
        let t0 = t.get(0);
        let mm = t0.wrapping_mul(p_inv);
        let (lo0, c) = mac(mm, m.get(0), t0, 0);
        proof {
            lemma_mont_quotient(t0, p_inv, m@[0], mm, lo0, c);
        }
        let carry2 = reduce_row(&mut t, &m, mm, c);
        let ghost lt = limbs_nat(t@.take(n - 1));
        let ghost t_reduced = t@;
        let (sl, sh) = adc(t_hi, carry2, false);
        t.set(n - 1, sl);
        let (s2l, s2h) = adc(t_hi1, if sh { 1 } else { 0 }, false);
        t_hi = s2l;
        t_hi1 = if s2h { 1 } else { 0 };
        proof {
            let bn1 = word_pow((n - 1) as nat);
            assert(r == word() * bn1);
            lemma_limbs_nat_take_all(t@);
            lemma_limbs_nat_take_step(t@, n - 1);
            assert(t@.take(n - 1) =~= t_reduced.take(n - 1));
            let shv: nat = if sh { 1 } else { 0 };
            lemma_mont_tail(lt, carry2 as nat, l1, mm as nat, p, r, bn1, h as nat, h1 as nat, sl as nat, shv, t_hi as nat, t_hi1 as nat);
            let s2: nat = limbs_nat(t@) + (t_hi as nat) * r + (t_hi1 as nat) * r * word();
            assert(limbs_nat(t@) == lt + sl * bn1);
            lemma_word_pow_pos(i as nat);
            lemma_limbs_nat_bound(b@.take(i as int));
            lemma_limbs_nat_take_step(b@, i as int);
            lemma_mont_step(s0, (s0 + av * bi) as nat, s2, av, bi as nat, mm as nat, p, word_pow(i as nat), limbs_nat(b@.take(i as int)), mq, r);
            assert(t_hi1 == 0) by {
                if t_hi1 != 0 {
                    assert(t_hi1 * r * word() >= r * word()) by (nonlinear_arith)
                        requires t_hi1 >= 1, r > 0;
                    assert(r * word() > r + p) by (nonlinear_arith)
                        requires p < r, r > 0;
                }
            }
            assert(word_pow((i + 1) as nat) == word() * word_pow(i as nat));
            mq = (mq + mm * word_pow(i as nat)) as nat;
        }
        i = i + 1;
    }
    proof {
        lemma_limbs_nat_take_all(b@);
    }
    let ghost s = limbs_nat(t@) + t_hi * r;
    let ghost tv = limbs_nat(t@);
    let (diff, borrow) = sub_limbs(&t, &m);
    proof {
        lemma_limbs_nat_bound(t@);
        lemma_limbs_nat_bound(diff@);
        diff.lemma_len();
    }
    let res = if t_hi != 0 || ge_modulus::<P>(&t) {
        proof {
            if t_hi != 0 {
                assert(t_hi == 1) by (nonlinear_arith)
                    requires
                        t_hi >= 1,
                        tv + t_hi * r < r + p,
                        p < r,
                ;
            }
        }
        diff
    } else {
        t
    };
    proof {
        assert(s * r == av * limbs_nat(b@) + mq * p);
        assert(redc_result(limbs_nat(res@), av * limbs_nat(b@), p, r)) by {
            assert(mq < r);
        }
    }
    res
}

/// The lowest limb of `t + mm * p` vanishes when `mm = t0 * p_inv mod 2^64`.
proof fn lemma_mont_quotient(t0: u64, p_inv: u64, p0: u64, mm: u64, lo0: u64, c: u64)
    requires
        ((p_inv as nat) * (p0 as nat) + 1) % word() == 0,
        mm == vstd::wrapping::u64_specs::wrapping_mul(t0, p_inv),
        lo0 + c * word() == mm * p0 + t0,
    ensures
        c * word() == t0 + mm * p0,
{
    let w = word() as int;
    assert(mm as int == ((t0 as int) * (p_inv as int)) % w);
    lemma_mul_mod_noop_left((t0 as int) * (p_inv as int), p0 as int, w);
    assert(((mm as int) * (p0 as int)) % w == ((t0 as int) * (p_inv as int) * (p0 as int)) % w);
    assert((t0 as int) * (p_inv as int) * (p0 as int) + (t0 as int) == (t0 as int) * ((p_inv as int)
        * (p0 as int) + 1)) by (nonlinear_arith);
    lemma_mul_mod_noop_right(t0 as int, (p_inv as int) * (p0 as int) + 1, w);
    assert(((t0 as int) * ((p_inv as int) * (p0 as int) + 1)) % w == 0) by {
        assert(((t0 as int) * 0) % w == 0);
    }
    lemma_add_mod_noop((mm as int) * (p0 as int), t0 as int, w);
    lemma_add_mod_noop((t0 as int) * (p_inv as int) * (p0 as int), t0 as int, w);
    assert(((mm as int) * (p0 as int) + (t0 as int)) % w == 0);
    lemma_fundamental_div_mod_converse(
        (mm as int) * (p0 as int) + (t0 as int),
        w,
        c as int,
        lo0 as int,
    );
    assert(lo0 == 0);
}


/// An element of the prime field `P`, held in Montgomery form `x * R mod p`.
#[derive(Copy, Debug)]
pub struct FieldElement<P: Field> {
    limbs: P::Limbs,
}

/// Feeds `value` to `state` through `core::hash::Hash::hash`. It has no contract: nothing
/// is claimed of what the hasher receives, so the proofs rest on nothing here.
#[verifier::external_body]
pub(crate) fn hash_into<T: core::hash::Hash, H: core::hash::Hasher>(value: &T, state: &mut H) {
    value.hash(state);
}

impl<P: Field> core::hash::Hash for FieldElement<P> {
    /// Hashes the reduced Montgomery form, which determines the element.
    fn hash<H: core::hash::Hasher>(&self, state: &mut H) {
        hash_into(&self.limbs, state);
    }
}

impl<P: Field> FieldElement<P> {
    /// The constants of `P` are valid and the Montgomery form is reduced below `p`.
    #[verifier::type_invariant]
    pub closed spec fn well_formed(self) -> bool {
        params_valid::<P>() && limbs_nat(self.limbs@) < modulus::<P>()
    }
}

impl<P: Field> Clone for FieldElement<P> {
    fn clone(&self) -> (r: Self)
        ensures
            r == *self,
    {
        *self
    }
}

impl<P: Field> View for FieldElement<P> {
    type V = nat;

    /// The residue in `0..p` that the element stands for.
    closed spec fn view(&self) -> nat {
        from_mont::<P>(limbs_nat(self.limbs@))
    }
}

/// The value of every element, even one no constructor made, is a residue below `p`.
pub proof fn lemma_view_reduced<P: Field>(x: FieldElement<P>)
    requires
        modulus::<P>() > 0,
    ensures
        x@ < modulus::<P>(),
{
    lemma_mont_value_bound(limbs_nat(x.limbs@), radix_inv::<P>(), modulus::<P>());
}

/// What a well-formed element tells about its field.
pub proof fn lemma_well_formed<P: Field>(x: FieldElement<P>)
    requires
        x.well_formed(),
    ensures
        params_valid::<P>(),
        x@ < modulus::<P>(),
{
    lemma_params::<P>();
    lemma_mont_value_bound(limbs_nat(x.limbs@), radix_inv::<P>(), modulus::<P>());
}

impl<P: Field> FieldElement<P> {
    fn from_mont_limbs(limbs: P::Limbs) -> (r: Self)
        requires
            params_valid::<P>(),
            limbs_nat(limbs@) < modulus::<P>(),
        ensures
            r.limbs == limbs,
            r@ == from_mont::<P>(limbs_nat(limbs@)),
    {
        FieldElement { limbs }
    }

    /// The element `0`.
    pub fn zero() -> (r: Self)
        requires
            params_valid::<P>(),
        ensures
            r@ == 0,
    {
        Self::from_u64(0)
    }

    /// The element `1`.
    pub fn one() -> (r: Self)
        requires
            params_valid::<P>(),
        ensures
            r@ == 1,
    {
        proof {
            vstd::arithmetic::div_mod::lemma_small_mod(1, modulus::<P>());
        }
        Self::from_u64(1)
    }

    /// The element `2`.
    pub fn two() -> (r: Self)
        requires
            params_valid::<P>(),
        ensures
            r@ == 2nat % modulus::<P>(),
    {
        Self::from_u64(2)
    }

    /// The element `3`.
    pub fn three() -> (r: Self)
        requires
            params_valid::<P>(),
        ensures
            r@ == 3nat % modulus::<P>(),
    {
        Self::from_u64(3)
    }

    /// The element `x mod p`.
    pub fn from_u64(x: u64) -> (r: Self)
        requires
            params_valid::<P>(),
        ensures
            r@ == (x as nat) % modulus::<P>(),
    {
        proof {
            lemma_params::<P>();
        }
        let mut canonical = <P::Limbs as Limbs>::zeroed();
        proof {
            canonical.lemma_len();
        }
        canonical.set(0, x);
        proof {
            crate::limbs::lemma_limbs_nat_single(canonical@);
        }
        Self::from_limbs_unchecked(canonical)
    }

    /// The element whose plain (not Montgomery) representative is the number `canonical`,
    /// reduced modulo `p`.
    pub fn from_limbs_unchecked(canonical: P::Limbs) -> (r: Self)
        requires
            params_valid::<P>(),
        ensures
            r@ == limbs_nat(canonical@) % modulus::<P>(),
    {
        proof {
            lemma_params::<P>();
            canonical.lemma_len();
            lemma_limbs_nat_bound(canonical@);
        }
        let limbs = mont_mul::<P>(&canonical, &P::R_SQUARED);
        proof {
            let c = limbs_nat(canonical@);
            let r2 = limbs_nat(P::R_SQUARED@);
            let p = modulus::<P>();
            let rr = radix::<P>();
            assert(c * r2 < rr * p) by (nonlinear_arith)
                requires
                    c < rr,
                    r2 < p,
            ;
            lemma_redc(limbs_nat(limbs@), c * r2, p, limb_count::<P>());
            lemma_mont_value_to_mont(c, r2, limbs_nat(limbs@), rr, radix_inv::<P>(), p);
        }
        Self::from_mont_limbs(limbs)
    }

    /// `self + rhs`.
    pub fn add(&self, rhs: &Self) -> (r: Self)
        ensures
            r@ == (self@ + rhs@) % modulus::<P>(),
    {
        proof {
            use_type_invariant(self);
            use_type_invariant(rhs);
            lemma_params::<P>();
        }
        let m = P::MODULUS;
        let (sum, carry) = add_limbs(&self.limbs, &rhs.limbs);
        let (diff, borrow) = sub_limbs(&sum, &m);
        let limbs = if carry || !borrow {
            diff
        } else {
            sum
        };
        proof {
            let ma = limbs_nat(self.limbs@);
            let mb = limbs_nat(rhs.limbs@);
            let p = modulus::<P>();
            diff.lemma_len();
            sum.lemma_len();
            lemma_limbs_nat_bound(diff@);
            lemma_limbs_nat_bound(sum@);
            if ma + mb >= p {
                lemma_mod_sub_multiples_vanish((ma + mb) as int, p as int);
                lemma_small_mod((ma + mb - p) as nat, p);
            } else {
                lemma_small_mod(ma + mb, p);
            }
            assert(limbs_nat(limbs@) == (ma + mb) % p);
            lemma_mont_value_add(ma, mb, radix_inv::<P>(), p);
        }
        Self::from_mont_limbs(limbs)
    }

    /// `self - rhs`.
    pub fn sub(&self, rhs: &Self) -> (r: Self)
        ensures
            r@ == sub_mod(self@, rhs@, modulus::<P>()),
    {
        proof {
            use_type_invariant(self);
            use_type_invariant(rhs);
            lemma_params::<P>();
        }
        let m = P::MODULUS;
        let (diff, borrow) = sub_limbs(&self.limbs, &rhs.limbs);
        let limbs = if borrow {
            let (r, _carry) = add_limbs(&diff, &m);
            proof {
                r.lemma_len();
                lemma_limbs_nat_bound(r@);
            }
            r
        } else {
            diff
        };
        proof {
            let ma = limbs_nat(self.limbs@);
            let mb = limbs_nat(rhs.limbs@);
            let p = modulus::<P>();
            diff.lemma_len();
            lemma_limbs_nat_bound(diff@);
            if ma >= mb {
                lemma_small_mod((ma - mb) as nat, p);
            } else {
                lemma_mod_add_multiples_vanish((ma as int) - (mb as int), p as int);
                lemma_small_mod(((ma as int) - (mb as int) + (p as int)) as nat, p);
            }
            assert(limbs_nat(limbs@) == sub_mod(ma, mb, p));
            lemma_mont_value_sub(ma, mb, radix_inv::<P>(), p);
        }
        Self::from_mont_limbs(limbs)
    }

    /// `self * rhs`.
    pub fn mul(&self, rhs: &Self) -> (r: Self)
        ensures
            r@ == (self@ * rhs@) % modulus::<P>(),
    {
        proof {
            use_type_invariant(self);
            use_type_invariant(rhs);
            lemma_params::<P>();
        }
        let limbs = mont_mul::<P>(&self.limbs, &rhs.limbs);
        proof {
            let ma = limbs_nat(self.limbs@);
            let mb = limbs_nat(rhs.limbs@);
            let p = modulus::<P>();
            let rr = radix::<P>();
            assert(ma * mb < rr * p) by (nonlinear_arith)
                requires
                    ma < p,
                    mb < p,
                    p < rr,
            ;
            lemma_redc(limbs_nat(limbs@), ma * mb, p, limb_count::<P>());
            lemma_mont_value_mul(ma, mb, limbs_nat(limbs@), radix_inv::<P>(), p);
        }
        Self::from_mont_limbs(limbs)
    }

    /// `self^exp`, by square-and-multiply from the most significant bit of `exp` down.
    pub fn pow(&self, exp: P::Limbs) -> (r: Self)
        ensures
            r@ == pow_mod(self@, limbs_nat(exp@), modulus::<P>()),
    {
        proof {
            use_type_invariant(self);
            lemma_well_formed(*self);
            lemma_params::<P>();
            exp.lemma_len();
        }
        let ghost x = self@;
        let ghost p = modulus::<P>();
        let ghost e = limbs_nat(exp@);
        let n = exp.len();
        let mut result = Self::one();
        proof {
            lemma_limbs_nat_bound(exp@);
            lemma_word_pow_is_pow2(n as nat);
            vstd::arithmetic::power2::lemma_pow2_pos((64 * n) as nat);
            lemma_basic_div(e as int, pow2((64 * n) as nat) as int);
            lemma_pow_mod_zero(x, p);
        }
        let mut i = n;
        while i > 0
            invariant
                i <= n,
                n == limb_count::<P>(),
                exp@.len() == n,
                e == limbs_nat(exp@),
                x == self@,
                x < p,
                p == modulus::<P>(),
                p > 1,
                result@ == pow_mod(x, e / pow2((64 * i) as nat), p),
            decreases i,
        {
            i = i - 1;
            let limb = exp.get(i);
            let mut bit: u32 = 64;
            while bit > 0
                invariant
                    bit <= 64,
                    i < n,
                    n == limb_count::<P>(),
                    exp@.len() == n,
                    e == limbs_nat(exp@),
                    limb == exp@[i as int],
                    x == self@,
                    x < p,
                    p == modulus::<P>(),
                    p > 1,
                    result@ == pow_mod(x, e / pow2((64 * i + bit) as nat), p),
                decreases bit,
            {
                bit = bit - 1;
                let ghost g = (64 * i + bit) as nat;
                proof {
                    lemma_shift_step(e, g);
                    lemma_limb_bit(exp@, i as int, bit);
                    assert(g + 1 == (64 * i + bit + 1) as nat);
                    lemma_pow_mod_step(x, e / pow2(g + 1), result@, p);
                }
                result = result.mul(&result);
                if (limb >> bit) & 1 == 1 {
                    result = result.mul(self);
                }
            }
        }
        proof {
            vstd::arithmetic::power::lemma_pow0(2);
            assert(pow2(0) == 1);
            assert((64 * i) as nat == 0);
            assert(pow2((64 * i) as nat) == 1);
            assert(e / 1 == e);
        }
        result
    }

    /// `self^(p - 2)`: by Fermat's little theorem the inverse of a nonzero element;
    /// zero is mapped to zero.
    pub fn inv(&self) -> (r: Self)
        ensures
            r@ == pow_mod(self@, (modulus::<P>() - 2) as nat, modulus::<P>()),
    {
        proof {
            use_type_invariant(self);
            lemma_params::<P>();
        }
        let m = P::MODULUS;
        let mut two = <P::Limbs as Limbs>::zeroed();
        proof {
            two.lemma_len();
        }
        two.set(0, 2);
        let (exp, _borrow) = sub_limbs(&m, &two);
        proof {
            lemma_limbs_nat_single(two@);
            exp.lemma_len();
            lemma_limbs_nat_bound(exp@);
            assert(limbs_nat(exp@) == modulus::<P>() - 2);
        }
        self.pow(exp)
    }

    /// Whether the two elements are equal, comparing their limbs.
    pub fn equals(&self, rhs: &Self) -> (r: bool)
        ensures
            r == (self@ == rhs@),
    {
        proof {
            use_type_invariant(self);
            use_type_invariant(rhs);
            lemma_params::<P>();
            self.limbs.lemma_len();
            rhs.limbs.lemma_len();
        }
        let n = self.limbs.len();
        let mut i: usize = 0;
        while i < n
            invariant
                n == limb_count::<P>(),
                self.limbs@.len() == n,
                rhs.limbs@.len() == n,
                0 <= i <= n,
                forall|k: int| 0 <= k < i ==> self.limbs@[k] == rhs.limbs@[k],
                params_valid::<P>(),
                limbs_nat(self.limbs@) < modulus::<P>(),
                limbs_nat(rhs.limbs@) < modulus::<P>(),
            decreases n - i,
        {
            if self.limbs.get(i) != rhs.limbs.get(i) {
                proof {
                    lemma_params::<P>();
                    if self@ == rhs@ {
                        lemma_mont_value_injective(
                            limbs_nat(self.limbs@),
                            limbs_nat(rhs.limbs@),
                            radix::<P>(),
                            radix_inv::<P>(),
                            modulus::<P>(),
                        );
                        crate::limbs::lemma_limbs_nat_injective(self.limbs@, rhs.limbs@);
                    }
                }
                return false;
            }
            i = i + 1;
        }
        proof {
            assert(self.limbs@ =~= rhs.limbs@);
        }
        true
    }
}

/// Fields whose modulus is `3 mod 4`, where `x^((p + 1) / 4)` is a square root of every
/// square `x`.
pub trait Sqrt3Mod4: Field {

}

/// The exponent `(p + 1) / 4` of the square root, computed on limbs (so modulo `R`).
pub open spec fn sqrt_exponent<P: Field>() -> nat {
    ((modulus::<P>() + 1) % radix::<P>()) / 4
}

impl<P: Sqrt3Mod4> FieldElement<P> {
    /// Returns a square root of `self` via `self^((p + 1) / 4)`.
    ///
    /// If `self` is a non-residue the return value is not a true square root; callers
    /// should verify by squaring (`r * r == self`).
    pub fn sqrt(&self) -> (r: Self)
        ensures
            r@ == pow_mod(self@, sqrt_exponent::<P>(), modulus::<P>()),
    {
        proof {
            use_type_invariant(self);
            lemma_params::<P>();
        }
        let m = P::MODULUS;
        let mut one = <P::Limbs as Limbs>::zeroed();
        proof {
            one.lemma_len();
        }
        one.set(0, 1);
        let (mut exp, _carry) = add_limbs(&m, &one);
        let ghost e0 = exp@;
        proof {
            lemma_limbs_nat_single(one@);
            exp.lemma_len();
            lemma_limbs_nat_bound(exp@);
            lemma_word_pow_pos(limb_count::<P>());
            let r = radix::<P>();
            let v = limbs_nat(exp@);
            if _carry {
                lemma_mod_sub_multiples_vanish((modulus::<P>() + 1) as int, r as int);
                lemma_small_mod(v, r);
            } else {
                lemma_small_mod(v, r);
            }
            assert(v == (modulus::<P>() + 1) % r);
            assert(e0.skip(e0.len() as int).len() == 0);
            assert(limbs_nat(e0.skip(e0.len() as int)) == 0);
        }
        let n = exp.len();
        let mut carry: u64 = 0;
        let mut i = n;
        while i > 0
            invariant
                i <= n,
                n == limb_count::<P>(),
                exp@.len() == n,
                e0.len() == n,
                forall|k: int| 0 <= k < i ==> exp@[k] == e0[k],
                carry < 4,
                carry == limbs_nat(e0.skip(i as int)) % 4,
                limbs_nat(exp@.skip(i as int)) == limbs_nat(e0.skip(i as int)) / 4,
            decreases i,
        {
            i = i - 1;
            let v = exp.get(i);
            let next_carry = v & 0b11;
            let ghost before = exp@;
            exp.set(i, (v >> 2) | (carry << 62));
            proof {
                let c = carry;
                assert((v >> 2) | (c << 62) == v / 4 + c * 0x4000000000000000 && v & 0b11 == v % 4)
                    by (bit_vector)
                    requires
                        c < 4,
                ;
                lemma_limbs_nat_first(e0.skip(i as int));
                lemma_limbs_nat_first(exp@.skip(i as int));
                assert(e0.skip(i as int).skip(1) =~= e0.skip(i + 1));
                assert(exp@.skip(i as int).skip(1) =~= before.skip(i + 1));
                let vh = limbs_nat(e0.skip(i + 1));
                assert(v + word() * vh == 4 * (v / 4 + word() * (vh / 4) + c * 0x4000000000000000) + v % 4)
                    by (nonlinear_arith)
                    requires
                        vh == 4 * (vh / 4) + c,
                        v == 4 * (v / 4) + v % 4,
                        word() == 4 * 0x4000000000000000,
                ;
                lemma_fundamental_div_mod(vh as int, 4);
                lemma_fundamental_div_mod(v as int, 4);
                lemma_mod_bound(v as int, 4);
                lemma_div_multiples_vanish_fancy(
                    (v / 4 + word() * (vh / 4) + c * 0x4000000000000000) as int,
                    (v % 4) as int,
                    4,
                );
                lemma_mod_multiples_vanish(
                    (v / 4 + word() * (vh / 4) + c * 0x4000000000000000) as int,
                    (v % 4) as int,
                    4,
                );
                lemma_small_mod((v % 4) as nat, 4);
            }
            carry = next_carry;
        }
        proof {
            assert(exp@.skip(0) =~= exp@);
            assert(e0.skip(0) =~= e0);
        }
        self.pow(exp)
    }
}

impl<P: Field<Limbs = [u64; 4]>> FieldElement<P> {
    /// The element whose plain representative is the little-endian number `bytes`,
    /// reduced modulo `p`.
    pub fn from_bytes_unchecked(bytes: [u8; 32]) -> (r: Self)
        requires
            params_valid::<P>(),
        ensures
            r@ == bytes_nat(bytes@) % modulus::<P>(),
    {
        let canonical = [
            u64_from_le_bytes(&bytes, 0),
            u64_from_le_bytes(&bytes, 8),
            u64_from_le_bytes(&bytes, 16),
            u64_from_le_bytes(&bytes, 24),
        ];
        proof {
            lemma_words_of_bytes(bytes@, canonical@);
        }
        Self::from_limbs_unchecked(canonical)
    }

    /// The plain representative of `self`, in `0..p`, as 32 little-endian bytes.
    pub fn to_bytes_le(&self) -> (r: [u8; 32])
        ensures
            bytes_nat(r@) == self@,
    {
        proof {
            use_type_invariant(self);
            lemma_params::<P>();
        }
        let mut one = [0u64; 4];
        one[0] = 1;
        let canonical = mont_mul::<P>(&self.limbs, &one);
        proof {
            let m = limbs_nat(self.limbs@);
            let p = modulus::<P>();
            assert(one@ =~= seq![1u64, 0u64, 0u64, 0u64]);
            lemma_limbs_nat_single(one@);
            assert(m * 1 < radix::<P>() * p) by (nonlinear_arith)
                requires
                    m < p,
                    p < radix::<P>(),
            ;
            lemma_redc(limbs_nat(canonical@), m * 1, p, limb_count::<P>());
            lemma_small_mod(limbs_nat(canonical@), p);
            assert(m * 1 * radix_inv::<P>() == m * radix_inv::<P>());
        }
        let mut bytes = [0u8; 32];
        u64_to_le_bytes(&mut bytes, 0, canonical[0]);
        u64_to_le_bytes(&mut bytes, 8, canonical[1]);
        u64_to_le_bytes(&mut bytes, 16, canonical[2]);
        u64_to_le_bytes(&mut bytes, 24, canonical[3]);
        proof {
            lemma_words_of_bytes(bytes@, canonical@);
        }
        bytes
    }
}

impl<P: Field> PartialEq for FieldElement<P> {
    fn eq(&self, other: &Self) -> (r: bool) {
        self.equals(other)
    }
}

impl<P: Field> PartialEqSpecImpl for FieldElement<P> {
    open spec fn obeys_eq_spec() -> bool {
        true
    }

    open spec fn eq_spec(&self, other: &Self) -> bool {
        self@ == other@
    }
}

impl<P: Field> Eq for FieldElement<P> {
}

impl<P: Field> core::ops::Add<FieldElement<P>> for FieldElement<P> {
    type Output = FieldElement<P>;

    fn add(self, rhs: FieldElement<P>) -> (r: FieldElement<P>)
        ensures
            r@ == (self@ + rhs@) % modulus::<P>(),
    {
        FieldElement::<P>::add(&self, &rhs)
    }
}

impl<P: Field> vstd::std_specs::ops::AddSpecImpl<FieldElement<P>> for FieldElement<P> {
    open spec fn obeys_add_spec() -> bool {
        false
    }

    open spec fn add_req(self, rhs: FieldElement<P>) -> bool {
        true
    }

    open spec fn add_spec(self, rhs: FieldElement<P>) -> FieldElement<P> {
        arbitrary()
    }
}

impl<P: Field> core::ops::Add<&FieldElement<P>> for FieldElement<P> {
    type Output = FieldElement<P>;

    fn add(self, rhs: &FieldElement<P>) -> (r: FieldElement<P>)
        ensures
            r@ == (self@ + rhs@) % modulus::<P>(),
    {
        FieldElement::<P>::add(&self, rhs)
    }
}

impl<P: Field> vstd::std_specs::ops::AddSpecImpl<&FieldElement<P>> for FieldElement<P> {
    open spec fn obeys_add_spec() -> bool {
        false
    }

    open spec fn add_req(self, rhs: &FieldElement<P>) -> bool {
        true
    }

    open spec fn add_spec(self, rhs: &FieldElement<P>) -> FieldElement<P> {
        arbitrary()
    }
}

/// `&a + b`, computed as `a.add(&b)`. Verus refuses an `ensures` on this impl (its check
/// resolves to the inherent method), so no contract states its result.
impl<P: Field> core::ops::Add<FieldElement<P>> for &FieldElement<P> {
    type Output = FieldElement<P>;

    fn add(self, rhs: FieldElement<P>) -> (r: FieldElement<P>) {
        FieldElement::<P>::add(self, &rhs)
    }
}

impl<P: Field> vstd::std_specs::ops::AddSpecImpl<FieldElement<P>> for &FieldElement<P> {
    open spec fn obeys_add_spec() -> bool {
        false
    }

    open spec fn add_req(self, rhs: FieldElement<P>) -> bool {
        true
    }

    open spec fn add_spec(self, rhs: FieldElement<P>) -> FieldElement<P> {
        arbitrary()
    }
}

impl<P: Field> core::ops::Add<&FieldElement<P>> for &FieldElement<P> {
    type Output = FieldElement<P>;

    fn add(self, rhs: &FieldElement<P>) -> (r: FieldElement<P>)
        ensures
            r@ == (self@ + rhs@) % modulus::<P>(),
    {
        FieldElement::<P>::add(self, rhs)
    }
}

impl<P: Field> vstd::std_specs::ops::AddSpecImpl<&FieldElement<P>> for &FieldElement<P> {
    open spec fn obeys_add_spec() -> bool {
        false
    }

    open spec fn add_req(self, rhs: &FieldElement<P>) -> bool {
        true
    }

    open spec fn add_spec(self, rhs: &FieldElement<P>) -> FieldElement<P> {
        arbitrary()
    }
}

impl<P: Field> core::ops::AddAssign<FieldElement<P>> for FieldElement<P> {
    fn add_assign(&mut self, rhs: FieldElement<P>)
        ensures
            final(self)@ == (old(self)@ + rhs@) % modulus::<P>(),
    {
        *self = FieldElement::<P>::add(self, &rhs);
    }
}

impl<P: Field> core::ops::AddAssign<&FieldElement<P>> for FieldElement<P> {
    fn add_assign(&mut self, rhs: &FieldElement<P>)
        ensures
            final(self)@ == (old(self)@ + rhs@) % modulus::<P>(),
    {
        *self = FieldElement::<P>::add(self, rhs);
    }
}

impl<P: Field> core::ops::Sub<FieldElement<P>> for FieldElement<P> {
    type Output = FieldElement<P>;

    fn sub(self, rhs: FieldElement<P>) -> (r: FieldElement<P>)
        ensures
            r@ == sub_mod(self@, rhs@, modulus::<P>()),
    {
        FieldElement::<P>::sub(&self, &rhs)
    }
}

impl<P: Field> vstd::std_specs::ops::SubSpecImpl<FieldElement<P>> for FieldElement<P> {
    open spec fn obeys_sub_spec() -> bool {
        false
    }

    open spec fn sub_req(self, rhs: FieldElement<P>) -> bool {
        true
    }

    open spec fn sub_spec(self, rhs: FieldElement<P>) -> FieldElement<P> {
        arbitrary()
    }
}

impl<P: Field> core::ops::Sub<&FieldElement<P>> for FieldElement<P> {
    type Output = FieldElement<P>;

    fn sub(self, rhs: &FieldElement<P>) -> (r: FieldElement<P>)
        ensures
            r@ == sub_mod(self@, rhs@, modulus::<P>()),
    {
        FieldElement::<P>::sub(&self, rhs)
    }
}

impl<P: Field> vstd::std_specs::ops::SubSpecImpl<&FieldElement<P>> for FieldElement<P> {
    open spec fn obeys_sub_spec() -> bool {
        false
    }

    open spec fn sub_req(self, rhs: &FieldElement<P>) -> bool {
        true
    }

    open spec fn sub_spec(self, rhs: &FieldElement<P>) -> FieldElement<P> {
        arbitrary()
    }
}

/// `&a - b`, computed as `a.sub(&b)`. Verus refuses an `ensures` on this impl (its check
/// resolves to the inherent method), so no contract states its result.
impl<P: Field> core::ops::Sub<FieldElement<P>> for &FieldElement<P> {
    type Output = FieldElement<P>;

    fn sub(self, rhs: FieldElement<P>) -> (r: FieldElement<P>) {
        FieldElement::<P>::sub(self, &rhs)
    }
}

impl<P: Field> vstd::std_specs::ops::SubSpecImpl<FieldElement<P>> for &FieldElement<P> {
    open spec fn obeys_sub_spec() -> bool {
        false
    }

    open spec fn sub_req(self, rhs: FieldElement<P>) -> bool {
        true
    }

    open spec fn sub_spec(self, rhs: FieldElement<P>) -> FieldElement<P> {
        arbitrary()
    }
}

impl<P: Field> core::ops::Sub<&FieldElement<P>> for &FieldElement<P> {
    type Output = FieldElement<P>;

    fn sub(self, rhs: &FieldElement<P>) -> (r: FieldElement<P>)
        ensures
            r@ == sub_mod(self@, rhs@, modulus::<P>()),
    {
        FieldElement::<P>::sub(self, rhs)
    }
}

impl<P: Field> vstd::std_specs::ops::SubSpecImpl<&FieldElement<P>> for &FieldElement<P> {
    open spec fn obeys_sub_spec() -> bool {
        false
    }

    open spec fn sub_req(self, rhs: &FieldElement<P>) -> bool {
        true
    }

    open spec fn sub_spec(self, rhs: &FieldElement<P>) -> FieldElement<P> {
        arbitrary()
    }
}

impl<P: Field> core::ops::SubAssign<FieldElement<P>> for FieldElement<P> {
    fn sub_assign(&mut self, rhs: FieldElement<P>)
        ensures
            final(self)@ == sub_mod(old(self)@, rhs@, modulus::<P>()),
    {
        *self = FieldElement::<P>::sub(self, &rhs);
    }
}

impl<P: Field> core::ops::SubAssign<&FieldElement<P>> for FieldElement<P> {
    fn sub_assign(&mut self, rhs: &FieldElement<P>)
        ensures
            final(self)@ == sub_mod(old(self)@, rhs@, modulus::<P>()),
    {
        *self = FieldElement::<P>::sub(self, rhs);
    }
}

impl<P: Field> core::ops::Mul<FieldElement<P>> for FieldElement<P> {
    type Output = FieldElement<P>;

    fn mul(self, rhs: FieldElement<P>) -> (r: FieldElement<P>)
        ensures
            r@ == (self@ * rhs@) % modulus::<P>(),
    {
        FieldElement::<P>::mul(&self, &rhs)
    }
}

impl<P: Field> vstd::std_specs::ops::MulSpecImpl<FieldElement<P>> for FieldElement<P> {
    open spec fn obeys_mul_spec() -> bool {
        false
    }

    open spec fn mul_req(self, rhs: FieldElement<P>) -> bool {
        true
    }

    open spec fn mul_spec(self, rhs: FieldElement<P>) -> FieldElement<P> {
        arbitrary()
    }
}

impl<P: Field> core::ops::Mul<&FieldElement<P>> for FieldElement<P> {
    type Output = FieldElement<P>;

    fn mul(self, rhs: &FieldElement<P>) -> (r: FieldElement<P>)
        ensures
            r@ == (self@ * rhs@) % modulus::<P>(),
    {
        FieldElement::<P>::mul(&self, rhs)
    }
}

impl<P: Field> vstd::std_specs::ops::MulSpecImpl<&FieldElement<P>> for FieldElement<P> {
    open spec fn obeys_mul_spec() -> bool {
        false
    }

    open spec fn mul_req(self, rhs: &FieldElement<P>) -> bool {
        true
    }

    open spec fn mul_spec(self, rhs: &FieldElement<P>) -> FieldElement<P> {
        arbitrary()
    }
}

/// `&a * b`, computed as `a.mul(&b)`. Verus refuses an `ensures` on this impl (its check
/// resolves to the inherent method), so no contract states its result.
impl<P: Field> core::ops::Mul<FieldElement<P>> for &FieldElement<P> {
    type Output = FieldElement<P>;

    fn mul(self, rhs: FieldElement<P>) -> (r: FieldElement<P>) {
        FieldElement::<P>::mul(self, &rhs)
    }
}

impl<P: Field> vstd::std_specs::ops::MulSpecImpl<FieldElement<P>> for &FieldElement<P> {
    open spec fn obeys_mul_spec() -> bool {
        false
    }

    open spec fn mul_req(self, rhs: FieldElement<P>) -> bool {
        true
    }

    open spec fn mul_spec(self, rhs: FieldElement<P>) -> FieldElement<P> {
        arbitrary()
    }
}

impl<P: Field> core::ops::Mul<&FieldElement<P>> for &FieldElement<P> {
    type Output = FieldElement<P>;

    fn mul(self, rhs: &FieldElement<P>) -> (r: FieldElement<P>)
        ensures
            r@ == (self@ * rhs@) % modulus::<P>(),
    {
        FieldElement::<P>::mul(self, rhs)
    }
}

impl<P: Field> vstd::std_specs::ops::MulSpecImpl<&FieldElement<P>> for &FieldElement<P> {
    open spec fn obeys_mul_spec() -> bool {
        false
    }

    open spec fn mul_req(self, rhs: &FieldElement<P>) -> bool {
        true
    }

    open spec fn mul_spec(self, rhs: &FieldElement<P>) -> FieldElement<P> {
        arbitrary()
    }
}

impl<P: Field> core::ops::MulAssign<FieldElement<P>> for FieldElement<P> {
    fn mul_assign(&mut self, rhs: FieldElement<P>)
        ensures
            final(self)@ == (old(self)@ * rhs@) % modulus::<P>(),
    {
        *self = FieldElement::<P>::mul(self, &rhs);
    }
}

impl<P: Field> core::ops::MulAssign<&FieldElement<P>> for FieldElement<P> {
    fn mul_assign(&mut self, rhs: &FieldElement<P>)
        ensures
            final(self)@ == (old(self)@ * rhs@) % modulus::<P>(),
    {
        *self = FieldElement::<P>::mul(self, rhs);
    }
}

} // verus!

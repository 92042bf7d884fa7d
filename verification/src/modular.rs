//! Facts of modular arithmetic that the field code relies on.
use vstd::arithmetic::div_mod::*;
use vstd::arithmetic::mul::*;
use vstd::arithmetic::power::*;
use vstd::prelude::*;

use crate::limbs::{lemma_word_pow_is_pow2, lemma_word_pow_pos, word, word_pow};

verus! {

/// The Montgomery reduction of `t`: there is a quotient `m < r` for which
/// `t + m * p` is exactly `s * r`, and the result is `s` less one `p` when `s >= p`.
pub open spec fn redc_result(res: nat, t: nat, p: nat, r: nat) -> bool {
    exists|m: nat, s: nat|
        #![trigger m * p, s * r]
        m < r && s * r == t + m * p && res == (if s >= p {
            (s - p) as nat
        } else {
            s
        })
}

/// The inverse of `2^(64 n)` modulo an odd `p`, as the corresponding power of `(p + 1) / 2`.
pub open spec fn radix_inverse(p: nat, n: nat) -> nat {
    (pow((p + 1) as int / 2, 64 * n) % (p as int)) as nat
}

/// For an odd modulus `p > 1`, `radix_inverse(p, n)` is the inverse of `W^n` modulo `p`.
pub proof fn lemma_radix_inverse(p: nat, n: nat)
    requires
        p > 1,
        p % 2 == 1,
    ensures
        radix_inverse(p, n) < p,
        (word_pow(n) * radix_inverse(p, n)) % p == 1,
{
    let k = 64 * n;
    let h = (p + 1) as int / 2;
    lemma_word_pow_is_pow2(n);
    lemma_mod_bound(pow(h, k), p as int);
    lemma_pow_positive(h, k);
    assert(2 * h == p + 1);
    lemma_pow_distributes(2, h, k);
    lemma_mul_mod_noop_right(pow(2, k), pow(h, k), p as int);
    lemma_pow_mod_noop((p + 1) as int, k, p as int);
    lemma_mod_add_multiples_vanish(1, p as int);
    lemma_small_mod(1, p);
    lemma1_pow(k);
    assert((p + 1) as int % (p as int) == 1) by {
        lemma_mod_add_multiples_vanish(1, p as int);
    }
}

/// What a Montgomery reduction leaves behind, read modulo `p`, and its size.
pub proof fn lemma_redc(res: nat, t: nat, p: nat, n: nat)
    requires
        p > 1,
        p % 2 == 1,
        p < word_pow(n),
        redc_result(res, t, p, word_pow(n)),
    ensures
        res % p == (t * radix_inverse(p, n)) % p,
        t < word_pow(n) * p ==> res < p,
        t < word_pow(n) * word_pow(n) ==> res < word_pow(n),
{
    let r = word_pow(n);
    let ri = radix_inverse(p, n);
    let (m, s) = choose|m: nat, s: nat|
        #![trigger m * p, s * r]
        m < r && s * r == t + m * p && res == (if s >= p {
            (s - p) as nat
        } else {
            s
        });
    lemma_radix_inverse(p, n);
    lemma_word_pow_pos(n);
    // res is congruent to s
    assert(res % p == s % p) by {
        if s >= p {
            lemma_mod_sub_multiples_vanish(s as int, p as int);
        }
    }
    // s * r * ri == (t + m p) * ri, and r * ri is 1 modulo p
    assert((s * r * ri) % p == (t * ri) % p) by {
        assert(s * r * ri == t * ri + (m * ri) * p) by (nonlinear_arith)
            requires
                s * r == t + m * p,
        ;
        lemma_mod_multiples_vanish((m * ri) as int, (t * ri) as int, p as int);
        lemma_mul_is_commutative((m * ri) as int, p as int);
    }
    assert((s * r * ri) % p == s % p) by {
        assert(s * r * ri == s * (r * ri)) by (nonlinear_arith);
        lemma_mul_mod_noop_right(s as int, (r * ri) as int, p as int);
    }
    if t < r * p {
        assert(s < 2 * p) by (nonlinear_arith)
            requires
                s * r == t + m * p,
                t < r * p,
                m < r,
                r > 0,
                p > 0,
        ;
    }
    if t < r * r {
        assert(s < r + p) by (nonlinear_arith)
            requires
                s * r == t + m * p,
                t < r * r,
                m < r,
                r > 0,
                p > 0,
        ;
        lemma_limbs_p_below_radix_helper(res, s, p, r);
    }
}

proof fn lemma_limbs_p_below_radix_helper(res: nat, s: nat, p: nat, r: nat)
    requires
        s < r + p,
        res == (if s >= p {
            (s - p) as nat
        } else {
            s
        }),
        p > 0,
        p < r,
    ensures
        res < r,
{
}


/// The residue that a Montgomery form `m` stands for, given `ri = R^(-1) mod p`.
pub open spec fn mont_value(m: nat, ri: nat, p: nat) -> nat {
    (m * ri) % p
}

/// The value of a Montgomery form is a residue.
pub proof fn lemma_mont_value_bound(m: nat, ri: nat, p: nat)
    requires
        p > 0,
    ensures
        mont_value(m, ri, p) < p,
{
    lemma_mod_bound((m * ri) as int, p as int);
}

/// Adding Montgomery forms adds their values.
pub proof fn lemma_mont_value_add(ma: nat, mb: nat, ri: nat, p: nat)
    requires
        p > 0,
    ensures
        mont_value((ma + mb) % p, ri, p) == (mont_value(ma, ri, p) + mont_value(mb, ri, p)) % p,
{
    lemma_mul_mod_noop_left((ma + mb) as int, ri as int, p as int);
    lemma_mul_is_distributive_add_other_way(ri as int, ma as int, mb as int);
    lemma_add_mod_noop((ma * ri) as int, (mb * ri) as int, p as int);
}

/// Subtracting Montgomery forms subtracts their values.
pub proof fn lemma_mont_value_sub(ma: nat, mb: nat, ri: nat, p: nat)
    requires
        p > 0,
    ensures
        mont_value((((ma as int) - (mb as int)) % (p as int)) as nat, ri, p) == (((mont_value(ma, ri, p) as int)
            - (mont_value(mb, ri, p) as int)) % (p as int)) as nat,
{
    let d = ((ma as int) - (mb as int)) % (p as int);
    lemma_mod_bound((ma as int) - (mb as int), p as int);
    lemma_mul_mod_noop_left((ma as int) - (mb as int), ri as int, p as int);
    lemma_mul_is_distributive_sub_other_way(ri as int, ma as int, mb as int);
    lemma_sub_mod_noop((ma * ri) as int, (mb * ri) as int, p as int);
}

/// A Montgomery product (`a b R^-1`) of two forms is the form of the product of their
/// values.
pub proof fn lemma_mont_value_mul(ma: nat, mb: nat, res: nat, ri: nat, p: nat)
    requires
        p > 0,
        res % p == (ma * mb * ri) % p,
    ensures
        mont_value(res, ri, p) == (mont_value(ma, ri, p) * mont_value(mb, ri, p)) % p,
{
    lemma_mul_mod_noop_left(res as int, ri as int, p as int);
    lemma_mul_mod_noop_left((ma * mb * ri) as int, ri as int, p as int);
    assert(ma * mb * ri * ri == (ma * ri) * (mb * ri)) by (nonlinear_arith);
    lemma_mul_mod_noop((ma * ri) as int, (mb * ri) as int, p as int);
}

/// Two forms in `0..p` with the same value are equal.
pub proof fn lemma_mont_value_injective(ma: nat, mb: nat, r: nat, ri: nat, p: nat)
    requires
        p > 0,
        ma < p,
        mb < p,
        (r * ri) % p == 1,
        mont_value(ma, ri, p) == mont_value(mb, ri, p),
    ensures
        ma == mb,
{
    lemma_mul_mod_noop_left((ma * ri) as int, r as int, p as int);
    lemma_mul_mod_noop_left((mb * ri) as int, r as int, p as int);
    assert(ma * ri * r == ma * (r * ri)) by (nonlinear_arith);
    assert(mb * ri * r == mb * (r * ri)) by (nonlinear_arith);
    lemma_mul_mod_noop_right(ma as int, (r * ri) as int, p as int);
    lemma_mul_mod_noop_right(mb as int, (r * ri) as int, p as int);
    lemma_small_mod(ma, p);
    lemma_small_mod(mb, p);
}

/// Multiplying by `R^2 mod p` and reducing once leaves the form of `c`.
pub proof fn lemma_mont_value_to_mont(c: nat, r2: nat, res: nat, r: nat, ri: nat, p: nat)
    requires
        p > 0,
        (r * ri) % p == 1,
        r2 == (r * r) % p,
        res % p == (c * r2 * ri) % p,
    ensures
        mont_value(res, ri, p) == c % p,
{
    let x = c * ri * ri;
    let y = (r * ri) * (r * ri);
    lemma_mul_mod_noop_left(res as int, ri as int, p as int);
    lemma_mul_mod_noop_left((c * r2 * ri) as int, ri as int, p as int);
    assert(mont_value(res, ri, p) == (c * r2 * ri * ri) % p);
    assert(c * r2 * ri * ri == x * r2) by (nonlinear_arith)
        requires
            x == c * ri * ri,
    ;
    lemma_mul_mod_noop_right(x as int, (r * r) as int, p as int);
    assert((x * r2) % p == (x * (r * r)) % p);
    assert(x * (r * r) == c * y) by (nonlinear_arith)
        requires
            x == c * ri * ri,
            y == (r * ri) * (r * ri),
    ;
    lemma_mul_mod_noop((r * ri) as int, (r * ri) as int, p as int);
    lemma_small_mod(1, p);
    assert(y % p == 1);
    lemma_mul_mod_noop_right(c as int, y as int, p as int);
    assert((c * y) % p == (c * 1) % p);
}


/// `x^e mod p`.
pub open spec fn pow_mod(x: nat, e: nat, p: nat) -> nat {
    (pow(x as int, e) % (p as int)) as nat
}

/// `x^0 mod p = 1` for `p > 1`.
pub proof fn lemma_pow_mod_zero(x: nat, p: nat)
    requires
        p > 1,
    ensures
        pow_mod(x, 0, p) == 1,
{
    lemma_pow0(x as int);
    lemma_small_mod(1, p);
}

/// One step of square-and-multiply, read modulo `p`.
pub proof fn lemma_pow_mod_step(x: nat, q: nat, r: nat, p: nat)
    requires
        p > 0,
        x < p,
        r == pow_mod(x, q, p),
    ensures
        (r * r) % p == pow_mod(x, 2 * q, p),
        (((r * r) % p) * x) % p == pow_mod(x, 2 * q + 1, p),
{
    let y = pow(x as int, q);
    lemma_pow_positive_or_zero(x, q);
    lemma_pow_adds(x as int, q, q);
    assert(q + q == 2 * q);
    lemma_mul_mod_noop(y, y, p as int);
    lemma_pow_adds(x as int, 2 * q, 1);
    lemma_pow1(x as int);
    lemma_mul_mod_noop_left(y * y, x as int, p as int);
    lemma_mod_bound(y, p as int);
}

/// Powers of a natural number are not negative.
pub proof fn lemma_pow_positive_or_zero(x: nat, e: nat)
    ensures
        pow(x as int, e) >= 0,
{
    if x > 0 {
        lemma_pow_positive(x as int, e);
    } else {
        if e == 0 {
            lemma_pow0(0);
        } else {
            lemma0_pow(e);
        }
    }
}


/// Congruence modulo `p`.
pub open spec fn cong(x: int, y: int, p: int) -> bool {
    x % p == y % p
}

/// Congruence is preserved by addition.
pub proof fn lemma_cong_add(x: int, y: int, xx: int, yy: int, p: int)
    requires
        p > 0,
        cong(x, xx, p),
        cong(y, yy, p),
    ensures
        cong(x + y, xx + yy, p),
{
    lemma_add_mod_noop(x, y, p);
    lemma_add_mod_noop(xx, yy, p);
}

/// Congruence is preserved by subtraction.
pub proof fn lemma_cong_sub(x: int, y: int, xx: int, yy: int, p: int)
    requires
        p > 0,
        cong(x, xx, p),
        cong(y, yy, p),
    ensures
        cong(x - y, xx - yy, p),
{
    lemma_sub_mod_noop(x, y, p);
    lemma_sub_mod_noop(xx, yy, p);
}

/// Congruence is preserved by multiplication.
pub proof fn lemma_cong_mul(x: int, y: int, xx: int, yy: int, p: int)
    requires
        p > 0,
        cong(x, xx, p),
        cong(y, yy, p),
    ensures
        cong(x * y, xx * yy, p),
{
    lemma_mul_mod_noop(x, y, p);
    lemma_mul_mod_noop(xx, yy, p);
}

/// A number is congruent to its residue.
pub proof fn lemma_cong_mod(x: int, p: int)
    requires
        p > 0,
    ensures
        cong(x % p, x, p),
        0 <= x % p < p,
{
    lemma_mod_twice(x, p);
    lemma_mod_bound(x, p);
}

/// Two residues in `0..p` that are congruent are equal.
pub proof fn lemma_cong_residues(x: int, y: int, p: int)
    requires
        p > 0,
        0 <= x < p,
        0 <= y < p,
        cong(x, y, p),
    ensures
        x == y,
{
    lemma_small_mod(x as nat, p as nat);
    lemma_small_mod(y as nat, p as nat);
}

/// A sum of residues, reduced, is congruent to the sum of anything congruent to them.
pub proof fn lemma_add_step(r: int, a: int, b: int, ia: int, ib: int, p: int)
    requires
        p > 0,
        r == (a + b) % p,
        cong(a, ia, p),
        cong(b, ib, p),
    ensures
        cong(r, ia + ib, p),
        0 <= r < p,
{
    lemma_cong_add(a, b, ia, ib, p);
    lemma_cong_mod(a + b, p);
}

/// A difference of residues, reduced, is congruent to the difference of anything
/// congruent to them.
pub proof fn lemma_sub_step(r: int, a: int, b: int, ia: int, ib: int, p: int)
    requires
        p > 0,
        r == (a - b) % p,
        cong(a, ia, p),
        cong(b, ib, p),
    ensures
        cong(r, ia - ib, p),
        0 <= r < p,
{
    lemma_cong_sub(a, b, ia, ib, p);
    lemma_cong_mod(a - b, p);
}

/// A product of residues, reduced, is congruent to the product of anything congruent
/// to them.
pub proof fn lemma_mul_step(r: int, a: int, b: int, ia: int, ib: int, p: int)
    requires
        p > 0,
        r == (a * b) % p,
        cong(a, ia, p),
        cong(b, ib, p),
    ensures
        cong(r, ia * ib, p),
        0 <= r < p,
{
    lemma_cong_mul(a, b, ia, ib, p);
    lemma_cong_mod(a * b, p);
}

/// A residue congruent to `v` is `v mod p`.
pub proof fn lemma_cong_to_mod(r: int, v: int, p: int)
    requires
        p > 0,
        0 <= r < p,
        cong(r, v, p),
    ensures
        r == v % p,
{
    lemma_cong_mod(v, p);
    lemma_cong_residues(r, v % p, p);
}

/// Numbers whose difference is a multiple of `p` are congruent, and conversely.
pub proof fn lemma_cong_iff_diff(x: int, y: int, p: int)
    requires
        p > 0,
    ensures
        cong(x, y, p) <==> (x - y) % p == 0,
{
    lemma_sub_mod_noop(x, y, p);
    lemma_mod_bound(x, p);
    lemma_mod_bound(y, p);
    if cong(x, y, p) {
        assert((x % p) - (y % p) == 0);
        lemma_small_mod(0, p as nat);
    } else {
        let d = (x % p) - (y % p);
        assert(-p < d < p && d != 0);
        if d > 0 {
            lemma_small_mod(d as nat, p as nat);
        } else {
            lemma_mod_add_multiples_vanish(d, p);
            lemma_small_mod((d + p) as nat, p as nat);
        }
    }
}

} // verus!

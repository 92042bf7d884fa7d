//! Elementary number theory modulo a prime: inverses, Euclid's lemma, binomial
//! coefficients and Fermat's little theorem.
use vstd::arithmetic::div_mod::*;
use vstd::arithmetic::mul::*;
use vstd::arithmetic::power::*;
use vstd::prelude::*;

use crate::modular::{
    cong, lemma_cong_add, lemma_cong_iff_diff, lemma_cong_mod, lemma_cong_mul, lemma_cong_sub, pow_mod,
};

verus! {

/// `p` is a prime number: greater than one, with no divisor strictly between one and
/// itself.
pub open spec fn is_prime(p: nat) -> bool {
    &&& p > 1
    &&& forall|d: nat| 1 < d < p ==> #[trigger] (p % d) != 0
}

/// Every nonzero residue modulo a prime has an inverse.
pub proof fn lemma_inverse_exists(a: nat, p: nat) -> (s: nat)
    requires
        is_prime(p),
        0 < a < p,
    ensures
        s < p,
        (a * s) % p == 1,
    decreases a,
{
    if a == 1 {
        lemma_small_mod(1, p);
        1
    } else {
        let q = p / a;
        let r = p % a;
        assert(p % a != 0);
        lemma_fundamental_div_mod(p as int, a as int);
        lemma_mod_bound(p as int, a as int);
        let t = lemma_inverse_exists(r, p);
        let pp = p as int;
        let s = ((0 - q * t) % pp) as nat;
        lemma_cong_mod(0 - q * t, pp);
        // r t = (p - q a) t, which is congruent to a (-(q t))
        assert(r * t == p * t + a * (0 - q * t)) by (nonlinear_arith)
            requires
                p == a * q + r,
        ;
        lemma_mod_multiples_vanish(t as int, (a * (0 - q * t)) as int, pp);
        lemma_cong_mul(a as int, s as int, a as int, 0 - q * t, pp);
        lemma_mod_bound(0 - q * t, pp);
        s
    }
}

/// Euclid's lemma: a prime dividing a product divides one of its factors.
pub proof fn lemma_euclid(a: int, b: int, p: nat)
    requires
        is_prime(p),
        (a * b) % (p as int) == 0,
    ensures
        a % (p as int) == 0 || b % (p as int) == 0,
{
    let pp = p as int;
    if a % pp != 0 {
        let ar = a % pp;
        lemma_mod_bound(a, pp);
        let s = lemma_inverse_exists(ar as nat, p);
        lemma_cong_mod(a, pp);
        // b = (s ar) b, congruent to s (a b), congruent to 0
        lemma_small_mod(1, p);
        assert(cong(ar * s, 1, pp));
        lemma_cong_mul(ar * s, b, 1, b, pp);
        lemma_cong_mul(ar, s * b, a, s * b, pp);
        assert((ar * s) * b == ar * (s * b)) by (nonlinear_arith);
        assert(a * (s * b) == s * (a * b)) by (nonlinear_arith);
        lemma_cong_mul(s as int, a * b, s as int, 0, pp);
        lemma_small_mod(0, p);
        assert(1 * b == b);
        assert((s as int) * 0 == 0);
    }
}

/// The binomial coefficient `C(n, k)`, by Pascal's rule.
pub open spec fn binom(n: nat, k: nat) -> nat
    decreases n,
{
    if k == 0 {
        1
    } else if n == 0 {
        0
    } else {
        binom((n - 1) as nat, (k - 1) as nat) + binom((n - 1) as nat, k)
    }
}

/// `C(n, k) = 0` for `k > n`.
proof fn lemma_binom_above(n: nat, k: nat)
    requires
        k > n,
    ensures
        binom(n, k) == 0,
    decreases n,
{
    if n > 0 {
        lemma_binom_above((n - 1) as nat, (k - 1) as nat);
        lemma_binom_above((n - 1) as nat, k);
    }
}

/// `C(n, n) = 1`.
proof fn lemma_binom_diagonal(n: nat)
    ensures
        binom(n, n) == 1,
    decreases n,
{
    if n > 0 {
        lemma_binom_diagonal((n - 1) as nat);
        lemma_binom_above((n - 1) as nat, n);
    }
}

/// The absorption identity `k C(n, k) = n C(n - 1, k - 1)`.
#[verifier::spinoff_prover]
proof fn lemma_binom_absorb(n: nat, k: nat)
    requires
        n >= 1,
        k >= 1,
    ensures
        k * binom(n, k) == n * binom((n - 1) as nat, (k - 1) as nat),
    decreases n,
{
    let m = (n - 1) as nat;
    if m == 0 {
        if k > 1 {
            lemma_binom_above(0, (k - 1) as nat);
            lemma_binom_above(0, k);
        } else {
            lemma_binom_above(0, 1);
        }
    } else {
        lemma_binom_absorb(m, k);
        let b1 = binom(m, (k - 1) as nat);
        let b2 = binom(m, k);
        let c1 = binom((m - 1) as nat, (k - 1) as nat);
        assert(binom(n, k) == b1 + b2);
        if k >= 2 {
            lemma_binom_absorb(m, (k - 1) as nat);
            let c2 = binom((m - 1) as nat, (k - 2) as nat);
            assert(b1 == c2 + c1);
            assert(k * (b1 + b2) == n * b1) by (nonlinear_arith)
                requires
                    k * b2 == m * c1,
                    (k - 1) * b1 == m * c2,
                    b1 == c2 + c1,
                    n == m + 1,
            ;
        } else {
            assert(b1 == 1);
            assert(c1 == 1);
            assert(k * (b1 + b2) == n * b1) by (nonlinear_arith)
                requires
                    k == 1,
                    k * b2 == m * c1,
                    b1 == 1,
                    c1 == 1,
                    n == m + 1,
            ;
        }
    }
}

/// A prime `p` divides `C(p, k)` for `0 < k < p`.
proof fn lemma_prime_divides_binom(p: nat, k: nat)
    requires
        is_prime(p),
        0 < k < p,
    ensures
        binom(p, k) % p == 0,
{
    lemma_binom_absorb(p, k);
    let c = binom((p - 1) as nat, (k - 1) as nat);
    lemma_mod_multiples_basic(c as int, p as int);
    assert((k * binom(p, k)) as int == (p as int) * (c as int));
    lemma_mul_is_commutative(c as int, p as int);
    lemma_euclid(k as int, binom(p, k) as int, p);
    lemma_small_mod(k, p);
}

/// `sum_{j = 0}^{m} C(n, j) a^j`.
pub open spec fn binom_sum(a: int, n: nat, m: nat) -> int
    decreases m,
{
    if m == 0 {
        binom(n, 0) as int
    } else {
        binom_sum(a, n, (m - 1) as nat) + binom(n, m) * pow(a, m)
    }
}

/// Pascal's rule on the partial sums: `S(n + 1, m) = S(n, m) + a S(n, m - 1)`.
#[verifier::spinoff_prover]
proof fn lemma_binom_sum_step(a: int, n: nat, m: nat)
    requires
        m >= 1,
    ensures
        binom_sum(a, n + 1, m) == binom_sum(a, n, m) + a * binom_sum(a, n, (m - 1) as nat),
    decreases m,
{
    reveal(pow);
    let n1 = (n + 1) as nat;
    assert(binom(n1, m) == binom(n, (m - 1) as nat) + binom(n, m));
    if m == 1 {
        assert(pow(a, 1) == a * pow(a, 0));
        assert(pow(a, 0) == 1);
        assert(binom(n1, 0) == 1 && binom(n, 0) == 1);
        let b = binom(n, 1) as int;
        assert(binom(n1, 1) == 1 + b);
        assert(binom_sum(a, n1, 0) == 1);
        assert(binom_sum(a, n, 0) == 1);
        assert(binom_sum(a, n1, 1) == 1 + binom(n1, 1) * pow(a, 1));
        assert(binom_sum(a, n, 1) == 1 + b * pow(a, 1));
        assert(binom_sum(a, n, 0) == 1);
        assert((1 + b) * a == b * a + a * 1) by (nonlinear_arith);
    } else {
        lemma_binom_sum_step(a, n, (m - 1) as nat);
        let s1 = binom_sum(a, n, (m - 1) as nat);
        let s2 = binom_sum(a, n, (m - 2) as nat);
        let b1 = binom(n, (m - 1) as nat) as int;
        let b2 = binom(n, m) as int;
        let pm = pow(a, m);
        let pm1 = pow(a, (m - 1) as nat);
        assert(pm == a * pm1);
        assert(binom_sum(a, n, (m - 1) as nat) == s2 + b1 * pm1);
        assert(binom_sum(a, n, m) == s1 + b2 * pm);
        assert(binom_sum(a, n1, m) == binom_sum(a, n1, (m - 1) as nat) + binom(n1, m) * pm);
        assert(binom_sum(a, n1, (m - 1) as nat) == s1 + a * s2);
        assert((s1 + a * s2) + (b1 + b2) * pm == (s1 + b2 * pm) + a * (s2 + b1 * pm1)) by (nonlinear_arith)
            requires
                pm == a * pm1,
        ;
    }
}

/// The binomial theorem `(a + 1)^n = sum_{j = 0}^{n} C(n, j) a^j`.
proof fn lemma_binomial_theorem(a: int, n: nat)
    ensures
        pow(a + 1, n) == binom_sum(a, n, n),
    decreases n,
{
    reveal(pow);
    if n > 0 {
        let m = (n - 1) as nat;
        lemma_binomial_theorem(a, m);
        lemma_binom_sum_step(a, m, n);
        lemma_binom_above(m, n);
        let s = binom_sum(a, m, m);
        assert(binom_sum(a, m, n) == s + binom(m, n) * pow(a, n));
        assert(pow(a + 1, n) == (a + 1) * pow(a + 1, m));
        assert((a + 1) * s == s + a * s) by (nonlinear_arith);
    }
}

/// Modulo a prime `p`, all the middle terms of `(a + 1)^p` vanish.
proof fn lemma_binom_sum_mod_prime(a: int, p: nat, m: nat)
    requires
        is_prime(p),
        m < p,
    ensures
        binom_sum(a, p, m) % (p as int) == 1,
    decreases m,
{
    let pp = p as int;
    if m == 0 {
        lemma_small_mod(1, p);
    } else {
        lemma_binom_sum_mod_prime(a, p, (m - 1) as nat);
        lemma_prime_divides_binom(p, m);
        let b = binom(p, m) as int;
        let t = b * pow(a, m);
        lemma_cong_mod(b, pp);
        lemma_cong_mul(b, pow(a, m), 0, pow(a, m), pp);
        lemma_small_mod(0, p);
        lemma_small_mod(1, p);
        lemma_cong_add(binom_sum(a, p, (m - 1) as nat), t, 1, 0, pp);
    }
}

/// `a^p = a` modulo a prime `p`, for every natural `a`.
proof fn lemma_frobenius(a: nat, p: nat)
    requires
        is_prime(p),
    ensures
        pow(a as int, p) % (p as int) == (a as int) % (p as int),
    decreases a,
{
    let pp = p as int;
    if a == 0 {
        lemma0_pow(p);
    } else {
        let b = (a - 1) as int;
        lemma_frobenius((a - 1) as nat, p);
        lemma_binomial_theorem(b, p);
        reveal(pow);
        lemma_binom_diagonal(p);
        assert(binom_sum(b, p, p) == binom_sum(b, p, (p - 1) as nat) + binom(p, p) * pow(b, p));
        lemma_binom_sum_mod_prime(b, p, (p - 1) as nat);
        lemma_small_mod(1, p);
        assert(cong(binom_sum(b, p, (p - 1) as nat), 1, pp));
        lemma_cong_add(binom_sum(b, p, (p - 1) as nat), pow(b, p), 1, b, pp);
        assert(b + 1 == a as int);
    }
}

/// Fermat's little theorem: `a^(p - 1) = 1` modulo a prime `p` that does not divide `a`.
pub proof fn lemma_fermat(a: nat, p: nat)
    requires
        is_prime(p),
        a % p != 0,
    ensures
        pow(a as int, (p - 1) as nat) % (p as int) == 1,
{
    let pp = p as int;
    let e = (p - 1) as nat;
    lemma_frobenius(a, p);
    reveal(pow);
    assert(pow(a as int, p) == (a as int) * pow(a as int, e));
    let q = pow(a as int, e);
    // a (q - 1) is a multiple of p
    assert((a as int) * q - (a as int) == (a as int) * (q - 1)) by (nonlinear_arith);
    lemma_cong_iff_diff((a as int) * q, a as int, pp);
    lemma_euclid(a as int, q - 1, p);
    lemma_cong_iff_diff(q, 1, pp);
    lemma_small_mod(1, p);
}

/// `(-1)^k` is `1` for even `k` and `-1` for odd `k`.
pub proof fn lemma_pow_minus_one(k: nat)
    ensures
        pow(-1, k) == (if k % 2 == 0 { 1int } else { -1int }),
    decreases k,
{
    reveal(pow);
    if k > 0 {
        lemma_pow_minus_one((k - 1) as nat);
    }
}

/// `-1` is not a square modulo a prime `p = 3 (mod 4)`.
#[verifier::spinoff_prover]
pub proof fn lemma_minus_one_not_square(c: int, p: nat)
    requires
        is_prime(p),
        p % 4 == 3,
    ensures
        (c * c + 1) % (p as int) != 0,
{
    let pp = p as int;
    if (c * c + 1) % pp == 0 {
        let cr = c % pp;
        lemma_mod_bound(c, pp);
        lemma_cong_mod(c, pp);
        lemma_cong_mul(cr, cr, c, c, pp);
        lemma_small_mod(0, p);
        lemma_small_mod(1, p);
        // c^2 is congruent to -1
        crate::modular::lemma_cong_iff_diff(c * c, -1, pp);
        assert(c * c - (-1) == c * c + 1);
        if cr == 0 {
            assert(cr * cr == 0);
            assert(cong(0, -1, pp));
            lemma_mod_add_multiples_vanish(-1, pp);
            assert((-1 + pp) % pp == pp - 1) by {
                lemma_small_mod((pp - 1) as nat, p);
            }
            assert(false);
        } else {
            lemma_fermat(cr as nat, p);
            let k = ((p - 1) / 2) as nat;
            assert(2 * k == p - 1);
            assert(k % 2 == 1);
            lemma_pow_multiplies(cr, 2, k);
            lemma_square_is_pow2(cr);
            // (c r^2)^k is congruent to (-1)^k = -1
            lemma_pow_mod_noop(cr * cr, k, pp);
            lemma_pow_mod_noop(-1, k, pp);
            lemma_pow_minus_one(k);
            assert(cong(cr * cr, -1, pp));
            assert(pow(-1, k) == -1);
            assert(pow(cr, (p - 1) as nat) % pp == pow(-1, k) % pp);
            lemma_mod_add_multiples_vanish(-1, pp);
            lemma_small_mod((pp - 1) as nat, p);
            assert((-1) % pp == pp - 1);
            assert(false);
        }
    }
}

/// For a prime `p = 3 (mod 4)`, the candidate root `a^((p + 1) / 4)` of a square
/// `a = c^2` squares back to `a`.
pub proof fn lemma_root_of_square(c: nat, p: nat)
    requires
        is_prime(p),
        p % 4 == 3,
    ensures
        ({
            let a = (c * c) % p;
            let s = pow_mod(a, (p + 1) / 4, p);
            (s * s) % p == a
        }),
{
    let pp = p as int;
    let e = (p + 1) / 4;
    assert(4 * e == p + 1);
    let cr = c % p;
    lemma_mod_bound(c as int, pp);
    lemma_mul_mod_noop(c as int, c as int, pp);
    let tt = cr as int;
    let x = (cr * cr) % p;
    assert(x == (c * c) % p);
    lemma_pow_mod_noop(tt * tt, e, pp);
    lemma_square_is_pow2(tt);
    lemma_pow_multiplies(tt, 2, e);
    let q = pow(tt, 2 * e);
    let y = pow_mod(x, e, p) as int;
    assert(y == q % pp);
    lemma_cong_mod(q, pp);
    lemma_cong_mul(y, y, q, q, pp);
    lemma_pow_adds(tt, 2 * e, 2 * e);
    assert(2 * e + 2 * e == (p + 1) as nat);
    lemma_pow_adds(tt, (p - 1) as nat, 2);
    assert((p - 1) as nat + 2 == (p + 1) as nat);
    if cr == 0 {
        lemma0_pow((p + 1) as nat);
        lemma_small_mod(0, p);
    } else {
        lemma_small_mod(cr, p);
        lemma_fermat(cr, p);
        let f = pow(tt, (p - 1) as nat);
        lemma_cong_mod(f, pp);
        lemma_small_mod(1, p);
        lemma_cong_mul(f, tt * tt, 1, tt * tt, pp);
    }
}

/// Two numbers with congruent squares modulo a prime are congruent up to sign.
pub proof fn lemma_square_roots(x: int, c: int, p: nat)
    requires
        is_prime(p),
        cong(x * x, c * c, p as int),
    ensures
        cong(x, c, p as int) || cong(x, 0 - c, p as int),
{
    let pp = p as int;
    lemma_cong_iff_diff(x * x, c * c, pp);
    assert(x * x - c * c == (x - c) * (x + c)) by (nonlinear_arith);
    lemma_euclid(x - c, x + c, p);
    lemma_cong_iff_diff(x, c, pp);
    lemma_cong_iff_diff(x, 0 - c, pp);
    assert(x - (0 - c) == x + c);
}

/// For a prime `p = 3 (mod 4)`: when the candidate root of `a` does not square to `a`,
/// the candidate root of `-a` squares to `-a`.
#[verifier::spinoff_prover]
pub proof fn lemma_root_of_negation(a: nat, p: nat)
    requires
        is_prime(p),
        p % 4 == 3,
        a < p,
        ({
            let s = pow_mod(a, (p + 1) / 4, p);
            (s * s) % p != a
        }),
    ensures
        ({
            let b = ((0 - a) % (p as int)) as nat;
            let s = pow_mod(b, (p + 1) / 4, p);
            (s * s) % p == b
        }),
{
    let pp = p as int;
    let e = (p + 1) / 4;
    let k = ((p - 1) / 2) as nat;
    assert(2 * e == k + 1);
    assert(2 * k == p - 1);
    assert(k % 2 == 1);
    let ai = a as int;
    let s = pow_mod(a, e, p) as int;
    // s^2 is congruent to a^(k + 1) = a a^k
    let q = pow(ai, e);
    lemma_cong_mod(q, pp);
    lemma_cong_mul(s, s, q, q, pp);
    lemma_pow_adds(ai, e, e);
    lemma_pow_adds(ai, k, 1);
    lemma_pow1(ai);
    let h = pow(ai, k);
    assert(q * q == h * ai);
    if a == 0 {
        assert(e > 0);
        lemma0_pow(e);
        lemma_small_mod(0, p);
        assert(s == 0);
        assert(s * s == 0) by (nonlinear_arith)
            requires
                s == 0,
        ;
        assert(false);
    }
    // h^2 = a^(p - 1) = 1, so h is congruent to 1 or -1
    lemma_small_mod(a, p);
    lemma_fermat(a, p);
    lemma_pow_adds(ai, k, k);
    lemma_small_mod(1, p);
    assert(cong(h * h, 1int * 1int, pp));
    lemma_square_roots(h, 1, p);
    if cong(h, 1, pp) {
        lemma_cong_mul(h, ai, 1, ai, pp);
        crate::modular::lemma_cong_to_mod(ai, s * s, pp);
        assert(false);
    }
    assert(cong(h, -1, pp));
    // (-a)^k = (-1)^k a^k = -h, congruent to 1
    let b = ((0 - a) % pp) as nat;
    let bi = b as int;
    lemma_mod_bound(0 - ai, pp);
    lemma_pow_distributes(-1, ai, k);
    lemma_pow_minus_one(k);
    assert((-1) * ai == 0 - ai);
    assert(pow(-1 * ai, k) == pow(-1, k) * pow(ai, k));
    assert(pow(-1, k) * pow(ai, k) == -1 * h);
    assert(pow(0 - ai, k) == -h);
    lemma_pow_mod_noop(0 - ai, k, pp);
    lemma_pow_mod_noop(bi, k, pp);
    lemma_mod_twice(0 - ai, pp);
    let hb = pow(bi, k);
    assert(hb % pp == (-h) % pp);
    lemma_cong_sub(0, h, 0, -1, pp);
    assert(cong(hb, 1, pp));
    // and the root of b squares to b^(k + 1) = b b^k, congruent to b
    let sb = pow_mod(b, e, p) as int;
    let qb = pow(bi, e);
    lemma_cong_mod(qb, pp);
    lemma_cong_mul(sb, sb, qb, qb, pp);
    lemma_pow_adds(bi, e, e);
    lemma_pow_adds(bi, k, 1);
    lemma_pow1(bi);
    assert(qb * qb == hb * bi);
    lemma_cong_mul(hb, bi, 1, bi, pp);
    lemma_small_mod(b, p);
    crate::modular::lemma_cong_to_mod(bi, sb * sb, pp);
}

/// `v^(p - 2)` is the inverse of a nonzero residue `v` modulo a prime `p`.
pub proof fn lemma_fermat_inverse(v: nat, p: nat)
    requires
        is_prime(p),
        0 < v < p,
    ensures
        (v * pow_mod(v, (p - 2) as nat, p)) % p == 1,
{
    let pp = p as int;
    let x = v as int;
    lemma_small_mod(v, p);
    lemma_fermat(v, p);
    lemma_pow_adds(x, 1, (p - 2) as nat);
    lemma_pow1(x);
    assert((1 + (p - 2)) as nat == (p - 1) as nat);
    lemma_cong_mod(pow(x, (p - 2) as nat), pp);
    lemma_cong_mul(x, pow(x, (p - 2) as nat) % pp, x, pow(x, (p - 2) as nat), pp);
}

} // verus!

//! Multi-word unsigned integers stored as little-endian arrays of 64-bit limbs,
//! together with the carry-propagating primitives that field arithmetic is built on.
use vstd::arithmetic::div_mod::*;
use vstd::arithmetic::mul::*;
use vstd::arithmetic::power::*;
use vstd::bits::lemma_u64_shr_is_div;
use vstd::arithmetic::power2::*;
use vstd::prelude::*;

verus! {

/// The radix of one limb, 2^64.
pub open spec fn word() -> nat {
    0x1_0000_0000_0000_0000
}

/// `word()` raised to the `j`-th power: the weight of limb `j`.
pub open spec fn word_pow(j: nat) -> nat
    decreases j,
{
    if j == 0 {
        1
    } else {
        word() * word_pow((j - 1) as nat)
    }
}

/// The natural number denoted by a little-endian sequence of limbs.
pub open spec fn limbs_nat(s: Seq<u64>) -> nat
    decreases s.len(),
{
    if s.len() == 0 {
        0
    } else {
        limbs_nat(s.drop_last()) + (s.last() as nat) * word_pow((s.len() - 1) as nat)
    }
}

/// A fixed-length array of 64-bit limbs.
///
/// Every value of an implementing type has exactly `count()` limbs.
pub trait Limbs: Copy + core::fmt::Debug + PartialEq + Eq + core::hash::Hash + Default + View<V = Seq<u64>> {
    spec fn count() -> nat;

    proof fn lemma_len(&self)
        ensures
            self@.len() == Self::count(),
    ;

    fn len(&self) -> (r: usize)
        ensures
            r == Self::count(),
    ;

    fn get(&self, i: usize) -> (r: u64)
        requires
            i < Self::count(),
        ensures
            r == self@[i as int],
    ;

    fn set(&mut self, i: usize, v: u64)
        requires
            i < Self::count(),
        ensures
            final(self)@ == old(self)@.update(i as int, v),
    ;

    fn zeroed() -> (r: Self)
        ensures
            r@ == Seq::new(Self::count(), |i: int| 0u64),
    ;
}

impl<const N: usize> Limbs for [u64; N] where [u64; N]: Default {
    open spec fn count() -> nat {
        N as nat
    }

    proof fn lemma_len(&self) {
    }

    fn len(&self) -> (r: usize) {
        N
    }

    fn get(&self, i: usize) -> (r: u64) {
        self[i]
    }

    fn set(&mut self, i: usize, v: u64) {
        self[i] = v;
    }

    fn zeroed() -> (r: Self) {
        let r = vstd::array::array_fill_for_copy_types::<u64, N>(0u64);
        assert(r@ =~= Seq::new(N as nat, |i: int| 0u64));
        r
    }
}

// ---------------------------------------------------------------------------
// Lemmas about limb sequences
// ---------------------------------------------------------------------------

/// Powers of the word radix are positive.
pub proof fn lemma_word_pow_pos(j: nat)
    ensures
        word_pow(j) > 0,
    decreases j,
{
    if j > 0 {
        lemma_word_pow_pos((j - 1) as nat);
        lemma_mul_strictly_positive(word() as int, word_pow((j - 1) as nat) as int);
    }
}

/// `W^(a + b) = W^a W^b` for the word radix `W = 2^64`.
pub proof fn lemma_word_pow_add(a: nat, b: nat)
    ensures
        word_pow(a + b) == word_pow(a) * word_pow(b),
    decreases b,
{
    if b == 0 {
        assert(word_pow(a + b) == word_pow(a) * 1);
    } else {
        lemma_word_pow_add(a, (b - 1) as nat);
        assert(word_pow(a + b) == word() * word_pow((a + b - 1) as nat));
        assert((a + b - 1) as nat == a + (b - 1) as nat);
        let x = word_pow(a);
        let y = word_pow((b - 1) as nat);
        assert(word() * (x * y) == x * (word() * y)) by (nonlinear_arith);
    }
}

/// Powers of the word radix grow with the exponent.
pub proof fn lemma_word_pow_mono(a: nat, b: nat)
    requires
        a <= b,
    ensures
        word_pow(a) <= word_pow(b),
{
    lemma_word_pow_add(a, (b - a) as nat);
    lemma_word_pow_pos((b - a) as nat);
    lemma_word_pow_pos(a);
    assert((a + (b - a) as nat) as nat == b);
    lemma_mul_inequality(1, word_pow((b - a) as nat) as int, word_pow(a) as int);
    lemma_mul_is_commutative(word_pow(a) as int, word_pow((b - a) as nat) as int);
}

/// `n` limbs denote a number below `W^n`.
pub proof fn lemma_limbs_nat_bound(s: Seq<u64>)
    ensures
        limbs_nat(s) < word_pow(s.len()),
    decreases s.len(),
{
    if s.len() > 0 {
        let n = (s.len() - 1) as nat;
        lemma_limbs_nat_bound(s.drop_last());
        let lo = limbs_nat(s.drop_last());
        let b = word_pow(n);
        let x = s.last() as nat;
        assert(x <= word() - 1);
        assert(x * b <= (word() - 1) * b) by (nonlinear_arith)
            requires
                x <= word() - 1,
        ;
        assert((word() - 1) * b == word() * b - b) by (nonlinear_arith);
        assert(word_pow(s.len()) == word() * b);
    }
}

/// Appending one limb at position `j` adds its weight.
pub proof fn lemma_limbs_nat_take_step(s: Seq<u64>, j: int)
    requires
        0 <= j < s.len(),
    ensures
        limbs_nat(s.take(j + 1)) == limbs_nat(s.take(j)) + s[j] * word_pow(j as nat),
{
    assert(s.take(j + 1).drop_last() =~= s.take(j));
    assert(s.take(j + 1).last() == s[j]);
}

/// Taking all the limbs changes nothing.
pub proof fn lemma_limbs_nat_take_all(s: Seq<u64>)
    ensures
        limbs_nat(s.take(s.len() as int)) == limbs_nat(s),
{
    assert(s.take(s.len() as int) =~= s);
}

/// Limbs below `k` and limbs from `k` on contribute separately.
pub proof fn lemma_limbs_nat_split(s: Seq<u64>, k: int)
    requires
        0 <= k <= s.len(),
    ensures
        limbs_nat(s) == limbs_nat(s.take(k)) + word_pow(k as nat) * limbs_nat(s.skip(k)),
    decreases s.len(),
{
    if k == s.len() {
        assert(s.take(k) =~= s);
        assert(s.skip(k).len() == 0);
        assert(limbs_nat(s.skip(k)) == 0);
        assert(word_pow(k as nat) * 0 == 0);
    } else {
        let n = s.len();
        lemma_limbs_nat_split(s.drop_last(), k);
        assert(s.drop_last().take(k) =~= s.take(k));
        assert(s.drop_last().skip(k) =~= s.skip(k).drop_last());
        assert(s.skip(k).last() == s.last());
        let hi = limbs_nat(s.skip(k).drop_last());
        let x = s.last() as nat;
        lemma_word_pow_add(k as nat, (n - 1 - k) as nat);
        assert((k as nat + (n - 1 - k) as nat) as nat == (n - 1) as nat);
        let bk = word_pow(k as nat);
        let br = word_pow((n - 1 - k) as nat);
        assert(bk * (hi + x * br) == bk * hi + x * (bk * br)) by (nonlinear_arith);
        assert(s.skip(k).len() - 1 == n - 1 - k);
        assert(limbs_nat(s.skip(k)) == hi + x * br);
        assert(limbs_nat(s.drop_last()) == limbs_nat(s.take(k)) + bk * hi);
        assert(limbs_nat(s) == limbs_nat(s.drop_last()) + x * word_pow((n - 1) as nat));
        assert(word_pow((n - 1) as nat) == bk * br);
    }
}

/// The least significant limb split off from the rest.
pub proof fn lemma_limbs_nat_first(s: Seq<u64>)
    requires
        s.len() >= 1,
    ensures
        limbs_nat(s) == s[0] + word() * limbs_nat(s.skip(1)),
{
    lemma_limbs_nat_split(s, 1);
    assert(s.take(1).drop_last() =~= Seq::<u64>::empty());
    assert(word_pow(0) == 1);
    assert(word_pow(1) == word() * word_pow(0));
    assert(word_pow(1) == word());
    assert(s.take(1).last() == s[0]);
    assert(limbs_nat(s.take(1)) == limbs_nat(s.take(1).drop_last()) + (s[0] as nat) * word_pow(0));
    assert(limbs_nat(s.take(1).drop_last()) == 0);
    let x = s[0] as nat;
    let w0 = word_pow(0);
    assert(x * w0 == x) by (nonlinear_arith)
        requires
            w0 == 1,
    ;
    assert(limbs_nat(s.take(1)) == s[0]);
}

/// Two limb sequences of the same length denote the same number only if they are equal.
pub proof fn lemma_limbs_nat_injective(s: Seq<u64>, t: Seq<u64>)
    requires
        s.len() == t.len(),
        limbs_nat(s) == limbs_nat(t),
    ensures
        s == t,
    decreases s.len(),
{
    if s.len() > 0 {
        let n = (s.len() - 1) as nat;
        let b = word_pow(n);
        lemma_word_pow_pos(n);
        lemma_limbs_nat_bound(s.drop_last());
        lemma_limbs_nat_bound(t.drop_last());
        assert(s.drop_last().len() == n);
        assert(t.drop_last().len() == n);
        lemma_mul_is_commutative(s.last() as int, b as int);
        lemma_mul_is_commutative(t.last() as int, b as int);
        lemma_fundamental_div_mod_converse(
            limbs_nat(s) as int,
            b as int,
            s.last() as int,
            limbs_nat(s.drop_last()) as int,
        );
        lemma_fundamental_div_mod_converse(
            limbs_nat(t) as int,
            b as int,
            t.last() as int,
            limbs_nat(t.drop_last()) as int,
        );
        lemma_limbs_nat_injective(s.drop_last(), t.drop_last());
        assert(s =~= s.drop_last().push(s.last()));
        assert(t =~= t.drop_last().push(t.last()));
    } else {
        assert(s =~= t);
    }
}

/// Comparing from the most significant limb downwards decides the order.
pub proof fn lemma_limbs_nat_lex(s: Seq<u64>, t: Seq<u64>, i: int)
    requires
        s.len() == t.len(),
        0 <= i < s.len(),
        s.skip(i + 1) == t.skip(i + 1),
        s[i] > t[i],
    ensures
        limbs_nat(s) > limbs_nat(t),
{
    lemma_limbs_nat_split(s, i);
    lemma_limbs_nat_split(t, i);
    lemma_limbs_nat_first(s.skip(i));
    lemma_limbs_nat_first(t.skip(i));
    assert(s.skip(i).skip(1) =~= s.skip(i + 1));
    assert(t.skip(i).skip(1) =~= t.skip(i + 1));
    lemma_limbs_nat_bound(t.take(i));
    assert(t.take(i).len() == i);
    let h = limbs_nat(s.skip(i + 1));
    let b = word_pow(i as nat);
    let si = s[i] as nat;
    let ti = t[i] as nat;
    let ls = limbs_nat(s.take(i));
    let lt = limbs_nat(t.take(i));
    assert(b * (si + word() * h) >= b * (ti + word() * h) + b) by (nonlinear_arith)
        requires
            si >= ti + 1,
            b >= 0,
    ;
}

/// A sequence of zeros denotes zero.
pub proof fn lemma_limbs_nat_zeros(n: nat)
    ensures
        limbs_nat(Seq::new(n, |i: int| 0u64)) == 0,
    decreases n,
{
    if n > 0 {
        lemma_limbs_nat_zeros((n - 1) as nat);
        let z = Seq::new(n, |i: int| 0u64);
        assert(z.drop_last() =~= Seq::new((n - 1) as nat, |i: int| 0u64));
        assert(z.last() == 0);
        assert(0 * word_pow((n - 1) as nat) == 0);
        assert(limbs_nat(z) == limbs_nat(z.drop_last()) + (z.last() as nat) * word_pow((n - 1) as nat));
    }
}

/// A sequence whose only nonzero limb is the lowest one denotes that limb.
pub proof fn lemma_limbs_nat_single(s: Seq<u64>)
    requires
        s.len() >= 1,
        forall|i: int| 1 <= i < s.len() ==> s[i] == 0,
    ensures
        limbs_nat(s) == s[0],
{
    lemma_limbs_nat_first(s);
    assert(s.skip(1) =~= Seq::new((s.len() - 1) as nat, |i: int| 0u64));
    lemma_limbs_nat_zeros((s.len() - 1) as nat);
}

/// Four limbs written out.
pub proof fn lemma_limbs_nat_4(a: u64, b: u64, c: u64, d: u64)
    ensures
        limbs_nat(seq![a, b, c, d]) == a + b * word() + c * (word() * word()) + d * (word() * word()
            * word()),
{
    let s1 = seq![a];
    let s2 = seq![a, b];
    let s3 = seq![a, b, c];
    let s4 = seq![a, b, c, d];
    assert(s1.drop_last() =~= Seq::<u64>::empty());
    assert(s2.drop_last() =~= s1);
    assert(s3.drop_last() =~= s2);
    assert(s4.drop_last() =~= s3);
    assert(s1.last() == a && s2.last() == b && s3.last() == c && s4.last() == d);
    assert(word_pow(0) == 1);
    assert(word_pow(1) == word());
    assert(word_pow(2) == word() * word());
    assert(word_pow(3) == word() * (word() * word()));
    assert(limbs_nat(Seq::<u64>::empty()) == 0);
    let w = word();
    assert((a as nat) * 1 == a) by (nonlinear_arith);
    assert(limbs_nat(s1) == a);
    assert(limbs_nat(s2) == a + b * w);
    assert(limbs_nat(s3) == a + b * w + c * (w * w));
    assert(w * (w * w) == w * w * w) by (nonlinear_arith);
    assert(limbs_nat(s4) == a + b * w + c * (w * w) + d * (w * (w * w)));
}

/// Eight limbs, as two halves of four.
pub proof fn lemma_limbs_nat_8(s: Seq<u64>)
    requires
        s.len() == 8,
    ensures
        limbs_nat(s) == limbs_nat(s.take(4)) + word_pow(4) * limbs_nat(s.skip(4)),
{
    lemma_limbs_nat_split(s, 4);
}

/// `W^n = 2^(64 n)`.
pub proof fn lemma_word_pow_is_pow2(n: nat)
    ensures
        word_pow(n) as int == pow(2, 64 * n),
    decreases n,
{
    if n == 0 {
        lemma_pow0(2);
    } else {
        lemma_word_pow_is_pow2((n - 1) as nat);
        assert(pow(2, 64) == word()) by {
            lemma2_to64();
            lemma_pow_positive(2, 64);
        }
        lemma_pow_adds(2, 64, 64 * (n - 1) as nat);
        assert(64 + 64 * (n - 1) as nat == 64 * n);
    }
}

/// `e >> g` is twice `e >> (g + 1)` plus bit `g` of `e`.
pub proof fn lemma_shift_step(e: nat, g: nat)
    ensures
        e / pow2(g) == 2 * (e / pow2(g + 1)) + (e / pow2(g)) % 2,
{
    lemma_pow2_pos(g);
    lemma_pow2_adds(g, 1);
    lemma2_to64();
    lemma_div_denominator(e as int, pow2(g) as int, 2);
    lemma_fundamental_div_mod((e / pow2(g)) as int, 2);
}

/// Bit `64 i + k` of the number a limb sequence denotes is bit `k` of limb `i`.
pub proof fn lemma_limb_bit(s: Seq<u64>, i: int, k: u32)
    requires
        0 <= i < s.len(),
        k < 64,
    ensures
        ((s[i] >> k) & 1) as nat == (limbs_nat(s) / pow2((64 * i + k) as nat)) % 2,
{
    let e = limbs_nat(s);
    let b = word_pow(i as nat);
    let si = s[i] as nat;
    let h = limbs_nat(s.skip(i + 1));
    let low = limbs_nat(s.take(i));
    lemma_limbs_nat_split(s, i);
    lemma_limbs_nat_first(s.skip(i));
    assert(s.skip(i).skip(1) =~= s.skip(i + 1));
    lemma_limbs_nat_bound(s.take(i));
    assert(s.take(i).len() == i);
    lemma_word_pow_pos(i as nat);
    // e / b is the value of the limbs from i on
    lemma_div_multiples_vanish_fancy((si + word() * h) as int, low as int, b as int);
    assert(e / b == si + word() * h);
    // dividing further by 2^k
    lemma_word_pow_is_pow2(i as nat);
    assert(b == pow2((64 * i) as nat));
    lemma_pow2_pos(k as nat);
    lemma_pow2_pos((64 * i) as nat);
    lemma_pow2_adds((64 * i) as nat, k as nat);
    lemma_div_denominator(e as int, b as int, pow2(k as nat) as int);
    assert(((64 * i) as nat + k as nat) as nat == (64 * i + k) as nat);
    let d = pow2(k as nat);
    let c = pow2((64 - k) as nat);
    lemma_pow2_adds(k as nat, (64 - k) as nat);
    assert((k as nat + (64 - k) as nat) as nat == 64);
    lemma2_to64();
    assert(word() == d * c);
    lemma_fundamental_div_mod(si as int, d as int);
    assert(si + word() * h == d * (si / d + c * h) + si % d) by (nonlinear_arith)
        requires
            si == d * (si / d) + si % d,
            word() == d * c,
    ;
    lemma_mod_bound(si as int, d as int);
    lemma_div_multiples_vanish_fancy((si / d + c * h) as int, (si % d) as int, d as int);
    assert(e / pow2((64 * i + k) as nat) == si / d + c * h);
    // c is even, so it does not change the parity
    lemma_pow2_adds(1, (63 - k) as nat);
    assert((1 + (63 - k) as nat) as nat == (64 - k) as nat);
    assert(pow2(1) == 2);
    lemma_mod_multiples_vanish((pow2((63 - k) as nat) * h) as int, (si / d) as int, 2);
    assert(c * h == 2 * (pow2((63 - k) as nat) * h)) by (nonlinear_arith)
        requires
            c == 2 * pow2((63 - k) as nat),
    ;
    // the shift and the mask
    let x = s[i];
    lemma_u64_shr_is_div(x, k as u64);
    assert(x >> k == x >> (k as u64)) by (bit_vector);
    let y = x >> k;
    assert(y & 1 == y % 2) by (bit_vector);
}

// ---------------------------------------------------------------------------
// Single-limb primitives
// ---------------------------------------------------------------------------

/// Add with carry: the two-limb result of `a + b + carry`.
pub fn adc(a: u64, b: u64, carry: bool) -> (r: (u64, bool))
    ensures
        r.0 + (if r.1 { word() } else { 0 }) == a + b + (if carry { 1int } else { 0 }),
{
    let c: u128 = if carry { 1 } else { 0 };
    let s: u128 = (a as u128) + (b as u128) + c;
    let lo = s as u64;
    let hi = s >= 0x1_0000_0000_0000_0000u128;
    assert(lo == s % 0x1_0000_0000_0000_0000) by (bit_vector)
        requires
            lo == s as u64,
    ;
    (lo, hi)
}

/// Subtract with borrow: `a - b - borrow`, with the borrow out weighted by `word()`.
pub fn sbb(a: u64, b: u64, borrow: bool) -> (r: (u64, bool))
    ensures
        r.0 - (if r.1 { word() } else { 0 }) == a - b - (if borrow { 1int } else { 0 }),
{
    let c: u64 = if borrow { 1 } else { 0 };
    if (a as u128) >= (b as u128) + (c as u128) {
        (a - b - c, false)
    } else {
        let d: u128 = (a as u128) + 0x1_0000_0000_0000_0000u128 - (b as u128) - (c as u128);
        (d as u64, true)
    }
}

/// Multiply-accumulate: the two-limb result of `a * b + c + d`.
pub fn mac(a: u64, b: u64, c: u64, d: u64) -> (r: (u64, u64))
    ensures
        r.0 + r.1 * word() == a * b + c + d,
{
    assert((a as u128) * (b as u128) + (c as u128) + (d as u128) <= 0xffff_ffff_ffff_ffff_ffff_ffff_ffff_ffffu128) by (nonlinear_arith)
        requires
            a <= 0xffff_ffff_ffff_ffff,
            b <= 0xffff_ffff_ffff_ffff,
            c <= 0xffff_ffff_ffff_ffff,
            d <= 0xffff_ffff_ffff_ffff,
    ;
    let prod: u128 = (a as u128) * (b as u128) + (c as u128) + (d as u128);
    let lo = prod as u64;
    let hi = (prod >> 64) as u64;
    assert(lo == prod % 0x1_0000_0000_0000_0000 && hi == prod / 0x1_0000_0000_0000_0000) by (bit_vector)
        requires
            lo == prod as u64,
            hi == (prod >> 64) as u64,
    ;
    (lo, hi)
}

// ---------------------------------------------------------------------------
// Whole-array primitives
// ---------------------------------------------------------------------------

/// `a + b` over all limbs; the final carry is returned beside the sum.
pub fn add_limbs<L: Limbs>(a: &L, b: &L) -> (r: (L, bool))
    ensures
        limbs_nat(r.0@) + (if r.1 { word_pow(L::count()) } else { 0 }) == limbs_nat(a@) + limbs_nat(b@),
{
    proof {
        a.lemma_len();
        b.lemma_len();
    }
    let n = a.len();
    let mut sum = L::zeroed();
    let mut c = false;
    let mut i: usize = 0;
    while i < n
        invariant
            n == L::count(),
            a@.len() == n,
            b@.len() == n,
            sum@.len() == n,
            0 <= i <= n,
            limbs_nat(sum@.take(i as int)) + (if c { word_pow(i as nat) } else { 0 })
                == limbs_nat(a@.take(i as int)) + limbs_nat(b@.take(i as int)),
        decreases n - i,
    {
        let (v, nc) = adc(a.get(i), b.get(i), c);
        let ghost old_sum = sum@;
        sum.set(i, v);
        proof {
            assert(sum@.take(i as int) =~= old_sum.take(i as int));
            lemma_limbs_nat_take_step(sum@, i as int);
            lemma_limbs_nat_take_step(a@, i as int);
            lemma_limbs_nat_take_step(b@, i as int);
            let bi = word_pow(i as nat);
            assert(word_pow((i + 1) as nat) == word() * bi);
            let cin: int = if c { 1 } else { 0 };
            let cout: int = if nc { 1 } else { 0 };
            assert(v + cout * word() == a@[i as int] + b@[i as int] + cin);
            assert((v + cout * word()) * bi == v * bi + cout * (word() * bi)) by (nonlinear_arith);
            assert((a@[i as int] + b@[i as int] + cin) * bi == a@[i as int] * bi + b@[i as int] * bi + cin * bi) by (nonlinear_arith);
            let ss = limbs_nat(old_sum.take(i as int));
            assert(limbs_nat(sum@.take(i + 1)) == ss + v * bi);
            assert(ss + cin * bi == limbs_nat(a@.take(i as int)) + limbs_nat(b@.take(i as int)));
            assert(limbs_nat(sum@.take(i + 1)) + cout * (word() * bi) == limbs_nat(a@.take(i + 1))
                + limbs_nat(b@.take(i + 1)));
        }
        c = nc;
        i = i + 1;
    }
    proof {
        lemma_limbs_nat_take_all(sum@);
        lemma_limbs_nat_take_all(a@);
        lemma_limbs_nat_take_all(b@);
    }
    (sum, c)
}

/// `a - b` over all limbs; the final borrow is returned beside the difference.
pub fn sub_limbs<L: Limbs>(a: &L, b: &L) -> (r: (L, bool))
    ensures
        limbs_nat(r.0@) - (if r.1 { word_pow(L::count()) } else { 0 }) == limbs_nat(a@) - limbs_nat(b@),
{
    proof {
        a.lemma_len();
        b.lemma_len();
    }
    let n = a.len();
    let mut diff = L::zeroed();
    let mut br = false;
    let mut i: usize = 0;
    while i < n
        invariant
            n == L::count(),
            a@.len() == n,
            b@.len() == n,
            diff@.len() == n,
            0 <= i <= n,
            limbs_nat(diff@.take(i as int)) - (if br { word_pow(i as nat) } else { 0 })
                == limbs_nat(a@.take(i as int)) - limbs_nat(b@.take(i as int)),
        decreases n - i,
    {
        let (v, nb) = sbb(a.get(i), b.get(i), br);
        let ghost old_diff = diff@;
        diff.set(i, v);
        proof {
            assert(diff@.take(i as int) =~= old_diff.take(i as int));
            lemma_limbs_nat_take_step(diff@, i as int);
            lemma_limbs_nat_take_step(a@, i as int);
            lemma_limbs_nat_take_step(b@, i as int);
            let bi = word_pow(i as nat);
            assert(word_pow((i + 1) as nat) == word() * bi);
            let cin: int = if br { 1 } else { 0 };
            let cout: int = if nb { 1 } else { 0 };
            assert(v - cout * word() == a@[i as int] - b@[i as int] - cin);
            assert((v - cout * word()) * bi == v * bi - cout * (word() * bi)) by (nonlinear_arith);
            assert((a@[i as int] - b@[i as int] - cin) * bi == a@[i as int] * bi - b@[i as int] * bi - cin * bi) by (nonlinear_arith);
            let dd = limbs_nat(old_diff.take(i as int));
            assert(limbs_nat(diff@.take(i + 1)) == dd + v * bi);
            assert(dd - cin * bi == limbs_nat(a@.take(i as int)) - limbs_nat(b@.take(i as int)));
            assert(limbs_nat(diff@.take(i + 1)) - cout * (word() * bi) == limbs_nat(a@.take(i + 1))
                - limbs_nat(b@.take(i + 1)));
        }
        br = nb;
        i = i + 1;
    }
    proof {
        lemma_limbs_nat_take_all(diff@);
        lemma_limbs_nat_take_all(a@);
        lemma_limbs_nat_take_all(b@);
    }
    (diff, br)
}

} // verus!

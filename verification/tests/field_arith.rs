use ectools::field::{Field, FieldElement};
use ectools::fields::{Csidh512FieldOrder, Secp256k1FieldOrder};

type Fp = FieldElement<Secp256k1FieldOrder>;
const P: [u64; 4] = Secp256k1FieldOrder::MODULUS;

fn p_minus(n: u64) -> [u64; 4] {
    [P[0].wrapping_sub(n), P[1], P[2], P[3]]
}

#[test]
fn add_zero_plus_zero() {
    let a = Fp::from_limbs_unchecked([0, 0, 0, 0]);
    let b = Fp::from_limbs_unchecked([0, 0, 0, 0]);
    assert_eq!((a + b), Fp::from_limbs_unchecked([0, 0, 0, 0]));
}

#[test]
fn add_one_plus_one() {
    let a = Fp::from_limbs_unchecked([1, 0, 0, 0]);
    let b = Fp::from_limbs_unchecked([1, 0, 0, 0]);
    assert_eq!((a + b), Fp::from_limbs_unchecked([2, 0, 0, 0]));
}

#[test]
fn add_p_minus_one_plus_one_wraps_to_zero() {
    let a = Fp::from_limbs_unchecked(p_minus(1));
    let b = Fp::from_limbs_unchecked([1, 0, 0, 0]);
    assert_eq!((a + b), Fp::from_limbs_unchecked([0, 0, 0, 0]));
}

#[test]
fn add_overflows_field_order() {
    let a = Fp::from_limbs_unchecked(p_minus(1));
    let b = Fp::from_limbs_unchecked(p_minus(1));
    assert_eq!((a + b), Fp::from_limbs_unchecked(p_minus(2)));
}

#[test]
fn add_assign_value() {
    let mut a = Fp::from_limbs_unchecked([5, 0, 0, 0]);
    let b = Fp::from_limbs_unchecked([7, 0, 0, 0]);
    a += b;
    assert_eq!(a, Fp::from_limbs_unchecked([12, 0, 0, 0]));
}

#[test]
fn add_assign_ref() {
    let mut a = Fp::from_limbs_unchecked(p_minus(3));
    let b = Fp::from_limbs_unchecked([5, 0, 0, 0]);
    a += &b;
    assert_eq!(a, Fp::from_limbs_unchecked([2, 0, 0, 0]));
}

#[test]
fn add_carry_limb0_to_limb1() {
    let a = Fp::from_limbs_unchecked([u64::MAX, 0, 0, 0]);
    let b = Fp::from_limbs_unchecked([1, 0, 0, 0]);
    assert_eq!((a + b), Fp::from_limbs_unchecked([0, 1, 0, 0]));
}

#[test]
fn add_carry_limb1_to_limb2() {
    let a = Fp::from_limbs_unchecked([0, u64::MAX, 0, 0]);
    let b = Fp::from_limbs_unchecked([0, 1, 0, 0]);
    assert_eq!((a + b), Fp::from_limbs_unchecked([0, 0, 1, 0]));
}

#[test]
fn add_carry_chain_across_all_limbs() {
    let a = Fp::from_limbs_unchecked([u64::MAX, u64::MAX, u64::MAX, 0]);
    let b = Fp::from_limbs_unchecked([1, 0, 0, 0]);
    assert_eq!((a + b), Fp::from_limbs_unchecked([0, 0, 0, 1]));
}

#[test]
fn add_intra_limb_carry_with_nonzero_high() {
    let a = Fp::from_limbs_unchecked([u64::MAX, 5, 0, 0]);
    let b = Fp::from_limbs_unchecked([1, 0, 0, 0]);
    assert_eq!((a + b), Fp::from_limbs_unchecked([0, 6, 0, 0]));
}

#[test]
fn add_carry_to_high_limb_below_modulus() {
    let a = Fp::from_limbs_unchecked([u64::MAX, u64::MAX, u64::MAX, 0x7FFFFFFFFFFFFFFF]);
    let b = Fp::from_limbs_unchecked([1, 0, 0, 0]);
    assert_eq!(
        (a + b),
        Fp::from_limbs_unchecked([0, 0, 0, 0x8000000000000000])
    );
}

#[test]
fn sub_simple() {
    let a = Fp::from_limbs_unchecked([5, 0, 0, 0]);
    let b = Fp::from_limbs_unchecked([3, 0, 0, 0]);
    assert_eq!((a - b), Fp::from_limbs_unchecked([2, 0, 0, 0]));
}

#[test]
fn sub_self_is_zero() {
    let a = Fp::from_limbs_unchecked(p_minus(1));
    assert_eq!((a - a), Fp::from_limbs_unchecked([0, 0, 0, 0]));
}

#[test]
fn sub_underflow_wraps_via_modulus() {
    let a = Fp::from_limbs_unchecked([3, 0, 0, 0]);
    let b = Fp::from_limbs_unchecked([5, 0, 0, 0]);
    assert_eq!((a - b), Fp::from_limbs_unchecked(p_minus(2)));
}

#[test]
fn sub_zero_minus_one_is_p_minus_one() {
    let a = Fp::from_limbs_unchecked([0, 0, 0, 0]);
    let b = Fp::from_limbs_unchecked([1, 0, 0, 0]);
    assert_eq!((a - b), Fp::from_limbs_unchecked(p_minus(1)));
}

#[test]
fn sub_borrow_limb1_to_limb0() {
    let a = Fp::from_limbs_unchecked([0, 1, 0, 0]);
    let b = Fp::from_limbs_unchecked([1, 0, 0, 0]);
    assert_eq!((a - b), Fp::from_limbs_unchecked([u64::MAX, 0, 0, 0]));
}

#[test]
fn sub_borrow_chain_across_all_limbs() {
    let a = Fp::from_limbs_unchecked([0, 0, 0, 1]);
    let b = Fp::from_limbs_unchecked([1, 0, 0, 0]);
    assert_eq!(
        (a - b),
        Fp::from_limbs_unchecked([u64::MAX, u64::MAX, u64::MAX, 0])
    );
}

#[test]
fn sub_assign_value() {
    let mut a = Fp::from_limbs_unchecked([10, 0, 0, 0]);
    let b = Fp::from_limbs_unchecked([4, 0, 0, 0]);
    a -= b;
    assert_eq!(a, Fp::from_limbs_unchecked([6, 0, 0, 0]));
}

#[test]
fn sub_assign_ref_with_wrap() {
    let mut a = Fp::from_limbs_unchecked([0, 0, 0, 0]);
    let b = Fp::from_limbs_unchecked([1, 0, 0, 0]);
    a -= &b;
    assert_eq!(a, Fp::from_limbs_unchecked(p_minus(1)));
}

#[test]
fn mul_zero() {
    let a = Fp::from_limbs_unchecked([12345, 6789, 0, 0]);
    let zero = Fp::from_limbs_unchecked([0, 0, 0, 0]);
    assert_eq!((a * zero), Fp::from_limbs_unchecked([0, 0, 0, 0]));
}

#[test]
fn lib_mul_one_is_identity() {
    let a = Fp::from_limbs_unchecked([0xDEAD, 0xBEEF, 0xCAFE, 0xF00D]);
    let one = Fp::from_limbs_unchecked([1, 0, 0, 0]);
    assert_eq!(
        (a * one),
        Fp::from_limbs_unchecked([0xDEAD, 0xBEEF, 0xCAFE, 0xF00D])
    );
}

#[test]
fn mul_small_no_reduction() {
    let a = Fp::from_limbs_unchecked([5, 0, 0, 0]);
    let b = Fp::from_limbs_unchecked([7, 0, 0, 0]);
    assert_eq!((a * b), Fp::from_limbs_unchecked([35, 0, 0, 0]));
}

#[test]
fn mul_2_to_128_squared_reduces_to_c() {
    let a = Fp::from_limbs_unchecked([0, 0, 1, 0]);
    assert_eq!((a * a), Fp::from_limbs_unchecked([0x1_0000_03D1, 0, 0, 0]));
}

#[test]
fn mul_neg_one_squared_is_one() {
    let neg_one = Fp::from_limbs_unchecked(p_minus(1));
    assert_eq!((neg_one * neg_one), Fp::from_limbs_unchecked([1, 0, 0, 0]));
}

#[test]
fn mul_neg_one_times_x_is_neg_x() {
    let neg_one = Fp::from_limbs_unchecked(p_minus(1));
    let x = Fp::from_limbs_unchecked([12345, 0, 0, 0]);
    assert_eq!((neg_one * x), Fp::from_limbs_unchecked(p_minus(12345)));
}

#[test]
fn lib_mul_commutative() {
    let a = Fp::from_limbs_unchecked([0x1234_5678_9ABC_DEF0, 0xFEDC_BA98_7654_3210, 7, 11]);
    let b = Fp::from_limbs_unchecked([0xAAAA_BBBB_CCCC_DDDD, 13, 0, 0xEEEE]);
    assert_eq!(a * b, b * a);
}

#[test]
fn mul_assign_value() {
    let mut a = Fp::from_limbs_unchecked([3, 0, 0, 0]);
    let b = Fp::from_limbs_unchecked([4, 0, 0, 0]);
    a *= b;
    assert_eq!(a, Fp::from_limbs_unchecked([12, 0, 0, 0]));
}

#[test]
fn mul_assign_ref() {
    let mut a = Fp::from_limbs_unchecked(p_minus(1));
    let b = Fp::from_limbs_unchecked(p_minus(1));
    a *= &b;
    assert_eq!(a, Fp::from_limbs_unchecked([1, 0, 0, 0]));
}

#[test]
fn pow_by_zero_is_one() {
    let a = Fp::from_limbs_unchecked([12345, 67890, 0, 0]);
    assert_eq!(a.pow([0, 0, 0, 0]), Fp::from_limbs_unchecked([1, 0, 0, 0]));
}

#[test]
fn pow_by_one_is_identity() {
    let a = Fp::from_limbs_unchecked([0xDEAD, 0xBEEF, 0xCAFE, 0xF00D]);
    assert_eq!(
        a.pow([1, 0, 0, 0]),
        Fp::from_limbs_unchecked([0xDEAD, 0xBEEF, 0xCAFE, 0xF00D])
    );
}

#[test]
fn pow_by_two_equals_square() {
    let a = Fp::from_limbs_unchecked([7, 0, 0, 0]);
    assert_eq!(a.pow([2, 0, 0, 0]), a * a);
}

#[test]
fn lib_inv_of_one_is_one() {
    assert_eq!(Fp::one().inv(), Fp::from_limbs_unchecked([1, 0, 0, 0]));
}

#[test]
fn inv_of_neg_one_is_neg_one() {
    let neg_one = Fp::from_limbs_unchecked(p_minus(1));
    assert_eq!(neg_one.inv(), Fp::from_limbs_unchecked(p_minus(1)));
}

#[test]
fn x_times_inv_x_is_one_small() {
    let a = Fp::from_limbs_unchecked([7, 0, 0, 0]);
    assert_eq!((a * a.inv()), Fp::from_limbs_unchecked([1, 0, 0, 0]));
}

#[test]
fn x_times_inv_x_is_one_multi_limb() {
    let a = Fp::from_limbs_unchecked([0xDEAD_BEEF_CAFE_F00D, 0xABCD, 0x1234, 0x5678]);
    assert_eq!((a * a.inv()), Fp::from_limbs_unchecked([1, 0, 0, 0]));
}

#[test]
fn inv_of_zero_is_zero() {
    let zero = Fp::from_limbs_unchecked([0, 0, 0, 0]);
    assert_eq!(zero.inv(), Fp::from_limbs_unchecked([0, 0, 0, 0]));
}

#[test]
fn from_bytes_little_endian() {
    let mut bytes = [0u8; 32];
    bytes[0] = 0x2F;
    bytes[1] = 0xFC;
    bytes[2] = 0xFF;
    bytes[3] = 0xFF;
    bytes[4] = 0xFE;
    bytes[5] = 0xFF;
    bytes[6] = 0xFF;
    bytes[7] = 0xFF;
    for i in bytes.iter_mut().skip(8) {
        *i = 0xFF;
    }
    let a = Fp::from_bytes_unchecked(bytes);
    assert_eq!(a, Fp::from_limbs_unchecked(P));
}

#[test]
fn lib_sqrt_of_zero_is_zero() {
    assert_eq!(Fp::zero().sqrt(), Fp::zero());
}

#[test]
fn lib_sqrt_of_one_squares_to_one() {
    let r = Fp::one().sqrt();
    assert_eq!(r * r, Fp::one());
}

#[test]
fn sqrt_of_secp256k1_square_roundtrips() {
    let x = Fp::from_u64(42);
    let x2 = x * x;
    let r = x2.sqrt();
    assert_eq!(r * r, x2);
}

#[test]
fn sqrt_of_secp256k1_multilimb_square_roundtrips() {
    let x = Fp::from_limbs_unchecked([0xDEAD_BEEF_CAFE_F00D, 0xABCD, 0x1234, 0x5678]);
    let x2 = x * x;
    let r = x2.sqrt();
    assert_eq!(r * r, x2);
}

#[test]
fn sqrt_of_non_residue_does_not_square_back() {
    // 3 is a non-residue mod p_{secp256k1}. Sqrt gives some r with r² ≠ 3.
    // (We rely on this behavior for the QR test in CSIDH point sampling.)
    let three = Fp::from_u64(3);
    let r = three.sqrt();
    assert_ne!(r * r, three);
}

type Fc = FieldElement<Csidh512FieldOrder>;

#[test]
fn csidh_sqrt_of_zero_is_zero() {
    assert_eq!(Fc::zero().sqrt(), Fc::zero());
}

#[test]
fn csidh_sqrt_of_one_squares_to_one() {
    let r = Fc::one().sqrt();
    assert_eq!(r * r, Fc::one());
}

#[test]
fn csidh_sqrt_of_small_square_roundtrips() {
    let x = Fc::from_u64(1234567);
    let x2 = x * x;
    let r = x2.sqrt();
    assert_eq!(r * r, x2);
}

#[test]
fn csidh_sqrt_of_multilimb_square_roundtrips() {
    let x = Fc::from_limbs_unchecked([
        0x0123_4567_89AB_CDEF,
        0xFEDC_BA98_7654_3210,
        0x1111_2222_3333_4444,
        0x5555_6666_7777_8888,
        0x9999_AAAA_BBBB_CCCC,
        0xDEAD_BEEF_CAFE_F00D,
        0x0F0F_F0F0_5A5A_A5A5,
        0x0000_0001_0000_0001,
    ]);
    let x2 = x * x;
    let r = x2.sqrt();
    assert_eq!(r * r, x2);
}

#[test]
fn csidh_modulus_is_congruent_to_3_mod_4() {
    // Precondition for the sqrt formula: p ≡ 3 (mod 4).
    assert_eq!(Csidh512FieldOrder::MODULUS[0] & 0b11, 0b11);
}

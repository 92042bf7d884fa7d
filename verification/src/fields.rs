//! The concrete fields: the secp256k1 base field and group order, and the CSIDH-512
//! base field, with proofs that their Montgomery constants are right.
use vstd::prelude::*;

use crate::field::{modulus, params_valid, radix, Field, Sqrt3Mod4};
use crate::limbs::{lemma_limbs_nat_4, lemma_limbs_nat_8, lemma_word_pow_add, limbs_nat, word, word_pow};

verus! {

/// The base field of secp256k1, `p = 2^256 - 2^32 - 977`.
#[derive(Debug, Clone, Copy, PartialEq, Eq, Hash)]
pub struct Secp256k1FieldOrder;

impl Field for Secp256k1FieldOrder {
    type Limbs = [u64; 4];

    const MODULUS: [u64; 4] = [
        0xFFFFFFFEFFFFFC2F,
        0xFFFFFFFFFFFFFFFF,
        0xFFFFFFFFFFFFFFFF,
        0xFFFFFFFFFFFFFFFF,
    ];

    const R_SQUARED: [u64; 4] = [
        0x000007A2000E90A1,
        0x0000000000000001,
        0x0000000000000000,
        0x0000000000000000,
    ];

    const P_INV: u64 = 0xD838091DD2253531;
}


/// The order of the secp256k1 group,
/// `n = 0xFFFFFFFFFFFFFFFFFFFFFFFFFFFFFFFEBAAEDCE6AF48A03BBFD25E8CD0364141`.
#[derive(Debug, Clone, Copy, PartialEq, Eq, Hash)]
pub struct Secp256k1GroupOrder;

impl Field for Secp256k1GroupOrder {
    type Limbs = [u64; 4];

    const MODULUS: [u64; 4] = [
        0xBFD25E8CD0364141,
        0xBAAEDCE6AF48A03B,
        0xFFFFFFFFFFFFFFFE,
        0xFFFFFFFFFFFFFFFF,
    ];

    const R_SQUARED: [u64; 4] = [
        0x896CF21467D7D140,
        0x741496C20E7CF878,
        0xE697F5E45BCD07C6,
        0x9D671CD581C69BC5,
    ];

    const P_INV: u64 = 0x4B0DFF665588B13F;
}


/// The CSIDH-512 base field: `p = 4 * (l_1 * ... * l_74) - 1`, where the `l_i` are the
/// 74 small odd primes `3, 5, ..., 373, 587`; `p` has 511 bits and `p = 3 (mod 4)`.
#[derive(Debug, Clone, Copy, PartialEq, Eq, Hash)]
pub struct Csidh512FieldOrder;

impl Field for Csidh512FieldOrder {
    type Limbs = [u64; 8];

    const MODULUS: [u64; 8] = [
        0x1B81B90533C6C87B,
        0xC2721BF457ACA835,
        0x516730CC1F0B4F25,
        0xA7AAC6C567F35507,
        0x5AFBFCC69322C9CD,
        0xB42D083AEDC88C42,
        0xFC8AB0D15E3E4C4A,
        0x65B48E8F740F89BF,
    ];

    const R_SQUARED: [u64; 8] = [
        0x36905B572FFC1724,
        0x67086F4525F1F27D,
        0x4FAF3FBFD22370CA,
        0x192EA214BCC584B1,
        0x5DAE03EE2F5DE3D0,
        0x1E9248731776B371,
        0xAD5F166E20E4F52D,
        0x4ED759AEA6F3917E,
    ];

    const P_INV: u64 = 0x66C1301F632E294D;
}


/// The limbs of the secp256k1 base field modulus denote `2^256 - 2^32 - 977`.
#[verifier::spinoff_prover]
pub proof fn lemma_secp256k1_field_modulus_value()
    ensures
        limbs_nat(Secp256k1FieldOrder::MODULUS@) == 0xFFFFFFFFFFFFFFFFFFFFFFFFFFFFFFFFFFFFFFFFFFFFFFFFFFFFFFFEFFFFFC2Fnat,
{
    let v = Secp256k1FieldOrder::MODULUS;
    assert(v@ =~= seq![0xFFFFFFFEFFFFFC2Fu64, 0xFFFFFFFFFFFFFFFFu64, 0xFFFFFFFFFFFFFFFFu64, 0xFFFFFFFFFFFFFFFFu64]);
    lemma_limbs_nat_4(0xFFFFFFFEFFFFFC2Fu64, 0xFFFFFFFFFFFFFFFFu64, 0xFFFFFFFFFFFFFFFFu64, 0xFFFFFFFFFFFFFFFFu64);
}

#[verifier::spinoff_prover]
proof fn lemma_secp256k1_field_r_squared_value()
    ensures
        limbs_nat(Secp256k1FieldOrder::R_SQUARED@) == 0x1000007A2000E90A1nat,
{
    let v = Secp256k1FieldOrder::R_SQUARED;
    assert(v@ =~= seq![0x7A2000E90A1u64, 0x1u64, 0x0u64, 0x0u64]);
    lemma_limbs_nat_4(0x7A2000E90A1u64, 0x1u64, 0x0u64, 0x0u64);
}

/// The constants of the secp256k1 base field are valid.
#[verifier::spinoff_prover]
pub proof fn lemma_secp256k1_field_params()
    ensures
        params_valid::<Secp256k1FieldOrder>(),
{
    lemma_secp256k1_field_modulus_value();
    lemma_secp256k1_field_r_squared_value();
    lemma_word_pow_4();
    assert(Secp256k1FieldOrder::MODULUS@[0] == 0xFFFFFFFEFFFFFC2Fu64);
    assert((0x10000000000000000000000000000000000000000000000000000000000000000nat * 0x10000000000000000000000000000000000000000000000000000000000000000nat) % 0xFFFFFFFFFFFFFFFFFFFFFFFFFFFFFFFFFFFFFFFFFFFFFFFFFFFFFFFEFFFFFC2Fnat == 0x1000007A2000E90A1nat);
    assert(((0xD838091DD2253531u64 as nat) * (0xFFFFFFFEFFFFFC2Fu64 as nat) + 1) % word() == 0);
    assert(modulus::<Secp256k1FieldOrder>() > 1);
    assert(modulus::<Secp256k1FieldOrder>() % 2 == 1);
    assert(((Secp256k1FieldOrder::P_INV as nat) * (Secp256k1FieldOrder::MODULUS@[0] as nat) + 1) % word() == 0);
    assert(<<Secp256k1FieldOrder as Field>::Limbs as crate::limbs::Limbs>::count() == 4);
    assert(crate::field::limb_count::<Secp256k1FieldOrder>() == 4);
    assert(radix::<Secp256k1FieldOrder>() == word_pow(4));
    assert(limbs_nat(Secp256k1FieldOrder::R_SQUARED@) == (radix::<Secp256k1FieldOrder>() * radix::<Secp256k1FieldOrder>()) % modulus::<Secp256k1FieldOrder>());
}

#[verifier::spinoff_prover]
proof fn lemma_secp256k1_group_modulus_value()
    ensures
        limbs_nat(Secp256k1GroupOrder::MODULUS@) == 0xFFFFFFFFFFFFFFFFFFFFFFFFFFFFFFFEBAAEDCE6AF48A03BBFD25E8CD0364141nat,
{
    let v = Secp256k1GroupOrder::MODULUS;
    assert(v@ =~= seq![0xBFD25E8CD0364141u64, 0xBAAEDCE6AF48A03Bu64, 0xFFFFFFFFFFFFFFFEu64, 0xFFFFFFFFFFFFFFFFu64]);
    lemma_limbs_nat_4(0xBFD25E8CD0364141u64, 0xBAAEDCE6AF48A03Bu64, 0xFFFFFFFFFFFFFFFEu64, 0xFFFFFFFFFFFFFFFFu64);
}

#[verifier::spinoff_prover]
proof fn lemma_secp256k1_group_r_squared_value()
    ensures
        limbs_nat(Secp256k1GroupOrder::R_SQUARED@) == 0x9D671CD581C69BC5E697F5E45BCD07C6741496C20E7CF878896CF21467D7D140nat,
{
    let v = Secp256k1GroupOrder::R_SQUARED;
    assert(v@ =~= seq![0x896CF21467D7D140u64, 0x741496C20E7CF878u64, 0xE697F5E45BCD07C6u64, 0x9D671CD581C69BC5u64]);
    lemma_limbs_nat_4(0x896CF21467D7D140u64, 0x741496C20E7CF878u64, 0xE697F5E45BCD07C6u64, 0x9D671CD581C69BC5u64);
}

/// The constants of the secp256k1 group order are valid.
#[verifier::spinoff_prover]
pub proof fn lemma_secp256k1_group_params()
    ensures
        params_valid::<Secp256k1GroupOrder>(),
{
    lemma_secp256k1_group_modulus_value();
    lemma_secp256k1_group_r_squared_value();
    lemma_word_pow_4();
    assert(Secp256k1GroupOrder::MODULUS@[0] == 0xBFD25E8CD0364141u64);
    assert((0x10000000000000000000000000000000000000000000000000000000000000000nat * 0x10000000000000000000000000000000000000000000000000000000000000000nat) % 0xFFFFFFFFFFFFFFFFFFFFFFFFFFFFFFFEBAAEDCE6AF48A03BBFD25E8CD0364141nat == 0x9D671CD581C69BC5E697F5E45BCD07C6741496C20E7CF878896CF21467D7D140nat);
    assert(((0x4B0DFF665588B13Fu64 as nat) * (0xBFD25E8CD0364141u64 as nat) + 1) % word() == 0);
}

#[verifier::spinoff_prover]
proof fn lemma_csidh512_field_modulus_value()
    ensures
        limbs_nat(Csidh512FieldOrder::MODULUS@) == 0x65B48E8F740F89BFFC8AB0D15E3E4C4AB42D083AEDC88C425AFBFCC69322C9CDA7AAC6C567F35507516730CC1F0B4F25C2721BF457ACA8351B81B90533C6C87Bnat,
{
    let v = Csidh512FieldOrder::MODULUS;
    assert(v@.take(4) =~= seq![0x1B81B90533C6C87Bu64, 0xC2721BF457ACA835u64, 0x516730CC1F0B4F25u64, 0xA7AAC6C567F35507u64]);
    assert(v@.skip(4) =~= seq![0x5AFBFCC69322C9CDu64, 0xB42D083AEDC88C42u64, 0xFC8AB0D15E3E4C4Au64, 0x65B48E8F740F89BFu64]);
    lemma_limbs_nat_8(v@);
    lemma_limbs_nat_4(0x1B81B90533C6C87Bu64, 0xC2721BF457ACA835u64, 0x516730CC1F0B4F25u64, 0xA7AAC6C567F35507u64);
    lemma_limbs_nat_4(0x5AFBFCC69322C9CDu64, 0xB42D083AEDC88C42u64, 0xFC8AB0D15E3E4C4Au64, 0x65B48E8F740F89BFu64);
    lemma_word_pow_4();
    let lo = limbs_nat(v@.take(4));
    let hi = limbs_nat(v@.skip(4));
    assert(lo == 0xA7AAC6C567F35507516730CC1F0B4F25C2721BF457ACA8351B81B90533C6C87Bnat);
    assert(hi == 0x65B48E8F740F89BFFC8AB0D15E3E4C4AB42D083AEDC88C425AFBFCC69322C9CDnat);
}

#[verifier::spinoff_prover]
proof fn lemma_csidh512_field_r_squared_value()
    ensures
        limbs_nat(Csidh512FieldOrder::R_SQUARED@) == 0x4ED759AEA6F3917EAD5F166E20E4F52D1E9248731776B3715DAE03EE2F5DE3D0192EA214BCC584B14FAF3FBFD22370CA67086F4525F1F27D36905B572FFC1724nat,
{
    let v = Csidh512FieldOrder::R_SQUARED;
    assert(v@.take(4) =~= seq![0x36905B572FFC1724u64, 0x67086F4525F1F27Du64, 0x4FAF3FBFD22370CAu64, 0x192EA214BCC584B1u64]);
    assert(v@.skip(4) =~= seq![0x5DAE03EE2F5DE3D0u64, 0x1E9248731776B371u64, 0xAD5F166E20E4F52Du64, 0x4ED759AEA6F3917Eu64]);
    lemma_limbs_nat_8(v@);
    lemma_limbs_nat_4(0x36905B572FFC1724u64, 0x67086F4525F1F27Du64, 0x4FAF3FBFD22370CAu64, 0x192EA214BCC584B1u64);
    lemma_limbs_nat_4(0x5DAE03EE2F5DE3D0u64, 0x1E9248731776B371u64, 0xAD5F166E20E4F52Du64, 0x4ED759AEA6F3917Eu64);
    lemma_word_pow_4();
    let lo = limbs_nat(v@.take(4));
    let hi = limbs_nat(v@.skip(4));
    assert(lo == 0x192EA214BCC584B14FAF3FBFD22370CA67086F4525F1F27D36905B572FFC1724nat);
    assert(hi == 0x4ED759AEA6F3917EAD5F166E20E4F52D1E9248731776B3715DAE03EE2F5DE3D0nat);
}

/// The constants of the CSIDH-512 base field are valid.
#[verifier::spinoff_prover]
pub proof fn lemma_csidh512_field_params()
    ensures
        params_valid::<Csidh512FieldOrder>(),
{
    lemma_csidh512_field_modulus_value();
    lemma_csidh512_field_r_squared_value();
    lemma_word_pow_8();
    assert(Csidh512FieldOrder::MODULUS@[0] == 0x1B81B90533C6C87Bu64);
    assert((0x100000000000000000000000000000000000000000000000000000000000000000000000000000000000000000000000000000000000000000000000000000000nat * 0x100000000000000000000000000000000000000000000000000000000000000000000000000000000000000000000000000000000000000000000000000000000nat) % 0x65B48E8F740F89BFFC8AB0D15E3E4C4AB42D083AEDC88C425AFBFCC69322C9CDA7AAC6C567F35507516730CC1F0B4F25C2721BF457ACA8351B81B90533C6C87Bnat == 0x4ED759AEA6F3917EAD5F166E20E4F52D1E9248731776B3715DAE03EE2F5DE3D0192EA214BCC584B14FAF3FBFD22370CA67086F4525F1F27D36905B572FFC1724nat);
    assert(((0x66C1301F632E294Du64 as nat) * (0x1B81B90533C6C87Bu64 as nat) + 1) % word() == 0);
    assert(<<Csidh512FieldOrder as Field>::Limbs as crate::limbs::Limbs>::count() == 8);
    assert(crate::field::limb_count::<Csidh512FieldOrder>() == 8);
    assert(radix::<Csidh512FieldOrder>() == word_pow(8));
}

proof fn lemma_word_pow_4()
    ensures
        word_pow(4) == 0x10000000000000000000000000000000000000000000000000000000000000000nat,
{
    reveal_with_fuel(word_pow, 5);
}

proof fn lemma_word_pow_8()
    ensures
        word_pow(8) == 0x100000000000000000000000000000000000000000000000000000000000000000000000000000000000000000000000000000000000000000000000000000000nat,
{
    lemma_word_pow_4();
    lemma_word_pow_add(4, 4);
}

impl Sqrt3Mod4 for Secp256k1FieldOrder {

}

/// The secp256k1 base field modulus is `3 (mod 4)`.
pub proof fn lemma_secp256k1_field_3_mod_4()
    ensures
        modulus::<Secp256k1FieldOrder>() % 4 == 3,
{
    lemma_secp256k1_field_modulus_value();
}

impl Sqrt3Mod4 for Csidh512FieldOrder {

}

/// The CSIDH-512 modulus is `3 (mod 4)`.
pub proof fn lemma_csidh512_field_3_mod_4()
    ensures
        modulus::<Csidh512FieldOrder>() % 4 == 3,
{
    lemma_csidh512_field_modulus_value();
}

} // verus!

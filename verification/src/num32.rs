use vstd::prelude::*;

verus! {

// Numeric leaves carry IEEE-754 binary32 values by their 32-bit encodings.
// Everything that is decided by the encoding alone (sign, comparisons,
// equality, integer-exponent extraction) is ordinary verified integer code
// here.  The rounding arithmetic itself (addition, subtraction,
// multiplication, division, parsing from decimal text) comes from the
// rustc_apfloat crate through the trusted wrappers at the bottom of this
// file; each such result is named by an uninterpreted spec function, and the
// rest of the library is verified against those names.

pub const B32_SIGN_MASK: u32 = 0x8000_0000;

pub const B32_MAG_MASK: u32 = 0x7FFF_FFFF;

pub const B32_EXP_MASK: u32 = 0x7F80_0000;

pub const B32_FRAC_MASK: u32 = 0x007F_FFFF;

pub const B32_ZERO: u32 = 0;

pub const B32_ONE: u32 = 0x3F80_0000;

pub const B32_TWO: u32 = 0x4000_0000;

pub const B32_NEG_ONE: u32 = 0xBF80_0000;

/// The encoding denotes a NaN: exponent field all ones, fraction non-zero.
pub open spec fn is_nan_bits(b: u32) -> bool {
    b & B32_EXP_MASK == B32_EXP_MASK && b & B32_FRAC_MASK != 0
}

/// The encoding denotes a zero (either sign).
pub open spec fn is_zero_bits(b: u32) -> bool {
    b & B32_MAG_MASK == 0
}

/// The sign bit is set (this mirrors `is_sign_negative`: it holds of negative
/// zero too, and of NaN encodings with the sign bit set).
pub open spec fn is_neg_bits(b: u32) -> bool {
    b & B32_SIGN_MASK != 0
}

/// The encoding with the sign bit cleared: the absolute value.
pub open spec fn abs_bits(b: u32) -> u32 {
    b & B32_MAG_MASK
}

/// Sign-magnitude key: for non-NaN encodings, the IEEE-754 comparison order
/// is exactly the order of this integer key (both zeros map to 0).
pub open spec fn sm_key(b: u32) -> int {
    if is_neg_bits(b) {
        -((b & B32_MAG_MASK) as int)
    } else {
        (b & B32_MAG_MASK) as int
    }
}

/// IEEE-754 equality on encodings: NaN equals nothing; the two zeros are
/// equal; otherwise equality of encodings.
pub open spec fn eq_bits(a: u32, b: u32) -> bool {
    &&& !is_nan_bits(a)
    &&& !is_nan_bits(b)
    &&& (a == b || (is_zero_bits(a) && is_zero_bits(b)))
}

/// IEEE-754 `<` on encodings: false if either side is NaN, otherwise the
/// sign-magnitude order.
pub open spec fn lt_bits(a: u32, b: u32) -> bool {
    &&& !is_nan_bits(a)
    &&& !is_nan_bits(b)
    &&& sm_key(a) < sm_key(b)
}

/// IEEE-754 `<=` on encodings.
pub open spec fn le_bits(a: u32, b: u32) -> bool {
    lt_bits(a, b) || eq_bits(a, b)
}

pub fn b32_is_nan(b: u32) -> (r: bool)
    ensures
        r == is_nan_bits(b),
{
    b & B32_EXP_MASK == B32_EXP_MASK && b & B32_FRAC_MASK != 0
}

pub fn b32_is_zero(b: u32) -> (r: bool)
    ensures
        r == is_zero_bits(b),
{
    b & B32_MAG_MASK == 0
}

pub fn b32_is_neg(b: u32) -> (r: bool)
    ensures
        r == is_neg_bits(b),
{
    b & B32_SIGN_MASK != 0
}

pub fn b32_abs(b: u32) -> (r: u32)
    ensures
        r == abs_bits(b),
{
    b & B32_MAG_MASK
}

pub fn b32_eq(a: u32, b: u32) -> (r: bool)
    ensures
        r == eq_bits(a, b),
{
    if b32_is_nan(a) || b32_is_nan(b) {
        false
    } else if a == b {
        true
    } else {
        b32_is_zero(a) && b32_is_zero(b)
    }
}

pub fn b32_lt(a: u32, b: u32) -> (r: bool)
    ensures
        r == lt_bits(a, b),
{
    if b32_is_nan(a) || b32_is_nan(b) {
        false
    } else {
        let ka: i64 = if b32_is_neg(a) {
            -((a & B32_MAG_MASK) as i64)
        } else {
            (a & B32_MAG_MASK) as i64
        };
        let kb: i64 = if b32_is_neg(b) {
            -((b & B32_MAG_MASK) as i64)
        } else {
            (b & B32_MAG_MASK) as i64
        };
        assert(ka as int == sm_key(a));
        assert(kb as int == sm_key(b));
        ka < kb
    }
}

pub fn b32_le(a: u32, b: u32) -> (r: bool)
    ensures
        r == le_bits(a, b),
{
    b32_lt(a, b) || b32_eq(a, b)
}

/// The exponent field of the encoding.
pub open spec fn exp_field(b: u32) -> u32 {
    (b >> 23) & 0xFF
}

/// When the encoding denotes a finite integer whose magnitude fits 32 bits,
/// its sign and magnitude; otherwise `None`.
pub open spec fn int_exponent(b: u32) -> Option<(bool, u32)> {
    if is_zero_bits(b) {
        Some((false, 0u32))
    } else if exp_field(b) == 0xFF || exp_field(b) < 127 || exp_field(b) >= 159 {
        None
    } else if exp_field(b) >= 150 {
        let sig = (b & B32_FRAC_MASK) | 0x0080_0000u32;
        let sh = (exp_field(b) - 150) as u32;
        Some((is_neg_bits(b), sig << sh))
    } else {
        let sig = (b & B32_FRAC_MASK) | 0x0080_0000u32;
        let sh = (150 - exp_field(b)) as u32;
        if sig % (1u32 << sh) != 0 {
            None
        } else {
            Some((is_neg_bits(b), sig >> sh))
        }
    }
}

pub fn b32_int_exponent(b: u32) -> (r: Option<(bool, u32)>)
    ensures
        r == int_exponent(b),
{
    if b32_is_zero(b) {
        Some((false, 0u32))
    } else {
        let e = (b >> 23) & 0xFF;
        assert(e == exp_field(b));
        if e == 0xFF || e < 127 || e >= 159 {
            None
        } else if e >= 150 {
            let sig = (b & B32_FRAC_MASK) | 0x0080_0000u32;
            let sh = e - 150;
            assert(sh <= 8);
            Some((b32_is_neg(b), sig << sh))
        } else {
            let sig = (b & B32_FRAC_MASK) | 0x0080_0000u32;
            let sh = 150 - e;
            assert(sh <= 23);
            assert(1u32 << sh != 0) by (bit_vector)
                requires
                    sh <= 23,
            ;
            if sig % (1u32 << sh) != 0 {
                None
            } else {
                Some((b32_is_neg(b), sig >> sh))
            }
        }
    }
}

/// Left-to-right product of `n` copies of `base`, starting from one; each
/// step rounds as `bits_mul` does.
pub open spec fn pow_acc(base: u32, n: nat) -> u32
    decreases n,
{
    if n == 0 {
        B32_ONE
    } else {
        bits_mul(pow_acc(base, (n - 1) as nat), base)
    }
}

/// Folding of `a ^ b`.  No transcendental power is computed: the fold is
/// defined exactly when `b` encodes a finite integer whose magnitude fits
/// 32 bits, as the repeated round-to-nearest product for a non-negative
/// exponent and the reciprocal of that product for a negative one.  The
/// result can therefore differ from a correctly rounded real power, and any
/// other exponent is left unfolded.
pub open spec fn pow_bits(a: u32, b: u32) -> Option<u32> {
    match int_exponent(b) {
        None => None,
        Some((neg, n)) => if neg {
            Some(bits_div(B32_ONE, pow_acc(a, n as nat)))
        } else {
            Some(pow_acc(a, n as nat))
        },
    }
}

proof fn lemma_pow_acc_fixed(base: u32, i: nat, n: nat)
    requires
        bits_mul(pow_acc(base, i), base) == pow_acc(base, i),
        i <= n,
    ensures
        pow_acc(base, n) == pow_acc(base, i),
    decreases n - i,
{
    if n > i {
        lemma_pow_acc_fixed(base, i, (n - 1) as nat);
    }
}

pub fn b32_pow(a: u32, b: u32) -> (r: Option<u32>)
    ensures
        r == pow_bits(a, b),
{
    match b32_int_exponent(b) {
        None => None,
        Some((neg, n)) => {
            let mut acc: u32 = B32_ONE;
            let mut i: u32 = 0;
            while i < n
                invariant
                    i <= n,
                    acc == pow_acc(a, i as nat),
                decreases n - i,
            {
                let next = b32_mul(acc, a);
                if next == acc {
                    // the product has reached a fixed point (a saturated
                    // infinity or zero, a NaN, or a base of one), so every
                    // further step returns it unchanged
                    proof {
                        lemma_pow_acc_fixed(a, i as nat, n as nat);
                    }
                    i = n;
                } else {
                    acc = next;
                    i = i + 1;
                }
            }
            if neg {
                Some(b32_div(B32_ONE, acc))
            } else {
                Some(acc)
            }
        },
    }
}

/// The encoding of the IEEE-754 binary32 sum of the two encoded values,
/// rounded to nearest, ties to even.
pub uninterp spec fn bits_add(a: u32, b: u32) -> u32;

/// The encoding of the IEEE-754 binary32 difference of the two encoded
/// values, rounded to nearest, ties to even.
pub uninterp spec fn bits_sub(a: u32, b: u32) -> u32;

/// The encoding of the IEEE-754 binary32 product of the two encoded values,
/// rounded to nearest, ties to even.
pub uninterp spec fn bits_mul(a: u32, b: u32) -> u32;

/// The encoding of the IEEE-754 binary32 quotient of the two encoded values,
/// rounded to nearest, ties to even.
pub uninterp spec fn bits_div(a: u32, b: u32) -> u32;

/// The IEEE-754 binary32 encoding that the given characters parse to, or
/// `None` when they are not numeric text.
pub uninterp spec fn bits_parse(w: Seq<char>) -> Option<u32>;

/// Relies on rustc_apfloat: `Single` is IEEE-754 binary32, and its `+`
/// rounds to nearest, ties to even; the result depends on the two operand
/// encodings alone.
#[verifier::external_body]
pub fn b32_add(a: u32, b: u32) -> (r: u32)
    ensures
        r == bits_add(a, b),
{
    let x = <rustc_apfloat::ieee::Single as rustc_apfloat::Float>::from_bits(a as u128);
    let y = <rustc_apfloat::ieee::Single as rustc_apfloat::Float>::from_bits(b as u128);
    <rustc_apfloat::ieee::Single as rustc_apfloat::Float>::to_bits((x + y).value) as u32
}

/// Relies on rustc_apfloat: `Single`'s `-` is IEEE-754 binary32 subtraction,
/// rounded to nearest, ties to even.
#[verifier::external_body]
pub fn b32_sub(a: u32, b: u32) -> (r: u32)
    ensures
        r == bits_sub(a, b),
{
    let x = <rustc_apfloat::ieee::Single as rustc_apfloat::Float>::from_bits(a as u128);
    let y = <rustc_apfloat::ieee::Single as rustc_apfloat::Float>::from_bits(b as u128);
    <rustc_apfloat::ieee::Single as rustc_apfloat::Float>::to_bits((x - y).value) as u32
}

/// Relies on rustc_apfloat: `Single`'s `*` is IEEE-754 binary32
/// multiplication, rounded to nearest, ties to even.
#[verifier::external_body]
pub fn b32_mul(a: u32, b: u32) -> (r: u32)
    ensures
        r == bits_mul(a, b),
{
    let x = <rustc_apfloat::ieee::Single as rustc_apfloat::Float>::from_bits(a as u128);
    let y = <rustc_apfloat::ieee::Single as rustc_apfloat::Float>::from_bits(b as u128);
    <rustc_apfloat::ieee::Single as rustc_apfloat::Float>::to_bits((x * y).value) as u32
}

/// Relies on rustc_apfloat: `Single`'s `/` is IEEE-754 binary32 division,
/// rounded to nearest, ties to even (a finite value divided by zero gives
/// the signed infinity; it does not fail).
#[verifier::external_body]
pub fn b32_div(a: u32, b: u32) -> (r: u32)
    ensures
        r == bits_div(a, b),
{
    let x = <rustc_apfloat::ieee::Single as rustc_apfloat::Float>::from_bits(a as u128);
    let y = <rustc_apfloat::ieee::Single as rustc_apfloat::Float>::from_bits(b as u128);
    <rustc_apfloat::ieee::Single as rustc_apfloat::Float>::to_bits((x / y).value) as u32
}

/// Relies on rustc_apfloat: `from_str` for `Single` parses decimal (or
/// hexadecimal) numeric text to the nearest IEEE-754 binary32 value and
/// reports an error on any other text; the outcome depends on the
/// characters alone.
#[verifier::external_body]
pub fn b32_parse(w: &Vec<char>) -> (r: Option<u32>)
    ensures
        r == bits_parse(w@),
{
    let s: String = w.iter().collect();
    match s.parse::<rustc_apfloat::ieee::Single>() {
        Ok(v) => Some(<rustc_apfloat::ieee::Single as rustc_apfloat::Float>::to_bits(v) as u32),
        Err(_) => None,
    }
}

} // verus!

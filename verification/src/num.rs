//! Numbers are IEEE-754 binary64 values carried as their 64 raw bits.
//!
//! Equality, ordering, negation and the rendering of integral values are
//! implemented and verified here directly on the bit patterns.  Rounding
//! arithmetic, decimal-to-binary conversion and the rendering of
//! non-integral values are delegated to the `rustc_apfloat` software
//! implementation of IEEE-754 behind trusted wrappers.

use vstd::arithmetic::mul::lemma_mul_inequality;
use vstd::arithmetic::power2::lemma_pow2_adds;
use vstd::arithmetic::power2::lemma_pow2_pos;
use vstd::arithmetic::power2::lemma2_to64;
use vstd::arithmetic::power2::lemma2_to64_rest;
use vstd::arithmetic::power2::pow2;
use vstd::bits::lemma_u64_pow2_no_overflow;
use vstd::bits::lemma_u64_shl_is_mul;
use vstd::prelude::*;
use vstd::string::StringSliceAdditionalSpecFns;

use rustc_apfloat::Float;

verus! {

/// The sign bit of a binary64 pattern.
pub open spec fn sign_bits(b: u64) -> bool {
    (b >> 63) == 1
}

/// The magnitude (everything but the sign bit) of a binary64 pattern.
pub open spec fn mag_bits(b: u64) -> u64 {
    b & 0x7fff_ffff_ffff_ffff
}

/// A pattern is a NaN when its magnitude exceeds that of infinity.
pub open spec fn is_nan_bits(b: u64) -> bool {
    mag_bits(b) > 0x7ff0_0000_0000_0000
}

/// Order key of a non-NaN pattern: binary64 magnitudes order like their
/// bit patterns, negative values order reversed, and the two zeros share
/// the key 0.
pub open spec fn key_bits(b: u64) -> int {
    if sign_bits(b) {
        -(mag_bits(b) as int)
    } else {
        mag_bits(b) as int
    }
}

/// IEEE equality: NaN equals nothing, `-0.0 == 0.0`, otherwise bitwise.
pub open spec fn ieee_eq(a: u64, b: u64) -> bool {
    !is_nan_bits(a) && !is_nan_bits(b) && key_bits(a) == key_bits(b)
}

/// IEEE `<`: false on NaN, otherwise by order key.
pub open spec fn ieee_lt(a: u64, b: u64) -> bool {
    !is_nan_bits(a) && !is_nan_bits(b) && key_bits(a) < key_bits(b)
}

/// IEEE `>`.
pub open spec fn ieee_gt(a: u64, b: u64) -> bool {
    ieee_lt(b, a)
}

/// IEEE negation flips the sign bit, on every value including NaN.
pub open spec fn neg_bits(b: u64) -> u64 {
    b ^ 0x8000_0000_0000_0000
}

pub fn num_is_nan(b: u64) -> (r: bool)
    ensures
        r == is_nan_bits(b),
{
    (b & 0x7fff_ffff_ffff_ffff) > 0x7ff0_0000_0000_0000
}

pub fn num_eq(a: u64, b: u64) -> (r: bool)
    ensures
        r == ieee_eq(a, b),
{
    let ma = a & 0x7fff_ffff_ffff_ffff;
    let mb = b & 0x7fff_ffff_ffff_ffff;
    if ma > 0x7ff0_0000_0000_0000 || mb > 0x7ff0_0000_0000_0000 {
        false
    } else if ma == 0 && mb == 0 {
        true
    } else {
        let sa = (a >> 63) == 1;
        let sb = (b >> 63) == 1;
        sa == sb && ma == mb
    }
}

pub fn num_lt(a: u64, b: u64) -> (r: bool)
    ensures
        r == ieee_lt(a, b),
{
    let ma = a & 0x7fff_ffff_ffff_ffff;
    let mb = b & 0x7fff_ffff_ffff_ffff;
    if ma > 0x7ff0_0000_0000_0000 || mb > 0x7ff0_0000_0000_0000 {
        false
    } else {
        let sa = (a >> 63) == 1;
        let sb = (b >> 63) == 1;
        if sa {
            if sb {
                ma > mb
            } else {
                ma != 0 || mb != 0
            }
        } else {
            if sb {
                false
            } else {
                ma < mb
            }
        }
    }
}

pub fn num_gt(a: u64, b: u64) -> (r: bool)
    ensures
        r == ieee_gt(a, b),
{
    num_lt(b, a)
}

pub fn num_neg(b: u64) -> (r: u64)
    ensures
        r == neg_bits(b),
{
    b ^ 0x8000_0000_0000_0000
}

/// The bits that rustc_apfloat's binary64 addition (round to nearest
/// even) returns for two operand bit patterns.
pub uninterp spec fn add_bits(a: u64, b: u64) -> u64;

/// The bits of the binary64 difference, rounded to nearest even.
pub uninterp spec fn sub_bits(a: u64, b: u64) -> u64;

/// The bits of the binary64 product, rounded to nearest even.
pub uninterp spec fn mul_bits(a: u64, b: u64) -> u64;

/// The bits of the binary64 quotient, rounded to nearest even.
pub uninterp spec fn div_bits(a: u64, b: u64) -> u64;

/// The bits of the binary64 remainder with the sign of the dividend.
pub uninterp spec fn rem_bits(a: u64, b: u64) -> u64;

/// Relies on `rustc_apfloat::ieee::Double`'s `Add` (`add_r` with round to
/// nearest even): IEEE-754 binary64 addition, a function of the two bit
/// patterns alone.
#[verifier::external_body]
pub(crate) fn num_add(a: u64, b: u64) -> (r: u64)
    ensures
        r == add_bits(a, b),
{
    let x = rustc_apfloat::ieee::Double::from_bits(a as u128);
    let y = rustc_apfloat::ieee::Double::from_bits(b as u128);
    (x + y).value.to_bits() as u64
}

/// Relies on `rustc_apfloat::ieee::Double`'s `Sub`: IEEE-754 binary64
/// subtraction, a function of the two bit patterns alone.
#[verifier::external_body]
pub(crate) fn num_sub(a: u64, b: u64) -> (r: u64)
    ensures
        r == sub_bits(a, b),
{
    let x = rustc_apfloat::ieee::Double::from_bits(a as u128);
    let y = rustc_apfloat::ieee::Double::from_bits(b as u128);
    (x - y).value.to_bits() as u64
}

/// Relies on `rustc_apfloat::ieee::Double`'s `Mul`: IEEE-754 binary64
/// multiplication, a function of the two bit patterns alone.
#[verifier::external_body]
pub(crate) fn num_mul(a: u64, b: u64) -> (r: u64)
    ensures
        r == mul_bits(a, b),
{
    let x = rustc_apfloat::ieee::Double::from_bits(a as u128);
    let y = rustc_apfloat::ieee::Double::from_bits(b as u128);
    (x * y).value.to_bits() as u64
}

/// Relies on `rustc_apfloat::ieee::Double`'s `Div`: IEEE-754 binary64
/// division, a function of the two bit patterns alone.  Division by zero
/// yields an infinity or NaN, never a fault.
#[verifier::external_body]
pub(crate) fn num_div(a: u64, b: u64) -> (r: u64)
    ensures
        r == div_bits(a, b),
{
    let x = rustc_apfloat::ieee::Double::from_bits(a as u128);
    let y = rustc_apfloat::ieee::Double::from_bits(b as u128);
    (x / y).value.to_bits() as u64
}

/// Relies on `rustc_apfloat::ieee::Double`'s `Rem` (`c_fmod`): the
/// remainder with the sign of the dividend, a function of the two bit
/// patterns alone.
#[verifier::external_body]
pub(crate) fn num_rem(a: u64, b: u64) -> (r: u64)
    ensures
        r == rem_bits(a, b),
{
    let x = rustc_apfloat::ieee::Double::from_bits(a as u128);
    let y = rustc_apfloat::ieee::Double::from_bits(b as u128);
    (x % y).value.to_bits() as u64
}

/// The bits that rustc_apfloat's correctly rounded decimal-to-binary64
/// conversion returns for a character sequence (0 for an unparseable one).
pub uninterp spec fn parsed_bits(s: Seq<char>) -> u64;

/// Relies on `rustc_apfloat::ieee::Double::from_str` (round to nearest
/// even): correctly rounded parsing, a function of the string alone;
/// malformed input yields `Err`, never a fault.  The byte-length bound
/// keeps every position in the string below `i32::MAX`, under which
/// the parser's hexadecimal branch cannot overflow its `i32` exponent
/// arithmetic.
#[verifier::external_body]
fn num_parse_apfloat(s: &str) -> (r: u64)
    requires
        s.spec_bytes().len() <= 0x7fff_ffff,
    ensures
        r == parsed_bits(s@),
{
    match <rustc_apfloat::ieee::Double as core::str::FromStr>::from_str(s) {
        Ok(d) => d.to_bits() as u64,
        Err(_) => 0,
    }
}

/// The numeric value of one decimal digit character.
pub open spec fn digit_val(c: char) -> nat {
    (c as nat - 48) as nat
}

/// All characters are decimal digits.
pub open spec fn all_digits(s: Seq<char>) -> bool {
    forall|k: int| 0 <= k < s.len() ==> '0' <= #[trigger] s[k] && s[k] <= '9'
}

/// The value of a digit string, most significant digit first.
pub open spec fn digits_val(s: Seq<char>) -> nat
    decreases s.len(),
{
    if s.len() == 0 {
        0
    } else {
        digits_val(s.drop_last()) * 10 + digit_val(s.last())
    }
}

/// A value below 2^53 prints as digits that carry that same value
/// back: print then parse is the identity on the numeric value.
pub proof fn lemma_print_parse_integral(v: nat)
    ensures
        all_digits(dec_digits(v)),
        dec_digits(v).len() > 0,
        digits_val(dec_digits(v)) == v,
    decreases v,
{
    if v < 10 {
        assert(dec_digits(v) == seq![digit_char(v)]);
        assert(seq![digit_char(v)].drop_last() =~= Seq::<char>::empty());
        assert(digits_val(Seq::<char>::empty()) == 0);
        assert('0' <= digit_char(v) && digit_char(v) <= '9');
    } else {
        lemma_print_parse_integral(v / 10);
        assert(dec_digits(v) == dec_digits(v / 10).push(digit_char(v % 10)));
        assert(dec_digits(v).drop_last() =~= dec_digits(v / 10));
        assert('0' <= digit_char(v % 10) && digit_char(v % 10) <= '9');
        assert(digits_val(dec_digits(v)) == (v / 10) * 10 + v % 10);
        assert((v / 10) * 10 + v % 10 == v) by {
            vstd::arithmetic::div_mod::lemma_fundamental_div_mod(v as int, 10);
        }
    }
}

/// The value of a digit string never shrinks as it grows to the right.
proof fn lemma_digits_val_prefix(s: Seq<char>, i: int)
    requires
        0 <= i <= s.len(),
    ensures
        digits_val(s.take(i)) <= digits_val(s),
    decreases s.len() - i,
{
    if i < s.len() {
        assert(s.take(i + 1).drop_last() =~= s.take(i));
        assert(s.take(i + 1).last() == s[i]);
        assert(digits_val(s.take(i)) <= digits_val(s.take(i)) * 10 + digit_val(s[i]));
        lemma_digits_val_prefix(s, i + 1);
    } else {
        assert(s.take(i) =~= s);
    }
}

/// Floor of the base-2 logarithm.
pub open spec fn log2(n: nat) -> nat
    decreases n,
{
    if n < 2 {
        0
    } else {
        1 + log2(n / 2)
    }
}

/// The binary64 encoding of an integer below 2^53.
pub open spec fn int_bits(v: nat) -> u64 {
    if v == 0 {
        0
    } else {
        let h = log2(v);
        (((1023 + h) as u64) << 52) | (((v as u64) << ((52 - h) as u64)) & 0xf_ffff_ffff_ffff)
    }
}

/// What `num_parse` returns: plain digit strings below 2^53 convert
/// exactly; anything else goes to rustc_apfloat's rounded conversion,
/// except strings over `i32::MAX` bytes, which parse as 0 (the machine
/// limit that keeps the converter's exponent arithmetic in bounds).
pub open spec fn sp_num_parse(s: Seq<char>) -> u64 {
    if all_digits(s) && s.len() > 0 && digits_val(s) < 0x20000000000000 {
        int_bits(digits_val(s))
    } else if vstd::utf8::encode_utf8(s).len() > 0x7fff_ffff {
        0
    } else {
        parsed_bits(s)
    }
}

/// The bits of a positive integer below 2^53.
fn int_to_bits(n: u64) -> (r: u64)
    requires
        0 < n < 0x20000000000000,
    ensures
        r == int_bits(n as nat),
        int_mag(r) == Some(n as nat),
        !sign_bits(r),
{
    let mut h: u64 = 0;
    let mut m = n;
    proof {
        lemma2_to64();
    }
    while m >= 2
        invariant
            1 <= m,
            h <= 52,
            n < 0x20000000000000,
            m as nat == n as nat / pow2(h as nat),
            pow2(h as nat) <= n,
            log2(n as nat) == h + log2(m as nat),
        decreases m,
    {
        proof {
            lemma_pow2_pos(h as nat);
            vstd::arithmetic::power2::lemma_pow2_unfold((h + 1) as nat);
            vstd::arithmetic::div_mod::lemma_div_denominator(n as int, pow2(h as nat) as int, 2);
            assert(n as nat / pow2((h + 1) as nat) == m as nat / 2);
            assert(pow2((h + 1) as nat) <= n) by {
                vstd::arithmetic::div_mod::lemma_fundamental_div_mod(
                    n as int,
                    pow2(h as nat) as int,
                );
                assert(n as int == pow2(h as nat) * (m as int) + (n as int % pow2(
                    h as nat,
                ) as int));
                vstd::arithmetic::mul::lemma_mul_inequality(
                    2,
                    m as int,
                    pow2(h as nat) as int,
                );
                vstd::arithmetic::mul::lemma_mul_is_commutative(2, pow2(h as nat) as int);
                vstd::arithmetic::mul::lemma_mul_is_commutative(m as int, pow2(h as nat) as int);
            }
            assert(h + 1 <= 52) by {
                if h + 1 > 52 {
                    assert(pow2(53) <= pow2((h + 1) as nat)) by {
                        if 53 < h + 1 {
                            vstd::arithmetic::power2::lemma_pow2_strictly_increases(
                                53,
                                (h + 1) as nat,
                            );
                        }
                    }
                    lemma2_to64_rest();
                }
            }
        }
        m = m / 2;
        h = h + 1;
    }
    let e: u64 = 1023 + h;
    let sh: u64 = 52 - h;
    proof {
        lemma_pow2_pos(h as nat);
        lemma_pow2_pos(sh as nat);
        lemma2_to64_rest();
        assert((n as nat) < pow2((h + 1) as nat)) by {
            vstd::arithmetic::power2::lemma_pow2_unfold((h + 1) as nat);
            vstd::arithmetic::div_mod::lemma_fundamental_div_mod(n as int, pow2(h as nat) as int);
            assert(n as int == pow2(h as nat) * 1 + (n as int % pow2(h as nat) as int));
            assert((n as int % pow2(h as nat) as int) < pow2(h as nat) as int);
        }
        assert(n * pow2(sh as nat) < pow2(53)) by {
            vstd::arithmetic::mul::lemma_mul_strict_inequality(
                n as int,
                pow2((h + 1) as nat) as int,
                pow2(sh as nat) as int,
            );
            lemma_pow2_adds((h + 1) as nat, sh as nat);
            vstd::arithmetic::mul::lemma_mul_is_commutative(n as int, pow2(sh as nat) as int);
            vstd::arithmetic::mul::lemma_mul_is_commutative(
                pow2((h + 1) as nat) as int,
                pow2(sh as nat) as int,
            );
        }
        assert(pow2(52) <= n * pow2(sh as nat)) by {
            vstd::arithmetic::mul::lemma_mul_inequality(
                pow2(h as nat) as int,
                n as int,
                pow2(sh as nat) as int,
            );
            lemma_pow2_adds(h as nat, sh as nat);
        }
        lemma_u64_shl_is_mul(n, sh);
        assert(pow2(53) == 0x20000000000000 && pow2(52) == 0x10000000000000);
    }
    proof {
        assert(log2(n as nat) == h);
    }
    let shifted = n << sh;
    let frac = shifted & 0xf_ffff_ffff_ffff;
    let r = (e << 52) | frac;
    proof {
        assert(r == int_bits(n as nat));
    }
    proof {
        assert((shifted & 0xf_ffff_ffff_ffff) == vstd::prelude::sub(
            shifted,
            0x10_0000_0000_0000,
        ))
            by (bit_vector)
            requires
                0x10_0000_0000_0000 <= shifted < 0x20_0000_0000_0000,
        ;
        assert((((e << 52) | frac) >> 63) == 0 && ((((e << 52) | frac) >> 52) & 0x7ff) == e && (((
        e << 52) | frac) & 0xf_ffff_ffff_ffff) == frac && (((e << 52) | frac)
            & 0x7fff_ffff_ffff_ffff) != 0) by (bit_vector)
            requires
                1023 <= e <= 1075,
                frac < 0x10_0000_0000_0000,
        ;
        assert(!sign_bits(r));
        assert(exp_bits(r) == e);
        assert(frac_bits(r) == frac);
        assert(mag_bits(r) != 0);
        let mval = (frac_bits(r) + 0x10_0000_0000_0000) as nat;
        assert(mval == n * pow2(sh as nat));
        assert(1075 - e == sh);
        vstd::arithmetic::div_mod::lemma_mod_multiples_basic(n as int, pow2(sh as nat) as int);
        vstd::arithmetic::div_mod::lemma_div_by_multiple(n as int, pow2(sh as nat) as int);
        assert(mval % pow2(sh as nat) == 0);
        assert(mval / pow2(sh as nat) == n);
        assert(int_mag(r) == Some(n as nat));
    }
    r
}

/// Parses a number lexeme to binary64 bits.  A plain digit string
/// below 2^53 is converted exactly by verified code; everything else
/// goes through rustc_apfloat's correctly rounded conversion, except
/// strings over `i32::MAX` bytes, which parse as 0 — the machine limit
/// that keeps the converter's exponent arithmetic in bounds.
pub fn num_parse(s: &str) -> (r: u64)
    ensures
        r == sp_num_parse(s@),
        (all_digits(s@) && s@.len() > 0 && digits_val(s@) < 0x20000000000000) ==> int_mag(r)
            == Some(digits_val(s@)) && !sign_bits(r),
        !(all_digits(s@) && s@.len() > 0 && digits_val(s@) < 0x20000000000000) ==> r
            == sp_num_parse(s@),
{
    let n = s.unicode_len();
    let mut acc: u64 = 0;
    let mut ok = n > 0;
    let mut i: usize = 0;
    while i < n && ok
        invariant
            i <= n,
            n == s@.len(),
            ok ==> acc as nat == digits_val(s@.take(i as int)) && acc < 0x20000000000000
                && (forall|k: int| 0 <= k < i ==> '0' <= #[trigger] s@[k] && s@[k] <= '9')
                && n > 0,
            !ok ==> !(all_digits(s@) && s@.len() > 0 && digits_val(s@) < 0x20000000000000),
        decreases n - i,
    {
        let c = s.get_char(i);
        if c < '0' || c > '9' {
            ok = false;
            proof {
                assert(!all_digits(s@));
            }
        } else {
            let d: u64 = match c {
                '0' => 0,
                '1' => 1,
                '2' => 2,
                '3' => 3,
                '4' => 4,
                '5' => 5,
                '6' => 6,
                '7' => 7,
                '8' => 8,
                _ => 9,
            };
            proof {
                assert(d as nat == digit_val(s@[i as int]));
            }
            acc = acc * 10 + d;
            proof {
                assert(s@.take(i as int + 1).drop_last() =~= s@.take(i as int));
                assert(s@.take(i as int + 1).last() == s@[i as int]);
            }
            if acc >= 0x20000000000000 {
                ok = false;
                proof {
                    lemma_digits_val_prefix(s@, i as int + 1);
                }
            }
        }
        i = i + 1;
    }
    if ok {
        proof {
            assert(s@.take(n as int) =~= s@);
        }
        if acc == 0 {
            proof {
                assert(0u64 & 0x7fff_ffff_ffff_ffff == 0) by (bit_vector);
                assert((0u64 >> 63) == 0) by (bit_vector);
                assert(int_mag(0) == Some(0nat));
                assert(!sign_bits(0));
            }
            0
        } else {
            int_to_bits(acc)
        }
    } else {
        let bytes = s.as_bytes();
        let byte_count = bytes.len();
        proof {
            broadcast use vstd::slice::axiom_spec_len;

            assert(byte_count == vstd::utf8::encode_utf8(s@).len());
        }
        if byte_count > 0x7fff_ffff {
            0
        } else {
            num_parse_apfloat(s)
        }
    }
}

/// The characters that rustc_apfloat's decimal rendering of a binary64
/// pattern produces; enough digits to parse back to the same value.
pub uninterp spec fn displayed_bits(b: u64) -> Seq<char>;

/// Relies on `rustc_apfloat::ieee::Double`'s `Display`: a decimal
/// rendering that is a function of the bit pattern alone.  Every
/// non-NaN value parses back to the same bits: the renderer emits
/// enough digits to identify the value uniquely (the Steele-and-White
/// bound in its source), its `e`/`E` exponent form and its `+Inf` and
/// `-Inf` spellings are accepted by `from_str`, and only NaN (whose
/// payload the rendering drops) is excluded.
#[verifier::external_body]
fn num_display_apfloat(b: u64) -> (s: String)
    ensures
        s@ == displayed_bits(b),
        !is_nan_bits(b) ==> parsed_bits(s@) == b,
{
    let d = rustc_apfloat::ieee::Double::from_bits(b as u128);
    format!("{}", d)
}

/// Relies on `String::push`: appends one character at the end.
#[verifier::external_body]
pub(crate) fn push_char(s: &mut String, c: char)
    ensures
        final(s)@ == old(s)@.push(c),
{
    s.push(c);
}

/// The biased exponent field of a binary64 pattern.
pub open spec fn exp_bits(b: u64) -> u64 {
    (b >> 52) & 0x7ff
}

/// The fraction field of a binary64 pattern.
pub open spec fn frac_bits(b: u64) -> u64 {
    b & 0xf_ffff_ffff_ffff
}

/// The integer magnitude of a pattern whose value is a mathematical
/// integer below 2^64, and `None` for every other pattern (fractional
/// values, huge values, infinities, NaNs).
pub open spec fn int_mag(b: u64) -> Option<nat> {
    if mag_bits(b) == 0 {
        Some(0)
    } else {
        let e = exp_bits(b) as int;
        let m = (frac_bits(b) + 0x10_0000_0000_0000) as nat;
        if 1023 <= e && e <= 1075 {
            if m % pow2((1075 - e) as nat) == 0 {
                Some(m / pow2((1075 - e) as nat))
            } else {
                None
            }
        } else if 1075 < e && e <= 1086 {
            Some(m * pow2((e - 1075) as nat))
        } else {
            None
        }
    }
}

/// The decimal digits of `n`, most significant first.
pub open spec fn dec_digits(n: nat) -> Seq<char>
    decreases n,
{
    if n < 10 {
        seq![digit_char(n)]
    } else {
        dec_digits(n / 10).push(digit_char(n % 10))
    }
}

/// The character for one decimal digit.
pub open spec fn digit_char(d: nat) -> char {
    ((48 + d) as u8) as char
}

/// How a number prints: integral values print as their decimal digits
/// with a possible minus sign (`-0.0` prints as `-0`), all other values
/// as rustc_apfloat renders them.
pub open spec fn display_num_spec(b: u64) -> Seq<char> {
    match int_mag(b) {
        Some(v) => if sign_bits(b) {
            seq!['-'] + dec_digits(v)
        } else {
            dec_digits(v)
        },
        None => displayed_bits(b),
    }
}

fn exec_digit_char(d: u64) -> (c: char)
    requires
        d < 10,
    ensures
        c == digit_char(d as nat),
{
    let c = match d {
        0 => '0',
        1 => '1',
        2 => '2',
        3 => '3',
        4 => '4',
        5 => '5',
        6 => '6',
        7 => '7',
        8 => '8',
        _ => '9',
    };
    proof {
        assert(c == digit_char(d as nat));
    }
    c
}

/// Renders `n` in decimal.
pub fn u64_to_dec(n: u64) -> (s: String)
    ensures
        s@ == dec_digits(n as nat),
{
    let mut digits: Vec<char> = Vec::new();
    let mut m = n;
    loop
        invariant_except_break
            dec_digits(n as nat) == dec_digits(m as nat) + digits@,
        ensures
            dec_digits(n as nat) == digits@,
        decreases m,
    {
        let ghost prev = digits@;
        let d = exec_digit_char(m % 10);
        digits.insert(0, d);
        proof {
            assert(digits@ =~= seq![digit_char((m % 10) as nat)] + prev);
        }
        if m < 10 {
            proof {
                assert(dec_digits(m as nat) == seq![digit_char(m as nat)]);
                assert(dec_digits(n as nat) =~= digits@);
            }
            break;
        }
        proof {
            assert(dec_digits(m as nat) == dec_digits((m as nat) / 10).push(
                digit_char((m as nat) % 10),
            ));
            assert(dec_digits(m as nat) =~= dec_digits((m / 10) as nat) + seq![
                digit_char((m % 10) as nat),
            ]);
            assert(dec_digits(n as nat) =~= dec_digits((m / 10) as nat) + digits@);
        }
        m = m / 10;
    }
    let mut s = String::new();
    let mut i: usize = 0;
    while i < digits.len()
        invariant
            i <= digits.len(),
            s@ == digits@.take(i as int),
        decreases digits.len() - i,
    {
        push_char(&mut s, digits[i]);
        proof {
            assert(s@ =~= digits@.take(i as int + 1));
        }
        i = i + 1;
    }
    proof {
        assert(s@ =~= digits@);
    }
    s
}

/// Renders a number bit pattern: integral values up to 2^64 print as
/// their plain decimal digits (matching how Rust renders them, with no
/// trailing fraction and `-0` for the negative zero); all other values
/// are rendered by rustc_apfloat, which may use more digits than the
/// shortest round-tripping form and prints non-finite values as `NaN`
/// and `+Inf`/`-Inf`.
pub fn num_display(b: u64) -> (s: String)
    ensures
        s@ == display_num_spec(b),
        (!is_nan_bits(b) && int_mag(b) is None) ==> parsed_bits(s@) == b,
{
    let mag = b & 0x7fff_ffff_ffff_ffff;
    let neg = (b >> 63) == 1;
    let v_opt: Option<u64> = if mag == 0 {
        Some(0)
    } else {
        let e = (b >> 52) & 0x7ff;
        assert((b & 0xf_ffff_ffff_ffff) < 0x10_0000_0000_0000) by (bit_vector);
        let fr = b & 0xf_ffff_ffff_ffff;
        let m = fr + 0x10_0000_0000_0000;
        if 1023 <= e && e <= 1075 {
            let sh = 1075 - e;
            proof {
                lemma_u64_pow2_no_overflow(sh as nat);
                lemma_u64_shl_is_mul(1u64, sh);
            }
            let pw = 1u64 << sh;
            if m % pw == 0 {
                Some(m / pw)
            } else {
                None
            }
        } else if 1075 < e && e <= 1086 {
            let k = e - 1075;
            proof {
                lemma_u64_pow2_no_overflow(k as nat);
                lemma2_to64();
                lemma2_to64_rest();
                assert(pow2(k as nat) <= pow2(11)) by {
                    if (k as nat) < 11 {
                        vstd::arithmetic::power2::lemma_pow2_strictly_increases(k as nat, 11);
                    }
                }
                assert(m * pow2(k as nat) <= m * pow2(11)) by {
                    lemma_mul_inequality(pow2(k as nat) as int, pow2(11) as int, m as int);
                    vstd::arithmetic::mul::lemma_mul_is_commutative(
                        m as int,
                        pow2(k as nat) as int,
                    );
                    vstd::arithmetic::mul::lemma_mul_is_commutative(m as int, pow2(11) as int);
                }
                assert(m * pow2(11) <= u64::MAX);
                lemma_u64_shl_is_mul(m, k);
            }
            Some(m << k)
        } else {
            None
        }
    };
    match v_opt {
        Some(v) => {
            proof {
                assert(int_mag(b) == Some(v as nat));
                assert(neg == sign_bits(b));
            }
            let digits = u64_to_dec(v);
            let mut s = String::new();
            if neg {
                push_char(&mut s, '-');
            }
            s.append(digits.as_str());
            proof {
                if neg {
                    assert(s@ =~= seq!['-'] + dec_digits(v as nat));
                } else {
                    assert(s@ =~= dec_digits(v as nat));
                }
            }
            s
        },
        None => {
            proof {
                assert(int_mag(b) is None);
            }
            num_display_apfloat(b)
        },
    }
}

} // verus!

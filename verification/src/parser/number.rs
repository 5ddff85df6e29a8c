//! Parsers for numbers: binary, octal and hexadecimal integers with a
//! `0b`/`0o`/`0x` prefix, and decimal numbers with an optional fraction and
//! exponent. All produce exact decimals.

use vstd::prelude::*;

use crate::decimal::{
    dec_digits_of, dec_normalize, digits_val, lemma_dec_digits_of, lemma_digits_val_extend,
    lemma_digits_val_nonneg, lemma_val_injective,
    strip_leading_zeros, Decimal, DecV,
};
use crate::parser::range::dec_vals;
use crate::parser::{
    digit_char, digit_of, digit_pred, digit_run, is_digit, lemma_run_end, run_end,
};

verus! {

/// The largest exponent magnitude the parser accepts; beyond it the whole
/// number is rejected as malformed.
pub open spec fn exp_limit() -> int {
    10000
}

/// The largest number of fraction digits the parser accepts.
pub open spec fn frac_limit() -> int {
    0x1000_0000_0000_0000
}

/// A digit of the given radix (2, 8 or 16; hexadecimal letters count).
pub open spec fn radix_digit(c: char, radix: int) -> bool {
    if radix == 2 {
        c == '0' || c == '1'
    } else if radix == 8 {
        '0' as int <= c as int <= '7' as int
    } else {
        is_digit(c) || ('a' as int <= c as int <= 'f' as int) || ('A' as int <= c as int
            <= 'F' as int)
    }
}

/// The value of a digit of the given radix.
pub open spec fn radix_val(c: char, radix: int) -> int {
    if is_digit(c) {
        digit_of(c)
    } else if 'a' as int <= c as int {
        c as int - 'a' as int + 10
    } else {
        c as int - 'A' as int + 10
    }
}

pub open spec fn radix_pred(radix: int) -> spec_fn(char) -> bool {
    |c: char| radix_digit(c, radix)
}

/// The digit values of `s[i..j]` in the given radix.
pub open spec fn radix_vals(s: Seq<char>, i: int, j: int, radix: int) -> Seq<u8> {
    Seq::new((j - i) as nat, |k: int| radix_val(s[i + k], radix) as u8)
}

/// The lowercase prefix letter of the radix: `b`, `o` or `x`.
pub open spec fn prefix_low(radix: int) -> char {
    if radix == 2 {
        'b'
    } else if radix == 8 {
        'o'
    } else {
        'x'
    }
}

/// The uppercase prefix letter of the radix.
pub open spec fn prefix_up(radix: int) -> char {
    if radix == 2 {
        'B'
    } else if radix == 8 {
        'O'
    } else {
        'X'
    }
}

/// An optional sign: whether it was a minus, and the position after it.
pub open spec fn spec_sign(s: Seq<char>, i: int) -> (bool, int) {
    if i < s.len() && s[i] == '-' {
        (true, i + 1)
    } else if i < s.len() && s[i] == '+' {
        (false, i + 1)
    } else {
        (false, i)
    }
}

/// A signed, prefixed integer of the given radix, as an exact decimal with
/// scale zero.
pub open spec fn spec_radix_number(s: Seq<char>, i: int, radix: int) -> Option<(DecV, int)> {
    let (neg, i1) = spec_sign(s, i);
    if i1 + 1 < s.len() && s[i1] == '0' && (s[i1 + 1] == prefix_low(radix) || s[i1 + 1]
        == prefix_up(radix)) {
        let i2 = i1 + 2;
        let j = run_end(s, i2, radix_pred(radix));
        if j == i2 {
            None
        } else {
            let v = digits_val(radix_vals(s, i2, j, radix), radix);
            Some((dec_normalize(neg, dec_digits_of(v), 0), j))
        }
    } else {
        None
    }
}

/// An exponent: `e` or `E`, an optional sign, and digits; the value and the
/// position after it.
pub open spec fn spec_exponent(s: Seq<char>, i: int) -> Option<(int, int)> {
    if i < s.len() && (s[i] == 'e' || s[i] == 'E') {
        let (eneg, i1) = spec_sign(s, i + 1);
        let j = run_end(s, i1, digit_pred());
        if j == i1 {
            None
        } else {
            let v = digits_val(dec_vals(s, i1, j), 10);
            Some(((if eneg { -v } else { v }), j))
        }
    } else {
        None
    }
}

/// The tail of a decimal number: an optional exponent, then the value is
/// assembled; numbers whose exponent or fraction exceed the limits are
/// rejected.
pub open spec fn spec_dec_finish(
    s: Seq<char>,
    pos: int,
    neg: bool,
    mdigits: Seq<u8>,
    frac_len: int,
) -> Option<(DecV, int)> {
    let (e, end) = match spec_exponent(s, pos) {
        None => (0, pos),
        Some((v, j)) => (v, j),
    };
    if -exp_limit() <= e <= exp_limit() && frac_len <= frac_limit() {
        Some((dec_normalize(neg, mdigits, frac_len - e), end))
    } else {
        None
    }
}

/// A decimal number: an optional sign, then either `.` and fraction digits,
/// or integer digits with an optional `.`, optional fraction digits and an
/// optional exponent.
pub open spec fn spec_dec_number(s: Seq<char>, i: int) -> Option<(DecV, int)> {
    let (neg, i1) = spec_sign(s, i);
    if i1 < s.len() && s[i1] == '.' {
        let fs = i1 + 1;
        let fe = run_end(s, fs, digit_pred());
        if fe == fs {
            None
        } else {
            spec_dec_finish(s, fe, neg, dec_vals(s, fs, fe), fe - fs)
        }
    } else {
        let ie = run_end(s, i1, digit_pred());
        if ie == i1 {
            None
        } else if ie < s.len() && s[ie] == '.' {
            let fs = ie + 1;
            let fe = run_end(s, fs, digit_pred());
            spec_dec_finish(s, fe, neg, dec_vals(s, i1, ie) + dec_vals(s, fs, fe), fe - fs)
        } else {
            spec_dec_finish(s, ie, neg, dec_vals(s, i1, ie), 0)
        }
    }
}

/// A number: a prefixed binary, octal or hexadecimal integer, or a decimal.
pub open spec fn spec_number(s: Seq<char>, i: int) -> Option<(DecV, int)> {
    if spec_radix_number(s, i, 2) is Some {
        spec_radix_number(s, i, 2)
    } else if spec_radix_number(s, i, 8) is Some {
        spec_radix_number(s, i, 8)
    } else if spec_radix_number(s, i, 16) is Some {
        spec_radix_number(s, i, 16)
    } else {
        spec_dec_number(s, i)
    }
}

/// Relies on num_bigint::BigUint::from_radix_be and BigUint::to_radix_be:
/// the result is the base-10 digit string, most significant first and
/// without leading zeros, of the integer that `digits` denotes in base
/// `radix`; zero has the single digit 0.
#[verifier::external_body]
fn radix_to_decimal_digits(digits: &Vec<u8>, radix: u32) -> (r: Vec<u8>)
    requires
        radix == 2 || radix == 8 || radix == 16,
        forall|k: int| 0 <= k < digits@.len() ==> digits@[k] < radix,
    ensures
        r@.len() >= 1,
        forall|k: int| 0 <= k < r@.len() ==> r@[k] < 10,
        r@.len() > 1 ==> r@[0] != 0,
        digits_val(r@, 10) == digits_val(digits@, radix as int),
{
    let n = num_bigint::BigUint::from_radix_be(digits, radix).unwrap();
    n.to_radix_be(10)
}

/// Whether `c` is a digit of the radix.
fn radix_digit_char(c: char, radix: u32) -> (r: bool)
    requires
        radix == 2 || radix == 8 || radix == 16,
    ensures
        r == radix_digit(c, radix as int),
{
    let u = c as u32;
    if radix == 2 {
        u == 48 || u == 49
    } else if radix == 8 {
        48 <= u && u <= 55
    } else {
        (48 <= u && u <= 57) || (97 <= u && u <= 102) || (65 <= u && u <= 70)
    }
}

/// The value of a radix digit.
fn radix_val_exec(c: char, radix: u32) -> (r: u32)
    requires
        radix == 2 || radix == 8 || radix == 16,
        radix_digit(c, radix as int),
    ensures
        r == radix_val(c, radix as int),
        r < radix,
{
    let u = c as u32;
    if 48 <= u && u <= 57 {
        u - 48
    } else if u >= 97 {
        u - 87
    } else {
        u - 55
    }
}

/// Executable counterpart of [`run_end`] for radix digits.
fn radix_digit_run(s: &Vec<char>, i: usize, radix: u32) -> (j: usize)
    requires
        i <= s@.len(),
        radix == 2 || radix == 8 || radix == 16,
    ensures
        j as int == run_end(s@, i as int, radix_pred(radix as int)),
        i <= j <= s@.len(),
{
    let mut j = i;
    while j < s.len() && radix_digit_char(s[j], radix)
        invariant
            i <= j <= s@.len(),
            radix == 2 || radix == 8 || radix == 16,
            run_end(s@, i as int, radix_pred(radix as int)) == run_end(
                s@,
                j as int,
                radix_pred(radix as int),
            ),
        decreases s@.len() - j,
    {
        j = j + 1;
    }
    proof {
        lemma_run_end(s@, j as int, radix_pred(radix as int));
    }
    j
}

/// An optional sign at `i`.
fn sign(s: &Vec<char>, i: usize) -> (r: (bool, usize))
    requires
        i <= s@.len(),
    ensures
        spec_sign(s@, i as int) == (r.0, r.1 as int),
        i <= r.1 <= s@.len(),
        r.1 <= i + 1,
{
    if i < s.len() && s[i] == '-' {
        (true, i + 1)
    } else if i < s.len() && s[i] == '+' {
        (false, i + 1)
    } else {
        (false, i)
    }
}

/// Parses a signed, prefixed integer of the given radix.
pub fn signed_prefixed_int(s: &Vec<char>, i: usize, radix: u32) -> (r: Option<(Decimal, usize)>)
    requires
        i <= s@.len(),
        radix == 2 || radix == 8 || radix == 16,
    ensures
        (r is Some) == (spec_radix_number(s@, i as int, radix as int) is Some),
        r is Some ==> spec_radix_number(s@, i as int, radix as int) == Some(
            ((r->0).0@, (r->0).1 as int),
        ),
        r is Some ==> i < (r->0).1 <= s@.len() && (r->0).0@.wf(),
{
    let (neg, i1) = sign(s, i);
    if i1 < s.len() && i1 + 1 < s.len() && s[i1] == '0' && {
        let p = s[i1 + 1];
        let low = if radix == 2 {
            'b'
        } else if radix == 8 {
            'o'
        } else {
            'x'
        };
        let up = if radix == 2 {
            'B'
        } else if radix == 8 {
            'O'
        } else {
            'X'
        };
        p == low || p == up
    } {
        let i2 = i1 + 2;
        let j = radix_digit_run(s, i2, radix);
        proof {
            lemma_run_end(s@, i2 as int, radix_pred(radix as int));
        }
        if j == i2 {
            return None;
        }
        let mut digs: Vec<u8> = Vec::new();
        let mut k = i2;
        proof {
            assert(radix_vals(s@, i2 as int, i2 as int, radix as int) =~= Seq::<u8>::empty());
        }
        while k < j
            invariant
                i2 <= k <= j <= s@.len(),
                radix == 2 || radix == 8 || radix == 16,
                j as int == run_end(s@, i2 as int, radix_pred(radix as int)),
                forall|m: int| i2 <= m < j ==> radix_digit(s@[m], radix as int),
                digs@ =~= radix_vals(s@, i2 as int, k as int, radix as int),
                forall|m: int| 0 <= m < digs@.len() ==> digs@[m] < radix,
            decreases j - k,
        {
            let d = radix_val_exec(s[k], radix);
            digs.push(d as u8);
            k = k + 1;
            proof {
                assert(digs@ =~= radix_vals(s@, i2 as int, k as int, radix as int));
            }
        }
        let conv = radix_to_decimal_digits(&digs, radix);
        let ghost v = digits_val(radix_vals(s@, i2 as int, j as int, radix as int), radix as int);
        let zero = conv.len() == 1 && conv[0] == 0;
        let ghost cd = conv@;
        proof {
            reveal_with_fuel(digits_val, 3);
            assert(digs@ =~= radix_vals(s@, i2 as int, j as int, radix as int));
            assert(digits_val(cd, 10) == v);
            lemma_digits_val_nonneg(digs@, radix as int);
            lemma_dec_digits_of(v);
            crate::decimal::lemma_strip_leading_zeros(dec_digits_of(v));
            if v == 0 {
                assert(dec_digits_of(v).len() == 0);
                assert(strip_leading_zeros(dec_digits_of(v)).len() == 0);
                if cd.len() > 1 {
                    crate::decimal::lemma_val_bounds(cd);
                    crate::decimal::lemma_pow10_increases(1, (cd.len() - 1) as nat);
                    assert(false);
                }
                assert(cd =~= seq![0u8]);
                assert(zero);
            } else {
                assert(strip_leading_zeros(dec_digits_of(v)) =~= dec_digits_of(v));
                if cd.len() == 1 && cd[0] == 0 {
                    assert(cd.drop_last() =~= Seq::<u8>::empty());
                    assert(digits_val(cd, 10) == 0);
                    assert(false);
                }
                lemma_val_injective(cd, dec_digits_of(v));
                assert(cd == dec_digits_of(v));
                assert(!zero);
            }
        }
        let result = Decimal { neg: if zero { false } else { neg }, digits: conv, scale: 0 };
        proof {
            let expect = dec_normalize(neg, dec_digits_of(v), 0);
            assert(result@.digits == cd);
            assert(result@ == expect);
        }
        Some((result, j))
    } else {
        None
    }
}

/// Parses an exponent at `i`. Values beyond the accepted limit are reported
/// saturated, so the caller's range test agrees with the specification.
fn exponent(s: &Vec<char>, i: usize) -> (r: Option<(i64, usize)>)
    requires
        i <= s@.len(),
    ensures
        (r is Some) == (spec_exponent(s@, i as int) is Some),
        r is Some ==> ({
            let (v, end) = spec_exponent(s@, i as int)->0;
            &&& (r->0).1 == end
            &&& (-exp_limit() <= v <= exp_limit() ==> (r->0).0 == v)
            &&& (!(-exp_limit() <= v <= exp_limit()) ==> ((r->0).0 > exp_limit() || (
            r->0).0 < -exp_limit()))
        }),
        r is Some ==> i < (r->0).1 <= s@.len(),
{
    if i < s.len() && (s[i] == 'e' || s[i] == 'E') {
        let (eneg, i1) = sign(s, i + 1);
        let end = digit_run(s, i1);
        proof {
            lemma_run_end(s@, i1 as int, digit_pred());
        }
        if end == i1 {
            return None;
        }
        let mut acc: i64 = 0;
        let mut k = i1;
        proof {
            assert(dec_vals(s@, i1 as int, i1 as int) =~= Seq::<u8>::empty());
        }
        while k < end
            invariant
                i1 <= k <= end <= s@.len(),
                end as int == run_end(s@, i1 as int, digit_pred()),
                forall|m: int| i1 <= m < end ==> is_digit(s@[m]),
                0 <= acc <= 20000,
                ({
                    let pv = digits_val(dec_vals(s@, i1 as int, k as int), 10);
                    if pv <= exp_limit() {
                        acc == pv
                    } else {
                        acc == 20000
                    }
                }),
            decreases end - k,
        {
            let d = (s[k] as u32) - 48;
            let ghost pre = dec_vals(s@, i1 as int, k as int);
            proof {
                lemma_digits_val_nonneg(pre, 10);
                assert(dec_vals(s@, i1 as int, k as int + 1) =~= pre.push(
                    digit_of(s@[k as int]) as u8,
                ));
                assert(dec_vals(s@, i1 as int, k as int + 1).drop_last() =~= pre);
            }
            let next = acc * 10 + (d as i64);
            acc = if next > 10000 {
                20000
            } else {
                next
            };
            k = k + 1;
        }
        proof {
            lemma_digits_val_nonneg(dec_vals(s@, i1 as int, end as int), 10);
        }
        let sv = if eneg {
            -acc
        } else {
            acc
        };
        Some((sv, end))
    } else {
        None
    }
}

/// Appends the digit values of `s[from..to]` to `out`.
fn push_dec_vals(out: &mut Vec<u8>, s: &Vec<char>, from: usize, to: usize)
    requires
        from <= to <= s@.len(),
        forall|m: int| from <= m < to ==> is_digit(s@[m]),
    ensures
        final(out)@ == old(out)@ + dec_vals(s@, from as int, to as int),
{
    let mut k = from;
    proof {
        assert(out@ =~= old(out)@ + dec_vals(s@, from as int, from as int));
    }
    while k < to
        invariant
            from <= k <= to <= s@.len(),
            forall|m: int| from <= m < to ==> is_digit(s@[m]),
            out@ =~= old(out)@ + dec_vals(s@, from as int, k as int),
        decreases to - k,
    {
        let d = (s[k] as u32) - 48;
        out.push(d as u8);
        k = k + 1;
        proof {
            assert(out@ =~= old(out)@ + dec_vals(s@, from as int, k as int));
        }
    }
}

/// Finishes a decimal number: optional exponent, limits, assembly.
fn dec_finish(s: &Vec<char>, pos: usize, neg: bool, md: Vec<u8>, frac_len: usize) -> (r: Option<
    (Decimal, usize),
>)
    requires
        pos <= s@.len(),
        md@.len() >= 1,
        forall|m: int| 0 <= m < md@.len() ==> md@[m] < 10,
    ensures
        (r is Some) == (spec_dec_finish(s@, pos as int, neg, md@, frac_len as int) is Some),
        r is Some ==> spec_dec_finish(s@, pos as int, neg, md@, frac_len as int) == Some(
            ((r->0).0@, (r->0).1 as int),
        ),
        r is Some ==> pos <= (r->0).1 <= s@.len() && (r->0).0@.wf(),
{
    let (e, end) = match exponent(s, pos) {
        None => (0i64, pos),
        Some((v, j)) => (v, j),
    };
    if e < -10000 || e > 10000 {
        return None;
    }
    if (frac_len as u64) > 0x1000_0000_0000_0000u64 {
        return None;
    }
    let scale = (frac_len as i64) - e;
    Some((Decimal::from_parts(neg, md, scale), end))
}

/// Parses a decimal number such as `-12.5e3`.
pub fn decimal(s: &Vec<char>, i: usize) -> (r: Option<(Decimal, usize)>)
    requires
        i <= s@.len(),
    ensures
        (r is Some) == (spec_dec_number(s@, i as int) is Some),
        r is Some ==> spec_dec_number(s@, i as int) == Some(((r->0).0@, (r->0).1 as int)),
        r is Some ==> i < (r->0).1 <= s@.len() && (r->0).0@.wf(),
{
    let (neg, i1) = sign(s, i);
    if i1 < s.len() && s[i1] == '.' {
        let fs = i1 + 1;
        let fe = digit_run(s, fs);
        proof {
            lemma_run_end(s@, fs as int, digit_pred());
        }
        if fe == fs {
            return None;
        }
        let mut md: Vec<u8> = Vec::new();
        push_dec_vals(&mut md, s, fs, fe);
        proof {
            assert(md@ =~= dec_vals(s@, fs as int, fe as int));
        }
        decimal_result(s, i, fe, neg, md, fe - fs)
    } else {
        let ie = digit_run(s, i1);
        proof {
            lemma_run_end(s@, i1 as int, digit_pred());
        }
        if ie == i1 {
            return None;
        }
        if ie < s.len() && s[ie] == '.' {
            let fs = ie + 1;
            let fe = digit_run(s, fs);
            proof {
                lemma_run_end(s@, fs as int, digit_pred());
            }
            let mut md: Vec<u8> = Vec::new();
            push_dec_vals(&mut md, s, i1, ie);
            push_dec_vals(&mut md, s, fs, fe);
            proof {
                assert(md@ =~= dec_vals(s@, i1 as int, ie as int) + dec_vals(
                    s@,
                    fs as int,
                    fe as int,
                ));
            }
            decimal_result(s, i, fe, neg, md, fe - fs)
        } else {
            let mut md: Vec<u8> = Vec::new();
            push_dec_vals(&mut md, s, i1, ie);
            proof {
                assert(md@ =~= Seq::<u8>::empty() + dec_vals(s@, i1 as int, ie as int));
                assert(md@ =~= dec_vals(s@, i1 as int, ie as int));
            }
            decimal_result(s, i, ie, neg, md, 0)
        }
    }
}

/// Wraps [`dec_finish`], threading the start position through for the
/// progress claim of [`decimal`].
fn decimal_result(s: &Vec<char>, start: usize, pos: usize, neg: bool, md: Vec<u8>, frac_len: usize)
    -> (r: Option<(Decimal, usize)>)
    requires
        start < pos <= s@.len(),
        md@.len() >= 1,
        forall|m: int| 0 <= m < md@.len() ==> md@[m] < 10,
    ensures
        (r is Some) == (spec_dec_finish(s@, pos as int, neg, md@, frac_len as int) is Some),
        r is Some ==> spec_dec_finish(s@, pos as int, neg, md@, frac_len as int) == Some(
            ((r->0).0@, (r->0).1 as int),
        ),
        r is Some ==> start < (r->0).1 <= s@.len() && (r->0).0@.wf(),
{
    dec_finish(s, pos, neg, md, frac_len)
}

/// Parses a number: binary, octal or hexadecimal with their prefixes, else
/// decimal.
pub fn parse_number(s: &Vec<char>, i: usize) -> (r: Option<(Decimal, usize)>)
    requires
        i <= s@.len(),
    ensures
        (r is Some) == (spec_number(s@, i as int) is Some),
        r is Some ==> spec_number(s@, i as int) == Some(((r->0).0@, (r->0).1 as int)),
        r is Some ==> i < (r->0).1 <= s@.len() && (r->0).0@.wf(),
{
    match binary(s, i) {
        Some(x) => Some(x),
        None => match octal(s, i) {
            Some(x) => Some(x),
            None => match hexadecimal(s, i) {
                Some(x) => Some(x),
                None => decimal(s, i),
            },
        },
    }
}

/// Parses a binary number such as `0b10`.
pub fn binary(s: &Vec<char>, i: usize) -> (r: Option<(Decimal, usize)>)
    requires
        i <= s@.len(),
    ensures
        (r is Some) == (spec_radix_number(s@, i as int, 2) is Some),
        r is Some ==> spec_radix_number(s@, i as int, 2) == Some(((r->0).0@, (r->0).1 as int)),
        r is Some ==> i < (r->0).1 <= s@.len() && (r->0).0@.wf(),
{
    signed_prefixed_int(s, i, 2)
}

/// Parses an octal number such as `0o17`.
pub fn octal(s: &Vec<char>, i: usize) -> (r: Option<(Decimal, usize)>)
    requires
        i <= s@.len(),
    ensures
        (r is Some) == (spec_radix_number(s@, i as int, 8) is Some),
        r is Some ==> spec_radix_number(s@, i as int, 8) == Some(((r->0).0@, (r->0).1 as int)),
        r is Some ==> i < (r->0).1 <= s@.len() && (r->0).0@.wf(),
{
    signed_prefixed_int(s, i, 8)
}

/// Parses a hexadecimal number such as `0x1F`.
pub fn hexadecimal(s: &Vec<char>, i: usize) -> (r: Option<(Decimal, usize)>)
    requires
        i <= s@.len(),
    ensures
        (r is Some) == (spec_radix_number(s@, i as int, 16) is Some),
        r is Some ==> spec_radix_number(s@, i as int, 16) == Some(((r->0).0@, (r->0).1 as int)),
        r is Some ==> i < (r->0).1 <= s@.len() && (r->0).0@.wf(),
{
    signed_prefixed_int(s, i, 16)
}

} // verus!

//! The laws of the textual encodings: parsing the textual form of an
//! address gives the address back.

use vstd::prelude::*;

use crate::address::{cell_text, col_letter, col_text, dec_digit_char, dec_text, CellAddress};
use crate::decimal::{
    dec_math_eq, dec_normalize, dec_text_of, digit_chars, digits_val, pow10,
    strip_leading_zeros, zero_chars, zero_digits, DecV,
};
use crate::parser::number::{
    frac_limit, prefix_low, prefix_up, spec_dec_number, spec_exponent, spec_number,
    spec_radix_number, spec_sign,
};
use crate::parser::range::{
    col_vals, dec_vals, spec_cell_address, spec_cell_address_complete, spec_col,
    spec_col_complete, spec_row, spec_row_complete,
};
use crate::parser::{
    digit_of, digit_pred, is_digit, is_letter, is_space, letter_pred, letter_val, run_end,
    space_pred,
};

verus! {

/// A run over characters that satisfy `p` up to `j` and not at `j` ends at
/// `j` exactly.
proof fn lemma_run_end_upto(s: Seq<char>, i: int, j: int, p: spec_fn(char) -> bool)
    requires
        0 <= i <= j <= s.len(),
        forall|k: int| i <= k < j ==> p(#[trigger] s[k]),
        j < s.len() ==> !p(s[j]),
    ensures
        run_end(s, i, p) == j,
    decreases j - i,
{
    if i < j {
        lemma_run_end_upto(s, i + 1, j, p);
    }
}

/// Every character of a column's text is an uppercase letter.
proof fn lemma_col_text_letters(n: int)
    ensures
        forall|k: int| 0 <= k < col_text(n).len() ==> is_letter(#[trigger] col_text(n)[k])
            && !is_space(col_text(n)[k]) && !is_digit(col_text(n)[k]),
    decreases n,
{
    if n > 0 {
        lemma_col_text_letters((n - 1) / 26);
        let m = (n - 1) / 26;
        let d = (n - 1) % 26;
        assert(col_letter(d) as int == 'A' as int + d);
        assert(is_letter(col_text(n).last()));
        assert forall|k: int| 0 <= k < col_text(n).len() implies is_letter(
            #[trigger] col_text(n)[k],
        ) && !is_space(col_text(n)[k]) && !is_digit(col_text(n)[k]) by {
            if k < col_text(n).len() - 1 {
                assert(col_text(n)[k] == col_text(m)[k]);
            } else {
                assert(col_text(n)[k] == col_letter(d));
            }
        }
    }
}

/// The letter values of a column's text denote the column number.
proof fn lemma_col_text_val(n: int)
    requires
        n >= 0,
    ensures
        digits_val(col_vals(col_text(n), 0, col_text(n).len() as int), 26) == n,
    decreases n,
{
    if n > 0 {
        let m = (n - 1) / 26;
        let d = (n - 1) % 26;
        lemma_col_text_val(m);
        let s = col_text(n);
        let v = col_vals(s, 0, s.len() as int);
        assert(col_letter(d) as int == 'A' as int + d);
        assert(letter_val(col_letter(d)) == d + 1);
        assert(v.drop_last() =~= col_vals(col_text(m), 0, col_text(m).len() as int));
        assert(v.last() == (d + 1) as u8);
        assert(digits_val(v, 26) == m * 26 + d + 1);
    }
}

/// Every character of a row's text is a digit.
proof fn lemma_dec_text_digits(n: int)
    ensures
        forall|k: int| 0 <= k < dec_text(n).len() ==> is_digit(#[trigger] dec_text(n)[k])
            && !is_space(dec_text(n)[k]) && !is_letter(dec_text(n)[k]),
    decreases n,
{
    if n > 0 {
        lemma_dec_text_digits(n / 10);
        let m = n / 10;
        let d = n % 10;
        assert(dec_digit_char(d) as int == '0' as int + d);
        assert(is_digit(dec_text(n).last()));
        assert forall|k: int| 0 <= k < dec_text(n).len() implies is_digit(
            #[trigger] dec_text(n)[k],
        ) && !is_space(dec_text(n)[k]) && !is_letter(dec_text(n)[k]) by {
            if k < dec_text(n).len() - 1 {
                assert(dec_text(n)[k] == dec_text(m)[k]);
            } else {
                assert(dec_text(n)[k] == dec_digit_char(d));
            }
        }
    }
}

/// The digit values of a row's text denote the row number.
proof fn lemma_dec_text_val(n: int)
    requires
        n >= 0,
    ensures
        digits_val(dec_vals(dec_text(n), 0, dec_text(n).len() as int), 10) == n,
    decreases n,
{
    if n > 0 {
        let m = n / 10;
        let d = n % 10;
        lemma_dec_text_val(m);
        let s = dec_text(n);
        let v = dec_vals(s, 0, s.len() as int);
        assert(dec_digit_char(d) as int == '0' as int + d);
        assert(digit_of(dec_digit_char(d)) == d);
        assert(v.drop_last() =~= dec_vals(dec_text(m), 0, dec_text(m).len() as int));
        assert(v.last() == d as u8);
        assert(digits_val(v, 10) == m * 10 + d);
    }
}

/// A positive number has nonempty text.
proof fn lemma_col_text_some(n: int)
    requires
        n >= 1,
    ensures
        col_text(n).len() >= 1,
{
}

/// Column text round-trip: for every column number from 1 up, parsing the
/// base-26 letters of the number gives the number back.
pub proof fn lemma_col_round_trip(n: int)
    requires
        1 <= n <= u32::MAX,
    ensures
        spec_col_complete(col_text(n)) == Some(n as u32),
{
    let s = col_text(n);
    lemma_col_text_letters(n);
    lemma_col_text_val(n);
    lemma_col_text_some(n);
    lemma_run_end_upto(s, 0, 0, space_pred());
    lemma_run_end_upto(s, 0, s.len() as int, letter_pred());
    assert(spec_col(s, 0) == Some((n as u32, s.len() as int)));
    lemma_run_end_upto(s, s.len() as int, s.len() as int, space_pred());
}

/// Row text round-trip: for every row number from 1 up, parsing the decimal
/// digits of the number gives the number back.
pub proof fn lemma_row_round_trip(n: int)
    requires
        1 <= n <= u32::MAX,
    ensures
        spec_row_complete(dec_text(n)) == Some(n as u32),
{
    let s = dec_text(n);
    lemma_dec_text_digits(n);
    lemma_dec_text_val(n);
    lemma_run_end_upto(s, 0, 0, space_pred());
    lemma_run_end_upto(s, 0, s.len() as int, digit_pred());
    assert(spec_row(s, 0) == Some((n as u32, s.len() as int)));
    lemma_run_end_upto(s, s.len() as int, s.len() as int, space_pred());
}

/// Cell address round-trip: parsing the textual form of any valid cell
/// address gives the address back.
pub proof fn lemma_cell_address_round_trip(a: CellAddress)
    requires
        a.valid(),
    ensures
        spec_cell_address_complete(cell_text(a)) == Some(a),
{
    let cs = col_text(a.col.n as int);
    let rs = dec_text(a.row.n as int);
    let s = cell_text(a);
    lemma_col_text_letters(a.col.n as int);
    lemma_col_text_val(a.col.n as int);
    lemma_col_text_some(a.col.n as int);
    lemma_dec_text_digits(a.row.n as int);
    lemma_dec_text_val(a.row.n as int);
    lemma_run_end_upto(s, 0, 0, space_pred());
    assert(rs.len() >= 1);
    lemma_run_end_upto(s, 0, cs.len() as int, letter_pred());
    assert(col_vals(s, 0, cs.len() as int) =~= col_vals(cs, 0, cs.len() as int));
    assert(spec_col(s, 0) == Some((a.col.n, cs.len() as int)));
    lemma_run_end_upto(s, cs.len() as int, s.len() as int, digit_pred());
    assert(dec_vals(s, cs.len() as int, s.len() as int) =~= dec_vals(rs, 0, rs.len() as int));
    assert(spec_row(s, cs.len() as int) == Some((a.row.n, s.len() as int)));
    assert(spec_cell_address(s, 0) == Some((a, s.len() as int)));
    lemma_run_end_upto(s, s.len() as int, s.len() as int, space_pred());
}

/// Every rendered digit character is a digit and nothing else the number
/// grammar treats specially.
proof fn lemma_digit_chars_class(ds: Seq<u8>)
    requires
        forall|k: int| 0 <= k < ds.len() ==> ds[k] < 10,
    ensures
        forall|k: int| 0 <= k < ds.len() ==> is_digit(#[trigger] digit_chars(ds)[k])
            && digit_of(digit_chars(ds)[k]) == ds[k],
{
    assert forall|k: int| 0 <= k < ds.len() implies is_digit(#[trigger] digit_chars(ds)[k])
        && digit_of(digit_chars(ds)[k]) == ds[k] by {
        assert(digit_chars(ds)[k] == dec_digit_char(ds[k] as int));
        assert(dec_digit_char(ds[k] as int) as int == '0' as int + ds[k]);
    }
}

/// Stripping leading zeros ignores a prefix of zeros.
proof fn lemma_strip_zeros_prefix(p: Seq<u8>, t: Seq<u8>)
    requires
        forall|k: int| 0 <= k < p.len() ==> p[k] == 0,
    ensures
        strip_leading_zeros(p + t) == strip_leading_zeros(t),
    decreases p.len(),
{
    if p.len() == 0 {
        assert(p + t =~= t);
    } else {
        assert((p + t)[0] == 0);
        assert((p + t).drop_first() =~= p.drop_first() + t);
        lemma_strip_zeros_prefix(p.drop_first(), t);
    }
}

/// The sign, if any, of a decimal's text is consumed first; afterwards the
/// position rests on the first character of the body.
proof fn lemma_text_sign(d: DecV)
    requires
        d.wf(),
    ensures
        spec_sign(dec_text_of(d), 0) == ((d.neg, if d.neg { 1int } else { 0int })),
        dec_text_of(d).len() > (if d.neg { 1int } else { 0int }),
{
    let s = dec_text_of(d);
    if d.neg {
        assert(s[0] == '-');
    } else {
        if d.scale <= 0 {
            assert(s[0] == digit_chars(d.digits)[0]);
            lemma_digit_chars_class(d.digits);
        } else if d.scale < d.digits.len() {
            assert(s[0] == digit_chars(d.digits.take(d.digits.len() - d.scale))[0]);
            lemma_digit_chars_class(d.digits.take(d.digits.len() - d.scale));
        } else {
            assert(s[0] == '0');
        }
    }
}

/// The canonical text of a decimal never starts with a radix prefix such
/// as `0x`, so the number parser reads it as a decimal.
proof fn lemma_text_no_radix_prefix(d: DecV, radix: int)
    requires
        d.wf(),
        radix == 2 || radix == 8 || radix == 16,
    ensures
        spec_radix_number(dec_text_of(d), 0, radix) is None,
{
    let s = dec_text_of(d);
    let len = d.digits.len() as int;
    let i1: int = if d.neg { 1 } else { 0 };
    lemma_text_sign(d);
    lemma_digit_chars_class(d.digits);
    if i1 + 1 < s.len() && s[i1] == '0' {
        if d.scale <= 0 {
            assert(s[i1] == digit_chars(d.digits)[0]);
            assert(d.digits[0] == 0);
            assert(d.digits =~= seq![0u8]);
            assert(s.len() == i1 + 1);
        } else if d.scale < len {
            let intd = d.digits.take(len - d.scale);
            lemma_digit_chars_class(intd);
            assert(s[i1] == digit_chars(intd)[0]);
            assert(d.digits[0] == 0);
            assert(len == 1);
        } else {
            assert(s[i1 + 1] == '.');
            assert('.' as int == 46);
            assert(prefix_low(radix) as int != 46 && prefix_up(radix) as int != 46);
        }
    }
}

/// Numeric text round-trip at the grammar's entry point: the number parser
/// reads the canonical text of a well-formed decimal back as a
/// mathematically equal decimal spanning the whole text.
pub proof fn lemma_parse_number_round_trip(d: DecV)
    requires
        d.wf(),
        d.scale <= frac_limit(),
    ensures
        spec_number(dec_text_of(d), 0) is Some,
        dec_math_eq((spec_number(dec_text_of(d), 0)->0).0, d),
        (spec_number(dec_text_of(d), 0)->0).1 == dec_text_of(d).len(),
{
    lemma_text_no_radix_prefix(d, 2);
    lemma_text_no_radix_prefix(d, 8);
    lemma_text_no_radix_prefix(d, 16);
    lemma_number_round_trip(d);
}

/// Numeric text round-trip: parsing the canonical text of a well-formed
/// decimal (whose scale the parser's fraction cap admits) yields a
/// mathematically equal decimal spanning the whole text.
#[verifier::rlimit(100)]
#[verifier::spinoff_prover]
pub proof fn lemma_number_round_trip(d: DecV)
    requires
        d.wf(),
        d.scale <= frac_limit(),
    ensures
        spec_dec_number(dec_text_of(d), 0) is Some,
        dec_math_eq((spec_dec_number(dec_text_of(d), 0)->0).0, d),
        (spec_dec_number(dec_text_of(d), 0)->0).1 == dec_text_of(d).len(),
{
    let s = dec_text_of(d);
    let len = d.digits.len() as int;
    let ghost sign: Seq<char> = if d.neg { seq!['-'] } else { Seq::empty() };
    let i1: int = if d.neg { 1 } else { 0 };
    lemma_text_sign(d);
    lemma_digit_chars_class(d.digits);
    crate::decimal::lemma_strip_leading_zeros(d.digits);
    if d.scale <= 0 {
        // body: the digits, then zeros; one digit run to the end
        assert forall|k: int| i1 <= k < s.len() implies is_digit(#[trigger] s[k]) by {
            if k < i1 + len {
                assert(s[k] == digit_chars(d.digits)[k - i1]);
            } else {
                assert(s[k] == zero_chars((-d.scale) as nat)[k - i1 - len]);
                assert(s[k] == '0');
            }
        }
        lemma_run_end_upto(s, i1, s.len() as int, digit_pred());
        assert(s[i1] != '.');
        let md = dec_vals(s, i1, s.len() as int);
        assert(md =~= d.digits + zero_digits((-d.scale) as nat)) by {
            assert forall|k: int| 0 <= k < md.len() implies md[k] == (d.digits + zero_digits(
                (-d.scale) as nat,
            ))[k] by {
                if k < len {
                    assert(s[i1 + k] == digit_chars(d.digits)[k]);
                } else {
                    assert(s[i1 + k] == '0');
                }
            }
        }
        assert(spec_exponent(s, s.len() as int) is None);
        let r = dec_normalize(d.neg, md, 0);
        assert(spec_dec_number(s, 0) == Some((r, s.len() as int)));
        crate::decimal::lemma_val_append_zeros(d.digits, (-d.scale) as nat);
        if d.is_zero() {
            assert(md =~= seq![0u8] + zero_digits(0));
            assert(md =~= seq![0u8]);
            assert(strip_leading_zeros(md) =~= Seq::<u8>::empty()) by {
                assert(md.drop_first() =~= Seq::<u8>::empty());
            }
            assert(r == d);
            assert(pow10(0) == 1);
            assert(r.mant() * 1 == r.mant()) by (nonlinear_arith);
            assert(dec_math_eq(r, d));
        } else {
            assert(md[0] == d.digits[0]);
            assert(strip_leading_zeros(md) =~= md);
            assert(r.digits == md && r.neg == d.neg && r.scale == 0);
            assert(digits_val(md, 10) == digits_val(d.digits, 10) * pow10((-d.scale) as nat));
            assert(r.scale >= d.scale);
            assert((-digits_val(d.digits, 10)) * pow10((-d.scale) as nat) == -(digits_val(
                d.digits,
                10,
            ) * pow10((-d.scale) as nat))) by (nonlinear_arith);
            assert(dec_math_eq(r, d));
        }
    } else if d.scale < len {
        // body: integer digits, a point, fraction digits
        let cut = len - d.scale;
        let intd = d.digits.take(cut);
        let frac = d.digits.skip(cut);
        lemma_digit_chars_class(intd);
        lemma_digit_chars_class(frac);
        assert(!d.is_zero()) by {
            if d.digits =~= seq![0u8] {
            }
        }
        assert forall|k: int| i1 <= k < i1 + cut implies is_digit(#[trigger] s[k]) by {
            assert(s[k] == digit_chars(intd)[k - i1]);
        }
        assert(s[i1 + cut] == '.');
        assert(!is_digit('.'));
        lemma_run_end_upto(s, i1, i1 + cut, digit_pred());
        assert(s[i1] == digit_chars(intd)[0]);
        assert(s[i1] != '.');
        let fs = i1 + cut + 1;
        assert forall|k: int| fs <= k < s.len() implies is_digit(#[trigger] s[k]) by {
            assert(s[k] == digit_chars(frac)[k - fs]);
        }
        lemma_run_end_upto(s, fs, s.len() as int, digit_pred());
        let md = dec_vals(s, i1, i1 + cut) + dec_vals(s, fs, s.len() as int);
        assert(md =~= d.digits) by {
            assert forall|k: int| 0 <= k < md.len() implies md[k] == d.digits[k] by {
                if k < cut {
                    assert(s[i1 + k] == digit_chars(intd)[k]);
                } else {
                    assert(s[fs + (k - cut)] == digit_chars(frac)[k - cut]);
                }
            }
        }
        assert(spec_exponent(s, s.len() as int) is None);
        let r = dec_normalize(d.neg, md, d.scale);
        assert(spec_dec_number(s, 0) == Some((r, s.len() as int)));
        assert(md[0] == d.digits[0]);
        assert(strip_leading_zeros(md) =~= md);
        assert(r == d);
        assert(pow10(0) == 1);
        assert(r.mant() * 1 == r.mant()) by (nonlinear_arith);
        assert(dec_math_eq(r, d));
    } else {
        // body: a zero, a point, leading zeros, then the digits
        let zn = (d.scale - len) as nat;
        assert(!d.is_zero()) by {
            if d.digits =~= seq![0u8] {
            }
        }
        assert(s[i1] == '0');
        assert(s[i1 + 1] == '.');
        assert(is_digit('0') && !is_digit('.'));
        lemma_run_end_upto(s, i1, i1 + 1, digit_pred());
        let fs = i1 + 2;
        assert forall|k: int| fs <= k < s.len() implies is_digit(#[trigger] s[k]) by {
            if k < fs + zn {
                assert(s[k] == zero_chars(zn)[k - fs]);
                assert(s[k] == '0');
            } else {
                assert(s[k] == digit_chars(d.digits)[k - fs - zn]);
            }
        }
        lemma_run_end_upto(s, fs, s.len() as int, digit_pred());
        let md = dec_vals(s, i1, i1 + 1) + dec_vals(s, fs, s.len() as int);
        assert(md =~= seq![0u8] + (zero_digits(zn) + d.digits)) by {
            assert forall|k: int| 0 <= k < md.len() implies md[k] == (seq![0u8] + (zero_digits(
                zn,
            ) + d.digits))[k] by {
                if k == 0 {
                    assert(s[i1] == '0');
                } else if k < 1 + zn {
                    assert(s[fs + (k - 1)] == '0');
                } else {
                    assert(s[fs + (k - 1)] == digit_chars(d.digits)[k - 1 - zn]);
                }
            }
        }
        assert(spec_exponent(s, s.len() as int) is None);
        let frac_len = (s.len() - fs) as int;
        assert(frac_len == d.scale);
        let r = dec_normalize(d.neg, md, d.scale);
        assert(spec_dec_number(s, 0) == Some((r, s.len() as int)));
        assert(strip_leading_zeros(md) == d.digits) by {
            assert(md =~= (seq![0u8] + zero_digits(zn)) + d.digits);
            assert forall|k: int| 0 <= k < (seq![0u8] + zero_digits(zn)).len() implies (
            seq![0u8] + zero_digits(zn))[k] == 0 by {}
            lemma_strip_zeros_prefix(seq![0u8] + zero_digits(zn), d.digits);
            assert(strip_leading_zeros(d.digits) =~= d.digits);
        }
        assert(r == d);
        assert(pow10(0) == 1);
        assert(r.mant() * 1 == r.mant()) by (nonlinear_arith);
        assert(dec_math_eq(r, d));
    }
}

} // verus!

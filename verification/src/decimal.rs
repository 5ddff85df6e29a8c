//! Exact decimal numbers: a sign, a base-10 mantissa, and a scale.
//!
//! A value stands for `mantissa * 10^(-scale)` with the sign applied, so the
//! representation is exact: no binary floating point is involved anywhere.
//! Two decimals are equal when they denote the same number, so `1` equals
//! `1.0` although their scales differ.

use vstd::prelude::*;

use crate::text::rev_seq;

verus! {

/// An exact decimal: `digits` are the base-10 mantissa digits, most
/// significant first, and the denoted number is
/// `(-1 if neg) * digits * 10^(-scale)`.
#[derive(Debug)]
pub struct Decimal {
    pub neg: bool,
    pub digits: Vec<u8>,
    pub scale: i64,
}

/// The mathematical content of a [`Decimal`].
pub struct DecV {
    pub neg: bool,
    pub digits: Seq<u8>,
    pub scale: int,
}

impl View for Decimal {
    type V = DecV;

    open spec fn view(&self) -> DecV {
        DecV { neg: self.neg, digits: self.digits@, scale: self.scale as int }
    }
}

/// The integer denoted by base-`base` digits, most significant first.
pub open spec fn digits_val(s: Seq<u8>, base: int) -> int
    decreases s.len(),
{
    if s.len() == 0 {
        0
    } else {
        digits_val(s.drop_last(), base) * base + s.last()
    }
}

/// Ten to the power `e`.
pub open spec fn pow10(e: nat) -> int
    decreases e,
{
    if e == 0 {
        1
    } else {
        10 * pow10((e - 1) as nat)
    }
}

/// A sequence of `n` zero digits.
pub open spec fn zero_digits(n: nat) -> Seq<u8> {
    Seq::new(n, |i: int| 0u8)
}

impl DecV {
    /// Well-formed: at least one digit, every digit below ten, no leading
    /// zero (except for zero itself, written with the single digit 0, a
    /// positive sign and scale zero), and a scale that sums safely.
    pub open spec fn wf(self) -> bool {
        &&& self.digits.len() >= 1
        &&& forall|i: int| 0 <= i < self.digits.len() ==> self.digits[i] < 10
        &&& (self.digits[0] != 0 || self.digits.len() == 1)
        &&& (self.is_zero() ==> !self.neg && self.scale == 0)
        &&& -0x4000_0000_0000_0000 <= self.scale <= 0x4000_0000_0000_0000
    }

    /// The mantissa is the single digit 0.
    pub open spec fn is_zero(self) -> bool {
        self.digits =~= seq![0u8]
    }

    /// The signed mantissa.
    pub open spec fn mant(self) -> int {
        if self.neg {
            -digits_val(self.digits, 10)
        } else {
            digits_val(self.digits, 10)
        }
    }
}

/// `a` and `b` denote the same number: their mantissas agree once the one
/// with the smaller scale is scaled up to the other's scale.
pub open spec fn dec_math_eq(a: DecV, b: DecV) -> bool {
    if a.scale >= b.scale {
        a.mant() == b.mant() * pow10((a.scale - b.scale) as nat)
    } else {
        a.mant() * pow10((b.scale - a.scale) as nat) == b.mant()
    }
}

/// The well-formed decimal denoting `digits * 10^(-scale)` with sign `neg`:
/// leading zeros are dropped, and zero is put in its single canonical form.
pub open spec fn dec_normalize(neg: bool, digits: Seq<u8>, scale: int) -> DecV {
    let stripped = strip_leading_zeros(digits);
    if stripped.len() == 0 {
        DecV { neg: false, digits: seq![0u8], scale: 0 }
    } else {
        DecV { neg, digits: stripped, scale }
    }
}

/// `digits` with every leading zero removed.
pub open spec fn strip_leading_zeros(digits: Seq<u8>) -> Seq<u8>
    decreases digits.len(),
{
    if digits.len() == 0 {
        digits
    } else if digits[0] == 0 {
        strip_leading_zeros(digits.drop_first())
    } else {
        digits
    }
}

pub proof fn lemma_strip_leading_zeros(digits: Seq<u8>)
    ensures
        strip_leading_zeros(digits).len() <= digits.len(),
        strip_leading_zeros(digits) =~= digits.skip(
            digits.len() - strip_leading_zeros(digits).len(),
        ),
        forall|i: int| 0 <= i < digits.len() - strip_leading_zeros(digits).len()
            ==> digits[i] == 0,
        strip_leading_zeros(digits).len() > 0 ==> strip_leading_zeros(digits)[0] != 0,
    decreases digits.len(),
{
    if digits.len() > 0 && digits[0] == 0 {
        lemma_strip_leading_zeros(digits.drop_first());
        assert forall|i: int|
            0 <= i < digits.len() - strip_leading_zeros(digits).len() implies digits[i]
            == 0 by {
            if i > 0 {
                assert(digits.drop_first()[i - 1] == 0);
            }
        }
    }
}

/// The base-10 digits of `n`, most significant first; empty for zero.
pub open spec fn dec_digits_of(n: int) -> Seq<u8>
    decreases n,
{
    if n <= 0 {
        Seq::empty()
    } else {
        dec_digits_of(n / 10).push((n % 10) as u8)
    }
}

/// The digits of `n` denote `n`, are digits, and have no leading zero.
pub proof fn lemma_dec_digits_of(n: int)
    requires
        n >= 0,
    ensures
        digits_val(dec_digits_of(n), 10) == n,
        forall|i: int| 0 <= i < dec_digits_of(n).len() ==> dec_digits_of(n)[i] < 10,
        dec_digits_of(n).len() >= 1 <==> n >= 1,
        dec_digits_of(n).len() >= 1 ==> dec_digits_of(n)[0] != 0,
    decreases n,
{
    if n > 0 {
        lemma_dec_digits_of(n / 10);
        let pre = dec_digits_of(n / 10);
        assert(dec_digits_of(n).drop_last() =~= pre);
        if pre.len() >= 1 {
            assert(dec_digits_of(n)[0] == pre[0]);
        } else {
            assert(n < 10);
            assert(dec_digits_of(n)[0] == (n % 10) as u8);
        }
    }
}

/// With a nonnegative base the denoted integer is nonnegative.
pub proof fn lemma_digits_val_nonneg(s: Seq<u8>, base: int)
    requires
        base >= 0,
    ensures
        digits_val(s, base) >= 0,
    decreases s.len(),
{
    if s.len() > 0 {
        lemma_digits_val_nonneg(s.drop_last(), base);
        let h = digits_val(s.drop_last(), base);
        assert(h * base >= 0) by (nonlinear_arith)
            requires
                h >= 0,
                base >= 0,
        ;
    }
}

/// Appending digits never shrinks the denoted integer.
pub proof fn lemma_digits_val_extend(s: Seq<u8>, t: Seq<u8>, base: int)
    requires
        base >= 1,
    ensures
        digits_val(s + t, base) >= digits_val(s, base),
    decreases t.len(),
{
    if t.len() == 0 {
        assert(s + t =~= s);
    } else {
        lemma_digits_val_extend(s, t.drop_last(), base);
        assert((s + t).drop_last() =~= s + t.drop_last());
        let h = digits_val(s + t.drop_last(), base);
        lemma_digits_val_nonneg(s + t.drop_last(), base);
        assert(h * base >= h) by (nonlinear_arith)
            requires
                h >= 0,
                base >= 1,
        ;
    }
}

/// The last digit is a lower bound when the leading part is nonnegative.
pub proof fn lemma_digits_val_last_lb(s: Seq<u8>, base: int)
    requires
        base >= 1,
        s.len() >= 1,
    ensures
        digits_val(s, base) >= s.last(),
{
    lemma_digits_val_nonneg(s.drop_last(), base);
    let h = digits_val(s.drop_last(), base);
    assert(h * base >= 0) by (nonlinear_arith)
        requires
            h >= 0,
            base >= 0,
    ;
}

/// Bounds of the denoted integer: below `10^len`, and at least
/// `10^(len-1)` when the leading digit is not zero.
pub proof fn lemma_val_bounds(s: Seq<u8>)
    requires
        forall|i: int| 0 <= i < s.len() ==> s[i] < 10,
    ensures
        0 <= digits_val(s, 10) < pow10(s.len() as nat),
        s.len() >= 1 && s[0] != 0 ==> digits_val(s, 10) >= pow10((s.len() - 1) as nat),
    decreases s.len(),
{
    if s.len() > 0 {
        lemma_val_bounds(s.drop_last());
        let h = digits_val(s.drop_last(), 10);
        let p = pow10((s.len() - 1) as nat);
        assert(h * 10 + s.last() < p * 10) by (nonlinear_arith)
            requires h < p, s.last() < 10, 0 <= h;
        assert(h * 10 + s.last() >= h * 10 >= 0) by (nonlinear_arith)
            requires 0 <= h;
        if s.len() >= 2 && s[0] != 0 {
            assert(s.drop_last()[0] == s[0]);
            let q = pow10((s.len() - 2) as nat);
            assert(h * 10 >= q * 10) by (nonlinear_arith)
                requires h >= q;
        }
    }
}

/// Two digit strings without leading zeros denote the same integer only
/// when they are the same string.
pub proof fn lemma_val_injective(u: Seq<u8>, v: Seq<u8>)
    requires
        forall|i: int| 0 <= i < u.len() ==> u[i] < 10,
        forall|i: int| 0 <= i < v.len() ==> v[i] < 10,
        u.len() >= 1,
        v.len() >= 1,
        u[0] != 0 || u.len() == 1,
        v[0] != 0 || v.len() == 1,
        digits_val(u, 10) == digits_val(v, 10),
    ensures
        u =~= v,
    decreases u.len(),
{
    reveal_with_fuel(digits_val, 4);
    lemma_val_bounds(u);
    lemma_val_bounds(v);
    if u.len() < v.len() {
        lemma_pow10_increases(u.len() as nat, (v.len() - 1) as nat);
        assert(false);
    }
    if v.len() < u.len() {
        lemma_pow10_increases(v.len() as nat, (u.len() - 1) as nat);
        assert(false);
    }
    if u.len() == 1 {
        assert(u.drop_last() =~= Seq::<u8>::empty());
        assert(v.drop_last() =~= Seq::<u8>::empty());
        assert(u =~= seq![u[0]]);
        assert(v =~= seq![v[0]]);
    } else {
        let a = digits_val(u.drop_last(), 10);
        let b = digits_val(v.drop_last(), 10);
        assert(a * 10 + u.last() == b * 10 + v.last());
        assert(a == b && u.last() == v.last()) by (nonlinear_arith)
            requires
                a * 10 + u.last() == b * 10 + v.last(),
                0 <= u.last() < 10,
                0 <= v.last() < 10;
        if u.len() == 2 && u[0] == 0 {
            assert(false);
        }
        lemma_val_injective(u.drop_last(), v.drop_last());
        assert(u =~= u.drop_last().push(u.last()));
        assert(v =~= v.drop_last().push(v.last()));
    }
}

/// `pow10` grows with the exponent.
pub proof fn lemma_pow10_increases(a: nat, b: nat)
    requires
        a <= b,
    ensures
        1 <= pow10(a) <= pow10(b),
    decreases b,
{
    lemma_pow10_pos(a);
    if a < b {
        lemma_pow10_increases(a, (b - 1) as nat);
        lemma_pow10_pos((b - 1) as nat);
    }
}

/// `pow10` is positive.
pub proof fn lemma_pow10_pos(e: nat)
    ensures
        pow10(e) >= 1,
    decreases e,
{
    if e > 0 {
        lemma_pow10_pos((e - 1) as nat);
    }
}

/// Appending `n` zero digits multiplies the denoted integer by `10^n`.
pub proof fn lemma_val_append_zeros(s: Seq<u8>, n: nat)
    ensures
        digits_val(s + zero_digits(n), 10) == digits_val(s, 10) * pow10(n),
    decreases n,
{
    if n == 0 {
        assert(s + zero_digits(0) =~= s);
    } else {
        let t = s + zero_digits((n - 1) as nat);
        assert(s + zero_digits(n) =~= t.push(0u8));
        assert((s + zero_digits(n)).drop_last() =~= t);
        lemma_val_append_zeros(s, (n - 1) as nat);
        let v = digits_val(s, 10);
        let p = pow10((n - 1) as nat);
        assert((v * p) * 10 == v * (10 * p)) by (nonlinear_arith);
    }
}

impl Decimal {
    /// The decimal denoting `digits * 10^(-scale)` with sign `neg`.
    #[verifier::rlimit(50)]
    pub fn from_parts(neg: bool, digits: Vec<u8>, scale: i64) -> (r: Decimal)
        requires
            digits@.len() >= 1,
            forall|i: int| 0 <= i < digits@.len() ==> digits@[i] < 10,
            -0x4000_0000_0000_0000 <= scale <= 0x4000_0000_0000_0000,
        ensures
            r@ == dec_normalize(neg, digits@, scale as int),
            r@.wf(),
    {
        proof {
            lemma_strip_leading_zeros(digits@);
            assert(digits@.skip(0) =~= digits@);
        }
        let mut i: usize = 0;
        while i < digits.len() && digits[i] == 0
            invariant
                i <= digits@.len(),
                forall|j: int| 0 <= j < i ==> digits@[j] == 0,
                strip_leading_zeros(digits@) =~= strip_leading_zeros(digits@.skip(i as int)),
            decreases digits@.len() - i,
        {
            proof {
                assert(digits@.skip(i as int).drop_first() =~= digits@.skip(i as int + 1));
            }
            i = i + 1;
        }
        proof {
            if i < digits@.len() {
                assert(strip_leading_zeros(digits@.skip(i as int)) =~= digits@.skip(i as int));
            } else {
                assert(digits@.skip(i as int) =~= Seq::<u8>::empty());
            }
        }
        if i == digits.len() {
            let mut zero: Vec<u8> = Vec::new();
            zero.push(0u8);
            proof {
                assert(zero@ =~= seq![0u8]);
            }
            Decimal { neg: false, digits: zero, scale: 0 }
        } else {
            let mut kept: Vec<u8> = Vec::new();
            let mut j: usize = i;
            while j < digits.len()
                invariant
                    i <= j <= digits@.len(),
                    kept@ =~= digits@.subrange(i as int, j as int),
                decreases digits@.len() - j,
            {
                kept.push(digits[j]);
                j = j + 1;
            }
            proof {
                assert(kept@ =~= digits@.skip(i as int));
                let r = DecV { neg, digits: kept@, scale: scale as int };
                assert(r.digits[0] != 0);
                assert(!r.is_zero());
            }
            Decimal { neg, digits: kept, scale }
        }
    }

    /// The decimal with mantissa `n` and scale zero.
    pub fn from_u32(n: u32) -> (r: Decimal)
        ensures
            r@.wf(),
            r@.mant() == n,
            r@.scale == 0,
            r@.neg == false,
    {
        let mut rev: Vec<u8> = Vec::new();
        let mut num = n;
        proof {
            assert(rev_seq(rev@) =~= Seq::<u8>::empty());
        }
        while num > 0
            invariant
                forall|i: int| 0 <= i < rev@.len() ==> rev@[i] < 10,
                0 <= digits_val(rev_seq(rev@), 10),
                n == num * pow10(rev@.len() as nat) + digits_val(rev_seq(rev@), 10),
                num == 0 ==> (n == 0 <==> rev@.len() == 0),
                rev@.len() > 0 && num == 0 ==> rev_seq(rev@)[0] != 0,
            decreases num,
        {
            let d = num % 10;
            let ghost num0 = num as int;
            let ghost old_rev = rev@;
            let ghost k = rev@.len() as nat;
            num = num / 10;
            rev.push(d as u8);
            proof {
                crate::text::lemma_rev_push(old_rev, d as u8);
                crate::text::lemma_rev_len(old_rev);
                assert(rev_seq(rev@) =~= seq![d as u8] + rev_seq(old_rev));
                lemma_val_prepend(rev_seq(old_rev), d as u8);
                lemma_pow10_increases(0, k);
                assert(pow10(k + 1) == 10 * pow10(k));
                assert(num0 * pow10(k) == (num0 / 10) * pow10(k + 1) + (num0 % 10) * pow10(k))
                    by (nonlinear_arith)
                    requires
                        pow10(k + 1) == 10 * pow10(k),
                ;
                assert(d as int * pow10(k) >= 0) by (nonlinear_arith)
                    requires
                        0 <= d as int,
                        0 <= pow10(k),
                ;
                if num == 0 {
                    assert(rev_seq(rev@)[0] == d as u8);
                    assert(d > 0);
                    assert(d as int * pow10(k) >= pow10(k)) by (nonlinear_arith)
                        requires
                            d >= 1,
                            pow10(k) >= 0,
                    ;
                    assert(n > 0);
                }
            }
        }
        let fwd = crate::text::rev_vec(&rev);
        if fwd.len() == 0 {
            let mut zero: Vec<u8> = Vec::new();
            zero.push(0u8);
            proof {
                assert(zero@ =~= seq![0u8]);
                assert((seq![0u8]).drop_last() =~= Seq::<u8>::empty());
                assert(digits_val(seq![0u8], 10) == 0);
            }
            Decimal { neg: false, digits: zero, scale: 0 }
        } else {
            proof {
                crate::text::lemma_rev_index(rev@);
                assert(fwd@[0] != 0);
                assert(!(DecV { neg: false, digits: fwd@, scale: 0 }).is_zero());
            }
            Decimal { neg: false, digits: fwd, scale: 0 }
        }
    }

    /// Whether the decimal denotes zero.
    pub fn is_zero(&self) -> (r: bool)
        requires
            self@.wf(),
        ensures
            r == self@.is_zero(),
    {
        let r = self.digits.len() == 1 && self.digits[0] == 0;
        proof {
            if self.digits@.len() == 1 && self.digits@[0] == 0 {
                assert(self.digits@ =~= seq![0u8]);
            }
        }
        r
    }
}

/// Putting a digit in front of `s` puts its value in the highest place.
pub proof fn lemma_val_prepend(s: Seq<u8>, d: u8)
    ensures
        digits_val(seq![d] + s, 10) == d * pow10(s.len() as nat) + digits_val(s, 10),
    decreases s.len(),
{
    reveal_with_fuel(digits_val, 4);
    if s.len() == 0 {
        assert(seq![d] + s =~= seq![d]);
        assert((seq![d]).drop_last() =~= Seq::<u8>::empty());
    } else {
        assert((seq![d] + s).drop_last() =~= seq![d] + s.drop_last());
        assert((seq![d] + s).last() == s.last());
        lemma_val_prepend(s.drop_last(), d);
        let p = pow10((s.len() - 1) as nat);
        assert((d * p + digits_val(s.drop_last(), 10)) * 10
            == d * (10 * p) + digits_val(s.drop_last(), 10) * 10) by (nonlinear_arith);
    }
}

/// The canonical text of a decimal: a minus sign for negative numbers, then
/// plain positional notation, with a decimal point only when the scale is
/// positive and leading zeros only as the scale demands.
pub open spec fn dec_text_of(d: DecV) -> Seq<char> {
    let sign: Seq<char> = if d.neg {
        seq!['-']
    } else {
        Seq::empty()
    };
    let len = d.digits.len() as int;
    if d.scale <= 0 {
        sign + digit_chars(d.digits) + zero_chars((-d.scale) as nat)
    } else if d.scale < len {
        sign + digit_chars(d.digits.take(len - d.scale)) + seq!['.'] + digit_chars(
            d.digits.skip(len - d.scale),
        )
    } else {
        sign + seq!['0', '.'] + zero_chars((d.scale - len) as nat) + digit_chars(d.digits)
    }
}

/// Digits rendered as characters.
pub open spec fn digit_chars(s: Seq<u8>) -> Seq<char> {
    Seq::new(s.len(), |i: int| crate::address::dec_digit_char(s[i] as int))
}

/// `n` zero characters.
pub open spec fn zero_chars(n: nat) -> Seq<char> {
    Seq::new(n, |i: int| '0')
}

/// Appends the characters of `digits[from..to]` to `out`.
fn push_digit_chars(out: &mut Vec<char>, digits: &Vec<u8>, from: usize, to: usize)
    requires
        from <= to <= digits@.len(),
        forall|i: int| 0 <= i < digits@.len() ==> digits@[i] < 10,
    ensures
        final(out)@ == old(out)@ + digit_chars(digits@.subrange(from as int, to as int)),
{
    let mut i: usize = from;
    while i < to
        invariant
            from <= i <= to <= digits@.len(),
            forall|j: int| 0 <= j < digits@.len() ==> digits@[j] < 10,
            out@ =~= old(out)@ + digit_chars(digits@.subrange(from as int, i as int)),
        decreases to - i,
    {
        out.push(crate::address::exec_dec_digit_char(digits[i] as u32));
        i = i + 1;
        proof {
            assert(out@ =~= old(out)@ + digit_chars(digits@.subrange(from as int, i as int)));
        }
    }
}

impl Decimal {
    /// The canonical text of the decimal.
    pub fn to_text(&self) -> (r: String)
        requires
            self@.wf(),
        ensures
            r@ == dec_text_of(self@),
    {
        let ghost sign: Seq<char> = if self.neg {
            seq!['-']
        } else {
            Seq::empty()
        };
        let mut out: Vec<char> = Vec::new();
        if self.neg {
            out.push('-');
        }
        proof {
            assert(out@ =~= sign);
        }
        if self.scale <= 0 {
            push_digit_chars(&mut out, &self.digits, 0, self.digits.len());
            proof {
                assert(self.digits@.subrange(0, self.digits@.len() as int) =~= self.digits@);
            }
            let mut k: i64 = self.scale;
            while k < 0
                invariant
                    self.scale <= k <= 0,
                    out@ =~= sign + digit_chars(self.digits@) + zero_chars((k - self.scale) as nat),
                decreases -k,
            {
                out.push('0');
                k = k + 1;
                proof {
                    assert(out@ =~= sign + digit_chars(self.digits@) + zero_chars(
                        (k - self.scale) as nat,
                    ));
                }
            }
            proof {
                assert(out@ =~= dec_text_of(self@));
            }
        } else if (self.scale as u64) < (self.digits.len() as u64) {
            let point = self.digits.len() - (self.scale as usize);
            push_digit_chars(&mut out, &self.digits, 0, point);
            out.push('.');
            push_digit_chars(&mut out, &self.digits, point, self.digits.len());
            proof {
                assert(self.digits@.subrange(0, point as int) =~= self.digits@.take(point as int));
                assert(self.digits@.subrange(point as int, self.digits@.len() as int)
                    =~= self.digits@.skip(point as int));
                assert(out@ =~= dec_text_of(self@));
            }
        } else {
            out.push('0');
            out.push('.');
            let ghost head = sign + seq!['0', '.'];
            let mut k: u64 = self.digits.len() as u64;
            proof {
                assert(out@ =~= head + zero_chars(0));
            }
            while (k as i128) < (self.scale as i128)
                invariant
                    self.digits@.len() as u64 <= k,
                    k as i128 <= self.scale as i128,
                    self.scale > 0,
                    out@ =~= head + zero_chars((k - self.digits@.len() as u64) as nat),
                decreases self.scale as i128 - k as i128,
            {
                out.push('0');
                k = k + 1;
                proof {
                    assert(out@ =~= head + zero_chars((k - self.digits@.len() as u64) as nat));
                }
            }
            push_digit_chars(&mut out, &self.digits, 0, self.digits.len());
            proof {
                assert(self.digits@.subrange(0, self.digits@.len() as int) =~= self.digits@);
                assert(out@ =~= dec_text_of(self@));
            }
        }
        crate::text::to_string_of(&out)
    }
}

/// What `==` computes on decimals: zeros are equal only to zeros, signs must
/// agree, and otherwise the mantissas must agree once the smaller scale is
/// padded with trailing zeros up to the larger.
pub open spec fn dec_eq_raw(a: DecV, b: DecV) -> bool {
    if a.is_zero() || b.is_zero() {
        a.is_zero() == b.is_zero()
    } else if a.neg != b.neg {
        false
    } else if a.scale >= b.scale {
        a.digits =~= b.digits + zero_digits((a.scale - b.scale) as nat)
    } else {
        a.digits + zero_digits((b.scale - a.scale) as nat) =~= b.digits
    }
}

/// On well-formed decimals, `==` decides mathematical equality.
pub proof fn lemma_dec_eq_math(a: DecV, b: DecV)
    requires
        a.wf(),
        b.wf(),
    ensures
        dec_eq_raw(a, b) == dec_math_eq(a, b),
{
    reveal_with_fuel(digits_val, 4);
    lemma_val_bounds(a.digits);
    lemma_val_bounds(b.digits);
    lemma_pow10_pos((a.scale - b.scale) as nat);
    lemma_pow10_pos((b.scale - a.scale) as nat);
    if a.is_zero() {
        assert(digits_val(a.digits, 10) == 0);
    }
    if b.is_zero() {
        assert(digits_val(b.digits, 10) == 0);
    }
    if a.is_zero() && b.is_zero() {
        assert(b.mant() * pow10((a.scale - b.scale) as nat) == 0) by (nonlinear_arith)
            requires
                b.mant() == 0,
        ;
        assert(a.mant() * pow10((b.scale - a.scale) as nat) == 0) by (nonlinear_arith)
            requires
                a.mant() == 0,
        ;
    } else if a.is_zero() || b.is_zero() {
        // one side is zero and the other has a nonzero mantissa, so the
        // scaled mantissas cannot agree
        let (z, n) = if a.is_zero() { (a, b) } else { (b, a) };
        assert(n.digits[0] != 0 || n.digits.len() == 1);
        if n.digits =~= seq![0u8] {
            assert(false);
        }
        assert(digits_val(n.digits, 10) >= 1);
        lemma_nonzero_scaled(n, (a.scale - b.scale) as nat);
        lemma_nonzero_scaled(n, (b.scale - a.scale) as nat);
        lemma_nonzero_scaled(n, 0);
        assert(z.mant() == 0);
        assert(z.mant() * pow10((a.scale - b.scale) as nat) == 0) by (nonlinear_arith)
            requires
                z.mant() == 0,
        ;
        assert(z.mant() * pow10((b.scale - a.scale) as nat) == 0) by (nonlinear_arith)
            requires
                z.mant() == 0,
        ;
        assert(pow10(0) == 1);
        assert(!dec_math_eq(a, b));
    } else {
        assert(digits_val(a.digits, 10) >= 1);
        assert(digits_val(b.digits, 10) >= 1);
        if a.neg != b.neg {
            lemma_nonzero_scaled(a, (b.scale - a.scale) as nat);
            lemma_nonzero_scaled(b, (a.scale - b.scale) as nat);
            lemma_nonzero_scaled(a, 0);
            lemma_nonzero_scaled(b, 0);
            assert(!dec_math_eq(a, b));
        } else if a.scale >= b.scale {
            let n = (a.scale - b.scale) as nat;
            let padded = b.digits + zero_digits(n);
            lemma_val_append_zeros(b.digits, n);
            if a.digits =~= padded {
                assert(dec_math_eq(a, b)) by (nonlinear_arith)
                    requires
                        digits_val(a.digits, 10) == digits_val(b.digits, 10) * pow10(n),
                        a.neg == b.neg,
                        a.mant() == if a.neg { -digits_val(a.digits, 10) } else {
                            digits_val(a.digits, 10)
                        },
                        b.mant() == if b.neg { -digits_val(b.digits, 10) } else {
                            digits_val(b.digits, 10)
                        },
                        dec_math_eq(a, b) == (a.mant() == b.mant() * pow10(n)),
                ;
            }
            if dec_math_eq(a, b) {
                assert(a.mant() == b.mant() * pow10(n));
                assert(digits_val(a.digits, 10) == digits_val(b.digits, 10) * pow10(n))
                    by (nonlinear_arith)
                    requires
                        a.mant() == b.mant() * pow10(n),
                        a.neg == b.neg,
                        a.mant() == if a.neg { -digits_val(a.digits, 10) } else {
                            digits_val(a.digits, 10)
                        },
                        b.mant() == if b.neg { -digits_val(b.digits, 10) } else {
                            digits_val(b.digits, 10)
                        },
                ;
                assert(padded[0] == b.digits[0]);
                lemma_val_injective(a.digits, padded);
            }
        } else {
            let n = (b.scale - a.scale) as nat;
            let padded = a.digits + zero_digits(n);
            lemma_val_append_zeros(a.digits, n);
            if padded =~= b.digits {
                assert(dec_math_eq(a, b)) by (nonlinear_arith)
                    requires
                        digits_val(b.digits, 10) == digits_val(a.digits, 10) * pow10(n),
                        a.neg == b.neg,
                        a.mant() == if a.neg { -digits_val(a.digits, 10) } else {
                            digits_val(a.digits, 10)
                        },
                        b.mant() == if b.neg { -digits_val(b.digits, 10) } else {
                            digits_val(b.digits, 10)
                        },
                        dec_math_eq(a, b) == (a.mant() * pow10(n) == b.mant()),
                ;
            }
            if dec_math_eq(a, b) {
                assert(digits_val(b.digits, 10) == digits_val(a.digits, 10) * pow10(n))
                    by (nonlinear_arith)
                    requires
                        a.mant() * pow10(n) == b.mant(),
                        a.neg == b.neg,
                        a.mant() == if a.neg { -digits_val(a.digits, 10) } else {
                            digits_val(a.digits, 10)
                        },
                        b.mant() == if b.neg { -digits_val(b.digits, 10) } else {
                            digits_val(b.digits, 10)
                        },
                ;
                assert(padded[0] == a.digits[0]);
                lemma_val_injective(padded, b.digits);
            }
        }
    }
}

/// A nonzero mantissa stays nonzero after scaling, with its sign kept.
proof fn lemma_nonzero_scaled(d: DecV, n: nat)
    requires
        digits_val(d.digits, 10) >= 1,
    ensures
        d.neg ==> d.mant() * pow10(n) <= -1,
        !d.neg ==> d.mant() * pow10(n) >= 1,
{
    lemma_pow10_pos(n);
    let v = digits_val(d.digits, 10);
    assert(v * pow10(n) >= 1) by (nonlinear_arith)
        requires
            v >= 1,
            pow10(n) >= 1,
    ;
    assert((-v) * pow10(n) == -(v * pow10(n))) by (nonlinear_arith);
}

/// Appends `count` zero digits to a copy of `digits`.
fn pad_zeros(digits: &Vec<u8>, count: i128) -> (r: Vec<u8>)
    requires
        count >= 0,
    ensures
        r@ == digits@ + zero_digits(count as nat),
{
    let mut r: Vec<u8> = Vec::new();
    let mut i: usize = 0;
    while i < digits.len()
        invariant
            i <= digits@.len(),
            r@ =~= digits@.subrange(0, i as int),
        decreases digits@.len() - i,
    {
        r.push(digits[i]);
        i = i + 1;
    }
    let mut k: i128 = 0;
    while k < count
        invariant
            0 <= k <= count,
            r@ =~= digits@ + zero_digits(k as nat),
        decreases count - k,
    {
        r.push(0u8);
        k = k + 1;
        proof {
            assert(r@ =~= digits@ + zero_digits(k as nat));
        }
    }
    proof {
        assert(r@ =~= digits@ + zero_digits(count as nat));
    }
    r
}

/// Whether two digit vectors hold the same digits.
fn digits_eq(u: &Vec<u8>, v: &Vec<u8>) -> (r: bool)
    ensures
        r == (u@ =~= v@),
{
    if u.len() != v.len() {
        return false;
    }
    let mut i: usize = 0;
    while i < u.len()
        invariant
            u@.len() == v@.len(),
            i <= u@.len(),
            forall|j: int| 0 <= j < i ==> u@[j] == v@[j],
        decreases u@.len() - i,
    {
        if u[i] != v[i] {
            return false;
        }
        i = i + 1;
    }
    true
}

impl PartialEq for Decimal {
    /// Decimals compare by denoted number, not by representation, so `1`
    /// equals `1.0`.
    fn eq(&self, other: &Self) -> (r: bool)
        ensures
            r == dec_eq_raw(self@, other@),
    {
        let az = self.digits.len() == 1 && self.digits[0] == 0;
        let bz = other.digits.len() == 1 && other.digits[0] == 0;
        proof {
            if self.digits@.len() == 1 && self.digits@[0] == 0 {
                assert(self.digits@ =~= seq![0u8]);
            }
            if other.digits@.len() == 1 && other.digits@[0] == 0 {
                assert(other.digits@ =~= seq![0u8]);
            }
        }
        if az || bz {
            az == bz
        } else if self.neg != other.neg {
            false
        } else if self.scale >= other.scale {
            let diff = (self.scale as i128) - (other.scale as i128);
            let padded = pad_zeros(&other.digits, diff);
            digits_eq(&self.digits, &padded)
        } else {
            let diff = (other.scale as i128) - (self.scale as i128);
            let padded = pad_zeros(&self.digits, diff);
            digits_eq(&padded, &other.digits)
        }
    }
}

impl vstd::std_specs::cmp::PartialEqSpecImpl for Decimal {
    open spec fn obeys_eq_spec() -> bool {
        true
    }

    open spec fn eq_spec(&self, other: &Decimal) -> bool {
        dec_eq_raw(self@, other@)
    }
}

impl Clone for Decimal {
    /// A clone denotes exactly the same decimal.
    fn clone(&self) -> (r: Self)
        ensures
            r@ == self@,
    {
        let mut digits: Vec<u8> = Vec::new();
        let mut i: usize = 0;
        while i < self.digits.len()
            invariant
                i <= self.digits@.len(),
                digits@ =~= self.digits@.subrange(0, i as int),
            decreases self.digits@.len() - i,
        {
            digits.push(self.digits[i]);
            i = i + 1;
        }
        proof {
            assert(digits@ =~= self.digits@);
        }
        Decimal { neg: self.neg, digits, scale: self.scale }
    }
}

} // verus!

//! `xs:precisionDecimal`, the optional XSD 1.1 datatype: a decimal that
//! remembers how it was written.
//!
//! `1.0` and `1.00` are the same *number* and compare equal, but they are
//! different values: the second has a scale of two, and `minScale` /
//! `maxScale` can tell them apart. It also has what `xs:decimal` does not:
//! infinities, a not-a-number, and a signed zero.

use vstd::prelude::*;
use std::cmp::Ordering;
use crate::atomic::{
    digits_only, find_char, find_in, int_order, lemma_find_char, message, pow10, read_bounded,
};
use crate::text::{all_digits, decimal_chars, digits_value, is_digit, push_decimal, str_chars, str_eq, string_from_chars};

verus! {

/// What a [`PrecisionDecimal`] holds: `±coefficient × 10^exponent`, with
/// the sign kept apart so that `-0` and `0` stay distinct values; an
/// infinity; or not-a-number.
pub enum PdView {
    Finite(bool, nat, int),
    Infinity(bool),
    NaN,
}

#[derive(Clone, Copy, Debug)]
enum Pd {
    Finite { negative: bool, coefficient: u128, exponent: i32 },
    Infinity { negative: bool },
    NaN,
}

/// `xs:precisionDecimal`: a decimal that keeps its scale.
#[derive(Clone, Copy, Debug)]
pub struct PrecisionDecimal(Pd);

impl View for PrecisionDecimal {
    type V = PdView;

    closed spec fn view(&self) -> PdView {
        match self.0 {
            Pd::Finite { negative, coefficient, exponent } => PdView::Finite(
                negative,
                coefficient as nat,
                exponent as int,
            ),
            Pd::Infinity { negative } => PdView::Infinity(negative),
            Pd::NaN => PdView::NaN,
        }
    }
}

/// `s` without one leading sign.
pub open spec fn strip_sign(s: Seq<char>) -> Seq<char> {
    if s.len() > 0 && (s[0] == '+' || s[0] == '-') {
        s.drop_first()
    } else {
        s
    }
}

/// Where the exponent marker `e` or `E` first occurs in `s`, or `s.len()`.
pub open spec fn find_exp(s: Seq<char>) -> int
    decreases s.len(),
{
    if s.len() == 0 {
        0
    } else if s[0] == 'e' || s[0] == 'E' {
        0
    } else {
        1 + find_exp(s.drop_first())
    }
}

pub proof fn lemma_find_exp(s: Seq<char>)
    ensures
        0 <= find_exp(s) <= s.len(),
        find_exp(s) < s.len() ==> (s[find_exp(s)] == 'e' || s[find_exp(s)] == 'E'),
        forall|i: int| 0 <= i < find_exp(s) ==> s[i] != 'e' && s[i] != 'E',
    decreases s.len(),
{
    if s.len() > 0 && s[0] != 'e' && s[0] != 'E' {
        lemma_find_exp(s.drop_first());
        assert forall|i: int| 0 <= i < find_exp(s) implies s[i] != 'e' && s[i] != 'E' by {
            if i > 0 {
                assert(s[i] == s.drop_first()[i - 1]);
            }
        }
    }
}

/// The mantissa of a numeral: what comes before the exponent marker.
pub open spec fn mantissa_of(body: Seq<char>) -> Seq<char> {
    body.take(find_exp(body))
}

/// The digits before the point.
pub open spec fn int_digits(m: Seq<char>) -> Seq<char> {
    m.take(find_char(m, '.'))
}

/// The digits after the point, if there is one.
pub open spec fn frac_digits(m: Seq<char>) -> Seq<char> {
    if find_char(m, '.') < m.len() {
        m.skip(find_char(m, '.') + 1)
    } else {
        Seq::empty()
    }
}

/// Whether `s` matches XSD's numeral production: an optional sign, digits
/// with at most one point and at least one digit, and an optional exponent
/// of `e` or `E`, an optional sign and at least one digit. Narrower than
/// what a float parser takes: no `inf`, no case games.
pub open spec fn spec_is_xsd_numeral(s: Seq<char>) -> bool {
    let body = strip_sign(s);
    let m = mantissa_of(body);
    let mantissa_ok = (int_digits(m).len() > 0 || frac_digits(m).len() > 0) && all_digits(int_digits(m))
        && all_digits(frac_digits(m));
    let exponent_ok = find_exp(body) == body.len() || (strip_sign(body.skip(find_exp(body) + 1)).len() > 0
        && all_digits(strip_sign(body.skip(find_exp(body) + 1))));
    mantissa_ok && exponent_ok
}

/// The value of an exponent: digits after an optional sign.
pub open spec fn signed_value(e: Seq<char>) -> int {
    if e.len() > 0 && e[0] == '-' {
        -digits_value(e.drop_first())
    } else {
        digits_value(strip_sign(e)) as int
    }
}

/// The value a precisionDecimal literal denotes, or `None` when it is not
/// one or does not fit: the coefficient is every digit written, the point
/// ignored, and each digit after the point lowers the exponent by one.
pub open spec fn spec_precision_decimal(s: Seq<char>) -> Option<PdView> {
    if s == "INF"@ || s == "+INF"@ {
        Some(PdView::Infinity(false))
    } else if s == "-INF"@ {
        Some(PdView::Infinity(true))
    } else if s == "NaN"@ {
        Some(PdView::NaN)
    } else if !spec_is_xsd_numeral(s) {
        None
    } else {
        let negative = s[0] == '-';
        let body = strip_sign(s);
        let m = mantissa_of(body);
        let exp = if find_exp(body) < body.len() { signed_value(body.skip(find_exp(body) + 1)) } else { 0 };
        let coefficient = digits_value(int_digits(m) + frac_digits(m));
        let exponent = exp - frac_digits(m).len();
        if exp < i32::MIN || exp > i32::MAX || coefficient > u128::MAX || frac_digits(m).len() > i32::MAX
            || exponent < i32::MIN {
            None
        } else {
            Some(PdView::Finite(negative, coefficient, exponent))
        }
    }
}

/// Whether `s` matches XSD's numeral production.
pub fn is_xsd_numeral(s: &str) -> (r: bool)
    ensures
        r == spec_is_xsd_numeral(s@),
{
    let c = str_chars(s);
    let start: usize = if c.len() > 0 && (c[0] == '+' || c[0] == '-') { 1 } else { 0 };
    let ghost body = strip_sign(s@);
    assert(body =~= c@.subrange(start as int, c@.len() as int));
    let x = find_exp_in(&c, start);
    let ghost m = mantissa_of(body);
    assert(m =~= c@.subrange(start as int, x as int));
    let dot = find_in(&c, start, x, '.');
    proof {
        lemma_find_char(m, '.');
    }
    let frac_start = if dot < x { dot + 1 } else { x };
    assert(int_digits(m) =~= c@.subrange(start as int, dot as int));
    assert(frac_digits(m) =~= c@.subrange(frac_start as int, x as int));
    let mantissa_ok = (dot > start || x > frac_start) && digits_only(&c, start, dot) && digits_only(
        &c,
        frac_start,
        x,
    );
    let exponent_ok = if x == c.len() {
        true
    } else {
        let e0 = x + 1;
        let e1 = if e0 < c.len() && (c[e0] == '+' || c[e0] == '-') { e0 + 1 } else { e0 };
        assert(strip_sign(body.skip(find_exp(body) + 1)) =~= c@.subrange(e1 as int, c@.len() as int));
        e1 < c.len() && digits_only(&c, e1, c.len())
    };
    mantissa_ok && exponent_ok
}

/// The first exponent marker in `s[from..]`, as an index into `s`, or
/// `s.len()`.
fn find_exp_in(s: &Vec<char>, from: usize) -> (r: usize)
    requires
        from <= s@.len(),
    ensures
        r as int == from + find_exp(s@.subrange(from as int, s@.len() as int)),
        from <= r <= s@.len(),
{
    let ghost t = s@.subrange(from as int, s@.len() as int);
    proof {
        lemma_find_exp(t);
    }
    let mut i = from;
    while i < s.len() && s[i] != 'e' && s[i] != 'E'
        invariant
            from <= i <= s@.len(),
            t == s@.subrange(from as int, s@.len() as int),
            forall|j: int| from <= j < i ==> s@[j] != 'e' && s@[j] != 'E',
            0 <= find_exp(t) <= t.len(),
            find_exp(t) < t.len() ==> (t[find_exp(t)] == 'e' || t[find_exp(t)] == 'E'),
            forall|k: int| 0 <= k < find_exp(t) ==> t[k] != 'e' && t[k] != 'E',
        decreases s.len() - i,
    {
        i += 1;
    }
    proof {
        let f = find_exp(t);
        if f < i - from {
            assert(t[f] == s@[from + f]);
        }
        if i - from < f {
            assert(t[i - from] == s@[i as int]);
        }
    }
    i
}

/// A number below 10^k is written with at most `k` digits.
pub proof fn lemma_decimal_len(n: nat, k: nat)
    requires
        k >= 1,
        n < pow10(k),
    ensures
        decimal_chars(n).len() <= k,
    decreases k,
{
    if n >= 10 {
        assert(k >= 2) by {
            if k == 1 {
                assert(pow10(1) == 10) by {
                    reveal_with_fuel(pow10, 2);
                }
            }
        }
        assert(n / 10 < pow10((k - 1) as nat)) by {
            assert(pow10(k) == 10 * pow10((k - 1) as nat));
        }
        lemma_decimal_len(n / 10, (k - 1) as nat);
    }
}

/// Every `u128` is below 10^39.
pub proof fn lemma_u128_below_pow10_39()
    ensures
        u128::MAX < pow10(39),
{
    crate::atomic::lemma_pow10_bound(38);
    assert(pow10(39) == 10 * pow10(38));
    assert(pow10(38) == 100_000_000_000_000_000_000_000_000_000_000_000_000) by {
        reveal_with_fuel(pow10, 39);
    }
}

/// How many decimal digits `n` is written with; zero is one digit.
pub fn digit_count(n: u128) -> (r: u32)
    ensures
        r == decimal_chars(n as nat).len(),
{
    let mut digits: u32 = 1;
    let mut rest = n / 10;
    proof {
        lemma_u128_below_pow10_39();
        lemma_decimal_len(n as nat, 39);
    }
    while rest != 0
        invariant
            rest == 0 ==> digits == decimal_chars(n as nat).len(),
            rest > 0 ==> digits + decimal_chars(rest as nat).len() == decimal_chars(n as nat).len(),
            decimal_chars(n as nat).len() <= 39,
            digits >= 1,
        decreases rest,
    {
        digits += 1;
        rest /= 10;
    }
    digits
}

/// The value of the optionally signed digits `s[from..to]`, when it fits an
/// `i32`.
fn read_exponent(s: &Vec<char>, from: usize, to: usize) -> (r: Option<i32>)
    requires
        from < to <= s@.len(),
        all_digits(strip_sign(s@.subrange(from as int, to as int))),
        strip_sign(s@.subrange(from as int, to as int)).len() > 0,
    ensures
        match r {
            Some(v) => v == signed_value(s@.subrange(from as int, to as int)),
            None => signed_value(s@.subrange(from as int, to as int)) < i32::MIN || signed_value(
                s@.subrange(from as int, to as int),
            ) > i32::MAX,
        },
{
    let ghost e = s@.subrange(from as int, to as int);
    let negative = s[from] == '-';
    let start = if s[from] == '-' || s[from] == '+' { from + 1 } else { from };
    assert(strip_sign(e) =~= s@.subrange(start as int, to as int));
    let limit: u128 = if negative { 2147483648 } else { 2147483647 };
    match read_bounded(s, start, to, limit) {
        Some(v) => {
            if negative {
                if v == 2147483648 {
                    Some(i32::MIN)
                } else {
                    Some(-(v as i32))
                }
            } else {
                Some(v as i32)
            }
        },
        None => None,
    }
}

/// The value of the digits `a[from..mid]` followed by `a[mid2..to]`, when it
/// fits a `u128`.
fn read_coefficient(s: &Vec<char>, from: usize, mid: usize, mid2: usize, to: usize) -> (r: Option<u128>)
    requires
        from <= mid <= mid2 <= to <= s@.len(),
        all_digits(s@.subrange(from as int, mid as int)),
        all_digits(s@.subrange(mid2 as int, to as int)),
    ensures
        match r {
            Some(v) => v == digits_value(s@.subrange(from as int, mid as int) + s@.subrange(mid2 as int, to as int)),
            None => digits_value(s@.subrange(from as int, mid as int) + s@.subrange(mid2 as int, to as int))
                > u128::MAX,
        },
{
    let mut all: Vec<char> = Vec::new();
    let mut i = from;
    while i < mid
        invariant
            from <= i <= mid <= s@.len(),
            all@ == s@.subrange(from as int, i as int),
        decreases mid - i,
    {
        all.push(s[i]);
        assert(s@.subrange(from as int, i + 1) =~= s@.subrange(from as int, i as int).push(s@[i as int]));
        i += 1;
    }
    let mut j = mid2;
    while j < to
        invariant
            mid2 <= j <= to <= s@.len(),
            all@ == s@.subrange(from as int, mid as int) + s@.subrange(mid2 as int, j as int),
        decreases to - j,
    {
        all.push(s[j]);
        assert(s@.subrange(mid2 as int, j + 1) =~= s@.subrange(mid2 as int, j as int).push(s@[j as int]));
        j += 1;
    }
    assert(all@.subrange(0, all@.len() as int) =~= all@);
    assert(all_digits(all@)) by {
        assert forall|k: int| 0 <= k < all@.len() implies is_digit(#[trigger] all@[k]) by {
            if k < mid - from {
                assert(all@[k] == s@.subrange(from as int, mid as int)[k]);
            } else {
                assert(all@[k] == s@.subrange(mid2 as int, to as int)[k - (mid - from)]);
            }
        }
    }
    read_bounded(&all, 0, all.len(), u128::MAX)
}

/// Where the pieces of a numeral sit in `c`: the body after the sign, the
/// exponent marker (or the end), the point (or the marker), and the first
/// fractional digit.
fn numeral_parts(c: &Vec<char>) -> (r: (usize, usize, usize, usize))
    requires
        spec_is_xsd_numeral(c@),
    ensures
        ({
            let (start, x, dot, frac_start) = r;
            let body = strip_sign(c@);
            let m = mantissa_of(body);
            &&& start <= dot <= frac_start <= x <= c@.len()
            &&& c@.len() > 0
            &&& body == c@.subrange(start as int, c@.len() as int)
            &&& x == start + find_exp(body)
            &&& m == c@.subrange(start as int, x as int)
            &&& int_digits(m) == c@.subrange(start as int, dot as int)
            &&& frac_digits(m) == c@.subrange(frac_start as int, x as int)
            &&& all_digits(c@.subrange(start as int, dot as int))
            &&& all_digits(c@.subrange(frac_start as int, x as int))
            &&& (x < c@.len() ==> x + 1 < c@.len() && body.skip(find_exp(body) + 1) == c@.subrange(x + 1, c@.len() as int))
        }),
{
    let start: usize = if c.len() > 0 && (c[0] == '+' || c[0] == '-') { 1 } else { 0 };
    let ghost body = strip_sign(c@);
    assert(body =~= c@.subrange(start as int, c@.len() as int));
    let x = find_exp_in(c, start);
    let ghost m = mantissa_of(body);
    assert(m =~= c@.subrange(start as int, x as int));
    let dot = find_in(c, start, x, '.');
    proof {
        lemma_find_char(m, '.');
    }
    let frac_start = if dot < x { dot + 1 } else { x };
    assert(int_digits(m) =~= c@.subrange(start as int, dot as int));
    assert(frac_digits(m) =~= c@.subrange(frac_start as int, x as int));
    if x < c.len() {
        assert(body.skip(find_exp(body) + 1) =~= c@.subrange(x + 1, c@.len() as int));
    }
    (start, x, dot, frac_start)
}

impl PrecisionDecimal {
    /// The number of digits in the coefficient, which is what `totalDigits`
    /// counts: written digits, not significant ones — `1.000` has four and
    /// `1.0` two. A special value has none to count.
    pub fn total_digits(self) -> (r: Option<u32>)
        ensures
            r == match self@ {
                PdView::Finite(_, c, _) => Some(decimal_chars(c).len() as u32),
                _ => None::<u32>,
            },
    {
        match self.0 {
            Pd::Finite { coefficient, .. } => Some(digit_count(coefficient)),
            _ => None,
        }
    }

    /// How many digits sit after the point — the negated exponent. Signed:
    /// `200` written as `2e2` has a scale of -2.
    pub fn scale(self) -> (r: Option<i32>)
        requires
            !(self@ matches PdView::Finite(_, _, e) && e == i32::MIN),
        ensures
            r == match self@ {
                PdView::Finite(_, _, e) => Some((-e) as i32),
                _ => None::<i32>,
            },
    {
        match self.0 {
            Pd::Finite { exponent, .. } => Some(-exponent),
            _ => None,
        }
    }

    /// Reads a precisionDecimal literal: a numeral, or `INF`, `+INF`, `-INF`
    /// or `NaN` spelled exactly.
    #[verifier::rlimit(40)]
    pub fn parse_lexical(s: &str) -> (r: Result<PrecisionDecimal, String>)
        ensures
            match r {
                Ok(v) => spec_precision_decimal(s@) == Some(v@),
                Err(_) => spec_precision_decimal(s@) is None,
            },
    {
        proof {
            reveal_strlit("INF");
            reveal_strlit("+INF");
            reveal_strlit("-INF");
            reveal_strlit("NaN");
        }
        if str_eq(s, "INF") || str_eq(s, "+INF") {
            return Ok(PrecisionDecimal(Pd::Infinity { negative: false }));
        }
        if str_eq(s, "-INF") {
            return Ok(PrecisionDecimal(Pd::Infinity { negative: true }));
        }
        if str_eq(s, "NaN") {
            return Ok(PrecisionDecimal(Pd::NaN));
        }
        if !is_xsd_numeral(s) {
            return Err(message("expected a number, `INF`, `-INF` or `NaN`"));
        }
        let c = str_chars(s);
        let (start, x, dot, frac_start) = numeral_parts(&c);
        let negative = c[0] == '-';
        let ghost body = strip_sign(s@);
        let ghost m = mantissa_of(body);
        let exp: i32 = if x < c.len() {
            match read_exponent(&c, x + 1, c.len()) {
                Some(e) => e,
                None => return Err(message("the exponent is out of range")),
            }
        } else {
            0
        };
        let coefficient = match read_coefficient(&c, start, dot, frac_start, x) {
            Some(v) => v,
            None => return Err(message("more digits than an xs:precisionDecimal can hold")),
        };
        let frac_len = x - frac_start;
        let ghost spec_exp = if find_exp(body) < body.len() {
            signed_value(body.skip(find_exp(body) + 1))
        } else {
            0
        };
        assert(spec_exp == exp);
        assert(frac_digits(m).len() == frac_len);
        if frac_len > 2147483647 {
            return Err(message("the exponent is out of range"));
        }
        let f = frac_len as i32;
        if exp < i32::MIN + f {
            return Err(message("the exponent is out of range"));
        }
        let exponent = exp - f;
        Ok(PrecisionDecimal(Pd::Finite { negative, coefficient, exponent }))
    }
}

/// `n` zeroes.
pub open spec fn zeros(n: nat) -> Seq<char> {
    Seq::new(n, |i: int| '0')
}

/// An exponent as written after `E`: a `-` when negative, then its digits.
pub open spec fn exponent_chars(e: int) -> Seq<char> {
    if e < 0 {
        seq!['-'] + decimal_chars((-e) as nat)
    } else {
        decimal_chars(e as nat)
    }
}

/// The digits `d` of a coefficient placed at exponent `e`, keeping the
/// scale: written out in full up to six places either side of the point,
/// and in `E` notation further out, where writing it out would be all
/// zeroes.
pub open spec fn placed_digits(d: Seq<char>, e: int) -> Seq<char> {
    if e == 0 {
        d
    } else if 0 < e <= 6 {
        d + zeros(e as nat)
    } else if e < 0 && -e < d.len() {
        d.take(d.len() + e) + seq!['.'] + d.skip(d.len() + e)
    } else if e < 0 && -e <= 6 {
        seq!['0', '.'] + zeros((-e - d.len()) as nat) + d
    } else {
        d + seq!['E'] + exponent_chars(e)
    }
}

/// The canonical form of a precisionDecimal, which keeps the scale because
/// the scale is part of the value.
pub open spec fn pd_chars(v: PdView) -> Seq<char> {
    match v {
        PdView::NaN => "NaN"@,
        PdView::Infinity(true) => "-INF"@,
        PdView::Infinity(false) => "INF"@,
        PdView::Finite(negative, c, e) => (if negative { seq!['-'] } else { Seq::empty() }) + placed_digits(
            decimal_chars(c),
            e,
        ),
    }
}

/// Appends `n` zeroes.
fn push_zeros(out: &mut Vec<char>, n: usize)
    ensures
        final(out)@ == old(out)@ + zeros(n as nat),
{
    let mut i: usize = 0;
    while i < n
        invariant
            i <= n,
            out@ == old(out)@ + zeros(i as nat),
        decreases n - i,
    {
        out.push('0');
        assert(zeros((i + 1) as nat) =~= zeros(i as nat).push('0'));
        i += 1;
    }
}

/// Appends `v[from..to]`.
fn push_range(out: &mut Vec<char>, v: &Vec<char>, from: usize, to: usize)
    requires
        from <= to <= v@.len(),
    ensures
        final(out)@ == old(out)@ + v@.subrange(from as int, to as int),
{
    let mut i = from;
    while i < to
        invariant
            from <= i <= to <= v@.len(),
            out@ == old(out)@ + v@.subrange(from as int, i as int),
        decreases to - i,
    {
        out.push(v[i]);
        assert(v@.subrange(from as int, i + 1) =~= v@.subrange(from as int, i as int).push(v@[i as int]));
        i += 1;
    }
}

/// The exponent's magnitude and sign, for writing it out.
fn exponent_parts(e: i32) -> (r: (bool, u128))
    ensures
        r.0 == (e < 0),
        r.1 == (if e < 0 { -e } else { e as int }),
{
    if e < 0 {
        (true, (-(e as i128)) as u128)
    } else {
        (false, e as u128)
    }
}

/// How far below the point the coefficient reaches: `-e` as a count.
fn depth(e: i32) -> (r: usize)
    requires
        e < 0,
    ensures
        r == -e,
{
    (-(e as i64)) as usize
}

impl PrecisionDecimal {
    /// The canonical form, which keeps the scale: `1.00` stays `1.00`.
    #[verifier::rlimit(40)]
    pub fn to_string(self) -> (r: String)
        ensures
            r@ == pd_chars(self@),
    {
        proof {
            reveal_strlit("NaN");
            reveal_strlit("-INF");
            reveal_strlit("INF");
        }
        let (negative, coefficient, exponent) = match self.0 {
            Pd::NaN => return "NaN".to_owned(),
            Pd::Infinity { negative: true } => return "-INF".to_owned(),
            Pd::Infinity { negative: false } => return "INF".to_owned(),
            Pd::Finite { negative, coefficient, exponent } => (negative, coefficient, exponent),
        };
        let mut out: Vec<char> = Vec::new();
        if negative {
            out.push('-');
        }
        let ghost head = out@;
        let mut digits: Vec<char> = Vec::new();
        push_decimal(&mut digits, coefficient);
        assert(digits@ =~= decimal_chars(coefficient as nat));
        let len = digits.len();
        let ghost d = digits@;
        if exponent == 0 {
            push_range(&mut out, &digits, 0, len);
            assert(d.subrange(0, len as int) =~= d);
        } else if exponent > 0 && exponent <= 6 {
            push_range(&mut out, &digits, 0, len);
            assert(d.subrange(0, len as int) =~= d);
            push_zeros(&mut out, exponent as usize);
        } else if exponent < 0 && depth(exponent) < len {
            let split = len - depth(exponent);
            push_range(&mut out, &digits, 0, split);
            out.push('.');
            push_range(&mut out, &digits, split, len);
            assert(d.take(split as int) =~= d.subrange(0, split as int));
            assert(d.skip(split as int) =~= d.subrange(split as int, len as int));
        } else if exponent < 0 && depth(exponent) <= 6 {
            out.push('0');
            out.push('.');
            push_zeros(&mut out, depth(exponent) - len);
            push_range(&mut out, &digits, 0, len);
            assert(d.subrange(0, len as int) =~= d);
        } else {
            push_range(&mut out, &digits, 0, len);
            assert(d.subrange(0, len as int) =~= d);
            out.push('E');
            let (neg, mag) = exponent_parts(exponent);
            if neg {
                out.push('-');
            }
            push_decimal(&mut out, mag);
        }
        assert(out@ =~= pd_chars(self@));
        string_from_chars(&out)
    }
}

/// A coefficient as a natural number.
pub open spec fn nat_of(x: u128) -> nat {
    x as nat
}

/// An exponent as an integer.
pub open spec fn int_of(x: i32) -> int {
    x as int
}

/// Whether `c1 × 10^e1` is below `c2 × 10^e2`, compared exactly by scaling
/// the one with the larger exponent down to the other's.
pub open spec fn magnitude_lt(c1: nat, e1: int, c2: nat, e2: int) -> bool {
    if e1 >= e2 {
        c1 * pow10((e1 - e2) as nat) < c2
    } else {
        c1 < c2 * pow10((e2 - e1) as nat)
    }
}

/// `x × 10^d`.
pub open spec fn scaled_value(x: u128, d: u64) -> int {
    x * pow10(d as nat)
}

/// The gap between two exponents, the larger first.
fn exp_gap(e1: i32, e2: i32) -> (r: u64)
    requires
        e1 >= e2,
    ensures
        r == e1 - e2,
{
    ((e1 as i64) - (e2 as i64)) as u64
}

/// Ten to the power `d`, for `d` up to thirty-eight.
fn pow10_u128(d: u64) -> (r: u128)
    requires
        d <= 38,
    ensures
        r == pow10(d as nat),
{
    let mut r: u128 = 1;
    let mut i: u64 = 0;
    while i < d
        invariant
            i <= d <= 38,
            r == pow10(i as nat),
        decreases d - i,
    {
        proof {
            crate::atomic::lemma_pow10_bound(i as nat);
            crate::atomic::lemma_pow10_bound((i + 1) as nat);
        }
        r = r * 10;
        i += 1;
    }
    r
}

/// `x × 10^d` against `y`, when `x` is at least one and `d` is past what a
/// `u128` can reach: always above.
proof fn lemma_far_scale_is_above(x: u128, d: u64, y: u128)
    requires
        x >= 1,
        d > 38,
    ensures
        scaled_value(x, d) > y,
{
    lemma_u128_below_pow10_39();
    crate::atomic::lemma_pow10_monotone(39, d as nat);
    assert(x * pow10(d as nat) >= pow10(d as nat)) by (nonlinear_arith)
        requires
            x >= 1,
    ;
}

/// `x × p` against `y` through the quotient and remainder of `y` by `p`.
proof fn lemma_scaled_by_division(x: int, p: int, y: int, q: int, r: int)
    requires
        p >= 1,
        x >= 0,
        y == q * p + r,
        0 <= r < p,
    ensures
        x > q ==> x * p > y,
        x < q ==> x * p < y,
        x == q ==> (x * p == y <==> r == 0) && x * p <= y,
{
    if x > q {
        assert(x * p >= (q + 1) * p) by (nonlinear_arith)
            requires
                x >= q + 1,
                p >= 1,
        ;
        assert((q + 1) * p == q * p + p) by (nonlinear_arith);
    }
    if x < q {
        assert(x * p <= (q - 1) * p) by (nonlinear_arith)
            requires
                x <= q - 1,
                p >= 1,
        ;
        assert((q - 1) * p == q * p - p) by (nonlinear_arith);
    }
}

/// Whether `x × 10^d` is below (`Some(true)`), above (`Some(false)`) or
/// equal to (`None`) `y`.
fn scaled_below(x: u128, d: u64, y: u128) -> (r: Option<bool>)
    ensures
        r == (if scaled_value(x, d) < y {
            Some(true)
        } else if scaled_value(x, d) > y {
            Some(false)
        } else {
            None::<bool>
        }),
{
    if x == 0 {
        assert(scaled_value(x, d) == 0) by (nonlinear_arith)
            requires
                x == 0,
                scaled_value(x, d) == x * pow10(d as nat),
        ;
        return if y == 0 { None } else { Some(true) };
    }
    if d > 38 {
        proof {
            lemma_far_scale_is_above(x, d, y);
        }
        return Some(false);
    }
    let p = pow10_u128(d);
    proof {
        crate::atomic::lemma_pow10_monotone(0, d as nat);
    }
    let q = y / p;
    let rem = y % p;
    proof {
        assert(y == q * p + rem) by (nonlinear_arith)
            requires
                q == y / p,
                rem == y % p,
                p > 0,
        ;
        lemma_scaled_by_division(x as int, p as int, y as int, q as int, rem as int);
    }
    if x > q {
        Some(false)
    } else if x < q {
        Some(true)
    } else if rem == 0 {
        None
    } else {
        Some(true)
    }
}

/// Whether `a.0 × 10^a.1` is below (`Some(true)`), above (`Some(false)`) or
/// equal to (`None`) `b.0 × 10^b.1`.
fn magnitude_below(a: (u128, i32), b: (u128, i32)) -> (r: Option<bool>)
    ensures
        r == (if magnitude_lt(a.0 as nat, a.1 as int, b.0 as nat, b.1 as int) {
            Some(true)
        } else if magnitude_lt(b.0 as nat, b.1 as int, a.0 as nat, a.1 as int) {
            Some(false)
        } else {
            None::<bool>
        }),
{
    proof {
        lemma_magnitude_exclusive(a.0 as nat, a.1 as int, b.0 as nat, b.1 as int);
    }
    if a.1 >= b.1 {
        let d = exp_gap(a.1, b.1);
        let r = scaled_below(a.0, d, b.0);
        assert(scaled_value(a.0, d) == a.0 * pow10((a.1 - b.1) as nat));
        assert(magnitude_lt(a.0 as nat, a.1 as int, b.0 as nat, b.1 as int) == (scaled_value(a.0, d) < b.0));
        if a.1 > b.1 {
            assert(magnitude_lt(b.0 as nat, b.1 as int, a.0 as nat, a.1 as int) == (scaled_value(a.0, d) > b.0));
        } else {
            assert(pow10(0) == 1);
            assert(d == 0);
            assert(scaled_value(a.0, d) == a.0) by (nonlinear_arith)
                requires
                    d == 0,
                    pow10(0) == 1,
                    scaled_value(a.0, d) == a.0 * pow10(d as nat),
            ;
            assert(magnitude_lt(b.0 as nat, b.1 as int, a.0 as nat, a.1 as int) == (b.0 * pow10(0) < a.0));
            assert(b.0 * pow10(0) == b.0) by (nonlinear_arith)
                requires
                    pow10(0) == 1,
            ;
        }
        r
    } else {
        let d = exp_gap(b.1, a.1);
        assert(scaled_value(b.0, d) == b.0 * pow10((b.1 - a.1) as nat));
        match scaled_below(b.0, d, a.0) {
            Some(t) => Some(!t),
            None => None,
        }
    }
}

/// At most one of two magnitudes is below the other.
pub proof fn lemma_magnitude_exclusive(c1: nat, e1: int, c2: nat, e2: int)
    ensures
        !(magnitude_lt(c1, e1, c2, e2) && magnitude_lt(c2, e2, c1, e1)),
        e1 == e2 ==> (magnitude_lt(c1, e1, c2, e2) <==> c1 < c2),
{
    assert(pow10(0) == 1);
    if e1 == e2 {
        assert(c1 * pow10(0) == c1);
        assert(c2 * pow10(0) == c2);
    }
}

/// Numeric order of two magnitudes.
pub open spec fn mag_order(c1: nat, e1: int, c2: nat, e2: int) -> Ordering {
    if magnitude_lt(c1, e1, c2, e2) {
        Ordering::Less
    } else if magnitude_lt(c2, e2, c1, e1) {
        Ordering::Greater
    } else {
        Ordering::Equal
    }
}

/// The opposite order.
pub open spec fn reversed(o: Ordering) -> Ordering {
    match o {
        Ordering::Less => Ordering::Greater,
        Ordering::Greater => Ordering::Less,
        Ordering::Equal => Ordering::Equal,
    }
}

/// Numeric order, which ignores the scale: `1.0`, `1.00` and `10e-1` are one
/// number three ways. Not-a-number is ordered against nothing, the two
/// zeroes are equal despite their signs and sit between the negatives and
/// the positives, and the infinities sit at the ends.
pub open spec fn pd_order(a: PdView, b: PdView) -> Option<Ordering> {
    match (a, b) {
        (PdView::NaN, _) => None,
        (_, PdView::NaN) => None,
        (PdView::Infinity(x), PdView::Infinity(y)) => Some(
            if x == y {
                Ordering::Equal
            } else if x {
                Ordering::Less
            } else {
                Ordering::Greater
            },
        ),
        (PdView::Infinity(x), PdView::Finite(..)) => Some(if x { Ordering::Less } else { Ordering::Greater }),
        (PdView::Finite(..), PdView::Infinity(y)) => Some(if y { Ordering::Greater } else { Ordering::Less }),
        (PdView::Finite(an, ac, ae), PdView::Finite(bn, bc, be)) => if ac == 0 && bc == 0 {
            Some(Ordering::Equal)
        } else if ac == 0 {
            Some(if bn { Ordering::Greater } else { Ordering::Less })
        } else if bc == 0 {
            Some(if an { Ordering::Less } else { Ordering::Greater })
        } else if an != bn {
            Some(if an { Ordering::Less } else { Ordering::Greater })
        } else if an {
            Some(reversed(mag_order(ac, ae, bc, be)))
        } else {
            Some(mag_order(ac, ae, bc, be))
        },
    }
}

/// Compares two non-zero coefficients scaled by their exponents.
pub fn compare_magnitude(a: (u128, i32), b: (u128, i32)) -> (r: Ordering)
    ensures
        r == mag_order(nat_of(a.0), int_of(a.1), nat_of(b.0), int_of(b.1)),
{
    match magnitude_below(a, b) {
        Some(true) => Ordering::Less,
        Some(false) => Ordering::Greater,
        None => Ordering::Equal,
    }
}

fn reverse_order(o: Ordering) -> (r: Ordering)
    ensures
        r == reversed(o),
{
    match o {
        Ordering::Less => Ordering::Greater,
        Ordering::Greater => Ordering::Less,
        Ordering::Equal => Ordering::Equal,
    }
}

impl PartialOrd for PrecisionDecimal {
    /// Numeric order, which ignores the scale.
    fn partial_cmp(&self, other: &Self) -> (r: Option<Ordering>) {
        match (self.0, other.0) {
            (Pd::NaN, _) => None,
            (_, Pd::NaN) => None,
            (Pd::Infinity { negative: x }, Pd::Infinity { negative: y }) => Some(
                if x == y {
                    Ordering::Equal
                } else if x {
                    Ordering::Less
                } else {
                    Ordering::Greater
                },
            ),
            (Pd::Infinity { negative: x }, Pd::Finite { .. }) => Some(
                if x {
                    Ordering::Less
                } else {
                    Ordering::Greater
                },
            ),
            (Pd::Finite { .. }, Pd::Infinity { negative: y }) => Some(
                if y {
                    Ordering::Greater
                } else {
                    Ordering::Less
                },
            ),
            (
                Pd::Finite { negative: an, coefficient: ac, exponent: ae },
                Pd::Finite { negative: bn, coefficient: bc, exponent: be },
            ) => {
                if ac == 0 && bc == 0 {
                    Some(Ordering::Equal)
                } else if ac == 0 {
                    Some(
                        if bn {
                            Ordering::Greater
                        } else {
                            Ordering::Less
                        },
                    )
                } else if bc == 0 {
                    Some(
                        if an {
                            Ordering::Less
                        } else {
                            Ordering::Greater
                        },
                    )
                } else if an != bn {
                    Some(
                        if an {
                            Ordering::Less
                        } else {
                            Ordering::Greater
                        },
                    )
                } else {
                    let m = compare_magnitude((ac, ae), (bc, be));
                    if an {
                        Some(reverse_order(m))
                    } else {
                        Some(m)
                    }
                }
            },
        }
    }
}

impl vstd::std_specs::cmp::PartialOrdSpecImpl for PrecisionDecimal {
    open spec fn obeys_partial_cmp_spec() -> bool {
        true
    }

    open spec fn partial_cmp_spec(&self, other: &PrecisionDecimal) -> Option<Ordering> {
        pd_order(self@, other@)
    }
}

impl PartialEq for PrecisionDecimal {
    /// The order relation, so `1.0` equals `1.00` and `NaN` equals nothing.
    fn eq(&self, other: &Self) -> (r: bool) {
        match self.partial_cmp(other) {
            Some(Ordering::Equal) => true,
            _ => false,
        }
    }
}

impl vstd::std_specs::cmp::PartialEqSpecImpl for PrecisionDecimal {
    open spec fn obeys_eq_spec() -> bool {
        true
    }

    open spec fn eq_spec(&self, other: &PrecisionDecimal) -> bool {
        pd_order(self@, other@) == Some(Ordering::Equal)
    }
}

/// Comparing the other way round gives the opposite answer, and neither
/// ever sees a not-a-number as ordered.
pub proof fn law_precision_order_is_antisymmetric(a: PdView, b: PdView)
    ensures
        pd_order(a, b) matches Some(o) ==> pd_order(b, a) == Some(reversed(o)),
        pd_order(a, b) is None <==> pd_order(b, a) is None,
        pd_order(a, b) is None <==> (a is NaN || b is NaN),
{
    if let (PdView::Finite(_, ac, ae), PdView::Finite(_, bc, be)) = (a, b) {
        lemma_magnitude_exclusive(ac, ae, bc, be);
    }
}

/// The scale never changes the number: `c × 10^e` and `c·10 × 10^(e-1)`
/// are equal.
pub proof fn law_trailing_zero_keeps_the_number(negative: bool, c: nat, e: int)
    requires
        c > 0,
    ensures
        pd_order(PdView::Finite(negative, c, e), PdView::Finite(negative, c * 10, e - 1)) == Some(
            Ordering::Equal,
        ),
{
    assert(pow10(1) == 10) by {
        reveal_with_fuel(pow10, 2);
    }
    assert(pow10(0) == 1);
    assert(c * 10 > 0) by (nonlinear_arith)
        requires
            c > 0,
    ;
}

} // verus!

//! The atomic value types a value of a simple type can hold.
//!
//! Three rules run through everything below:
//!
//! - **Equality is the order relation, never the fields.**
//!   `2010-09-20T13:00:00+01:00` and `2010-09-20T12:00:00Z` are one instant
//!   written two ways, so an `xs:enumeration` listing either must admit both.
//! - **A value with no timezone names a 28-hour window**, not an instant, so
//!   it is ordered against a value that has one only when the whole window
//!   falls to one side. Being incomparable is a real answer.
//! - **Range is refused and precision is dropped.** A number too large to
//!   represent is an error; digits below 10^-18 are not, because the document
//!   is still valid and the specification only asks for eighteen.

use vstd::prelude::*;
use std::cmp::Ordering;
use vstd::std_specs::cmp::PartialOrdSpec;
pub use crate::precision::{PdView, PrecisionDecimal};
use crate::text::{
    all_digits, char_digit, decimal_chars, digit_char, digit_to_char, digit_value, digits_value,
    is_digit, push_decimal, push_str, str_chars, string_from_chars, wide,
};

verus! {

/// The largest value an `i128` holds.
pub open spec fn i128_max() -> int {
    170141183460469231731687303715884105727
}

/// Ten to the power `n`.
pub open spec fn pow10(n: nat) -> nat
    decreases n,
{
    if n == 0 {
        1
    } else {
        10 * pow10((n - 1) as nat)
    }
}

/// The scale of the fixed-point decimal representation: 10^18.
pub open spec fn spec_scale() -> int {
    1_000_000_000_000_000_000
}

pub proof fn lemma_pow10_18()
    ensures
        pow10(18) == spec_scale(),
{
    reveal_with_fuel(pow10, 19);
}

/// A prefix of a run of digits never spells more than the whole run.
pub proof fn lemma_digits_prefix_le(t: Seq<char>, k: int)
    requires
        all_digits(t),
        0 <= k <= t.len(),
    ensures
        digits_value(t.take(k)) <= digits_value(t),
    decreases t.len() - k,
{
    if k < t.len() {
        lemma_digits_prefix_le(t, k + 1);
        assert(t.take(k + 1).drop_last() =~= t.take(k));
    } else {
        assert(t.take(k) =~= t);
    }
}

/// A message for a value that could not be read.
pub fn message(s: &str) -> (r: String)
    ensures
        r@ == s@,
{
    let v = str_chars(s);
    string_from_chars(&v)
}

/// A message naming a number: `{n}{tail}`.
pub(crate) fn message_with(n: u128, tail: &str) -> (r: String)
    ensures
        r@ == decimal_chars(n as nat) + tail@,
{
    let mut v: Vec<char> = Vec::new();
    push_decimal(&mut v, n);
    push_str(&mut v, tail);
    string_from_chars(&v)
}

/// The value of the digits `s[from..to]`.
fn digits_between(s: &Vec<char>, from: usize, to: usize) -> (r: u128)
    requires
        from <= to <= s.len(),
        to - from <= 38,
        all_digits(s@.subrange(from as int, to as int)),
    ensures
        r as nat == digits_value(s@.subrange(from as int, to as int)),
{
    let mut v: u128 = 0;
    let mut i = from;
    while i < to
        invariant
            from <= i <= to <= s.len(),
            to - from <= 38,
            all_digits(s@.subrange(from as int, to as int)),
            v as nat == digits_value(s@.subrange(from as int, i as int)),
            v < pow10((i - from) as nat),
        decreases to - i,
    {
        assert(is_digit(s@.subrange(from as int, to as int)[i - from]));
        let d = char_digit(s[i]);
        assert(s@.subrange(from as int, i + 1).drop_last() =~= s@.subrange(from as int, i as int));
        proof {
            lemma_pow10_bound((i - from) as nat);
            lemma_pow10_bound((i + 1 - from) as nat);
            assert(v * 10 + d < pow10((i + 1 - from) as nat)) by (nonlinear_arith)
                requires
                    v < pow10((i - from) as nat),
                    d < 10,
                    pow10((i + 1 - from) as nat) == 10 * pow10((i - from) as nat);
        }
        v = v * 10 + d as u128;
        i += 1;
    }
    v
}

/// Powers of ten grow with the exponent.
pub proof fn lemma_pow10_monotone(n: nat, m: nat)
    requires
        n <= m,
    ensures
        pow10(n) <= pow10(m),
        pow10(n) >= 1,
    decreases m,
{
    if n < m {
        lemma_pow10_monotone(n, (m - 1) as nat);
    } else if n > 0 {
        lemma_pow10_monotone((n - 1) as nat, (n - 1) as nat);
    }
}

/// Exponents add when powers multiply.
pub proof fn lemma_pow10_add(a: nat, b: nat)
    ensures
        pow10(a + b) == pow10(a) * pow10(b),
    decreases a,
{
    if a > 0 {
        lemma_pow10_add((a - 1) as nat, b);
        assert(pow10(a + b) == 10 * pow10((a - 1 + b) as nat));
        assert(pow10(a) == 10 * pow10((a - 1) as nat));
        assert(10 * (pow10((a - 1) as nat) * pow10(b)) == (10 * pow10((a - 1) as nat)) * pow10(b))
            by (nonlinear_arith);
    } else {
        assert(pow10(0) == 1);
        assert(a + b == b);
    }
}

/// Ten to the thirty-eighth fits comfortably in a `u128`.
pub proof fn lemma_pow10_bound(n: nat)
    requires
        n <= 38,
    ensures
        pow10(n) <= 100_000_000_000_000_000_000_000_000_000_000_000_000,
        pow10(n + 1) == 10 * pow10(n),
{
    lemma_pow10_monotone(n, 38);
    lemma_pow10_add(19, 19);
    assert(pow10(19) == 10_000_000_000_000_000_000) by {
        reveal_with_fuel(pow10, 20);
    }
}

/// Where `c` first occurs in `s`, or `s.len()` when it does not.
pub open spec fn find_char(s: Seq<char>, c: char) -> int
    decreases s.len(),
{
    if s.len() == 0 {
        0
    } else if s[0] == c {
        0
    } else {
        1 + find_char(s.drop_first(), c)
    }
}

pub proof fn lemma_find_char(s: Seq<char>, c: char)
    ensures
        0 <= find_char(s, c) <= s.len(),
        find_char(s, c) < s.len() ==> s[find_char(s, c)] == c,
        forall|i: int| 0 <= i < find_char(s, c) ==> s[i] != c,
    decreases s.len(),
{
    if s.len() > 0 && s[0] != c {
        lemma_find_char(s.drop_first(), c);
        assert forall|i: int| 0 <= i < find_char(s, c) implies s[i] != c by {
            if i > 0 {
                assert(s[i] == s.drop_first()[i - 1]);
            }
        }
    }
}

/// The first occurrence of `c` in `s[from..to]`, as an index into `s`, or
/// `to` when there is none.
pub(crate) fn find_in(s: &Vec<char>, from: usize, to: usize, c: char) -> (r: usize)
    requires
        from <= to <= s.len(),
    ensures
        r as int == from + find_char(s@.subrange(from as int, to as int), c),
{
    let mut i = from;
    proof {
        lemma_find_char(s@.subrange(from as int, to as int), c);
    }
    while i < to
        invariant
            from <= i <= to <= s.len(),
            forall|j: int| from <= j < i ==> s@[j] != c,
        ensures
            from <= i <= to,
            forall|j: int| from <= j < i ==> s@[j] != c,
            i < to ==> s@[i as int] == c,
        decreases to - i,
    {
        if s[i] == c {
            break;
        }
        i += 1;
    }
    proof {
        let t = s@.subrange(from as int, to as int);
        lemma_find_char(t, c);
        let f = find_char(t, c);
        if f < i - from {
            assert(t[f] == s@[from + f]);
        }
        if i < to {
            assert(t[i - from] == c);
        }
    }
    i
}

/// Whether every character of `s[from..to]` is an ASCII digit.
pub(crate) fn digits_only(s: &Vec<char>, from: usize, to: usize) -> (r: bool)
    requires
        from <= to <= s.len(),
    ensures
        r == all_digits(s@.subrange(from as int, to as int)),
{
    let mut i = from;
    while i < to
        invariant
            from <= i <= to <= s.len(),
            forall|j: int| from <= j < i ==> is_digit(s@[j]),
        decreases to - i,
    {
        if !(s[i] >= '0' && s[i] <= '9') {
            assert(!is_digit(s@.subrange(from as int, to as int)[i - from]));
            return false;
        }
        i += 1;
    }
    assert forall|j: int| 0 <= j < to - from implies is_digit(
        #[trigger] s@.subrange(from as int, to as int)[j],
    ) by {
        assert(s@.subrange(from as int, to as int)[j] == s@[from + j]);
    }
    true
}

/// The first eighteen fractional digits, scaled to a count of 10^-18.
pub open spec fn frac18(f: Seq<char>) -> int {
    let k = if f.len() < 18 { f.len() } else { 18 };
    (digits_value(f.take(k as int)) * pow10((18 - k) as nat)) as int
}

/// Reads the fractional digits `s[from..to]` the way [`Decimal`] holds them:
/// the first eighteen, scaled by 10^18, the rest dropped.
fn read_frac18(s: &Vec<char>, from: usize, to: usize) -> (r: i128)
    requires
        from <= to <= s.len(),
        all_digits(s@.subrange(from as int, to as int)),
    ensures
        r as int == frac18(s@.subrange(from as int, to as int)),
        0 <= r < spec_scale(),
{
    let ghost f = s@.subrange(from as int, to as int);
    let k: usize = if to - from < 18 { to - from } else { 18 };
    assert(f.take(k as int) =~= s@.subrange(from as int, from + k));
    assert(all_digits(s@.subrange(from as int, from + k))) by {
        assert forall|j: int| 0 <= j < k implies is_digit(#[trigger] s@.subrange(from as int, from + k)[j]) by {
            assert(s@.subrange(from as int, from + k)[j] == f[j]);
        }
    }
    let v = digits_between(s, from, from + k);
    proof {
        lemma_digits_below_pow10(s@.subrange(from as int, from + k));
        lemma_pow10_monotone(k as nat, 18);
        lemma_pow10_18();
        assert(pow10(0) == 1);
    }
    let mut r: i128 = v as i128;
    let mut m: usize = k;
    assert(pow10((m - k) as nat) == 1);
    assert(r as int == v as int * pow10((m - k) as nat));
    while m < 18
        invariant
            k <= m <= 18,
            r as int == v as int * pow10((m - k) as nat),
            r < pow10(m as nat),
        decreases 18 - m,
    {
        proof {
            lemma_pow10_bound((m - k) as nat);
            lemma_pow10_bound(m as nat);
            lemma_pow10_monotone((m + 1) as nat, 18);
            lemma_pow10_18();
            assert(r * 10 < pow10((m + 1) as nat)) by (nonlinear_arith)
                requires
                    r < pow10(m as nat),
                    pow10((m + 1) as nat) == 10 * pow10(m as nat);
            assert(r * 10 == v as int * pow10((m + 1 - k) as nat)) by (nonlinear_arith)
                requires
                    r as int == v as int * pow10((m - k) as nat),
                    pow10((m + 1 - k) as nat) == 10 * pow10((m - k) as nat);
        }
        r = r * 10;
        m += 1;
    }
    proof {
        lemma_pow10_18();
    }
    r
}

/// A run of `n` digits spells a number below 10^n.
pub proof fn lemma_digits_below_pow10(t: Seq<char>)
    requires
        all_digits(t),
    ensures
        digits_value(t) < pow10(t.len()),
    decreases t.len(),
{
    if t.len() > 0 {
        assert(all_digits(t.drop_last())) by {
            assert forall|j: int| 0 <= j < t.len() - 1 implies is_digit(#[trigger] t.drop_last()[j]) by {
                assert(t.drop_last()[j] == t[j]);
            }
        }
        assert(is_digit(t[t.len() - 1]));
        lemma_digits_below_pow10(t.drop_last());
        let p = pow10((t.len() - 1) as nat);
        let d = digit_value(t.last());
        assert(digits_value(t.drop_last()) * 10 + d < pow10(t.len())) by (nonlinear_arith)
            requires
                digits_value(t.drop_last()) < p,
                d < 10,
                pow10(t.len()) == 10 * p;
    }
}
/// The value of the digits `s[from..to]`, or `None` when it exceeds `limit`.
pub(crate) fn read_bounded(s: &Vec<char>, from: usize, to: usize, limit: u128) -> (r: Option<u128>)
    requires
        from <= to <= s.len(),
        all_digits(s@.subrange(from as int, to as int)),
        limit >= 9,
    ensures
        match r {
            Some(v) => v as nat == digits_value(s@.subrange(from as int, to as int)) && v <= limit,
            None => digits_value(s@.subrange(from as int, to as int)) > limit,
        },
{
    let ghost t = s@.subrange(from as int, to as int);
    let mut v: u128 = 0;
    let mut i = from;
    while i < to
        invariant
            from <= i <= to <= s.len(),
            t == s@.subrange(from as int, to as int),
            all_digits(t),
            limit >= 9,
            v as nat == digits_value(t.take(i - from)),
            v <= limit,
        decreases to - i,
    {
        assert(is_digit(t[i - from]));
        assert(t[i - from] == s@[i as int]);
        let d = char_digit(s[i]);
        assert(t.take(i + 1 - from).drop_last() =~= t.take(i - from));
        assert(t.take(i + 1 - from).last() == s@[i as int]);
        if v > (limit - d as u128) / 10 {
            proof {
                assert(v * 10 + d > limit) by (nonlinear_arith)
                    requires
                        v > (limit - d) / 10,
                        d <= limit;
                lemma_digits_prefix_le(t, i + 1 - from);
            }
            return None;
        }
        proof {
            assert(v * 10 + d <= limit) by (nonlinear_arith)
                requires
                    v <= (limit - d) / 10,
                    d <= limit;
        }
        v = v * 10 + d as u128;
        i += 1;
    }
    assert(t.take(to - from) =~= t);
    Some(v)
}

/// `xs:decimal` and the types derived from it that are not integers.
///
/// Exact, not floating point: fixed point in an `i128` scaled by 10^18,
/// about twenty digits either side of the point. A literal whose integer
/// part does not fit is rejected (that is range); fractional digits below
/// 10^-18 are dropped (that is precision, of which the specification only
/// requires eighteen digits).
#[derive(Clone, Copy, Debug, PartialEq, Eq, PartialOrd, Ord, Hash, Structural)]
pub struct Decimal(i128);

/// The value a decimal literal denotes, scaled by 10^18, or `None` when the
/// text is not a decimal literal or the value does not fit.
///
/// A literal is an optional sign, then digits with at most one point, at
/// least one digit on either side of it, and no exponent.
pub open spec fn spec_decimal(s: Seq<char>) -> Option<int> {
    let signed = s.len() > 0 && (s[0] == '-' || s[0] == '+');
    let negative = s.len() > 0 && s[0] == '-';
    let body = if signed { s.drop_first() } else { s };
    let dot = find_char(body, '.');
    let int_part = body.take(dot);
    let frac_part = if dot < body.len() { body.skip(dot + 1) } else { Seq::empty() };
    if int_part.len() == 0 && frac_part.len() == 0 {
        None
    } else if !all_digits(int_part) || !all_digits(frac_part) {
        None
    } else {
        let magnitude = digits_value(int_part) * spec_scale() + frac18(frac_part);
        if magnitude > i128_max() {
            None
        } else {
            Some(if negative { -magnitude } else { magnitude })
        }
    }
}

impl View for Decimal {
    type V = int;

    /// The value scaled by 10^18.
    closed spec fn view(&self) -> int {
        self.0 as int
    }
}

impl Decimal {
    /// The scale the fixed-point representation uses: 10^18.
    pub const SCALE: i128 = 1_000_000_000_000_000_000;

    /// The nearest decimal to an integer, absent when it does not fit.
    pub fn from_integer(n: i128) -> (r: Option<Self>)
        ensures
            match r {
                Some(d) => d@ == n * spec_scale(),
                None => n * spec_scale() > i128_max() || n * spec_scale() < -i128_max() - 1,
            },
    {
        match n.checked_mul(Self::SCALE) {
            Some(v) => Some(Decimal(v)),
            None => None,
        }
    }

    /// Builds one from a value already scaled by [`Self::SCALE`].
    pub fn from_scaled(scaled: i128) -> (r: Self)
        ensures
            r@ == scaled,
    {
        Decimal(scaled)
    }

    /// The value scaled by 10^18, which is how it is held.
    ///
    /// Exact, and the way to convert into a decimal type of your own without
    /// going through a string.
    pub fn to_i128_scaled(self) -> (r: i128)
        ensures
            r == self@,
    {
        self.0
    }

    /// Reads a decimal literal.
    pub fn parse_lexical(s: &str) -> (r: Result<Self, String>)
        ensures
            match r {
                Ok(d) => spec_decimal(s@) == Some(d@),
                Err(_) => spec_decimal(s@) is None,
            },
    {
        let c = str_chars(s);
        let n = c.len();
        let signed = n > 0 && (c[0] == '-' || c[0] == '+');
        let negative = n > 0 && c[0] == '-';
        let start: usize = if signed { 1 } else { 0 };
        let ghost body = if signed { s@.drop_first() } else { s@ };
        assert(body =~= c@.subrange(start as int, n as int));
        let dot = find_in(&c, start, n, '.');
        proof {
            lemma_find_char(body, '.');
        }
        let frac_start: usize = if dot < n { dot + 1 } else { n };
        let ghost int_part = body.take(dot - start);
        let ghost frac_part = if dot - start < body.len() { body.skip(dot - start + 1) } else { Seq::empty() };
        assert(int_part =~= c@.subrange(start as int, dot as int));
        assert(frac_part =~= c@.subrange(frac_start as int, n as int));
        if dot == start && frac_start == n {
            return Err(message("expected a decimal number"));
        }
        if !digits_only(&c, start, dot) || !digits_only(&c, frac_start, n) {
            return Err(message("a decimal is digits, with at most one point"));
        }
        let max: u128 = 170141183460469231731687303715884105727;
        let whole = match read_bounded(&c, start, dot, max / 1_000_000_000_000_000_000) {
            Some(v) => v,
            None => {
                proof {
                    assert(digits_value(int_part) * spec_scale() > i128_max()) by (nonlinear_arith)
                        requires
                            digits_value(int_part) > 170141183460469231731687303715884105727int
                                / 1_000_000_000_000_000_000int;
                    assert(frac18(frac_part) >= 0) by (nonlinear_arith);
                }
                return Err(message("the value has more digits than an xs:decimal can hold"));
            },
        };
        let scaled: i128 = (whole as i128) * Self::SCALE;
        let frac = read_frac18(&c, frac_start, n);
        if scaled > i128::MAX - frac {
            return Err(message("the value has more digits than an xs:decimal can hold"));
        }
        let magnitude = scaled + frac;
        Ok(Decimal(if negative { -magnitude } else { magnitude }))
    }
}
/// `f` written with exactly `w` digits, zero-padded on the left.
pub open spec fn fixed_digits(f: nat, w: nat) -> Seq<char>
    decreases w,
{
    if w == 0 {
        Seq::empty()
    } else {
        fixed_digits(f / 10, (w - 1) as nat).push(digit_char(f % 10))
    }
}

/// `s` without its trailing zeroes.
pub open spec fn strip_zeros(s: Seq<char>) -> Seq<char>
    decreases s.len(),
{
    if s.len() > 0 && s.last() == '0' {
        strip_zeros(s.drop_last())
    } else {
        s
    }
}

/// A fraction of 10^-18 units written after the point, or nothing when it is
/// zero: the digits of the eighteen places, without trailing zeroes.
pub open spec fn fraction_suffix(f: nat) -> Seq<char> {
    if f == 0 {
        Seq::empty()
    } else {
        seq!['.'] + strip_zeros(fixed_digits(f, 18))
    }
}

pub open spec fn abs(v: int) -> nat {
    if v < 0 {
        (-v) as nat
    } else {
        v as nat
    }
}

/// The canonical form of a decimal scaled by 10^18: a `-` for a negative
/// value, the integer part without leading zeroes, and the fraction only
/// when there is one, without trailing zeroes.
pub open spec fn decimal_canonical(v: int) -> Seq<char> {
    (if v < 0 { seq!['-'] } else { Seq::empty() }) + decimal_chars(abs(v) / (spec_scale() as nat))
        + fraction_suffix(abs(v) % (spec_scale() as nat))
}

/// Appends `f` written with exactly `w` digits.
fn push_fixed(out: &mut Vec<char>, f: u128, w: usize)
    ensures
        final(out)@ == old(out)@ + fixed_digits(f as nat, w as nat),
    decreases w,
{
    if w == 0 {
        assert(old(out)@ + fixed_digits(f as nat, 0) =~= old(out)@);
        return;
    }
    push_fixed(out, f / 10, w - 1);
    let c = digit_to_char((f % 10) as u8);
    out.push(c);
    assert(old(out)@ + fixed_digits(f as nat, w as nat) =~= old(out)@ + fixed_digits(
        (f / 10) as nat,
        (w - 1) as nat,
    ) + seq![c]);
}

/// Appends the fraction suffix of a count of 10^-18 units.
fn push_fraction(out: &mut Vec<char>, f: u128)
    ensures
        final(out)@ == old(out)@ + fraction_suffix(f as nat),
{
    if f == 0 {
        assert(old(out)@ + fraction_suffix(0) =~= old(out)@);
        return;
    }
    let mut digits: Vec<char> = Vec::new();
    push_fixed(&mut digits, f, 18);
    assert(digits@ =~= fixed_digits(f as nat, 18));
    while digits.len() > 0 && digits[digits.len() - 1] == '0'
        invariant
            strip_zeros(digits@) == strip_zeros(fixed_digits(f as nat, 18)),
        decreases digits.len(),
    {
        digits.pop();
    }
    out.push('.');
    let mut i: usize = 0;
    let ghost base = out@;
    while i < digits.len()
        invariant
            i <= digits.len(),
            out@ == base + digits@.take(i as int),
        decreases digits.len() - i,
    {
        out.push(digits[i]);
        assert(digits@.take(i as int).push(digits@[i as int]) =~= digits@.take(i + 1));
        i += 1;
    }
    assert(digits@.take(digits.len() as int) =~= digits@);
    assert(strip_zeros(digits@) == digits@);
    assert(old(out)@ + fraction_suffix(f as nat) =~= base + digits@);
}

/// The magnitude of an `i128`.
fn magnitude(v: i128) -> (r: u128)
    ensures
        r as nat == abs(v as int),
{
    if v >= 0 {
        v as u128
    } else {
        ((-(v + 1)) as u128) + 1
    }
}

impl Decimal {
    /// The canonical form: no leading `+`, no insignificant zeroes, and no
    /// decimal point at all when the value is integral.
    pub fn to_string(self) -> (r: String)
        ensures
            r@ == decimal_canonical(self@),
    {
        let mut out: Vec<char> = Vec::new();
        if self.0 < 0 {
            out.push('-');
        }
        let m = magnitude(self.0);
        push_decimal(&mut out, m / 1_000_000_000_000_000_000);
        push_fraction(&mut out, m % 1_000_000_000_000_000_000);
        assert(out@ =~= decimal_canonical(self@));
        string_from_chars(&out)
    }
}
// ---------------------------------------------------------------------------
// Lexical pieces shared by the temporal types
// ---------------------------------------------------------------------------

/// How many ASCII digits follow position `p`.
pub open spec fn count_digits(s: Seq<char>, p: int) -> nat
    decreases s.len() - p,
{
    if p < 0 || p >= s.len() || !is_digit(s[p]) {
        0
    } else {
        1 + count_digits(s, p + 1)
    }
}

pub proof fn lemma_count_digits(s: Seq<char>, p: int)
    requires
        0 <= p <= s.len(),
    ensures
        p + count_digits(s, p) <= s.len(),
        all_digits(s.subrange(p, p + count_digits(s, p))),
        p + count_digits(s, p) < s.len() ==> !is_digit(s[p + count_digits(s, p)]),
    decreases s.len() - p,
{
    if p < s.len() && is_digit(s[p]) {
        lemma_count_digits(s, p + 1);
        let n = count_digits(s, p);
        assert forall|j: int| 0 <= j < n implies is_digit(#[trigger] s.subrange(p, p + n)[j]) by {
            if j > 0 {
                assert(s.subrange(p, p + n)[j] == s.subrange(p + 1, p + n)[j - 1]);
            }
        }
    }
}

/// Counts the ASCII digits from position `p`.
fn digits_from(s: &Vec<char>, p: usize) -> (n: usize)
    requires
        p <= s.len(),
    ensures
        n == count_digits(s@, p as int),
{
    let mut i = p;
    proof {
        lemma_count_digits(s@, p as int);
    }
    while i < s.len() && s[i] >= '0' && s[i] <= '9'
        invariant
            p <= i <= s.len(),
            count_digits(s@, p as int) == (i - p) + count_digits(s@, i as int),
        decreases s.len() - i,
    {
        i += 1;
    }
    i - p
}

/// Two ASCII digits at `p`: their value and the position after them.
pub open spec fn spec_take_two(s: Seq<char>, p: int) -> Option<(int, int)> {
    if 0 <= p && p + 2 <= s.len() && is_digit(s[p]) && is_digit(s[p + 1]) {
        Some(((10 * digit_value(s[p]) + digit_value(s[p + 1])) as int, p + 2))
    } else {
        None
    }
}

/// The separator `c` at `p`: the position after it.
pub open spec fn spec_take(s: Seq<char>, p: int, c: char) -> Option<int> {
    if 0 <= p < s.len() && s[p] == c {
        Some(p + 1)
    } else {
        None
    }
}

fn take_two(s: &Vec<char>, p: usize, what: &str) -> (r: Result<(u8, usize), String>)
    requires
        p <= s.len(),
    ensures
        match r {
            Ok((v, q)) => spec_take_two(s@, p as int) == Some((v as int, q as int)) && q <= s.len(),
            Err(_) => spec_take_two(s@, p as int) is None,
        },
{
    if s.len() - p < 2 || !(s[p] >= '0' && s[p] <= '9') || !(s[p + 1] >= '0' && s[p + 1] <= '9') {
        let mut v: Vec<char> = Vec::new();
        push_str(&mut v, what);
        push_str(&mut v, " must be two digits");
        return Err(string_from_chars(&v));
    }
    let hi = char_digit(s[p]);
    let lo = char_digit(s[p + 1]);
    Ok((hi * 10 + lo, p + 2))
}

fn take(s: &Vec<char>, p: usize, sep: char, what: &str) -> (r: Result<usize, String>)
    requires
        p <= s.len(),
    ensures
        match r {
            Ok(q) => spec_take(s@, p as int, sep) == Some(q as int) && q <= s.len(),
            Err(_) => spec_take(s@, p as int, sep) is None,
        },
{
    if p < s.len() && s[p] == sep {
        Ok(p + 1)
    } else {
        let mut v: Vec<char> = Vec::new();
        push_str(&mut v, "expected `");
        v.push(sep);
        push_str(&mut v, "` ");
        push_str(&mut v, what);
        Err(string_from_chars(&v))
    }
}

/// The largest value an `i64` holds.
pub open spec fn i64_max() -> int {
    9223372036854775807
}

/// The year field at `p`: signed, at least four digits, and no leading zero
/// beyond four. Its value and the position after it.
///
/// `-0000` is accepted: the lexical production allows it, and year zero is a
/// rule of the XSD version rather than of the lexical form.
pub open spec fn spec_take_year(s: Seq<char>, p: int) -> Option<(int, int)> {
    let negative = 0 <= p < s.len() && s[p] == '-';
    let q = if negative { p + 1 } else { p };
    let n = count_digits(s, q);
    if n < 4 || (n > 4 && s[q] == '0') {
        None
    } else {
        let y = digits_value(s.subrange(q, q + n)) as int;
        if y > i64_max() {
            None
        } else {
            Some((if negative { -y } else { y }, q + n))
        }
    }
}

fn take_year(s: &Vec<char>, p: usize) -> (r: Result<(i64, usize), String>)
    requires
        p <= s.len(),
    ensures
        match r {
            Ok((y, q)) => spec_take_year(s@, p as int) == Some((y as int, q as int)) && q <= s.len(),
            Err(_) => spec_take_year(s@, p as int) is None,
        },
{
    let negative = p < s.len() && s[p] == '-';
    let q = if negative { p + 1 } else { p };
    let n = digits_from(s, q);
    proof {
        lemma_count_digits(s@, q as int);
    }
    if n < 4 || (n > 4 && s[q] == '0') {
        return Err(message("the year needs at least four digits, and no leading zero beyond that"));
    }
    match read_bounded(s, q, q + n, 9223372036854775807) {
        Some(y) => {
            let y = y as i64;
            Ok((if negative { -y } else { y }, q + n))
        },
        None => Err(message("the year is out of range")),
    }
}

/// The timezone that may follow any temporal lexical form, read from `p` to
/// the end: nothing, `Z`, or `±hh:mm` within fourteen hours of UTC. The
/// offset is in minutes east of UTC.
pub open spec fn spec_offset(s: Seq<char>, p: int) -> Option<Option<int>> {
    let rest = s.skip(p);
    if rest.len() == 0 {
        Some(None)
    } else if rest.len() == 1 && rest[0] == 'Z' {
        Some(Some(0))
    } else if rest[0] != '+' && rest[0] != '-' {
        None
    } else if !(rest.len() == 6 && is_digit(rest[1]) && is_digit(rest[2]) && rest[3] == ':'
        && is_digit(rest[4]) && is_digit(rest[5])) {
        None
    } else {
        let hh = (10 * digit_value(rest[1]) + digit_value(rest[2])) as int;
        let mm = (10 * digit_value(rest[4]) + digit_value(rest[5])) as int;
        let total = if rest[0] == '-' { -(hh * 60 + mm) } else { hh * 60 + mm };
        if mm > 59 || total < -840 || total > 840 {
            None
        } else {
            Some(Some(total))
        }
    }
}

fn parse_offset(s: &Vec<char>, p: usize) -> (r: Result<Option<i16>, String>)
    requires
        p <= s.len(),
    ensures
        match r {
            Ok(o) => spec_offset(s@, p as int) == Some(opt_int(o)),
            Err(_) => spec_offset(s@, p as int) is None,
        },
{
    let ghost rest = s@.skip(p as int);
    let n = s.len() - p;
    if n == 0 {
        return Ok(None);
    }
    assert(rest[0] == s@[p as int]);
    if n == 1 && s[p] == 'Z' {
        return Ok(Some(0));
    }
    let negative = s[p] == '-';
    if s[p] != '+' && !negative {
        return Err(message("expected a timezone such as `Z` or `+02:00`"));
    }
    if n != 6 || !(s[p + 1] >= '0' && s[p + 1] <= '9') || !(s[p + 2] >= '0' && s[p + 2] <= '9')
        || s[p + 3] != ':' || !(s[p + 4] >= '0' && s[p + 4] <= '9') || !(s[p + 5] >= '0' && s[p
        + 5] <= '9') {
        return Err(message("expected a timezone such as `Z` or `+02:00`"));
    }
    assert(rest[1] == s@[p + 1] && rest[2] == s@[p + 2] && rest[3] == s@[p + 3] && rest[4] == s@[p
        + 4] && rest[5] == s@[p + 5]);
    let hh = (char_digit(s[p + 1]) * 10 + char_digit(s[p + 2])) as i16;
    let mm = (char_digit(s[p + 4]) * 10 + char_digit(s[p + 5])) as i16;
    let total: i16 = if negative { -(hh * 60 + mm) } else { hh * 60 + mm };
    if mm > 59 || total < -840 || total > 840 {
        return Err(message("a timezone must be between -14:00 and +14:00"));
    }
    Ok(Some(total))
}

/// An optional `i16` as an optional integer.
pub open spec fn opt_int(o: Option<i16>) -> Option<int> {
    match o {
        Some(v) => Some(v as int),
        None => None,
    }
}

/// The offset written after a value: nothing, `Z` for UTC, or `±hh:mm`.
pub open spec fn offset_chars(o: Option<int>) -> Seq<char> {
    match o {
        None => Seq::empty(),
        Some(m) => if m == 0 {
            seq!['Z']
        } else {
            seq![if m < 0 { '-' } else { '+' }] + fixed_digits(abs(m) / 60, 2) + seq![':']
                + fixed_digits(abs(m) % 60, 2)
        },
    }
}

fn write_offset(out: &mut Vec<char>, offset: Option<i16>)
    requires
        offset matches Some(m) ==> -840 <= m <= 840,
    ensures
        final(out)@ == old(out)@ + offset_chars(opt_int(offset)),
{
    match offset {
        None => {
            assert(old(out)@ + offset_chars(None) =~= old(out)@);
        },
        Some(m) => {
            if m == 0 {
                out.push('Z');
                assert(old(out)@ + offset_chars(Some(0)) =~= old(out)@.push('Z'));
            } else {
                out.push(if m < 0 { '-' } else { '+' });
                let a: u128 = if m < 0 { (-m) as u128 } else { m as u128 };
                push_fixed(out, a / 60, 2);
                out.push(':');
                push_fixed(out, a % 60, 2);
                assert(old(out)@ + offset_chars(Some(m as int)) =~= final(out)@) by {
                    assert(a as nat == abs(m as int));
                }
            }
        },
    }
}
// ---------------------------------------------------------------------------
// Calendar arithmetic
// ---------------------------------------------------------------------------

/// Whether `year` has a 29th of February.
pub open spec fn spec_is_leap(year: int) -> bool {
    year % 4 == 0 && (year % 100 != 0 || year % 400 == 0)
}

/// The number of days in a month of a particular year; zero for a month
/// that does not exist.
pub open spec fn spec_days_in_month(year: int, month: int) -> int {
    if month == 1 || month == 3 || month == 5 || month == 7 || month == 8 || month == 10 || month
        == 12 {
        31
    } else if month == 4 || month == 6 || month == 9 || month == 11 {
        30
    } else if month == 2 {
        if spec_is_leap(year) {
            29
        } else {
            28
        }
    } else {
        0
    }
}

#[verifier::spinoff_prover]
#[verifier::rlimit(30)]
fn is_leap(year: i64) -> (r: bool)
    ensures
        r == spec_is_leap(year as int),
{
    year % 4 == 0 && (year % 100 != 0 || year % 400 == 0)
}

fn days_in_month(year: i64, month: u8) -> (r: u8)
    ensures
        r as int == spec_days_in_month(year as int, month as int),
{
    match month {
        1 | 3 | 5 | 7 | 8 | 10 | 12 => 31,
        4 | 6 | 9 | 11 => 30,
        2 => if is_leap(year) {
            29
        } else {
            28
        },
        _ => 0,
    }
}

/// The most days a month can have, over any year: February has 29, since
/// a recurring day names no year.
pub open spec fn spec_max_day(month: int) -> int {
    if month == 2 {
        29
    } else {
        spec_days_in_month(1, month)
    }
}

fn max_day(month: u8) -> (r: u8)
    ensures
        r as int == spec_max_day(month as int),
{
    match month {
        1 | 3 | 5 | 7 | 8 | 10 | 12 => 31,
        4 | 6 | 9 | 11 => 30,
        2 => 29,
        _ => 0,
    }
}

// ---------------------------------------------------------------------------
// gMonthDay
// ---------------------------------------------------------------------------

/// `xs:gMonthDay`, a day of a month recurring every year.
///
/// A gMonthDay names no year, so February has 29 days in it: `--02-29` is a
/// valid value.
#[derive(Clone, Copy, Debug)]
pub struct GMonthDay {
    month: u8,
    day: u8,
    offset: Option<i16>,
}

/// The month, day and offset a gMonthDay literal denotes.
pub open spec fn spec_gmonthday(s: Seq<char>) -> Option<(int, int, Option<int>)> {
    if !(s.len() >= 2 && s[0] == '-' && s[1] == '-') {
        None
    } else if !(s.len() >= 7 && is_digit(s[2]) && is_digit(s[3]) && s[4] == '-' && is_digit(s[5])
        && is_digit(s[6])) {
        None
    } else {
        let month = (10 * digit_value(s[2]) + digit_value(s[3])) as int;
        let day = (10 * digit_value(s[5]) + digit_value(s[6])) as int;
        if month < 1 || month > 12 || day < 1 || day > spec_max_day(month) {
            None
        } else {
            match spec_offset(s, 7) {
                Some(o) => Some((month, day, o)),
                None => None,
            }
        }
    }
}

impl View for GMonthDay {
    type V = (int, int, Option<int>);

    closed spec fn view(&self) -> (int, int, Option<int>) {
        (self.month as int, self.day as int, opt_int(self.offset))
    }
}

impl GMonthDay {
    /// The month, day and offset are in range.
    #[verifier::type_invariant]
    pub closed spec fn wf(self) -> bool {
        &&& 1 <= self.month <= 12
        &&& 1 <= self.day <= spec_max_day(self.month as int)
        &&& self.offset matches Some(m) ==> -840 <= m <= 840
    }

    pub fn month(self) -> (r: u8)
        ensures
            r == self@.0,
    {
        self.month
    }

    pub fn day(self) -> (r: u8)
        ensures
            r == self@.1,
    {
        self.day
    }

    pub fn timezone_offset(self) -> (r: Option<TimezoneOffset>)
        ensures
            opt_tz(r) == self@.2,
    {
        proof {
            use_type_invariant(&self);
        }
        match self.offset {
            Some(m) => Some(TimezoneOffset(m)),
            None => None,
        }
    }

    /// Reads a `--MM-DD` literal, with an optional timezone.
    pub fn parse_lexical(s: &str) -> (r: Result<Self, String>)
        ensures
            match r {
                Ok(v) => spec_gmonthday(s@) == Some(v@),
                Err(_) => spec_gmonthday(s@) is None,
            },
    {
        let b = str_chars(s);
        if !(b.len() >= 2 && b[0] == '-' && b[1] == '-') {
            return Err(message("expected `--MM-DD`"));
        }
        let shaped = b.len() >= 7 && b[2] >= '0' && b[2] <= '9' && b[3] >= '0' && b[3] <= '9'
            && b[4] == '-' && b[5] >= '0' && b[5] <= '9' && b[6] >= '0' && b[6] <= '9';
        if !shaped {
            return Err(message("expected `--MM-DD`"));
        }
        let month = char_digit(b[2]) * 10 + char_digit(b[3]);
        let day = char_digit(b[5]) * 10 + char_digit(b[6]);
        if month < 1 || month > 12 {
            return Err(message_with(month as u128, " is not a month"));
        }
        if day < 1 || day > max_day(month) {
            return Err(message_with(day as u128, " is not a day of that month"));
        }
        let offset = parse_offset(&b, 7)?;
        Ok(GMonthDay { month, day, offset })
    }

    /// The canonical form, `--MM-DD` and the timezone if there is one.
    pub fn to_string(self) -> (r: String)
        ensures
            r@ == seq!['-', '-'] + fixed_digits(self@.0 as nat, 2) + seq!['-'] + fixed_digits(
                self@.1 as nat,
                2,
            ) + offset_chars(self@.2),
    {
        proof {
            use_type_invariant(&self);
        }
        let mut out: Vec<char> = Vec::new();
        out.push('-');
        out.push('-');
        push_fixed(&mut out, self.month as u128, 2);
        out.push('-');
        push_fixed(&mut out, self.day as u128, 2);
        write_offset(&mut out, self.offset);
        assert(out@ =~= seq!['-', '-'] + fixed_digits(self@.0 as nat, 2) + seq!['-']
            + fixed_digits(self@.1 as nat, 2) + offset_chars(self@.2));
        string_from_chars(&out)
    }
}

/// An offset from UTC, in minutes east of it, from -840 to 840.
///
/// Absent when a value carries no timezone, which is what makes two
/// otherwise ordered values incomparable.
#[derive(Clone, Copy, Debug, PartialEq, Eq, PartialOrd, Ord, Hash, Structural)]
pub struct TimezoneOffset(i16);

impl View for TimezoneOffset {
    type V = int;

    closed spec fn view(&self) -> int {
        self.0 as int
    }
}

/// An optional offset as an optional count of minutes.
pub open spec fn opt_tz(o: Option<TimezoneOffset>) -> Option<int> {
    match o {
        Some(t) => Some(t@),
        None => None,
    }
}

impl TimezoneOffset {
    /// No offset is more than fourteen hours either way.
    #[verifier::type_invariant]
    closed spec fn within_fourteen_hours(self) -> bool {
        -840 <= self.0 <= 840
    }

    /// Minutes east of UTC, from -840 to 840.
    pub fn minutes(self) -> (r: i16)
        ensures
            r == self@,
            -840 <= r <= 840,
    {
        proof {
            use_type_invariant(&self);
        }
        self.0
    }
}
// ---------------------------------------------------------------------------
// The order rule
// ---------------------------------------------------------------------------

/// The order of two integers.
pub open spec fn int_order(a: int, b: int) -> Ordering {
    if a < b {
        Ordering::Less
    } else if a > b {
        Ordering::Greater
    } else {
        Ordering::Equal
    }
}

/// Orders two instants given as minutes from a common epoch.
///
/// A value carrying no timezone names every instant its 28-hour window could
/// stand for, so it is ordered against a value that carries one only when
/// the whole window falls to one side; otherwise the two are incomparable.
pub open spec fn zoned_order(a: int, a_zoned: bool, b: int, b_zoned: bool) -> Option<Ordering> {
    if a_zoned == b_zoned {
        Some(int_order(a, b))
    } else if !a_zoned {
        if a + 840 < b {
            Some(Ordering::Less)
        } else if a - 840 > b {
            Some(Ordering::Greater)
        } else {
            None
        }
    } else {
        if b + 840 < a {
            Some(Ordering::Greater)
        } else if b - 840 > a {
            Some(Ordering::Less)
        } else {
            None
        }
    }
}

fn order_i128(a: i128, b: i128) -> (r: Ordering)
    ensures
        r == int_order(wide(a), wide(b)),
{
    if a < b {
        Ordering::Less
    } else if a > b {
        Ordering::Greater
    } else {
        Ordering::Equal
    }
}

fn zoned_order_exec(a: i128, a_zoned: bool, b: i128, b_zoned: bool) -> (r: Option<Ordering>)
    requires
        -i128_max() / 2 <= a <= i128_max() / 2,
        -i128_max() / 2 <= b <= i128_max() / 2,
    ensures
        r == zoned_order(wide(a), a_zoned, wide(b), b_zoned),
{
    if a_zoned == b_zoned {
        Some(order_i128(a, b))
    } else if !a_zoned {
        if a + 840 < b {
            Some(Ordering::Less)
        } else if a - 840 > b {
            Some(Ordering::Greater)
        } else {
            None
        }
    } else {
        if b + 840 < a {
            Some(Ordering::Greater)
        } else if b - 840 > a {
            Some(Ordering::Less)
        } else {
            None
        }
    }
}

/// Days before the first of `month` in a leap year: the reference year a
/// recurring day is placed in, so that `--02-29` has somewhere to land.
pub open spec fn days_before_month(month: int) -> int {
    if month == 1 {
        0
    } else if month == 2 {
        31
    } else if month == 3 {
        60
    } else if month == 4 {
        91
    } else if month == 5 {
        121
    } else if month == 6 {
        152
    } else if month == 7 {
        182
    } else if month == 8 {
        213
    } else if month == 9 {
        244
    } else if month == 10 {
        274
    } else if month == 11 {
        305
    } else {
        335
    }
}

/// Minutes from the start of the reference year, in UTC.
pub open spec fn gmonthday_minutes(v: (int, int, Option<int>)) -> int {
    (days_before_month(v.0) + v.1 - 1) * 1440 - match v.2 {
        Some(m) => m,
        None => 0,
    }
}

impl GMonthDay {
    fn utc_minutes(&self) -> (r: i128)
        ensures
            r == gmonthday_minutes(self@),
            -1000000 <= r <= 1000000,
    {
        proof {
            use_type_invariant(self);
        }
        let before: i128 = match self.month {
            1 => 0,
            2 => 31,
            3 => 60,
            4 => 91,
            5 => 121,
            6 => 152,
            7 => 182,
            8 => 213,
            9 => 244,
            10 => 274,
            11 => 305,
            _ => 335,
        };
        let off: i128 = match self.offset {
            Some(m) => m as i128,
            None => 0,
        };
        (before + self.day as i128 - 1) * 1440 - off
    }
}

impl PartialEq for GMonthDay {
    fn eq(&self, other: &Self) -> (r: bool) {
        match self.partial_cmp(other) {
            Some(Ordering::Equal) => true,
            _ => false,
        }
    }
}

impl vstd::std_specs::cmp::PartialEqSpecImpl for GMonthDay {
    open spec fn obeys_eq_spec() -> bool {
        true
    }

    open spec fn eq_spec(&self, other: &GMonthDay) -> bool {
        zoned_order(gmonthday_minutes(self@), self@.2 is Some, gmonthday_minutes(other@), other@.2 is Some)
            == Some(Ordering::Equal)
    }
}

impl PartialOrd for GMonthDay {
    /// The timezone rule, same as every other temporal type.
    fn partial_cmp(&self, other: &Self) -> (r: Option<Ordering>) {
        zoned_order_exec(
            self.utc_minutes(),
            self.offset.is_some(),
            other.utc_minutes(),
            other.offset.is_some(),
        )
    }
}

impl vstd::std_specs::cmp::PartialOrdSpecImpl for GMonthDay {
    open spec fn obeys_partial_cmp_spec() -> bool {
        true
    }

    open spec fn partial_cmp_spec(&self, other: &GMonthDay) -> Option<Ordering> {
        zoned_order(gmonthday_minutes(self@), self@.2 is Some, gmonthday_minutes(other@), other@.2 is Some)
    }
}
// ---------------------------------------------------------------------------
// Time
// ---------------------------------------------------------------------------

/// `SS[.fff…]` at `p`: the seconds scaled by 10^18 (the first eighteen
/// fractional digits kept) and the position after them. XSD has no leap
/// seconds, so the whole seconds stop at 59.
pub open spec fn spec_take_seconds(s: Seq<char>, p: int) -> Option<(int, int)> {
    match spec_take_two(s, p) {
        None => None,
        Some((whole, q)) => if whole > 59 {
            None
        } else if spec_take(s, q, '.') is Some {
            let n = count_digits(s, q + 1);
            if n == 0 {
                None
            } else {
                Some((whole * spec_scale() + frac18(s.subrange(q + 1, q + 1 + n)), q + 1 + n))
            }
        } else {
            Some((whole * spec_scale(), q))
        },
    }
}

fn take_seconds(s: &Vec<char>, p: usize) -> (r: Result<(i128, usize), String>)
    requires
        p <= s.len(),
    ensures
        match r {
            Ok((v, q)) => spec_take_seconds(s@, p as int) == Some((v as int, q as int)) && q
                <= s.len() && 0 <= v < 60 * spec_scale(),
            Err(_) => spec_take_seconds(s@, p as int) is None,
        },
{
    let (whole, rest) = take_two(s, p, "the seconds")?;
    if whole > 59 {
        return Err(message_with(whole as u128, " is not a number of seconds"));
    }
    let scaled = (whole as i128) * 1_000_000_000_000_000_000;
    if rest < s.len() && s[rest] == '.' {
        let n = digits_from(s, rest + 1);
        proof {
            lemma_count_digits(s@, rest + 1);
        }
        if n == 0 {
            return Err(message("the fractional seconds need at least one digit"));
        }
        let frac = read_frac18(s, rest + 1, rest + 1 + n);
        Ok((scaled + frac, rest + 1 + n))
    } else {
        Ok((scaled, rest))
    }
}

/// The clock fields at `p`: hour, minute, seconds, whether they named the
/// midnight that ends a day (`24:00:00`, the only use of hour 24), and the
/// position after them.
pub open spec fn spec_take_clock(s: Seq<char>, p: int) -> Option<(int, int, int, bool, int)> {
    match spec_take_two(s, p) {
        None => None,
        Some((hour, q1)) => match spec_take(s, q1, ':') {
            None => None,
            Some(q2) => match spec_take_two(s, q2) {
                None => None,
                Some((minute, q3)) => match spec_take(s, q3, ':') {
                    None => None,
                    Some(q4) => match spec_take_seconds(s, q4) {
                        None => None,
                        Some((second, q5)) => {
                            let end_of_day = hour == 24;
                            if minute > 59 {
                                None
                            } else if end_of_day && (minute != 0 || second != 0) {
                                None
                            } else if hour > 24 {
                                None
                            } else {
                                Some((hour, minute, second, end_of_day, q5))
                            }
                        },
                    },
                },
            },
        },
    }
}

fn take_clock(s: &Vec<char>, p: usize) -> (r: Result<(u8, u8, i128, bool, usize), String>)
    requires
        p <= s.len(),
    ensures
        match r {
            Ok((h, m, sec, eod, q)) => spec_take_clock(s@, p as int) == Some(
                (h as int, m as int, sec as int, eod, q as int),
            ) && q <= s.len() && 0 <= sec < 60 * spec_scale(),
            Err(_) => spec_take_clock(s@, p as int) is None,
        },
{
    let (hour, rest) = take_two(s, p, "the hour")?;
    let rest = take(s, rest, ':', "after the hour")?;
    let (minute, rest) = take_two(s, rest, "the minute")?;
    let rest = take(s, rest, ':', "after the minute")?;
    let (second, rest) = take_seconds(s, rest)?;
    if minute > 59 {
        return Err(message_with(minute as u128, " is not a minute"));
    }
    let end_of_day = hour == 24;
    if end_of_day && (minute != 0 || second != 0) {
        return Err(message("`24` is only an hour in `24:00:00`"));
    }
    if hour > 24 {
        return Err(message_with(hour as u128, " is not an hour"));
    }
    Ok((hour, minute, second, end_of_day, rest))
}

/// `xs:time`, and the time half of `xs:dateTime`.
#[derive(Clone, Copy, Debug)]
pub struct Time {
    hour: u8,
    minute: u8,
    /// Seconds within the minute, scaled by 10^18.
    second: i128,
    offset: Option<i16>,
}

/// The hour, minute, scaled seconds and offset a time literal denotes.
/// `24:00:00` is the start of the next day, and a time has no day to roll
/// into, so it reads as midnight.
pub open spec fn spec_time(s: Seq<char>) -> Option<(int, int, int, Option<int>)> {
    match spec_take_clock(s, 0) {
        None => None,
        Some((hour, minute, second, end_of_day, q)) => match spec_offset(s, q) {
            None => None,
            Some(o) => Some((if end_of_day { 0 } else { hour }, minute, second, o)),
        },
    }
}

impl View for Time {
    type V = (int, int, int, Option<int>);

    closed spec fn view(&self) -> (int, int, int, Option<int>) {
        (self.hour as int, self.minute as int, self.second as int, opt_int(self.offset))
    }
}

/// The seconds of a value written canonically: two digits, and a fraction
/// only when there is one.
pub open spec fn seconds_chars(scaled: int) -> Seq<char> {
    fixed_digits((scaled / spec_scale()) as nat, 2) + fraction_suffix((scaled % spec_scale()) as nat)
}

fn write_seconds(out: &mut Vec<char>, scaled: i128)
    requires
        0 <= scaled < 60 * spec_scale(),
    ensures
        final(out)@ == old(out)@ + seconds_chars(scaled as int),
{
    push_fixed(out, (scaled / 1_000_000_000_000_000_000) as u128, 2);
    push_fraction(out, (scaled % 1_000_000_000_000_000_000) as u128);
    assert(final(out)@ =~= old(out)@ + seconds_chars(scaled as int));
}

impl Time {
    /// The fields are in range: hours below 24, minutes below 60, seconds
    /// below 60, and the offset within fourteen hours.
    #[verifier::type_invariant]
    pub closed spec fn wf(self) -> bool {
        &&& self.hour <= 23
        &&& self.minute <= 59
        &&& 0 <= self.second < 60 * spec_scale()
        &&& self.offset matches Some(m) ==> -840 <= m <= 840
    }

    pub fn hour(self) -> (r: u8)
        ensures
            r == self@.0,
    {
        self.hour
    }

    pub fn minute(self) -> (r: u8)
        ensures
            r == self@.1,
    {
        self.minute
    }

    /// Seconds within the minute, which XSD allows a fractional part.
    pub fn second(self) -> (r: Decimal)
        ensures
            r@ == self@.2,
    {
        Decimal::from_scaled(self.second)
    }

    pub fn timezone_offset(self) -> (r: Option<TimezoneOffset>)
        ensures
            opt_tz(r) == self@.3,
    {
        proof {
            use_type_invariant(&self);
        }
        match self.offset {
            Some(m) => Some(TimezoneOffset(m)),
            None => None,
        }
    }

    /// Reads an `hh:mm:ss[.fff]` literal, with an optional timezone.
    pub fn parse_lexical(s: &str) -> (r: Result<Self, String>)
        ensures
            match r {
                Ok(v) => spec_time(s@) == Some(v@),
                Err(_) => spec_time(s@) is None,
            },
    {
        let c = str_chars(s);
        let (hour, minute, second, end_of_day, rest) = take_clock(&c, 0)?;
        let offset = parse_offset(&c, rest)?;
        Ok(Time { hour: if end_of_day { 0 } else { hour }, minute, second, offset })
    }

    /// The canonical form: `hh:mm:ss`, a fraction only when there is one,
    /// and the timezone if there is one.
    pub fn to_string(self) -> (r: String)
        ensures
            r@ == fixed_digits(self@.0 as nat, 2) + seq![':'] + fixed_digits(self@.1 as nat, 2)
                + seq![':'] + seconds_chars(self@.2) + offset_chars(self@.3),
    {
        proof {
            use_type_invariant(&self);
        }
        let mut out: Vec<char> = Vec::new();
        push_fixed(&mut out, self.hour as u128, 2);
        out.push(':');
        push_fixed(&mut out, self.minute as u128, 2);
        out.push(':');
        write_seconds(&mut out, self.second);
        write_offset(&mut out, self.offset);
        assert(out@ =~= fixed_digits(self@.0 as nat, 2) + seq![':'] + fixed_digits(self@.1 as nat, 2)
            + seq![':'] + seconds_chars(self@.2) + offset_chars(self@.3));
        string_from_chars(&out)
    }
}
// ---------------------------------------------------------------------------
// Date and DateTime
// ---------------------------------------------------------------------------

/// The calendar fields at `p`, checked against the real length of the month:
/// year, month, day and the position after them.
pub open spec fn spec_take_calendar(s: Seq<char>, p: int) -> Option<(int, int, int, int)> {
    match spec_take_year(s, p) {
        None => None,
        Some((year, q1)) => match spec_take(s, q1, '-') {
            None => None,
            Some(q2) => match spec_take_two(s, q2) {
                None => None,
                Some((month, q3)) => match spec_take(s, q3, '-') {
                    None => None,
                    Some(q4) => match spec_take_two(s, q4) {
                        None => None,
                        Some((day, q5)) => if month < 1 || month > 12 {
                            None
                        } else if day < 1 || day > spec_days_in_month(year, month) {
                            None
                        } else {
                            Some((year, month, day, q5))
                        },
                    },
                },
            },
        },
    }
}

fn take_calendar(s: &Vec<char>, p: usize) -> (r: Result<(i64, u8, u8, usize), String>)
    requires
        p <= s.len(),
    ensures
        match r {
            Ok((y, m, d, q)) => spec_take_calendar(s@, p as int) == Some(
                (y as int, m as int, d as int, q as int),
            ) && q <= s.len(),
            Err(_) => spec_take_calendar(s@, p as int) is None,
        },
{
    let (year, rest) = take_year(s, p)?;
    let rest = take(s, rest, '-', "after the year")?;
    let (month, rest) = take_two(s, rest, "the month")?;
    let rest = take(s, rest, '-', "after the month")?;
    let (day, rest) = take_two(s, rest, "the day")?;
    if month < 1 || month > 12 {
        return Err(message_with(month as u128, " is not a month"));
    }
    if day < 1 || day > days_in_month(year, month) {
        return Err(message_with(day as u128, " is not a day of that month"));
    }
    Ok((year, month, day, rest))
}

/// `xs:date`.
#[derive(Clone, Copy, Debug)]
pub struct Date {
    year: i64,
    month: u8,
    day: u8,
    offset: Option<i16>,
}

/// The year, month, day and offset a date literal denotes.
pub open spec fn spec_date(s: Seq<char>) -> Option<(int, int, int, Option<int>)> {
    match spec_take_calendar(s, 0) {
        None => None,
        Some((year, month, day, q)) => match spec_offset(s, q) {
            None => None,
            Some(o) => Some((year, month, day, o)),
        },
    }
}

/// The day after `year-month-day`, carrying through the month and the year.
pub open spec fn spec_next_day(year: int, month: int, day: int) -> (int, int, int) {
    if day < spec_days_in_month(year, month) {
        (year, month, day + 1)
    } else if month < 12 {
        (year, month + 1, 1)
    } else {
        (year + 1, 1, 1)
    }
}

impl View for Date {
    type V = (int, int, int, Option<int>);

    closed spec fn view(&self) -> (int, int, int, Option<int>) {
        (self.year as int, self.month as int, self.day as int, opt_int(self.offset))
    }
}

/// A year written canonically: signed, and at least four digits.
pub open spec fn year_chars(year: int) -> Seq<char> {
    (if year < 0 { seq!['-'] } else { Seq::empty() }) + if abs(year) < 1000 {
        fixed_digits(abs(year), 4)
    } else {
        decimal_chars(abs(year))
    }
}

fn write_year(out: &mut Vec<char>, year: i64)
    ensures
        final(out)@ == old(out)@ + year_chars(year as int),
{
    if year < 0 {
        out.push('-');
    }
    let a: u128 = if year < 0 { ((-(year + 1)) as u128) + 1 } else { year as u128 };
    assert(a as nat == abs(year as int));
    if a < 1000 {
        push_fixed(out, a, 4);
    } else {
        push_decimal(out, a);
    }
    assert(final(out)@ =~= old(out)@ + year_chars(year as int));
}

impl Date {
    /// The month and day name a real day, and the offset is within fourteen
    /// hours.
    #[verifier::type_invariant]
    pub closed spec fn wf(self) -> bool {
        &&& 1 <= self.month <= 12
        &&& 1 <= self.day <= spec_days_in_month(self.year as int, self.month as int)
        &&& self.offset matches Some(m) ==> -840 <= m <= 840
    }

    pub fn year(self) -> (r: i64)
        ensures
            r == self@.0,
    {
        self.year
    }

    pub fn month(self) -> (r: u8)
        ensures
            r == self@.1,
    {
        self.month
    }

    pub fn day(self) -> (r: u8)
        ensures
            r == self@.2,
    {
        self.day
    }

    pub fn timezone_offset(self) -> (r: Option<TimezoneOffset>)
        ensures
            opt_tz(r) == self@.3,
    {
        proof {
            use_type_invariant(&self);
        }
        match self.offset {
            Some(m) => Some(TimezoneOffset(m)),
            None => None,
        }
    }

    /// Reads a `YYYY-MM-DD` literal, with an optional timezone.
    pub fn parse_lexical(s: &str) -> (r: Result<Self, String>)
        ensures
            match r {
                Ok(v) => spec_date(s@) == Some(v@),
                Err(_) => spec_date(s@) is None,
            },
    {
        let c = str_chars(s);
        let (year, month, day, rest) = take_calendar(&c, 0)?;
        let offset = parse_offset(&c, rest)?;
        Ok(Date { year, month, day, offset })
    }

    /// The day after this one, carrying through the month and the year, or
    /// `None` when that would be past the last representable year.
    fn next_day(self) -> (r: Option<Date>)
        ensures
            match r {
                Some(d) => (d@.0, d@.1, d@.2) == spec_next_day(self@.0, self@.1, self@.2) && d@.3
                    == self@.3,
                None => spec_next_day(self@.0, self@.1, self@.2).0 > i64_max(),
            },
    {
        proof {
            use_type_invariant(&self);
        }
        if self.day < days_in_month(self.year, self.month) {
            Some(Date { day: self.day + 1, ..self })
        } else if self.month < 12 {
            Some(Date { month: self.month + 1, day: 1, ..self })
        } else if self.year < i64::MAX {
            Some(Date { year: self.year + 1, month: 1, day: 1, ..self })
        } else {
            None
        }
    }

    /// The canonical form: the year signed and at least four digits, then
    /// `-MM-DD`, then the timezone if there is one.
    pub fn to_string(self) -> (r: String)
        ensures
            r@ == year_chars(self@.0) + seq!['-'] + fixed_digits(self@.1 as nat, 2) + seq!['-']
                + fixed_digits(self@.2 as nat, 2) + offset_chars(self@.3),
    {
        proof {
            use_type_invariant(&self);
        }
        let mut out: Vec<char> = Vec::new();
        write_year(&mut out, self.year);
        out.push('-');
        push_fixed(&mut out, self.month as u128, 2);
        out.push('-');
        push_fixed(&mut out, self.day as u128, 2);
        write_offset(&mut out, self.offset);
        assert(out@ =~= year_chars(self@.0) + seq!['-'] + fixed_digits(self@.1 as nat, 2) + seq!['-']
            + fixed_digits(self@.2 as nat, 2) + offset_chars(self@.3));
        string_from_chars(&out)
    }
}

/// `xs:dateTime`, and `xs:dateTimeStamp`, which additionally requires the
/// timezone to be present.
#[derive(Clone, Copy, Debug)]
pub struct DateTime {
    date: Date,
    time: Time,
}

/// The fields a dateTime literal denotes: year, month, day, hour, minute,
/// scaled seconds and offset.
///
/// `24:00:00` is the midnight that ends its day, which is the midnight that
/// starts the next one, so the date moves forward a day; a literal whose
/// next day would be past the last representable year is refused.
pub open spec fn spec_datetime(s: Seq<char>) -> Option<(int, int, int, int, int, int, Option<int>)> {
    match spec_take_calendar(s, 0) {
        None => None,
        Some((year, month, day, q1)) => match spec_take(s, q1, 'T') {
            None => None,
            Some(q2) => match spec_take_clock(s, q2) {
                None => None,
                Some((hour, minute, second, end_of_day, q3)) => match spec_offset(s, q3) {
                    None => None,
                    Some(o) => if end_of_day {
                        let next = spec_next_day(year, month, day);
                        if next.0 > i64_max() {
                            None
                        } else {
                            Some((next.0, next.1, next.2, 0, minute, second, o))
                        }
                    } else {
                        Some((year, month, day, hour, minute, second, o))
                    },
                },
            },
        },
    }
}

impl View for DateTime {
    type V = (int, int, int, int, int, int, Option<int>);

    closed spec fn view(&self) -> (int, int, int, int, int, int, Option<int>) {
        (
            self.date@.0,
            self.date@.1,
            self.date@.2,
            self.time@.0,
            self.time@.1,
            self.time@.2,
            self.date@.3,
        )
    }
}

impl DateTime {
    /// The date and the time carry the same offset.
    #[verifier::type_invariant]
    pub closed spec fn wf(self) -> bool {
        self.date@.3 == self.time@.3
    }

    pub fn year(self) -> (r: i64)
        ensures
            r == self@.0,
    {
        self.date.year()
    }

    pub fn month(self) -> (r: u8)
        ensures
            r == self@.1,
    {
        self.date.month()
    }

    pub fn day(self) -> (r: u8)
        ensures
            r == self@.2,
    {
        self.date.day()
    }

    pub fn hour(self) -> (r: u8)
        ensures
            r == self@.3,
    {
        self.time.hour()
    }

    pub fn minute(self) -> (r: u8)
        ensures
            r == self@.4,
    {
        self.time.minute()
    }

    /// Seconds within the minute, which XSD allows a fractional part.
    pub fn second(self) -> (r: Decimal)
        ensures
            r@ == self@.5,
    {
        self.time.second()
    }

    pub fn timezone_offset(self) -> (r: Option<TimezoneOffset>)
        ensures
            opt_tz(r) == self@.6,
    {
        self.date.timezone_offset()
    }

    /// Reads a `YYYY-MM-DDThh:mm:ss[.fff]` literal, with an optional timezone.
    pub fn parse_lexical(s: &str) -> (r: Result<Self, String>)
        ensures
            match r {
                Ok(v) => spec_datetime(s@) == Some(v@),
                Err(_) => spec_datetime(s@) is None,
            },
    {
        let c = str_chars(s);
        let (year, month, day, rest) = take_calendar(&c, 0)?;
        let rest = take(&c, rest, 'T', "between the date and the time")?;
        let (hour, minute, second, end_of_day, rest) = take_clock(&c, rest)?;
        let offset = parse_offset(&c, rest)?;
        let mut date = Date { year, month, day, offset };
        if end_of_day {
            date = match date.next_day() {
                Some(d) => d,
                None => return Err(message("the year is out of range")),
            };
        }
        let time = Time { hour: if end_of_day { 0 } else { hour }, minute, second, offset };
        Ok(DateTime { date, time })
    }

    /// The canonical form: the date, `T`, the time, and the timezone if there
    /// is one.
    pub fn to_string(self) -> (r: String)
        ensures
            r@ == year_chars(self@.0) + seq!['-'] + fixed_digits(self@.1 as nat, 2) + seq!['-']
                + fixed_digits(self@.2 as nat, 2) + seq!['T'] + fixed_digits(self@.3 as nat, 2)
                + seq![':'] + fixed_digits(self@.4 as nat, 2) + seq![':'] + seconds_chars(self@.5)
                + offset_chars(self@.6),
    {
        let date = self.date;
        let time = self.time;
        proof {
            use_type_invariant(&date);
            use_type_invariant(&time);
        }
        let mut out: Vec<char> = Vec::new();
        write_year(&mut out, date.year);
        out.push('-');
        push_fixed(&mut out, date.month as u128, 2);
        out.push('-');
        push_fixed(&mut out, date.day as u128, 2);
        out.push('T');
        push_fixed(&mut out, time.hour as u128, 2);
        out.push(':');
        push_fixed(&mut out, time.minute as u128, 2);
        out.push(':');
        write_seconds(&mut out, time.second);
        write_offset(&mut out, date.offset);
        assert(out@ =~= year_chars(self@.0) + seq!['-'] + fixed_digits(self@.1 as nat, 2) + seq!['-']
            + fixed_digits(self@.2 as nat, 2) + seq!['T'] + fixed_digits(self@.3 as nat, 2) + seq![':']
            + fixed_digits(self@.4 as nat, 2) + seq![':'] + seconds_chars(self@.5) + offset_chars(
            self@.6,
        ));
        string_from_chars(&out)
    }
}
// ---------------------------------------------------------------------------
// Instants
// ---------------------------------------------------------------------------

/// Days from 1970-01-01 to `year-month-01`, proleptic Gregorian, by
/// Hinnant's civil-calendar formula: constant time, whatever the year.
pub open spec fn spec_days_from_civil(year: int, month: int) -> int {
    let y = year - (if month <= 2 { 1int } else { 0int });
    let w = if y >= 0 { y } else { y - 399 };
    let era = w / 400;
    let yoe = y - era * 400;
    let doy = (153 * (month + if month > 2 { -3int } else { 9int }) + 2) / 5;
    let doe = yoe * 365 + yoe / 4 - yoe / 100 + doy;
    era * 146097 + doe - 719468
}

/// Floor division by 400, on a negative dividend.
proof fn lemma_floor_div_400(w: int, q: int)
    requires
        w < 0,
        q == (-w + 399) / 400,
    ensures
        w / 400 == -q,
{
    assert(w / 400 == -q) by (nonlinear_arith)
        requires
            w < 0,
            q == (-w + 399) / 400;
}

fn days_from_civil(year: i64, month: u8) -> (r: i128)
    requires
        1 <= month <= 12,
    ensures
        r == spec_days_from_civil(year as int, month as int),
        -4_000_000_000_000_000_000_000 <= r <= 4_000_000_000_000_000_000_000,
{
    let y: i128 = year as i128 - if month <= 2 { 1 } else { 0 };
    let w: i128 = if y >= 0 { y } else { y - 399 };
    let era: i128 = if w >= 0 {
        w / 400
    } else {
        let q = (-w + 399) / 400;
        proof {
            lemma_floor_div_400(w as int, q as int);
        }
        -q
    };
    assert(era == w as int / 400);
    let yoe = y - era * 400;
    assert(0 <= yoe < 800) by (nonlinear_arith)
        requires
            era == w as int / 400,
            w == (if y >= 0 { y as int } else { y - 399 }),
            yoe == y - era * 400;
    let m = month as i128;
    let doy = (153 * (m + if m > 2 { -3 } else { 9 }) + 2) / 5;
    let doe = yoe * 365 + yoe / 4 - yoe / 100 + doy;
    assert(-30_000_000_000_000_000 <= era <= 30_000_000_000_000_000) by (nonlinear_arith)
        requires
            era == w as int / 400,
            -9_300_000_000_000_000_000 <= w <= 9_300_000_000_000_000_000;
    era * 146097 + doe - 719468
}

/// A date and a time of day reduced to minutes from the epoch, in UTC.
pub open spec fn spec_utc_minutes(
    year: int,
    month: int,
    day: int,
    minute_of_day: int,
    offset: Option<int>,
) -> int {
    (spec_days_from_civil(year, month) + (day - 1)) * 1440 + minute_of_day - match offset {
        Some(m) => m,
        None => 0,
    }
}

fn utc_minutes(year: i64, month: u8, day: u8, minute_of_day: i64, offset: Option<i16>) -> (r: i128)
    requires
        1 <= month <= 12,
        1 <= day <= 31,
        0 <= minute_of_day < 1440,
        offset matches Some(m) ==> -840 <= m <= 840,
    ensures
        r == spec_utc_minutes(year as int, month as int, day as int, minute_of_day as int, opt_int(offset)),
        -6_000_000_000_000_000_000_000_000 <= r <= 6_000_000_000_000_000_000_000_000,
{
    let days = days_from_civil(year, month) + (day as i128 - 1);
    let off: i128 = match offset {
        Some(m) => m as i128,
        None => 0,
    };
    days * 1440 + minute_of_day as i128 - off
}

impl Date {
    fn instant(&self) -> (r: i128)
        ensures
            r == spec_utc_minutes(self@.0, self@.1, self@.2, 0, self@.3),
            -6_000_000_000_000_000_000_000_000 <= r <= 6_000_000_000_000_000_000_000_000,
    {
        proof {
            use_type_invariant(self);
        }
        utc_minutes(self.year, self.month, self.day, 0, self.offset)
    }
}

impl Time {
    /// Whole minutes from midnight in UTC, which may fall outside the day.
    fn clock_minutes(&self) -> (r: i128)
        ensures
            r == self@.0 * 60 + self@.1 - match self@.3 {
                Some(m) => m,
                None => 0,
            },
            -1000 <= r <= 3000,
            0 <= self@.2 < 60 * spec_scale(),
    {
        proof {
            use_type_invariant(self);
        }
        let off: i128 = match self.offset {
            Some(m) => m as i128,
            None => 0,
        };
        self.hour as i128 * 60 + self.minute as i128 - off
    }

    fn seconds_scaled(&self) -> (r: i128)
        ensures
            r == self@.2,
            0 <= r < 60 * spec_scale(),
    {
        proof {
            use_type_invariant(self);
        }
        self.second
    }
}

impl DateTime {
    fn instant(&self) -> (r: i128)
        ensures
            r == spec_utc_minutes(self@.0, self@.1, self@.2, self@.3 * 60 + self@.4, self@.6),
            -6_000_000_000_000_000_000_000_000 <= r <= 6_000_000_000_000_000_000_000_000,
    {
        let date = self.date;
        let time = self.time;
        proof {
            use_type_invariant(self);
            use_type_invariant(&date);
            use_type_invariant(&time);
        }
        utc_minutes(
            date.year,
            date.month,
            date.day,
            time.hour as i64 * 60 + time.minute as i64,
            date.offset,
        )
    }

    fn seconds_scaled(&self) -> (r: i128)
        ensures
            r == self@.5,
            0 <= r < 60 * spec_scale(),
    {
        let time = self.time;
        proof {
            use_type_invariant(&time);
        }
        time.second
    }
}
/// Whether `(a0, a1)` comes before `(b0, b1)`, comparing the first halves
/// first.
pub open spec fn pair_lt(a0: int, a1: int, b0: int, b1: int) -> bool {
    a0 < b0 || (a0 == b0 && a1 < b1)
}

/// The order of two (whole minutes, remainder within the minute) pairs.
pub open spec fn pair_order(a0: int, a1: int, b0: int, b1: int) -> Ordering {
    if pair_lt(a0, a1, b0, b1) {
        Ordering::Less
    } else if pair_lt(b0, b1, a0, a1) {
        Ordering::Greater
    } else {
        Ordering::Equal
    }
}

/// The timezone rule for instants given as (whole minutes, remainder within
/// the minute): the same as [`zoned_order`], with the window moving the
/// whole minutes.
pub open spec fn zoned_pair_order(
    a0: int,
    a1: int,
    a_zoned: bool,
    b0: int,
    b1: int,
    b_zoned: bool,
) -> Option<Ordering> {
    if a_zoned == b_zoned {
        Some(pair_order(a0, a1, b0, b1))
    } else if !a_zoned {
        if pair_lt(a0 + 840, a1, b0, b1) {
            Some(Ordering::Less)
        } else if pair_lt(b0, b1, a0 - 840, a1) {
            Some(Ordering::Greater)
        } else {
            None
        }
    } else {
        if pair_lt(b0 + 840, b1, a0, a1) {
            Some(Ordering::Greater)
        } else if pair_lt(a0, a1, b0 - 840, b1) {
            Some(Ordering::Less)
        } else {
            None
        }
    }
}

fn pair_less(a0: i128, a1: i128, b0: i128, b1: i128) -> (r: bool)
    ensures
        r == pair_lt(wide(a0), wide(a1), wide(b0), wide(b1)),
{
    a0 < b0 || (a0 == b0 && a1 < b1)
}

fn zoned_pair_order_exec(
    a0: i128,
    a1: i128,
    a_zoned: bool,
    b0: i128,
    b1: i128,
    b_zoned: bool,
) -> (r: Option<Ordering>)
    requires
        -i128_max() / 2 <= a0 <= i128_max() / 2,
        -i128_max() / 2 <= b0 <= i128_max() / 2,
    ensures
        r == zoned_pair_order(wide(a0), wide(a1), a_zoned, wide(b0), wide(b1), b_zoned),
{
    if a_zoned == b_zoned {
        if pair_less(a0, a1, b0, b1) {
            Some(Ordering::Less)
        } else if pair_less(b0, b1, a0, a1) {
            Some(Ordering::Greater)
        } else {
            Some(Ordering::Equal)
        }
    } else if !a_zoned {
        if pair_less(a0 + 840, a1, b0, b1) {
            Some(Ordering::Less)
        } else if pair_less(b0, b1, a0 - 840, a1) {
            Some(Ordering::Greater)
        } else {
            None
        }
    } else {
        if pair_less(b0 + 840, b1, a0, a1) {
            Some(Ordering::Greater)
        } else if pair_less(a0, a1, b0 - 840, b1) {
            Some(Ordering::Less)
        } else {
            None
        }
    }
}

/// A time's whole minutes from midnight in UTC.
pub open spec fn time_minutes(v: (int, int, int, Option<int>)) -> int {
    v.0 * 60 + v.1 - match v.3 {
        Some(m) => m,
        None => 0,
    }
}

/// A date's first minute, in UTC.
pub open spec fn date_minutes(v: (int, int, int, Option<int>)) -> int {
    spec_utc_minutes(v.0, v.1, v.2, 0, v.3)
}

/// A dateTime's whole minutes, in UTC.
pub open spec fn datetime_minutes(v: (int, int, int, int, int, int, Option<int>)) -> int {
    spec_utc_minutes(v.0, v.1, v.2, v.3 * 60 + v.4, v.6)
}

impl PartialEq for Time {
    fn eq(&self, other: &Self) -> (r: bool) {
        match self.partial_cmp(other) {
            Some(Ordering::Equal) => true,
            _ => false,
        }
    }
}

impl vstd::std_specs::cmp::PartialEqSpecImpl for Time {
    open spec fn obeys_eq_spec() -> bool {
        true
    }

    open spec fn eq_spec(&self, other: &Time) -> bool {
        zoned_pair_order(time_minutes(self@), self@.2, self@.3 is Some, time_minutes(other@), other@.2, other@.3 is Some)
            == Some(Ordering::Equal)
    }
}

impl PartialOrd for Time {
    /// A time spans one day, so it is ordered as minutes and the seconds
    /// within them, under the timezone rule.
    fn partial_cmp(&self, other: &Self) -> (r: Option<Ordering>) {
        zoned_pair_order_exec(
            self.clock_minutes(),
            self.seconds_scaled(),
            self.offset.is_some(),
            other.clock_minutes(),
            other.seconds_scaled(),
            other.offset.is_some(),
        )
    }
}

impl vstd::std_specs::cmp::PartialOrdSpecImpl for Time {
    open spec fn obeys_partial_cmp_spec() -> bool {
        true
    }

    open spec fn partial_cmp_spec(&self, other: &Time) -> Option<Ordering> {
        zoned_pair_order(time_minutes(self@), self@.2, self@.3 is Some, time_minutes(other@), other@.2, other@.3 is Some)
    }
}

impl PartialEq for Date {
    fn eq(&self, other: &Self) -> (r: bool) {
        match self.partial_cmp(other) {
            Some(Ordering::Equal) => true,
            _ => false,
        }
    }
}

impl vstd::std_specs::cmp::PartialEqSpecImpl for Date {
    open spec fn obeys_eq_spec() -> bool {
        true
    }

    open spec fn eq_spec(&self, other: &Date) -> bool {
        zoned_order(date_minutes(self@), self@.3 is Some, date_minutes(other@), other@.3 is Some)
            == Some(Ordering::Equal)
    }
}

impl PartialOrd for Date {
    fn partial_cmp(&self, other: &Self) -> (r: Option<Ordering>) {
        zoned_order_exec(self.instant(), self.offset.is_some(), other.instant(), other.offset.is_some())
    }
}

impl vstd::std_specs::cmp::PartialOrdSpecImpl for Date {
    open spec fn obeys_partial_cmp_spec() -> bool {
        true
    }

    open spec fn partial_cmp_spec(&self, other: &Date) -> Option<Ordering> {
        zoned_order(date_minutes(self@), self@.3 is Some, date_minutes(other@), other@.3 is Some)
    }
}

impl PartialEq for DateTime {
    fn eq(&self, other: &Self) -> (r: bool) {
        match self.partial_cmp(other) {
            Some(Ordering::Equal) => true,
            _ => false,
        }
    }
}

impl vstd::std_specs::cmp::PartialEqSpecImpl for DateTime {
    open spec fn obeys_eq_spec() -> bool {
        true
    }

    open spec fn eq_spec(&self, other: &DateTime) -> bool {
        zoned_pair_order(datetime_minutes(self@), self@.5, self@.6 is Some, datetime_minutes(other@), other@.5, other@.6 is Some)
            == Some(Ordering::Equal)
    }
}

impl PartialOrd for DateTime {
    /// Whole minutes and the remainder within the minute, rather than one
    /// count of 10^-18 seconds: the year is unbounded in the lexical space,
    /// and comparing the pair is the same comparison, because the remainder
    /// is non-negative and below a minute.
    fn partial_cmp(&self, other: &Self) -> (r: Option<Ordering>) {
        let a_zoned = self.date.offset.is_some();
        let b_zoned = other.date.offset.is_some();
        zoned_pair_order_exec(
            self.instant(),
            self.seconds_scaled(),
            a_zoned,
            other.instant(),
            other.seconds_scaled(),
            b_zoned,
        )
    }
}

impl vstd::std_specs::cmp::PartialOrdSpecImpl for DateTime {
    open spec fn obeys_partial_cmp_spec() -> bool {
        true
    }

    open spec fn partial_cmp_spec(&self, other: &DateTime) -> Option<Ordering> {
        zoned_pair_order(datetime_minutes(self@), self@.5, self@.6 is Some, datetime_minutes(other@), other@.5, other@.6 is Some)
    }
}
// ---------------------------------------------------------------------------
// The duration family
// ---------------------------------------------------------------------------

/// The designators of a duration in the order they must appear: `Y`, `M`
/// and `D` for the date, `T` to start the time, then `H`, `M` and `S`.
pub open spec fn designator_at(i: int) -> char {
    if i == 0 {
        'Y'
    } else if i == 1 {
        'M'
    } else if i == 2 {
        'D'
    } else if i == 3 {
        'T'
    } else if i == 4 {
        'H'
    } else if i == 5 {
        'M'
    } else {
        'S'
    }
}

/// The first place at or after `next` where the field designator `d` may
/// stand; `T` is never a field.
pub open spec fn find_designator(d: char, next: int) -> Option<int>
    decreases 7 - next,
{
    if next < 0 || next >= 7 {
        None
    } else if designator_at(next) == d && d != 'T' {
        Some(next)
    } else {
        find_designator(d, next + 1)
    }
}

fn designator_index(d: char, next: usize) -> (r: Option<usize>)
    requires
        next <= 7,
    ensures
        match r {
            Some(i) => find_designator(d, next as int) == Some(i as int) && i < 7,
            None => find_designator(d, next as int) is None,
        },
{
    let mut i = next;
    while i < 7
        invariant
            next <= i <= 7,
            find_designator(d, next as int) == find_designator(d, i as int),
        decreases 7 - i,
    {
        let c = match i {
            0 => 'Y',
            1 => 'M',
            2 => 'D',
            3 => 'T',
            4 => 'H',
            5 => 'M',
            _ => 'S',
        };
        if c == d && d != 'T' {
            return Some(i);
        }
        i += 1;
    }
    None
}

/// How many seconds, scaled by 10^18, one unit of the field at `at` is;
/// the year and month fields count months instead.
pub open spec fn field_unit(at: int) -> int {
    if at == 0 {
        12
    } else if at == 1 {
        1
    } else if at == 2 {
        86_400 * spec_scale()
    } else if at == 4 {
        3_600 * spec_scale()
    } else if at == 5 {
        60 * spec_scale()
    } else {
        spec_scale()
    }
}

/// What scanning a duration's fields from `p` adds to the state
/// `(months, seconds, fields seen, in the time part, next designator)`:
/// each field a number, a fraction only on the seconds, and a designator
/// that comes after every one before it.
pub open spec fn spec_duration_fields(
    s: Seq<char>,
    p: int,
    allow: Seq<char>,
    st: (int, int, int, bool, int),
) -> Option<(int, int, int, bool, int)>
    decreases s.len() - p,
{
    if p < 0 || p >= s.len() {
        Some(st)
    } else if s[p] == 'T' {
        if st.3 || st.4 > 3 || p + 1 >= s.len() {
            None
        } else {
            spec_duration_fields(s, p + 1, allow, (st.0, st.1, st.2, true, 4))
        }
    } else {
        let n = count_digits(s, p);
        let q = p + n;
        let has_frac = q < s.len() && s[q] == '.';
        let fend = if has_frac { q + 1 + count_digits(s, q + 1) } else { q };
        if n == 0 || (has_frac && fend == q + 1) || fend >= s.len() {
            None
        } else {
            let d = s[fend];
            let number = digits_value(s.subrange(p, q)) as int;
            let frac = if has_frac { frac18(s.subrange(q + 1, fend)) } else { 0 };
            match find_designator(d, st.4) {
                None => None,
                Some(at) => if (at > 3) != st.3 {
                    None
                } else if !allow.contains(d) || (has_frac && d != 'S') {
                    None
                } else {
                    let months = if at <= 1 { st.0 + number * field_unit(at) } else { st.0 };
                    let seconds = if at <= 1 { st.1 } else { st.1 + number * field_unit(at) + frac };
                    spec_duration_fields(s, fend + 1, allow, (months, seconds, st.2 + 1, st.3, at + 1))
                },
            }
        }
    }
}

/// Scanning further never shrinks the totals.
pub proof fn lemma_duration_fields_grow(
    s: Seq<char>,
    p: int,
    allow: Seq<char>,
    st: (int, int, int, bool, int),
)
    ensures
        spec_duration_fields(s, p, allow, st) matches Some(r) ==> r.0 >= st.0 && r.1 >= st.1
            && r.2 >= st.2,
    decreases s.len() - p,
{
    if 0 <= p < s.len() {
        if s[p] == 'T' {
            if !(st.3 || st.4 > 3 || p + 1 >= s.len()) {
                lemma_duration_fields_grow(s, p + 1, allow, (st.0, st.1, st.2, true, 4));
            }
        } else {
            let n = count_digits(s, p);
            let q = p + n;
            let has_frac = q < s.len() && s[q] == '.';
            let fend = if has_frac { q + 1 + count_digits(s, q + 1) } else { q };
            if !(n == 0 || (has_frac && fend == q + 1) || fend >= s.len()) {
                let d = s[fend];
                let number = digits_value(s.subrange(p, q)) as int;
                let frac = if has_frac { frac18(s.subrange(q + 1, fend)) } else { 0 };
                if has_frac {
                    assert(frac18(s.subrange(q + 1, fend)) >= 0) by (nonlinear_arith);
                }
                match find_designator(d, st.4) {
                    None => {},
                    Some(at) => {
                        let months = if at <= 1 { st.0 + number * field_unit(at) } else { st.0 };
                        let seconds = if at <= 1 { st.1 } else { st.1 + number * field_unit(at) + frac };
                        assert(number * field_unit(at) >= 0) by (nonlinear_arith)
                            requires
                                number >= 0,
                                field_unit(at) >= 0;
                        lemma_duration_fields_grow(s, fend + 1, allow, (months, seconds, st.2 + 1, st.3, at + 1));
                    },
                }
            }
        }
    }
}

/// The signed totals that the scanned fields `fields` give: refused when
/// no field was read, when `T` had no time field after it, or when the
/// totals do not fit the months in an `i64` and the seconds in an `i128`.
pub open spec fn duration_total(
    fields: Option<(int, int, int, bool, int)>,
    negative: bool,
) -> Option<(int, int)> {
    match fields {
        None => None,
        Some(st) => if st.2 == 0 || (st.3 && st.4 <= 4) {
            None
        } else if st.1 > i128_max() || st.0 > (if negative {
            9223372036854775808int
        } else {
            9223372036854775807int
        }) {
            None
        } else {
            Some((if negative { -st.0 } else { st.0 }, if negative { -st.1 } else { st.1 }))
        },
    }
}

/// The months and the scaled seconds a duration literal denotes, when it is
/// one whose designators `allow` admits and whose value fits.
///
/// A literal is an optional `-`, then `P`, then at least one field; `T`
/// comes at most once, before the time fields, and at least one of them
/// must follow it.
pub open spec fn spec_duration(s: Seq<char>, allow: Seq<char>) -> Option<(int, int)> {
    let negative = s.len() > 0 && s[0] == '-';
    let p = if negative { 1int } else { 0int };
    if !(p < s.len() && s[p] == 'P') {
        None
    } else {
        duration_total(spec_duration_fields(s, p + 1, allow, (0, 0, 0, false, 0)), negative)
    }
}

/// Totals that have already grown past what fits make the whole literal
/// refused, whatever the fields after them add.
proof fn lemma_total_too_large(
    whole: Option<(int, int, int, bool, int)>,
    negative: bool,
    st: (int, int, int, bool, int),
)
    requires
        whole matches Some(r) ==> r.0 >= st.0 && r.1 >= st.1 && r.2 >= st.2,
        st.2 > 0,
        st.0 > 9223372036854775808int || st.1 > i128_max(),
    ensures
        duration_total(whole, negative) is None,
{
}

/// Whether `c` is one of the characters of `allow`.
fn allows(allow: &Vec<char>, c: char) -> (r: bool)
    ensures
        r == allow@.contains(c),
{
    let mut i: usize = 0;
    while i < allow.len()
        invariant
            i <= allow.len(),
            forall|j: int| 0 <= j < i ==> allow@[j] != c,
        decreases allow.len() - i,
    {
        if allow[i] == c {
            assert(allow@[i as int] == c);
            return true;
        }
        i += 1;
    }
    false
}

/// The two independent halves of a duration: whole months, and seconds
/// scaled by 10^18. No fixed number of seconds is a month, which is why two
/// durations are only partially ordered.
#[derive(Clone, Copy, Debug, PartialEq, Eq, Structural)]
struct DurationParts {
    months: i64,
    seconds: i128,
}

/// Reads `PnYnMnDTnHnMnS` with the designators `allow` admits.
fn take_duration(s: &str, allow: &str) -> (r: Result<DurationParts, String>)
    ensures
        match r {
            Ok(d) => spec_duration(s@, allow@) == Some((d.months as int, d.seconds as int))
                && d.seconds > i128::MIN,
            Err(_) => spec_duration(s@, allow@) is None,
        },
{
    let c = str_chars(s);
    let allow_chars = str_chars(allow);
    let n = c.len();
    let negative = n > 0 && c[0] == '-';
    let start: usize = if negative { 1 } else { 0 };
    if !(start < n && c[start] == 'P') {
        return Err(message("a duration starts with `P`"));
    }
    let too_large = "the duration is too large";
    let ghost init = (0int, 0int, 0int, false, 0int);
    let ghost whole = spec_duration_fields(c@, start + 1, allow@, init);
    assert(spec_duration(s@, allow@) == duration_total(whole, negative));
    let mut p: usize = start + 1;
    let mut months: i128 = 0;
    let mut seconds: i128 = 0;
    let mut seen: usize = 0;
    let mut in_time = false;
    let mut next: usize = 0;
    while p < n
        invariant
            start + 1 <= p <= n,
            n == c@.len(),
            c@ == s@,
            allow_chars@ == allow@,
            spec_duration(s@, allow@) == duration_total(whole, negative),
            spec_duration_fields(c@, p as int, allow@, (months as int, seconds as int, seen as int, in_time, next as int))
                == whole,
            0 <= months,
            0 <= seconds,
            seen <= p,
            next <= 7,
        decreases n - p,
    {
        let ghost st = (months as int, seconds as int, seen as int, in_time, next as int);
        if c[p] == 'T' {
            if in_time || next > 3 || p + 1 >= n {
                assert(spec_duration_fields(c@, p as int, allow@, st) is None);
                return Err(message("`T` must come once, before the time fields"));
            }
            in_time = true;
            next = 4;
            p = p + 1;
            continue;
        }
        let digits = digits_from(&c, p);
        proof {
            lemma_count_digits(c@, p as int);
        }
        if digits == 0 {
            assert(spec_duration_fields(c@, p as int, allow@, st) is None);
            return Err(message("expected a number in the duration"));
        }
        let q = p + digits;
        let has_frac = q < n && c[q] == '.';
        let mut fend = q;
        if has_frac {
            let m = digits_from(&c, q + 1);
            proof {
                lemma_count_digits(c@, q + 1);
            }
            if m == 0 {
                assert(spec_duration_fields(c@, p as int, allow@, st) is None);
                return Err(message("the fractional seconds need at least one digit"));
            }
            fend = q + 1 + m;
        }
        if fend >= n {
            assert(spec_duration_fields(c@, p as int, allow@, st) is None);
            return Err(message("`` is not a duration field here"));
        }
        let d = c[fend];
        let at = match designator_index(d, next) {
            Some(at) => at,
            None => {
                assert(spec_duration_fields(c@, p as int, allow@, st) is None);
                return Err(message("that is not a duration field here"));
            },
        };
        if (at > 3) != in_time {
            assert(spec_duration_fields(c@, p as int, allow@, st) is None);
            return Err(message("that is not a duration field here"));
        }
        if !allows(&allow_chars, d) || (has_frac && d != 'S') {
            assert(spec_duration_fields(c@, p as int, allow@, st) is None);
            return Err(message("that designator is not allowed in this duration"));
        }
        let ghost number = digits_value(c@.subrange(p as int, q as int)) as int;
        let ghost frac = if has_frac { frac18(c@.subrange(q + 1, fend as int)) } else { 0 };
        let ghost months2 = if at <= 1 { months + number * field_unit(at as int) } else { months as int };
        let ghost seconds2 = if at <= 1 { seconds as int } else { seconds + number * field_unit(at as int) + frac };
        let ghost st2 = (months2, seconds2, seen + 1, in_time, at + 1);
        assert(spec_duration_fields(c@, p as int, allow@, st) == spec_duration_fields(c@, fend + 1, allow@, st2));
        proof {
            lemma_duration_fields_grow(c@, fend + 1, allow@, st2);
            assert(number * field_unit(at as int) >= number) by (nonlinear_arith)
                requires
                    number >= 0,
                    field_unit(at as int) >= 1;
            if has_frac {
                assert(frac >= 0) by (nonlinear_arith)
                    requires
                        frac == frac18(c@.subrange(q + 1, fend as int));
            }
        }
        let value = match read_bounded(&c, p, q, 170141183460469231731687303715884105727) {
            Some(v) => v as i128,
            None => {
                proof {
                    lemma_total_too_large(whole, negative, st2);
                }
                return Err(message("the duration field is too large"));
            },
        };
        let unit: i128 = match at {
            0 => 12,
            1 => 1,
            2 => 86_400_000_000_000_000_000_000,
            4 => 3_600_000_000_000_000_000_000,
            5 => 60_000_000_000_000_000_000,
            _ => 1_000_000_000_000_000_000,
        };
        assert(unit == field_unit(at as int));
        let scaled = match value.checked_mul(unit) {
            Some(v) => v,
            None => {
                proof {
                    lemma_total_too_large(whole, negative, st2);
                }
                return Err(message(too_large));
            },
        };
        if at <= 1 {
            if months > i128::MAX - scaled {
                proof {
                    lemma_total_too_large(whole, negative, st2);
                }
                return Err(message(too_large));
            }
            months = months + scaled;
        } else {
            if seconds > i128::MAX - scaled {
                proof {
                    lemma_total_too_large(whole, negative, st2);
                }
                return Err(message(too_large));
            }
            seconds = seconds + scaled;
            if has_frac {
                let f = read_frac18(&c, q + 1, fend);
                if seconds > i128::MAX - f {
                    proof {
                        lemma_total_too_large(whole, negative, st2);
                    }
                    return Err(message(too_large));
                }
                seconds = seconds + f;
            }
        }
        seen = seen + 1;
        next = at + 1;
        p = fend + 1;
    }
    assert(whole == Some((months as int, seconds as int, seen as int, in_time, next as int)));
    if seen == 0 {
        return Err(message("a duration needs at least one field"));
    }
    if in_time && next <= 4 {
        return Err(message("`T` must be followed by a time field"));
    }
    let limit: i128 = if negative { 9223372036854775808 } else { 9223372036854775807 };
    if months > limit {
        return Err(message(too_large));
    }
    let m: i64 = if negative {
        if months == 9223372036854775808 {
            i64::MIN
        } else {
            -(months as i64)
        }
    } else {
        months as i64
    };
    Ok(DurationParts { months: m, seconds: if negative { -seconds } else { seconds } })
}

/// `a / b` rounded toward zero, as integer division does.
pub open spec fn tdiv(a: int, b: int) -> int {
    if a >= 0 {
        a / b
    } else {
        -((-a) / b)
    }
}

/// What is left of `a` after `tdiv(a, b)` whole `b`s: the sign of `a`.
pub open spec fn trem(a: int, b: int) -> int {
    a - b * tdiv(a, b)
}

/// `a / b` rounded toward zero, for a positive `b`.
fn div_toward_zero(a: i128, b: i128) -> (r: i128)
    requires
        a > i128::MIN,
        b > 0,
    ensures
        r == tdiv(a as int, b as int),
        a >= 0 ==> 0 <= r && r * b <= a,
        a < 0 ==> r <= 0 && r * b >= a,
        -b < a - r * b < b,
{
    if a >= 0 {
        let r = a / b;
        assert(0 <= a - r * b < b && r >= 0) by (nonlinear_arith)
            requires
                r == a / b,
                a >= 0,
                b > 0,
        ;
        r
    } else {
        let r = (-a) / b;
        assert(0 <= (-a) - r * b < b && r >= 0) by (nonlinear_arith)
            requires
                r == (-a) / (b as int),
                -a > 0,
                b > 0,
        ;
        assert((-r) * b == -(r * b)) by (nonlinear_arith);
        -r
    }
}

/// The field of a duration's canonical form: the number and its designator,
/// or nothing when the number is zero.
pub open spec fn field_chars(n: nat, designator: char) -> Seq<char> {
    if n > 0 {
        decimal_chars(n).push(designator)
    } else {
        Seq::empty()
    }
}

/// The seconds field of a duration: no leading zero, and a fraction only
/// when there is one.
pub open spec fn seconds_field_chars(scaled: nat) -> Seq<char> {
    decimal_chars(scaled / (spec_scale() as nat)) + fraction_suffix(scaled % (spec_scale() as nat)).push(
        'S',
    )
}

/// The canonical form of a duration of `months` and `seconds` (scaled by
/// 10^18): every field that is zero left out, the time part only when
/// something is in it, and `PT0S` for the zero duration.
pub open spec fn duration_chars(months: int, seconds: int) -> Seq<char> {
    if months == 0 && seconds == 0 {
        seq!['P', 'T', '0', 'S']
    } else {
        let sc = spec_scale() as nat;
        let am = abs(months);
        let total = abs(seconds);
        let whole = total / sc;
        let rest = whole % 86_400;
        let date = (if months < 0 || seconds < 0 { seq!['-'] } else { Seq::empty() }).push('P')
            + field_chars(am / 12, 'Y') + field_chars(am % 12, 'M') + field_chars(whole / 86_400, 'D');
        if rest == 0 && total % sc == 0 {
            date
        } else {
            date + duration_time_chars(rest, total)
        }
    }
}

/// Appends a duration field, or nothing when `n` is zero.
fn push_field(out: &mut Vec<char>, n: u128, designator: char)
    ensures
        final(out)@ == old(out)@ + field_chars(n as nat, designator),
{
    if n > 0 {
        push_decimal(out, n);
        out.push(designator);
        assert(final(out)@ =~= old(out)@ + field_chars(n as nat, designator));
    } else {
        assert(old(out)@ + field_chars(n as nat, designator) =~= old(out)@);
    }
}

/// The time part of a duration's canonical form, from the whole seconds
/// within a day `rest` and the scaled seconds `total`.
pub open spec fn duration_time_chars(rest: nat, total: nat) -> Seq<char> {
    let sc = spec_scale() as nat;
    seq!['T'] + field_chars(rest / 3_600, 'H') + field_chars(rest % 3_600 / 60, 'M') + (
    if rest % 60 != 0 || total % sc != 0 {
        seconds_field_chars(((rest % 60) * sc + total % sc) as nat)
    } else {
        Seq::empty()
    })
}

/// Appends the time part of a duration.
fn write_duration_time(out: &mut Vec<char>, rest: u128, total: u128)
    requires
        rest < 86_400,
    ensures
        final(out)@ == old(out)@ + duration_time_chars(rest as nat, total as nat),
{
    let scale: u128 = 1_000_000_000_000_000_000;
    out.push('T');
    push_field(out, rest / 3_600, 'H');
    push_field(out, rest % 3_600 / 60, 'M');
    let ghost timed = out@;
    if rest % 60 != 0 || total % scale != 0 {
        let scaled = (rest % 60) * scale + total % scale;
        push_decimal(out, scaled / scale);
        push_fraction(out, scaled % scale);
        out.push('S');
        assert(out@ =~= timed + seconds_field_chars(scaled as nat));
    }
    assert(final(out)@ =~= old(out)@ + duration_time_chars(rest as nat, total as nat));
}

/// Appends the canonical form of a duration.
#[verifier::rlimit(60)]
#[verifier::spinoff_prover]
fn write_duration(out: &mut Vec<char>, p: DurationParts)
    requires
        p.seconds > i128::MIN,
    ensures
        final(out)@ == old(out)@ + duration_chars(p.months as int, p.seconds as int),
{
    let ghost base = old(out)@;
    if p.months == 0 && p.seconds == 0 {
        out.push('P');
        out.push('T');
        out.push('0');
        out.push('S');
        assert(final(out)@ =~= base + duration_chars(0, 0));
        return;
    }
    if p.months < 0 || p.seconds < 0 {
        out.push('-');
    }
    out.push('P');
    let am = magnitude(p.months as i128);
    push_field(out, am / 12, 'Y');
    push_field(out, am % 12, 'M');
    let scale: u128 = 1_000_000_000_000_000_000;
    let total = magnitude(p.seconds);
    let whole = total / scale;
    push_field(out, whole / 86_400, 'D');
    let rest = whole % 86_400;
    let ghost date = out@;
    assert(date =~= base + (if p.months < 0 || p.seconds < 0 { seq!['-'] } else { Seq::empty() }).push(
        'P',
    ) + field_chars(am as nat / 12, 'Y') + field_chars(am as nat % 12, 'M') + field_chars(
        whole as nat / 86_400,
        'D',
    ));
    if rest == 0 && total % scale == 0 {
        assert(final(out)@ =~= base + duration_chars(p.months as int, p.seconds as int));
        return;
    }
    write_duration_time(out, rest, total);
    assert(final(out)@ =~= base + duration_chars(p.months as int, p.seconds as int));
}

/// The duration type a set of designators belongs to: `xs:duration` admits
/// all of them, `xs:yearMonthDuration` only `Y` and `M`, and
/// `xs:dayTimeDuration` only `D`, `T`, `H`, `M` and `S`.
pub open spec fn duration_designators(kind: int) -> Seq<char> {
    if kind == 0 {
        seq!['Y', 'M', 'D', 'T', 'H', 'S']
    } else if kind == 1 {
        seq!['Y', 'M']
    } else {
        seq!['D', 'T', 'H', 'M', 'S']
    }
}

/// `xs:duration` — months and seconds, which is why two of them are not
/// always ordered. `P1M` against `P30D` has no answer until you say which
/// month.
#[derive(Clone, Copy, Debug, PartialEq, Eq, Structural)]
pub struct Duration(DurationParts);

/// `xs:yearMonthDuration`, the months-only half of a duration.
#[derive(Clone, Copy, Debug, PartialEq, Eq, Structural)]
pub struct YearMonthDuration(DurationParts);

/// `xs:dayTimeDuration`, the seconds-only half of a duration.
#[derive(Clone, Copy, Debug, PartialEq, Eq, Structural)]
pub struct DayTimeDuration(DurationParts);

impl View for Duration {
    /// Whole months, and seconds scaled by 10^18; both carry the sign.
    type V = (int, int);

    closed spec fn view(&self) -> (int, int) {
        (self.0.months as int, self.0.seconds as int)
    }
}

impl Duration {
    /// The seconds are the negation of a count that fits.
    #[verifier::type_invariant]
    closed spec fn wf(self) -> bool {
        self.0.seconds > i128::MIN
    }

    /// Whole years, the largest unit the months split into.
    pub fn years(self) -> (r: i64)
        ensures
            r == tdiv(self@.0, 12),
    {
        div_toward_zero(self.0.months as i128, 12) as i64
    }

    /// Months beyond the whole years, so always below twelve.
    pub fn months(self) -> (r: i64)
        ensures
            r == trem(self@.0, 12),
    {
        let y = div_toward_zero(self.0.months as i128, 12);
        (self.0.months as i128 - y * 12) as i64
    }

    pub fn days(self) -> (r: i64)
        ensures
            r == tdiv(tdiv(self@.1, spec_scale()), 86_400),
    {
        proof {
            use_type_invariant(&self);
        }
        let whole = div_toward_zero(self.0.seconds, 1_000_000_000_000_000_000);
        div_toward_zero(whole, 86_400) as i64
    }

    pub fn hours(self) -> (r: i64)
        ensures
            r == tdiv(trem(tdiv(self@.1, spec_scale()), 86_400), 3_600),
    {
        proof {
            use_type_invariant(&self);
        }
        let whole = div_toward_zero(self.0.seconds, 1_000_000_000_000_000_000);
        let d = div_toward_zero(whole, 86_400);
        div_toward_zero(whole - d * 86_400, 3_600) as i64
    }

    pub fn minutes(self) -> (r: i64)
        ensures
            r == tdiv(trem(tdiv(self@.1, spec_scale()), 3_600), 60),
    {
        proof {
            use_type_invariant(&self);
        }
        let whole = div_toward_zero(self.0.seconds, 1_000_000_000_000_000_000);
        let h = div_toward_zero(whole, 3_600);
        div_toward_zero(whole - h * 3_600, 60) as i64
    }

    /// Seconds beyond the whole minutes, with the fraction XSD allows.
    pub fn seconds(self) -> (r: Decimal)
        ensures
            r@ == trem(self@.1, 60 * spec_scale()),
    {
        proof {
            use_type_invariant(&self);
        }
        let unit: i128 = 60_000_000_000_000_000_000;
        assert(unit == 60 * spec_scale());
        let m = div_toward_zero(self.0.seconds, unit);
        let r = Decimal::from_scaled(self.0.seconds - m * unit);
        assert(r@ == self@.1 - unit * tdiv(self@.1, unit as int));
        r
    }

    /// Whole months, for comparison.
    pub fn total_months(self) -> (r: i64)
        ensures
            r == self@.0,
    {
        self.0.months
    }

    /// Seconds scaled by 10^18, for comparison.
    pub fn total_seconds(self) -> (r: i128)
        ensures
            r == self@.1,
    {
        self.0.seconds
    }

    /// Reads a duration literal whose designators this type admits.
    pub fn parse_lexical(s: &str) -> (r: Result<Self, String>)
        ensures
            match r {
                Ok(d) => spec_duration(s@, duration_designators(0)) == Some(d@),
                Err(_) => spec_duration(s@, duration_designators(0)) is None,
            },
    {
        let allow = "YMDTHS";
        proof {
            reveal_strlit("YMDTHS");
        }
        assert(allow@ == duration_designators(0));
        match take_duration(s, allow) {
            Ok(p) => Ok(Duration(p)),
            Err(e) => Err(e),
        }
    }

    /// The canonical form: every field that is zero left out.
    pub fn to_string(self) -> (r: String)
        ensures
            r@ == duration_chars(self@.0, self@.1),
    {
        proof {
            use_type_invariant(&self);
        }
        let mut out: Vec<char> = Vec::new();
        write_duration(&mut out, self.0);
        assert(out@ =~= duration_chars(self@.0, self@.1));
        string_from_chars(&out)
    }
}

impl View for YearMonthDuration {
    /// Whole months, and seconds scaled by 10^18; both carry the sign.
    type V = (int, int);

    closed spec fn view(&self) -> (int, int) {
        (self.0.months as int, self.0.seconds as int)
    }
}

impl YearMonthDuration {
    /// The seconds are the negation of a count that fits.
    #[verifier::type_invariant]
    closed spec fn wf(self) -> bool {
        self.0.seconds > i128::MIN
    }

    /// Whole years, the largest unit the months split into.
    pub fn years(self) -> (r: i64)
        ensures
            r == tdiv(self@.0, 12),
    {
        div_toward_zero(self.0.months as i128, 12) as i64
    }

    /// Months beyond the whole years, so always below twelve.
    pub fn months(self) -> (r: i64)
        ensures
            r == trem(self@.0, 12),
    {
        let y = div_toward_zero(self.0.months as i128, 12);
        (self.0.months as i128 - y * 12) as i64
    }

    pub fn days(self) -> (r: i64)
        ensures
            r == tdiv(tdiv(self@.1, spec_scale()), 86_400),
    {
        proof {
            use_type_invariant(&self);
        }
        let whole = div_toward_zero(self.0.seconds, 1_000_000_000_000_000_000);
        div_toward_zero(whole, 86_400) as i64
    }

    pub fn hours(self) -> (r: i64)
        ensures
            r == tdiv(trem(tdiv(self@.1, spec_scale()), 86_400), 3_600),
    {
        proof {
            use_type_invariant(&self);
        }
        let whole = div_toward_zero(self.0.seconds, 1_000_000_000_000_000_000);
        let d = div_toward_zero(whole, 86_400);
        div_toward_zero(whole - d * 86_400, 3_600) as i64
    }

    pub fn minutes(self) -> (r: i64)
        ensures
            r == tdiv(trem(tdiv(self@.1, spec_scale()), 3_600), 60),
    {
        proof {
            use_type_invariant(&self);
        }
        let whole = div_toward_zero(self.0.seconds, 1_000_000_000_000_000_000);
        let h = div_toward_zero(whole, 3_600);
        div_toward_zero(whole - h * 3_600, 60) as i64
    }

    /// Seconds beyond the whole minutes, with the fraction XSD allows.
    pub fn seconds(self) -> (r: Decimal)
        ensures
            r@ == trem(self@.1, 60 * spec_scale()),
    {
        proof {
            use_type_invariant(&self);
        }
        let unit: i128 = 60_000_000_000_000_000_000;
        assert(unit == 60 * spec_scale());
        let m = div_toward_zero(self.0.seconds, unit);
        let r = Decimal::from_scaled(self.0.seconds - m * unit);
        assert(r@ == self@.1 - unit * tdiv(self@.1, unit as int));
        r
    }

    /// Whole months, for comparison.
    pub fn total_months(self) -> (r: i64)
        ensures
            r == self@.0,
    {
        self.0.months
    }

    /// Seconds scaled by 10^18, for comparison.
    pub fn total_seconds(self) -> (r: i128)
        ensures
            r == self@.1,
    {
        self.0.seconds
    }

    /// Reads a duration literal whose designators this type admits.
    pub fn parse_lexical(s: &str) -> (r: Result<Self, String>)
        ensures
            match r {
                Ok(d) => spec_duration(s@, duration_designators(1)) == Some(d@),
                Err(_) => spec_duration(s@, duration_designators(1)) is None,
            },
    {
        let allow = "YM";
        proof {
            reveal_strlit("YM");
        }
        assert(allow@ == duration_designators(1));
        match take_duration(s, allow) {
            Ok(p) => Ok(YearMonthDuration(p)),
            Err(e) => Err(e),
        }
    }

    /// The canonical form: every field that is zero left out.
    pub fn to_string(self) -> (r: String)
        ensures
            r@ == duration_chars(self@.0, self@.1),
    {
        proof {
            use_type_invariant(&self);
        }
        let mut out: Vec<char> = Vec::new();
        write_duration(&mut out, self.0);
        assert(out@ =~= duration_chars(self@.0, self@.1));
        string_from_chars(&out)
    }
}

impl View for DayTimeDuration {
    /// Whole months, and seconds scaled by 10^18; both carry the sign.
    type V = (int, int);

    closed spec fn view(&self) -> (int, int) {
        (self.0.months as int, self.0.seconds as int)
    }
}

impl DayTimeDuration {
    /// The seconds are the negation of a count that fits.
    #[verifier::type_invariant]
    closed spec fn wf(self) -> bool {
        self.0.seconds > i128::MIN
    }

    /// Whole years, the largest unit the months split into.
    pub fn years(self) -> (r: i64)
        ensures
            r == tdiv(self@.0, 12),
    {
        div_toward_zero(self.0.months as i128, 12) as i64
    }

    /// Months beyond the whole years, so always below twelve.
    pub fn months(self) -> (r: i64)
        ensures
            r == trem(self@.0, 12),
    {
        let y = div_toward_zero(self.0.months as i128, 12);
        (self.0.months as i128 - y * 12) as i64
    }

    pub fn days(self) -> (r: i64)
        ensures
            r == tdiv(tdiv(self@.1, spec_scale()), 86_400),
    {
        proof {
            use_type_invariant(&self);
        }
        let whole = div_toward_zero(self.0.seconds, 1_000_000_000_000_000_000);
        div_toward_zero(whole, 86_400) as i64
    }

    pub fn hours(self) -> (r: i64)
        ensures
            r == tdiv(trem(tdiv(self@.1, spec_scale()), 86_400), 3_600),
    {
        proof {
            use_type_invariant(&self);
        }
        let whole = div_toward_zero(self.0.seconds, 1_000_000_000_000_000_000);
        let d = div_toward_zero(whole, 86_400);
        div_toward_zero(whole - d * 86_400, 3_600) as i64
    }

    pub fn minutes(self) -> (r: i64)
        ensures
            r == tdiv(trem(tdiv(self@.1, spec_scale()), 3_600), 60),
    {
        proof {
            use_type_invariant(&self);
        }
        let whole = div_toward_zero(self.0.seconds, 1_000_000_000_000_000_000);
        let h = div_toward_zero(whole, 3_600);
        div_toward_zero(whole - h * 3_600, 60) as i64
    }

    /// Seconds beyond the whole minutes, with the fraction XSD allows.
    pub fn seconds(self) -> (r: Decimal)
        ensures
            r@ == trem(self@.1, 60 * spec_scale()),
    {
        proof {
            use_type_invariant(&self);
        }
        let unit: i128 = 60_000_000_000_000_000_000;
        assert(unit == 60 * spec_scale());
        let m = div_toward_zero(self.0.seconds, unit);
        let r = Decimal::from_scaled(self.0.seconds - m * unit);
        assert(r@ == self@.1 - unit * tdiv(self@.1, unit as int));
        r
    }

    /// Whole months, for comparison.
    pub fn total_months(self) -> (r: i64)
        ensures
            r == self@.0,
    {
        self.0.months
    }

    /// Seconds scaled by 10^18, for comparison.
    pub fn total_seconds(self) -> (r: i128)
        ensures
            r == self@.1,
    {
        self.0.seconds
    }

    /// Reads a duration literal whose designators this type admits.
    pub fn parse_lexical(s: &str) -> (r: Result<Self, String>)
        ensures
            match r {
                Ok(d) => spec_duration(s@, duration_designators(2)) == Some(d@),
                Err(_) => spec_duration(s@, duration_designators(2)) is None,
            },
    {
        let allow = "DTHMS";
        proof {
            reveal_strlit("DTHMS");
        }
        assert(allow@ == duration_designators(2));
        match take_duration(s, allow) {
            Ok(p) => Ok(DayTimeDuration(p)),
            Err(e) => Err(e),
        }
    }

    /// The canonical form: every field that is zero left out.
    pub fn to_string(self) -> (r: String)
        ensures
            r@ == duration_chars(self@.0, self@.1),
    {
        proof {
            use_type_invariant(&self);
        }
        let mut out: Vec<char> = Vec::new();
        write_duration(&mut out, self.0);
        assert(out@ =~= duration_chars(self@.0, self@.1));
        string_from_chars(&out)
    }
}

/// Each half of a duration is totally ordered on its own; only
/// `xs:duration`, which carries the two at once, is not.
impl PartialOrd for YearMonthDuration {
    fn partial_cmp(&self, other: &Self) -> (r: Option<Ordering>) {
        if self.0.months < other.0.months {
            Some(Ordering::Less)
        } else if self.0.months > other.0.months {
            Some(Ordering::Greater)
        } else {
            Some(Ordering::Equal)
        }
    }
}

impl vstd::std_specs::cmp::PartialOrdSpecImpl for YearMonthDuration {
    open spec fn obeys_partial_cmp_spec() -> bool {
        true
    }

    open spec fn partial_cmp_spec(&self, other: &YearMonthDuration) -> Option<Ordering> {
        Some(int_order(self@.0, other@.0))
    }
}

/// Each half of a duration is totally ordered on its own; only
/// `xs:duration`, which carries the two at once, is not.
impl PartialOrd for DayTimeDuration {
    fn partial_cmp(&self, other: &Self) -> (r: Option<Ordering>) {
        if self.0.seconds < other.0.seconds {
            Some(Ordering::Less)
        } else if self.0.seconds > other.0.seconds {
            Some(Ordering::Greater)
        } else {
            Some(Ordering::Equal)
        }
    }
}

impl vstd::std_specs::cmp::PartialOrdSpecImpl for DayTimeDuration {
    open spec fn obeys_partial_cmp_spec() -> bool {
        true
    }

    open spec fn partial_cmp_spec(&self, other: &DayTimeDuration) -> Option<Ordering> {
        Some(int_order(self@.1, other@.1))
    }
}

// ---------------------------------------------------------------------------
// The other Gregorian fragments
// ---------------------------------------------------------------------------

/// The year and offset a gYear literal denotes.
pub open spec fn spec_gyear(s: Seq<char>) -> Option<(int, Option<int>)> {
    match spec_take_year(s, 0) {
        None => None,
        Some((year, q)) => match spec_offset(s, q) {
            None => None,
            Some(o) => Some((year, o)),
        },
    }
}

/// `xs:gYear`.
#[derive(Clone, Copy, Debug)]
pub struct GYear {
    year: i64,
    offset: Option<i16>,
}

impl View for GYear {
    type V = (int, Option<int>);

    closed spec fn view(&self) -> (int, Option<int>) {
        (self.year as int, opt_int(self.offset))
    }
}

/// The instant a gYear starts at: its first minute, in UTC.
pub open spec fn gyear_minutes(v: (int, Option<int>)) -> int {
    spec_utc_minutes(v.0, 1, 1, 0, v.1)
}

impl GYear {
    /// The offset is within fourteen hours.
    #[verifier::type_invariant]
    pub closed spec fn wf(self) -> bool {
        self.offset matches Some(m) ==> -840 <= m <= 840
    }

    pub fn year(self) -> (r: i64)
        ensures
            r == self@.0,
    {
        self.year
    }

    /// The offset from UTC, if the value carries one.
    pub fn timezone_offset(self) -> (r: Option<TimezoneOffset>)
        ensures
            opt_tz(r) == self@.1,
    {
        proof {
            use_type_invariant(&self);
        }
        match self.offset {
            Some(m) => Some(TimezoneOffset(m)),
            None => None,
        }
    }

    /// Reads a `YYYY` literal, with an optional timezone.
    pub fn parse_lexical(s: &str) -> (r: Result<Self, String>)
        ensures
            match r {
                Ok(v) => spec_gyear(s@) == Some(v@),
                Err(_) => spec_gyear(s@) is None,
            },
    {
        let c = str_chars(s);
        let (year, rest) = take_year(&c, 0)?;
        let offset = parse_offset(&c, rest)?;
        Ok(GYear { year, offset })
    }

    /// The canonical form: the year, then the timezone if there is one.
    pub fn to_string(self) -> (r: String)
        ensures
            r@ == year_chars(self@.0) + offset_chars(self@.1),
    {
        proof {
            use_type_invariant(&self);
        }
        let mut out: Vec<char> = Vec::new();
        write_year(&mut out, self.year);
        write_offset(&mut out, self.offset);
        string_from_chars(&out)
    }

    fn instant(&self) -> (r: i128)
        ensures
            r == gyear_minutes(self@),
            -6_000_000_000_000_000_000_000_000 <= r <= 6_000_000_000_000_000_000_000_000,
    {
        proof {
            use_type_invariant(self);
        }
        utc_minutes(self.year, 1, 1, 0, self.offset)
    }
}

impl PartialEq for GYear {
    fn eq(&self, other: &Self) -> (r: bool) {
        match self.partial_cmp(other) {
            Some(Ordering::Equal) => true,
            _ => false,
        }
    }
}

impl vstd::std_specs::cmp::PartialEqSpecImpl for GYear {
    open spec fn obeys_eq_spec() -> bool {
        true
    }

    open spec fn eq_spec(&self, other: &GYear) -> bool {
        zoned_order(gyear_minutes(self@), self@.1 is Some, gyear_minutes(other@), other@.1 is Some)
            == Some(Ordering::Equal)
    }
}

impl PartialOrd for GYear {
    fn partial_cmp(&self, other: &Self) -> (r: Option<Ordering>) {
        zoned_order_exec(self.instant(), self.offset.is_some(), other.instant(), other.offset.is_some())
    }
}

impl vstd::std_specs::cmp::PartialOrdSpecImpl for GYear {
    open spec fn obeys_partial_cmp_spec() -> bool {
        true
    }

    open spec fn partial_cmp_spec(&self, other: &GYear) -> Option<Ordering> {
        zoned_order(gyear_minutes(self@), self@.1 is Some, gyear_minutes(other@), other@.1 is Some)
    }
}

/// The year, month and offset a gYearMonth literal denotes.
pub open spec fn spec_gyearmonth(s: Seq<char>) -> Option<(int, int, Option<int>)> {
    match spec_take_year(s, 0) {
        None => None,
        Some((year, q)) => match spec_take(s, q, '-') {
            None => None,
            Some(q1) => match spec_take_two(s, q1) {
                None => None,
                Some((month, q2)) => if month < 1 || month > 12 {
                    None
                } else {
                    match spec_offset(s, q2) {
                        None => None,
                        Some(o) => Some((year, month, o)),
                    }
                },
            },
        },
    }
}

/// `xs:gYearMonth`, a month of a particular year.
#[derive(Clone, Copy, Debug)]
pub struct GYearMonth {
    year: i64,
    month: u8,
    offset: Option<i16>,
}

impl View for GYearMonth {
    type V = (int, int, Option<int>);

    closed spec fn view(&self) -> (int, int, Option<int>) {
        (self.year as int, self.month as int, opt_int(self.offset))
    }
}

/// The instant a gYearMonth starts at: the first minute of its month, in UTC.
pub open spec fn gyearmonth_minutes(v: (int, int, Option<int>)) -> int {
    spec_utc_minutes(v.0, v.1, 1, 0, v.2)
}

impl GYearMonth {
    /// The month is a month, and the offset is within fourteen hours.
    #[verifier::type_invariant]
    pub closed spec fn wf(self) -> bool {
        &&& 1 <= self.month <= 12
        &&& self.offset matches Some(m) ==> -840 <= m <= 840
    }

    pub fn year(self) -> (r: i64)
        ensures
            r == self@.0,
    {
        self.year
    }

    pub fn month(self) -> (r: u8)
        ensures
            r == self@.1,
    {
        self.month
    }

    /// The offset from UTC, if the value carries one.
    pub fn timezone_offset(self) -> (r: Option<TimezoneOffset>)
        ensures
            opt_tz(r) == self@.2,
    {
        proof {
            use_type_invariant(&self);
        }
        match self.offset {
            Some(m) => Some(TimezoneOffset(m)),
            None => None,
        }
    }

    /// Reads a `YYYY-MM` literal, with an optional timezone.
    pub fn parse_lexical(s: &str) -> (r: Result<Self, String>)
        ensures
            match r {
                Ok(v) => spec_gyearmonth(s@) == Some(v@),
                Err(_) => spec_gyearmonth(s@) is None,
            },
    {
        let c = str_chars(s);
        let (year, rest) = take_year(&c, 0)?;
        let rest = take(&c, rest, '-', "between the year and the month")?;
        let (month, rest) = take_two(&c, rest, "the month")?;
        if month < 1 || month > 12 {
            return Err(message_with(month as u128, " is not a month"));
        }
        let offset = parse_offset(&c, rest)?;
        Ok(GYearMonth { year, month, offset })
    }

    /// The canonical form: the year, `-MM`, then the timezone if there is one.
    pub fn to_string(self) -> (r: String)
        ensures
            r@ == year_chars(self@.0) + seq!['-'] + fixed_digits(self@.1 as nat, 2) + offset_chars(
                self@.2,
            ),
    {
        proof {
            use_type_invariant(&self);
        }
        let mut out: Vec<char> = Vec::new();
        write_year(&mut out, self.year);
        out.push('-');
        push_fixed(&mut out, self.month as u128, 2);
        write_offset(&mut out, self.offset);
        assert(out@ =~= year_chars(self@.0) + seq!['-'] + fixed_digits(self@.1 as nat, 2)
            + offset_chars(self@.2));
        string_from_chars(&out)
    }

    fn instant(&self) -> (r: i128)
        ensures
            r == gyearmonth_minutes(self@),
            -6_000_000_000_000_000_000_000_000 <= r <= 6_000_000_000_000_000_000_000_000,
    {
        proof {
            use_type_invariant(self);
        }
        utc_minutes(self.year, self.month, 1, 0, self.offset)
    }
}

impl PartialEq for GYearMonth {
    fn eq(&self, other: &Self) -> (r: bool) {
        match self.partial_cmp(other) {
            Some(Ordering::Equal) => true,
            _ => false,
        }
    }
}

impl vstd::std_specs::cmp::PartialEqSpecImpl for GYearMonth {
    open spec fn obeys_eq_spec() -> bool {
        true
    }

    open spec fn eq_spec(&self, other: &GYearMonth) -> bool {
        zoned_order(gyearmonth_minutes(self@), self@.2 is Some, gyearmonth_minutes(other@), other@.2 is Some)
            == Some(Ordering::Equal)
    }
}

impl PartialOrd for GYearMonth {
    fn partial_cmp(&self, other: &Self) -> (r: Option<Ordering>) {
        zoned_order_exec(self.instant(), self.offset.is_some(), other.instant(), other.offset.is_some())
    }
}

impl vstd::std_specs::cmp::PartialOrdSpecImpl for GYearMonth {
    open spec fn obeys_partial_cmp_spec() -> bool {
        true
    }

    open spec fn partial_cmp_spec(&self, other: &GYearMonth) -> Option<Ordering> {
        zoned_order(gyearmonth_minutes(self@), self@.2 is Some, gyearmonth_minutes(other@), other@.2 is Some)
    }
}

/// Whether `s` begins with `n` hyphens.
pub open spec fn hyphens(s: Seq<char>, n: int) -> bool {
    s.len() >= n && forall|i: int| 0 <= i < n ==> s[i] == '-'
}

fn starts_with_hyphens(c: &Vec<char>, n: usize) -> (r: bool)
    ensures
        r == hyphens(c@, n as int),
{
    if c.len() < n {
        return false;
    }
    let mut i: usize = 0;
    while i < n
        invariant
            i <= n <= c.len(),
            forall|j: int| 0 <= j < i ==> c@[j] == '-',
        decreases n - i,
    {
        if c[i] != '-' {
            return false;
        }
        i = i + 1;
    }
    true
}

/// The month and offset a gMonth literal denotes.
pub open spec fn spec_gmonth(s: Seq<char>) -> Option<(int, Option<int>)> {
    if !hyphens(s, 2) {
        None
    } else {
        match spec_take_two(s, 2) {
            None => None,
            Some((month, q)) => if month < 1 || month > 12 {
                None
            } else {
                match spec_offset(s, q) {
                    None => None,
                    Some(o) => Some((month, o)),
                }
            },
        }
    }
}

/// `xs:gMonth`, a month recurring every year.
#[derive(Clone, Copy, Debug)]
pub struct GMonth {
    month: u8,
    offset: Option<i16>,
}

impl View for GMonth {
    type V = (int, Option<int>);

    closed spec fn view(&self) -> (int, Option<int>) {
        (self.month as int, opt_int(self.offset))
    }
}

/// The instant a gMonth is placed at: the first minute of its month in the
/// reference year, a leap year so that every month has its full length.
pub open spec fn gmonth_minutes(v: (int, Option<int>)) -> int {
    spec_utc_minutes(1972, v.0, 1, 0, v.1)
}

impl GMonth {
    /// The month is a month, and the offset is within fourteen hours.
    #[verifier::type_invariant]
    pub closed spec fn wf(self) -> bool {
        &&& 1 <= self.month <= 12
        &&& self.offset matches Some(m) ==> -840 <= m <= 840
    }

    pub fn month(self) -> (r: u8)
        ensures
            r == self@.0,
    {
        self.month
    }

    /// The offset from UTC, if the value carries one.
    pub fn timezone_offset(self) -> (r: Option<TimezoneOffset>)
        ensures
            opt_tz(r) == self@.1,
    {
        proof {
            use_type_invariant(&self);
        }
        match self.offset {
            Some(m) => Some(TimezoneOffset(m)),
            None => None,
        }
    }

    /// Reads a `--MM` literal, with an optional timezone.
    pub fn parse_lexical(s: &str) -> (r: Result<Self, String>)
        ensures
            match r {
                Ok(v) => spec_gmonth(s@) == Some(v@),
                Err(_) => spec_gmonth(s@) is None,
            },
    {
        let c = str_chars(s);
        if !starts_with_hyphens(&c, 2) {
            return Err(message("expected `--MM`"));
        }
        let (month, rest) = take_two(&c, 2, "the month")?;
        if month < 1 || month > 12 {
            return Err(message_with(month as u128, " is not a month"));
        }
        let offset = parse_offset(&c, rest)?;
        Ok(GMonth { month, offset })
    }

    /// The canonical form, `--MM` and the timezone if there is one.
    pub fn to_string(self) -> (r: String)
        ensures
            r@ == seq!['-', '-'] + fixed_digits(self@.0 as nat, 2) + offset_chars(self@.1),
    {
        proof {
            use_type_invariant(&self);
        }
        let mut out: Vec<char> = Vec::new();
        out.push('-');
        out.push('-');
        push_fixed(&mut out, self.month as u128, 2);
        write_offset(&mut out, self.offset);
        assert(out@ =~= seq!['-', '-'] + fixed_digits(self@.0 as nat, 2) + offset_chars(self@.1));
        string_from_chars(&out)
    }

    fn instant(&self) -> (r: i128)
        ensures
            r == gmonth_minutes(self@),
            -6_000_000_000_000_000_000_000_000 <= r <= 6_000_000_000_000_000_000_000_000,
    {
        proof {
            use_type_invariant(self);
        }
        utc_minutes(1972, self.month, 1, 0, self.offset)
    }
}

impl PartialEq for GMonth {
    fn eq(&self, other: &Self) -> (r: bool) {
        match self.partial_cmp(other) {
            Some(Ordering::Equal) => true,
            _ => false,
        }
    }
}

impl vstd::std_specs::cmp::PartialEqSpecImpl for GMonth {
    open spec fn obeys_eq_spec() -> bool {
        true
    }

    open spec fn eq_spec(&self, other: &GMonth) -> bool {
        zoned_order(gmonth_minutes(self@), self@.1 is Some, gmonth_minutes(other@), other@.1 is Some)
            == Some(Ordering::Equal)
    }
}

impl PartialOrd for GMonth {
    fn partial_cmp(&self, other: &Self) -> (r: Option<Ordering>) {
        zoned_order_exec(self.instant(), self.offset.is_some(), other.instant(), other.offset.is_some())
    }
}

impl vstd::std_specs::cmp::PartialOrdSpecImpl for GMonth {
    open spec fn obeys_partial_cmp_spec() -> bool {
        true
    }

    open spec fn partial_cmp_spec(&self, other: &GMonth) -> Option<Ordering> {
        zoned_order(gmonth_minutes(self@), self@.1 is Some, gmonth_minutes(other@), other@.1 is Some)
    }
}

/// The day and offset a gDay literal denotes. Up to 31: a gDay names no
/// month, so the longest one decides.
pub open spec fn spec_gday(s: Seq<char>) -> Option<(int, Option<int>)> {
    if !hyphens(s, 3) {
        None
    } else {
        match spec_take_two(s, 3) {
            None => None,
            Some((day, q)) => if day < 1 || day > 31 {
                None
            } else {
                match spec_offset(s, q) {
                    None => None,
                    Some(o) => Some((day, o)),
                }
            },
        }
    }
}

/// `xs:gDay`, a day recurring every month.
#[derive(Clone, Copy, Debug)]
pub struct GDay {
    day: u8,
    offset: Option<i16>,
}

impl View for GDay {
    type V = (int, Option<int>);

    closed spec fn view(&self) -> (int, Option<int>) {
        (self.day as int, opt_int(self.offset))
    }
}

/// The instant a gDay is placed at: that day of January in the reference
/// year, in UTC.
pub open spec fn gday_minutes(v: (int, Option<int>)) -> int {
    spec_utc_minutes(1972, 1, v.0, 0, v.1)
}

impl GDay {
    /// The day is at most 31, and the offset is within fourteen hours.
    #[verifier::type_invariant]
    pub closed spec fn wf(self) -> bool {
        &&& 1 <= self.day <= 31
        &&& self.offset matches Some(m) ==> -840 <= m <= 840
    }

    pub fn day(self) -> (r: u8)
        ensures
            r == self@.0,
    {
        self.day
    }

    /// The offset from UTC, if the value carries one.
    pub fn timezone_offset(self) -> (r: Option<TimezoneOffset>)
        ensures
            opt_tz(r) == self@.1,
    {
        proof {
            use_type_invariant(&self);
        }
        match self.offset {
            Some(m) => Some(TimezoneOffset(m)),
            None => None,
        }
    }

    /// Reads a `---DD` literal, with an optional timezone.
    pub fn parse_lexical(s: &str) -> (r: Result<Self, String>)
        ensures
            match r {
                Ok(v) => spec_gday(s@) == Some(v@),
                Err(_) => spec_gday(s@) is None,
            },
    {
        let c = str_chars(s);
        if !starts_with_hyphens(&c, 3) {
            return Err(message("expected `---DD`"));
        }
        let (day, rest) = take_two(&c, 3, "the day")?;
        if day < 1 || day > 31 {
            return Err(message_with(day as u128, " is not a day of any month"));
        }
        let offset = parse_offset(&c, rest)?;
        Ok(GDay { day, offset })
    }

    /// The canonical form, `---DD` and the timezone if there is one.
    pub fn to_string(self) -> (r: String)
        ensures
            r@ == seq!['-', '-', '-'] + fixed_digits(self@.0 as nat, 2) + offset_chars(self@.1),
    {
        proof {
            use_type_invariant(&self);
        }
        let mut out: Vec<char> = Vec::new();
        out.push('-');
        out.push('-');
        out.push('-');
        push_fixed(&mut out, self.day as u128, 2);
        write_offset(&mut out, self.offset);
        assert(out@ =~= seq!['-', '-', '-'] + fixed_digits(self@.0 as nat, 2) + offset_chars(
            self@.1,
        ));
        string_from_chars(&out)
    }

    fn instant(&self) -> (r: i128)
        ensures
            r == gday_minutes(self@),
            -6_000_000_000_000_000_000_000_000 <= r <= 6_000_000_000_000_000_000_000_000,
    {
        proof {
            use_type_invariant(self);
        }
        utc_minutes(1972, 1, self.day, 0, self.offset)
    }
}

impl PartialEq for GDay {
    fn eq(&self, other: &Self) -> (r: bool) {
        match self.partial_cmp(other) {
            Some(Ordering::Equal) => true,
            _ => false,
        }
    }
}

impl vstd::std_specs::cmp::PartialEqSpecImpl for GDay {
    open spec fn obeys_eq_spec() -> bool {
        true
    }

    open spec fn eq_spec(&self, other: &GDay) -> bool {
        zoned_order(gday_minutes(self@), self@.1 is Some, gday_minutes(other@), other@.1 is Some)
            == Some(Ordering::Equal)
    }
}

impl PartialOrd for GDay {
    fn partial_cmp(&self, other: &Self) -> (r: Option<Ordering>) {
        zoned_order_exec(self.instant(), self.offset.is_some(), other.instant(), other.offset.is_some())
    }
}

impl vstd::std_specs::cmp::PartialOrdSpecImpl for GDay {
    open spec fn obeys_partial_cmp_spec() -> bool {
        true
    }

    open spec fn partial_cmp_spec(&self, other: &GDay) -> Option<Ordering> {
        zoned_order(gday_minutes(self@), self@.1 is Some, gday_minutes(other@), other@.1 is Some)
    }
}

// ---------------------------------------------------------------------------
// The calendar behind the day numbers
// ---------------------------------------------------------------------------

/// The era and the year of the era that the day count splits a
/// March-based year `y` into: `y` is `era * 400 + yoe`, with `yoe` below
/// 400 from year zero on, and between 399 and 798 before it.
proof fn lemma_era(y: int)
    ensures
        ({
            let w = if y >= 0 { y } else { y - 399 };
            let era = w / 400;
            let yoe = y - era * 400;
            &&& y >= 0 ==> 0 <= yoe < 400 && yoe == w % 400
            &&& y < 0 ==> 399 <= yoe < 799 && yoe == w % 400 + 399
        }),
{
    let w = if y >= 0 { y } else { y - 399 };
    vstd::arithmetic::div_mod::lemma_fundamental_div_mod(w, 400);
}

/// One more than `t` over `d`: one more exactly when `d` divides `t + 1`.
proof fn lemma_div_step(t: int, d: int)
    requires
        d > 0,
    ensures
        (t + 1) / d == t / d + (if (t + 1) % d == 0 { 1int } else { 0int }),
{
    vstd::arithmetic::div_mod::lemma_fundamental_div_mod(t, d);
    vstd::arithmetic::div_mod::lemma_mod_bound(t, d);
    let q = t / d;
    let r = t % d;
    if r + 1 < d {
        assert(t + 1 == q * d + (r + 1)) by (nonlinear_arith)
            requires
                t == d * q + r,
        ;
        vstd::arithmetic::div_mod::lemma_fundamental_div_mod_converse(t + 1, d, q, r + 1);
    } else {
        assert(t + 1 == (q + 1) * d + 0) by (nonlinear_arith)
            requires
                t == d * q + r,
                r + 1 == d,
        ;
        vstd::arithmetic::div_mod::lemma_fundamental_div_mod_converse(t + 1, d, q + 1, 0);
    }
}

/// Adding a multiple of 400 keeps the remainder by 4, 100 and 400.
proof fn lemma_mod_past_eras(q: int, s: int)
    ensures
        (q * 400 + s) % 4 == s % 4,
        (q * 400 + s) % 100 == s % 100,
        (q * 400 + s) % 400 == s % 400,
{
    vstd::arithmetic::div_mod::lemma_fundamental_div_mod(s, 4);
    vstd::arithmetic::div_mod::lemma_fundamental_div_mod(s, 100);
    vstd::arithmetic::div_mod::lemma_fundamental_div_mod(s, 400);
    vstd::arithmetic::div_mod::lemma_fundamental_div_mod_converse(q * 400 + s, 4, q * 100 + s / 4, s % 4);
    vstd::arithmetic::div_mod::lemma_fundamental_div_mod_converse(q * 400 + s, 100, q * 4 + s / 100, s % 100);
    vstd::arithmetic::div_mod::lemma_fundamental_div_mod_converse(q * 400 + s, 400, q + s / 400, s % 400);
}

/// A year divisible by 100 is divisible by 4.
proof fn lemma_century_mod_4(x: int)
    requires
        x % 100 == 0,
    ensures
        x % 4 == 0,
{
    vstd::arithmetic::div_mod::lemma_fundamental_div_mod(x, 100);
    vstd::arithmetic::div_mod::lemma_fundamental_div_mod_converse(x, 4, (x / 100) * 25, 0);
}

/// From one first of March to the next: 365 or 366 days, and one more than
/// 365 exactly when the next year is a leap year, except across the two
/// years of each 400 before year zero at which the count's eras turn (the
/// year after `y` leaving 0 or 399 over 400).
proof fn lemma_year_step(y: int)
    ensures
        ({
            let d = spec_days_from_civil(y + 1, 3) - spec_days_from_civil(y, 3);
            &&& d == 365 || d == 366
            &&& (y >= -1 || !((y + 1) % 400 == 0 || (y + 1) % 400 == 399)) ==> d == 365 + (if spec_is_leap(
                y + 1,
            ) {
                1int
            } else {
                0int
            })
        }),
{
    lemma_era(y);
    lemma_era(y + 1);
    let w = if y >= 0 { y } else { y - 399 };
    let q = w / 400;
    let t = y - q * 400;
    let w2 = if y + 1 >= 0 { y + 1 } else { y + 1 - 399 };
    let q2 = w2 / 400;
    let t2 = y + 1 - q2 * 400;
    lemma_mod_past_eras(q, t + 1);
    assert(y + 1 == q * 400 + (t + 1));
    if (y >= 0 && t < 399) || (y < -1 && w % 400 < 399) {
        if y >= 0 {
            vstd::arithmetic::div_mod::lemma_fundamental_div_mod_converse(y + 1, 400, q, t + 1);
        } else {
            vstd::arithmetic::div_mod::lemma_fundamental_div_mod(w, 400);
            vstd::arithmetic::div_mod::lemma_fundamental_div_mod_converse(w2, 400, q, w % 400 + 1);
        }
        assert(q2 == q && t2 == t + 1);
        lemma_div_step(t, 4);
        lemma_div_step(t, 100);
        lemma_div_step(t, 400);
        if (y + 1) % 100 == 0 {
            lemma_century_mod_4(y + 1);
        }
    } else if y >= -1 {
        assert(t == 399);
        vstd::arithmetic::div_mod::lemma_fundamental_div_mod_converse(y + 1, 400, q + 1, 0);
        assert(q2 == q + 1 && t2 == 0);
    } else {
        vstd::arithmetic::div_mod::lemma_fundamental_div_mod(w, 400);
        assert(w % 400 == 399);
        vstd::arithmetic::div_mod::lemma_fundamental_div_mod_converse(w2, 400, q + 1, 0);
        assert(q2 == q + 1 && t2 == 399);
        assert(t == 798);
        assert((y + 1) % 400 == 399);
    }
}

/// Days from the first of March to the first of `month` in the year that
/// March begins: the lengths of the months between, February last.
spec fn days_since_march(month: int) -> int {
    if month == 1 {
        306
    } else if month == 2 {
        337
    } else if month == 3 {
        0
    } else if month == 4 {
        31
    } else if month == 5 {
        61
    } else if month == 6 {
        92
    } else if month == 7 {
        122
    } else if month == 8 {
        153
    } else if month == 9 {
        184
    } else if month == 10 {
        214
    } else if month == 11 {
        245
    } else {
        275
    }
}

/// The first of `month` is the first of March of its March-based year
/// (the year before for January and February), plus the days since.
proof fn lemma_month_split(year: int, month: int)
    requires
        1 <= month <= 12,
    ensures
        spec_days_from_civil(year, month) == spec_days_from_civil(
            if month <= 2 { year - 1 } else { year },
            3,
        ) + days_since_march(month),
{
}

/// Each month's first day comes the month's length after the one before:
/// the day number of the first of the next month, less that of the first
/// of `month`, is the number of days in `month` of `year`. The count's
/// eras turn across February of the years before year zero that leave 0
/// or 399 over 400; there the count gives February 28 and 29 days
/// respectively, and the law leaves them out.
pub proof fn law_month_lengths(year: int, month: int)
    requires
        1 <= month <= 12,
        !(month == 2 && year < 0 && (year % 400 == 0 || year % 400 == 399)),
    ensures
        (if month == 12 {
            spec_days_from_civil(year + 1, 1)
        } else {
            spec_days_from_civil(year, month + 1)
        }) - spec_days_from_civil(year, month) == spec_days_in_month(year, month),
{
    lemma_month_split(year, month);
    if month == 12 {
        lemma_month_split(year + 1, 1);
    } else {
        lemma_month_split(year, month + 1);
    }
    if month == 2 {
        lemma_year_step(year - 1);
    }
}

/// The first of March of year `y` comes no later than that of any later
/// year.
proof fn lemma_years_advance(y1: int, y2: int)
    requires
        y1 <= y2,
    ensures
        spec_days_from_civil(y1, 3) <= spec_days_from_civil(y2, 3),
        y1 < y2 ==> spec_days_from_civil(y1, 3) + 365 <= spec_days_from_civil(y2, 3),
    decreases y2 - y1,
{
    if y1 < y2 {
        lemma_year_step(y2 - 1);
        lemma_years_advance(y1, y2 - 1);
    }
}

/// Whether `v` names a day of the calendar: a month from 1 to 12, and a
/// day of that month in that year.
pub open spec fn calendar_date(v: (int, int, int, Option<int>)) -> bool {
    1 <= v.1 <= 12 && 1 <= v.2 <= spec_days_in_month(v.0, v.1)
}

/// Whether `a` is the 29th of February and `b` the 1st of March of one
/// year before year zero that leaves 0 over 400: the day count gives both
/// one number.
pub open spec fn shared_day_number(a: (int, int, int, Option<int>), b: (int, int, int, Option<int>)) -> bool {
    &&& a.0 == b.0
    &&& a.0 < 0
    &&& a.0 % 400 == 0
    &&& a.1 == 2 && a.2 == 29
    &&& b.1 == 3 && b.2 == 1
}

/// The day number of a date: days from 1970-01-01.
pub open spec fn day_number(v: (int, int, int, Option<int>)) -> int {
    spec_days_from_civil(v.0, v.1) + v.2 - 1
}

/// Whether `a` comes before `b` by year, then month, then day.
pub open spec fn calendar_before(a: (int, int, int, Option<int>), b: (int, int, int, Option<int>)) -> bool {
    a.0 < b.0 || (a.0 == b.0 && a.1 < b.1) || (a.0 == b.0 && a.1 == b.1 && a.2 < b.2)
}

/// A day earlier in the calendar has a smaller day number.
proof fn lemma_day_numbers_order(a: (int, int, int, Option<int>), b: (int, int, int, Option<int>))
    requires
        calendar_date(a),
        calendar_date(b),
        calendar_before(a, b),
        !shared_day_number(a, b),
    ensures
        day_number(a) < day_number(b),
{
    lemma_month_split(a.0, a.1);
    lemma_month_split(b.0, b.1);
    let ya = if a.1 <= 2 { a.0 - 1 } else { a.0 };
    let yb = if b.1 <= 2 { b.0 - 1 } else { b.0 };
    let oa = days_since_march(a.1) + a.2 - 1;
    let ob = days_since_march(b.1) + b.2 - 1;
    assert(day_number(a) == spec_days_from_civil(ya, 3) + oa);
    assert(day_number(b) == spec_days_from_civil(yb, 3) + ob);
    assert(0 <= oa <= 365 && 0 <= ob <= 365);
    assert(oa == 365 ==> a.1 == 2 && a.2 == 29 && spec_is_leap(a.0));
    if ya == yb {
        if a.0 == b.0 && a.1 < b.1 {
            lemma_months_within(a.0, a.1, b.1);
        }
    } else {
        assert(ya < yb);
        lemma_year_step(ya);
        lemma_years_advance(ya + 1, yb);
        if oa == 365 {
            if ya >= -1 || !((ya + 1) % 400 == 0 || (ya + 1) % 400 == 399) {
            } else {
                assert(ya + 1 == a.0);
                assert(a.0 % 400 == 0);
                if yb == ya + 1 {
                    assert(ob > 0);
                }
            }
        }
    }
}

/// Within one March-based year, a month's days all come before the next
/// month's first.
proof fn lemma_months_within(year: int, m1: int, m2: int)
    requires
        1 <= m1 < m2 <= 12,
        m1 <= 2 <==> m2 <= 2,
    ensures
        days_since_march(m1) + spec_days_in_month(year, m1) <= days_since_march(m2),
{
    lemma_month_split(year, m1);
    lemma_month_split(year, m2);
}

/// The order of two years, months and days, compared in that order.
pub open spec fn calendar_order(a: (int, int, int, Option<int>), b: (int, int, int, Option<int>)) -> Ordering {
    if a.0 != b.0 {
        int_order(a.0, b.0)
    } else if a.1 != b.1 {
        int_order(a.1, b.1)
    } else {
        int_order(a.2, b.2)
    }
}

/// Two dates in one timezone, or both without one, compare as the
/// calendar orders them: by year, then month, then day. The one
/// exception is the pair the day count cannot tell apart, the 29th of
/// February and the 1st of March of a year before year zero that leaves 0
/// over 400, which compare equal.
pub proof fn law_dates_in_one_zone_order(a: Date, b: Date)
    requires
        a@.3 == b@.3,
        calendar_date(a@),
        calendar_date(b@),
        !shared_day_number(a@, b@),
        !shared_day_number(b@, a@),
    ensures
        a.partial_cmp_spec(&b) == Some(calendar_order(a@, b@)),
{
    let (u, v) = (a@, b@);
    let off = match u.3 {
        Some(m) => m,
        None => 0,
    };
    assert(date_minutes(u) == day_number(u) * 1440 - off);
    assert(date_minutes(v) == day_number(v) * 1440 - off);
    if calendar_before(u, v) {
        lemma_day_numbers_order(u, v);
        assert(day_number(u) * 1440 < day_number(v) * 1440) by (nonlinear_arith)
            requires
                day_number(u) < day_number(v),
        ;
    } else if calendar_before(v, u) {
        lemma_day_numbers_order(v, u);
        assert(day_number(v) * 1440 < day_number(u) * 1440) by (nonlinear_arith)
            requires
                day_number(v) < day_number(u),
        ;
    } else {
        assert(u.0 == v.0 && u.1 == v.1 && u.2 == v.2);
    }
}

/// The same calendar day in two timezones: the one further east (the
/// larger offset from UTC) begins earlier.
pub proof fn law_eastern_day_begins_earlier(a: Date, b: Date)
    requires
        a@.0 == b@.0 && a@.1 == b@.1 && a@.2 == b@.2,
        a@.3 is Some && b@.3 is Some,
        a@.3.unwrap() > b@.3.unwrap(),
    ensures
        a.partial_cmp_spec(&b) == Some(Ordering::Less),
        b.partial_cmp_spec(&a) == Some(Ordering::Greater),
{
    assert(date_minutes(a@) == day_number(a@) * 1440 - a@.3.unwrap());
    assert(date_minutes(b@) == day_number(b@) * 1440 - b@.3.unwrap());
}

} // verus!

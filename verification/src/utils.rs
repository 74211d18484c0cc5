//! Durations in seconds: their display form and their textual form in
//! stream metadata.

use crate::chars::{
    chars_of, decimal, push_three_digits, push_two_digits, spec_digit, string_of, three_digits,
    two_digits,
};
use crate::rational::{
    exact_or_nearest, law_beyond_range_saturates, lemma_gcd_divides, lemma_pow10_monotone,
    lemma_reduction_shrinks, magnitude, pow10, reduced_den, reduced_num, spec_gcd, Rational,
};
use vstd::arithmetic::div_mod::{lemma_fundamental_div_mod, lemma_fundamental_div_mod_converse};
use vstd::prelude::*;

verus! {

/// Display form of the non-negative duration `n / d` seconds:
/// `MM:SS.mmm` below one hour, `HH:MM:SS.mmm` from one hour on, with the
/// milliseconds cut off, not rounded.
pub open spec fn format_magnitude(n: nat, d: nat) -> Seq<char> {
    let secs = n / d;
    let millis = (n * 1000 / d) % 1000;
    if secs < 3600 {
        two_digits(secs / 60) + seq![':'] + two_digits(secs % 60) + seq!['.'] + three_digits(
            millis,
        )
    } else {
        two_digits(secs / 3600) + seq![':'] + two_digits(secs / 60 % 60) + seq![':'] + two_digits(
            secs % 60,
        ) + seq!['.'] + three_digits(millis)
    }
}

/// Display form of the duration `n / d` seconds: a negative one is the
/// display form of its magnitude behind a minus sign.
pub open spec fn format_seconds(n: int, d: int) -> Seq<char> {
    if n < 0 {
        seq!['-'] + format_magnitude(magnitude(n), d as nat)
    } else {
        format_magnitude(n as nat, d as nat)
    }
}

/// A negative duration is shown as a minus sign followed by what the
/// duration of the same magnitude is shown as.
pub proof fn law_negative_shows_magnitude(n: int, d: int)
    requires
        n > 0,
        d > 0,
    ensures
        format_seconds(-n, d) == seq!['-'] + format_seconds(n, d),
{
}

/// A duration in seconds.
#[derive(Clone, Copy, Debug)]
pub struct VideoDuration(pub Rational);

impl VideoDuration {
    /// The duration of `t` seconds.
    pub fn new(t: Rational) -> (d: VideoDuration)
        ensures
            d.0 == t,
    {
        VideoDuration(t)
    }

    /// The display form: `MM:SS.mmm`, or `HH:MM:SS.mmm` from one hour on;
    /// a negative duration shows its magnitude behind a minus sign.
    pub fn to_string(&self) -> (s: String)
        requires
            self.0.wf(),
        ensures
            s@ == format_seconds(self.0.num as int, self.0.den as int),
    {
        let mut out: Vec<char> = Vec::new();
        let num: i64 = self.0.num as i64;
        let d: u64 = self.0.den as u64;
        let n: u64 = if num < 0 {
            out.push('-');
            (0 - num) as u64
        } else {
            num as u64
        };
        let ghost head = out@;
        let secs: u64 = n / d;
        let millis: u64 = (n * 1000 / d) % 1000;
        if secs < 3600 {
            push_two_digits(&mut out, secs / 60);
            out.push(':');
            push_two_digits(&mut out, secs % 60);
        } else {
            push_two_digits(&mut out, secs / 3600);
            out.push(':');
            push_two_digits(&mut out, secs / 60 % 60);
            out.push(':');
            push_two_digits(&mut out, secs % 60);
        }
        out.push('.');
        push_three_digits(&mut out, millis);
        assert(out@ == head + format_magnitude(n as nat, d as nat));
        string_of(&out)
    }
}

/// Whether `c` is a decimal digit.
pub open spec fn is_digit(c: char) -> bool {
    '0' <= c && c <= '9'
}

/// The number that the digit `c` stands for.
pub open spec fn digit_value(c: char) -> nat {
    (c as int - 48) as nat
}

/// Whether `s` holds decimal digits only.
pub open spec fn all_digits(s: Seq<char>) -> bool {
    forall|i: int| 0 <= i < s.len() ==> is_digit(#[trigger] s[i])
}

/// The number that the digit string `s` stands for; 0 for the empty string.
pub open spec fn decimal_value(s: Seq<char>) -> nat
    decreases s.len(),
{
    if s.len() == 0 {
        0
    } else {
        decimal_value(s.drop_last()) * 10 + digit_value(s.last())
    }
}

/// How many decimal digits `s` begins with.
pub open spec fn digit_prefix_len(s: Seq<char>) -> nat
    decreases s.len(),
{
    if s.len() > 0 && is_digit(s[0]) {
        1 + digit_prefix_len(s.drop_first())
    } else {
        0
    }
}

/// Whether `s` has the form `H:MM:SS.f`: one or more digits of hours, two
/// digits of minutes, two digits of seconds, and one or more digits of a
/// decimal fraction of a second.
pub open spec fn matches_duration(s: Seq<char>) -> bool {
    let p = digit_prefix_len(s) as int;
    &&& p >= 1
    &&& s.len() >= p + 8
    &&& s[p] == ':'
    &&& is_digit(s[p + 1])
    &&& is_digit(s[p + 2])
    &&& s[p + 3] == ':'
    &&& is_digit(s[p + 4])
    &&& is_digit(s[p + 5])
    &&& s[p + 6] == '.'
    &&& all_digits(s.subrange(p + 7, s.len() as int))
}

/// The whole seconds that a text of the form `H:MM:SS.f` stands for.
pub open spec fn whole_seconds(s: Seq<char>) -> nat {
    let p = digit_prefix_len(s) as int;
    decimal_value(s.subrange(0, p)) * 3600 + decimal_value(s.subrange(p + 1, p + 3)) * 60
        + decimal_value(s.subrange(p + 4, p + 6))
}

/// The digits of the fraction that count in a text of the form
/// `H:MM:SS.f`: its first nine, down to billionths of a second.
pub open spec fn fraction_digits(s: Seq<char>) -> Seq<char> {
    let p = digit_prefix_len(s) as int;
    if s.len() > p + 16 {
        s.subrange(p + 7, p + 16)
    } else {
        s.subrange(p + 7, s.len() as int)
    }
}

/// Numerator of the number of seconds that a text of the form `H:MM:SS.f`
/// stands for, over [`duration_den`].
pub open spec fn duration_num(s: Seq<char>) -> nat {
    whole_seconds(s) * pow10(fraction_digits(s).len()) + decimal_value(fraction_digits(s))
}

/// Denominator that goes with [`duration_num`]: the power of ten of the
/// number of fraction digits that count.
pub open spec fn duration_den(s: Seq<char>) -> nat {
    pow10(fraction_digits(s).len())
}

/// The duration that a text of the form `H:MM:SS.f` stands for: exact
/// where that fits, and else approximated.
pub open spec fn duration_of(s: Seq<char>) -> Rational {
    exact_or_nearest(duration_num(s) as int, duration_den(s) as int)
}

/// Why a duration text was not turned into a number.
#[derive(Clone, Copy, Debug, PartialEq, Eq, Structural)]
pub enum DurationParseError {
    /// The text does not have the form `H:MM:SS.f`.
    Malformed,
}

proof fn lemma_digit_prefix(s: Seq<char>, i: int)
    requires
        0 <= i <= s.len(),
        forall|j: int| 0 <= j < i ==> is_digit(#[trigger] s[j]),
        i == s.len() || !is_digit(s[i]),
    ensures
        digit_prefix_len(s) == i,
    decreases i,
{
    if i > 0 {
        let t = s.drop_first();
        assert forall|j: int| 0 <= j < i - 1 implies is_digit(#[trigger] t[j]) by {
            assert(t[j] == s[j + 1]);
        }
        lemma_digit_prefix(t, i - 1);
    }
}

proof fn lemma_decimal_value_step(s: Seq<char>, a: int, j: int)
    requires
        0 <= a <= j < s.len(),
    ensures
        decimal_value(s.subrange(a, j + 1)) == decimal_value(s.subrange(a, j)) * 10 + digit_value(
            s[j],
        ),
{
    assert(s.subrange(a, j + 1).drop_last() == s.subrange(a, j));
}

fn is_digit_char(c: char) -> (b: bool)
    ensures
        b == is_digit(c),
{
    '0' <= c && c <= '9'
}

fn digit_of(c: char) -> (d: u64)
    requires
        is_digit(c),
    ensures
        d == digit_value(c),
        d < 10,
{
    (c as u32 - 48) as u64
}

/// Reads a duration of the form `H:MM:SS.f` (hours of any length, two
/// digits of minutes, two of seconds, a decimal fraction of one or more
/// digits) as a number of seconds. Of the fraction the first nine digits
/// count. The number is exact and in lowest terms where that fits, and
/// else approximated.
pub fn parse_duration(s: &str) -> (res: Result<Rational, DurationParseError>)
    ensures
        res is Ok <==> matches_duration(s@),
        res is Ok ==> res->Ok_0 == duration_of(s@) && res->Ok_0.wf(),
{
    let v = chars_of(s);
    let len = v.len();
    // hours
    let mut p: usize = 0;
    let mut h: u64 = 0;
    while p < len && is_digit_char(v[p])
        invariant
            p <= len,
            len == v@.len(),
            forall|j: int| 0 <= j < p ==> is_digit(#[trigger] v@[j]),
            h <= 1_000_000,
            h == 1_000_000 ==> decimal_value(v@.subrange(0, p as int)) >= 1_000_000,
            h < 1_000_000 ==> decimal_value(v@.subrange(0, p as int)) == h,
        decreases len - p,
    {
        proof {
            lemma_decimal_value_step(v@, 0, p as int);
        }
        let next: u64 = h * 10 + digit_of(v[p]);
        h = if next >= 1_000_000 {
            1_000_000
        } else {
            next
        };
        p += 1;
    }
    proof {
        lemma_digit_prefix(v@, p as int);
    }
    if p < 1 || len - p < 8 {
        return Err(DurationParseError::Malformed);
    }
    if !(v[p] == ':' && is_digit_char(v[p + 1]) && is_digit_char(v[p + 2]) && v[p + 3] == ':'
        && is_digit_char(v[p + 4]) && is_digit_char(v[p + 5]) && v[p + 6] == '.') {
        return Err(DurationParseError::Malformed);
    }
    let start: usize = p + 7;
    let mut j: usize = start;
    while j < len
        invariant
            start <= j <= len,
            start == p + 7,
            len == v@.len(),
            v@ == s@,
            digit_prefix_len(v@) == p,
            forall|i: int| start <= i < j ==> is_digit(#[trigger] v@[i]),
        decreases len - j,
    {
        if !is_digit_char(v[j]) {
            assert(!is_digit(v@.subrange(start as int, len as int)[j - start]));
            return Err(DurationParseError::Malformed);
        }
        j += 1;
    }
    assert(all_digits(v@.subrange(start as int, len as int)));
    assert(matches_duration(v@));
    // the fraction, down to billionths
    let e: usize = if len - start > 9 {
        start + 9
    } else {
        len
    };
    assert(fraction_digits(v@) == v@.subrange(start as int, e as int));
    let mut f: u64 = 0;
    let mut pw: u64 = 1;
    let mut k: usize = start;
    proof {
        lemma_pow10_monotone(0, 9);
    }
    while k < e
        invariant
            start <= k <= e <= len,
            e - start <= 9,
            len == v@.len(),
            forall|i: int| start <= i < len ==> is_digit(#[trigger] v@[i]),
            f == decimal_value(v@.subrange(start as int, k as int)),
            pw == pow10((k - start) as nat),
            f < pw,
            pw <= pow10(9),
        decreases e - k,
    {
        proof {
            lemma_decimal_value_step(v@, start as int, k as int);
            lemma_pow10_monotone((k - start + 1) as nat, 9);
            reveal_with_fuel(pow10, 10);
        }
        f = f * 10 + digit_of(v[k]);
        pw = pw * 10;
        k += 1;
    }
    proof {
        reveal_with_fuel(pow10, 10);
        lemma_decimal_value_step(v@, p as int + 1, p as int + 1);
        lemma_decimal_value_step(v@, p as int + 1, p as int + 2);
        lemma_decimal_value_step(v@, p as int + 4, p as int + 4);
        lemma_decimal_value_step(v@, p as int + 4, p as int + 5);
        assert(decimal_value(v@.subrange(p as int + 1, p as int + 1)) == 0);
        assert(decimal_value(v@.subrange(p as int + 4, p as int + 4)) == 0);
    }
    let mm: u64 = digit_of(v[p + 1]) * 10 + digit_of(v[p + 2]);
    let ss: u64 = digit_of(v[p + 4]) * 10 + digit_of(v[p + 5]);
    let whole: u64 = h * 3600 + mm * 60 + ss;
    assert(h < 1_000_000 ==> whole == whole_seconds(v@));
    assert(h == 1_000_000 ==> whole_seconds(v@) >= whole);
    if whole > 0x7fff_ffff {
        proof {
            let w = whole_seconds(v@);
            let d = duration_den(v@);
            assert(0x8000_0000 * d <= duration_num(v@)) by (nonlinear_arith)
                requires
                    duration_num(v@) == w * d + f,
                    f >= 0,
                    w >= 0x8000_0000,
                    d >= 0,
            ;
            law_beyond_range_saturates(duration_num(v@) as int, d as int);
        }
        return Ok(Rational { num: 0x7fff_ffff, den: 1 });
    }
    assert(whole * pw + f < 0x8000_0000 * 1_000_000_000 + 1_000_000_000) by (nonlinear_arith)
        requires
            whole <= 0x7fff_ffff,
            0 < pw <= 1_000_000_000,
            f < pw,
    ;
    let n: i128 = (whole * pw + f) as i128;
    Ok(Rational::exact_or_approximate(n, pw as i128))
}

/// The digits of a number are digits, and stand for the number.
proof fn lemma_decimal_reads_back(n: nat)
    ensures
        decimal(n).len() >= 1,
        all_digits(decimal(n)),
        decimal_value(decimal(n)) == n,
        10 <= n < 100 ==> decimal(n).len() == 2,
    decreases n,
{
    if n < 10 {
        let d = decimal(n);
        assert(d.drop_last() =~= Seq::<char>::empty());
        assert(decimal_value(d.drop_last()) == 0);
    } else {
        lemma_decimal_reads_back(n / 10);
        let d = decimal(n);
        assert(d.drop_last() =~= decimal(n / 10));
        assert(d.last() == spec_digit(n % 10));
        assert forall|i: int| 0 <= i < d.len() implies is_digit(#[trigger] d[i]) by {
            if i < d.len() - 1 {
                assert(d[i] == decimal(n / 10)[i]);
            }
        }
    }
}

/// A number padded to two places reads back as the number.
proof fn lemma_two_digits_read_back(n: nat)
    ensures
        two_digits(n).len() >= 2,
        all_digits(two_digits(n)),
        decimal_value(two_digits(n)) == n,
        n < 100 ==> two_digits(n).len() == 2,
{
    lemma_decimal_reads_back(n);
    if n < 10 {
        let d = two_digits(n);
        assert(d.drop_last() =~= seq!['0']);
        assert(seq!['0'].drop_last() =~= Seq::<char>::empty());
        assert(decimal_value(Seq::<char>::empty()) == 0);
        assert(seq!['0'].last() == '0');
        assert(decimal_value(seq!['0']) == 0);
    } else {
        lemma_decimal_reads_back(n / 10);
        assert(decimal(n).len() == decimal(n / 10).len() + 1);
    }
}

/// Three digits read back as the number below 1000 that they were made
/// from.
proof fn lemma_three_digits_read_back(ms: nat)
    requires
        ms < 1000,
    ensures
        three_digits(ms).len() == 3,
        all_digits(three_digits(ms)),
        decimal_value(three_digits(ms)) == ms,
{
    let fff = three_digits(ms);
    let two = fff.drop_last();
    let one = two.drop_last();
    assert(one.drop_last() =~= Seq::<char>::empty());
    assert(decimal_value(Seq::<char>::empty()) == 0);
    assert(decimal_value(one.drop_last()) == 0);
    assert(one.len() == 1 && two.len() == 2 && fff.len() == 3);
    assert(one.last() == spec_digit(ms / 100 % 10));
    assert(two.last() == spec_digit(ms / 10 % 10));
    assert(fff.last() == spec_digit(ms % 10));
    assert(digit_value(one.last()) == ms / 100 % 10);
    assert(digit_value(two.last()) == ms / 10 % 10);
    assert(digit_value(fff.last()) == ms % 10);
    assert(decimal_value(one) == ms / 100 % 10);
    assert(decimal_value(two) == (ms / 100 % 10) * 10 + ms / 10 % 10);
    assert(decimal_value(fff) == ((ms / 100 % 10) * 10 + ms / 10 % 10) * 10 + ms % 10);
}

/// The text of hours, minutes, seconds and milliseconds as a duration is
/// shown from one hour on.
pub open spec fn shown_text(h: nat, m: nat, sec: nat, ms: nat) -> Seq<char> {
    two_digits(h) + seq![':'] + two_digits(m) + seq![':'] + two_digits(sec) + seq!['.']
        + three_digits(ms)
}

/// A shown text has the form of a duration and stands for its parts.
proof fn lemma_shown_text_is_a_duration(h: nat, m: nat, sec: nat, ms: nat)
    requires
        m < 60,
        sec < 60,
        ms < 1000,
    ensures
        matches_duration(shown_text(h, m, sec, ms)),
        whole_seconds(shown_text(h, m, sec, ms)) == 3600 * h + 60 * m + sec,
        fraction_digits(shown_text(h, m, sec, ms)) == three_digits(ms),
{
    let hh = two_digits(h);
    let mm = two_digits(m);
    let ss = two_digits(sec);
    let fff = three_digits(ms);
    let text = shown_text(h, m, sec, ms);
    lemma_two_digits_read_back(h);
    lemma_two_digits_read_back(m);
    lemma_two_digits_read_back(sec);
    lemma_three_digits_read_back(ms);
    let p = hh.len() as int;
    assert(text.len() == p + 10);
    assert forall|j: int| 0 <= j < p implies is_digit(#[trigger] text[j]) by {
        assert(text[j] == hh[j]);
    }
    assert(text[p] == ':');
    lemma_digit_prefix(text, p);
    assert(text.subrange(0, p) =~= hh);
    assert(text.subrange(p + 1, p + 3) =~= mm);
    assert(text.subrange(p + 4, p + 6) =~= ss);
    assert(text.subrange(p + 7, text.len() as int) =~= fff);
    assert(text[p + 1] == mm[0] && text[p + 2] == mm[1]);
    assert(text[p + 4] == ss[0] && text[p + 5] == ss[1]);
    assert(text[p + 3] == ':' && text[p + 6] == '.');
}

/// Bringing a number of milliseconds over 1000 to lowest terms changes
/// neither its whole seconds nor its milliseconds.
proof fn lemma_lowest_terms_keep_the_parts(whole: nat, ms: nat)
    requires
        ms < 1000,
    ensures
        ({
            let total = (whole * 1000 + ms) as int;
            let qn = reduced_num(total, 1000);
            let qd = reduced_den(total, 1000);
            &&& qd > 0
            &&& qn >= 0
            &&& qn / qd == whole
            &&& (qn * 1000 / qd) % 1000 == ms
        }),
{
    let total = (whole * 1000 + ms) as int;
    let g = spec_gcd(magnitude(total), 1000) as int;
    lemma_gcd_divides(magnitude(total), 1000);
    lemma_reduction_shrinks(total, 1000);
    lemma_fundamental_div_mod(total, g);
    lemma_fundamental_div_mod(1000, g);
    let qn = total / g;
    let qd = 1000int / g;
    let r = qn - qd * whole;
    assert(0 <= r < qd && ms == g * r) by (nonlinear_arith)
        requires
            total == g * qn,
            1000 == g * qd,
            total == whole * 1000 + ms,
            0 <= ms < 1000,
            g > 0,
            r == qn - qd * whole,
    ;
    assert(qn == whole * qd + r) by (nonlinear_arith)
        requires
            r == qn - qd * whole,
    ;
    lemma_fundamental_div_mod_converse(qn, qd, whole as int, r);
    assert(qn * 1000 == total * qd + 0) by (nonlinear_arith)
        requires
            total == g * qn,
            1000 == g * qd,
    ;
    lemma_fundamental_div_mod_converse(qn * 1000, qd, total, 0);
}

/// Whole seconds from one hour on fall into hours, minutes and seconds as
/// they were put together.
proof fn lemma_seconds_fall_apart(h: nat, m: nat, sec: nat)
    requires
        m < 60,
        sec < 60,
    ensures
        (3600 * h + 60 * m + sec) / 3600 == h,
        (3600 * h + 60 * m + sec) / 60 % 60 == m,
        (3600 * h + 60 * m + sec) % 60 == sec,
{
}

/// A shown text stands for its milliseconds over 1000, in lowest terms.
proof fn lemma_shown_text_value(h: nat, m: nat, sec: nat, ms: nat)
    requires
        m < 60,
        sec < 60,
        ms < 1000,
        (3600 * h + 60 * m + sec) * 1000 + ms <= i32::MAX,
    ensures
        ({
            let total = ((3600 * h + 60 * m + sec) * 1000 + ms) as int;
            &&& duration_of(shown_text(h, m, sec, ms)) == Rational::lowest_terms(total, 1000)
            &&& Rational::lowest_terms(total, 1000).is_reduced()
            &&& Rational::lowest_terms(total, 1000).num == reduced_num(total, 1000)
            &&& Rational::lowest_terms(total, 1000).den == reduced_den(total, 1000)
        }),
{
    let text = shown_text(h, m, sec, ms);
    let total = ((3600 * h + 60 * m + sec) * 1000 + ms) as int;
    lemma_shown_text_is_a_duration(h, m, sec, ms);
    lemma_three_digits_read_back(ms);
    assert(pow10(3) == 1000) by {
        reveal_with_fuel(pow10, 4);
    }
    assert(duration_den(text) == 1000);
    assert(duration_num(text) == total);
    lemma_reduction_shrinks(total, 1000);
    crate::rational::law_reduce_idempotent(Rational { num: total as i32, den: 1000 });
}

/// A duration of whole milliseconds from one hour on, written as
/// `HH:MM:SS.mmm`, reads back as that duration in lowest terms, and that
/// duration is shown as the text it was read from.
pub proof fn law_shown_duration_reads_back(h: nat, m: nat, sec: nat, ms: nat)
    requires
        h >= 1,
        m < 60,
        sec < 60,
        ms < 1000,
        (3600 * h + 60 * m + sec) * 1000 + ms <= i32::MAX,
    ensures
        ({
            let text = shown_text(h, m, sec, ms);
            let q = Rational::lowest_terms(((3600 * h + 60 * m + sec) * 1000 + ms) as int, 1000);
            &&& matches_duration(text)
            &&& duration_of(text) == q
            &&& q.is_reduced()
            &&& format_seconds(q.num as int, q.den as int) == text
        }),
{
    let whole = 3600 * h + 60 * m + sec;
    let total = (whole * 1000 + ms) as int;
    lemma_shown_text_is_a_duration(h, m, sec, ms);
    lemma_shown_text_value(h, m, sec, ms);
    lemma_lowest_terms_keep_the_parts(whole, ms);
    lemma_seconds_fall_apart(h, m, sec);
    let q = Rational::lowest_terms(total, 1000);
    let qn = q.num as nat;
    let qd = q.den as nat;
    assert(qn / qd == whole);
    assert((qn * 1000 / qd) % 1000 == ms);
    assert(whole >= 3600);
}

} // verus!

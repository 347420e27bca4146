use vstd::prelude::*;

use crate::digits::{digits_value, is_digit, leading_zeros, lemma_leading_zeros_push, lemma_pow10_monotone, pow10};
use crate::error::TimeSpanError;
use crate::format_custom::{
    lemma_quoted_literal_end,
    lemma_repeat_len_bound,
    parse_quote_string,
    parse_repeat_pattern,
    quoted_literal,
    repeat_len,
};
use crate::parse::{
    is_digit_char,
    lemma_run_end_at,
    parse_chars,
    parse_text,
    run_end,
    signed_from_magnitude,
    ticks_magnitude,
    ticks_magnitude_exec,
    NumSpec,
    NumTok,
};
use crate::parse_constant::{ch_at, constant_text, parse_constant};
use crate::text::str_to_chars;
use crate::time_span::{res_view, TimeSpan};

verus! {

/// How `parse_exact` treats the sign of a custom-format match.
#[derive(Debug, Clone, Copy, PartialEq, Eq, Structural, Default)]
pub enum TimeSpanStyles {
    /// No flags: the matched value is positive.
    #[default]
    NoFlags,
    /// The matched value is negated; the input carries no sign of its own.
    AssumeNegative,
}

/// What a custom format has matched so far: the position of the last input character read
/// (`-1` before any), the values read and which of them have been seen.
pub struct ExactState {
    pub pos: int,
    pub days: int,
    pub hours: int,
    pub minutes: int,
    pub seconds: int,
    pub fraction: int,
    pub zeroes: nat,
    pub seen_days: bool,
    pub seen_hours: bool,
    pub seen_minutes: bool,
    pub seen_seconds: bool,
    pub seen_fraction: bool,
}

/// Nothing matched yet.
pub open spec fn exact_start() -> ExactState {
    ExactState {
        pos: -1,
        days: 0,
        hours: 0,
        minutes: 0,
        seconds: 0,
        fraction: 0,
        zeroes: 0,
        seen_days: false,
        seen_hours: false,
        seen_minutes: false,
        seen_seconds: false,
        seen_fraction: false,
    }
}

/// How many digits the input has right after `pos`, at most `max`.
pub open spec fn digits_taken(s: Seq<char>, pos: int, max: int) -> int {
    let avail = run_end(s, pos + 1, true) - (pos + 1);
    if avail < max { avail } else { max }
}

/// The `k` characters from `start` on, or nothing when they do not all lie in `s`.
pub open spec fn digits_after(s: Seq<char>, start: int, k: int) -> Seq<char> {
    if 0 <= start && 0 <= k && start + k <= s.len() {
        s.subrange(start, start + k)
    } else {
        Seq::empty()
    }
}

/// Reads at most `max` digits after `pos`: their leading zeros, their value, whether at least
/// `min` were read, and the new position. A stop at a non-digit steps back onto the last digit
/// read, except that it cannot step back before the first character.
pub open spec fn exact_digits(s: Seq<char>, pos: int, min: int, max: int) -> (nat, int, bool, int) {
    let k = digits_taken(s, pos, max);
    let digits = digits_after(s, pos + 1, k);
    let new_pos = if k < max && pos + 1 + k == 0 { 0 } else { pos + k };
    (leading_zeros(digits), digits_value(digits), k >= min, new_pos)
}

/// Whether the input after `pos` continues with `lit` (reading `'\0'` past the end).
pub open spec fn literal_matches(s: Seq<char>, pos: int, lit: Seq<char>) -> bool {
    forall|k: int| 0 <= k < lit.len() ==> ch_at(s, pos + 1 + k) == #[trigger] lit[k]
}

/// Matches the custom format `f` from position `i` against the input `s`: `h`/`hh`, `m`/`mm`,
/// `s`/`ss` (one or two digits, or exactly two), `d`..`dddddddd` (one to eight digits, or
/// exactly that many), `f`..`fffffff` (exactly that many digits), `F`..`FFFFFFF` (up to that
/// many), each at most once; quoted literals and `\`-escaped characters must match the input;
/// `%` is skipped before a specifier. Anything else is `InvalidFormat`.
pub open spec fn exact_run(s: Seq<char>, f: Seq<char>, i: int, st: ExactState) -> Result<
    ExactState,
    TimeSpanError,
>
    decreases f.len() - i,
{
    if i < 0 || i >= f.len() {
        Ok(st)
    } else {
        let c = f[i];
        let n: int = 1 + repeat_len(f, i + 1, c) as int;
        proof {
            lemma_repeat_len_bound(f, i + 1, c);
            lemma_quoted_literal_end(f, i + 1, c);
        }
        if c == 'h' || c == 'm' || c == 's' {
            let seen = if c == 'h' {
                st.seen_hours
            } else if c == 'm' {
                st.seen_minutes
            } else {
                st.seen_seconds
            };
            let r = exact_digits(s, st.pos, n, if n == 1 { 2 } else { n });
            if n > 2 || seen || !r.2 {
                Err(TimeSpanError::InvalidFormat)
            } else {
                let next = if c == 'h' {
                    ExactState { hours: r.1, seen_hours: true, pos: r.3, ..st }
                } else if c == 'm' {
                    ExactState { minutes: r.1, seen_minutes: true, pos: r.3, ..st }
                } else {
                    ExactState { seconds: r.1, seen_seconds: true, pos: r.3, ..st }
                };
                exact_run(s, f, i + n, next)
            }
        } else if c == 'd' {
            let r = if n < 2 {
                exact_digits(s, st.pos, 1, 8)
            } else {
                exact_digits(s, st.pos, n, n)
            };
            if n > 8 || st.seen_days || !r.2 {
                Err(TimeSpanError::InvalidFormat)
            } else {
                exact_run(s, f, i + n, ExactState { days: r.1, seen_days: true, pos: r.3, ..st })
            }
        } else if c == 'f' || c == 'F' {
            if n > 7 || st.seen_fraction {
                Err(TimeSpanError::InvalidFormat)
            } else {
                let r = exact_digits(s, st.pos, n, n);
                if c == 'f' && !r.2 {
                    Err(TimeSpanError::InvalidFormat)
                } else {
                    exact_run(
                        s,
                        f,
                        i + n,
                        ExactState {
                            fraction: r.1,
                            zeroes: r.0,
                            seen_fraction: true,
                            pos: r.3,
                            ..st
                        },
                    )
                }
            }
        } else if c == '\'' || c == '"' {
            match quoted_literal(f, i + 1, c) {
                None => Err(TimeSpanError::InvalidFormat),
                Some((lit, end)) => if literal_matches(s, st.pos, lit) {
                    exact_run(s, f, end, ExactState { pos: st.pos + lit.len(), ..st })
                } else {
                    Err(TimeSpanError::InvalidFormat)
                },
            }
        } else if c == '%' {
            if i + 1 < f.len() && f[i + 1] != '%' {
                exact_run(s, f, i + 1, st)
            } else {
                Err(TimeSpanError::InvalidFormat)
            }
        } else if c == '\\' {
            if i + 1 < f.len() && ch_at(s, st.pos + 1) == f[i + 1] {
                exact_run(s, f, i + 2, ExactState { pos: st.pos + 1, ..st })
            } else {
                Err(TimeSpanError::InvalidFormat)
            }
        } else {
            Err(TimeSpanError::InvalidFormat)
        }
    }
}

/// The ticks a custom format gives for `s`: the format must match and use up the whole
/// input; the values must be in range (as `ticks_magnitude` describes). Under
/// `AssumeNegative` the magnitude is negated with two's-complement wrap-around, so the largest
/// magnitudes come out positive.
pub open spec fn custom_exact(s: Seq<char>, f: Seq<char>, styles: TimeSpanStyles) -> Result<
    int,
    TimeSpanError,
> {
    match exact_run(s, f, 0, exact_start()) {
        Err(e) => Err(e),
        Ok(st) => if st.pos < s.len() - 1 {
            Err(TimeSpanError::InvalidFormat)
        } else {
            match ticks_magnitude(
                NumSpec { value: st.days, zeroes: 0 },
                NumSpec { value: st.hours, zeroes: 0 },
                NumSpec { value: st.minutes, zeroes: 0 },
                NumSpec { value: st.seconds, zeroes: 0 },
                NumSpec { value: st.fraction, zeroes: st.zeroes },
            ) {
                Err(e) => Err(e),
                Ok(m) => if styles == TimeSpanStyles::NoFlags {
                    if m <= i64::MAX {
                        Ok(m)
                    } else {
                        Err(TimeSpanError::Overflow)
                    }
                } else if m <= 9_223_372_036_854_775_808 {
                    Ok(-m)
                } else {
                    Ok(18_446_744_073_709_551_616 - m)
                },
            }
        },
    }
}

/// The ticks `s` stands for under the format string `f`: `"c"`, `"t"` and `"T"` read the
/// constant layout, `"g"` the general layout and `"G"` the general layout with all five
/// components, ignoring `styles`; an empty or other one-character format is `InvalidFormat`;
/// longer formats are custom.
pub open spec fn exact_text(s: Seq<char>, f: Seq<char>, styles: TimeSpanStyles) -> Result<
    int,
    TimeSpanError,
> {
    if f.len() == 0 {
        Err(TimeSpanError::InvalidFormat)
    } else if f.len() == 1 {
        if f[0] == 'c' || f[0] == 't' || f[0] == 'T' {
            constant_text(s)
        } else if f[0] == 'g' {
            parse_text(s, false, false)
        } else if f[0] == 'G' {
            parse_text(s, false, true)
        } else {
            Err(TimeSpanError::InvalidFormat)
        }
    } else {
        custom_exact(s, f, styles)
    }
}

/// Tries the formats from `i` on in order: an empty format is `InvalidFormat` at once, the
/// first format that reads `s` gives the result, and when none does the result is
/// `InvalidFormat` whatever the single failures were.
pub open spec fn exact_multiple_from(
    s: Seq<char>,
    fs: Seq<Seq<char>>,
    i: int,
    styles: TimeSpanStyles,
) -> Result<int, TimeSpanError>
    decreases fs.len() - i,
{
    if i < 0 || i >= fs.len() {
        Err(TimeSpanError::InvalidFormat)
    } else if fs[i].len() == 0 {
        Err(TimeSpanError::InvalidFormat)
    } else {
        match exact_text(s, fs[i], styles) {
            Ok(v) => Ok(v),
            Err(_) => exact_multiple_from(s, fs, i + 1, styles),
        }
    }
}

/// The ticks `s` stands for under the first of the formats `fs` that reads it: empty input and
/// an empty list are `InvalidFormat`.
pub open spec fn exact_multiple(s: Seq<char>, fs: Seq<Seq<char>>, styles: TimeSpanStyles) -> Result<
    int,
    TimeSpanError,
> {
    if s.len() == 0 || fs.len() == 0 {
        Err(TimeSpanError::InvalidFormat)
    } else {
        exact_multiple_from(s, fs, 0, styles)
    }
}

/// Reads digits after `pos` as `exact_digits` describes.
fn exact_digits_exec(s: &Vec<char>, pos: i128, min: usize, max: usize) -> (r: (u64, u64, bool, i128))
    requires
        -1 <= pos <= 2 * usize::MAX,
        1 <= max <= 8,
    ensures
        r.0 as nat == exact_digits(s@, pos as int, min as int, max as int).0,
        r.1 as int == exact_digits(s@, pos as int, min as int, max as int).1,
        r.2 == exact_digits(s@, pos as int, min as int, max as int).2,
        r.3 as int == exact_digits(s@, pos as int, min as int, max as int).3,
        r.1 < 100_000_000,
        r.0 <= max,
        -1 <= r.3 <= pos + max,
        r.3 <= pos || r.3 < s@.len() || r.3 == 0,
        r.1 < pow10(max as nat),
{
    let mut k: usize = 0;
    let mut value: u64 = 0;
    let mut zeroes: u64 = 0;
    let mut stop = false;
    let ghost start = pos + 1;
    while k < max && !stop
        invariant
            -1 <= pos <= 2 * usize::MAX,
            start == pos + 1,
            1 <= max <= 8,
            k <= max,
            forall|j: int| start <= j < start + k ==> j < s@.len() && is_digit(#[trigger] s@[j]),
            value == digits_value(digits_after(s@, start, k as int)),
            zeroes == leading_zeros(digits_after(s@, start, k as int)),
            (value == 0) == (zeroes == k),
            value < pow10(k as nat),
            stop ==> start + k >= s@.len() || !is_digit(s@[start + k]),
        decreases 2 * (max - k) + if stop { 0int } else { 1int },
    {
        let idx: i128 = pos + 1 + k as i128;
        if idx < s.len() as i128 && is_digit_char(s[idx as usize]) {
            let c = s[idx as usize];
            let d: u64 = (c as u32 - '0' as u32) as u64;
            proof {
                assert(c == s@[start + k]);
                let t = digits_after(s@, start, k as int);
                assert(t =~= s@.subrange(start, start + k));
                assert(digits_after(s@, start, k + 1) =~= t.push(c));
                assert(t.push(c).drop_last() =~= t);
                lemma_leading_zeros_push(t, c);
                assert(pow10((k + 1) as nat) == 10 * pow10(k as nat));
                assert(value * 10 + d < pow10((k + 1) as nat)) by (nonlinear_arith)
                    requires
                        value < pow10(k as nat),
                        d < 10,
                        pow10((k + 1) as nat) == 10 * pow10(k as nat),
                ;
                assert(k + 1 <= 8);
                reveal_with_fuel(pow10, 9);
                assert(pow10((k + 1) as nat) <= 100_000_000) by {
                    lemma_pow10_monotone((k + 1) as nat, 8);
                }
            }
            value = value * 10 + d;
            if value == 0 {
                zeroes = zeroes + 1;
            }
            k = k + 1;
        } else {
            stop = true;
        }
    }
    proof {
        lemma_run_end_at(s@, start, start + k);
        lemma_pow10_monotone(k as nat, 8);
        reveal_with_fuel(pow10, 9);
        lemma_leading_zeros_push(digits_after(s@, start, k as int), '0');
    }
    let new_pos: i128 = if k < max && pos + 1 + k as i128 == 0 {
        0
    } else {
        pos + k as i128
    };
    (zeroes, value, k >= min, new_pos)
}

/// Whether the input after `pos` continues with `lit`, as `literal_matches` describes.
fn literal_matches_exec(s: &Vec<char>, pos: i128, lit: &Vec<char>) -> (r: bool)
    requires
        -1 <= pos <= 2 * usize::MAX,
    ensures
        r == literal_matches(s@, pos as int, lit@),
{
    let mut k: usize = 0;
    while k < lit.len()
        invariant
            -1 <= pos <= 2 * usize::MAX,
            k <= lit@.len(),
            forall|j: int| 0 <= j < k ==> ch_at(s@, pos + 1 + j) == #[trigger] lit@[j],
        decreases lit@.len() - k,
    {
        let idx: i128 = pos + 1 + k as i128;
        let c = if idx < s.len() as i128 {
            s[idx as usize]
        } else {
            '\0'
        };
        if c != lit[k] {
            assert(ch_at(s@, pos + 1 + k) != lit@[k as int]);
            return false;
        }
        k = k + 1;
    }
    true
}

/// The executable counterpart of `ExactState`.
struct ExactScan {
    pos: i128,
    days: u64,
    hours: u64,
    minutes: u64,
    seconds: u64,
    fraction: u64,
    zeroes: u64,
    seen_days: bool,
    seen_hours: bool,
    seen_minutes: bool,
    seen_seconds: bool,
    seen_fraction: bool,
}

impl View for ExactScan {
    type V = ExactState;

    closed spec fn view(&self) -> ExactState {
        ExactState {
            pos: self.pos as int,
            days: self.days as int,
            hours: self.hours as int,
            minutes: self.minutes as int,
            seconds: self.seconds as int,
            fraction: self.fraction as int,
            zeroes: self.zeroes as nat,
            seen_days: self.seen_days,
            seen_hours: self.seen_hours,
            seen_minutes: self.seen_minutes,
            seen_seconds: self.seen_seconds,
            seen_fraction: self.seen_fraction,
        }
    }
}

impl ExactScan {
    /// The values stay small enough for the tick computation, and the position stays
    /// within reach of the input.
    spec fn bounded(&self, s_len: int, i: int) -> bool {
        &&& -1 <= self.pos <= s_len + i
        &&& self.days < 100_000_000
        &&& self.hours < 100
        &&& self.minutes < 100
        &&& self.seconds < 100
        &&& self.fraction < 100_000_000
        &&& self.zeroes <= 8
    }
}

/// Matches the custom format `f` against `s`, as `exact_run` from the start describes.
#[verifier::rlimit(40)]
fn exact_run_exec(s: &Vec<char>, f: &Vec<char>) -> (r: Result<ExactScan, TimeSpanError>)
    ensures
        match r {
            Ok(sc) => exact_run(s@, f@, 0, exact_start()) == Ok::<ExactState, TimeSpanError>(sc@)
                && sc.bounded(s@.len() as int, f@.len() as int),
            Err(e) => exact_run(s@, f@, 0, exact_start()) == Err::<ExactState, TimeSpanError>(e),
        },
{
    let mut sc = ExactScan {
        pos: -1,
        days: 0,
        hours: 0,
        minutes: 0,
        seconds: 0,
        fraction: 0,
        zeroes: 0,
        seen_days: false,
        seen_hours: false,
        seen_minutes: false,
        seen_seconds: false,
        seen_fraction: false,
    };
    let mut i: usize = 0;
    let s_len = s.len();
    while i < f.len()
        invariant
            s_len == s@.len(),
            i <= f@.len(),
            sc.bounded(s@.len() as int, i as int),
            exact_run(s@, f@, 0, exact_start()) == exact_run(s@, f@, i as int, sc@),
        decreases f@.len() - i,
    {
        let c = f[i];
        let n = 1 + parse_repeat_pattern(f, i + 1, c);
        proof {
            lemma_repeat_len_bound(f@, i + 1, c);
            lemma_quoted_literal_end(f@, i + 1, c);
        }
        if c == 'h' || c == 'm' || c == 's' {
            let seen = if c == 'h' {
                sc.seen_hours
            } else if c == 'm' {
                sc.seen_minutes
            } else {
                sc.seen_seconds
            };
            if n > 2 || seen {
                return Err(TimeSpanError::InvalidFormat);
            }
            let r = exact_digits_exec(s, sc.pos, n, if n == 1 { 2 } else { n });
            if !r.2 {
                return Err(TimeSpanError::InvalidFormat);
            }
            assert(r.1 < 100) by {
                reveal_with_fuel(pow10, 3);
            }
            if c == 'h' {
                sc.hours = r.1;
                sc.seen_hours = true;
            } else if c == 'm' {
                sc.minutes = r.1;
                sc.seen_minutes = true;
            } else {
                sc.seconds = r.1;
                sc.seen_seconds = true;
            }
            sc.pos = r.3;
            i = i + n;
        } else if c == 'd' {
            if n > 8 || sc.seen_days {
                return Err(TimeSpanError::InvalidFormat);
            }
            let r = if n < 2 {
                exact_digits_exec(s, sc.pos, 1, 8)
            } else {
                exact_digits_exec(s, sc.pos, n, n)
            };
            if !r.2 {
                return Err(TimeSpanError::InvalidFormat);
            }
            sc.days = r.1;
            sc.seen_days = true;
            sc.pos = r.3;
            i = i + n;
        } else if c == 'f' || c == 'F' {
            if n > 7 || sc.seen_fraction {
                return Err(TimeSpanError::InvalidFormat);
            }
            let r = exact_digits_exec(s, sc.pos, n, n);
            if c == 'f' && !r.2 {
                return Err(TimeSpanError::InvalidFormat);
            }
            sc.fraction = r.1;
            sc.zeroes = r.0;
            sc.seen_fraction = true;
            sc.pos = r.3;
            i = i + n;
        } else if c == '\'' || c == '"' {
            match parse_quote_string(f, i) {
                None => {
                    return Err(TimeSpanError::InvalidFormat);
                },
                Some((lit, taken)) => {
                    if !literal_matches_exec(s, sc.pos, &lit) {
                        return Err(TimeSpanError::InvalidFormat);
                    }
                    sc.pos = sc.pos + lit.len() as i128;
                    i = i + taken;
                },
            }
        } else if c == '%' {
            if i + 1 < f.len() && f[i + 1] != '%' {
                i = i + 1;
            } else {
                return Err(TimeSpanError::InvalidFormat);
            }
        } else if c == '\\' {
            let next = sc.pos + 1;
            let ch = if next < s.len() as i128 {
                s[next as usize]
            } else {
                '\0'
            };
            if i + 1 < f.len() && ch == f[i + 1] {
                sc.pos = next;
                i = i + 2;
            } else {
                return Err(TimeSpanError::InvalidFormat);
            }
        } else {
            return Err(TimeSpanError::InvalidFormat);
        }
    }
    Ok(sc)
}

/// The ticks of a custom-format match, as `custom_exact` describes.
fn custom_exact_exec(s: &Vec<char>, f: &Vec<char>, styles: TimeSpanStyles) -> (r: Result<
    TimeSpan,
    TimeSpanError,
>)
    ensures
        res_view(r) == custom_exact(s@, f@, styles),
{
    let sc = match exact_run_exec(s, f) {
        Ok(sc) => sc,
        Err(e) => {
            return Err(e);
        },
    };
    if sc.pos < s.len() as i128 - 1 {
        return Err(TimeSpanError::InvalidFormat);
    }
    let m = ticks_magnitude_exec(
        NumTok { value: sc.days, zeroes: 0 },
        NumTok { value: sc.hours, zeroes: 0 },
        NumTok { value: sc.minutes, zeroes: 0 },
        NumTok { value: sc.seconds, zeroes: 0 },
        NumTok { value: sc.fraction, zeroes: sc.zeroes as usize },
    );
    let m = match m {
        Ok(m) => m,
        Err(e) => {
            return Err(e);
        },
    };
    if styles == TimeSpanStyles::NoFlags {
        match signed_from_magnitude(true, m) {
            Ok(t) => Ok(TimeSpan::from_ticks(t)),
            Err(e) => Err(e),
        }
    } else if m <= 9_223_372_036_854_775_807u64 {
        Ok(TimeSpan::from_ticks(-(m as i64)))
    } else if m == 9_223_372_036_854_775_808u64 {
        Ok(TimeSpan::from_ticks(i64::MIN))
    } else {
        let w: u64 = u64::MAX - m + 1;
        Ok(TimeSpan::from_ticks(w as i64))
    }
}

/// Reads `s` under the format `f`, as `exact_text` describes.
pub(crate) fn parse_exact_chars(s: &Vec<char>, f: &Vec<char>, styles: TimeSpanStyles) -> (r: Result<
    TimeSpan,
    TimeSpanError,
>)
    ensures
        res_view(r) == exact_text(s@, f@, styles),
{
    if f.len() == 0 {
        Err(TimeSpanError::InvalidFormat)
    } else if f.len() == 1 {
        let c = f[0];
        if c == 'c' || c == 't' || c == 'T' {
            parse_constant(s)
        } else if c == 'g' {
            parse_chars(s, false, false)
        } else if c == 'G' {
            parse_chars(s, false, true)
        } else {
            Err(TimeSpanError::InvalidFormat)
        }
    } else {
        custom_exact_exec(s, f, styles)
    }
}

/// The characters of each format string.
pub open spec fn formats_view(formats: Seq<&str>) -> Seq<Seq<char>> {
    formats.map_values(|f: &str| f@)
}

impl TimeSpan {
    /// Reads a span that must match the format `format` exactly: `"c"`, `"t"` or `"T"` for
    /// the constant layout `[-][d.]hh:mm:ss[.fffffff]`, `"g"` and `"G"` for the general
    /// layouts (`"G"` with all five components), anything longer as a custom format of
    /// `d`, `h`, `m`, `s`, `f`, `F` specifiers, quoted literals and `\`-escapes, as
    /// `exact_text` describes. `styles` applies to custom formats only: `AssumeNegative`
    /// negates the match.
    pub fn parse_exact(input: &str, format: &str, styles: TimeSpanStyles) -> (r: Result<
        TimeSpan,
        TimeSpanError,
    >)
        ensures
            res_view(r) == exact_text(input@, format@, styles),
    {
        let s = str_to_chars(input);
        let f = str_to_chars(format);
        parse_exact_chars(&s, &f, styles)
    }

    /// Reads a span that matches one of `formats`: the first format (in order) that reads
    /// `input` gives the result. Empty input, an empty list or an empty format (reached
    /// before any match) is `InvalidFormat`, and so is input no format reads, whatever the
    /// single failures were.
    pub fn parse_exact_multiple(input: &str, formats: &[&str], styles: TimeSpanStyles) -> (r: Result<
        TimeSpan,
        TimeSpanError,
    >)
        ensures
            res_view(r) == exact_multiple(input@, formats_view(formats@), styles),
    {
        let s = str_to_chars(input);
        if s.len() == 0 || formats.len() == 0 {
            return Err(TimeSpanError::InvalidFormat);
        }
        let ghost fs = formats_view(formats@);
        let mut k: usize = 0;
        while k < formats.len()
            invariant
                s@ == input@,
                fs == formats_view(formats@),
                fs.len() == formats@.len(),
                k <= formats@.len(),
                s@.len() > 0,
                formats@.len() > 0,
                exact_multiple(input@, fs, styles) == exact_multiple_from(input@, fs, k as int, styles),
            decreases formats@.len() - k,
        {
            let f = str_to_chars(formats[k]);
            assert(f@ == fs[k as int]);
            if f.len() == 0 {
                return Err(TimeSpanError::InvalidFormat);
            }
            match parse_exact_chars(&s, &f, styles) {
                Ok(t) => {
                    return Ok(t);
                },
                Err(_) => {},
            }
            k = k + 1;
        }
        Err(TimeSpanError::InvalidFormat)
    }
}

} // verus!

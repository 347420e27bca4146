use vstd::prelude::*;

use crate::digits::{count_digits, decimal, num_digits, pad_digits, pow10, push_padded_digits};
use crate::error::TimeSpanError;
use crate::format::strip_zeros;
use crate::time_span::{abs, lemma_view_in_range, TimeSpan};

verus! {

broadcast use lemma_view_in_range;

/// The components a custom format string can show, all taken from the span's magnitude:
/// whole days, hours, minutes, seconds and the fraction of a second in ticks.
pub struct CustomParts {
    pub days: nat,
    pub hours: nat,
    pub minutes: nat,
    pub seconds: nat,
    pub fraction: nat,
}

/// The components of a span of `t` ticks; they depend only on the magnitude of `t`.
pub open spec fn custom_parts(t: int) -> CustomParts {
    let a = abs(t) as nat;
    let time = a % 864_000_000_000;
    CustomParts {
        days: a / 864_000_000_000,
        hours: time / 36_000_000_000 % 24,
        minutes: time / 600_000_000 % 60,
        seconds: time / 10_000_000 % 60,
        fraction: time % 10_000_000,
    }
}

/// `v` in decimal, zero-padded to at least `w` digits and never truncated.
pub open spec fn decimal_min_width(v: nat, w: nat) -> Seq<char> {
    if w >= num_digits(v) { pad_digits(v, w) } else { decimal(v) }
}

/// How many times `c` occurs in a row in `f` starting at `i`.
pub open spec fn repeat_len(f: Seq<char>, i: int, c: char) -> nat
    decreases f.len() - i,
{
    if 0 <= i < f.len() && f[i] == c {
        1 + repeat_len(f, i + 1, c)
    } else {
        0
    }
}

/// A run never reaches past the end of the sequence.
pub proof fn lemma_repeat_len_bound(f: Seq<char>, i: int, c: char)
    requires
        0 <= i <= f.len(),
    ensures
        repeat_len(f, i, c) <= f.len() - i,
    decreases f.len() - i,
{
    if i < f.len() {
        lemma_repeat_len_bound(f, i + 1, c);
    }
}

/// Reads a quoted literal whose opening quote `q` stands just before `j`: the literal text,
/// with `\` escaping the next character, and the position after the closing quote; `None`
/// when the closing quote is missing or a `\` ends the string.
pub open spec fn quoted_literal(f: Seq<char>, j: int, q: char) -> Option<(Seq<char>, int)>
    decreases f.len() - j,
{
    if j < 0 || j >= f.len() {
        None
    } else if f[j] == q {
        Some((Seq::empty(), j + 1))
    } else if f[j] == '\\' {
        if j + 1 < f.len() {
            match quoted_literal(f, j + 2, q) {
                Some((lit, end)) => Some((seq![f[j + 1]] + lit, end)),
                None => None,
            }
        } else {
            None
        }
    } else {
        match quoted_literal(f, j + 1, q) {
            Some((lit, end)) => Some((seq![f[j]] + lit, end)),
            None => None,
        }
    }
}

/// A quoted literal ends after it starts and within the sequence.
pub proof fn lemma_quoted_literal_end(f: Seq<char>, j: int, q: char)
    ensures
        quoted_literal(f, j, q) matches Some((lit, end)) ==> j < end <= f.len() && lit.len() < end
            - j,
    decreases f.len() - j,
{
    if 0 <= j < f.len() && f[j] != q {
        if f[j] == '\\' {
            if j + 1 < f.len() {
                lemma_quoted_literal_end(f, j + 2, q);
            }
        } else {
            lemma_quoted_literal_end(f, j + 1, q);
        }
    }
}

/// `text` followed by the text of `rest`, or the error of `rest`.
pub open spec fn prefix_text(text: Seq<char>, rest: Result<Seq<char>, TimeSpanError>) -> Result<
    Seq<char>,
    TimeSpanError,
> {
    match rest {
        Ok(s) => Ok(text + s),
        Err(e) => Err(e),
    }
}

/// The text a custom format string `f`, read from position `i`, gives for the components
/// `p`: `d`..`dddddddd` days, `h`/`hh` hours, `m`/`mm` minutes, `s`/`ss` seconds, `f`..`fffffff`
/// the truncated fraction, `F`..`FFFFFFF` the truncated fraction without trailing zeros,
/// quoted literals, `\`-escaped characters, and `%` before a single specifier. Anything else
/// is `InvalidFormat`.
pub open spec fn custom_text(f: Seq<char>, i: int, p: CustomParts) -> Result<Seq<char>, TimeSpanError>
    decreases f.len() - i,
{
    if i < 0 || i >= f.len() {
        Ok(Seq::empty())
    } else {
        let c = f[i];
        let n = 1 + repeat_len(f, i + 1, c);
        proof {
            lemma_repeat_len_bound(f, i + 1, c);
            lemma_quoted_literal_end(f, i + 1, c);
        }
        if c == 'h' || c == 'm' || c == 's' {
            if n > 2 {
                Err(TimeSpanError::InvalidFormat)
            } else {
                let v = if c == 'h' { p.hours } else if c == 'm' { p.minutes } else { p.seconds };
                prefix_text(decimal_min_width(v, n), custom_text(f, i + n, p))
            }
        } else if c == 'd' {
            if n > 8 {
                Err(TimeSpanError::InvalidFormat)
            } else {
                prefix_text(decimal_min_width(p.days, n), custom_text(f, i + n, p))
            }
        } else if c == 'f' {
            if n > 7 {
                Err(TimeSpanError::InvalidFormat)
            } else {
                prefix_text(
                    decimal_min_width(p.fraction / pow10((7 - n) as nat), n),
                    custom_text(f, i + n, p),
                )
            }
        } else if c == 'F' {
            if n > 7 {
                Err(TimeSpanError::InvalidFormat)
            } else {
                let kept = strip_zeros(p.fraction / pow10((7 - n) as nat), n);
                prefix_text(
                    if kept.1 > 0 { decimal_min_width(kept.0, kept.1) } else { Seq::empty() },
                    custom_text(f, i + n, p),
                )
            }
        } else if c == '\'' || c == '"' {
            match quoted_literal(f, i + 1, c) {
                Some((lit, end)) => prefix_text(lit, custom_text(f, end, p)),
                None => Err(TimeSpanError::InvalidFormat),
            }
        } else if c == '%' {
            if i + 1 < f.len() && f[i + 1] != '%' {
                match custom_text(seq![f[i + 1]], 0, p) {
                    Ok(s) => prefix_text(s, custom_text(f, i + 2, p)),
                    Err(e) => Err(e),
                }
            } else {
                Err(TimeSpanError::InvalidFormat)
            }
        } else if c == '\\' {
            if i + 1 < f.len() {
                prefix_text(seq![f[i + 1]], custom_text(f, i + 2, p))
            } else {
                Err(TimeSpanError::InvalidFormat)
            }
        } else {
            Err(TimeSpanError::InvalidFormat)
        }
    }
}

/// `10^p` for `p <= 7`.
fn pow10_up_to_max_fraction_digits(p: usize) -> (r: u64)
    requires
        p <= 7,
    ensures
        r == pow10(p as nat),
        r >= 1,
{
    proof {
        reveal_with_fuel(pow10, 8);
    }
    if p == 0 {
        1
    } else if p == 1 {
        10
    } else if p == 2 {
        100
    } else if p == 3 {
        1_000
    } else if p == 4 {
        10_000
    } else if p == 5 {
        100_000
    } else if p == 6 {
        1_000_000
    } else {
        10_000_000
    }
}

/// How many times `c` occurs in a row in `f` starting at `i`.
pub(crate) fn parse_repeat_pattern(f: &Vec<char>, i: usize, c: char) -> (r: usize)
    requires
        i <= f@.len(),
    ensures
        r == repeat_len(f@, i as int, c),
        i + r <= f@.len(),
{
    let mut j = i;
    while j < f.len() && f[j] == c
        invariant
            i <= j <= f@.len(),
            repeat_len(f@, i as int, c) == (j - i) + repeat_len(f@, j as int, c),
        decreases f@.len() - j,
    {
        j = j + 1;
    }
    j - i
}

/// Reads the quoted literal whose opening quote stands at `i`: the literal and how many
/// format characters it took, quotes included.
pub(crate) fn parse_quote_string(f: &Vec<char>, i: usize) -> (r: Option<(Vec<char>, usize)>)
    requires
        i < f@.len(),
    ensures
        match quoted_literal(f@, i + 1, f@[i as int]) {
            Some((lit, end)) => r matches Some((v, n)) && v@ == lit && n == end - i,
            None => r is None,
        },
{
    let len = f.len();
    let q = f[i];
    let mut j = i + 1;
    let mut lit: Vec<char> = Vec::new();
    loop
        invariant
            i < j <= f@.len() + 1,
            i < f@.len(),
            q == f@[i as int],
            quoted_literal(f@, i + 1, q) == match quoted_literal(f@, j as int, q) {
                Some((rest, end)) => Some((lit@ + rest, end)),
                None => None::<(Seq<char>, int)>,
            },
        decreases f@.len() + 1 - j,
    {
        if j >= f.len() {
            return None;
        }
        let c = f[j];
        if c == q {
            assert(lit@ + Seq::<char>::empty() =~= lit@);
            return Some((lit, j + 1 - i));
        } else if c == '\\' {
            if j + 1 < f.len() {
                let ghost old_lit = lit@;
                lit.push(f[j + 1]);
                proof {
                    match quoted_literal(f@, j + 2, q) {
                        Some((rest, end)) => {
                            assert(old_lit + (seq![f@[j + 1]] + rest) =~= lit@ + rest);
                        },
                        None => {},
                    }
                }
                j = j + 2;
            } else {
                return None;
            }
        } else {
            let ghost old_lit = lit@;
            lit.push(c);
            proof {
                match quoted_literal(f@, j + 1, q) {
                    Some((rest, end)) => {
                        assert(old_lit + (seq![c] + rest) =~= lit@ + rest);
                    },
                    None => {},
                }
            }
            j = j + 1;
        }
    }
}

/// Appends `v` in decimal, zero-padded to at least `w` digits.
fn push_min_width(out: &mut Vec<char>, v: u64, w: usize)
    ensures
        final(out)@ == old(out)@ + decimal_min_width(v as nat, w as nat),
{
    let n = count_digits(v);
    if w >= n {
        push_padded_digits(out, v, w);
    } else {
        push_padded_digits(out, v, n);
    }
}

/// The components of a span, computed as `custom_parts` describes.
fn parts_of(t: &TimeSpan) -> (r: (u64, u64, u64, u64, u64))
    ensures
        r.0 as nat == custom_parts(t@).days,
        r.1 as nat == custom_parts(t@).hours,
        r.2 as nat == custom_parts(t@).minutes,
        r.3 as nat == custom_parts(t@).seconds,
        r.4 as nat == custom_parts(t@).fraction,
        r.1 < 24,
        r.4 < 10_000_000,
{
    let a = t.magnitude();
    let day = a / 864_000_000_000;
    let time = a % 864_000_000_000;
    (day, time / 36_000_000_000 % 24, time / 600_000_000 % 60, time / 10_000_000 % 60, time
        % 10_000_000)
}

/// `prefix_text` of a concatenation is `prefix_text` applied twice.
proof fn lemma_prefix_text_assoc(
    a: Seq<char>,
    b: Seq<char>,
    r: Result<Seq<char>, TimeSpanError>,
)
    ensures
        prefix_text(a, prefix_text(b, r)) == prefix_text(a + b, r),
{
    match r {
        Ok(s) => {
            assert(a + (b + s) =~= (a + b) + s);
        },
        Err(_) => {},
    }
}

/// Drops trailing zero digits from `v`, at most `n` of them.
fn strip_trailing_zeros(v: u64, n: usize) -> (r: (u64, usize))
    ensures
        (r.0 as nat, r.1 as nat) == strip_zeros(v as nat, n as nat),
        r.1 <= n,
        r.0 <= v,
{
    let mut value = v;
    let mut digits = n;
    while digits > 0 && value % 10 == 0
        invariant
            digits <= n,
            value <= v,
            strip_zeros(value as nat, digits as nat) == strip_zeros(v as nat, n as nat),
        decreases digits,
    {
        value = value / 10;
        digits = digits - 1;
    }
    (value, digits)
}

/// The text a custom format string gives for a span, as `custom_text` describes.
pub(crate) fn format_customized(t: &TimeSpan, f: &Vec<char>) -> (r: Result<Vec<char>, TimeSpanError>)
    ensures
        match r {
            Ok(v) => custom_text(f@, 0, custom_parts(t@)) == Ok::<Seq<char>, TimeSpanError>(v@),
            Err(e) => custom_text(f@, 0, custom_parts(t@)) == Err::<Seq<char>, TimeSpanError>(e),
        },
    decreases f@.len(),
{
    let ghost p = custom_parts(t@);
    let (days, hours, minutes, seconds, fraction) = parts_of(t);
    let len = f.len();
    let mut out: Vec<char> = Vec::new();
    let mut i: usize = 0;
    assert(prefix_text(out@, custom_text(f@, 0, p)) == custom_text(f@, 0, p)) by {
        match custom_text(f@, 0, p) {
            Ok(s) => { assert(out@ + s =~= s); },
            Err(_) => {},
        }
    }
    while i < len
        invariant
            len == f@.len(),
            i <= len,
            days as nat == p.days,
            hours as nat == p.hours,
            minutes as nat == p.minutes,
            seconds as nat == p.seconds,
            fraction as nat == p.fraction,
            fraction < 10_000_000,
            p == custom_parts(t@),
            custom_text(f@, 0, p) == prefix_text(out@, custom_text(f@, i as int, p)),
        decreases len - i,
    {
        let c = f[i];
        let ghost before = out@;
        let ghost fs = f@;
        let n = parse_repeat_pattern(f, i, c);
        assert(n == 1 + repeat_len(fs, i + 1, c));
        if c == 'h' || c == 'm' || c == 's' {
            if n > 2 {
                return Err(TimeSpanError::InvalidFormat);
            }
            let v = if c == 'h' { hours } else if c == 'm' { minutes } else { seconds };
            push_min_width(&mut out, v, n);
            proof {
                assert(custom_text(fs, i as int, p) == prefix_text(decimal_min_width(v as nat, n as nat), custom_text(fs, i + n, p)));
                lemma_prefix_text_assoc(before, decimal_min_width(v as nat, n as nat), custom_text(fs, i + n, p));
            }
            i = i + n;
        } else if c == 'd' {
            if n > 8 {
                return Err(TimeSpanError::InvalidFormat);
            }
            push_min_width(&mut out, days, n);
            proof {
                assert(custom_text(fs, i as int, p) == prefix_text(decimal_min_width(days as nat, n as nat), custom_text(fs, i + n, p)));
                lemma_prefix_text_assoc(before, decimal_min_width(days as nat, n as nat), custom_text(fs, i + n, p));
            }
            i = i + n;
        } else if c == 'f' {
            if n > 7 {
                return Err(TimeSpanError::InvalidFormat);
            }
            let tmp = fraction / pow10_up_to_max_fraction_digits(7 - n);
            push_min_width(&mut out, tmp, n);
            proof {
                assert(custom_text(fs, i as int, p) == prefix_text(decimal_min_width(tmp as nat, n as nat), custom_text(fs, i + n, p)));
                lemma_prefix_text_assoc(before, decimal_min_width(tmp as nat, n as nat), custom_text(fs, i + n, p));
            }
            i = i + n;
        } else if c == 'F' {
            if n > 7 {
                return Err(TimeSpanError::InvalidFormat);
            }
            let tmp = fraction / pow10_up_to_max_fraction_digits(7 - n);
            let (kept, digits) = strip_trailing_zeros(tmp, n);
            if digits > 0 {
                push_min_width(&mut out, kept, digits);
            }
            proof {
                let text = if digits > 0 { decimal_min_width(kept as nat, digits as nat) } else { Seq::<char>::empty() };
                assert(out@ =~= before + text);
                assert(custom_text(fs, i as int, p) == prefix_text(text, custom_text(fs, i + n, p)));
                lemma_prefix_text_assoc(before, text, custom_text(fs, i + n, p));
            }
            i = i + n;
        } else if c == '\'' || c == '"' {
            match parse_quote_string(f, i) {
                Some((lit, consumed)) => {
                    let mut lit = lit;
                    let ghost lit_seq = lit@;
                    out.append(&mut lit);
                    proof {
                        lemma_quoted_literal_end(fs, i + 1, c);
                        assert(custom_text(fs, i as int, p) == prefix_text(lit_seq, custom_text(fs, i + consumed, p)));
                        lemma_prefix_text_assoc(before, lit_seq, custom_text(fs, i + consumed, p));
                    }
                    i = i + consumed;
                },
                None => {
                    return Err(TimeSpanError::InvalidFormat);
                },
            }
        } else if c == '%' {
            if i + 1 < len && f[i + 1] != '%' {
                let mut one: Vec<char> = Vec::new();
                one.push(f[i + 1]);
                assert(one@ =~= seq![fs[i + 1]]);
                match format_customized(t, &one) {
                    Ok(s) => {
                        let mut s = s;
                        let ghost s_seq = s@;
                        out.append(&mut s);
                        proof {
                            assert(custom_text(fs, i as int, p) == prefix_text(s_seq, custom_text(fs, i + 2, p)));
                            lemma_prefix_text_assoc(before, s_seq, custom_text(fs, i + 2, p));
                        }
                        i = i + 2;
                    },
                    Err(e) => {
                        return Err(e);
                    },
                }
            } else {
                return Err(TimeSpanError::InvalidFormat);
            }
        } else if c == '\\' {
            if i + 1 < len {
                out.push(f[i + 1]);
                proof {
                    assert(out@ =~= before + seq![fs[i + 1]]);
                    assert(custom_text(fs, i as int, p) == prefix_text(seq![fs[i + 1]], custom_text(fs, i + 2, p)));
                    lemma_prefix_text_assoc(before, seq![fs[i + 1]], custom_text(fs, i + 2, p));
                }
                i = i + 2;
            } else {
                return Err(TimeSpanError::InvalidFormat);
            }
        } else {
            return Err(TimeSpanError::InvalidFormat);
        }
    }
    assert(custom_text(f@, i as int, p) == Ok::<Seq<char>, TimeSpanError>(Seq::empty()));
    assert(out@ + Seq::<char>::empty() =~= out@);
    Ok(out)
}

} // verus!

use vstd::prelude::*;

use crate::digits::{
    count_digits, decimal, digit_char, lemma_pad_digits_shape, num_digits, pad_digits,
    push_padded_digits,
};
use crate::error::TimeSpanError;
use crate::format_custom::{custom_parts, custom_text, format_customized};
use crate::text::{chars_to_string, str_to_chars};
use crate::time_span::{abs, lemma_view_in_range, TimeSpan};
use vstd::utf8::{encode_utf8, is_ascii_chars, is_ascii_chars_encode_utf8};

verus! {

broadcast use lemma_view_in_range;

/// The three standard layouts: `"c"` (also `""`, `"t"`, `"T"`), `"g"` and `"G"`.
#[derive(Debug, Clone, Copy, PartialEq, Eq, Structural)]
pub enum StandardFormat {
    /// `[-][d.]hh:mm:ss[.fffffff]`: the day part only when non-zero, the seven-digit fraction
    /// only when non-zero.
    Constant,
    /// `[-][d:]h:mm:ss[.F]`: one-digit hours below ten, the fraction only when non-zero and
    /// without trailing zeros.
    GeneralShort,
    /// `[-]d:hh:mm:ss.fffffff`: always the day part and the full seven-digit fraction.
    GeneralLong,
}

/// The fraction of a second, in ticks, of a span of `a` ticks (`a >= 0`).
pub open spec fn part_fraction(a: nat) -> nat {
    a % 10_000_000
}

/// The seconds component of a span of `a` ticks (`a >= 0`).
pub open spec fn part_seconds(a: nat) -> nat {
    (a / 10_000_000) % 60
}

/// The minutes component of a span of `a` ticks (`a >= 0`).
pub open spec fn part_minutes(a: nat) -> nat {
    (a / 10_000_000 / 60) % 60
}

/// The hours component of a span of `a` ticks (`a >= 0`).
pub open spec fn part_hours(a: nat) -> nat {
    (a / 10_000_000 / 60 / 60) % 24
}

/// The whole days of a span of `a` ticks (`a >= 0`).
pub open spec fn part_days(a: nat) -> nat {
    a / 10_000_000 / 60 / 60 / 24
}

/// Drops trailing zero digits from `v`, at most `n` of them, counting the digits left.
pub open spec fn strip_zeros(v: nat, n: nat) -> (nat, nat)
    decreases n,
{
    if n > 0 && v % 10 == 0 {
        strip_zeros(v / 10, (n - 1) as nat)
    } else {
        (v, n)
    }
}

/// `"-"` for a negative span, nothing otherwise.
pub open spec fn sign_text(t: int) -> Seq<char> {
    if t < 0 { seq!['-'] } else { Seq::empty() }
}

/// `hh:mm:ss`, or `h:mm:ss` with one-digit hours when `short_hours` and the hours are below
/// ten.
pub open spec fn clock_text(hours: nat, minutes: nat, seconds: nat, short_hours: bool) -> Seq<
    char,
> {
    (if short_hours && hours < 10 {
        decimal(hours)
    } else {
        pad_digits(hours, 2)
    }) + seq![':'] + pad_digits(minutes, 2) + seq![':'] + pad_digits(seconds, 2)
}

/// What a layout writes before the clock part for a span of `days` whole days.
pub open spec fn day_text(days: nat, kind: StandardFormat) -> Seq<char> {
    match kind {
        StandardFormat::Constant => if days > 0 {
            decimal(days) + seq!['.']
        } else {
            Seq::empty()
        },
        StandardFormat::GeneralShort => if days > 0 {
            decimal(days) + seq![':']
        } else {
            Seq::empty()
        },
        StandardFormat::GeneralLong => decimal(days) + seq![':'],
    }
}

/// What a layout writes after the clock part for a fraction of a second of `fraction` ticks.
pub open spec fn fraction_text(fraction: nat, kind: StandardFormat) -> Seq<char> {
    match kind {
        StandardFormat::Constant => if fraction != 0 {
            seq!['.'] + pad_digits(fraction, 7)
        } else {
            Seq::empty()
        },
        StandardFormat::GeneralShort => if fraction != 0 {
            seq!['.'] + pad_digits(strip_zeros(fraction, 7).0, strip_zeros(fraction, 7).1)
        } else {
            Seq::empty()
        },
        StandardFormat::GeneralLong => seq!['.'] + pad_digits(fraction, 7),
    }
}

/// The text of a span of `t` ticks in one of the standard layouts.
pub open spec fn standard_text(t: int, kind: StandardFormat) -> Seq<char> {
    let a = abs(t) as nat;
    sign_text(t) + day_text(part_days(a), kind) + clock_text(
        part_hours(a),
        part_minutes(a),
        part_seconds(a),
        kind == StandardFormat::GeneralShort,
    ) + fraction_text(part_fraction(a), kind)
}

/// The text of a span of `t` ticks under the format string `f`: the constant layout for `""`,
/// `"c"`, `"t"` and `"T"`, the general layouts for `"g"` and `"G"`, `InvalidFormat` for any
/// other single character, and the custom layout for longer format strings.
pub open spec fn format_text(t: int, f: Seq<char>) -> Result<Seq<char>, TimeSpanError> {
    if f.len() == 0 {
        Ok(standard_text(t, StandardFormat::Constant))
    } else if f.len() == 1 {
        if f[0] == 'c' || f[0] == 't' || f[0] == 'T' {
            Ok(standard_text(t, StandardFormat::Constant))
        } else if f[0] == 'g' {
            Ok(standard_text(t, StandardFormat::GeneralShort))
        } else if f[0] == 'G' {
            Ok(standard_text(t, StandardFormat::GeneralLong))
        } else {
            Err(TimeSpanError::InvalidFormat)
        }
    } else {
        custom_text(f, 0, custom_parts(t))
    }
}

/// The bytes of ASCII text, one per character.
pub open spec fn ascii_bytes(s: Seq<char>) -> Seq<u8> {
    s.map_values(|c: char| c as u8)
}

/// Drops the trailing zeros of a seven-digit fraction, returning what is left and how many
/// digits it is written with.
fn trim_fraction_trailing_zeros(fraction: u64) -> (r: (u64, usize))
    requires
        fraction < 10_000_000,
    ensures
        (r.0 as nat, r.1 as nat) == strip_zeros(fraction as nat, 7),
        r.1 <= 7,
        r.0 <= fraction,
{
    let mut value = fraction;
    let mut digits: usize = 7;
    while digits > 0 && value % 10 == 0
        invariant
            digits <= 7,
            value <= fraction,
            strip_zeros(value as nat, digits as nat) == strip_zeros(fraction as nat, 7),
        decreases digits,
    {
        value = value / 10;
        digits = digits - 1;
    }
    (value, digits)
}

/// Appends the day part of a standard layout.
fn push_day_text(out: &mut Vec<char>, days: u64, kind: StandardFormat)
    ensures
        final(out)@ == old(out)@ + day_text(days as nat, kind),
{
    let ghost o = out@;
    if days > 0 || kind == StandardFormat::GeneralLong {
        let n = count_digits(days);
        push_padded_digits(out, days, n);
        if kind == StandardFormat::Constant {
            out.push('.');
        } else {
            out.push(':');
        }
    }
    assert(out@ =~= o + day_text(days as nat, kind));
}

/// Appends the clock part of a standard layout.
fn push_clock_text(out: &mut Vec<char>, hours: u64, minutes: u64, seconds: u64, short_hours: bool)
    requires
        hours < 24,
    ensures
        final(out)@ == old(out)@ + clock_text(
            hours as nat,
            minutes as nat,
            seconds as nat,
            short_hours,
        ),
{
    let ghost o = out@;
    if short_hours && hours < 10 {
        push_padded_digits(out, hours, 1);
    } else {
        push_padded_digits(out, hours, 2);
    }
    out.push(':');
    push_padded_digits(out, minutes, 2);
    out.push(':');
    push_padded_digits(out, seconds, 2);
    assert(out@ =~= o + clock_text(hours as nat, minutes as nat, seconds as nat, short_hours));
}

/// Appends the fraction part of a standard layout.
fn push_fraction_text(out: &mut Vec<char>, fraction: u64, kind: StandardFormat)
    requires
        fraction < 10_000_000,
    ensures
        final(out)@ == old(out)@ + fraction_text(fraction as nat, kind),
{
    let ghost o = out@;
    match kind {
        StandardFormat::Constant => {
            if fraction != 0 {
                out.push('.');
                push_padded_digits(out, fraction, 7);
            }
        },
        StandardFormat::GeneralShort => {
            if fraction != 0 {
                let (value, digits) = trim_fraction_trailing_zeros(fraction);
                out.push('.');
                push_padded_digits(out, value, digits);
            }
        },
        StandardFormat::GeneralLong => {
            out.push('.');
            push_padded_digits(out, fraction, 7);
        },
    }
    assert(out@ =~= o + fraction_text(fraction as nat, kind));
}

/// The buffer `old` with `text` written over it at `pos`.
pub open spec fn written_at(old: Seq<u8>, pos: int, text: Seq<char>) -> Seq<u8> {
    old.take(pos) + ascii_bytes(text) + old.skip(pos + text.len())
}

/// Writing `a` at `pos` and then `b` right after it writes `a + b` at `pos`.
proof fn lemma_written_at_compose(old: Seq<u8>, pos: int, a: Seq<char>, b: Seq<char>)
    requires
        0 <= pos,
        pos + a.len() + b.len() <= old.len(),
    ensures
        written_at(written_at(old, pos, a), pos + a.len(), b) == written_at(old, pos, a + b),
{
    let mid = written_at(old, pos, a);
    assert(mid.take(pos + a.len()) =~= old.take(pos) + ascii_bytes(a));
    assert(mid.skip(pos + a.len() + b.len()) =~= old.skip(pos + a.len() + b.len()));
    assert(ascii_bytes(a + b) =~= ascii_bytes(a) + ascii_bytes(b));
    assert(written_at(mid, pos + a.len(), b) =~= written_at(old, pos, a + b));
}

/// Writes one ASCII character at `pos`.
fn write_char(dest: &mut [u8], pos: usize, c: char) -> (r: usize)
    requires
        pos < old(dest)@.len(),
        c as u32 <= 127,
    ensures
        r == pos + 1,
        final(dest)@ == written_at(old(dest)@, pos as int, seq![c]),
{
    dest[pos] = c as u8;
    assert(final(dest)@ =~= written_at(old(dest)@, pos as int, seq![c]));
    pos + 1
}

/// Writes the last `w` digits of `v`, zero-padded, at `pos`.
fn write_padded_digits(dest: &mut [u8], pos: usize, v: u64, w: usize) -> (r: usize)
    requires
        pos + w <= old(dest)@.len(),
    ensures
        r == pos + w,
        final(dest)@ == written_at(old(dest)@, pos as int, pad_digits(v as nat, w as nat)),
    decreases w,
{
    proof {
        lemma_pad_digits_shape(v as nat, w as nat);
    }
    if w == 0 {
        assert(final(dest)@ =~= written_at(old(dest)@, pos as int, pad_digits(v as nat, w as nat)));
        return pos;
    }
    let ghost start = dest@;
    let _len = dest.len();
    write_padded_digits(dest, pos, v / 10, w - 1);
    let d = (v % 10) as u8;
    let ghost mid = dest@;
    dest[pos + (w - 1)] = d + 48u8;
    proof {
        lemma_pad_digits_shape((v / 10) as nat, (w - 1) as nat);
        let c = digit_char((v % 10) as int);
        assert(c as u8 == d + 48u8);
        assert(dest@ =~= written_at(mid, pos + w - 1, seq![c]));
        lemma_written_at_compose(start, pos as int, pad_digits((v / 10) as nat, (w - 1) as nat), seq![c]);
        assert(pad_digits((v / 10) as nat, (w - 1) as nat) + seq![c] =~= pad_digits(v as nat, w as nat));
    }
    pos + w
}

/// How long the day part of a standard layout is.
fn day_text_len(days: u64, kind: StandardFormat) -> (r: usize)
    ensures
        r == day_text(days as nat, kind).len(),
        r <= 21,
{
    proof {
        lemma_pad_digits_shape(days as nat, num_digits(days as nat));
    }
    if days > 0 || kind == StandardFormat::GeneralLong {
        count_digits(days) + 1
    } else {
        0
    }
}

/// Writes the day part of a standard layout at `pos`.
fn write_day_text(dest: &mut [u8], pos: usize, days: u64, kind: StandardFormat) -> (r: usize)
    requires
        pos + day_text(days as nat, kind).len() <= old(dest)@.len(),
    ensures
        r == pos + day_text(days as nat, kind).len(),
        final(dest)@ == written_at(old(dest)@, pos as int, day_text(days as nat, kind)),
{
    let ghost start = dest@;
    proof {
        lemma_pad_digits_shape(days as nat, num_digits(days as nat));
    }
    if days > 0 || kind == StandardFormat::GeneralLong {
        let n = count_digits(days);
        let p1 = write_padded_digits(dest, pos, days, n);
        let sep = if kind == StandardFormat::Constant { '.' } else { ':' };
        let p2 = write_char(dest, p1, sep);
        proof {
            lemma_written_at_compose(start, pos as int, decimal(days as nat), seq![sep]);
        }
        p2
    } else {
        assert(dest@ =~= written_at(start, pos as int, day_text(days as nat, kind)));
        pos
    }
}

/// Writes the clock part of a standard layout at `pos`.
fn write_clock_text(
    dest: &mut [u8],
    pos: usize,
    hours: u64,
    minutes: u64,
    seconds: u64,
    short_hours: bool,
) -> (r: usize)
    requires
        hours < 24,
        pos + clock_text(hours as nat, minutes as nat, seconds as nat, short_hours).len()
            <= old(dest)@.len(),
    ensures
        r == pos + clock_text(hours as nat, minutes as nat, seconds as nat, short_hours).len(),
        final(dest)@ == written_at(
            old(dest)@,
            pos as int,
            clock_text(hours as nat, minutes as nat, seconds as nat, short_hours),
        ),
{
    let ghost start = dest@;
    let w: usize = if short_hours && hours < 10 { 1 } else { 2 };
    let ghost hs = pad_digits(hours as nat, w as nat);
    let ghost ms = pad_digits(minutes as nat, 2);
    let ghost ss = pad_digits(seconds as nat, 2);
    proof {
        lemma_pad_digits_shape(hours as nat, w as nat);
        lemma_pad_digits_shape(minutes as nat, 2);
        lemma_pad_digits_shape(seconds as nat, 2);
        assert(clock_text(hours as nat, minutes as nat, seconds as nat, short_hours) =~= hs + seq![
            ':',
        ] + ms + seq![':'] + ss);
    }
    let p1 = write_padded_digits(dest, pos, hours, w);
    let p2 = write_char(dest, p1, ':');
    proof {
        lemma_written_at_compose(start, pos as int, hs, seq![':']);
    }
    let p3 = write_padded_digits(dest, p2, minutes, 2);
    proof {
        lemma_written_at_compose(start, pos as int, hs + seq![':'], ms);
    }
    let p4 = write_char(dest, p3, ':');
    proof {
        lemma_written_at_compose(start, pos as int, hs + seq![':'] + ms, seq![':']);
    }
    let p5 = write_padded_digits(dest, p4, seconds, 2);
    proof {
        lemma_written_at_compose(start, pos as int, hs + seq![':'] + ms + seq![':'], ss);
    }
    p5
}

/// How long the fraction part of a standard layout is.
fn fraction_text_len(fraction: u64, kind: StandardFormat) -> (r: usize)
    requires
        fraction < 10_000_000,
    ensures
        r == fraction_text(fraction as nat, kind).len(),
        r <= 8,
{
    proof {
        lemma_pad_digits_shape(fraction as nat, 7);
        let k = strip_zeros(fraction as nat, 7);
        lemma_pad_digits_shape(k.0, k.1);
    }
    match kind {
        StandardFormat::Constant => if fraction != 0 { 8 } else { 0 },
        StandardFormat::GeneralShort => if fraction != 0 {
            let (_, digits) = trim_fraction_trailing_zeros(fraction);
            digits + 1
        } else {
            0
        },
        StandardFormat::GeneralLong => 8,
    }
}

/// Writes the fraction part of a standard layout at `pos`.
fn write_fraction_text(dest: &mut [u8], pos: usize, fraction: u64, kind: StandardFormat) -> (r:
    usize)
    requires
        fraction < 10_000_000,
        pos + fraction_text(fraction as nat, kind).len() <= old(dest)@.len(),
    ensures
        r == pos + fraction_text(fraction as nat, kind).len(),
        final(dest)@ == written_at(old(dest)@, pos as int, fraction_text(fraction as nat, kind)),
{
    let ghost start = dest@;
    let show = match kind {
        StandardFormat::GeneralLong => true,
        _ => fraction != 0,
    };
    if !show {
        assert(dest@ =~= written_at(start, pos as int, fraction_text(fraction as nat, kind)));
        return pos;
    }
    let (value, digits) = if kind == StandardFormat::GeneralShort {
        trim_fraction_trailing_zeros(fraction)
    } else {
        (fraction, 7)
    };
    proof {
        lemma_pad_digits_shape(value as nat, digits as nat);
    }
    let p1 = write_char(dest, pos, '.');
    let p2 = write_padded_digits(dest, p1, value, digits);
    proof {
        lemma_written_at_compose(start, pos as int, seq!['.'], pad_digits(value as nat, digits as nat));
    }
    p2
}

/// Standard layouts are made of ASCII characters only.
pub(crate) proof fn lemma_standard_text_ascii(t: int, kind: StandardFormat)
    ensures
        is_ascii_chars(standard_text(t, kind)),
{
    let a = abs(t) as nat;
    let days = part_days(a);
    let fraction = part_fraction(a);
    let hours = part_hours(a);
    lemma_pad_digits_shape(days, num_digits(days));
    lemma_pad_digits_shape(hours, num_digits(hours));
    lemma_pad_digits_shape(hours, 2);
    lemma_pad_digits_shape(part_minutes(a), 2);
    lemma_pad_digits_shape(part_seconds(a), 2);
    lemma_pad_digits_shape(fraction, 7);
    let k = strip_zeros(fraction, 7);
    lemma_pad_digits_shape(k.0, k.1);
    let text = standard_text(t, kind);
    assert forall|i: int| 0 <= i < text.len() implies '\0' <= #[trigger] text[i] <= '\u{7f}' by {
    }
}

impl TimeSpan {
    /// The characters of this span in a standard layout.
    pub(crate) fn standard_chars(&self, kind: StandardFormat) -> (r: Vec<char>)
        ensures
            r@ == standard_text(self@, kind),
    {
        let a = self.magnitude();
        let fraction = a % 10_000_000;
        let total_seconds = a / 10_000_000;
        let seconds = total_seconds % 60;
        let total_minutes = total_seconds / 60;
        let minutes = total_minutes % 60;
        let total_hours = total_minutes / 60;
        let hours = total_hours % 24;
        let days = total_hours / 24;
        let ghost an = a as nat;

        let mut out: Vec<char> = Vec::new();
        if self.ticks() < 0 {
            out.push('-');
        }
        assert(out@ =~= sign_text(self@));
        push_day_text(&mut out, days, kind);
        push_clock_text(&mut out, hours, minutes, seconds, kind == StandardFormat::GeneralShort);
        push_fraction_text(&mut out, fraction, kind);
        assert(out@ =~= standard_text(self@, kind));
        out
    }

    /// The constant (`"c"`) text of this span: `[-][d.]hh:mm:ss[.fffffff]`.
    pub fn to_string(&self) -> (r: String)
        ensures
            r@ == standard_text(self@, StandardFormat::Constant),
    {
        let chars = self.standard_chars(StandardFormat::Constant);
        chars_to_string(&chars)
    }

    /// The text of this span under a standard or custom format string, as `format_text`
    /// describes; `InvalidFormat` when the format string is not valid.
    pub fn to_string_format(&self, format: &str) -> (r: Result<String, TimeSpanError>)
        ensures
            match r {
                Ok(s) => format_text(self@, format@) == Ok::<Seq<char>, TimeSpanError>(s@),
                Err(e) => format_text(self@, format@) == Err::<Seq<char>, TimeSpanError>(e),
            },
    {
        let f = str_to_chars(format);
        let chars = self.format_chars(&f);
        match chars {
            Ok(v) => Ok(chars_to_string(&v)),
            Err(e) => Err(e),
        }
    }

    /// Writes this span in a standard layout at the start of `destination`, without
    /// allocating; `InsufficientBuffer`, writing nothing, when the text does not fit.
    fn try_format_standard(&self, kind: StandardFormat, destination: &mut [u8]) -> (r: Result<
        usize,
        TimeSpanError,
    >)
        ensures
            old(destination)@.len() < standard_text(self@, kind).len() ==> r == Err::<
                usize,
                TimeSpanError,
            >(TimeSpanError::InsufficientBuffer) && final(destination)@ == old(destination)@,
            old(destination)@.len() >= standard_text(self@, kind).len() ==> r == Ok::<
                usize,
                TimeSpanError,
            >(standard_text(self@, kind).len() as usize) && final(destination)@ == written_at(
                old(destination)@,
                0,
                standard_text(self@, kind),
            ),
    {
        let a = self.magnitude();
        let fraction = a % 10_000_000;
        let total_seconds = a / 10_000_000;
        let seconds = total_seconds % 60;
        let total_minutes = total_seconds / 60;
        let minutes = total_minutes % 60;
        let total_hours = total_minutes / 60;
        let hours = total_hours % 24;
        let days = total_hours / 24;
        let negative = self.ticks() < 0;
        let short = kind == StandardFormat::GeneralShort;

        let ghost st = sign_text(self@);
        let ghost dt = day_text(days as nat, kind);
        let ghost ct = clock_text(hours as nat, minutes as nat, seconds as nat, short);
        let ghost ft = fraction_text(fraction as nat, kind);
        proof {
            lemma_pad_digits_shape(hours as nat, 1);
            lemma_pad_digits_shape(hours as nat, 2);
            lemma_pad_digits_shape(minutes as nat, 2);
            lemma_pad_digits_shape(seconds as nat, 2);
            assert(standard_text(self@, kind) == st + dt + ct + ft);
        }

        let sign_len: usize = if negative { 1 } else { 0 };
        let hour_len: usize = if short && hours < 10 { 1 } else { 2 };
        let required = sign_len + day_text_len(days, kind) + hour_len + 6 + fraction_text_len(
            fraction,
            kind,
        );
        assert(required == standard_text(self@, kind).len());
        if destination.len() < required {
            return Err(TimeSpanError::InsufficientBuffer);
        }

        let ghost start = destination@;
        let mut pos: usize = 0;
        if negative {
            pos = write_char(destination, 0, '-');
        } else {
            assert(destination@ =~= written_at(start, 0, st));
        }
        let p2 = write_day_text(destination, pos, days, kind);
        proof {
            lemma_written_at_compose(start, 0, st, dt);
        }
        let p3 = write_clock_text(destination, p2, hours, minutes, seconds, short);
        proof {
            lemma_written_at_compose(start, 0, st + dt, ct);
        }
        let p4 = write_fraction_text(destination, p3, fraction, kind);
        proof {
            lemma_written_at_compose(start, 0, st + dt + ct, ft);
        }
        Ok(p4)
    }

    /// Writes this span under a standard or custom format string as UTF-8 at the start of
    /// `destination`, returning the number of bytes written. An invalid format string is
    /// `InvalidFormat` whatever the buffer; a valid one whose text does not fit is
    /// `InsufficientBuffer`. On any error nothing is written; bytes past the text are left
    /// as they were.
    pub fn try_format(&self, destination: &mut [u8], format: &str) -> (r: Result<
        usize,
        TimeSpanError,
    >)
        ensures
            match format_text(self@, format@) {
                Err(e) => r == Err::<usize, TimeSpanError>(e) && final(destination)@
                    == old(destination)@,
                Ok(text) => {
                    let bytes = encode_utf8(text);
                    if old(destination)@.len() < bytes.len() {
                        r == Err::<usize, TimeSpanError>(TimeSpanError::InsufficientBuffer)
                            && final(destination)@ == old(destination)@
                    } else {
                        r == Ok::<usize, TimeSpanError>(bytes.len() as usize)
                            && final(destination)@ == bytes + old(destination)@.skip(
                            bytes.len() as int,
                        )
                    }
                },
            },
    {
        let f = str_to_chars(format);
        let standard = if f.len() == 0 {
            Some(StandardFormat::Constant)
        } else if f.len() == 1 {
            let c = f[0];
            if c == 'c' || c == 't' || c == 'T' {
                Some(StandardFormat::Constant)
            } else if c == 'g' {
                Some(StandardFormat::GeneralShort)
            } else if c == 'G' {
                Some(StandardFormat::GeneralLong)
            } else {
                return Err(TimeSpanError::InvalidFormat);
            }
        } else {
            None
        };
        match standard {
            Some(kind) => {
                let ghost text = standard_text(self@, kind);
                proof {
                    lemma_standard_text_ascii(self@, kind);
                    is_ascii_chars_encode_utf8(text);
                    assert(ascii_bytes(text) =~= encode_utf8(text));
                    assert(old(destination)@.take(0) + ascii_bytes(text) =~= ascii_bytes(text));
                }
                self.try_format_standard(kind, destination)
            },
            None => {
                let chars = format_customized(self, &f)?;
                let s = chars_to_string(&chars);
                let bytes = s.as_str().as_bytes();
                let n = bytes.len();
                if destination.len() < n {
                    return Err(TimeSpanError::InsufficientBuffer);
                }
                let ghost start = destination@;
                let mut k: usize = 0;
                while k < n
                    invariant
                        n == bytes@.len(),
                        n <= start.len(),
                        k <= n,
                        destination@ == bytes@.take(k as int) + start.skip(k as int),
                    decreases n - k,
                {
                    destination[k] = bytes[k];
                    k = k + 1;
                    assert(destination@ =~= bytes@.take(k as int) + start.skip(k as int));
                }
                assert(bytes@.take(n as int) =~= bytes@);
                Ok(n)
            },
        }
    }

    /// The characters of this span under a format string given as characters.
    pub(crate) fn format_chars(&self, f: &Vec<char>) -> (r: Result<Vec<char>, TimeSpanError>)
        ensures
            match r {
                Ok(v) => format_text(self@, f@) == Ok::<Seq<char>, TimeSpanError>(v@),
                Err(e) => format_text(self@, f@) == Err::<Seq<char>, TimeSpanError>(e),
            },
    {
        if f.len() == 0 {
            Ok(self.standard_chars(StandardFormat::Constant))
        } else if f.len() == 1 {
            let c = f[0];
            if c == 'c' || c == 't' || c == 'T' {
                Ok(self.standard_chars(StandardFormat::Constant))
            } else if c == 'g' {
                Ok(self.standard_chars(StandardFormat::GeneralShort))
            } else if c == 'G' {
                Ok(self.standard_chars(StandardFormat::GeneralLong))
            } else {
                Err(TimeSpanError::InvalidFormat)
            }
        } else {
            format_customized(self, f)
        }
    }
}

} // verus!

use vstd::prelude::*;

use crate::digits::{digit_value, digits_value, is_digit, lemma_digits_value_prefix, pow10};
use crate::error::TimeSpanError;
use crate::parse::{is_digit_char, lemma_run_end, run_end, signed_from_magnitude};
use crate::time_span::{res_view, TimeSpan};

verus! {

/// The character at `pos`, or `'\0'` past either end.
pub open spec fn ch_at(s: Seq<char>, pos: int) -> char {
    if 0 <= pos < s.len() { s[pos] } else { '\0' }
}

/// The first position at or after `pos` that is not a space or a tab.
pub open spec fn skip_blanks(s: Seq<char>, pos: int) -> int
    decreases s.len() - pos,
{
    if 0 <= pos < s.len() && (s[pos] == ' ' || s[pos] == '\t') {
        skip_blanks(s, pos + 1)
    } else {
        pos
    }
}

/// Reads the digits at `pos` as a number at most `max`, with the position after them:
/// `InvalidFormat` when there are none, `Overflow` when the number exceeds `max` or a digit
/// follows a prefix worth `0x1000_0000` or more.
pub open spec fn constant_int(s: Seq<char>, pos: int, max: int) -> Result<(int, int), TimeSpanError> {
    let end = run_end(s, pos, true);
    let run = s.subrange(pos, end);
    if run.len() >= 2 && digits_value(run.drop_last()) >= 0x1000_0000 {
        Err(TimeSpanError::Overflow)
    } else if run.len() == 0 {
        Err(TimeSpanError::InvalidFormat)
    } else if digits_value(run) > max {
        Err(TimeSpanError::Overflow)
    } else {
        Ok((digits_value(run), end))
    }
}

/// Reads at most `k` fraction digits at `pos`, the first worth `10^(k-1)` ticks, the next a
/// tenth of that, and so on; gives their worth and the position after them.
pub open spec fn constant_fraction(s: Seq<char>, pos: int, k: nat) -> (int, int)
    decreases k,
{
    if k > 0 && is_digit(ch_at(s, pos)) {
        let rest = constant_fraction(s, pos + 1, (k - 1) as nat);
        (digit_value(s[pos]) * pow10((k - 1) as nat) + rest.0, rest.1)
    } else {
        (0, pos)
    }
}

/// Reads `hh:mm[:[ss][.fffffff]]` at `pos`: hours at most 23, minutes and seconds at most 59,
/// up to seven fraction digits; gives the ticks and the position after.
pub open spec fn constant_time(s: Seq<char>, pos: int) -> Result<(int, int), TimeSpanError> {
    match constant_int(s, pos, 23) {
        Err(e) => Err(e),
        Ok((h, p1)) => if ch_at(s, p1) != ':' {
            Err(TimeSpanError::InvalidFormat)
        } else {
            match constant_int(s, p1 + 1, 59) {
                Err(e) => Err(e),
                Ok((m, p2)) => {
                    let t = h * 36_000_000_000 + m * 600_000_000;
                    if ch_at(s, p2) == ':' {
                        let p3 = p2 + 1;
                        let sec = if ch_at(s, p3) != '.' {
                            constant_int(s, p3, 59)
                        } else {
                            Ok((0, p3))
                        };
                        match sec {
                            Err(e) => Err(e),
                            Ok((sv, p4)) => if ch_at(s, p4) == '.' {
                                let fr = constant_fraction(s, p4 + 1, 7);
                                Ok((t + sv * 10_000_000 + fr.0, fr.1))
                            } else {
                                Ok((t + sv * 10_000_000, p4))
                            },
                        }
                    } else {
                        Ok((t, p2))
                    }
                },
            }
        },
    }
}

/// The ticks the constant layout `[ws][-]{ d | [d.]hh:mm[:[ss][.fffffff]] }[ws]` gives for
/// `s`, where `ws` is spaces and tabs and days are at most 10675199: `InvalidFormat` for text
/// of another shape, `Overflow` for a component or total out of range.
pub open spec fn constant_text(s: Seq<char>) -> Result<int, TimeSpanError> {
    let p0 = skip_blanks(s, 0);
    let negative = ch_at(s, p0) == '-';
    let p1 = if negative { p0 + 1 } else { p0 };
    let body = if ch_at(s, run_end(s, p1, true)) == ':' {
        constant_time(s, p1)
    } else {
        match constant_int(s, p1, 10_675_199) {
            Err(e) => Err(e),
            Ok((d, p)) => if ch_at(s, p) == '.' {
                match constant_time(s, p + 1) {
                    Err(e) => Err(e),
                    Ok((t, q)) => Ok((d * 864_000_000_000 + t, q)),
                }
            } else {
                Ok((d * 864_000_000_000, p))
            },
        }
    };
    match body {
        Err(e) => Err(e),
        Ok((m, p2)) => {
            let signed = if negative {
                if m <= 9_223_372_036_854_775_808 {
                    Ok(-m)
                } else {
                    Err(TimeSpanError::Overflow)
                }
            } else {
                if m <= i64::MAX {
                    Ok(m)
                } else {
                    Err(TimeSpanError::Overflow)
                }
            };
            match signed {
                Err(e) => Err(e),
                Ok(v) => if skip_blanks(s, p2) < s.len() {
                    Err(TimeSpanError::InvalidFormat)
                } else {
                    Ok(v)
                },
            }
        },
    }
}

/// The worth of at most `k` fraction digits stays below `10^k`.
proof fn lemma_constant_fraction_bound(s: Seq<char>, pos: int, k: nat)
    requires
        pos >= 0,
    ensures
        0 <= constant_fraction(s, pos, k).0 < pow10(k),
        pos <= constant_fraction(s, pos, k).1 <= pos + k,
        constant_fraction(s, pos, k).1 <= s.len() || constant_fraction(s, pos, k).1 == pos,
    decreases k,
{
    if k > 0 && is_digit(ch_at(s, pos)) {
        lemma_constant_fraction_bound(s, pos + 1, (k - 1) as nat);
        let p = pow10((k - 1) as nat);
        assert(pow10(k) == 10 * p);
        let d = digit_value(s[pos]);
        assert(0 <= d <= 9);
        assert(d * p <= 9 * p) by (nonlinear_arith)
            requires
                0 <= d <= 9,
                p >= 0,
        ;
    } else {
        if k == 0 {
            assert(pow10(0) == 1);
        } else {
            lemma_pow10_positive(k);
        }
    }
}

/// Powers of ten are positive.
proof fn lemma_pow10_positive(k: nat)
    ensures
        pow10(k) >= 1,
    decreases k,
{
    if k > 0 {
        lemma_pow10_positive((k - 1) as nat);
    }
}

/// The character at `pos`, or `'\0'` past the end.
fn ch_at_exec(s: &Vec<char>, pos: usize) -> (r: char)
    ensures
        r == ch_at(s@, pos as int),
{
    if pos < s.len() {
        s[pos]
    } else {
        '\0'
    }
}

/// Skips spaces and tabs from `pos` on.
fn skip_blanks_exec(s: &Vec<char>, pos: usize) -> (r: usize)
    requires
        pos <= s@.len(),
    ensures
        r == skip_blanks(s@, pos as int),
        pos <= r <= s@.len(),
{
    let mut p = pos;
    while p < s.len() && (s[p] == ' ' || s[p] == '\t')
        invariant
            pos <= p <= s@.len(),
            skip_blanks(s@, p as int) == skip_blanks(s@, pos as int),
        decreases s@.len() - p,
    {
        p = p + 1;
    }
    p
}

/// Reads a number at `pos`, as `constant_int` describes.
fn constant_int_exec(s: &Vec<char>, pos: usize, max: u64) -> (r: Result<(u64, usize), TimeSpanError>)
    requires
        pos <= s@.len(),
        max <= 10_675_199,
    ensures
        match constant_int(s@, pos as int, max as int) {
            Ok((v, p)) => r matches Ok((rv, rp)) && rv == v && rp == p && pos <= p <= s@.len(),
            Err(e) => r == Err::<(u64, usize), TimeSpanError>(e),
        },
{
    let ghost ss = s@;
    let len = s.len();
    proof {
        lemma_run_end(ss, pos as int, true);
    }
    let ghost end = run_end(ss, pos as int, true);
    let ghost run = ss.subrange(pos as int, end);
    assert forall|j: int| 0 <= j < run.len() implies is_digit(#[trigger] run[j]) by {
        assert(run[j] == ss[pos + j]);
    }
    let mut value: u64 = 0;
    let mut p = pos;
    while p < len && is_digit_char(s[p])
        invariant
            ss == s@,
            len == ss.len(),
            pos <= p <= end,
            end <= len,
            end == run_end(ss, pos as int, true),
            run == ss.subrange(pos as int, end),
            forall|j: int| pos <= j < end ==> is_digit(#[trigger] ss[j]),
            end < len ==> !is_digit(ss[end]),
            value == digits_value(ss.subrange(pos as int, p as int)),
            p > pos ==> digits_value(ss.subrange(pos as int, p - 1)) < 0x1000_0000,
            value < 0x1000_0000 * 10,
        decreases len - p,
    {
        let ghost prev = ss.subrange(pos as int, p as int);
        if value >= 0x1000_0000 {
            proof {
                assert(run.len() >= p - pos + 1);
                let dl = run.drop_last();
                assert forall|j: int| 0 <= j < dl.len() implies is_digit(#[trigger] dl[j]) by {
                    assert(dl[j] == ss[pos + j]);
                }
                lemma_digits_value_prefix(dl, p - pos);
                assert(run.drop_last().take(p - pos) =~= prev);
            }
            return Err(TimeSpanError::Overflow);
        }
        let d = (s[p] as u32 - 48) as u64;
        value = value * 10 + d;
        p = p + 1;
        proof {
            assert(ss.subrange(pos as int, p as int).drop_last() =~= prev);
        }
    }
    assert(p == end);
    assert(ss.subrange(pos as int, p as int) =~= run);
    if p == pos {
        return Err(TimeSpanError::InvalidFormat);
    }
    proof {
        assert(run.drop_last() =~= ss.subrange(pos as int, p - 1));
    }
    if value > max {
        return Err(TimeSpanError::Overflow);
    }
    Ok((value, p))
}

/// Reads up to seven fraction digits at `pos`, as `constant_fraction` describes.
fn constant_fraction_exec(s: &Vec<char>, pos: usize) -> (r: (u64, usize))
    requires
        pos <= s@.len(),
    ensures
        r.0 as int == constant_fraction(s@, pos as int, 7).0,
        r.1 as int == constant_fraction(s@, pos as int, 7).1,
        r.0 < 10_000_000,
        pos <= r.1 <= s@.len(),
{
    let mut value: u64 = 0;
    let mut place: u64 = 10_000_000;
    let mut k: usize = 7;
    let mut p = pos;
    proof {
        reveal_with_fuel(pow10, 8);
        lemma_constant_fraction_bound(s@, pos as int, 7);
    }
    while place > 1 && p < s.len() && is_digit_char(s[p])
        invariant
            pos <= p <= s@.len(),
            k <= 7,
            place == pow10(k as nat),
            place >= 1,
            k > 0 ==> place >= 10,
            value + place <= 10_000_000,
            constant_fraction(s@, pos as int, 7) == (
                value + constant_fraction(s@, p as int, k as nat).0,
                constant_fraction(s@, p as int, k as nat).1,
            ),
        decreases k,
    {
        proof {
            lemma_pow10_positive(k as nat);
            lemma_pow10_positive((k - 1) as nat);
            assert(pow10(k as nat) == 10 * pow10((k - 1) as nat));
        }
        place = place / 10;
        let d = (s[p] as u32 - 48) as u64;
        proof {
            assert(d * place <= 9 * place) by (nonlinear_arith)
                requires
                    d <= 9,
            ;
        }
        value = value + d * place;
        p = p + 1;
        k = k - 1;
    }
    proof {
        if k == 0 {
            assert(place == 1) by {
                reveal_with_fuel(pow10, 1);
            }
        }
    }
    (value, p)
}


/// Reads `hh:mm[:[ss][.fffffff]]` at `pos`, as `constant_time` describes.
fn constant_time_exec(s: &Vec<char>, pos: usize) -> (r: Result<(u64, usize), TimeSpanError>)
    requires
        pos <= s@.len(),
    ensures
        match constant_time(s@, pos as int) {
            Ok((v, p)) => r matches Ok((rv, rp)) && rv == v && rp == p && pos <= p <= s@.len()
                && v < 864_000_000_000,
            Err(e) => r == Err::<(u64, usize), TimeSpanError>(e),
        },
{
    let _len = s.len();
    let (h, p1) = constant_int_exec(s, pos, 23)?;
    if ch_at_exec(s, p1) != ':' {
        return Err(TimeSpanError::InvalidFormat);
    }
    let (m, p2) = constant_int_exec(s, p1 + 1, 59)?;
    let t = h * 36_000_000_000 + m * 600_000_000;
    if ch_at_exec(s, p2) == ':' {
        let p3 = p2 + 1;
        let (sv, p4) = if ch_at_exec(s, p3) != '.' {
            constant_int_exec(s, p3, 59)?
        } else {
            (0, p3)
        };
        if ch_at_exec(s, p4) == '.' {
            let (fv, p5) = constant_fraction_exec(s, p4 + 1);
            Ok((t + sv * 10_000_000 + fv, p5))
        } else {
            Ok((t + sv * 10_000_000, p4))
        }
    } else {
        Ok((t, p2))
    }
}

/// Parses the constant layout, as `constant_text` describes.
pub(crate) fn parse_constant(s: &Vec<char>) -> (r: Result<TimeSpan, TimeSpanError>)
    ensures
        res_view(r) == constant_text(s@),
{
    let _len = s.len();
    let p0 = skip_blanks_exec(s, 0);
    let negative = ch_at_exec(s, p0) == '-';
    let p1 = if negative { p0 + 1 } else { p0 };
    let mut q = p1;
    while q < s.len() && is_digit_char(s[q])
        invariant
            p1 <= q <= s@.len(),
            run_end(s@, p1 as int, true) == run_end(s@, q as int, true),
        decreases s@.len() - q,
    {
        q = q + 1;
    }
    let (m, p2) = if ch_at_exec(s, q) == ':' {
        constant_time_exec(s, p1)?
    } else {
        let (d, p) = constant_int_exec(s, p1, 10_675_199)?;
        if ch_at_exec(s, p) == '.' {
            let (t, q2) = constant_time_exec(s, p + 1)?;
            (d * 864_000_000_000 + t, q2)
        } else {
            (d * 864_000_000_000, p)
        }
    };
    let v = signed_from_magnitude(!negative, m)?;
    let p3 = skip_blanks_exec(s, p2);
    if p3 < s.len() {
        return Err(TimeSpanError::InvalidFormat);
    }
    Ok(TimeSpan::from_ticks(v))
}

} // verus!

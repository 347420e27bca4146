use vstd::prelude::*;

use crate::digits::{
    count_digits, digits_value, is_digit, leading_zeros, lemma_digits_value_prefix,
    lemma_num_digits_at_most,
    lemma_pow10_monotone, num_digits, pow10,
};
use crate::error::TimeSpanError;
use crate::text::str_to_chars;
use crate::time_span::{res_view, TimeSpan};

verus! {

/// Whether `c` has the Unicode `White_Space` property, which is what `char::is_whitespace`
/// and `str::trim` go by.
pub open spec fn is_white_space(c: char) -> bool {
    ('\u{9}' <= c && c <= '\u{d}') || c == ' ' || c == '\u{85}' || c == '\u{a0}' || c
        == '\u{1680}' || ('\u{2000}' <= c && c <= '\u{200a}') || c == '\u{2028}' || c
        == '\u{2029}' || c == '\u{202f}' || c == '\u{205f}' || c == '\u{3000}'
}

/// The first position at or after `i` that is not white space.
pub open spec fn trim_start_at(s: Seq<char>, i: int) -> int
    decreases s.len() - i,
{
    if 0 <= i < s.len() && is_white_space(s[i]) {
        trim_start_at(s, i + 1)
    } else {
        i
    }
}

/// The end of `s` once white space before `j`, but not before `lo`, is dropped.
pub open spec fn trim_end_at(s: Seq<char>, j: int, lo: int) -> int
    decreases j,
{
    if j > lo && j > 0 && is_white_space(s[j - 1]) {
        trim_end_at(s, j - 1, lo)
    } else {
        j
    }
}

/// `s` without leading and trailing white space.
pub open spec fn trim(s: Seq<char>) -> Seq<char> {
    let lo = trim_start_at(s, 0);
    s.subrange(lo, trim_end_at(s, s.len() as int, lo))
}

/// The end of the run of digits (when `digits`) or non-digits (otherwise) starting at `i`.
pub open spec fn run_end(s: Seq<char>, i: int, digits: bool) -> int
    decreases s.len() - i,
{
    if 0 <= i < s.len() && is_digit(s[i]) == digits {
        run_end(s, i + 1, digits)
    } else {
        i
    }
}

/// A run ends within the sequence, not before it starts.
pub proof fn lemma_run_end(s: Seq<char>, i: int, digits: bool)
    requires
        0 <= i <= s.len(),
    ensures
        i <= run_end(s, i, digits) <= s.len(),
        forall|k: int| i <= k < run_end(s, i, digits) ==> is_digit(#[trigger] s[k]) == digits,
        run_end(s, i, digits) < s.len() ==> is_digit(s[run_end(s, i, digits)]) != digits,
    decreases s.len() - i,
{
    if i < s.len() && is_digit(s[i]) == digits {
        lemma_run_end(s, i + 1, digits);
    }
}

/// A run of digits that is known to reach `end` ends there when `end` is no digit.
pub proof fn lemma_run_end_at(s: Seq<char>, i: int, end: int)
    requires
        0 <= i <= end,
        forall|j: int| i <= j < end ==> j < s.len() && is_digit(#[trigger] s[j]),
    ensures
        run_end(s, i, true) >= end,
        end >= s.len() || !is_digit(s[end]) ==> run_end(s, i, true) == end,
{
    if end > i {
        assert(is_digit(s[i]));
    }
    if i <= s.len() {
        lemma_run_end(s, i, true);
        let r = run_end(s, i, true);
        if r < end {
            assert(is_digit(s[r]));
        }
    }
}

/// A token is never empty and ends within the sequence.
pub proof fn lemma_next_token_end(s: Seq<char>, i: int)
    requires
        0 <= i < s.len(),
    ensures
        i < next_token(s, i).1 <= s.len(),
{
    lemma_run_end(s, i, true);
    lemma_run_end(s, i + 1, false);
}

/// The largest value a number in the text may have.
pub open spec fn token_max() -> int {
    0x0FFF_FFFF
}

/// A number of the text: its value and how many zeros it starts with.
pub struct NumSpec {
    pub value: int,
    pub zeroes: nat,
}

/// A token of the text: a maximal run of digits, a maximal run of other characters, or a
/// run of digits whose value exceeds `token_max()`.
pub enum Token {
    Num(NumSpec),
    Sep(Seq<char>),
    TooLarge,
}

/// The token starting at `i` (with `i` inside `s`) and the position after it.
pub open spec fn next_token(s: Seq<char>, i: int) -> (Token, int) {
    if is_digit(s[i]) {
        let end = run_end(s, i, true);
        let run = s.subrange(i, end);
        if digits_value(run) > token_max() {
            (Token::TooLarge, end)
        } else {
            (Token::Num(NumSpec { value: digits_value(run), zeroes: leading_zeros(run) }), end)
        }
    } else {
        let end = run_end(s, i + 1, false);
        (Token::Sep(s.subrange(i, end)), end)
    }
}

/// The numbers and separators read so far, how many tokens they make, and whether the last
/// token was a number.
pub struct RawInfo {
    pub nums: Seq<NumSpec>,
    pub seps: Seq<Seq<char>>,
    pub count: nat,
    pub last_num: bool,
}

/// Nothing read yet.
pub open spec fn raw_empty() -> RawInfo {
    RawInfo { nums: Seq::empty(), seps: Seq::empty(), count: 0, last_num: false }
}

/// Records a separator; at most six separators and eleven tokens are allowed.
pub open spec fn add_sep(raw: RawInfo, sep: Seq<char>) -> Result<RawInfo, TimeSpanError> {
    if raw.seps.len() >= 6 || raw.count >= 11 {
        Err(TimeSpanError::InvalidFormat)
    } else {
        Ok(RawInfo { seps: raw.seps.push(sep), count: raw.count + 1, last_num: false, ..raw })
    }
}

/// Records a number; at most five numbers and eleven tokens are allowed.
pub open spec fn add_num(raw: RawInfo, num: NumSpec) -> Result<RawInfo, TimeSpanError> {
    if raw.nums.len() >= 5 || raw.count >= 11 {
        Err(TimeSpanError::InvalidFormat)
    } else {
        Ok(RawInfo { nums: raw.nums.push(num), count: raw.count + 1, last_num: true, ..raw })
    }
}

/// Records one token; a number that comes first is preceded by an empty separator, and a
/// too-large number is `Overflow`.
pub open spec fn add_token(raw: RawInfo, tok: Token) -> Result<RawInfo, TimeSpanError> {
    match tok {
        Token::TooLarge => Err(TimeSpanError::Overflow),
        Token::Sep(text) => add_sep(raw, text),
        Token::Num(num) => if raw.count == 0 {
            match add_sep(raw, Seq::empty()) {
                Ok(r) => add_num(r, num),
                Err(e) => Err(e),
            }
        } else {
            add_num(raw, num)
        },
    }
}

/// Reads the tokens of `s` from position `i` on into `raw`.
pub open spec fn read_tokens(s: Seq<char>, i: int, raw: RawInfo) -> Result<RawInfo, TimeSpanError>
    decreases s.len() - i,
{
    if i < 0 || i >= s.len() {
        Ok(raw)
    } else {
        let (tok, end) = next_token(s, i);
        proof {
            lemma_next_token_end(s, i);
        }
        match add_token(raw, tok) {
            Ok(r) => read_tokens(s, end, r),
            Err(e) => Err(e),
        }
    }
}

/// The ticks a fraction-of-a-second number stands for: its digits, leading zeros included,
/// read as a decimal fraction and rounded to seven digits; `Overflow` for more than seven
/// significant digits without a leading zero.
pub open spec fn normalize_fraction(f: NumSpec) -> Result<int, TimeSpanError> {
    if f.value == 0 {
        Ok(0)
    } else if f.zeroes == 0 && f.value > 9_999_999 {
        Err(TimeSpanError::Overflow)
    } else {
        let total = num_digits(f.value as nat) + f.zeroes;
        if total == 7 {
            Ok(f.value)
        } else if total < 7 {
            Ok(f.value * pow10((7 - total) as nat))
        } else if f.zeroes > 7 {
            Ok(0)
        } else {
            let p = pow10((total - 7) as nat) as int;
            Ok((f.value + p / 2) / p)
        }
    }
}

/// The largest number of milliseconds a span can hold.
pub open spec fn max_milliseconds() -> int {
    922_337_203_685_477
}

/// The unsigned tick count of days, hours, minutes, seconds and a fraction: `Overflow` when a
/// component is out of range (days beyond 10675199, hours beyond 23, minutes or seconds
/// beyond 59), when the fraction overflows, or when the whole milliseconds exceed
/// `max_milliseconds()`.
pub open spec fn ticks_magnitude(
    days: NumSpec,
    hours: NumSpec,
    minutes: NumSpec,
    seconds: NumSpec,
    fraction: NumSpec,
) -> Result<int, TimeSpanError> {
    if days.value > 10_675_199 || hours.value > 23 || minutes.value > 59 || seconds.value > 59 {
        Err(TimeSpanError::Overflow)
    } else {
        match normalize_fraction(fraction) {
            Err(e) => Err(e),
            Ok(frac) => {
                let ms = (days.value * 86_400 + hours.value * 3_600 + minutes.value * 60
                    + seconds.value) * 1_000;
                if ms > max_milliseconds() {
                    Err(TimeSpanError::Overflow)
                } else {
                    Ok(ms * 10_000 + frac)
                }
            },
        }
    }
}

/// The signed tick count of days, hours, minutes, seconds and a fraction taken as positive or
/// negative: `ticks_magnitude`, negated when not positive, and `Overflow` when the result
/// does not fit in a span.
pub open spec fn signed_ticks(
    positive: bool,
    days: NumSpec,
    hours: NumSpec,
    minutes: NumSpec,
    seconds: NumSpec,
    fraction: NumSpec,
) -> Result<int, TimeSpanError> {
    match ticks_magnitude(days, hours, minutes, seconds, fraction) {
        Err(e) => Err(e),
        Ok(magnitude) => if positive {
            if magnitude <= i64::MAX {
                Ok(magnitude)
            } else {
                Err(TimeSpanError::Overflow)
            }
        } else {
            if magnitude <= 9_223_372_036_854_775_808 {
                Ok(-magnitude)
            } else {
                Err(TimeSpanError::Overflow)
            }
        },
    }
}

/// One reading of the numbers: whether the separators match it, its sign, and which number
/// is the days, hours, minutes, seconds and fraction.
pub struct Candidate {
    pub matched: bool,
    pub positive: bool,
    pub days: NumSpec,
    pub hours: NumSpec,
    pub minutes: NumSpec,
    pub seconds: NumSpec,
    pub fraction: NumSpec,
}

/// Tries the candidate readings from `i` on, in order: the first one whose separators match
/// and whose values are in range gives the result; when none does, `Overflow` if some
/// matching reading was out of range, `InvalidFormat` otherwise.
pub open spec fn try_candidates(c: Seq<Candidate>, i: int, overflow: bool) -> Result<
    int,
    TimeSpanError,
>
    decreases c.len() - i,
{
    if i < 0 || i >= c.len() {
        if overflow {
            Err(TimeSpanError::Overflow)
        } else {
            Err(TimeSpanError::InvalidFormat)
        }
    } else if !c[i].matched {
        try_candidates(c, i + 1, overflow)
    } else {
        match signed_ticks(
            c[i].positive,
            c[i].days,
            c[i].hours,
            c[i].minutes,
            c[i].seconds,
            c[i].fraction,
        ) {
            Ok(t) => Ok(t),
            Err(TimeSpanError::Overflow) => try_candidates(c, i + 1, true),
            Err(e) => Err(e),
        }
    }
}

/// The number zero with no leading zeros, standing for an absent component.
pub open spec fn num_zero() -> NumSpec {
    NumSpec { value: 0, zeroes: 0 }
}

/// Whether a separator may stand between days and hours: `:` always, `.` when allowed.
pub open spec fn is_day_hour_sep(sep: Seq<char>, allow_dot: bool) -> bool {
    sep == seq![':'] || (allow_dot && sep == seq!['.'])
}

/// Whether a separator is the sign that may start the text: nothing, or `-`.
pub open spec fn sign_sep(sep: Seq<char>, positive: bool) -> bool {
    if positive { sep == Seq::<char>::empty() } else { sep == seq!['-'] }
}

/// A candidate reading built from its parts.
pub open spec fn cand(
    matched: bool,
    positive: bool,
    d: NumSpec,
    h: NumSpec,
    m: NumSpec,
    s: NumSpec,
    f: NumSpec,
) -> Candidate {
    Candidate { matched, positive, days: d, hours: h, minutes: m, seconds: s, fraction: f }
}

/// The readings of one number: `d`, positive then negative.
pub open spec fn candidates_1(n: Seq<NumSpec>, s: Seq<Seq<char>>) -> Seq<Candidate> {
    let z = num_zero();
    let end = s[1] == Seq::<char>::empty();
    seq![
        cand(sign_sep(s[0], true) && end, true, n[0], z, z, z, z),
        cand(sign_sep(s[0], false) && end, false, n[0], z, z, z, z),
    ]
}

/// The readings of two numbers: `h:m`, positive then negative.
pub open spec fn candidates_2(n: Seq<NumSpec>, s: Seq<Seq<char>>) -> Seq<Candidate> {
    let z = num_zero();
    let rest = s[1] == seq![':'] && s[2] == Seq::<char>::empty();
    seq![
        cand(sign_sep(s[0], true) && rest, true, z, n[0], n[1], z, z),
        cand(sign_sep(s[0], false) && rest, false, z, n[0], n[1], z, z),
    ]
}

/// The readings of three numbers, `h:m:s`, `d.h:m` and `h:m:.f`, positive then negative.
pub open spec fn candidates_3(n: Seq<NumSpec>, s: Seq<Seq<char>>, allow_dot: bool) -> Seq<
    Candidate,
> {
    let z = num_zero();
    let end = s[3] == Seq::<char>::empty();
    let hms = s[1] == seq![':'] && s[2] == seq![':'] && end;
    let dhm = is_day_hour_sep(s[1], allow_dot) && s[2] == seq![':'] && end;
    let hmf = s[1] == seq![':'] && s[2] == seq![':', '.'] && end;
    seq![
        cand(sign_sep(s[0], true) && hms, true, z, n[0], n[1], n[2], z),
        cand(sign_sep(s[0], true) && dhm, true, n[0], n[1], n[2], z, z),
        cand(sign_sep(s[0], true) && hmf, true, z, n[0], n[1], z, n[2]),
        cand(sign_sep(s[0], false) && hms, false, z, n[0], n[1], n[2], z),
        cand(sign_sep(s[0], false) && dhm, false, n[0], n[1], n[2], z, z),
        cand(sign_sep(s[0], false) && hmf, false, z, n[0], n[1], z, n[2]),
    ]
}

/// The readings of four numbers, `h:m:s.f`, `d.h:m:s` and `d.h:m:.f`, positive then negative.
pub open spec fn candidates_4(n: Seq<NumSpec>, s: Seq<Seq<char>>, allow_dot: bool) -> Seq<
    Candidate,
> {
    let z = num_zero();
    let end = s[4] == Seq::<char>::empty();
    let hmsf = s[1] == seq![':'] && s[2] == seq![':'] && s[3] == seq!['.'] && end;
    let dhms = is_day_hour_sep(s[1], allow_dot) && s[2] == seq![':'] && s[3] == seq![':'] && end;
    let dhmf = is_day_hour_sep(s[1], allow_dot) && s[2] == seq![':'] && s[3] == seq![':', '.']
        && end;
    seq![
        cand(sign_sep(s[0], true) && hmsf, true, z, n[0], n[1], n[2], n[3]),
        cand(sign_sep(s[0], true) && dhms, true, n[0], n[1], n[2], n[3], z),
        cand(sign_sep(s[0], true) && dhmf, true, n[0], n[1], n[2], z, n[3]),
        cand(sign_sep(s[0], false) && hmsf, false, z, n[0], n[1], n[2], n[3]),
        cand(sign_sep(s[0], false) && dhms, false, n[0], n[1], n[2], n[3], z),
        cand(sign_sep(s[0], false) && dhmf, false, n[0], n[1], n[2], z, n[3]),
    ]
}

/// The readings of five numbers: `d.h:m:s.f`, positive then negative.
pub open spec fn candidates_5(n: Seq<NumSpec>, s: Seq<Seq<char>>, allow_dot: bool) -> Seq<
    Candidate,
> {
    let rest = is_day_hour_sep(s[1], allow_dot) && s[2] == seq![':'] && s[3] == seq![':'] && s[4]
        == seq!['.'] && s[5] == Seq::<char>::empty();
    seq![
        cand(sign_sep(s[0], true) && rest, true, n[0], n[1], n[2], n[3], n[4]),
        cand(sign_sep(s[0], false) && rest, false, n[0], n[1], n[2], n[3], n[4]),
    ]
}

/// The readings of the numbers and separators read from a text.
pub open spec fn candidates(raw: RawInfo, allow_dot: bool) -> Seq<Candidate> {
    let n = raw.nums;
    let s = raw.seps;
    if n.len() == 1 {
        candidates_1(n, s)
    } else if n.len() == 2 {
        candidates_2(n, s)
    } else if n.len() == 3 {
        candidates_3(n, s, allow_dot)
    } else if n.len() == 4 {
        candidates_4(n, s, allow_dot)
    } else {
        candidates_5(n, s, allow_dot)
    }
}

/// The span a trimmed, tokenized text stands for.
pub open spec fn interpret_raw(raw: RawInfo, allow_dot: bool, require_full: bool) -> Result<
    int,
    TimeSpanError,
> {
    let closed = if raw.last_num { add_sep(raw, Seq::empty()) } else { Ok(raw) };
    match closed {
        Err(e) => Err(e),
        Ok(r) => if require_full && r.nums.len() != 5 {
            Err(TimeSpanError::InvalidFormat)
        } else if r.nums.len() < 1 || r.nums.len() > 5 {
            Err(TimeSpanError::InvalidFormat)
        } else {
            try_candidates(candidates(r, allow_dot), 0, false)
        },
    }
}

/// The tick count the text `s` stands for: surrounding white space is ignored, the rest is
/// split into numbers and separators, and the separators decide which numbers are the days,
/// hours, minutes, seconds and fraction, with an optional leading `-`. `allow_dot` lets `.`
/// as well as `:` separate days from hours; `require_full` demands all five numbers.
pub open spec fn parse_text(s: Seq<char>, allow_dot: bool, require_full: bool) -> Result<
    int,
    TimeSpanError,
> {
    let t = trim(s);
    if t.len() == 0 {
        Err(TimeSpanError::InvalidFormat)
    } else {
        match read_tokens(t, 0, raw_empty()) {
            Err(e) => Err(e),
            Ok(raw) => interpret_raw(raw, allow_dot, require_full),
        }
    }
}


/// Whether `c` has the Unicode `White_Space` property.
pub(crate) fn is_white_space_char(c: char) -> (r: bool)
    ensures
        r == is_white_space(c),
{
    ('\u{9}' <= c && c <= '\u{d}') || c == ' ' || c == '\u{85}' || c == '\u{a0}' || c
        == '\u{1680}' || ('\u{2000}' <= c && c <= '\u{200a}') || c == '\u{2028}' || c
        == '\u{2029}' || c == '\u{202f}' || c == '\u{205f}' || c == '\u{3000}'
}

/// Whether `c` is an ASCII digit.
pub(crate) fn is_digit_char(c: char) -> (r: bool)
    ensures
        r == is_digit(c),
{
    '0' <= c && c <= '9'
}

/// The characters of `s` without leading and trailing white space.
pub(crate) fn trim_chars(s: &Vec<char>) -> (r: Vec<char>)
    ensures
        r@ == trim(s@),
{
    let len = s.len();
    let mut lo: usize = 0;
    while lo < len && is_white_space_char(s[lo])
        invariant
            len == s@.len(),
            lo <= len,
            trim_start_at(s@, lo as int) == trim_start_at(s@, 0),
        decreases len - lo,
    {
        lo = lo + 1;
    }
    let mut hi: usize = len;
    while hi > lo && is_white_space_char(s[hi - 1])
        invariant
            len == s@.len(),
            lo <= hi <= len,
            lo == trim_start_at(s@, 0),
            trim_end_at(s@, hi as int, lo as int) == trim_end_at(s@, len as int, lo as int),
        decreases hi,
    {
        hi = hi - 1;
    }
    let mut r: Vec<char> = Vec::new();
    let mut k = lo;
    while k < hi
        invariant
            len == s@.len(),
            lo <= k <= hi <= len,
            r@ == s@.subrange(lo as int, k as int),
        decreases hi - k,
    {
        r.push(s[k]);
        k = k + 1;
        assert(r@ =~= s@.subrange(lo as int, k as int));
    }
    r
}

/// A number of the text: its value (at most `token_max()`) and its leading zero count.
#[derive(Clone, Copy)]
pub struct NumTok {
    pub value: u64,
    pub zeroes: usize,
}

impl View for NumTok {
    type V = NumSpec;

    open spec fn view(&self) -> NumSpec {
        NumSpec { value: self.value as int, zeroes: self.zeroes as nat }
    }
}

/// A token as `next_token` describes it.
pub enum ExecToken {
    Num(NumTok),
    Sep(Vec<char>),
    TooLarge,
}

impl View for ExecToken {
    type V = Token;

    open spec fn view(&self) -> Token {
        match self {
            ExecToken::Num(n) => Token::Num(n@),
            ExecToken::Sep(v) => Token::Sep(v@),
            ExecToken::TooLarge => Token::TooLarge,
        }
    }
}

/// The token starting at `i` and the position after it.
pub(crate) fn next_token_exec(t: &Vec<char>, i: usize) -> (r: (ExecToken, usize))
    requires
        i < t@.len(),
    ensures
        (r.0@, r.1 as int) == next_token(t@, i as int),
{
    let len = t.len();
    let ghost ts = t@;
    if is_digit_char(t[i]) {
        let mut end = i;
        while end < len && is_digit_char(t[end])
            invariant
                len == ts.len(),
                ts == t@,
                i <= end <= len,
                run_end(ts, i as int, true) == run_end(ts, end as int, true),
            decreases len - end,
        {
            end = end + 1;
        }
        proof {
            lemma_run_end(ts, i as int, true);
        }
        let ghost run = ts.subrange(i as int, end as int);
        let mut value: u64 = 0;
        let mut k = i;
        while k < end
            invariant
                len == ts.len(),
                ts == t@,
                i <= k <= end <= len,
                end == run_end(ts, i as int, true),
                run == ts.subrange(i as int, end as int),
                forall|j: int| i <= j < end ==> is_digit(#[trigger] ts[j]),
                value == digits_value(ts.subrange(i as int, k as int)),
                value <= token_max(),
            decreases end - k,
        {
            assert(is_digit(ts[k as int]));
            let d = (t[k] as u32 - 48) as u64;
            let ghost prev = ts.subrange(i as int, k as int);
            value = value * 10 + d;
            k = k + 1;
            proof {
                assert(ts.subrange(i as int, k as int).drop_last() =~= prev);
            }
            if value > 0x0FFF_FFFF {
                proof {
                    assert forall|j: int| 0 <= j < run.len() implies is_digit(#[trigger] run[j]) by {
                        assert(run[j] == ts[i + j]);
                    }
                    lemma_digits_value_prefix(run, k - i);
                    assert(run.take(k - i) =~= ts.subrange(i as int, k as int));
                }
                return (ExecToken::TooLarge, end);
            }
        }
        let mut zeroes: usize = 0;
        assert(run.skip(0) =~= run);
        while i + zeroes < end && t[i + zeroes] == '0'
            invariant
                len == ts.len(),
                ts == t@,
                i + zeroes <= end <= len,
                run == ts.subrange(i as int, end as int),
                leading_zeros(run) == zeroes + leading_zeros(run.skip(zeroes as int)),
            decreases end - (i + zeroes),
        {
            let ghost rest = run.skip(zeroes as int);
            assert(rest[0] == ts[i + zeroes]);
            assert(rest.drop_first() =~= run.skip(zeroes + 1));
            zeroes = zeroes + 1;
        }
        proof {
            let rest = run.skip(zeroes as int);
            assert(leading_zeros(rest) == 0);
            assert(ts.subrange(i as int, k as int) =~= run);
        }
        (ExecToken::Num(NumTok { value, zeroes }), end)
    } else {
        let mut end = i + 1;
        while end < len && !is_digit_char(t[end])
            invariant
                len == ts.len(),
                ts == t@,
                i < end <= len,
                run_end(ts, i + 1, false) == run_end(ts, end as int, false),
            decreases len - end,
        {
            end = end + 1;
        }
        let mut sep: Vec<char> = Vec::new();
        let mut k = i;
        while k < end
            invariant
                len == ts.len(),
                ts == t@,
                i <= k <= end <= len,
                sep@ == ts.subrange(i as int, k as int),
            decreases end - k,
        {
            sep.push(t[k]);
            k = k + 1;
            assert(sep@ =~= ts.subrange(i as int, k as int));
        }
        (ExecToken::Sep(sep), end)
    }
}


/// The separators' character sequences.
pub open spec fn seps_view(seps: Seq<Vec<char>>) -> Seq<Seq<char>> {
    seps.map_values(|v: Vec<char>| v@)
}

/// The numbers' values and leading zero counts.
pub open spec fn nums_view(nums: Seq<NumTok>) -> Seq<NumSpec> {
    nums.map_values(|n: NumTok| n@)
}

/// The numbers and separators read so far, as `RawInfo` describes.
pub struct ExecRaw {
    pub nums: Vec<NumTok>,
    pub seps: Vec<Vec<char>>,
    pub count: usize,
    pub last_num: bool,
}

impl View for ExecRaw {
    type V = RawInfo;

    open spec fn view(&self) -> RawInfo {
        RawInfo {
            nums: nums_view(self.nums@),
            seps: seps_view(self.seps@),
            count: self.count as nat,
            last_num: self.last_num,
        }
    }
}

/// The shape every successful reading of tokens has: as many tokens as numbers and
/// separators, numbers within `token_max()`, and separators and numbers alternating, starting
/// with a separator.
pub open spec fn raw_well_formed(raw: ExecRaw) -> bool {
    &&& raw.count == raw.nums@.len() + raw.seps@.len()
    &&& raw.count <= 11
    &&& raw.nums@.len() <= 5
    &&& raw.seps@.len() <= 6
    &&& raw.count > 0 ==> raw.seps@.len() == raw.nums@.len() + (if raw.last_num { 0int } else { 1 })
    &&& forall|k: int| 0 <= k < raw.nums@.len() ==> #[trigger] raw.nums@[k].value <= token_max()
}

/// Records a separator, as `add_sep` describes.
fn add_sep_exec(raw: &mut ExecRaw, sep: Vec<char>) -> (r: Result<(), TimeSpanError>)
    requires
        old(raw).count == old(raw).nums@.len() + old(raw).seps@.len(),
    ensures
        r is Ok ==> final(raw).nums@ == old(raw).nums@ && final(raw).seps@.len() == old(
            raw,
        ).seps@.len() + 1 && final(raw).count == old(raw).count + 1 && !final(raw).last_num,
        match add_sep(old(raw)@, sep@) {
            Ok(v) => r is Ok && final(raw)@ == v,
            Err(e) => r == Err::<(), TimeSpanError>(e),
        },
{
    if raw.seps.len() >= 6 || raw.count >= 11 {
        return Err(TimeSpanError::InvalidFormat);
    }
    let ghost before = raw@;
    raw.seps.push(sep);
    raw.count = raw.count + 1;
    raw.last_num = false;
    assert(raw@.seps =~= before.seps.push(sep@));
    assert(raw@.nums =~= before.nums);
    Ok(())
}

/// Records a number, as `add_num` describes.
fn add_num_exec(raw: &mut ExecRaw, num: NumTok) -> (r: Result<(), TimeSpanError>)
    requires
        old(raw).count == old(raw).nums@.len() + old(raw).seps@.len(),
    ensures
        r is Ok ==> final(raw).nums@ == old(raw).nums@.push(num) && final(raw).seps@ == old(
            raw,
        ).seps@ && final(raw).count == old(raw).count + 1 && final(raw).last_num,
        match add_num(old(raw)@, num@) {
            Ok(v) => r is Ok && final(raw)@ == v,
            Err(e) => r == Err::<(), TimeSpanError>(e),
        },
{
    if raw.nums.len() >= 5 || raw.count >= 11 {
        return Err(TimeSpanError::InvalidFormat);
    }
    let ghost before = raw@;
    raw.nums.push(num);
    raw.count = raw.count + 1;
    raw.last_num = true;
    assert(raw@.nums =~= before.nums.push(num@));
    assert(raw@.seps =~= before.seps);
    Ok(())
}

/// Reads the tokens of a trimmed text, as `read_tokens` describes.
fn read_tokens_exec(t: &Vec<char>) -> (r: Result<ExecRaw, TimeSpanError>)
    ensures
        match read_tokens(t@, 0, raw_empty()) {
            Ok(v) => r is Ok && r->Ok_0@ == v,
            Err(e) => r is Err && r->Err_0 == e,
        },
        r matches Ok(raw) ==> raw_well_formed(raw),
{
    let len = t.len();
    let mut raw = ExecRaw { nums: Vec::new(), seps: Vec::new(), count: 0, last_num: false };
    assert(raw@ == raw_empty()) by {
        assert(raw@.nums =~= Seq::<NumSpec>::empty());
        assert(raw@.seps =~= Seq::<Seq<char>>::empty());
    }
    let mut i: usize = 0;
    while i < len
        invariant
            len == t@.len(),
            i <= len,
            read_tokens(t@, 0, raw_empty()) == read_tokens(t@, i as int, raw@),
            raw_well_formed(raw),
            raw.count > 0 && i < len ==> is_digit(t@[i as int]) != raw.last_num,
            raw.count == 0 ==> i == 0,
        decreases len - i,
    {
        let (tok, end) = next_token_exec(t, i);
        proof {
            lemma_next_token_end(t@, i as int);
            lemma_run_end(t@, i as int, true);
            lemma_run_end(t@, i + 1, false);
        }
        let ghost before = raw@;
        match tok {
            ExecToken::TooLarge => {
                return Err(TimeSpanError::Overflow);
            },
            ExecToken::Sep(text) => {
                match add_sep_exec(&mut raw, text) {
                    Ok(()) => {},
                    Err(e) => {
                        return Err(e);
                    },
                }
            },
            ExecToken::Num(num) => {
                if raw.count == 0 {
                    match add_sep_exec(&mut raw, Vec::new()) {
                        Ok(()) => {},
                        Err(e) => {
                            return Err(e);
                        },
                    }
                }
                match add_num_exec(&mut raw, num) {
                    Ok(()) => {},
                    Err(e) => {
                        return Err(e);
                    },
                }
            },
        }
        i = end;
    }
    Ok(raw)
}


/// `10^p` for `p <= 9`.
fn pow10_small(p: usize) -> (r: u64)
    requires
        p <= 9,
    ensures
        r == pow10(p as nat),
        1 <= r <= 1_000_000_000,
{
    let mut r: u64 = 1;
    let mut k: usize = 0;
    proof {
        reveal_with_fuel(pow10, 10);
    }
    while k < p
        invariant
            k <= p <= 9,
            r == pow10(k as nat),
            pow10(9) == 1_000_000_000,
        decreases p - k,
    {
        proof {
            lemma_pow10_monotone((k + 1) as nat, 9);
        }
        r = r * 10;
        k = k + 1;
    }
    proof {
        lemma_pow10_monotone(k as nat, 9);
        lemma_pow10_monotone(0, k as nat);
    }
    r
}

/// The ticks of a fraction-of-a-second number, as `normalize_fraction` describes.
fn normalize_fraction_exec(f: NumTok) -> (r: Result<u64, TimeSpanError>)
    requires
        f.value <= token_max(),
    ensures
        match normalize_fraction(f@) {
            Ok(v) => r == Ok::<u64, TimeSpanError>(v as u64) && 0 <= v <= u64::MAX,
            Err(e) => r == Err::<u64, TimeSpanError>(e),
        },
        r matches Ok(v) ==> v <= 1_000_000_000_000_000_000,
{
    if f.value == 0 {
        return Ok(0);
    }
    if f.zeroes == 0 && f.value > 9_999_999 {
        return Err(TimeSpanError::Overflow);
    }
    let nd = count_digits(f.value);
    proof {
        reveal_with_fuel(pow10, 10);
        lemma_num_digits_at_most(f.value as nat, 9);
    }
    if f.zeroes > 7 {
        return Ok(0);
    }
    let total = nd + f.zeroes;
    if total == 7 {
        Ok(f.value)
    } else if total < 7 {
        let p = pow10_small(7 - total);
        assert(f.value * p <= 268_435_455_000_000_000) by (nonlinear_arith)
            requires
                f.value <= 268_435_455,
                p <= 1_000_000_000,
        ;
        assert(f.value * p <= 1_000_000_000_000_000_000);
        Ok(f.value * p)
    } else {
        let p = pow10_small(total - 7);
        let q = (f.value + p / 2) / p;
        assert(q <= f.value + p / 2) by (nonlinear_arith)
            requires
                p >= 1,
                q == (f.value + p / 2) as int / p as int,
        ;
        assert(q <= 1_000_000_000_000_000_000);
        Ok(q)
    }
}

/// The unsigned tick count of the given components, as `ticks_magnitude` describes.
pub(crate) fn ticks_magnitude_exec(
    days: NumTok,
    hours: NumTok,
    minutes: NumTok,
    seconds: NumTok,
    fraction: NumTok,
) -> (r: Result<u64, TimeSpanError>)
    requires
        fraction.value <= token_max(),
    ensures
        match ticks_magnitude(days@, hours@, minutes@, seconds@, fraction@) {
            Ok(v) => r == Ok::<u64, TimeSpanError>(v as u64) && 0 <= v
                <= 9_223_372_036_854_770_000 + 1_000_000_000_000_000_000,
            Err(e) => r == Err::<u64, TimeSpanError>(e),
        },
{
    if days.value > 10_675_199 || hours.value > 23 || minutes.value > 59 || seconds.value > 59 {
        return Err(TimeSpanError::Overflow);
    }
    let frac = normalize_fraction_exec(fraction)?;
    let ms: u64 = (days.value * 86_400 + hours.value * 3_600 + minutes.value * 60
        + seconds.value) * 1_000;
    if ms > 922_337_203_685_477 {
        return Err(TimeSpanError::Overflow);
    }
    Ok(ms * 10_000 + frac)
}

/// The signed tick count of the given components, as `signed_ticks` describes.
fn signed_ticks_exec(
    positive: bool,
    days: NumTok,
    hours: NumTok,
    minutes: NumTok,
    seconds: NumTok,
    fraction: NumTok,
) -> (r: Result<i64, TimeSpanError>)
    requires
        fraction.value <= token_max(),
    ensures
        match signed_ticks(positive, days@, hours@, minutes@, seconds@, fraction@) {
            Ok(v) => r == Ok::<i64, TimeSpanError>(v as i64) && i64::MIN <= v <= i64::MAX,
            Err(e) => r == Err::<i64, TimeSpanError>(e),
        },
{
    let magnitude = ticks_magnitude_exec(days, hours, minutes, seconds, fraction)?;
    signed_from_magnitude(positive, magnitude)
}

/// `magnitude` taken as positive or negative; `Overflow` when that does not fit in an `i64`.
pub(crate) fn signed_from_magnitude(positive: bool, magnitude: u64) -> (r: Result<
    i64,
    TimeSpanError,
>)
    ensures
        positive ==> r == if magnitude <= i64::MAX {
            Ok::<i64, TimeSpanError>(magnitude as i64)
        } else {
            Err(TimeSpanError::Overflow)
        },
        !positive ==> r == if magnitude <= 9_223_372_036_854_775_808 {
            Ok::<i64, TimeSpanError>((-magnitude) as i64)
        } else {
            Err(TimeSpanError::Overflow)
        },
{
    if positive {
        if magnitude <= 9_223_372_036_854_775_807u64 {
            Ok(magnitude as i64)
        } else {
            Err(TimeSpanError::Overflow)
        }
    } else {
        if magnitude < 9_223_372_036_854_775_808u64 {
            Ok(-(magnitude as i64))
        } else if magnitude == 9_223_372_036_854_775_808u64 {
            Ok(i64::MIN)
        } else {
            Err(TimeSpanError::Overflow)
        }
    }
}

/// A candidate reading, as `Candidate` describes.
pub struct ExecCandidate {
    pub matched: bool,
    pub positive: bool,
    pub days: NumTok,
    pub hours: NumTok,
    pub minutes: NumTok,
    pub seconds: NumTok,
    pub fraction: NumTok,
}

impl View for ExecCandidate {
    type V = Candidate;

    open spec fn view(&self) -> Candidate {
        Candidate {
            matched: self.matched,
            positive: self.positive,
            days: self.days@,
            hours: self.hours@,
            minutes: self.minutes@,
            seconds: self.seconds@,
            fraction: self.fraction@,
        }
    }
}

/// The readings' views.
pub open spec fn cands_view(c: Seq<ExecCandidate>) -> Seq<Candidate> {
    c.map_values(|x: ExecCandidate| x@)
}

/// Tries the readings in order, as `try_candidates` describes.
fn try_candidates_exec(c: &Vec<ExecCandidate>) -> (r: Result<i64, TimeSpanError>)
    requires
        forall|k: int| 0 <= k < c@.len() ==> #[trigger] c@[k].fraction.value <= token_max(),
    ensures
        match try_candidates(cands_view(c@), 0, false) {
            Ok(v) => r == Ok::<i64, TimeSpanError>(v as i64) && i64::MIN <= v <= i64::MAX,
            Err(e) => r == Err::<i64, TimeSpanError>(e),
        },
{
    let ghost cv = cands_view(c@);
    let mut overflow = false;
    let mut i: usize = 0;
    while i < c.len()
        invariant
            cv == cands_view(c@),
            i <= c@.len(),
            forall|k: int| 0 <= k < c@.len() ==> #[trigger] c@[k].fraction.value <= token_max(),
            try_candidates(cv, 0, false) == try_candidates(cv, i as int, overflow),
        decreases c@.len() - i,
    {
        let cand = &c[i];
        assert(cv[i as int] == cand@);
        if cand.matched {
            match signed_ticks_exec(
                cand.positive,
                cand.days,
                cand.hours,
                cand.minutes,
                cand.seconds,
                cand.fraction,
            ) {
                Ok(t) => {
                    return Ok(t);
                },
                Err(TimeSpanError::Overflow) => {
                    overflow = true;
                },
                Err(e) => {
                    return Err(e);
                },
            }
        }
        i = i + 1;
    }
    if overflow {
        Err(TimeSpanError::Overflow)
    } else {
        Err(TimeSpanError::InvalidFormat)
    }
}


/// Whether a separator is empty.
fn sep_is_empty(v: &Vec<char>) -> (r: bool)
    ensures
        r == (v@ == Seq::<char>::empty()),
{
    if v.len() == 0 {
        assert(v@ =~= Seq::<char>::empty());
        true
    } else {
        false
    }
}

/// Whether a separator is the single character `c`.
fn sep_is_char(v: &Vec<char>, c: char) -> (r: bool)
    ensures
        r == (v@ == seq![c]),
{
    if v.len() == 1 && v[0] == c {
        assert(v@ =~= seq![c]);
        true
    } else {
        false
    }
}

/// Whether a separator is `:.`.
fn sep_is_colon_dot(v: &Vec<char>) -> (r: bool)
    ensures
        r == (v@ == seq![':', '.']),
{
    if v.len() == 2 && v[0] == ':' && v[1] == '.' {
        assert(v@ =~= seq![':', '.']);
        true
    } else {
        false
    }
}

/// A reading built from its parts.
fn make_cand(
    matched: bool,
    positive: bool,
    d: NumTok,
    h: NumTok,
    m: NumTok,
    s: NumTok,
    f: NumTok,
) -> (r: ExecCandidate)
    ensures
        r@ == cand(matched, positive, d@, h@, m@, s@, f@),
        r.fraction == f,
{
    ExecCandidate { matched, positive, days: d, hours: h, minutes: m, seconds: s, fraction: f }
}

/// The readings of the numbers and separators, as `candidates` describes.
fn candidates_exec(raw: &ExecRaw, allow_dot: bool) -> (r: Vec<ExecCandidate>)
    requires
        1 <= raw.nums@.len() <= 5,
        raw.seps@.len() == raw.nums@.len() + 1,
        forall|k: int| 0 <= k < raw.nums@.len() ==> #[trigger] raw.nums@[k].value <= token_max(),
    ensures
        cands_view(r@) == candidates(raw@, allow_dot),
        forall|k: int| 0 <= k < r@.len() ==> #[trigger] r@[k].fraction.value <= token_max(),
{
    let n = &raw.nums;
    let s = &raw.seps;
    let ghost nv = raw@.nums;
    let ghost sv = raw@.seps;
    assert(forall|k: int| 0 <= k < n@.len() ==> nv[k] == (#[trigger] n@[k])@);
    assert(forall|k: int| 0 <= k < s@.len() ==> sv[k] == (#[trigger] s@[k])@);
    let z = NumTok { value: 0, zeroes: 0 };
    let pos = sep_is_empty(&s[0]);
    let neg = sep_is_char(&s[0], '-');
    assert(pos == sign_sep(sv[0], true));
    assert(neg == sign_sep(sv[0], false));
    let mut c: Vec<ExecCandidate> = Vec::new();
    let len = n.len();
    if len == 1 {
        let end = sep_is_empty(&s[1]);
        assert(end == (sv[1] == Seq::<char>::empty()));
        c.push(make_cand(pos && end, true, n[0], z, z, z, z));
        c.push(make_cand(neg && end, false, n[0], z, z, z, z));
        assert(cands_view(c@) =~= candidates_1(nv, sv));
    } else if len == 2 {
        let rest = sep_is_char(&s[1], ':') && sep_is_empty(&s[2]);
        c.push(make_cand(pos && rest, true, z, n[0], n[1], z, z));
        c.push(make_cand(neg && rest, false, z, n[0], n[1], z, z));
        assert(cands_view(c@) =~= candidates_2(nv, sv));
    } else if len == 3 {
        let end = sep_is_empty(&s[3]);
        let colon1 = sep_is_char(&s[1], ':');
        let day1 = colon1 || (allow_dot && sep_is_char(&s[1], '.'));
        let hms = colon1 && sep_is_char(&s[2], ':') && end;
        let dhm = day1 && sep_is_char(&s[2], ':') && end;
        let hmf = colon1 && sep_is_colon_dot(&s[2]) && end;
        c.push(make_cand(pos && hms, true, z, n[0], n[1], n[2], z));
        c.push(make_cand(pos && dhm, true, n[0], n[1], n[2], z, z));
        c.push(make_cand(pos && hmf, true, z, n[0], n[1], z, n[2]));
        c.push(make_cand(neg && hms, false, z, n[0], n[1], n[2], z));
        c.push(make_cand(neg && dhm, false, n[0], n[1], n[2], z, z));
        c.push(make_cand(neg && hmf, false, z, n[0], n[1], z, n[2]));
        assert(cands_view(c@) =~= candidates_3(nv, sv, allow_dot));
    } else if len == 4 {
        let end = sep_is_empty(&s[4]);
        let colon1 = sep_is_char(&s[1], ':');
        let day1 = colon1 || (allow_dot && sep_is_char(&s[1], '.'));
        let colon2 = sep_is_char(&s[2], ':');
        let hmsf = colon1 && colon2 && sep_is_char(&s[3], '.') && end;
        let dhms = day1 && colon2 && sep_is_char(&s[3], ':') && end;
        let dhmf = day1 && colon2 && sep_is_colon_dot(&s[3]) && end;
        c.push(make_cand(pos && hmsf, true, z, n[0], n[1], n[2], n[3]));
        c.push(make_cand(pos && dhms, true, n[0], n[1], n[2], n[3], z));
        c.push(make_cand(pos && dhmf, true, n[0], n[1], n[2], z, n[3]));
        c.push(make_cand(neg && hmsf, false, z, n[0], n[1], n[2], n[3]));
        c.push(make_cand(neg && dhms, false, n[0], n[1], n[2], n[3], z));
        c.push(make_cand(neg && dhmf, false, n[0], n[1], n[2], z, n[3]));
        assert(cands_view(c@) =~= candidates_4(nv, sv, allow_dot));
    } else {
        let day1 = sep_is_char(&s[1], ':') || (allow_dot && sep_is_char(&s[1], '.'));
        let rest = day1 && sep_is_char(&s[2], ':') && sep_is_char(&s[3], ':') && sep_is_char(&s[4], '.') && sep_is_empty(&s[5]);
        c.push(make_cand(pos && rest, true, n[0], n[1], n[2], n[3], n[4]));
        c.push(make_cand(neg && rest, false, n[0], n[1], n[2], n[3], n[4]));
        assert(cands_view(c@) =~= candidates_5(nv, sv, allow_dot));
    }
    c
}


/// The span a tokenized text stands for, as `interpret_raw` describes.
fn interpret_exec(raw: ExecRaw, allow_dot: bool, require_full: bool) -> (r: Result<
    i64,
    TimeSpanError,
>)
    requires
        raw_well_formed(raw),
    ensures
        match interpret_raw(raw@, allow_dot, require_full) {
            Ok(v) => r == Ok::<i64, TimeSpanError>(v as i64) && i64::MIN <= v <= i64::MAX,
            Err(e) => r == Err::<i64, TimeSpanError>(e),
        },
{
    let mut raw = raw;
    if raw.last_num {
        let empty: Vec<char> = Vec::new();
        assert(empty@ =~= Seq::<char>::empty());
        match add_sep_exec(&mut raw, empty) {
            Ok(()) => {},
            Err(e) => {
                return Err(e);
            },
        }
    }
    if require_full && raw.nums.len() != 5 {
        return Err(TimeSpanError::InvalidFormat);
    }
    if raw.nums.len() < 1 || raw.nums.len() > 5 {
        return Err(TimeSpanError::InvalidFormat);
    }
    let c = candidates_exec(&raw, allow_dot);
    try_candidates_exec(&c)
}

/// Parses characters, as `parse_text` describes.
pub(crate) fn parse_chars(s: &Vec<char>, allow_dot: bool, require_full: bool) -> (r: Result<
    TimeSpan,
    TimeSpanError,
>)
    ensures
        res_view(r) == parse_text(s@, allow_dot, require_full),
{
    let t = trim_chars(s);
    if t.len() == 0 {
        return Err(TimeSpanError::InvalidFormat);
    }
    let raw = match read_tokens_exec(&t) {
        Ok(raw) => raw,
        Err(e) => {
            return Err(e);
        },
    };
    match interpret_exec(raw, allow_dot, require_full) {
        Ok(ticks) => Ok(TimeSpan::from_ticks(ticks)),
        Err(e) => Err(e),
    }
}

impl TimeSpan {
    /// Reads a span from text in the invariant culture: surrounding white space is ignored;
    /// the rest is `[-][d.]h:m[:s[.f]]`-like, with `.` or `:` between days and hours, as
    /// `parse_text(s, true, false)` describes. `InvalidFormat` for text of another shape,
    /// `Overflow` for a component or total out of range.
    pub fn parse(s: &str) -> (r: Result<TimeSpan, TimeSpanError>)
        ensures
            res_view(r) == parse_text(s@, true, false),
    {
        let chars = str_to_chars(s);
        parse_chars(&chars, true, false)
    }
}

impl std::str::FromStr for TimeSpan {
    type Err = TimeSpanError;

    /// Same as `TimeSpan::parse`.
    fn from_str(s: &str) -> (r: Result<TimeSpan, TimeSpanError>)
        ensures
            res_view(r) == parse_text(s@, true, false),
    {
        TimeSpan::parse(s)
    }
}

} // verus!

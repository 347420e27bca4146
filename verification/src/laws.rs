use vstd::prelude::*;

use crate::builder::set_component;
use crate::digits::{
    all_digits, decimal, digit_char, digit_value, digits_value, is_digit, leading_zeros, lemma_leading_zeros_push,
    lemma_num_digits_at_most, lemma_num_digits_bounds, lemma_pad_digits_shape, lemma_pad_digits_value,
    lemma_pow10_monotone, num_digits, pad_digits, pow10,
};
use crate::error::TimeSpanError;
use crate::format::{
    ascii_bytes, format_text, lemma_standard_text_ascii, part_days, part_fraction, part_hours,
    part_minutes, part_seconds, sign_text, standard_text, strip_zeros, StandardFormat,
};
use crate::format_custom::{custom_parts, custom_text, decimal_min_width, repeat_len, CustomParts};
use crate::parse::{
    add_sep, add_token, cand, candidates, interpret_raw, is_day_hour_sep, is_white_space,
    lemma_next_token_end, lemma_run_end, lemma_run_end_at, next_token, normalize_fraction, num_zero, parse_text, raw_empty,
    read_tokens, run_end, signed_ticks, ticks_magnitude, token_max, trim, trim_end_at,
    trim_start_at, try_candidates, NumSpec, RawInfo, Token,
};
use crate::parse_constant::{
    ch_at, constant_fraction, constant_int, constant_text, constant_time, skip_blanks,
};
use crate::parse_exact::{
    exact_digits, exact_multiple, exact_multiple_from, exact_run, exact_start, exact_text,
    ExactState, TimeSpanStyles,
};
use crate::time_span::{
    abs, difference_result, fits_i64, lemma_view_in_range, negation_result, sum_result,
    ticks_per_day, ticks_per_hour, ticks_per_microsecond, ticks_per_millisecond,
    ticks_per_minute, ticks_per_second, trunc_div, trunc_rem, TimeSpan,
};
use vstd::utf8::{encode_utf8, is_ascii_chars_encode_utf8};

verus! {

broadcast use lemma_view_in_range;

/// Negating a span twice gives it back, for every span but `min_value()`, whose negation
/// overflows.
pub proof fn law_checked_neg_involution(t: TimeSpan)
    ensures
        t@ == i64::MIN ==> negation_result(t@) == Err::<int, TimeSpanError>(
            TimeSpanError::Overflow,
        ),
        t@ != i64::MIN ==> (negation_result(t@) matches Ok(n) && negation_result(n) == Ok::<
            int,
            TimeSpanError,
        >(t@)),
{
}

/// Adding then subtracting the same span, or subtracting then adding it, gives back the
/// first span whenever the first operation does not overflow.
pub proof fn law_add_sub_inverse(a: TimeSpan, b: TimeSpan)
    ensures
        sum_result(a@, b@) matches Ok(s) ==> difference_result(s, b@) == Ok::<
            int,
            TimeSpanError,
        >(a@),
        difference_result(a@, b@) matches Ok(d) ==> sum_result(d, b@) == Ok::<
            int,
            TimeSpanError,
        >(a@),
{
}

/// `""`, `"c"`, `"t"` and `"T"` all name the constant layout, the one `to_string` writes.
pub proof fn law_constant_format_names(t: TimeSpan, f: Seq<char>)
    requires
        f == Seq::<char>::empty() || f == seq!['c'] || f == seq!['t'] || f == seq!['T'],
    ensures
        format_text(t@, f) == Ok::<Seq<char>, TimeSpanError>(
            standard_text(t@, StandardFormat::Constant),
        ),
{
}

/// A custom format string writes no sign: a span and its negation format alike.
pub proof fn law_custom_format_ignores_sign(t: TimeSpan, f: Seq<char>)
    requires
        f.len() >= 2,
        t@ != i64::MIN,
    ensures
        format_text(t@, f) == format_text(-t@, f),
{
    assert(custom_parts(t@) == custom_parts(-t@));
}

/// Every standard layout is ASCII, so its UTF-8 bytes are its characters, one byte each.
pub proof fn law_standard_text_one_byte_per_char(t: TimeSpan, kind: StandardFormat)
    ensures
        encode_utf8(standard_text(t@, kind)) == ascii_bytes(standard_text(t@, kind)),
{
    lemma_standard_text_ascii(t@, kind);
    is_ascii_chars_encode_utf8(standard_text(t@, kind));
    assert(ascii_bytes(standard_text(t@, kind)) =~= encode_utf8(standard_text(t@, kind)));
}

/// The exact parser's styles only matter to custom formats: a one-character format reads
/// the same under either style.
pub proof fn law_standard_formats_ignore_styles(s: Seq<char>, f: Seq<char>)
    requires
        f.len() <= 1,
    ensures
        exact_text(s, f, TimeSpanStyles::NoFlags) == exact_text(s, f, TimeSpanStyles::AssumeNegative),
{
}

/// `parse_exact_multiple` with a single format reads what `parse_exact` reads with that
/// format, except that every failure, an overflow included, becomes `InvalidFormat`.
pub proof fn law_exact_multiple_single_format(s: Seq<char>, f: Seq<char>, styles: TimeSpanStyles)
    requires
        s.len() > 0,
    ensures
        exact_multiple(s, seq![f], styles) == match exact_text(s, f, styles) {
            Ok(v) => Ok::<int, TimeSpanError>(v),
            Err(_) => Err(TimeSpanError::InvalidFormat),
        },
{
    reveal_with_fuel(exact_multiple_from, 2);
}

/// Under `AssumeNegative` a custom format reads the negation of what it reads under
/// `NoFlags`.
pub proof fn law_assume_negative_negates(s: Seq<char>, f: Seq<char>)
    requires
        f.len() >= 2,
    ensures
        exact_text(s, f, TimeSpanStyles::NoFlags) matches Ok(v) ==> exact_text(
            s,
            f,
            TimeSpanStyles::AssumeNegative,
        ) == Ok::<int, TimeSpanError>(-v),
{
}

/// A span is the sum of its components as the accessors give them: days, hours, minutes,
/// seconds, milliseconds and microseconds, and the ticks below a microsecond, all carrying
/// the span's sign.
pub proof fn law_components_sum(t: TimeSpan)
    ensures
        t@ == trunc_div(t@, ticks_per_day()) * ticks_per_day() + trunc_rem(
            trunc_div(t@, ticks_per_hour()),
            24,
        ) * ticks_per_hour() + trunc_rem(trunc_div(t@, ticks_per_minute()), 60)
            * ticks_per_minute() + trunc_rem(trunc_div(t@, ticks_per_second()), 60)
            * ticks_per_second() + trunc_rem(trunc_div(t@, ticks_per_millisecond()), 1000)
            * ticks_per_millisecond() + trunc_rem(trunc_div(t@, ticks_per_microsecond()), 1000)
            * ticks_per_microsecond() + trunc_rem(t@, ticks_per_microsecond()),
{
    let a = abs(t@);
    let u = a / 10;
    let ms = a / 10_000;
    let sec = a / 10_000_000;
    let min = a / 600_000_000;
    let hr = a / 36_000_000_000;
    let day = a / 864_000_000_000;
    assert(a == 10 * u + a % 10);
    assert(u == 1000 * ms + u % 1000);
    assert(ms == 1000 * sec + ms % 1000);
    assert(sec == 60 * min + sec % 60);
    assert(min == 60 * hr + min % 60);
    assert(hr == 24 * day + hr % 24);
    assert(a == day * 864_000_000_000 + (hr % 24) * 36_000_000_000 + (min % 60) * 600_000_000
        + (sec % 60) * 10_000_000 + (ms % 1000) * 10_000 + (u % 1000) * 10 + a % 10);
}

/// The builder's setters each replace one component: setters of different components
/// commute, and of two calls of the same setter the last one wins.
pub proof fn law_builder_setters(
    c: (int, int, int, int, int, int),
    k1: int,
    v1: int,
    k2: int,
    v2: int,
)
    requires
        0 <= k1 < 6,
        0 <= k2 < 6,
    ensures
        k1 != k2 ==> set_component(set_component(c, k1, v1), k2, v2) == set_component(
            set_component(c, k2, v2),
            k1,
            v1,
        ),
        k1 == k2 ==> set_component(set_component(c, k1, v1), k2, v2) == set_component(c, k2, v2),
{
}

/// Numbers and separators in the shape `read_tokens` builds them: tokens alternate, starting
/// with a separator.
spec fn raw_of(nums: Seq<NumSpec>, seps: Seq<Seq<char>>) -> RawInfo {
    RawInfo { nums, seps, count: nums.len() + seps.len(), last_num: nums.len() == seps.len() }
}

/// The number token of `v` written in `w` padded digits.
spec fn num_of(v: nat, w: nat) -> NumSpec {
    NumSpec { value: v as int, zeroes: leading_zeros(pad_digits(v, w)) }
}

/// Padded digits standing at `i` and followed by no digit make one number token.
proof fn lemma_num_token(s: Seq<char>, i: int, v: nat, w: nat)
    requires
        0 <= i,
        i + w <= s.len(),
        w >= 1,
        s.subrange(i, i + w) == pad_digits(v, w),
        v < pow10(w),
        v <= token_max(),
        i + w == s.len() || !is_digit(s[i + w]),
    ensures
        next_token(s, i) == (Token::Num(num_of(v, w)), i + w),
{
    lemma_pad_digits_shape(v, w);
    lemma_pad_digits_value(v, w);
    assert forall|j: int| i <= j < i + w implies j < s.len() && is_digit(#[trigger] s[j]) by {
        assert(s[j] == s.subrange(i, i + w)[j - i]);
    }
    lemma_run_end_at(s, i, i + w);
    assert(is_digit(s[i]));
}

/// A non-digit followed by a digit (or by the end) is a one-character separator token.
proof fn lemma_sep_token(s: Seq<char>, i: int)
    requires
        0 <= i < s.len(),
        !is_digit(s[i]),
        i + 1 == s.len() || is_digit(s[i + 1]),
    ensures
        next_token(s, i) == (Token::Sep(seq![s[i]]), i + 1),
{
    assert(run_end(s, i + 1, false) == i + 1);
    assert(s.subrange(i, i + 1) =~= seq![s[i]]);
}

/// Reading a number token after a separator.
proof fn lemma_read_num(
    s: Seq<char>,
    i: int,
    v: nat,
    w: nat,
    nums: Seq<NumSpec>,
    seps: Seq<Seq<char>>,
)
    requires
        0 <= i,
        i + w <= s.len(),
        w >= 1,
        s.subrange(i, i + w) == pad_digits(v, w),
        v < pow10(w),
        v <= token_max(),
        i + w == s.len() || !is_digit(s[i + w]),
        seps.len() == nums.len() + 1,
        nums.len() < 5,
        nums.len() + seps.len() < 11,
    ensures
        read_tokens(s, i, raw_of(nums, seps)) == read_tokens(
            s,
            i + w,
            raw_of(nums.push(num_of(v, w)), seps),
        ),
{
    lemma_num_token(s, i, v, w);
    assert(add_token(raw_of(nums, seps), Token::Num(num_of(v, w))) == Ok::<
        RawInfo,
        TimeSpanError,
    >(raw_of(nums.push(num_of(v, w)), seps)));
}

/// Reading a number token that starts the text.
proof fn lemma_read_first_num(s: Seq<char>, v: nat, w: nat)
    requires
        w <= s.len(),
        w >= 1,
        s.subrange(0, w as int) == pad_digits(v, w),
        v < pow10(w),
        v <= token_max(),
        w == s.len() || !is_digit(s[w as int]),
    ensures
        read_tokens(s, 0, raw_empty()) == read_tokens(
            s,
            w as int,
            raw_of(seq![num_of(v, w)], seq![Seq::<char>::empty()]),
        ),
{
    lemma_num_token(s, 0, v, w);
    assert(add_token(raw_empty(), Token::Num(num_of(v, w))) == Ok::<RawInfo, TimeSpanError>(
        raw_of(seq![num_of(v, w)], seq![Seq::<char>::empty()]),
    )) by {
        assert(Seq::<NumSpec>::empty().push(num_of(v, w)) =~= seq![num_of(v, w)]);
        assert(Seq::<Seq<char>>::empty().push(Seq::<char>::empty()) =~= seq![
            Seq::<char>::empty(),
        ]);
    }
}

/// Reading a one-character separator after a number.
proof fn lemma_read_sep(s: Seq<char>, i: int, nums: Seq<NumSpec>, seps: Seq<Seq<char>>)
    requires
        0 <= i < s.len(),
        !is_digit(s[i]),
        i + 1 == s.len() || is_digit(s[i + 1]),
        seps.len() == nums.len(),
        seps.len() < 6,
        nums.len() + seps.len() < 11,
    ensures
        read_tokens(s, i, raw_of(nums, seps)) == read_tokens(
            s,
            i + 1,
            raw_of(nums, seps.push(seq![s[i]])),
        ),
{
    lemma_sep_token(s, i);
}

/// Reading a one-character separator that starts the text.
proof fn lemma_read_first_sep(s: Seq<char>)
    requires
        0 < s.len(),
        !is_digit(s[0]),
        1 == s.len() || is_digit(s[1]),
    ensures
        read_tokens(s, 0, raw_empty()) == read_tokens(
            s,
            1,
            raw_of(Seq::empty(), seq![seq![s[0]]]),
        ),
{
    lemma_sep_token(s, 0);
    assert(Seq::<Seq<char>>::empty().push(seq![s[0]]) =~= seq![seq![s[0]]]);
}

/// Text that neither starts nor ends with white space is its own trimmed form.
proof fn lemma_trim_identity(s: Seq<char>)
    requires
        s.len() > 0,
        !is_white_space(s[0]),
        !is_white_space(s[s.len() - 1]),
    ensures
        trim(s) == s,
{
    assert(trim_start_at(s, 0) == 0);
    assert(trim_end_at(s, s.len() as int, 0) == s.len());
    assert(s.subrange(0, s.len() as int) =~= s);
}

/// A tick count is the sum of its days, hours, minutes, seconds and fraction, each in range.
proof fn lemma_parts(a: nat)
    requires
        a <= 9_223_372_036_854_775_808,
    ensures
        a == part_days(a) * 864_000_000_000 + part_hours(a) * 36_000_000_000 + part_minutes(a)
            * 600_000_000 + part_seconds(a) * 10_000_000 + part_fraction(a),
        part_days(a) <= 10_675_199,
        part_hours(a) < 24,
        part_minutes(a) < 60,
        part_seconds(a) < 60,
        part_fraction(a) < 10_000_000,
{
    let q1 = a / 10_000_000;
    let q2 = q1 / 60;
    let q3 = q2 / 60;
    let d = q3 / 24;
    assert(a == q1 * 10_000_000 + a % 10_000_000);
    assert(q1 == q2 * 60 + q1 % 60);
    assert(q2 == q3 * 60 + q2 % 60);
    assert(q3 == d * 24 + q3 % 24);
    assert(a == ((d * 24 + q3 % 24) * 60 + q2 % 60) * 600_000_000 + (q1 % 60) * 10_000_000
        + a % 10_000_000) by (nonlinear_arith)
        requires
            a == q1 * 10_000_000 + a % 10_000_000,
            q1 == q2 * 60 + q1 % 60,
            q2 == q3 * 60 + q2 % 60,
            q3 == d * 24 + q3 % 24,
    ;
    assert(q1 <= 922_337_203_685);
    assert(q2 <= 15_372_286_728);
    assert(q3 <= 256_204_778);
}

/// Whether the standard text of `t` in layout `kind` has a day part.
spec fn has_days(t: int, kind: StandardFormat) -> bool {
    kind == StandardFormat::GeneralLong || part_days(abs(t) as nat) > 0
}

/// Whether the standard text of `t` in layout `kind` has a fraction part.
spec fn has_fraction(t: int, kind: StandardFormat) -> bool {
    kind == StandardFormat::GeneralLong || part_fraction(abs(t) as nat) != 0
}

/// The character a layout puts between days and hours.
spec fn day_sep(kind: StandardFormat) -> char {
    if kind == StandardFormat::Constant { '.' } else { ':' }
}

/// How many digits the hours take in the standard text of `t`.
spec fn hour_width(t: int, kind: StandardFormat) -> nat {
    if kind == StandardFormat::GeneralShort && part_hours(abs(t) as nat) < 10 { 1 } else { 2 }
}

/// The number the fraction digits stand for and how many digits there are.
spec fn fraction_digits(t: int, kind: StandardFormat) -> (nat, nat) {
    let f = part_fraction(abs(t) as nat);
    if kind == StandardFormat::GeneralShort { strip_zeros(f, 7) } else { (f, 7) }
}

/// Where the hours start in the standard text of `t`: after the sign and the day part.
spec fn clock_start(t: int, kind: StandardFormat) -> int {
    let d = part_days(abs(t) as nat);
    sign_text(t).len() + if has_days(t, kind) { num_digits(d) as int + 1 } else { 0int }
}

/// The numbers `read_tokens` finds in the standard text of `t` up to the hours.
spec fn head_nums(t: int, kind: StandardFormat) -> Seq<NumSpec> {
    let a = abs(t) as nat;
    let d = part_days(a);
    let hours = num_of(part_hours(a), hour_width(t, kind));
    if has_days(t, kind) {
        seq![num_of(d, num_digits(d)), hours]
    } else {
        seq![hours]
    }
}

/// The separators `read_tokens` finds in the standard text of `t` before the hours.
spec fn head_seps(t: int, kind: StandardFormat) -> Seq<Seq<char>> {
    if has_days(t, kind) {
        seq![sign_text(t), seq![day_sep(kind)]]
    } else {
        seq![sign_text(t)]
    }
}

/// The numbers `read_tokens` finds in the standard text of `t`.
spec fn standard_nums(t: int, kind: StandardFormat) -> Seq<NumSpec> {
    let a = abs(t) as nat;
    let head = head_nums(t, kind);
    let clock = head.push(num_of(part_minutes(a), 2)).push(num_of(part_seconds(a), 2));
    if has_fraction(t, kind) {
        clock.push(num_of(fraction_digits(t, kind).0, fraction_digits(t, kind).1))
    } else {
        clock
    }
}

/// The separators `read_tokens` finds in the standard text of `t`.
spec fn standard_seps(t: int, kind: StandardFormat) -> Seq<Seq<char>> {
    let head = head_seps(t, kind);
    let clock = head.push(seq![':']).push(seq![':']);
    if has_fraction(t, kind) {
        clock.push(seq!['.'])
    } else {
        clock
    }
}

/// Trailing zeros dropped from a fraction leave a number that, padded back to the digits
/// kept, stands for the same fraction.
proof fn lemma_strip_zeros(v: nat, k: nat)
    requires
        v < pow10(k),
    ensures
        strip_zeros(v, k).1 <= k,
        strip_zeros(v, k).0 < pow10(strip_zeros(v, k).1),
        strip_zeros(v, k).0 * pow10((k - strip_zeros(v, k).1) as nat) == v,
        v != 0 ==> strip_zeros(v, k).0 != 0 && strip_zeros(v, k).1 >= 1,
    decreases k,
{
    if k > 0 && v % 10 == 0 {
        assert(pow10(k) == 10 * pow10((k - 1) as nat));
        lemma_strip_zeros(v / 10, (k - 1) as nat);
        let r = strip_zeros(v / 10, (k - 1) as nat);
        assert(strip_zeros(v, k) == r);
        let e = (k - 1 - r.1) as nat;
        assert(((k - r.1) as nat) == e + 1);
        assert(pow10((k - r.1) as nat) == 10 * pow10(e));
        assert(r.0 * pow10(e) == v / 10);
        assert(r.0 * (10 * pow10(e)) == 10 * (r.0 * pow10(e))) by (nonlinear_arith);
        assert(10 * (v / 10) == v);
    } else {
        assert(strip_zeros(v, k) == (v, k));
        assert(((k - k) as nat) == 0);
        assert(pow10(0) == 1);
    }
}

/// Where each part of the standard text of `t` in layout `kind` stands.
#[verifier::spinoff_prover]
#[verifier::rlimit(50)]
proof fn lemma_standard_layout(t: int, kind: StandardFormat)
    requires
        fits_i64(t),
    ensures
        ({
            let s = standard_text(t, kind);
            let a = abs(t) as nat;
            let d = part_days(a);
            let c = clock_start(t, kind);
            let hw = hour_width(t, kind);
            let fv = fraction_digits(t, kind).0;
            let fw = fraction_digits(t, kind).1;
            let p = sign_text(t).len() as int;
            &&& s.len() == c + hw + 6 + if has_fraction(t, kind) { fw as int + 1 } else { 0int }
            &&& s.subrange(c, c + hw) == pad_digits(part_hours(a), hw)
            &&& s[c + hw] == ':'
            &&& s.subrange(c + hw + 1, c + hw + 3) == pad_digits(part_minutes(a), 2)
            &&& s[c + hw + 3] == ':'
            &&& s.subrange(c + hw + 4, c + hw + 6) == pad_digits(part_seconds(a), 2)
            &&& is_digit(s[c])
            &&& is_digit(s[c + hw + 1])
            &&& is_digit(s[c + hw + 4])
            &&& has_fraction(t, kind) ==> s[c + hw + 6] == '.' && s.subrange(
                c + hw + 7,
                c + hw + 7 + fw,
            ) == pad_digits(fv, fw) && is_digit(s[c + hw + 7]) && 1 <= fw <= 7 && fv < pow10(fw)
            &&& has_days(t, kind) ==> s.subrange(p, p + num_digits(d)) == pad_digits(
                d,
                num_digits(d),
            ) && s[p + num_digits(d)] == day_sep(kind) && is_digit(s[p])
            &&& t < 0 ==> s[0] == '-' && p == 1 && sign_text(t) == seq!['-']
            &&& t >= 0 ==> p == 0 && sign_text(t) == Seq::<char>::empty()
            &&& !is_white_space(s[0])
            &&& !is_white_space(s[s.len() - 1])
        }),
{
    let s = standard_text(t, kind);
    let a = abs(t) as nat;
    lemma_parts(a);
    let d = part_days(a);
    let h = part_hours(a);
    let m = part_minutes(a);
    let sec = part_seconds(a);
    let f = part_fraction(a);
    let sg = sign_text(t);
    let p = sg.len() as int;
    let nd = num_digits(d);
    let hw = hour_width(t, kind);
    let fv = fraction_digits(t, kind).0;
    let fw = fraction_digits(t, kind).1;
    lemma_num_digits_bounds(d);
    lemma_pad_digits_shape(d, nd);
    lemma_pad_digits_shape(h, hw);
    lemma_pad_digits_shape(m, 2);
    lemma_pad_digits_shape(sec, 2);
    assert(pow10(7) == 10_000_000) by {
        reveal_with_fuel(pow10, 8);
    }
    lemma_strip_zeros(f, 7);
    lemma_pad_digits_shape(fv, fw);
    if hw == 1 {
        assert(num_digits(h) == 1);
    }
    let c = clock_start(t, kind);
    assert(s.subrange(c, c + hw) =~= pad_digits(h, hw));
    assert(s.subrange(c + hw + 1, c + hw + 3) =~= pad_digits(m, 2));
    assert(s.subrange(c + hw + 4, c + hw + 6) =~= pad_digits(sec, 2));
    assert(s[c] == pad_digits(h, hw)[0]);
    assert(s[c + hw + 1] == pad_digits(m, 2)[0]);
    assert(s[c + hw + 4] == pad_digits(sec, 2)[0]);
    if has_fraction(t, kind) {
        assert(s.subrange(c + hw + 7, c + hw + 7 + fw) =~= pad_digits(fv, fw));
        assert(s[c + hw + 7] == pad_digits(fv, fw)[0]);
        assert(s[c + hw + 6 + fw] == pad_digits(fv, fw)[fw - 1]);
    } else {
        assert(s[c + hw + 5] == pad_digits(sec, 2)[1]);
    }
    if has_days(t, kind) {
        assert(s.subrange(p, p + nd) =~= pad_digits(d, nd));
        assert(s[p] == pad_digits(d, nd)[0]);
    }
    if t >= 0 {
        assert(sg =~= Seq::<char>::empty());
    }
}

/// The tokens of the standard text of `t` up to the hours.
#[verifier::spinoff_prover]
#[verifier::rlimit(50)]
proof fn lemma_standard_tokens_head(t: int, kind: StandardFormat)
    requires
        fits_i64(t),
    ensures
        read_tokens(standard_text(t, kind), 0, raw_empty()) == read_tokens(
            standard_text(t, kind),
            clock_start(t, kind) + hour_width(t, kind),
            raw_of(head_nums(t, kind), head_seps(t, kind)),
        ),
{
    let s = standard_text(t, kind);
    let a = abs(t) as nat;
    lemma_parts(a);
    lemma_standard_layout(t, kind);
    let d = part_days(a);
    let h = part_hours(a);
    let sg = sign_text(t);
    let p = sg.len() as int;
    let nd = num_digits(d);
    let hw = hour_width(t, kind);
    lemma_num_digits_bounds(d);
    assert(pow10(2) == 100) by {
        reveal_with_fuel(pow10, 3);
    }
    assert(pow10(1) == 10) by {
        reveal_with_fuel(pow10, 2);
    }
    let c = clock_start(t, kind);
    let hd = has_days(t, kind);
    let first = if hd { d } else { h };
    let first_w: nat = if hd { nd } else { hw };
    let nums: Seq<NumSpec> = seq![num_of(first, first_w)];
    let seps: Seq<Seq<char>> = seq![sg];
    if t < 0 {
        lemma_read_first_sep(s);
        assert(seq![seq![s[0]]] =~= seq![sg]);
        lemma_read_num(s, 1, first, first_w, Seq::empty(), seq![sg]);
        assert(Seq::<NumSpec>::empty().push(num_of(first, first_w)) =~= nums);
    } else {
        lemma_read_first_num(s, first, first_w);
    }
    if hd {
        lemma_read_sep(s, c - 1, nums, seps);
        lemma_read_num(s, c, h, hw, nums, seps.push(seq![day_sep(kind)]));
        assert(nums.push(num_of(h, hw)) =~= head_nums(t, kind));
        assert(seps.push(seq![day_sep(kind)]) =~= head_seps(t, kind));
    } else {
        assert(nums =~= head_nums(t, kind));
        assert(seps =~= head_seps(t, kind));
    }
}

/// The tokens of the standard text of `t` in layout `kind`.
#[verifier::spinoff_prover]
#[verifier::rlimit(50)]
proof fn lemma_standard_tokens(t: int, kind: StandardFormat)
    requires
        fits_i64(t),
    ensures
        read_tokens(standard_text(t, kind), 0, raw_empty()) == Ok::<RawInfo, TimeSpanError>(
            raw_of(standard_nums(t, kind), standard_seps(t, kind)),
        ),
{
    let s = standard_text(t, kind);
    let a = abs(t) as nat;
    lemma_parts(a);
    lemma_standard_layout(t, kind);
    lemma_standard_tokens_head(t, kind);
    let m = part_minutes(a);
    let sec = part_seconds(a);
    let hw = hour_width(t, kind);
    let fv = fraction_digits(t, kind).0;
    let fw = fraction_digits(t, kind).1;
    assert(pow10(2) == 100) by {
        reveal_with_fuel(pow10, 3);
    }
    assert(pow10(7) == 10_000_000) by {
        reveal_with_fuel(pow10, 8);
    }
    if has_fraction(t, kind) {
        lemma_pow10_monotone(fw, 7);
    }
    let c = clock_start(t, kind);
    let mut nums = head_nums(t, kind);
    let mut seps = head_seps(t, kind);
    lemma_read_sep(s, c + hw, nums, seps);
    seps = seps.push(seq![':']);
    lemma_read_num(s, c + hw + 1, m, 2, nums, seps);
    nums = nums.push(num_of(m, 2));
    lemma_read_sep(s, c + hw + 3, nums, seps);
    seps = seps.push(seq![':']);
    lemma_read_num(s, c + hw + 4, sec, 2, nums, seps);
    nums = nums.push(num_of(sec, 2));
    if has_fraction(t, kind) {
        lemma_read_sep(s, c + hw + 6, nums, seps);
        seps = seps.push(seq!['.']);
        lemma_read_num(s, c + hw + 7, fv, fw, nums, seps);
        nums = nums.push(num_of(fv, fw));
    }
    assert(nums =~= standard_nums(t, kind));
    assert(seps =~= standard_seps(t, kind));
}

/// The padded digits of zero are all zeros.
proof fn lemma_pad_zero_leading(w: nat)
    ensures
        leading_zeros(pad_digits(0, w)) == w,
    decreases w,
{
    if w > 0 {
        lemma_pad_zero_leading((w - 1) as nat);
        lemma_pad_digits_shape(0, (w - 1) as nat);
        assert(digit_char(0) == '0');
        lemma_leading_zeros_push(pad_digits(0, (w - 1) as nat), '0');
    } else {
        assert(pad_digits(0, 0) =~= Seq::<char>::empty());
    }
}

/// A non-zero number written in `w` padded digits starts with as many zeros as the width
/// exceeds its own digit count.
proof fn lemma_pad_leading_zeros(v: nat, w: nat)
    requires
        0 < v < pow10(w),
    ensures
        leading_zeros(pad_digits(v, w)) + num_digits(v) == w,
    decreases w,
{
    if w == 0 {
        assert(pow10(0) == 1);
    } else {
        let q = v / 10;
        let dc = digit_char((v % 10) as int);
        lemma_pad_digits_shape(q, (w - 1) as nat);
        lemma_leading_zeros_push(pad_digits(q, (w - 1) as nat), dc);
        assert(pow10(w) == 10 * pow10((w - 1) as nat));
        if v < 10 {
            lemma_pad_zero_leading((w - 1) as nat);
            assert(dc != '0');
        } else {
            assert(q < pow10((w - 1) as nat));
            lemma_pad_leading_zeros(q, (w - 1) as nat);
        }
    }
}

/// The days number of the standard text of `t`, or zero when it has none.
spec fn standard_days(t: int, kind: StandardFormat) -> NumSpec {
    let d = part_days(abs(t) as nat);
    if has_days(t, kind) { num_of(d, num_digits(d)) } else { num_zero() }
}

/// The fraction number of the standard text of `t`, or zero when it has none.
spec fn standard_fraction(t: int, kind: StandardFormat) -> NumSpec {
    if has_fraction(t, kind) {
        num_of(fraction_digits(t, kind).0, fraction_digits(t, kind).1)
    } else {
        num_zero()
    }
}

/// The numbers of the standard text of `t` add up to `t`.
#[verifier::spinoff_prover]
proof fn lemma_standard_magnitude(t: int, kind: StandardFormat)
    requires
        fits_i64(t),
    ensures
        ({
            let a = abs(t) as nat;
            signed_ticks(
                t >= 0,
                standard_days(t, kind),
                num_of(part_hours(a), hour_width(t, kind)),
                num_of(part_minutes(a), 2),
                num_of(part_seconds(a), 2),
                standard_fraction(t, kind),
            ) == Ok::<int, TimeSpanError>(t)
        }),
{
    let a = abs(t) as nat;
    lemma_parts(a);
    let d = part_days(a);
    let h = part_hours(a);
    let m = part_minutes(a);
    let sec = part_seconds(a);
    let f = part_fraction(a);
    let fr = standard_fraction(t, kind);
    let fv = fraction_digits(t, kind).0;
    let fw = fraction_digits(t, kind).1;
    assert(pow10(7) == 10_000_000) by {
        reveal_with_fuel(pow10, 8);
    }
    lemma_strip_zeros(f, 7);
    if has_fraction(t, kind) && fv != 0 {
        lemma_pad_leading_zeros(fv, fw);
        lemma_pow10_monotone(fw, 7);
        if kind != StandardFormat::GeneralShort {
            assert(fw == 7);
            assert(((7 - fw) as nat) == 0);
            assert(pow10(0) == 1);
        }
        assert(fv * pow10((7 - fw) as nat) == f);
        if fw == 7 {
            assert(((7 - fw) as nat) == 0);
            assert(pow10(0) == 1);
            assert(fv == f);
        }
        assert(normalize_fraction(fr) == Ok::<int, TimeSpanError>(f as int));
    } else if has_fraction(t, kind) {
        assert(f == 0) by {
            if kind == StandardFormat::GeneralShort {
                assert(fv * pow10((7 - fw) as nat) == f);
            }
        }
    }
    assert(normalize_fraction(fr) == Ok::<int, TimeSpanError>(f as int));
    let ms = (d * 86_400 + h * 3_600 + m * 60 + sec) * 1_000;
    assert(ms * 10_000 + f == a);
    assert(ms <= 922_337_203_685_477);
    assert(ticks_magnitude(
        standard_days(t, kind),
        num_of(h, hour_width(t, kind)),
        num_of(m, 2),
        num_of(sec, 2),
        fr,
    ) == Ok::<int, TimeSpanError>(a as int));
}

/// The numbers and separators of the standard text of `t` read back as `t`, whenever the
/// day separator is allowed and all five numbers are only demanded of the long layout.
#[verifier::spinoff_prover]
#[verifier::rlimit(50)]
proof fn lemma_standard_interpret(
    t: int,
    kind: StandardFormat,
    allow_dot: bool,
    require_full: bool,
)
    requires
        fits_i64(t),
        kind == StandardFormat::Constant ==> allow_dot,
        require_full ==> kind == StandardFormat::GeneralLong,
    ensures
        interpret_raw(
            raw_of(standard_nums(t, kind), standard_seps(t, kind)),
            allow_dot,
            require_full,
        ) == Ok::<int, TimeSpanError>(t),
{
    let a = abs(t) as nat;
    lemma_parts(a);
    lemma_standard_magnitude(t, kind);
    let hd = has_days(t, kind);
    let hf = has_fraction(t, kind);
    let nums = standard_nums(t, kind);
    let seps = standard_seps(t, kind);
    let r = raw_of(nums, seps.push(Seq::empty()));
    assert(add_sep(raw_of(nums, seps), Seq::empty()) == Ok::<RawInfo, TimeSpanError>(r));
    let c = candidates(r, allow_dot);
    let sg = sign_text(t);
    assert(sg == Seq::<char>::empty() || sg == seq!['-']);
    assert(seq!['-'] != Seq::<char>::empty()) by {
        assert(seq!['-'].len() == 1);
    }
    assert(seq!['.'] != seq![':']) by {
        assert(seq!['.'][0] != seq![':'][0]);
    }
    assert(seq![':'] != seq![':', '.']) by {
        assert(seq![':'].len() != seq![':', '.'].len());
    }
    assert(seq!['.'] != seq![':', '.']) by {
        assert(seq!['.'].len() != seq![':', '.'].len());
    }
    assert(is_day_hour_sep(seq![day_sep(kind)], allow_dot));
    let want = cand(
        true,
        t >= 0,
        standard_days(t, kind),
        num_of(part_hours(a), hour_width(t, kind)),
        num_of(part_minutes(a), 2),
        num_of(part_seconds(a), 2),
        standard_fraction(t, kind),
    );
    if t >= 0 {
        if hd && !hf {
            assert(!c[0].matched);
            assert(c[1] == want);
            reveal_with_fuel(try_candidates, 2);
        } else {
            assert(c[0] == want);
        }
    } else {
        assert(!c[0].matched);
        if hd && hf {
            assert(c[1] == want);
            reveal_with_fuel(try_candidates, 2);
        } else if hd {
            assert(!c[1].matched);
            assert(!c[2].matched);
            assert(!c[3].matched);
            assert(c[4] == want);
            reveal_with_fuel(try_candidates, 5);
        } else {
            assert(!c[1].matched);
            assert(!c[2].matched);
            assert(c[3] == want);
            reveal_with_fuel(try_candidates, 4);
        }
    }
    assert(try_candidates(c, 0, false) == Ok::<int, TimeSpanError>(t));
}

/// The standard text of `t` in layout `kind` reads back as `t`, under the same conditions as
/// `lemma_standard_interpret`.
proof fn lemma_standard_round_trip(t: int, kind: StandardFormat, allow_dot: bool, require_full: bool)
    requires
        fits_i64(t),
        kind == StandardFormat::Constant ==> allow_dot,
        require_full ==> kind == StandardFormat::GeneralLong,
    ensures
        parse_text(standard_text(t, kind), allow_dot, require_full) == Ok::<int, TimeSpanError>(
            t,
        ),
{
    lemma_standard_layout(t, kind);
    lemma_trim_identity(standard_text(t, kind));
    lemma_standard_tokens(t, kind);
    lemma_standard_interpret(t, kind, allow_dot, require_full);
}

/// The general parser reads back the constant (`"c"`) text of every span: `to_string`
/// followed by `parse` (or `str::parse`) gives the span back, `min_value()` and
/// `max_value()` included.
pub proof fn law_display_parse_round_trip(t: TimeSpan)
    ensures
        parse_text(standard_text(t@, StandardFormat::Constant), true, false) == Ok::<
            int,
            TimeSpanError,
        >(t@),
{
    lemma_standard_round_trip(t@, StandardFormat::Constant, true, false);
}

/// `parse` reads back the text of every span in each of the standard layouts, `"g"` and
/// `"G"` as well as `"c"`.
pub proof fn law_parse_reads_standard_layouts(t: TimeSpan, kind: StandardFormat)
    ensures
        parse_text(standard_text(t@, kind), true, false) == Ok::<int, TimeSpanError>(t@),
{
    lemma_standard_round_trip(t@, kind, true, false);
}

/// The exact parser reads back the general layouts: `parse_exact` with `"g"` gives back what
/// `to_string_format("g")` wrote, and with `"G"` what `to_string_format("G")` wrote.
pub proof fn law_general_format_round_trip(t: TimeSpan)
    ensures
        parse_text(standard_text(t@, StandardFormat::GeneralShort), false, false) == Ok::<
            int,
            TimeSpanError,
        >(t@),
        parse_text(standard_text(t@, StandardFormat::GeneralLong), false, true) == Ok::<
            int,
            TimeSpanError,
        >(t@),
{
    lemma_standard_round_trip(t@, StandardFormat::GeneralShort, false, false);
    lemma_standard_round_trip(t@, StandardFormat::GeneralLong, false, true);
}

/// The value of a digit run read from the front: the first digit weighs `10^(len - 1)`.
#[verifier::spinoff_prover]
proof fn lemma_digits_value_front(x: Seq<char>)
    requires
        x.len() > 0,
    ensures
        digits_value(x) == digit_value(x[0]) * pow10((x.len() - 1) as nat) + digits_value(
            x.drop_first(),
        ),
    decreases x.len(),
{
    if x.len() == 1 {
        assert(x.drop_last() =~= Seq::<char>::empty());
        assert(x.drop_first() =~= Seq::<char>::empty());
        assert(digits_value(Seq::<char>::empty()) == 0);
        assert(x.last() == x[0]);
        assert(pow10(0) == 1);
        assert(digits_value(x) == digits_value(x.drop_last()) * 10 + digit_value(x.last()));
        assert(digits_value(x) == digit_value(x[0]));
        assert(digits_value(x.drop_first()) == 0);
        assert(pow10((x.len() - 1) as nat) == 1);
        assert(digit_value(x[0]) * pow10((x.len() - 1) as nat) == digit_value(x[0]));
    } else {
        let y = x.drop_last();
        lemma_digits_value_front(y);
        assert(y[0] == x[0]);
        assert(x.drop_first().drop_last() =~= y.drop_first());
        assert(digits_value(x) == digits_value(y) * 10 + digit_value(x.last()));
        assert(digits_value(x.drop_first()) == digits_value(y.drop_first()) * 10 + digit_value(
            x.last(),
        ));
        assert(x.drop_first().last() == x.last());
        let p = pow10((x.len() - 2) as nat);
        assert(pow10((x.len() - 1) as nat) == 10 * p);
        let a = digit_value(x[0]);
        let b = digits_value(y.drop_first());
        let c = digit_value(x.last());
        assert((a * p + b) * 10 + c == a * (10 * p) + (b * 10 + c)) by (nonlinear_arith);
        assert(digits_value(y) == a * p + b);
        assert(digits_value(x) == a * (10 * p) + (b * 10 + c));
        assert(a * pow10((x.len() - 1) as nat) == a * (10 * p));
    }
}

/// Reading `k` fraction digits that are all there gives the value of those digits.
proof fn lemma_constant_fraction_digits(s: Seq<char>, pos: int, k: nat)
    requires
        0 <= pos,
        pos + k <= s.len(),
        forall|j: int| pos <= j < pos + k ==> is_digit(#[trigger] s[j]),
    ensures
        constant_fraction(s, pos, k) == (digits_value(s.subrange(pos, pos + k)), pos + k),
    decreases k,
{
    if k > 0 {
        assert(is_digit(s[pos]));
        lemma_constant_fraction_digits(s, pos + 1, (k - 1) as nat);
        let x = s.subrange(pos, pos + k);
        lemma_digits_value_front(x);
        assert(x.drop_first() =~= s.subrange(pos + 1, pos + k));
    } else {
        assert(s.subrange(pos, pos) =~= Seq::<char>::empty());
    }
}

/// Padded digits standing at `i` and followed by no digit read as their value.
proof fn lemma_constant_int_pad(s: Seq<char>, i: int, v: nat, w: nat, max: int)
    requires
        0 <= i,
        i + w <= s.len(),
        w >= 1,
        s.subrange(i, i + w) == pad_digits(v, w),
        v < pow10(w),
        v <= max,
        v < 0x1000_0000,
        i + w == s.len() || !is_digit(s[i + w]),
    ensures
        constant_int(s, i, max) == Ok::<(int, int), TimeSpanError>((v as int, i + w)),
        forall|j: int| i <= j < i + w ==> is_digit(#[trigger] s[j]),
{
    lemma_pad_digits_shape(v, w);
    lemma_pad_digits_value(v, w);
    assert forall|j: int| i <= j < i + w implies j < s.len() && is_digit(#[trigger] s[j]) by {
        assert(s[j] == s.subrange(i, i + w)[j - i]);
    }
    lemma_run_end_at(s, i, i + w);
    if w >= 2 {
        assert(pad_digits(v, w).drop_last() == pad_digits(v / 10, (w - 1) as nat));
        assert(pow10(w) == 10 * pow10((w - 1) as nat));
        lemma_pad_digits_value(v / 10, (w - 1) as nat);
    }
}

/// The clock part of the constant text of `t`, with its fraction, reads as the ticks it
/// stands for and runs to the end of the text.
#[verifier::spinoff_prover]
#[verifier::rlimit(50)]
proof fn lemma_constant_time_layout(t: int)
    requires
        fits_i64(t),
    ensures
        ({
            let a = abs(t) as nat;
            let s = standard_text(t, StandardFormat::Constant);
            constant_time(s, clock_start(t, StandardFormat::Constant)) == Ok::<(int, int), TimeSpanError>(
                (
                    (part_hours(a) * 36_000_000_000 + part_minutes(a) * 600_000_000
                        + part_seconds(a) * 10_000_000 + part_fraction(a)) as int,
                    s.len() as int,
                ),
            )
        }),
{
    let s = standard_text(t, StandardFormat::Constant);
    let a = abs(t) as nat;
    lemma_parts(a);
    lemma_standard_layout(t, StandardFormat::Constant);
    let h = part_hours(a);
    let m = part_minutes(a);
    let sec = part_seconds(a);
    let f = part_fraction(a);
    let c = clock_start(t, StandardFormat::Constant);
    assert(pow10(2) == 100) by {
        reveal_with_fuel(pow10, 3);
    }
    assert(pow10(7) == 10_000_000) by {
        reveal_with_fuel(pow10, 8);
    }
    lemma_constant_int_pad(s, c, h, 2, 23);
    lemma_constant_int_pad(s, c + 3, m, 2, 59);
    lemma_constant_int_pad(s, c + 6, sec, 2, 59);
    if f != 0 {
        lemma_pad_digits_shape(f, 7);
        lemma_pad_digits_value(f, 7);
        assert forall|j: int| c + 9 <= j < c + 16 implies is_digit(#[trigger] s[j]) by {
            assert(s[j] == s.subrange(c + 9, c + 16)[j - (c + 9)]);
        }
        lemma_constant_fraction_digits(s, c + 9, 7);
    }
}

/// The exact parser with the `"c"` format reads back the constant text of every span:
/// `parse_exact` with `"c"`, `"t"` or `"T"` gives back what `to_string` wrote.
#[verifier::spinoff_prover]
#[verifier::rlimit(50)]
pub proof fn law_constant_format_round_trip(t: TimeSpan)
    ensures
        constant_text(standard_text(t@, StandardFormat::Constant)) == Ok::<int, TimeSpanError>(
            t@,
        ),
{
    let s = standard_text(t@, StandardFormat::Constant);
    let a = abs(t@) as nat;
    lemma_parts(a);
    lemma_standard_layout(t@, StandardFormat::Constant);
    lemma_constant_time_layout(t@);
    let d = part_days(a);
    let p = sign_text(t@).len() as int;
    let nd = num_digits(d);
    let c = clock_start(t@, StandardFormat::Constant);
    let len = s.len() as int;
    let clock = part_hours(a) * 36_000_000_000 + part_minutes(a) * 600_000_000 + part_seconds(a)
        * 10_000_000 + part_fraction(a);
    lemma_num_digits_bounds(d);
    assert(skip_blanks(s, 0) == 0);
    assert(t@ >= 0 ==> is_digit(s[0]));
    assert(ch_at(s, 0) == '-' <==> t@ < 0);
    let body = if d > 0 {
        lemma_constant_int_pad(s, p, d, nd, 10_675_199);
        assert(run_end(s, p, true) == p + nd);
        assert(ch_at(s, p + nd) == '.');
        Ok::<(int, int), TimeSpanError>(((d * 864_000_000_000 + clock) as int, len))
    } else {
        assert(pow10(2) == 100) by {
            reveal_with_fuel(pow10, 3);
        }
        lemma_constant_int_pad(s, c, part_hours(a), 2, 23);
        assert(run_end(s, p, true) == c + 2);
        Ok::<(int, int), TimeSpanError>((clock as int, len))
    };
    assert(body == Ok::<(int, int), TimeSpanError>((a as int, len)));
    assert(skip_blanks(s, len) == len);
}

/// Skipping white space from `i` stops within the text, at a character that is no white
/// space unless it is the end.
proof fn lemma_trim_start(s: Seq<char>, i: int)
    requires
        0 <= i <= s.len(),
    ensures
        i <= trim_start_at(s, i) <= s.len(),
        trim_start_at(s, i) < s.len() ==> !is_white_space(s[trim_start_at(s, i)]),
    decreases s.len() - i,
{
    if i < s.len() && is_white_space(s[i]) {
        lemma_trim_start(s, i + 1);
    }
}

/// Dropping white space before `j` stops between `lo` and `j`, after a character that is no
/// white space unless it is `lo`.
proof fn lemma_trim_end(s: Seq<char>, j: int, lo: int)
    requires
        0 <= lo <= j <= s.len(),
    ensures
        lo <= trim_end_at(s, j, lo) <= j,
        trim_end_at(s, j, lo) > lo ==> !is_white_space(s[trim_end_at(s, j, lo) - 1]),
    decreases j,
{
    if j > lo && j > 0 && is_white_space(s[j - 1]) {
        lemma_trim_end(s, j - 1, lo);
    }
}

/// Trimming twice trims no more than trimming once.
proof fn lemma_trim_idempotent(s: Seq<char>)
    ensures
        trim(trim(s)) == trim(s),
{
    let lo = trim_start_at(s, 0);
    lemma_trim_start(s, 0);
    let hi = trim_end_at(s, s.len() as int, lo);
    lemma_trim_end(s, s.len() as int, lo);
    let t = trim(s);
    if hi > lo {
        assert(t[0] == s[lo]);
        assert(t[t.len() - 1] == s[hi - 1]);
        lemma_trim_identity(t);
    } else {
        assert(t =~= Seq::<char>::empty());
        assert(trim_start_at(t, 0) == 0);
        assert(trim_end_at(t, 0, 0) == 0);
        assert(trim(t) =~= Seq::<char>::empty());
    }
}

/// The general parser ignores white space around the text: a text reads as its trimmed form
/// does.
pub proof fn law_parse_ignores_surrounding_white_space(
    s: Seq<char>,
    allow_dot: bool,
    require_full: bool,
)
    ensures
        parse_text(s, allow_dot, require_full) == parse_text(trim(s), allow_dot, require_full),
{
    lemma_trim_idempotent(s);
}

/// Ticks of a fraction number are never negative, and its only error is `Overflow`.
proof fn lemma_normalize_fraction_sign(f: NumSpec)
    requires
        f.value >= 0,
    ensures
        normalize_fraction(f) matches Ok(v) ==> v >= 0,
        normalize_fraction(f) matches Err(e) ==> e == TimeSpanError::Overflow,
{
    let total = num_digits(f.value as nat) + f.zeroes;
    if total > 7 {
        lemma_pow10_monotone(0, (total - 7) as nat);
        assert(pow10(0) == 1);
    }
    if total < 7 {
        let p = pow10((7 - total) as nat);
        assert(f.value * p >= 0) by (nonlinear_arith)
            requires
                f.value >= 0,
                p >= 0,
        ;
    }
}

/// Components read as a positive span: the ticks they add up to exactly when each is in
/// range, the fraction reads, and the total fits in a span; `Overflow` otherwise.
pub proof fn law_positive_components_ticks(
    days: NumSpec,
    hours: NumSpec,
    minutes: NumSpec,
    seconds: NumSpec,
    fraction: NumSpec,
)
    requires
        days.value >= 0,
        hours.value >= 0,
        minutes.value >= 0,
        seconds.value >= 0,
        fraction.value >= 0,
    ensures
        signed_ticks(true, days, hours, minutes, seconds, fraction) == match normalize_fraction(
            fraction,
        ) {
            Ok(f) => {
                let total = (days.value * 86_400 + hours.value * 3_600 + minutes.value * 60
                    + seconds.value) * 10_000_000 + f;
                if days.value <= 10_675_199 && hours.value <= 23 && minutes.value <= 59
                    && seconds.value <= 59 && total <= i64::MAX {
                    Ok::<int, TimeSpanError>(total)
                } else {
                    Err(TimeSpanError::Overflow)
                }
            },
            Err(_) => Err(TimeSpanError::Overflow),
        },
{
    lemma_normalize_fraction_sign(fraction);
}

/// `run_end` read after a prefix is `run_end` of the rest, shifted by the prefix.
proof fn lemma_run_end_shift(p: Seq<char>, u: Seq<char>, j: int, d: bool)
    requires
        0 <= j,
    ensures
        run_end(p + u, p.len() + j, d) == p.len() + run_end(u, j, d),
    decreases u.len() - j,
{
    if j < u.len() {
        assert((p + u)[p.len() + j] == u[j]);
        if is_digit(u[j]) == d {
            lemma_run_end_shift(p, u, j + 1, d);
        }
    }
}

/// A token read after a prefix is the token of the rest, shifted by the prefix.
proof fn lemma_next_token_shift(p: Seq<char>, u: Seq<char>, i: int)
    requires
        0 <= i < u.len(),
    ensures
        next_token(p + u, p.len() + i) == (next_token(u, i).0, p.len() + next_token(u, i).1),
{
    let k = p.len() as int;
    let v = p + u;
    assert(v[k + i] == u[i]);
    lemma_run_end_shift(p, u, i, true);
    lemma_run_end_shift(p, u, i + 1, false);
    lemma_run_end(u, i, true);
    lemma_run_end(u, i + 1, false);
    if is_digit(u[i]) {
        let e = run_end(u, i, true);
        assert(v.subrange(k + i, k + e) =~= u.subrange(i, e));
    } else {
        let e = run_end(u, i + 1, false);
        assert(v.subrange(k + i, k + e) =~= u.subrange(i, e));
    }
}

/// Reading tokens after a prefix reads the tokens of the rest.
proof fn lemma_read_tokens_shift(p: Seq<char>, u: Seq<char>, i: int, raw: RawInfo)
    requires
        0 <= i,
    ensures
        read_tokens(p + u, p.len() + i, raw) == read_tokens(u, i, raw),
    decreases u.len() - i,
{
    if i < u.len() {
        lemma_next_token_shift(p, u, i);
        lemma_next_token_end(u, i);
        let (tok, end) = next_token(u, i);
        match add_token(raw, tok) {
            Ok(r) => {
                lemma_read_tokens_shift(p, u, end, r);
            },
            Err(_) => {},
        }
    }
}

/// `raw` with its first separator replaced by `sep`.
spec fn with_first_sep(raw: RawInfo, sep: Seq<char>) -> RawInfo {
    RawInfo { seps: raw.seps.update(0, sep), ..raw }
}

/// A reading result with the first separator replaced by `sep`.
spec fn map_first_sep(r: Result<RawInfo, TimeSpanError>, sep: Seq<char>) -> Result<
    RawInfo,
    TimeSpanError,
> {
    match r {
        Ok(x) => Ok(with_first_sep(x, sep)),
        Err(e) => Err(e),
    }
}

/// Once the first separator is read, reading goes on the same whatever it was.
proof fn lemma_read_tokens_first_sep(u: Seq<char>, i: int, raw: RawInfo, sep: Seq<char>)
    requires
        0 <= i,
        raw.seps.len() >= 1,
        raw.count >= 1,
        raw.last_num ==> raw.seps.len() == raw.nums.len(),
        !raw.last_num ==> raw.seps.len() == raw.nums.len() + 1,
        i < u.len() ==> (is_digit(u[i]) <==> !raw.last_num),
    ensures
        read_tokens(u, i, with_first_sep(raw, sep)) == map_first_sep(read_tokens(u, i, raw), sep),
        read_tokens(u, i, raw) matches Ok(r) ==> r.seps.len() >= 1 && r.seps[0] == raw.seps[0]
            && (r.last_num ==> r.seps.len() == r.nums.len()) && (!r.last_num ==> r.seps.len()
            == r.nums.len() + 1),
    decreases u.len() - i,
{
    if 0 <= i < u.len() {
        lemma_next_token_end(u, i);
        lemma_run_end(u, i, true);
        lemma_run_end(u, i + 1, false);
        let (tok, end) = next_token(u, i);
        let rs = with_first_sep(raw, sep);
        match tok {
            Token::Sep(text) => {
                assert(rs.seps.push(text) =~= raw.seps.push(text).update(0, sep));
            },
            Token::Num(n) => {},
            Token::TooLarge => {},
        }
        match add_token(raw, tok) {
            Ok(r) => {
                assert(add_token(rs, tok) == Ok::<RawInfo, TimeSpanError>(with_first_sep(r, sep)));
                lemma_read_tokens_first_sep(u, end, r, sep);
            },
            Err(e) => {
                assert(add_token(rs, tok) == Err::<RawInfo, TimeSpanError>(e));
            },
        }
    }
}

/// Reading components as negative gives the negated span wherever reading them as positive
/// succeeds, and fails with `Overflow` only; without a fraction the two fail together.
proof fn lemma_signed_flip(d: NumSpec, h: NumSpec, m: NumSpec, s: NumSpec, f: NumSpec)
    ensures
        signed_ticks(true, d, h, m, s, f) matches Ok(v) ==> signed_ticks(false, d, h, m, s, f)
            == Ok::<int, TimeSpanError>(-v),
        f == num_zero() && signed_ticks(true, d, h, m, s, f) is Err ==> signed_ticks(
            false,
            d,
            h,
            m,
            s,
            f,
        ) is Err,
{
    if f == num_zero() {
        match ticks_magnitude(d, h, m, s, f) {
            Ok(mag) => {
                let ms = (d.value * 86_400 + h.value * 3_600 + m.value * 60 + s.value) * 1_000;
                assert(mag == ms * 10_000);
                assert(mag != 9_223_372_036_854_775_808);
            },
            Err(_) => {},
        }
    }
}

/// The separators the readings tell apart differ.
proof fn lemma_sign_seps_differ()
    ensures
        seq!['-'] != Seq::<char>::empty(),
        seq!['.'] != seq![':'],
        seq![':'] != seq![':', '.'],
        seq!['.'] != seq![':', '.'],
{
    assert(seq!['-'].len() == 1);
    assert(seq!['.'][0] != seq![':'][0]);
    assert(seq![':'].len() != seq![':', '.'].len());
    assert(seq!['.'].len() != seq![':', '.'].len());
}

/// The readings of one number give the negation of what they give without a sign, once the
/// sign separator is `-`.
#[verifier::spinoff_prover]
proof fn lemma_candidates_negative_1(r: RawInfo, allow_dot: bool)
    requires
        r.nums.len() == 1,
        r.seps.len() == r.nums.len() + 1,
        r.seps[0] == Seq::<char>::empty(),
    ensures
        try_candidates(candidates(r, allow_dot), 0, false) matches Ok(t) ==> try_candidates(
            candidates(with_first_sep(r, seq!['-']), allow_dot),
            0,
            false,
        ) == Ok::<int, TimeSpanError>(-t),
{
    let n = r.nums;
    let z = num_zero();
    lemma_sign_seps_differ();
    lemma_signed_flip(n[0], z, z, z, z);
    reveal_with_fuel(try_candidates, 3);
}

/// The readings of two numbers give the negation of what they give without a sign, once the
/// sign separator is `-`.
#[verifier::spinoff_prover]
proof fn lemma_candidates_negative_2(r: RawInfo, allow_dot: bool)
    requires
        r.nums.len() == 2,
        r.seps.len() == r.nums.len() + 1,
        r.seps[0] == Seq::<char>::empty(),
    ensures
        try_candidates(candidates(r, allow_dot), 0, false) matches Ok(t) ==> try_candidates(
            candidates(with_first_sep(r, seq!['-']), allow_dot),
            0,
            false,
        ) == Ok::<int, TimeSpanError>(-t),
{
    let n = r.nums;
    let z = num_zero();
    lemma_sign_seps_differ();
    lemma_signed_flip(z, n[0], n[1], z, z);
    reveal_with_fuel(try_candidates, 3);
}

/// The readings of three numbers give the negation of what they give without a sign, once the
/// sign separator is `-`.
#[verifier::spinoff_prover]
proof fn lemma_candidates_negative_3(r: RawInfo, allow_dot: bool)
    requires
        r.nums.len() == 3,
        r.seps.len() == r.nums.len() + 1,
        r.seps[0] == Seq::<char>::empty(),
    ensures
        try_candidates(candidates(r, allow_dot), 0, false) matches Ok(t) ==> try_candidates(
            candidates(with_first_sep(r, seq!['-']), allow_dot),
            0,
            false,
        ) == Ok::<int, TimeSpanError>(-t),
{
    let n = r.nums;
    let z = num_zero();
    lemma_sign_seps_differ();
    lemma_signed_flip(z, n[0], n[1], n[2], z);
    lemma_signed_flip(n[0], n[1], n[2], z, z);
    lemma_signed_flip(z, n[0], n[1], z, n[2]);
    reveal_with_fuel(try_candidates, 7);
}

/// The readings of four numbers give the negation of what they give without a sign, once the
/// sign separator is `-`.
#[verifier::spinoff_prover]
proof fn lemma_candidates_negative_4(r: RawInfo, allow_dot: bool)
    requires
        r.nums.len() == 4,
        r.seps.len() == r.nums.len() + 1,
        r.seps[0] == Seq::<char>::empty(),
    ensures
        try_candidates(candidates(r, allow_dot), 0, false) matches Ok(t) ==> try_candidates(
            candidates(with_first_sep(r, seq!['-']), allow_dot),
            0,
            false,
        ) == Ok::<int, TimeSpanError>(-t),
{
    let n = r.nums;
    let z = num_zero();
    lemma_sign_seps_differ();
    lemma_signed_flip(z, n[0], n[1], n[2], n[3]);
    lemma_signed_flip(n[0], n[1], n[2], n[3], z);
    lemma_signed_flip(n[0], n[1], n[2], z, n[3]);
    reveal_with_fuel(try_candidates, 7);
}

/// The readings of five numbers give the negation of what they give without a sign, once the
/// sign separator is `-`.
#[verifier::spinoff_prover]
proof fn lemma_candidates_negative_5(r: RawInfo, allow_dot: bool)
    requires
        r.nums.len() == 5,
        r.seps.len() == r.nums.len() + 1,
        r.seps[0] == Seq::<char>::empty(),
    ensures
        try_candidates(candidates(r, allow_dot), 0, false) matches Ok(t) ==> try_candidates(
            candidates(with_first_sep(r, seq!['-']), allow_dot),
            0,
            false,
        ) == Ok::<int, TimeSpanError>(-t),
{
    let n = r.nums;
    let z = num_zero();
    lemma_sign_seps_differ();
    lemma_signed_flip(n[0], n[1], n[2], n[3], n[4]);
    reveal_with_fuel(try_candidates, 3);
}

/// The readings of numbers and separators whose sign separator is `-` give the negation of
/// what the same readings give without a sign.
proof fn lemma_interpret_negative(raw: RawInfo, allow_dot: bool, require_full: bool)
    requires
        raw.seps.len() >= 1,
        raw.seps[0] == Seq::<char>::empty(),
        raw.last_num ==> raw.seps.len() == raw.nums.len(),
        !raw.last_num ==> raw.seps.len() == raw.nums.len() + 1,
    ensures
        interpret_raw(raw, allow_dot, require_full) matches Ok(t) ==> interpret_raw(
            with_first_sep(raw, seq!['-']),
            allow_dot,
            require_full,
        ) == Ok::<int, TimeSpanError>(-t),
{
    let rn = with_first_sep(raw, seq!['-']);
    let closed = if raw.last_num { add_sep(raw, Seq::empty()) } else { Ok(raw) };
    let closed_n = if rn.last_num { add_sep(rn, Seq::empty()) } else { Ok(rn) };
    if raw.last_num {
        assert(rn.seps.push(Seq::empty()) =~= raw.seps.push(Seq::empty()).update(0, seq!['-']));
    }
    assert(closed_n == map_first_sep(closed, seq!['-']));
    match closed {
        Err(_) => {},
        Ok(r) => {
            let k = r.nums.len();
            if k == 1 {
                lemma_candidates_negative_1(r, allow_dot);
            } else if k == 2 {
                lemma_candidates_negative_2(r, allow_dot);
            } else if k == 3 {
                lemma_candidates_negative_3(r, allow_dot);
            } else if k == 4 {
                lemma_candidates_negative_4(r, allow_dot);
            } else if k == 5 {
                lemma_candidates_negative_5(r, allow_dot);
            }
        },
    }
}

/// A `-` before a text that starts with a digit negates what the general parser reads.
pub proof fn law_parse_negative_sign(s: Seq<char>, allow_dot: bool, require_full: bool)
    requires
        s.len() > 0,
        is_digit(s[0]),
    ensures
        parse_text(s, allow_dot, require_full) matches Ok(t) ==> parse_text(
            seq!['-'] + s,
            allow_dot,
            require_full,
        ) == Ok::<int, TimeSpanError>(-t),
{
    let v = seq!['-'] + s;
    lemma_trim_negative(s);
    let u = trim(s);
    let w = seq!['-'] + u;
    assert(trim(v) == w);
    assert(u[0] == s[0]);
    lemma_sep_token(w, 0);
    assert(w[0] == '-');
    let raw1 = RawInfo {
        nums: Seq::empty(),
        seps: seq![seq!['-']],
        count: 1,
        last_num: false,
    };
    assert(Seq::<Seq<char>>::empty().push(seq!['-']) =~= seq![seq!['-']]);
    assert(read_tokens(w, 0, raw_empty()) == read_tokens(w, 1, raw1));
    lemma_read_tokens_shift(seq!['-'], u, 0, raw1);
    lemma_next_token_end(u, 0);
    lemma_run_end(u, 0, true);
    let (tok, end) = next_token(u, 0);
    match tok {
        Token::Num(num) => {
            let raw2 = RawInfo {
                nums: seq![num],
                seps: seq![Seq::<char>::empty()],
                count: 2,
                last_num: true,
            };
            assert(Seq::<NumSpec>::empty().push(num) =~= seq![num]);
            assert(Seq::<Seq<char>>::empty().push(Seq::<char>::empty()) =~= seq![
                Seq::<char>::empty(),
            ]);
            assert(read_tokens(u, 0, raw_empty()) == read_tokens(u, end, raw2));
            assert(seq![Seq::<char>::empty()].update(0, seq!['-']) =~= seq![seq!['-']]);
            assert(read_tokens(u, 0, raw1) == read_tokens(u, end, with_first_sep(raw2, seq!['-'])));
            lemma_read_tokens_first_sep(u, end, raw2, seq!['-']);
            match read_tokens(u, end, raw2) {
                Ok(r) => {
                    lemma_interpret_negative(r, allow_dot, require_full);
                },
                Err(_) => {},
            }
        },
        _ => {},
    }
}

/// Trimming a text after a `-` trims the text and keeps the `-`, when the text starts with a
/// digit.
proof fn lemma_trim_negative(s: Seq<char>)
    requires
        s.len() > 0,
        is_digit(s[0]),
    ensures
        trim(seq!['-'] + s) == seq!['-'] + trim(s),
        trim(s).len() > 0,
        trim(s)[0] == s[0],
{
    let v = seq!['-'] + s;
    assert(trim_start_at(s, 0) == 0);
    assert(trim_start_at(v, 0) == 0);
    lemma_trim_end_negative(s, s.len() as int);
    let e = trim_end_at(s, s.len() as int, 0);
    assert(v.subrange(0, e + 1) =~= seq!['-'] + s.subrange(0, e));
}

/// Dropping white space from the end of a text after a `-` drops the same characters as from
/// the text, when the text starts with no white space.
proof fn lemma_trim_end_negative(s: Seq<char>, j: int)
    requires
        1 <= j <= s.len(),
        !is_white_space(s[0]),
    ensures
        trim_end_at(seq!['-'] + s, j + 1, 0) == trim_end_at(s, j, 0) + 1,
        1 <= trim_end_at(s, j, 0) <= j,
    decreases j,
{
    let v = seq!['-'] + s;
    assert(v[j] == s[j - 1]);
    if is_white_space(s[j - 1]) {
        lemma_trim_end_negative(s, j - 1);
    }
}

/// The constant parser reads `hh:mm` as hours and minutes, and `hh:mm:ss` as hours,
/// minutes and seconds, for every in-range value.
pub proof fn law_constant_clock_components(h: nat, m: nat, sec: nat)
    requires
        h <= 23,
        m <= 59,
        sec <= 59,
    ensures
        constant_text(pad_digits(h, 2) + seq![':'] + pad_digits(m, 2)) == Ok::<int, TimeSpanError>(
            h * ticks_per_hour() + m * ticks_per_minute(),
        ),
        constant_text(pad_digits(h, 2) + seq![':'] + pad_digits(m, 2) + seq![':'] + pad_digits(
            sec,
            2,
        )) == Ok::<int, TimeSpanError>(
            h * ticks_per_hour() + m * ticks_per_minute() + sec * ticks_per_second(),
        ),
{
    assert(pow10(2) == 100) by {
        reveal_with_fuel(pow10, 3);
    }
    lemma_pad_digits_shape(h, 2);
    lemma_pad_digits_shape(m, 2);
    lemma_pad_digits_shape(sec, 2);
    let x = pad_digits(h, 2) + seq![':'] + pad_digits(m, 2);
    assert(x.subrange(0, 2) =~= pad_digits(h, 2));
    assert(x.subrange(3, 5) =~= pad_digits(m, 2));
    assert(x[0] == pad_digits(h, 2)[0]);
    assert(x[2] == ':');
    lemma_constant_int_pad(x, 0, h, 2, 23);
    lemma_constant_int_pad(x, 3, m, 2, 59);
    assert(skip_blanks(x, 0) == 0);
    assert(skip_blanks(x, 5) == 5);
    let y = x + seq![':'] + pad_digits(sec, 2);
    assert(y.subrange(0, 2) =~= pad_digits(h, 2));
    assert(y.subrange(3, 5) =~= pad_digits(m, 2));
    assert(y.subrange(6, 8) =~= pad_digits(sec, 2));
    assert(y[0] == pad_digits(h, 2)[0]);
    assert(y[6] == pad_digits(sec, 2)[0]);
    assert(y[2] == ':');
    assert(y[5] == ':');
    lemma_constant_int_pad(y, 0, h, 2, 23);
    lemma_constant_int_pad(y, 3, m, 2, 59);
    lemma_constant_int_pad(y, 6, sec, 2, 59);
    assert(skip_blanks(y, 0) == 0);
    assert(skip_blanks(y, 8) == 8);
}

/// The clock components a custom format writes are those of the accessors, without sign.
proof fn lemma_custom_parts_clock(t: int)
    ensures
        custom_parts(t).hours == abs(trunc_rem(trunc_div(t, ticks_per_hour()), 24)),
        custom_parts(t).minutes == abs(trunc_rem(trunc_div(t, ticks_per_minute()), 60)),
        custom_parts(t).seconds == abs(trunc_rem(trunc_div(t, ticks_per_second()), 60)),
{
    let a = abs(t);
    lemma_unit_within_day(a, 36_000_000_000, 24);
    lemma_unit_within_day(a, 600_000_000, 1440);
    lemma_unit_within_day(a, 10_000_000, 86400);
    assert((a / 600_000_000) % 1440 % 60 == (a / 600_000_000) % 60) by {
        vstd::arithmetic::div_mod::lemma_mod_mod(a / 600_000_000, 60, 24);
    }
    assert((a / 10_000_000) % 86400 % 60 == (a / 10_000_000) % 60) by {
        vstd::arithmetic::div_mod::lemma_mod_mod(a / 10_000_000, 60, 1440);
    }
}

/// Within a day of `u * k` ticks, whole units of `u` ticks count as the units of the whole
/// span modulo `k`.
proof fn lemma_unit_within_day(a: int, u: int, k: int)
    requires
        a >= 0,
        u > 0,
        k > 0,
    ensures
        (a % (u * k)) / u == (a / u) % k,
{
    vstd::arithmetic::div_mod::lemma_breakdown(a, u, k);
    vstd::arithmetic::div_mod::lemma_mod_pos_bound(a, u);
    vstd::arithmetic::div_mod::lemma_mod_pos_bound(a / u, k);
    assert(u * ((a / u) % k) == ((a / u) % k) * u) by (nonlinear_arith);
    vstd::arithmetic::div_mod::lemma_fundamental_div_mod_converse_div(
        a % (u * k),
        u,
        (a / u) % k,
        a % u,
    );
}

/// A single clock specifier `c` writes `v` in decimal, a doubled one in two digits.
#[verifier::spinoff_prover]
proof fn lemma_custom_clock_specifier(p: CustomParts, c: char, v: nat)
    requires
        c == 'h' || c == 'm' || c == 's',
        v == (if c == 'h' { p.hours } else if c == 'm' { p.minutes } else { p.seconds }),
        v < 100,
    ensures
        custom_text(seq!['%', c], 0, p) == Ok::<Seq<char>, TimeSpanError>(decimal(v)),
        custom_text(seq![c, c], 0, p) == Ok::<Seq<char>, TimeSpanError>(pad_digits(v, 2)),
{
    assert(pow10(2) == 100) by {
        reveal_with_fuel(pow10, 3);
    }
    lemma_num_digits_at_most(v, 2);
    lemma_num_digits_bounds(v);
    assert(decimal_min_width(v, 1) == decimal(v));
    assert(decimal_min_width(v, 2) == pad_digits(v, 2));
    let one = seq![c];
    assert(repeat_len(one, 1, c) == 0);
    assert(custom_text(one, 1, p) == Ok::<Seq<char>, TimeSpanError>(Seq::empty()));
    assert(decimal(v) + Seq::<char>::empty() =~= decimal(v));
    assert(custom_text(one, 0, p) == Ok::<Seq<char>, TimeSpanError>(decimal(v)));
    let pc = seq!['%', c];
    assert(custom_text(pc, 2, p) == Ok::<Seq<char>, TimeSpanError>(Seq::empty()));
    assert(seq![pc[1]] =~= one);
    let two = seq![c, c];
    assert(repeat_len(two, 2, c) == 0);
    assert(repeat_len(two, 1, c) == 1);
    assert(custom_text(two, 2, p) == Ok::<Seq<char>, TimeSpanError>(Seq::empty()));
    assert(pad_digits(v, 2) + Seq::<char>::empty() =~= pad_digits(v, 2));
}

/// A single `h`, `m` or `s` in a custom format writes the span's hours, minutes or seconds
/// (as the accessors give them, without sign) in decimal with no padding; a doubled one
/// writes them in two digits.
pub proof fn law_custom_clock_specifiers(t: TimeSpan)
    ensures
        format_text(t@, seq!['%', 'h']) == Ok::<Seq<char>, TimeSpanError>(
            decimal(abs(trunc_rem(trunc_div(t@, ticks_per_hour()), 24)) as nat),
        ),
        format_text(t@, seq!['%', 'm']) == Ok::<Seq<char>, TimeSpanError>(
            decimal(abs(trunc_rem(trunc_div(t@, ticks_per_minute()), 60)) as nat),
        ),
        format_text(t@, seq!['%', 's']) == Ok::<Seq<char>, TimeSpanError>(
            decimal(abs(trunc_rem(trunc_div(t@, ticks_per_second()), 60)) as nat),
        ),
        format_text(t@, seq!['h', 'h']) == Ok::<Seq<char>, TimeSpanError>(
            pad_digits(abs(trunc_rem(trunc_div(t@, ticks_per_hour()), 24)) as nat, 2),
        ),
        format_text(t@, seq!['m', 'm']) == Ok::<Seq<char>, TimeSpanError>(
            pad_digits(abs(trunc_rem(trunc_div(t@, ticks_per_minute()), 60)) as nat, 2),
        ),
        format_text(t@, seq!['s', 's']) == Ok::<Seq<char>, TimeSpanError>(
            pad_digits(abs(trunc_rem(trunc_div(t@, ticks_per_second()), 60)) as nat, 2),
        ),
{
    let p = custom_parts(t@);
    lemma_custom_parts_clock(t@);
    lemma_custom_clock_specifier(p, 'h', p.hours);
    lemma_custom_clock_specifier(p, 'm', p.minutes);
    lemma_custom_clock_specifier(p, 's', p.seconds);
}

/// A run of digits is the padded digits of its own value, and that value has no more digits
/// than the run.
proof fn lemma_digits_pad(d: Seq<char>)
    requires
        all_digits(d),
    ensures
        digits_value(d) < pow10(d.len()),
        digits_value(d) >= 0,
        pad_digits(digits_value(d) as nat, d.len()) == d,
    decreases d.len(),
{
    if d.len() == 0 {
        assert(pow10(0) == 1);
        assert(pad_digits(0, 0) =~= d);
    } else {
        let e = d.drop_last();
        assert(all_digits(e)) by {
            assert forall|i: int| 0 <= i < e.len() implies is_digit(#[trigger] e[i]) by {
                assert(e[i] == d[i]);
            }
        }
        lemma_digits_pad(e);
        let x = d.last();
        assert(is_digit(d[d.len() - 1]));
        let v = digits_value(d);
        let dv = digit_value(x);
        assert(0 <= dv <= 9);
        assert(v == digits_value(e) * 10 + dv);
        assert(v / 10 == digits_value(e));
        assert(v % 10 == dv);
        assert(digit_char(dv) == x);
        assert(pow10(d.len()) == 10 * pow10(e.len()));
        assert(pad_digits(v as nat, d.len()) == pad_digits((v / 10) as nat, e.len()).push(
            digit_char((v % 10) as int),
        ));
        assert(d =~= e.push(x));
    }
}

/// The ticks of a fraction given by its digits: the digits read as a decimal fraction of a
/// second, leading zeros included.
#[verifier::spinoff_prover]
proof fn lemma_fraction_digits_ticks(d: Seq<char>)
    requires
        all_digits(d),
        d.len() <= 7,
    ensures
        normalize_fraction(NumSpec { value: digits_value(d), zeroes: leading_zeros(d) })
            == Ok::<int, TimeSpanError>(digits_value(d) * pow10((7 - d.len()) as nat)),
{
    lemma_digits_pad(d);
    let v = digits_value(d);
    let k = d.len();
    let e = (7 - k) as nat;
    let fr = NumSpec { value: v, zeroes: leading_zeros(d) };
    lemma_pow10_monotone(k, 7);
    assert(pow10(7) == 10_000_000) by {
        reveal_with_fuel(pow10, 8);
    }
    if v == 0 {
        assert(normalize_fraction(fr) == Ok::<int, TimeSpanError>(0));
        assert(v * pow10(e) == 0);
    } else {
        lemma_pad_leading_zeros(v as nat, k);
        let total = num_digits(v as nat) + leading_zeros(d);
        assert(total == k);
        assert(v < 10_000_000);
        if k == 7 {
            assert(e == 0);
            assert(pow10(0) == 1);
            assert(v * pow10(e) == v);
            assert(normalize_fraction(fr) == Ok::<int, TimeSpanError>(v));
        } else {
            assert(normalize_fraction(fr) == Ok::<int, TimeSpanError>(v * pow10(e)));
        }
    }
}

/// `n` copies of `c`.
pub open spec fn repeated(c: char, n: nat) -> Seq<char> {
    Seq::new(n, |_i: int| c)
}

/// A run of `n` copies of `c` after a prefix repeats to the end.
proof fn lemma_repeat_len_repeated(p: Seq<char>, c: char, n: nat, j: int)
    requires
        0 <= j <= n,
    ensures
        repeat_len(p + repeated(c, n), p.len() + j, c) == n - j,
    decreases n - j,
{
    if j < n {
        assert((p + repeated(c, n))[p.len() + j] == c);
        lemma_repeat_len_repeated(p, c, n, j + 1);
    }
}

/// Reading digits after `pos` where exactly `k` digits stand before a non-digit or the end,
/// with `k` at most `max`.
proof fn lemma_exact_digits_run(s: Seq<char>, pos: int, min: int, max: int, k: int)
    requires
        -1 <= pos,
        0 <= k <= max,
        pos + 1 + k <= s.len(),
        forall|j: int| pos + 1 <= j < pos + 1 + k ==> is_digit(#[trigger] s[j]),
        pos + 1 + k == s.len() || !is_digit(s[pos + 1 + k]),
    ensures
        exact_digits(s, pos, min, max) == (
            leading_zeros(s.subrange(pos + 1, pos + 1 + k)),
            digits_value(s.subrange(pos + 1, pos + 1 + k)),
            k >= min,
            if k < max && pos + 1 + k == 0 { 0 } else { pos + k },
        ),
{
    lemma_run_end_at(s, pos + 1, pos + 1 + k);
}

/// A run of `n` fraction specifiers reads the digits after the seconds as a decimal fraction
/// of a second, leading zeros included: `f` requires exactly `n` digits, `F` reads any number
/// of them up to `n`, and too few digits for `f` is `InvalidFormat`.
#[verifier::spinoff_prover]
#[verifier::rlimit(60)]
pub proof fn law_custom_fraction_digits(sec: nat, c: char, n: nat, d: Seq<char>)
    requires
        sec <= 59,
        c == 'f' || c == 'F',
        1 <= n <= 7,
        d.len() <= n,
        all_digits(d),
    ensures
        c == 'F' || d.len() == n ==> exact_text(
            pad_digits(sec, 2) + seq!['.'] + d,
            seq!['s', 's', '\\', '.'] + repeated(c, n),
            TimeSpanStyles::NoFlags,
        ) == Ok::<int, TimeSpanError>(
            sec * ticks_per_second() + digits_value(d) * pow10((7 - d.len()) as nat),
        ),
        c == 'f' && d.len() < n ==> exact_text(
            pad_digits(sec, 2) + seq!['.'] + d,
            seq!['s', 's', '\\', '.'] + repeated(c, n),
            TimeSpanStyles::NoFlags,
        ) == Err::<int, TimeSpanError>(TimeSpanError::InvalidFormat),
{
    let s = pad_digits(sec, 2) + seq!['.'] + d;
    let head = seq!['s', 's', '\\', '.'];
    let f = head + repeated(c, n);
    let k = d.len() as int;
    assert(pow10(2) == 100) by {
        reveal_with_fuel(pow10, 3);
    }
    lemma_pad_digits_shape(sec, 2);
    lemma_pad_digits_value(sec, 2);
    assert(s.len() == 3 + k);
    assert(f.len() == 4 + n);
    assert(f[0] == 's' && f[1] == 's' && f[2] == '\\' && f[3] == '.');
    assert(s[2] == '.');
    // The seconds.
    assert(s.subrange(0, 2) =~= pad_digits(sec, 2));
    assert forall|j: int| 0 <= j < 2 implies is_digit(#[trigger] s[j]) by {
        assert(s[j] == pad_digits(sec, 2)[j]);
    }
    lemma_exact_digits_run(s, -1, 2, 2, 2);
    assert(repeat_len(f, 2, 's') == 0);
    assert(repeat_len(f, 1, 's') == 1);
    let st0 = exact_start();
    let st1 = ExactState { seconds: sec as int, seen_seconds: true, pos: 1, ..st0 };
    assert(exact_run(s, f, 0, st0) == exact_run(s, f, 2, st1));
    // The escaped dot.
    let st2 = ExactState { pos: 2, ..st1 };
    assert(exact_run(s, f, 2, st1) == exact_run(s, f, 4, st2));
    // The fraction.
    lemma_repeat_len_repeated(head, c, n, 1);
    assert(f[4] == c);
    assert(s.subrange(3, 3 + k) =~= d);
    assert forall|j: int| 3 <= j < 3 + k implies is_digit(#[trigger] s[j]) by {
        assert(s[j] == d[j - 3]);
    }
    lemma_exact_digits_run(s, 2, n as int, n as int, k);
    let st3 = ExactState {
        fraction: digits_value(d),
        zeroes: leading_zeros(d),
        seen_fraction: true,
        pos: 2 + k,
        ..st2
    };
    if c == 'F' || k == n {
        assert(exact_run(s, f, 4 + n as int, st3) == Ok::<ExactState, TimeSpanError>(st3));
        assert(exact_run(s, f, 4, st2) == exact_run(s, f, 4 + n as int, st3));
        lemma_fraction_digits_ticks(d);
        lemma_digits_pad(d);
        lemma_pow10_monotone((7 - k) as nat, 7);
        lemma_pow10_monotone(k as nat, 7);
        assert(pow10(7) == 10_000_000) by {
            reveal_with_fuel(pow10, 8);
        }
        assert(pow10(k as nat) * pow10((7 - k) as nat) == pow10(7)) by {
            lemma_pow10_add(k as nat, (7 - k) as nat);
        }
        assert(digits_value(d) * pow10((7 - k) as nat) < 10_000_000) by (nonlinear_arith)
            requires
                0 <= digits_value(d) < pow10(k as nat),
                pow10(k as nat) * pow10((7 - k) as nat) == 10_000_000,
                pow10((7 - k) as nat) >= 0,
        ;
        assert(digits_value(d) * pow10((7 - k) as nat) >= 0) by (nonlinear_arith)
            requires
                0 <= digits_value(d),
                pow10((7 - k) as nat) >= 0,
        ;
    } else {
        assert(exact_run(s, f, 4, st2) == Err::<ExactState, TimeSpanError>(
            TimeSpanError::InvalidFormat,
        ));
    }
}

/// Powers of ten multiply by adding exponents.
proof fn lemma_pow10_add(a: nat, b: nat)
    ensures
        pow10(a) * pow10(b) == pow10(a + b),
    decreases a,
{
    if a == 0 {
        assert(pow10(0) == 1);
    } else {
        lemma_pow10_add((a - 1) as nat, b);
        assert(pow10(a) == 10 * pow10((a - 1) as nat));
        assert(pow10(a + b) == 10 * pow10((a - 1 + b) as nat));
        assert(10 * pow10((a - 1) as nat) * pow10(b) == 10 * (pow10((a - 1) as nat) * pow10(b)))
            by (nonlinear_arith);
    }
}

/// Whether format `j` of `fs` is the first, from `i` on, that reads `s` (as `v`) under
/// `styles`: every format before it is non-empty and fails to read `s`.
pub open spec fn first_reading(
    s: Seq<char>,
    fs: Seq<Seq<char>>,
    styles: TimeSpanStyles,
    i: int,
    j: int,
    v: int,
) -> bool {
    &&& i <= j < fs.len()
    &&& fs[j].len() > 0
    &&& exact_text(s, fs[j], styles) == Ok::<int, TimeSpanError>(v)
    &&& forall|l: int|
        i <= l < j ==> fs[l].len() > 0 && (#[trigger] exact_text(s, fs[l], styles)) is Err
}

/// Trying the formats from `i` on reads `v` exactly when one of them is the first to read it.
#[verifier::spinoff_prover]
#[verifier::rlimit(40)]
proof fn lemma_exact_multiple_from(
    s: Seq<char>,
    fs: Seq<Seq<char>>,
    styles: TimeSpanStyles,
    i: int,
    v: int,
)
    requires
        0 <= i,
    ensures
        exact_multiple_from(s, fs, i, styles) == Ok::<int, TimeSpanError>(v) <==> exists|j: int|
            first_reading(s, fs, styles, i, j, v),
        exact_multiple_from(s, fs, i, styles) is Err ==> exact_multiple_from(s, fs, i, styles)
            == Err::<int, TimeSpanError>(TimeSpanError::InvalidFormat),
    decreases fs.len() - i,
{
    if i < fs.len() {
        let next = i + 1;
        lemma_exact_multiple_from(s, fs, styles, next, v);
        if exists|j: int| first_reading(s, fs, styles, i, j, v) {
            let j = choose|j: int| first_reading(s, fs, styles, i, j, v);
            if j > i {
                assert(fs[i].len() > 0 && exact_text(s, fs[i], styles) is Err);
                assert(first_reading(s, fs, styles, next, j, v));
            }
        }
        if fs[i].len() > 0 {
            match exact_text(s, fs[i], styles) {
                Ok(w) => {
                    if w == v {
                        assert(first_reading(s, fs, styles, i, i, v));
                    }
                },
                Err(_) => {
                    if exists|j: int| first_reading(s, fs, styles, next, j, v) {
                        let j = choose|j: int| first_reading(s, fs, styles, next, j, v);
                        assert(first_reading(s, fs, styles, i, j, v));
                    }
                },
            }
        }
    }
}

/// `parse_exact_multiple` reads the input with the first of its formats, in order and all
/// under the same styles, that reads it: the result is `v` exactly when some format reads
/// the input as `v` and every format before it is non-empty and fails; every failure is
/// `InvalidFormat`.
pub proof fn law_exact_multiple_first_match(
    s: Seq<char>,
    fs: Seq<Seq<char>>,
    styles: TimeSpanStyles,
    v: int,
)
    requires
        s.len() > 0,
    ensures
        exact_multiple(s, fs, styles) == Ok::<int, TimeSpanError>(v) <==> exists|j: int|
            first_reading(s, fs, styles, 0, j, v),
        exact_multiple(s, fs, styles) is Err ==> exact_multiple(s, fs, styles) == Err::<
            int,
            TimeSpanError,
        >(TimeSpanError::InvalidFormat),
{
    lemma_exact_multiple_from(s, fs, styles, 0, v);
    if fs.len() == 0 {
        assert(!exists|j: int| first_reading(s, fs, styles, 0, j, v));
    }
}

} // verus!

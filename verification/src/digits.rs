use vstd::prelude::*;

verus! {

/// `10` to the power `n`.
pub open spec fn pow10(n: nat) -> nat
    decreases n,
{
    if n == 0 { 1 } else { 10 * pow10((n - 1) as nat) }
}

/// Whether `c` is one of the ASCII digits `'0'..='9'`.
pub open spec fn is_digit(c: char) -> bool {
    '0' <= c && c <= '9'
}

/// The numeric value of a digit character.
pub open spec fn digit_value(c: char) -> int {
    c as int - '0' as int
}

/// The ASCII digit character for `d` in `0..=9`.
pub open spec fn digit_char(d: int) -> char {
    (d + '0' as int) as char
}

/// The last `w` decimal digits of `v`, zero-padded on the left.
pub open spec fn pad_digits(v: nat, w: nat) -> Seq<char>
    decreases w,
{
    if w == 0 {
        Seq::empty()
    } else {
        pad_digits(v / 10, (w - 1) as nat).push(digit_char((v % 10) as int))
    }
}

/// How many decimal digits `v` needs (one for zero).
pub open spec fn num_digits(v: nat) -> nat
    decreases v,
{
    if v < 10 { 1 } else { 1 + num_digits(v / 10) }
}

/// The decimal representation of `v` with no leading zeros.
pub open spec fn decimal(v: nat) -> Seq<char> {
    pad_digits(v, num_digits(v))
}

/// The number a sequence of digit characters denotes.
pub open spec fn digits_value(s: Seq<char>) -> int
    decreases s.len(),
{
    if s.len() == 0 {
        0
    } else {
        digits_value(s.drop_last()) * 10 + digit_value(s.last())
    }
}

/// How many characters at the start of `s` are `'0'`.
pub open spec fn leading_zeros(s: Seq<char>) -> nat
    decreases s.len(),
{
    if s.len() > 0 && s[0] == '0' { 1 + leading_zeros(s.drop_first()) } else { 0 }
}

/// Whether every character of `s` is a digit.
pub open spec fn all_digits(s: Seq<char>) -> bool {
    forall|i: int| 0 <= i < s.len() ==> is_digit(#[trigger] s[i])
}

/// `pad_digits` yields exactly `w` digit characters.
pub proof fn lemma_pad_digits_shape(v: nat, w: nat)
    ensures
        pad_digits(v, w).len() == w,
        all_digits(pad_digits(v, w)),
    decreases w,
{
    if w > 0 {
        lemma_pad_digits_shape(v / 10, (w - 1) as nat);
    }
}

/// `num_digits(v)` digits are enough for `v`, and `v` needs all of them.
pub proof fn lemma_num_digits_bounds(v: nat)
    ensures
        v < pow10(num_digits(v)),
        num_digits(v) >= 1,
        pow10((num_digits(v) - 1) as nat) <= v || v == 0,
    decreases v,
{
    if v < 10 {
        assert(pow10(1) == 10) by {
            assert(pow10(0) == 1);
        }
        assert(pow10(0) == 1);
    } else {
        let q = v / 10;
        lemma_num_digits_bounds(q);
        let n = num_digits(q);
        let p = pow10(n);
        assert(pow10(n + 1) == 10 * p);
        assert(v < 10 * p) by (nonlinear_arith)
            requires
                q == v / 10,
                q < p,
        ;
        if q >= 10 {
            let pp = pow10((n - 1) as nat);
            assert(p == 10 * pp);
            assert(10 * pp <= v) by (nonlinear_arith)
                requires
                    q == v / 10,
                    pp <= q,
            ;
        } else {
            assert(n == 1);
            assert(pow10(1) == 10) by {
                assert(pow10(0) == 1);
            }
        }
    }
}

/// A number below `10^k` needs at most `k` digits.
pub proof fn lemma_num_digits_at_most(v: nat, k: nat)
    requires
        v < pow10(k),
        k >= 1,
    ensures
        num_digits(v) <= k,
{
    lemma_num_digits_bounds(v);
    if num_digits(v) > k {
        lemma_pow10_monotone(k, (num_digits(v) - 1) as nat);
    }
}

/// Powers of ten grow with the exponent.
pub proof fn lemma_pow10_monotone(a: nat, b: nat)
    requires
        a <= b,
    ensures
        pow10(a) <= pow10(b),
    decreases b,
{
    if a < b {
        lemma_pow10_monotone(a, (b - 1) as nat);
    }
}

/// The value of padded digits is the padded number, when it fits in the width.
pub proof fn lemma_pad_digits_value(v: nat, w: nat)
    requires
        v < pow10(w),
    ensures
        digits_value(pad_digits(v, w)) == v,
    decreases w,
{
    if w > 0 {
        assert(v / 10 < pow10((w - 1) as nat));
        lemma_pad_digits_value(v / 10, (w - 1) as nat);
        let s = pad_digits(v, w);
        assert(s.drop_last() == pad_digits(v / 10, (w - 1) as nat));
    }
}

/// The digits before `k` never have a larger value than the whole run.
pub proof fn lemma_digits_value_prefix(s: Seq<char>, k: int)
    requires
        0 <= k <= s.len(),
        forall|i: int| 0 <= i < s.len() ==> is_digit(#[trigger] s[i]),
    ensures
        0 <= digits_value(s.take(k)) <= digits_value(s),
    decreases s.len(),
{
    if s.len() > 0 {
        let d = s.drop_last();
        assert forall|i: int| 0 <= i < d.len() implies is_digit(#[trigger] d[i]) by {
            assert(d[i] == s[i]);
        }
        if k < s.len() {
            lemma_digits_value_prefix(d, k);
            assert(d.take(k) =~= s.take(k));
        } else {
            assert(s.take(k) =~= s);
            lemma_digits_value_prefix(d, d.len() as int);
            assert(d.take(d.len() as int) =~= d);
        }
    }
}

/// `s` with `c` appended has one more leading zero than `s` exactly when `s` is all zeros
/// and `c` is a zero.
pub proof fn lemma_leading_zeros_push(t: Seq<char>, c: char)
    ensures
        leading_zeros(t.push(c)) == if leading_zeros(t) == t.len() && c == '0' {
            t.len() as int + 1
        } else {
            leading_zeros(t) as int
        },
        leading_zeros(t) <= t.len(),
    decreases t.len(),
{
    reveal_with_fuel(leading_zeros, 2);
    if t.len() > 0 {
        assert(t.push(c)[0] == t[0]);
        assert(t.push(c).drop_first() =~= t.drop_first().push(c));
        lemma_leading_zeros_push(t.drop_first(), c);
    } else {
        assert(t.push(c).drop_first() =~= Seq::<char>::empty());
    }
}

/// Appends the last `w` digits of `v`, zero-padded on the left.
pub(crate) fn push_padded_digits(out: &mut Vec<char>, v: u64, w: usize)
    ensures
        final(out)@ == old(out)@ + pad_digits(v as nat, w as nat),
    decreases w,
{
    if w == 0 {
        assert(old(out)@ + pad_digits(v as nat, w as nat) == old(out)@);
        return;
    }
    push_padded_digits(out, v / 10, w - 1);
    let d = (v % 10) as u8;
    out.push((d + 48u8) as char);
}

/// How many decimal digits `v` needs (one for zero).
pub(crate) fn count_digits(v: u64) -> (r: usize)
    ensures
        r == num_digits(v as nat),
        r <= 20,
    decreases v,
{
    proof {
        assert(pow10(20) == 100_000_000_000_000_000_000) by {
            reveal_with_fuel(pow10, 21);
        }
        lemma_num_digits_at_most(v as nat, 20);
    }
    if v < 10 {
        1
    } else {
        1 + count_digits(v / 10)
    }
}

} // verus!

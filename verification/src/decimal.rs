//! Decimal numerals: the value of a run of decimal digits, the unsigned
//! integers that `u64::from_str` accepts, and seconds, written as
//! `f64::from_str` accepts them, converted to whole milliseconds.
use vstd::prelude::*;
use vstd::arithmetic::div_mod::lemma_fundamental_div_mod_converse;
use crate::text::{first_index_of, lemma_first_index_of, sub_chars};

verus! {

/// Ten to the power `n`.
pub open spec fn pow10(n: nat) -> nat
    decreases n,
{
    if n == 0 {
        1
    } else {
        10 * pow10((n - 1) as nat)
    }
}

/// Every element is a decimal digit value.
pub open spec fn all_digit_values(d: Seq<u8>) -> bool {
    forall|i: int| 0 <= i < d.len() ==> #[trigger] d[i] <= 9
}

/// The number that the digit values `d` denote, most significant first
/// (0 for no digits).
pub open spec fn value_of(d: Seq<u8>) -> nat
    decreases d.len(),
{
    if d.len() == 0 {
        0
    } else {
        value_of(d.drop_last()) * 10 + d.last() as nat
    }
}

/// `x` as a `u64`, with everything above `u64::MAX` taken to `u64::MAX`.
pub open spec fn saturate(x: int) -> u64 {
    if x > u64::MAX {
        u64::MAX
    } else if x < 0 {
        0
    } else {
        x as u64
    }
}

/// `m * 10^shift` rounded to the nearest integer, halves rounded up.
pub open spec fn scaled_rounded(m: nat, shift: int) -> nat {
    if shift >= 0 {
        m * pow10(shift as nat)
    } else {
        let p = pow10((-shift) as nat);
        ((2 * m + p) / (2 * p)) as nat
    }
}

pub proof fn lemma_pow10_positive(n: nat)
    ensures
        pow10(n) >= 1,
    decreases n,
{
    if n > 0 {
        lemma_pow10_positive((n - 1) as nat);
    }
}

proof fn lemma_pow10_monotone(a: nat, b: nat)
    requires
        a <= b,
    ensures
        pow10(a) <= pow10(b),
    decreases b,
{
    if a < b {
        lemma_pow10_monotone(a, (b - 1) as nat);
        lemma_pow10_positive((b - 1) as nat);
    }
}

proof fn lemma_pow10_add(a: nat, b: nat)
    ensures
        pow10(a + b) == pow10(a) * pow10(b),
    decreases b,
{
    if b > 0 {
        let b1 = (b - 1) as nat;
        lemma_pow10_add(a, b1);
        assert(a + b == (a + b1) + 1);
        assert(pow10(a + b) == 10 * pow10(a + b1));
        assert(pow10(b) == 10 * pow10(b1));
        let x = pow10(a);
        let y = pow10(b1);
        assert(x * (10 * y) == 10 * (x * y)) by (nonlinear_arith);
        assert(pow10(a + b1) == x * y);
        assert(pow10(a + b) == 10 * (x * y));
        assert(pow10(a) * pow10(b) == x * (10 * y));
    } else {
        assert(pow10(0) == 1);
        assert(a + b == a);
        assert(pow10(a) * pow10(b) == pow10(a) * 1);
    }
}

proof fn lemma_pow10_20()
    ensures
        pow10(20) > u64::MAX,
{
    reveal_with_fuel(pow10, 21);
}

/// Splitting the digits at `j`: the value is the prefix's value shifted
/// past the suffix, plus the suffix's value.
proof fn lemma_value_split(d: Seq<u8>, j: int)
    requires
        0 <= j <= d.len(),
    ensures
        value_of(d) == value_of(d.take(j)) * pow10((d.len() - j) as nat) + value_of(d.skip(j)),
    decreases d.len(),
{
    if j == d.len() {
        assert(d.take(j) == d);
        assert(d.skip(j) == Seq::<u8>::empty());
        assert(pow10(0) == 1);
        assert(value_of(Seq::<u8>::empty()) == 0);
        assert((d.len() - j) as nat == 0);
        assert(value_of(d) * pow10(0) == value_of(d));
    } else {
        let e = d.drop_last();
        lemma_value_split(e, j);
        assert(e.take(j) == d.take(j));
        assert(d.skip(j).drop_last() == e.skip(j));
        assert(d.skip(j).last() == d.last());
        let k = (d.len() - j) as nat;
        assert(pow10(k) == 10 * pow10((k - 1) as nat));
        let a = value_of(d.take(j));
        let p = pow10((k - 1) as nat);
        let r = value_of(e.skip(j));
        assert(e.len() - j == k - 1);
        assert(value_of(e) == a * p + r);
        assert(value_of(d) == value_of(e) * 10 + d.last());
        assert(value_of(d.skip(j)) == r * 10 + d.last());
        assert((a * p + r) * 10 + d.last() == a * (10 * p) + (r * 10 + d.last()))
            by (nonlinear_arith);
        assert(pow10((d.len() - j) as nat) == 10 * p);
        assert(a * pow10((d.len() - j) as nat) == a * (10 * p));
    }
}

proof fn lemma_value_bound(d: Seq<u8>)
    requires
        all_digit_values(d),
    ensures
        value_of(d) < pow10(d.len()),
    decreases d.len(),
{
    if d.len() > 0 {
        let e = d.drop_last();
        lemma_value_bound(e);
        assert(d.last() <= 9);
        let v = value_of(e);
        let p = pow10(e.len());
        assert(v * 10 + d.last() < 10 * p) by (nonlinear_arith)
            requires
                v < p,
                d.last() <= 9,
        ;
    }
}

proof fn lemma_value_prefix_step(d: Seq<u8>, i: int)
    requires
        0 <= i < d.len(),
    ensures
        value_of(d.take(i + 1)) == value_of(d.take(i)) * 10 + d[i],
{
    assert(d.take(i + 1).drop_last() == d.take(i));
}

/// Rounding at a split: with `k >= 1` digits after the split, the rounded
/// quotient is the prefix's value, plus one when the first dropped digit is
/// 5 or more.
proof fn lemma_round_at_split(d: Seq<u8>, k: nat)
    requires
        all_digit_values(d),
        1 <= k <= d.len(),
    ensures
        scaled_rounded(value_of(d), -(k as int)) == value_of(d.take(d.len() - k)) + (if d[d.len()
            - k] >= 5 {
            1int
        } else {
            0
        }),
{
    let j = d.len() - k;
    lemma_value_split(d, j);
    let q: int = value_of(d.take(j)) as int;
    let r: int = value_of(d.skip(j)) as int;
    let p: int = pow10(k) as int;
    let s = d.skip(j);
    assert(all_digit_values(s));
    assert(all_digit_values(s.drop_first()));
    lemma_value_split(s, 1);
    assert(s.take(1).drop_last() == Seq::<u8>::empty());
    assert(value_of(Seq::<u8>::empty()) == 0);
    assert(s.take(1).last() == s[0]);
    assert(value_of(s.take(1)) == s[0]);
    assert(s.skip(1) == s.drop_first());
    lemma_value_bound(s.drop_first());
    let r2: int = value_of(s.drop_first()) as int;
    let p1: int = pow10((k - 1) as nat) as int;
    assert(p == 10 * p1);
    assert(r == s[0] * p1 + r2);
    assert(s[0] == d[j]);
    lemma_pow10_positive((k - 1) as nat);
    let m: int = value_of(d) as int;
    assert(m == q * p + r);
    if d[j] >= 5 {
        assert(2 * r >= p && 2 * r - p < 2 * p) by (nonlinear_arith)
            requires
                r == s[0] * p1 + r2,
                s[0] >= 5,
                s[0] <= 9,
                r2 < p1,
                p == 10 * p1,
                r2 >= 0,
        ;
        assert(2 * m + p == (q + 1) * (2 * p) + (2 * r - p)) by (nonlinear_arith)
            requires
                m == q * p + r,
        ;
        lemma_fundamental_div_mod_converse(2 * m + p, 2 * p, q + 1, 2 * r - p);
    } else {
        assert(0 <= 2 * r + p < 2 * p) by (nonlinear_arith)
            requires
                r == s[0] * p1 + r2,
                s[0] <= 4,
                r2 < p1,
                p == 10 * p1,
                r2 >= 0,
        ;
        assert(2 * m + p == q * (2 * p) + (2 * r + p)) by (nonlinear_arith)
            requires
                m == q * p + r,
        ;
        lemma_fundamental_div_mod_converse(2 * m + p, 2 * p, q, 2 * r + p);
    }
}

/// Rounding away every digit and the digit after: the result is 0.
proof fn lemma_round_below_all(d: Seq<u8>, k: nat)
    requires
        all_digit_values(d),
        k > d.len(),
    ensures
        scaled_rounded(value_of(d), -(k as int)) == 0,
{
    lemma_value_bound(d);
    lemma_pow10_monotone(d.len(), (k - 1) as nat);
    let m: int = value_of(d) as int;
    let p: int = pow10(k) as int;
    let p1: int = pow10((k - 1) as nat) as int;
    assert(p == 10 * p1);
    lemma_pow10_positive((k - 1) as nat);
    assert(0 <= 2 * m + p < 2 * p) by (nonlinear_arith)
        requires
            m < p1,
            p == 10 * p1,
            m >= 0,
    ;
    lemma_fundamental_div_mod_converse(2 * m + p, 2 * p, 0, 2 * m + p);
}

/// The value of the first `n` digits, saturated: `(acc, over)` where `over`
/// tells that the value exceeds `u64::MAX` and `acc` is the value otherwise.
fn prefix_value(d: &Vec<u8>, n: usize) -> (res: (u64, bool))
    requires
        all_digit_values(d@),
        n <= d@.len(),
    ensures
        res.1 <==> value_of(d@.take(n as int)) > u64::MAX,
        !res.1 ==> res.0 == value_of(d@.take(n as int)),
{
    let mut acc: u64 = 0;
    let mut over = false;
    let mut i: usize = 0;
    assert(d@.take(0) == Seq::<u8>::empty());
    while i < n
        invariant
            all_digit_values(d@),
            n <= d@.len(),
            i <= n,
            over <==> value_of(d@.take(i as int)) > u64::MAX,
            !over ==> acc == value_of(d@.take(i as int)),
        decreases n - i,
    {
        proof {
            lemma_value_prefix_step(d@, i as int);
        }
        let x = d[i];
        assert(x <= 9);
        if !over {
            if acc > (u64::MAX - x as u64) / 10 {
                over = true;
            } else {
                acc = acc * 10 + x as u64;
            }
        }
        i = i + 1;
    }
    (acc, over)
}

/// `value_of(d) * 10^shift`, rounded to the nearest integer with halves
/// rounded up, and saturated at `u64::MAX`.
pub fn scaled_millis(d: &Vec<u8>, shift: i128) -> (ms: u64)
    requires
        all_digit_values(d@),
    ensures
        ms == saturate(scaled_rounded(value_of(d@), shift as int) as int),
{
    let n = d.len();
    proof {
        assert(d@.take(n as int) == d@);
    }
    if shift >= 0 {
        let (acc, over) = prefix_value(d, n);
        if !over && acc == 0 {
            assert(scaled_rounded(value_of(d@), shift as int) == 0);
            return 0;
        }
        if over || shift >= 20 {
            proof {
                let m = value_of(d@);
                let p = pow10(shift as nat);
                assert(m >= 1);
                if over {
                    assert(m > u64::MAX);
                } else {
                    assert(shift >= 20);
                    lemma_pow10_20();
                    lemma_pow10_monotone(20, shift as nat);
                    assert(p > u64::MAX);
                }
                assert(scaled_rounded(m, shift as int) == m * p);
                lemma_pow10_positive(shift as nat);
                if shift >= 20 {
                    lemma_pow10_20();
                    lemma_pow10_monotone(20, shift as nat);
                }
                assert(m * p > u64::MAX) by (nonlinear_arith)
                    requires
                        m >= 1,
                        p >= 1,
                        m > u64::MAX || p > u64::MAX,
                ;
                assert(scaled_rounded(m, shift as int) > u64::MAX);
            }
            return u64::MAX;
        }
        let mut r: u64 = acc;
        let mut i: i128 = 0;
        let ghost m = value_of(d@);
        assert(pow10(0) == 1);
        assert(r == m * pow10(0));
        while i < shift
            invariant
                0 <= i <= shift < 20,
                m >= 1,
                m == value_of(d@),
                r == m * pow10(i as nat),
            decreases shift - i,
        {
            if r > u64::MAX / 10 {
                proof {
                    lemma_pow10_positive((shift - i - 1) as nat);
                    lemma_pow10_add((i + 1) as nat, (shift - i - 1) as nat);
                    let q = pow10((shift - i - 1) as nat);
                    assert(pow10((i + 1) as nat) == 10 * pow10(i as nat));
                    assert((i + 1) as nat + (shift - i - 1) as nat == shift as nat);
                    assert(m * pow10(shift as nat) == (r * 10) * q) by (nonlinear_arith)
                        requires
                            r == m * pow10(i as nat),
                            pow10((i + 1) as nat) == 10 * pow10(i as nat),
                            pow10(shift as nat) == pow10((i + 1) as nat) * q,
                    ;
                    assert((r * 10) * q > u64::MAX) by (nonlinear_arith)
                        requires
                            r > u64::MAX / 10,
                            q >= 1,
                    ;
                    assert(scaled_rounded(m, shift as int) > u64::MAX);
                }
                return u64::MAX;
            }
            proof {
                assert(pow10((i + 1) as nat) == 10 * pow10(i as nat));
                assert(r * 10 == m * pow10((i + 1) as nat)) by (nonlinear_arith)
                    requires
                        r == m * pow10(i as nat),
                        pow10((i + 1) as nat) == 10 * pow10(i as nat),
                ;
            }
            r = r * 10;
            i = i + 1;
        }
        r
    } else {
        if shift < -(n as i128) {
            proof {
                lemma_round_below_all(d@, (-shift) as nat);
            }
            return 0;
        }
        let k = (0 - shift) as usize;
        let j = n - k;
        let (acc, over) = prefix_value(d, j);
        let up: u64 = if d[j] >= 5 { 1 } else { 0 };
        proof {
            lemma_round_at_split(d@, k as nat);
        }
        if over || acc == u64::MAX && up == 1 {
            u64::MAX
        } else {
            acc + up
        }
    }
}

/// Rounding is to the nearest integer, halves up: with `p = 10^-shift`,
/// the rounded value `r` satisfies `m - p/2 < r * p <= m + p/2`; for a
/// non-negative shift it is exact.
pub proof fn lemma_scaled_rounded_is_nearest(m: nat, shift: int)
    ensures
        shift >= 0 ==> scaled_rounded(m, shift) == m * pow10(shift as nat),
        shift < 0 ==> ({
            let p = pow10((-shift) as nat) as int;
            let r = scaled_rounded(m, shift) as int;
            &&& 2 * m - p < 2 * r * p
            &&& 2 * r * p <= 2 * m + p
        }),
{
    if shift < 0 {
        let p = pow10((-shift) as nat) as int;
        lemma_pow10_positive((-shift) as nat);
        let x = 2 * (m as int) + p;
        let q = x / (2 * p);
        let rem = x % (2 * p);
        vstd::arithmetic::div_mod::lemma_fundamental_div_mod(x, 2 * p);
        vstd::arithmetic::div_mod::lemma_mod_bound(x, 2 * p);
        assert(x == 2 * p * q + rem);
        assert(q >= 0) by (nonlinear_arith)
            requires
                x >= 0,
                p >= 1,
                x == 2 * p * q + rem,
                rem < 2 * p,
        ;
        assert(scaled_rounded(m, shift) as int == q);
        assert(2 * q * p == 2 * p * q) by (nonlinear_arith);
    }
}

/// Scaling to milliseconds a value with `n` decimals, `m / 10^n` seconds,
/// is rounding `1000 * m / 10^n` to the nearest integer, halves up.
proof fn lemma_millis_of_decimals(m: nat, n: nat)
    ensures
        ({
            let p = pow10(n) as int;
            scaled_rounded(m, 3 - n) as int == (2000 * m + p) / (2 * p)
        }),
{
    let p = pow10(n) as int;
    lemma_pow10_positive(n);
    reveal_with_fuel(pow10, 4);
    assert(pow10(3) == 1000);
    if n <= 3 {
        let s = pow10((3 - n) as nat) as int;
        lemma_pow10_add(n, (3 - n) as nat);
        assert(n + (3 - n) as nat == 3);
        assert(p * s == 1000);
        assert(scaled_rounded(m, 3 - n) == m * (s as nat));
        assert(2000 * m + p == (m * s) * (2 * p) + p) by (nonlinear_arith)
            requires
                p * s == 1000,
        ;
        lemma_fundamental_div_mod_converse(2000 * m + p, 2 * p, m * s, p);
    } else {
        let k = (n - 3) as nat;
        let big_p = pow10(k) as int;
        lemma_pow10_positive(k);
        lemma_pow10_add(3, k);
        assert(3 + k == n);
        assert(p == 1000 * big_p);
        assert((-(3 - n)) as nat == k);
        let x = 2 * (m as int) + big_p;
        let q = x / (2 * big_p);
        let r = x % (2 * big_p);
        vstd::arithmetic::div_mod::lemma_fundamental_div_mod(x, 2 * big_p);
        vstd::arithmetic::div_mod::lemma_mod_bound(x, 2 * big_p);
        assert(scaled_rounded(m, 3 - n) as int == q);
        assert(2000 * m + p == q * (2 * p) + 1000 * r && 0 <= 1000 * r < 2 * p) by (nonlinear_arith)
            requires
                x == 2 * big_p * q + r,
                x == 2 * m + big_p,
                p == 1000 * big_p,
                0 <= r < 2 * big_p,
        ;
        lemma_fundamental_div_mod_converse(2000 * m + p, 2 * p, q, 1000 * r);
    }
}

/// A seconds word `W.F` (at least one digit on each side of the point)
/// gives `round((W + F / 10^|F|) * 1000)` milliseconds, halves rounded up,
/// capped at `u64::MAX`, whatever the number of digits of `W`.
pub proof fn lemma_seconds_millis_decimal(w: Seq<char>, f: Seq<char>)
    requires
        w.len() > 0,
        f.len() > 0,
        all_digits(w),
        all_digits(f),
    ensures
        ({
            let wv = value_of(digit_values(w)) as int;
            let fv = value_of(digit_values(f)) as int;
            let p = pow10(f.len()) as int;
            &&& seconds_millis(w + seq!['.'] + f) == Some(
                saturate((2000 * (wv * p + fv) + p) / (2 * p)),
            )
            &&& seconds_millis(w + seq!['.'] + f)->0 >= (if wv * 1000 > u64::MAX {
                u64::MAX as int
            } else {
                wv * 1000
            })
        }),
{
    let a = w + seq!['.'] + f;
    let nw = w.len() as int;
    assert(a[0] == w[0]);
    assert(is_digit(w[0]));
    assert(ascii_lower(a[0]) == a[0]);
    assert(!same_word_ignoring_case(a, seq!['i', 'n', 'f']));
    assert(!same_word_ignoring_case(a, seq!['i', 'n', 'f', 'i', 'n', 'i', 't', 'y']));
    assert(!same_word_ignoring_case(a, seq!['n', 'a', 'n']));
    assert forall|m: int| 0 <= m < a.len() implies !(|c: char| is_exponent_marker(c))(
        #[trigger] a[m],
    ) by {
        if m < nw {
            assert(a[m] == w[m]);
            assert(is_digit(w[m]));
        } else if m > nw {
            assert(a[m] == f[m - nw - 1]);
            assert(is_digit(f[m - nw - 1]));
        }
    }
    lemma_first_index_of(a, |c: char| is_exponent_marker(c), a.len() as int);
    assert(a.take(a.len() as int) == a);
    assert forall|m: int| 0 <= m < nw implies !(|c: char| is_point(c))(#[trigger] a[m]) by {
        assert(a[m] == w[m]);
        assert(is_digit(w[m]));
    }
    assert(a[nw] == '.');
    lemma_first_index_of(a, |c: char| is_point(c), nw);
    assert(a.take(nw) == w);
    assert(a.skip(nw + 1) == f);
    let dw = digit_values(w);
    let df = digit_values(f);
    assert(digit_values(w + f) == dw + df);
    let wv = value_of(dw) as int;
    let fv = value_of(df) as int;
    let p = pow10(f.len()) as int;
    lemma_value_split(dw + df, nw);
    assert((dw + df).take(nw) == dw);
    assert((dw + df).skip(nw) == df);
    assert(value_of(dw + df) == wv * p + fv);
    lemma_millis_of_decimals(value_of(dw + df), f.len());
    assert(-(f.len() as int) + 3 == 3 - f.len());
    lemma_pow10_positive(f.len());
    assert((2000 * (wv * p + fv) + p) / (2 * p) >= wv * 1000) by (nonlinear_arith)
        requires
            p >= 1,
            wv >= 0,
            fv >= 0,
    {
        assert(2000 * (wv * p + fv) + p >= (wv * 1000) * (2 * p));
        vstd::arithmetic::div_mod::lemma_div_is_ordered((wv * 1000) * (2 * p), 2000 * (wv * p
            + fv) + p, 2 * p);
        vstd::arithmetic::div_mod::lemma_div_multiples_vanish(wv * 1000, 2 * p);
    }
}

/// A leading `+` changes nothing; a leading `-` makes every accepted number
/// of seconds 0 milliseconds (negative times count as none) and rejects
/// nothing more.
pub proof fn lemma_seconds_millis_sign(t: Seq<char>)
    requires
        t.len() == 0 || (t[0] != '+' && t[0] != '-'),
    ensures
        seconds_millis(seq!['+'] + t) == seconds_millis(t),
        seconds_millis(seq!['-'] + t) == (if seconds_millis(t) is Some {
            Some(0u64)
        } else {
            None
        }),
{
    assert((seq!['+'] + t).drop_first() == t);
    assert((seq!['-'] + t).drop_first() == t);
    assert((seq!['+'] + t)[0] == '+');
    assert((seq!['-'] + t)[0] == '-');
}

/// A seconds word `WeX` (digits, an exponent marker, digits) gives
/// `W * 10^(X + 3)` milliseconds, capped at `u64::MAX`.
pub proof fn lemma_seconds_millis_exponent(w: Seq<char>, x: Seq<char>)
    requires
        w.len() > 0,
        x.len() > 0,
        all_digits(w),
        all_digits(x),
    ensures
        seconds_millis(w + seq!['e'] + x) == Some(
            saturate(
                (value_of(digit_values(w)) * pow10(value_of(digit_values(x)) + 3)) as int,
            ),
        ),
{
    let a = w + seq!['e'] + x;
    let nw = w.len() as int;
    assert(a[0] == w[0]);
    assert(is_digit(w[0]));
    assert(ascii_lower(a[0]) == a[0]);
    assert(!same_word_ignoring_case(a, seq!['i', 'n', 'f']));
    assert(!same_word_ignoring_case(a, seq!['i', 'n', 'f', 'i', 'n', 'i', 't', 'y']));
    assert(!same_word_ignoring_case(a, seq!['n', 'a', 'n']));
    assert forall|m: int| 0 <= m < nw implies !(|c: char| is_exponent_marker(c))(
        #[trigger] a[m],
    ) by {
        assert(a[m] == w[m]);
        assert(is_digit(w[m]));
    }
    assert(a[nw] == 'e');
    lemma_first_index_of(a, |c: char| is_exponent_marker(c), nw);
    assert(a.take(nw) == w);
    assert forall|m: int| 0 <= m < nw implies !(|c: char| is_point(c))(#[trigger] w[m]) by {
        assert(is_digit(w[m]));
    }
    lemma_first_index_of(w, |c: char| is_point(c), nw);
    assert(w.take(nw) == w);
    assert(a.skip(nw + 1) == x);
    assert(is_digit(x[0]));
    assert(w + Seq::<char>::empty() == w);
}

/// An ASCII decimal digit.
pub open spec fn is_digit(c: char) -> bool {
    '0' <= c && c <= '9'
}

/// Every character is an ASCII decimal digit.
pub open spec fn all_digits(s: Seq<char>) -> bool {
    forall|i: int| 0 <= i < s.len() ==> is_digit(#[trigger] s[i])
}

/// The digit values of ASCII digits.
pub open spec fn digit_values(s: Seq<char>) -> Seq<u8> {
    s.map_values(|c: char| (c as u32 - '0' as u32) as u8)
}

/// The text of an unsigned integer as `u64::from_str` accepts it: an
/// optional `+` and at least one ASCII digit, of a value at most
/// `u64::MAX`; its value.
pub open spec fn u64_text(t: Seq<char>) -> Option<u64> {
    let d = if t.len() > 0 && t[0] == '+' {
        t.drop_first()
    } else {
        t
    };
    if d.len() > 0 && all_digits(d) && value_of(digit_values(d)) <= u64::MAX {
        Some(value_of(digit_values(d)) as u64)
    } else {
        None
    }
}

/// A letter taken to lower case; other characters unchanged.
pub open spec fn ascii_lower(c: char) -> char {
    if 'A' <= c && c <= 'Z' {
        ((c as u32) + 32) as char
    } else {
        c
    }
}

/// `s` equals the lower-case word `word` but for the case of ASCII letters.
pub open spec fn same_word_ignoring_case(s: Seq<char>, word: Seq<char>) -> bool {
    &&& s.len() == word.len()
    &&& forall|i: int| 0 <= i < s.len() ==> ascii_lower(#[trigger] s[i]) == word[i]
}

/// The value of a number of seconds: not a number, infinite, or
/// `digits * 10^exponent`.
pub enum SecondsValue {
    NotANumber,
    Infinite,
    Finite { digits: nat, exponent: int },
}

/// A number of seconds as written: its sign and its value.
pub struct SecondsText {
    pub negative: bool,
    pub value: SecondsValue,
}

pub open spec fn is_exponent_marker(c: char) -> bool {
    c == 'e' || c == 'E'
}

pub open spec fn is_point(c: char) -> bool {
    c == '.'
}

/// The exponent after the marker: an optional sign and at least one digit.
pub open spec fn exponent_text(x: Seq<char>) -> Option<int> {
    let neg = x.len() > 0 && x[0] == '-';
    let d = if x.len() > 0 && (x[0] == '+' || x[0] == '-') {
        x.drop_first()
    } else {
        x
    };
    if d.len() > 0 && all_digits(d) {
        Some(
            if neg {
                -(value_of(digit_values(d)) as int)
            } else {
                value_of(digit_values(d)) as int
            },
        )
    } else {
        None
    }
}

/// A number of seconds as `f64::from_str` accepts it: an optional sign, then
/// `inf`, `infinity` or `nan` in any case, or digits with at most one
/// decimal point and at least one digit, then optionally `e` or `E`, an
/// optional sign and at least one digit.
pub open spec fn seconds_text(t: Seq<char>) -> Option<SecondsText> {
    let negative = t.len() > 0 && t[0] == '-';
    let body = if t.len() > 0 && (t[0] == '+' || t[0] == '-') {
        t.drop_first()
    } else {
        t
    };
    if same_word_ignoring_case(body, seq!['i', 'n', 'f']) || same_word_ignoring_case(
        body,
        seq!['i', 'n', 'f', 'i', 'n', 'i', 't', 'y'],
    ) {
        Some(SecondsText { negative, value: SecondsValue::Infinite })
    } else if same_word_ignoring_case(body, seq!['n', 'a', 'n']) {
        Some(SecondsText { negative, value: SecondsValue::NotANumber })
    } else {
        match number_text(body) {
            None => None,
            Some(value) => Some(SecondsText { negative, value }),
        }
    }
}

/// Digits with at most one decimal point and at least one digit, then
/// optionally `e` or `E`, an optional sign and at least one digit; the value.
pub open spec fn number_text(body: Seq<char>) -> Option<SecondsValue> {
    let e = first_index_of(body, |c: char| is_exponent_marker(c));
    let mantissa = body.take(e);
    let dot = first_index_of(mantissa, |c: char| is_point(c));
    let whole = mantissa.take(dot);
    let fraction = if dot < mantissa.len() {
        mantissa.skip(dot + 1)
    } else {
        Seq::empty()
    };
    let exponent = if e < body.len() {
        exponent_text(body.skip(e + 1))
    } else {
        Some(0int)
    };
    if all_digits(whole) && all_digits(fraction) && whole.len() + fraction.len() >= 1
        && exponent is Some {
        Some(
            SecondsValue::Finite {
                digits: value_of(digit_values(whole + fraction)),
                exponent: exponent->0 - fraction.len(),
            },
        )
    } else {
        None
    }
}

/// Whole milliseconds of a non-negative value, rounded to the nearest
/// (halves up) and saturated; not-a-number gives 0.
pub open spec fn value_millis(v: SecondsValue) -> u64 {
    match v {
        SecondsValue::NotANumber => 0,
        SecondsValue::Infinite => u64::MAX,
        SecondsValue::Finite { digits, exponent } => saturate(
            scaled_rounded(digits, exponent + 3) as int,
        ),
    }
}

/// Whole milliseconds of a number of seconds as `(s * 1000.0).round() as
/// u64` gives them, computed on the exact decimal value: rounded to the
/// nearest, halves up; negative values and not-a-number give 0, values
/// beyond `u64::MAX` give `u64::MAX`.
pub open spec fn seconds_millis(t: Seq<char>) -> Option<u64> {
    match seconds_text(t) {
        None => None,
        Some(st) => Some(
            if st.negative {
                0
            } else {
                value_millis(st.value)
            },
        ),
    }
}

proof fn lemma_scaled_far_up(d: Seq<u8>, t: int)
    requires
        all_digit_values(d),
        t >= 20,
    ensures
        saturate(scaled_rounded(value_of(d), t) as int) == (if value_of(d) == 0 {
            0
        } else {
            u64::MAX
        }),
{
    let m = value_of(d);
    let p = pow10(t as nat);
    lemma_pow10_20();
    lemma_pow10_monotone(20, t as nat);
    if m == 0 {
        assert(m * p == 0);
    } else {
        assert(m * p >= p) by (nonlinear_arith)
            requires
                m >= 1,
        ;
    }
}

proof fn lemma_scaled_far_down(d: Seq<u8>, t: int)
    requires
        all_digit_values(d),
        t < -(d.len() as int),
    ensures
        saturate(scaled_rounded(value_of(d), t) as int) == 0,
{
    lemma_round_below_all(d, (-t) as nat);
}

/// The position of the first `a` or `b` in `v` (its length when none).
fn first_of(v: &Vec<char>, a: char, b: char) -> (i: usize)
    ensures
        i <= v@.len(),
        forall|m: int| 0 <= m < i ==> #[trigger] v@[m] != a && v@[m] != b,
        i == v@.len() || v@[i as int] == a || v@[i as int] == b,
{
    let mut i: usize = 0;
    while i < v.len() && v[i] != a && v[i] != b
        invariant
            i <= v@.len(),
            forall|m: int| 0 <= m < i ==> #[trigger] v@[m] != a && v@[m] != b,
        decreases v@.len() - i,
    {
        i = i + 1;
    }
    i
}

fn all_digit_chars(v: &Vec<char>) -> (b: bool)
    ensures
        b == all_digits(v@),
{
    let mut i: usize = 0;
    while i < v.len()
        invariant
            i <= v@.len(),
            forall|m: int| 0 <= m < i ==> is_digit(#[trigger] v@[m]),
        decreases v@.len() - i,
    {
        if !('0' <= v[i] && v[i] <= '9') {
            return false;
        }
        i = i + 1;
    }
    true
}

/// Appends the digit values of the ASCII digits `v` to `out`.
fn push_digit_values(out: &mut Vec<u8>, v: &Vec<char>)
    requires
        all_digits(v@),
        all_digit_values(old(out)@),
    ensures
        final(out)@ == old(out)@ + digit_values(v@),
        all_digit_values(final(out)@),
{
    let mut i: usize = 0;
    while i < v.len()
        invariant
            all_digits(v@),
            i <= v@.len(),
            out@ == old(out)@ + digit_values(v@.take(i as int)),
            all_digit_values(out@),
        decreases v@.len() - i,
    {
        let c = v[i];
        assert(is_digit(v@[i as int]));
        let x = ((c as u32) - ('0' as u32)) as u8;
        out.push(x);
        proof {
            assert(digit_values(v@.take(i + 1)) == digit_values(v@.take(i as int)).push(x));
        }
        i = i + 1;
    }
    assert(v@.take(v@.len() as int) == v@);
}

/// Whether `v` is `word` but for the case of ASCII letters (`word` is lower case).
fn same_word_ci(v: &Vec<char>, word: &[char]) -> (b: bool)
    ensures
        b == same_word_ignoring_case(v@, word@),
{
    if v.len() != word.len() {
        return false;
    }
    let mut i: usize = 0;
    while i < v.len()
        invariant
            v@.len() == word@.len(),
            i <= v@.len(),
            forall|m: int| 0 <= m < i ==> ascii_lower(#[trigger] v@[m]) == word@[m],
        decreases v@.len() - i,
    {
        let c = v[i];
        let lower = if 'A' <= c && c <= 'Z' {
            ((c as u32) + 32) as u8 as char
        } else {
            c
        };
        proof {
            if 'A' <= c && c <= 'Z' {
                assert(((c as u32) + 32) as u8 as char == ((c as u32) + 32) as char);
            }
        }
        if lower != word[i] {
            return false;
        }
        i = i + 1;
    }
    true
}

/// Parses an unsigned integer as `u64::from_str` does.
pub fn parse_u64(t: &Vec<char>) -> (r: Option<u64>)
    ensures
        r == u64_text(t@),
{
    let start: usize = if t.len() > 0 && t[0] == '+' {
        1
    } else {
        0
    };
    let d = sub_chars(t, start, t.len());
    proof {
        if start == 1 {
            assert(d@ == t@.drop_first());
        } else {
            assert(d@ == t@);
        }
    }
    if d.len() == 0 || !all_digit_chars(&d) {
        return None;
    }
    let mut vals: Vec<u8> = Vec::new();
    push_digit_values(&mut vals, &d);
    assert(vals@ == digit_values(d@));
    let n = vals.len();
    let (acc, over) = prefix_value(&vals, n);
    assert(vals@.take(n as int) == vals@);
    if over {
        None
    } else {
        Some(acc)
    }
}

/// Above this magnitude an exponent is only tracked as "this large": every
/// such exponent gives the same milliseconds.
const EXPONENT_CAP: i128 = 1267650600228229401496703205376;

/// The sign and magnitude of an exponent, the magnitude capped: exact up to
/// `EXPONENT_CAP`, else at least `EXPONENT_CAP`.
fn parse_exponent(x: &Vec<char>) -> (r: Option<(bool, i128)>)
    ensures
        r is Some <==> exponent_text(x@) is Some,
        r matches Some((neg, mag)) ==> {
            let v = exponent_text(x@)->0;
            &&& 0 <= mag <= 16 * EXPONENT_CAP
            &&& (neg ==> v <= 0)
            &&& (!neg ==> v >= 0)
            &&& (mag == (if neg {
                -v
            } else {
                v
            }) || (mag >= EXPONENT_CAP && (if neg {
                -v
            } else {
                v
            }) >= EXPONENT_CAP))
        },
{
    let neg = x.len() > 0 && x[0] == '-';
    let start: usize = if x.len() > 0 && (x[0] == '+' || x[0] == '-') {
        1
    } else {
        0
    };
    let d = sub_chars(x, start, x.len());
    proof {
        if start == 1 {
            assert(d@ == x@.drop_first());
        } else {
            assert(d@ == x@);
        }
    }
    if d.len() == 0 || !all_digit_chars(&d) {
        return None;
    }
    let mut vals: Vec<u8> = Vec::new();
    push_digit_values(&mut vals, &d);
    assert(vals@ == digit_values(d@));
    let n = vals.len();
    let mut mag: i128 = 0;
    let mut i: usize = 0;
    assert(vals@.take(0) == Seq::<u8>::empty());
    while i < n
        invariant
            n == vals@.len(),
            all_digit_values(vals@),
            i <= n,
            0 <= mag <= 16 * EXPONENT_CAP,
            mag == value_of(vals@.take(i as int)) || (mag >= EXPONENT_CAP && value_of(
                vals@.take(i as int),
            ) >= EXPONENT_CAP),
        decreases n - i,
    {
        proof {
            lemma_value_prefix_step(vals@, i as int);
        }
        let x = vals[i];
        assert(x <= 9);
        if mag < EXPONENT_CAP {
            mag = mag * 10 + x as i128;
        }
        i = i + 1;
    }
    assert(vals@.take(n as int) == vals@);
    Some((neg, mag))
}

/// Milliseconds of an unsigned number of seconds (no `inf` or `nan`).
fn number_millis(body: &Vec<char>) -> (r: Option<u64>)
    ensures
        r is Some <==> number_text(body@) is Some,
        r matches Some(ms) ==> ms == value_millis(number_text(body@)->0),
{
    let e = first_of(&body, 'e', 'E');
    proof {
        lemma_first_index_of(body@, |c: char| is_exponent_marker(c), e as int);
    }
    let mantissa = sub_chars(&body, 0, e);
    let dot = first_of(&mantissa, '.', '.');
    proof {
        lemma_first_index_of(mantissa@, |c: char| is_point(c), dot as int);
        assert(mantissa@ == body@.take(e as int));
    }
    let whole = sub_chars(&mantissa, 0, dot);
    let fraction = if dot < mantissa.len() {
        sub_chars(&mantissa, dot + 1, mantissa.len())
    } else {
        Vec::new()
    };
    proof {
        assert(whole@ == mantissa@.take(dot as int));
        if dot < mantissa.len() {
            assert(fraction@ == mantissa@.skip(dot + 1));
        } else {
            assert(fraction@ == Seq::<char>::empty());
        }
    }
    if !all_digit_chars(&whole) || !all_digit_chars(&fraction) || whole.len() + fraction.len()
        == 0 {
        return None;
    }
    let exponent = if e < body.len() {
        let x = sub_chars(&body, e + 1, body.len());
        assert(x@ == body@.skip(e + 1));
        parse_exponent(&x)
    } else {
        Some((false, 0i128))
    };
    let (exp_neg, exp_mag) = match exponent {
        None => {
            return None;
        },
        Some(p) => p,
    };
    let mut digits: Vec<u8> = Vec::new();
    push_digit_values(&mut digits, &whole);
    push_digit_values(&mut digits, &fraction);
    proof {
        assert(digits@ == digit_values(whole@ + fraction@));
    }
    let signed_exp: i128 = if exp_neg {
        0 - exp_mag
    } else {
        exp_mag
    };
    let shift: i128 = signed_exp - fraction.len() as i128 + 3;
    let ms = scaled_millis(&digits, shift);
    proof {
        let st = number_text(body@);
        assert(st is Some);
        let true_exp: int = if e < body@.len() {
            exponent_text(body@.skip(e + 1))->0
        } else {
            0
        };
        let true_shift = true_exp - fraction@.len() + 3;
        assert(st->0 == SecondsValue::Finite {
            digits: value_of(digits@),
            exponent: true_exp - fraction@.len(),
        });
        if true_shift != shift {
            // only when the exponent was capped
            if exp_neg {
                lemma_scaled_far_down(digits@, true_shift);
                lemma_scaled_far_down(digits@, shift as int);
            } else {
                lemma_scaled_far_up(digits@, true_shift);
                lemma_scaled_far_up(digits@, shift as int);
            }
        }
    }
    Some(ms)
}

/// Milliseconds of a number of seconds written as `f64::from_str` accepts
/// it; see `seconds_millis`.
pub fn seconds_to_millis(t: &Vec<char>) -> (r: Option<u64>)
    ensures
        r == seconds_millis(t@),
{
    let negative = t.len() > 0 && t[0] == '-';
    let start: usize = if t.len() > 0 && (t[0] == '+' || t[0] == '-') {
        1
    } else {
        0
    };
    let body = sub_chars(t, start, t.len());
    proof {
        if start == 1 {
            assert(body@ == t@.drop_first());
        } else {
            assert(body@ == t@);
        }
    }
    let inf_word = ['i', 'n', 'f'];
    let infinity_word = ['i', 'n', 'f', 'i', 'n', 'i', 't', 'y'];
    let nan_word = ['n', 'a', 'n'];
    assert(inf_word@ == seq!['i', 'n', 'f']);
    assert(infinity_word@ == seq!['i', 'n', 'f', 'i', 'n', 'i', 't', 'y']);
    assert(nan_word@ == seq!['n', 'a', 'n']);
    if same_word_ci(&body, &inf_word) || same_word_ci(&body, &infinity_word) {
        return Some(if negative { 0 } else { u64::MAX });
    }
    if same_word_ci(&body, &nan_word) {
        return Some(0);
    }
    let ms = match number_millis(&body) {
        None => {
            return None;
        },
        Some(ms) => ms,
    };
    if negative {
        Some(0)
    } else {
        Some(ms)
    }
}

} // verus!

//! Samples of one measured process run, and reduction of repeated samples
//! to their median.
use vstd::prelude::*;
use vstd::relations::{sorted_by, total_ordering};
use crate::decimal::{
    all_digits, digit_values, is_digit, lemma_seconds_millis_decimal, parse_u64, pow10, saturate,
    seconds_millis, seconds_to_millis, u64_text, value_of,
};
use crate::text::{
    all_white, chars_of, is_white, lemma_words_after_white, lemma_words_before_white, lemma_words_two,
    sub_chars, word_spans, words,
};

verus! {

/// One raw measurement of a single subprocess run.
#[derive(Debug, Clone, Copy)]
pub struct Sample {
    pub time_ms: u64,
    pub peak_kb: u64,
}

/// What the `/usr/bin/time -f '%e %M'` stats text gives: of its
/// whitespace-separated words, the last but one is the wall-clock time in
/// seconds, taken to whole milliseconds, and the last the peak resident set
/// size in KB; `None` when there are fewer than two words or either does
/// not parse.
pub open spec fn time_output(raw: Seq<char>) -> Option<Sample> {
    let w = words(raw);
    if w.len() < 2 {
        None
    } else {
        match (seconds_millis(w[w.len() - 2]), u64_text(w[w.len() - 1])) {
            (Some(ms), Some(kb)) => Some(Sample { time_ms: ms, peak_kb: kb }),
            _ => None,
        }
    }
}

/// Parses the "`%e %M`" line, e.g. "0.18 89248" -> 180 ms, 89248 KB.
///
/// The last two whitespace-separated words are read; the stats text
/// normally holds exactly "<seconds> <kilobytes>".
pub fn parse_time_output(raw: &str) -> (r: Option<Sample>)
    ensures
        r == time_output(raw@),
{
    let chars = chars_of(raw);
    let spans = word_spans(&chars);
    let n = spans.len();
    if n < 2 {
        return None;
    }
    let (a0, a1) = spans[n - 2];
    let (b0, b1) = spans[n - 1];
    let secs = sub_chars(&chars, a0, a1);
    let kb = sub_chars(&chars, b0, b1);
    proof {
        assert(words(raw@)[n - 2] == secs@);
        assert(words(raw@)[n - 1] == kb@);
    }
    let time_ms = match seconds_to_millis(&secs) {
        None => {
            return None;
        },
        Some(ms) => ms,
    };
    let peak_kb = match parse_u64(&kb) {
        None => {
            return None;
        },
        Some(v) => v,
    };
    Some(Sample { time_ms, peak_kb })
}

/// The order by which samples are ranked before the median is taken.
pub open spec fn le_u64() -> spec_fn(u64, u64) -> bool {
    |a: u64, b: u64| a <= b
}

/// The values in ascending order.
pub open spec fn ascending(values: Seq<u64>) -> Seq<u64> {
    values.sort_by(le_u64())
}

/// The median: the middle of the ascending values when their number is odd,
/// else the mean of the two middle ones, rounded down.
pub open spec fn median_of(values: Seq<u64>) -> int
    recommends
        values.len() > 0,
{
    let s = ascending(values);
    let n = values.len() as int;
    if n % 2 == 1 {
        s[n / 2] as int
    } else {
        (s[n / 2 - 1] + s[n / 2]) / 2
    }
}

proof fn lemma_le_u64_total()
    ensures
        total_ordering(le_u64()),
{
}

/// The ascending arrangement of `values` is the unique sorted permutation.
proof fn lemma_ascending_is_sorted_permutation(values: Seq<u64>, sorted: Seq<u64>)
    requires
        sorted_by(sorted, le_u64()),
        sorted.to_multiset() == values.to_multiset(),
    ensures
        ascending(values) == sorted,
{
    lemma_le_u64_total();
    values.lemma_sort_by_ensures(le_u64());
    vstd::seq_lib::lemma_sorted_unique(ascending(values), sorted, le_u64());
}

/// `m` is the middle of the ascending values `s`: the middle one for an odd
/// count, the mean of the two middle ones rounded down for an even count.
pub open spec fn is_middle(s: Seq<u64>, m: int) -> bool {
    let n = s.len() as int;
    &&& n % 2 == 1 ==> m == s[n / 2]
    &&& n % 2 == 0 ==> m == (s[n / 2 - 1] + s[n / 2]) / 2
}

/// The median is the middle of the values in ascending order: for any
/// ascending arrangement `s` of the values, it is `s[n/2]` when the count
/// `n` is odd and `(s[n/2-1] + s[n/2]) / 2` when it is even.
pub proof fn lemma_median_is_middle(values: Seq<u64>, s: Seq<u64>)
    requires
        values.len() > 0,
        s.to_multiset() == values.to_multiset(),
        forall|i: int, j: int| 0 <= i <= j < s.len() ==> s[i] <= s[j],
    ensures
        s.len() == values.len(),
        values.len() % 2 == 1 ==> median_of(values) == s[values.len() as int / 2],
        values.len() % 2 == 0 ==> median_of(values) == (s[values.len() as int / 2 - 1] + s[
            values.len() as int / 2]) / 2,
        is_middle(s, median_of(values)),
{
    broadcast use vstd::seq_lib::group_to_multiset_ensures;

    assert(sorted_by(s, le_u64()));
    lemma_ascending_is_sorted_permutation(values, s);
    lemma_ascending_facts(values);
}

/// Sorts a copy of `values` in ascending order (insertion sort).
fn sorted_copy(values: &[u64]) -> (res: Vec<u64>)
    ensures
        sorted_by(res@, le_u64()),
        res@.to_multiset() == values@.to_multiset(),
        res@.len() == values@.len(),
{
    let mut v: Vec<u64> = Vec::new();
    let n = values.len();
    let mut i: usize = 0;
    proof {
        broadcast use vstd::seq_lib::group_to_multiset_ensures;
        assert(values@.take(0) =~= Seq::<u64>::empty());
        assert(v@ =~= Seq::<u64>::empty());
    }
    while i < n
        invariant
            n == values@.len(),
            i <= n,
            v@.len() == i,
            sorted_by(v@, le_u64()),
            v@.to_multiset() == values@.take(i as int).to_multiset(),
        decreases n - i,
    {
        let x = values[i];
        // find insertion position: first index whose element is greater than x
        let mut j: usize = 0;
        while j < v.len() && v[j] <= x
            invariant
                j <= v@.len(),
                forall|k: int| 0 <= k < j ==> v@[k] <= x,
            decreases v@.len() - j,
        {
            j = j + 1;
        }
        let ghost old_v = v@;
        v.insert(j, x);
        proof {
            assert(v@ == old_v.insert(j as int, x));
            assert forall|a: int, b: int| 0 <= a < b < v@.len() implies #[trigger] le_u64()(v@[a], v@[b]) by {
                if a < j && b == j {
                } else if a == j && b > j {
                    assert(v@[b] == old_v[b - 1]);
                    if j < old_v.len() {
                        assert(le_u64()(old_v[j as int], old_v[b - 1]) || b - 1 == j);
                    }
                } else {
                    let oa = if a < j { a } else { a - 1 };
                    let ob = if b < j { b } else { b - 1 };
                    assert(le_u64()(old_v[oa], old_v[ob]));
                }
            }
            vstd::seq_lib::to_multiset_insert(old_v, j as int, x);
            assert(values@.take(i + 1) == values@.take(i as int).push(x));
            values@.take(i as int).to_multiset_ensures();
        }
        i = i + 1;
    }
    assert(values@.take(n as int) == values@);
    v
}

/// Median of a non-empty slice, used to collapse repeated samples into one
/// number. For an even count, returns the mean of the two middle values,
/// rounded down.
pub fn median(values: &[u64]) -> (m: u64)
    requires
        values@.len() > 0,
    ensures
        m == median_of(values@),
        forall|s: Seq<u64>|
            #![trigger s.to_multiset()]
            s.to_multiset() == values@.to_multiset() && (forall|i: int, j: int|
                0 <= i <= j < s.len() ==> s[i] <= s[j]) ==> is_middle(s, m as int),
{
    let v = sorted_copy(values);
    proof {
        lemma_ascending_is_sorted_permutation(values@, v@);
        assert forall|s: Seq<u64>|
            #![trigger s.to_multiset()]
            s.to_multiset() == values@.to_multiset() && (forall|i: int, j: int|
                0 <= i <= j < s.len() ==> s[i] <= s[j]) implies is_middle(s, median_of(values@)) by {
            lemma_median_is_middle(values@, s);
        }
    }
    let n = v.len();
    if n % 2 == 1 {
        v[n / 2]
    } else {
        let a = v[n / 2 - 1];
        let b = v[n / 2];
        // mean of a and b, rounded down, without overflow
        a / 2 + b / 2 + (a % 2 + b % 2) / 2
    }
}

/// The median does not depend on the order of the values: any two
/// arrangements of the same values have the same median.
pub proof fn lemma_median_ignores_order(a: Seq<u64>, b: Seq<u64>)
    requires
        a.to_multiset() == b.to_multiset(),
    ensures
        median_of(a) == median_of(b),
{
    lemma_le_u64_total();
    a.lemma_sort_by_ensures(le_u64());
    b.lemma_sort_by_ensures(le_u64());
    vstd::seq_lib::lemma_sorted_unique(ascending(a), ascending(b), le_u64());
    a.to_multiset_ensures();
    b.to_multiset_ensures();
    ascending(a).to_multiset_ensures();
}

/// The median lies between the smallest and the largest value: any bound
/// that holds of every value holds of the median.
pub proof fn lemma_median_within_bounds(values: Seq<u64>, lo: int, hi: int)
    requires
        values.len() > 0,
        forall|i: int| 0 <= i < values.len() ==> lo <= #[trigger] values[i] <= hi,
    ensures
        lo <= median_of(values) <= hi,
{
    lemma_le_u64_total();
    values.lemma_sort_by_ensures(le_u64());
    let s = ascending(values);
    values.to_multiset_ensures();
    s.to_multiset_ensures();
    assert(s.len() == values.len()) by {
        assert(s.to_multiset().len() == values.to_multiset().len());
    }
    assert forall|k: int| 0 <= k < s.len() implies lo <= #[trigger] s[k] <= hi by {
        assert(s.to_multiset().count(s[k]) > 0);
        assert(values.to_multiset().count(s[k]) > 0);
        assert(values.contains(s[k]));
    }
    let n = values.len() as int;
    if n % 2 == 0 {
        assert(lo <= s[n / 2 - 1] <= hi);
        assert(lo <= s[n / 2] <= hi);
    } else {
        assert(lo <= s[n / 2] <= hi);
    }
}

/// How many of the values are at most `x`.
pub open spec fn count_at_most(s: Seq<u64>, x: u64) -> nat
    decreases s.len(),
{
    if s.len() == 0 {
        0
    } else {
        count_at_most(s.drop_last(), x) + (if s.last() <= x {
            1nat
        } else {
            0
        })
    }
}

proof fn lemma_count_concat(u: Seq<u64>, v: Seq<u64>, x: u64)
    ensures
        count_at_most(u + v, x) == count_at_most(u, x) + count_at_most(v, x),
    decreases v.len(),
{
    if v.len() == 0 {
        assert(u + v == u);
    } else {
        assert((u + v).drop_last() == u + v.drop_last());
        assert((u + v).last() == v.last());
        lemma_count_concat(u, v.drop_last(), x);
    }
}

proof fn lemma_count_bounds(s: Seq<u64>, x: u64)
    ensures
        count_at_most(s, x) <= s.len(),
        (forall|m: int| 0 <= m < s.len() ==> #[trigger] s[m] <= x) ==> count_at_most(s, x)
            == s.len(),
        (forall|m: int| 0 <= m < s.len() ==> #[trigger] s[m] > x) ==> count_at_most(s, x) == 0,
    decreases s.len(),
{
    if s.len() > 0 {
        let t = s.drop_last();
        lemma_count_bounds(t, x);
        if forall|m: int| 0 <= m < s.len() ==> #[trigger] s[m] <= x {
            assert forall|m: int| 0 <= m < t.len() implies #[trigger] t[m] <= x by {
                assert(t[m] == s[m]);
            }
        }
        if forall|m: int| 0 <= m < s.len() ==> #[trigger] s[m] > x {
            assert forall|m: int| 0 <= m < t.len() implies #[trigger] t[m] > x by {
                assert(t[m] == s[m]);
            }
        }
    }
}

proof fn lemma_count_remove(t: Seq<u64>, i: int, x: u64)
    requires
        0 <= i < t.len(),
    ensures
        count_at_most(t, x) == count_at_most(t.remove(i), x) + (if t[i] <= x {
            1nat
        } else {
            0
        }),
{
    let l = t.take(i);
    let r = t.skip(i + 1);
    assert(t == l + seq![t[i]] + r);
    assert(t.remove(i) == l + r);
    lemma_count_concat(l + seq![t[i]], r, x);
    lemma_count_concat(l, seq![t[i]], x);
    lemma_count_concat(l, r, x);
    let one = seq![t[i]];
    assert(one.drop_last() == Seq::<u64>::empty());
    assert(one.last() == t[i]);
    assert(count_at_most(Seq::<u64>::empty(), x) == 0);
    assert(count_at_most(one, x) == (if t[i] <= x {
        1nat
    } else {
        0
    }));
}

/// Counting does not depend on the arrangement.
proof fn lemma_count_permutation(s: Seq<u64>, t: Seq<u64>, x: u64)
    requires
        s.to_multiset() == t.to_multiset(),
    ensures
        count_at_most(s, x) == count_at_most(t, x),
    decreases s.len(),
{
    broadcast use vstd::seq_lib::group_to_multiset_ensures;

    if s.len() == 0 {
        assert(t.to_multiset().len() == 0);
        assert(t.len() == 0);
    } else {
        let e = s.last();
        assert(s.to_multiset().count(e) > 0) by {
            assert(s.contains(e)) by {
                assert(s[s.len() - 1] == e);
            }
        }
        assert(t.contains(e));
        let i = choose|i: int| 0 <= i < t.len() && t[i] == e;
        assert(s.drop_last() == s.remove(s.len() - 1));
        assert(s.drop_last().to_multiset() == t.remove(i).to_multiset());
        lemma_count_permutation(s.drop_last(), t.remove(i), x);
        lemma_count_remove(t, i, x);
    }
}

/// Raising values one by one never raises how many are at most `x`.
proof fn lemma_count_dominated(a: Seq<u64>, b: Seq<u64>, x: u64)
    requires
        a.len() == b.len(),
        forall|i: int| 0 <= i < a.len() ==> a[i] <= b[i],
    ensures
        count_at_most(b, x) <= count_at_most(a, x),
    decreases a.len(),
{
    if a.len() > 0 {
        let a1 = a.drop_last();
        let b1 = b.drop_last();
        assert forall|i: int| 0 <= i < a1.len() implies a1[i] <= b1[i] by {
            assert(a1[i] == a[i] && b1[i] == b[i]);
        }
        lemma_count_dominated(a1, b1, x);
        assert(a.last() <= b.last());
    }
}

/// In ascending order, the value at `k` is at most `x` exactly when more
/// than `k` values are at most `x`.
proof fn lemma_count_sorted(s: Seq<u64>, k: int, x: u64)
    requires
        sorted_by(s, le_u64()),
        0 <= k < s.len(),
    ensures
        s[k] <= x ==> count_at_most(s, x) >= k + 1,
        s[k] > x ==> count_at_most(s, x) <= k,
{
    let l = s.take(k + 1);
    let r = s.skip(k + 1);
    assert(s == l + r);
    lemma_count_concat(l, r, x);
    lemma_count_bounds(l, x);
    lemma_count_bounds(r, x);
    let l2 = s.take(k);
    let r2 = s.skip(k);
    assert(s == l2 + r2);
    lemma_count_concat(l2, r2, x);
    lemma_count_bounds(l2, x);
    lemma_count_bounds(r2, x);
    if s[k] <= x {
        assert forall|m: int| 0 <= m < l.len() implies #[trigger] l[m] <= x by {
            assert(l[m] == s[m]);
            if m < k {
                assert(le_u64()(s[m], s[k]));
            }
        }
    } else {
        assert forall|m: int| 0 <= m < r2.len() implies #[trigger] r2[m] > x by {
            assert(r2[m] == s[k + m]);
            if m > 0 {
                assert(le_u64()(s[k], s[k + m]));
            }
        }
    }
}

/// The ascending arrangement: sorted, a permutation, of the same length.
proof fn lemma_ascending_facts(values: Seq<u64>)
    ensures
        sorted_by(ascending(values), le_u64()),
        ascending(values).to_multiset() == values.to_multiset(),
        ascending(values).len() == values.len(),
{
    broadcast use vstd::seq_lib::group_to_multiset_ensures;

    lemma_le_u64_total();
    values.lemma_sort_by_ensures(le_u64());
    assert(ascending(values).to_multiset().len() == values.to_multiset().len());
}

/// Raising values never lowers their order statistics: if each value of `a`
/// is at most the matching value of `b`, the `k`-th smallest of `a` is at
/// most the `k`-th smallest of `b`.
pub proof fn lemma_ascending_dominated(a: Seq<u64>, b: Seq<u64>, k: int)
    requires
        a.len() == b.len(),
        forall|i: int| 0 <= i < a.len() ==> a[i] <= b[i],
        0 <= k < a.len(),
    ensures
        ascending(a)[k] <= ascending(b)[k],
{
    lemma_ascending_facts(a);
    lemma_ascending_facts(b);
    let sa = ascending(a);
    let sb = ascending(b);
    let x = sb[k];
    lemma_count_sorted(sb, k, x);
    lemma_count_sorted(sa, k, x);
    lemma_count_permutation(sb, b, x);
    lemma_count_permutation(sa, a, x);
    lemma_count_dominated(a, b, x);
}

/// The median is monotone: if each value of `a` is at most the matching
/// value of `b`, the median of `a` is at most the median of `b`.
pub proof fn lemma_median_monotone(a: Seq<u64>, b: Seq<u64>)
    requires
        a.len() == b.len(),
        a.len() > 0,
        forall|i: int| 0 <= i < a.len() ==> a[i] <= b[i],
    ensures
        median_of(a) <= median_of(b),
{
    let n = a.len() as int;
    lemma_ascending_dominated(a, b, n / 2);
    if n % 2 == 0 {
        lemma_ascending_dominated(a, b, n / 2 - 1);
    }
}

/// A stats text "W.F K", with W, F and K runs of ASCII digits and white
/// space between, gives `round((W + F / 10^|F|) * 1000)` milliseconds
/// (halves up, capped at `u64::MAX`) and K kilobytes, whatever the number
/// of digits of W.
pub proof fn lemma_time_output_decimal(w: Seq<char>, f: Seq<char>, sep: Seq<char>, k: Seq<char>)
    requires
        w.len() > 0,
        f.len() > 0,
        k.len() > 0,
        sep.len() > 0,
        all_digits(w),
        all_digits(f),
        all_digits(k),
        all_white(sep),
        value_of(digit_values(k)) <= u64::MAX,
    ensures
        ({
            let wv = value_of(digit_values(w)) as int;
            let fv = value_of(digit_values(f)) as int;
            let p = pow10(f.len()) as int;
            time_output(w + seq!['.'] + f + sep + k) == Some(
                Sample {
                    time_ms: saturate((2000 * (wv * p + fv) + p) / (2 * p)),
                    peak_kb: value_of(digit_values(k)) as u64,
                },
            )
        }),
{
    let a = w + seq!['.'] + f;
    assert forall|i: int| 0 <= i < a.len() implies !is_white(#[trigger] a[i]) by {
        if i < w.len() {
            assert(a[i] == w[i]);
            assert(is_digit(w[i]));
        } else if i > w.len() {
            assert(a[i] == f[i - w.len() - 1]);
            assert(is_digit(f[i - w.len() - 1]));
        }
    }
    assert forall|i: int| 0 <= i < k.len() implies !is_white(#[trigger] k[i]) by {
        assert(is_digit(k[i]));
    }
    lemma_words_two(a, sep, k);
    assert(a + sep + k == w + seq!['.'] + f + sep + k);
    lemma_seconds_millis_decimal(w, f);
    assert(is_digit(k[0]));
}

/// White space before or after the stats text changes nothing: padding and
/// a trailing newline are tolerated.
pub proof fn lemma_time_output_ignores_padding(before: Seq<char>, raw: Seq<char>, after: Seq<char>)
    requires
        all_white(before),
        all_white(after),
    ensures
        time_output(before + raw + after) == time_output(raw),
{
    lemma_words_before_white(before + raw, after);
    lemma_words_after_white(before, raw);
}

} // verus!

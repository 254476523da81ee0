//! Characters and words of text: white space as `char::is_whitespace`
//! defines it, and the whitespace-separated words of a text.
use vstd::prelude::*;

verus! {

/// A character with the Unicode `White_Space` property, the set that
/// `char::is_whitespace` documents.
pub open spec fn is_white(c: char) -> bool {
    ||| ('\t' <= c && c <= '\r')
    ||| c == ' '
    ||| c == '\u{85}'
    ||| c == '\u{a0}'
    ||| c == '\u{1680}'
    ||| ('\u{2000}' <= c && c <= '\u{200a}')
    ||| c == '\u{2028}'
    ||| c == '\u{2029}'
    ||| c == '\u{202f}'
    ||| c == '\u{205f}'
    ||| c == '\u{3000}'
}

/// Decides `is_white`.
pub fn white(c: char) -> (b: bool)
    ensures
        b == is_white(c),
{
    ('\t' <= c && c <= '\r') || c == ' ' || c == '\u{85}' || c == '\u{a0}' || c == '\u{1680}'
        || ('\u{2000}' <= c && c <= '\u{200a}') || c == '\u{2028}' || c == '\u{2029}'
        || c == '\u{202f}' || c == '\u{205f}' || c == '\u{3000}'
}

/// The characters of `s`, in order.
pub fn chars_of(s: &str) -> (v: Vec<char>)
    ensures
        v@ == s@,
{
    let mut v: Vec<char> = Vec::new();
    for c in it: s.chars()
        invariant
            v@ == it.seq().take(it.index()),
    {
        v.push(c);
    }
    v
}

/// The characters `v[lo..hi]`.
pub fn sub_chars(v: &Vec<char>, lo: usize, hi: usize) -> (r: Vec<char>)
    requires
        lo <= hi <= v@.len(),
    ensures
        r@ == v@.subrange(lo as int, hi as int),
{
    let mut r: Vec<char> = Vec::new();
    let mut i = lo;
    while i < hi
        invariant
            lo <= i <= hi <= v@.len(),
            r@ == v@.subrange(lo as int, i as int),
        decreases hi - i,
    {
        r.push(v[i]);
        i = i + 1;
    }
    r
}

/// The position of the first character that satisfies `p` (the length when
/// none does).
pub open spec fn first_index_of(s: Seq<char>, p: spec_fn(char) -> bool) -> int
    decreases s.len(),
{
    if s.len() == 0 {
        0
    } else if p(s[0]) {
        0
    } else {
        1 + first_index_of(s.drop_first(), p)
    }
}

/// The first position that satisfies `p` is the one before which none does.
pub proof fn lemma_first_index_of(s: Seq<char>, p: spec_fn(char) -> bool, i: int)
    requires
        0 <= i <= s.len(),
        forall|m: int| 0 <= m < i ==> !p(#[trigger] s[m]),
        i == s.len() || p(s[i]),
    ensures
        first_index_of(s, p) == i,
    decreases i,
{
    if i > 0 {
        assert(!p(s[0]));
        assert forall|m: int| 0 <= m < i - 1 implies !p(#[trigger] s.drop_first()[m]) by {
            assert(s.drop_first()[m] == s[m + 1]);
        }
        lemma_first_index_of(s.drop_first(), p, i - 1);
    }
}

/// `s` without its leading white space.
pub open spec fn trim_start(s: Seq<char>) -> Seq<char>
    decreases s.len(),
{
    if s.len() > 0 && is_white(s[0]) {
        trim_start(s.drop_first())
    } else {
        s
    }
}

/// `s` without its trailing white space.
pub open spec fn trim_end(s: Seq<char>) -> Seq<char>
    decreases s.len(),
{
    if s.len() > 0 && is_white(s.last()) {
        trim_end(s.drop_last())
    } else {
        s
    }
}

/// `s` without leading and trailing white space, as `str::trim` gives it.
pub open spec fn trim(s: Seq<char>) -> Seq<char> {
    trim_end(trim_start(s))
}

/// A trimmed text neither starts nor ends with white space.
pub proof fn lemma_trim_is_clean(s: Seq<char>)
    ensures
        trim(s).len() > 0 ==> !is_white(trim(s)[0]) && !is_white(trim(s).last()),
{
    lemma_trim_start_clean(s);
    lemma_trim_end_clean(trim_start(s));
}

proof fn lemma_trim_start_clean(s: Seq<char>)
    ensures
        trim_start(s).len() > 0 ==> !is_white(trim_start(s)[0]),
    decreases s.len(),
{
    if s.len() > 0 && is_white(s[0]) {
        lemma_trim_start_clean(s.drop_first());
    }
}

proof fn lemma_trim_end_clean(s: Seq<char>)
    ensures
        trim_end(s).len() > 0 ==> !is_white(trim_end(s).last()),
        trim_end(s).len() > 0 ==> trim_end(s)[0] == s[0],
        trim_end(s).len() <= s.len(),
    decreases s.len(),
{
    if s.len() > 0 && is_white(s.last()) {
        lemma_trim_end_clean(s.drop_last());
    }
}

/// The position of the first `c` in `v[lo..hi]` (`hi` when there is none).
pub fn find_char(v: &Vec<char>, lo: usize, hi: usize, c: char) -> (r: usize)
    requires
        lo <= hi <= v@.len(),
    ensures
        lo <= r <= hi,
        r - lo == first_index_of(v@.subrange(lo as int, hi as int), |x: char| x == c),
{
    let mut i = lo;
    while i < hi && v[i] != c
        invariant
            lo <= i <= hi <= v@.len(),
            forall|m: int| lo <= m < i ==> #[trigger] v@[m] != c,
        decreases hi - i,
    {
        i = i + 1;
    }
    proof {
        let s = v@.subrange(lo as int, hi as int);
        assert forall|m: int| 0 <= m < i - lo implies !((|x: char| x == c)(#[trigger] s[m])) by {
            assert(s[m] == v@[lo + m]);
        }
        lemma_first_index_of(s, |x: char| x == c, i - lo);
    }
    i
}

/// The range of `v[lo..hi]` without its leading and trailing white space.
pub fn trim_range(v: &Vec<char>, lo: usize, hi: usize) -> (r: (usize, usize))
    requires
        lo <= hi <= v@.len(),
    ensures
        lo <= r.0 <= r.1 <= hi,
        v@.subrange(r.0 as int, r.1 as int) == trim(v@.subrange(lo as int, hi as int)),
{
    let mut a = lo;
    while a < hi && white(v[a])
        invariant
            lo <= a <= hi <= v@.len(),
            trim_start(v@.subrange(lo as int, hi as int)) == trim_start(
                v@.subrange(a as int, hi as int),
            ),
        decreases hi - a,
    {
        assert(v@.subrange(a as int, hi as int).drop_first() == v@.subrange(a + 1, hi as int));
        a = a + 1;
    }
    let mut b = hi;
    while b > a && white(v[b - 1])
        invariant
            lo <= a <= b <= hi <= v@.len(),
            trim_end(v@.subrange(a as int, hi as int)) == trim_end(
                v@.subrange(a as int, b as int),
            ),
        decreases b - a,
    {
        assert(v@.subrange(a as int, b as int).drop_last() == v@.subrange(a as int, b - 1));
        b = b - 1;
    }
    (a, b)
}

/// The number of characters before the first white one (all of them when
/// none is white).
pub open spec fn word_len(s: Seq<char>) -> nat
    decreases s.len(),
{
    if s.len() == 0 || is_white(s[0]) {
        0
    } else {
        1 + word_len(s.drop_first())
    }
}

/// A word is no longer than the text, and not empty when the text starts
/// with a non-white character.
pub proof fn lemma_word_len_bounds(s: Seq<char>)
    ensures
        word_len(s) <= s.len(),
        s.len() > 0 && !is_white(s[0]) ==> word_len(s) >= 1,
    decreases s.len(),
{
    if s.len() > 0 && !is_white(s[0]) {
        lemma_word_len_bounds(s.drop_first());
    }
}

/// The maximal runs of non-white characters of `s`, in order: what
/// `str::split_whitespace` yields.
pub open spec fn words(s: Seq<char>) -> Seq<Seq<char>>
    decreases s.len(),
{
    if s.len() == 0 {
        Seq::empty()
    } else if is_white(s[0]) {
        words(s.drop_first())
    } else {
        let k = word_len(s) as int;
        proof {
            lemma_word_len_bounds(s);
        }
        seq![s.take(k)] + words(s.skip(k))
    }
}

proof fn lemma_word_len_exact(t: Seq<char>, k: int)
    requires
        0 <= k <= t.len(),
        forall|m: int| 0 <= m < k ==> !is_white(#[trigger] t[m]),
        k == t.len() || is_white(t[k]),
    ensures
        word_len(t) == k,
    decreases k,
{
    if k > 0 {
        assert(!is_white(t[0]));
        lemma_word_len_exact(t.drop_first(), k - 1);
    }
}

/// Every character is white.
pub open spec fn all_white(s: Seq<char>) -> bool {
    forall|i: int| 0 <= i < s.len() ==> is_white(#[trigger] s[i])
}

proof fn lemma_word_len_props(s: Seq<char>)
    ensures
        word_len(s) <= s.len(),
        forall|m: int| 0 <= m < word_len(s) ==> !is_white(#[trigger] s[m]),
        word_len(s) == s.len() || is_white(s[word_len(s) as int]),
    decreases s.len(),
{
    if s.len() > 0 && !is_white(s[0]) {
        let t = s.drop_first();
        lemma_word_len_props(t);
        assert forall|m: int| 0 <= m < word_len(s) implies !is_white(#[trigger] s[m]) by {
            if m > 0 {
                assert(s[m] == t[m - 1]);
            }
        }
        if word_len(t) < t.len() {
            assert(s[word_len(s) as int] == t[word_len(t) as int]);
        }
    }
}

/// White space before a text adds no word.
pub proof fn lemma_words_after_white(w: Seq<char>, s: Seq<char>)
    requires
        all_white(w),
    ensures
        words(w + s) == words(s),
    decreases w.len(),
{
    if w.len() > 0 {
        assert((w + s)[0] == w[0]);
        assert((w + s).drop_first() == w.drop_first() + s);
        lemma_words_after_white(w.drop_first(), s);
    } else {
        assert(w + s == s);
    }
}

/// White space after a text adds no word and lengthens none.
pub proof fn lemma_words_before_white(s: Seq<char>, w: Seq<char>)
    requires
        all_white(w),
    ensures
        words(s + w) == words(s),
    decreases s.len(),
{
    if s.len() == 0 {
        assert(s + w == w + s);
        lemma_words_after_white(w, s);
    } else if is_white(s[0]) {
        assert((s + w)[0] == s[0]);
        assert((s + w).drop_first() == s.drop_first() + w);
        lemma_words_before_white(s.drop_first(), w);
    } else {
        lemma_word_len_props(s);
        lemma_word_len_bounds(s);
        let k = word_len(s) as int;
        let sw = s + w;
        assert forall|m: int| 0 <= m < k implies !is_white(#[trigger] sw[m]) by {
            assert(sw[m] == s[m]);
        }
        if k == s.len() && w.len() > 0 {
            assert(sw[k] == w[0]);
        } else if k < s.len() {
            assert(sw[k] == s[k]);
        }
        lemma_word_len_exact(sw, k);
        assert(sw[0] == s[0]);
        assert(sw.take(k) == s.take(k));
        assert(sw.skip(k) == s.skip(k) + w);
        lemma_words_before_white(s.skip(k), w);
    }
}

/// No character is white.
pub open spec fn none_white(s: Seq<char>) -> bool {
    forall|i: int| 0 <= i < s.len() ==> !is_white(#[trigger] s[i])
}

/// A run of non-white characters is one word.
proof fn lemma_words_single(k: Seq<char>)
    requires
        k.len() > 0,
        none_white(k),
    ensures
        words(k) == seq![k],
{
    lemma_word_len_exact(k, k.len() as int);
    assert(!is_white(k[0]));
    assert(k.take(k.len() as int) == k);
    assert(k.skip(k.len() as int) == Seq::<char>::empty());
    assert(words(Seq::<char>::empty()) == Seq::<Seq<char>>::empty());
    assert(words(k) == seq![k.take(k.len() as int)] + words(k.skip(k.len() as int)));
    assert(seq![k] + Seq::<Seq<char>>::empty() == seq![k]);
}

/// Two runs of non-white characters with white space between are two words.
pub proof fn lemma_words_two(a: Seq<char>, sep: Seq<char>, k: Seq<char>)
    requires
        a.len() > 0,
        k.len() > 0,
        sep.len() > 0,
        none_white(a),
        none_white(k),
        all_white(sep),
    ensures
        words(a + sep + k) == seq![a, k],
{
    let t = a + sep + k;
    let n = a.len() as int;
    assert forall|m: int| 0 <= m < n implies !is_white(#[trigger] t[m]) by {
        assert(t[m] == a[m]);
    }
    assert(t[n] == sep[0]);
    lemma_word_len_exact(t, n);
    assert(t[0] == a[0]);
    assert(t.take(n) == a);
    assert(t.skip(n) == sep + k);
    lemma_words_after_white(sep, k);
    lemma_words_single(k);
    assert(seq![a] + seq![k] == seq![a, k]);
}

/// The character ranges `[start, end)` of the words of `s`, in order.
pub open spec fn spans_text(s: Seq<char>, spans: Seq<(usize, usize)>) -> Seq<Seq<char>> {
    spans.map_values(|p: (usize, usize)| s.subrange(p.0 as int, p.1 as int))
}

/// The ranges of the whitespace-separated words of `s`.
pub fn word_spans(s: &Vec<char>) -> (spans: Vec<(usize, usize)>)
    ensures
        forall|k: int|
            0 <= k < spans@.len() ==> #[trigger] spans@[k].0 < spans@[k].1 && spans@[k].1
                <= s@.len(),
        spans_text(s@, spans@) == words(s@),
{
    let n = s.len();
    let mut spans: Vec<(usize, usize)> = Vec::new();
    let mut i: usize = 0;
    assert(s@.skip(0) == s@);
    while i < n
        invariant
            n == s@.len(),
            i <= n,
            forall|k: int|
                0 <= k < spans@.len() ==> #[trigger] spans@[k].0 < spans@[k].1 && spans@[k].1
                    <= s@.len(),
            words(s@) == spans_text(s@, spans@) + words(s@.skip(i as int)),
        decreases n - i,
    {
        let ghost t = s@.skip(i as int);
        if white(s[i]) {
            assert(t.drop_first() == s@.skip(i + 1));
            i = i + 1;
        } else {
            let start = i;
            let mut j: usize = i + 1;
            while j < n && !white(s[j])
                invariant
                    n == s@.len(),
                    start < j <= n,
                    forall|m: int| start <= m < j ==> !is_white(#[trigger] s@[m]),
                decreases n - j,
            {
                j = j + 1;
            }
            proof {
                assert forall|m: int| 0 <= m < j - start implies !is_white(#[trigger] t[m]) by {
                    assert(t[m] == s@[start + m]);
                }
                lemma_word_len_exact(t, j - start);
                assert(t.take(j - start) == s@.subrange(start as int, j as int));
                assert(t.skip(j - start) == s@.skip(j as int));
                let old_text = spans_text(s@, spans@);
                assert(spans_text(s@, spans@.push((start, j))) == old_text.push(
                    s@.subrange(start as int, j as int),
                ));
                assert(words(t) == seq![t.take(j - start)] + words(t.skip(j - start)));
                assert(old_text + words(t) == old_text.push(s@.subrange(start as int, j as int))
                    + words(s@.skip(j as int)));
            }
            spans.push((start, j));
            i = j;
        }
    }
    proof {
        assert(s@.skip(n as int) == Seq::<char>::empty());
        assert(spans_text(s@, spans@) + Seq::<Seq<char>>::empty() == spans_text(s@, spans@));
    }
    spans
}

} // verus!

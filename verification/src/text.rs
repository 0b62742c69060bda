//! Character-level text primitives over `Seq<char>`, with spans `(lo, hi)`
//! standing for `s.subrange(lo, hi)`.

use vstd::prelude::*;

verus! {

/// The characters of `s`, in order.
pub fn chars_of(s: &str) -> (v: Vec<char>)
    ensures
        v@ == s@,
{
    let mut v: Vec<char> = Vec::new();
    for c in it: s.chars()
        invariant
            v@ == it.seq().take(it.index() as int),
            it.seq() == s@,
    {
        v.push(c);
    }
    v
}

/// Unicode `White_Space`, the set that `char::is_whitespace` tests.
pub open spec fn is_ws(c: char) -> bool {
    ||| '\t' <= c <= '\r'
    ||| c == ' '
    ||| c == '\u{85}'
    ||| c == '\u{a0}'
    ||| c == '\u{1680}'
    ||| '\u{2000}' <= c <= '\u{200a}'
    ||| c == '\u{2028}'
    ||| c == '\u{2029}'
    ||| c == '\u{202f}'
    ||| c == '\u{205f}'
    ||| c == '\u{3000}'
}

/// Whether `c` is whitespace in the sense of `char::is_whitespace`.
pub fn is_whitespace(c: char) -> (b: bool)
    ensures
        b == is_ws(c),
{
    ('\t' <= c && c <= '\r') || c == ' ' || c == '\u{85}' || c == '\u{a0}' || c == '\u{1680}'
        || ('\u{2000}' <= c && c <= '\u{200a}') || c == '\u{2028}' || c == '\u{2029}'
        || c == '\u{202f}' || c == '\u{205f}' || c == '\u{3000}'
}

/// First position at or after `i` (and before `hi`) that holds no whitespace, or `hi`.
pub open spec fn skip_ws(s: Seq<char>, i: int, hi: int) -> int
    decreases hi - i,
{
    if i < hi && is_ws(s[i]) {
        skip_ws(s, i + 1, hi)
    } else {
        i
    }
}

/// End of `s[lo..j]` once trailing whitespace is dropped.
pub open spec fn skip_ws_back(s: Seq<char>, lo: int, j: int) -> int
    decreases j - lo,
{
    if lo < j && is_ws(s[j - 1]) {
        skip_ws_back(s, lo, j - 1)
    } else {
        j
    }
}

/// The span of `s[lo..hi]` with leading and trailing whitespace removed (`str::trim`).
pub open spec fn trim_span(s: Seq<char>, lo: int, hi: int) -> (int, int) {
    let a = skip_ws(s, lo, hi);
    (a, skip_ws_back(s, a, hi))
}

/// `str::trim` on a whole sequence.
pub open spec fn trim(t: Seq<char>) -> Seq<char> {
    let p = trim_span(t, 0, t.len() as int);
    t.subrange(p.0, p.1)
}

pub proof fn lemma_skip_ws_bounds(s: Seq<char>, i: int, hi: int)
    requires
        i <= hi,
    ensures
        i <= skip_ws(s, i, hi) <= hi,
    decreases hi - i,
{
    if i < hi && is_ws(s[i]) {
        lemma_skip_ws_bounds(s, i + 1, hi);
    }
}

pub proof fn lemma_skip_ws_back_bounds(s: Seq<char>, lo: int, j: int)
    requires
        lo <= j,
    ensures
        lo <= skip_ws_back(s, lo, j) <= j,
    decreases j - lo,
{
    if lo < j && is_ws(s[j - 1]) {
        lemma_skip_ws_back_bounds(s, lo, j - 1);
    }
}

/// `str::trim` on the span `s[lo..hi]`.
pub fn trim_range(s: &Vec<char>, lo: usize, hi: usize) -> (r: (usize, usize))
    requires
        lo <= hi <= s@.len(),
    ensures
        lo <= r.0 <= r.1 <= hi,
        (r.0 as int, r.1 as int) == trim_span(s@, lo as int, hi as int),
{
    let mut a = lo;
    while a < hi && is_whitespace(s[a])
        invariant
            lo <= a <= hi <= s@.len(),
            skip_ws(s@, a as int, hi as int) == skip_ws(s@, lo as int, hi as int),
        decreases hi - a,
    {
        a = a + 1;
    }
    let mut b = hi;
    while b > a && is_whitespace(s[b - 1])
        invariant
            lo <= a <= b <= hi <= s@.len(),
            skip_ws(s@, lo as int, hi as int) == a,
            skip_ws_back(s@, a as int, b as int) == skip_ws_back(s@, a as int, hi as int),
        decreases b - a,
    {
        b = b - 1;
    }
    (a, b)
}

/// Whether `pat` occurs in `s` at position `i`, ending at or before `hi`.
pub open spec fn occurs_at(s: Seq<char>, pat: Seq<char>, i: int, hi: int) -> bool {
    &&& 0 <= i
    &&& i + pat.len() <= hi <= s.len()
    &&& s.subrange(i, i + pat.len()) == pat
}

/// Leftmost occurrence of `pat` in `s[i..hi]` (`str::find`).
pub open spec fn find_in(s: Seq<char>, pat: Seq<char>, i: int, hi: int) -> Option<int>
    decreases hi - i + 1,
{
    if i + pat.len() > hi {
        None
    } else if occurs_at(s, pat, i, hi) {
        Some(i)
    } else {
        find_in(s, pat, i + 1, hi)
    }
}

/// Rightmost occurrence of `pat` in `s[lo..]` that starts at or before `k`.
pub open spec fn rfind_from(s: Seq<char>, pat: Seq<char>, lo: int, k: int, hi: int) -> Option<int>
    decreases k - lo + 1,
{
    if k < lo {
        None
    } else if occurs_at(s, pat, k, hi) {
        Some(k)
    } else {
        rfind_from(s, pat, lo, k - 1, hi)
    }
}

/// Rightmost occurrence of `pat` in `s[lo..hi]` (`str::rfind`).
pub open spec fn rfind_in(s: Seq<char>, pat: Seq<char>, lo: int, hi: int) -> Option<int> {
    rfind_from(s, pat, lo, hi - pat.len(), hi)
}

/// `str::starts_with` on the span `s[lo..hi]`.
pub open spec fn starts_with(s: Seq<char>, lo: int, hi: int, pat: Seq<char>) -> bool {
    lo + pat.len() <= hi && s.subrange(lo, lo + pat.len()) == pat
}

/// `str::ends_with` on the span `s[lo..hi]`.
pub open spec fn ends_with(s: Seq<char>, lo: int, hi: int, pat: Seq<char>) -> bool {
    lo <= hi - pat.len() && s.subrange(hi - pat.len(), hi) == pat
}

/// First position of `c` in `s[i..hi]`, or `hi`.
pub open spec fn find_char(s: Seq<char>, c: char, i: int, hi: int) -> int
    decreases hi - i,
{
    if i < hi && s[i] != c {
        find_char(s, c, i + 1, hi)
    } else {
        i
    }
}

/// Whether the span `s[lo..hi]` equals `t`.
pub fn span_eq(s: &Vec<char>, lo: usize, hi: usize, t: &Vec<char>) -> (b: bool)
    requires
        lo <= hi <= s@.len(),
    ensures
        b == (s@.subrange(lo as int, hi as int) == t@),
{
    if hi - lo != t.len() {
        return false;
    }
    let mut k: usize = 0;
    while k < t.len()
        invariant
            hi - lo == t@.len(),
            lo <= hi <= s@.len(),
            k <= t@.len(),
            forall|m: int| 0 <= m < k ==> s@[lo + m] == t@[m],
        decreases t@.len() - k,
    {
        if s[lo + k] != t[k] {
            assert(s@.subrange(lo as int, hi as int)[k as int] != t@[k as int]);
            return false;
        }
        k = k + 1;
    }
    assert(s@.subrange(lo as int, hi as int) =~= t@);
    true
}

/// `str::starts_with` on the span `s[lo..hi]`.
pub fn span_starts_with(s: &Vec<char>, lo: usize, hi: usize, pat: &Vec<char>) -> (b: bool)
    requires
        lo <= hi <= s@.len(),
    ensures
        b == starts_with(s@, lo as int, hi as int, pat@),
{
    if pat.len() > hi - lo {
        return false;
    }
    span_eq(s, lo, lo + pat.len(), pat)
}

/// `str::ends_with` on the span `s[lo..hi]`.
pub fn span_ends_with(s: &Vec<char>, lo: usize, hi: usize, pat: &Vec<char>) -> (b: bool)
    requires
        lo <= hi <= s@.len(),
    ensures
        b == ends_with(s@, lo as int, hi as int, pat@),
{
    if pat.len() > hi - lo {
        return false;
    }
    span_eq(s, hi - pat.len(), hi, pat)
}

/// `str::find` on the span `s[lo..hi]`.
pub fn span_find(s: &Vec<char>, lo: usize, hi: usize, pat: &Vec<char>) -> (r: Option<usize>)
    requires
        lo <= hi <= s@.len(),
    ensures
        r matches Some(j) ==> find_in(s@, pat@, lo as int, hi as int) == Some(j as int),
        r is None ==> find_in(s@, pat@, lo as int, hi as int) is None,
        r matches Some(j) ==> lo <= j && j + pat@.len() <= hi,
{
    if pat.len() == 0 {
        assert(s@.subrange(lo as int, lo as int) =~= pat@);
        return Some(lo);
    }
    if pat.len() > hi - lo {
        return None;
    }
    let mut i = lo;
    while i <= hi - pat.len()
        invariant
            lo <= i,
            pat@.len() > 0,
            lo + pat@.len() <= hi <= s@.len(),
            find_in(s@, pat@, i as int, hi as int) == find_in(s@, pat@, lo as int, hi as int),
        decreases hi - i,
    {
        if span_eq(s, i, i + pat.len(), pat) {
            return Some(i);
        }
        i = i + 1;
    }
    None
}

/// `str::rfind` on the span `s[lo..hi]`.
pub fn span_rfind(s: &Vec<char>, lo: usize, hi: usize, pat: &Vec<char>) -> (r: Option<usize>)
    requires
        lo <= hi <= s@.len(),
    ensures
        r matches Some(j) ==> rfind_in(s@, pat@, lo as int, hi as int) == Some(j as int),
        r is None ==> rfind_in(s@, pat@, lo as int, hi as int) is None,
        r matches Some(j) ==> lo <= j && j + pat@.len() <= hi,
{
    if pat.len() > hi - lo {
        assert(rfind_from(s@, pat@, lo as int, hi - pat@.len(), hi as int) is None);
        return None;
    }
    let mut k = hi - pat.len();
    loop
        invariant
            lo <= k,
            k + pat@.len() <= hi <= s@.len(),
            rfind_from(s@, pat@, lo as int, k as int, hi as int) == rfind_in(s@, pat@, lo as int, hi as int),
        decreases k - lo,
    {
        if span_eq(s, k, k + pat.len(), pat) {
            return Some(k);
        }
        if k == lo {
            return None;
        }
        k = k - 1;
    }
}

/// First position of `c` in the span `s[lo..hi]`, or `hi`.
pub fn span_find_char(s: &Vec<char>, lo: usize, hi: usize, c: char) -> (r: usize)
    requires
        lo <= hi <= s@.len(),
    ensures
        r as int == find_char(s@, c, lo as int, hi as int),
        lo <= r <= hi,
{
    let mut i = lo;
    while i < hi && s[i] != c
        invariant
            lo <= i <= hi <= s@.len(),
            find_char(s@, c, i as int, hi as int) == find_char(s@, c, lo as int, hi as int),
        decreases hi - i,
    {
        i = i + 1;
    }
    i
}

/// Spans with `usize` ends, read as integer spans.
pub open spec fn spans(v: Seq<(usize, usize)>) -> Seq<(int, int)> {
    v.map_values(|p: (usize, usize)| (p.0 as int, p.1 as int))
}

/// Every span of `v` lies inside `[lo, hi]` and is well ordered.
pub open spec fn spans_within(v: Seq<(int, int)>, lo: int, hi: int) -> bool {
    forall|k: int| 0 <= k < v.len() ==> lo <= (#[trigger] v[k]).0 <= v[k].1 <= hi
}

pub proof fn lemma_spans_push(v: Seq<(usize, usize)>, x: (usize, usize))
    ensures
        spans(v.push(x)) == spans(v).push((x.0 as int, x.1 as int)),
{
    assert(spans(v.push(x)) =~= spans(v).push((x.0 as int, x.1 as int)));
}

pub proof fn lemma_push_concat<A>(a: Seq<A>, x: A, rest: Seq<A>)
    ensures
        a.push(x) + rest == a + (seq![x] + rest),
{
    assert(a.push(x) + rest =~= a + (seq![x] + rest));
}

/// Whether `ex` ends just before position `i` of `s`.
pub open spec fn preceded_by(s: Seq<char>, ex: Seq<char>, i: int) -> bool {
    ex.len() <= i <= s.len() && s.subrange(i - ex.len(), i) == ex
}

/// The pieces of `s[..hi]` between the occurrences of `pat` that `ex` does not just
/// precede, scanning from `i` with the current piece starting at `start`; each occurrence
/// is dropped (`str::split`, skipping the occurrences that follow `ex`).
pub open spec fn split_unless_after_from(
    s: Seq<char>,
    pat: Seq<char>,
    ex: Seq<char>,
    start: int,
    i: int,
    hi: int,
) -> Seq<(int, int)>
    decreases hi - i + 1,
{
    if pat.len() == 0 || i + pat.len() > hi {
        seq![(start, hi)]
    } else if !preceded_by(s, ex, i) && occurs_at(s, pat, i, hi) {
        seq![(start, i)] + split_unless_after_from(s, pat, ex, i + pat.len(), i + pat.len(), hi)
    } else {
        split_unless_after_from(s, pat, ex, start, i + 1, hi)
    }
}

/// The pieces of the whole of `s` between the occurrences of the non-empty pattern `pat`
/// that `ex` does not just precede, as spans.
pub fn split_unless_after(s: &Vec<char>, pat: &Vec<char>, ex: &Vec<char>) -> (r: Vec<(usize, usize)>)
    ensures
        spans(r@) == split_unless_after_from(s@, pat@, ex@, 0, 0, s@.len() as int),
        spans_within(spans(r@), 0, s@.len() as int),
{
    let hi = s.len();
    let mut r: Vec<(usize, usize)> = Vec::new();
    if pat.len() == 0 {
        r.push((0, hi));
        proof {
            lemma_spans_push(Seq::empty(), (0usize, hi));
            assert(spans(r@) =~= seq![(0int, hi as int)]);
        }
        return r;
    }
    let mut start: usize = 0;
    let mut i: usize = 0;
    while i <= hi && pat.len() <= hi - i
        invariant
            hi == s@.len(),
            pat@.len() > 0,
            start <= i,
            i <= hi + 1,
            pat@.len() + i > hi ==> i <= hi,
            spans(r@) + split_unless_after_from(s@, pat@, ex@, start as int, i as int, hi as int)
                == split_unless_after_from(s@, pat@, ex@, 0, 0, hi as int),
            spans_within(spans(r@), 0, start as int),
        decreases hi + 1 - i,
    {
        if !(ex.len() <= i && span_eq(s, i - ex.len(), i, ex)) && span_eq(s, i, i + pat.len(), pat) {
            proof {
                lemma_spans_push(r@, (start, i));
                lemma_push_concat(spans(r@), (start as int, i as int),
                    split_unless_after_from(s@, pat@, ex@, (i + pat@.len()) as int, (i + pat@.len()) as int, hi as int));
            }
            r.push((start, i));
            i = i + pat.len();
            start = i;
        } else {
            i = i + 1;
        }
    }
    proof {
        lemma_spans_push(r@, (start, hi));
        lemma_push_concat(spans(r@), (start as int, hi as int), Seq::<(int, int)>::empty());
        assert(seq![(start as int, hi as int)] + Seq::<(int, int)>::empty() =~= seq![(start as int, hi as int)]);
    }
    r.push((start, hi));
    proof {
        assert(spans(r@) =~= spans(r@) + Seq::<(int, int)>::empty());
    }
    r
}

/// End of a line that stops before the newline at `i`: a carriage return before the
/// newline is dropped too.
pub open spec fn strip_cr(s: Seq<char>, start: int, i: int) -> int {
    if start < i && s[i - 1] == '\r' {
        i - 1
    } else {
        i
    }
}

/// The lines of `s[..hi]` scanning from `i`, the current line starting at `start`
/// (`str::lines`).
pub open spec fn lines_from(s: Seq<char>, start: int, i: int, hi: int) -> Seq<(int, int)>
    decreases hi - i,
{
    if i >= hi {
        if start < hi {
            seq![(start, hi)]
        } else {
            seq![]
        }
    } else if s[i] == '\n' {
        seq![(start, strip_cr(s, start, i))] + lines_from(s, i + 1, i + 1, hi)
    } else {
        lines_from(s, start, i + 1, hi)
    }
}

/// `str::lines` on the span `s[lo..hi]`, as spans.
pub fn lines(s: &Vec<char>, lo: usize, hi: usize) -> (r: Vec<(usize, usize)>)
    requires
        lo <= hi <= s@.len(),
    ensures
        spans(r@) == lines_from(s@, lo as int, lo as int, hi as int),
        spans_within(spans(r@), lo as int, hi as int),
{
    let mut r: Vec<(usize, usize)> = Vec::new();
    let mut start = lo;
    let mut i = lo;
    while i < hi
        invariant
            lo <= start <= i <= hi <= s@.len(),
            spans(r@) + lines_from(s@, start as int, i as int, hi as int)
                == lines_from(s@, lo as int, lo as int, hi as int),
            spans_within(spans(r@), lo as int, start as int),
        decreases hi - i,
    {
        if s[i] == '\n' {
            let end = if start < i && s[i - 1] == '\r' { i - 1 } else { i };
            proof {
                lemma_spans_push(r@, (start, end));
                lemma_push_concat(spans(r@), (start as int, end as int),
                    lines_from(s@, i + 1, i + 1, hi as int));
            }
            r.push((start, end));
            start = i + 1;
        }
        i = i + 1;
    }
    if start < hi {
        proof {
            lemma_spans_push(r@, (start, hi));
            lemma_push_concat(spans(r@), (start as int, hi as int), Seq::<(int, int)>::empty());
            assert(seq![(start as int, hi as int)] + Seq::<(int, int)>::empty() =~= seq![(start as int, hi as int)]);
        }
        r.push((start, hi));
        proof {
            assert(spans(r@) =~= spans(r@) + Seq::<(int, int)>::empty());
        }
    } else {
        proof {
            assert(spans(r@) =~= spans(r@) + Seq::<(int, int)>::empty());
        }
    }
    r
}

/// The whitespace-separated words of `s[..hi]` scanning from `i`; `in_word` tells whether
/// a word that began at `start` is still open (`str::split_whitespace`).
pub open spec fn words_from(s: Seq<char>, in_word: bool, start: int, i: int, hi: int) -> Seq<(int, int)>
    decreases hi - i,
{
    if i >= hi {
        if in_word {
            seq![(start, hi)]
        } else {
            seq![]
        }
    } else if is_ws(s[i]) {
        if in_word {
            seq![(start, i)] + words_from(s, false, i + 1, i + 1, hi)
        } else {
            words_from(s, false, i + 1, i + 1, hi)
        }
    } else if in_word {
        words_from(s, true, start, i + 1, hi)
    } else {
        words_from(s, true, i, i + 1, hi)
    }
}

/// `str::split_whitespace` on the span `s[lo..hi]`, as spans.
pub fn words(s: &Vec<char>, lo: usize, hi: usize) -> (r: Vec<(usize, usize)>)
    requires
        lo <= hi <= s@.len(),
    ensures
        spans(r@) == words_from(s@, false, lo as int, lo as int, hi as int),
        spans_within(spans(r@), lo as int, hi as int),
{
    let mut r: Vec<(usize, usize)> = Vec::new();
    let mut in_word = false;
    let mut start = lo;
    let mut i = lo;
    while i < hi
        invariant
            lo <= start <= i <= hi <= s@.len(),
            spans(r@) + words_from(s@, in_word, start as int, i as int, hi as int)
                == words_from(s@, false, lo as int, lo as int, hi as int),
            spans_within(spans(r@), lo as int, start as int),
        decreases hi - i,
    {
        if is_whitespace(s[i]) {
            if in_word {
                proof {
                    lemma_spans_push(r@, (start, i));
                    lemma_push_concat(spans(r@), (start as int, i as int),
                        words_from(s@, false, i + 1, i + 1, hi as int));
                }
                r.push((start, i));
            }
            in_word = false;
            start = i + 1;
        } else if !in_word {
            in_word = true;
            start = i;
        }
        i = i + 1;
    }
    if in_word {
        proof {
            lemma_spans_push(r@, (start, hi));
            lemma_push_concat(spans(r@), (start as int, hi as int), Seq::<(int, int)>::empty());
            assert(seq![(start as int, hi as int)] + Seq::<(int, int)>::empty() =~= seq![(start as int, hi as int)]);
        }
        r.push((start, hi));
    }
    proof {
        assert(spans(r@) =~= spans(r@) + Seq::<(int, int)>::empty());
    }
    r
}

pub open spec fn is_digit(c: char) -> bool {
    '0' <= c <= '9'
}

/// Whether every character of `s[lo..hi]` is an ASCII digit.
pub open spec fn all_digits(s: Seq<char>, lo: int, hi: int) -> bool {
    forall|k: int| lo <= k < hi ==> is_digit(#[trigger] s[k])
}

/// The decimal number that the digits `s[lo..hi]` write.
pub open spec fn digits_value(s: Seq<char>, lo: int, hi: int) -> int
    decreases hi - lo,
{
    if hi <= lo {
        0
    } else {
        digits_value(s, lo, hi - 1) * 10 + (s[hi - 1] as int - '0' as int)
    }
}

/// `str::parse::<u64>` on the span `s[lo..hi]`: an optional `+`, then one or more ASCII
/// digits whose value fits in a `u64`.
pub open spec fn parse_u64(s: Seq<char>, lo: int, hi: int) -> Option<u64> {
    let d = if lo < hi && s[lo] == '+' { lo + 1 } else { lo };
    if d < hi && all_digits(s, d, hi) && digits_value(s, d, hi) <= u64::MAX {
        Some(digits_value(s, d, hi) as u64)
    } else {
        None
    }
}

proof fn lemma_digits_value_grows(s: Seq<char>, lo: int, k: int, hi: int)
    requires
        lo <= k <= hi,
        all_digits(s, lo, hi),
    ensures
        digits_value(s, lo, k) <= digits_value(s, lo, hi),
        0 <= digits_value(s, lo, k),
    decreases hi - k,
{
    if k < hi {
        lemma_digits_value_grows(s, lo, k + 1, hi);
        assert(is_digit(s[k]));
        lemma_digits_value_nonneg(s, lo, k);
    } else {
        lemma_digits_value_nonneg(s, lo, k);
    }
}

proof fn lemma_digits_value_nonneg(s: Seq<char>, lo: int, k: int)
    requires
        lo <= k,
        all_digits(s, lo, k),
    ensures
        0 <= digits_value(s, lo, k),
    decreases k - lo,
{
    if lo < k {
        lemma_digits_value_nonneg(s, lo, k - 1);
        assert(is_digit(s[k - 1]));
    }
}

/// `str::parse::<u64>` on the span `s[lo..hi]`.
pub fn parse_u64_span(s: &Vec<char>, lo: usize, hi: usize) -> (r: Option<u64>)
    requires
        lo <= hi <= s@.len(),
    ensures
        r == parse_u64(s@, lo as int, hi as int),
{
    let d = if lo < hi && s[lo] == '+' { lo + 1 } else { lo };
    if d >= hi {
        return None;
    }
    let mut acc: u64 = 0;
    let mut k = d;
    while k < hi
        invariant
            lo <= d < hi <= s@.len(),
            d == (if lo < hi && s@[lo as int] == '+' { lo + 1 } else { lo as int }),
            d <= k <= hi,
            all_digits(s@, d as int, k as int),
            acc as int == digits_value(s@, d as int, k as int),
        decreases hi - k,
    {
        let c = s[k];
        if !('0' <= c && c <= '9') {
            assert(!all_digits(s@, d as int, hi as int));
            return None;
        }
        let v = (c as u32 - '0' as u32) as u64;
        assert(all_digits(s@, d as int, (k + 1) as int));
        match acc.checked_mul(10) {
            Some(m) => match m.checked_add(v) {
                Some(n) => {
                    acc = n;
                },
                None => {
                    proof {
                        if all_digits(s@, d as int, hi as int) {
                            lemma_digits_value_grows(s@, d as int, (k + 1) as int, hi as int);
                        }
                    }
                    return None;
                },
            },
            None => {
                proof {
                    if all_digits(s@, d as int, hi as int) {
                        lemma_digits_value_grows(s@, d as int, (k + 1) as int, hi as int);
                    }
                }
                return None;
            },
        }
        k = k + 1;
    }
    Some(acc)
}

/// Whether `pat` occurs in the span `s[lo..hi]` (`str::contains`).
pub open spec fn contains(s: Seq<char>, lo: int, hi: int, pat: Seq<char>) -> bool {
    find_in(s, pat, lo, hi) is Some
}

/// `str::contains` on the span `s[lo..hi]`.
pub fn span_contains(s: &Vec<char>, lo: usize, hi: usize, pat: &Vec<char>) -> (b: bool)
    requires
        lo <= hi <= s@.len(),
    ensures
        b == contains(s@, lo as int, hi as int, pat@),
{
    span_find(s, lo, hi, pat).is_some()
}

pub open spec fn is_bracket(c: char) -> bool {
    c == '[' || c == ']'
}

/// First position at or after `i` (before `hi`) that holds no bracket, or `hi`.
pub open spec fn skip_brackets(s: Seq<char>, i: int, hi: int) -> int
    decreases hi - i,
{
    if i < hi && is_bracket(s[i]) {
        skip_brackets(s, i + 1, hi)
    } else {
        i
    }
}

/// End of `s[lo..j]` once trailing brackets are dropped.
pub open spec fn skip_brackets_back(s: Seq<char>, lo: int, j: int) -> int
    decreases j - lo,
{
    if lo < j && is_bracket(s[j - 1]) {
        skip_brackets_back(s, lo, j - 1)
    } else {
        j
    }
}

/// The span `s[lo..hi]` without the `[` and `]` at either end
/// (`str::trim_matches(|c| c == '[' || c == ']')`).
pub open spec fn strip_brackets(s: Seq<char>, lo: int, hi: int) -> (int, int) {
    let a = skip_brackets(s, lo, hi);
    (a, skip_brackets_back(s, a, hi))
}

/// `str::trim_matches(|c| c == '[' || c == ']')` on the span `s[lo..hi]`.
pub fn strip_brackets_range(s: &Vec<char>, lo: usize, hi: usize) -> (r: (usize, usize))
    requires
        lo <= hi <= s@.len(),
    ensures
        lo <= r.0 <= r.1 <= hi,
        (r.0 as int, r.1 as int) == strip_brackets(s@, lo as int, hi as int),
{
    let mut a = lo;
    while a < hi && (s[a] == '[' || s[a] == ']')
        invariant
            lo <= a <= hi <= s@.len(),
            skip_brackets(s@, a as int, hi as int) == skip_brackets(s@, lo as int, hi as int),
        decreases hi - a,
    {
        a = a + 1;
    }
    let mut b = hi;
    while b > a && (s[b - 1] == '[' || s[b - 1] == ']')
        invariant
            lo <= a <= b <= hi <= s@.len(),
            skip_brackets(s@, lo as int, hi as int) == a,
            skip_brackets_back(s@, a as int, b as int) == skip_brackets_back(s@, a as int, hi as int),
        decreases b - a,
    {
        b = b - 1;
    }
    (a, b)
}

/// The text of the span `[lo, hi)` of `src`, whose characters are `s`.
pub fn span_string(src: &str, s: &Vec<char>, lo: usize, hi: usize) -> (r: String)
    requires
        s@ == src@,
        lo <= hi <= s@.len(),
    ensures
        r@ == s@.subrange(lo as int, hi as int),
{
    src.substring_char(lo, hi).to_owned()
}

/// `a` followed by `b`.
pub fn joined(a: &str, b: &str) -> (r: String)
    ensures
        r@ == a@ + b@,
{
    let mut r = a.to_owned();
    r.append(b);
    r
}

/// The text of an optional string.
pub open spec fn opt_view(o: Option<String>) -> Option<Seq<char>> {
    match o {
        Some(s) => Some(s@),
        None => None,
    }
}

proof fn lemma_skip_ws_stops(s: Seq<char>, i: int, hi: int)
    requires
        i <= hi,
    ensures
        skip_ws(s, i, hi) == hi || !is_ws(s[skip_ws(s, i, hi)]),
    decreases hi - i,
{
    if i < hi && is_ws(s[i]) {
        lemma_skip_ws_stops(s, i + 1, hi);
    }
}

proof fn lemma_skip_ws_back_stops(s: Seq<char>, lo: int, j: int)
    requires
        lo <= j,
    ensures
        skip_ws_back(s, lo, j) == lo || !is_ws(s[skip_ws_back(s, lo, j) - 1]),
    decreases j - lo,
{
    if lo < j && is_ws(s[j - 1]) {
        lemma_skip_ws_back_stops(s, lo, j - 1);
    }
}

/// Trimming is idempotent: the trimmed span of a trimmed span is itself.
pub proof fn lemma_trim_idempotent(s: Seq<char>, lo: int, hi: int)
    requires
        lo <= hi,
    ensures
        trim_span(s, trim_span(s, lo, hi).0, trim_span(s, lo, hi).1) == trim_span(s, lo, hi),
{
    let a = skip_ws(s, lo, hi);
    lemma_skip_ws_bounds(s, lo, hi);
    lemma_skip_ws_stops(s, lo, hi);
    let b = skip_ws_back(s, a, hi);
    lemma_skip_ws_back_bounds(s, a, hi);
    lemma_skip_ws_back_stops(s, a, hi);
    if a < b {
        assert(!is_ws(s[a]));
        assert(skip_ws(s, a, b) == a);
        assert(!is_ws(s[b - 1]));
    }
}

/// An occurrence at or after `i` is found.
pub proof fn lemma_find_in_finds(s: Seq<char>, pat: Seq<char>, i: int, j: int, hi: int)
    requires
        i <= j,
        occurs_at(s, pat, j, hi),
    ensures
        find_in(s, pat, i, hi) is Some,
    decreases j - i,
{
    if i < j && !occurs_at(s, pat, i, hi) {
        lemma_find_in_finds(s, pat, i + 1, j, hi);
    }
}

/// What `find_in` finds is an occurrence inside the span searched.
pub proof fn lemma_find_in_bounds(s: Seq<char>, pat: Seq<char>, i: int, hi: int)
    requires
        find_in(s, pat, i, hi) is Some,
    ensures
        i <= find_in(s, pat, i, hi)->0,
        find_in(s, pat, i, hi)->0 + pat.len() <= hi,
        occurs_at(s, pat, find_in(s, pat, i, hi)->0, hi),
    decreases hi - i + 1,
{
    if i + pat.len() <= hi && !occurs_at(s, pat, i, hi) {
        lemma_find_in_bounds(s, pat, i + 1, hi);
    }
}

proof fn lemma_within_cons(x: (int, int), rest: Seq<(int, int)>, lo: int, hi: int)
    requires
        lo <= x.0 <= x.1 <= hi,
        spans_within(rest, lo, hi),
    ensures
        spans_within(seq![x] + rest, lo, hi),
{
    let t = seq![x] + rest;
    assert forall|k: int| 0 <= k < t.len() implies lo <= (#[trigger] t[k]).0 <= t[k].1 <= hi by {
        if k > 0 {
            assert(t[k] == rest[k - 1]);
        }
    }
}

proof fn lemma_within_widen(v: Seq<(int, int)>, lo: int, lo2: int, hi: int)
    requires
        spans_within(v, lo2, hi),
        lo <= lo2,
    ensures
        spans_within(v, lo, hi),
{
}

/// The pieces of a split lie between the start of the first piece and the end.
pub proof fn lemma_split_unless_after_within(s: Seq<char>, pat: Seq<char>, ex: Seq<char>, start: int, i: int, hi: int)
    requires
        start <= i,
        start <= hi,
    ensures
        spans_within(split_unless_after_from(s, pat, ex, start, i, hi), start, hi),
    decreases hi - i + 1,
{
    if pat.len() == 0 || i + pat.len() > hi {
    } else if !preceded_by(s, ex, i) && occurs_at(s, pat, i, hi) {
        let rest = split_unless_after_from(s, pat, ex, i + pat.len(), i + pat.len(), hi);
        lemma_split_unless_after_within(s, pat, ex, i + pat.len(), i + pat.len(), hi);
        lemma_within_widen(rest, start, i + pat.len(), hi);
        lemma_within_cons((start, i), rest, start, hi);
    } else {
        lemma_split_unless_after_within(s, pat, ex, start, i + 1, hi);
    }
}

/// The lines of a span lie inside it.
pub proof fn lemma_lines_within(s: Seq<char>, start: int, i: int, hi: int)
    requires
        start <= i <= hi,
    ensures
        spans_within(lines_from(s, start, i, hi), start, hi),
    decreases hi - i,
{
    if i >= hi {
    } else if s[i] == '\n' {
        lemma_lines_within(s, i + 1, i + 1, hi);
        lemma_within_widen(lines_from(s, i + 1, i + 1, hi), start, i + 1, hi);
        lemma_within_cons((start, strip_cr(s, start, i)), lines_from(s, i + 1, i + 1, hi), start, hi);
    } else {
        lemma_lines_within(s, start, i + 1, hi);
    }
}

/// The words of a span lie inside it.
pub proof fn lemma_words_within(s: Seq<char>, in_word: bool, start: int, i: int, hi: int)
    requires
        start <= i <= hi,
    ensures
        spans_within(words_from(s, in_word, start, i, hi), start, hi),
    decreases hi - i,
{
    if i >= hi {
    } else if is_ws(s[i]) {
        lemma_words_within(s, false, i + 1, i + 1, hi);
        lemma_within_widen(words_from(s, false, i + 1, i + 1, hi), start, i + 1, hi);
        if in_word {
            lemma_within_cons((start, i), words_from(s, false, i + 1, i + 1, hi), start, hi);
        }
    } else if in_word {
        lemma_words_within(s, true, start, i + 1, hi);
    } else {
        lemma_words_within(s, true, i, i + 1, hi);
        lemma_within_widen(words_from(s, true, i, i + 1, hi), start, i, hi);
    }
}

/// `s` reads as `t` moved by `d`: position `k` of `t` is position `k + d` of `s`, for every
/// `k` in `[lo, hi)`.
pub open spec fn agree(s: Seq<char>, t: Seq<char>, d: int, lo: int, hi: int) -> bool {
    &&& 0 <= lo <= hi <= t.len()
    &&& 0 <= lo + d
    &&& hi + d <= s.len()
    &&& forall|k: int| lo <= k < hi ==> s[k + d] == #[trigger] t[k]
}

/// The spans `v` moved by `d`.
pub open spec fn shift_spans(v: Seq<(int, int)>, d: int) -> Seq<(int, int)> {
    v.map_values(|p: (int, int)| (p.0 + d, p.1 + d))
}

pub proof fn lemma_shift_cons(x: (int, int), rest: Seq<(int, int)>, d: int)
    ensures
        shift_spans(seq![x] + rest, d) == seq![(x.0 + d, x.1 + d)] + shift_spans(rest, d),
{
    assert(shift_spans(seq![x] + rest, d) =~= seq![(x.0 + d, x.1 + d)] + shift_spans(rest, d));
}

pub proof fn lemma_agree_at(s: Seq<char>, t: Seq<char>, d: int, lo: int, hi: int, k: int)
    requires
        agree(s, t, d, lo, hi),
        lo <= k < hi,
    ensures
        s[k + d] == t[k],
{
    assert(s[k + d] == t[k]);
}

pub proof fn lemma_skip_ws_shift(s: Seq<char>, t: Seq<char>, d: int, lo: int, hi: int, i: int, j: int)
    requires
        agree(s, t, d, lo, hi),
        lo <= i,
        j <= hi,
    ensures
        skip_ws(s, i + d, j + d) == skip_ws(t, i, j) + d,
    decreases j - i,
{
    if i < j {
        lemma_agree_at(s, t, d, lo, hi, i);
        if is_ws(t[i]) {
            lemma_skip_ws_shift(s, t, d, lo, hi, i + 1, j);
        }
    }
}

pub proof fn lemma_skip_ws_back_shift(s: Seq<char>, t: Seq<char>, d: int, lo: int, hi: int, i: int, j: int)
    requires
        agree(s, t, d, lo, hi),
        lo <= i,
        j <= hi,
    ensures
        skip_ws_back(s, i + d, j + d) == skip_ws_back(t, i, j) + d,
    decreases j - i,
{
    if i < j {
        lemma_agree_at(s, t, d, lo, hi, j - 1);
        if is_ws(t[j - 1]) {
            lemma_skip_ws_back_shift(s, t, d, lo, hi, i, j - 1);
        }
    }
}

pub proof fn lemma_trim_shift(s: Seq<char>, t: Seq<char>, d: int, lo: int, hi: int, i: int, j: int)
    requires
        agree(s, t, d, lo, hi),
        lo <= i <= j <= hi,
    ensures
        trim_span(s, i + d, j + d) == (trim_span(t, i, j).0 + d, trim_span(t, i, j).1 + d),
        i <= trim_span(t, i, j).0 <= trim_span(t, i, j).1 <= j,
{
    lemma_skip_ws_shift(s, t, d, lo, hi, i, j);
    lemma_skip_ws_bounds(t, i, j);
    let a = skip_ws(t, i, j);
    lemma_skip_ws_back_shift(s, t, d, lo, hi, a, j);
    lemma_skip_ws_back_bounds(t, a, j);
}

pub proof fn lemma_find_char_shift(s: Seq<char>, t: Seq<char>, d: int, lo: int, hi: int, c: char, i: int, j: int)
    requires
        agree(s, t, d, lo, hi),
        lo <= i <= j <= hi,
    ensures
        find_char(s, c, i + d, j + d) == find_char(t, c, i, j) + d,
        i <= find_char(t, c, i, j) <= j,
    decreases j - i,
{
    if i < j {
        lemma_agree_at(s, t, d, lo, hi, i);
        if t[i] != c {
            lemma_find_char_shift(s, t, d, lo, hi, c, i + 1, j);
        }
    }
}

pub proof fn lemma_subrange_shift(s: Seq<char>, t: Seq<char>, d: int, lo: int, hi: int, x: int, y: int)
    requires
        agree(s, t, d, lo, hi),
        lo <= x <= y <= hi,
    ensures
        s.subrange(x + d, y + d) == t.subrange(x, y),
{
    assert forall|k: int| 0 <= k < y - x implies #[trigger] s.subrange(x + d, y + d)[k] == t.subrange(x, y)[k] by {
        lemma_agree_at(s, t, d, lo, hi, x + k);
    }
    assert(s.subrange(x + d, y + d) =~= t.subrange(x, y));
}

pub proof fn lemma_starts_with_shift(s: Seq<char>, t: Seq<char>, d: int, lo: int, hi: int, x: int, y: int, pat: Seq<char>)
    requires
        agree(s, t, d, lo, hi),
        lo <= x <= y <= hi,
    ensures
        starts_with(s, x + d, y + d, pat) == starts_with(t, x, y, pat),
{
    if x + pat.len() <= y {
        lemma_subrange_shift(s, t, d, lo, hi, x, x + pat.len());
    }
}

pub proof fn lemma_lines_shift(s: Seq<char>, t: Seq<char>, d: int, lo: int, hi: int, start: int, i: int, j: int)
    requires
        agree(s, t, d, lo, hi),
        lo <= start <= i <= j <= hi,
    ensures
        lines_from(s, start + d, i + d, j + d) == shift_spans(lines_from(t, start, i, j), d),
    decreases j - i,
{
    if i >= j {
        if start < j {
            assert(shift_spans(seq![(start, j)], d) =~= seq![(start + d, j + d)]);
        } else {
            assert(shift_spans(Seq::<(int, int)>::empty(), d) =~= Seq::<(int, int)>::empty());
        }
    } else {
        lemma_agree_at(s, t, d, lo, hi, i);
        if t[i] == '\n' {
            if start < i {
                lemma_agree_at(s, t, d, lo, hi, i - 1);
            }
            lemma_lines_shift(s, t, d, lo, hi, i + 1, i + 1, j);
            lemma_shift_cons((start, strip_cr(t, start, i)), lines_from(t, i + 1, i + 1, j), d);
        } else {
            lemma_lines_shift(s, t, d, lo, hi, start, i + 1, j);
        }
    }
}

pub proof fn lemma_words_shift(s: Seq<char>, t: Seq<char>, d: int, lo: int, hi: int, in_word: bool, start: int, i: int, j: int)
    requires
        agree(s, t, d, lo, hi),
        lo <= start <= i <= j <= hi,
    ensures
        words_from(s, in_word, start + d, i + d, j + d) == shift_spans(words_from(t, in_word, start, i, j), d),
    decreases j - i,
{
    if i >= j {
        if in_word {
            assert(shift_spans(seq![(start, j)], d) =~= seq![(start + d, j + d)]);
        } else {
            assert(shift_spans(Seq::<(int, int)>::empty(), d) =~= Seq::<(int, int)>::empty());
        }
    } else {
        lemma_agree_at(s, t, d, lo, hi, i);
        if is_ws(t[i]) {
            lemma_words_shift(s, t, d, lo, hi, false, i + 1, i + 1, j);
            if in_word {
                lemma_shift_cons((start, i), words_from(t, false, i + 1, i + 1, j), d);
            }
        } else if in_word {
            lemma_words_shift(s, t, d, lo, hi, true, start, i + 1, j);
        } else {
            lemma_words_shift(s, t, d, lo, hi, true, i, i + 1, j);
        }
    }
}

pub proof fn lemma_digits_shift(s: Seq<char>, t: Seq<char>, d: int, lo: int, hi: int, x: int, y: int)
    requires
        agree(s, t, d, lo, hi),
        lo <= x <= y <= hi,
    ensures
        digits_value(s, x + d, y + d) == digits_value(t, x, y),
        all_digits(s, x + d, y + d) == all_digits(t, x, y),
    decreases y - x,
{
    if x < y {
        lemma_digits_shift(s, t, d, lo, hi, x, y - 1);
        lemma_agree_at(s, t, d, lo, hi, y - 1);
    }
    if all_digits(t, x, y) {
        assert forall|k: int| x + d <= k < y + d implies is_digit(#[trigger] s[k]) by {
            lemma_agree_at(s, t, d, lo, hi, k - d);
            assert(is_digit(t[k - d]));
        }
    }
    if all_digits(s, x + d, y + d) {
        assert forall|k: int| x <= k < y implies is_digit(#[trigger] t[k]) by {
            lemma_agree_at(s, t, d, lo, hi, k);
            assert(is_digit(s[k + d]));
        }
    }
}

pub proof fn lemma_parse_u64_shift(s: Seq<char>, t: Seq<char>, d: int, lo: int, hi: int, x: int, y: int)
    requires
        agree(s, t, d, lo, hi),
        lo <= x <= y <= hi,
    ensures
        parse_u64(s, x + d, y + d) == parse_u64(t, x, y),
{
    if x < y {
        lemma_agree_at(s, t, d, lo, hi, x);
    }
    let e = if x < y && t[x] == '+' { x + 1 } else { x };
    lemma_digits_shift(s, t, d, lo, hi, e, y);
}

pub proof fn lemma_split_unless_after_shift(
    s: Seq<char>,
    t: Seq<char>,
    d: int,
    pat: Seq<char>,
    ex: Seq<char>,
    start: int,
    i: int,
)
    requires
        agree(s, t, d, 0, t.len() as int),
        0 <= d,
        ex.len() <= start <= i,
    ensures
        split_unless_after_from(s, pat, ex, start + d, i + d, t.len() + d)
            == shift_spans(split_unless_after_from(t, pat, ex, start, i, t.len() as int), d),
    decreases t.len() - i + 1,
{
    let m = t.len() as int;
    if pat.len() == 0 || i + pat.len() > m {
        assert(shift_spans(seq![(start, m)], d) =~= seq![(start + d, m + d)]);
    } else {
        lemma_subrange_shift(s, t, d, 0, m, i - ex.len(), i);
        assert(preceded_by(s, ex, i + d) == preceded_by(t, ex, i));
        lemma_subrange_shift(s, t, d, 0, m, i, i + pat.len());
        assert(occurs_at(s, pat, i + d, m + d) == occurs_at(t, pat, i, m));
        if !preceded_by(t, ex, i) && occurs_at(t, pat, i, m) {
            lemma_split_unless_after_shift(s, t, d, pat, ex, i + pat.len(), i + pat.len());
            lemma_shift_cons(
                (start, i),
                split_unless_after_from(t, pat, ex, i + pat.len(), i + pat.len(), m),
                d,
            );
        } else {
            lemma_split_unless_after_shift(s, t, d, pat, ex, start, i + 1);
        }
    }
}

/// Splitting `a + b`, where `a` ends a line and `b` begins with the pattern, splits `a`, then
/// goes on after the pattern at the start of `b`, provided neither the pattern nor `ex`
/// holds a newline.
pub proof fn lemma_split_unless_after_prefix(
    a: Seq<char>,
    b: Seq<char>,
    pat: Seq<char>,
    ex: Seq<char>,
    start: int,
    i: int,
)
    requires
        a.len() > 0,
        a.last() == '\n',
        pat.len() > 0,
        ex.len() > 0,
        forall|k: int| 0 <= k < pat.len() ==> pat[k] != '\n',
        forall|k: int| 0 <= k < ex.len() ==> ex[k] != '\n',
        starts_with(b, 0, b.len() as int, pat),
        0 <= start <= i <= a.len(),
    ensures
        split_unless_after_from(a + b, pat, ex, start, i, (a.len() + b.len()) as int)
            == split_unless_after_from(a, pat, ex, start, i, a.len() as int) + split_unless_after_from(
                a + b,
                pat,
                ex,
                (a.len() + pat.len()) as int,
                (a.len() + pat.len()) as int,
                (a.len() + b.len()) as int,
            ),
    decreases a.len() - i,
{
    let s = a + b;
    let n = a.len() as int;
    let hi = (a.len() + b.len()) as int;
    let tail = split_unless_after_from(s, pat, ex, n + pat.len(), n + pat.len(), hi);
    if i + pat.len() > n {
        if i == n {
            assert(s[n - 1] == '\n');
            if ex.len() <= n {
                assert(s.subrange(n - ex.len(), n)[ex.len() - 1] == s[n - 1]);
                assert(ex[ex.len() - 1] != '\n');
            }
            assert(!preceded_by(s, ex, n));
            assert(s.subrange(n, n + pat.len()) =~= b.subrange(0, pat.len() as int));
            assert(occurs_at(s, pat, n, hi));
            assert(split_unless_after_from(s, pat, ex, start, n, hi) == seq![(start, n)] + tail);
        } else {
            assert(s.subrange(i, i + pat.len())[n - 1 - i] == s[n - 1]);
            assert(s[n - 1] == a[n - 1]);
            assert(pat[n - 1 - i] != '\n');
            assert(!occurs_at(s, pat, i, hi));
            lemma_split_unless_after_prefix(a, b, pat, ex, start, i + 1);
        }
    } else {
        if ex.len() <= i {
            assert(s.subrange(i - ex.len(), i) =~= a.subrange(i - ex.len(), i));
        }
        assert(preceded_by(s, ex, i) == preceded_by(a, ex, i));
        assert(s.subrange(i, i + pat.len()) =~= a.subrange(i, i + pat.len()));
        assert(occurs_at(s, pat, i, hi) == occurs_at(a, pat, i, n));
        if !preceded_by(a, ex, i) && occurs_at(a, pat, i, n) {
            lemma_split_unless_after_prefix(a, b, pat, ex, i + pat.len(), i + pat.len());
            let ra = split_unless_after_from(a, pat, ex, i + pat.len(), i + pat.len(), n);
            assert(seq![(start, i)] + (ra + tail) =~= (seq![(start, i)] + ra) + tail);
        } else {
            lemma_split_unless_after_prefix(a, b, pat, ex, start, i + 1);
        }
    }
}

/// Once no occurrence of `pat` remains from `i` on, the rest of `s[..hi]` is one piece.
pub proof fn lemma_split_rest_whole(s: Seq<char>, pat: Seq<char>, ex: Seq<char>, start: int, i: int, hi: int)
    requires
        pat.len() > 0,
        forall|j: int| i <= j && j + pat.len() <= hi ==> !#[trigger] occurs_at(s, pat, j, hi),
    ensures
        split_unless_after_from(s, pat, ex, start, i, hi) == seq![(start, hi)],
    decreases hi - i + 1,
{
    if i + pat.len() <= hi {
        assert(!occurs_at(s, pat, i, hi));
        lemma_split_rest_whole(s, pat, ex, start, i + 1, hi);
    }
}

/// The line that runs from `start` up to the newline at `k`, then the lines after it.
pub proof fn lemma_lines_to_newline(s: Seq<char>, start: int, i: int, k: int, hi: int)
    requires
        i <= k < hi,
        forall|j: int| i <= j < k ==> #[trigger] s[j] != '\n',
        s[k] == '\n',
    ensures
        lines_from(s, start, i, hi) == seq![(start, strip_cr(s, start, k))] + lines_from(s, k + 1, k + 1, hi),
    decreases k - i,
{
    if i < k {
        lemma_lines_to_newline(s, start, i + 1, k, hi);
    }
}

proof fn lemma_word_run(s: Seq<char>, start: int, i: int, k: int, hi: int)
    requires
        start < i <= k <= hi,
        forall|j: int| i <= j < k ==> !is_ws(#[trigger] s[j]),
        k == hi || is_ws(s[k]),
    ensures
        words_from(s, true, start, i, hi) == seq![(start, k)] + (if k < hi {
            words_from(s, false, k + 1, k + 1, hi)
        } else {
            Seq::empty()
        }),
    decreases k - i,
{
    if i < k {
        lemma_word_run(s, start, i + 1, k, hi);
    } else if k == hi {
        assert(seq![(start, k)] + Seq::<(int, int)>::empty() =~= seq![(start, k)]);
    }
}

/// The word that starts at `i` and runs up to the whitespace at `k` (or the end), then
/// the words after it.
pub proof fn lemma_word_at(s: Seq<char>, i: int, k: int, hi: int)
    requires
        i < k <= hi,
        forall|j: int| i <= j < k ==> !is_ws(#[trigger] s[j]),
        k == hi || is_ws(s[k]),
    ensures
        words_from(s, false, i, i, hi) == seq![(i, k)] + (if k < hi {
            words_from(s, false, k + 1, k + 1, hi)
        } else {
            Seq::empty()
        }),
{
    assert(!is_ws(s[i]));
    lemma_word_run(s, i, i + 1, k, hi);
}

/// A character that does not occur in `s[i..hi]` is found at `hi`.
pub proof fn lemma_find_char_absent(s: Seq<char>, c: char, i: int, hi: int)
    requires
        i <= hi,
        forall|j: int| i <= j < hi ==> #[trigger] s[j] != c,
    ensures
        find_char(s, c, i, hi) == hi,
    decreases hi - i,
{
    if i < hi {
        lemma_find_char_absent(s, c, i + 1, hi);
    }
}

/// A character found first at `k` in `s[i..hi]` is what `find_char` finds.
pub proof fn lemma_find_char_at(s: Seq<char>, c: char, i: int, k: int, hi: int)
    requires
        i <= k < hi,
        forall|j: int| i <= j < k ==> #[trigger] s[j] != c,
        s[k] == c,
    ensures
        find_char(s, c, i, hi) == k,
    decreases k - i,
{
    if i < k {
        lemma_find_char_at(s, c, i + 1, k, hi);
    }
}

/// The first occurrence of `pat` from `i` on, at `k`, is what `find_in` finds.
pub proof fn lemma_find_in_first(s: Seq<char>, pat: Seq<char>, i: int, k: int, hi: int)
    requires
        i <= k,
        forall|j: int| i <= j < k ==> !#[trigger] occurs_at(s, pat, j, hi),
        occurs_at(s, pat, k, hi),
    ensures
        find_in(s, pat, i, hi) == Some(k),
    decreases k - i,
{
    if i < k {
        assert(!occurs_at(s, pat, i, hi));
        lemma_find_in_first(s, pat, i + 1, k, hi);
    }
}

/// The last occurrence of `pat` that starts at or before `k`, at `o`, is what `rfind_from`
/// finds.
pub proof fn lemma_rfind_from_last(s: Seq<char>, pat: Seq<char>, lo: int, k: int, o: int, hi: int)
    requires
        lo <= o <= k,
        forall|j: int| o < j <= k ==> !#[trigger] occurs_at(s, pat, j, hi),
        occurs_at(s, pat, o, hi),
    ensures
        rfind_from(s, pat, lo, k, hi) == Some(o),
    decreases k - o,
{
    if o < k {
        assert(!occurs_at(s, pat, k, hi));
        lemma_rfind_from_last(s, pat, lo, k - 1, o, hi);
    }
}

/// With no occurrence of `pat` in `s[i..hi]`, nothing is found.
pub proof fn lemma_find_in_none(s: Seq<char>, pat: Seq<char>, i: int, hi: int)
    requires
        forall|j: int| i <= j && j + pat.len() <= hi ==> !#[trigger] occurs_at(s, pat, j, hi),
    ensures
        find_in(s, pat, i, hi) is None,
    decreases hi - i + 1,
{
    if i + pat.len() <= hi {
        assert(!occurs_at(s, pat, i, hi));
        lemma_find_in_none(s, pat, i + 1, hi);
    }
}

} // verus!

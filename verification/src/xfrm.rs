//! Traffic counters of the kernel's IPsec security associations, read from the text
//! that `ip -s xfrm state` prints.

use vstd::prelude::*;
use crate::text::{
    preceded_by, lemma_split_unless_after_prefix, lemma_split_unless_after_shift, occurs_at,
    agree, lemma_digits_shift, all_digits, is_digit, is_ws, skip_ws_back, digits_value, lemma_find_char_shift, lemma_lines_shift, lemma_parse_u64_shift, lemma_starts_with_shift,
    lemma_subrange_shift, lemma_trim_shift, lemma_words_shift, shift_spans,
    chars_of, contains, find_char, lemma_find_in_finds, lemma_lines_within,
    lemma_skip_ws_back_bounds, lemma_skip_ws_bounds, lemma_spans_push, lemma_split_unless_after_within,
    lemma_words_within, lemma_split_rest_whole, lemma_lines_to_newline, lemma_word_at,
    lemma_find_char_absent, lemma_find_char_at, lines, lines_from, parse_u64, parse_u64_span, skip_ws, span_eq,
    span_find_char, span_starts_with, spans, spans_within, split_unless_after_from, split_unless_after, starts_with,
    trim_range, trim_span, words, words_from,
};

verus! {

/// Text that begins each security association in the listing.
pub open spec fn sa_separator() -> Seq<char> {
    "src "@
}

/// Text before a `src ` that does not begin an association: the selector line
/// `sel src ... dst ...` inside one.
pub open spec fn selector_prefix() -> Seq<char> {
    "sel "@
}

/// Marker of the counters line.
pub open spec fn lifetime_tag() -> Seq<char> {
    "lifetime current:"@
}

/// The trimmed lines of the span `s[lo..hi]`.
pub open spec fn trimmed_lines(s: Seq<char>, lo: int, hi: int) -> Seq<(int, int)> {
    lines_from(s, lo, lo, hi).map_values(|l: (int, int)| trim_span(s, l.0, l.1))
}

/// The count that the span `s[lo..hi]` begins with, as in `1540(bytes)`: the number before
/// the first `(` (or before the end), trimmed.
pub open spec fn count_before_paren(s: Seq<char>, lo: int, hi: int) -> Option<u64> {
    let n = trim_span(s, lo, find_char(s, '(', lo, hi));
    parse_u64(s, n.0, n.1)
}

/// The byte count that the line `s[lo..hi]` after an empty `lifetime current:` gives: the
/// number before `(bytes)`, as `ip -s xfrm state` prints it (`1540(bytes), 15(packets)`),
/// or else the first word when the second begins with `bytes` (`1540 bytes, ...`).
pub open spec fn next_line_count(s: Seq<char>, lo: int, hi: int) -> Option<u64> {
    let p = find_char(s, '(', lo, hi);
    let by_paren = if starts_with(s, p, hi, "(bytes)"@) {
        count_before_paren(s, lo, hi)
    } else {
        None
    };
    match by_paren {
        Some(v) => Some(v),
        None => {
            let w = words_from(s, false, lo, lo, hi);
            if w.len() >= 2 && starts_with(s, w[1].0, w[1].1, "bytes"@) {
                parse_u64(s, w[0].0, w[0].1)
            } else {
                None
            }
        },
    }
}

/// The byte count that line `i` of an association contributes. On a `lifetime current:`
/// line it is the count after the marker, as in `lifetime current: 1540(bytes), ...`; when
/// that is missing, the next line gives it (`next_line_count`). Other lines contribute
/// nothing.
pub open spec fn line_bytes(s: Seq<char>, lines: Seq<(int, int)>, i: int) -> int {
    let l = lines[i];
    if !starts_with(s, l.0, l.1, lifetime_tag()) {
        0
    } else {
        let c = trim_span(s, l.0 + lifetime_tag().len(), l.1);
        let same_line = if c.0 < c.1 {
            count_before_paren(s, c.0, c.1)
        } else {
            None
        };
        match same_line {
            Some(v) => v as int,
            None => if i + 1 < lines.len() {
                match next_line_count(s, lines[i + 1].0, lines[i + 1].1) {
                    Some(v) => v as int,
                    None => 0,
                }
            } else {
                0
            },
        }
    }
}

/// Sum of the byte counts of the first `n` lines.
pub open spec fn lines_bytes(s: Seq<char>, lines: Seq<(int, int)>, n: int) -> int
    decreases n,
{
    if n <= 0 {
        0
    } else {
        lines_bytes(s, lines, n - 1) + line_bytes(s, lines, n - 1)
    }
}

/// `(sent, received)` bytes of the association in `s[sa.0..sa.1]`: its first line reads
/// `<src> dst <dst> ...`; it counts as sent when `dst` is the gateway, as received when
/// only `src` is, and not at all otherwise.
pub open spec fn sa_traffic(s: Seq<char>, gw: Seq<char>, sa: (int, int)) -> (int, int) {
    let ls = trimmed_lines(s, sa.0, sa.1);
    if sa.0 == sa.1 || ls.len() == 0 {
        (0, 0)
    } else {
        let f = ls[0];
        let parts = words_from(s, false, f.0, f.0, f.1);
        if parts.len() < 3 || s.subrange(parts[1].0, parts[1].1) != "dst"@ {
            (0, 0)
        } else {
            let b = lines_bytes(s, ls, ls.len() as int);
            if s.subrange(parts[2].0, parts[2].1) == gw {
                (b, 0)
            } else if s.subrange(parts[0].0, parts[0].1) == gw {
                (0, b)
            } else {
                (0, 0)
            }
        }
    }
}

/// Traffic of the first `k` associations.
pub open spec fn traffic_upto(s: Seq<char>, gw: Seq<char>, sas: Seq<(int, int)>, k: int) -> (int, int)
    decreases k,
{
    if k <= 0 {
        (0, 0)
    } else {
        let p = traffic_upto(s, gw, sas, k - 1);
        let t = sa_traffic(s, gw, sas[k - 1]);
        (p.0 + t.0, p.1 + t.1)
    }
}

/// `(bytes sent, bytes received)` through the gateway `gw`, summed over every
/// association of the listing `output`; each association begins after a `src ` that is
/// not the `src ` of a `sel src ` selector.
pub open spec fn xfrm_traffic(output: Seq<char>, gw: Seq<char>) -> (int, int) {
    let sas = split_unless_after_from(output, sa_separator(), selector_prefix(), 0, 0, output.len() as int);
    traffic_upto(output, gw, sas, sas.len() as int)
}

/// Whether both totals of the listing fit in a `u64`.
pub open spec fn xfrm_traffic_fits(output: Seq<char>, gw: Seq<char>) -> bool {
    xfrm_traffic(output, gw).0 <= u64::MAX && xfrm_traffic(output, gw).1 <= u64::MAX
}

proof fn lemma_lines_bytes_mono(s: Seq<char>, lines: Seq<(int, int)>, i: int, n: int)
    requires
        0 <= i <= n,
    ensures
        0 <= lines_bytes(s, lines, i) <= lines_bytes(s, lines, n),
    decreases n,
{
    if i < n {
        lemma_lines_bytes_mono(s, lines, i, n - 1);
        lemma_line_bytes_nonneg(s, lines, n - 1);
    } else if n > 0 {
        lemma_lines_bytes_mono(s, lines, n - 1, n - 1);
        lemma_line_bytes_nonneg(s, lines, n - 1);
    }
}

proof fn lemma_line_bytes_nonneg(s: Seq<char>, lines: Seq<(int, int)>, i: int)
    ensures
        0 <= line_bytes(s, lines, i),
{
}

proof fn lemma_traffic_mono(s: Seq<char>, gw: Seq<char>, sas: Seq<(int, int)>, k: int, n: int)
    requires
        0 <= k <= n,
    ensures
        0 <= traffic_upto(s, gw, sas, k).0 <= traffic_upto(s, gw, sas, n).0,
        0 <= traffic_upto(s, gw, sas, k).1 <= traffic_upto(s, gw, sas, n).1,
    decreases n,
{
    if n > 0 {
        if k < n {
            lemma_traffic_mono(s, gw, sas, k, n - 1);
        } else {
            lemma_traffic_mono(s, gw, sas, n - 1, n - 1);
        }
        lemma_sa_traffic_nonneg(s, gw, sas[n - 1]);
    }
}

proof fn lemma_sa_traffic_nonneg(s: Seq<char>, gw: Seq<char>, sa: (int, int))
    ensures
        0 <= sa_traffic(s, gw, sa).0,
        0 <= sa_traffic(s, gw, sa).1,
{
    let ls = trimmed_lines(s, sa.0, sa.1);
    lemma_lines_bytes_mono(s, ls, 0, ls.len() as int);
}

/// The character sequences of the fixed words that the listing is read by.
struct XfrmWords {
    separator: Vec<char>,
    selector: Vec<char>,
    dst: Vec<char>,
    lifetime: Vec<char>,
    bytes: Vec<char>,
    paren_bytes: Vec<char>,
}

impl XfrmWords {
    spec fn wf(&self) -> bool {
        &&& self.separator@ == sa_separator()
        &&& self.selector@ == selector_prefix()
        &&& self.dst@ == "dst"@
        &&& self.lifetime@ == lifetime_tag()
        &&& self.bytes@ == "bytes"@
        &&& self.paren_bytes@ == "(bytes)"@
    }

    fn new() -> (w: XfrmWords)
        ensures
            w.wf(),
    {
        XfrmWords {
            separator: chars_of("src "),
            selector: chars_of("sel "),
            dst: chars_of("dst"),
            lifetime: chars_of("lifetime current:"),
            bytes: chars_of("bytes"),
            paren_bytes: chars_of("(bytes)"),
        }
    }
}

/// The byte count that the line `s[lo..hi]` gives after an empty `lifetime current:`.
fn next_line_count_of(s: &Vec<char>, lo: usize, hi: usize, w: &XfrmWords) -> (r: Option<u64>)
    requires
        w.wf(),
        lo <= hi <= s@.len(),
    ensures
        r == next_line_count(s@, lo as int, hi as int),
{
    let p = span_find_char(s, lo, hi, '(');
    if span_starts_with(s, p, hi, &w.paren_bytes) {
        let (na, nb) = trim_range(s, lo, p);
        match parse_u64_span(s, na, nb) {
            Some(v) => {
                return Some(v);
            },
            None => {},
        }
    }
    let ws = words(s, lo, hi);
    if ws.len() >= 2 {
        let (w1a, w1b) = ws[1];
        let (w0a, w0b) = ws[0];
        assert(spans(ws@)[1] == (w1a as int, w1b as int));
        assert(spans(ws@)[0] == (w0a as int, w0b as int));
        if span_starts_with(s, w1a, w1b, &w.bytes) {
            parse_u64_span(s, w0a, w0b)
        } else {
            None
        }
    } else {
        None
    }
}

/// Byte count contributed by line `i` of `lines`.
fn line_bytes_of(s: &Vec<char>, lines: &Vec<(usize, usize)>, i: usize, w: &XfrmWords) -> (r: u64)
    requires
        w.wf(),
        i < lines@.len(),
        spans_within(spans(lines@), 0, s@.len() as int),
    ensures
        r as int == line_bytes(s@, spans(lines@), i as int),
{
    let (lo, hi) = lines[i];
    assert(spans(lines@)[i as int] == (lo as int, hi as int));
    if !span_starts_with(s, lo, hi, &w.lifetime) {
        return 0;
    }
    let (a, b) = trim_range(s, lo + w.lifetime.len(), hi);
    let same_line = if a < b {
        let p = span_find_char(s, a, b, '(');
        let (na, nb) = trim_range(s, a, p);
        parse_u64_span(s, na, nb)
    } else {
        None
    };
    match same_line {
        Some(v) => v,
        None => {
            if i < lines.len() - 1 {
                let (nlo, nhi) = lines[i + 1];
                assert(spans(lines@)[i + 1] == (nlo as int, nhi as int));
                match next_line_count_of(s, nlo, nhi, w) {
                    Some(v) => v,
                    None => 0,
                }
            } else {
                0
            }
        },
    }
}

/// Traffic of the association in `s[lo..hi]`, or `None` when its byte count does not fit
/// in a `u64`.
fn sa_traffic_of(s: &Vec<char>, gw: &Vec<char>, lo: usize, hi: usize, w: &XfrmWords) -> (r: Option<(u64, u64)>)
    requires
        w.wf(),
        lo <= hi <= s@.len(),
    ensures
        match r {
            Some(p) => p.0 as int == sa_traffic(s@, gw@, (lo as int, hi as int)).0
                && p.1 as int == sa_traffic(s@, gw@, (lo as int, hi as int)).1,
            None => sa_traffic(s@, gw@, (lo as int, hi as int)).0 > u64::MAX
                || sa_traffic(s@, gw@, (lo as int, hi as int)).1 > u64::MAX,
        },
{
    if lo == hi {
        return Some((0, 0));
    }
    let raw = lines(s, lo, hi);
    let ghost tl = trimmed_lines(s@, lo as int, hi as int);
    let mut ls: Vec<(usize, usize)> = Vec::new();
    let mut i: usize = 0;
    while i < raw.len()
        invariant
            lo <= hi <= s@.len(),
            spans(raw@) == lines_from(s@, lo as int, lo as int, hi as int),
            spans_within(spans(raw@), lo as int, hi as int),
            tl == trimmed_lines(s@, lo as int, hi as int),
            i <= raw@.len(),
            ls@.len() == i,
            forall|k: int| 0 <= k < i ==> #[trigger] spans(ls@)[k] == tl[k],
            spans_within(spans(ls@), lo as int, hi as int),
        decreases raw@.len() - i,
    {
        let (a, b) = raw[i];
        assert(spans(raw@)[i as int] == (a as int, b as int));
        let t = trim_range(s, a, b);
        proof {
            lemma_spans_push(ls@, t);
        }
        ls.push(t);
        assert(spans(ls@)[i as int] == tl[i as int]);
        i = i + 1;
    }
    assert(spans(ls@) =~= tl);
    if ls.len() == 0 {
        return Some((0, 0));
    }
    let (fa, fb) = ls[0];
    assert(spans(ls@)[0] == (fa as int, fb as int));
    let parts = words(s, fa, fb);
    if parts.len() < 3 {
        return Some((0, 0));
    }
    let (p0a, p0b) = parts[0];
    let (p1a, p1b) = parts[1];
    let (p2a, p2b) = parts[2];
    assert(spans(parts@)[0] == (p0a as int, p0b as int));
    assert(spans(parts@)[1] == (p1a as int, p1b as int));
    assert(spans(parts@)[2] == (p2a as int, p2b as int));
    if !span_eq(s, p1a, p1b, &w.dst) {
        return Some((0, 0));
    }
    let outbound = span_eq(s, p2a, p2b, gw);
    let inbound = span_eq(s, p0a, p0b, gw);
    if !outbound && !inbound {
        return Some((0, 0));
    }
    let ghost sl = spans(ls@);
    let ghost whole = lines_bytes(s@, sl, sl.len() as int);
    assert(sa_traffic(s@, gw@, (lo as int, hi as int)) == (if outbound {
        (whole, 0int)
    } else {
        (0int, whole)
    }));
    let mut total: u64 = 0;
    let mut j: usize = 0;
    while j < ls.len()
        invariant
            w.wf(),
            whole == lines_bytes(s@, sl, sl.len() as int),
            sa_traffic(s@, gw@, (lo as int, hi as int)) == (if outbound {
                (whole, 0int)
            } else {
                (0int, whole)
            }),
            sl == spans(ls@),
            spans_within(sl, 0, s@.len() as int),
            j <= ls@.len(),
            total as int == lines_bytes(s@, sl, j as int),
        decreases ls@.len() - j,
    {
        let lb = line_bytes_of(s, &ls, j, w);
        match total.checked_add(lb) {
            Some(t) => {
                total = t;
            },
            None => {
                proof {
                    lemma_lines_bytes_mono(s@, sl, (j + 1) as int, sl.len() as int);
                }
                return None;
            },
        }
        j = j + 1;
    }
    if outbound {
        Some((total, 0))
    } else {
        Some((0, total))
    }
}

/// Bytes sent to and received from the gateway `gateway_ip` by the associations of the
/// listing `output`, or `None` when a total does not fit in a `u64`.
pub fn try_parse_xfrm_stats(output: &str, gateway_ip: &str) -> (r: Option<(u64, u64)>)
    ensures
        r is Some <==> xfrm_traffic_fits(output@, gateway_ip@),
        r matches Some(p) ==> p.0 as int == xfrm_traffic(output@, gateway_ip@).0
            && p.1 as int == xfrm_traffic(output@, gateway_ip@).1,
{
    let s = chars_of(output);
    let gw = chars_of(gateway_ip);
    let w = XfrmWords::new();
    let sas = split_unless_after(&s, &w.separator, &w.selector);
    let ghost ss = spans(sas@);
    let ghost n = ss.len() as int;
    let mut sent: u64 = 0;
    let mut received: u64 = 0;
    let mut k: usize = 0;
    while k < sas.len()
        invariant
            w.wf(),
            s@ == output@,
            gw@ == gateway_ip@,
            ss == spans(sas@),
            ss == split_unless_after_from(s@, sa_separator(), selector_prefix(), 0, 0, s@.len() as int),
            n == ss.len(),
            spans_within(ss, 0, s@.len() as int),
            k <= sas@.len(),
            sent as int == traffic_upto(s@, gw@, ss, k as int).0,
            received as int == traffic_upto(s@, gw@, ss, k as int).1,
        decreases sas@.len() - k,
    {
        let (a, b) = sas[k];
        assert(ss[k as int] == (a as int, b as int));
        match sa_traffic_of(&s, &gw, a, b, &w) {
            Some((x, y)) => {
                match (sent.checked_add(x), received.checked_add(y)) {
                    (Some(u), Some(v)) => {
                        sent = u;
                        received = v;
                    },
                    _ => {
                        proof {
                            lemma_traffic_mono(s@, gw@, ss, (k + 1) as int, n);
                        }
                        return None;
                    },
                }
            },
            None => {
                proof {
                    lemma_traffic_mono(s@, gw@, ss, k as int, n);
                    lemma_traffic_mono(s@, gw@, ss, (k + 1) as int, n);
                }
                return None;
            },
        }
        k = k + 1;
    }
    Some((sent, received))
}

/// Bytes sent to and received from the gateway `gateway_ip` by the associations of the
/// listing `output`, as `(sent, received)`.
pub fn parse_xfrm_stats(output: &str, gateway_ip: &str) -> (r: (u64, u64))
    requires
        xfrm_traffic_fits(output@, gateway_ip@),
    ensures
        r.0 as int == xfrm_traffic(output@, gateway_ip@).0,
        r.1 as int == xfrm_traffic(output@, gateway_ip@).1,
{
    match try_parse_xfrm_stats(output, gateway_ip) {
        Some(p) => p,
        None => (0, 0),
    }
}

proof fn lemma_sa_without_gateway(s: Seq<char>, gw: Seq<char>, sa: (int, int))
    requires
        0 <= sa.0 <= sa.1 <= s.len(),
        !contains(s, 0, s.len() as int, gw),
    ensures
        sa_traffic(s, gw, sa) == (0int, 0int),
{
    let ls = trimmed_lines(s, sa.0, sa.1);
    if sa.0 != sa.1 && ls.len() > 0 {
        let raw = lines_from(s, sa.0, sa.0, sa.1);
        lemma_lines_within(s, sa.0, sa.0, sa.1);
        assert(sa.0 <= raw[0].0 <= raw[0].1 <= sa.1);
        let f = ls[0];
        lemma_skip_ws_bounds(s, raw[0].0, raw[0].1);
        lemma_skip_ws_back_bounds(s, skip_ws(s, raw[0].0, raw[0].1), raw[0].1);
        assert(sa.0 <= f.0 <= f.1 <= sa.1);
        let parts = words_from(s, false, f.0, f.0, f.1);
        lemma_words_within(s, false, f.0, f.0, f.1);
        if parts.len() >= 3 {
            assert(f.0 <= parts[2].0 <= parts[2].1 <= f.1);
            assert(f.0 <= parts[0].0 <= parts[0].1 <= f.1);
            if s.subrange(parts[2].0, parts[2].1) == gw {
                lemma_find_in_finds(s, gw, 0, parts[2].0, s.len() as int);
            }
            if s.subrange(parts[0].0, parts[0].1) == gw {
                lemma_find_in_finds(s, gw, 0, parts[0].0, s.len() as int);
            }
        }
    }
}

proof fn lemma_traffic_without_gateway(s: Seq<char>, gw: Seq<char>, sas: Seq<(int, int)>, k: int)
    requires
        0 <= k <= sas.len(),
        spans_within(sas, 0, s.len() as int),
        !contains(s, 0, s.len() as int, gw),
    ensures
        traffic_upto(s, gw, sas, k) == (0int, 0int),
    decreases k,
{
    if k > 0 {
        lemma_traffic_without_gateway(s, gw, sas, k - 1);
        assert(0 <= sas[k - 1].0 <= sas[k - 1].1 <= s.len());
        lemma_sa_without_gateway(s, gw, sas[k - 1]);
    }
}

/// A listing in which the gateway's address does not occur shows no traffic: only the
/// associations whose source or destination is the gateway count.
pub proof fn lemma_no_gateway_no_traffic(output: Seq<char>, gw: Seq<char>)
    requires
        !contains(output, 0, output.len() as int, gw),
    ensures
        xfrm_traffic(output, gw) == (0int, 0int),
{
    let sas = split_unless_after_from(output, sa_separator(), selector_prefix(), 0, 0, output.len() as int);
    lemma_split_unless_after_within(output, sa_separator(), selector_prefix(), 0, 0, output.len() as int);
    lemma_traffic_without_gateway(output, gw, sas, sas.len() as int);
}

/// A listing without associations, the empty one among them, shows no traffic.
pub proof fn lemma_empty_listing_no_traffic(gw: Seq<char>)
    ensures
        xfrm_traffic(Seq::empty(), gw) == (0int, 0int),
{
    let s = Seq::<char>::empty();
    let sas = split_unless_after_from(s, sa_separator(), selector_prefix(), 0, 0, 0);
    lemma_split_unless_after_within(s, sa_separator(), selector_prefix(), 0, 0, 0);
    assert(sas.len() == 1);
    assert(sas[0] == (0int, 0int));
    assert(traffic_upto(s, gw, sas, 0) == (0int, 0int));
}

proof fn lemma_count_shift(s: Seq<char>, t: Seq<char>, d: int, lo: int, hi: int, x: int, y: int)
    requires
        agree(s, t, d, lo, hi),
        lo <= x <= y <= hi,
    ensures
        count_before_paren(s, x + d, y + d) == count_before_paren(t, x, y),
{
    lemma_find_char_shift(s, t, d, lo, hi, '(', x, y);
    let f = find_char(t, '(', x, y);
    lemma_trim_shift(s, t, d, lo, hi, x, f);
    let n = trim_span(t, x, f);
    lemma_parse_u64_shift(s, t, d, lo, hi, n.0, n.1);
}

proof fn lemma_next_line_count_shift(s: Seq<char>, t: Seq<char>, d: int, lo: int, hi: int, x: int, y: int)
    requires
        agree(s, t, d, lo, hi),
        lo <= x <= y <= hi,
    ensures
        next_line_count(s, x + d, y + d) == next_line_count(t, x, y),
{
    lemma_find_char_shift(s, t, d, lo, hi, '(', x, y);
    let p = find_char(t, '(', x, y);
    lemma_starts_with_shift(s, t, d, lo, hi, p, y, "(bytes)"@);
    lemma_count_shift(s, t, d, lo, hi, x, y);
    lemma_words_shift(s, t, d, lo, hi, false, x, x, y);
    let w = words_from(t, false, x, x, y);
    lemma_words_within(t, false, x, x, y);
    let ws = words_from(s, false, x + d, x + d, y + d);
    if w.len() >= 2 {
        assert(x <= w[1].0 <= w[1].1 <= y);
        assert(x <= w[0].0 <= w[0].1 <= y);
        assert(ws[1] == (w[1].0 + d, w[1].1 + d));
        assert(ws[0] == (w[0].0 + d, w[0].1 + d));
        lemma_starts_with_shift(s, t, d, lo, hi, w[1].0, w[1].1, "bytes"@);
        lemma_parse_u64_shift(s, t, d, lo, hi, w[0].0, w[0].1);
    }
}

proof fn lemma_line_bytes_shift(s: Seq<char>, t: Seq<char>, d: int, lo: int, hi: int, ls: Seq<(int, int)>, i: int)
    requires
        agree(s, t, d, lo, hi),
        spans_within(ls, lo, hi),
        0 <= i < ls.len(),
    ensures
        line_bytes(s, shift_spans(ls, d), i) == line_bytes(t, ls, i),
{
    let ss = shift_spans(ls, d);
    let l = ls[i];
    assert(lo <= l.0 <= l.1 <= hi);
    assert(ss[i] == (l.0 + d, l.1 + d));
    lemma_starts_with_shift(s, t, d, lo, hi, l.0, l.1, lifetime_tag());
    if starts_with(t, l.0, l.1, lifetime_tag()) {
        lemma_trim_shift(s, t, d, lo, hi, l.0 + lifetime_tag().len(), l.1);
        let c = trim_span(t, l.0 + lifetime_tag().len(), l.1);
        lemma_count_shift(s, t, d, lo, hi, c.0, c.1);
        if i + 1 < ls.len() {
            let nl = ls[i + 1];
            assert(lo <= nl.0 <= nl.1 <= hi);
            assert(ss[i + 1] == (nl.0 + d, nl.1 + d));
            lemma_next_line_count_shift(s, t, d, lo, hi, nl.0, nl.1);
        }
    }
}

proof fn lemma_lines_bytes_shift(s: Seq<char>, t: Seq<char>, d: int, lo: int, hi: int, ls: Seq<(int, int)>, n: int)
    requires
        agree(s, t, d, lo, hi),
        spans_within(ls, lo, hi),
        n <= ls.len(),
    ensures
        lines_bytes(s, shift_spans(ls, d), n) == lines_bytes(t, ls, n),
    decreases n,
{
    if n > 0 {
        lemma_lines_bytes_shift(s, t, d, lo, hi, ls, n - 1);
        lemma_line_bytes_shift(s, t, d, lo, hi, ls, n - 1);
    }
}

proof fn lemma_trimmed_lines_shift(s: Seq<char>, t: Seq<char>, d: int, lo: int, hi: int, x: int, y: int)
    requires
        agree(s, t, d, lo, hi),
        lo <= x <= y <= hi,
    ensures
        trimmed_lines(s, x + d, y + d) == shift_spans(trimmed_lines(t, x, y), d),
        spans_within(trimmed_lines(t, x, y), x, y),
{
    lemma_lines_shift(s, t, d, lo, hi, x, x, y);
    lemma_lines_within(t, x, x, y);
    let raw = lines_from(t, x, x, y);
    let tl = trimmed_lines(t, x, y);
    let sl = trimmed_lines(s, x + d, y + d);
    assert forall|k: int| 0 <= k < raw.len() implies #[trigger] sl[k] == shift_spans(tl, d)[k]
        && x <= tl[k].0 <= tl[k].1 <= y by {
        assert(x <= raw[k].0 <= raw[k].1 <= y);
        lemma_trim_shift(s, t, d, lo, hi, raw[k].0, raw[k].1);
    }
    assert(sl =~= shift_spans(tl, d));
    assert forall|k: int| 0 <= k < tl.len() implies x <= (#[trigger] tl[k]).0 <= tl[k].1 <= y by {
        assert(sl[k] == shift_spans(tl, d)[k]);
    }
}

proof fn lemma_sa_traffic_shift(s: Seq<char>, t: Seq<char>, g: Seq<char>, d: int, lo: int, hi: int, x: int, y: int)
    requires
        agree(s, t, d, lo, hi),
        lo <= x <= y <= hi,
    ensures
        sa_traffic(s, g, (x + d, y + d)) == sa_traffic(t, g, (x, y)),
{
    lemma_trimmed_lines_shift(s, t, d, lo, hi, x, y);
    let tl = trimmed_lines(t, x, y);
    let sl = trimmed_lines(s, x + d, y + d);
    if x != y && tl.len() > 0 {
        let f = tl[0];
        assert(x <= f.0 <= f.1 <= y);
        assert(sl[0] == (f.0 + d, f.1 + d));
        lemma_words_shift(s, t, d, lo, hi, false, f.0, f.0, f.1);
        lemma_words_within(t, false, f.0, f.0, f.1);
        let parts = words_from(t, false, f.0, f.0, f.1);
        let sparts = words_from(s, false, f.0 + d, f.0 + d, f.1 + d);
        if parts.len() >= 3 {
            assert(f.0 <= parts[0].0 <= parts[0].1 <= f.1);
            assert(f.0 <= parts[1].0 <= parts[1].1 <= f.1);
            assert(f.0 <= parts[2].0 <= parts[2].1 <= f.1);
            assert(sparts[0] == (parts[0].0 + d, parts[0].1 + d));
            assert(sparts[1] == (parts[1].0 + d, parts[1].1 + d));
            assert(sparts[2] == (parts[2].0 + d, parts[2].1 + d));
            lemma_subrange_shift(s, t, d, lo, hi, parts[0].0, parts[0].1);
            lemma_subrange_shift(s, t, d, lo, hi, parts[1].0, parts[1].1);
            lemma_subrange_shift(s, t, d, lo, hi, parts[2].0, parts[2].1);
            lemma_lines_bytes_shift(s, t, d, lo, hi, tl, tl.len() as int);
        }
    }
}

/// Componentwise sum of two `(sent, received)` pairs.
pub open spec fn plus(p: (int, int), q: (int, int)) -> (int, int) {
    (p.0 + q.0, p.1 + q.1)
}

proof fn lemma_traffic_prefix(s: Seq<char>, g: Seq<char>, v: Seq<(int, int)>, w: Seq<(int, int)>, k: int)
    requires
        0 <= k <= v.len(),
        k <= w.len(),
        forall|j: int| 0 <= j < k ==> v[j] == w[j],
    ensures
        traffic_upto(s, g, v, k) == traffic_upto(s, g, w, k),
    decreases k,
{
    if k > 0 {
        lemma_traffic_prefix(s, g, v, w, k - 1);
        assert(v[k - 1] == w[k - 1]);
    }
}

proof fn lemma_traffic_append(s: Seq<char>, g: Seq<char>, x: Seq<(int, int)>, y: Seq<(int, int)>, j: int)
    requires
        0 <= j <= y.len(),
    ensures
        traffic_upto(s, g, x + y, x.len() + j) == plus(traffic_upto(s, g, x, x.len() as int), traffic_upto(s, g, y, j)),
    decreases j,
{
    if j == 0 {
        lemma_traffic_prefix(s, g, x + y, x, x.len() as int);
    } else {
        lemma_traffic_append(s, g, x, y, j - 1);
        assert((x + y)[x.len() + j - 1] == y[j - 1]);
    }
}

proof fn lemma_traffic_shift(s: Seq<char>, t: Seq<char>, g: Seq<char>, d: int, lo: int, hi: int, v: Seq<(int, int)>, k: int)
    requires
        agree(s, t, d, lo, hi),
        spans_within(v, lo, hi),
        0 <= k <= v.len(),
    ensures
        traffic_upto(s, g, shift_spans(v, d), k) == traffic_upto(t, g, v, k),
    decreases k,
{
    if k > 0 {
        lemma_traffic_shift(s, t, g, d, lo, hi, v, k - 1);
        let sa = v[k - 1];
        assert(lo <= sa.0 <= sa.1 <= hi);
        assert(shift_spans(v, d)[k - 1] == (sa.0 + d, sa.1 + d));
        lemma_sa_traffic_shift(s, t, g, d, lo, hi, sa.0, sa.1);
    }
}

/// Reading two listings one after the other counts the sum of what each counts, when the
/// first ends a line and the second begins an association: the associations of `a + b`
/// are those of `a` and those of `b`, so their order does not matter.
pub proof fn lemma_listings_add(a: Seq<char>, b: Seq<char>, g: Seq<char>)
    requires
        a.len() == 0 || a.last() == '\n',
        b.len() == 0 || starts_with(b, 0, b.len() as int, sa_separator()),
    ensures
        xfrm_traffic(a + b, g) == plus(xfrm_traffic(a, g), xfrm_traffic(b, g)),
{
    reveal_strlit("src ");
    reveal_strlit("sel ");
    let sep = sa_separator();
    assert(sep.len() == 4);
    if b.len() == 0 {
        assert(a + b =~= a);
        lemma_empty_listing_no_traffic(g);
        assert(b =~= Seq::<char>::empty());
    } else if a.len() == 0 {
        assert(a + b =~= b);
        lemma_empty_listing_no_traffic(g);
        assert(a =~= Seq::<char>::empty());
    } else {
        let s = a + b;
        let n = a.len() as int;
        let m = b.len() as int;
        assert forall|k: int| 0 <= k < sep.len() implies sep[k] != '\n' by {}
        let ex = selector_prefix();
        assert(ex.len() == 4);
        assert forall|k: int| 0 <= k < ex.len() implies ex[k] != '\n' by {}
        lemma_split_unless_after_prefix(a, b, sep, ex, 0, 0);
        let la = split_unless_after_from(a, sep, ex, 0, 0, n);
        let tail = split_unless_after_from(s, sep, ex, n + 4, n + 4, n + m);
        let rb = split_unless_after_from(b, sep, ex, 4, 4, m);
        // The blocks of `b` are an empty one, then `rb`
        assert(b.subrange(0, 4) == sep);
        assert(occurs_at(b, sep, 0, m));
        assert(!preceded_by(b, ex, 0));
        assert(split_unless_after_from(b, sep, ex, 0, 0, m) == seq![(0int, 0int)] + rb);
        // `s` reads as `b` from position `n` on, and as `a` before it
        assert(agree(s, b, n, 0, m));
        assert(agree(s, a, 0, 0, n));
        lemma_split_unless_after_shift(s, b, n, sep, ex, 4, 4);
        assert(tail == shift_spans(rb, n));
        lemma_split_unless_after_within(a, sep, ex, 0, 0, n);
        lemma_split_unless_after_within(b, sep, ex, 4, 4, m);
        lemma_traffic_append(s, g, la, tail, tail.len() as int);
        lemma_traffic_shift(s, a, g, 0, 0, n, la, la.len() as int);
        assert(shift_spans(la, 0) =~= la);
        lemma_traffic_shift(s, b, g, n, 0, m, rb, rb.len() as int);
        lemma_traffic_append(b, g, seq![(0int, 0int)], rb, rb.len() as int);
        let first = seq![(0int, 0int)];
        assert(first[0] == (0int, 0int));
        assert(sa_traffic(b, g, (0int, 0int)) == (0int, 0int));
        assert(traffic_upto(b, g, first, 0) == (0int, 0int));
        assert(traffic_upto(b, g, first, 1) == (0int, 0int));
    }
}

/// The character of the decimal digit `k`, for `0 <= k < 10`.
pub open spec fn digit_char(k: int) -> char {
    if k <= 0 {
        '0'
    } else if k == 1 {
        '1'
    } else if k == 2 {
        '2'
    } else if k == 3 {
        '3'
    } else if k == 4 {
        '4'
    } else if k == 5 {
        '5'
    } else if k == 6 {
        '6'
    } else if k == 7 {
        '7'
    } else if k == 8 {
        '8'
    } else {
        '9'
    }
}

proof fn lemma_digit_char(k: int)
    requires
        0 <= k < 10,
    ensures
        digit_char(k) as int - '0' as int == k,
        is_digit(digit_char(k)),
{
    assert('1' as int == '0' as int + 1);
    assert('9' as int == '0' as int + 9);
}

/// `n` written in decimal, as `u64::to_string` writes it.
pub open spec fn decimal(n: nat) -> Seq<char>
    decreases n,
{
    if n < 10 {
        seq![digit_char(n as int)]
    } else {
        decimal(n / 10).push(digit_char((n % 10) as int))
    }
}

proof fn lemma_decimal(n: nat)
    ensures
        decimal(n).len() >= 1,
        all_digits(decimal(n), 0, decimal(n).len() as int),
        digits_value(decimal(n), 0, decimal(n).len() as int) == n,
    decreases n,
{
    lemma_digit_char((n % 10) as int);
    if n < 10 {
        assert(digits_value(decimal(n), 0, 0) == 0);
    } else {
        lemma_decimal(n / 10);
        let t = decimal(n / 10);
        let s = decimal(n);
        assert(agree(s, t, 0, 0, t.len() as int));
        lemma_digits_shift(s, t, 0, 0, t.len() as int, 0, t.len() as int);
        assert(n == (n / 10) * 10 + n % 10);
    }
}

/// Whether `c` can stand in an address: a hexadecimal digit, `.` or `:`.
pub open spec fn is_address_char(c: char) -> bool {
    is_digit(c) || c == '.' || c == ':' || ('a' <= c <= 'f') || ('A' <= c <= 'F')
}

/// Whether `a` is a non-empty text of address characters, as an IPv4 or IPv6 address is.
pub open spec fn is_address(a: Seq<char>) -> bool {
    a.len() > 0 && forall|k: int| 0 <= k < a.len() ==> is_address_char(#[trigger] a[k])
}

/// The counters as `<bytes> bytes, <packets> packets`.
pub open spec fn counts_in_words(bytes: u64, packets: u64) -> Seq<char> {
    decimal(bytes as nat) + " bytes, "@ + decimal(packets as nat) + " packets"@
}

/// The counters as `ip -s xfrm state` prints them: `<bytes>(bytes), <packets>(packets)`.
pub open spec fn counts_in_parens(bytes: u64, packets: u64) -> Seq<char> {
    decimal(bytes as nat) + "(bytes), "@ + decimal(packets as nat) + "(packets)"@
}

/// One association as the listing shows it, its counters `counts` on the line after an
/// empty `lifetime current:`: `src <src> dst <dst>`, then `\tlifetime current:`, then
/// `\t  <counts>`.
#[verifier::opaque]
pub open spec fn listing_below(src: Seq<char>, dst: Seq<char>, counts: Seq<char>) -> Seq<char> {
    "src "@ + src + " dst "@ + dst + "\n\t"@ + lifetime_tag() + "\n\t  "@ + counts + "\n"@
}

/// One association as the listing shows it, its counters `counts` on the
/// `lifetime current:` line itself: `src <src> dst <dst>`, then
/// `\tlifetime current: <counts>`.
#[verifier::opaque]
pub open spec fn listing_inline(src: Seq<char>, dst: Seq<char>, counts: Seq<char>) -> Seq<char> {
    "src "@ + src + " dst "@ + dst + "\n\t"@ + lifetime_tag() + " "@ + counts + "\n"@
}

/// A counters line this reading can meet: it starts with a digit, ends with no whitespace,
/// holds no newline, and no `s` in it is followed by `r` (so no `src ` separator).
spec fn counters_text(c: Seq<char>) -> bool {
    &&& c.len() > 0
    &&& is_digit(c[0])
    &&& !is_ws(c[c.len() - 1])
    &&& forall|k: int| 0 <= k < c.len() ==> #[trigger] c[k] != '\n'
    &&& forall|k: int| 0 <= k < c.len() - 1 ==> !#[trigger] s_then_r(c, k)
}

/// Whether `c` holds `sr` at `k`.
spec fn s_then_r(c: Seq<char>, k: int) -> bool {
    c[k] == 's' && c[k + 1] == 'r'
}

proof fn lemma_counts_in_words(bytes: u64, packets: u64)
    ensures
        counters_text(counts_in_words(bytes, packets)),
        next_line_count(counts_in_words(bytes, packets), 0, counts_in_words(bytes, packets).len() as int)
            == Some(bytes),
{
    reveal_strlit(" bytes, ");
    reveal_strlit(" packets");
    reveal_strlit("bytes");
    reveal_strlit("(bytes)");
    let d = decimal(bytes as nat);
    let p = decimal(packets as nat);
    lemma_decimal(bytes as nat);
    lemma_decimal(packets as nat);
    let c = counts_in_words(bytes, packets);
    let m = d.len() as int;
    let g = m;
    let h = g + 8;
    let q = p.len() as int;
    let n = h + q + 8;
    assert forall|k: int| 0 <= k < m implies #[trigger] c[k] == d[k] by {}
    assert forall|k: int| 0 <= k < q implies #[trigger] c[h + k] == p[k] by {}
    assert(c.len() == n);
    assert forall|k: int| 0 <= k < m implies is_digit(#[trigger] c[k]) by {
        assert(c[k] == d[k]);
    }
    assert forall|k: int| h <= k < h + q implies is_digit(#[trigger] c[k]) by {
        assert(c[h + (k - h)] == p[k - h]);
    }
    assert(c[g] == ' ' && c[g + 1] == 'b' && c[g + 2] == 'y' && c[g + 3] == 't' && c[g + 4] == 'e');
    assert(c[g + 5] == 's' && c[g + 6] == ',' && c[g + 7] == ' ');
    assert(c[h + q] == ' ' && c[n - 7] == 'p' && c[n - 6] == 'a' && c[n - 5] == 'c');
    assert(c[n - 4] == 'k' && c[n - 3] == 'e' && c[n - 2] == 't' && c[n - 1] == 's');
    assert forall|k: int| 0 <= k < c.len() implies #[trigger] c[k] != '\n' by {
        if k < m || h <= k < h + q {
            assert(is_digit(c[k]));
        }
    }
    assert forall|k: int| 0 <= k < c.len() - 1 implies !#[trigger] s_then_r(c, k) by {
        if k < m || h <= k < h + q {
            assert(is_digit(c[k]));
        }
    }
    assert forall|k: int| 0 <= k < n implies #[trigger] c[k] != '(' by {
        if k < m || h <= k < h + q {
            assert(is_digit(c[k]));
        }
    }
    lemma_find_char_absent(c, '(', 0, n);
    assert forall|j: int| 0 <= j < g implies !is_ws(#[trigger] c[j]) by {
        assert(is_digit(c[j]));
    }
    lemma_word_at(c, 0, g, n);
    lemma_word_at(c, g + 1, g + 7, n);
    let w = words_from(c, false, 0, 0, n);
    assert(w[0] == (0int, g));
    assert(w[1] == (g + 1, g + 7));
    assert(c.subrange(g + 1, g + 6) =~= "bytes"@);
    assert(agree(c, d, 0, 0, m));
    lemma_digits_shift(c, d, 0, 0, m, 0, m);
    assert(parse_u64(c, 0, g) == Some(bytes));
}

proof fn lemma_counts_in_parens(bytes: u64, packets: u64)
    ensures
        counters_text(counts_in_parens(bytes, packets)),
        next_line_count(counts_in_parens(bytes, packets), 0, counts_in_parens(bytes, packets).len() as int)
            == Some(bytes),
        count_before_paren(counts_in_parens(bytes, packets), 0, counts_in_parens(bytes, packets).len() as int)
            == Some(bytes),
{
    reveal_strlit("(bytes), ");
    reveal_strlit("(packets)");
    reveal_strlit("(bytes)");
    let d = decimal(bytes as nat);
    let p = decimal(packets as nat);
    lemma_decimal(bytes as nat);
    lemma_decimal(packets as nat);
    let c = counts_in_parens(bytes, packets);
    let m = d.len() as int;
    let g = m;
    let h = g + 9;
    let q = p.len() as int;
    let n = h + q + 9;
    assert forall|k: int| 0 <= k < m implies #[trigger] c[k] == d[k] by {}
    assert forall|k: int| 0 <= k < q implies #[trigger] c[h + k] == p[k] by {}
    assert(c.len() == n);
    assert forall|k: int| 0 <= k < m implies is_digit(#[trigger] c[k]) by {
        assert(c[k] == d[k]);
    }
    assert forall|k: int| h <= k < h + q implies is_digit(#[trigger] c[k]) by {
        assert(c[h + (k - h)] == p[k - h]);
    }
    assert(c[g] == '(' && c[g + 1] == 'b' && c[g + 2] == 'y' && c[g + 3] == 't' && c[g + 4] == 'e');
    assert(c[g + 5] == 's' && c[g + 6] == ')' && c[g + 7] == ',' && c[g + 8] == ' ');
    assert(c[h + q] == '(' && c[n - 8] == 'p' && c[n - 7] == 'a' && c[n - 6] == 'c');
    assert(c[n - 5] == 'k' && c[n - 4] == 'e' && c[n - 3] == 't' && c[n - 2] == 's' && c[n - 1] == ')');
    assert forall|k: int| 0 <= k < c.len() implies #[trigger] c[k] != '\n' by {
        if k < m || h <= k < h + q {
            assert(is_digit(c[k]));
        }
    }
    assert forall|k: int| 0 <= k < c.len() - 1 implies !#[trigger] s_then_r(c, k) by {
        if k < m || h <= k < h + q {
            assert(is_digit(c[k]));
        }
    }
    assert forall|k: int| 0 <= k < g implies #[trigger] c[k] != '(' by {
        assert(is_digit(c[k]));
    }
    lemma_find_char_at(c, '(', 0, g, n);
    assert(c.subrange(g, g + 7) =~= "(bytes)"@);
    assert forall|k: int| 0 <= k < m implies !is_ws(#[trigger] c[k]) by {
        assert(is_digit(c[k]));
    }
    assert(skip_ws(c, 0, g) == 0);
    assert(trim_span(c, 0, g) == (0int, g));
    assert(agree(c, d, 0, 0, m));
    lemma_digits_shift(c, d, 0, 0, m, 0, m);
    assert(parse_u64(c, 0, g) == Some(bytes));
}

#[verifier::rlimit(50)]
proof fn lemma_listing_below_chars(src: Seq<char>, dst: Seq<char>, counts: Seq<char>)
    requires
        is_address(src),
        is_address(dst),
        counters_text(counts),
    ensures
        ({
            let l = listing_below(src, dst, counts);
            let a = src.len() as int;
            let e = 9 + a + dst.len();
            let f = e + 23;
            let hi = f + counts.len() + 1;
            &&& l.len() == hi
            &&& l.subrange(0, 4) == "src "@
            &&& l.subrange(4, 4 + a) == src
            &&& l.subrange(5 + a, 8 + a) == "dst"@
            &&& l.subrange(9 + a, e) == dst
            &&& l.subrange(e + 2, e + 19) == lifetime_tag()
            &&& agree(l, counts, f, 0, counts.len() as int)
            &&& forall|k: int| 4 <= k < 4 + a ==> is_address_char(#[trigger] l[k])
            &&& forall|k: int| 9 + a <= k < e ==> is_address_char(#[trigger] l[k])
            &&& forall|k: int| f <= k < hi - 1 ==> #[trigger] l[k] == counts[k - f]
            &&& l[4 + a] == ' ' && l[5 + a] == 'd' && l[6 + a] == 's' && l[7 + a] == 't' && l[8 + a] == ' '
            &&& l[e] == '\n' && l[e + 1] == '\t' && l[e + 2] == 'l' && l[e + 18] == ':'
            &&& l[e + 19] == '\n' && l[e + 20] == '\t' && l[e + 21] == ' ' && l[e + 22] == ' '
            &&& l[hi - 1] == '\n'
            &&& forall|k: int| e + 2 <= k < e + 19 ==> l[k] != 's' && l[k] != '\n' && l[k] != '('
        }),
{
    reveal_strlit("src ");
    reveal_strlit(" dst ");
    reveal_strlit("\n\t");
    reveal_strlit("lifetime current:");
    reveal_strlit("\n\t  ");
    reveal_strlit("\n");
    reveal_strlit("dst");
    reveal(listing_below);
    let l = listing_below(src, dst, counts);
    let a = src.len() as int;
    let b = dst.len() as int;
    let e = 9 + a + b;
    let f = e + 23;
    let c = counts.len() as int;
    let t = lifetime_tag();
    assert forall|k: int| 0 <= k < a implies #[trigger] l[4 + k] == src[k] by {}
    assert forall|k: int| 0 <= k < b implies #[trigger] l[9 + a + k] == dst[k] by {}
    assert forall|k: int| 0 <= k < 17 implies #[trigger] l[e + 2 + k] == t[k] by {}
    assert forall|k: int| 0 <= k < c implies #[trigger] l[f + k] == counts[k] by {}
    assert(l.subrange(4, 4 + a) =~= src);
    assert(l.subrange(9 + a, e) =~= dst);
    assert(l.subrange(e + 2, e + 19) =~= t);
    assert(l.subrange(0, 4) =~= "src "@);
    assert(l.subrange(5 + a, 8 + a) =~= "dst"@);
    assert forall|k: int| f <= k < f + c implies #[trigger] l[k] == counts[k - f] by {
        assert(l[f + (k - f)] == counts[k - f]);
    }
    assert forall|k: int| 4 <= k < 4 + a implies is_address_char(#[trigger] l[k]) by {
        assert(l[4 + (k - 4)] == src[k - 4]);
    }
    assert forall|k: int| 9 + a <= k < e implies is_address_char(#[trigger] l[k]) by {
        assert(l[9 + a + (k - 9 - a)] == dst[k - 9 - a]);
    }
    assert forall|k: int| e + 2 <= k < e + 19 implies l[k] != 's' && l[k] != '\n' && l[k] != '(' by {
        assert(l[e + 2 + (k - e - 2)] == t[k - e - 2]);
    }
}

#[verifier::rlimit(50)]
proof fn lemma_listing_inline_chars(src: Seq<char>, dst: Seq<char>, counts: Seq<char>)
    requires
        is_address(src),
        is_address(dst),
        counters_text(counts),
    ensures
        ({
            let l = listing_inline(src, dst, counts);
            let a = src.len() as int;
            let e = 9 + a + dst.len();
            let f = e + 20;
            let hi = f + counts.len() + 1;
            &&& l.len() == hi
            &&& l.subrange(0, 4) == "src "@
            &&& l.subrange(4, 4 + a) == src
            &&& l.subrange(5 + a, 8 + a) == "dst"@
            &&& l.subrange(9 + a, e) == dst
            &&& l.subrange(e + 2, e + 19) == lifetime_tag()
            &&& agree(l, counts, f, 0, counts.len() as int)
            &&& forall|k: int| 4 <= k < 4 + a ==> is_address_char(#[trigger] l[k])
            &&& forall|k: int| 9 + a <= k < e ==> is_address_char(#[trigger] l[k])
            &&& forall|k: int| f <= k < hi - 1 ==> #[trigger] l[k] == counts[k - f]
            &&& l[4 + a] == ' ' && l[5 + a] == 'd' && l[6 + a] == 's' && l[7 + a] == 't' && l[8 + a] == ' '
            &&& l[e] == '\n' && l[e + 1] == '\t' && l[e + 2] == 'l' && l[e + 19] == ' '
            &&& l[hi - 1] == '\n'
            &&& forall|k: int| e + 2 <= k < e + 19 ==> l[k] != 's' && l[k] != '\n' && l[k] != '('
        }),
{
    reveal_strlit("src ");
    reveal_strlit(" dst ");
    reveal_strlit("\n\t");
    reveal_strlit("lifetime current:");
    reveal_strlit(" ");
    reveal_strlit("\n");
    reveal_strlit("dst");
    reveal(listing_inline);
    let l = listing_inline(src, dst, counts);
    let a = src.len() as int;
    let b = dst.len() as int;
    let e = 9 + a + b;
    let f = e + 20;
    let c = counts.len() as int;
    let t = lifetime_tag();
    assert forall|k: int| 0 <= k < a implies #[trigger] l[4 + k] == src[k] by {}
    assert forall|k: int| 0 <= k < b implies #[trigger] l[9 + a + k] == dst[k] by {}
    assert forall|k: int| 0 <= k < 17 implies #[trigger] l[e + 2 + k] == t[k] by {}
    assert forall|k: int| 0 <= k < c implies #[trigger] l[f + k] == counts[k] by {}
    assert(l.subrange(4, 4 + a) =~= src);
    assert(l.subrange(9 + a, e) =~= dst);
    assert(l.subrange(e + 2, e + 19) =~= t);
    assert(l.subrange(0, 4) =~= "src "@);
    assert(l.subrange(5 + a, 8 + a) =~= "dst"@);
    assert forall|k: int| f <= k < f + c implies #[trigger] l[k] == counts[k - f] by {
        assert(l[f + (k - f)] == counts[k - f]);
    }
    assert forall|k: int| 4 <= k < 4 + a implies is_address_char(#[trigger] l[k]) by {
        assert(l[4 + (k - 4)] == src[k - 4]);
    }
    assert forall|k: int| 9 + a <= k < e implies is_address_char(#[trigger] l[k]) by {
        assert(l[9 + a + (k - 9 - a)] == dst[k - 9 - a]);
    }
    assert forall|k: int| e + 2 <= k < e + 19 implies l[k] != 's' && l[k] != '\n' && l[k] != '(' by {
        assert(l[e + 2 + (k - e - 2)] == t[k - e - 2]);
    }
}

/// In a listing `l` of one association that starts with `src ` and holds no other
/// separator, the associations are the empty text before it and the rest.
proof fn lemma_single_association(l: Seq<char>)
    requires
        l.len() >= 4,
        l.subrange(0, 4) == "src "@,
        forall|j: int| 4 <= j && j + 1 < l.len() ==> !#[trigger] s_then_r(l, j),
    ensures
        split_unless_after_from(l, sa_separator(), selector_prefix(), 0, 0, l.len() as int)
            == seq![(0int, 0int), (4int, l.len() as int)],
{
    reveal_strlit("src ");
    reveal_strlit("sel ");
    let hi = l.len() as int;
    let pat = sa_separator();
    assert forall|j: int| 4 <= j && j + pat.len() <= hi implies !#[trigger] occurs_at(l, pat, j, hi) by {
        if occurs_at(l, pat, j, hi) {
            assert(l.subrange(j, j + 4)[0] == l[j]);
            assert(l.subrange(j, j + 4)[1] == l[j + 1]);
            assert(s_then_r(l, j));
        }
    }
    assert(occurs_at(l, pat, 0, hi));
    lemma_split_rest_whole(l, pat, selector_prefix(), 4, 4, hi);
    assert(split_unless_after_from(l, pat, selector_prefix(), 0, 0, hi)
        =~= seq![(0int, 0int)] + seq![(4int, hi)]);
}

/// The traffic of a one-association listing `l` whose association `l[4..]` has the
/// trimmed lines `ls`, first line `src dst dst` at `(4, e)`, and byte count `v`.
proof fn lemma_single_association_traffic(
    l: Seq<char>,
    src: Seq<char>,
    dst: Seq<char>,
    ls: Seq<(int, int)>,
    v: int,
)
    requires
        is_address(src),
        is_address(dst),
        l.len() > 9 + src.len() as int + dst.len() as int,
        split_unless_after_from(l, sa_separator(), selector_prefix(), 0, 0, l.len() as int)
            == seq![(0int, 0int), (4int, l.len() as int)],
        trimmed_lines(l, 4, l.len() as int) == ls,
        ls.len() > 0,
        ls[0] == (4int, 9 + src.len() as int + dst.len() as int),
        l.subrange(4, 4 + src.len() as int) == src,
        l.subrange(5 + src.len() as int, 8 + src.len() as int) == "dst"@,
        l.subrange(9 + src.len() as int, 9 + src.len() as int + dst.len() as int) == dst,
        forall|k: int| 4 <= k < 4 + src.len() as int ==> is_address_char(#[trigger] l[k]),
        forall|k: int| 9 + src.len() as int <= k < 9 + src.len() as int + dst.len() as int ==> is_address_char(#[trigger] l[k]),
        l[4 + src.len() as int] == ' ' && l[5 + src.len() as int] == 'd' && l[6 + src.len() as int] == 's',
        l[7 + src.len() as int] == 't' && l[8 + src.len() as int] == ' ',
        lines_bytes(l, ls, ls.len() as int) == v,
    ensures
        xfrm_traffic(l, dst) == (v, 0int),
        src != dst ==> xfrm_traffic(l, src) == (0int, v),
{
    reveal_strlit("dst");
    let a = src.len() as int;
    let e = 9 + a + dst.len() as int;
    let hi = l.len() as int;
    assert forall|j: int| 4 <= j < 4 + a implies !is_ws(#[trigger] l[j]) by {
        assert(is_address_char(l[j]));
    }
    assert forall|j: int| 9 + a <= j < e implies !is_ws(#[trigger] l[j]) by {
        assert(is_address_char(l[j]));
    }
    lemma_word_at(l, 4, 4 + a, e);
    lemma_word_at(l, 5 + a, 8 + a, e);
    lemma_word_at(l, 9 + a, e, e);
    let parts = words_from(l, false, 4, 4, e);
    assert(parts =~= seq![(4int, 4 + a), (5 + a, 8 + a), (9 + a, e)]);
    let sas = seq![(0int, 0int), (4int, hi)];
    assert(sas[0] == (0int, 0int) && sas[1] == (4int, hi));
    assert(sa_traffic(l, dst, (0, 0)) == (0int, 0int));
    assert(sa_traffic(l, dst, (4, hi)) == (v, 0int));
    assert(traffic_upto(l, dst, sas, 0) == (0int, 0int));
    assert(traffic_upto(l, dst, sas, 1) == (0int, 0int));
    assert(traffic_upto(l, dst, sas, 2) == (v, 0int));
    if src != dst {
        assert(sa_traffic(l, src, (0, 0)) == (0int, 0int));
        assert(sa_traffic(l, src, (4, hi)) == (0int, v));
        assert(traffic_upto(l, src, sas, 0) == (0int, 0int));
        assert(traffic_upto(l, src, sas, 1) == (0int, 0int));
        assert(traffic_upto(l, src, sas, 2) == (0int, v));
    }
}

proof fn lemma_listing_below_split(src: Seq<char>, dst: Seq<char>, counts: Seq<char>)
    requires
        is_address(src),
        is_address(dst),
        counters_text(counts),
    ensures
        split_unless_after_from(listing_below(src, dst, counts), sa_separator(), selector_prefix(), 0, 0,
            listing_below(src, dst, counts).len() as int)
            == seq![(0int, 0int), (4int, listing_below(src, dst, counts).len() as int)],
{
    lemma_listing_below_chars(src, dst, counts);
    let l = listing_below(src, dst, counts);
    let a = src.len() as int;
    let e = 9 + a + dst.len() as int;
    let f = e + 23;
    let hi = l.len() as int;
    assert forall|j: int| 4 <= j && j + 1 < hi implies !#[trigger] s_then_r(l, j) by {
        if j < 4 + a || 9 + a <= j < e {
            assert(is_address_char(l[j]));
        } else if f <= j < hi - 2 {
            assert(l[j] == counts[j - f]);
            assert(l[j + 1] == counts[j + 1 - f]);
            if s_then_r(l, j) {
                assert(s_then_r(counts, j - f));
            }
        }
    }
    lemma_single_association(l);
}

proof fn lemma_listing_below_lines(src: Seq<char>, dst: Seq<char>, counts: Seq<char>)
    requires
        is_address(src),
        is_address(dst),
        counters_text(counts),
    ensures
        ({
            let l = listing_below(src, dst, counts);
            let e = 9 + src.len() as int + dst.len() as int;
            trimmed_lines(l, 4, l.len() as int) == seq![(4int, e), (e + 2, e + 19), (e + 23, l.len() as int - 1)]
        }),
{
    lemma_listing_below_chars(src, dst, counts);
    let l = listing_below(src, dst, counts);
    let a = src.len() as int;
    let e = 9 + a + dst.len() as int;
    let f = e + 23;
    let c = counts.len() as int;
    let hi = l.len() as int;
    assert forall|j: int| 4 <= j < e implies #[trigger] l[j] != '\n' by {
        if j < 4 + a || 9 + a <= j {
            assert(is_address_char(l[j]));
        }
    }
    assert forall|j: int| e + 1 <= j < e + 19 implies #[trigger] l[j] != '\n' by {}
    assert forall|j: int| e + 20 <= j < hi - 1 implies #[trigger] l[j] != '\n' by {
        if f <= j {
            assert(l[j] == counts[j - f]);
        }
    }
    lemma_lines_to_newline(l, 4, 4, e, hi);
    lemma_lines_to_newline(l, e + 1, e + 1, e + 19, hi);
    lemma_lines_to_newline(l, e + 20, e + 20, hi - 1, hi);
    assert(is_address_char(l[e - 1]));
    assert(l[hi - 2] == counts[c - 1]);
    assert(lines_from(l, hi, hi, hi) =~= Seq::<(int, int)>::empty());
    assert(lines_from(l, 4, 4, hi) =~= seq![(4int, e), (e + 1, e + 19), (e + 20, hi - 1)]);
    assert(is_address_char(l[4]));
    assert(trim_span(l, 4, e) == (4int, e));
    assert(skip_ws(l, e + 2, e + 19) == e + 2);
    assert(trim_span(l, e + 1, e + 19) == (e + 2, e + 19));
    assert(l[f] == counts[0]);
    assert(skip_ws(l, f, hi - 1) == f);
    assert(skip_ws(l, e + 22, hi - 1) == f);
    assert(skip_ws(l, e + 21, hi - 1) == f);
    assert(trim_span(l, e + 20, hi - 1) == (f, hi - 1));
    assert(trimmed_lines(l, 4, hi) =~= seq![(4int, e), (e + 2, e + 19), (f, hi - 1)]);
}

proof fn lemma_listing_below_bytes(src: Seq<char>, dst: Seq<char>, counts: Seq<char>, v: u64)
    requires
        is_address(src),
        is_address(dst),
        counters_text(counts),
        next_line_count(counts, 0, counts.len() as int) == Some(v),
    ensures
        ({
            let l = listing_below(src, dst, counts);
            let e = 9 + src.len() as int + dst.len() as int;
            let ls = seq![(4int, e), (e + 2, e + 19), (e + 23, l.len() as int - 1)];
            lines_bytes(l, ls, 3) == v as int
        }),
{
    lemma_listing_below_chars(src, dst, counts);
    reveal_strlit("lifetime current:");
    let l = listing_below(src, dst, counts);
    let a = src.len() as int;
    let e = 9 + a + dst.len() as int;
    let f = e + 23;
    let c = counts.len() as int;
    let hi = l.len() as int;
    let ls = seq![(4int, e), (e + 2, e + 19), (f, hi - 1)];
    let tag = lifetime_tag();
    assert(is_address_char(l[4]));
    if starts_with(l, 4, e, tag) {
        assert(l.subrange(4, 4 + tag.len() as int)[0] == l[4]);
    }
    assert(l[f] == counts[0]);
    if starts_with(l, f, hi - 1, tag) {
        assert(l.subrange(f, f + tag.len() as int)[0] == l[f]);
    }
    assert(line_bytes(l, ls, 0) == 0);
    assert(line_bytes(l, ls, 2) == 0);
    lemma_next_line_count_shift(l, counts, f, 0, c, 0, c);
    assert(trim_span(l, e + 19, e + 19) == (e + 19, e + 19));
    assert(line_bytes(l, ls, 1) == v as int);
    assert(lines_bytes(l, ls, 0) == 0);
    assert(lines_bytes(l, ls, 1) == 0);
    assert(lines_bytes(l, ls, 2) == v as int);
}

proof fn lemma_listing_below_traffic(src: Seq<char>, dst: Seq<char>, counts: Seq<char>, v: u64)
    requires
        is_address(src),
        is_address(dst),
        counters_text(counts),
        next_line_count(counts, 0, counts.len() as int) == Some(v),
    ensures
        xfrm_traffic(listing_below(src, dst, counts), dst) == (v as int, 0int),
        src != dst ==> xfrm_traffic(listing_below(src, dst, counts), src) == (0int, v as int),
{
    lemma_listing_below_chars(src, dst, counts);
    lemma_listing_below_split(src, dst, counts);
    lemma_listing_below_lines(src, dst, counts);
    lemma_listing_below_bytes(src, dst, counts, v);
    let l = listing_below(src, dst, counts);
    let e = 9 + src.len() as int + dst.len() as int;
    let ls = seq![(4int, e), (e + 2, e + 19), (e + 23, l.len() as int - 1)];
    lemma_single_association_traffic(l, src, dst, ls, v as int);
}

proof fn lemma_listing_inline_split(src: Seq<char>, dst: Seq<char>, counts: Seq<char>)
    requires
        is_address(src),
        is_address(dst),
        counters_text(counts),
    ensures
        split_unless_after_from(listing_inline(src, dst, counts), sa_separator(), selector_prefix(), 0, 0,
            listing_inline(src, dst, counts).len() as int)
            == seq![(0int, 0int), (4int, listing_inline(src, dst, counts).len() as int)],
{
    lemma_listing_inline_chars(src, dst, counts);
    let l = listing_inline(src, dst, counts);
    let a = src.len() as int;
    let e = 9 + a + dst.len() as int;
    let f = e + 20;
    let hi = l.len() as int;
    assert forall|j: int| 4 <= j && j + 1 < hi implies !#[trigger] s_then_r(l, j) by {
        if j < 4 + a || 9 + a <= j < e {
            assert(is_address_char(l[j]));
        } else if f <= j < hi - 2 {
            assert(l[j] == counts[j - f]);
            assert(l[j + 1] == counts[j + 1 - f]);
            if s_then_r(l, j) {
                assert(s_then_r(counts, j - f));
            }
        }
    }
    lemma_single_association(l);
}

proof fn lemma_listing_inline_lines(src: Seq<char>, dst: Seq<char>, counts: Seq<char>)
    requires
        is_address(src),
        is_address(dst),
        counters_text(counts),
    ensures
        ({
            let l = listing_inline(src, dst, counts);
            let e = 9 + src.len() as int + dst.len() as int;
            trimmed_lines(l, 4, l.len() as int) == seq![(4int, e), (e + 2, l.len() as int - 1)]
        }),
{
    lemma_listing_inline_chars(src, dst, counts);
    let l = listing_inline(src, dst, counts);
    let a = src.len() as int;
    let e = 9 + a + dst.len() as int;
    let f = e + 20;
    let c = counts.len() as int;
    let hi = l.len() as int;
    assert forall|j: int| 4 <= j < e implies #[trigger] l[j] != '\n' by {
        if j < 4 + a || 9 + a <= j {
            assert(is_address_char(l[j]));
        }
    }
    assert forall|j: int| e + 1 <= j < hi - 1 implies #[trigger] l[j] != '\n' by {
        if f <= j {
            assert(l[j] == counts[j - f]);
        }
    }
    lemma_lines_to_newline(l, 4, 4, e, hi);
    lemma_lines_to_newline(l, e + 1, e + 1, hi - 1, hi);
    assert(is_address_char(l[e - 1]));
    assert(l[hi - 2] == counts[c - 1]);
    assert(lines_from(l, hi, hi, hi) =~= Seq::<(int, int)>::empty());
    assert(lines_from(l, 4, 4, hi) =~= seq![(4int, e), (e + 1, hi - 1)]);
    assert(is_address_char(l[4]));
    assert(trim_span(l, 4, e) == (4int, e));
    assert(skip_ws(l, e + 2, hi - 1) == e + 2);
    assert(trim_span(l, e + 1, hi - 1) == (e + 2, hi - 1));
    assert(trimmed_lines(l, 4, hi) =~= seq![(4int, e), (e + 2, hi - 1)]);
}

proof fn lemma_listing_inline_bytes(src: Seq<char>, dst: Seq<char>, counts: Seq<char>, v: u64)
    requires
        is_address(src),
        is_address(dst),
        counters_text(counts),
        count_before_paren(counts, 0, counts.len() as int) == Some(v),
    ensures
        ({
            let l = listing_inline(src, dst, counts);
            let e = 9 + src.len() as int + dst.len() as int;
            let ls = seq![(4int, e), (e + 2, l.len() as int - 1)];
            lines_bytes(l, ls, 2) == v as int
        }),
{
    lemma_listing_inline_chars(src, dst, counts);
    reveal_strlit("lifetime current:");
    let l = listing_inline(src, dst, counts);
    let a = src.len() as int;
    let e = 9 + a + dst.len() as int;
    let f = e + 20;
    let c = counts.len() as int;
    let hi = l.len() as int;
    let ls = seq![(4int, e), (e + 2, hi - 1)];
    let tag = lifetime_tag();
    assert(is_address_char(l[4]));
    if starts_with(l, 4, e, tag) {
        assert(l.subrange(4, 4 + tag.len() as int)[0] == l[4]);
    }
    assert(line_bytes(l, ls, 0) == 0);
    assert(l[f] == counts[0]);
    assert(l[hi - 2] == counts[c - 1]);
    assert(skip_ws(l, f, hi - 1) == f);
    assert(skip_ws_back(l, f, hi - 1) == hi - 1);
    assert(trim_span(l, e + 19, hi - 1) == (f, hi - 1));
    lemma_count_shift(l, counts, f, 0, c, 0, c);
    assert(line_bytes(l, ls, 1) == v as int);
    assert(lines_bytes(l, ls, 0) == 0);
    assert(lines_bytes(l, ls, 1) == 0);
}

proof fn lemma_listing_inline_traffic(src: Seq<char>, dst: Seq<char>, counts: Seq<char>, v: u64)
    requires
        is_address(src),
        is_address(dst),
        counters_text(counts),
        count_before_paren(counts, 0, counts.len() as int) == Some(v),
    ensures
        xfrm_traffic(listing_inline(src, dst, counts), dst) == (v as int, 0int),
        src != dst ==> xfrm_traffic(listing_inline(src, dst, counts), src) == (0int, v as int),
{
    lemma_listing_inline_chars(src, dst, counts);
    lemma_listing_inline_split(src, dst, counts);
    lemma_listing_inline_lines(src, dst, counts);
    lemma_listing_inline_bytes(src, dst, counts, v);
    let l = listing_inline(src, dst, counts);
    let e = 9 + src.len() as int + dst.len() as int;
    let ls = seq![(4int, e), (e + 2, l.len() as int - 1)];
    lemma_single_association_traffic(l, src, dst, ls, v as int);
}

/// For every byte count that fits in a `u64`, one association whose counters stand on the
/// line after an empty `lifetime current:` counts all its bytes, whether they read
/// `<bytes> bytes, <packets> packets` or, as `ip -s xfrm state` prints them,
/// `<bytes>(bytes), <packets>(packets)`: as sent when the gateway is the association's
/// destination, as received when the gateway is only its source.
pub proof fn lemma_counters_below_are_counted(src: Seq<char>, dst: Seq<char>, bytes: u64, packets: u64)
    requires
        is_address(src),
        is_address(dst),
    ensures
        xfrm_traffic(listing_below(src, dst, counts_in_words(bytes, packets)), dst) == (bytes as int, 0int),
        xfrm_traffic(listing_below(src, dst, counts_in_parens(bytes, packets)), dst) == (bytes as int, 0int),
        src != dst ==> xfrm_traffic(listing_below(src, dst, counts_in_words(bytes, packets)), src)
            == (0int, bytes as int),
        src != dst ==> xfrm_traffic(listing_below(src, dst, counts_in_parens(bytes, packets)), src)
            == (0int, bytes as int),
{
    lemma_counts_in_words(bytes, packets);
    lemma_counts_in_parens(bytes, packets);
    lemma_listing_below_traffic(src, dst, counts_in_words(bytes, packets), bytes);
    lemma_listing_below_traffic(src, dst, counts_in_parens(bytes, packets), bytes);
}

/// For every byte count that fits in a `u64`, one association whose counters stand on its
/// `lifetime current:` line (`lifetime current: <bytes>(bytes), <packets>(packets)`)
/// counts all its bytes: as sent when the gateway is its destination, as received when the
/// gateway is only its source.
pub proof fn lemma_counters_inline_are_counted(src: Seq<char>, dst: Seq<char>, bytes: u64, packets: u64)
    requires
        is_address(src),
        is_address(dst),
    ensures
        xfrm_traffic(listing_inline(src, dst, counts_in_parens(bytes, packets)), dst) == (bytes as int, 0int),
        src != dst ==> xfrm_traffic(listing_inline(src, dst, counts_in_parens(bytes, packets)), src)
            == (0int, bytes as int),
{
    lemma_counts_in_parens(bytes, packets);
    lemma_listing_inline_traffic(src, dst, counts_in_parens(bytes, packets), bytes);
}


} // verus!

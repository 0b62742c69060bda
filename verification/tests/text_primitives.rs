use findmore_vpn::text::{
    chars_of, is_whitespace, lines, parse_u64_span, span_find, span_rfind, split_unless_after, trim_range,
    words,
};

const SAMPLES: &[&str] = &[
    "",
    " ",
    "a",
    "  padded  ",
    "\t tabs and spaces \r\n",
    "one\ntwo\r\nthree",
    "trailing newline\n",
    "\n\n",
    "bare\rcarriage",
    "ends with cr\r",
    "\u{a0}no-break\u{2003}em\u{3000}ideographic\u{85}",
    "src 1.2.3.4 dst 5.6.7.8\nsrc 5.6.7.8 dst 1.2.3.4\n",
    "src src src ",
    "srcsrc ",
    "  +42  ",
    "18446744073709551615",
    "18446744073709551616",
    "-1",
    "+",
    "12a",
    "h\u{e9}llo w\u{f6}rld",
];

fn text_of(chars: &[char], a: usize, b: usize) -> String {
    chars[a..b].iter().collect()
}

#[test]
fn whitespace_matches_std() {
    for c in ['\t', '\n', '\u{b}', '\u{c}', '\r', ' ', '\u{85}', '\u{a0}', '\u{1680}', '\u{2000}',
        '\u{200a}', '\u{2028}', '\u{2029}', '\u{202f}', '\u{205f}', '\u{3000}', 'a', '0', '\u{200b}',
        '\u{feff}', '\u{180e}', '_']
    {
        assert_eq!(is_whitespace(c), c.is_whitespace(), "{:?}", c);
    }
}

#[test]
fn trim_matches_std() {
    for s in SAMPLES {
        let v = chars_of(s);
        let (a, b) = trim_range(&v, 0, v.len());
        assert_eq!(text_of(&v, a, b), s.trim(), "{:?}", s);
    }
}

#[test]
fn lines_match_std() {
    for s in SAMPLES {
        let v = chars_of(s);
        let got: Vec<String> = lines(&v, 0, v.len()).iter().map(|&(a, b)| text_of(&v, a, b)).collect();
        let want: Vec<String> = s.lines().map(|l| l.to_string()).collect();
        assert_eq!(got, want, "{:?}", s);
    }
}

#[test]
fn words_match_std() {
    for s in SAMPLES {
        let v = chars_of(s);
        let got: Vec<String> = words(&v, 0, v.len()).iter().map(|&(a, b)| text_of(&v, a, b)).collect();
        let want: Vec<String> = s.split_whitespace().map(|w| w.to_string()).collect();
        assert_eq!(got, want, "{:?}", s);
    }
}

/// Pieces between the occurrences of `pat` that do not directly follow `ex`, scanning left
/// to right and dropping each occurrence.
fn std_split_unless_after(s: &str, pat: &str, ex: &str) -> Vec<String> {
    let v: Vec<char> = s.chars().collect();
    let p: Vec<char> = pat.chars().collect();
    let e: Vec<char> = ex.chars().collect();
    let mut pieces = Vec::new();
    let mut start = 0;
    let mut i = 0;
    while i + p.len() <= v.len() {
        let after_ex = i >= e.len() && v[i - e.len()..i] == e[..];
        if !after_ex && v[i..i + p.len()] == p[..] {
            pieces.push(v[start..i].iter().collect());
            i += p.len();
            start = i;
        } else {
            i += 1;
        }
    }
    pieces.push(v[start..].iter().collect());
    pieces
}

#[test]
fn split_unless_after_matches_std() {
    for (pat, ex) in [("src ", "sel "), ("dst", " "), ("\n", "\r"), ("ss", "s"), ("src ", "src ")] {
        let p = chars_of(pat);
        let e = chars_of(ex);
        for s in SAMPLES {
            let v = chars_of(s);
            let got: Vec<String> =
                split_unless_after(&v, &p, &e).iter().map(|&(a, b)| text_of(&v, a, b)).collect();
            assert_eq!(got, std_split_unless_after(s, pat, ex), "{:?} on {:?} / {:?}", s, pat, ex);
        }
    }
    let sep = chars_of("src ");
    let sel = chars_of("sel ");
    let v = chars_of("src a\n\tsel src b\nsrc c");
    let got: Vec<String> = split_unless_after(&v, &sep, &sel).iter().map(|&(a, b)| text_of(&v, a, b)).collect();
    assert_eq!(got, vec!["", "a\n\tsel src b\n", "c"]);
    let v = chars_of("x src a");
    let got: Vec<String> = split_unless_after(&v, &sep, &sel).iter().map(|&(a, b)| text_of(&v, a, b)).collect();
    assert_eq!(got, vec!["x ", "a"]);
    let plain: Vec<String> = "x src a src".split("src ").map(|t| t.to_string()).collect();
    let v = chars_of("x src a src");
    let got: Vec<String> = split_unless_after(&v, &sep, &sel).iter().map(|&(a, b)| text_of(&v, a, b)).collect();
    assert_eq!(got, plain);
}

#[test]
fn find_and_rfind_match_std() {
    for pat in ["src ", "s", " to ", "", "\r\n"] {
        let p = chars_of(pat);
        for s in SAMPLES {
            let v = chars_of(s);
            let byte_to_char = |i: usize| s[..i].chars().count();
            assert_eq!(span_find(&v, 0, v.len(), &p), s.find(pat).map(byte_to_char), "{:?} in {:?}", pat, s);
            assert_eq!(span_rfind(&v, 0, v.len(), &p), s.rfind(pat).map(byte_to_char), "{:?} in {:?}", pat, s);
        }
    }
}

#[test]
fn parse_matches_std() {
    for s in SAMPLES {
        let v = chars_of(s);
        assert_eq!(parse_u64_span(&v, 0, v.len()), s.parse::<u64>().ok(), "{:?}", s);
        let (a, b) = trim_range(&v, 0, v.len());
        assert_eq!(parse_u64_span(&v, a, b), s.trim().parse::<u64>().ok(), "{:?}", s);
    }
}

#[test]
fn parse_values() {
    let v = chars_of("+00123");
    assert_eq!(parse_u64_span(&v, 0, v.len()), Some(123));
    let v = chars_of("18446744073709551615");
    assert_eq!(parse_u64_span(&v, 0, v.len()), Some(u64::MAX));
    let v = chars_of("18446744073709551616");
    assert_eq!(parse_u64_span(&v, 0, v.len()), None);
    let v = chars_of("");
    assert_eq!(parse_u64_span(&v, 0, 0), None);
}

#[test]
fn trimming_twice_is_trimming_once() {
    for s in SAMPLES {
        let v = chars_of(s);
        let (a, b) = trim_range(&v, 0, v.len());
        assert_eq!(trim_range(&v, a, b), (a, b), "{:?}", s);
    }
}

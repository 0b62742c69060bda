use findmore_vpn::xfrm::{parse_xfrm_stats, try_parse_xfrm_stats};

/// Splits `output` at every `src ` that does not follow `sel ` (a selector line inside an
/// association), dropping the separators.
fn blocks_of(output: &str) -> Vec<String> {
    let v: Vec<char> = output.chars().collect();
    let pat: Vec<char> = "src ".chars().collect();
    let ex: Vec<char> = "sel ".chars().collect();
    let mut blocks = Vec::new();
    let mut start = 0;
    let mut i = 0;
    while i + pat.len() <= v.len() {
        let after_ex = i >= ex.len() && v[i - ex.len()..i] == ex[..];
        if !after_ex && v[i..i + pat.len()] == pat[..] {
            blocks.push(v[start..i].iter().collect());
            i += pat.len();
            start = i;
        } else {
            i += 1;
        }
    }
    blocks.push(v[start..].iter().collect());
    blocks
}

fn count_before_paren(t: &str) -> Option<u64> {
    t.split('(').next().unwrap_or("").trim().parse::<u64>().ok()
}

/// The count of the line after an empty `lifetime current:`: `<n>(bytes)` or `<n> bytes`.
fn next_line_count(t: &str) -> Option<u64> {
    let by_paren = match t.find('(') {
        Some(p) if t[p..].starts_with("(bytes)") => count_before_paren(t),
        _ => None,
    };
    by_paren.or_else(|| {
        let w: Vec<&str> = t.split_whitespace().collect();
        if w.len() >= 2 && w[1].starts_with("bytes") {
            w[0].parse::<u64>().ok()
        } else {
            None
        }
    })
}

/// Sums the counters of the given associations, with `next` reading the line after an
/// empty `lifetime current:`.
fn sum_blocks(blocks: &[String], gateway_ip: &str, next: fn(&str) -> Option<u64>) -> (u64, u64) {
    let mut sent: u64 = 0;
    let mut received: u64 = 0;
    for sa in blocks {
        if sa.is_empty() {
            continue;
        }
        let lines: Vec<&str> = sa.lines().map(|l| l.trim()).collect();
        if lines.is_empty() {
            continue;
        }
        let parts: Vec<&str> = lines[0].split_whitespace().collect();
        if parts.len() < 3 || parts[1] != "dst" {
            continue;
        }
        let outbound = parts[2] == gateway_ip;
        let inbound = parts[0] == gateway_ip;
        if !outbound && !inbound {
            continue;
        }
        for i in 0..lines.len() {
            if let Some(rest) = lines[i].strip_prefix("lifetime current:") {
                let content = rest.trim();
                let mut count = if content.is_empty() { None } else { count_before_paren(content) };
                if count.is_none() && i + 1 < lines.len() {
                    count = next(lines[i + 1]);
                }
                let b = count.unwrap_or(0);
                if outbound { sent += b } else { received += b }
            }
        }
    }
    (sent, received)
}

/// The same reading of the listing, written with std's string methods, as an oracle.
fn std_oracle(output: &str, gateway_ip: &str) -> (u64, u64) {
    sum_blocks(&blocks_of(output), gateway_ip, next_line_count)
}

/// The plain reading: every `src ` separates associations, and the line after an empty
/// `lifetime current:` counts only as `<n> bytes`.
fn plain_reading(output: &str, gateway_ip: &str) -> (u64, u64) {
    let blocks: Vec<String> = output.split("src ").map(|b| b.to_string()).collect();
    let words_only: fn(&str) -> Option<u64> = |t| {
        let w: Vec<&str> = t.split_whitespace().collect();
        if w.len() >= 2 && w[1].starts_with("bytes") {
            w[0].parse::<u64>().ok()
        } else {
            None
        }
    };
    sum_blocks(&blocks, gateway_ip, words_only)
}

/// Two associations as `ip -s xfrm state` lists them.
const LISTING: &str = "src 10.0.0.5 dst 203.0.113.10
\tproto esp spi 0xc1a2b3c4 reqid 1 mode tunnel
\treplay-window 0 flag af-unspec
\tauth-trunc hmac(sha256) 0x00 128
\tenc cbc(aes) 0x00
\tencap type espinudp sport 4500 dport 4500 addr 0.0.0.0
\tanti-replay context: seq 0x0, oseq 0x1a, bitmap 0x00000000
\tsel src 10.7.1.11/32 dst 0.0.0.0/0
\tlifetime config:
\t  limit: soft (INF)(bytes), hard (INF)(bytes)
\t  limit: soft (INF)(packets), hard (INF)(packets)
\t  expire add: soft 3240(sec), hard 3600(sec)
\t  expire use: soft 0(sec), hard 0(sec)
\tlifetime current:
\t  1540(bytes), 15(packets)
\t  add 2024-01-01 10:00:00 use 2024-01-01 10:00:01
\tstats:
\t  replay-window 0 replay 0 failed 0
src 203.0.113.10 dst 10.0.0.5
\tproto esp spi 0x0badf00d reqid 1 mode tunnel
\tsel src 0.0.0.0/0 dst 10.7.1.11/32
\tlifetime current:
\t  98765(bytes), 120(packets)
\t  add 2024-01-01 10:00:00 use 2024-01-01 10:00:02
src 192.0.2.1 dst 192.0.2.2
\tlifetime current: 5(bytes), 1(packets)
";

#[test]
fn sums_both_directions() {
    assert_eq!(parse_xfrm_stats(LISTING, "203.0.113.10"), (1540, 98765));
    assert_eq!(try_parse_xfrm_stats(LISTING, "203.0.113.10"), Some((1540, 98765)));
}

#[test]
fn one_association_in_the_listed_layout() {
    let out = "src 1.1.1.1 dst 9.9.9.9\nproto esp spi 0x1 reqid 1 mode tunnel\n\
               sel src 0.0.0.0/0 dst 0.0.0.0/0\nlifetime current:\n1540(bytes), 15(packets)\n";
    assert_eq!(parse_xfrm_stats(out, "9.9.9.9"), (1540, 0));
    assert_eq!(parse_xfrm_stats(out, "1.1.1.1"), (0, 1540));
}

#[test]
fn unrelated_gateway_counts_nothing() {
    assert_eq!(parse_xfrm_stats(LISTING, "198.51.100.7"), (0, 0));
    assert_eq!(parse_xfrm_stats(LISTING, "10.7.1.11/32"), (0, 0));
    assert_eq!(parse_xfrm_stats("", "203.0.113.10"), (0, 0));
}

#[test]
fn other_pair_is_counted_for_its_gateway() {
    assert_eq!(parse_xfrm_stats(LISTING, "192.0.2.2"), (5, 0));
    assert_eq!(parse_xfrm_stats(LISTING, "192.0.2.1"), (0, 5));
}

#[test]
fn next_line_counter_format() {
    let out = "src 1.1.1.1 dst 2.2.2.2\n  lifetime current:\n  77(bytes), 3(packets)\n";
    assert_eq!(parse_xfrm_stats(out, "2.2.2.2"), (77, 0));
    let out = "src 1.1.1.1 dst 2.2.2.2\n  lifetime current:\n  77 bytes, 3 packets\n";
    assert_eq!(parse_xfrm_stats(out, "2.2.2.2"), (77, 0));
    let out = "src 1.1.1.1 dst 2.2.2.2\n  lifetime current:\n  77 packets\n";
    assert_eq!(parse_xfrm_stats(out, "2.2.2.2"), (0, 0));
}

#[test]
fn selector_lines_do_not_split_associations() {
    let out = "src 1.1.1.1 dst 2.2.2.2\n\tsel src 3.3.3.3/32 dst 2.2.2.2/32\n\tlifetime current: 9(bytes)\n";
    assert_eq!(parse_xfrm_stats(out, "2.2.2.2"), (9, 0));
    assert_eq!(parse_xfrm_stats(out, "3.3.3.3/32"), (0, 0));
}

#[test]
fn unparsable_same_line_falls_back_to_next_line() {
    let out = "src 1.1.1.1 dst 2.2.2.2\nlifetime current: many(bytes)\n 12 bytesish\n";
    assert_eq!(parse_xfrm_stats(out, "1.1.1.1"), (0, 12));
}

#[test]
fn overflow_is_reported() {
    let out = "src 1.1.1.1 dst 2.2.2.2\nlifetime current: 18446744073709551615(bytes)\n\
               src 1.1.1.1 dst 2.2.2.2\nlifetime current: 1(bytes)\n";
    assert_eq!(try_parse_xfrm_stats(out, "2.2.2.2"), None);
    assert_eq!(try_parse_xfrm_stats(out, "1.1.1.1"), None);
    assert_eq!(try_parse_xfrm_stats(out, "3.3.3.3"), Some((0, 0)));
}

#[test]
fn listings_add_up() {
    let a = "src 1.1.1.1 dst 2.2.2.2\nlifetime current:\n 3(bytes)\n";
    let b = "src 2.2.2.2 dst 1.1.1.1\nlifetime current: 4(bytes)\nsrc 1.1.1.1 dst 2.2.2.2\nlifetime current: 5(bytes)\n";
    for g in ["1.1.1.1", "2.2.2.2"] {
        let (a0, a1) = parse_xfrm_stats(a, g);
        let (b0, b1) = parse_xfrm_stats(b, g);
        assert_eq!(parse_xfrm_stats(&(a.to_string() + b), g), (a0 + b0, a1 + b1));
        assert_eq!(parse_xfrm_stats(&(b.to_string() + a), g), (a0 + b0, a1 + b1));
    }
}

#[test]
fn agrees_with_std_oracle() {
    let gateways = ["203.0.113.10", "10.0.0.5", "192.0.2.1", "192.0.2.2", "10.7.1.11/32", "", "x"];
    let listings = [
        LISTING,
        "",
        "src ",
        "src src src",
        "garbage without separators",
        "src a dst b\nlifetime current: 7\nsrc b dst a\r\nlifetime current:\r\n 8 bytes\r\n",
        "src a dst b\nlifetime current:\nlifetime current: 3 (x)\n 4 bytes\n",
        "src a dst b\n sel src b dst a\nsrc b dst a\n lifetime current:\n 6(bytes), 1(packets)\n",
        "x src a dst b\nsrc a dst b\n\tlifetime current:\n\t7(bytes)\n",
        "src a dst a\nlifetime current: +9(bytes)\n",
        "\u{a0}src a dst b\u{2003}\nlifetime current:\u{3000}11(bytes)\n",
    ];
    for l in listings {
        for g in gateways {
            assert_eq!(parse_xfrm_stats(l, g), std_oracle(l, g), "{:?} / {:?}", l, g);
        }
    }
}

#[test]
fn next_line_needs_a_byte_count() {
    let out = "src a dst b\nlifetime current:\n7(p)\n";
    assert_eq!(parse_xfrm_stats(out, "b"), (0, 0));
    let out = "src a dst b\nlifetime current:\n7 (bytes)\n";
    assert_eq!(parse_xfrm_stats(out, "b"), (7, 0));
    let out = "src a dst b\nlifetime current:\n7(bytesx)\n";
    assert_eq!(parse_xfrm_stats(out, "b"), (0, 0));
}

#[test]
fn separator_inside_a_line_begins_an_association() {
    let out = "x src 1.1.1.1 dst 9.9.9.9\nlifetime current: 5(bytes)\n";
    assert_eq!(parse_xfrm_stats(out, "9.9.9.9"), (5, 0));
    assert_eq!(parse_xfrm_stats(out, "1.1.1.1"), (0, 5));
}

#[test]
fn agrees_with_plain_reading_without_selectors() {
    let gateways = ["1.1.1.1", "2.2.2.2", "a", "b", ""];
    let listings = [
        "",
        "src 1.1.1.1 dst 2.2.2.2\nlifetime current: 3(bytes), 1(packets)\n",
        "src 1.1.1.1 dst 2.2.2.2\nlifetime current:\n 44 bytes, 2 packets\nsrc 2.2.2.2 dst 1.1.1.1\nlifetime current: 5\n",
        "x src a dst b\nlifetime current: 6(bytes)\n y src b dst a lifetime current: 1\n",
        "src a dst b\nlifetime current:\n7(p)\n",
        "src a dst b\nlifetime current: nope\n 8 bytesy\n",
    ];
    for l in listings {
        for g in gateways {
            assert_eq!(parse_xfrm_stats(l, g), plain_reading(l, g), "{:?} / {:?}", l, g);
        }
    }
}

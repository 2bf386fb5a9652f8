use pdf_layout::cli::{json_escape, parse_page_spec, region_type_str, truncate};
use pdf_layout::types::RegionType;

#[test]
fn json_escape_special_characters() {
    assert_eq!(json_escape("plain"), "plain");
    assert_eq!(json_escape("a\"b"), "a\\\"b");
    assert_eq!(json_escape("back\\slash"), "back\\\\slash");
    assert_eq!(json_escape("l1\nl2\r\t"), "l1\\nl2\\r\\t");
    assert_eq!(json_escape("\x08\x0C"), "\\b\\f");
    assert_eq!(json_escape("\x01\x1f"), "\\u0001\\u001f");
    assert_eq!(json_escape("é ∑ \u{7f}"), "é ∑ \u{7f}");
    assert_eq!(json_escape(""), "");
}

#[test]
fn json_escape_output_has_no_control_characters() {
    let s: String = (0u8..64).map(|b| b as char).collect();
    let out = json_escape(&s);
    assert!(out.chars().all(|c| (c as u32) >= 0x20));
    let chars: Vec<char> = out.chars().collect();
    for (k, c) in chars.iter().enumerate() {
        if *c == '"' {
            assert_eq!(chars[k - 1], '\\');
        }
    }
}

#[test]
fn page_spec_lists_and_ranges() {
    let pages = parse_page_spec("1,3,5-10,20").unwrap();
    let mut v: Vec<u32> = pages.into_iter().collect();
    v.sort();
    assert_eq!(v, vec![1, 3, 5, 6, 7, 8, 9, 10, 20]);
    let pages = parse_page_spec(" 2 , 4 - 5 ,+7").unwrap();
    let mut v: Vec<u32> = pages.into_iter().collect();
    v.sort();
    assert_eq!(v, vec![2, 4, 5, 7]);
    let single = parse_page_spec("3-3").unwrap();
    assert_eq!(single.len(), 1);
    assert!(single.contains(&3));
}

#[test]
fn page_spec_errors() {
    assert_eq!(parse_page_spec("x").unwrap_err(), "invalid page number: x");
    assert_eq!(parse_page_spec("1,,2").unwrap_err(), "invalid page number: ");
    assert_eq!(parse_page_spec("a-3").unwrap_err(), "invalid page number: a");
    assert_eq!(parse_page_spec("3- b ").unwrap_err(), "invalid page number: b");
    assert_eq!(parse_page_spec("0").unwrap_err(), "page numbers are 1-indexed");
    assert_eq!(parse_page_spec("0-4").unwrap_err(), "page numbers are 1-indexed");
    assert_eq!(parse_page_spec("9-4").unwrap_err(), "invalid range: 9-4");
    assert_eq!(parse_page_spec("4294967296").unwrap_err(), "invalid page number: 4294967296");
    assert_eq!(parse_page_spec("-3").unwrap_err(), "invalid page number: ");
    assert_eq!(parse_page_spec("1-2-3").unwrap_err(), "invalid page number: 2-3");
    // the first failing part decides
    assert_eq!(parse_page_spec("0,x").unwrap_err(), "page numbers are 1-indexed");
    assert_eq!(parse_page_spec("").unwrap_err(), "invalid page number: ");
}

#[test]
fn page_spec_agrees_with_std_parse() {
    for s in ["12", "+12", "+", "007", "4294967295", "1e3", "１"] {
        let ours = parse_page_spec(s);
        match s.parse::<u32>() {
            Ok(0) => assert!(ours.is_err()),
            Ok(v) => assert!(ours.unwrap().contains(&v)),
            Err(_) => assert_eq!(ours.unwrap_err(), format!("invalid page number: {}", s)),
        }
    }
}

#[test]
fn truncate_by_bytes() {
    assert_eq!(truncate("hello", 10), "hello");
    assert_eq!(truncate("hello", 5), "hello");
    assert_eq!(truncate("hello world", 5), "hello...");
    assert_eq!(truncate("αβγ", 2), "α...");
}

#[test]
fn region_type_names() {
    assert_eq!(region_type_str(&RegionType::Table), "table");
    assert_eq!(region_type_str(&RegionType::Formula), "formula");
    assert_eq!(region_type_str(&RegionType::Image), "image");
    assert_eq!(region_type_str(&RegionType::Paragraph), "paragraph");
    assert_eq!(region_type_str(&RegionType::Heading { level: 2 }), "heading");
}

fn sorted(pages: std::collections::HashSet<u32>) -> Vec<u32> {
    let mut v: Vec<u32> = pages.into_iter().collect();
    v.sort();
    v
}

#[test]
fn joined_page_specs_select_the_union() {
    let a = "1,3-5";
    let b = "4-6, 9";
    let joined_ab = sorted(parse_page_spec(&format!("{},{}", a, b)).unwrap());
    let joined_ba = sorted(parse_page_spec(&format!("{},{}", b, a)).unwrap());
    assert_eq!(joined_ab, vec![1, 3, 4, 5, 6, 9]);
    assert_eq!(joined_ab, joined_ba);
}

/// Decode the body of a JSON string literal (test helper).
fn decode_json_string(s: &str) -> String {
    let chars: Vec<char> = s.chars().collect();
    let mut out = String::new();
    let mut k = 0;
    while k < chars.len() {
        if chars[k] != '\\' {
            out.push(chars[k]);
            k += 1;
            continue;
        }
        match chars[k + 1] {
            'n' => out.push('\n'),
            'r' => out.push('\r'),
            't' => out.push('\t'),
            'b' => out.push('\x08'),
            'f' => out.push('\x0C'),
            '"' => out.push('"'),
            '\\' => out.push('\\'),
            '/' => out.push('/'),
            'u' => {
                let hex: String = chars[k + 2..k + 6].iter().collect();
                out.push(char::from_u32(u32::from_str_radix(&hex, 16).unwrap()).unwrap());
                k += 4;
            }
            c => panic!("bad escape {}", c),
        }
        k += 2;
    }
    out
}

#[test]
fn json_escape_round_trips() {
    let samples = ["plain", "a\"b\\c", "tab\there\nnew", "\x00\x01\x1f\x7f", "é ∑ 😀", ""];
    for s in samples {
        assert_eq!(decode_json_string(&json_escape(s)), s);
    }
    let all: String = (0u8..128).map(|b| b as char).collect();
    assert_eq!(decode_json_string(&json_escape(&all)), all);
}

use grading::models::Student;
use grading::students::search_students;
use grading::text::{
    digits_only, is_blank, parse_u32, parse_u32_detailed, text_contains, trim_text, u32_to_text, usize_to_text,
    IntParseProblem,
};

#[test]
fn trim_removes_unicode_whitespace_at_both_ends() {
    assert_eq!(trim_text("  a b \u{3000}\t"), "a b");
    assert_eq!(trim_text("\u{2028}x"), "x");
    assert_eq!(trim_text("   "), "");
    assert_eq!(trim_text("inner  space"), "inner  space");
}

#[test]
fn trim_twice_is_trim_once() {
    let once = trim_text(" \u{a0} value \n");
    assert_eq!(trim_text(&once), once);
}

#[test]
fn blank_text_is_whitespace_only() {
    assert!(is_blank(""));
    assert!(is_blank(" \t\n\u{3000}"));
    assert!(!is_blank("  x "));
}

#[test]
fn parse_u32_follows_std() {
    let cases = ["42", "+7", "+", "", "-1", "4294967295", "4294967296", "12a", "007", " 1", "++1"];
    for c in cases {
        assert_eq!(parse_u32(c), c.parse::<u32>().ok(), "input {:?}", c);
    }
}

#[test]
fn decimal_text_of_numbers() {
    assert_eq!(u32_to_text(0), "0");
    assert_eq!(u32_to_text(1234), "1234");
    assert_eq!(u32_to_text(u32::MAX), "4294967295");
    assert_eq!(usize_to_text(305), "305");
}

#[test]
fn decimal_text_parses_back() {
    for n in [0u32, 9, 10, 99, 100, 65535, u32::MAX] {
        assert_eq!(parse_u32(&u32_to_text(n)), Some(n));
    }
}

#[test]
fn digits_only_drops_everything_else() {
    let d: String = digits_only("a1b2-3 ４").into_iter().collect();
    assert_eq!(d, "123");
}

#[test]
fn substring_search() {
    assert!(text_contains("abcdef", "cde"));
    assert!(text_contains("abc", ""));
    assert!(!text_contains("ab", "abc"));
    assert!(!text_contains("abcdef", "ce"));
    assert!(text_contains("山田太郎", "太郎"));
}

#[test]
fn search_compares_ids_in_unicode_upper_case() {
    let roster = vec![Student { id: "straße-1".into(), name: String::new() }];
    assert_eq!(search_students(&roster, "STRASSE").len(), 1);
    assert_eq!(search_students(&roster, "ss").len(), 1);
    assert_eq!(search_students(&roster, "ß").len(), 1);
    assert_eq!(search_students(&roster, "x").len(), 0);
}

#[test]
fn trimmed_text_keeps_non_ascii_characters_in_order() {
    assert_eq!(trim_text(" xé1 "), "xé1");
}

#[test]
fn detailed_parse_gives_the_std_error_text() {
    let cases = [
        "", "+", "-", "0", "+7", "-7", "++7", "12a", "a12", "4294967295", "4294967296", "99999999999x",
        "00004294967295", " 1", "1 ", "\u{663}",
    ];
    for c in cases {
        match (parse_u32_detailed(c), c.parse::<u32>()) {
            (Ok(v), Ok(w)) => assert_eq!(v, w, "input {:?}", c),
            (Err(p), Err(e)) => assert_eq!(p.message(), e.to_string(), "input {:?}", c),
            (a, b) => panic!("input {:?}: {:?} against {:?}", c, a, b),
        }
    }
    assert_eq!(parse_u32_detailed(""), Err(IntParseProblem::Empty));
    assert_eq!(parse_u32_detailed("+"), Err(IntParseProblem::InvalidDigit));
    assert_eq!(parse_u32_detailed("4294967296"), Err(IntParseProblem::PosOverflow));
    assert_eq!(parse_u32_detailed("+4294967295"), Ok(u32::MAX));
}

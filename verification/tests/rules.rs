use lsystem::rule::read_rule;
use lsystem::text::{chars_of, is_whitespace, string_of, trim_range};

#[test]
fn whitespace_is_what_std_calls_whitespace() {
    for n in 0u32..=0x10FFFF {
        if let Some(c) = char::from_u32(n) {
            assert_eq!(is_whitespace(c), c.is_whitespace(), "U+{:04X}", n);
        }
    }
}

#[test]
fn whitespace_samples() {
    assert!(is_whitespace(' '));
    assert!(is_whitespace('\t'));
    assert!(is_whitespace('\n'));
    assert!(is_whitespace('\u{3000}'));
    assert!(!is_whitespace('0'));
    assert!(!is_whitespace('-'));
    assert!(!is_whitespace('\u{200B}'));
}

#[test]
fn chars_of_keeps_every_character() {
    assert_eq!(chars_of("a\u{e9}-> "), vec!['a', '\u{e9}', '-', '>', ' ']);
    assert_eq!(chars_of(""), Vec::<char>::new());
}

#[test]
fn string_of_takes_the_range() {
    let v = vec!['a', 'b', '\u{4e2d}', 'd'];
    assert_eq!(string_of(&v, 1, 3), "b\u{4e2d}");
    assert_eq!(string_of(&v, 0, 4), "ab\u{4e2d}d");
    assert_eq!(string_of(&v, 2, 2), "");
}

#[test]
fn trim_range_matches_std_trim() {
    let samples = ["  ab c \t", "abc", "", "   ", " a", "a ", "\u{a0}x\u{2003}y\u{85}"];
    for s in samples {
        let v = chars_of(s);
        let (a, b) = trim_range(&v, 0, v.len());
        assert_eq!(string_of(&v, a, b), s.trim());
    }
}

#[test]
fn trim_range_stays_inside_its_bounds() {
    let v = chars_of("x  ab  y");
    assert_eq!(trim_range(&v, 1, 7), (3, 5));
    assert_eq!(trim_range(&v, 1, 3), (3, 3));
    assert_eq!(trim_range(&v, 0, 8), (0, 8));
}

#[test]
fn reads_a_plain_rule() {
    let rule = read_rule("0 -> 1[0]0").expect("a rule");
    assert_eq!(rule.from, '0');
    assert_eq!(rule.to, "1[0]0");
}

#[test]
fn reads_a_rule_without_blanks() {
    let rule = read_rule("1->11").expect("a rule");
    assert_eq!(rule.from, '1');
    assert_eq!(rule.to, "11");
}

#[test]
fn reads_only_the_first_symbol_of_the_left_side() {
    let rule = read_rule("  xyz  ->  q  ").expect("a rule");
    assert_eq!(rule.from, 'x');
    assert_eq!(rule.to, "q");
}

#[test]
fn reads_an_empty_replacement() {
    let rule = read_rule("a ->").expect("a rule");
    assert_eq!(rule.from, 'a');
    assert_eq!(rule.to, "");
    let rule = read_rule("a->->b").expect("a rule");
    assert_eq!(rule.to, "");
}

#[test]
fn replacement_stops_at_the_next_separator() {
    let rule = read_rule("a -> b c -> d -> e").expect("a rule");
    assert_eq!(rule.from, 'a');
    assert_eq!(rule.to, "b c");
}

#[test]
fn a_dash_may_be_the_symbol() {
    let rule = read_rule("-->>").expect("a rule");
    assert_eq!(rule.from, '-');
    assert_eq!(rule.to, ">");
}

#[test]
fn text_without_separator_is_no_rule() {
    assert!(read_rule("").is_none());
    assert!(read_rule("0").is_none());
    assert!(read_rule("0 - > 1").is_none());
    assert!(read_rule("0 > 1").is_none());
    assert!(read_rule("0 => 1").is_none());
    assert!(read_rule("-").is_none());
    assert!(read_rule(">-").is_none());
}

#[test]
fn text_with_blank_left_side_is_no_rule() {
    assert!(read_rule("-> 1").is_none());
    assert!(read_rule("   -> 1").is_none());
    assert!(read_rule("\t\u{a0}->").is_none());
    assert!(read_rule("->").is_none());
}

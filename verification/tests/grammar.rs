use lsystem::grammar::G;

fn plant() -> G {
    G::new("0, 1, [, ]", "0", vec!["1 -> 11", "0 -> 1[0]0"])
}

#[test]
fn plant_first_two_generations() {
    let mut g = plant();
    assert_eq!(g.current_generation(), "0");
    assert_eq!(g.generation_count(), 0);
    g.next_generation();
    assert_eq!(g.current_generation(), "1[0]0");
    assert_eq!(g.generation_count(), 1);
    g.next_generation();
    assert_eq!(g.current_generation(), "11[1[0]0]1[0]0");
    assert_eq!(g.generation_count(), 2);
}

#[test]
fn plant_third_generation() {
    let mut g = plant();
    assert_eq!(g.advance_by(3), "1111[11[1[0]0]1[0]0]11[1[0]0]1[0]0");
}

#[test]
fn advance_by_is_repeated_next_generation() {
    for n in 0u8..7 {
        let mut stepped = plant();
        for _ in 0..n {
            stepped.next_generation();
        }
        let mut advanced = plant();
        let word = advanced.advance_by(n).clone();
        assert_eq!(&word, stepped.current_generation());
        assert_eq!(advanced.current_generation(), stepped.current_generation());
        assert_eq!(advanced.generation_count(), stepped.generation_count());
        assert_eq!(advanced.generation_count(), n as usize);
    }
}

#[test]
fn advance_by_adds_up() {
    let mut twice = plant();
    twice.advance_by(2);
    twice.advance_by(3);
    let mut once = plant();
    once.advance_by(5);
    assert_eq!(twice.current_generation(), once.current_generation());
    assert_eq!(twice.generation_count(), 5);
}

#[test]
fn advance_by_zero_changes_nothing() {
    let mut g = plant();
    assert_eq!(g.advance_by(0), "0");
    assert_eq!(g.generation_count(), 0);
    g.next_generation();
    assert_eq!(g.advance_by(0), "1[0]0");
    assert_eq!(g.current_generation(), "1[0]0");
    assert_eq!(g.generation_count(), 1);
}

#[test]
fn word_never_shrinks_without_erasing_rules() {
    let mut g = G::new("a, b", "abba c", vec!["a -> b", "b -> ab", "c -> c"]);
    let mut len = g.current_generation().chars().count();
    for _ in 0..8 {
        g.next_generation();
        let next = g.current_generation().chars().count();
        assert!(next >= len);
        len = next;
    }
}

#[test]
fn erasing_rule_shrinks_the_word() {
    let mut g = G::new("a, b", "bab", vec!["a ->"]);
    g.next_generation();
    assert_eq!(g.current_generation(), "bb");
}

#[test]
fn malformed_rules_never_match() {
    let rules = vec!["no separator", " -> x", "-> y", "0 > 2", "0 - > 3", "0 -> 1"];
    let mut g = G::new("", "0 a-no", rules);
    g.next_generation();
    assert_eq!(g.current_generation(), "1 a-no");

    let mut with = G::new("", "0n 0", vec!["n", "0 -> 1[0]0", "", "   "]);
    let mut without = G::new("", "0n 0", vec!["0 -> 1[0]0"]);
    for _ in 0..3 {
        with.next_generation();
        without.next_generation();
        assert_eq!(with.current_generation(), without.current_generation());
    }
}

#[test]
fn unmatched_symbols_stay() {
    let mut g = G::new("", "x[y]z", vec!["0 -> 1"]);
    g.next_generation();
    assert_eq!(g.current_generation(), "x[y]z");
    assert_eq!(g.generation_count(), 1);
}

#[test]
fn no_rules_no_change() {
    let mut g = G::new("", "0110", vec![]);
    assert_eq!(g.advance_by(4), "0110");
    assert_eq!(g.generation_count(), 4);
}

#[test]
fn empty_word_stays_empty() {
    let mut g = G::new("", "", vec!["0 -> 1"]);
    g.next_generation();
    assert_eq!(g.current_generation(), "");
}

#[test]
fn first_matching_rule_wins() {
    let mut g = G::new("", "0x0", vec!["0 -> a", "0 -> b", "x -> 0", "0 -> c"]);
    g.next_generation();
    assert_eq!(g.current_generation(), "a0a");
}

#[test]
fn malformed_rule_does_not_shadow_a_later_one() {
    let mut g = G::new("", "0", vec!["0", "0 -> b"]);
    g.next_generation();
    assert_eq!(g.current_generation(), "b");
}

#[test]
fn only_first_symbol_of_left_side_counts() {
    let mut g = G::new("", "01", vec!["01 -> x"]);
    g.next_generation();
    assert_eq!(g.current_generation(), "x1");
}

#[test]
fn replacement_ends_at_second_separator() {
    let mut g = G::new("", "a", vec!["a -> b -> c"]);
    g.next_generation();
    assert_eq!(g.current_generation(), "b");
}

#[test]
fn whitespace_around_tokens_is_trimmed() {
    let mut g = G::new("", "0", vec!["\t  0 \u{a0}->\u{3000} 1 1 \n"]);
    g.next_generation();
    assert_eq!(g.current_generation(), "1 1");
}

#[test]
fn replacements_read_the_word_before_the_rewrite() {
    let mut g = G::new("", "abab", vec!["a -> b", "b -> a"]);
    g.next_generation();
    assert_eq!(g.current_generation(), "baba");
    g.next_generation();
    assert_eq!(g.current_generation(), "abab");
}

#[test]
fn longer_replacements_do_not_disturb_later_positions() {
    let mut g = G::new("", "aba", vec!["a -> xyz", "b -> "]);
    g.next_generation();
    assert_eq!(g.current_generation(), "xyzxyz");
}

#[test]
fn symbols_outside_ascii_are_rewritten_by_position() {
    let mut g = G::new("", "a\u{e9}b", vec!["\u{e9} -> \u{f1}\u{e9}", "b -> \u{4e2d}"]);
    g.next_generation();
    assert_eq!(g.current_generation(), "a\u{f1}\u{e9}\u{4e2d}");
}

#[test]
fn vocabulary_is_not_enforced() {
    let mut g = G::new("only, these", "0", vec!["0 -> zzz"]);
    g.next_generation();
    assert_eq!(g.current_generation(), "zzz");
}

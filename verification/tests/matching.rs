use regex_nfa::parser::parse;
use regex_nfa::state::NFA;

fn automaton(pattern: &str) -> NFA {
    let ctx = parse(pattern);
    let mut nfa = NFA { ..Default::default() };
    nfa.context_to_nfa(&ctx);
    nfa
}

fn check(pattern: &str, cases: &[(&str, bool)]) {
    let nfa = automaton(pattern);
    for (input, expected) in cases {
        assert_eq!(nfa.matches(input), *expected, "pattern {pattern}, input {input:?}");
    }
}

#[test]
fn empty_automaton_accepts_nothing() {
    let nfa = NFA { ..Default::default() };
    assert!(!nfa.matches(""));
    assert!(!nfa.matches("a"));
}

#[test]
fn literals_match_the_whole_input() {
    check("abc", &[("abc", true), ("ab", false), ("abcd", false), ("", false), ("xbc", false)]);
}

#[test]
fn star_takes_any_count() {
    check("ab*c", &[("ac", true), ("abc", true), ("abbbbc", true), ("abd", false), ("bc", false)]);
}

#[test]
fn plus_takes_at_least_one() {
    check("ab+", &[("a", false), ("ab", true), ("abbb", true), ("abba", false)]);
}

#[test]
fn question_takes_at_most_one() {
    check("a?b", &[("b", true), ("ab", true), ("aab", false), ("", false)]);
}

#[test]
fn bounded_count() {
    check("xa{2,3}", &[("xa", false), ("xaa", true), ("xaaa", true), ("xaaaa", false)]);
}

#[test]
fn exact_count() {
    check("a{3}", &[("aa", false), ("aaa", true), ("aaaa", false)]);
}

#[test]
fn open_count() {
    check("a{2,}b", &[("ab", false), ("aab", true), ("aaaaaab", true), ("aaaa", false)]);
}

#[test]
fn zero_bound_still_allows_one_copy() {
    check("ba{0}", &[("b", true), ("ba", true), ("baa", false)]);
}

#[test]
fn bracket_ranges_under_quantifiers() {
    check("[a-c]+[0-9]{2}", &[("abc12", true), ("c00", true), ("abd12", false), ("abc1", false), ("12", false)]);
}

#[test]
fn reversed_range_matches_its_ends() {
    check("[c-a]", &[("a", true), ("b", false), ("c", true), ("d", false)]);
}

#[test]
fn low_bytes_are_ordinary_bytes() {
    check("a", &[("\u{2}", false), ("a\u{2}", false), ("a\u{0}", false)]);
    check("\u{2}", &[("", false), ("\u{2}", true), ("\u{2}\u{2}", false)]);
    check("\u{0}b", &[("b", false), ("\u{0}b", true)]);
    check("x\u{1}", &[("x", false), ("x\u{1}", true)]);
    check("[\u{0}-\u{2}]+", &[("", false), ("\u{1}\u{0}\u{2}", true), ("\u{3}", false)]);
}

#[test]
fn automaton_sizes() {
    let mut nfa = NFA { ..Default::default() };
    let start = nfa.context_to_nfa(&parse("ab"));
    assert_eq!(start, 0);
    assert_eq!(nfa.states.len(), 4);
    let nfa = automaton("a{2,3}");
    assert_eq!(nfa.states.len(), 8);
    let nfa = automaton("a+");
    assert_eq!(nfa.states.len(), 4);
}

#[test]
fn search_begins_at_the_first_entry() {
    let mut nfa = NFA { ..Default::default() };
    let first = nfa.context_to_nfa(&parse("a"));
    let second = nfa.context_to_nfa(&parse("b"));
    assert_eq!(first, 0);
    assert_eq!(second, 2);
    assert!(nfa.matches("a"));
    assert!(!nfa.matches("b"));
}

#[test]
fn email_automaton_on_a_short_address() {
    check(
        "[a-zA-Z][a-zA-Z0-9_.]+@[a-zA-Z0-9]+.[a-zA-Z]{2,}",
        &[("ab@cd.ef", true), ("a@cd.ef", false), ("ab@cd.e", false)],
    );
}

#[test]
fn plain_pattern_matches_only_itself() {
    check(
        "user.name@host",
        &[("user.name@host", true), ("userxname@host", false), ("user.name@hos", false), ("user.name@hostt", false)],
    );
}

#[test]
fn group_reads_its_tokens_in_turn() {
    // The pattern parses into the group, its body again and a literal `)`.
    check("(ab)c", &[("abab)c", true), ("abc", false), ("ab)c", false)]);
}

#[test]
fn nested_groups_open_in_order() {
    check("x((a))", &[("xaaaa))", true), ("xa", false), ("xaaa))", false)]);
}

#[test]
fn quantifier_after_a_group_applies_to_the_closing_byte() {
    check("(a)+", &[("aa)", true), ("aa)))", true), ("aa", false)]);
}

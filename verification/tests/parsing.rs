use regex_nfa::parser::{parse, process_general, try_parse, ParseContext};
use regex_nfa::state::{token_buildable, tokens_buildable};
use regex_nfa::token::{Token, TokenType, TokenValue};

fn literal_byte(t: &Token) -> u8 {
    assert_eq!(t.token_type, TokenType::Literal);
    match &t.value {
        TokenValue::Char(c) => *c,
        other => panic!("not a literal payload: {:?}", other),
    }
}

fn members(t: &Token) -> &Vec<bool> {
    assert_eq!(t.token_type, TokenType::Bracket);
    match &t.value {
        TokenValue::Members(m) => m,
        other => panic!("not a bracket payload: {:?}", other),
    }
}

fn bounds(t: &Token) -> (i8, i8, &Token) {
    assert_eq!(t.token_type, TokenType::Repeat);
    match &t.value {
        TokenValue::Repeat(p) => (p.min, p.max, &p.token),
        other => panic!("not a quantifier payload: {:?}", other),
    }
}

fn sub_tokens(t: &Token) -> &Vec<Token> {
    match &t.value {
        TokenValue::Tokens(v) => v,
        other => panic!("not a token list: {:?}", other),
    }
}

#[test]
fn literals_give_one_token_each() {
    let ctx = parse("abc");
    assert_eq!(ctx.tokens.len(), 3);
    assert_eq!(literal_byte(&ctx.tokens[0]), b'a');
    assert_eq!(literal_byte(&ctx.tokens[1]), b'b');
    assert_eq!(literal_byte(&ctx.tokens[2]), b'c');
    assert_eq!(ctx.pos, 3);
}

#[test]
fn bracket_range_holds_every_byte_between() {
    let ctx = parse("[a-c]");
    assert_eq!(ctx.tokens.len(), 1);
    let m = members(&ctx.tokens[0]);
    assert_eq!(m.len(), 256);
    for b in 0..256usize {
        let expected = b == b'a' as usize || b == b'b' as usize || b == b'c' as usize;
        assert_eq!(m[b], expected, "byte {b}");
    }
}

#[test]
fn bracket_range_in_reverse_order_holds_its_ends() {
    let ctx = parse("[z-x]");
    let m = members(&ctx.tokens[0]);
    assert!(m[b'x' as usize] && m[b'z' as usize]);
    assert!(!m[b'y' as usize] && !m[b'w' as usize] && !m[b'-' as usize]);
}

#[test]
fn bracket_chain_holds_its_bytes() {
    let ctx = parse("[a-c-e]");
    let m = members(&ctx.tokens[0]);
    let count = m.iter().filter(|x| **x).count();
    assert_eq!(count, 3);
    assert!(m[b'a' as usize] && m[b'c' as usize] && m[b'e' as usize]);
    assert!(!m[b'b' as usize] && !m[b'd' as usize]);
}

#[test]
fn bracket_single_bytes_and_ranges() {
    let ctx = parse("[_0-2.]");
    let m = members(&ctx.tokens[0]);
    let count = m.iter().filter(|x| **x).count();
    assert_eq!(count, 5);
    for b in [b'_', b'0', b'1', b'2', b'.'] {
        assert!(m[b as usize]);
    }
}

#[test]
fn star_plus_and_question_bounds() {
    for (pattern, min, max) in [("a*", 0i8, -1i8), ("a+", 1, -1), ("a?", 0, 1)] {
        let ctx = parse(pattern);
        assert_eq!(ctx.tokens.len(), 1, "{pattern}");
        let (lo, hi, inner) = bounds(&ctx.tokens[0]);
        assert_eq!((lo, hi), (min, max), "{pattern}");
        assert_eq!(literal_byte(inner), b'a');
    }
}

#[test]
fn braces_give_their_bounds() {
    for (pattern, min, max) in [("a{2,}", 2i8, -1i8), ("a{1,3}", 1, 3), ("a{4}", 4, 4), ("a{-1}", -1, -1), ("a{+7}", 7, 7)] {
        let ctx = parse(pattern);
        let (lo, hi, _) = bounds(&ctx.tokens[0]);
        assert_eq!((lo, hi), (min, max), "{pattern}");
    }
}

#[test]
fn quantifier_applies_to_the_last_token() {
    let ctx = parse("ab+");
    assert_eq!(ctx.tokens.len(), 2);
    assert_eq!(literal_byte(&ctx.tokens[0]), b'a');
    let (_, _, inner) = bounds(&ctx.tokens[1]);
    assert_eq!(literal_byte(inner), b'b');
}

#[test]
fn group_then_its_body_again() {
    let ctx = parse("(a)");
    assert_eq!(ctx.tokens.len(), 3);
    assert_eq!(ctx.tokens[0].token_type, TokenType::Group);
    let inner = sub_tokens(&ctx.tokens[0]);
    assert_eq!(inner.len(), 1);
    assert_eq!(literal_byte(&inner[0]), b'a');
    assert_eq!(literal_byte(&ctx.tokens[1]), b'a');
    assert_eq!(literal_byte(&ctx.tokens[2]), b')');
}

#[test]
fn bar_at_the_end_makes_an_or() {
    let ctx = parse("ab|");
    assert_eq!(ctx.tokens.len(), 1);
    assert_eq!(ctx.tokens[0].token_type, TokenType::Or);
    let alts = sub_tokens(&ctx.tokens[0]);
    assert_eq!(alts.len(), 2);
    assert_eq!(alts[0].token_type, TokenType::GroupUncaptured);
    assert_eq!(alts[1].token_type, TokenType::GroupUncaptured);
    assert_eq!(sub_tokens(&alts[0]).len(), 2);
    assert_eq!(sub_tokens(&alts[1]).len(), 0);
}

#[test]
fn patterns_that_cannot_be_read() {
    for pattern in ["*a", "{2}", "a{x}", "a{1,2,3}", "a{300}", "a{}", "[ab", "(a", "a|b", "[-a]", "[a-"] {
        assert!(try_parse(pattern).is_none(), "{pattern}");
    }
}

#[test]
fn empty_pattern_gives_no_tokens() {
    let ctx = try_parse("").unwrap();
    assert_eq!(ctx.tokens.len(), 0);
    assert_eq!(ctx.pos, 0);
}

#[test]
fn one_step_at_a_time() {
    let mut ctx = ParseContext { ..Default::default() };
    process_general("ab", &mut ctx);
    assert_eq!(ctx.pos, 0);
    assert_eq!(ctx.tokens.len(), 1);
    ctx.pos += 1;
    process_general("ab", &mut ctx);
    assert_eq!(ctx.pos, 1);
    assert_eq!(ctx.tokens.len(), 2);
    assert_eq!(literal_byte(&ctx.tokens[1]), b'b');
}

#[test]
fn step_over_a_bracket_ends_on_its_close() {
    let mut ctx = ParseContext { ..Default::default() };
    process_general("[ab]c", &mut ctx);
    assert_eq!(ctx.pos, 3);
    assert_eq!(ctx.tokens.len(), 1);
}

#[test]
fn buildable_tokens() {
    assert!(tokens_buildable(&parse("a[b-c]+d{2,3}").tokens));
    let ctx = parse("()");
    assert!(!token_buildable(&ctx.tokens[0]));
    assert!(!tokens_buildable(&ctx.tokens));
    assert!(!tokens_buildable(&parse("a{127}").tokens));
    assert!(tokens_buildable(&parse("a{126}").tokens));
}

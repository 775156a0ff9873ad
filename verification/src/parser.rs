use vstd::prelude::*;
use vstd::string::StringSliceAdditionalSpecFns;

use crate::token::{
    RepeatPayload, Token, TokenType, TokenValue, TokenView, ValueView, literal_view,
    repeat_view, tokens_token_view, tokens_view, lemma_tokens_view_push,
    lemma_tokens_view_drop_last,
};

verus! {

pub const OPEN_PAREN: u8 = 40;
pub const CLOSE_PAREN: u8 = 41;
pub const OPEN_BRACKET: u8 = 91;
pub const CLOSE_BRACKET: u8 = 93;
pub const DASH: u8 = 45;
pub const BAR: u8 = 124;
pub const STAR: u8 = 42;
pub const QUESTION: u8 = 63;
pub const PLUS: u8 = 43;
pub const OPEN_BRACE: u8 = 123;
pub const CLOSE_BRACE: u8 = 125;
pub const COMMA: u8 = 44;
pub const DIGIT_ZERO: u8 = 48;
pub const DIGIT_NINE: u8 = 57;

/// The state of a parse: the position of the byte being looked at and the
/// tokens produced so far.
pub struct ParseContext {
    pub pos: usize,
    pub tokens: Vec<Token>,
}

impl Default for ParseContext {
    fn default() -> (ctx: Self)
        ensures
            ctx.pos == 0,
            ctx.tokens@.len() == 0,
    {
        ParseContext { pos: 0, tokens: Vec::new() }
    }
}

// ---------------------------------------------------------------------------
// Mathematical model of the parser
// ---------------------------------------------------------------------------

/// The first index `>= i` at which `s` holds `b`.
pub open spec fn find_from(s: Seq<u8>, i: int, b: u8) -> Option<int>
    decreases s.len() - i,
{
    if !(0 <= i < s.len()) {
        None
    } else if s[i] == b {
        Some(i)
    } else {
        find_from(s, i + 1, b)
    }
}

/// A decimal digit.
pub open spec fn is_digit(b: u8) -> bool {
    DIGIT_ZERO <= b <= DIGIT_NINE
}

/// Every byte of `s` is a decimal digit.
pub open spec fn all_digits(s: Seq<u8>) -> bool {
    forall|i: int| 0 <= i < s.len() ==> is_digit(#[trigger] s[i])
}

/// The decimal value of a sequence of digits.
pub open spec fn digits_value(s: Seq<u8>) -> int
    decreases s.len(),
{
    if s.len() == 0 {
        0
    } else {
        digits_value(s.drop_last()) * 10 + (s.last() - DIGIT_ZERO)
    }
}

/// Reading an `i8` from its decimal text: an optional sign, then at least one
/// digit, and a value in `-128..=127`.
pub open spec fn parse_i8_spec(s: Seq<u8>) -> Option<i8> {
    if s.len() == 0 {
        None
    } else {
        let signed = s[0] == PLUS || s[0] == DASH;
        let d = if signed { s.drop_first() } else { s };
        if d.len() == 0 || !all_digits(d) {
            None
        } else if s[0] == DASH {
            if digits_value(d) <= 128 { Some((-digits_value(d)) as i8) } else { None }
        } else {
            if digits_value(d) <= 127 { Some(digits_value(d) as i8) } else { None }
        }
    }
}

/// The bounds written between `{` and `}`: `n` gives `(n, n)`, `n,` gives
/// `(n, -1)` and `n,m` gives `(n, m)`.
pub open spec fn bounds_spec(s: Seq<u8>) -> Option<(i8, i8)> {
    match find_from(s, 0, COMMA) {
        None => match parse_i8_spec(s) {
            Some(v) => Some((v, v)),
            None => None,
        },
        Some(k) => {
            let a = s.subrange(0, k);
            let b = s.subrange(k + 1, s.len() as int);
            if find_from(b, 0, COMMA) is Some {
                None
            } else {
                match parse_i8_spec(a) {
                    None => None,
                    Some(lo) => if b.len() == 0 {
                        Some((lo, -1i8))
                    } else {
                        match parse_i8_spec(b) {
                            Some(hi) => Some((lo, hi)),
                            None => None,
                        }
                    },
                }
            }
        },
    }
}

/// One element of a bracket expression: a single byte, or the bytes joined
/// by `-`. It holds each of its bytes; a pair `a-b` written in rising order
/// also holds every byte between `a` and `b`.
pub open spec fn item_has(item: Seq<u8>, x: u8) -> bool {
    ||| item.contains(x)
    ||| (item.len() == 2 && item[0] <= x && x <= item[1])
}

/// One of the elements of a bracket expression holds `x`.
pub open spec fn items_have(items: Seq<Seq<u8>>, x: u8) -> bool {
    exists|i: int| 0 <= i < items.len() && item_has(#[trigger] items[i], x)
}

/// The membership table of a bracket expression.
pub open spec fn members_of(items: Seq<Seq<u8>>) -> Seq<bool> {
    Seq::new(256, |b: int| items_have(items, b as u8))
}

/// Reading the body of a bracket expression from `q` up to the closing `]`:
/// the elements read and the position of the `]`.
pub open spec fn bracket_spec(r: Seq<u8>, q: int, items: Seq<Seq<u8>>) -> Option<(Seq<Seq<u8>>, int)>
    decreases r.len() + 1 - q,
{
    if !(0 <= q < r.len()) {
        None
    } else if r[q] == CLOSE_BRACKET {
        Some((items, q))
    } else if r[q] == DASH {
        if q + 1 >= r.len() || items.len() == 0 {
            None
        } else {
            bracket_spec(r, q + 2, items.drop_last().push(items.last().push(r[q + 1])))
        }
    } else {
        bracket_spec(r, q + 1, items.push(seq![r[q]]))
    }
}

/// The token of a bracket expression with the elements `items`.
pub open spec fn bracket_view(items: Seq<Seq<u8>>) -> TokenView {
    TokenView { kind: TokenType::Bracket, value: ValueView::Members(members_of(items)) }
}

/// One step of the parser at position `p` with tokens `toks`: the new position
/// and the new tokens, or `None` where parsing cannot go on (a missing closing
/// byte, a quantifier with nothing before it, bad bounds, or a `|` that is
/// followed by anything but `)` or the end).
pub open spec fn process_spec(r: Seq<u8>, p: int, toks: Seq<TokenView>) -> Option<(int, Seq<TokenView>)>
    decreases r.len() - p, 1int,
{
    if !(0 <= p < r.len()) {
        None
    } else {
        let c = r[p];
        if c == OPEN_PAREN {
            match group_spec(r, p + 1, Seq::empty()) {
                Some((g, _)) => Some((p, toks.push(tokens_token_view(TokenType::Group, g)))),
                None => None,
            }
        } else if c == OPEN_BRACKET {
            match bracket_spec(r, p + 1, Seq::empty()) {
                Some((items, e)) => Some((e, toks.push(bracket_view(items)))),
                None => None,
            }
        } else if c == BAR {
            if p + 1 < r.len() && r[p + 1] != CLOSE_PAREN {
                None
            } else {
                Some(
                    (
                        p + 1,
                        seq![
                            tokens_token_view(
                                TokenType::Or,
                                seq![
                                    tokens_token_view(TokenType::GroupUncaptured, toks),
                                    tokens_token_view(TokenType::GroupUncaptured, Seq::empty()),
                                ],
                            ),
                        ],
                    ),
                )
            }
        } else if c == STAR || c == QUESTION || c == PLUS {
            if toks.len() == 0 {
                None
            } else {
                let (min, max) = if c == STAR {
                    (0i8, -1i8)
                } else if c == QUESTION {
                    (0i8, 1i8)
                } else {
                    (1i8, -1i8)
                };
                Some((p, toks.drop_last().push(repeat_view(min, max, toks.last()))))
            }
        } else if c == OPEN_BRACE {
            match find_from(r, p, CLOSE_BRACE) {
                None => None,
                Some(e) => match bounds_spec(r.subrange(p + 1, e)) {
                    None => None,
                    Some((min, max)) => if toks.len() == 0 {
                        None
                    } else {
                        Some((e, toks.drop_last().push(repeat_view(min, max, toks.last()))))
                    },
                },
            }
        } else {
            Some((p, toks.push(literal_view(c))))
        }
    }
}

/// The tokens of a group whose body starts at `q`, read up to the first `)`
/// met at the group's own level, and the position of that `)`.
pub open spec fn group_spec(r: Seq<u8>, q: int, toks: Seq<TokenView>) -> Option<(Seq<TokenView>, int)>
    decreases r.len() + 1 - q, 0int,
{
    if !(0 <= q < r.len()) {
        None
    } else if r[q] == CLOSE_PAREN {
        Some((toks, q))
    } else {
        match process_spec(r, q, toks) {
            Some((q2, t2)) => if q <= q2 && q2 <= r.len() {
                group_spec(r, q2 + 1, t2)
            } else {
                None
            },
            None => None,
        }
    }
}

/// The whole parse from position `p`: one step at each position, then on to
/// the next one, until the end of the pattern.
pub open spec fn parse_from(r: Seq<u8>, p: int, toks: Seq<TokenView>) -> Option<(int, Seq<TokenView>)>
    decreases r.len() + 1 - p,
{
    if p >= r.len() {
        Some((p, toks))
    } else {
        match process_spec(r, p, toks) {
            Some((q, t)) => if 0 <= p <= q && q <= r.len() && q < usize::MAX {
                parse_from(r, q + 1, t)
            } else {
                None
            },
            None => None,
        }
    }
}

/// The parse of a whole pattern: its final position and its tokens.
pub open spec fn parse_spec(r: Seq<u8>) -> Option<(int, Seq<TokenView>)> {
    parse_from(r, 0, Seq::empty())
}


// ---------------------------------------------------------------------------
// Facts about the model
// ---------------------------------------------------------------------------

/// What `find_from` finds, or that nothing is there.
pub proof fn lemma_find_from(s: Seq<u8>, i: int, b: u8)
    requires
        0 <= i,
    ensures
        match find_from(s, i, b) {
            Some(k) => i <= k < s.len() && s[k] == b && forall|j: int| i <= j < k ==> s[j] != b,
            None => forall|j: int| i <= j < s.len() ==> s[j] != b,
        },
    decreases s.len() - i,
{
    if i < s.len() && s[i] != b {
        lemma_find_from(s, i + 1, b);
    }
}

/// The value of digits is not negative.
pub proof fn lemma_digits_value_nonneg(s: Seq<u8>)
    requires
        all_digits(s),
    ensures
        digits_value(s) >= 0,
    decreases s.len(),
{
    if s.len() > 0 {
        assert(all_digits(s.drop_last()));
        lemma_digits_value_nonneg(s.drop_last());
        assert(is_digit(s[s.len() - 1]));
    }
}

/// A bracket expression ends within the pattern, at or after where it starts.
pub proof fn lemma_bracket_pos(r: Seq<u8>, q: int, items: Seq<Seq<u8>>)
    requires
        0 <= q,
    ensures
        bracket_spec(r, q, items) matches Some((_, e)) ==> q <= e < r.len(),
    decreases r.len() + 1 - q,
{
    if 0 <= q < r.len() && r[q] != CLOSE_BRACKET {
        if r[q] == DASH {
            if !(q + 1 >= r.len() || items.len() == 0) {
                lemma_bracket_pos(r, q + 2, items.drop_last().push(items.last().push(r[q + 1])));
            }
        } else {
            lemma_bracket_pos(r, q + 1, items.push(seq![r[q]]));
        }
    }
}

/// A step of the parser never moves backwards, and stops at the end at most.
pub proof fn lemma_process_pos(r: Seq<u8>, p: int, toks: Seq<TokenView>)
    ensures
        process_spec(r, p, toks) matches Some((q, _)) ==> p <= q <= r.len(),
{
    if 0 <= p < r.len() {
        lemma_bracket_pos(r, p + 1, Seq::empty());
        lemma_find_from(r, p, CLOSE_BRACE);
    }
}

/// One more digit: the value times ten plus the digit.
pub proof fn lemma_digits_push(a: Seq<u8>, c: u8)
    requires
        all_digits(a),
        is_digit(c),
    ensures
        all_digits(a.push(c)),
        digits_value(a.push(c)) == digits_value(a) * 10 + (c - DIGIT_ZERO),
        digits_value(a) >= 0,
{
    lemma_digits_value_nonneg(a);
    assert(a.push(c).drop_last() =~= a);
}

/// The views of a vector of byte vectors.
pub open spec fn vecs_view(v: Seq<Vec<u8>>) -> Seq<Seq<u8>> {
    Seq::new(v.len(), |i: int| v[i]@)
}

// ---------------------------------------------------------------------------
// Executable scanning helpers
// ---------------------------------------------------------------------------

/// The first index from `from` on at which `s` holds `b`.
fn find_in(s: &[u8], from: usize, b: u8) -> (res: Option<usize>)
    ensures
        res matches Some(k) ==> find_from(s@, from as int, b) == Some(k as int),
        res is None ==> find_from(s@, from as int, b) is None,
{
    let mut i = from;
    while i < s.len()
        invariant
            from <= i,
            find_from(s@, i as int, b) == find_from(s@, from as int, b),
        decreases s@.len() - i,
    {
        if s[i] == b {
            return Some(i);
        }
        i += 1;
    }
    None
}

/// The bytes of `s` from `lo` up to `hi`.
fn copy_range(s: &[u8], lo: usize, hi: usize) -> (res: Vec<u8>)
    requires
        lo <= hi <= s@.len(),
    ensures
        res@ == s@.subrange(lo as int, hi as int),
{
    let mut v: Vec<u8> = Vec::new();
    let mut i = lo;
    while i < hi
        invariant
            lo <= i <= hi <= s@.len(),
            v@ == s@.subrange(lo as int, i as int),
        decreases hi - i,
    {
        v.push(s[i]);
        i += 1;
        assert(v@ =~= s@.subrange(lo as int, i as int));
    }
    v
}

/// Reads an `i8` written in decimal, as `str::parse::<i8>` does.
fn parse_i8(s: &[u8]) -> (res: Option<i8>)
    ensures
        res == parse_i8_spec(s@),
{
    let n = s.len();
    if n == 0 {
        return None;
    }
    let signed = s[0] == PLUS || s[0] == DASH;
    let start: usize = if signed { 1 } else { 0 };
    let ghost d = if signed { s@.drop_first() } else { s@ };
    assert(d =~= s@.subrange(start as int, n as int));
    if start >= n {
        return None;
    }
    let mut v: u32 = 0;
    let mut i = start;
    while i < n
        invariant
            start <= i <= n,
            n == s@.len(),
            d == s@.subrange(start as int, n as int),
            n > 0,
            d == (if s@[0] == PLUS || s@[0] == DASH { s@.drop_first() } else { s@ }),
            all_digits(s@.subrange(start as int, i as int)),
            digits_value(s@.subrange(start as int, i as int)) <= 128 ==> v == digits_value(
                s@.subrange(start as int, i as int),
            ),
            digits_value(s@.subrange(start as int, i as int)) > 128 ==> v == 129,
        decreases n - i,
    {
        let c = s[i];
        if !(DIGIT_ZERO <= c && c <= DIGIT_NINE) {
            assert(!is_digit(d[i - start]));
            assert(!all_digits(d));
            return None;
        }
        proof {
            let a = s@.subrange(start as int, i as int);
            assert(s@.subrange(start as int, i + 1) =~= a.push(c));
            lemma_digits_push(a, c);
        }
        if v > 128 {
            v = 129;
        } else {
            let w: u32 = v * 10 + (c - DIGIT_ZERO) as u32;
            v = if w > 128 { 129 } else { w };
        }
        i += 1;
    }
    assert(s@.subrange(start as int, n as int) =~= d);
    if s[0] == DASH {
        if v <= 128 {
            let neg: i32 = -(v as i32);
            Some(neg as i8)
        } else {
            None
        }
    } else {
        if v <= 127 {
            Some(v as i8)
        } else {
            None
        }
    }
}

/// Reads the bounds written between `{` and `}`.
fn bounds_of(s: &[u8]) -> (res: Option<(i8, i8)>)
    ensures
        res == bounds_spec(s@),
{
    match find_in(s, 0, COMMA) {
        None => match parse_i8(s) {
            Some(v) => Some((v, v)),
            None => None,
        },
        Some(k) => {
            proof {
                lemma_find_from(s@, 0, COMMA);
                assert(find_from(s@, 0, COMMA) == Some(k as int));
                assert(k < s@.len());
            }
            let a = copy_range(s, 0, k);
            let n = s.len();
            let b = copy_range(s, k + 1, n);
            if find_in(b.as_slice(), 0, COMMA).is_some() {
                None
            } else {
                match parse_i8(a.as_slice()) {
                    None => None,
                    Some(lo) => if b.len() == 0 {
                        Some((lo, -1i8))
                    } else {
                        match parse_i8(b.as_slice()) {
                            Some(hi) => Some((lo, hi)),
                            None => None,
                        }
                    },
                }
            }
        },
    }
}

/// The element `item` of a bracket expression holds `x`.
fn item_contains(item: &Vec<u8>, x: u8) -> (res: bool)
    ensures
        res == item_has(item@, x),
{
    let n = item.len();
    if n == 2 && item[0] <= x && x <= item[1] {
        return true;
    }
    let mut j: usize = 0;
    while j < n
        invariant
            n == item@.len(),
            j <= n,
            !(n == 2 && item@[0] <= x && x <= item@[1]),
            forall|jj: int| 0 <= jj < j ==> item@[jj] != x,
        decreases n - j,
    {
        if item[j] == x {
            assert(item@.contains(x));
            return true;
        }
        j += 1;
    }
    false
}

/// One of the elements `items` holds `x`.
fn items_contain(items: &Vec<Vec<u8>>, x: u8) -> (res: bool)
    ensures
        res == items_have(vecs_view(items@), x),
{
    let mut i: usize = 0;
    while i < items.len()
        invariant
            forall|ii: int| 0 <= ii < i ==> !item_has(#[trigger] vecs_view(items@)[ii], x),
        decreases items@.len() - i,
    {
        if item_contains(&items[i], x) {
            assert(item_has(vecs_view(items@)[i as int], x));
            return true;
        }
        i += 1;
    }
    false
}

/// The membership table of the elements `items`.
fn members_table(items: &Vec<Vec<u8>>) -> (m: Vec<bool>)
    ensures
        m@ == members_of(vecs_view(items@)),
{
    let mut m: Vec<bool> = Vec::new();
    let mut b: u32 = 0;
    while b < 256
        invariant
            b <= 256,
            m@.len() == b,
            forall|i: int| 0 <= i < b ==> m@[i] == items_have(vecs_view(items@), i as u8),
        decreases 256 - b,
    {
        let has = items_contain(items, b as u8);
        m.push(has);
        b += 1;
    }
    assert(m@ =~= members_of(vecs_view(items@)));
    m
}

/// Reads a bracket expression whose body starts at `q0`.
fn bracket_at(r: &[u8], q0: usize) -> (res: Option<(Vec<bool>, usize)>)
    requires
        q0 <= r@.len(),
    ensures
        match bracket_spec(r@, q0 as int, Seq::empty()) {
            Some((items, e)) => res matches Some((m, e2)) && e2 == e && m@ == members_of(items),
            None => res is None,
        },
{
    let mut items: Vec<Vec<u8>> = Vec::new();
    let mut q = q0;
    assert(vecs_view(items@) =~= Seq::<Seq<u8>>::empty());
    loop
        invariant
            q <= r@.len(),
            bracket_spec(r@, q as int, vecs_view(items@)) == bracket_spec(
                r@,
                q0 as int,
                Seq::empty(),
            ),
        decreases r@.len() + 1 - q,
    {
        if q >= r.len() {
            return None;
        }
        let c = r[q];
        if c == CLOSE_BRACKET {
            let m = members_table(&items);
            return Some((m, q));
        }
        if c == DASH {
            if q + 1 >= r.len() || items.len() == 0 {
                return None;
            }
            let ghost old_items = vecs_view(items@);
            let next = r[q + 1];
            let mut last = match items.pop() {
                Some(v) => v,
                None => Vec::new(),
            };
            last.push(next);
            items.push(last);
            assert(vecs_view(items@) =~= old_items.drop_last().push(old_items.last().push(next)));
            q = q + 2;
        } else {
            let ghost old_items = vecs_view(items@);
            let mut one: Vec<u8> = Vec::new();
            one.push(c);
            items.push(one);
            assert(vecs_view(items@) =~= old_items.push(seq![c]));
            q = q + 1;
        }
    }
}


// ---------------------------------------------------------------------------
// The parser
// ---------------------------------------------------------------------------

/// One parsing step at position `p` of the pattern `r`, on the tokens `toks`.
/// Returns the new position, or `None` where the model has no next step.
fn process_at(r: &[u8], p: usize, toks: &mut Vec<Token>) -> (res: Option<usize>)
    requires
        p < r@.len(),
    ensures
        res is Some <==> process_spec(r@, p as int, tokens_view(old(toks)@)) is Some,
        res matches Some(q) ==> process_spec(r@, p as int, tokens_view(old(toks)@)) == Some(
            (q as int, tokens_view(final(toks)@)),
        ),
    decreases r@.len() - p, 1int,
{
    let ghost old_view = tokens_view(toks@);
    let c = r[p];
    if c == OPEN_PAREN {
        match group_at(r, p + 1) {
            None => None,
            Some((g, _)) => {
                let tok = Token { token_type: TokenType::Group, value: TokenValue::Tokens(g) };
                proof {
                    lemma_tokens_view_push(toks@, tok);
                }
                toks.push(tok);
                Some(p)
            },
        }
    } else if c == OPEN_BRACKET {
        match bracket_at(r, p + 1) {
            None => None,
            Some((m, e)) => {
                let tok = Token { token_type: TokenType::Bracket, value: TokenValue::Members(m) };
                proof {
                    lemma_tokens_view_push(toks@, tok);
                }
                toks.push(tok);
                Some(e)
            },
        }
    } else if c == BAR {
        if p + 1 < r.len() && r[p + 1] != CLOSE_PAREN {
            return None;
        }
        let mut left_toks: Vec<Token> = Vec::new();
        std::mem::swap(&mut left_toks, toks);
        let left = Token { token_type: TokenType::GroupUncaptured, value: TokenValue::Tokens(left_toks) };
        let right = Token {
            token_type: TokenType::GroupUncaptured,
            value: TokenValue::Tokens(Vec::new()),
        };
        let mut pair: Vec<Token> = Vec::new();
        proof {
            assert(tokens_view(Seq::<Token>::empty()) =~= Seq::<TokenView>::empty());
            lemma_tokens_view_push(pair@, left);
        }
        pair.push(left);
        proof {
            lemma_tokens_view_push(pair@, right);
        }
        pair.push(right);
        let or_tok = Token { token_type: TokenType::Or, value: TokenValue::Tokens(pair) };
        proof {
            lemma_tokens_view_push(toks@, or_tok);
            assert(tokens_view(pair@) =~= seq![
                tokens_token_view(TokenType::GroupUncaptured, old_view),
                tokens_token_view(TokenType::GroupUncaptured, Seq::empty()),
            ]);
        }
        toks.push(or_tok);
        proof {
            assert(tokens_view(toks@) =~= seq![
                tokens_token_view(
                    TokenType::Or,
                    seq![
                        tokens_token_view(TokenType::GroupUncaptured, old_view),
                        tokens_token_view(TokenType::GroupUncaptured, Seq::empty()),
                    ],
                ),
            ]);
        }
        Some(p + 1)
    } else if c == STAR || c == QUESTION || c == PLUS {
        if toks.len() == 0 {
            return None;
        }
        let (min, max): (i8, i8) = if c == STAR {
            (0, -1)
        } else if c == QUESTION {
            (0, 1)
        } else {
            (1, -1)
        };
        proof {
            lemma_tokens_view_drop_last(toks@);
        }
        let last = match toks.pop() {
            Some(t) => t,
            None => { return None; },
        };
        let tok = Token {
            token_type: TokenType::Repeat,
            value: TokenValue::Repeat(Box::new(RepeatPayload { min, max, token: last })),
        };
        proof {
            lemma_tokens_view_push(toks@, tok);
        }
        toks.push(tok);
        Some(p)
    } else if c == OPEN_BRACE {
        let e = match find_in(r, p, CLOSE_BRACE) {
            Some(e) => e,
            None => { return None; },
        };
        proof {
            lemma_find_from(r@, p as int, CLOSE_BRACE);
        }
        let inner = copy_range(r, p + 1, e);
        match bounds_of(inner.as_slice()) {
            None => None,
            Some((min, max)) => {
                if toks.len() == 0 {
                    return None;
                }
                proof {
                    lemma_tokens_view_drop_last(toks@);
                }
                let last = match toks.pop() {
                    Some(t) => t,
                    None => { return None; },
                };
                let tok = Token {
                    token_type: TokenType::Repeat,
                    value: TokenValue::Repeat(Box::new(RepeatPayload { min, max, token: last })),
                };
                proof {
                    lemma_tokens_view_push(toks@, tok);
                }
                toks.push(tok);
                Some(e)
            },
        }
    } else {
        let tok = Token { token_type: TokenType::Literal, value: TokenValue::Char(c) };
        proof {
            lemma_tokens_view_push(toks@, tok);
        }
        toks.push(tok);
        Some(p)
    }
}

/// The tokens of a group whose body starts at `q0`.
fn group_at(r: &[u8], q0: usize) -> (res: Option<(Vec<Token>, usize)>)
    requires
        q0 <= r@.len(),
    ensures
        res is Some <==> group_spec(r@, q0 as int, Seq::empty()) is Some,
        res matches Some((g, e)) ==> group_spec(r@, q0 as int, Seq::empty()) == Some(
            (tokens_view(g@), e as int),
        ),
    decreases r@.len() + 1 - q0, 0int,
{
    let mut toks: Vec<Token> = Vec::new();
    let mut q = q0;
    assert(tokens_view(toks@) =~= Seq::<TokenView>::empty());
    loop
        invariant
            q0 <= q <= r@.len(),
            group_spec(r@, q as int, tokens_view(toks@)) == group_spec(
                r@,
                q0 as int,
                Seq::empty(),
            ),
        decreases r@.len() + 1 - q,
    {
        if q >= r.len() {
            return None;
        }
        if r[q] == CLOSE_PAREN {
            return Some((toks, q));
        }
        let ghost before = tokens_view(toks@);
        proof {
            lemma_process_pos(r@, q as int, before);
        }
        match process_at(r, q, &mut toks) {
            None => {
                return None;
            },
            Some(q2) => {
                assert(group_spec(r@, q as int, before) == group_spec(
                    r@,
                    q2 + 1,
                    tokens_view(toks@),
                ));
                if q2 >= r.len() {
                    return None;
                }
                q = q2 + 1;
            },
        }
    }
}

/// One parsing step: looks at the byte at `ctx.pos` and adds what it reads to
/// `ctx.tokens`, moving `ctx.pos` to the last byte it has read.
pub fn process_general(regex: &str, ctx: &mut ParseContext)
    requires
        process_spec(regex.spec_bytes(), old(ctx).pos as int, tokens_view(old(ctx).tokens@)) is Some,
    ensures
        process_spec(regex.spec_bytes(), old(ctx).pos as int, tokens_view(old(ctx).tokens@))
            == Some((final(ctx).pos as int, tokens_view(final(ctx).tokens@))),
        old(ctx).pos <= final(ctx).pos <= regex.spec_bytes().len(),
{
    let r = regex.as_bytes();
    proof {
        lemma_process_pos(r@, ctx.pos as int, tokens_view(ctx.tokens@));
    }
    match process_at(r, ctx.pos, &mut ctx.tokens) {
        Some(q) => {
            ctx.pos = q;
        },
        None => {},
    }
}

/// Parses a whole pattern, or returns `None` where the pattern cannot be read
/// (see `process_spec`).
pub fn try_parse(regex: &str) -> (res: Option<ParseContext>)
    ensures
        res is Some <==> parse_spec(regex.spec_bytes()) is Some,
        res matches Some(ctx) ==> parse_spec(regex.spec_bytes()) == Some(
            (ctx.pos as int, tokens_view(ctx.tokens@)),
        ),
{
    let r = regex.as_bytes();
    let mut ctx = ParseContext { pos: 0, tokens: Vec::new() };
    assert(tokens_view(ctx.tokens@) =~= Seq::<TokenView>::empty());
    loop
        invariant
            r@ == regex.spec_bytes(),
            parse_from(r@, ctx.pos as int, tokens_view(ctx.tokens@)) == parse_spec(r@),
        decreases r@.len() + 1 - ctx.pos,
    {
        if ctx.pos >= r.len() {
            return Some(ctx);
        }
        proof {
            lemma_process_pos(r@, ctx.pos as int, tokens_view(ctx.tokens@));
        }
        match process_at(r, ctx.pos, &mut ctx.tokens) {
            None => {
                return None;
            },
            Some(q) => {
                if q == usize::MAX {
                    return None;
                }
                ctx.pos = q + 1;
            },
        }
    }
}

/// Parses a whole pattern into tokens.
pub fn parse(regex: &str) -> (ctx: ParseContext)
    requires
        parse_spec(regex.spec_bytes()) is Some,
    ensures
        parse_spec(regex.spec_bytes()) == Some((ctx.pos as int, tokens_view(ctx.tokens@))),
{
    match try_parse(regex) {
        Some(ctx) => ctx,
        None => ParseContext { pos: 0, tokens: Vec::new() },
    }
}

} // verus!

use vstd::prelude::*;

use crate::acceptance::law_simple_language;
use crate::language::{block_size, is_atom, is_simple, offset, reads, tokens_match};
use crate::parser::{
    BAR, OPEN_BRACE, OPEN_BRACKET, OPEN_PAREN, PLUS, QUESTION, STAR, parse_from, parse_spec, process_spec,
};
use crate::state::{StateView, accepts, bytes_of, ctx_build};
use crate::token::{TokenView, literal_view};

verus! {

/// A byte that the parser reads as a literal wherever it stands: none of `(`,
/// `[`, `|`, `*`, `?`, `+`, `{`.
pub open spec fn plain_byte(b: u8) -> bool {
    &&& b != OPEN_PAREN
    &&& b != OPEN_BRACKET
    &&& b != BAR
    &&& b != STAR
    &&& b != QUESTION
    &&& b != PLUS
    &&& b != OPEN_BRACE
}

/// One literal token for each byte of `s`.
pub open spec fn literals_of(s: Seq<u8>) -> Seq<TokenView> {
    Seq::new(s.len(), |i: int| literal_view(s[i]))
}

proof fn lemma_parse_literals(r: Seq<u8>, p: int)
    requires
        0 <= p <= r.len(),
        r.len() < usize::MAX,
        forall|i: int| 0 <= i < r.len() ==> plain_byte(#[trigger] r[i]),
    ensures
        parse_from(r, p, literals_of(r.subrange(0, p))) == Some((r.len() as int, literals_of(r))),
    decreases r.len() - p,
{
    let toks = literals_of(r.subrange(0, p));
    if p < r.len() {
        assert(plain_byte(r[p]));
        assert(process_spec(r, p, toks) == Some((p, toks.push(literal_view(r[p])))));
        assert(toks.push(literal_view(r[p])) =~= literals_of(r.subrange(0, p + 1)));
        lemma_parse_literals(r, p + 1);
    } else {
        assert(r.subrange(0, p) =~= r);
    }
}

proof fn lemma_literals_offset(s: Seq<u8>, i: int)
    requires
        0 <= i <= s.len(),
        forall|j: int| 0 <= j < s.len() ==> plain_byte(#[trigger] s[j]),
    ensures
        offset(literals_of(s), i) == 2 * i,
    decreases i,
{
    if i > 0 {
        lemma_literals_offset(s, i - 1);
        assert(plain_byte(s[i - 1]));
        assert(is_atom(literals_of(s)[i - 1]));
        assert(block_size(literals_of(s)[i - 1]) == 2);
    }
}

proof fn lemma_literals_match(s: Seq<u8>, i: int, w: Seq<u8>, p: int)
    requires
        0 <= i <= s.len(),
        0 <= p,
        forall|j: int| 0 <= j < s.len() ==> plain_byte(#[trigger] s[j]),
    ensures
        tokens_match(literals_of(s), i, w, p) == (w.len() - p == s.len() - i && forall|j: int|
            0 <= j < s.len() - i ==> #[trigger] w[p + j] == s[i + j]),
    decreases s.len() - i,
{
    let toks = literals_of(s);
    if i < s.len() {
        lemma_literals_match(s, i + 1, w, p + 1);
        assert(plain_byte(s[i]));
        assert(is_atom(toks[i]));
        let same = w.len() - p == s.len() - i && forall|j: int|
            0 <= j < s.len() - i ==> #[trigger] w[p + j] == s[i + j];
        if tokens_match(toks, i, w, p) {
            let q = choose|q: int| #[trigger] reads(toks[i], w, p, q) && tokens_match(toks, i + 1, w, q);
            assert(q == p + 1);
            assert forall|j: int| 0 <= j < s.len() - i implies #[trigger] w[p + j] == s[i + j] by {
                if j > 0 {
                    assert(w[(p + 1) + (j - 1)] == s[(i + 1) + (j - 1)]);
                }
            }
        }
        if same {
            assert(w[p + 0] == s[i + 0]);
            assert forall|j: int| 0 <= j < s.len() - (i + 1) implies #[trigger] w[(p + 1) + j] == s[(i + 1)
                + j] by {
                assert(w[p + (j + 1)] == s[i + (j + 1)]);
            }
            assert(reads(toks[i], w, p, p + 1));
        }
    }
}

/// A pattern of plain bytes parses into one literal token per byte, and the
/// automaton built for it on an empty one accepts an input exactly when the
/// input is the pattern itself.
pub proof fn law_literal_pattern(r: Seq<u8>, w: Seq<u8>)
    requires
        r.len() >= 1,
        2 * r.len() <= usize::MAX,
        forall|i: int| 0 <= i < r.len() ==> plain_byte(#[trigger] r[i]),
    ensures
        parse_spec(r) == Some((r.len() as int, literals_of(r))),
        accepts(ctx_build(Seq::<StateView>::empty(), literals_of(r)).0, w) == (w == r),
{
    assert(r.subrange(0, 0) =~= Seq::<u8>::empty());
    assert(literals_of(Seq::<u8>::empty()) =~= Seq::<TokenView>::empty());
    lemma_parse_literals(r, 0);
    let toks = literals_of(r);
    assert forall|i: int| 0 <= i < toks.len() implies is_simple(#[trigger] toks[i]) by {
        assert(plain_byte(r[i]));
    }
    lemma_literals_offset(r, r.len() as int);
    law_simple_language(toks, w);
    lemma_literals_match(r, 0, w, 0);
    if w == r {
        assert forall|j: int| 0 <= j < r.len() - 0 implies #[trigger] w[0 + j] == r[0 + j] by {
        }
    }
    if tokens_match(toks, 0, w, 0) {
        assert forall|j: int| 0 <= j < r.len() implies w[j] == r[j] by {
            assert(w[0 + j] == r[0 + j]);
        }
        assert(w =~= r);
    }
}


/// Matching reads each character of the input as its own byte: the automaton
/// for a pattern of plain bytes accepts the bytes read from a text exactly
/// when the text has the pattern's length and each of its characters, cut to
/// its byte, is the pattern's byte at the same place.
pub proof fn law_literal_pattern_text(r: Seq<u8>, text: Seq<char>)
    requires
        r.len() >= 1,
        2 * r.len() <= usize::MAX,
        forall|i: int| 0 <= i < r.len() ==> plain_byte(#[trigger] r[i]),
    ensures
        accepts(ctx_build(Seq::<StateView>::empty(), literals_of(r)).0, bytes_of(text)) == (text.len() == r.len()
            && forall|i: int| 0 <= i < r.len() ==> #[trigger] (text[i] as u8) == r[i]),
{
    let w = bytes_of(text);
    law_literal_pattern(r, w);
    if w == r {
        assert forall|i: int| 0 <= i < r.len() implies #[trigger] (text[i] as u8) == r[i] by {
            assert(w[i] == r[i]);
        }
    }
    if text.len() == r.len() && forall|i: int| 0 <= i < r.len() ==> #[trigger] (text[i] as u8) == r[i] {
        assert(w =~= r);
    }
}

} // verus!

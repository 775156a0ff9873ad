use vstd::prelude::*;

use crate::acceptance::{ext_at, leaf_graph, lemma_leaf_language};
use crate::language::{
    block_ok, block_size, is_atom, is_simple, lemma_block_fits, lemma_block_frame, lemma_block_keep,
    lemma_block_link, lemma_block_size, lemma_build_simple, tokens_match,
};
use crate::state::{
    EPSILON, StateView, accepts, add_edge, build, chain, ctx_build, empty_state, first_start_from,
    law_search_begins_at_entry, wf_token, wf_tokens,
};
use crate::token::{TokenType, TokenView, ValueView};

verus! {

// ---------------------------------------------------------------------------
// Groups of simple tokens
// ---------------------------------------------------------------------------

/// A simple token, or a group (captured or not) of at least one such token,
/// groups nesting to any depth.
pub open spec fn nested_token(t: TokenView) -> bool
    decreases t, 0int,
{
    if is_simple(t) {
        true
    } else {
        match t.kind {
            TokenType::Group | TokenType::GroupUncaptured => match t.value {
                ValueView::Tokens(s) => s.len() >= 1 && nested_tokens(s, s.len() as int),
                _ => false,
            },
            _ => false,
        }
    }
}

/// The first `n` tokens of `s` are simple tokens or groups of them.
pub open spec fn nested_tokens(s: Seq<TokenView>, n: int) -> bool
    decreases s, n,
{
    if n <= 0 || n > s.len() {
        true
    } else {
        nested_tokens(s, n - 1) && nested_token(s[n - 1])
    }
}

/// The simple tokens of `t` in order, groups opened.
pub open spec fn leaves_of(t: TokenView) -> Seq<TokenView>
    decreases t, 0int,
{
    if is_simple(t) {
        seq![t]
    } else {
        match t.value {
            ValueView::Tokens(s) => leaves_seq(s, s.len() as int),
            _ => seq![t],
        }
    }
}

/// The simple tokens of the first `n` tokens of `s` in order, groups opened.
pub open spec fn leaves_seq(s: Seq<TokenView>, n: int) -> Seq<TokenView>
    decreases s, n,
{
    if n <= 0 || n > s.len() {
        Seq::empty()
    } else {
        leaves_seq(s, n - 1) + leaves_of(s[n - 1])
    }
}

/// How many states the fragment for `t` takes: a group takes two states of
/// its own, which nothing reaches, then the fragments of its tokens.
pub open spec fn size_of(t: TokenView) -> int
    decreases t, 0int,
{
    if is_simple(t) {
        block_size(t)
    } else {
        match t.value {
            ValueView::Tokens(s) => 2 + size_seq(s, s.len() as int),
            _ => 2,
        }
    }
}

/// How many states the fragments for the first `n` tokens of `s` take.
pub open spec fn size_seq(s: Seq<TokenView>, n: int) -> int
    decreases s, n,
{
    if n <= 0 || n > s.len() {
        0
    } else {
        size_seq(s, n - 1) + size_of(s[n - 1])
    }
}

/// Where the blocks of the simple tokens of `t` begin, its fragment laid at
/// `base`.
pub open spec fn offs_of(base: int, t: TokenView) -> Seq<int>
    decreases t, 0int,
{
    if is_simple(t) {
        seq![base]
    } else {
        match t.value {
            ValueView::Tokens(s) => offs_seq(base + 2, s, s.len() as int),
            _ => seq![base],
        }
    }
}

/// Where the blocks of the simple tokens of the first `n` tokens of `s`
/// begin, their fragments laid one after the other from `base`.
pub open spec fn offs_seq(base: int, s: Seq<TokenView>, n: int) -> Seq<int>
    decreases s, n,
{
    if n <= 0 || n > s.len() {
        Seq::empty()
    } else {
        offs_seq(base, s, n - 1) + offs_of(base + size_seq(s, n - 1), s[n - 1])
    }
}

/// The blocks of the simple tokens `l`, laid at the offsets `o` one after the
/// other between `lo` and `hi`, each exit going on to the next entry, none
/// accepting.
pub open spec fn leaves_laid(f: Seq<StateView>, l: Seq<TokenView>, o: Seq<int>, lo: int, hi: int) -> bool {
    &&& l.len() == o.len()
    &&& l.len() >= 1
    &&& forall|i: int| 0 <= i < l.len() ==> is_simple(#[trigger] l[i])
    &&& forall|i: int| 0 <= i < l.len() ==> lo <= #[trigger] o[i] && o[i] + block_size(l[i]) <= hi
    &&& forall|i: int, j: int| #![trigger o[i], o[j]] 0 <= i < j < l.len() ==> o[i] + block_size(l[i]) <= o[j]
    &&& forall|i: int| 0 <= i < l.len() ==> block_ok(f, #[trigger] l[i], o[i], ext_at(o, i, l.len() as int), false)
}


/// Each of the first `n` tokens of `s` is a simple token or a group of them.
pub proof fn lemma_nested_tokens(s: Seq<TokenView>, n: int)
    requires
        0 <= n <= s.len(),
        nested_tokens(s, n),
    ensures
        forall|i: int| 0 <= i < n ==> nested_token(#[trigger] s[i]),
    decreases n,
{
    if n > 0 {
        lemma_nested_tokens(s, n - 1);
    }
}

/// A fragment takes at least two states.
pub proof fn lemma_size_of(t: TokenView)
    requires
        nested_token(t),
    ensures
        size_of(t) >= 2,
    decreases t, 0int,
{
    if is_simple(t) {
        lemma_block_size(t);
    } else {
        match t.value {
            ValueView::Tokens(s) => {
                lemma_nested_tokens(s, s.len() as int);
                lemma_size_seq(s, s.len() as int);
            },
            _ => {},
        }
    }
}

/// The fragments of a sequence take no fewer states than those of any of its
/// prefixes.
pub proof fn lemma_size_seq(s: Seq<TokenView>, n: int)
    requires
        0 <= n <= s.len(),
        forall|i: int| 0 <= i < s.len() ==> nested_token(#[trigger] s[i]),
    ensures
        size_seq(s, n) >= 2 * n,
    decreases s, n,
{
    if n > 0 {
        lemma_size_seq(s, n - 1);
        lemma_size_of(s[n - 1]);
    }
}

/// Laying the leaves of a second fragment after those of a first, and joining
/// the exit of the first to the entry of the second.
proof fn lemma_concat_laid(
    s1: Seq<StateView>,
    s2: Seq<StateView>,
    f: Seq<StateView>,
    l1: Seq<TokenView>,
    o1: Seq<int>,
    l2: Seq<TokenView>,
    o2: Seq<int>,
    lo: int,
    e: int,
    to: int,
)
    requires
        0 <= lo,
        leaves_laid(s1, l1, o1, lo, s1.len() as int),
        leaves_laid(s2, l2, o2, s1.len() as int, s2.len() as int),
        s2.len() >= s1.len(),
        forall|i: int| 0 <= i < s1.len() ==> #[trigger] s2[i] == s1[i],
        e == o1.last() + 1,
        to == o2[0],
        f == add_edge(s2, e, EPSILON, to),
    ensures
        leaves_laid(f, l1 + l2, o1 + o2, lo, s2.len() as int),
        f.len() == s2.len(),
{
    let l = l1 + l2;
    let o = o1 + o2;
    let n1 = l1.len() as int;
    let n2 = l2.len() as int;
    let n = l.len() as int;
    let last = n1 - 1;
    assert(o1[last] == o[last]);
    lemma_block_size(l1[last]);
    assert(o1[last] + block_size(l1[last]) <= s1.len());
    assert(0 <= e < s1.len());
    assert(f.len() == s2.len());
    assert forall|idx: int| 0 <= idx < s1.len() && idx != e implies #[trigger] f[idx] == s1[idx] by {
        assert(f[idx] == s2[idx]);
    }
    assert forall|idx: int| 0 <= idx < s2.len() && idx != e implies #[trigger] f[idx] == s2[idx] by {
    }
    assert forall|i: int| 0 <= i < n implies is_simple(#[trigger] l[i]) by {
        if i < n1 {
            assert(l[i] == l1[i]);
        } else {
            assert(l[i] == l2[i - n1]);
        }
    }
    assert(lo <= o1[0]);
    assert forall|i: int| 0 <= i < n implies lo <= #[trigger] o[i] && o[i] + block_size(l[i]) <= s2.len() by {
        if i < n1 {
            assert(l[i] == l1[i] && o[i] == o1[i]);
        } else {
            assert(l[i] == l2[i - n1] && o[i] == o2[i - n1]);
        }
    }
    assert forall|i: int, j: int| #![trigger o[i], o[j]] 0 <= i < j < n implies o[i] + block_size(l[i]) <= o[j] by {
        if j < n1 {
            assert(l[i] == l1[i] && o[i] == o1[i] && o[j] == o1[j]);
        } else if i >= n1 {
            assert(l[i] == l2[i - n1] && o[i] == o2[i - n1] && o[j] == o2[j - n1]);
        } else {
            assert(l[i] == l1[i] && o[i] == o1[i] && o[j] == o2[j - n1]);
        }
    }
    assert forall|i: int| 0 <= i < n implies block_ok(f, #[trigger] l[i], o[i], ext_at(o, i, n), false) by {
        if i < last {
            assert(l[i] == l1[i] && o[i] == o1[i]);
            assert(ext_at(o, i, n) == ext_at(o1, i, n1));
            assert(o1[i] + block_size(l1[i]) <= o1[last]);
            lemma_block_keep(s1, f, l1[i], o1[i], ext_at(o1, i, n1), e);
        } else if i == last {
            assert(l[i] == l1[i] && o[i] == o1[i]);
            assert(ext_at(o1, i, n1) =~= Seq::<usize>::empty());
            lemma_block_keep(s1, s2, l1[i], o1[i], Seq::empty(), -1);
            lemma_block_link(s2, l1[i], o1[i], Seq::empty(), to);
            assert(Seq::<usize>::empty().push(to as usize) =~= ext_at(o, i, n));
        } else {
            let j = i - n1;
            assert(l[i] == l2[j] && o[i] == o2[j]);
            assert(ext_at(o, i, n) == ext_at(o2, j, n2));
            lemma_block_keep(s2, f, l2[j], o2[j], ext_at(o2, j, n2), e);
        }
    }
}


/// The fragment for a simple token or a group of them: the blocks of its
/// simple tokens laid after the states already there, the entry of the first
/// and the exit of the last.
pub proof fn lemma_build_nested(ss: Seq<StateView>, t: TokenView)
    requires
        nested_token(t),
        ss.len() + size_of(t) <= usize::MAX,
    ensures
        build(ss, t).0.len() == ss.len() + size_of(t),
        forall|i: int| 0 <= i < ss.len() ==> #[trigger] build(ss, t).0[i] == ss[i],
        leaves_laid(
            build(ss, t).0,
            leaves_of(t),
            offs_of(ss.len() as int, t),
            ss.len() as int,
            ss.len() + size_of(t),
        ),
        build(ss, t).1 == offs_of(ss.len() as int, t)[0],
        build(ss, t).2 == offs_of(ss.len() as int, t).last() + 1,
    decreases t, 0int,
{
    let base = ss.len() as int;
    if is_simple(t) {
        lemma_build_simple(ss, t);
        let f = build(ss, t).0;
        let l = leaves_of(t);
        let o = offs_of(base, t);
        assert(l[0] == t && o[0] == base);
        assert(ext_at(o, 0, 1) =~= Seq::<usize>::empty());
        lemma_block_fits(f, t, base, Seq::empty(), false);
        assert(forall|i: int, j: int| #![trigger o[i], o[j]] 0 <= i < j < l.len() ==> o[i] + block_size(l[i])
            <= o[j]);
    } else {
        match t.value {
            ValueView::Tokens(s) => {
                let s0 = ss.push(empty_state()).push(empty_state());
                lemma_nested_tokens(s, s.len() as int);
                lemma_chain_nested(s0, s, s.len() as int);
                assert(build(ss, t) == chain(s0, s, s.len() as int));
            },
            _ => {},
        }
    }
}

/// The fragments for the first `n` tokens of `toks`, simple tokens or groups
/// of them, joined one after the other.
pub proof fn lemma_chain_nested(ss: Seq<StateView>, toks: Seq<TokenView>, n: int)
    requires
        1 <= n <= toks.len(),
        forall|i: int| 0 <= i < toks.len() ==> nested_token(#[trigger] toks[i]),
        ss.len() + size_seq(toks, n) <= usize::MAX,
    ensures
        chain(ss, toks, n).0.len() == ss.len() + size_seq(toks, n),
        forall|i: int| 0 <= i < ss.len() ==> #[trigger] chain(ss, toks, n).0[i] == ss[i],
        leaves_laid(
            chain(ss, toks, n).0,
            leaves_seq(toks, n),
            offs_seq(ss.len() as int, toks, n),
            ss.len() as int,
            ss.len() + size_seq(toks, n),
        ),
        chain(ss, toks, n).1 == offs_seq(ss.len() as int, toks, n)[0],
        chain(ss, toks, n).2 == offs_seq(ss.len() as int, toks, n).last() + 1,
    decreases toks, n,
{
    let base = ss.len() as int;
    lemma_size_seq(toks, n - 1);
    lemma_size_of(toks[n - 1]);
    if n == 1 {
        lemma_build_nested(ss, toks[0]);
        assert(leaves_seq(toks, 1) =~= leaves_of(toks[0]));
        assert(offs_seq(base, toks, 1) =~= offs_of(base, toks[0]));
    } else {
        lemma_chain_nested(ss, toks, n - 1);
        let (s1, s, e) = chain(ss, toks, n - 1);
        lemma_build_nested(s1, toks[n - 1]);
        let (s2, s2s, s2e) = build(s1, toks[n - 1]);
        let f = add_edge(s2, e, EPSILON, s2s);
        assert(chain(ss, toks, n).0 == f);
        let l1 = leaves_seq(toks, n - 1);
        let o1 = offs_seq(base, toks, n - 1);
        let l2 = leaves_of(toks[n - 1]);
        let o2 = offs_of(s1.len() as int, toks[n - 1]);
        assert(s1.len() == base + size_seq(toks, n - 1));
        lemma_concat_laid(s1, s2, f, l1, o1, l2, o2, base, e, s2s);
        assert(leaves_seq(toks, n) == l1 + l2);
        assert(offs_seq(base, toks, n) == o1 + o2);
        assert((o1 + o2)[0] == o1[0]);
        assert((o1 + o2).last() == o2.last());
        assert forall|i: int| 0 <= i < ss.len() implies #[trigger] f[i] == ss[i] by {
            assert(o1[0] >= base);
            assert(f[i] == s2[i]);
            assert(s2[i] == s1[i]);
        }
    }
}


/// A simple token or a group of them is one the construction can work on.
pub proof fn lemma_nested_wf(t: TokenView)
    requires
        nested_token(t),
    ensures
        wf_token(t),
    decreases t, 0int,
{
    if !is_simple(t) {
        match t.value {
            ValueView::Tokens(s) => {
                lemma_nested_tokens(s, s.len() as int);
                lemma_nested_wf_seq(s, s.len() as int);
            },
            _ => {},
        }
    } else if !is_atom(t) {
        match t.value {
            ValueView::Repeat(_, _, x) => {
                assert(wf_token(*x));
            },
            _ => {},
        }
    }
}

pub proof fn lemma_nested_wf_seq(s: Seq<TokenView>, n: int)
    requires
        0 <= n <= s.len(),
        forall|i: int| 0 <= i < s.len() ==> nested_token(#[trigger] s[i]),
    ensures
        wf_tokens(s, n),
    decreases s, n,
{
    if n > 0 {
        lemma_nested_wf_seq(s, n - 1);
        lemma_nested_wf(s[n - 1]);
    }
}

/// Marking the entry as the start and the last exit as accepting turns the
/// laid-out leaves into an automaton whose last block accepts.
proof fn lemma_mark_leaves(f: Seq<StateView>, g: Seq<StateView>, l: Seq<TokenView>, o: Seq<int>, e: int)
    requires
        leaves_laid(f, l, o, 0, f.len() as int),
        f.len() <= usize::MAX,
        g.len() == f.len(),
        e == o.last() + 1,
        forall|idx: int| 0 <= idx < f.len() ==> (#[trigger] g[idx]).trans == f[idx].trans,
        forall|idx: int| 0 <= idx < f.len() && idx != e ==> (#[trigger] g[idx]).terminate == f[idx].terminate,
        g[e].terminate,
    ensures
        leaf_graph(g, l, o),
{
    let m = l.len() as int;
    assert forall|i: int| 0 <= i < m implies block_ok(g, #[trigger] l[i], o[i], ext_at(o, i, m), i == m - 1) by {
        let b = o[i];
        assert(block_ok(f, l[i], b, ext_at(o, i, m), false));
        lemma_block_fits(f, l[i], b, ext_at(o, i, m), false);
        if i < m - 1 {
            assert(o[i] + block_size(l[i]) <= o[m - 1]);
            lemma_block_size(l[m - 1]);
        }
        assert forall|idx: int| b <= idx < b + block_size(l[i]) implies (#[trigger] g[idx]).trans == f[idx].trans by {
        }
        assert forall|idx: int| b <= idx < b + block_size(l[i]) && idx != b + 1 implies (
        #[trigger] g[idx]).terminate == f[idx].terminate by {
            if i == m - 1 {
                assert(idx != e);
            }
        }
        lemma_block_frame(f, g, l[i], b, ext_at(o, i, m), false, i == m - 1);
    }
}

/// For a sequence of simple tokens and groups of them, nested to any depth,
/// the automaton built for it on an empty one accepts an input exactly when
/// the simple tokens, in order with every
/// group opened, read the whole input one after the other: a group reads
/// what its tokens read in turn.
pub proof fn law_group_language(toks: Seq<TokenView>, w: Seq<u8>)
    requires
        toks.len() >= 1,
        forall|i: int| 0 <= i < toks.len() ==> nested_token(#[trigger] toks[i]),
        size_seq(toks, toks.len() as int) <= usize::MAX,
    ensures
        accepts(ctx_build(Seq::empty(), toks).0, w) == tokens_match(leaves_seq(toks, toks.len() as int), 0, w, 0),
{
    let m = toks.len() as int;
    let empty = Seq::<StateView>::empty();
    lemma_chain_nested(empty, toks, m);
    let (f, s, e) = chain(empty, toks, m);
    let l = leaves_seq(toks, m);
    let o = offs_seq(0, toks, m);
    lemma_block_size(l[l.len() - 1]);
    assert(0 <= e < f.len());
    let s2 = f.update(s, StateView { start: true, terminate: f[s].terminate, trans: f[s].trans });
    let g = s2.update(e, StateView { start: s2[e].start, terminate: true, trans: s2[e].trans });
    assert(ctx_build(empty, toks).0 == g);
    assert(0 <= s < f.len());
    assert(g.len() == f.len());
    assert forall|idx: int| 0 <= idx < f.len() implies (#[trigger] g[idx]).trans == f[idx].trans by {
    }
    assert forall|idx: int| 0 <= idx < f.len() && idx != e implies (#[trigger] g[idx]).terminate
        == f[idx].terminate by {
    }
    lemma_mark_leaves(f, g, l, o, e);
    lemma_nested_wf_seq(toks, m);
    law_search_begins_at_entry(empty, toks);
    assert(first_start_from(g, 0) == Some(o[0]));
    lemma_leaf_language(g, l, o, w);
}

} // verus!

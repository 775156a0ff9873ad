use vstd::prelude::*;

use crate::parser::ParseContext;
use crate::token::{
    RepeatPayload, Token, TokenType, TokenValue, TokenView, ValueView, lemma_tokens_view, token_view,
    tokens_view,
};

verus! {

/// The label of a transition that consumes nothing: the row of a transition
/// table after the 256 rows of the bytes.
pub const EPSILON: usize = 256;

/// A state of the automaton: whether the search starts here, whether the
/// input may end here, and, for each byte and for epsilon, the states reached
/// through it (rows `0..256` for the bytes, row `EPSILON` for epsilon).
pub struct State {
    start: bool,
    terminate: bool,
    /// One row per label, indexed by the label itself: a map keyed by label
    /// where a missing key is an empty row. A fixed table keeps the byte
    /// labels and `EPSILON` apart and lets every lookup and update be stated
    /// by plain sequence indexing.
    transitions: Vec<Vec<usize>>,
}

pub struct StateView {
    pub start: bool,
    pub terminate: bool,
    /// `trans[b]` lists the targets of the transitions labelled `b`: a byte
    /// below 256, or `EPSILON`.
    pub trans: Seq<Seq<usize>>,
}

impl View for State {
    type V = StateView;

    closed spec fn view(&self) -> StateView {
        StateView {
            start: self.start,
            terminate: self.terminate,
            trans: Seq::new(self.transitions@.len(), |i: int| self.transitions@[i]@),
        }
    }
}

/// A transition table for all 256 bytes and epsilon with no transition in it.
pub open spec fn empty_trans() -> Seq<Seq<usize>> {
    Seq::new(257, |i: int| Seq::<usize>::empty())
}

/// A fresh state: not a start, not accepting, no transitions.
pub open spec fn empty_state() -> StateView {
    StateView { start: false, terminate: false, trans: empty_trans() }
}

impl Default for State {
    fn default() -> (s: Self)
        ensures
            s@ == empty_state(),
    {
        let mut transitions: Vec<Vec<usize>> = Vec::new();
        let mut b: usize = 0;
        while b < 257
            invariant
                b <= 257,
                transitions@.len() == b,
                forall|i: int| 0 <= i < b ==> (#[trigger] transitions@[i])@ == Seq::<usize>::empty(),
            decreases 257 - b,
        {
            transitions.push(Vec::new());
            b += 1;
        }
        let s = State { start: false, terminate: false, transitions };
        assert(s@.trans =~= empty_trans());
        s
    }
}

/// An automaton: its states, numbered by their place in `states`.
pub struct NFA {
    pub states: Vec<State>,
}

/// The views of the states of an automaton.
pub open spec fn states_view(v: Seq<State>) -> Seq<StateView> {
    Seq::new(v.len(), |i: int| v[i]@)
}

impl View for NFA {
    type V = Seq<StateView>;

    open spec fn view(&self) -> Seq<StateView> {
        states_view(self.states@)
    }
}

impl Default for NFA {
    fn default() -> (n: Self)
        ensures
            n@.len() == 0,
    {
        NFA { states: Vec::new() }
    }
}

// ---------------------------------------------------------------------------
// Mathematical model of the construction
// ---------------------------------------------------------------------------

/// `ss` with one more transition from `from` to `to` labelled `c`, after the
/// ones already there.
pub open spec fn add_edge(ss: Seq<StateView>, from: int, c: usize, to: int) -> Seq<StateView> {
    ss.update(
        from,
        StateView {
            start: ss[from].start,
            terminate: ss[from].terminate,
            trans: ss[from].trans.update(c as int, ss[from].trans[c as int].push(to as usize)),
        },
    )
}

/// `ss` with the transitions from `from` labelled `c` replaced by `targets`.
pub open spec fn set_edges(ss: Seq<StateView>, from: int, c: usize, targets: Seq<usize>) -> Seq<StateView> {
    ss.update(
        from,
        StateView {
            start: ss[from].start,
            terminate: ss[from].terminate,
            trans: ss[from].trans.update(c as int, targets),
        },
    )
}

/// How many copies of the repeated token the construction lays out.
pub open spec fn copy_count(min: i8, max: i8) -> int {
    if max == -1 {
        if min == 0 {
            1
        } else {
            min as int
        }
    } else {
        max as int
    }
}

/// A token the construction can work on: its payload fits its kind, groups
/// are not empty, an `Or` has two alternatives, and a quantifier's copy count
/// leaves room for the counter that runs over it.
pub open spec fn wf_token(t: TokenView) -> bool
    decreases t, 0int,
{
    match t.kind {
        TokenType::Literal => t.value is Char,
        TokenType::Bracket => match t.value {
            ValueView::Members(m) => m.len() == 256,
            _ => false,
        },
        TokenType::Group | TokenType::GroupUncaptured => match t.value {
            ValueView::Tokens(s) => s.len() >= 1 && wf_tokens(s, s.len() as int),
            _ => false,
        },
        TokenType::Or => match t.value {
            ValueView::Tokens(s) => s.len() >= 2 && wf_token(s[0]) && wf_token(s[1]),
            _ => false,
        },
        TokenType::Repeat => match t.value {
            ValueView::Repeat(min, max, x) => wf_token(*x) && copy_count(min, max) != 127,
            _ => false,
        },
    }
}

/// The first `n` tokens of `s` are well formed.
pub open spec fn wf_tokens(s: Seq<TokenView>, n: int) -> bool
    decreases s, n,
{
    if n <= 0 || n > s.len() {
        true
    } else {
        wf_tokens(s, n - 1) && wf_token(s[n - 1])
    }
}

/// Each of the first `n` well-formed tokens is well formed.
pub proof fn lemma_wf_tokens(s: Seq<TokenView>, n: int)
    requires
        0 <= n <= s.len(),
        wf_tokens(s, n),
    ensures
        forall|i: int| 0 <= i < n ==> wf_token(#[trigger] s[i]),
    decreases n,
{
    if n > 0 {
        lemma_wf_tokens(s, n - 1);
    }
}

/// The fragment built for token `t` on top of the states `ss`: the new
/// states, and the fragment's entry and exit.
pub open spec fn build(ss: Seq<StateView>, t: TokenView) -> (Seq<StateView>, int, int)
    decreases t, 0int,
{
    let sp = ss.len() as int;
    let ep = sp + 1;
    let s0 = ss.push(empty_state()).push(empty_state());
    match t.kind {
        TokenType::Literal => match t.value {
            ValueView::Char(c) => (set_edges(s0, sp, c as usize, seq![ep as usize]), sp, ep),
            _ => (s0, sp, ep),
        },
        TokenType::Bracket => match t.value {
            ValueView::Members(m) => (
                s0.update(
                    sp,
                    StateView {
                        start: false,
                        terminate: false,
                        trans: Seq::new(
                            257,
                            |b: int|
                                if b < 256 && m[b] {
                                    seq![ep as usize]
                                } else {
                                    Seq::<usize>::empty()
                                },
                        ),
                    },
                ),
                sp,
                ep,
            ),
            _ => (s0, sp, ep),
        },
        TokenType::Group | TokenType::GroupUncaptured => match t.value {
            ValueView::Tokens(toks) => if toks.len() == 0 {
                (s0, sp, ep)
            } else {
                chain(s0, toks, toks.len() as int)
            },
            _ => (s0, sp, ep),
        },
        TokenType::Or => match t.value {
            ValueView::Tokens(toks) => if toks.len() < 2 {
                (s0, sp, ep)
            } else {
                let (s1, ls, le) = build(s0, toks[0]);
                let (s2, rs, re) = build(s1, toks[1]);
                let s3 = set_edges(s2, sp, EPSILON, seq![ls as usize, rs as usize]);
                let s4 = set_edges(s3, le, EPSILON, seq![ep as usize]);
                let s5 = set_edges(s4, re, EPSILON, seq![ep as usize]);
                (s5, sp, ep)
            },
            _ => (s0, sp, ep),
        },
        TokenType::Repeat => match t.value {
            ValueView::Repeat(min, max, x) => {
                let s1 = if min == 0 {
                    add_edge(s0, sp, EPSILON, ep)
                } else {
                    s0
                };
                let (s2, from, to) = build(s1, *x);
                let s3 = add_edge(s2, sp, EPSILON, from);
                let (s4, from2, to2) = rep_loop(s3, *x, min, 2, copy_count(min, max), from, to);
                let s5 = add_edge(s4, to2, EPSILON, ep);
                let s6 = if max == -1 {
                    add_edge(s5, ep, EPSILON, from2)
                } else {
                    s5
                };
                (s6, sp, ep)
            },
            _ => (s0, sp, ep),
        },
    }
}

/// The fragments for the first `n` tokens of `toks`, each exit joined to the
/// next entry by an epsilon transition: the states, the first entry and the
/// last exit.
pub open spec fn chain(ss: Seq<StateView>, toks: Seq<TokenView>, n: int) -> (Seq<StateView>, int, int)
    decreases toks, n,
{
    if n <= 0 || n > toks.len() {
        (ss, 0, 0)
    } else if n == 1 {
        build(ss, toks[0])
    } else {
        let (s1, s, e) = chain(ss, toks, n - 1);
        let (s2, s2_start, s2_end) = build(s1, toks[n - 1]);
        (add_edge(s2, e, EPSILON, s2_start), s, s2_end)
    }
}

/// Copies `i..=k` of a quantified token `x`, each joined after the previous
/// one, a copy numbered above `min` also skippable; `from`/`to` are the entry
/// and exit of the last copy laid so far.
pub open spec fn rep_loop(
    ss: Seq<StateView>,
    x: TokenView,
    min: i8,
    i: int,
    k: int,
    from: int,
    to: int,
) -> (Seq<StateView>, int, int)
    decreases x, k + 1 - i,
{
    if i > k {
        (ss, from, to)
    } else {
        let (s1, s, e) = build(ss, x);
        let s2 = add_edge(s1, to, EPSILON, s);
        let s3 = if i > min {
            add_edge(s2, s, EPSILON, e)
        } else {
            s2
        };
        rep_loop(s3, x, min, i + 1, k, s, e)
    }
}

/// The automaton for a whole token sequence: the fragments chained, the first
/// entry marked as start and the last exit as accepting.
pub open spec fn ctx_build(ss: Seq<StateView>, toks: Seq<TokenView>) -> (Seq<StateView>, int) {
    let (s1, s, e) = chain(ss, toks, toks.len() as int);
    let s2 = s1.update(s, StateView { start: true, terminate: s1[s].terminate, trans: s1[s].trans });
    let s3 = s2.update(e, StateView { start: s2[e].start, terminate: true, trans: s2[e].trans });
    (s3, s)
}


/// Every state from `lo` on has a transition table for all 256 bytes and
/// epsilon.
pub open spec fn tables_from(ss: Seq<StateView>, lo: int) -> bool {
    forall|i: int| lo <= i < ss.len() ==> (#[trigger] ss[i]).trans.len() == 257
}

/// Every transition from the states `lo..` of `ss` leads to a state of `ss`.
pub open spec fn targets_from(ss: Seq<StateView>, lo: int) -> bool {
    forall|i: int, c: int, j: int|
        lo <= i < ss.len() && 0 <= c < ss[i].trans.len() && 0 <= j < ss[i].trans[c].len() ==> (#[trigger] ss[i].trans[c][j]) < ss.len()
}

/// What building a fragment does to the states around it: the states before
/// are kept as they were, at least two states are added, and the entry `s`
/// and exit `e` are among the new states.
pub open spec fn frag_ok(old: Seq<StateView>, new: Seq<StateView>, s: int, e: int) -> bool {
    &&& old.len() + 2 <= new.len()
    &&& old.len() <= s < new.len()
    &&& old.len() <= e < new.len()
    &&& forall|i: int| 0 <= i < old.len() ==> #[trigger] new[i] == old[i]
    &&& tables_from(new, old.len() as int)
    &&& forall|i: int| old.len() <= i < new.len() ==> !(#[trigger] new[i]).start
    &&& targets_from(new, old.len() as int)
}

// ---------------------------------------------------------------------------
// Executable construction
// ---------------------------------------------------------------------------

/// Appends a fresh state and returns its number.
fn init_state(states: &mut Vec<State>) -> (pos: usize)
    ensures
        states_view(final(states)@) == states_view(old(states)@).push(empty_state()),
        pos == old(states)@.len(),
{
    let state = State::default();
    let pos = states.len();
    states.push(state);
    assert(states_view(states@) =~= states_view(old(states)@).push(empty_state()));
    pos
}

/// A vector holding `x` alone.
fn one(x: usize) -> (v: Vec<usize>)
    ensures
        v@ == seq![x],
{
    let mut v: Vec<usize> = Vec::new();
    v.push(x);
    v
}

/// Adds a transition labelled `c` from `from` to `to`, after the others.
fn push_edge(states: &mut Vec<State>, from: usize, c: usize, to: usize)
    requires
        from < old(states)@.len(),
        c < 257,
        states_view(old(states)@)[from as int].trans.len() == 257,
    ensures
        states_view(final(states)@) == add_edge(states_view(old(states)@), from as int, c, to as int),
{
    states[from].transitions[c].push(to);
    assert(states_view(states@) =~= add_edge(states_view(old(states)@), from as int, c, to as int)) by {
        assert(states@[from as int]@.trans =~= states_view(old(states)@)[from as int].trans.update(
            c as int,
            states_view(old(states)@)[from as int].trans[c as int].push(to),
        ));
    }
}

/// Replaces the transitions labelled `c` from `from` by `targets`.
fn replace_edges(states: &mut Vec<State>, from: usize, c: usize, targets: Vec<usize>)
    requires
        from < old(states)@.len(),
        c < 257,
        states_view(old(states)@)[from as int].trans.len() == 257,
    ensures
        states_view(final(states)@) == set_edges(states_view(old(states)@), from as int, c, targets@),
{
    let ghost t = targets@;
    states[from].transitions[c] = targets;
    assert(states_view(states@) =~= set_edges(states_view(old(states)@), from as int, c, t)) by {
        assert(states@[from as int]@.trans =~= states_view(old(states)@)[from as int].trans.update(
            c as int,
            t,
        ));
    }
}


/// Fragments built one after the other compose.
pub proof fn lemma_frag_compose(
    a: Seq<StateView>,
    b: Seq<StateView>,
    c: Seq<StateView>,
    s: int,
    e: int,
    s2: int,
    e2: int,
)
    requires
        frag_ok(a, b, s, e),
        frag_ok(b, c, s2, e2),
    ensures
        frag_ok(a, c, s, e2),
        frag_ok(a, c, s2, e2),
        frag_ok(a, c, s, e),
{
    assert forall|i: int, l: int, j: int|
        a.len() <= i < c.len() && 0 <= l < c[i].trans.len() && 0 <= j < c[i].trans[l].len() implies (
        #[trigger] c[i].trans[l][j]) < c.len() by {
        if i < b.len() {
            assert(c[i] == b[i]);
            assert(b[i].trans[l][j] < b.len());
        }
    }
}

/// Adding a transition from a state keeps a fragment.
pub proof fn lemma_frag_add_edge(a: Seq<StateView>, b: Seq<StateView>, s: int, e: int, from: int, c: usize, to: int)
    requires
        frag_ok(a, b, s, e),
        a.len() <= from < b.len(),
        c < 257,
        0 <= to < b.len(),
    ensures
        frag_ok(a, add_edge(b, from, c, to), s, e),
{
    let b2 = add_edge(b, from, c, to);
    assert forall|i: int, l: int, j: int|
        a.len() <= i < b2.len() && 0 <= l < b2[i].trans.len() && 0 <= j < b2[i].trans[l].len() implies (
        #[trigger] b2[i].trans[l][j]) < b2.len() by {
        if i != from || l != c as int {
            assert(b2[i].trans[l] == b[i].trans[l]);
        } else if j < b[i].trans[l].len() {
            assert(b2[i].trans[l][j] == b[i].trans[l][j]);
        }
    }
    assert forall|i: int| a.len() <= i < b2.len() implies (#[trigger] b2[i]).trans.len() == 257
        && !b2[i].start by {
        if i != from {
            assert(b2[i] == b[i]);
        }
    }
}

/// Replacing the transitions of a state keeps a fragment.
pub proof fn lemma_frag_set_edges(
    a: Seq<StateView>,
    b: Seq<StateView>,
    s: int,
    e: int,
    from: int,
    c: usize,
    t: Seq<usize>,
)
    requires
        frag_ok(a, b, s, e),
        a.len() <= from < b.len(),
        c < 257,
        forall|j: int| 0 <= j < t.len() ==> (#[trigger] t[j]) < b.len(),
    ensures
        frag_ok(a, set_edges(b, from, c, t), s, e),
{
    let b2 = set_edges(b, from, c, t);
    assert forall|i: int, l: int, j: int|
        a.len() <= i < b2.len() && 0 <= l < b2[i].trans.len() && 0 <= j < b2[i].trans[l].len() implies (
        #[trigger] b2[i].trans[l][j]) < b2.len() by {
        if i != from || l != c as int {
            assert(b2[i].trans[l] == b[i].trans[l]);
        }
    }
    assert forall|i: int| a.len() <= i < b2.len() implies (#[trigger] b2[i]).trans.len() == 257
        && !b2[i].start by {
        if i != from {
            assert(b2[i] == b[i]);
        }
    }
}

/// Building a fragment only appends states: the states already there stay as
/// they were, and the entry and exit are among the new states.
pub proof fn lemma_build_frag(ss: Seq<StateView>, t: TokenView)
    requires
        wf_token(t),
    ensures
        frag_ok(ss, build(ss, t).0, build(ss, t).1, build(ss, t).2),
    decreases t, 0int,
{
    let sp = ss.len() as int;
    let ep = sp + 1;
    let s0 = ss.push(empty_state()).push(empty_state());
    assert(frag_ok(ss, s0, sp, ep));
    match t.kind {
        TokenType::Literal => match t.value {
            ValueView::Char(c) => {
                lemma_frag_set_edges(ss, s0, sp, ep, sp, c as usize, seq![ep as usize]);
            },
            _ => {},
        },
        TokenType::Bracket => match t.value {
            ValueView::Members(m) => {
                let r = build(ss, t).0;
                assert forall|i: int| ss.len() <= i < r.len() implies (#[trigger] r[i]).trans.len() == 257
                    && !r[i].start by {
                    if i != sp {
                        assert(r[i] == s0[i]);
                    }
                }
            },
            _ => {},
        },
        TokenType::Group | TokenType::GroupUncaptured => match t.value {
            ValueView::Tokens(toks) => {
                lemma_wf_tokens(toks, toks.len() as int);
                lemma_chain_frag(s0, toks, toks.len() as int);
                let (r, s, e) = chain(s0, toks, toks.len() as int);
                lemma_frag_compose(ss, s0, r, sp, ep, s, e);
            },
            _ => {},
        },
        TokenType::Or => match t.value {
            ValueView::Tokens(toks) => {
                let (s1, ls, le) = build(s0, toks[0]);
                lemma_build_frag(s0, toks[0]);
                let (s2, rs, re) = build(s1, toks[1]);
                lemma_build_frag(s1, toks[1]);
                lemma_frag_compose(ss, s0, s1, sp, ep, ls, le);
                lemma_frag_compose(ss, s1, s2, sp, ep, rs, re);
                lemma_frag_compose(ss, s1, s2, ls, le, rs, re);
                let s3 = set_edges(s2, sp, EPSILON, seq![ls as usize, rs as usize]);
                lemma_frag_set_edges(ss, s2, sp, ep, sp, EPSILON, seq![ls as usize, rs as usize]);
                lemma_frag_set_edges(ss, s2, le, re, sp, EPSILON, seq![ls as usize, rs as usize]);
                let s4 = set_edges(s3, le, EPSILON, seq![ep as usize]);
                lemma_frag_set_edges(ss, s3, sp, ep, le, EPSILON, seq![ep as usize]);
                lemma_frag_set_edges(ss, s3, le, re, le, EPSILON, seq![ep as usize]);
                lemma_frag_set_edges(ss, s4, sp, ep, re, EPSILON, seq![ep as usize]);
            },
            _ => {},
        },
        TokenType::Repeat => match t.value {
            ValueView::Repeat(min, max, x) => {
                let s1 = if min == 0 {
                    add_edge(s0, sp, EPSILON, ep)
                } else {
                    s0
                };
                if min == 0 {
                    lemma_frag_add_edge(ss, s0, sp, ep, sp, EPSILON, ep);
                }
                let (s2, from, to) = build(s1, *x);
                lemma_build_frag(s1, *x);
                lemma_frag_compose(ss, s1, s2, sp, ep, from, to);
                let s3 = add_edge(s2, sp, EPSILON, from);
                lemma_frag_add_edge(ss, s2, sp, ep, sp, EPSILON, from);
                lemma_frag_add_edge(ss, s2, from, to, sp, EPSILON, from);
                lemma_rep_loop_frag(ss, s3, *x, min, 2, copy_count(min, max), from, to, sp, ep);
                let (s4, from2, to2) = rep_loop(s3, *x, min, 2, copy_count(min, max), from, to);
                let s5 = add_edge(s4, to2, EPSILON, ep);
                lemma_frag_add_edge(ss, s4, sp, ep, to2, EPSILON, ep);
                if max == -1 {
                    lemma_frag_add_edge(ss, s5, sp, ep, ep, EPSILON, from2);
                }
            },
            _ => {},
        },
    }
}

/// A chain of fragments is a fragment.
pub proof fn lemma_chain_frag(ss: Seq<StateView>, toks: Seq<TokenView>, n: int)
    requires
        1 <= n <= toks.len(),
        forall|i: int| 0 <= i < toks.len() ==> wf_token(#[trigger] toks[i]),
    ensures
        frag_ok(ss, chain(ss, toks, n).0, chain(ss, toks, n).1, chain(ss, toks, n).2),
    decreases toks, n,
{
    if n == 1 {
        lemma_build_frag(ss, toks[0]);
    } else {
        lemma_chain_frag(ss, toks, n - 1);
        let (s1, s, e) = chain(ss, toks, n - 1);
        lemma_build_frag(s1, toks[n - 1]);
        let (s2, s2_start, s2_end) = build(s1, toks[n - 1]);
        lemma_frag_compose(ss, s1, s2, s, e, s2_start, s2_end);
        lemma_frag_add_edge(ss, s2, s, s2_end, e, EPSILON, s2_start);
    }
}

/// The copies laid by a quantifier keep the fragment around them.
pub proof fn lemma_rep_loop_frag(
    base: Seq<StateView>,
    ss: Seq<StateView>,
    x: TokenView,
    min: i8,
    i: int,
    k: int,
    from: int,
    to: int,
    sp: int,
    ep: int,
)
    requires
        wf_token(x),
        frag_ok(base, ss, from, to),
        frag_ok(base, ss, sp, ep),
    ensures
        frag_ok(base, rep_loop(ss, x, min, i, k, from, to).0, rep_loop(ss, x, min, i, k, from, to).1, rep_loop(ss, x, min, i, k, from, to).2),
        frag_ok(base, rep_loop(ss, x, min, i, k, from, to).0, sp, ep),
    decreases x, k + 1 - i,
{
    if i <= k {
        let (s1, s, e) = build(ss, x);
        lemma_build_frag(ss, x);
        lemma_frag_compose(base, ss, s1, from, to, s, e);
        lemma_frag_compose(base, ss, s1, sp, ep, s, e);
        let s2 = add_edge(s1, to, EPSILON, s);
        lemma_frag_add_edge(base, s1, s, e, to, EPSILON, s);
        lemma_frag_add_edge(base, s1, sp, ep, to, EPSILON, s);
        let s3 = if i > min {
            add_edge(s2, s, EPSILON, e)
        } else {
            s2
        };
        if i > min {
            lemma_frag_add_edge(base, s2, s, e, s, EPSILON, e);
            lemma_frag_add_edge(base, s2, sp, ep, s, EPSILON, e);
        }
        lemma_rep_loop_frag(base, s3, x, min, i + 1, k, s, e, sp, ep);
    }
}

/// The first start state from `i` on is `st`.
pub proof fn lemma_first_start(ss: Seq<StateView>, i: int, st: int)
    requires
        0 <= i <= st < ss.len(),
        ss[st].start,
        forall|j: int| i <= j < st ==> !(#[trigger] ss[j]).start,
    ensures
        first_start_from(ss, i) == Some(st),
    decreases st - i,
{
    if i < st {
        lemma_first_start(ss, i + 1, st);
    }
}

/// On an automaton with no start state yet, building the tokens makes the
/// search begin at the entry of the first token: the states already there are
/// kept, and the entry is the only new start state.
pub proof fn law_search_begins_at_entry(ss: Seq<StateView>, toks: Seq<TokenView>)
    requires
        toks.len() >= 1,
        wf_tokens(toks, toks.len() as int),
        forall|i: int| 0 <= i < ss.len() ==> !(#[trigger] ss[i]).start,
    ensures
        first_start_from(ctx_build(ss, toks).0, 0) == Some(ctx_build(ss, toks).1),
        forall|i: int| 0 <= i < ss.len() ==> #[trigger] ctx_build(ss, toks).0[i] == ss[i],
{
    lemma_wf_tokens(toks, toks.len() as int);
    lemma_chain_frag(ss, toks, toks.len() as int);
    let (s1, s, e) = chain(ss, toks, toks.len() as int);
    let (f, st) = ctx_build(ss, toks);
    assert forall|j: int| 0 <= j < st implies !(#[trigger] f[j]).start by {
        if j < ss.len() {
            assert(f[j] == s1[j]);
        } else {
            assert(!s1[j].start);
        }
    }
    lemma_first_start(f, 0, st);
}

/// Building tokens on an automaton whose transitions all lead to its own
/// states gives one whose transitions all lead to its own states.
pub proof fn law_targets_inside(ss: Seq<StateView>, toks: Seq<TokenView>)
    requires
        toks.len() >= 1,
        wf_tokens(toks, toks.len() as int),
        targets_from(ss, 0),
    ensures
        targets_from(ctx_build(ss, toks).0, 0),
{
    lemma_wf_tokens(toks, toks.len() as int);
    lemma_chain_frag(ss, toks, toks.len() as int);
    let (s1, s, e) = chain(ss, toks, toks.len() as int);
    let f = ctx_build(ss, toks).0;
    assert(f.len() == s1.len());
    assert forall|i: int, l: int, j: int|
        0 <= i < f.len() && 0 <= l < f[i].trans.len() && 0 <= j < f[i].trans[l].len() implies (
        #[trigger] f[i].trans[l][j]) < f.len() by {
        assert(f[i].trans == s1[i].trans);
        if i < ss.len() {
            assert(s1[i] == ss[i]);
            assert(ss[i].trans[l][j] < ss.len());
        } else {
            assert(s1[i].trans[l][j] < s1.len());
        }
    }
}

/// Builds the fragment for one token on top of `states` and returns its entry
/// and exit.
fn token_to_nfa(token: &Token, states: &mut Vec<State>) -> (res: (usize, usize))
    requires
        wf_token(token@),
    ensures
        build(states_view(old(states)@), token@) == (
            states_view(final(states)@),
            res.0 as int,
            res.1 as int,
        ),
        frag_ok(states_view(old(states)@), states_view(final(states)@), res.0 as int, res.1 as int),
    decreases token, 2int,
{
    let ghost ss = states_view(states@);
    let start_pos = init_state(states);
    let end_pos = init_state(states);
    let ghost s0 = states_view(states@);
    assert(s0 == ss.push(empty_state()).push(empty_state()));
    assert(targets_from(s0, start_pos as int)) by {
        assert forall|i: int, l: int, j: int|
            start_pos <= i < s0.len() && 0 <= l < s0[i].trans.len() && 0 <= j < s0[i].trans[l].len() implies (
            #[trigger] s0[i].trans[l][j]) < s0.len() by {
            assert(s0[i] == empty_state());
        }
    }
    assert(frag_ok(ss, s0, start_pos as int, end_pos as int));
    match token.token_type {
        TokenType::Literal => match &token.value {
            TokenValue::Char(c) => {
                replace_edges(states, start_pos, *c as usize, one(end_pos));
                proof {
                    lemma_frag_set_edges(ss, s0, start_pos as int, end_pos as int, start_pos as int, *c as usize, seq![end_pos]);
                }
                (start_pos, end_pos)
            },
            _ => (start_pos, end_pos),
        },
        TokenType::Bracket => match &token.value {
            TokenValue::Members(m) => {
                bracket_to_nfa(m, states, start_pos, end_pos);
                assert(Seq::new(
                    257,
                    |x: int|
                        if x < 256 && m@[x] {
                            seq![end_pos]
                        } else {
                            Seq::<usize>::empty()
                        },
                ) =~= Seq::new(
                    257,
                    |b: int|
                        if b < 256 && m@[b] {
                            seq![(start_pos as int + 1) as usize]
                        } else {
                            Seq::<usize>::empty()
                        },
                ));
                (start_pos, end_pos)
            },
            _ => (start_pos, end_pos),
        },
        TokenType::Group | TokenType::GroupUncaptured => match &token.value {
            TokenValue::Tokens(v) => {
                proof {
                    lemma_tokens_view(v@);
                }
                let (s, e) = build_chain(v, states);
                proof {
                    lemma_frag_compose(ss, s0, states_view(states@), start_pos as int, end_pos as int, s as int, e as int);
                }
                (s, e)
            },
            _ => (start_pos, end_pos),
        },
        TokenType::Or => match &token.value {
            TokenValue::Tokens(v) => {
                proof {
                    lemma_tokens_view(v@);
                }
                or_to_nfa(v, states, start_pos, end_pos);
                (start_pos, end_pos)
            },
            _ => (start_pos, end_pos),
        },
        TokenType::Repeat => match &token.value {
            TokenValue::Repeat(payload) => {
                repeat_to_nfa(payload, states, start_pos, end_pos);
                (start_pos, end_pos)
            },
            _ => (start_pos, end_pos),
        },
    }
}

/// The entry `start_pos` of a bracket expression goes to `end_pos` on every
/// byte of the expression.
fn bracket_to_nfa(m: &Vec<bool>, states: &mut Vec<State>, start_pos: usize, end_pos: usize)
    requires
        m@.len() == 256,
        old(states)@.len() >= 2,
        start_pos == old(states)@.len() - 2,
        end_pos == old(states)@.len() - 1,
        states_view(old(states)@)[start_pos as int] == empty_state(),
    ensures
        states_view(final(states)@) == states_view(old(states)@).update(
            start_pos as int,
            StateView {
                start: false,
                terminate: false,
                trans: Seq::new(
                    257,
                    |x: int|
                        if x < 256 && m@[x] {
                            seq![end_pos]
                        } else {
                            Seq::<usize>::empty()
                        },
                ),
            },
        ),
{
    let ghost s0 = states_view(states@);
    let ghost mv = m@;
    let mut b: usize = 0;
    assert(s0.update(
        start_pos as int,
        StateView {
            start: false,
            terminate: false,
            trans: Seq::new(
                257,
                |x: int|
                    if x < 0 && mv[x] {
                        seq![end_pos]
                    } else {
                        Seq::<usize>::empty()
                    },
            ),
        },
    ) =~= s0) by {
        assert(Seq::new(
            257,
            |x: int|
                if x < 0 && mv[x] {
                    seq![end_pos]
                } else {
                    Seq::<usize>::empty()
                },
        ) =~= empty_trans());
    }
    while b < 256
        invariant
            b <= 256,
            mv == m@,
            m@.len() == 256,
            start_pos < s0.len(),
            states@.len() == s0.len(),
            states_view(states@) == s0.update(
                start_pos as int,
                StateView {
                    start: false,
                    terminate: false,
                    trans: Seq::new(
                        257,
                        |x: int|
                            if x < b && mv[x] {
                                seq![end_pos]
                            } else {
                                Seq::<usize>::empty()
                            },
                    ),
                },
            ),
        decreases 256 - b,
    {
        assert(states_view(states@)[start_pos as int].trans.len() == 257);
        if m[b] {
            replace_edges(states, start_pos, b, one(end_pos));
        }
        assert(states_view(states@) =~= s0.update(
            start_pos as int,
            StateView {
                start: false,
                terminate: false,
                trans: Seq::new(
                    257,
                    |x: int|
                        if x < b + 1 && mv[x] {
                            seq![end_pos]
                        } else {
                            Seq::<usize>::empty()
                        },
                ),
            },
        )) by {
            assert(states_view(states@)[start_pos as int].trans =~= Seq::new(
                257,
                |x: int|
                    if x < b + 1 && mv[x] {
                        seq![end_pos]
                    } else {
                        Seq::<usize>::empty()
                    },
            ));
        }
        b += 1;
    }
    assert(states_view(states@) =~= s0.update(
        start_pos as int,
        StateView {
            start: false,
            terminate: false,
            trans: Seq::new(
                257,
                |x: int|
                    if x < 256 && mv[x] {
                        seq![end_pos]
                    } else {
                        Seq::<usize>::empty()
                    },
            ),
        },
    )) by {
        assert(states_view(states@)[start_pos as int].trans =~= Seq::new(
            257,
            |x: int|
                if x < 256 && mv[x] {
                    seq![end_pos]
                } else {
                    Seq::<usize>::empty()
                },
        ));
    }
}

/// The two alternatives of an `Or`, between `start_pos` and `end_pos`.
fn or_to_nfa(v: &Vec<Token>, states: &mut Vec<State>, start_pos: usize, end_pos: usize)
    requires
        v@.len() >= 2,
        wf_token(v@[0]@),
        wf_token(v@[1]@),
        old(states)@.len() >= 2,
        start_pos == old(states)@.len() - 2,
        end_pos == old(states)@.len() - 1,
        tables_from(states_view(old(states)@), start_pos as int),
        forall|i: int|
            start_pos <= i < old(states)@.len() ==> !(#[trigger] states_view(old(states)@)[i]).start,
        targets_from(states_view(old(states)@), start_pos as int),
    ensures
        ({
            let s0 = states_view(old(states)@);
            let (s1, ls, le) = build(s0, v@[0]@);
            let (s2, rs, re) = build(s1, v@[1]@);
            let s3 = set_edges(s2, start_pos as int, EPSILON, seq![ls as usize, rs as usize]);
            let s4 = set_edges(s3, le, EPSILON, seq![end_pos]);
            let s5 = set_edges(s4, re, EPSILON, seq![end_pos]);
            states_view(final(states)@) == s5
        }),
        frag_ok(
            states_view(old(states)@).subrange(0, start_pos as int),
            states_view(final(states)@),
            start_pos as int,
            end_pos as int,
        ),
    decreases v, 1int,
{
    let ghost s0 = states_view(states@);
    let ghost base = s0.subrange(0, start_pos as int);
    assert(frag_ok(base, s0, start_pos as int, end_pos as int));
    let (ls, le) = token_to_nfa(&v[0], states);
    let ghost s1 = states_view(states@);
    let (rs, re) = token_to_nfa(&v[1], states);
    let ghost s2 = states_view(states@);
    proof {
        lemma_frag_compose(base, s0, s1, start_pos as int, end_pos as int, ls as int, le as int);
        lemma_frag_compose(base, s1, s2, start_pos as int, end_pos as int, rs as int, re as int);
        lemma_frag_compose(base, s1, s2, ls as int, le as int, rs as int, re as int);
    }
    let mut both: Vec<usize> = Vec::new();
    both.push(ls);
    both.push(rs);
    assert(both@ =~= seq![ls, rs]);
    replace_edges(states, start_pos, EPSILON, both);
    proof {
        lemma_frag_set_edges(base, s2, start_pos as int, end_pos as int, start_pos as int, EPSILON, seq![ls, rs]);
        lemma_frag_set_edges(base, s2, le as int, re as int, start_pos as int, EPSILON, seq![ls, rs]);
    }
    let ghost s3 = states_view(states@);
    replace_edges(states, le, EPSILON, one(end_pos));
    proof {
        lemma_frag_set_edges(base, s3, start_pos as int, end_pos as int, le as int, EPSILON, seq![end_pos]);
        lemma_frag_set_edges(base, s3, le as int, re as int, le as int, EPSILON, seq![end_pos]);
    }
    let ghost s4 = states_view(states@);
    replace_edges(states, re, EPSILON, one(end_pos));
    proof {
        lemma_frag_set_edges(base, s4, start_pos as int, end_pos as int, re as int, EPSILON, seq![end_pos]);
    }
}

/// A quantified token between `start_pos` and `end_pos`.
fn repeat_to_nfa(payload: &RepeatPayload, states: &mut Vec<State>, start_pos: usize, end_pos: usize)
    requires
        wf_token(payload.token@),
        copy_count(payload.min, payload.max) != 127,
        old(states)@.len() >= 2,
        start_pos == old(states)@.len() - 2,
        end_pos == old(states)@.len() - 1,
        tables_from(states_view(old(states)@), start_pos as int),
        forall|i: int|
            start_pos <= i < old(states)@.len() ==> !(#[trigger] states_view(old(states)@)[i]).start,
        targets_from(states_view(old(states)@), start_pos as int),
    ensures
        ({
            let s0 = states_view(old(states)@);
            let min = payload.min;
            let max = payload.max;
            let x = payload.token@;
            let sp = start_pos as int;
            let ep = end_pos as int;
            let s1 = if min == 0 {
                add_edge(s0, sp, EPSILON, ep)
            } else {
                s0
            };
            let (s2, from, to) = build(s1, x);
            let s3 = add_edge(s2, sp, EPSILON, from);
            let (s4, from2, to2) = rep_loop(s3, x, min, 2, copy_count(min, max), from, to);
            let s5 = add_edge(s4, to2, EPSILON, ep);
            let s6 = if max == -1 {
                add_edge(s5, ep, EPSILON, from2)
            } else {
                s5
            };
            states_view(final(states)@) == s6
        }),
        frag_ok(
            states_view(old(states)@).subrange(0, start_pos as int),
            states_view(final(states)@),
            start_pos as int,
            end_pos as int,
        ),
    decreases payload, 1int,
{
    let ghost s0 = states_view(states@);
    let ghost base = s0.subrange(0, start_pos as int);
    assert(frag_ok(base, s0, start_pos as int, end_pos as int));
    let min = payload.min;
    let max = payload.max;
    if min == 0 {
        push_edge(states, start_pos, EPSILON, end_pos);
        proof {
            lemma_frag_add_edge(base, s0, start_pos as int, end_pos as int, start_pos as int, EPSILON, end_pos as int);
        }
    }
    let ghost s1 = states_view(states@);
    let copies: i16 = if max == -1 {
        if min == 0 {
            1
        } else {
            min as i16
        }
    } else {
        max as i16
    };
    let ghost x = payload.token@;
    let (f0, t0) = token_to_nfa(&payload.token, states);
    proof {
        lemma_frag_compose(base, s1, states_view(states@), start_pos as int, end_pos as int, f0 as int, t0 as int);
    }
    let ghost s2 = states_view(states@);
    push_edge(states, start_pos, EPSILON, f0);
    proof {
        lemma_frag_compose(base, s1, s2, start_pos as int, end_pos as int, f0 as int, t0 as int);
        lemma_frag_add_edge(base, s2, start_pos as int, end_pos as int, start_pos as int, EPSILON, f0 as int);
        lemma_frag_add_edge(base, s2, f0 as int, t0 as int, start_pos as int, EPSILON, f0 as int);
    }
    let ghost s3 = states_view(states@);
    let mut from = f0;
    let mut to = t0;
    let mut i: i16 = 2;
    while i <= copies
        invariant
            2 <= i <= 128,
            copies == copy_count(min, max),
            copies != 127,
            min == payload.min,
            x == payload.token@,
            wf_token(x),
            rep_loop(states_view(states@), x, min, i as int, copies as int, from as int, to as int)
                == rep_loop(s3, x, min, 2, copies as int, f0 as int, t0 as int),
            frag_ok(base, states_view(states@), start_pos as int, end_pos as int),
            frag_ok(base, states_view(states@), from as int, to as int),
        decreases 200 - i,
    {
        let ghost before = states_view(states@);
        let (s, e) = token_to_nfa(&payload.token, states);
        proof {
            lemma_frag_compose(base, before, states_view(states@), from as int, to as int, s as int, e as int);
            lemma_frag_compose(base, before, states_view(states@), start_pos as int, end_pos as int, s as int, e as int);
        }
        let ghost mid = states_view(states@);
        push_edge(states, to, EPSILON, s);
        proof {
            lemma_frag_add_edge(base, mid, s as int, e as int, to as int, EPSILON, s as int);
            lemma_frag_add_edge(base, mid, start_pos as int, end_pos as int, to as int, EPSILON, s as int);
        }
        to = e;
        from = s;
        if i > min as i16 {
            let ghost mid2 = states_view(states@);
            push_edge(states, s, EPSILON, to);
            proof {
                lemma_frag_add_edge(base, mid2, s as int, e as int, s as int, EPSILON, e as int);
                lemma_frag_add_edge(base, mid2, start_pos as int, end_pos as int, s as int, EPSILON, e as int);
            }
        }
        i += 1;
    }
    let ghost s4 = states_view(states@);
    push_edge(states, to, EPSILON, end_pos);
    proof {
        lemma_frag_add_edge(base, s4, start_pos as int, end_pos as int, to as int, EPSILON, end_pos as int);
    }
    if max == -1 {
        let ghost s5 = states_view(states@);
        push_edge(states, end_pos, EPSILON, from);
        proof {
            lemma_frag_add_edge(base, s5, start_pos as int, end_pos as int, end_pos as int, EPSILON, from as int);
        }
    }
}

/// Builds the fragments of `tokens` one after the other, joining each exit to
/// the next entry, and returns the first entry and the last exit.
fn build_chain(tokens: &Vec<Token>, states: &mut Vec<State>) -> (res: (usize, usize))
    requires
        tokens@.len() >= 1,
        wf_tokens(tokens_view(tokens@), tokens@.len() as int),
    ensures
        chain(states_view(old(states)@), tokens_view(tokens@), tokens@.len() as int) == (
            states_view(final(states)@),
            res.0 as int,
            res.1 as int,
        ),
        frag_ok(states_view(old(states)@), states_view(final(states)@), res.0 as int, res.1 as int),
    decreases tokens, 1int,
{
    let ghost ss = states_view(states@);
    let ghost tv = tokens_view(tokens@);
    proof {
        lemma_tokens_view(tokens@);
        lemma_wf_tokens(tv, tv.len() as int);
        assert(wf_token(tv[0]));
        assert(tv[0] == token_view(tokens@[0]));
    }
    let (s, e0) = token_to_nfa(&tokens[0], states);
    let mut e = e0;
    let mut i: usize = 1;
    while i < tokens.len()
        invariant
            1 <= i <= tokens@.len(),
            tv == tokens_view(tokens@),
            tv.len() == tokens@.len(),
            forall|j: int| 0 <= j < tv.len() ==> wf_token(#[trigger] tv[j]),
            forall|j: int| 0 <= j < tv.len() ==> #[trigger] tv[j] == token_view(tokens@[j]),
            chain(ss, tv, i as int) == (states_view(states@), s as int, e as int),
            frag_ok(ss, states_view(states@), s as int, e as int),
        decreases tokens@.len() - i,
    {
        assert(wf_token(tv[i as int]));
        assert(tv[i as int] == token_view(tokens@[i as int]));
        let ghost before = states_view(states@);
        let (s2, e2) = token_to_nfa(&tokens[i], states);
        proof {
            lemma_frag_compose(ss, before, states_view(states@), s as int, e as int, s2 as int, e2 as int);
        }
        let ghost mid = states_view(states@);
        push_edge(states, e, EPSILON, s2);
        proof {
            lemma_frag_add_edge(ss, mid, s as int, e2 as int, e as int, EPSILON, s2 as int);
        }
        e = e2;
        i += 1;
    }
    (s, e)
}

/// Tells whether `token` is one that the construction can work on.
pub fn token_buildable(token: &Token) -> (res: bool)
    ensures
        res == wf_token(token@),
    decreases token, 0int,
{
    match token.token_type {
        TokenType::Literal => match &token.value {
            TokenValue::Char(_) => true,
            _ => false,
        },
        TokenType::Bracket => match &token.value {
            TokenValue::Members(m) => m.len() == 256,
            _ => false,
        },
        TokenType::Group | TokenType::GroupUncaptured => match &token.value {
            TokenValue::Tokens(v) => {
                proof {
                    lemma_tokens_view(v@);
                }
                v.len() >= 1 && tokens_buildable(v)
            },
            _ => false,
        },
        TokenType::Or => match &token.value {
            TokenValue::Tokens(v) => {
                proof {
                    lemma_tokens_view(v@);
                }
                v.len() >= 2 && token_buildable(&v[0]) && token_buildable(&v[1])
            },
            _ => false,
        },
        TokenType::Repeat => match &token.value {
            TokenValue::Repeat(p) => {
                let copies: i16 = if p.max == -1 {
                    if p.min == 0 {
                        1
                    } else {
                        p.min as i16
                    }
                } else {
                    p.max as i16
                };
                token_buildable(&p.token) && copies != 127
            },
            _ => false,
        },
    }
}

/// Tells whether every token of `tokens` is one that the construction can
/// work on.
pub fn tokens_buildable(tokens: &Vec<Token>) -> (res: bool)
    ensures
        res == wf_tokens(tokens_view(tokens@), tokens@.len() as int),
    decreases tokens, 1int,
{
    let ghost tv = tokens_view(tokens@);
    proof {
        lemma_tokens_view(tokens@);
    }
    let mut i: usize = 0;
    while i < tokens.len()
        invariant
            i <= tokens@.len(),
            tv == tokens_view(tokens@),
            tv.len() == tokens@.len(),
            forall|j: int| 0 <= j < tv.len() ==> #[trigger] tv[j] == token_view(tokens@[j]),
            wf_tokens(tv, i as int),
        decreases tokens@.len() - i,
    {
        if !token_buildable(&tokens[i]) {
            proof {
                if wf_tokens(tv, tv.len() as int) {
                    lemma_wf_tokens(tv, tv.len() as int);
                    assert(wf_token(tv[i as int]));
                }
            }
            return false;
        }
        i += 1;
    }
    true
}

impl NFA {
    /// Builds the automaton for the tokens of `ctx` after the states already
    /// there, marks its entry as a start state and its exit as accepting, and
    /// returns the entry.
    pub fn context_to_nfa(&mut self, ctx: &ParseContext) -> (start: usize)
        requires
            ctx.tokens@.len() >= 1,
            wf_tokens(tokens_view(ctx.tokens@), ctx.tokens@.len() as int),
        ensures
            ctx_build(old(self)@, tokens_view(ctx.tokens@)) == (final(self)@, start as int),
            old(self)@.len() + 2 <= final(self)@.len(),
            old(self)@.len() <= start < final(self)@.len(),
            forall|i: int| 0 <= i < old(self)@.len() ==> #[trigger] final(self)@[i] == old(self)@[i],
            final(self)@[start as int].start,
            forall|i: int|
                old(self)@.len() <= i < final(self)@.len() && i != start ==> !(#[trigger] final(self)@[i]).start,
            targets_from(old(self)@, 0) ==> targets_from(final(self)@, 0),
    {
        let ghost before = self@;
        let (s, e) = build_chain(&ctx.tokens, &mut self.states);
        let ghost mid = states_view(self.states@);
        assert(chain(before, tokens_view(ctx.tokens@), ctx.tokens@.len() as int) == (mid, s as int, e as int));
        assert(tokens_view(ctx.tokens@).len() == ctx.tokens@.len()) by {
            lemma_tokens_view(ctx.tokens@);
        }
        self.states[s].start = true;
        let ghost mid2 = states_view(self.states@);
        assert(mid2 =~= mid.update(
            s as int,
            StateView { start: true, terminate: mid[s as int].terminate, trans: mid[s as int].trans },
        ));
        self.states[e].terminate = true;
        assert(states_view(self.states@) =~= mid2.update(
            e as int,
            StateView { start: mid2[e as int].start, terminate: true, trans: mid2[e as int].trans },
        ));
        proof {
            if targets_from(before, 0) {
                law_targets_inside(before, tokens_view(ctx.tokens@));
            }
        }
        s
    }
}


// ---------------------------------------------------------------------------
// Mathematical model of matching
// ---------------------------------------------------------------------------

/// The bytes that matching reads from the input: each character cut down to
/// its low byte.
pub open spec fn bytes_of(s: Seq<char>) -> Seq<u8> {
    Seq::new(s.len(), |i: int| s[i] as u8)
}

/// The targets of the transitions of `st` labelled `c`.
pub open spec fn edges(st: StateView, c: usize) -> Seq<usize> {
    if (c as int) < st.trans.len() {
        st.trans[c as int]
    } else {
        Seq::empty()
    }
}

/// The search from state `s` at input position `p` succeeds within `k`
/// steps: `s` is accepting and the input is used up; or a transition labelled
/// by the byte at `p` moves on to the next position; or an epsilon transition
/// moves on at the same position.
pub open spec fn acc(ss: Seq<StateView>, w: Seq<u8>, k: nat, s: int, p: int) -> bool
    decreases k,
{
    if k == 0 || !(0 <= s < ss.len()) {
        false
    } else {
        ||| (p >= w.len() && ss[s].terminate)
        ||| (0 <= p < w.len() && exists|i: int|
            0 <= i < edges(ss[s], w[p] as usize).len() && acc(
                ss,
                w,
                (k - 1) as nat,
                #[trigger] edges(ss[s], w[p] as usize)[i] as int,
                p + 1,
            ))
        ||| exists|i: int|
            0 <= i < edges(ss[s], EPSILON).len() && acc(
                ss,
                w,
                (k - 1) as nat,
                #[trigger] edges(ss[s], EPSILON)[i] as int,
                p,
            )
    }
}

/// The search from `s` at the beginning of `w` succeeds.
pub open spec fn accepts_from(ss: Seq<StateView>, w: Seq<u8>, s: int) -> bool {
    exists|k: nat| #[trigger] acc(ss, w, k, s, 0)
}

/// The first state from `i` on that is marked as a start state.
pub open spec fn first_start_from(ss: Seq<StateView>, i: int) -> Option<int>
    decreases ss.len() - i,
{
    if !(0 <= i < ss.len()) {
        None
    } else if ss[i].start {
        Some(i)
    } else {
        first_start_from(ss, i + 1)
    }
}

/// The automaton `ss` accepts `w`: the search from its first start state
/// succeeds.
pub open spec fn accepts(ss: Seq<StateView>, w: Seq<u8>) -> bool {
    match first_start_from(ss, 0) {
        Some(s) => accepts_from(ss, w, s),
        None => false,
    }
}

/// A transition on the byte read leads on to a successful search.
pub proof fn lemma_acc_on_char(ss: Seq<StateView>, w: Seq<u8>, k: nat, s: int, p: int, i: int)
    requires
        0 <= s < ss.len(),
        0 <= p < w.len(),
        0 <= i < edges(ss[s], w[p] as usize).len(),
        acc(ss, w, k, edges(ss[s], w[p] as usize)[i] as int, p + 1),
    ensures
        acc(ss, w, k + 1, s, p),
{
    assert(((k + 1) - 1) as nat == k);
}

/// An epsilon transition leads on to a successful search.
pub proof fn lemma_acc_eps(ss: Seq<StateView>, w: Seq<u8>, k: nat, s: int, p: int, i: int)
    requires
        0 <= s < ss.len(),
        0 <= i < edges(ss[s], EPSILON).len(),
        acc(ss, w, k, edges(ss[s], EPSILON)[i] as int, p),
    ensures
        acc(ss, w, k + 1, s, p),
{
    assert(((k + 1) - 1) as nat == k);
}

/// The low byte of each character of `input`.
fn input_bytes(input: &str) -> (res: Vec<u8>)
    ensures
        res@ == bytes_of(input@),
{
    let mut out: Vec<u8> = Vec::new();
    for c in it: input.chars()
        invariant
            it.seq() == input@,
            out@ == bytes_of(it.seq().take(it.index())),
    {
        out.push(c as u8);
    }
    out
}


// ---------------------------------------------------------------------------
// The search, position by position
// ---------------------------------------------------------------------------

/// Every state marked at position `p` can only succeed where the search from
/// `s0` at the beginning succeeds.
pub open spec fn sound_marks(ss: Seq<StateView>, w: Seq<u8>, marks: Seq<bool>, p: int, s0: int) -> bool {
    forall|t: int, k: nat|
        0 <= t < marks.len() && marks[t] && #[trigger] acc(ss, w, k, t, p) ==> accepts_from(ss, w, s0)
}

/// The targets of the transitions of `s` labelled `label` are all marked.
pub open spec fn targets_marked(ss: Seq<StateView>, s: int, label: usize, marks: Seq<bool>) -> bool {
    forall|i: int|
        0 <= i < edges(ss[s], label).len() && (edges(ss[s], label)[i] as int) < ss.len() ==> marks[#[trigger] edges(
            ss[s],
            label,
        )[i] as int]
}

/// Every state that `s` reaches without moving past position `p` is marked.
pub open spec fn closed_at(ss: Seq<StateView>, marks: Seq<bool>, s: int) -> bool {
    targets_marked(ss, s, EPSILON, marks)
}

/// Every state that `s` reaches by reading the byte at `p` is marked in
/// `next`.
pub open spec fn forward_ok(ss: Seq<StateView>, w: Seq<u8>, next: Seq<bool>, p: int, s: int) -> bool {
    targets_marked(ss, s, w[p] as usize, next)
}

/// The marks of a finished search, one set per position: closed at each
/// position, carried forward from each position to the next, and with no
/// accepting state at the end of the input.
pub open spec fn search_complete(ss: Seq<StateView>, w: Seq<u8>, h: Seq<Seq<bool>>) -> bool {
    &&& h.len() == w.len() + 1
    &&& forall|q: int| 0 <= q < h.len() ==> (#[trigger] h[q]).len() == ss.len()
    &&& forall|q: int, t: int|
        0 <= q < h.len() && 0 <= t < ss.len() && #[trigger] h[q][t] ==> closed_at(ss, h[q], t) && !(q
            == w.len() && ss[t].terminate)
    &&& forall|q: int, t: int|
        0 <= q < w.len() && 0 <= t < ss.len() && #[trigger] h[q][t] ==> forward_ok(ss, w, h[q + 1], q, t)
}

/// Marking more states keeps the targets of a state marked.
pub proof fn lemma_targets_mono(ss: Seq<StateView>, s: int, label: usize, m1: Seq<bool>, m2: Seq<bool>)
    requires
        targets_marked(ss, s, label, m1),
        m1.len() == ss.len(),
        m2.len() == ss.len(),
        forall|t: int| 0 <= t < ss.len() && m1[t] ==> #[trigger] m2[t],
    ensures
        targets_marked(ss, s, label, m2),
{
    assert forall|i: int|
        0 <= i < edges(ss[s], label).len() && (edges(ss[s], label)[i] as int) < ss.len() implies m2[#[trigger] edges(
        ss[s],
        label,
    )[i] as int] by {
        assert(m1[edges(ss[s], label)[i] as int]);
    }
}

/// A finished search that marks no accepting state marks no state from which
/// the search could succeed.
pub proof fn lemma_search_complete(ss: Seq<StateView>, w: Seq<u8>, h: Seq<Seq<bool>>, k: nat, t: int, q: int)
    requires
        search_complete(ss, w, h),
        0 <= q <= w.len(),
        0 <= t < ss.len(),
        h[q][t],
    ensures
        !acc(ss, w, k, t, q),
    decreases k,
{
    if k > 0 && acc(ss, w, k, t, q) {
        let k1 = (k - 1) as nat;
        let n = w.len() as int;
        let eps = edges(ss[t], EPSILON);
        assert(closed_at(ss, h[q], t));
        assert(!(q == n && ss[t].terminate));
        if q < n {
            let on = edges(ss[t], w[q] as usize);
            if exists|i: int| 0 <= i < on.len() && acc(ss, w, k1, #[trigger] on[i] as int, q + 1) {
                let i = choose|i: int| 0 <= i < on.len() && acc(ss, w, k1, #[trigger] on[i] as int, q + 1);
                let t2 = on[i] as int;
                if t2 < ss.len() {
                    assert(forward_ok(ss, w, h[q + 1], q, t));
                    assert(h[q + 1][t2]);
                    lemma_search_complete(ss, w, h, k1, t2, q + 1);
                }
                assert(false);
            }
        }
        if exists|i: int| 0 <= i < eps.len() && acc(ss, w, k1, #[trigger] eps[i] as int, q) {
            let i = choose|i: int| 0 <= i < eps.len() && acc(ss, w, k1, #[trigger] eps[i] as int, q);
            let t2 = eps[i] as int;
            if t2 < ss.len() {
                assert(h[q][t2]);
                lemma_search_complete(ss, w, h, k1, t2, q);
            }
            assert(false);
        }
        assert(false);
    }
}

/// How many entries of `s` are `true`.
pub open spec fn count_true(s: Seq<bool>) -> nat
    decreases s.len(),
{
    if s.len() == 0 {
        0
    } else {
        count_true(s.drop_last()) + if s.last() {
            1nat
        } else {
            0nat
        }
    }
}

/// Setting an entry that was `false` adds one to the count.
pub proof fn lemma_count_set(s: Seq<bool>, i: int)
    requires
        0 <= i < s.len(),
        !s[i],
    ensures
        count_true(s.update(i, true)) == count_true(s) + 1,
    decreases s.len(),
{
    let s2 = s.update(i, true);
    if i == s.len() - 1 {
        assert(s2.drop_last() =~= s.drop_last());
    } else {
        assert(s2.drop_last() =~= s.drop_last().update(i, true));
        lemma_count_set(s.drop_last(), i);
    }
}

/// The count is at most the length.
pub proof fn lemma_count_bound(s: Seq<bool>)
    ensures
        count_true(s) <= s.len(),
    decreases s.len(),
{
    if s.len() > 0 {
        lemma_count_bound(s.drop_last());
    }
}

/// A vector of `n` entries, all `false`.
fn falses(n: usize) -> (v: Vec<bool>)
    ensures
        v@.len() == n,
        forall|i: int| 0 <= i < n ==> !#[trigger] v@[i],
{
    let mut v: Vec<bool> = Vec::new();
    let mut i: usize = 0;
    while i < n
        invariant
            i <= n,
            v@.len() == i,
            forall|j: int| 0 <= j < i ==> !#[trigger] v@[j],
        decreases n - i,
    {
        v.push(false);
        i += 1;
    }
    v
}

/// Marks the targets of the transitions of `s` labelled `label`, and pushes
/// each state it newly marks onto `stack`.
fn mark_targets(states: &Vec<State>, s: usize, label: usize, marks: &mut Vec<bool>, stack: &mut Vec<usize>)
    requires
        s < states@.len(),
        old(marks)@.len() == states@.len(),
    ensures
        final(marks)@.len() == old(marks)@.len(),
        forall|t: int| 0 <= t < final(marks)@.len() && old(marks)@[t] ==> #[trigger] final(marks)@[t],
        targets_marked(states_view(states@), s as int, label, final(marks)@),
        forall|t: int|
            0 <= t < final(marks)@.len() && #[trigger] final(marks)@[t] && !old(marks)@[t] ==> exists|i: int|
                0 <= i < edges(states_view(states@)[s as int], label).len() && #[trigger] edges(
                    states_view(states@)[s as int],
                    label,
                )[i] as int == t,
        final(stack)@.len() >= old(stack)@.len(),
        final(stack)@.subrange(0, old(stack)@.len() as int) == old(stack)@,
        forall|j: int|
            old(stack)@.len() <= j < final(stack)@.len() ==> #[trigger] final(stack)@[j] < final(marks)@.len() && final(marks)@[final(stack)@[j] as int]
                && !old(marks)@[final(stack)@[j] as int],
        forall|t: int|
            0 <= t < final(marks)@.len() && #[trigger] final(marks)@[t] && !old(marks)@[t] ==> final(stack)@.contains(t as usize),
        count_true(final(marks)@) == count_true(old(marks)@) + (final(stack)@.len() - old(stack)@.len()),
{
    let ghost ss = states_view(states@);
    let ghost es = edges(ss[s as int], label);
    let tr = &states[s].transitions;
    if label < tr.len() {
        let list = &tr[label];
        assert(list@ == es);
        let mut j: usize = 0;
        while j < list.len()
            invariant
                j <= list@.len(),
                list@ == es,
                ss == states_view(states@),
                es == edges(ss[s as int], label),
                marks@.len() == old(marks)@.len(),
                marks@.len() == ss.len(),
                forall|t: int| 0 <= t < marks@.len() && old(marks)@[t] ==> #[trigger] marks@[t],
                forall|i: int| 0 <= i < j && (es[i] as int) < ss.len() ==> marks@[#[trigger] es[i] as int],
                forall|t: int|
                    0 <= t < marks@.len() && #[trigger] marks@[t] && !old(marks)@[t] ==> exists|i: int|
                        0 <= i < es.len() && #[trigger] es[i] as int == t,
                stack@.len() >= old(stack)@.len(),
                stack@.subrange(0, old(stack)@.len() as int) == old(stack)@,
                forall|jj: int|
                    old(stack)@.len() <= jj < stack@.len() ==> #[trigger] stack@[jj] < marks@.len()
                        && marks@[stack@[jj] as int] && !old(marks)@[stack@[jj] as int],
                forall|t: int|
                    0 <= t < marks@.len() && #[trigger] marks@[t] && !old(marks)@[t] ==> stack@.contains(
                        t as usize,
                    ),
                count_true(marks@) == count_true(old(marks)@) + (stack@.len() - old(stack)@.len()),
            decreases list@.len() - j,
        {
            let t = list[j];
            if t < marks.len() && !marks[t] {
                let ghost before = marks@;
                let ghost sbefore = stack@;
                proof {
                    lemma_count_set(before, t as int);
                }
                marks.set(t, true);
                stack.push(t);
                assert(stack@[stack@.len() - 1] == t);
                assert(stack@.subrange(0, old(stack)@.len() as int) =~= sbefore.subrange(
                    0,
                    old(stack)@.len() as int,
                ));
                assert forall|u: int|
                    0 <= u < marks@.len() && #[trigger] marks@[u] && !old(marks)@[u] implies stack@.contains(
                    u as usize,
                ) by {
                    if u == t as int {
                        assert(stack@[stack@.len() - 1] == u as usize);
                    } else {
                        assert(before[u]);
                        let jj = choose|jj: int| 0 <= jj < sbefore.len() && sbefore[jj] == u as usize;
                        assert(stack@[jj] == u as usize);
                    }
                }
                assert forall|u: int|
                    0 <= u < marks@.len() && #[trigger] marks@[u] && !old(marks)@[u] implies exists|i: int|
                    0 <= i < es.len() && #[trigger] es[i] as int == u by {
                    if u == t as int {
                        assert(es[j as int] as int == u);
                    } else {
                        assert(before[u]);
                    }
                }
            }
            j += 1;
        }
    } else {
        assert(es.len() == 0);
        assert(stack@.subrange(0, old(stack)@.len() as int) =~= old(stack)@);
    }
}


/// The byte at position `pos` of the input `w`, or `None` once the input is
/// used up.
fn get_char(w: &Vec<u8>, pos: usize) -> (c: Option<u8>)
    ensures
        pos < w@.len() ==> c == Some(w@[pos as int]),
        pos >= w@.len() ==> c is None,
{
    if pos >= w.len() {
        None
    } else {
        Some(w[pos])
    }
}

/// Marks, at position `p`, every state that a marked state reaches without
/// moving past `p`.
fn close_at(
    states: &Vec<State>,
    n: usize,
    p: usize,
    marks: &mut Vec<bool>,
    Ghost(w): Ghost<Seq<u8>>,
    Ghost(s0): Ghost<int>,
)
    requires
        n == w.len(),
        p <= n,
        old(marks)@.len() == states@.len(),
        sound_marks(states_view(states@), w, old(marks)@, p as int, s0),
    ensures
        final(marks)@.len() == states@.len(),
        forall|t: int| 0 <= t < states@.len() && old(marks)@[t] ==> #[trigger] final(marks)@[t],
        sound_marks(states_view(states@), w, final(marks)@, p as int, s0),
        forall|t: int|
            0 <= t < states@.len() && #[trigger] final(marks)@[t] ==> closed_at(
                states_view(states@),
                final(marks)@,
                t,
            ),
{
    let ghost ss = states_view(states@);
    let num = states.len();
    let mut stack: Vec<usize> = Vec::new();
    let mut t: usize = 0;
    while t < num
        invariant
            t <= num,
            num == states@.len(),
            marks@ == old(marks)@,
            marks@.len() == num,
            forall|j: int| 0 <= j < stack@.len() ==> #[trigger] stack@[j] < num && marks@[stack@[j] as int],
            forall|u: int| 0 <= u < t && #[trigger] marks@[u] ==> stack@.contains(u as usize),
        decreases num - t,
    {
        if marks[t] {
            let ghost sb = stack@;
            stack.push(t);
            assert forall|u: int| 0 <= u < t + 1 && #[trigger] marks@[u] implies stack@.contains(u as usize) by {
                if u == t as int {
                    assert(stack@[stack@.len() - 1] == t);
                } else {
                    let jj = choose|jj: int| 0 <= jj < sb.len() && sb[jj] == u as usize;
                    assert(stack@[jj] == u as usize);
                }
            }
        }
        t += 1;
    }
    proof {
        lemma_count_bound(marks@);
    }
    loop
        invariant
            num == states@.len(),
            ss == states_view(states@),
            n == w.len(),
            p <= n,
            marks@.len() == num,
            count_true(marks@) <= num,
            forall|u: int| 0 <= u < num && old(marks)@[u] ==> #[trigger] marks@[u],
            sound_marks(ss, w, marks@, p as int, s0),
            forall|j: int| 0 <= j < stack@.len() ==> #[trigger] stack@[j] < num && marks@[stack@[j] as int],
            forall|u: int|
                0 <= u < num && #[trigger] marks@[u] ==> stack@.contains(u as usize) || closed_at(
                    ss,
                    marks@,
                    u,
                ),
        ensures
            stack@.len() == 0,
        decreases num - count_true(marks@), stack@.len(),
    {
        let ghost st0 = stack@;
        let ghost m0 = marks@;
        let s = match stack.pop() {
            Some(s) => s,
            None => {
                break;
            },
        };
        assert(st0[st0.len() - 1] == s);
        assert(m0[s as int]);
        let ghost st1 = stack@;
        mark_targets(states, s, EPSILON, marks, &mut stack);
        let ghost m1 = marks@;
        let ghost st2 = stack@;
        assert(forall|j: int| 0 <= j < st1.len() ==> #[trigger] st2[j] == st1[j]) by {
            assert forall|j: int| 0 <= j < st1.len() implies #[trigger] st2[j] == st1[j] by {
                assert(st2.subrange(0, st1.len() as int)[j] == st2[j]);
            }
        }
        let ghost m2 = marks@;
        let ghost st3 = stack@;
        assert(forall|j: int| 0 <= j < st2.len() ==> #[trigger] st3[j] == st2[j]) by {
            assert forall|j: int| 0 <= j < st2.len() implies #[trigger] st3[j] == st2[j] by {
                assert(st3.subrange(0, st2.len() as int)[j] == st3[j]);
            }
        }
        proof {
            lemma_count_bound(marks@);
            lemma_targets_mono(ss, s as int, EPSILON, m1, m2);
            // The new marks are sound: each is reached from `s` at `p`.
            assert forall|t: int, k: nat|
                0 <= t < m2.len() && m2[t] && #[trigger] acc(ss, w, k, t, p as int) implies accepts_from(
                ss,
                w,
                s0,
            ) by {
                if !m0[t] {
                    let es = edges(ss[s as int], EPSILON);
                    let i = choose|i: int| 0 <= i < es.len() && #[trigger] es[i] as int == t;
                    lemma_acc_eps(ss, w, k, s as int, p as int, i);
                    assert(acc(ss, w, k + 1, s as int, p as int));
                }
            }
            assert forall|u: int|
                0 <= u < num && #[trigger] marks@[u] implies stack@.contains(u as usize) || closed_at(
                ss,
                marks@,
                u,
            ) by {
                if u == s as int {
                    assert(closed_at(ss, marks@, u));
                } else if m0[u] {
                    if st0.contains(u as usize) {
                        let jj = choose|jj: int| 0 <= jj < st0.len() && st0[jj] == u as usize;
                        assert(jj < st1.len());
                        assert(st1[jj] == u as usize);
                        assert(st3[jj] == u as usize);
                    } else {
                        assert(closed_at(ss, m0, u));
                        lemma_targets_mono(ss, u, EPSILON, m0, m2);
                    }
                } else if m1[u] {
                    let jj = choose|jj: int| 0 <= jj < st2.len() && st2[jj] == u as usize;
                    assert(st3[jj] == u as usize);
                } else {
                    assert(stack@.contains(u as usize));
                }
            }
        }
    }
}

/// The marks at position `p + 1`: every state that a state marked at `p`
/// reaches by reading the byte at `p`.
fn step(
    states: &Vec<State>,
    w: &Vec<u8>,
    p: usize,
    cur: &Vec<bool>,
    Ghost(s0): Ghost<int>,
) -> (next: Vec<bool>)
    requires
        p < w@.len(),
        cur@.len() == states@.len(),
        sound_marks(states_view(states@), w@, cur@, p as int, s0),
    ensures
        next@.len() == states@.len(),
        sound_marks(states_view(states@), w@, next@, p as int + 1, s0),
        forall|s: int|
            0 <= s < states@.len() && #[trigger] cur@[s] ==> forward_ok(
                states_view(states@),
                w@,
                next@,
                p as int,
                s,
            ),
{
    let ghost ss = states_view(states@);
    let num = states.len();
    let mut next = falses(num);
    let c = w[p];
    let mut scratch: Vec<usize> = Vec::new();
    let mut s: usize = 0;
    while s < num
        invariant
            s <= num,
            num == states@.len(),
            ss == states_view(states@),
            c == w@[p as int],
            p < w@.len(),
            cur@.len() == num,
            sound_marks(ss, w@, cur@, p as int, s0),
            next@.len() == num,
            sound_marks(ss, w@, next@, p as int + 1, s0),
            forall|u: int| 0 <= u < s && #[trigger] cur@[u] ==> forward_ok(ss, w@, next@, p as int, u),
        decreases num - s,
    {
        if cur[s] {
            let ghost n0 = next@;
            mark_targets(states, s, c as usize, &mut next, &mut scratch);
            let ghost n2 = next@;
            proof {
                assert forall|t: int, k: nat|
                    0 <= t < n2.len() && n2[t] && #[trigger] acc(ss, w@, k, t, p as int + 1) implies accepts_from(
                    ss,
                    w@,
                    s0,
                ) by {
                    if !n0[t] {
                        let es = edges(ss[s as int], c as usize);
                        let i = choose|i: int| 0 <= i < es.len() && #[trigger] es[i] as int == t;
                        lemma_acc_on_char(ss, w@, k, s as int, p as int, i);
                        assert(acc(ss, w@, k + 1, s as int, p as int));
                    }
                }
                assert forall|u: int| 0 <= u < s + 1 && #[trigger] cur@[u] implies forward_ok(
                    ss,
                    w@,
                    next@,
                    p as int,
                    u,
                ) by {
                    if u < s {
                        lemma_targets_mono(ss, u, c as usize, n0, n2);
                    }
                }
            }
        }
        s += 1;
    }
    next
}

/// Some marked state accepts.
fn has_accepting(states: &Vec<State>, marks: &Vec<bool>) -> (res: bool)
    requires
        marks@.len() == states@.len(),
    ensures
        res == exists|t: int| 0 <= t < marks@.len() && #[trigger] marks@[t] && states_view(states@)[t].terminate,
{
    let mut t: usize = 0;
    while t < marks.len()
        invariant
            marks@.len() == states@.len(),
            forall|u: int| 0 <= u < t && #[trigger] marks@[u] ==> !states_view(states@)[u].terminate,
        decreases marks@.len() - t,
    {
        if marks[t] && states[t].terminate {
            assert(states_view(states@)[t as int].terminate);
            return true;
        }
        t += 1;
    }
    false
}

/// Searches the automaton `states` for a way to accept `w` from state `s0` at
/// the beginning of `w`.
fn search_from_start(states: &Vec<State>, w: &Vec<u8>, s0: usize) -> (res: bool)
    requires
        s0 < states@.len(),
    ensures
        res == accepts_from(states_view(states@), w@, s0 as int),
{
    let ghost ss = states_view(states@);
    let num = states.len();
    let n = w.len();
    let mut cur = falses(num);
    cur.set(s0, true);
    assert forall|t: int, k: nat|
        0 <= t < cur@.len() && cur@[t] && #[trigger] acc(ss, w@, k, t, 0) implies accepts_from(ss, w@, s0 as int) by {
        assert(t == s0 as int);
    }
    let ghost mut h: Seq<Seq<bool>> = Seq::empty();
    let mut p: usize = 0;
    loop
        invariant
            p <= n,
            n == w@.len(),
            num == states@.len(),
            ss == states_view(states@),
            s0 < num,
            cur@.len() == num,
            h.len() == p,
            sound_marks(ss, w@, cur@, p as int, s0 as int),
            p == 0 ==> cur@[s0 as int],
            p > 0 ==> h[0][s0 as int],
            forall|q: int| 0 <= q < p ==> (#[trigger] h[q]).len() == num,
            forall|q: int, t: int|
                0 <= q < p && 0 <= t < num && #[trigger] h[q][t] ==> closed_at(ss, h[q], t) && !(q == n
                    && ss[t].terminate),
            forall|q: int, t: int|
                0 <= q < p && 0 <= t < num && #[trigger] h[q][t] ==> forward_ok(
                    ss,
                    w@,
                    h.push(cur@)[q + 1],
                    q,
                    t,
                ),
        decreases n - p,
    {
        let ghost before = cur@;
        close_at(states, n, p, &mut cur, Ghost(w@), Ghost(s0 as int));
        proof {
            assert forall|q: int, t: int|
                0 <= q < p && 0 <= t < num && #[trigger] h[q][t] implies forward_ok(
                ss,
                w@,
                h.push(cur@)[q + 1],
                q,
                t,
            ) by {
                assert(forward_ok(ss, w@, h.push(before)[q + 1], q, t));
                if q + 1 == p {
                    assert(h.push(before)[q + 1] == before);
                    assert(h.push(cur@)[q + 1] == cur@);
                    lemma_targets_mono(ss, t, w@[q] as usize, before, cur@);
                } else {
                    assert(h.push(before)[q + 1] == h[q + 1]);
                    assert(h.push(cur@)[q + 1] == h[q + 1]);
                }
            }
        }
        let c = get_char(w, p);
        if c.is_none() && has_accepting(states, &cur) {
            proof {
                let t = choose|t: int| 0 <= t < cur@.len() && #[trigger] cur@[t] && ss[t].terminate;
                assert(acc(ss, w@, 1, t, p as int));
            }
            return true;
        }
        let ghost h2 = h.push(cur@);
        proof {
            assert forall|q: int, t: int|
                0 <= q < p + 1 && 0 <= t < num && #[trigger] h2[q][t] implies closed_at(ss, h2[q], t) && !(q
                == n && ss[t].terminate) by {
                if q == p as int {
                    assert(h2[q] == cur@);
                } else {
                    assert(h2[q] == h[q]);
                }
            }
        }
        if p == n {
            proof {
                assert(search_complete(ss, w@, h2)) by {
                    assert forall|q: int| 0 <= q < h2.len() implies (#[trigger] h2[q]).len() == ss.len() by {
                        if q == p as int {
                            assert(h2[q] == cur@);
                        } else {
                            assert(h2[q] == h[q]);
                        }
                    }
                    assert forall|q: int, t: int|
                        0 <= q < w@.len() && 0 <= t < ss.len() && #[trigger] h2[q][t] implies forward_ok(
                        ss,
                        w@,
                        h2[q + 1],
                        q,
                        t,
                    ) by {
                        assert(h2[q] == h[q]);
                    }
                }
                assert(h2[0][s0 as int]) by {
                    if p == 0 {
                        assert(h2[0] == cur@);
                    } else {
                        assert(h2[0] == h[0]);
                    }
                }
                assert forall|k: nat| !#[trigger] acc(ss, w@, k, s0 as int, 0) by {
                    lemma_search_complete(ss, w@, h2, k, s0 as int, 0);
                }
            }
            return false;
        }
        let next = step(states, w, p, &cur, Ghost(s0 as int));
        proof {
            assert forall|q: int, t: int|
                0 <= q < p + 1 && 0 <= t < num && #[trigger] h2[q][t] implies forward_ok(
                ss,
                w@,
                h2.push(next@)[q + 1],
                q,
                t,
            ) by {
                if q == p as int {
                    assert(h2[q] == cur@);
                    assert(h2.push(next@)[q + 1] == next@);
                } else {
                    assert(h2[q] == h[q]);
                    assert(h2.push(next@)[q + 1] == h.push(cur@)[q + 1]);
                }
            }
            assert(forall|q: int| 0 <= q < p + 1 ==> (#[trigger] h2[q]).len() == num) by {
                assert forall|q: int| 0 <= q < p + 1 implies (#[trigger] h2[q]).len() == num by {
                    if q == p as int {
                        assert(h2[q] == cur@);
                    } else {
                        assert(h2[q] == h[q]);
                    }
                }
            }
            assert(h2[0][s0 as int]) by {
                if p == 0 {
                    assert(h2[0] == cur@);
                } else {
                    assert(h2[0] == h[0]);
                }
            }
            h = h2;
        }
        cur = next;
        p += 1;
    }
}

/// Starting `d` bytes into the input is starting at the beginning of what
/// is left of it.
pub proof fn lemma_acc_shift(ss: Seq<StateView>, w: Seq<u8>, d: int, k: nat, s: int, p: int)
    requires
        0 <= d <= w.len(),
        0 <= p,
    ensures
        acc(ss, w, k, s, p + d) == acc(ss, w.skip(d), k, s, p),
    decreases k,
{
    let v = w.skip(d);
    if k > 0 && 0 <= s < ss.len() {
        let k1 = (k - 1) as nat;
        assert forall|t: int| #[trigger] acc(ss, w, k1, t, p + d + 1) == acc(ss, v, k1, t, p + 1) by {
            lemma_acc_shift(ss, w, d, k1, t, p + 1);
        }
        assert forall|t: int| #[trigger] acc(ss, w, k1, t, p + d) == acc(ss, v, k1, t, p) by {
            lemma_acc_shift(ss, w, d, k1, t, p);
        }
        let eps = edges(ss[s], EPSILON);
        if exists|i: int| 0 <= i < eps.len() && acc(ss, w, k1, #[trigger] eps[i] as int, p + d) {
            let i = choose|i: int| 0 <= i < eps.len() && acc(ss, w, k1, #[trigger] eps[i] as int, p + d);
            assert(acc(ss, v, k1, eps[i] as int, p));
        }
        if exists|i: int| 0 <= i < eps.len() && acc(ss, v, k1, #[trigger] eps[i] as int, p) {
            let i = choose|i: int| 0 <= i < eps.len() && acc(ss, v, k1, #[trigger] eps[i] as int, p);
            assert(acc(ss, w, k1, eps[i] as int, p + d));
        }
        if p < v.len() {
            assert(v[p] == w[p + d]);
            let on = edges(ss[s], w[p + d] as usize);
            assert(on == edges(ss[s], v[p] as usize));
            if exists|i: int| 0 <= i < on.len() && acc(ss, w, k1, #[trigger] on[i] as int, p + d + 1) {
                let i = choose|i: int| 0 <= i < on.len() && acc(ss, w, k1, #[trigger] on[i] as int, p + d + 1);
                assert(acc(ss, v, k1, on[i] as int, p + 1));
            }
            if exists|i: int| 0 <= i < on.len() && acc(ss, v, k1, #[trigger] on[i] as int, p + 1) {
                let i = choose|i: int| 0 <= i < on.len() && acc(ss, v, k1, #[trigger] on[i] as int, p + 1);
                assert(acc(ss, w, k1, on[i] as int, p + d + 1));
            }
        }
        assert(acc(ss, w, k, s, p + d) == acc(ss, v, k, s, p));
    }
}

/// Searches the automaton `states` for a way to accept the rest of `w` from
/// state `s0` at position `pos`.
fn check(states: &Vec<State>, w: &Vec<u8>, s0: usize, pos: usize) -> (res: bool)
    requires
        s0 < states@.len(),
        pos <= w@.len(),
    ensures
        res == exists|k: nat| #[trigger] acc(states_view(states@), w@, k, s0 as int, pos as int),
{
    let mut rest: Vec<u8> = Vec::new();
    let mut i = pos;
    while i < w.len()
        invariant
            pos <= i <= w@.len(),
            rest@ == w@.subrange(pos as int, i as int),
        decreases w@.len() - i,
    {
        rest.push(w[i]);
        i += 1;
        assert(rest@ =~= w@.subrange(pos as int, i as int));
    }
    let res = search_from_start(states, &rest, s0);
    proof {
        let ss = states_view(states@);
        assert(rest@ =~= w@.skip(pos as int));
        assert forall|k: nat| #[trigger] acc(ss, w@, k, s0 as int, pos as int) == acc(ss, rest@, k, s0 as int, 0) by {
            lemma_acc_shift(ss, w@, pos as int, k, s0 as int, 0);
        }
        if res {
            let k = choose|k: nat| #[trigger] acc(ss, rest@, k, s0 as int, 0);
            assert(acc(ss, w@, k, s0 as int, pos as int));
        }
        if exists|k: nat| #[trigger] acc(ss, w@, k, s0 as int, pos as int) {
            let k = choose|k: nat| #[trigger] acc(ss, w@, k, s0 as int, pos as int);
            assert(acc(ss, rest@, k, s0 as int, 0));
        }
    }
    res
}

impl NFA {
    /// Runs `input` against this automaton: searches from its first start
    /// state; `false` where no state is marked as a start.
    pub fn matches(&self, input: &str) -> (res: bool)
        ensures
            res == accepts(self@, bytes_of(input@)),
    {
        let num = self.states.len();
        let mut s0: usize = 0;
        while s0 < num && !self.states[s0].start
            invariant
                s0 <= num,
                num == self.states@.len(),
                first_start_from(self@, s0 as int) == first_start_from(self@, 0),
            decreases num - s0,
        {
            s0 += 1;
        }
        if s0 == num {
            return false;
        }
        assert(self@[s0 as int].start);
        let w = input_bytes(input);
        let res = check(&self.states, &w, s0, 0);
        assert(res == accepts_from(self@, w@, s0 as int));
        res
    }
}

} // verus!

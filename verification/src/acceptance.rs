use vstd::prelude::*;

use crate::language::{
    all_in, atom_block, atom_has, atom_trans, block_ok, block_size, copies_of, copy_trans, count_ok, eps_trans,
    ext_of, is_atom, is_simple, lemma_block_fits, lemma_block_frame, lemma_chain_simple, lemma_offset_mono,
    offset, plain_bounds,
    reads, repeat_atom, repeat_block, repeat_max, repeat_min, skippable, tokens_match,
};
use crate::state::{
    EPSILON, StateView, acc, accepts, accepts_from, chain, ctx_build, edges,
    first_start_from, lemma_acc_eps, lemma_acc_on_char, lemma_first_start,
};
use crate::token::TokenView;

verus! {

// ---------------------------------------------------------------------------
// The automaton for a sequence of simple tokens
// ---------------------------------------------------------------------------

/// The automaton for the simple tokens `toks`, built on nothing and marked:
/// token `i` laid at `offset(toks, i)`, each exit going on to the next entry,
/// the exit of the last token accepting.
pub open spec fn simple_graph(g: Seq<StateView>, toks: Seq<TokenView>) -> bool {
    let m = toks.len() as int;
    &&& m >= 1
    &&& forall|i: int| 0 <= i < m ==> is_simple(#[trigger] toks[i])
    &&& g.len() == offset(toks, m)
    &&& g.len() <= usize::MAX
    &&& forall|i: int|
        0 <= i < m ==> block_ok(g, #[trigger] toks[i], offset(toks, i), ext_of(toks, 0, i, m), i == m - 1)
}

/// The exit targets of block `i` of `n` laid at the offsets `o`: the next
/// entry, or none for the last one.
pub open spec fn ext_at(o: Seq<int>, i: int, n: int) -> Seq<usize> {
    if i < n - 1 {
        seq![o[i + 1] as usize]
    } else {
        Seq::empty()
    }
}

/// An automaton holding a block for each of the simple tokens `toks`, token
/// `i` laid at `o[i]`, each exit going on to the next entry, the exit of the
/// last one accepting.
pub open spec fn leaf_graph(g: Seq<StateView>, toks: Seq<TokenView>, o: Seq<int>) -> bool {
    let m = toks.len() as int;
    &&& m >= 1
    &&& o.len() == m
    &&& forall|i: int| 0 <= i < m ==> is_simple(#[trigger] toks[i])
    &&& g.len() <= usize::MAX
    &&& forall|i: int| 0 <= i < m ==> block_ok(g, #[trigger] toks[i], o[i], ext_at(o, i, m), i == m - 1)
}

/// The offsets of the blocks of simple tokens laid one after the other.
pub open spec fn offsets(toks: Seq<TokenView>) -> Seq<int> {
    Seq::new(toks.len(), |i: int| offset(toks, i))
}

pub proof fn lemma_simple_leaf_graph(g: Seq<StateView>, toks: Seq<TokenView>)
    requires
        simple_graph(g, toks),
    ensures
        leaf_graph(g, toks, offsets(toks)),
{
    let m = toks.len() as int;
    let o = offsets(toks);
    assert forall|i: int| 0 <= i < m implies block_ok(g, #[trigger] toks[i], o[i], ext_at(o, i, m), i == m - 1) by {
        assert(ext_at(o, i, m) == ext_of(toks, 0, i, m));
    }
}

/// Marking the start and the accepting exit keeps each block, and makes the
/// last one accept.
proof fn lemma_mark_keep(
    f: Seq<StateView>,
    g: Seq<StateView>,
    t: TokenView,
    b: int,
    ext: Seq<usize>,
    e: int,
    last: bool,
)
    requires
        block_ok(f, t, b, ext, false),
        g.len() == f.len(),
        forall|idx: int| 0 <= idx < f.len() ==> (#[trigger] g[idx]).trans == f[idx].trans,
        forall|idx: int| 0 <= idx < f.len() && idx != e ==> (#[trigger] g[idx]).terminate == f[idx].terminate,
        0 <= e < g.len(),
        g[e].terminate,
        last ==> e == b + 1,
        !last ==> !(b <= e < b + block_size(t)),
    ensures
        block_ok(g, t, b, ext, last),
{
    lemma_block_fits(f, t, b, ext, false);
    assert(g[b + 1].terminate == last || g[b + 1].terminate == f[b + 1].terminate);
    lemma_block_frame(f, g, t, b, ext, false, last);
}

/// The automaton built on nothing for simple tokens has the shape of
/// `simple_graph`, and its search begins at state 0.
pub proof fn lemma_simple_graph(toks: Seq<TokenView>)
    requires
        toks.len() >= 1,
        forall|i: int| 0 <= i < toks.len() ==> is_simple(#[trigger] toks[i]),
        offset(toks, toks.len() as int) <= usize::MAX,
    ensures
        simple_graph(ctx_build(Seq::empty(), toks).0, toks),
        ctx_build(Seq::empty(), toks).1 == 0,
        first_start_from(ctx_build(Seq::empty(), toks).0, 0) == Some(0int),
{
    let m = toks.len() as int;
    let empty = Seq::<StateView>::empty();
    lemma_chain_simple(empty, toks, m);
    let (f, s, e) = chain(empty, toks, m);
    lemma_offset_mono(toks, m - 1, m);
    lemma_offset_mono(toks, 0, m);
    assert(offset(toks, m) == offset(toks, m - 1) + block_size(toks[m - 1]));
    crate::language::lemma_block_size(toks[m - 1]);
    lemma_offset_mono(toks, 0, m - 1);
    assert(0 <= e < f.len());
    let s2 = f.update(s, StateView { start: true, terminate: f[s].terminate, trans: f[s].trans });
    let g = s2.update(e, StateView { start: s2[e].start, terminate: true, trans: s2[e].trans });
    assert(ctx_build(empty, toks).0 == g);
    assert(s == 0);
    assert(g.len() == f.len());
    assert forall|idx: int| 0 <= idx < f.len() implies (#[trigger] g[idx]).trans == f[idx].trans by {
    }
    assert forall|idx: int| 0 <= idx < f.len() && idx != e implies (#[trigger] g[idx]).terminate
        == f[idx].terminate by {
    }
    assert forall|i: int|
        0 <= i < m implies block_ok(g, #[trigger] toks[i], offset(toks, i), ext_of(toks, 0, i, m), i == m - 1) by {
        let b = offset(toks, i);
        assert(block_ok(f, toks[i], 0 + offset(toks, i), ext_of(toks, 0, i, m), false));
        if i < m - 1 {
            lemma_offset_mono(toks, i + 1, m - 1);
            assert(offset(toks, i + 1) == offset(toks, i) + block_size(toks[i]));
        }
        lemma_mark_keep(f, g, toks[i], b, ext_of(toks, 0, i, m), e, i == m - 1);
    }
    assert(g[0].start);
    lemma_first_start(g, 0, 0);
}

/// The shape of the block of token `i`, where it is a quantified atom.
pub proof fn lemma_repeat_at(g: Seq<StateView>, toks: Seq<TokenView>, o: Seq<int>, i: int)
    requires
        leaf_graph(g, toks, o),
        0 <= i < toks.len(),
        !is_atom(toks[i]),
    ensures
        repeat_block(g, toks[i], o[i], ext_at(o, i, toks.len() as int), i == toks.len() - 1),
        plain_bounds(repeat_min(toks[i]), repeat_max(toks[i])),
        is_atom(repeat_atom(toks[i])),
{
    reveal(block_ok);
    assert(block_ok(g, toks[i], o[i], ext_at(o, i, toks.len() as int), i == toks.len() - 1));
}

/// The shape of the block of token `i`, where it is an atom.
pub proof fn lemma_atom_at(g: Seq<StateView>, toks: Seq<TokenView>, o: Seq<int>, i: int)
    requires
        leaf_graph(g, toks, o),
        0 <= i < toks.len(),
        is_atom(toks[i]),
    ensures
        atom_block(g, toks[i], o[i], ext_at(o, i, toks.len() as int), i == toks.len() - 1),
{
    reveal(block_ok);
    assert(block_ok(g, toks[i], o[i], ext_at(o, i, toks.len() as int), i == toks.len() - 1));
}

// ---------------------------------------------------------------------------
// One step of the search
// ---------------------------------------------------------------------------

/// From a state with epsilon transitions only, the search accepts at the end
/// of the input or goes on by one of them.
pub proof fn lemma_eps_state(g: Seq<StateView>, w: Seq<u8>, k: nat, s: int, p: int, e: Seq<usize>)
    requires
        0 <= s < g.len(),
        g[s].trans == eps_trans(e),
        0 <= p,
        acc(g, w, k, s, p),
    ensures
        k >= 1,
        (p >= w.len() && g[s].terminate) || exists|i: int|
            0 <= i < e.len() && #[trigger] acc(g, w, (k - 1) as nat, e[i] as int, p),
{
    let k1 = (k - 1) as nat;
    assert(edges(g[s], EPSILON) == e);
    if p < w.len() {
        assert(edges(g[s], w[p] as usize) =~= Seq::<usize>::empty());
    }
    if !(p >= w.len() && g[s].terminate) {
        assert(exists|i: int|
            0 <= i < edges(g[s], EPSILON).len() && acc(g, w, k1, #[trigger] edges(g[s], EPSILON)[i] as int, p));
        let i = choose|i: int|
            0 <= i < edges(g[s], EPSILON).len() && acc(g, w, k1, #[trigger] edges(g[s], EPSILON)[i] as int, p);
        assert(acc(g, w, k1, e[i] as int, p));
    }
}

/// From a state that reads the atom `x` into `t`, with epsilon transitions
/// `e` besides, the search accepts at the end of the input, reads a byte of
/// `x`, or goes on by one of `e`.
pub proof fn lemma_atom_state(
    g: Seq<StateView>,
    w: Seq<u8>,
    k: nat,
    s: int,
    p: int,
    x: TokenView,
    t: int,
    e: Seq<usize>,
)
    requires
        0 <= s < g.len(),
        0 <= t <= usize::MAX,
        is_atom(x),
        g[s].trans == atom_trans(x, t).update(EPSILON as int, e),
        0 <= p,
        acc(g, w, k, s, p),
    ensures
        k >= 1,
        (p >= w.len() && g[s].terminate) || (p < w.len() && atom_has(x, w[p]) && acc(
            g,
            w,
            (k - 1) as nat,
            t,
            p + 1,
        )) || exists|i: int| 0 <= i < e.len() && #[trigger] acc(g, w, (k - 1) as nat, e[i] as int, p),
{
    assert(edges(g[s], EPSILON) == e);
    let k1 = (k - 1) as nat;
    if !(p >= w.len() && g[s].terminate) {
        if p < w.len() {
            let c = w[p];
            assert(((c as usize) as int) as u8 == c);
            if atom_has(x, c) {
                assert(edges(g[s], c as usize) =~= seq![t as usize]);
            } else {
                assert(edges(g[s], c as usize) =~= Seq::<usize>::empty());
            }
        }
        if p < w.len() && exists|i: int|
            0 <= i < edges(g[s], w[p] as usize).len() && acc(
                g,
                w,
                k1,
                #[trigger] edges(g[s], w[p] as usize)[i] as int,
                p + 1,
            ) {
            let i = choose|i: int|
                0 <= i < edges(g[s], w[p] as usize).len() && acc(
                    g,
                    w,
                    k1,
                    #[trigger] edges(g[s], w[p] as usize)[i] as int,
                    p + 1,
                );
            assert(acc(g, w, k1, t, p + 1));
        } else {
            assert(exists|i: int|
                0 <= i < edges(g[s], EPSILON).len() && acc(g, w, k1, #[trigger] edges(g[s], EPSILON)[i] as int, p));
            let i = choose|i: int|
                0 <= i < edges(g[s], EPSILON).len() && acc(g, w, k1, #[trigger] edges(g[s], EPSILON)[i] as int, p);
            assert(acc(g, w, k1, e[i] as int, p));
        }
    }
}

/// The search succeeds from `s` at `p` within some number of steps.
pub open spec fn reach(g: Seq<StateView>, w: Seq<u8>, s: int, p: int) -> bool {
    exists|k: nat| #[trigger] acc(g, w, k, s, p)
}

/// An epsilon transition to a state from which the search succeeds.
pub proof fn lemma_reach_eps(g: Seq<StateView>, w: Seq<u8>, s: int, p: int, e: Seq<usize>, i: int)
    requires
        0 <= s < g.len(),
        (EPSILON as int) < g[s].trans.len(),
        g[s].trans[EPSILON as int] == e,
        0 <= i < e.len(),
        reach(g, w, e[i] as int, p),
    ensures
        reach(g, w, s, p),
{
    let k = choose|k: nat| #[trigger] acc(g, w, k, e[i] as int, p);
    assert(edges(g[s], EPSILON) == e);
    lemma_acc_eps(g, w, k, s, p, i);
}

/// Reading a byte of the atom `x` into a state from which the search
/// succeeds one position on.
pub proof fn lemma_reach_read(g: Seq<StateView>, w: Seq<u8>, s: int, p: int, x: TokenView, t: int, e: Seq<usize>)
    requires
        0 <= s < g.len(),
        0 <= t <= usize::MAX,
        is_atom(x),
        g[s].trans == atom_trans(x, t).update(EPSILON as int, e),
        0 <= p < w.len(),
        atom_has(x, w[p]),
        reach(g, w, t, p + 1),
    ensures
        reach(g, w, s, p),
{
    let c = w[p];
    assert(((c as usize) as int) as u8 == c);
    assert(edges(g[s], c as usize) =~= seq![t as usize]);
    let k = choose|k: nat| #[trigger] acc(g, w, k, t, p + 1);
    assert(acc(g, w, k, edges(g[s], w[p] as usize)[0] as int, p + 1));
    lemma_acc_on_char(g, w, k, s, p, 0);
}

/// An accepting state past the end of the input.
pub proof fn lemma_reach_accept(g: Seq<StateView>, w: Seq<u8>, s: int, p: int)
    requires
        0 <= s < g.len(),
        g[s].terminate,
        p >= w.len(),
    ensures
        reach(g, w, s, p),
{
    assert(acc(g, w, 1, s, p));
}

/// An atom's transitions are those of a state that reads it with no epsilon
/// transitions.
pub proof fn lemma_atom_trans_plain(x: TokenView, t: int)
    requires
        is_atom(x),
    ensures
        atom_trans(x, t) == atom_trans(x, t).update(EPSILON as int, Seq::<usize>::empty()),
{
    assert(atom_trans(x, t) =~= atom_trans(x, t).update(EPSILON as int, Seq::<usize>::empty()));
}


// ---------------------------------------------------------------------------
// Counting the copies of a quantified atom
// ---------------------------------------------------------------------------

/// How many of the first `j` copies of an atom quantified with minimum `min`
/// cannot be passed over.
pub open spec fn mand(min: i8, j: int) -> int {
    if j <= 0 {
        0
    } else if min <= 1 {
        1
    } else if j < min {
        j
    } else {
        min as int
    }
}

/// The copies of the quantified atom `t`.
pub open spec fn kk(t: TokenView) -> int {
    copies_of(repeat_min(t), repeat_max(t))
}

/// With plain bounds, the counts that leave the block through its exit are
/// those within the bounds; the last copy is never passed over where there is
/// no maximum.
pub proof fn lemma_exit_counts(t: TokenView, c: int)
    requires
        plain_bounds(repeat_min(t), repeat_max(t)),
        0 <= c,
    ensures
        count_ok(repeat_min(t), repeat_max(t), c) == ((repeat_min(t) == 0 && c == 0) || (mand(repeat_min(t), kk(t))
            <= c && (repeat_max(t) == -1 || c <= kk(t)))),
        kk(t) >= 1,
        repeat_min(t) <= kk(t),
        repeat_max(t) == -1 ==> !skippable(kk(t), repeat_min(t)),
        repeat_max(t) != -1 ==> kk(t) == repeat_max(t),
{
}

// ---------------------------------------------------------------------------
// What a successful search reads
// ---------------------------------------------------------------------------

/// Every successful search from the entry of token `i + 1` reads what the
/// tokens from `i + 1` on read.
pub open spec fn next_ok(g: Seq<StateView>, toks: Seq<TokenView>, o: Seq<int>, w: Seq<u8>, i: int) -> bool {
    i + 1 >= toks.len() || forall|k: nat, q: int|
        0 <= q <= w.len() && #[trigger] acc(g, w, k, o[i + 1], q) ==> tokens_match(toks, i + 1, w, q)
}

/// What the walk through the block of token `i` rests on.
pub open spec fn sound_ctx(g: Seq<StateView>, toks: Seq<TokenView>, o: Seq<int>, w: Seq<u8>, i: int) -> bool {
    &&& leaf_graph(g, toks, o)
    &&& 0 <= i < toks.len()
    &&& next_ok(g, toks, o, w, i)
}

/// At the exit of quantified token `i`, having read `w[p..q]` with a count
/// that may leave there.
proof fn lemma_exit_sound(g: Seq<StateView>, toks: Seq<TokenView>, o: Seq<int>, w: Seq<u8>, k: nat, i: int, p: int, q: int)
    requires
        sound_ctx(g, toks, o, w, i),
        !is_atom(toks[i]),
        0 <= p <= q <= w.len(),
        all_in(repeat_atom(toks[i]), w, p, q),
        (repeat_min(toks[i]) == 0 && q == p) || (mand(repeat_min(toks[i]), kk(toks[i])) <= q - p && (repeat_max(
            toks[i],
        ) == -1 || q - p <= kk(toks[i]))),
        acc(g, w, k, o[i] + 1, q),
    ensures
        tokens_match(toks, i, w, p),
    decreases k,
{
    let m = toks.len() as int;
    let t = toks[i];
    let b = o[i];
    let max = repeat_max(t);
    let n = kk(t);
    lemma_repeat_at(g, toks, o, i);
    lemma_exit_counts(t, q - p);
    let lp = if max == -1 {
        seq![(b + 2 * n) as usize]
    } else {
        Seq::<usize>::empty()
    };
    let ext = ext_at(o, i, m);
    let e = lp + ext;
    assert(g[b + 1].trans == eps_trans(e));
    assert(g[b + 1].terminate == (i == m - 1));
    lemma_eps_state(g, w, k, b + 1, q, e);
    assert(reads(t, w, p, q));
    if q >= w.len() && g[b + 1].terminate {
        lemma_match_last(toks, i, w, p, q);
    } else {
        let idx = choose|idx: int| 0 <= idx < e.len() && #[trigger] acc(g, w, (k - 1) as nat, e[idx] as int, q);
        if idx < lp.len() {
            assert(e[idx] as int == b + 2 * n);
            lemma_copy_sound(g, toks, o, w, (k - 1) as nat, i, p, n, q);
        } else {
            lemma_ext_target(g, toks, o, i);
            assert(e[idx] == ext[idx - lp.len()]);
            lemma_match_next(g, toks, o, w, (k - 1) as nat, i, p, q);
        }
    }
}

/// The last token reading up to the end of the input.
proof fn lemma_match_last(toks: Seq<TokenView>, i: int, w: Seq<u8>, p: int, q: int)
    requires
        i == toks.len() - 1,
        0 <= i,
        q == w.len(),
        reads(toks[i], w, p, q),
    ensures
        tokens_match(toks, i, w, p),
{
    assert(tokens_match(toks, i + 1, w, q));
    assert(reads(toks[i], w, p, q) && tokens_match(toks, i + 1, w, q));
}

/// Token `i` reading up to `q`, and a successful search from the next token
/// at `q`.
proof fn lemma_match_next(g: Seq<StateView>, toks: Seq<TokenView>, o: Seq<int>, w: Seq<u8>, k: nat, i: int, p: int, q: int)
    requires
        0 <= i < toks.len() - 1,
        next_ok(g, toks, o, w, i),
        0 <= q <= w.len(),
        reads(toks[i], w, p, q),
        acc(g, w, k, o[i + 1], q),
    ensures
        tokens_match(toks, i, w, p),
{
    assert(tokens_match(toks, i + 1, w, q));
    assert(reads(toks[i], w, p, q) && tokens_match(toks, i + 1, w, q));
}

/// Where the exit of token `i` goes on to.
pub proof fn lemma_ext_target(g: Seq<StateView>, toks: Seq<TokenView>, o: Seq<int>, i: int)
    requires
        leaf_graph(g, toks, o),
        0 <= i < toks.len(),
    ensures
        i < toks.len() - 1 ==> ext_at(o, i, toks.len() as int) == seq![o[i + 1] as usize],
        i < toks.len() - 1 ==> (o[i + 1] as usize) as int == o[i + 1],
        i == toks.len() - 1 ==> ext_at(o, i, toks.len() as int) == Seq::<usize>::empty(),
{
    let m = toks.len() as int;
    if i < m - 1 {
        lemma_block_fits(g, toks[i + 1], o[i + 1], ext_at(o, i + 1, m), i + 1 == m - 1);
    }
}

/// At the entry of copy `j` of quantified token `i`, having read `w[p..q]`.
proof fn lemma_copy_sound(
    g: Seq<StateView>,
    toks: Seq<TokenView>,
    o: Seq<int>,
    w: Seq<u8>,
    k: nat,
    i: int,
    p: int,
    j: int,
    q: int,
)
    requires
        sound_ctx(g, toks, o, w, i),
        !is_atom(toks[i]),
        1 <= j <= kk(toks[i]),
        0 <= p <= q <= w.len(),
        all_in(repeat_atom(toks[i]), w, p, q),
        mand(repeat_min(toks[i]), j - 1) <= q - p,
        q - p <= j - 1 || (j == kk(toks[i]) && repeat_max(toks[i]) == -1),
        acc(g, w, k, o[i] + 2 * j, q),
    ensures
        tokens_match(toks, i, w, p),
    decreases k,
{
    let t = toks[i];
    let b = o[i];
    let min = repeat_min(t);
    let x = repeat_atom(t);
    lemma_repeat_at(g, toks, o, i);
    lemma_exit_counts(t, q - p);
    assert(g[b + 2 * j].trans == copy_trans(x, min, b, j) && !g[b + 2 * j].terminate);
    let e = if skippable(j, min) {
        seq![(b + 2 * j + 1) as usize]
    } else {
        Seq::<usize>::empty()
    };
    lemma_atom_state(g, w, k, b + 2 * j, q, x, b + 2 * j + 1, e);
    if q < w.len() && atom_has(x, w[q]) && acc(g, w, (k - 1) as nat, b + 2 * j + 1, q + 1) {
        assert(all_in(x, w, p, q + 1));
        lemma_copy_exit_sound(g, toks, o, w, (k - 1) as nat, i, p, j, q + 1);
    } else {
        let idx = choose|idx: int| 0 <= idx < e.len() && #[trigger] acc(g, w, (k - 1) as nat, e[idx] as int, q);
        assert(skippable(j, min));
        assert(e[idx] as int == b + 2 * j + 1);
        lemma_copy_exit_sound(g, toks, o, w, (k - 1) as nat, i, p, j, q);
    }
}

/// At the exit of copy `j` of quantified token `i`, having read `w[p..q]`.
proof fn lemma_copy_exit_sound(
    g: Seq<StateView>,
    toks: Seq<TokenView>,
    o: Seq<int>,
    w: Seq<u8>,
    k: nat,
    i: int,
    p: int,
    j: int,
    q: int,
)
    requires
        sound_ctx(g, toks, o, w, i),
        !is_atom(toks[i]),
        1 <= j <= kk(toks[i]),
        0 <= p <= q <= w.len(),
        all_in(repeat_atom(toks[i]), w, p, q),
        mand(repeat_min(toks[i]), j) <= q - p,
        q - p <= j || (j == kk(toks[i]) && repeat_max(toks[i]) == -1),
        acc(g, w, k, o[i] + 2 * j + 1, q),
    ensures
        tokens_match(toks, i, w, p),
    decreases k,
{
    let t = toks[i];
    let b = o[i];
    let n = kk(t);
    lemma_repeat_at(g, toks, o, i);
    lemma_exit_counts(t, q - p);
    assert((g[b + 2 * j + 1]).trans == eps_trans(
        if j < n {
            seq![(b + 2 * j + 2) as usize]
        } else {
            seq![(b + 1) as usize]
        },
    ) && !g[b + 2 * j + 1].terminate);
    let e = if j < n {
        seq![(b + 2 * j + 2) as usize]
    } else {
        seq![(b + 1) as usize]
    };
    lemma_eps_state(g, w, k, b + 2 * j + 1, q, e);
    let idx = choose|idx: int| 0 <= idx < e.len() && #[trigger] acc(g, w, (k - 1) as nat, e[idx] as int, q);
    if j < n {
        assert(e[idx] as int == b + 2 * (j + 1));
        lemma_copy_sound(g, toks, o, w, (k - 1) as nat, i, p, j + 1, q);
    } else {
        assert(e[idx] as int == b + 1);
        lemma_exit_sound(g, toks, o, w, (k - 1) as nat, i, p, q);
    }
}


/// From the entry of atom `i`, a successful search reads what the tokens from
/// `i` on read.
proof fn lemma_atom_sound(g: Seq<StateView>, toks: Seq<TokenView>, o: Seq<int>, w: Seq<u8>, k: nat, i: int, p: int)
    requires
        sound_ctx(g, toks, o, w, i),
        is_atom(toks[i]),
        0 <= p <= w.len(),
        acc(g, w, k, o[i], p),
    ensures
        tokens_match(toks, i, w, p),
{
    let m = toks.len() as int;
    let t = toks[i];
    let b = o[i];
    let ext = ext_at(o, i, m);
    lemma_atom_at(g, toks, o, i);
    lemma_atom_trans_plain(t, b + 1);
    lemma_atom_state(g, w, k, b, p, t, b + 1, Seq::<usize>::empty());
    assert(p < w.len() && atom_has(t, w[p]) && acc(g, w, (k - 1) as nat, b + 1, p + 1));
    assert(reads(t, w, p, p + 1));
    lemma_eps_state(g, w, (k - 1) as nat, b + 1, p + 1, ext);
    lemma_ext_target(g, toks, o, i);
    if p + 1 >= w.len() && g[b + 1].terminate {
        lemma_match_last(toks, i, w, p, p + 1);
    } else {
        let idx = choose|idx: int|
            0 <= idx < ext.len() && #[trigger] acc(g, w, ((k - 1) - 1) as nat, ext[idx] as int, p + 1);
        lemma_match_next(g, toks, o, w, ((k - 1) - 1) as nat, i, p, p + 1);
    }
}

/// From the entry of quantified token `i`, a successful search reads what the
/// tokens from `i` on read.
proof fn lemma_repeat_sound(g: Seq<StateView>, toks: Seq<TokenView>, o: Seq<int>, w: Seq<u8>, k: nat, i: int, p: int)
    requires
        sound_ctx(g, toks, o, w, i),
        !is_atom(toks[i]),
        0 <= p <= w.len(),
        acc(g, w, k, o[i], p),
    ensures
        tokens_match(toks, i, w, p),
{
    let t = toks[i];
    let b = o[i];
    let min = repeat_min(t);
    lemma_repeat_at(g, toks, o, i);
    let e = if min == 0 {
        seq![(b + 1) as usize, (b + 2) as usize]
    } else {
        seq![(b + 2) as usize]
    };
    lemma_eps_state(g, w, k, b, p, e);
    let idx = choose|idx: int| 0 <= idx < e.len() && #[trigger] acc(g, w, (k - 1) as nat, e[idx] as int, p);
    if min == 0 && idx == 0 {
        assert(e[idx] as int == b + 1);
        lemma_exit_sound(g, toks, o, w, (k - 1) as nat, i, p, p);
    } else {
        assert(e[idx] as int == b + 2 * 1);
        lemma_exit_counts(t, 0);
        lemma_copy_sound(g, toks, o, w, (k - 1) as nat, i, p, 1, p);
    }
}

/// Every successful search from the entry of token `i` reads what the tokens
/// from `i` on read.
pub proof fn lemma_tokens_sound(g: Seq<StateView>, toks: Seq<TokenView>, o: Seq<int>, w: Seq<u8>, i: int)
    requires
        leaf_graph(g, toks, o),
        0 <= i < toks.len(),
    ensures
        forall|k: nat, p: int|
            0 <= p <= w.len() && #[trigger] acc(g, w, k, o[i], p) ==> tokens_match(toks, i, w, p),
    decreases toks.len() - i,
{
    if i + 1 < toks.len() {
        lemma_tokens_sound(g, toks, o, w, i + 1);
    }
    assert(next_ok(g, toks, o, w, i));
    assert forall|k: nat, p: int| 0 <= p <= w.len() && #[trigger] acc(g, w, k, o[i], p) implies tokens_match(
        toks,
        i,
        w,
        p,
    ) by {
        if is_atom(toks[i]) {
            lemma_atom_sound(g, toks, o, w, k, i, p);
        } else {
            lemma_repeat_sound(g, toks, o, w, k, i, p);
        }
    }
}


// ---------------------------------------------------------------------------
// A search succeeds on what the tokens read
// ---------------------------------------------------------------------------

/// The exit of token `i` leads to acceptance at `q`, where the tokens after
/// it read the rest of the input from `q`.
proof fn lemma_exit_complete(g: Seq<StateView>, toks: Seq<TokenView>, o: Seq<int>, w: Seq<u8>, i: int, q: int)
    requires
        leaf_graph(g, toks, o),
        0 <= i < toks.len(),
        0 <= q,
        tokens_match(toks, i + 1, w, q),
        i < toks.len() - 1 ==> reach(g, w, o[i + 1], q),
    ensures
        reach(g, w, o[i] + 1, q),
{
    let m = toks.len() as int;
    let t = toks[i];
    let b = o[i];
    let ext = ext_at(o, i, m);
    let lp = if !is_atom(t) && repeat_max(t) == -1 {
        seq![(b + 2 * kk(t)) as usize]
    } else {
        Seq::<usize>::empty()
    };
    let e = lp + ext;
    if is_atom(t) {
        lemma_atom_at(g, toks, o, i);
        assert(e =~= ext);
    } else {
        lemma_repeat_at(g, toks, o, i);
    }
    assert(g[b + 1].trans == eps_trans(e));
    assert(g[b + 1].terminate == (i == m - 1));
    lemma_ext_target(g, toks, o, i);
    if i == m - 1 {
        lemma_reach_accept(g, w, b + 1, q);
    } else {
        assert(e[lp.len() as int] as int == o[i + 1]);
        lemma_reach_eps(g, w, b + 1, q, e, lp.len() as int);
    }
}

/// Where quantified token `i` has no maximum, its exit at `q - r` leads to
/// its exit at `q` through `r` bytes its atom has.
proof fn lemma_loop_complete(g: Seq<StateView>, toks: Seq<TokenView>, o: Seq<int>, w: Seq<u8>, i: int, q: int, r: int)
    requires
        leaf_graph(g, toks, o),
        0 <= i < toks.len(),
        !is_atom(toks[i]),
        repeat_max(toks[i]) == -1,
        0 <= r <= q <= w.len(),
        all_in(repeat_atom(toks[i]), w, q - r, q),
        reach(g, w, o[i] + 1, q),
    ensures
        reach(g, w, o[i] + 1, q - r),
    decreases r,
{
    if r > 0 {
        let m = toks.len() as int;
        let t = toks[i];
        let b = o[i];
        let n = kk(t);
        let x = repeat_atom(t);
        let min = repeat_min(t);
        lemma_loop_complete(g, toks, o, w, i, q, r - 1);
        lemma_repeat_at(g, toks, o, i);
        lemma_exit_counts(t, 0);
        assert((g[b + 2 * n + 1]).trans == eps_trans(seq![(b + 1) as usize]));
        lemma_reach_eps(g, w, b + 2 * n + 1, q - r + 1, seq![(b + 1) as usize], 0);
        assert(g[b + 2 * n].trans == copy_trans(x, min, b, n));
        assert(atom_has(x, w[q - r]));
        lemma_reach_read(g, w, b + 2 * n, q - r, x, b + 2 * n + 1, Seq::<usize>::empty());
        let e = seq![(b + 2 * n) as usize] + ext_at(o, i, m);
        assert(g[b + 1].trans == eps_trans(e));
        lemma_reach_eps(g, w, b + 1, q - r, e, 0);
    }
}

/// The facts the walk through the copies of quantified token `i` rests on:
/// `c` bytes from `p` to take through them, each one its atom has, and the
/// exit reached after them.
pub open spec fn copies_ctx(g: Seq<StateView>, toks: Seq<TokenView>, o: Seq<int>, w: Seq<u8>, i: int, p: int, c: int) -> bool {
    &&& leaf_graph(g, toks, o)
    &&& 0 <= i < toks.len()
    &&& !is_atom(toks[i])
    &&& 1 <= c <= kk(toks[i])
    &&& repeat_min(toks[i]) <= c
    &&& 0 <= p
    &&& p + c <= w.len()
    &&& all_in(repeat_atom(toks[i]), w, p, p + c)
    &&& reach(g, w, o[i] + 1, p + c)
}

/// The smaller of `a` and `b`.
pub open spec fn min_int(a: int, b: int) -> int {
    if a <= b {
        a
    } else {
        b
    }
}

/// The entry of copy `j`, after the bytes the copies before it take.
proof fn lemma_copy_complete(g: Seq<StateView>, toks: Seq<TokenView>, o: Seq<int>, w: Seq<u8>, i: int, p: int, c: int, j: int)
    requires
        copies_ctx(g, toks, o, w, i, p, c),
        1 <= j <= kk(toks[i]),
    ensures
        reach(g, w, o[i] + 2 * j, p + min_int(j - 1, c)),
    decreases kk(toks[i]) - j, 1int,
{
    let t = toks[i];
    let b = o[i];
    let x = repeat_atom(t);
    let min = repeat_min(t);
    lemma_copy_exit_complete(g, toks, o, w, i, p, c, j);
    lemma_repeat_at(g, toks, o, i);
    assert(g[b + 2 * j].trans == copy_trans(x, min, b, j));
    let e = if skippable(j, min) {
        seq![(b + 2 * j + 1) as usize]
    } else {
        Seq::<usize>::empty()
    };
    if j - 1 < c {
        assert(atom_has(x, w[p + j - 1]));
        lemma_reach_read(g, w, b + 2 * j, p + j - 1, x, b + 2 * j + 1, e);
    } else {
        assert(skippable(j, min));
        lemma_reach_eps(g, w, b + 2 * j, p + c, e, 0);
    }
}

/// The exit of copy `j`, after the bytes the copies up to it take.
proof fn lemma_copy_exit_complete(
    g: Seq<StateView>,
    toks: Seq<TokenView>,
    o: Seq<int>,
    w: Seq<u8>,
    i: int,
    p: int,
    c: int,
    j: int,
)
    requires
        copies_ctx(g, toks, o, w, i, p, c),
        1 <= j <= kk(toks[i]),
    ensures
        reach(g, w, o[i] + 2 * j + 1, p + min_int(j, c)),
    decreases kk(toks[i]) - j, 0int,
{
    let t = toks[i];
    let b = o[i];
    let n = kk(t);
    lemma_repeat_at(g, toks, o, i);
    if j < n {
        lemma_copy_complete(g, toks, o, w, i, p, c, j + 1);
        assert(g[b + 2 * j + 1].trans == eps_trans(seq![(b + 2 * j + 2) as usize]));
        lemma_reach_eps(g, w, b + 2 * j + 1, p + min_int(j, c), seq![(b + 2 * j + 2) as usize], 0);
    } else {
        assert(g[b + 2 * j + 1].trans == eps_trans(seq![(b + 1) as usize]));
        lemma_reach_eps(g, w, b + 2 * j + 1, p + c, seq![(b + 1) as usize], 0);
    }
}

#[verifier::spinoff_prover]
#[verifier::rlimit(30)]
/// The entry of quantified token `i` leads to its exit at `q`, where it reads
/// the bytes from `p` up to `q`.
proof fn lemma_repeat_complete(g: Seq<StateView>, toks: Seq<TokenView>, o: Seq<int>, w: Seq<u8>, i: int, p: int, q: int)
    requires
        leaf_graph(g, toks, o),
        0 <= i < toks.len(),
        !is_atom(toks[i]),
        reads(toks[i], w, p, q),
        reach(g, w, o[i] + 1, q),
    ensures
        reach(g, w, o[i], p),
{
    let t = toks[i];
    let b = o[i];
    let min = repeat_min(t);
    let n = kk(t);
    let c = q - p;
    lemma_repeat_at(g, toks, o, i);
    lemma_exit_counts(t, c);
    let e = if min == 0 {
        seq![(b + 1) as usize, (b + 2) as usize]
    } else {
        seq![(b + 2) as usize]
    };
    assert(g[b].trans == eps_trans(e));
    if c == 0 {
        lemma_reach_eps(g, w, b, p, e, 0);
    } else {
        let c2 = min_int(c, n);
        if c > n {
            lemma_loop_complete(g, toks, o, w, i, q, c - n);
        }
        assert(reach(g, w, b + 1, p + c2));
        assert(copies_ctx(g, toks, o, w, i, p, c2));
        lemma_copy_complete(g, toks, o, w, i, p, c2, 1);
        assert(reach(g, w, b + 2 * 1, p + min_int(1 - 1, c2)));
        if min == 0 {
            lemma_reach_eps(g, w, b, p, e, 1);
        } else {
            lemma_reach_eps(g, w, b, p, e, 0);
        }
    }
}

/// The entry of atom `i` leads to its exit one byte on.
proof fn lemma_atom_complete(g: Seq<StateView>, toks: Seq<TokenView>, o: Seq<int>, w: Seq<u8>, i: int, p: int, q: int)
    requires
        leaf_graph(g, toks, o),
        0 <= i < toks.len(),
        is_atom(toks[i]),
        reads(toks[i], w, p, q),
        reach(g, w, o[i] + 1, q),
    ensures
        reach(g, w, o[i], p),
{
    let t = toks[i];
    let b = o[i];
    lemma_atom_at(g, toks, o, i);
    lemma_atom_trans_plain(t, b + 1);
    lemma_reach_read(g, w, b, p, t, b + 1, Seq::<usize>::empty());
}

/// Where the tokens from `i` on read the input from `p` to its end, the
/// search from the entry of token `i` at `p` succeeds.
pub proof fn lemma_tokens_complete(g: Seq<StateView>, toks: Seq<TokenView>, o: Seq<int>, w: Seq<u8>, i: int, p: int)
    requires
        leaf_graph(g, toks, o),
        0 <= i < toks.len(),
        0 <= p,
        tokens_match(toks, i, w, p),
    ensures
        reach(g, w, o[i], p),
    decreases toks.len() - i,
{
    let q = choose|q: int| #[trigger] reads(toks[i], w, p, q) && tokens_match(toks, i + 1, w, q);
    assert(q >= p);
    if i < toks.len() - 1 {
        lemma_tokens_complete(g, toks, o, w, i + 1, q);
    }
    lemma_exit_complete(g, toks, o, w, i, q);
    if is_atom(toks[i]) {
        lemma_atom_complete(g, toks, o, w, i, p, q);
    } else {
        lemma_repeat_complete(g, toks, o, w, i, p, q);
    }
}


// ---------------------------------------------------------------------------
// The language of the automaton
// ---------------------------------------------------------------------------

/// On an automaton holding blocks for simple tokens, the search from the
/// first entry succeeds on an input exactly when the tokens, one after the other, read the whole input.
pub proof fn lemma_leaf_language(g: Seq<StateView>, toks: Seq<TokenView>, o: Seq<int>, w: Seq<u8>)
    requires
        leaf_graph(g, toks, o),
    ensures
        accepts_from(g, w, o[0]) == tokens_match(toks, 0, w, 0),
{
    lemma_tokens_sound(g, toks, o, w, 0);
    if accepts_from(g, w, o[0]) {
        let k = choose|k: nat| #[trigger] acc(g, w, k, o[0], 0);
        assert(acc(g, w, k, o[0], 0));
    }
    if tokens_match(toks, 0, w, 0) {
        lemma_tokens_complete(g, toks, o, w, 0, 0);
        let k = choose|k: nat| #[trigger] acc(g, w, k, o[0], 0);
        assert(acc(g, w, k, o[0], 0));
    }
}

/// For a sequence of simple tokens (literals and bracket expressions, alone or
/// under a quantifier with plain bounds), the automaton built for it on an
/// empty one accepts an input exactly when the tokens,
/// one after the other, read the whole input: an atom one byte it has, a
/// quantified atom a count of bytes within its bounds, each one its atom has.
pub proof fn law_simple_language(toks: Seq<TokenView>, w: Seq<u8>)
    requires
        toks.len() >= 1,
        forall|i: int| 0 <= i < toks.len() ==> is_simple(#[trigger] toks[i]),
        offset(toks, toks.len() as int) <= usize::MAX,
    ensures
        accepts(ctx_build(Seq::empty(), toks).0, w) == tokens_match(toks, 0, w, 0),
{
    lemma_simple_graph(toks);
    let g = ctx_build(Seq::empty(), toks).0;
    lemma_simple_leaf_graph(g, toks);
    assert(offsets(toks)[0] == 0);
    lemma_leaf_language(g, toks, offsets(toks), w);
}

} // verus!

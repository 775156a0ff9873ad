use vstd::prelude::*;

use crate::state::{EPSILON, StateView, add_edge, build, chain, copy_count, empty_state, empty_trans, rep_loop};
use crate::token::{TokenType, TokenView, ValueView};

verus! {

// ---------------------------------------------------------------------------
// Atoms
// ---------------------------------------------------------------------------

/// A token that reads exactly one byte: a literal, or a bracket expression.
pub open spec fn is_atom(t: TokenView) -> bool {
    match t.value {
        ValueView::Char(_) => t.kind == TokenType::Literal,
        ValueView::Members(m) => t.kind == TokenType::Bracket && m.len() == 256,
        _ => false,
    }
}

/// The atom `t` reads the byte `b`.
pub open spec fn atom_has(t: TokenView, b: u8) -> bool {
    match t.value {
        ValueView::Char(c) => c == b,
        ValueView::Members(m) => m[b as int],
        _ => false,
    }
}

// ---------------------------------------------------------------------------
// Shape of the automaton built for atoms
// ---------------------------------------------------------------------------

/// The transitions of a state that reads the atom `t` into `target`.
pub open spec fn atom_trans(t: TokenView, target: int) -> Seq<Seq<usize>> {
    Seq::new(
        257,
        |y: int|
            if y < 256 && atom_has(t, y as u8) {
                seq![target as usize]
            } else {
                Seq::<usize>::empty()
            },
    )
}

/// The transitions of a state that only moves on by epsilon to `eps`.
pub open spec fn eps_trans(eps: Seq<usize>) -> Seq<Seq<usize>> {
    empty_trans().update(EPSILON as int, eps)
}

/// The entry of the fragment for an atom.
pub open spec fn atom_entry(t: TokenView, target: int) -> StateView {
    StateView { start: false, terminate: false, trans: atom_trans(t, target) }
}

/// A state that only moves on by epsilon to `eps`.
pub open spec fn link_state(eps: Seq<usize>) -> StateView {
    StateView { start: false, terminate: false, trans: eps_trans(eps) }
}

/// The fragment for an atom: an entry reading it into a fresh exit.
pub proof fn lemma_build_atom(ss: Seq<StateView>, t: TokenView)
    requires
        is_atom(t),
    ensures
        build(ss, t) == (
            ss.push(atom_entry(t, ss.len() as int + 1)).push(empty_state()),
            ss.len() as int,
            ss.len() as int + 1,
        ),
{
    let sp = ss.len() as int;
    let ep = sp + 1;
    let s0 = ss.push(empty_state()).push(empty_state());
    let r = build(ss, t).0;
    match t.value {
        ValueView::Char(c) => {
            assert(r[sp].trans =~~= atom_trans(t, ep));
        },
        ValueView::Members(m) => {
            assert forall|y: int| 0 <= y < 256 implies #[trigger] atom_has(t, y as u8) == m[y] by {
                assert((y as u8) as int == y);
            }
            assert(r[sp].trans =~~= atom_trans(t, ep));
        },
        _ => {},
    }
    assert(r =~= ss.push(atom_entry(t, ep)).push(empty_state()));
}

// ---------------------------------------------------------------------------
// Quantified atoms
// ---------------------------------------------------------------------------

/// How many copies of its atom the automaton for a quantifier holds.
pub open spec fn copies_of(min: i8, max: i8) -> int {
    if copy_count(min, max) >= 1 {
        copy_count(min, max)
    } else {
        1
    }
}

/// Copy `j` of a quantified atom can be passed over.
pub open spec fn skippable(j: int, min: i8) -> bool {
    j >= 2 && j > min
}

/// The transitions of copy `j` of a quantified atom laid at `b`.
pub open spec fn copy_trans(x: TokenView, min: i8, b: int, j: int) -> Seq<Seq<usize>> {
    atom_trans(x, b + 2 * j + 1).update(
        EPSILON as int,
        if skippable(j, min) {
            seq![(b + 2 * j + 1) as usize]
        } else {
            Seq::<usize>::empty()
        },
    )
}

/// Copies `1..=n` of the atom `x` laid at `b + 2j` (entry) and `b + 2j + 1`
/// (exit), each exit joined to the next entry, the last exit without
/// transitions.
pub open spec fn copies_ok(f: Seq<StateView>, x: TokenView, min: i8, b: int, n: int) -> bool {
    &&& n >= 1
    &&& f.len() == b + 2 + 2 * n
    &&& forall|j: int|
        1 <= j <= n ==> #[trigger] f[b + 2 * j] == StateView {
            start: false,
            terminate: false,
            trans: copy_trans(x, min, b, j),
        }
    &&& forall|j: int| 1 <= j < n ==> #[trigger] f[b + 2 * j + 1] == link_state(seq![(b + 2 * j + 2) as usize])
    &&& f[b + 2 * n + 1] == empty_state()
}

/// Laying copies `i..=k` of an atom after copies `1..i` keeps the shape of
/// `copies_ok`, now with the larger number of copies.
pub proof fn lemma_rep_loop_layout(f: Seq<StateView>, x: TokenView, min: i8, i: int, k: int, b: int)
    requires
        is_atom(x),
        2 <= i,
        0 <= b,
        copies_ok(f, x, min, b, i - 1),
        b + 2 + 2 * (if k >= i - 1 { k } else { i - 1 }) <= usize::MAX,
    ensures
        ({
            let r = rep_loop(f, x, min, i, k, b + 2 * (i - 1), b + 2 * (i - 1) + 1);
            let n2 = if k >= i - 1 {
                k
            } else {
                i - 1
            };
            &&& copies_ok(r.0, x, min, b, n2)
            &&& r.1 == b + 2 * n2
            &&& r.2 == b + 2 * n2 + 1
            &&& forall|idx: int| 0 <= idx < b + 2 ==> #[trigger] r.0[idx] == f[idx]
        }),
    decreases k + 1 - i,
{
    if i <= k {
        lemma_build_atom(f, x);
        let (s1, s, e) = build(f, x);
        assert(s == b + 2 * i && e == b + 2 * i + 1);
        let to = b + 2 * (i - 1) + 1;
        let s2 = add_edge(s1, to, EPSILON, s);
        let s3 = if i > min {
            add_edge(s2, s, EPSILON, e)
        } else {
            s2
        };
        assert(s3[to] == link_state(seq![(b + 2 * (i - 1) + 2) as usize])) by {
            assert(s3[to].trans =~~= eps_trans(seq![(b + 2 * (i - 1) + 2) as usize]));
        }
        assert(s3[s] == StateView { start: false, terminate: false, trans: copy_trans(x, min, b, i) }) by {
            assert(s3[s].trans =~~= copy_trans(x, min, b, i));
        }
        assert(copies_ok(s3, x, min, b, i)) by {
            assert forall|j: int| 1 <= j <= i implies #[trigger] s3[b + 2 * j] == StateView {
                start: false,
                terminate: false,
                trans: copy_trans(x, min, b, j),
            } by {
                if j < i {
                    assert(s3[b + 2 * j] == f[b + 2 * j]);
                }
            }
            assert forall|j: int| 1 <= j < i implies #[trigger] s3[b + 2 * j + 1] == link_state(
                seq![(b + 2 * j + 2) as usize],
            ) by {
                if j < i - 1 {
                    assert(s3[b + 2 * j + 1] == f[b + 2 * j + 1]);
                }
            }
        }
        lemma_rep_loop_layout(s3, x, min, i + 1, k, b);
        let r = rep_loop(s3, x, min, i + 1, k, b + 2 * i, b + 2 * i + 1);
        assert forall|idx: int| 0 <= idx < b + 2 implies #[trigger] r.0[idx] == f[idx] by {
            assert(r.0[idx] == s3[idx]);
        }
    }
}

/// A quantifier over an atom, with a copy count the construction accepts.
pub open spec fn is_atom_repeat(t: TokenView) -> bool {
    &&& t.kind == TokenType::Repeat
    &&& match t.value {
        ValueView::Repeat(min, max, x) => is_atom(*x) && copy_count(min, max) != 127,
        _ => false,
    }
}

/// The minimum of a quantifier.
pub open spec fn repeat_min(t: TokenView) -> i8 {
    match t.value {
        ValueView::Repeat(min, _, _) => min,
        _ => 0,
    }
}

/// The maximum of a quantifier (`-1`: none).
pub open spec fn repeat_max(t: TokenView) -> i8 {
    match t.value {
        ValueView::Repeat(_, max, _) => max,
        _ => 0,
    }
}

/// The token under a quantifier.
pub open spec fn repeat_atom(t: TokenView) -> TokenView {
    match t.value {
        ValueView::Repeat(_, _, x) => *x,
        _ => t,
    }
}

/// The states of the automaton for a quantified atom laid at `b`: entry `b`,
/// exit `b + 1` (accepting where `term`, then on by epsilon to `ext`), and the
/// copies of the atom in between.
pub open spec fn repeat_block(g: Seq<StateView>, t: TokenView, b: int, ext: Seq<usize>, term: bool) -> bool {
    let min = repeat_min(t);
    let max = repeat_max(t);
    let x = repeat_atom(t);
    let kk = copies_of(min, max);
    &&& is_atom_repeat(t)
    &&& 0 <= b
    &&& b + 2 + 2 * kk <= g.len()
    &&& g[b].trans == eps_trans(
        if min == 0 {
            seq![(b + 1) as usize, (b + 2) as usize]
        } else {
            seq![(b + 2) as usize]
        },
    )
    &&& !g[b].terminate
    &&& g[b + 1].trans == eps_trans(
        (if max == -1 {
            seq![(b + 2 * kk) as usize]
        } else {
            Seq::<usize>::empty()
        }) + ext,
    )
    &&& g[b + 1].terminate == term
    &&& forall|j: int|
        1 <= j <= kk ==> (#[trigger] g[b + 2 * j]).trans == copy_trans(x, min, b, j) && !g[b + 2 * j].terminate
    &&& forall|j: int|
        1 <= j <= kk ==> (#[trigger] g[b + 2 * j + 1]).trans == eps_trans(
            if j < kk {
                seq![(b + 2 * j + 2) as usize]
            } else {
                seq![(b + 1) as usize]
            },
        ) && !g[b + 2 * j + 1].terminate
}

/// The fragment for a quantified atom has the shape of `repeat_block`, with
/// nothing after its exit yet.
pub proof fn lemma_build_repeat(ss: Seq<StateView>, t: TokenView)
    requires
        is_atom_repeat(t),
        ss.len() + 2 + 2 * copies_of(repeat_min(t), repeat_max(t)) <= usize::MAX,
    ensures
        ({
            let (f, s, e) = build(ss, t);
            &&& f.len() == ss.len() + 2 + 2 * copies_of(repeat_min(t), repeat_max(t))
            &&& s == ss.len()
            &&& e == ss.len() + 1
            &&& forall|i: int| 0 <= i < ss.len() ==> #[trigger] f[i] == ss[i]
            &&& repeat_block(f, t, ss.len() as int, Seq::empty(), false)
        }),
{
    let b = ss.len() as int;
    let min = repeat_min(t);
    let max = repeat_max(t);
    let x = repeat_atom(t);
    let kk = copies_of(min, max);
    let sp = b;
    let ep = b + 1;
    let s0 = ss.push(empty_state()).push(empty_state());
    let s1 = if min == 0 {
        add_edge(s0, sp, EPSILON, ep)
    } else {
        s0
    };
    lemma_build_atom(s1, x);
    let (s2, from, to) = build(s1, x);
    assert(from == b + 2 && to == b + 3);
    assert(copies_ok(s2, x, min, b, 1)) by {
        assert(s2[b + 2] == StateView { start: false, terminate: false, trans: copy_trans(x, min, b, 1) }) by {
            assert(copy_trans(x, min, b, 1) =~~= atom_trans(x, b + 3));
        }
        assert(s2[b + 2 * 1] == s2[b + 2]);
    }
    let s3 = add_edge(s2, sp, EPSILON, from);
    assert(copies_ok(s3, x, min, b, 1)) by {
        assert(s3[b + 2 * 1] == s2[b + 2 * 1]);
        assert(s3[b + 2 * 1 + 1] == s2[b + 2 * 1 + 1]);
    }
    lemma_rep_loop_layout(s3, x, min, 2, copy_count(min, max), b);
    let (s4, from2, to2) = rep_loop(s3, x, min, 2, copy_count(min, max), from, to);
    assert(copies_ok(s4, x, min, b, kk));
    let s5 = add_edge(s4, to2, EPSILON, ep);
    let s6 = if max == -1 {
        add_edge(s5, ep, EPSILON, from2)
    } else {
        s5
    };
    let f = build(ss, t).0;
    assert(f == s6);
    assert(f[b].trans == eps_trans(
        if min == 0 {
            seq![(b + 1) as usize, (b + 2) as usize]
        } else {
            seq![(b + 2) as usize]
        },
    )) by {
        assert(f[b] == s3[b]);
        assert(s3[b].trans =~~= eps_trans(
            if min == 0 {
                seq![(b + 1) as usize, (b + 2) as usize]
            } else {
                seq![(b + 2) as usize]
            },
        ));
    }
    assert(f[b + 1].trans == eps_trans(
        (if max == -1 {
            seq![(b + 2 * kk) as usize]
        } else {
            Seq::<usize>::empty()
        }) + Seq::<usize>::empty(),
    )) by {
        assert(s5[b + 1] == s4[b + 1]);
        assert(s4[b + 1] == s3[b + 1]);
        assert(f[b + 1].trans =~~= eps_trans(
            (if max == -1 {
                seq![(b + 2 * kk) as usize]
            } else {
                Seq::<usize>::empty()
            }) + Seq::<usize>::empty(),
        ));
    }
    assert forall|j: int| 1 <= j <= kk implies (#[trigger] f[b + 2 * j]).trans == copy_trans(x, min, b, j)
        && !f[b + 2 * j].terminate by {
        assert(f[b + 2 * j] == s4[b + 2 * j]);
    }
    assert forall|j: int| 1 <= j <= kk implies (#[trigger] f[b + 2 * j + 1]).trans == eps_trans(
        if j < kk {
            seq![(b + 2 * j + 2) as usize]
        } else {
            seq![(b + 1) as usize]
        },
    ) && !f[b + 2 * j + 1].terminate by {
        if j < kk {
            assert(f[b + 2 * j + 1] == s4[b + 2 * j + 1]);
        } else {
            assert(s4[b + 2 * kk + 1] == empty_state());
            assert(f[b + 2 * j + 1].trans =~~= eps_trans(seq![(b + 1) as usize]));
        }
    }
    assert forall|i: int| 0 <= i < ss.len() implies #[trigger] f[i] == ss[i] by {
        assert(f[i] == s4[i]);
        assert(s4[i] == s3[i]);
    }
}

// ---------------------------------------------------------------------------
// Blocks of a token sequence
// ---------------------------------------------------------------------------

/// Bounds of a quantifier as `*`, `+`, `?`, `{n}`, `{n,}` and `{n,m}` write
/// them: a minimum of at least 0, and a maximum of at least 1 and at least the
/// minimum, or none (`-1`).
pub open spec fn plain_bounds(min: i8, max: i8) -> bool {
    0 <= min && (max == -1 || (1 <= max && min <= max))
}

/// A token that the language below covers: an atom, or an atom under a
/// quantifier with plain bounds.
pub open spec fn is_simple(t: TokenView) -> bool {
    is_atom(t) || (is_atom_repeat(t) && plain_bounds(repeat_min(t), repeat_max(t)))
}

/// The count `c` lies within the bounds `min` and `max` (`-1`: no maximum).
pub open spec fn count_ok(min: i8, max: i8, c: int) -> bool {
    min <= c && (max == -1 || c <= max)
}

/// The bytes of `w` from `p` up to `q` are each read by the atom `x`.
pub open spec fn all_in(x: TokenView, w: Seq<u8>, p: int, q: int) -> bool {
    forall|r: int| p <= r < q ==> #[trigger] atom_has(x, w[r])
}

/// The simple token `t` reads exactly the bytes of `w` from `p` up to `q`: an
/// atom one byte it has, a quantified atom a count of bytes within its bounds,
/// each one its atom has.
pub open spec fn reads(t: TokenView, w: Seq<u8>, p: int, q: int) -> bool {
    if is_atom(t) {
        0 <= p < w.len() && q == p + 1 && atom_has(t, w[p])
    } else {
        0 <= p <= q <= w.len() && count_ok(repeat_min(t), repeat_max(t), q - p) && all_in(repeat_atom(t), w, p, q)
    }
}

/// The simple tokens from `i` on read, one after the other, exactly the bytes
/// of `w` from `p` to its end.
pub open spec fn tokens_match(toks: Seq<TokenView>, i: int, w: Seq<u8>, p: int) -> bool
    decreases toks.len() - i,
{
    if i < 0 || i >= toks.len() {
        p == w.len()
    } else {
        exists|q: int| #[trigger] reads(toks[i], w, p, q) && tokens_match(toks, i + 1, w, q)
    }
}

/// How many states the automaton for a simple token takes.
pub open spec fn block_size(t: TokenView) -> int {
    if is_atom(t) {
        2
    } else {
        2 + 2 * copies_of(repeat_min(t), repeat_max(t))
    }
}

/// Where the states of token `i` begin.
pub open spec fn offset(toks: Seq<TokenView>, i: int) -> int
    decreases i,
{
    if i <= 0 {
        0
    } else {
        offset(toks, i - 1) + block_size(toks[i - 1])
    }
}

/// The states of an atom laid at `b`: entry `b` reading it into the exit
/// `b + 1`, which is accepting where `term` and goes on by epsilon to `ext`.
pub open spec fn atom_block(g: Seq<StateView>, t: TokenView, b: int, ext: Seq<usize>, term: bool) -> bool {
    &&& is_atom(t)
    &&& 0 <= b
    &&& b + 2 <= g.len()
    &&& g[b].trans == atom_trans(t, b + 1)
    &&& !g[b].terminate
    &&& g[b + 1].trans == eps_trans(ext)
    &&& g[b + 1].terminate == term
}

/// The states of a simple token laid at `b`: entry `b`, exit `b + 1`,
/// accepting where `term`, and going on by epsilon to `ext` from the exit.
#[verifier::opaque]
pub open spec fn block_ok(g: Seq<StateView>, t: TokenView, b: int, ext: Seq<usize>, term: bool) -> bool {
    if is_atom(t) {
        atom_block(g, t, b, ext, term)
    } else {
        repeat_block(g, t, b, ext, term)
    }
}

/// A simple token takes at least two states.
pub proof fn lemma_block_size(t: TokenView)
    requires
        is_simple(t),
    ensures
        block_size(t) >= 2,
{
}

/// Each simple token between `i` and `j` adds at least two states.
pub proof fn lemma_offset_mono(toks: Seq<TokenView>, i: int, j: int)
    requires
        0 <= i <= j <= toks.len(),
        forall|q: int| 0 <= q < toks.len() ==> is_simple(#[trigger] toks[q]),
    ensures
        offset(toks, i) + 2 * (j - i) <= offset(toks, j),
    decreases j - i,
{
    if i < j {
        lemma_offset_mono(toks, i, j - 1);
        lemma_block_size(toks[j - 1]);
    }
}

/// A block keeps its shape where the states it covers keep their transitions
/// and accepting flags; its exit may take another accepting flag.
pub proof fn lemma_block_frame(
    g1: Seq<StateView>,
    g2: Seq<StateView>,
    t: TokenView,
    b: int,
    ext: Seq<usize>,
    term1: bool,
    term2: bool,
)
    requires
        block_ok(g1, t, b, ext, term1),
        g2.len() >= b + block_size(t),
        forall|idx: int| b <= idx < b + block_size(t) ==> (#[trigger] g2[idx]).trans == g1[idx].trans,
        forall|idx: int|
            b <= idx < b + block_size(t) && idx != b + 1 ==> (#[trigger] g2[idx]).terminate == g1[idx].terminate,
        g2[b + 1].terminate == term2 || (term1 == term2 && g2[b + 1].terminate == g1[b + 1].terminate),
    ensures
        block_ok(g2, t, b, ext, term2),
{
    reveal(block_ok);
    if !is_atom(t) {
        let kk = copies_of(repeat_min(t), repeat_max(t));
        assert forall|j: int| 1 <= j <= kk implies (#[trigger] g2[b + 2 * j]).trans == copy_trans(
            repeat_atom(t),
            repeat_min(t),
            b,
            j,
        ) && !g2[b + 2 * j].terminate by {
            assert(g2[b + 2 * j].trans == g1[b + 2 * j].trans);
        }
        assert forall|j: int| 1 <= j <= kk implies (#[trigger] g2[b + 2 * j + 1]).trans == eps_trans(
            if j < kk {
                seq![(b + 2 * j + 2) as usize]
            } else {
                seq![(b + 1) as usize]
            },
        ) && !g2[b + 2 * j + 1].terminate by {
            assert(g2[b + 2 * j + 1].trans == g1[b + 2 * j + 1].trans);
        }
        assert(g2[b].trans == g1[b].trans);
        assert(g2[b + 1].trans == g1[b + 1].trans);
    } else {
        assert(g2[b].trans == g1[b].trans);
        assert(g2[b + 1].trans == g1[b + 1].trans);
    }
}

/// Joining a block's exit to `to` adds `to` to the exit's epsilon targets.
pub proof fn lemma_block_link(g: Seq<StateView>, t: TokenView, b: int, ext: Seq<usize>, to: int)
    requires
        block_ok(g, t, b, ext, false),
    ensures
        block_ok(add_edge(g, b + 1, EPSILON, to), t, b, ext.push(to as usize), false),
{
    reveal(block_ok);
    let g2 = add_edge(g, b + 1, EPSILON, to);
    if is_atom(t) {
        assert(g2[b + 1].trans =~~= eps_trans(ext.push(to as usize)));
    } else {
        let max = repeat_max(t);
        let kk = copies_of(repeat_min(t), max);
        let lp = if max == -1 {
            seq![(b + 2 * kk) as usize]
        } else {
            Seq::<usize>::empty()
        };
        assert(lp + ext.push(to as usize) =~= (lp + ext).push(to as usize));
        assert(g2[b + 1].trans =~~= eps_trans(lp + ext.push(to as usize)));
        assert forall|j: int| 1 <= j <= kk implies (#[trigger] g2[b + 2 * j]).trans == copy_trans(
            repeat_atom(t),
            repeat_min(t),
            b,
            j,
        ) && !g2[b + 2 * j].terminate by {
            assert(g2[b + 2 * j] == g[b + 2 * j]);
        }
        assert forall|j: int| 1 <= j <= kk implies (#[trigger] g2[b + 2 * j + 1]).trans == eps_trans(
            if j < kk {
                seq![(b + 2 * j + 2) as usize]
            } else {
                seq![(b + 1) as usize]
            },
        ) && !g2[b + 2 * j + 1].terminate by {
            assert(g2[b + 2 * j + 1] == g[b + 2 * j + 1]);
        }
    }
}

/// The fragment for a simple token is a block with nothing after its exit
/// yet, laid after the states already there.
pub proof fn lemma_build_simple(ss: Seq<StateView>, t: TokenView)
    requires
        is_simple(t),
        ss.len() + block_size(t) <= usize::MAX,
    ensures
        ({
            let (f, s, e) = build(ss, t);
            &&& f.len() == ss.len() + block_size(t)
            &&& s == ss.len()
            &&& e == ss.len() + 1
            &&& forall|i: int| 0 <= i < ss.len() ==> #[trigger] f[i] == ss[i]
            &&& block_ok(f, t, ss.len() as int, Seq::empty(), false)
        }),
{
    reveal(block_ok);
    if is_atom(t) {
        lemma_build_atom(ss, t);
        let f = build(ss, t).0;
        assert(f[ss.len() as int + 1].trans =~~= eps_trans(Seq::empty()));
    } else {
        lemma_build_repeat(ss, t);
    }
}

/// The exit targets of block `i` of `n` laid on `base`.
pub open spec fn ext_of(toks: Seq<TokenView>, base: int, i: int, n: int) -> Seq<usize> {
    if i < n - 1 {
        seq![(base + offset(toks, i + 1)) as usize]
    } else {
        Seq::empty()
    }
}

/// The states that `chain` lays out for the first `n` simple tokens on top of
/// `ss`: the states of `ss` kept, then the blocks one after the other, each
/// exit joined to the next entry.
pub open spec fn chain_layout(ss: Seq<StateView>, toks: Seq<TokenView>, n: int, f: Seq<StateView>) -> bool {
    let base = ss.len() as int;
    &&& f.len() == base + offset(toks, n)
    &&& forall|i: int| 0 <= i < base ==> #[trigger] f[i] == ss[i]
    &&& forall|i: int|
        0 <= i < n ==> block_ok(f, #[trigger] toks[i], base + offset(toks, i), ext_of(toks, base, i, n), false)
}

/// A block lies within the states.
pub proof fn lemma_block_fits(g: Seq<StateView>, t: TokenView, b: int, ext: Seq<usize>, term: bool)
    requires
        block_ok(g, t, b, ext, term),
    ensures
        0 <= b,
        b + block_size(t) <= g.len(),
{
    reveal(block_ok);
}

/// A block is kept where the states it covers are.
pub proof fn lemma_block_keep(
    g1: Seq<StateView>,
    g2: Seq<StateView>,
    t: TokenView,
    b: int,
    ext: Seq<usize>,
    avoid: int,
)
    requires
        block_ok(g1, t, b, ext, false),
        g2.len() >= g1.len(),
        !(b <= avoid < b + block_size(t)),
        forall|idx: int| 0 <= idx < g1.len() && idx != avoid ==> #[trigger] g2[idx] == g1[idx],
    ensures
        block_ok(g2, t, b, ext, false),
{
    lemma_block_fits(g1, t, b, ext, false);
    assert(g2[b + 1] == g1[b + 1]);
    assert forall|idx: int| b <= idx < b + block_size(t) implies (#[trigger] g2[idx]).trans == g1[idx].trans by {
        assert(g2[idx] == g1[idx]);
    }
    assert forall|idx: int| b <= idx < b + block_size(t) && idx != b + 1 implies (#[trigger] g2[idx]).terminate
        == g1[idx].terminate by {
        assert(g2[idx] == g1[idx]);
    }
    lemma_block_frame(g1, g2, t, b, ext, false, false);
}

/// The joined chain of `n - 1` simple tokens and the fragment of token
/// `n - 1`.
pub open spec fn step_parts(
    ss: Seq<StateView>,
    toks: Seq<TokenView>,
    n: int,
    s1: Seq<StateView>,
    e: int,
    s2: Seq<StateView>,
    s2_start: int,
    f: Seq<StateView>,
) -> bool {
    &&& 2 <= n <= toks.len()
    &&& forall|i: int| 0 <= i < toks.len() ==> is_simple(#[trigger] toks[i])
    &&& chain_layout(ss, toks, n - 1, s1)
    &&& e == ss.len() + offset(toks, n - 2) + 1
    &&& s2.len() == s1.len() + block_size(toks[n - 1])
    &&& s2_start == s1.len()
    &&& forall|i: int| 0 <= i < s1.len() ==> #[trigger] s2[i] == s1[i]
    &&& block_ok(s2, toks[n - 1], s1.len() as int, Seq::empty(), false)
    &&& f == add_edge(s2, e, EPSILON, s2_start)
}

/// Block `i` of the chain of `n` simple tokens.
#[verifier::spinoff_prover]
#[verifier::rlimit(30)]
proof fn lemma_step_block(
    ss: Seq<StateView>,
    toks: Seq<TokenView>,
    n: int,
    s1: Seq<StateView>,
    e: int,
    s2: Seq<StateView>,
    s2_start: int,
    f: Seq<StateView>,
    i: int,
)
    requires
        step_parts(ss, toks, n, s1, e, s2, s2_start, f),
        0 <= i < n,
    ensures
        block_ok(f, toks[i], ss.len() + offset(toks, i), ext_of(toks, ss.len() as int, i, n), false),
{
    let base = ss.len() as int;
    let bj = base + offset(toks, n - 2);
    lemma_offset_mono(toks, 0, n - 2);
    assert(offset(toks, n - 1) == offset(toks, n - 2) + block_size(toks[n - 2]));
    assert(s1.len() == bj + block_size(toks[n - 2]));
    lemma_block_size(toks[n - 2]);
    let bi = base + offset(toks, i);
    if i < n - 2 {
        assert forall|idx: int| 0 <= idx < s1.len() && idx != e implies #[trigger] f[idx] == s1[idx] by {
            assert(f[idx] == s2[idx]);
        }
        assert(block_ok(s1, toks[i], bi, ext_of(toks, base, i, n - 1), false));
        assert(ext_of(toks, base, i, n - 1) == ext_of(toks, base, i, n));
        lemma_offset_mono(toks, i + 1, n - 2);
        assert(offset(toks, i + 1) == offset(toks, i) + block_size(toks[i]));
        lemma_block_keep(s1, f, toks[i], bi, ext_of(toks, base, i, n), e);
    } else if i == n - 2 {
        assert(block_ok(s1, toks[i], bi, ext_of(toks, base, i, n - 1), false));
        assert(ext_of(toks, base, i, n - 1) =~= Seq::<usize>::empty());
        lemma_block_keep(s1, s2, toks[i], bi, Seq::empty(), -1);
        lemma_block_link(s2, toks[i], bi, Seq::empty(), s2_start);
        assert(Seq::<usize>::empty().push(s2_start as usize) =~= ext_of(toks, base, i, n));
    } else {
        assert forall|idx: int| 0 <= idx < s2.len() && idx != e implies #[trigger] f[idx] == s2[idx] by {
        }
        assert(ext_of(toks, base, i, n) =~= Seq::<usize>::empty());
        lemma_block_keep(s2, f, toks[i], bi, Seq::empty(), e);
    }
}

/// One more simple token on a laid-out chain.
pub proof fn lemma_chain_simple_step(
    ss: Seq<StateView>,
    toks: Seq<TokenView>,
    n: int,
    s1: Seq<StateView>,
    e: int,
    s2: Seq<StateView>,
    s2_start: int,
    f: Seq<StateView>,
)
    requires
        step_parts(ss, toks, n, s1, e, s2, s2_start, f),
    ensures
        chain_layout(ss, toks, n, f),
{
    let base = ss.len() as int;
    lemma_offset_mono(toks, 0, n - 2);
    lemma_block_size(toks[n - 2]);
    assert(offset(toks, n - 1) == offset(toks, n - 2) + block_size(toks[n - 2]));
    assert forall|i: int|
        0 <= i < n implies block_ok(f, #[trigger] toks[i], base + offset(toks, i), ext_of(toks, base, i, n), false) by {
        lemma_step_block(ss, toks, n, s1, e, s2, s2_start, f, i);
    }
    assert forall|i: int| 0 <= i < base implies #[trigger] f[i] == ss[i] by {
        assert(f[i] == s2[i]);
        assert(s2[i] == s1[i]);
    }
}

/// The chain of simple tokens has the layout of `chain_layout`.
pub proof fn lemma_chain_simple(ss: Seq<StateView>, toks: Seq<TokenView>, n: int)
    requires
        1 <= n <= toks.len(),
        forall|i: int| 0 <= i < toks.len() ==> is_simple(#[trigger] toks[i]),
        ss.len() + offset(toks, toks.len() as int) <= usize::MAX,
    ensures
        chain_layout(ss, toks, n, chain(ss, toks, n).0),
        chain(ss, toks, n).1 == ss.len(),
        chain(ss, toks, n).2 == ss.len() + offset(toks, n - 1) + 1,
    decreases n,
{
    let base = ss.len() as int;
    lemma_offset_mono(toks, n, toks.len() as int);
    if n == 1 {
        lemma_build_simple(ss, toks[0]);
        assert(ext_of(toks, base, 0, 1) =~= Seq::<usize>::empty());
    } else {
        lemma_chain_simple(ss, toks, n - 1);
        let (s1, s, e) = chain(ss, toks, n - 1);
        lemma_build_simple(s1, toks[n - 1]);
        let (s2, s2_start, s2_end) = build(s1, toks[n - 1]);
        let f = add_edge(s2, e, EPSILON, s2_start);
        assert(chain(ss, toks, n).0 == f);
        assert(step_parts(ss, toks, n, s1, e, s2, s2_start, f));
        lemma_chain_simple_step(ss, toks, n, s1, e, s2, s2_start, f);
    }
}

} // verus!

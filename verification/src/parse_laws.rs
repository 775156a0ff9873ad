use vstd::prelude::*;

use crate::parser::{
    all_digits, bracket_spec, bounds_spec, digits_value, find_from, is_digit, items_have, lemma_find_from,
    members_of, parse_i8_spec, process_spec,
};
use crate::token::{TokenView, repeat_view};

verus! {

// ---------------------------------------------------------------------------
// Decimal numbers
// ---------------------------------------------------------------------------

/// The decimal text of `v`: its digits, most significant first, with no
/// leading zero (the byte of digit `d` is `48 + d`).
pub open spec fn decimal(v: nat) -> Seq<u8>
    decreases v,
{
    if v < 10 {
        seq![(48 + v) as u8]
    } else {
        decimal(v / 10).push((48 + v % 10) as u8)
    }
}

/// The decimal text of `v` is made of digits, at least one, and its value
/// is `v`.
pub proof fn lemma_decimal(v: nat)
    ensures
        decimal(v).len() >= 1,
        forall|i: int| 0 <= i < decimal(v).len() ==> 48 <= #[trigger] decimal(v)[i] <= 57,
        all_digits(decimal(v)),
        digits_value(decimal(v)) == v,
    decreases v,
{
    let s = decimal(v);
    if v < 10 {
        assert(s.drop_last() =~= Seq::<u8>::empty());
        assert(digits_value(s.drop_last()) == 0);
    } else {
        lemma_decimal(v / 10);
        assert(s.drop_last() =~= decimal(v / 10));
        assert(v == (v / 10) * 10 + v % 10) by (nonlinear_arith);
        assert forall|i: int| 0 <= i < s.len() implies 48 <= #[trigger] s[i] <= 57 by {
            if i < s.len() - 1 {
                assert(s[i] == decimal(v / 10)[i]);
            }
        }
    }
}

/// Every decimal digit byte is a digit, of value the byte minus 48.
pub proof fn law_digit_bytes(d: u8)
    requires
        48 <= d <= 57,
    ensures
        is_digit(d),
        parse_i8_spec(seq![d]) == Some((d - 48) as i8),
{
    let s = seq![d];
    assert(s.drop_last() =~= Seq::<u8>::empty());
    assert(digits_value(Seq::<u8>::empty()) == 0);
    assert(s.last() == d);
    assert(digits_value(s) == d - 48);
    assert(all_digits(s));
    assert(s[0] != 43 && s[0] != 45);
}

/// The decimal text of every value in `0..=127` reads as that value, as
/// `str::parse::<i8>` reads it.
pub proof fn law_parse_i8_decimal(v: nat)
    requires
        v <= 127,
    ensures
        parse_i8_spec(decimal(v)) == Some(v as i8),
{
    lemma_decimal(v);
}

/// A minus sign before the decimal text of every value in `0..=128` reads as
/// the negated value.
pub proof fn law_parse_i8_negative(v: nat)
    requires
        v <= 128,
    ensures
        parse_i8_spec(seq![45u8] + decimal(v)) == Some((-v) as i8),
{
    lemma_decimal(v);
    let s = seq![45u8] + decimal(v);
    assert(s.drop_first() =~= decimal(v));
}

/// No comma in the decimal text of `v`.
proof fn lemma_decimal_no_comma(v: nat)
    ensures
        find_from(decimal(v), 0, 44) is None,
{
    lemma_decimal(v);
    lemma_find_from(decimal(v), 0, 44);
}

/// `find_from` finds the first `b`.
proof fn lemma_find_first(s: Seq<u8>, k: int, b: u8)
    requires
        0 <= k < s.len(),
        s[k] == b,
        forall|j: int| 0 <= j < k ==> s[j] != b,
    ensures
        find_from(s, 0, b) == Some(k),
{
    lemma_find_from(s, 0, b);
}

/// Bounds `{n}`: the decimal text of `n` in `0..=127` gives `(n, n)`.
pub proof fn law_bounds_exact(n: nat)
    requires
        n <= 127,
    ensures
        bounds_spec(decimal(n)) == Some((n as i8, n as i8)),
{
    lemma_decimal_no_comma(n);
    law_parse_i8_decimal(n);
}

/// Bounds `{n,}`: the decimal text of `n` in `0..=127` and a comma give
/// `(n, -1)`.
pub proof fn law_bounds_open(n: nat)
    requires
        n <= 127,
    ensures
        bounds_spec(decimal(n).push(44)) == Some((n as i8, -1i8)),
{
    let s = decimal(n).push(44);
    lemma_decimal(n);
    let k = decimal(n).len() as int;
    lemma_find_first(s, k, 44);
    assert(s.subrange(0, k) =~= decimal(n));
    assert(s.subrange(k + 1, s.len() as int) =~= Seq::<u8>::empty());
    lemma_find_from(s.subrange(k + 1, s.len() as int), 0, 44);
    law_parse_i8_decimal(n);
}

/// Bounds `{lo,hi}`: the decimal texts of `lo` and `hi` in `0..=127` joined
/// by a comma give `(lo, hi)`, `hi` being the value of the whole text after
/// the comma.
pub proof fn law_bounds_range(lo: nat, hi: nat)
    requires
        lo <= 127,
        hi <= 127,
    ensures
        bounds_spec(decimal(lo) + seq![44u8] + decimal(hi)) == Some((lo as i8, hi as i8)),
{
    let s = decimal(lo) + seq![44u8] + decimal(hi);
    lemma_decimal(lo);
    lemma_decimal(hi);
    let k = decimal(lo).len() as int;
    assert(s[k] == 44);
    lemma_find_first(s, k, 44);
    assert(s.subrange(0, k) =~= decimal(lo));
    assert(s.subrange(k + 1, s.len() as int) =~= decimal(hi));
    lemma_decimal_no_comma(hi);
    law_parse_i8_decimal(lo);
    law_parse_i8_decimal(hi);
}

// ---------------------------------------------------------------------------
// Counted quantifiers
// ---------------------------------------------------------------------------

/// A `{` (byte 123) at `p` is closed by the first `}` (byte 125) after it:
/// where the text between reads as bounds, the step at `p` puts the last
/// token under those bounds and ends on that `}`.
pub proof fn law_brace_step(r: Seq<u8>, p: int, e: int, toks: Seq<TokenView>)
    requires
        0 <= p < e < r.len(),
        r[p] == 123,
        r[e] == 125,
        forall|j: int| p < j < e ==> r[j] != 125,
        toks.len() >= 1,
        bounds_spec(r.subrange(p + 1, e)) is Some,
    ensures
        process_spec(r, p, toks) == Some(
            (
                e,
                toks.drop_last().push(
                    repeat_view(
                        bounds_spec(r.subrange(p + 1, e)).unwrap().0,
                        bounds_spec(r.subrange(p + 1, e)).unwrap().1,
                        toks.last(),
                    ),
                ),
            ),
        ),
{
    lemma_find_from(r, p, 125);
}

// ---------------------------------------------------------------------------
// Bracket expressions
// ---------------------------------------------------------------------------

/// The byte `x` is written in one of the elements `items`.
pub open spec fn written(items: Seq<Seq<u8>>, x: u8) -> bool {
    exists|i: int| 0 <= i < items.len() && (#[trigger] items[i]).contains(x)
}

proof fn lemma_bracket_written(r: Seq<u8>, q: int, items: Seq<Seq<u8>>)
    requires
        0 <= q,
        bracket_spec(r, q, items) is Some,
    ensures
        forall|x: u8| written(items, x) ==> #[trigger] written(bracket_spec(r, q, items).unwrap().0, x),
        forall|j: int|
            q <= j < bracket_spec(r, q, items).unwrap().1 && r[j] != 45 ==> written(
                bracket_spec(r, q, items).unwrap().0,
                #[trigger] r[j],
            ),
    decreases r.len() + 1 - q,
{
    if r[q] == 93 {
    } else if r[q] == 45 {
        let c = r[q + 1];
        let last = items.last();
        let items2 = items.drop_last().push(last.push(c));
        assert forall|x: u8| written(items, x) implies #[trigger] written(items2, x) by {
            let i = choose|i: int| 0 <= i < items.len() && (#[trigger] items[i]).contains(x);
            let k = choose|k: int| 0 <= k < items[i].len() && items[i][k] == x;
            if i < items.len() - 1 {
                assert(items2[i] == items[i]);
            } else {
                assert(items2[i] == last.push(c));
                assert(last.push(c)[k] == x);
            }
        }
        assert(items2[items2.len() - 1][last.len() as int] == c);
        assert(written(items2, c));
        lemma_bracket_written(r, q + 2, items2);
    } else {
        let items2 = items.push(seq![r[q]]);
        assert forall|x: u8| written(items, x) implies #[trigger] written(items2, x) by {
            let i = choose|i: int| 0 <= i < items.len() && (#[trigger] items[i]).contains(x);
            assert(items2[i] == items[i]);
        }
        assert(items2[items.len() as int][0] == r[q]);
        assert(written(items2, r[q]));
        lemma_bracket_written(r, q + 1, items2);
    }
}

/// A bracket expression whose body starts at `q` holds every byte written in
/// its body but the `-` that join bytes: each one's entry in its membership
/// table is set.
pub proof fn law_bracket_holds_written(r: Seq<u8>, q: int)
    requires
        0 <= q,
        bracket_spec(r, q, Seq::empty()) is Some,
    ensures
        forall|j: int|
            q <= j < bracket_spec(r, q, Seq::empty()).unwrap().1 && r[j] != 45 ==> members_of(
                bracket_spec(r, q, Seq::empty()).unwrap().0,
            )[#[trigger] r[j] as int],
{
    lemma_bracket_written(r, q, Seq::empty());
    let items = bracket_spec(r, q, Seq::empty()).unwrap().0;
    assert forall|j: int|
        q <= j < bracket_spec(r, q, Seq::empty()).unwrap().1 && r[j] != 45 implies members_of(items)[#[trigger] r[j]
        as int] by {
        let x = r[j];
        assert(written(items, x));
        let i = choose|i: int| 0 <= i < items.len() && (#[trigger] items[i]).contains(x);
        assert(((x as int) as u8) == x);
        assert(items_have(items, x));
    }
}

} // verus!

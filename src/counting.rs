use vstd::prelude::*;
use vstd::set_lib::{lemma_int_range, lemma_len_subset, set_int_range};

use crate::cell::Cell;

verus! {

/// Distinct integers drawn from `[0, bound)` number at most `bound`.
pub proof fn lemma_distinct_below(s: Seq<int>, bound: int)
    requires
        s.no_duplicates(),
        bound >= 0,
        forall|i: int| 0 <= i < s.len() ==> 0 <= #[trigger] s[i] < bound,
    ensures
        s.len() <= bound,
{
    lemma_int_range(0, bound);
    s.unique_seq_to_set();
    assert(s.to_set().subset_of(set_int_range(0, bound)));
    lemma_len_subset(s.to_set(), set_int_range(0, bound));
}

/// Distinct indices below `bound` number at most `bound`.
pub proof fn lemma_distinct_indices_below(s: Seq<usize>, bound: int)
    requires
        s.no_duplicates(),
        bound >= 0,
        forall|i: int| 0 <= i < s.len() ==> #[trigger] s[i] < bound,
    ensures
        s.len() <= bound,
{
    let f = |x: usize| x as int;
    let t = s.map_values(f);
    assert forall|i: int, j: int| 0 <= i < t.len() && 0 <= j < t.len() && i != j implies t[i]
        != t[j] by {
        assert(s[i] != s[j]);
    }
    lemma_distinct_below(t, bound);
}


pub open spec fn cell_digit(c: Cell) -> nat {
    match c {
        Cell::Unreachable => 0,
        Cell::Reachable => 1,
        Cell::BoulderInHole => 2,
        Cell::Hole => 3,
        Cell::Block => 4,
        Cell::Boulder => 5,
    }
}

/// A board read as a number in base six.
pub open spec fn board_code(b: Seq<Cell>) -> nat
    decreases b.len(),
{
    if b.len() == 0 {
        0
    } else {
        board_code(b.drop_last()) * 6 + cell_digit(b.last())
    }
}

pub open spec fn pow6(k: nat) -> nat
    decreases k,
{
    if k == 0 {
        1
    } else {
        6 * pow6((k - 1) as nat)
    }
}

proof fn lemma_code_bound(b: Seq<Cell>)
    ensures
        board_code(b) < pow6(b.len()),
    decreases b.len(),
{
    if b.len() > 0 {
        lemma_code_bound(b.drop_last());
        let c = board_code(b.drop_last());
        let p = pow6(b.drop_last().len());
        let v = cell_digit(b.last());
        assert(c * 6 + v < 6 * p) by (nonlinear_arith)
            requires c < p, v < 6;
    }
}

proof fn lemma_code_injective(a: Seq<Cell>, b: Seq<Cell>)
    requires
        a.len() == b.len(),
        board_code(a) == board_code(b),
    ensures
        a == b,
    decreases a.len(),
{
    if a.len() > 0 {
        let ca = board_code(a.drop_last());
        let cb = board_code(b.drop_last());
        let va = cell_digit(a.last());
        let vb = cell_digit(b.last());
        assert(ca == cb && va == vb) by (nonlinear_arith)
            requires ca * 6 + va == cb * 6 + vb, va < 6, vb < 6;
        lemma_code_injective(a.drop_last(), b.drop_last());
        assert(a =~= a.drop_last().push(a.last()));
        assert(b =~= b.drop_last().push(b.last()));
    } else {
        assert(a =~= b);
    }
}

/// Distinct boards of `len` cells number at most six to the power `len`.
pub proof fn lemma_boards_bound(bs: Seq<Seq<Cell>>, len: nat)
    requires
        bs.no_duplicates(),
        forall|i: int| 0 <= i < bs.len() ==> (#[trigger] bs[i]).len() == len,
    ensures
        bs.len() <= pow6(len),
{
    let f = |b: Seq<Cell>| board_code(b) as int;
    let t = bs.map_values(f);
    assert forall|i: int, j: int| 0 <= i < t.len() && 0 <= j < t.len() && i != j implies t[i]
        != t[j] by {
        if t[i] == t[j] {
            lemma_code_injective(bs[i], bs[j]);
        }
    }
    assert forall|i: int| 0 <= i < t.len() implies 0 <= #[trigger] t[i] < pow6(len) by {
        lemma_code_bound(bs[i]);
    }
    lemma_distinct_below(t, pow6(len) as int);
}

} // verus!

//! Sums over finite sets of lattice points.

use vstd::prelude::*;
use crate::amino::Amino;
use crate::peptide::{cells_of, keys_distinct, lemma_cells_len, lemma_cells_push, stored};
use crate::pos::Pos;

verus! {

/// The sum of `f` over the points of a finite set.
pub open spec fn sum_over(s: Set<(int, int)>, f: spec_fn((int, int)) -> int) -> int
    decreases s.len(),
{
    if s.finite() && s.len() > 0 {
        let x = s.choose();
        f(x) + sum_over(s.remove(x), f)
    } else {
        0
    }
}

/// Any point of the set can be taken out of the sum first.
pub proof fn lemma_sum_remove(s: Set<(int, int)>, f: spec_fn((int, int)) -> int, x: (int, int))
    requires
        s.finite(),
        s.contains(x),
    ensures
        sum_over(s, f) == f(x) + sum_over(s.remove(x), f),
    decreases s.len(),
{
    let y = s.choose();
    if y != x {
        lemma_sum_remove(s.remove(y), f, x);
        lemma_sum_remove(s.remove(x), f, y);
        assert(s.remove(y).remove(x) =~= s.remove(x).remove(y));
    }
}

/// Adding a new point to the set adds its term to the sum.
pub proof fn lemma_sum_insert(s: Set<(int, int)>, f: spec_fn((int, int)) -> int, x: (int, int))
    requires
        s.finite(),
        !s.contains(x),
    ensures
        sum_over(s.insert(x), f) == sum_over(s, f) + f(x),
{
    lemma_sum_remove(s.insert(x), f, x);
    assert(s.insert(x).remove(x) =~= s);
}

/// The positions that the first `n` entries of `s` stand at.
pub open spec fn first_keys(s: Seq<(Pos, Amino)>, n: int) -> Set<(int, int)> {
    cells_of(s.take(n)).dom()
}

/// Taking one more entry of a list without repeated positions adds one new
/// position to those taken before.
pub proof fn lemma_first_keys_step(s: Seq<(Pos, Amino)>, n: int)
    requires
        keys_distinct(s),
        0 <= n < s.len(),
    ensures
        first_keys(s, n).finite(),
        first_keys(s, n).len() == n,
        !first_keys(s, n).contains(s[n].0@),
        first_keys(s, n + 1) == first_keys(s, n).insert(s[n].0@),
{
    let front = s.take(n);
    assert(keys_distinct(front));
    lemma_cells_len(front);
    assert(!stored(front, s[n].0@)) by {
        if stored(front, s[n].0@) {
            let i = choose|i: int| 0 <= i < front.len() && (#[trigger] front[i]).0@ == s[n].0@;
            assert(s[i].0 == s[n].0);
        }
    }
    lemma_cells_push(front, s[n].0, s[n].1);
    assert(front.push((s[n].0, s[n].1)) =~= s.take(n + 1));
    assert(first_keys(s, n + 1) =~= first_keys(s, n).insert(s[n].0@));
}

/// No entry taken gives no position; all entries taken give every position.
pub proof fn lemma_first_keys_ends(s: Seq<(Pos, Amino)>)
    requires
        keys_distinct(s),
    ensures
        first_keys(s, 0) == Set::<(int, int)>::empty(),
        first_keys(s, s.len() as int) == cells_of(s).dom(),
        cells_of(s).dom().finite(),
        cells_of(s).dom().len() == s.len(),
{
    assert(first_keys(s, 0) =~= Set::<(int, int)>::empty());
    assert(s.take(s.len() as int) =~= s);
    lemma_cells_len(s);
}

} // verus!

//! Which of the cells with one address a search finds: the one that comes
//! first when the chain is walked breadth first from the root, the bonds of
//! each cell in enumeration order.

use vstd::prelude::*;
use crate::amino::AminoType;
use crate::direction::{step, Direction};
use crate::path::{find_below, find_of, find_via, law_path, lemma_found_path, lemma_path_child, path_of};
use crate::peptide::{has_child, parent_of, Cells};
use crate::pos::origin;
use crate::remove::{
    descends, descends_within, lemma_descends_child, lemma_descends_depth, lemma_descends_down,
    lemma_descends_self, lemma_descends_trans,
};
use crate::tree::{depth, has_bond, is_tree, lemma_child, lemma_parent};

verus! {

/// The bond of the cell `a` at the end of which the cell `c` hangs.
pub open spec fn branch(m: Cells, a: (int, int), c: (int, int)) -> Direction {
    choose|d: Direction| #[trigger] has_bond(m, a, d) && descends(m, c, step(a, d))
}

/// Whether `q` comes no later than `c` when the cells `n` bonds below `a`
/// are walked, the bonds of each cell in enumeration order: `q` hangs at an
/// earlier bond of `a` than `c`, or at the same bond and comes no later
/// than `c` below the cell that bond leads to.
pub open spec fn no_later(m: Cells, a: (int, int), q: (int, int), c: (int, int), n: nat) -> bool
    decreases n,
{
    if n == 0 {
        q == c
    } else {
        let dq = branch(m, a, q);
        let dc = branch(m, a, c);
        dq.rank() < dc.rank() || (dq == dc && no_later(m, step(a, dq), q, c, (n - 1) as nat))
    }
}

/// In a chain, the address of a cell that hangs on `a` begins with the
/// address of `a`.
proof fn lemma_descends_prefix(m: Cells, c: (int, int), a: (int, int), fuel: nat) -> (rest: Seq<
    AminoType,
>)
    requires
        is_tree(m),
        m.contains_key(c),
        descends_within(m, c, a, fuel),
    ensures
        path_of(m, c) == path_of(m, a) + rest,
    decreases fuel,
{
    if c == a {
        assert(path_of(m, a) + Seq::<AminoType>::empty() =~= path_of(m, a));
        Seq::empty()
    } else {
        lemma_parent(m, c);
        law_path(m, c);
        let q = parent_of(m, c).unwrap().0;
        let above = lemma_descends_prefix(m, q, a, (fuel - 1) as nat);
        assert((path_of(m, a) + above).push(m[c].amino) =~= path_of(m, a) + above.push(m[c].amino));
        above.push(m[c].amino)
    }
}

/// In a chain, two cells of the same depth on which one cell hangs are the
/// same cell.
proof fn lemma_one_ancestor(m: Cells, c: (int, int), a: (int, int), b: (int, int), fuel: nat)
    requires
        is_tree(m),
        m.contains_key(c),
        descends_within(m, c, a, fuel),
        descends(m, c, b),
        depth(m, a) == depth(m, b),
    ensures
        a == b,
    decreases fuel,
{
    let other = choose|f: nat| descends_within(m, c, b, f);
    lemma_descends_depth(m, c, a, fuel);
    lemma_descends_depth(m, c, b, other);
    if c != a && c != b {
        lemma_parent(m, c);
        let q = parent_of(m, c).unwrap().0;
        assert(descends_within(m, q, b, (other - 1) as nat));
        lemma_one_ancestor(m, q, a, b, (fuel - 1) as nat);
    }
}

/// In a chain, a cell hangs at the end of at most one bond of a cell.
proof fn lemma_branch(m: Cells, a: (int, int), c: (int, int), d: Direction)
    requires
        is_tree(m),
        m.contains_key(c),
        has_bond(m, a, d),
        descends(m, c, step(a, d)),
    ensures
        branch(m, a, c) == d,
{
    let e = branch(m, a, c);
    lemma_child(m, a, d);
    lemma_child(m, a, e);
    let fuel = choose|f: nat| descends_within(m, c, step(a, d), f);
    lemma_one_ancestor(m, c, step(a, d), step(a, e), fuel);
}

/// In a chain, a cell found below `p` hangs on `p`.
proof fn lemma_found_descends(m: Cells, p: (int, int), path: Seq<AminoType>)
    requires
        is_tree(m),
        m.contains_key(p),
        find_below(m, p, path).is_some(),
    ensures
        descends(m, find_below(m, p, path).unwrap(), p),
    decreases path.len(),
{
    if path.len() == 0 {
        lemma_descends_self(m, p);
    } else {
        let d = if find_via(m, p, Direction::Up, path).is_some() {
            Direction::Up
        } else if find_via(m, p, Direction::Right, path).is_some() {
            Direction::Right
        } else if find_via(m, p, Direction::Down, path).is_some() {
            Direction::Down
        } else {
            Direction::Left
        };
        assert(find_below(m, p, path) == find_via(m, p, d, path));
        let c = step(p, d);
        let q = find_below(m, p, path).unwrap();
        lemma_child(m, p, d);
        lemma_found_descends(m, c, path.drop_first());
        lemma_descends_self(m, p);
        lemma_descends_down(m, c, p);
        let fuel = choose|f: nat| descends_within(m, q, c, f);
        lemma_descends_trans(m, q, c, p, fuel);
    }
}

/// In a chain, searching below `a` for the part of the address of `c` that
/// lies below `a`, where `c` hangs on `a`, finds a cell that comes no later
/// than `c`.
proof fn lemma_first_below(m: Cells, a: (int, int), s: Seq<AminoType>, c: (int, int))
    requires
        is_tree(m),
        m.contains_key(a),
        m.contains_key(c),
        descends(m, c, a),
        path_of(m, c) == path_of(m, a) + s,
    ensures
        find_below(m, a, s).is_some(),
        no_later(m, a, find_below(m, a, s).unwrap(), c, s.len()),
    decreases s.len(),
{
    let fuel = choose|f: nat| descends_within(m, c, a, f);
    lemma_descends_depth(m, c, a, fuel);
    law_path(m, c);
    law_path(m, a);
    if s.len() == 0 {
        assert(c == a);
    } else {
        assert(c != a);
        lemma_descends_child(m, c, a, fuel);
        let dc = branch(m, a, c);
        let k = step(a, dc);
        lemma_child(m, a, dc);
        lemma_path_child(m, a, dc);
        let below = choose|f: nat| descends_within(m, c, k, f);
        let rest = lemma_descends_prefix(m, c, k, below);
        let tail = s.drop_first();
        assert(path_of(m, a) + s == path_of(m, a).push(m[k].amino) + rest);
        assert(s =~= seq![m[k].amino] + rest) by {
            let base = path_of(m, a);
            let left = base + s;
            let right = base.push(m[k].amino) + rest;
            assert(left.len() == right.len());
            assert forall|i: int| 0 <= i < s.len() implies s[i] == (seq![m[k].amino] + rest)[i] by {
                assert(left[base.len() + i] == s[i]);
                assert(right[base.len() + i] == (seq![m[k].amino] + rest)[i]);
            }
        }
        assert(tail =~= rest);
        assert(has_child(m, a, dc, s[0]));
        lemma_first_below(m, k, tail, c);
        assert(find_via(m, a, dc, s) == find_below(m, k, tail));
        let d = if find_via(m, a, Direction::Up, s).is_some() {
            Direction::Up
        } else if find_via(m, a, Direction::Right, s).is_some() {
            Direction::Right
        } else if find_via(m, a, Direction::Down, s).is_some() {
            Direction::Down
        } else {
            Direction::Left
        };
        assert(find_below(m, a, s) == find_via(m, a, d, s));
        assert(d.rank() <= dc.rank());
        let q = find_below(m, a, s).unwrap();
        lemma_child(m, a, d);
        lemma_found_path(m, step(a, d), tail);
        lemma_found_descends(m, step(a, d), tail);
        lemma_branch(m, a, q, d);
    }
}

/// Of the cells of a chain that have one address, a search finds the one
/// that comes first when the chain is walked from the root, the bonds of
/// each cell in enumeration order: it comes no later than any cell with
/// that address.
pub proof fn law_find_first(m: Cells, c: (int, int))
    requires
        is_tree(m),
        m.contains_key(c),
    ensures
        find_of(m, path_of(m, c)).is_some(),
        no_later(m, origin(), find_of(m, path_of(m, c)).unwrap(), c, path_of(m, c).len()),
{
    law_path(m, c);
    assert(Seq::<AminoType>::empty() + path_of(m, c) =~= path_of(m, c));
    lemma_hangs_on_root(m, c);
    lemma_first_below(m, origin(), path_of(m, c), c);
}

/// Every cell of a chain hangs on the root.
proof fn lemma_hangs_on_root(m: Cells, c: (int, int))
    requires
        is_tree(m),
        m.contains_key(c),
    ensures
        descends(m, c, origin()),
    decreases depth(m, c),
{
    if c == origin() {
        lemma_descends_self(m, c);
    } else {
        lemma_parent(m, c);
        lemma_hangs_on_root(m, parent_of(m, c).unwrap().0);
        lemma_descends_down(m, c, origin());
    }
}

} // verus!

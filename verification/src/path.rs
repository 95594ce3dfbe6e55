//! Addressing a cell by the kinds met on the way to it from the root, and
//! finding in another chain the cell with the same address.

use vstd::prelude::*;
use crate::amino::AminoType;
use crate::direction::{step, Direction};
use crate::peptide::{has_child, parent_of, Cells, Peptide};
use crate::pos::{origin, Pos};
use crate::tree::{
    depth, depth_within, has_bond, is_tree, lemma_child, lemma_depth_below_len, lemma_parent,
    reaches_root,
};

verus! {

/// The kinds of the cells on the way from the root to `p`, the root left out
/// and `p` included, if `p` is the root or is occupied and following parents
/// from it arrives at the root in at most `fuel` steps.
pub open spec fn path_within(m: Cells, p: (int, int), fuel: nat) -> Option<Seq<AminoType>>
    decreases fuel,
{
    if p == origin() {
        Some(Seq::empty())
    } else if fuel == 0 || !m.contains_key(p) {
        None
    } else {
        match parent_of(m, p) {
            Some((q, _)) => match path_within(m, q, (fuel - 1) as nat) {
                Some(s) => Some(s.push(m[p].amino)),
                None => None,
            },
            None => None,
        }
    }
}

/// The address of `p`: one kind for each bond between the root and `p`, that
/// of the cell the bond leads to, nearest the root first. Empty for the root
/// and for a cell that is not part of the chain.
pub open spec fn path_of(m: Cells, p: (int, int)) -> Seq<AminoType> {
    match path_within(m, p, m.dom().len()) {
        Some(s) => s,
        None => Seq::empty(),
    }
}

/// The cell below `p` with address `path` relative to `p`, entered through
/// the bond in direction `d`.
pub open spec fn find_via(m: Cells, p: (int, int), d: Direction, path: Seq<AminoType>) -> Option<
    (int, int),
>
    decreases path.len(), 0int,
{
    if path.len() > 0 && has_child(m, p, d, path[0]) {
        find_below(m, step(p, d), path.drop_first())
    } else {
        None
    }
}

/// The first cell below `p` whose address relative to `p` is `path`, where
/// at each cell the bonds are tried in enumeration order.
pub open spec fn find_below(m: Cells, p: (int, int), path: Seq<AminoType>) -> Option<(int, int)>
    decreases path.len(), 1int,
{
    if path.len() == 0 {
        Some(p)
    } else if find_via(m, p, Direction::Up, path).is_some() {
        find_via(m, p, Direction::Up, path)
    } else if find_via(m, p, Direction::Right, path).is_some() {
        find_via(m, p, Direction::Right, path)
    } else if find_via(m, p, Direction::Down, path).is_some() {
        find_via(m, p, Direction::Down, path)
    } else {
        find_via(m, p, Direction::Left, path)
    }
}

/// The first cell of the chain whose address is `path`.
pub open spec fn find_of(m: Cells, path: Seq<AminoType>) -> Option<(int, int)> {
    find_below(m, origin(), path)
}

/// With enough fuel for its depth, an occupied cell has an address, as long
/// as its depth.
proof fn lemma_path_fuel(m: Cells, p: (int, int), fuel: nat)
    requires
        m.contains_key(p) || p == origin(),
        depth_within(m, p, fuel).is_some(),
    ensures
        path_within(m, p, fuel).is_some(),
        path_within(m, p, fuel).unwrap().len() == depth_within(m, p, fuel).unwrap(),
    decreases fuel,
{
    if p != origin() {
        let q = parent_of(m, p).unwrap().0;
        lemma_path_fuel(m, q, (fuel - 1) as nat);
    }
}

/// An address found with some fuel is found with any larger fuel.
proof fn lemma_path_more_fuel(m: Cells, p: (int, int), f1: nat, f2: nat)
    requires
        path_within(m, p, f1).is_some(),
        f1 <= f2,
    ensures
        path_within(m, p, f2) == path_within(m, p, f1),
    decreases f1,
{
    if p != origin() {
        let q = parent_of(m, p).unwrap().0;
        lemma_path_more_fuel(m, q, (f1 - 1) as nat, (f2 - 1) as nat);
    }
}

/// The address of the root is empty. The address of any other cell of a
/// chain is the address of its parent followed by the cell's own kind, so it
/// holds one kind for each bond between the root and the cell.
pub proof fn law_path(m: Cells, p: (int, int))
    requires
        is_tree(m),
        m.contains_key(p),
    ensures
        path_of(m, origin()) == Seq::<AminoType>::empty(),
        path_of(m, p).len() == depth(m, p),
        p != origin() ==> path_of(m, p) == path_of(m, parent_of(m, p).unwrap().0).push(m[p].amino),
{
    assert(reaches_root(m, p));
    let fuel = choose|fuel: nat| (#[trigger] depth_within(m, p, fuel)).is_some();
    lemma_depth_below_len(m, p, fuel);
    let n = m.dom().len();
    lemma_path_fuel(m, p, n);
    if p != origin() {
        lemma_parent(m, p);
        let q = parent_of(m, p).unwrap().0;
        assert(path_within(m, q, (n - 1) as nat).is_some());
        lemma_path_more_fuel(m, q, (n - 1) as nat, n);
    }
}

/// A cell that lies `k` bonds from the root of a chain has an address of
/// exactly `k` kinds.
pub proof fn law_path_length(m: Cells, p: (int, int), fuel: nat, k: nat)
    requires
        is_tree(m),
        m.contains_key(p),
        depth_within(m, p, fuel) == Some(k),
    ensures
        path_of(m, p).len() == k,
{
    lemma_depth_below_len(m, p, fuel);
    law_path(m, p);
}

/// In a chain, the cell that a bond leads to has the address of the bond's
/// holder followed by its own kind.
pub proof fn lemma_path_child(m: Cells, p: (int, int), d: Direction)
    requires
        is_tree(m),
        has_bond(m, p, d),
    ensures
        path_of(m, step(p, d)) == path_of(m, p).push(m[step(p, d)].amino),
{
    lemma_child(m, p, d);
    law_path(m, step(p, d));
}

/// In a chain, a cell found below `p` by a relative address has the address
/// of `p` followed by that relative address.
pub proof fn lemma_found_path(m: Cells, p: (int, int), path: Seq<AminoType>)
    requires
        is_tree(m),
        m.contains_key(p),
        find_below(m, p, path).is_some(),
    ensures
        m.contains_key(find_below(m, p, path).unwrap()),
        path_of(m, find_below(m, p, path).unwrap()) == path_of(m, p) + path,
    decreases path.len(),
{
    if path.len() == 0 {
        assert(path_of(m, p) + path =~= path_of(m, p));
    } else {
        let d = if find_via(m, p, Direction::Up, path).is_some() {
            Direction::Up
        } else if find_via(m, p, Direction::Right, path).is_some() {
            Direction::Right
        } else if find_via(m, p, Direction::Down, path).is_some() {
            Direction::Down
        } else {
            Direction::Left
        };
        assert(find_below(m, p, path) == find_via(m, p, d, path));
        let c = step(p, d);
        lemma_path_child(m, p, d);
        lemma_found_path(m, c, path.drop_first());
        assert(path_of(m, p).push(path[0]) + path.drop_first() =~= path_of(m, p) + path);
    }
}

/// In a chain, searching from the root for the address of an occupied cell
/// finds a cell with that address.
pub proof fn lemma_find_own_path(m: Cells, p: (int, int))
    requires
        is_tree(m),
        m.contains_key(p),
    ensures
        find_of(m, path_of(m, p)).is_some(),
        m.contains_key(find_of(m, path_of(m, p)).unwrap()),
        path_of(m, find_of(m, path_of(m, p)).unwrap()) == path_of(m, p),
{
    lemma_reach_down(m, p, Seq::empty());
    assert(path_of(m, p) + Seq::<AminoType>::empty() =~= path_of(m, p));
    law_path(m, origin());
    lemma_found_path(m, origin(), path_of(m, p));
    assert(Seq::<AminoType>::empty() + path_of(m, p) =~= path_of(m, p));
}

/// If searching below `a` for `rest` finds a cell, and `a` lies in a chain,
/// then searching from the root for the address of `a` followed by `rest`
/// finds a cell too.
proof fn lemma_reach_down(m: Cells, a: (int, int), rest: Seq<AminoType>)
    requires
        is_tree(m),
        m.contains_key(a),
        find_below(m, a, rest).is_some(),
    ensures
        find_below(m, origin(), path_of(m, a) + rest).is_some(),
    decreases depth(m, a),
{
    if a == origin() {
        law_path(m, a);
        assert(path_of(m, a) + rest =~= rest);
    } else {
        lemma_parent(m, a);
        law_path(m, a);
        let (q, d) = parent_of(m, a).unwrap();
        let e = d.opposite_spec();
        let longer = seq![m[a].amino] + rest;
        assert(longer.drop_first() =~= rest);
        assert(longer[0] == m[a].amino);
        assert(has_child(m, q, e, longer[0]));
        assert(find_via(m, q, e, longer) == find_below(m, a, rest));
        assert(find_below(m, q, longer).is_some());
        lemma_reach_down(m, q, longer);
        assert(path_of(m, q) + longer =~= path_of(m, a) + rest);
    }
}

/// Searching a chain for the address of one of its cells finds that very
/// cell, provided no other cell of the chain has the same address.
pub proof fn law_find_path(m: Cells, p: (int, int))
    requires
        is_tree(m),
        m.contains_key(p),
        forall|q: (int, int)| m.contains_key(q) && #[trigger] path_of(m, q) == path_of(m, p) ==> q == p,
    ensures
        find_of(m, path_of(m, p)) == Some(p),
{
    lemma_find_own_path(m, p);
}

impl Peptide {
    /// The address of `pos`: the kinds of the cells on the way from the root
    /// to `pos`, the root left out and `pos` included. Empty where `pos` is
    /// the root, is empty, or is not joined to the root.
    pub fn path(&self, pos: Pos) -> (r: Vec<AminoType>)
        ensures
            r@ == path_of(self@, pos@),
    {
        let n = self.len();
        let mut history: Vec<AminoType> = Vec::new();
        let mut cur = pos;
        let mut fuel = n;
        let mut arrived = false;
        while !arrived && fuel > 0
            invariant
                n == self@.dom().len(),
                fuel <= n,
                arrived ==> cur@ == origin(),
                path_within(self@, pos@, n as nat) == (match path_within(
                    self@,
                    cur@,
                    fuel as nat,
                ) {
                    Some(s) => Some(s + history@.reverse()),
                    None => None,
                }),
            decreases fuel + (if arrived { 0int } else { 1int }),
        {
            if cur == Pos::zeros() {
                arrived = true;
            } else {
                let amino = match self.get(cur) {
                    Some(amino) => amino,
                    None => {
                        return Vec::new();
                    },
                };
                match self.parent(cur) {
                    Some((q, _)) => {
                        proof {
                            let s = path_within(self@, q@, (fuel - 1) as nat);
                            if s.is_some() {
                                assert(s.unwrap().push(amino.amino) + history@.reverse()
                                    =~= s.unwrap() + history@.push(amino.amino).reverse());
                            }
                        }
                        history.push(amino.amino);
                        cur = q;
                        fuel -= 1;
                    },
                    None => {
                        return Vec::new();
                    },
                }
            }
        }
        if cur != Pos::zeros() {
            return Vec::new();
        }
        let mut out: Vec<AminoType> = Vec::new();
        let mut i = history.len();
        while i > 0
            invariant
                i <= history@.len(),
                out@ == history@.reverse().subrange(0, history@.len() - i),
            decreases i,
        {
            i -= 1;
            out.push(history[i]);
            assert(out@ =~= history@.reverse().subrange(0, history@.len() - i));
        }
        assert(out@ =~= Seq::<AminoType>::empty() + history@.reverse());
        out
    }

    /// The first cell below `pos` whose address relative to `pos` is what
    /// `path` holds from index `from` on.
    fn find_from(&self, pos: Pos, path: &[AminoType], from: usize) -> (r: Option<Pos>)
        requires
            from <= path@.len(),
        ensures
            match r {
                Some(q) => find_below(self@, pos@, path@.skip(from as int)) == Some(q@),
                None => find_below(self@, pos@, path@.skip(from as int)).is_none(),
            },
        decreases path@.len() - from,
    {
        let n = path.len();
        if from == n {
            return Some(pos);
        }
        let ghost rest = path@.skip(from as int);
        assert(rest.drop_first() =~= path@.skip(from + 1));
        assert(rest[0] == path@[from as int]);
        let kind = path[from];
        let dirs = Direction::all();
        let mut i: usize = 0;
        while i < 4
            invariant
                i <= 4,
                from < n,
                n == path@.len(),
                rest == path@.skip(from as int),
                rest.drop_first() == path@.skip(from + 1),
                rest[0] == kind,
                dirs@ == Direction::order(),
                forall|k: int| 0 <= k < i ==> find_via(self@, pos@, dirs@[k], rest).is_none(),
            decreases 4 - i,
        {
            let d = dirs[i];
            if self.child_is(pos, d, kind) {
                self.recall();
                match pos.neighbor(d) {
                    Some(q) => {
                        let found = self.find_from(q, path, from + 1);
                        if found.is_some() {
                            return found;
                        }
                    },
                    None => {},
                }
            }
            i += 1;
        }
        None
    }

    /// The first cell whose address is `path`, if there is one: bonds are
    /// followed from the root, at each cell in enumeration order.
    pub fn find(&self, path: &[AminoType]) -> (r: Option<Pos>)
        ensures
            match r {
                Some(q) => find_of(self@, path@) == Some(q@),
                None => find_of(self@, path@).is_none(),
            },
    {
        assert(path@.skip(0) =~= path@);
        self.find_from(Pos::zeros(), path, 0)
    }
}

} // verus!

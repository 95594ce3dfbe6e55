//! Growing a chain by one unit keeps it a chain.

use vstd::prelude::*;
use crate::amino::AminoType;
use crate::direction::{step, Direction};
use crate::peptide::{bonded_from, can_grow, grown, parent_of, single, Cells};
use crate::pos::origin;
use crate::tree::{
    bonds_lead_to_cells, connected, depth_within, has_bond, is_tree, lemma_step_back,
    lemma_step_injective, one_parent, reaches_root, root_free,
};

verus! {

broadcast use crate::direction::group_directions;

/// One unit at the root is a chain.
pub proof fn lemma_single_is_tree(a: AminoType)
    ensures
        is_tree(single(a)),
        single(a).dom().len() == 1,
{
    let m = single(a);
    assert(m.dom() =~= Set::<(int, int)>::empty().insert(origin()));
    assert(depth_within(m, origin(), 0).is_some());
    assert(reaches_root(m, origin()));
    assert forall|p: (int, int)| m.contains_key(p) implies #[trigger] reaches_root(m, p) by {
        assert(p == origin());
    }
}

/// After growth, the cells other than the new one are the children of the
/// cells they were children of before, and the new cell is the child of the
/// cell it was attached to and of no other.
pub proof fn lemma_grown_bonds(m: Cells, p: (int, int), d: Direction, t: AminoType)
    requires
        bonds_lead_to_cells(m),
        can_grow(m, p, d),
    ensures
        forall|x: (int, int), e: Direction|
            x != step(p, d) ==> #[trigger] bonded_from(grown(m, p, d, t), x, e) == bonded_from(
                m,
                x,
                e,
            ),
        forall|e: Direction| #[trigger]
            bonded_from(grown(m, p, d, t), step(p, d), e) == (e == d.opposite_spec()),
        forall|x: (int, int)| x != step(p, d) ==> #[trigger] parent_of(grown(m, p, d, t), x) == parent_of(
            m,
            x,
        ),
        parent_of(grown(m, p, d, t), step(p, d)) == Some((p, d.opposite_spec())),
{
    let c = step(p, d);
    let g = grown(m, p, d, t);
    lemma_step_back(p, d);
    assert forall|x: (int, int), e: Direction| x != c implies #[trigger] bonded_from(g, x, e)
        == bonded_from(m, x, e) by {
        let y = step(x, e);
        lemma_step_back(x, e);
        if y == p {
            if e.opposite_spec() == d {
                assert(step(p, d) == x);
            }
        }
    }
    assert forall|e: Direction| #[trigger] bonded_from(g, c, e) == (e == d.opposite_spec()) by {
        let y = step(c, e);
        lemma_step_back(c, e);
        lemma_step_injective(c, e, d.opposite_spec());
        if e != d.opposite_spec() {
            if bonded_from(g, c, e) {
                assert(y != p && y != c);
                assert(has_bond(m, y, e.opposite_spec()));
            }
        }
    }
    assert forall|x: (int, int)| x != c implies #[trigger] parent_of(g, x) == parent_of(m, x) by {
        assert(bonded_from(g, x, Direction::Up) == bonded_from(m, x, Direction::Up));
        assert(bonded_from(g, x, Direction::Right) == bonded_from(m, x, Direction::Right));
        assert(bonded_from(g, x, Direction::Down) == bonded_from(m, x, Direction::Down));
        assert(bonded_from(g, x, Direction::Left) == bonded_from(m, x, Direction::Left));
    }
    assert(bonded_from(g, c, Direction::Up) == (Direction::Up == d.opposite_spec()));
    assert(bonded_from(g, c, Direction::Right) == (Direction::Right == d.opposite_spec()));
    assert(bonded_from(g, c, Direction::Down) == (Direction::Down == d.opposite_spec()));
    assert(bonded_from(g, c, Direction::Left) == (Direction::Left == d.opposite_spec()));
}

/// After growth, every cell other than the new one lies as far from the
/// root as before.
pub proof fn lemma_grown_depth(
    m: Cells,
    p: (int, int),
    d: Direction,
    t: AminoType,
    x: (int, int),
    fuel: nat,
)
    requires
        bonds_lead_to_cells(m),
        can_grow(m, p, d),
        x != step(p, d),
    ensures
        depth_within(grown(m, p, d, t), x, fuel) == depth_within(m, x, fuel),
    decreases fuel,
{
    lemma_grown_bonds(m, p, d, t);
    if x != origin() && fuel > 0 {
        match parent_of(m, x) {
            Some((q, _)) => {
                lemma_grown_depth(m, p, d, t, q, (fuel - 1) as nat);
            },
            None => {},
        }
    }
}

/// A chain to which a new unit is attached, as the child of one of its cells
/// on a free cell beside it, is a chain, of one cell more.
pub proof fn law_grown_is_tree(m: Cells, p: (int, int), d: Direction, t: AminoType)
    requires
        is_tree(m),
        can_grow(m, p, d),
    ensures
        is_tree(grown(m, p, d, t)),
        grown(m, p, d, t).dom() == m.dom().insert(step(p, d)),
        grown(m, p, d, t).dom().len() == m.dom().len() + 1,
{
    let c = step(p, d);
    let g = grown(m, p, d, t);
    lemma_grown_bonds(m, p, d, t);
    assert(g.dom() =~= m.dom().insert(c));
    assert(bonds_lead_to_cells(g)) by {
        assert forall|x: (int, int), e: Direction| #[trigger] has_bond(g, x, e) implies g.contains_key(
            step(x, e),
        ) by {
            if x == c {
            } else if x == p {
                if e != d {
                    assert(has_bond(m, p, e));
                }
            } else {
                assert(has_bond(m, x, e));
            }
        }
    }
    assert(one_parent(g)) by {
        assert forall|x: (int, int), e: Direction, f: Direction| #[trigger]
            bonded_from(g, x, e) && #[trigger] bonded_from(g, x, f) implies e == f by {
            if x != c {
                assert(bonded_from(m, x, e) && bonded_from(m, x, f));
            }
        }
    }
    assert(root_free(g)) by {
        assert forall|e: Direction| !#[trigger] bonded_from(g, origin(), e) by {
            assert(bonded_from(g, origin(), e) == bonded_from(m, origin(), e));
        }
    }
    assert(connected(g)) by {
        assert forall|x: (int, int)| g.contains_key(x) implies #[trigger] reaches_root(g, x) by {
            if x == c {
                assert(reaches_root(m, p));
                let fuel = choose|fuel: nat| (#[trigger] depth_within(m, p, fuel)).is_some();
                lemma_grown_depth(m, p, d, t, p, fuel);
                assert(depth_within(g, c, fuel + 1).is_some());
            } else {
                assert(reaches_root(m, x));
                let fuel = choose|fuel: nat| (#[trigger] depth_within(m, x, fuel)).is_some();
                lemma_grown_depth(m, p, d, t, x, fuel);
                assert(depth_within(g, x, fuel).is_some());
            }
        }
    }
}

} // verus!

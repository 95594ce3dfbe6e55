//! What makes a set of cells one chain: a tree of bonds rooted at the origin.

use vstd::prelude::*;
use crate::direction::{step, Direction};
use crate::peptide::{bonded_from, cells_of, keys_distinct, lemma_cells_entry, parent_of, Cells, Peptide};
use crate::pos::{origin, Pos};

verus! {

broadcast use crate::direction::group_directions;

/// Whether the cell at `p` is occupied and holds a bond in direction `d`.
pub open spec fn has_bond(m: Cells, p: (int, int), d: Direction) -> bool {
    m.contains_key(p) && m[p].children.has(d)
}

/// The number of bonds between the root and `p`, if following parents from
/// `p` arrives at the root in at most `fuel` steps.
pub open spec fn depth_within(m: Cells, p: (int, int), fuel: nat) -> Option<nat>
    decreases fuel,
{
    if p == origin() {
        Some(0)
    } else if fuel == 0 {
        None
    } else {
        match parent_of(m, p) {
            Some((q, _)) => match depth_within(m, q, (fuel - 1) as nat) {
                Some(k) => Some(k + 1),
                None => None,
            },
            None => None,
        }
    }
}

/// Whether following parents from `p` arrives at the root.
pub open spec fn reaches_root(m: Cells, p: (int, int)) -> bool {
    exists|fuel: nat| (#[trigger] depth_within(m, p, fuel)).is_some()
}

/// Every bond leads to an occupied cell.
pub open spec fn bonds_lead_to_cells(m: Cells) -> bool {
    forall|p: (int, int), d: Direction| #[trigger] has_bond(m, p, d) ==> m.contains_key(step(p, d))
}

/// No cell is the child of two cells.
pub open spec fn one_parent(m: Cells) -> bool {
    forall|p: (int, int), d: Direction, e: Direction|
        #[trigger] bonded_from(m, p, d) && #[trigger] bonded_from(m, p, e) ==> d == e
}

/// The root is the child of no cell.
pub open spec fn root_free(m: Cells) -> bool {
    forall|d: Direction| !#[trigger] bonded_from(m, origin(), d)
}

/// From every occupied cell, following parents arrives at the root.
pub open spec fn connected(m: Cells) -> bool {
    forall|p: (int, int)| m.contains_key(p) ==> #[trigger] reaches_root(m, p)
}

/// Whether the cells form one chain: finitely many cells, one of them at the
/// origin, joined by bonds into a tree of which the origin is the root.
pub open spec fn is_tree(m: Cells) -> bool {
    &&& m.dom().finite()
    &&& m.contains_key(origin())
    &&& bonds_lead_to_cells(m)
    &&& one_parent(m)
    &&& root_free(m)
    &&& connected(m)
}

/// The number of bonds between the root and `p` in a chain.
pub open spec fn depth(m: Cells, p: (int, int)) -> nat {
    match depth_within(m, p, m.dom().len()) {
        Some(k) => k,
        None => 0,
    }
}

/// Stepping in a direction and then in the opposite one leads back.
pub proof fn lemma_step_back(p: (int, int), d: Direction)
    ensures
        step(step(p, d), d.opposite_spec()) == p,
        d.opposite_spec().opposite_spec() == d,
        step(p, d) != p,
{
}

/// Two steps from one cell in different directions end on different cells.
pub proof fn lemma_step_injective(p: (int, int), d: Direction, e: Direction)
    ensures
        (step(p, d) == step(p, e)) == (d == e),
{
}

/// A depth found with some fuel is at most that fuel, and is found with any
/// fuel that is at least the depth.
pub proof fn lemma_depth_fuel(m: Cells, p: (int, int), f1: nat, f2: nat)
    requires
        depth_within(m, p, f1).is_some(),
        f2 >= depth_within(m, p, f1).unwrap(),
    ensures
        depth_within(m, p, f1).unwrap() <= f1,
        depth_within(m, p, f2) == depth_within(m, p, f1),
    decreases f1,
{
    if p != origin() {
        let q = parent_of(m, p).unwrap().0;
        lemma_depth_fuel(m, q, (f1 - 1) as nat, (f2 - 1) as nat);
    }
}

/// The cells that following parents from `p` passes, `p` included, for at
/// most `fuel` steps.
pub open spec fn ancestors(m: Cells, p: (int, int), fuel: nat) -> Set<(int, int)>
    decreases fuel,
{
    if p == origin() || fuel == 0 {
        set![p]
    } else {
        match parent_of(m, p) {
            Some((q, _)) => ancestors(m, q, (fuel - 1) as nat).insert(p),
            None => set![p],
        }
    }
}

/// On the way from a cell of depth `k` to the root lie `k + 1` occupied
/// cells, each of depth at most `k`.
proof fn lemma_ancestors(m: Cells, p: (int, int), k: nat)
    requires
        m.contains_key(p),
        depth_within(m, p, k) == Some(k),
    ensures
        ancestors(m, p, k).finite(),
        ancestors(m, p, k).len() == k + 1,
        ancestors(m, p, k).subset_of(m.dom()),
        forall|c: (int, int)| #[trigger]
            ancestors(m, p, k).contains(c) ==> exists|j: nat|
                j <= k && #[trigger] depth_within(m, c, j) == Some(j),
    decreases k,
{
    if p == origin() || k == 0 {
        assert(ancestors(m, p, k) =~= set![p]);
        assert(depth_within(m, p, k) == Some(k));
    } else {
        let q = parent_of(m, p).unwrap().0;
        let below = (k - 1) as nat;
        assert(depth_within(m, q, below) == Some(below));
        lemma_ancestors(m, q, below);
        let up = ancestors(m, q, below);
        assert(!up.contains(p)) by {
            if up.contains(p) {
                let j = choose|j: nat| j <= below && #[trigger] depth_within(m, p, j) == Some(j);
                lemma_depth_fuel(m, p, j, k);
            }
        }
        assert(ancestors(m, p, k) == up.insert(p));
        assert forall|c: (int, int)| #[trigger]
            ancestors(m, p, k).contains(c) implies exists|j: nat|
            j <= k && #[trigger] depth_within(m, c, j) == Some(j) by {
            if c == p {
                assert(depth_within(m, p, k) == Some(k));
            } else {
                assert(up.contains(c));
                let j = choose|j: nat| j <= below && #[trigger] depth_within(m, c, j) == Some(j);
                assert(j <= k && depth_within(m, c, j) == Some(j));
            }
        }
    }
}

/// An occupied cell from which following parents arrives at the root lies
/// fewer bonds from the root than there are cells.
pub proof fn lemma_depth_below_len(m: Cells, p: (int, int), fuel: nat)
    requires
        m.dom().finite(),
        m.contains_key(p),
        depth_within(m, p, fuel).is_some(),
    ensures
        depth_within(m, p, fuel).unwrap() < m.dom().len(),
        depth_within(m, p, m.dom().len()) == depth_within(m, p, fuel),
        depth(m, p) == depth_within(m, p, fuel).unwrap(),
{
    let k = depth_within(m, p, fuel).unwrap();
    lemma_depth_fuel(m, p, fuel, k);
    lemma_ancestors(m, p, k);
    vstd::set_lib::lemma_len_subset(ancestors(m, p, k), m.dom());
    lemma_depth_fuel(m, p, fuel, m.dom().len());
}

/// In a chain, a cell other than the root has a parent: an occupied cell one
/// bond nearer to the root, which holds the bond that leads to the cell.
pub proof fn lemma_parent(m: Cells, p: (int, int))
    requires
        is_tree(m),
        m.contains_key(p),
        p != origin(),
    ensures
        parent_of(m, p).is_some(),
        ({
            let (q, d) = parent_of(m, p).unwrap();
            &&& q == step(p, d)
            &&& p == step(q, d.opposite_spec())
            &&& has_bond(m, q, d.opposite_spec())
            &&& depth(m, p) == depth(m, q) + 1
            &&& depth(m, p) < m.dom().len()
        }),
{
    assert(reaches_root(m, p));
    let fuel = choose|fuel: nat| (#[trigger] depth_within(m, p, fuel)).is_some();
    lemma_depth_below_len(m, p, fuel);
    let (q, d) = parent_of(m, p).unwrap();
    lemma_step_back(p, d);
    assert(depth_within(m, q, (fuel - 1) as nat).is_some());
    lemma_depth_below_len(m, q, (fuel - 1) as nat);
}

/// In a chain, the cell that a bond leads to is occupied, is not the root,
/// and has the holder of the bond as its parent.
pub proof fn lemma_child(m: Cells, p: (int, int), d: Direction)
    requires
        is_tree(m),
        has_bond(m, p, d),
    ensures
        m.contains_key(step(p, d)),
        step(p, d) != origin(),
        parent_of(m, step(p, d)) == Some((p, d.opposite_spec())),
        depth(m, step(p, d)) == depth(m, p) + 1,
{
    let c = step(p, d);
    lemma_step_back(p, d);
    assert(bonded_from(m, c, d.opposite_spec()));
    assert(c != origin());
    lemma_parent(m, c);
    let (q, e) = parent_of(m, c).unwrap();
    assert(bonded_from(m, c, e));
}

/// Why a set of cells is not one chain.
#[derive(Clone, Copy, Debug, PartialEq, Eq, Structural)]
pub enum ShapeError {
    /// The origin is empty.
    NoRoot,
    /// A bond leads to an empty cell.
    DanglingBond,
    /// A cell is the child of two cells, or the root is the child of one.
    Cyclic,
    /// From some cell, following parents does not arrive at the root.
    Disconnected,
    /// Two cells were given the same position.
    DuplicatePosition,
    /// There are more cells than an energy can be computed for.
    TooLarge,
}

/// What `validate` answers for the cells `m`: the first of the conditions of
/// a chain that fails, in the order in which `ShapeError` lists them.
pub open spec fn verdict(m: Cells) -> Result<(), ShapeError> {
    if !m.contains_key(origin()) {
        Err(ShapeError::NoRoot)
    } else if !bonds_lead_to_cells(m) {
        Err(ShapeError::DanglingBond)
    } else if !(one_parent(m) && root_free(m)) {
        Err(ShapeError::Cyclic)
    } else if !connected(m) {
        Err(ShapeError::Disconnected)
    } else {
        Ok(())
    }
}

/// Finitely many cells pass `verdict` exactly when they are one chain.
pub proof fn law_verdict(m: Cells)
    requires
        m.dom().finite(),
    ensures
        verdict(m).is_ok() == is_tree(m),
{
}

impl Peptide {
    /// Whether following parents from `pos` arrives at the root in at most
    /// `fuel` steps.
    fn climbs(&self, pos: Pos, fuel: usize) -> (r: bool)
        ensures
            r == depth_within(self@, pos@, fuel as nat).is_some(),
    {
        let mut cur = pos;
        let mut left = fuel;
        loop
            invariant
                left <= fuel,
                depth_within(self@, pos@, fuel as nat).is_some() == depth_within(
                    self@,
                    cur@,
                    left as nat,
                ).is_some(),
            decreases left,
        {
            if cur == Pos::zeros() {
                return true;
            }
            if left == 0 {
                return false;
            }
            match self.parent(cur) {
                Some((q, _)) => {
                    cur = q;
                    left -= 1;
                },
                None => {
                    return false;
                },
            }
        }
    }

    /// The number of neighbours of `pos` that hold it as a child.
    fn holders(&self, pos: Pos) -> (count: u8)
        ensures
            count <= 4,
            count == 0 <==> forall|d: Direction| !bonded_from(self@, pos@, d),
            count <= 1 <==> forall|d: Direction, e: Direction|
                bonded_from(self@, pos@, d) && bonded_from(self@, pos@, e) ==> d == e,
    {
        let up = self.holder(pos, Direction::Up).is_some();
        let right = self.holder(pos, Direction::Right).is_some();
        let down = self.holder(pos, Direction::Down).is_some();
        let left = self.holder(pos, Direction::Left).is_some();
        let mut count: u8 = 0;
        if up {
            count += 1;
        }
        if right {
            count += 1;
        }
        if down {
            count += 1;
        }
        if left {
            count += 1;
        }
        proof {
            assert forall|d: Direction| #[trigger]
                bonded_from(self@, pos@, d) == (match d {
                    Direction::Up => up,
                    Direction::Right => right,
                    Direction::Down => down,
                    Direction::Left => left,
                }) by {}
            if count > 1 {
                let d = if up {
                    Direction::Up
                } else if right {
                    Direction::Right
                } else {
                    Direction::Down
                };
                let e = if left {
                    Direction::Left
                } else if down {
                    Direction::Down
                } else {
                    Direction::Right
                };
                assert(bonded_from(self@, pos@, d) && bonded_from(self@, pos@, e) && d != e);
            }
            if count > 0 {
                let d = if up {
                    Direction::Up
                } else if right {
                    Direction::Right
                } else if down {
                    Direction::Down
                } else {
                    Direction::Left
                };
                assert(bonded_from(self@, pos@, d));
            }
        }
        count
    }

    /// Checks that the cells are one chain: a tree of bonds with the cell at
    /// the origin as its root. Otherwise names the first condition that
    /// fails, in the order in which `ShapeError` lists them.
    pub fn validate(&self) -> (r: Result<(), ShapeError>)
        ensures
            r == verdict(self@),
            r.is_ok() == is_tree(self@),
    {
        self.recall();
        let ghost m = self@;
        if !self.contains_key(Pos::zeros()) {
            return Err(ShapeError::NoRoot);
        }
        let cells = self.cells();
        let n = cells.len();
        let dirs = Direction::all();
        let mut i: usize = 0;
        while i < n
            invariant
                i <= n,
                n == cells@.len(),
                m == self@,
                keys_distinct(cells@),
                cells_of(cells@) == m,
                dirs@ == Direction::order(),
                m.contains_key(origin()),
                forall|k: int, d: Direction|
                    0 <= k < i && #[trigger] has_bond(m, cells@[k].0@, d) ==> m.contains_key(
                        step(cells@[k].0@, d),
                    ),
            decreases n - i,
        {
            let pos = cells[i].0;
            let amino = cells[i].1;
            proof {
                lemma_cells_entry(cells@, i as int);
            }
            let mut j: usize = 0;
            while j < 4
                invariant
                    j <= 4,
                    m == self@,
                    dirs@ == Direction::order(),
                    m.contains_key(pos@),
                    m[pos@] == amino,
                    m.contains_key(origin()),
                    forall|k: int|
                        0 <= k < j && has_bond(m, pos@, #[trigger] dirs@[k]) ==> m.contains_key(
                            step(pos@, dirs@[k]),
                        ),
                decreases 4 - j,
            {
                let d = dirs[j];
                if amino.children.contains(d) && self.get_beside(pos, d).is_none() {
                    assert(has_bond(m, pos@, d) && !m.contains_key(step(pos@, d)));
                    return Err(ShapeError::DanglingBond);
                }
                j += 1;
            }
            proof {
                assert forall|d: Direction| #[trigger] has_bond(m, pos@, d) implies m.contains_key(
                    step(pos@, d),
                ) by {
                    assert(dirs@[d.rank()] == d);
                }
            }
            i += 1;
        }
        proof {
            assert forall|p: (int, int), d: Direction| #[trigger]
                has_bond(m, p, d) implies m.contains_key(step(p, d)) by {
                let k = choose|k: int| 0 <= k < cells@.len() && (#[trigger] cells@[k]).0@ == p;
                assert(has_bond(m, cells@[k].0@, d));
            }
            assert(bonds_lead_to_cells(m));
        }
        i = 0;
        while i < n
            invariant
                i <= n,
                n == cells@.len(),
                m == self@,
                keys_distinct(cells@),
                cells_of(cells@) == m,
                m.contains_key(origin()),
                bonds_lead_to_cells(m),
                forall|k: int, d: Direction, e: Direction|
                    0 <= k < i && #[trigger] bonded_from(m, cells@[k].0@, d) && #[trigger] bonded_from(
                        m,
                        cells@[k].0@,
                        e,
                    ) ==> d == e,
                forall|k: int, d: Direction|
                    0 <= k < i && cells@[k].0@ == origin() ==> !#[trigger] bonded_from(
                        m,
                        cells@[k].0@,
                        d,
                    ),
            decreases n - i,
        {
            let pos = cells[i].0;
            proof {
                lemma_cells_entry(cells@, i as int);
            }
            let count = self.holders(pos);
            if count > 1 || (count > 0 && pos == Pos::zeros()) {
                return Err(ShapeError::Cyclic);
            }
            i += 1;
        }
        proof {
            assert forall|p: (int, int), d: Direction, e: Direction| #[trigger]
                bonded_from(m, p, d) && #[trigger] bonded_from(m, p, e) implies d == e by {
                lemma_step_back(p, d);
                assert(has_bond(m, step(p, d), d.opposite_spec()));
                let k = choose|k: int| 0 <= k < cells@.len() && (#[trigger] cells@[k]).0@ == p;
                assert(bonded_from(m, cells@[k].0@, d) && bonded_from(m, cells@[k].0@, e));
            }
            assert forall|d: Direction| !#[trigger] bonded_from(m, origin(), d) by {
                let k = choose|k: int|
                    0 <= k < cells@.len() && (#[trigger] cells@[k]).0@ == origin();
                if bonded_from(m, origin(), d) {
                    assert(bonded_from(m, cells@[k].0@, d));
                }
            }
            assert(one_parent(m) && root_free(m));
        }
        i = 0;
        while i < n
            invariant
                i <= n,
                n == cells@.len(),
                n == m.dom().len(),
                m.dom().finite(),
                m == self@,
                keys_distinct(cells@),
                cells_of(cells@) == m,
                m.contains_key(origin()),
                bonds_lead_to_cells(m),
                one_parent(m),
                root_free(m),
                forall|k: int| 0 <= k < i ==> #[trigger] reaches_root(m, cells@[k].0@),
            decreases n - i,
        {
            let pos = cells[i].0;
            proof {
                lemma_cells_entry(cells@, i as int);
            }
            if !self.climbs(pos, n) {
                proof {
                    if reaches_root(m, pos@) {
                        let fuel = choose|fuel: nat| (#[trigger] depth_within(m, pos@, fuel)).is_some();
                        lemma_depth_below_len(m, pos@, fuel);
                    }
                }
                return Err(ShapeError::Disconnected);
            }
            i += 1;
        }
        proof {
            assert forall|p: (int, int)| m.contains_key(p) implies #[trigger] reaches_root(m, p) by {
                let k = choose|k: int| 0 <= k < cells@.len() && (#[trigger] cells@[k]).0@ == p;
                assert(reaches_root(m, cells@[k].0@));
            }
        }
        Ok(())
    }
}

} // verus!

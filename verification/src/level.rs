//! A level: the shape that a chain is to be built after, and the moves it
//! allows on a chain under construction.

use vstd::prelude::*;
use crate::amino::{Amino, AminoType};
use crate::direction::{step, Direction};
use crate::path::{find_of, lemma_found_path, path_of};
use crate::peptide::{
    can_grow, cells_of, child_count, has_child, keys_distinct, lemma_cells_entry, single, stored,
    Cells, Peptide,
};
use crate::pos::{origin, Pos};
use crate::score::{Score, MAX_CELLS};
use crate::tree::{is_tree, lemma_step_back, verdict, ShapeError};

verus! {

/// A shape to build a chain after, with its title, its description and the
/// range of energies that chains built after it can have.
pub struct Level {
    title: String,
    description: String,
    range: (Score, Score),
    peptide: Peptide,
}

/// A unit to place: its kind, the free cell to place it on, and the
/// direction from its parent to that cell.
pub type Placement = (AminoType, Pos, Direction);

/// The cell that a placement makes the parent of the new unit.
pub open spec fn parent_cell(mv: Placement) -> (int, int) {
    step(mv.1@, mv.2.opposite_spec())
}

/// Whether the shape allows the chain `m` one more child of kind `t` at the
/// cell `p`, on the neighbouring cell in direction `d`: that cell is free,
/// the shape has a cell with the address of `p`, and that cell has more
/// children of kind `t` than `p` has.
pub open spec fn allows(shape: Cells, m: Cells, t: AminoType, p: (int, int), d: Direction) -> bool {
    &&& can_grow(m, p, d)
    &&& find_of(shape, path_of(m, p)).is_some()
    &&& child_count(m, p, t) < child_count(shape, find_of(shape, path_of(m, p)).unwrap(), t)
}

/// Whether the shape allows the placement `mv` on the chain `m`.
pub open spec fn offered(shape: Cells, m: Cells, mv: Placement) -> bool {
    allows(shape, m, mv.0, parent_cell(mv), mv.2)
}

/// What creating a level from the cells `m` answers: what `verdict` says of
/// them, and for a chain whether it is small enough.
pub open spec fn level_verdict(m: Cells) -> Result<(), ShapeError> {
    if verdict(m).is_err() {
        verdict(m)
    } else if m.dom().len() > MAX_CELLS {
        Err(ShapeError::TooLarge)
    } else {
        Ok(())
    }
}

/// Whether `mv` places a unit of kind `t` on a free cell beside the cell `p`
/// of the chain `m`.
pub open spec fn beside(m: Cells, p: (int, int), t: AminoType, mv: Placement) -> bool {
    mv.0 == t && parent_cell(mv) == p && can_grow(m, p, mv.2)
}

/// How often the shape allows the placement `mv` on the chain `m`: once for
/// each bond of the shape's cell with the address of the parent that leads
/// to a child of the kind, where the parent has fewer children of the kind
/// than that cell and the cell to place on is free; otherwise not at all.
pub open spec fn offers(shape: Cells, m: Cells, mv: Placement) -> nat {
    if offered(shape, m, mv) {
        child_count(shape, find_of(shape, path_of(m, parent_cell(mv))).unwrap(), mv.0)
    } else {
        0
    }
}

/// How often `mv` stands in the list `s`.
pub open spec fn times(s: Seq<Placement>, mv: Placement) -> nat {
    s.to_multiset().count(mv)
}

/// The number of the first `n` directions, in enumeration order, in which
/// the cell `p` of the shape is bonded to a child of kind `t`.
spec fn kids_before(shape: Cells, p: (int, int), t: AminoType, n: int) -> nat {
    let up: nat = if n > 0 && has_child(shape, p, Direction::Up, t) { 1 } else { 0 };
    let right: nat = if n > 1 && has_child(shape, p, Direction::Right, t) { 1 } else { 0 };
    let down: nat = if n > 2 && has_child(shape, p, Direction::Down, t) { 1 } else { 0 };
    let left: nat = if n > 3 && has_child(shape, p, Direction::Left, t) { 1 } else { 0 };
    up + right + down + left
}

/// A list with one more entry holds that entry once more and every other
/// entry as often as before; the empty list holds nothing.
proof fn lemma_times_push(s: Seq<Placement>, x: Placement, mv: Placement)
    ensures
        times(s.push(x), mv) == times(s, mv) + (if x == mv {
            1nat
        } else {
            0nat
        }),
        times(Seq::empty(), mv) == 0,
        s.contains(mv) == (times(s, mv) > 0),
{
    broadcast use vstd::multiset::group_multiset_axioms;

    vstd::seq_lib::to_multiset_build(s, x);
    vstd::seq_lib::to_multiset_contains(s, mv);
    vstd::seq_lib::to_multiset_len(Seq::<Placement>::empty());
    assert(Seq::<Placement>::empty().to_multiset() =~= vstd::multiset::Multiset::empty());
}

/// A position is stored among the first `n + 1` entries if it is stored
/// among the first `n` or is that of entry `n`.
proof fn lemma_stored_step(s: Seq<(Pos, Amino)>, n: int, k: (int, int))
    requires
        0 <= n < s.len(),
    ensures
        stored(s.take(n + 1), k) == (stored(s.take(n), k) || s[n].0@ == k),
        keys_distinct(s) ==> !(stored(s.take(n), k) && s[n].0@ == k),
{
    let a = s.take(n);
    let b = s.take(n + 1);
    if stored(a, k) {
        let i = choose|i: int| 0 <= i < a.len() && (#[trigger] a[i]).0@ == k;
        assert(b[i].0@ == k);
        if keys_distinct(s) && s[n].0@ == k {
            assert(s[i].0 == s[n].0);
        }
    }
    if s[n].0@ == k {
        assert(b[n].0@ == k);
    }
    if stored(b, k) {
        let i = choose|i: int| 0 <= i < b.len() && (#[trigger] b[i]).0@ == k;
        if i < n {
            assert(a[i].0@ == k);
        }
    }
}

impl Level {
    #[verifier::type_invariant]
    spec fn valid(self) -> bool {
        is_tree(self.peptide@) && self.peptide@.dom().len() <= MAX_CELLS
    }

    /// The cells of the level's shape.
    pub closed spec fn shape(&self) -> Cells {
        self.peptide@
    }

    /// The title of the level.
    pub closed spec fn title_spec(&self) -> Seq<char> {
        self.title@
    }

    /// The description of the level.
    pub closed spec fn description_spec(&self) -> Seq<char> {
        self.description@
    }

    /// The range of energies recorded for the level, lowest first.
    pub closed spec fn range_spec(&self) -> (Score, Score) {
        self.range
    }

    /// Makes a level of a shape, provided the shape is one chain of at most
    /// `MAX_CELLS` cells.
    pub fn new(title: String, description: String, range: (Score, Score), peptide: Peptide) -> (r:
        Result<Level, ShapeError>)
        ensures
            match r {
                Ok(level) => {
                    &&& level_verdict(peptide@).is_ok()
                    &&& is_tree(peptide@)
                    &&& level.shape() == peptide@
                    &&& level.title_spec() == title@
                    &&& level.description_spec() == description@
                    &&& level.range_spec() == range
                },
                Err(e) => level_verdict(peptide@) == Err::<(), ShapeError>(e),
            },
    {
        match peptide.validate() {
            Err(e) => Err(e),
            Ok(()) => {
                if peptide.len() > MAX_CELLS {
                    Err(ShapeError::TooLarge)
                } else {
                    Ok(Level { title, description, range, peptide })
                }
            },
        }
    }

    /// Has no effect when run. To the caller's proof it brings what holds of
    /// every level: its shape is one chain of at most `MAX_CELLS` cells.
    pub fn recall(&self)
        ensures
            is_tree(self.shape()),
            self.shape().dom().len() <= MAX_CELLS,
    {
        proof {
            use_type_invariant(self);
        }
    }

    /// Records `range` as the range of energies of the level.
    pub fn set_range(&mut self, range: (Score, Score))
        ensures
            final(self).shape() == old(self).shape(),
            final(self).title_spec() == old(self).title_spec(),
            final(self).description_spec() == old(self).description_spec(),
            final(self).range_spec() == range,
    {
        proof {
            use_type_invariant(&*self);
        }
        self.range = range;
    }

    /// The title of the level.
    pub fn title(&self) -> (r: &String)
        ensures
            r@ == self.title_spec(),
    {
        &self.title
    }

    /// The description of the level.
    pub fn description(&self) -> (r: &String)
        ensures
            r@ == self.description_spec(),
    {
        &self.description
    }

    /// The range of energies recorded for the level, lowest first.
    pub fn range(&self) -> (r: (Score, Score))
        ensures
            r == self.range_spec(),
    {
        self.range
    }

    /// The shape of the level.
    pub fn peptide(&self) -> (r: &Peptide)
        ensures
            r@ == self.shape(),
    {
        &self.peptide
    }

    /// The occupant of the cell `pos` of the shape, if it is occupied.
    pub fn get(&self, pos: Pos) -> (r: Option<Amino>)
        ensures
            r == (if self.shape().contains_key(pos@) {
                Some(self.shape()[pos@])
            } else {
                None
            }),
    {
        self.peptide.get(pos)
    }

    /// Adds to `out` a placement of kind `amino` for each free cell beside
    /// the cell `pos` of the chain.
    fn offer(peptide: &Peptide, pos: Pos, amino: AminoType, out: &mut Vec<Placement>)
        requires
            peptide@.contains_key(pos@),
        ensures
            forall|mv: Placement| #[trigger]
                times(final(out)@, mv) == times(old(out)@, mv) + (if beside(
                    peptide@,
                    pos@,
                    amino,
                    mv,
                ) {
                    1nat
                } else {
                    0nat
                }),
    {
        let dirs = Direction::all();
        let mut i: usize = 0;
        while i < 4
            invariant
                i <= 4,
                dirs@ == Direction::order(),
                peptide@.contains_key(pos@),
                forall|mv: Placement| #[trigger]
                    times(out@, mv) == times(old(out)@, mv) + (if beside(peptide@, pos@, amino, mv)
                        && mv.2.rank() < i {
                        1nat
                    } else {
                        0nat
                    }),
            decreases 4 - i,
        {
            let d = dirs[i];
            assert(d.rank() == i);
            let ghost before = out@;
            let ghost mut pushed: Option<Placement> = None;
            let next = pos.neighbor(d);
            match next {
                Some(next) => {
                    if !peptide.contains_key(next) {
                        out.push((amino, next, d));
                        proof {
                            pushed = Some((amino, next, d));
                        }
                    }
                },
                None => {},
            }
            proof {
                lemma_step_back(pos@, d);
                assert forall|mv: Placement| #[trigger]
                    times(out@, mv) == times(old(out)@, mv) + (if beside(peptide@, pos@, amino, mv)
                        && mv.2.rank() < i + 1 {
                        1nat
                    } else {
                        0nat
                    }) by {
                    assert(times(before, mv) == times(old(out)@, mv) + (if beside(
                        peptide@,
                        pos@,
                        amino,
                        mv,
                    ) && mv.2.rank() < i {
                        1nat
                    } else {
                        0nat
                    }));
                    if pushed.is_some() {
                        lemma_times_push(before, pushed.unwrap(), mv);
                    }
                    if beside(peptide@, pos@, amino, mv) && mv.2 == d {
                        lemma_step_back(mv.1@, mv.2.opposite_spec());
                        assert(mv.1@ == step(pos@, d));
                        assert(next.is_some());
                        crate::pos::lemma_view_injective(mv.1, next.unwrap());
                        assert(pushed == Some(mv));
                    }
                    if pushed == Some(mv) {
                        assert(beside(peptide@, pos@, amino, mv) && mv.2 == d);
                    }
                    assert((mv.2.rank() < i + 1) == (mv.2.rank() < i || mv.2 == d));
                }
            }
            i += 1;
        }
    }

    /// Adds to `out` the placements that the level allows at the cell `pos`
    /// of the chain, each as often as it allows it.
    fn options_at(&self, peptide: &Peptide, pos: Pos, out: &mut Vec<Placement>)
        requires
            peptide@.contains_key(pos@),
        ensures
            forall|mv: Placement| #[trigger]
                times(final(out)@, mv) == times(old(out)@, mv) + (if parent_cell(mv) == pos@ {
                    offers(self.shape(), peptide@, mv)
                } else {
                    0nat
                }),
    {
        self.recall();
        let ghost shape = self.shape();
        let ghost m = peptide@;
        let path = peptide.path(pos);
        let level_pos = match self.peptide.find(path.as_slice()) {
            Some(level_pos) => level_pos,
            None => {
                return ;
            },
        };
        proof {
            lemma_found_path(shape, origin(), path@);
        }
        let level = match self.peptide.get(level_pos) {
            Some(level) => level,
            None => {
                return ;
            },
        };
        let dirs = Direction::all();
        let mut j: usize = 0;
        while j < 4
            invariant
                j <= 4,
                dirs@ == Direction::order(),
                shape == self.shape(),
                m == peptide@,
                m.contains_key(pos@),
                find_of(shape, path_of(m, pos@)) == Some(level_pos@),
                shape.contains_key(level_pos@),
                shape[level_pos@] == level,
                forall|mv: Placement| #[trigger]
                    times(out@, mv) == times(old(out)@, mv) + (if parent_cell(mv) == pos@
                        && offered(shape, m, mv) {
                        kids_before(shape, level_pos@, mv.0, j as int)
                    } else {
                        0nat
                    }),
            decreases 4 - j,
        {
            let e = dirs[j];
            assert(e.rank() == j);
            let ghost before = out@;
            let ghost mut kind: Option<AminoType> = None;
            let ghost mut pushed = false;
            if level.children.contains(e) {
                match self.peptide.get_beside(level_pos, e) {
                    Some(child) => {
                        let max = self.peptide.children_of_type(level_pos, child.amino);
                        let current = peptide.children_of_type(pos, child.amino);
                        if current < max {
                            Level::offer(peptide, pos, child.amino, out);
                            proof {
                                pushed = true;
                            }
                        }
                        proof {
                            kind = Some(child.amino);
                        }
                    },
                    None => {},
                }
            }
            proof {
                assert forall|mv: Placement| #[trigger]
                    times(out@, mv) == times(old(out)@, mv) + (if parent_cell(mv) == pos@
                        && offered(shape, m, mv) {
                        kids_before(shape, level_pos@, mv.0, j + 1)
                    } else {
                        0nat
                    }) by {
                    assert(has_child(shape, level_pos@, e, mv.0) == (kind == Some(mv.0)));
                    assert(kids_before(shape, level_pos@, mv.0, j + 1) == kids_before(
                        shape,
                        level_pos@,
                        mv.0,
                        j as int,
                    ) + (if has_child(shape, level_pos@, e, mv.0) {
                        1nat
                    } else {
                        0nat
                    }));
                    assert(times(before, mv) == times(old(out)@, mv) + (if parent_cell(mv) == pos@
                        && offered(shape, m, mv) {
                        kids_before(shape, level_pos@, mv.0, j as int)
                    } else {
                        0nat
                    }));
                    if pushed {
                        assert(times(out@, mv) == times(before, mv) + (if beside(
                            m,
                            pos@,
                            kind.unwrap(),
                            mv,
                        ) {
                            1nat
                        } else {
                            0nat
                        }));
                    } else {
                        assert(out@ == before);
                    }
                    if kind == Some(mv.0) && parent_cell(mv) == pos@ {
                        assert(offered(shape, m, mv) == (pushed && beside(m, pos@, mv.0, mv)));
                    }
                }
            }
            j += 1;
        }
        proof {
            assert forall|mv: Placement| #[trigger]
                times(out@, mv) == times(old(out)@, mv) + (if parent_cell(mv) == pos@ {
                    offers(shape, m, mv)
                } else {
                    0nat
                }) by {
                assert(times(out@, mv) == times(old(out)@, mv) + (if parent_cell(mv) == pos@
                    && offered(shape, m, mv) {
                    kids_before(shape, level_pos@, mv.0, j as int)
                } else {
                    0nat
                }));
                assert(kids_before(shape, level_pos@, mv.0, 4) == child_count(
                    shape,
                    level_pos@,
                    mv.0,
                ));
            }
        }
    }

    /// The placements that the level allows on the chain: for each cell of
    /// the chain, the shape's cell with the same address is looked up; for
    /// each bond of that cell that leads to a child of a kind of which it
    /// has more children than the chain's cell has, a unit of the kind may
    /// be placed on each free cell beside the chain's cell. So a placement
    /// is listed once for each such bond. A cell whose address the shape
    /// does not have allows nothing.
    pub fn options(&self, peptide: &Peptide) -> (r: Vec<Placement>)
        ensures
            forall|mv: Placement| #[trigger]
                r@.to_multiset().count(mv) == offers(self.shape(), peptide@, mv),
            forall|mv: Placement|
                #![trigger r@.contains(mv)]
                #![trigger offered(self.shape(), peptide@, mv)]
                r@.contains(mv) <==> offered(self.shape(), peptide@, mv),
    {
        let mut out: Vec<Placement> = Vec::new();
        let cells = peptide.cells();
        let ghost m = peptide@;
        let ghost shape = self.shape();
        let mut i: usize = 0;
        proof {
            assert forall|mv: Placement| #[trigger] times(out@, mv) == 0 by {
                lemma_times_push(out@, mv, mv);
                assert(out@ =~= Seq::<Placement>::empty());
            }
        }
        while i < cells.len()
            invariant
                i <= cells@.len(),
                m == peptide@,
                shape == self.shape(),
                keys_distinct(cells@),
                cells_of(cells@) == m,
                forall|mv: Placement| #[trigger]
                    times(out@, mv) == (if stored(cells@.take(i as int), parent_cell(mv)) {
                        offers(shape, m, mv)
                    } else {
                        0nat
                    }),
            decreases cells@.len() - i,
        {
            proof {
                lemma_cells_entry(cells@, i as int);
            }
            let ghost before = out@;
            self.options_at(peptide, cells[i].0, &mut out);
            proof {
                assert forall|mv: Placement| #[trigger]
                    times(out@, mv) == (if stored(cells@.take(i + 1), parent_cell(mv)) {
                        offers(shape, m, mv)
                    } else {
                        0nat
                    }) by {
                    assert(times(before, mv) == (if stored(
                        cells@.take(i as int),
                        parent_cell(mv),
                    ) {
                        offers(shape, m, mv)
                    } else {
                        0nat
                    }));
                    lemma_stored_step(cells@, i as int, parent_cell(mv));
                }
            }
            i += 1;
        }
        proof {
            assert(cells@.take(cells@.len() as int) =~= cells@);
            assert(i as int == cells@.len() as int);
            assert forall|mv: Placement| #[trigger]
                out@.to_multiset().count(mv) == offers(shape, m, mv) by {
                assert(times(out@, mv) == (if stored(cells@.take(i as int), parent_cell(mv)) {
                    offers(shape, m, mv)
                } else {
                    0nat
                }));
                if offered(shape, m, mv) {
                    assert(m.contains_key(parent_cell(mv)));
                }
            }
            assert forall|mv: Placement|
                #![trigger out@.contains(mv)]
                #![trigger offered(shape, m, mv)]
                out@.contains(mv) <==> offered(shape, m, mv) by {
                lemma_times_push(out@, mv, mv);
                assert(times(out@, mv) == offers(shape, m, mv));
            }
        }
        out
    }
}

impl Peptide {
    /// The start of a chain built after `level`: the root of the level's
    /// shape, alone and without bonds.
    pub fn for_level(level: &Level) -> (r: Peptide)
        ensures
            r@ == single(level.shape()[origin()].amino),
    {
        level.recall();
        match level.get(Pos::zeros()) {
            Some(amino) => Peptide::root(amino.amino),
            None => Peptide::new(),
        }
    }
}

} // verus!

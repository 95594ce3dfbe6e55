//! Making levels at random: a chain is grown from a single unit, one random
//! placement at a time, and the range of its energies is searched for.

use vstd::prelude::*;
use crate::amino::AminoType;
use crate::direction::Direction;
use crate::grow::{law_grown_is_tree, lemma_single_is_tree};
use crate::level::{level_verdict, Level};
use crate::peptide::{can_grow, grown, single, Cells, Peptide};
use crate::random::{choose_direction, choose_from, number_between};
use crate::score::{energy, Score};
use crate::search::{attained, buildable, complete, crowded, Search};
use crate::text::{decimal, digits};
use crate::tree::{is_tree, ShapeError};

verus! {

/// Why no level was made.
#[derive(Clone, Copy, Debug, PartialEq, Eq)]
pub enum GenerateError {
    /// The shape is not one chain.
    Shape(ShapeError),
    /// No chain with as many cells as the shape can be built after it.
    Unsolvable,
    /// The search for the range of energies ran out of budget.
    Aborted,
    /// No random placement hit a free cell in the attempts allowed.
    Stuck,
}

/// Whether `after` is `before` with one new unit attached.
pub open spec fn grew(before: Cells, after: Cells) -> bool {
    exists|p: (int, int), d: Direction, t: AminoType|
        can_grow(before, p, d) && after == #[trigger] grown(before, p, d, t)
}

/// Whether `to` is `from` after `n` growths, each by one new unit.
pub open spec fn grown_in(from: Cells, to: Cells, n: nat) -> bool
    decreases n,
{
    if n == 0 {
        to == from
    } else {
        exists|mid: Cells| grown_in(from, mid, (n - 1) as nat) && #[trigger] grew(mid, to)
    }
}

/// Whether `m` is a chain of one unit, grown between four and twelve times
/// by one new unit.
pub open spec fn randomly_grown(m: Cells) -> bool {
    exists|first: AminoType, n: nat| 4 <= n <= 12 && #[trigger] grown_in(single(first), m, n)
}

/// A chain of one unit that was grown `n` times is a chain of `n + 1` cells.
pub proof fn law_grown_in(first: AminoType, m: Cells, n: nat)
    requires
        grown_in(single(first), m, n),
    ensures
        is_tree(m),
        m.dom().len() == n + 1,
    decreases n,
{
    if n == 0 {
        lemma_single_is_tree(first);
    } else {
        let mid = choose|mid: Cells|
            grown_in(single(first), mid, (n - 1) as nat) && #[trigger] grew(mid, m);
        law_grown_in(first, mid, (n - 1) as nat);
        let (p, d, t) = choose|p: (int, int), d: Direction, t: AminoType|
            can_grow(mid, p, d) && m == #[trigger] grown(mid, p, d, t);
        law_grown_is_tree(mid, p, d, t);
    }
}

/// The title of the random level with the number `serial`.
pub open spec fn random_title(serial: u32) -> Seq<char> {
    "Random #"@ + digits(serial as nat)
}

/// The description that every random level has.
pub open spec fn random_description() -> Seq<char> {
    "A randomly grown peptide. Fold it to the lowest energy you can."@
}

impl Peptide {
    /// Grows the chain by one unit at random: an occupied cell is drawn, each
    /// as likely as any other, then a direction, right being four times as
    /// likely as each other one; where the cell beyond is free, a unit of a
    /// kind drawn at random is attached there. Otherwise the draw is
    /// repeated, up to `attempts` draws in all. Returns whether the chain
    /// grew; without an attempt, or without a cell to draw, it does not.
    pub fn mutate(&mut self, attempts: usize) -> (done: bool)
        ensures
            done ==> grew(old(self)@, final(self)@),
            !done ==> final(self)@ == old(self)@,
            attempts == 0 || old(self)@.dom().len() == 0 ==> !done,
            is_tree(old(self)@) ==> is_tree(final(self)@),
            final(self)@.dom().len() == old(self)@.dom().len() + (if done {
                1int
            } else {
                0int
            }),
    {
        let cells = self.positions();
        let kinds = AminoType::list();
        let dirs = Direction::all();
        let mut tries: usize = 0;
        while tries < attempts
            invariant
                self@ == old(self)@,
                cells@.len() == self@.dom().len(),
                forall|i: int| 0 <= i < cells@.len() ==> self@.contains_key((#[trigger] cells@[i])@),
            decreases attempts - tries,
        {
            tries += 1;
            let pos = match choose_from(&cells) {
                Some(pos) => pos,
                None => {
                    return false;
                },
            };
            if let Some(dir) = choose_direction(&dirs) {
                if let Some(next) = pos.neighbor(dir) {
                    if !self.contains_key(next) {
                        if let Some(amino) = choose_from(&kinds) {
                            let ghost before = self@;
                            self.recall();
                            let attached = self.attach(pos, dir, amino);
                            proof {
                                assert(can_grow(before, pos@, dir));
                                assert(attached);
                                if is_tree(before) {
                                    law_grown_is_tree(before, pos@, dir, amino);
                                } else {
                                    assert(self@.dom() =~= before.dom().insert(next@));
                                }
                            }
                            return true;
                        }
                    }
                }
            }
        }
        false
    }
}

impl Level {
    /// Makes a level of a shape and searches, within `budget`, for the range
    /// of energies of the complete chains that can be built after it; the
    /// level records that range.
    pub fn rated(title: String, description: String, peptide: Peptide, budget: usize) -> (r: Result<
        Level,
        GenerateError,
    >)
        ensures
            match r {
                Ok(level) => {
                    &&& is_tree(peptide@)
                    &&& !crowded(peptide@, budget as nat)
                    &&& level.shape() == peptide@
                    &&& level.title_spec() == title@
                    &&& level.description_spec() == description@
                    &&& attained(peptide@, level.range_spec().0.units as int)
                    &&& attained(peptide@, level.range_spec().1.units as int)
                    &&& forall|m: Cells| #[trigger]
                        buildable(peptide@, m) && complete(peptide@, m) ==> level.range_spec().0.units
                            <= energy(m) <= level.range_spec().1.units
                },
                Err(GenerateError::Shape(e)) => level_verdict(peptide@) == Err::<(), ShapeError>(e),
                Err(GenerateError::Unsolvable) => {
                    &&& is_tree(peptide@)
                    &&& !crowded(peptide@, budget as nat)
                    &&& forall|m: Cells| #[trigger] buildable(peptide@, m) ==> !complete(peptide@, m)
                },
                Err(GenerateError::Aborted) => is_tree(peptide@) && crowded(peptide@, budget as nat),
                Err(GenerateError::Stuck) => false,
            },
    {
        let unrated = (Score { units: 0 }, Score { units: 0 });
        let mut level = match Level::new(title, description, unrated, peptide) {
            Ok(level) => level,
            Err(e) => {
                return Err(GenerateError::Shape(e));
            },
        };
        match level.solve(budget) {
            Search::Complete(min, max) => {
                level.set_range((min, max));
                Ok(level)
            },
            Search::Unsolvable => Err(GenerateError::Unsolvable),
            Search::Partial(_, _) => Err(GenerateError::Aborted),
            Search::Aborted => Err(GenerateError::Aborted),
        }
    }
}

/// Grows a shape at random: a chain of one unit of a kind drawn at random is
/// grown by `mutate`, between four and twelve times, the number being drawn
/// at random too. Nothing where a growth found no free cell in `attempts`
/// draws, or where the random source gave nothing; so nothing where no
/// attempt is allowed.
pub fn random_shape(attempts: usize) -> (r: Option<Peptide>)
    ensures
        match r {
            Some(peptide) => {
                &&& randomly_grown(peptide@)
                &&& is_tree(peptide@)
                &&& 5 <= peptide@.dom().len() <= 13
                &&& attempts > 0
            },
            None => true,
        },
{
    let kinds = AminoType::list();
    let first = match choose_from(&kinds) {
        Some(first) => first,
        None => {
            return None;
        },
    };
    let mut peptide = Peptide::root(first);
    proof {
        lemma_single_is_tree(first);
    }
    let count = number_between(4, 12);
    let mut i: u32 = 0;
    while i < count
        invariant
            i <= count,
            4 <= count <= 12,
            i > 0 ==> attempts > 0,
            grown_in(single(first), peptide@, i as nat),
            is_tree(peptide@),
            peptide@.dom().len() == 1 + i,
        decreases count - i,
    {
        let ghost before = peptide@;
        if !peptide.mutate(attempts) {
            return None;
        }
        assert(grown_in(single(first), before, i as nat) && grew(before, peptide@));
        i += 1;
    }
    assert(grown_in(single(first), peptide@, count as nat));
    Some(peptide)
}

/// Makes a level at random: a shape grown by `random_shape`, with the title
/// `Random #` and `serial` behind it, and the range of energies that a
/// search within `budget` finds. Where no shape was grown the error is
/// `Stuck`, as it is whenever no attempt is allowed; where the search found
/// no complete chain or ran out of budget, the error says which.
pub fn generate(serial: u32, budget: usize, attempts: usize) -> (r: Result<Level, GenerateError>)
    ensures
        match r {
            Ok(level) => {
                &&& attempts > 0
                &&& randomly_grown(level.shape())
                &&& is_tree(level.shape())
                &&& 5 <= level.shape().dom().len() <= 13
                &&& !crowded(level.shape(), budget as nat)
                &&& level.title_spec() == random_title(serial)
                &&& level.description_spec() == random_description()
                &&& attained(level.shape(), level.range_spec().0.units as int)
                &&& attained(level.shape(), level.range_spec().1.units as int)
                &&& forall|m: Cells| #[trigger]
                    buildable(level.shape(), m) && complete(level.shape(), m)
                        ==> level.range_spec().0.units <= energy(m) <= level.range_spec().1.units
            },
            Err(e) => !(e is Shape) && (attempts == 0 ==> e is Stuck),
        },
{
    let peptide = match random_shape(attempts) {
        Some(peptide) => peptide,
        None => {
            return Err(GenerateError::Stuck);
        },
    };
    let mut title = String::from_str("Random #");
    let number = decimal(serial);
    title.append(number.as_str());
    let description = String::from_str(
        "A randomly grown peptide. Fold it to the lowest energy you can.",
    );
    let r = Level::rated(title, description, peptide, budget);
    proof {
        if let Err(GenerateError::Shape(e)) = r {
            crate::tree::law_verdict(peptide@);
        }
    }
    r
}

} // verus!

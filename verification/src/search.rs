//! The exhaustive search for the range of energies that a level allows.
//!
//! The search visits every chain that can be built after the level, one
//! placement at a time, each chain once. Their number grows exponentially
//! with the size and the branching of the shape, so the search takes a budget:
//! the number of chains that it may visit. It is meant to run when a level is
//! made, not while a player waits.

use std::collections::VecDeque;
use vstd::prelude::*;
use crate::grow::{law_grown_is_tree, lemma_single_is_tree};
use crate::level::{offered, parent_cell, Level, Placement};
use crate::peptide::{grown, single, Cells, Peptide};
use crate::pos::origin;
use crate::score::{energy, Score};
use crate::seen::Seen;
use crate::tree::{is_tree, lemma_step_back};

verus! {

/// How a search ended.
#[derive(Clone, Copy, Debug, PartialEq, Eq)]
pub enum Search {
    /// Every chain that can be built was visited. The two energies are the
    /// lowest and the highest among the complete chains.
    Complete(Score, Score),
    /// Every chain that can be built was visited, and none is complete.
    Unsolvable,
    /// The budget ran out. The two energies are the lowest and the highest
    /// among the complete chains visited so far.
    Partial(Score, Score),
    /// The budget ran out before any complete chain was visited.
    Aborted,
}

/// The chain with which building after a shape starts: the root of the
/// shape, alone.
pub open spec fn start(shape: Cells) -> Cells {
    single(shape[origin()].amino)
}

/// The chain `m` after the placement `mv`.
pub open spec fn placed(m: Cells, mv: Placement) -> Cells {
    grown(m, parent_cell(mv), mv.2, mv.0)
}

/// Whether `m` is built after the shape by exactly `steps` placements, each
/// allowed by the shape on the chain built so far.
pub open spec fn built_in(shape: Cells, m: Cells, steps: nat) -> bool
    decreases steps,
{
    if steps == 0 {
        m == start(shape)
    } else {
        exists|prev: Cells, mv: Placement|
            built_in(shape, prev, (steps - 1) as nat) && #[trigger] offered(shape, prev, mv) && m
                == placed(prev, mv)
    }
}

/// Whether `m` can be built after the shape.
pub open spec fn buildable(shape: Cells, m: Cells) -> bool {
    exists|steps: nat| built_in(shape, m, steps)
}

/// Whether the chain has as many cells as the shape.
pub open spec fn complete(shape: Cells, m: Cells) -> bool {
    m.dom().len() == shape.dom().len()
}

/// Whether some complete chain that can be built after the shape has the
/// energy `units`.
pub open spec fn attained(shape: Cells, units: int) -> bool {
    exists|m: Cells| #[trigger] buildable(shape, m) && complete(shape, m) && energy(m) == units
}

/// Whether more than `budget` different chains can be built after the shape.
pub open spec fn crowded(shape: Cells, budget: nat) -> bool {
    exists|s: Set<Cells>|
        s.finite() && s.len() > budget && forall|m: Cells|
            s.contains(m) ==> #[trigger] buildable(shape, m)
}

/// Whether the chain `m` waits in the queue.
pub open spec fn queued(queue: Seq<Peptide>, m: Cells) -> bool {
    exists|i: int| 0 <= i < queue.len() && (#[trigger] queue[i])@ == m
}

/// Whether every chain one placement after a visited chain is visited or
/// waits in the queue.
pub open spec fn followed(shape: Cells, seen: Set<Cells>, queue: Seq<Peptide>) -> bool {
    forall|m: Cells, mv: Placement|
        seen.contains(m) && #[trigger] offered(shape, m, mv) ==> seen.contains(placed(m, mv))
            || queued(queue, placed(m, mv))
}

/// A chain one allowed placement after a chain that can be built can be
/// built.
proof fn lemma_buildable_step(shape: Cells, m: Cells, mv: Placement)
    requires
        buildable(shape, m),
        offered(shape, m, mv),
    ensures
        buildable(shape, placed(m, mv)),
{
    let steps = choose|steps: nat| built_in(shape, m, steps);
    assert(built_in(shape, placed(m, mv), steps + 1));
}

/// The starting chain can be built.
proof fn lemma_buildable_start(shape: Cells)
    ensures
        buildable(shape, start(shape)),
{
    assert(built_in(shape, start(shape), 0));
}

/// Where the starting chain is visited, all that follows a visited chain is
/// visited too, and nothing waits, every chain built in `steps` placements
/// is visited.
proof fn lemma_exhausted(shape: Cells, seen: Set<Cells>, m: Cells, steps: nat)
    requires
        seen.contains(start(shape)),
        followed(shape, seen, Seq::empty()),
        built_in(shape, m, steps),
    ensures
        seen.contains(m),
    decreases steps,
{
    if steps > 0 {
        let (prev, mv) = choose|prev: Cells, mv: Placement|
            built_in(shape, prev, (steps - 1) as nat) && #[trigger] offered(shape, prev, mv) && m
                == placed(prev, mv);
        lemma_exhausted(shape, seen, prev, (steps - 1) as nat);
        assert(!queued(Seq::<Peptide>::empty(), m));
    }
}

/// What waits behind the head of the queue still waits once the head is
/// taken and more is appended.
proof fn lemma_queue_shift(before: Seq<Peptide>, after: Seq<Peptide>, m: Cells)
    requires
        before.len() > 0,
        after.len() >= before.len() - 1,
        forall|i: int| 1 <= i < before.len() ==> after[i - 1] == before[i],
        queued(before, m),
    ensures
        queued(after, m) || before[0]@ == m,
{
    let i = choose|i: int| 0 <= i < before.len() && (#[trigger] before[i])@ == m;
    if i > 0 {
        assert(after[i - 1]@ == m);
    }
}

/// Taking the head of the queue and visiting it keeps `followed`, provided
/// the head was visited already or all that follows it now waits.
proof fn lemma_followed_step(
    shape: Cells,
    seen: Set<Cells>,
    before: Seq<Peptide>,
    after: Seq<Peptide>,
)
    requires
        followed(shape, seen, before),
        before.len() > 0,
        after.len() >= before.len() - 1,
        forall|i: int| 1 <= i < before.len() ==> after[i - 1] == before[i],
        seen.contains(before[0]@) || forall|mv: Placement| #[trigger]
            offered(shape, before[0]@, mv) ==> queued(after, placed(before[0]@, mv)),
    ensures
        followed(shape, seen.insert(before[0]@), after),
{
    let head = before[0]@;
    let wider = seen.insert(head);
    assert forall|m: Cells, mv: Placement|
        wider.contains(m) && #[trigger] offered(shape, m, mv) implies wider.contains(
        placed(m, mv),
    ) || queued(after, placed(m, mv)) by {
        if seen.contains(m) {
            if queued(before, placed(m, mv)) {
                lemma_queue_shift(before, after, placed(m, mv));
            }
        }
    }
}

impl Level {
    /// Appends to the queue the chain that each of the placements `moves`
    /// makes of `current`.
    fn expand(&self, current: &Peptide, moves: &Vec<Placement>, queue: &mut VecDeque<Peptide>)
        requires
            buildable(self.shape(), current@),
            forall|k: int| 0 <= k < moves@.len() ==> offered(self.shape(), current@, #[trigger] moves@[k]),
        ensures
            final(queue)@.len() == old(queue)@.len() + moves@.len(),
            forall|i: int| 0 <= i < old(queue)@.len() ==> final(queue)@[i] == old(queue)@[i],
            forall|k: int|
                0 <= k < moves@.len() ==> (#[trigger] final(queue)@[old(queue)@.len() + k])@
                    == placed(current@, moves@[k]),
    {
        current.recall();
        let mut j: usize = 0;
        while j < moves.len()
            invariant
                j <= moves@.len(),
                forall|k: int|
                    0 <= k < moves@.len() ==> offered(self.shape(), current@, #[trigger] moves@[k]),
                forall|k: (int, int)| current@.contains_key(k) ==> crate::pos::representable(k),
                queue@.len() == old(queue)@.len() + j,
                forall|i: int| 0 <= i < old(queue)@.len() ==> queue@[i] == old(queue)@[i],
                forall|k: int|
                    0 <= k < j ==> (#[trigger] queue@[old(queue)@.len() + k])@ == placed(
                        current@,
                        moves@[k],
                    ),
            decreases moves@.len() - j,
        {
            let mv = moves[j];
            let amino = mv.0;
            let pos = mv.1;
            let dir = mv.2;
            assert(offered(self.shape(), current@, moves@[j as int]));
            proof {
                lemma_step_back(pos@, dir.opposite_spec());
            }
            let mut next = current.clone();
            match pos.neighbor(dir.opposite()) {
                Some(parent) => {
                    let done = next.attach(parent, dir, amino);
                    assert(done);
                },
                None => {
                    assert(false);
                },
            }
            assert(next@ == placed(current@, mv));
            queue.push_back(next);
            j += 1;
        }
    }

    /// Searches the chains that can be built after the level, as `solve`
    /// does, for a complete chain with an energy below `limit`, and returns
    /// the first that it visits. Nothing where no complete chain lies below
    /// the limit, or where more than `budget` chains can be built and none
    /// below the limit was among the first `budget` visited.
    pub fn solve_p(&self, limit: Score, budget: usize) -> (r: Option<Peptide>)
        ensures
            match r {
                Some(p) => buildable(self.shape(), p@) && complete(self.shape(), p@) && energy(p@)
                    < limit.units,
                None => crowded(self.shape(), budget as nat) || forall|m: Cells| #[trigger]
                    buildable(self.shape(), m) && complete(self.shape(), m) ==> energy(m)
                        >= limit.units,
            },
    {
        self.recall();
        let ghost shape = self.shape();
        let target = self.peptide().len();
        let mut queue: VecDeque<Peptide> = VecDeque::new();
        let first = Peptide::for_level(self);
        queue.push_back(first);
        let mut seen = Seen::new();
        let mut spent: usize = 0;
        proof {
            lemma_buildable_start(shape);
            assert(queue@[0]@ == start(shape));
        }
        while queue.len() > 0
            invariant
                shape == self.shape(),
                target == shape.dom().len(),
                target <= crate::score::MAX_CELLS,
                spent <= budget,
                seen@.finite(),
                seen@.len() == spent,
                forall|m: Cells| seen@.contains(m) ==> #[trigger] buildable(shape, m),
                forall|i: int| 0 <= i < queue@.len() ==> buildable(shape, (#[trigger] queue@[i])@),
                seen@.contains(start(shape)) || queued(queue@, start(shape)),
                followed(shape, seen@, queue@),
                forall|m: Cells|
                    seen@.contains(m) && #[trigger] complete(shape, m) ==> energy(m) >= limit.units,
            decreases budget - spent, queue@.len(),
        {
            let ghost before = queue@;
            let ghost visited = seen@;
            let current = queue.pop_front().unwrap();
            let ghost behind = queue@;
            assert(current == before[0]);
            assert(buildable(shape, before[0]@));
            assert forall|i: int| 1 <= i < before.len() implies behind[i - 1] == before[i] by {}
            if seen.contains(&current) {
                proof {
                    lemma_followed_step(shape, visited, before, behind);
                    assert(visited.insert(current@) =~= visited);
                    if queued(before, start(shape)) {
                        lemma_queue_shift(before, behind, start(shape));
                    }
                    assert forall|i: int| 0 <= i < behind.len() implies buildable(
                        shape,
                        (#[trigger] behind[i])@,
                    ) by {
                        assert(behind[i] == before[i + 1]);
                    }
                }
            } else {
                if spent == budget {
                    proof {
                        let more = visited.insert(current@);
                        assert(more.finite() && more.len() > budget);
                        assert forall|m: Cells| more.contains(m) implies #[trigger] buildable(
                            shape,
                            m,
                        ) by {}
                        assert(crowded(shape, budget as nat));
                    }
                    return None;
                }
                let moves = self.options(&current);
                proof {
                    assert forall|k: int| 0 <= k < moves@.len() implies offered(
                        shape,
                        current@,
                        #[trigger] moves@[k],
                    ) by {
                        assert(moves@.contains(moves@[k]));
                    }
                }
                self.expand(&current, &moves, &mut queue);
                let ghost after = queue@;
                proof {
                    assert forall|i: int| 1 <= i < before.len() implies after[i - 1] == before[i] by {
                        assert(after[i - 1] == behind[i - 1]);
                    }
                    assert forall|mv: Placement| #[trigger]
                        offered(shape, current@, mv) implies queued(
                        after,
                        placed(current@, mv),
                    ) by {
                        assert(moves@.contains(mv));
                        let k = choose|k: int| 0 <= k < moves@.len() && moves@[k] == mv;
                        assert(after[behind.len() + k]@ == placed(current@, mv));
                    }
                    lemma_followed_step(shape, visited, before, after);
                    if queued(before, start(shape)) {
                        lemma_queue_shift(before, after, start(shape));
                    }
                    assert forall|i: int| 0 <= i < after.len() implies buildable(
                        shape,
                        (#[trigger] after[i])@,
                    ) by {
                        if i < behind.len() {
                            assert(after[i] == before[i + 1]);
                        } else {
                            let k = i - behind.len();
                            assert(after[behind.len() + k]@ == placed(current@, moves@[k]));
                            lemma_buildable_step(shape, current@, moves@[k]);
                        }
                    }
                }
                if current.len() == target {
                    let score = current.score();
                    if score.units < limit.units {
                        return Some(current);
                    }
                }
                seen.insert(current);
                spent += 1;
            }
        }
        proof {
            assert(queue@ =~= Seq::<Peptide>::empty());
            assert(!queued(queue@, start(shape)));
            assert forall|m: Cells| #[trigger] buildable(shape, m) implies seen@.contains(m) by {
                let steps = choose|steps: nat| built_in(shape, m, steps);
                lemma_exhausted(shape, seen@, m, steps);
            }
        }
        None
    }

    /// Searches the chains that can be built after the level for the lowest
    /// and the highest energy of a complete chain: one with as many cells as
    /// the shape. Building starts from the root alone and goes on by the
    /// placements that `options` allows; each chain is visited once, in the
    /// order in which it was first reached. At most `budget` chains are
    /// visited: the search is complete exactly where no more than `budget`
    /// different chains can be built, and otherwise answers with the range
    /// found so far.
    pub fn solve(&self, budget: usize) -> (r: Search)
        ensures
            match r {
                Search::Complete(min, max) => {
                    &&& !crowded(self.shape(), budget as nat)
                    &&& attained(self.shape(), min.units as int)
                    &&& attained(self.shape(), max.units as int)
                    &&& min.units <= max.units
                    &&& forall|m: Cells| #[trigger]
                        buildable(self.shape(), m) && complete(self.shape(), m) ==> min.units
                            <= energy(m) <= max.units
                },
                Search::Unsolvable => {
                    &&& !crowded(self.shape(), budget as nat)
                    &&& forall|m: Cells| #[trigger]
                        buildable(self.shape(), m) ==> !complete(self.shape(), m)
                },
                Search::Partial(min, max) => {
                    &&& attained(self.shape(), min.units as int)
                    &&& attained(self.shape(), max.units as int)
                    &&& min.units <= max.units
                    &&& crowded(self.shape(), budget as nat)
                },
                Search::Aborted => crowded(self.shape(), budget as nat),
            },
    {
        self.recall();
        let ghost shape = self.shape();
        let target = self.peptide().len();
        let mut queue: VecDeque<Peptide> = VecDeque::new();
        let first = Peptide::for_level(self);
        queue.push_back(first);
        let mut seen = Seen::new();
        let mut spent: usize = 0;
        let mut found = false;
        let mut min = Score { units: 0 };
        let mut max = Score { units: 0 };
        proof {
            lemma_buildable_start(shape);
            assert(queue@[0]@ == start(shape));
        }
        while queue.len() > 0
            invariant
                shape == self.shape(),
                target == shape.dom().len(),
                target <= crate::score::MAX_CELLS,
                spent <= budget,
                seen@.finite(),
                seen@.len() == spent,
                forall|m: Cells| seen@.contains(m) ==> #[trigger] buildable(shape, m),
                forall|i: int| 0 <= i < queue@.len() ==> buildable(shape, (#[trigger] queue@[i])@),
                seen@.contains(start(shape)) || queued(queue@, start(shape)),
                followed(shape, seen@, queue@),
                found ==> attained(shape, min.units as int) && attained(shape, max.units as int)
                    && min.units <= max.units,
                found ==> forall|m: Cells|
                    seen@.contains(m) && #[trigger] complete(shape, m) ==> min.units <= energy(m)
                        <= max.units,
                !found ==> forall|m: Cells| seen@.contains(m) ==> !#[trigger] complete(shape, m),
            decreases budget - spent, queue@.len(),
        {
            let ghost before = queue@;
            let ghost visited = seen@;
            let current = queue.pop_front().unwrap();
            let ghost behind = queue@;
            assert(current == before[0]);
            assert(buildable(shape, before[0]@));
            assert forall|i: int| 1 <= i < before.len() implies behind[i - 1] == before[i] by {}
            if seen.contains(&current) {
                proof {
                    lemma_followed_step(shape, visited, before, behind);
                    assert(visited.insert(current@) =~= visited);
                    if queued(before, start(shape)) {
                        lemma_queue_shift(before, behind, start(shape));
                    }
                    assert forall|i: int| 0 <= i < behind.len() implies buildable(
                        shape,
                        (#[trigger] behind[i])@,
                    ) by {
                        assert(behind[i] == before[i + 1]);
                    }
                }
            } else {
                if spent == budget {
                    proof {
                        let more = visited.insert(current@);
                        assert(more.finite() && more.len() > budget);
                        assert forall|m: Cells| more.contains(m) implies #[trigger] buildable(
                            shape,
                            m,
                        ) by {}
                        assert(crowded(shape, budget as nat));
                    }
                    if found {
                        return Search::Partial(min, max);
                    } else {
                        return Search::Aborted;
                    }
                }
                let moves = self.options(&current);
                proof {
                    assert forall|k: int| 0 <= k < moves@.len() implies offered(
                        shape,
                        current@,
                        #[trigger] moves@[k],
                    ) by {
                        assert(moves@.contains(moves@[k]));
                    }
                }
                self.expand(&current, &moves, &mut queue);
                let ghost after = queue@;
                proof {
                    assert forall|i: int| 1 <= i < before.len() implies after[i - 1] == before[i] by {
                        assert(after[i - 1] == behind[i - 1]);
                    }
                    assert forall|mv: Placement| #[trigger]
                        offered(shape, current@, mv) implies queued(
                        after,
                        placed(current@, mv),
                    ) by {
                        assert(moves@.contains(mv));
                        let k = choose|k: int| 0 <= k < moves@.len() && moves@[k] == mv;
                        assert(after[behind.len() + k]@ == placed(current@, mv));
                    }
                    lemma_followed_step(shape, visited, before, after);
                    if queued(before, start(shape)) {
                        lemma_queue_shift(before, after, start(shape));
                    }
                    assert forall|i: int| 0 <= i < after.len() implies buildable(
                        shape,
                        (#[trigger] after[i])@,
                    ) by {
                        if i < behind.len() {
                            assert(after[i] == before[i + 1]);
                        } else {
                            let k = i - behind.len();
                            assert(after[behind.len() + k]@ == placed(current@, moves@[k]));
                            lemma_buildable_step(shape, current@, moves@[k]);
                        }
                    }
                }
                if current.len() == target {
                    let score = current.score();
                    proof {
                        assert(buildable(shape, current@) && complete(shape, current@) && energy(
                            current@,
                        ) == score.units);
                        assert(attained(shape, score.units as int));
                    }
                    if !found {
                        min = score;
                        max = score;
                        found = true;
                    } else {
                        if score.units < min.units {
                            min = score;
                        }
                        if score.units > max.units {
                            max = score;
                        }
                    }
                }
                seen.insert(current);
                spent += 1;
            }
        }
        proof {
            assert(queue@ =~= Seq::<Peptide>::empty());
            assert(!queued(queue@, start(shape)));
            assert forall|m: Cells| #[trigger] buildable(shape, m) implies seen@.contains(m) by {
                let steps = choose|steps: nat| built_in(shape, m, steps);
                lemma_exhausted(shape, seen@, m, steps);
            }
            if crowded(shape, budget as nat) {
                let many = choose|s: Set<Cells>|
                    s.finite() && s.len() > budget && forall|m: Cells|
                        s.contains(m) ==> #[trigger] buildable(shape, m);
                assert(many.subset_of(seen@)) by {
                    assert forall|m: Cells| many.contains(m) implies seen@.contains(m) by {
                        assert(buildable(shape, m));
                    }
                }
                vstd::set_lib::lemma_len_subset(many, seen@);
            }
        }
        if found {
            Search::Complete(min, max)
        } else {
            Search::Unsolvable
        }
    }
}

/// Every chain that can be built after a shape that is a chain is a chain,
/// with the root of the shape at its root.
pub proof fn law_buildable_is_tree(shape: Cells, m: Cells, steps: nat)
    requires
        built_in(shape, m, steps),
    ensures
        is_tree(m),
        m.dom().len() == steps + 1,
        m[origin()].amino == shape[origin()].amino,
    decreases steps,
{
    if steps == 0 {
        lemma_single_is_tree(shape[origin()].amino);
    } else {
        let (prev, mv) = choose|prev: Cells, mv: Placement|
            built_in(shape, prev, (steps - 1) as nat) && #[trigger] offered(shape, prev, mv) && m
                == placed(prev, mv);
        law_buildable_is_tree(shape, prev, (steps - 1) as nat);
        law_grown_is_tree(prev, parent_cell(mv), mv.2, mv.0);
    }
}

} // verus!

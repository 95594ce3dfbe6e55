//! Taking a cell out of a chain together with all that hangs on it.

use std::collections::VecDeque;
use vstd::prelude::*;
use crate::amino::Amino;
use crate::direction::{step, Direction, Directions};
use crate::grow::lemma_single_is_tree;
use crate::peptide::{bonded_from, parent_of, single, Cells, Peptide};
use crate::pos::{origin, Pos};
use crate::tree::{
    bonds_lead_to_cells, connected, depth, depth_within, has_bond, is_tree, lemma_child,
    lemma_parent, lemma_step_back, one_parent, reaches_root, root_free,
};

verus! {

broadcast use crate::direction::group_directions;

/// Whether following parents from `c` passes `p` after at most `fuel` steps;
/// `c` itself counts.
pub open spec fn descends_within(m: Cells, c: (int, int), p: (int, int), fuel: nat) -> bool
    decreases fuel,
{
    c == p || (c != origin() && fuel > 0 && match parent_of(m, c) {
        Some((q, _)) => descends_within(m, q, p, (fuel - 1) as nat),
        None => false,
    })
}

/// Whether `c` is `p` or hangs on `p`: following parents from `c` passes
/// `p`.
pub open spec fn descends(m: Cells, c: (int, int), p: (int, int)) -> bool {
    exists|fuel: nat| descends_within(m, c, p, fuel)
}

/// The occupied cells that are `p` or hang on `p`.
pub open spec fn subtree(m: Cells, p: (int, int)) -> Set<(int, int)> {
    Set::new(|c: (int, int)| m.contains_key(c) && descends(m, c, p))
}

/// The chain `m` without the cell `p` and all that hangs on it, and without
/// the bond that led to `p`. Taking out the root leaves the root alone and
/// without bonds; taking out an empty cell changes nothing.
pub open spec fn pruned(m: Cells, p: (int, int)) -> Cells {
    if !m.contains_key(p) {
        m
    } else if p == origin() {
        single(m[p].amino)
    } else {
        let rest = m.remove_keys(subtree(m, p));
        match parent_of(m, p) {
            Some((q, d)) => rest.insert(
                q,
                Amino { amino: m[q].amino, children: m[q].children.without(d.opposite_spec()) },
            ),
            None => rest,
        }
    }
}

/// Every cell hangs on itself.
pub proof fn lemma_descends_self(m: Cells, c: (int, int))
    ensures
        descends(m, c, c),
{
    assert(descends_within(m, c, c, 0));
}

/// A cell that hangs on another cell than itself has a parent that hangs on
/// that cell.
pub proof fn lemma_descends_up(m: Cells, c: (int, int), p: (int, int))
    requires
        descends(m, c, p),
        c != p,
    ensures
        c != origin(),
        parent_of(m, c).is_some(),
        descends(m, parent_of(m, c).unwrap().0, p),
{
    let fuel = choose|fuel: nat| descends_within(m, c, p, fuel);
    assert(descends_within(m, parent_of(m, c).unwrap().0, p, (fuel - 1) as nat));
}

/// A cell whose parent hangs on `p` hangs on `p`.
pub proof fn lemma_descends_down(m: Cells, c: (int, int), p: (int, int))
    requires
        c != origin(),
        parent_of(m, c).is_some(),
        descends(m, parent_of(m, c).unwrap().0, p),
    ensures
        descends(m, c, p),
{
    let q = parent_of(m, c).unwrap().0;
    let fuel = choose|fuel: nat| descends_within(m, q, p, fuel);
    assert(descends_within(m, c, p, fuel + 1));
}

/// In a chain, a cell that hangs on `p` lies at least as far from the root
/// as `p`, and farther unless it is `p`.
pub proof fn lemma_descends_depth(m: Cells, c: (int, int), p: (int, int), fuel: nat)
    requires
        is_tree(m),
        m.contains_key(c),
        descends_within(m, c, p, fuel),
    ensures
        m.contains_key(p),
        depth(m, c) >= depth(m, p),
        c != p ==> depth(m, c) > depth(m, p),
    decreases fuel,
{
    if c != p {
        lemma_parent(m, c);
        let q = parent_of(m, c).unwrap().0;
        lemma_descends_depth(m, q, p, (fuel - 1) as nat);
    }
}

/// In a chain, a cell that hangs on `p` and is not `p` hangs on one of the
/// children of `p`.
pub proof fn lemma_descends_child(m: Cells, c: (int, int), p: (int, int), fuel: nat)
    requires
        is_tree(m),
        m.contains_key(c),
        descends_within(m, c, p, fuel),
        c != p,
    ensures
        exists|d: Direction| #[trigger] has_bond(m, p, d) && descends(m, c, step(p, d)),
    decreases fuel,
{
    lemma_parent(m, c);
    let (q, e) = parent_of(m, c).unwrap();
    if q == p {
        lemma_descends_self(m, c);
        assert(has_bond(m, p, e.opposite_spec()) && descends(m, c, step(p, e.opposite_spec())));
    } else {
        lemma_descends_child(m, q, p, (fuel - 1) as nat);
        let d = choose|d: Direction| #[trigger] has_bond(m, p, d) && descends(m, q, step(p, d));
        lemma_descends_down(m, c, step(p, d));
        assert(has_bond(m, p, d) && descends(m, c, step(p, d)));
    }
}

/// What hangs on a cell that hangs on `p` hangs on `p`.
pub proof fn lemma_descends_trans(m: Cells, c: (int, int), a: (int, int), p: (int, int), fuel: nat)
    requires
        descends_within(m, c, a, fuel),
        descends(m, a, p),
    ensures
        descends(m, c, p),
    decreases fuel,
{
    if c != a {
        let q = parent_of(m, c).unwrap().0;
        lemma_descends_trans(m, q, a, p, (fuel - 1) as nat);
        lemma_descends_down(m, c, p);
    }
}

/// In what is left of a chain after a cell other than the root was taken
/// out, the cells that are left are the children of the cells they were
/// children of.
proof fn lemma_pruned_bonds(m: Cells, p: (int, int))
    requires
        is_tree(m),
        m.contains_key(p),
        p != origin(),
    ensures
        pruned(m, p).dom() == m.dom().difference(subtree(m, p)),
        pruned(m, p).contains_key(origin()),
        forall|x: (int, int), d: Direction|
            pruned(m, p).contains_key(x) ==> #[trigger] bonded_from(pruned(m, p), x, d)
                == bonded_from(m, x, d),
        forall|x: (int, int), d: Direction| #[trigger]
            bonded_from(pruned(m, p), x, d) ==> bonded_from(m, x, d),
        forall|x: (int, int)|
            pruned(m, p).contains_key(x) ==> #[trigger] parent_of(pruned(m, p), x) == parent_of(m, x),
        forall|x: (int, int), d: Direction| #[trigger]
            has_bond(pruned(m, p), x, d) ==> has_bond(m, x, d) && pruned(m, p).contains_key(
                step(x, d),
            ),
{
    let r = pruned(m, p);
    let gone = subtree(m, p);
    lemma_parent(m, p);
    let (q, e) = parent_of(m, p).unwrap();
    let toward = e.opposite_spec();
    assert(!gone.contains(q)) by {
        if descends(m, q, p) {
            let fuel = choose|fuel: nat| descends_within(m, q, p, fuel);
            lemma_descends_depth(m, q, p, fuel);
        }
    }
    assert(!gone.contains(origin())) by {
        if descends(m, origin(), p) {
            let fuel = choose|fuel: nat| descends_within(m, origin(), p, fuel);
            assert(descends_within(m, origin(), p, fuel));
        }
    }
    assert(r.dom() =~= m.dom().difference(gone));
    assert forall|x: (int, int)| r.contains_key(x) && x != q implies r[x] == m[x] by {}
    assert(r[q].amino == m[q].amino && r[q].children == m[q].children.without(toward));
    // a child of a cell that is taken out is taken out
    assert forall|x: (int, int), d: Direction| #[trigger]
        has_bond(m, x, d) && gone.contains(x) implies gone.contains(step(x, d)) by {
        lemma_child(m, x, d);
        lemma_descends_down(m, step(x, d), p);
    }
    // a cell that is taken out and is not `p` has its parent taken out
    assert forall|x: (int, int), d: Direction| #[trigger]
        has_bond(m, x, d) && gone.contains(step(x, d)) && step(x, d) != p implies gone.contains(
        x,
    ) by {
        lemma_child(m, x, d);
        lemma_descends_up(m, step(x, d), p);
    }
    assert forall|x: (int, int), d: Direction| #[trigger] has_bond(r, x, d) implies has_bond(
        m,
        x,
        d,
    ) && r.contains_key(step(x, d)) by {
        assert(has_bond(m, x, d));
        lemma_child(m, x, d);
        if gone.contains(step(x, d)) {
            if step(x, d) == p {
                assert(x == q && d == toward);
            }
        }
    }
    assert forall|x: (int, int), d: Direction| #[trigger]
        bonded_from(r, x, d) implies bonded_from(m, x, d) by {}
    assert forall|x: (int, int), d: Direction| r.contains_key(x) implies #[trigger] bonded_from(
        r,
        x,
        d,
    ) == bonded_from(m, x, d) by {
        if bonded_from(m, x, d) {
            let h = step(x, d);
            lemma_step_back(x, d);
            assert(has_bond(m, h, d.opposite_spec()));
            assert(!gone.contains(h));
            if h == q && d.opposite_spec() == toward {
                assert(x == p);
                lemma_descends_self(m, p);
            }
        }
    }
    assert forall|x: (int, int)| r.contains_key(x) implies #[trigger] parent_of(r, x) == parent_of(
        m,
        x,
    ) by {
        assert(bonded_from(r, x, Direction::Up) == bonded_from(m, x, Direction::Up));
        assert(bonded_from(r, x, Direction::Right) == bonded_from(m, x, Direction::Right));
        assert(bonded_from(r, x, Direction::Down) == bonded_from(m, x, Direction::Down));
        assert(bonded_from(r, x, Direction::Left) == bonded_from(m, x, Direction::Left));
    }
}

/// In what is left of a chain after a cell was taken out, each cell that is
/// left lies as far from the root as before.
proof fn lemma_pruned_depth(m: Cells, p: (int, int), x: (int, int), fuel: nat)
    requires
        is_tree(m),
        m.contains_key(p),
        p != origin(),
        pruned(m, p).contains_key(x),
        depth_within(m, x, fuel).is_some(),
    ensures
        depth_within(pruned(m, p), x, fuel) == depth_within(m, x, fuel),
    decreases fuel,
{
    lemma_pruned_bonds(m, p);
    if x != origin() {
        let q = parent_of(m, x).unwrap().0;
        assert(pruned(m, p).contains_key(q)) by {
            if subtree(m, p).contains(q) {
                lemma_descends_down(m, x, p);
            }
        }
        lemma_pruned_depth(m, p, q, (fuel - 1) as nat);
    }
}

/// What is left of a chain after a cell was taken out with all that hangs on
/// it is a chain.
pub proof fn law_pruned_is_tree(m: Cells, p: (int, int))
    requires
        is_tree(m),
    ensures
        is_tree(pruned(m, p)),
{
    if !m.contains_key(p) {
    } else if p == origin() {
        lemma_single_is_tree(m[p].amino);
    } else {
        let r = pruned(m, p);
        lemma_pruned_bonds(m, p);
        assert(bonds_lead_to_cells(r));
        assert(one_parent(r)) by {
            assert forall|x: (int, int), d: Direction, e: Direction| #[trigger]
                bonded_from(r, x, d) && #[trigger] bonded_from(r, x, e) implies d == e by {
                assert(bonded_from(m, x, d) && bonded_from(m, x, e));
            }
        }
        assert(root_free(r)) by {
            assert forall|d: Direction| !#[trigger] bonded_from(r, origin(), d) by {
                assert(!bonded_from(m, origin(), d));
            }
        }
        assert(connected(r)) by {
            assert forall|x: (int, int)| r.contains_key(x) implies #[trigger] reaches_root(r, x) by {
                assert(reaches_root(m, x));
                let fuel = choose|fuel: nat| (#[trigger] depth_within(m, x, fuel)).is_some();
                lemma_pruned_depth(m, p, x, fuel);
                assert(depth_within(r, x, fuel).is_some());
            }
        }
    }
}

/// Whether one of the bonds `children` of the cell `from` leads to `to`.
spec fn leads_to(children: Directions, from: (int, int), to: (int, int)) -> bool {
    exists|d: Direction| #[trigger] children.has(d) && to == step(from, d)
}

/// Whether the cell `c` will be reached through a position that waits in
/// the queue and has not been taken out.
spec fn waits(m: Cells, queue: Seq<Pos>, gone: Set<(int, int)>, c: (int, int)) -> bool {
    exists|i: int|
        0 <= i < queue.len() && descends(m, c, (#[trigger] queue[i])@) && !gone.contains(queue[i]@)
}

/// Every position in the queue is that of a cell of `m` that hangs on `p`
/// and is `p` or has its parent taken out.
spec fn queue_hangs(m: Cells, p: (int, int), gone: Set<(int, int)>, queue: Seq<Pos>) -> bool {
    forall|i: int|
        0 <= i < queue.len() ==> {
            &&& m.contains_key((#[trigger] queue[i])@)
            &&& descends(m, queue[i]@, p)
            &&& (queue[i]@ == p || gone.contains(parent_of(m, queue[i]@).unwrap().0))
        }
}

/// Every cell taken out is a cell of `m` that hangs on `p` and is `p` or has
/// its parent taken out.
spec fn gone_hangs(m: Cells, p: (int, int), gone: Set<(int, int)>) -> bool {
    forall|c: (int, int)| #[trigger]
        gone.contains(c) ==> {
            &&& m.contains_key(c)
            &&& descends(m, c, p)
            &&& (c == p || gone.contains(parent_of(m, c).unwrap().0))
        }
}

/// Every cell of `m` that hangs on `p` is taken out or will be reached.
spec fn all_wait(m: Cells, p: (int, int), gone: Set<(int, int)>, queue: Seq<Pos>) -> bool {
    forall|c: (int, int)|
        m.contains_key(c) && #[trigger] descends(m, c, p) ==> gone.contains(c) || waits(
            m,
            queue,
            gone,
            c,
        )
}

/// What holds while the cells that hang on `p` are being taken out of the
/// chain `m`: `gone` are the cells already taken out and `queue` the
/// positions still to visit.
spec fn sweeping(m: Cells, p: (int, int), gone: Set<(int, int)>, queue: Seq<Pos>) -> bool {
    &&& queue_hangs(m, p, gone, queue)
    &&& gone_hangs(m, p, gone)
    &&& all_wait(m, p, gone, queue)
}

/// Dropping from the queue a position that was taken out already keeps
/// `sweeping`.
proof fn lemma_sweep_skip(m: Cells, p: (int, int), gone: Set<(int, int)>, queue: Seq<Pos>)
    requires
        sweeping(m, p, gone, queue),
        queue.len() > 0,
        gone.contains(queue[0]@),
    ensures
        sweeping(m, p, gone, queue.subrange(1, queue.len() as int)),
{
    let tail = queue.subrange(1, queue.len() as int);
    assert(queue_hangs(m, p, gone, tail)) by {
        assert forall|i: int| 0 <= i < tail.len() implies {
            &&& m.contains_key((#[trigger] tail[i])@)
            &&& descends(m, tail[i]@, p)
            &&& (tail[i]@ == p || gone.contains(parent_of(m, tail[i]@).unwrap().0))
        } by {
            assert(tail[i] == queue[i + 1]);
        }
    }
    assert(all_wait(m, p, gone, tail)) by {
        assert forall|c: (int, int)|
            m.contains_key(c) && #[trigger] descends(m, c, p) implies gone.contains(c) || waits(
            m,
            tail,
            gone,
            c,
        ) by {
            if !gone.contains(c) {
                let i = choose|i: int|
                    0 <= i < queue.len() && descends(m, c, (#[trigger] queue[i])@)
                        && !gone.contains(queue[i]@);
                assert(tail[i - 1] == queue[i]);
            }
        }
    }
}

/// A child of the cell at the head of the queue, appended to the queue, is a
/// cell that hangs on `p` and has its parent, the head, taken out.
proof fn lemma_sweep_child(m: Cells, p: (int, int), head: (int, int), child: (int, int))
    requires
        is_tree(m),
        m.contains_key(head),
        descends(m, head, p),
        leads_to(m[head].children, head, child),
    ensures
        m.contains_key(child),
        descends(m, child, p),
        child != p,
        parent_of(m, child).unwrap().0 == head,
{
    let d = choose|d: Direction| #[trigger] m[head].children.has(d) && child == step(head, d);
    assert(has_bond(m, head, d));
    lemma_child(m, head, d);
    lemma_descends_down(m, child, p);
    if child == p {
        let f = choose|f: nat| descends_within(m, head, p, f);
        lemma_descends_depth(m, head, p, f);
    }
}

/// A cell that hangs on the head of the queue and is not the head hangs on
/// a child of the head that has not been taken out.
proof fn lemma_sweep_below(
    m: Cells,
    p: (int, int),
    gone: Set<(int, int)>,
    head: (int, int),
    c: (int, int),
) -> (d: Direction)
    requires
        is_tree(m),
        gone_hangs(m, p, gone),
        m.contains_key(head),
        descends(m, head, p),
        !gone.contains(head),
        m.contains_key(c),
        descends(m, c, head),
        c != head,
    ensures
        has_bond(m, head, d),
        descends(m, c, step(head, d)),
        !gone.contains(step(head, d)),
        step(head, d) != head,
{
    let fuel = choose|fuel: nat| descends_within(m, c, head, fuel);
    lemma_descends_child(m, c, head, fuel);
    let d = choose|d: Direction| #[trigger] has_bond(m, head, d) && descends(m, c, step(head, d));
    let child = step(head, d);
    lemma_child(m, head, d);
    lemma_step_back(head, d);
    assert(leads_to(m[head].children, head, child));
    lemma_sweep_child(m, p, head, child);
    d
}

/// Taking out the cell at the head of the queue and appending its children
/// keeps every position in the queue one of a cell that hangs on `p`.
proof fn lemma_sweep_queue(
    m: Cells,
    p: (int, int),
    gone: Set<(int, int)>,
    queue: Seq<Pos>,
    after: Seq<Pos>,
)
    requires
        is_tree(m),
        queue_hangs(m, p, gone, queue),
        queue.len() > 0,
        after.len() >= queue.len() - 1,
        forall|i: int| 1 <= i < queue.len() ==> after[i - 1] == queue[i],
        forall|i: int|
            queue.len() - 1 <= i < after.len() ==> leads_to(
                m[queue[0]@].children,
                queue[0]@,
                (#[trigger] after[i])@,
            ),
    ensures
        queue_hangs(m, p, gone.insert(queue[0]@), after),
{
    let head = queue[0]@;
    let more = gone.insert(head);
    assert(m.contains_key(head) && descends(m, head, p));
    assert forall|i: int| 0 <= i < after.len() implies {
        &&& m.contains_key((#[trigger] after[i])@)
        &&& descends(m, after[i]@, p)
        &&& (after[i]@ == p || more.contains(parent_of(m, after[i]@).unwrap().0))
    } by {
        if i < queue.len() - 1 {
            assert(after[i] == queue[i + 1]);
        } else {
            lemma_sweep_child(m, p, head, after[i]@);
        }
    }
}

/// Where the head of the queue is taken out and its children are appended,
/// a cell that waited still waits unless it is the head.
proof fn lemma_sweep_wait(
    m: Cells,
    p: (int, int),
    gone: Set<(int, int)>,
    queue: Seq<Pos>,
    after: Seq<Pos>,
    c: (int, int),
)
    requires
        is_tree(m),
        gone_hangs(m, p, gone),
        queue.len() > 0,
        m.contains_key(queue[0]@),
        descends(m, queue[0]@, p),
        !gone.contains(queue[0]@),
        after.len() >= queue.len() - 1,
        forall|i: int| 1 <= i < queue.len() ==> after[i - 1] == queue[i],
        forall|d: Direction| #[trigger]
            has_bond(m, queue[0]@, d) ==> exists|i: int|
                0 <= i < after.len() && (#[trigger] after[i])@ == step(queue[0]@, d),
        m.contains_key(c),
        c != queue[0]@,
        waits(m, queue, gone, c),
    ensures
        waits(m, after, gone.insert(queue[0]@), c),
{
    let head = queue[0]@;
    let more = gone.insert(head);
    let i = choose|i: int|
        0 <= i < queue.len() && descends(m, c, (#[trigger] queue[i])@) && !gone.contains(queue[i]@);
    if queue[i]@ == head {
        let d = lemma_sweep_below(m, p, gone, head, c);
        let k = choose|k: int| 0 <= k < after.len() && (#[trigger] after[k])@ == step(head, d);
        assert(descends(m, c, after[k]@) && !more.contains(after[k]@));
    } else {
        assert(after[i - 1] == queue[i]);
        assert(descends(m, c, after[i - 1]@) && !more.contains(after[i - 1]@));
    }
}

/// Taking out the cell at the head of the queue and appending its children
/// to the queue keeps `sweeping`.
proof fn lemma_sweep_step(
    m: Cells,
    p: (int, int),
    gone: Set<(int, int)>,
    queue: Seq<Pos>,
    after: Seq<Pos>,
)
    requires
        is_tree(m),
        sweeping(m, p, gone, queue),
        queue.len() > 0,
        !gone.contains(queue[0]@),
        after.len() >= queue.len() - 1,
        forall|i: int| 1 <= i < queue.len() ==> after[i - 1] == queue[i],
        forall|i: int|
            queue.len() - 1 <= i < after.len() ==> leads_to(
                m[queue[0]@].children,
                queue[0]@,
                (#[trigger] after[i])@,
            ),
        forall|d: Direction| #[trigger]
            has_bond(m, queue[0]@, d) ==> exists|i: int|
                0 <= i < after.len() && (#[trigger] after[i])@ == step(queue[0]@, d),
    ensures
        sweeping(m, p, gone.insert(queue[0]@), after),
{
    let head = queue[0]@;
    let more = gone.insert(head);
    assert(m.contains_key(head) && descends(m, head, p) && (head == p || gone.contains(
        parent_of(m, head).unwrap().0,
    )));
    lemma_sweep_queue(m, p, gone, queue, after);
    assert(gone_hangs(m, p, more));
    assert(all_wait(m, p, more, after)) by {
        assert forall|c: (int, int)|
            m.contains_key(c) && #[trigger] descends(m, c, p) implies more.contains(c) || waits(
            m,
            after,
            more,
            c,
        ) by {
            if !more.contains(c) {
                lemma_sweep_wait(m, p, gone, queue, after, c);
            }
        }
    }
}

impl Peptide {
    /// Appends to the queue the positions of the children of the cell `pos`,
    /// which holds `amino`.
    fn enqueue_children(&self, pos: Pos, amino: Amino, queue: &mut VecDeque<Pos>)
        requires
            self@.contains_key(pos@),
            self@[pos@].children == amino.children,
            forall|d: Direction| #[trigger]
                amino.children.has(d) ==> crate::pos::representable(step(pos@, d)),
        ensures
            final(queue)@.len() >= old(queue)@.len(),
            final(queue)@.len() <= old(queue)@.len() + 4,
            forall|i: int| 0 <= i < old(queue)@.len() ==> final(queue)@[i] == old(queue)@[i],
            forall|i: int|
                old(queue)@.len() <= i < final(queue)@.len() ==> leads_to(
                    amino.children,
                    pos@,
                    (#[trigger] final(queue)@[i])@,
                ),
            forall|d: Direction| #[trigger]
                amino.children.has(d) ==> exists|i: int|
                    0 <= i < final(queue)@.len() && (#[trigger] final(queue)@[i])@ == step(pos@, d),
    {
        let dirs = Direction::all();
        let mut j: usize = 0;
        while j < 4
            invariant
                j <= 4,
                dirs@ == Direction::order(),
                forall|d: Direction| #[trigger]
                    amino.children.has(d) ==> crate::pos::representable(step(pos@, d)),
                queue@.len() >= old(queue)@.len(),
                queue@.len() <= old(queue)@.len() + j,
                forall|i: int| 0 <= i < old(queue)@.len() ==> queue@[i] == old(queue)@[i],
                forall|i: int|
                    old(queue)@.len() <= i < queue@.len() ==> leads_to(
                        amino.children,
                        pos@,
                        (#[trigger] queue@[i])@,
                    ),
                forall|d: Direction| #[trigger]
                    amino.children.has(d) && d.rank() < j ==> exists|i: int|
                        0 <= i < queue@.len() && (#[trigger] queue@[i])@ == step(pos@, d),
            decreases 4 - j,
        {
            let d = dirs[j];
            assert(d.rank() == j);
            let ghost before = queue@;
            if amino.children.contains(d) {
                match pos.neighbor(d) {
                    Some(child) => {
                        queue.push_back(child);
                        proof {
                            assert(queue@[before.len() as int]@ == step(pos@, d));
                            assert forall|i: int|
                                old(queue)@.len() <= i < queue@.len() implies leads_to(
                                amino.children,
                                pos@,
                                (#[trigger] queue@[i])@,
                            ) by {
                                if i < before.len() {
                                    assert(queue@[i] == before[i]);
                                } else {
                                    assert(amino.children.has(d) && queue@[i]@ == step(pos@, d));
                                }
                            }
                        }
                    },
                    None => {
                        assert(false);
                    },
                }
            }
            proof {
                assert forall|e: Direction| #[trigger]
                    amino.children.has(e) && e.rank() < j + 1 implies exists|i: int|
                    0 <= i < queue@.len() && (#[trigger] queue@[i])@ == step(pos@, e) by {
                    if e == d {
                        assert(queue@[before.len() as int]@ == step(pos@, e));
                    } else {
                        assert(e.rank() < j);
                        let i = choose|i: int|
                            0 <= i < before.len() && (#[trigger] before[i])@ == step(pos@, e);
                        assert(queue@[i]@ == step(pos@, e));
                    }
                }
            }
            j += 1;
        }
        proof {
            assert forall|d: Direction| #[trigger] amino.children.has(d) implies exists|i: int|
                0 <= i < queue@.len() && (#[trigger] queue@[i])@ == step(pos@, d) by {
                assert(d.rank() < 4);
            }
        }
    }

    /// Takes the cell `pos` out of the chain, with every cell that hangs on
    /// it, and takes from its parent the bond that led to it. Taking out the
    /// root leaves the root, alone and without bonds.
    pub fn remove(&mut self, pos: Pos)
        requires
            is_tree(old(self)@),
        ensures
            final(self)@ == pruned(old(self)@, pos@),
            is_tree(final(self)@),
    {
        let ghost m = self@;
        self.recall();
        proof {
            law_pruned_is_tree(m, pos@);
        }
        let here = match self.get(pos) {
            Some(here) => here,
            None => {
                return ;
            },
        };
        if pos == Pos::zeros() {
            let mut fresh = Peptide::root(here.amino);
            core::mem::swap(self, &mut fresh);
            return ;
        }
        proof {
            lemma_parent(m, pos@);
        }
        match self.parent(pos) {
            Some((parent, dir)) => {
                self.unbond(parent, dir.opposite());
            },
            None => {},
        }
        let ghost trimmed = self@;
        let ghost (holder, way) = parent_of(m, pos@).unwrap();
        let mut queue: VecDeque<Pos> = VecDeque::new();
        queue.push_back(pos);
        let ghost mut gone: Set<(int, int)> = Set::empty();
        proof {
            lemma_descends_self(m, pos@);
            assert(queue@[0]@ == pos@);
            assert(sweeping(m, pos@, gone, queue@)) by {
                assert forall|c: (int, int)|
                    m.contains_key(c) && #[trigger] descends(m, c, pos@) implies gone.contains(c)
                    || waits(m, queue@, gone, c) by {
                    assert(descends(m, c, queue@[0]@) && !gone.contains(queue@[0]@));
                }
            }
            assert(self@ =~= trimmed.remove_keys(gone));
            assert(!descends(m, holder, pos@)) by {
                if descends(m, holder, pos@) {
                    let f = choose|f: nat| descends_within(m, holder, pos@, f);
                    lemma_descends_depth(m, holder, pos@, f);
                }
            }
        }
        let mut left = self.len();
        while queue.len() > 0
            invariant
                is_tree(m),
                m.contains_key(pos@),
                pos@ != origin(),
                forall|k: (int, int)| m.contains_key(k) ==> crate::pos::representable(k),
                parent_of(m, pos@) == Some((holder, way)),
                !descends(m, holder, pos@),
                trimmed == m.insert(
                    holder,
                    Amino {
                        amino: m[holder].amino,
                        children: m[holder].children.without(way.opposite_spec()),
                    },
                ),
                sweeping(m, pos@, gone, queue@),
                self@ == trimmed.remove_keys(gone),
                self@.dom().finite(),
                left == self@.dom().len(),
            decreases 5 * left + queue@.len(),
        {
            let ghost before = queue@;
            let cur = queue.pop_front().unwrap();
            assert(cur == before[0]);
            assert(m.contains_key(cur@) && descends(m, cur@, pos@));
            match self.get(cur) {
                Some(next) => {
                    assert(!gone.contains(cur@));
                    assert(next == m[cur@]);
                    proof {
                        assert forall|d: Direction| #[trigger]
                            next.children.has(d) implies crate::pos::representable(
                            step(cur@, d),
                        ) by {
                            assert(has_bond(m, cur@, d));
                        }
                    }
                    let ghost behind = queue@;
                    self.enqueue_children(cur, next, &mut queue);
                    let ghost now = self@;
                    self.take(cur);
                    left = left - 1;
                    proof {
                        assert forall|i: int| 1 <= i < before.len() implies queue@[i - 1] == before[i] by {
                            assert(queue@[i - 1] == behind[i - 1]);
                        }
                        assert forall|i: int| before.len() - 1 <= i < queue@.len() implies leads_to(
                            m[before[0]@].children,
                            before[0]@,
                            (#[trigger] queue@[i])@,
                        ) by {}
                        assert forall|d: Direction| #[trigger]
                            has_bond(m, before[0]@, d) implies exists|i: int|
                            0 <= i < queue@.len() && (#[trigger] queue@[i])@ == step(before[0]@, d) by {
                            assert(next.children.has(d));
                        }
                        lemma_sweep_step(m, pos@, gone, before, queue@);
                        gone = gone.insert(cur@);
                        assert(self@ =~= trimmed.remove_keys(gone));
                    }
                },
                None => {
                    proof {
                        assert(gone.contains(cur@));
                        lemma_sweep_skip(m, pos@, gone, before);
                    }
                },
            }
        }
        proof {
            assert(gone =~= subtree(m, pos@)) by {
                assert forall|c: (int, int)| gone.contains(c) == subtree(m, pos@).contains(c) by {
                    if subtree(m, pos@).contains(c) {
                        assert(!waits(m, queue@, gone, c));
                    }
                }
            }
            assert(self@ =~= pruned(m, pos@));
        }
    }
}

} // verus!

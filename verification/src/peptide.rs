//! The chain itself: amino acids on lattice cells, kept in a hash map under
//! their positions.

use std::collections::HashMap;
use vstd::prelude::*;
use vstd::std_specs::iter::IteratorSpec;
use crate::amino::{Amino, AminoType};
use crate::direction::{step, Direction, Directions};
use crate::pos::{origin, representable, Pos};
use crate::tree::ShapeError;

verus! {

broadcast use {crate::direction::group_directions, vstd::std_specs::hash::group_hash_axioms};

/// What a chain is to its contracts: the occupied cells and their occupants.
pub type Cells = Map<(int, int), Amino>;

/// A chain of amino acids on the lattice: the occupied cells, each under
/// its position packed into one number.
pub struct Peptide {
    inner: HashMap<u64, Amino>,
}

/// The number under which the cell at `p` is kept: the two coordinates,
/// each moved into the range of 32 bits, side by side.
pub open spec fn pack(p: (int, int)) -> int {
    (p.0 + 0x8000_0000) * 0x1_0000_0000 + (p.1 + 0x8000_0000)
}

/// The point that is kept under the number `k`.
pub open spec fn unpack(k: int) -> (int, int) {
    (k / 0x1_0000_0000 - 0x8000_0000, k % 0x1_0000_0000 - 0x8000_0000)
}

/// The mapping from positions to occupants that the packed cells `m`
/// describe.
pub open spec fn unpacked(m: Map<u64, Amino>) -> Cells {
    Map::new(
        |p: (int, int)| representable(p) && m.contains_key(pack(p) as u64),
        |p: (int, int)| m[pack(p) as u64],
    )
}

/// Packing is one to one between the points a `Pos` can hold and the
/// numbers a `u64` can hold.
pub proof fn lemma_pack(p: (int, int), k: u64)
    ensures
        representable(p) ==> 0 <= pack(p) <= u64::MAX && unpack(pack(p)) == p,
        representable(unpack(k as int)),
        pack(unpack(k as int)) == k,
{
}

/// Putting a cell under its packed position inserts it.
pub proof fn lemma_unpacked_insert(m: Map<u64, Amino>, p: (int, int), a: Amino)
    requires
        representable(p),
    ensures
        unpacked(m.insert(pack(p) as u64, a)) == unpacked(m).insert(p, a),
{
    lemma_pack(p, 0);
    assert forall|q: (int, int)| representable(q) && q != p implies pack(q) as u64 != pack(
        p,
    ) as u64 by {
        lemma_pack(q, 0);
    }
    assert(unpacked(m.insert(pack(p) as u64, a)) =~= unpacked(m).insert(p, a));
}

/// Taking out what is kept under a packed position empties the cell.
pub proof fn lemma_unpacked_remove(m: Map<u64, Amino>, p: (int, int))
    requires
        representable(p),
    ensures
        unpacked(m.remove(pack(p) as u64)) == unpacked(m).remove(p),
{
    lemma_pack(p, 0);
    assert forall|q: (int, int)| representable(q) && q != p implies pack(q) as u64 != pack(
        p,
    ) as u64 by {
        lemma_pack(q, 0);
    }
    assert(unpacked(m.remove(pack(p) as u64)) =~= unpacked(m).remove(p));
}

/// Finitely many packed cells describe as many cells.
pub proof fn lemma_unpacked_len(m: Map<u64, Amino>)
    requires
        m.dom().finite(),
    ensures
        unpacked(m).dom().finite(),
        unpacked(m).dom().len() == m.dom().len(),
    decreases m.dom().len(),
{
    if m.dom().len() == 0 {
        assert(m.dom() =~= Set::empty());
        assert(unpacked(m).dom() =~= Set::empty());
    } else {
        let k = m.dom().choose();
        let p = unpack(k as int);
        lemma_pack(p, k);
        let rest = m.remove(k);
        lemma_unpacked_len(rest);
        lemma_unpacked_remove(m, p);
        assert(unpacked(m).dom() =~= unpacked(rest).dom().insert(p));
        assert(!unpacked(rest).dom().contains(p));
    }
}

/// No position occurs twice in `s`.
pub open spec fn keys_distinct(s: Seq<(Pos, Amino)>) -> bool {
    forall|i: int, j: int| 0 <= i < j < s.len() ==> s[i].0 != s[j].0
}

/// Whether some entry of `s` stands at `k`.
pub open spec fn stored(s: Seq<(Pos, Amino)>, k: (int, int)) -> bool {
    exists|i: int| 0 <= i < s.len() && (#[trigger] s[i]).0@ == k
}

/// The mapping from positions to occupants that the entries of `s` describe.
pub open spec fn cells_of(s: Seq<(Pos, Amino)>) -> Cells {
    Map::new(
        |k: (int, int)| stored(s, k),
        |k: (int, int)| s[choose|i: int| 0 <= i < s.len() && (#[trigger] s[i]).0@ == k].1,
    )
}

/// Each entry of a list without repeated positions is found in its mapping.
pub proof fn lemma_cells_entry(s: Seq<(Pos, Amino)>, i: int)
    requires
        keys_distinct(s),
        0 <= i < s.len(),
    ensures
        cells_of(s).contains_key(s[i].0@),
        cells_of(s)[s[i].0@] == s[i].1,
{
    let k = s[i].0@;
    assert(stored(s, k));
    let j = choose|j: int| 0 <= j < s.len() && (#[trigger] s[j]).0@ == k;
    if j != i {
        assert(s[j].0 == s[i].0);
    }
}

/// Appending an entry at a position not yet stored inserts it.
pub proof fn lemma_cells_push(s: Seq<(Pos, Amino)>, p: Pos, a: Amino)
    requires
        keys_distinct(s),
        !stored(s, p@),
    ensures
        keys_distinct(s.push((p, a))),
        cells_of(s.push((p, a))) == cells_of(s).insert(p@, a),
{
    let t = s.push((p, a));
    assert forall|i: int, j: int| 0 <= i < j < t.len() implies t[i].0 != t[j].0 by {
        if j == s.len() {
            assert(s[i].0@ != p@);
        }
    }
    assert forall|k: (int, int)| stored(t, k) == (k == p@ || stored(s, k)) by {
        if stored(s, k) {
            let i = choose|i: int| 0 <= i < s.len() && (#[trigger] s[i]).0@ == k;
            assert(t[i].0@ == k);
        }
        if k == p@ {
            assert(t[s.len() as int].0@ == k);
        }
        if stored(t, k) {
            let i = choose|i: int| 0 <= i < t.len() && (#[trigger] t[i]).0@ == k;
            if i < s.len() {
                assert(s[i].0@ == k);
            }
        }
    }
    assert forall|k: (int, int)| stored(t, k) implies #[trigger] cells_of(t)[k] == cells_of(
        s,
    ).insert(p@, a)[k] by {
        let i = choose|i: int| 0 <= i < t.len() && (#[trigger] t[i]).0@ == k;
        lemma_cells_entry(t, i);
        if i < s.len() {
            lemma_cells_entry(s, i);
        }
    }
    assert(cells_of(t) =~= cells_of(s).insert(p@, a));
}

/// A list without repeated positions describes as many cells as it has
/// entries.
pub proof fn lemma_cells_len(s: Seq<(Pos, Amino)>)
    requires
        keys_distinct(s),
    ensures
        cells_of(s).dom().finite(),
        cells_of(s).dom().len() == s.len(),
    decreases s.len(),
{
    if s.len() == 0 {
        assert(cells_of(s).dom() =~= Set::empty());
    } else {
        let last = s.last();
        let front = s.drop_last();
        assert(keys_distinct(front));
        lemma_cells_len(front);
        assert(!stored(front, last.0@)) by {
            if stored(front, last.0@) {
                let i = choose|i: int| 0 <= i < front.len() && (#[trigger] front[i]).0@ == last.0@;
                assert(s[i].0 == s[s.len() - 1].0);
            }
        }
        lemma_cells_push(front, last.0, last.1);
        assert(front.push((last.0, last.1)) =~= s);
        assert(cells_of(s).dom() =~= cells_of(front).dom().insert(last.0@));
    }
}

/// Whether the neighbour of `p` in direction `d` is occupied and holds `p`
/// as one of its children.
pub open spec fn bonded_from(m: Cells, p: (int, int), d: Direction) -> bool {
    m.contains_key(step(p, d)) && m[step(p, d)].children.has(d.opposite_spec())
}

/// The first neighbour of `p`, in enumeration order, that holds `p` as a
/// child, with the direction from `p` to it.
pub open spec fn parent_of(m: Cells, p: (int, int)) -> Option<((int, int), Direction)> {
    if bonded_from(m, p, Direction::Up) {
        Some((step(p, Direction::Up), Direction::Up))
    } else if bonded_from(m, p, Direction::Right) {
        Some((step(p, Direction::Right), Direction::Right))
    } else if bonded_from(m, p, Direction::Down) {
        Some((step(p, Direction::Down), Direction::Down))
    } else if bonded_from(m, p, Direction::Left) {
        Some((step(p, Direction::Left), Direction::Left))
    } else {
        None
    }
}

/// Whether `p` is occupied and bonded to an occupied child of kind `t` in
/// direction `d`.
pub open spec fn has_child(m: Cells, p: (int, int), d: Direction, t: AminoType) -> bool {
    &&& m.contains_key(p)
    &&& m[p].children.has(d)
    &&& m.contains_key(step(p, d))
    &&& m[step(p, d)].amino == t
}

/// The number of children of kind `t` that the cell at `p` is bonded to.
pub open spec fn child_count(m: Cells, p: (int, int), t: AminoType) -> nat {
    let up: nat = if has_child(m, p, Direction::Up, t) { 1 } else { 0 };
    let right: nat = if has_child(m, p, Direction::Right, t) { 1 } else { 0 };
    let down: nat = if has_child(m, p, Direction::Down, t) { 1 } else { 0 };
    let left: nat = if has_child(m, p, Direction::Left, t) { 1 } else { 0 };
    up + right + down + left
}

/// The chain of one unit of kind `a` at the root, without children.
pub open spec fn single(a: AminoType) -> Cells {
    Map::<(int, int), Amino>::empty().insert(
        origin(),
        Amino { amino: a, children: Directions::none() },
    )
}

/// The chain `m` with the bond `d` flagged on the cell at `p`, if `p` is
/// occupied.
pub open spec fn bonded(m: Cells, p: (int, int), d: Direction) -> Cells {
    if m.contains_key(p) {
        m.insert(p, Amino { amino: m[p].amino, children: m[p].children.with(d) })
    } else {
        m
    }
}

/// The chain `m` with a new unit of kind `t`, without children, as the child
/// of the cell at `p` in direction `d`.
pub open spec fn grown(m: Cells, p: (int, int), d: Direction, t: AminoType) -> Cells {
    bonded(m, p, d).insert(step(p, d), Amino { amino: t, children: Directions::none() })
}

/// Whether a new unit can be attached to the cell at `p` in direction `d`:
/// `p` is occupied and the cell beyond is a free cell of the lattice.
pub open spec fn can_grow(m: Cells, p: (int, int), d: Direction) -> bool {
    m.contains_key(p) && representable(step(p, d)) && !m.contains_key(step(p, d))
}

impl View for Peptide {
    type V = Cells;

    closed spec fn view(&self) -> Cells {
        unpacked(self.inner@)
    }
}

impl Clone for Peptide {
    /// A chain of its own with the same cells.
    fn clone(&self) -> (r: Peptide)
        ensures
            r@ == self@,
    {
        Peptide { inner: self.inner.clone() }
    }
}

/// The number under which the cell `pos` is kept.
fn key(pos: Pos) -> (k: u64)
    ensures
        k == pack(pos@),
{
    let x: u64 = (pos.x as i64 + 0x8000_0000) as u64;
    let y: u64 = (pos.y as i64 + 0x8000_0000) as u64;
    x * 0x1_0000_0000 + y
}

/// The cell that is kept under the number `k`.
fn unkey(k: u64) -> (pos: Pos)
    ensures
        pos@ == unpack(k as int),
        pack(pos@) == k,
{
    let x: i64 = (k / 0x1_0000_0000) as i64 - 0x8000_0000;
    let y: i64 = (k % 0x1_0000_0000) as i64 - 0x8000_0000;
    Pos { x: x as i32, y: y as i32 }
}

impl Peptide {
    /// Has no effect when run. To the caller's proof it brings what holds of
    /// every chain: its cells are finitely many and all lie on the lattice.
    pub fn recall(&self)
        ensures
            self@.dom().finite(),
            forall|k: (int, int)| self@.contains_key(k) ==> representable(k),
    {
        proof {
            lemma_unpacked_len(self.inner@);
        }
    }

    /// The chain without any cell.
    pub fn new() -> (r: Peptide)
        ensures
            r@ == Map::<(int, int), Amino>::empty(),
    {
        let r = Peptide { inner: HashMap::new() };
        assert(r@ =~= Map::<(int, int), Amino>::empty());
        r
    }

    /// The chain of one unit of kind `amino` at the root cell.
    pub fn root(amino: AminoType) -> (r: Peptide)
        ensures
            r@ == single(amino),
    {
        let mut r = Peptide::new();
        r.insert(Pos::zeros(), Amino { amino, children: Directions::empty() });
        r
    }

    /// The chain with the cells listed, provided no position is listed
    /// twice.
    pub fn from_cells(cells: Vec<(Pos, Amino)>) -> (r: Result<Peptide, ShapeError>)
        ensures
            match r {
                Ok(peptide) => keys_distinct(cells@) && peptide@ == cells_of(cells@),
                Err(e) => e == ShapeError::DuplicatePosition && !keys_distinct(cells@),
            },
    {
        let mut out = Peptide::new();
        let n = cells.len();
        let mut i: usize = 0;
        proof {
            assert(cells_of(cells@.take(0)) =~= Map::<(int, int), Amino>::empty());
        }
        while i < n
            invariant
                i <= n,
                n == cells@.len(),
                keys_distinct(cells@.take(i as int)),
                out@ == cells_of(cells@.take(i as int)),
            decreases n - i,
        {
            let pos = cells[i].0;
            let amino = cells[i].1;
            proof {
                assert(cells@.take(i as int).push((pos, amino)) =~= cells@.take(i + 1));
            }
            if out.contains_key(pos) {
                proof {
                    let front = cells@.take(i as int);
                    let j = choose|j: int| 0 <= j < front.len() && (#[trigger] front[j]).0@ == pos@;
                    crate::pos::lemma_view_injective(cells@[j].0, cells@[i as int].0);
                    assert(cells@[j].0 == cells@[i as int].0);
                }
                return Err(ShapeError::DuplicatePosition);
            }
            proof {
                lemma_cells_push(cells@.take(i as int), pos, amino);
            }
            out.insert(pos, amino);
            i += 1;
        }
        proof {
            assert(cells@.take(n as int) =~= cells@);
        }
        Ok(out)
    }

    /// The number of occupied cells.
    pub fn len(&self) -> (n: usize)
        ensures
            n == self@.dom().len(),
            self@.dom().finite(),
    {
        proof {
            lemma_unpacked_len(self.inner@);
        }
        self.inner.len()
    }

    /// The occupant of `pos`, if it is occupied.
    pub fn get(&self, pos: Pos) -> (r: Option<Amino>)
        ensures
            r == (if self@.contains_key(pos@) {
                Some(self@[pos@])
            } else {
                None
            }),
    {
        let k = key(pos);
        match self.inner.get(&k) {
            Some(amino) => Some(*amino),
            None => None,
        }
    }

    /// Whether `pos` is occupied.
    pub fn contains_key(&self, pos: Pos) -> (r: bool)
        ensures
            r == self@.contains_key(pos@),
    {
        self.get(pos).is_some()
    }

    /// The occupant of the neighbour of `pos` in direction `dir`, if that
    /// neighbour is occupied.
    pub fn get_beside(&self, pos: Pos, dir: Direction) -> (r: Option<Amino>)
        ensures
            r == (if self@.contains_key(step(pos@, dir)) {
                Some(self@[step(pos@, dir)])
            } else {
                None
            }),
    {
        self.recall();
        match pos.neighbor(dir) {
            Some(q) => self.get(q),
            None => None,
        }
    }

    /// The occupied cells with their occupants, each once, in no particular
    /// order.
    pub fn cells(&self) -> (r: Vec<(Pos, Amino)>)
        ensures
            keys_distinct(r@),
            cells_of(r@) == self@,
            r@.len() == self@.dom().len(),
    {
        let mut out: Vec<(Pos, Amino)> = Vec::new();
        let ghost all = vstd::std_specs::hash::spec_keys_iter(&self.inner).remaining();
        for k in it: self.inner.keys()
            invariant
                it.seq() == all,
                out@.len() == it.index(),
                forall|j: int|
                    0 <= j < out@.len() ==> pack((#[trigger] out@[j]).0@) == *it.seq()[j],
                forall|j: int|
                    0 <= j < out@.len() ==> self.inner@.contains_key(
                        pack((#[trigger] out@[j]).0@) as u64,
                    ) && self.inner@[pack(out@[j].0@) as u64] == out@[j].1,
        {
            let pos = unkey(*k);
            match self.inner.get(k) {
                Some(amino) => {
                    out.push((pos, *amino));
                },
                None => {
                    assert(false);
                },
            }
        }
        proof {
            let keys = all.unref();
            assert(out@.len() == all.len());
            assert(keys.len() == all.len());
            assert forall|i: int, j: int| 0 <= i < j < out@.len() implies out@[i].0 != out@[j].0 by {
                assert(keys[i] == pack(out@[i].0@) && keys[j] == pack(out@[j].0@));
            }
            assert forall|p: (int, int)| stored(out@, p) == self@.contains_key(p) by {
                if stored(out@, p) {
                    let j = choose|j: int| 0 <= j < out@.len() && (#[trigger] out@[j]).0@ == p;
                    assert(self.inner@.contains_key(pack(out@[j].0@) as u64));
                }
                if self@.contains_key(p) {
                    let k = pack(p) as u64;
                    assert(keys.to_set().contains(k));
                    let j = choose|j: int| 0 <= j < keys.len() && keys[j] == k;
                    lemma_pack(p, 0);
                    lemma_pack(out@[j].0@, 0);
                    assert(out@[j].0@ == p);
                }
            }
            assert forall|p: (int, int)| stored(out@, p) implies #[trigger] cells_of(out@)[p]
                == self@[p] by {
                let j = choose|j: int| 0 <= j < out@.len() && (#[trigger] out@[j]).0@ == p;
                lemma_cells_entry(out@, j);
                assert(self.inner@[pack(out@[j].0@) as u64] == out@[j].1);
            }
            assert(cells_of(out@) =~= self@);
            lemma_cells_len(out@);
        }
        out
    }

    /// The occupied positions, each once, in no particular order.
    pub fn positions(&self) -> (r: Vec<Pos>)
        ensures
            r@.len() == self@.dom().len(),
            forall|i: int, j: int| 0 <= i < j < r@.len() ==> r@[i] != r@[j],
            forall|i: int| 0 <= i < r@.len() ==> self@.contains_key((#[trigger] r@[i])@),
            forall|k: (int, int)|
                self@.contains_key(k) ==> exists|i: int| 0 <= i < r@.len() && (#[trigger] r@[i])@ == k,
    {
        let cells = self.cells();
        let mut out: Vec<Pos> = Vec::new();
        let mut i: usize = 0;
        while i < cells.len()
            invariant
                i <= cells@.len(),
                out@.len() == i,
                forall|k: int| 0 <= k < i ==> (#[trigger] out@[k]) == cells@[k].0,
            decreases cells@.len() - i,
        {
            out.push(cells[i].0);
            i += 1;
        }
        proof {
            assert forall|a: int, b: int| 0 <= a < b < out@.len() implies out@[a] != out@[b] by {
                assert(cells@[a].0 != cells@[b].0);
            }
            assert forall|a: int| 0 <= a < out@.len() implies self@.contains_key(
                (#[trigger] out@[a])@,
            ) by {
                lemma_cells_entry(cells@, a);
            }
            assert forall|k: (int, int)| self@.contains_key(k) implies exists|a: int|
                0 <= a < out@.len() && (#[trigger] out@[a])@ == k by {
                let a = choose|a: int| 0 <= a < cells@.len() && (#[trigger] cells@[a]).0@ == k;
                assert(out@[a]@ == k);
            }
        }
        out
    }

    /// Puts `amino` on the cell `pos`, in place of what was there. The bond
    /// that makes the new cell a child is flagged separately, by `bond`.
    pub fn insert(&mut self, pos: Pos, amino: Amino)
        ensures
            final(self)@ == old(self)@.insert(pos@, amino),
    {
        proof {
            lemma_unpacked_insert(self.inner@, pos@, amino);
        }
        let k = key(pos);
        self.inner.insert(k, amino);
    }

    /// Empties the cell `pos` and returns what was on it. The bonds of other
    /// cells stay as they are.
    pub fn take(&mut self, pos: Pos) -> (r: Option<Amino>)
        ensures
            r == (if old(self)@.contains_key(pos@) {
                Some(old(self)@[pos@])
            } else {
                None
            }),
            final(self)@ == old(self)@.remove(pos@),
    {
        proof {
            lemma_unpacked_remove(self.inner@, pos@);
        }
        let k = key(pos);
        self.inner.remove(&k)
    }

    /// Flags on the cell `pos` the bond to a child in direction `dir`.
    /// Returns whether `pos` is occupied; an empty cell holds no bond.
    pub fn bond(&mut self, pos: Pos, dir: Direction) -> (done: bool)
        ensures
            done == old(self)@.contains_key(pos@),
            final(self)@ == bonded(old(self)@, pos@, dir),
    {
        match self.get(pos) {
            Some(cell) => {
                let mut children = cell.children;
                children.set(dir);
                self.insert(pos, Amino { amino: cell.amino, children });
                true
            },
            None => false,
        }
    }

    /// Takes from the cell `pos` the bond to a child in direction `dir`.
    /// Returns whether `pos` is occupied.
    pub fn unbond(&mut self, pos: Pos, dir: Direction) -> (done: bool)
        ensures
            done == old(self)@.contains_key(pos@),
            final(self)@ == (if old(self)@.contains_key(pos@) {
                old(self)@.insert(
                    pos@,
                    Amino {
                        amino: old(self)@[pos@].amino,
                        children: old(self)@[pos@].children.without(dir),
                    },
                )
            } else {
                old(self)@
            }),
    {
        match self.get(pos) {
            Some(cell) => {
                let mut children = cell.children;
                children.remove(dir);
                self.insert(pos, Amino { amino: cell.amino, children });
                true
            },
            None => false,
        }
    }

    /// Attaches a new unit of kind `amino` as the child of the cell `pos` in
    /// direction `dir`: the new cell is inserted without children and the
    /// bond is flagged on `pos`. Nothing changes unless `pos` is occupied and
    /// the cell beyond it is free.
    pub fn attach(&mut self, pos: Pos, dir: Direction, amino: AminoType) -> (done: bool)
        ensures
            done == can_grow(old(self)@, pos@, dir),
            done ==> final(self)@ == grown(old(self)@, pos@, dir, amino),
            !done ==> final(self)@ == old(self)@,
    {
        if !self.contains_key(pos) {
            return false;
        }
        match pos.neighbor(dir) {
            Some(next) => {
                if self.contains_key(next) {
                    return false;
                }
                self.bond(pos, dir);
                self.insert(next, Amino { amino, children: Directions::empty() });
                true
            },
            None => false,
        }
    }

    /// Whether the cell `pos` is bonded to an occupied child of kind `amino`
    /// in direction `dir`.
    pub fn child_is(&self, pos: Pos, dir: Direction, amino: AminoType) -> (r: bool)
        ensures
            r == has_child(self@, pos@, dir, amino),
    {
        match self.get(pos) {
            Some(this) => {
                if !this.children.contains(dir) {
                    return false;
                }
                match self.get_beside(pos, dir) {
                    Some(child) => child.amino == amino,
                    None => false,
                }
            },
            None => false,
        }
    }

    /// The number of children of kind `amino` that the cell `pos` is bonded
    /// to; none where `pos` is empty.
    pub fn children_of_type(&self, pos: Pos, amino: AminoType) -> (count: u8)
        ensures
            count == child_count(self@, pos@, amino),
    {
        let mut count: u8 = 0;
        if self.child_is(pos, Direction::Up, amino) {
            count += 1;
        }
        if self.child_is(pos, Direction::Right, amino) {
            count += 1;
        }
        if self.child_is(pos, Direction::Down, amino) {
            count += 1;
        }
        if self.child_is(pos, Direction::Left, amino) {
            count += 1;
        }
        count
    }

    /// Whether the neighbour of `pos` in direction `dir` holds `pos` as a
    /// child; if so, that neighbour.
    pub fn holder(&self, pos: Pos, dir: Direction) -> (r: Option<Pos>)
        ensures
            r.is_some() == bonded_from(self@, pos@, dir),
            r.is_some() ==> r.unwrap()@ == step(pos@, dir),
    {
        self.recall();
        match pos.neighbor(dir) {
            Some(q) => match self.get(q) {
                Some(next) => if next.children.contains(dir.opposite()) {
                    Some(q)
                } else {
                    None
                },
                None => None,
            },
            None => None,
        }
    }

    /// The cell that holds `pos` as a child, with the direction from `pos`
    /// to it: the first such neighbour in enumeration order.
    pub fn parent(&self, pos: Pos) -> (r: Option<(Pos, Direction)>)
        ensures
            match r {
                Some((q, d)) => parent_of(self@, pos@) == Some((q@, d)),
                None => parent_of(self@, pos@).is_none(),
            },
    {
        if let Some(q) = self.holder(pos, Direction::Up) {
            return Some((q, Direction::Up));
        }
        if let Some(q) = self.holder(pos, Direction::Right) {
            return Some((q, Direction::Right));
        }
        if let Some(q) = self.holder(pos, Direction::Down) {
            return Some((q, Direction::Down));
        }
        if let Some(q) = self.holder(pos, Direction::Left) {
            return Some((q, Direction::Left));
        }
        None
    }
}

} // verus!

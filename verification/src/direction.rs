//! The four lattice directions and small sets of them.

use vstd::prelude::*;
use crate::pos::Pos;

verus! {

/// One of the four ways to step from a cell to a neighbour.
#[derive(Clone, Copy, Debug, PartialEq, Eq, Hash, Structural)]
pub enum Direction {
    Up,
    Down,
    Left,
    Right,
}

/// A set of directions, one bit each: the bonds from a cell to its children.
#[derive(Clone, Copy, Debug, PartialEq, Eq, Hash, Default, Structural)]
pub struct Directions {
    inner: u8,
}

/// The point one step from `p` in direction `d`.
pub open spec fn step(p: (int, int), d: Direction) -> (int, int) {
    match d {
        Direction::Up => (p.0, p.1 + 1),
        Direction::Down => (p.0, p.1 - 1),
        Direction::Left => (p.0 - 1, p.1),
        Direction::Right => (p.0 + 1, p.1),
    }
}

impl Direction {
    /// The directions in the order in which they are always enumerated.
    pub open spec fn order() -> Seq<Direction> {
        seq![Direction::Up, Direction::Right, Direction::Down, Direction::Left]
    }

    /// The place of a direction in `order`.
    pub open spec fn rank(self) -> int {
        match self {
            Direction::Up => 0,
            Direction::Right => 1,
            Direction::Down => 2,
            Direction::Left => 3,
        }
    }

    /// The direction that leads back.
    pub open spec fn opposite_spec(self) -> Direction {
        match self {
            Direction::Up => Direction::Down,
            Direction::Down => Direction::Up,
            Direction::Left => Direction::Right,
            Direction::Right => Direction::Left,
        }
    }

    /// All four directions, in enumeration order.
    pub fn all() -> (dirs: [Direction; 4])
        ensures
            dirs@ == Direction::order(),
    {
        let dirs = [Direction::Up, Direction::Right, Direction::Down, Direction::Left];
        assert(dirs@ =~= Direction::order());
        dirs
    }

    /// The direction that leads back.
    #[verifier::when_used_as_spec(opposite_spec)]
    pub fn opposite(self) -> (r: Direction)
        ensures
            r == self.opposite_spec(),
    {
        match self {
            Direction::Up => Direction::Down,
            Direction::Down => Direction::Up,
            Direction::Left => Direction::Right,
            Direction::Right => Direction::Left,
        }
    }

    /// Whether the direction runs along the x axis.
    pub fn horizontal(&self) -> (r: bool)
        ensures
            r == (*self == Direction::Left || *self == Direction::Right),
    {
        match self {
            Direction::Left => true,
            Direction::Right => true,
            _ => false,
        }
    }

    /// The unit vector of this direction.
    pub fn delta(&self) -> (v: Pos)
        ensures
            v@ == step((0, 0), *self),
    {
        match self {
            Direction::Up => Pos { x: 0, y: 1 },
            Direction::Down => Pos { x: 0, y: -1 },
            Direction::Left => Pos { x: -1, y: 0 },
            Direction::Right => Pos { x: 1, y: 0 },
        }
    }

    /// The direction whose unit vector is `delta`, if there is one.
    pub fn from_delta(delta: Pos) -> (r: Option<Direction>)
        ensures
            match r {
                Some(d) => delta@ == step((0, 0), d),
                None => forall|d: Direction| delta@ != step((0, 0), d),
            },
    {
        if delta.x == 1 && delta.y == 0 {
            Some(Direction::Right)
        } else if delta.x == -1 && delta.y == 0 {
            Some(Direction::Left)
        } else if delta.x == 0 && delta.y == 1 {
            Some(Direction::Up)
        } else if delta.x == 0 && delta.y == -1 {
            Some(Direction::Down)
        } else {
            None
        }
    }

    /// How strongly random growth prefers this direction: chains are to
    /// grow to the right four times as often as in any other direction.
    pub fn growth_weight(&self) -> (w: u32)
        ensures
            w == (if *self == Direction::Right {
                4u32
            } else {
                1u32
            }),
    {
        match self {
            Direction::Right => 4,
            _ => 1,
        }
    }

    /// The bit that stands for this direction in a `Directions`.
    pub open spec fn mask(self) -> u8 {
        match self {
            Direction::Up => 1u8,
            Direction::Down => 2u8,
            Direction::Left => 4u8,
            Direction::Right => 8u8,
        }
    }

    fn bit(self) -> (m: u8)
        ensures
            m == self.mask(),
    {
        match self {
            Direction::Up => 1u8,
            Direction::Down => 2u8,
            Direction::Left => 4u8,
            Direction::Right => 8u8,
        }
    }
}

impl Pos {
    /// The neighbouring cell in direction `d`, unless it lies beyond the
    /// coordinates a `Pos` can hold.
    pub fn neighbor(self, d: Direction) -> (r: Option<Pos>)
        ensures
            match r {
                Some(q) => q@ == step(self@, d),
                None => !crate::pos::representable(step(self@, d)),
            },
    {
        match d {
            Direction::Up => if self.y < i32::MAX {
                Some(Pos { x: self.x, y: self.y + 1 })
            } else {
                None
            },
            Direction::Down => if self.y > i32::MIN {
                Some(Pos { x: self.x, y: self.y - 1 })
            } else {
                None
            },
            Direction::Left => if self.x > i32::MIN {
                Some(Pos { x: self.x - 1, y: self.y })
            } else {
                None
            },
            Direction::Right => if self.x < i32::MAX {
                Some(Pos { x: self.x + 1, y: self.y })
            } else {
                None
            },
        }
    }
}

impl Directions {
    /// Whether `d` is in the set.
    pub closed spec fn has(self, d: Direction) -> bool {
        self.inner & d.mask() != 0
    }

    /// The set with `d` added.
    pub closed spec fn with(self, d: Direction) -> Directions {
        Directions { inner: self.inner | d.mask() }
    }

    /// The set with `d` taken out.
    pub closed spec fn without(self, d: Direction) -> Directions {
        Directions { inner: self.inner & !d.mask() }
    }

    /// The set that holds nothing.
    pub closed spec fn none() -> Directions {
        Directions { inner: 0 }
    }

    /// Whether the set is held as the four bits of its members and nothing
    /// else. Every set that this module makes is.
    pub closed spec fn wf(self) -> bool {
        self.inner < 16
    }

    /// The members of the set in enumeration order.
    pub open spec fn listed(self) -> Seq<Direction> {
        let up = if self.has(Direction::Up) { seq![Direction::Up] } else { seq![] };
        let right = if self.has(Direction::Right) { seq![Direction::Right] } else { seq![] };
        let down = if self.has(Direction::Down) { seq![Direction::Down] } else { seq![] };
        let left = if self.has(Direction::Left) { seq![Direction::Left] } else { seq![] };
        up + right + down + left
    }

    /// A set with `d` added holds `d` and what it held before.
    pub broadcast proof fn lemma_with(self, d: Direction, e: Direction)
        ensures
            #[trigger] self.with(d).has(e) == (e == d || self.has(e)),
    {
        let x = self.inner;
        let m = d.mask();
        let n = e.mask();
        assert((m == n) == (d == e));
        assert((m == 1 || m == 2 || m == 4 || m == 8) && (n == 1 || n == 2 || n == 4 || n == 8)
            ==> (((x | m) & n != 0) == (m == n || (x & n != 0)))) by (bit_vector);
    }

    /// A set with `d` taken out holds what it held before, except `d`.
    pub broadcast proof fn lemma_without(self, d: Direction, e: Direction)
        ensures
            #[trigger] self.without(d).has(e) == (e != d && self.has(e)),
    {
        let x = self.inner;
        let m = d.mask();
        let n = e.mask();
        assert((m == n) == (d == e));
        assert((m == 1 || m == 2 || m == 4 || m == 8) && (n == 1 || n == 2 || n == 4 || n == 8)
            ==> (((x & !m) & n != 0) == (m != n && (x & n != 0)))) by (bit_vector);
    }

    /// The empty set has no member.
    pub broadcast proof fn lemma_none(e: Direction)
        ensures
            !(#[trigger] Directions::none().has(e)),
    {
        let n = e.mask();
        assert(0u8 & n == 0) by (bit_vector);
    }

    /// The empty set is well formed, and adding or removing a member keeps a
    /// set so.
    pub proof fn lemma_wf(self, d: Direction)
        ensures
            Directions::none().wf(),
            self.wf() ==> self.with(d).wf() && self.without(d).wf(),
    {
        let x = self.inner;
        let m = d.mask();
        assert((m == 1 || m == 2 || m == 4 || m == 8) && x < 16 ==> (x | m) < 16 && (x & !m) < 16)
            by (bit_vector);
    }

    /// Two well-formed sets with the same members are the same set.
    pub proof fn lemma_extensional(self, other: Directions)
        requires
            self.wf(),
            other.wf(),
            forall|d: Direction| self.has(d) == other.has(d),
        ensures
            self == other,
    {
        let x = self.inner;
        let y = other.inner;
        assert(self.has(Direction::Up) == other.has(Direction::Up));
        assert(self.has(Direction::Down) == other.has(Direction::Down));
        assert(self.has(Direction::Left) == other.has(Direction::Left));
        assert(self.has(Direction::Right) == other.has(Direction::Right));
        assert(x < 16 && y < 16 && ((x & 1 != 0) == (y & 1 != 0)) && ((x & 2 != 0) == (y & 2 != 0))
            && ((x & 4 != 0) == (y & 4 != 0)) && ((x & 8 != 0) == (y & 8 != 0)) ==> x == y)
            by (bit_vector);
    }

    /// `listed` holds exactly the members of the set, each once.
    pub proof fn lemma_listed(self)
        ensures
            forall|d: Direction| self.listed().contains(d) == self.has(d),
            self.listed().len() <= 4,
    {
        let l = self.listed();
        assert forall|d: Direction| l.contains(d) == self.has(d) by {
            if self.has(d) {
                let up: int = if self.has(Direction::Up) { 1 } else { 0 };
                let right: int = if self.has(Direction::Right) { 1 } else { 0 };
                let down: int = if self.has(Direction::Down) { 1 } else { 0 };
                let i = match d {
                    Direction::Up => 0,
                    Direction::Right => up,
                    Direction::Down => up + right,
                    Direction::Left => up + right + down,
                };
                assert(l[i] == d);
            }
            if l.contains(d) {
                let i = choose|i: int| 0 <= i < l.len() && l[i] == d;
                assert(self.has(l[i]));
            }
        }
    }

    /// The set as a number: the sum of the bits of its members.
    pub closed spec fn bits_spec(self) -> u8 {
        self.inner
    }

    /// The set as a number: the sum of the bits of its members.
    #[verifier::when_used_as_spec(bits_spec)]
    pub fn bits(self) -> (r: u8)
        ensures
            r == self.bits_spec(),
    {
        self.inner
    }

    /// The set that holds nothing.
    pub fn empty() -> (r: Directions)
        ensures
            r == Directions::none(),
            r.wf(),
            forall|d: Direction| !r.has(d),
    {
        proof {
            broadcast use group_directions;

        }
        Directions { inner: 0 }
    }

    /// Whether `direction` is in the set.
    pub fn contains(&self, direction: Direction) -> (r: bool)
        ensures
            r == self.has(direction),
    {
        self.inner & direction.bit() != 0
    }

    /// Adds `direction` to the set.
    pub fn set(&mut self, direction: Direction)
        ensures
            *final(self) == old(self).with(direction),
            forall|d: Direction| final(self).has(d) == (d == direction || old(self).has(d)),
            old(self).wf() ==> final(self).wf(),
    {
        proof {
            broadcast use group_directions;

            self.lemma_wf(direction);
        }
        self.inner = self.inner | direction.bit();
    }

    /// Takes `direction` out of the set.
    pub fn remove(&mut self, direction: Direction)
        ensures
            *final(self) == old(self).without(direction),
            forall|d: Direction| final(self).has(d) == (d != direction && old(self).has(d)),
            old(self).wf() ==> final(self).wf(),
    {
        proof {
            broadcast use group_directions;

            self.lemma_wf(direction);
        }
        self.inner = self.inner & !direction.bit();
    }

    /// The members of the set, in enumeration order.
    pub fn iter(self) -> (r: Vec<Direction>)
        ensures
            r@ == self.listed(),
    {
        let mut out: Vec<Direction> = Vec::new();
        if self.contains(Direction::Up) {
            out.push(Direction::Up);
        }
        if self.contains(Direction::Right) {
            out.push(Direction::Right);
        }
        if self.contains(Direction::Down) {
            out.push(Direction::Down);
        }
        if self.contains(Direction::Left) {
            out.push(Direction::Left);
        }
        assert(out@ =~= self.listed());
        out
    }
}

/// What adding to, removing from and emptying a set of directions do to its
/// membership.
pub broadcast group group_directions {
    Directions::lemma_with,
    Directions::lemma_without,
    Directions::lemma_none,
}

} // verus!

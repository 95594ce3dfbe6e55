//! Lattice positions.

use vstd::prelude::*;

verus! {

/// A cell of the square lattice, or the difference of two cells.
#[derive(Clone, Copy, Debug, PartialEq, Eq, Hash, Structural)]
pub struct Pos {
    pub x: i32,
    pub y: i32,
}

/// The cell at which every chain is anchored.
pub open spec fn origin() -> (int, int) {
    (0, 0)
}

/// Whether a point of the plane has coordinates that a `Pos` can hold.
pub open spec fn representable(p: (int, int)) -> bool {
    i32::MIN <= p.0 <= i32::MAX && i32::MIN <= p.1 <= i32::MAX
}

/// The number of lattice steps between two points.
pub open spec fn manhattan(a: (int, int), b: (int, int)) -> nat {
    let dx = if a.0 >= b.0 { a.0 - b.0 } else { b.0 - a.0 };
    let dy = if a.1 >= b.1 { a.1 - b.1 } else { b.1 - a.1 };
    (dx + dy) as nat
}

impl View for Pos {
    type V = (int, int);

    open spec fn view(&self) -> (int, int) {
        (self.x as int, self.y as int)
    }
}

impl Pos {
    /// The cell with the coordinates `x` and `y`.
    pub fn new(x: i32, y: i32) -> (p: Pos)
        ensures
            p@ == (x as int, y as int),
            p.x == x,
            p.y == y,
    {
        Pos { x, y }
    }

    /// The root cell.
    pub fn zeros() -> (p: Pos)
        ensures
            p@ == origin(),
            p == (Pos { x: 0, y: 0 }),
    {
        Pos { x: 0, y: 0 }
    }

    /// The number of lattice steps from `self` to `other`.
    pub fn distance(self, other: Pos) -> (d: u64)
        ensures
            d == manhattan(self@, other@),
            (d == 0) == (self == other),
    {
        let dx: i64 = self.x as i64 - other.x as i64;
        let dy: i64 = self.y as i64 - other.y as i64;
        let ax: i64 = if dx >= 0 { dx } else { -dx };
        let ay: i64 = if dy >= 0 { dy } else { -dy };
        (ax + ay) as u64
    }
}

/// Two positions with the same coordinates are the same position.
pub proof fn lemma_view_injective(a: Pos, b: Pos)
    ensures
        (a@ == b@) == (a == b),
{
}

} // verus!

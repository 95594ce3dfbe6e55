//! The energy of a chain.
//!
//! Energies are counted in whole units of which `SCALE` make one: every term
//! of the energy is a whole number, a half of one, or a whole number divided
//! by a distance, and `SCALE` is divisible by two and by every distance up to
//! `MAX_SPAN`. So the energy of a chain no wider than that is held exactly.

use vstd::prelude::*;
use crate::amino::{lemma_bonus_range, Amino};
use crate::direction::{step, Direction};
use crate::peptide::{cells_of, keys_distinct, Cells, Peptide};
use crate::pos::{manhattan, Pos};
use crate::sum::{first_keys, lemma_first_keys_ends, lemma_first_keys_step, lemma_sum_insert, sum_over};

verus! {

/// The number of units that make an energy of one.
pub const SCALE: i128 = 10_708_457_760;

/// The largest distance by which `SCALE` is known to be divisible.
pub const MAX_SPAN: u64 = 24;

/// The largest number of cells of which the energy can be computed.
pub const MAX_CELLS: usize = 0xFFFF_FFFF;

/// An energy, in units of which `SCALE` make one. Lower is better.
#[derive(Clone, Copy, Debug, PartialEq, Eq, Hash, Structural)]
pub struct Score {
    pub units: i128,
}

/// The whole number of units in one over the distance `d`.
pub open spec fn quotient(d: int) -> int {
    (SCALE as int) / d
}

/// The number of the four neighbours of `p` that are occupied.
pub open spec fn covered(m: Cells, p: (int, int)) -> int {
    let up: int = if m.contains_key(step(p, Direction::Up)) { 1 } else { 0 };
    let right: int = if m.contains_key(step(p, Direction::Right)) { 1 } else { 0 };
    let down: int = if m.contains_key(step(p, Direction::Down)) { 1 } else { 0 };
    let left: int = if m.contains_key(step(p, Direction::Left)) { 1 } else { 0 };
    up + right + down + left
}

/// Whether the cell at `p` and its neighbour in direction `d` are both
/// occupied with no bond between them, either way.
pub open spec fn touches(m: Cells, p: (int, int), d: Direction) -> bool {
    &&& m.contains_key(p)
    &&& m.contains_key(step(p, d))
    &&& !m[step(p, d)].children.has(d.opposite_spec())
    &&& !m[p].children.has(d)
}

/// The share of the cell at `p` in the energy of its contact with the
/// neighbour in direction `d`: half of what the catalogue lists for the pair.
pub open spec fn contact(m: Cells, p: (int, int), d: Direction) -> int {
    if touches(m, p, d) {
        (SCALE / 2) * m[p].amino.bonus_spec(m[step(p, d)].amino)
    } else {
        0
    }
}

/// The electrostatic energy that the cell at `p` has from the cell at `q`:
/// the product of the charges over the distance, the quotient of `SCALE` by
/// the distance being taken in whole units.
pub open spec fn attraction(m: Cells, p: (int, int), q: (int, int)) -> int {
    if p == q || !m.contains_key(p) || !m.contains_key(q) {
        0
    } else {
        quotient(manhattan(p, q) as int) * (m[p].amino.charge_spec() * m[q].amino.charge_spec())
    }
}

/// `attraction` as a function of the second cell.
pub open spec fn attraction_from(m: Cells, p: (int, int)) -> spec_fn((int, int)) -> int {
    |q: (int, int)| attraction(m, p, q)
}

/// What the cell at `p` adds to the energy by itself and with its four
/// neighbours: its cost, its hydrophobic energy for each side left open, and
/// its share of each contact.
pub open spec fn local_energy(m: Cells, p: (int, int)) -> int {
    SCALE * m[p].amino.cost() + SCALE * (m[p].amino.hydrophobic_spec() * (4 - covered(m, p)))
        + contact(m, p, Direction::Up) + contact(m, p, Direction::Right) + contact(
        m,
        p,
        Direction::Down,
    ) + contact(m, p, Direction::Left)
}

/// What the cell at `p` adds to the energy of the chain.
pub open spec fn cell_energy(m: Cells, p: (int, int)) -> int {
    local_energy(m, p) + sum_over(m.dom(), attraction_from(m, p))
}

/// `cell_energy` as a function of the cell.
pub open spec fn cell_energy_in(m: Cells) -> spec_fn((int, int)) -> int {
    |p: (int, int)| cell_energy(m, p)
}

/// The energy of the chain, in units: the sum over its cells of what each
/// adds.
pub open spec fn energy(m: Cells) -> int {
    sum_over(m.dom(), cell_energy_in(m))
}

/// `SCALE` is divisible by two and by every distance up to `MAX_SPAN`, so
/// halves and quotients by such distances are whole numbers of units.
pub proof fn law_scale_divisible(d: int)
    requires
        1 <= d <= MAX_SPAN,
    ensures
        quotient(d) * d == SCALE,
        (SCALE / 2) * 2 == SCALE,
{
    if d == 1 {
        assert(quotient(1) == 10_708_457_760);
    } else if d == 2 {
        assert(quotient(2) == 5_354_228_880);
    } else if d == 3 {
        assert(quotient(3) == 3_569_485_920);
    } else if d == 4 {
        assert(quotient(4) == 2_677_114_440);
    } else if d == 5 {
        assert(quotient(5) == 2_141_691_552);
    } else if d == 6 {
        assert(quotient(6) == 1_784_742_960);
    } else if d == 7 {
        assert(quotient(7) == 1_529_779_680);
    } else if d == 8 {
        assert(quotient(8) == 1_338_557_220);
    } else if d == 9 {
        assert(quotient(9) == 1_189_828_640);
    } else if d == 10 {
        assert(quotient(10) == 1_070_845_776);
    } else if d == 11 {
        assert(quotient(11) == 973_496_160);
    } else if d == 12 {
        assert(quotient(12) == 892_371_480);
    } else if d == 13 {
        assert(quotient(13) == 823_727_520);
    } else if d == 14 {
        assert(quotient(14) == 764_889_840);
    } else if d == 15 {
        assert(quotient(15) == 713_897_184);
    } else if d == 16 {
        assert(quotient(16) == 669_278_610);
    } else if d == 17 {
        assert(quotient(17) == 629_909_280);
    } else if d == 18 {
        assert(quotient(18) == 594_914_320);
    } else if d == 19 {
        assert(quotient(19) == 563_603_040);
    } else if d == 20 {
        assert(quotient(20) == 535_422_888);
    } else if d == 21 {
        assert(quotient(21) == 509_926_560);
    } else if d == 22 {
        assert(quotient(22) == 486_748_080);
    } else if d == 23 {
        assert(quotient(23) == 465_585_120);
    } else {
        assert(quotient(24) == 446_185_740);
    }
}

/// The quotient of `SCALE` by a distance lies between zero and `SCALE`.
proof fn lemma_quotient_range(d: int)
    requires
        d >= 1,
    ensures
        0 <= quotient(d) <= SCALE,
{
    vstd::arithmetic::div_mod::lemma_div_pos_is_pos(SCALE as int, d);
    vstd::arithmetic::div_mod::lemma_div_is_ordered_by_denominator(SCALE as int, 1, d);
}

/// The electrostatic energy between two cells lies between minus and plus
/// `SCALE`.
proof fn lemma_attraction_range(m: Cells, p: (int, int), q: (int, int))
    ensures
        -SCALE <= attraction(m, p, q) <= SCALE,
{
    if p != q && m.contains_key(p) && m.contains_key(q) {
        let x = quotient(manhattan(p, q) as int);
        let c = m[p].amino.charge_spec() * m[q].amino.charge_spec();
        lemma_quotient_range(manhattan(p, q) as int);
        assert(-1 <= c <= 1) by (nonlinear_arith)
            requires
                -1 <= m[p].amino.charge_spec() <= 1,
                -1 <= m[q].amino.charge_spec() <= 1,
                c == m[p].amino.charge_spec() * m[q].amino.charge_spec(),
        ;
        assert(-SCALE <= x * c <= SCALE) by (nonlinear_arith)
            requires
                0 <= x <= SCALE,
                -1 <= c <= 1,
        ;
    }
}

/// The share of a contact lies between minus six times `SCALE` and zero.
proof fn lemma_contact_range(m: Cells, p: (int, int), d: Direction)
    ensures
        -6 * SCALE <= contact(m, p, d) <= 0,
{
    if touches(m, p, d) {
        lemma_bonus_range(m[p].amino, m[step(p, d)].amino);
    }
}

impl Peptide {
    /// The share of the cell `pos`, which holds `amino`, in the energy of its
    /// contact with the neighbour in direction `dir`.
    fn contact_with(&self, pos: Pos, amino: Amino, dir: Direction) -> (r: (bool, i128))
        requires
            self@.contains_key(pos@),
            self@[pos@] == amino,
        ensures
            r.0 == self@.contains_key(step(pos@, dir)),
            r.1 == contact(self@, pos@, dir),
            -6 * SCALE <= r.1 <= 0,
    {
        proof {
            lemma_contact_range(self@, pos@, dir);
        }
        match self.get_beside(pos, dir) {
            Some(neighbor) => {
                if !neighbor.children.contains(dir.opposite()) && !amino.children.contains(dir) {
                    let bonus = amino.amino.bonus(neighbor.amino);
                    (true, (SCALE / 2) * (bonus as i128))
                } else {
                    (true, 0)
                }
            },
            None => (false, 0),
        }
    }

    /// What the cell `pos`, which holds `amino`, adds to the energy by itself
    /// and with its four neighbours.
    fn local_score(&self, pos: Pos, amino: Amino) -> (r: i128)
        requires
            self@.contains_key(pos@),
            self@[pos@] == amino,
        ensures
            r == local_energy(self@, pos@),
            -36 * SCALE <= r <= 36 * SCALE,
    {
        let up = self.contact_with(pos, amino, Direction::Up);
        let right = self.contact_with(pos, amino, Direction::Right);
        let down = self.contact_with(pos, amino, Direction::Down);
        let left = self.contact_with(pos, amino, Direction::Left);
        let mut open_sides: i128 = 4;
        if up.0 {
            open_sides -= 1;
        }
        if right.0 {
            open_sides -= 1;
        }
        if down.0 {
            open_sides -= 1;
        }
        if left.0 {
            open_sides -= 1;
        }
        assert(open_sides == 4 - covered(self@, pos@));
        let cost = amino.amino.intrinsic_cost() as i128;
        let exposure = (amino.amino.hydrophobic() as i128) * open_sides;
        assert(-8 <= exposure <= 8) by (nonlinear_arith)
            requires
                -2 <= amino.amino.hydrophobic_spec() <= 1,
                0 <= open_sides <= 4,
                exposure == amino.amino.hydrophobic_spec() * open_sides,
        ;
        SCALE * cost + SCALE * exposure + up.1 + right.1 + down.1 + left.1
    }

    /// The energy of the chain, in units of which `SCALE` make one. It is the
    /// sum, over the cells, of the cell's cost, of its hydrophobic energy for
    /// each of its four sides that no neighbour covers, of half the
    /// catalogue's energy for each neighbour that it is not bonded to, and of
    /// the product of its charge with the charge of each other cell, divided
    /// by their distance.
    pub fn score(&self) -> (r: Score)
        requires
            self@.dom().len() <= MAX_CELLS,
        ensures
            r.units == energy(self@),
    {
        let cells = self.cells();
        let n = cells.len();
        let ghost m = self@;
        let ghost bound = (36 + n) * SCALE;
        let mut total: i128 = 0;
        let mut i: usize = 0;
        proof {
            lemma_first_keys_ends(cells@);
            assert(0 * bound == 0);
        }
        while i < n
            invariant
                i <= n,
                n == cells@.len(),
                n <= MAX_CELLS,
                m == self@,
                keys_distinct(cells@),
                cells_of(cells@) == m,
                m.dom().finite(),
                m.dom().len() == n,
                bound == (36 + n) * SCALE,
                total == sum_over(first_keys(cells@, i as int), cell_energy_in(m)),
                -(i * bound) <= total <= i * bound,
            decreases n - i,
        {
            let pos = cells[i].0;
            let amino = cells[i].1;
            proof {
                crate::peptide::lemma_cells_entry(cells@, i as int);
            }
            let local = self.local_score(pos, amino);
            let mut far: i128 = 0;
            let mut j: usize = 0;
            proof {
                lemma_first_keys_ends(cells@);
                assert(0 * SCALE == 0);
            }
            while j < n
                invariant
                    j <= n,
                    i < n,
                    n == cells@.len(),
                    n <= MAX_CELLS,
                    keys_distinct(cells@),
                    cells_of(cells@) == m,
                    m.contains_key(pos@),
                    m[pos@] == amino,
                    far == sum_over(first_keys(cells@, j as int), attraction_from(m, pos@)),
                    -(j * SCALE) <= far <= j * SCALE,
                decreases n - j,
            {
                let other = cells[j].0;
                let there = cells[j].1;
                proof {
                    crate::peptide::lemma_cells_entry(cells@, j as int);
                    lemma_first_keys_step(cells@, j as int);
                    lemma_sum_insert(
                        first_keys(cells@, j as int),
                        attraction_from(m, pos@),
                        other@,
                    );
                    lemma_attraction_range(m, pos@, other@);
                    assert((j + 1) * SCALE == j * SCALE + SCALE) by (nonlinear_arith);
                }
                let d = pos.distance(other);
                if d != 0 {
                    let product = (amino.amino.charge() * there.amino.charge()) as i128;
                    proof {
                        lemma_quotient_range(d as int);
                    }
                    let term = (SCALE / (d as i128)) * product;
                    far = far + term;
                }
                j += 1;
            }
            proof {
                lemma_first_keys_ends(cells@);
                lemma_first_keys_step(cells@, i as int);
                lemma_sum_insert(first_keys(cells@, i as int), cell_energy_in(m), pos@);
                assert(far == sum_over(m.dom(), attraction_from(m, pos@)));
                assert(local + far == cell_energy(m, pos@));
                assert(n * SCALE + 36 * SCALE == bound) by (nonlinear_arith)
                    requires
                        bound == (36 + n) * SCALE,
                ;
                assert((i + 1) * bound == i * bound + bound) by (nonlinear_arith);
                assert((i + 1) * bound <= 0x1_0000_0000 * (0x1_0000_0024 * SCALE))
                    by (nonlinear_arith)
                    requires
                        i + 1 <= n,
                        n <= 0xFFFF_FFFF,
                        bound == (36 + n) * SCALE,
                ;
            }
            total = total + (local + far);
            i += 1;
        }
        Score { units: total }
    }
}

} // verus!

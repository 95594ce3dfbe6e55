//! How far a chain reaches on the lattice.

use vstd::prelude::*;
use crate::peptide::{cells_of, keys_distinct, lemma_cells_entry, Cells, Peptide};
use crate::pos::Pos;

verus! {

/// Whether `lo` and `hi` are the corners of the smallest rectangle that
/// holds every cell of `m`: no cell lies outside, and a cell lies on each of
/// its four sides.
pub open spec fn bounded_by(m: Cells, lo: (int, int), hi: (int, int)) -> bool {
    &&& forall|p: (int, int)| #[trigger]
        m.contains_key(p) ==> lo.0 <= p.0 <= hi.0 && lo.1 <= p.1 <= hi.1
    &&& exists|p: (int, int)| #[trigger] m.contains_key(p) && p.0 == lo.0
    &&& exists|p: (int, int)| #[trigger] m.contains_key(p) && p.0 == hi.0
    &&& exists|p: (int, int)| #[trigger] m.contains_key(p) && p.1 == lo.1
    &&& exists|p: (int, int)| #[trigger] m.contains_key(p) && p.1 == hi.1
}

impl Peptide {
    /// The lower left and the upper right corner of the smallest rectangle
    /// that holds every cell of the chain; nothing for a chain without
    /// cells.
    pub fn bounds(&self) -> (r: Option<(Pos, Pos)>)
        ensures
            match r {
                Some((lo, hi)) => bounded_by(self@, lo@, hi@),
                None => self@.dom().len() == 0,
            },
    {
        let cells = self.cells();
        let n = cells.len();
        if n == 0 {
            return None;
        }
        let ghost m = self@;
        let mut lo = cells[0].0;
        let mut hi = cells[0].0;
        proof {
            lemma_cells_entry(cells@, 0);
        }
        let mut i: usize = 1;
        while i < n
            invariant
                1 <= i <= n,
                n == cells@.len(),
                m == self@,
                keys_distinct(cells@),
                cells_of(cells@) == m,
                forall|k: int|
                    0 <= k < i ==> lo.x <= (#[trigger] cells@[k]).0.x <= hi.x && lo.y <= cells@[k].0.y
                        <= hi.y,
                exists|p: (int, int)| #[trigger] m.contains_key(p) && p.0 == lo.x,
                exists|p: (int, int)| #[trigger] m.contains_key(p) && p.0 == hi.x,
                exists|p: (int, int)| #[trigger] m.contains_key(p) && p.1 == lo.y,
                exists|p: (int, int)| #[trigger] m.contains_key(p) && p.1 == hi.y,
            decreases n - i,
        {
            let pos = cells[i].0;
            proof {
                lemma_cells_entry(cells@, i as int);
                assert(m.contains_key(pos@));
            }
            if pos.x < lo.x {
                lo.x = pos.x;
            }
            if pos.x > hi.x {
                hi.x = pos.x;
            }
            if pos.y < lo.y {
                lo.y = pos.y;
            }
            if pos.y > hi.y {
                hi.y = pos.y;
            }
            i += 1;
        }
        proof {
            assert forall|p: (int, int)| #[trigger] m.contains_key(p) implies lo@.0 <= p.0 <= hi@.0
                && lo@.1 <= p.1 <= hi@.1 by {
                let k = choose|k: int| 0 <= k < cells@.len() && (#[trigger] cells@[k]).0@ == p;
                assert(lo.x <= cells@[k].0.x <= hi.x);
            }
        }
        Some((lo, hi))
    }

    /// The width and the height of the smallest rectangle that holds every
    /// cell of the chain, counted in cells; both zero for a chain without
    /// cells.
    pub fn size(&self) -> (r: (u64, u64))
        ensures
            self@.dom().len() == 0 ==> r == (0u64, 0u64),
            self@.dom().len() > 0 ==> exists|lo: (int, int), hi: (int, int)| #[trigger]
                bounded_by(self@, lo, hi) && r.0 == hi.0 - lo.0 + 1 && r.1 == hi.1 - lo.1 + 1,
            r.0 == 0 <==> self@.dom().len() == 0,
    {
        self.recall();
        match self.bounds() {
            Some((lo, hi)) => {
                let width = (hi.x as i64 - lo.x as i64 + 1) as u64;
                let height = (hi.y as i64 - lo.y as i64 + 1) as u64;
                assert(bounded_by(self@, lo@, hi@) && width == hi@.0 - lo@.0 + 1 && height == hi@.1
                    - lo@.1 + 1);
                (width, height)
            },
            None => (0, 0),
        }
    }}

} // verus!

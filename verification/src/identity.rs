//! When two chains are the same chain, and a number that the same chains
//! share. Neither depends on the order in which the cells were put down.

use vstd::prelude::*;
use vstd::std_specs::cmp::PartialEqSpecImpl;
use crate::amino::Amino;
use crate::peptide::{cells_of, keys_distinct, lemma_cells_entry, Cells, Peptide};
use crate::score::energy;
use crate::sum::{first_keys, lemma_first_keys_ends, lemma_first_keys_step, lemma_sum_insert, sum_over};

verus! {

/// The number of values of a digest.
pub open spec fn digest_modulus() -> int {
    0x1_0000_0000_0000_0000
}

/// The number that stands for one occupied cell in the digest of a chain.
pub open spec fn cell_code(p: (int, int), a: Amino) -> int {
    let key = (p.0 + 0x8000_0000) * 0x1_0000_0000 + (p.1 + 0x8000_0000);
    let load = a.amino.rank() * 256 + a.children.bits_spec();
    ((key * 0x9E37_79B9_7F4A_7C15) % digest_modulus() + load * 0xC2B2_AE3D_27D4_EB4F
        + 0x1656_67B1_9E37_79F9) % digest_modulus()
}

/// `cell_code` as a function of the cell of a chain.
pub open spec fn cell_code_in(m: Cells) -> spec_fn((int, int)) -> int {
    |p: (int, int)| cell_code(p, m[p])
}

/// The digest of a chain: the sum of the codes of its cells, reduced.
pub open spec fn digest_of(m: Cells) -> int {
    sum_over(m.dom(), cell_code_in(m)) % digest_modulus()
}

impl Peptide {
    /// Whether the two chains occupy the same cells with the same amino
    /// acids and bonds.
    pub fn same_cells(&self, other: &Peptide) -> (r: bool)
        ensures
            r == (self@ == other@),
    {
        let n = self.len();
        if n != other.len() {
            return false;
        }
        let cells = self.cells();
        let mut i: usize = 0;
        while i < n
            invariant
                i <= n,
                n == cells@.len(),
                keys_distinct(cells@),
                cells_of(cells@) == self@,
                forall|k: int|
                    0 <= k < i ==> other@.contains_key((#[trigger] cells@[k]).0@) && other@[cells@[k].0@]
                        == cells@[k].1,
            decreases n - i,
        {
            proof {
                lemma_cells_entry(cells@, i as int);
            }
            match other.get(cells[i].0) {
                Some(there) => {
                    if there != cells[i].1 {
                        return false;
                    }
                },
                None => {
                    return false;
                },
            }
            i += 1;
        }
        proof {
            assert forall|k: (int, int)| self@.contains_key(k) implies other@.contains_key(k)
                && other@[k] == self@[k] by {
                let j = choose|j: int| 0 <= j < cells@.len() && (#[trigger] cells@[j]).0@ == k;
                lemma_cells_entry(cells@, j);
            }
            assert(self@.dom().subset_of(other@.dom()));
            vstd::set_lib::lemma_subset_equality(self@.dom(), other@.dom());
            assert(self@ =~= other@);
        }
        true
    }

    /// A number that is the same for chains with the same cells.
    pub fn digest(&self) -> (r: u64)
        ensures
            r == digest_of(self@),
    {
        let cells = self.cells();
        let n = cells.len();
        let ghost m = self@;
        let mut total: u64 = 0;
        let mut i: usize = 0;
        proof {
            lemma_first_keys_ends(cells@);
        }
        while i < n
            invariant
                i <= n,
                n == cells@.len(),
                keys_distinct(cells@),
                cells_of(cells@) == m,
                total == sum_over(first_keys(cells@, i as int), cell_code_in(m)) % digest_modulus(),
            decreases n - i,
        {
            let pos = cells[i].0;
            let amino = cells[i].1;
            let kx: u128 = (pos.x as i64 + 0x8000_0000) as u128;
            let ky: u128 = (pos.y as i64 + 0x8000_0000) as u128;
            let key: u128 = kx * 0x1_0000_0000 + ky;
            let load: u128 = (amino.amino.index() as u128) * 256 + (amino.children.bits() as u128);
            let spread: u128 = (key * 0x9E37_79B9_7F4A_7C15) % 0x1_0000_0000_0000_0000;
            let code: u128 = (spread + load * 0xC2B2_AE3D_27D4_EB4F + 0x1656_67B1_9E37_79F9)
                % 0x1_0000_0000_0000_0000;
            proof {
                lemma_cells_entry(cells@, i as int);
                lemma_first_keys_step(cells@, i as int);
                lemma_sum_insert(first_keys(cells@, i as int), cell_code_in(m), pos@);
                assert(code == cell_code(pos@, amino));
                vstd::arithmetic::div_mod::lemma_add_mod_noop(
                    sum_over(first_keys(cells@, i as int), cell_code_in(m)),
                    code as int,
                    digest_modulus(),
                );
                vstd::arithmetic::div_mod::lemma_small_mod(code as nat, digest_modulus() as nat);
            }
            total = ((total as u128 + code) % 0x1_0000_0000_0000_0000) as u64;
            i += 1;
        }
        proof {
            lemma_first_keys_ends(cells@);
        }
        total
    }
}

impl PartialEq for Peptide {
    fn eq(&self, other: &Peptide) -> (r: bool) {
        self.same_cells(other)
    }
}

impl Eq for Peptide {

}

impl PartialEqSpecImpl for Peptide {
    open spec fn obeys_eq_spec() -> bool {
        true
    }

    open spec fn eq_spec(&self, other: &Peptide) -> bool {
        self@ == other@
    }
}

/// The cells of a chain do not remember the order in which they were put
/// down: two insertions at different positions give the same chain in
/// either order, with the same digest and the same energy.
pub proof fn law_insertion_order(m: Cells, p: (int, int), a: Amino, q: (int, int), b: Amino)
    requires
        p != q,
    ensures
        m.insert(p, a).insert(q, b) == m.insert(q, b).insert(p, a),
        digest_of(m.insert(p, a).insert(q, b)) == digest_of(m.insert(q, b).insert(p, a)),
        energy(m.insert(p, a).insert(q, b)) == energy(m.insert(q, b).insert(p, a)),
{
    assert(m.insert(p, a).insert(q, b) =~= m.insert(q, b).insert(p, a));
}

} // verus!

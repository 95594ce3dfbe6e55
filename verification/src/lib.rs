//! Branching peptide chains on a square lattice: the tree of amino acids, its
//! energy, the matching of a built chain against a level's shape, and the
//! exhaustive search for the range of energies a level allows.

pub mod pos;
pub mod direction;
pub mod amino;
pub mod peptide;
pub mod tree;
pub mod grow;
pub mod path;
pub mod remove;
pub mod first;
pub mod extent;
pub mod sum;
pub mod score;
pub mod identity;
pub mod level;
pub mod seen;
pub mod search;
pub mod text;
pub mod random;
pub mod generate;

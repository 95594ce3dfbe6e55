use peptide_synth::amino::{Amino, AminoType};
use peptide_synth::direction::{Direction, Directions};
use peptide_synth::peptide::Peptide;
use peptide_synth::pos::Pos;
use peptide_synth::score::{Score, MAX_SPAN, SCALE};

fn straight(kinds: &[AminoType]) -> Peptide {
    let mut chain = Peptide::root(kinds[0]);
    for (i, kind) in kinds.iter().enumerate().skip(1) {
        assert!(chain.attach(Pos::new(i as i32 - 1, 0), Direction::Right, *kind));
    }
    chain
}

fn as_float(score: Score) -> f64 {
    score.units as f64 / SCALE as f64
}

#[test]
fn scale_is_divisible_by_every_distance_up_to_the_span() {
    assert_eq!(SCALE % 2, 0);
    for d in 1..=MAX_SPAN as i128 {
        assert_eq!(SCALE % d, 0);
    }
    assert_ne!(SCALE % 25, 0);
}

#[test]
fn single_units_cost_and_expose_four_sides() {
    assert_eq!(Peptide::root(AminoType::Ala).score().units, SCALE);
    assert_eq!(Peptide::root(AminoType::Leu).score().units, (2 - 8) * SCALE);
    assert_eq!(Peptide::root(AminoType::Phe).score().units, (3 - 8) * SCALE);
    assert_eq!(Peptide::root(AminoType::Cys).score().units, (3 - 4) * SCALE);
    assert_eq!(Peptide::root(AminoType::Asp).score().units, (4 + 4) * SCALE);
    assert_eq!(Peptide::root(AminoType::Arg).score().units, (4 + 4) * SCALE);
    assert_eq!(Peptide::new().score().units, 0);
}

#[test]
fn bonded_pair_gets_no_adjacency_bonus() {
    // Arg bonded to Asp on its right. Costs 4 + 4; three open sides each at
    // hydrophobic energy 1; the charges +1 and -1 at distance 1, counted
    // from both cells. The pair is bonded, so its bonus of -10 stays out.
    let chain = straight(&[AminoType::Arg, AminoType::Asp]);
    assert_eq!(chain.score().units, (8 + 6 - 2) * SCALE);
    assert_eq!(as_float(chain.score()), 12.0);
}

#[test]
fn bonded_pair_without_hydrophobic_energy() {
    // The cost and the electrostatic term alone: what is left of the energy
    // of the bonded pair once the hydrophobic term of its six open sides is
    // taken away.
    let chain = straight(&[AminoType::Arg, AminoType::Asp]);
    let hydrophobic = (AminoType::Arg.hydrophobic() * 3 + AminoType::Asp.hydrophobic() * 3) as i128;
    assert_eq!(chain.score().units - hydrophobic * SCALE, (4 + 4 - 2) * SCALE);
}

#[test]
fn unbonded_neighbours_share_their_bonus() {
    // Arg, Ala, Ala, Asp folded into a square: Arg and Asp are neighbours
    // without a bond. Costs 10; two open sides each for Arg and Asp; the
    // bonus -10 in two halves; the charges at distance 1 from both cells.
    let mut chain = Peptide::root(AminoType::Arg);
    assert!(chain.attach(Pos::new(0, 0), Direction::Right, AminoType::Ala));
    assert!(chain.attach(Pos::new(1, 0), Direction::Up, AminoType::Ala));
    assert!(chain.attach(Pos::new(1, 1), Direction::Left, AminoType::Asp));
    assert_eq!(chain.score().units, (10 + 4 - 10 - 2) * SCALE);
}

#[test]
fn half_a_bonus_is_counted_where_only_one_side_lists_the_pair() {
    // Ala lists Cys at -2; Cys does not list Ala. Root Cys, Leu to its
    // right, Phe above that, Ala to the left of that: Ala lies above the
    // root without a bond.
    let mut chain = Peptide::root(AminoType::Cys);
    assert!(chain.attach(Pos::new(0, 0), Direction::Right, AminoType::Leu));
    assert!(chain.attach(Pos::new(1, 0), Direction::Up, AminoType::Phe));
    assert!(chain.attach(Pos::new(1, 1), Direction::Left, AminoType::Ala));
    let costs = 3 + 2 + 3 + 1;
    let hydrophobic = -1 * 2 + -2 * 2 + -2 * 2 + 0;
    let expected = (costs + hydrophobic) * SCALE + (SCALE / 2) * -2;
    assert_eq!(chain.score().units, expected);
    assert_eq!(as_float(chain.score()), 9.0 - 10.0 - 1.0);
}

#[test]
fn charges_are_divided_by_their_distance() {
    let two = straight(&[AminoType::Arg, AminoType::Ala, AminoType::Asp]);
    assert_eq!(two.score().units, (9 + 6) * SCALE - 2 * (SCALE / 2));
    let three = straight(&[AminoType::Arg, AminoType::Ala, AminoType::Ala, AminoType::Asp]);
    assert_eq!(three.score().units, (10 + 6) * SCALE - 2 * (SCALE / 3));
    let like = straight(&[AminoType::Arg, AminoType::Ala, AminoType::Ala, AminoType::Arg]);
    assert_eq!(like.score().units, (10 + 6) * SCALE + 2 * (SCALE / 3));
    assert!((as_float(three.score()) - (16.0 - 2.0 / 3.0)).abs() < 1e-9);
}

#[test]
fn charges_beyond_the_span_are_counted_in_whole_units() {
    let mut far = Peptide::new();
    far.insert(Pos::new(0, 0), Amino { amino: AminoType::Arg, children: Directions::empty() });
    far.insert(Pos::new(25, 0), Amino { amino: AminoType::Asp, children: Directions::empty() });
    assert_eq!(far.score().units, (8 + 8) * SCALE - 2 * (SCALE / 25));
    assert!((as_float(far.score()) - (16.0 - 2.0 / 25.0)).abs() < 1e-9);
}

#[test]
fn covered_sides_carry_no_hydrophobic_energy() {
    // A Leu with all four sides covered by Ala.
    let mut chain = Peptide::root(AminoType::Leu);
    for dir in Direction::all() {
        assert!(chain.attach(Pos::new(0, 0), dir, AminoType::Ala));
    }
    assert_eq!(chain.score().units, (2 + 4) * SCALE);
}

#[test]
fn score_depends_on_the_fold() {
    let open = straight(&[AminoType::Cys, AminoType::Ala, AminoType::Ala, AminoType::Cys]);
    let mut folded = Peptide::root(AminoType::Cys);
    assert!(folded.attach(Pos::new(0, 0), Direction::Right, AminoType::Ala));
    assert!(folded.attach(Pos::new(1, 0), Direction::Up, AminoType::Ala));
    assert!(folded.attach(Pos::new(1, 1), Direction::Left, AminoType::Cys));
    assert_eq!(open.score().units, (8 - 6) * SCALE);
    assert_eq!(folded.score().units, (8 - 4 - 12) * SCALE);
    assert!(folded.score().units < open.score().units);
}

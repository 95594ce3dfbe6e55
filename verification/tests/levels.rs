use peptide_synth::amino::{Amino, AminoType};
use peptide_synth::direction::{Direction, Directions};
use peptide_synth::level::{Level, Placement};
use peptide_synth::peptide::Peptide;
use peptide_synth::pos::Pos;
use peptide_synth::score::Score;
use peptide_synth::tree::ShapeError;

fn leaf(kind: AminoType) -> Amino {
    Amino { amino: kind, children: Directions::empty() }
}

fn level_of(shape: Peptide) -> Level {
    let range = (Score { units: 0 }, Score { units: 0 });
    Level::new(String::from("Test"), String::from("A test level."), range, shape).unwrap()
}

/// Root R with one C child to its right.
fn one_child() -> Level {
    let mut shape = Peptide::root(AminoType::Arg);
    assert!(shape.attach(Pos::new(0, 0), Direction::Right, AminoType::Cys));
    level_of(shape)
}

/// Root R; A to its right with D beyond; L above the root.
fn branched() -> Level {
    let mut shape = Peptide::root(AminoType::Arg);
    assert!(shape.attach(Pos::new(0, 0), Direction::Right, AminoType::Ala));
    assert!(shape.attach(Pos::new(1, 0), Direction::Right, AminoType::Asp));
    assert!(shape.attach(Pos::new(0, 0), Direction::Up, AminoType::Leu));
    level_of(shape)
}

fn sorted(mut moves: Vec<Placement>) -> Vec<(u8, i32, i32, i32)> {
    let mut keys: Vec<(u8, i32, i32, i32)> = moves
        .drain(..)
        .map(|mv| (mv.0.index(), mv.1.x, mv.1.y, mv.2.rank_of()))
        .collect();
    keys.sort();
    keys
}

trait RankOf {
    fn rank_of(&self) -> i32;
}

impl RankOf for Direction {
    fn rank_of(&self) -> i32 {
        Direction::all().iter().position(|d| d == self).unwrap() as i32
    }
}

#[test]
fn level_keeps_what_it_was_made_of() {
    let mut shape = Peptide::root(AminoType::Arg);
    assert!(shape.attach(Pos::new(0, 0), Direction::Right, AminoType::Cys));
    let range = (Score { units: -5 }, Score { units: 9 });
    let level = Level::new(String::from("One"), String::from("The first."), range, shape.clone())
        .unwrap();
    assert_eq!(level.title(), "One");
    assert_eq!(level.description(), "The first.");
    assert_eq!(level.range(), range);
    assert!(*level.peptide() == shape);
    assert_eq!(level.get(Pos::new(1, 0)), Some(leaf(AminoType::Cys)));
    assert_eq!(level.get(Pos::new(0, 1)), None);
}

#[test]
fn set_range_records_the_range() {
    let mut level = one_child();
    let range = (Score { units: 3 }, Score { units: 4 });
    level.set_range(range);
    assert_eq!(level.range(), range);
    assert_eq!(level.title(), "Test");
}

#[test]
fn level_rejects_a_shape_that_is_no_chain() {
    let range = (Score { units: 0 }, Score { units: 0 });
    let apart = Peptide::from_cells(vec![
        (Pos::new(0, 0), leaf(AminoType::Arg)),
        (Pos::new(3, 0), leaf(AminoType::Ala)),
    ])
    .unwrap();
    let made = Level::new(String::new(), String::new(), range, apart);
    assert_eq!(made.err(), Some(ShapeError::Disconnected));
    let made = Level::new(String::new(), String::new(), range, Peptide::new());
    assert_eq!(made.err(), Some(ShapeError::NoRoot));
}

#[test]
fn for_level_starts_with_the_root_alone() {
    let start = Peptide::for_level(&branched());
    assert!(start == Peptide::root(AminoType::Arg));
}

#[test]
fn options_offer_each_free_cell_beside_the_root() {
    let level = one_child();
    let chain = Peptide::for_level(&level);
    assert_eq!(
        level.options(&chain),
        vec![
            (AminoType::Cys, Pos::new(0, 1), Direction::Up),
            (AminoType::Cys, Pos::new(1, 0), Direction::Right),
            (AminoType::Cys, Pos::new(0, -1), Direction::Down),
            (AminoType::Cys, Pos::new(-1, 0), Direction::Left),
        ]
    );
}

#[test]
fn options_follow_the_address_not_the_layout() {
    // The chain is laid out otherwise than the shape: A below the root.
    let level = branched();
    let mut chain = Peptide::for_level(&level);
    assert!(chain.attach(Pos::new(0, 0), Direction::Down, AminoType::Ala));
    let moves = sorted(level.options(&chain));
    let leu = AminoType::Leu.index();
    let asp = AminoType::Asp.index();
    let mut expected = vec![
        // L at the three free cells beside the root
        (leu, 0, 1, 0),
        (leu, 1, 0, 1),
        (leu, -1, 0, 3),
        // D at the three free cells beside the A
        (asp, 1, -1, 1),
        (asp, 0, -2, 2),
        (asp, -1, -1, 3),
    ];
    expected.sort();
    assert_eq!(moves, expected);
}

#[test]
fn options_are_empty_once_the_chain_is_complete() {
    let level = branched();
    let mut chain = Peptide::for_level(&level);
    assert!(chain.attach(Pos::new(0, 0), Direction::Down, AminoType::Ala));
    assert!(chain.attach(Pos::new(0, -1), Direction::Down, AminoType::Asp));
    assert!(chain.attach(Pos::new(0, 0), Direction::Left, AminoType::Leu));
    assert!(level.options(&chain).is_empty());
}

#[test]
fn options_cap_the_children_of_a_kind() {
    // The shape wants exactly one C at the root.
    let level = one_child();
    let mut chain = Peptide::for_level(&level);
    assert_eq!(level.options(&chain).len(), 4);
    // Two C children are put at the root directly, past `options`.
    chain.insert(Pos::new(0, 1), leaf(AminoType::Cys));
    assert!(chain.bond(Pos::new(0, 0), Direction::Up));
    chain.insert(Pos::new(-1, 0), leaf(AminoType::Cys));
    assert!(chain.bond(Pos::new(0, 0), Direction::Left));
    assert_eq!(chain.children_of_type(Pos::new(0, 0), AminoType::Cys), 2);
    let moves = level.options(&chain);
    assert!(moves.iter().all(|mv| mv.0 != AminoType::Cys));
    assert!(moves.is_empty());
}

#[test]
fn options_count_children_by_kind() {
    // The shape has two A children and one C child at the root.
    let mut shape = Peptide::root(AminoType::Arg);
    assert!(shape.attach(Pos::new(0, 0), Direction::Up, AminoType::Ala));
    assert!(shape.attach(Pos::new(0, 0), Direction::Right, AminoType::Ala));
    assert!(shape.attach(Pos::new(0, 0), Direction::Down, AminoType::Cys));
    let level = level_of(shape);
    let mut chain = Peptide::for_level(&level);
    assert!(chain.attach(Pos::new(0, 0), Direction::Left, AminoType::Ala));
    let kinds = |moves: &Vec<Placement>, kind: AminoType| {
        moves.iter().filter(|mv| mv.0 == kind).count()
    };
    let moves = level.options(&chain);
    // each of the two A bonds of the shape offers the three free cells
    assert_eq!(kinds(&moves, AminoType::Ala), 6);
    assert_eq!(kinds(&moves, AminoType::Cys), 3);
    assert!(chain.attach(Pos::new(0, 0), Direction::Up, AminoType::Ala));
    let moves = level.options(&chain);
    assert_eq!(kinds(&moves, AminoType::Ala), 0);
    assert_eq!(kinds(&moves, AminoType::Cys), 2);
}

#[test]
fn options_skip_a_cell_whose_address_the_shape_lacks() {
    let level = one_child();
    let mut chain = Peptide::for_level(&level);
    assert!(chain.attach(Pos::new(0, 0), Direction::Up, AminoType::Leu));
    // the root has no C yet: four cells minus the one the L stands on
    let moves = level.options(&chain);
    assert_eq!(moves.len(), 3);
    assert!(moves.iter().all(|mv| mv.0 == AminoType::Cys));
    assert!(moves.iter().all(|mv| mv.1.neighbor(mv.2.opposite()) == Some(Pos::new(0, 0))));
}

#[test]
fn every_option_can_be_attached() {
    let level = branched();
    let mut chain = Peptide::for_level(&level);
    assert!(chain.attach(Pos::new(0, 0), Direction::Right, AminoType::Ala));
    for (kind, pos, dir) in level.options(&chain) {
        let parent = pos.neighbor(dir.opposite()).unwrap();
        let mut next = chain.clone();
        assert!(next.attach(parent, dir, kind));
        assert_eq!(next.get(pos), Some(leaf(kind)));
        assert_eq!(next.validate(), Ok(()));
    }
}

#[test]
fn options_list_each_placement_once_per_bond_of_the_shape() {
    // Arg with a Leu to its right; the chain is the root alone.
    let mut shape = Peptide::root(AminoType::Arg);
    assert!(shape.attach(Pos::new(0, 0), Direction::Right, AminoType::Leu));
    let level = level_of(shape);
    let chain = Peptide::for_level(&level);
    assert_eq!(
        level.options(&chain),
        vec![
            (AminoType::Leu, Pos::new(0, 1), Direction::Up),
            (AminoType::Leu, Pos::new(1, 0), Direction::Right),
            (AminoType::Leu, Pos::new(0, -1), Direction::Down),
            (AminoType::Leu, Pos::new(-1, 0), Direction::Left),
        ]
    );
    // Two bonds of the shape's root lead to a Leu: each placement twice.
    let mut shape = Peptide::root(AminoType::Arg);
    assert!(shape.attach(Pos::new(0, 0), Direction::Right, AminoType::Leu));
    assert!(shape.attach(Pos::new(0, 0), Direction::Down, AminoType::Leu));
    let level = level_of(shape);
    let chain = Peptide::for_level(&level);
    let moves = level.options(&chain);
    assert_eq!(moves.len(), 8);
    for dir in Direction::all() {
        let mv = (AminoType::Leu, Pos::new(0, 0).neighbor(dir).unwrap(), dir);
        assert_eq!(moves.iter().filter(|m| **m == mv).count(), 2);
    }
}

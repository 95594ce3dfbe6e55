use peptide_synth::amino::{Amino, AminoType};
use peptide_synth::direction::{Direction, Directions};
use peptide_synth::peptide::Peptide;
use peptide_synth::pos::Pos;
use peptide_synth::tree::ShapeError;

fn leaf(kind: AminoType) -> Amino {
    Amino { amino: kind, children: Directions::empty() }
}

fn with_bonds(kind: AminoType, bonds: &[Direction]) -> Amino {
    let mut children = Directions::empty();
    for dir in bonds {
        children.set(*dir);
    }
    Amino { amino: kind, children }
}

/// Root R; A to its right with D beyond and C above it; L below the root.
fn sample() -> Peptide {
    let mut chain = Peptide::root(AminoType::Arg);
    assert!(chain.attach(Pos::new(0, 0), Direction::Right, AminoType::Ala));
    assert!(chain.attach(Pos::new(1, 0), Direction::Right, AminoType::Asp));
    assert!(chain.attach(Pos::new(1, 0), Direction::Up, AminoType::Cys));
    assert!(chain.attach(Pos::new(0, 0), Direction::Down, AminoType::Leu));
    chain
}

#[test]
fn new_chain_is_empty() {
    let chain = Peptide::new();
    assert_eq!(chain.len(), 0);
    assert_eq!(chain.get(Pos::new(0, 0)), None);
    assert!(chain.positions().is_empty());
    assert!(chain.cells().is_empty());
}

#[test]
fn root_holds_one_unit_without_bonds() {
    let chain = Peptide::root(AminoType::Phe);
    assert_eq!(chain.len(), 1);
    assert_eq!(chain.get(Pos::zeros()), Some(leaf(AminoType::Phe)));
    assert_eq!(chain.validate(), Ok(()));
}

#[test]
fn insert_puts_and_replaces() {
    let mut chain = Peptide::new();
    chain.insert(Pos::new(2, 3), leaf(AminoType::Ala));
    assert_eq!(chain.len(), 1);
    assert!(chain.contains_key(Pos::new(2, 3)));
    assert!(!chain.contains_key(Pos::new(3, 2)));
    chain.insert(Pos::new(2, 3), leaf(AminoType::Cys));
    assert_eq!(chain.len(), 1);
    assert_eq!(chain.get(Pos::new(2, 3)), Some(leaf(AminoType::Cys)));
}

#[test]
fn take_empties_one_cell() {
    let mut chain = Peptide::new();
    chain.insert(Pos::new(0, 0), leaf(AminoType::Ala));
    chain.insert(Pos::new(1, 0), leaf(AminoType::Cys));
    chain.insert(Pos::new(2, 0), leaf(AminoType::Asp));
    assert_eq!(chain.take(Pos::new(0, 0)), Some(leaf(AminoType::Ala)));
    assert_eq!(chain.take(Pos::new(0, 0)), None);
    assert_eq!(chain.len(), 2);
    assert_eq!(chain.get(Pos::new(1, 0)), Some(leaf(AminoType::Cys)));
    assert_eq!(chain.get(Pos::new(2, 0)), Some(leaf(AminoType::Asp)));
}

#[test]
fn insertion_in_two_steps_equals_attach() {
    let mut by_steps = Peptide::root(AminoType::Arg);
    by_steps.insert(Pos::new(0, 1), leaf(AminoType::Asp));
    assert!(by_steps.bond(Pos::new(0, 0), Direction::Up));
    let mut at_once = Peptide::root(AminoType::Arg);
    assert!(at_once.attach(Pos::new(0, 0), Direction::Up, AminoType::Asp));
    assert!(by_steps == at_once);
    assert_eq!(by_steps.validate(), Ok(()));
}

#[test]
fn bond_on_an_empty_cell_does_nothing() {
    let mut chain = Peptide::root(AminoType::Arg);
    let before = chain.clone();
    assert!(!chain.bond(Pos::new(4, 4), Direction::Up));
    assert!(!chain.unbond(Pos::new(4, 4), Direction::Up));
    assert!(chain == before);
}

#[test]
fn attach_needs_an_occupied_parent_and_a_free_cell() {
    let mut chain = sample();
    let before = chain.clone();
    assert!(!chain.attach(Pos::new(5, 5), Direction::Up, AminoType::Ala));
    assert!(!chain.attach(Pos::new(0, 0), Direction::Right, AminoType::Ala));
    assert!(!chain.attach(Pos::new(1, 0), Direction::Left, AminoType::Ala));
    assert!(chain == before);
    let mut edge = Peptide::new();
    edge.insert(Pos::new(i32::MAX, 0), leaf(AminoType::Ala));
    assert!(!edge.attach(Pos::new(i32::MAX, 0), Direction::Right, AminoType::Ala));
    assert_eq!(edge.len(), 1);
}

#[test]
fn attach_flags_the_bond_on_the_parent() {
    let chain = sample();
    assert_eq!(chain.len(), 5);
    assert_eq!(
        chain.get(Pos::new(0, 0)),
        Some(with_bonds(AminoType::Arg, &[Direction::Right, Direction::Down]))
    );
    assert_eq!(
        chain.get(Pos::new(1, 0)),
        Some(with_bonds(AminoType::Ala, &[Direction::Right, Direction::Up]))
    );
    assert_eq!(chain.get(Pos::new(2, 0)), Some(leaf(AminoType::Asp)));
    assert_eq!(chain.get(Pos::new(1, 1)), Some(leaf(AminoType::Cys)));
    assert_eq!(chain.get(Pos::new(0, -1)), Some(leaf(AminoType::Leu)));
    assert_eq!(chain.validate(), Ok(()));
}

#[test]
fn chains_do_not_remember_insertion_order() {
    let mut a = Peptide::root(AminoType::Arg);
    assert!(a.attach(Pos::new(0, 0), Direction::Right, AminoType::Ala));
    assert!(a.attach(Pos::new(0, 0), Direction::Up, AminoType::Asp));
    assert!(a.attach(Pos::new(1, 0), Direction::Right, AminoType::Cys));
    let mut b = Peptide::root(AminoType::Arg);
    assert!(b.attach(Pos::new(0, 0), Direction::Up, AminoType::Asp));
    assert!(b.attach(Pos::new(0, 0), Direction::Right, AminoType::Ala));
    assert!(b.attach(Pos::new(1, 0), Direction::Right, AminoType::Cys));
    assert!(a == b);
    assert!(a.same_cells(&b));
    assert_eq!(a.digest(), b.digest());
    assert_eq!(a.score(), b.score());
    let listed = Peptide::from_cells(vec![
        (Pos::new(2, 0), leaf(AminoType::Cys)),
        (Pos::new(0, 1), leaf(AminoType::Asp)),
        (Pos::new(1, 0), with_bonds(AminoType::Ala, &[Direction::Right])),
        (Pos::new(0, 0), with_bonds(AminoType::Arg, &[Direction::Up, Direction::Right])),
    ])
    .unwrap();
    assert!(listed == a);
    assert_eq!(listed.digest(), a.digest());
    assert_eq!(listed.score(), a.score());
}

#[test]
fn different_chains_are_unequal() {
    let a = sample();
    let mut b = sample();
    assert!(a == b);
    assert!(b.attach(Pos::new(2, 0), Direction::Up, AminoType::Ala));
    assert!(a != b);
    let mut c = Peptide::root(AminoType::Arg);
    assert!(c.attach(Pos::new(0, 0), Direction::Right, AminoType::Asp));
    let mut d = Peptide::root(AminoType::Arg);
    assert!(d.attach(Pos::new(0, 0), Direction::Right, AminoType::Ala));
    assert!(c != d);
    assert_ne!(c.digest(), d.digest());
    let mut e = Peptide::root(AminoType::Arg);
    assert!(e.attach(Pos::new(0, 0), Direction::Up, AminoType::Asp));
    assert!(c != e);
    assert_ne!(c.digest(), e.digest());
}

#[test]
fn clone_is_a_chain_of_its_own() {
    let a = sample();
    let mut b = a.clone();
    assert!(a == b);
    assert!(b.attach(Pos::new(0, -1), Direction::Down, AminoType::Ala));
    assert_eq!(a.len(), 5);
    assert_eq!(b.len(), 6);
}

#[test]
fn from_cells_rejects_a_position_listed_twice() {
    let cells = vec![
        (Pos::new(0, 0), leaf(AminoType::Arg)),
        (Pos::new(1, 0), leaf(AminoType::Ala)),
        (Pos::new(0, 0), leaf(AminoType::Asp)),
    ];
    assert_eq!(Peptide::from_cells(cells).err(), Some(ShapeError::DuplicatePosition));
}

#[test]
fn positions_and_cells_list_each_cell_once() {
    let chain = sample();
    let mut positions = chain.positions();
    positions.sort_by_key(|p| (p.x, p.y));
    assert_eq!(
        positions,
        vec![
            Pos::new(0, -1),
            Pos::new(0, 0),
            Pos::new(1, 0),
            Pos::new(1, 1),
            Pos::new(2, 0)
        ]
    );
    let cells = chain.cells();
    assert_eq!(cells.len(), 5);
    for (pos, amino) in cells {
        assert_eq!(chain.get(pos), Some(amino));
    }
}

#[test]
fn children_of_type_counts_bonded_children() {
    let mut chain = Peptide::root(AminoType::Arg);
    assert!(chain.attach(Pos::new(0, 0), Direction::Up, AminoType::Cys));
    assert!(chain.attach(Pos::new(0, 0), Direction::Left, AminoType::Cys));
    assert!(chain.attach(Pos::new(0, 0), Direction::Right, AminoType::Ala));
    assert!(chain.attach(Pos::new(1, 0), Direction::Down, AminoType::Cys));
    assert_eq!(chain.children_of_type(Pos::new(0, 0), AminoType::Cys), 2);
    assert_eq!(chain.children_of_type(Pos::new(0, 0), AminoType::Ala), 1);
    assert_eq!(chain.children_of_type(Pos::new(0, 0), AminoType::Asp), 0);
    assert_eq!(chain.children_of_type(Pos::new(1, 0), AminoType::Cys), 1);
    assert_eq!(chain.children_of_type(Pos::new(1, -1), AminoType::Cys), 0);
    assert_eq!(chain.children_of_type(Pos::new(9, 9), AminoType::Cys), 0);
    assert!(chain.child_is(Pos::new(0, 0), Direction::Up, AminoType::Cys));
    assert!(!chain.child_is(Pos::new(0, 0), Direction::Up, AminoType::Ala));
    assert!(!chain.child_is(Pos::new(0, 0), Direction::Down, AminoType::Cys));
}

#[test]
fn neighbours_without_a_bond_are_no_children() {
    // (1, 1) lies beside (0, 1) but is the child of (1, 0).
    let mut chain = Peptide::root(AminoType::Arg);
    assert!(chain.attach(Pos::new(0, 0), Direction::Up, AminoType::Ala));
    assert!(chain.attach(Pos::new(0, 0), Direction::Right, AminoType::Ala));
    assert!(chain.attach(Pos::new(1, 0), Direction::Up, AminoType::Cys));
    assert_eq!(chain.children_of_type(Pos::new(0, 1), AminoType::Cys), 0);
    assert_eq!(chain.parent(Pos::new(1, 1)), Some((Pos::new(1, 0), Direction::Down)));
}

#[test]
fn parent_is_the_cell_that_holds_the_bond() {
    let chain = sample();
    assert_eq!(chain.parent(Pos::new(0, 0)), None);
    assert_eq!(chain.parent(Pos::new(1, 0)), Some((Pos::new(0, 0), Direction::Left)));
    assert_eq!(chain.parent(Pos::new(2, 0)), Some((Pos::new(1, 0), Direction::Left)));
    assert_eq!(chain.parent(Pos::new(1, 1)), Some((Pos::new(1, 0), Direction::Down)));
    assert_eq!(chain.parent(Pos::new(0, -1)), Some((Pos::new(0, 0), Direction::Up)));
    assert_eq!(chain.parent(Pos::new(7, 7)), None);
    assert_eq!(chain.holder(Pos::new(1, 0), Direction::Left), Some(Pos::new(0, 0)));
    assert_eq!(chain.holder(Pos::new(1, 0), Direction::Right), None);
}

#[test]
fn path_of_the_root_is_empty() {
    let chain = sample();
    assert_eq!(chain.path(Pos::new(0, 0)), vec![]);
    assert_eq!(Peptide::root(AminoType::Ala).path(Pos::zeros()), vec![]);
}

#[test]
fn path_holds_one_kind_for_each_bond() {
    let chain = sample();
    assert_eq!(chain.path(Pos::new(1, 0)), vec![AminoType::Ala]);
    assert_eq!(chain.path(Pos::new(2, 0)), vec![AminoType::Ala, AminoType::Asp]);
    assert_eq!(chain.path(Pos::new(1, 1)), vec![AminoType::Ala, AminoType::Cys]);
    assert_eq!(chain.path(Pos::new(0, -1)), vec![AminoType::Leu]);
    let mut long = Peptide::root(AminoType::Arg);
    let kinds = [AminoType::Ala, AminoType::Cys, AminoType::Asp, AminoType::Phe, AminoType::Leu];
    for (i, kind) in kinds.iter().enumerate() {
        assert!(long.attach(Pos::new(i as i32, 0), Direction::Right, *kind));
    }
    for k in 0..=kinds.len() {
        assert_eq!(long.path(Pos::new(k as i32, 0)), kinds[..k].to_vec());
    }
}

#[test]
fn path_of_a_cell_outside_the_chain_is_empty() {
    let mut chain = sample();
    assert_eq!(chain.path(Pos::new(5, 5)), vec![]);
    chain.insert(Pos::new(5, 5), leaf(AminoType::Ala));
    assert_eq!(chain.path(Pos::new(5, 5)), vec![]);
}

#[test]
fn find_follows_the_kinds_from_the_root() {
    let chain = sample();
    assert_eq!(chain.find(&[]), Some(Pos::new(0, 0)));
    assert_eq!(chain.find(&[AminoType::Ala]), Some(Pos::new(1, 0)));
    assert_eq!(chain.find(&[AminoType::Ala, AminoType::Asp]), Some(Pos::new(2, 0)));
    assert_eq!(chain.find(&[AminoType::Ala, AminoType::Cys]), Some(Pos::new(1, 1)));
    assert_eq!(chain.find(&[AminoType::Leu]), Some(Pos::new(0, -1)));
    assert_eq!(chain.find(&[AminoType::Cys]), None);
    assert_eq!(chain.find(&[AminoType::Ala, AminoType::Leu]), None);
    assert_eq!(chain.find(&[AminoType::Ala, AminoType::Asp, AminoType::Ala]), None);
}

#[test]
fn find_of_path_is_the_cell_itself() {
    let chain = sample();
    for pos in chain.positions() {
        assert_eq!(chain.find(&chain.path(pos)), Some(pos));
    }
}

#[test]
fn find_takes_the_first_of_equal_addresses() {
    let mut chain = Peptide::root(AminoType::Arg);
    assert!(chain.attach(Pos::new(0, 0), Direction::Left, AminoType::Ala));
    assert!(chain.attach(Pos::new(0, 0), Direction::Right, AminoType::Ala));
    assert!(chain.attach(Pos::new(0, 0), Direction::Down, AminoType::Ala));
    assert_eq!(chain.find(&[AminoType::Ala]), Some(Pos::new(1, 0)));
    assert!(chain.attach(Pos::new(0, 0), Direction::Up, AminoType::Ala));
    assert_eq!(chain.find(&[AminoType::Ala]), Some(Pos::new(0, 1)));
}

#[test]
fn find_goes_back_when_a_branch_ends() {
    // Two A children; only the second one has a C below it.
    let mut chain = Peptide::root(AminoType::Arg);
    assert!(chain.attach(Pos::new(0, 0), Direction::Up, AminoType::Ala));
    assert!(chain.attach(Pos::new(0, 0), Direction::Right, AminoType::Ala));
    assert!(chain.attach(Pos::new(1, 0), Direction::Right, AminoType::Cys));
    assert_eq!(chain.find(&[AminoType::Ala]), Some(Pos::new(0, 1)));
    assert_eq!(chain.find(&[AminoType::Ala, AminoType::Cys]), Some(Pos::new(2, 0)));
}

#[test]
fn remove_takes_out_everything_that_hangs_on_the_cell() {
    // An inner cell with two chains hanging on it, and a sibling.
    let mut chain = Peptide::root(AminoType::Arg);
    assert!(chain.attach(Pos::new(0, 0), Direction::Right, AminoType::Ala));
    assert!(chain.attach(Pos::new(0, 0), Direction::Down, AminoType::Leu));
    assert!(chain.attach(Pos::new(1, 0), Direction::Right, AminoType::Cys));
    assert!(chain.attach(Pos::new(2, 0), Direction::Right, AminoType::Asp));
    assert!(chain.attach(Pos::new(1, 0), Direction::Up, AminoType::Phe));
    assert!(chain.attach(Pos::new(1, 1), Direction::Up, AminoType::Leu));
    assert_eq!(chain.len(), 7);
    chain.remove(Pos::new(1, 0));
    assert_eq!(chain.len(), 2);
    assert_eq!(
        chain.get(Pos::new(0, 0)),
        Some(with_bonds(AminoType::Arg, &[Direction::Down]))
    );
    assert_eq!(chain.get(Pos::new(0, -1)), Some(leaf(AminoType::Leu)));
    for gone in [(1, 0), (2, 0), (3, 0), (1, 1), (1, 2)] {
        assert_eq!(chain.get(Pos::new(gone.0, gone.1)), None);
    }
    assert_eq!(chain.validate(), Ok(()));
}

#[test]
fn remove_of_a_leaf_takes_out_one_cell() {
    let mut chain = sample();
    chain.remove(Pos::new(1, 1));
    assert_eq!(chain.len(), 4);
    assert_eq!(
        chain.get(Pos::new(1, 0)),
        Some(with_bonds(AminoType::Ala, &[Direction::Right]))
    );
    assert_eq!(chain.validate(), Ok(()));
}

#[test]
fn remove_of_the_root_leaves_the_root_alone() {
    let mut chain = sample();
    chain.remove(Pos::new(0, 0));
    assert!(chain == Peptide::root(AminoType::Arg));
}

#[test]
fn remove_of_an_empty_cell_changes_nothing() {
    let mut chain = sample();
    chain.remove(Pos::new(4, 4));
    assert!(chain == sample());
}

#[test]
fn attach_after_remove_restores_the_chain() {
    let mut chain = sample();
    chain.remove(Pos::new(2, 0));
    assert!(chain != sample());
    assert!(chain.attach(Pos::new(1, 0), Direction::Right, AminoType::Asp));
    assert!(chain == sample());
}

#[test]
fn bounds_and_size_of_a_chain() {
    let chain = sample();
    assert_eq!(chain.bounds(), Some((Pos::new(0, -1), Pos::new(2, 1))));
    assert_eq!(chain.size(), (3, 3));
    assert_eq!(Peptide::root(AminoType::Ala).size(), (1, 1));
    assert_eq!(Peptide::new().bounds(), None);
    assert_eq!(Peptide::new().size(), (0, 0));
    let mut wide = Peptide::new();
    wide.insert(Pos::new(i32::MIN, 0), leaf(AminoType::Ala));
    wide.insert(Pos::new(i32::MAX, 0), leaf(AminoType::Ala));
    assert_eq!(wide.size(), (1u64 << 32, 1));
}

#[test]
fn validate_accepts_a_tree() {
    assert_eq!(sample().validate(), Ok(()));
}

#[test]
fn validate_misses_the_root() {
    let chain = Peptide::from_cells(vec![(Pos::new(1, 0), leaf(AminoType::Ala))]).unwrap();
    assert_eq!(chain.validate(), Err(ShapeError::NoRoot));
    assert_eq!(Peptide::new().validate(), Err(ShapeError::NoRoot));
}

#[test]
fn validate_finds_a_dangling_bond() {
    let chain = Peptide::from_cells(vec![(
        Pos::new(0, 0),
        with_bonds(AminoType::Arg, &[Direction::Right]),
    )])
    .unwrap();
    assert_eq!(chain.validate(), Err(ShapeError::DanglingBond));
}

#[test]
fn validate_finds_a_cell_with_two_parents() {
    let chain = Peptide::from_cells(vec![
        (Pos::new(0, 0), with_bonds(AminoType::Arg, &[Direction::Right, Direction::Up])),
        (Pos::new(1, 0), with_bonds(AminoType::Ala, &[Direction::Up])),
        (Pos::new(0, 1), with_bonds(AminoType::Ala, &[Direction::Right])),
        (Pos::new(1, 1), leaf(AminoType::Cys)),
    ])
    .unwrap();
    assert_eq!(chain.validate(), Err(ShapeError::Cyclic));
}

#[test]
fn validate_finds_a_bond_into_the_root() {
    let chain = Peptide::from_cells(vec![
        (Pos::new(0, 0), with_bonds(AminoType::Arg, &[Direction::Right])),
        (Pos::new(1, 0), with_bonds(AminoType::Ala, &[Direction::Left])),
    ])
    .unwrap();
    assert_eq!(chain.validate(), Err(ShapeError::Cyclic));
}

#[test]
fn validate_finds_a_cell_apart() {
    let chain = Peptide::from_cells(vec![
        (Pos::new(0, 0), leaf(AminoType::Arg)),
        (Pos::new(5, 5), leaf(AminoType::Ala)),
    ])
    .unwrap();
    assert_eq!(chain.validate(), Err(ShapeError::Disconnected));
}

#[test]
fn validate_finds_a_ring_apart_from_the_root() {
    let chain = Peptide::from_cells(vec![
        (Pos::new(0, 0), leaf(AminoType::Arg)),
        (Pos::new(5, 5), with_bonds(AminoType::Ala, &[Direction::Right])),
        (Pos::new(6, 5), with_bonds(AminoType::Ala, &[Direction::Up])),
        (Pos::new(6, 6), with_bonds(AminoType::Ala, &[Direction::Left])),
        (Pos::new(5, 6), with_bonds(AminoType::Ala, &[Direction::Down])),
    ])
    .unwrap();
    assert_eq!(chain.validate(), Err(ShapeError::Disconnected));
}

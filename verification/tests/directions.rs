use peptide_synth::amino::{parse_directions, LetterError};
use peptide_synth::direction::{Direction, Directions};
use peptide_synth::pos::Pos;

#[test]
fn opposite_is_an_involution() {
    for dir in Direction::all() {
        assert_eq!(dir.opposite().opposite(), dir);
        assert_ne!(dir.opposite(), dir);
    }
    assert_eq!(Direction::Up.opposite(), Direction::Down);
    assert_eq!(Direction::Left.opposite(), Direction::Right);
}

#[test]
fn directions_are_enumerated_up_right_down_left() {
    assert_eq!(
        Direction::all(),
        [Direction::Up, Direction::Right, Direction::Down, Direction::Left]
    );
}

#[test]
fn horizontal_is_left_and_right() {
    assert!(Direction::Left.horizontal());
    assert!(Direction::Right.horizontal());
    assert!(!Direction::Up.horizontal());
    assert!(!Direction::Down.horizontal());
}

#[test]
fn delta_and_from_delta_agree() {
    assert_eq!(Direction::Up.delta(), Pos::new(0, 1));
    assert_eq!(Direction::Down.delta(), Pos::new(0, -1));
    assert_eq!(Direction::Left.delta(), Pos::new(-1, 0));
    assert_eq!(Direction::Right.delta(), Pos::new(1, 0));
    for dir in Direction::all() {
        assert_eq!(Direction::from_delta(dir.delta()), Some(dir));
    }
    assert_eq!(Direction::from_delta(Pos::new(0, 0)), None);
    assert_eq!(Direction::from_delta(Pos::new(1, 1)), None);
    assert_eq!(Direction::from_delta(Pos::new(2, 0)), None);
}

#[test]
fn neighbor_steps_once_and_stops_at_the_edge() {
    let p = Pos::new(3, -4);
    assert_eq!(p.neighbor(Direction::Up), Some(Pos::new(3, -3)));
    assert_eq!(p.neighbor(Direction::Down), Some(Pos::new(3, -5)));
    assert_eq!(p.neighbor(Direction::Left), Some(Pos::new(2, -4)));
    assert_eq!(p.neighbor(Direction::Right), Some(Pos::new(4, -4)));
    assert_eq!(Pos::new(i32::MAX, 0).neighbor(Direction::Right), None);
    assert_eq!(Pos::new(i32::MIN, 0).neighbor(Direction::Left), None);
    assert_eq!(Pos::new(0, i32::MAX).neighbor(Direction::Up), None);
    assert_eq!(Pos::new(0, i32::MIN).neighbor(Direction::Down), None);
}

#[test]
fn distance_counts_lattice_steps() {
    assert_eq!(Pos::new(0, 0).distance(Pos::new(0, 0)), 0);
    assert_eq!(Pos::new(0, 0).distance(Pos::new(3, -4)), 7);
    assert_eq!(Pos::new(-2, 5).distance(Pos::new(1, 1)), 7);
    assert_eq!(
        Pos::new(i32::MIN, i32::MIN).distance(Pos::new(i32::MAX, i32::MAX)),
        2 * (u32::MAX as u64)
    );
}

#[test]
fn empty_set_contains_nothing() {
    let set = Directions::empty();
    for dir in Direction::all() {
        assert!(!set.contains(dir));
    }
    assert!(set.iter().is_empty());
    assert_eq!(set.bits(), 0);
}

#[test]
fn set_and_remove_change_one_member() {
    let mut set = Directions::empty();
    set.set(Direction::Left);
    assert!(set.contains(Direction::Left));
    assert!(!set.contains(Direction::Right));
    set.set(Direction::Up);
    set.set(Direction::Left);
    assert_eq!(set.iter(), vec![Direction::Up, Direction::Left]);
    set.remove(Direction::Left);
    assert_eq!(set.iter(), vec![Direction::Up]);
    set.remove(Direction::Down);
    assert_eq!(set.iter(), vec![Direction::Up]);
    set.remove(Direction::Up);
    assert_eq!(set, Directions::empty());
}

#[test]
fn iter_lists_members_in_enumeration_order() {
    let mut set = Directions::empty();
    set.set(Direction::Left);
    set.set(Direction::Down);
    set.set(Direction::Right);
    set.set(Direction::Up);
    assert_eq!(
        set.iter(),
        vec![Direction::Up, Direction::Right, Direction::Down, Direction::Left]
    );
}

#[test]
fn letters_parse_in_any_order() {
    let a = parse_directions("LR").unwrap();
    let b = parse_directions("RL").unwrap();
    assert_eq!(a, b);
    assert_eq!(a.iter(), vec![Direction::Right, Direction::Left]);
    let all = parse_directions("DULR").unwrap();
    assert_eq!(all.iter().len(), 4);
    assert_eq!(parse_directions("").unwrap(), Directions::empty());
    assert_eq!(parse_directions("U").unwrap().iter(), vec![Direction::Up]);
}

#[test]
fn unknown_letter_is_rejected() {
    assert_eq!(parse_directions("LX"), Err(LetterError::Unknown));
    assert_eq!(parse_directions("u"), Err(LetterError::Unknown));
    assert_eq!(parse_directions("L R"), Err(LetterError::Unknown));
}

#[test]
fn repeated_letter_is_rejected() {
    assert_eq!(parse_directions("LL"), Err(LetterError::Repeated));
    assert_eq!(parse_directions("UDLRU"), Err(LetterError::Repeated));
}

#[test]
fn first_fault_decides_the_error() {
    assert_eq!(parse_directions("LLX"), Err(LetterError::Repeated));
    assert_eq!(parse_directions("LXL"), Err(LetterError::Unknown));
}

#[test]
fn growth_prefers_right() {
    assert_eq!(Direction::Right.growth_weight(), 4);
    assert_eq!(Direction::Up.growth_weight(), 1);
    assert_eq!(Direction::Down.growth_weight(), 1);
    assert_eq!(Direction::Left.growth_weight(), 1);
}

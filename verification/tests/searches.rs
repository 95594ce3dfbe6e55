use peptide_synth::amino::AminoType;
use peptide_synth::direction::Direction;
use peptide_synth::generate::{generate, random_shape, GenerateError};
use peptide_synth::level::Level;
use peptide_synth::peptide::Peptide;
use peptide_synth::pos::Pos;
use peptide_synth::score::{Score, SCALE};
use peptide_synth::search::Search;
use peptide_synth::seen::Seen;

fn level_of(shape: Peptide) -> Level {
    let range = (Score { units: 0 }, Score { units: 0 });
    Level::new(String::from("Test"), String::from("A test level."), range, shape).unwrap()
}

fn straight(kinds: &[AminoType]) -> Peptide {
    let mut chain = Peptide::root(kinds[0]);
    for (i, kind) in kinds.iter().enumerate().skip(1) {
        assert!(chain.attach(Pos::new(i as i32 - 1, 0), Direction::Right, *kind));
    }
    chain
}

#[test]
fn seen_holds_what_was_put_in() {
    let mut seen = Seen::new();
    let a = straight(&[AminoType::Arg, AminoType::Asp]);
    let b = straight(&[AminoType::Arg, AminoType::Ala]);
    assert!(!seen.contains(&a));
    seen.insert(a.clone());
    assert!(seen.contains(&a));
    assert!(!seen.contains(&b));
    seen.insert(b.clone());
    assert!(seen.contains(&a));
    assert!(seen.contains(&b));
    let mut again = Peptide::root(AminoType::Arg);
    assert!(again.attach(Pos::new(0, 0), Direction::Right, AminoType::Asp));
    assert!(seen.contains(&again));
}

#[test]
fn pair_has_one_energy() {
    let level = level_of(straight(&[AminoType::Arg, AminoType::Asp]));
    let twelve = Score { units: 12 * SCALE };
    assert_eq!(level.solve(100), Search::Complete(twelve, twelve));
    assert_eq!(level.solve(5), Search::Complete(twelve, twelve));
}

#[test]
fn search_stops_when_the_budget_is_spent() {
    let level = level_of(straight(&[AminoType::Arg, AminoType::Asp]));
    let twelve = Score { units: 12 * SCALE };
    assert_eq!(level.solve(0), Search::Aborted);
    assert_eq!(level.solve(1), Search::Aborted);
    assert_eq!(level.solve(2), Search::Partial(twelve, twelve));
    assert_eq!(level.solve(4), Search::Partial(twelve, twelve));
}

#[test]
fn single_unit_is_complete_at_once() {
    let level = level_of(Peptide::root(AminoType::Leu));
    let alone = Score { units: (2 - 8) * SCALE };
    assert_eq!(level.solve(1), Search::Complete(alone, alone));
    assert_eq!(level.solve(0), Search::Aborted);
}

#[test]
fn range_spans_the_folds() {
    // Arg, Ala, Ala, Asp: folded so that Arg and Asp touch, the salt bridge
    // and the nearness of the charges give 2; with the ends three steps
    // apart the energy is 16 - 2/3.
    let level = level_of(straight(&[
        AminoType::Arg,
        AminoType::Ala,
        AminoType::Ala,
        AminoType::Asp,
    ]));
    let min = Score { units: 2 * SCALE };
    let max = Score { units: 16 * SCALE - 2 * (SCALE / 3) };
    assert_eq!(level.solve(10_000), Search::Complete(min, max));
    match level.solve(30) {
        Search::Partial(low, high) => {
            assert!(min.units <= low.units && low.units <= high.units && high.units <= max.units);
        },
        other => panic!("{:?}", other),
    }
}

#[test]
fn range_is_ordered_and_holds_every_complete_chain() {
    let mut shape = Peptide::root(AminoType::Cys);
    assert!(shape.attach(Pos::new(0, 0), Direction::Right, AminoType::Leu));
    assert!(shape.attach(Pos::new(1, 0), Direction::Right, AminoType::Phe));
    assert!(shape.attach(Pos::new(0, 0), Direction::Up, AminoType::Cys));
    let level = level_of(shape.clone());
    let (min, max) = match level.solve(100_000) {
        Search::Complete(min, max) => (min, max),
        other => panic!("{:?}", other),
    };
    assert!(min.units <= max.units);
    assert!(min.units < max.units);
    let own = shape.score();
    assert!(min.units <= own.units && own.units <= max.units);
    // the two Cys side by side without a bond: the tightest fold
    let mut tight = Peptide::root(AminoType::Cys);
    assert!(tight.attach(Pos::new(0, 0), Direction::Up, AminoType::Cys));
    assert!(tight.attach(Pos::new(0, 0), Direction::Right, AminoType::Leu));
    assert!(tight.attach(Pos::new(1, 0), Direction::Up, AminoType::Phe));
    let folded = tight.score();
    assert!(min.units <= folded.units && folded.units <= max.units);
}

#[test]
fn chains_reached_twice_are_visited_once() {
    // Root with an A and a D child: the full chains arise in either order.
    let mut shape = Peptide::root(AminoType::Arg);
    assert!(shape.attach(Pos::new(0, 0), Direction::Up, AminoType::Ala));
    assert!(shape.attach(Pos::new(0, 0), Direction::Right, AminoType::Asp));
    let level = level_of(shape);
    // 1 root, 4 + 4 with one child, 4 * 3 with both
    assert!(matches!(level.solve(21), Search::Complete(_, _)));
    assert!(matches!(level.solve(20), Search::Partial(_, _)));
}

#[test]
fn shape_whose_cells_share_an_address_can_be_unsolvable() {
    // Two C children of the root; only the second has a child of its own.
    // Every C of a chain is matched with the first, so no A is ever offered.
    let mut shape = Peptide::root(AminoType::Arg);
    assert!(shape.attach(Pos::new(0, 0), Direction::Up, AminoType::Cys));
    assert!(shape.attach(Pos::new(0, 0), Direction::Right, AminoType::Cys));
    assert!(shape.attach(Pos::new(1, 0), Direction::Right, AminoType::Ala));
    let level = level_of(shape);
    assert_eq!(level.solve(100_000), Search::Unsolvable);
}

#[test]
fn rated_level_records_the_range_found() {
    let shape = straight(&[AminoType::Arg, AminoType::Ala, AminoType::Ala, AminoType::Asp]);
    let level = Level::rated(String::from("Bridge"), String::from("Fold it."), shape.clone(), 10_000)
        .unwrap();
    assert_eq!(level.title(), "Bridge");
    assert_eq!(level.description(), "Fold it.");
    assert!(*level.peptide() == shape);
    assert_eq!(
        level.range(),
        (Score { units: 2 * SCALE }, Score { units: 16 * SCALE - 2 * (SCALE / 3) })
    );
}

#[test]
fn rated_level_reports_why_it_was_not_made() {
    let shape = straight(&[AminoType::Arg, AminoType::Ala, AminoType::Ala, AminoType::Asp]);
    let made = Level::rated(String::new(), String::new(), shape, 10);
    assert_eq!(made.err(), Some(GenerateError::Aborted));
    let made = Level::rated(String::new(), String::new(), Peptide::new(), 10);
    assert_eq!(
        made.err(),
        Some(GenerateError::Shape(peptide_synth::tree::ShapeError::NoRoot))
    );
    let mut shape = Peptide::root(AminoType::Arg);
    assert!(shape.attach(Pos::new(0, 0), Direction::Up, AminoType::Cys));
    assert!(shape.attach(Pos::new(0, 0), Direction::Right, AminoType::Cys));
    assert!(shape.attach(Pos::new(1, 0), Direction::Right, AminoType::Ala));
    let made = Level::rated(String::new(), String::new(), shape, 100_000);
    assert_eq!(made.err(), Some(GenerateError::Unsolvable));
}

#[test]
fn mutate_grows_by_one_unit() {
    let mut chain = Peptide::root(AminoType::Ala);
    for n in 1..=12 {
        let before = chain.clone();
        assert!(chain.mutate(10_000));
        assert_eq!(chain.len(), n + 1);
        assert_eq!(chain.validate(), Ok(()));
        // all that was there stays, but for one new bond
        let mut changed = 0;
        for (pos, amino) in before.cells() {
            let now = chain.get(pos).unwrap();
            assert_eq!(now.amino, amino.amino);
            if now.children != amino.children {
                changed += 1;
            }
        }
        assert_eq!(changed, 1);
    }
}

#[test]
fn mutate_without_attempts_changes_nothing() {
    let mut chain = Peptide::root(AminoType::Ala);
    assert!(!chain.mutate(0));
    assert!(chain == Peptide::root(AminoType::Ala));
    let mut none = Peptide::new();
    assert!(!none.mutate(100));
    assert_eq!(none.len(), 0);
}

#[test]
fn random_shapes_have_five_to_thirteen_cells() {
    let mut sizes = std::collections::BTreeSet::new();
    let mut roots = std::collections::BTreeSet::new();
    for _ in 0..400 {
        let shape = random_shape(10_000).unwrap();
        assert!(5 <= shape.len() && shape.len() <= 13);
        assert_eq!(shape.validate(), Ok(()));
        sizes.insert(shape.len());
        roots.insert(shape.get(Pos::zeros()).unwrap().amino.index());
    }
    // the number of growths and the kinds are drawn at random
    assert!(sizes.len() > 1);
    assert!(roots.len() > 1);
}

#[test]
fn random_growth_leans_to_the_right() {
    let mut right = 0;
    let mut left = 0;
    for _ in 0..2000 {
        let mut chain = Peptide::root(AminoType::Ala);
        assert!(chain.mutate(10_000));
        if chain.contains_key(Pos::new(1, 0)) {
            right += 1;
        }
        if chain.contains_key(Pos::new(-1, 0)) {
            left += 1;
        }
    }
    assert!(right > left);
    assert!(left > 0);
}

#[test]
fn generated_level_is_titled_and_rated() {
    for serial in 0..40 {
        match generate(serial, 400, 10_000) {
            Ok(level) => {
                let size = level.peptide().len();
                assert!(5 <= size && size <= 13);
                assert_eq!(level.peptide().validate(), Ok(()));
                assert_eq!(*level.title(), format!("Random #{}", serial));
                assert_eq!(
                    level.description(),
                    "A randomly grown peptide. Fold it to the lowest energy you can."
                );
                let (min, max) = level.range();
                assert!(min.units <= max.units);
                // the range recorded is the one that the search finds
                assert_eq!(level.solve(400), Search::Complete(min, max));
            },
            Err(e) => {
                assert!(!matches!(e, GenerateError::Shape(_)));
            },
        }
    }
}

#[test]
fn shape_need_not_be_buildable_after_itself() {
    // Two C children of the root, the first with an A below it, the second
    // with an L. Every C of a chain is matched with the first, so a chain
    // gets an A below each C and never an L: complete chains exist, but the
    // shape's own layout is none of them.
    let mut shape = Peptide::root(AminoType::Arg);
    assert!(shape.attach(Pos::new(0, 0), Direction::Up, AminoType::Cys));
    assert!(shape.attach(Pos::new(0, 1), Direction::Up, AminoType::Ala));
    assert!(shape.attach(Pos::new(0, 0), Direction::Right, AminoType::Cys));
    assert!(shape.attach(Pos::new(1, 0), Direction::Right, AminoType::Leu));
    let level = level_of(shape);
    let mut chain = Peptide::for_level(&level);
    assert!(chain.attach(Pos::new(0, 0), Direction::Up, AminoType::Cys));
    assert!(chain.attach(Pos::new(0, 0), Direction::Right, AminoType::Cys));
    let moves = level.options(&chain);
    assert!(!moves.is_empty());
    assert!(moves.iter().all(|mv| mv.0 == AminoType::Ala));
    assert!(matches!(level.solve(100_000), Search::Complete(_, _)));
}

#[test]
fn growth_without_attempts_is_stuck() {
    assert!(random_shape(0).is_none());
    assert_eq!(generate(1, 1000, 0).err(), Some(GenerateError::Stuck));
}

#[test]
fn search_is_complete_exactly_when_the_budget_covers_every_chain() {
    // Arg, Ala, Asp in a row: 1 + 4 + 12 chains can be built.
    let level = level_of(straight(&[AminoType::Arg, AminoType::Ala, AminoType::Asp]));
    let fourteen = Score { units: 14 * SCALE };
    assert_eq!(level.solve(17), Search::Complete(fourteen, fourteen));
    assert_eq!(level.solve(16), Search::Partial(fourteen, fourteen));
    assert_eq!(level.solve(5), Search::Aborted);
    assert_eq!(level.solve(6), Search::Partial(fourteen, fourteen));
}

#[test]
fn solve_p_returns_a_complete_chain_below_the_limit() {
    let level = level_of(straight(&[
        AminoType::Arg,
        AminoType::Ala,
        AminoType::Ala,
        AminoType::Asp,
    ]));
    // the folds with the salt bridge closed have energy 2
    let found = level.solve_p(Score { units: 3 * SCALE }, 10_000).unwrap();
    assert_eq!(found.len(), 4);
    assert_eq!(found.score(), Score { units: 2 * SCALE });
    assert_eq!(found.validate(), Ok(()));
    assert_eq!(
        found.path(found.find(&[AminoType::Ala, AminoType::Ala, AminoType::Asp]).unwrap()),
        vec![AminoType::Ala, AminoType::Ala, AminoType::Asp]
    );
    // the first complete chain visited is straight up, at 16 - 2/3
    let first = level.solve_p(Score { units: 17 * SCALE }, 10_000).unwrap();
    assert_eq!(first.score(), Score { units: 16 * SCALE - 2 * (SCALE / 3) });
    assert!(first.contains_key(Pos::new(0, 3)));
}

#[test]
fn solve_p_finds_nothing_below_the_lowest_energy() {
    let level = level_of(straight(&[
        AminoType::Arg,
        AminoType::Ala,
        AminoType::Ala,
        AminoType::Asp,
    ]));
    assert!(level.solve_p(Score { units: 2 * SCALE }, 10_000).is_none());
    assert!(level.solve_p(Score { units: 3 * SCALE / 2 }, 10_000).is_none());
    assert!(level.solve_p(Score { units: 2 * SCALE + 1 }, 10_000).is_some());
}

#[test]
fn solve_p_stops_when_the_budget_is_spent() {
    let level = level_of(straight(&[
        AminoType::Arg,
        AminoType::Ala,
        AminoType::Ala,
        AminoType::Asp,
    ]));
    assert!(level.solve_p(Score { units: 3 * SCALE }, 0).is_none());
    assert!(level.solve_p(Score { units: 3 * SCALE }, 17).is_none());
}

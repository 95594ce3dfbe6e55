use peptide_synth::amino::AminoType;
use peptide_synth::text::{decimal, signed_decimal};

#[test]
fn intrinsic_costs() {
    assert_eq!(AminoType::Ala.intrinsic_cost(), 1);
    assert_eq!(AminoType::Leu.intrinsic_cost(), 2);
    assert_eq!(AminoType::Phe.intrinsic_cost(), 3);
    assert_eq!(AminoType::Cys.intrinsic_cost(), 3);
    assert_eq!(AminoType::Asp.intrinsic_cost(), 4);
    assert_eq!(AminoType::Arg.intrinsic_cost(), 4);
}

#[test]
fn charges() {
    assert_eq!(AminoType::Arg.charge(), 1);
    assert_eq!(AminoType::Asp.charge(), -1);
    assert_eq!(AminoType::Ala.charge(), 0);
    assert_eq!(AminoType::Cys.charge(), 0);
    assert_eq!(AminoType::Leu.charge(), 0);
    assert_eq!(AminoType::Phe.charge(), 0);
}

#[test]
fn hydrophobic_energies() {
    assert_eq!(AminoType::Leu.hydrophobic(), -2);
    assert_eq!(AminoType::Phe.hydrophobic(), -2);
    assert_eq!(AminoType::Cys.hydrophobic(), -1);
    assert_eq!(AminoType::Ala.hydrophobic(), 0);
    assert_eq!(AminoType::Asp.hydrophobic(), 1);
    assert_eq!(AminoType::Arg.hydrophobic(), 1);
}

#[test]
fn adjacency_tables() {
    assert_eq!(AminoType::Arg.adjacency(), vec![(AminoType::Asp, -10)]);
    assert_eq!(AminoType::Asp.adjacency(), vec![(AminoType::Arg, -10)]);
    assert_eq!(AminoType::Cys.adjacency(), vec![(AminoType::Cys, -12)]);
    assert_eq!(
        AminoType::Phe.adjacency(),
        vec![(AminoType::Phe, -6), (AminoType::Leu, -2), (AminoType::Cys, -2)]
    );
    assert_eq!(
        AminoType::Leu.adjacency(),
        vec![(AminoType::Leu, -4), (AminoType::Cys, -2)]
    );
    assert_eq!(
        AminoType::Ala.adjacency(),
        vec![(AminoType::Leu, -2), (AminoType::Phe, -2), (AminoType::Cys, -2)]
    );
}

#[test]
fn bonus_looks_the_pair_up() {
    assert_eq!(AminoType::Arg.bonus(AminoType::Asp), -10);
    assert_eq!(AminoType::Asp.bonus(AminoType::Arg), -10);
    assert_eq!(AminoType::Cys.bonus(AminoType::Cys), -12);
    assert_eq!(AminoType::Phe.bonus(AminoType::Phe), -6);
    assert_eq!(AminoType::Phe.bonus(AminoType::Cys), -2);
    assert_eq!(AminoType::Leu.bonus(AminoType::Leu), -4);
    assert_eq!(AminoType::Ala.bonus(AminoType::Phe), -2);
    assert_eq!(AminoType::Arg.bonus(AminoType::Arg), 0);
    assert_eq!(AminoType::Cys.bonus(AminoType::Phe), 0);
    assert_eq!(AminoType::Ala.bonus(AminoType::Ala), 0);
}

#[test]
fn bonus_agrees_with_the_table() {
    for kind in AminoType::all() {
        for other in AminoType::all() {
            let listed = kind
                .adjacency()
                .iter()
                .find(|entry| entry.0 == other)
                .map(|entry| entry.1)
                .unwrap_or(0);
            assert_eq!(kind.bonus(other), listed);
        }
    }
}

#[test]
fn letters_and_names() {
    let letters: Vec<char> = AminoType::all().iter().map(|kind| kind.letter()).collect();
    assert_eq!(letters, vec!['A', 'C', 'D', 'F', 'L', 'R']);
    assert_eq!(AminoType::Arg.name(), "Arginine");
    assert_eq!(AminoType::Leu.name(), "Leucine");
    assert_eq!(AminoType::Ala.name(), "Alanine");
    assert_eq!(AminoType::Cys.name(), "Cysteine");
    assert_eq!(AminoType::Asp.name(), "Aspartate ");
    assert_eq!(AminoType::Phe.name(), "Phenylalanine");
}

#[test]
fn kinds_are_enumerated_by_letter() {
    assert_eq!(AminoType::list(), AminoType::all().to_vec());
    for (i, kind) in AminoType::all().iter().enumerate() {
        assert_eq!(kind.index() as usize, i);
    }
}

#[test]
fn short_descriptions() {
    assert_eq!(AminoType::Ala.description(), "CFL");
    assert_eq!(AminoType::Cys.description(), "δ∙C");
    assert_eq!(AminoType::Asp.description(), "Ψ∙-∙R");
    assert_eq!(AminoType::Phe.description(), "δ∙CFL");
    assert_eq!(AminoType::Leu.description(), "δ∙CL");
    assert_eq!(AminoType::Arg.description(), "Ψ∙+∙D");
}

#[test]
fn long_descriptions() {
    assert_eq!(
        AminoType::Ala.long_description(),
        "Alanine\n\nCost: 1\nCharge: 0\nHydrophobic: 0\nInteractions:\n ∙ L: -2\n ∙ F: -2\n ∙ C: -2"
    );
    assert_eq!(
        AminoType::Asp.long_description(),
        "Aspartate \n\nCost: 4\nCharge: -1\nHydrophobic: 1\nInteractions:\n ∙ R: -10"
    );
    assert_eq!(
        AminoType::Cys.long_description(),
        "Cysteine\n\nCost: 3\nCharge: 0\nHydrophobic: -1\nInteractions:\n ∙ C: -12"
    );
}

#[test]
fn decimal_writes_numbers_out() {
    assert_eq!(decimal(0), "0");
    assert_eq!(decimal(7), "7");
    assert_eq!(decimal(10), "10");
    assert_eq!(decimal(4096), "4096");
    assert_eq!(decimal(u32::MAX), "4294967295");
    assert_eq!(signed_decimal(0), "0");
    assert_eq!(signed_decimal(-12), "-12");
    assert_eq!(signed_decimal(305), "305");
    assert_eq!(signed_decimal(i32::MIN), "-2147483648");
    assert_eq!(signed_decimal(i32::MAX), "2147483647");
}

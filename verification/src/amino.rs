//! The catalogue of amino acids and the occupant of one lattice cell.

use vstd::prelude::*;
use crate::direction::{Direction, Directions};
use crate::text::{signed_decimal, signed_digits};

verus! {

/// The kinds of amino acid a chain is built from.
#[derive(Clone, Copy, Debug, PartialEq, Eq, Hash, Structural)]
pub enum AminoType {
    Ala,
    Cys,
    Asp,
    Phe,
    Leu,
    Arg,
}

/// One amino acid in a chain: its kind and the bonds to its children.
#[derive(Clone, Copy, Debug, PartialEq, Eq, Hash, Structural)]
pub struct Amino {
    pub amino: AminoType,
    pub children: Directions,
}

/// What the catalogue holds of a kind of amino acid, besides the kinds it
/// interacts with.
#[derive(Clone, Copy, Debug, PartialEq, Eq, Structural)]
pub struct Properties {
    /// The energy that a unit costs wherever it stands.
    pub cost: i32,
    /// The electric charge of a unit.
    pub charge: i32,
    /// The energy per side of a unit that no neighbour covers.
    pub hydrophobic: i32,
}

/// Why a string of direction letters names no set of directions.
#[derive(Clone, Copy, Debug, PartialEq, Eq, Structural)]
pub enum LetterError {
    /// A character other than `U`, `D`, `L`, `R`.
    Unknown,
    /// A letter that already occurred earlier in the string.
    Repeated,
}

impl AminoType {
    /// The kinds in the order in which they are always enumerated.
    pub open spec fn order() -> Seq<AminoType> {
        seq![
            AminoType::Ala,
            AminoType::Cys,
            AminoType::Asp,
            AminoType::Phe,
            AminoType::Leu,
            AminoType::Arg,
        ]
    }

    /// The letter that stands for the kind.
    pub open spec fn letter_spec(self) -> char {
        match self {
            AminoType::Ala => 'A',
            AminoType::Cys => 'C',
            AminoType::Asp => 'D',
            AminoType::Phe => 'F',
            AminoType::Leu => 'L',
            AminoType::Arg => 'R',
        }
    }

    /// The name of the kind.
    pub open spec fn name_spec(self) -> Seq<char> {
        match self {
            AminoType::Arg => "Arginine"@,
            AminoType::Leu => "Leucine"@,
            AminoType::Ala => "Alanine"@,
            AminoType::Cys => "Cysteine"@,
            AminoType::Asp => "Aspartate "@,
            AminoType::Phe => "Phenylalanine"@,
        }
    }

    /// The entry of the catalogue for this kind.
    pub open spec fn properties_spec(self) -> Properties {
        match self {
            AminoType::Ala => Properties { cost: 1, charge: 0, hydrophobic: 0 },
            AminoType::Cys => Properties { cost: 3, charge: 0, hydrophobic: -1i32 },
            AminoType::Asp => Properties { cost: 4, charge: -1i32, hydrophobic: 1 },
            AminoType::Phe => Properties { cost: 3, charge: 0, hydrophobic: -2i32 },
            AminoType::Leu => Properties { cost: 2, charge: 0, hydrophobic: -2i32 },
            AminoType::Arg => Properties { cost: 4, charge: 1, hydrophobic: 1 },
        }
    }

    /// The energy that a unit of this kind costs wherever it stands.
    pub open spec fn cost(self) -> int {
        self.properties_spec().cost as int
    }

    /// The electric charge of a unit of this kind.
    pub open spec fn charge_spec(self) -> int {
        self.properties_spec().charge as int
    }

    /// The energy per side of a unit of this kind that no neighbour covers.
    pub open spec fn hydrophobic_spec(self) -> int {
        self.properties_spec().hydrophobic as int
    }

    /// The kinds this one interacts with when they are neighbours without a
    /// bond between them, each with the energy of the pair.
    pub open spec fn adjacency_spec(self) -> Seq<(AminoType, i32)> {
        match self {
            AminoType::Arg => seq![(AminoType::Asp, -10i32)],
            AminoType::Asp => seq![(AminoType::Arg, -10i32)],
            AminoType::Cys => seq![(AminoType::Cys, -12i32)],
            AminoType::Phe => seq![
                (AminoType::Phe, -6i32),
                (AminoType::Leu, -2i32),
                (AminoType::Cys, -2i32),
            ],
            AminoType::Leu => seq![(AminoType::Leu, -4i32), (AminoType::Cys, -2i32)],
            AminoType::Ala => seq![
                (AminoType::Leu, -2i32),
                (AminoType::Phe, -2i32),
                (AminoType::Cys, -2i32),
            ],
        }
    }

    /// The energy of the pair that `adjacency_spec` lists for `other`, or zero
    /// where it lists none.
    pub open spec fn bonus_spec(self, other: AminoType) -> int {
        Self::first_bonus(self.adjacency_spec(), other)
    }

    /// The energy of the first entry of `table` for `other`, or zero.
    pub open spec fn first_bonus(table: Seq<(AminoType, i32)>, other: AminoType) -> int
        decreases table.len(),
    {
        if table.len() == 0 {
            0
        } else if table[0].0 == other {
            table[0].1 as int
        } else {
            Self::first_bonus(table.drop_first(), other)
        }
    }

    /// The place of a kind in `order`.
    pub open spec fn rank(self) -> int {
        match self {
            AminoType::Ala => 0,
            AminoType::Cys => 1,
            AminoType::Asp => 2,
            AminoType::Phe => 3,
            AminoType::Leu => 4,
            AminoType::Arg => 5,
        }
    }

    /// The place of this kind in the enumeration of all kinds.
    pub fn index(&self) -> (r: u8)
        ensures
            r == self.rank(),
            AminoType::order()[r as int] == *self,
    {
        match self {
            AminoType::Ala => 0,
            AminoType::Cys => 1,
            AminoType::Asp => 2,
            AminoType::Phe => 3,
            AminoType::Leu => 4,
            AminoType::Arg => 5,
        }
    }

    /// All six kinds, in enumeration order.
    pub fn all() -> (kinds: [AminoType; 6])
        ensures
            kinds@ == AminoType::order(),
    {
        let kinds = [
            AminoType::Ala,
            AminoType::Cys,
            AminoType::Asp,
            AminoType::Phe,
            AminoType::Leu,
            AminoType::Arg,
        ];
        assert(kinds@ =~= AminoType::order());
        kinds
    }

    /// All six kinds, in enumeration order, as a list.
    pub fn list() -> (kinds: Vec<AminoType>)
        ensures
            kinds@ == AminoType::order(),
    {
        let mut kinds: Vec<AminoType> = Vec::new();
        kinds.push(AminoType::Ala);
        kinds.push(AminoType::Cys);
        kinds.push(AminoType::Asp);
        kinds.push(AminoType::Phe);
        kinds.push(AminoType::Leu);
        kinds.push(AminoType::Arg);
        assert(kinds@ =~= AminoType::order());
        kinds
    }

    /// The letter that stands for the kind.
    pub fn letter(&self) -> (r: char)
        ensures
            r == self.letter_spec(),
    {
        match self {
            AminoType::Ala => 'A',
            AminoType::Cys => 'C',
            AminoType::Asp => 'D',
            AminoType::Phe => 'F',
            AminoType::Leu => 'L',
            AminoType::Arg => 'R',
        }
    }

    /// The name of the kind.
    pub fn name(&self) -> (r: &'static str)
        ensures
            r@ == self.name_spec(),
    {
        match self {
            AminoType::Arg => "Arginine",
            AminoType::Leu => "Leucine",
            AminoType::Ala => "Alanine",
            AminoType::Cys => "Cysteine",
            AminoType::Asp => "Aspartate ",
            AminoType::Phe => "Phenylalanine",
        }
    }

    /// The entry of the catalogue for this kind.
    pub fn properties(&self) -> (r: Properties)
        ensures
            r == self.properties_spec(),
    {
        match self {
            AminoType::Ala => Properties { cost: 1, charge: 0, hydrophobic: 0 },
            AminoType::Cys => Properties { cost: 3, charge: 0, hydrophobic: -1 },
            AminoType::Asp => Properties { cost: 4, charge: -1, hydrophobic: 1 },
            AminoType::Phe => Properties { cost: 3, charge: 0, hydrophobic: -2 },
            AminoType::Leu => Properties { cost: 2, charge: 0, hydrophobic: -2 },
            AminoType::Arg => Properties { cost: 4, charge: 1, hydrophobic: 1 },
        }
    }

    /// The energy that a unit of this kind costs wherever it stands.
    pub fn intrinsic_cost(&self) -> (r: i32)
        ensures
            r == self.cost(),
            1 <= r <= 4,
    {
        self.properties().cost
    }

    /// The electric charge of a unit of this kind.
    pub fn charge(&self) -> (r: i32)
        ensures
            r == self.charge_spec(),
            -1 <= r <= 1,
    {
        self.properties().charge
    }

    /// The energy per side of a unit of this kind that no neighbour covers.
    pub fn hydrophobic(&self) -> (r: i32)
        ensures
            r == self.hydrophobic_spec(),
            -2 <= r <= 1,
    {
        self.properties().hydrophobic
    }

    /// The kinds this one interacts with when they are neighbours without a
    /// bond between them, each with the energy of the pair.
    pub fn adjacency(&self) -> (r: Vec<(AminoType, i32)>)
        ensures
            r@ == self.adjacency_spec(),
    {
        let mut table: Vec<(AminoType, i32)> = Vec::new();
        match self {
            AminoType::Arg => {
                table.push((AminoType::Asp, -10));
            },
            AminoType::Asp => {
                table.push((AminoType::Arg, -10));
            },
            AminoType::Cys => {
                table.push((AminoType::Cys, -12));
            },
            AminoType::Phe => {
                table.push((AminoType::Phe, -6));
                table.push((AminoType::Leu, -2));
                table.push((AminoType::Cys, -2));
            },
            AminoType::Leu => {
                table.push((AminoType::Leu, -4));
                table.push((AminoType::Cys, -2));
            },
            AminoType::Ala => {
                table.push((AminoType::Leu, -2));
                table.push((AminoType::Phe, -2));
                table.push((AminoType::Cys, -2));
            },
        }
        assert(table@ =~= self.adjacency_spec());
        table
    }

    /// Whether `table` has an entry for `other`.
    pub open spec fn lists(table: Seq<(AminoType, i32)>, other: AminoType) -> bool {
        exists|i: int| 0 <= i < table.len() && (#[trigger] table[i]).0 == other
    }

    /// The letters of the first `n` kinds, in enumeration order, that `table`
    /// has an entry for. The enumeration order is that of the letters.
    pub open spec fn partner_letters(table: Seq<(AminoType, i32)>, n: nat) -> Seq<char>
        decreases n,
    {
        if n == 0 || n > AminoType::order().len() {
            Seq::empty()
        } else {
            let kind = AminoType::order()[n - 1];
            let before = Self::partner_letters(table, (n - 1) as nat);
            if Self::lists(table, kind) {
                before.push(kind.letter_spec())
            } else {
                before
            }
        }
    }

    /// The mark of a kind whose open sides lower the energy, or raise it.
    pub open spec fn hydrophobic_mark(self) -> Seq<char> {
        if self.hydrophobic_spec() == 0 {
            Seq::empty()
        } else if self.hydrophobic_spec() < 0 {
            "δ∙"@
        } else {
            "Ψ∙"@
        }
    }

    /// The mark of a kind that carries a charge.
    pub open spec fn charge_mark(self) -> Seq<char> {
        if self.charge_spec() == 0 {
            Seq::empty()
        } else if self.charge_spec() > 0 {
            "+∙"@
        } else {
            "-∙"@
        }
    }

    /// The short description of a kind: its marks, then the letters of the
    /// kinds it interacts with, in alphabetical order.
    pub open spec fn description_spec(self) -> Seq<char> {
        self.hydrophobic_mark() + self.charge_mark() + Self::partner_letters(
            self.adjacency_spec(),
            6,
        )
    }

    /// One line for each of the first `n` entries of `table`: the letter of
    /// the kind and the energy of the pair.
    pub open spec fn partner_lines(table: Seq<(AminoType, i32)>, n: nat) -> Seq<char>
        decreases n,
    {
        if n == 0 || n > table.len() {
            Seq::empty()
        } else {
            Self::partner_lines(table, (n - 1) as nat) + "\n ∙ "@.push(
                table[n - 1].0.letter_spec(),
            ) + ": "@ + signed_digits(table[n - 1].1 as int)
        }
    }

    /// The long description of a kind: its name, its cost, charge and
    /// hydrophobic energy, and its interactions.
    pub open spec fn long_description_spec(self) -> Seq<char> {
        self.name_spec() + "\n\nCost: "@ + signed_digits(self.cost()) + "\nCharge: "@ + signed_digits(
            self.charge_spec(),
        ) + "\nHydrophobic: "@ + signed_digits(self.hydrophobic_spec()) + "\nInteractions:"@
            + Self::partner_lines(self.adjacency_spec(), self.adjacency_spec().len())
    }

    /// The letter of the kind as a string.
    fn letter_str(&self) -> (r: &'static str)
        ensures
            r@ == seq![self.letter_spec()],
    {
        proof {
            reveal_strlit("A");
            reveal_strlit("C");
            reveal_strlit("D");
            reveal_strlit("F");
            reveal_strlit("L");
            reveal_strlit("R");
        }
        let r = match self {
            AminoType::Ala => "A",
            AminoType::Cys => "C",
            AminoType::Asp => "D",
            AminoType::Phe => "F",
            AminoType::Leu => "L",
            AminoType::Arg => "R",
        };
        assert(r@ =~= seq![self.letter_spec()]);
        r
    }

    /// Whether `table` has an entry for `other`.
    fn listed_in(table: &Vec<(AminoType, i32)>, other: AminoType) -> (r: bool)
        ensures
            r == Self::lists(table@, other),
    {
        let mut i: usize = 0;
        while i < table.len()
            invariant
                i <= table@.len(),
                forall|k: int| 0 <= k < i ==> (#[trigger] table@[k]).0 != other,
            decreases table@.len() - i,
        {
            if table[i].0 == other {
                return true;
            }
            i += 1;
        }
        false
    }

    /// A short description for a list of the kinds: a mark for the
    /// hydrophobic energy and one for the charge, where the kind has any,
    /// then the letters of the kinds it interacts with.
    pub fn description(&self) -> (r: String)
        ensures
            r@ == self.description_spec(),
    {
        let hydrophobic = self.hydrophobic();
        let charge = self.charge();
        let table = self.adjacency();
        let mut out = String::from_str("");
        proof {
            reveal_strlit("");
        }
        assert(out@ =~= Seq::<char>::empty());
        if hydrophobic < 0 {
            out.append("δ∙");
        } else if hydrophobic > 0 {
            out.append("Ψ∙");
        }
        assert(out@ =~= self.hydrophobic_mark());
        if charge > 0 {
            out.append("+∙");
        } else if charge < 0 {
            out.append("-∙");
        }
        assert(out@ =~= self.hydrophobic_mark() + self.charge_mark());
        let kinds = AminoType::list();
        let mut i: usize = 0;
        while i < 6
            invariant
                i <= 6,
                kinds@ == AminoType::order(),
                table@ == self.adjacency_spec(),
                out@ == self.hydrophobic_mark() + self.charge_mark() + Self::partner_letters(
                    table@,
                    i as nat,
                ),
            decreases 6 - i,
        {
            let kind = kinds[i];
            if Self::listed_in(&table, kind) {
                out.append(kind.letter_str());
            }
            assert(out@ =~= self.hydrophobic_mark() + self.charge_mark() + Self::partner_letters(
                table@,
                (i + 1) as nat,
            ));
            i += 1;
        }
        out
    }

    /// A description for a tooltip: the name of the kind, its cost, charge
    /// and hydrophobic energy, and a line for each kind it interacts with.
    pub fn long_description(&self) -> (r: String)
        ensures
            r@ == self.long_description_spec(),
    {
        let table = self.adjacency();
        let mut out = String::from_str(self.name());
        out.append("\n\nCost: ");
        out.append(signed_decimal(self.intrinsic_cost()).as_str());
        out.append("\nCharge: ");
        out.append(signed_decimal(self.charge()).as_str());
        out.append("\nHydrophobic: ");
        out.append(signed_decimal(self.hydrophobic()).as_str());
        out.append("\nInteractions:");
        let ghost head = out@;
        assert(out@ =~= head + Self::partner_lines(table@, 0));
        let mut i: usize = 0;
        while i < table.len()
            invariant
                i <= table@.len(),
                table@ == self.adjacency_spec(),
                out@ == head + Self::partner_lines(table@, i as nat),
            decreases table@.len() - i,
        {
            let entry = table[i];
            let ghost before = out@;
            out.append("\n ∙ ");
            out.append(entry.0.letter_str());
            out.append(": ");
            out.append(signed_decimal(entry.1).as_str());
            assert(out@ =~= head + Self::partner_lines(table@, (i + 1) as nat)) by {
                assert("\n ∙ "@.push(entry.0.letter_spec()) =~= "\n ∙ "@ + seq![
                    entry.0.letter_spec(),
                ]);
            }
            i += 1;
        }
        out
    }

    /// The energy of an unbonded pair of neighbours, this kind beside `other`.
    pub fn bonus(&self, other: AminoType) -> (r: i32)
        ensures
            r == self.bonus_spec(other),
            -12 <= r <= 0,
    {
        let table = self.adjacency();
        let mut i: usize = 0;
        assert(table@.skip(0) =~= table@);
        while i < table.len()
            invariant
                i <= table.len(),
                table@ == self.adjacency_spec(),
                table@.len() <= 3,
                forall|k: int| 0 <= k < table@.len() ==> -12 <= (#[trigger] table@[k]).1 <= 0,
                Self::first_bonus(table@, other) == Self::first_bonus(table@.skip(i as int), other),
            decreases table.len() - i,
        {
            let entry = table[i];
            proof {
                let rest = table@.skip(i as int);
                assert(rest[0] == table@[i as int]);
                assert(rest.drop_first() =~= table@.skip(i as int + 1));
            }
            if entry.0 == other {
                return entry.1;
            }
            i += 1;
        }
        assert(table@.skip(i as int).len() == 0);
        0
    }
}

/// Every energy that the catalogue lists for a pair lies between -12 and 0.
pub proof fn lemma_bonus_range(a: AminoType, b: AminoType)
    ensures
        -12 <= a.bonus_spec(b) <= 0,
{
    reveal_with_fuel(AminoType::first_bonus, 4);
}

/// The direction that a letter of a bond string stands for.
pub open spec fn letter_direction(c: char) -> Option<Direction> {
    if c == 'L' {
        Some(Direction::Left)
    } else if c == 'R' {
        Some(Direction::Right)
    } else if c == 'U' {
        Some(Direction::Up)
    } else if c == 'D' {
        Some(Direction::Down)
    } else {
        None
    }
}

/// Whether the character at `k` cannot stand where it does: it is no
/// direction letter, or the same letter stands earlier in the string.
pub open spec fn letter_fault(s: Seq<char>, k: int) -> bool {
    letter_direction(s[k]).is_none() || exists|j: int| 0 <= j < k && s[j] == s[k]
}

/// Reads a set of directions from its letters, one of `U`, `D`, `L`, `R` for
/// each member, in any order and each at most once.
pub fn parse_directions(letters: &str) -> (r: Result<Directions, LetterError>)
    ensures
        match r {
            Ok(set) => {
                &&& set.wf()
                &&& forall|k: int| 0 <= k < letters@.len() ==> !letter_fault(letters@, k)
                &&& forall|d: Direction|
                    set.has(d) == exists|k: int|
                        0 <= k < letters@.len() && letter_direction(letters@[k]) == Some(d)
            },
            Err(e) => exists|k: int|
                {
                    &&& 0 <= k < letters@.len()
                    &&& letter_fault(letters@, k)
                    &&& forall|j: int| 0 <= j < k ==> !letter_fault(letters@, j)
                    &&& e == if letter_direction(letters@[k]).is_none() {
                        LetterError::Unknown
                    } else {
                        LetterError::Repeated
                    }
                },
        },
{
    broadcast use crate::direction::group_directions;

    let n = letters.unicode_len();
    let mut out = Directions::empty();
    let mut i: usize = 0;
    while i < n
        invariant
            i <= n,
            n == letters@.len(),
            out.wf(),
            forall|k: int| 0 <= k < i ==> !letter_fault(letters@, k),
            forall|d: Direction|
                out.has(d) == exists|k: int|
                    0 <= k < i && letter_direction(letters@[k]) == Some(d),
        decreases n - i,
    {
        let c = letters.get_char(i);
        let dir = if c == 'L' {
            Direction::Left
        } else if c == 'R' {
            Direction::Right
        } else if c == 'U' {
            Direction::Up
        } else if c == 'D' {
            Direction::Down
        } else {
            assert(letter_fault(letters@, i as int));
            return Err(LetterError::Unknown);
        };
        assert(letter_direction(c) == Some(dir));
        if out.contains(dir) {
            proof {
                let j = choose|k: int| 0 <= k < i && letter_direction(letters@[k]) == Some(dir);
                assert(letters@[j] == c);
                assert(letter_fault(letters@, i as int));
            }
            return Err(LetterError::Repeated);
        }
        proof {
            assert(!letter_fault(letters@, i as int)) by {
                if exists|j: int| 0 <= j < i && letters@[j] == letters@[i as int] {
                    let j = choose|j: int| 0 <= j < i && letters@[j] == letters@[i as int];
                    assert(letter_direction(letters@[j]) == Some(dir));
                }
            }
        }
        let ghost before = out;
        out.set(dir);
        proof {
            broadcast use crate::direction::group_directions;

            assert forall|d: Direction|
                out.has(d) == exists|k: int|
                    0 <= k < i + 1 && letter_direction(letters@[k]) == Some(d) by {
                if d == dir {
                    assert(letter_direction(letters@[i as int]) == Some(d));
                } else {
                    assert(out.has(d) == before.has(d));
                    if before.has(d) {
                        let k = choose|k: int|
                            0 <= k < i && letter_direction(letters@[k]) == Some(d);
                        assert(0 <= k < i + 1 && letter_direction(letters@[k]) == Some(d));
                    } else {
                        assert forall|k: int| 0 <= k < i + 1 implies letter_direction(
                            #[trigger] letters@[k],
                        ) != Some(d) by {
                            if k < i {
                                assert(!(0 <= k < i && letter_direction(letters@[k]) == Some(d)));
                            }
                        }
                    }
                }
            }
        }
        i += 1;
    }
    Ok(out)
}

} // verus!

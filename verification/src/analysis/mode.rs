//! Lengths of the units that texts are split into.

use vstd::prelude::*;

verus! {

/// Unit to split a text into
#[derive(Debug, Clone, Copy, PartialEq, Eq, Structural)]
pub enum Mode {
    /// Short units
    A,
    /// Middle units
    B,
    /// Named entities
    C,
}

/// The mode with the given name; every other name stands for named entities.
pub open spec fn mode_named(name: Seq<char>) -> Mode {
    if name == "A"@ {
        Mode::A
    } else if name == "B"@ {
        Mode::B
    } else {
        Mode::C
    }
}

/// The mode with the given number; every other number stands for named entities.
pub open spec fn mode_numbered(number: u8) -> Mode {
    if number == 0 {
        Mode::A
    } else if number == 1 {
        Mode::B
    } else {
        Mode::C
    }
}

impl Mode {
    /// The mode with the given name; every other name stands for named entities.
    pub fn from_name(name: &str) -> (mode: Mode)
        ensures
            mode == mode_named(name@),
    {
        let name: String = name.to_owned();
        if name == "A".to_owned() {
            Mode::A
        } else if name == "B".to_owned() {
            Mode::B
        } else {
            Mode::C
        }
    }

    /// The mode with the given number; every other number stands for named entities.
    pub fn from_number(number: u8) -> (mode: Mode)
        ensures
            mode == mode_numbered(number),
    {
        match number {
            0 => Mode::A,
            1 => Mode::B,
            _ => Mode::C,
        }
    }
}

/// Each mode has one name of one letter and one number, and every other name and number stands
/// for the longest units.
pub proof fn law_names_and_numbers_of_modes(name: Seq<char>, number: u8)
    ensures
        mode_named(name) == Mode::A <==> name == seq!['A'],
        mode_named(name) == Mode::B <==> name == seq!['B'],
        mode_numbered(number) == Mode::A <==> number == 0,
        mode_numbered(number) == Mode::B <==> number == 1,
{
    reveal_strlit("A");
    reveal_strlit("B");
    assert("A"@ =~= seq!['A']);
    assert("B"@ =~= seq!['B']);
    assert(seq!['A'][0] != seq!['B'][0]);
}

} // verus!

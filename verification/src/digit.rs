//! The nine digits a filled cell can hold.

use vstd::prelude::*;

verus! {

/// A value of a filled cell. An empty cell holds no `Digit`; there is no zero digit.
///
/// The digits are ordered by their numbers. [`Digit::value`] gives the number; a cast
/// with `as` gives the variant's position instead, which starts at 0.
#[derive(Debug, Copy, Clone, PartialEq, Eq, Hash, PartialOrd, Ord, Structural)]
pub enum Digit {
    One,
    Two,
    Three,
    Four,
    Five,
    Six,
    Seven,
    Eight,
    Nine,
}

impl Digit {
    /// The number this digit stands for, between 1 and 9.
    pub open spec fn spec_value(self) -> u8 {
        match self {
            Digit::One => 1,
            Digit::Two => 2,
            Digit::Three => 3,
            Digit::Four => 4,
            Digit::Five => 5,
            Digit::Six => 6,
            Digit::Seven => 7,
            Digit::Eight => 8,
            Digit::Nine => 9,
        }
    }

    /// The number this digit stands for, between 1 and 9.
    #[verifier::when_used_as_spec(spec_value)]
    pub fn value(self) -> (v: u8)
        ensures
            v == self.spec_value(),
            1 <= v <= 9,
    {
        match self {
            Digit::One => 1,
            Digit::Two => 2,
            Digit::Three => 3,
            Digit::Four => 4,
            Digit::Five => 5,
            Digit::Six => 6,
            Digit::Seven => 7,
            Digit::Eight => 8,
            Digit::Nine => 9,
        }
    }

    /// The digit that the number `v` stands for: none for 0, which marks an empty
    /// cell, and none for a number above 9.
    pub open spec fn spec_from_u8(v: u8) -> Option<Digit> {
        match v {
            1 => Some(Digit::One),
            2 => Some(Digit::Two),
            3 => Some(Digit::Three),
            4 => Some(Digit::Four),
            5 => Some(Digit::Five),
            6 => Some(Digit::Six),
            7 => Some(Digit::Seven),
            8 => Some(Digit::Eight),
            9 => Some(Digit::Nine),
            _ => None,
        }
    }

    /// The digit that the number `v` stands for, if it is one of 1 to 9.
    #[verifier::when_used_as_spec(spec_from_u8)]
    pub fn from_u8(v: u8) -> (r: Option<Digit>)
        ensures
            r == Digit::spec_from_u8(v),
            r is Some <==> 1 <= v <= 9,
            r matches Some(d) ==> d.spec_value() == v,
    {
        match v {
            1 => Some(Digit::One),
            2 => Some(Digit::Two),
            3 => Some(Digit::Three),
            4 => Some(Digit::Four),
            5 => Some(Digit::Five),
            6 => Some(Digit::Six),
            7 => Some(Digit::Seven),
            8 => Some(Digit::Eight),
            9 => Some(Digit::Nine),
            _ => None,
        }
    }
}

/// The digit with the number `n`, for `n` from 1 to 9.
pub open spec fn digit_of(n: int) -> Digit {
    if n <= 1 {
        Digit::One
    } else if n == 2 {
        Digit::Two
    } else if n == 3 {
        Digit::Three
    } else if n == 4 {
        Digit::Four
    } else if n == 5 {
        Digit::Five
    } else if n == 6 {
        Digit::Six
    } else if n == 7 {
        Digit::Seven
    } else if n == 8 {
        Digit::Eight
    } else {
        Digit::Nine
    }
}

/// The number that stands for a cell: 0 for an empty one, else the digit's number.
pub open spec fn cell_value(cell: Option<Digit>) -> u8 {
    match cell {
        Some(d) => d.spec_value(),
        None => 0,
    }
}

/// A number and the digit made from it stand for each other.
pub proof fn lemma_digit_round_trip(d: Digit, v: u8)
    ensures
        Digit::spec_from_u8(d.spec_value()) == Some(d),
        v <= 9 ==> cell_value(Digit::spec_from_u8(v)) == v,
        1 <= v <= 9 ==> Digit::spec_from_u8(v) == Some(digit_of(v as int)),
        digit_of(d.spec_value() as int) == d,
        1 <= d.spec_value() <= 9,
{
}

} // verus!

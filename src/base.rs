//! Nucleotide bases in IUPAC notation.

use vstd::prelude::*;

verus! {

/// A base, or a set of possible bases, in IUPAC notation; `Eq` stands for `=`, a base equal
/// to the reference.
#[derive(Clone, Copy, Debug, Eq, PartialEq, Structural)]
pub enum Base {
    Eq,
    A,
    C,
    M,
    G,
    R,
    S,
    V,
    T,
    W,
    Y,
    H,
    K,
    D,
    B,
    N,
}

/// The complement of a base: each base of the set paired with its partner.
pub open spec fn complement_of(b: Base) -> Base {
    match b {
        Base::Eq => Base::Eq,
        Base::A => Base::T,
        Base::C => Base::G,
        Base::G => Base::C,
        Base::T => Base::A,
        Base::W => Base::W,
        Base::S => Base::S,
        Base::M => Base::K,
        Base::K => Base::M,
        Base::R => Base::Y,
        Base::Y => Base::R,
        Base::B => Base::V,
        Base::D => Base::H,
        Base::H => Base::D,
        Base::V => Base::B,
        Base::N => Base::N,
    }
}

/// The character that names a base.
pub open spec fn char_of(b: Base) -> char {
    match b {
        Base::Eq => '=',
        Base::A => 'A',
        Base::C => 'C',
        Base::G => 'G',
        Base::T => 'T',
        Base::W => 'W',
        Base::S => 'S',
        Base::M => 'M',
        Base::K => 'K',
        Base::R => 'R',
        Base::Y => 'Y',
        Base::B => 'B',
        Base::D => 'D',
        Base::H => 'H',
        Base::V => 'V',
        Base::N => 'N',
    }
}

impl Base {
    /// The complement of the base.
    pub fn complement(self) -> (r: Base)
        ensures
            r == complement_of(self),
    {
        match self {
            Self::Eq => Self::Eq,
            Self::A => Self::T,
            Self::C => Self::G,
            Self::G => Self::C,
            Self::T => Self::A,
            Self::W => Self::W,
            Self::S => Self::S,
            Self::M => Self::K,
            Self::K => Self::M,
            Self::R => Self::Y,
            Self::Y => Self::R,
            Self::B => Self::V,
            Self::D => Self::H,
            Self::H => Self::D,
            Self::V => Self::B,
            Self::N => Self::N,
        }
    }
}

impl From<Base> for char {
    fn from(base: Base) -> (r: char)
        ensures
            r == char_of(base),
    {
        match base {
            Base::Eq => '=',
            Base::A => 'A',
            Base::C => 'C',
            Base::G => 'G',
            Base::T => 'T',
            Base::W => 'W',
            Base::S => 'S',
            Base::M => 'M',
            Base::K => 'K',
            Base::R => 'R',
            Base::Y => 'Y',
            Base::B => 'B',
            Base::D => 'D',
            Base::H => 'H',
            Base::V => 'V',
            Base::N => 'N',
        }
    }
}

impl vstd::std_specs::convert::FromSpecImpl<Base> for char {
    open spec fn obeys_from_spec() -> bool {
        true
    }

    open spec fn from_spec(base: Base) -> char {
        char_of(base)
    }
}

} // verus!

//! The three states of a position of an input row.

use vstd::prelude::*;

verus! {

/// A position of an input row: set, clear, or eliminated by merging.
#[derive(Clone, Copy, Debug, PartialEq, Eq, Structural)]
pub enum Bit {
    On,
    Off,
    NA,
}

/// The bit that stands for a boolean value.
pub open spec fn bit_of(b: bool) -> Bit {
    if b {
        Bit::On
    } else {
        Bit::Off
    }
}

/// The character that shows a bit.
pub open spec fn symbol_of(b: Bit) -> char {
    match b {
        Bit::On => '1',
        Bit::Off => '0',
        Bit::NA => 'x',
    }
}

impl Bit {
    pub fn new(b: bool) -> (r: Bit)
        ensures
            r == bit_of(b),
    {
        if b {
            Bit::On
        } else {
            Bit::Off
        }
    }

    /// The character that shows this bit: `1`, `0`, or `x` when eliminated.
    pub fn symbol(&self) -> (r: char)
        ensures
            r == symbol_of(*self),
    {
        match *self {
            Bit::On => '1',
            Bit::Off => '0',
            Bit::NA => 'x',
        }
    }
}

} // verus!

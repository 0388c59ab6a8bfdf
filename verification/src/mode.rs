//! Speech modes.

use vstd::prelude::*;
use crate::sort_tables::frame_bits;

verus! {

/// Which AMR codec a mode belongs to.
#[derive(Clone, Copy, Debug, PartialEq, Eq, Structural)]
pub enum AmrVariant {
    /// AMR, eight speech modes.
    NarrowBand,
    /// AMR-WB, nine speech modes.
    WideBand,
}

/// A speech mode of one of the codecs.
#[derive(Clone, Copy, Debug, PartialEq, Eq, Structural)]
pub struct AmrMode {
    variant: AmrVariant,
    index: u8,
}

impl AmrMode {
    /// The codec that the mode belongs to.
    pub closed spec fn variant_of(self) -> AmrVariant {
        self.variant
    }

    /// The mode's index.
    pub closed spec fn spec_index(self) -> u8 {
        self.index
    }

    /// The mode with this index, or `None` if the codec has no such mode.
    #[must_use]
    pub fn new(variant: AmrVariant, index: u8) -> (mode: Option<AmrMode>)
        ensures
            mode is Some <==> index <= if variant == AmrVariant::WideBand {
                8int
            } else {
                7
            },
            mode is Some ==> mode->0.spec_index() == index && mode->0.variant_of() == variant,
    {
        let last: u8 = if variant == AmrVariant::WideBand {
            8
        } else {
            7
        };
        if index <= last {
            Some(AmrMode { variant, index })
        } else {
            None
        }
    }

    /// The mode's index.
    #[must_use]
    pub fn index(self) -> (index: u8)
        ensures
            index == self.spec_index(),
    {
        self.index
    }

    /// Speech bits in one frame of a wideband mode.
    #[must_use]
    pub fn bits(self) -> (bits: usize)
        ensures
            bits == frame_bits(self.spec_index() as int),
    {
        match self.index {
            0 => 132,
            1 => 177,
            2 => 253,
            3 => 285,
            4 => 317,
            5 => 365,
            6 => 397,
            7 => 461,
            8 => 477,
            _ => 35,
        }
    }
}

} // verus!

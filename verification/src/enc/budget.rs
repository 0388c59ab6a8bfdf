//! How many pulses a frame can afford, and how hard to search for them.

use vstd::prelude::*;
use crate::fixed_point::Word16;

verus! {

/// How many bits one subframe spends on pulse positions and signs.
///
/// The 12-bit two-pulse codebook of 6.60 kbit/s is not among them: it has a
/// different structure and its own search.
#[derive(Clone, Copy, Debug, PartialEq, Eq, Structural, Hash)]
pub enum PulseBudget {
    /// 20 bits, 4 pulses (8.85 kbit/s).
    B20,
    /// 36 bits, 8 pulses (12.65 kbit/s).
    B36,
    /// 44 bits, 10 pulses (14.25 kbit/s).
    B44,
    /// 52 bits, 12 pulses (15.85 kbit/s).
    B52,
    /// 64 bits, 16 pulses (18.25 kbit/s).
    B64,
    /// 72 bits, 18 pulses (19.85 kbit/s).
    B72,
    /// 88 bits, 24 pulses (23.05 and 23.85 kbit/s).
    B88,
}

impl PulseBudget {
    /// Bits spent on the algebraic codebook in one subframe.
    pub open spec fn spec_bits(self) -> usize {
        match self {
            PulseBudget::B20 => 20,
            PulseBudget::B36 => 36,
            PulseBudget::B44 => 44,
            PulseBudget::B52 => 52,
            PulseBudget::B64 => 64,
            PulseBudget::B72 => 72,
            PulseBudget::B88 => 88,
        }
    }

    /// Bits spent on the algebraic codebook in one subframe.
    #[must_use]
    #[verifier::when_used_as_spec(spec_bits)]
    pub fn bits(self) -> (bits: usize)
        ensures
            bits == self.spec_bits(),
    {
        match self {
            PulseBudget::B20 => 20,
            PulseBudget::B36 => 36,
            PulseBudget::B44 => 44,
            PulseBudget::B52 => 52,
            PulseBudget::B64 => 64,
            PulseBudget::B72 => 72,
            PulseBudget::B88 => 88,
        }
    }

    /// Pulses placed in one subframe.
    pub open spec fn spec_pulses(self) -> usize {
        match self {
            PulseBudget::B20 => 4,
            PulseBudget::B36 => 8,
            PulseBudget::B44 => 10,
            PulseBudget::B52 => 12,
            PulseBudget::B64 => 16,
            PulseBudget::B72 => 18,
            PulseBudget::B88 => 24,
        }
    }

    /// Pulses placed in one subframe.
    #[must_use]
    #[verifier::when_used_as_spec(spec_pulses)]
    pub fn pulses(self) -> (n: usize)
        ensures
            n == self.spec_pulses(),
            n <= 24,
    {
        match self {
            PulseBudget::B20 => 4,
            PulseBudget::B36 => 8,
            PulseBudget::B44 => 10,
            PulseBudget::B52 => 12,
            PulseBudget::B64 => 16,
            PulseBudget::B72 => 18,
            PulseBudget::B88 => 24,
        }
    }

    /// Pulses placed on track `t`: the odd pulses of 44 and 72 bits go to the
    /// first two tracks.
    pub open spec fn pulses_on(self, t: int) -> int {
        match self {
            PulseBudget::B20 => 1,
            PulseBudget::B36 => 2,
            PulseBudget::B44 => if t < 2 {
                3
            } else {
                2
            },
            PulseBudget::B52 => 3,
            PulseBudget::B64 => 4,
            PulseBudget::B72 => if t < 2 {
                5
            } else {
                4
            },
            PulseBudget::B88 => 6,
        }
    }

    /// Packed indices this budget produces.
    #[must_use]
    pub fn index_count(self) -> (n: usize)
        ensures
            n == if self.bits() <= 52 {
                4int
            } else {
                8
            },
    {
        match self {
            PulseBudget::B20 | PulseBudget::B36 | PulseBudget::B44 | PulseBudget::B52 => 4,
            PulseBudget::B64 | PulseBudget::B72 | PulseBudget::B88 => 8,
        }
    }

    /// The budget a frame of `frame_bits` bits uses, or `None` at 6.60 kbit/s
    /// where the two-pulse codebook applies instead.
    pub open spec fn spec_from_frame_bits(frame_bits: usize) -> Option<PulseBudget> {
        if frame_bits <= 132 {
            None
        } else if frame_bits <= 177 {
            Some(PulseBudget::B20)
        } else if frame_bits <= 253 {
            Some(PulseBudget::B36)
        } else if frame_bits <= 285 {
            Some(PulseBudget::B44)
        } else if frame_bits <= 317 {
            Some(PulseBudget::B52)
        } else if frame_bits <= 365 {
            Some(PulseBudget::B64)
        } else if frame_bits <= 397 {
            Some(PulseBudget::B72)
        } else {
            Some(PulseBudget::B88)
        }
    }

    /// The budget a frame of `frame_bits` bits uses, or `None` at 6.60 kbit/s
    /// where the two-pulse codebook applies instead.
    ///
    /// Each rung is "at most this many bits per frame", so an unknown larger
    /// size gets the widest budget.
    #[must_use]
    #[verifier::when_used_as_spec(spec_from_frame_bits)]
    pub fn from_frame_bits(frame_bits: usize) -> (budget: Option<PulseBudget>)
        ensures
            budget == PulseBudget::spec_from_frame_bits(frame_bits),
    {
        if frame_bits <= 132 {
            None
        } else if frame_bits <= 177 {
            Some(PulseBudget::B20)
        } else if frame_bits <= 253 {
            Some(PulseBudget::B36)
        } else if frame_bits <= 285 {
            Some(PulseBudget::B44)
        } else if frame_bits <= 317 {
            Some(PulseBudget::B52)
        } else if frame_bits <= 365 {
            Some(PulseBudget::B64)
        } else if frame_bits <= 397 {
            Some(PulseBudget::B72)
        } else {
            Some(PulseBudget::B88)
        }
    }

    /// Iterations of the depth-first search.
    pub open spec fn spec_iterations(self, frame_bits: usize) -> usize {
        match self {
            PulseBudget::B64 | PulseBudget::B72 => 3,
            PulseBudget::B88 => if frame_bits > 462 {
                1
            } else {
                2
            },
            _ => 4,
        }
    }

    /// Iterations of the depth-first search.
    ///
    /// Only 23.85 kbit/s (477 bits) drops to a single iteration; 23.05 (461)
    /// still gets two.
    #[verifier::when_used_as_spec(spec_iterations)]
    pub fn iterations(self, frame_bits: usize) -> (n: usize)
        ensures
            n == self.spec_iterations(frame_bits),
            1 <= n <= 4,
            4 * n + self.pulses() <= 40,
    {
        match self {
            PulseBudget::B20 | PulseBudget::B36 | PulseBudget::B44 | PulseBudget::B52 => 4,
            PulseBudget::B64 | PulseBudget::B72 => 3,
            PulseBudget::B88 => if frame_bits > 462 {
                1
            } else {
                2
            },
        }
    }

    /// Weight, Q12, of the correlation term in the sign decision.
    pub open spec fn spec_mix_weight(self) -> Word16 {
        match self {
            PulseBudget::B20 => Word16(8192),
            PulseBudget::B64 => Word16(3277),
            PulseBudget::B72 => Word16(3072),
            PulseBudget::B88 => Word16(2048),
            _ => Word16(4096),
        }
    }

    /// Weight, Q12, given to the correlation term when it is mixed with the
    /// LTP residual to decide pulse signs. Falls as the pulse count rises.
    #[verifier::when_used_as_spec(spec_mix_weight)]
    pub fn mix_weight(self) -> (w: Word16)
        ensures
            w == self.spec_mix_weight(),
    {
        match self {
            PulseBudget::B20 => Word16(8192),
            PulseBudget::B36 | PulseBudget::B44 | PulseBudget::B52 => Word16(4096),
            PulseBudget::B64 => Word16(3277),
            PulseBudget::B72 => Word16(3072),
            PulseBudget::B88 => Word16(2048),
        }
    }

    /// Candidate positions tried for the outer pulse of two-pulse stage
    /// `stage`.
    pub open spec fn spec_stage_width(self, stage: usize) -> i16 {
        match self {
            PulseBudget::B20 => if stage == 0 {
                4
            } else {
                8
            },
            PulseBudget::B36 => if stage == 0 {
                4
            } else {
                8
            },
            PulseBudget::B44 | PulseBudget::B52 => if stage == 0 {
                4
            } else if stage == 1 {
                6
            } else {
                8
            },
            PulseBudget::B64 => if stage < 2 {
                4
            } else if stage < 4 {
                6
            } else {
                8
            },
            PulseBudget::B72 => (stage + 2) as i16,
            PulseBudget::B88 => if stage < 2 {
                2
            } else if stage < 8 {
                (stage + 1) as i16
            } else {
                8
            },
        }
    }

    /// Candidate positions tried for the *outer* pulse of each two-pulse stage.
    ///
    /// The inner pulse always tries all 16 positions of its track; the outer one
    /// is restricted to the best-ranked positions of its own track, which is
    /// what keeps the search affordable as the pulse count grows.
    #[verifier::when_used_as_spec(spec_stage_width)]
    pub fn stage_width(self, stage: usize) -> (w: i16)
        requires
            stage < 10,
        ensures
            w == self.spec_stage_width(stage),
    {
        match self {
            PulseBudget::B20 | PulseBudget::B36 => if stage == 0 {
                4
            } else {
                8
            },
            PulseBudget::B44 | PulseBudget::B52 => if stage == 0 {
                4
            } else if stage == 1 {
                6
            } else {
                8
            },
            PulseBudget::B64 => if stage < 2 {
                4
            } else if stage < 4 {
                6
            } else {
                8
            },
            PulseBudget::B72 => (stage + 2) as i16,
            PulseBudget::B88 => if stage < 2 {
                2
            } else if stage < 8 {
                (stage + 1) as i16
            } else {
                8
            },
        }
    }

    /// Pulses fixed by the first stage.
    pub open spec fn spec_first_stage_pulses(self) -> usize {
        match self {
            PulseBudget::B20 => 0,
            PulseBudget::B36 | PulseBudget::B44 => 2,
            _ => 4,
        }
    }

    /// Pulses fixed by the first stage, before the two-at-a-time stages begin.
    #[verifier::when_used_as_spec(spec_first_stage_pulses)]
    pub fn first_stage_pulses(self) -> (n: usize)
        ensures
            n == self.spec_first_stage_pulses(),
    {
        match self {
            PulseBudget::B20 => 0,
            PulseBudget::B36 | PulseBudget::B44 => 2,
            PulseBudget::B52 | PulseBudget::B64 | PulseBudget::B72 | PulseBudget::B88 => 4,
        }
    }
}

} // verus!

use vstd::prelude::*;

verus! {

/// Sign bit of an IEEE-754 double.
pub const SIGN_BIT: u64 = 0x8000_0000_0000_0000;

/// A 64-bit floating-point score, held as its IEEE-754 bit pattern.
///
/// Scores are compared by `score_key`, which maps the bit pattern to an
/// unsigned integer whose order is the IEEE-754 total order on doubles, with
/// negative zero identified with positive zero.
#[derive(Clone, Copy, PartialEq, Eq, Structural, Debug)]
pub struct Score {
    pub bits: u64,
}

/// The ordering key of a score's bit pattern: negative doubles have their bits
/// inverted, non-negative ones have the sign bit set.
pub open spec fn score_key(bits: u64) -> u64 {
    if bits == SIGN_BIT {
        SIGN_BIT
    } else if bits >= SIGN_BIT {
        (u64::MAX - bits) as u64
    } else {
        (bits + SIGN_BIT) as u64
    }
}

impl Score {
    /// The score whose IEEE-754 bit pattern is `bits`.
    pub fn from_bits(bits: u64) -> (r: Score)
        ensures
            r.bits == bits,
    {
        Score { bits }
    }

    /// The IEEE-754 bit pattern of this score.
    pub fn to_bits(&self) -> (r: u64)
        ensures
            r == self.bits,
    {
        self.bits
    }

    pub open spec fn spec_key(&self) -> u64 {
        score_key(self.bits)
    }

    /// The ordering key of this score.
    pub fn key(&self) -> (r: u64)
        ensures
            r == self.spec_key(),
    {
        if self.bits == SIGN_BIT {
            SIGN_BIT
        } else if self.bits >= SIGN_BIT {
            u64::MAX - self.bits
        } else {
            self.bits + SIGN_BIT
        }
    }
}

} // verus!

//! What can go wrong.

use vstd::prelude::*;

verus! {

/// Which shape a vector or matrix failed to have.
#[derive(Debug, Clone, PartialEq, Eq)]
pub enum Dimensions {
    /// A mapping with no rows.
    EmptyMapping,
    /// A mapping row with the wrong number of entries.
    MappingRow { found: usize, expected: usize },
    /// No commas to temper out.
    NoCommas,
    /// A comma with the wrong number of entries.
    Comma { found: usize, expected: usize },
    /// Commas that span the whole space, leaving a temperament of rank 0.
    RankZero,
    /// An interval with the wrong number of entries.
    Interval { found: usize, expected: usize },
    /// Notation coordinates with the wrong number of entries.
    Coordinates { found: usize, expected: usize },
}

/// Why the library cannot do what was asked.
#[derive(Debug, Clone, PartialEq, Eq)]
pub enum Unsupported {
    /// No fifth within reach of the prime puts it within half an apotome.
    NoAccidental { prime: u32 },
    /// An accidental symbol that the note names already use.
    ReservedSymbol(char),
    /// An accidental symbol used twice.
    RepeatedSymbol(char),
    /// The octave, the fifth and the accidentals do not reach every pitch.
    DoesNotReach,
    /// No notation of the temperament exists.
    NoNotation,
    /// No notation keeps exactly this many accidentals.
    NoNotationOfSize(usize),
}

/// The errors of this library.
#[derive(Debug, Clone, PartialEq, Eq)]
pub enum Error {
    /// A vector or matrix does not have the shape it must.
    InvalidDimensions(Dimensions),
    /// Something the library cannot do.
    Unsupported(Unsupported),
    /// A list of primes that is not a subgroup basis: it must run `2.3.`
    /// then further primes in increasing order.
    InvalidSubgroup,
    /// A ratio with a prime factor outside the subgroup, or zero.
    NotInSubgroup,
    /// A number the computation needs that does not fit in 64 bits: a ratio's
    /// numerator or denominator, or a point or a rank of a walk.
    Overflow,
    /// A lattice computation the library was handed did not succeed, or
    /// handed back what it does not claim.
    Lattice,
}

} // verus!

//! Notation of regular temperaments as integer linear maps.

pub mod accidental;
pub mod error;
pub mod notation;
pub mod options;
pub mod natural;
pub mod ranking;
pub mod simplify;
pub mod spelling;
pub mod subgroup;
pub mod temperament;
pub mod vector;
pub mod walk;

pub use error::Error;
pub use simplify::sopfr;
pub use subgroup::Subgroup;

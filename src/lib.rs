//! Semantic-style version numbers: parsing `MAJOR.MINOR[.PATCH][-SUFFIX]`,
//! deciding which of two versions is more recent, and rendering a version
//! back to text.
use vstd::prelude::*;

pub mod text;
pub mod version;

pub use version::{ParseError, Version, VersionModel};

verus! {

/// `std::num::ParseIntError`, carried opaquely inside `ParseError::IntError`.
#[verifier::external_type_specification]
#[verifier::external_body]
pub struct ExParseIntError(std::num::ParseIntError);

} // verus!

//! A recipe collection manager: a plain-text recipe format with a
//! round-trip parser and formatter, and directory-identity logic that keeps
//! a recipe's on-disk name in step with its title.

pub mod config;
pub mod directory;
pub mod errors;
pub mod filter;
pub mod ingredient;
pub mod list;
pub mod metadata;
pub mod reader;
pub mod recipe;
pub mod strings;
pub mod util;

use vstd::prelude::*;

verus! {

/// Errors of the library as a whole, beyond recipe-text parsing.
#[derive(Debug)]
pub enum Error {
    /// A recipe title was empty or all whitespace.
    EmptyRecipeTitle,
    /// The recipe text violated the grammar.
    Parse(crate::errors::ParseError),
}

} // verus!

//! Errors raised while compiling filter and join configuration.

use vstd::prelude::*;

verus! {

/// Why a filter or join configuration was rejected.
#[derive(Debug)]
pub enum LoadError {
    /// Two roots were given the same name; each root must have a unique name.
    DuplicateRootName(String),
    /// An illegal combination of `start` / `while` / `end` inputs, recorded
    /// as which of the three were present.
    JoinInvalidInput((bool, bool, bool)),
    /// A pattern that the regex engine rejected; carries the pattern.
    InvalidRegex(String),
}

/// The category of a load error.
#[derive(Debug, Clone, Copy, PartialEq, Eq, Structural)]
pub enum Category {
    Yaml,
    FilterSyntax,
    JoinSyntax,
}

impl LoadError {
    /// The category of this error.
    pub fn categorize(&self) -> (c: Category)
        ensures
            c == spec_categorize(*self),
    {
        match self {
            LoadError::DuplicateRootName(_) => Category::FilterSyntax,
            LoadError::InvalidRegex(_) => Category::FilterSyntax,
            LoadError::JoinInvalidInput(_) => Category::JoinSyntax,
        }
    }
}

/// Which category each load error belongs to.
pub open spec fn spec_categorize(e: LoadError) -> Category {
    match e {
        LoadError::DuplicateRootName(_) => Category::FilterSyntax,
        LoadError::InvalidRegex(_) => Category::FilterSyntax,
        LoadError::JoinInvalidInput(_) => Category::JoinSyntax,
    }
}

} // verus!

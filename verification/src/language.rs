//! The languages that the pipeline tells apart.

use vstd::prelude::*;

verus! {

/// A language that text is read or written in.
#[derive(Clone, Copy, Debug, PartialEq, Eq, PartialOrd, Ord, Hash, Structural)]
pub enum Language {
    Japanese,
    ChineseSimplified,
    ChineseTraditional,
    English,
    Korean,
    Russian,
    Other,
}

} // verus!

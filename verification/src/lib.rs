//! Unix shell style glob patterns: compilation, matching and directory
//! traversal.
//!
//! A [`Pattern`] is compiled once from its text and can then be matched
//! against any number of candidate strings. [`glob`] prepares a lazy,
//! depth-first traversal that is driven one step at a time: the traversal
//! never touches a filesystem itself, it asks its caller what it needs to know.

pub mod chars;
pub mod class;
pub mod collapse;
pub mod escape;
pub mod matcher;
pub mod options;
pub mod order;
pub mod pattern;
pub mod repeated;
pub mod segments;
pub mod text;
pub mod walk;
pub mod whole;

pub use matcher::MatchResult;
pub use options::MatchOptions;
pub use pattern::{Error, Pattern};
pub use walk::{glob, glob_with, Paths, Query, Reply, Step};

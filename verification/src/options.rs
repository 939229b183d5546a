//! Options that modify how a pattern is matched.

use vstd::prelude::*;

verus! {

/// Configuration options to modify the behaviour of `Pattern::matches_with`.
#[derive(Clone, Copy, PartialEq, Eq, PartialOrd, Ord, Hash, Debug)]
pub struct MatchOptions {
    /// Whether or not patterns should be matched in a case-sensitive manner.
    /// Only the case of ASCII letters is ever ignored.
    pub case_sensitive: bool,
    /// If this is true then path separators must be matched by a literal
    /// `/`, rather than by `*` or `?` or `[...]`.
    pub require_literal_separator: bool,
    /// If this is true then a `.` at the start of a path component must be
    /// matched by a literal `.`: `*`, `?` or `[...]` will not match it.
    pub require_literal_leading_dot: bool,
}

impl MatchOptions {
    /// The options used where none are given: case-sensitive, with no
    /// demand on separators or leading dots.
    pub open spec fn standard() -> MatchOptions {
        MatchOptions {
            case_sensitive: true,
            require_literal_separator: false,
            require_literal_leading_dot: false,
        }
    }

    /// Constructs a new `MatchOptions` with default field values. This is
    /// used when calling functions that do not take an explicit
    /// `MatchOptions` parameter.
    pub fn new() -> (options: MatchOptions)
        ensures
            options == MatchOptions::standard(),
    {
        MatchOptions {
            case_sensitive: true,
            require_literal_separator: false,
            require_literal_leading_dot: false,
        }
    }
}

impl Default for MatchOptions {
    /// All three options switched off.
    fn default() -> (options: MatchOptions)
        ensures
            !options.case_sensitive,
            !options.require_literal_separator,
            !options.require_literal_leading_dot,
    {
        MatchOptions {
            case_sensitive: false,
            require_literal_separator: false,
            require_literal_leading_dot: false,
        }
    }
}

} // verus!

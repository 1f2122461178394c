//! In-memory accumulator for command-line argument matching.
//!
//! While a parsing driver walks a token stream left to right, it records here
//! how many times each recognized argument occurred and which raw values were
//! attached to it, and it asks `needs_more_vals` whether the argument it is
//! currently consuming values for still needs more.

pub mod arg_matches;
pub mod arg_matcher;

pub use crate::arg_matches::MatchedArg;
pub use crate::arg_matches::SubCommand;
pub use crate::arg_matches::ArgMatches;
pub use crate::arg_matcher::ArgMatcher;
pub use crate::arg_matcher::ArgSpec;

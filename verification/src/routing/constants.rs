//! Limits of the journey search.
use vstd::prelude::*;

verus! {

/// Number of rounds of a search. The routes that a search begins with have
/// one ride at most, and each round adds one ride to the routes of the round
/// before: no route that is found has more rides than there are rounds.
pub const MAXIMUM_NUMBER_OF_EXPLORABLE_CONNECTIONS: usize = 8;

} // verus!

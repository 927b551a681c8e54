//! Answers that layout hands back to script queries.
use vstd::prelude::*;

verus! {

/// The resolved value of a property, or `None` when it has none.
pub struct ResolvedStyleResponse(pub Option<String>);

} // verus!

//! The shapes of the query parameters the boundary hands to the read
//! paths.

use vstd::prelude::*;

verus! {

/// Parameters of a paginated projection query: the category to list
/// and the last identifier already seen, if any.
#[derive(Clone, Debug)]
pub struct FetchStatesParam {
    pub data_type: String,
    pub last_sync_id: Option<String>,
}

/// Parameter of a fuzzy host-name lookup.
#[derive(Clone, Debug)]
pub struct FetchStateParam {
    pub host: String,
}

} // verus!

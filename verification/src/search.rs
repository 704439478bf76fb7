use vstd::prelude::*;

use crate::strings::to_string;

verus! {

/// Search request state used by the core crate.
#[derive(Debug, Clone, PartialEq, Eq)]
pub struct SearchQuery {
    pub query: String,
    pub fields: Vec<String>,
    pub sorts: Vec<String>,
    pub full_text_search: bool,
    pub dsl_fts: bool,
}

impl SearchQuery {
    /// Construct a new search query: no fields, no sorts, and neither kind of
    /// full-text search.
    pub fn new(query: &str) -> (r: Self)
        ensures
            r.query@ == query@,
            r.fields@.len() == 0,
            r.sorts@.len() == 0,
            !r.full_text_search,
            !r.dsl_fts,
    {
        SearchQuery {
            query: to_string(query),
            fields: Vec::new(),
            sorts: Vec::new(),
            full_text_search: false,
            dsl_fts: false,
        }
    }
}

} // verus!

//! Query requests sent by clients.

use vstd::prelude::*;

use crate::kv::{Query, QueryView};

verus! {

/// Request from a client to run a query on the replicated machine.
#[derive(Debug, PartialEq, Eq)]
pub struct QueryRequest {
    pub query: Query,
}

/// Mathematical image of a [`QueryRequest`].
#[verifier::ext_equal]
pub ghost struct QueryRequestView {
    pub query: QueryView,
}

impl View for QueryRequest {
    type V = QueryRequestView;

    open spec fn view(&self) -> QueryRequestView {
        QueryRequestView { query: self.query@ }
    }
}

impl QueryRequest {
    /// Creates a query request.
    pub fn new(query: Query) -> (r: QueryRequest)
        ensures
            r@ == (QueryRequestView { query: query@ }),
    {
        QueryRequest { query }
    }
}

impl Clone for QueryRequest {
    /// Clones the request; the copy has the same view.
    fn clone(&self) -> (r: QueryRequest)
        ensures
            r@ == self@,
    {
        QueryRequest { query: self.query.clone() }
    }
}

} // verus!

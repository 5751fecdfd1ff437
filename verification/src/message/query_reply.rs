//! Replies to query requests.

use vstd::prelude::*;

use crate::errors::ClientError;
use crate::kv::{QueryResult, QueryResultView};

verus! {

/// Reply to a [`crate::message::QueryRequest`].
#[derive(Debug, PartialEq, Eq)]
pub struct QueryReply {
    pub result: Result<QueryResult, ClientError>,
}

/// Mathematical image of a [`QueryReply`].
#[verifier::ext_equal]
pub ghost struct QueryReplyView {
    pub result: Result<QueryResultView, ClientError>,
}

impl View for QueryReply {
    type V = QueryReplyView;

    open spec fn view(&self) -> QueryReplyView {
        QueryReplyView {
            result: match &self.result {
                Ok(result) => Ok(result@),
                Err(error) => Err(*error),
            },
        }
    }
}

impl QueryReply {
    /// Creates a query reply.
    pub fn new(result: Result<QueryResult, ClientError>) -> (r: QueryReply)
        ensures
            r@.result == match result {
                Ok(inner) => Ok::<QueryResultView, ClientError>(inner@),
                Err(error) => Err(error),
            },
    {
        QueryReply { result }
    }

    /// Gets the carried result.
    pub fn result(&self) -> (r: &Result<QueryResult, ClientError>)
        ensures
            self@.result == match r {
                Ok(inner) => Ok::<QueryResultView, ClientError>(inner@),
                Err(error) => Err(*error),
            },
    {
        &self.result
    }
}

impl Clone for QueryReply {
    /// Clones the reply; the copy has the same view.
    fn clone(&self) -> (r: QueryReply)
        ensures
            r@ == self@,
    {
        QueryReply {
            result: match &self.result {
                Ok(result) => Ok(result.clone()),
                Err(error) => Err(*error),
            },
        }
    }
}

} // verus!

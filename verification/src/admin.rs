//! The administrative endpoints: what they answer to a request, which is a
//! refusal in every case. A request must carry the configured token; the
//! operations behind it, which would change the index, do not exist.

use vstd::prelude::*;
use vstd::string::*;
use crate::index::opt_text;
use crate::query::AppState;
use crate::strings::str_eq;

verus! {

/// Why an administrative request is refused.
#[derive(Debug, Clone, Copy, PartialEq, Eq)]
pub enum AdminRefusal {
    /// The server has no token configured.
    TokenNotSet,
    /// The request's token is not the configured one.
    InvalidToken,
    /// The request is authorized, but batches cannot be indexed.
    BatchNotImplemented,
    /// The request is authorized, but there is nothing to commit.
    CommitNotImplemented,
}

impl AdminRefusal {
    /// The HTTP status of the refusal: 401 without authorization, else 501.
    pub open spec fn status_code(self) -> u16 {
        match self {
            AdminRefusal::TokenNotSet => 401,
            AdminRefusal::InvalidToken => 401,
            AdminRefusal::BatchNotImplemented => 501,
            AdminRefusal::CommitNotImplemented => 501,
        }
    }

    /// The text that goes with the refusal.
    pub open spec fn message_text(self) -> Seq<char> {
        match self {
            AdminRefusal::TokenNotSet => "ADMIN_TOKEN not set"@,
            AdminRefusal::InvalidToken => "invalid admin token"@,
            AdminRefusal::BatchNotImplemented => "Incremental indexing not implemented"@,
            AdminRefusal::CommitNotImplemented => "Commit not implemented"@,
        }
    }

    /// The HTTP status of the refusal.
    pub fn status(&self) -> (code: u16)
        ensures
            code == self.status_code(),
    {
        match self {
            AdminRefusal::TokenNotSet => 401,
            AdminRefusal::InvalidToken => 401,
            AdminRefusal::BatchNotImplemented => 501,
            AdminRefusal::CommitNotImplemented => 501,
        }
    }

    /// The text that goes with the refusal.
    pub fn message(&self) -> (text: String)
        ensures
            text@ == self.message_text(),
    {
        match self {
            AdminRefusal::TokenNotSet => String::from_str("ADMIN_TOKEN not set"),
            AdminRefusal::InvalidToken => String::from_str("invalid admin token"),
            AdminRefusal::BatchNotImplemented => String::from_str(
                "Incremental indexing not implemented",
            ),
            AdminRefusal::CommitNotImplemented => String::from_str("Commit not implemented"),
        }
    }
}

/// Whether a request with the provided token passes: a token is configured and
/// the provided one equals it.
pub open spec fn authorization(configured: Option<Seq<char>>, provided: Seq<char>) -> Result<
    (),
    AdminRefusal,
> {
    match configured {
        None => Err(AdminRefusal::TokenNotSet),
        Some(required) => if provided == required {
            Ok(())
        } else {
            Err(AdminRefusal::InvalidToken)
        },
    }
}

/// Checks the token of an administrative request. A request without a token
/// provides the empty one.
pub fn authorize(state: &AppState, provided: &str) -> (r: Result<(), AdminRefusal>)
    ensures
        r == authorization(opt_text(state.admin_token), provided@),
{
    match &state.admin_token {
        None => Err(AdminRefusal::TokenNotSet),
        Some(required) => {
            if str_eq(provided, required.as_str()) {
                Ok(())
            } else {
                Err(AdminRefusal::InvalidToken)
            }
        },
    }
}

/// Answers a request to index a batch of documents.
pub fn index_batch(state: &AppState, provided: &str) -> (r: AdminRefusal)
    ensures
        r == match authorization(opt_text(state.admin_token), provided@) {
            Ok(_) => AdminRefusal::BatchNotImplemented,
            Err(e) => e,
        },
{
    match authorize(state, provided) {
        Ok(_) => AdminRefusal::BatchNotImplemented,
        Err(e) => e,
    }
}

/// Answers a request to commit what was indexed.
pub fn index_commit(state: &AppState, provided: &str) -> (r: AdminRefusal)
    ensures
        r == match authorization(opt_text(state.admin_token), provided@) {
            Ok(_) => AdminRefusal::CommitNotImplemented,
            Err(e) => e,
        },
{
    match authorize(state, provided) {
        Ok(_) => AdminRefusal::CommitNotImplemented,
        Err(e) => e,
    }
}

} // verus!

//! Driver-facing error taxonomy and the backend-error classification that
//! every driver applies at its boundary.

pub mod mysql;

use vstd::prelude::*;
use vstd::string::*;
use crate::strutil::{contains_seq, str_contains};

verus! {

/// The closed error taxonomy. Low-level driver failures are classified into
/// these variants at the driver boundary; raw backend error types never
/// escape. Callers rely on `AuthFailedError` and `ConnectionTimeout` being
/// distinguishable from every generic failure.
#[derive(Debug, Clone, PartialEq)]
pub enum DBError {
    /// Generic backend failure, with a message.
    DatabaseError(String),
    /// A session could not be established or reused.
    ConnectionError(String),
    /// The pool acquire timeout elapsed.
    ConnectionTimeout,
    /// The backend rejected the supplied credentials.
    AuthFailedError,
    /// A specific statement failed.
    QueryError(String),
    /// Reserved for future transactional operations.
    TransactionError(String),
    /// Any lower-level driver error not otherwise classified.
    UnderlyingDriverError(String),
}

/// The user-facing rendering of an error.
pub open spec fn db_error_text(e: DBError) -> Seq<char> {
    match e {
        DBError::DatabaseError(s) => "Database error: "@ + s@,
        DBError::ConnectionError(s) => "Database connection error: "@ + s@,
        DBError::ConnectionTimeout => "Database connection timeout"@,
        DBError::AuthFailedError => "Database auth failed"@,
        DBError::QueryError(s) => "Database query error: "@ + s@,
        DBError::TransactionError(s) => "Database transaction error: "@ + s@,
        DBError::UnderlyingDriverError(s) => "Underlying driver error: "@ + s@,
    }
}

impl DBError {
    /// One display line for the error, used wherever the UI shows it.
    pub fn message(&self) -> (r: String)
        ensures
            r@ == db_error_text(*self),
    {
        match self {
            DBError::DatabaseError(s) => {
                let mut m = String::from_str("Database error: ");
                m.append(s.as_str());
                m
            },
            DBError::ConnectionError(s) => {
                let mut m = String::from_str("Database connection error: ");
                m.append(s.as_str());
                m
            },
            DBError::ConnectionTimeout => String::from_str("Database connection timeout"),
            DBError::AuthFailedError => String::from_str("Database auth failed"),
            DBError::QueryError(s) => {
                let mut m = String::from_str("Database query error: ");
                m.append(s.as_str());
                m
            },
            DBError::TransactionError(s) => {
                let mut m = String::from_str("Database transaction error: ");
                m.append(s.as_str());
                m
            },
            DBError::UnderlyingDriverError(s) => {
                let mut m = String::from_str("Underlying driver error: ");
                m.append(s.as_str());
                m
            },
        }
    }
}

/// The view of an optional string.
pub open spec fn opt_string_view(o: Option<String>) -> Option<Seq<char>> {
    match o {
        Some(s) => Some(s@),
        None => None,
    }
}

/// An authentication failure: the backend reported the SQL-standard
/// "invalid authorization" class and its message says access was denied.
pub open spec fn is_auth_failure(code: Option<Seq<char>>, message: Option<Seq<char>>) -> bool {
    code == Some("28000"@) && message is Some && contains_seq(message.unwrap(), "Access denied"@)
}

/// Classifies a low-level connection failure, described by plain values,
/// into the three-way contract the UI depends on:
/// authentication failure, pool-acquire timeout, or generic connection
/// error carrying the formatted cause.
///
/// `code` and `db_message` are the backend error code and message when the
/// failure carried them; `pool_timeout` says whether the failure was the
/// pool's acquire timeout; `description` is the formatted underlying cause.
pub fn classify_connect_failure(
    code: Option<String>,
    db_message: Option<String>,
    pool_timeout: bool,
    description: String,
) -> (r: DBError)
    ensures
        is_auth_failure(opt_string_view(code), opt_string_view(db_message)) ==> r
            == DBError::AuthFailedError,
        !is_auth_failure(opt_string_view(code), opt_string_view(db_message)) && pool_timeout ==> r
            == DBError::ConnectionTimeout,
        !is_auth_failure(opt_string_view(code), opt_string_view(db_message)) && !pool_timeout ==> r
            is ConnectionError && r->ConnectionError_0@ == description@,
{
    let auth: bool = match (&code, &db_message) {
        (Some(c), Some(m)) => {
            let auth_code = String::from_str("28000");
            if *c == auth_code {
                str_contains(m.as_str(), "Access denied")
            } else {
                false
            }
        },
        _ => false,
    };
    proof {
        assert(auth == is_auth_failure(opt_string_view(code), opt_string_view(db_message)));
    }
    if auth {
        DBError::AuthFailedError
    } else if pool_timeout {
        DBError::ConnectionTimeout
    } else {
        DBError::ConnectionError(description)
    }
}

} // verus!

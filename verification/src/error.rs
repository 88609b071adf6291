//! The closed error taxonomy of the catalog service, and its mapping to
//! HTTP status codes.

use vstd::prelude::*;

verus! {

/// Every failure the core can report.
///
/// `UserNotAuthorized`: the request carried no credential, or an invalid or
/// expired one. `UserNotAllowed`: the credential was valid but none of its
/// emails is allow-listed. `Authorize`: an identity-provider or
/// token-minting anomaly whose detail must not leak to the client.
/// `S3`: an object-store operation failed; the payload is a human-readable
/// message.
#[derive(Debug, Clone, PartialEq, Eq)]
pub enum Error {
    UserNotAuthorized,
    UserNotAllowed,
    Authorize,
    S3(String),
}

impl Error {
    /// The HTTP status code a failure is rendered with: credential problems
    /// are 401, everything else is an internal error.
    pub fn status_code(&self) -> (code: u16)
        ensures
            code == self.spec_status_code(),
    {
        match self {
            Error::UserNotAuthorized => 401,
            Error::UserNotAllowed => 401,
            Error::Authorize => 500,
            Error::S3(_) => 500,
        }
    }

    pub open spec fn spec_status_code(&self) -> u16 {
        match self {
            Error::UserNotAuthorized => 401,
            Error::UserNotAllowed => 401,
            Error::Authorize => 500,
            Error::S3(_) => 500,
        }
    }
}

} // verus!

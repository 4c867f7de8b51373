//! Static AWS credentials.

use vstd::prelude::*;

verus! {

/// Explicit static credentials, for deployments with no ambient AWS credential
/// chain (DynamoDB Local / Alternator accept any non-empty pair). They have no
/// `Debug` form of their own, so that the secret parts never reach a log.
#[derive(Clone)]
pub struct StaticCredentials {
    pub access_key_id: String,
    pub secret_access_key: String,
    pub session_token: Option<String>,
}

impl StaticCredentials {
    /// The loggable form: the key id as it is, the secret and the session token
    /// blotted out.
    pub fn redacted(&self) -> (shown: StaticCredentials)
        ensures
            shown.access_key_id == self.access_key_id,
            shown.secret_access_key@ == "<redacted>"@,
            match shown.session_token {
                Some(token) => self.session_token is Some && token@ == "<redacted>"@,
                None => self.session_token is None,
            },
    {
        StaticCredentials {
            access_key_id: self.access_key_id.clone(),
            secret_access_key: "<redacted>".to_owned(),
            session_token: match &self.session_token {
                Some(_) => Some("<redacted>".to_owned()),
                None => None,
            },
        }
    }
}

/// Static credentials of a DynamoDB endpoint.
pub type DynamoCredentials = StaticCredentials;

} // verus!

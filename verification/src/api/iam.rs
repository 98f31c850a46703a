//! The access token of IBM Cloud IAM.

use vstd::prelude::*;

verus! {

/// The access token returned by IBM Cloud IAM after authentication.
pub struct IAM {
    /// Bearer token sent with every request.
    pub access_token: String,
    /// Token that renews the access without a new authentication.
    pub refresh_token: String,
    /// Validity of the token, in seconds.
    pub expires_in: u64,
    /// Unix time at which the token expires.
    pub expiration: u64,
}

impl IAM {
    /// The empty token: no access or refresh token, no validity.
    pub open spec fn is_empty_token(&self) -> bool {
        &&& self.access_token@ == Seq::<char>::empty()
        &&& self.refresh_token@ == Seq::<char>::empty()
        &&& self.expires_in == 0
        &&& self.expiration == 0
    }
}

impl Default for IAM {
    /// An empty token, used before the first authentication.
    fn default() -> (r: IAM)
        ensures
            r.is_empty_token(),
    {
        IAM { access_token: String::new(), refresh_token: String::new(), expires_in: 0, expiration: 0 }
    }
}

} // verus!

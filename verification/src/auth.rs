use vstd::prelude::*;

verus! {

/// Credentials for basic authentication.
pub struct BasicAuth {
    pub username: String,
    pub password: String,
}

/// Credentials for an OAuth token exchange.
pub struct OAuth {
    pub grant_type: String,
    pub token_url: String,
    pub client_id: String,
    pub client_secret: String,
}

/// The ways a request can authenticate.
pub enum Auth {
    Basic(BasicAuth),
    OAuth(OAuth),
}

} // verus!

//! The shared-secret gate: a request carries a token, and it must equal the
//! configured one.

use vstd::prelude::*;

use crate::strutil::str_eq;

verus! {

/// A proof of authentication: holds the accepted token.
pub struct AuthToken {
    token: String,
}

impl View for AuthToken {
    type V = Seq<char>;

    closed spec fn view(&self) -> Seq<char> {
        self.token@
    }
}

impl AuthToken {
    /// Accepts the provided token exactly when it equals the configured
    /// one.
    pub fn check(configured: &str, provided: &str) -> (r: Option<AuthToken>)
        ensures
            r matches Some(t) ==> provided@ == configured@ && t@ == provided@,
            r is None ==> provided@ != configured@,
    {
        if str_eq(configured, provided) {
            Some(AuthToken { token: provided.to_owned() })
        } else {
            None
        }
    }
}

/// One navigation link of the repository's configuration.
pub struct Link {
    pub name: String,
    pub url: String,
    pub active: bool,
}

pub struct LinkView {
    pub name: Seq<char>,
    pub url: Seq<char>,
    pub active: bool,
}

impl View for Link {
    type V = LinkView;

    open spec fn view(&self) -> LinkView {
        LinkView { name: self.name@, url: self.url@, active: self.active }
    }
}

} // verus!

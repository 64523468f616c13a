//! Credentials for the remote stores: an opaque secret and the
//! username/password pair used by the WebDAV file store.

use vstd::prelude::*;

verus! {

/// A user name for an authenticated remote store.
pub type UserName = String;

/// An API key or password. The inner string is private so that callers go
/// through `as_str` deliberately rather than formatting it by accident.
#[derive(Clone)]
pub struct Secret(String);

impl View for Secret {
    type V = Seq<char>;

    closed spec fn view(&self) -> Seq<char> {
        self.0@
    }
}

impl Secret {
    /// The secret's characters, for handing to a transport layer.
    pub fn as_str(&self) -> (r: &str)
        ensures
            r@ == self@,
    {
        self.0.as_str()
    }

    /// Surrenders the secret as a plain string.
    pub fn into_string(self) -> (r: String)
        ensures
            r@ == self@,
    {
        self.0
    }
}

impl From<String> for Secret {
    fn from(s: String) -> (r: Self)
        ensures
            r@ == s@,
    {
        Secret(s)
    }
}

impl vstd::std_specs::convert::FromSpecImpl<String> for Secret {
    open spec fn obeys_from_spec() -> bool {
        true
    }

    closed spec fn from_spec(s: String) -> Self {
        Secret(s)
    }
}

impl From<&str> for Secret {
    fn from(s: &str) -> (r: Self)
        ensures
            r@ == s@,
    {
        Secret(s.to_owned())
    }
}

impl vstd::std_specs::convert::FromSpecImpl<&str> for Secret {
    open spec fn obeys_from_spec() -> bool {
        false
    }

    closed spec fn from_spec(s: &str) -> Self {
        vstd::pervasive::arbitrary()
    }
}

/// The credentials of the WebDAV file store.
pub struct WebDavAuth {
    pub username: UserName,
    pub password: Secret,
}

} // verus!

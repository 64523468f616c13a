//! What a Zotero API key is allowed to touch, and the check a session makes
//! before it accepts the key.

use vstd::prelude::*;

verus! {

/// Per-user permissions reported for an API key.
#[derive(Debug, Clone, PartialEq, Eq, Structural)]
pub struct User {
    pub library: bool,
    pub files: bool,
    pub notes: bool,
    pub write: bool,
}

/// The access block of a key-info response.
#[derive(Debug, Clone, PartialEq, Eq, Structural)]
pub struct Access {
    pub user: User,
}

impl Default for User {
    fn default() -> (r: Self)
        ensures
            r == (User { library: false, files: false, notes: false, write: false }),
    {
        User { library: false, files: false, notes: false, write: false }
    }
}

impl Default for Access {
    fn default() -> (r: Self)
        ensures
            r == (Access { user: User { library: false, files: false, notes: false, write: false } }),
    {
        Access { user: User { library: false, files: false, notes: false, write: false } }
    }
}

/// A session is usable only when the key can reach the user's files, library
/// and notes; a key missing any of the three is rejected at login.
pub fn has_required_access(access: &Access) -> (r: bool)
    ensures
        r == (access.user.files && access.user.library && access.user.notes),
{
    access.user.files && access.user.library && access.user.notes
}

/// Whether a key-info response's status lets the session proceed: any
/// success, or a not-modified answer (status code 304).
pub fn session_status_ok(is_success: bool, status_code: u16) -> (r: bool)
    ensures
        r == (is_success || status_code == 304),
{
    is_success || status_code == 304
}

} // verus!

use vstd::prelude::*;

verus! {

/// The `doctype` of a document that its owner shared with another user:
/// the receiver holds a reference, and the owner's copy is the one served.
pub const SHARED_DOCTYPE: i32 = 1;

/// The user field that a document store request matches on.
#[derive(Clone, Copy, Debug, PartialEq, Eq, Structural)]
pub enum UserKey {
    Username,
    Email,
}

impl UserKey {
    /// The name of the field in a stored user record.
    pub fn field_name(&self) -> (r: &'static str)
        ensures
            *self == UserKey::Username ==> r@ == "username"@,
            *self == UserKey::Email ==> r@ == "email"@,
    {
        match self {
            UserKey::Username => "username",
            UserKey::Email => "email",
        }
    }
}

/// Whom a document is saved for: the owner is named by username, the
/// receiver of a shared document by email.
pub fn recipient_key(is_shared: Option<bool>) -> (k: UserKey)
    ensures
        k == if is_shared.is_some() {
            UserKey::Email
        } else {
            UserKey::Username
        },
{
    match is_shared {
        Some(_) => UserKey::Email,
        None => UserKey::Username,
    }
}

/// A user lookup needs a username.
pub fn is_valid_username(username: &str) -> (r: bool)
    ensures
        r == (username@.len() > 0),
{
    !username.is_empty()
}

/// A login needs both a username and a password.
pub fn are_valid_credentials(username: &str, password: &str) -> (r: bool)
    ensures
        r == (username@.len() > 0 && password@.len() > 0),
{
    !username.is_empty() && !password.is_empty()
}

/// Whether a stored document is a shared reference, whose content lives
/// with its owner.
pub fn is_shared_reference(doctype: i32) -> (r: bool)
    ensures
        r == (doctype == SHARED_DOCTYPE),
{
    doctype == SHARED_DOCTYPE
}

} // verus!

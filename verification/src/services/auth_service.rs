//! The decisions of authentication: a user keeps the session it has, and a
//! user without one gets a new session with a fresh random token.
use vstd::prelude::*;

use crate::database::session_dao::SessionTable;
use crate::services::user_service::User;

verus! {

/// A user together with the token of its session.
#[derive(Debug)]
pub struct AuthenticatedUser {
    pub username: String,
    pub token: String,
}

/// What authentication does about the session of a user.
pub enum SessionChoice {
    /// The user has a session: it is used as it is.
    Reuse(SessionTable),
    /// The user has no session: one is to be created with this token.
    Create(String),
}

/// A lower-case hexadecimal digit.
pub open spec fn is_lower_hex(c: char) -> bool {
    ('0' <= c && c <= '9') || ('a' <= c && c <= 'f')
}

/// The hyphenated lower-case form of a random (version 4, RFC 9562 variant)
/// UUID: 36 characters, hyphens at positions 8, 13, 18 and 23, hexadecimal
/// digits elsewhere, the version digit `4` at position 14 and one of
/// `8`, `9`, `a`, `b` at position 19.
pub open spec fn is_v4_uuid_text(s: Seq<char>) -> bool {
    &&& s.len() == 36
    &&& forall|i: int|
        0 <= i < 36 ==> if i == 8 || i == 13 || i == 18 || i == 23 {
            s[i] == '-'
        } else {
            is_lower_hex(#[trigger] s[i])
        }
    &&& s[14] == '4'
    &&& (s[19] == '8' || s[19] == '9' || s[19] == 'a' || s[19] == 'b')
}

/// A fresh session token.
///
/// Calls `uuid::Uuid::new_v4()` and formats the UUID with `to_string()`. The
/// UUID is random; the contract states only the shape of its text, which the
/// crate's source fixes: the version and variant bits are set before
/// formatting, and `Display` writes the hyphenated lower-case form.  Which
/// random value comes out is left unsaid.
#[verifier::external_body]
fn new_session_token() -> (token: String)
    ensures
        is_v4_uuid_text(token@),
{
    uuid::Uuid::new_v4().to_string()
}

/// What to do about the session of a user that authenticates: keep the one
/// it has, or create one with a fresh token.
pub fn choose_session(existing: Option<SessionTable>) -> (c: SessionChoice)
    ensures
        existing matches Some(s) ==> c == SessionChoice::Reuse(s),
        existing is None ==> (c matches SessionChoice::Create(token) && is_v4_uuid_text(token@)),
{
    match existing {
        Some(session) => SessionChoice::Reuse(session),
        None => SessionChoice::Create(new_session_token()),
    }
}

/// The authenticated user: the user's name with the token of its session.
pub fn authenticated_user(user: User, session: SessionTable) -> (a: AuthenticatedUser)
    ensures
        a.username == user.username,
        a.token == session.token,
{
    AuthenticatedUser { username: user.username, token: session.token }
}

/// The user that a session token belongs to, if the token has a session.
pub fn session_user_id(session_option: Option<SessionTable>) -> (r: Option<u32>)
    ensures
        r == (match session_option {
            Some(s) => Some(s.user_id),
            None => None,
        }),
{
    let Some(session) = session_option else {
        return None;
    };
    let user_id = session.user_id;
    Some(user_id)
}

} // verus!

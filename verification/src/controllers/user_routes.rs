//! Users as the HTTP API shows them.
use vstd::prelude::*;

use crate::services::user_service::User;

verus! {

/// A user as the API shows it.
pub struct UserDTO {
    pub id: u32,
    pub name: String,
    pub username: String,
}

impl UserDTO {
    /// The API form of a user.
    pub fn from_user(user: User) -> (d: Self)
        ensures
            d.id == user.id,
            d.name == user.name,
            d.username == user.username,
    {
        UserDTO { id: user.id, name: user.name, username: user.username }
    }
}

} // verus!

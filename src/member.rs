//! A member of the chat room in which rounds are announced.

use vstd::prelude::*;

verus! {

/// A room member: the login part of the account, and the name shown.
pub struct Member {
    pub user_id: String,
    pub friendly_name: String,
}

} // verus!

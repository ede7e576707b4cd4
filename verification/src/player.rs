//! Players, users and peer identities.
//!
//! Identifiers are opaque 128-bit values, carried here as `u128`; the
//! transport renders them as canonical UUID strings.
use vstd::prelude::*;

verus! {

/// Relies on `uuid::Uuid::new_v4`: a random version-4 UUID, taken as its
/// 128-bit value. Randomness promises nothing about the result.
#[verifier::external_body]
pub(crate) fn fresh_id() -> u128 {
    uuid::Uuid::new_v4().as_u128()
}

/// A registered player and the credits their account holds.
#[derive(Clone, Copy, PartialEq, Eq, Structural, Debug)]
pub struct Player {
    pub player_id: u128,
    pub total_credits: u64,
}

impl Player {
    /// Registers a new player with the fixed starting balance.
    pub fn register() -> (p: Player)
        ensures
            p.total_credits == 500,
    {
        Player { player_id: fresh_id(), total_credits: 500 }
    }
}

/// A named account as the legacy service tracked it.
#[derive(Clone, Debug)]
pub struct User {
    pub id: String,
    pub name: String,
    pub credits: u64,
}

impl User {
    pub fn new(id: String, name: String) -> (u: User)
        ensures
            u.id@ == id@,
            u.name@ == name@,
            u.credits == 1000,
    {
        User { id, name, credits: 1000 }
    }
}

/// The transport address a call arrived from, used to key connections.
#[derive(Clone, Debug)]
pub struct PeerAddress(pub String);

impl PeerAddress {
    pub fn as_str(&self) -> (s: &str)
        ensures
            s@ == self.0@,
    {
        self.0.as_str()
    }
}

} // verus!

//! The user record of the credential store. The store itself — a
//! process-wide locked collection — is host-side glue; the record is
//! plain data.

use vstd::prelude::*;

verus! {

/// A stored user identity.
#[derive(Clone, Debug, PartialEq, Eq, Hash)]
pub struct User {
    pub id: u32,
    pub username: String,
    pub password: String,
}

} // verus!

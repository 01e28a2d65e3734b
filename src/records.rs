//! Plain records exchanged with the surrounding service.
use vstd::prelude::*;

verus! {

/// Login credentials of a judge.
#[derive(Debug, PartialEq, Eq)]
pub struct User {
    pub username: String,
    pub password: String,
}

/// A college that candidates represent.
#[derive(Debug, PartialEq, Eq)]
pub struct College {
    pub college_id: String,
    pub college_logo_path: String,
    pub college_name: String,
}

/// The fields needed to create an event.
#[derive(Debug, PartialEq, Eq)]
pub struct CreateEvent {
    pub name: String,
}

} // verus!

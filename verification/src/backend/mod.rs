//! Storage and synchronisation decisions.
use vstd::prelude::*;

pub mod caldav;
pub mod changes;
pub mod credentials;
pub mod exceptions;
pub mod following;
pub mod ids;
pub mod memory;
pub mod occurrences;
pub mod provision;
pub mod reconcile;
pub mod reminders;
pub mod rows;
pub mod series;
pub mod store;
pub mod sync;
pub mod urls;

verus! {

/// A storage operation was refused.
#[derive(Clone, Copy, Debug, PartialEq, Eq, Structural)]
pub struct RepositoryError;

} // verus!

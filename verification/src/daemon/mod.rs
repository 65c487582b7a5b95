//! The long-running side: watching the outbox, submitting, listening to the
//! server.

pub mod accounts;
pub mod listening;
pub mod outbox;
pub mod resilience;
pub mod retry;
pub mod sidecar;
pub mod single_instance;
pub mod span;
pub mod submission;

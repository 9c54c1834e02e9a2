//! Orchestration of multi-participant, all-or-nothing operations: a two-phase
//! commit lifecycle, a deadlock detector over locked resources, and a
//! compensating-action rollback manager, with their validation rules.
pub mod types;
pub mod validation;
pub mod names;
pub mod participant;
pub mod transaction;
pub mod rollback;
pub mod deadlock;
pub mod events;

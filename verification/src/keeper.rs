//! Durable state with its caches, subscriptions, and recovery.

pub mod accessor;
pub mod builder;
pub mod cache;
pub mod commit;
pub mod error;
pub mod expiring;
pub mod features;
pub mod laws;
pub mod recovery;
pub mod startup;
pub mod subscriptions;
pub mod sysvar;

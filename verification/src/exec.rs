//! The engine: transaction verification, block pacing, replay, and account access.

pub mod accessor;
pub mod compose;
pub mod engine;
pub mod error;
pub mod pacemaker;
pub mod rebuild;
pub mod replay;
pub mod transaction;

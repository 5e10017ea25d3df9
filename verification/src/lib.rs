//! Verified core of an execution engine for durable, locally owned account state.

pub mod accountsdb;
pub mod bytes;
pub mod exec;
pub mod keeper;
pub mod ledger;
pub mod maps;
pub mod table;
pub mod text;
pub mod types;
pub mod view;

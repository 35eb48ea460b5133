//! Verified core of a service that keeps a store of Lightning Network node
//! connectivity records up to date and answers filtered read queries on it.
//!
//! The crate holds the decisions of the service and an in-memory model of the
//! record store; network, database and timer calls belong to the program
//! that drives it.

pub mod capacity;
pub mod connectivity;
pub mod routes;
pub mod scheduler;
pub mod store;
pub mod timestamp;

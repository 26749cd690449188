//! The sending end: acquisition, the queue of readings and their delivery.

pub mod delivery;
pub mod link;
pub mod measurement;
pub mod meter_connection;
pub mod monitor;
pub mod registers;
pub mod retry;
pub mod settings;
pub mod spool;
pub mod uplink;

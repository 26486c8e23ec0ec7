//! Persistent records for a small scheduling domain (clients, services and
//! appointments) kept in durable regions, with create/read/update/delete and
//! scan-based queries over them.

pub mod durable;
pub mod model;
pub mod codec;
pub mod table;
pub mod store;
pub mod query;
pub mod laws;

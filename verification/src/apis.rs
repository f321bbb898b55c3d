//! The query endpoints: typed request/response shapes and the handlers'
//! processing logic.

pub mod cve;
pub mod packages;
pub mod repos;
pub mod updates;

//! The wire protocol of the server.

pub mod buffer;
pub mod cells;
pub mod cursor;
pub mod encode;
pub mod laws;
pub mod messages;
pub mod params;
pub mod request;
pub mod rows;
pub mod session;
pub mod sql;
pub mod startup;

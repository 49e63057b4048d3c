//! A scoped, time-ordered message store with cursor-based pagination.
//!
//! Records are kept under strictly increasing stamps. A secondary index fans
//! each record out into the scopes it belongs to, and queries walk one scope
//! forward or backward from a resumable cursor.

pub mod clock;
pub mod index;
pub mod paging;
pub mod query;
pub mod scope;
pub mod server;
pub mod target;

pub use crate::query::{Query, QueryDirection, QueryError, QueryResult};
pub use crate::scope::QueryBuffer;
pub use crate::server::{IngestError, Server};
pub use crate::target::BufferTarget;

//! The query engine of an archetype-based entity-component store: query descriptors,
//! dynamic column borrows, and iteration over the entities that a query matches.
pub mod access;
pub mod archetype;
pub mod query;
pub mod fetch;
pub mod world;
pub mod iter;
pub mod laws;

pub use access::Access;
pub use archetype::{Archetype, Entity, EntityMeta};
pub use fetch::{Fetch, FetchRead, FetchWrite, FetchWith, FetchWithout, Slot, TryFetch, View};
pub use iter::{Batch, BatchedIter, QueryBorrow, QueryIter};
pub use query::{Query, With, Without};
pub use world::{BorrowError, World};

//! An in-memory record store with snapshot persistence.
//!
//! The store holds an insertion-ordered collection of records, each with a
//! store-assigned numeric id, a text label and a done flag. Every operation
//! is specified against a mathematical model of the collection, and a
//! snapshot codec turns the whole collection into a self-describing byte
//! blob and back, so that state survives a controlled restart.

pub mod snapshot;
pub mod store;

pub use snapshot::SnapshotError;
pub use store::TodoItem;
pub use store::TodoStore;

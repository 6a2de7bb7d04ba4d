//! A schema-driven mapping layer between record types and collections in a
//! document-oriented database: typed filter and update construction, field
//! projections with a cached read-projection document, and a lock protocol for
//! transactional read-modify-write sequences.

pub mod crud;
pub mod document;
pub mod engine;
pub mod field;
pub mod filter;
pub mod lock;
pub mod meta;
pub mod schema;
pub mod types;
pub mod update;

pub use crud::{Mongo, ProjectionCache, Session, Transaction};
pub use engine::{Database, DbError, Order};
pub use field::Field;
pub use filter::{by_id, Filter, FilterById, FilterOperator, TypedFilter, UntypedFilter};
pub use lock::Lock;
pub use update::{TypedUpdate, Update, UpdateApplier, UpdateApply, UntypedUpdate};

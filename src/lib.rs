//! An in-memory relationship-based access-control engine in the manner of
//! Zanzibar: a schema of named relationships with implication and
//! inheritance rules, a store of relationship facts, and a membership check
//! that resolves them.
pub mod ids;
pub mod laws;
pub mod model;
pub mod order;
pub mod store;

pub use ids::{Member, Membership, MiniZError, ObjectId, RelationshipId, UserId};
pub use store::{MiniZ, MiniZBuilder, SetBuilder};

//! An append-only authenticated tower: items are appended one at a time, a
//! level that fills up is folded into one digest on the level above, and a
//! membership proof for an item can be built and checked without the tower.

pub mod bytes;
pub mod digest;
pub mod error;
pub mod laws;
pub mod layout;
pub mod model;
pub mod node;
pub mod tower;
pub mod membership;

pub use digest::{Digest, Sha256Digest};
pub use error::LazyTowerError;
pub use membership::{MembershipProof, PathElement, ProofPath};
pub use node::TowerNode;
pub use tower::LazyTower;

//! A cache that lets a node reject blob sidecars that it has already seen over the gossip
//! network.
//!
//! Only sidecars that have completed proposer signature verification may be added to the
//! cache, to reduce the risk of denial-of-service attacks.

pub mod blob_sidecar;
mod bucket;
pub mod cache;
pub mod hash256;
pub mod model;

pub use blob_sidecar::{BlobSidecar, Error, Slot};
pub use cache::ObservedBlobSidecars;
pub use hash256::Hash256;
pub use model::CacheModel;

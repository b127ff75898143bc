//! Discovery of the peers of an ECS task within its cluster and VPC.
//!
//! The crate holds the rules: which services, tasks and network interfaces are
//! looked at, in which order the cluster is asked for them, and which of the
//! addresses found are returned. Talking to the cluster is left to the caller.

pub mod arn;
pub mod builder;
pub mod discovery;
pub mod error;
pub mod exact;
pub mod ipv4;
pub mod metadata;
pub mod ordered;
pub mod quotas;
pub mod search;
pub mod selection;
pub mod subnet;
pub mod tasks;
pub mod text;
pub mod weights;

pub use builder::GetPeersBuilder;
pub use error::GetPeersError;

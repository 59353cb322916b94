//! Membership and view management for a gossip-based peer-sampling overlay.
//!
//! The registry ([`Nodes`]) tracks the known peers under a bounded budget and
//! keeps them partitioned by reachability and trust. A [`Policy`] decides
//! which peers are quarantined, reinstated or forgotten. Layers such as
//! [`Vicinity`] rebuild their own views from the registry every round, and a
//! [`ViewBuilder`] assembles the peer list handed to a requesting peer.
pub mod cache;
pub mod layer;
pub mod node;
pub mod nodes;
pub mod policy;
pub mod theorems;
pub mod vicinity;
pub mod view;

pub use layer::{GossipsBuilder, Layer};
pub use node::{Address, Id, LogEvent, Logs, Node, NodeInfo, NodeProfile, Topic};
pub use nodes::{Count, Entry, Membership, Nodes, OccupiedEntry, VacantEntry};
pub use policy::{Policy, PolicyReport};
pub use vicinity::Vicinity;
pub use view::{Selection, ViewBuilder};

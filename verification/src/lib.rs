//! Building blocks of a mesh message bus: a link-state control plane, a
//! hop-by-hop forwarder, a publish/subscribe layer, and the wire formats that
//! carry them.
//!
//! Nothing in this crate performs I/O or reads a clock. Each component is
//! driven by events and answers with the actions that its runtime is to carry
//! out.

pub mod types;
pub mod text;
pub mod order;
pub mod spelling;
pub mod ordered_map;
pub mod buffer;
pub mod protobuf;
pub mod wire;
pub mod control;
pub mod forward;
pub mod delivery;
pub mod pubsub;
pub mod transport;
pub mod linking;
pub mod runtime;
pub mod lab;

//! I/O-free live publish/subscribe core.
//!
//! Subscription discovery is supplied as an event and network sends are
//! returned as actions. Storage, backfill, encryption, and application I/O are
//! left to other layers.

pub mod envelope;
pub mod hash;
pub mod laws;
pub mod model;
pub mod naming;
pub mod node;
pub mod publishing;
pub mod topic;
pub mod window;

pub use crate::pubsub::envelope::{Envelope, EnvelopeCodec, EnvelopeError};
pub use crate::pubsub::model::MAX_LIVE_ENVELOPE_LEN;
pub use crate::pubsub::node::{DeliveredMessage, PubSub, PubSubAction, PubSubDropReason};
pub use crate::pubsub::node::{PubSubEvent, PubSubRejectReason};
pub use crate::pubsub::topic::{DiscoveryIndex, SubId, TopicError, TopicKey, TopicMode};
pub use crate::pubsub::topic::{TopicPolicies, TopicPolicy, TopicSelector};

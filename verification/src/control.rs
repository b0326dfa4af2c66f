//! I/O-free link-state control plane.
//!
//! The only way to affect this component is through [`ControlEvent`]. External
//! effects are returned as [`ControlAction`], which lets the same code run
//! under a Tokio runtime or a deterministic simulator.

pub mod announcements;
pub mod asking;
pub mod auth;
pub mod cost;
pub mod laws;
pub mod message;
pub mod model;
pub mod paths;
pub mod plane;
pub mod repair;
pub mod routing;
pub mod runs;
pub mod spf;
pub mod table;

pub use crate::control::auth::{LsaSigner, LsaVerifier, UnsecuredLsaAuth};
pub use crate::control::cost::{Adjacency, InvalidLinkCost, LinkCost};
pub use crate::control::message::{ControlAction, ControlEvent, ControlFrame, ControlTimer};
pub use crate::control::message::{DigestEntry, Lsa, LsaMessage};
pub use crate::control::table::{Route, RouteTable};
pub use crate::control::model::{DEFAULT_LSA_TTL_SEC, DIGEST_INTERVAL_MS, MAX_DIGEST_ENTRIES};
pub use crate::control::model::{MAX_DIGEST_REQ_ORIGINS, MAX_LSA_ADJACENCIES, MAX_LSA_TTL_SEC};
pub use crate::control::model::{MAX_LSDB_ENTRIES, SPF_INITIAL_HOLD_MS, SPF_MAX_HOLD_MS};
pub use crate::control::model::SPF_QUIET_RESET_MS;
pub use crate::control::plane::{compare_versions, ControlPlane, EntryRelation};

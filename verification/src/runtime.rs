//! What drives the I/O-free control and forwarding planes.
//!
//! A runtime takes what links, applications and clocks bring, and says what is
//! to be sent, stored and reported. Sockets, files, queues and tasks belong to
//! its caller.

pub mod bus;
pub mod codec;
pub mod driver;
pub mod duties;
pub mod error;
pub mod laws;
pub mod remembering;
pub mod serving;
pub mod store;
pub mod timers;
pub mod travel;

pub use crate::runtime::bus::{BusCore, BusEffect, BusInput, PubSubOutcome};
pub use crate::runtime::codec::{decode_control_frame, decode_forward_frame};
pub use crate::runtime::codec::{encode_control_frame, encode_forward_frame};
pub use crate::runtime::driver::{ForwardOutcome, RuntimeConfig, RuntimeCore, RuntimeEffect};
pub use crate::runtime::driver::{after_effect, Next, RuntimeInput};
pub use crate::runtime::error::{RuntimeError, SeqStoreError};
pub use crate::runtime::store::{FileSeqStore, MemorySeqStore, SeqStore};

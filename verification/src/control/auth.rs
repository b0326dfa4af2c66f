//! Signing and verification of announcements.

use vstd::prelude::*;
use crate::control::message;
use crate::control::message::{Lsa, LsaMessage, LsaView, MessageView};

verus! {

/// Puts an announcement into a container that peers accept.
pub trait LsaSigner: Send + Sync {
    /// The signer may answer `lsa` with `message`. Unless it says more, it may
    /// give any answer.
    open spec fn may_sign(&self, lsa: LsaView, message: MessageView) -> bool {
        true
    }

    fn sign(&self, lsa: Lsa) -> (message: LsaMessage)
        ensures
            self.may_sign(lsa@, message@),
    ;
}

/// Decides whether a container is accepted.
pub trait LsaVerifier: Send + Sync {
    /// The verifier may answer `message` with `accepted`. Unless it says more,
    /// it may give any answer.
    open spec fn may_judge(&self, message: MessageView, accepted: bool) -> bool {
        true
    }

    fn verify(&self, message: &LsaMessage) -> (accepted: bool)
        ensures
            self.may_judge(message@, accepted),
    ;
}

/// Explicitly insecure signer and verifier for simulation and first trials.
#[derive(Debug)]
pub struct UnsecuredLsaAuth;

impl Default for UnsecuredLsaAuth {
    fn default() -> (auth: Self) {
        UnsecuredLsaAuth
    }
}

/// An announcement in a container without canonical bytes and signature.
pub open spec fn unsecured(lsa: LsaView) -> MessageView {
    MessageView { lsa, canonical_bytes: Seq::empty(), signature: Seq::empty() }
}

impl LsaSigner for UnsecuredLsaAuth {
    open spec fn may_sign(&self, lsa: LsaView, message: MessageView) -> bool {
        message == unsecured(lsa)
    }

    fn sign(&self, lsa: Lsa) -> (message: LsaMessage) {
        let message = LsaMessage {
            lsa,
            canonical_bytes: message::share_bytes(Vec::new()),
            signature: message::share_bytes(Vec::new()),
        };
        assert(message@ =~= unsecured(message.lsa@));
        message
    }
}

impl LsaVerifier for UnsecuredLsaAuth {
    open spec fn may_judge(&self, message: MessageView, accepted: bool) -> bool {
        accepted
    }

    fn verify(&self, _message: &LsaMessage) -> (accepted: bool) {
        true
    }
}

} // verus!

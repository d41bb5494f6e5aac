//! Behavioral seams for delivery saturation and topic access authorization.
//!
//! Every trait follows the core hook style: a small object the application
//! installs once, consulted at the relevant decision point.

use crate::pubsub::topic::Topic;
use vstd::prelude::*;

verus! {

/// What to do when a subscriber's bounded update queue is full.
#[derive(Debug, Clone, Copy, PartialEq, Eq, Structural)]
pub enum DeliveryVerdict {
    /// Drop the oldest queued update to make room for the new one.
    DropOldest,
    /// Drop the new update and keep the queue as is.
    DropNew,
    /// Drop the subscriber's whole connection: it is beyond catching up.
    Disconnect,
}

/// Decides the fate of an update when a subscriber queue is full.
///
/// This crate has no per-subscription credit, so a full queue is the only
/// backpressure signal. Every drop is a guaranteed gap at the client's gate.
pub trait DeliveryPolicy: Send + Sync {
    /// One update does not fit `topic`'s queue for a subscriber that has
    /// already dropped `dropped_so_far` updates. Return the verdict.
    fn on_full(&self, topic: &Topic, dropped_so_far: u64) -> DeliveryVerdict;
}

/// The default policy: always drop the oldest queued update.
///
/// Bounded-queue drop-oldest matches common broker practice: the newest
/// state wins, and the client's gap detection reports what was lost.
#[derive(Debug, Clone, Copy)]
pub struct DropOldest;

impl DeliveryPolicy for DropOldest {
    fn on_full(&self, topic: &Topic, dropped_so_far: u64) -> (verdict: DeliveryVerdict)
        ensures
            verdict == DeliveryVerdict::DropOldest,
    {
        DeliveryVerdict::DropOldest
    }
}

impl Default for DropOldest {
    fn default() -> (policy: Self) {
        DropOldest
    }
}

/// Whether a connection may perform the guarded action on a topic.
#[derive(Debug, Clone, Copy, PartialEq, Eq, Structural)]
pub enum AccessVerdict {
    /// Proceed.
    Allow,
    /// Refuse with `PermissionDenied`.
    Forbid,
}

/// Owns the `PermissionDenied` decision for `sub/` commands.
///
/// `identity` is whatever the application attached at connection
/// registration. A mutual-auth transport identity is the expected source.
pub trait SubscribePolicy: Send + Sync {
    /// May the connection carrying `identity` subscribe to `topic`?
    fn authorize(&self, identity: Option<&[u8]>, topic: &Topic) -> AccessVerdict;
}

/// Owns the `PermissionDenied` decision for `pub/` commands. Client
/// publish is opt-in: only a host that installs a publish policy answers
/// `pub/` frames.
pub trait PublishPolicy: Send + Sync {
    /// May the connection carrying `identity` publish to `topic`?
    fn authorize(&self, identity: Option<&[u8]>, topic: &Topic) -> AccessVerdict;
}

/// The default policy: every subscription (and, when installed as a
/// [`PublishPolicy`], every publish) is allowed.
#[derive(Debug, Clone, Copy)]
pub struct AllowAll;

impl Default for AllowAll {
    fn default() -> (policy: Self) {
        AllowAll
    }
}

impl AllowAll {
    /// The verdict this policy gives every connection on every topic.
    pub fn verdict(&self) -> (verdict: AccessVerdict)
        ensures
            verdict == AccessVerdict::Allow,
    {
        AccessVerdict::Allow
    }
}

impl SubscribePolicy for AllowAll {
    fn authorize(&self, identity: Option<&[u8]>, topic: &Topic) -> AccessVerdict
        returns
            AccessVerdict::Allow,
    {
        self.verdict()
    }
}

impl PublishPolicy for AllowAll {
    fn authorize(&self, identity: Option<&[u8]>, topic: &Topic) -> AccessVerdict
        returns
            AccessVerdict::Allow,
    {
        self.verdict()
    }
}

} // verus!

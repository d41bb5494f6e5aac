//! Serve-side command dispatch: the wire's `sub/`, `unsub/`, and (opt-in)
//! `pub/` prefixes.
//!
//! The dispatcher answers command frames and leaves everything else to
//! the application's own routes, so pub/sub composes with existing routes
//! instead of replacing them. Client publish is opt-in: without
//! [`PubsubCommands::with_publish`], `pub/` frames fall through to the
//! application like any other stream.

use crate::pubsub::policy::{AccessVerdict, AllowAll, DeliveryPolicy, PublishPolicy, SubscribePolicy};
use crate::pubsub::registry::{ConnectionId, PublishError, RegisterError, TopicRegistry, holds};
use crate::pubsub::topic::{valid_topic, Topic, PUB_PREFIX, SUB_PREFIX, UNSUB_PREFIX};
use vstd::prelude::*;
use vstd::string::StringSliceAdditionalSpecFns;
use vstd::utf8::{decode_utf8, valid_utf8};

verus! {

/// How a command was answered.
#[derive(Debug, Clone, Copy, PartialEq, Eq, Structural)]
pub enum Status {
    /// The command took effect.
    Accepted,
    /// The topic name (or the publish payload) is malformed.
    InvalidArgument,
    /// The caller has no standing, or the policy forbids the command.
    PermissionDenied,
    /// The registry is draining, or the backplane refused.
    Unavailable,
    /// A server-side fault.
    Internal,
}

/// A wire command, with the topic octets that follow its prefix.
#[derive(Debug, Clone, PartialEq, Eq)]
pub enum Command {
    /// `sub/<topic>`.
    Subscribe(Vec<u8>),
    /// `unsub/<topic>`.
    Unsubscribe(Vec<u8>),
    /// `pub/<topic>`.
    Publish(Vec<u8>),
}

/// Whether `id` starts with `prefix`.
pub open spec fn starts_with_octets(id: Seq<u8>, prefix: Seq<u8>) -> bool {
    prefix.len() <= id.len() && id.subrange(0, prefix.len() as int) == prefix
}

/// The topic a name's octets denote, if they denote one.
pub open spec fn topic_of(name: Seq<u8>) -> Option<Seq<char>> {
    if valid_utf8(name) && valid_topic(decode_utf8(name)) {
        Some(decode_utf8(name))
    } else {
        None
    }
}

/// The octets after `prefix` when `id` starts with it.
fn strip_prefix(id: &[u8], prefix: &[u8]) -> (rest: Option<Vec<u8>>)
    ensures
        rest is Some <==> starts_with_octets(id@, prefix@),
        rest matches Some(r) ==> r@ == id@.subrange(prefix@.len() as int, id@.len() as int),
{
    if prefix.len() > id.len() {
        return None;
    }
    let mut i: usize = 0;
    while i < prefix.len()
        invariant
            i <= prefix@.len() <= id@.len(),
            forall|j: int| 0 <= j < i ==> id@[j] == prefix@[j],
        decreases prefix@.len() - i,
    {
        if id[i] != prefix[i] {
            assert(id@.subrange(0, prefix@.len() as int)[i as int] != prefix@[i as int]);
            return None;
        }
        i = i + 1;
    }
    assert(id@.subrange(0, prefix@.len() as int) =~= prefix@);
    let mut rest: Vec<u8> = Vec::new();
    let mut k: usize = prefix.len();
    while k < id.len()
        invariant
            prefix@.len() <= k <= id@.len(),
            rest@ == id@.subrange(prefix@.len() as int, k as int),
        decreases id@.len() - k,
    {
        rest.push(id[k]);
        k = k + 1;
        assert(rest@ =~= id@.subrange(prefix@.len() as int, k as int));
    }
    Some(rest)
}

/// Answers `sub/` and `unsub/` command frames against one registry,
/// consulting a [`SubscribePolicy`] before any registration. With a
/// [`PublishPolicy`] installed ([`with_publish`](Self::with_publish)),
/// also authorizes `pub/` command frames.
pub struct PubsubCommands<P, Q> {
    policy: P,
    publish: Option<Q>,
}

impl<P: SubscribePolicy> PubsubCommands<P, AllowAll> {
    /// Bind `policy` into one dispatcher. Client publish stays off until
    /// [`with_publish`](Self::with_publish) installs a policy for it.
    pub fn new(policy: P) -> (commands: PubsubCommands<P, AllowAll>)
        ensures
            !commands.publishes(),
    {
        PubsubCommands { policy, publish: None }
    }
}

/// The status a subscription request gets once the policy answered
/// `verdict` and, when it allowed, the registry answered `registered`.
pub open spec fn subscribe_status(verdict: AccessVerdict, registered: Option<Result<(), RegisterError>>) -> Status {
    if verdict == AccessVerdict::Forbid {
        Status::PermissionDenied
    } else {
        match registered {
            Some(Ok(())) => Status::Accepted,
            Some(Err(RegisterError::Draining)) => Status::Unavailable,
            Some(Err(RegisterError::UnknownConnection)) => Status::PermissionDenied,
            None => Status::Internal,
        }
    }
}

/// The status a publish gets once the registry answered `outcome`.
pub open spec fn publish_status_of(outcome: Result<(), PublishError>) -> Status {
    match outcome {
        Ok(()) => Status::Accepted,
        Err(PublishError::Draining) => Status::Unavailable,
        Err(PublishError::Build(_)) => Status::Internal,
        Err(PublishError::Backplane(_)) => Status::Unavailable,
    }
}

/// Law: a publish is answered `Accepted` exactly when the registry took it;
/// a draining registry and every backplane failure, whatever its kind
/// (a refusal by the nodes or a lost transport), are `Unavailable`; a
/// frame that failed to build is `Internal`.
pub proof fn lemma_publish_statuses(e: crate::pubsub::backplane::BackplaneError, cause: String)
    ensures
        publish_status_of(Ok(())) == Status::Accepted,
        publish_status_of(Err(PublishError::Backplane(e))) == Status::Unavailable,
        publish_status_of(Err(PublishError::Draining)) == Status::Unavailable,
        publish_status_of(Err(PublishError::Build(cause))) == Status::Internal,
        forall|outcome: Result<(), PublishError>|
            #![trigger publish_status_of(outcome)]
            publish_status_of(outcome) == Status::Accepted <==> outcome is Ok,
{
}

impl<P: SubscribePolicy, Q: PublishPolicy> PubsubCommands<P, Q> {
    /// Whether `pub/` commands are answered.
    pub closed spec fn publishes(&self) -> bool {
        self.publish is Some
    }

    /// Enable the `pub/<topic>` command, authorized by `policy`.
    pub fn with_publish<R: PublishPolicy>(self, policy: R) -> (commands: PubsubCommands<P, R>)
        ensures
            commands.publishes(),
    {
        PubsubCommands { policy: self.policy, publish: Some(policy) }
    }

    /// The command a frame id carries; `None` hands the frame to the
    /// application's own routes, as does a `pub/` id while client publish
    /// is off.
    pub fn classify(&self, id: &[u8]) -> (command: Option<Command>)
        ensures
            starts_with_octets(id@, SUB_PREFIX.spec_bytes()) ==> (command matches Some(Command::Subscribe(name))
                && name@ == id@.subrange(SUB_PREFIX.spec_bytes().len() as int, id@.len() as int)),
            (!starts_with_octets(id@, SUB_PREFIX.spec_bytes()) && starts_with_octets(id@, UNSUB_PREFIX.spec_bytes()))
                ==> (command matches Some(Command::Unsubscribe(name)) && name@ == id@.subrange(
                UNSUB_PREFIX.spec_bytes().len() as int,
                id@.len() as int,
            )),
            (!starts_with_octets(id@, SUB_PREFIX.spec_bytes()) && !starts_with_octets(id@, UNSUB_PREFIX.spec_bytes())
                && starts_with_octets(id@, PUB_PREFIX.spec_bytes())) ==> if self.publishes() {
                (command matches Some(Command::Publish(name)) && name@ == id@.subrange(
                    PUB_PREFIX.spec_bytes().len() as int,
                    id@.len() as int,
                ))
            } else {
                command is None
            },
            (!starts_with_octets(id@, SUB_PREFIX.spec_bytes()) && !starts_with_octets(id@, UNSUB_PREFIX.spec_bytes())
                && !starts_with_octets(id@, PUB_PREFIX.spec_bytes())) ==> command is None,
    {
        if let Some(name) = strip_prefix(id, SUB_PREFIX.as_bytes()) {
            return Some(Command::Subscribe(name));
        }
        if let Some(name) = strip_prefix(id, UNSUB_PREFIX.as_bytes()) {
            return Some(Command::Unsubscribe(name));
        }
        if let Some(name) = strip_prefix(id, PUB_PREFIX.as_bytes()) {
            if self.publish.is_some() {
                return Some(Command::Publish(name));
            }
            return None;
        }
        None
    }

    /// The topic a command names, provided the caller has standing: the
    /// shared preamble of every policy-guarded command. A dropped (or
    /// never-admitted) connection has no standing, so revocation stays
    /// authoritative instead of degrading the caller to anonymous access.
    fn standing_topic<T, D: DeliveryPolicy>(
        registry: &TopicRegistry<T, D>,
        connection: ConnectionId,
        name: &[u8],
    ) -> (standing: Result<(Topic, Option<Vec<u8>>), Status>)
        requires
            registry.wf(),
        ensures
            topic_of(name@) is None ==> standing == Err::<(Topic, Option<Vec<u8>>), Status>(Status::InvalidArgument),
            (topic_of(name@) is Some && !registry.connections().contains_key(connection@)) ==> standing == Err::<
                (Topic, Option<Vec<u8>>),
                Status,
            >(Status::PermissionDenied),
            (topic_of(name@) is Some && registry.connections().contains_key(connection@)) ==> (standing matches Ok(
                found,
            ) && found.0@ == topic_of(name@)->Some_0 && crate::pubsub::registry::identity_view(found.1)
                == registry.connections()[connection@]),
    {
        let topic = match Topic::try_from(name) {
            Ok(topic) => topic,
            Err(_) => return Err(Status::InvalidArgument),
        };
        match registry.member_identity(connection) {
            Some(identity) => Ok((topic, identity)),
            None => Err(Status::PermissionDenied),
        }
    }

    /// Finish a subscription request the policy answered with `verdict`.
    pub fn subscribe_with<T, D: DeliveryPolicy>(
        registry: &mut TopicRegistry<T, D>,
        connection: ConnectionId,
        topic: Topic,
        verdict: AccessVerdict,
    ) -> (status: Status)
        requires
            old(registry).wf(),
        ensures
            final(registry).wf(),
            verdict == AccessVerdict::Forbid ==> status == Status::PermissionDenied && final(registry).subscription_list()
                == old(registry).subscription_list(),
            verdict == AccessVerdict::Allow ==> status == subscribe_status(
                verdict,
                Some(
                    if old(registry).draining() {
                        Err(RegisterError::Draining)
                    } else if !old(registry).connections().contains_key(connection@) {
                        Err(RegisterError::UnknownConnection)
                    } else {
                        Ok(())
                    },
                ),
            ),
            (verdict == AccessVerdict::Allow && status == Status::Accepted) ==> holds(
                final(registry).subscription_list(),
                connection@,
                topic@,
            ),
            status != Status::Accepted ==> final(registry).subscription_list() == old(registry).subscription_list(),
            final(registry).connections() == old(registry).connections(),
            final(registry).draining() == old(registry).draining(),
    {
        if verdict == AccessVerdict::Forbid {
            return Status::PermissionDenied;
        }
        match registry.register(connection, topic) {
            Ok(_) => Status::Accepted,
            Err(RegisterError::Draining) => Status::Unavailable,
            Err(RegisterError::UnknownConnection) => Status::PermissionDenied,
        }
    }

    /// Answer one `sub/<topic>` command: validate the topic, check the
    /// caller's standing, consult the subscribe policy, register.
    pub fn subscribe<T, D: DeliveryPolicy>(
        &self,
        registry: &mut TopicRegistry<T, D>,
        connection: ConnectionId,
        name: &[u8],
    ) -> (status: Status)
        requires
            old(registry).wf(),
        ensures
            final(registry).wf(),
            topic_of(name@) is None ==> status == Status::InvalidArgument,
            (topic_of(name@) is Some && !old(registry).connections().contains_key(connection@)) ==> status
                == Status::PermissionDenied,
            (topic_of(name@) is Some && old(registry).connections().contains_key(connection@)) ==> (status
                == Status::PermissionDenied || status == (if old(registry).draining() {
                Status::Unavailable
            } else {
                Status::Accepted
            })),
            status == Status::Accepted ==> holds(final(registry).subscription_list(), connection@, topic_of(name@)->Some_0),
            status != Status::Accepted ==> final(registry).subscription_list() == old(registry).subscription_list(),
            final(registry).connections() == old(registry).connections(),
            final(registry).draining() == old(registry).draining(),
    {
        let (topic, identity) = match Self::standing_topic(registry, connection, name) {
            Ok(found) => found,
            Err(refused) => return refused,
        };
        let verdict = match &identity {
            Some(bytes) => self.policy.authorize(Some(bytes.as_slice()), &topic),
            None => self.policy.authorize(None, &topic),
        };
        Self::subscribe_with(registry, connection, topic, verdict)
    }

    /// Answer one `unsub/<topic>` command. Idempotent: unsubscribing a
    /// topic that was never subscribed still succeeds.
    pub fn unsubscribe<T, D: DeliveryPolicy>(
        &self,
        registry: &mut TopicRegistry<T, D>,
        connection: ConnectionId,
        name: &[u8],
    ) -> (status: Status)
        requires
            old(registry).wf(),
        ensures
            final(registry).wf(),
            topic_of(name@) is None ==> status == Status::InvalidArgument && final(registry).subscription_list()
                == old(registry).subscription_list(),
            topic_of(name@) is Some ==> status == Status::Accepted && !holds(
                final(registry).subscription_list(),
                connection@,
                topic_of(name@)->Some_0,
            ),
            final(registry).connections() == old(registry).connections(),
            final(registry).draining() == old(registry).draining(),
    {
        let topic = match Topic::try_from(name) {
            Ok(topic) => topic,
            Err(_) => return Status::InvalidArgument,
        };
        registry.unregister(connection, &topic);
        Status::Accepted
    }

    /// Authorize one `pub/<topic>` command: validate the topic, check the
    /// caller's standing, consult the publish policy. Returns the topic to
    /// publish to, or the refusal; `None` when client publish is off.
    pub fn authorize_publish<T, D: DeliveryPolicy>(
        &self,
        registry: &TopicRegistry<T, D>,
        connection: ConnectionId,
        name: &[u8],
    ) -> (decision: Option<Result<Topic, Status>>)
        requires
            registry.wf(),
        ensures
            decision is None <==> !self.publishes(),
            (self.publishes() && topic_of(name@) is None) ==> decision == Some(
                Err::<Topic, Status>(Status::InvalidArgument),
            ),
            (self.publishes() && topic_of(name@) is Some && !registry.connections().contains_key(connection@))
                ==> decision == Some(Err::<Topic, Status>(Status::PermissionDenied)),
            (self.publishes() && topic_of(name@) is Some && registry.connections().contains_key(connection@)) ==> (
            decision == Some(Err::<Topic, Status>(Status::PermissionDenied)) || (decision matches Some(Ok(t)) && t@
                == topic_of(name@)->Some_0)),
    {
        let policy = match &self.publish {
            Some(policy) => policy,
            None => return None,
        };
        let (topic, identity) = match Self::standing_topic(registry, connection, name) {
            Ok(found) => found,
            Err(refused) => return Some(Err(refused)),
        };
        let verdict = match &identity {
            Some(bytes) => policy.authorize(Some(bytes.as_slice()), &topic),
            None => policy.authorize(None, &topic),
        };
        if verdict == AccessVerdict::Forbid {
            return Some(Err(Status::PermissionDenied));
        }
        Some(Ok(topic))
    }

    /// The status a publish gets once the registry answered `outcome`. The
    /// frame id and payload already validated, so a build failure is a
    /// server-side fault, not something the client caused.
    pub fn publish_status(outcome: &Result<(), PublishError>) -> (status: Status)
        ensures
            status == publish_status_of(*outcome),
            outcome is Ok <==> status == Status::Accepted,
            outcome matches Err(PublishError::Backplane(_)) ==> status == Status::Unavailable,
            outcome matches Err(PublishError::Draining) ==> status == Status::Unavailable,
            outcome matches Err(PublishError::Build(_)) ==> status == Status::Internal,
    {
        match outcome {
            Ok(()) => Status::Accepted,
            Err(PublishError::Draining) => Status::Unavailable,
            Err(PublishError::Build(_)) => Status::Internal,
            Err(PublishError::Backplane(_)) => Status::Unavailable,
        }
    }
}

} // verus!

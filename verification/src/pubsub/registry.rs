//! The topic registry: subscription bookkeeping, publish fan-out, and
//! per-subscriber delivery lanes.
//!
//! One registry serves a whole process. Connections register, topics map
//! to member subscribers, and every subscriber owns one bounded lane
//! drained in order, so one slow client never stalls another. The
//! registry is generic over the update `T` its lanes carry (a shared
//! frame handle in a server).

use crate::pubsub::backplane::{Counters, DeliverError, BackplaneError, last_of};
use crate::pubsub::policy::{DeliveryPolicy, DeliveryVerdict, DropOldest};
use crate::pubsub::topic::Topic;
use crate::text::push_str;
use std::collections::VecDeque;
use vstd::prelude::*;

verus! {

/// Updates one subscriber lane holds before the delivery policy decides.
pub const DEFAULT_QUEUE_CAPACITY: usize = 32;

// ---------------------------------------------------------------------------
// One subscriber's delivery lane.
// ---------------------------------------------------------------------------

/// What one enqueue attempt did.
#[derive(Debug, Clone, Copy, PartialEq, Eq, Structural)]
pub enum PushOutcome {
    /// The update entered the queue.
    Delivered,
    /// The policy dropped an update (this one or the oldest).
    Dropped,
    /// The policy gave up on the whole connection.
    Disconnect,
}

/// The mathematical model of a [`Lane`].
pub struct LaneView<T> {
    /// The queued updates, oldest first.
    pub queue: Seq<T>,
    /// A popped update is being emitted right now.
    pub in_flight: bool,
    /// Updates dropped so far (wrapping).
    pub dropped: u64,
    /// The topic completed: stop once the queue empties.
    pub finished: bool,
}

/// One past `count`, wrapping to `0` past `u64::MAX`.
pub open spec fn bumped(count: u64) -> u64 {
    if count == u64::MAX {
        0
    } else {
        (count + 1) as u64
    }
}

/// The lane after offering `update` at `capacity`, with `verdict` as the
/// policy's answer should the queue be full; and what the offer did.
pub open spec fn offered<T>(lane: LaneView<T>, capacity: nat, update: T, verdict: DeliveryVerdict) -> (
    LaneView<T>,
    PushOutcome,
) {
    if lane.queue.len() < capacity {
        (LaneView { queue: lane.queue.push(update), ..lane }, PushOutcome::Delivered)
    } else {
        match verdict {
            DeliveryVerdict::DropOldest => (
                LaneView {
                    queue: lane.queue.subrange(if lane.queue.len() > 0 { 1 } else { 0 }, lane.queue.len() as int).push(update),
                    dropped: bumped(lane.dropped),
                    ..lane
                },
                PushOutcome::Delivered,
            ),
            DeliveryVerdict::DropNew => (
                LaneView { dropped: bumped(lane.dropped), ..lane },
                PushOutcome::Dropped,
            ),
            DeliveryVerdict::Disconnect => (lane, PushOutcome::Disconnect),
        }
    }
}

/// Law: offering to a full lane under `DropOldest` evicts exactly the
/// oldest queued update and appends the new one behind the rest: the
/// queue keeps its length (one at least), every other queued update moves
/// up one place in order, the new update is last, the drop count goes up
/// by one and the offer counts as delivered. Below capacity the update is
/// appended and nothing is dropped.
pub proof fn lemma_drop_oldest_evicts_the_front<T>(lane: LaneView<T>, capacity: nat, update: T)
    ensures
        lane.queue.len() >= capacity ==> {
            let (after, outcome) = offered(lane, capacity, update, DeliveryVerdict::DropOldest);
            &&& outcome == PushOutcome::Delivered
            &&& after.queue.len() == if lane.queue.len() > 0 { lane.queue.len() } else { 1 }
            &&& after.queue[after.queue.len() - 1] == update
            &&& forall|i: int| 0 <= i < lane.queue.len() - 1 ==> #[trigger] after.queue[i] == lane.queue[i + 1]
            &&& after.dropped == bumped(lane.dropped)
            &&& after.in_flight == lane.in_flight
            &&& after.finished == lane.finished
        },
        lane.queue.len() < capacity ==> {
            let (after, outcome) = offered(lane, capacity, update, DeliveryVerdict::DropOldest);
            &&& outcome == PushOutcome::Delivered
            &&& after.queue.len() == lane.queue.len() + 1
            &&& after.queue[lane.queue.len() as int] == update
            &&& forall|i: int| 0 <= i < lane.queue.len() ==> #[trigger] after.queue[i] == lane.queue[i]
            &&& after.dropped == lane.dropped
        },
{
}

/// One subscriber's bounded queue and its emit state, kept as one unit so
/// eviction never touches the update in flight.
pub struct Lane<T> {
    queue: VecDeque<T>,
    in_flight: bool,
    dropped: u64,
    finished: bool,
}

impl<T> View for Lane<T> {
    type V = LaneView<T>;

    closed spec fn view(&self) -> LaneView<T> {
        LaneView {
            queue: self.queue@,
            in_flight: self.in_flight,
            dropped: self.dropped,
            finished: self.finished,
        }
    }
}

impl<T> Lane<T> {
    /// An empty, idle lane.
    pub fn new() -> (lane: Lane<T>)
        ensures
            lane@ == empty_lane::<T>(),
    {
        let lane = Lane { queue: VecDeque::new(), in_flight: false, dropped: 0, finished: false };
        assert(lane.queue@ =~= Seq::<T>::empty());
        lane
    }

    /// Updates queued right now.
    pub fn len(&self) -> (n: usize)
        ensures
            n == self@.queue.len(),
    {
        self.queue.len()
    }

    /// Updates dropped so far.
    pub fn dropped(&self) -> (n: u64)
        ensures
            n == self@.dropped,
    {
        self.dropped
    }

    /// Offer `update` at `capacity`, applying `verdict` should the queue be
    /// full.
    pub fn offer(&mut self, capacity: usize, update: T, verdict: DeliveryVerdict) -> (outcome: PushOutcome)
        ensures
            (final(self)@, outcome) == offered(old(self)@, capacity as nat, update, verdict),
            old(self)@.queue.len() >= capacity && old(self)@.queue.len() > 0 && verdict == DeliveryVerdict::DropOldest
                ==> final(self)@.queue.len() == old(self)@.queue.len() && final(self)@.queue.last() == update && (
            forall|i: int|
                0 <= i < old(self)@.queue.len() - 1 ==> #[trigger] final(self)@.queue[i] == old(self)@.queue[i + 1]),
    {
        proof {
            lemma_drop_oldest_evicts_the_front(self@, capacity as nat, update);
        }
        if self.queue.len() < capacity {
            self.queue.push_back(update);
            return PushOutcome::Delivered;
        }
        match verdict {
            DeliveryVerdict::DropOldest => {
                let ghost before = self.queue@;
                let _oldest = self.queue.pop_front();
                self.queue.push_back(update);
                self.dropped = self.dropped.wrapping_add(1);
                assert(self.queue@ =~= before.subrange(
                    if before.len() > 0 { 1 } else { 0 },
                    before.len() as int,
                ).push(update));
                PushOutcome::Delivered
            },
            DeliveryVerdict::DropNew => {
                self.dropped = self.dropped.wrapping_add(1);
                PushOutcome::Dropped
            },
            DeliveryVerdict::Disconnect => PushOutcome::Disconnect,
        }
    }

    /// Enqueue one update, consulting `policy` only when the queue is full.
    ///
    /// Eviction only ever touches queued updates: the update in flight
    /// already left the queue, so it is beyond the policy's reach.
    pub fn push<P: DeliveryPolicy>(&mut self, capacity: usize, policy: &P, topic: &Topic, update: T) -> (outcome: PushOutcome)
        ensures
            exists|verdict: DeliveryVerdict|
                (final(self)@, outcome) == #[trigger] offered(old(self)@, capacity as nat, update, verdict),
            old(self)@.queue.len() < capacity ==> (final(self)@, outcome) == offered(
                old(self)@,
                capacity as nat,
                update,
                DeliveryVerdict::DropOldest,
            ),
    {
        let verdict = if self.queue.len() < capacity {
            DeliveryVerdict::DropOldest
        } else {
            policy.on_full(topic, self.dropped)
        };
        self.offer(capacity, update, verdict)
    }

    /// Take the oldest queued update for emission; the lane counts as in
    /// flight exactly while an update was taken.
    pub fn pop_next(&mut self) -> (next: Option<T>)
        ensures
            match next {
                Some(update) => {
                    &&& old(self)@.queue.len() > 0
                    &&& update == old(self)@.queue[0]
                    &&& final(self)@.queue == old(self)@.queue.subrange(1, old(self)@.queue.len() as int)
                    &&& final(self)@.in_flight
                },
                None => {
                    &&& old(self)@.queue.len() == 0
                    &&& final(self)@.queue == old(self)@.queue
                    &&& !final(self)@.in_flight
                },
            },
            final(self)@.dropped == old(self)@.dropped,
            final(self)@.finished == old(self)@.finished,
    {
        let next = self.queue.pop_front();
        self.in_flight = next.is_some();
        next
    }

    /// The update in flight left (or failed); returns whether the lane is
    /// now idle and empty.
    pub fn settle_emit(&mut self) -> (idle: bool)
        ensures
            final(self)@ == (LaneView { in_flight: false, ..old(self)@ }),
            idle == (old(self)@.queue.len() == 0),
    {
        self.in_flight = false;
        self.queue.len() == 0
    }

    /// The peer refused one update: count it as dropped.
    pub fn note_refused(&mut self)
        ensures
            final(self)@ == (LaneView {
                dropped: bumped(old(self)@.dropped),
                ..old(self)@
            }),
    {
        self.dropped = self.dropped.wrapping_add(1);
    }

    /// Whether updates are still queued or being emitted.
    pub fn pending(&self) -> (pending: bool)
        ensures
            pending == (self@.in_flight || self@.queue.len() > 0),
    {
        self.in_flight || self.queue.len() > 0
    }

    /// Whether the topic completed.
    pub fn is_finished(&self) -> (finished: bool)
        ensures
            finished == self@.finished,
    {
        self.finished
    }

    /// Queue the final update and stop once it flushes.
    pub fn finish(&mut self, end: T)
        ensures
            final(self)@ == (LaneView {
                queue: old(self)@.queue.push(end),
                finished: true,
                ..old(self)@
            }),
    {
        self.queue.push_back(end);
        self.finished = true;
    }
}

// ---------------------------------------------------------------------------
// Lists keyed by numeric ids.
// ---------------------------------------------------------------------------

/// The map an id-keyed list records: each entry binds its id, later
/// entries over earlier ones.
pub open spec fn keyed<V>(entries: Seq<(u64, V)>) -> Map<u64, V>
    decreases entries.len(),
{
    if entries.len() == 0 {
        Map::empty()
    } else {
        keyed(entries.drop_last()).insert(entries.last().0, entries.last().1)
    }
}

/// No id occurs twice in the list.
pub open spec fn distinct_keys<V>(entries: Seq<(u64, V)>) -> bool {
    forall|i: int, j: int| 0 <= i < j < entries.len() ==> #[trigger] entries[i].0 != #[trigger] entries[j].0
}

proof fn lemma_keyed_domain<V>(entries: Seq<(u64, V)>, key: u64)
    ensures
        keyed(entries).contains_key(key) <==> exists|i: int| 0 <= i < entries.len() && #[trigger] entries[i].0 == key,
    decreases entries.len(),
{
    if entries.len() > 0 {
        let shorter = entries.drop_last();
        lemma_keyed_domain(shorter, key);
        if keyed(shorter).contains_key(key) {
            let i = choose|i: int| 0 <= i < shorter.len() && #[trigger] shorter[i].0 == key;
            assert(entries[i].0 == key);
        }
        if exists|i: int| 0 <= i < entries.len() && #[trigger] entries[i].0 == key {
            let i = choose|i: int| 0 <= i < entries.len() && #[trigger] entries[i].0 == key;
            if i < entries.len() - 1 {
                assert(shorter[i].0 == key);
            }
        }
    }
}

proof fn lemma_distinct_prefix<V>(entries: Seq<(u64, V)>)
    requires
        distinct_keys(entries),
        entries.len() > 0,
    ensures
        distinct_keys(entries.drop_last()),
{
    let shorter = entries.drop_last();
    assert forall|a: int, b: int| 0 <= a < b < shorter.len() implies #[trigger] shorter[a].0 != #[trigger] shorter[b].0 by {
        assert(shorter[a] == entries[a] && shorter[b] == entries[b]);
    }
}

proof fn lemma_keyed_value<V>(entries: Seq<(u64, V)>, i: int)
    requires
        distinct_keys(entries),
        0 <= i < entries.len(),
    ensures
        keyed(entries).contains_key(entries[i].0),
        keyed(entries)[entries[i].0] == entries[i].1,
    decreases entries.len(),
{
    if i < entries.len() - 1 {
        let shorter = entries.drop_last();
        assert(shorter[i] == entries[i]);
        lemma_distinct_prefix(entries);
        lemma_keyed_value(shorter, i);
        assert(entries[i].0 != entries[entries.len() - 1].0);
    }
}

proof fn lemma_keyed_update<V>(entries: Seq<(u64, V)>, i: int, value: V)
    requires
        distinct_keys(entries),
        0 <= i < entries.len(),
    ensures
        distinct_keys(entries.update(i, (entries[i].0, value))),
        keyed(entries.update(i, (entries[i].0, value))) == keyed(entries).insert(entries[i].0, value),
    decreases entries.len(),
{
    let entry = (entries[i].0, value);
    let updated = entries.update(i, entry);
    assert(distinct_keys(updated)) by {
        assert forall|a: int, b: int| 0 <= a < b < updated.len() implies #[trigger] updated[a].0 != #[trigger] updated[b].0 by {
            assert(updated[a].0 == entries[a].0 && updated[b].0 == entries[b].0);
        }
    }
    if i == entries.len() - 1 {
        assert(updated.drop_last() =~= entries.drop_last());
    } else {
        let shorter = entries.drop_last();
        lemma_distinct_prefix(entries);
        lemma_keyed_update(shorter, i, value);
        assert(updated.drop_last() =~= shorter.update(i, entry));
        assert(shorter[i].0 == entries[i].0);
        assert(entries[i].0 != entries.last().0);
        assert(keyed(updated) =~= keyed(entries).insert(entry.0, value));
    }
}

proof fn lemma_keyed_remove<V>(entries: Seq<(u64, V)>, i: int)
    requires
        distinct_keys(entries),
        0 <= i < entries.len(),
    ensures
        distinct_keys(entries.remove(i)),
        keyed(entries.remove(i)) == keyed(entries).remove(entries[i].0),
    decreases entries.len(),
{
    let removed = entries.remove(i);
    assert(distinct_keys(removed)) by {
        assert forall|a: int, b: int| 0 <= a < b < removed.len() implies #[trigger] removed[a].0 != #[trigger] removed[b].0 by {
            let a2 = if a < i { a } else { a + 1 };
            let b2 = if b < i { b } else { b + 1 };
            assert(removed[a] == entries[a2] && removed[b] == entries[b2]);
        }
    }
    let shorter = entries.drop_last();
    lemma_distinct_prefix(entries);
    if i == entries.len() - 1 {
        assert(removed =~= shorter);
        lemma_keyed_domain(shorter, entries[i].0);
        if keyed(shorter).contains_key(entries[i].0) {
            let j = choose|j: int| 0 <= j < shorter.len() && #[trigger] shorter[j].0 == entries[i].0;
            assert(entries[j].0 == shorter[j].0);
        }
        assert(keyed(removed) =~= keyed(entries).remove(entries[i].0));
    } else {
        lemma_keyed_remove(shorter, i);
        assert(removed.drop_last() =~= shorter.remove(i));
        assert(removed.last() == entries.last());
        assert(shorter[i] == entries[i]);
        assert(entries[i].0 != entries.last().0);
        assert(keyed(removed) =~= keyed(entries).remove(entries[i].0));
    }
}

proof fn lemma_keyed_push<V>(entries: Seq<(u64, V)>, entry: (u64, V))
    requires
        distinct_keys(entries),
        !keyed(entries).contains_key(entry.0),
    ensures
        distinct_keys(entries.push(entry)),
        keyed(entries.push(entry)) == keyed(entries).insert(entry.0, entry.1),
{
    let pushed = entries.push(entry);
    lemma_keyed_domain(entries, entry.0);
    assert(pushed.drop_last() =~= entries);
    assert(distinct_keys(pushed)) by {
        assert forall|a: int, b: int| 0 <= a < b < pushed.len() implies #[trigger] pushed[a].0 != #[trigger] pushed[b].0 by {
            if b == pushed.len() - 1 {
                assert(pushed[a] == entries[a]);
            } else {
                assert(pushed[a] == entries[a] && pushed[b] == entries[b]);
            }
        }
    }
}

// ---------------------------------------------------------------------------
// Identifiers and errors.
// ---------------------------------------------------------------------------

/// One registered connection, allocated by
/// [`TopicRegistry::register_connection`].
#[derive(Debug, Clone, Copy, PartialEq, Eq, Hash, PartialOrd, Ord, Structural)]
pub struct ConnectionId(u64);

/// One live subscription, allocated by [`TopicRegistry::register`].
#[derive(Debug, Clone, Copy, PartialEq, Eq, Hash, PartialOrd, Ord, Structural)]
pub struct SubscriberId(u64);

impl View for ConnectionId {
    type V = u64;

    closed spec fn view(&self) -> u64 {
        self.0
    }
}

impl View for SubscriberId {
    type V = u64;

    closed spec fn view(&self) -> u64 {
        self.0
    }
}

/// Why a subscription was not registered.
#[derive(Debug, Clone, Copy, PartialEq, Eq, Structural)]
pub enum RegisterError {
    /// The connection id was never registered or already dropped.
    UnknownConnection,
    /// The registry is quiescing: no new subscriptions.
    Draining,
}

impl RegisterError {
    /// The refusal as diagnostics print it.
    pub fn to_string(&self) -> (text: String)
        ensures
            text@ == match *self {
                RegisterError::UnknownConnection => "the connection is not registered"@,
                RegisterError::Draining => "the registry is draining"@,
            },
    {
        let mut text = String::new();
        match self {
            RegisterError::UnknownConnection => push_str(&mut text, "the connection is not registered"),
            RegisterError::Draining => push_str(&mut text, "the registry is draining"),
        }
        text
    }
}

/// Why a publish produced no fan-out.
#[derive(Debug, Clone, PartialEq, Eq)]
pub enum PublishError {
    /// The registry is quiescing: new publishes are refused.
    Draining,
    /// The update frame failed to encode for delivery; the cause's text
    /// is kept.
    Build(String),
    /// The backplane rejected or lost the publish after local checks passed.
    Backplane(BackplaneError),
}

/// The publish failure a backplane failure surfaces as: single-node
/// refusals keep their own shapes, so callers match on `Draining` and
/// `Build` whatever backplane stands behind the registry.
pub open spec fn publish_error_of(cause: BackplaneError) -> PublishError {
    match cause {
        BackplaneError::Refused(DeliverError::Draining) => PublishError::Draining,
        BackplaneError::Refused(DeliverError::Build(text)) => PublishError::Build(text),
        other => PublishError::Backplane(other),
    }
}

impl From<BackplaneError> for PublishError {
    fn from(cause: BackplaneError) -> (error: PublishError) {
        match cause {
            BackplaneError::Refused(DeliverError::Draining) => PublishError::Draining,
            BackplaneError::Refused(DeliverError::Build(text)) => PublishError::Build(text),
            other => PublishError::Backplane(other),
        }
    }
}

impl vstd::std_specs::convert::FromSpecImpl<BackplaneError> for PublishError {
    open spec fn obeys_from_spec() -> bool {
        true
    }

    open spec fn from_spec(cause: BackplaneError) -> PublishError {
        publish_error_of(cause)
    }
}

/// The message of a publish failure.
pub open spec fn publish_text(e: PublishError) -> Seq<char> {
    match e {
        PublishError::Draining => "the registry is draining"@,
        PublishError::Build(cause) => "the update frame failed to build: "@ + cause@,
        PublishError::Backplane(cause) => "the backplane refused the publish: "@
            + crate::pubsub::backplane::backplane_text(cause),
    }
}

impl PublishError {
    /// The failure as diagnostics print it.
    pub fn to_string(&self) -> (text: String)
        ensures
            text@ == publish_text(*self),
    {
        let mut text = String::new();
        match self {
            PublishError::Draining => push_str(&mut text, "the registry is draining"),
            PublishError::Build(cause) => {
                push_str(&mut text, "the update frame failed to build: ");
                push_str(&mut text, cause.as_str());
            },
            PublishError::Backplane(cause) => {
                push_str(&mut text, "the backplane refused the publish: ");
                let more = cause.to_string();
                push_str(&mut text, more.as_str());
            },
        }
        assert(text@ =~= publish_text(*self));
        text
    }
}

// ---------------------------------------------------------------------------
// The registry's bookkeeping.
// ---------------------------------------------------------------------------

/// The identity bytes an optional identity carries.
pub open spec fn identity_view(identity: Option<Vec<u8>>) -> Option<Seq<u8>> {
    match identity {
        Some(bytes) => Some(bytes@),
        None => None,
    }
}

/// One registered connection: its id and the identity the application
/// attached.
struct Connection {
    id: ConnectionId,
    identity: Option<Vec<u8>>,
}

impl Connection {
    spec fn entry(&self) -> (u64, Option<Seq<u8>>) {
        (self.id@, identity_view(self.identity))
    }
}

/// The mathematical model of one subscription.
pub struct SubscriptionView<T> {
    /// The subscribed topic.
    pub topic: Seq<char>,
    /// The connection the subscription hangs off.
    pub connection: u64,
    /// Its delivery lane.
    pub lane: LaneView<T>,
    /// Delivery stopped: the link failed.
    pub closed: bool,
}

/// One subscriber: the topic, its connection, and its delivery lane.
struct Subscription<T> {
    id: SubscriberId,
    topic: Topic,
    connection: ConnectionId,
    lane: Lane<T>,
    closed: bool,
}

impl<T> Subscription<T> {
    spec fn entry(&self) -> (u64, SubscriptionView<T>) {
        (
            self.id@,
            SubscriptionView {
                topic: self.topic@,
                connection: self.connection@,
                lane: self.lane@,
                closed: self.closed,
            },
        )
    }
}

/// A fresh subscription's model: an empty idle lane.
pub open spec fn fresh_subscription<T>(topic: Seq<char>, connection: u64, lane: LaneView<T>) -> bool {
    &&& lane.queue.len() == 0
    &&& !lane.in_flight
    &&& lane.dropped == 0
    &&& !lane.finished
}

/// Whether entry `e` belongs to `topic`.
pub open spec fn on_topic<T>(topic: Seq<char>) -> spec_fn((u64, SubscriptionView<T>)) -> bool {
    |e: (u64, SubscriptionView<T>)| e.1.topic == topic
}

/// Whether entry `e` hangs off a connection other than `connection`.
pub open spec fn off_connection<T>(connection: u64) -> spec_fn((u64, SubscriptionView<T>)) -> bool {
    |e: (u64, SubscriptionView<T>)| e.1.connection != connection
}

/// Every subscription hangs off a registered connection.
pub open spec fn members_live<T>(connections: Map<u64, Option<Seq<u8>>>, list: Seq<(u64, SubscriptionView<T>)>) -> bool {
    forall|i: int| 0 <= i < list.len() ==> connections.contains_key(#[trigger] list[i].1.connection)
}

/// A connection holds at most one subscription per topic.
pub open spec fn one_per_connection_topic<T>(list: Seq<(u64, SubscriptionView<T>)>) -> bool {
    forall|i: int, j: int|
        0 <= i < j < list.len() ==> !(#[trigger] list[i].1.connection == #[trigger] list[j].1.connection
            && list[i].1.topic == list[j].1.topic)
}

/// Some subscription is on `topic`.
pub open spec fn has_member<T>(list: Seq<(u64, SubscriptionView<T>)>, topic: Seq<char>) -> bool {
    exists|i: int| 0 <= i < list.len() && #[trigger] list[i].1.topic == topic
}

/// A topic keeps its last order exactly while it has a member.
pub open spec fn orders_track_members<T>(orders: Map<Seq<char>, u64>, list: Seq<(u64, SubscriptionView<T>)>) -> bool {
    forall|t: Seq<char>| #[trigger] orders.contains_key(t) <==> has_member(list, t)
}

/// Some subscription of `connection` is on `topic`.
pub open spec fn holds<T>(list: Seq<(u64, SubscriptionView<T>)>, connection: u64, topic: Seq<char>) -> bool {
    exists|i: int| 0 <= i < list.len() && #[trigger] list[i].1.connection == connection && list[i].1.topic == topic
}

/// The model of a lane no update has touched yet.
pub open spec fn empty_lane<T>() -> LaneView<T> {
    LaneView { queue: Seq::empty(), in_flight: false, dropped: 0, finished: false }
}

/// The connections whose lanes voted their connection off during one
/// fan-out, in subscription order.
pub open spec fn doomed_of<T>(list: Seq<(u64, SubscriptionView<T>)>, topic: Seq<char>, outcomes: Seq<PushOutcome>) -> Seq<u64>
    decreases list.len(),
{
    if list.len() == 0 || outcomes.len() < list.len() {
        Seq::empty()
    } else {
        let earlier = doomed_of(list.drop_last(), topic, outcomes.subrange(0, list.len() - 1));
        if list.last().1.topic == topic && outcomes[list.len() - 1] == PushOutcome::Disconnect {
            earlier.push(list.last().1.connection)
        } else {
            earlier
        }
    }
}

/// Entry `i` of `after` is entry `i` of `before` with its lane offered a
/// clone of `update`, under some verdict, with outcome `outcome`.
pub open spec fn fanned<T: Clone>(
    before: (u64, SubscriptionView<T>),
    after: (u64, SubscriptionView<T>),
    capacity: nat,
    update: T,
    outcome: PushOutcome,
) -> bool {
    exists|copy: T, verdict: DeliveryVerdict|
        #[trigger] cloned(update, copy) && (after.1.lane, outcome) == #[trigger] offered(before.1.lane, capacity, copy, verdict)
            && after == (before.0, SubscriptionView { lane: after.1.lane, ..before.1 })
}

/// Entry `after` is entry `before` whose lane took a clone of `end` as
/// its final update.
pub open spec fn ended<T: Clone>(before: (u64, SubscriptionView<T>), after: (u64, SubscriptionView<T>), end: T) -> bool {
    exists|copy: T|
        #[trigger] cloned(end, copy) && after == (
            before.0,
            SubscriptionView {
                lane: LaneView { queue: before.1.lane.queue.push(copy), finished: true, ..before.1.lane },
                ..before.1
            },
        )
}

/// Some entry of `list` names `topic`.
pub open spec fn lists_topic(list: Seq<(Topic, u64)>, topic: Seq<char>) -> bool {
    exists|k: int| 0 <= k < list.len() && #[trigger] list[k].0@ == topic
}

/// What a drain step found on one lane.
#[derive(Debug)]
pub enum Next<T> {
    /// The subscription is gone or its delivery stopped.
    Gone,
    /// Emit this update next.
    Emit(T),
    /// The topic completed and every update left.
    Done,
    /// Nothing queued yet.
    Wait,
}

/// Topic fan-out bookkeeping: connections, subscriptions with their
/// lanes, per-topic last orders, and the quiescing flag.
///
/// Every subscription hangs off a registered connection, a connection
/// holds at most one subscription per topic, and a topic keeps its last
/// order exactly while it has a member.
pub struct TopicRegistry<T, P> {
    capacity: usize,
    delivery: P,
    draining: bool,
    next_connection: u64,
    next_subscriber: u64,
    connections: Vec<Connection>,
    subscriptions: Vec<Subscription<T>>,
    topics: Counters,
}

impl<T, P: DeliveryPolicy> TopicRegistry<T, P> {
    /// The registered connections and the identities they carry.
    pub closed spec fn connections(&self) -> Map<u64, Option<Seq<u8>>> {
        keyed(self.connections@.map_values(|c: Connection| c.entry()))
    }

    /// The subscriptions, in registration order.
    pub closed spec fn subscription_list(&self) -> Seq<(u64, SubscriptionView<T>)> {
        self.subscriptions@.map_values(|s: Subscription<T>| s.entry())
    }

    /// The subscriptions by id.
    pub open spec fn subscriptions(&self) -> Map<u64, SubscriptionView<T>> {
        keyed(self.subscription_list())
    }

    /// The last order of every topic that has a member.
    pub closed spec fn topic_orders(&self) -> Map<Seq<char>, u64> {
        self.topics@
    }

    /// Whether the registry is quiescing.
    pub closed spec fn draining(&self) -> bool {
        self.draining
    }

    /// The id the next connection gets.
    pub closed spec fn next_connection(&self) -> u64 {
        self.next_connection
    }

    /// The id the next subscription gets.
    pub closed spec fn next_subscriber(&self) -> u64 {
        self.next_subscriber
    }

    /// Updates one lane holds before the delivery policy decides.
    pub closed spec fn capacity(&self) -> usize {
        self.capacity
    }

    /// The installed delivery policy.
    pub closed spec fn delivery(&self) -> P {
        self.delivery
    }

    /// The bookkeeping agrees with itself.
    pub open spec fn wf(&self) -> bool {
        &&& self.inner_wf()
        &&& distinct_keys(self.subscription_list())
        &&& members_live(self.connections(), self.subscription_list())
        &&& one_per_connection_topic(self.subscription_list())
        &&& orders_track_members(self.topic_orders(), self.subscription_list())
    }

    /// The counters and the connection list are well formed.
    pub closed spec fn inner_wf(&self) -> bool {
        &&& self.topics.wf()
        &&& distinct_keys(self.connections@.map_values(|c: Connection| c.entry()))
    }

    /// An empty registry: lanes of `queue_capacity`, the `delivery` policy
    /// consulted when one is full.
    pub fn new(queue_capacity: usize, delivery: P) -> (registry: TopicRegistry<T, P>)
        ensures
            registry.wf(),
            registry.connections() == Map::<u64, Option<Seq<u8>>>::empty(),
            registry.subscription_list().len() == 0,
            registry.topic_orders() == Map::<Seq<char>, u64>::empty(),
            !registry.draining(),
            registry.next_connection() == 1,
            registry.next_subscriber() == 1,
            registry.capacity() == queue_capacity,
            registry.delivery() == delivery,
    {
        let registry = TopicRegistry {
            capacity: queue_capacity,
            delivery,
            draining: false,
            next_connection: 1,
            next_subscriber: 1,
            connections: Vec::new(),
            subscriptions: Vec::new(),
            topics: Counters::new(),
        };
        assert(registry.connections@.map_values(|c: Connection| c.entry()) =~= Seq::empty());
        assert(registry.subscription_list() =~= Seq::empty());
        registry
    }

    /// Whether [`quiesce`](Self::quiesce) already ran.
    pub fn is_draining(&self) -> (draining: bool)
        ensures
            draining == self.draining(),
    {
        self.draining
    }
}

/// A second copy of identity bytes.
fn copy_identity(identity: &Option<Vec<u8>>) -> (copy: Option<Vec<u8>>)
    ensures
        identity_view(copy) == identity_view(*identity),
{
    match identity {
        Some(bytes) => {
            let mut copy: Vec<u8> = Vec::new();
            let mut i: usize = 0;
            while i < bytes.len()
                invariant
                    i <= bytes@.len(),
                    copy@ == bytes@.subrange(0, i as int),
                decreases bytes@.len() - i,
            {
                copy.push(bytes[i]);
                i = i + 1;
                assert(copy@ =~= bytes@.subrange(0, i as int));
            }
            assert(copy@ =~= bytes@);
            Some(copy)
        },
        None => None,
    }
}

impl<T, P: DeliveryPolicy> TopicRegistry<T, P> {
    /// Where connection `id`'s record stands, if it is registered.
    fn connection_position(&self, id: ConnectionId) -> (at: Option<usize>)
        requires
            self.inner_wf(),
        ensures
            match at {
                Some(i) => i < self.connections@.len() && self.connections@[i as int].id@ == id@,
                None => !self.connections().contains_key(id@),
            },
    {
        let mut i: usize = 0;
        while i < self.connections.len()
            invariant
                i <= self.connections@.len(),
                forall|j: int| 0 <= j < i ==> #[trigger] self.connections@[j].id@ != id@,
            decreases self.connections@.len() - i,
        {
            if self.connections[i].id == id {
                return Some(i);
            }
            i = i + 1;
        }
        proof {
            let entries = self.connections@.map_values(|c: Connection| c.entry());
            lemma_keyed_domain(entries, id@);
            if self.connections().contains_key(id@) {
                let j = choose|j: int| 0 <= j < entries.len() && #[trigger] entries[j].0 == id@;
                assert(self.connections@[j].id@ == entries[j].0);
            }
        }
        None
    }

    fn admit_connection(&mut self, identity: Option<Vec<u8>>) -> (id: ConnectionId)
        requires
            old(self).wf(),
        ensures
            final(self).wf(),
            id@ == old(self).next_connection(),
            final(self).next_connection() == bumped(old(self).next_connection()),
            final(self).connections() == old(self).connections().insert(id@, identity_view(identity)),
            final(self).subscription_list() == old(self).subscription_list(),
            final(self).topic_orders() == old(self).topic_orders(),
            final(self).draining() == old(self).draining(),
            final(self).next_subscriber() == old(self).next_subscriber(),
            final(self).capacity() == old(self).capacity(),
            final(self).delivery() == old(self).delivery(),
    {
        let id = ConnectionId(self.next_connection);
        self.next_connection = self.next_connection.wrapping_add(1);
        let ghost before = self.connections@.map_values(|c: Connection| c.entry());
        let ghost entry = (id@, identity_view(identity));
        match self.connection_position(id) {
            Some(i) => {
                self.connections.set(i, Connection { id, identity });
                proof {
                    lemma_keyed_update(before, i as int, entry.1);
                    assert(self.connections@.map_values(|c: Connection| c.entry()) =~= before.update(
                        i as int,
                        (before[i as int].0, entry.1),
                    ));
                }
            },
            None => {
                self.connections.push(Connection { id, identity });
                proof {
                    lemma_keyed_push(before, entry);
                    assert(self.connections@.map_values(|c: Connection| c.entry()) =~= before.push(entry));
                }
            },
        }
        assert(self.subscription_list() =~= old(self).subscription_list());
        assert forall|i: int| 0 <= i < self.subscription_list().len() implies self.connections().contains_key(
            #[trigger] self.subscription_list()[i].1.connection,
        ) by {
            assert(old(self).connections().contains_key(old(self).subscription_list()[i].1.connection));
        }
        assert(members_live(self.connections(), self.subscription_list()));
        id
    }

    /// Register an anonymous connection, yielding the id its
    /// subscriptions hang off.
    pub fn register_connection(&mut self) -> (id: ConnectionId)
        requires
            old(self).wf(),
        ensures
            final(self).wf(),
            id@ == old(self).next_connection(),
            final(self).next_connection() == bumped(old(self).next_connection()),
            final(self).connections() == old(self).connections().insert(id@, None),
            final(self).subscription_list() == old(self).subscription_list(),
            final(self).topic_orders() == old(self).topic_orders(),
            final(self).draining() == old(self).draining(),
            final(self).next_subscriber() == old(self).next_subscriber(),
            final(self).capacity() == old(self).capacity(),
            final(self).delivery() == old(self).delivery(),
    {
        self.admit_connection(None)
    }

    /// Register a connection under an opaque identity, so the policies can
    /// authorize by caller.
    pub fn register_connection_as(&mut self, identity: Vec<u8>) -> (id: ConnectionId)
        requires
            old(self).wf(),
        ensures
            final(self).wf(),
            id@ == old(self).next_connection(),
            final(self).next_connection() == bumped(old(self).next_connection()),
            final(self).connections() == old(self).connections().insert(id@, Some(identity@)),
            final(self).subscription_list() == old(self).subscription_list(),
            final(self).topic_orders() == old(self).topic_orders(),
            final(self).draining() == old(self).draining(),
            final(self).next_subscriber() == old(self).next_subscriber(),
            final(self).capacity() == old(self).capacity(),
            final(self).delivery() == old(self).delivery(),
    {
        self.admit_connection(Some(identity))
    }

    /// The caller's identity while `connection` is registered: `None` once
    /// the connection was dropped (or never admitted), so a revoked caller
    /// never degrades to anonymous access, and `Some(None)` for a
    /// registered anonymous connection.
    pub fn member_identity(&self, connection: ConnectionId) -> (identity: Option<Option<Vec<u8>>>)
        requires
            self.wf(),
        ensures
            identity is Some <==> self.connections().contains_key(connection@),
            identity matches Some(held) ==> identity_view(held) == self.connections()[connection@],
    {
        match self.connection_position(connection) {
            Some(i) => {
                proof {
                    lemma_keyed_value(self.connections@.map_values(|c: Connection| c.entry()), i as int);
                }
                Some(copy_identity(&self.connections[i].identity))
            },
            None => None,
        }
    }

    /// The identity attached at registration; `None` for an anonymous or
    /// unknown connection.
    pub fn identity(&self, connection: ConnectionId) -> (identity: Option<Vec<u8>>)
        requires
            self.wf(),
        ensures
            identity_view(identity) == if self.connections().contains_key(connection@) {
                self.connections()[connection@]
            } else {
                None
            },
    {
        match self.member_identity(connection) {
            Some(held) => held,
            None => None,
        }
    }
}

impl<T, P: DeliveryPolicy> TopicRegistry<T, P> {
    /// Where subscription `id` stands, if it exists.
    fn subscription_position(&self, id: SubscriberId) -> (at: Option<usize>)
        requires
            self.wf(),
        ensures
            match at {
                Some(i) => i < self.subscriptions@.len() && self.subscription_list()[i as int].0 == id@,
                None => !self.subscriptions().contains_key(id@),
            },
    {
        let mut i: usize = 0;
        while i < self.subscriptions.len()
            invariant
                i <= self.subscriptions@.len(),
                forall|j: int| 0 <= j < i ==> #[trigger] self.subscription_list()[j].0 != id@,
            decreases self.subscriptions@.len() - i,
        {
            if self.subscriptions[i].id == id {
                assert(self.subscription_list()[i as int].0 == self.subscriptions@[i as int].id@);
                return Some(i);
            }
            assert(self.subscription_list()[i as int].0 == self.subscriptions@[i as int].id@);
            i = i + 1;
        }
        proof {
            lemma_keyed_domain(self.subscription_list(), id@);
        }
        None
    }

    /// Where `connection`'s subscription to `topic` stands, if it has one.
    fn holding_position(&self, connection: ConnectionId, topic: &Topic) -> (at: Option<usize>)
        requires
            self.wf(),
        ensures
            match at {
                Some(i) => i < self.subscriptions@.len() && self.subscription_list()[i as int].1.connection
                    == connection@ && self.subscription_list()[i as int].1.topic == topic@,
                None => !holds(self.subscription_list(), connection@, topic@),
            },
    {
        let mut i: usize = 0;
        while i < self.subscriptions.len()
            invariant
                i <= self.subscriptions@.len(),
                forall|j: int| 0 <= j < i ==> !(#[trigger] self.subscription_list()[j].1.connection == connection@
                    && self.subscription_list()[j].1.topic == topic@),
            decreases self.subscriptions@.len() - i,
        {
            let ghost e = self.subscription_list()[i as int];
            assert(e.1.connection == self.subscriptions@[i as int].connection@);
            assert(e.1.topic == self.subscriptions@[i as int].topic@);
            if self.subscriptions[i].connection == connection && self.subscriptions[i].topic.same_name(topic) {
                return Some(i);
            }
            i = i + 1;
        }
        None
    }

    /// The id of `connection`'s subscription to `topic`, if it holds one.
    pub fn subscriber_of(&self, connection: ConnectionId, topic: &Topic) -> (id: Option<SubscriberId>)
        requires
            self.wf(),
        ensures
            match id {
                Some(id) => exists|i: int|
                    0 <= i < self.subscription_list().len() && #[trigger] self.subscription_list()[i].0 == id@
                        && self.subscription_list()[i].1.connection == connection@
                        && self.subscription_list()[i].1.topic == topic@,
                None => !holds(self.subscription_list(), connection@, topic@),
            },
    {
        match self.holding_position(connection, topic) {
            Some(i) => {
                assert(self.subscription_list()[i as int].0 == self.subscriptions@[i as int].id@);
                Some(self.subscriptions[i].id)
            },
            None => None,
        }
    }

    /// Whether some subscription is on `topic`.
    fn topic_has_member(&self, topic: &Topic) -> (found: bool)
        ensures
            found == has_member(self.subscription_list(), topic@),
    {
        let mut i: usize = 0;
        while i < self.subscriptions.len()
            invariant
                i <= self.subscriptions@.len(),
                forall|j: int| 0 <= j < i ==> #[trigger] self.subscription_list()[j].1.topic != topic@,
            decreases self.subscriptions@.len() - i,
        {
            assert(self.subscription_list()[i as int].1.topic == self.subscriptions@[i as int].topic@);
            if self.subscriptions[i].topic.same_name(topic) {
                return true;
            }
            i = i + 1;
        }
        false
    }

    /// Detach the subscription at `k` from every record; its topic
    /// forgets its last order once no member is left.
    fn remove_at(&mut self, k: usize)
        requires
            old(self).wf(),
            k < old(self).subscription_list().len(),
        ensures
            final(self).wf(),
            final(self).subscription_list() == old(self).subscription_list().remove(k as int),
            final(self).subscriptions() == old(self).subscriptions().remove(old(self).subscription_list()[k as int].0),
            final(self).topic_orders() == if has_member(final(self).subscription_list(), old(self).subscription_list()[k as int].1.topic) {
                old(self).topic_orders()
            } else {
                old(self).topic_orders().remove(old(self).subscription_list()[k as int].1.topic)
            },
            final(self).connections() == old(self).connections(),
            final(self).draining() == old(self).draining(),
            final(self).next_connection() == old(self).next_connection(),
            final(self).next_subscriber() == old(self).next_subscriber(),
            final(self).capacity() == old(self).capacity(),
            final(self).delivery() == old(self).delivery(),
    {
        let ghost list = self.subscription_list();
        let ghost gone = list[k as int];
        let subscription = self.subscriptions.remove(k);
        proof {
            lemma_keyed_remove(list, k as int);
        }
        assert(self.subscription_list() =~= list.remove(k as int));
        if !self.topic_has_member(&subscription.topic) {
            self.topics.forget(&subscription.topic);
        }
        let ghost rest = self.subscription_list();
        assert(gone.1.topic == subscription.topic@);
        assert(members_live(self.connections(), rest)) by {
            assert forall|i: int| 0 <= i < rest.len() implies self.connections().contains_key(
                #[trigger] rest[i].1.connection,
            ) by {
                let i2 = if i < k { i } else { i + 1 };
                assert(rest[i] == list[i2]);
            }
        }
        assert(one_per_connection_topic(rest)) by {
            assert forall|a: int, b: int| 0 <= a < b < rest.len() implies !(#[trigger] rest[a].1.connection
                == #[trigger] rest[b].1.connection && rest[a].1.topic == rest[b].1.topic) by {
                let a2 = if a < k { a } else { a + 1 };
                let b2 = if b < k { b } else { b + 1 };
                assert(rest[a] == list[a2] && rest[b] == list[b2]);
            }
        }
        assert(orders_track_members(self.topic_orders(), rest)) by {
            assert forall|t: Seq<char>| #[trigger] self.topic_orders().contains_key(t) <==> has_member(rest, t) by {
                if has_member(rest, t) {
                    let i = choose|i: int| 0 <= i < rest.len() && #[trigger] rest[i].1.topic == t;
                    let i2 = if i < k { i } else { i + 1 };
                    assert(rest[i] == list[i2]);
                    assert(has_member(list, t));
                }
                if t != gone.1.topic && has_member(list, t) {
                    let i = choose|i: int| 0 <= i < list.len() && #[trigger] list[i].1.topic == t;
                    assert(i != k);
                    let i2 = if i < k { i } else { i - 1 };
                    assert(rest[i2] == list[i]);
                }
                if t == gone.1.topic {
                    assert(has_member(list, t)) by {
                        assert(list[k as int].1.topic == t);
                    }
                }
            }
        }
    }

    /// Subscribe `connection` to `topic`.
    ///
    /// Idempotent per connection and topic: re-subscribing returns the
    /// existing id and changes nothing.
    ///
    /// # Errors
    ///
    /// - [`RegisterError::Draining`]: [`quiesce`](Self::quiesce) already ran.
    /// - [`RegisterError::UnknownConnection`]: `connection` was never
    ///   admitted, or was dropped.
    pub fn register(&mut self, connection: ConnectionId, topic: Topic) -> (outcome: Result<SubscriberId, RegisterError>)
        requires
            old(self).wf(),
        ensures
            final(self).wf(),
            final(self).connections() == old(self).connections(),
            final(self).draining() == old(self).draining(),
            final(self).next_connection() == old(self).next_connection(),
            final(self).capacity() == old(self).capacity(),
            final(self).delivery() == old(self).delivery(),
            old(self).draining() ==> outcome == Err::<SubscriberId, RegisterError>(RegisterError::Draining),
            (!old(self).draining() && !old(self).connections().contains_key(connection@)) ==> outcome
                == Err::<SubscriberId, RegisterError>(RegisterError::UnknownConnection),
            outcome is Ok ==> holds(final(self).subscription_list(), connection@, topic@),
            outcome is Err ==> (final(self).subscription_list() == old(self).subscription_list()
                && final(self).topic_orders() == old(self).topic_orders()
                && final(self).next_subscriber() == old(self).next_subscriber()),
            (!old(self).draining() && old(self).connections().contains_key(connection@) && holds(
                old(self).subscription_list(),
                connection@,
                topic@,
            )) ==> (outcome matches Ok(id) && old(self).subscriptions().contains_key(id@)
                && old(self).subscriptions()[id@].connection == connection@
                && old(self).subscriptions()[id@].topic == topic@
                && final(self).subscription_list() == old(self).subscription_list()
                && final(self).topic_orders() == old(self).topic_orders()
                && final(self).next_subscriber() == old(self).next_subscriber()),
            (!old(self).draining() && old(self).connections().contains_key(connection@) && !holds(
                old(self).subscription_list(),
                connection@,
                topic@,
            )) ==> (outcome matches Ok(id) && id@ == old(self).next_subscriber()
                && final(self).next_subscriber() == bumped(old(self).next_subscriber())
                && final(self).subscriptions() == old(self).subscriptions().insert(
                    id@,
                    SubscriptionView { topic: topic@, connection: connection@, lane: empty_lane(), closed: false },
                )
                && final(self).topic_orders().contains_key(topic@)
                && (forall|t: Seq<char>| t != topic@ && #[trigger] final(self).topic_orders().contains_key(t)
                    ==> old(self).topic_orders().contains_key(t) && final(self).topic_orders()[t]
                    == old(self).topic_orders()[t])
                && (!old(self).subscriptions().contains_key(id@) ==> (final(self).subscription_list()
                    == old(self).subscription_list().push((
                    id@,
                    SubscriptionView { topic: topic@, connection: connection@, lane: empty_lane(), closed: false },
                )) && final(self).topic_orders() == old(self).topic_orders().insert(
                    topic@,
                    last_of(old(self).topic_orders(), topic@),
                )))),
    {
        if self.draining {
            return Err(RegisterError::Draining);
        }
        match self.connection_position(connection) {
            None => {
                return Err(RegisterError::UnknownConnection);
            },
            Some(i) => {
                proof {
                    let entries = self.connections@.map_values(|c: Connection| c.entry());
                    assert(entries[i as int].0 == connection@);
                    lemma_keyed_domain(entries, connection@);
                }
            },
        }
        if let Some(i) = self.holding_position(connection, &topic) {
            proof {
                lemma_keyed_value(self.subscription_list(), i as int);
            }
            return Ok(self.subscriptions[i].id);
        }
        let id = SubscriberId(self.next_subscriber);
        self.next_subscriber = self.next_subscriber.wrapping_add(1);
        let ghost before = self.subscription_list();
        let ghost before_orders = self.topic_orders();
        let found = self.subscription_position(id);
        let ghost removed = found is Some;
        proof {
            if let Some(k) = found {
                lemma_keyed_value(before, k as int);
            }
        }
        if let Some(k) = found {
            self.remove_at(k);
        }
        let ghost pruned = self.subscription_list();
        let ghost pruned_orders = self.topic_orders();
        assert(!holds(pruned, connection@, topic@)) by {
            if holds(pruned, connection@, topic@) {
                let i = choose|i: int| 0 <= i < pruned.len() && #[trigger] pruned[i].1.connection == connection@
                    && pruned[i].1.topic == topic@;
                assert(pruned.contains(pruned[i]));
                assert(before.contains(pruned[i])) by {
                    if pruned != before {
                        let k = choose|k: int| 0 <= k < before.len() && pruned == before.remove(k);
                        let i2 = if i < k { i } else { i + 1 };
                        assert(pruned[i] == before[i2]);
                    }
                }
                let j = choose|j: int| 0 <= j < before.len() && before[j] == pruned[i];
                assert(before[j].1.connection == connection@ && before[j].1.topic == topic@);
            }
        }
        let last = self.topics.last_order(&topic);
        self.topics.commit(&topic, last);
        let ghost entry = (
            id@,
            SubscriptionView { topic: topic@, connection: connection@, lane: empty_lane::<T>(), closed: false },
        );
        let lane = Lane::new();
        assert(lane@ == empty_lane::<T>());
        self.subscriptions.push(Subscription { id, topic, connection, lane, closed: false });
        let ghost after = self.subscription_list();
        assert(after =~= pruned.push(entry));
        assert(after[after.len() - 1] == entry);
        assert(after[after.len() - 1].1.connection == connection@ && after[after.len() - 1].1.topic == topic@);
        assert(holds(after, connection@, topic@));
        proof {
            lemma_keyed_push(pruned, entry);
        }
        assert(members_live(self.connections(), after)) by {
            assert forall|i: int| 0 <= i < after.len() implies self.connections().contains_key(
                #[trigger] after[i].1.connection,
            ) by {
                if i < pruned.len() {
                    assert(after[i] == pruned[i]);
                }
            }
        }
        assert(one_per_connection_topic(after)) by {
            assert forall|a: int, b: int| 0 <= a < b < after.len() implies !(#[trigger] after[a].1.connection
                == #[trigger] after[b].1.connection && after[a].1.topic == after[b].1.topic) by {
                assert(after[a] == pruned[a]);
                if b < pruned.len() {
                    assert(after[b] == pruned[b]);
                }
            }
        }
        assert(orders_track_members(self.topic_orders(), after)) by {
            assert forall|t: Seq<char>| #[trigger] self.topic_orders().contains_key(t) <==> has_member(after, t) by {
                if t == topic@ {
                    assert(after[after.len() - 1].1.topic == t);
                } else {
                    if has_member(after, t) {
                        let i = choose|i: int| 0 <= i < after.len() && #[trigger] after[i].1.topic == t;
                        assert(after[i] == pruned[i]);
                        assert(has_member(pruned, t));
                    }
                    if has_member(pruned, t) {
                        let i = choose|i: int| 0 <= i < pruned.len() && #[trigger] pruned[i].1.topic == t;
                        assert(after[i] == pruned[i]);
                    }
                }
            }
        }
        proof {
            if removed {
                assert(self.subscriptions() =~= old(self).subscriptions().insert(id@, entry.1));
                assert forall|t: Seq<char>| t != topic@ && #[trigger] self.topic_orders().contains_key(t) implies
                    old(self).topic_orders().contains_key(t) && self.topic_orders()[t] == old(self).topic_orders()[t] by {
                    assert(pruned_orders.contains_key(t));
                }
            } else {
                assert(pruned == before);
                assert(self.topic_orders() =~= old(self).topic_orders().insert(topic@, last_of(old(self).topic_orders(), topic@)));
            }
        }
        Ok(id)
    }
}

impl<T, P: DeliveryPolicy> TopicRegistry<T, P> {
    /// Drop `connection`'s subscription to `topic`.
    ///
    /// Returns whether a subscription existed. Idempotent: a repeat (or a
    /// never-subscribed topic) is `false`, not an error. The topic forgets
    /// its last order once no member is left.
    pub fn unregister(&mut self, connection: ConnectionId, topic: &Topic) -> (removed: bool)
        requires
            old(self).wf(),
        ensures
            final(self).wf(),
            removed == holds(old(self).subscription_list(), connection@, topic@),
            !removed ==> final(self).subscription_list() == old(self).subscription_list() && final(self).topic_orders()
                == old(self).topic_orders(),
            removed ==> exists|i: int|
                0 <= i < old(self).subscription_list().len() && #[trigger] old(self).subscription_list()[i].1.connection
                    == connection@ && old(self).subscription_list()[i].1.topic == topic@
                    && final(self).subscription_list() == old(self).subscription_list().remove(i),
            removed ==> final(self).topic_orders() == if has_member(final(self).subscription_list(), topic@) {
                old(self).topic_orders()
            } else {
                old(self).topic_orders().remove(topic@)
            },
            !holds(final(self).subscription_list(), connection@, topic@),
            final(self).connections() == old(self).connections(),
            final(self).draining() == old(self).draining(),
            final(self).next_connection() == old(self).next_connection(),
            final(self).next_subscriber() == old(self).next_subscriber(),
            final(self).capacity() == old(self).capacity(),
            final(self).delivery() == old(self).delivery(),
    {
        match self.holding_position(connection, topic) {
            Some(i) => {
                let ghost list = self.subscription_list();
                self.remove_at(i);
                proof {
                    let rest = self.subscription_list();
                    if holds(rest, connection@, topic@) {
                        let j = choose|j: int| 0 <= j < rest.len() && #[trigger] rest[j].1.connection == connection@
                            && rest[j].1.topic == topic@;
                        let j2 = if j < i { j } else { j + 1 };
                        assert(rest[j] == list[j2]);
                        if j2 < i {
                            assert(list[j2].1.connection == list[i as int].1.connection);
                        } else {
                            assert(list[i as int].1.connection == list[j2].1.connection);
                        }
                    }
                }
                true
            },
            None => false,
        }
    }

    /// Drop the connection and every subscription it holds; topics left
    /// without members forget their last order.
    pub fn drop_connection(&mut self, connection: ConnectionId)
        requires
            old(self).wf(),
        ensures
            final(self).wf(),
            final(self).connections() == old(self).connections().remove(connection@),
            final(self).subscription_list() == old(self).subscription_list().filter(off_connection(connection@)),
            forall|t: Seq<char>| #[trigger] final(self).topic_orders().contains_key(t) ==> old(self).topic_orders().contains_key(t)
                && final(self).topic_orders()[t] == old(self).topic_orders()[t],
            final(self).draining() == old(self).draining(),
            final(self).next_connection() == old(self).next_connection(),
            final(self).next_subscriber() == old(self).next_subscriber(),
            final(self).capacity() == old(self).capacity(),
            final(self).delivery() == old(self).delivery(),
    {
        let ghost start = self.subscription_list();
        let ghost keep = off_connection::<T>(connection@);
        let ghost mut done: int = 0;
        let mut i: usize = 0;
        assert(start.subrange(0, 0).filter(keep) =~= Seq::<(u64, SubscriptionView<T>)>::empty()) by {
            reveal(Seq::filter);
        }
        assert(self.subscription_list() =~= start.subrange(0, 0).filter(keep) + start.subrange(0, start.len() as int));
        while i < self.subscriptions.len()
            invariant
                self.wf(),
                0 <= done <= start.len(),
                i == start.subrange(0, done).filter(keep).len(),
                self.subscription_list() == start.subrange(0, done).filter(keep) + start.subrange(done, start.len() as int),
                self.connections() == old(self).connections(),
                self.draining() == old(self).draining(),
                self.next_connection() == old(self).next_connection(),
                self.next_subscriber() == old(self).next_subscriber(),
                self.capacity() == old(self).capacity(),
                self.delivery() == old(self).delivery(),
                forall|t: Seq<char>| #[trigger] self.topic_orders().contains_key(t) ==> old(self).topic_orders().contains_key(t)
                    && self.topic_orders()[t] == old(self).topic_orders()[t],
                keep == off_connection::<T>(connection@),
            decreases self.subscriptions@.len() - i,
        {
            let ghost list = self.subscription_list();
            let ghost kept = start.subrange(0, done).filter(keep);
            assert(list[i as int] == start[done]);
            assert(start.subrange(0, done + 1).drop_last() =~= start.subrange(0, done));
            assert(start.subrange(0, done + 1).last() == start[done]);
            assert(list[i as int].1.connection == self.subscriptions@[i as int].connection@);
            if self.subscriptions[i].connection == connection {
                let ghost orders = self.topic_orders();
                self.remove_at(i);
                proof {
                    assert(start.subrange(0, done + 1).filter(keep) == kept) by {
                        reveal(Seq::filter);
                    }
                    assert(self.subscription_list() =~= kept + start.subrange(done + 1, start.len() as int));
                    done = done + 1;
                }
            } else {
                i = i + 1;
                proof {
                    assert(start.subrange(0, done + 1).filter(keep) == kept.push(start[done])) by {
                        reveal(Seq::filter);
                    }
                    assert(self.subscription_list() =~= kept.push(start[done]) + start.subrange(done + 1, start.len() as int));
                    done = done + 1;
                }
            }
        }
        assert(done == start.len());
        assert(start.subrange(0, done) =~= start);
        assert(self.subscription_list() =~= start.filter(keep));
        let ghost list = self.subscription_list();
        match self.connection_position(connection) {
            Some(k) => {
                let ghost entries = self.connections@.map_values(|c: Connection| c.entry());
                proof {
                    lemma_keyed_remove(entries, k as int);
                }
                let _gone = self.connections.remove(k);
                assert(self.connections@.map_values(|c: Connection| c.entry()) =~= entries.remove(k as int));
            },
            None => {
                assert(self.connections() =~= old(self).connections().remove(connection@));
            },
        }
        assert(members_live(self.connections(), list)) by {
            assert forall|j: int| 0 <= j < list.len() implies self.connections().contains_key(#[trigger] list[j].1.connection) by {
                start.filter_lemma(keep);
                assert(keep(list[j]));
                assert(old(self).connections().contains_key(list[j].1.connection)) by {
                    assert(list.contains(list[j]));
                }
            }
        }
    }

    /// Live subscriber count for `topic`.
    pub fn subscriber_count(&self, topic: &Topic) -> (count: usize)
        requires
            self.wf(),
        ensures
            count == self.subscription_list().filter(on_topic(topic@)).len(),
    {
        let ghost list = self.subscription_list();
        let ghost pick = on_topic::<T>(topic@);
        let mut count: usize = 0;
        let mut i: usize = 0;
        assert(list.subrange(0, 0).filter(pick) =~= Seq::<(u64, SubscriptionView<T>)>::empty()) by {
            reveal(Seq::filter);
        }
        while i < self.subscriptions.len()
            invariant
                i <= list.len(),
                list == self.subscription_list(),
                pick == on_topic::<T>(topic@),
                count == list.subrange(0, i as int).filter(pick).len(),
                count <= i,
            decreases list.len() - i,
        {
            assert(list.subrange(0, i + 1).drop_last() =~= list.subrange(0, i as int));
            assert(list.subrange(0, i + 1).last() == list[i as int]);
            assert(list[i as int].1.topic == self.subscriptions@[i as int].topic@);
            proof {
                reveal(Seq::filter);
            }
            if self.subscriptions[i].topic.same_name(topic) {
                count = count + 1;
            }
            i = i + 1;
        }
        assert(list.subrange(0, i as int) =~= list);
        count
    }

    /// Updates dropped so far for `subscriber`, or `None` once it is gone.
    pub fn dropped(&self, subscriber: SubscriberId) -> (dropped: Option<u64>)
        requires
            self.wf(),
        ensures
            dropped == if self.subscriptions().contains_key(subscriber@) {
                Some(self.subscriptions()[subscriber@].lane.dropped)
            } else {
                None::<u64>
            },
    {
        match self.subscription_position(subscriber) {
            Some(k) => {
                proof {
                    lemma_keyed_value(self.subscription_list(), k as int);
                }
                Some(self.subscriptions[k].lane.dropped())
            },
            None => None,
        }
    }
}

impl<T: Clone, P: DeliveryPolicy> TopicRegistry<T, P> {
    /// One sequenced update lands on this node: offer a copy of `update`
    /// to the lane of every member of `topic`, in subscription order, and
    /// return the connections the delivery policy voted off. The topic's
    /// last order advances to `order` when that is later.
    ///
    /// # Errors
    ///
    /// - [`DeliverError::Draining`]: the registry is quiescing; nothing
    ///   changes.
    pub fn deliver(&mut self, topic: &Topic, order: u64, update: T) -> (doomed: Result<Vec<ConnectionId>, DeliverError>)
        requires
            old(self).wf(),
        ensures
            final(self).wf(),
            final(self).connections() == old(self).connections(),
            final(self).draining() == old(self).draining(),
            final(self).next_connection() == old(self).next_connection(),
            final(self).next_subscriber() == old(self).next_subscriber(),
            final(self).capacity() == old(self).capacity(),
            final(self).delivery() == old(self).delivery(),
            old(self).draining() ==> (doomed == Err::<Vec<ConnectionId>, DeliverError>(DeliverError::Draining)
                && final(self).subscription_list() == old(self).subscription_list()
                && final(self).topic_orders() == old(self).topic_orders()),
            !old(self).draining() ==> (doomed is Ok && final(self).topic_orders() == if old(self).topic_orders().contains_key(topic@) {
                old(self).topic_orders().insert(
                    topic@,
                    if old(self).topic_orders()[topic@] < order { order } else { old(self).topic_orders()[topic@] },
                )
            } else {
                old(self).topic_orders()
            }),
            !old(self).draining() ==> exists|outcomes: Seq<PushOutcome>|
                {
                    &&& outcomes.len() == old(self).subscription_list().len()
                    &&& final(self).subscription_list().len() == old(self).subscription_list().len()
                    &&& forall|i: int|
                        0 <= i < old(self).subscription_list().len() ==> if #[trigger] old(self).subscription_list()[i].1.topic == topic@ {
                            fanned(
                                old(self).subscription_list()[i],
                                final(self).subscription_list()[i],
                                old(self).capacity() as nat,
                                update,
                                outcomes[i],
                            )
                        } else {
                            final(self).subscription_list()[i] == old(self).subscription_list()[i]
                        }
                    &&& doomed matches Ok(gone) && gone@.map_values(|c: ConnectionId| c@) == doomed_of(
                        old(self).subscription_list(),
                        topic@,
                        outcomes,
                    )
                },
    {
        if self.draining {
            return Err(DeliverError::Draining);
        }
        if self.topic_has_member(topic) {
            let last = self.topics.last_order(topic);
            let later = if last < order { order } else { last };
            self.topics.commit(topic, later);
        }
        let ghost start = self.subscription_list();
        let ghost topics_mid = self.topics;
        let ghost mut outcomes: Seq<PushOutcome> = Seq::empty();
        let mut doomed: Vec<ConnectionId> = Vec::new();
        let mut i: usize = 0;
        assert(doomed@.map_values(|c: ConnectionId| c@) =~= doomed_of(start.subrange(0, 0), topic@, outcomes));
        while i < self.subscriptions.len()
            invariant
                i <= start.len(),
                self.subscriptions@.len() == start.len(),
                self.connections == old(self).connections,
                self.draining == old(self).draining,
                self.next_connection == old(self).next_connection,
                self.next_subscriber == old(self).next_subscriber,
                self.delivery == old(self).delivery,
                self.capacity == old(self).capacity,
                self.topics == topics_mid,
                outcomes.len() == i,
                forall|j: int| 0 <= j < start.len() ==> (#[trigger] self.subscription_list()[j]).0 == start[j].0
                    && self.subscription_list()[j].1.topic == start[j].1.topic
                    && self.subscription_list()[j].1.connection == start[j].1.connection
                    && self.subscription_list()[j].1.closed == start[j].1.closed,
                forall|j: int| i <= j < start.len() ==> #[trigger] self.subscription_list()[j] == start[j],
                forall|j: int|
                    0 <= j < i ==> if (#[trigger] start[j]).1.topic == topic@ {
                        fanned(start[j], self.subscription_list()[j], self.capacity as nat, update, outcomes[j])
                    } else {
                        self.subscription_list()[j] == start[j]
                    },
                doomed@.map_values(|c: ConnectionId| c@) == doomed_of(start.subrange(0, i as int), topic@, outcomes),
            decreases start.len() - i,
        {
            let ghost before = self.subscription_list();
            let ghost before_outcomes = outcomes;
            let ghost before_doomed = doomed@.map_values(|c: ConnectionId| c@);
            assert(before[i as int].1.topic == self.subscriptions@[i as int].topic@);
            assert(before[i as int] == start[i as int]);
            if self.subscriptions[i].topic.same_name(topic) {
                let copy = update.clone();
                let ghost lane_before = self.subscriptions@[i as int].lane@;
                let capacity = self.capacity;
                let ghost vec_before = self.subscriptions@;
                let outcome = self.subscriptions[i].lane.push(capacity, &self.delivery, topic, copy);
                proof {
                    assert forall|j: int| 0 <= j < start.len() && j != i implies self.subscriptions@[j] == vec_before[j] by {}
                    assert(self.subscriptions@[i as int].id == vec_before[i as int].id);
                    assert(self.subscriptions@[i as int].topic == vec_before[i as int].topic);
                    assert(self.subscriptions@[i as int].connection == vec_before[i as int].connection);
                    assert(self.subscriptions@[i as int].closed == vec_before[i as int].closed);
                    assert forall|j: int| 0 <= j < start.len() && j != i implies #[trigger] self.subscription_list()[j] == before[j] by {
                        assert(self.subscriptions@[j] == vec_before[j]);
                    }
                    let after = self.subscription_list()[i as int];
                    assert(after.1.lane == self.subscriptions@[i as int].lane@);
                    assert(lane_before == start[i as int].1.lane);
                    let v = choose|v: DeliveryVerdict| (self.subscriptions@[i as int].lane@, outcome) == #[trigger] offered(lane_before, capacity as nat, copy, v);
                    assert(cloned(update, copy));
                    assert((after.1.lane, outcome) == offered(start[i as int].1.lane, capacity as nat, copy, v));
                    assert(after == (start[i as int].0, SubscriptionView { lane: after.1.lane, ..start[i as int].1 }));
                    assert(fanned(start[i as int], after, capacity as nat, update, outcome));
                    outcomes = outcomes.push(outcome);
                }
                if outcome == PushOutcome::Disconnect {
                    assert(self.subscriptions@[i as int].connection@ == start[i as int].1.connection);
                    doomed.push(self.subscriptions[i].connection);
                    assert(doomed@.map_values(|c: ConnectionId| c@) =~= before_doomed.push(start[i as int].1.connection));
                } else {
                    assert(doomed@.map_values(|c: ConnectionId| c@) =~= before_doomed);
                }
            } else {
                proof {
                    outcomes = outcomes.push(PushOutcome::Delivered);
                }
            }
            proof {
                let pre = start.subrange(0, i + 1);
                assert(pre.drop_last() =~= start.subrange(0, i as int));
                assert(pre.last() == start[i as int]);
                assert(outcomes.subrange(0, i as int) =~= before_outcomes);
                assert(doomed@.map_values(|c: ConnectionId| c@) =~= doomed_of(pre, topic@, outcomes));
            }
            i = i + 1;
        }
        assert(start.subrange(0, i as int) =~= start);
        let ghost list = self.subscription_list();
        assert(self.connections() == old(self).connections());
        assert(distinct_keys(list)) by {
            assert forall|a: int, b: int| 0 <= a < b < list.len() implies #[trigger] list[a].0 != #[trigger] list[b].0 by {
                assert(list[a].0 == start[a].0 && list[b].0 == start[b].0);
            }
        }
        assert(members_live(self.connections(), list)) by {
            assert forall|j: int| 0 <= j < list.len() implies self.connections().contains_key(#[trigger] list[j].1.connection) by {
                assert(list[j].1.connection == start[j].1.connection);
            }
        }
        assert(one_per_connection_topic(list)) by {
            assert forall|a: int, b: int| 0 <= a < b < list.len() implies !(#[trigger] list[a].1.connection
                == #[trigger] list[b].1.connection && list[a].1.topic == list[b].1.topic) by {
                assert(list[a].1.connection == start[a].1.connection && list[b].1.connection == start[b].1.connection);
                assert(list[a].1.topic == start[a].1.topic && list[b].1.topic == start[b].1.topic);
            }
        }
        assert(orders_track_members(self.topic_orders(), list)) by {
            assert forall|t: Seq<char>| #[trigger] self.topic_orders().contains_key(t) <==> has_member(list, t) by {
                if has_member(list, t) {
                    let j = choose|j: int| 0 <= j < list.len() && #[trigger] list[j].1.topic == t;
                    assert(start[j].1.topic == t);
                }
                if has_member(start, t) {
                    let j = choose|j: int| 0 <= j < start.len() && #[trigger] start[j].1.topic == t;
                    assert(list[j].1.topic == t);
                }
            }
        }
        Ok(doomed)
    }
}

impl<T: Clone, P: DeliveryPolicy> TopicRegistry<T, P> {
    /// Start quiescing: refuse new subscriptions and deliveries from now on.
    ///
    /// Returns `None` when quiescing already started (a repeat signals
    /// nobody); otherwise every topic with members, each with the order its
    /// `end/<topic>` stamp takes: one past its last order, saturating.
    /// Each then completes through [`end_topic`](Self::end_topic).
    pub fn quiesce(&mut self) -> (ends: Option<Vec<(Topic, u64)>>)
        requires
            old(self).wf(),
        ensures
            final(self).wf(),
            final(self).draining(),
            ends is None <==> old(self).draining(),
            final(self).connections() == old(self).connections(),
            final(self).subscription_list() == old(self).subscription_list(),
            final(self).topic_orders() == old(self).topic_orders(),
            final(self).next_connection() == old(self).next_connection(),
            final(self).next_subscriber() == old(self).next_subscriber(),
            final(self).capacity() == old(self).capacity(),
            final(self).delivery() == old(self).delivery(),
            ends matches Some(list) ==> forall|k: int| 0 <= k < list@.len() ==> old(self).topic_orders().contains_key(
                #[trigger] list@[k].0@,
            ) && list@[k].1 == crate::pubsub::backplane::next_of(old(self).topic_orders(), list@[k].0@),
            ends matches Some(list) ==> forall|t: Seq<char>| #[trigger] old(self).topic_orders().contains_key(t) ==> lists_topic(
                list@,
                t,
            ),
            ends matches Some(list) ==> forall|a: int, b: int| 0 <= a < b < list@.len() ==> #[trigger] list@[a].0@
                != #[trigger] list@[b].0@,
            ends matches Some(list) ==> list@.len() == old(self).topic_orders().dom().len(),
    {
        if self.draining {
            return None;
        }
        self.draining = true;
        let topics = self.topics.topics();
        let mut ends: Vec<(Topic, u64)> = Vec::new();
        let mut i: usize = 0;
        while i < topics.len()
            invariant
                self.topics.wf(),
                self.topics == old(self).topics,
                i <= topics@.len(),
                ends@.len() == i,
                forall|k: int| 0 <= k < i ==> (#[trigger] ends@[k]).0@ == topics@[k]@
                    && ends@[k].1 == crate::pubsub::backplane::next_of(self.topics@, topics@[k]@),
            decreases topics@.len() - i,
        {
            let order = self.topics.next_order(&topics[i]);
            ends.push((topics[i].duplicate(), order));
            i = i + 1;
        }
        proof {
            assert forall|k: int| 0 <= k < ends@.len() implies old(self).topic_orders().contains_key(#[trigger] ends@[k].0@)
                && ends@[k].1 == crate::pubsub::backplane::next_of(old(self).topic_orders(), ends@[k].0@) by {
                assert(ends@[k].0@ == topics@[k]@);
                assert(self.topics@.contains_key(topics@[k]@));
            }
            assert forall|t: Seq<char>| #[trigger] old(self).topic_orders().contains_key(t) implies lists_topic(ends@, t) by {
                let k = choose|k: int| 0 <= k < topics@.len() && #[trigger] topics@[k]@ == t;
                assert(ends@[k].0@ == t);
            }
            assert forall|a: int, b: int| 0 <= a < b < ends@.len() implies #[trigger] ends@[a].0@ != #[trigger] ends@[b].0@ by {
                assert(ends@[a].0@ == topics@[a]@ && ends@[b].0@ == topics@[b]@);
            }
            let names = ends@.map_values(|e: (Topic, u64)| e.0@);
            assert(names.no_duplicates()) by {
                assert forall|a: int, b: int| 0 <= a < names.len() && 0 <= b < names.len() && a != b implies names[a]
                    != names[b] by {
                    if a < b {
                        assert(ends@[a].0@ != ends@[b].0@);
                    } else {
                        assert(ends@[b].0@ != ends@[a].0@);
                    }
                }
            }
            names.unique_seq_to_set();
            assert(names.to_set() =~= old(self).topic_orders().dom()) by {
                assert forall|t: Seq<char>| names.to_set().contains(t) implies old(self).topic_orders().contains_key(t) by {
                    let k = choose|k: int| 0 <= k < names.len() && names[k] == t;
                    assert(ends@[k].0@ == t);
                }
                assert forall|t: Seq<char>| old(self).topic_orders().contains_key(t) implies names.to_set().contains(t) by {
                    let k = choose|k: int| 0 <= k < topics@.len() && #[trigger] topics@[k]@ == t;
                    assert(names[k] == t);
                }
            }
        }
        Some(ends)
    }

    /// Complete `topic`: stamp `order` as its last order and queue a copy
    /// of `end` as the final update of every member's lane. Returns how
    /// many members were signaled.
    pub fn end_topic(&mut self, topic: &Topic, order: u64, end: T) -> (signaled: usize)
        requires
            old(self).wf(),
        ensures
            final(self).wf(),
            signaled == old(self).subscription_list().filter(on_topic(topic@)).len(),
            final(self).topic_orders() == if old(self).topic_orders().contains_key(topic@) {
                old(self).topic_orders().insert(topic@, order)
            } else {
                old(self).topic_orders()
            },
            final(self).subscription_list().len() == old(self).subscription_list().len(),
            forall|i: int|
                0 <= i < old(self).subscription_list().len() ==> if #[trigger] old(self).subscription_list()[i].1.topic == topic@ {
                    ended(old(self).subscription_list()[i], final(self).subscription_list()[i], end)
                } else {
                    final(self).subscription_list()[i] == old(self).subscription_list()[i]
                },
            final(self).connections() == old(self).connections(),
            final(self).draining() == old(self).draining(),
            final(self).next_connection() == old(self).next_connection(),
            final(self).next_subscriber() == old(self).next_subscriber(),
            final(self).capacity() == old(self).capacity(),
            final(self).delivery() == old(self).delivery(),
    {
        if self.topic_has_member(topic) {
            self.topics.commit(topic, order);
        }
        let ghost start = self.subscription_list();
        let ghost topics_mid = self.topics;
        let ghost pick = on_topic::<T>(topic@);
        let mut signaled: usize = 0;
        let mut i: usize = 0;
        assert(start.subrange(0, 0).filter(pick) =~= Seq::<(u64, SubscriptionView<T>)>::empty()) by {
            reveal(Seq::filter);
        }
        while i < self.subscriptions.len()
            invariant
                i <= start.len(),
                self.subscriptions@.len() == start.len(),
                self.connections == old(self).connections,
                self.draining == old(self).draining,
                self.next_connection == old(self).next_connection,
                self.next_subscriber == old(self).next_subscriber,
                self.delivery == old(self).delivery,
                self.capacity == old(self).capacity,
                self.topics == topics_mid,
                pick == on_topic::<T>(topic@),
                signaled == start.subrange(0, i as int).filter(pick).len(),
                signaled <= i,
                forall|j: int| 0 <= j < start.len() ==> (#[trigger] self.subscription_list()[j]).0 == start[j].0
                    && self.subscription_list()[j].1.topic == start[j].1.topic
                    && self.subscription_list()[j].1.connection == start[j].1.connection
                    && self.subscription_list()[j].1.closed == start[j].1.closed,
                forall|j: int| i <= j < start.len() ==> #[trigger] self.subscription_list()[j] == start[j],
                forall|j: int|
                    0 <= j < i ==> if (#[trigger] start[j]).1.topic == topic@ {
                        ended(start[j], self.subscription_list()[j], end)
                    } else {
                        self.subscription_list()[j] == start[j]
                    },
            decreases start.len() - i,
        {
            let ghost before = self.subscription_list();
            assert(before[i as int].1.topic == self.subscriptions@[i as int].topic@);
            assert(before[i as int] == start[i as int]);
            proof {
                reveal(Seq::filter);
                assert(start.subrange(0, i + 1).drop_last() =~= start.subrange(0, i as int));
                assert(start.subrange(0, i + 1).last() == start[i as int]);
            }
            if self.subscriptions[i].topic.same_name(topic) {
                let copy = end.clone();
                let ghost vec_before = self.subscriptions@;
                self.subscriptions[i].lane.finish(copy);
                proof {
                    assert forall|j: int| 0 <= j < start.len() && j != i implies #[trigger] self.subscription_list()[j] == before[j] by {
                        assert(self.subscriptions@[j] == vec_before[j]);
                    }
                    let after = self.subscription_list()[i as int];
                    assert(after.1.lane == self.subscriptions@[i as int].lane@);
                    assert(cloned(end, copy));
                    assert(after == (
                        start[i as int].0,
                        SubscriptionView {
                            lane: LaneView { queue: start[i as int].1.lane.queue.push(copy), finished: true, ..start[i as int].1.lane },
                            ..start[i as int].1
                        },
                    ));
                    assert(ended(start[i as int], after, end));
                }
                signaled = signaled + 1;
            }
            i = i + 1;
        }
        assert(start.subrange(0, i as int) =~= start);
        let ghost list = self.subscription_list();
        assert(distinct_keys(list)) by {
            assert forall|a: int, b: int| 0 <= a < b < list.len() implies #[trigger] list[a].0 != #[trigger] list[b].0 by {
                assert(list[a].0 == start[a].0 && list[b].0 == start[b].0);
            }
        }
        assert(members_live(self.connections(), list)) by {
            assert forall|j: int| 0 <= j < list.len() implies self.connections().contains_key(#[trigger] list[j].1.connection) by {
                assert(list[j].1.connection == start[j].1.connection);
            }
        }
        assert(one_per_connection_topic(list)) by {
            assert forall|a: int, b: int| 0 <= a < b < list.len() implies !(#[trigger] list[a].1.connection
                == #[trigger] list[b].1.connection && list[a].1.topic == list[b].1.topic) by {
                assert(list[a].1.connection == start[a].1.connection && list[b].1.connection == start[b].1.connection);
                assert(list[a].1.topic == start[a].1.topic && list[b].1.topic == start[b].1.topic);
            }
        }
        assert(orders_track_members(self.topic_orders(), list)) by {
            assert forall|t: Seq<char>| #[trigger] self.topic_orders().contains_key(t) <==> has_member(list, t) by {
                if has_member(list, t) {
                    let j = choose|j: int| 0 <= j < list.len() && #[trigger] list[j].1.topic == t;
                    assert(start[j].1.topic == t);
                }
                if has_member(start, t) {
                    let j = choose|j: int| 0 <= j < start.len() && #[trigger] start[j].1.topic == t;
                    assert(list[j].1.topic == t);
                }
            }
        }
        signaled
    }
}

impl<T, P: DeliveryPolicy> TopicRegistry<T, P> {
    /// One drain step for `subscriber`: take its next update, or say why
    /// there is none.
    pub fn next_update(&mut self, subscriber: SubscriberId) -> (next: Next<T>)
        requires
            old(self).wf(),
        ensures
            final(self).wf(),
            final(self).connections() == old(self).connections(),
            final(self).topic_orders() == old(self).topic_orders(),
            final(self).draining() == old(self).draining(),
            final(self).next_connection() == old(self).next_connection(),
            final(self).next_subscriber() == old(self).next_subscriber(),
            final(self).capacity() == old(self).capacity(),
            final(self).delivery() == old(self).delivery(),
            (!old(self).subscriptions().contains_key(subscriber@) || old(self).subscriptions()[subscriber@].closed) ==> (
            next is Gone && final(self).subscription_list() == old(self).subscription_list()),
            (old(self).subscriptions().contains_key(subscriber@) && !old(self).subscriptions()[subscriber@].closed) ==> {
                let was = old(self).subscriptions()[subscriber@];
                let lane = was.lane;
                &&& final(self).subscriptions() == old(self).subscriptions().insert(
                    subscriber@,
                    SubscriptionView {
                        lane: if lane.queue.len() > 0 {
                            LaneView { queue: lane.queue.subrange(1, lane.queue.len() as int), in_flight: true, ..lane }
                        } else {
                            LaneView { in_flight: false, ..lane }
                        },
                        ..was
                    },
                )
                &&& final(self).subscription_list().len() == old(self).subscription_list().len()
                &&& lane.queue.len() > 0 ==> next == Next::Emit(lane.queue[0])
                &&& (lane.queue.len() == 0 && lane.finished) ==> next is Done
                &&& (lane.queue.len() == 0 && !lane.finished) ==> next is Wait
            },
    {
        match self.subscription_position(subscriber) {
            None => Next::Gone,
            Some(k) => {
                let ghost list = self.subscription_list();
                proof {
                    lemma_keyed_value(list, k as int);
                }
                assert(list[k as int].1.closed == self.subscriptions@[k as int].closed);
                if self.subscriptions[k].closed {
                    return Next::Gone;
                }
                let ghost vec_before = self.subscriptions@;
                let popped = self.subscriptions[k].lane.pop_next();
                let finished = self.subscriptions[k].lane.is_finished();
                proof {
                    let after = self.subscription_list();
                    assert forall|j: int| 0 <= j < list.len() && j != k implies #[trigger] after[j] == list[j] by {
                        assert(self.subscriptions@[j] == vec_before[j]);
                    }
                    let was = list[k as int].1;
                    let lane = was.lane;
                    let entry = SubscriptionView {
                        lane: if lane.queue.len() > 0 {
                            LaneView { queue: lane.queue.subrange(1, lane.queue.len() as int), in_flight: true, ..lane }
                        } else {
                            LaneView { in_flight: false, ..lane }
                        },
                        ..was
                    };
                    assert(after =~= list.update(k as int, (list[k as int].0, entry)));
                    lemma_keyed_update(list, k as int, entry);
                    self.lemma_same_shape_keeps_wf(list, after);
                }
                match popped {
                    Some(update) => Next::Emit(update),
                    None => if finished {
                        Next::Done
                    } else {
                        Next::Wait
                    },
                }
            },
        }
    }

    /// A lane's list of entries changed only in lanes: the bookkeeping
    /// still agrees with itself.
    proof fn lemma_same_shape_keeps_wf(&self, before: Seq<(u64, SubscriptionView<T>)>, after: Seq<(u64, SubscriptionView<T>)>)
        requires
            self.inner_wf(),
            after == self.subscription_list(),
            distinct_keys(before),
            members_live(self.connections(), before),
            one_per_connection_topic(before),
            orders_track_members(self.topic_orders(), before),
            before.len() == after.len(),
            forall|j: int| 0 <= j < before.len() ==> (#[trigger] after[j]).0 == before[j].0
                && after[j].1.topic == before[j].1.topic && after[j].1.connection == before[j].1.connection,
        ensures
            self.wf(),
    {
        assert(distinct_keys(after)) by {
            assert forall|a: int, b: int| 0 <= a < b < after.len() implies #[trigger] after[a].0 != #[trigger] after[b].0 by {
                assert(after[a].0 == before[a].0 && after[b].0 == before[b].0);
            }
        }
        assert(members_live(self.connections(), after)) by {
            assert forall|j: int| 0 <= j < after.len() implies self.connections().contains_key(#[trigger] after[j].1.connection) by {
                assert(after[j].1.connection == before[j].1.connection);
            }
        }
        assert(one_per_connection_topic(after)) by {
            assert forall|a: int, b: int| 0 <= a < b < after.len() implies !(#[trigger] after[a].1.connection
                == #[trigger] after[b].1.connection && after[a].1.topic == after[b].1.topic) by {
                assert(after[a].1.connection == before[a].1.connection && after[b].1.connection == before[b].1.connection);
                assert(after[a].1.topic == before[a].1.topic && after[b].1.topic == before[b].1.topic);
            }
        }
        assert(orders_track_members(self.topic_orders(), after)) by {
            assert forall|t: Seq<char>| #[trigger] self.topic_orders().contains_key(t) <==> has_member(after, t) by {
                if has_member(after, t) {
                    let j = choose|j: int| 0 <= j < after.len() && #[trigger] after[j].1.topic == t;
                    assert(before[j].1.topic == t);
                }
                if has_member(before, t) {
                    let j = choose|j: int| 0 <= j < before.len() && #[trigger] before[j].1.topic == t;
                    assert(after[j].1.topic == t);
                }
            }
        }
    }
}

impl<T, P: DeliveryPolicy> TopicRegistry<T, P> {
    /// Replace the model of subscription `k` by `entry`, which keeps its
    /// id, topic and connection.
    proof fn lemma_lane_change(
        &self,
        list: Seq<(u64, SubscriptionView<T>)>,
        k: int,
        entry: SubscriptionView<T>,
    )
        requires
            self.inner_wf(),
            distinct_keys(list),
            members_live(self.connections(), list),
            one_per_connection_topic(list),
            orders_track_members(self.topic_orders(), list),
            0 <= k < list.len(),
            entry.topic == list[k].1.topic,
            entry.connection == list[k].1.connection,
            self.subscription_list() == list.update(k, (list[k].0, entry)),
        ensures
            self.wf(),
            self.subscriptions() == keyed(list).insert(list[k].0, entry),
    {
        lemma_keyed_update(list, k, entry);
        self.lemma_same_shape_keeps_wf(list, self.subscription_list());
    }

    /// The update in flight on `subscriber`'s lane left (or failed):
    /// returns whether the lane is now idle and empty; a gone subscription
    /// counts as idle.
    pub fn emitted(&mut self, subscriber: SubscriberId) -> (idle: bool)
        requires
            old(self).wf(),
        ensures
            final(self).wf(),
            final(self).connections() == old(self).connections(),
            final(self).topic_orders() == old(self).topic_orders(),
            final(self).draining() == old(self).draining(),
            final(self).next_connection() == old(self).next_connection(),
            final(self).next_subscriber() == old(self).next_subscriber(),
            final(self).capacity() == old(self).capacity(),
            final(self).delivery() == old(self).delivery(),
            !old(self).subscriptions().contains_key(subscriber@) ==> idle && final(self).subscription_list()
                == old(self).subscription_list(),
            old(self).subscriptions().contains_key(subscriber@) ==> {
                let was = old(self).subscriptions()[subscriber@];
                &&& idle == (was.lane.queue.len() == 0)
                &&& final(self).subscriptions() == old(self).subscriptions().insert(
                    subscriber@,
                    SubscriptionView { lane: LaneView { in_flight: false, ..was.lane }, ..was },
                )
            },
    {
        match self.subscription_position(subscriber) {
            None => true,
            Some(k) => {
                let ghost list = self.subscription_list();
                proof {
                    lemma_keyed_value(list, k as int);
                }
                let ghost vec_before = self.subscriptions@;
                let idle = self.subscriptions[k].lane.settle_emit();
                proof {
                    let was = list[k as int].1;
                    let entry = SubscriptionView { lane: LaneView { in_flight: false, ..was.lane }, ..was };
                    assert forall|j: int| 0 <= j < list.len() && j != k implies #[trigger] self.subscriptions@[j] == vec_before[j] by {}
                    assert(self.subscription_list() =~= list.update(k as int, (list[k as int].0, entry)));
                    self.lemma_lane_change(list, k as int, entry);
                }
                idle
            },
        }
    }

    /// The peer refused one update on `subscriber`'s lane: count it as
    /// dropped.
    pub fn refused(&mut self, subscriber: SubscriberId)
        requires
            old(self).wf(),
        ensures
            final(self).wf(),
            final(self).connections() == old(self).connections(),
            final(self).topic_orders() == old(self).topic_orders(),
            final(self).draining() == old(self).draining(),
            final(self).next_connection() == old(self).next_connection(),
            final(self).next_subscriber() == old(self).next_subscriber(),
            final(self).capacity() == old(self).capacity(),
            final(self).delivery() == old(self).delivery(),
            !old(self).subscriptions().contains_key(subscriber@) ==> final(self).subscription_list()
                == old(self).subscription_list(),
            old(self).subscriptions().contains_key(subscriber@) ==> {
                let was = old(self).subscriptions()[subscriber@];
                final(self).subscriptions() == old(self).subscriptions().insert(
                    subscriber@,
                    SubscriptionView { lane: LaneView { dropped: bumped(was.lane.dropped), ..was.lane }, ..was },
                )
            },
    {
        if let Some(k) = self.subscription_position(subscriber) {
            let ghost list = self.subscription_list();
            proof {
                lemma_keyed_value(list, k as int);
            }
            let ghost vec_before = self.subscriptions@;
            self.subscriptions[k].lane.note_refused();
            proof {
                let was = list[k as int].1;
                let entry = SubscriptionView { lane: LaneView { dropped: bumped(was.lane.dropped), ..was.lane }, ..was };
                assert forall|j: int| 0 <= j < list.len() && j != k implies #[trigger] self.subscriptions@[j] == vec_before[j] by {}
                assert(self.subscription_list() =~= list.update(k as int, (list[k as int].0, entry)));
                self.lemma_lane_change(list, k as int, entry);
            }
        }
    }

    /// Delivery on `subscriber`'s link failed: stop its lane.
    pub fn close(&mut self, subscriber: SubscriberId)
        requires
            old(self).wf(),
        ensures
            final(self).wf(),
            final(self).connections() == old(self).connections(),
            final(self).topic_orders() == old(self).topic_orders(),
            final(self).draining() == old(self).draining(),
            final(self).next_connection() == old(self).next_connection(),
            final(self).next_subscriber() == old(self).next_subscriber(),
            final(self).capacity() == old(self).capacity(),
            final(self).delivery() == old(self).delivery(),
            !old(self).subscriptions().contains_key(subscriber@) ==> final(self).subscription_list()
                == old(self).subscription_list(),
            old(self).subscriptions().contains_key(subscriber@) ==> final(self).subscriptions()
                == old(self).subscriptions().insert(
                subscriber@,
                SubscriptionView { closed: true, ..old(self).subscriptions()[subscriber@] },
            ),
    {
        if let Some(k) = self.subscription_position(subscriber) {
            let ghost list = self.subscription_list();
            proof {
                lemma_keyed_value(list, k as int);
            }
            let ghost vec_before = self.subscriptions@;
            self.subscriptions[k].closed = true;
            proof {
                let entry = SubscriptionView { closed: true, ..list[k as int].1 };
                assert forall|j: int| 0 <= j < list.len() && j != k implies #[trigger] self.subscriptions@[j] == vec_before[j] by {}
                assert(self.subscription_list() =~= list.update(k as int, (list[k as int].0, entry)));
                self.lemma_lane_change(list, k as int, entry);
            }
        }
    }

    /// Whether some subscription whose delivery still runs has updates
    /// queued or in flight: once this is `false` after a quiesce, every
    /// completion signal left.
    pub fn pending(&self) -> (pending: bool)
        ensures
            pending == exists|i: int|
                0 <= i < self.subscription_list().len() && !(#[trigger] self.subscription_list()[i]).1.closed && (
                self.subscription_list()[i].1.lane.in_flight || self.subscription_list()[i].1.lane.queue.len() > 0),
    {
        let mut i: usize = 0;
        while i < self.subscriptions.len()
            invariant
                i <= self.subscriptions@.len(),
                forall|j: int| 0 <= j < i ==> !(!(#[trigger] self.subscription_list()[j]).1.closed && (
                    self.subscription_list()[j].1.lane.in_flight || self.subscription_list()[j].1.lane.queue.len() > 0)),
            decreases self.subscriptions@.len() - i,
        {
            let ghost e = self.subscription_list()[i as int];
            assert(e.1.closed == self.subscriptions@[i as int].closed);
            assert(e.1.lane == self.subscriptions@[i as int].lane@);
            if !self.subscriptions[i].closed && self.subscriptions[i].lane.pending() {
                return true;
            }
            i = i + 1;
        }
        false
    }
}

impl<T> Default for TopicRegistry<T, DropOldest> {
    /// Lanes of [`DEFAULT_QUEUE_CAPACITY`] under the drop-oldest policy.
    fn default() -> (registry: TopicRegistry<T, DropOldest>)
        ensures
            registry.wf(),
            registry.connections() == Map::<u64, Option<Seq<u8>>>::empty(),
            registry.subscription_list().len() == 0,
            registry.topic_orders() == Map::<Seq<char>, u64>::empty(),
            !registry.draining(),
            registry.capacity() == DEFAULT_QUEUE_CAPACITY,
    {
        TopicRegistry::new(DEFAULT_QUEUE_CAPACITY, DropOldest)
    }
}

} // verus!

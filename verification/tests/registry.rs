use tightbeam_ext::pubsub::backplane::{BackplaneError, DeliverError};
use tightbeam_ext::pubsub::policy::{DeliveryPolicy, DeliveryVerdict, DropOldest};
use tightbeam_ext::pubsub::registry::{
    Lane, Next, PublishError, PushOutcome, RegisterError, TopicRegistry,
};
use tightbeam_ext::pubsub::topic::Topic;

fn topic(name: &str) -> Topic {
    name.parse().expect("test topics should parse")
}

/// Delivery policy returning one fixed verdict.
struct FixedVerdict(DeliveryVerdict);

impl DeliveryPolicy for FixedVerdict {
    fn on_full(&self, _topic: &Topic, _dropped_so_far: u64) -> DeliveryVerdict {
        self.0
    }
}

/// A lane and `capacity + 1` stamped updates to push at it.
fn saturated(capacity: usize) -> (Lane<u64>, Vec<u64>) {
    let updates: Vec<u64> = (1..=(capacity as u64) + 1).collect();
    (Lane::new(), updates)
}

fn queued_orders(registry: &mut TopicRegistry<u64, DropOldest>, id: tightbeam_ext::pubsub::registry::SubscriberId) -> Vec<u64> {
    let mut orders = Vec::new();
    while let Next::Emit(order) = registry.next_update(id) {
        orders.push(order);
        registry.emitted(id);
    }
    orders
}

#[test]
fn push_drop_oldest_keeps_the_newest_updates() {
    let (mut lane, updates) = saturated(2);
    let policy = FixedVerdict(DeliveryVerdict::DropOldest);
    for update in updates {
        lane.push(2, &policy, &topic("prices"), update);
    }

    let mut queued = Vec::new();
    while let Some(order) = lane.pop_next() {
        queued.push(order);
    }
    assert_eq!(queued, [2, 3]);
    assert_eq!(lane.dropped(), 1);
}

#[test]
fn push_drop_new_keeps_the_oldest_updates() {
    let (mut lane, updates) = saturated(2);
    let policy = FixedVerdict(DeliveryVerdict::DropNew);
    for update in updates {
        lane.push(2, &policy, &topic("prices"), update);
    }

    let mut queued = Vec::new();
    while let Some(order) = lane.pop_next() {
        queued.push(order);
    }
    assert_eq!(queued, [1, 2]);
    assert_eq!(lane.dropped(), 1);
}

#[test]
fn push_disconnect_names_the_connection() {
    let (mut lane, updates) = saturated(1);
    let policy = FixedVerdict(DeliveryVerdict::Disconnect);

    lane.push(1, &policy, &topic("prices"), updates[0]);

    let outcome = lane.push(1, &policy, &topic("prices"), updates[1]);
    assert!(matches!(outcome, PushOutcome::Disconnect));
    assert_eq!(lane.pop_next(), Some(1));
    assert_eq!(lane.pop_next(), None);
}

#[test]
fn register_is_idempotent_per_connection_and_topic() {
    let mut registry: TopicRegistry<u64, DropOldest> = TopicRegistry::default();
    let connection = registry.register_connection_as(b"cert".to_vec());

    let first = registry.register(connection, topic("prices")).expect("registration should succeed");
    let second = registry.register(connection, topic("prices")).expect("registration should succeed");
    assert_eq!(first, second);
    assert_eq!(registry.subscriber_count(&topic("prices")), 1);
}

#[test]
fn register_requires_a_known_connection() {
    let mut registry: TopicRegistry<u64, DropOldest> = TopicRegistry::default();
    let connection = registry.register_connection_as(b"cert".to_vec());

    registry.drop_connection(connection);

    let outcome = registry.register(connection, topic("prices"));
    assert_eq!(outcome, Err(RegisterError::UnknownConnection));
}

#[test]
fn identity_surfaces_what_registration_attached() {
    let mut registry: TopicRegistry<u64, DropOldest> = TopicRegistry::default();
    let connection = registry.register_connection_as(b"cert".to_vec());

    let identity = registry.identity(connection);
    assert_eq!(identity.as_deref(), Some(b"cert".as_slice()));

    let anonymous = registry.register_connection();
    assert_eq!(registry.identity(anonymous), None);
    assert_eq!(registry.member_identity(anonymous), Some(None));
}

#[test]
fn member_identity_requires_a_live_registration() {
    let mut registry: TopicRegistry<u64, DropOldest> = TopicRegistry::default();
    let connection = registry.register_connection_as(b"cert".to_vec());
    assert!(registry.member_identity(connection).is_some());

    registry.drop_connection(connection);
    assert!(registry.member_identity(connection).is_none());
}

#[test]
fn unregister_forgets_the_membership() {
    let mut registry: TopicRegistry<u64, DropOldest> = TopicRegistry::default();
    let connection = registry.register_connection_as(b"cert".to_vec());

    registry.register(connection, topic("prices")).expect("registration should succeed");

    let removed = registry.unregister(connection, &topic("prices"));
    let repeat = registry.unregister(connection, &topic("prices"));
    assert!(removed);
    assert!(!repeat);
    assert_eq!(registry.subscriber_count(&topic("prices")), 0);
}

#[test]
fn drop_connection_forgets_every_membership() {
    let mut registry: TopicRegistry<u64, DropOldest> = TopicRegistry::default();
    let connection = registry.register_connection_as(b"cert".to_vec());
    let other = registry.register_connection();
    registry.register(connection, topic("prices")).expect("registration should succeed");
    registry.register(connection, topic("chat")).expect("registration should succeed");
    registry.register(other, topic("chat")).expect("registration should succeed");

    registry.drop_connection(connection);

    assert_eq!(registry.subscriber_count(&topic("prices")), 0);
    assert_eq!(registry.subscriber_count(&topic("chat")), 1);
}

#[test]
fn delivered_updates_reach_every_member_in_order() {
    let mut registry: TopicRegistry<u64, DropOldest> = TopicRegistry::default();
    let connection = registry.register_connection();
    let prices = registry.register(connection, topic("prices")).expect("registration should succeed");
    let chat = registry.register(connection, topic("chat")).expect("registration should succeed");

    assert_eq!(registry.deliver(&topic("prices"), 1, 10), Ok(Vec::new()));
    assert_eq!(registry.deliver(&topic("prices"), 2, 20), Ok(Vec::new()));
    assert_eq!(registry.deliver(&topic("chat"), 1, 30), Ok(Vec::new()));

    assert_eq!(queued_orders(&mut registry, prices), [10, 20]);
    assert_eq!(queued_orders(&mut registry, chat), [30]);
    assert!(!registry.pending());
}

#[test]
fn a_disconnect_verdict_names_the_connection() {
    let mut registry: TopicRegistry<u64, FixedVerdict> =
        TopicRegistry::new(1, FixedVerdict(DeliveryVerdict::Disconnect));
    let connection = registry.register_connection();
    registry.register(connection, topic("prices")).expect("registration should succeed");

    assert_eq!(registry.deliver(&topic("prices"), 1, 1), Ok(Vec::new()));
    assert_eq!(registry.deliver(&topic("prices"), 2, 2), Ok(vec![connection]));
}

#[test]
fn quiesce_refuses_further_registration_and_delivery() {
    let mut registry: TopicRegistry<u64, DropOldest> = TopicRegistry::default();
    let connection = registry.register_connection();
    let id = registry.register(connection, topic("prices")).expect("registration should succeed");
    registry.deliver(&topic("prices"), 4, 40).expect("delivery should succeed");

    let ends = registry.quiesce().expect("the first quiesce should list the topics");
    assert_eq!(ends.len(), 1);
    assert_eq!(ends[0].0, topic("prices"));
    assert_eq!(ends[0].1, 5);
    let signaled = registry.end_topic(&ends[0].0, ends[0].1, 50);
    assert_eq!(signaled, 1);

    assert!(registry.quiesce().is_none());
    assert!(registry.is_draining());
    assert_eq!(registry.register(connection, topic("chat")), Err(RegisterError::Draining));
    assert_eq!(registry.deliver(&topic("prices"), 6, 60), Err(DeliverError::Draining));

    assert!(matches!(registry.next_update(id), Next::Emit(40)));
    registry.emitted(id);
    assert!(matches!(registry.next_update(id), Next::Emit(50)));
    registry.emitted(id);
    assert!(matches!(registry.next_update(id), Next::Done));
}

#[test]
fn closed_lanes_stop_draining() {
    let mut registry: TopicRegistry<u64, DropOldest> = TopicRegistry::default();
    let connection = registry.register_connection();
    let id = registry.register(connection, topic("prices")).expect("registration should succeed");
    registry.deliver(&topic("prices"), 1, 1).expect("delivery should succeed");
    assert!(registry.pending());

    registry.close(id);
    assert!(!registry.pending());
    assert!(matches!(registry.next_update(id), Next::Gone));
}

#[test]
fn refused_updates_count_as_dropped() {
    let mut registry: TopicRegistry<u64, DropOldest> = TopicRegistry::default();
    let connection = registry.register_connection();
    let id = registry.register(connection, topic("prices")).expect("registration should succeed");
    assert_eq!(registry.dropped(id), Some(0));
    registry.refused(id);
    assert_eq!(registry.dropped(id), Some(1));

    registry.unregister(connection, &topic("prices"));
    assert_eq!(registry.dropped(id), None);
}

#[test]
fn backplane_refusals_keep_their_publish_shapes() {
    assert_eq!(
        PublishError::from(BackplaneError::Refused(DeliverError::Draining)),
        PublishError::Draining
    );
    assert_eq!(
        PublishError::from(BackplaneError::Refused(DeliverError::Build("oops".to_string()))),
        PublishError::Build("oops".to_string())
    );
    assert_eq!(
        PublishError::from(BackplaneError::Refused(DeliverError::Rejected)),
        PublishError::Backplane(BackplaneError::Refused(DeliverError::Rejected))
    );
    assert_eq!(
        PublishError::Backplane(BackplaneError::Unavailable("down".to_string())).to_string(),
        "the backplane refused the publish: the backplane is unavailable: down"
    );
    assert_eq!(RegisterError::Draining.to_string(), "the registry is draining");
}

#[test]
fn the_subscriber_of_a_held_topic_is_the_registered_id() {
    let mut registry: TopicRegistry<u64, DropOldest> = TopicRegistry::new(4, DropOldest);
    let connection = registry.register_connection();
    let other = registry.register_connection();
    let prices = Topic::parse("prices").expect("a valid topic");
    let news = Topic::parse("news").expect("a valid topic");
    let id = registry.register(connection, prices.duplicate()).expect("the subscription registers");
    assert_eq!(registry.subscriber_of(connection, &prices), Some(id));
    assert_eq!(registry.subscriber_of(connection, &news), None);
    assert_eq!(registry.subscriber_of(other, &prices), None);
}

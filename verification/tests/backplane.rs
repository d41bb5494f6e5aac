use std::sync::{Arc, Mutex, PoisonError, Weak};

use tightbeam_ext::pubsub::backplane::{settle, BackplaneError, DeliverError, Local, UpdateSink};
use tightbeam_ext::pubsub::topic::Topic;

fn topic(name: &str) -> Topic {
    name.parse().expect("test topics should parse")
}

/// A hook that reaches its node weakly, so a dropped node falls out.
struct Hook(Weak<dyn UpdateSink>);

impl UpdateSink for Hook {
    fn deliver(&self, topic: &Topic, order: u64, payload: &[u8]) -> Result<(), DeliverError> {
        match self.0.upgrade() {
            Some(node) => node.deliver(topic, order, payload),
            None => Err(DeliverError::Draining),
        }
    }

    fn is_live(&self) -> bool {
        self.0.strong_count() > 0
    }
}

/// Publish `payload` to `name` through `backplane`, expecting acceptance.
fn published(backplane: &mut Local<Hook>, name: &str, payload: &[u8]) {
    backplane
        .publish(&topic(name), payload)
        .expect("the publish should be accepted");
}

/// Records every delivery. Refuses when `draining`.
#[derive(Default)]
struct Recorder {
    orders: Mutex<Vec<(Topic, u64)>>,
    draining: bool,
}

impl UpdateSink for Recorder {
    fn deliver(&self, topic: &Topic, order: u64, _payload: &[u8]) -> Result<(), DeliverError> {
        if self.draining {
            return Err(DeliverError::Draining);
        }
        self.orders
            .lock()
            .unwrap_or_else(PoisonError::into_inner)
            .push((topic.clone(), order));
        Ok(())
    }
}

fn recorded(recorder: &Recorder) -> Vec<(Topic, u64)> {
    recorder.orders.lock().unwrap_or_else(PoisonError::into_inner).clone()
}

/// Attach one fresh recorder node to `backplane`.
fn attached(backplane: &mut Local<Hook>, draining: bool) -> Arc<Recorder> {
    let node = Arc::new(Recorder { draining, ..Recorder::default() });
    let weak: Weak<dyn UpdateSink> = Arc::downgrade(&node) as Weak<dyn UpdateSink>;
    backplane.attach(Hook(weak));
    node
}

#[test]
fn reserve_order_claims_without_fan_out() {
    let mut backplane: Local<Hook> = Local::default();
    let recorder = attached(&mut backplane, false);

    assert_eq!(backplane.reserve_order(&topic("prices")), 1);
    assert_eq!(backplane.last_order(&topic("prices")), 1);
    assert!(recorded(&recorder).is_empty());

    published(&mut backplane, "prices", b"tick");
    assert_eq!(recorded(&recorder), [(topic("prices"), 2)]);
}

#[test]
fn publish_assigns_dense_orders_per_topic() {
    let mut backplane: Local<Hook> = Local::default();
    let node = attached(&mut backplane, false);

    published(&mut backplane, "prices", b"one");
    published(&mut backplane, "prices", b"two");
    published(&mut backplane, "chat", b"hello");

    let expected = [(topic("prices"), 1), (topic("prices"), 2), (topic("chat"), 1)];
    assert_eq!(recorded(&node), expected);
}

#[test]
fn publish_reaches_every_attached_node() {
    let mut backplane: Local<Hook> = Local::default();
    let first = attached(&mut backplane, false);
    let second = attached(&mut backplane, false);

    published(&mut backplane, "prices", b"tick");

    assert_eq!(recorded(&first), [(topic("prices"), 1)]);
    assert_eq!(recorded(&second), [(topic("prices"), 1)]);
}

#[test]
fn publish_survives_a_dropped_node() {
    let mut backplane: Local<Hook> = Local::default();
    let live = attached(&mut backplane, false);
    let dead = attached(&mut backplane, false);
    drop(dead);

    let outcome = backplane.publish(&topic("prices"), b"tick");
    assert!(outcome.is_ok());
    assert_eq!(recorded(&live), [(topic("prices"), 1)]);
}

#[test]
fn publish_with_no_nodes_still_sequences() {
    let mut backplane: Local<Hook> = Local::default();

    published(&mut backplane, "prices", b"one");
    published(&mut backplane, "prices", b"two");

    let node = attached(&mut backplane, false);
    published(&mut backplane, "prices", b"three");

    assert_eq!(recorded(&node), [(topic("prices"), 3)]);
}

#[test]
fn publish_refused_everywhere_surfaces_the_refusal() {
    let mut backplane: Local<Hook> = Local::default();
    let _draining = attached(&mut backplane, true);

    let outcome = backplane.publish(&topic("prices"), b"tick");
    assert!(matches!(outcome, Err(BackplaneError::Refused(DeliverError::Draining))));
}

#[test]
fn a_refused_publish_does_not_burn_the_order() {
    let mut backplane: Local<Hook> = Local::default();
    let draining = attached(&mut backplane, true);

    let refused = backplane.publish(&topic("prices"), b"tick");
    assert!(matches!(refused, Err(BackplaneError::Refused(_))));

    drop(draining);

    let node = attached(&mut backplane, false);
    published(&mut backplane, "prices", b"tick");

    assert_eq!(recorded(&node), [(topic("prices"), 1)]);
}

#[test]
fn publish_accepted_with_draining_peer_is_ok() {
    let mut backplane: Local<Hook> = Local::default();
    let _draining = attached(&mut backplane, true);
    let live = attached(&mut backplane, false);

    let outcome = backplane.publish(&topic("prices"), b"tick");
    assert!(outcome.is_ok());
    assert_eq!(recorded(&live), [(topic("prices"), 1)]);
}

/// Hard-refusing sink used to prove multi-sink publish fails closed.
struct Rejector;

impl UpdateSink for Rejector {
    fn deliver(&self, _topic: &Topic, _order: u64, _payload: &[u8]) -> Result<(), DeliverError> {
        Err(DeliverError::Rejected)
    }
}

#[test]
fn publish_hard_refusal_fails_even_when_a_peer_accepted() {
    let mut backplane: Local<Hook> = Local::default();
    let live = attached(&mut backplane, false);
    let rejector = Arc::new(Rejector);

    backplane.attach(Hook(Arc::downgrade(&rejector) as Weak<dyn UpdateSink>));

    let outcome = backplane.publish(&topic("prices"), b"tick");
    assert!(matches!(outcome, Err(BackplaneError::Refused(DeliverError::Rejected))));
    assert_eq!(recorded(&live), [(topic("prices"), 1)]);
    assert_eq!(backplane.last_order(&topic("prices")), 1);
}

#[test]
fn settle_keeps_the_first_hard_refusal() {
    let answers = vec![
        Err(DeliverError::Draining),
        Ok(()),
        Err(DeliverError::Build("bad frame".to_string())),
        Err(DeliverError::Rejected),
    ];
    let (commits, outcome) = settle(answers);
    assert!(commits);
    assert_eq!(
        outcome,
        Err(BackplaneError::Refused(DeliverError::Build("bad frame".to_string())))
    );
}

#[test]
fn settle_with_no_answers_commits() {
    let (commits, outcome) = settle(Vec::new());
    assert!(commits);
    assert_eq!(outcome, Ok(()));
}

#[test]
fn settle_all_soft_refusals_keeps_the_stamp() {
    let (commits, outcome) = settle(vec![Err(DeliverError::Draining), Err(DeliverError::Draining)]);
    assert!(!commits);
    assert_eq!(outcome, Err(BackplaneError::Refused(DeliverError::Draining)));
}

#[test]
fn reserved_orders_count_up_per_topic() {
    let mut backplane: Local<Hook> = Local::new();
    for _ in 0..3 {
        backplane.reserve_order(&topic("prices"));
    }
    assert_eq!(backplane.last_order(&topic("prices")), 3);
    assert_eq!(backplane.last_order(&topic("chat")), 0);
}

#[test]
fn refusals_print_their_cause() {
    assert_eq!(DeliverError::Draining.to_string(), "the node is draining");
    assert_eq!(
        BackplaneError::Refused(DeliverError::Build("no room".to_string())).to_string(),
        "every node refused the update: the update frame failed to build: no room"
    );
    assert_eq!(
        BackplaneError::Unavailable("link lost".to_string()).to_string(),
        "the backplane is unavailable: link lost"
    );
    assert!(DeliverError::Rejected.is_hard());
    assert!(!DeliverError::Draining.is_hard());
}

/// A sink that keeps the default liveness answer.
struct Quiet;

impl UpdateSink for Quiet {
    fn deliver(&self, _topic: &Topic, _order: u64, _payload: &[u8]) -> Result<(), DeliverError> {
        Ok(())
    }
}

#[test]
fn sinks_count_as_live_unless_they_say_otherwise() {
    assert!(Quiet.is_live());
}

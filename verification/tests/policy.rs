use tightbeam_ext::pubsub::policy::{
    AccessVerdict, AllowAll, DeliveryPolicy, DeliveryVerdict, DropOldest, PublishPolicy, SubscribePolicy,
};
use tightbeam_ext::pubsub::topic::Topic;

fn topic(name: &str) -> Topic {
    name.parse().expect("test topics should parse")
}

#[test]
fn drop_oldest_always_drops_the_oldest() {
    let policy = DropOldest;

    let verdict = policy.on_full(&topic("prices"), 7);
    assert_eq!(verdict, DeliveryVerdict::DropOldest);
}

#[test]
fn allow_all_allows_subscriptions_without_identity() {
    let policy = AllowAll;

    let verdict = SubscribePolicy::authorize(&policy, None, &topic("prices"));
    assert_eq!(verdict, AccessVerdict::Allow);
}

#[test]
fn allow_all_allows_publishes_without_identity() {
    let policy = AllowAll;

    let verdict = PublishPolicy::authorize(&policy, None, &topic("prices"));
    assert_eq!(verdict, AccessVerdict::Allow);
}

#[test]
fn allow_all_allows_identified_callers_too() {
    let policy = AllowAll;
    let verdict = SubscribePolicy::authorize(&policy, Some(b"alice".as_slice()), &topic("prices"));
    assert_eq!(verdict, AccessVerdict::Allow);
}

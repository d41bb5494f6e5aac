use tightbeam_ext::pubsub::backplane::{BackplaneError, DeliverError};
use tightbeam_ext::pubsub::dispatch::{Command, PubsubCommands, Status};
use tightbeam_ext::pubsub::policy::{AccessVerdict, AllowAll, DropOldest, PublishPolicy, SubscribePolicy};
use tightbeam_ext::pubsub::registry::{PublishError, TopicRegistry};
use tightbeam_ext::pubsub::topic::Topic;

/// Forbid every topic under `secrets/`.
struct DenySecrets;

impl SubscribePolicy for DenySecrets {
    fn authorize(&self, _identity: Option<&[u8]>, topic: &Topic) -> AccessVerdict {
        if topic.as_str().starts_with("secrets/") {
            return AccessVerdict::Forbid;
        }
        AccessVerdict::Allow
    }
}

/// Forbid every publish.
struct DenyPublish;

impl PublishPolicy for DenyPublish {
    fn authorize(&self, _identity: Option<&[u8]>, _topic: &Topic) -> AccessVerdict {
        AccessVerdict::Forbid
    }
}

fn topic(name: &str) -> Topic {
    name.parse().expect("test topics should parse")
}

#[test]
fn command_prefixes_classify_frames() {
    let commands = PubsubCommands::new(AllowAll);
    assert_eq!(commands.classify(b"sub/prices"), Some(Command::Subscribe(b"prices".to_vec())));
    assert_eq!(commands.classify(b"unsub/prices"), Some(Command::Unsubscribe(b"prices".to_vec())));
    assert_eq!(commands.classify(b"pub/prices"), None);
    assert_eq!(commands.classify(b"rpc/echo"), None);

    let publishing = commands.with_publish(AllowAll);
    assert_eq!(publishing.classify(b"pub/prices"), Some(Command::Publish(b"prices".to_vec())));
}

#[test]
fn subscribe_consults_the_policy() {
    let mut registry: TopicRegistry<u64, DropOldest> = TopicRegistry::default();
    let connection = registry.register_connection_as(b"cert".to_vec());
    let commands = PubsubCommands::new(DenySecrets);

    assert_eq!(commands.subscribe(&mut registry, connection, b"prices"), Status::Accepted);
    assert_eq!(commands.subscribe(&mut registry, connection, b"secrets/keys"), Status::PermissionDenied);
    assert_eq!(registry.subscriber_count(&topic("prices")), 1);
    assert_eq!(registry.subscriber_count(&topic("secrets/keys")), 0);
}

#[test]
fn malformed_topics_are_invalid_arguments() {
    let mut registry: TopicRegistry<u64, DropOldest> = TopicRegistry::default();
    let connection = registry.register_connection();
    let commands = PubsubCommands::new(AllowAll);

    assert_eq!(commands.subscribe(&mut registry, connection, b""), Status::InvalidArgument);
    assert_eq!(commands.subscribe(&mut registry, connection, &[0xff, 0xfe]), Status::InvalidArgument);
    assert_eq!(commands.subscribe(&mut registry, connection, b"sub/nested"), Status::InvalidArgument);
    assert_eq!(commands.unsubscribe(&mut registry, connection, b""), Status::InvalidArgument);
}

#[test]
fn dropped_connections_have_no_standing() {
    let mut registry: TopicRegistry<u64, DropOldest> = TopicRegistry::default();
    let connection = registry.register_connection();
    registry.drop_connection(connection);
    let commands = PubsubCommands::new(AllowAll).with_publish(AllowAll);

    assert_eq!(commands.subscribe(&mut registry, connection, b"prices"), Status::PermissionDenied);
    assert_eq!(
        commands.authorize_publish(&registry, connection, b"prices"),
        Some(Err(Status::PermissionDenied))
    );
}

#[test]
fn subscribing_while_draining_is_unavailable() {
    let mut registry: TopicRegistry<u64, DropOldest> = TopicRegistry::default();
    let connection = registry.register_connection();
    registry.quiesce();
    let commands = PubsubCommands::new(AllowAll);

    assert_eq!(commands.subscribe(&mut registry, connection, b"prices"), Status::Unavailable);
}

#[test]
fn unsubscribe_is_idempotent() {
    let mut registry: TopicRegistry<u64, DropOldest> = TopicRegistry::default();
    let connection = registry.register_connection();
    let commands = PubsubCommands::new(AllowAll);

    assert_eq!(commands.subscribe(&mut registry, connection, b"prices"), Status::Accepted);
    assert_eq!(commands.unsubscribe(&mut registry, connection, b"prices"), Status::Accepted);
    assert_eq!(commands.unsubscribe(&mut registry, connection, b"prices"), Status::Accepted);
    assert_eq!(registry.subscriber_count(&topic("prices")), 0);
}

#[test]
fn publish_authorization_is_opt_in() {
    let mut registry: TopicRegistry<u64, DropOldest> = TopicRegistry::default();
    let connection = registry.register_connection();

    let silent = PubsubCommands::new(AllowAll);
    assert_eq!(silent.authorize_publish(&registry, connection, b"prices"), None);

    let open = PubsubCommands::new(AllowAll).with_publish(AllowAll);
    assert_eq!(open.authorize_publish(&registry, connection, b"prices"), Some(Ok(topic("prices"))));

    let closed = PubsubCommands::new(AllowAll).with_publish(DenyPublish);
    assert_eq!(
        closed.authorize_publish(&registry, connection, b"prices"),
        Some(Err(Status::PermissionDenied))
    );
    assert_eq!(
        closed.authorize_publish(&registry, connection, b""),
        Some(Err(Status::InvalidArgument))
    );
}

#[test]
fn publish_outcomes_map_to_statuses() {
    type Commands = PubsubCommands<AllowAll, AllowAll>;
    assert_eq!(Commands::publish_status(&Ok(())), Status::Accepted);
    assert_eq!(Commands::publish_status(&Err(PublishError::Draining)), Status::Unavailable);
    assert_eq!(Commands::publish_status(&Err(PublishError::Build("x".to_string()))), Status::Internal);
    assert_eq!(
        Commands::publish_status(&Err(PublishError::Backplane(BackplaneError::Refused(DeliverError::Rejected)))),
        Status::Unavailable
    );
}

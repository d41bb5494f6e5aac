use tightbeam_ext::pubsub::topic::{Topic, TopicError, END_PREFIX, PUB_PREFIX, SUB_PREFIX, UNSUB_PREFIX};

fn parsed(name: &str) -> Topic {
    name.parse().expect("the name should parse as a topic")
}

#[test]
fn accepts_hierarchical_names() {
    let topic = parsed("prices/spot/BTC");
    assert_eq!(topic.as_str(), "prices/spot/BTC");
    assert_eq!(topic.to_string(), "prices/spot/BTC");
}

#[test]
fn accepts_names_containing_reserved_words_after_the_start() {
    let topic = parsed("orders/sub/updates");
    assert_eq!(topic.as_ref(), "orders/sub/updates");
}

#[test]
fn rejects_an_empty_name() {
    let outcome: Result<Topic, TopicError> = "".parse();
    assert!(matches!(outcome, Err(TopicError::Empty)));
}

#[test]
fn rejects_every_reserved_command_prefix() {
    for prefix in [SUB_PREFIX, UNSUB_PREFIX, PUB_PREFIX, END_PREFIX] {
        let outcome: Result<Topic, TopicError> = format!("{prefix}prices").parse();
        assert!(matches!(outcome, Err(TopicError::ReservedPrefix(rejected)) if rejected == prefix));
    }
}

#[test]
fn rejects_non_utf8_bytes() {
    let outcome = Topic::try_from([0xff, 0xfe].as_slice());
    assert!(matches!(outcome, Err(TopicError::NotUtf8(_))));
}

#[test]
fn parses_from_wire_bytes() {
    let parsed = Topic::try_from(b"chat/lobby".as_slice());
    assert!(matches!(parsed, Ok(topic) if topic.as_str() == "chat/lobby"));
}

#[test]
fn a_bare_prefix_word_without_its_slash_is_a_topic() {
    assert_eq!(parsed("sub").as_str(), "sub");
    assert_eq!(parsed("ends/now").as_str(), "ends/now");
}

#[test]
fn multibyte_names_parse() {
    let topic = Topic::try_from("prix/€".as_bytes()).expect("the name should parse");
    assert_eq!(topic.as_str(), "prix/€");
}

#[test]
fn topic_refusals_describe_themselves() {
    assert_eq!(TopicError::Empty.to_string(), "a topic name must be non-empty");
    assert_eq!(
        TopicError::ReservedPrefix("sub/").to_string(),
        "a topic name must not start with the reserved prefix sub/"
    );
    let refused = Topic::try_from(&[0xff, 0xfe]).expect_err("invalid UTF-8 is refused");
    assert!(refused.to_string().starts_with("a topic name must be UTF-8: "));
}

#[test]
fn str_parse_applies_the_topic_rules() {
    assert!(matches!("".parse::<Topic>(), Err(TopicError::Empty)));
    assert!(matches!("sub/orders".parse::<Topic>(), Err(TopicError::ReservedPrefix(rejected)) if rejected == SUB_PREFIX));
    let topic: Topic = "orders/eu".parse().expect("an ordinary name parses");
    assert_eq!(topic, parsed("orders/eu"));
}

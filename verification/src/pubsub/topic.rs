//! Topic names and their validation.
//!
//! A topic is a non-empty UTF-8 string with an optional `/`-separated
//! hierarchy. Matching is exact: no wildcards, no shared subscriptions.
//! The wire command prefixes are reserved so a topic can never be mistaken
//! for a command.
//!
//! # Sources
//!
//! - MQTT 5.0 § 4.7, Topic Names and Topic Filters:
//!   <https://docs.oasis-open.org/mqtt/mqtt/v5.0/os/mqtt-v5.0-os.html>

use core::str::Utf8Error;
use vstd::prelude::*;
use vstd::string::StrSliceExecFns;
use vstd::utf8::{decode_utf8, valid_utf8};
use crate::text::push_str;

verus! {

/// The standard library's UTF-8 decoding failure, carried through as is.
#[verifier::external_type_specification]
#[verifier::external_body]
pub struct ExUtf8Error(Utf8Error);

/// Wire prefix a client subscribes with: `sub/<topic>`.
pub const SUB_PREFIX: &'static str = "sub/";

/// Wire prefix a client unsubscribes with: `unsub/<topic>`.
pub const UNSUB_PREFIX: &'static str = "unsub/";

/// Wire prefix a client publishes with: `pub/<topic>`.
pub const PUB_PREFIX: &'static str = "pub/";

/// Wire prefix the registry completes a topic with: `end/<topic>`.
pub const END_PREFIX: &'static str = "end/";

/// Whether `name` starts with `prefix`.
pub open spec fn has_prefix(name: Seq<char>, prefix: Seq<char>) -> bool {
    prefix.len() <= name.len() && name.subrange(0, prefix.len() as int) == prefix
}

/// The reserved command prefix `name` starts with, in dispatch order.
pub open spec fn reserved_prefix_of(name: Seq<char>) -> Option<Seq<char>> {
    if has_prefix(name, SUB_PREFIX@) {
        Some(SUB_PREFIX@)
    } else if has_prefix(name, UNSUB_PREFIX@) {
        Some(UNSUB_PREFIX@)
    } else if has_prefix(name, PUB_PREFIX@) {
        Some(PUB_PREFIX@)
    } else if has_prefix(name, END_PREFIX@) {
        Some(END_PREFIX@)
    } else {
        None
    }
}

/// A validated topic name: non-empty UTF-8, exact-match semantics,
/// never starting with a reserved command prefix.
#[derive(Clone, Debug, PartialEq, Eq, Hash, PartialOrd, Ord)]
pub struct Topic(String);

/// Why a topic name failed validation.
#[derive(Debug, Clone, Copy, PartialEq, Eq)]
pub enum TopicError {
    /// The name is empty.
    Empty,
    /// The name starts with a reserved wire command prefix.
    ReservedPrefix(&'static str),
    /// The name bytes are not valid UTF-8.
    NotUtf8(Utf8Error),
}

/// Whether a name is a valid topic.
pub open spec fn valid_topic(name: Seq<char>) -> bool {
    name.len() > 0 && reserved_prefix_of(name) is None
}

impl View for Topic {
    type V = Seq<char>;

    closed spec fn view(&self) -> Seq<char> {
        self.0@
    }
}

/// Whether `name` starts with `prefix`.
fn starts_with(name: &str, prefix: &str) -> (found: bool)
    ensures
        found == has_prefix(name@, prefix@),
{
    let n = name.unicode_len();
    let p = prefix.unicode_len();
    if p > n {
        return false;
    }
    let mut i: usize = 0;
    while i < p
        invariant
            i <= p <= n,
            n == name@.len(),
            p == prefix@.len(),
            forall|j: int| 0 <= j < i ==> name@[j] == prefix@[j],
        decreases p - i,
    {
        if name.get_char(i) != prefix.get_char(i) {
            assert(name@.subrange(0, p as int)[i as int] != prefix@[i as int]);
            return false;
        }
        i = i + 1;
    }
    assert(name@.subrange(0, p as int) =~= prefix@);
    true
}

/// Calls `core::str::from_utf8`, which accepts exactly the well-formed
/// UTF-8 octet strings and reads them as characters.
#[verifier::external_body]
fn utf8_text(octets: &[u8]) -> (text: Result<&str, Utf8Error>)
    ensures
        text is Ok <==> valid_utf8(octets@),
        text matches Ok(t) ==> t@ == decode_utf8(octets@),
{
    core::str::from_utf8(octets)
}

impl Topic {
    /// Whether both topics carry the same name.
    pub fn same_name(&self, other: &Topic) -> (same: bool)
        ensures
            same == (self@ == other@),
    {
        self.0 == other.0
    }

    /// A second handle on the same topic name.
    pub fn duplicate(&self) -> (copy: Topic)
        ensures
            copy@ == self@,
    {
        Topic(self.0.clone())
    }

    /// The topic name as a string slice.
    pub fn as_str(&self) -> (name: &str)
        ensures
            name@ == self@,
    {
        self.0.as_str()
    }

    /// The topic name as a string slice.
    pub fn as_ref(&self) -> (name: &str)
        ensures
            name@ == self@,
    {
        self.0.as_str()
    }

    /// The topic name as an owned string.
    pub fn to_string(&self) -> (name: String)
        ensures
            name@ == self@,
    {
        self.0.clone()
    }

    /// Parse a topic name from a UTF-8 string.
    ///
    /// # Errors
    ///
    /// - [`TopicError::Empty`]: the name has zero length.
    /// - [`TopicError::ReservedPrefix`]: the name starts with a wire command prefix.
    pub fn parse(name: &str) -> (topic: Result<Topic, TopicError>)
        ensures
            name@.len() == 0 ==> topic matches Err(TopicError::Empty),
            (name@.len() > 0 && reserved_prefix_of(name@) is Some) ==> (topic matches Err(
                TopicError::ReservedPrefix(rejected),
            ) && rejected@ == reserved_prefix_of(name@)->Some_0),
            valid_topic(name@) ==> (topic matches Ok(t) && t@ == name@),
    {
        if name.is_empty() {
            return Err(TopicError::Empty);
        }
        if starts_with(name, SUB_PREFIX) {
            return Err(TopicError::ReservedPrefix(SUB_PREFIX));
        }
        if starts_with(name, UNSUB_PREFIX) {
            return Err(TopicError::ReservedPrefix(UNSUB_PREFIX));
        }
        if starts_with(name, PUB_PREFIX) {
            return Err(TopicError::ReservedPrefix(PUB_PREFIX));
        }
        if starts_with(name, END_PREFIX) {
            return Err(TopicError::ReservedPrefix(END_PREFIX));
        }
        Ok(Topic(name.to_owned()))
    }

    /// Parse a topic name from raw octets.
    ///
    /// # Errors
    ///
    /// - [`TopicError::NotUtf8`]: the octets are not valid UTF-8.
    /// - [`TopicError::Empty`] / [`TopicError::ReservedPrefix`]: same as [`Topic::parse`].
    pub fn try_from(name: &[u8]) -> (topic: Result<Topic, TopicError>)
        ensures
            !valid_utf8(name@) ==> topic matches Err(TopicError::NotUtf8(_)),
            valid_utf8(name@) && decode_utf8(name@).len() == 0 ==> topic matches Err(TopicError::Empty),
            (valid_utf8(name@) && decode_utf8(name@).len() > 0 && reserved_prefix_of(
                decode_utf8(name@),
            ) is Some) ==> (topic matches Err(TopicError::ReservedPrefix(rejected)) && rejected@
                == reserved_prefix_of(decode_utf8(name@))->Some_0),
            (valid_utf8(name@) && valid_topic(decode_utf8(name@))) ==> (topic matches Ok(t) && t@
                == decode_utf8(name@)),
    {
        let text = match utf8_text(name) {
            Ok(text) => text,
            Err(cause) => return Err(TopicError::NotUtf8(cause)),
        };
        Topic::parse(text)
    }
}

/// Calls `Utf8Error`'s `Display`, which describes where the invalid or
/// incomplete sequence starts; nothing is claimed of the text.
#[verifier::external_body]
fn utf8_error_text(cause: &Utf8Error) -> (text: String) {
    format!("{cause}")
}

/// The message of a topic refusal.
pub open spec fn topic_error_text(e: TopicError) -> Option<Seq<char>> {
    match e {
        TopicError::Empty => Some("a topic name must be non-empty"@),
        TopicError::ReservedPrefix(prefix) => Some("a topic name must not start with the reserved prefix "@ + prefix@),
        TopicError::NotUtf8(_) => None,
    }
}

impl TopicError {
    /// The refusal as diagnostics print it; an encoding failure appends
    /// the decoder's own description of the bad sequence.
    pub fn to_string(&self) -> (text: String)
        ensures
            topic_error_text(*self) matches Some(expected) ==> text@ == expected,
            self is NotUtf8 ==> "a topic name must be UTF-8: "@.len() <= text@.len() && text@.subrange(
                0,
                "a topic name must be UTF-8: "@.len() as int,
            ) == "a topic name must be UTF-8: "@,
    {
        let mut text = String::new();
        match self {
            TopicError::Empty => push_str(&mut text, "a topic name must be non-empty"),
            TopicError::ReservedPrefix(prefix) => {
                push_str(&mut text, "a topic name must not start with the reserved prefix ");
                push_str(&mut text, prefix);
            },
            TopicError::NotUtf8(cause) => {
                push_str(&mut text, "a topic name must be UTF-8: ");
                let detail = utf8_error_text(cause);
                push_str(&mut text, detail.as_str());
                assert(text@.subrange(0, "a topic name must be UTF-8: "@.len() as int) =~= "a topic name must be UTF-8: "@);
            },
        }
        text
    }
}

impl core::str::FromStr for Topic {
    type Err = TopicError;

    fn from_str(name: &str) -> (topic: Result<Topic, TopicError>)
        ensures
            name@.len() == 0 ==> topic matches Err(TopicError::Empty),
            (name@.len() > 0 && reserved_prefix_of(name@) is Some) ==> (topic matches Err(
                TopicError::ReservedPrefix(rejected),
            ) && rejected@ == reserved_prefix_of(name@)->Some_0),
            valid_topic(name@) ==> (topic matches Ok(t) && t@ == name@),
    {
        Topic::parse(name)
    }
}

} // verus!

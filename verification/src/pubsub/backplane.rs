//! The backplane: per-topic sequencing and update distribution.
//!
//! The registry owns local fan-out and delegates two decisions here: who
//! assigns the dense per-topic `order`, and how a publish reaches the
//! attached nodes. [`Local`] answers both in process.
//!
//! # Contract
//!
//! - Orders are dense (`1, 2, 3, ...`) per topic: a client reads a hole as
//!   message loss.
//! - Every attached sink is offered every sequenced update at the same
//!   order. A [`DeliverError::Draining`] refusal means that sink is
//!   leaving and does not fail the publish when another sink accepted. A
//!   hard refusal ([`DeliverError::Build`] or [`DeliverError::Rejected`])
//!   fails the publish.
//! - The order stamp burns when at least one sink accepted, or when no
//!   sink is attached at all. An all-refuse publish leaves the counter
//!   untouched so subscribers never see a gap for an update no node
//!   fanned out.
//! - Per-topic counters persist for the backplane's lifetime.

use crate::pubsub::topic::Topic;
use crate::text::push_str;
use vstd::prelude::*;

verus! {

/// Why a node refused one sequenced update.
#[derive(Debug, Clone, PartialEq, Eq)]
pub enum DeliverError {
    /// The node is quiescing: its topics already completed.
    ///
    /// Soft: other sinks may still accept the publish.
    Draining,
    /// The update frame failed to build; the cause's text is kept.
    ///
    /// Hard: the publish fails even when another sink accepted.
    Build(String),
    /// The sink refused this update for an application reason.
    ///
    /// Hard: the publish fails even when another sink accepted.
    Rejected,
}

/// Why a publish never entered the backplane.
#[derive(Debug, Clone, PartialEq, Eq)]
pub enum BackplaneError {
    /// Every reachable node refused the update, or a hard refusal
    /// occurred; the first decisive refusal is kept.
    Refused(DeliverError),
    /// The backplane transport rejected or lost the publish; the cause's
    /// text is kept.
    Unavailable(String),
}

/// The message of a delivery refusal.
pub open spec fn deliver_text(e: DeliverError) -> Seq<char> {
    match e {
        DeliverError::Draining => "the node is draining"@,
        DeliverError::Build(cause) => "the update frame failed to build: "@ + cause@,
        DeliverError::Rejected => "the sink rejected the update"@,
    }
}

/// The message of a backplane failure.
pub open spec fn backplane_text(e: BackplaneError) -> Seq<char> {
    match e {
        BackplaneError::Refused(cause) => "every node refused the update: "@ + deliver_text(cause),
        BackplaneError::Unavailable(cause) => "the backplane is unavailable: "@ + cause@,
    }
}

impl DeliverError {
    /// Whether this refusal fails a multi-sink publish on its own.
    pub open spec fn hard(&self) -> bool {
        !(*self is Draining)
    }

    /// Whether this refusal fails a multi-sink publish when another sink
    /// already accepted.
    pub fn is_hard(&self) -> (hard: bool)
        ensures
            hard == self.hard(),
    {
        match self {
            DeliverError::Draining => false,
            _ => true,
        }
    }

    fn push_text(&self, text: &mut String)
        ensures
            final(text)@ == old(text)@ + deliver_text(*self),
    {
        let ghost start = text@;
        match self {
            DeliverError::Draining => push_str(text, "the node is draining"),
            DeliverError::Build(cause) => {
                push_str(text, "the update frame failed to build: ");
                push_str(text, cause.as_str());
            },
            DeliverError::Rejected => push_str(text, "the sink rejected the update"),
        }
        assert(text@ =~= start + deliver_text(*self));
    }

    /// The refusal as diagnostics print it.
    pub fn to_string(&self) -> (text: String)
        ensures
            text@ == deliver_text(*self),
    {
        let mut text = String::new();
        self.push_text(&mut text);
        assert(text@ =~= deliver_text(*self));
        text
    }
}

impl BackplaneError {
    /// The failure as diagnostics print it.
    pub fn to_string(&self) -> (text: String)
        ensures
            text@ == backplane_text(*self),
    {
        let mut text = String::new();
        match self {
            BackplaneError::Refused(cause) => {
                push_str(&mut text, "every node refused the update: ");
                cause.push_text(&mut text);
            },
            BackplaneError::Unavailable(cause) => {
                push_str(&mut text, "the backplane is unavailable: ");
                push_str(&mut text, cause.as_str());
            },
        }
        assert(text@ =~= backplane_text(*self));
        text
    }
}

/// One node's local delivery hook. The backplane calls back with every
/// sequenced update.
pub trait UpdateSink: Send + Sync {
    /// Fan `payload` out to this node's subscribers of `topic` at the
    /// backplane-assigned `order`.
    ///
    /// # Errors
    ///
    /// - [`DeliverError::Draining`]: this node is quiescing.
    /// - [`DeliverError::Build`]: the update frame failed to encode.
    /// - [`DeliverError::Rejected`]: the sink refuses this update for an
    ///   application reason.
    fn deliver(&self, topic: &Topic, order: u64, payload: &[u8]) -> Result<(), DeliverError>;

    /// Whether the node behind this hook still exists. A hook held weakly
    /// answers `false` once its node is gone; the backplane then detaches
    /// it without offering it anything.
    fn is_live(&self) -> (live: bool)
        default_ensures
            live,
    {
        true
    }
}

// ---------------------------------------------------------------------------
// The per-topic counters.
// ---------------------------------------------------------------------------

/// The counters an entry list records: each entry sets its topic's last
/// committed order, later entries over earlier ones.
pub open spec fn counters_of(entries: Seq<(Topic, u64)>) -> Map<Seq<char>, u64>
    decreases entries.len(),
{
    if entries.len() == 0 {
        Map::empty()
    } else {
        counters_of(entries.drop_last()).insert(entries.last().0@, entries.last().1)
    }
}

/// No topic occurs twice in the entry list.
pub open spec fn distinct_topics(entries: Seq<(Topic, u64)>) -> bool {
    forall|i: int, j: int|
        0 <= i < j < entries.len() ==> #[trigger] entries[i].0@ != #[trigger] entries[j].0@
}

/// The last committed order of `topic`, or `0` when it never committed.
pub open spec fn last_of(counters: Map<Seq<char>, u64>, topic: Seq<char>) -> u64 {
    if counters.contains_key(topic) {
        counters[topic]
    } else {
        0
    }
}

/// The order the next commit on `topic` stamps: one past the last,
/// saturating at `u64::MAX`.
pub open spec fn next_of(counters: Map<Seq<char>, u64>, topic: Seq<char>) -> u64 {
    if last_of(counters, topic) == u64::MAX {
        u64::MAX
    } else {
        (last_of(counters, topic) + 1) as u64
    }
}

proof fn lemma_counters_domain(entries: Seq<(Topic, u64)>, name: Seq<char>)
    ensures
        counters_of(entries).contains_key(name) <==> exists|i: int|
            0 <= i < entries.len() && #[trigger] entries[i].0@ == name,
    decreases entries.len(),
{
    if entries.len() > 0 {
        lemma_counters_domain(entries.drop_last(), name);
        if counters_of(entries.drop_last()).contains_key(name) {
            let i = choose|i: int| 0 <= i < entries.drop_last().len() && #[trigger] entries.drop_last()[i].0@ == name;
            assert(entries[i].0@ == name);
        }
        if exists|i: int| 0 <= i < entries.len() && #[trigger] entries[i].0@ == name {
            let i = choose|i: int| 0 <= i < entries.len() && #[trigger] entries[i].0@ == name;
            if i < entries.len() - 1 {
                assert(entries.drop_last()[i].0@ == name);
            }
        }
    }
}

proof fn lemma_counters_value(entries: Seq<(Topic, u64)>, i: int)
    requires
        distinct_topics(entries),
        0 <= i < entries.len(),
    ensures
        counters_of(entries).contains_key(entries[i].0@),
        counters_of(entries)[entries[i].0@] == entries[i].1,
    decreases entries.len(),
{
    if i < entries.len() - 1 {
        let shorter = entries.drop_last();
        assert(shorter[i] == entries[i]);
        assert(distinct_topics(shorter)) by {
            assert forall|a: int, b: int| 0 <= a < b < shorter.len() implies
                #[trigger] shorter[a].0@ != #[trigger] shorter[b].0@ by {
                assert(shorter[a] == entries[a] && shorter[b] == entries[b]);
            }
        }
        lemma_counters_value(shorter, i);
        assert(entries[i].0@ != entries[entries.len() - 1].0@);
    }
}

proof fn lemma_counters_update(entries: Seq<(Topic, u64)>, i: int, entry: (Topic, u64))
    requires
        distinct_topics(entries),
        0 <= i < entries.len(),
        entry.0@ == entries[i].0@,
    ensures
        distinct_topics(entries.update(i, entry)),
        counters_of(entries.update(i, entry)) == counters_of(entries).insert(entry.0@, entry.1),
    decreases entries.len(),
{
    let updated = entries.update(i, entry);
    assert(distinct_topics(updated)) by {
        assert forall|a: int, b: int| 0 <= a < b < updated.len() implies
            #[trigger] updated[a].0@ != #[trigger] updated[b].0@ by {
            assert(updated[a].0@ == entries[a].0@ && updated[b].0@ == entries[b].0@);
        }
    }
    if i == entries.len() - 1 {
        assert(updated.drop_last() =~= entries.drop_last());
    } else {
        let shorter = entries.drop_last();
        assert(distinct_topics(shorter)) by {
            assert forall|a: int, b: int| 0 <= a < b < shorter.len() implies
                #[trigger] shorter[a].0@ != #[trigger] shorter[b].0@ by {
                assert(shorter[a] == entries[a] && shorter[b] == entries[b]);
            }
        }
        lemma_counters_update(shorter, i, entry);
        assert(updated.drop_last() =~= shorter.update(i, entry));
        assert(entries[i].0@ != entries.last().0@);
        assert(counters_of(updated) =~= counters_of(entries).insert(entry.0@, entry.1));
    }
}

proof fn lemma_distinct_topics_prefix(entries: Seq<(Topic, u64)>)
    requires
        distinct_topics(entries),
        entries.len() > 0,
    ensures
        distinct_topics(entries.drop_last()),
{
    let shorter = entries.drop_last();
    assert forall|a: int, b: int| 0 <= a < b < shorter.len() implies
        #[trigger] shorter[a].0@ != #[trigger] shorter[b].0@ by {
        assert(shorter[a] == entries[a] && shorter[b] == entries[b]);
    }
}

proof fn lemma_counters_remove(entries: Seq<(Topic, u64)>, i: int)
    requires
        distinct_topics(entries),
        0 <= i < entries.len(),
    ensures
        distinct_topics(entries.remove(i)),
        counters_of(entries.remove(i)) == counters_of(entries).remove(entries[i].0@),
    decreases entries.len(),
{
    let removed = entries.remove(i);
    assert(distinct_topics(removed)) by {
        assert forall|a: int, b: int| 0 <= a < b < removed.len() implies
            #[trigger] removed[a].0@ != #[trigger] removed[b].0@ by {
            let a2 = if a < i { a } else { a + 1 };
            let b2 = if b < i { b } else { b + 1 };
            assert(removed[a] == entries[a2] && removed[b] == entries[b2]);
        }
    }
    let shorter = entries.drop_last();
    lemma_distinct_topics_prefix(entries);
    if i == entries.len() - 1 {
        assert(removed =~= shorter);
        lemma_counters_domain(shorter, entries[i].0@);
        if counters_of(shorter).contains_key(entries[i].0@) {
            let j = choose|j: int| 0 <= j < shorter.len() && #[trigger] shorter[j].0@ == entries[i].0@;
            assert(entries[j].0@ == shorter[j].0@);
        }
        assert(counters_of(removed) =~= counters_of(entries).remove(entries[i].0@));
    } else {
        lemma_counters_remove(shorter, i);
        assert(removed.drop_last() =~= shorter.remove(i));
        assert(removed.last() == entries.last());
        assert(shorter[i] == entries[i]);
        assert(entries[i].0@ != entries.last().0@);
        assert(counters_of(removed) =~= counters_of(entries).remove(entries[i].0@));
    }
}

/// The per-topic dense counters: the last committed order of every topic
/// that ever committed.
pub struct Counters {
    entries: Vec<(Topic, u64)>,
}

impl View for Counters {
    type V = Map<Seq<char>, u64>;

    closed spec fn view(&self) -> Map<Seq<char>, u64> {
        counters_of(self.entries@)
    }
}

impl Counters {
    /// The entry list names every topic once.
    pub closed spec fn wf(&self) -> bool {
        distinct_topics(self.entries@)
    }

    /// No topic has committed yet.
    pub fn new() -> (counters: Counters)
        ensures
            counters.wf(),
            counters@ == Map::<Seq<char>, u64>::empty(),
    {
        Counters { entries: Vec::new() }
    }

    /// Where `topic`'s entry stands, if it has one.
    fn position(&self, topic: &Topic) -> (at: Option<usize>)
        requires
            self.wf(),
        ensures
            match at {
                Some(i) => i < self.entries@.len() && self.entries@[i as int].0@ == topic@,
                None => !self@.contains_key(topic@),
            },
    {
        let mut i: usize = 0;
        while i < self.entries.len()
            invariant
                i <= self.entries@.len(),
                forall|j: int| 0 <= j < i ==> #[trigger] self.entries@[j].0@ != topic@,
            decreases self.entries@.len() - i,
        {
            if self.entries[i].0.same_name(topic) {
                return Some(i);
            }
            i = i + 1;
        }
        proof {
            lemma_counters_domain(self.entries@, topic@);
        }
        None
    }

    /// Last committed order for `topic`, or `0` when it never committed.
    pub fn last_order(&self, topic: &Topic) -> (order: u64)
        requires
            self.wf(),
        ensures
            order == last_of(self@, topic@),
    {
        match self.position(topic) {
            Some(i) => {
                proof {
                    lemma_counters_value(self.entries@, i as int);
                }
                self.entries[i].1
            },
            None => 0,
        }
    }

    /// The order the next commit on `topic` stamps.
    pub fn next_order(&self, topic: &Topic) -> (order: u64)
        requires
            self.wf(),
        ensures
            order == next_of(self@, topic@),
    {
        self.last_order(topic).saturating_add(1)
    }

    /// Forget `topic`'s counter.
    pub fn forget(&mut self, topic: &Topic)
        requires
            old(self).wf(),
        ensures
            final(self).wf(),
            final(self)@ == old(self)@.remove(topic@),
    {
        match self.position(topic) {
            Some(i) => {
                proof {
                    lemma_counters_remove(self.entries@, i as int);
                }
                let _gone = self.entries.remove(i);
            },
            None => {
                assert(self@ =~= self@.remove(topic@));
            },
        }
    }

    /// Every topic that has a counter, once each.
    pub fn topics(&self) -> (topics: Vec<Topic>)
        requires
            self.wf(),
        ensures
            forall|k: int| 0 <= k < topics@.len() ==> self@.contains_key(#[trigger] topics@[k]@),
            forall|t: Seq<char>| #[trigger] self@.contains_key(t) ==> exists|k: int|
                0 <= k < topics@.len() && #[trigger] topics@[k]@ == t,
            forall|a: int, b: int| 0 <= a < b < topics@.len() ==> #[trigger] topics@[a]@ != #[trigger] topics@[b]@,
    {
        let mut topics: Vec<Topic> = Vec::new();
        let mut i: usize = 0;
        while i < self.entries.len()
            invariant
                self.wf(),
                i <= self.entries@.len(),
                topics@.len() == i,
                forall|k: int| 0 <= k < i ==> #[trigger] topics@[k]@ == self.entries@[k].0@,
            decreases self.entries@.len() - i,
        {
            topics.push(self.entries[i].0.duplicate());
            i = i + 1;
        }
        proof {
            assert forall|k: int| 0 <= k < topics@.len() implies self@.contains_key(#[trigger] topics@[k]@) by {
                lemma_counters_value(self.entries@, k);
            }
            assert forall|t: Seq<char>| #[trigger] self@.contains_key(t) implies exists|k: int|
                0 <= k < topics@.len() && #[trigger] topics@[k]@ == t by {
                lemma_counters_domain(self.entries@, t);
                let k = choose|k: int| 0 <= k < self.entries@.len() && #[trigger] self.entries@[k].0@ == t;
                assert(topics@[k]@ == t);
            }
            assert forall|a: int, b: int| 0 <= a < b < topics@.len() implies #[trigger] topics@[a]@ != #[trigger] topics@[b]@ by {
                assert(topics@[a]@ == self.entries@[a].0@ && topics@[b]@ == self.entries@[b].0@);
            }
        }
        topics
    }

    /// Record `order` as `topic`'s last committed order.
    pub fn commit(&mut self, topic: &Topic, order: u64)
        requires
            old(self).wf(),
        ensures
            final(self).wf(),
            final(self)@ == old(self)@.insert(topic@, order),
    {
        match self.position(topic) {
            Some(i) => {
                let ghost before = self.entries@;
                let name = self.entries[i].0.duplicate();
                let ghost entry = (name, order);
                self.entries.set(i, (name, order));
                proof {
                    lemma_counters_update(before, i as int, entry);
                    assert(self.entries@ =~= before.update(i as int, entry));
                }
            },
            None => {
                let ghost before = self.entries@;
                proof {
                    lemma_counters_domain(before, topic@);
                }
                self.entries.push((topic.duplicate(), order));
                assert(self.entries@.drop_last() =~= before);
                assert(distinct_topics(self.entries@)) by {
                    assert forall|a: int, b: int| 0 <= a < b < self.entries@.len() implies
                        #[trigger] self.entries@[a].0@ != #[trigger] self.entries@[b].0@ by {
                        if b == self.entries@.len() - 1 {
                            assert(before[a].0@ != topic@);
                        } else {
                            assert(self.entries@[a] == before[a] && self.entries@[b] == before[b]);
                        }
                    }
                }
            },
        }
    }
}

/// Each commit at the next order advances that topic's counter by exactly
/// one (until it saturates) and leaves every other topic's counter as it
/// was: the orders a topic hands out run `1, 2, 3, ...` without holes.
pub proof fn lemma_commits_are_dense(counters: Map<Seq<char>, u64>, topic: Seq<char>, other: Seq<char>)
    ensures
        last_of(counters.insert(topic, next_of(counters, topic)), topic) == next_of(counters, topic),
        last_of(counters, topic) < u64::MAX ==> next_of(counters, topic) == last_of(counters, topic) + 1,
        other != topic ==> last_of(counters.insert(topic, next_of(counters, topic)), other) == last_of(counters, other),
{
}

// ---------------------------------------------------------------------------
// Settling one publish over the sinks' answers.
// ---------------------------------------------------------------------------

/// The answer is a hard refusal.
pub open spec fn refused_hard(answer: Result<(), DeliverError>) -> bool {
    match answer {
        Err(cause) => cause.hard(),
        Ok(_) => false,
    }
}

/// Some sink accepted the update.
pub open spec fn any_accepted(answers: Seq<Result<(), DeliverError>>) -> bool {
    exists|i: int| 0 <= i < answers.len() && #[trigger] answers[i] is Ok
}

/// The first hard refusal among the answers, in sink order.
pub open spec fn first_hard(answers: Seq<Result<(), DeliverError>>) -> Option<DeliverError>
    decreases answers.len(),
{
    if answers.len() == 0 {
        None
    } else if first_hard(answers.drop_last()) is Some {
        first_hard(answers.drop_last())
    } else {
        match answers.last() {
            Err(cause) => if cause.hard() {
                Some(cause)
            } else {
                None
            },
            Ok(_) => None,
        }
    }
}

/// The first soft refusal among the answers, in sink order.
pub open spec fn first_soft(answers: Seq<Result<(), DeliverError>>) -> Option<DeliverError>
    decreases answers.len(),
{
    if answers.len() == 0 {
        None
    } else if first_soft(answers.drop_last()) is Some {
        first_soft(answers.drop_last())
    } else {
        match answers.last() {
            Err(cause) => if !cause.hard() {
                Some(cause)
            } else {
                None
            },
            Ok(_) => None,
        }
    }
}

/// Whether the publish burns its order stamp: some sink accepted, or no
/// sink answered at all.
pub open spec fn settle_commits(answers: Seq<Result<(), DeliverError>>) -> bool {
    any_accepted(answers) || answers.len() == 0
}

/// What the publish reports once every sink answered.
pub open spec fn settle_outcome(answers: Seq<Result<(), DeliverError>>) -> Result<(), BackplaneError> {
    if any_accepted(answers) {
        match first_hard(answers) {
            Some(cause) => Err(BackplaneError::Refused(cause)),
            None => Ok(()),
        }
    } else {
        match first_hard(answers) {
            Some(cause) => Err(BackplaneError::Refused(cause)),
            None => match first_soft(answers) {
                Some(cause) => Err(BackplaneError::Refused(cause)),
                None => Ok(()),
            },
        }
    }
}

proof fn lemma_refusals_are_answers(answers: Seq<Result<(), DeliverError>>)
    ensures
        first_hard(answers) matches Some(cause) ==> cause.hard() && exists|i: int|
            0 <= i < answers.len() && #[trigger] answers[i] == Err::<(), DeliverError>(cause),
        first_soft(answers) matches Some(cause) ==> !cause.hard() && exists|i: int|
            0 <= i < answers.len() && #[trigger] answers[i] == Err::<(), DeliverError>(cause),
        first_hard(answers) is None ==> forall|i: int|
            0 <= i < answers.len() ==> !refused_hard(#[trigger] answers[i]),
        (first_hard(answers) is None && first_soft(answers) is None) ==> forall|i: int|
            0 <= i < answers.len() ==> #[trigger] answers[i] is Ok,
    decreases answers.len(),
{
    if answers.len() > 0 {
        let shorter = answers.drop_last();
        lemma_refusals_are_answers(shorter);
        if let Some(cause) = first_hard(shorter) {
            let i = choose|i: int| 0 <= i < shorter.len() && #[trigger] shorter[i] == Err::<(), DeliverError>(cause);
            assert(answers[i] == shorter[i]);
        }
        if let Some(cause) = first_soft(shorter) {
            let i = choose|i: int| 0 <= i < shorter.len() && #[trigger] shorter[i] == Err::<(), DeliverError>(cause);
            assert(answers[i] == shorter[i]);
        }
        assert forall|i: int| 0 <= i < answers.len() - 1 implies #[trigger] answers[i] == shorter[i] by {}
        assert(answers[answers.len() - 1] == answers.last());
    }
}

/// Settle one publish from the sinks' answers, given in sink order.
///
/// Returns whether the order stamp burns, and what the publish reports:
/// success when some sink accepted and none refused hard, or when no sink
/// answered; otherwise the first hard refusal, or failing that the first
/// soft one.
pub fn settle(answers: Vec<Result<(), DeliverError>>) -> (settled: (bool, Result<(), BackplaneError>))
    ensures
        settled.0 == settle_commits(answers@),
        settled.1 == settle_outcome(answers@),
        // A hard refusal fails the publish even when a peer accepted.
        (exists|i: int| 0 <= i < answers@.len() && refused_hard(#[trigger] answers@[i])) ==> (
        settled.1 matches Err(BackplaneError::Refused(cause)) && cause.hard()),
        // A draining peer does not fail a publish another sink accepted.
        (any_accepted(answers@) && forall|i: int| 0 <= i < answers@.len() ==>
            !refused_hard(#[trigger] answers@[i])) ==> settled.1 is Ok,
        // An update no sink accepted never burns its stamp.
        (answers@.len() > 0 && !any_accepted(answers@)) ==> (!settled.0 && settled.1 is Err),
{
    let mut answers = answers;
    let ghost all = answers@;
    let mut accepted = false;
    let mut hard: Option<DeliverError> = None;
    let mut soft: Option<DeliverError> = None;
    let ghost mut seen: Seq<Result<(), DeliverError>> = Seq::empty();
    let none_answered = answers.len() == 0;
    while answers.len() > 0
        invariant
            seen.len() + answers@.len() == all.len(),
            seen =~= all.subrange(0, seen.len() as int),
            answers@ =~= all.subrange(seen.len() as int, all.len() as int),
            accepted == any_accepted(seen),
            hard == first_hard(seen),
            soft == first_soft(seen),
        decreases answers@.len(),
    {
        let ghost before = seen;
        let answer = answers.remove(0);
        assert(answer == all[before.len() as int]);
        proof {
            seen = seen.push(answer);
        }
        match answer {
            Ok(()) => {
                accepted = true;
            },
            Err(cause) => {
                if cause.is_hard() {
                    if hard.is_none() {
                        hard = Some(cause);
                    }
                } else if soft.is_none() {
                    soft = Some(cause);
                }
            },
        }
        assert(seen.drop_last() =~= before);
        assert(seen =~= all.subrange(0, seen.len() as int));
        assert(any_accepted(seen) == (any_accepted(before) || seen.last() is Ok)) by {
            if any_accepted(before) {
                let i = choose|i: int| 0 <= i < before.len() && #[trigger] before[i] is Ok;
                assert(seen[i] == before[i]);
            }
            if any_accepted(seen) {
                let i = choose|i: int| 0 <= i < seen.len() && #[trigger] seen[i] is Ok;
                if i < before.len() {
                    assert(before[i] == seen[i]);
                }
            }
        }
    }
    assert(seen =~= all);
    proof {
        lemma_refusals_are_answers(all);
        if exists|i: int| 0 <= i < all.len() && refused_hard(#[trigger] all[i]) {
            assert(first_hard(all) is Some);
        }
        if all.len() > 0 && first_hard(all) is None && first_soft(all) is None {
            assert(all[0] is Ok);
        }
    }
    let commits = accepted || none_answered;
    let outcome = if accepted {
        match hard {
            Some(cause) => Err(BackplaneError::Refused(cause)),
            None => Ok(()),
        }
    } else {
        match hard {
            Some(cause) => Err(BackplaneError::Refused(cause)),
            None => match soft {
                Some(cause) => Err(BackplaneError::Refused(cause)),
                None => Ok(()),
            },
        }
    };
    (commits, outcome)
}

// ---------------------------------------------------------------------------
// The in-process backplane.
// ---------------------------------------------------------------------------

/// Answers past the hooks asked change nothing of what was kept.
proof fn lemma_kept_prefix<S>(sinks: Seq<S>, live: Seq<bool>, longer: Seq<bool>, j: int)
    requires
        0 <= j < sinks.len(),
        live.len() == j,
        longer.len() == j + 1,
        longer.take(j) == live,
    ensures
        kept(sinks.take(j), live) == kept(sinks.take(j), longer),
    decreases j,
{
    lemma_kept_agree(sinks.take(j), live, longer);
}

/// What is kept reads only the answers for the hooks there are.
proof fn lemma_kept_agree<S>(sinks: Seq<S>, a: Seq<bool>, b: Seq<bool>)
    requires
        a.len() >= sinks.len(),
        b.len() >= sinks.len(),
        forall|k: int| 0 <= k < sinks.len() ==> a[k] == b[k],
    ensures
        kept(sinks, a) == kept(sinks, b),
    decreases sinks.len(),
{
    if sinks.len() > 0 {
        lemma_kept_agree(sinks.drop_last(), a, b);
    }
}

/// The hooks of `sinks` whose liveness answer in `live` was yes, in order.
pub open spec fn kept<S>(sinks: Seq<S>, live: Seq<bool>) -> Seq<S>
    decreases sinks.len(),
{
    if sinks.len() == 0 {
        Seq::empty()
    } else {
        let rest = kept(sinks.drop_last(), live);
        if live[sinks.len() - 1] {
            rest.push(sinks.last())
        } else {
            rest
        }
    }
}

/// The in-process backplane: one counter per topic, direct synchronous
/// delivery to every attached node, in attach order.
///
/// A caller that shares it between threads holds one lock across a whole
/// [`Local::publish`], so two racing publishes never reach a subscriber
/// out of stamp order.
pub struct Local<S> {
    counters: Counters,
    sinks: Vec<S>,
    offers: Ghost<Seq<(S, Seq<char>, u64, Seq<u8>)>>,
}

impl<S: UpdateSink> Local<S> {
    /// The counters keep every topic once.
    pub closed spec fn wf(&self) -> bool {
        self.counters.wf()
    }

    /// The last committed order of every topic that ever committed.
    pub closed spec fn counters(&self) -> Map<Seq<char>, u64> {
        self.counters@
    }

    /// The attached hooks, in attach order.
    pub closed spec fn sinks(&self) -> Seq<S> {
        self.sinks@
    }

    /// Every offer made so far, oldest first: the hook it went to, the
    /// topic, the order and the payload.
    pub closed spec fn offered(&self) -> Seq<(S, Seq<char>, u64, Seq<u8>)> {
        self.offers@
    }

    /// A backplane with no counters and no attached node.
    pub fn new() -> (local: Local<S>)
        ensures
            local.wf(),
            local.counters() == Map::<Seq<char>, u64>::empty(),
            local.sinks().len() == 0,
            local.offered().len() == 0,
    {
        Local { counters: Counters::new(), sinks: Vec::new(), offers: Ghost(Seq::empty()) }
    }

    /// Attach one node's delivery hook, detaching hooks whose node is gone.
    pub fn attach(&mut self, sink: S)
        requires
            old(self).wf(),
        ensures
            final(self).wf(),
            final(self).counters() == old(self).counters(),
            final(self).sinks().len() >= 1,
            final(self).sinks().last() == sink,
            final(self).sinks().len() <= old(self).sinks().len() + 1,
            final(self).offered() == old(self).offered(),
            forall|i: int|
                0 <= i < final(self).sinks().len() - 1 ==> old(self).sinks().contains(
                    #[trigger] final(self).sinks()[i],
                ),
    {
        let ghost start = self.sinks@;
        let mut i: usize = 0;
        while i < self.sinks.len()
            invariant
                self.counters == old(self).counters,
                self.offers == old(self).offers,
                start == old(self).sinks@,
                i <= self.sinks@.len() <= start.len(),
                forall|k: int| 0 <= k < self.sinks@.len() ==> start.contains(#[trigger] self.sinks@[k]),
            decreases self.sinks@.len() - i,
        {
            if self.sinks[i].is_live() {
                i = i + 1;
            } else {
                let ghost before = self.sinks@;
                let _gone = self.sinks.remove(i);
                assert forall|k: int| 0 <= k < self.sinks@.len() implies start.contains(
                    #[trigger] self.sinks@[k],
                ) by {
                    if k < i {
                        assert(self.sinks@[k] == before[k]);
                    } else {
                        assert(self.sinks@[k] == before[k + 1]);
                    }
                }
            }
        }
        self.sinks.push(sink);
    }

    /// Last committed order for `topic`, or `0` when it never committed.
    pub fn last_order(&self, topic: &Topic) -> (order: u64)
        requires
            self.wf(),
        ensures
            order == last_of(self.counters(), topic@),
    {
        self.counters.last_order(topic)
    }

    /// Claim the next dense order for `topic` without fan-out.
    pub fn reserve_order(&mut self, topic: &Topic) -> (order: u64)
        requires
            old(self).wf(),
        ensures
            final(self).wf(),
            order == next_of(old(self).counters(), topic@),
            final(self).counters() == old(self).counters().insert(topic@, order),
            final(self).sinks() == old(self).sinks(),
            final(self).offered() == old(self).offered(),
    {
        let order = self.counters.next_order(topic);
        self.counters.commit(topic, order);
        order
    }

    /// Assign the next dense order for `topic` and offer `payload` at that
    /// order to every attached node whose node still exists, detaching the
    /// others. The nodes kept are exactly those offered the update, in
    /// attach order, each answering once.
    ///
    /// Whatever the nodes answered, the outcome and the counters are those
    /// [`settle`] gives for those answers: the stamp burns when some node
    /// accepted or no node was left to ask.
    pub fn publish(&mut self, topic: &Topic, payload: &[u8]) -> (outcome: Result<(), BackplaneError>)
        requires
            old(self).wf(),
        ensures
            final(self).wf(),
            exists|answers: Seq<Result<(), DeliverError>>|
                {
                    &&& answers.len() == final(self).sinks().len()
                    &&& outcome == #[trigger] settle_outcome(answers)
                    &&& final(self).counters() == if settle_commits(answers) {
                        old(self).counters().insert(topic@, next_of(old(self).counters(), topic@))
                    } else {
                        old(self).counters()
                    }
                },
            old(self).sinks().len() == 0 ==> (outcome is Ok && final(self).counters()
                == old(self).counters().insert(topic@, next_of(old(self).counters(), topic@))),
            final(self).sinks().len() <= old(self).sinks().len(),
            forall|i: int|
                0 <= i < final(self).sinks().len() ==> old(self).sinks().contains(
                    #[trigger] final(self).sinks()[i],
                ),
            final(self).offered() == old(self).offered() + Seq::new(
                final(self).sinks().len(),
                |k: int| (final(self).sinks()[k], topic@, next_of(old(self).counters(), topic@), payload@),
            ),
            exists|live: Seq<bool>|
                live.len() == old(self).sinks().len() && #[trigger] kept(old(self).sinks(), live)
                    == final(self).sinks(),
    {
        let order = self.counters.next_order(topic);
        let ghost start = self.sinks@;
        let mut answers: Vec<Result<(), DeliverError>> = Vec::new();
        let ghost mut live: Seq<bool> = Seq::empty();
        let mut i: usize = 0;
        while i < self.sinks.len()
            invariant
                live.len() <= start.len(),
                self.sinks@ == kept(start.take(live.len() as int), live) + start.skip(live.len() as int),
                i == kept(start.take(live.len() as int), live).len(),
                self.counters == old(self).counters,
                start == old(self).sinks@,
                i <= self.sinks@.len() <= start.len(),
                answers@.len() == i,
                forall|k: int| 0 <= k < self.sinks@.len() ==> start.contains(#[trigger] self.sinks@[k]),
                order == next_of(old(self).counters(), topic@),
                self.offers@ == old(self).offers@ + Seq::new(
                    i as nat,
                    |k: int| (self.sinks@[k], topic@, order, payload@),
                ),
            decreases self.sinks@.len() - i,
        {
            if self.sinks[i].is_live() {
                let answer = self.sinks[i].deliver(topic, order, payload);
                proof {
                    self.offers@ = self.offers@.push((self.sinks@[i as int], topic@, order, payload@));
                    assert(self.offers@ =~= old(self).offers@ + Seq::new(
                        (i + 1) as nat,
                        |k: int| (self.sinks@[k], topic@, order, payload@),
                    ));
                }
                answers.push(answer);
                proof {
                    let j = live.len() as int;
                    let before_live = live;
                    assert(start.skip(j).len() > 0);
                    live = live.push(true);
                    assert(live.take(j) =~= before_live);
                    lemma_kept_prefix(start, before_live, live, j);
                    assert(start.take(j + 1).drop_last() =~= start.take(j));
                    assert(self.sinks@ =~= kept(start.take(j + 1), live) + start.skip(j + 1));
                }
                i = i + 1;
            } else {
                let ghost before = self.sinks@;
                let _gone = self.sinks.remove(i);
                assert forall|k: int| 0 <= k < self.sinks@.len() implies start.contains(
                    #[trigger] self.sinks@[k],
                ) by {
                    if k < i {
                        assert(self.sinks@[k] == before[k]);
                    } else {
                        assert(self.sinks@[k] == before[k + 1]);
                    }
                }
                assert(Seq::new(i as nat, |k: int| (self.sinks@[k], topic@, order, payload@)) =~= Seq::new(
                    i as nat,
                    |k: int| (before[k], topic@, order, payload@),
                ));
                proof {
                    let j = live.len() as int;
                    let before_live = live;
                    assert(start.skip(j).len() > 0);
                    live = live.push(false);
                    assert(live.take(j) =~= before_live);
                    lemma_kept_prefix(start, before_live, live, j);
                    assert(start.take(j + 1).drop_last() =~= start.take(j));
                    assert(self.sinks@ =~= kept(start.take(j + 1), live) + start.skip(j + 1));
                }
            }
        }
        proof {
            assert(start.skip(live.len() as int).len() == 0);
            assert(live.len() == start.len());
            assert(start.take(start.len() as int) =~= start);
            assert(start.skip(start.len() as int) =~= Seq::<S>::empty());
            assert(self.sinks@ =~= kept(start, live));
            assert(kept(old(self).sinks(), live) == self.sinks());
        }
        let ghost asked = answers@;
        let (commits, outcome) = settle(answers);
        if commits {
            self.counters.commit(topic, order);
        }
        assert(settle_outcome(asked) == outcome);
        outcome
    }
}

impl<S: UpdateSink> Default for Local<S> {
    fn default() -> (local: Local<S>)
        ensures
            local.wf(),
            local.counters() == Map::<Seq<char>, u64>::empty(),
            local.sinks().len() == 0,
    {
        Local::new()
    }
}

} // verus!

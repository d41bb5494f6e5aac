//! The bookkeeping of a reveal round: which peers' share batches count
//! towards which reveal, and when reconstruction is due.
//!
//! Every party broadcasts its shares of the values a `Reveal` opens,
//! tagged with the reveal's ordinal. A party collects the batches of the
//! ordinal it is waiting for, one per sender, and buffers batches that a
//! faster peer already sent for a later ordinal. Reconstruction is tried
//! once `2t + 1` batches are in; a failed attempt is final only when
//! every party has answered.

use crate::mpc::error::PartyId;
use vstd::prelude::*;

verus! {

/// Whether `entries` holds a batch from `sender`.
pub open spec fn has_sender<S>(entries: Seq<(PartyId, Vec<S>)>, sender: PartyId) -> bool {
    exists|i: int| 0 <= i < entries.len() && (#[trigger] entries[i]).0 == sender
}

/// Whether `buffered` holds a batch from `sender` for `ordinal`.
pub open spec fn has_buffered<S>(buffered: Seq<(u32, PartyId, Vec<S>)>, ordinal: u32, sender: PartyId) -> bool {
    exists|i: int| 0 <= i < buffered.len() && (#[trigger] buffered[i]).0 == ordinal && buffered[i].1 == sender
}

/// The buffered batches for `ordinal` that are `width` values long, in
/// arrival order.
pub open spec fn taken<S>(buffered: Seq<(u32, PartyId, Vec<S>)>, ordinal: u32, width: nat) -> Seq<(PartyId, Vec<S>)>
    decreases buffered.len(),
{
    if buffered.len() == 0 {
        Seq::empty()
    } else {
        let rest = taken(buffered.drop_last(), ordinal, width);
        let last = buffered.last();
        if last.0 == ordinal && last.2@.len() == width {
            rest.push((last.1, last.2))
        } else {
            rest
        }
    }
}

/// The buffered batches for every ordinal but `ordinal`, in arrival
/// order.
pub open spec fn kept<S>(buffered: Seq<(u32, PartyId, Vec<S>)>, ordinal: u32) -> Seq<(u32, PartyId, Vec<S>)>
    decreases buffered.len(),
{
    if buffered.len() == 0 {
        Seq::empty()
    } else {
        let rest = kept(buffered.drop_last(), ordinal);
        if buffered.last().0 == ordinal {
            rest
        } else {
            rest.push(buffered.last())
        }
    }
}

/// No two batches share an ordinal and a sender.
pub open spec fn distinct_slots<S>(buffered: Seq<(u32, PartyId, Vec<S>)>) -> bool {
    forall|i: int, j: int|
        0 <= i < j < buffered.len() ==> !(#[trigger] buffered[i].0 == #[trigger] buffered[j].0 && buffered[i].1
            == buffered[j].1)
}

proof fn lemma_kept<S>(buffered: Seq<(u32, PartyId, Vec<S>)>, ordinal: u32)
    ensures
        forall|e: (u32, PartyId, Vec<S>)| #[trigger] kept(buffered, ordinal).contains(e) ==> buffered.contains(e)
            && e.0 != ordinal,
        distinct_slots(buffered) ==> distinct_slots(kept(buffered, ordinal)),
    decreases buffered.len(),
{
    if buffered.len() > 0 {
        let front = buffered.drop_last();
        lemma_kept(front, ordinal);
        let rest = kept(front, ordinal);
        let out = kept(buffered, ordinal);
        assert forall|e: (u32, PartyId, Vec<S>)| #[trigger] out.contains(e) implies buffered.contains(e) && e.0
            != ordinal by {
            let i = choose|i: int| 0 <= i < out.len() && out[i] == e;
            if i < rest.len() {
                assert(rest[i] == e);
                assert(rest.contains(e));
                let j = choose|j: int| 0 <= j < front.len() && front[j] == e;
                assert(buffered[j] == e);
            } else {
                assert(buffered[buffered.len() - 1] == e);
            }
        }
        if distinct_slots(buffered) && buffered.last().0 != ordinal {
            assert forall|i: int, j: int|
                0 <= i < j < out.len() implies !(#[trigger] out[i].0 == #[trigger] out[j].0 && out[i].1
                == out[j].1) by {
                if j == out.len() - 1 {
                    assert(rest[i] == out[i]);
                    assert(rest.contains(out[i]));
                    let m = choose|m: int| 0 <= m < front.len() && front[m] == out[i];
                    assert(buffered[m] == out[i]);
                    assert(out[j] == buffered[buffered.len() - 1]);
                } else {
                    assert(rest[i] == out[i] && rest[j] == out[j]);
                }
            }
        }
    }
}

/// One party's reveal bookkeeping across the ordinals of a run.
pub struct RevealBook<S> {
    parties: usize,
    threshold: usize,
    buffered: Vec<(u32, PartyId, Vec<S>)>,
}

impl<S> RevealBook<S> {
    /// The number of parties in the mesh.
    pub closed spec fn parties(&self) -> nat {
        self.parties as nat
    }

    /// The corruption threshold `t`.
    pub closed spec fn threshold(&self) -> nat {
        self.threshold as nat
    }

    /// Batches that arrived for later ordinals, in arrival order.
    pub closed spec fn buffered(&self) -> Seq<(u32, PartyId, Vec<S>)> {
        self.buffered@
    }

    /// No sender is buffered twice for one ordinal.
    pub closed spec fn wf(&self) -> bool {
        distinct_slots(self.buffered@)
    }

    /// Bookkeeping for `parties` parties tolerating `threshold` faults,
    /// with nothing buffered.
    pub fn new(parties: usize, threshold: usize) -> (book: RevealBook<S>)
        ensures
            book.wf(),
            book.parties() == parties,
            book.threshold() == threshold,
            book.buffered().len() == 0,
    {
        RevealBook { parties, threshold, buffered: Vec::new() }
    }

    /// Start collecting `ordinal`: hand out the batches already buffered
    /// for it that are `width` values long, and forget every batch
    /// buffered for it.
    pub fn open(&mut self, ordinal: u32, width: usize) -> (collected: Vec<(PartyId, Vec<S>)>)
        requires
            old(self).wf(),
        ensures
            final(self).wf(),
            final(self).parties() == old(self).parties(),
            final(self).threshold() == old(self).threshold(),
            collected@ == taken(old(self).buffered(), ordinal, width as nat),
            final(self).buffered() == kept(old(self).buffered(), ordinal),
    {
        let mut source: Vec<(u32, PartyId, Vec<S>)> = Vec::new();
        std::mem::swap(&mut source, &mut self.buffered);
        let ghost whole = source@;
        let total = source.len();
        let mut rest: Vec<(u32, PartyId, Vec<S>)> = Vec::new();
        let mut collected: Vec<(PartyId, Vec<S>)> = Vec::new();
        let mut k: usize = 0;
        while source.len() > 0
            invariant
                k <= whole.len() == total,
                source@ == whole.subrange(k as int, whole.len() as int),
                collected@ == taken(whole.subrange(0, k as int), ordinal, width as nat),
                rest@ == kept(whole.subrange(0, k as int), ordinal),
            decreases source@.len(),
        {
            let entry = source.remove(0);
            proof {
                assert(whole.subrange(0, k + 1).drop_last() =~= whole.subrange(0, k as int));
                assert(whole[k as int] == entry);
                assert(source@ =~= whole.subrange(k + 1, whole.len() as int));
            }
            let (seen, sender, values) = entry;
            if seen == ordinal {
                if values.len() == width {
                    collected.push((sender, values));
                }
            } else {
                rest.push((seen, sender, values));
            }
            k = k + 1;
        }
        assert(whole.subrange(0, k as int) =~= whole);
        proof {
            lemma_kept(whole, ordinal);
        }
        self.buffered = rest;
        collected
    }

    /// Take in one peer's batch for reveal `seen` while collecting
    /// `ordinal`: a batch from outside the mesh or of the wrong width is
    /// ignored; a batch for `ordinal` counts once per sender; a batch for
    /// a later reveal is buffered once per sender; a batch for an earlier
    /// reveal is stale and ignored.
    pub fn absorb(
        &mut self,
        ordinal: u32,
        width: usize,
        sender: PartyId,
        seen: u32,
        values: Vec<S>,
        collected: &mut Vec<(PartyId, Vec<S>)>,
    )
        requires
            old(self).wf(),
        ensures
            final(self).wf(),
            final(self).parties() == old(self).parties(),
            final(self).threshold() == old(self).threshold(),
            if sender >= old(self).parties() || values@.len() != width {
                final(self).buffered() == old(self).buffered() && final(collected)@ == old(collected)@
            } else if seen == ordinal {
                &&& final(self).buffered() == old(self).buffered()
                &&& final(collected)@ == if has_sender(old(collected)@, sender) {
                    old(collected)@
                } else {
                    old(collected)@.push((sender, values))
                }
            } else if seen > ordinal {
                &&& final(collected)@ == old(collected)@
                &&& final(self).buffered() == if has_buffered(old(self).buffered(), seen, sender) {
                    old(self).buffered()
                } else {
                    old(self).buffered().push((seen, sender, values))
                }
            } else {
                final(self).buffered() == old(self).buffered() && final(collected)@ == old(collected)@
            },
            distinct_senders(old(collected)@) ==> distinct_senders(final(collected)@),
    {
        if sender >= self.parties || values.len() != width {
            return;
        }
        if seen == ordinal {
            if !holds_sender(collected, sender) {
                collected.push((sender, values));
                proof {
                    let after = collected@;
                    if distinct_senders(old(collected)@) {
                        assert forall|i: int, j: int|
                            0 <= i < j < after.len() implies (#[trigger] after[i]).0 != (#[trigger] after[j]).0 by {
                            assert(old(collected)@[i] == after[i]);
                            if j == after.len() - 1 {
                                assert(old(collected)@[i].0 != sender);
                            } else {
                                assert(old(collected)@[j] == after[j]);
                            }
                        }
                    }
                }
            }
        } else if seen > ordinal {
            if !holds_buffered(&self.buffered, seen, sender) {
                self.buffered.push((seen, sender, values));
                proof {
                    let after = self.buffered@;
                    assert forall|i: int, j: int|
                        0 <= i < j < after.len() implies !(#[trigger] after[i].0 == #[trigger] after[j].0
                        && after[i].1 == after[j].1) by {
                        assert(old(self).buffered@[i] == after[i]);
                        if j == after.len() - 1 {
                            assert(!(old(self).buffered@[i].0 == seen && old(self).buffered@[i].1 == sender));
                        } else {
                            assert(old(self).buffered@[j] == after[j]);
                        }
                    }
                }
            }
        }
    }

    /// Whether enough batches are in to try reconstruction: `2t + 1`.
    pub fn recovery_due(&self, collected: usize) -> (due: bool)
        ensures
            due == (collected >= 2 * self.threshold() + 1),
    {
        collected > self.threshold && collected - self.threshold > self.threshold
    }

    /// Whether a failed reconstruction ends the reveal: only once every
    /// party has answered.
    pub fn failure_is_final(&self, collected: usize) -> (fin: bool)
        ensures
            fin == (collected == self.parties()),
    {
        collected == self.parties
    }
}

/// Whether `entries` holds a batch from `sender`.
fn holds_sender<S>(entries: &Vec<(PartyId, Vec<S>)>, sender: PartyId) -> (found: bool)
    ensures
        found == has_sender(entries@, sender),
{
    let mut k: usize = 0;
    while k < entries.len()
        invariant
            k <= entries@.len(),
            forall|j: int| 0 <= j < k ==> (#[trigger] entries@[j]).0 != sender,
        decreases entries@.len() - k,
    {
        if entries[k].0 == sender {
            return true;
        }
        k = k + 1;
    }
    false
}

/// Whether `buffered` holds a batch from `sender` for `ordinal`.
fn holds_buffered<S>(buffered: &Vec<(u32, PartyId, Vec<S>)>, ordinal: u32, sender: PartyId) -> (found: bool)
    ensures
        found == has_buffered(buffered@, ordinal, sender),
{
    let mut k: usize = 0;
    while k < buffered.len()
        invariant
            k <= buffered@.len(),
            forall|j: int| 0 <= j < k ==> !((#[trigger] buffered@[j]).0 == ordinal && buffered@[j].1 == sender),
        decreases buffered@.len() - k,
    {
        if buffered[k].0 == ordinal && buffered[k].1 == sender {
            return true;
        }
        k = k + 1;
    }
    false
}

/// No two collected batches come from one sender.
pub open spec fn distinct_senders<S>(entries: Seq<(PartyId, Vec<S>)>) -> bool {
    forall|i: int, j: int| 0 <= i < j < entries.len() ==> (#[trigger] entries[i]).0 != (#[trigger] entries[j]).0
}

/// Law: a batch buffered for a later reveal, of the width that reveal
/// opens, is handed out when that reveal opens.
pub proof fn lemma_buffered_batch_reaches_its_reveal<S>(
    buffered: Seq<(u32, PartyId, Vec<S>)>,
    seen: u32,
    sender: PartyId,
    values: Vec<S>,
    width: nat,
)
    requires
        values@.len() == width,
    ensures
        taken(buffered.push((seen, sender, values)), seen, width).contains((sender, values)),
        kept(buffered.push((seen, sender, values)), seen) == kept(buffered, seen),
{
    let pushed = buffered.push((seen, sender, values));
    assert(pushed.drop_last() =~= buffered);
    let out = taken(pushed, seen, width);
    assert(out[out.len() - 1] == (sender, values));
}

} // verus!

//! The control-plane decisions of a program submission: which inbound
//! frames carry a submission, what a party answers one, and when the
//! submitting consumer has every party's confirmation.

use crate::vm::codec::{digest, sha3_256, ProgramDigest};
use crate::vm::control::{control_of, ControlMessage, ControlView};
use crate::vm::error::{CodecError, VmError};
use crate::vm::validate::{admitted, ValidProgram};
use vstd::prelude::*;

verus! {

/// The program bytes a control frame from `sender` submits, if any: only
/// consumers (senders past the mesh's parties) submit.
pub fn submission_from(sender: usize, parties: usize, raw: &[u8]) -> (program: Option<Vec<u8>>)
    ensures
        sender < parties ==> program is None,
        sender >= parties ==> match control_of(raw@) {
            Ok(ControlView::Submit { program: bytes }) => program matches Some(p) && p@ == bytes,
            _ => program is None,
        },
{
    if sender < parties {
        return None;
    }
    match ControlMessage::decode(raw) {
        Ok(ControlMessage::Submit { program }) => Some(program),
        _ => None,
    }
}

/// What a party answers submitted `bytes`: the validated program, or why
/// it was refused, and the echo to send back, carrying the digest of the
/// bytes and whether the party accepted.
pub fn answer_submission(bytes: &[u8]) -> (answer: (Result<ValidProgram, VmError>, ControlMessage))
    ensures
        match answer.0 {
            Ok(v) => admitted(bytes@) matches Ok((p, verdict)) && v.describes(p, verdict, bytes@) && v.wf(),
            Err(e) => admitted(bytes@) == Err::<
                (crate::vm::isa::ProgramView, (crate::vm::validate::Budget, Option<crate::vm::isa::FixedPrecision>)),
                VmError,
            >(e),
        },
        answer.1@ == (ControlView::Echo { digest: sha3_256(bytes@), accept: answer.0 is Ok }),
{
    let validated = ValidProgram::from_der(bytes);
    let accept = validated.is_ok();
    (validated, ControlMessage::Echo { digest: digest(bytes), accept })
}

/// Whether two digests hold the same octets.
fn same_digest(a: &ProgramDigest, b: &ProgramDigest) -> (same: bool)
    ensures
        same == (a.0@ == b.0@),
{
    let mut k: usize = 0;
    while k < 32
        invariant
            k <= 32,
            forall|j: int| 0 <= j < k ==> a.0@[j] == b.0@[j],
        decreases 32 - k,
    {
        if a.0[k] != b.0[k] {
            return false;
        }
        k = k + 1;
    }
    assert(a.0@ =~= b.0@);
    true
}

/// The consumer's record of which parties confirmed its submission.
pub struct EchoTally {
    confirmed: Vec<bool>,
}

impl View for EchoTally {
    type V = Seq<bool>;

    closed spec fn view(&self) -> Seq<bool> {
        self.confirmed@
    }
}

/// What one inbound echo frame means for a submission of `expected`.
pub open spec fn echo_verdict(sender: usize, parties: nat, raw: Seq<u8>, expected: Seq<u8>) -> Option<Result<(), VmError>> {
    if sender >= parties {
        None
    } else {
        match control_of(raw) {
            Ok(ControlView::Echo { digest, accept }) => if !accept {
                Some(Err(VmError::Rejected { party: sender }))
            } else if digest != expected {
                Some(Err(VmError::DigestMismatch { party: sender }))
            } else {
                Some(Ok(()))
            },
            _ => None,
        }
    }
}

impl EchoTally {
    /// No party confirmed yet, out of `parties`.
    pub fn new(parties: usize) -> (tally: EchoTally)
        ensures
            tally@ == Seq::new(parties as nat, |i: int| false),
    {
        let mut confirmed: Vec<bool> = Vec::new();
        let mut k: usize = 0;
        while k < parties
            invariant
                k <= parties,
                confirmed@ == Seq::new(k as nat, |i: int| false),
            decreases parties - k,
        {
            confirmed.push(false);
            k = k + 1;
            assert(confirmed@ =~= Seq::new(k as nat, |i: int| false));
        }
        EchoTally { confirmed }
    }

    /// Take in one control frame from `sender`: frames from outside the
    /// mesh and frames that are no echo change nothing; an echo that
    /// refuses, or that names another digest, fails the submission; an
    /// accepting echo of `expected` confirms its sender.
    pub fn observe(&mut self, sender: usize, raw: &[u8], expected: &ProgramDigest) -> (outcome: Result<(), VmError>)
        ensures
            match echo_verdict(sender, old(self)@.len(), raw@, expected.0@) {
                None => outcome is Ok && final(self)@ == old(self)@,
                Some(Err(e)) => outcome == Err::<(), VmError>(e) && final(self)@ == old(self)@,
                Some(Ok(())) => outcome is Ok && final(self)@ == old(self)@.update(sender as int, true),
            },
    {
        if sender >= self.confirmed.len() {
            return Ok(());
        }
        match ControlMessage::decode(raw) {
            Ok(ControlMessage::Echo { digest, accept }) => {
                if !accept {
                    return Err(VmError::Rejected { party: sender });
                }
                if !same_digest(&digest, expected) {
                    return Err(VmError::DigestMismatch { party: sender });
                }
                self.confirmed.set(sender, true);
                Ok(())
            },
            _ => Ok(()),
        }
    }

    /// Whether every party confirmed.
    pub fn complete(&self) -> (all: bool)
        ensures
            all == (forall|i: int| 0 <= i < self@.len() ==> #[trigger] self@[i]),
    {
        let mut k: usize = 0;
        while k < self.confirmed.len()
            invariant
                k <= self.confirmed@.len(),
                forall|j: int| 0 <= j < k ==> #[trigger] self@[j],
            decreases self.confirmed@.len() - k,
        {
            if !self.confirmed[k] {
                assert(!self@[k as int]);
                return false;
            }
            k = k + 1;
        }
        true
    }
}

/// Whether a frame is an echo that confirms `expected`.
pub open spec fn confirms(frame: (usize, Seq<u8>), parties: nat, expected: Seq<u8>) -> bool {
    echo_verdict(frame.0, parties, frame.1, expected) == Some(Ok::<(), VmError>(()))
}

/// Whether a frame is an echo that fails the submission.
pub open spec fn refuses(frame: (usize, Seq<u8>), parties: nat, expected: Seq<u8>) -> bool {
    echo_verdict(frame.0, parties, frame.1, expected) matches Some(Err(_))
}

/// The tally after observing `frames` in order, each a sender and its
/// bytes, from the record `start`: the first echo that fails the
/// submission ends it with its error.
pub open spec fn tally_through(start: Seq<bool>, frames: Seq<(usize, Seq<u8>)>, expected: Seq<u8>) -> Result<
    Seq<bool>,
    VmError,
>
    decreases frames.len(),
{
    if frames.len() == 0 {
        Ok(start)
    } else {
        match tally_through(start, frames.drop_last(), expected) {
            Err(e) => Err(e),
            Ok(t) => match echo_verdict(frames.last().0, t.len(), frames.last().1, expected) {
                None => Ok(t),
                Some(Err(e)) => Err(e),
                Some(Ok(())) => Ok(t.update(frames.last().0 as int, true)),
            },
        }
    }
}

/// The submission law over a whole run of echoes. Observing `frames` one
/// after another from no confirmation out of `parties` ends in an error
/// exactly when some frame fails the submission, and then with the first
/// such frame's error; otherwise party `i` is confirmed exactly when some
/// frame from it confirms the digest, so the submission is complete only
/// once every party confirmed.
pub proof fn lemma_tally_through(parties: nat, frames: Seq<(usize, Seq<u8>)>, expected: Seq<u8>)
    ensures
        match tally_through(Seq::new(parties, |i: int| false), frames, expected) {
            Ok(t) => {
                &&& t.len() == parties
                &&& forall|k: int| 0 <= k < frames.len() ==> !refuses(#[trigger] frames[k], parties, expected)
                &&& forall|i: int|
                    0 <= i < parties ==> (#[trigger] t[i] <==> exists|k: int|
                        0 <= k < frames.len() && frames[k].0 == i && confirms(#[trigger] frames[k], parties, expected))
            },
            Err(e) => exists|k: int|
                0 <= k < frames.len() && echo_verdict(frames[k].0, parties, frames[k].1, expected) == Some(
                    Err::<(), VmError>(e),
                ) && forall|j: int| 0 <= j < k ==> !refuses(#[trigger] frames[j], parties, expected),
        },
    decreases frames.len(),
{
    let start = Seq::new(parties, |i: int| false);
    if frames.len() > 0 {
        let pre = frames.drop_last();
        let n = frames.len() - 1;
        let last = frames.last();
        lemma_tally_through(parties, pre, expected);
        assert(forall|k: int| 0 <= k < n ==> frames[k] == pre[k]);
        assert(frames[n] == last);
        match tally_through(start, pre, expected) {
            Err(e) => {
                let k = choose|k: int|
                    0 <= k < pre.len() && echo_verdict(pre[k].0, parties, pre[k].1, expected) == Some(
                        Err::<(), VmError>(e),
                    ) && forall|j: int| 0 <= j < k ==> !refuses(#[trigger] pre[j], parties, expected);
                assert(frames[k] == pre[k]);
                assert forall|j: int| 0 <= j < k implies !refuses(#[trigger] frames[j], parties, expected) by {
                    assert(frames[j] == pre[j]);
                }
            },
            Ok(t) => {
                match echo_verdict(last.0, t.len(), last.1, expected) {
                    None => {
                        assert forall|k: int| 0 <= k < frames.len() implies !refuses(
                            #[trigger] frames[k],
                            parties,
                            expected,
                        ) by {
                            if k < n {
                                assert(frames[k] == pre[k]);
                            }
                        }
                        assert forall|i: int| 0 <= i < parties implies (#[trigger] t[i] <==> exists|k: int|
                            0 <= k < frames.len() && frames[k].0 == i && confirms(
                                #[trigger] frames[k],
                                parties,
                                expected,
                            )) by {
                            if t[i] {
                                let k = choose|k: int|
                                    0 <= k < pre.len() && pre[k].0 == i && confirms(#[trigger] pre[k], parties, expected);
                                assert(frames[k] == pre[k]);
                            }
                            if exists|k: int|
                                0 <= k < frames.len() && frames[k].0 == i && confirms(
                                    #[trigger] frames[k],
                                    parties,
                                    expected,
                                ) {
                                let k = choose|k: int|
                                    0 <= k < frames.len() && frames[k].0 == i && confirms(
                                        #[trigger] frames[k],
                                        parties,
                                        expected,
                                    );
                                if k < n {
                                    assert(frames[k] == pre[k]);
                                } else {
                                    assert(!confirms(frames[k], parties, expected));
                                }
                            }
                        }
                    },
                    Some(Err(e)) => {
                        assert(refuses(frames[n], parties, expected));
                        assert forall|j: int| 0 <= j < n implies !refuses(#[trigger] frames[j], parties, expected) by {
                            assert(frames[j] == pre[j]);
                        }
                    },
                    Some(Ok(())) => {
                        let u = t.update(last.0 as int, true);
                        assert(confirms(frames[n], parties, expected));
                        assert(last.0 < parties);
                        assert forall|k: int| 0 <= k < frames.len() implies !refuses(
                            #[trigger] frames[k],
                            parties,
                            expected,
                        ) by {
                            if k < n {
                                assert(frames[k] == pre[k]);
                            }
                        }
                        assert forall|i: int| 0 <= i < parties implies (#[trigger] u[i] <==> exists|k: int|
                            0 <= k < frames.len() && frames[k].0 == i && confirms(
                                #[trigger] frames[k],
                                parties,
                                expected,
                            )) by {
                            if i == last.0 {
                                assert(frames[n].0 == i && confirms(frames[n], parties, expected));
                            } else {
                                assert(u[i] == t[i]);
                                if t[i] {
                                    let k = choose|k: int|
                                        0 <= k < pre.len() && pre[k].0 == i && confirms(
                                            #[trigger] pre[k],
                                            parties,
                                            expected,
                                        );
                                    assert(frames[k] == pre[k]);
                                }
                                if exists|k: int|
                                    0 <= k < frames.len() && frames[k].0 == i && confirms(
                                        #[trigger] frames[k],
                                        parties,
                                        expected,
                                    ) {
                                    let k = choose|k: int|
                                        0 <= k < frames.len() && frames[k].0 == i && confirms(
                                            #[trigger] frames[k],
                                            parties,
                                            expected,
                                        );
                                    assert(k < n);
                                    assert(frames[k] == pre[k]);
                                }
                            }
                        }
                    },
                }
            },
        }
    } else {
        assert(tally_through(start, frames, expected) == Ok::<Seq<bool>, VmError>(start));
    }
}

} // verus!

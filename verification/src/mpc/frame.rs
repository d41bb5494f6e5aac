//! MPC payload framing: opaque protocol bytes inside a frame body.
//!
//! The engine's messages are already self-describing, so the body carries
//! them untouched inside an `OCTET STRING`. A lane discriminant separates
//! engine traffic from control traffic so higher layers never have to
//! sniff payload contents. The body is the DER `SEQUENCE` of the lane
//! octet (an `INTEGER`) and the payload (an `OCTET STRING`).

use crate::mpc::error::Error;
use crate::vm::control::{envelope, envelope_content, lemma_envelope_canonical, lemma_envelope_round_trip, open_envelope, parse_envelope};
use crate::vm::der::{tlv, MAX_LEN, TAG_SEQUENCE};
use vstd::prelude::*;

verus! {

/// Which local consumer an inbound payload belongs to.
#[derive(Clone, Copy, Debug, PartialEq, Eq, Structural)]
pub enum Lane {
    /// MPC engine traffic.
    Engine,
    /// Control-plane traffic: program submission, digest exchange,
    /// reveal share exchange.
    Control,
}

impl Lane {
    /// The lane's discriminant octet.
    pub open spec fn octet(self) -> u8 {
        match self {
            Lane::Engine => 0,
            Lane::Control => 1,
        }
    }

    /// The lane a discriminant octet names, if any.
    pub open spec fn of_octet(octet: u8) -> Option<Lane> {
        if octet == 0 {
            Some(Lane::Engine)
        } else if octet == 1 {
            Some(Lane::Control)
        } else {
            None
        }
    }

    /// The lane's discriminant octet.
    pub fn to_u8(self) -> (octet: u8)
        ensures
            octet == self.octet(),
    {
        match self {
            Lane::Engine => 0,
            Lane::Control => 1,
        }
    }

    /// The lane a discriminant octet names.
    ///
    /// # Errors
    ///
    /// [`Error::UnknownLane`] for any octet but `0` and `1`.
    pub fn try_from(value: u8) -> (lane: Result<Lane, Error>)
        ensures
            match Lane::of_octet(value) {
                Some(l) => lane == Ok::<Lane, Error>(l),
                None => lane == Err::<Lane, Error>(Error::UnknownLane { lane: value }),
            },
    {
        match value {
            0 => Ok(Lane::Engine),
            1 => Ok(Lane::Control),
            _ => Err(Error::UnknownLane { lane: value }),
        }
    }
}

impl From<Lane> for u8 {
    fn from(lane: Lane) -> (octet: u8)
        ensures
            octet == lane.octet(),
    {
        lane.to_u8()
    }
}

impl vstd::std_specs::convert::FromSpecImpl<Lane> for u8 {
    open spec fn obeys_from_spec() -> bool {
        true
    }

    open spec fn from_spec(lane: Lane) -> u8 {
        lane.octet()
    }
}

/// The body bytes for `payload` on `lane`.
pub open spec fn body_bytes(lane: Lane, payload: Seq<u8>) -> Seq<u8> {
    tlv(TAG_SEQUENCE, envelope_content(lane.octet(), payload))
}

/// Whether every length in the body fits a DER length.
pub open spec fn body_fits(lane: Lane, payload: Seq<u8>) -> bool {
    payload.len() <= MAX_LEN && envelope_content(lane.octet(), payload).len() <= MAX_LEN
}

/// The lane and payload body bytes carry, when they are a well-formed
/// body on a known lane.
pub open spec fn opened(body: Seq<u8>) -> Option<(Lane, Seq<u8>)> {
    match parse_envelope(body) {
        Some((octet, payload)) => match Lane::of_octet(octet) {
            Some(lane) => Some((lane, payload)),
            None => None,
        },
        None => None,
    }
}

/// The cause text of a body that is not a lane and an octet string.
pub const MALFORMED_BODY: &'static str = "the frame body is not a lane octet and an octet string";

/// The cause text of a payload too long for a DER length.
pub const OVERLONG_PAYLOAD: &'static str = "the payload outgrows a DER length";

/// Assemble the frame body around `payload` on `lane`.
///
/// # Errors
///
/// [`Error::Beam`] when the payload outgrows a DER length.
pub fn build_body(lane: Lane, payload: &[u8]) -> (body: Result<Vec<u8>, Error>)
    ensures
        body_fits(lane, payload@) ==> (body matches Ok(bytes) && bytes@ == body_bytes(lane, payload@)),
        !body_fits(lane, payload@) ==> (body matches Err(Error::Beam(cause)) && cause@ == OVERLONG_PAYLOAD@),
{
    match envelope(lane.to_u8(), vstd::slice::slice_to_vec(payload)) {
        Ok(bytes) => Ok(bytes),
        Err(_) => Err(Error::Beam(OVERLONG_PAYLOAD.to_owned())),
    }
}

/// Lift the lane and payload back out of a frame body.
///
/// # Errors
///
/// - [`Error::UnknownLane`]: the lane octet names no lane.
/// - [`Error::Beam`]: the body is not a lane octet and an octet string.
pub fn open_body(body: &[u8]) -> (lifted: Result<(Lane, Vec<u8>), Error>)
    ensures
        match opened(body@) {
            Some((lane, payload)) => (lifted matches Ok((l, p)) && l == lane && p@ == payload),
            None => lifted is Err,
        },
        parse_envelope(body@) matches Some((octet, _)) ==> (Lane::of_octet(octet) is None ==> lifted
            == Err::<(Lane, Vec<u8>), Error>(Error::UnknownLane { lane: octet })),
        parse_envelope(body@) is None ==> (lifted matches Err(Error::Beam(cause)) && cause@ == MALFORMED_BODY@),
{
    match open_envelope(body) {
        Some((octet, payload)) => match Lane::try_from(octet) {
            Ok(lane) => Ok((lane, payload)),
            Err(e) => Err(e),
        },
        None => Err(Error::Beam(MALFORMED_BODY.to_owned())),
    }
}

/// Bodies round trip: opening the body built for a payload gives back its
/// lane and payload.
pub proof fn lemma_body_round_trip(lane: Lane, payload: Seq<u8>)
    requires
        body_fits(lane, payload),
    ensures
        opened(body_bytes(lane, payload)) == Some((lane, payload)),
{
    lemma_envelope_round_trip(lane.octet(), payload);
}

/// Bodies are canonical: whatever opens is exactly the body built for the
/// lane and payload it gives.
pub proof fn lemma_body_canonical(body: Seq<u8>)
    requires
        opened(body) is Some,
    ensures
        body == body_bytes(opened(body)->Some_0.0, opened(body)->Some_0.1),
{
    lemma_envelope_canonical(body);
}

} // verus!

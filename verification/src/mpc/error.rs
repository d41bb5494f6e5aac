//! Typed failures for the MPC network adapter.
//!
//! Everything inside the adapter speaks [`Error`]; the engine boundary
//! flattens it into the small [`NetworkFault`] space the protocol already
//! handles, while operators keep the full cause.

use crate::text::{decimal, push_decimal, push_str};
use vstd::prelude::*;

verus! {

/// A party's index in the roster, doubling as its share-evaluation index.
pub type PartyId = usize;

/// An authorized consumer's id, outside the party id space.
pub type ClientId = usize;

/// Why a [`Roster`](crate::mpc::roster::Roster) refused to assemble.
#[derive(Debug, Clone, Copy, PartialEq, Eq, Structural)]
pub enum RosterError {
    /// A roster needs at least one party.
    Empty,
    /// Party ids must be dense `0..n` so they double as share indices.
    NonContiguousIds {
        /// The id the dense ordering required at this position.
        expected: PartyId,
        /// The id actually found.
        found: PartyId,
    },
    /// The local identity names a party the roster does not contain.
    LocalPartyMissing {
        /// The missing party id.
        id: PartyId,
    },
    /// The local identity certificate differs from the roster entry.
    CertificateMismatch {
        /// The party whose roster certificate disagrees.
        id: PartyId,
    },
    /// A client id collides with a party id or another client.
    ClientIdTaken {
        /// The colliding client id.
        id: ClientId,
    },
    /// A client certificate duplicates a party or client certificate,
    /// which would make link attribution ambiguous.
    AmbiguousCertificate {
        /// The client presenting the duplicate certificate.
        id: ClientId,
    },
    /// The local identity names a client the roster does not authorize.
    UnknownClient {
        /// The unauthorized client id.
        id: ClientId,
    },
}

/// The message of a roster refusal.
pub open spec fn roster_text(e: RosterError) -> Seq<char> {
    match e {
        RosterError::Empty => "the roster is empty"@,
        RosterError::NonContiguousIds { expected, found } => "party ids must be dense: expected "@ + decimal(
            expected as nat,
        ) + ", found "@ + decimal(found as nat),
        RosterError::LocalPartyMissing { id } => "the local party "@ + decimal(id as nat)
            + " is not in the roster"@,
        RosterError::CertificateMismatch { id } => "the local certificate does not match the roster entry for party "@
            + decimal(id as nat),
        RosterError::ClientIdTaken { id } => "client id "@ + decimal(id as nat)
            + " collides with a party or another client"@,
        RosterError::AmbiguousCertificate { id } => "the certificate for client "@ + decimal(id as nat)
            + " duplicates another roster certificate"@,
        RosterError::UnknownClient { id } => "client "@ + decimal(id as nat) + " is not authorized by the roster"@,
    }
}

impl RosterError {
    fn push_text(&self, text: &mut String)
        ensures
            final(text)@ == old(text)@ + roster_text(*self),
    {
        let ghost start = text@;
        match *self {
            RosterError::Empty => push_str(text, "the roster is empty"),
            RosterError::NonContiguousIds { expected, found } => {
                push_str(text, "party ids must be dense: expected ");
                push_decimal(text, expected as u64);
                push_str(text, ", found ");
                push_decimal(text, found as u64);
            },
            RosterError::LocalPartyMissing { id } => {
                push_str(text, "the local party ");
                push_decimal(text, id as u64);
                push_str(text, " is not in the roster");
            },
            RosterError::CertificateMismatch { id } => {
                push_str(text, "the local certificate does not match the roster entry for party ");
                push_decimal(text, id as u64);
            },
            RosterError::ClientIdTaken { id } => {
                push_str(text, "client id ");
                push_decimal(text, id as u64);
                push_str(text, " collides with a party or another client");
            },
            RosterError::AmbiguousCertificate { id } => {
                push_str(text, "the certificate for client ");
                push_decimal(text, id as u64);
                push_str(text, " duplicates another roster certificate");
            },
            RosterError::UnknownClient { id } => {
                push_str(text, "client ");
                push_decimal(text, id as u64);
                push_str(text, " is not authorized by the roster");
            },
        }
        assert(text@ =~= start + roster_text(*self));
    }

    /// The refusal as diagnostics print it.
    pub fn to_string(&self) -> (text: String)
        ensures
            text@ == roster_text(*self),
    {
        let mut text = String::new();
        self.push_text(&mut text);
        assert(text@ =~= roster_text(*self));
        text
    }
}

/// Why an adapter operation failed.
#[derive(Debug, Clone, PartialEq, Eq)]
pub enum Error {
    /// The roster refused to assemble.
    Roster(RosterError),
    /// A transport, handshake or frame codec operation failed; the cause's
    /// text is kept.
    Beam(String),
    /// The peer never completed the handshake.
    HandshakeIncomplete {
        /// The party the link was for, when the dialer knows it.
        peer: Option<PartyId>,
    },
    /// The handshake completed without negotiating multiplexing.
    MuxNotNegotiated {
        /// The party the link was for, when the dialer knows it.
        peer: Option<PartyId>,
    },
    /// An accepted connection authenticated with a certificate outside
    /// the roster, or presented none.
    UnknownPeerCertificate,
    /// A roster member dialed against the deterministic dial rule.
    UnexpectedDialer {
        /// The party that dialed.
        peer: PartyId,
    },
    /// The mesh missed peers within the establishment deadline.
    MeshIncomplete {
        /// Links established so far.
        connected: usize,
        /// Links the full mesh needs.
        expected: usize,
    },
    /// No live link to the party and re-dialing did not restore one.
    LinkUnavailable {
        /// The unreachable party.
        peer: PartyId,
    },
    /// The party id is outside the roster.
    PartyNotFound {
        /// The unknown party id.
        peer: PartyId,
    },
    /// No live link to the client: it never connected, or its link died
    /// and only the client can restore it by dialing back in.
    ClientNotConnected {
        /// The unreachable client.
        client: ClientId,
    },
    /// Not every expected consumer held a live link before the deadline.
    ClientsNotReady {
        /// How many of the expected clients were connected.
        connected: usize,
        /// How many clients the caller required.
        expected: usize,
    },
    /// The inbox receiver was dropped; delivered messages have nowhere to go.
    InboxClosed,
    /// A frame carried a lane discriminant this build does not know.
    UnknownLane {
        /// The unrecognized lane octet.
        lane: u8,
    },
}

/// The message of an adapter failure.
pub open spec fn error_text(e: Error) -> Seq<char> {
    match e {
        Error::Roster(cause) => "the roster refused to assemble: "@ + roster_text(cause),
        Error::Beam(cause) => "the tightbeam operation failed: "@ + cause@,
        Error::HandshakeIncomplete { peer } => match peer {
            Some(p) => "the handshake with party "@ + decimal(p as nat) + " never completed"@,
            None => "the handshake with an accepted connection never completed"@,
        },
        Error::MuxNotNegotiated { peer } => match peer {
            Some(p) => "the link to party "@ + decimal(p as nat) + " did not negotiate multiplexing"@,
            None => "an accepted link did not negotiate multiplexing"@,
        },
        Error::UnknownPeerCertificate => "the peer certificate does not belong to any roster party"@,
        Error::UnexpectedDialer { peer } => "party "@ + decimal(peer as nat) + " dialed against the dial rule"@,
        Error::MeshIncomplete { connected, expected } => "the mesh established "@ + decimal(connected as nat)
            + " of "@ + decimal(expected as nat) + " links before the deadline"@,
        Error::LinkUnavailable { peer } => "no live link to party "@ + decimal(peer as nat),
        Error::PartyNotFound { peer } => "party "@ + decimal(peer as nat) + " is not in the roster"@,
        Error::ClientNotConnected { client } => "no live link to client "@ + decimal(client as nat),
        Error::ClientsNotReady { connected, expected } => "only "@ + decimal(connected as nat) + " of "@
            + decimal(expected as nat) + " clients connected before the deadline"@,
        Error::InboxClosed => "the inbox receiver is gone"@,
        Error::UnknownLane { lane } => "unknown frame lane "@ + decimal(lane as nat),
    }
}

impl Error {
    /// The failure as diagnostics print it.
    pub fn to_string(&self) -> (text: String)
        ensures
            text@ == error_text(*self),
    {
        let mut text = String::new();
        match self {
            Error::Roster(cause) => {
                push_str(&mut text, "the roster refused to assemble: ");
                cause.push_text(&mut text);
            },
            Error::Beam(cause) => {
                push_str(&mut text, "the tightbeam operation failed: ");
                push_str(&mut text, cause.as_str());
            },
            Error::HandshakeIncomplete { peer } => match peer {
                Some(p) => {
                    push_str(&mut text, "the handshake with party ");
                    push_decimal(&mut text, *p as u64);
                    push_str(&mut text, " never completed");
                },
                None => push_str(&mut text, "the handshake with an accepted connection never completed"),
            },
            Error::MuxNotNegotiated { peer } => match peer {
                Some(p) => {
                    push_str(&mut text, "the link to party ");
                    push_decimal(&mut text, *p as u64);
                    push_str(&mut text, " did not negotiate multiplexing");
                },
                None => push_str(&mut text, "an accepted link did not negotiate multiplexing"),
            },
            Error::UnknownPeerCertificate => push_str(
                &mut text,
                "the peer certificate does not belong to any roster party",
            ),
            Error::UnexpectedDialer { peer } => {
                push_str(&mut text, "party ");
                push_decimal(&mut text, *peer as u64);
                push_str(&mut text, " dialed against the dial rule");
            },
            Error::MeshIncomplete { connected, expected } => {
                push_str(&mut text, "the mesh established ");
                push_decimal(&mut text, *connected as u64);
                push_str(&mut text, " of ");
                push_decimal(&mut text, *expected as u64);
                push_str(&mut text, " links before the deadline");
            },
            Error::LinkUnavailable { peer } => {
                push_str(&mut text, "no live link to party ");
                push_decimal(&mut text, *peer as u64);
            },
            Error::PartyNotFound { peer } => {
                push_str(&mut text, "party ");
                push_decimal(&mut text, *peer as u64);
                push_str(&mut text, " is not in the roster");
            },
            Error::ClientNotConnected { client } => {
                push_str(&mut text, "no live link to client ");
                push_decimal(&mut text, *client as u64);
            },
            Error::ClientsNotReady { connected, expected } => {
                push_str(&mut text, "only ");
                push_decimal(&mut text, *connected as u64);
                push_str(&mut text, " of ");
                push_decimal(&mut text, *expected as u64);
                push_str(&mut text, " clients connected before the deadline");
            },
            Error::InboxClosed => push_str(&mut text, "the inbox receiver is gone"),
            Error::UnknownLane { lane } => {
                push_str(&mut text, "unknown frame lane ");
                push_decimal(&mut text, *lane as u64);
            },
        }
        assert(text@ =~= error_text(*self));
        text
    }

    /// The roster refusal behind this failure, if it is one.
    pub fn roster_cause(&self) -> (cause: Option<RosterError>)
        ensures
            cause == match *self {
                Error::Roster(c) => Some(c),
                _ => None,
            },
    {
        match self {
            Error::Roster(cause) => Some(*cause),
            _ => None,
        }
    }
}

impl From<RosterError> for Error {
    fn from(cause: RosterError) -> (error: Error)
        ensures
            error == Error::Roster(cause),
    {
        Error::Roster(cause)
    }
}

impl vstd::std_specs::convert::FromSpecImpl<RosterError> for Error {
    open spec fn obeys_from_spec() -> bool {
        true
    }

    open spec fn from_spec(cause: RosterError) -> Error {
        Error::Roster(cause)
    }
}

/// The failure space the MPC engine handles.
#[derive(Debug, Clone, Copy, PartialEq, Eq, Structural)]
pub enum NetworkFault {
    /// The named party is unknown.
    PartyNotFound(PartyId),
    /// The named client is unreachable.
    ClientNotFound(ClientId),
    /// A deadline passed.
    Timeout,
    /// A message could not be sent; retryable.
    SendError,
}

/// The engine-side fault an adapter failure flattens into: identity and
/// delivery failures collapse to the retryable send error, only
/// addressing errors keep their id, and deadlines become timeouts.
pub open spec fn fault_of(cause: Error) -> NetworkFault {
    match cause {
        Error::PartyNotFound { peer } => NetworkFault::PartyNotFound(peer),
        Error::ClientNotConnected { client } => NetworkFault::ClientNotFound(client),
        Error::MeshIncomplete { .. } => NetworkFault::Timeout,
        Error::ClientsNotReady { .. } => NetworkFault::Timeout,
        _ => NetworkFault::SendError,
    }
}

impl From<Error> for NetworkFault {
    fn from(cause: Error) -> (fault: NetworkFault)
        ensures
            fault == fault_of(cause),
    {
        match cause {
            Error::PartyNotFound { peer } => NetworkFault::PartyNotFound(peer),
            Error::ClientNotConnected { client } => NetworkFault::ClientNotFound(client),
            Error::MeshIncomplete { .. } => NetworkFault::Timeout,
            Error::ClientsNotReady { .. } => NetworkFault::Timeout,
            _ => NetworkFault::SendError,
        }
    }
}

impl vstd::std_specs::convert::FromSpecImpl<Error> for NetworkFault {
    open spec fn obeys_from_spec() -> bool {
        true
    }

    open spec fn from_spec(cause: Error) -> NetworkFault {
        fault_of(cause)
    }
}

} // verus!

//! Update-frame bodies and ids.
//!
//! The registry alone stamps a frame's id (the topic, or `end/<topic>`
//! for completion) and order (the dense per-topic sequence). The body is
//! the DER `SEQUENCE` of one `OCTET STRING`, so subscribers reuse
//! ordinary codecs.

use crate::pubsub::topic::{Topic, END_PREFIX};
use crate::text::push_str;
use crate::vm::der::{enc_octets, lemma_parse_octets, lemma_parse_tlv_sound, parse_octets, read_octets, copy_range, tlv, wrap, MAX_LEN, TAG_OCTET_STRING, TAG_SEQUENCE};
use crate::vm::error::DerError;
use crate::vm::wire::{lemma_parse_seq, lemma_parse_seq_sound, parse_seq, read_seq};
use vstd::prelude::*;

verus! {

/// The body bytes that carry `payload`.
pub open spec fn opaque_bytes(payload: Seq<u8>) -> Seq<u8> {
    tlv(TAG_SEQUENCE, enc_octets(payload))
}

/// Whether every length in the body fits a DER length.
pub open spec fn opaque_fits(payload: Seq<u8>) -> bool {
    payload.len() <= MAX_LEN && enc_octets(payload).len() <= MAX_LEN
}

/// The payload body bytes carry, when they are one `OCTET STRING` inside
/// a `SEQUENCE` and nothing more.
pub open spec fn opaque_of(body: Seq<u8>) -> Option<Seq<u8>> {
    match parse_seq(body) {
        Some((c, end)) => if end == body.len() {
            match parse_octets(c) {
                Some((payload, n)) => if n == c.len() {
                    Some(payload)
                } else {
                    None
                },
                None => None,
            }
        } else {
            None
        },
        None => None,
    }
}

/// Wrap application octets into an update body.
///
/// # Errors
///
/// [`DerError::Overlength`] when the payload outgrows a DER length.
pub fn opaque_body(payload: &[u8]) -> (body: Result<Vec<u8>, DerError>)
    ensures
        opaque_fits(payload@) ==> (body matches Ok(bytes) && bytes@ == opaque_bytes(payload@)),
        !opaque_fits(payload@) ==> body == Err::<Vec<u8>, DerError>(DerError::Overlength),
{
    let octets = wrap(TAG_OCTET_STRING, vstd::slice::slice_to_vec(payload))?;
    wrap(TAG_SEQUENCE, octets)
}

/// Recover application octets from an update body: the inverse of
/// [`opaque_body`], and what a relay applies to client-built `pub/<topic>`
/// frames to lift their payload.
///
/// # Errors
///
/// [`DerError::Malformed`] when the body is not one `OCTET STRING`
/// inside a `SEQUENCE`.
pub fn opaque_payload(body: &[u8]) -> (payload: Result<Vec<u8>, DerError>)
    ensures
        match opaque_of(body@) {
            Some(p) => (payload matches Ok(bytes) && bytes@ == p),
            None => payload == Err::<Vec<u8>, DerError>(DerError::Malformed),
        },
{
    let len = body.len();
    assert(body@.subrange(0, len as int) =~= body@);
    let (cs, ce) = match read_seq(body, 0, len) {
        Some(found) => found,
        None => return Err(DerError::Malformed),
    };
    if ce != len {
        return Err(DerError::Malformed);
    }
    let (ps, pe) = match read_octets(body, cs, ce) {
        Some(found) => found,
        None => return Err(DerError::Malformed),
    };
    if pe != ce {
        return Err(DerError::Malformed);
    }
    Ok(copy_range(body, ps, pe))
}

/// Bodies round trip: lifting the body wrapped around a payload gives the
/// payload back.
pub proof fn lemma_opaque_round_trip(payload: Seq<u8>)
    requires
        opaque_fits(payload),
    ensures
        opaque_of(opaque_bytes(payload)) == Some(payload),
{
    let c = enc_octets(payload);
    let empty = Seq::<u8>::empty();
    lemma_parse_seq(c, empty);
    assert(opaque_bytes(payload) + empty =~= opaque_bytes(payload));
    lemma_parse_octets(payload, empty);
    assert(c + empty =~= c);
}

/// Bodies are canonical: whatever lifts is exactly the body wrapped
/// around the payload it gives.
pub proof fn lemma_opaque_canonical(body: Seq<u8>)
    requires
        opaque_of(body) is Some,
    ensures
        body == opaque_bytes(opaque_of(body)->Some_0),
{
    let (c, end) = parse_seq(body).unwrap();
    lemma_parse_seq_sound(body);
    assert(body.take(end as int) =~= body);
    lemma_parse_tlv_sound(c);
    let (_, n) = parse_octets(c).unwrap();
    assert(c.take(n as int) =~= c);
}

/// The frame id that completes `topic`: `end/<topic>`.
pub fn end_id(topic: &Topic) -> (id: String)
    ensures
        id@ == END_PREFIX@ + topic@,
{
    let mut id = END_PREFIX.to_owned();
    push_str(&mut id, topic.as_str());
    id
}

} // verus!

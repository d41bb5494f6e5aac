//! Control-lane message codec: program submission, digest echoes, and
//! reveal share exchange.
//!
//! Every message rides the tightbeam control lane as
//! `SEQUENCE { kind, body }`; the body is itself DER, interpreted per
//! kind. Sender attribution comes from the authenticated link, so no
//! identity travels in the message.

use crate::vm::codec::ProgramDigest;
use crate::vm::der::{
    copy_range, enc_bool, enc_octets, enc_uint, lemma_parse_bool, lemma_parse_octets,
    lemma_parse_tlv_sound, lemma_parse_uint, lemma_parse_uint_sound, lemma_pow256_u64, parse_bool,
    parse_octets, parse_uint, push_bool,
    push_uint, read_bool, read_octets, read_uint, tlv, wrap, MAX_LEN, TAG_OCTET_STRING,
    TAG_SEQUENCE,
};
use crate::vm::error::{CodecError, DerError};
use crate::vm::wire::{lemma_parse_seq, lemma_parse_seq_sound, parse_seq, read_seq};
use vstd::prelude::*;

verus! {

/// Digest octet width: SHA3-256.
pub const DIGEST_LEN: usize = 32;

/// Wire kind octet of a program submission.
pub const KIND_SUBMIT: u8 = 1;

/// Wire kind octet of a digest echo.
pub const KIND_ECHO: u8 = 2;

/// Wire kind octet of a reveal share exchange.
pub const KIND_REVEAL: u8 = 3;

/// One control-lane message.
#[derive(Clone, Debug, PartialEq, Eq)]
pub enum ControlMessage {
    /// Consumer to party: the DER bytes of a program to execute.
    Submit {
        /// The program's canonical DER bytes.
        program: Vec<u8>,
    },
    /// Party to consumer: the digest the party derived, and whether it
    /// validated and will execute.
    Echo {
        /// SHA3-256 the party computed over the received bytes.
        digest: ProgramDigest,
        /// Whether the party accepted the program.
        accept: bool,
    },
    /// Party to party: shares opened for one `Reveal` instruction.
    Reveal {
        /// The reveal's program-order ordinal.
        ordinal: u32,
        /// Compressed serialization of the share values.
        payload: Vec<u8>,
    },
}

/// The model of a [`ControlMessage`].
pub enum ControlView {
    Submit { program: Seq<u8> },
    Echo { digest: Seq<u8>, accept: bool },
    Reveal { ordinal: u32, payload: Seq<u8> },
}

impl View for ControlMessage {
    type V = ControlView;

    open spec fn view(&self) -> ControlView {
        match self {
            ControlMessage::Submit { program } => ControlView::Submit { program: program@ },
            ControlMessage::Echo { digest, accept } => ControlView::Echo {
                digest: digest.0@,
                accept: *accept,
            },
            ControlMessage::Reveal { ordinal, payload } => ControlView::Reveal {
                ordinal: *ordinal,
                payload: payload@,
            },
        }
    }
}

/// The kind octet a message travels under.
pub open spec fn kind_of(m: ControlView) -> u8 {
    match m {
        ControlView::Submit { .. } => KIND_SUBMIT,
        ControlView::Echo { .. } => KIND_ECHO,
        ControlView::Reveal { .. } => KIND_REVEAL,
    }
}

/// The content of an echo body: the digest octets and the verdict.
pub open spec fn echo_content(digest: Seq<u8>, accept: bool) -> Seq<u8> {
    enc_octets(digest) + enc_bool(accept)
}

/// The content of a reveal body: the ordinal and the payload octets.
pub open spec fn reveal_content(ordinal: u32, payload: Seq<u8>) -> Seq<u8> {
    enc_uint(ordinal as nat) + enc_octets(payload)
}

/// The kind-specific body of a message.
pub open spec fn body_of(m: ControlView) -> Seq<u8> {
    match m {
        ControlView::Submit { program } => program,
        ControlView::Echo { digest, accept } => tlv(TAG_SEQUENCE, echo_content(digest, accept)),
        ControlView::Reveal { ordinal, payload } => tlv(
            TAG_SEQUENCE,
            reveal_content(ordinal, payload),
        ),
    }
}

/// The content of the envelope around a body.
pub open spec fn envelope_content(kind: u8, body: Seq<u8>) -> Seq<u8> {
    enc_uint(kind as nat) + enc_octets(body)
}

/// Whether every length in a message's encoding fits a DER length.
pub open spec fn control_fits(m: ControlView) -> bool {
    &&& match m {
        ControlView::Submit { .. } => true,
        ControlView::Echo { digest, accept } => digest.len() <= MAX_LEN && echo_content(
            digest,
            accept,
        ).len() <= MAX_LEN,
        ControlView::Reveal { ordinal, payload } => payload.len() <= MAX_LEN && reveal_content(
            ordinal,
            payload,
        ).len() <= MAX_LEN,
    }
    &&& body_of(m).len() <= MAX_LEN
    &&& envelope_content(kind_of(m), body_of(m)).len() <= MAX_LEN
}

/// What serializing a message gives: its control-lane bytes, unless a
/// length outgrows DER.
pub open spec fn control_encoding(m: ControlView) -> Result<Seq<u8>, CodecError> {
    if control_fits(m) {
        Ok(tlv(TAG_SEQUENCE, envelope_content(kind_of(m), body_of(m))))
    } else {
        Err(CodecError::Der(DerError::Overlength))
    }
}

/// Read a whole envelope: its kind octet and body.
pub open spec fn parse_envelope(s: Seq<u8>) -> Option<(u8, Seq<u8>)> {
    match parse_seq(s) {
        Some((c, end)) => if end == s.len() {
            match parse_uint(c, u8::MAX as nat) {
                Some((kind, n1)) => match parse_octets(c.skip(n1 as int)) {
                    Some((body, n2)) => if n1 + n2 == c.len() {
                        Some((kind as u8, body))
                    } else {
                        None
                    },
                    None => None,
                },
                None => None,
            }
        } else {
            None
        },
        None => None,
    }
}

/// Read a whole echo body: the digest octets and the verdict.
pub open spec fn parse_echo(s: Seq<u8>) -> Option<(Seq<u8>, bool)> {
    match parse_seq(s) {
        Some((c, end)) => if end == s.len() {
            match parse_octets(c) {
                Some((digest, n1)) => match parse_bool(c.skip(n1 as int)) {
                    Some((accept, n2)) => if n1 + n2 == c.len() {
                        Some((digest, accept))
                    } else {
                        None
                    },
                    None => None,
                },
                None => None,
            }
        } else {
            None
        },
        None => None,
    }
}

/// Read a whole reveal body: the ordinal and the payload octets.
pub open spec fn parse_reveal(s: Seq<u8>) -> Option<(u32, Seq<u8>)> {
    match parse_seq(s) {
        Some((c, end)) => if end == s.len() {
            match parse_uint(c, u32::MAX as nat) {
                Some((ordinal, n1)) => match parse_octets(c.skip(n1 as int)) {
                    Some((payload, n2)) => if n1 + n2 == c.len() {
                        Some((ordinal as u32, payload))
                    } else {
                        None
                    },
                    None => None,
                },
                None => None,
            }
        } else {
            None
        },
        None => None,
    }
}

/// What parsing control-lane bytes gives: the message, or why it was
/// refused.
pub open spec fn control_of(bytes: Seq<u8>) -> Result<ControlView, CodecError> {
    match parse_envelope(bytes) {
        None => Err(CodecError::Der(DerError::Malformed)),
        Some((kind, body)) => if kind == KIND_SUBMIT {
            Ok(ControlView::Submit { program: body })
        } else if kind == KIND_ECHO {
            match parse_echo(body) {
                None => Err(CodecError::Der(DerError::Malformed)),
                Some((digest, accept)) => if digest.len() == DIGEST_LEN {
                    Ok(ControlView::Echo { digest, accept })
                } else {
                    Err(CodecError::MalformedControlDigest { len: digest.len() as usize })
                },
            }
        } else if kind == KIND_REVEAL {
            match parse_reveal(body) {
                None => Err(CodecError::Der(DerError::Malformed)),
                Some((ordinal, payload)) => Ok(ControlView::Reveal { ordinal, payload }),
            }
        } else {
            Err(CodecError::UnknownControlKind { kind })
        },
    }
}


/// Serialize an envelope: the kind octet and the body octets inside one
/// `SEQUENCE`.
pub fn envelope(kind: u8, body: Vec<u8>) -> (encoded: Result<Vec<u8>, CodecError>)
    ensures
        body@.len() <= MAX_LEN && envelope_content(kind, body@).len() <= MAX_LEN ==> encoded
            == Ok::<Vec<u8>, CodecError>(encoded->Ok_0) && encoded->Ok_0@ == tlv(
            TAG_SEQUENCE,
            envelope_content(kind, body@),
        ),
        !(body@.len() <= MAX_LEN && envelope_content(kind, body@).len() <= MAX_LEN) ==> encoded
            == Err::<Vec<u8>, CodecError>(CodecError::Der(DerError::Overlength)),
{
    let ghost b = body@;
    let mut content: Vec<u8> = Vec::new();
    push_uint(&mut content, kind as u64);
    let mut octets = match wrap(TAG_OCTET_STRING, body) {
        Ok(octets) => octets,
        Err(e) => return Err(CodecError::Der(e)),
    };
    content.append(&mut octets);
    assert(content@ =~= envelope_content(kind, b));
    match wrap(TAG_SEQUENCE, content) {
        Ok(bytes) => Ok(bytes),
        Err(e) => Err(CodecError::Der(e)),
    }
}

/// Read a whole envelope: its kind octet and body.
pub fn open_envelope(bytes: &[u8]) -> (opened: Option<(u8, Vec<u8>)>)
    ensures
        match parse_envelope(bytes@) {
            Some((kind, body)) => opened matches Some((k, b)) && k == kind && b@ == body,
            None => opened is None,
        },
{
    let len = bytes.len();
    assert(bytes@.subrange(0, len as int) =~= bytes@);
    let (cs, ce) = match read_seq(bytes, 0, len) {
        Some(found) => found,
        None => return None,
    };
    if ce != len {
        return None;
    }
    let ghost c = bytes@.subrange(cs as int, ce as int);
    let (kind, p1) = match read_uint(bytes, cs, ce, u8::MAX as u64) {
        Some(found) => found,
        None => return None,
    };
    assert(c.skip((p1 - cs) as int) =~= bytes@.subrange(p1 as int, ce as int));
    let (bs, be) = match read_octets(bytes, p1, ce) {
        Some(found) => found,
        None => return None,
    };
    if be != ce {
        return None;
    }
    let kind = kind as u8;
    assert(parse_envelope(bytes@) == Some((kind, bytes@.subrange(bs as int, be as int))));
    Some((kind, copy_range(bytes, bs, be)))
}

/// Envelopes round trip: reading the bytes an envelope serializes to
/// gives back its kind and body.
pub proof fn lemma_envelope_round_trip(kind: u8, body: Seq<u8>)
    requires
        body.len() <= MAX_LEN,
        envelope_content(kind, body).len() <= MAX_LEN,
    ensures
        parse_envelope(tlv(TAG_SEQUENCE, envelope_content(kind, body))) == Some((kind, body)),
{
    lemma_pow256_u64();
    let ec = envelope_content(kind, body);
    let bytes = tlv(TAG_SEQUENCE, ec);
    let empty = Seq::<u8>::empty();
    lemma_parse_seq(ec, empty);
    assert(bytes + empty =~= bytes);
    lemma_parse_uint(kind as nat, u8::MAX as nat, enc_octets(body));
    assert(ec.skip(enc_uint(kind as nat).len() as int) =~= enc_octets(body) + empty);
    lemma_parse_octets(body, empty);
    assert(enc_octets(body) + empty =~= enc_octets(body));
}

/// Envelopes are canonical: whatever the reader accepts is exactly the
/// serialization of the kind and body it reports.
pub proof fn lemma_envelope_canonical(s: Seq<u8>)
    requires
        parse_envelope(s) is Some,
    ensures
        ({
            let (kind, body) = parse_envelope(s).unwrap();
            s == tlv(TAG_SEQUENCE, envelope_content(kind, body))
        }),
{
    let (c, end) = parse_seq(s).unwrap();
    lemma_parse_seq_sound(s);
    assert(s.take(end as int) =~= s);
    let (kind, n1) = parse_uint(c, u8::MAX as nat).unwrap();
    lemma_parse_uint_sound(c, u8::MAX as nat);
    let rest = c.skip(n1 as int);
    let (body, n2) = parse_octets(rest).unwrap();
    lemma_parse_tlv_sound(rest);
    assert(rest.take(n2 as int) =~= rest);
    assert(c =~= c.take(n1 as int) + rest);
    assert(c =~= envelope_content(kind as u8, body));
}

impl ControlMessage {
    /// Serialize to control-lane bytes.
    pub fn encode(&self) -> (encoded: Result<Vec<u8>, CodecError>)
        ensures
            match encoded {
                Ok(bytes) => control_encoding(self@) == Ok::<Seq<u8>, CodecError>(bytes@),
                Err(e) => control_encoding(self@) == Err::<Seq<u8>, CodecError>(e),
            },
    {
        match self {
            ControlMessage::Submit { program } => {
                envelope(KIND_SUBMIT, vstd::slice::slice_to_vec(program.as_slice()))
            },
            ControlMessage::Echo { digest, accept } => {
                let octets = vstd::slice::slice_to_vec(digest.0.as_slice());
                let mut content = match wrap(TAG_OCTET_STRING, octets) {
                    Ok(content) => content,
                    Err(e) => return Err(CodecError::Der(e)),
                };
                push_bool(&mut content, *accept);
                let body = match wrap(TAG_SEQUENCE, content) {
                    Ok(body) => body,
                    Err(e) => return Err(CodecError::Der(e)),
                };
                envelope(KIND_ECHO, body)
            },
            ControlMessage::Reveal { ordinal, payload } => {
                let mut content: Vec<u8> = Vec::new();
                push_uint(&mut content, *ordinal as u64);
                let mut octets = match wrap(
                    TAG_OCTET_STRING,
                    vstd::slice::slice_to_vec(payload.as_slice()),
                ) {
                    Ok(octets) => octets,
                    Err(e) => return Err(CodecError::Der(e)),
                };
                content.append(&mut octets);
                assert(content@ =~= reveal_content(*ordinal, payload@));
                let body = match wrap(TAG_SEQUENCE, content) {
                    Ok(body) => body,
                    Err(e) => return Err(CodecError::Der(e)),
                };
                envelope(KIND_REVEAL, body)
            },
        }
    }

    /// Parse control-lane bytes.
    pub fn decode(bytes: &[u8]) -> (decoded: Result<ControlMessage, CodecError>)
        ensures
            match decoded {
                Ok(m) => control_of(bytes@) == Ok::<ControlView, CodecError>(m@),
                Err(e) => control_of(bytes@) == Err::<ControlView, CodecError>(e),
            },
    {
        let malformed = CodecError::Der(DerError::Malformed);
        let len = bytes.len();
        assert(bytes@.subrange(0, len as int) =~= bytes@);
        let (cs, ce) = match read_seq(bytes, 0, len) {
            Some(found) => found,
            None => return Err(malformed),
        };
        if ce != len {
            return Err(malformed);
        }
        let ghost c = bytes@.subrange(cs as int, ce as int);
        let (kind, p1) = match read_uint(bytes, cs, ce, u8::MAX as u64) {
            Some(found) => found,
            None => return Err(malformed),
        };
        assert(c.skip((p1 - cs) as int) =~= bytes@.subrange(p1 as int, ce as int));
        let (bs, be) = match read_octets(bytes, p1, ce) {
            Some(found) => found,
            None => return Err(malformed),
        };
        if be != ce {
            return Err(malformed);
        }
        let kind = kind as u8;
        let ghost body = bytes@.subrange(bs as int, be as int);
        assert(parse_envelope(bytes@) == Some((kind, body)));
        if kind == KIND_SUBMIT {
            Ok(ControlMessage::Submit { program: copy_range(bytes, bs, be) })
        } else if kind == KIND_ECHO {
            assert(bytes@.subrange(bs as int, be as int) =~= body);
            let (es, ee) = match read_seq(bytes, bs, be) {
                Some(found) => found,
                None => return Err(malformed),
            };
            if ee != be {
                return Err(malformed);
            }
            let ghost e = bytes@.subrange(es as int, ee as int);
            assert(bytes@.subrange(es as int, ee as int) =~= e);
            let (ds, de) = match read_octets(bytes, es, ee) {
                Some(found) => found,
                None => return Err(malformed),
            };
            assert(e.skip((de - es) as int) =~= bytes@.subrange(de as int, ee as int));
            let (accept, p2) = match read_bool(bytes, de, ee) {
                Some(found) => found,
                None => return Err(malformed),
            };
            if p2 != ee {
                return Err(malformed);
            }
            assert(parse_seq(body) == Some((e, (ee - bs) as nat)));
            assert(parse_octets(e) == Some((bytes@.subrange(ds as int, de as int), (de - es) as nat)));
            assert(parse_bool(e.skip((de - es) as int)) == Some((accept, (ee - de) as nat)));
            assert(parse_echo(body) == Some((bytes@.subrange(ds as int, de as int), accept)));
            if de - ds != DIGEST_LEN {
                return Err(CodecError::MalformedControlDigest { len: de - ds });
            }
            let mut digest: [u8; 32] = [0u8; 32];
            let mut i: usize = 0;
            while i < 32
                invariant
                    i <= 32,
                    de == ds + 32,
                    de <= bytes@.len(),
                    forall|j: int| 0 <= j < i ==> digest@[j] == bytes@[ds + j],
                decreases 32 - i,
            {
                digest[i] = bytes[ds + i];
                i = i + 1;
            }
            assert(digest@ =~= bytes@.subrange(ds as int, de as int));
            Ok(ControlMessage::Echo { digest: ProgramDigest(digest), accept })
        } else if kind == KIND_REVEAL {
            let (rs, re) = match read_seq(bytes, bs, be) {
                Some(found) => found,
                None => return Err(malformed),
            };
            if re != be {
                return Err(malformed);
            }
            let ghost r = bytes@.subrange(rs as int, re as int);
            let (ordinal, p2) = match read_uint(bytes, rs, re, u32::MAX as u64) {
                Some(found) => found,
                None => return Err(malformed),
            };
            assert(r.skip((p2 - rs) as int) =~= bytes@.subrange(p2 as int, re as int));
            let (ps, pe) = match read_octets(bytes, p2, re) {
                Some(found) => found,
                None => return Err(malformed),
            };
            if pe != re {
                return Err(malformed);
            }
            assert(parse_reveal(body) == Some((ordinal as u32, bytes@.subrange(ps as int, pe as int))));
            Ok(ControlMessage::Reveal { ordinal: ordinal as u32, payload: copy_range(bytes, ps, pe) })
        } else {
            Err(CodecError::UnknownControlKind { kind })
        }
    }
}


/// Control messages round trip: decoding the bytes a message serializes
/// to gives the message back (an echo's digest is always a full
/// SHA3-256 width in a [`ControlMessage`]).
pub proof fn lemma_control_round_trip(m: ControlView)
    requires
        control_fits(m),
        m is Echo ==> m->digest.len() == DIGEST_LEN,
    ensures
        control_of(control_encoding(m)->Ok_0) == Ok::<ControlView, CodecError>(m),
{
    lemma_pow256_u64();
    let kind = kind_of(m);
    let body = body_of(m);
    let ec = envelope_content(kind, body);
    let bytes = tlv(TAG_SEQUENCE, ec);
    let empty = Seq::<u8>::empty();
    lemma_parse_seq(ec, empty);
    assert(bytes + empty =~= bytes);
    lemma_parse_uint(kind as nat, u8::MAX as nat, enc_octets(body));
    assert(ec.skip(enc_uint(kind as nat).len() as int) =~= enc_octets(body) + empty);
    lemma_parse_octets(body, empty);
    assert(enc_octets(body) + empty =~= enc_octets(body));
    assert(parse_envelope(bytes) == Some((kind, body)));
    match m {
        ControlView::Submit { .. } => {},
        ControlView::Echo { digest, accept } => {
            let c = echo_content(digest, accept);
            lemma_parse_seq(c, empty);
            assert(body + empty =~= body);
            lemma_parse_octets(digest, enc_bool(accept));
            assert(c.skip(enc_octets(digest).len() as int) =~= enc_bool(accept) + empty);
            lemma_parse_bool(accept, empty);
            assert(enc_bool(accept) + empty =~= enc_bool(accept));
            assert(parse_echo(body) == Some((digest, accept)));
        },
        ControlView::Reveal { ordinal, payload } => {
            let c = reveal_content(ordinal, payload);
            lemma_parse_seq(c, empty);
            assert(body + empty =~= body);
            lemma_parse_uint(ordinal as nat, u32::MAX as nat, enc_octets(payload));
            assert(c.skip(enc_uint(ordinal as nat).len() as int) =~= enc_octets(payload) + empty);
            lemma_parse_octets(payload, empty);
            assert(enc_octets(payload) + empty =~= enc_octets(payload));
            assert(parse_reveal(body) == Some((ordinal, payload)));
        },
    }
}

} // verus!

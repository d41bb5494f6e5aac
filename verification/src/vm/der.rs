//! The X.690 Distinguished Encoding Rules subset the VM's wire formats
//! use: definite minimal lengths (up to four length octets), unsigned
//! `INTEGER`s, `BOOLEAN`, `OCTET STRING` and `SEQUENCE`.
//!
//! Every encoder here produces exactly the spec bytes below, and every
//! reader accepts exactly those bytes: a reader succeeds on a buffer
//! iff the buffer starts with the distinguished encoding of some value,
//! and then it returns that value.

use crate::vm::error::DerError;
use vstd::arithmetic::div_mod::lemma_fundamental_div_mod_converse;
use vstd::prelude::*;

verus! {

/// Universal tag of `BOOLEAN`.
pub const TAG_BOOLEAN: u8 = 0x01;

/// Universal tag of `INTEGER`.
pub const TAG_INTEGER: u8 = 0x02;

/// Universal tag of `OCTET STRING`.
pub const TAG_OCTET_STRING: u8 = 0x04;

/// Universal constructed tag of `SEQUENCE` / `SEQUENCE OF`.
pub const TAG_SEQUENCE: u8 = 0x30;

/// Largest content length a DER length field may carry here (256 MiB - 1).
pub const MAX_LEN: u32 = 0x0fff_ffff;

/// The length octets of a content of `n` octets.
pub closed spec fn len_octets(n: nat) -> Seq<u8> {
    if n < 0x80 {
        seq![n as u8]
    } else if n < 0x100 {
        seq![0x81u8, n as u8]
    } else if n < 0x10000 {
        seq![0x82u8, (n / 0x100) as u8, (n % 0x100) as u8]
    } else if n < 0x1000000 {
        seq![0x83u8, (n / 0x10000) as u8, ((n / 0x100) % 0x100) as u8, (n % 0x100) as u8]
    } else {
        seq![
            0x84u8,
            (n / 0x1000000) as u8,
            ((n / 0x10000) % 0x100) as u8,
            ((n / 0x100) % 0x100) as u8,
            (n % 0x100) as u8,
        ]
    }
}

/// The distinguished encoding of a value with `tag` and `content`.
pub open spec fn tlv(tag: u8, content: Seq<u8>) -> Seq<u8> {
    seq![tag] + len_octets(content.len()) + content
}

/// Read the length octets at the start of `s`: the length and the
/// number of octets it took. Only minimal encodings are accepted.
pub closed spec fn parse_len(s: Seq<u8>) -> Option<(nat, nat)> {
    if s.len() == 0 {
        None
    } else if s[0] < 0x80 {
        Some((s[0] as nat, 1))
    } else if s[0] == 0x81 {
        if s.len() >= 2 && s[1] >= 0x80 {
            Some((s[1] as nat, 2))
        } else {
            None
        }
    } else if s[0] == 0x82 {
        if s.len() >= 3 && s[1] * 0x100 + s[2] >= 0x100 {
            Some(((s[1] * 0x100 + s[2]) as nat, 3))
        } else {
            None
        }
    } else if s[0] == 0x83 {
        if s.len() >= 4 && (s[1] * 0x100 + s[2]) * 0x100 + s[3] >= 0x10000 {
            Some((((s[1] * 0x100 + s[2]) * 0x100 + s[3]) as nat, 4))
        } else {
            None
        }
    } else if s[0] == 0x84 {
        if s.len() >= 5 && ((s[1] * 0x100 + s[2]) * 0x100 + s[3]) * 0x100 + s[4] >= 0x1000000
            && ((s[1] * 0x100 + s[2]) * 0x100 + s[3]) * 0x100 + s[4] <= MAX_LEN {
            Some(((((s[1] * 0x100 + s[2]) * 0x100 + s[3]) * 0x100 + s[4]) as nat, 5))
        } else {
            None
        }
    } else {
        None
    }
}

/// Read one tag-length-value at the start of `s`: its tag and the
/// offsets where its content starts and ends.
pub closed spec fn parse_tlv(s: Seq<u8>) -> Option<(u8, nat, nat)> {
    if s.len() == 0 {
        None
    } else {
        match parse_len(s.skip(1)) {
            Some((n, k)) => if 1 + k + n <= s.len() {
                Some((s[0], 1 + k, 1 + k + n))
            } else {
                None
            },
            None => None,
        }
    }
}

proof fn lemma_split(x: int, q: int, r: int)
    requires
        0 <= r < 0x100,
        x == q * 0x100 + r,
    ensures
        x / 0x100 == q,
        x % 0x100 == r,
{
    lemma_fundamental_div_mod_converse(x, 0x100, q, r);
}

proof fn lemma_len_octets_bytes(n: nat)
    requires
        n <= MAX_LEN,
    ensures
        n >= 0x100 ==> (n / 0x100) * 0x100 + n % 0x100 == n,
        n >= 0x10000 ==> ((n / 0x10000) * 0x100 + (n / 0x100) % 0x100) == n / 0x100,
        n >= 0x1000000 ==> (n / 0x1000000) * 0x100 + (n / 0x10000) % 0x100 == n / 0x10000,
        n / 0x100 < 0x100 <==> n < 0x10000,
        n / 0x10000 < 0x100 <==> n < 0x1000000,
        n / 0x1000000 < 0x100,
        n / 0x10000 == (n / 0x100) / 0x100,
        n / 0x1000000 == (n / 0x10000) / 0x100,
{
    assert(n / 0x10000 == (n / 0x100) / 0x100) by {
        vstd::arithmetic::div_mod::lemma_div_denominator(n as int, 0x100, 0x100);
    }
    assert(n / 0x1000000 == (n / 0x10000) / 0x100) by {
        vstd::arithmetic::div_mod::lemma_div_denominator(n as int, 0x10000, 0x100);
    }
}

/// Reading the length octets of `n` gives `n` back, whatever follows.
pub proof fn lemma_parse_len_octets(n: nat, rest: Seq<u8>)
    requires
        n <= MAX_LEN,
    ensures
        parse_len(len_octets(n) + rest) == Some((n, len_octets(n).len())),
        1 <= len_octets(n).len() <= 5,
{
    lemma_len_octets_bytes(n);
    let s = len_octets(n) + rest;
    if n < 0x80 {
    } else if n < 0x100 {
    } else if n < 0x10000 {
        assert(s[1] * 0x100 + s[2] == n);
    } else if n < 0x1000000 {
        assert(s[1] * 0x100 + s[2] == n / 0x100);
        assert((s[1] * 0x100 + s[2]) * 0x100 + s[3] == n);
    } else {
        assert(s[1] * 0x100 + s[2] == n / 0x10000);
        assert((s[1] * 0x100 + s[2]) * 0x100 + s[3] == n / 0x100);
        assert(((s[1] * 0x100 + s[2]) * 0x100 + s[3]) * 0x100 + s[4] == n);
    }
}

/// Whatever the length reader accepts is the length octets of the
/// length it returns.
pub proof fn lemma_parse_len_sound(s: Seq<u8>)
    requires
        parse_len(s) is Some,
    ensures
        ({
            let (n, k) = parse_len(s).unwrap();
            &&& n <= MAX_LEN
            &&& k == len_octets(n).len()
            &&& k <= s.len()
            &&& s.take(k as int) == len_octets(n)
        }),
{
    let (n, k) = parse_len(s).unwrap();
    if s[0] < 0x80 {
        assert(s.take(1) =~= len_octets(n));
    } else if s[0] == 0x81 {
        assert(s.take(2) =~= len_octets(n));
    } else if s[0] == 0x82 {
        lemma_split(n as int, s[1] as int, s[2] as int);
        assert(s.take(3) =~= len_octets(n));
    } else if s[0] == 0x83 {
        let hi = s[1] * 0x100 + s[2];
        lemma_split(n as int, hi, s[3] as int);
        lemma_split(hi, s[1] as int, s[2] as int);
        lemma_len_octets_bytes(n);
        assert(s.take(4) =~= len_octets(n));
    } else {
        let hi = s[1] * 0x100 + s[2];
        let mid = hi * 0x100 + s[3];
        lemma_split(n as int, mid, s[4] as int);
        lemma_split(mid, hi, s[3] as int);
        lemma_split(hi, s[1] as int, s[2] as int);
        lemma_len_octets_bytes(n);
        assert(s.take(5) =~= len_octets(n));
    }
}

/// Reading a tag-length-value gives back its tag and content bounds,
/// whatever follows it.
pub proof fn lemma_parse_tlv(tag: u8, content: Seq<u8>, rest: Seq<u8>)
    requires
        content.len() <= MAX_LEN,
    ensures
        ({
            let h = 1 + len_octets(content.len()).len();
            parse_tlv(tlv(tag, content) + rest) == Some((tag, h, h + content.len()))
        }),
        tlv(tag, content).len() == 1 + len_octets(content.len()).len() + content.len(),
        1 <= len_octets(content.len()).len() <= 5,
        content.len() < 0x80 ==> len_octets(content.len()).len() == 1,
{
    let s = tlv(tag, content) + rest;
    lemma_parse_len_octets(content.len(), content + rest);
    assert(s.skip(1) =~= len_octets(content.len()) + (content + rest));
}

/// Whatever the tag-length-value reader accepts starts with the
/// distinguished encoding of the tag and content it reports.
pub proof fn lemma_parse_tlv_sound(s: Seq<u8>)
    requires
        parse_tlv(s) is Some,
    ensures
        ({
            let (tag, start, end) = parse_tlv(s).unwrap();
            &&& start <= end <= s.len()
            &&& end - start <= MAX_LEN
            &&& start == 1 + len_octets((end - start) as nat).len()
            &&& 2 <= start <= 6
            &&& s.take(end as int) == tlv(tag, s.subrange(start as int, end as int))
        }),
{
    let (tag, start, end) = parse_tlv(s).unwrap();
    lemma_parse_len_sound(s.skip(1));
    lemma_parse_len_octets((end - start) as nat, Seq::empty());
    let (n, k) = parse_len(s.skip(1)).unwrap();
    assert(s.skip(1).take(k as int) == len_octets(n));
    assert(s.take(end as int) =~= tlv(tag, s.subrange(start as int, end as int)));
}

/// A tag-length-value is at least two octets long.
pub proof fn lemma_tlv_len(tag: u8, content: Seq<u8>)
    requires
        content.len() <= MAX_LEN,
    ensures
        tlv(tag, content).len() >= 2 + content.len(),
{
    lemma_parse_len_octets(content.len(), Seq::empty());
}

/// The big-endian value of a sequence of octets.
pub closed spec fn be_value(s: Seq<u8>) -> nat
    decreases s.len(),
{
    if s.len() == 0 {
        0
    } else {
        (be_value(s.drop_last()) * 0x100 + s.last()) as nat
    }
}

/// The shortest big-endian octets of `v` (empty for zero).
pub closed spec fn be_min(v: nat) -> Seq<u8>
    decreases v,
{
    if v == 0 {
        Seq::empty()
    } else {
        be_min(v / 0x100).push((v % 0x100) as u8)
    }
}

/// The content octets of the unsigned `INTEGER` `v`: minimal two's
/// complement, so a leading zero octet precedes a high first octet.
pub closed spec fn uint_content(v: nat) -> Seq<u8> {
    let m = be_min(v);
    if m.len() == 0 {
        seq![0u8]
    } else if m[0] >= 0x80 {
        seq![0u8] + m
    } else {
        m
    }
}

/// Content octets that are the distinguished encoding of a
/// non-negative `INTEGER`.
pub closed spec fn uint_canonical(c: Seq<u8>) -> bool {
    &&& c.len() >= 1
    &&& c[0] < 0x80
    &&& c.len() >= 2 ==> !(c[0] == 0 && c[1] < 0x80)
}

/// The distinguished encoding of the unsigned `INTEGER` `v`.
pub open spec fn enc_uint(v: nat) -> Seq<u8> {
    tlv(TAG_INTEGER, uint_content(v))
}

/// Read an unsigned `INTEGER` no larger than `max` at the start of
/// `s`: its value and the octets it took.
pub closed spec fn parse_uint(s: Seq<u8>, max: nat) -> Option<(nat, nat)> {
    match parse_tlv(s) {
        Some((tag, start, end)) => {
            let c = s.subrange(start as int, end as int);
            if tag == TAG_INTEGER && uint_canonical(c) && be_value(c) <= max {
                Some((be_value(c), end))
            } else {
                None
            }
        },
        None => None,
    }
}

/// `256^k`.
pub closed spec fn pow256(k: nat) -> nat
    decreases k,
{
    if k == 0 {
        1
    } else {
        pow256((k - 1) as nat) * 0x100
    }
}

proof fn lemma_be_value_bound(s: Seq<u8>)
    ensures
        be_value(s) < pow256(s.len()),
    decreases s.len(),
{
    if s.len() > 0 {
        lemma_be_value_bound(s.drop_last());
    }
}

proof fn lemma_be_value_leading_zero(s: Seq<u8>)
    ensures
        be_value(seq![0u8] + s) == be_value(s),
    decreases s.len(),
{
    if s.len() > 0 {
        let t = seq![0u8] + s;
        assert(t.drop_last() =~= seq![0u8] + s.drop_last());
        assert(t.last() == s.last());
        lemma_be_value_leading_zero(s.drop_last());
    } else {
        let t = seq![0u8] + s;
        assert(t.drop_last() =~= Seq::<u8>::empty());
        assert(be_value(Seq::<u8>::empty()) == 0);
        assert(t.last() == 0);
    }
}

proof fn lemma_be_min_value(v: nat)
    ensures
        be_value(be_min(v)) == v,
        be_min(v).len() > 0 ==> be_min(v)[0] != 0,
        be_min(v).len() == 0 <==> v == 0,
    decreases v,
{
    if v > 0 {
        lemma_be_min_value(v / 0x100);
        let m = be_min(v);
        assert(m.drop_last() =~= be_min(v / 0x100));
        if be_min(v / 0x100).len() == 0 {
            assert(v / 0x100 == 0);
            assert(m[0] == (v % 0x100) as u8);
        }
    }
}

proof fn lemma_be_min_of_value(s: Seq<u8>)
    requires
        s.len() > 0 ==> s[0] != 0,
    ensures
        be_min(be_value(s)) == s,
    decreases s.len(),
{
    if s.len() > 0 {
        let init = s.drop_last();
        if init.len() > 0 {
            assert(init[0] == s[0]);
        }
        lemma_be_min_of_value(init);
        let v = be_value(s);
        lemma_split(v as int, be_value(init) as int, s.last() as int);
        if init.len() == 0 {
            assert(be_value(init) == 0);
            assert(s.last() == s[0]);
        } else {
            lemma_be_min_value(be_value(init));
        }
        assert(v != 0);
        assert(be_min(v) =~= s);
    }
}

/// The content octets of every unsigned `INTEGER` are canonical and
/// carry its value.
pub proof fn lemma_uint_content(v: nat)
    ensures
        uint_canonical(uint_content(v)),
        be_value(uint_content(v)) == v,
        uint_content(v).len() >= 1,
        v < pow256(8) ==> uint_content(v).len() <= 9,
{
    lemma_be_min_value(v);
    let m = be_min(v);
    if m.len() == 0 {
        assert(be_value(seq![0u8]) == 0) by {
            assert(seq![0u8].drop_last() =~= Seq::<u8>::empty());
        }
    } else if m[0] >= 0x80 {
        lemma_be_value_leading_zero(m);
        assert((seq![0u8] + m)[1] == m[0]);
    }
    if v < pow256(8) && m.len() > 8 {
        lemma_pow256_monotone(8, (m.len() - 1) as nat);
        lemma_be_value_lower_bound(m);
        assert(false);
    }
}

/// `256^8` is one past the largest `u64`.
pub proof fn lemma_pow256_u64()
    ensures
        pow256(8) == u64::MAX + 1,
        pow256(4) == u32::MAX + 1,
{
    reveal_with_fuel(pow256, 9);
}

/// The encoding of a `u64` takes at most eleven octets.
pub proof fn lemma_enc_uint_len(v: nat)
    requires
        v <= u64::MAX,
    ensures
        2 <= enc_uint(v).len() <= 11,
        enc_uint(v).len() == 2 + uint_content(v).len(),
{
    lemma_pow256_u64();
    lemma_uint_content(v);
    lemma_parse_len_octets(uint_content(v).len(), Seq::empty());
}

proof fn lemma_pow256_monotone(a: nat, b: nat)
    requires
        a <= b,
    ensures
        pow256(a) <= pow256(b),
    decreases b,
{
    if a < b {
        lemma_pow256_monotone(a, (b - 1) as nat);
    }
}

proof fn lemma_be_value_lower_bound(s: Seq<u8>)
    requires
        s.len() > 0,
        s[0] != 0,
    ensures
        be_value(s) >= pow256((s.len() - 1) as nat),
    decreases s.len(),
{
    if s.len() > 1 {
        let init = s.drop_last();
        assert(init[0] == s[0]);
        lemma_be_value_lower_bound(init);
    } else {
        assert(s.drop_last() =~= Seq::<u8>::empty());
    }
}

/// Canonical `INTEGER` content is the content of the value it carries.
pub proof fn lemma_uint_canonical_unique(c: Seq<u8>)
    requires
        uint_canonical(c),
    ensures
        uint_content(be_value(c)) == c,
{
    if c[0] == 0 && c.len() >= 2 {
        let s = c.skip(1);
        assert(c =~= seq![0u8] + s);
        lemma_be_value_leading_zero(s);
        lemma_be_min_of_value(s);
        assert(s[0] == c[1]);
    } else if c[0] == 0 {
        assert(c =~= seq![0u8]);
        assert(be_value(c) == 0) by {
            assert(c.drop_last() =~= Seq::<u8>::empty());
            assert(be_value(Seq::<u8>::empty()) == 0);
            assert(c.last() == 0);
        }
    } else {
        lemma_be_min_of_value(c);
    }
}

/// Reading the encoding of `v` gives `v` back, whatever follows.
pub proof fn lemma_parse_uint(v: nat, max: nat, rest: Seq<u8>)
    requires
        v <= max,
        v < pow256(8),
    ensures
        parse_uint(enc_uint(v) + rest, max) == Some((v, enc_uint(v).len())),
{
    lemma_uint_content(v);
    lemma_parse_tlv(TAG_INTEGER, uint_content(v), rest);
    let s = enc_uint(v) + rest;
    let h = 1 + len_octets(uint_content(v).len()).len();
    assert(s.subrange(h as int, (h + uint_content(v).len()) as int) =~= uint_content(v));
}

/// Whatever the `INTEGER` reader accepts starts with the encoding of
/// the value it returns.
pub proof fn lemma_parse_uint_sound(s: Seq<u8>, max: nat)
    requires
        parse_uint(s, max) is Some,
    ensures
        ({
            let (v, n) = parse_uint(s, max).unwrap();
            &&& v <= max
            &&& n <= s.len()
            &&& s.take(n as int) == enc_uint(v)
        }),
{
    lemma_parse_tlv_sound(s);
    let (tag, start, end) = parse_tlv(s).unwrap();
    lemma_uint_canonical_unique(s.subrange(start as int, end as int));
}

/// The distinguished encoding of a `BOOLEAN`.
pub open spec fn enc_bool(b: bool) -> Seq<u8> {
    tlv(TAG_BOOLEAN, seq![if b { 0xffu8 } else { 0x00u8 }])
}

/// Read a `BOOLEAN` at the start of `s`.
pub closed spec fn parse_bool(s: Seq<u8>) -> Option<(bool, nat)> {
    match parse_tlv(s) {
        Some((tag, start, end)) => {
            if tag == TAG_BOOLEAN && end == start + 1 && (s[start as int] == 0xff || s[start as int]
                == 0x00) {
                Some((s[start as int] == 0xff, end))
            } else {
                None
            }
        },
        None => None,
    }
}

/// Reading the encoding of a `BOOLEAN` gives it back.
pub proof fn lemma_parse_bool(b: bool, rest: Seq<u8>)
    ensures
        parse_bool(enc_bool(b) + rest) == Some((b, enc_bool(b).len())),
{
    let c = seq![if b { 0xffu8 } else { 0x00u8 }];
    lemma_parse_tlv(TAG_BOOLEAN, c, rest);
    assert((enc_bool(b) + rest)[2] == c[0]);
}

/// Whatever the `BOOLEAN` reader accepts starts with its encoding.
pub proof fn lemma_parse_bool_sound(s: Seq<u8>)
    requires
        parse_bool(s) is Some,
    ensures
        ({
            let (b, n) = parse_bool(s).unwrap();
            n <= s.len() && s.take(n as int) == enc_bool(b)
        }),
{
    lemma_parse_tlv_sound(s);
    let (tag, start, end) = parse_tlv(s).unwrap();
    let (b, n) = parse_bool(s).unwrap();
    assert(s.subrange(start as int, end as int) =~= seq![if b { 0xffu8 } else { 0x00u8 }]);
}

// ---------------------------------------------------------------------
// Executable writers and readers
// ---------------------------------------------------------------------

/// Append the length octets of `n`.
pub fn push_len(out: &mut Vec<u8>, n: usize)
    requires
        n <= MAX_LEN,
    ensures
        final(out)@ == old(out)@ + len_octets(n as nat),
{
    if n < 0x80 {
        out.push(n as u8);
    } else if n < 0x100 {
        out.push(0x81);
        out.push(n as u8);
    } else if n < 0x10000 {
        out.push(0x82);
        out.push((n / 0x100) as u8);
        out.push((n % 0x100) as u8);
    } else if n < 0x1000000 {
        out.push(0x83);
        out.push((n / 0x10000) as u8);
        out.push(((n / 0x100) % 0x100) as u8);
        out.push((n % 0x100) as u8);
    } else {
        out.push(0x84);
        out.push((n / 0x1000000) as u8);
        out.push(((n / 0x10000) % 0x100) as u8);
        out.push(((n / 0x100) % 0x100) as u8);
        out.push((n % 0x100) as u8);
    }
    assert(final(out)@ =~= old(out)@ + len_octets(n as nat));
}

/// Wrap `content` into a tag-length-value with `tag`.
pub fn wrap(tag: u8, content: Vec<u8>) -> (encoded: Result<Vec<u8>, DerError>)
    ensures
        content@.len() <= MAX_LEN ==> encoded == Ok::<Vec<u8>, DerError>(encoded.unwrap())
            && encoded.unwrap()@ == tlv(tag, content@),
        content@.len() > MAX_LEN ==> encoded == Err::<Vec<u8>, DerError>(DerError::Overlength),
{
    if content.len() > MAX_LEN as usize {
        return Err(DerError::Overlength);
    }
    let mut out: Vec<u8> = Vec::new();
    out.push(tag);
    push_len(&mut out, content.len());
    let mut body = content;
    out.append(&mut body);
    Ok(out)
}

/// Append the encoding of the unsigned `INTEGER` `v`.
pub fn push_uint(out: &mut Vec<u8>, v: u64)
    ensures
        final(out)@ == old(out)@ + enc_uint(v as nat),
{
    let mut digits: Vec<u8> = Vec::new();
    let mut rest = v;
    while rest > 0
        invariant
            be_min(v as nat) == be_min(rest as nat) + digits@,
        decreases rest,
    {
        let ghost before = rest;
        digits.insert(0, (rest % 0x100) as u8);
        rest = rest / 0x100;
        assert(be_min(before as nat) == be_min(rest as nat).push((before % 0x100) as u8));
        assert(be_min(v as nat) =~= be_min(rest as nat) + digits@);
    }
    assert(digits@ =~= be_min(v as nat));
    let mut content: Vec<u8> = Vec::new();
    if digits.len() == 0 || digits[0] >= 0x80 {
        content.push(0);
    }
    content.append(&mut digits);
    assert(content@ =~= uint_content(v as nat));
    proof {
        lemma_uint_content(v as nat);
        assert(pow256(8) == 0x1_0000_0000_0000_0000) by { reveal_with_fuel(pow256, 9); }
    }
    out.push(TAG_INTEGER);
    push_len(out, content.len());
    out.append(&mut content);
    assert(final(out)@ =~= old(out)@ + enc_uint(v as nat));
}

/// Append the encoding of a `BOOLEAN`.
pub fn push_bool(out: &mut Vec<u8>, b: bool)
    ensures
        final(out)@ == old(out)@ + enc_bool(b),
{
    out.push(TAG_BOOLEAN);
    out.push(1);
    out.push(if b { 0xff } else { 0x00 });
    assert(final(out)@ =~= old(out)@ + enc_bool(b));
}

/// Read the tag-length-value at `pos`, within `buf[pos..end]`.
pub fn read_tlv(buf: &[u8], pos: usize, end: usize) -> (parsed: Option<(u8, usize, usize)>)
    requires
        pos <= end <= buf@.len(),
    ensures
        match parse_tlv(buf@.subrange(pos as int, end as int)) {
            Some((tag, start, stop)) => parsed == Some((tag, (pos + start) as usize, (pos + stop) as usize)),
            None => parsed is None,
        },
        parsed matches Some((_, start, stop)) ==> pos < start <= stop <= end,
        parse_tlv(buf@.subrange(pos as int, end as int)) matches Some((_, a, b)) ==> 0 < a <= b <= end
            - pos,
{
    let ghost s = buf@.subrange(pos as int, end as int);
    if pos >= end {
        return None;
    }
    let tag = buf[pos];
    let avail = end - pos - 1;
    let at = pos + 1;
    let ghost t = s.skip(1);
    assert(t =~= buf@.subrange(at as int, end as int));
    if avail == 0 {
        return None;
    }
    let first = buf[at];
    let mut n: usize;
    let k: usize;
    if first < 0x80 {
        n = first as usize;
        k = 1;
    } else if first == 0x81 {
        if avail < 2 || buf[at + 1] < 0x80 {
            return None;
        }
        n = buf[at + 1] as usize;
        k = 2;
    } else if first == 0x82 {
        if avail < 3 {
            return None;
        }
        n = buf[at + 1] as usize * 0x100 + buf[at + 2] as usize;
        if n < 0x100 {
            return None;
        }
        k = 3;
    } else if first == 0x83 {
        if avail < 4 {
            return None;
        }
        n = (buf[at + 1] as usize * 0x100 + buf[at + 2] as usize) * 0x100 + buf[at + 3] as usize;
        if n < 0x10000 {
            return None;
        }
        k = 4;
    } else if first == 0x84 {
        if avail < 5 {
            return None;
        }
        n = ((buf[at + 1] as usize * 0x100 + buf[at + 2] as usize) * 0x100 + buf[at + 3] as usize)
            * 0x100 + buf[at + 4] as usize;
        if n < 0x1000000 || n > MAX_LEN as usize {
            return None;
        }
        k = 5;
    } else {
        return None;
    }
    assert(parse_len(t) == Some((n as nat, k as nat)));
    if n > avail - k {
        return None;
    }
    Some((tag, pos + 1 + k, pos + 1 + k + n))
}

/// Read an unsigned `INTEGER` no larger than `max` at `pos`, within
/// `buf[pos..end]`: its value and the offset just past it.
pub fn read_uint(buf: &[u8], pos: usize, end: usize, max: u64) -> (parsed: Option<(u64, usize)>)
    requires
        pos <= end <= buf@.len(),
    ensures
        match parse_uint(buf@.subrange(pos as int, end as int), max as nat) {
            Some((v, n)) => parsed == Some((v as u64, (pos + n) as usize)),
            None => parsed is None,
        },
        parsed matches Some((_, next)) ==> pos < next <= end,
        parse_uint(buf@.subrange(pos as int, end as int), max as nat) matches Some((v, n)) ==> v <= max
            && 0 < n <= end - pos,
{
    let ghost s = buf@.subrange(pos as int, end as int);
    let (tag, start, stop) = match read_tlv(buf, pos, end) {
        Some(found) => found,
        None => return None,
    };
    let ghost c = buf@.subrange(start as int, stop as int);
    assert(c =~= s.subrange((start - pos) as int, (stop - pos) as int));
    if tag != TAG_INTEGER || start == stop || buf[start] >= 0x80 {
        return None;
    }
    if stop - start >= 2 && buf[start] == 0 && buf[start + 1] < 0x80 {
        return None;
    }
    assert(uint_canonical(c));
    let mut from = start;
    if buf[start] == 0 && stop - start >= 2 {
        from = start + 1;
    }
    assert(be_value(c) == be_value(buf@.subrange(from as int, stop as int))) by {
        if from == start + 1 {
            assert(c =~= seq![0u8] + buf@.subrange(from as int, stop as int));
            lemma_be_value_leading_zero(buf@.subrange(from as int, stop as int));
        }
    }
    if stop - from > 8 {
        proof {
            let d = buf@.subrange(from as int, stop as int);
            assert(d[0] != 0);
            lemma_be_value_lower_bound(d);
            lemma_pow256_monotone(8, (d.len() - 1) as nat);
            assert(pow256(8) == 0x1_0000_0000_0000_0000) by { reveal_with_fuel(pow256, 9); }
        }
        return None;
    }
    let mut value: u64 = 0;
    let mut i = from;
    while i < stop
        invariant
            from <= i <= stop <= buf@.len(),
            stop - from <= 8,
            value == be_value(buf@.subrange(from as int, i as int)),
        decreases stop - i,
    {
        proof {
            lemma_be_value_bound(buf@.subrange(from as int, i as int));
            lemma_pow256_monotone((i - from) as nat, 7);
            assert(pow256(7) == 0x100_0000_0000_0000) by { reveal_with_fuel(pow256, 8); }
            assert(buf@.subrange(from as int, i + 1).drop_last() =~= buf@.subrange(from as int, i as int));
        }
        value = value * 0x100 + buf[i] as u64;
        i = i + 1;
    }
    if value > max {
        return None;
    }
    Some((value, stop))
}

/// Read a `BOOLEAN` at `pos`, within `buf[pos..end]`.
pub fn read_bool(buf: &[u8], pos: usize, end: usize) -> (parsed: Option<(bool, usize)>)
    requires
        pos <= end <= buf@.len(),
    ensures
        match parse_bool(buf@.subrange(pos as int, end as int)) {
            Some((b, n)) => parsed == Some((b, (pos + n) as usize)),
            None => parsed is None,
        },
        parse_bool(buf@.subrange(pos as int, end as int)) matches Some((_, n)) ==> n <= end - pos,
{
    let ghost s = buf@.subrange(pos as int, end as int);
    let (tag, start, stop) = match read_tlv(buf, pos, end) {
        Some(found) => found,
        None => return None,
    };
    if tag != TAG_BOOLEAN || stop - start != 1 {
        return None;
    }
    let octet = buf[start];
    assert(s[(start - pos) as int] == octet);
    if octet == 0xff {
        Some((true, stop))
    } else if octet == 0x00 {
        Some((false, stop))
    } else {
        None
    }
}


/// The distinguished encoding of an `OCTET STRING`.
pub open spec fn enc_octets(content: Seq<u8>) -> Seq<u8> {
    tlv(TAG_OCTET_STRING, content)
}

/// Read an `OCTET STRING` at the start of `s`: its octets and the
/// octets it took.
pub open spec fn parse_octets(s: Seq<u8>) -> Option<(Seq<u8>, nat)> {
    match parse_tlv(s) {
        Some((tag, start, end)) => if tag == TAG_OCTET_STRING {
            Some((s.subrange(start as int, end as int), end))
        } else {
            None
        },
        None => None,
    }
}

/// Reading an `OCTET STRING` gives back its octets, whatever follows.
pub proof fn lemma_parse_octets(c: Seq<u8>, rest: Seq<u8>)
    requires
        c.len() <= MAX_LEN,
    ensures
        parse_octets(enc_octets(c) + rest) == Some((c, enc_octets(c).len())),
{
    lemma_parse_tlv(TAG_OCTET_STRING, c, rest);
    let s = enc_octets(c) + rest;
    let (_, start, end) = parse_tlv(s).unwrap();
    assert(s.subrange(start as int, end as int) =~= c);
}

/// Read an `OCTET STRING` at `pos`, within `buf[pos..end]`: the bounds
/// of its octets.
pub fn read_octets(buf: &[u8], pos: usize, end: usize) -> (parsed: Option<(usize, usize)>)
    requires
        pos <= end <= buf@.len(),
    ensures
        match parse_octets(buf@.subrange(pos as int, end as int)) {
            Some((c, n)) => parsed matches Some((start, stop)) && stop == pos + n && pos < start
                <= stop <= end && buf@.subrange(start as int, stop as int) == c,
            None => parsed is None,
        },
{
    match read_tlv(buf, pos, end) {
        Some((tag, start, stop)) => {
            if tag != TAG_OCTET_STRING {
                return None;
            }
            assert(buf@.subrange(start as int, stop as int) =~= buf@.subrange(
                pos as int,
                end as int,
            ).subrange((start - pos) as int, (stop - pos) as int));
            Some((start, stop))
        },
        None => None,
    }
}

/// The octets of `buf[start..stop]` as a vector of their own.
pub fn copy_range(buf: &[u8], start: usize, stop: usize) -> (out: Vec<u8>)
    requires
        start <= stop <= buf@.len(),
    ensures
        out@ == buf@.subrange(start as int, stop as int),
{
    let mut out: Vec<u8> = Vec::new();
    let mut i: usize = start;
    while i < stop
        invariant
            start <= i <= stop <= buf@.len(),
            out@ == buf@.subrange(start as int, i as int),
        decreases stop - i,
    {
        out.push(buf[i]);
        i = i + 1;
        assert(out@ =~= buf@.subrange(start as int, i as int));
    }
    out
}

} // verus!

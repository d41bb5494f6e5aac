//! AES-128 one-block encryption expanded into VM instructions.
//!
//! [`encrypt_block`] is the table path: a batched `Sbox` for SubBytes,
//! with ShiftRows, MixColumns and AddRoundKey on bit planes, so the
//! linear layers batch across the whole 16-byte state. The Boyar-Peralta
//! boolean S-box circuit serves [`encrypt_block_boolean`], an oracle
//! cross-check made of gates only.
//!
//! Every helper states how many secret registers it allocates and that it
//! only appends instructions; what the instructions compute is the
//! business of the engine that runs them.
//!
//! # Sources
//!
//! - FIPS 197, Advanced Encryption Standard (AES)
//! - Boyar and Peralta, "A depth-16 circuit for the AES S-box",
//!   IACR ePrint 2011/332

use crate::vm::builder::{
    bit_lefts, bits_ranges_of, extended, fresh_secret, join_instructions, op_secret, range_total, room, Bits, BitsView, BuilderView, ProgramBuilder,
    Secret,
};
use crate::vm::isa::{InstructionView, MulTriple, SecretRange};
use vstd::prelude::*;

verus! {

/// Bytes in an AES-128 block (and in the cipher key).
pub const BLOCK_LEN: u32 = 16;

/// FIPS 197 AES S-box (`§5.1.1`).
pub const AES_SBOX: [u8; 256] = [
    0x63, 0x7c, 0x77, 0x7b, 0xf2, 0x6b, 0x6f, 0xc5, 0x30, 0x01, 0x67, 0x2b, 0xfe, 0xd7, 0xab, 0x76,
    0xca, 0x82, 0xc9, 0x7d, 0xfa, 0x59, 0x47, 0xf0, 0xad, 0xd4, 0xa2, 0xaf, 0x9c, 0xa4, 0x72, 0xc0,
    0xb7, 0xfd, 0x93, 0x26, 0x36, 0x3f, 0xf7, 0xcc, 0x34, 0xa5, 0xe5, 0xf1, 0x71, 0xd8, 0x31, 0x15,
    0x04, 0xc7, 0x23, 0xc3, 0x18, 0x96, 0x05, 0x9a, 0x07, 0x12, 0x80, 0xe2, 0xeb, 0x27, 0xb2, 0x75,
    0x09, 0x83, 0x2c, 0x1a, 0x1b, 0x6e, 0x5a, 0xa0, 0x52, 0x3b, 0xd6, 0xb3, 0x29, 0xe3, 0x2f, 0x84,
    0x53, 0xd1, 0x00, 0xed, 0x20, 0xfc, 0xb1, 0x5b, 0x6a, 0xcb, 0xbe, 0x39, 0x4a, 0x4c, 0x58, 0xcf,
    0xd0, 0xef, 0xaa, 0xfb, 0x43, 0x4d, 0x33, 0x85, 0x45, 0xf9, 0x02, 0x7f, 0x50, 0x3c, 0x9f, 0xa8,
    0x51, 0xa3, 0x40, 0x8f, 0x92, 0x9d, 0x38, 0xf5, 0xbc, 0xb6, 0xda, 0x21, 0x10, 0xff, 0xf3, 0xd2,
    0xcd, 0x0c, 0x13, 0xec, 0x5f, 0x97, 0x44, 0x17, 0xc4, 0xa7, 0x7e, 0x3d, 0x64, 0x5d, 0x19, 0x73,
    0x60, 0x81, 0x4f, 0xdc, 0x22, 0x2a, 0x90, 0x88, 0x46, 0xee, 0xb8, 0x14, 0xde, 0x5e, 0x0b, 0xdb,
    0xe0, 0x32, 0x3a, 0x0a, 0x49, 0x06, 0x24, 0x5c, 0xc2, 0xd3, 0xac, 0x62, 0x91, 0x95, 0xe4, 0x79,
    0xe7, 0xc8, 0x37, 0x6d, 0x8d, 0xd5, 0x4e, 0xa9, 0x6c, 0x56, 0xf4, 0xea, 0x65, 0x7a, 0xae, 0x08,
    0xba, 0x78, 0x25, 0x2e, 0x1c, 0xa6, 0xb4, 0xc6, 0xe8, 0xdd, 0x74, 0x1f, 0x4b, 0xbd, 0x8b, 0x8a,
    0x70, 0x3e, 0xb5, 0x66, 0x48, 0x03, 0xf6, 0x0e, 0x61, 0x35, 0x57, 0xb9, 0x86, 0xc1, 0x1d, 0x9e,
    0xe1, 0xf8, 0x98, 0x11, 0x69, 0xd9, 0x8e, 0x94, 0x9b, 0x1e, 0x87, 0xe9, 0xce, 0x55, 0x28, 0xdf,
    0x8c, 0xa1, 0x89, 0x0d, 0xbf, 0xe6, 0x42, 0x68, 0x41, 0x99, 0x2d, 0x0f, 0xb0, 0x54, 0xbb, 0x16,
];


/// `after` only appended instructions to `before` and allocated exactly
/// `by` more secret registers.
pub open spec fn grows(before: BuilderView, after: BuilderView, by: int) -> bool {
    &&& after.inputs == before.inputs
    &&& after.outputs == before.outputs
    &&& after.next_clear == before.next_clear
    &&& before.instructions.len() <= after.instructions.len()
    &&& after.instructions.subrange(0, before.instructions.len() as int) == before.instructions
    &&& after.next_secret == before.next_secret + by
}

/// `b` is a run of `n` single bits below the builder's next register.
pub open spec fn lane(b: BitsView, n: int, v: BuilderView) -> bool {
    &&& b.range.len == n
    &&& b.width == 1
    &&& b.range.base + n <= v.next_secret
}

/// `p` is eight lanes of `n` bits: bit `k` of `n` bytes in lane `k`.
pub open spec fn planes(p: Seq<Bits>, n: int, v: BuilderView) -> bool {
    &&& p.len() == 8
    &&& forall|k: int| 0 <= k < 8 ==> lane(#[trigger] p[k]@, n, v)
}

/// Every handle is one bit below the builder's next register.
pub open spec fn single_bits(s: Seq<Bits>, v: BuilderView) -> bool {
    forall|k: int| 0 <= k < s.len() ==> lane(#[trigger] s[k]@, 1, v)
}

proof fn lemma_grows_trans(a: BuilderView, b: BuilderView, c: BuilderView, x: int, y: int)
    requires
        grows(a, b, x),
        grows(b, c, y),
    ensures
        grows(a, c, x + y),
{
    assert(c.instructions.subrange(0, a.instructions.len() as int) =~= c.instructions.subrange(
        0,
        b.instructions.len() as int,
    ).subrange(0, a.instructions.len() as int));
}

proof fn lemma_grows_op(v: BuilderView, len: u32, i: InstructionView)
    requires
        v.next_secret + len <= u32::MAX,
    ensures
        grows(v, op_secret(v, len, i), len as int),
{
    let after = op_secret(v, len, i);
    assert(after.instructions.subrange(0, v.instructions.len() as int) =~= v.instructions);
}

proof fn lemma_grows_extended(v: BuilderView, more: Seq<InstructionView>, by: int)
    requires
        0 <= by,
        v.next_secret + by <= u32::MAX,
    ensures
        grows(v, extended(v, more, by, 0), by),
{
    let after = extended(v, more, by, 0);
    assert(after.instructions.subrange(0, v.instructions.len() as int) =~= v.instructions);
}

proof fn lemma_lane_grows(b: BitsView, n: int, v: BuilderView, w: BuilderView, by: int)
    requires
        lane(b, n, v),
        grows(v, w, by),
        by >= 0,
    ensures
        lane(b, n, w),
{
}

proof fn lemma_lane_count(b: BitsView, n: int, v: BuilderView)
    requires
        lane(b, n, v),
    ensures
        crate::vm::builder::elements_of(b.range, b.width) == n,
{
    assert(b.range.len / 1 == b.range.len) by (nonlinear_arith);
}

proof fn lemma_single_total(s: Seq<Bits>, v: BuilderView, k: int)
    requires
        single_bits(s, v),
        0 <= k <= s.len(),
    ensures
        range_total(bits_ranges_of(s), k) == k,
    decreases k,
{
    if k > 0 {
        lemma_single_total(s, v, k - 1);
        assert(bits_ranges_of(s)[k - 1] == s[k - 1]@.range);
    }
}

/// `a XOR b` on equal lanes.
fn gate_xor(builder: &mut ProgramBuilder, a: Bits, b: Bits, Ghost(n): Ghost<int>) -> (c: Bits)
    requires
        lane(a@, n, old(builder)@),
        room(old(builder)@, n as int, 0),
    ensures
        lane(c@, n, final(builder)@),
        grows(old(builder)@, final(builder)@, n as int),
        c@.range == fresh_secret(old(builder)@, n as u32),
        final(builder)@.instructions == old(builder)@.instructions.push(InstructionView::XorS { pairs: seq![MulTriple { dest: c@.range, a: a@.range, b: b@.range }] }),
{
    let c = builder.xor(a, b);
    proof {
        lemma_grows_op(old(builder)@, a@.range.len, final(builder)@.instructions.last());
    }
    c
}

/// `a AND b` on equal lanes.
fn gate_and(builder: &mut ProgramBuilder, a: Bits, b: Bits, Ghost(n): Ghost<int>) -> (c: Bits)
    requires
        lane(a@, n, old(builder)@),
        room(old(builder)@, n as int, 0),
    ensures
        lane(c@, n, final(builder)@),
        grows(old(builder)@, final(builder)@, n as int),
        c@.range == fresh_secret(old(builder)@, n as u32),
        final(builder)@.instructions == old(builder)@.instructions.push(InstructionView::AndS { pairs: seq![MulTriple { dest: c@.range, a: a@.range, b: b@.range }] }),
{
    let c = builder.and(a, b);
    proof {
        lemma_grows_op(old(builder)@, a@.range.len, final(builder)@.instructions.last());
    }
    c
}

/// `NOT a` on a lane.
fn gate_not(builder: &mut ProgramBuilder, a: Bits, Ghost(n): Ghost<int>) -> (c: Bits)
    requires
        lane(a@, n, old(builder)@),
        room(old(builder)@, n as int, 0),
    ensures
        lane(c@, n, final(builder)@),
        grows(old(builder)@, final(builder)@, n as int),
        c@.range == fresh_secret(old(builder)@, n as u32),
        final(builder)@.instructions == old(builder)@.instructions.push(InstructionView::NotS { dest: c@.range, a: a@.range }),
{
    let c = builder.not(a);
    proof {
        lemma_grows_op(old(builder)@, a@.range.len, final(builder)@.instructions.last());
    }
    c
}

/// One contiguous lane copied from single-bit handles.
fn join(builder: &mut ProgramBuilder, handles: &Vec<Bits>) -> (joined: Bits)
    requires
        handles@.len() > 0,
        handles@.len() <= 0x10000,
        single_bits(handles@, old(builder)@),
        room(old(builder)@, 2 * handles@.len() as int, 0),
    ensures
        lane(joined@, handles@.len() as int, final(builder)@),
        grows(old(builder)@, final(builder)@, 2 * handles@.len() as int),
        forall|i: int|
            old(builder)@.instructions.len() <= i < final(builder)@.instructions.len() ==> (
            #[trigger] final(builder)@.instructions[i]) is NotS,
{
    proof {
        lemma_single_total(handles@, old(builder)@, handles@.len() as int);
    }
    let joined = builder.join_bits(handles.as_slice());
    proof {
        let more = join_instructions(old(builder)@, bits_ranges_of(handles@));
        assert(builder@.instructions == old(builder)@.instructions + more);
        assert forall|i: int|
            old(builder)@.instructions.len() <= i < builder@.instructions.len() implies (
            #[trigger] builder@.instructions[i]) is NotS by {
            assert(builder@.instructions[i] == more[i - old(builder)@.instructions.len()]);
        }
        lemma_grows_extended(
            old(builder)@,
            join_instructions(old(builder)@, bits_ranges_of(handles@)),
            2 * handles@.len() as int,
        );
    }
    joined
}

proof fn lemma_planes_grow(p: Seq<Bits>, n: int, v: BuilderView, w: BuilderView, by: int)
    requires
        planes(p, n, v),
        grows(v, w, by),
        by >= 0,
    ensures
        planes(p, n, w),
{
}

/// The eight lanes of `n` width-8 groups: lane `k` copies bit `k` of
/// every group.
fn lanes_of(builder: &mut ProgramBuilder, bits: Bits, Ghost(n): Ghost<int>) -> (lanes: Vec<Bits>)
    requires
        0 < n <= 0x10000,
        bits@.range.len == 8 * n,
        bits@.width == 8,
        bits@.range.base + 8 * n <= old(builder)@.next_secret,
        room(old(builder)@, 16 * n, 0),
    ensures
        planes(lanes@, n, final(builder)@),
        grows(old(builder)@, final(builder)@, 16 * n),
{
    let mut lanes: Vec<Bits> = Vec::new();
    let mut position: u8 = 0;
    assert(bits@.range.len / 8 == n) by (nonlinear_arith)
        requires
            bits@.range.len == 8 * n,
    ;
    assert(crate::vm::builder::elements_of(bits@.range, bits@.width) == n);
    assert(builder@.instructions.subrange(0, builder@.instructions.len() as int) =~= builder@.instructions);
    while position < 8
        invariant
            0 < n <= 0x10000,
            bits@.width == 8,
            position <= 8,
            lanes@.len() == position,
            forall|k: int| 0 <= k < position ==> lane(#[trigger] lanes@[k]@, n, builder@),
            grows(old(builder)@, builder@, 2 * n * position),
            bits@.range.base + 8 * n <= builder@.next_secret,
            crate::vm::builder::elements_of(bits@.range, bits@.width) == n,
            room(old(builder)@, 16 * n, 0),
        decreases 8 - position,
    {
        let ghost before = builder@;
        assert(bits@.range.base + (n - 1) * 8 + position <= u32::MAX) by (nonlinear_arith)
            requires
                bits@.range.base + 8 * n <= before.next_secret,
                before.next_secret <= u32::MAX,
                position < 8,
                n > 0,
        ;
        assert(2 * n * position + 2 * n <= 16 * n) by (nonlinear_arith)
            requires
                position < 8,
                n > 0,
        ;
        assert(room(before, 2 * n, 0));
        assert(bits@.range.base + (n - 1) * bits@.width + position <= u32::MAX);
        let one = builder.bit_lane(bits, position);
        proof {
            lemma_grows_extended(
                before,
                crate::vm::builder::gather_instructions(before, bits@, position, n as u32),
                2 * n,
            );
            lemma_grows_trans(old(builder)@, before, builder@, 2 * n * position, 2 * n);
            assert(2 * n * position + 2 * n == 2 * n * (position + 1)) by (nonlinear_arith);
            assert forall|k: int| 0 <= k < position implies lane(#[trigger] lanes@[k]@, n, builder@) by {
                lemma_lane_grows(lanes@[k]@, n, before, builder@, 2 * n);
            }
        }
        lanes.push(one);
        position = position + 1;
    }
    assert(2 * n * 8 == 16 * n);
    lanes
}

/// Bit planes of `n` byte-valued secrets: one decomposition round, then
/// the lanes.
fn planes_from_secret(builder: &mut ProgramBuilder, bytes: Secret, Ghost(n): Ghost<int>) -> (lanes: Vec<Bits>)
    requires
        0 < n <= 0x10000,
        bytes@.len == n,
        room(old(builder)@, 24 * n, 0),
    ensures
        planes(lanes@, n, final(builder)@),
        grows(old(builder)@, final(builder)@, 24 * n),
{
    let ghost start = builder@;
    let packed = builder.bit_dec(bytes, 8);
    proof {
        assert(crate::vm::builder::sat_mul(n as u32, 8) == 8 * n);
        lemma_grows_op(start, (8 * n) as u32, builder@.instructions.last());
    }
    let ghost middle = builder@;
    let lanes = lanes_of(builder, packed, Ghost(n));
    proof {
        lemma_grows_trans(start, middle, builder@, 8 * n, 16 * n);
    }
    lanes
}

/// Bit `position` of byte `element`, over bit planes.
fn plane_bit(lanes: &Vec<Bits>, position: usize, element: u32, Ghost(n): Ghost<int>, Ghost(v): Ghost<BuilderView>) -> (bit: Bits)
    requires
        planes(lanes@, n, v),
        position < 8,
        element < n,
    ensures
        lane(bit@, 1, v),
{
    let bit = lanes[position].bit(element, 0);
    assert(lane(lanes@[position as int]@, n, v));
    assert(element * 1 == element);
    bit
}

/// The bits of `n` bytes interleaved LSB-first: byte 0's eight bits,
/// then byte 1's, and so on.
fn interleave(lanes: &Vec<Bits>, count: u32, Ghost(v): Ghost<BuilderView>) -> (bits: Vec<Bits>)
    requires
        planes(lanes@, count as int, v),
        count <= 0x10000,
    ensures
        bits@.len() == 8 * count,
        single_bits(bits@, v),
{
    let mut bits: Vec<Bits> = Vec::new();
    let mut element: u32 = 0;
    while element < count
        invariant
            element <= count <= 0x10000,
            bits@.len() == 8 * element,
            single_bits(bits@, v),
            planes(lanes@, count as int, v),
        decreases count - element,
    {
        let mut position: usize = 0;
        while position < 8
            invariant
                position <= 8,
                element < count,
                bits@.len() == 8 * element + position,
                single_bits(bits@, v),
                planes(lanes@, count as int, v),
            decreases 8 - position,
        {
            let one = plane_bit(lanes, position, element, Ghost(count as int), Ghost(v));
            bits.push(one);
            position = position + 1;
        }
        element = element + 1;
    }
    bits
}

/// Table-lookup S-box over bit planes of `n` bytes.
fn planes_from_sbox(builder: &mut ProgramBuilder, state: &Vec<Bits>, Ghost(n): Ghost<int>) -> (lanes: Vec<Bits>)
    requires
        0 < n <= 16,
        planes(state@, n, old(builder)@),
        room(old(builder)@, 40 * n, 0),
    ensures
        planes(lanes@, n, final(builder)@),
        grows(old(builder)@, final(builder)@, 40 * n),
{
    let ghost start = builder@;
    proof {
        lemma_lane_count(state@[0]@, n, start);
    }
    let count = state[0].len();
    assert(count == n);
    let ordered = interleave(state, count, Ghost(start));
    let flat = join(builder, &ordered);
    let ghost joined = builder@;
    let substituted = builder.sbox(flat.regroup(8));
    proof {
        lemma_grows_op(joined, (8 * n) as u32, builder@.instructions.last());
        lemma_grows_trans(start, joined, builder@, 16 * n, 8 * n);
    }
    let ghost looked = builder@;
    let lanes = lanes_of(builder, substituted, Ghost(n));
    proof {
        lemma_grows_trans(start, looked, builder@, 24 * n, 16 * n);
    }
    lanes
}

/// Pack bit planes of `n` bytes back into `n` byte-valued secrets.
fn secret_from_planes(builder: &mut ProgramBuilder, state: &Vec<Bits>, Ghost(n): Ghost<int>) -> (bytes: Secret)
    requires
        0 < n <= 16,
        planes(state@, n, old(builder)@),
        room(old(builder)@, 17 * n, 0),
    ensures
        bytes@.len == n,
        bytes@.base + n == final(builder)@.next_secret,
        final(builder)@.instructions.last() matches InstructionView::Pack { dest, width, .. } && dest == bytes@
            && width == 8,
        grows(old(builder)@, final(builder)@, 17 * n),
        forall|i: int|
            old(builder)@.instructions.len() <= i < final(builder)@.instructions.len() - 1 ==> (
            #[trigger] final(builder)@.instructions[i]) is NotS,
{
    let ghost start = builder@;
    proof {
        lemma_lane_count(state@[0]@, n, start);
    }
    let count = state[0].len();
    let ordered = interleave(state, count, Ghost(start));
    let flat = join(builder, &ordered);
    let ghost joined = builder@;
    let grouped = flat.regroup(8);
    assert(crate::vm::builder::elements_of(grouped@.range, grouped@.width) == n);
    let bytes = builder.pack(grouped);
    proof {
        assert forall|i: int|
            start.instructions.len() <= i < builder@.instructions.len() - 1 implies (
            #[trigger] builder@.instructions[i]) is NotS by {
            assert(builder@.instructions[i] == joined.instructions[i]);
        }
        lemma_grows_op(joined, n as u32, builder@.instructions.last());
        lemma_grows_trans(start, joined, builder@, 16 * n, n as int);
    }
    bytes
}

/// Whether the eight instructions from `at` XOR a round key in: the
/// instruction at `at + p` is a one-pair `XorS` whose second operand is
/// plane `p` of `key`.
pub open spec fn mixes_key_at(instructions: Seq<InstructionView>, at: int, key: Seq<Bits>) -> bool {
    &&& 0 <= at
    &&& at + 8 <= instructions.len()
    &&& forall|p: int|
        0 <= p < 8 ==> (#[trigger] instructions[at + p] matches InstructionView::XorS { pairs } && pairs.len() == 1
            && pairs[0].b == key[p]@.range)
}

/// XOR the round key into the state, lane by lane.
fn add_round_key(builder: &mut ProgramBuilder, state: &Vec<Bits>, key: &Vec<Bits>, Ghost(n): Ghost<int>) -> (lanes: Vec<Bits>)
    requires
        0 < n <= 16,
        planes(state@, n, old(builder)@),
        planes(key@, n, old(builder)@),
        room(old(builder)@, 8 * n, 0),
    ensures
        planes(lanes@, n, final(builder)@),
        grows(old(builder)@, final(builder)@, 8 * n),
        final(builder)@.instructions == old(builder)@.instructions + Seq::new(
            8,
            |p: int|
                InstructionView::XorS {
                    pairs: seq![MulTriple { dest: lanes@[p]@.range, a: state@[p]@.range, b: key@[p]@.range }],
                },
        ),
{
    let mut lanes: Vec<Bits> = Vec::new();
    let mut position: usize = 0;
    assert(builder@.instructions.subrange(0, builder@.instructions.len() as int) =~= builder@.instructions);
    assert(builder@.instructions =~= old(builder)@.instructions + Seq::new(
        0,
        |p: int|
            InstructionView::XorS {
                pairs: seq![MulTriple { dest: lanes@[p]@.range, a: state@[p]@.range, b: key@[p]@.range }],
            },
    ));
    while position < 8
        invariant
            builder@.instructions == old(builder)@.instructions + Seq::new(
                position as nat,
                |p: int|
                    InstructionView::XorS {
                        pairs: seq![MulTriple { dest: lanes@[p]@.range, a: state@[p]@.range, b: key@[p]@.range }],
                    },
            ),
            position <= 8,
            lanes@.len() == position,
            forall|k: int| 0 <= k < position ==> lane(#[trigger] lanes@[k]@, n, builder@),
            grows(old(builder)@, builder@, n * position),
            0 < n <= 16,
            planes(state@, n, builder@),
            planes(key@, n, builder@),
            room(old(builder)@, 8 * n, 0),
        decreases 8 - position,
    {
        let ghost before = builder@;
        assert(n * position + n <= 8 * n) by (nonlinear_arith)
            requires
                position < 8,
                n >= 0,
        ;
        let one = gate_xor(builder, state[position], key[position], Ghost(n));
        proof {
            lemma_grows_trans(old(builder)@, before, builder@, n * position, n as int);
            assert(n * position + n == n * (position + 1)) by (nonlinear_arith);
            assert forall|k: int| 0 <= k < position implies lane(#[trigger] lanes@[k]@, n, builder@) by {
                lemma_lane_grows(lanes@[k]@, n, before, builder@, n as int);
            }
            lemma_planes_grow(state@, n, before, builder@, n as int);
            lemma_planes_grow(key@, n, before, builder@, n as int);
        }
        let ghost prior = lanes@;
        lanes.push(one);
        position = position + 1;
        assert(builder@.instructions =~= old(builder)@.instructions + Seq::new(
            position as nat,
            |p: int|
                InstructionView::XorS {
                    pairs: seq![MulTriple { dest: lanes@[p]@.range, a: state@[p]@.range, b: key@[p]@.range }],
                },
        )) by {
            assert forall|p: int| 0 <= p < position - 1 implies lanes@[p] == prior[p] by {}
        }
    }
    assert(n * 8 == 8 * n);
    lanes
}

/// `after` only appended instructions to `before` and allocated at
/// most `most` more secret registers.
pub open spec fn within(before: BuilderView, after: BuilderView, most: int) -> bool {
    &&& after.inputs == before.inputs
    &&& after.outputs == before.outputs
    &&& after.next_clear == before.next_clear
    &&& before.instructions.len() <= after.instructions.len()
    &&& after.instructions.subrange(0, before.instructions.len() as int) == before.instructions
    &&& before.next_secret <= after.next_secret <= before.next_secret + most
}

proof fn lemma_grows_within(a: BuilderView, b: BuilderView, x: int, most: int)
    requires
        grows(a, b, x),
        0 <= x <= most,
    ensures
        within(a, b, most),
{
}

proof fn lemma_within_trans(a: BuilderView, b: BuilderView, c: BuilderView, x: int, y: int)
    requires
        within(a, b, x),
        within(b, c, y),
    ensures
        within(a, c, x + y),
{
    assert(c.instructions.subrange(0, a.instructions.len() as int) =~= c.instructions.subrange(
        0,
        b.instructions.len() as int,
    ).subrange(0, a.instructions.len() as int));
}

proof fn lemma_within_same(v: BuilderView)
    ensures
        within(v, v, 0),
{
    assert(v.instructions.subrange(0, v.instructions.len() as int) =~= v.instructions);
}

/// `count` handles of `bits` from `start`, in order.
fn take_bits(bits: &Vec<Bits>, start: usize, count: usize) -> (taken: Vec<Bits>)
    requires
        start + count <= bits@.len(),
    ensures
        taken@ == bits@.subrange(start as int, start + count),
{
    let mut taken: Vec<Bits> = Vec::new();
    let total = bits.len();
    let mut k: usize = 0;
    while k < count
        invariant
            k <= count,
            total == bits@.len(),
            start + count <= bits@.len(),
            taken@ == bits@.subrange(start as int, start + k),
        decreases count - k,
    {
        taken.push(bits[start + k]);
        k = k + 1;
        assert(taken@ =~= bits@.subrange(start as int, start + k));
    }
    taken
}

proof fn lemma_single_lefts_total(pairs: Seq<(Bits, Bits)>, v: BuilderView, k: int)
    requires
        forall|j: int| 0 <= j < pairs.len() ==> lane(#[trigger] pairs[j].0@, 1, v),
        0 <= k <= pairs.len(),
    ensures
        range_total(bit_lefts(pairs), k) == k,
    decreases k,
{
    if k > 0 {
        lemma_single_lefts_total(pairs, v, k - 1);
        assert(bit_lefts(pairs)[k - 1] == pairs[k - 1].0@.range);
        assert(lane(pairs[k - 1].0@, 1, v));
    }
}

/// One batched XOR over pairs of single bits.
fn xor_pairs(builder: &mut ProgramBuilder, pairs: &Vec<(Bits, Bits)>) -> (xors: Vec<Bits>)
    requires
        forall|j: int| 0 <= j < pairs@.len() ==> lane(#[trigger] pairs@[j].0@, 1, old(builder)@),
        room(old(builder)@, pairs@.len() as int, 0),
    ensures
        xors@.len() == pairs@.len(),
        single_bits(xors@, final(builder)@),
        grows(old(builder)@, final(builder)@, pairs@.len() as int),
{
    proof {
        lemma_single_lefts_total(pairs@, old(builder)@, pairs@.len() as int);
    }
    let xors = builder.xor_many(pairs.as_slice());
    proof {
        let start = old(builder)@;
        let lefts = bit_lefts(pairs@);
        lemma_grows_op(start, pairs@.len() as u32, final(builder)@.instructions.last());
        assert forall|k: int| 0 <= k < xors@.len() implies lane(#[trigger] xors@[k]@, 1, final(builder)@) by {
            lemma_single_lefts_total(pairs@, start, k);
            assert(lefts[k] == pairs@[k].0@.range);
            assert(lane(pairs@[k].0@, 1, start));
        }
    }
    xors
}

/// Bitwise XOR of two equally long runs of single bits.
fn xor_bytes_many(builder: &mut ProgramBuilder, a: &Vec<Bits>, b: &Vec<Bits>) -> (xors: Vec<Bits>)
    requires
        a@.len() == b@.len(),
        single_bits(a@, old(builder)@),
        room(old(builder)@, a@.len() as int, 0),
    ensures
        xors@.len() == a@.len(),
        single_bits(xors@, final(builder)@),
        grows(old(builder)@, final(builder)@, a@.len() as int),
{
    let mut pairs: Vec<(Bits, Bits)> = Vec::new();
    let mut k: usize = 0;
    while k < a.len()
        invariant
            k <= a@.len() == b@.len(),
            pairs@.len() == k,
            single_bits(a@, builder@),
            forall|j: int| 0 <= j < k ==> (#[trigger] pairs@[j]).0 == a@[j],
        decreases a@.len() - k,
    {
        pairs.push((a[k], b[k]));
        k = k + 1;
    }
    assert forall|j: int| 0 <= j < pairs@.len() implies lane(#[trigger] pairs@[j].0@, 1, builder@) by {
        assert(pairs@[j].0 == a@[j]);
    }
    xor_pairs(builder, &pairs)
}

/// Multiplication by `x` in GF(2^8) for every byte of a run of bytes
/// (FIPS 197 §4.2.1): a rotation with three conditional flips.
fn xtime_many(builder: &mut ProgramBuilder, bytes: &Vec<Bits>) -> (doubled: Vec<Bits>)
    requires
        bytes@.len() % 8 == 0,
        bytes@.len() <= 0x10000,
        single_bits(bytes@, old(builder)@),
        room(old(builder)@, 3 * (bytes@.len() / 8) as int, 0),
    ensures
        doubled@.len() == bytes@.len(),
        single_bits(doubled@, final(builder)@),
        grows(old(builder)@, final(builder)@, 3 * (bytes@.len() / 8) as int),
{
    let count = bytes.len() / 8;
    let mut pairs: Vec<(Bits, Bits)> = Vec::new();
    let mut e: usize = 0;
    while e < count
        invariant
            count == bytes@.len() / 8,
            bytes@.len() % 8 == 0,
            bytes@.len() <= 0x10000,
            e <= count,
            pairs@.len() == 3 * e,
            single_bits(bytes@, builder@),
            forall|j: int| 0 <= j < pairs@.len() ==> lane(#[trigger] pairs@[j].0@, 1, builder@),
        decreases count - e,
    {
        let high = bytes[8 * e + 7];
        pairs.push((bytes[8 * e], high));
        pairs.push((bytes[8 * e + 2], high));
        pairs.push((bytes[8 * e + 3], high));
        e = e + 1;
    }
    let ghost mid = builder@;
    let flips = xor_pairs(builder, &pairs);
    let mut doubled: Vec<Bits> = Vec::new();
    let mut e: usize = 0;
    while e < count
        invariant
            count == bytes@.len() / 8,
            bytes@.len() % 8 == 0,
            bytes@.len() <= 0x10000,
            e <= count,
            flips@.len() == 3 * count,
            doubled@.len() == 8 * e,
            single_bits(bytes@, mid),
            mid.next_secret <= builder@.next_secret,
            single_bits(flips@, builder@),
            single_bits(doubled@, builder@),
        decreases count - e,
    {
        doubled.push(bytes[8 * e + 7]);
        doubled.push(flips[3 * e]);
        doubled.push(bytes[8 * e + 1]);
        doubled.push(flips[3 * e + 1]);
        doubled.push(flips[3 * e + 2]);
        doubled.push(bytes[8 * e + 4]);
        doubled.push(bytes[8 * e + 5]);
        doubled.push(bytes[8 * e + 6]);
        e = e + 1;
    }
    doubled
}

/// RotWord: the four bytes of a key-schedule word turned left by one
/// byte.
fn rot_word(word: &Vec<Bits>) -> (turned: Vec<Bits>)
    requires
        word@.len() == 32,
    ensures
        turned@.len() == 32,
        forall|k: int| 0 <= k < 32 ==> #[trigger] turned@[k] == word@[(k + 8) % 32],
{
    let mut turned: Vec<Bits> = Vec::new();
    let mut k: usize = 0;
    while k < 32
        invariant
            k <= 32,
            word@.len() == 32,
            turned@.len() == k,
            forall|j: int| 0 <= j < k ==> #[trigger] turned@[j] == word@[(j + 8) % 32],
        decreases 32 - k,
    {
        turned.push(word[(k + 8) % 32]);
        k = k + 1;
    }
    turned
}

/// XOR a round constant into the first byte of a word: flip the bits
/// that are set in `rcon`.
fn xor_rcon(builder: &mut ProgramBuilder, word: Vec<Bits>, rcon: u8) -> (flipped: Vec<Bits>)
    requires
        word@.len() >= 8,
        single_bits(word@, old(builder)@),
        room(old(builder)@, 8, 0),
    ensures
        flipped@.len() == word@.len(),
        single_bits(flipped@, final(builder)@),
        within(old(builder)@, final(builder)@, 8),
        forall|k: int| 8 <= k < word@.len() ==> #[trigger] flipped@[k] == word@[k],
{
    let mut flipped = word;
    let mut position: usize = 0;
    proof {
        lemma_within_same(builder@);
    }
    while position < 8
        invariant
            position <= 8,
            flipped@.len() == word@.len(),
            word@.len() >= 8,
            single_bits(flipped@, builder@),
            within(old(builder)@, builder@, position as int),
            room(old(builder)@, 8, 0),
            forall|k: int| 8 <= k < word@.len() ==> #[trigger] flipped@[k] == word@[k],
        decreases 8 - position,
    {
        if (rcon >> position) & 1 == 1 {
            let ghost before = builder@;
            let bit = flipped[position];
            let negated = gate_not(builder, bit, Ghost(1));
            proof {
                lemma_grows_within(before, builder@, 1, 1);
                lemma_within_trans(old(builder)@, before, builder@, position as int, 1);
            }
            flipped.set(position, negated);
        } else {
            proof {
                assert(within(old(builder)@, builder@, position + 1));
            }
        }
        position = position + 1;
    }
    flipped
}

/// Bit planes of `count` bytes held as single bits: lane `k` joins bit
/// `k` of every byte.
fn bytes_to_planes(builder: &mut ProgramBuilder, bytes: &Vec<Bits>, count: usize) -> (lanes: Vec<Bits>)
    requires
        0 < count <= 16,
        bytes@.len() == 8 * count,
        single_bits(bytes@, old(builder)@),
        room(old(builder)@, 16 * count, 0),
    ensures
        planes(lanes@, count as int, final(builder)@),
        grows(old(builder)@, final(builder)@, 16 * count),
{
    let mut lanes: Vec<Bits> = Vec::new();
    let mut position: usize = 0;
    assert(builder@.instructions.subrange(0, builder@.instructions.len() as int) =~= builder@.instructions);
    while position < 8
        invariant
            0 < count <= 16,
            bytes@.len() == 8 * count,
            position <= 8,
            lanes@.len() == position,
            forall|k: int| 0 <= k < position ==> lane(#[trigger] lanes@[k]@, count as int, builder@),
            grows(old(builder)@, builder@, 2 * count * position),
            single_bits(bytes@, builder@),
            room(old(builder)@, 16 * count, 0),
        decreases 8 - position,
    {
        let mut column: Vec<Bits> = Vec::new();
        let mut e: usize = 0;
        while e < count
            invariant
                0 < count <= 16,
                bytes@.len() == 8 * count,
                position < 8,
                e <= count,
                column@.len() == e,
                single_bits(bytes@, builder@),
                single_bits(column@, builder@),
            decreases count - e,
        {
            column.push(bytes[8 * e + position]);
            e = e + 1;
        }
        let ghost before = builder@;
        let one = join(builder, &column);
        proof {
            lemma_grows_trans(old(builder)@, before, builder@, 2 * count * position, 2 * count);
            assert(2 * count * position + 2 * count == 2 * count * (position + 1)) by (nonlinear_arith);
            assert forall|k: int| 0 <= k < position implies lane(#[trigger] lanes@[k]@, count as int, builder@) by {
                lemma_lane_grows(lanes@[k]@, count as int, before, builder@, 2 * count);
            }
        }
        lanes.push(one);
        position = position + 1;
    }
    lanes
}

/// ShiftRows on bit planes of the 16-byte state (FIPS 197 §5.1.2):
/// byte `4 * column + row` takes the byte of column `column + row`
/// (mod 4) in the same row.
fn shift_rows(builder: &mut ProgramBuilder, state: &Vec<Bits>) -> (lanes: Vec<Bits>)
    requires
        planes(state@, 16, old(builder)@),
        room(old(builder)@, 256, 0),
    ensures
        planes(lanes@, 16, final(builder)@),
        grows(old(builder)@, final(builder)@, 256),
{
    let mut lanes: Vec<Bits> = Vec::new();
    let mut position: usize = 0;
    assert(builder@.instructions.subrange(0, builder@.instructions.len() as int) =~= builder@.instructions);
    while position < 8
        invariant
            position <= 8,
            lanes@.len() == position,
            forall|k: int| 0 <= k < position ==> lane(#[trigger] lanes@[k]@, 16, builder@),
            grows(old(builder)@, builder@, 32 * position),
            planes(state@, 16, builder@),
            room(old(builder)@, 256, 0),
        decreases 8 - position,
    {
        let mut ordered: Vec<Bits> = Vec::new();
        let mut index: u32 = 0;
        while index < 16
            invariant
                position < 8,
                index <= 16,
                ordered@.len() == index,
                planes(state@, 16, builder@),
                single_bits(ordered@, builder@),
            decreases 16 - index,
        {
            let column = index / 4;
            let row = index % 4;
            let source = 4 * ((column + row) % 4) + row;
            let one = plane_bit(state, position, source, Ghost(16), Ghost(builder@));
            ordered.push(one);
            index = index + 1;
        }
        let ghost before = builder@;
        let one = join(builder, &ordered);
        proof {
            lemma_grows_trans(old(builder)@, before, builder@, 32 * position, 32);
            assert forall|k: int| 0 <= k < position implies lane(#[trigger] lanes@[k]@, 16, builder@) by {
                lemma_lane_grows(lanes@[k]@, 16, before, builder@, 32);
            }
            lemma_planes_grow(state@, 16, before, builder@, 32);
        }
        lanes.push(one);
        position = position + 1;
    }
    lanes
}

proof fn lemma_grows_none(v: BuilderView)
    ensures
        grows(v, v, 0),
{
    assert(v.instructions.subrange(0, v.instructions.len() as int) =~= v.instructions);
}

proof fn lemma_single_later(s: Seq<Bits>, v: BuilderView, w: BuilderView)
    requires
        single_bits(s, v),
        v.next_secret <= w.next_secret,
    ensures
        single_bits(s, w),
{
    assert forall|k: int| 0 <= k < s.len() implies lane(#[trigger] s[k]@, 1, w) by {
        assert(lane(s[k]@, 1, v));
    }
}

/// Row `row` of the 16-byte state in column order: bytes `row`,
/// `row + 4`, `row + 8` and `row + 12`.
fn state_row(bytes: &Vec<Bits>, row: usize, Ghost(v): Ghost<BuilderView>) -> (picked: Vec<Bits>)
    requires
        bytes@.len() == 128,
        row < 4,
        single_bits(bytes@, v),
    ensures
        picked@.len() == 32,
        single_bits(picked@, v),
        forall|k: int| 0 <= k < 32 ==> #[trigger] picked@[k] == bytes@[8 * (4 * (k / 8) + row) + k % 8],
{
    let mut picked: Vec<Bits> = Vec::new();
    let mut k: usize = 0;
    while k < 32
        invariant
            bytes@.len() == 128,
            row < 4,
            k <= 32,
            picked@.len() == k,
            single_bits(bytes@, v),
            single_bits(picked@, v),
            forall|j: int| 0 <= j < k ==> #[trigger] picked@[j] == bytes@[8 * (4 * (j / 8) + row) + j % 8],
        decreases 32 - k,
    {
        let index = 8 * (4 * (k / 8) + row) + k % 8;
        picked.push(bytes[index]);
        k = k + 1;
    }
    picked
}

/// MixColumns on all four columns at once (FIPS 197 §5.1.3), on the
/// state's bytes held as single bits; each XOR layer is one batch.
#[verifier::rlimit(40)]
fn mix_columns_parallel(builder: &mut ProgramBuilder, bytes: &Vec<Bits>) -> (mixed: Vec<Bits>)
    requires
        bytes@.len() == 128,
        single_bits(bytes@, old(builder)@),
        room(old(builder)@, 560, 0),
    ensures
        mixed@.len() == 128,
        single_bits(mixed@, final(builder)@),
        grows(old(builder)@, final(builder)@, 560),
{
    let ghost start = builder@;
    proof {
        lemma_grows_none(start);
    }
    let a0 = state_row(bytes, 0, Ghost(start));
    let a1 = state_row(bytes, 1, Ghost(start));
    let a2 = state_row(bytes, 2, Ghost(start));
    let a3 = state_row(bytes, 3, Ghost(start));
    let ghost before = builder@;
    proof {
        lemma_single_later(a0@, start, before);
    }
    let t0 = xtime_many(builder, &a0);
    let ghost made_t0 = builder@;
    proof {
        lemma_grows_trans(start, before, builder@, 0, 12);
    }
    let ghost before = builder@;
    proof {
        lemma_single_later(a1@, start, before);
    }
    let t1 = xtime_many(builder, &a1);
    let ghost made_t1 = builder@;
    proof {
        lemma_grows_trans(start, before, builder@, 12, 12);
    }
    let ghost before = builder@;
    proof {
        lemma_single_later(a2@, start, before);
    }
    let t2 = xtime_many(builder, &a2);
    let ghost made_t2 = builder@;
    proof {
        lemma_grows_trans(start, before, builder@, 24, 12);
    }
    let ghost before = builder@;
    proof {
        lemma_single_later(a3@, start, before);
    }
    let t3 = xtime_many(builder, &a3);
    let ghost made_t3 = builder@;
    proof {
        lemma_grows_trans(start, before, builder@, 36, 12);
    }
    let ghost before = builder@;
    proof {
        lemma_single_later(t1@, made_t1, before);
    }
    let a1x3 = xor_bytes_many(builder, &t1, &a1);
    let ghost made_a1x3 = builder@;
    proof {
        lemma_grows_trans(start, before, builder@, 48, 32);
    }
    let ghost before = builder@;
    proof {
        lemma_single_later(t2@, made_t2, before);
    }
    let a2x3 = xor_bytes_many(builder, &t2, &a2);
    let ghost made_a2x3 = builder@;
    proof {
        lemma_grows_trans(start, before, builder@, 80, 32);
    }
    let ghost before = builder@;
    proof {
        lemma_single_later(t3@, made_t3, before);
    }
    let a3x3 = xor_bytes_many(builder, &t3, &a3);
    let ghost made_a3x3 = builder@;
    proof {
        lemma_grows_trans(start, before, builder@, 112, 32);
    }
    let ghost before = builder@;
    proof {
        lemma_single_later(t0@, made_t0, before);
    }
    let a0x3 = xor_bytes_many(builder, &t0, &a0);
    let ghost made_a0x3 = builder@;
    proof {
        lemma_grows_trans(start, before, builder@, 144, 32);
    }
    let ghost before = builder@;
    proof {
        lemma_single_later(t0@, made_t0, before);
    }
    let b0_a = xor_bytes_many(builder, &t0, &a1x3);
    let ghost made_b0_a = builder@;
    proof {
        lemma_grows_trans(start, before, builder@, 176, 32);
    }
    let ghost before = builder@;
    proof {
        lemma_single_later(b0_a@, made_b0_a, before);
    }
    let b0_b = xor_bytes_many(builder, &b0_a, &a2);
    let ghost made_b0_b = builder@;
    proof {
        lemma_grows_trans(start, before, builder@, 208, 32);
    }
    let ghost before = builder@;
    proof {
        lemma_single_later(b0_b@, made_b0_b, before);
    }
    let b0 = xor_bytes_many(builder, &b0_b, &a3);
    let ghost made_b0 = builder@;
    proof {
        lemma_grows_trans(start, before, builder@, 240, 32);
    }
    let ghost before = builder@;
    proof {
        lemma_single_later(a0@, start, before);
    }
    let b1_a = xor_bytes_many(builder, &a0, &t1);
    let ghost made_b1_a = builder@;
    proof {
        lemma_grows_trans(start, before, builder@, 272, 32);
    }
    let ghost before = builder@;
    proof {
        lemma_single_later(b1_a@, made_b1_a, before);
    }
    let b1_b = xor_bytes_many(builder, &b1_a, &a2x3);
    let ghost made_b1_b = builder@;
    proof {
        lemma_grows_trans(start, before, builder@, 304, 32);
    }
    let ghost before = builder@;
    proof {
        lemma_single_later(b1_b@, made_b1_b, before);
    }
    let b1 = xor_bytes_many(builder, &b1_b, &a3);
    let ghost made_b1 = builder@;
    proof {
        lemma_grows_trans(start, before, builder@, 336, 32);
    }
    let ghost before = builder@;
    proof {
        lemma_single_later(a0@, start, before);
    }
    let b2_a = xor_bytes_many(builder, &a0, &a1);
    let ghost made_b2_a = builder@;
    proof {
        lemma_grows_trans(start, before, builder@, 368, 32);
    }
    let ghost before = builder@;
    proof {
        lemma_single_later(b2_a@, made_b2_a, before);
    }
    let b2_b = xor_bytes_many(builder, &b2_a, &t2);
    let ghost made_b2_b = builder@;
    proof {
        lemma_grows_trans(start, before, builder@, 400, 32);
    }
    let ghost before = builder@;
    proof {
        lemma_single_later(b2_b@, made_b2_b, before);
    }
    let b2 = xor_bytes_many(builder, &b2_b, &a3x3);
    let ghost made_b2 = builder@;
    proof {
        lemma_grows_trans(start, before, builder@, 432, 32);
    }
    let ghost before = builder@;
    proof {
        lemma_single_later(a0x3@, made_a0x3, before);
    }
    let b3_a = xor_bytes_many(builder, &a0x3, &a1);
    let ghost made_b3_a = builder@;
    proof {
        lemma_grows_trans(start, before, builder@, 464, 32);
    }
    let ghost before = builder@;
    proof {
        lemma_single_later(b3_a@, made_b3_a, before);
    }
    let b3_b = xor_bytes_many(builder, &b3_a, &a2);
    let ghost made_b3_b = builder@;
    proof {
        lemma_grows_trans(start, before, builder@, 496, 32);
    }
    let ghost before = builder@;
    proof {
        lemma_single_later(b3_b@, made_b3_b, before);
    }
    let b3 = xor_bytes_many(builder, &b3_b, &t3);
    let ghost made_b3 = builder@;
    proof {
        lemma_grows_trans(start, before, builder@, 528, 32);
    }
    proof {
        lemma_single_later(b0@, made_b0, builder@);
        lemma_single_later(b1@, made_b1, builder@);
        lemma_single_later(b2@, made_b2, builder@);
        lemma_single_later(b3@, made_b3, builder@);
    }
    let ghost end = builder@;
    let mut rows: Vec<Vec<Bits>> = Vec::new();
    rows.push(b0);
    rows.push(b1);
    rows.push(b2);
    rows.push(b3);
    let mut mixed: Vec<Bits> = Vec::new();
    let mut k: usize = 0;
    while k < 128
        invariant
            k <= 128,
            mixed@.len() == k,
            rows@.len() == 4,
            forall|r: int| 0 <= r < 4 ==> (#[trigger] rows@[r])@.len() == 32 && single_bits(rows@[r]@, end),
            single_bits(mixed@, end),
        decreases 128 - k,
    {
        let byte = k / 8;
        let column = byte / 4;
        let row = byte % 4;
        let one = rows[row][8 * column + k % 8];
        proof {
            assert(single_bits(rows@[row as int]@, end));
            assert(lane(rows@[row as int]@[8 * column + k % 8]@, 1, end));
        }
        mixed.push(one);
        k = k + 1;
    }
    mixed
}

/// MixColumns on bit planes of the 16-byte state.
fn mix_columns(builder: &mut ProgramBuilder, state: &Vec<Bits>) -> (lanes: Vec<Bits>)
    requires
        planes(state@, 16, old(builder)@),
        room(old(builder)@, 816, 0),
    ensures
        planes(lanes@, 16, final(builder)@),
        grows(old(builder)@, final(builder)@, 816),
{
    let ghost start = builder@;
    let bytes = interleave(state, 16, Ghost(start));
    let mixed = mix_columns_parallel(builder, &bytes);
    let ghost middle = builder@;
    let lanes = bytes_to_planes(builder, &mixed, 16);
    proof {
        lemma_grows_trans(start, middle, builder@, 560, 256);
    }
    lanes
}

/// SubWord: the table S-box on the four bytes of a key-schedule word.
fn sbox_bytes(builder: &mut ProgramBuilder, word: &Vec<Bits>) -> (substituted: Vec<Bits>)
    requires
        word@.len() == 32,
        single_bits(word@, old(builder)@),
        room(old(builder)@, 224, 0),
    ensures
        substituted@.len() == 32,
        single_bits(substituted@, final(builder)@),
        grows(old(builder)@, final(builder)@, 224),
{
    let ghost start = builder@;
    let lanes = bytes_to_planes(builder, word, 4);
    let ghost middle = builder@;
    let looked = planes_from_sbox(builder, &lanes, Ghost(4));
    proof {
        lemma_grows_trans(start, middle, builder@, 64, 160);
    }
    interleave(&looked, 4, Ghost(builder@))
}

/// Multiplication by `x` in GF(2^8) modulo `x^8 + x^4 + x^3 + x + 1`
/// (FIPS 197 §4.2.1).
pub open spec fn gf_double(b: u8) -> u8 {
    if b < 0x80 {
        (2 * b) as u8
    } else {
        ((2 * b - 0x100) as u8) ^ 0x1b
    }
}

/// The round constant `rcon[i] = x^(i - 1)` in GF(2^8) (FIPS 197 §5.2).
pub open spec fn rcon_of(i: nat) -> u8
    decreases i,
{
    if i <= 1 {
        1
    } else {
        gf_double(rcon_of((i - 1) as nat))
    }
}

proof fn lemma_round_constants()
    ensures
        rcon_of(1) == 0x01,
        rcon_of(2) == 0x02,
        rcon_of(3) == 0x04,
        rcon_of(4) == 0x08,
        rcon_of(5) == 0x10,
        rcon_of(6) == 0x20,
        rcon_of(7) == 0x40,
        rcon_of(8) == 0x80,
        rcon_of(9) == 0x1b,
        rcon_of(10) == 0x36,
{
    assert(rcon_of(1) == 0x01);
    assert(rcon_of(2) == 0x02);
    assert(rcon_of(3) == 0x04);
    assert(rcon_of(4) == 0x08);
    assert(rcon_of(5) == 0x10);
    assert(rcon_of(6) == 0x20);
    assert(rcon_of(7) == 0x40);
    assert(rcon_of(8) == 0x80);
    assert((0u8 ^ 0x1bu8) == 0x1bu8) by (bit_vector);
    assert(rcon_of(9) == 0x1b);
    assert(rcon_of(10) == 0x36);
}

/// The AES-128 round constants `rcon[1..=10]` (FIPS 197 §5.2).
fn round_constant(round: usize) -> (rcon: u8)
    requires
        1 <= round <= 10,
    ensures
        rcon == rcon_of(round as nat),
{
    proof {
        lemma_round_constants();
    }
    match round {
        1 => 0x01,
        2 => 0x02,
        3 => 0x04,
        4 => 0x08,
        5 => 0x10,
        6 => 0x20,
        7 => 0x40,
        8 => 0x80,
        9 => 0x1b,
        _ => 0x36,
    }
}

/// The AES-128 key schedule (FIPS 197 §5.2): eleven round keys as bit
/// planes of 16 bytes each.
#[verifier::rlimit(40)]
fn expand_key(builder: &mut ProgramBuilder, key: &Vec<Bits>) -> (round_keys: Vec<Vec<Bits>>)
    requires
        planes(key@, 16, old(builder)@),
        room(old(builder)@, 6416, 0),
    ensures
        round_keys@.len() == 11,
        forall|r: int| 0 <= r < 11 ==> planes(#[trigger] round_keys@[r]@, 16, final(builder)@),
        within(old(builder)@, final(builder)@, 6416),
{
    let ghost start = builder@;
    let mut words = interleave(key, 16, Ghost(start));
    proof {
        lemma_within_same(start);
    }
    let mut index: usize = 4;
    while index < 44
        invariant
            4 <= index <= 44,
            words@.len() == 32 * index,
            single_bits(words@, builder@),
            within(start, builder@, 32 * (index - 4) + 232 * ((index - 1) / 4 - 0)),
            room(start, 6416, 0),
        decreases 44 - index,
    {
        let ghost before = builder@;
        let mut temp = take_bits(&words, 32 * (index - 1), 32);
        assert(single_bits(temp@, before));
        let ghost mut spent: int = 0;
        if index % 4 == 0 {
            let turned = rot_word(&temp);
            assert(single_bits(turned@, before)) by {
                assert forall|k: int| 0 <= k < 32 implies lane(#[trigger] turned@[k]@, 1, before) by {
                    assert(turned@[k] == temp@[(k + 8) % 32]);
                }
            }
            let looked = sbox_bytes(builder, &turned);
            let ghost looked_at = builder@;
            temp = xor_rcon(builder, looked, round_constant(index / 4));
            proof {
                lemma_grows_within(before, looked_at, 224, 224);
                lemma_within_trans(before, looked_at, builder@, 224, 8);
                spent = 232;
            }
        } else {
            proof {
                lemma_within_same(before);
            }
        }
        let previous = take_bits(&words, 32 * (index - 4), 32);
        let ghost middle = builder@;
        proof {
            lemma_single_later(words@, before, middle);
            assert(single_bits(previous@, middle));
        }
        let fresh = xor_bytes_many(builder, &previous, &temp);
        proof {
            lemma_grows_within(middle, builder@, 32, 32);
            lemma_within_trans(before, middle, builder@, spent, 32);
            lemma_within_trans(start, before, builder@, 32 * (index - 4) + 232 * ((index - 1) / 4), spent + 32);
            lemma_single_later(words@, before, builder@);
        }
        let mut k: usize = 0;
        while k < 32
            invariant
                k <= 32,
                fresh@.len() == 32,
                words@.len() == 32 * index + k,
                single_bits(words@, builder@),
                single_bits(fresh@, builder@),
            decreases 32 - k,
        {
            words.push(fresh[k]);
            k = k + 1;
        }
        index = index + 1;
    }
    let ghost expanded = builder@;
    let mut round_keys: Vec<Vec<Bits>> = Vec::new();
    let mut round: usize = 0;
    while round < 11
        invariant
            round <= 11,
            words@.len() == 32 * 44,
            round_keys@.len() == round,
            single_bits(words@, builder@),
            forall|r: int| 0 <= r < round ==> planes(#[trigger] round_keys@[r]@, 16, builder@),
            within(start, builder@, 3600 + 256 * round),
            room(start, 6416, 0),
        decreases 11 - round,
    {
        let ghost before = builder@;
        let block = take_bits(&words, 128 * round, 128);
        let planes_of_block = bytes_to_planes(builder, &block, 16);
        proof {
            lemma_grows_within(before, builder@, 256, 256);
            lemma_within_trans(start, before, builder@, 3600 + 256 * round, 256);
            lemma_single_later(words@, before, builder@);
            assert forall|r: int| 0 <= r < round implies planes(#[trigger] round_keys@[r]@, 16, builder@) by {
                lemma_planes_grow(round_keys@[r]@, 16, before, builder@, 256);
            }
        }
        round_keys.push(planes_of_block);
        round = round + 1;
    }
    round_keys
}

proof fn lemma_planes_later(p: Seq<Bits>, n: int, v: BuilderView, w: BuilderView)
    requires
        planes(p, n, v),
        v.next_secret <= w.next_secret,
    ensures
        planes(p, n, w),
{
    assert forall|k: int| 0 <= k < 8 implies lane(#[trigger] p[k]@, n, w) by {
        assert(lane(p[k]@, n, v));
    }
}

/// One gate of a straight-line boolean circuit over numbered wires.
#[derive(Clone, Copy)]
pub enum Gate {
    Xor(u8, u8),
    And(u8, u8),
    Not(u8),
}

impl Gate {
    /// Whether its inputs all sit on wires below `limit`.
    spec fn reads_below(self, limit: int) -> bool {
        match self {
            Gate::Xor(a, b) => a < limit && b < limit,
            Gate::And(a, b) => a < limit && b < limit,
            Gate::Not(a) => a < limit,
        }
    }
}

/// Gates in the Boyar-Peralta S-box circuit.
pub const BOYAR_PERALTA_GATES: usize = 132;

/// Gate `k` of the Boyar-Peralta S-box circuit, the one that sets wire
/// `8 + k`.
pub open spec fn boyar_peralta_table(k: usize) -> Gate {
    match k {
        0 => Gate::Xor(0, 3),
        1 => Gate::Xor(0, 5),
        2 => Gate::Xor(0, 6),
        3 => Gate::Xor(3, 5),
        4 => Gate::Xor(4, 6),
        5 => Gate::Xor(8, 12),
        6 => Gate::Xor(1, 2),
        7 => Gate::Xor(7, 13),
        8 => Gate::Xor(7, 14),
        9 => Gate::Xor(13, 14),
        10 => Gate::Xor(1, 5),
        11 => Gate::Xor(2, 5),
        12 => Gate::Xor(10, 11),
        13 => Gate::Xor(13, 18),
        14 => Gate::Xor(12, 18),
        15 => Gate::Xor(12, 19),
        16 => Gate::Xor(16, 23),
        17 => Gate::Xor(3, 7),
        18 => Gate::Xor(14, 25),
        19 => Gate::Xor(8, 26),
        20 => Gate::Xor(6, 7),
        21 => Gate::Xor(14, 28),
        22 => Gate::Xor(9, 29),
        23 => Gate::Xor(9, 17),
        24 => Gate::Xor(27, 24),
        25 => Gate::Xor(10, 23),
        26 => Gate::Xor(8, 19),
        27 => Gate::And(20, 13),
        28 => Gate::And(30, 15),
        29 => Gate::Xor(21, 35),
        30 => Gate::And(26, 7),
        31 => Gate::Xor(38, 35),
        32 => Gate::And(10, 23),
        33 => Gate::And(29, 16),
        34 => Gate::Xor(33, 40),
        35 => Gate::And(27, 24),
        36 => Gate::Xor(43, 40),
        37 => Gate::And(8, 22),
        38 => Gate::And(11, 34),
        39 => Gate::Xor(46, 45),
        40 => Gate::And(9, 17),
        41 => Gate::Xor(48, 45),
        42 => Gate::Xor(37, 36),
        43 => Gate::Xor(39, 31),
        44 => Gate::Xor(42, 41),
        45 => Gate::Xor(44, 49),
        46 => Gate::Xor(50, 47),
        47 => Gate::Xor(51, 49),
        48 => Gate::Xor(52, 47),
        49 => Gate::Xor(53, 32),
        50 => Gate::Xor(56, 57),
        51 => Gate::And(56, 54),
        52 => Gate::Xor(55, 59),
        53 => Gate::Xor(54, 55),
        54 => Gate::Xor(57, 59),
        55 => Gate::And(62, 61),
        56 => Gate::And(60, 58),
        57 => Gate::And(54, 57),
        58 => Gate::And(61, 65),
        59 => Gate::Xor(61, 59),
        60 => Gate::And(55, 56),
        61 => Gate::And(58, 68),
        62 => Gate::Xor(58, 59),
        63 => Gate::Xor(55, 63),
        64 => Gate::Xor(66, 67),
        65 => Gate::Xor(57, 64),
        66 => Gate::Xor(69, 70),
        67 => Gate::Xor(72, 74),
        68 => Gate::Xor(71, 73),
        69 => Gate::Xor(71, 72),
        70 => Gate::Xor(73, 74),
        71 => Gate::Xor(76, 75),
        72 => Gate::And(78, 13),
        73 => Gate::And(74, 15),
        74 => Gate::And(73, 7),
        75 => Gate::And(77, 23),
        76 => Gate::And(72, 16),
        77 => Gate::And(71, 24),
        78 => Gate::And(76, 22),
        79 => Gate::And(79, 34),
        80 => Gate::And(75, 17),
        81 => Gate::And(78, 20),
        82 => Gate::And(74, 30),
        83 => Gate::And(73, 26),
        84 => Gate::And(77, 10),
        85 => Gate::And(72, 29),
        86 => Gate::And(71, 27),
        87 => Gate::And(76, 8),
        88 => Gate::And(79, 11),
        89 => Gate::And(75, 9),
        90 => Gate::Xor(95, 96),
        91 => Gate::Xor(84, 90),
        92 => Gate::Xor(80, 82),
        93 => Gate::Xor(81, 89),
        94 => Gate::Xor(88, 92),
        95 => Gate::Xor(83, 95),
        96 => Gate::Xor(96, 103),
        97 => Gate::Xor(80, 101),
        98 => Gate::Xor(85, 93),
        99 => Gate::Xor(86, 87),
        100 => Gate::Xor(87, 102),
        101 => Gate::Xor(94, 100),
        102 => Gate::Xor(82, 85),
        103 => Gate::Xor(84, 98),
        104 => Gate::Xor(86, 95),
        105 => Gate::Xor(89, 99),
        106 => Gate::Xor(90, 98),
        107 => Gate::Xor(91, 99),
        108 => Gate::Xor(92, 106),
        109 => Gate::Xor(97, 102),
        110 => Gate::Xor(98, 99),
        111 => Gate::Xor(99, 105),
        112 => Gate::Xor(101, 110),
        113 => Gate::Xor(116, 100),
        114 => Gate::Xor(113, 107),
        115 => Gate::Xor(104, 108),
        116 => Gate::Xor(105, 107),
        117 => Gate::Xor(106, 108),
        118 => Gate::Xor(109, 112),
        119 => Gate::Xor(109, 115),
        120 => Gate::Xor(104, 122),
        121 => Gate::Xor(114, 124),
        122 => Gate::Not(129),
        123 => Gate::Xor(117, 126),
        124 => Gate::Not(131),
        125 => Gate::Xor(104, 119),
        126 => Gate::Xor(118, 120),
        127 => Gate::Xor(123, 127),
        128 => Gate::Xor(111, 125),
        129 => Gate::Not(136),
        130 => Gate::Xor(104, 121),
        _ => Gate::Not(138),
    }
}

/// The Boyar-Peralta S-box circuit, gate by gate. Wires 0 to 7 carry
/// the input bits U0 (the most significant) to U7; gate `k` drives wire
/// `8 + k`. The top linear layer (T1 to T27) comes first, then the
/// shared nonlinear middle (M1 to M63), the bottom linear layer (L0 to
/// L29), and the outputs S0 to S7, where the NOTs on S1, S2, S6 and S7
/// carry the affine constant `0x63`.
fn boyar_peralta_gate(k: usize) -> (gate: Gate)
    requires
        k < BOYAR_PERALTA_GATES,
    ensures
        gate == boyar_peralta_table(k),
        gate.reads_below(8 + k),
{
    match k {
        0 => Gate::Xor(0, 3),
        1 => Gate::Xor(0, 5),
        2 => Gate::Xor(0, 6),
        3 => Gate::Xor(3, 5),
        4 => Gate::Xor(4, 6),
        5 => Gate::Xor(8, 12),
        6 => Gate::Xor(1, 2),
        7 => Gate::Xor(7, 13),
        8 => Gate::Xor(7, 14),
        9 => Gate::Xor(13, 14),
        10 => Gate::Xor(1, 5),
        11 => Gate::Xor(2, 5),
        12 => Gate::Xor(10, 11),
        13 => Gate::Xor(13, 18),
        14 => Gate::Xor(12, 18),
        15 => Gate::Xor(12, 19),
        16 => Gate::Xor(16, 23),
        17 => Gate::Xor(3, 7),
        18 => Gate::Xor(14, 25),
        19 => Gate::Xor(8, 26),
        20 => Gate::Xor(6, 7),
        21 => Gate::Xor(14, 28),
        22 => Gate::Xor(9, 29),
        23 => Gate::Xor(9, 17),
        24 => Gate::Xor(27, 24),
        25 => Gate::Xor(10, 23),
        26 => Gate::Xor(8, 19),
        27 => Gate::And(20, 13),
        28 => Gate::And(30, 15),
        29 => Gate::Xor(21, 35),
        30 => Gate::And(26, 7),
        31 => Gate::Xor(38, 35),
        32 => Gate::And(10, 23),
        33 => Gate::And(29, 16),
        34 => Gate::Xor(33, 40),
        35 => Gate::And(27, 24),
        36 => Gate::Xor(43, 40),
        37 => Gate::And(8, 22),
        38 => Gate::And(11, 34),
        39 => Gate::Xor(46, 45),
        40 => Gate::And(9, 17),
        41 => Gate::Xor(48, 45),
        42 => Gate::Xor(37, 36),
        43 => Gate::Xor(39, 31),
        44 => Gate::Xor(42, 41),
        45 => Gate::Xor(44, 49),
        46 => Gate::Xor(50, 47),
        47 => Gate::Xor(51, 49),
        48 => Gate::Xor(52, 47),
        49 => Gate::Xor(53, 32),
        50 => Gate::Xor(56, 57),
        51 => Gate::And(56, 54),
        52 => Gate::Xor(55, 59),
        53 => Gate::Xor(54, 55),
        54 => Gate::Xor(57, 59),
        55 => Gate::And(62, 61),
        56 => Gate::And(60, 58),
        57 => Gate::And(54, 57),
        58 => Gate::And(61, 65),
        59 => Gate::Xor(61, 59),
        60 => Gate::And(55, 56),
        61 => Gate::And(58, 68),
        62 => Gate::Xor(58, 59),
        63 => Gate::Xor(55, 63),
        64 => Gate::Xor(66, 67),
        65 => Gate::Xor(57, 64),
        66 => Gate::Xor(69, 70),
        67 => Gate::Xor(72, 74),
        68 => Gate::Xor(71, 73),
        69 => Gate::Xor(71, 72),
        70 => Gate::Xor(73, 74),
        71 => Gate::Xor(76, 75),
        72 => Gate::And(78, 13),
        73 => Gate::And(74, 15),
        74 => Gate::And(73, 7),
        75 => Gate::And(77, 23),
        76 => Gate::And(72, 16),
        77 => Gate::And(71, 24),
        78 => Gate::And(76, 22),
        79 => Gate::And(79, 34),
        80 => Gate::And(75, 17),
        81 => Gate::And(78, 20),
        82 => Gate::And(74, 30),
        83 => Gate::And(73, 26),
        84 => Gate::And(77, 10),
        85 => Gate::And(72, 29),
        86 => Gate::And(71, 27),
        87 => Gate::And(76, 8),
        88 => Gate::And(79, 11),
        89 => Gate::And(75, 9),
        90 => Gate::Xor(95, 96),
        91 => Gate::Xor(84, 90),
        92 => Gate::Xor(80, 82),
        93 => Gate::Xor(81, 89),
        94 => Gate::Xor(88, 92),
        95 => Gate::Xor(83, 95),
        96 => Gate::Xor(96, 103),
        97 => Gate::Xor(80, 101),
        98 => Gate::Xor(85, 93),
        99 => Gate::Xor(86, 87),
        100 => Gate::Xor(87, 102),
        101 => Gate::Xor(94, 100),
        102 => Gate::Xor(82, 85),
        103 => Gate::Xor(84, 98),
        104 => Gate::Xor(86, 95),
        105 => Gate::Xor(89, 99),
        106 => Gate::Xor(90, 98),
        107 => Gate::Xor(91, 99),
        108 => Gate::Xor(92, 106),
        109 => Gate::Xor(97, 102),
        110 => Gate::Xor(98, 99),
        111 => Gate::Xor(99, 105),
        112 => Gate::Xor(101, 110),
        113 => Gate::Xor(116, 100),
        114 => Gate::Xor(113, 107),
        115 => Gate::Xor(104, 108),
        116 => Gate::Xor(105, 107),
        117 => Gate::Xor(106, 108),
        118 => Gate::Xor(109, 112),
        119 => Gate::Xor(109, 115),
        120 => Gate::Xor(104, 122),
        121 => Gate::Xor(114, 124),
        122 => Gate::Not(129),
        123 => Gate::Xor(117, 126),
        124 => Gate::Not(131),
        125 => Gate::Xor(104, 119),
        126 => Gate::Xor(118, 120),
        127 => Gate::Xor(123, 127),
        128 => Gate::Xor(111, 125),
        129 => Gate::Not(136),
        130 => Gate::Xor(104, 121),
        _ => Gate::Not(138),
    }
}

/// Wire `j` of the S-box circuit run on the planes `state` with its gates
/// driving the sixteen registers from `base + 16 * (j - 8)` on: the input
/// bits U0 (plane 7) to U7 (plane 0) first, then each gate's output.
spec fn bp_wire(state: Seq<Bits>, base: int, j: int) -> SecretRange {
    if j < 8 {
        state[7 - j]@.range
    } else {
        SecretRange { base: (base + 16 * (j - 8)) as u32, len: 16 }
    }
}

/// The instruction that gate `k` of the S-box circuit emits.
spec fn bp_instruction(state: Seq<Bits>, base: int, k: int) -> InstructionView {
    let dest = bp_wire(state, base, 8 + k);
    match boyar_peralta_table(k as usize) {
        Gate::Xor(a, b) => InstructionView::XorS {
            pairs: seq![MulTriple { dest, a: bp_wire(state, base, a as int), b: bp_wire(state, base, b as int) }],
        },
        Gate::And(a, b) => InstructionView::AndS {
            pairs: seq![MulTriple { dest, a: bp_wire(state, base, a as int), b: bp_wire(state, base, b as int) }],
        },
        Gate::Not(a) => InstructionView::NotS { dest, a: bp_wire(state, base, a as int) },
    }
}

/// The AES S-box of FIPS 197 §5.1.1, byte by byte.
pub open spec fn sbox_byte(v: u8) -> u8 {
    if v == 0u8 {
        0x63u8
    } else if v == 1u8 {
        0x7cu8
    } else if v == 2u8 {
        0x77u8
    } else if v == 3u8 {
        0x7bu8
    } else if v == 4u8 {
        0xf2u8
    } else if v == 5u8 {
        0x6bu8
    } else if v == 6u8 {
        0x6fu8
    } else if v == 7u8 {
        0xc5u8
    } else if v == 8u8 {
        0x30u8
    } else if v == 9u8 {
        0x01u8
    } else if v == 10u8 {
        0x67u8
    } else if v == 11u8 {
        0x2bu8
    } else if v == 12u8 {
        0xfeu8
    } else if v == 13u8 {
        0xd7u8
    } else if v == 14u8 {
        0xabu8
    } else if v == 15u8 {
        0x76u8
    } else if v == 16u8 {
        0xcau8
    } else if v == 17u8 {
        0x82u8
    } else if v == 18u8 {
        0xc9u8
    } else if v == 19u8 {
        0x7du8
    } else if v == 20u8 {
        0xfau8
    } else if v == 21u8 {
        0x59u8
    } else if v == 22u8 {
        0x47u8
    } else if v == 23u8 {
        0xf0u8
    } else if v == 24u8 {
        0xadu8
    } else if v == 25u8 {
        0xd4u8
    } else if v == 26u8 {
        0xa2u8
    } else if v == 27u8 {
        0xafu8
    } else if v == 28u8 {
        0x9cu8
    } else if v == 29u8 {
        0xa4u8
    } else if v == 30u8 {
        0x72u8
    } else if v == 31u8 {
        0xc0u8
    } else if v == 32u8 {
        0xb7u8
    } else if v == 33u8 {
        0xfdu8
    } else if v == 34u8 {
        0x93u8
    } else if v == 35u8 {
        0x26u8
    } else if v == 36u8 {
        0x36u8
    } else if v == 37u8 {
        0x3fu8
    } else if v == 38u8 {
        0xf7u8
    } else if v == 39u8 {
        0xccu8
    } else if v == 40u8 {
        0x34u8
    } else if v == 41u8 {
        0xa5u8
    } else if v == 42u8 {
        0xe5u8
    } else if v == 43u8 {
        0xf1u8
    } else if v == 44u8 {
        0x71u8
    } else if v == 45u8 {
        0xd8u8
    } else if v == 46u8 {
        0x31u8
    } else if v == 47u8 {
        0x15u8
    } else if v == 48u8 {
        0x04u8
    } else if v == 49u8 {
        0xc7u8
    } else if v == 50u8 {
        0x23u8
    } else if v == 51u8 {
        0xc3u8
    } else if v == 52u8 {
        0x18u8
    } else if v == 53u8 {
        0x96u8
    } else if v == 54u8 {
        0x05u8
    } else if v == 55u8 {
        0x9au8
    } else if v == 56u8 {
        0x07u8
    } else if v == 57u8 {
        0x12u8
    } else if v == 58u8 {
        0x80u8
    } else if v == 59u8 {
        0xe2u8
    } else if v == 60u8 {
        0xebu8
    } else if v == 61u8 {
        0x27u8
    } else if v == 62u8 {
        0xb2u8
    } else if v == 63u8 {
        0x75u8
    } else if v == 64u8 {
        0x09u8
    } else if v == 65u8 {
        0x83u8
    } else if v == 66u8 {
        0x2cu8
    } else if v == 67u8 {
        0x1au8
    } else if v == 68u8 {
        0x1bu8
    } else if v == 69u8 {
        0x6eu8
    } else if v == 70u8 {
        0x5au8
    } else if v == 71u8 {
        0xa0u8
    } else if v == 72u8 {
        0x52u8
    } else if v == 73u8 {
        0x3bu8
    } else if v == 74u8 {
        0xd6u8
    } else if v == 75u8 {
        0xb3u8
    } else if v == 76u8 {
        0x29u8
    } else if v == 77u8 {
        0xe3u8
    } else if v == 78u8 {
        0x2fu8
    } else if v == 79u8 {
        0x84u8
    } else if v == 80u8 {
        0x53u8
    } else if v == 81u8 {
        0xd1u8
    } else if v == 82u8 {
        0x00u8
    } else if v == 83u8 {
        0xedu8
    } else if v == 84u8 {
        0x20u8
    } else if v == 85u8 {
        0xfcu8
    } else if v == 86u8 {
        0xb1u8
    } else if v == 87u8 {
        0x5bu8
    } else if v == 88u8 {
        0x6au8
    } else if v == 89u8 {
        0xcbu8
    } else if v == 90u8 {
        0xbeu8
    } else if v == 91u8 {
        0x39u8
    } else if v == 92u8 {
        0x4au8
    } else if v == 93u8 {
        0x4cu8
    } else if v == 94u8 {
        0x58u8
    } else if v == 95u8 {
        0xcfu8
    } else if v == 96u8 {
        0xd0u8
    } else if v == 97u8 {
        0xefu8
    } else if v == 98u8 {
        0xaau8
    } else if v == 99u8 {
        0xfbu8
    } else if v == 100u8 {
        0x43u8
    } else if v == 101u8 {
        0x4du8
    } else if v == 102u8 {
        0x33u8
    } else if v == 103u8 {
        0x85u8
    } else if v == 104u8 {
        0x45u8
    } else if v == 105u8 {
        0xf9u8
    } else if v == 106u8 {
        0x02u8
    } else if v == 107u8 {
        0x7fu8
    } else if v == 108u8 {
        0x50u8
    } else if v == 109u8 {
        0x3cu8
    } else if v == 110u8 {
        0x9fu8
    } else if v == 111u8 {
        0xa8u8
    } else if v == 112u8 {
        0x51u8
    } else if v == 113u8 {
        0xa3u8
    } else if v == 114u8 {
        0x40u8
    } else if v == 115u8 {
        0x8fu8
    } else if v == 116u8 {
        0x92u8
    } else if v == 117u8 {
        0x9du8
    } else if v == 118u8 {
        0x38u8
    } else if v == 119u8 {
        0xf5u8
    } else if v == 120u8 {
        0xbcu8
    } else if v == 121u8 {
        0xb6u8
    } else if v == 122u8 {
        0xdau8
    } else if v == 123u8 {
        0x21u8
    } else if v == 124u8 {
        0x10u8
    } else if v == 125u8 {
        0xffu8
    } else if v == 126u8 {
        0xf3u8
    } else if v == 127u8 {
        0xd2u8
    } else if v == 128u8 {
        0xcdu8
    } else if v == 129u8 {
        0x0cu8
    } else if v == 130u8 {
        0x13u8
    } else if v == 131u8 {
        0xecu8
    } else if v == 132u8 {
        0x5fu8
    } else if v == 133u8 {
        0x97u8
    } else if v == 134u8 {
        0x44u8
    } else if v == 135u8 {
        0x17u8
    } else if v == 136u8 {
        0xc4u8
    } else if v == 137u8 {
        0xa7u8
    } else if v == 138u8 {
        0x7eu8
    } else if v == 139u8 {
        0x3du8
    } else if v == 140u8 {
        0x64u8
    } else if v == 141u8 {
        0x5du8
    } else if v == 142u8 {
        0x19u8
    } else if v == 143u8 {
        0x73u8
    } else if v == 144u8 {
        0x60u8
    } else if v == 145u8 {
        0x81u8
    } else if v == 146u8 {
        0x4fu8
    } else if v == 147u8 {
        0xdcu8
    } else if v == 148u8 {
        0x22u8
    } else if v == 149u8 {
        0x2au8
    } else if v == 150u8 {
        0x90u8
    } else if v == 151u8 {
        0x88u8
    } else if v == 152u8 {
        0x46u8
    } else if v == 153u8 {
        0xeeu8
    } else if v == 154u8 {
        0xb8u8
    } else if v == 155u8 {
        0x14u8
    } else if v == 156u8 {
        0xdeu8
    } else if v == 157u8 {
        0x5eu8
    } else if v == 158u8 {
        0x0bu8
    } else if v == 159u8 {
        0xdbu8
    } else if v == 160u8 {
        0xe0u8
    } else if v == 161u8 {
        0x32u8
    } else if v == 162u8 {
        0x3au8
    } else if v == 163u8 {
        0x0au8
    } else if v == 164u8 {
        0x49u8
    } else if v == 165u8 {
        0x06u8
    } else if v == 166u8 {
        0x24u8
    } else if v == 167u8 {
        0x5cu8
    } else if v == 168u8 {
        0xc2u8
    } else if v == 169u8 {
        0xd3u8
    } else if v == 170u8 {
        0xacu8
    } else if v == 171u8 {
        0x62u8
    } else if v == 172u8 {
        0x91u8
    } else if v == 173u8 {
        0x95u8
    } else if v == 174u8 {
        0xe4u8
    } else if v == 175u8 {
        0x79u8
    } else if v == 176u8 {
        0xe7u8
    } else if v == 177u8 {
        0xc8u8
    } else if v == 178u8 {
        0x37u8
    } else if v == 179u8 {
        0x6du8
    } else if v == 180u8 {
        0x8du8
    } else if v == 181u8 {
        0xd5u8
    } else if v == 182u8 {
        0x4eu8
    } else if v == 183u8 {
        0xa9u8
    } else if v == 184u8 {
        0x6cu8
    } else if v == 185u8 {
        0x56u8
    } else if v == 186u8 {
        0xf4u8
    } else if v == 187u8 {
        0xeau8
    } else if v == 188u8 {
        0x65u8
    } else if v == 189u8 {
        0x7au8
    } else if v == 190u8 {
        0xaeu8
    } else if v == 191u8 {
        0x08u8
    } else if v == 192u8 {
        0xbau8
    } else if v == 193u8 {
        0x78u8
    } else if v == 194u8 {
        0x25u8
    } else if v == 195u8 {
        0x2eu8
    } else if v == 196u8 {
        0x1cu8
    } else if v == 197u8 {
        0xa6u8
    } else if v == 198u8 {
        0xb4u8
    } else if v == 199u8 {
        0xc6u8
    } else if v == 200u8 {
        0xe8u8
    } else if v == 201u8 {
        0xddu8
    } else if v == 202u8 {
        0x74u8
    } else if v == 203u8 {
        0x1fu8
    } else if v == 204u8 {
        0x4bu8
    } else if v == 205u8 {
        0xbdu8
    } else if v == 206u8 {
        0x8bu8
    } else if v == 207u8 {
        0x8au8
    } else if v == 208u8 {
        0x70u8
    } else if v == 209u8 {
        0x3eu8
    } else if v == 210u8 {
        0xb5u8
    } else if v == 211u8 {
        0x66u8
    } else if v == 212u8 {
        0x48u8
    } else if v == 213u8 {
        0x03u8
    } else if v == 214u8 {
        0xf6u8
    } else if v == 215u8 {
        0x0eu8
    } else if v == 216u8 {
        0x61u8
    } else if v == 217u8 {
        0x35u8
    } else if v == 218u8 {
        0x57u8
    } else if v == 219u8 {
        0xb9u8
    } else if v == 220u8 {
        0x86u8
    } else if v == 221u8 {
        0xc1u8
    } else if v == 222u8 {
        0x1du8
    } else if v == 223u8 {
        0x9eu8
    } else if v == 224u8 {
        0xe1u8
    } else if v == 225u8 {
        0xf8u8
    } else if v == 226u8 {
        0x98u8
    } else if v == 227u8 {
        0x11u8
    } else if v == 228u8 {
        0x69u8
    } else if v == 229u8 {
        0xd9u8
    } else if v == 230u8 {
        0x8eu8
    } else if v == 231u8 {
        0x94u8
    } else if v == 232u8 {
        0x9bu8
    } else if v == 233u8 {
        0x1eu8
    } else if v == 234u8 {
        0x87u8
    } else if v == 235u8 {
        0xe9u8
    } else if v == 236u8 {
        0xceu8
    } else if v == 237u8 {
        0x55u8
    } else if v == 238u8 {
        0x28u8
    } else if v == 239u8 {
        0xdfu8
    } else if v == 240u8 {
        0x8cu8
    } else if v == 241u8 {
        0xa1u8
    } else if v == 242u8 {
        0x89u8
    } else if v == 243u8 {
        0x0du8
    } else if v == 244u8 {
        0xbfu8
    } else if v == 245u8 {
        0xe6u8
    } else if v == 246u8 {
        0x42u8
    } else if v == 247u8 {
        0x68u8
    } else if v == 248u8 {
        0x41u8
    } else if v == 249u8 {
        0x99u8
    } else if v == 250u8 {
        0x2du8
    } else if v == 251u8 {
        0x0fu8
    } else if v == 252u8 {
        0xb0u8
    } else if v == 253u8 {
        0x54u8
    } else if v == 254u8 {
        0xbbu8
    } else {
        0x16u8
    }
}

/// The Boyar-Peralta circuit written out on the bits of `v`: wire
/// `j < 8` is bit `7 - j` of `v`, gate `k` drives wire `8 + k` with the
/// gate of the table at `k`, and output bit `i` is the wire that lane `i`
/// of `sbox_planes` takes (139, 137, 135, 134, 133, 132, 130, 128).
pub open spec fn boyar_peralta_byte(v: u8) -> u8 {
    let w0: u8 = (v >> 7u8) & 1u8;
    let w1: u8 = (v >> 6u8) & 1u8;
    let w2: u8 = (v >> 5u8) & 1u8;
    let w3: u8 = (v >> 4u8) & 1u8;
    let w4: u8 = (v >> 3u8) & 1u8;
    let w5: u8 = (v >> 2u8) & 1u8;
    let w6: u8 = (v >> 1u8) & 1u8;
    let w7: u8 = (v >> 0u8) & 1u8;
    let w8: u8 = w0 ^ w3;
    let w9: u8 = w0 ^ w5;
    let w10: u8 = w0 ^ w6;
    let w11: u8 = w3 ^ w5;
    let w12: u8 = w4 ^ w6;
    let w13: u8 = w8 ^ w12;
    let w14: u8 = w1 ^ w2;
    let w15: u8 = w7 ^ w13;
    let w16: u8 = w7 ^ w14;
    let w17: u8 = w13 ^ w14;
    let w18: u8 = w1 ^ w5;
    let w19: u8 = w2 ^ w5;
    let w20: u8 = w10 ^ w11;
    let w21: u8 = w13 ^ w18;
    let w22: u8 = w12 ^ w18;
    let w23: u8 = w12 ^ w19;
    let w24: u8 = w16 ^ w23;
    let w25: u8 = w3 ^ w7;
    let w26: u8 = w14 ^ w25;
    let w27: u8 = w8 ^ w26;
    let w28: u8 = w6 ^ w7;
    let w29: u8 = w14 ^ w28;
    let w30: u8 = w9 ^ w29;
    let w31: u8 = w9 ^ w17;
    let w32: u8 = w27 ^ w24;
    let w33: u8 = w10 ^ w23;
    let w34: u8 = w8 ^ w19;
    let w35: u8 = w20 & w13;
    let w36: u8 = w30 & w15;
    let w37: u8 = w21 ^ w35;
    let w38: u8 = w26 & w7;
    let w39: u8 = w38 ^ w35;
    let w40: u8 = w10 & w23;
    let w41: u8 = w29 & w16;
    let w42: u8 = w33 ^ w40;
    let w43: u8 = w27 & w24;
    let w44: u8 = w43 ^ w40;
    let w45: u8 = w8 & w22;
    let w46: u8 = w11 & w34;
    let w47: u8 = w46 ^ w45;
    let w48: u8 = w9 & w17;
    let w49: u8 = w48 ^ w45;
    let w50: u8 = w37 ^ w36;
    let w51: u8 = w39 ^ w31;
    let w52: u8 = w42 ^ w41;
    let w53: u8 = w44 ^ w49;
    let w54: u8 = w50 ^ w47;
    let w55: u8 = w51 ^ w49;
    let w56: u8 = w52 ^ w47;
    let w57: u8 = w53 ^ w32;
    let w58: u8 = w56 ^ w57;
    let w59: u8 = w56 & w54;
    let w60: u8 = w55 ^ w59;
    let w61: u8 = w54 ^ w55;
    let w62: u8 = w57 ^ w59;
    let w63: u8 = w62 & w61;
    let w64: u8 = w60 & w58;
    let w65: u8 = w54 & w57;
    let w66: u8 = w61 & w65;
    let w67: u8 = w61 ^ w59;
    let w68: u8 = w55 & w56;
    let w69: u8 = w58 & w68;
    let w70: u8 = w58 ^ w59;
    let w71: u8 = w55 ^ w63;
    let w72: u8 = w66 ^ w67;
    let w73: u8 = w57 ^ w64;
    let w74: u8 = w69 ^ w70;
    let w75: u8 = w72 ^ w74;
    let w76: u8 = w71 ^ w73;
    let w77: u8 = w71 ^ w72;
    let w78: u8 = w73 ^ w74;
    let w79: u8 = w76 ^ w75;
    let w80: u8 = w78 & w13;
    let w81: u8 = w74 & w15;
    let w82: u8 = w73 & w7;
    let w83: u8 = w77 & w23;
    let w84: u8 = w72 & w16;
    let w85: u8 = w71 & w24;
    let w86: u8 = w76 & w22;
    let w87: u8 = w79 & w34;
    let w88: u8 = w75 & w17;
    let w89: u8 = w78 & w20;
    let w90: u8 = w74 & w30;
    let w91: u8 = w73 & w26;
    let w92: u8 = w77 & w10;
    let w93: u8 = w72 & w29;
    let w94: u8 = w71 & w27;
    let w95: u8 = w76 & w8;
    let w96: u8 = w79 & w11;
    let w97: u8 = w75 & w9;
    let w98: u8 = w95 ^ w96;
    let w99: u8 = w84 ^ w90;
    let w100: u8 = w80 ^ w82;
    let w101: u8 = w81 ^ w89;
    let w102: u8 = w88 ^ w92;
    let w103: u8 = w83 ^ w95;
    let w104: u8 = w96 ^ w103;
    let w105: u8 = w80 ^ w101;
    let w106: u8 = w85 ^ w93;
    let w107: u8 = w86 ^ w87;
    let w108: u8 = w87 ^ w102;
    let w109: u8 = w94 ^ w100;
    let w110: u8 = w82 ^ w85;
    let w111: u8 = w84 ^ w98;
    let w112: u8 = w86 ^ w95;
    let w113: u8 = w89 ^ w99;
    let w114: u8 = w90 ^ w98;
    let w115: u8 = w91 ^ w99;
    let w116: u8 = w92 ^ w106;
    let w117: u8 = w97 ^ w102;
    let w118: u8 = w98 ^ w99;
    let w119: u8 = w99 ^ w105;
    let w120: u8 = w101 ^ w110;
    let w121: u8 = w116 ^ w100;
    let w122: u8 = w113 ^ w107;
    let w123: u8 = w104 ^ w108;
    let w124: u8 = w105 ^ w107;
    let w125: u8 = w106 ^ w108;
    let w126: u8 = w109 ^ w112;
    let w127: u8 = w109 ^ w115;
    let w128: u8 = w104 ^ w122;
    let w129: u8 = w114 ^ w124;
    let w130: u8 = w129 ^ 1u8;
    let w131: u8 = w117 ^ w126;
    let w132: u8 = w131 ^ 1u8;
    let w133: u8 = w104 ^ w119;
    let w134: u8 = w118 ^ w120;
    let w135: u8 = w123 ^ w127;
    let w136: u8 = w111 ^ w125;
    let w137: u8 = w136 ^ 1u8;
    let w138: u8 = w104 ^ w121;
    let w139: u8 = w138 ^ 1u8;
    (w139 << 0u8) | (w137 << 1u8) | (w135 << 2u8) | (w134 << 3u8) | (w133 << 4u8) | (w132 << 5u8) | (w130 << 6u8) | (w128 << 7u8)
}

/// The Boyar-Peralta circuit computes the AES S-box on every byte.
#[verifier::rlimit(100)]
pub proof fn lemma_boyar_peralta_is_the_sbox(v: u8)
    by (bit_vector)
    ensures
        boyar_peralta_byte(v) == sbox_byte(v),
{
}

/// Wire `j` of the S-box circuit run on the bits of `v`:
/// wires 0 to 7 are bits 7 to 0 of `v` (U0 to U7), wire `8 + k` is gate
/// `k` of the table applied to the wires it reads.
pub open spec fn table_wire(v: u8, j: nat) -> u8
    decreases j,
{
    if j < 8 {
        (v >> ((7 - j) as u8)) & 1u8
    } else if j < 8 + BOYAR_PERALTA_GATES {
        match boyar_peralta_table((j - 8) as usize) {
            Gate::Xor(a, b) => if a < j && b < j {
                table_wire(v, a as nat) ^ table_wire(v, b as nat)
            } else {
                0u8
            },
            Gate::And(a, b) => if a < j && b < j {
                table_wire(v, a as nat) & table_wire(v, b as nat)
            } else {
                0u8
            },
            Gate::Not(a) => if a < j {
                table_wire(v, a as nat) ^ 1u8
            } else {
                0u8
            },
        }
    } else {
        0u8
    }
}

/// The byte on the circuit's output wires, bit `i` from the wire that
/// lane `i` of `sbox_planes` takes (139, 137, 135, 134, 133, 132, 130, 128).
pub open spec fn table_byte(v: u8) -> u8 {
    (table_wire(v, 139) << 0u8) | (table_wire(v, 137) << 1u8) | (table_wire(v, 135) << 2u8) | (table_wire(v, 134)
        << 3u8) | (table_wire(v, 133) << 4u8) | (table_wire(v, 132) << 5u8) | (table_wire(v, 130) << 6u8) | (
    table_wire(v, 128) << 7u8)
}

/// The circuit whose gates `sbox_planes` lays down computes the AES S-box:
/// run on the bits of any byte `v`, its output wires carry `S(v)`.
#[verifier::rlimit(100)]
#[verifier::spinoff_prover]
pub proof fn lemma_gate_table_is_the_sbox(v: u8)
    ensures
        table_byte(v) == sbox_byte(v),
{
    assert(table_wire(v, 0) == (v >> 7u8) & 1u8);
    assert(table_wire(v, 1) == (v >> 6u8) & 1u8);
    assert(table_wire(v, 2) == (v >> 5u8) & 1u8);
    assert(table_wire(v, 3) == (v >> 4u8) & 1u8);
    assert(table_wire(v, 4) == (v >> 3u8) & 1u8);
    assert(table_wire(v, 5) == (v >> 2u8) & 1u8);
    assert(table_wire(v, 6) == (v >> 1u8) & 1u8);
    assert(table_wire(v, 7) == (v >> 0u8) & 1u8);
    assert(table_wire(v, 8) == table_wire(v, 0) ^ table_wire(v, 3));
    assert(table_wire(v, 9) == table_wire(v, 0) ^ table_wire(v, 5));
    assert(table_wire(v, 10) == table_wire(v, 0) ^ table_wire(v, 6));
    assert(table_wire(v, 11) == table_wire(v, 3) ^ table_wire(v, 5));
    assert(table_wire(v, 12) == table_wire(v, 4) ^ table_wire(v, 6));
    assert(table_wire(v, 13) == table_wire(v, 8) ^ table_wire(v, 12));
    assert(table_wire(v, 14) == table_wire(v, 1) ^ table_wire(v, 2));
    assert(table_wire(v, 15) == table_wire(v, 7) ^ table_wire(v, 13));
    assert(table_wire(v, 16) == table_wire(v, 7) ^ table_wire(v, 14));
    assert(table_wire(v, 17) == table_wire(v, 13) ^ table_wire(v, 14));
    assert(table_wire(v, 18) == table_wire(v, 1) ^ table_wire(v, 5));
    assert(table_wire(v, 19) == table_wire(v, 2) ^ table_wire(v, 5));
    assert(table_wire(v, 20) == table_wire(v, 10) ^ table_wire(v, 11));
    assert(table_wire(v, 21) == table_wire(v, 13) ^ table_wire(v, 18));
    assert(table_wire(v, 22) == table_wire(v, 12) ^ table_wire(v, 18));
    assert(table_wire(v, 23) == table_wire(v, 12) ^ table_wire(v, 19));
    assert(table_wire(v, 24) == table_wire(v, 16) ^ table_wire(v, 23));
    assert(table_wire(v, 25) == table_wire(v, 3) ^ table_wire(v, 7));
    assert(table_wire(v, 26) == table_wire(v, 14) ^ table_wire(v, 25));
    assert(table_wire(v, 27) == table_wire(v, 8) ^ table_wire(v, 26));
    assert(table_wire(v, 28) == table_wire(v, 6) ^ table_wire(v, 7));
    assert(table_wire(v, 29) == table_wire(v, 14) ^ table_wire(v, 28));
    assert(table_wire(v, 30) == table_wire(v, 9) ^ table_wire(v, 29));
    assert(table_wire(v, 31) == table_wire(v, 9) ^ table_wire(v, 17));
    assert(table_wire(v, 32) == table_wire(v, 27) ^ table_wire(v, 24));
    assert(table_wire(v, 33) == table_wire(v, 10) ^ table_wire(v, 23));
    assert(table_wire(v, 34) == table_wire(v, 8) ^ table_wire(v, 19));
    assert(table_wire(v, 35) == table_wire(v, 20) & table_wire(v, 13));
    assert(table_wire(v, 36) == table_wire(v, 30) & table_wire(v, 15));
    assert(table_wire(v, 37) == table_wire(v, 21) ^ table_wire(v, 35));
    assert(table_wire(v, 38) == table_wire(v, 26) & table_wire(v, 7));
    assert(table_wire(v, 39) == table_wire(v, 38) ^ table_wire(v, 35));
    assert(table_wire(v, 40) == table_wire(v, 10) & table_wire(v, 23));
    assert(table_wire(v, 41) == table_wire(v, 29) & table_wire(v, 16));
    assert(table_wire(v, 42) == table_wire(v, 33) ^ table_wire(v, 40));
    assert(table_wire(v, 43) == table_wire(v, 27) & table_wire(v, 24));
    assert(table_wire(v, 44) == table_wire(v, 43) ^ table_wire(v, 40));
    assert(table_wire(v, 45) == table_wire(v, 8) & table_wire(v, 22));
    assert(table_wire(v, 46) == table_wire(v, 11) & table_wire(v, 34));
    assert(table_wire(v, 47) == table_wire(v, 46) ^ table_wire(v, 45));
    assert(table_wire(v, 48) == table_wire(v, 9) & table_wire(v, 17));
    assert(table_wire(v, 49) == table_wire(v, 48) ^ table_wire(v, 45));
    assert(table_wire(v, 50) == table_wire(v, 37) ^ table_wire(v, 36));
    assert(table_wire(v, 51) == table_wire(v, 39) ^ table_wire(v, 31));
    assert(table_wire(v, 52) == table_wire(v, 42) ^ table_wire(v, 41));
    assert(table_wire(v, 53) == table_wire(v, 44) ^ table_wire(v, 49));
    assert(table_wire(v, 54) == table_wire(v, 50) ^ table_wire(v, 47));
    assert(table_wire(v, 55) == table_wire(v, 51) ^ table_wire(v, 49));
    assert(table_wire(v, 56) == table_wire(v, 52) ^ table_wire(v, 47));
    assert(table_wire(v, 57) == table_wire(v, 53) ^ table_wire(v, 32));
    assert(table_wire(v, 58) == table_wire(v, 56) ^ table_wire(v, 57));
    assert(table_wire(v, 59) == table_wire(v, 56) & table_wire(v, 54));
    assert(table_wire(v, 60) == table_wire(v, 55) ^ table_wire(v, 59));
    assert(table_wire(v, 61) == table_wire(v, 54) ^ table_wire(v, 55));
    assert(table_wire(v, 62) == table_wire(v, 57) ^ table_wire(v, 59));
    assert(table_wire(v, 63) == table_wire(v, 62) & table_wire(v, 61));
    assert(table_wire(v, 64) == table_wire(v, 60) & table_wire(v, 58));
    assert(table_wire(v, 65) == table_wire(v, 54) & table_wire(v, 57));
    assert(table_wire(v, 66) == table_wire(v, 61) & table_wire(v, 65));
    assert(table_wire(v, 67) == table_wire(v, 61) ^ table_wire(v, 59));
    assert(table_wire(v, 68) == table_wire(v, 55) & table_wire(v, 56));
    assert(table_wire(v, 69) == table_wire(v, 58) & table_wire(v, 68));
    assert(table_wire(v, 70) == table_wire(v, 58) ^ table_wire(v, 59));
    assert(table_wire(v, 71) == table_wire(v, 55) ^ table_wire(v, 63));
    assert(table_wire(v, 72) == table_wire(v, 66) ^ table_wire(v, 67));
    assert(table_wire(v, 73) == table_wire(v, 57) ^ table_wire(v, 64));
    assert(table_wire(v, 74) == table_wire(v, 69) ^ table_wire(v, 70));
    assert(table_wire(v, 75) == table_wire(v, 72) ^ table_wire(v, 74));
    assert(table_wire(v, 76) == table_wire(v, 71) ^ table_wire(v, 73));
    assert(table_wire(v, 77) == table_wire(v, 71) ^ table_wire(v, 72));
    assert(table_wire(v, 78) == table_wire(v, 73) ^ table_wire(v, 74));
    assert(table_wire(v, 79) == table_wire(v, 76) ^ table_wire(v, 75));
    assert(table_wire(v, 80) == table_wire(v, 78) & table_wire(v, 13));
    assert(table_wire(v, 81) == table_wire(v, 74) & table_wire(v, 15));
    assert(table_wire(v, 82) == table_wire(v, 73) & table_wire(v, 7));
    assert(table_wire(v, 83) == table_wire(v, 77) & table_wire(v, 23));
    assert(table_wire(v, 84) == table_wire(v, 72) & table_wire(v, 16));
    assert(table_wire(v, 85) == table_wire(v, 71) & table_wire(v, 24));
    assert(table_wire(v, 86) == table_wire(v, 76) & table_wire(v, 22));
    assert(table_wire(v, 87) == table_wire(v, 79) & table_wire(v, 34));
    assert(table_wire(v, 88) == table_wire(v, 75) & table_wire(v, 17));
    assert(table_wire(v, 89) == table_wire(v, 78) & table_wire(v, 20));
    assert(table_wire(v, 90) == table_wire(v, 74) & table_wire(v, 30));
    assert(table_wire(v, 91) == table_wire(v, 73) & table_wire(v, 26));
    assert(table_wire(v, 92) == table_wire(v, 77) & table_wire(v, 10));
    assert(table_wire(v, 93) == table_wire(v, 72) & table_wire(v, 29));
    assert(table_wire(v, 94) == table_wire(v, 71) & table_wire(v, 27));
    assert(table_wire(v, 95) == table_wire(v, 76) & table_wire(v, 8));
    assert(table_wire(v, 96) == table_wire(v, 79) & table_wire(v, 11));
    assert(table_wire(v, 97) == table_wire(v, 75) & table_wire(v, 9));
    assert(table_wire(v, 98) == table_wire(v, 95) ^ table_wire(v, 96));
    assert(table_wire(v, 99) == table_wire(v, 84) ^ table_wire(v, 90));
    assert(table_wire(v, 100) == table_wire(v, 80) ^ table_wire(v, 82));
    assert(table_wire(v, 101) == table_wire(v, 81) ^ table_wire(v, 89));
    assert(table_wire(v, 102) == table_wire(v, 88) ^ table_wire(v, 92));
    assert(table_wire(v, 103) == table_wire(v, 83) ^ table_wire(v, 95));
    assert(table_wire(v, 104) == table_wire(v, 96) ^ table_wire(v, 103));
    assert(table_wire(v, 105) == table_wire(v, 80) ^ table_wire(v, 101));
    assert(table_wire(v, 106) == table_wire(v, 85) ^ table_wire(v, 93));
    assert(table_wire(v, 107) == table_wire(v, 86) ^ table_wire(v, 87));
    assert(table_wire(v, 108) == table_wire(v, 87) ^ table_wire(v, 102));
    assert(table_wire(v, 109) == table_wire(v, 94) ^ table_wire(v, 100));
    assert(table_wire(v, 110) == table_wire(v, 82) ^ table_wire(v, 85));
    assert(table_wire(v, 111) == table_wire(v, 84) ^ table_wire(v, 98));
    assert(table_wire(v, 112) == table_wire(v, 86) ^ table_wire(v, 95));
    assert(table_wire(v, 113) == table_wire(v, 89) ^ table_wire(v, 99));
    assert(table_wire(v, 114) == table_wire(v, 90) ^ table_wire(v, 98));
    assert(table_wire(v, 115) == table_wire(v, 91) ^ table_wire(v, 99));
    assert(table_wire(v, 116) == table_wire(v, 92) ^ table_wire(v, 106));
    assert(table_wire(v, 117) == table_wire(v, 97) ^ table_wire(v, 102));
    assert(table_wire(v, 118) == table_wire(v, 98) ^ table_wire(v, 99));
    assert(table_wire(v, 119) == table_wire(v, 99) ^ table_wire(v, 105));
    assert(table_wire(v, 120) == table_wire(v, 101) ^ table_wire(v, 110));
    assert(table_wire(v, 121) == table_wire(v, 116) ^ table_wire(v, 100));
    assert(table_wire(v, 122) == table_wire(v, 113) ^ table_wire(v, 107));
    assert(table_wire(v, 123) == table_wire(v, 104) ^ table_wire(v, 108));
    assert(table_wire(v, 124) == table_wire(v, 105) ^ table_wire(v, 107));
    assert(table_wire(v, 125) == table_wire(v, 106) ^ table_wire(v, 108));
    assert(table_wire(v, 126) == table_wire(v, 109) ^ table_wire(v, 112));
    assert(table_wire(v, 127) == table_wire(v, 109) ^ table_wire(v, 115));
    assert(table_wire(v, 128) == table_wire(v, 104) ^ table_wire(v, 122));
    assert(table_wire(v, 129) == table_wire(v, 114) ^ table_wire(v, 124));
    assert(table_wire(v, 130) == table_wire(v, 129) ^ 1u8);
    assert(table_wire(v, 131) == table_wire(v, 117) ^ table_wire(v, 126));
    assert(table_wire(v, 132) == table_wire(v, 131) ^ 1u8);
    assert(table_wire(v, 133) == table_wire(v, 104) ^ table_wire(v, 119));
    assert(table_wire(v, 134) == table_wire(v, 118) ^ table_wire(v, 120));
    assert(table_wire(v, 135) == table_wire(v, 123) ^ table_wire(v, 127));
    assert(table_wire(v, 136) == table_wire(v, 111) ^ table_wire(v, 125));
    assert(table_wire(v, 137) == table_wire(v, 136) ^ 1u8);
    assert(table_wire(v, 138) == table_wire(v, 104) ^ table_wire(v, 121));
    assert(table_wire(v, 139) == table_wire(v, 138) ^ 1u8);
    assert(table_byte(v) == boyar_peralta_byte(v));
    lemma_boyar_peralta_is_the_sbox(v);
}

/// The Boyar-Peralta boolean S-box on bit planes of the 16-byte state:
/// every gate runs on all sixteen bytes at once.
#[verifier::rlimit(40)]
fn sbox_planes(builder: &mut ProgramBuilder, state: &Vec<Bits>) -> (lanes: Vec<Bits>)
    requires
        planes(state@, 16, old(builder)@),
        room(old(builder)@, 16 * BOYAR_PERALTA_GATES, 0),
    ensures
        planes(lanes@, 16, final(builder)@),
        grows(old(builder)@, final(builder)@, 16 * BOYAR_PERALTA_GATES),
        final(builder)@.instructions == old(builder)@.instructions + Seq::new(
            BOYAR_PERALTA_GATES as nat,
            |k: int| bp_instruction(state@, old(builder)@.next_secret as int, k),
        ),
        lanes@[0]@.range == bp_wire(state@, old(builder)@.next_secret as int, 139),
        lanes@[1]@.range == bp_wire(state@, old(builder)@.next_secret as int, 137),
        lanes@[2]@.range == bp_wire(state@, old(builder)@.next_secret as int, 135),
        lanes@[3]@.range == bp_wire(state@, old(builder)@.next_secret as int, 134),
        lanes@[4]@.range == bp_wire(state@, old(builder)@.next_secret as int, 133),
        lanes@[5]@.range == bp_wire(state@, old(builder)@.next_secret as int, 132),
        lanes@[6]@.range == bp_wire(state@, old(builder)@.next_secret as int, 130),
        lanes@[7]@.range == bp_wire(state@, old(builder)@.next_secret as int, 128),
{
    let ghost base = builder@.next_secret as int;
    let mut wires: Vec<Bits> = Vec::new();
    let mut position: usize = 8;
    while position > 0
        invariant
            position <= 8,
            wires@.len() == 8 - position,
            planes(state@, 16, builder@),
            forall|j: int| 0 <= j < wires@.len() ==> (#[trigger] wires@[j])@.range == bp_wire(state@, base, j),
            forall|j: int| 0 <= j < wires@.len() ==> lane(#[trigger] wires@[j]@, 16, builder@),
        decreases position,
    {
        position = position - 1;
        wires.push(state[position]);
    }
    let mut k: usize = 0;
    proof {
        lemma_grows_none(builder@);
    }
    while k < BOYAR_PERALTA_GATES
        invariant
            k <= BOYAR_PERALTA_GATES,
            wires@.len() == 8 + k,
            forall|j: int| 0 <= j < wires@.len() ==> lane(#[trigger] wires@[j]@, 16, builder@),
            grows(old(builder)@, builder@, 16 * k),
            room(old(builder)@, 16 * BOYAR_PERALTA_GATES, 0),
            base == old(builder)@.next_secret,
            forall|j: int| 0 <= j < wires@.len() ==> (#[trigger] wires@[j])@.range == bp_wire(state@, base, j),
            builder@.instructions == old(builder)@.instructions + Seq::new(
                k as nat,
                |g: int| bp_instruction(state@, base, g),
            ),
        decreases BOYAR_PERALTA_GATES - k,
    {
        let ghost before = builder@;
        let driven = match boyar_peralta_gate(k) {
            Gate::Xor(a, b) => gate_xor(builder, wires[a as usize], wires[b as usize], Ghost(16)),
            Gate::And(a, b) => gate_and(builder, wires[a as usize], wires[b as usize], Ghost(16)),
            Gate::Not(a) => gate_not(builder, wires[a as usize], Ghost(16)),
        };
        proof {
            let g = boyar_peralta_table(k);
            assert(g.reads_below(8 + k));
            assert(driven@.range == bp_wire(state@, base, 8 + k));
            assert(builder@.instructions =~= old(builder)@.instructions + Seq::new(
                (k + 1) as nat,
                |g: int| bp_instruction(state@, base, g),
            ));
            lemma_grows_trans(old(builder)@, before, builder@, 16 * k, 16);
            assert forall|j: int| 0 <= j < wires@.len() implies lane(#[trigger] wires@[j]@, 16, builder@) by {
                lemma_lane_grows(wires@[j]@, 16, before, builder@, 16);
            }
        }
        wires.push(driven);
        k = k + 1;
    }
    let mut lanes: Vec<Bits> = Vec::new();
    lanes.push(wires[139]);
    lanes.push(wires[137]);
    lanes.push(wires[135]);
    lanes.push(wires[134]);
    lanes.push(wires[133]);
    lanes.push(wires[132]);
    lanes.push(wires[130]);
    lanes.push(wires[128]);
    proof {
        assert forall|k: int| 0 <= k < 8 implies lane(#[trigger] lanes@[k]@, 16, builder@) by {
            let picks = seq![139int, 137, 135, 134, 133, 132, 130, 128];
            assert(lanes@[k] == wires@[picks[k]]);
        }
    }
    lanes
}

/// Registers one SubBytes step allocates: the batched table lookup, or
/// the boolean circuit's gates on sixteen-bit lanes.
pub open spec fn sub_bytes_cost(boolean: bool) -> int {
    if boolean {
        16 * BOYAR_PERALTA_GATES
    } else {
        640
    }
}

/// SubBytes on bit planes of the 16-byte state, by table or by circuit.
fn sub_bytes(builder: &mut ProgramBuilder, state: &Vec<Bits>, boolean: bool) -> (lanes: Vec<Bits>)
    requires
        planes(state@, 16, old(builder)@),
        room(old(builder)@, sub_bytes_cost(boolean), 0),
    ensures
        planes(lanes@, 16, final(builder)@),
        grows(old(builder)@, final(builder)@, sub_bytes_cost(boolean)),
{
    if boolean {
        sbox_planes(builder, state)
    } else {
        planes_from_sbox(builder, state, Ghost(16))
    }
}

/// One middle round: SubBytes, ShiftRows, MixColumns, AddRoundKey.
fn middle_round(builder: &mut ProgramBuilder, state: &Vec<Bits>, round_key: &Vec<Bits>, boolean: bool) -> (lanes: Vec<Bits>)
    requires
        planes(state@, 16, old(builder)@),
        planes(round_key@, 16, old(builder)@),
        room(old(builder)@, sub_bytes_cost(boolean) + 1200, 0),
    ensures
        planes(lanes@, 16, final(builder)@),
        grows(old(builder)@, final(builder)@, sub_bytes_cost(boolean) + 1200),
{
    let ghost start = builder@;
    let ghost cost = sub_bytes_cost(boolean);
    let looked = sub_bytes(builder, state, boolean);
    let ghost a = builder@;
    let shifted = shift_rows(builder, &looked);
    let ghost b = builder@;
    let mixed = mix_columns(builder, &shifted);
    let ghost c = builder@;
    proof {
        lemma_grows_trans(start, a, b, cost, 256);
        lemma_grows_trans(start, b, c, cost + 256, 816);
        lemma_planes_later(round_key@, 16, start, c);
    }
    let lanes = add_round_key(builder, &mixed, round_key, Ghost(16));
    proof {
        lemma_grows_trans(start, c, builder@, cost + 1072, 128);
    }
    lanes
}

/// Registers the ten cipher rounds and the final packing allocate.
pub open spec fn rounds_cost(boolean: bool) -> int {
    10 * sub_bytes_cost(boolean) + 11584
}

/// The cipher proper (FIPS 197 §5.1): the first AddRoundKey, nine
/// middle rounds, the last round without MixColumns, then the state
/// packed back into 16 byte-valued secrets.
#[verifier::rlimit(40)]
fn cipher_rounds(builder: &mut ProgramBuilder, block: &Vec<Bits>, round_keys: &Vec<Vec<Bits>>, boolean: bool) -> (ciphertext: Secret)
    requires
        planes(block@, 16, old(builder)@),
        round_keys@.len() == 11,
        forall|r: int| 0 <= r < 11 ==> planes(#[trigger] round_keys@[r]@, 16, old(builder)@),
        room(old(builder)@, rounds_cost(boolean), 0),
    ensures
        ciphertext@.len == BLOCK_LEN,
        ciphertext@.base + BLOCK_LEN == final(builder)@.next_secret,
        final(builder)@.instructions.last() matches InstructionView::Pack { dest, width, .. } && dest
            == ciphertext@ && width == 8,
        within(old(builder)@, final(builder)@, rounds_cost(boolean)),
        exists|at: int|
            old(builder)@.instructions.len() <= at && #[trigger] mixes_key_at(
                final(builder)@.instructions,
                at,
                round_keys@[10]@,
            ) && forall|i: int|
                at + 8 <= i < final(builder)@.instructions.len() - 1 ==> (
                #[trigger] final(builder)@.instructions[i]) is NotS,
{
    let ghost start = builder@;
    let ghost cost = sub_bytes_cost(boolean);
    let mut state = add_round_key(builder, block, &round_keys[0], Ghost(16));
    proof {
        lemma_grows_within(start, builder@, 128, 128);
    }
    let mut round: usize = 1;
    while round < 10
        invariant
            1 <= round <= 10,
            cost == sub_bytes_cost(boolean),
            round_keys@.len() == 11,
            forall|r: int| 0 <= r < 11 ==> planes(#[trigger] round_keys@[r]@, 16, start),
            start.next_secret <= builder@.next_secret,
            planes(state@, 16, builder@),
            within(start, builder@, 128 + (cost + 1200) * (round - 1)),
            room(start, rounds_cost(boolean), 0),
        decreases 10 - round,
    {
        let ghost before = builder@;
        proof {
            lemma_planes_later(round_keys@[round as int]@, 16, start, before);
            assert((cost + 1200) * (round - 1) + (cost + 1200) == (cost + 1200) * round) by (nonlinear_arith);
            assert((cost + 1200) * round <= (cost + 1200) * 9) by (nonlinear_arith)
                requires
                    round <= 9,
                    cost >= 0,
            ;
        }
        state = middle_round(builder, &state, &round_keys[round], boolean);
        proof {
            lemma_grows_within(before, builder@, cost + 1200, cost + 1200);
            lemma_within_trans(start, before, builder@, 128 + (cost + 1200) * (round - 1), cost + 1200);
        }
        round = round + 1;
    }
    let ghost d = builder@;
    let looked = sub_bytes(builder, &state, boolean);
    let ghost x = builder@;
    let shifted = shift_rows(builder, &looked);
    let ghost e = builder@;
    proof {
        lemma_planes_later(round_keys@[10]@, 16, start, e);
    }
    let last = add_round_key(builder, &shifted, &round_keys[10], Ghost(16));
    let ghost f = builder@;
    let ciphertext = secret_from_planes(builder, &last, Ghost(16));
    proof {
        let at = e.instructions.len() as int;
        assert(builder@.instructions.subrange(0, f.instructions.len() as int) == f.instructions);
        assert forall|p: int| 0 <= p < 8 implies (#[trigger] builder@.instructions[at + p] matches InstructionView::XorS {
            pairs,
        } && pairs.len() == 1 && pairs[0].b == round_keys@[10]@[p]@.range) by {
            assert(builder@.instructions[at + p] == f.instructions[at + p]);
            assert(f.instructions[at + p] == InstructionView::XorS {
                pairs: seq![MulTriple { dest: last@[p]@.range, a: shifted@[p]@.range, b: round_keys@[10]@[p]@.range }],
            });
        }
        assert(mixes_key_at(builder@.instructions, at, round_keys@[10]@));
        assert(f.instructions.len() == at + 8);
    }
    proof {
        lemma_grows_trans(d, x, e, cost, 256);
        lemma_grows_trans(d, e, f, cost + 256, 128);
        lemma_grows_within(d, f, cost + 384, cost + 384);
        lemma_within_trans(start, d, f, 128 + (cost + 1200) * 9, cost + 384);
        lemma_grows_within(f, builder@, 272, 272);
        lemma_within_trans(start, f, builder@, 128 + (cost + 1200) * 9 + cost + 384, 272);
    }
    ciphertext
}

/// Expand AES-128 encryption of one block into `builder` on the table
/// path (FIPS 197 §5.1).
///
/// `key` and `block` must each hold 16 byte-valued secrets; only their
/// first 16 registers are read. SubBytes and the key schedule's SubWord
/// use the batched table `Sbox` (200 lookups); the linear layers run on
/// bit planes so they batch across the whole state. The result is the
/// 16 ciphertext bytes, packed by the last instruction.
#[verifier::rlimit(40)]
pub fn encrypt_block(builder: &mut ProgramBuilder, key: Secret, block: Secret) -> (ciphertext: Secret)
    requires
        room(old(builder)@, 7184 + rounds_cost(false), 0),
    ensures
        ciphertext@.len == BLOCK_LEN,
        ciphertext@.base + BLOCK_LEN == final(builder)@.next_secret,
        final(builder)@.instructions.last() matches InstructionView::Pack { dest, width, .. } && dest
            == ciphertext@ && width == 8,
        within(old(builder)@, final(builder)@, 7184 + rounds_cost(false)),
{
    let ghost start = builder@;
    let key = key.slice(0, BLOCK_LEN);
    let block = block.slice(0, BLOCK_LEN);
    let key_planes = planes_from_secret(builder, key, Ghost(16));
    let ghost a = builder@;
    let round_keys = expand_key(builder, &key_planes);
    let ghost b = builder@;
    let block_planes = planes_from_secret(builder, block, Ghost(16));
    let ghost c = builder@;
    proof {
        lemma_grows_within(start, a, 384, 384);
        lemma_within_trans(start, a, b, 384, 6416);
        lemma_grows_within(b, c, 384, 384);
        lemma_within_trans(start, b, c, 6800, 384);
        assert forall|r: int| 0 <= r < 11 implies planes(#[trigger] round_keys@[r]@, 16, c) by {
            lemma_planes_later(round_keys@[r]@, 16, b, c);
        }
    }
    let ciphertext = cipher_rounds(builder, &block_planes, &round_keys, false);
    proof {
        lemma_within_trans(start, c, builder@, 7184, rounds_cost(false));
    }
    ciphertext
}

/// Expand AES-128 encryption of one block into `builder` with the
/// Boyar-Peralta boolean S-box for SubBytes, as a cross-check of the
/// table path made of gates only (its key schedule still uses the
/// table). Same inputs and result as [`encrypt_block`].
#[verifier::rlimit(40)]
pub fn encrypt_block_boolean(builder: &mut ProgramBuilder, key: Secret, block: Secret) -> (ciphertext: Secret)
    requires
        room(old(builder)@, 7184 + rounds_cost(true), 0),
    ensures
        ciphertext@.len == BLOCK_LEN,
        ciphertext@.base + BLOCK_LEN == final(builder)@.next_secret,
        final(builder)@.instructions.last() matches InstructionView::Pack { dest, width, .. } && dest
            == ciphertext@ && width == 8,
        within(old(builder)@, final(builder)@, 7184 + rounds_cost(true)),
{
    let ghost start = builder@;
    let key = key.slice(0, BLOCK_LEN);
    let block = block.slice(0, BLOCK_LEN);
    let key_planes = planes_from_secret(builder, key, Ghost(16));
    let ghost a = builder@;
    let block_planes = planes_from_secret(builder, block, Ghost(16));
    let ghost b = builder@;
    proof {
        lemma_planes_later(key_planes@, 16, a, b);
    }
    let round_keys = expand_key(builder, &key_planes);
    let ghost c = builder@;
    proof {
        lemma_grows_trans(start, a, b, 384, 384);
        lemma_grows_within(start, b, 768, 768);
        lemma_within_trans(start, b, c, 768, 6416);
        lemma_planes_later(block_planes@, 16, b, c);
    }
    let ciphertext = cipher_rounds(builder, &block_planes, &round_keys, true);
    proof {
        lemma_within_trans(start, c, builder@, 7184, rounds_cost(true));
    }
    ciphertext
}

} // verus!

//! The program envelope on the wire: X.690 DER over a uniform shape.
//!
//! ```text
//! WireProgram     ::= SEQUENCE { version INTEGER, inputs SEQUENCE OF WireInput,
//!                                instructions SEQUENCE OF WireInstruction }
//! WireInput       ::= SEQUENCE { client INTEGER, base INTEGER, len INTEGER }
//! WireInstruction ::= SEQUENCE { opcode INTEGER, args SEQUENCE OF INTEGER }
//! ```
//!
//! [`encode_wire`] writes exactly [`enc_program`] and [`decode_wire`]
//! accepts exactly the encodings [`enc_program`] produces.

use crate::vm::der::{
    enc_uint, lemma_enc_uint_len, lemma_parse_tlv, lemma_parse_tlv_sound, lemma_parse_uint,
    lemma_parse_uint_sound, lemma_pow256_u64, parse_tlv, parse_uint, push_uint, read_tlv, read_uint,
    tlv, wrap, MAX_LEN, TAG_SEQUENCE,
};
use crate::vm::error::DerError;
use vstd::prelude::*;

verus! {

/// One input declaration on the wire.
#[derive(Clone, Copy, Debug, PartialEq, Eq, Structural)]
pub struct WireInput {
    /// The providing client.
    pub client: u64,
    /// First destination register.
    pub base: u32,
    /// Number of inputs.
    pub len: u32,
}

/// One instruction on the wire: opcode plus a flat argument list.
#[derive(Clone, Debug, PartialEq, Eq)]
pub struct WireInstruction {
    /// The opcode octet.
    pub opcode: u8,
    /// Arguments, interpreted per opcode.
    pub args: Vec<u64>,
}

/// The model of a [`WireInstruction`].
pub struct WireInstructionView {
    pub opcode: u8,
    pub args: Seq<u64>,
}

impl View for WireInstruction {
    type V = WireInstructionView;

    open spec fn view(&self) -> WireInstructionView {
        WireInstructionView { opcode: self.opcode, args: self.args@ }
    }
}

/// The full program envelope.
#[derive(Clone, Debug, PartialEq, Eq)]
pub struct WireProgram {
    /// Bytecode format version.
    pub version: u32,
    /// Input declarations.
    pub inputs: Vec<WireInput>,
    /// The instruction stream.
    pub instructions: Vec<WireInstruction>,
}

/// The model of a [`WireProgram`].
pub struct WireProgramView {
    pub version: u32,
    pub inputs: Seq<WireInput>,
    pub instructions: Seq<WireInstructionView>,
}

impl View for WireProgram {
    type V = WireProgramView;

    open spec fn view(&self) -> WireProgramView {
        WireProgramView {
            version: self.version,
            inputs: self.inputs@,
            instructions: self.instructions@.map_values(|w: WireInstruction| w@),
        }
    }
}

// ---------------------------------------------------------------------
// Encodings
// ---------------------------------------------------------------------

/// Concatenated `INTEGER` encodings of `values`.
pub open spec fn enc_u64s(values: Seq<u64>) -> Seq<u8>
    decreases values.len(),
{
    if values.len() == 0 {
        Seq::empty()
    } else {
        enc_uint(values[0] as nat) + enc_u64s(values.skip(1))
    }
}

/// The encoding of one input declaration.
pub open spec fn enc_input(input: WireInput) -> Seq<u8> {
    tlv(
        TAG_SEQUENCE,
        enc_uint(input.client as nat) + enc_uint(input.base as nat) + enc_uint(input.len as nat),
    )
}

/// Concatenated encodings of `inputs`.
pub open spec fn enc_inputs(inputs: Seq<WireInput>) -> Seq<u8>
    decreases inputs.len(),
{
    if inputs.len() == 0 {
        Seq::empty()
    } else {
        enc_input(inputs[0]) + enc_inputs(inputs.skip(1))
    }
}

/// The encoding of one instruction.
pub open spec fn enc_instr(w: WireInstructionView) -> Seq<u8> {
    tlv(TAG_SEQUENCE, enc_uint(w.opcode as nat) + tlv(TAG_SEQUENCE, enc_u64s(w.args)))
}

/// Concatenated encodings of `instructions`.
pub open spec fn enc_instrs(instructions: Seq<WireInstructionView>) -> Seq<u8>
    decreases instructions.len(),
{
    if instructions.len() == 0 {
        Seq::empty()
    } else {
        enc_instr(instructions[0]) + enc_instrs(instructions.skip(1))
    }
}

/// The content octets of the program envelope.
pub open spec fn enc_program_content(p: WireProgramView) -> Seq<u8> {
    enc_uint(p.version as nat) + tlv(TAG_SEQUENCE, enc_inputs(p.inputs)) + tlv(
        TAG_SEQUENCE,
        enc_instrs(p.instructions),
    )
}

/// The canonical DER bytes of a program envelope.
pub open spec fn enc_program(p: WireProgramView) -> Seq<u8> {
    tlv(TAG_SEQUENCE, enc_program_content(p))
}

// ---------------------------------------------------------------------
// Readers (spec)
// ---------------------------------------------------------------------

/// Read a `SEQUENCE` at the start of `s`: its content and the octets it took.
pub open spec fn parse_seq(s: Seq<u8>) -> Option<(Seq<u8>, nat)> {
    match parse_tlv(s) {
        Some((tag, start, end)) => if tag == TAG_SEQUENCE {
            Some((s.subrange(start as int, end as int), end))
        } else {
            None
        },
        None => None,
    }
}

/// Read the `INTEGER`s that make up all of `c`.
pub open spec fn parse_u64s(c: Seq<u8>) -> Option<Seq<u64>>
    decreases c.len(),
{
    if c.len() == 0 {
        Some(Seq::empty())
    } else {
        match parse_uint(c, u64::MAX as nat) {
            Some((v, n)) => if 0 < n <= c.len() {
                match parse_u64s(c.skip(n as int)) {
                    Some(rest) => Some(seq![v as u64] + rest),
                    None => None,
                }
            } else {
                None
            },
            None => None,
        }
    }
}

/// Read one input declaration at the start of `s`.
pub open spec fn parse_input(s: Seq<u8>) -> Option<(WireInput, nat)> {
    match parse_seq(s) {
        Some((c, end)) => match parse_uint(c, u64::MAX as nat) {
            Some((client, n1)) => match parse_uint(c.skip(n1 as int), u32::MAX as nat) {
                Some((base, n2)) => match parse_uint(c.skip((n1 + n2) as int), u32::MAX as nat) {
                    Some((len, n3)) => if n1 + n2 + n3 == c.len() {
                        Some((WireInput { client: client as u64, base: base as u32, len: len as u32 }, end))
                    } else {
                        None
                    },
                    None => None,
                },
                None => None,
            },
            None => None,
        },
        None => None,
    }
}

/// Read the input declarations that make up all of `c`.
pub open spec fn parse_inputs(c: Seq<u8>) -> Option<Seq<WireInput>>
    decreases c.len(),
{
    if c.len() == 0 {
        Some(Seq::empty())
    } else {
        match parse_input(c) {
            Some((v, n)) => if 0 < n <= c.len() {
                match parse_inputs(c.skip(n as int)) {
                    Some(rest) => Some(seq![v] + rest),
                    None => None,
                }
            } else {
                None
            },
            None => None,
        }
    }
}

/// Read one instruction at the start of `s`.
pub open spec fn parse_instr(s: Seq<u8>) -> Option<(WireInstructionView, nat)> {
    match parse_seq(s) {
        Some((c, end)) => match parse_uint(c, u8::MAX as nat) {
            Some((opcode, n1)) => match parse_seq(c.skip(n1 as int)) {
                Some((a, n2)) => if n1 + n2 == c.len() {
                    match parse_u64s(a) {
                        Some(args) => Some((WireInstructionView { opcode: opcode as u8, args }, end)),
                        None => None,
                    }
                } else {
                    None
                },
                None => None,
            },
            None => None,
        },
        None => None,
    }
}

/// Read the instructions that make up all of `c`.
pub open spec fn parse_instrs(c: Seq<u8>) -> Option<Seq<WireInstructionView>>
    decreases c.len(),
{
    if c.len() == 0 {
        Some(Seq::empty())
    } else {
        match parse_instr(c) {
            Some((v, n)) => if 0 < n <= c.len() {
                match parse_instrs(c.skip(n as int)) {
                    Some(rest) => Some(seq![v] + rest),
                    None => None,
                }
            } else {
                None
            },
            None => None,
        }
    }
}

/// Read a whole program envelope: `s` must be exactly one encoding.
pub open spec fn parse_program(s: Seq<u8>) -> Option<WireProgramView> {
    match parse_seq(s) {
        Some((c, end)) => if end == s.len() {
            match parse_uint(c, u32::MAX as nat) {
                Some((version, n1)) => match parse_seq(c.skip(n1 as int)) {
                    Some((ic, n2)) => match parse_seq(c.skip((n1 + n2) as int)) {
                        Some((xc, n3)) => if n1 + n2 + n3 == c.len() {
                            match (parse_inputs(ic), parse_instrs(xc)) {
                                (Some(inputs), Some(instructions)) => Some(
                                    WireProgramView { version: version as u32, inputs, instructions },
                                ),
                                _ => None,
                            }
                        } else {
                            None
                        },
                        None => None,
                    },
                    None => None,
                },
                None => None,
            }
        } else {
            None
        },
        None => None,
    }
}

// ---------------------------------------------------------------------
// Round trip and soundness of the readers
// ---------------------------------------------------------------------

/// Reading a `SEQUENCE` gives back its content, whatever follows it.
pub proof fn lemma_parse_seq(c: Seq<u8>, rest: Seq<u8>)
    requires
        c.len() <= MAX_LEN,
    ensures
        parse_seq(tlv(TAG_SEQUENCE, c) + rest) == Some((c, tlv(TAG_SEQUENCE, c).len())),
{
    lemma_parse_tlv(TAG_SEQUENCE, c, rest);
    let s = tlv(TAG_SEQUENCE, c) + rest;
    let (_, start, end) = parse_tlv(s).unwrap();
    assert(s.subrange(start as int, end as int) =~= c);
}

/// Whatever the `SEQUENCE` reader accepts starts with the encoding of
/// the content it returns.
pub proof fn lemma_parse_seq_sound(s: Seq<u8>)
    requires
        parse_seq(s) is Some,
    ensures
        ({
            let (c, n) = parse_seq(s).unwrap();
            &&& n <= s.len()
            &&& c.len() <= MAX_LEN
            &&& c.len() < n
            &&& n <= c.len() + 6
            &&& s.take(n as int) == tlv(TAG_SEQUENCE, c)
        }),
{
    lemma_parse_tlv_sound(s);
}

proof fn lemma_skip_concat(a: Seq<u8>, b: Seq<u8>)
    ensures
        (a + b).skip(a.len() as int) == b,
{
    assert((a + b).skip(a.len() as int) =~= b);
}

proof fn lemma_take_skip(s: Seq<u8>, n: int)
    requires
        0 <= n <= s.len(),
    ensures
        s == s.take(n) + s.skip(n),
{
    assert(s =~= s.take(n) + s.skip(n));
}

/// Reading the encoding of a list of `INTEGER`s gives the list back.
pub proof fn lemma_parse_u64s(values: Seq<u64>)
    ensures
        parse_u64s(enc_u64s(values)) == Some(values),
    decreases values.len(),
{
    if values.len() > 0 {
        let head = enc_uint(values[0] as nat);
        let tail = enc_u64s(values.skip(1));
        lemma_pow256_u64();
        lemma_parse_uint(values[0] as nat, u64::MAX as nat, tail);
        lemma_skip_concat(head, tail);
        lemma_parse_u64s(values.skip(1));
        lemma_enc_uint_len(values[0] as nat);
        assert(seq![values[0]] + values.skip(1) =~= values);
    } else {
        assert(enc_u64s(values) =~= Seq::<u8>::empty());
    }
}

/// Whatever the list reader accepts is the encoding of the list it returns.
pub proof fn lemma_parse_u64s_sound(c: Seq<u8>)
    requires
        parse_u64s(c) is Some,
    ensures
        c == enc_u64s(parse_u64s(c).unwrap()),
    decreases c.len(),
{
    if c.len() > 0 {
        let (v, n) = parse_uint(c, u64::MAX as nat).unwrap();
        lemma_parse_uint_sound(c, u64::MAX as nat);
        lemma_parse_u64s_sound(c.skip(n as int));
        let values = parse_u64s(c).unwrap();
        assert(values.skip(1) =~= parse_u64s(c.skip(n as int)).unwrap());
        lemma_take_skip(c, n as int);
    } else {
        assert(c =~= Seq::<u8>::empty());
    }
}

/// Reading the encoding of an input declaration gives it back.
pub proof fn lemma_parse_input(input: WireInput, rest: Seq<u8>)
    ensures
        parse_input(enc_input(input) + rest) == Some((input, enc_input(input).len())),
        enc_input(input).len() <= 35,
        enc_input(input).len() >= 2,
{
    lemma_pow256_u64();
    let e1 = enc_uint(input.client as nat);
    let e2 = enc_uint(input.base as nat);
    let e3 = enc_uint(input.len as nat);
    lemma_enc_uint_len(input.client as nat);
    lemma_enc_uint_len(input.base as nat);
    lemma_enc_uint_len(input.len as nat);
    let c = e1 + e2 + e3;
    lemma_parse_seq(c, rest);
    lemma_parse_uint(input.client as nat, u64::MAX as nat, e2 + e3);
    assert(c =~= e1 + (e2 + e3));
    lemma_skip_concat(e1, e2 + e3);
    lemma_parse_uint(input.base as nat, u32::MAX as nat, e3);
    assert(c.skip((e1.len() + e2.len()) as int) =~= e3);
    lemma_parse_uint(input.len as nat, u32::MAX as nat, Seq::empty());
    assert(e3 + Seq::<u8>::empty() =~= e3);
    lemma_parse_tlv(TAG_SEQUENCE, c, Seq::empty());
}

/// Whatever the input reader accepts starts with the encoding of the
/// declaration it returns.
pub proof fn lemma_parse_input_sound(s: Seq<u8>)
    requires
        parse_input(s) is Some,
    ensures
        ({
            let (input, n) = parse_input(s).unwrap();
            n <= s.len() && s.take(n as int) == enc_input(input)
        }),
{
    lemma_parse_seq_sound(s);
    let (c, end) = parse_seq(s).unwrap();
    let (client, n1) = parse_uint(c, u64::MAX as nat).unwrap();
    lemma_parse_uint_sound(c, u64::MAX as nat);
    let c2 = c.skip(n1 as int);
    let (base, n2) = parse_uint(c2, u32::MAX as nat).unwrap();
    lemma_parse_uint_sound(c2, u32::MAX as nat);
    let c3 = c.skip((n1 + n2) as int);
    assert(c3 =~= c2.skip(n2 as int));
    let (len, n3) = parse_uint(c3, u32::MAX as nat).unwrap();
    lemma_parse_uint_sound(c3, u32::MAX as nat);
    let (input, n) = parse_input(s).unwrap();
    assert(c =~= c.take(n1 as int) + c2.take(n2 as int) + c3.take(n3 as int));
}

/// Reading the encoding of a list of input declarations gives it back.
pub proof fn lemma_parse_inputs(inputs: Seq<WireInput>)
    ensures
        parse_inputs(enc_inputs(inputs)) == Some(inputs),
    decreases inputs.len(),
{
    if inputs.len() > 0 {
        let head = enc_input(inputs[0]);
        let tail = enc_inputs(inputs.skip(1));
        lemma_parse_input(inputs[0], tail);
        lemma_parse_tlv(TAG_SEQUENCE, enc_uint(inputs[0].client as nat) + enc_uint(inputs[0].base as nat) + enc_uint(inputs[0].len as nat), Seq::empty());
        lemma_skip_concat(head, tail);
        lemma_parse_inputs(inputs.skip(1));
        assert(seq![inputs[0]] + inputs.skip(1) =~= inputs);
    } else {
        assert(enc_inputs(inputs) =~= Seq::<u8>::empty());
    }
}

/// Whatever the input list reader accepts is the encoding of the list.
pub proof fn lemma_parse_inputs_sound(c: Seq<u8>)
    requires
        parse_inputs(c) is Some,
    ensures
        c == enc_inputs(parse_inputs(c).unwrap()),
    decreases c.len(),
{
    if c.len() > 0 {
        let (v, n) = parse_input(c).unwrap();
        lemma_parse_input_sound(c);
        lemma_parse_inputs_sound(c.skip(n as int));
        let values = parse_inputs(c).unwrap();
        assert(values.skip(1) =~= parse_inputs(c.skip(n as int)).unwrap());
        lemma_take_skip(c, n as int);
    } else {
        assert(c =~= Seq::<u8>::empty());
    }
}

/// Reading the encoding of an instruction gives it back, whatever follows.
pub proof fn lemma_parse_instr(w: WireInstructionView, rest: Seq<u8>)
    requires
        enc_instr(w).len() <= MAX_LEN,
    ensures
        parse_instr(enc_instr(w) + rest) == Some((w, enc_instr(w).len())),
{
    lemma_pow256_u64();
    let e1 = enc_uint(w.opcode as nat);
    let args = enc_u64s(w.args);
    let e2 = tlv(TAG_SEQUENCE, args);
    let c = e1 + e2;
    lemma_parse_tlv(TAG_SEQUENCE, c, rest);
    lemma_parse_seq(c, rest);
    lemma_parse_tlv(TAG_SEQUENCE, args, Seq::empty());
    lemma_parse_uint(w.opcode as nat, u8::MAX as nat, e2);
    lemma_skip_concat(e1, e2);
    lemma_parse_seq(args, Seq::empty());
    assert(e2 + Seq::<u8>::empty() =~= e2);
    lemma_parse_u64s(w.args);
}

/// Whatever the instruction reader accepts starts with the encoding of
/// the instruction it returns.
pub proof fn lemma_parse_instr_sound(s: Seq<u8>)
    requires
        parse_instr(s) is Some,
    ensures
        ({
            let (w, n) = parse_instr(s).unwrap();
            n <= s.len() && s.take(n as int) == enc_instr(w) && enc_instr(w).len() <= MAX_LEN + 6
        }),
{
    lemma_parse_seq_sound(s);
    let (c, end) = parse_seq(s).unwrap();
    let (opcode, n1) = parse_uint(c, u8::MAX as nat).unwrap();
    lemma_parse_uint_sound(c, u8::MAX as nat);
    let c2 = c.skip(n1 as int);
    let (a, n2) = parse_seq(c2).unwrap();
    lemma_parse_seq_sound(c2);
    lemma_parse_u64s_sound(a);
    let (w, n) = parse_instr(s).unwrap();
    assert(c =~= c.take(n1 as int) + c2.take(n2 as int));
    lemma_parse_tlv_sound(s);
}

/// Reading the encoding of a list of instructions gives it back.
pub proof fn lemma_parse_instrs(ws: Seq<WireInstructionView>)
    requires
        enc_instrs(ws).len() <= MAX_LEN,
    ensures
        parse_instrs(enc_instrs(ws)) == Some(ws),
    decreases ws.len(),
{
    if ws.len() > 0 {
        let head = enc_instr(ws[0]);
        let tail = enc_instrs(ws.skip(1));
        lemma_parse_instr(ws[0], tail);
        lemma_parse_tlv(TAG_SEQUENCE, enc_uint(ws[0].opcode as nat) + tlv(TAG_SEQUENCE, enc_u64s(ws[0].args)), Seq::empty());
        lemma_skip_concat(head, tail);
        lemma_parse_instrs(ws.skip(1));
        assert(seq![ws[0]] + ws.skip(1) =~= ws);
    } else {
        assert(enc_instrs(ws) =~= Seq::<u8>::empty());
    }
}

/// Whatever the instruction list reader accepts is the encoding of the list.
pub proof fn lemma_parse_instrs_sound(c: Seq<u8>)
    requires
        parse_instrs(c) is Some,
    ensures
        c == enc_instrs(parse_instrs(c).unwrap()),
    decreases c.len(),
{
    if c.len() > 0 {
        let (v, n) = parse_instr(c).unwrap();
        lemma_parse_instr_sound(c);
        lemma_parse_instrs_sound(c.skip(n as int));
        let values = parse_instrs(c).unwrap();
        assert(values.skip(1) =~= parse_instrs(c.skip(n as int)).unwrap());
        lemma_take_skip(c, n as int);
    } else {
        assert(c =~= Seq::<u8>::empty());
    }
}

/// Reading the canonical bytes of a program envelope gives it back.
pub proof fn lemma_parse_program(p: WireProgramView)
    requires
        enc_program_content(p).len() <= MAX_LEN,
    ensures
        parse_program(enc_program(p)) == Some(p),
{
    lemma_pow256_u64();
    let e1 = enc_uint(p.version as nat);
    let e2 = tlv(TAG_SEQUENCE, enc_inputs(p.inputs));
    let e3 = tlv(TAG_SEQUENCE, enc_instrs(p.instructions));
    let c = enc_program_content(p);
    assert(c =~= e1 + (e2 + e3));
    lemma_parse_seq(c, Seq::empty());
    assert(enc_program(p) =~= tlv(TAG_SEQUENCE, c) + Seq::<u8>::empty());
    lemma_parse_uint(p.version as nat, u32::MAX as nat, e2 + e3);
    lemma_skip_concat(e1, e2 + e3);
    lemma_parse_seq(enc_inputs(p.inputs), e3);
    assert(c.skip((e1.len() + e2.len()) as int) =~= e3 + Seq::<u8>::empty());
    lemma_parse_seq(enc_instrs(p.instructions), Seq::empty());
    lemma_parse_tlv(TAG_SEQUENCE, enc_inputs(p.inputs), Seq::empty());
    lemma_parse_tlv(TAG_SEQUENCE, enc_instrs(p.instructions), Seq::empty());
    lemma_parse_inputs(p.inputs);
    lemma_parse_instrs(p.instructions);
}

/// Whatever the program reader accepts is exactly the canonical
/// encoding of the envelope it returns.
pub proof fn lemma_parse_program_sound(s: Seq<u8>)
    requires
        parse_program(s) is Some,
    ensures
        s == enc_program(parse_program(s).unwrap()),
        enc_program_content(parse_program(s).unwrap()).len() <= MAX_LEN,
{
    lemma_parse_seq_sound(s);
    let (c, end) = parse_seq(s).unwrap();
    let (version, n1) = parse_uint(c, u32::MAX as nat).unwrap();
    lemma_parse_uint_sound(c, u32::MAX as nat);
    let c2 = c.skip(n1 as int);
    let (ic, n2) = parse_seq(c2).unwrap();
    lemma_parse_seq_sound(c2);
    let c3 = c.skip((n1 + n2) as int);
    assert(c3 =~= c2.skip(n2 as int));
    let (xc, n3) = parse_seq(c3).unwrap();
    lemma_parse_seq_sound(c3);
    lemma_parse_inputs_sound(ic);
    lemma_parse_instrs_sound(xc);
    let p = parse_program(s).unwrap();
    assert(c =~= c.take(n1 as int) + c2.take(n2 as int) + c3.take(n3 as int));
    assert(s =~= s.take(end as int));
}

// ---------------------------------------------------------------------
// Concatenation laws of the list encodings
// ---------------------------------------------------------------------

/// The list encoding distributes over concatenation.
pub proof fn lemma_enc_u64s_append(a: Seq<u64>, b: Seq<u64>)
    ensures
        enc_u64s(a + b) == enc_u64s(a) + enc_u64s(b),
    decreases a.len(),
{
    if a.len() > 0 {
        assert((a + b).skip(1) =~= a.skip(1) + b);
        lemma_enc_u64s_append(a.skip(1), b);
        assert(enc_u64s(a + b) =~= enc_u64s(a) + enc_u64s(b));
    } else {
        assert(a + b =~= b);
        assert(enc_u64s(a) =~= Seq::<u8>::empty());
        assert(enc_u64s(a + b) =~= enc_u64s(a) + enc_u64s(b));
    }
}

/// The input list encoding distributes over concatenation.
pub proof fn lemma_enc_inputs_append(a: Seq<WireInput>, b: Seq<WireInput>)
    ensures
        enc_inputs(a + b) == enc_inputs(a) + enc_inputs(b),
    decreases a.len(),
{
    if a.len() > 0 {
        assert((a + b).skip(1) =~= a.skip(1) + b);
        lemma_enc_inputs_append(a.skip(1), b);
        assert(enc_inputs(a + b) =~= enc_inputs(a) + enc_inputs(b));
    } else {
        assert(a + b =~= b);
        assert(enc_inputs(a) =~= Seq::<u8>::empty());
        assert(enc_inputs(a + b) =~= enc_inputs(a) + enc_inputs(b));
    }
}

/// The instruction list encoding distributes over concatenation.
pub proof fn lemma_enc_instrs_append(a: Seq<WireInstructionView>, b: Seq<WireInstructionView>)
    ensures
        enc_instrs(a + b) == enc_instrs(a) + enc_instrs(b),
    decreases a.len(),
{
    if a.len() > 0 {
        assert((a + b).skip(1) =~= a.skip(1) + b);
        lemma_enc_instrs_append(a.skip(1), b);
        assert(enc_instrs(a + b) =~= enc_instrs(a) + enc_instrs(b));
    } else {
        assert(a + b =~= b);
        assert(enc_instrs(a) =~= Seq::<u8>::empty());
        assert(enc_instrs(a + b) =~= enc_instrs(a) + enc_instrs(b));
    }
}

proof fn lemma_enc_u64s_single(v: u64)
    ensures
        enc_u64s(seq![v]) == enc_uint(v as nat),
{
    assert(seq![v].skip(1) =~= Seq::<u64>::empty());
    assert(enc_u64s(Seq::<u64>::empty()) =~= Seq::<u8>::empty());
    assert(enc_u64s(seq![v]) =~= enc_uint(v as nat) + Seq::<u8>::empty());
}

proof fn lemma_enc_inputs_single(v: WireInput)
    ensures
        enc_inputs(seq![v]) == enc_input(v),
{
    assert(seq![v].skip(1) =~= Seq::<WireInput>::empty());
    assert(enc_inputs(Seq::<WireInput>::empty()) =~= Seq::<u8>::empty());
    assert(enc_inputs(seq![v]) =~= enc_input(v) + Seq::<u8>::empty());
}

proof fn lemma_enc_instrs_single(v: WireInstructionView)
    ensures
        enc_instrs(seq![v]) == enc_instr(v),
{
    assert(seq![v].skip(1) =~= Seq::<WireInstructionView>::empty());
    assert(enc_instrs(Seq::<WireInstructionView>::empty()) =~= Seq::<u8>::empty());
    assert(enc_instrs(seq![v]) =~= enc_instr(v) + Seq::<u8>::empty());
}

/// Every instruction's encoding sits inside the encoding of the list.
proof fn lemma_enc_instrs_contains(ws: Seq<WireInstructionView>, i: int)
    requires
        0 <= i < ws.len(),
    ensures
        enc_instrs(ws).len() >= enc_instr(ws[i]).len(),
{
    assert(ws =~= ws.take(i) + (seq![ws[i]] + ws.skip(i + 1)));
    lemma_enc_instrs_append(ws.take(i), seq![ws[i]] + ws.skip(i + 1));
    lemma_enc_instrs_append(seq![ws[i]], ws.skip(i + 1));
    lemma_enc_instrs_single(ws[i]);
}

// ---------------------------------------------------------------------
// Executable encoder and decoder
// ---------------------------------------------------------------------

/// Serialize a program envelope to its canonical DER bytes. Fails only
/// when the envelope's content exceeds the largest DER length.
pub fn encode_wire(w: &WireProgram) -> (encoded: Result<Vec<u8>, DerError>)
    ensures
        match encoded {
            Ok(bytes) => bytes@ == enc_program(w@) && enc_program_content(w@).len() <= MAX_LEN,
            Err(e) => e == DerError::Overlength && enc_program_content(w@).len() > MAX_LEN,
        },
{
    let ghost p = w@;
    let mut inputs: Vec<u8> = Vec::new();
    let mut i: usize = 0;
    while i < w.inputs.len()
        invariant
            i <= w.inputs@.len(),
            p == w@,
            inputs@ == enc_inputs(p.inputs.take(i as int)),
        decreases w.inputs@.len() - i,
    {
        let input = w.inputs[i];
        let mut item: Vec<u8> = Vec::new();
        push_uint(&mut item, input.client);
        push_uint(&mut item, input.base as u64);
        push_uint(&mut item, input.len as u64);
        proof {
            lemma_enc_uint_len(input.client as nat);
            lemma_enc_uint_len(input.base as nat);
            lemma_enc_uint_len(input.len as nat);
        }
        let mut wrapped = match wrap(TAG_SEQUENCE, item) {
            Ok(bytes) => bytes,
            Err(e) => return Err(e),
        };
        proof {
            assert(item@ =~= enc_uint(input.client as nat) + enc_uint(input.base as nat) + enc_uint(input.len as nat));
            assert(p.inputs.take(i + 1) =~= p.inputs.take(i as int) + seq![input]);
            lemma_enc_inputs_append(p.inputs.take(i as int), seq![input]);
            lemma_enc_inputs_single(input);
        }
        inputs.append(&mut wrapped);
        i = i + 1;
    }
    assert(p.inputs.take(i as int) =~= p.inputs);
    let mut instructions: Vec<u8> = Vec::new();
    let mut k: usize = 0;
    while k < w.instructions.len()
        invariant
            k <= w.instructions@.len(),
            p == w@,
            instructions@ == enc_instrs(p.instructions.take(k as int)),
        decreases w.instructions@.len() - k,
    {
        let instruction = &w.instructions[k];
        let ghost wv = p.instructions[k as int];
        assert(wv == instruction@);
        let mut args: Vec<u8> = Vec::new();
        let mut j: usize = 0;
        while j < instruction.args.len()
            invariant
                j <= instruction.args@.len(),
                args@ == enc_u64s(instruction.args@.take(j as int)),
            decreases instruction.args@.len() - j,
        {
            let value = instruction.args[j];
            push_uint(&mut args, value);
            proof {
                assert(instruction.args@.take(j + 1) =~= instruction.args@.take(j as int) + seq![value]);
                lemma_enc_u64s_append(instruction.args@.take(j as int), seq![value]);
                lemma_enc_u64s_single(value);
            }
            j = j + 1;
        }
        assert(instruction.args@.take(j as int) =~= instruction.args@);
        proof {
            lemma_enc_instrs_contains(p.instructions, k as int);
        }
        let mut args_tlv = match wrap(TAG_SEQUENCE, args) {
            Ok(bytes) => bytes,
            Err(e) => return Err(e),
        };
        let mut item: Vec<u8> = Vec::new();
        push_uint(&mut item, instruction.opcode as u64);
        item.append(&mut args_tlv);
        let mut wrapped = match wrap(TAG_SEQUENCE, item) {
            Ok(bytes) => bytes,
            Err(e) => return Err(e),
        };
        proof {
            assert(p.instructions.take(k + 1) =~= p.instructions.take(k as int) + seq![wv]);
            lemma_enc_instrs_append(p.instructions.take(k as int), seq![wv]);
            lemma_enc_instrs_single(wv);
        }
        instructions.append(&mut wrapped);
        k = k + 1;
    }
    assert(p.instructions.take(k as int) =~= p.instructions);
    let mut inputs_tlv = match wrap(TAG_SEQUENCE, inputs) {
        Ok(bytes) => bytes,
        Err(e) => return Err(e),
    };
    let mut instructions_tlv = match wrap(TAG_SEQUENCE, instructions) {
        Ok(bytes) => bytes,
        Err(e) => return Err(e),
    };
    let mut content: Vec<u8> = Vec::new();
    push_uint(&mut content, w.version as u64);
    content.append(&mut inputs_tlv);
    content.append(&mut instructions_tlv);
    assert(content@ =~= enc_program_content(p));
    wrap(TAG_SEQUENCE, content)
}

/// `Some(prefix + rest)` when `tail` is `Some(rest)`.
pub open spec fn prefixed<T>(prefix: Seq<T>, tail: Option<Seq<T>>) -> Option<Seq<T>> {
    match tail {
        Some(rest) => Some(prefix + rest),
        None => None,
    }
}

/// Read a `SEQUENCE` at `pos` within `buf[pos..end]`: the bounds of its content.
pub fn read_seq(buf: &[u8], pos: usize, end: usize) -> (parsed: Option<(usize, usize)>)
    requires
        pos <= end <= buf@.len(),
    ensures
        match parse_seq(buf@.subrange(pos as int, end as int)) {
            Some((c, n)) => parsed matches Some((start, stop)) && stop == pos + n && pos < start
                <= stop <= end && buf@.subrange(start as int, stop as int) == c,
            None => parsed is None,
        },
{
    match read_tlv(buf, pos, end) {
        Some((tag, start, stop)) => {
            if tag != TAG_SEQUENCE {
                return None;
            }
            assert(buf@.subrange(start as int, stop as int) =~= buf@.subrange(pos as int, end as int).subrange(
                (start - pos) as int,
                (stop - pos) as int,
            ));
            Some((start, stop))
        },
        None => None,
    }
}

/// Read the `INTEGER`s that make up all of `buf[start..end]`.
pub fn read_u64s(buf: &[u8], start: usize, end: usize) -> (parsed: Option<Vec<u64>>)
    requires
        start <= end <= buf@.len(),
    ensures
        match parse_u64s(buf@.subrange(start as int, end as int)) {
            Some(values) => parsed matches Some(v) && v@ == values,
            None => parsed is None,
        },
{
    let mut out: Vec<u64> = Vec::new();
    let mut pos = start;
    while pos < end
        invariant
            start <= pos <= end <= buf@.len(),
            parse_u64s(buf@.subrange(start as int, end as int)) == prefixed(
                out@,
                parse_u64s(buf@.subrange(pos as int, end as int)),
            ),
        decreases end - pos,
    {
        let ghost window = buf@.subrange(pos as int, end as int);
        match read_uint(buf, pos, end, u64::MAX) {
            Some((v, next)) => {
                proof {
                    assert(window.skip((next - pos) as int) =~= buf@.subrange(next as int, end as int));
                    match parse_u64s(buf@.subrange(next as int, end as int)) {
                        Some(rest) => {
                            assert(out@ + (seq![v] + rest) =~= out@.push(v) + rest);
                        },
                        None => {},
                    }
                }
                out.push(v);
                pos = next;
            },
            None => {
                return None;
            },
        }
    }
    assert(buf@.subrange(pos as int, end as int) =~= Seq::<u8>::empty());
    assert(out@ + Seq::<u64>::empty() =~= out@);
    Some(out)
}

/// Read one input declaration at `pos` within `buf[pos..end]`.
pub fn read_input(buf: &[u8], pos: usize, end: usize) -> (parsed: Option<(WireInput, usize)>)
    requires
        pos <= end <= buf@.len(),
    ensures
        match parse_input(buf@.subrange(pos as int, end as int)) {
            Some((input, n)) => parsed == Some((input, (pos + n) as usize)) && 0 < n <= end - pos,
            None => parsed is None,
        },
        parsed matches Some((_, next)) ==> pos < next <= end,
{
    let ghost s = buf@.subrange(pos as int, end as int);
    let (cs, ce) = match read_seq(buf, pos, end) {
        Some(found) => found,
        None => return None,
    };
    let ghost c = buf@.subrange(cs as int, ce as int);
    let (client, p1) = match read_uint(buf, cs, ce, u64::MAX) {
        Some(found) => found,
        None => return None,
    };
    assert(c.skip((p1 - cs) as int) =~= buf@.subrange(p1 as int, ce as int));
    let (base, p2) = match read_uint(buf, p1, ce, u32::MAX as u64) {
        Some(found) => found,
        None => return None,
    };
    assert(c.skip((p2 - cs) as int) =~= buf@.subrange(p2 as int, ce as int));
    let (len, p3) = match read_uint(buf, p2, ce, u32::MAX as u64) {
        Some(found) => found,
        None => return None,
    };
    if p3 != ce {
        return None;
    }
    Some((WireInput { client, base: base as u32, len: len as u32 }, ce))
}

/// Read the input declarations that make up all of `buf[start..end]`.
pub fn read_inputs(buf: &[u8], start: usize, end: usize) -> (parsed: Option<Vec<WireInput>>)
    requires
        start <= end <= buf@.len(),
    ensures
        match parse_inputs(buf@.subrange(start as int, end as int)) {
            Some(values) => parsed matches Some(v) && v@ == values,
            None => parsed is None,
        },
{
    let mut out: Vec<WireInput> = Vec::new();
    let mut pos = start;
    while pos < end
        invariant
            start <= pos <= end <= buf@.len(),
            parse_inputs(buf@.subrange(start as int, end as int)) == prefixed(
                out@,
                parse_inputs(buf@.subrange(pos as int, end as int)),
            ),
        decreases end - pos,
    {
        let ghost window = buf@.subrange(pos as int, end as int);
        match read_input(buf, pos, end) {
            Some((v, next)) => {
                proof {
                    assert(window.skip((next - pos) as int) =~= buf@.subrange(next as int, end as int));
                    match parse_inputs(buf@.subrange(next as int, end as int)) {
                        Some(rest) => {
                            assert(out@ + (seq![v] + rest) =~= out@.push(v) + rest);
                        },
                        None => {},
                    }
                }
                out.push(v);
                pos = next;
            },
            None => {
                return None;
            },
        }
    }
    assert(buf@.subrange(pos as int, end as int) =~= Seq::<u8>::empty());
    assert(out@ + Seq::<WireInput>::empty() =~= out@);
    Some(out)
}

/// Read one instruction at `pos` within `buf[pos..end]`.
pub fn read_instr(buf: &[u8], pos: usize, end: usize) -> (parsed: Option<(WireInstruction, usize)>)
    requires
        pos <= end <= buf@.len(),
    ensures
        match parse_instr(buf@.subrange(pos as int, end as int)) {
            Some((w, n)) => parsed matches Some((v, next)) && v@ == w && next == pos + n,
            None => parsed is None,
        },
        parsed matches Some((_, next)) ==> pos < next <= end,
{
    let (cs, ce) = match read_seq(buf, pos, end) {
        Some(found) => found,
        None => return None,
    };
    let ghost c = buf@.subrange(cs as int, ce as int);
    let (opcode, p1) = match read_uint(buf, cs, ce, u8::MAX as u64) {
        Some(found) => found,
        None => return None,
    };
    assert(c.skip((p1 - cs) as int) =~= buf@.subrange(p1 as int, ce as int));
    let (a_start, a_end) = match read_seq(buf, p1, ce) {
        Some(found) => found,
        None => return None,
    };
    if a_end != ce {
        return None;
    }
    match read_u64s(buf, a_start, a_end) {
        Some(args) => Some((WireInstruction { opcode: opcode as u8, args }, ce)),
        None => None,
    }
}

/// Read the instructions that make up all of `buf[start..end]`.
pub fn read_instrs(buf: &[u8], start: usize, end: usize) -> (parsed: Option<Vec<WireInstruction>>)
    requires
        start <= end <= buf@.len(),
    ensures
        match parse_instrs(buf@.subrange(start as int, end as int)) {
            Some(values) => parsed matches Some(v) && v@.map_values(|w: WireInstruction| w@) == values,
            None => parsed is None,
        },
{
    let mut out: Vec<WireInstruction> = Vec::new();
    let mut pos = start;
    while pos < end
        invariant
            start <= pos <= end <= buf@.len(),
            parse_instrs(buf@.subrange(start as int, end as int)) == prefixed(
                out@.map_values(|w: WireInstruction| w@),
                parse_instrs(buf@.subrange(pos as int, end as int)),
            ),
        decreases end - pos,
    {
        let ghost window = buf@.subrange(pos as int, end as int);
        let ghost before = out@.map_values(|w: WireInstruction| w@);
        match read_instr(buf, pos, end) {
            Some((v, next)) => {
                let ghost vv = v@;
                proof {
                    assert(window.skip((next - pos) as int) =~= buf@.subrange(next as int, end as int));
                }
                out.push(v);
                proof {
                    assert(out@.map_values(|w: WireInstruction| w@) =~= before.push(vv));
                    match parse_instrs(buf@.subrange(next as int, end as int)) {
                        Some(rest) => {
                            assert(before + (seq![vv] + rest) =~= before.push(vv) + rest);
                        },
                        None => {},
                    }
                }
                pos = next;
            },
            None => {
                return None;
            },
        }
    }
    assert(buf@.subrange(pos as int, end as int) =~= Seq::<u8>::empty());
    assert(out@.map_values(|w: WireInstruction| w@) + Seq::<WireInstructionView>::empty()
        =~= out@.map_values(|w: WireInstruction| w@));
    Some(out)
}

/// Parse DER bytes into a program envelope: `Some` exactly when the
/// bytes are the canonical encoding of an envelope, which is returned.
pub fn decode_wire(bytes: &[u8]) -> (parsed: Option<WireProgram>)
    ensures
        match parse_program(bytes@) {
            Some(p) => parsed matches Some(w) && w@ == p,
            None => parsed is None,
        },
{
    let len = bytes.len();
    assert(bytes@.subrange(0, len as int) =~= bytes@);
    let (cs, ce) = match read_seq(bytes, 0, len) {
        Some(found) => found,
        None => return None,
    };
    if ce != len {
        return None;
    }
    let ghost c = bytes@.subrange(cs as int, ce as int);
    let (version, p1) = match read_uint(bytes, cs, ce, u32::MAX as u64) {
        Some(found) => found,
        None => return None,
    };
    assert(c.skip((p1 - cs) as int) =~= bytes@.subrange(p1 as int, ce as int));
    let (is, ie) = match read_seq(bytes, p1, ce) {
        Some(found) => found,
        None => return None,
    };
    assert(c.skip((ie - cs) as int) =~= bytes@.subrange(ie as int, ce as int));
    let (xs, xe) = match read_seq(bytes, ie, ce) {
        Some(found) => found,
        None => return None,
    };
    if xe != ce {
        return None;
    }
    let inputs = match read_inputs(bytes, is, ie) {
        Some(v) => v,
        None => return None,
    };
    let instructions = match read_instrs(bytes, xs, xe) {
        Some(v) => v,
        None => return None,
    };
    Some(WireProgram { version: version as u32, inputs, instructions })
}

} // verus!

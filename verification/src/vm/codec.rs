//! Program wire format: X.690 DER, digest-addressed.
//!
//! Every instruction rides as `SEQUENCE { opcode, args }` with a flat
//! `u64` argument list, so the DER layer stays uniform and the opcode
//! table owns each argument shape. The program digest is SHA3-256 over
//! the exact DER bytes.

use crate::vm::error::{CodecError, DerError};
use crate::vm::isa::{
    lemma_opcode_octets_round_trip, opcode_octet, opcode_of, opcode_of_octet, ClearRange, ClientId, FixedPrecision, InputDecl,
    Instruction, InstructionView, MulTriple, Opcode, Program, ProgramView, SecretRange, VERSION,
};
use crate::vm::wire::{
    decode_wire, enc_program, enc_program_content, encode_wire, lemma_parse_program,
    lemma_parse_program_sound, parse_program, WireInput, WireInstruction, WireInstructionView,
    WireProgram, WireProgramView,
};
use crate::text::push_char;
use crate::vm::der::MAX_LEN;
use vstd::prelude::*;

verus! {

// ---------------------------------------------------------------------
// Instruction <-> wire instruction
// ---------------------------------------------------------------------

/// The flat argument list an instruction travels with.
pub open spec fn wire_args(i: InstructionView) -> Seq<u64> {
    match i {
        InstructionView::LdC { dest, values } => seq![dest.base as u64, dest.len as u64] + values,
        InstructionView::AddS { dest, a, b } | InstructionView::SubS { dest, a, b }
        | InstructionView::ByteXor { dest, a, b } => seq![
            dest.base as u64,
            a.base as u64,
            b.base as u64,
            dest.len as u64,
        ],
        InstructionView::AddC { dest, a, c } | InstructionView::SubC { dest, a, c }
        | InstructionView::MulC { dest, a, c } => seq![
            dest.base as u64,
            a.base as u64,
            c.base as u64,
            dest.len as u64,
        ],
        InstructionView::MulS { pairs } | InstructionView::AndS { pairs } | InstructionView::XorS {
            pairs,
        } => pair_args(pairs),
        InstructionView::NotS { dest, a } => seq![dest.base as u64, a.base as u64, dest.len as u64],
        InstructionView::Mux { dest, cond, t, f } => seq![
            dest.base as u64,
            cond.base as u64,
            t.base as u64,
            f.base as u64,
            dest.len as u64,
        ],
        InstructionView::Pack { dest, src, width } => seq![
            dest.base as u64,
            src.base as u64,
            dest.len as u64,
            width as u64,
        ],
        InstructionView::BitDec { dest, src, width } => seq![
            dest.base as u64,
            src.base as u64,
            src.len as u64,
            width as u64,
        ],
        InstructionView::Sbox { dest, src } => seq![
            dest.base as u64,
            src.base as u64,
            (dest.len / 8) as u64,
        ],
        InstructionView::FpMulS { dest, a, b, precision } => seq![
            dest.base as u64,
            a.base as u64,
            b.base as u64,
            dest.len as u64,
            precision.k as u64,
            precision.f as u64,
        ],
        InstructionView::FpDivC { dest, a, divisor, precision } => seq![
            dest.base as u64,
            a.base as u64,
            dest.len as u64,
            divisor,
            precision.k as u64,
            precision.f as u64,
        ],
        InstructionView::Reveal { dest, src } => seq![dest.base as u64, src.base as u64, dest.len as u64],
        InstructionView::Out { client, src } => seq![client as u64, src.base as u64, src.len as u64],
    }
}

/// The `[dest, a, b, len]` runs of a batch of pairs.
pub open spec fn pair_args(pairs: Seq<MulTriple>) -> Seq<u64>
    decreases pairs.len(),
{
    if pairs.len() == 0 {
        Seq::empty()
    } else {
        seq![
            pairs[0].dest.base as u64,
            pairs[0].a.base as u64,
            pairs[0].b.base as u64,
            pairs[0].dest.len as u64,
        ] + pair_args(pairs.skip(1))
    }
}

/// The wire form of an instruction.
pub open spec fn wire_of(i: InstructionView) -> WireInstructionView {
    WireInstructionView { opcode: opcode_octet(opcode_of(i)), args: wire_args(i) }
}

/// Whether an argument fits the register index space.
pub open spec fn fits32(v: u64) -> bool {
    v <= u32::MAX
}

/// A register-range component, or the overflow it is.
pub open spec fn register_of(v: u64) -> Result<u32, CodecError> {
    if fits32(v) {
        Ok(v as u32)
    } else {
        Err(CodecError::RegisterOverflow { value: v })
    }
}

/// A range of `len` registers at `base`.
pub open spec fn srange(base: u64, len: u64) -> SecretRange {
    SecretRange { base: base as u32, len: len as u32 }
}

/// The same as a clear range.
pub open spec fn crange(base: u64, len: u64) -> ClearRange {
    ClearRange { base: base as u32, len: len as u32 }
}

/// Decode the pairs of a batched instruction: `[dest, a, b, len]` per
/// pair, each run's length checked first.
pub open spec fn pairs_of(args: Seq<u64>) -> Result<Seq<MulTriple>, CodecError>
    decreases args.len(),
{
    if args.len() < 4 {
        Ok(Seq::empty())
    } else if !fits32(args[3]) {
        Err(CodecError::RegisterOverflow { value: args[3] })
    } else if !fits32(args[0]) {
        Err(CodecError::RegisterOverflow { value: args[0] })
    } else if !fits32(args[1]) {
        Err(CodecError::RegisterOverflow { value: args[1] })
    } else if !fits32(args[2]) {
        Err(CodecError::RegisterOverflow { value: args[2] })
    } else {
        match pairs_of(args.skip(4)) {
            Ok(rest) => Ok(
                seq![
                    MulTriple {
                        dest: srange(args[0], args[3]),
                        a: srange(args[1], args[3]),
                        b: srange(args[2], args[3]),
                    },
                ] + rest,
            ),
            Err(e) => Err(e),
        }
    }
}

/// The first of `order`'s arguments that overflows the register space.
pub open spec fn first_overflow(args: Seq<u64>, order: Seq<int>) -> Option<u64>
    decreases order.len(),
{
    if order.len() == 0 {
        None
    } else if !fits32(args[order[0]]) {
        Some(args[order[0]])
    } else {
        first_overflow(args, order.skip(1))
    }
}

/// Decode an argument list whose length must be `count`, whose
/// components at `order` are checked in turn against the register
/// space, and which then decodes to `ok`.
pub open spec fn shaped(
    opcode: Opcode,
    args: Seq<u64>,
    count: nat,
    order: Seq<int>,
    ok: InstructionView,
) -> Result<InstructionView, CodecError> {
    if args.len() != count {
        Err(CodecError::MalformedArguments { opcode })
    } else {
        match first_overflow(args, order) {
            Some(v) => Err(CodecError::RegisterOverflow { value: v }),
            None => Ok(ok),
        }
    }
}

/// Decode an argument list under an opcode.
pub open spec fn decode_args(opcode: Opcode, args: Seq<u64>) -> Result<InstructionView, CodecError> {
    let bin = seq![3int, 0, 1, 2];
    match opcode {
        Opcode::LdC => if args.len() < 2 {
            Err(CodecError::MalformedArguments { opcode })
        } else if !fits32(args[0]) {
            Err(CodecError::RegisterOverflow { value: args[0] })
        } else if !fits32(args[1]) {
            Err(CodecError::RegisterOverflow { value: args[1] })
        } else if args.len() - 2 != args[1] {
            Err(CodecError::MalformedArguments { opcode })
        } else {
            Ok(InstructionView::LdC { dest: crange(args[0], args[1]), values: args.skip(2) })
        },
        Opcode::AddS => shaped(opcode, args, 4, bin, InstructionView::AddS {
            dest: srange(args[0], args[3]),
            a: srange(args[1], args[3]),
            b: srange(args[2], args[3]),
        }),
        Opcode::SubS => shaped(opcode, args, 4, bin, InstructionView::SubS {
            dest: srange(args[0], args[3]),
            a: srange(args[1], args[3]),
            b: srange(args[2], args[3]),
        }),
        Opcode::ByteXor => shaped(opcode, args, 4, bin, InstructionView::ByteXor {
            dest: srange(args[0], args[3]),
            a: srange(args[1], args[3]),
            b: srange(args[2], args[3]),
        }),
        Opcode::AddC => shaped(opcode, args, 4, bin, InstructionView::AddC {
            dest: srange(args[0], args[3]),
            a: srange(args[1], args[3]),
            c: crange(args[2], args[3]),
        }),
        Opcode::SubC => shaped(opcode, args, 4, bin, InstructionView::SubC {
            dest: srange(args[0], args[3]),
            a: srange(args[1], args[3]),
            c: crange(args[2], args[3]),
        }),
        Opcode::MulC => shaped(opcode, args, 4, bin, InstructionView::MulC {
            dest: srange(args[0], args[3]),
            a: srange(args[1], args[3]),
            c: crange(args[2], args[3]),
        }),
        Opcode::MulS | Opcode::AndS | Opcode::XorS => if args.len() == 0 || args.len() % 4 != 0 {
            Err(CodecError::MalformedArguments { opcode })
        } else {
            match pairs_of(args) {
                Ok(pairs) => Ok(
                    if opcode == Opcode::MulS {
                        InstructionView::MulS { pairs }
                    } else if opcode == Opcode::AndS {
                        InstructionView::AndS { pairs }
                    } else {
                        InstructionView::XorS { pairs }
                    },
                ),
                Err(e) => Err(e),
            }
        },
        Opcode::NotS => shaped(opcode, args, 3, seq![2int, 0, 1], InstructionView::NotS {
            dest: srange(args[0], args[2]),
            a: srange(args[1], args[2]),
        }),
        Opcode::Mux => shaped(opcode, args, 5, seq![4int, 0, 1, 2, 3], InstructionView::Mux {
            dest: srange(args[0], args[4]),
            cond: srange(args[1], 1),
            t: srange(args[2], args[4]),
            f: srange(args[3], args[4]),
        }),
        Opcode::Pack => if args.len() != 4 || args[3] > u8::MAX {
            Err(CodecError::MalformedArguments { opcode })
        } else {
            match first_overflow(args, seq![2int, 0, 1]) {
                Some(v) => Err(CodecError::RegisterOverflow { value: v }),
                None => if args[2] * args[3] > u32::MAX {
                    Err(CodecError::RegisterOverflow { value: (args[2] * args[3]) as u64 })
                } else {
                    Ok(InstructionView::Pack {
                        dest: srange(args[0], args[2]),
                        src: srange(args[1], (args[2] * args[3]) as u64),
                        width: args[3] as u8,
                    })
                },
            }
        },
        Opcode::BitDec => if args.len() != 4 || args[3] > u8::MAX {
            Err(CodecError::MalformedArguments { opcode })
        } else {
            match first_overflow(args, seq![2int, 1, 0]) {
                Some(v) => Err(CodecError::RegisterOverflow { value: v }),
                None => if args[2] * args[3] > u32::MAX {
                    Err(CodecError::RegisterOverflow { value: (args[2] * args[3]) as u64 })
                } else {
                    Ok(InstructionView::BitDec {
                        dest: srange(args[0], (args[2] * args[3]) as u64),
                        src: srange(args[1], args[2]),
                        width: args[3] as u8,
                    })
                },
            }
        },
        Opcode::Sbox => if args.len() != 3 {
            Err(CodecError::MalformedArguments { opcode })
        } else if !fits32(args[2]) {
            Err(CodecError::RegisterOverflow { value: args[2] })
        } else if args[2] * 8 > u32::MAX {
            Err(CodecError::RegisterOverflow { value: (args[2] * 8) as u64 })
        } else if !fits32(args[0]) {
            Err(CodecError::RegisterOverflow { value: args[0] })
        } else if !fits32(args[1]) {
            Err(CodecError::RegisterOverflow { value: args[1] })
        } else {
            Ok(InstructionView::Sbox {
                dest: srange(args[0], (args[2] * 8) as u64),
                src: srange(args[1], (args[2] * 8) as u64),
            })
        },
        Opcode::FpMulS => if args.len() != 6 {
            Err(CodecError::MalformedArguments { opcode })
        } else {
            match first_overflow(args, bin) {
                Some(v) => Err(CodecError::RegisterOverflow { value: v }),
                None => if args[4] > u8::MAX || args[5] > u8::MAX {
                    Err(CodecError::MalformedArguments { opcode })
                } else {
                    Ok(InstructionView::FpMulS {
                        dest: srange(args[0], args[3]),
                        a: srange(args[1], args[3]),
                        b: srange(args[2], args[3]),
                        precision: FixedPrecision { k: args[4] as u8, f: args[5] as u8 },
                    })
                },
            }
        },
        Opcode::FpDivC => if args.len() != 6 {
            Err(CodecError::MalformedArguments { opcode })
        } else {
            match first_overflow(args, seq![2int, 0, 1]) {
                Some(v) => Err(CodecError::RegisterOverflow { value: v }),
                None => if args[4] > u8::MAX || args[5] > u8::MAX {
                    Err(CodecError::MalformedArguments { opcode })
                } else {
                    Ok(InstructionView::FpDivC {
                        dest: srange(args[0], args[2]),
                        a: srange(args[1], args[2]),
                        divisor: args[3],
                        precision: FixedPrecision { k: args[4] as u8, f: args[5] as u8 },
                    })
                },
            }
        },
        Opcode::Reveal => shaped(opcode, args, 3, seq![2int, 0, 1], InstructionView::Reveal {
            dest: crange(args[0], args[2]),
            src: srange(args[1], args[2]),
        }),
        Opcode::Out => shaped(opcode, args, 3, seq![1int, 2], InstructionView::Out {
            client: args[0] as ClientId,
            src: srange(args[1], args[2]),
        }),
    }
}

/// Decode a wire instruction.
pub open spec fn from_wire(w: WireInstructionView) -> Result<InstructionView, CodecError> {
    match opcode_of_octet(w.opcode) {
        Some(opcode) => decode_args(opcode, w.args),
        None => Err(CodecError::UnknownOpcode { opcode: w.opcode }),
    }
}


/// The model of a decoding outcome.
pub open spec fn lift(r: Result<Instruction, CodecError>) -> Result<InstructionView, CodecError> {
    match r {
        Ok(i) => Ok(i@),
        Err(e) => Err(e),
    }
}

proof fn lemma_first_overflow2(args: Seq<u64>, a: int, b: int)
    ensures
        first_overflow(args, seq![a, b]) == (if !fits32(args[a]) {
            Some(args[a])
        } else if !fits32(args[b]) {
            Some(args[b])
        } else {
            None::<u64>
        }),
{
    assert(seq![a, b].skip(1) =~= seq![b]);
    assert(seq![b].skip(1) =~= Seq::<int>::empty());
    reveal_with_fuel(first_overflow, 3);
}

proof fn lemma_first_overflow3(args: Seq<u64>, a: int, b: int, c: int)
    ensures
        first_overflow(args, seq![a, b, c]) == (if !fits32(args[a]) {
            Some(args[a])
        } else {
            first_overflow(args, seq![b, c])
        }),
{
    assert(seq![a, b, c].skip(1) =~= seq![b, c]);
}

proof fn lemma_first_overflow4(args: Seq<u64>, a: int, b: int, c: int, d: int)
    ensures
        first_overflow(args, seq![a, b, c, d]) == (if !fits32(args[a]) {
            Some(args[a])
        } else {
            first_overflow(args, seq![b, c, d])
        }),
{
    assert(seq![a, b, c, d].skip(1) =~= seq![b, c, d]);
}

proof fn lemma_first_overflow5(args: Seq<u64>, a: int, b: int, c: int, d: int, e: int)
    ensures
        first_overflow(args, seq![a, b, c, d, e]) == (if !fits32(args[a]) {
            Some(args[a])
        } else {
            first_overflow(args, seq![b, c, d, e])
        }),
{
    assert(seq![a, b, c, d, e].skip(1) =~= seq![b, c, d, e]);
}

/// Narrow a wire argument into the register index space.
fn register(value: u64) -> (narrowed: Result<u32, CodecError>)
    ensures
        narrowed == register_of(value),
{
    if value <= u32::MAX as u64 {
        Ok(value as u32)
    } else {
        Err(CodecError::RegisterOverflow { value })
    }
}

/// The `[base, len]` pair at `at`, or why it is not there.
pub open spec fn range_at(args: Seq<u64>, at: int, opcode: Opcode) -> Result<(u32, u32), CodecError> {
    if at + 1 >= args.len() {
        Err(CodecError::MalformedArguments { opcode })
    } else if !fits32(args[at]) {
        Err(CodecError::RegisterOverflow { value: args[at] })
    } else if !fits32(args[at + 1]) {
        Err(CodecError::RegisterOverflow { value: args[at + 1] })
    } else {
        Ok((args[at] as u32, args[at + 1] as u32))
    }
}

/// Read `[base, len]` at `at` as a secret range.
fn secret_range(args: &[u64], at: usize, opcode: Opcode) -> (range: Result<SecretRange, CodecError>)
    requires
        at < usize::MAX,
    ensures
        match range_at(args@, at as int, opcode) {
            Ok((base, len)) => range == Ok::<SecretRange, CodecError>(SecretRange { base, len }),
            Err(e) => range == Err::<SecretRange, CodecError>(e),
        },
{
    if at >= args.len() || at + 1 >= args.len() {
        return Err(CodecError::MalformedArguments { opcode });
    }
    let base = register(args[at])?;
    let len = register(args[at + 1])?;
    Ok(SecretRange { base, len })
}

/// Read `[base, len]` at `at` as a clear range.
fn clear_range(args: &[u64], at: usize, opcode: Opcode) -> (range: Result<ClearRange, CodecError>)
    requires
        at < usize::MAX,
    ensures
        match range_at(args@, at as int, opcode) {
            Ok((base, len)) => range == Ok::<ClearRange, CodecError>(ClearRange { base, len }),
            Err(e) => range == Err::<ClearRange, CodecError>(e),
        },
{
    let secret = secret_range(args, at, opcode)?;
    Ok(ClearRange { base: secret.base, len: secret.len })
}

/// Narrow a wire argument into a bit width octet (`Pack`'s width).
fn width_component(value: u64, opcode: Opcode) -> (width: Result<u8, CodecError>)
    ensures
        value <= u8::MAX ==> width == Ok::<u8, CodecError>(value as u8),
        value > u8::MAX ==> width == Err::<u8, CodecError>(CodecError::MalformedArguments { opcode }),
{
    if value <= u8::MAX as u64 {
        Ok(value as u8)
    } else {
        Err(CodecError::MalformedArguments { opcode })
    }
}

/// Narrow a wire argument into a precision component.
fn precision_component(value: u64, opcode: Opcode) -> (component: Result<u8, CodecError>)
    ensures
        value <= u8::MAX ==> component == Ok::<u8, CodecError>(value as u8),
        value > u8::MAX ==> component == Err::<u8, CodecError>(
            CodecError::MalformedArguments { opcode },
        ),
{
    if value <= u8::MAX as u64 {
        Ok(value as u8)
    } else {
        Err(CodecError::MalformedArguments { opcode })
    }
}

/// `prefix` ahead of a decoded tail, or the tail's error.
pub open spec fn prepend(prefix: Seq<MulTriple>, tail: Result<Seq<MulTriple>, CodecError>) -> Result<
    Seq<MulTriple>,
    CodecError,
> {
    match tail {
        Ok(rest) => Ok(prefix + rest),
        Err(e) => Err(e),
    }
}

/// Decode a batched-pairs argument list shared by `MulS`, `AndS`, and
/// `XorS`: `[dest, a, b, len]` repeated once per element-wise operand
/// pair.
fn decode_pairs(opcode: Opcode, args: &[u64]) -> (pairs: Result<Vec<MulTriple>, CodecError>)
    ensures
        args@.len() == 0 || args@.len() % 4 != 0 ==> pairs == Err::<Vec<MulTriple>, CodecError>(
            CodecError::MalformedArguments { opcode },
        ),
        args@.len() > 0 && args@.len() % 4 == 0 ==> match pairs {
            Ok(v) => pairs_of(args@) == Ok::<Seq<MulTriple>, CodecError>(v@),
            Err(e) => pairs_of(args@) == Err::<Seq<MulTriple>, CodecError>(e),
        },
{
    if args.len() == 0 || args.len() % 4 != 0 {
        return Err(CodecError::MalformedArguments { opcode });
    }
    let mut pairs: Vec<MulTriple> = Vec::new();
    let mut k: usize = 0;
    assert(args@.skip(0) =~= args@);
    proof {
        match pairs_of(args@) {
            Ok(t) => assert(Seq::<MulTriple>::empty() + t =~= t),
            Err(e) => {},
        }
    }
    while k < args.len()
        invariant
            k <= args.len(),
            k % 4 == 0,
            args@.len() % 4 == 0,
            pairs_of(args@) == prepend(pairs@, pairs_of(args@.skip(k as int))),
        decreases args.len() - k,
    {
        let ghost rest = args@.skip(k as int);
        assert(rest.skip(4) =~= args@.skip(k + 4));
        let len = register(args[k + 3])?;
        let dest = SecretRange { base: register(args[k])?, len };
        let a = SecretRange { base: register(args[k + 1])?, len };
        let b = SecretRange { base: register(args[k + 2])?, len };
        let triple = MulTriple { dest, a, b };
        proof {
            let tail = pairs_of(args@.skip(k + 4));
            assert(triple == MulTriple {
                dest: srange(rest[0], rest[3]),
                a: srange(rest[1], rest[3]),
                b: srange(rest[2], rest[3]),
            });
            match tail {
                Ok(t) => {
                    assert(pairs@ + (seq![triple] + t) =~= pairs@.push(triple) + t);
                },
                Err(e) => {},
            }
        }
        pairs.push(triple);
        k = k + 4;
    }
    assert(args@.skip(k as int) =~= Seq::<u64>::empty());
    assert(pairs@ + Seq::<MulTriple>::empty() =~= pairs@);
    Ok(pairs)
}


fn decode_ldc(args: &[u64]) -> (decoded: Result<Instruction, CodecError>)
    ensures
        lift(decoded) == decode_args(Opcode::LdC, args@),
{
    let opcode = Opcode::LdC;
    let dest = clear_range(args, 0, opcode)?;
    let mut values: Vec<u64> = Vec::new();
    let mut j: usize = 2;
    while j < args.len()
        invariant
            2 <= j <= args.len(),
            values@ == args@.subrange(2, j as int),
        decreases args.len() - j,
    {
        values.push(args[j]);
        j = j + 1;
        assert(values@ =~= args@.subrange(2, j as int));
    }
    assert(values@ =~= args@.skip(2));
    if values.len() != dest.len as usize {
        return Err(CodecError::MalformedArguments { opcode });
    }
    Ok(Instruction::LdC { dest, values })
}

fn decode_binary_secret(opcode: Opcode, args: &[u64]) -> (decoded: Result<Instruction, CodecError>)
    requires
        opcode == Opcode::AddS || opcode == Opcode::SubS || opcode == Opcode::ByteXor,
    ensures
        lift(decoded) == decode_args(opcode, args@),
{
    if args.len() != 4 {
        return Err(CodecError::MalformedArguments { opcode });
    }
    proof {
        lemma_first_overflow4(args@, 3, 0, 1, 2);
        lemma_first_overflow3(args@, 0, 1, 2);
        lemma_first_overflow2(args@, 1, 2);
    }
    let len = register(args[3])?;
    let dest = SecretRange { base: register(args[0])?, len };
    let a = SecretRange { base: register(args[1])?, len };
    let b = SecretRange { base: register(args[2])?, len };
    match opcode {
        Opcode::AddS => Ok(Instruction::AddS { dest, a, b }),
        Opcode::SubS => Ok(Instruction::SubS { dest, a, b }),
        _ => Ok(Instruction::ByteXor { dest, a, b }),
    }
}

fn decode_clear_operand(opcode: Opcode, args: &[u64]) -> (decoded: Result<Instruction, CodecError>)
    requires
        opcode == Opcode::AddC || opcode == Opcode::SubC || opcode == Opcode::MulC,
    ensures
        lift(decoded) == decode_args(opcode, args@),
{
    if args.len() != 4 {
        return Err(CodecError::MalformedArguments { opcode });
    }
    proof {
        lemma_first_overflow4(args@, 3, 0, 1, 2);
        lemma_first_overflow3(args@, 0, 1, 2);
        lemma_first_overflow2(args@, 1, 2);
    }
    let len = register(args[3])?;
    let dest = SecretRange { base: register(args[0])?, len };
    let a = SecretRange { base: register(args[1])?, len };
    let c = ClearRange { base: register(args[2])?, len };
    match opcode {
        Opcode::AddC => Ok(Instruction::AddC { dest, a, c }),
        Opcode::SubC => Ok(Instruction::SubC { dest, a, c }),
        _ => Ok(Instruction::MulC { dest, a, c }),
    }
}

fn decode_batch(opcode: Opcode, args: &[u64]) -> (decoded: Result<Instruction, CodecError>)
    requires
        opcode == Opcode::MulS || opcode == Opcode::AndS || opcode == Opcode::XorS,
    ensures
        lift(decoded) == decode_args(opcode, args@),
{
    let pairs = decode_pairs(opcode, args)?;
    match opcode {
        Opcode::MulS => Ok(Instruction::MulS { pairs }),
        Opcode::AndS => Ok(Instruction::AndS { pairs }),
        _ => Ok(Instruction::XorS { pairs }),
    }
}

fn decode_not(args: &[u64]) -> (decoded: Result<Instruction, CodecError>)
    ensures
        lift(decoded) == decode_args(Opcode::NotS, args@),
{
    let opcode = Opcode::NotS;
    if args.len() != 3 {
        return Err(CodecError::MalformedArguments { opcode });
    }
    proof {
        lemma_first_overflow3(args@, 2, 0, 1);
        lemma_first_overflow2(args@, 0, 1);
    }
    let len = register(args[2])?;
    let dest = SecretRange { base: register(args[0])?, len };
    let a = SecretRange { base: register(args[1])?, len };
    Ok(Instruction::NotS { dest, a })
}

fn decode_mux(args: &[u64]) -> (decoded: Result<Instruction, CodecError>)
    ensures
        lift(decoded) == decode_args(Opcode::Mux, args@),
{
    let opcode = Opcode::Mux;
    if args.len() != 5 {
        return Err(CodecError::MalformedArguments { opcode });
    }
    proof {
        lemma_first_overflow5(args@, 4, 0, 1, 2, 3);
        lemma_first_overflow4(args@, 0, 1, 2, 3);
        lemma_first_overflow3(args@, 1, 2, 3);
        lemma_first_overflow2(args@, 2, 3);
    }
    let len = register(args[4])?;
    let dest = SecretRange { base: register(args[0])?, len };
    let cond = SecretRange { base: register(args[1])?, len: 1 };
    let t = SecretRange { base: register(args[2])?, len };
    let f = SecretRange { base: register(args[3])?, len };
    Ok(Instruction::Mux { dest, cond, t, f })
}

fn decode_pack(args: &[u64]) -> (decoded: Result<Instruction, CodecError>)
    ensures
        lift(decoded) == decode_args(Opcode::Pack, args@),
{
    let opcode = Opcode::Pack;
    if args.len() != 4 {
        return Err(CodecError::MalformedArguments { opcode });
    }
    proof {
        lemma_first_overflow3(args@, 2, 0, 1);
        lemma_first_overflow2(args@, 0, 1);
    }
    let width = width_component(args[3], opcode)?;
    let dest_len = register(args[2])?;
    let dest = SecretRange { base: register(args[0])?, len: dest_len };
    assert(dest_len as u64 * width as u64 <= u32::MAX as u64 * u8::MAX as u64) by (nonlinear_arith)
        requires
            dest_len <= u32::MAX,
            width <= u8::MAX,
    ;
    let src_len = dest_len as u64 * width as u64;
    let src = SecretRange { base: register(args[1])?, len: register(src_len)? };
    Ok(Instruction::Pack { dest, src, width })
}

/// `BitDec` carries the source element count on the wire (the given
/// quantity a builder call already knows) and derives the destination
/// bit count as `src.len * width`, the inverse of `Pack`'s derivation.
fn decode_bit_dec(args: &[u64]) -> (decoded: Result<Instruction, CodecError>)
    ensures
        lift(decoded) == decode_args(Opcode::BitDec, args@),
{
    let opcode = Opcode::BitDec;
    if args.len() != 4 {
        return Err(CodecError::MalformedArguments { opcode });
    }
    proof {
        lemma_first_overflow3(args@, 2, 1, 0);
        lemma_first_overflow2(args@, 1, 0);
    }
    let width = width_component(args[3], opcode)?;
    let src_len = register(args[2])?;
    let src = SecretRange { base: register(args[1])?, len: src_len };
    assert(src_len as u64 * width as u64 <= u32::MAX as u64 * u8::MAX as u64) by (nonlinear_arith)
        requires
            src_len <= u32::MAX,
            width <= u8::MAX,
    ;
    let dest_len = src_len as u64 * width as u64;
    let dest = SecretRange { base: register(args[0])?, len: register(dest_len)? };
    Ok(Instruction::BitDec { dest, src, width })
}

fn decode_sbox(args: &[u64]) -> (decoded: Result<Instruction, CodecError>)
    ensures
        lift(decoded) == decode_args(Opcode::Sbox, args@),
{
    let opcode = Opcode::Sbox;
    if args.len() != 3 {
        return Err(CodecError::MalformedArguments { opcode });
    }
    let nbytes = register(args[2])?;
    let bit_len = register(nbytes as u64 * 8)?;
    let dest = SecretRange { base: register(args[0])?, len: bit_len };
    let src = SecretRange { base: register(args[1])?, len: bit_len };
    Ok(Instruction::Sbox { dest, src })
}

fn decode_fp_mul(args: &[u64]) -> (decoded: Result<Instruction, CodecError>)
    ensures
        lift(decoded) == decode_args(Opcode::FpMulS, args@),
{
    let opcode = Opcode::FpMulS;
    if args.len() != 6 {
        return Err(CodecError::MalformedArguments { opcode });
    }
    proof {
        lemma_first_overflow4(args@, 3, 0, 1, 2);
        lemma_first_overflow3(args@, 0, 1, 2);
        lemma_first_overflow2(args@, 1, 2);
    }
    let len = register(args[3])?;
    let dest = SecretRange { base: register(args[0])?, len };
    let a = SecretRange { base: register(args[1])?, len };
    let b = SecretRange { base: register(args[2])?, len };
    let precision = FixedPrecision {
        k: precision_component(args[4], opcode)?,
        f: precision_component(args[5], opcode)?,
    };
    Ok(Instruction::FpMulS { dest, a, b, precision })
}

fn decode_fp_div(args: &[u64]) -> (decoded: Result<Instruction, CodecError>)
    ensures
        lift(decoded) == decode_args(Opcode::FpDivC, args@),
{
    let opcode = Opcode::FpDivC;
    if args.len() != 6 {
        return Err(CodecError::MalformedArguments { opcode });
    }
    proof {
        lemma_first_overflow3(args@, 2, 0, 1);
        lemma_first_overflow2(args@, 0, 1);
    }
    let len = register(args[2])?;
    let dest = SecretRange { base: register(args[0])?, len };
    let a = SecretRange { base: register(args[1])?, len };
    let divisor = args[3];
    let precision = FixedPrecision {
        k: precision_component(args[4], opcode)?,
        f: precision_component(args[5], opcode)?,
    };
    Ok(Instruction::FpDivC { dest, a, divisor, precision })
}

fn decode_reveal(args: &[u64]) -> (decoded: Result<Instruction, CodecError>)
    ensures
        lift(decoded) == decode_args(Opcode::Reveal, args@),
{
    let opcode = Opcode::Reveal;
    if args.len() != 3 {
        return Err(CodecError::MalformedArguments { opcode });
    }
    proof {
        lemma_first_overflow3(args@, 2, 0, 1);
        lemma_first_overflow2(args@, 0, 1);
    }
    let len = register(args[2])?;
    let dest = ClearRange { base: register(args[0])?, len };
    let src = SecretRange { base: register(args[1])?, len };
    Ok(Instruction::Reveal { dest, src })
}

fn decode_out(args: &[u64]) -> (decoded: Result<Instruction, CodecError>)
    ensures
        lift(decoded) == decode_args(Opcode::Out, args@),
{
    let opcode = Opcode::Out;
    if args.len() != 3 {
        return Err(CodecError::MalformedArguments { opcode });
    }
    proof {
        lemma_first_overflow2(args@, 1, 2);
    }
    let client = args[0] as ClientId;
    let src = SecretRange { base: register(args[1])?, len: register(args[2])? };
    Ok(Instruction::Out { client, src })
}

impl Instruction {
    /// Decode a wire instruction: its opcode, then its argument list as
    /// that opcode shapes it.
    pub fn try_from_wire(wire: &WireInstruction) -> (decoded: Result<Instruction, CodecError>)
        ensures
            lift(decoded) == from_wire(wire@),
    {
        let opcode = Opcode::try_from(wire.opcode)?;
        let args = wire.args.as_slice();
        match opcode {
            Opcode::LdC => decode_ldc(args),
            Opcode::AddS | Opcode::SubS | Opcode::ByteXor => decode_binary_secret(opcode, args),
            Opcode::AddC | Opcode::SubC | Opcode::MulC => decode_clear_operand(opcode, args),
            Opcode::MulS | Opcode::AndS | Opcode::XorS => decode_batch(opcode, args),
            Opcode::NotS => decode_not(args),
            Opcode::Mux => decode_mux(args),
            Opcode::Pack => decode_pack(args),
            Opcode::BitDec => decode_bit_dec(args),
            Opcode::Sbox => decode_sbox(args),
            Opcode::FpMulS => decode_fp_mul(args),
            Opcode::FpDivC => decode_fp_div(args),
            Opcode::Reveal => decode_reveal(args),
            Opcode::Out => decode_out(args),
        }
    }
}


impl WireInstruction {
    /// The wire form of an instruction: its opcode octet and its flat
    /// argument list.
    pub fn from_instruction(instruction: &Instruction) -> (wire: WireInstruction)
        ensures
            wire@ == wire_of(instruction@),
    {
        let opcode = instruction.opcode().to_u8();
        let args: Vec<u64> = match instruction {
            Instruction::LdC { dest, values } => {
                let mut args = vec![dest.base as u64, dest.len as u64];
                let mut j: usize = 0;
                while j < values.len()
                    invariant
                        j <= values.len(),
                        args@ == seq![dest.base as u64, dest.len as u64] + values@.take(j as int),
                    decreases values.len() - j,
                {
                    args.push(values[j]);
                    j = j + 1;
                    assert(args@ =~= seq![dest.base as u64, dest.len as u64] + values@.take(j as int));
                }
                assert(values@.take(values.len() as int) =~= values@);
                args
            },
            Instruction::AddS { dest, a, b } | Instruction::SubS { dest, a, b }
            | Instruction::ByteXor { dest, a, b } => {
                vec![dest.base as u64, a.base as u64, b.base as u64, dest.len as u64]
            },
            Instruction::AddC { dest, a, c } | Instruction::SubC { dest, a, c }
            | Instruction::MulC { dest, a, c } => {
                vec![dest.base as u64, a.base as u64, c.base as u64, dest.len as u64]
            },
            Instruction::MulS { pairs } | Instruction::AndS { pairs } | Instruction::XorS {
                pairs,
            } => {
                let mut args: Vec<u64> = Vec::new();
                let mut j: usize = 0;
                assert(pairs@.skip(0) =~= pairs@);
                assert(Seq::<u64>::empty() + pair_args(pairs@) =~= pair_args(pairs@));
                while j < pairs.len()
                    invariant
                        j <= pairs.len(),
                        args@ + pair_args(pairs@.skip(j as int)) == pair_args(pairs@),
                    decreases pairs.len() - j,
                {
                    let pair = pairs[j];
                    let ghost before = args@;
                    assert(pairs@.skip(j as int).skip(1) =~= pairs@.skip(j + 1));
                    args.push(pair.dest.base as u64);
                    args.push(pair.a.base as u64);
                    args.push(pair.b.base as u64);
                    args.push(pair.dest.len as u64);
                    j = j + 1;
                    assert(args@ + pair_args(pairs@.skip(j as int)) =~= before + pair_args(
                        pairs@.skip(j - 1),
                    ));
                }
                assert(pairs@.skip(pairs.len() as int) =~= Seq::<MulTriple>::empty());
                assert(args@ + Seq::<u64>::empty() =~= args@);
                args
            },
            Instruction::NotS { dest, a } => {
                vec![dest.base as u64, a.base as u64, dest.len as u64]
            },
            Instruction::Mux { dest, cond, t, f } => {
                vec![
                    dest.base as u64,
                    cond.base as u64,
                    t.base as u64,
                    f.base as u64,
                    dest.len as u64,
                ]
            },
            Instruction::Pack { dest, src, width } => {
                vec![dest.base as u64, src.base as u64, dest.len as u64, *width as u64]
            },
            Instruction::BitDec { dest, src, width } => {
                vec![dest.base as u64, src.base as u64, src.len as u64, *width as u64]
            },
            Instruction::Sbox { dest, src } => {
                vec![dest.base as u64, src.base as u64, (dest.len / 8) as u64]
            },
            Instruction::FpMulS { dest, a, b, precision } => {
                vec![
                    dest.base as u64,
                    a.base as u64,
                    b.base as u64,
                    dest.len as u64,
                    precision.k as u64,
                    precision.f as u64,
                ]
            },
            Instruction::FpDivC { dest, a, divisor, precision } => {
                vec![
                    dest.base as u64,
                    a.base as u64,
                    dest.len as u64,
                    *divisor,
                    precision.k as u64,
                    precision.f as u64,
                ]
            },
            Instruction::Reveal { dest, src } => {
                vec![dest.base as u64, src.base as u64, dest.len as u64]
            },
            Instruction::Out { client, src } => {
                vec![*client as u64, src.base as u64, src.len as u64]
            },
        };
        let wire = WireInstruction { opcode, args };
        assert(wire@.args =~= wire_args(instruction@));
        wire
    }
}


// ---------------------------------------------------------------------
// Whole programs
// ---------------------------------------------------------------------

/// The wire form of an input declaration.
pub open spec fn wire_input_of(decl: InputDecl) -> WireInput {
    WireInput { client: decl.client as u64, base: decl.dest.base, len: decl.dest.len }
}

/// The input declaration a wire input stands for.
pub open spec fn input_of(wire: WireInput) -> InputDecl {
    InputDecl {
        client: wire.client as ClientId,
        dest: SecretRange { base: wire.base, len: wire.len },
    }
}

/// The wire envelope of a program.
pub open spec fn wire_program_of(p: ProgramView) -> WireProgramView {
    WireProgramView {
        version: p.version,
        inputs: p.inputs.map_values(|decl: InputDecl| wire_input_of(decl)),
        instructions: p.instructions.map_values(|i: InstructionView| wire_of(i)),
    }
}

/// What serializing a program gives: its canonical DER bytes, unless
/// the envelope outgrows the largest DER length.
pub open spec fn encoding_of(p: ProgramView) -> Result<Seq<u8>, CodecError> {
    let w = wire_program_of(p);
    if enc_program_content(w).len() <= MAX_LEN {
        Ok(enc_program(w))
    } else {
        Err(CodecError::Der(DerError::Overlength))
    }
}

/// `prefix` ahead of a decoded tail, or the tail's error.
pub open spec fn prepend_instructions(
    prefix: Seq<InstructionView>,
    tail: Result<Seq<InstructionView>, CodecError>,
) -> Result<Seq<InstructionView>, CodecError> {
    match tail {
        Ok(rest) => Ok(prefix + rest),
        Err(e) => Err(e),
    }
}

/// Decode a wire instruction stream, stopping at the first refusal.
pub open spec fn instructions_of(ws: Seq<WireInstructionView>) -> Result<
    Seq<InstructionView>,
    CodecError,
>
    decreases ws.len(),
{
    if ws.len() == 0 {
        Ok(Seq::empty())
    } else {
        match from_wire(ws[0]) {
            Ok(i) => prepend_instructions(seq![i], instructions_of(ws.skip(1))),
            Err(e) => Err(e),
        }
    }
}

/// What parsing program bytes gives: the program, or why it was refused
/// (malformed DER, a foreign version, or the first bad instruction).
pub open spec fn program_of(bytes: Seq<u8>) -> Result<ProgramView, CodecError> {
    match parse_program(bytes) {
        None => Err(CodecError::Der(DerError::Malformed)),
        Some(w) => if w.version != VERSION {
            Err(CodecError::UnsupportedVersion { found: w.version })
        } else {
            match instructions_of(w.instructions) {
                Ok(instructions) => Ok(
                    ProgramView {
                        version: w.version,
                        inputs: w.inputs.map_values(|wire: WireInput| input_of(wire)),
                        instructions,
                    },
                ),
                Err(e) => Err(e),
            }
        },
    }
}

/// Serialize a program to its canonical DER bytes.
pub fn encode(program: &Program) -> (encoded: Result<Vec<u8>, CodecError>)
    ensures
        match encoded {
            Ok(bytes) => encoding_of(program@) == Ok::<Seq<u8>, CodecError>(bytes@),
            Err(e) => encoding_of(program@) == Err::<Seq<u8>, CodecError>(e),
        },
{
    let ghost p = program@;
    let mut inputs: Vec<WireInput> = Vec::new();
    let mut i: usize = 0;
    while i < program.inputs.len()
        invariant
            i <= program.inputs.len(),
            inputs@ == program.inputs@.take(i as int).map_values(
                |decl: InputDecl| wire_input_of(decl),
            ),
        decreases program.inputs.len() - i,
    {
        let decl = program.inputs[i];
        inputs.push(WireInput { client: decl.client as u64, base: decl.dest.base, len: decl.dest.len });
        i = i + 1;
        assert(inputs@ =~= program.inputs@.take(i as int).map_values(
            |decl: InputDecl| wire_input_of(decl),
        ));
    }
    assert(program.inputs@.take(i as int) =~= program.inputs@);
    let mut instructions: Vec<WireInstruction> = Vec::new();
    let mut j: usize = 0;
    while j < program.instructions.len()
        invariant
            j <= program.instructions.len(),
            p == program@,
            instructions@.map_values(|w: WireInstruction| w@) == p.instructions.take(
                j as int,
            ).map_values(|i: InstructionView| wire_of(i)),
        decreases program.instructions.len() - j,
    {
        let ghost before = instructions@.map_values(|w: WireInstruction| w@);
        assert(p.instructions[j as int] == program.instructions@[j as int]@);
        let w = WireInstruction::from_instruction(&program.instructions[j]);
        instructions.push(w);
        assert(instructions@.map_values(|w: WireInstruction| w@) =~= before.push(w@));
        j = j + 1;
        assert(instructions@.map_values(|w: WireInstruction| w@) =~= p.instructions.take(
            j as int,
        ).map_values(|i: InstructionView| wire_of(i)));
    }
    assert(p.instructions.take(j as int) =~= p.instructions);
    let wire = WireProgram { version: program.version, inputs, instructions };
    assert(wire@ == wire_program_of(p));
    match encode_wire(&wire) {
        Ok(bytes) => Ok(bytes),
        Err(e) => Err(CodecError::Der(e)),
    }
}

/// Parse DER bytes into a (not yet validated) program.
pub fn decode(bytes: &[u8]) -> (decoded: Result<Program, CodecError>)
    ensures
        match decoded {
            Ok(program) => program_of(bytes@) == Ok::<ProgramView, CodecError>(program@),
            Err(e) => program_of(bytes@) == Err::<ProgramView, CodecError>(e),
        },
{
    let wire = match decode_wire(bytes) {
        Some(w) => w,
        None => return Err(CodecError::Der(DerError::Malformed)),
    };
    if wire.version != VERSION {
        return Err(CodecError::UnsupportedVersion { found: wire.version });
    }
    let ghost w = wire@;
    assert(parse_program(bytes@) == Some(w));
    let mut inputs: Vec<InputDecl> = Vec::new();
    let mut i: usize = 0;
    while i < wire.inputs.len()
        invariant
            i <= wire.inputs.len(),
            inputs@ == wire.inputs@.take(i as int).map_values(|wire: WireInput| input_of(wire)),
        decreases wire.inputs.len() - i,
    {
        let decl = wire.inputs[i];
        inputs.push(
            InputDecl {
                client: #[verifier::truncate] (decl.client as ClientId),
                dest: SecretRange { base: decl.base, len: decl.len },
            },
        );
        i = i + 1;
        assert(inputs@ =~= wire.inputs@.take(i as int).map_values(
            |wire: WireInput| input_of(wire),
        ));
    }
    assert(wire.inputs@.take(i as int) =~= wire.inputs@);
    let mut instructions: Vec<Instruction> = Vec::new();
    let mut j: usize = 0;
    assert(w.instructions.skip(0) =~= w.instructions);
    proof {
        match instructions_of(w.instructions) {
            Ok(t) => assert(Seq::<InstructionView>::empty() + t =~= t),
            Err(e) => {},
        }
    }
    while j < wire.instructions.len()
        invariant
            j <= wire.instructions.len(),
            w == wire@,
            parse_program(bytes@) == Some(w),
            w.version == VERSION,
            instructions_of(w.instructions) == prepend_instructions(
                instructions@.map_values(|i: Instruction| i@),
                instructions_of(w.instructions.skip(j as int)),
            ),
        decreases wire.instructions.len() - j,
    {
        let ghost before = instructions@.map_values(|i: Instruction| i@);
        let ghost rest = w.instructions.skip(j as int);
        assert(rest.skip(1) =~= w.instructions.skip(j + 1));
        assert(rest[0] == wire.instructions@[j as int]@);
        let instruction = match Instruction::try_from_wire(&wire.instructions[j]) {
            Ok(instruction) => instruction,
            Err(e) => {
                assert(instructions_of(rest) == Err::<Seq<InstructionView>, CodecError>(e));
                assert(instructions_of(w.instructions) == Err::<Seq<InstructionView>, CodecError>(
                    e,
                ));
                assert(parse_program(bytes@) == Some(w));
                return Err(e);
            },
        };
        let ghost iv = instruction@;
        instructions.push(instruction);
        j = j + 1;
        proof {
            assert(instructions@.map_values(|i: Instruction| i@) =~= before.push(iv));
            match instructions_of(w.instructions.skip(j as int)) {
                Ok(t) => assert(before + (seq![iv] + t) =~= before.push(iv) + t),
                Err(e) => {},
            }
        }
    }
    assert(w.instructions.skip(j as int) =~= Seq::<WireInstructionView>::empty());
    assert(instructions@.map_values(|i: Instruction| i@) + Seq::<InstructionView>::empty()
        =~= instructions@.map_values(|i: Instruction| i@));
    Ok(Program { version: wire.version, inputs, instructions })
}


// ---------------------------------------------------------------------
// Round trip
// ---------------------------------------------------------------------

/// Every pair of a batch shares its destination's length.
pub open spec fn pairs_shaped(pairs: Seq<MulTriple>) -> bool {
    forall|j: int|
        0 <= j < pairs.len() ==> #[trigger] pairs[j].a.len == pairs[j].dest.len && pairs[j].b.len
            == pairs[j].dest.len
}

/// An instruction whose operands have the shape its wire form can carry:
/// the lengths that travel once agree, `Mux`'s condition is one bit,
/// `Pack` and `BitDec` relate their lengths by the width, `Sbox` works on
/// whole bytes, a batch is not empty, and `LdC` carries one value per
/// register.
pub open spec fn well_shaped(i: InstructionView) -> bool {
    match i {
        InstructionView::LdC { dest, values } => values.len() == dest.len,
        InstructionView::AddS { dest, a, b } | InstructionView::SubS { dest, a, b }
        | InstructionView::ByteXor { dest, a, b } | InstructionView::FpMulS { dest, a, b, .. } =>
            a.len == dest.len && b.len == dest.len,
        InstructionView::AddC { dest, a, c } | InstructionView::SubC { dest, a, c }
        | InstructionView::MulC { dest, a, c } => a.len == dest.len && c.len == dest.len,
        InstructionView::MulS { pairs } | InstructionView::AndS { pairs } | InstructionView::XorS {
            pairs,
        } => pairs.len() > 0 && pairs_shaped(pairs),
        InstructionView::NotS { dest, a } => a.len == dest.len,
        InstructionView::FpDivC { dest, a, .. } => a.len == dest.len,
        InstructionView::Mux { dest, cond, t, f } => cond.len == 1 && t.len == dest.len && f.len
            == dest.len,
        InstructionView::Pack { dest, src, width } => src.len == dest.len * width,
        InstructionView::BitDec { dest, src, width } => dest.len == src.len * width,
        InstructionView::Sbox { dest, src } => src.len == dest.len && dest.len % 8 == 0,
        InstructionView::Reveal { dest, src } => src.len == dest.len,
        InstructionView::Out { .. } => true,
    }
}

proof fn lemma_pairs_round_trip(pairs: Seq<MulTriple>)
    requires
        pairs_shaped(pairs),
    ensures
        pair_args(pairs).len() == 4 * pairs.len(),
        pairs_of(pair_args(pairs)) == Ok::<Seq<MulTriple>, CodecError>(pairs),
    decreases pairs.len(),
{
    if pairs.len() > 0 {
        let rest = pairs.skip(1);
        assert(pairs_shaped(rest)) by {
            assert forall|j: int| 0 <= j < rest.len() implies #[trigger] rest[j].a.len
                == rest[j].dest.len && rest[j].b.len == rest[j].dest.len by {
                assert(rest[j] == pairs[j + 1]);
            }
        }
        lemma_pairs_round_trip(rest);
        let args = pair_args(pairs);
        assert(args.skip(4) =~= pair_args(rest));
        assert(pairs[0].a.len == pairs[0].dest.len);
        assert(seq![pairs[0]] + rest =~= pairs);
    } else {
        assert(pairs =~= Seq::<MulTriple>::empty());
    }
}

/// Decoding the wire form of a well-shaped instruction gives the
/// instruction back.
pub proof fn lemma_instruction_round_trip(i: InstructionView)
    requires
        well_shaped(i),
    ensures
        from_wire(wire_of(i)) == Ok::<InstructionView, CodecError>(i),
{
    lemma_opcode_octets_round_trip(opcode_of(i), 0);
    let args = wire_args(i);
    match i {
        InstructionView::LdC { dest, values } => {
            assert(args.skip(2) =~= values);
        },
        InstructionView::MulS { pairs } | InstructionView::AndS { pairs } | InstructionView::XorS {
            pairs,
        } => {
            lemma_pairs_round_trip(pairs);
        },
        InstructionView::Mux { .. } => {
            lemma_first_overflow5(args, 4, 0, 1, 2, 3);
            lemma_first_overflow4(args, 0, 1, 2, 3);
            lemma_first_overflow3(args, 1, 2, 3);
            lemma_first_overflow2(args, 2, 3);
        },
        InstructionView::Out { .. } => {
            lemma_first_overflow2(args, 1, 2);
        },
        InstructionView::NotS { .. } | InstructionView::Reveal { .. } | InstructionView::Pack {
            ..
        } | InstructionView::FpDivC { .. } => {
            lemma_first_overflow3(args, 2, 0, 1);
            lemma_first_overflow2(args, 0, 1);
        },
        InstructionView::BitDec { .. } => {
            lemma_first_overflow3(args, 2, 1, 0);
            lemma_first_overflow2(args, 1, 0);
        },
        InstructionView::Sbox { dest, src } => {},
        _ => {
            lemma_first_overflow4(args, 3, 0, 1, 2);
            lemma_first_overflow3(args, 0, 1, 2);
            lemma_first_overflow2(args, 1, 2);
        },
    }
}


proof fn lemma_instructions_round_trip(is: Seq<InstructionView>)
    requires
        forall|j: int| 0 <= j < is.len() ==> well_shaped(#[trigger] is[j]),
    ensures
        instructions_of(is.map_values(|i: InstructionView| wire_of(i))) == Ok::<
            Seq<InstructionView>,
            CodecError,
        >(is),
    decreases is.len(),
{
    let ws = is.map_values(|i: InstructionView| wire_of(i));
    if is.len() > 0 {
        let rest = is.skip(1);
        assert(forall|j: int| 0 <= j < rest.len() ==> well_shaped(#[trigger] rest[j])) by {
            assert forall|j: int| 0 <= j < rest.len() implies well_shaped(#[trigger] rest[j]) by {
                assert(rest[j] == is[j + 1]);
            }
        }
        lemma_instructions_round_trip(rest);
        assert(ws.skip(1) =~= rest.map_values(|i: InstructionView| wire_of(i)));
        assert(well_shaped(is[0]));
        lemma_instruction_round_trip(is[0]);
        assert(seq![is[0]] + rest =~= is);
    } else {
        assert(is =~= Seq::<InstructionView>::empty());
    }
}

/// Programs round trip through DER: decoding the bytes that serializing
/// a program of this format version gives yields the same program, so
/// long as each instruction is well shaped.
pub proof fn lemma_program_round_trip(p: ProgramView)
    requires
        p.version == VERSION,
        forall|j: int| 0 <= j < p.instructions.len() ==> well_shaped(#[trigger] p.instructions[j]),
        encoding_of(p) is Ok,
    ensures
        program_of(encoding_of(p)->Ok_0) == Ok::<ProgramView, CodecError>(p),
{
    let w = wire_program_of(p);
    lemma_parse_program(w);
    lemma_instructions_round_trip(p.instructions);
    assert(w.inputs.map_values(|wire: WireInput| input_of(wire)) =~= p.inputs);
}

/// A program of another format version serializes, but its bytes are
/// refused with the version they carry.
pub proof fn lemma_foreign_version_refused(p: ProgramView)
    requires
        p.version != VERSION,
        encoding_of(p) is Ok,
    ensures
        program_of(encoding_of(p)->Ok_0) == Err::<ProgramView, CodecError>(
            CodecError::UnsupportedVersion { found: p.version },
        ),
{
    lemma_parse_program(wire_program_of(p));
}

proof fn lemma_pairs_canonical(args: Seq<u64>)
    requires
        args.len() % 4 == 0,
        pairs_of(args) is Ok,
    ensures
        pair_args(pairs_of(args)->Ok_0) == args,
    decreases args.len(),
{
    if args.len() >= 4 {
        assert(args.skip(4).len() % 4 == 0);
        lemma_pairs_canonical(args.skip(4));
        let pairs = pairs_of(args)->Ok_0;
        assert(pairs.skip(1) =~= pairs_of(args.skip(4))->Ok_0);
        assert(args =~= args.take(4) + args.skip(4));
    } else {
        assert(args =~= Seq::<u64>::empty());
    }
}

/// Whatever decodes from a wire instruction carries that wire form back,
/// where a client index fits the platform word.
pub proof fn lemma_instruction_canonical(w: WireInstructionView)
    requires
        from_wire(w) is Ok,
        usize::MAX == u64::MAX,
    ensures
        wire_of(from_wire(w)->Ok_0) == w,
{
    let opcode = opcode_of_octet(w.opcode)->Some_0;
    lemma_opcode_octets_round_trip(opcode, w.opcode);
    let args = w.args;
    let i = from_wire(w)->Ok_0;
    match opcode {
        Opcode::LdC => {
            assert(wire_args(i) =~= args);
        },
        Opcode::MulS | Opcode::AndS | Opcode::XorS => {
            lemma_pairs_canonical(args);
        },
        Opcode::Mux => {
            lemma_first_overflow5(args, 4, 0, 1, 2, 3);
            lemma_first_overflow4(args, 0, 1, 2, 3);
            lemma_first_overflow3(args, 1, 2, 3);
            lemma_first_overflow2(args, 2, 3);
            assert(wire_args(i) =~= args);
        },
        Opcode::Out => {
            lemma_first_overflow2(args, 1, 2);
            assert(wire_args(i) =~= args);
        },
        Opcode::NotS | Opcode::Reveal | Opcode::Pack | Opcode::FpDivC => {
            lemma_first_overflow3(args, 2, 0, 1);
            lemma_first_overflow2(args, 0, 1);
            assert(wire_args(i) =~= args);
        },
        Opcode::BitDec => {
            lemma_first_overflow3(args, 2, 1, 0);
            lemma_first_overflow2(args, 1, 0);
            assert(wire_args(i) =~= args);
        },
        Opcode::Sbox => {
            assert(wire_args(i) =~= args);
        },
        _ => {
            lemma_first_overflow4(args, 3, 0, 1, 2);
            lemma_first_overflow3(args, 0, 1, 2);
            lemma_first_overflow2(args, 1, 2);
            assert(wire_args(i) =~= args);
        },
    }
}

proof fn lemma_instructions_canonical(ws: Seq<WireInstructionView>)
    requires
        instructions_of(ws) is Ok,
        usize::MAX == u64::MAX,
    ensures
        (instructions_of(ws)->Ok_0).map_values(|i: InstructionView| wire_of(i)) == ws,
    decreases ws.len(),
{
    if ws.len() > 0 {
        lemma_instructions_canonical(ws.skip(1));
        lemma_instruction_canonical(ws[0]);
        let i0 = from_wire(ws[0])->Ok_0;
        let r = instructions_of(ws.skip(1))->Ok_0;
        let is = instructions_of(ws)->Ok_0;
        assert(is == seq![i0] + r);
        let m = is.map_values(|i: InstructionView| wire_of(i));
        let mr = r.map_values(|i: InstructionView| wire_of(i));
        assert(mr == ws.skip(1));
        assert forall|k: int| 0 <= k < ws.len() implies m[k] == ws[k] by {
            if k > 0 {
                assert(is[k] == r[k - 1]);
                assert(mr[k - 1] == ws.skip(1)[k - 1]);
            }
        }
        assert(m =~= ws);
    } else {
        assert(ws =~= Seq::<WireInstructionView>::empty());
    }
}

/// The encoding is canonical: bytes that decode to a program are
/// exactly the bytes that serializing that program gives (on a 64-bit
/// platform, where every client index on the wire fits the word).
pub proof fn lemma_decode_canonical(bytes: Seq<u8>)
    requires
        program_of(bytes) is Ok,
        usize::MAX == u64::MAX,
    ensures
        encoding_of(program_of(bytes)->Ok_0) == Ok::<Seq<u8>, CodecError>(bytes),
{
    let w = parse_program(bytes)->Some_0;
    lemma_parse_program_sound(bytes);
    lemma_instructions_canonical(w.instructions);
    let p = program_of(bytes)->Ok_0;
    assert(wire_program_of(p).inputs =~= w.inputs);
    assert(wire_program_of(p) == w);
}


// ---------------------------------------------------------------------
// Digests
// ---------------------------------------------------------------------

/// FIPS 202 SHA3-256 of a byte string.
pub uninterp spec fn sha3_256(data: Seq<u8>) -> Seq<u8>;

/// Calls `sha3::Sha3_256::digest` through the `sha3::Digest` trait. The
/// contract claims only that the 32 octets returned are the SHA3-256 of
/// the input, named by [`sha3_256`]; nothing about that function's values
/// is stated.
#[verifier::external_body]
fn sha3_256_digest(bytes: &[u8]) -> (hashed: [u8; 32])
    ensures
        hashed@ == sha3_256(bytes@),
{
    <sha3::Sha3_256 as sha3::Digest>::digest(bytes).into()
}

/// SHA3-256 of a program's DER bytes: its identity across parties.
#[derive(Clone, Copy, Debug, PartialEq, Eq)]
pub struct ProgramDigest(
    /// Digest octets in engine byte order.
    pub [u8; 32],
);

/// The little-endian value of the first four octets.
pub open spec fn le_u32(octets: Seq<u8>) -> nat {
    (octets[0] + 256 * octets[1] + 65536 * octets[2] + 16777216 * octets[3]) as nat
}

/// The lowercase hexadecimal digit of a nibble.
pub open spec fn hex_digit(nibble: u8) -> char {
    if nibble < 10 {
        (48 + nibble) as char
    } else {
        (87 + nibble) as char
    }
}

/// Two lowercase hexadecimal digits per octet, high nibble first.
pub open spec fn hex_of(octets: Seq<u8>) -> Seq<char>
    decreases octets.len(),
{
    if octets.len() == 0 {
        Seq::empty()
    } else {
        seq![hex_digit(octets[0] / 16), hex_digit(octets[0] % 16)] + hex_of(octets.skip(1))
    }
}

fn hex_char(nibble: u8) -> (c: char)
    requires
        nibble < 16,
    ensures
        c == hex_digit(nibble),
{
    if nibble < 10 {
        (48 + nibble) as char
    } else {
        (87 + nibble) as char
    }
}

impl ProgramDigest {
    /// A 32-bit engine instance id derived from the digest, so every
    /// party and the consumer key their protocol sessions identically.
    pub fn instance_id(&self) -> (id: u32)
        ensures
            id == le_u32(self.0@),
    {
        let octets = self.0;
        octets[0] as u32 + octets[1] as u32 * 256 + octets[2] as u32 * 65536 + octets[3] as u32
            * 16777216
    }

    /// The digest as 64 lowercase hexadecimal digits.
    pub fn to_string(&self) -> (text: String)
        ensures
            text@ == hex_of(self.0@),
    {
        let octets = self.0;
        let mut text = String::new();
        let mut i: usize = 0;
        assert(octets@.skip(0) =~= octets@);
        assert(Seq::<char>::empty() + hex_of(octets@) =~= hex_of(octets@));
        while i < 32
            invariant
                i <= 32,
                octets@.len() == 32,
                text@ + hex_of(octets@.skip(i as int)) == hex_of(octets@),
            decreases 32 - i,
        {
            let ghost before = text@;
            let octet = octets[i];
            assert(octets@.skip(i as int).skip(1) =~= octets@.skip(i + 1));
            push_char(&mut text, hex_char(octet / 16));
            push_char(&mut text, hex_char(octet % 16));
            i = i + 1;
            assert(text@ + hex_of(octets@.skip(i as int)) =~= before + hex_of(
                octets@.skip(i - 1),
            ));
        }
        assert(octets@.skip(32) =~= Seq::<u8>::empty());
        assert(text@ + Seq::<char>::empty() =~= text@);
        text
    }
}

/// FIPS 202 SHA3-256 over the exact DER bytes.
pub fn digest(bytes: &[u8]) -> (d: ProgramDigest)
    ensures
        d.0@ == sha3_256(bytes@),
{
    ProgramDigest(sha3_256_digest(bytes))
}

} // verus!

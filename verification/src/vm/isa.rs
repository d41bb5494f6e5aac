//! The instruction set: a closed data model over two typed register banks.
//!
//! Registers hold field elements: the clear bank is public, the secret
//! bank holds shares. Operands are contiguous ranges, and interactive
//! instructions carry unrestricted argument lists so one instruction costs
//! one batched protocol round regardless of how many values it touches.

use crate::vm::error::CodecError;
use vstd::prelude::*;

verus! {

/// Identifier of an MPC client (an input provider or output receiver).
pub type ClientId = usize;

/// A contiguous run of clear (public) registers.
#[derive(Clone, Copy, Debug, PartialEq, Eq, Structural)]
pub struct ClearRange {
    /// First register index in the run.
    pub base: u32,
    /// Number of registers in the run.
    pub len: u32,
}

/// A contiguous run of secret (share-holding) registers.
#[derive(Clone, Copy, Debug, PartialEq, Eq, Structural)]
pub struct SecretRange {
    /// First register index in the run.
    pub base: u32,
    /// Number of registers in the run.
    pub len: u32,
}

impl ClearRange {
    /// One register past the end of the run, as a mathematical integer.
    pub open spec fn spec_end(&self) -> nat {
        (self.base + self.len) as nat
    }

    /// One register past the end of the run.
    pub fn end(&self) -> (end: u64)
        ensures
            end == self.spec_end(),
    {
        self.base as u64 + self.len as u64
    }
}

impl SecretRange {
    /// One register past the end of the run, as a mathematical integer.
    pub open spec fn spec_end(&self) -> nat {
        (self.base + self.len) as nat
    }

    /// One register past the end of the run.
    pub fn end(&self) -> (end: u64)
        ensures
            end == self.spec_end(),
    {
        self.base as u64 + self.len as u64
    }
}

/// One element-wise multiplication: `dest = a * b`.
#[derive(Clone, Copy, Debug, PartialEq, Eq, Structural)]
pub struct MulTriple {
    /// Where the products land.
    pub dest: SecretRange,
    /// Left factors.
    pub a: SecretRange,
    /// Right factors.
    pub b: SecretRange,
}

/// A fixed-point format: `k` total bits, `f` of them fractional. A raw
/// register value `v` represents the real number `v / 2^f`.
#[derive(Clone, Copy, Debug, PartialEq, Eq, Structural)]
pub struct FixedPrecision {
    /// Total bit width of the represented values.
    pub k: u8,
    /// Fractional bits (the truncation amount per multiplication).
    pub f: u8,
}

/// A consumer's input declaration: which client feeds which registers.
#[derive(Clone, Copy, Debug, PartialEq, Eq, Structural)]
pub struct InputDecl {
    /// The client providing the secrets.
    pub client: ClientId,
    /// Where the derived input shares land.
    pub dest: SecretRange,
}

/// One VM instruction. Linear operations run locally; `MulS`, `AndS`,
/// `XorS`, `Mux`, `FpMulS`, `FpDivC`, `Reveal`, `BitDec`, `Sbox`,
/// `ByteXor` and `Out` are interactive.
#[derive(Clone, Debug, PartialEq, Eq)]
pub enum Instruction {
    /// Load public immediates into clear registers (`dest.len` values).
    LdC { dest: ClearRange, values: Vec<u64> },
    /// Element-wise secret addition: `dest = a + b`.
    AddS { dest: SecretRange, a: SecretRange, b: SecretRange },
    /// Element-wise secret subtraction: `dest = a - b`.
    SubS { dest: SecretRange, a: SecretRange, b: SecretRange },
    /// Element-wise clear addend: `dest = a + c`.
    AddC { dest: SecretRange, a: SecretRange, c: ClearRange },
    /// Element-wise clear subtrahend: `dest = a - c`.
    SubC { dest: SecretRange, a: SecretRange, c: ClearRange },
    /// Element-wise clear scaling: `dest = a * c`.
    MulC { dest: SecretRange, a: SecretRange, c: ClearRange },
    /// Batched Beaver multiplication: every triple in one protocol round.
    MulS { pairs: Vec<MulTriple> },
    /// Element-wise fixed-point multiplication with probabilistic
    /// truncation: `dest = (a * b) / 2^f`.
    FpMulS { dest: SecretRange, a: SecretRange, b: SecretRange, precision: FixedPrecision },
    /// Element-wise fixed-point division by a public raw divisor.
    FpDivC { dest: SecretRange, a: SecretRange, divisor: u64, precision: FixedPrecision },
    /// Reveal secrets to every party: `dest = open(src)`.
    Reveal { dest: ClearRange, src: SecretRange },
    /// Send result shares to one client, which reconstructs privately.
    Out { client: ClientId, src: SecretRange },
    /// Batched secret AND on bits in `{0,1}`: one Beaver triple per element.
    AndS { pairs: Vec<MulTriple> },
    /// Batched secret XOR on bits in `{0,1}`: `a + b - 2ab`.
    XorS { pairs: Vec<MulTriple> },
    /// Local secret NOT on bits in `{0,1}`: `dest = 1 - a`.
    NotS { dest: SecretRange, a: SecretRange },
    /// Bit-selected choice `dest = f + cond * (t - f)`, `cond` one bit.
    Mux { dest: SecretRange, cond: SecretRange, t: SecretRange, f: SecretRange },
    /// Local little-endian bit packing of `width`-bit groups of `src`.
    Pack { dest: SecretRange, src: SecretRange, width: u8 },
    /// Interactive bit decomposition of every `src` element into `width` bits.
    BitDec { dest: SecretRange, src: SecretRange, width: u8 },
    /// Batched AES S-box over LSB-first byte bit groups.
    Sbox { dest: SecretRange, src: SecretRange },
    /// Element-wise XOR on byte-valued secrets.
    ByteXor { dest: SecretRange, a: SecretRange, b: SecretRange },
}

/// The mathematical model of an [`Instruction`]: the same shape with
/// its vectors seen as sequences.
pub enum InstructionView {
    LdC { dest: ClearRange, values: Seq<u64> },
    AddS { dest: SecretRange, a: SecretRange, b: SecretRange },
    SubS { dest: SecretRange, a: SecretRange, b: SecretRange },
    AddC { dest: SecretRange, a: SecretRange, c: ClearRange },
    SubC { dest: SecretRange, a: SecretRange, c: ClearRange },
    MulC { dest: SecretRange, a: SecretRange, c: ClearRange },
    MulS { pairs: Seq<MulTriple> },
    FpMulS { dest: SecretRange, a: SecretRange, b: SecretRange, precision: FixedPrecision },
    FpDivC { dest: SecretRange, a: SecretRange, divisor: u64, precision: FixedPrecision },
    Reveal { dest: ClearRange, src: SecretRange },
    Out { client: ClientId, src: SecretRange },
    AndS { pairs: Seq<MulTriple> },
    XorS { pairs: Seq<MulTriple> },
    NotS { dest: SecretRange, a: SecretRange },
    Mux { dest: SecretRange, cond: SecretRange, t: SecretRange, f: SecretRange },
    Pack { dest: SecretRange, src: SecretRange, width: u8 },
    BitDec { dest: SecretRange, src: SecretRange, width: u8 },
    Sbox { dest: SecretRange, src: SecretRange },
    ByteXor { dest: SecretRange, a: SecretRange, b: SecretRange },
}

impl View for Instruction {
    type V = InstructionView;

    open spec fn view(&self) -> InstructionView {
        match self {
            Instruction::LdC { dest, values } => InstructionView::LdC { dest: *dest, values: values@ },
            Instruction::AddS { dest, a, b } => InstructionView::AddS { dest: *dest, a: *a, b: *b },
            Instruction::SubS { dest, a, b } => InstructionView::SubS { dest: *dest, a: *a, b: *b },
            Instruction::AddC { dest, a, c } => InstructionView::AddC { dest: *dest, a: *a, c: *c },
            Instruction::SubC { dest, a, c } => InstructionView::SubC { dest: *dest, a: *a, c: *c },
            Instruction::MulC { dest, a, c } => InstructionView::MulC { dest: *dest, a: *a, c: *c },
            Instruction::MulS { pairs } => InstructionView::MulS { pairs: pairs@ },
            Instruction::FpMulS { dest, a, b, precision } => InstructionView::FpMulS {
                dest: *dest,
                a: *a,
                b: *b,
                precision: *precision,
            },
            Instruction::FpDivC { dest, a, divisor, precision } => InstructionView::FpDivC {
                dest: *dest,
                a: *a,
                divisor: *divisor,
                precision: *precision,
            },
            Instruction::Reveal { dest, src } => InstructionView::Reveal { dest: *dest, src: *src },
            Instruction::Out { client, src } => InstructionView::Out { client: *client, src: *src },
            Instruction::AndS { pairs } => InstructionView::AndS { pairs: pairs@ },
            Instruction::XorS { pairs } => InstructionView::XorS { pairs: pairs@ },
            Instruction::NotS { dest, a } => InstructionView::NotS { dest: *dest, a: *a },
            Instruction::Mux { dest, cond, t, f } => InstructionView::Mux {
                dest: *dest,
                cond: *cond,
                t: *t,
                f: *f,
            },
            Instruction::Pack { dest, src, width } => InstructionView::Pack {
                dest: *dest,
                src: *src,
                width: *width,
            },
            Instruction::BitDec { dest, src, width } => InstructionView::BitDec {
                dest: *dest,
                src: *src,
                width: *width,
            },
            Instruction::Sbox { dest, src } => InstructionView::Sbox { dest: *dest, src: *src },
            Instruction::ByteXor { dest, a, b } => InstructionView::ByteXor { dest: *dest, a: *a, b: *b },
        }
    }
}

/// Wire discriminants for [`Instruction`]. Values are stable: they are
/// covered by the program digest and reused across releases.
#[derive(Clone, Copy, Debug, PartialEq, Eq, Structural)]
pub enum Opcode {
    LdC,
    AddS,
    SubS,
    AddC,
    SubC,
    MulC,
    MulS,
    Reveal,
    Out,
    FpMulS,
    FpDivC,
    BitDec,
    XorS,
    AndS,
    NotS,
    Mux,
    Pack,
    Sbox,
    ByteXor,
}

/// The wire octet of each opcode.
pub open spec fn opcode_octet(opcode: Opcode) -> u8 {
    match opcode {
        Opcode::LdC => 1,
        Opcode::AddS => 2,
        Opcode::SubS => 3,
        Opcode::AddC => 4,
        Opcode::SubC => 5,
        Opcode::MulC => 6,
        Opcode::MulS => 7,
        Opcode::Reveal => 8,
        Opcode::Out => 9,
        Opcode::FpMulS => 10,
        Opcode::FpDivC => 11,
        Opcode::BitDec => 12,
        Opcode::XorS => 13,
        Opcode::AndS => 14,
        Opcode::NotS => 15,
        Opcode::Mux => 16,
        Opcode::Pack => 17,
        Opcode::Sbox => 18,
        Opcode::ByteXor => 19,
    }
}

/// The opcode an octet names, if any.
pub open spec fn opcode_of_octet(value: u8) -> Option<Opcode> {
    if value == 1 {
        Some(Opcode::LdC)
    } else if value == 2 {
        Some(Opcode::AddS)
    } else if value == 3 {
        Some(Opcode::SubS)
    } else if value == 4 {
        Some(Opcode::AddC)
    } else if value == 5 {
        Some(Opcode::SubC)
    } else if value == 6 {
        Some(Opcode::MulC)
    } else if value == 7 {
        Some(Opcode::MulS)
    } else if value == 8 {
        Some(Opcode::Reveal)
    } else if value == 9 {
        Some(Opcode::Out)
    } else if value == 10 {
        Some(Opcode::FpMulS)
    } else if value == 11 {
        Some(Opcode::FpDivC)
    } else if value == 12 {
        Some(Opcode::BitDec)
    } else if value == 13 {
        Some(Opcode::XorS)
    } else if value == 14 {
        Some(Opcode::AndS)
    } else if value == 15 {
        Some(Opcode::NotS)
    } else if value == 16 {
        Some(Opcode::Mux)
    } else if value == 17 {
        Some(Opcode::Pack)
    } else if value == 18 {
        Some(Opcode::Sbox)
    } else if value == 19 {
        Some(Opcode::ByteXor)
    } else {
        None
    }
}

/// Every opcode's octet names that opcode back, and every octet that
/// names an opcode is that opcode's octet: the table is a bijection
/// between the opcodes and the octets `1..=19`.
pub proof fn lemma_opcode_octets_round_trip(opcode: Opcode, value: u8)
    ensures
        opcode_of_octet(opcode_octet(opcode)) == Some(opcode),
        1 <= opcode_octet(opcode) <= 19,
        opcode_of_octet(value) is Some <==> 1 <= value <= 19,
        opcode_of_octet(value) == Some(opcode) ==> opcode_octet(opcode) == value,
{
}

impl Opcode {
    /// The wire octet of this opcode.
    pub fn to_u8(self) -> (octet: u8)
        ensures
            octet == opcode_octet(self),
    {
        match self {
            Opcode::LdC => 1,
            Opcode::AddS => 2,
            Opcode::SubS => 3,
            Opcode::AddC => 4,
            Opcode::SubC => 5,
            Opcode::MulC => 6,
            Opcode::MulS => 7,
            Opcode::Reveal => 8,
            Opcode::Out => 9,
            Opcode::FpMulS => 10,
            Opcode::FpDivC => 11,
            Opcode::BitDec => 12,
            Opcode::XorS => 13,
            Opcode::AndS => 14,
            Opcode::NotS => 15,
            Opcode::Mux => 16,
            Opcode::Pack => 17,
            Opcode::Sbox => 18,
            Opcode::ByteXor => 19,
        }
    }

    /// The opcode a wire octet names.
    pub fn try_from(value: u8) -> (opcode: Result<Opcode, CodecError>)
        ensures
            match opcode_of_octet(value) {
                Some(known) => opcode == Ok::<Opcode, CodecError>(known),
                None => opcode == Err::<Opcode, CodecError>(CodecError::UnknownOpcode { opcode: value }),
            },
    {
        match value {
            1 => Ok(Opcode::LdC),
            2 => Ok(Opcode::AddS),
            3 => Ok(Opcode::SubS),
            4 => Ok(Opcode::AddC),
            5 => Ok(Opcode::SubC),
            6 => Ok(Opcode::MulC),
            7 => Ok(Opcode::MulS),
            8 => Ok(Opcode::Reveal),
            9 => Ok(Opcode::Out),
            10 => Ok(Opcode::FpMulS),
            11 => Ok(Opcode::FpDivC),
            12 => Ok(Opcode::BitDec),
            13 => Ok(Opcode::XorS),
            14 => Ok(Opcode::AndS),
            15 => Ok(Opcode::NotS),
            16 => Ok(Opcode::Mux),
            17 => Ok(Opcode::Pack),
            18 => Ok(Opcode::Sbox),
            19 => Ok(Opcode::ByteXor),
            _ => Err(CodecError::UnknownOpcode { opcode: value }),
        }
    }
}

/// The opcode of an instruction model.
pub open spec fn opcode_of(instruction: InstructionView) -> Opcode {
    match instruction {
        InstructionView::LdC { .. } => Opcode::LdC,
        InstructionView::AddS { .. } => Opcode::AddS,
        InstructionView::SubS { .. } => Opcode::SubS,
        InstructionView::AddC { .. } => Opcode::AddC,
        InstructionView::SubC { .. } => Opcode::SubC,
        InstructionView::MulC { .. } => Opcode::MulC,
        InstructionView::MulS { .. } => Opcode::MulS,
        InstructionView::FpMulS { .. } => Opcode::FpMulS,
        InstructionView::FpDivC { .. } => Opcode::FpDivC,
        InstructionView::Reveal { .. } => Opcode::Reveal,
        InstructionView::Out { .. } => Opcode::Out,
        InstructionView::AndS { .. } => Opcode::AndS,
        InstructionView::XorS { .. } => Opcode::XorS,
        InstructionView::NotS { .. } => Opcode::NotS,
        InstructionView::Mux { .. } => Opcode::Mux,
        InstructionView::Pack { .. } => Opcode::Pack,
        InstructionView::BitDec { .. } => Opcode::BitDec,
        InstructionView::Sbox { .. } => Opcode::Sbox,
        InstructionView::ByteXor { .. } => Opcode::ByteXor,
    }
}

impl Instruction {
    /// The wire discriminant for this instruction.
    pub fn opcode(&self) -> (opcode: Opcode)
        ensures
            opcode == opcode_of(self@),
    {
        match self {
            Instruction::LdC { .. } => Opcode::LdC,
            Instruction::AddS { .. } => Opcode::AddS,
            Instruction::SubS { .. } => Opcode::SubS,
            Instruction::AddC { .. } => Opcode::AddC,
            Instruction::SubC { .. } => Opcode::SubC,
            Instruction::MulC { .. } => Opcode::MulC,
            Instruction::MulS { .. } => Opcode::MulS,
            Instruction::FpMulS { .. } => Opcode::FpMulS,
            Instruction::FpDivC { .. } => Opcode::FpDivC,
            Instruction::Reveal { .. } => Opcode::Reveal,
            Instruction::Out { .. } => Opcode::Out,
            Instruction::AndS { .. } => Opcode::AndS,
            Instruction::XorS { .. } => Opcode::XorS,
            Instruction::NotS { .. } => Opcode::NotS,
            Instruction::Mux { .. } => Opcode::Mux,
            Instruction::Pack { .. } => Opcode::Pack,
            Instruction::BitDec { .. } => Opcode::BitDec,
            Instruction::Sbox { .. } => Opcode::Sbox,
            Instruction::ByteXor { .. } => Opcode::ByteXor,
        }
    }
}

/// A decoded, not yet validated program.
#[derive(Clone, Debug, PartialEq, Eq)]
pub struct Program {
    /// Bytecode format version this program was built against.
    pub version: u32,
    /// Which clients feed which secret registers before execution.
    pub inputs: Vec<InputDecl>,
    /// The straight-line instruction stream.
    pub instructions: Vec<Instruction>,
}

/// The mathematical model of a [`Program`].
pub struct ProgramView {
    pub version: u32,
    pub inputs: Seq<InputDecl>,
    pub instructions: Seq<InstructionView>,
}

impl View for Program {
    type V = ProgramView;

    open spec fn view(&self) -> ProgramView {
        ProgramView {
            version: self.version,
            inputs: self.inputs@,
            instructions: self.instructions@.map_values(|instruction: Instruction| instruction@),
        }
    }
}

/// The bytecode format version this build reads and writes.
pub const VERSION: u32 = 1;

} // verus!

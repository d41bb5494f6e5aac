//! Typed failures for the bytecode VM, split by pipeline stage.
//!
//! [`CodecError`] covers wire decoding, [`ValidationError`] covers
//! static program checks, and [`VmError`] is the umbrella the hosts
//! (party and consumer) surface at runtime.

use crate::text::{decimal, push_decimal, push_str};
use crate::vm::isa::{ClientId, Opcode};
use vstd::prelude::*;

verus! {

/// Which register bank a diagnostic refers to.
#[derive(Clone, Copy, Debug, PartialEq, Eq, Structural)]
pub enum Bank {
    /// Public registers.
    Clear,
    /// Share-holding registers.
    Secret,
}

impl Bank {
    /// The bank's name as diagnostics print it.
    pub fn name(&self) -> (name: &'static str)
        ensures
            name@ == (match self {
                Bank::Clear => "clear"@,
                Bank::Secret => "secret"@,
            }),
    {
        proof {
            reveal_strlit("clear");
            reveal_strlit("secret");
        }
        match self {
            Bank::Clear => "clear",
            Bank::Secret => "secret",
        }
    }
}

/// Why DER bytes are not the canonical encoding of a value.
#[derive(Clone, Copy, Debug, PartialEq, Eq, Structural)]
pub enum DerError {
    /// The bytes are not the distinguished encoding of the expected value.
    Malformed,
    /// A length exceeds what DER lengths in this format may express.
    Overlength,
}

/// Why program or control-message bytes refused to decode.
#[derive(Clone, Copy, Debug, PartialEq, Eq, Structural)]
pub enum CodecError {
    /// The DER envelope is malformed.
    Der(DerError),
    /// A wire instruction names an opcode this build does not know.
    UnknownOpcode { opcode: u8 },
    /// A control message names a kind this build does not know.
    UnknownControlKind { kind: u8 },
    /// A wire instruction's argument list does not fit its opcode.
    MalformedArguments { opcode: Opcode },
    /// The program was built against a format this build does not read.
    UnsupportedVersion { found: u32 },
    /// An argument exceeds the register index space.
    RegisterOverflow { value: u64 },
    /// A control echo carried a digest of the wrong width.
    MalformedControlDigest { len: usize },
}

/// Why a decoded program was refused before execution.
#[derive(Clone, Copy, Debug, PartialEq, Eq, Structural)]
pub enum ValidationError {
    /// The instruction stream is empty.
    EmptyProgram,
    /// The instruction stream exceeds the execution ceiling.
    TooManyInstructions { count: usize, max: usize },
    /// A range runs past the end of its register bank.
    BankExceeded { bank: Bank, end: u64, max: u64 },
    /// A zero-length operand carries no work.
    EmptyRange { index: usize },
    /// Operand ranges of one instruction disagree on length.
    LengthMismatch { index: usize },
    /// A register is read before anything wrote it.
    UninitializedRead { index: usize, bank: Bank, register: u64 },
    /// The program never delivers a result.
    MissingOut,
    /// `Out` must be the final instruction.
    OutNotLast { index: usize },
    /// Only one `Out` is supported per program.
    MultipleOut { index: usize },
    /// Two input declarations name the same client.
    DuplicateInputClient { client: ClientId },
    /// Two input declarations write overlapping registers.
    OverlappingInputs { client: ClientId },
    /// A fixed-point precision is unusable (f = 0, k <= f, or k too wide).
    InvalidPrecision { index: usize },
    /// A fixed-point division names a zero divisor.
    ZeroDivisor { index: usize },
    /// Two fixed-point instructions name different precisions.
    MixedPrecision { index: usize },
}

/// Why a VM host operation failed.
#[derive(Clone, Copy, Debug, PartialEq, Eq, Structural)]
pub enum VmError {
    /// Wire bytes refused to decode.
    Codec(CodecError),
    /// The program failed static validation.
    Validation(ValidationError),
    /// A reveal did not gather enough shares before its deadline.
    RevealTimeout { ordinal: u32 },
    /// The control inbox closed mid-protocol.
    ControlClosed,
    /// No program arrived before the submission deadline.
    SubmissionTimeout,
    /// A party echoed a different digest than the one submitted.
    DigestMismatch { party: usize },
    /// A party rejected the submitted program.
    Rejected { party: usize },
    /// The input store never produced shares for a declared client.
    MissingInput { client: ClientId },
    /// The engine cannot serve a program's fixed-point precision.
    PrecisionUnsupported { k: u8, f: u8 },
    /// A client's derived share count disagrees with its declaration.
    InputArity { client: ClientId, expected: usize, got: usize },
    /// A share or reconstructed polynomial carried no field elements.
    EmptySecret,
}


// ---------------------------------------------------------------------
// Diagnostics
// ---------------------------------------------------------------------

/// The name of a bank.
pub open spec fn bank_text(bank: Bank) -> Seq<char> {
    match bank {
        Bank::Clear => "clear"@,
        Bank::Secret => "secret"@,
    }
}

/// The name of an opcode as diagnostics print it.
pub open spec fn opcode_text(opcode: Opcode) -> Seq<char> {
    match opcode {
        Opcode::LdC => "LdC"@,
        Opcode::AddS => "AddS"@,
        Opcode::SubS => "SubS"@,
        Opcode::AddC => "AddC"@,
        Opcode::SubC => "SubC"@,
        Opcode::MulC => "MulC"@,
        Opcode::MulS => "MulS"@,
        Opcode::Reveal => "Reveal"@,
        Opcode::Out => "Out"@,
        Opcode::FpMulS => "FpMulS"@,
        Opcode::FpDivC => "FpDivC"@,
        Opcode::BitDec => "BitDec"@,
        Opcode::XorS => "XorS"@,
        Opcode::AndS => "AndS"@,
        Opcode::NotS => "NotS"@,
        Opcode::Mux => "Mux"@,
        Opcode::Pack => "Pack"@,
        Opcode::Sbox => "Sbox"@,
        Opcode::ByteXor => "ByteXor"@,
    }
}

/// The message of a validation refusal.
pub open spec fn validation_text(e: ValidationError) -> Seq<char> {
    match e {
        ValidationError::EmptyProgram => "the program has no instructions"@,
        ValidationError::TooManyInstructions { count, max } => "the program has "@ + decimal(
            count as nat,
        ) + " instructions, the ceiling is "@ + decimal(max as nat),
        ValidationError::BankExceeded { bank, end, max } => "a range runs to "@ + decimal(end as nat)
            + " in the "@ + bank_text(bank) + " bank of size "@ + decimal(max as nat),
        ValidationError::EmptyRange { index } => "instruction "@ + decimal(index as nat)
            + " carries a zero-length operand"@,
        ValidationError::LengthMismatch { index } => "instruction "@ + decimal(index as nat)
            + " has operands of differing lengths"@,
        ValidationError::UninitializedRead { index, bank, register } => "instruction "@ + decimal(
            index as nat,
        ) + " reads "@ + bank_text(bank) + " register "@ + decimal(register as nat)
            + " before any write"@,
        ValidationError::MissingOut => "the program never delivers a result"@,
        ValidationError::OutNotLast { index } => "instruction "@ + decimal(index as nat)
            + " is Out but not the final instruction"@,
        ValidationError::MultipleOut { index } => "instruction "@ + decimal(index as nat)
            + " is a second Out"@,
        ValidationError::DuplicateInputClient { client } => "client "@ + decimal(client as nat)
            + " declares inputs twice"@,
        ValidationError::OverlappingInputs { client } => "the inputs of client "@ + decimal(
            client as nat,
        ) + " overlap an earlier declaration"@,
        ValidationError::InvalidPrecision { index } => "instruction "@ + decimal(index as nat)
            + " carries an unusable fixed-point precision"@,
        ValidationError::ZeroDivisor { index } => "instruction "@ + decimal(index as nat)
            + " divides by zero"@,
        ValidationError::MixedPrecision { index } => "instruction "@ + decimal(index as nat)
            + " names a second fixed-point precision"@,
    }
}

/// The message of a DER refusal.
pub open spec fn der_text(e: DerError) -> Seq<char> {
    match e {
        DerError::Malformed => "not the distinguished encoding of the expected value"@,
        DerError::Overlength => "a length exceeds what DER lengths here may express"@,
    }
}

/// The message of a decoding refusal.
pub open spec fn codec_text(e: CodecError) -> Seq<char> {
    match e {
        CodecError::Der(cause) => "the DER envelope is malformed: "@ + der_text(cause),
        CodecError::UnknownOpcode { opcode } => "unknown opcode "@ + decimal(opcode as nat),
        CodecError::UnknownControlKind { kind } => "unknown control message kind "@ + decimal(
            kind as nat,
        ),
        CodecError::MalformedArguments { opcode } => "malformed arguments for opcode "@ + opcode_text(
            opcode,
        ),
        CodecError::UnsupportedVersion { found } => "unsupported bytecode version "@ + decimal(
            found as nat,
        ),
        CodecError::RegisterOverflow { value } => "argument "@ + decimal(value as nat)
            + " exceeds the register index space"@,
        CodecError::MalformedControlDigest { len } => "a control echo carried a "@ + decimal(
            len as nat,
        ) + "-octet digest, expected 32"@,
    }
}

/// The message of a host failure.
pub open spec fn vm_text(e: VmError) -> Seq<char> {
    match e {
        VmError::Codec(cause) => "the wire bytes refused to decode: "@ + codec_text(cause),
        VmError::Validation(cause) => "the program failed validation: "@ + validation_text(cause),
        VmError::RevealTimeout { ordinal } => "reveal "@ + decimal(ordinal as nat)
            + " missed its share deadline"@,
        VmError::ControlClosed => "the control inbox closed mid-protocol"@,
        VmError::SubmissionTimeout => "no program arrived before the deadline"@,
        VmError::DigestMismatch { party } => "party "@ + decimal(party as nat)
            + " echoed a different program digest"@,
        VmError::Rejected { party } => "party "@ + decimal(party as nat) + " rejected the program"@,
        VmError::MissingInput { client } => "no input shares for declared client "@ + decimal(
            client as nat,
        ),
        VmError::PrecisionUnsupported { k, f } => "the engine cannot serve fixed-point precision ("@
            + decimal(k as nat) + ", "@ + decimal(f as nat) + ")"@,
        VmError::InputArity { client, expected, got } => "client "@ + decimal(client as nat)
            + " declared "@ + decimal(expected as nat) + " inputs, the store produced "@ + decimal(
            got as nat,
        ),
        VmError::EmptySecret => "a share or reconstructed polynomial was empty"@,
    }
}

fn push_bank(text: &mut String, bank: Bank)
    ensures
        final(text)@ == old(text)@ + bank_text(bank),
{
    match bank {
        Bank::Clear => push_str(text, "clear"),
        Bank::Secret => push_str(text, "secret"),
    }
}

fn push_opcode(text: &mut String, opcode: Opcode)
    ensures
        final(text)@ == old(text)@ + opcode_text(opcode),
{
    match opcode {
        Opcode::LdC => push_str(text, "LdC"),
        Opcode::AddS => push_str(text, "AddS"),
        Opcode::SubS => push_str(text, "SubS"),
        Opcode::AddC => push_str(text, "AddC"),
        Opcode::SubC => push_str(text, "SubC"),
        Opcode::MulC => push_str(text, "MulC"),
        Opcode::MulS => push_str(text, "MulS"),
        Opcode::Reveal => push_str(text, "Reveal"),
        Opcode::Out => push_str(text, "Out"),
        Opcode::FpMulS => push_str(text, "FpMulS"),
        Opcode::FpDivC => push_str(text, "FpDivC"),
        Opcode::BitDec => push_str(text, "BitDec"),
        Opcode::XorS => push_str(text, "XorS"),
        Opcode::AndS => push_str(text, "AndS"),
        Opcode::NotS => push_str(text, "NotS"),
        Opcode::Mux => push_str(text, "Mux"),
        Opcode::Pack => push_str(text, "Pack"),
        Opcode::Sbox => push_str(text, "Sbox"),
        Opcode::ByteXor => push_str(text, "ByteXor"),
    }
}

impl ValidationError {
    fn push_text(&self, text: &mut String)
        ensures
            final(text)@ == old(text)@ + validation_text(*self),
    {
        let ghost start = text@;
        match *self {
            ValidationError::EmptyProgram => push_str(text, "the program has no instructions"),
            ValidationError::TooManyInstructions { count, max } => {
                push_str(text, "the program has ");
                push_decimal(text, count as u64);
                push_str(text, " instructions, the ceiling is ");
                push_decimal(text, max as u64);
            },
            ValidationError::BankExceeded { bank, end, max } => {
                push_str(text, "a range runs to ");
                push_decimal(text, end);
                push_str(text, " in the ");
                push_bank(text, bank);
                push_str(text, " bank of size ");
                push_decimal(text, max);
            },
            ValidationError::EmptyRange { index } => {
                push_str(text, "instruction ");
                push_decimal(text, index as u64);
                push_str(text, " carries a zero-length operand");
            },
            ValidationError::LengthMismatch { index } => {
                push_str(text, "instruction ");
                push_decimal(text, index as u64);
                push_str(text, " has operands of differing lengths");
            },
            ValidationError::UninitializedRead { index, bank, register } => {
                push_str(text, "instruction ");
                push_decimal(text, index as u64);
                push_str(text, " reads ");
                push_bank(text, bank);
                push_str(text, " register ");
                push_decimal(text, register);
                push_str(text, " before any write");
            },
            ValidationError::MissingOut => push_str(text, "the program never delivers a result"),
            ValidationError::OutNotLast { index } => {
                push_str(text, "instruction ");
                push_decimal(text, index as u64);
                push_str(text, " is Out but not the final instruction");
            },
            ValidationError::MultipleOut { index } => {
                push_str(text, "instruction ");
                push_decimal(text, index as u64);
                push_str(text, " is a second Out");
            },
            ValidationError::DuplicateInputClient { client } => {
                push_str(text, "client ");
                push_decimal(text, client as u64);
                push_str(text, " declares inputs twice");
            },
            ValidationError::OverlappingInputs { client } => {
                push_str(text, "the inputs of client ");
                push_decimal(text, client as u64);
                push_str(text, " overlap an earlier declaration");
            },
            ValidationError::InvalidPrecision { index } => {
                push_str(text, "instruction ");
                push_decimal(text, index as u64);
                push_str(text, " carries an unusable fixed-point precision");
            },
            ValidationError::ZeroDivisor { index } => {
                push_str(text, "instruction ");
                push_decimal(text, index as u64);
                push_str(text, " divides by zero");
            },
            ValidationError::MixedPrecision { index } => {
                push_str(text, "instruction ");
                push_decimal(text, index as u64);
                push_str(text, " names a second fixed-point precision");
            },
        }
        assert(text@ =~= start + validation_text(*self));
    }

    /// The refusal as diagnostics print it.
    pub fn to_string(&self) -> (text: String)
        ensures
            text@ == validation_text(*self),
    {
        let mut text = String::new();
        self.push_text(&mut text);
        assert(text@ =~= validation_text(*self));
        text
    }
}

impl CodecError {
    fn push_text(&self, text: &mut String)
        ensures
            final(text)@ == old(text)@ + codec_text(*self),
    {
        let ghost start = text@;
        match *self {
            CodecError::Der(cause) => {
                push_str(text, "the DER envelope is malformed: ");
                match cause {
                    DerError::Malformed => push_str(
                        text,
                        "not the distinguished encoding of the expected value",
                    ),
                    DerError::Overlength => push_str(
                        text,
                        "a length exceeds what DER lengths here may express",
                    ),
                }
            },
            CodecError::UnknownOpcode { opcode } => {
                push_str(text, "unknown opcode ");
                push_decimal(text, opcode as u64);
            },
            CodecError::UnknownControlKind { kind } => {
                push_str(text, "unknown control message kind ");
                push_decimal(text, kind as u64);
            },
            CodecError::MalformedArguments { opcode } => {
                push_str(text, "malformed arguments for opcode ");
                push_opcode(text, opcode);
            },
            CodecError::UnsupportedVersion { found } => {
                push_str(text, "unsupported bytecode version ");
                push_decimal(text, found as u64);
            },
            CodecError::RegisterOverflow { value } => {
                push_str(text, "argument ");
                push_decimal(text, value);
                push_str(text, " exceeds the register index space");
            },
            CodecError::MalformedControlDigest { len } => {
                push_str(text, "a control echo carried a ");
                push_decimal(text, len as u64);
                push_str(text, "-octet digest, expected 32");
            },
        }
        assert(text@ =~= start + codec_text(*self));
    }

    /// The refusal as diagnostics print it.
    pub fn to_string(&self) -> (text: String)
        ensures
            text@ == codec_text(*self),
    {
        let mut text = String::new();
        self.push_text(&mut text);
        assert(text@ =~= codec_text(*self));
        text
    }
}

impl VmError {
    /// The failure as diagnostics print it.
    pub fn to_string(&self) -> (text: String)
        ensures
            text@ == vm_text(*self),
    {
        let mut text = String::new();
        match *self {
            VmError::Codec(cause) => {
                push_str(&mut text, "the wire bytes refused to decode: ");
                cause.push_text(&mut text);
            },
            VmError::Validation(cause) => {
                push_str(&mut text, "the program failed validation: ");
                cause.push_text(&mut text);
            },
            VmError::RevealTimeout { ordinal } => {
                push_str(&mut text, "reveal ");
                push_decimal(&mut text, ordinal as u64);
                push_str(&mut text, " missed its share deadline");
            },
            VmError::ControlClosed => push_str(&mut text, "the control inbox closed mid-protocol"),
            VmError::SubmissionTimeout => push_str(&mut text, "no program arrived before the deadline"),
            VmError::DigestMismatch { party } => {
                push_str(&mut text, "party ");
                push_decimal(&mut text, party as u64);
                push_str(&mut text, " echoed a different program digest");
            },
            VmError::Rejected { party } => {
                push_str(&mut text, "party ");
                push_decimal(&mut text, party as u64);
                push_str(&mut text, " rejected the program");
            },
            VmError::MissingInput { client } => {
                push_str(&mut text, "no input shares for declared client ");
                push_decimal(&mut text, client as u64);
            },
            VmError::PrecisionUnsupported { k, f } => {
                push_str(&mut text, "the engine cannot serve fixed-point precision (");
                push_decimal(&mut text, k as u64);
                push_str(&mut text, ", ");
                push_decimal(&mut text, f as u64);
                push_str(&mut text, ")");
            },
            VmError::InputArity { client, expected, got } => {
                push_str(&mut text, "client ");
                push_decimal(&mut text, client as u64);
                push_str(&mut text, " declared ");
                push_decimal(&mut text, expected as u64);
                push_str(&mut text, " inputs, the store produced ");
                push_decimal(&mut text, got as u64);
            },
            VmError::EmptySecret => push_str(&mut text, "a share or reconstructed polynomial was empty"),
        }
        assert(text@ =~= vm_text(*self));
        text
    }
}

} // verus!

use tightbeam_ext::vm::error::{Bank, CodecError, ValidationError, VmError};
use tightbeam_ext::vm::isa::{Instruction, Opcode, SecretRange};

#[test]
fn unknown_opcode_octets_are_rejected() {
    let outcome = Opcode::try_from(0);
    assert!(matches!(outcome, Err(CodecError::UnknownOpcode { opcode: 0 })));
}

#[test]
fn instructions_name_their_opcode() {
    let mul = Instruction::MulS { pairs: Vec::new() };
    assert_eq!(mul.opcode(), Opcode::MulS);

    let out = Instruction::Out { client: 100, src: SecretRange { base: 0, len: 1 } };
    assert_eq!(out.opcode(), Opcode::Out);
}

#[test]
fn range_ends_do_not_overflow() {
    let range = SecretRange { base: u32::MAX, len: u32::MAX };
    assert_eq!(range.end(), u64::from(u32::MAX) * 2);
}

#[test]
fn gate_and_pack_instructions_name_their_opcode() {
    let zero = SecretRange { base: 0, len: 1 };
    let cases = [
        (Instruction::AndS { pairs: Vec::new() }, Opcode::AndS),
        (Instruction::XorS { pairs: Vec::new() }, Opcode::XorS),
        (Instruction::NotS { dest: zero, a: zero }, Opcode::NotS),
        (Instruction::Mux { dest: zero, cond: zero, t: zero, f: zero }, Opcode::Mux),
        (Instruction::Pack { dest: zero, src: zero, width: 1 }, Opcode::Pack),
        (Instruction::BitDec { dest: zero, src: zero, width: 1 }, Opcode::BitDec),
        (
            Instruction::Sbox {
                dest: SecretRange { base: 0, len: 8 },
                src: SecretRange { base: 0, len: 8 },
            },
            Opcode::Sbox,
        ),
        (Instruction::ByteXor { dest: zero, a: zero, b: zero }, Opcode::ByteXor),
    ];

    for (instruction, opcode) in cases {
        assert_eq!(instruction.opcode(), opcode);
    }
}

#[test]
fn opcode_octets_name_their_opcode_back() {
    for octet in 1u8..=19 {
        let opcode = Opcode::try_from(octet).expect("the octet names an opcode");
        assert_eq!(opcode.to_u8(), octet);
    }
    assert!(matches!(Opcode::try_from(20), Err(CodecError::UnknownOpcode { opcode: 20 })));
    assert_eq!(Opcode::LdC.to_u8(), 1);
    assert_eq!(Opcode::ByteXor.to_u8(), 19);
}

#[test]
fn clear_range_ends_add_base_and_length() {
    let range = tightbeam_ext::vm::isa::ClearRange { base: 7, len: 5 };
    assert_eq!(range.end(), 12);
}

#[test]
fn uninitialized_reads_name_bank_and_register() {
    let error = ValidationError::UninitializedRead { index: 2, bank: Bank::Secret, register: 7 };
    let text = error.to_string();
    assert!(text.contains("secret"));
    assert!(text.contains('7'));
    assert_eq!(text, "instruction 2 reads secret register 7 before any write");
}

#[test]
fn every_stage_error_displays_context() {
    let errors = [
        VmError::Codec(CodecError::UnknownOpcode { opcode: 200 }),
        VmError::Validation(ValidationError::MissingOut),
        VmError::RevealTimeout { ordinal: 3 },
        VmError::ControlClosed,
        VmError::SubmissionTimeout,
        VmError::DigestMismatch { party: 2 },
        VmError::Rejected { party: 4 },
    ];

    let all_named = errors.iter().all(|error| !error.to_string().is_empty());
    assert!(all_named);
}

#[test]
fn nested_failures_quote_their_cause() {
    let error = VmError::Validation(ValidationError::TooManyInstructions { count: 20_000, max: 4_096 });
    assert_eq!(
        error.to_string(),
        "the program failed validation: the program has 20000 instructions, the ceiling is 4096"
    );
    let codec = CodecError::MalformedArguments { opcode: Opcode::FpDivC };
    assert_eq!(codec.to_string(), "malformed arguments for opcode FpDivC");
    assert_eq!(
        VmError::PrecisionUnsupported { k: 16, f: 0 }.to_string(),
        "the engine cannot serve fixed-point precision (16, 0)"
    );
}

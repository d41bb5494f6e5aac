use tightbeam_ext::vm::codec::{decode, digest, encode, ProgramDigest};
use tightbeam_ext::vm::error::CodecError;
use tightbeam_ext::vm::isa::{
    ClearRange, FixedPrecision, InputDecl, Instruction, MulTriple, Opcode, Program, SecretRange,
    VERSION,
};
use tightbeam_ext::vm::wire::WireInstruction;

fn must_encode(program: &Program) -> Vec<u8> {
    encode(program).expect("the program encodes")
}

fn must_decode(bytes: &[u8]) -> Program {
    decode(bytes).expect("the bytes decode")
}

fn must_instruction(wire: &WireInstruction) -> Instruction {
    Instruction::try_from_wire(wire).expect("the instruction decodes")
}

fn wire(opcode: Opcode, args: Vec<u64>) -> WireInstruction {
    WireInstruction { opcode: opcode.to_u8(), args }
}

fn sample_program() -> Program {
    Program {
        version: VERSION,
        inputs: vec![InputDecl { client: 100, dest: SecretRange { base: 0, len: 2 } }],
        instructions: vec![
            Instruction::LdC { dest: ClearRange { base: 0, len: 2 }, values: vec![3, 5] },
            Instruction::MulC {
                dest: SecretRange { base: 2, len: 2 },
                a: SecretRange { base: 0, len: 2 },
                c: ClearRange { base: 0, len: 2 },
            },
            Instruction::MulS {
                pairs: vec![MulTriple {
                    dest: SecretRange { base: 4, len: 1 },
                    a: SecretRange { base: 2, len: 1 },
                    b: SecretRange { base: 3, len: 1 },
                }],
            },
            Instruction::FpMulS {
                dest: SecretRange { base: 5, len: 1 },
                a: SecretRange { base: 2, len: 1 },
                b: SecretRange { base: 3, len: 1 },
                precision: FixedPrecision { k: 16, f: 4 },
            },
            Instruction::FpDivC {
                dest: SecretRange { base: 6, len: 1 },
                a: SecretRange { base: 5, len: 1 },
                divisor: 32,
                precision: FixedPrecision { k: 16, f: 4 },
            },
            Instruction::Reveal { dest: ClearRange { base: 2, len: 1 }, src: SecretRange { base: 4, len: 1 } },
            Instruction::AndS {
                pairs: vec![MulTriple {
                    dest: SecretRange { base: 7, len: 1 },
                    a: SecretRange { base: 2, len: 1 },
                    b: SecretRange { base: 3, len: 1 },
                }],
            },
            Instruction::XorS {
                pairs: vec![MulTriple {
                    dest: SecretRange { base: 8, len: 1 },
                    a: SecretRange { base: 2, len: 1 },
                    b: SecretRange { base: 3, len: 1 },
                }],
            },
            Instruction::NotS { dest: SecretRange { base: 9, len: 1 }, a: SecretRange { base: 7, len: 1 } },
            Instruction::Mux {
                dest: SecretRange { base: 10, len: 1 },
                cond: SecretRange { base: 9, len: 1 },
                t: SecretRange { base: 7, len: 1 },
                f: SecretRange { base: 8, len: 1 },
            },
            Instruction::Pack {
                dest: SecretRange { base: 11, len: 1 },
                src: SecretRange { base: 7, len: 3 },
                width: 3,
            },
            Instruction::BitDec {
                dest: SecretRange { base: 12, len: 4 },
                src: SecretRange { base: 11, len: 2 },
                width: 2,
            },
            Instruction::Sbox { dest: SecretRange { base: 24, len: 8 }, src: SecretRange { base: 16, len: 8 } },
            Instruction::ByteXor {
                dest: SecretRange { base: 32, len: 1 },
                a: SecretRange { base: 11, len: 1 },
                b: SecretRange { base: 11, len: 1 },
            },
            Instruction::Out { client: 100, src: SecretRange { base: 4, len: 1 } },
        ],
    }
}

#[test]
fn programs_round_trip_through_der() {
    let program = sample_program();
    let bytes = must_encode(&program);
    let recovered = must_decode(&bytes);
    assert_eq!(recovered, program);
}

#[test]
fn digests_are_stable_and_content_addressed() {
    let program = sample_program();
    let bytes = must_encode(&program);
    let first = digest(&bytes);
    let second = digest(&bytes);
    assert_eq!(first, second);

    let mut altered = program;
    altered.instructions.pop();

    let altered_bytes = must_encode(&altered);
    assert_ne!(digest(&altered_bytes), first);
}

#[test]
fn instance_ids_derive_from_the_digest_prefix() {
    let fixed = ProgramDigest([7; 32]);
    assert_eq!(fixed.instance_id(), u32::from_le_bytes([7, 7, 7, 7]));
}

#[test]
fn digests_display_as_hex() {
    let fixed = ProgramDigest([0xab; 32]);
    let text = fixed.to_string();
    assert_eq!(text.len(), 64);
    assert!(text.chars().all(|c| c == 'a' || c == 'b'));
}

#[test]
fn foreign_versions_are_refused() {
    let program = Program { version: 99, inputs: Vec::new(), instructions: Vec::new() };
    let bytes = must_encode(&program);
    let outcome = decode(&bytes);
    assert!(matches!(outcome, Err(CodecError::UnsupportedVersion { found: 99 })));
}

#[test]
fn truncated_bytes_are_refused() {
    let program = sample_program();
    let bytes = must_encode(&program);
    let outcome = decode(&bytes[..bytes.len() - 3]);
    assert!(matches!(outcome, Err(CodecError::Der(_))));
}

#[test]
fn ldc_value_count_must_match_its_range() {
    let outcome = Instruction::try_from_wire(&wire(Opcode::LdC, vec![0, 3, 1, 2]));
    assert!(matches!(outcome, Err(CodecError::MalformedArguments { opcode: Opcode::LdC })));
}

#[test]
fn muls_argument_lists_must_be_whole_triples() {
    let outcome = Instruction::try_from_wire(&wire(Opcode::MulS, vec![0, 1, 2]));
    assert!(matches!(outcome, Err(CodecError::MalformedArguments { opcode: Opcode::MulS })));
}

#[test]
fn ands_argument_lists_must_be_whole_triples() {
    let outcome = Instruction::try_from_wire(&wire(Opcode::AndS, vec![0, 1, 2]));
    assert!(matches!(outcome, Err(CodecError::MalformedArguments { opcode: Opcode::AndS })));
}

#[test]
fn xors_argument_lists_must_be_whole_triples() {
    let outcome = Instruction::try_from_wire(&wire(Opcode::XorS, vec![0, 1, 2]));
    assert!(matches!(outcome, Err(CodecError::MalformedArguments { opcode: Opcode::XorS })));
}

#[test]
fn nots_argument_lists_must_have_three_entries() {
    let outcome = Instruction::try_from_wire(&wire(Opcode::NotS, vec![0, 1]));
    assert!(matches!(outcome, Err(CodecError::MalformedArguments { opcode: Opcode::NotS })));
}

#[test]
fn mux_argument_lists_must_have_five_entries() {
    let outcome = Instruction::try_from_wire(&wire(Opcode::Mux, vec![0, 1, 2, 3]));
    assert!(matches!(outcome, Err(CodecError::MalformedArguments { opcode: Opcode::Mux })));
}

#[test]
fn pack_argument_lists_must_have_four_entries() {
    let outcome = Instruction::try_from_wire(&wire(Opcode::Pack, vec![0, 1, 2]));
    assert!(matches!(outcome, Err(CodecError::MalformedArguments { opcode: Opcode::Pack })));
}

#[test]
fn pack_width_must_fit_one_octet() {
    let outcome = Instruction::try_from_wire(&wire(Opcode::Pack, vec![0, 1, 1, 300]));
    assert!(matches!(outcome, Err(CodecError::MalformedArguments { opcode: Opcode::Pack })));
}

#[test]
fn pack_derives_its_source_range_from_dest_len_times_width() {
    let instruction = must_instruction(&wire(Opcode::Pack, vec![10, 0, 2, 3]));
    assert!(matches!(
        instruction,
        Instruction::Pack {
            dest: SecretRange { base: 10, len: 2 },
            src: SecretRange { base: 0, len: 6 },
            width: 3
        }
    ));
}

#[test]
fn bit_dec_argument_lists_must_have_four_entries() {
    let outcome = Instruction::try_from_wire(&wire(Opcode::BitDec, vec![0, 1, 2]));
    assert!(matches!(outcome, Err(CodecError::MalformedArguments { opcode: Opcode::BitDec })));
}

#[test]
fn bit_dec_width_must_fit_one_octet() {
    let outcome = Instruction::try_from_wire(&wire(Opcode::BitDec, vec![0, 1, 1, 300]));
    assert!(matches!(outcome, Err(CodecError::MalformedArguments { opcode: Opcode::BitDec })));
}

#[test]
fn bit_dec_derives_its_dest_range_from_src_len_times_width() {
    let instruction = must_instruction(&wire(Opcode::BitDec, vec![10, 0, 2, 3]));
    assert!(matches!(
        instruction,
        Instruction::BitDec {
            dest: SecretRange { base: 10, len: 6 },
            src: SecretRange { base: 0, len: 2 },
            width: 3
        }
    ));
}

#[test]
fn mux_fixes_cond_width_at_one() {
    let instruction = must_instruction(&wire(Opcode::Mux, vec![5, 2, 0, 1, 2]));
    assert!(matches!(
        instruction,
        Instruction::Mux {
            dest: SecretRange { base: 5, len: 2 },
            cond: SecretRange { base: 2, len: 1 },
            t: SecretRange { base: 0, len: 2 },
            f: SecretRange { base: 1, len: 2 },
        }
    ));
}

#[test]
fn fixed_point_precision_components_must_fit_one_octet() {
    let outcome = Instruction::try_from_wire(&wire(Opcode::FpMulS, vec![0, 1, 2, 1, 300, 4]));
    assert!(matches!(outcome, Err(CodecError::MalformedArguments { opcode: Opcode::FpMulS })));
}

#[test]
fn oversized_register_indexes_are_refused() {
    let oversized = u64::from(u32::MAX) + 1;
    let outcome = Instruction::try_from_wire(&wire(Opcode::Reveal, vec![oversized, 0, 1]));
    assert!(matches!(outcome, Err(CodecError::RegisterOverflow { .. })));
}

#[test]
fn every_instruction_round_trips_through_its_wire_form() {
    for instruction in sample_program().instructions {
        let wire = WireInstruction::from_instruction(&instruction);
        assert_eq!(wire.opcode, instruction.opcode().to_u8());
        assert_eq!(must_instruction(&wire), instruction);
    }
}

#[test]
fn sbox_travels_as_a_byte_count() {
    let sbox = Instruction::Sbox { dest: SecretRange { base: 24, len: 16 }, src: SecretRange { base: 8, len: 16 } };
    let wire = WireInstruction::from_instruction(&sbox);
    assert_eq!(wire.args, vec![24, 8, 2]);
}

#[test]
fn unknown_opcodes_in_wire_instructions_are_refused() {
    let outcome = Instruction::try_from_wire(&WireInstruction { opcode: 0, args: Vec::new() });
    assert!(matches!(outcome, Err(CodecError::UnknownOpcode { opcode: 0 })));
}

#[test]
fn the_first_bad_instruction_decides_the_refusal() {
    let mut program = sample_program();
    program.instructions.insert(1, Instruction::LdC { dest: ClearRange { base: 0, len: 3 }, values: vec![1] });
    let bytes = must_encode(&program);
    assert!(matches!(decode(&bytes), Err(CodecError::MalformedArguments { opcode: Opcode::LdC })));
}

#[test]
fn encodings_are_canonical_der() {
    let program = Program { version: VERSION, inputs: Vec::new(), instructions: Vec::new() };
    let bytes = must_encode(&program);
    assert_eq!(bytes, vec![0x30, 0x07, 0x02, 0x01, 0x01, 0x30, 0x00, 0x30, 0x00]);
}

#[test]
fn digests_are_sha3_256() {
    let empty = digest(&[]);
    assert_eq!(
        empty.to_string(),
        "a7ffc6f8bf1ed76651c14756a061d662f580ff4de43b49fa82d80a4b80f8434a"
    );
}

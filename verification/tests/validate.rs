use tightbeam_ext::vm::error::{Bank, ValidationError, VmError};
use tightbeam_ext::vm::isa::{ClearRange, FixedPrecision, InputDecl, Instruction, MulTriple, Program, SecretRange, VERSION};
use tightbeam_ext::vm::validate::{Budget, ValidProgram, BANK_SIZE, MAX_INSTRUCTIONS};

fn program(inputs: Vec<InputDecl>, instructions: Vec<Instruction>) -> Program {
    Program { version: VERSION, inputs, instructions }
}

fn two_input_product() -> Program {
    program(
        vec![InputDecl { client: 100, dest: SecretRange { base: 0, len: 2 } }],
        vec![
            Instruction::MulS {
                pairs: vec![MulTriple {
                    dest: SecretRange { base: 2, len: 1 },
                    a: SecretRange { base: 0, len: 1 },
                    b: SecretRange { base: 1, len: 1 },
                }],
            },
            Instruction::Out { client: 100, src: SecretRange { base: 2, len: 1 } },
        ],
    )
}

#[test]
fn a_sound_program_is_priced() {
    let valid = ValidProgram::try_from(two_input_product()).expect("the program should validate");
    assert_eq!(valid.budget(), Budget { triples: 1, random_shares: 2, ..Budget::default() });
}

#[test]
fn digests_match_the_wire_bytes() {
    let valid = ValidProgram::try_from(two_input_product()).expect("the program should validate");
    let reparsed = ValidProgram::from_der(valid.bytes()).expect("the bytes should re-validate");
    assert_eq!(reparsed.digest(), valid.digest());
}

#[test]
fn empty_programs_are_refused() {
    let outcome = ValidProgram::try_from(program(Vec::new(), Vec::new()));
    assert!(matches!(outcome, Err(VmError::Validation(ValidationError::EmptyProgram))));
}

#[test]
fn reads_of_never_written_secrets_are_refused() {
    let unsound = program(Vec::new(), vec![Instruction::Out { client: 100, src: SecretRange { base: 0, len: 1 } }]);

    let outcome = ValidProgram::try_from(unsound);
    assert!(matches!(
        outcome,
        Err(VmError::Validation(ValidationError::UninitializedRead { index: 0, bank: Bank::Secret, register: 0 }))
    ));
}

#[test]
fn reads_of_never_written_clears_are_refused() {
    let unsound = program(
        vec![InputDecl { client: 100, dest: SecretRange { base: 0, len: 1 } }],
        vec![
            Instruction::MulC {
                dest: SecretRange { base: 1, len: 1 },
                a: SecretRange { base: 0, len: 1 },
                c: ClearRange { base: 0, len: 1 },
            },
            Instruction::Out { client: 100, src: SecretRange { base: 1, len: 1 } },
        ],
    );

    let outcome = ValidProgram::try_from(unsound);
    assert!(matches!(
        outcome,
        Err(VmError::Validation(ValidationError::UninitializedRead { bank: Bank::Clear, .. }))
    ));
}

#[test]
fn out_must_be_terminal() {
    let unsound = program(
        vec![InputDecl { client: 100, dest: SecretRange { base: 0, len: 2 } }],
        vec![
            Instruction::Out { client: 100, src: SecretRange { base: 0, len: 1 } },
            Instruction::AddS {
                dest: SecretRange { base: 2, len: 1 },
                a: SecretRange { base: 0, len: 1 },
                b: SecretRange { base: 1, len: 1 },
            },
        ],
    );

    let outcome = ValidProgram::try_from(unsound);
    assert!(matches!(outcome, Err(VmError::Validation(ValidationError::OutNotLast { index: 0 }))));
}

#[test]
fn programs_without_out_are_refused() {
    let unsound = program(
        vec![InputDecl { client: 100, dest: SecretRange { base: 0, len: 2 } }],
        vec![Instruction::AddS {
            dest: SecretRange { base: 2, len: 1 },
            a: SecretRange { base: 0, len: 1 },
            b: SecretRange { base: 1, len: 1 },
        }],
    );

    let outcome = ValidProgram::try_from(unsound);
    assert!(matches!(outcome, Err(VmError::Validation(ValidationError::MissingOut))));
}

#[test]
fn operand_length_disagreements_are_refused() {
    let unsound = program(
        vec![InputDecl { client: 100, dest: SecretRange { base: 0, len: 3 } }],
        vec![
            Instruction::AddS {
                dest: SecretRange { base: 3, len: 2 },
                a: SecretRange { base: 0, len: 2 },
                b: SecretRange { base: 2, len: 1 },
            },
            Instruction::Out { client: 100, src: SecretRange { base: 3, len: 2 } },
        ],
    );

    let outcome = ValidProgram::try_from(unsound);
    assert!(matches!(outcome, Err(VmError::Validation(ValidationError::LengthMismatch { index: 0 }))));
}

#[test]
fn bank_overruns_are_refused() {
    let unsound = program(
        vec![InputDecl { client: 100, dest: SecretRange { base: u32::MAX - 1, len: 2 } }],
        vec![Instruction::Out { client: 100, src: SecretRange { base: 0, len: 1 } }],
    );

    let outcome = ValidProgram::try_from(unsound);
    assert!(matches!(
        outcome,
        Err(VmError::Validation(ValidationError::BankExceeded { bank: Bank::Secret, .. }))
    ));
}

#[test]
fn duplicate_input_clients_are_refused() {
    let unsound = program(
        vec![
            InputDecl { client: 100, dest: SecretRange { base: 0, len: 1 } },
            InputDecl { client: 100, dest: SecretRange { base: 1, len: 1 } },
        ],
        vec![Instruction::Out { client: 100, src: SecretRange { base: 0, len: 1 } }],
    );

    let outcome = ValidProgram::try_from(unsound);
    assert!(matches!(outcome, Err(VmError::Validation(ValidationError::DuplicateInputClient { client: 100 }))));
}

#[test]
fn overlapping_input_ranges_are_refused() {
    let unsound = program(
        vec![
            InputDecl { client: 100, dest: SecretRange { base: 0, len: 2 } },
            InputDecl { client: 101, dest: SecretRange { base: 1, len: 2 } },
        ],
        vec![Instruction::Out { client: 100, src: SecretRange { base: 0, len: 1 } }],
    );

    let outcome = ValidProgram::try_from(unsound);
    assert!(matches!(outcome, Err(VmError::Validation(ValidationError::OverlappingInputs { client: 101 }))));
}

#[test]
fn budgets_price_every_batched_triple() {
    let batched = program(
        vec![InputDecl { client: 100, dest: SecretRange { base: 0, len: 4 } }],
        vec![
            Instruction::MulS {
                pairs: vec![
                    MulTriple {
                        dest: SecretRange { base: 4, len: 2 },
                        a: SecretRange { base: 0, len: 2 },
                        b: SecretRange { base: 2, len: 2 },
                    },
                    MulTriple {
                        dest: SecretRange { base: 6, len: 1 },
                        a: SecretRange { base: 0, len: 1 },
                        b: SecretRange { base: 1, len: 1 },
                    },
                ],
            },
            Instruction::Out { client: 100, src: SecretRange { base: 4, len: 3 } },
        ],
    );

    let valid = ValidProgram::try_from(batched).expect("the program should validate");
    assert_eq!(valid.budget(), Budget { triples: 3, random_shares: 4, ..Budget::default() });
}

fn fixed_point_pipeline(mul_precision: FixedPrecision, div_precision: FixedPrecision, divisor: u64) -> Program {
    program(
        vec![InputDecl { client: 100, dest: SecretRange { base: 0, len: 2 } }],
        vec![
            Instruction::FpMulS {
                dest: SecretRange { base: 2, len: 1 },
                a: SecretRange { base: 0, len: 1 },
                b: SecretRange { base: 1, len: 1 },
                precision: mul_precision,
            },
            Instruction::FpDivC {
                dest: SecretRange { base: 3, len: 1 },
                a: SecretRange { base: 2, len: 1 },
                divisor,
                precision: div_precision,
            },
            Instruction::Out { client: 100, src: SecretRange { base: 3, len: 1 } },
        ],
    )
}

#[test]
fn fixed_point_truncation_is_priced() {
    let precision = FixedPrecision { k: 16, f: 4 };
    let valid =
        ValidProgram::try_from(fixed_point_pipeline(precision, precision, 32)).expect("the program should validate");

    assert_eq!(
        valid.budget(),
        Budget { triples: 9, random_shares: 10, prandbits: 8, prandints: 2, ..Budget::default() }
    );
    assert_eq!(valid.precision(), Some(precision));
}

#[test]
fn unusable_precisions_are_refused() {
    let degenerate = FixedPrecision { k: 4, f: 4 };
    let outcome = ValidProgram::try_from(fixed_point_pipeline(degenerate, degenerate, 32));
    assert!(matches!(outcome, Err(VmError::Validation(ValidationError::InvalidPrecision { index: 0 }))));
}

#[test]
fn mixed_precisions_are_refused() {
    let first = FixedPrecision { k: 16, f: 4 };
    let second = FixedPrecision { k: 16, f: 8 };
    let outcome = ValidProgram::try_from(fixed_point_pipeline(first, second, 32));
    assert!(matches!(outcome, Err(VmError::Validation(ValidationError::MixedPrecision { index: 1 }))));
}

#[test]
fn zero_divisors_are_refused() {
    let precision = FixedPrecision { k: 16, f: 4 };
    let outcome = ValidProgram::try_from(fixed_point_pipeline(precision, precision, 0));
    assert!(matches!(outcome, Err(VmError::Validation(ValidationError::ZeroDivisor { index: 1 }))));
}

#[test]
fn validated_programs_report_their_bank_extents() {
    let valid = ValidProgram::try_from(two_input_product()).expect("the program should validate");
    assert_eq!(valid.secret_top(), 3);
    assert_eq!(valid.clear_top(), 0);
    assert_eq!(valid.program(), &two_input_product());
}

#[test]
fn too_many_instructions_are_refused() {
    let instructions = vec![Instruction::Out { client: 1, src: SecretRange { base: 0, len: 1 } }; MAX_INSTRUCTIONS + 1];
    let outcome = ValidProgram::try_from(program(Vec::new(), instructions));
    assert!(matches!(
        outcome,
        Err(VmError::Validation(ValidationError::TooManyInstructions { count, max })) if count == MAX_INSTRUCTIONS + 1 && max == MAX_INSTRUCTIONS
    ));
}

#[test]
fn empty_operands_are_refused() {
    let unsound = program(
        vec![InputDecl { client: 100, dest: SecretRange { base: 0, len: 0 } }],
        vec![Instruction::Out { client: 100, src: SecretRange { base: 0, len: 1 } }],
    );
    let outcome = ValidProgram::try_from(unsound);
    assert!(matches!(outcome, Err(VmError::Validation(ValidationError::EmptyRange { index: 0 }))));
}

#[test]
fn bank_overruns_report_the_end() {
    let unsound = program(
        vec![InputDecl { client: 100, dest: SecretRange { base: 65_535, len: 2 } }],
        vec![Instruction::Out { client: 100, src: SecretRange { base: 0, len: 1 } }],
    );
    let outcome = ValidProgram::try_from(unsound);
    assert!(matches!(
        outcome,
        Err(VmError::Validation(ValidationError::BankExceeded { bank: Bank::Secret, end: 65_537, max: BANK_SIZE }))
    ));
}

#[test]
fn gates_sboxes_and_byte_xors_are_priced() {
    let program = program(
        vec![InputDecl { client: 100, dest: SecretRange { base: 0, len: 8 } }],
        vec![
            Instruction::Sbox { dest: SecretRange { base: 8, len: 8 }, src: SecretRange { base: 0, len: 8 } },
            Instruction::ByteXor {
                dest: SecretRange { base: 16, len: 2 },
                a: SecretRange { base: 0, len: 2 },
                b: SecretRange { base: 2, len: 2 },
            },
            Instruction::Mux {
                dest: SecretRange { base: 18, len: 2 },
                cond: SecretRange { base: 4, len: 1 },
                t: SecretRange { base: 0, len: 2 },
                f: SecretRange { base: 2, len: 2 },
            },
            Instruction::Out { client: 100, src: SecretRange { base: 8, len: 8 } },
        ],
    );
    let valid = ValidProgram::try_from(program).expect("the program should validate");
    assert_eq!(
        valid.budget(),
        Budget { triples: 151 + 80 + 2, random_shares: 8, prandbits: 16 + 32, prandints: 0, sbox_tables: 1 }
    );
}

#[test]
fn sbox_operands_must_be_whole_bytes() {
    let program = program(
        vec![InputDecl { client: 100, dest: SecretRange { base: 0, len: 4 } }],
        vec![
            Instruction::Sbox { dest: SecretRange { base: 8, len: 4 }, src: SecretRange { base: 0, len: 4 } },
            Instruction::Out { client: 100, src: SecretRange { base: 8, len: 4 } },
        ],
    );
    let outcome = ValidProgram::try_from(program);
    assert!(matches!(outcome, Err(VmError::Validation(ValidationError::LengthMismatch { index: 0 }))));
}

#[test]
fn foreign_program_bytes_are_refused_on_the_party_side() {
    let outcome = ValidProgram::from_der(&[0x30, 0x00]);
    assert!(matches!(outcome, Err(VmError::Codec(_))));
}

use tightbeam_ext::vm::builder::{Bits, ProgramBuilder, Secret};
use tightbeam_ext::vm::error::{ValidationError, VmError};
use tightbeam_ext::vm::isa::{ClientId, FixedPrecision, InputDecl, Instruction, SecretRange};
use tightbeam_ext::vm::validate::{Budget, ValidProgram};

const CLIENT: ClientId = 100;

fn must_build(builder: ProgramBuilder) -> ValidProgram {
    builder.build().expect("the built program should validate")
}

fn must_from_der(bytes: &[u8]) -> ValidProgram {
    ValidProgram::from_der(bytes).expect("the wire bytes should re-validate")
}

#[test]
fn a_fluent_program_validates_and_prices() {
    let mut builder = ProgramBuilder::default();
    let inputs = builder.input(CLIENT, 2);
    let two = builder.constants(&[2, 2]);
    let doubled = builder.mul_clear(inputs, two);
    let product = builder.mul(doubled, inputs);
    let _opened = builder.reveal_secret(product);
    builder.output(CLIENT, product);

    let valid = must_build(builder);
    assert_eq!(valid.budget(), Budget { triples: 2, random_shares: 2, ..Budget::default() });
}

#[test]
fn built_programs_round_trip_to_the_same_digest() {
    let mut builder = ProgramBuilder::default();
    let inputs = builder.input(CLIENT, 2);
    let sum = builder.add(inputs, inputs);
    builder.output(CLIENT, sum);

    let valid = must_build(builder);
    let reparsed = must_from_der(valid.bytes());
    assert_eq!(reparsed.digest(), valid.digest());
}

#[test]
fn programs_without_output_are_refused_at_build() {
    let mut builder = ProgramBuilder::default();
    let inputs = builder.input(CLIENT, 2);
    let _sum = builder.add(inputs, inputs);

    let outcome = builder.build();
    assert!(matches!(outcome, Err(VmError::Validation(ValidationError::MissingOut))));
}

#[test]
fn mismatched_operand_lengths_surface_at_build() {
    let mut builder = ProgramBuilder::default();
    let wide = builder.input(CLIENT, 3);
    let narrow = builder.input(101, 1);
    let sum = builder.add(wide, narrow);
    builder.output(CLIENT, sum);

    let outcome = builder.build();
    assert!(matches!(outcome, Err(VmError::Validation(ValidationError::LengthMismatch { .. }))));
}

#[test]
fn second_outputs_surface_at_build() {
    let mut builder = ProgramBuilder::default();
    let inputs = builder.input(CLIENT, 2);
    let sum = builder.add(inputs, inputs);
    builder.output(CLIENT, sum);
    builder.output(101, sum);

    let outcome = builder.build();
    assert!(matches!(outcome, Err(VmError::Validation(ValidationError::OutNotLast { .. }))));
}

#[test]
fn fixed_point_pipelines_validate_and_price_truncation() {
    let precision = FixedPrecision { k: 16, f: 4 };
    let mut builder = ProgramBuilder::default();
    let x = builder.input(CLIENT, 1);
    let y = builder.input(101, 1);
    let product = builder.fp_mul(x, y, precision);
    let quotient = builder.fp_div(product, 32, precision);
    builder.output(CLIENT, quotient);

    let valid = must_build(builder);
    assert_eq!(
        valid.budget(),
        Budget { triples: 9, random_shares: 10, prandbits: 8, prandints: 2, ..Budget::default() }
    );
    assert_eq!(valid.precision(), Some(precision));
}

#[test]
fn assume_with_zero_width_reports_zero_elements_without_panicking() {
    let mut builder = ProgramBuilder::default();
    let secret = builder.input(CLIENT, 4);
    let bits = Bits::assumed(secret, 0);

    assert_eq!(bits.len(), 0);
    assert!(bits.is_empty());
}

#[test]
fn and_many_and_xor_many_each_emit_one_instruction_and_price_a_triple_per_element() {
    let mut builder = ProgramBuilder::default();
    let x = Bits::assumed(builder.input(CLIENT, 2), 1);
    let y = Bits::assumed(builder.input(101, 2), 1);
    let ands = builder.and_many(&[(x, y), (y, x)]);
    let xors = builder.xor_many(&[(x, y)]);
    builder.output(CLIENT, Secret::from(ands[0]));
    let _ = xors;

    let valid = must_build(builder);
    let and_instructions =
        valid.program().instructions.iter().filter(|i| matches!(i, Instruction::AndS { .. })).count();
    let xor_instructions =
        valid.program().instructions.iter().filter(|i| matches!(i, Instruction::XorS { .. })).count();

    assert_eq!(and_instructions, 1);
    assert_eq!(xor_instructions, 1);
    assert_eq!(valid.budget().triples, 6);
}

#[test]
fn mux_selects_through_the_fluent_surface_and_prices_a_triple_per_element() {
    let mut builder = ProgramBuilder::default();
    let cond = Bits::assumed(builder.input(CLIENT, 1), 1);
    let t = builder.input(101, 2);
    let f = builder.input(102, 2);
    let selected = builder.mux(cond, t, f);
    builder.output(CLIENT, selected);

    let valid = must_build(builder);
    assert_eq!(valid.budget().triples, 2);
}

#[test]
fn bit_dec_prices_a_prandbit_and_two_triples_per_bit() {
    let mut builder = ProgramBuilder::default();
    let x = builder.input(CLIENT, 2);
    let bits = builder.bit_dec(x, 3);
    builder.output(CLIENT, Secret::from(bits));

    let valid = must_build(builder);
    assert_eq!(bits.len(), 2);
    assert_eq!(bits.width(), 3);
    assert_eq!(
        valid.budget(),
        Budget { triples: 12, random_shares: 2, prandbits: 6, prandints: 0, ..Budget::default() }
    );
}

#[test]
fn input_bytes_declares_a_plain_secret_input() {
    let mut builder = ProgramBuilder::default();
    let bytes = builder.input_bytes(CLIENT, 4);
    builder.output(CLIENT, bytes);

    let valid = must_build(builder);
    assert_eq!(bytes.len(), 4);
    assert_eq!(valid.program().inputs, vec![InputDecl { client: CLIENT, dest: bytes.range() }]);
}

#[test]
fn eq_and_lt_each_fold_down_to_one_bit_per_element() {
    let mut builder = ProgramBuilder::default();
    let x = builder.input(CLIENT, 2);
    let y = builder.input(101, 2);
    let equal = builder.eq(x, y, 3);
    let less = builder.lt(x, y, 3);
    builder.output(CLIENT, Secret::from(equal));
    let _ = less;

    let valid = must_build(builder);
    assert_eq!(equal.len(), 2);
    assert_eq!(equal.width(), 1);
    assert_eq!(less.len(), 2);
    assert_eq!(less.width(), 1);
    assert!(valid.budget().triples > 0);
}

#[test]
fn batched_multiplication_emits_one_instruction() {
    let mut builder = ProgramBuilder::default();
    let x = builder.input(CLIENT, 2);
    let y = builder.input(101, 2);
    let products = builder.mul_many(&[(x, y), (y, x)]);
    builder.output(CLIENT, products[0]);

    let valid = must_build(builder);
    let muls =
        valid.program().instructions.iter().filter(|instruction| matches!(instruction, Instruction::MulS { .. })).count();
    assert_eq!(muls, 1);
    assert_eq!(valid.budget().triples, 4);
}

#[test]
fn handles_are_allocated_bump_style() {
    let mut builder = ProgramBuilder::default();
    let x = builder.input(CLIENT, 3);
    let y = builder.input(101, 2);
    let constants = builder.constants(&[1, 2, 3]);
    let sum = builder.add_clear(x, constants);
    assert_eq!(x.range(), SecretRange { base: 0, len: 3 });
    assert_eq!(y.range(), SecretRange { base: 3, len: 2 });
    assert_eq!(sum.range(), SecretRange { base: 5, len: 3 });
    assert_eq!(constants.len(), 3);
    assert_eq!(sum.get(1).range(), SecretRange { base: 6, len: 1 });
    assert_eq!(sum.slice(1, 2).range(), SecretRange { base: 6, len: 2 });
}

#[test]
fn concat_copies_parts_into_one_run() {
    let mut builder = ProgramBuilder::default();
    let x = builder.input(CLIENT, 2);
    let y = builder.input(101, 1);
    let joined = builder.concat(&[x, y]);
    assert_eq!(joined.range(), SecretRange { base: 3, len: 3 });
    builder.output(CLIENT, joined);
    let valid = must_build(builder);
    assert_eq!(valid.program().instructions.len(), 5);
}

#[test]
fn bit_views_stride_by_width() {
    let mut builder = ProgramBuilder::default();
    let bits = Bits::assumed(builder.input(CLIENT, 16), 8);
    assert_eq!(bits.len(), 2);
    assert_eq!(bits.get(1).range(), SecretRange { base: 8, len: 8 });
    assert_eq!(bits.bit(1, 3).range(), SecretRange { base: 11, len: 1 });
    assert_eq!(bits.regroup(4).len(), 4);
}

#[test]
fn lanes_and_joins_copy_bits_locally() {
    let mut builder = ProgramBuilder::default();
    let bits = Bits::assumed(builder.input(CLIENT, 6), 3);
    let lane = builder.bit_lane(bits, 2);
    assert_eq!(lane.range(), SecretRange { base: 8, len: 2 });
    let joined = builder.join_bits(&[bits.bit(0, 0), bits.bit(1, 0)]);
    assert_eq!(joined.len(), 2);
    builder.output(CLIENT, Secret::from(joined));
    let valid = must_build(builder);
    assert_eq!(valid.budget().triples, 0);
}

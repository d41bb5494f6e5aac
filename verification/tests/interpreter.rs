use std::collections::HashMap;

use tightbeam_ext::vm::builder::{Bits, ProgramBuilder, Secret};
use tightbeam_ext::vm::bitdec::BitDecomposition;
use tightbeam_ext::vm::circuits::AES_SBOX;
use tightbeam_ext::vm::combine::xor_bytes;
use tightbeam_ext::vm::error::{Bank, ValidationError, VmError};
use tightbeam_ext::vm::executor::Output;
use tightbeam_ext::vm::interpreter::{Interpreter, Request, Scalar, SecretOps, Step};
use tightbeam_ext::vm::isa::ClientId;
use tightbeam_ext::vm::lookup::TableLookup;
use tightbeam_ext::vm::validate::ValidProgram;

const CLIENT: ClientId = 100;

/// The prime of the plain field.
const P: u64 = (1 << 31) - 1;

/// A plain field element: shares are the values themselves.
#[derive(Clone, Copy, Debug, PartialEq, Eq)]
struct Fp(u64);

impl Scalar for Fp {
    fn of_u64(value: u64) -> Fp {
        Fp(value % P)
    }

    fn negated(self) -> Fp {
        Fp((P - self.0) % P)
    }

    fn plus(self, other: Fp) -> Fp {
        Fp((self.0 + other.0) % P)
    }
}

/// In-memory arithmetic over the plain field.
struct Plain;

impl SecretOps<Fp, u64> for Plain {
    fn add(&self, a: &u64, b: &u64) -> Result<u64, VmError> {
        Ok((a + b) % P)
    }

    fn sub(&self, a: &u64, b: &u64) -> Result<u64, VmError> {
        Ok((a + P - b) % P)
    }

    fn add_clear(&self, a: &u64, c: Fp) -> Result<u64, VmError> {
        Ok((a + c.0) % P)
    }

    fn sub_clear(&self, a: &u64, c: Fp) -> Result<u64, VmError> {
        Ok((a + P - c.0) % P)
    }

    fn mul_clear(&self, a: &u64, c: Fp) -> Result<u64, VmError> {
        Ok(a * c.0 % P)
    }
}

fn bits_of(values: &[u64], width: u8) -> Vec<u64> {
    let mut bits = Vec::new();
    for value in values {
        for position in 0..width {
            bits.push((value >> position) & 1);
        }
    }
    bits
}

fn byte_of(bits: &[u64]) -> u64 {
    bits.iter().enumerate().map(|(position, bit)| bit << position).sum()
}

/// Run a validated program to its output, answering every round in the
/// clear; the ordinals of the rounds are recorded.
fn run(valid: &ValidProgram, inputs: &HashMap<ClientId, Vec<u64>>, ordinals: &mut Vec<u32>) -> Result<Output<u64>, VmError> {
    let mut interpreter: Interpreter<Fp, u64> = Interpreter::new(valid);
    for (index, declaration) in valid.program().inputs.iter().enumerate() {
        interpreter.supply_input(valid, index, inputs.get(&declaration.client))?;
    }
    loop {
        let request = match interpreter.advance(valid, &Plain)? {
            Step::Finished(output) => return Ok(output),
            Step::Await(request) => request,
        };
        match request {
            Request::Multiply { x, y } => {
                let products = x.iter().zip(&y).map(|(a, b)| a * b % P).collect();
                interpreter.resume_shares(valid, &Plain, products)?;
            }
            Request::FixedMultiply { x, y, precision } => {
                let products = x.iter().zip(&y).map(|(a, b)| (a * b) >> precision.f).collect();
                interpreter.resume_shares(valid, &Plain, products)?;
            }
            Request::FixedDivide { x, divisor, precision } => {
                let quotients = x.iter().map(|a| (a << precision.f) / divisor.0).collect();
                interpreter.resume_shares(valid, &Plain, quotients)?;
            }
            Request::Reveal { ordinal, shares } => {
                ordinals.push(ordinal);
                interpreter.resume_values(valid, shares.iter().map(|share| Fp(*share)).collect());
            }
            Request::BitDec { ordinal, x, width } => {
                ordinals.push(ordinal);
                interpreter.resume_shares(valid, &Plain, bits_of(&x, width))?;
            }
            Request::Sbox { ordinal, x } => {
                ordinals.push(ordinal);
                let mut out = Vec::new();
                for group in x.chunks(8) {
                    let substituted = u64::from(AES_SBOX[byte_of(group) as usize]);
                    out.extend(bits_of(&[substituted], 8));
                }
                interpreter.resume_shares(valid, &Plain, out)?;
            }
            Request::ByteXor { ordinal, a, b } => {
                ordinals.push(ordinal);
                let xors = a.iter().zip(&b).map(|(l, r)| l ^ r).collect();
                interpreter.resume_shares(valid, &Plain, xors)?;
            }
        }
    }
}

fn inputs_of(values: &[u64]) -> HashMap<ClientId, Vec<u64>> {
    HashMap::from([(CLIENT, values.to_vec())])
}

fn output_of(valid: &ValidProgram, values: &[u64]) -> Vec<u64> {
    let mut ordinals = Vec::new();
    run(valid, &inputs_of(values), &mut ordinals).expect("the program should run").shares
}

#[test]
fn squares_of_three_elements() {
    let mut builder = ProgramBuilder::default();
    let x = builder.input(CLIENT, 3);
    let squares = builder.mul(x, x);
    builder.output(CLIENT, squares);
    let valid = builder.build().expect("the program validates");

    let output = output_of(&valid, &[2, 3, 4]);
    assert_eq!(output, [4, 9, 16]);
}

#[test]
fn a_longer_affine_pipeline_composes() {
    let mut builder = ProgramBuilder::default();
    let x = builder.input(CLIENT, 2);
    let three = builder.constants(&[3, 3]);
    let seven = builder.constants(&[7, 7]);
    let scaled = builder.mul_clear(x, three);
    let shifted = builder.add_clear(scaled, seven);
    let lowered = builder.sub_clear(shifted, three);
    let doubled = builder.add(lowered, lowered);
    let back = builder.sub(doubled, x);
    builder.output(CLIENT, back);
    let valid = builder.build().expect("the program validates");

    // 2 * (3x + 7 - 3) - x = 5x + 8
    assert_eq!(output_of(&valid, &[1, 10]), [13, 58]);
}

#[test]
fn a_revealed_value_is_added_back() {
    let mut builder = ProgramBuilder::default();
    let x = builder.input(CLIENT, 2);
    let opened = builder.reveal_secret(x);
    let sum = builder.add_clear(x, opened);
    builder.output(CLIENT, sum);
    let valid = builder.build().expect("the program validates");

    let mut ordinals = Vec::new();
    let output = run(&valid, &inputs_of(&[5, 6]), &mut ordinals).expect("the program should run");
    assert_eq!(output.client, CLIENT);
    assert_eq!(output.shares, [10, 12]);
    assert_eq!(ordinals, [0]);
}

#[test]
fn bit_gates_match_boolean_tables() {
    let mut builder = ProgramBuilder::default();
    let x = builder.input(CLIENT, 4);
    let y = builder.input(101, 4);
    let a = Bits::assumed(x, 1);
    let b = Bits::assumed(y, 1);
    let and = builder.and(a, b);
    let xor = builder.xor(a, b);
    let not = builder.not(and);
    let joined = builder.concat(&[Secret::from(and), Secret::from(xor), Secret::from(not)]);
    builder.output(CLIENT, joined);
    let valid = builder.build().expect("the program validates");

    let inputs = HashMap::from([(CLIENT, vec![0, 0, 1, 1]), (101, vec![0, 1, 0, 1])]);
    let mut ordinals = Vec::new();
    let output = run(&valid, &inputs, &mut ordinals).expect("the program should run");
    assert_eq!(output.shares, [0, 0, 0, 1, 0, 1, 1, 0, 1, 1, 1, 0]);
}

#[test]
fn mux_selects_t_when_cond_is_one_and_f_otherwise() {
    for (cond, expected) in [(1u64, [7u64, 8]), (0, [1, 2])] {
        let mut builder = ProgramBuilder::default();
        let c = builder.input(CLIENT, 1);
        let t = builder.input(101, 2);
        let f = builder.input(102, 2);
        let selected = builder.mux(Bits::assumed(c, 1), t, f);
        builder.output(CLIENT, selected);
        let valid = builder.build().expect("the program validates");

        let inputs = HashMap::from([(CLIENT, vec![cond]), (101, vec![7, 8]), (102, vec![1, 2])]);
        let mut ordinals = Vec::new();
        let output = run(&valid, &inputs, &mut ordinals).expect("the program should run");
        assert_eq!(output.shares, expected);
    }
}

#[test]
fn bit_dec_and_pack_round_trip_bytes() {
    let mut builder = ProgramBuilder::default();
    let x = builder.input_bytes(CLIENT, 2);
    let bits = builder.bit_dec(x, 8);
    let packed = builder.pack(bits);
    builder.output(CLIENT, packed);
    let valid = builder.build().expect("the program validates");

    let mut ordinals = Vec::new();
    let output = run(&valid, &inputs_of(&[0xa5, 0x3c]), &mut ordinals).expect("the program should run");
    assert_eq!(output.shares, [0xa5, 0x3c]);
    assert_eq!(ordinals, [0]);
}

#[test]
fn sbox_and_byte_xor_match_clear_byte_ops() {
    let mut builder = ProgramBuilder::default();
    let x = builder.input_bytes(CLIENT, 2);
    let y = builder.input_bytes(101, 2);
    let bits = builder.bit_dec(x, 8);
    let substituted = builder.sbox(bits);
    let bytes = builder.pack(substituted);
    let xored = builder.byte_xor(bytes, y);
    builder.output(CLIENT, xored);
    let valid = builder.build().expect("the program validates");

    let inputs = HashMap::from([(CLIENT, vec![0x00, 0x53]), (101, vec![0xff, 0x0f])]);
    let mut ordinals = Vec::new();
    let output = run(&valid, &inputs, &mut ordinals).expect("the program should run");
    assert_eq!(output.shares, [0x63 ^ 0xff, 0xed ^ 0x0f]);
    // BitDec takes one ordinal; Sbox and ByteXor two each.
    assert_eq!(ordinals, [0, 1, 3]);
}

#[test]
fn missing_declared_inputs_are_refused() {
    let mut builder = ProgramBuilder::default();
    let x = builder.input(CLIENT, 1);
    builder.output(CLIENT, x);
    let valid = builder.build().expect("the program validates");

    let mut ordinals = Vec::new();
    let outcome = run(&valid, &HashMap::new(), &mut ordinals);
    assert!(matches!(outcome, Err(VmError::MissingInput { client: CLIENT })));
}

#[test]
fn input_arity_disagreements_are_refused() {
    let mut builder = ProgramBuilder::default();
    let x = builder.input(CLIENT, 2);
    builder.output(CLIENT, x);
    let valid = builder.build().expect("the program validates");

    let mut ordinals = Vec::new();
    let outcome = run(&valid, &inputs_of(&[1, 2, 3]), &mut ordinals);
    assert!(matches!(outcome, Err(VmError::InputArity { client: CLIENT, expected: 2, got: 3 })));
}

#[test]
fn unloaded_inputs_are_refused_as_uninitialized_reads() {
    let mut builder = ProgramBuilder::default();
    let x = builder.input(CLIENT, 3);
    let squares = builder.mul(x, x);
    builder.output(CLIENT, squares);
    let valid = builder.build().expect("the program validates");

    let mut interpreter: Interpreter<Fp, u64> = Interpreter::new(&valid);
    let refused = interpreter.advance(&valid, &Plain);
    assert!(matches!(
        refused,
        Err(VmError::Validation(ValidationError::UninitializedRead { index: 0, bank: Bank::Secret, .. }))
    ));
}

#[test]
fn a_round_carries_the_loaded_operands() {
    let mut builder = ProgramBuilder::default();
    let x = builder.input(CLIENT, 3);
    let squares = builder.mul(x, x);
    builder.output(CLIENT, squares);
    let valid = builder.build().expect("the program validates");

    let mut interpreter: Interpreter<Fp, u64> = Interpreter::new(&valid);
    let supplied = vec![2u64, 3, 4];
    interpreter.supply_input(&valid, 0, Some(&supplied)).expect("the input loads");
    match interpreter.advance(&valid, &Plain) {
        Ok(Step::Await(Request::Multiply { x, y })) => {
            assert_eq!(x, [2, 3, 4]);
            assert_eq!(y, [2, 3, 4]);
        }
        _ => panic!("a multiplication round was expected"),
    }
    interpreter.resume_shares(&valid, &Plain, vec![4, 9, 16]).expect("the products land");
    match interpreter.advance(&valid, &Plain) {
        Ok(Step::Finished(output)) => assert_eq!(output.shares, [4, 9, 16]),
        _ => panic!("the program was expected to finish"),
    }
}

#[test]
fn a_short_answer_leaves_the_rest_of_the_destination_unwritten() {
    let mut builder = ProgramBuilder::default();
    let x = builder.input(CLIENT, 3);
    let squares = builder.mul(x, x);
    builder.output(CLIENT, squares);
    let valid = builder.build().expect("the program validates");

    let mut interpreter: Interpreter<Fp, u64> = Interpreter::new(&valid);
    let supplied = vec![2u64, 3, 4];
    interpreter.supply_input(&valid, 0, Some(&supplied)).expect("the input loads");
    assert!(matches!(interpreter.advance(&valid, &Plain), Ok(Step::Await(Request::Multiply { .. }))));
    interpreter.resume_shares(&valid, &Plain, vec![4, 9]).expect("the products land");
    assert!(matches!(
        interpreter.advance(&valid, &Plain),
        Err(VmError::Validation(ValidationError::UninitializedRead { index: 1, bank: Bank::Secret, .. }))
    ));
}

#[test]
fn a_masked_decomposition_recovers_lsb_first_bits() {
    let x = vec![5u64, 3];
    let mask_bits = vec![1u64, 0, 1, 0, 1, 0];
    let (mut state, masked) =
        BitDecomposition::<Fp, u64>::mask(&Plain, &x, &mask_bits, 3).expect("masking succeeds");
    assert_eq!(masked, [10, 5]);
    for position in 0..3 {
        let public: Vec<bool> = masked.iter().map(|m| (m >> position) & 1 == 1).collect();
        let products: Vec<u64> = match state.round(&Plain, &public).expect("the round is handed out") {
            Request::Multiply { x, y } => x.iter().zip(&y).map(|(a, b)| a * b % P).collect(),
            _ => panic!("a multiplication round was expected"),
        };
        state.absorb(&Plain, products).expect("the products land");
    }
    assert_eq!(state.finish(), [1, 0, 1, 1, 1, 0]);
}

#[test]
fn an_empty_decomposition_needs_no_round() {
    let (state, masked) = BitDecomposition::<Fp, u64>::mask(&Plain, &Vec::new(), &Vec::new(), 8).expect("nothing to mask");
    assert!(masked.is_empty());
    assert!(state.finish().is_empty());
}

/// Inputs for two clients: `CLIENT` and client 101.
fn two_inputs(first: &[u64], second: &[u64]) -> HashMap<ClientId, Vec<u64>> {
    HashMap::from([(CLIENT, first.to_vec()), (101, second.to_vec())])
}

#[test]
fn squares_flow_through_the_interpreter() {
    let mut builder = ProgramBuilder::default();
    let x = builder.input(CLIENT, 2);
    let squared = builder.mul(x, x);
    builder.output(CLIENT, squared);
    let valid = builder.build().expect("the program validates");

    let mut ordinals = Vec::new();
    let output = run(&valid, &inputs_of(&[3, 4]), &mut ordinals).expect("the program should run");
    assert_eq!(output.client, CLIENT);
    assert_eq!(output.shares, vec![9, 16]);
}

#[test]
fn affine_pipelines_compose() {
    let mut builder = ProgramBuilder::default();
    let x = builder.input(CLIENT, 2);
    let scale = builder.constants(&[2, 3]);
    let offset = builder.constants(&[5, 7]);
    let scaled = builder.mul_clear(x, scale);
    let shifted = builder.add_clear(scaled, offset);
    builder.output(CLIENT, shifted);
    let valid = builder.build().expect("the program validates");

    assert_eq!(output_of(&valid, &[10, 20]), vec![25, 67]);
}

#[test]
fn revealed_values_feed_clear_arithmetic() {
    let mut builder = ProgramBuilder::default();
    let x = builder.input(CLIENT, 1);
    let y = builder.input(101, 1);
    let opened = builder.reveal_secret(x);
    let scaled = builder.mul_clear(y, opened);
    builder.output(CLIENT, scaled);
    let valid = builder.build().expect("the program validates");

    let mut ordinals = Vec::new();
    let output = run(&valid, &two_inputs(&[2], &[3]), &mut ordinals).expect("the program should run");
    assert_eq!(output.shares, vec![6]);
    assert_eq!(ordinals.len(), 1);
}

#[test]
fn subtraction_variants_agree_with_field_arithmetic() {
    let mut builder = ProgramBuilder::default();
    let x = builder.input(CLIENT, 1);
    let y = builder.input(101, 1);
    let difference = builder.sub(x, y);
    let offset = builder.constants(&[1]);
    let adjusted = builder.sub_clear(difference, offset);
    builder.output(CLIENT, adjusted);
    let valid = builder.build().expect("the program validates");

    let mut ordinals = Vec::new();
    let output = run(&valid, &two_inputs(&[10], &[4]), &mut ordinals).expect("the program should run");
    assert_eq!(output.shares, vec![5]);
}

#[test]
fn batched_multiplications_land_in_their_destinations() {
    let mut builder = ProgramBuilder::default();
    let x = builder.input(CLIENT, 2);
    let y = builder.input(101, 2);
    let products = builder.mul_many(&[(x, y), (x, x)]);
    let combined = builder.add(products[0], products[1]);
    builder.output(CLIENT, combined);
    let valid = builder.build().expect("the program validates");

    let mut ordinals = Vec::new();
    let output = run(&valid, &two_inputs(&[2, 3], &[5, 7]), &mut ordinals).expect("the program should run");
    // (x*y) + (x*x) = [10 + 4, 21 + 9]
    assert_eq!(output.shares, vec![14, 30]);
}

/// A program that feeds a `{0,1}` pair from two clients through `gate`.
fn bit_pair_program(gate: impl FnOnce(&mut ProgramBuilder, Bits, Bits) -> Bits) -> ValidProgram {
    let mut builder = ProgramBuilder::default();
    let a = Bits::assumed(builder.input(CLIENT, 1), 1);
    let b = Bits::assumed(builder.input(101, 1), 1);
    let result = gate(&mut builder, a, b);
    builder.output(CLIENT, Secret::from(result));
    builder.build().expect("a two-bit gate validates")
}

fn run_bit_pair(valid: &ValidProgram, a: u64, b: u64) -> u64 {
    let mut ordinals = Vec::new();
    run(valid, &two_inputs(&[a], &[b]), &mut ordinals).expect("the program should run").shares[0]
}

#[test]
fn ands_matches_boolean_and_over_every_bit_pair() {
    let valid = bit_pair_program(|builder, a, b| builder.and(a, b));
    for (a, b, expected) in [(0u64, 0u64, 0u64), (0, 1, 0), (1, 0, 0), (1, 1, 1)] {
        assert_eq!(run_bit_pair(&valid, a, b), expected);
    }
}

#[test]
fn xors_matches_boolean_xor_over_every_bit_pair() {
    let valid = bit_pair_program(|builder, a, b| builder.xor(a, b));
    for (a, b, expected) in [(0u64, 0u64, 0u64), (0, 1, 1), (1, 0, 1), (1, 1, 0)] {
        assert_eq!(run_bit_pair(&valid, a, b), expected);
    }
}

#[test]
fn nots_flips_a_bit_in_place() {
    let mut builder = ProgramBuilder::default();
    let a = Bits::assumed(builder.input(CLIENT, 1), 1);
    let negated = builder.not(a);
    builder.output(CLIENT, Secret::from(negated));
    let valid = builder.build().expect("the program validates");

    for (a, expected) in [(0u64, 1u64), (1, 0)] {
        assert_eq!(output_of(&valid, &[a])[0], expected);
    }
}

#[test]
fn mux_selects_t_when_cond_is_one_and_f_when_cond_is_zero() {
    let mut builder = ProgramBuilder::default();
    let cond = builder.input(CLIENT, 1);
    let t = builder.input(101, 1);
    let f = builder.input(102, 1);
    let selected = builder.mux(Bits::assumed(cond, 1), t, f);
    builder.output(CLIENT, selected);
    let valid = builder.build().expect("the program validates");

    for (cond_bit, expected) in [(1u64, 30u64), (0u64, 40u64)] {
        let inputs = HashMap::from([(CLIENT, vec![cond_bit]), (101, vec![30u64]), (102, vec![40u64])]);
        let mut ordinals = Vec::new();
        let output = run(&valid, &inputs, &mut ordinals).expect("the program should run");
        assert_eq!(output.shares[0], expected);
    }
}

#[test]
fn pack_reconstructs_a_byte_from_its_lsb_first_bits() {
    // 0xB4 = 0b1011_0100, LSB first: [0,0,1,0,1,1,0,1].
    let mut builder = ProgramBuilder::default();
    let bits = builder.input(CLIENT, 8);
    let packed = builder.pack(Bits::assumed(bits, 8));
    builder.output(CLIENT, packed);
    let valid = builder.build().expect("the program validates");

    let lsb_first = [0u64, 0, 1, 0, 1, 1, 0, 1];
    assert_eq!(output_of(&valid, &lsb_first)[0], 0xB4);
}

#[test]
fn bit_dec_recovers_lsb_first_bits_for_every_element() {
    let mut builder = ProgramBuilder::default();
    let elements = builder.input(CLIENT, 2);
    let decomposed = builder.bit_dec(elements, 3);
    builder.output(CLIENT, Secret::from(decomposed));
    let valid = builder.build().expect("the program validates");

    assert_eq!(output_of(&valid, &[0b101, 0b011]), vec![1, 0, 1, 1, 1, 0]);
}

#[test]
fn xor_bytes_packs_the_bitwise_xor_lsb_first() {
    let a = bits_of(&[0xA5, 0x0F], 8);
    let b = bits_of(&[0x3C, 0xFF], 8);
    let products: Vec<u64> = a.iter().zip(&b).map(|(x, y)| x * y).collect();
    let bytes = xor_bytes(&Plain, &a, &b, &products, 2).expect("the backend answers");
    assert_eq!(bytes, vec![0xA5 ^ 0x3C, 0x0F ^ 0xFF]);
}

#[test]
fn a_masked_table_lookup_climbs_to_the_sbox_of_the_secret_byte() {
    let secrets: [u64; 3] = [0x00, 0x53, 0xff];
    let masks: [u64; 3] = [0x9e, 0x01, 0x37];
    let mask_bits = bits_of(&masks, 8);
    let public: Vec<u8> = secrets.iter().zip(&masks).map(|(x, r)| (x ^ r) as u8).collect();
    let mut lookup = TableLookup::<u64>::first_level::<Fp, Plain>(&Plain, mask_bits, &public).expect("the first level");
    for _ in 1..8 {
        let (x, y) = match lookup.request::<Fp, Plain>(&Plain).expect("a round") {
            Request::Multiply { x, y } => (x, y),
            _ => panic!("a lookup level multiplies"),
        };
        let scaled: Vec<u64> = x.iter().zip(&y).map(|(a, b)| a * b % P).collect();
        lookup.absorb::<Fp, Plain>(&Plain, &scaled).expect("the next level");
    }
    let bytes = lookup.finish();
    let expected: Vec<u64> = secrets.iter().map(|x| AES_SBOX[*x as usize] as u64).collect();
    assert_eq!(bytes, expected);
    assert_eq!(bytes, vec![0x63, 0xed, 0x16]);
}

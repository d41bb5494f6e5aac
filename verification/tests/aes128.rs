use tightbeam_ext::vm::builder::ProgramBuilder;
use tightbeam_ext::vm::circuits::{encrypt_block, encrypt_block_boolean, BLOCK_LEN};
use tightbeam_ext::vm::error::{ValidationError, VmError};
use tightbeam_ext::vm::isa::ClientId;
use tightbeam_ext::vm::validate::MAX_INSTRUCTIONS;

const CLIENT: ClientId = 100;

/// Build one AES block program and report what validation answers.
fn built(boolean: bool) -> Result<usize, VmError> {
    let mut builder = ProgramBuilder::default();
    let inputs = builder.input_bytes(CLIENT, BLOCK_LEN * 2);
    let key = inputs.slice(0, BLOCK_LEN);
    let block = inputs.slice(BLOCK_LEN, BLOCK_LEN);
    let ciphertext = if boolean {
        encrypt_block_boolean(&mut builder, key, block)
    } else {
        encrypt_block(&mut builder, key, block)
    };
    assert_eq!(ciphertext.len(), BLOCK_LEN);
    builder.output(CLIENT, ciphertext);
    builder.build().map(|valid| valid.program().instructions.len())
}

#[test]
fn a_table_aes_block_outgrows_the_instruction_ceiling() {
    match built(false) {
        Err(VmError::Validation(ValidationError::TooManyInstructions { count, max })) => {
            assert!(count > MAX_INSTRUCTIONS);
            assert_eq!(max, MAX_INSTRUCTIONS);
        }
        other => panic!("expected the instruction ceiling, got {other:?}"),
    }
}

#[test]
fn a_boolean_aes_block_outgrows_the_instruction_ceiling() {
    match built(true) {
        Err(VmError::Validation(ValidationError::TooManyInstructions { count, max })) => {
            assert!(count > MAX_INSTRUCTIONS);
            assert_eq!(max, MAX_INSTRUCTIONS);
        }
        other => panic!("expected the instruction ceiling, got {other:?}"),
    }
}

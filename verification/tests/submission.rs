use tightbeam_ext::vm::builder::ProgramBuilder;
use tightbeam_ext::vm::codec::{digest, ProgramDigest};
use tightbeam_ext::vm::control::ControlMessage;
use tightbeam_ext::vm::error::VmError;
use tightbeam_ext::vm::submission::{answer_submission, submission_from, EchoTally};
use tightbeam_ext::vm::validate::ValidProgram;

fn sample() -> ValidProgram {
    let mut builder = ProgramBuilder::default();
    let x = builder.input(100, 2);
    let y = builder.mul(x, x);
    builder.output(100, y);
    builder.build().expect("the program validates")
}

fn echo(digest: ProgramDigest, accept: bool) -> Vec<u8> {
    ControlMessage::Echo { digest, accept }.encode().expect("the echo encodes")
}

#[test]
fn only_consumers_submit() {
    let program = sample();
    let submit = ControlMessage::Submit { program: program.bytes().to_vec() }.encode().expect("the submission encodes");
    assert_eq!(submission_from(1, 3, &submit), None);
    assert_eq!(submission_from(7, 3, &submit), Some(program.bytes().to_vec()));
    assert_eq!(submission_from(7, 3, &echo(program.digest(), true)), None);
    assert_eq!(submission_from(7, 3, &[0xff, 0x00]), None);
}

#[test]
fn a_party_echoes_the_digest_of_what_it_received() {
    let program = sample();
    let (verdict, answer) = answer_submission(program.bytes());
    assert!(verdict.is_ok());
    assert_eq!(answer, ControlMessage::Echo { digest: digest(program.bytes()), accept: true });

    let garbage = [0x30, 0x03, 0x02, 0x01, 0x09];
    let (verdict, answer) = answer_submission(&garbage);
    assert!(verdict.is_err());
    assert_eq!(answer, ControlMessage::Echo { digest: digest(&garbage), accept: false });
}

#[test]
fn the_tally_completes_once_every_party_confirmed() {
    let program = sample();
    let expected = program.digest();
    let mut tally = EchoTally::new(2);
    assert!(!tally.complete());
    assert!(tally.observe(0, &echo(expected, true), &expected).is_ok());
    assert!(!tally.complete());
    assert!(tally.observe(5, &echo(expected, false), &expected).is_ok());
    assert!(tally.observe(1, &[0x01], &expected).is_ok());
    assert!(!tally.complete());
    assert!(tally.observe(1, &echo(expected, true), &expected).is_ok());
    assert!(tally.complete());
}

#[test]
fn a_refusal_or_a_foreign_digest_fails_the_submission() {
    let program = sample();
    let expected = program.digest();
    let mut tally = EchoTally::new(3);
    assert_eq!(tally.observe(2, &echo(expected, false), &expected), Err(VmError::Rejected { party: 2 }));
    let other = ProgramDigest([7; 32]);
    assert_eq!(tally.observe(1, &echo(other, true), &expected), Err(VmError::DigestMismatch { party: 1 }));
    assert!(!tally.complete());
}

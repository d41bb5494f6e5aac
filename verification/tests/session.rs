use tightbeam_ext::mpc::session::{Phase, Round, RoundError, RoundMachine};
use tightbeam_ext::mpc::trace::TraceEvent;

#[test]
fn rounds_name_themselves() {
    assert_eq!(Round::Idle.name(), "idle");
    assert_eq!(Round::Ready.name(), "ready");
    assert_eq!(Round::Finished.name(), "finished");
}

#[test]
fn phases_run_in_lifecycle_order() {
    let mut machine = RoundMachine::new();
    for (phase, running, landing) in [
        (Phase::Preprocess, Round::Preprocessing, Round::Ready),
        (Phase::Collect, Round::Input, Round::Input),
        (Phase::Compute, Round::Computing, Round::Computing),
        (Phase::Output, Round::Output, Round::Finished),
    ] {
        machine.begin(phase, true).expect("the phase begins");
        assert_eq!(machine.round(), running);
        machine.settle(phase, true, true).expect("the phase settles");
        assert_eq!(machine.round(), landing);
    }
}

#[test]
fn collect_input_before_preprocess_is_refused() {
    let mut machine = RoundMachine::new();
    let outcome = machine.begin(Phase::Collect, true);
    assert_eq!(outcome, Err(RoundError::WrongRound { current: Round::Idle, required: Round::Ready }));
    assert_eq!(machine.round(), Round::Idle);
}

#[test]
fn failures_rewind_to_where_the_phase_began() {
    let mut machine = RoundMachine::new();
    machine.begin(Phase::Preprocess, true).expect("the phase begins");
    assert_eq!(machine.settle(Phase::Preprocess, false, true), Err(RoundError::Failed));
    assert_eq!(machine.round(), Round::Idle);
    machine.begin(Phase::Preprocess, true).expect("the phase begins again");
    assert_eq!(machine.settle(Phase::Preprocess, true, false), Err(RoundError::TraceFault));
    assert_eq!(machine.round(), Round::Idle);
}

#[test]
fn trace_faults_on_entry_leave_the_round_untouched() {
    let mut machine = RoundMachine::new();
    assert_eq!(machine.begin(Phase::Preprocess, false), Err(RoundError::TraceFault));
    assert_eq!(machine.round(), Round::Idle);
}

#[test]
fn trace_events_carry_their_label_and_namespace() {
    let event = TraceEvent::new("phase", "mpc:event/phase");
    assert_eq!(event.label(), "phase");
    assert_eq!(event.nss(), "mpc:event/phase");
}

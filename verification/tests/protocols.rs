use cpfuzz::compare_status;
use cpfuzz::interactive_status;
use cpfuzz::single_status;
use cpfuzz::tokens_equal;
use cpfuzz::verifier_input;
use cpfuzz::verify_status;
use cpfuzz::Args;
use cpfuzz::ContextState;
use cpfuzz::Language;
use cpfuzz::Runner;
use cpfuzz::Status;

fn args_with(
    interactive: Option<&str>,
    compare: Option<&str>,
    verify: Option<&str>,
) -> Args {
    Args {
        language: Language::Cpp,
        name: "problem".to_string(),
        specification: "spec".to_string(),
        generate: false,
        interactive: interactive.map(str::to_string),
        compare: compare.map(str::to_string),
        verify: verify.map(str::to_string),
    }
}

#[test]
fn whitespace_formatting_is_ignored() {
    let a = b"1 2 3".to_vec();
    let b = b"1\n2\n3\n".to_vec();
    assert!(tokens_equal(&a, &b));
    assert_eq!(compare_status(true, true, &a, &b), Status::Passed);
}

#[test]
fn token_values_are_not_ignored() {
    let a = b"1 2 3".to_vec();
    let b = b"1 2 4".to_vec();
    assert!(!tokens_equal(&a, &b));
    assert_eq!(compare_status(true, true, &a, &b), Status::DifferentOutputs);
}

#[test]
fn identical_outputs_never_differ() {
    let out = b"  7\t8\r\n9 ".to_vec();
    assert_eq!(compare_status(true, true, &out, &out), Status::Passed);
}

#[test]
fn compare_failure_precedence() {
    let a = b"1".to_vec();
    let b = b"2".to_vec();
    assert_eq!(compare_status(false, true, &a, &b), Status::PrimaryFailed);
    assert_eq!(compare_status(true, false, &a, &b), Status::SecondaryFailed);
    assert_eq!(compare_status(false, false, &a, &b), Status::PrimaryFailed);
}

#[test]
fn verifier_sees_input_newline_output() {
    let r = verifier_input(&b"5\n".to_vec(), &b"42".to_vec());
    assert_eq!(r, b"5\n\n42".to_vec());
}

#[test]
fn single_run_statuses() {
    assert_eq!(single_status(true), Status::Passed);
    assert_eq!(single_status(false), Status::Failed);
    assert!(single_status(false).failed());
    assert!(!single_status(true).failed());
}

#[test]
fn interactive_needs_both_exits() {
    assert_eq!(interactive_status(true, true), Status::Passed);
    assert_eq!(interactive_status(true, false), Status::Failed);
    assert_eq!(interactive_status(false, true), Status::Failed);
    assert_eq!(interactive_status(false, false), Status::Failed);
}

#[test]
fn verify_statuses() {
    assert_eq!(verify_status(false, true), Status::Failed);
    assert_eq!(verify_status(false, false), Status::Failed);
    assert_eq!(verify_status(true, true), Status::Passed);
    assert_eq!(verify_status(true, false), Status::VerifierFailed);
}

#[test]
fn status_reports() {
    assert_eq!(Status::Passed.report(), "");
    assert_eq!(Status::Failed.report(), "Exited with non-zero exit code");
    assert_eq!(Status::PrimaryFailed.report(), "Primary exited with non-zero exit code");
    assert_eq!(Status::SecondaryFailed.report(), "Secondary exited with non-zero exit code");
    assert_eq!(Status::VerifierFailed.report(), "Verifier rejected the output");
    assert_eq!(Status::DifferentOutputs.report(), "Different outputs");
}

#[test]
fn runner_picks_single() {
    let r = Runner::new(&args_with(None, None, None));
    assert!(matches!(r, Runner::Single { problem } if problem == "problem"));
}

#[test]
fn runner_picks_interactive_first() {
    let r = Runner::new(&args_with(Some("it"), Some("cmp"), Some("vrf")));
    assert!(matches!(
        r,
        Runner::Interactive { problem, interactor }
            if problem == "problem" && interactor == "it"
    ));
}

#[test]
fn runner_picks_verify_before_compare() {
    let r = Runner::new(&args_with(None, Some("cmp"), Some("vrf")));
    assert!(matches!(
        r,
        Runner::Verify { problem, verifier }
            if problem == "problem" && verifier == "vrf"
    ));
}

#[test]
fn runner_picks_compare() {
    let r = Runner::new(&args_with(None, Some("cmp"), None));
    assert!(matches!(
        r,
        Runner::Compare { primary, secondary }
            if primary == "problem" && secondary == "cmp"
    ));
}

#[test]
fn context_state_accumulates() {
    let mut state = ContextState::new();
    state.push_integer(-3);
    state.new_line();
    state.ascii(&b"hi".to_vec());
    assert_eq!(state.into_stdin(), b"-3 \nhi".to_vec());
}

#[test]
fn context_state_starts_empty() {
    let state = ContextState::new();
    assert_eq!(state.into_stdin(), Vec::<u8>::new());
}

#[test]
fn whitespace_only_outputs_are_equal() {
    let a = Vec::new();
    let b = b" \t\r\n ".to_vec();
    assert!(tokens_equal(&a, &b));
    assert_eq!(compare_status(true, true, &a, &b), Status::Passed);
}

#[test]
fn token_count_mismatch_differs() {
    let a = b"1 2".to_vec();
    let b = b"1 2 3".to_vec();
    assert!(!tokens_equal(&a, &b));
    assert_eq!(compare_status(true, true, &a, &b), Status::DifferentOutputs);
}

#[test]
fn verifier_input_of_empty_output() {
    let r = verifier_input(&b"in".to_vec(), &Vec::new());
    assert_eq!(r, b"in\n".to_vec());
}

use oscwrap::supervisor::TermAction;
use oscwrap::supervisor::termination_actions;
use oscwrap::supervisor::exit_code_from_status;
use oscwrap::supervisor::prepare_forward_line;
use oscwrap::supervisor::track_output_char;
use oscwrap::supervisor::GRACE_MS;

#[test]
fn observed_signal_escalates_graceful_then_forced() {
    let acts = termination_actions(true);
    assert_eq!(
        acts,
        vec![TermAction::Graceful, TermAction::WaitGrace, TermAction::Forced]
    );
}

#[test]
fn no_signal_means_no_action() {
    assert!(termination_actions(false).is_empty());
}

#[test]
fn grace_interval_is_half_a_second() {
    assert_eq!(GRACE_MS, 500);
}

#[test]
fn exit_code_prefers_child_status() {
    assert_eq!(exit_code_from_status(Some(0)), 0);
    assert_eq!(exit_code_from_status(Some(3)), 3);
}

#[test]
fn exit_code_falls_back_to_one() {
    assert_eq!(exit_code_from_status(None), 1);
}

#[test]
fn forward_line_trims_trailing_newline() {
    assert_eq!(prepare_forward_line("hello\n"), "hello\n");
    assert_eq!(prepare_forward_line("hello"), "hello\n");
    assert_eq!(prepare_forward_line("\n"), "\n");
    assert_eq!(prepare_forward_line(""), "\n");
}

#[test]
fn prompt_is_detected_on_prompt_like_line_end() {
    let mut line = String::new();
    let mut prompt = String::new();
    for c in "repl> ".chars() {
        track_output_char(&mut line, &mut prompt, c);
    }
    assert_eq!(prompt, "repl>");
    assert_eq!(line, "repl> ");
}

#[test]
fn newline_resets_current_line_but_keeps_prompt() {
    let mut line = String::new();
    let mut prompt = String::new();
    for c in "ok$".chars() {
        track_output_char(&mut line, &mut prompt, c);
    }
    track_output_char(&mut line, &mut prompt, '\n');
    assert_eq!(line, "");
    assert_eq!(prompt, "ok$");
}

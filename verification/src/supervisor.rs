//! The decision side of the subprocess supervisor: preparing forwarded
//! lines, tracking the child's unterminated output line as a detected
//! prompt, the graceful-then-forced termination policy, and the mapping
//! from the child's exit status to the program's exit code.

use vstd::prelude::*;
use vstd::string::StringExecFns;
use vstd::string::StrSliceExecFns;
use crate::render::push_char;

verus! {

/// The grace interval, in milliseconds, between the graceful and the forced
/// termination request.
pub const GRACE_MS: u64 = 500;

/// One step of the termination escalation.
#[derive(PartialEq, Eq, Structural, Clone, Copy, Debug)]
pub enum TermAction {
    /// Send the graceful termination request to the child.
    Graceful,
    /// Wait out the grace interval.
    WaitGrace,
    /// Send the forced termination request, unconditionally.
    Forced,
}

/// The escalation the supervisor runs when the termination flag is observed
/// set: a graceful request, the grace interval, then a forced request. An
/// unset flag asks for nothing; the flag is cleared by the caller after
/// handling, so later signals re-trigger the same escalation.
pub fn termination_actions(signal_observed: bool) -> (acts: Vec<TermAction>)
    ensures
        signal_observed ==> acts@ == seq![
            TermAction::Graceful,
            TermAction::WaitGrace,
            TermAction::Forced,
        ],
        !signal_observed ==> acts@.len() == 0,
{
    let mut acts: Vec<TermAction> = Vec::new();
    if signal_observed {
        acts.push(TermAction::Graceful);
        acts.push(TermAction::WaitGrace);
        acts.push(TermAction::Forced);
        proof {
            assert(acts@ =~= seq![TermAction::Graceful, TermAction::WaitGrace, TermAction::Forced]);
        }
    }
    acts
}

/// The program's exit code: the child's own status code, or the fallback
/// failure code when the child left none (it died of a signal).
pub fn exit_code_from_status(code: Option<i32>) -> (r: i32)
    ensures
        r == match code {
            Option::Some(c) => c,
            Option::None => 1,
        },
{
    match code {
        Some(c) => c,
        None => 1,
    }
}

/// Whether a character makes the line before it look like a prompt.
pub open spec fn is_prompt_char(c: char) -> bool {
    c == '>' || c == ':' || c == '$'
}

/// Feeds one character of child output into the prompt tracker: a newline
/// resets the unterminated line; any other character extends it, and when
/// it is prompt-like the whole line so far is recorded as the detected
/// prompt. The detected state is advisory and drives no behavior.
pub fn track_output_char(current_line: &mut String, prompt: &mut String, ch: char)
    ensures
        ch == '\n' ==> final(current_line)@ == Seq::<char>::empty() && final(prompt)@ == old(
            prompt,
        )@,
        ch != '\n' ==> final(current_line)@ == old(current_line)@ + seq![ch],
        ch != '\n' && is_prompt_char(ch) ==> final(prompt)@ == old(current_line)@ + seq![ch],
        ch != '\n' && !is_prompt_char(ch) ==> final(prompt)@ == old(prompt)@,
{
    if ch == '\n' {
        *current_line = String::new();
    } else {
        push_char(current_line, ch);
        if ch == '>' || ch == ':' || ch == '$' {
            *prompt = current_line.clone();
        }
    }
}

/// The text with one trailing newline removed, if it ends in one.
pub open spec fn chomp(s: Seq<char>) -> Seq<char> {
    if s.len() > 0 && s.last() == '\n' {
        s.drop_last()
    } else {
        s
    }
}

/// Prepares one line of operator input for the child: the trailing newline
/// is trimmed and a single newline is appended, so the child always sees
/// exactly one newline-terminated line.
pub fn prepare_forward_line(input: &str) -> (line: String)
    ensures
        line@ == chomp(input@) + seq!['\n'],
{
    let n = input.unicode_len();
    let mut line: String;
    if n > 0 && input.get_char(n - 1) == '\n' {
        line = String::from_str(input.substring_char(0, n - 1));
        proof {
            assert(line@ =~= chomp(input@));
        }
    } else {
        line = String::from_str(input);
    }
    push_char(&mut line, '\n');
    line
}

} // verus!

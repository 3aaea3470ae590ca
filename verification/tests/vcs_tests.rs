use gitdesk::vcs::{conclude, push_args, vcs_program, CommitMachine, RunOutcome};

fn completed(exit_ok: bool, stdout: &str, stderr: &str) -> RunOutcome {
    RunOutcome::Completed {
        exit_ok,
        stdout: stdout.to_string(),
        stderr: stderr.to_string(),
    }
}

fn result_of(m: CommitMachine) -> Result<String, String> {
    match m {
        CommitMachine::Complete { result } => result,
        _ => panic!("session is not complete"),
    }
}

#[test]
fn fresh_session_asks_to_stage_everything() {
    let m = CommitMachine::begin("msg".to_string());
    let args = m.pending_command().expect("a command is pending");
    assert_eq!(args, vec!["add".to_string(), ".".to_string()]);
}

#[test]
fn successful_stage_asks_to_commit_with_message() {
    let m = CommitMachine::begin("test".to_string());
    let m = m.advance(completed(true, "", ""));
    let args = m.pending_command().expect("a command is pending");
    assert_eq!(
        args,
        vec!["commit".to_string(), "-m".to_string(), "test".to_string()]
    );
}

#[test]
fn stage_failure_ends_session_with_nonempty_stderr_payload() {
    let stderr = "fatal: not a git repository (or any of the parent directories): .git\n";
    let m = CommitMachine::begin("test".to_string());
    let m = m.advance(completed(false, "", stderr));
    assert!(m.pending_command().is_none());
    let result = result_of(m);
    assert_eq!(result, Err(stderr.to_string()));
    assert!(!result.unwrap_err().is_empty());
}

#[test]
fn stage_failure_never_asks_for_the_commit_command() {
    let m = CommitMachine::begin("test".to_string());
    let m = m.advance(completed(false, "", "error: unable to index file\n"));
    assert!(m.pending_command().is_none());
}

#[test]
fn launch_failure_ends_session_with_spawn_error() {
    let m = CommitMachine::begin("test".to_string());
    let m = m.advance(RunOutcome::LaunchFailed {
        error: "No such file or directory (os error 2)".to_string(),
    });
    assert!(m.pending_command().is_none());
    assert_eq!(
        result_of(m),
        Err("No such file or directory (os error 2)".to_string())
    );
}

#[test]
fn successful_stage_and_commit_return_commit_stdout() {
    let stdout = "[main 1a2b3c4] test\n 1 file changed, 1 insertion(+)\n";
    let m = CommitMachine::begin("test".to_string());
    let m = m.advance(completed(true, "", ""));
    let m = m.advance(completed(true, stdout, ""));
    assert!(m.pending_command().is_none());
    assert_eq!(result_of(m), Ok(stdout.to_string()));
}

#[test]
fn commit_failure_returns_commit_stderr() {
    let stderr = "error: gpg failed to sign the data\n";
    let m = CommitMachine::begin("test".to_string());
    let m = m.advance(completed(true, "", ""));
    let m = m.advance(completed(false, "ignored stdout", stderr));
    assert_eq!(result_of(m), Err(stderr.to_string()));
}

#[test]
fn push_uses_the_fixed_argument_form() {
    assert_eq!(push_args(), vec!["push".to_string()]);
    assert_eq!(vcs_program(), "git".to_string());
}

#[test]
fn conclude_returns_stdout_on_success() {
    let r = conclude(completed(true, "Everything up-to-date\n", ""));
    assert_eq!(r, Ok("Everything up-to-date\n".to_string()));
}

#[test]
fn conclude_returns_stderr_on_failure() {
    let r = conclude(completed(false, "", "fatal: no configured push destination\n"));
    assert_eq!(r, Err("fatal: no configured push destination\n".to_string()));
}

#[test]
fn conclude_returns_spawn_error_when_not_launched() {
    let r = conclude(RunOutcome::LaunchFailed {
        error: "permission denied".to_string(),
    });
    assert_eq!(r, Err("permission denied".to_string()));
}

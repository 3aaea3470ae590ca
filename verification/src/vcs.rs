use vstd::prelude::*;

verus! {

/// What one run of the external version-control tool produced, as plain
/// values: either the process completed with an exit status and its captured
/// output streams, or it could not be launched at all.
pub enum RunOutcome {
    Completed { exit_ok: bool, stdout: String, stderr: String },
    LaunchFailed { error: String },
}

/// A run succeeded only when the process was launched and exited with status
/// zero.
pub open spec fn outcome_ok(o: RunOutcome) -> bool {
    match o {
        RunOutcome::Completed { exit_ok, .. } => exit_ok,
        RunOutcome::LaunchFailed { .. } => false,
    }
}

/// The error payload of a failed run: the captured standard error of a
/// completed process, or the launch error's description.
pub open spec fn failure_payload(o: RunOutcome) -> String {
    match o {
        RunOutcome::Completed { stderr, .. } => stderr,
        RunOutcome::LaunchFailed { error } => error,
    }
}

/// The success payload of a run: the captured standard output.
pub open spec fn success_payload(o: RunOutcome) -> String {
    match o {
        RunOutcome::Completed { stdout, .. } => stdout,
        RunOutcome::LaunchFailed { error } => error,
    }
}

/// The stage-then-commit session: first stage all changes, then, only if
/// staging succeeded, commit them with the recorded message.
pub enum CommitMachine {
    Staging { message: String },
    Committing { message: String },
    Complete { result: Result<String, String> },
}

/// How the session advances on the outcome of the command it asked for:
/// a failed step ends it at once with that step's error text; a successful
/// stage moves on to the commit; a successful commit ends it with the
/// commit's standard output.
pub open spec fn commit_step(m: CommitMachine, o: RunOutcome) -> CommitMachine {
    match m {
        CommitMachine::Staging { message } => if outcome_ok(o) {
            CommitMachine::Committing { message }
        } else {
            CommitMachine::Complete { result: Err(failure_payload(o)) }
        },
        CommitMachine::Committing { .. } => if outcome_ok(o) {
            CommitMachine::Complete { result: Ok(success_payload(o)) }
        } else {
            CommitMachine::Complete { result: Err(failure_payload(o)) }
        },
        CommitMachine::Complete { .. } => m,
    }
}

/// The argument list of the command the session waits for next, if any:
/// stage all changes while staging, commit with the recorded message while
/// committing, nothing once complete.
pub open spec fn pending_spec(m: CommitMachine) -> Option<Seq<Seq<char>>> {
    match m {
        CommitMachine::Staging { .. } => Some(seq!["add"@, "."@]),
        CommitMachine::Committing { message } => Some(seq!["commit"@, "-m"@, message@]),
        CommitMachine::Complete { .. } => None,
    }
}

impl CommitMachine {
    /// A fresh session that will stage first, then commit with `message`.
    pub fn begin(message: String) -> (m: Self)
        ensures
            m == (CommitMachine::Staging { message }),
    {
        CommitMachine::Staging { message }
    }

    /// The argument list of the command to run next, or nothing once the
    /// session is complete.
    pub fn pending_command(&self) -> (r: Option<Vec<String>>)
        ensures
            r is Some <==> pending_spec(*self) is Some,
            r is Some ==> r.unwrap().deep_view() == pending_spec(*self).unwrap(),
    {
        match self {
            CommitMachine::Staging { .. } => {
                let mut v: Vec<String> = Vec::new();
                v.push("add".to_owned());
                v.push(".".to_owned());
                proof {
                    assert(v.deep_view() =~= seq!["add"@, "."@]);
                }
                Some(v)
            },
            CommitMachine::Committing { message } => {
                let mut v: Vec<String> = Vec::new();
                v.push("commit".to_owned());
                v.push("-m".to_owned());
                v.push(message.clone());
                proof {
                    assert(v.deep_view() =~= seq!["commit"@, "-m"@, message@]);
                }
                Some(v)
            },
            CommitMachine::Complete { .. } => None,
        }
    }

    /// Feeds the session the outcome of the command it asked for.
    pub fn advance(self, outcome: RunOutcome) -> (next: Self)
        ensures
            next == commit_step(self, outcome),
    {
        match self {
            CommitMachine::Staging { message } => match outcome {
                RunOutcome::Completed { exit_ok, stdout: _, stderr } => {
                    if exit_ok {
                        CommitMachine::Committing { message }
                    } else {
                        CommitMachine::Complete { result: Err(stderr) }
                    }
                },
                RunOutcome::LaunchFailed { error } => {
                    CommitMachine::Complete { result: Err(error) }
                },
            },
            CommitMachine::Committing { message: _ } => match outcome {
                RunOutcome::Completed { exit_ok, stdout, stderr } => {
                    if exit_ok {
                        CommitMachine::Complete { result: Ok(stdout) }
                    } else {
                        CommitMachine::Complete { result: Err(stderr) }
                    }
                },
                RunOutcome::LaunchFailed { error } => {
                    CommitMachine::Complete { result: Err(error) }
                },
            },
            CommitMachine::Complete { result } => CommitMachine::Complete { result },
        }
    }
}

/// The name of the external version-control program every command runs.
pub fn vcs_program() -> (r: String)
    ensures
        r@ == "git"@,
{
    "git".to_owned()
}

/// The argument list of the push command.
pub fn push_args() -> (r: Vec<String>)
    ensures
        r.deep_view() == seq!["push"@],
{
    let mut v: Vec<String> = Vec::new();
    v.push("push".to_owned());
    proof {
        assert(v.deep_view() =~= seq!["push"@]);
    }
    v
}

/// The result of a single-command run such as push: the captured standard
/// output on success, the captured standard error or launch error on failure.
pub fn conclude(outcome: RunOutcome) -> (r: Result<String, String>)
    ensures
        outcome_ok(outcome) ==> r == Ok::<String, String>(success_payload(outcome)),
        !outcome_ok(outcome) ==> r == Err::<String, String>(failure_payload(outcome)),
{
    match outcome {
        RunOutcome::Completed { exit_ok, stdout, stderr } => {
            if exit_ok {
                Ok(stdout)
            } else {
                Err(stderr)
            }
        },
        RunOutcome::LaunchFailed { error } => Err(error),
    }
}

/// A session whose staging step fails is complete at once, reports that
/// step's error text, and never asks for the commit command.
pub proof fn lemma_stage_failure_skips_commit(m: CommitMachine, o: RunOutcome)
    requires
        m is Staging,
        !outcome_ok(o),
    ensures
        commit_step(m, o) == (CommitMachine::Complete { result: Err::<String, String>(
            failure_payload(o),
        ) }),
        pending_spec(commit_step(m, o)) is None,
{
}

/// A session whose staging and commit steps both succeed is complete after
/// exactly those two steps and reports the commit's standard output.
pub proof fn lemma_commit_success(m: CommitMachine, stage: RunOutcome, commit: RunOutcome)
    requires
        m is Staging,
        outcome_ok(stage),
        outcome_ok(commit),
    ensures
        commit_step(m, stage) is Committing,
        commit_step(commit_step(m, stage), commit) == (CommitMachine::Complete { result: Ok::<
            String,
            String,
        >(success_payload(commit)) }),
{
}

/// A session that fails at either step reports exactly the failing step's
/// error text.
pub proof fn lemma_commit_failure_payload(m: CommitMachine, o: RunOutcome)
    requires
        m is Staging || m is Committing,
        !outcome_ok(o),
    ensures
        commit_step(m, o) == (CommitMachine::Complete { result: Err::<String, String>(
            failure_payload(o),
        ) }),
{
}

} // verus!

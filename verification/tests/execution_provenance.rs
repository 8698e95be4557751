use kloop_core::execution_provenance::encoded_update;
use kloop_core::execution_provenance::ensure_bounded;
use kloop_core::execution_provenance::persisted_attempt_sequences;
use kloop_core::execution_provenance::update_provenance_history;
use kloop_core::execution_provenance::AdmissionAuthority;
use kloop_core::execution_provenance::AdmissionOrigin;
use kloop_core::execution_provenance::AgentExecutionId;
use kloop_core::execution_provenance::BackgroundShellId;
use kloop_core::execution_provenance::DeliveryRoute;
use kloop_core::execution_provenance::DurableExecutionId;
use kloop_core::execution_provenance::ExecutionKind;
use kloop_core::execution_provenance::ExecutionProvenanceReceipt;
use kloop_core::execution_provenance::ExistingHistory;
use kloop_core::execution_provenance::HistoryPlan;
use kloop_core::execution_provenance::LineEvidence;
use kloop_core::execution_provenance::LocalAgentId;
use kloop_core::execution_provenance::LocalContextId;
use kloop_core::execution_provenance::MailboxRoute;
use kloop_core::execution_provenance::OpaqueRef;
use kloop_core::execution_provenance::PersistedAttempt;
use kloop_core::execution_provenance::ProgramExecutionId;
use kloop_core::execution_provenance::ProgramRunId;
use kloop_core::execution_provenance::ProvenanceHistory;
use kloop_core::execution_provenance::ProvenanceHistoryUpdate;
use kloop_core::execution_provenance::ResolvedExecutionAdmission;
use kloop_core::execution_provenance::RolloutLineRef;
use kloop_core::execution_provenance::ScopeRef;
use kloop_core::execution_provenance::TerminalOwner;
use kloop_core::execution_provenance::TerminalRoute;
use kloop_core::execution_provenance::TransientExecutionId;
use kloop_core::execution_provenance::WorkflowExecutionId;
use kloop_core::execution_provenance::WorkflowRunId;
use kloop_core::execution_provenance::WorkspaceDisposition;
use kloop_core::execution_provenance::WorkspaceProvenance;
use kloop_core::execution_provenance::MAX_PROVENANCE_ATTEMPTS;
use kloop_core::execution_provenance::MAX_PROVENANCE_HISTORY_BYTES;
use kloop_core::execution_provenance::MAX_RECEIPT_BYTES;
use kloop_core::execution_provenance::PROVENANCE_HISTORY_VERSION;

fn workspace(disposition: WorkspaceDisposition) -> WorkspaceProvenance {
    WorkspaceProvenance::capture(None, format!("w1_{}", "ab".repeat(32)), 7, disposition)
}

fn authority(context: &str, caller: LocalAgentId, depth: u8) -> AdmissionAuthority {
    AdmissionAuthority {
        context_id: LocalContextId { text: context.into() },
        caller,
        depth,
    }
}

fn foreground() -> TerminalRoute {
    TerminalRoute {
        owner: TerminalOwner::ForegroundCaller,
        delivery: DeliveryRoute::DirectToolResult,
    }
}

fn agent_mailbox(context: &str, child: &str) -> MailboxRoute {
    MailboxRoute::Agent {
        context_id: LocalContextId { text: context.into() },
        parent: LocalAgentId::Main,
        child: LocalAgentId::Agent(child.into()),
    }
}

fn agent_admission() -> ResolvedExecutionAdmission {
    ResolvedExecutionAdmission {
        session_id: "session-private-name".into(),
        parent: None,
        execution: TransientExecutionId::Agent(AgentExecutionId::parse("agent-7").unwrap()),
        durable: None,
        mailbox: agent_mailbox("local-context-3", "agent-7"),
        authority: authority("local-context-3", LocalAgentId::Main, 0),
        parent_rollout_id: Some("session-private-name#8".into()),
        workspace: workspace(WorkspaceDisposition::IsolatedChild),
        origin: AdmissionOrigin::RunAgent,
        terminal: foreground(),
    }
}

fn agent_receipt() -> ExecutionProvenanceReceipt {
    ExecutionProvenanceReceipt::mint(agent_admission()).unwrap()
}

fn program_receipt(label: &str, run_id: &str) -> ExecutionProvenanceReceipt {
    ExecutionProvenanceReceipt::mint(ResolvedExecutionAdmission {
        execution: TransientExecutionId::Program(ProgramExecutionId::parse(label).unwrap()),
        durable: Some(DurableExecutionId::Program(ProgramRunId::parse(run_id).unwrap())),
        mailbox: MailboxRoute::NotMailboxPeer,
        workspace: workspace(WorkspaceDisposition::Base),
        origin: AdmissionOrigin::Program,
        ..agent_admission()
    })
    .unwrap()
}

fn workflow_receipt(label: &str, run_id: &str) -> ExecutionProvenanceReceipt {
    ExecutionProvenanceReceipt::mint(ResolvedExecutionAdmission {
        execution: TransientExecutionId::Workflow(WorkflowExecutionId::parse(label).unwrap()),
        durable: Some(DurableExecutionId::Workflow(WorkflowRunId::parse(run_id).unwrap())),
        mailbox: MailboxRoute::NotMailboxPeer,
        workspace: workspace(WorkspaceDisposition::Base),
        origin: AdmissionOrigin::Workflow,
        terminal: TerminalRoute {
            owner: TerminalOwner::BackgroundExecutions,
            delivery: DeliveryRoute::ParentInboxBody,
        },
        ..agent_admission()
    })
    .unwrap()
}

/// A receipt as it is found again, in an ordinary size.
fn persisted(receipt: ExecutionProvenanceReceipt) -> PersistedAttempt {
    PersistedAttempt {
        value: vec![b' '; 1_500],
        decoded: Ok(receipt),
        receipt_bytes: 1_500,
    }
}

fn program_history(run_id: &str, attempts: Vec<PersistedAttempt>) -> ExistingHistory {
    ExistingHistory {
        bytes: 100 + 1_500 * attempts.len(),
        decoded: Some(ProvenanceHistory {
            version: PROVENANCE_HISTORY_VERSION,
            durable: DurableExecutionId::Program(ProgramRunId::parse(run_id).unwrap()),
            attempts,
        }),
    }
}

#[test]
fn canonical_execution_ids_are_typed_and_strict() {
    assert_eq!(AgentExecutionId::parse("agent-1").unwrap().as_str(), "agent-1");
    assert!(AgentExecutionId::parse("program-1").is_err());
    assert!(AgentExecutionId::parse("agent-0").is_err());
    assert!(ProgramExecutionId::parse("program-01").is_err());
    assert!(WorkflowExecutionId::parse("workflow-x").is_err());
    assert!(BackgroundShellId::parse("bg-2").is_ok());
    assert!(ProgramRunId::parse("run-0-1").is_ok());
    assert!(ProgramRunId::parse("run-1-x").is_err());
    assert!(WorkflowRunId::parse("wf_1-1").is_ok());
    assert!(WorkflowRunId::parse("run-1-1").is_err());
    assert!(ProgramExecutionId::parse("program-0").is_err());
    assert!(ProgramExecutionId::parse("program-x").is_err());
    assert!(WorkflowExecutionId::parse("workflow-0").is_err());
    assert!(ProgramRunId::parse("run-bad-1").is_err());
    assert!(WorkflowRunId::parse("wf_bad-1").is_err());

    assert_eq!(AgentExecutionId::parse("agent-42").unwrap().sequence(), 42);
    assert_eq!(
        BackgroundShellId::parse("bg-18446744073709551615").unwrap().sequence(),
        u64::MAX
    );
    assert!(BackgroundShellId::parse("bg-18446744073709551616").is_err());
    assert!(AgentExecutionId::parse("agent-").is_err());
    assert!(AgentExecutionId::parse("agent-+1").is_err());
}

#[test]
fn receipt_is_bounded_and_omits_free_form_secrets() {
    let receipt = agent_receipt();
    let shown = format!("{receipt:?}");
    assert!(ensure_bounded(shown.len()).is_ok());
    for forbidden in [
        "session-private-name",
        "/private/secret-worktree",
        "secret prompt",
        "secret-branch",
        "endpoint",
        "provider",
        "model",
        "billing",
        "task_id",
    ] {
        assert!(!shown.contains(forbidden), "leaked {forbidden}: {shown}");
    }
}

#[test]
fn an_oversized_receipt_is_refused() {
    assert_eq!(ensure_bounded(MAX_RECEIPT_BYTES), Ok(()));
    assert_eq!(
        ensure_bounded(MAX_RECEIPT_BYTES + 1),
        Err(format!("execution provenance receipt exceeds {MAX_RECEIPT_BYTES} bytes"))
    );
}

#[test]
fn session_and_thread_refs_are_domain_separated() {
    let receipt = agent_receipt();
    assert_ne!(receipt.scope.session, receipt.scope.thread);
}

#[test]
fn a_scope_is_a_digest_or_nothing() {
    let scope = ScopeRef::from_session("s");
    let session = scope.session.unwrap().text;
    assert_eq!(session.len(), 64);
    assert!(session.bytes().all(|b| b.is_ascii_digit() || (b'a'..=b'f').contains(&b)));
    let unbound = ScopeRef::from_session("");
    assert_eq!((unbound.session, unbound.thread), (None, None));
    // The length of the name stands between the two, so no two pairs run together.
    assert_ne!(OpaqueRef::digest("ab", "c"), OpaqueRef::digest("a", "bc"));
}

#[test]
fn non_agents_cannot_claim_mailbox_identity() {
    let result = ExecutionProvenanceReceipt::mint(ResolvedExecutionAdmission {
        session_id: "s".into(),
        execution: TransientExecutionId::Program(ProgramExecutionId::parse("program-1").unwrap()),
        durable: Some(DurableExecutionId::Program(ProgramRunId::parse("run-1-1").unwrap())),
        mailbox: agent_mailbox("local-context-1", "agent-1"),
        authority: authority("local-context-1", LocalAgentId::Main, 0),
        parent_rollout_id: None,
        workspace: workspace(WorkspaceDisposition::Base),
        origin: AdmissionOrigin::Program,
        ..agent_admission()
    });
    assert!(result.is_err());
}

#[test]
fn each_kind_has_its_own_run_origin_and_terminal() {
    let with = |change: fn(&mut ResolvedExecutionAdmission)| {
        let mut admission = agent_admission();
        change(&mut admission);
        ExecutionProvenanceReceipt::mint(admission)
    };
    assert!(with(|_| {}).is_ok());
    assert!(with(|a| {
        a.durable = Some(DurableExecutionId::Program(ProgramRunId::parse("run-1-1").unwrap()))
    })
    .is_err());
    assert!(with(|a| a.mailbox = MailboxRoute::NotMailboxPeer).is_err());
    assert!(with(|a| a.mailbox = agent_mailbox("local-context-3", "agent-8")).is_err());
    assert!(with(|a| a.origin = AdmissionOrigin::BackgroundShell).is_err());
    assert!(with(|a| a.terminal.owner = TerminalOwner::BackgroundShells).is_err());
    assert_eq!(
        with(|a| a.workspace.workspace = "w2_".into()).unwrap_err(),
        "workspace identity has the wrong prefix"
    );
    assert_eq!(
        with(|a| a.workspace.project = Some("p1_x".into())).unwrap_err(),
        "project identity is malformed"
    );
}

#[test]
fn persisted_receipt_revalidates_kind_combinations() {
    let mut receipt = agent_receipt();
    receipt.execution =
        TransientExecutionId::Program(ProgramExecutionId::parse("program-1").unwrap());
    assert!(persisted(receipt).validated().is_err());
    let mut receipt = agent_receipt();
    receipt.version = 9;
    assert_eq!(
        persisted(receipt).validated().unwrap_err(),
        "unsupported execution provenance version 9"
    );
    let whole = persisted(agent_receipt());
    assert_eq!(whole.validated().unwrap(), &agent_receipt());
}

#[test]
fn parent_reference_is_flat() {
    let receipt = program_receipt("program-4", "run-7-1");
    let parent = receipt.as_execution_ref();
    assert_eq!(parent.execution.as_str(), "program-4");
    assert_eq!(parent.durable.as_ref().unwrap().as_str(), "run-7-1");
    let child = ExecutionProvenanceReceipt::mint(ResolvedExecutionAdmission {
        session_id: "s".into(),
        parent: Some(agent_receipt().as_execution_ref()),
        execution: TransientExecutionId::Shell(BackgroundShellId::parse("bg-1").unwrap()),
        durable: None,
        mailbox: MailboxRoute::NotMailboxPeer,
        authority: authority("local-context-3", LocalAgentId::Agent("agent-7".into()), 1),
        parent_rollout_id: Some("s#9".into()),
        workspace: workspace(WorkspaceDisposition::IsolatedChild),
        origin: AdmissionOrigin::BackgroundShell,
        terminal: TerminalRoute {
            owner: TerminalOwner::BackgroundShells,
            delivery: DeliveryRoute::ShellOutputPointer,
        },
    })
    .unwrap();
    // The parent is named by its execution and its run; it has no parent there.
    assert_eq!(child.parent, Some(agent_receipt().as_execution_ref()));
    assert_eq!(child.rollout.subagent_of, LineEvidence::NotApplicable);
    assert_eq!(
        child.rollout.parent_line,
        LineEvidence::Available(RolloutLineRef::parse("s#9").unwrap())
    );
}

#[test]
fn rollout_lines_are_parsed_at_their_last_hash() {
    let line = RolloutLineRef::parse("a#b#12").unwrap();
    assert_eq!(line.sequence, 12);
    assert_ne!(line.session, RolloutLineRef::parse("a#12").unwrap().session);
    assert_eq!(RolloutLineRef::parse("no-number"), None);
    assert_eq!(RolloutLineRef::parse("a#x"), None);
    assert_eq!(RolloutLineRef::parse("#1"), None);
}

/// The history that an update encodes.
fn appended(
    existing: Option<ExistingHistory>,
    receipt: ExecutionProvenanceReceipt,
) -> Option<ProvenanceHistory> {
    match update_provenance_history(existing, receipt, vec![b' '; 1_500]) {
        HistoryPlan::Encode(history) => Some(history),
        HistoryPlan::Preserve => None,
    }
}

fn file(history: ProvenanceHistory) -> ExistingHistory {
    ExistingHistory {
        bytes: 100 + 1_500 * history.attempts.len(),
        decoded: Some(history),
    }
}

#[test]
fn provenance_history_appends_valid_attempts_and_preserves_bad_input() {
    let first = || program_receipt("program-1", "run-7-1");
    let second = || program_receipt("program-2", "run-7-1");
    let first_history = || appended(None, first()).expect("fresh provenance history was not written");
    assert_eq!(first_history().version, PROVENANCE_HISTORY_VERSION);
    assert_eq!(first_history().durable, first().durable.unwrap());
    assert_eq!(first_history().attempts, vec![persisted(first())]);

    let second_history = || {
        appended(Some(file(first_history())), second())
            .expect("valid provenance history was not appended")
    };
    assert_eq!(second_history().attempts.len(), 2);
    assert_eq!(second_history().attempts[0], persisted(first()));
    assert_eq!(second_history().attempts[1], persisted(second()));
    // The same execution is not recorded twice.
    assert_eq!(appended(Some(file(first_history())), first()), None);

    let not_json = ExistingHistory { bytes: 8, decoded: None };
    assert_eq!(appended(Some(not_json), second()), None);
    let next = || program_receipt("program-3", "run-7-1");
    let wrong_run = program_receipt("program-3", "run-8-1");
    assert_eq!(appended(Some(file(second_history())), wrong_run), None);
    assert_eq!(
        persisted_attempt_sequences(Some(&file(second_history())), ExecutionKind::Program),
        Some(vec![1, 2])
    );
    assert_eq!(
        persisted_attempt_sequences(None, ExecutionKind::Program),
        Some(Vec::new())
    );
    assert_eq!(
        persisted_attempt_sequences(Some(&file(second_history())), ExecutionKind::Workflow),
        None
    );

    // An attempt that does not decode spoils the file.
    let malformed = |why: String| PersistedAttempt {
        value: vec![b' '; 1_500],
        decoded: Err(why),
        receipt_bytes: 0,
    };
    let spoiled = |why: String| {
        program_history("run-7-1", vec![malformed(why), persisted(second())])
    };
    let malformed_transient = || spoiled(ProgramExecutionId::parse("program-0").unwrap_err());
    assert_eq!(appended(Some(malformed_transient()), next()), None);
    assert_eq!(
        persisted_attempt_sequences(Some(&malformed_transient()), ExecutionKind::Program),
        None
    );
    let malformed_durable = spoiled(ProgramRunId::parse("run-bad-1").unwrap_err());
    assert_eq!(appended(Some(malformed_durable), next()), None);
    // So does one of another run, and a file that is too large.
    let foreign = program_history(
        "run-7-1",
        vec![persisted(program_receipt("program-1", "run-9-1"))],
    );
    assert_eq!(appended(Some(foreign), next()), None);
    let mut large = program_history("run-7-1", Vec::new());
    large.bytes = MAX_PROVENANCE_HISTORY_BYTES + 1;
    assert_eq!(appended(Some(large), next()), None);
    // An agent belongs to no run.
    assert_eq!(appended(None, agent_receipt()), None);

    let workflow = workflow_receipt("workflow-9", "wf_7-1");
    let workflow_history =
        appended(None, workflow).expect("fresh Workflow provenance history was not written");
    assert_eq!(
        persisted_attempt_sequences(Some(&file(workflow_history)), ExecutionKind::Workflow),
        Some(vec![9])
    );
}

#[test]
fn a_history_over_its_bound_is_not_written() {
    let within = vec![b' '; MAX_PROVENANCE_HISTORY_BYTES];
    assert_eq!(
        encoded_update(Some(within.clone())),
        ProvenanceHistoryUpdate::Write(within)
    );
    assert_eq!(
        encoded_update(Some(vec![b' '; MAX_PROVENANCE_HISTORY_BYTES + 1])),
        ProvenanceHistoryUpdate::Preserve
    );
    assert_eq!(encoded_update(None), ProvenanceHistoryUpdate::Preserve);
}

#[test]
fn provenance_history_stops_at_the_attempt_cap_without_rewriting() {
    let mut written = None;
    for sequence in 1..=MAX_PROVENANCE_ATTEMPTS {
        let receipt = program_receipt(&format!("program-{sequence}"), "run-9-1");
        let history = appended(written, receipt);
        assert!(history.is_some(), "attempt {sequence} was not persisted");
        written = history.map(file);
        assert!(written.as_ref().unwrap().bytes <= MAX_PROVENANCE_HISTORY_BYTES);
    }
    let overflow = program_receipt("program-33", "run-9-1");
    assert_eq!(appended(written, overflow), None);
}

#[test]
fn journal_evidence_names_the_run_that_asked() {
    let child = |parent: &ExecutionProvenanceReceipt| {
        ExecutionProvenanceReceipt::mint(ResolvedExecutionAdmission {
            parent: Some(parent.as_execution_ref()),
            ..agent_admission()
        })
        .unwrap()
    };
    let of_program = child(&program_receipt("program-1", "run-7-1"));
    assert!(of_program.is_agent_journal_evidence(Some("run-7-1")));
    assert!(of_program.is_agent_journal_evidence(None));
    assert!(!of_program.is_agent_journal_evidence(Some("run-8-1")));
    assert!(!child(&agent_receipt()).is_agent_journal_evidence(None));
    assert!(!agent_receipt().is_agent_journal_evidence(None));
}

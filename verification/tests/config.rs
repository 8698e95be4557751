use kloop_core::config::ActiveWorktree;
use kloop_core::config::Config;
use kloop_core::config::ContextBudgetSource;
use kloop_core::config::FreshState;
use kloop_core::config::Handle;
use kloop_core::config::LocalAgent;
use kloop_core::config::SharedServices;
use kloop_core::config::SurfaceCapabilities;
use kloop_core::config::WorkspaceIdentity;
use kloop_core::execution_provenance::LocalAgentId;
use kloop_core::protocol::ProviderApiFamily;
use kloop_core::protocol::ReasoningContinuity;
use kloop_core::routes::FrozenProviderRoute;

fn h(number: u64) -> Handle {
    Handle { number }
}

fn route(id: &str, model: &str) -> FrozenProviderRoute {
    FrozenProviderRoute {
        revision: 1,
        provider_id: id.into(),
        api_family: ProviderApiFamily::Mock,
        endpoint_fingerprint: "endpoint".into(),
        model: model.into(),
        effort: None,
        continuity: ReasoningContinuity::Preserved,
    }
}

fn parent() -> Config {
    Config {
        provider_route: route("test", "mock"),
        system: "parent prompt".into(),
        cwd: "/work".into(),
        project_instructions: Some("parent instructions".into()),
        max_rounds: None,
        offload_dir: "/offload".into(),
        sessions_dir: "/sessions".into(),
        context_window: Some(123_456),
        context_budget: ContextBudgetSource::Pinned,
        identity: WorkspaceIdentity {
            project_id: None,
            workspace_id: "w1_base".into(),
        },
        permissions: h(1),
        questioner: Some(h(2)),
        file_state: h(3),
        tool_sources: vec![h(4), h(5)],
        session_id: "sess-1".into(),
        local_agent: LocalAgent {
            id: LocalAgentId::Main,
            parent: None,
            agent_type: None,
        },
        shared: SharedServices {
            provider_catalog: h(10),
            hooks: h(11),
            background_shells: h(12),
            shell_programs: h(13),
            powershell_execution_gate: h(14),
            agent_types: h(15),
            tasks: h(16),
            scheduler: h(17),
            background_executions: h(18),
            program_limits: h(19),
            skills: h(20),
        },
        sandbox: Some(h(21)),
        tool_allowlist: None,
        defer_threshold: 7,
        unlocked_tools: h(22),
        inbox: h(23),
        worktree_slot: h(24),
        active_worktree: None,
        worktree_epoch: 2,
        surface: SurfaceCapabilities {
            questions: true,
            plan_control: true,
            program: true,
            workflow: true,
            worktree: true,
            scheduler: true,
        },
    }
}

const FRESH: FreshState = FreshState {
    file_state: Handle { number: 103 },
    unlocked_tools: Handle { number: 122 },
    inbox: Handle { number: 123 },
    worktree_slot: Handle { number: 124 },
};

fn child_of(parent: &Config, max_rounds: Option<usize>) -> Config {
    parent.subagent_from(
        &parent.effective_workspace(),
        max_rounds,
        LocalAgentId::Agent("agent-7".into()),
        route("test", "mock"),
        FRESH,
    )
}

#[test]
fn subagent_gets_fresh_agent_local_state() {
    let parent = parent();
    let child = child_of(&parent, None);
    assert_ne!(parent.file_state, child.file_state);
    assert_ne!(parent.unlocked_tools, child.unlocked_tools);
    assert_ne!(parent.inbox, child.inbox);
    assert_ne!(parent.worktree_slot, child.worktree_slot);
}

#[test]
fn subagent_resets_its_own_identity_and_surface() {
    let parent = parent();
    let workspace = parent.effective_workspace();
    let child = child_of(&parent, Some(3));
    assert_eq!(child.session_id, "sess-1-agent-7");
    assert_eq!(child.agent_label(), "agent-7");
    assert_eq!(child.parent_agent_id(), Some(parent.agent_id()));
    assert_eq!(child.max_rounds, Some(3));
    assert!(child.questioner.is_none());
    assert_eq!(child.surface, SurfaceCapabilities::default());
    assert_ne!(parent.surface, SurfaceCapabilities::default());
    assert_eq!(child.system, workspace.system);
    assert_eq!(child.cwd, workspace.cwd);
    assert_eq!(child.permissions, workspace.permissions);
    assert_eq!(child.sandbox, workspace.sandbox);
    assert_eq!(child.provider_route.model, "mock");
    assert_eq!(child.agent_type(), None);
    assert_eq!(parent.agent_label(), "");
}

#[test]
fn subagent_of_an_unbound_session_stays_unbound() {
    let mut parent = parent();
    parent.session_id = String::new();
    let child = child_of(&parent, None);
    assert_eq!(child.session_id, "");
    assert_eq!(child.cache_key(), None);
}

#[test]
fn subagent_inherits_every_shared_service_and_setting() {
    let parent = parent();
    let child = child_of(&parent, None);
    assert_eq!(child.shared, parent.shared);
    assert_eq!(child.permissions, parent.permissions);
    assert_eq!(child.project_instructions, parent.project_instructions);
    assert_eq!(child.offload_dir, parent.offload_dir);
    assert_eq!(child.sessions_dir, parent.sessions_dir);
    assert_eq!(child.context_window, parent.context_window);
    assert_eq!(child.defer_threshold, parent.defer_threshold);
    assert_eq!(child.tool_allowlist, parent.tool_allowlist);
    assert_eq!(child.tool_sources.len(), parent.tool_sources.len());
}

#[test]
fn provider_route_clone_changes_only_the_route() {
    let cfg = parent();
    let swapped = cfg.clone_with_provider_route(route("test", "mock"), Some(1));
    assert_eq!(swapped, cfg);
    let moved = cfg.clone_with_provider_route(route("other", "m"), None);
    assert_eq!(moved.file_state, cfg.file_state);
    assert_eq!(moved.inbox, cfg.inbox);
    assert_eq!(moved.unlocked_tools, cfg.unlocked_tools);
    assert_eq!(moved.worktree_slot, cfg.worktree_slot);
    assert_eq!(moved.session_id, cfg.session_id);
    assert_eq!(moved.surface, cfg.surface);
    assert!(moved.questioner.is_some());
    assert_eq!(moved.provider_route, route("other", "m"));
}

#[test]
fn switching_provider_re_derives_the_budget_unless_the_env_pinned_it() {
    let mut cfg = parent();
    cfg.context_budget = ContextBudgetSource::Catalog {
        fallback: Some(200_000),
    };
    cfg.context_window = Some(400_000);
    let narrow = |cfg: &Config| {
        cfg.clone_with_provider_route(route("narrow", "narrow-model"), Some(258_400))
            .context_window
    };
    assert_eq!(narrow(&cfg), Some(258_400));
    assert_eq!(
        cfg.clone_with_provider_route(route("bare", "bare-model"), None)
            .context_window,
        Some(200_000)
    );
    cfg.context_budget = ContextBudgetSource::Pinned;
    assert_eq!(narrow(&cfg), Some(400_000));
}

#[test]
fn an_entered_worktree_is_the_workspace_in_effect() {
    let mut cfg = parent();
    assert_eq!(cfg.effective_workspace(), cfg.base_workspace());
    cfg.active_worktree = Some(ActiveWorktree {
        identity: WorkspaceIdentity {
            project_id: Some("p1_x".into()),
            workspace_id: "w1_tree".into(),
        },
        cwd: "/tree".into(),
        permissions: h(31),
        file_state: h(33),
        sandbox: None,
        system: "tree prompt".into(),
        branch: "feature".into(),
    });
    let workspace = cfg.effective_workspace();
    assert_eq!(workspace.branch.as_deref(), Some("feature"));
    assert_eq!(workspace.workspace_epoch, 2);
    assert_eq!(cfg.base_workspace().cwd, "/work");
    assert_eq!(cfg.effective_cwd(), "/tree");
    assert_eq!(cfg.effective_permissions(), h(31));
    assert_eq!(cfg.effective_file_state(), h(33));
    assert_eq!(cfg.effective_sandbox(), None);
    assert_eq!(cfg.effective_system(), "tree prompt");
    let child = child_of(&cfg, None);
    assert_eq!(child.cwd, "/tree");
    assert_eq!(child.active_worktree, None);
    assert_eq!(child.file_state, FRESH.file_state);
}

#[test]
fn a_session_is_bound_only_where_its_scheduler_is() {
    let mut cfg = parent();
    assert_eq!(cfg.cache_key(), Some("sess-1"));
    assert!(cfg.bind_session("sess-2".into(), Err("taken".into())).is_err());
    assert_eq!(cfg.session_id, "sess-1");
    cfg.bind_session("sess-2".into(), Ok(())).unwrap();
    assert_eq!(cfg.cache_key(), Some("sess-2"));
    cfg.set_max_rounds(Some(4));
    assert_eq!(cfg.max_rounds, Some(4));
}

//! What a turn needs to run, and what a child agent shares of it.

use vstd::prelude::*;

use crate::execution_provenance::LocalAgentId;
use crate::routes::FrozenProviderRoute;
use crate::text;

verus! {

/// The session-control tools that a front-end offers. Nothing by default.
#[derive(Clone, Copy, Debug, PartialEq, Eq, Structural)]
pub struct SurfaceCapabilities {
    pub questions: bool,
    pub plan_control: bool,
    pub program: bool,
    pub workflow: bool,
    pub worktree: bool,
    pub scheduler: bool,
}

/// A surface that offers nothing.
pub open spec fn no_surface() -> SurfaceCapabilities {
    SurfaceCapabilities {
        questions: false,
        plan_control: false,
        program: false,
        workflow: false,
        worktree: false,
        scheduler: false,
    }
}

impl Default for SurfaceCapabilities {
    fn default() -> (r: Self)
        ensures
            r == no_surface(),
    {
        SurfaceCapabilities {
            questions: false,
            plan_control: false,
            program: false,
            workflow: false,
            worktree: false,
            scheduler: false,
        }
    }
}

/// Where the session's context budget comes from.
#[derive(Clone, Copy, Debug, PartialEq, Eq)]
pub enum ContextBudgetSource {
    /// The environment named it, including `off`: a route change leaves it.
    Pinned,
    /// The catalog gave it; `fallback` applies where neither the model nor the
    /// gateway declares a window.
    Catalog { fallback: Option<u64> },
}

/// A shared service. Equal numbers are the same instance.
#[derive(Clone, Copy, Debug, PartialEq, Eq, Structural)]
pub struct Handle {
    pub number: u64,
}

/// Which project and workspace a permission gate is anchored at.
#[derive(Debug, PartialEq, Eq)]
pub struct WorkspaceIdentity {
    pub project_id: Option<String>,
    pub workspace_id: String,
}

/// A worktree that the session has entered.
#[derive(Debug, PartialEq, Eq)]
pub struct ActiveWorktree {
    pub identity: WorkspaceIdentity,
    pub cwd: String,
    pub permissions: Handle,
    pub file_state: Handle,
    pub sandbox: Option<Handle>,
    pub system: String,
    pub branch: String,
}

/// One coherent workspace generation, selected for an operation.
#[derive(Debug, PartialEq, Eq)]
pub struct EffectiveWorkspace {
    pub identity: WorkspaceIdentity,
    pub workspace_epoch: u64,
    pub cwd: String,
    pub permissions: Handle,
    pub file_state: Handle,
    pub sandbox: Option<Handle>,
    pub system: String,
    pub branch: Option<String>,
}

/// The agent that a configuration belongs to.
#[derive(Debug, PartialEq, Eq)]
pub struct LocalAgent {
    pub id: LocalAgentId,
    pub parent: Option<LocalAgentId>,
    pub agent_type: Option<String>,
}

/// The session services that every agent of a session shares.
#[derive(Clone, Copy, Debug, PartialEq, Eq, Structural)]
pub struct SharedServices {
    pub provider_catalog: Handle,
    pub hooks: Handle,
    pub background_shells: Handle,
    pub shell_programs: Handle,
    pub powershell_execution_gate: Handle,
    pub agent_types: Handle,
    pub tasks: Handle,
    pub scheduler: Handle,
    pub background_executions: Handle,
    pub program_limits: Handle,
    pub skills: Handle,
}

/// Everything a turn needs to run.
#[derive(Debug, PartialEq, Eq)]
pub struct Config {
    pub provider_route: FrozenProviderRoute,
    pub system: String,
    pub cwd: String,
    pub project_instructions: Option<String>,
    pub max_rounds: Option<usize>,
    pub offload_dir: String,
    pub sessions_dir: String,
    pub context_window: Option<u64>,
    pub context_budget: ContextBudgetSource,
    pub identity: WorkspaceIdentity,
    pub permissions: Handle,
    pub questioner: Option<Handle>,
    pub file_state: Handle,
    pub tool_sources: Vec<Handle>,
    pub session_id: String,
    pub local_agent: LocalAgent,
    pub shared: SharedServices,
    pub sandbox: Option<Handle>,
    pub tool_allowlist: Option<Handle>,
    pub defer_threshold: usize,
    pub unlocked_tools: Handle,
    pub inbox: Handle,
    /// The slot that holds the worktree the session has entered.
    pub worktree_slot: Handle,
    pub active_worktree: Option<ActiveWorktree>,
    pub worktree_epoch: u64,
    pub surface: SurfaceCapabilities,
}

/// New instances of what a child agent must not share with its parent.
#[derive(Clone, Copy, Debug, PartialEq, Eq, Structural)]
pub struct FreshState {
    pub file_state: Handle,
    pub unlocked_tools: Handle,
    pub inbox: Handle,
    pub worktree_slot: Handle,
}

// ---------------------------------------------------------------------------
// Copies
// ---------------------------------------------------------------------------

fn copy_text(t: &Option<String>) -> (r: Option<String>)
    ensures
        r == *t,
{
    match t {
        Some(s) => Some(s.clone()),
        None => None,
    }
}

impl Clone for WorkspaceIdentity {
    fn clone(&self) -> (r: Self)
        ensures
            r == *self,
    {
        WorkspaceIdentity {
            project_id: copy_text(&self.project_id),
            workspace_id: self.workspace_id.clone(),
        }
    }
}

impl Clone for ActiveWorktree {
    fn clone(&self) -> (r: Self)
        ensures
            r == *self,
    {
        ActiveWorktree {
            identity: self.identity.clone(),
            cwd: self.cwd.clone(),
            permissions: self.permissions,
            file_state: self.file_state,
            sandbox: self.sandbox,
            system: self.system.clone(),
            branch: self.branch.clone(),
        }
    }
}

fn copy_id(id: &LocalAgentId) -> (r: LocalAgentId)
    ensures
        r == *id,
{
    match id {
        LocalAgentId::Main => LocalAgentId::Main,
        LocalAgentId::Agent(name) => LocalAgentId::Agent(name.clone()),
    }
}

impl Clone for LocalAgent {
    fn clone(&self) -> (r: Self)
        ensures
            r == *self,
    {
        LocalAgent {
            id: copy_id(&self.id),
            parent: match &self.parent {
                Some(id) => Some(copy_id(id)),
                None => None,
            },
            agent_type: copy_text(&self.agent_type),
        }
    }
}

fn copy_handles(v: &Vec<Handle>) -> (r: Vec<Handle>)
    ensures
        r@ == v@,
{
    let mut out: Vec<Handle> = Vec::new();
    let mut i: usize = 0;
    while i < v.len()
        invariant
            i <= v@.len(),
            out@ == v@.take(i as int),
        decreases v@.len() - i,
    {
        out.push(v[i]);
        i += 1;
        proof {
            assert(out@ =~= v@.take(i as int));
        }
    }
    proof {
        assert(v@.take(i as int) =~= v@);
    }
    out
}

// ---------------------------------------------------------------------------
// Models
// ---------------------------------------------------------------------------

/// The workspace without a worktree, at an epoch.
pub open spec fn base_at(cfg: Config, epoch: u64) -> EffectiveWorkspace {
    EffectiveWorkspace {
        identity: cfg.identity,
        workspace_epoch: epoch,
        cwd: cfg.cwd,
        permissions: cfg.permissions,
        file_state: cfg.file_state,
        sandbox: cfg.sandbox,
        system: cfg.system,
        branch: None,
    }
}

/// The workspace in effect: the entered worktree, else the base.
pub open spec fn workspace_of(cfg: Config) -> EffectiveWorkspace {
    match cfg.active_worktree {
        Some(active) => EffectiveWorkspace {
            identity: active.identity,
            workspace_epoch: cfg.worktree_epoch,
            cwd: active.cwd,
            permissions: active.permissions,
            file_state: active.file_state,
            sandbox: active.sandbox,
            system: active.system,
            branch: Some(active.branch),
        },
        None => base_at(cfg, cfg.worktree_epoch),
    }
}

/// How an agent is named.
pub open spec fn agent_name(id: LocalAgentId) -> Seq<char> {
    match id {
        LocalAgentId::Main => "main"@,
        LocalAgentId::Agent(name) => name@,
    }
}

/// The session id of a child: its own, after the parent's; none where the
/// parent's session has none.
pub open spec fn child_session(session: Seq<char>, id: LocalAgentId) -> Seq<char> {
    if session.len() == 0 {
        Seq::empty()
    } else {
        session + "-"@ + agent_name(id)
    }
}

/// Whether two configurations agree on everything that a child inherits.
pub open spec fn inherits(child: Config, parent: Config) -> bool {
    &&& child.project_instructions == parent.project_instructions
    &&& child.offload_dir == parent.offload_dir
    &&& child.sessions_dir == parent.sessions_dir
    &&& child.context_window == parent.context_window
    &&& child.context_budget == parent.context_budget
    &&& child.tool_sources@ == parent.tool_sources@
    &&& child.shared == parent.shared
    &&& child.tool_allowlist == parent.tool_allowlist
    &&& child.defer_threshold == parent.defer_threshold
}

/// Whether a configuration is that of a child agent in a workspace.
pub open spec fn is_child(
    child: Config,
    parent: Config,
    workspace: EffectiveWorkspace,
    max_rounds: Option<usize>,
    id: LocalAgentId,
    route: FrozenProviderRoute,
    fresh: FreshState,
) -> bool {
    &&& inherits(child, parent)
    &&& child.provider_route == route
    &&& child.system == workspace.system
    &&& child.cwd == workspace.cwd
    &&& child.identity == workspace.identity
    &&& child.permissions == workspace.permissions
    &&& child.sandbox == workspace.sandbox
    &&& child.max_rounds == max_rounds
    &&& child.questioner is None
    &&& child.file_state == fresh.file_state
    &&& child.unlocked_tools == fresh.unlocked_tools
    &&& child.inbox == fresh.inbox
    &&& child.worktree_slot == fresh.worktree_slot
    &&& child.active_worktree is None
    &&& child.worktree_epoch == 0
    &&& child.session_id@ == child_session(parent.session_id@, id)
    &&& child.local_agent.id == id
    &&& child.local_agent.parent == Some(parent.local_agent.id)
    &&& child.local_agent.agent_type is None
    &&& child.surface == no_surface()
}

/// Whether a configuration differs from another in the route and its budget at
/// most.
pub open spec fn same_but_route(a: Config, b: Config) -> bool {
    &&& a.system == b.system
    &&& a.cwd == b.cwd
    &&& a.project_instructions == b.project_instructions
    &&& a.max_rounds == b.max_rounds
    &&& a.offload_dir == b.offload_dir
    &&& a.sessions_dir == b.sessions_dir
    &&& a.context_budget == b.context_budget
    &&& a.identity == b.identity
    &&& a.permissions == b.permissions
    &&& a.questioner == b.questioner
    &&& a.file_state == b.file_state
    &&& a.tool_sources@ == b.tool_sources@
    &&& a.session_id == b.session_id
    &&& a.local_agent == b.local_agent
    &&& a.shared == b.shared
    &&& a.sandbox == b.sandbox
    &&& a.tool_allowlist == b.tool_allowlist
    &&& a.defer_threshold == b.defer_threshold
    &&& a.unlocked_tools == b.unlocked_tools
    &&& a.inbox == b.inbox
    &&& a.worktree_slot == b.worktree_slot
    &&& a.active_worktree == b.active_worktree
    &&& a.worktree_epoch == b.worktree_epoch
    &&& a.surface == b.surface
}

/// The budget on a new route: a pinned one stays; a catalog-derived one is what
/// the catalog gives the new pair, or the fallback.
pub open spec fn budget_on(
    source: ContextBudgetSource,
    current: Option<u64>,
    declared: Option<u64>,
) -> Option<u64> {
    match source {
        ContextBudgetSource::Pinned => current,
        ContextBudgetSource::Catalog { fallback } => match declared {
            Some(w) => Some(w),
            None => fallback,
        },
    }
}

// ---------------------------------------------------------------------------
// Configurations
// ---------------------------------------------------------------------------

impl Config {
    /// Which agent this is.
    pub fn agent_id(&self) -> (r: &LocalAgentId)
        ensures
            *r == self.local_agent.id,
    {
        &self.local_agent.id
    }

    /// Which agent started this one.
    pub fn parent_agent_id(&self) -> (r: Option<&LocalAgentId>)
        ensures
            match r {
                Some(id) => self.local_agent.parent == Some(*id),
                None => self.local_agent.parent is None,
            },
    {
        match &self.local_agent.parent {
            Some(id) => Some(id),
            None => None,
        }
    }

    /// The agent's name for display: the main agent has none.
    pub fn agent_label(&self) -> (r: &str)
        ensures
            r@ == match self.local_agent.id {
                LocalAgentId::Main => ""@,
                LocalAgentId::Agent(name) => name@,
            },
    {
        match &self.local_agent.id {
            LocalAgentId::Main => "",
            LocalAgentId::Agent(name) => name.as_str(),
        }
    }

    /// The type this agent was dispatched to.
    pub fn agent_type(&self) -> (r: Option<String>)
        ensures
            r == self.local_agent.agent_type,
    {
        copy_text(&self.local_agent.agent_type)
    }

    fn base_workspace_at(&self, workspace_epoch: u64) -> (r: EffectiveWorkspace)
        ensures
            r == base_at(*self, workspace_epoch),
    {
        EffectiveWorkspace {
            identity: self.identity.clone(),
            workspace_epoch,
            cwd: self.cwd.clone(),
            permissions: self.permissions,
            file_state: self.file_state,
            sandbox: self.sandbox,
            system: self.system.clone(),
            branch: None,
        }
    }

    /// The workspace without the worktree the session may have entered.
    pub fn base_workspace(&self) -> (r: EffectiveWorkspace)
        ensures
            r == base_at(*self, self.worktree_epoch),
    {
        self.base_workspace_at(self.worktree_epoch)
    }

    /// The workspace in effect now.
    pub fn effective_workspace(&self) -> (r: EffectiveWorkspace)
        ensures
            r == workspace_of(*self),
    {
        match &self.active_worktree {
            Some(active) => EffectiveWorkspace {
                identity: active.identity.clone(),
                workspace_epoch: self.worktree_epoch,
                cwd: active.cwd.clone(),
                permissions: active.permissions,
                file_state: active.file_state,
                sandbox: active.sandbox,
                system: active.system.clone(),
                branch: Some(active.branch.clone()),
            },
            None => self.base_workspace_at(self.worktree_epoch),
        }
    }

    /// A child agent in one workspace generation of its parent: services and
    /// settings are shared, what belongs to one agent starts fresh.
    pub fn subagent_from(
        &self,
        workspace: &EffectiveWorkspace,
        max_rounds: Option<usize>,
        agent_id: LocalAgentId,
        route: FrozenProviderRoute,
        fresh: FreshState,
    ) -> (r: Self)
        ensures
            is_child(r, *self, *workspace, max_rounds, agent_id, route, fresh),
    {
        let mut session_id = String::new();
        if text::char_count(self.session_id.as_str()) > 0 {
            session_id = self.session_id.clone();
            session_id.append("-");
            match &agent_id {
                LocalAgentId::Main => {
                    session_id.append("main");
                },
                LocalAgentId::Agent(name) => {
                    session_id.append(name.as_str());
                },
            }
        }
        proof {
            assert(session_id@ =~= child_session(self.session_id@, agent_id));
        }
        Config {
            provider_route: route,
            system: workspace.system.clone(),
            cwd: workspace.cwd.clone(),
            project_instructions: copy_text(&self.project_instructions),
            max_rounds,
            offload_dir: self.offload_dir.clone(),
            sessions_dir: self.sessions_dir.clone(),
            context_window: self.context_window,
            context_budget: self.context_budget,
            identity: workspace.identity.clone(),
            permissions: workspace.permissions,
            questioner: None,
            file_state: fresh.file_state,
            tool_sources: copy_handles(&self.tool_sources),
            session_id,
            local_agent: LocalAgent {
                id: agent_id,
                parent: Some(copy_id(&self.local_agent.id)),
                agent_type: None,
            },
            shared: self.shared,
            sandbox: workspace.sandbox,
            tool_allowlist: self.tool_allowlist,
            defer_threshold: self.defer_threshold,
            unlocked_tools: fresh.unlocked_tools,
            inbox: fresh.inbox,
            worktree_slot: fresh.worktree_slot,
            active_worktree: None,
            worktree_epoch: 0,
            surface: SurfaceCapabilities::default(),
        }
    }

    /// The same session on another route. The budget belongs to the provider and
    /// the model: `declared` is what the catalog gives the new pair.
    pub fn clone_with_provider_route(
        &self,
        provider_route: FrozenProviderRoute,
        declared: Option<u64>,
    ) -> (r: Self)
        ensures
            r.provider_route == provider_route,
            r.context_window == budget_on(self.context_budget, self.context_window, declared),
            same_but_route(r, *self),
    {
        let context_window = match self.context_budget {
            ContextBudgetSource::Pinned => self.context_window,
            ContextBudgetSource::Catalog { fallback } => match declared {
                Some(w) => Some(w),
                None => fallback,
            },
        };
        Config {
            provider_route,
            system: self.system.clone(),
            cwd: self.cwd.clone(),
            project_instructions: copy_text(&self.project_instructions),
            max_rounds: self.max_rounds,
            offload_dir: self.offload_dir.clone(),
            sessions_dir: self.sessions_dir.clone(),
            context_window,
            context_budget: self.context_budget,
            identity: self.identity.clone(),
            permissions: self.permissions,
            questioner: self.questioner,
            file_state: self.file_state,
            tool_sources: copy_handles(&self.tool_sources),
            session_id: self.session_id.clone(),
            local_agent: self.local_agent.clone(),
            shared: self.shared,
            sandbox: self.sandbox,
            tool_allowlist: self.tool_allowlist,
            defer_threshold: self.defer_threshold,
            unlocked_tools: self.unlocked_tools,
            inbox: self.inbox,
            worktree_slot: self.worktree_slot,
            active_worktree: match &self.active_worktree {
                Some(active) => Some(active.clone()),
                None => None,
            },
            worktree_epoch: self.worktree_epoch,
            surface: self.surface,
        }
    }

    /// Bounds the sampling rounds.
    pub fn set_max_rounds(&mut self, max_rounds: Option<usize>)
        ensures
            *final(self) == (Config { max_rounds, ..*old(self) }),
    {
        self.max_rounds = max_rounds;
    }

    /// Binds the session to an id. `bound` is what binding the scheduler to it
    /// came to: where that failed, nothing changes.
    pub fn bind_session(&mut self, session_id: String, bound: Result<(), String>) -> (r: Result<
        (),
        String,
    >)
        ensures
            r == bound,
            *final(self) == if bound is Ok {
                Config { session_id, ..*old(self) }
            } else {
                *old(self)
            },
    {
        if bound.is_ok() {
            self.session_id = session_id;
        }
        bound
    }

    /// The routing hint for the prompt cache: one value for the whole
    /// conversation, nothing until a session is bound.
    pub fn cache_key(&self) -> (r: Option<&str>)
        ensures
            match r {
                Some(key) => self.session_id@.len() > 0 && key@ == self.session_id@,
                None => self.session_id@.len() == 0,
            },
    {
        if text::char_count(self.session_id.as_str()) == 0 {
            None
        } else {
            Some(self.session_id.as_str())
        }
    }

    /// The working directory in effect now.
    pub fn effective_cwd(&self) -> (r: String)
        ensures
            r == workspace_of(*self).cwd,
    {
        match &self.active_worktree {
            Some(active) => active.cwd.clone(),
            None => self.cwd.clone(),
        }
    }

    /// The permission gate in effect now.
    pub fn effective_permissions(&self) -> (r: Handle)
        ensures
            r == workspace_of(*self).permissions,
    {
        match &self.active_worktree {
            Some(active) => active.permissions,
            None => self.permissions,
        }
    }

    /// The file observations in effect now.
    pub fn effective_file_state(&self) -> (r: Handle)
        ensures
            r == workspace_of(*self).file_state,
    {
        match &self.active_worktree {
            Some(active) => active.file_state,
            None => self.file_state,
        }
    }

    /// The sandbox policy in effect now.
    pub fn effective_sandbox(&self) -> (r: Option<Handle>)
        ensures
            r == workspace_of(*self).sandbox,
    {
        match &self.active_worktree {
            Some(active) => active.sandbox,
            None => self.sandbox,
        }
    }

    /// The system prompt in effect now.
    pub fn effective_system(&self) -> (r: String)
        ensures
            r == workspace_of(*self).system,
    {
        match &self.active_worktree {
            Some(active) => active.system.clone(),
            None => self.system.clone(),
        }
    }
}

// ---------------------------------------------------------------------------
// Laws
// ---------------------------------------------------------------------------

/// A child cannot reach what belongs to its parent alone, given instances that
/// are not the parent's.
pub proof fn law_a_child_pollutes_nothing(
    child: Config,
    parent: Config,
    workspace: EffectiveWorkspace,
    max_rounds: Option<usize>,
    id: LocalAgentId,
    route: FrozenProviderRoute,
    fresh: FreshState,
)
    requires
        is_child(child, parent, workspace, max_rounds, id, route, fresh),
        fresh.file_state != parent.file_state,
        fresh.unlocked_tools != parent.unlocked_tools,
        fresh.inbox != parent.inbox,
        fresh.worktree_slot != parent.worktree_slot,
    ensures
        child.file_state != parent.file_state,
        child.unlocked_tools != parent.unlocked_tools,
        child.inbox != parent.inbox,
        child.worktree_slot != parent.worktree_slot,
        child.questioner is None,
        child.active_worktree is None,
        child.surface == no_surface(),
{
}

/// A child works in the workspace it was started in: its effective workspace is
/// that one, with observations of its own.
pub proof fn law_a_child_stays_in_its_workspace(
    child: Config,
    parent: Config,
    workspace: EffectiveWorkspace,
    max_rounds: Option<usize>,
    id: LocalAgentId,
    route: FrozenProviderRoute,
    fresh: FreshState,
)
    requires
        is_child(child, parent, workspace, max_rounds, id, route, fresh),
    ensures
        workspace_of(child) == (EffectiveWorkspace {
            workspace_epoch: 0,
            file_state: fresh.file_state,
            branch: None,
            ..workspace
        }),
{
}

/// Two children of one session that have different names have different session
/// ids.
pub proof fn law_children_have_their_own_sessions(
    session: Seq<char>,
    a: LocalAgentId,
    b: LocalAgentId,
)
    requires
        session.len() > 0,
        child_session(session, a) == child_session(session, b),
    ensures
        agent_name(a) == agent_name(b),
{
    let n = session.len() + "-"@.len();
    assert(child_session(session, a).skip(n as int) =~= agent_name(a));
    assert(child_session(session, b).skip(n as int) =~= agent_name(b));
}

/// A child has its parent's means and its workspace's ground: what a session is
/// configured with, the directories, the windows and the tools are the parent's; the
/// system prompt, the directory, the permissions and the sandbox are those of the
/// workspace it was started in.
pub proof fn law_a_child_has_its_parents_means(
    child: Config,
    parent: Config,
    workspace: EffectiveWorkspace,
    max_rounds: Option<usize>,
    id: LocalAgentId,
    route: FrozenProviderRoute,
    fresh: FreshState,
)
    requires
        is_child(child, parent, workspace, max_rounds, id, route, fresh),
    ensures
        child.project_instructions == parent.project_instructions,
        child.offload_dir == parent.offload_dir,
        child.sessions_dir == parent.sessions_dir,
        child.context_window == parent.context_window,
        child.context_budget == parent.context_budget,
        child.tool_sources@ == parent.tool_sources@,
        child.shared == parent.shared,
        child.tool_allowlist == parent.tool_allowlist,
        child.defer_threshold == parent.defer_threshold,
        child.provider_route == route,
        child.max_rounds == max_rounds,
        child.system == workspace.system,
        child.cwd == workspace.cwd,
        child.identity == workspace.identity,
        child.permissions == workspace.permissions,
        child.sandbox == workspace.sandbox,
        child.local_agent.id == id,
        child.local_agent.parent == Some(parent.local_agent.id),
        child.local_agent.agent_type is None,
        child.worktree_epoch == 0,
        !child.surface.questions,
        !child.surface.plan_control,
        !child.surface.program,
        !child.surface.workflow,
        !child.surface.worktree,
        !child.surface.scheduler,
{
}

/// The session of a child is named after its parent's and its own name; a parent
/// without a session gives it none.
pub proof fn law_how_a_childs_session_is_named(session: Seq<char>, id: LocalAgentId)
    ensures
        session.len() == 0 ==> child_session(session, id).len() == 0,
        session.len() > 0 ==> child_session(session, id) == session + "-"@ + (match id {
            LocalAgentId::Main => "main"@,
            LocalAgentId::Agent(name) => name@,
        }),
{
}

/// While a worktree is active, everything of the workspace is the worktree's; without
/// one, it is the session's own, on no branch.
pub proof fn law_the_workspace_is_the_active_one(cfg: Config)
    ensures
        ({
            let w = workspace_of(cfg);
            &&& w.workspace_epoch == cfg.worktree_epoch
            &&& match cfg.active_worktree {
                Some(active) => {
                    &&& w.identity == active.identity
                    &&& w.cwd == active.cwd
                    &&& w.permissions == active.permissions
                    &&& w.file_state == active.file_state
                    &&& w.sandbox == active.sandbox
                    &&& w.system == active.system
                    &&& w.branch == Some(active.branch)
                },
                None => {
                    &&& w.identity == cfg.identity
                    &&& w.cwd == cfg.cwd
                    &&& w.permissions == cfg.permissions
                    &&& w.file_state == cfg.file_state
                    &&& w.sandbox == cfg.sandbox
                    &&& w.system == cfg.system
                    &&& w.branch is None
                },
            }
        }),
{
}

/// A window that the user set stays, whatever model is switched to; else it is the one
/// that the model declares, or the fallback where it declares none.
pub proof fn law_a_pinned_window_stays(
    current: Option<u64>,
    declared: Option<u64>,
    fallback: Option<u64>,
)
    ensures
        budget_on(ContextBudgetSource::Pinned, current, declared) == current,
        declared is Some ==> budget_on(
            ContextBudgetSource::Catalog { fallback },
            current,
            declared,
        ) == declared,
        declared is None ==> budget_on(
            ContextBudgetSource::Catalog { fallback },
            current,
            declared,
        ) == fallback,
{
}

/// Two configurations that differ in their route alone have the same workspace.
pub proof fn law_a_route_is_no_part_of_the_workspace(a: Config, b: Config)
    requires
        same_but_route(a, b),
    ensures
        workspace_of(a) == workspace_of(b),
        a.session_id == b.session_id,
        a.inbox == b.inbox,
        a.surface == b.surface,
        a.max_rounds == b.max_rounds,
        a.context_budget == b.context_budget,
        a.tool_allowlist == b.tool_allowlist,
        a.questioner == b.questioner,
        a.shared == b.shared,
{
}

} // verus!

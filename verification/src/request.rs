//! What goes into a request besides the conversation: the injected context, the
//! tool array, and what both are estimated to cost.

use vstd::prelude::*;

use crate::agent;
use crate::agent::CallView;
use crate::agent::ToolCall;
use crate::history;
use crate::history::History;
use crate::json;
use crate::protocol;
use crate::protocol::BlockView;
use crate::protocol::ContentBlock;
use crate::protocol::ResultView;
use crate::protocol::ToolResultContent;
use crate::text;
use crate::tokens;
use crate::tokens::ToolDef;
use crate::tokens::ToolView;

verus! {

// ---------------------------------------------------------------------------
// The injected context
// ---------------------------------------------------------------------------

/// What a session in plan mode is told. Writes are blocked; this says what to
/// do instead.
pub const PLAN_MODE_REMINDER: &'static str =
    "<plan-mode>\nThis session is in PLAN MODE. Only read-only exploration is allowed: read files, search, and run read-only commands to understand the task. Do NOT modify files or run commands with side effects — such calls are blocked by the permission gate. Produce a concrete, step-by-step plan for the requested change. When the plan is ready, call the exit_plan_mode tool with the full plan text to present it to the user; wait for their approval before making any changes.\n</plan-mode>";

/// A part that the harness injects, and what it is called.
#[derive(Debug, PartialEq, Eq)]
pub struct Segment {
    pub label: String,
    pub text: String,
}

impl View for Segment {
    type V = (Seq<char>, Seq<char>);

    open spec fn view(&self) -> (Seq<char>, Seq<char>) {
        (self.label@, self.text@)
    }
}

/// The view of parts.
pub open spec fn segments(v: Seq<Segment>) -> Seq<(Seq<char>, Seq<char>)> {
    v.map_values(|s: Segment| s@)
}

/// What the injected context is made of.
#[derive(Debug, PartialEq, Eq)]
pub struct InjectedParts {
    pub plan_mode: bool,
    pub project_instructions: Option<String>,
    pub skills_catalog: Option<String>,
    pub deferred_notice: Option<String>,
}

/// A part that is there, under its name.
pub open spec fn part(label: Seq<char>, text: Option<Seq<char>>) -> Seq<(Seq<char>, Seq<char>)> {
    match text {
        Some(t) => seq![(label, t)],
        None => seq![],
    }
}

/// The parts of the injected context, in the order of the request. The catalog
/// of skills rides only the requests of the main agent.
pub open spec fn parts_of(p: InjectedParts, depth: u8) -> Seq<(Seq<char>, Seq<char>)> {
    part(
        "plan-mode reminder"@,
        if p.plan_mode {
            Some(PLAN_MODE_REMINDER@)
        } else {
            None
        },
    ) + part("project instructions"@, protocol::opt(p.project_instructions)) + part(
        "skills catalog"@,
        if depth == 0 {
            protocol::opt(p.skills_catalog)
        } else {
            None
        },
    ) + part("deferred-tool notice"@, protocol::opt(p.deferred_notice))
}

fn push_part(list: &mut Vec<Segment>, label: &str, text: &Option<String>)
    ensures
        segments(final(list)@) == segments(old(list)@) + part(label@, protocol::opt(*text)),
{
    let ghost before = segments(list@);
    if let Some(t) = text {
        list.push(Segment { label: label.to_owned(), text: t.clone() });
    }
    proof {
        assert(segments(list@) =~= before + part(label@, protocol::opt(*text)));
    }
}

/// The parts of the injected context, labeled, in the order of the request.
pub fn injected_segments(parts: &InjectedParts, depth: u8) -> (r: Vec<Segment>)
    ensures
        segments(r@) == parts_of(*parts, depth),
{
    let mut list: Vec<Segment> = Vec::new();
    let reminder = if parts.plan_mode {
        Some(PLAN_MODE_REMINDER.to_owned())
    } else {
        None
    };
    let none: Option<String> = None;
    proof {
        assert(segments(list@) =~= Seq::<(Seq<char>, Seq<char>)>::empty());
    }
    push_part(&mut list, "plan-mode reminder", &reminder);
    push_part(&mut list, "project instructions", &parts.project_instructions);
    push_part(
        &mut list,
        "skills catalog",
        if depth == 0 {
            &parts.skills_catalog
        } else {
            &none
        },
    );
    push_part(&mut list, "deferred-tool notice", &parts.deferred_notice);
    proof {
        assert(segments(list@) =~= parts_of(*parts, depth));
    }
    list
}

/// The texts of parts.
pub open spec fn part_texts(list: Seq<(Seq<char>, Seq<char>)>) -> Seq<Seq<char>> {
    list.map_values(|s: (Seq<char>, Seq<char>)| s.1)
}

/// The injected first message: the parts, one after the other.
pub open spec fn context_of(list: Seq<(Seq<char>, Seq<char>)>) -> Option<Seq<char>> {
    if list.len() == 0 {
        None
    } else {
        Some(text::join(part_texts(list), "\n\n"@))
    }
}

/// The injected first message; nothing where there are no parts.
pub fn injected_context(list: &Vec<Segment>) -> (r: Option<String>)
    ensures
        protocol::opt(r) == context_of(segments(list@)),
{
    if list.len() == 0 {
        return None;
    }
    let ghost all = segments(list@);
    let mut texts: Vec<String> = Vec::new();
    let mut i: usize = 0;
    proof {
        assert(text::texts(texts@) =~= part_texts(all.take(0)));
    }
    while i < list.len()
        invariant
            i <= list@.len(),
            all == segments(list@),
            text::texts(texts@) == part_texts(all.take(i as int)),
        decreases list@.len() - i,
    {
        text::push_text(&mut texts, list[i].text.clone());
        i += 1;
        proof {
            assert(text::texts(texts@) =~= part_texts(all.take(i as int)));
        }
    }
    proof {
        assert(all.take(i as int) =~= all);
    }
    Some(text::joined(&texts, "\n\n"))
}

// ---------------------------------------------------------------------------
// What a request costs
// ---------------------------------------------------------------------------

/// The estimates of tools, together.
pub open spec fn tools_tokens(tools: Seq<ToolDef>) -> nat
    decreases tools.len(),
{
    if tools.len() == 0 {
        0
    } else {
        tools_tokens(tools.drop_last()) + tokens::saturated(
            tokens::text_tokens(tools.last().visible()),
        )
    }
}

/// The part of a request that is not history.
pub open spec fn overhead_tokens(
    system: Seq<char>,
    tools: Seq<ToolDef>,
    injected: Option<Seq<char>>,
) -> nat {
    tokens::saturated(
        tokens::text_tokens(system) + tools_tokens(tools) + match injected {
            Some(t) => tokens::text_tokens(t),
            None => 0,
        },
    )
}

/// The part of a request that is not history: the system prompt, the tools and
/// the injected context.
pub fn request_overhead_tokens(system: &str, tools: &Vec<ToolDef>, injected: &Option<String>) -> (r:
    u64)
    ensures
        r == overhead_tokens(system@, tools@, protocol::opt(*injected)),
{
    let mut total: u64 = tokens::estimate_text_tokens(system);
    let mut i: usize = 0;
    proof {
        assert(tools_tokens(tools@.take(0)) == 0);
    }
    while i < tools.len()
        invariant
            i <= tools@.len(),
            total == tokens::saturated(
                tokens::text_tokens(system@) + tools_tokens(tools@.take(i as int)),
            ),
        decreases tools@.len() - i,
    {
        proof {
            assert(tools@.take(i + 1).drop_last() =~= tools@.take(i as int));
            assert(tools@.take(i + 1).last() == tools@[i as int]);
        }
        total = total.saturating_add(tokens::estimate_tool_def_tokens(&tools[i]));
        i += 1;
    }
    proof {
        assert(tools@.take(i as int) =~= tools@);
    }
    if let Some(t) = injected {
        total = total.saturating_add(tokens::estimate_text_tokens(t.as_str()));
    }
    total
}

/// What the next request is estimated to cost. A total that the provider reported
/// is the whole previous request; without one the rest comes on top of the
/// history.
pub open spec fn request_tokens(h: history::HistoryView, sizes: Seq<u64>, overhead: nat) -> nat {
    if h.anchor is Some {
        history::context_tokens(h, sizes)
    } else {
        tokens::saturated(history::context_tokens(h, sizes) + overhead)
    }
}

/// What the next request is estimated to cost.
pub fn estimate_request(history: &History, sizes: &Vec<u64>, overhead: u64) -> (r: u64)
    requires
        sizes@.len() == history@.items.len() + history@.staged.len(),
        history::context_tokens(history@, sizes@) <= u64::MAX,
    ensures
        r == request_tokens(history@, sizes@, overhead as nat),
{
    let estimated = history.estimated_tokens(sizes);
    if history.has_usage_anchor() {
        estimated
    } else {
        estimated.saturating_add(overhead)
    }
}

/// The context size that a front-end shows between turns: the next request of the
/// main agent. A tool array that could not be built is left out.
pub fn context_estimate(
    history: &History,
    sizes: &Vec<u64>,
    system: &str,
    tools: &Result<Vec<ToolDef>, String>,
    parts: &InjectedParts,
) -> (r: u64)
    requires
        sizes@.len() == history@.items.len() + history@.staged.len(),
        history::context_tokens(history@, sizes@) <= u64::MAX,
    ensures
        r == request_tokens(
            history@,
            sizes@,
            overhead_tokens(
                system@,
                match *tools {
                    Ok(list) => list@,
                    Err(_) => Seq::empty(),
                },
                context_of(parts_of(*parts, 0)),
            ),
        ),
{
    let injected = injected_context(&injected_segments(parts, 0));
    let overhead = match tools {
        Ok(list) => request_overhead_tokens(system, list, &injected),
        Err(_) => {
            let none: Vec<ToolDef> = Vec::new();
            request_overhead_tokens(system, &none, &injected)
        },
    };
    estimate_request(history, sizes, overhead)
}

// ---------------------------------------------------------------------------
// The tool array
// ---------------------------------------------------------------------------

/// How often the catalog is read before it is given up.
pub const CATALOG_TRIES: u32 = 8;

/// What is said of a catalog that will not hold still.
pub const CATALOG_CHANGED: &'static str =
    "tool catalog changed repeatedly while building the provider request; retry the turn";

/// What comes of one reading of the catalog.
#[derive(Clone, Copy, Debug, PartialEq, Eq, Structural)]
pub enum CatalogVerdict {
    /// One snapshot survived the reading: build the array from it.
    Take,
    /// Read it again.
    Again,
    /// It changed under every reading.
    GiveUp,
}

/// What comes of reading number `tried` (from one) of the catalog, given its
/// snapshots before and after.
pub fn catalog_verdict(
    tried: u32,
    before_consistent: bool,
    after_consistent: bool,
    unchanged: bool,
) -> (r: CatalogVerdict)
    ensures
        r == (if before_consistent && after_consistent && unchanged {
            CatalogVerdict::Take
        } else if tried < CATALOG_TRIES {
            CatalogVerdict::Again
        } else {
            CatalogVerdict::GiveUp
        }),
{
    if before_consistent && after_consistent && unchanged {
        CatalogVerdict::Take
    } else if tried < CATALOG_TRIES {
        CatalogVerdict::Again
    } else {
        CatalogVerdict::GiveUp
    }
}

/// The place of the first tool of a name, from `i` on.
pub open spec fn first_named(tools: Seq<ToolView>, name: Seq<char>, i: int) -> Option<int>
    decreases tools.len() - i,
{
    if i < 0 || i >= tools.len() {
        None
    } else if tools[i].name == name {
        Some(i)
    } else {
        first_named(tools, name, i + 1)
    }
}

fn find_tool(tools: &Vec<ToolDef>, name: &str) -> (r: Option<usize>)
    ensures
        match r {
            Some(i) => i < tools@.len() && first_named(tokens::tool_views(tools@), name@, 0)
                == Some(i as int),
            None => first_named(tokens::tool_views(tools@), name@, 0) is None,
        },
{
    let ghost all = tokens::tool_views(tools@);
    let mut i: usize = 0;
    while i < tools.len()
        invariant
            i <= tools@.len(),
            all == tokens::tool_views(tools@),
            first_named(all, name@, 0) == first_named(all, name@, i as int),
        decreases tools@.len() - i,
    {
        proof {
            assert(all[i as int] == tools@[i as int]@);
        }
        if text::same(tools[i].name.as_str(), name) {
            return Some(i);
        }
        i += 1;
    }
    None
}

/// The choices of agent type: none, or one of the names.
pub open spec fn type_choices(names: Seq<Seq<char>>) -> Seq<Option<Seq<char>>> {
    seq![None::<Seq<char>>] + names.map_values(|n: Seq<char>| Some(n))
}

/// The definition of `run_agent` for the agent types that are configured; nothing
/// where its schema does not have the shape for it.
pub open spec fn specialized(tool: ToolView, names: Seq<Seq<char>>, hint: Seq<char>) -> Option<
    ToolView,
> {
    if names.len() == 0 {
        match json::without_member(tool.schema, "properties"@, "agent_type"@) {
            Some(schema) => Some(ToolView { schema, ..tool }),
            None => None,
        }
    } else {
        match json::with_list(
            tool.schema,
            "properties"@,
            "agent_type"@,
            "enum"@,
            type_choices(names),
        ) {
            Some(schema) => Some(
                ToolView { schema, description: tool.description + hint, ..tool },
            ),
            None => None,
        }
    }
}

/// The tool array with `run_agent` specialized.
pub open spec fn with_agent_types(
    tools: Seq<ToolView>,
    names: Seq<Seq<char>>,
    hint: Seq<char>,
) -> Seq<ToolView> {
    match first_named(tools, "run_agent"@, 0) {
        None => tools,
        Some(i) => match specialized(tools[i], names, hint) {
            Some(tool) => tools.update(i, tool),
            None => tools,
        },
    }
}

fn choices_of(names: &Vec<String>) -> (r: Vec<Option<String>>)
    ensures
        json::values(r@) == type_choices(text::texts(names@)),
{
    let ghost all = text::texts(names@);
    let mut out: Vec<Option<String>> = Vec::new();
    out.push(None);
    let mut i: usize = 0;
    proof {
        assert(json::values(out@) =~= type_choices(all.take(0)));
    }
    while i < names.len()
        invariant
            i <= names@.len(),
            all == text::texts(names@),
            json::values(out@) == type_choices(all.take(i as int)),
        decreases names@.len() - i,
    {
        let ghost before = out@;
        let name = names[i].clone();
        out.push(Some(name));
        i += 1;
        proof {
            assert(protocol::opt(Some(name)) == Some(all[i - 1]));
            assert(json::values(out@) =~= json::values(before).push(Some(all[i - 1])));
            assert(type_choices(all.take(i as int)) =~= type_choices(all.take(i - 1)).push(
                Some(all[i - 1]),
            ));
        }
    }
    proof {
        assert(all.take(i as int) =~= all);
    }
    out
}

/// Makes `run_agent` offer the agent types that are configured: without any, the
/// parameter goes; else it lists them, and the description gets the hint. A
/// definition that does not have the shape for it stays as it is.
pub fn specialize_run_agent_def(tools: &mut Vec<ToolDef>, names: &Vec<String>, hint: &str)
    ensures
        tokens::tool_views(final(tools)@) == with_agent_types(
            tokens::tool_views(old(tools)@),
            text::texts(names@),
            hint@,
        ),
{
    let ghost before = tokens::tool_views(tools@);
    let at = match find_tool(tools, "run_agent") {
        Some(at) => at,
        None => {
            return ;
        },
    };
    proof {
        assert(before[at as int] == tools@[at as int]@);
        assert(text::texts(names@).len() == names@.len());
    }
    let schema = if names.len() == 0 {
        json::remove_member(tools[at].schema.as_str(), "properties", "agent_type")
    } else {
        let choices = choices_of(names);
        json::insert_list(
            tools[at].schema.as_str(),
            "properties",
            "agent_type",
            "enum",
            &choices,
        )
    };
    if let Some(schema) = schema {
        let old_tool = tools.remove(at);
        let mut description = old_tool.description;
        if names.len() > 0 {
            description.append(hint);
        }
        let tool = ToolDef { name: old_tool.name, description, schema };
        let ghost view = tool@;
        tools.insert(at, tool);
        proof {
            assert(tokens::tool_views(tools@) =~= before.update(at as int, view));
        }
    }
}

/// The tools that an allowlist leaves.
pub open spec fn allowed(tools: Seq<ToolView>, allow: Seq<Seq<char>>) -> Seq<ToolView>
    decreases tools.len(),
{
    if tools.len() == 0 {
        Seq::empty()
    } else {
        let before = allowed(tools.drop_last(), allow);
        if allow.contains(tools.last().name) {
            before.push(tools.last())
        } else {
            before
        }
    }
}

/// What a tool array is composed of besides the catalog. `skill_tool` is there
/// where a model can invoke a skill; `structured_tool` in a turn that must end in
/// structured output.
#[derive(Debug, PartialEq, Eq)]
pub struct ToolParts {
    pub skill_tool: Option<ToolDef>,
    pub allowlist: Option<Vec<String>>,
    pub structured_tool: Option<ToolDef>,
    pub agent_types: Vec<String>,
    pub agent_types_hint: String,
}

/// The tool array of a request. The skill tool is only for the main agent and
/// before the allowlist; the tool for structured output comes after it.
pub open spec fn composed(base: Seq<ToolView>, p: ToolParts, depth: u8) -> Seq<ToolView> {
    let with_skill = match p.skill_tool {
        Some(tool) if depth == 0 && first_named(base, "skill"@, 0) is None => base.push(tool@),
        _ => base,
    };
    let filtered = match p.allowlist {
        Some(list) => allowed(with_skill, text::texts(list@)),
        None => with_skill,
    };
    let complete = match p.structured_tool {
        Some(tool) => filtered.push(tool@),
        None => filtered,
    };
    if depth == 0 {
        with_agent_types(complete, text::texts(p.agent_types@), p.agent_types_hint@)
    } else {
        complete
    }
}

fn holds_name(list: &Vec<String>, name: &str) -> (r: bool)
    ensures
        r == text::texts(list@).contains(name@),
{
    let mut i: usize = 0;
    while i < list.len()
        invariant
            i <= list@.len(),
            forall|k: int| 0 <= k < i ==> text::texts(list@)[k] != name@,
        decreases list@.len() - i,
    {
        proof {
            assert(text::texts(list@)[i as int] == list@[i as int]@);
        }
        if text::same(list[i].as_str(), name) {
            proof {
                assert(text::texts(list@)[i as int] == name@);
            }
            return true;
        }
        i += 1;
    }
    false
}

fn copy_tool(tool: &ToolDef) -> (r: ToolDef)
    ensures
        r@ == tool@,
{
    ToolDef {
        name: tool.name.clone(),
        description: tool.description.clone(),
        schema: tool.schema.clone(),
    }
}

fn push_tool(tools: &mut Vec<ToolDef>, tool: ToolDef)
    ensures
        tokens::tool_views(final(tools)@) == tokens::tool_views(old(tools)@).push(tool@),
{
    let ghost before = tokens::tool_views(tools@);
    tools.push(tool);
    proof {
        assert(tokens::tool_views(tools@) =~= before.push(tool@));
    }
}

fn keep_allowed(tools: &Vec<ToolDef>, allow: &Vec<String>) -> (r: Vec<ToolDef>)
    ensures
        tokens::tool_views(r@) == allowed(tokens::tool_views(tools@), text::texts(allow@)),
{
    let ghost all = tokens::tool_views(tools@);
    let mut out: Vec<ToolDef> = Vec::new();
    let mut i: usize = 0;
    proof {
        assert(tokens::tool_views(out@) =~= allowed(all.take(0), text::texts(allow@)));
    }
    while i < tools.len()
        invariant
            i <= tools@.len(),
            all == tokens::tool_views(tools@),
            tokens::tool_views(out@) == allowed(all.take(i as int), text::texts(allow@)),
        decreases tools@.len() - i,
    {
        proof {
            assert(all.take(i + 1).drop_last() =~= all.take(i as int));
            assert(all.take(i + 1).last() == tools@[i as int]@);
        }
        if holds_name(allow, tools[i].name.as_str()) {
            push_tool(&mut out, copy_tool(&tools[i]));
        }
        i += 1;
    }
    proof {
        assert(all.take(i as int) =~= all);
    }
    out
}

/// The tool array of a request, from one snapshot of the catalog.
pub fn compose_tools(base: Vec<ToolDef>, parts: &ToolParts, depth: u8) -> (r: Vec<ToolDef>)
    ensures
        tokens::tool_views(r@) == composed(tokens::tool_views(base@), *parts, depth),
{
    let mut tools = base;
    if let Some(tool) = &parts.skill_tool {
        if depth == 0 && find_tool(&tools, "skill").is_none() {
            push_tool(&mut tools, copy_tool(tool));
        }
    }
    if let Some(list) = &parts.allowlist {
        tools = keep_allowed(&tools, list);
    }
    if let Some(tool) = &parts.structured_tool {
        push_tool(&mut tools, copy_tool(tool));
    }
    if depth == 0 {
        specialize_run_agent_def(
            &mut tools,
            &parts.agent_types,
            parts.agent_types_hint.as_str(),
        );
    }
    tools
}

// ---------------------------------------------------------------------------
// Structured output
// ---------------------------------------------------------------------------

/// The tool that a structured turn ends in.
pub const STRUCTURED_TOOL: &'static str = "structured_output";

/// What is said of a second answer.
pub const ONE_ANSWER: &'static str = "only one structured_output call may complete a turn";

/// The calls that are not the structured answer.
pub open spec fn ordinary(calls: Seq<CallView>) -> Seq<CallView>
    decreases calls.len(),
{
    if calls.len() == 0 {
        Seq::empty()
    } else {
        let before = ordinary(calls.drop_last());
        if calls.last().name == STRUCTURED_TOOL@ {
            before
        } else {
            before.push(calls.last())
        }
    }
}

/// The value that the first valid answer among the first `n` calls gives.
pub open spec fn accepted(
    calls: Seq<CallView>,
    verdicts: Seq<Result<Seq<char>, Seq<char>>>,
    n: nat,
) -> Option<Seq<char>>
    decreases n,
{
    if n == 0 {
        None
    } else {
        match accepted(calls, verdicts, (n - 1) as nat) {
            Some(value) => Some(value),
            None => match verdicts[n - 1] {
                Ok(value) if calls[n - 1].name == STRUCTURED_TOOL@ => Some(value),
                _ => None,
            },
        }
    }
}

/// A call that went well.
pub open spec fn good_result(id: Seq<char>, words: Seq<char>) -> BlockView {
    BlockView::ToolResult { tool_use_id: id, content: ResultView::Text(words), is_error: false }
}

/// What a structured answer is told.
pub open spec fn answer_result(
    calls: Seq<CallView>,
    verdicts: Seq<Result<Seq<char>, Seq<char>>>,
    i: int,
    thanks: Seq<char>,
) -> BlockView {
    if accepted(calls, verdicts, i as nat) is Some {
        agent::failed_result(calls[i].id, ONE_ANSWER@)
    } else {
        match verdicts[i] {
            Ok(_) => good_result(calls[i].id, thanks),
            Err(e) => agent::failed_result(calls[i].id, e),
        }
    }
}

/// The results of the first `n` calls, in their order: answers are judged here,
/// the others come from the dispatcher.
pub open spec fn answered(
    calls: Seq<CallView>,
    verdicts: Seq<Result<Seq<char>, Seq<char>>>,
    dispatched: Seq<BlockView>,
    thanks: Seq<char>,
    n: nat,
) -> Seq<BlockView>
    decreases n,
{
    if n == 0 {
        Seq::empty()
    } else {
        let before = answered(calls, verdicts, dispatched, thanks, (n - 1) as nat);
        if calls[n - 1].name == STRUCTURED_TOOL@ {
            before.push(answer_result(calls, verdicts, n - 1, thanks))
        } else {
            before.push(dispatched[ordinary(calls.take(n - 1)).len() as int])
        }
    }
}

/// The view of verdicts.
pub open spec fn verdict_views(v: Seq<Result<String, String>>) -> Seq<
    Result<Seq<char>, Seq<char>>,
> {
    v.map_values(
        |r: Result<String, String>|
            match r {
                Ok(value) => Ok::<Seq<char>, Seq<char>>(value@),
                Err(e) => Err::<Seq<char>, Seq<char>>(e@),
            },
    )
}

/// The calls that go to the dispatcher.
pub fn ordinary_calls(calls: &Vec<ToolCall>) -> (r: Vec<ToolCall>)
    ensures
        agent::calls(r@) == ordinary(agent::calls(calls@)),
{
    let ghost all = agent::calls(calls@);
    let mut out: Vec<ToolCall> = Vec::new();
    let mut i: usize = 0;
    proof {
        assert(agent::calls(out@) =~= ordinary(all.take(0)));
    }
    while i < calls.len()
        invariant
            i <= calls@.len(),
            all == agent::calls(calls@),
            agent::calls(out@) == ordinary(all.take(i as int)),
        decreases calls@.len() - i,
    {
        proof {
            assert(all.take(i + 1).drop_last() =~= all.take(i as int));
            assert(all.take(i + 1).last() == calls@[i as int]@);
        }
        if !text::same(calls[i].name.as_str(), STRUCTURED_TOOL) {
            let call = ToolCall {
                id: calls[i].id.clone(),
                name: calls[i].name.clone(),
                input: calls[i].input.clone(),
            };
            let ghost before = agent::calls(out@);
            let ghost view = call@;
            out.push(call);
            proof {
                assert(agent::calls(out@) =~= before.push(view));
            }
        }
        i += 1;
    }
    proof {
        assert(all.take(i as int) =~= all);
    }
    out
}

proof fn lemma_ordinary_grows(calls: Seq<CallView>, k: int, n: int)
    requires
        0 <= k <= n <= calls.len(),
    ensures
        ordinary(calls.take(k)).len() <= ordinary(calls.take(n)).len(),
        k < n && calls[k].name != STRUCTURED_TOOL@ ==> ordinary(calls.take(k)).len() < ordinary(
            calls.take(n),
        ).len(),
    decreases n - k,
{
    if k < n {
        assert(calls.take(k + 1).drop_last() =~= calls.take(k));
        assert(calls.take(k + 1).last() == calls[k]);
        lemma_ordinary_grows(calls, k + 1, n);
    }
}

fn push_block(list: &mut Vec<ContentBlock>, block: ContentBlock)
    ensures
        protocol::blocks(final(list)@) == protocol::blocks(old(list)@).push(block@),
{
    let ghost before = protocol::blocks(list@);
    list.push(block);
    proof {
        assert(protocol::blocks(list@) =~= before.push(block@));
    }
}

/// Answers the calls of a structured turn, in their order. `verdicts` holds what
/// validating each call's input came to (of the calls that are no answers it is
/// not read), `dispatched` the results of the ordinary calls. Gives the value of
/// the one accepted answer.
pub fn dispatch_structured(
    calls: &Vec<ToolCall>,
    verdicts: &Vec<Result<String, String>>,
    dispatched: &Vec<ContentBlock>,
    thanks: &str,
) -> (r: (Vec<ContentBlock>, Option<String>))
    requires
        verdicts@.len() == calls@.len(),
        dispatched@.len() >= ordinary(agent::calls(calls@)).len(),
    ensures
        protocol::blocks(r.0@) == answered(
            agent::calls(calls@),
            verdict_views(verdicts@),
            protocol::blocks(dispatched@),
            thanks@,
            calls@.len(),
        ),
        protocol::opt(r.1) == accepted(
            agent::calls(calls@),
            verdict_views(verdicts@),
            calls@.len(),
        ),
{
    let ghost all = agent::calls(calls@);
    let ghost judged = verdict_views(verdicts@);
    let ghost results = protocol::blocks(dispatched@);
    let mut out: Vec<ContentBlock> = Vec::new();
    let mut value: Option<String> = None;
    let mut used: usize = 0;
    let mut i: usize = 0;
    proof {
        assert(protocol::blocks(out@) =~= answered(all, judged, results, thanks@, 0));
        assert(all.take(0) =~= Seq::<CallView>::empty());
        assert(all.take(all.len() as int) =~= all);
    }
    while i < calls.len()
        invariant
            i <= calls@.len(),
            all == agent::calls(calls@),
            judged == verdict_views(verdicts@),
            results == protocol::blocks(dispatched@),
            verdicts@.len() == calls@.len(),
            dispatched@.len() >= ordinary(all).len(),
            all.take(all.len() as int) == all,
            used == ordinary(all.take(i as int)).len(),
            used <= i,
            protocol::blocks(out@) == answered(all, judged, results, thanks@, i as nat),
            protocol::opt(value) == accepted(all, judged, i as nat),
        decreases calls@.len() - i,
    {
        proof {
            assert(all[i as int] == calls@[i as int]@);
            assert(all.take(i + 1).drop_last() =~= all.take(i as int));
            assert(all.take(i + 1).last() == all[i as int]);
            lemma_ordinary_grows(all, i as int, all.len() as int);
        }
        if text::same(calls[i].name.as_str(), STRUCTURED_TOOL) {
            let id = calls[i].id.clone();
            let block = if value.is_some() {
                ContentBlock::ToolResult {
                    tool_use_id: id,
                    content: ToolResultContent::Text(ONE_ANSWER.to_owned()),
                    is_error: true,
                }
            } else {
                match &verdicts[i] {
                    Ok(found) => {
                        value = Some(found.clone());
                        ContentBlock::ToolResult {
                            tool_use_id: id,
                            content: ToolResultContent::Text(thanks.to_owned()),
                            is_error: false,
                        }
                    },
                    Err(e) => ContentBlock::ToolResult {
                        tool_use_id: id,
                        content: ToolResultContent::Text(e.clone()),
                        is_error: true,
                    },
                }
            };
            push_block(&mut out, block);
        } else {
            proof {
                assert(results[used as int] == dispatched@[used as int]@);
            }
            push_block(&mut out, dispatched[used].clone());
            used += 1;
        }
        i += 1;
    }
    (out, value)
}

// ---------------------------------------------------------------------------
// Laws
// ---------------------------------------------------------------------------

/// Every call of a structured turn gets one result, in its place: an answer its
/// own, an ordinary call what the dispatcher gave it.
pub proof fn law_structured_calls_are_answered_in_place(
    calls: Seq<CallView>,
    verdicts: Seq<Result<Seq<char>, Seq<char>>>,
    dispatched: Seq<BlockView>,
    thanks: Seq<char>,
    n: nat,
    i: int,
)
    requires
        n <= calls.len(),
        0 <= i < n,
    ensures
        answered(calls, verdicts, dispatched, thanks, n).len() == n,
        answered(calls, verdicts, dispatched, thanks, n)[i] == (if calls[i].name
            == STRUCTURED_TOOL@ {
            answer_result(calls, verdicts, i, thanks)
        } else {
            dispatched[ordinary(calls.take(i)).len() as int]
        }),
    decreases n,
{
    if n == 1 {
        assert(answered(calls, verdicts, dispatched, thanks, 0).len() == 0);
    } else if i < n - 1 {
        law_structured_calls_are_answered_in_place(
            calls,
            verdicts,
            dispatched,
            thanks,
            (n - 1) as nat,
            i,
        );
    } else {
        law_structured_calls_are_answered_in_place(
            calls,
            verdicts,
            dispatched,
            thanks,
            (n - 1) as nat,
            0,
        );
    }
}

proof fn lemma_accepted_stays(
    calls: Seq<CallView>,
    verdicts: Seq<Result<Seq<char>, Seq<char>>>,
    k: nat,
    n: nat,
)
    requires
        k <= n,
        accepted(calls, verdicts, k) is Some,
    ensures
        accepted(calls, verdicts, n) == accepted(calls, verdicts, k),
    decreases n - k,
{
    if k < n {
        lemma_accepted_stays(calls, verdicts, k, (n - 1) as nat);
    }
}

/// One answer completes a turn: the first valid one, and every answer after it is
/// refused.
pub proof fn law_one_answer_completes_the_turn(
    calls: Seq<CallView>,
    verdicts: Seq<Result<Seq<char>, Seq<char>>>,
    thanks: Seq<char>,
    first: int,
    later: int,
)
    requires
        0 <= first < later < calls.len(),
        verdicts.len() == calls.len(),
        calls[first].name == STRUCTURED_TOOL@,
        accepted(calls, verdicts, first as nat) is None,
        verdicts[first] is Ok,
    ensures
        accepted(calls, verdicts, calls.len()) == Some(verdicts[first]->Ok_0),
        answer_result(calls, verdicts, first, thanks) == good_result(calls[first].id, thanks),
        answer_result(calls, verdicts, later, thanks) == agent::failed_result(
            calls[later].id,
            ONE_ANSWER@,
        ),
{
    let k = (first + 1) as nat;
    lemma_accepted_stays(calls, verdicts, k, later as nat);
    lemma_accepted_stays(calls, verdicts, k, calls.len());
}

/// A restricted agent sees no tool outside its allowlist, except the one that its
/// structured turn must end in.
pub proof fn law_the_allowlist_holds(
    base: Seq<ToolView>,
    parts: ToolParts,
    depth: u8,
    list: Vec<String>,
    i: int,
)
    requires
        parts.allowlist == Some(list),
        depth > 0,
        0 <= i < composed(base, parts, depth).len(),
    ensures
        text::texts(list@).contains(composed(base, parts, depth)[i].name) || (
        parts.structured_tool matches Some(tool) && composed(base, parts, depth)[i] == tool@),
{
    lemma_allowed(base, text::texts(list@), i);
}

proof fn lemma_allowed(tools: Seq<ToolView>, allow: Seq<Seq<char>>, i: int)
    ensures
        0 <= i < allowed(tools, allow).len() ==> allow.contains(allowed(tools, allow)[i].name),
    decreases tools.len(),
{
    if tools.len() > 0 {
        lemma_allowed(tools.drop_last(), allow, i);
    }
}

/// What is put in front of a conversation, in this order: the reminder of plan mode, the
/// project's instructions, the skills, for the main agent alone, and the notice of tools
/// that are not loaded; each only where there is one.
pub proof fn law_what_is_put_in_front(p: InjectedParts, depth: u8)
    ensures
        ({
            let list = parts_of(p, depth);
            let a: int = if p.plan_mode {
                1
            } else {
                0
            };
            let b: int = if p.project_instructions is Some {
                1
            } else {
                0
            };
            let c: int = if p.skills_catalog is Some && depth == 0 {
                1
            } else {
                0
            };
            let d: int = if p.deferred_notice is Some {
                1
            } else {
                0
            };
            &&& list.len() == a + b + c + d
            &&& a == 1 ==> list[0] == ("plan-mode reminder"@, PLAN_MODE_REMINDER@)
            &&& b == 1 ==> list[a] == ("project instructions"@, p.project_instructions->0@)
            &&& c == 1 ==> list[a + b] == ("skills catalog"@, p.skills_catalog->0@)
            &&& d == 1 ==> list[a + b + c] == ("deferred-tool notice"@, p.deferred_notice->0@)
        }),
{
}

/// The parts are put in as one text, a blank line between them; where there is no part,
/// nothing is put in.
pub proof fn law_the_parts_are_one_text(
    list: Seq<(Seq<char>, Seq<char>)>,
    label: Seq<char>,
    words: Seq<char>,
)
    ensures
        context_of(Seq::<(Seq<char>, Seq<char>)>::empty()) is None,
        context_of(seq![(label, words)]) == Some(words),
        list.len() > 0 ==> context_of(list.push((label, words))) == Some(
            context_of(list)->0 + "\n\n"@ + words,
        ),
{
    assert(part_texts(seq![(label, words)]) =~= seq![words]);
    assert(part_texts(list.push((label, words))) =~= part_texts(list).push(words));
    text::lemma_join_push(part_texts(list), "\n\n"@, words);
}

/// What a request takes besides the conversation is its system prompt, its tools and what
/// is put in front; it is counted only until the provider has counted, for then it is
/// part of the count.
pub proof fn law_the_overhead_is_counted_once(
    h: history::HistoryView,
    sizes: Seq<u64>,
    system: Seq<char>,
    tools: Seq<ToolDef>,
    injected: Option<Seq<char>>,
)
    ensures
        ({
            let overhead = overhead_tokens(system, tools, injected);
            let all = tokens::text_tokens(system) + tools_tokens(tools) + (match injected {
                Some(words) => tokens::text_tokens(words),
                None => 0,
            });
            &&& overhead == (if all <= u64::MAX {
                all
            } else {
                u64::MAX as nat
            })
            &&& h.anchor is Some ==> request_tokens(h, sizes, overhead) == history::context_tokens(
                h,
                sizes,
            )
            &&& h.anchor is None && history::context_tokens(h, sizes) + overhead <= u64::MAX
                ==> request_tokens(h, sizes, overhead) == history::context_tokens(h, sizes)
                + overhead
            &&& h.anchor is None && history::context_tokens(h, sizes) + overhead > u64::MAX
                ==> request_tokens(h, sizes, overhead) == u64::MAX
        }),
{
}

/// Every tool counts with all that the model sees of it.
pub proof fn law_every_tool_counts(tools: Seq<ToolDef>, tool: ToolDef)
    ensures
        tools_tokens(tools.push(tool)) == tools_tokens(tools) + tokens::saturated(
            tokens::text_tokens(tool.name@ + tool.description@ + tool.compact_schema()),
        ),
        tools_tokens(Seq::<ToolDef>::empty()) == 0,
{
    assert(tools.push(tool).drop_last() =~= tools);
    assert(tools.push(tool).last() == tool);
}

/// A tool is found by its name at its first place.
pub proof fn law_a_tool_is_found_at_its_first_place(
    tools: Seq<ToolView>,
    name: Seq<char>,
    from: int,
    i: int,
)
    requires
        0 <= from <= i <= tools.len(),
        forall|k: int| from <= k < i ==> (#[trigger] tools[k]).name != name,
    ensures
        i == tools.len() ==> first_named(tools, name, from) is None,
        i < tools.len() && tools[i].name == name ==> first_named(tools, name, from) == Some(i),
    decreases i - from,
{
    if from < i {
        assert(tools[from].name != name);
        law_a_tool_is_found_at_its_first_place(tools, name, from + 1, i);
    }
}

/// Whether `out` is the tools of `tools` with an allowed name, all of them, untouched and
/// in order: `at` says where each stood.
pub open spec fn are_the_allowed(
    out: Seq<ToolView>,
    tools: Seq<ToolView>,
    allow: Seq<Seq<char>>,
    at: Seq<int>,
) -> bool {
    &&& at.len() == out.len()
    &&& forall|k: int, l: int| 0 <= k < l < at.len() ==> #[trigger] at[k] < #[trigger] at[l]
    &&& forall|k: int|
        0 <= k < at.len() ==> 0 <= #[trigger] at[k] < tools.len() && out[k] == tools[at[k]]
            && allow.contains(tools[at[k]].name)
    &&& forall|i: int|
        0 <= i < tools.len() && allow.contains((#[trigger] tools[i]).name) ==> at.contains(i)
}

/// The allowed tools are those with an allowed name, and no other.
pub proof fn law_the_allowed_tools_are_those_named(tools: Seq<ToolView>, allow: Seq<Seq<char>>)
    ensures
        exists|at: Seq<int>| #[trigger] are_the_allowed(allowed(tools, allow), tools, allow, at),
    decreases tools.len(),
{
    let now = allowed(tools, allow);
    if tools.len() == 0 {
        assert(are_the_allowed(now, tools, allow, Seq::<int>::empty()));
    } else {
        let front = tools.drop_last();
        law_the_allowed_tools_are_those_named(front, allow);
        let before = allowed(front, allow);
        let at = choose|at: Seq<int>| #[trigger] are_the_allowed(before, front, allow, at);
        let n = front.len() as int;
        assert(tools[n] == tools.last());
        let places = if allow.contains(tools.last().name) {
            at.push(n)
        } else {
            at
        };
        assert forall|k: int| 0 <= k < places.len() implies 0 <= #[trigger] places[k] < tools.len()
            && now[k] == tools[places[k]] && allow.contains(tools[places[k]].name) by {
            if k < at.len() {
                assert(places[k] == at[k]);
                assert(0 <= at[k] < front.len());
                assert(tools[at[k]] == front[at[k]]);
                assert(now[k] == before[k]);
            }
        }
        assert forall|i: int|
            0 <= i < tools.len() && allow.contains((#[trigger] tools[i]).name) implies
            places.contains(i) by {
            if i < n {
                assert(front[i] == tools[i]);
                assert(at.contains(i));
                let k = choose|k: int| 0 <= k < at.len() && at[k] == i;
                assert(places[k] == i);
            } else {
                assert(places[at.len() as int] == i);
            }
        }
        assert(are_the_allowed(now, tools, allow, places));
    }
}

/// The tools of a request are the base ones, with the skill tool behind them for the main
/// agent where there is none yet; of those, the allowed ones where there is a list; and
/// behind them the structured answer, list or no list. A child is told of no types of
/// agent; the main agent is told of them in the tool that runs one, and no other tool
/// changes.
pub proof fn law_which_tools_a_request_has(base: Seq<ToolView>, p: ToolParts, depth: u8)
    ensures
        ({
            let skilled = if p.skill_tool is Some && depth == 0 && first_named(base, "skill"@, 0)
                is None {
                base.push(p.skill_tool->0@)
            } else {
                base
            };
            let listed = if p.allowlist is Some {
                allowed(skilled, text::texts(p.allowlist->0@))
            } else {
                skilled
            };
            let complete = if p.structured_tool is Some {
                listed.push(p.structured_tool->0@)
            } else {
                listed
            };
            let now = composed(base, p, depth);
            &&& depth > 0 ==> now == complete
            &&& now.len() == complete.len()
            &&& forall|i: int|
                0 <= i < complete.len() && complete[i].name != "run_agent"@ ==> #[trigger] now[i]
                    == complete[i]
            &&& forall|i: int| 0 <= i < now.len() ==> (#[trigger] now[i]).name == complete[i].name
        }),
{
    let skilled = if p.skill_tool is Some && depth == 0 && first_named(base, "skill"@, 0) is None {
        base.push(p.skill_tool->0@)
    } else {
        base
    };
    let listed = if p.allowlist is Some {
        allowed(skilled, text::texts(p.allowlist->0@))
    } else {
        skilled
    };
    let complete = if p.structured_tool is Some {
        listed.push(p.structured_tool->0@)
    } else {
        listed
    };
    lemma_first_named_is_named(complete, "run_agent"@, 0);
}

proof fn lemma_first_named_is_named(tools: Seq<ToolView>, name: Seq<char>, from: int)
    ensures
        first_named(tools, name, from) matches Some(i) ==> from <= i < tools.len() && 0 <= i
            && tools[i].name == name,
    decreases tools.len() - from,
{
    if 0 <= from < tools.len() && tools[from].name != name {
        lemma_first_named_is_named(tools, name, from + 1);
    }
}

/// A tool that runs agents names the types there are, or, where there are none, has no
/// such choice; its name stays.
pub proof fn law_the_types_of_agent_are_named(
    tool: ToolView,
    names: Seq<Seq<char>>,
    hint: Seq<char>,
)
    ensures
        specialized(tool, names, hint) matches Some(now) ==> {
            &&& now.name == tool.name
            &&& names.len() == 0 ==> now.description == tool.description && Some(now.schema)
                == json::without_member(tool.schema, "properties"@, "agent_type"@)
            &&& names.len() > 0 ==> now.description == tool.description + hint && Some(now.schema)
                == json::with_list(
                tool.schema,
                "properties"@,
                "agent_type"@,
                "enum"@,
                type_choices(names),
            )
        },
        type_choices(names).len() == names.len() + 1,
        type_choices(names)[0] is None,
        forall|i: int| 0 <= i < names.len() ==> #[trigger] type_choices(names)[i + 1] == Some(names[i]),
{
}

/// The calls that are dispatched are those that are no structured answer, in order.
pub proof fn law_only_ordinary_calls_are_dispatched(calls: Seq<CallView>, call: CallView)
    ensures
        ordinary(calls.push(call)) == (if call.name == "structured_output"@ {
            ordinary(calls)
        } else {
            ordinary(calls).push(call)
        }),
        ordinary(Seq::<CallView>::empty()).len() == 0,
{
    assert(calls.push(call).drop_last() =~= calls);
    assert(calls.push(call).last() == call);
}

/// The answer is that of the first structured call that was found good.
pub proof fn law_the_first_good_answer_counts(
    calls: Seq<CallView>,
    verdicts: Seq<Result<Seq<char>, Seq<char>>>,
    n: nat,
    i: int,
)
    requires
        0 <= i < n,
        calls[i].name == "structured_output"@,
        verdicts[i] is Ok,
        forall|k: int|
            0 <= k < i ==> (#[trigger] calls[k]).name != "structured_output"@ || verdicts[k] is Err,
    ensures
        accepted(calls, verdicts, i as nat) is None,
        accepted(calls, verdicts, n) == Some(verdicts[i]->Ok_0),
    decreases n,
{
    lemma_no_answer_yet(calls, verdicts, i as nat);
    if i < n - 1 {
        law_the_first_good_answer_counts(calls, verdicts, (n - 1) as nat, i);
    }
}

proof fn lemma_no_answer_yet(
    calls: Seq<CallView>,
    verdicts: Seq<Result<Seq<char>, Seq<char>>>,
    n: nat,
)
    requires
        forall|k: int|
            0 <= k < n ==> (#[trigger] calls[k]).name != "structured_output"@ || verdicts[k] is Err,
    ensures
        accepted(calls, verdicts, n) is None,
    decreases n,
{
    if n > 0 {
        lemma_no_answer_yet(calls, verdicts, (n - 1) as nat);
        assert(calls[n - 1].name != "structured_output"@ || verdicts[n - 1] is Err);
    }
}

/// What a structured call is answered: the first good one with thanks, a bad one with what
/// is wrong with it, and any after a good one with an error of its own.
pub proof fn law_what_a_structured_call_is_answered(
    calls: Seq<CallView>,
    verdicts: Seq<Result<Seq<char>, Seq<char>>>,
    i: int,
    thanks: Seq<char>,
)
    requires
        0 <= i < calls.len(),
    ensures
        ({
            let taken = accepted(calls, verdicts, i as nat) is Some;
            answer_result(calls, verdicts, i, thanks) == BlockView::ToolResult {
                tool_use_id: calls[i].id,
                content: ResultView::Text(
                    if taken {
                        "only one structured_output call may complete a turn"@
                    } else if verdicts[i] is Ok {
                        thanks
                    } else {
                        verdicts[i]->Err_0
                    },
                ),
                is_error: taken || verdicts[i] is Err,
            }
        }),
{
}

} // verus!

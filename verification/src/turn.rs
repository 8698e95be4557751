//! One turn, decided step by step: each step takes what happened outside and
//! says what to write and what to do next.
//!
//! The caller performs the effects of a step in their order, does what the
//! demand asks, and hands the answer back as the next event.

use vstd::prelude::*;

use crate::agent::{
    AssistantOutcome, CallView, EndReason, EndReasonView, InvalidCall, InvalidView, OutcomeKind,
    ProviderFailure, ToolCall, TurnError, TurnErrorView, TurnOutcome, TurnOutcomeView,
    TurnTerminal, TurnTerminalView, Usage,
};
use crate::agent;
use crate::breaker::{BreakerView, CompactionBreaker, COMPACTION_PAUSED_NOTE};
use crate::breaker;
use crate::protocol::{BlockView, ContentBlock, Injected, InjectedView, Message, MessageView, Role};
use crate::protocol;
use crate::text;

verus! {

/// How often a turn resumes after a retryable mid-response stream failure.
pub const STREAM_RESUME_LIMIT: u32 = 3;

pub const STREAM_RESUME_MSG: &'static str =
    "Your previous response was cut off by a transient connection failure, not by you. Continue exactly where you left off.";

/// How often a turn asks the model to continue a truncated response.
pub const TRUNCATION_RECOVERY_LIMIT: u32 = 3;

pub const TRUNCATION_CONTINUE_MSG: &'static str =
    "Your previous response was cut off by the output token limit. Continue exactly where you left off; break the remaining work into smaller pieces.";

/// How often a structured turn may miss its structured output.
pub const STRUCTURED_ATTEMPT_LIMIT: usize = 3;

/// What set a compaction off.
#[derive(Clone, Copy, Debug, PartialEq, Eq, Structural)]
pub enum CompactionTrigger {
    Predictive,
    Reactive,
}

/// How a compaction went.
#[derive(Debug, PartialEq, Eq)]
pub enum CompactionResult {
    Applied { summarized: usize, kept: usize, description: String },
    NoOp,
    Failed { error: String, cancelled: bool },
}

/// How sampling one response went.
#[derive(Debug, PartialEq, Eq)]
pub enum Sampled {
    Accepted {
        blocks: Vec<ContentBlock>,
        usage: Option<Usage>,
        outcome: AssistantOutcome,
        invalid: Vec<InvalidCall>,
    },
    /// The provider rejected the request for size.
    Overflow,
    /// The user interrupted; `partial` is what can be replayed of the response.
    Cancelled { partial: Vec<ContentBlock>, produced_nothing: bool },
    /// The stream died after the model had said something.
    Partial { error: ProviderFailure, blocks: Vec<ContentBlock> },
    Terminal(ProviderFailure),
    Failed(ProviderFailure),
}

/// What a start hook decided.
#[derive(Debug, PartialEq, Eq)]
pub enum HookDecision {
    Allow { context: Vec<String> },
    Block { reason: String },
}

/// What happened outside.
#[derive(Debug, PartialEq, Eq)]
pub enum TurnEvent {
    /// The session's route was opened, or why it could not be.
    Route { error: Option<String> },
    /// The start hook ran.
    Started(HookDecision),
    /// The tool array was built, or why it could not be.
    Tools { error: Option<String> },
    /// The round boundary passed: how many messages the conversation holds,
    /// whether the next request is predicted to overflow the window, and the
    /// breaker of the automatic compaction.
    Boundary { messages: usize, overflow_predicted: bool, breaker: CompactionBreaker },
    Compaction(CompactionResult),
    Sampled(Sampled),
    /// Whether late work was found, and injected, when the turn would end.
    LateWork { found: bool },
    /// The calls ran.
    Dispatched {
        results: Vec<ContentBlock>,
        hook_context: Vec<String>,
        cancelled: bool,
        structured: Option<String>,
    },
    /// The stop hook ran.
    Stopped { context: Vec<String>, has_staged: bool, inbox_empty: bool },
}

/// Something to write or show, in order.
#[derive(Debug, PartialEq, Eq)]
pub enum Effect {
    /// Count the turn on the breaker of the automatic compaction.
    BeginTurn,
    /// Count a failure on the breaker of the automatic compaction.
    CountCompactionFailure,
    /// Hold a message outside the conversation until the turn produces
    /// something.
    Stage(Message),
    /// Move the staged input into the conversation.
    CommitStaged,
    Record(Message),
    RecordAssistant(Vec<ContentBlock>),
    RecordUsage(Usage),
    /// Anchor the context estimate at a total the provider reported.
    NoteUsage(u64),
    RecordTerminal(TurnTerminal),
    /// Tell the user.
    Note(String),
    /// Publish the running context estimate.
    PublishContext,
}

/// What to do next.
#[derive(Debug, PartialEq, Eq)]
pub enum Demand {
    StartHook,
    BuildTools,
    /// Deliver what is queued for the model, then report the boundary.
    RoundBoundary,
    Compact(CompactionTrigger),
    Sample,
    LateWork,
    Dispatch(Vec<ToolCall>),
    StopHook,
    Finish(TurnOutcome),
}

/// One step: what to write, then what to do.
#[derive(Debug, PartialEq, Eq)]
pub struct Step {
    pub effects: Vec<Effect>,
    pub demand: Demand,
}

/// What the turn waits for.
#[derive(Debug, PartialEq, Eq)]
pub enum Phase {
    Routing,
    Starting,
    Opening,
    Boundary,
    Compacting,
    Sampling,
    Recovering,
    Finishing { text: Option<String>, structured: Option<String> },
    Dispatching { blocks: Vec<ContentBlock>, invalid: Vec<InvalidCall> },
    Closing { outcome: TurnOutcome },
    Ended,
}

/// What is fixed for a turn.
#[derive(Debug, PartialEq, Eq)]
pub struct TurnOptions {
    /// A sub-agent runs below depth 0.
    pub depth: u8,
    /// The label of a sub-agent; empty for the main agent.
    pub agent: String,
    pub max_rounds: Option<usize>,
    /// Whether a context window is configured, so that compaction can help.
    pub has_window: bool,
    /// Whether the turn must end in a structured output.
    pub structured: bool,
    /// What a structured turn is told when it produced none.
    pub nudge: String,
}

/// One turn's state across its rounds.
#[derive(Debug, PartialEq, Eq)]
pub struct Turn {
    options: TurnOptions,
    phase: Phase,
    overflow_compact_attempted: bool,
    truncation_recoveries: u32,
    stream_resumes: u32,
    /// Cut-off text from truncated rounds, put before the final answer.
    truncated_prefix: String,
    rounds: usize,
    structured_failures: usize,
    /// Everything the assistant said across the turn's rounds.
    produced_text: String,
    /// The breaker of the automatic compaction at the last round boundary.
    breaker: CompactionBreaker,
}

// ---------------------------------------------------------------------------
// Models
// ---------------------------------------------------------------------------

#[verifier::ext_equal]
pub enum EffectView {
    BeginTurn,
    CountCompactionFailure,
    Stage(MessageView),
    CommitStaged,
    Record(MessageView),
    RecordAssistant(Seq<BlockView>),
    RecordUsage(Usage),
    NoteUsage(nat),
    RecordTerminal(TurnTerminalView),
    Note(Seq<char>),
    PublishContext,
}

#[verifier::ext_equal]
pub enum DemandView {
    StartHook,
    BuildTools,
    RoundBoundary,
    Compact(CompactionTrigger),
    Sample,
    LateWork,
    Dispatch(Seq<CallView>),
    StopHook,
    Finish(TurnOutcomeView),
}

#[verifier::ext_equal]
pub struct StepView {
    pub effects: Seq<EffectView>,
    pub demand: DemandView,
}

#[verifier::ext_equal]
pub enum PhaseView {
    Routing,
    Starting,
    Opening,
    Boundary,
    Compacting,
    Sampling,
    Recovering,
    Finishing { text: Option<Seq<char>>, structured: Option<Seq<char>> },
    Dispatching { blocks: Seq<BlockView>, invalid: Seq<InvalidView> },
    Closing { outcome: TurnOutcomeView },
    Ended,
}

#[verifier::ext_equal]
pub struct TurnView {
    pub depth: u8,
    pub subagent: bool,
    pub max_rounds: Option<usize>,
    pub has_window: bool,
    pub structured: bool,
    pub nudge: Seq<char>,
    pub phase: PhaseView,
    pub overflow_compact_attempted: bool,
    pub truncation_recoveries: nat,
    pub stream_resumes: nat,
    pub truncated_prefix: Seq<char>,
    pub rounds: nat,
    pub structured_failures: nat,
    pub produced: Seq<char>,
    pub breaker: BreakerView,
}

impl View for Effect {
    type V = EffectView;

    open spec fn view(&self) -> EffectView {
        match self {
            Effect::BeginTurn => EffectView::BeginTurn,
            Effect::CountCompactionFailure => EffectView::CountCompactionFailure,
            Effect::Stage(m) => EffectView::Stage(m@),
            Effect::CommitStaged => EffectView::CommitStaged,
            Effect::Record(m) => EffectView::Record(m@),
            Effect::RecordAssistant(b) => EffectView::RecordAssistant(protocol::blocks(b@)),
            Effect::RecordUsage(u) => EffectView::RecordUsage(*u),
            Effect::NoteUsage(n) => EffectView::NoteUsage(*n as nat),
            Effect::RecordTerminal(t) => EffectView::RecordTerminal(t@),
            Effect::Note(t) => EffectView::Note(t@),
            Effect::PublishContext => EffectView::PublishContext,
        }
    }
}

/// The view of a list of effects.
pub open spec fn effects(v: Seq<Effect>) -> Seq<EffectView> {
    v.map_values(|e: Effect| e@)
}

impl View for Demand {
    type V = DemandView;

    open spec fn view(&self) -> DemandView {
        match self {
            Demand::StartHook => DemandView::StartHook,
            Demand::BuildTools => DemandView::BuildTools,
            Demand::RoundBoundary => DemandView::RoundBoundary,
            Demand::Compact(t) => DemandView::Compact(*t),
            Demand::Sample => DemandView::Sample,
            Demand::LateWork => DemandView::LateWork,
            Demand::Dispatch(c) => DemandView::Dispatch(agent::calls(c@)),
            Demand::StopHook => DemandView::StopHook,
            Demand::Finish(o) => DemandView::Finish(o@),
        }
    }
}

impl View for Step {
    type V = StepView;

    open spec fn view(&self) -> StepView {
        StepView { effects: effects(self.effects@), demand: self.demand@ }
    }
}

impl View for Phase {
    type V = PhaseView;

    open spec fn view(&self) -> PhaseView {
        match self {
            Phase::Routing => PhaseView::Routing,
            Phase::Starting => PhaseView::Starting,
            Phase::Opening => PhaseView::Opening,
            Phase::Boundary => PhaseView::Boundary,
            Phase::Compacting => PhaseView::Compacting,
            Phase::Sampling => PhaseView::Sampling,
            Phase::Recovering => PhaseView::Recovering,
            Phase::Finishing { text, structured } => PhaseView::Finishing {
                text: protocol::opt(*text),
                structured: protocol::opt(*structured),
            },
            Phase::Dispatching { blocks, invalid } => PhaseView::Dispatching {
                blocks: protocol::blocks(blocks@),
                invalid: agent::invalid_calls(invalid@),
            },
            Phase::Closing { outcome } => PhaseView::Closing { outcome: outcome@ },
            Phase::Ended => PhaseView::Ended,
        }
    }
}

impl View for Turn {
    type V = TurnView;

    closed spec fn view(&self) -> TurnView {
        TurnView {
            depth: self.options.depth,
            subagent: self.options.agent@.len() > 0,
            max_rounds: self.options.max_rounds,
            has_window: self.options.has_window,
            structured: self.options.structured,
            nudge: self.options.nudge@,
            phase: self.phase@,
            overflow_compact_attempted: self.overflow_compact_attempted,
            truncation_recoveries: self.truncation_recoveries as nat,
            stream_resumes: self.stream_resumes as nat,
            truncated_prefix: self.truncated_prefix@,
            rounds: self.rounds as nat,
            structured_failures: self.structured_failures as nat,
            produced: self.produced_text@,
            breaker: self.breaker@,
        }
    }
}

// ---------------------------------------------------------------------------
// The transitions
// ---------------------------------------------------------------------------

/// A message from the harness.
pub open spec fn harness(t: Seq<char>) -> MessageView {
    protocol::text_message(Role::User, t, Some(InjectedView::Harness))
}

/// A message from a hook.
pub open spec fn hooked(t: Seq<char>) -> MessageView {
    protocol::text_message(Role::User, t, Some(InjectedView::Hook))
}

pub open spec fn said_error(m: Seq<char>) -> EndReasonView {
    EndReasonView::Error(TurnErrorView::Message(m))
}

/// The turn is over: an end that says nothing of the text hands back
/// everything the turn produced.
pub open spec fn ended(
    s: TurnView,
    done: Seq<EffectView>,
    reason: EndReasonView,
    text: Option<Seq<char>>,
    rounds: nat,
    structured: Option<Seq<char>>,
) -> (TurnView, StepView) {
    let outcome = TurnOutcomeView {
        reason,
        final_text: match text {
            Some(t) => t,
            None => s.produced,
        },
        rounds,
        structured,
    };
    (
        TurnView { phase: PhaseView::Closing { outcome }, ..s },
        StepView { effects: done, demand: DemandView::StopHook },
    )
}

/// The turn never began: its closing line is all that is written.
pub open spec fn refused(s: TurnView, reason: Seq<char>) -> (TurnView, StepView) {
    let outcome = TurnOutcomeView {
        reason: said_error(reason),
        final_text: Seq::empty(),
        rounds: 0,
        structured: None,
    };
    (
        TurnView { phase: PhaseView::Ended, ..s },
        StepView {
            effects: seq![EffectView::RecordTerminal(agent::terminal_of(outcome.reason))],
            demand: DemandView::Finish(outcome),
        },
    )
}

pub open spec fn limit_reached(s: TurnView) -> bool {
    s.max_rounds matches Some(limit) && s.rounds >= limit
}

/// The head of the loop: the round limit first, then fresh tools.
pub open spec fn next_round(s: TurnView, done: Seq<EffectView>) -> (TurnView, StepView) {
    if limit_reached(s) {
        ended(s, done, EndReasonView::MaxRounds, None, s.rounds, None)
    } else {
        (
            TurnView { phase: PhaseView::Opening, ..s },
            StepView { effects: done, demand: DemandView::BuildTools },
        )
    }
}

pub open spec fn on_route(s: TurnView, error: Option<Seq<char>>) -> (TurnView, StepView) {
    match error {
        Some(e) => refused(s, "provider route initialization failed: "@ + e),
        None => (
            TurnView { phase: PhaseView::Starting, ..s },
            StepView { effects: Seq::empty(), demand: DemandView::StartHook },
        ),
    }
}

/// Hook context is staged behind the turn's input: context for a turn that
/// never runs is context for nothing.
pub open spec fn staged_context(context: Seq<Seq<char>>) -> Seq<EffectView> {
    context.map_values(|t: Seq<char>| EffectView::Stage(hooked(t)))
}

pub open spec fn on_started(s: TurnView, decision: HookDecision) -> (TurnView, StepView) {
    match decision {
        HookDecision::Block { reason } => refused(
            s,
            (if s.subagent {
                "turn blocked by subagent_start hook: "@
            } else {
                "turn blocked by pre_turn hook: "@
            }) + reason@,
        ),
        HookDecision::Allow { context } => (
            TurnView { phase: PhaseView::Opening, ..s },
            StepView {
                effects: seq![EffectView::BeginTurn] + staged_context(text::texts(context@)),
                demand: DemandView::BuildTools,
            },
        ),
    }
}

pub open spec fn on_tools(s: TurnView, error: Option<Seq<char>>) -> (TurnView, StepView) {
    match error {
        Some(e) => ended(s, Seq::empty(), said_error(e), None, s.rounds, None),
        None => if limit_reached(s) {
            ended(s, Seq::empty(), EndReasonView::MaxRounds, None, s.rounds, None)
        } else {
            (
                TurnView { phase: PhaseView::Boundary, rounds: s.rounds + 1, ..s },
                StepView { effects: Seq::empty(), demand: DemandView::RoundBoundary },
            )
        },
    }
}

pub open spec fn sampling(s: TurnView, done: Seq<EffectView>) -> (TurnView, StepView) {
    (
        TurnView { phase: PhaseView::Sampling, ..s },
        StepView { effects: done, demand: DemandView::Sample },
    )
}

/// Predictive compaction: before the request, when it is expected to overflow.
/// While the automatic compaction pauses, the request goes out as it is and
/// nothing is said.
pub open spec fn on_boundary(
    s: TurnView,
    messages: nat,
    predicted: bool,
    breaker: BreakerView,
) -> (TurnView, StepView) {
    let s = TurnView { breaker, ..s };
    if s.has_window && messages >= 2 && predicted && !breaker::paused(breaker) {
        (
            TurnView { phase: PhaseView::Compacting, ..s },
            StepView {
                effects: seq![
                    EffectView::Note("predicted context overflow; compacting history"@),
                ],
                demand: DemandView::Compact(CompactionTrigger::Predictive),
            },
        )
    } else {
        sampling(s, Seq::empty())
    }
}

/// What follows a predictive compaction that failed: it is told and counted,
/// and a pause that it begins is announced.
pub open spec fn failure_effects(s: TurnView, error: Seq<char>) -> Seq<EffectView> {
    seq![
        EffectView::Note("predictive compaction failed: "@ + error),
        EffectView::CountCompactionFailure,
    ] + (if breaker::trips(s.breaker) {
        seq![EffectView::Note(COMPACTION_PAUSED_NOTE@)]
    } else {
        Seq::<EffectView>::empty()
    })
}

/// A predictive compaction that failed is not fatal. One that was interrupted
/// did not fail.
pub open spec fn on_predictive(s: TurnView, result: CompactionResult) -> (TurnView, StepView) {
    match result {
        CompactionResult::Applied { summarized, kept, .. } => sampling(
            s,
            seq![
                EffectView::Note(
                    "history compacted: "@ + text::decimal(summarized as nat) + " summarized, "@
                        + text::decimal(kept as nat) + " kept verbatim"@,
                ),
            ],
        ),
        CompactionResult::NoOp => sampling(s, Seq::empty()),
        CompactionResult::Failed { error, cancelled } => if cancelled {
            ended(s, Seq::empty(), EndReasonView::Aborted, None, (s.rounds - 1) as nat, None)
        } else {
            sampling(s, failure_effects(s, error@))
        },
    }
}

/// The provider rejected the request for size: compact once per turn.
pub open spec fn on_overflow(s: TurnView) -> (TurnView, StepView) {
    if !s.has_window || s.overflow_compact_attempted {
        ended(
            s,
            Seq::empty(),
            said_error("context window exceeded (compaction unavailable or already tried)"@),
            None,
            (s.rounds - 1) as nat,
            None,
        )
    } else {
        (
            TurnView { phase: PhaseView::Recovering, overflow_compact_attempted: true, ..s },
            StepView {
                effects: seq![
                    EffectView::Note("context window exceeded; compacting and retrying"@),
                ],
                demand: DemandView::Compact(CompactionTrigger::Reactive),
            },
        )
    }
}

pub open spec fn on_reactive(s: TurnView, result: CompactionResult) -> (TurnView, StepView) {
    match result {
        CompactionResult::Applied { description, .. } => next_round(
            s,
            seq![EffectView::Note(description@)],
        ),
        CompactionResult::NoOp => ended(
            s,
            Seq::empty(),
            said_error("reactive compaction made no changes"@),
            None,
            (s.rounds - 1) as nat,
            None,
        ),
        CompactionResult::Failed { error, cancelled } => ended(
            s,
            Seq::empty(),
            if cancelled {
                EndReasonView::Aborted
            } else {
                said_error("reactive compaction failed: "@ + error@)
            },
            None,
            (s.rounds - 1) as nat,
            None,
        ),
    }
}

/// An assistant message, where there is anything to record.
pub open spec fn assistant_effect(content: Seq<BlockView>) -> Seq<EffectView> {
    if content.len() == 0 {
        Seq::empty()
    } else {
        seq![EffectView::RecordAssistant(content)]
    }
}

/// The input joins the conversation if the round produced anything at all.
pub open spec fn on_cancelled(s: TurnView, partial: Seq<BlockView>, nothing: bool) -> (
    TurnView,
    StepView,
) {
    ended(
        s,
        (if nothing {
            Seq::empty()
        } else {
            seq![EffectView::CommitStaged]
        }) + assistant_effect(partial),
        EndReasonView::Aborted,
        Some(agent::spoken(partial)),
        (s.rounds - 1) as nat,
        None,
    )
}

pub open spec fn failure_view(f: ProviderFailure) -> TurnErrorView {
    TurnErrorView::ProviderFailure { message: f.message@, retryable: f.retryable }
}

pub open spec fn resume_note(resumes: nat, error: Seq<char>) -> Seq<char> {
    "stream interrupted after partial output; continuing from it ("@ + text::decimal(resumes)
        + "/"@ + text::decimal(STREAM_RESUME_LIMIT as nat) + "): "@ + error
}

/// The stream died mid-response: continue from what landed, a bounded number
/// of times.
pub open spec fn on_partial(s: TurnView, error: ProviderFailure, content: Seq<BlockView>) -> (
    TurnView,
    StepView,
) {
    let round_text = agent::spoken(content);
    let said = TurnView { produced: agent::with_round(s.produced, round_text), ..s };
    if content.len() > 0 && error.retryable && s.stream_resumes < STREAM_RESUME_LIMIT {
        next_round(
            TurnView {
                stream_resumes: s.stream_resumes + 1,
                truncated_prefix: s.truncated_prefix + round_text,
                ..said
            },
            assistant_effect(content) + seq![
                EffectView::Note(resume_note(s.stream_resumes + 1, error.message@)),
                EffectView::Record(harness(STREAM_RESUME_MSG@)),
            ],
        )
    } else {
        ended(
            said,
            assistant_effect(content),
            EndReasonView::Error(failure_view(error)),
            Some(s.truncated_prefix + round_text),
            (s.rounds - 1) as nat,
            None,
        )
    }
}

/// A structured turn that produced none: ask again, then give up.
pub open spec fn nudged(s: TurnView, done: Seq<EffectView>, failure: Seq<char>) -> (
    TurnView,
    StepView,
) {
    let failed = TurnView { structured_failures: s.structured_failures + 1, ..s };
    if s.structured_failures + 1 >= STRUCTURED_ATTEMPT_LIMIT {
        ended(failed, done, said_error(failure), None, s.rounds, None)
    } else {
        next_round(failed, done + seq![EffectView::Record(harness(s.nudge))])
    }
}

pub open spec fn truncation_note(recoveries: nat) -> Seq<char> {
    "response truncated by output limit; asking the model to continue ("@ + text::decimal(
        recoveries,
    ) + "/"@ + text::decimal(TRUNCATION_RECOVERY_LIMIT as nat) + ")"@
}

/// What the provider said the round was.
pub open spec fn classified(
    s: TurnView,
    done: Seq<EffectView>,
    outcome: OutcomeKind,
    content: Seq<BlockView>,
    invalid: Seq<InvalidView>,
) -> (TurnView, StepView) {
    let round_text = agent::spoken(content);
    match outcome {
        OutcomeKind::Refused | OutcomeKind::Filtered | OutcomeKind::Incomplete(_) => ended(
            s,
            done,
            EndReasonView::Error(TurnErrorView::ProviderOutcome(outcome)),
            Some(round_text),
            s.rounds,
            None,
        ),
        OutcomeKind::OutputLimit(_) => if s.truncation_recoveries < TRUNCATION_RECOVERY_LIMIT {
            next_round(
                TurnView {
                    truncation_recoveries: s.truncation_recoveries + 1,
                    truncated_prefix: s.truncated_prefix + round_text,
                    ..s
                },
                done + seq![
                    EffectView::Note(truncation_note(s.truncation_recoveries + 1)),
                    EffectView::Record(harness(TRUNCATION_CONTINUE_MSG@)),
                ],
            )
        } else {
            ended(
                s,
                done,
                EndReasonView::Error(TurnErrorView::ProviderOutcome(outcome)),
                Some(s.truncated_prefix + round_text),
                s.rounds,
                None,
            )
        },
        OutcomeKind::EndTurn => if s.structured {
            nudged(s, done, "structured output was not produced after 3 attempts"@)
        } else {
            (
                TurnView {
                    phase: PhaseView::Finishing {
                        text: Some(s.truncated_prefix + round_text),
                        structured: None,
                    },
                    ..s
                },
                StepView { effects: done, demand: DemandView::LateWork },
            )
        },
        OutcomeKind::ToolUse => (
            TurnView { phase: PhaseView::Dispatching { blocks: content, invalid }, ..s },
            StepView {
                effects: done,
                demand: DemandView::Dispatch(agent::runnable(content, invalid)),
            },
        ),
    }
}

/// The writes of an accepted round: the staged input first, then the usage
/// line, the assistant message, the anchor, and the gauge at depth 0.
pub open spec fn absorbed(depth: u8, content: Seq<BlockView>, usage: Option<Usage>) -> Seq<
    EffectView,
> {
    seq![EffectView::CommitStaged] + (match usage {
        Some(u) => seq![EffectView::RecordUsage(u)],
        None => Seq::<EffectView>::empty(),
    }) + assistant_effect(content) + (match usage {
        Some(u) => seq![EffectView::NoteUsage(agent::usage_total(u))],
        None => Seq::<EffectView>::empty(),
    }) + (if depth == 0 {
        seq![EffectView::PublishContext]
    } else {
        Seq::<EffectView>::empty()
    })
}

/// A sampled round: checked, recorded, classified.
pub open spec fn on_accepted(
    s: TurnView,
    content: Seq<BlockView>,
    usage: Option<Usage>,
    outcome: OutcomeKind,
    invalid: Seq<InvalidView>,
) -> (TurnView, StepView) {
    match agent::assistant_error(outcome, content, agent::object_inputs(content)) {
        Some(e) => ended(
            s,
            seq![EffectView::CommitStaged],
            said_error(e),
            None,
            s.rounds,
            None,
        ),
        None => classified(
            TurnView { produced: agent::with_round(s.produced, agent::spoken(content)), ..s },
            absorbed(s.depth, content, usage),
            outcome,
            content,
            invalid,
        ),
    }
}

pub open spec fn on_sampled(s: TurnView, sampled: Sampled) -> (TurnView, StepView) {
    match sampled {
        Sampled::Accepted { blocks, usage, outcome, invalid } => on_accepted(
            s,
            protocol::blocks(blocks@),
            usage,
            outcome@,
            agent::invalid_calls(invalid@),
        ),
        Sampled::Overflow => on_overflow(s),
        Sampled::Cancelled { partial, produced_nothing } => on_cancelled(
            s,
            protocol::blocks(partial@),
            produced_nothing,
        ),
        Sampled::Partial { error, blocks } => on_partial(s, error, protocol::blocks(blocks@)),
        Sampled::Terminal(error) | Sampled::Failed(error) => ended(
            s,
            Seq::empty(),
            EndReasonView::Error(failure_view(error)),
            None,
            (s.rounds - 1) as nat,
            None,
        ),
    }
}

pub open spec fn recorded_context(context: Seq<Seq<char>>) -> Seq<EffectView> {
    context.map_values(|t: Seq<char>| EffectView::Record(hooked(t)))
}

/// The results are recorded before anything else is asked, so that every call
/// has its result; what the tool hooks said follows them.
pub open spec fn on_dispatched(
    s: TurnView,
    blocks: Seq<BlockView>,
    invalid: Seq<InvalidView>,
    results: Seq<BlockView>,
    hook_context: Seq<Seq<char>>,
    cancelled: bool,
    structured: Option<Seq<char>>,
) -> (TurnView, StepView) {
    let done = seq![
        EffectView::Record(
            MessageView {
                role: Role::User,
                content: agent::merged_results(blocks, invalid, results),
                provenance: None,
                injected: None,
            },
        ),
    ] + recorded_context(hook_context);
    if cancelled {
        ended(s, done, EndReasonView::Aborted, None, s.rounds, None)
    } else if structured is Some {
        (
            TurnView { phase: PhaseView::Finishing { text: None, structured }, ..s },
            StepView { effects: done, demand: DemandView::LateWork },
        )
    } else if s.structured {
        nudged(s, done, "valid structured output was not produced after 3 attempts"@)
    } else {
        next_round(s, done)
    }
}

/// Late work keeps the turn going; without it the turn is complete.
pub open spec fn on_late_work(
    s: TurnView,
    text: Option<Seq<char>>,
    structured: Option<Seq<char>>,
    found: bool,
) -> (TurnView, StepView) {
    if found {
        next_round(s, Seq::empty())
    } else {
        ended(s, Seq::empty(), EndReasonView::Completed, text, s.rounds, structured)
    }
}

/// A turn the user interrupted before anything was written did not happen: its
/// input stays staged and nothing is written. Any other turn ends with its
/// closing line, after the stop hook's context.
pub open spec fn on_stopped(
    s: TurnView,
    outcome: TurnOutcomeView,
    context: Seq<Seq<char>>,
    has_staged: bool,
    inbox_empty: bool,
) -> (TurnView, StepView) {
    let over = TurnView { phase: PhaseView::Ended, ..s };
    let demand = DemandView::Finish(outcome);
    if outcome.reason is Aborted && has_staged && inbox_empty {
        (over, StepView { effects: Seq::empty(), demand })
    } else {
        (
            over,
            StepView {
                effects: recorded_context(context).push(
                    EffectView::RecordTerminal(agent::terminal_of(outcome.reason)),
                ),
                demand,
            },
        )
    }
}

/// Whether an event answers what the turn waits for.
pub open spec fn awaited(phase: PhaseView, event: TurnEvent) -> bool {
    match event {
        TurnEvent::Route { .. } => phase is Routing,
        TurnEvent::Started(_) => phase is Starting,
        TurnEvent::Tools { .. } => phase is Opening,
        TurnEvent::Boundary { .. } => phase is Boundary,
        TurnEvent::Compaction(_) => phase is Compacting || phase is Recovering,
        TurnEvent::Sampled(_) => phase is Sampling,
        TurnEvent::LateWork { .. } => phase is Finishing,
        TurnEvent::Dispatched { .. } => phase is Dispatching,
        TurnEvent::Stopped { .. } => phase is Closing,
    }
}

/// The step that an event sets off.
pub open spec fn turn_step(s: TurnView, event: TurnEvent) -> (TurnView, StepView) {
    match event {
        TurnEvent::Route { error } => on_route(s, protocol::opt(error)),
        TurnEvent::Started(decision) => on_started(s, decision),
        TurnEvent::Tools { error } => on_tools(s, protocol::opt(error)),
        TurnEvent::Boundary { messages, overflow_predicted, breaker } => on_boundary(
            s,
            messages as nat,
            overflow_predicted,
            breaker@,
        ),
        TurnEvent::Compaction(result) => if s.phase is Compacting {
            on_predictive(s, result)
        } else {
            on_reactive(s, result)
        },
        TurnEvent::Sampled(sampled) => on_sampled(s, sampled),
        TurnEvent::LateWork { found } => on_late_work(
            s,
            s.phase->text,
            s.phase->structured,
            found,
        ),
        TurnEvent::Dispatched { results, hook_context, cancelled, structured } => on_dispatched(
            s,
            s.phase->blocks,
            s.phase->invalid,
            protocol::blocks(results@),
            text::texts(hook_context@),
            cancelled,
            protocol::opt(structured),
        ),
        TurnEvent::Stopped { context, has_staged, inbox_empty } => on_stopped(
            s,
            s.phase->outcome,
            text::texts(context@),
            has_staged,
            inbox_empty,
        ),
    }
}

/// A turn that is inside a round has opened one, and the bounded counters are
/// within their bounds.
pub open spec fn well_formed(s: TurnView) -> bool {
    &&& s.phase is Boundary || s.phase is Compacting || s.phase is Sampling
        || s.phase is Recovering || s.phase is Finishing || s.phase is Dispatching ==> s.rounds > 0
    &&& s.stream_resumes <= STREAM_RESUME_LIMIT
    &&& s.truncation_recoveries <= TRUNCATION_RECOVERY_LIMIT
    &&& s.structured_failures <= STRUCTURED_ATTEMPT_LIMIT
    &&& s.structured_failures == STRUCTURED_ATTEMPT_LIMIT ==> s.phase is Closing || s.phase is Ended
    &&& s.max_rounds matches Some(limit) ==> s.rounds <= limit
}

// ---------------------------------------------------------------------------
// The executable turn
// ---------------------------------------------------------------------------

fn push_effect(list: &mut Vec<Effect>, effect: Effect)
    ensures
        effects(final(list)@) == effects(old(list)@).push(effect@),
{
    list.push(effect);
    proof {
        assert(effects(list@) =~= effects(old(list)@).push(effect@));
    }
}

fn no_effects() -> (r: Vec<Effect>)
    ensures
        effects(r@) == Seq::<EffectView>::empty(),
{
    let r: Vec<Effect> = Vec::new();
    proof {
        assert(effects(r@) =~= Seq::<EffectView>::empty());
    }
    r
}

fn one_effect(effect: Effect) -> (r: Vec<Effect>)
    ensures
        effects(r@) == seq![effect@],
{
    let mut r = no_effects();
    push_effect(&mut r, effect);
    proof {
        assert(effects(r@) =~= seq![effect@]);
    }
    r
}

fn push_assistant(list: &mut Vec<Effect>, content: Vec<ContentBlock>)
    ensures
        effects(final(list)@) == effects(old(list)@) + assistant_effect(
            protocol::blocks(content@),
        ),
{
    if content.len() > 0 {
        let effect = Effect::RecordAssistant(content);
        push_effect(list, effect);
        proof {
            assert(effects(list@) =~= effects(old(list)@) + seq![effect@]);
        }
    } else {
        proof {
            assert(effects(list@) =~= effects(old(list)@) + Seq::<EffectView>::empty());
        }
    }
}

fn push_context(list: &mut Vec<Effect>, context: Vec<String>)
    ensures
        effects(final(list)@) == effects(old(list)@) + recorded_context(text::texts(context@)),
{
    let ghost all = recorded_context(text::texts(context@));
    let mut i: usize = 0;
    proof {
        assert(effects(list@) =~= effects(old(list)@) + all.take(0));
    }
    while i < context.len()
        invariant
            i <= context@.len(),
            all == recorded_context(text::texts(context@)),
            effects(list@) == effects(old(list)@) + all.take(i as int),
        decreases context@.len() - i,
    {
        push_effect(
            list,
            Effect::Record(Message::injected(Injected::Hook, context[i].clone())),
        );
        i += 1;
        proof {
            assert(text::texts(context@)[i - 1] == context@[i - 1]@);
            assert(effects(list@) =~= effects(old(list)@) + all.take(i as int));
        }
    }
    proof {
        assert(all.take(all.len() as int) =~= all);
    }
}

/// The resume note.
fn resume_text(resumes: u32, error: &str) -> (r: String)
    ensures
        r@ == resume_note(resumes as nat, error@),
{
    let mut t = "stream interrupted after partial output; continuing from it (".to_owned();
    t.append(text::decimal_text(resumes as u64).as_str());
    t.append("/");
    t.append(text::decimal_text(STREAM_RESUME_LIMIT as u64).as_str());
    t.append("): ");
    t.append(error);
    t
}

fn truncation_text(recoveries: u32) -> (r: String)
    ensures
        r@ == truncation_note(recoveries as nat),
{
    let mut t = "response truncated by output limit; asking the model to continue (".to_owned();
    t.append(text::decimal_text(recoveries as u64).as_str());
    t.append("/");
    t.append(text::decimal_text(TRUNCATION_RECOVERY_LIMIT as u64).as_str());
    t.append(")");
    t
}

fn said(message: String) -> (r: EndReason)
    ensures
        r@ == said_error(message@),
{
    EndReason::Error(TurnError::Message(message))
}

/// What a structured turn gives back whose schema is not one: it never begins.
pub fn schema_refused(error: String) -> (r: TurnOutcome)
    ensures
        r@ == (TurnOutcomeView {
            reason: said_error(error@),
            final_text: Seq::empty(),
            rounds: 0,
            structured: None,
        }),
{
    let final_text = String::new();
    proof {
        assert(final_text@ =~= Seq::<char>::empty());
    }
    TurnOutcome { reason: said(error), final_text, rounds: 0, structured_output: None }
}

impl Turn {
    /// A turn that waits for its route.
    pub fn new(options: TurnOptions) -> (r: Self)
        ensures
            r@ == (TurnView {
                depth: options.depth,
                subagent: options.agent@.len() > 0,
                max_rounds: options.max_rounds,
                has_window: options.has_window,
                structured: options.structured,
                nudge: options.nudge@,
                phase: PhaseView::Routing,
                overflow_compact_attempted: false,
                truncation_recoveries: 0,
                stream_resumes: 0,
                truncated_prefix: Seq::empty(),
                rounds: 0,
                structured_failures: 0,
                produced: Seq::empty(),
                breaker: breaker::fresh(),
            }),
            well_formed(r@),
    {
        let r = Turn {
            options,
            phase: Phase::Routing,
            overflow_compact_attempted: false,
            truncation_recoveries: 0,
            stream_resumes: 0,
            truncated_prefix: String::new(),
            rounds: 0,
            structured_failures: 0,
            produced_text: String::new(),
            breaker: CompactionBreaker::default(),
        };
        proof {
            assert(r.truncated_prefix@ =~= Seq::<char>::empty());
            assert(r.produced_text@ =~= Seq::<char>::empty());
        }
        r
    }

    /// How many rounds have opened.
    pub fn rounds(&self) -> (r: usize)
        ensures
            r == self@.rounds,
    {
        self.rounds
    }

    /// What the turn hands back, for the stop hook to see, once it is closing.
    pub fn closing_text(&self) -> (r: Option<&String>)
        ensures
            match r {
                Some(t) => self@.phase is Closing && self@.phase->outcome.final_text == t@,
                None => !(self@.phase is Closing),
            },
    {
        match &self.phase {
            Phase::Closing { outcome } => Some(&outcome.final_text),
            _ => None,
        }
    }

    /// Whether an event answers what the turn waits for.
    pub fn accepts(&self, event: &TurnEvent) -> (r: bool)
        ensures
            r == awaited(self@.phase, *event),
    {
        match (event, &self.phase) {
            (TurnEvent::Route { .. }, Phase::Routing) => true,
            (TurnEvent::Started(_), Phase::Starting) => true,
            (TurnEvent::Tools { .. }, Phase::Opening) => true,
            (TurnEvent::Boundary { .. }, Phase::Boundary) => true,
            (TurnEvent::Compaction(_), Phase::Compacting) => true,
            (TurnEvent::Compaction(_), Phase::Recovering) => true,
            (TurnEvent::Sampled(_), Phase::Sampling) => true,
            (TurnEvent::LateWork { .. }, Phase::Finishing { .. }) => true,
            (TurnEvent::Dispatched { .. }, Phase::Dispatching { .. }) => true,
            (TurnEvent::Stopped { .. }, Phase::Closing { .. }) => true,
            _ => false,
        }
    }

    fn end(
        &mut self,
        done: Vec<Effect>,
        reason: EndReason,
        text: Option<String>,
        rounds: usize,
        structured: Option<String>,
    ) -> (r: Step)
        ensures
            (final(self)@, r@) == ended(
                old(self)@,
                effects(done@),
                reason@,
                protocol::opt(text),
                rounds as nat,
                protocol::opt(structured),
            ),
    {
        let final_text = match text {
            Some(t) => t,
            None => self.produced_text.clone(),
        };
        self.phase = Phase::Closing {
            outcome: TurnOutcome { reason, final_text, rounds, structured_output: structured },
        };
        Step { effects: done, demand: Demand::StopHook }
    }

    fn refuse(&mut self, reason: String) -> (r: Step)
        ensures
            (final(self)@, r@) == refused(old(self)@, reason@),
    {
        let reason = said(reason);
        let done = one_effect(Effect::RecordTerminal(reason.terminal()));
        let final_text = String::new();
        proof {
            assert(final_text@ =~= Seq::<char>::empty());
        }
        self.phase = Phase::Ended;
        Step {
            effects: done,
            demand: Demand::Finish(
                TurnOutcome { reason, final_text, rounds: 0, structured_output: None },
            ),
        }
    }

    fn at_limit(&self) -> (r: bool)
        ensures
            r == limit_reached(self@),
    {
        match self.options.max_rounds {
            Some(limit) => self.rounds >= limit,
            None => false,
        }
    }

    fn open_next(&mut self, done: Vec<Effect>) -> (r: Step)
        ensures
            (final(self)@, r@) == next_round(old(self)@, effects(done@)),
    {
        if self.at_limit() {
            let rounds: usize = self.rounds;
            self.end(done, EndReason::MaxRounds, None, rounds, None)
        } else {
            self.phase = Phase::Opening;
            Step { effects: done, demand: Demand::BuildTools }
        }
    }

    fn take_route(&mut self, error: Option<String>) -> (r: Step)
        ensures
            (final(self)@, r@) == on_route(old(self)@, protocol::opt(error)),
    {
        match error {
            Some(e) => {
                let mut reason = "provider route initialization failed: ".to_owned();
                reason.append(e.as_str());
                self.refuse(reason)
            },
            None => {
                self.phase = Phase::Starting;
                Step { effects: no_effects(), demand: Demand::StartHook }
            },
        }
    }

    fn take_start(&mut self, decision: HookDecision) -> (r: Step)
        ensures
            (final(self)@, r@) == on_started(old(self)@, decision),
    {
        match decision {
            HookDecision::Block { reason } => {
                let mut why = if text::char_count(self.options.agent.as_str()) > 0 {
                    "turn blocked by subagent_start hook: ".to_owned()
                } else {
                    "turn blocked by pre_turn hook: ".to_owned()
                };
                why.append(reason.as_str());
                self.refuse(why)
            },
            HookDecision::Allow { context } => {
                let ghost all = staged_context(text::texts(context@));
                let mut done = one_effect(Effect::BeginTurn);
                let mut i: usize = 0;
                proof {
                    assert(effects(done@) =~= seq![EffectView::BeginTurn] + all.take(0));
                }
                while i < context.len()
                    invariant
                        i <= context@.len(),
                        all == staged_context(text::texts(context@)),
                        effects(done@) == seq![EffectView::BeginTurn] + all.take(i as int),
                    decreases context@.len() - i,
                {
                    push_effect(
                        &mut done,
                        Effect::Stage(Message::injected(Injected::Hook, context[i].clone())),
                    );
                    i += 1;
                    proof {
                        assert(text::texts(context@)[i - 1] == context@[i - 1]@);
                        assert(effects(done@) =~= seq![EffectView::BeginTurn] + all.take(
                            i as int,
                        ));
                    }
                }
                proof {
                    assert(all.take(all.len() as int) =~= all);
                }
                self.phase = Phase::Opening;
                Step { effects: done, demand: Demand::BuildTools }
            },
        }
    }

    fn take_tools(&mut self, error: Option<String>) -> (r: Step)
        requires
            old(self)@.rounds < usize::MAX,
        ensures
            (final(self)@, r@) == on_tools(old(self)@, protocol::opt(error)),
    {
        let rounds: usize = self.rounds;
        match error {
            Some(e) => self.end(no_effects(), said(e), None, rounds, None),
            None => {
                if self.at_limit() {
                    self.end(no_effects(), EndReason::MaxRounds, None, rounds, None)
                } else {
                    self.rounds = rounds + 1;
                    self.phase = Phase::Boundary;
                    Step { effects: no_effects(), demand: Demand::RoundBoundary }
                }
            },
        }
    }

    fn sample(&mut self, done: Vec<Effect>) -> (r: Step)
        ensures
            (final(self)@, r@) == sampling(old(self)@, effects(done@)),
    {
        self.phase = Phase::Sampling;
        Step { effects: done, demand: Demand::Sample }
    }

    fn take_boundary(
        &mut self,
        messages: usize,
        predicted: bool,
        breaker: CompactionBreaker,
    ) -> (r: Step)
        ensures
            (final(self)@, r@) == on_boundary(
                old(self)@,
                messages as nat,
                predicted,
                breaker@,
            ),
    {
        self.breaker = breaker;
        if self.options.has_window && messages >= 2 && predicted && !breaker.is_paused() {
            self.phase = Phase::Compacting;
            Step {
                effects: one_effect(
                    Effect::Note("predicted context overflow; compacting history".to_owned()),
                ),
                demand: Demand::Compact(CompactionTrigger::Predictive),
            }
        } else {
            self.sample(no_effects())
        }
    }

    fn take_predictive(&mut self, result: CompactionResult) -> (r: Step)
        requires
            old(self)@.rounds > 0,
        ensures
            (final(self)@, r@) == on_predictive(old(self)@, result),
    {
        match result {
            CompactionResult::Applied { summarized, kept, .. } => {
                let mut note = "history compacted: ".to_owned();
                note.append(text::decimal_text(summarized as u64).as_str());
                note.append(" summarized, ");
                note.append(text::decimal_text(kept as u64).as_str());
                note.append(" kept verbatim");
                self.sample(one_effect(Effect::Note(note)))
            },
            CompactionResult::NoOp => self.sample(no_effects()),
            CompactionResult::Failed { error, cancelled } => {
                if cancelled {
                    let round: usize = self.rounds - 1;
                    self.end(no_effects(), EndReason::Aborted, None, round, None)
                } else {
                    let mut note = "predictive compaction failed: ".to_owned();
                    note.append(error.as_str());
                    let mut done = one_effect(Effect::Note(note));
                    push_effect(&mut done, Effect::CountCompactionFailure);
                    if self.breaker.next_failure_pauses() {
                        push_effect(&mut done, Effect::Note(COMPACTION_PAUSED_NOTE.to_owned()));
                    }
                    proof {
                        assert(effects(done@) =~= failure_effects(self@, error@));
                    }
                    self.sample(done)
                }
            },
        }
    }

    fn take_overflow(&mut self) -> (r: Step)
        requires
            old(self)@.rounds > 0,
        ensures
            (final(self)@, r@) == on_overflow(old(self)@),
    {
        if !self.options.has_window || self.overflow_compact_attempted {
            let round: usize = self.rounds - 1;
            return self.end(
                no_effects(),
                said(
                    "context window exceeded (compaction unavailable or already tried)".to_owned(),
                ),
                None,
                round,
                None,
            );
        }
        self.overflow_compact_attempted = true;
        self.phase = Phase::Recovering;
        Step {
            effects: one_effect(
                Effect::Note("context window exceeded; compacting and retrying".to_owned()),
            ),
            demand: Demand::Compact(CompactionTrigger::Reactive),
        }
    }

    fn take_reactive(&mut self, result: CompactionResult) -> (r: Step)
        requires
            old(self)@.rounds > 0,
        ensures
            (final(self)@, r@) == on_reactive(old(self)@, result),
    {
        let round: usize = self.rounds - 1;
        match result {
            CompactionResult::Applied { description, .. } => self.open_next(
                one_effect(Effect::Note(description)),
            ),
            CompactionResult::NoOp => self.end(
                no_effects(),
                said("reactive compaction made no changes".to_owned()),
                None,
                round,
                None,
            ),
            CompactionResult::Failed { error, cancelled } => {
                let reason = if cancelled {
                    EndReason::Aborted
                } else {
                    let mut why = "reactive compaction failed: ".to_owned();
                    why.append(error.as_str());
                    said(why)
                };
                self.end(no_effects(), reason, None, round, None)
            },
        }
    }

    fn take_cancelled(&mut self, partial: Vec<ContentBlock>, produced_nothing: bool) -> (r: Step)
        requires
            old(self)@.rounds > 0,
        ensures
            (final(self)@, r@) == on_cancelled(
                old(self)@,
                protocol::blocks(partial@),
                produced_nothing,
            ),
    {
        let final_text = agent::text_content(&partial);
        let mut done = if produced_nothing {
            no_effects()
        } else {
            one_effect(Effect::CommitStaged)
        };
        push_assistant(&mut done, partial);
        let round: usize = self.rounds - 1;
        self.end(done, EndReason::Aborted, Some(final_text), round, None)
    }

    fn take_partial(&mut self, error: ProviderFailure, content: Vec<ContentBlock>) -> (r: Step)
        requires
            old(self)@.rounds > 0,
        ensures
            (final(self)@, r@) == on_partial(old(self)@, error, protocol::blocks(content@)),
    {
        let round_text = agent::text_content(&content);
        let landed = content.len() > 0;
        let ghost recorded = assistant_effect(protocol::blocks(content@));
        let mut done = no_effects();
        push_assistant(&mut done, content);
        proof {
            assert(effects(done@) =~= recorded);
        }
        agent::append_produced(&mut self.produced_text, round_text.as_str());
        if landed && error.retryable && self.stream_resumes < STREAM_RESUME_LIMIT {
            self.stream_resumes = self.stream_resumes + 1;
            let note = resume_text(self.stream_resumes, error.message.as_str());
            push_effect(&mut done, Effect::Note(note));
            self.truncated_prefix.append(round_text.as_str());
            push_effect(
                &mut done,
                Effect::Record(Message::injected(Injected::Harness, STREAM_RESUME_MSG.to_owned())),
            );
            proof {
                assert(effects(done@) =~= recorded + seq![
                    EffectView::Note(note@),
                    EffectView::Record(harness(STREAM_RESUME_MSG@)),
                ]);
            }
            return self.open_next(done);
        }
        let mut answer = self.truncated_prefix.clone();
        answer.append(round_text.as_str());
        let round: usize = self.rounds - 1;
        self.end(
            done,
            EndReason::Error(TurnError::ProviderFailure(error)),
            Some(answer),
            round,
            None,
        )
    }

    fn nudge(&mut self, done: Vec<Effect>, failure: &str) -> (r: Step)
        requires
            old(self)@.structured_failures < STRUCTURED_ATTEMPT_LIMIT,
        ensures
            (final(self)@, r@) == nudged(old(self)@, effects(done@), failure@),
    {
        self.structured_failures = self.structured_failures + 1;
        if self.structured_failures >= STRUCTURED_ATTEMPT_LIMIT {
            let rounds: usize = self.rounds;
            return self.end(done, said(failure.to_owned()), None, rounds, None);
        }
        let mut done = done;
        let ghost before = effects(done@);
        push_effect(
            &mut done,
            Effect::Record(Message::injected(Injected::Harness, self.options.nudge.clone())),
        );
        proof {
            assert(effects(done@) =~= before + seq![EffectView::Record(harness(self@.nudge))]);
        }
        self.open_next(done)
    }

    fn classify(
        &mut self,
        done: Vec<Effect>,
        outcome: AssistantOutcome,
        content: Vec<ContentBlock>,
        invalid: Vec<InvalidCall>,
    ) -> (r: Step)
        requires
            old(self)@.structured_failures < STRUCTURED_ATTEMPT_LIMIT,
        ensures
            (final(self)@, r@) == classified(
                old(self)@,
                effects(done@),
                outcome@,
                protocol::blocks(content@),
                agent::invalid_calls(invalid@),
            ),
    {
        let rounds: usize = self.rounds;
        let round_text = agent::text_content(&content);
        let mut answer = self.truncated_prefix.clone();
        answer.append(round_text.as_str());
        match outcome {
            AssistantOutcome::Refused | AssistantOutcome::Filtered | AssistantOutcome::Incomplete(
                _,
            ) => self.end(
                done,
                EndReason::Error(TurnError::ProviderOutcome(outcome)),
                Some(round_text),
                rounds,
                None,
            ),
            AssistantOutcome::OutputLimit(kind) => {
                if self.truncation_recoveries < TRUNCATION_RECOVERY_LIMIT {
                    self.truncation_recoveries = self.truncation_recoveries + 1;
                    self.truncated_prefix = answer;
                    let mut done = done;
                    let ghost before = effects(done@);
                    let note = truncation_text(self.truncation_recoveries);
                    push_effect(&mut done, Effect::Note(note));
                    push_effect(
                        &mut done,
                        Effect::Record(
                            Message::injected(
                                Injected::Harness,
                                TRUNCATION_CONTINUE_MSG.to_owned(),
                            ),
                        ),
                    );
                    proof {
                        assert(effects(done@) =~= before + seq![
                            EffectView::Note(note@),
                            EffectView::Record(harness(TRUNCATION_CONTINUE_MSG@)),
                        ]);
                    }
                    self.open_next(done)
                } else {
                    self.end(
                        done,
                        EndReason::Error(
                            TurnError::ProviderOutcome(AssistantOutcome::OutputLimit(kind)),
                        ),
                        Some(answer),
                        rounds,
                        None,
                    )
                }
            },
            AssistantOutcome::EndTurn => {
                if self.options.structured {
                    self.nudge(done, "structured output was not produced after 3 attempts")
                } else {
                    self.phase = Phase::Finishing { text: Some(answer), structured: None };
                    Step { effects: done, demand: Demand::LateWork }
                }
            },
            AssistantOutcome::ToolUse => {
                let calls = agent::runnable_calls(&content, &invalid);
                self.phase = Phase::Dispatching { blocks: content, invalid };
                Step { effects: done, demand: Demand::Dispatch(calls) }
            },
        }
    }

    fn take_accepted(
        &mut self,
        content: Vec<ContentBlock>,
        usage: Option<Usage>,
        outcome: AssistantOutcome,
        invalid: Vec<InvalidCall>,
    ) -> (r: Step)
        requires
            old(self)@.structured_failures < STRUCTURED_ATTEMPT_LIMIT,
        ensures
            (final(self)@, r@) == on_accepted(
                old(self)@,
                protocol::blocks(content@),
                usage,
                outcome@,
                agent::invalid_calls(invalid@),
            ),
    {
        let mut done = one_effect(Effect::CommitStaged);
        if let Err(error) = agent::validate_assistant_result(&outcome, &content) {
            let rounds: usize = self.rounds;
            return self.end(done, said(error), None, rounds, None);
        }
        if let Some(u) = usage {
            push_effect(&mut done, Effect::RecordUsage(u));
        }
        push_assistant(&mut done, protocol::clone_blocks(&content));
        agent::append_produced(
            &mut self.produced_text,
            agent::text_content(&content).as_str(),
        );
        if let Some(u) = usage {
            push_effect(&mut done, Effect::NoteUsage(u.total()));
        }
        if self.options.depth == 0 {
            push_effect(&mut done, Effect::PublishContext);
        }
        proof {
            assert(effects(done@) =~= absorbed(
                self@.depth,
                protocol::blocks(content@),
                usage,
            ));
        }
        self.classify(done, outcome, content, invalid)
    }

    fn take_sampled(&mut self, sampled: Sampled) -> (r: Step)
        requires
            old(self)@.rounds > 0,
            old(self)@.structured_failures < STRUCTURED_ATTEMPT_LIMIT,
        ensures
            (final(self)@, r@) == on_sampled(old(self)@, sampled),
    {
        match sampled {
            Sampled::Accepted { blocks, usage, outcome, invalid } => self.take_accepted(
                blocks,
                usage,
                outcome,
                invalid,
            ),
            Sampled::Overflow => self.take_overflow(),
            Sampled::Cancelled { partial, produced_nothing } => self.take_cancelled(
                partial,
                produced_nothing,
            ),
            Sampled::Partial { error, blocks } => self.take_partial(error, blocks),
            Sampled::Terminal(error) | Sampled::Failed(error) => {
                let round: usize = self.rounds - 1;
                self.end(
                    no_effects(),
                    EndReason::Error(TurnError::ProviderFailure(error)),
                    None,
                    round,
                    None,
                )
            },
        }
    }

    fn take_dispatched(
        &mut self,
        blocks: Vec<ContentBlock>,
        invalid: Vec<InvalidCall>,
        results: Vec<ContentBlock>,
        hook_context: Vec<String>,
        cancelled: bool,
        structured: Option<String>,
    ) -> (r: Step)
        requires
            old(self)@.structured_failures < STRUCTURED_ATTEMPT_LIMIT,
        ensures
            (final(self)@, r@) == on_dispatched(
                old(self)@,
                protocol::blocks(blocks@),
                agent::invalid_calls(invalid@),
                protocol::blocks(results@),
                text::texts(hook_context@),
                cancelled,
                protocol::opt(structured),
            ),
    {
        let merged = agent::merge_invalid_results(&blocks, &invalid, results);
        let mut done = one_effect(Effect::Record(Message::tool_results(merged)));
        push_context(&mut done, hook_context);
        let rounds: usize = self.rounds;
        if cancelled {
            return self.end(done, EndReason::Aborted, None, rounds, None);
        }
        if structured.is_some() {
            self.phase = Phase::Finishing { text: None, structured };
            return Step { effects: done, demand: Demand::LateWork };
        }
        if self.options.structured {
            return self.nudge(done, "valid structured output was not produced after 3 attempts");
        }
        self.open_next(done)
    }

    fn take_stop(
        &mut self,
        outcome: TurnOutcome,
        context: Vec<String>,
        has_staged: bool,
        inbox_empty: bool,
    ) -> (r: Step)
        ensures
            (final(self)@, r@) == on_stopped(
                old(self)@,
                outcome@,
                text::texts(context@),
                has_staged,
                inbox_empty,
            ),
    {
        self.phase = Phase::Ended;
        let aborted = match &outcome.reason {
            EndReason::Aborted => true,
            _ => false,
        };
        if aborted && has_staged && inbox_empty {
            return Step { effects: no_effects(), demand: Demand::Finish(outcome) };
        }
        let ghost recorded = recorded_context(text::texts(context@));
        let mut done = no_effects();
        push_context(&mut done, context);
        push_effect(&mut done, Effect::RecordTerminal(outcome.reason.terminal()));
        proof {
            assert(effects(done@) =~= recorded.push(
                EffectView::RecordTerminal(agent::terminal_of(outcome@.reason)),
            ));
        }
        Step { effects: done, demand: Demand::Finish(outcome) }
    }

    /// Takes what happened and says what to write and what to do next.
    #[verifier::rlimit(40)]
    #[verifier::spinoff_prover]
    pub fn advance(&mut self, event: TurnEvent) -> (r: Step)
        requires
            well_formed(old(self)@),
            awaited(old(self)@.phase, event),
            old(self)@.rounds < usize::MAX,
        ensures
            (final(self)@, r@) == turn_step(old(self)@, event),
            well_formed(final(self)@),
    {
        proof {
            law_steps_keep_bounds(self@, event);
        }
        let mut phase = Phase::Ended;
        match event {
            TurnEvent::Route { error } => self.take_route(error),
            TurnEvent::Started(decision) => self.take_start(decision),
            TurnEvent::Tools { error } => self.take_tools(error),
            TurnEvent::Boundary { messages, overflow_predicted, breaker } => self.take_boundary(
                messages,
                overflow_predicted,
                breaker,
            ),
            TurnEvent::Compaction(result) => {
                let predictive = match &self.phase {
                    Phase::Compacting => true,
                    _ => false,
                };
                if predictive {
                    self.take_predictive(result)
                } else {
                    self.take_reactive(result)
                }
            },
            TurnEvent::Sampled(sampled) => self.take_sampled(sampled),
            TurnEvent::LateWork { found } => {
                std::mem::swap(&mut phase, &mut self.phase);
                match phase {
                    Phase::Finishing { text, structured } => {
                        if found {
                            self.open_next(no_effects())
                        } else {
                            let rounds: usize = self.rounds;
                            self.end(no_effects(), EndReason::Completed, text, rounds, structured)
                        }
                    },
                    _ => self.sample(no_effects()),
                }
            },
            TurnEvent::Dispatched { results, hook_context, cancelled, structured } => {
                std::mem::swap(&mut phase, &mut self.phase);
                match phase {
                    Phase::Dispatching { blocks, invalid } => self.take_dispatched(
                        blocks,
                        invalid,
                        results,
                        hook_context,
                        cancelled,
                        structured,
                    ),
                    _ => self.sample(no_effects()),
                }
            },
            TurnEvent::Stopped { context, has_staged, inbox_empty } => {
                std::mem::swap(&mut phase, &mut self.phase);
                match phase {
                    Phase::Closing { outcome } => self.take_stop(
                        outcome,
                        context,
                        has_staged,
                        inbox_empty,
                    ),
                    _ => self.sample(no_effects()),
                }
            },
        }
    }
}

// ---------------------------------------------------------------------------
// Laws
// ---------------------------------------------------------------------------

/// Every step keeps the turn well formed: no round past the limit, no resume,
/// continuation or nudge past its bound.
#[verifier::rlimit(40)]
#[verifier::spinoff_prover]
pub proof fn law_steps_keep_bounds(s: TurnView, event: TurnEvent)
    requires
        well_formed(s),
        awaited(s.phase, event),
    ensures
        well_formed(turn_step(s, event).0),
{
    match event {
        TurnEvent::Sampled(sampled) => {
            lemma_sampled_keeps_bounds(s, sampled);
        },
        TurnEvent::Dispatched { .. } => {
            lemma_dispatched_keeps_bounds(s, event);
        },
        _ => {},
    }
}

#[verifier::spinoff_prover]
proof fn lemma_sampled_keeps_bounds(s: TurnView, sampled: Sampled)
    requires
        well_formed(s),
        s.phase is Sampling,
    ensures
        well_formed(on_sampled(s, sampled).0),
{
    match sampled {
        Sampled::Accepted { blocks, usage, outcome, invalid } => {
            let content = protocol::blocks(blocks@);
            let said = TurnView {
                produced: agent::with_round(s.produced, agent::spoken(content)),
                ..s
            };
            let done = absorbed(s.depth, content, usage);
            assert(well_formed(said));
            assert(well_formed(
                classified(said, done, outcome@, content, agent::invalid_calls(invalid@)).0,
            ));
        },
        _ => {},
    }
}

#[verifier::spinoff_prover]
proof fn lemma_dispatched_keeps_bounds(s: TurnView, event: TurnEvent)
    requires
        well_formed(s),
        s.phase is Dispatching,
        event is Dispatched,
    ensures
        well_formed(turn_step(s, event).0),
{
}

/// What the assistant said is never lost from the turn's record: a step only
/// adds to it.
pub proof fn law_produced_only_grows(s: TurnView, event: TurnEvent)
    requires
        awaited(s.phase, event),
    ensures
        s.produced.len() <= turn_step(s, event).0.produced.len(),
        turn_step(s, event).0.produced.take(s.produced.len() as int) == s.produced,
{
    match event {
        TurnEvent::Sampled(Sampled::Accepted { blocks, .. }) => {
            lemma_with_round_grows(s.produced, agent::spoken(protocol::blocks(blocks@)));
        },
        TurnEvent::Sampled(Sampled::Partial { blocks, .. }) => {
            lemma_with_round_grows(s.produced, agent::spoken(protocol::blocks(blocks@)));
        },
        _ => {},
    }
    assert(s.produced.take(s.produced.len() as int) =~= s.produced);
}

proof fn lemma_with_round_grows(produced: Seq<char>, round_text: Seq<char>)
    ensures
        produced.len() <= agent::with_round(produced, round_text).len(),
        agent::with_round(produced, round_text).take(produced.len() as int) == produced,
{
    assert(agent::with_round(produced, round_text).take(produced.len() as int) =~= produced);
}

/// An end that does not come with an answer of its own hands back everything
/// the turn produced: the round limit, failed tools or compactions, a second
/// overflow, a failed request, an interrupted dispatch, a structured turn.
pub proof fn law_other_ends_hand_back_everything(s: TurnView, event: TurnEvent)
    requires
        awaited(s.phase, event),
        !(event matches TurnEvent::Sampled(sampled) && (sampled is Accepted || sampled is Cancelled
            || sampled is Partial)),
        !(event is LateWork && s.phase->text is Some),
    ensures
        !(event is Stopped) && turn_step(s, event).0.phase is Closing
            ==> turn_step(s, event).0.phase->outcome.final_text == s.produced,
{
}

/// The round limit ends the turn with everything produced and the rounds that
/// ran.
pub proof fn law_round_limit(s: TurnView, done: Seq<EffectView>)
    requires
        limit_reached(s),
    ensures
        next_round(s, done).0.phase == (PhaseView::Closing {
            outcome: TurnOutcomeView {
                reason: EndReasonView::MaxRounds,
                final_text: s.produced,
                rounds: s.rounds,
                structured: None,
            },
        }),
{
}

/// The results of a round are written before anything else is decided, so
/// that every call has its result whatever comes after.
pub proof fn law_results_are_written_first(s: TurnView, event: TurnEvent)
    requires
        awaited(s.phase, event),
        event is Dispatched,
    ensures
        turn_step(s, event).1.effects.len() > 0,
        turn_step(s, event).1.effects[0] == EffectView::Record(
            MessageView {
                role: Role::User,
                content: agent::merged_results(
                    s.phase->blocks,
                    s.phase->invalid,
                    protocol::blocks(event->results@),
                ),
                provenance: None,
                injected: None,
            },
        ),
{
}

/// An accepted round commits the turn's input ahead of everything it writes.
pub proof fn law_accepted_rounds_commit_first(s: TurnView, event: TurnEvent)
    requires
        awaited(s.phase, event),
        event matches TurnEvent::Sampled(sampled) && sampled is Accepted,
    ensures
        turn_step(s, event).1.effects.len() > 0,
        turn_step(s, event).1.effects[0] == EffectView::CommitStaged,
{
}

/// A request that overflows a second time ends the turn; the first time, with a
/// window, it is compacted and tried again.
pub proof fn law_overflow_is_recovered_once(s: TurnView)
    requires
        well_formed(s),
        s.phase is Sampling,
    ensures
        ({
            let first = turn_step(s, TurnEvent::Sampled(Sampled::Overflow));
            &&& s.has_window && !s.overflow_compact_attempted ==> first.1.demand
                == DemandView::Compact(CompactionTrigger::Reactive)
                && first.0.overflow_compact_attempted
            &&& !s.has_window || s.overflow_compact_attempted ==> first.0.phase is Closing
                && first.0.phase->outcome.reason == said_error(
                "context window exceeded (compaction unavailable or already tried)"@,
            )
        }),
{
}

/// What a breaker comes to when the effects of a step are performed on it.
pub open spec fn counted(b: BreakerView, done: Seq<EffectView>) -> BreakerView
    decreases done.len(),
{
    if done.len() == 0 {
        b
    } else {
        let before = counted(b, done.drop_last());
        match done.last() {
            EffectView::BeginTurn => breaker::begun(before),
            EffectView::CountCompactionFailure => breaker::failed(before),
            _ => before,
        }
    }
}

/// A turn that is predicted to overflow and whose compaction fails, where it is
/// asked for: from its round boundary up to its request.
pub struct FailingTurn {
    /// The turn, as it waits for its boundary.
    pub turn: TurnView,
    pub messages: usize,
    pub breaker: CompactionBreaker,
    pub error: String,
}

/// The step at the boundary of such a turn.
pub open spec fn boundary_step(f: FailingTurn) -> (TurnView, StepView) {
    turn_step(
        f.turn,
        TurnEvent::Boundary {
            messages: f.messages,
            overflow_predicted: true,
            breaker: f.breaker,
        },
    )
}

/// The step that follows its failed compaction.
pub open spec fn failure_step(f: FailingTurn) -> (TurnView, StepView) {
    turn_step(
        boundary_step(f).0,
        TurnEvent::Compaction(CompactionResult::Failed { error: f.error, cancelled: false }),
    )
}

/// Whether the turn asks for a compaction.
pub open spec fn asks(f: FailingTurn) -> bool {
    boundary_step(f).1.demand == DemandView::Compact(CompactionTrigger::Predictive)
}

/// Everything that the turn does up to its request.
pub open spec fn done_before_request(f: FailingTurn) -> Seq<EffectView> {
    if asks(f) {
        boundary_step(f).1.effects + failure_step(f).1.effects
    } else {
        boundary_step(f).1.effects
    }
}

/// Whether the turn goes on to its request, on the conversation as it is.
pub open spec fn samples(f: FailingTurn) -> bool {
    let last = if asks(f) {
        failure_step(f)
    } else {
        boundary_step(f)
    };
    last.0.phase is Sampling && last.1.demand is Sample
}

/// The notes of a turn whose compaction was asked for and failed.
pub open spec fn failed_notes(error: Seq<char>) -> Seq<EffectView> {
    seq![
        EffectView::Note("predicted context overflow; compacting history"@),
        EffectView::Note("predictive compaction failed: "@ + error),
        EffectView::CountCompactionFailure,
    ]
}

/// What one failing turn comes to, by the breaker that it begins on.
proof fn lemma_failing_turn(f: FailingTurn)
    requires
        f.turn.phase is Boundary,
        f.turn.has_window,
        f.messages >= 2,
    ensures
        samples(f),
        asks(f) <==> !breaker::paused(f.breaker@),
        done_before_request(f) == (if breaker::paused(f.breaker@) {
            Seq::<EffectView>::empty()
        } else if breaker::trips(f.breaker@) {
            failed_notes(f.error@).push(EffectView::Note(COMPACTION_PAUSED_NOTE@))
        } else {
            failed_notes(f.error@)
        }),
        counted(f.breaker@, done_before_request(f)) == (if breaker::paused(f.breaker@) {
            f.breaker@
        } else {
            breaker::failed(f.breaker@)
        }),
{
    let b = f.breaker@;
    let done = done_before_request(f);
    if !breaker::paused(b) {
        let told = failed_notes(f.error@);
        assert(failure_step(f).1.effects == failure_effects(boundary_step(f).0, f.error@));
        assert(boundary_step(f).0.breaker == b);
        if breaker::trips(b) {
            assert(done =~= told.push(EffectView::Note(COMPACTION_PAUSED_NOTE@)));
            assert(done.drop_last() =~= told);
            assert(counted(b, done) == counted(b, told));
        } else {
            assert(done =~= told);
        }
        assert(told.drop_last().drop_last().drop_last() =~= Seq::<EffectView>::empty());
        reveal_with_fuel(counted, 4);
    }
}

/// A summary request that keeps failing is paid for twice, then not at all for
/// three turns, and tried again in the turn after them. Every one of the turns
/// goes on to its request on the conversation as it is; the pause is announced
/// once, and a turn that it skips says nothing.
pub proof fn law_failing_compactions_pause(start: BreakerView, turns: Seq<FailingTurn>)
    requires
        start.failures == 0,
        start.paused_until is None,
        turns.len() == 6,
        forall|i: int|
            0 <= i < 6 ==> (#[trigger] turns[i]).turn.phase is Boundary && turns[i].turn.has_window
                && turns[i].messages >= 2,
        turns[0].breaker@ == breaker::begun(start),
        forall|i: int|
            0 < i < 6 ==> (#[trigger] turns[i]).breaker@ == breaker::begun(
                counted(turns[i - 1].breaker@, done_before_request(turns[i - 1])),
            ),
    ensures
        forall|i: int| 0 <= i < 6 ==> samples(#[trigger] turns[i]),
        asks(turns[0]) && asks(turns[1]) && asks(turns[5]),
        !asks(turns[2]) && !asks(turns[3]) && !asks(turns[4]),
        done_before_request(turns[0]) == failed_notes(turns[0].error@),
        done_before_request(turns[1]) == failed_notes(turns[1].error@).push(
            EffectView::Note(COMPACTION_PAUSED_NOTE@),
        ),
        done_before_request(turns[2]).len() == 0,
        done_before_request(turns[3]).len() == 0,
        done_before_request(turns[4]).len() == 0,
        done_before_request(turns[5]) == failed_notes(turns[5].error@),
{
    lemma_failing_turn(turns[0]);
    lemma_failing_turn(turns[1]);
    lemma_failing_turn(turns[2]);
    lemma_failing_turn(turns[3]);
    lemma_failing_turn(turns[4]);
    lemma_failing_turn(turns[5]);
    assert forall|i: int| 0 <= i < 6 implies samples(#[trigger] turns[i]) by {
        lemma_failing_turn(turns[i]);
    }
}

/// A pause holds back only the compaction that is predicted: a request that the
/// provider rejects is still compacted.
pub proof fn law_a_pause_spares_the_reactive_compaction(s: TurnView, b: CompactionBreaker)
    requires
        well_formed(s),
        s.phase is Boundary,
        s.has_window,
        !s.overflow_compact_attempted,
        breaker::paused(b@),
    ensures
        forall|messages: usize, overflow_predicted: bool|
            {
                let silent = #[trigger] turn_step(
                    s,
                    TurnEvent::Boundary { messages, overflow_predicted, breaker: b },
                );
                &&& silent.1.effects.len() == 0
                &&& silent.1.demand is Sample
                &&& turn_step(silent.0, TurnEvent::Sampled(Sampled::Overflow)).1.demand
                    == DemandView::Compact(CompactionTrigger::Reactive)
            },
{
}

/// A compaction that the user interrupted did not fail: nothing is counted.
pub proof fn law_an_interrupted_compaction_is_no_failure(s: TurnView, error: String, b: BreakerView)
    requires
        s.phase is Compacting || s.phase is Recovering,
    ensures
        counted(
            b,
            turn_step(
                s,
                TurnEvent::Compaction(CompactionResult::Failed { error, cancelled: true }),
            ).1.effects,
        ) == b,
{
}

/// An overflow that was recovered stays recovered: no step forgets it.
pub proof fn law_recovery_is_remembered(s: TurnView, event: TurnEvent)
    requires
        awaited(s.phase, event),
        s.overflow_compact_attempted,
    ensures
        turn_step(s, event).0.overflow_compact_attempted,
{
}

/// A turn the user interrupts before the model produced anything, with its
/// input still staged and nothing queued, writes nothing and reports an abort.
pub proof fn law_an_early_interrupt_leaves_no_trace(s: TurnView, context: Vec<String>)
    requires
        well_formed(s),
        s.phase is Sampling,
    ensures
        forall|partial: Vec<ContentBlock>|
            #![trigger protocol::blocks(partial@)]
            partial@.len() == 0 ==> {
                let stopped = turn_step(
                    s,
                    TurnEvent::Sampled(Sampled::Cancelled { partial, produced_nothing: true }),
                );
                let closed = turn_step(
                    stopped.0,
                    TurnEvent::Stopped { context, has_staged: true, inbox_empty: true },
                );
                &&& stopped.1.effects.len() == 0
                &&& closed.1.effects.len() == 0
                &&& closed.1.demand is Finish
                &&& closed.1.demand->Finish_0.reason is Aborted
            },
{
    assert forall|partial: Vec<ContentBlock>|
        #![trigger protocol::blocks(partial@)]
        partial@.len() == 0 implies {
        let stopped = turn_step(
            s,
            TurnEvent::Sampled(Sampled::Cancelled { partial, produced_nothing: true }),
        );
        let closed = turn_step(
            stopped.0,
            TurnEvent::Stopped { context, has_staged: true, inbox_empty: true },
        );
        &&& stopped.1.effects.len() == 0
        &&& closed.1.effects.len() == 0
        &&& closed.1.demand is Finish
        &&& closed.1.demand->Finish_0.reason is Aborted
    } by {
        assert(protocol::blocks(partial@).len() == 0);
    }
}

/// A turn that ends any other way has its closing line as the last thing
/// written.
pub proof fn law_the_closing_line_comes_last(s: TurnView, event: TurnEvent)
    requires
        awaited(s.phase, event),
        event is Stopped,
        !(s.phase->outcome.reason is Aborted && event->has_staged && event->inbox_empty),
    ensures
        turn_step(s, event).1.effects.len() > 0,
        turn_step(s, event).1.effects.last() == EffectView::RecordTerminal(
            agent::terminal_of(s.phase->outcome.reason),
        ),
        turn_step(s, event).1.demand == DemandView::Finish(s.phase->outcome),
{
}

/// Whether nothing among the effects closes a turn.
pub open spec fn none_closes(effects: Seq<EffectView>) -> bool {
    forall|i: int| 0 <= i < effects.len() ==> !((#[trigger] effects[i]) is RecordTerminal)
}

/// Whether nothing among the effects counts on the breaker.
pub open spec fn none_counts(effects: Seq<EffectView>) -> bool {
    forall|i: int|
        0 <= i < effects.len() ==> !((#[trigger] effects[i]) is BeginTurn) && !(
        effects[i] is CountCompactionFailure)
}

/// Whether a step leaves its turn open.
pub open spec fn stays_open(r: (TurnView, StepView)) -> bool {
    !(r.0.phase is Ended) && !(r.1.demand is Finish) && none_closes(r.1.effects)
}

proof fn lemma_next_round_stays_open(s: TurnView, done: Seq<EffectView>)
    requires
        none_closes(done),
    ensures
        stays_open(next_round(s, done)),
        none_counts(done) ==> none_counts(next_round(s, done).1.effects),
{
}

proof fn lemma_nudged_stays_open(s: TurnView, done: Seq<EffectView>, failure: Seq<char>)
    requires
        none_closes(done),
    ensures
        stays_open(nudged(s, done, failure)),
        none_counts(done) ==> none_counts(nudged(s, done, failure).1.effects),
{
    let failed = TurnView { structured_failures: s.structured_failures + 1, ..s };
    lemma_next_round_stays_open(failed, done + seq![EffectView::Record(harness(s.nudge))]);
}

proof fn lemma_classified_stays_open(
    s: TurnView,
    done: Seq<EffectView>,
    outcome: OutcomeKind,
    content: Seq<BlockView>,
    invalid: Seq<InvalidView>,
)
    requires
        none_closes(done),
    ensures
        stays_open(classified(s, done, outcome, content, invalid)),
        none_counts(done) ==> none_counts(
            classified(s, done, outcome, content, invalid).1.effects,
        ),
{
    match outcome {
        OutcomeKind::EndTurn => {
            lemma_nudged_stays_open(
                s,
                done,
                "structured output was not produced after 3 attempts"@,
            );
        },
        OutcomeKind::OutputLimit(_) => {
            let nudge = seq![
                EffectView::Note(truncation_note(s.truncation_recoveries + 1)),
                EffectView::Record(harness(TRUNCATION_CONTINUE_MSG@)),
            ];
            let carried = TurnView {
                truncation_recoveries: s.truncation_recoveries + 1,
                truncated_prefix: s.truncated_prefix + agent::spoken(content),
                ..s
            };
            assert(none_closes(done + nudge));
            assert(none_counts(done) ==> none_counts(done + nudge));
            lemma_next_round_stays_open(carried, done + nudge);
        },
        _ => {},
    }
}

proof fn lemma_sampled_stays_open(s: TurnView, sampled: Sampled)
    ensures
        stays_open(on_sampled(s, sampled)),
        none_counts(on_sampled(s, sampled).1.effects),
{
    match sampled {
        Sampled::Accepted { blocks, usage, outcome, invalid } => {
            let content = protocol::blocks(blocks@);
            let said = TurnView {
                produced: agent::with_round(s.produced, agent::spoken(content)),
                ..s
            };
            assert(none_closes(absorbed(s.depth, content, usage)));
            assert(none_counts(absorbed(s.depth, content, usage)));
            lemma_classified_stays_open(
                said,
                absorbed(s.depth, content, usage),
                outcome@,
                content,
                agent::invalid_calls(invalid@),
            );
        },
        Sampled::Partial { error, blocks } => {
            let content = protocol::blocks(blocks@);
            let round_text = agent::spoken(content);
            let done = assistant_effect(content) + seq![
                EffectView::Note(resume_note(s.stream_resumes + 1, error.message@)),
                EffectView::Record(harness(STREAM_RESUME_MSG@)),
            ];
            assert(none_closes(done));
            assert(none_counts(done));
            lemma_next_round_stays_open(
                TurnView {
                    stream_resumes: s.stream_resumes + 1,
                    truncated_prefix: s.truncated_prefix + round_text,
                    produced: agent::with_round(s.produced, round_text),
                    ..s
                },
                done,
            );
        },
        _ => {},
    }
}

proof fn lemma_dispatched_stays_open(s: TurnView, event: TurnEvent)
    requires
        event is Dispatched,
    ensures
        stays_open(turn_step(s, event)),
        none_counts(turn_step(s, event).1.effects),
{
    match event {
        TurnEvent::Dispatched { results, hook_context, cancelled, structured } => {
            let done = seq![
                EffectView::Record(
                    MessageView {
                        role: Role::User,
                        content: agent::merged_results(
                            s.phase->blocks,
                            s.phase->invalid,
                            protocol::blocks(results@),
                        ),
                        provenance: None,
                        injected: None,
                    },
                ),
            ] + recorded_context(text::texts(hook_context@));
            assert(none_closes(done));
            assert(none_counts(done));
            lemma_nudged_stays_open(
                s,
                done,
                "valid structured output was not produced after 3 attempts"@,
            );
            lemma_next_round_stays_open(s, done);
        },
        _ => {},
    }
}

/// Every turn is closed, and once: a closing line is the last thing that a turn
/// writes and comes with its outcome; only a turn that the user took back before
/// it wrote anything has none. After its outcome a turn takes no event.
pub proof fn law_a_turn_is_closed_once(s: TurnView, event: TurnEvent)
    requires
        awaited(s.phase, event),
    ensures
        ({
            let (after, step) = turn_step(s, event);
            &&& forall|i: int|
                0 <= i < step.effects.len() && (#[trigger] step.effects[i]) is RecordTerminal ==> i
                    == step.effects.len() - 1 && step.demand is Finish
            &&& step.demand is Finish <==> after.phase is Ended
            &&& step.demand matches DemandView::Finish(outcome) ==> {
                ||| step.effects.len() > 0 && step.effects.last() == EffectView::RecordTerminal(
                    agent::terminal_of(outcome.reason),
                )
                ||| step.effects.len() == 0 && outcome.reason is Aborted && event is Stopped
                    && event->has_staged && event->inbox_empty
            }
        }),
        forall|later: TurnEvent| !awaited(PhaseView::Ended, later),
{
    match event {
        TurnEvent::Sampled(sampled) => {
            lemma_sampled_stays_open(s, sampled);
        },
        TurnEvent::Dispatched { .. } => {
            lemma_dispatched_stays_open(s, event);
        },
        TurnEvent::Compaction(result) => {
            assert(stays_open(turn_step(s, event)));
        },
        TurnEvent::Stopped { context, .. } => {
            assert(none_closes(recorded_context(text::texts(context@))));
        },
        _ => {},
    }
}

/// Only a predictive compaction that failed is counted, and a turn is counted
/// once, when its start hook lets it begin.
pub proof fn law_only_failures_are_counted(s: TurnView, event: TurnEvent, i: int)
    requires
        awaited(s.phase, event),
        0 <= i < turn_step(s, event).1.effects.len(),
    ensures
        turn_step(s, event).1.effects[i] is CountCompactionFailure ==> s.phase is Compacting && (
        event matches TurnEvent::Compaction(CompactionResult::Failed { cancelled, .. })
            && !cancelled),
        turn_step(s, event).1.effects[i] is BeginTurn ==> event is Started && i == 0,
{
    match event {
        TurnEvent::Sampled(sampled) => {
            lemma_sampled_stays_open(s, sampled);
        },
        TurnEvent::Dispatched { .. } => {
            lemma_dispatched_stays_open(s, event);
        },
        TurnEvent::Compaction(CompactionResult::Failed { error, cancelled }) => {
            if s.phase is Compacting && !cancelled {
                assert(turn_step(s, event).1.effects == failure_effects(s, error@));
            }
        },
        TurnEvent::Stopped { context, .. } => {
            assert(none_counts(recorded_context(text::texts(context@))));
        },
        TurnEvent::Started(HookDecision::Allow { context }) => {
            assert(none_counts(staged_context(text::texts(context@))));
        },
        _ => {},
    }
}

/// A response cut off and continued is one answer: the cut-off part is carried
/// over and put before what the last round said.
pub proof fn law_a_continued_answer_is_whole(
    s: TurnView,
    outcome: OutcomeKind,
    cut: Seq<BlockView>,
    rest: Seq<BlockView>,
    done: Seq<EffectView>,
    later: Seq<EffectView>,
)
    requires
        outcome is OutputLimit,
        s.truncation_recoveries < TRUNCATION_RECOVERY_LIMIT,
        !s.structured,
    ensures
        ({
            let carried = classified(s, done, outcome, cut, Seq::empty()).0;
            let finishing = classified(
                carried,
                later,
                OutcomeKind::EndTurn,
                rest,
                Seq::empty(),
            ).0;
            on_late_work(
                finishing,
                finishing.phase->text,
                finishing.phase->structured,
                false,
            ).0.phase->outcome.final_text == s.truncated_prefix + agent::spoken(cut)
                + agent::spoken(rest)
        }),
{
}

/// Between a cut-off round and the next, nothing drops the carried part.
pub proof fn law_the_carried_part_only_grows(s: TurnView, event: TurnEvent)
    requires
        awaited(s.phase, event),
    ensures
        s.truncated_prefix.len() <= turn_step(s, event).0.truncated_prefix.len(),
        turn_step(s, event).0.truncated_prefix.take(s.truncated_prefix.len() as int)
            == s.truncated_prefix,
{
    assert(turn_step(s, event).0.truncated_prefix.take(s.truncated_prefix.len() as int)
        =~= s.truncated_prefix);
}

// ---------------------------------------------------------------------------
// What each event comes to
// ---------------------------------------------------------------------------

/// Whether a step ends the turn: the stop hook is asked for, and the outcome that
/// waits for it has this reason, text, number of rounds and structured output.
pub open spec fn ends_with(
    r: (TurnView, StepView),
    reason: EndReasonView,
    text: Seq<char>,
    rounds: int,
    structured: Option<Seq<char>>,
) -> bool {
    &&& r.1.demand == DemandView::StopHook
    &&& r.0.phase is Closing
    &&& r.0.phase->outcome.reason == reason
    &&& r.0.phase->outcome.final_text == text
    &&& r.0.phase->outcome.rounds == rounds
    &&& r.0.phase->outcome.structured == structured
}

/// Whether a step goes on to another round: fresh tools are asked for, unless the
/// turn has had all its rounds, which ends it.
pub open spec fn goes_on(r: (TurnView, StepView), before: TurnView) -> bool {
    if before.max_rounds is Some && before.rounds >= before.max_rounds->0 {
        ends_with(r, EndReasonView::MaxRounds, r.0.produced, before.rounds as int, None)
    } else {
        r.0.phase is Opening && r.1.demand == DemandView::BuildTools
    }
}

/// Whether a step never lets the turn begin: it is over with this complaint, and
/// its closing line is all that is written.
pub open spec fn never_begins(r: (TurnView, StepView), complaint: Seq<char>) -> bool {
    &&& r.0.phase is Ended
    &&& r.1.demand is Finish
    &&& r.1.demand->Finish_0.reason == EndReasonView::Error(TurnErrorView::Message(complaint))
    &&& r.1.demand->Finish_0.final_text.len() == 0
    &&& r.1.demand->Finish_0.rounds == 0
    &&& r.1.demand->Finish_0.structured is None
    &&& r.1.effects.len() == 1
    &&& r.1.effects[0] is RecordTerminal
    &&& r.1.effects[0]->RecordTerminal_0.status == "error"@
    &&& r.1.effects[0]->RecordTerminal_0.error == Some(complaint)
}

/// Whether two states are of turns made with the same options.
pub open spec fn same_options(now: TurnView, before: TurnView) -> bool {
    &&& now.depth == before.depth
    &&& now.subagent == before.subagent
    &&& now.max_rounds == before.max_rounds
    &&& now.has_window == before.has_window
    &&& now.structured == before.structured
    &&& now.nudge == before.nudge
}

/// No step changes what a turn was made with.
pub proof fn law_options_are_fixed(s: TurnView, event: TurnEvent)
    requires
        awaited(s.phase, event),
    ensures
        same_options(turn_step(s, event).0, s),
{
}

/// What a turn waits for is what it asked for: each demand has one kind of event
/// for an answer, and no other event is taken.
pub proof fn law_the_demand_says_what_is_awaited(s: TurnView, event: TurnEvent, answer: TurnEvent)
    requires
        awaited(s.phase, event),
    ensures
        ({
            let (now, step) = turn_step(s, event);
            awaited(now.phase, answer) <==> match step.demand {
                DemandView::StartHook => answer is Started,
                DemandView::BuildTools => answer is Tools,
                DemandView::RoundBoundary => answer is Boundary,
                DemandView::Compact(_) => answer is Compaction,
                DemandView::Sample => answer is Sampled,
                DemandView::LateWork => answer is LateWork,
                DemandView::Dispatch(_) => answer is Dispatched,
                DemandView::StopHook => answer is Stopped,
                DemandView::Finish(_) => false,
            }
        }),
{
}

/// A compaction is read as the kind that was asked for: one asked for at a
/// boundary goes on to the request, one asked for after a rejection does not.
pub proof fn law_the_phase_tells_which_compaction(s: TurnView, event: TurnEvent)
    requires
        awaited(s.phase, event),
    ensures
        turn_step(s, event).0.phase is Compacting <==> turn_step(s, event).1.demand
            == DemandView::Compact(CompactionTrigger::Predictive),
        turn_step(s, event).0.phase is Recovering <==> turn_step(s, event).1.demand
            == DemandView::Compact(CompactionTrigger::Reactive),
        turn_step(s, event).1.demand is Compact ==> event is Boundary || event is Sampled,
{
}

/// A route that cannot be opened, or a start hook that blocks, never lets the
/// turn begin.
pub proof fn law_a_refused_turn_never_begins(s: TurnView, event: TurnEvent)
    requires
        awaited(s.phase, event),
    ensures
        event matches TurnEvent::Route { error: Some(e) } ==> never_begins(
            turn_step(s, event),
            "provider route initialization failed: "@ + e@,
        ),
        event matches TurnEvent::Started(HookDecision::Block { reason }) ==> never_begins(
            turn_step(s, event),
            if s.subagent {
                "turn blocked by subagent_start hook: "@ + reason@
            } else {
                "turn blocked by pre_turn hook: "@ + reason@
            },
        ),
        event matches TurnEvent::Route { error: None } ==> turn_step(s, event).1.demand
            == DemandView::StartHook && turn_step(s, event).1.effects.len() == 0,
{
}

/// A turn that its start hook lets begin is counted, holds what the hook said
/// behind its input, in order, and asks for its tools.
pub proof fn law_an_allowed_turn_begins(s: TurnView, event: TurnEvent)
    requires
        awaited(s.phase, event),
    ensures
        event matches TurnEvent::Started(HookDecision::Allow { context }) ==> {
            let step = turn_step(s, event).1;
            &&& step.demand == DemandView::BuildTools
            &&& turn_step(s, event).0.phase is Opening
            &&& step.effects.len() == context@.len() + 1
            &&& step.effects[0] == EffectView::BeginTurn
            &&& forall|i: int|
                0 <= i < context@.len() ==> #[trigger] step.effects[i + 1] == EffectView::Stage(
                    protocol::text_message(Role::User, context@[i]@, Some(InjectedView::Hook)),
                )
        },
{
    if let TurnEvent::Started(HookDecision::Allow { context }) = event {
        let step = turn_step(s, event).1;
        assert(step.effects.len() == context@.len() + 1);
        assert forall|i: int| 0 <= i < context@.len() implies #[trigger] step.effects[i + 1]
            == EffectView::Stage(
            protocol::text_message(Role::User, context@[i]@, Some(InjectedView::Hook)),
        ) by {
            assert(text::texts(context@)[i] == context@[i]@);
            assert(staged_context(text::texts(context@))[i] == step.effects[i + 1]);
        }
    }
}

/// With its tools a turn opens a round, unless it has had all of them; without
/// them it ends with the complaint.
pub proof fn law_tools_open_a_round(s: TurnView, event: TurnEvent)
    requires
        awaited(s.phase, event),
        event is Tools,
    ensures
        ({
            let r = turn_step(s, event);
            &&& r.1.effects.len() == 0
            &&& match event->Tools_error {
                Some(e) => ends_with(
                    r,
                    EndReasonView::Error(TurnErrorView::Message(e@)),
                    s.produced,
                    s.rounds as int,
                    None,
                ),
                None => if s.max_rounds is Some && s.rounds >= s.max_rounds->0 {
                    ends_with(r, EndReasonView::MaxRounds, s.produced, s.rounds as int, None)
                } else {
                    &&& r.1.demand == DemandView::RoundBoundary
                    &&& r.0.rounds == s.rounds + 1
                },
            }
        }),
{
}

/// Only opening a round counts one.
pub proof fn law_only_opening_counts_a_round(s: TurnView, event: TurnEvent)
    requires
        awaited(s.phase, event),
        !(event is Tools),
    ensures
        turn_step(s, event).0.rounds == s.rounds,
{
}

/// At a boundary a compaction is asked for, with a note, exactly where there is a
/// window, something to fold, an overflow in sight and no pause; else the request
/// goes out and nothing is said.
pub proof fn law_an_overflow_in_sight_is_compacted(s: TurnView, event: TurnEvent)
    requires
        awaited(s.phase, event),
        event is Boundary,
    ensures
        ({
            let r = turn_step(s, event);
            if s.has_window && event->messages >= 2 && event->overflow_predicted
                && !breaker::paused(event->breaker@) {
                &&& r.1.demand == DemandView::Compact(CompactionTrigger::Predictive)
                &&& r.1.effects == seq![
                    EffectView::Note("predicted context overflow; compacting history"@),
                ]
            } else {
                r.1.demand == DemandView::Sample && r.1.effects.len() == 0
            }
        }),
{
}

/// What a predictive compaction comes to: the request goes out all the same,
/// whether it was applied, changed nothing or failed; only an interrupt ends the
/// turn.
pub proof fn law_a_predictive_compaction_is_never_fatal(s: TurnView, event: TurnEvent)
    requires
        awaited(s.phase, event),
        event is Compaction,
        s.phase is Compacting,
        s.rounds > 0,
    ensures
        ({
            let r = turn_step(s, event);
            match event->Compaction_0 {
                CompactionResult::Applied { summarized, kept, .. } => {
                    &&& r.1.demand == DemandView::Sample
                    &&& r.1.effects == seq![
                        EffectView::Note(
                            "history compacted: "@ + text::decimal(summarized as nat)
                                + " summarized, "@ + text::decimal(kept as nat)
                                + " kept verbatim"@,
                        ),
                    ]
                },
                CompactionResult::NoOp => r.1.demand == DemandView::Sample && r.1.effects.len()
                    == 0,
                CompactionResult::Failed { error, cancelled } => if cancelled {
                    &&& ends_with(r, EndReasonView::Aborted, s.produced, s.rounds - 1, None)
                    &&& r.1.effects.len() == 0
                } else {
                    &&& r.1.demand == DemandView::Sample
                    &&& r.1.effects.len() >= 2
                    &&& r.1.effects[0] == EffectView::Note(
                        "predictive compaction failed: "@ + error@,
                    )
                    &&& r.1.effects[1] == EffectView::CountCompactionFailure
                    &&& r.1.effects.len() == 3 <==> s.breaker.failures + 1 >= 2
                    &&& r.1.effects.len() <= 3
                    &&& r.1.effects.len() == 3 ==> r.1.effects[2] == EffectView::Note(
                        "automatic compaction paused for 3 turns after 2 consecutive failures; /compact still works"@,
                    )
                },
            }
        }),
{
}

/// What a reactive compaction comes to: applied, the turn tries again; else it
/// ends, and an interrupt is told from a failure.
pub proof fn law_a_reactive_compaction_must_help(s: TurnView, event: TurnEvent)
    requires
        awaited(s.phase, event),
        event is Compaction,
        s.phase is Recovering,
        s.rounds > 0,
    ensures
        ({
            let r = turn_step(s, event);
            match event->Compaction_0 {
                CompactionResult::Applied { description, .. } => goes_on(r, s) && r.1.effects
                    == seq![EffectView::Note(description@)],
                CompactionResult::NoOp => r.1.effects.len() == 0 && ends_with(
                    r,
                    EndReasonView::Error(
                        TurnErrorView::Message("reactive compaction made no changes"@),
                    ),
                    s.produced,
                    s.rounds - 1,
                    None,
                ),
                CompactionResult::Failed { error, cancelled } => r.1.effects.len() == 0 && ends_with(
                    r,
                    if cancelled {
                        EndReasonView::Aborted
                    } else {
                        EndReasonView::Error(
                            TurnErrorView::Message("reactive compaction failed: "@ + error@),
                        )
                    },
                    s.produced,
                    s.rounds - 1,
                    None,
                ),
            }
        }),
{
}

/// A rejected request is answered with a note and a compaction the first time,
/// where there is a window, and ends the turn otherwise.
pub proof fn law_a_rejected_request_is_answered(s: TurnView, event: TurnEvent)
    requires
        awaited(s.phase, event),
        event == TurnEvent::Sampled(Sampled::Overflow),
        s.rounds > 0,
    ensures
        ({
            let r = turn_step(s, event);
            if s.has_window && !s.overflow_compact_attempted {
                &&& r.1.demand == DemandView::Compact(CompactionTrigger::Reactive)
                &&& r.1.effects == seq![
                    EffectView::Note("context window exceeded; compacting and retrying"@),
                ]
                &&& r.0.overflow_compact_attempted
            } else {
                &&& r.1.effects.len() == 0
                &&& ends_with(
                    r,
                    EndReasonView::Error(
                        TurnErrorView::Message(
                            "context window exceeded (compaction unavailable or already tried)"@,
                        ),
                    ),
                    s.produced,
                    s.rounds - 1,
                    None,
                )
            }
        }),
{
}

/// Only a rejected request uses up the turn's one recovery.
pub proof fn law_only_a_rejection_uses_the_recovery(s: TurnView, event: TurnEvent)
    requires
        awaited(s.phase, event),
        event != TurnEvent::Sampled(Sampled::Overflow),
    ensures
        turn_step(s, event).0.overflow_compact_attempted == s.overflow_compact_attempted,
{
}

/// A request that failed ends the turn with the provider's own words, everything
/// produced so far, and nothing written.
pub proof fn law_a_failed_request_ends_the_turn(s: TurnView, event: TurnEvent, f: ProviderFailure)
    requires
        awaited(s.phase, event),
        event == TurnEvent::Sampled(Sampled::Terminal(f)) || event == TurnEvent::Sampled(
            Sampled::Failed(f),
        ),
        s.rounds > 0,
    ensures
        turn_step(s, event).1.effects.len() == 0,
        ends_with(
            turn_step(s, event),
            EndReasonView::Error(
                TurnErrorView::ProviderFailure { message: f.message@, retryable: f.retryable },
            ),
            s.produced,
            s.rounds - 1,
            None,
        ),
{
}

/// An interrupt while the model speaks ends the turn: what was heard is its text
/// and, where there is any, recorded; the input joins the conversation unless
/// nothing was produced.
pub proof fn law_an_interrupted_response_aborts(s: TurnView, event: TurnEvent)
    requires
        awaited(s.phase, event),
        event matches TurnEvent::Sampled(Sampled::Cancelled { .. }),
        s.rounds > 0,
    ensures
        event matches TurnEvent::Sampled(Sampled::Cancelled { partial, produced_nothing }) && {
            let r = turn_step(s, event);
            let heard = protocol::blocks(partial@);
            &&& ends_with(
                r,
                EndReasonView::Aborted,
                agent::spoken(heard),
                s.rounds - 1,
                None,
            )
            &&& r.1.effects == (if produced_nothing && heard.len() == 0 {
                Seq::<EffectView>::empty()
            } else if produced_nothing {
                seq![EffectView::RecordAssistant(heard)]
            } else if heard.len() == 0 {
                seq![EffectView::CommitStaged]
            } else {
                seq![EffectView::CommitStaged, EffectView::RecordAssistant(heard)]
            })
        },
{
    if let TurnEvent::Sampled(Sampled::Cancelled { partial, produced_nothing }) = event {
        let r = turn_step(s, event);
        let heard = protocol::blocks(partial@);
        assert(r.1.effects =~= (if produced_nothing && heard.len() == 0 {
            Seq::<EffectView>::empty()
        } else if produced_nothing {
            seq![EffectView::RecordAssistant(heard)]
        } else if heard.len() == 0 {
            seq![EffectView::CommitStaged]
        } else {
            seq![EffectView::CommitStaged, EffectView::RecordAssistant(heard)]
        }));
    }
}

/// A stream that dies after the model said something is resumed up to three
/// times where trying again can help: what landed is recorded and carried, the
/// model is told to go on. Else the turn ends with the failure and all that was
/// said of the answer.
pub proof fn law_a_broken_stream_is_resumed(s: TurnView, event: TurnEvent)
    requires
        awaited(s.phase, event),
        event matches TurnEvent::Sampled(Sampled::Partial { .. }),
        s.rounds > 0,
    ensures
        event matches TurnEvent::Sampled(Sampled::Partial { error, blocks }) && {
            let r = turn_step(s, event);
            let landed = protocol::blocks(blocks@);
            if landed.len() > 0 && error.retryable && s.stream_resumes < 3 {
                &&& goes_on(r, s)
                &&& r.0.stream_resumes == s.stream_resumes + 1
                &&& r.0.truncated_prefix == s.truncated_prefix + agent::spoken(landed)
                &&& r.1.effects == seq![
                    EffectView::RecordAssistant(landed),
                    EffectView::Note(
                        "stream interrupted after partial output; continuing from it ("@
                            + text::decimal(s.stream_resumes + 1) + "/"@ + text::decimal(3)
                            + "): "@ + error.message@,
                    ),
                    EffectView::Record(
                        protocol::text_message(
                            Role::User,
                            "Your previous response was cut off by a transient connection failure, not by you. Continue exactly where you left off."@,
                            Some(InjectedView::Harness),
                        ),
                    ),
                ]
            } else {
                &&& ends_with(
                    r,
                    EndReasonView::Error(
                        TurnErrorView::ProviderFailure {
                            message: error.message@,
                            retryable: error.retryable,
                        },
                    ),
                    s.truncated_prefix + agent::spoken(landed),
                    s.rounds - 1,
                    None,
                )
                &&& r.1.effects == (if landed.len() == 0 {
                    Seq::<EffectView>::empty()
                } else {
                    seq![EffectView::RecordAssistant(landed)]
                })
                &&& r.0.stream_resumes == s.stream_resumes
            }
        },
{
    if let TurnEvent::Sampled(Sampled::Partial { error, blocks }) = event {
        let r = turn_step(s, event);
        let landed = protocol::blocks(blocks@);
        if landed.len() > 0 && error.retryable && s.stream_resumes < 3 {
            assert(r.1.effects =~= seq![
                EffectView::RecordAssistant(landed),
                EffectView::Note(resume_note(s.stream_resumes + 1, error.message@)),
                EffectView::Record(harness(STREAM_RESUME_MSG@)),
            ]);
        }
    }
}

/// What an accepted round writes before anything else: the input is committed,
/// then the usage line, the response where there is any, the anchor, and the
/// gauge of the main agent.
pub open spec fn round_is_written(
    done: Seq<EffectView>,
    depth: u8,
    content: Seq<BlockView>,
    usage: Option<Usage>,
) -> bool {
    let used: int = if usage is Some {
        1
    } else {
        0
    };
    let spoke: int = if content.len() > 0 {
        1
    } else {
        0
    };
    let shown: int = if depth == 0 {
        1
    } else {
        0
    };
    &&& done.len() >= 1 + used + spoke + used + shown
    &&& done[0] == EffectView::CommitStaged
    &&& usage matches Some(u) ==> done[1] == EffectView::RecordUsage(u)
    &&& content.len() > 0 ==> done[1 + used] == EffectView::RecordAssistant(content)
    &&& usage matches Some(u) ==> done[1 + used + spoke] is NoteUsage && {
        let sum = u.input_tokens + u.cache_read_input_tokens + u.cache_creation_input_tokens
            + u.output_tokens;
        done[1 + used + spoke]->NoteUsage_0 == (if sum <= u64::MAX {
            sum
        } else {
            u64::MAX as int
        })
    }
    &&& depth == 0 ==> done[1 + used + spoke + used] == EffectView::PublishContext
}

/// How many effects that is.
pub open spec fn round_writes(depth: u8, content: Seq<BlockView>, usage: Option<Usage>) -> int {
    1 + (if usage is Some {
        2int
    } else {
        0
    }) + (if content.len() > 0 {
        1int
    } else {
        0
    }) + (if depth == 0 {
        1int
    } else {
        0
    })
}

proof fn lemma_round_is_written(depth: u8, content: Seq<BlockView>, usage: Option<Usage>)
    ensures
        round_is_written(absorbed(depth, content, usage), depth, content, usage),
        absorbed(depth, content, usage).len() == round_writes(depth, content, usage),
{
}

/// A response that breaks the assistant's contract is not recorded: the turn
/// ends with the complaint, with the input committed and nothing else written.
pub proof fn law_a_malformed_response_is_not_recorded(
    s: TurnView,
    event: TurnEvent,
    complaint: Seq<char>,
)
    requires
        awaited(s.phase, event),
        event matches TurnEvent::Sampled(Sampled::Accepted { blocks, outcome, .. })
            && agent::assistant_error(
            outcome@,
            protocol::blocks(blocks@),
            agent::object_inputs(protocol::blocks(blocks@)),
        ) == Some(complaint),
    ensures
        turn_step(s, event).1.effects == seq![EffectView::CommitStaged],
        ends_with(
            turn_step(s, event),
            EndReasonView::Error(TurnErrorView::Message(complaint)),
            s.produced,
            s.rounds as int,
            None,
        ),
{
}

/// A well-formed response is recorded, and what comes next is what the provider
/// says it was: calls are dispatched, an answer finishes the turn, a response cut
/// off by a limit is continued up to three times, and anything else ends the turn
/// in error with what was said.
#[verifier::rlimit(40)]
#[verifier::spinoff_prover]
pub proof fn law_a_response_is_recorded_and_followed(s: TurnView, event: TurnEvent)
    requires
        awaited(s.phase, event),
        event matches TurnEvent::Sampled(Sampled::Accepted { blocks, outcome, .. })
            && agent::assistant_error(
            outcome@,
            protocol::blocks(blocks@),
            agent::object_inputs(protocol::blocks(blocks@)),
        ) is None,
    ensures
        event matches TurnEvent::Sampled(Sampled::Accepted { blocks, usage, outcome, invalid }) && {
            let r = turn_step(s, event);
            let content = protocol::blocks(blocks@);
            let written = round_writes(s.depth, content, usage);
            let said = agent::spoken(content);
            &&& round_is_written(r.1.effects, s.depth, content, usage)
            &&& r.0.produced == agent::with_round(s.produced, said)
            &&& match outcome@ {
                OutcomeKind::ToolUse => {
                    &&& r.1.demand is Dispatch
                    &&& r.1.effects.len() == written
                    &&& r.0.phase is Dispatching
                    &&& r.0.phase->blocks == content
                    &&& r.0.phase->invalid == agent::invalid_calls(invalid@)
                },
                OutcomeKind::EndTurn => if s.structured {
                    asks_again(
                        r,
                        s,
                        written,
                        "structured output was not produced after 3 attempts"@,
                    )
                } else {
                    &&& r.1.demand == DemandView::LateWork
                    &&& r.1.effects.len() == written
                    &&& r.0.phase is Finishing
                    &&& r.0.phase->text == Some(s.truncated_prefix + said)
                    &&& r.0.phase->structured is None
                },
                OutcomeKind::OutputLimit(_) => if s.truncation_recoveries < 3 {
                    &&& goes_on(r, s)
                    &&& r.0.truncation_recoveries == s.truncation_recoveries + 1
                    &&& r.0.truncated_prefix == s.truncated_prefix + said
                    &&& r.1.effects.len() == written + 2
                    &&& r.1.effects[written] == EffectView::Note(
                        "response truncated by output limit; asking the model to continue ("@
                            + text::decimal(s.truncation_recoveries + 1) + "/"@ + text::decimal(3)
                            + ")"@,
                    )
                    &&& r.1.effects[written + 1] == EffectView::Record(
                        protocol::text_message(
                            Role::User,
                            "Your previous response was cut off by the output token limit. Continue exactly where you left off; break the remaining work into smaller pieces."@,
                            Some(InjectedView::Harness),
                        ),
                    )
                } else {
                    &&& r.1.effects.len() == written
                    &&& ends_with(
                        r,
                        EndReasonView::Error(TurnErrorView::ProviderOutcome(outcome@)),
                        s.truncated_prefix + said,
                        s.rounds as int,
                        None,
                    )
                },
                _ => {
                    &&& r.1.effects.len() == written
                    &&& ends_with(
                        r,
                        EndReasonView::Error(TurnErrorView::ProviderOutcome(outcome@)),
                        said,
                        s.rounds as int,
                        None,
                    )
                },
            }
        },
{
    if let TurnEvent::Sampled(Sampled::Accepted { blocks, usage, outcome, invalid }) = event {
        lemma_round_is_written(s.depth, protocol::blocks(blocks@), usage);
    }
}

/// Whether a structured turn that produced no structured output is asked again:
/// the third miss ends it with the complaint, the first two are answered with the
/// nudge.
pub open spec fn asks_again(
    r: (TurnView, StepView),
    before: TurnView,
    written: int,
    complaint: Seq<char>,
) -> bool {
    &&& r.0.structured_failures == before.structured_failures + 1
    &&& if before.structured_failures + 1 >= 3 {
        &&& r.1.effects.len() == written
        &&& ends_with(
            r,
            EndReasonView::Error(TurnErrorView::Message(complaint)),
            r.0.produced,
            before.rounds as int,
            None,
        )
    } else {
        &&& goes_on(r, before)
        &&& r.1.effects.len() == written + 1
        &&& r.1.effects[written] == EffectView::Record(
            protocol::text_message(Role::User, before.nudge, Some(InjectedView::Harness)),
        )
    }
}

/// The calls that are handed to the dispatcher are those of the response that can
/// be run, as the model wrote them.
pub proof fn law_the_calls_of_a_response_are_dispatched(s: TurnView, event: TurnEvent)
    requires
        awaited(s.phase, event),
        turn_step(s, event).1.demand is Dispatch,
    ensures
        event matches TurnEvent::Sampled(Sampled::Accepted { blocks, invalid, .. })
            && turn_step(s, event).1.demand->Dispatch_0 == agent::runnable(
            protocol::blocks(blocks@),
            agent::invalid_calls(invalid@),
        ),
{
}

/// Once the calls ran, their results are recorded, then what the hooks said, in
/// order. An interrupt ends the turn; a structured output finishes it; a
/// structured turn without one is asked again; any other turn goes on.
pub proof fn law_a_dispatched_round_is_followed(s: TurnView, event: TurnEvent)
    requires
        awaited(s.phase, event),
        event is Dispatched,
    ensures
        ({
            let r = turn_step(s, event);
            let context = event->hook_context@;
            let written = 1 + context.len();
            &&& r.1.effects.len() >= written
            &&& r.1.effects[0] is Record
            &&& r.1.effects[0]->Record_0.role is User
            &&& r.1.effects[0]->Record_0.injected is None
            &&& r.1.effects[0]->Record_0.provenance is None
            &&& forall|i: int|
                0 <= i < context.len() ==> #[trigger] r.1.effects[i + 1] == EffectView::Record(
                    protocol::text_message(Role::User, context[i]@, Some(InjectedView::Hook)),
                )
            &&& r.0.produced == s.produced
            &&& if event->cancelled {
                r.1.effects.len() == written && ends_with(
                    r,
                    EndReasonView::Aborted,
                    s.produced,
                    s.rounds as int,
                    None,
                )
            } else if event->Dispatched_structured is Some {
                &&& r.1.effects.len() == written
                &&& r.1.demand == DemandView::LateWork
                &&& r.0.phase is Finishing
                &&& r.0.phase->text is None
                &&& r.0.phase->structured == Some(event->Dispatched_structured->0@)
            } else if s.structured {
                asks_again(
                    r,
                    s,
                    written as int,
                    "valid structured output was not produced after 3 attempts"@,
                )
            } else {
                r.1.effects.len() == written && goes_on(r, s)
            }
        }),
{
    let r = turn_step(s, event);
    let context = event->hook_context@;
    let told = recorded_context(text::texts(context));
    assert(told.len() == context.len());
    assert forall|i: int| 0 <= i < context.len() implies #[trigger] r.1.effects[i + 1]
        == EffectView::Record(
        protocol::text_message(Role::User, context[i]@, Some(InjectedView::Hook)),
    ) by {
        assert(text::texts(context)[i] == context[i]@);
        assert(told[i] == EffectView::Record(hooked(context[i]@)));
        assert(r.1.effects[i + 1] == told[i]);
    }
}

/// The user's interrupt is obeyed wherever the turn waits for something that can
/// be interrupted: it ends as aborted and asks for no round and no request.
pub proof fn law_an_interrupt_ends_the_turn(s: TurnView, event: TurnEvent)
    requires
        awaited(s.phase, event),
        ({
            ||| event matches TurnEvent::Dispatched { cancelled, .. } && cancelled
            ||| event matches TurnEvent::Sampled(Sampled::Cancelled { .. })
            ||| event matches TurnEvent::Compaction(CompactionResult::Failed { cancelled, .. })
                && cancelled
        }),
    ensures
        turn_step(s, event).0.phase is Closing,
        turn_step(s, event).0.phase->outcome.reason is Aborted,
        turn_step(s, event).1.demand == DemandView::StopHook,
{
}

/// And nothing else ends a turn as aborted.
pub proof fn law_only_an_interrupt_aborts(s: TurnView, event: TurnEvent)
    requires
        awaited(s.phase, event),
        !(event is Stopped),
        turn_step(s, event).0.phase is Closing,
        turn_step(s, event).0.phase->outcome.reason is Aborted,
    ensures
        ({
            ||| event matches TurnEvent::Dispatched { cancelled, .. } && cancelled
            ||| event matches TurnEvent::Sampled(Sampled::Cancelled { .. })
            ||| event matches TurnEvent::Compaction(CompactionResult::Failed { cancelled, .. })
                && cancelled
        }),
{
}

/// Late work keeps a turn going; without it the turn is complete, with the answer
/// that waited, or with everything produced where there was none.
pub proof fn law_late_work_is_done_before_the_end(s: TurnView, event: TurnEvent)
    requires
        awaited(s.phase, event),
        event is LateWork,
    ensures
        turn_step(s, event).1.effects.len() == 0,
        if event->found {
            goes_on(turn_step(s, event), s)
        } else {
            ends_with(
                turn_step(s, event),
                EndReasonView::Completed,
                match s.phase->text {
                    Some(t) => t,
                    None => s.produced,
                },
                s.rounds as int,
                s.phase->structured,
            )
        },
{
}

/// Only a turn without late work is complete.
pub proof fn law_only_a_finished_turn_is_complete(s: TurnView, event: TurnEvent)
    requires
        awaited(s.phase, event),
        !(event is Stopped),
        turn_step(s, event).0.phase is Closing,
        turn_step(s, event).0.phase->outcome.reason is Completed,
    ensures
        event == (TurnEvent::LateWork { found: false }),
{
}

/// The stop hook changes nothing of the outcome. What it said is recorded, in
/// order, before the closing line; a turn that the user took back before it wrote
/// anything writes neither.
pub proof fn law_the_outcome_survives_the_stop_hook(s: TurnView, event: TurnEvent)
    requires
        awaited(s.phase, event),
        event is Stopped,
    ensures
        ({
            let r = turn_step(s, event);
            let outcome = s.phase->outcome;
            let context = event->Stopped_context@;
            &&& r.0.phase is Ended
            &&& r.1.demand == DemandView::Finish(outcome)
            &&& if outcome.reason is Aborted && event->has_staged && event->inbox_empty {
                r.1.effects.len() == 0
            } else {
                &&& r.1.effects.len() == context.len() + 1
                &&& forall|i: int|
                    0 <= i < context.len() ==> #[trigger] r.1.effects[i] == EffectView::Record(
                        protocol::text_message(
                            Role::User,
                            context[i]@,
                            Some(InjectedView::Hook),
                        ),
                    )
                &&& r.1.effects.last() is RecordTerminal
                &&& r.1.effects.last()->RecordTerminal_0.status == (match outcome.reason {
                    EndReasonView::Completed => "completed"@,
                    EndReasonView::MaxRounds => "max_rounds"@,
                    EndReasonView::Aborted => "aborted"@,
                    EndReasonView::Error(_) => "error"@,
                })
            }
        }),
{
    let r = turn_step(s, event);
    let context = event->Stopped_context@;
    let told = recorded_context(text::texts(context));
    assert(told.len() == context.len());
    if !(s.phase->outcome.reason is Aborted && event->has_staged && event->inbox_empty) {
        assert forall|i: int| 0 <= i < context.len() implies #[trigger] r.1.effects[i]
            == EffectView::Record(
            protocol::text_message(Role::User, context[i]@, Some(InjectedView::Hook)),
        ) by {
            assert(text::texts(context)[i] == context[i]@);
            assert(told[i] == EffectView::Record(hooked(context[i]@)));
            assert(r.1.effects[i] == told[i]);
        }
    }
}

/// What was cut off is carried, and a recovery counted, only by a step that goes
/// on with the cut-off answer.
pub proof fn law_only_a_cut_off_answer_is_carried(s: TurnView, event: TurnEvent)
    requires
        awaited(s.phase, event),
    ensures
        turn_step(s, event).0.truncated_prefix != s.truncated_prefix ==> event is Sampled && (
        event->Sampled_0 is Partial || event->Sampled_0 is Accepted),
        turn_step(s, event).0.stream_resumes != s.stream_resumes ==> event is Sampled
            && event->Sampled_0 is Partial,
        turn_step(s, event).0.truncation_recoveries != s.truncation_recoveries ==> event is Sampled
            && event->Sampled_0 is Accepted,
        turn_step(s, event).0.structured_failures != s.structured_failures ==> s.structured && (
        event is Sampled || event is Dispatched),
{
}

/// What a turn has produced grows by what the model said in a round, and by nothing
/// else; a response that is not recorded adds nothing.
pub proof fn law_what_was_said_is_produced(s: TurnView, event: TurnEvent)
    requires
        awaited(s.phase, event),
    ensures
        event matches TurnEvent::Sampled(Sampled::Partial { blocks, .. }) ==> turn_step(
            s,
            event,
        ).0.produced == agent::with_round(
            s.produced,
            agent::spoken(protocol::blocks(blocks@)),
        ),
        turn_step(s, event).0.produced != s.produced ==> event is Sampled && (event->Sampled_0
            is Partial || event->Sampled_0 is Accepted),
{
}

/// A turn goes by the pauses that it was told of at the last boundary.
pub proof fn law_the_boundary_tells_of_the_pause(s: TurnView, event: TurnEvent)
    requires
        awaited(s.phase, event),
    ensures
        event is Boundary ==> turn_step(s, event).0.breaker == event->breaker@,
        !(event is Boundary) ==> turn_step(s, event).0.breaker == s.breaker,
{
}

} // verus!

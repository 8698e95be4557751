//! How a turn ends, and what a round's assistant output may hold.

use vstd::prelude::*;

use crate::json;
use crate::protocol::{BlockView, ContentBlock, ResultView, ToolResultContent};
use crate::protocol;
use crate::text;

verus! {

/// Which limit cut a response off.
#[derive(Clone, Copy, Debug, PartialEq, Eq, Structural)]
pub enum OutputLimitKind {
    MaxOutputTokens,
    ModelContextWindow,
}

/// Why a response is incomplete.
#[derive(Debug, PartialEq, Eq)]
pub enum IncompleteReason {
    Provider(String),
}

/// What the provider says a response was.
#[derive(Debug, PartialEq, Eq)]
pub enum AssistantOutcome {
    EndTurn,
    ToolUse,
    OutputLimit(OutputLimitKind),
    Refused,
    Filtered,
    Incomplete(IncompleteReason),
}

/// A provider request that failed: what to say of it, and whether trying again
/// can help.
#[derive(Debug, PartialEq, Eq)]
pub struct ProviderFailure {
    pub message: String,
    pub retryable: bool,
}

/// What ended a turn in error.
#[derive(Debug, PartialEq, Eq)]
pub enum TurnError {
    Message(String),
    ProviderFailure(ProviderFailure),
    ProviderOutcome(AssistantOutcome),
}

/// Why a turn ended.
#[derive(Debug, PartialEq, Eq)]
pub enum EndReason {
    Completed,
    MaxRounds,
    Aborted,
    Error(TurnError),
}

/// The line that closes a turn in the session file.
#[derive(Debug, PartialEq, Eq)]
pub struct TurnTerminal {
    pub status: String,
    pub error: Option<String>,
    pub typed_error: Option<TurnError>,
}

/// What a turn gives back. The structured output is JSON text.
#[derive(Debug, PartialEq, Eq)]
pub struct TurnOutcome {
    pub reason: EndReason,
    pub final_text: String,
    pub rounds: usize,
    pub structured_output: Option<String>,
}

/// The tokens that the provider reports for one request.
#[derive(Clone, Copy, Debug, PartialEq, Eq, Structural)]
pub struct Usage {
    pub input_tokens: u64,
    pub output_tokens: u64,
    pub cache_read_input_tokens: u64,
    pub cache_creation_input_tokens: u64,
}

// ---------------------------------------------------------------------------
// Models
// ---------------------------------------------------------------------------

#[verifier::ext_equal]
pub enum TurnErrorView {
    Message(Seq<char>),
    ProviderFailure { message: Seq<char>, retryable: bool },
    ProviderOutcome(OutcomeKind),
}

#[verifier::ext_equal]
pub enum OutcomeKind {
    EndTurn,
    ToolUse,
    OutputLimit(OutputLimitKind),
    Refused,
    Filtered,
    Incomplete(Seq<char>),
}

#[verifier::ext_equal]
pub enum EndReasonView {
    Completed,
    MaxRounds,
    Aborted,
    Error(TurnErrorView),
}

#[verifier::ext_equal]
pub struct TurnTerminalView {
    pub status: Seq<char>,
    pub error: Option<Seq<char>>,
    pub typed_error: Option<TurnErrorView>,
}

#[verifier::ext_equal]
pub struct TurnOutcomeView {
    pub reason: EndReasonView,
    pub final_text: Seq<char>,
    pub rounds: nat,
    pub structured: Option<Seq<char>>,
}

impl View for AssistantOutcome {
    type V = OutcomeKind;

    open spec fn view(&self) -> OutcomeKind {
        match self {
            AssistantOutcome::EndTurn => OutcomeKind::EndTurn,
            AssistantOutcome::ToolUse => OutcomeKind::ToolUse,
            AssistantOutcome::OutputLimit(kind) => OutcomeKind::OutputLimit(*kind),
            AssistantOutcome::Refused => OutcomeKind::Refused,
            AssistantOutcome::Filtered => OutcomeKind::Filtered,
            AssistantOutcome::Incomplete(IncompleteReason::Provider(why)) =>
                OutcomeKind::Incomplete(why@),
        }
    }
}

impl View for TurnError {
    type V = TurnErrorView;

    open spec fn view(&self) -> TurnErrorView {
        match self {
            TurnError::Message(m) => TurnErrorView::Message(m@),
            TurnError::ProviderFailure(f) => TurnErrorView::ProviderFailure {
                message: f.message@,
                retryable: f.retryable,
            },
            TurnError::ProviderOutcome(o) => TurnErrorView::ProviderOutcome(o@),
        }
    }
}

impl View for EndReason {
    type V = EndReasonView;

    open spec fn view(&self) -> EndReasonView {
        match self {
            EndReason::Completed => EndReasonView::Completed,
            EndReason::MaxRounds => EndReasonView::MaxRounds,
            EndReason::Aborted => EndReasonView::Aborted,
            EndReason::Error(e) => EndReasonView::Error(e@),
        }
    }
}

impl View for TurnTerminal {
    type V = TurnTerminalView;

    open spec fn view(&self) -> TurnTerminalView {
        TurnTerminalView {
            status: self.status@,
            error: protocol::opt(self.error),
            typed_error: protocol::opt(self.typed_error),
        }
    }
}

impl View for TurnOutcome {
    type V = TurnOutcomeView;

    open spec fn view(&self) -> TurnOutcomeView {
        TurnOutcomeView {
            reason: self.reason@,
            final_text: self.final_text@,
            rounds: self.rounds as nat,
            structured: protocol::opt(self.structured_output),
        }
    }
}

/// What an outcome that is an error reads as.
pub open spec fn outcome_text(o: OutcomeKind) -> Seq<char> {
    match o {
        OutcomeKind::EndTurn => "model ended the turn"@,
        OutcomeKind::ToolUse => "model asked for a tool"@,
        OutcomeKind::OutputLimit(OutputLimitKind::MaxOutputTokens) =>
            "response hit the output token limit"@,
        OutcomeKind::OutputLimit(OutputLimitKind::ModelContextWindow) =>
            "response hit the model context window"@,
        OutcomeKind::Refused => "model refused the request"@,
        OutcomeKind::Filtered => "provider filtered the response"@,
        OutcomeKind::Incomplete(why) => "provider returned an incomplete response: "@ + why,
    }
}

/// What an error reads as.
pub open spec fn error_text(e: TurnErrorView) -> Seq<char> {
    match e {
        TurnErrorView::Message(m) => m,
        TurnErrorView::ProviderFailure { message, .. } => message,
        TurnErrorView::ProviderOutcome(o) => outcome_text(o),
    }
}

/// The status word of an end.
pub open spec fn status_of(r: EndReasonView) -> Seq<char> {
    match r {
        EndReasonView::Completed => "completed"@,
        EndReasonView::MaxRounds => "max_rounds"@,
        EndReasonView::Aborted => "aborted"@,
        EndReasonView::Error(_) => "error"@,
    }
}

/// The error of an end, where it is one.
pub open spec fn error_of(r: EndReasonView) -> Option<TurnErrorView> {
    match r {
        EndReasonView::Error(e) => Some(e),
        _ => None,
    }
}

/// The closing line of an end.
pub open spec fn terminal_of(r: EndReasonView) -> TurnTerminalView {
    TurnTerminalView {
        status: status_of(r),
        error: match error_of(r) {
            Some(e) => Some(error_text(e)),
            None => None,
        },
        typed_error: error_of(r),
    }
}

/// The sum of the four counts, at most `u64::MAX`.
pub open spec fn usage_total(u: Usage) -> nat {
    crate::tokens::saturated(
        (u.input_tokens + u.cache_read_input_tokens + u.cache_creation_input_tokens
            + u.output_tokens) as nat,
    )
}

impl Usage {
    /// The full context size at a request: uncached and cached input, and
    /// output.
    pub fn total(&self) -> (r: u64)
        ensures
            r == usage_total(*self),
    {
        self.input_tokens.saturating_add(self.cache_read_input_tokens).saturating_add(
            self.cache_creation_input_tokens,
        ).saturating_add(self.output_tokens)
    }
}

impl Clone for AssistantOutcome {
    fn clone(&self) -> (r: Self)
        ensures
            r@ == self@,
    {
        match self {
            AssistantOutcome::EndTurn => AssistantOutcome::EndTurn,
            AssistantOutcome::ToolUse => AssistantOutcome::ToolUse,
            AssistantOutcome::OutputLimit(kind) => AssistantOutcome::OutputLimit(*kind),
            AssistantOutcome::Refused => AssistantOutcome::Refused,
            AssistantOutcome::Filtered => AssistantOutcome::Filtered,
            AssistantOutcome::Incomplete(IncompleteReason::Provider(why)) =>
                AssistantOutcome::Incomplete(IncompleteReason::Provider(why.clone())),
        }
    }
}

impl Clone for TurnError {
    fn clone(&self) -> (r: Self)
        ensures
            r@ == self@,
    {
        match self {
            TurnError::Message(m) => TurnError::Message(m.clone()),
            TurnError::ProviderFailure(f) => TurnError::ProviderFailure(
                ProviderFailure { message: f.message.clone(), retryable: f.retryable },
            ),
            TurnError::ProviderOutcome(o) => TurnError::ProviderOutcome(o.clone()),
        }
    }
}

impl AssistantOutcome {
    /// What the outcome reads as where it is an error.
    pub fn describe(&self) -> (r: String)
        ensures
            r@ == outcome_text(self@),
    {
        match self {
            AssistantOutcome::EndTurn => "model ended the turn".to_owned(),
            AssistantOutcome::ToolUse => "model asked for a tool".to_owned(),
            AssistantOutcome::OutputLimit(OutputLimitKind::MaxOutputTokens) =>
                "response hit the output token limit".to_owned(),
            AssistantOutcome::OutputLimit(OutputLimitKind::ModelContextWindow) =>
                "response hit the model context window".to_owned(),
            AssistantOutcome::Refused => "model refused the request".to_owned(),
            AssistantOutcome::Filtered => "provider filtered the response".to_owned(),
            AssistantOutcome::Incomplete(IncompleteReason::Provider(why)) => {
                let mut out = "provider returned an incomplete response: ".to_owned();
                out.append(why.as_str());
                out
            },
        }
    }
}

impl TurnError {
    /// What the error reads as.
    pub fn describe(&self) -> (r: String)
        ensures
            r@ == error_text(self@),
    {
        match self {
            TurnError::Message(m) => m.clone(),
            TurnError::ProviderFailure(f) => f.message.clone(),
            TurnError::ProviderOutcome(o) => o.describe(),
        }
    }
}

impl EndReason {
    /// The status word that the session file carries.
    pub fn terminal_status(&self) -> (r: &'static str)
        ensures
            r@ == status_of(self@),
    {
        match self {
            EndReason::Completed => "completed",
            EndReason::MaxRounds => "max_rounds",
            EndReason::Aborted => "aborted",
            EndReason::Error(_) => "error",
        }
    }

    /// The error, where the turn ended in one.
    pub fn terminal_error(&self) -> (r: Option<&TurnError>)
        ensures
            match r {
                Some(e) => error_of(self@) == Some(e@),
                None => error_of(self@) is None,
            },
    {
        match self {
            EndReason::Error(error) => Some(error),
            EndReason::Completed | EndReason::MaxRounds | EndReason::Aborted => None,
        }
    }

    /// The closing line.
    pub fn terminal(&self) -> (r: TurnTerminal)
        ensures
            r@ == terminal_of(self@),
    {
        TurnTerminal {
            status: self.terminal_status().to_owned(),
            error: match self.terminal_error() {
                Some(e) => Some(e.describe()),
                None => None,
            },
            typed_error: match self.terminal_error() {
                Some(e) => Some(e.clone()),
                None => None,
            },
        }
    }
}

// ---------------------------------------------------------------------------
// What the assistant said
// ---------------------------------------------------------------------------

/// All text blocks, one after the other.
pub open spec fn spoken(content: Seq<BlockView>) -> Seq<char>
    decreases content.len(),
{
    if content.len() == 0 {
        Seq::empty()
    } else {
        let before = spoken(content.drop_last());
        match content.last() {
            BlockView::Text { text } => before + text,
            _ => before,
        }
    }
}

/// All text blocks of a response, in provider order.
pub fn text_content(content: &Vec<ContentBlock>) -> (r: String)
    ensures
        r@ == spoken(protocol::blocks(content@)),
{
    let ghost all = protocol::blocks(content@);
    let mut out = String::new();
    let mut i: usize = 0;
    proof {
        assert(out@ =~= spoken(all.take(0)));
    }
    while i < content.len()
        invariant
            i <= content@.len(),
            all == protocol::blocks(content@),
            out@ == spoken(all.take(i as int)),
        decreases content@.len() - i,
    {
        proof {
            assert(all.take(i + 1).drop_last() =~= all.take(i as int));
            assert(all.take(i + 1).last() == content@[i as int]@);
        }
        match &content[i] {
            ContentBlock::Text { text } => out.append(text.as_str()),
            _ => {},
        }
        i += 1;
    }
    proof {
        assert(all.take(content@.len() as int) =~= all);
    }
    out
}

/// The turn's running record with one round's text: rounds apart by a blank
/// line, rounds without words left out.
pub open spec fn with_round(produced: Seq<char>, round_text: Seq<char>) -> Seq<char> {
    if text::blank(round_text) {
        produced
    } else if produced.len() == 0 {
        round_text
    } else {
        produced + "\n\n"@ + round_text
    }
}

/// Appends one round's assistant text to the turn's running record.
pub fn append_produced(produced: &mut String, round_text: &str)
    ensures
        final(produced)@ == with_round(old(produced)@, round_text@),
{
    if text::is_blank(round_text) {
        return;
    }
    if text::char_count(produced.as_str()) == 0 {
        proof {
            assert(produced@ + round_text@ =~= round_text@);
        }
    } else {
        produced.append("\n\n");
    }
    produced.append(round_text);
}

// ---------------------------------------------------------------------------
// The canonical assistant contract
// ---------------------------------------------------------------------------

/// An earlier tool call carries the same id.
pub open spec fn id_repeats(content: Seq<BlockView>, i: int) -> bool {
    exists|k: int|
        0 <= k < i && (#[trigger] content[k]) is ToolUse && content[k]->ToolUse_id
            == content[i]->ToolUse_id
}

/// What is wrong with one block; `object` tells whether a tool call's input is
/// a JSON object.
pub open spec fn block_error(content: Seq<BlockView>, i: int, object: bool) -> Option<Seq<char>> {
    match content[i] {
        BlockView::Text { text } => if text.len() == 0 {
            Some("provider returned an empty assistant text block"@)
        } else {
            None
        },
        BlockView::RedactedThinking { data } => if data.len() == 0 {
            Some("provider returned an empty redacted thinking block"@)
        } else {
            None
        },
        BlockView::Thinking { thinking, signature } => if thinking.len() == 0 && signature.len()
            == 0 {
            Some("provider returned an empty thinking block"@)
        } else {
            None
        },
        BlockView::ToolUse { id, name, input } => if id.len() == 0 || name.len() == 0 {
            Some("provider returned a tool call with an empty identity"@)
        } else if !object {
            Some("provider returned non-object input for tool "@ + name)
        } else if id_repeats(content, i) {
            Some("provider returned duplicate tool call ids"@)
        } else {
            None
        },
        BlockView::Image { .. } | BlockView::ToolResult { .. } => Some(
            "provider returned a non-assistant output block"@,
        ),
    }
}

/// The first complaint among the blocks from `i` on.
pub open spec fn blocks_error(content: Seq<BlockView>, objects: Seq<bool>, i: nat) -> Option<
    Seq<char>,
>
    decreases content.len() - i,
{
    if i >= content.len() {
        None
    } else if block_error(content, i as int, objects[i as int]) is Some {
        block_error(content, i as int, objects[i as int])
    } else {
        blocks_error(content, objects, i + 1)
    }
}

/// Whether a response asks for a tool.
pub open spec fn has_tool_use(content: Seq<BlockView>) -> bool {
    exists|i: int| 0 <= i < content.len() && (#[trigger] content[i]) is ToolUse
}

/// What is wrong with a response: the first bad block, or calls that do not
/// match the outcome.
pub open spec fn assistant_error(
    outcome: OutcomeKind,
    content: Seq<BlockView>,
    objects: Seq<bool>,
) -> Option<Seq<char>> {
    if blocks_error(content, objects, 0) is Some {
        blocks_error(content, objects, 0)
    } else if outcome is ToolUse && !has_tool_use(content) {
        Some("provider reported tool use without a tool call"@)
    } else if !(outcome is ToolUse) && has_tool_use(content) {
        Some("provider returned a tool call for a non-tool outcome"@)
    } else {
        None
    }
}

/// Which blocks are tool calls with a JSON object for input.
pub open spec fn object_inputs(content: Seq<BlockView>) -> Seq<bool> {
    content.map_values(
        |b: BlockView|
            match b {
                BlockView::ToolUse { input, .. } => json::object_form(input),
                _ => false,
            },
    )
}

fn repeats_id(content: &Vec<ContentBlock>, i: usize, id: &str) -> (r: bool)
    requires
        i < content@.len(),
        content@[i as int]@ is ToolUse,
        content@[i as int]@->ToolUse_id == id@,
    ensures
        r == id_repeats(protocol::blocks(content@), i as int),
{
    let ghost all = protocol::blocks(content@);
    let mut k: usize = 0;
    while k < i
        invariant
            k <= i < content@.len(),
            all == protocol::blocks(content@),
            all[i as int]->ToolUse_id == id@,
            forall|j: int|
                0 <= j < k ==> !((#[trigger] all[j]) is ToolUse && all[j]->ToolUse_id == id@),
        decreases i - k,
    {
        if let ContentBlock::ToolUse { id: other, .. } = &content[k] {
            if text::same(other.as_str(), id) {
                proof {
                    assert(all[k as int] is ToolUse);
                }
                return true;
            }
        }
        k += 1;
    }
    false
}

/// Checks a response whose tool inputs have been looked at.
pub fn validate_checked_result(
    outcome: &AssistantOutcome,
    content: &Vec<ContentBlock>,
    objects: &Vec<bool>,
) -> (r: Result<(), String>)
    requires
        objects@.len() == content@.len(),
    ensures
        match r {
            Ok(()) => assistant_error(outcome@, protocol::blocks(content@), objects@) is None,
            Err(e) => assistant_error(outcome@, protocol::blocks(content@), objects@) == Some(e@),
        },
{
    let ghost all = protocol::blocks(content@);
    let mut has_tool = false;
    let mut i: usize = 0;
    while i < content.len()
        invariant
            i <= content@.len(),
            objects@.len() == content@.len(),
            all == protocol::blocks(content@),
            blocks_error(all, objects@, 0) == blocks_error(all, objects@, i as nat),
            has_tool == (exists|k: int| 0 <= k < i && (#[trigger] all[k]) is ToolUse),
        decreases content@.len() - i,
    {
        proof {
            assert(all[i as int] == content@[i as int]@);
        }
        match &content[i] {
            ContentBlock::Text { text } => {
                if text::char_count(text.as_str()) == 0 {
                    return Err("provider returned an empty assistant text block".to_owned());
                }
            },
            ContentBlock::RedactedThinking { data } => {
                if text::char_count(data.as_str()) == 0 {
                    return Err("provider returned an empty redacted thinking block".to_owned());
                }
            },
            ContentBlock::Thinking { thinking, signature } => {
                if text::char_count(thinking.as_str()) == 0 && text::char_count(signature.as_str())
                    == 0 {
                    return Err("provider returned an empty thinking block".to_owned());
                }
            },
            ContentBlock::ToolUse { id, name, .. } => {
                has_tool = true;
                if text::char_count(id.as_str()) == 0 || text::char_count(name.as_str()) == 0 {
                    return Err("provider returned a tool call with an empty identity".to_owned());
                }
                if !objects[i] {
                    let mut e = "provider returned non-object input for tool ".to_owned();
                    e.append(name.as_str());
                    return Err(e);
                }
                if repeats_id(content, i, id.as_str()) {
                    return Err("provider returned duplicate tool call ids".to_owned());
                }
            },
            ContentBlock::Image { source } => {
                proof {
                    assert(all[i as int] is Image);
                }
                return Err("provider returned a non-assistant output block".to_owned());
            },
            ContentBlock::ToolResult { .. } => {
                return Err("provider returned a non-assistant output block".to_owned());
            },
        }
        i += 1;
    }
    let reported = match outcome {
        AssistantOutcome::ToolUse => true,
        _ => false,
    };
    if reported && !has_tool {
        return Err("provider reported tool use without a tool call".to_owned());
    }
    if !reported && has_tool {
        return Err("provider returned a tool call for a non-tool outcome".to_owned());
    }
    Ok(())
}

/// Defense in depth at the history and dispatch boundary: no provider may
/// construct replayable or dispatchable state outside the canonical assistant
/// contract.
pub fn validate_assistant_result(outcome: &AssistantOutcome, content: &Vec<ContentBlock>) -> (r:
    Result<(), String>)
    ensures
        match r {
            Ok(()) => assistant_error(
                outcome@,
                protocol::blocks(content@),
                object_inputs(protocol::blocks(content@)),
            ) is None,
            Err(e) => assistant_error(
                outcome@,
                protocol::blocks(content@),
                object_inputs(protocol::blocks(content@)),
            ) == Some(e@),
        },
{
    let ghost all = protocol::blocks(content@);
    let mut objects: Vec<bool> = Vec::new();
    let mut i: usize = 0;
    while i < content.len()
        invariant
            i <= content@.len(),
            all == protocol::blocks(content@),
            objects@ == object_inputs(all).take(i as int),
        decreases content@.len() - i,
    {
        let object = match &content[i] {
            ContentBlock::ToolUse { input, .. } => json::is_object(input.as_str()),
            _ => false,
        };
        proof {
            assert(all[i as int] == content@[i as int]@);
            assert(object_inputs(all)[i as int] == object);
            assert(object_inputs(all).take(i + 1) =~= object_inputs(all).take(i as int).push(
                object,
            ));
        }
        objects.push(object);
        i += 1;
    }
    proof {
        assert(object_inputs(all).take(all.len() as int) =~= object_inputs(all));
    }
    validate_checked_result(outcome, content, &objects)
}

// ---------------------------------------------------------------------------
// Tool calls and their results
// ---------------------------------------------------------------------------

/// A call that the model made.
#[derive(Clone, Debug, PartialEq, Eq)]
pub struct ToolCall {
    pub id: String,
    pub name: String,
    pub input: String,
}

/// A call whose arguments the model did not write as JSON, and the complaint.
#[derive(Clone, Debug, PartialEq, Eq)]
pub struct InvalidCall {
    pub id: String,
    pub message: String,
}

#[verifier::ext_equal]
pub struct CallView {
    pub id: Seq<char>,
    pub name: Seq<char>,
    pub input: Seq<char>,
}

#[verifier::ext_equal]
pub struct InvalidView {
    pub id: Seq<char>,
    pub message: Seq<char>,
}

impl View for ToolCall {
    type V = CallView;

    open spec fn view(&self) -> CallView {
        CallView { id: self.id@, name: self.name@, input: self.input@ }
    }
}

impl View for InvalidCall {
    type V = InvalidView;

    open spec fn view(&self) -> InvalidView {
        InvalidView { id: self.id@, message: self.message@ }
    }
}

/// The view of a list of calls.
pub open spec fn calls(v: Seq<ToolCall>) -> Seq<CallView> {
    v.map_values(|c: ToolCall| c@)
}

/// The view of a list of unreadable calls.
pub open spec fn invalid_calls(v: Seq<InvalidCall>) -> Seq<InvalidView> {
    v.map_values(|c: InvalidCall| c@)
}

/// The complaint about the call `id`: the first that names it.
pub open spec fn complaint(invalid: Seq<InvalidView>, id: Seq<char>) -> Option<Seq<char>>
    decreases invalid.len(),
{
    if invalid.len() == 0 {
        None
    } else if invalid[0].id == id {
        Some(invalid[0].message)
    } else {
        complaint(invalid.drop_first(), id)
    }
}

/// The calls of a response that can be run, in order.
pub open spec fn runnable(content: Seq<BlockView>, invalid: Seq<InvalidView>) -> Seq<CallView>
    decreases content.len(),
{
    if content.len() == 0 {
        Seq::empty()
    } else {
        let before = runnable(content.drop_last(), invalid);
        match content.last() {
            BlockView::ToolUse { id, name, input } => if complaint(invalid, id) is None {
                before.push(CallView { id, name, input })
            } else {
                before
            },
            _ => before,
        }
    }
}

/// The failed result of a call that could not be read.
pub open spec fn failed_result(id: Seq<char>, message: Seq<char>) -> BlockView {
    BlockView::ToolResult { tool_use_id: id, content: ResultView::Text(message), is_error: true }
}

/// The results in the order of the calls: a failed one for each unreadable
/// call, the dispatched ones in turn for the others, what is left over last.
pub open spec fn interleaved(
    content: Seq<BlockView>,
    invalid: Seq<InvalidView>,
    dispatched: Seq<BlockView>,
) -> Seq<BlockView>
    decreases content.len(),
{
    if content.len() == 0 {
        dispatched
    } else {
        let rest = content.drop_first();
        match content[0] {
            BlockView::ToolUse { id, .. } => match complaint(invalid, id) {
                Some(message) => seq![failed_result(id, message)] + interleaved(
                    rest,
                    invalid,
                    dispatched,
                ),
                None => if dispatched.len() == 0 {
                    interleaved(rest, invalid, dispatched)
                } else {
                    seq![dispatched[0]] + interleaved(rest, invalid, dispatched.drop_first())
                },
            },
            _ => interleaved(rest, invalid, dispatched),
        }
    }
}

/// The results of a round.
pub open spec fn merged_results(
    content: Seq<BlockView>,
    invalid: Seq<InvalidView>,
    dispatched: Seq<BlockView>,
) -> Seq<BlockView> {
    if invalid.len() == 0 {
        dispatched
    } else {
        interleaved(content, invalid, dispatched)
    }
}

fn find_complaint(invalid: &Vec<InvalidCall>, id: &str) -> (r: Option<String>)
    ensures
        match r {
            Some(m) => complaint(invalid_calls(invalid@), id@) == Some(m@),
            None => complaint(invalid_calls(invalid@), id@) is None,
        },
{
    let ghost all = invalid_calls(invalid@);
    let mut i: usize = 0;
    proof {
        assert(all.skip(0) =~= all);
    }
    while i < invalid.len()
        invariant
            i <= invalid@.len(),
            all == invalid_calls(invalid@),
            complaint(all, id@) == complaint(all.skip(i as int), id@),
        decreases invalid@.len() - i,
    {
        proof {
            assert(all.skip(i as int)[0] == invalid@[i as int]@);
            assert(all.skip(i as int).drop_first() =~= all.skip(i + 1));
        }
        if text::same(invalid[i].id.as_str(), id) {
            return Some(invalid[i].message.clone());
        }
        i += 1;
    }
    None
}

/// The calls of a response that can be run.
pub fn runnable_calls(content: &Vec<ContentBlock>, invalid: &Vec<InvalidCall>) -> (r: Vec<ToolCall>)
    ensures
        calls(r@) == runnable(protocol::blocks(content@), invalid_calls(invalid@)),
{
    let ghost all = protocol::blocks(content@);
    let ghost bad = invalid_calls(invalid@);
    let mut out: Vec<ToolCall> = Vec::new();
    let mut i: usize = 0;
    proof {
        assert(calls(out@) =~= runnable(all.take(0), bad));
    }
    while i < content.len()
        invariant
            i <= content@.len(),
            all == protocol::blocks(content@),
            bad == invalid_calls(invalid@),
            calls(out@) == runnable(all.take(i as int), bad),
        decreases content@.len() - i,
    {
        proof {
            assert(all.take(i + 1).drop_last() =~= all.take(i as int));
            assert(all.take(i + 1).last() == content@[i as int]@);
        }
        if let ContentBlock::ToolUse { id, name, input } = &content[i] {
            if find_complaint(invalid, id.as_str()).is_none() {
                let ghost before = calls(out@);
                let call = ToolCall { id: id.clone(), name: name.clone(), input: input.clone() };
                let ghost view = call@;
                out.push(call);
                proof {
                    assert(calls(out@) =~= before.push(view));
                }
            }
        }
        i += 1;
    }
    proof {
        assert(all.take(content@.len() as int) =~= all);
    }
    out
}

/// Puts the failed results for unreadable calls back where their calls were,
/// so that a result sits next to the call it answers. Results beyond the calls
/// are kept.
pub fn merge_invalid_results(
    content: &Vec<ContentBlock>,
    invalid: &Vec<InvalidCall>,
    dispatched: Vec<ContentBlock>,
) -> (r: Vec<ContentBlock>)
    ensures
        protocol::blocks(r@) == merged_results(
            protocol::blocks(content@),
            invalid_calls(invalid@),
            protocol::blocks(dispatched@),
        ),
{
    if invalid.len() == 0 {
        return dispatched;
    }
    let ghost all = protocol::blocks(content@);
    let ghost bad = invalid_calls(invalid@);
    let ghost queue = protocol::blocks(dispatched@);
    let ghost whole = interleaved(all, bad, queue);
    let mut out: Vec<ContentBlock> = Vec::new();
    let mut next: usize = 0;
    let mut i: usize = 0;
    proof {
        assert(all.skip(0) =~= all);
        assert(queue.skip(0) =~= queue);
        assert(protocol::blocks(out@) + whole =~= whole);
    }
    while i < content.len()
        invariant
            i <= content@.len(),
            next <= dispatched@.len(),
            all == protocol::blocks(content@),
            bad == invalid_calls(invalid@),
            queue == protocol::blocks(dispatched@),
            whole == protocol::blocks(out@) + interleaved(
                all.skip(i as int),
                bad,
                queue.skip(next as int),
            ),
        decreases content@.len() - i,
    {
        let ghost before = protocol::blocks(out@);
        let ghost rest = all.skip(i + 1);
        proof {
            assert(all.skip(i as int)[0] == content@[i as int]@);
            assert(all.skip(i as int).drop_first() =~= rest);
        }
        if let ContentBlock::ToolUse { id, .. } = &content[i] {
            match find_complaint(invalid, id.as_str()) {
                Some(message) => {
                    let failed = ContentBlock::ToolResult {
                        tool_use_id: id.clone(),
                        content: ToolResultContent::Text(message),
                        is_error: true,
                    };
                    let ghost view = failed@;
                    out.push(failed);
                    proof {
                        assert(protocol::blocks(out@) =~= before.push(view));
                        let tail = interleaved(rest, bad, queue.skip(next as int));
                        assert(before + (seq![view] + tail) =~= before.push(view) + tail);
                    }
                },
                None => {
                    if next < dispatched.len() {
                        let result = dispatched[next].clone();
                        let ghost view = result@;
                        proof {
                            assert(queue.skip(next as int)[0] == view);
                            assert(queue.skip(next as int).drop_first() =~= queue.skip(next + 1));
                        }
                        out.push(result);
                        proof {
                            assert(protocol::blocks(out@) =~= before.push(view));
                            let tail = interleaved(rest, bad, queue.skip(next + 1));
                            assert(before + (seq![view] + tail) =~= before.push(view) + tail);
                        }
                        next += 1;
                    }
                },
            }
        }
        i += 1;
    }
    proof {
        assert(all.skip(all.len() as int) =~= Seq::<BlockView>::empty());
    }
    let ghost before = protocol::blocks(out@);
    let ghost from = next as int;
    while next < dispatched.len()
        invariant
            0 <= from <= next <= dispatched@.len(),
            queue == protocol::blocks(dispatched@),
            protocol::blocks(out@) == before + queue.subrange(from, next as int),
        decreases dispatched@.len() - next,
    {
        let ghost now = protocol::blocks(out@);
        out.push(dispatched[next].clone());
        next += 1;
        proof {
            assert(queue[next - 1] == dispatched@[next - 1]@);
            assert(protocol::blocks(out@) =~= now.push(queue[next - 1]));
            assert(queue.subrange(from, next as int) =~= queue.subrange(from, next - 1).push(
                queue[next - 1],
            ));
            assert(protocol::blocks(out@) =~= before + queue.subrange(from, next as int));
        }
    }
    proof {
        assert(queue.subrange(from, queue.len() as int) =~= queue.skip(from));
    }
    out
}

/// The ids of the tool calls of a response, in order.
pub open spec fn call_ids(content: Seq<BlockView>) -> Seq<Seq<char>>
    decreases content.len(),
{
    if content.len() == 0 {
        Seq::empty()
    } else {
        let rest = call_ids(content.drop_first());
        match content[0] {
            BlockView::ToolUse { id, .. } => seq![id] + rest,
            _ => rest,
        }
    }
}

/// The calls that can be run, read from the front.
pub open spec fn runnable_ids(content: Seq<BlockView>, invalid: Seq<InvalidView>) -> Seq<Seq<char>>
    decreases content.len(),
{
    if content.len() == 0 {
        Seq::empty()
    } else {
        let rest = runnable_ids(content.drop_first(), invalid);
        match content[0] {
            BlockView::ToolUse { id, .. } => if complaint(invalid, id) is None {
                seq![id] + rest
            } else {
                rest
            },
            _ => rest,
        }
    }
}

/// The id that a result answers.
pub open spec fn answers(result: BlockView) -> Seq<char> {
    result->ToolResult_tool_use_id
}

proof fn lemma_runnable_append(content: Seq<BlockView>, invalid: Seq<InvalidView>, b: BlockView)
    ensures
        runnable_ids(content.push(b), invalid) == runnable_ids(content, invalid) + runnable_ids(
            seq![b],
            invalid,
        ),
    decreases content.len(),
{
    reveal_with_fuel(runnable_ids, 2);
    let whole = content.push(b);
    if content.len() == 0 {
        assert(whole =~= seq![b]);
        assert(runnable_ids(content, invalid) + runnable_ids(seq![b], invalid) =~= runnable_ids(
            seq![b],
            invalid,
        ));
    } else {
        lemma_runnable_append(content.drop_first(), invalid, b);
        assert(whole.drop_first() =~= content.drop_first().push(b));
        let rest = runnable_ids(content.drop_first(), invalid);
        let one = runnable_ids(seq![b], invalid);
        match content[0] {
            BlockView::ToolUse { id, .. } => {
                assert(seq![id] + (rest + one) =~= (seq![id] + rest) + one);
            },
            _ => {},
        }
    }
}

proof fn lemma_runnable_ids(content: Seq<BlockView>, invalid: Seq<InvalidView>)
    ensures
        runnable(content, invalid).map_values(|c: CallView| c.id) == runnable_ids(
            content,
            invalid,
        ),
    decreases content.len(),
{
    reveal_with_fuel(runnable_ids, 2);
    if content.len() == 0 {
        assert(runnable(content, invalid).map_values(|c: CallView| c.id) =~= runnable_ids(
            content,
            invalid,
        ));
    } else {
        let front = content.drop_last();
        let b = content.last();
        lemma_runnable_ids(front, invalid);
        lemma_runnable_append(front, invalid, b);
        assert(front.push(b) =~= content);
        let before = runnable(front, invalid);
        assert(seq![b].drop_first() =~= Seq::<BlockView>::empty());
        match b {
            BlockView::ToolUse { id, name, input } => {
                if complaint(invalid, id) is None {
                    assert(runnable_ids(seq![b], invalid) =~= seq![id]);
                    assert(before.push(CallView { id, name, input }).map_values(|c: CallView| c.id)
                        =~= before.map_values(|c: CallView| c.id) + seq![id]);
                } else {
                    assert(runnable_ids(seq![b], invalid) =~= Seq::<Seq<char>>::empty());
                    assert(before.map_values(|c: CallView| c.id) =~= before.map_values(
                        |c: CallView| c.id,
                    ) + Seq::<Seq<char>>::empty());
                }
            },
            _ => {
                assert(runnable_ids(seq![b], invalid) =~= Seq::<Seq<char>>::empty());
                assert(before.map_values(|c: CallView| c.id) =~= before.map_values(
                    |c: CallView| c.id,
                ) + Seq::<Seq<char>>::empty());
            },
        }
    }
}

proof fn lemma_interleaved_ids(
    content: Seq<BlockView>,
    invalid: Seq<InvalidView>,
    dispatched: Seq<BlockView>,
)
    requires
        dispatched.map_values(|b: BlockView| answers(b)) == runnable_ids(content, invalid),
    ensures
        interleaved(content, invalid, dispatched).map_values(|b: BlockView| answers(b)) == call_ids(
            content,
        ),
    decreases content.len(),
{
    let ids = |b: BlockView| answers(b);
    if content.len() == 0 {
        assert(dispatched.map_values(ids).len() == 0);
        assert(interleaved(content, invalid, dispatched).map_values(ids) =~= call_ids(content));
    } else {
        let rest = content.drop_first();
        match content[0] {
            BlockView::ToolUse { id, .. } => match complaint(invalid, id) {
                Some(message) => {
                    lemma_interleaved_ids(rest, invalid, dispatched);
                    let tail = interleaved(rest, invalid, dispatched);
                    assert((seq![failed_result(id, message)] + tail).map_values(ids) =~= seq![id]
                        + tail.map_values(ids));
                },
                None => {
                    assert(dispatched.map_values(ids).len() == dispatched.len());
                    assert(dispatched.len() > 0);
                    assert(dispatched.map_values(ids)[0] == answers(dispatched[0]));
                    assert((seq![id] + runnable_ids(rest, invalid))[0] == id);
                    assert(dispatched.drop_first().map_values(ids) =~= dispatched.map_values(
                        ids,
                    ).drop_first());
                    assert((seq![id] + runnable_ids(rest, invalid)).drop_first()
                        =~= runnable_ids(rest, invalid));
                    lemma_interleaved_ids(rest, invalid, dispatched.drop_first());
                    let tail = interleaved(rest, invalid, dispatched.drop_first());
                    assert((seq![dispatched[0]] + tail).map_values(ids) =~= seq![id]
                        + tail.map_values(ids));
                },
            },
            _ => {
                lemma_interleaved_ids(rest, invalid, dispatched);
            },
        }
    }
}

proof fn lemma_no_complaints(content: Seq<BlockView>)
    ensures
        runnable_ids(content, Seq::<InvalidView>::empty()) == call_ids(content),
    decreases content.len(),
{
    if content.len() > 0 {
        lemma_no_complaints(content.drop_first());
    }
}

/// Where the dispatcher answers each call it was handed, in order, the round's
/// results answer every call of the response, each once, in the order of the
/// calls: no call is left without a result, readable or not.
pub proof fn law_every_call_is_answered(
    content: Seq<BlockView>,
    invalid: Seq<InvalidView>,
    dispatched: Seq<BlockView>,
)
    requires
        dispatched.map_values(|b: BlockView| answers(b)) == runnable(content, invalid).map_values(
            |c: CallView| c.id,
        ),
    ensures
        merged_results(content, invalid, dispatched).map_values(|b: BlockView| answers(b))
            == call_ids(content),
{
    lemma_runnable_ids(content, invalid);
    if invalid.len() == 0 {
        assert(invalid =~= Seq::<InvalidView>::empty());
        lemma_no_complaints(content);
    } else {
        lemma_interleaved_ids(content, invalid, dispatched);
    }
}

/// Whether some unreadable call has this id.
pub open spec fn is_unreadable(invalid: Seq<InvalidView>, id: Seq<char>) -> bool {
    exists|j: int| 0 <= j < invalid.len() && (#[trigger] invalid[j]).id == id
}

proof fn lemma_listed_is_complained_of(invalid: Seq<InvalidView>, id: Seq<char>, j: int)
    requires
        0 <= j < invalid.len(),
        invalid[j].id == id,
    ensures
        complaint(invalid, id) is Some,
    decreases j,
{
    if j > 0 && invalid[0].id != id {
        assert(invalid.drop_first()[j - 1] == invalid[j]);
        lemma_listed_is_complained_of(invalid.drop_first(), id, j - 1);
    }
}

/// A call has a complaint exactly where it is listed as unreadable.
pub proof fn law_complaints_are_those_listed(invalid: Seq<InvalidView>, id: Seq<char>)
    ensures
        complaint(invalid, id) is Some <==> is_unreadable(invalid, id),
    decreases invalid.len(),
{
    if is_unreadable(invalid, id) {
        let j = choose|j: int| 0 <= j < invalid.len() && (#[trigger] invalid[j]).id == id;
        lemma_listed_is_complained_of(invalid, id, j);
    } else if invalid.len() > 0 {
        assert(invalid[0].id != id);
        let rest = invalid.drop_first();
        law_complaints_are_those_listed(rest, id);
        if is_unreadable(rest, id) {
            let j = choose|j: int| 0 <= j < rest.len() && (#[trigger] rest[j]).id == id;
            assert(invalid[j + 1] == rest[j]);
        }
    }
}

/// Of several entries for one call, the first says what is wrong with it.
pub proof fn law_the_first_complaint_is_given(invalid: Seq<InvalidView>, id: Seq<char>, j: int)
    requires
        0 <= j < invalid.len(),
        invalid[j].id == id,
        forall|k: int| 0 <= k < j ==> (#[trigger] invalid[k]).id != id,
    ensures
        complaint(invalid, id) == Some(invalid[j].message),
    decreases j,
{
    if j > 0 {
        let rest = invalid.drop_first();
        assert(rest[j - 1] == invalid[j]);
        assert forall|k: int| 0 <= k < j - 1 implies (#[trigger] rest[k]).id != id by {
            assert(rest[k] == invalid[k + 1]);
        }
        law_the_first_complaint_is_given(rest, id, j - 1);
    }
}

/// Whether calls are the readable tool calls of a response, each with the id, the
/// name and the input that the model wrote: `at` says which block each one is, in
/// the order of the blocks, and no readable call is missing.
pub open spec fn are_the_calls_of(
    calls: Seq<CallView>,
    content: Seq<BlockView>,
    invalid: Seq<InvalidView>,
    at: Seq<int>,
) -> bool {
    &&& at.len() == calls.len()
    &&& forall|k: int|
        0 <= k < at.len() ==> 0 <= #[trigger] at[k] < content.len() && content[at[k]]
            == (BlockView::ToolUse {
            id: calls[k].id,
            name: calls[k].name,
            input: calls[k].input,
        }) && !is_unreadable(invalid, calls[k].id)
    &&& forall|k: int, l: int| 0 <= k < l < at.len() ==> #[trigger] at[k] < #[trigger] at[l]
    &&& forall|i: int|
        0 <= i < content.len() && (#[trigger] content[i]) is ToolUse && !is_unreadable(
            invalid,
            content[i]->ToolUse_id,
        ) ==> at.contains(i)
}

/// What is dispatched is what the model asked for: every call that can be read,
/// and no other, in the order of the response, with its own id, name and input.
pub proof fn law_calls_are_dispatched_as_written(
    content: Seq<BlockView>,
    invalid: Seq<InvalidView>,
)
    ensures
        exists|at: Seq<int>| #[trigger]
            are_the_calls_of(runnable(content, invalid), content, invalid, at),
    decreases content.len(),
{
    let now = runnable(content, invalid);
    if content.len() == 0 {
        assert(are_the_calls_of(now, content, invalid, Seq::<int>::empty()));
    } else {
        let front = content.drop_last();
        law_calls_are_dispatched_as_written(front, invalid);
        let before = runnable(front, invalid);
        let at = choose|at: Seq<int>| #[trigger] are_the_calls_of(before, front, invalid, at);
        let n = front.len() as int;
        assert(content[n] == content.last());
        let added = content.last() is ToolUse && !is_unreadable(
            invalid,
            content.last()->ToolUse_id,
        );
        if content.last() is ToolUse {
            law_complaints_are_those_listed(invalid, content.last()->ToolUse_id);
        }
        let where_now = if added {
            at.push(n)
        } else {
            at
        };
        assert forall|k: int| 0 <= k < where_now.len() implies 0 <= #[trigger] where_now[k]
            < content.len() && content[where_now[k]] == (BlockView::ToolUse {
            id: now[k].id,
            name: now[k].name,
            input: now[k].input,
        }) && !is_unreadable(invalid, now[k].id) by {
            if k < at.len() {
                assert(now[k] == before[k]);
                assert(0 <= at[k] < front.len());
                assert(content[at[k]] == front[at[k]]);
            }
        }
        assert forall|i: int|
            0 <= i < content.len() && (#[trigger] content[i]) is ToolUse && !is_unreadable(
                invalid,
                content[i]->ToolUse_id,
            ) implies where_now.contains(i) by {
            if i < n {
                assert(front[i] == content[i]);
                assert(at.contains(i));
                let k = choose|k: int| 0 <= k < at.len() && at[k] == i;
                assert(where_now[k] == i);
            } else {
                assert(where_now[at.len() as int] == i);
            }
        }
        assert(are_the_calls_of(now, content, invalid, where_now));
    }
}

/// How many of the blocks are tool calls.
pub open spec fn count_calls(content: Seq<BlockView>) -> nat
    decreases content.len(),
{
    if content.len() == 0 {
        0
    } else {
        count_calls(content.drop_first()) + if content[0] is ToolUse {
            1nat
        } else {
            0
        }
    }
}

/// How many of the blocks are tool calls that can be read.
pub open spec fn count_readable(content: Seq<BlockView>, invalid: Seq<InvalidView>) -> nat
    decreases content.len(),
{
    if content.len() == 0 {
        0
    } else {
        count_readable(content.drop_first(), invalid) + if content[0] is ToolUse && !is_unreadable(
            invalid,
            content[0]->ToolUse_id,
        ) {
            1nat
        } else {
            0
        }
    }
}

proof fn lemma_interleaved_in_place(
    content: Seq<BlockView>,
    invalid: Seq<InvalidView>,
    dispatched: Seq<BlockView>,
    i: int,
)
    requires
        dispatched.len() >= count_readable(content, invalid),
    ensures
        interleaved(content, invalid, dispatched).len() == count_calls(content) + dispatched.len()
            - count_readable(content, invalid),
        0 <= i < content.len() && content[i] is ToolUse ==> {
            let n = count_calls(content.take(i)) as int;
            let result = interleaved(content, invalid, dispatched)[n];
            &&& n < interleaved(content, invalid, dispatched).len()
            &&& if is_unreadable(invalid, content[i]->ToolUse_id) {
                result == failed_result(
                    content[i]->ToolUse_id,
                    complaint(invalid, content[i]->ToolUse_id)->0,
                )
            } else {
                &&& count_readable(content.take(i), invalid) < dispatched.len()
                &&& result == dispatched[count_readable(content.take(i), invalid) as int]
            }
        },
    decreases content.len(),
{
    if content.len() > 0 {
        let rest = content.drop_first();
        let whole = interleaved(content, invalid, dispatched);
        if content[0] is ToolUse {
            law_complaints_are_those_listed(invalid, content[0]->ToolUse_id);
        }
        let takes = content[0] is ToolUse && !is_unreadable(invalid, content[0]->ToolUse_id);
        let queue = if takes {
            dispatched.drop_first()
        } else {
            dispatched
        };
        lemma_interleaved_in_place(rest, invalid, queue, i - 1);
        let tail = interleaved(rest, invalid, queue);
        if content[0] is ToolUse {
            assert(whole.len() == tail.len() + 1);
            assert forall|k: int| 0 <= k < tail.len() implies whole[k + 1] == #[trigger] tail[k] by {}
        } else {
            assert(whole == tail);
        }
        if 0 <= i < content.len() && content[i] is ToolUse {
            if i == 0 {
                assert(content.take(0) =~= Seq::<BlockView>::empty());
            } else {
                assert(rest[i - 1] == content[i]);
                assert(content.take(i).drop_first() =~= rest.take(i - 1));
                assert(content.take(i)[0] == content[0]);
                let n = count_calls(rest.take(i - 1)) as int;
                assert(0 <= n < tail.len());
                if takes {
                    let m = count_readable(rest.take(i - 1), invalid) as int;
                    if !is_unreadable(invalid, content[i]->ToolUse_id) {
                        assert(queue[m] == dispatched[m + 1]);
                    }
                }
            }
        }
    }
}

proof fn lemma_all_readable(content: Seq<BlockView>)
    ensures
        count_readable(content, Seq::<InvalidView>::empty()) == count_calls(content),
    decreases content.len(),
{
    if content.len() > 0 {
        lemma_all_readable(content.drop_first());
    }
}

/// Each call of a response has its result at its own place among the results: the
/// result that the dispatcher gave for it, untouched, or, where the call could not
/// be read, an error that says why. What the dispatcher gave beyond the calls is
/// kept behind them.
pub proof fn law_each_result_stands_at_its_call(
    content: Seq<BlockView>,
    invalid: Seq<InvalidView>,
    dispatched: Seq<BlockView>,
    i: int,
)
    requires
        dispatched.len() >= count_readable(content, invalid),
        0 <= i < content.len(),
        content[i] is ToolUse,
    ensures
        ({
            let results = merged_results(content, invalid, dispatched);
            let n = count_calls(content.take(i)) as int;
            let id = content[i]->ToolUse_id;
            &&& results.len() == count_calls(content) + dispatched.len() - count_readable(
                content,
                invalid,
            )
            &&& 0 <= n < results.len()
            &&& if is_unreadable(invalid, id) {
                results[n] == (BlockView::ToolResult {
                    tool_use_id: id,
                    content: ResultView::Text(complaint(invalid, id)->0),
                    is_error: true,
                })
            } else {
                results[n] == dispatched[count_readable(content.take(i), invalid) as int]
            }
        }),
{
    lemma_interleaved_in_place(content, invalid, dispatched, i);
    if invalid.len() == 0 {
        assert(invalid =~= Seq::<InvalidView>::empty());
        lemma_all_readable(content);
        lemma_all_readable(content.take(i));
        assert(!is_unreadable(invalid, content[i]->ToolUse_id));
    }
}

/// What was said is the text of the text blocks, one after the other, and of no
/// other block.
pub proof fn law_only_text_is_spoken(a: Seq<BlockView>, b: Seq<BlockView>, block: BlockView)
    ensures
        spoken(a + b) == spoken(a) + spoken(b),
        spoken(Seq::<BlockView>::empty()).len() == 0,
        spoken(seq![block]) == (match block {
            BlockView::Text { text } => text,
            _ => Seq::<char>::empty(),
        }),
    decreases b.len(),
{
    reveal_with_fuel(spoken, 2);
    assert(seq![block].drop_last() =~= Seq::<BlockView>::empty());
    assert(seq![block].last() == block);
    assert(spoken(seq![block]) =~= match block {
        BlockView::Text { text } => text,
        _ => Seq::<char>::empty(),
    });
    if b.len() == 0 {
        assert(a + b =~= a);
        assert(spoken(a) + spoken(b) =~= spoken(a));
    } else {
        law_only_text_is_spoken(a, b.drop_last(), block);
        assert((a + b).drop_last() =~= a + b.drop_last());
        assert((a + b).last() == b.last());
        assert(spoken(a + b) =~= spoken(a) + spoken(b));
    }
}

/// A round's words are put behind what was produced before, a blank line between
/// them; a round without words leaves no trace.
pub proof fn law_rounds_are_kept_apart(produced: Seq<char>, words: Seq<char>)
    ensures
        ({
            let now = with_round(produced, words);
            let gap = if produced.len() > 0 {
                2int
            } else {
                0
            };
            if forall|i: int| 0 <= i < words.len() ==> text::white_space(#[trigger] words[i]) {
                now == produced
            } else {
                &&& now.len() == produced.len() + gap + words.len()
                &&& now.take(produced.len() as int) == produced
                &&& now.skip(produced.len() + gap) == words
                &&& forall|i: int|
                    produced.len() <= i < produced.len() + gap ==> #[trigger] now[i] == '\n'
            }
        }),
{
    reveal_strlit("\n\n");
    let now = with_round(produced, words);
    let gap = if produced.len() > 0 {
        2int
    } else {
        0
    };
    if !text::blank(words) {
        assert(now.take(produced.len() as int) =~= produced);
        assert(now.skip(produced.len() + gap) =~= words);
    }
}

/// Whether nothing is wrong with one block of a response: it is text or reasoning
/// that holds something, or a call with an id of its own, a name and an object
/// for input.
pub open spec fn block_is_sound(content: Seq<BlockView>, objects: Seq<bool>, i: int) -> bool {
    match content[i] {
        BlockView::Text { text } => text.len() > 0,
        BlockView::Thinking { thinking, signature } => thinking.len() > 0 || signature.len() > 0,
        BlockView::RedactedThinking { data } => data.len() > 0,
        BlockView::ToolUse { id, name, .. } => {
            &&& id.len() > 0
            &&& name.len() > 0
            &&& objects[i]
            &&& forall|k: int|
                0 <= k < i && (#[trigger] content[k]) is ToolUse ==> content[k]->ToolUse_id != id
        },
        BlockView::Image { .. } | BlockView::ToolResult { .. } => false,
    }
}

proof fn lemma_blocks_error(content: Seq<BlockView>, objects: Seq<bool>, n: nat)
    requires
        n <= content.len(),
    ensures
        blocks_error(content, objects, n) is None <==> forall|i: int|
            n <= i < content.len() ==> #[trigger] block_is_sound(content, objects, i),
        forall|i: int|
            n <= i < content.len() && !(#[trigger] block_is_sound(content, objects, i)) && (forall|
                k: int,
            |
                n <= k < i ==> #[trigger] block_is_sound(content, objects, k)) ==> blocks_error(
                content,
                objects,
                n,
            ) == block_error(content, i, objects[i]),
    decreases content.len() - n,
{
    if n < content.len() {
        lemma_blocks_error(content, objects, n + 1);
        let here = n as int;
        if content[here] is ToolUse {
            if id_repeats(content, here) {
                let k = choose|k: int|
                    0 <= k < here && (#[trigger] content[k]) is ToolUse && content[k]->ToolUse_id
                        == content[here]->ToolUse_id;
                assert(!block_is_sound(content, objects, here));
            }
        }
        assert(block_error(content, here, objects[here]) is None <==> block_is_sound(
            content,
            objects,
            here,
        ));
        if block_is_sound(content, objects, here) {
            assert forall|i: int|
                n <= i < content.len() && !(#[trigger] block_is_sound(content, objects, i)) && (
                forall|k: int|
                    n <= k < i ==> #[trigger] block_is_sound(
                        content,
                        objects,
                        k,
                    )) implies blocks_error(content, objects, n) == block_error(
                content,
                i,
                objects[i],
            ) by {
                assert(i > n);
            }
        }
    }
}

/// A response is accepted exactly where every block is sound and it asks for a
/// tool if, and only if, the provider says that it does.
pub proof fn law_a_response_is_accepted_when_sound(
    outcome: OutcomeKind,
    content: Seq<BlockView>,
    objects: Seq<bool>,
)
    ensures
        assistant_error(outcome, content, objects) is None <==> {
            &&& forall|i: int|
                0 <= i < content.len() ==> #[trigger] block_is_sound(content, objects, i)
            &&& outcome is ToolUse <==> exists|i: int|
                0 <= i < content.len() && (#[trigger] content[i]) is ToolUse
        },
{
    lemma_blocks_error(content, objects, 0);
}

/// The complaint about a response is about its first block that is not sound.
pub proof fn law_the_first_unsound_block_is_complained_of(
    outcome: OutcomeKind,
    content: Seq<BlockView>,
    objects: Seq<bool>,
    i: int,
)
    requires
        0 <= i < content.len(),
        !block_is_sound(content, objects, i),
        forall|k: int| 0 <= k < i ==> #[trigger] block_is_sound(content, objects, k),
    ensures
        assistant_error(outcome, content, objects) == Some(
            match content[i] {
                BlockView::Text { .. } => "provider returned an empty assistant text block"@,
                BlockView::Thinking { .. } => "provider returned an empty thinking block"@,
                BlockView::RedactedThinking { .. } =>
                    "provider returned an empty redacted thinking block"@,
                BlockView::ToolUse { id, name, .. } => if id.len() == 0 || name.len() == 0 {
                    "provider returned a tool call with an empty identity"@
                } else if !objects[i] {
                    "provider returned non-object input for tool "@ + name
                } else {
                    "provider returned duplicate tool call ids"@
                },
                BlockView::Image { .. } | BlockView::ToolResult { .. } =>
                    "provider returned a non-assistant output block"@,
            },
        ),
{
    lemma_blocks_error(content, objects, 0);
    assert(blocks_error(content, objects, 0) == block_error(content, i, objects[i]));
    if content[i] is ToolUse && !id_repeats(content, i) {
        let id = content[i]->ToolUse_id;
        assert forall|k: int| 0 <= k < i && (#[trigger] content[k]) is ToolUse implies
            content[k]->ToolUse_id != id by {}
    }
}

/// A call's input is looked at as what the model wrote: a block counts as an
/// object exactly where it is a call whose input is one.
pub proof fn law_inputs_are_looked_at(content: Seq<BlockView>, i: int)
    requires
        0 <= i < content.len(),
    ensures
        object_inputs(content).len() == content.len(),
        object_inputs(content)[i] <==> content[i] is ToolUse && json::object_form(
            content[i]->ToolUse_input,
        ),
{
}

/// A closing line says how the turn ended, and carries the error, in words and in
/// kind, exactly where it ended in one.
pub proof fn law_a_closing_line_says_why(reason: EndReasonView)
    ensures
        ({
            let line = terminal_of(reason);
            match reason {
                EndReasonView::Completed => line.status == "completed"@ && line.error is None
                    && line.typed_error is None,
                EndReasonView::MaxRounds => line.status == "max_rounds"@ && line.error is None
                    && line.typed_error is None,
                EndReasonView::Aborted => line.status == "aborted"@ && line.error is None
                    && line.typed_error is None,
                EndReasonView::Error(e) => line.status == "error"@ && line.typed_error == Some(e)
                    && line.error == Some(
                    match e {
                        TurnErrorView::Message(m) => m,
                        TurnErrorView::ProviderFailure { message, .. } => message,
                        TurnErrorView::ProviderOutcome(o) => outcome_text(o),
                    },
                ),
            }
        }),
{
}

proof fn lemma_leftovers_stay(
    content: Seq<BlockView>,
    invalid: Seq<InvalidView>,
    dispatched: Seq<BlockView>,
    j: int,
)
    requires
        count_readable(content, invalid) <= j < dispatched.len(),
    ensures
        ({
            let at = count_calls(content) + j - count_readable(content, invalid);
            &&& 0 <= at < interleaved(content, invalid, dispatched).len()
            &&& interleaved(content, invalid, dispatched)[at] == dispatched[j]
        }),
    decreases content.len(),
{
    lemma_interleaved_in_place(content, invalid, dispatched, 0);
    if content.len() > 0 {
        let rest = content.drop_first();
        if content[0] is ToolUse {
            law_complaints_are_those_listed(invalid, content[0]->ToolUse_id);
        }
        let takes = content[0] is ToolUse && !is_unreadable(invalid, content[0]->ToolUse_id);
        if takes {
            lemma_leftovers_stay(rest, invalid, dispatched.drop_first(), j - 1);
        } else {
            lemma_leftovers_stay(rest, invalid, dispatched, j);
        }
    }
}

/// What the dispatcher gave beyond the calls stays, in order, behind their results.
pub proof fn law_results_beyond_the_calls_stay(
    content: Seq<BlockView>,
    invalid: Seq<InvalidView>,
    dispatched: Seq<BlockView>,
    j: int,
)
    requires
        count_readable(content, invalid) <= j < dispatched.len(),
    ensures
        ({
            let at = count_calls(content) + j - count_readable(content, invalid);
            &&& 0 <= at < merged_results(content, invalid, dispatched).len()
            &&& merged_results(content, invalid, dispatched)[at] == dispatched[j]
        }),
{
    lemma_leftovers_stay(content, invalid, dispatched, j);
    if invalid.len() == 0 {
        assert(invalid =~= Seq::<InvalidView>::empty());
        lemma_all_readable(content);
    }
}

} // verus!

//! `/provider`: show or switch the session's provider, model and effort.

use vstd::prelude::*;

use crate::commands;
use crate::commands::RoutePickerStage;
use crate::commands::SlashResult;
use crate::history;
use crate::history::History;
use crate::history::RouteWrite;
use crate::history::Switching;
use crate::offload::Reply;
use crate::offload::Request;
use crate::offload::RequestView;
use crate::protocol;
use crate::protocol::ProviderApiFamily;
use crate::protocol::ReasoningContinuity;
use crate::protocol::ReasoningEffort;
use crate::request_view;
use crate::request_view::Origin;
use crate::routes::FrozenProviderRoute;
use crate::routes::ProviderSwitchError;
use crate::routes::RouteView;
use crate::routes::SwitchError;
use crate::text;

verus! {

pub const SUMMARY: &'static str = "show or switch the session provider, model and effort";

pub const USAGE: &'static str = "usage: /provider <provider> [model] [effort]";

/// One provider of the session's catalog; `availability` is the name of its
/// availability code.
#[derive(Debug, PartialEq, Eq)]
pub struct ProviderDescriptor {
    pub id: String,
    pub api_family: ProviderApiFamily,
    pub default_model: String,
    pub models: Vec<String>,
    pub availability: String,
}

/// The route a session is on, and the catalog a switch resolves against.
#[derive(Debug, PartialEq, Eq)]
pub struct RouteState {
    pub provider_id: String,
    pub model: String,
    pub revision: u64,
    pub effort: Option<ReasoningEffort>,
    /// The levels declared for the active model.
    pub declared_efforts: Option<Vec<ReasoningEffort>>,
    pub descriptors: Vec<ProviderDescriptor>,
}

/// What a switch does to the effort.
#[derive(Clone, Copy, Debug, PartialEq, Eq, Structural)]
pub enum EffortRequest {
    Inherit,
    Choose(Option<ReasoningEffort>),
}

/// A route decision: provider, model and effort together.
#[derive(Debug, PartialEq, Eq)]
pub struct SwitchRequest {
    pub provider_id: String,
    pub model: Option<String>,
    pub effort: EffortRequest,
}

#[verifier::ext_equal]
pub struct SwitchRequestView {
    pub provider_id: Seq<char>,
    pub model: Option<Seq<char>>,
    pub effort: EffortRequest,
}

impl View for SwitchRequest {
    type V = SwitchRequestView;

    open spec fn view(&self) -> SwitchRequestView {
        SwitchRequestView {
            provider_id: self.provider_id@,
            model: protocol::opt(self.model),
            effort: self.effort,
        }
    }
}

/// What a command line comes to: an answer, or a decision to apply.
#[derive(Debug, PartialEq, Eq)]
pub enum Step {
    Answer(SlashResult),
    Switch(SwitchRequest),
}

#[verifier::ext_equal]
pub enum StepView {
    Answer(commands::SlashView),
    Switch(SwitchRequestView),
}

impl View for Step {
    type V = StepView;

    open spec fn view(&self) -> StepView {
        match self {
            Step::Answer(r) => StepView::Answer(r@),
            Step::Switch(r) => StepView::Switch(r@),
        }
    }
}

// ---------------------------------------------------------------------------
// Reading the line
// ---------------------------------------------------------------------------

/// How a protocol family is listed.
pub open spec fn family_label(family: ProviderApiFamily) -> Seq<char> {
    match family {
        ProviderApiFamily::AnthropicMessages => "messages"@,
        ProviderApiFamily::OpenAiChatCompletions => "chat"@,
        ProviderApiFamily::OpenAiResponses => "responses"@,
        ProviderApiFamily::Mock => "mock"@,
    }
}

/// How a protocol family is listed.
pub fn api_family_label(family: ProviderApiFamily) -> (r: &'static str)
    ensures
        r@ == family_label(family),
{
    match family {
        ProviderApiFamily::AnthropicMessages => "messages",
        ProviderApiFamily::OpenAiChatCompletions => "chat",
        ProviderApiFamily::OpenAiResponses => "responses",
        ProviderApiFamily::Mock => "mock",
    }
}

/// What an unknown level is answered.
pub open spec fn unknown_effort(raw: Seq<char>) -> Seq<char> {
    "unknown effort '"@ + raw + "' (known: "@ + text::join(
        protocol::effort_names(protocol::all_efforts()),
        ", "@,
    ) + ")"@
}

/// One level as a command line spells it: `unset` sends no effort field.
pub open spec fn level(raw: Seq<char>) -> Result<Option<ReasoningEffort>, Seq<char>> {
    if text::lower(raw) == "unset"@ {
        Ok(None)
    } else {
        match protocol::effort_named(raw) {
            Some(effort) => Ok(Some(effort)),
            None => Err(unknown_effort(raw)),
        }
    }
}

/// One level as a command line spells it.
pub fn parse_level(raw: &str) -> (r: Result<Option<ReasoningEffort>, String>)
    ensures
        match r {
            Ok(choice) => level(raw@) == Ok::<Option<ReasoningEffort>, Seq<char>>(choice),
            Err(e) => level(raw@) == Err::<Option<ReasoningEffort>, Seq<char>>(e@),
        },
{
    let name = text::lowered(raw);
    if text::same(name.as_str(), "unset") {
        return Ok(None);
    }
    match ReasoningEffort::named(raw) {
        Some(effort) => Ok(Some(effort)),
        None => {
            let mut e = "unknown effort '".to_owned();
            e.append(raw);
            e.append("' (known: ");
            e.append(ReasoningEffort::join(&ReasoningEffort::all()).as_str());
            e.append(")");
            Err(e)
        },
    }
}

/// The line that names the active route.
pub open spec fn active_line(state: RouteState) -> Seq<char> {
    "active: "@ + state.provider_id@ + " "@ + state.model@ + " (revision "@ + text::decimal(
        state.revision as nat,
    ) + ")"@
}

/// The line that names the active route.
pub fn active_text(state: &RouteState) -> (r: String)
    ensures
        r@ == active_line(*state),
{
    let mut out = "active: ".to_owned();
    out.append(state.provider_id.as_str());
    out.append(" ");
    out.append(state.model.as_str());
    out.append(" (revision ");
    out.append(text::decimal_text(state.revision).as_str());
    out.append(")");
    out
}

/// How a provider is listed.
pub open spec fn descriptor_line(d: ProviderDescriptor) -> Seq<char> {
    "  "@ + d.id@ + " ["@ + family_label(d.api_family) + "] default="@ + d.default_model@
        + " models="@ + text::join(text::texts(d.models@), ","@) + " availability="@
        + d.availability@
}

fn descriptor_text(d: &ProviderDescriptor) -> (r: String)
    ensures
        r@ == descriptor_line(*d),
{
    let mut out = "  ".to_owned();
    out.append(d.id.as_str());
    out.append(" [");
    out.append(api_family_label(d.api_family));
    out.append("] default=");
    out.append(d.default_model.as_str());
    out.append(" models=");
    out.append(text::joined(&d.models, ",").as_str());
    out.append(" availability=");
    out.append(d.availability.as_str());
    out
}

/// How the catalog is listed.
pub open spec fn descriptor_lines(list: Seq<ProviderDescriptor>) -> Seq<Seq<char>> {
    list.map_values(|d: ProviderDescriptor| descriptor_line(d))
}

/// What `/provider` alone shows.
pub open spec fn overview(state: RouteState) -> Seq<char> {
    text::join(
        seq![active_line(state), "providers:"@] + descriptor_lines(state.descriptors@) + seq![
            USAGE@,
        ],
        "\n"@,
    )
}

fn overview_text(state: &RouteState) -> (r: String)
    ensures
        r@ == overview(*state),
{
    let mut lines: Vec<String> = Vec::new();
    text::push_text(&mut lines, active_text(state));
    text::push_text(&mut lines, "providers:".to_owned());
    let ghost head = seq![active_line(*state), "providers:"@];
    let ghost all = state.descriptors@;
    let mut i: usize = 0;
    proof {
        assert(text::texts(lines@) =~= head + descriptor_lines(all.take(0)));
    }
    while i < state.descriptors.len()
        invariant
            i <= state.descriptors@.len(),
            all == state.descriptors@,
            text::texts(lines@) == head + descriptor_lines(all.take(i as int)),
        decreases state.descriptors@.len() - i,
    {
        text::push_text(&mut lines, descriptor_text(&state.descriptors[i]));
        i += 1;
        proof {
            assert(text::texts(lines@) =~= head + descriptor_lines(all.take(i as int)));
        }
    }
    text::push_text(&mut lines, USAGE.to_owned());
    proof {
        assert(all.take(i as int) =~= all);
        assert(text::texts(lines@) =~= head + descriptor_lines(all) + seq![USAGE@]);
    }
    text::joined(&lines, "\n")
}

/// The effort that an optional word asks for.
pub open spec fn effort_word(word: Option<Seq<char>>) -> Result<EffortRequest, Seq<char>> {
    match word {
        None => Ok(EffortRequest::Inherit),
        Some(raw) => match level(raw) {
            Ok(choice) => Ok(EffortRequest::Choose(choice)),
            Err(e) => Err(e),
        },
    }
}

/// Word `i` of a line, where there is one.
pub open spec fn word_at(words: Seq<Seq<char>>, i: int) -> Option<Seq<char>> {
    if 0 <= i < words.len() {
        Some(words[i])
    } else {
        None
    }
}

/// The effort that word `i` asks for.
pub fn effort_at(words: &Vec<String>, i: usize) -> (r: Result<EffortRequest, String>)
    ensures
        match r {
            Ok(e) => effort_word(word_at(text::texts(words@), i as int)) == Ok::<
                EffortRequest,
                Seq<char>,
            >(e),
            Err(e) => effort_word(word_at(text::texts(words@), i as int)) == Err::<
                EffortRequest,
                Seq<char>,
            >(e@),
        },
{
    if i < words.len() {
        proof {
            assert(text::texts(words@)[i as int] == words@[i as int]@);
        }
        match parse_level(words[i].as_str()) {
            Ok(choice) => Ok(EffortRequest::Choose(choice)),
            Err(e) => Err(e),
        }
    } else {
        Ok(EffortRequest::Inherit)
    }
}

/// What a `/provider` line comes to.
pub open spec fn provider_step(args: Seq<char>, state: RouteState) -> StepView {
    let words = text::words(args);
    if words.len() == 0 {
        StepView::Answer(
            commands::shows_route(overview(state), false, Some(RoutePickerStage::Provider)),
        )
    } else {
        match effort_word(word_at(words, 2)) {
            Err(e) => StepView::Answer(commands::shows(e + "\n"@ + USAGE@)),
            Ok(effort) => if words.len() > 3 {
                StepView::Answer(commands::shows(USAGE@))
            } else {
                StepView::Switch(
                    SwitchRequestView { provider_id: words[0], model: word_at(words, 1), effort },
                )
            },
        }
    }
}

/// Reads a `/provider` line: alone it lists the catalog; with a provider, and
/// perhaps a model and an effort, it asks for a switch.
pub fn run(args: &str, state: &RouteState) -> (r: Step)
    ensures
        r@ == provider_step(args@, *state),
{
    let words = text::words_of(args);
    let ghost spoken = text::texts(words@);
    if words.len() == 0 {
        return Step::Answer(
            SlashResult::route(overview_text(state), false, Some(RoutePickerStage::Provider)),
        );
    }
    let effort = match effort_at(&words, 2) {
        Ok(effort) => effort,
        Err(mut e) => {
            e.append("\n");
            e.append(USAGE);
            return Step::Answer(SlashResult::message(e));
        },
    };
    if words.len() > 3 {
        return Step::Answer(SlashResult::message(USAGE.to_owned()));
    }
    proof {
        assert(spoken[0] == words@[0]@);
    }
    let model = if words.len() > 1 {
        proof {
            assert(spoken[1] == words@[1]@);
        }
        Some(words[1].clone())
    } else {
        None
    };
    Step::Switch(SwitchRequest { provider_id: words[0].clone(), model, effort })
}

// ---------------------------------------------------------------------------
// Applying a decision
// ---------------------------------------------------------------------------

/// What the catalog says of a switch's target: the model it lands on (nothing
/// for an unknown provider), whether the provider takes the thinking field, and
/// the levels declared for that model.
#[derive(Debug, PartialEq, Eq)]
pub struct TargetFacts {
    pub model: Option<String>,
    pub sends_thinking: bool,
    pub declared_efforts: Option<Vec<ReasoningEffort>>,
}

/// Why an effort is refused on a target. A declared list is the whole list; a
/// model that declares none accepts anything.
pub open spec fn effort_refusal(
    provider_id: Seq<char>,
    effort: EffortRequest,
    facts: TargetFacts,
) -> Option<Seq<char>> {
    match effort {
        EffortRequest::Choose(Some(wanted)) => match facts.model {
            None => Some("unknown provider '"@ + provider_id + "'"@),
            Some(target) => if wanted == ReasoningEffort::Disabled && !facts.sends_thinking {
                Some(
                    "provider '"@ + provider_id
                        + "' omits the thinking request field (thinking_param = false), so 'none' cannot be expressed there"@,
                )
            } else {
                match facts.declared_efforts {
                    Some(declared) if !declared@.contains(wanted) => Some(
                        "'"@ + protocol::effort_name(wanted)
                            + "' is not among the efforts declared for model '"@ + target@ + "' ("@
                            + text::join(protocol::effort_names(declared@), ", "@) + ")"@,
                    ),
                    _ => None,
                }
            },
        },
        _ => None,
    }
}

fn holds_effort(list: &Vec<ReasoningEffort>, wanted: ReasoningEffort) -> (r: bool)
    ensures
        r == list@.contains(wanted),
{
    let mut i: usize = 0;
    while i < list.len()
        invariant
            i <= list@.len(),
            forall|k: int| 0 <= k < i ==> list@[k] != wanted,
        decreases list@.len() - i,
    {
        if list[i] == wanted {
            return true;
        }
        i += 1;
    }
    false
}

/// Whether an effort can be set on a target; the error says why not.
pub fn check_effort(provider_id: &str, effort: EffortRequest, facts: &TargetFacts) -> (r: Result<
    (),
    String,
>)
    ensures
        match r {
            Ok(()) => effort_refusal(provider_id@, effort, *facts) is None,
            Err(e) => effort_refusal(provider_id@, effort, *facts) == Some(e@),
        },
{
    let wanted = match effort {
        EffortRequest::Choose(Some(wanted)) => wanted,
        _ => {
            return Ok(());
        },
    };
    let target = match &facts.model {
        Some(target) => target,
        None => {
            let mut e = "unknown provider '".to_owned();
            e.append(provider_id);
            e.append("'");
            return Err(e);
        },
    };
    if wanted == ReasoningEffort::Disabled && !facts.sends_thinking {
        let mut e = "provider '".to_owned();
        e.append(provider_id);
        e.append(
            "' omits the thinking request field (thinking_param = false), so 'none' cannot be expressed there",
        );
        return Err(e);
    }
    if let Some(declared) = &facts.declared_efforts {
        if !holds_effort(declared, wanted) {
            let mut e = "'".to_owned();
            e.append(wanted.as_str());
            e.append("' is not among the efforts declared for model '");
            e.append(target.as_str());
            e.append("' (");
            e.append(ReasoningEffort::join(declared).as_str());
            e.append(")");
            return Err(e);
        }
    }
    Ok(())
}

/// What the catalog makes of a decision: a refusal, the route the session is
/// already on, or the route to move to.
#[derive(Debug, PartialEq, Eq)]
pub enum Resolution {
    Refused(SwitchError),
    Unchanged(FrozenProviderRoute),
    Moves { previous: FrozenProviderRoute, next: FrozenProviderRoute },
}

/// What a switch comes to.
#[derive(Debug, PartialEq, Eq)]
pub enum SwitchOutcome {
    NoOp(FrozenProviderRoute),
    Changed { route: FrozenProviderRoute, continuity: ReasoningContinuity },
}

/// Applying a decision: waiting for a write, the timeline was opened and the
/// decision is to be applied again, done, or refused.
#[derive(Debug, PartialEq, Eq)]
pub enum Applying {
    Needs(Request),
    Opened,
    Done(SwitchOutcome),
    Failed(String),
}

#[verifier::ext_equal]
pub enum ApplyRun {
    Needs(RequestView),
    Opened(history::HistoryView),
    Unchanged(RouteView),
    Changed(history::HistoryView, RouteView, ReasoningContinuity),
    Failed(Seq<char>),
}

/// What a switch error reads as.
pub open spec fn switch_reason(e: history::SwitchErrorView) -> Seq<char> {
    match e {
        history::SwitchErrorView::RevisionExhausted => "provider route revision is exhausted"@,
        history::SwitchErrorView::Refused(why) => why,
        history::SwitchErrorView::History(message) => message,
        history::SwitchErrorView::Persistence(error) => "provider route persistence failed: "@
            + error,
    }
}

/// Applying a decision: the effort is checked first; a session that has no
/// route yet opens its timeline on `opening`; then the resolved switch is
/// committed as one revision.
pub open spec fn applied(
    h: history::HistoryView,
    opening: RouteView,
    request: SwitchRequestView,
    facts: TargetFacts,
    resolution: Resolution,
    origins: Seq<Origin>,
    replies: Seq<Reply>,
) -> ApplyRun {
    match effort_refusal(request.provider_id, request.effort, facts) {
        Some(e) => ApplyRun::Failed(e),
        None => if h.timeline.len() == 0 {
            match history::opened(h, opening, replies) {
                history::RouteRun::Needs(r) => ApplyRun::Needs(r),
                history::RouteRun::Failed(e) => ApplyRun::Failed(e),
                history::RouteRun::Done(now, _) => ApplyRun::Opened(now),
            }
        } else {
            match resolution {
                Resolution::Refused(e) => ApplyRun::Failed(
                    switch_reason(history::switch_error(ProviderSwitchError::Route(e))),
                ),
                Resolution::Unchanged(route) => ApplyRun::Unchanged(route@),
                Resolution::Moves { previous, next } => match history::switched(
                    h,
                    previous@,
                    next@,
                    origins,
                    replies,
                ) {
                    history::SwitchRun::Needs(r) => ApplyRun::Needs(r),
                    history::SwitchRun::Failed(e) => ApplyRun::Failed(switch_reason(e)),
                    history::SwitchRun::Done(now, c) => ApplyRun::Changed(
                        now,
                        RouteView { continuity: c, ..next@ },
                        c,
                    ),
                },
            }
        },
    }
}

/// What applying a decision returned, and left behind.
pub open spec fn apply_wrote(
    before: history::HistoryView,
    run: ApplyRun,
    now: history::HistoryView,
    result: Applying,
) -> bool {
    match run {
        ApplyRun::Needs(view) => now == before && (result matches Applying::Needs(r) && r@ == view),
        ApplyRun::Opened(h) => now == h && result is Opened,
        ApplyRun::Unchanged(route) => now == before && (result matches Applying::Done(
            SwitchOutcome::NoOp(r),
        ) && r@ == route),
        ApplyRun::Changed(h, route, c) => now == h && (result matches Applying::Done(
            SwitchOutcome::Changed { route: r, continuity },
        ) && r@ == route && continuity == c),
        ApplyRun::Failed(e) => now == before && (result matches Applying::Failed(why) && why@
            == e),
    }
}

/// Applies one route decision: provider, model and effort together, as a single
/// revision. A refusal is the bare reason.
pub fn apply(
    history: &mut History,
    opening: &FrozenProviderRoute,
    request: &SwitchRequest,
    facts: &TargetFacts,
    resolution: &Resolution,
    origins: &Vec<Origin>,
    replies: &Vec<Reply>,
) -> (r: Applying)
    requires
        request_view::origins_fit(
            origins@,
            old(history)@.items.len(),
            old(history)@.timeline.len() + 1,
        ),
    ensures
        apply_wrote(
            old(history)@,
            applied(old(history)@, opening@, request@, *facts, *resolution, origins@, replies@),
            final(history)@,
            r,
        ),
{
    if let Err(e) = check_effort(request.provider_id.as_str(), request.effort, facts) {
        return Applying::Failed(e);
    }
    if !history.has_provider_route() {
        return match history.ensure_initial_provider_route(opening, replies) {
            RouteWrite::Needs(r) => Applying::Needs(r),
            RouteWrite::Failed(e) => Applying::Failed(e),
            RouteWrite::Done(_) => Applying::Opened,
        };
    }
    match resolution {
        Resolution::Refused(e) => Applying::Failed(
            ProviderSwitchError::Route(copy_switch_error(e)).describe(),
        ),
        Resolution::Unchanged(route) => Applying::Done(SwitchOutcome::NoOp(route.clone())),
        Resolution::Moves { previous, next } => match history.switch_provider(
            previous,
            next,
            origins,
            replies,
        ) {
            Switching::Needs(r) => Applying::Needs(r),
            Switching::Failed(e) => Applying::Failed(e.describe()),
            Switching::Done(continuity) => {
                let mut route = next.clone();
                route.continuity = continuity;
                Applying::Done(SwitchOutcome::Changed { route, continuity })
            },
        },
    }
}

fn copy_switch_error(e: &SwitchError) -> (r: SwitchError)
    ensures
        history::switch_error(ProviderSwitchError::Route(r)) == history::switch_error(
            ProviderSwitchError::Route(*e),
        ),
{
    match e {
        SwitchError::RevisionExhausted => SwitchError::RevisionExhausted,
        SwitchError::Refused(why) => SwitchError::Refused(why.clone()),
    }
}

// ---------------------------------------------------------------------------
// Reporting
// ---------------------------------------------------------------------------

/// How a continuity is named.
pub open spec fn continuity_name(c: ReasoningContinuity) -> Seq<char> {
    match c {
        ReasoningContinuity::Preserved => "Preserved"@,
        ReasoningContinuity::Filtered => "Filtered"@,
    }
}

/// How a continuity is named.
pub fn continuity_str(c: ReasoningContinuity) -> (r: &'static str)
    ensures
        r@ == continuity_name(c),
{
    match c {
        ReasoningContinuity::Preserved => "Preserved",
        ReasoningContinuity::Filtered => "Filtered",
    }
}

/// What a `/provider` switch is answered.
pub open spec fn provider_report(outcome: Result<SwitchOutcome, String>) -> commands::SlashView {
    match outcome {
        Ok(SwitchOutcome::NoOp(route)) => commands::shows_route(
            "provider unchanged: "@ + route.provider_id@ + " "@ + route.model@ + " (revision "@
                + text::decimal(route.revision as nat) + ")"@,
            false,
            None,
        ),
        Ok(SwitchOutcome::Changed { route, continuity }) => commands::shows_route(
            "provider switched: "@ + route.provider_id@ + " "@ + route.model@ + " (revision "@
                + text::decimal(route.revision as nat) + ", reasoning continuity: "@
                + continuity_name(continuity) + ", effort: "@ + protocol::choice_name(route.effort)
                + ")"@,
            true,
            None,
        ),
        Err(reason) => commands::shows("provider switch failed: "@ + reason@),
    }
}

/// What a `/provider` switch is answered.
pub fn report(outcome: &Result<SwitchOutcome, String>) -> (r: SlashResult)
    ensures
        r@ == provider_report(*outcome),
{
    match outcome {
        Ok(SwitchOutcome::NoOp(route)) => {
            let mut out = "provider unchanged: ".to_owned();
            out.append(route.provider_id.as_str());
            out.append(" ");
            out.append(route.model.as_str());
            out.append(" (revision ");
            out.append(text::decimal_text(route.revision).as_str());
            out.append(")");
            SlashResult::route(out, false, None)
        },
        Ok(SwitchOutcome::Changed { route, continuity }) => {
            let mut out = "provider switched: ".to_owned();
            out.append(route.provider_id.as_str());
            out.append(" ");
            out.append(route.model.as_str());
            out.append(" (revision ");
            out.append(text::decimal_text(route.revision).as_str());
            out.append(", reasoning continuity: ");
            out.append(continuity_str(*continuity));
            out.append(", effort: ");
            out.append(ReasoningEffort::choice_str(route.effort));
            out.append(")");
            SlashResult::route(out, true, None)
        },
        Err(reason) => {
            let mut out = "provider switch failed: ".to_owned();
            out.append(reason.as_str());
            SlashResult::message(out)
        },
    }
}

/// A decision that is refused leaves the session as it was, and a decision adds
/// at most one revision.
pub proof fn law_one_decision_is_one_revision(
    h: history::HistoryView,
    opening: RouteView,
    request: SwitchRequestView,
    facts: TargetFacts,
    resolution: Resolution,
    origins: Seq<Origin>,
    replies: Seq<Reply>,
    now: history::HistoryView,
    result: Applying,
)
    requires
        apply_wrote(
            h,
            applied(h, opening, request, facts, resolution, origins, replies),
            now,
            result,
        ),
    ensures
        result is Failed || result is Needs ==> now == h,
        result matches Applying::Done(SwitchOutcome::NoOp(_)) ==> now == h,
        result is Opened ==> now.timeline.len() == 1 && h.timeline.len() == 0,
        result matches Applying::Done(SwitchOutcome::Changed { .. }) ==> now.timeline.len()
            == h.timeline.len() + 1 && now.timeline.drop_last() == h.timeline,
{
    let run = applied(h, opening, request, facts, resolution, origins, replies);
    if run is Changed {
        assert(now.timeline.drop_last() =~= h.timeline);
    }
}

/// A word is an effort where it is the name of one, or says, in any case, that none is to
/// be sent.
pub proof fn law_what_is_an_effort(raw: Seq<char>)
    ensures
        text::lower(raw) == "unset"@ ==> level(raw) == Ok::<
            Option<ReasoningEffort>,
            Seq<char>,
        >(None),
        text::lower(raw) != "unset"@ && protocol::effort_named(raw) is Some ==> level(raw) == Ok::<
            Option<ReasoningEffort>,
            Seq<char>,
        >(protocol::effort_named(raw)),
        text::lower(raw) != "unset"@ && protocol::effort_named(raw) is None ==> level(raw) is Err
            && text::starts_with(level(raw)->Err_0, "unknown effort '"@ + raw + "' (known: "@),
{
    let want = "unknown effort '"@ + raw + "' (known: "@;
    let whole = unknown_effort(raw);
    assert(whole.take(want.len() as int) =~= want);
}

/// Without a word the providers are shown, for one to be picked. One to three words are a
/// provider, a model and an effort: what is not said is left to the provider and to what
/// was chosen before. Anything else changes nothing.
pub proof fn law_the_words_of_a_switch(args: Seq<char>, state: RouteState)
    ensures
        ({
            let words = text::words(args);
            let step = provider_step(args, state);
            &&& words.len() == 0 ==> step is Answer && !step->Answer_0.route_changed
                && step->Answer_0.open_provider_picker == Some(RoutePickerStage::Provider)
            &&& words.len() == 1 ==> step == StepView::Switch(
                SwitchRequestView {
                    provider_id: words[0],
                    model: None,
                    effort: EffortRequest::Inherit,
                },
            )
            &&& words.len() == 2 ==> step == StepView::Switch(
                SwitchRequestView {
                    provider_id: words[0],
                    model: Some(words[1]),
                    effort: EffortRequest::Inherit,
                },
            )
            &&& words.len() == 3 && level(words[2]) is Ok ==> step == StepView::Switch(
                SwitchRequestView {
                    provider_id: words[0],
                    model: Some(words[1]),
                    effort: EffortRequest::Choose(level(words[2])->Ok_0),
                },
            )
            &&& words.len() == 3 && level(words[2]) is Err ==> step is Answer
            &&& words.len() > 3 ==> step is Answer
        }),
{
}

/// An effort is refused exactly where one is asked for and the target is unknown, cannot
/// say that thinking is off, or declares its efforts and this is not among them.
pub proof fn law_when_an_effort_is_refused(
    provider_id: Seq<char>,
    effort: EffortRequest,
    facts: TargetFacts,
)
    ensures
        effort_refusal(provider_id, effort, facts) is Some <==> {
            &&& effort is Choose
            &&& effort->Choose_0 is Some
            &&& {
                ||| facts.model is None
                ||| effort->Choose_0 == Some(ReasoningEffort::Disabled) && !facts.sends_thinking
                ||| facts.declared_efforts is Some && !facts.declared_efforts->0@.contains(
                    effort->Choose_0->0,
                )
            }
        },
{
}

/// A decision is carried out in order: an effort that is refused stops it first. A session
/// without a route is opened before it is switched. Then a target that the catalog refuses
/// fails, the place that is active stays, and any other is switched to.
pub proof fn law_how_a_decision_is_carried_out(
    h: history::HistoryView,
    opening: RouteView,
    request: SwitchRequestView,
    facts: TargetFacts,
    resolution: Resolution,
    origins: Seq<Origin>,
    replies: Seq<Reply>,
)
    ensures
        ({
            let run = applied(h, opening, request, facts, resolution, origins, replies);
            let refusal = effort_refusal(request.provider_id, request.effort, facts);
            &&& refusal matches Some(why) ==> run == ApplyRun::Failed(why)
            &&& refusal is None && h.timeline.len() == 0 ==> match history::opened(
                h,
                opening,
                replies,
            ) {
                history::RouteRun::Needs(r) => run == ApplyRun::Needs(r),
                history::RouteRun::Failed(e) => run == ApplyRun::Failed(e),
                history::RouteRun::Done(now, _) => run == ApplyRun::Opened(now),
            }
            &&& refusal is None && h.timeline.len() > 0 ==> match resolution {
                Resolution::Refused(SwitchError::RevisionExhausted) => run == ApplyRun::Failed(
                    "provider route revision is exhausted"@,
                ),
                Resolution::Refused(SwitchError::Refused(why)) => run == ApplyRun::Failed(why@),
                Resolution::Unchanged(route) => run == ApplyRun::Unchanged(route@),
                Resolution::Moves { previous, next } => match history::switched(
                    h,
                    previous@,
                    next@,
                    origins,
                    replies,
                ) {
                    history::SwitchRun::Needs(r) => run == ApplyRun::Needs(r),
                    history::SwitchRun::Failed(_) => run is Failed,
                    history::SwitchRun::Done(now, c) => run matches ApplyRun::Changed(
                        after,
                        route,
                        said,
                    ) && after == now && said == c && route.continuity == c && route.revision
                        == next@.revision && route.provider_id == next@.provider_id && route.model
                        == next@.model && route.effort == next@.effort && route.api_family
                        == next@.api_family && route.endpoint_fingerprint
                        == next@.endpoint_fingerprint,
                },
            }
        }),
{
}

/// A report says that the route changed exactly where it did, and why it did not where
/// it failed.
pub proof fn law_a_report_says_what_happened(outcome: Result<SwitchOutcome, String>)
    ensures
        provider_report(outcome).route_changed <==> outcome is Ok && outcome->Ok_0 is Changed,
        provider_report(outcome).open_provider_picker is None,
        outcome matches Err(reason) ==> provider_report(outcome).output
            == "provider switch failed: "@ + reason@,
        outcome matches Ok(SwitchOutcome::NoOp(route)) ==> provider_report(outcome).output
            == "provider unchanged: "@ + route.provider_id@ + " "@ + route.model@ + " (revision "@
            + text::decimal(route.revision as nat) + ")"@,
        outcome matches Ok(SwitchOutcome::Changed { route, continuity }) ==> text::starts_with(
            provider_report(outcome).output,
            "provider switched: "@ + route.provider_id@ + " "@ + route.model@ + " (revision "@
                + text::decimal(route.revision as nat) + ", reasoning continuity: "@ + (
            match continuity {
                ReasoningContinuity::Preserved => "Preserved"@,
                ReasoningContinuity::Filtered => "Filtered"@,
            }),
        ),
{
    if let Ok(SwitchOutcome::Changed { route, continuity }) = outcome {
        let want = "provider switched: "@ + route.provider_id@ + " "@ + route.model@
            + " (revision "@ + text::decimal(route.revision as nat)
            + ", reasoning continuity: "@ + (match continuity {
            ReasoningContinuity::Preserved => "Preserved"@,
            ReasoningContinuity::Filtered => "Filtered"@,
        });
        assert(provider_report(outcome).output.take(want.len() as int) =~= want);
    }
}

/// The overview shows what is active and a line for each provider of the catalog, in its
/// order.
pub proof fn law_each_provider_has_its_line(list: Seq<ProviderDescriptor>, i: int)
    requires
        0 <= i < list.len(),
    ensures
        descriptor_lines(list).len() == list.len(),
        descriptor_lines(list)[i] == "  "@ + list[i].id@ + " ["@ + (match list[i].api_family {
            ProviderApiFamily::AnthropicMessages => "messages"@,
            ProviderApiFamily::OpenAiChatCompletions => "chat"@,
            ProviderApiFamily::OpenAiResponses => "responses"@,
            ProviderApiFamily::Mock => "mock"@,
        }) + "] default="@ + list[i].default_model@ + " models="@ + text::join(
            text::texts(list[i].models@),
            ","@,
        ) + " availability="@ + list[i].availability@,
{
}

/// The overview begins with what is active and ends with how the command is used.
pub proof fn law_the_overview_begins_with_what_is_active(state: RouteState)
    ensures
        text::starts_with(
            overview(state),
            "active: "@ + state.provider_id@ + " "@ + state.model@ + " (revision "@
                + text::decimal(state.revision as nat) + ")"@ + "\n"@ + "providers:"@,
        ),
{
    let list = descriptor_lines(state.descriptors@);
    let head = seq![active_line(state), "providers:"@];
    let all = head + list + seq![USAGE@];
    lemma_join_begins(head, list + seq![USAGE@], "\n"@);
    assert(all =~= head + (list + seq![USAGE@]));
    assert(head.drop_last() =~= seq![active_line(state)]);
    reveal_with_fuel(text::join, 2);
    assert(text::join(head, "\n"@) =~= active_line(state) + "\n"@ + "providers:"@);
}

proof fn lemma_join_begins(a: Seq<Seq<char>>, b: Seq<Seq<char>>, sep: Seq<char>)
    requires
        a.len() > 0,
    ensures
        text::starts_with(text::join(a + b, sep), text::join(a, sep)),
    decreases b.len(),
{
    let head = text::join(a, sep);
    if b.len() == 0 {
        assert(a + b =~= a);
        assert(head.take(head.len() as int) =~= head);
    } else {
        lemma_join_begins(a, b.drop_last(), sep);
        assert((a + b).drop_last() =~= a + b.drop_last());
        let shorter = text::join(a + b.drop_last(), sep);
        let whole = text::join(a + b, sep);
        assert(whole == shorter + sep + b.last());
        assert(whole.take(head.len() as int) =~= shorter.take(head.len() as int));
    }
}

} // verus!

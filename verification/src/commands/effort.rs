//! `/effort`: show or set the session's reasoning effort.

use vstd::prelude::*;

use crate::commands;
use crate::commands::provider;
use crate::commands::provider::EffortRequest;
use crate::commands::provider::RouteState;
use crate::commands::provider::Step;
use crate::commands::provider::StepView;
use crate::commands::provider::SwitchOutcome;
use crate::commands::provider::SwitchRequest;
use crate::commands::provider::SwitchRequestView;
use crate::commands::SlashResult;
use crate::protocol;
use crate::protocol::ReasoningEffort;
use crate::text;

verus! {

pub const SUMMARY: &'static str = "show or set the session reasoning effort";

pub const USAGE: &'static str =
    "usage: /effort <level> | /effort unset (send no effort field at all)";

/// The line that names the effort in force.
pub open spec fn status(effort: Option<ReasoningEffort>, provider_id: Seq<char>) -> Seq<char> {
    match effort {
        Some(e) => "effort: "@ + protocol::effort_name(e) + " (provider "@ + provider_id + ")"@,
        None =>
            "effort: unset — no effort field is sent, the provider's own default applies (provider "@
            + provider_id + ")"@,
    }
}

/// The line that names the effort in force.
pub fn status_line(state: &RouteState) -> (r: String)
    ensures
        r@ == status(state.effort, state.provider_id@),
{
    match state.effort {
        Some(e) => {
            let mut out = "effort: ".to_owned();
            out.append(e.as_str());
            out.append(" (provider ");
            out.append(state.provider_id.as_str());
            out.append(")");
            out
        },
        None => {
            let mut out =
                "effort: unset — no effort field is sent, the provider's own default applies (provider ".to_owned();
            out.append(state.provider_id.as_str());
            out.append(")");
            out
        },
    }
}

/// The line that lists the levels: a declared list is the whole list.
pub open spec fn levels(declared: Option<Vec<ReasoningEffort>>, model: Seq<char>) -> Seq<char> {
    match declared {
        Some(list) => "levels: "@ + text::join(protocol::effort_names(list@), ", "@)
            + " — declared by model '"@ + model + "'"@,
        None => "levels: "@ + text::join(
            protocol::effort_names(protocol::all_efforts()),
            ", "@,
        ) + " — a model accepts its own subset and names it if you miss"@,
    }
}

/// The line that lists the levels.
pub fn levels_line(state: &RouteState) -> (r: String)
    ensures
        r@ == levels(state.declared_efforts, state.model@),
{
    let mut out = "levels: ".to_owned();
    match &state.declared_efforts {
        Some(list) => {
            out.append(ReasoningEffort::join(list).as_str());
            out.append(" — declared by model '");
            out.append(state.model.as_str());
            out.append("'");
        },
        None => {
            out.append(ReasoningEffort::join(&ReasoningEffort::all()).as_str());
            out.append(" — a model accepts its own subset and names it if you miss");
        },
    }
    out
}

/// What an `/effort` line comes to.
pub open spec fn effort_step(args: Seq<char>, state: RouteState) -> StepView {
    let words = text::words(args);
    if words.len() == 0 {
        StepView::Answer(
            commands::shows(
                status(state.effort, state.provider_id@) + "\n"@ + levels(
                    state.declared_efforts,
                    state.model@,
                ) + "\n"@ + USAGE@,
            ),
        )
    } else if words.len() > 1 {
        StepView::Answer(commands::shows(USAGE@))
    } else {
        match provider::level(words[0]) {
            Err(e) => StepView::Answer(commands::shows(e + "\n"@ + USAGE@)),
            Ok(choice) => StepView::Switch(
                SwitchRequestView {
                    provider_id: state.provider_id@,
                    model: Some(state.model@),
                    effort: EffortRequest::Choose(choice),
                },
            ),
        }
    }
}

/// Reads an `/effort` line: alone it shows the effort and the levels; with a
/// level it asks for a switch to the route the session is on, at that effort.
pub fn run(args: &str, state: &RouteState) -> (r: Step)
    ensures
        r@ == effort_step(args@, *state),
{
    let words = text::words_of(args);
    let ghost spoken = text::texts(words@);
    if words.len() == 0 {
        let mut out = status_line(state);
        out.append("\n");
        out.append(levels_line(state).as_str());
        out.append("\n");
        out.append(USAGE);
        return Step::Answer(SlashResult::message(out));
    }
    if words.len() > 1 {
        return Step::Answer(SlashResult::message(USAGE.to_owned()));
    }
    proof {
        assert(spoken[0] == words@[0]@);
    }
    match provider::parse_level(words[0].as_str()) {
        Err(mut e) => {
            e.append("\n");
            e.append(USAGE);
            Step::Answer(SlashResult::message(e))
        },
        Ok(choice) => Step::Switch(
            SwitchRequest {
                provider_id: state.provider_id.clone(),
                model: Some(state.model.clone()),
                effort: EffortRequest::Choose(choice),
            },
        ),
    }
}

/// What an `/effort` change is answered, on the state after it.
pub open spec fn effort_report(
    outcome: Result<SwitchOutcome, String>,
    state: RouteState,
) -> commands::SlashView {
    match outcome {
        Ok(SwitchOutcome::NoOp(_)) => commands::shows(
            status(state.effort, state.provider_id@) + "\n"@ + USAGE@,
        ),
        Ok(SwitchOutcome::Changed { .. }) => commands::shows_route(
            status(state.effort, state.provider_id@),
            true,
            None,
        ),
        Err(reason) => commands::shows("effort not changed: "@ + reason@),
    }
}

/// What an `/effort` change is answered, on the state after it.
pub fn report(outcome: &Result<SwitchOutcome, String>, state: &RouteState) -> (r: SlashResult)
    ensures
        r@ == effort_report(*outcome, *state),
{
    match outcome {
        Ok(SwitchOutcome::NoOp(_)) => {
            let mut out = status_line(state);
            out.append("\n");
            out.append(USAGE);
            SlashResult::message(out)
        },
        Ok(SwitchOutcome::Changed { .. }) => SlashResult::route(status_line(state), true, None),
        Err(reason) => {
            let mut out = "effort not changed: ".to_owned();
            out.append(reason.as_str());
            SlashResult::message(out)
        },
    }
}

// ---------------------------------------------------------------------------
// Laws
// ---------------------------------------------------------------------------

/// Without a word the effort is shown; with one it is changed, on the provider and model
/// that are active; with more, or with a word that is no effort, nothing is changed.
pub proof fn law_one_word_changes_the_effort(args: Seq<char>, state: RouteState)
    ensures
        ({
            let words = text::words(args);
            let step = effort_step(args, state);
            &&& words.len() != 1 ==> step is Answer
            &&& words.len() == 1 && provider::level(words[0]) is Err ==> step is Answer
            &&& words.len() == 1 && provider::level(words[0]) is Ok ==> step == StepView::Switch(
                SwitchRequestView {
                    provider_id: state.provider_id@,
                    model: Some(state.model@),
                    effort: EffortRequest::Choose(provider::level(words[0])->Ok_0),
                },
            )
            &&& step matches StepView::Answer(shown) ==> !shown.route_changed
                && shown.open_provider_picker is None
        }),
{
}

/// A report says that the route changed exactly where it did, and why it did not where
/// it failed.
pub proof fn law_a_report_says_what_happened(
    outcome: Result<SwitchOutcome, String>,
    state: RouteState,
)
    ensures
        effort_report(outcome, state).route_changed <==> outcome is Ok && outcome->Ok_0 is Changed,
        outcome matches Err(reason) ==> effort_report(outcome, state).output
            == "effort not changed: "@ + reason@,
        outcome is Ok && state.effort is Some ==> text::starts_with(
            effort_report(outcome, state).output,
            "effort: "@ + protocol::effort_name(state.effort->0),
        ),
{
    if outcome is Ok && state.effort is Some {
        let want = "effort: "@ + protocol::effort_name(state.effort->0);
        let shown = effort_report(outcome, state).output;
        assert(shown.take(want.len() as int) =~= want);
    }
}

/// The levels that are listed are those that the model declares, or all there are where
/// it declares none.
pub proof fn law_which_levels_are_listed(declared: Option<Vec<ReasoningEffort>>, model: Seq<char>)
    ensures
        ({
            let list = match declared {
                Some(list) => list@,
                None => protocol::all_efforts(),
            };
            let head = "levels: "@ + text::join(protocol::effort_names(list), ", "@);
            text::starts_with(levels(declared, model), head)
        }),
{
    let list = match declared {
        Some(list) => list@,
        None => protocol::all_efforts(),
    };
    let head = "levels: "@ + text::join(protocol::effort_names(list), ", "@);
    assert(levels(declared, model).take(head.len() as int) =~= head);
}

} // verus!

//! `/model`: show or switch the model on the current provider.

use vstd::prelude::*;

use crate::commands;
use crate::commands::provider;
use crate::commands::provider::ProviderDescriptor;
use crate::commands::provider::RouteState;
use crate::commands::provider::Step;
use crate::commands::provider::StepView;
use crate::commands::provider::SwitchOutcome;
use crate::commands::provider::SwitchRequest;
use crate::commands::provider::SwitchRequestView;
use crate::commands::RoutePickerStage;
use crate::commands::SlashResult;
use crate::protocol;
use crate::protocol::ReasoningEffort;
use crate::text;

verus! {

pub const SUMMARY: &'static str = "show or switch the model on the current provider";

pub const USAGE: &'static str = "usage: /model <model> [effort]";

/// The first descriptor of a provider.
pub open spec fn descriptor_of(list: Seq<ProviderDescriptor>, id: Seq<char>, from: int) -> Option<
    ProviderDescriptor,
>
    decreases list.len() - from,
{
    if from < 0 || from >= list.len() {
        None
    } else if list[from].id@ == id {
        Some(list[from])
    } else {
        descriptor_of(list, id, from + 1)
    }
}

/// How a model is listed.
pub open spec fn model_row(model: Seq<char>, default_model: Seq<char>) -> Seq<char> {
    if model == default_model {
        "  "@ + model + " (default)"@
    } else {
        "  "@ + model
    }
}

/// How the models of a provider are listed.
pub open spec fn model_rows(models: Seq<Seq<char>>, default_model: Seq<char>) -> Seq<Seq<char>> {
    models.map_values(|m: Seq<char>| model_row(m, default_model))
}

/// What `/model` alone shows.
pub open spec fn overview(state: RouteState) -> Seq<char> {
    let middle = match descriptor_of(state.descriptors@, state.provider_id@, 0) {
        Some(d) => seq!["models on provider '"@ + d.id@ + "':"@] + model_rows(
            text::texts(d.models@),
            d.default_model@,
        ),
        None => seq!["provider '"@ + state.provider_id@ + "' is no longer in the catalog"@],
    };
    text::join(seq![provider::active_line(state)] + middle + seq![USAGE@], "\n"@)
}

fn find_descriptor<'a>(state: &'a RouteState) -> (r: Option<&'a ProviderDescriptor>)
    ensures
        match r {
            Some(d) => descriptor_of(state.descriptors@, state.provider_id@, 0) == Some(*d),
            None => descriptor_of(state.descriptors@, state.provider_id@, 0) is None,
        },
{
    let mut i: usize = 0;
    while i < state.descriptors.len()
        invariant
            i <= state.descriptors@.len(),
            descriptor_of(state.descriptors@, state.provider_id@, 0) == descriptor_of(
                state.descriptors@,
                state.provider_id@,
                i as int,
            ),
        decreases state.descriptors@.len() - i,
    {
        if text::same(state.descriptors[i].id.as_str(), state.provider_id.as_str()) {
            return Some(&state.descriptors[i]);
        }
        i += 1;
    }
    None
}

fn overview_text(state: &RouteState) -> (r: String)
    ensures
        r@ == overview(*state),
{
    let mut lines: Vec<String> = Vec::new();
    text::push_text(&mut lines, provider::active_text(state));
    let ghost head = seq![provider::active_line(*state)];
    proof {
        assert(text::texts(lines@) =~= head);
    }
    match find_descriptor(state) {
        Some(d) => {
            let mut title = "models on provider '".to_owned();
            title.append(d.id.as_str());
            title.append("':");
            let ghost all = text::texts(d.models@);
            let ghost start = head.push(title@);
            text::push_text(&mut lines, title);
            let mut i: usize = 0;
            proof {
                assert(text::texts(lines@) =~= start + model_rows(all.take(0), d.default_model@));
            }
            while i < d.models.len()
                invariant
                    i <= d.models@.len(),
                    all == text::texts(d.models@),
                    text::texts(lines@) == start + model_rows(
                        all.take(i as int),
                        d.default_model@,
                    ),
                decreases d.models@.len() - i,
            {
                let mut row = "  ".to_owned();
                row.append(d.models[i].as_str());
                if text::same(d.models[i].as_str(), d.default_model.as_str()) {
                    row.append(" (default)");
                }
                text::push_text(&mut lines, row);
                i += 1;
                proof {
                    assert(text::texts(lines@) =~= start + model_rows(
                        all.take(i as int),
                        d.default_model@,
                    ));
                }
            }
            proof {
                assert(all.take(i as int) =~= all);
                assert(text::texts(lines@).push(USAGE@) =~= head + (seq![
                    "models on provider '"@ + d.id@ + "':"@,
                ] + model_rows(all, d.default_model@)) + seq![USAGE@]);
            }
        },
        None => {
            let mut line = "provider '".to_owned();
            line.append(state.provider_id.as_str());
            line.append("' is no longer in the catalog");
            text::push_text(&mut lines, line);
            proof {
                assert(text::texts(lines@).push(USAGE@) =~= head + seq![
                    "provider '"@ + state.provider_id@ + "' is no longer in the catalog"@,
                ] + seq![USAGE@]);
            }
        },
    }
    text::push_text(&mut lines, USAGE.to_owned());
    text::joined(&lines, "\n")
}

/// What a `/model` line comes to.
pub open spec fn model_step(args: Seq<char>, state: RouteState) -> StepView {
    let words = text::words(args);
    if words.len() == 0 {
        StepView::Answer(
            commands::shows_route(overview(state), false, Some(RoutePickerStage::Model)),
        )
    } else {
        match provider::effort_word(provider::word_at(words, 1)) {
            Err(e) => StepView::Answer(commands::shows(e + "\n"@ + USAGE@)),
            Ok(effort) => if words.len() > 2 {
                StepView::Answer(commands::shows(USAGE@))
            } else {
                StepView::Switch(
                    SwitchRequestView {
                        provider_id: state.provider_id@,
                        model: Some(words[0]),
                        effort,
                    },
                )
            },
        }
    }
}

/// Reads a `/model` line: alone it lists the models of the current provider;
/// with a model, and perhaps an effort, it asks for a switch.
pub fn run(args: &str, state: &RouteState) -> (r: Step)
    ensures
        r@ == model_step(args@, *state),
{
    let words = text::words_of(args);
    let ghost spoken = text::texts(words@);
    if words.len() == 0 {
        return Step::Answer(
            SlashResult::route(overview_text(state), false, Some(RoutePickerStage::Model)),
        );
    }
    let effort = match provider::effort_at(&words, 1) {
        Ok(effort) => effort,
        Err(mut e) => {
            e.append("\n");
            e.append(USAGE);
            return Step::Answer(SlashResult::message(e));
        },
    };
    if words.len() > 2 {
        return Step::Answer(SlashResult::message(USAGE.to_owned()));
    }
    proof {
        assert(spoken[0] == words@[0]@);
    }
    Step::Switch(
        SwitchRequest {
            provider_id: state.provider_id.clone(),
            model: Some(words[0].clone()),
            effort,
        },
    )
}

/// What a `/model` switch is answered.
pub open spec fn model_report(outcome: Result<SwitchOutcome, String>) -> commands::SlashView {
    match outcome {
        Ok(SwitchOutcome::NoOp(route)) => commands::shows_route(
            "model unchanged: "@ + route.model@ + " (provider "@ + route.provider_id@
                + ", revision "@ + text::decimal(route.revision as nat) + ")"@,
            false,
            None,
        ),
        Ok(SwitchOutcome::Changed { route, continuity }) => commands::shows_route(
            "model switched: "@ + route.model@ + " (provider "@ + route.provider_id@
                + ", revision "@ + text::decimal(route.revision as nat)
                + ", reasoning continuity: "@ + provider::continuity_name(continuity)
                + ", effort: "@ + protocol::choice_name(route.effort) + ")"@,
            true,
            None,
        ),
        Err(reason) => commands::shows("model switch failed: "@ + reason@),
    }
}

/// What a `/model` switch is answered.
pub fn report(outcome: &Result<SwitchOutcome, String>) -> (r: SlashResult)
    ensures
        r@ == model_report(*outcome),
{
    match outcome {
        Ok(SwitchOutcome::NoOp(route)) => {
            let mut out = "model unchanged: ".to_owned();
            out.append(route.model.as_str());
            out.append(" (provider ");
            out.append(route.provider_id.as_str());
            out.append(", revision ");
            out.append(text::decimal_text(route.revision).as_str());
            out.append(")");
            SlashResult::route(out, false, None)
        },
        Ok(SwitchOutcome::Changed { route, continuity }) => {
            let mut out = "model switched: ".to_owned();
            out.append(route.model.as_str());
            out.append(" (provider ");
            out.append(route.provider_id.as_str());
            out.append(", revision ");
            out.append(text::decimal_text(route.revision).as_str());
            out.append(", reasoning continuity: ");
            out.append(provider::continuity_str(*continuity));
            out.append(", effort: ");
            out.append(ReasoningEffort::choice_str(route.effort));
            out.append(")");
            SlashResult::route(out, true, None)
        },
        Err(reason) => {
            let mut out = "model switch failed: ".to_owned();
            out.append(reason.as_str());
            SlashResult::message(out)
        },
    }
}

// ---------------------------------------------------------------------------
// Laws
// ---------------------------------------------------------------------------

/// Without a word the models are shown, for one to be picked; one or two words switch to
/// a model on the active provider, with an effort where there is a second; anything else
/// changes nothing.
pub proof fn law_a_model_is_switched_on_its_provider(args: Seq<char>, state: RouteState)
    ensures
        ({
            let words = text::words(args);
            let step = model_step(args, state);
            &&& words.len() == 0 ==> step is Answer && !step->Answer_0.route_changed
                && step->Answer_0.open_provider_picker == Some(RoutePickerStage::Model)
            &&& words.len() == 1 ==> step == StepView::Switch(
                SwitchRequestView {
                    provider_id: state.provider_id@,
                    model: Some(words[0]),
                    effort: provider::EffortRequest::Inherit,
                },
            )
            &&& words.len() == 2 && provider::level(words[1]) is Ok ==> step == StepView::Switch(
                SwitchRequestView {
                    provider_id: state.provider_id@,
                    model: Some(words[0]),
                    effort: provider::EffortRequest::Choose(provider::level(words[1])->Ok_0),
                },
            )
            &&& words.len() == 2 && provider::level(words[1]) is Err ==> step is Answer
            &&& words.len() > 2 ==> step is Answer
        }),
{
}

/// The descriptor of a provider is the first with its id; there is none where no
/// provider of the catalog has it.
pub proof fn law_a_provider_is_found_by_its_id(
    list: Seq<ProviderDescriptor>,
    id: Seq<char>,
    from: int,
    i: int,
)
    requires
        0 <= from <= i <= list.len(),
        forall|k: int| from <= k < i ==> (#[trigger] list[k]).id@ != id,
    ensures
        i == list.len() ==> descriptor_of(list, id, from) is None,
        i < list.len() && list[i].id@ == id ==> descriptor_of(list, id, from) == Some(list[i]),
    decreases i - from,
{
    if from < i {
        assert(list[from].id@ != id);
        law_a_provider_is_found_by_its_id(list, id, from + 1, i);
    }
}

/// Each model of the provider has its row, and the default one is marked.
pub proof fn law_each_model_has_its_row(models: Seq<Seq<char>>, default_model: Seq<char>, i: int)
    requires
        0 <= i < models.len(),
    ensures
        model_rows(models, default_model).len() == models.len(),
        models[i] == default_model ==> model_rows(models, default_model)[i] == "  "@ + models[i]
            + " (default)"@,
        models[i] != default_model ==> model_rows(models, default_model)[i] == "  "@ + models[i],
{
}

/// A report says that the route changed exactly where it did, and why it did not where
/// it failed.
pub proof fn law_a_report_says_what_happened(outcome: Result<SwitchOutcome, String>)
    ensures
        model_report(outcome).route_changed <==> outcome is Ok && outcome->Ok_0 is Changed,
        model_report(outcome).open_provider_picker is None,
        outcome matches Err(reason) ==> model_report(outcome).output == "model switch failed: "@
            + reason@,
        outcome matches Ok(SwitchOutcome::NoOp(route)) ==> model_report(outcome).output
            == "model unchanged: "@ + route.model@ + " (provider "@ + route.provider_id@
            + ", revision "@ + text::decimal(route.revision as nat) + ")"@,
        outcome matches Ok(SwitchOutcome::Changed { route, continuity }) ==> text::starts_with(
            model_report(outcome).output,
            "model switched: "@ + route.model@ + " (provider "@ + route.provider_id@
                + ", revision "@ + text::decimal(route.revision as nat)
                + ", reasoning continuity: "@ + (match continuity {
                protocol::ReasoningContinuity::Preserved => "Preserved"@,
                protocol::ReasoningContinuity::Filtered => "Filtered"@,
            }),
        ),
{
    if let Ok(SwitchOutcome::Changed { route, continuity }) = outcome {
        let want = "model switched: "@ + route.model@ + " (provider "@ + route.provider_id@
            + ", revision "@ + text::decimal(route.revision as nat) + ", reasoning continuity: "@ + (
        match continuity {
            protocol::ReasoningContinuity::Preserved => "Preserved"@,
            protocol::ReasoningContinuity::Filtered => "Filtered"@,
        });
        assert(model_report(outcome).output.take(want.len() as int) =~= want);
    }
}

/// The overview shows what is active, the models of its provider, each in its row, or that
/// the provider is gone, and how the command is used.
pub proof fn law_the_overview_lists_the_models(state: RouteState)
    ensures
        ({
            let found = descriptor_of(state.descriptors@, state.provider_id@, 0);
            let middle = match found {
                Some(d) => seq!["models on provider '"@ + d.id@ + "':"@] + model_rows(
                    text::texts(d.models@),
                    d.default_model@,
                ),
                None => seq!["provider '"@ + state.provider_id@ + "' is no longer in the catalog"@],
            };
            let active = "active: "@ + state.provider_id@ + " "@ + state.model@ + " (revision "@
                + text::decimal(state.revision as nat) + ")"@;
            overview(state) == text::join(
                seq![active] + middle + seq!["usage: /model <model> [effort]"@],
                "\n"@,
            )
        }),
{
}

} // verus!

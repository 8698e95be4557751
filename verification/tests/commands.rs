use kloop_core::agent::Usage;
use kloop_core::commands::builtins;
use kloop_core::commands::HostSummaries;
use kloop_core::commands::clear;
use kloop_core::commands::cost;
use kloop_core::commands::cost::ContextUse;
use kloop_core::commands::effort;
use kloop_core::commands::exit;
use kloop_core::commands::is_command;
use kloop_core::commands::lookup;
use kloop_core::commands::model;
use kloop_core::commands::provider;
use kloop_core::commands::provider::Applying;
use kloop_core::commands::provider::EffortRequest;
use kloop_core::commands::provider::ProviderDescriptor;
use kloop_core::commands::provider::Resolution;
use kloop_core::commands::provider::RouteState;
use kloop_core::commands::provider::Step;
use kloop_core::commands::provider::SwitchOutcome;
use kloop_core::commands::provider::SwitchRequest;
use kloop_core::commands::provider::TargetFacts;
use kloop_core::commands::skill_result;
use kloop_core::commands::split_line;
use kloop_core::commands::unknown;
use kloop_core::commands::Called;
use kloop_core::commands::RoutePickerStage;
use kloop_core::commands::SlashResult;
use kloop_core::commands::TaskGraphSnapshot;
use kloop_core::history::History;
use kloop_core::protocol::ProviderApiFamily;
use kloop_core::protocol::ReasoningContinuity;
use kloop_core::protocol::ReasoningEffort;
use kloop_core::routes::FrozenProviderRoute;
use kloop_core::routes::SwitchError;
use kloop_core::usage;
use kloop_core::usage::ProviderUsageRecord;
use kloop_core::usage::UsageOperation;

fn message(text: &str) -> SlashResult {
    SlashResult::message(text.to_string())
}

#[test]
fn exit_signals_quit() {
    let result = exit::run();
    assert!(result.quit);
    assert_eq!(result.output, "bye");
    assert!(!result.new_session);
    assert_eq!(result.run_turn, None);
}

#[test]
fn is_command_detects_slash_lines_only() {
    assert!(is_command("/help"));
    assert!(is_command("/help me"));
    assert!(is_command("/usr/bin"));
    assert!(!is_command("/"));
    assert!(!is_command("/ spaced"));
    assert!(!is_command("hello"));
    assert!(!is_command("  /help"));
}

#[test]
fn clear_asks_for_a_new_session() {
    let result = clear::run();
    assert!(result.new_session);
    assert_eq!(result.output, "");
    assert!(!result.quit && !result.cleared);
    assert_eq!(
        clear::fresh_session_id("", "20260101-000000".into()),
        String::new()
    );
    assert_eq!(clear::fresh_session_id("/s", "id".into()), "id");
}

#[test]
fn a_retired_session_is_reported_line_by_line() {
    assert_eq!(clear::retirement_report(0, 0, None), Vec::<String>::new());
    assert_eq!(
        clear::retirement_report(1, 0, None),
        ["stopped 1 background task(s)"]
    );
    assert_eq!(
        clear::retirement_report(12, 3, Some("worktree kept".into())),
        [
            "stopped 12 background task(s)",
            "3 background task(s) missed the shutdown deadline",
            "worktree kept"
        ]
    );
}

#[test]
fn results_say_what_the_front_end_has_to_do() {
    let graph = TaskGraphSnapshot {
        revision: 2,
        tasks: Vec::new(),
    };
    let cleared = SlashResult::cleared_message("conversation cleared".into(), graph);
    assert!(cleared.cleared);
    assert_eq!(cleared.task_graph.unwrap().revision, 2);
    let turn = SlashResult::turn("Say hi to world.".into());
    assert_eq!(turn.output, "");
    assert_eq!(turn.run_turn.as_deref(), Some("Say hi to world."));
}

#[test]
fn lines_split_into_a_name_and_trimmed_arguments() {
    let split = |line: &str| split_line(line);
    assert_eq!(split("/help"), ("help".into(), "".into()));
    assert_eq!(
        split("/provider  wide  m1 "),
        ("provider".into(), "wide  m1".into())
    );
    assert_eq!(split("/greet\tworld"), ("greet".into(), "world".into()));
    assert_eq!(split("plain words"), ("plain".into(), "words".into()));
    assert_eq!(split("/x "), ("x".into(), "".into()));
}

#[test]
fn every_builtin_has_its_command() {
    let host = HostSummaries {
        help: "help summary",
        compact: "compact summary",
        repeat: "loop summary",
        skills: "skills summary",
    };
    let rows = builtins(host);
    let names: Vec<&str> = rows.iter().map(|b| b.name).collect();
    assert_eq!(rows[0].summary, "help summary");
    assert_eq!(rows[4].summary, "compact summary");
    assert_eq!(rows[6].summary, "loop summary");
    assert_eq!(rows[7].summary, "skills summary");
    assert_eq!(
        names,
        ["help", "provider", "effort", "cost", "compact", "clear", "loop", "skills", "exit"]
    );
    for name in names {
        assert_ne!(lookup(name), Called::Other, "{name}");
    }
    assert_eq!(lookup("exit"), Called::Exit);
    assert_eq!(lookup("Exit"), Called::Other);
    assert_eq!(lookup("model"), Called::Other);
}

#[test]
fn unknown_command_lists_the_available_ones() {
    let (name, _) = split_line("/frobnicate now");
    assert_eq!(
        unknown(&name, &Vec::new()),
        message(
            "unknown command '/frobnicate' (available: /help, /provider, /effort, /cost, /compact, /clear, /loop, /skills, /exit)"
        )
    );
}

#[test]
fn skill_slash_expands_body_as_a_turn_and_appears_in_unknown_list() {
    assert_eq!(
        skill_result("greet", Ok("Say hi to world.".into())),
        SlashResult::turn("Say hi to world.".into())
    );
    assert_eq!(
        skill_result("danger", Err("blocked".into())),
        message("/danger: blocked")
    );
    assert_eq!(
        unknown("nope", &vec!["greet".to_string()]),
        message(
            "unknown command '/nope' (available: /help, /provider, /effort, /cost, /compact, /clear, /loop, /skills, /exit, /greet)"
        )
    );
}

// --- usage and cost -------------------------------------------------------

fn context(used: u64, window: Option<u64>) -> ContextUse {
    ContextUse {
        provider_id: "test".into(),
        model: "test-model".into(),
        revision: 1,
        used,
        window: window.map(|w| (w, (used as f64 / w as f64 * 100.0).round() as u64)),
    }
}

fn record(model: &str, usage: Usage) -> ProviderUsageRecord {
    ProviderUsageRecord {
        provider_id: "test".into(),
        api_family: ProviderApiFamily::Mock,
        route_revision: 1,
        model: model.into(),
        operation: UsageOperation::Sampling,
        usage,
    }
}

fn usage_of(input: u64, output: u64, read: u64, create: u64) -> Usage {
    Usage {
        input_tokens: input,
        output_tokens: output,
        cache_read_input_tokens: read,
        cache_creation_input_tokens: create,
    }
}

fn hit_percent(records: &Vec<ProviderUsageRecord>) -> u64 {
    match usage::aggregate(records) {
        Ok(Some(a)) if a.usage.prompt_tokens() > 0 => (a.usage.cache_read_input_tokens as f64
            / a.usage.prompt_tokens() as f64
            * 100.0)
            .round() as u64,
        _ => 0,
    }
}

fn cost_of(context: &ContextUse, records: &Vec<ProviderUsageRecord>) -> String {
    cost::run(context, records, hit_percent(records)).output
}

#[test]
fn cost_reports_context_against_the_window() {
    assert_eq!(
        cost::run(&context(20_000, Some(200_000)), &Vec::new(), 0),
        message(
            "provider: test\nmodel: test-model\nroute revision: 1\ncontext: ~20000 / 200000 tokens (10%)\nprovider-reported usage by provider/model: unavailable"
        )
    );
}

#[test]
fn cost_notes_when_the_window_is_off() {
    assert!(cost_of(&context(0, None), &Vec::new()).contains("window limit off"));
}

#[test]
fn cost_distinguishes_unavailable_reported_zero_and_multiple_models() {
    let here = context(0, Some(200_000));
    let mut records = Vec::new();
    assert!(cost_of(&here, &records)
        .ends_with("provider-reported usage by provider/model: unavailable"));
    records.push(record("primary", usage_of(0, 0, 0, 0)));
    assert_eq!(
        cost_of(&here, &records),
        "provider: test\nmodel: test-model\nroute revision: 1\ncontext: ~0 / 200000 tokens (0%)\nprovider-reported usage by provider/model: \n  test/primary [Mock]: input=0 output=0 cache-read=0 cache-create=0 responses=1\ncache hit: 0 of 0 prompt tokens (n/a)"
    );
    records.push(record("fallback", usage_of(10, 20, 30, 40)));
    let output = cost_of(&here, &records);
    assert_eq!(
        output,
        "provider: test\nmodel: test-model\nroute revision: 1\ncontext: ~0 / 200000 tokens (0%)\nprovider-reported usage by provider/model: \n  test/primary [Mock]: input=0 output=0 cache-read=0 cache-create=0 responses=1\n  test/fallback [Mock]: input=10 output=20 cache-read=30 cache-create=40 responses=1\ncache hit: 30 of 80 prompt tokens (38%)"
    );
    for forbidden in [
        "$", "currency", "price", "quota", "budget", "coverage", "total",
    ] {
        assert!(
            !output.contains(forbidden),
            "unexpected {forbidden}: {output}"
        );
    }
}

#[test]
fn cost_cache_hit_counts_cache_creation_as_a_miss() {
    let here = context(0, Some(200_000));
    let hit = |output: &str| output.lines().last().unwrap().to_string();
    let mut records = vec![record("primary", usage_of(25, 1_000, 75, 0))];
    assert_eq!(
        hit(&cost_of(&here, &records)),
        "cache hit: 75 of 100 prompt tokens (75%)"
    );
    records.push(record("primary", usage_of(0, 0, 0, 100)));
    assert_eq!(
        hit(&cost_of(&here, &records)),
        "cache hit: 75 of 200 prompt tokens (38%)"
    );
}

#[test]
fn a_ledger_groups_by_first_use_and_says_when_it_overflows() {
    let records = vec![
        record("b", usage_of(1, 2, 3, 4)),
        record("a", usage_of(5, 0, 0, 0)),
        record("b", usage_of(10, 20, 30, 40)),
    ];
    let groups = usage::grouped(&records).unwrap();
    let names: Vec<&str> = groups.iter().map(|g| g.model.as_str()).collect();
    assert_eq!(names, ["b", "a"]);
    assert_eq!(groups[0].aggregate.usage, usage_of(11, 22, 33, 44));
    assert_eq!(groups[0].aggregate.reported_responses, 2);
    assert_eq!(usage::aggregate(&Vec::new()), Ok(None));

    let records = vec![
        record("m", usage_of(u64::MAX, 0, 0, 0)),
        record("m", usage_of(1, 0, 0, 0)),
    ];
    assert_eq!(usage::grouped(&records), Err(usage::UsageOverflow));
    assert_eq!(usage::aggregate(&records), Err(usage::UsageOverflow));
    assert!(cost_of(&context(0, None), &records).ends_with("unavailable (provider usage overflow)"));

    // Each group fits, the whole does not.
    let records = vec![
        record("m", usage_of(u64::MAX, 0, 0, 0)),
        record("n", usage_of(1, 0, 0, 0)),
    ];
    assert!(cost_of(&context(0, None), &records)
        .ends_with("\ncache hit: unavailable (provider usage overflow)"));
    assert_eq!(usage_of(u64::MAX, 0, 7, 0).prompt_tokens(), u64::MAX);
}

// --- routes ---------------------------------------------------------------

fn frozen(model: &str, revision: u64, effort: Option<ReasoningEffort>) -> FrozenProviderRoute {
    FrozenProviderRoute {
        revision,
        provider_id: "responses".into(),
        api_family: ProviderApiFamily::OpenAiResponses,
        endpoint_fingerprint: "responses:test".into(),
        model: model.into(),
        effort,
        continuity: ReasoningContinuity::Preserved,
    }
}

struct Session {
    history: History,
    route: FrozenProviderRoute,
    opening: FrozenProviderRoute,
}

impl Session {
    fn new() -> Self {
        Session {
            history: History::new(),
            route: frozen("m1", 1, None),
            opening: frozen("m1", 1, None),
        }
    }

    fn state(&self) -> RouteState {
        RouteState {
            provider_id: self.route.provider_id.clone(),
            model: self.route.model.clone(),
            revision: self.route.revision,
            effort: self.route.effort,
            declared_efforts: None,
            descriptors: vec![ProviderDescriptor {
                id: "responses".into(),
                api_family: ProviderApiFamily::OpenAiResponses,
                default_model: "m1".into(),
                models: vec!["m1".into(), "m2".into()],
                availability: "Ready".into(),
            }],
        }
    }

    /// What the catalog of one provider makes of a request.
    fn resolve(&self, request: &SwitchRequest) -> Resolution {
        let model = request.model.clone().unwrap_or("m1".into());
        let effort = match request.effort {
            EffortRequest::Inherit => self.route.effort,
            EffortRequest::Choose(choice) => choice,
        };
        if model == self.route.model && effort == self.route.effort {
            return Resolution::Unchanged(self.route.clone());
        }
        Resolution::Moves {
            previous: self.route.clone(),
            next: frozen(&model, self.route.revision + 1, effort),
        }
    }

    fn apply(&mut self, request: &SwitchRequest) -> Result<SwitchOutcome, String> {
        let facts = TargetFacts {
            model: Some(request.model.clone().unwrap_or("m1".into())),
            sends_thinking: true,
            declared_efforts: None,
        };
        let resolution = self.resolve(request);
        loop {
            match provider::apply(
                &mut self.history,
                &self.opening,
                request,
                &facts,
                &resolution,
                &Vec::new(),
                &Vec::new(),
            ) {
                Applying::Opened => continue,
                Applying::Needs(_) => panic!("a history in memory writes nothing"),
                Applying::Failed(e) => return Err(e),
                Applying::Done(outcome) => {
                    if let SwitchOutcome::Changed { route, .. } = &outcome {
                        self.route = route.clone();
                    }
                    return Ok(outcome);
                }
            }
        }
    }

    fn effort(&mut self, line: &str) -> SlashResult {
        let (name, args) = split_line(line);
        assert_eq!(name, "effort");
        match effort::run(&args, &self.state()) {
            Step::Answer(result) => result,
            Step::Switch(request) => {
                let outcome = self.apply(&request);
                effort::report(&outcome, &self.state())
            }
        }
    }
}

#[test]
fn effort_changes_land_on_the_route_timeline() {
    let mut session = Session::new();
    assert!(!session.history.has_provider_route());
    session.effort("/effort high");
    session.effort("/effort low");
    session.effort("/effort low");
    session.effort("/effort unset");
    let timeline: Vec<(u64, Option<ReasoningEffort>)> = session
        .history
        .provider_routes()
        .iter()
        .map(|receipt| (receipt.route_revision, receipt.effort))
        .collect();
    assert_eq!(
        timeline,
        vec![
            (1, None),
            (2, Some(ReasoningEffort::High)),
            (3, Some(ReasoningEffort::Low)),
            (4, None),
        ]
    );
}

#[test]
fn effort_shows_sets_and_clears_the_session_knob() {
    let mut session = Session::new();
    assert_eq!(
        session.effort("/effort"),
        message(
            "effort: unset — no effort field is sent, the provider's own default applies \
             (provider responses)\n\
             levels: none, low, medium, high, xhigh, max — a model accepts its own subset \
             and names it if you miss\n\
             usage: /effort <level> | /effort unset (send no effort field at all)"
        )
    );
    assert_eq!(
        session.effort("/effort Medium"),
        SlashResult::route("effort: medium (provider responses)".into(), true, None)
    );
    assert_eq!(session.route.effort, Some(ReasoningEffort::Medium));
    assert!(!session.effort("/effort medium").route_changed);
    assert!(session.effort("/effort xhigh").route_changed);
    assert_eq!(session.route.effort, Some(ReasoningEffort::XHigh));
    assert_eq!(
        session.effort("/effort hgih"),
        message(
            "unknown effort 'hgih' (known: none, low, medium, high, xhigh, max)\n\
             usage: /effort <level> | /effort unset (send no effort field at all)"
        )
    );
    assert_eq!(session.route.effort, Some(ReasoningEffort::XHigh));
    assert!(session.effort("/effort none").route_changed);
    assert_eq!(session.route.effort, Some(ReasoningEffort::Disabled));
    assert!(session.effort("/effort unset").route_changed);
    assert_eq!(session.route.effort, None);
    assert_eq!(
        session.effort("/effort high low"),
        message("usage: /effort <level> | /effort unset (send no effort field at all)")
    );
}

#[test]
fn a_declared_list_of_levels_is_the_whole_list() {
    let session = Session::new();
    let mut state = session.state();
    state.declared_efforts = Some(vec![ReasoningEffort::Low, ReasoningEffort::High]);
    assert_eq!(
        effort::levels_line(&state),
        "levels: low, high — declared by model 'm1'"
    );
    let mut facts = TargetFacts {
        model: Some("m1".into()),
        sends_thinking: true,
        declared_efforts: state.declared_efforts,
    };
    let set = |level| EffortRequest::Choose(Some(level));
    assert_eq!(
        provider::check_effort("p", set(ReasoningEffort::Low), &facts),
        Ok(())
    );
    assert_eq!(
        provider::check_effort("p", set(ReasoningEffort::Max), &facts).unwrap_err(),
        "'max' is not among the efforts declared for model 'm1' (low, high)"
    );
    facts.sends_thinking = false;
    assert_eq!(
        provider::check_effort("p", set(ReasoningEffort::Disabled), &facts).unwrap_err(),
        "provider 'p' omits the thinking request field (thinking_param = false), so 'none' cannot be expressed there"
    );
    facts.model = None;
    assert_eq!(
        provider::check_effort("p", set(ReasoningEffort::Low), &facts).unwrap_err(),
        "unknown provider 'p'"
    );
    assert_eq!(
        provider::check_effort("p", EffortRequest::Choose(None), &facts),
        Ok(())
    );
    assert_eq!(
        provider::check_effort("p", EffortRequest::Inherit, &facts),
        Ok(())
    );
}

#[test]
fn provider_lists_the_catalog_or_asks_for_a_switch() {
    let session = Session::new();
    let state = session.state();
    let Step::Answer(shown) = provider::run("", &state) else {
        panic!("nothing to switch to");
    };
    assert_eq!(
        shown,
        SlashResult::route(
            "active: responses m1 (revision 1)\nproviders:\n  responses [responses] default=m1 models=m1,m2 availability=Ready\nusage: /provider <provider> [model] [effort]".into(),
            false,
            Some(RoutePickerStage::Provider),
        )
    );
    assert_eq!(
        provider::run("wide m2 HIGH", &state),
        Step::Switch(SwitchRequest {
            provider_id: "wide".into(),
            model: Some("m2".into()),
            effort: EffortRequest::Choose(Some(ReasoningEffort::High)),
        })
    );
    assert_eq!(
        provider::run("wide", &state),
        Step::Switch(SwitchRequest {
            provider_id: "wide".into(),
            model: None,
            effort: EffortRequest::Inherit,
        })
    );
    assert_eq!(
        provider::run("a b unset d", &state),
        Step::Answer(message("usage: /provider <provider> [model] [effort]"))
    );
    assert_eq!(
        provider::run("a b loud d", &state),
        Step::Answer(message(
            "unknown effort 'loud' (known: none, low, medium, high, xhigh, max)\nusage: /provider <provider> [model] [effort]"
        ))
    );
    let changed = Ok(SwitchOutcome::Changed {
        route: frozen("m2", 2, Some(ReasoningEffort::Low)),
        continuity: ReasoningContinuity::Filtered,
    });
    assert_eq!(
        provider::report(&changed),
        SlashResult::route(
            "provider switched: responses m2 (revision 2, reasoning continuity: Filtered, effort: low)".into(),
            true,
            None,
        )
    );
    let same = Ok(SwitchOutcome::NoOp(frozen("m1", 1, None)));
    assert_eq!(
        provider::report(&same).output,
        "provider unchanged: responses m1 (revision 1)"
    );
    assert_eq!(
        provider::report(&Err("no".into())),
        message("provider switch failed: no")
    );
}

#[test]
fn model_lists_the_models_or_asks_for_a_switch() {
    let session = Session::new();
    let mut state = session.state();
    let Step::Answer(shown) = model::run(" ", &state) else {
        panic!("nothing to switch to");
    };
    assert_eq!(
        shown.output,
        "active: responses m1 (revision 1)\nmodels on provider 'responses':\n  m1 (default)\n  m2\nusage: /model <model> [effort]"
    );
    assert_eq!(shown.open_provider_picker, Some(RoutePickerStage::Model));
    assert_eq!(
        model::run("m2 max", &state),
        Step::Switch(SwitchRequest {
            provider_id: "responses".into(),
            model: Some("m2".into()),
            effort: EffortRequest::Choose(Some(ReasoningEffort::Max)),
        })
    );
    assert_eq!(
        model::run("m2 max more", &state),
        Step::Answer(message("usage: /model <model> [effort]"))
    );
    state.descriptors.clear();
    let Step::Answer(shown) = model::run("", &state) else {
        panic!("nothing to switch to");
    };
    assert_eq!(
        shown.output,
        "active: responses m1 (revision 1)\nprovider 'responses' is no longer in the catalog\nusage: /model <model> [effort]"
    );
    let changed = Ok(SwitchOutcome::Changed {
        route: frozen("m2", 2, None),
        continuity: ReasoningContinuity::Preserved,
    });
    assert_eq!(
        model::report(&changed).output,
        "model switched: m2 (provider responses, revision 2, reasoning continuity: Preserved, effort: unset)"
    );
    let same = Ok(SwitchOutcome::NoOp(frozen("m1", 3, None)));
    assert_eq!(
        model::report(&same).output,
        "model unchanged: m1 (provider responses, revision 3)"
    );
    assert_eq!(
        model::report(&Err("no".into())),
        message("model switch failed: no")
    );
}

#[test]
fn a_refused_switch_leaves_the_session_as_it_was() {
    let mut session = Session::new();
    session.effort("/effort high");
    let before = session.history.provider_routes().len();
    let request = SwitchRequest {
        provider_id: "gone".into(),
        model: None,
        effort: EffortRequest::Inherit,
    };
    let facts = TargetFacts {
        model: None,
        sends_thinking: true,
        declared_efforts: None,
    };
    let refused = |error| {
        let mut history = History::new();
        let opening = frozen("m1", 1, None);
        let resolution = Resolution::Refused(error);
        let none = Vec::new();
        let first = provider::apply(
            &mut history, &opening, &request, &facts, &resolution, &none, &Vec::new(),
        );
        assert_eq!(first, Applying::Opened);
        provider::apply(
            &mut history, &opening, &request, &facts, &resolution, &none, &Vec::new(),
        )
    };
    assert_eq!(
        refused(SwitchError::Refused("unknown provider 'gone'".into())),
        Applying::Failed("unknown provider 'gone'".into())
    );
    assert_eq!(
        refused(SwitchError::RevisionExhausted),
        Applying::Failed("provider route revision is exhausted".into())
    );
    assert_eq!(session.history.provider_routes().len(), before);
}

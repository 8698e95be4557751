use kloop_core::agent::append_produced;
use kloop_core::agent::runnable_calls;
use kloop_core::agent::text_content;
use kloop_core::agent::validate_assistant_result;
use kloop_core::agent::AssistantOutcome;
use kloop_core::agent::EndReason;
use kloop_core::agent::IncompleteReason;
use kloop_core::agent::InvalidCall;
use kloop_core::agent::OutputLimitKind;
use kloop_core::agent::ProviderFailure;
use kloop_core::agent::TurnError;
use kloop_core::agent::TurnOutcome;
use kloop_core::agent::TurnTerminal;
use kloop_core::agent::Usage;
use kloop_core::breaker::CompactionBreaker;
use kloop_core::history::History;
use kloop_core::inbox::boundary_list;
use kloop_core::protocol::ContentBlock;
use kloop_core::protocol::Injected;
use kloop_core::protocol::Message;
use kloop_core::protocol::ToolResultContent;
use kloop_core::turn::schema_refused;
use kloop_core::turn::CompactionResult;
use kloop_core::turn::CompactionTrigger;
use kloop_core::turn::Demand;
use kloop_core::turn::Effect;
use kloop_core::turn::HookDecision;
use kloop_core::turn::Sampled;
use kloop_core::turn::Turn;
use kloop_core::turn::TurnEvent;
use kloop_core::turn::TurnOptions;
use kloop_core::turn::STREAM_RESUME_MSG;
use kloop_core::turn::TRUNCATION_CONTINUE_MSG;

/// Everything outside a turn, scripted: what sampling, compacting and the hooks
/// come to, and what was written.
struct Outside {
    sampled: Vec<Sampled>,
    compactions: Vec<CompactionResult>,
    start: HookDecision,
    tool_hooks: Vec<String>,
    late_work: usize,
    inbox_empty: bool,
    overflow_predicted: bool,
    /// What the todo list says at each round boundary.
    todos: Vec<Option<String>>,
    structured: Vec<Option<String>>,
    history: History,
    requests: usize,
    notes: Vec<String>,
    terminals: Vec<TurnTerminal>,
    usage: Vec<Usage>,
    published: usize,
    triggers: Vec<CompactionTrigger>,
    order: Vec<&'static str>,
}

fn outside(sampled: Vec<Sampled>) -> Outside {
    Outside {
        sampled,
        compactions: Vec::new(),
        start: HookDecision::Allow { context: Vec::new() },
        tool_hooks: Vec::new(),
        late_work: 0,
        inbox_empty: true,
        overflow_predicted: false,
        todos: Vec::new(),
        structured: Vec::new(),
        history: History::new(),
        requests: 0,
        notes: Vec::new(),
        terminals: Vec::new(),
        usage: Vec::new(),
        published: 0,
        triggers: Vec::new(),
        order: Vec::new(),
    }
}

fn options() -> TurnOptions {
    TurnOptions {
        depth: 0,
        agent: String::new(),
        max_rounds: None,
        has_window: true,
        structured: false,
        nudge: "call structured_output".into(),
    }
}

impl Outside {
    fn perform(&mut self, effect: Effect) {
        let none = Vec::new();
        match effect {
            Effect::BeginTurn => self.history.compaction_breaker().begin_turn(),
            Effect::CountCompactionFailure => self.history.compaction_breaker().record_failure(),
            Effect::Stage(m) => self.history.stage(m),
            Effect::CommitStaged => {
                self.order.push("commit");
                assert_eq!(self.history.commit_staged(&none), None);
            }
            Effect::Record(m) => {
                self.order.push("message");
                assert_eq!(self.history.record(m, &none), None);
            }
            Effect::RecordAssistant(content) => {
                self.order.push("assistant");
                assert_eq!(self.history.record(Message::assistant(content), &none), None);
            }
            Effect::RecordUsage(u) => {
                self.order.push("usage");
                self.usage.push(u);
            }
            Effect::NoteUsage(total) => self.history.note_usage(total),
            Effect::RecordTerminal(t) => {
                self.order.push("terminal");
                assert_eq!(self.history.commit_staged(&none), None);
                self.terminals.push(t);
            }
            Effect::Note(t) => self.notes.push(t),
            Effect::PublishContext => self.published += 1,
        }
    }

    fn answer(&mut self, demand: Demand) -> Result<TurnEvent, TurnOutcome> {
        Ok(match demand {
            Demand::StartHook => TurnEvent::Started(std::mem::replace(
                &mut self.start,
                HookDecision::Allow { context: Vec::new() },
            )),
            Demand::BuildTools => TurnEvent::Tools { error: None },
            Demand::RoundBoundary => {
                let todos = match self.todos.is_empty() {
                    true => None,
                    false => self.todos.remove(0),
                };
                let list = boundary_list(Vec::new(), Vec::new(), 0, todos, None);
                assert_eq!(self.history.inject_pending(&list, &Vec::new()), None);
                TurnEvent::Boundary {
                    messages: self.history.messages().len() + self.history.staged().len(),
                    overflow_predicted: self.overflow_predicted,
                    breaker: self.history.breaker(),
                }
            }
            Demand::Compact(trigger) => {
                self.triggers.push(trigger);
                let result = self.compactions.remove(0);
                if let CompactionResult::Applied { .. } = &result {
                    let folded = vec![user("summary"), user("the newest message")];
                    assert_eq!(self.history.replace_all(folded, &Vec::new()), None);
                    self.overflow_predicted = false;
                }
                TurnEvent::Compaction(result)
            }
            Demand::Sample => {
                self.requests += 1;
                TurnEvent::Sampled(self.sampled.remove(0))
            }
            Demand::LateWork => {
                let found = self.late_work > 0;
                self.late_work -= usize::from(found);
                TurnEvent::LateWork { found }
            }
            Demand::Dispatch(calls) => TurnEvent::Dispatched {
                results: calls
                    .iter()
                    .map(|call| result(&call.id, &format!("{} ran", call.name), false))
                    .collect(),
                hook_context: self.tool_hooks.clone(),
                cancelled: false,
                structured: if self.structured.is_empty() {
                    None
                } else {
                    self.structured.remove(0)
                },
            },
            Demand::StopHook => TurnEvent::Stopped {
                context: Vec::new(),
                has_staged: self.history.has_staged(),
                inbox_empty: self.inbox_empty,
            },
            Demand::Finish(outcome) => return Err(outcome),
        })
    }

    /// Runs a turn to its end; what is still staged then goes back to the user.
    fn run(&mut self, options: TurnOptions) -> (TurnOutcome, Option<Message>) {
        let mut turn = Turn::new(options);
        let mut event = TurnEvent::Route { error: None };
        loop {
            assert!(turn.accepts(&event));
            let step = turn.advance(event);
            for effect in step.effects {
                self.perform(effect);
            }
            match self.answer(step.demand) {
                Ok(next) => event = next,
                Err(outcome) => return (outcome, self.history.take_input()),
            }
        }
    }

    fn turn(&mut self, input: &str) -> TurnOutcome {
        self.record(input);
        self.run(options()).0
    }

    fn record(&mut self, input: &str) {
        assert_eq!(self.history.record(user(input), &Vec::new()), None);
    }
}

fn user(words: &str) -> Message {
    Message::user_text(words.into())
}

fn text(words: &str) -> ContentBlock {
    ContentBlock::Text { text: words.into() }
}

fn call(id: &str, input: &str) -> ContentBlock {
    ContentBlock::ToolUse {
        id: id.into(),
        name: "bash".into(),
        input: input.into(),
    }
}

fn result(id: &str, content: &str, is_error: bool) -> ContentBlock {
    ContentBlock::ToolResult {
        tool_use_id: id.into(),
        content: ToolResultContent::Text(content.into()),
        is_error,
    }
}

fn ended(blocks: Vec<ContentBlock>, outcome: AssistantOutcome) -> Sampled {
    Sampled::Accepted {
        blocks,
        usage: None,
        outcome,
        invalid: Vec::new(),
    }
}

fn said(words: &str) -> Sampled {
    ended(vec![text(words)], AssistantOutcome::EndTurn)
}

fn calls(blocks: Vec<ContentBlock>) -> Sampled {
    ended(blocks, AssistantOutcome::ToolUse)
}

fn cut(words: &str, kind: OutputLimitKind) -> Sampled {
    ended(vec![text(words)], AssistantOutcome::OutputLimit(kind))
}

fn failure(message: &str, retryable: bool) -> ProviderFailure {
    ProviderFailure {
        message: message.into(),
        retryable,
    }
}

fn error(message: &str) -> EndReason {
    EndReason::Error(TurnError::Message(message.into()))
}

fn applied() -> CompactionResult {
    CompactionResult::Applied {
        summarized: 2,
        kept: 1,
        description: "history compacted".into(),
    }
}

#[test]
fn overflow_compacts_and_retries() {
    let mut o = outside(vec![Sampled::Overflow, said("recovered answer")]);
    o.compactions = vec![applied()];
    o.record("earlier context");
    o.record("earlier reply");
    let outcome = o.turn("the request that overflows");
    assert_eq!(outcome.reason, EndReason::Completed);
    assert_eq!(outcome.final_text, "recovered answer");
    assert_eq!(o.triggers, [CompactionTrigger::Reactive]);
    assert_eq!(
        o.notes,
        ["context window exceeded; compacting and retrying", "history compacted"]
    );
}

#[test]
fn repeated_overflow_surfaces_error() {
    let mut o = outside(vec![Sampled::Overflow, Sampled::Overflow]);
    o.compactions = vec![applied()];
    let outcome = o.turn("still too big");
    assert_eq!(
        outcome.reason,
        error("context window exceeded (compaction unavailable or already tried)")
    );
}

#[test]
fn predictive_compaction_fires_before_sampling() {
    let mut o = outside(vec![said("done")]);
    o.overflow_predicted = true;
    o.compactions = vec![applied()];
    o.record("old");
    let outcome = o.turn("new");
    assert_eq!(outcome.reason, EndReason::Completed);
    assert_eq!(o.triggers, [CompactionTrigger::Predictive]);
    assert_eq!(
        o.notes,
        [
            "predicted context overflow; compacting history",
            "history compacted: 2 summarized, 1 kept verbatim"
        ]
    );
}

#[test]
fn a_failed_predictive_compaction_is_not_fatal_and_a_cancelled_one_aborts() {
    let mut o = outside(vec![said("done")]);
    o.overflow_predicted = true;
    o.compactions = vec![CompactionResult::Failed {
        error: "no provider".into(),
        cancelled: false,
    }];
    o.record("old");
    assert_eq!(o.turn("new").reason, EndReason::Completed);
    assert_eq!(o.notes[1], "predictive compaction failed: no provider");

    let mut o = outside(Vec::new());
    o.overflow_predicted = true;
    o.compactions = vec![CompactionResult::Failed {
        error: "interrupted".into(),
        cancelled: true,
    }];
    o.record("old");
    let outcome = o.turn("new");
    assert_eq!(outcome.reason, EndReason::Aborted);
    assert_eq!(outcome.rounds, 0);
}

fn refused() -> CompactionResult {
    CompactionResult::Failed {
        error: "compaction request failed: provider protocol error: summary refused".into(),
        cancelled: false,
    }
}

const PREDICTED_NOTE: &str = "predicted context overflow; compacting history";

/// A conversation that is predicted to overflow, with something to fold.
fn fat(sampled: Vec<Sampled>) -> Outside {
    let mut o = outside(sampled);
    o.overflow_predicted = true;
    o.record("earlier context");
    assert_eq!(
        o.history.record(Message::assistant(vec![text("earlier reply")]), &Vec::new()),
        None
    );
    o
}

#[test]
fn failing_predictive_compaction_pauses_for_three_turns() {
    let mut o = fat((1..=6).map(|n| said(&format!("answer {n}"))).collect());
    o.compactions = vec![refused(), refused(), refused()];
    let mut summaries = Vec::new();
    let mut notes = Vec::new();
    for turn in 1..=6 {
        o.triggers.clear();
        o.notes.clear();
        let outcome = o.turn(&format!("request {turn}"));
        assert_eq!(outcome.final_text, format!("answer {turn}"));
        summaries.push(o.triggers.len());
        notes.push(o.notes.clone());
    }

    assert_eq!(summaries, [1, 1, 0, 0, 0, 1]);
    let failed = "predictive compaction failed: compaction request failed: provider protocol error: summary refused";
    assert_eq!(notes[0], [PREDICTED_NOTE, failed]);
    assert_eq!(
        notes[1],
        [
            PREDICTED_NOTE,
            failed,
            "automatic compaction paused for 3 turns after 2 consecutive failures; \
/compact still works"
        ]
    );
    assert_eq!(notes[2..5], vec![Vec::<String>::new(); 3]);
    assert_eq!(notes[5], [PREDICTED_NOTE, failed]);
    assert_eq!(o.history.messages().len(), 2 + 2 * 6);
    assert_eq!(*o.history.compaction_breaker(), CompactionBreaker::at(6, 1, None));
}

#[test]
fn reactive_compaction_runs_during_a_pause_and_closes_it() {
    let mut o = fat(vec![Sampled::Overflow, said("answer")]);
    o.compactions = vec![applied()];
    o.history.compaction_breaker().begin_turn();
    o.history.compaction_breaker().record_failure();
    o.history.compaction_breaker().record_failure();
    assert!(o.history.breaker().is_paused());
    let outcome = o.turn("request 1");

    assert_eq!(outcome.reason, EndReason::Completed);
    assert_eq!(outcome.final_text, "answer");
    assert_eq!(o.triggers, [CompactionTrigger::Reactive]);
    assert_eq!(o.requests, 2);
    assert_eq!(*o.history.compaction_breaker(), CompactionBreaker::at(2, 0, None));
}

#[test]
fn cancelled_predictive_compaction_is_not_a_failure() {
    let mut o = fat(Vec::new());
    o.compactions = vec![CompactionResult::Failed {
        error: "interrupted".into(),
        cancelled: true,
    }];
    let outcome = o.turn("request 1");
    assert_eq!(outcome.reason, EndReason::Aborted);
    assert_eq!(*o.history.compaction_breaker(), CompactionBreaker::at(1, 0, None));
}

#[test]
fn two_failures_in_one_turn_pause_the_rest_of_it() {
    let mut o = fat(vec![
        calls(vec![call("a", "{}")]),
        calls(vec![call("b", "{}")]),
        said("done"),
    ]);
    o.compactions = vec![refused(), refused()];
    assert_eq!(o.turn("request 1").final_text, "done");
    assert_eq!(o.triggers.len(), 2);
    assert_eq!(*o.history.compaction_breaker(), CompactionBreaker::at(1, 0, Some(4)));
}

#[test]
fn a_turn_that_its_hook_blocks_is_not_counted() {
    let mut o = fat(Vec::new());
    o.start = HookDecision::Block {
        reason: "no".into(),
    };
    o.turn("request 1");
    assert_eq!(*o.history.compaction_breaker(), CompactionBreaker::at(0, 0, None));
}

#[test]
fn predictive_noop_continues_sampling_without_provider_compaction() {
    let mut o = outside(vec![said("done")]);
    o.overflow_predicted = true;
    o.compactions = vec![CompactionResult::NoOp];
    o.record("old");
    assert_eq!(o.turn("new").final_text, "done");
    assert_eq!(o.requests, 1);
}

#[test]
fn reactive_noop_does_not_retry_after_overflow() {
    let mut o = outside(vec![Sampled::Overflow]);
    o.compactions = vec![CompactionResult::NoOp];
    let outcome = o.turn("go");
    assert_eq!(outcome.reason, error("reactive compaction made no changes"));
    assert_eq!(o.requests, 1);
}

#[test]
fn truncated_response_recovers_with_continuation() {
    let mut o = outside(vec![
        cut("part one, cut off mid-", OutputLimitKind::MaxOutputTokens),
        said("part two, complete."),
    ]);
    let outcome = o.turn("write something long");
    assert_eq!(outcome.reason, EndReason::Completed);
    assert_eq!(outcome.final_text, "part one, cut off mid-part two, complete.");
    assert_eq!(outcome.rounds, 2);
    assert_eq!(o.history.messages().len(), 4);
    assert_eq!(
        o.history.messages()[2],
        Message::injected(Injected::Harness, TRUNCATION_CONTINUE_MSG.into())
    );
}

#[test]
fn truncation_recovery_is_bounded() {
    let cuts = ["cut 1", "cut 2", "cut 3", "cut 4", "cut 5"];
    let mut o = outside(
        cuts.iter()
            .map(|words| cut(words, OutputLimitKind::MaxOutputTokens))
            .collect(),
    );
    let outcome = o.turn("write something very long");
    assert_eq!(
        outcome.reason,
        EndReason::Error(TurnError::ProviderOutcome(AssistantOutcome::OutputLimit(
            OutputLimitKind::MaxOutputTokens
        )))
    );
    assert_eq!(outcome.final_text, "cut 1cut 2cut 3cut 4");
    assert_eq!(outcome.rounds, 4);
    let nudge = Message::injected(Injected::Harness, TRUNCATION_CONTINUE_MSG.into());
    let nudges = o.history.messages().iter().filter(|m| *m == &nudge).count();
    assert_eq!(nudges, 3);
}

#[test]
fn model_context_output_limit_keeps_its_typed_kind() {
    let mut o = outside(
        (0..4)
            .map(|_| cut("cut", OutputLimitKind::ModelContextWindow))
            .collect(),
    );
    let outcome = o.turn("long answer");
    assert_eq!(
        outcome.reason,
        EndReason::Error(TurnError::ProviderOutcome(AssistantOutcome::OutputLimit(
            OutputLimitKind::ModelContextWindow
        )))
    );
    assert_eq!(outcome.final_text, "cutcutcutcut");
}

#[test]
fn validated_terminal_usage_is_recorded_before_assistant_message() {
    let usage = Usage {
        input_tokens: 3,
        output_tokens: 4,
        cache_read_input_tokens: 5,
        cache_creation_input_tokens: 6,
    };
    let mut o = outside(vec![Sampled::Accepted {
        blocks: vec![text("answer")],
        usage: Some(usage),
        outcome: AssistantOutcome::EndTurn,
        invalid: Vec::new(),
    }]);
    o.turn("question");
    assert_eq!(
        o.order,
        ["commit", "usage", "assistant", "terminal"]
    );
    assert_eq!(o.usage, [usage]);
    assert_eq!(usage.total(), 18);
    assert_eq!(o.history.estimated_tokens(&vec![0, 0]), 18);
    assert_eq!(o.published, 1);
}

#[test]
fn final_text_includes_every_text_block_in_provider_order() {
    let blocks = vec![
        text("first "),
        ContentBlock::Thinking {
            thinking: "middle".into(),
            signature: String::new(),
        },
        text("second"),
    ];
    assert_eq!(text_content(&blocks), "first second");
    let mut o = outside(vec![ended(blocks, AssistantOutcome::EndTurn)]);
    let outcome = o.turn("answer in pieces");
    assert_eq!(outcome.reason, EndReason::Completed);
    assert_eq!(outcome.final_text, "first second");
}

#[test]
fn empty_end_turn_completes_without_recording_empty_assistant() {
    let mut o = outside(vec![ended(Vec::new(), AssistantOutcome::EndTurn)]);
    let outcome = o.turn("say nothing");
    assert_eq!(outcome.reason, EndReason::Completed);
    assert_eq!(outcome.final_text, "");
    assert_eq!(o.requests, 1);
    assert_eq!(o.history.messages(), &vec![user("say nothing")]);
}

#[test]
fn semantic_error_outcomes_record_content_without_retry() {
    let cases = [
        (AssistantOutcome::Refused, "model refused the request"),
        (AssistantOutcome::Filtered, "provider filtered the response"),
        (
            AssistantOutcome::Incomplete(IncompleteReason::Provider("paused".into())),
            "provider returned an incomplete response: paused",
        ),
    ];
    for (semantic, expected) in cases {
        let mut o = outside(vec![
            ended(vec![text("partial semantic content")], semantic.clone()),
            said("must not retry"),
        ]);
        let outcome = o.turn("request");
        assert_eq!(
            outcome.reason,
            EndReason::Error(TurnError::ProviderOutcome(semantic))
        );
        assert_eq!(outcome.reason.terminal_error().unwrap().describe(), expected);
        assert_eq!(outcome.final_text, "partial semantic content");
        assert_eq!(o.requests, 1);
        assert_eq!(
            o.history.messages()[1],
            Message::assistant(vec![text("partial semantic content")])
        );
        assert_eq!(o.terminals[0].error.as_deref(), Some(expected));
    }
}

#[test]
fn core_rejects_outcome_tool_mismatch_and_invalid_tool_shape_before_dispatch() {
    let cases = vec![
        ended(vec![call("t1", "{\"command\":\"echo no\"}")], AssistantOutcome::EndTurn),
        calls(vec![call("t1", "[\"not\",\"an\",\"object\"]")]),
        calls(vec![
            call("dup", "{\"command\":\"echo one\"}"),
            call("dup", "{\"command\":\"echo two\"}"),
        ]),
    ];
    for sampled in cases {
        let mut o = outside(vec![sampled]);
        let outcome = o.turn("do not dispatch");
        assert!(matches!(outcome.reason, EndReason::Error(_)));
        assert_eq!(o.history.messages(), &vec![user("do not dispatch")]);
    }
}

#[test]
fn each_malformed_response_has_its_complaint() {
    let complaint = |outcome: AssistantOutcome, block: ContentBlock| {
        validate_assistant_result(&outcome, &vec![block]).unwrap_err()
    };
    let end = || AssistantOutcome::EndTurn;
    let tool = || AssistantOutcome::ToolUse;
    assert_eq!(
        complaint(end(), text("")),
        "provider returned an empty assistant text block"
    );
    assert_eq!(
        complaint(end(), ContentBlock::RedactedThinking { data: String::new() }),
        "provider returned an empty redacted thinking block"
    );
    assert_eq!(
        complaint(
            end(),
            ContentBlock::Thinking {
                thinking: String::new(),
                signature: String::new()
            }
        ),
        "provider returned an empty thinking block"
    );
    assert_eq!(
        complaint(tool(), call("", "{}")),
        "provider returned a tool call with an empty identity"
    );
    assert_eq!(
        complaint(tool(), call("t", "7")),
        "provider returned non-object input for tool bash"
    );
    assert_eq!(
        complaint(tool(), call("t", "{")),
        "provider returned non-object input for tool bash"
    );
    assert_eq!(
        complaint(end(), result("t", "x", false)),
        "provider returned a non-assistant output block"
    );
    assert_eq!(
        complaint(tool(), text("hi")),
        "provider reported tool use without a tool call"
    );
    assert_eq!(
        complaint(end(), call("t", "{}")),
        "provider returned a tool call for a non-tool outcome"
    );
    assert_eq!(
        validate_assistant_result(&tool(), &vec![call("a", "{}"), call("b", " { } ")]),
        Ok(())
    );
    assert_eq!(
        validate_assistant_result(&tool(), &vec![call("a", "{}"), call("a", "{}")]),
        Err("provider returned duplicate tool call ids".into())
    );
}

#[test]
fn unreadable_tool_arguments_become_a_failed_result_and_the_turn_goes_on() {
    let blocks = vec![call("good", "{\"command\":\"echo ran\"}"), call("bad", "{}")];
    let unreadable = || {
        vec![InvalidCall {
            id: "bad".into(),
            message: "bash was not run".into(),
        }]
    };
    assert_eq!(runnable_calls(&blocks, &unreadable()).len(), 1);
    let mut o = outside(vec![
        Sampled::Accepted {
            blocks,
            usage: None,
            outcome: AssistantOutcome::ToolUse,
            invalid: unreadable(),
        },
        said("recovered"),
    ]);
    let outcome = o.turn("run it");
    assert_eq!(outcome.reason, EndReason::Completed);
    assert_eq!(outcome.final_text, "recovered");
    assert_eq!(o.history.messages()[1].content[1], call("bad", "{}"));
    assert_eq!(
        o.history.messages()[2].content,
        vec![result("good", "bash ran", false), result("bad", "bash was not run", true)]
    );
}

#[test]
fn endless_tool_calls_hit_max_rounds() {
    let mut o = outside(
        ["t1", "t2", "t3", "t4"]
            .iter()
            .map(|id| calls(vec![call(id, "{}")]))
            .collect(),
    );
    o.record("loop forever");
    let (outcome, _) = o.run(TurnOptions {
        max_rounds: Some(3),
        ..options()
    });
    assert_eq!(outcome.reason, EndReason::MaxRounds);
    assert_eq!(outcome.rounds, 3);
    assert_eq!(o.history.messages().len(), 7);
}

#[test]
fn max_rounds_returns_the_text_produced_before_the_cap() {
    let mut o = outside(vec![
        calls(vec![text("finding one"), call("t1", "{}")]),
        calls(vec![text("finding two"), call("t2", "{}")]),
    ]);
    o.record("look at this");
    let (outcome, _) = o.run(TurnOptions {
        max_rounds: Some(2),
        ..options()
    });
    assert_eq!(outcome.reason, EndReason::MaxRounds);
    assert_eq!(outcome.rounds, 2);
    assert_eq!(outcome.final_text, "finding one\n\nfinding two");
    assert_eq!(o.terminals[0].status, "max_rounds");
}

#[test]
fn produced_text_is_parted_by_blank_lines() {
    let mut produced = String::new();
    append_produced(&mut produced, "");
    append_produced(&mut produced, "one");
    append_produced(&mut produced, "");
    append_produced(&mut produced, "two");
    assert_eq!(produced, "one\n\ntwo");
}

#[test]
fn retryable_stream_failure_after_output_continues_the_turn() {
    let mut o = outside(vec![
        Sampled::Partial {
            error: failure("connection reset", true),
            blocks: vec![text("first half")],
        },
        said("second half"),
    ]);
    let outcome = o.turn("write it out");
    assert_eq!(outcome.reason, EndReason::Completed);
    assert_eq!(outcome.final_text, "first halfsecond half");
    assert_eq!(outcome.rounds, 2);
    assert_eq!(
        o.history.messages()[2],
        Message::injected(Injected::Harness, STREAM_RESUME_MSG.into())
    );
    assert_eq!(
        o.notes,
        ["stream interrupted after partial output; continuing from it (1/3): connection reset"]
    );
}

#[test]
fn fatal_stream_failure_after_output_still_ends_the_turn() {
    let mut o = outside(vec![Sampled::Partial {
        error: failure("malformed frame", false),
        blocks: vec![text("all I got")],
    }]);
    let outcome = o.turn("write it out");
    assert_eq!(
        outcome.reason,
        EndReason::Error(TurnError::ProviderFailure(failure("malformed frame", false)))
    );
    assert_eq!(outcome.final_text, "all I got");
}

#[test]
fn stream_resumes_are_bounded() {
    let mut o = outside(
        (0..4)
            .map(|_| Sampled::Partial {
                error: failure("connection reset", true),
                blocks: vec![text("x")],
            })
            .collect(),
    );
    let outcome = o.turn("write it out");
    assert!(matches!(outcome.reason, EndReason::Error(_)));
    assert_eq!(outcome.final_text, "xxxx");
    assert_eq!(o.requests, 4);
}

#[test]
fn terminal_provider_failure_still_returns_what_the_turn_produced() {
    let mut o = outside(vec![
        calls(vec![text("finding one"), call("t1", "{}")]),
        Sampled::Terminal(failure("malformed frame", false)),
    ]);
    let outcome = o.turn("go");
    assert!(matches!(outcome.reason, EndReason::Error(_)));
    assert!(outcome.final_text.contains("finding one"));
}

#[test]
fn overflow_without_compaction_still_returns_what_the_turn_produced() {
    let mut o = outside(vec![
        calls(vec![text("finding one"), call("t1", "{}")]),
        Sampled::Overflow,
    ]);
    o.record("go");
    let (outcome, _) = o.run(TurnOptions {
        has_window: false,
        ..options()
    });
    assert!(matches!(outcome.reason, EndReason::Error(_)));
    assert!(outcome.final_text.contains("finding one"));
    assert!(o.triggers.is_empty());
}

#[test]
fn failed_reactive_compaction_still_returns_what_the_turn_produced() {
    let mut o = outside(vec![
        calls(vec![text("finding one"), call("t1", "{}")]),
        Sampled::Overflow,
    ]);
    o.compactions = vec![CompactionResult::Failed {
        error: "compaction refused".into(),
        cancelled: false,
    }];
    let outcome = o.turn("go");
    assert_eq!(
        outcome.reason,
        error("reactive compaction failed: compaction refused")
    );
    assert!(outcome.final_text.contains("finding one"));
}

#[test]
fn no_round_limit_runs_until_completed() {
    let mut sampled: Vec<Sampled> = (0..31)
        .map(|i| calls(vec![call(&format!("t{i}"), "{}")]))
        .collect();
    sampled.push(said("finished after a long run"));
    let mut o = outside(sampled);
    let outcome = o.turn("keep going until done");
    assert_eq!(outcome.reason, EndReason::Completed);
    assert_eq!(outcome.rounds, 32);
    assert_eq!(outcome.final_text, "finished after a long run");
}

#[test]
fn pre_turn_hook_block_prevents_the_turn() {
    let mut o = outside(vec![said("never sampled")]);
    o.start = HookDecision::Block {
        reason: "out of office".into(),
    };
    let outcome = o.turn("go");
    assert_eq!(
        outcome.reason,
        error("turn blocked by pre_turn hook: out of office")
    );
    assert_eq!(outcome.rounds, 0);
    assert_eq!(o.history.messages().len(), 1, "nothing recorded");
    assert_eq!(o.requests, 0);
}

#[test]
fn every_exit_records_why_the_turn_stopped() {
    let mut o = outside(vec![ended(Vec::new(), AssistantOutcome::Refused)]);
    let outcome = o.turn("go");
    assert_eq!(
        outcome.reason,
        EndReason::Error(TurnError::ProviderOutcome(AssistantOutcome::Refused))
    );
    assert_eq!(o.terminals.len(), 1);
    assert_eq!(o.terminals[0].status, "error");
    assert_eq!(
        o.terminals[0].typed_error,
        Some(TurnError::ProviderOutcome(AssistantOutcome::Refused))
    );

    let mut o = outside(Vec::new());
    o.start = HookDecision::Block {
        reason: "out of office".into(),
    };
    assert_eq!(o.turn("go").rounds, 0);
    assert_eq!(o.terminals.len(), 1);
    assert_eq!(o.terminals[0].status, "error");
    assert_eq!(
        o.terminals[0].error.as_deref(),
        Some("turn blocked by pre_turn hook: out of office")
    );
}

#[test]
fn a_subagent_is_blocked_by_its_own_hook() {
    let mut o = outside(Vec::new());
    o.start = HookDecision::Block {
        reason: "no".into(),
    };
    let (outcome, _) = o.run(TurnOptions {
        depth: 1,
        agent: "agent-1".into(),
        ..options()
    });
    assert_eq!(outcome.reason, error("turn blocked by subagent_start hook: no"));
}

#[test]
fn a_route_that_cannot_be_opened_ends_the_turn() {
    let mut turn = Turn::new(options());
    let step = turn.advance(TurnEvent::Route {
        error: Some("disk is full".into()),
    });
    let Demand::Finish(outcome) = step.demand else {
        panic!("the turn ends");
    };
    assert_eq!(
        outcome.reason,
        error("provider route initialization failed: disk is full")
    );
    assert!(matches!(&step.effects[..], [Effect::RecordTerminal(t)] if t.status == "error"));
}

#[test]
fn hook_stdout_is_injected_as_user_context() {
    let mut o = outside(vec![calls(vec![call("t1", "{}")]), said("done")]);
    o.start = HookDecision::Allow {
        context: vec!["[pre_turn hook]\nrepo rule: tests first".into()],
    };
    o.tool_hooks = vec!["[post_tool hook]\nlint passed".into()];
    let outcome = o.turn("go");
    assert_eq!(outcome.reason, EndReason::Completed);
    let messages = o.history.messages();
    assert_eq!(
        messages[1],
        Message::injected(Injected::Hook, "[pre_turn hook]\nrepo rule: tests first".into())
    );
    assert_eq!(
        messages[4],
        Message::injected(Injected::Hook, "[post_tool hook]\nlint passed".into())
    );
}

#[test]
fn the_reminder_arrives_between_rounds_of_a_real_turn() {
    let reminder = "<system-reminder>\nYour todo list:\n- [in_progress] Read the reference projects\n\
- [pending] Wire the round-boundary reminder\n</system-reminder>";
    let mut o = outside(vec![
        calls(vec![call("t0", "{}")]),
        calls(vec![call("t1", "{}")]),
        said("done"),
    ]);
    o.todos = vec![None, None, Some(reminder.into())];
    assert_eq!(o.turn("do the multi-step thing").reason, EndReason::Completed);
    let messages = o.history.messages();
    let reminders: Vec<usize> = messages
        .iter()
        .enumerate()
        .filter(|(_, m)| {
            matches!(&m.content[0], ContentBlock::Text { text } if text
                .starts_with("<system-reminder>"))
        })
        .map(|(index, _)| index)
        .collect();
    assert_eq!(reminders.len(), 1);
    let at = reminders[0];
    assert_eq!(messages[at], Message::injected(Injected::Harness, reminder.into()));
    assert!(messages[at - 1]
        .content
        .iter()
        .all(|block| matches!(block, ContentBlock::ToolResult { .. })));
    assert_eq!(messages[at + 1], Message::assistant(vec![text("done")]));
}

#[test]
fn late_steering_keeps_the_turn_going() {
    let mut o = outside(vec![said("first"), said("second")]);
    o.late_work = 1;
    let outcome = o.turn("go");
    assert_eq!(outcome.reason, EndReason::Completed);
    assert_eq!(outcome.rounds, 2);
    assert_eq!(outcome.final_text, "second");
}

#[test]
fn structured_turn_exposes_synthetic_tool_and_retries_invalid_value() {
    let mut o = outside(vec![
        calls(vec![call("s1", "{}")]),
        calls(vec![call("s2", "{}")]),
    ]);
    o.structured = vec![None, Some("{\"n\":2}".into())];
    o.record("answer in shape");
    let (outcome, _) = o.run(TurnOptions {
        structured: true,
        ..options()
    });
    assert_eq!(outcome.reason, EndReason::Completed);
    assert_eq!(outcome.structured_output.as_deref(), Some("{\"n\":2}"));
    assert_eq!(outcome.rounds, 2);
    assert_eq!(
        o.history.messages()[3],
        Message::injected(Injected::Harness, "call structured_output".into())
    );
}

#[test]
fn structured_turn_nudges_missing_calls_and_exhausts() {
    let mut o = outside(vec![said("no"), said("still no"), said("never")]);
    o.record("answer in shape");
    let (outcome, _) = o.run(TurnOptions {
        structured: true,
        ..options()
    });
    assert_eq!(
        outcome.reason,
        error("structured output was not produced after 3 attempts")
    );
    assert_eq!(outcome.structured_output, None);
    assert_eq!(outcome.final_text, "no\n\nstill no\n\nnever");
    assert_eq!(o.requests, 3);
}

fn interrupted(partial: Vec<ContentBlock>, produced_nothing: bool) -> Outside {
    outside(vec![Sampled::Cancelled {
        partial,
        produced_nothing,
    }])
}

#[test]
fn an_interrupt_before_the_first_token_leaves_no_trace() {
    let mut o = interrupted(Vec::new(), true);
    o.history.stage(user("teh quick brown fox"));
    let (outcome, returned) = o.run(options());
    assert_eq!(outcome.reason, EndReason::Aborted);
    assert_eq!(returned, Some(user("teh quick brown fox")));
    assert!(o.history.messages().is_empty());
    assert_eq!(o.requests, 1);
    assert!(o.order.is_empty(), "nothing was written");
}

#[test]
fn an_interrupt_after_the_model_speaks_keeps_the_turn() {
    let mut o = interrupted(vec![text("half an ans")], false);
    o.history.stage(user("a real question"));
    let (outcome, returned) = o.run(options());
    assert_eq!(outcome.reason, EndReason::Aborted);
    assert_eq!(returned, None);
    assert_eq!(
        o.history.messages(),
        &vec![
            user("a real question"),
            Message::assistant(vec![text("half an ans")])
        ]
    );
    assert_eq!(o.order, ["commit", "assistant", "terminal"]);
    assert_eq!(o.terminals[0].status, "aborted");
}

#[test]
fn an_interrupt_after_visible_reasoning_keeps_the_input() {
    let mut o = interrupted(Vec::new(), false);
    o.history.stage(user("think about it"));
    let (outcome, returned) = o.run(options());
    assert_eq!(outcome.reason, EndReason::Aborted);
    assert_eq!(returned, None);
    assert_eq!(o.history.messages(), &vec![user("think about it")]);
    assert_eq!(o.order, ["commit", "terminal"]);
}

#[test]
fn a_provider_failure_keeps_the_input_it_failed_on() {
    let mut o = outside(vec![Sampled::Failed(failure("malformed frame", false))]);
    o.history.stage(user("a question that breaks"));
    let (outcome, returned) = o.run(options());
    assert!(matches!(outcome.reason, EndReason::Error(_)));
    assert_eq!(returned, None);
    assert_eq!(o.history.messages(), &vec![user("a question that breaks")]);
}

#[test]
fn an_interrupt_with_steering_queued_keeps_the_input() {
    let mut o = interrupted(Vec::new(), true);
    o.inbox_empty = false;
    o.history.stage(user("do the thing"));
    let (outcome, returned) = o.run(options());
    assert_eq!(outcome.reason, EndReason::Aborted);
    assert_eq!(returned, None);
    assert_eq!(o.history.messages(), &vec![user("do the thing")]);
}

#[test]
fn only_the_awaited_event_is_accepted() {
    let turn = Turn::new(options());
    assert!(turn.accepts(&TurnEvent::Route { error: None }));
    assert!(!turn.accepts(&TurnEvent::Tools { error: None }));
    assert!(!turn.accepts(&TurnEvent::LateWork { found: false }));
    assert_eq!(turn.rounds(), 0);
}

#[test]
fn a_structured_turn_without_a_schema_never_begins() {
    let outcome = schema_refused("schema must be an object".into());
    assert_eq!(outcome.reason, error("schema must be an object"));
    assert_eq!(outcome.final_text, "");
    assert_eq!(outcome.rounds, 0);
    assert_eq!(outcome.structured_output, None);
}

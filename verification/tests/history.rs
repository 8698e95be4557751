use kloop_core::agent::EndReason;
use kloop_core::agent::Usage;
use kloop_core::anchors::user_words;
use kloop_core::history::Adoption;
use kloop_core::history::History;
use kloop_core::history::ResumedSession;
use kloop_core::history::RolloutCursor;
use kloop_core::history::RouteWrite;
use kloop_core::history::Switching;
use kloop_core::inbox::boundary_list;
use kloop_core::inbox::scheduled_event;
use kloop_core::inbox::steering_body;
use kloop_core::inbox::InboxItem;
use kloop_core::inbox::PendingItem;
use kloop_core::inbox::STEERING_PREFIX;
use kloop_core::event::ScheduledTaskOrigin;
use kloop_core::event::ScheduledTaskStatus;
use kloop_core::offload::offload_file_id;
use kloop_core::offload::offload_file_name;
use kloop_core::offload::offload_text;
use kloop_core::offload::is_offload_pointer;
use kloop_core::offload::sync_offload_counter;
use kloop_core::offload::Line;
use kloop_core::offload::Reply;
use kloop_core::offload::Request;
use kloop_core::offload::SettlingText;
use kloop_core::offload::OFFLOAD_CAP_CHARS;
use kloop_core::offload::ROUND_OFFLOAD_CAP_CHARS;
use kloop_core::protocol::ContentBlock;
use kloop_core::protocol::Injected;
use kloop_core::protocol::Message;
use kloop_core::protocol::ProviderApiFamily;
use kloop_core::protocol::ProviderRouteSource;
use kloop_core::protocol::ReasoningContinuity;
use kloop_core::protocol::Role;
use kloop_core::protocol::ToolResultContent;
use kloop_core::request_view::Origin;
use kloop_core::routes::FrozenProviderRoute;
use kloop_core::routes::ProvenanceMismatch;
use kloop_core::routes::ProviderSwitchError;
use kloop_core::routes::RouteReopened;
use kloop_core::usage::ProviderUsageRecord;
use kloop_core::usage::UsageOperation;

/// A disk in memory: the offload store and one session file.
struct Disk {
    files: Vec<(String, String)>,
    next_file: usize,
    store_fails: bool,
    lines: Vec<Line>,
    next_boundary: u64,
    append_fails: bool,
}

impl Disk {
    fn new() -> Self {
        Disk {
            files: Vec::new(),
            next_file: 1,
            store_fails: false,
            lines: Vec::new(),
            next_boundary: 1,
            append_fails: false,
        }
    }

    fn answer(&mut self, request: Request) -> Reply {
        match request {
            Request::Save { content } => {
                if self.store_fails {
                    return Reply::SaveFailed {
                        error: "not a directory".into(),
                    };
                }
                let path = format!("/offload/{}", offload_file_name(self.next_file));
                self.next_file += 1;
                self.files.push((path.clone(), content));
                Reply::Saved { path }
            }
            Request::Remove { path } => {
                self.files.retain(|(name, _)| name != &path);
                Reply::Removed
            }
            Request::Append(line) => {
                if self.append_fails {
                    return Reply::AppendFailed {
                        error: "disk is full".into(),
                    };
                }
                let boundary = self.next_boundary;
                self.next_boundary += 1;
                self.lines.push(line);
                Reply::Appended {
                    boundary,
                    next_boundary: self.next_boundary,
                    last_id: Some(format!("session#{boundary}")),
                }
            }
        }
    }

    /// Runs a write to its end.
    fn run(&mut self, mut write: impl FnMut(&Vec<Reply>) -> Option<Request>) {
        let mut replies = Vec::new();
        while let Some(request) = write(&replies) {
            replies.push(self.answer(request));
        }
    }

    fn record(&mut self, h: &mut History, message: Message) {
        self.run(|replies| h.record(message.clone(), replies));
    }

    fn stored(&self, path: &str) -> &str {
        &self.files.iter().find(|(name, _)| name == path).unwrap().1
    }

    fn cursor(&self) -> RolloutCursor {
        RolloutCursor {
            path: "/sessions/session.jsonl".into(),
            next_boundary: self.next_boundary,
            last_id: None,
        }
    }

    /// The messages that the session file replays to.
    fn replayed(&self) -> Vec<Message> {
        let mut messages: Vec<Message> = Vec::new();
        for line in &self.lines {
            match line {
                Line::Message(m) => messages.push(m.clone()),
                Line::Compacted(list) => messages = list.clone(),
                _ => {}
            }
        }
        messages
    }
}

fn text(words: &str) -> Message {
    Message::user_text(words.to_string())
}

fn result(id: &str, content: &str) -> ContentBlock {
    ContentBlock::ToolResult {
        tool_use_id: id.into(),
        content: ToolResultContent::Text(content.into()),
        is_error: false,
    }
}

fn tool_result(content: &str) -> Message {
    Message::tool_results(vec![result("t1", content)])
}

fn tool_results(results: &[(&str, String)]) -> Message {
    Message::tool_results(results.iter().map(|(id, c)| result(id, c)).collect())
}

fn text_of(h: &History, message: usize, block: usize) -> String {
    match &h.messages()[message].content[block] {
        ContentBlock::ToolResult {
            content: ToolResultContent::Text(t),
            ..
        } => t.clone(),
        ContentBlock::Text { text } => text.clone(),
        other => panic!("expected text, got {other:?}"),
    }
}

/// The file that a pointer names.
fn pointer_path(pointer: &str) -> String {
    let start = pointer.find("/offload/off-").expect("pointer names the file");
    pointer[start..start + "/offload/off-0001.txt".len()].to_string()
}

#[test]
fn oversized_tool_result_is_offloaded_with_pointer() {
    let mut disk = Disk::new();
    let mut h = History::new();
    let big = "x".repeat(OFFLOAD_CAP_CHARS + 1_000);
    disk.record(&mut h, tool_result(&big));
    let content = text_of(&h, 0, 0);
    assert!(content.chars().count() < OFFLOAD_CAP_CHARS);
    assert!(content.contains("…[truncated]…"));
    assert!(content.contains("saved to"));
    assert_eq!(disk.stored(&pointer_path(&content)), big);
}

#[test]
fn the_offload_pointer_names_a_path_and_says_to_query_it_in_place() {
    let mut disk = Disk::new();
    let mut h = History::new();
    let big = "x".repeat(OFFLOAD_CAP_CHARS + 1_000);
    disk.record(&mut h, tool_result(&big));
    let content = text_of(&h, 0, 0);
    let path = pointer_path(&content);
    assert!(content.contains(&format!("({} chars)", big.chars().count())), "{content}");
    assert!(content.contains(&path), "{content}");
    assert!(content.contains("python3 -c"), "{content}");
    assert!(content.contains("Query it in place"), "{content}");
    assert!(!content.contains("read_offloaded"), "{content}");
    assert!(!content.contains("id=off-"), "{content}");
    assert_eq!(disk.stored(&path), big);
    assert!(is_offload_pointer(&content));
    assert!(!is_offload_pointer(&big));
}

#[test]
fn a_wide_round_spills_its_largest_results_until_it_is_under_budget() {
    let mut disk = Disk::new();
    let mut h = History::new();
    let round: Vec<(&str, String)> = vec![
        ("c", "c".repeat(30_000)),
        ("s0", "0".repeat(5_000)),
        ("a", "a".repeat(31_000)),
        ("s1", "1".repeat(5_000)),
        ("d", "d".repeat(29_500)),
        ("s2", "2".repeat(5_000)),
        ("b", "b".repeat(30_500)),
        ("s3", "3".repeat(5_000)),
        ("e", "e".repeat(29_000)),
        ("s4", "4".repeat(5_000)),
    ];
    assert!(round.iter().all(|(_, t)| t.chars().count() < OFFLOAD_CAP_CHARS));
    disk.record(&mut h, tool_results(&round));

    let ids: Vec<&str> = h.messages()[0]
        .content
        .iter()
        .map(|block| match block {
            ContentBlock::ToolResult { tool_use_id, .. } => tool_use_id.as_str(),
            other => panic!("expected tool result, got {other:?}"),
        })
        .collect();
    assert_eq!(ids, vec!["c", "s0", "a", "s1", "d", "s2", "b", "s3", "e", "s4"]);

    for (index, id) in [(2, "a"), (6, "b")] {
        let t = text_of(&h, 0, index);
        assert!(t.contains("Query it in place"), "{id}: {t}");
        let original = &round.iter().find(|(name, _)| *name == id).unwrap().1;
        assert_eq!(disk.stored(&pointer_path(&t)), original);
    }
    for (index, (id, original)) in round.iter().enumerate() {
        if index == 2 || index == 6 {
            continue;
        }
        assert_eq!(&text_of(&h, 0, index), original, "{id} was not left alone");
    }
    let total: usize = (0..round.len())
        .map(|index| text_of(&h, 0, index).chars().count())
        .sum();
    assert!(total <= ROUND_OFFLOAD_CAP_CHARS, "{total}");
}

#[test]
fn a_round_of_results_too_small_to_shrink_is_left_alone() {
    let mut disk = Disk::new();
    let mut h = History::new();
    let round: Vec<(String, String)> = (0..80)
        .map(|n| (format!("t{n}"), "s".repeat(1_800)))
        .collect();
    let round: Vec<(&str, String)> = round
        .iter()
        .map(|(id, t)| (id.as_str(), t.clone()))
        .collect();
    let total: usize = round.iter().map(|(_, t)| t.chars().count()).sum();
    assert!(total > ROUND_OFFLOAD_CAP_CHARS, "{total}");
    let msg = tool_results(&round);
    disk.record(&mut h, msg.clone());
    assert_eq!(h.messages().as_slice(), [msg].as_slice());
    assert_eq!(disk.files.len(), 0, "a spill that could not help was left on disk");
}

#[test]
fn a_round_under_budget_is_recorded_verbatim() {
    let mut disk = Disk::new();
    let mut h = History::new();
    let round = vec![
        ("t1", "a".repeat(31_000)),
        ("t2", "b".repeat(31_000)),
        ("t3", "c".repeat(31_000)),
    ];
    let msg = tool_results(&round);
    disk.record(&mut h, msg.clone());
    assert_eq!(h.messages().as_slice(), [msg].as_slice());
    assert_eq!(disk.next_file, 1, "an under-budget round touched the offload store");
}

#[test]
fn a_spill_that_cannot_reach_disk_stays_inline_for_the_round_budget_only() {
    let mut disk = Disk::new();
    disk.store_fails = true;
    let mut h = History::new();
    let round = vec![
        ("t1", "a".repeat(31_000)),
        ("t2", "b".repeat(31_000)),
        ("t3", "c".repeat(31_000)),
        ("t4", "d".repeat(31_000)),
        ("t5", "e".repeat(31_000)),
    ];
    let msg = tool_results(&round);
    disk.record(&mut h, msg.clone());
    assert_eq!(h.messages().as_slice(), [msg].as_slice());

    disk.record(&mut h, tool_result(&"z".repeat(OFFLOAD_CAP_CHARS + 1_000)));
    let truncated = text_of(&h, 1, 0);
    assert!(truncated.contains("offload to disk failed"), "{truncated}");
    assert!(truncated.contains("output truncated"), "{truncated}");
    assert!(truncated.chars().count() < OFFLOAD_CAP_CHARS, "{truncated}");
}

#[test]
fn machine_injected_text_reuses_the_offload_store() {
    let mut disk = Disk::new();
    assert_eq!(
        offload_text("small".into(), OFFLOAD_CAP_CHARS, &Vec::new(), 0),
        SettlingText::Done("small".into(), 0)
    );
    let big = "result".repeat(OFFLOAD_CAP_CHARS / 6 + 200);
    let SettlingText::Needs(request) = offload_text(big.clone(), OFFLOAD_CAP_CHARS, &Vec::new(), 0)
    else {
        panic!("a large text is saved");
    };
    let replies = vec![disk.answer(request)];
    let SettlingText::Done(preview, used) = offload_text(big.clone(), OFFLOAD_CAP_CHARS, &replies, 0)
    else {
        panic!("the save was answered");
    };
    assert_eq!(used, 1);
    assert!(preview.contains("…[truncated]…"), "{preview}");
    assert!(preview.contains("saved to"), "{preview}");
    assert_eq!(disk.stored(&pointer_path(&preview)), big);
}

#[test]
fn estimated_tokens_anchor_math() {
    let mut disk = Disk::new();
    let mut h = History::new();
    disk.record(&mut h, text("earlier message"));
    h.note_usage(1_000);
    assert_eq!(h.estimated_tokens(&vec![7]), 1_000);
    let tail = text(&"x".repeat(400));
    let tail_estimate = 113;
    disk.record(&mut h, tail.clone());
    assert_eq!(h.estimated_tokens(&vec![7, tail_estimate]), 1_000 + tail_estimate);
    disk.run(|replies| h.replace_all(vec![tail.clone()], replies));
    assert_eq!(h.estimated_tokens(&vec![tail_estimate]), tail_estimate);
}

#[test]
fn offload_ids_unique_across_histories() {
    let mut disk = Disk::new();
    let mut a = History::new();
    let mut b = History::new();
    disk.record(&mut a, tool_result(&"a".repeat(OFFLOAD_CAP_CHARS + 1_000)));
    disk.record(&mut b, tool_result(&"b".repeat(OFFLOAD_CAP_CHARS + 1_000)));
    assert_ne!(pointer_path(&text_of(&a, 0, 0)), pointer_path(&text_of(&b, 0, 0)));
}

#[test]
fn only_oversized_blocks_in_a_message_are_offloaded() {
    let mut disk = Disk::new();
    let mut h = History::new();
    disk.record(
        &mut h,
        Message::tool_results(vec![
            result("small", "tiny"),
            result("big", &"z".repeat(OFFLOAD_CAP_CHARS + 1_000)),
        ]),
    );
    assert_eq!(text_of(&h, 0, 0), "tiny");
    assert!(text_of(&h, 0, 1).contains("saved to"));
}

#[test]
fn record_and_replace_all_write_through_to_rollout() {
    let mut disk = Disk::new();
    let mut h = History::new();
    h.attach_rollout(disk.cursor(), Vec::new());
    disk.record(&mut h, text("first"));
    disk.record(
        &mut h,
        Message::assistant(vec![ContentBlock::Text { text: "reply".into() }]),
    );
    disk.run(|replies| h.replace_all(vec![text("[summary]")], replies));
    disk.record(&mut h, text("after compaction"));
    assert_eq!(&disk.replayed(), h.messages());
    assert_eq!(h.rollout_last_id().map(|id| id.as_str()), Some("session#4"));
    assert_eq!(
        h.rollout_path().map(|p| p.as_str()),
        Some("/sessions/session.jsonl")
    );
}

#[test]
fn a_failed_append_drops_the_file_and_goes_on_in_memory() {
    let mut disk = Disk::new();
    let mut h = History::new();
    h.attach_rollout(disk.cursor(), Vec::new());
    disk.append_fails = true;
    disk.record(&mut h, text("kept in memory"));
    assert_eq!(h.rollout_path(), None);
    disk.append_fails = false;
    disk.record(&mut h, text("and so is this"));
    assert_eq!(h.messages().len(), 2);
    assert!(disk.lines.is_empty());
}

#[test]
fn provider_usage_writes_through_and_survives_compaction() {
    let mut disk = Disk::new();
    let mut h = History::new();
    h.attach_rollout(disk.cursor(), Vec::new());
    let record = ProviderUsageRecord {
        provider_id: "test".into(),
        api_family: ProviderApiFamily::Mock,
        route_revision: 1,
        model: "mock".into(),
        operation: UsageOperation::Sampling,
        usage: Usage {
            input_tokens: 1,
            output_tokens: 2,
            cache_read_input_tokens: 3,
            cache_creation_input_tokens: 4,
        },
    };
    disk.run(|replies| h.record_provider_usage(record.clone(), replies));
    disk.run(|replies| h.replace_all(Vec::new(), replies));
    assert_eq!(h.provider_usage(), &vec![record.clone()]);
    assert_eq!(disk.lines[0], Line::Usage(record));
}

#[test]
fn resumed_history_installs_items_without_reappending() {
    let mut disk = Disk::new();
    disk.answer(Request::Append(Line::Message(text("earlier"))));
    let mut h = History::resume(ResumedSession {
        messages: disk.replayed(),
        provider_usage: Vec::new(),
        provider_routes: Vec::new(),
        rollout: disk.cursor(),
    });
    assert_eq!(h.messages(), &vec![text("earlier")]);
    disk.record(&mut h, text("later"));
    assert_eq!(&disk.replayed(), h.messages());
    assert_eq!(disk.lines.len(), 2);
}

#[test]
fn rebase_rewinds_onto_a_fork_and_redirects_writes() {
    let mut disk = Disk::new();
    let mut h = History::new();
    h.attach_rollout(disk.cursor(), Vec::new());
    let done = Message::assistant(vec![ContentBlock::Text { text: "done".into() }]);
    let bye = Message::assistant(vec![ContentBlock::Text { text: "bye".into() }]);
    for message in [text("one"), done.clone(), text("two"), bye] {
        disk.record(&mut h, message);
    }
    let mut fork = Disk::new();
    for message in [text("one"), done.clone()] {
        fork.answer(Request::Append(Line::Message(message)));
    }
    h.rebase(ResumedSession {
        messages: fork.replayed(),
        provider_usage: Vec::new(),
        provider_routes: Vec::new(),
        rollout: RolloutCursor {
            path: "/sessions/fork.jsonl".into(),
            next_boundary: fork.next_boundary,
            last_id: None,
        },
    });
    assert_eq!(h.messages(), &vec![text("one"), done]);
    fork.record(&mut h, text("three"));
    assert_eq!(&fork.replayed(), h.messages());
    assert_eq!(disk.replayed().len(), 4, "the original branch keeps its full history");
    assert_eq!(h.rollout_path().map(|p| p.as_str()), Some("/sessions/fork.jsonl"));
}

#[test]
fn synced_offload_counter_never_clobbers_existing_files() {
    let names = vec!["off-0007.txt".to_string(), "notes.md".to_string()];
    let counter = sync_offload_counter(&names, 1);
    let mut disk = Disk::new();
    disk.files.push(("/offload/off-0007.txt".into(), "old spill".into()));
    disk.next_file = counter;
    let mut h = History::new();
    disk.record(&mut h, tool_result(&"n".repeat(OFFLOAD_CAP_CHARS + 1_000)));
    assert_eq!(
        disk.stored("/offload/off-0007.txt"),
        "old spill",
        "the resumed session's spill file must survive new spills"
    );
    assert_eq!(disk.files.len(), 2);
    assert_eq!(offload_file_name(7), "off-0007.txt");
    assert_eq!(offload_file_name(12_345), "off-12345.txt");
    assert_eq!(offload_file_id("off-0007.txt"), Some(7));
    assert_eq!(offload_file_id("off-x.txt"), None);
    assert_eq!(offload_file_id("notes.md"), None);
    assert_eq!(sync_offload_counter(&Vec::new(), 5), 5);
}

// --- routes ---------------------------------------------------------------

fn route(id: &str, family: ProviderApiFamily, revision: u64) -> FrozenProviderRoute {
    FrozenProviderRoute {
        revision,
        provider_id: id.into(),
        api_family: family,
        endpoint_fingerprint: format!("{id}:endpoint"),
        model: format!("{id}-model"),
        effort: None,
        continuity: ReasoningContinuity::Preserved,
    }
}

/// Where each message came from, by the revision it carries.
fn origins(messages: &Vec<Message>, revisions: &[u64]) -> Vec<Origin> {
    messages
        .iter()
        .map(|m| match &m.provider_provenance {
            Some(p) => revisions
                .iter()
                .position(|r| *r == p.route_revision)
                .ok_or(ProvenanceMismatch::UnknownRevision),
            None => Ok(0),
        })
        .collect()
}

fn revisions(h: &History) -> Vec<u64> {
    h.provider_routes().iter().map(|r| r.route_revision).collect()
}

fn view(h: &History, on: &FrozenProviderRoute) -> Vec<Message> {
    let known = revisions(h);
    h.provider_request_view(
        &on.primary_attempt(),
        &origins(h.messages(), &known),
        &origins(h.staged(), &known),
    )
    .unwrap()
}

fn open(disk: &mut Disk, h: &mut History, on: &FrozenProviderRoute) {
    let mut replies = Vec::new();
    loop {
        match h.ensure_initial_provider_route(on, &replies) {
            RouteWrite::Needs(request) => replies.push(disk.answer(request)),
            RouteWrite::Done(receipt) => {
                assert_eq!(receipt.source, ProviderRouteSource::Initial);
                return;
            }
            RouteWrite::Failed(e) => panic!("{e}"),
        }
    }
}

fn switch(
    disk: &mut Disk,
    h: &mut History,
    previous: &FrozenProviderRoute,
    next: &FrozenProviderRoute,
) -> Result<ReasoningContinuity, ProviderSwitchError> {
    let mut known = revisions(h);
    known.push(next.revision);
    let from = origins(h.messages(), &known);
    let mut replies = Vec::new();
    loop {
        match h.switch_provider(previous, next, &from, &replies) {
            Switching::Needs(request) => replies.push(disk.answer(request)),
            Switching::Done(continuity) => return Ok(continuity),
            Switching::Failed(e) => return Err(e),
        }
    }
}

fn adopt(
    disk: &mut Disk,
    h: &mut History,
    opening: &FrozenProviderRoute,
) -> (FrozenProviderRoute, Option<RouteReopened>) {
    let mut known = revisions(h);
    known.push(known.last().unwrap_or(&0) + 1);
    let from = origins(h.messages(), &known);
    let mut replies = Vec::new();
    loop {
        match h.adopt_provider_route(opening, &from, &replies) {
            Adoption::Needs(request) => replies.push(disk.answer(request)),
            Adoption::Done(route, reopened) => return (route, reopened),
            Adoption::Failed(e) => panic!("{}", e.describe()),
        }
    }
}

fn answer_with_reasoning() -> Vec<ContentBlock> {
    vec![
        ContentBlock::Thinking {
            thinking: "private".into(),
            signature: "opaque".into(),
        },
        ContentBlock::Text { text: "answer".into() },
    ]
}

#[test]
fn explicit_switch_filters_request_view_and_switching_back_restores_reasoning() {
    let mut disk = Disk::new();
    let mut h = History::new();
    let a = route("a", ProviderApiFamily::Mock, 1);
    open(&mut disk, &mut h, &a);
    disk.record(&mut h, text("question"));
    let content = vec![
        ContentBlock::Thinking {
            thinking: "readable reasoning".into(),
            signature: "opaque".into(),
        },
        ContentBlock::ToolResult {
            tool_use_id: "nested".into(),
            content: ToolResultContent::Blocks(vec![
                ContentBlock::Text { text: "keep nested text".into() },
                ContentBlock::Thinking {
                    thinking: "nested reasoning".into(),
                    signature: "nested opaque".into(),
                },
            ]),
            is_error: false,
        },
        ContentBlock::Text { text: "answer".into() },
    ];
    disk.run(|replies| h.record_provider_assistant(content.clone(), &a.primary_attempt(), replies));
    let canonical = h.messages().clone();

    let b = route("b", ProviderApiFamily::Mock, 2);
    assert_eq!(
        switch(&mut disk, &mut h, &a, &b).unwrap(),
        ReasoningContinuity::Filtered
    );
    let view_b = view(&h, &b);
    assert_eq!(
        view_b[1].content,
        vec![
            ContentBlock::ToolResult {
                tool_use_id: "nested".into(),
                content: ToolResultContent::Blocks(vec![ContentBlock::Text {
                    text: "keep nested text".into(),
                }]),
                is_error: false,
            },
            ContentBlock::Text { text: "answer".into() },
        ]
    );
    assert_eq!(h.messages(), &canonical);
    let again = route("a", ProviderApiFamily::Mock, 3);
    switch(&mut disk, &mut h, &b, &again).unwrap();
    assert_eq!(view(&h, &again), canonical);
}

#[test]
fn chat_request_view_validates_source_then_removes_reasoning() {
    let mut disk = Disk::new();
    let mut h = History::new();
    let source = route("source", ProviderApiFamily::Mock, 1);
    open(&mut disk, &mut h, &source);
    disk.record(&mut h, text("question"));
    disk.run(|replies| {
        h.record_provider_assistant(answer_with_reasoning(), &source.primary_attempt(), replies)
    });
    let chat = route("chat", ProviderApiFamily::OpenAiChatCompletions, 2);
    switch(&mut disk, &mut h, &source, &chat).unwrap();
    let sent = view(&h, &chat);
    assert_eq!(sent[1].content, vec![ContentBlock::Text { text: "answer".into() }]);
    assert_eq!(sent[1].provider_provenance, None);
}

#[test]
fn chat_produced_reasoning_is_stripped_not_rejected() {
    let mut disk = Disk::new();
    let mut h = History::new();
    let chat = route("chat", ProviderApiFamily::OpenAiChatCompletions, 1);
    open(&mut disk, &mut h, &chat);
    disk.record(&mut h, text("question"));
    let content = vec![
        ContentBlock::Thinking {
            thinking: "streamed as reasoning_content".into(),
            signature: String::new(),
        },
        ContentBlock::Text { text: "answer".into() },
    ];
    disk.run(|replies| {
        h.record_provider_assistant(content.clone(), &chat.primary_attempt(), replies)
    });
    let sent = view(&h, &chat);
    assert_eq!(sent.len(), 2);
    assert_eq!(sent[1].content, vec![ContentBlock::Text { text: "answer".into() }]);
    assert_eq!(sent[1].provider_provenance, None);
}

#[test]
fn a_foreign_provenance_is_refused() {
    let mut disk = Disk::new();
    let mut h = History::new();
    let a = route("a", ProviderApiFamily::Mock, 1);
    open(&mut disk, &mut h, &a);
    disk.run(|replies| {
        h.record_provider_assistant(answer_with_reasoning(), &a.primary_attempt(), replies)
    });
    let refused = h.provider_request_view(
        &a.primary_attempt(),
        &vec![Err(ProvenanceMismatch::IdentityMismatch)],
        &Vec::new(),
    );
    assert!(refused.is_err());
    assert!(!refused.unwrap_err().retryable);
}

#[test]
fn route_append_failure_keeps_memory_state_and_remembered_model() {
    let mut disk = Disk::new();
    let mut h = History::new();
    let a = route("a", ProviderApiFamily::Mock, 1);
    h.attach_rollout(disk.cursor(), Vec::new());
    open(&mut disk, &mut h, &a);
    disk.append_fails = true;
    let b = route("b", ProviderApiFamily::Mock, 2);
    let error = switch(&mut disk, &mut h, &a, &b).unwrap_err();
    assert!(matches!(error, ProviderSwitchError::Persistence(_)));
    assert_eq!(
        error.describe(),
        "provider route persistence failed: disk is full"
    );
    assert_eq!(h.provider_routes().len(), 1);
    assert_eq!(h.provider_routes()[0].provider_id, "a");
}

#[test]
fn a_reopened_session_starts_on_the_route_it_is_opened_with() {
    let mut disk = Disk::new();
    let mut h = History::new();
    h.attach_rollout(disk.cursor(), Vec::new());
    let gone = route("gone", ProviderApiFamily::Mock, 1);
    open(&mut disk, &mut h, &gone);
    disk.record(&mut h, text("question"));
    disk.run(|replies| {
        h.record_provider_assistant(answer_with_reasoning(), &gone.primary_attempt(), replies)
    });
    let canonical = h.messages().clone();

    let kept = route("kept", ProviderApiFamily::Mock, 1);
    let (adopted, reopened) = adopt(&mut disk, &mut h, &kept);
    assert_eq!(
        reopened,
        Some(RouteReopened {
            from_provider: "gone".into(),
            from_model: "gone-model".into(),
            to_provider: "kept".into(),
            to_model: "kept-model".into(),
            continuity: ReasoningContinuity::Filtered,
        })
    );
    assert_eq!(adopted.revision, 2);
    assert_eq!(adopted.provider_id, "kept");
    assert_eq!(h.messages(), &canonical);
    let sent = view(&h, &adopted);
    assert_eq!(sent[1].content, vec![ContentBlock::Text { text: "answer".into() }]);

    let timeline = h.provider_routes().clone();
    assert_eq!(timeline.len(), 2);
    assert_eq!(timeline[1].source, ProviderRouteSource::Reopened);
    assert_eq!(timeline[1].provider_id, "kept");
    assert_eq!(timeline[1].continuity, ReasoningContinuity::Filtered);

    let mut resumed = History::resume(ResumedSession {
        messages: disk.replayed(),
        provider_usage: Vec::new(),
        provider_routes: timeline.clone(),
        rollout: disk.cursor(),
    });
    let written = disk.lines.len();
    let (again, reopened) = adopt(&mut disk, &mut resumed, &kept);
    assert_eq!(reopened, None);
    assert_eq!(again.revision, 2);
    assert_eq!(again.continuity, ReasoningContinuity::Filtered);
    assert_eq!(resumed.provider_routes(), &timeline);
    assert_eq!(disk.lines.len(), written);

    let other = route("other", ProviderApiFamily::Mock, 1);
    let (moved, reopened) = adopt(&mut disk, &mut resumed, &other);
    assert_eq!(
        reopened.map(|reopened| reopened.to_provider),
        Some("other".to_string())
    );
    assert_eq!(moved.revision, 3);
}

#[test]
fn small_tool_result_kept_verbatim() {
    let mut disk = Disk::new();
    let mut h = History::new();
    disk.record(&mut h, tool_result("hello"));
    assert_eq!(
        h.messages()[0],
        Message {
            role: Role::User,
            content: vec![result("t1", "hello")],
            provider_provenance: None,
            injected: None,
        }
    );
}

#[test]
fn a_staged_input_rides_the_request_without_joining_the_conversation() {
    let mut disk = Disk::new();
    let mut h = History::new();
    let a = route("a", ProviderApiFamily::Mock, 1);
    open(&mut disk, &mut h, &a);
    disk.record(&mut h, text("earlier"));
    let before = h.estimated_tokens(&vec![17]);

    h.stage(text("just typed"));
    assert!(h.has_staged());
    assert_eq!(h.messages(), &vec![text("earlier")]);
    assert_eq!(view(&h, &a), vec![text("earlier"), text("just typed")]);
    assert!(
        h.estimated_tokens(&vec![17, 18]) > before,
        "a staged input is in the next request, so it is in the estimate"
    );

    assert_eq!(h.take_staged(), vec![text("just typed")]);
    assert!(!h.has_staged());
    assert_eq!(h.messages(), &vec![text("earlier")]);
    assert_eq!(h.estimated_tokens(&vec![17]), before);
}

#[test]
fn compaction_does_not_swallow_the_staged_input() {
    let mut disk = Disk::new();
    let mut h = History::new();
    disk.record(&mut h, text("old turn"));
    h.stage(text("the new question"));
    assert_eq!(h.messages(), &vec![text("old turn")]);
    disk.run(|replies| h.replace_all(vec![text("[summary]")], replies));
    assert!(h.has_staged(), "replace_all must leave the stage alone");
    disk.record(&mut h, text("and then"));
    assert_eq!(
        h.messages(),
        &vec![text("[summary]"), text("the new question"), text("and then")]
    );
}

#[test]
fn a_turn_closes_after_its_staged_input() {
    let mut disk = Disk::new();
    let mut h = History::new();
    h.attach_rollout(disk.cursor(), Vec::new());
    h.stage(text("hello"));
    disk.run(|replies| h.record_turn_terminal(EndReason::Completed.terminal(), replies));
    assert_eq!(disk.lines.len(), 2);
    assert_eq!(disk.lines[0], Line::Message(text("hello")));
    assert!(matches!(&disk.lines[1], Line::Terminal(t) if t.status == "completed"));
    assert_eq!(h.messages().len(), 1);
}

#[test]
fn a_runtime_needs_a_session_file() {
    let mut h = History::new();
    assert_eq!(
        h.append_runtime("{}".into(), &Vec::new()).unwrap_err(),
        "history has no rollout"
    );
    let mut disk = Disk::new();
    h.attach_rollout(disk.cursor(), Vec::new());
    let request = h.append_runtime("{}".into(), &Vec::new()).unwrap().unwrap();
    assert_eq!(request, Request::Append(Line::Runtime("{}".into())));
    let failed = vec![Reply::AppendFailed { error: "full".into() }];
    assert!(h.append_runtime("{}".into(), &failed).is_err());
    let replies = vec![disk.answer(request)];
    assert_eq!(h.append_runtime("{}".into(), &replies), Ok(None));
}

#[test]
fn the_window_is_only_ever_lowered() {
    let mut h = History::new();
    assert_eq!(h.effective_window(200_000), 200_000);
    h.note_overflow_at(150_000);
    h.note_overflow_at(180_000);
    assert_eq!(h.effective_window(200_000), 150_000);
    assert_eq!(h.effective_window(100_000), 100_000);
}

// --- the inbox ------------------------------------------------------------

fn pending(item: InboxItem, head: &str) -> PendingItem {
    PendingItem {
        item,
        head: head.into(),
        tail: String::new(),
        injected: Some(Injected::Harness),
    }
}

#[test]
fn drain_inbox_offloads_only_large_machine_results() {
    let over = OFFLOAD_CAP_CHARS / 8;
    let large_agent = "agent-result".repeat(over);
    let large_program = "program-result".repeat(over);
    let large_user = "user-text".repeat(over);
    let items = vec![
        pending(
            InboxItem::SubAgentResult {
                label: "agent-1".into(),
                summary: large_agent.clone(),
            },
            "[Agent agent-1]\n",
        ),
        pending(
            InboxItem::ProgramResult {
                label: "program-1".into(),
                run_id: "run-1".into(),
                summary: large_program.clone(),
            },
            "[Program program-1] run run-1\n",
        ),
        PendingItem {
            item: InboxItem::Steer(large_user.clone()),
            head: STEERING_PREFIX.into(),
            tail: String::new(),
            injected: Some(Injected::Steering),
        },
    ];
    let mut disk = Disk::new();
    let mut h = History::new();
    h.stage(text("typed before"));
    disk.run(|replies| h.inject_pending(&items, replies));

    assert_eq!(h.messages().len(), 4);
    assert_eq!(h.messages()[0], text("typed before"));
    assert!(text_of(&h, 1, 0).contains("[Agent agent-1]"));
    assert!(text_of(&h, 1, 0).contains("saved to"));
    assert!(!text_of(&h, 1, 0).contains(&large_agent), "agent body stayed inline");
    assert!(text_of(&h, 2, 0).contains("[Program program-1] run run-1"));
    assert!(text_of(&h, 2, 0).contains("saved to"));
    assert!(!text_of(&h, 2, 0).contains(&large_program), "program body stayed inline");
    assert!(text_of(&h, 3, 0).contains(&large_user), "user steering was truncated");
    assert_eq!(disk.files.len(), 2);
    assert_eq!(steering_body(&text_of(&h, 3, 0)), large_user);
}

const TODO_REMINDER: &str =
    "<system-reminder>\nYour todo list:\n- [in_progress] Ship the reminder\n</system-reminder>";

#[test]
fn a_stale_todo_list_is_reminded_at_the_end_of_history_and_only_at_depth_zero() {
    let remind = |h: &mut History, depth: u8, reminder: Option<&str>| -> bool {
        let list =
            boundary_list(Vec::new(), Vec::new(), depth, reminder.map(str::to_string), None);
        Disk::new().run(|replies| h.inject_pending(&list, replies));
        !list.is_empty()
    };
    let mut h = History::new();
    Disk::new().record(&mut h, text("ship it"));
    let mut child = History::new();
    assert!(!remind(&mut child, 1, Some(TODO_REMINDER)));
    assert!(child.messages().is_empty());

    assert!(!remind(&mut h, 0, None));
    assert_eq!(h.messages().len(), 1);
    assert!(remind(&mut h, 0, Some(TODO_REMINDER)));
    assert_eq!(h.messages().len(), 2);
    let last = h.messages().last().unwrap();
    assert_eq!(last, &Message::injected(Injected::Harness, TODO_REMINDER.into()));
    assert!(text_of(&h, 1, 0).starts_with("<system-reminder>"));
    assert!(text_of(&h, 1, 0).contains("- [in_progress] Ship the reminder"));
    // It does not pass for the user's own words.
    assert_eq!(user_words(last), None);

    assert!(!remind(&mut h, 0, None));
    assert_eq!(h.messages().len(), 2);
}

#[test]
fn a_changed_read_is_named_between_rounds_and_replays_in_place() {
    let reminder = "<system-reminder>\nFiles you read have changed on disk since, whether by a \
command you ran or by someone else. What you saw of them is out of date; read \
again before relying on it:\n- notes.txt\n</system-reminder>";
    let mut disk = Disk::new();
    let mut h = History::new();
    h.attach_rollout(disk.cursor(), Vec::new());
    disk.record(&mut h, text("revise the notes"));
    disk.record(&mut h, tool_results(&[("b1", "done".into())]));
    let list = boundary_list(Vec::new(), Vec::new(), 1, None, Some(reminder.into()));
    disk.run(|replies| h.inject_pending(&list, replies));
    disk.record(&mut h, Message::assistant(vec![ContentBlock::Text { text: "done".into() }]));

    assert_eq!(h.messages().len(), 4);
    assert_eq!(
        h.messages()[2].content,
        vec![ContentBlock::Text { text: reminder.into() }]
    );
    assert!(matches!(
        h.messages()[1].content.as_slice(),
        [ContentBlock::ToolResult { tool_use_id, .. }] if tool_use_id == "b1"
    ));
    assert_eq!(&disk.replayed(), h.messages());
}

#[test]
fn a_boundary_delivers_inbox_mailbox_todos_and_changed_reads_in_order() {
    let steer = pending(InboxItem::Steer("steer".into()), "");
    let peer = pending(InboxItem::Notice("peer".into()), "");
    let large = "todo ".repeat(OFFLOAD_CAP_CHARS);
    let list = boundary_list(
        vec![steer],
        vec![peer],
        0,
        Some(large.clone()),
        Some("changed".into()),
    );
    let mut disk = Disk::new();
    let mut h = History::new();
    h.stage(text("typed"));
    disk.run(|replies| h.inject_pending(&list, replies));
    assert_eq!(h.messages().len(), 5);
    assert_eq!(text_of(&h, 0, 0), "typed");
    assert_eq!(text_of(&h, 1, 0), "steer");
    assert_eq!(text_of(&h, 2, 0), "peer");
    assert!(text_of(&h, 3, 0).contains("saved to"), "an oversized reminder is bounded");
    assert_eq!(disk.stored(&pointer_path(&text_of(&h, 3, 0))), large);
    assert_eq!(text_of(&h, 4, 0), "changed");
}

#[test]
fn nothing_pending_changes_nothing() {
    let mut h = History::new();
    h.stage(text("still staged"));
    assert_eq!(h.inject_pending(&Vec::new(), &Vec::new()), None);
    assert!(h.has_staged());
    assert!(h.messages().is_empty());
}

#[test]
fn scheduled_items_are_told_to_the_front_ends() {
    let fired = scheduled_event(&InboxItem::ScheduledPrompt {
        id: "job-1".into(),
        origin: ScheduledTaskOrigin::LoopWakeup,
        scheduled_for_ms: 42,
        reason: Some("nightly".into()),
        missed: true,
        prompt: "check".into(),
    })
    .unwrap();
    assert_eq!(fired.id, "job-1");
    assert_eq!(fired.origin, ScheduledTaskOrigin::LoopWakeup);
    assert_eq!(fired.status, ScheduledTaskStatus::Fired);
    assert_eq!(fired.scheduled_for_ms, Some(42));
    assert_eq!(fired.reason.as_deref(), Some("nightly"));
    assert_eq!(
        fired.detail.as_deref(),
        Some("missed while inactive; confirmation required")
    );
    let failed = scheduled_event(&InboxItem::SchedulerFailure {
        summary: "store is gone".into(),
    })
    .unwrap();
    assert_eq!(failed.id, "scheduler");
    assert_eq!(failed.status, ScheduledTaskStatus::Failed);
    assert_eq!(failed.detail.as_deref(), Some("store is gone"));
    assert_eq!(scheduled_event(&InboxItem::Notice("bg-1 ended".into())), None);
}

/// What the session file gives back is the conversation after every kind of
/// write.
#[test]
fn the_session_file_gives_the_conversation_back() {
    let mut disk = Disk::new();
    let mut h = History::new();
    h.attach_rollout(disk.cursor(), Vec::new());
    let a = route("a", ProviderApiFamily::Mock, 1);
    open(&mut disk, &mut h, &a);
    h.stage(text("typed"));
    disk.record(&mut h, tool_result(&"x".repeat(OFFLOAD_CAP_CHARS + 1)));
    assert_eq!(&disk.replayed(), h.messages());
    disk.run(|replies| {
        h.record_provider_assistant(answer_with_reasoning(), &a.primary_attempt(), replies)
    });
    assert_eq!(&disk.replayed(), h.messages());
    let items = vec![pending(InboxItem::Notice("bg-1 ended".into()), "")];
    disk.run(|replies| h.inject_pending(&items, replies));
    assert_eq!(&disk.replayed(), h.messages());
    disk.run(|replies| h.replace_all(vec![text("[summary]")], replies));
    h.stage(text("typed again"));
    disk.run(|replies| h.record_turn_terminal(EndReason::Completed.terminal(), replies));
    assert_eq!(&disk.replayed(), h.messages());
    assert_eq!(h.messages(), &vec![text("[summary]"), text("typed again")]);
}

#[test]
fn taking_the_input_back_drops_what_was_staged_behind_it() {
    let mut h = History::new();
    assert_eq!(h.take_input(), None);
    h.stage(text("typed"));
    h.stage(Message::injected(Injected::Hook, "context".into()));
    assert_eq!(h.take_input(), Some(text("typed")));
    assert!(!h.has_staged());
}

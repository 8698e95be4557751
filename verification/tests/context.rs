use kloop_core::commands::context::history_rows;
use kloop_core::commands::context::run;
use kloop_core::commands::context::tool_row;
use kloop_core::commands::context::AsSent;
use kloop_core::commands::context::Row;
use kloop_core::history::History;
use kloop_core::protocol::ContentBlock;
use kloop_core::protocol::Injected;
use kloop_core::protocol::Message;
use kloop_core::protocol::ToolResultContent;
use kloop_core::request::injected_segments;
use kloop_core::request::InjectedParts;
use kloop_core::tokens::ToolDef;

fn tool(name: &str, description_len: usize) -> ToolDef {
    ToolDef {
        name: name.into(),
        description: "d".repeat(description_len),
        schema: "{}".into(),
    }
}

fn nested(label: &str, tokens: u64) -> Row {
    Row {
        label: label.into(),
        tokens,
        detail: String::new(),
        nested: true,
    }
}

#[test]
fn tool_row_names_the_largest_first_and_breaks_ties_by_name() {
    let tools = vec![tool("aa", 36), tool("bb", 76), tool("cc", 36), tool("dd", 116)];
    assert_eq!(
        tool_row(&tools),
        Row {
            label: "tools (4)".into(),
            tokens: 70,
            detail: "  largest: dd ~30, bb ~20, aa ~10".into(),
            nested: false,
        }
    );
}

#[test]
fn history_rows_split_by_block_kind_and_leave_out_empty_kinds() {
    let messages = vec![
        Message::injected(Injected::ContextSummary, "summary".into()),
        Message::user_text("question".into()),
        Message::assistant(vec![
            ContentBlock::Text { text: "answer".into() },
            ContentBlock::ToolUse {
                id: "t1".into(),
                name: "bash".into(),
                input: "{\"command\":\"ls\"}".into(),
            },
        ]),
        Message::tool_results(vec![ContentBlock::ToolResult {
            tool_use_id: "t1".into(),
            content: ToolResultContent::Text("a b c".into()),
            is_error: false,
        }]),
    ];
    let sizes = vec![vec![9], vec![10], vec![11, 12], vec![13]];
    assert_eq!(
        history_rows(&messages, &sizes),
        vec![
            nested("user text", 10),
            nested("injected text", 9),
            nested("assistant text", 11),
            nested("tool calls", 12),
            nested("tool results", 13),
        ]
    );
}

fn recorded(texts: &[&str]) -> History {
    let mut history = History::new();
    for text in texts {
        assert_eq!(history.record(Message::user_text(text.to_string()), &Vec::new()), None);
    }
    history
}

fn sent(texts: &[&str], sizes: &[u64], block_sizes: &[u64]) -> AsSent {
    AsSent {
        messages: texts.iter().map(|text| Message::user_text(text.to_string())).collect(),
        sizes: sizes.to_vec(),
        block_sizes: block_sizes.iter().map(|size| vec![*size]).collect(),
    }
}

#[test]
fn history_is_sized_as_sent_and_measured_as_kept() {
    let mut history = recorded(&["hello"]);
    history.note_usage(1_000);
    assert_eq!(history.record(Message::user_text("a long message".into()), &Vec::new()), None);
    let output = run(
        &history,
        "sys",
        &Vec::new(),
        &Ok(Vec::new()),
        &vec![16, 500],
        &sent(&["hello", "[stub]"], &[16, 20], &[8, 9]),
        None,
    )
    .output;
    let row = |label: &str, tokens: u64, nested: bool| -> String {
        let top = Row::top(label.into(), tokens);
        Row { nested, ..top }.render().trim_start_matches('\n').to_string()
    };
    let lines: Vec<&str> = output.lines().collect();
    assert_eq!(lines[3], row("history (2 messages)", 36, false));
    assert_eq!(lines[4], row("user text", 17, true));
    assert_eq!(lines[5], row("total", 1 + 36, false));
    assert_eq!(
        lines[6],
        "provider-measured: ~1500 tokens (last reported prompt plus what came after)"
    );
}

#[test]
fn run_shows_each_injected_part_and_totals_the_top_level_rows() {
    let history = recorded(&["hello"]);
    let parts = InjectedParts {
        plan_mode: false,
        project_instructions: Some("i".repeat(400)),
        skills_catalog: None,
        deferred_notice: None,
    };
    let tools = Ok(vec![tool("aa", 36), tool("bb", 76)]);
    let output = run(
        &history,
        "sys",
        &injected_segments(&parts, 0),
        &tools,
        &vec![16],
        &sent(&["hello"], &[16], &[8]),
        Some(200_000),
    )
    .output;
    let row = |label: &str, tokens: u64| -> String {
        Row::top(label.into(), tokens)
            .render()
            .trim_start_matches('\n')
            .to_string()
    };
    let lines: Vec<&str> = output.lines().collect();
    assert_eq!(lines[0], "context by segment (estimated):");
    assert_eq!(lines[1], row("system prompt", 1));
    assert_eq!(lines[2], row("project instructions", 100));
    assert!(lines[3].starts_with("  tools ("), "{output}");
    assert_eq!(lines[4], row("history (1 message)", 16));
    assert!(lines[5].starts_with("    user text "), "{output}");
    assert_eq!(lines[6], row("total", 1 + 100 + 30 + 16));
    assert_eq!(lines[7..], ["window: 200000 tokens"]);
    assert_eq!(lines[1], "  system prompt                 ~1");
}

#[test]
fn run_shows_the_provider_measured_size_once_one_exists() {
    let mut history = History::new();
    history.note_usage(12_345);
    let output = run(
        &history,
        "sys",
        &Vec::new(),
        &Ok(Vec::new()),
        &Vec::new(),
        &sent(&[], &[], &[]),
        None,
    )
    .output;
    assert_eq!(
        output.lines().last(),
        Some("provider-measured: ~12345 tokens (last reported prompt plus what came after)")
    );
}

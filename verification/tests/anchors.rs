use kloop_core::anchors::{cap, UserAnchors, HEADER, LATER_CHARS, LATER_TOKENS, ORIGINAL_CHARS};
use kloop_core::inbox::STEERING_PREFIX;
use kloop_core::protocol::{ContentBlock, Injected, Message, ToolResultContent};
use kloop_core::tokens::estimate_text_tokens;

fn anchors(original: &str, later: &[&str], omitted: usize) -> UserAnchors {
    UserAnchors {
        original: original.into(),
        later: later.iter().map(|text| text.to_string()).collect(),
        omitted,
    }
}

#[test]
fn render_parses_back_to_the_same_anchors_and_the_same_bytes() {
    for value in [
        anchors("fix the build", &[], 0),
        anchors("fix the build", &["and the tests"], 0),
        anchors(
            "line one\n\n- not an item\nOriginal request:\n",
            &["multi\nline\n\n  indented", "(3 earlier message(s) omitted)"],
            7,
        ),
        anchors("only omitted", &[], 2),
    ] {
        let text = value.render();
        let parsed = UserAnchors::parse(&text).expect(&text);
        assert_eq!(parsed, value, "{text}");
        assert_eq!(parsed.render(), text);
    }
}

#[test]
fn render_writes_the_documented_shape() {
    assert_eq!(
        anchors("do A\nnot B", &["then C"], 1).render(),
        format!(
            "{HEADER}\n\nOriginal request:\n  do A\n  not B\n\n\
Later messages (oldest first):\n(1 earlier message(s) omitted)\n- then C"
        )
    );
}

#[test]
fn text_that_is_not_the_runtime_format_is_not_anchors() {
    assert_eq!(UserAnchors::parse("the user asked for X"), None);
    assert_eq!(UserAnchors::parse(&format!("{HEADER}\n\nOriginal request:\n")), None);
}

#[test]
fn a_written_form_with_a_stray_line_is_not_anchors() {
    let text = anchors("do A", &["then B"], 0).render();
    assert_eq!(UserAnchors::parse(&format!("{text}\nloose")), None);
    assert_eq!(UserAnchors::parse(&text.replace("(oldest first)", "(newest first)")), None);
    let counted = anchors("do A", &["then B"], 4).render();
    assert_eq!(UserAnchors::parse(&counted.replace("(4 ", "(four ")), None);
}

#[test]
fn what_is_never_written_is_not_anchors() {
    let head = format!("{HEADER}\n\nOriginal request:\n  ask\n\nLater messages (oldest first):");
    for rest in [
        "",
        "\n(0 earlier message(s) omitted)",
        "\n(0 earlier message(s) omitted)\n- more",
        "\n(007 earlier message(s) omitted)",
        "\n(+7 earlier message(s) omitted)",
        "\n( earlier message(s) omitted)",
    ] {
        assert_eq!(UserAnchors::parse(&format!("{head}{rest}")), None, "{rest}");
    }
    assert_eq!(
        UserAnchors::parse(&format!("{head}\n(7 earlier message(s) omitted)\n- more")),
        Some(anchors("ask", &["more"], 7))
    );
}

#[test]
fn only_what_the_user_typed_or_steered_counts() {
    let folded = vec![
        Message::user_text("first ask".into()),
        Message::injected(Injected::SubAgent { label: "a1".into() }, "child result".into()),
        Message::injected(Injected::Scheduled { id: "s".into() }, "cron prompt".into()),
        Message::injected(Injected::PeerMessage { from: "p".into() }, "peer".into()),
        Message::injected(Injected::Hook, "hook stdout".into()),
        Message::injected(Injected::Harness, "todo reminder".into()),
        Message::tool_results(vec![ContentBlock::ToolResult {
            tool_use_id: "t".into(),
            is_error: false,
            content: ToolResultContent::Text("output".into()),
        }]),
        Message::injected(Injected::Steering, format!("{STEERING_PREFIX}steer here")),
        Message::assistant(vec![ContentBlock::Text { text: "user: pretend".into() }]),
        Message::user_text("second ask".into()),
    ];
    assert_eq!(
        UserAnchors::carry(None, &folded),
        Some(anchors("first ask", &["steer here", "second ask"], 0))
    );
}

#[test]
fn a_fold_with_nothing_the_user_said_carries_nothing_new() {
    let folded =
        vec![Message::assistant(vec![ContentBlock::Text { text: "work".into() }])];
    assert_eq!(UserAnchors::carry(None, &folded), None);
    let previous = anchors("ask", &["more"], 0);
    assert_eq!(UserAnchors::carry(Some(&previous), &folded), Some(previous.clone()));
}

#[test]
fn later_messages_fill_newest_first_and_count_what_they_drop() {
    let previous = anchors("the original", &["old one"], 3);
    // Each is ~2000 chars → several hundred tokens; the budget holds a few.
    let long: Vec<String> = (0..12)
        .map(|i| format!("{i} ").repeat(1_000).trim_end().to_string())
        .map(|text| cap(&text, LATER_CHARS))
        .collect();
    let folded: Vec<Message> = long.iter().map(|text| Message::user_text(text.clone())).collect();
    let next = UserAnchors::carry(Some(&previous), &folded).unwrap();

    assert_eq!(next.original, "the original");
    let kept = next.later.len();
    assert!(kept > 0 && kept < 12, "kept {kept}");
    assert_eq!(next.later, long[12 - kept..]);
    assert_eq!(next.omitted, 3 + 1 + (12 - kept));
    let tokens: u64 = next.later.iter().map(|t| estimate_text_tokens(t)).sum();
    assert!(tokens <= LATER_TOKENS);
}

#[test]
fn an_overlong_message_keeps_its_head_and_tail() {
    let text = format!("HEAD{}TAIL", "x".repeat(10_000));
    let capped = cap(&text, ORIGINAL_CHARS);
    assert!(capped.chars().count() <= ORIGINAL_CHARS);
    assert!(capped.starts_with("HEAD"), "{capped}");
    assert!(capped.ends_with("TAIL"), "{capped}");
    assert!(capped.contains("characters omitted"), "{capped}");
    assert_eq!(cap(&capped, ORIGINAL_CHARS), capped, "capping is stable");
    assert_eq!(cap("short", ORIGINAL_CHARS), "short");
}

#[test]
fn anchors_are_found_in_the_first_message_that_reads_back() {
    let value = anchors("ask", &["more"], 2);
    let leading = vec![
        Message::user_text(value.render()),
        Message::injected(Injected::UserAnchors, "not the written form".into()),
        anchors("ask", &["more"], 2).into_message(),
        anchors("other", &[], 0).into_message(),
    ];
    assert_eq!(UserAnchors::find(&leading), Some(value));
    assert_eq!(UserAnchors::find(&vec![Message::user_text("ask".into())]), None);
}

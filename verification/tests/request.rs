use kloop_core::agent::ToolCall;
use kloop_core::history::History;
use kloop_core::protocol::ContentBlock;
use kloop_core::protocol::Message;
use kloop_core::protocol::ToolResultContent;
use kloop_core::request::catalog_verdict;
use kloop_core::request::compose_tools;
use kloop_core::request::context_estimate;
use kloop_core::request::dispatch_structured;
use kloop_core::request::estimate_request;
use kloop_core::request::injected_context;
use kloop_core::request::injected_segments;
use kloop_core::request::ordinary_calls;
use kloop_core::request::request_overhead_tokens;
use kloop_core::request::specialize_run_agent_def;
use kloop_core::request::CatalogVerdict;
use kloop_core::request::InjectedParts;
use kloop_core::request::ToolParts;
use kloop_core::request::CATALOG_TRIES;
use kloop_core::request::ONE_ANSWER;
use kloop_core::request::PLAN_MODE_REMINDER;
use kloop_core::request::STRUCTURED_TOOL;
use kloop_core::tokens::ToolDef;
use serde_json::Value;

fn tool(name: &str) -> ToolDef {
    ToolDef {
        name: name.into(),
        description: format!("the {name} tool"),
        schema: "{}".into(),
    }
}

fn run_agent() -> ToolDef {
    ToolDef {
        name: "run_agent".into(),
        description: "Delegates a task.".into(),
        schema: "{\"type\":\"object\",\"properties\":{\"task\":{\"type\":\"string\"},\"agent_type\":{\"type\":[\"string\",\"null\"]}}}".into(),
    }
}

#[test]
fn run_agent_schema_only_advertises_configured_agent_types() {
    let mut tools = vec![tool("bash"), run_agent()];
    specialize_run_agent_def(&mut tools, &Vec::new(), "");
    let schema: Value = serde_json::from_str(&tools[1].schema).unwrap();
    assert!(schema["properties"].get("agent_type").is_none());
    assert!(schema["properties"].get("task").is_some());
    assert_eq!(tools[0], tool("bash"));

    let mut tools = vec![tool("bash"), run_agent()];
    let names = vec!["researcher".to_string(), "editor".to_string()];
    specialize_run_agent_def(
        &mut tools,
        &names,
        "\nAgent types: researcher (Searches broadly), editor (Edits changes)",
    );
    let schema: Value = serde_json::from_str(&tools[1].schema).unwrap();
    assert_eq!(
        schema["properties"]["agent_type"]["enum"],
        Value::Array(vec![
            Value::Null,
            Value::from("researcher"),
            Value::from("editor"),
        ])
    );
    assert!(tools[1].description.contains("researcher"));
    assert!(tools[1].description.contains("editor"));
    assert!(tools[1].description.starts_with("Delegates a task."));
}

#[test]
fn a_definition_of_another_shape_is_left_alone() {
    let odd = ToolDef {
        schema: "{\"type\":\"object\"}".into(),
        ..run_agent()
    };
    let mut tools = vec![odd.clone()];
    specialize_run_agent_def(&mut tools, &vec!["a".into()], "hint");
    assert_eq!(tools[0].schema, odd.schema);
}

#[test]
fn the_request_overhead_is_added_only_without_an_anchor() {
    let mut history = History::new();
    for text in ["earlier", "earlier reply", "now answer briefly"] {
        history.record(Message::user_text(text.into()), &Vec::new());
    }
    let sizes = vec![17, 19, 20];
    let bare = history.estimated_tokens(&sizes);
    assert_eq!(bare, 56);
    assert_eq!(estimate_request(&history, &sizes, 100), bare + 100);
    history.note_usage(5_000);
    assert_eq!(estimate_request(&history, &sizes, 100), 5_000);
}

fn parts() -> InjectedParts {
    InjectedParts {
        plan_mode: true,
        project_instructions: Some("be brief".into()),
        skills_catalog: Some("skills: a".into()),
        deferred_notice: Some("more tools".into()),
    }
}

#[test]
fn the_injected_parts_come_in_their_order() {
    let list = injected_segments(&parts(), 0);
    let labels: Vec<&str> = list.iter().map(|s| s.label.as_str()).collect();
    assert_eq!(
        labels,
        [
            "plan-mode reminder",
            "project instructions",
            "skills catalog",
            "deferred-tool notice"
        ]
    );
    assert_eq!(
        injected_context(&list),
        Some(format!("{PLAN_MODE_REMINDER}\n\nbe brief\n\nskills: a\n\nmore tools"))
    );
    // A child agent has no skills.
    let of_child = injected_segments(&parts(), 1);
    assert_eq!(of_child.len(), 3);
    assert_eq!(of_child[2].text, "more tools");
    assert_eq!(injected_context(&Vec::new()), None);
}

#[test]
fn the_overhead_is_everything_but_the_history() {
    let tools = vec![ToolDef {
        name: "aa".into(),
        description: "d".repeat(36),
        schema: "{}".into(),
    }];
    assert_eq!(
        request_overhead_tokens("12345", &tools, &Some("x".repeat(400))),
        2 + 10 + 100
    );
    assert_eq!(request_overhead_tokens("", &Vec::new(), &None), 0);

    let mut history = History::new();
    history.record(Message::user_text("hi".into()), &Vec::new());
    let plain = InjectedParts {
        plan_mode: false,
        project_instructions: Some("x".repeat(400)),
        skills_catalog: None,
        deferred_notice: None,
    };
    assert_eq!(
        context_estimate(&history, &vec![15], "12345", &Ok(tools), &plain),
        15 + 112
    );
    // A tool array that could not be built is left out.
    assert_eq!(
        context_estimate(&history, &vec![15], "12345", &Err("gone".into()), &plain),
        15 + 102
    );
}

#[test]
fn a_catalog_that_will_not_hold_still_is_given_up() {
    assert_eq!(catalog_verdict(1, true, true, true), CatalogVerdict::Take);
    assert_eq!(catalog_verdict(1, true, true, false), CatalogVerdict::Again);
    assert_eq!(catalog_verdict(1, false, true, true), CatalogVerdict::Again);
    assert_eq!(catalog_verdict(CATALOG_TRIES, true, false, true), CatalogVerdict::GiveUp);
    assert_eq!(catalog_verdict(CATALOG_TRIES, true, true, true), CatalogVerdict::Take);
}

fn names(tools: &[ToolDef]) -> Vec<&str> {
    tools.iter().map(|t| t.name.as_str()).collect()
}

#[test]
fn the_tool_array_is_composed_for_its_agent() {
    let base = || vec![tool("bash"), tool("read_file"), run_agent()];
    let parts = ToolParts {
        skill_tool: Some(tool("skill")),
        allowlist: None,
        structured_tool: None,
        agent_types: Vec::new(),
        agent_types_hint: String::new(),
    };
    let main = compose_tools(base(), &parts, 0);
    assert_eq!(names(&main), ["bash", "read_file", "run_agent", "skill"]);
    assert!(!main[2].schema.contains("agent_type"));
    let child = compose_tools(base(), &parts, 1);
    assert_eq!(names(&child), ["bash", "read_file", "run_agent"]);

    let restricted = ToolParts {
        skill_tool: Some(tool("skill")),
        allowlist: Some(vec!["bash".into()]),
        structured_tool: Some(tool(STRUCTURED_TOOL)),
        ..parts
    };
    assert_eq!(
        names(&compose_tools(base(), &restricted, 0)),
        ["bash", STRUCTURED_TOOL]
    );
}

fn call(id: &str, name: &str) -> ToolCall {
    ToolCall {
        id: id.into(),
        name: name.into(),
        input: "{}".into(),
    }
}

fn result(id: &str, content: &str, is_error: bool) -> ContentBlock {
    ContentBlock::ToolResult {
        tool_use_id: id.into(),
        content: ToolResultContent::Text(content.into()),
        is_error,
    }
}

#[test]
fn structured_calls_are_answered_in_the_order_of_the_response() {
    let calls = vec![
        call("a", "bash"),
        call("b", STRUCTURED_TOOL),
        call("c", "read_file"),
        call("d", STRUCTURED_TOOL),
    ];
    let ordinary = ordinary_calls(&calls);
    assert_eq!(ordinary.len(), 2);
    assert_eq!(ordinary[1].id, "c");
    let dispatched = vec![result("a", "ran", false), result("c", "read", false)];

    // Two answers in one response: the first that fits is taken.
    let verdicts = vec![
        Err(String::new()),
        Ok("{\"n\":1}".to_string()),
        Err(String::new()),
        Ok("{\"n\":2}".to_string()),
    ];
    let (blocks, value) = dispatch_structured(&calls, &verdicts, &dispatched, "accepted");
    assert_eq!(value.as_deref(), Some("{\"n\":1}"));
    assert_eq!(
        blocks,
        vec![
            result("a", "ran", false),
            result("b", "accepted", false),
            result("c", "read", false),
            result("d", ONE_ANSWER, true),
        ]
    );

    // One answer that fits.
    let one: Vec<ToolCall> = vec![call("a", "bash"), call("b", STRUCTURED_TOOL)];
    let (blocks, value) = dispatch_structured(
        &one,
        &vec![Err(String::new()), Ok("{\"n\":1}".to_string())],
        &vec![result("a", "ran", false)],
        "accepted",
    );
    assert_eq!(value.as_deref(), Some("{\"n\":1}"));
    assert_eq!(
        blocks,
        vec![result("a", "ran", false), result("b", "accepted", false)]
    );

    // One that does not.
    let (blocks, value) = dispatch_structured(
        &vec![call("b", STRUCTURED_TOOL)],
        &vec![Err("n is missing".to_string())],
        &Vec::new(),
        "accepted",
    );
    assert_eq!(value, None);
    assert!(matches!(
        &blocks[0],
        ContentBlock::ToolResult { content: ToolResultContent::Text(t), is_error: true, .. }
            if t.contains("n is missing")
    ));
}

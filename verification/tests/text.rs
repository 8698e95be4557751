use kloop_core::agent::Usage;
use kloop_core::digest::hex_text;
use kloop_core::paths::comes_before;
use kloop_core::paths::key_of;
use kloop_core::protocol::ContentBlock;
use kloop_core::protocol::ProviderApiFamily;
use kloop_core::protocol::ReasoningEffort;
use kloop_core::protocol::ToolResultContent;
use kloop_core::request_view::has_reasoning;
use kloop_core::request_view::strip_reasoning;
use kloop_core::text::decimal_text;
use kloop_core::text::has_prefix;
use kloop_core::text::is_blank;
use kloop_core::text::is_white_space;
use kloop_core::text::joined;
use kloop_core::text::lowered;
use kloop_core::text::parse_number;
use kloop_core::text::split_at_char;
use kloop_core::text::strip_prefix;
use kloop_core::text::strip_suffix;
use kloop_core::text::trimmed;
use kloop_core::text::words_of;
use kloop_core::usage::aggregate;
use kloop_core::usage::grouped;
use kloop_core::usage::ProviderUsageRecord;
use kloop_core::usage::UsageOperation;
use kloop_core::usage::UsageOverflow;
use std::path::Path;

#[test]
fn white_space_is_what_the_standard_library_says() {
    for c in '\0'..=char::MAX {
        assert_eq!(is_white_space(c), c.is_whitespace(), "{:x}", c as u32);
    }
}

#[test]
fn texts_are_trimmed_split_and_joined_as_the_standard_library_does() {
    for t in ["", " ", "a", " a b ", "\u{3000}x\u{a0}", "看 一眼\n", "a,b,,c", ",", "A bC"] {
        assert_eq!(trimmed(t), t.trim());
        assert_eq!(is_blank(t), t.trim().is_empty());
        assert_eq!(split_at_char(t, ','), t.split(',').collect::<Vec<_>>());
        assert_eq!(words_of(t), t.split_whitespace().collect::<Vec<_>>());
        assert_eq!(joined(&split_at_char(t, ','), ","), t);
        assert_eq!(has_prefix(t, " a"), t.starts_with(" a"));
        assert_eq!(strip_prefix(t, "a").as_deref(), t.strip_prefix("a"));
        assert_eq!(strip_suffix(t, "c").as_deref(), t.strip_suffix("c"));
        assert_eq!(lowered(t), t.to_ascii_lowercase());
    }
}

#[test]
fn numbers_are_read_and_written_as_the_standard_library_does() {
    for n in [0, 7, 10, 99, 100, 12_345, u64::MAX] {
        assert_eq!(decimal_text(n), n.to_string());
        assert_eq!(parse_number(&n.to_string(), u64::MAX), Some(n));
    }
    for t in ["", "+", "+7", "007", "-1", "1x", " 1", "18446744073709551616", "٣"] {
        assert_eq!(parse_number(t, u64::MAX), t.parse::<u64>().ok(), "{t}");
    }
    assert_eq!(parse_number("256", 255), None);
}

#[test]
fn path_keys_tell_paths_apart_as_the_standard_library_does() {
    let paths = ["/a", "/a/", "/a/b", "/a//b", "/a/./b", "/a/../b", "a", "./a", "/", "", "/aa", "/a b"];
    for a in paths {
        for b in paths {
            assert_eq!(key_of(a) == key_of(b), Path::new(a) == Path::new(b), "{a} {b}");
            assert_eq!(
                comes_before(&key_of(a), &key_of(b)),
                Path::new(a) < Path::new(b),
                "{a} {b}"
            );
        }
    }
}

#[test]
fn bytes_in_hexadecimal() {
    assert_eq!(hex_text(&vec![0, 9, 10, 0xab, 0xff]), "00090aabff");
    assert_eq!(hex_text(&Vec::new()), "");
}

#[test]
fn effort_names_are_read_back() {
    for effort in ReasoningEffort::all() {
        assert_eq!(ReasoningEffort::named(effort.as_str()), Some(effort));
    }
    assert_eq!(ReasoningEffort::named("enormous"), None);
}

#[test]
fn reasoning_is_stripped_at_every_depth() {
    let thinking = ContentBlock::Thinking {
        thinking: "t".into(),
        signature: "s".into(),
    };
    let words = ContentBlock::Text { text: "words".into() };
    let nested = ContentBlock::ToolResult {
        tool_use_id: "t1".into(),
        content: ToolResultContent::Blocks(vec![thinking.clone(), words.clone()]),
        is_error: false,
    };
    let content = vec![
        ContentBlock::RedactedThinking { data: "d".into() },
        nested,
        words.clone(),
    ];
    assert!(has_reasoning(&content));
    let left = strip_reasoning(&content);
    assert!(!has_reasoning(&left));
    assert_eq!(
        left,
        vec![
            ContentBlock::ToolResult {
                tool_use_id: "t1".into(),
                content: ToolResultContent::Blocks(vec![words.clone()]),
                is_error: false,
            },
            words,
        ]
    );
}

fn record(provider: &str, input: u64, cached: u64) -> ProviderUsageRecord {
    ProviderUsageRecord {
        provider_id: provider.into(),
        api_family: ProviderApiFamily::Mock,
        route_revision: 1,
        model: "m".into(),
        operation: UsageOperation::Sampling,
        usage: Usage {
            input_tokens: input,
            output_tokens: 1,
            cache_read_input_tokens: cached,
            cache_creation_input_tokens: 0,
        },
    }
}

#[test]
fn usage_is_summed_by_provider_and_model() {
    assert_eq!(aggregate(&Vec::new()), Ok(None));
    let records = vec![record("a", 1, 2), record("b", 10, 0), record("a", 3, 4)];
    let total = aggregate(&records).unwrap().unwrap();
    assert_eq!(total.reported_responses, 3);
    assert_eq!(total.usage.prompt_tokens(), 20);
    assert_eq!(total.usage.output_tokens, 3);
    let groups = grouped(&records).unwrap();
    assert_eq!(groups.len(), 2);
    assert_eq!(groups[0].provider_id, "a");
    assert_eq!(groups[0].aggregate.usage.input_tokens, 4);
    assert_eq!(groups[1].aggregate.reported_responses, 1);
    let much = vec![record("a", u64::MAX, 0), record("a", 1, 0)];
    assert_eq!(aggregate(&much), Err(UsageOverflow));
    assert_eq!(grouped(&much), Err(UsageOverflow));
}

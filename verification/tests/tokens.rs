use kloop_core::protocol::ContentBlock;
use kloop_core::protocol::ImageSource;
use kloop_core::tokens::estimate_message_tokens;
use kloop_core::tokens::estimate_text_tokens;
use kloop_core::tokens::estimate_tool_def_tokens;
use kloop_core::tokens::TokenCounter;
use kloop_core::tokens::ToolDef;

#[test]
fn the_estimate_counts_ascii_by_the_quarter_and_other_characters_whole() {
    assert_eq!(estimate_text_tokens(""), 0);
    assert_eq!(estimate_text_tokens("abcd"), 1);
    assert_eq!(estimate_text_tokens("abcde"), 2);
    assert_eq!(estimate_text_tokens("看一眼"), 3);
    assert_eq!(estimate_text_tokens("ls 看一眼"), 1 + 3);
    assert_eq!(estimate_text_tokens("🙂"), 1);
}

#[test]
fn a_character_split_across_writes_is_counted_once() {
    let bytes = "看".as_bytes();
    let mut counter = TokenCounter::default();
    counter.write(&bytes[..1]);
    counter.write(&bytes[1..]);
    assert_eq!(counter.tokens(), 1);
}

/// What a user message of a text and an image serializes to.
fn message_form(text: &str, block: &ContentBlock) -> String {
    let ContentBlock::Image {
        source: ImageSource::Base64 { media_type, data },
    } = block
    else {
        panic!("an image");
    };
    format!(
        "{{\"content\":[{{\"text\":\"{text}\",\"type\":\"text\"}},{{\"source\":{{\"data\":\"{data}\",\"media_type\":\"{media_type}\",\"type\":\"base64\"}},\"type\":\"image\"}}],\"role\":\"user\"}}"
    )
}

#[test]
fn ascii_messages_keep_the_bytes_over_four_estimate() {
    let block = ContentBlock::Image {
        source: ImageSource::Base64 {
            media_type: "image/png".into(),
            data: "iVBORw0KGgo".repeat(100),
        },
    };
    let json = message_form("look at this", &block);
    let bytes = json.len() as u64;
    assert_eq!(
        estimate_message_tokens(Some(json.as_bytes())),
        bytes.div_ceil(4)
    );
    assert_eq!(estimate_message_tokens(None), 0);
}

#[test]
fn a_tool_is_estimated_by_its_compact_schema() {
    let tool = |schema: &str| ToolDef {
        name: "aa".into(),
        description: "d".repeat(36),
        schema: schema.into(),
    };
    assert_eq!(estimate_tool_def_tokens(&tool("{}")), 10);
    assert_eq!(estimate_tool_def_tokens(&tool(" {\n } ")), 10);
    // A schema that is not JSON counts nothing.
    assert_eq!(estimate_tool_def_tokens(&tool("{")), 10);
    assert_eq!(
        estimate_tool_def_tokens(&tool("{ \"type\" : \"object\" }")),
        (2u64 + 36 + 17).div_ceil(4)
    );
}

//! Conversation messages and the provider routes that produced them.

use vstd::prelude::*;

use crate::text;

verus! {

/// Who speaks a message.
#[derive(Clone, Copy, Debug, PartialEq, Eq, Structural)]
pub enum Role {
    User,
    Assistant,
}

/// The wire protocol that a provider endpoint speaks.
#[derive(Clone, Copy, Debug, PartialEq, Eq, Structural)]
pub enum ProviderApiFamily {
    AnthropicMessages,
    OpenAiChatCompletions,
    OpenAiResponses,
    Mock,
}

/// Why a route revision was written.
#[derive(Clone, Copy, Debug, PartialEq, Eq, Structural)]
pub enum ProviderRouteSource {
    Initial,
    ExplicitSwitch,
    Reopened,
}

/// What a route change cost the earlier reasoning.
#[derive(Clone, Copy, Debug, PartialEq, Eq, Structural)]
pub enum ReasoningContinuity {
    Preserved,
    Filtered,
}

/// How hard the model is asked to think.
#[derive(Clone, Copy, Debug, PartialEq, Eq, Structural)]
pub enum ReasoningEffort {
    Disabled,
    Low,
    Medium,
    High,
    XHigh,
    Max,
}

/// Where an image block's bytes are.
#[derive(Debug, PartialEq, Eq)]
pub enum ImageSource {
    Base64 { media_type: String, data: String },
}

/// What a tool call gave back.
#[derive(Debug, PartialEq, Eq)]
pub enum ToolResultContent {
    Text(String),
    Blocks(Vec<ContentBlock>),
}

/// One block of a message. A tool call's `input` is its JSON text.
#[derive(Debug, PartialEq, Eq)]
pub enum ContentBlock {
    Text { text: String },
    Thinking { thinking: String, signature: String },
    RedactedThinking { data: String },
    Image { source: ImageSource },
    ToolUse { id: String, name: String, input: String },
    ToolResult { tool_use_id: String, content: ToolResultContent, is_error: bool },
}

/// Why the harness, not the user, put a user-role message into the
/// conversation.
#[derive(Debug, PartialEq, Eq)]
pub enum Injected {
    Steering,
    SubAgent { label: String },
    Scheduled { id: String },
    PeerMessage { from: String },
    Hook,
    Harness,
    UserAnchors,
    ContextSummary,
    DroppedPrefix,
    RestoredFiles,
}

/// The route attempt that produced an assistant message.
#[derive(Debug, PartialEq, Eq)]
pub struct ProviderResponseProvenance {
    pub route_revision: u64,
    pub route_boundary: u64,
    pub provider_id: String,
    pub api_family: ProviderApiFamily,
    pub endpoint_fingerprint: String,
    pub model: String,
}

/// One message of the conversation.
#[derive(Debug, PartialEq, Eq)]
pub struct Message {
    pub role: Role,
    pub content: Vec<ContentBlock>,
    pub provider_provenance: Option<ProviderResponseProvenance>,
    pub injected: Option<Injected>,
}

// ---------------------------------------------------------------------------
// Models
// ---------------------------------------------------------------------------

/// The mathematical content of a tool result.
#[verifier::ext_equal]
pub enum ResultView {
    Text(Seq<char>),
    Blocks(Seq<BlockView>),
}

/// The mathematical content of a block.
#[verifier::ext_equal]
pub enum BlockView {
    Text { text: Seq<char> },
    Thinking { thinking: Seq<char>, signature: Seq<char> },
    RedactedThinking { data: Seq<char> },
    Image { media_type: Seq<char>, data: Seq<char> },
    ToolUse { id: Seq<char>, name: Seq<char>, input: Seq<char> },
    ToolResult { tool_use_id: Seq<char>, content: ResultView, is_error: bool },
}

/// The mathematical content of an injection kind.
#[verifier::ext_equal]
pub enum InjectedView {
    Steering,
    SubAgent { label: Seq<char> },
    Scheduled { id: Seq<char> },
    PeerMessage { from: Seq<char> },
    Hook,
    Harness,
    UserAnchors,
    ContextSummary,
    DroppedPrefix,
    RestoredFiles,
}

/// The mathematical content of a provenance record.
#[verifier::ext_equal]
pub struct ProvenanceView {
    pub route_revision: u64,
    pub route_boundary: u64,
    pub provider_id: Seq<char>,
    pub api_family: ProviderApiFamily,
    pub endpoint_fingerprint: Seq<char>,
    pub model: Seq<char>,
}

/// The mathematical content of a message.
#[verifier::ext_equal]
pub struct MessageView {
    pub role: Role,
    pub content: Seq<BlockView>,
    pub provenance: Option<ProvenanceView>,
    pub injected: Option<InjectedView>,
}

impl ContentBlock {
    pub open spec fn model(self) -> BlockView
        decreases self,
    {
        match self {
            ContentBlock::Text { text } => BlockView::Text { text: text@ },
            ContentBlock::Thinking { thinking, signature } => BlockView::Thinking {
                thinking: thinking@,
                signature: signature@,
            },
            ContentBlock::RedactedThinking { data } => BlockView::RedactedThinking { data: data@ },
            ContentBlock::Image { source: ImageSource::Base64 { media_type, data } } =>
                BlockView::Image { media_type: media_type@, data: data@ },
            ContentBlock::ToolUse { id, name, input } => BlockView::ToolUse {
                id: id@,
                name: name@,
                input: input@,
            },
            ContentBlock::ToolResult { tool_use_id, content, is_error } => BlockView::ToolResult {
                tool_use_id: tool_use_id@,
                content: content.model(),
                is_error,
            },
        }
    }
}

impl ToolResultContent {
    pub open spec fn model(self) -> ResultView
        decreases self,
    {
        match self {
            ToolResultContent::Text(text) => ResultView::Text(text@),
            ToolResultContent::Blocks(blocks) => ResultView::Blocks(
                Seq::new(
                    blocks@.len(),
                    |i: int|
                        if 0 <= i < blocks@.len() {
                            blocks@[i].model()
                        } else {
                            arbitrary()
                        },
                ),
            ),
        }
    }
}

impl View for ContentBlock {
    type V = BlockView;

    open spec fn view(&self) -> BlockView {
        self.model()
    }
}

impl View for ToolResultContent {
    type V = ResultView;

    open spec fn view(&self) -> ResultView {
        self.model()
    }
}

impl View for Injected {
    type V = InjectedView;

    open spec fn view(&self) -> InjectedView {
        match self {
            Injected::Steering => InjectedView::Steering,
            Injected::SubAgent { label } => InjectedView::SubAgent { label: label@ },
            Injected::Scheduled { id } => InjectedView::Scheduled { id: id@ },
            Injected::PeerMessage { from } => InjectedView::PeerMessage { from: from@ },
            Injected::Hook => InjectedView::Hook,
            Injected::Harness => InjectedView::Harness,
            Injected::UserAnchors => InjectedView::UserAnchors,
            Injected::ContextSummary => InjectedView::ContextSummary,
            Injected::DroppedPrefix => InjectedView::DroppedPrefix,
            Injected::RestoredFiles => InjectedView::RestoredFiles,
        }
    }
}

impl View for ProviderResponseProvenance {
    type V = ProvenanceView;

    open spec fn view(&self) -> ProvenanceView {
        ProvenanceView {
            route_revision: self.route_revision,
            route_boundary: self.route_boundary,
            provider_id: self.provider_id@,
            api_family: self.api_family,
            endpoint_fingerprint: self.endpoint_fingerprint@,
            model: self.model@,
        }
    }
}

impl View for Message {
    type V = MessageView;

    open spec fn view(&self) -> MessageView {
        MessageView {
            role: self.role,
            content: blocks(self.content@),
            provenance: opt(self.provider_provenance),
            injected: opt(self.injected),
        }
    }
}

/// The view of an optional value.
pub open spec fn opt<T: View>(value: Option<T>) -> Option<T::V> {
    match value {
        Some(inner) => Some(inner@),
        None => None,
    }
}

/// The view of a list of blocks.
pub open spec fn blocks(v: Seq<ContentBlock>) -> Seq<BlockView> {
    v.map_values(|b: ContentBlock| b@)
}

/// The view of a list of messages.
pub open spec fn messages(v: Seq<Message>) -> Seq<MessageView> {
    v.map_values(|m: Message| m@)
}

/// A message holding one text block.
pub open spec fn text_message(role: Role, text: Seq<char>, injected: Option<InjectedView>) -> MessageView {
    MessageView { role, content: seq![BlockView::Text { text }], provenance: None, injected }
}

// ---------------------------------------------------------------------------
// Clones with contracts
// ---------------------------------------------------------------------------

impl Clone for ImageSource {
    fn clone(&self) -> (r: Self)
        ensures
            r == *self,
    {
        match self {
            ImageSource::Base64 { media_type, data } => ImageSource::Base64 {
                media_type: media_type.clone(),
                data: data.clone(),
            },
        }
    }
}

impl Clone for ContentBlock {
    fn clone(&self) -> (r: Self)
        ensures
            r@ == self@,
        decreases self,
    {
        match self {
            ContentBlock::Text { text } => ContentBlock::Text { text: text.clone() },
            ContentBlock::Thinking { thinking, signature } => ContentBlock::Thinking {
                thinking: thinking.clone(),
                signature: signature.clone(),
            },
            ContentBlock::RedactedThinking { data } => ContentBlock::RedactedThinking {
                data: data.clone(),
            },
            ContentBlock::Image { source } => ContentBlock::Image { source: source.clone() },
            ContentBlock::ToolUse { id, name, input } => ContentBlock::ToolUse {
                id: id.clone(),
                name: name.clone(),
                input: input.clone(),
            },
            ContentBlock::ToolResult { tool_use_id, content, is_error } => ContentBlock::ToolResult {
                tool_use_id: tool_use_id.clone(),
                content: content.clone(),
                is_error: *is_error,
            },
        }
    }
}

impl Clone for ToolResultContent {
    fn clone(&self) -> (r: Self)
        ensures
            r@ == self@,
        decreases self,
    {
        match self {
            ToolResultContent::Text(text) => ToolResultContent::Text(text.clone()),
            ToolResultContent::Blocks(inner) => {
                let mut out: Vec<ContentBlock> = Vec::new();
                let mut i: usize = 0;
                while i < inner.len()
                    invariant
                        i <= inner.len(),
                        out.len() == i,
                        forall|k: int| 0 <= k < i ==> out@[k]@ == #[trigger] inner@[k]@,
                        *self == ToolResultContent::Blocks(*inner),
                    decreases inner.len() - i,
                {
                    proof {
                        assert(decreases_to!(*self => self->Blocks_0@[i as int]));
                    }
                    out.push(inner[i].clone());
                    i += 1;
                }
                let ghost copied = out@;
                let r = ToolResultContent::Blocks(out);
                proof {
                    reveal_with_fuel(ContentBlock::model, 2);
                    assert forall|k: int| 0 <= k < inner@.len() implies #[trigger] r@->Blocks_0[k]
                        == self@->Blocks_0[k] by {
                        assert(copied[k]@ == inner@[k]@);
                    }
                    assert(r@->Blocks_0 =~= self@->Blocks_0);
                }
                r
            },
        }
    }
}

impl Clone for Injected {
    fn clone(&self) -> (r: Self)
        ensures
            r@ == self@,
    {
        match self {
            Injected::Steering => Injected::Steering,
            Injected::SubAgent { label } => Injected::SubAgent { label: label.clone() },
            Injected::Scheduled { id } => Injected::Scheduled { id: id.clone() },
            Injected::PeerMessage { from } => Injected::PeerMessage { from: from.clone() },
            Injected::Hook => Injected::Hook,
            Injected::Harness => Injected::Harness,
            Injected::UserAnchors => Injected::UserAnchors,
            Injected::ContextSummary => Injected::ContextSummary,
            Injected::DroppedPrefix => Injected::DroppedPrefix,
            Injected::RestoredFiles => Injected::RestoredFiles,
        }
    }
}

impl Clone for ProviderResponseProvenance {
    fn clone(&self) -> (r: Self)
        ensures
            r@ == self@,
    {
        ProviderResponseProvenance {
            route_revision: self.route_revision,
            route_boundary: self.route_boundary,
            provider_id: self.provider_id.clone(),
            api_family: self.api_family,
            endpoint_fingerprint: self.endpoint_fingerprint.clone(),
            model: self.model.clone(),
        }
    }
}

/// A copy of a list of blocks.
pub fn clone_blocks(v: &Vec<ContentBlock>) -> (r: Vec<ContentBlock>)
    ensures
        blocks(r@) == blocks(v@),
{
    let mut out: Vec<ContentBlock> = Vec::new();
    let mut i: usize = 0;
    while i < v.len()
        invariant
            i <= v.len(),
            out.len() == i,
            forall|k: int| 0 <= k < i ==> out@[k]@ == #[trigger] v@[k]@,
        decreases v.len() - i,
    {
        out.push(v[i].clone());
        i += 1;
    }
    proof {
        assert(blocks(out@) =~= blocks(v@));
    }
    out
}

impl Clone for Message {
    fn clone(&self) -> (r: Self)
        ensures
            r@ == self@,
    {
        Message {
            role: self.role,
            content: clone_blocks(&self.content),
            provider_provenance: match &self.provider_provenance {
                Some(p) => Some(p.clone()),
                None => None,
            },
            injected: match &self.injected {
                Some(i) => Some(i.clone()),
                None => None,
            },
        }
    }
}

/// A copy of a list of messages.
pub fn clone_messages(v: &Vec<Message>) -> (r: Vec<Message>)
    ensures
        messages(r@) == messages(v@),
{
    let mut out: Vec<Message> = Vec::new();
    let mut i: usize = 0;
    while i < v.len()
        invariant
            i <= v.len(),
            out.len() == i,
            forall|k: int| 0 <= k < i ==> out@[k]@ == #[trigger] v@[k]@,
        decreases v.len() - i,
    {
        out.push(v[i].clone());
        i += 1;
    }
    proof {
        assert(messages(out@) =~= messages(v@));
    }
    out
}

// ---------------------------------------------------------------------------
// Constructors
// ---------------------------------------------------------------------------

impl Message {
    /// What the user typed.
    pub fn user_text(text: String) -> (r: Self)
        ensures
            r@ == text_message(Role::User, text@, None),
    {
        let content = vec![ContentBlock::Text { text }];
        let r = Message { role: Role::User, content, provider_provenance: None, injected: None };
        proof {
            assert(r@.content =~= seq![BlockView::Text { text: text@ }]);
        }
        r
    }

    /// A user-role message the harness put into the conversation.
    pub fn injected(kind: Injected, text: String) -> (r: Self)
        ensures
            r@ == text_message(Role::User, text@, Some(kind@)),
    {
        let content = vec![ContentBlock::Text { text }];
        let r = Message {
            role: Role::User,
            content,
            provider_provenance: None,
            injected: Some(kind),
        };
        proof {
            assert(r@.content =~= seq![BlockView::Text { text: text@ }]);
        }
        r
    }

    /// A user message of blocks after a text.
    pub fn user_with_blocks(text: String, more: Vec<ContentBlock>) -> (r: Self)
        ensures
            r@ == (MessageView {
                role: Role::User,
                content: seq![BlockView::Text { text: text@ }] + blocks(more@),
                provenance: None,
                injected: None,
            }),
    {
        let mut content = vec![ContentBlock::Text { text }];
        let mut rest = more;
        content.append(&mut rest);
        let r = Message { role: Role::User, content, provider_provenance: None, injected: None };
        proof {
            assert(r@.content =~= seq![BlockView::Text { text: text@ }] + blocks(more@));
        }
        r
    }

    /// One round's tool results.
    pub fn tool_results(content: Vec<ContentBlock>) -> (r: Self)
        ensures
            r@ == (MessageView {
                role: Role::User,
                content: blocks(content@),
                provenance: None,
                injected: None,
            }),
    {
        Message { role: Role::User, content, provider_provenance: None, injected: None }
    }

    /// An assistant message without provenance.
    pub fn assistant(content: Vec<ContentBlock>) -> (r: Self)
        ensures
            r@ == (MessageView {
                role: Role::Assistant,
                content: blocks(content@),
                provenance: None,
                injected: None,
            }),
    {
        Message { role: Role::Assistant, content, provider_provenance: None, injected: None }
    }

    /// An assistant message that a provider produced.
    pub fn assistant_from_provider(
        content: Vec<ContentBlock>,
        provenance: ProviderResponseProvenance,
    ) -> (r: Self)
        ensures
            r@ == (MessageView {
                role: Role::Assistant,
                content: blocks(content@),
                provenance: Some(provenance@),
                injected: None,
            }),
    {
        Message {
            role: Role::Assistant,
            content,
            provider_provenance: Some(provenance),
            injected: None,
        }
    }
}

// ---------------------------------------------------------------------------
// Reasoning effort
// ---------------------------------------------------------------------------

/// How a level is spelled.
pub open spec fn effort_name(effort: ReasoningEffort) -> Seq<char> {
    match effort {
        ReasoningEffort::Disabled => "none"@,
        ReasoningEffort::Low => "low"@,
        ReasoningEffort::Medium => "medium"@,
        ReasoningEffort::High => "high"@,
        ReasoningEffort::XHigh => "xhigh"@,
        ReasoningEffort::Max => "max"@,
    }
}

/// How a choice of level is spelled: `unset` sends no effort field at all.
pub open spec fn choice_name(choice: Option<ReasoningEffort>) -> Seq<char> {
    match choice {
        Some(effort) => effort_name(effort),
        None => "unset"@,
    }
}

/// All levels, from none to most.
pub open spec fn all_efforts() -> Seq<ReasoningEffort> {
    seq![
        ReasoningEffort::Disabled,
        ReasoningEffort::Low,
        ReasoningEffort::Medium,
        ReasoningEffort::High,
        ReasoningEffort::XHigh,
        ReasoningEffort::Max,
    ]
}

/// The level that a name spells, whatever the case of its letters.
pub open spec fn effort_named(raw: Seq<char>) -> Option<ReasoningEffort> {
    let name = text::lower(raw);
    if name == "none"@ {
        Some(ReasoningEffort::Disabled)
    } else if name == "low"@ {
        Some(ReasoningEffort::Low)
    } else if name == "medium"@ {
        Some(ReasoningEffort::Medium)
    } else if name == "high"@ {
        Some(ReasoningEffort::High)
    } else if name == "xhigh"@ {
        Some(ReasoningEffort::XHigh)
    } else if name == "max"@ {
        Some(ReasoningEffort::Max)
    } else {
        None
    }
}

/// The names of levels.
pub open spec fn effort_names(list: Seq<ReasoningEffort>) -> Seq<Seq<char>> {
    list.map_values(|e: ReasoningEffort| effort_name(e))
}

impl ReasoningEffort {
    /// How the level is spelled.
    pub fn as_str(&self) -> (r: &'static str)
        ensures
            r@ == effort_name(*self),
    {
        match self {
            ReasoningEffort::Disabled => "none",
            ReasoningEffort::Low => "low",
            ReasoningEffort::Medium => "medium",
            ReasoningEffort::High => "high",
            ReasoningEffort::XHigh => "xhigh",
            ReasoningEffort::Max => "max",
        }
    }

    /// How a choice of level is spelled.
    pub fn choice_str(choice: Option<ReasoningEffort>) -> (r: &'static str)
        ensures
            r@ == choice_name(choice),
    {
        match choice {
            Some(effort) => effort.as_str(),
            None => "unset",
        }
    }

    /// The level that a name spells.
    pub fn named(raw: &str) -> (r: Option<Self>)
        ensures
            r == effort_named(raw@),
    {
        let name = text::lowered(raw);
        if text::same(name.as_str(), "none") {
            Some(ReasoningEffort::Disabled)
        } else if text::same(name.as_str(), "low") {
            Some(ReasoningEffort::Low)
        } else if text::same(name.as_str(), "medium") {
            Some(ReasoningEffort::Medium)
        } else if text::same(name.as_str(), "high") {
            Some(ReasoningEffort::High)
        } else if text::same(name.as_str(), "xhigh") {
            Some(ReasoningEffort::XHigh)
        } else if text::same(name.as_str(), "max") {
            Some(ReasoningEffort::Max)
        } else {
            None
        }
    }

    /// All levels, from none to most.
    pub fn all() -> (r: Vec<Self>)
        ensures
            r@ == all_efforts(),
    {
        vec![
            ReasoningEffort::Disabled,
            ReasoningEffort::Low,
            ReasoningEffort::Medium,
            ReasoningEffort::High,
            ReasoningEffort::XHigh,
            ReasoningEffort::Max,
        ]
    }

    /// The names of levels, separated by commas.
    pub fn join(list: &Vec<Self>) -> (r: String)
        ensures
            r@ == text::join(effort_names(list@), ", "@),
    {
        let mut names: Vec<String> = Vec::new();
        let mut i: usize = 0;
        proof {
            assert(text::texts(names@) =~= effort_names(list@.take(0)));
        }
        while i < list.len()
            invariant
                i <= list@.len(),
                text::texts(names@) == effort_names(list@.take(i as int)),
            decreases list@.len() - i,
        {
            text::push_text(&mut names, list[i].as_str().to_owned());
            i += 1;
            proof {
                assert(text::texts(names@) =~= effort_names(list@.take(i as int)));
            }
        }
        proof {
            assert(list@.take(i as int) =~= list@);
        }
        text::joined(&names, ", ")
    }
}

/// A level's own spelling names it.
pub proof fn law_effort_names_read_back(effort: ReasoningEffort)
    ensures
        effort_named(effort_name(effort)) == Some(effort),
{
    reveal_strlit("none");
    reveal_strlit("low");
    reveal_strlit("medium");
    reveal_strlit("high");
    reveal_strlit("xhigh");
    reveal_strlit("max");
    let name = effort_name(effort);
    assert(text::lower(name) =~= name);
    assert("none"@[0] == 'n' && "none"@.len() == 4);
    assert("low"@[0] == 'l' && "low"@.len() == 3);
    assert("medium"@.len() == 6);
    assert("high"@[0] == 'h' && "high"@.len() == 4);
    assert("xhigh"@.len() == 5);
    assert("max"@[0] == 'm' && "max"@.len() == 3);
}

/// An effort goes by its name in any case, and by nothing else.
pub proof fn law_an_effort_goes_by_its_name(raw: Seq<char>, effort: ReasoningEffort)
    ensures
        effort_named(raw) == Some(effort) <==> text::lower(raw) == (match effort {
            ReasoningEffort::Disabled => "none"@,
            ReasoningEffort::Low => "low"@,
            ReasoningEffort::Medium => "medium"@,
            ReasoningEffort::High => "high"@,
            ReasoningEffort::XHigh => "xhigh"@,
            ReasoningEffort::Max => "max"@,
        }),
        effort_named(raw) is None <==> text::lower(raw) != "none"@ && text::lower(raw) != "low"@
            && text::lower(raw) != "medium"@ && text::lower(raw) != "high"@ && text::lower(raw)
            != "xhigh"@ && text::lower(raw) != "max"@,
        choice_name(None) == "unset"@,
        all_efforts().contains(effort),
{
    reveal_strlit("none");
    reveal_strlit("low");
    reveal_strlit("medium");
    reveal_strlit("high");
    reveal_strlit("xhigh");
    reveal_strlit("max");
    assert("none"@[0] == 'n' && "low"@[0] == 'l' && "medium"@[0] == 'm' && "high"@[0] == 'h'
        && "xhigh"@[0] == 'x' && "max"@[0] == 'm');
    assert("medium"@[1] == 'e' && "max"@[1] == 'a');
    let all = all_efforts();
    assert(all[0] == ReasoningEffort::Disabled);
    assert(all[1] == ReasoningEffort::Low);
    assert(all[2] == ReasoningEffort::Medium);
    assert(all[3] == ReasoningEffort::High);
    assert(all[4] == ReasoningEffort::XHigh);
    assert(all[5] == ReasoningEffort::Max);
}

/// A text goes in as one block, without provenance.
pub proof fn law_a_text_is_one_block(role: Role, text: Seq<char>, injected: Option<InjectedView>)
    ensures
        ({
            let m = text_message(role, text, injected);
            &&& m.role == role
            &&& m.content == seq![BlockView::Text { text }]
            &&& m.provenance is None
            &&& m.injected == injected
        }),
{
}

} // verus!

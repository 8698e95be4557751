//! What a request carries of the conversation: everything, with reasoning only
//! where the target can replay it.

use vstd::prelude::*;

use crate::agent::ProviderFailure;
use crate::protocol::{
    BlockView, ContentBlock, Message, MessageView, ProviderApiFamily,
    ProviderRouteSource, ResultView, Role, ToolResultContent,
};
use crate::protocol;
use crate::routes::{AttemptView, FrozenProviderAttempt, ProvenanceMismatch, ProviderRouteReceipt, ReceiptView};
use crate::routes;
use crate::text;

verus! {

/// Where a reasoning message came from: its route's place in the timeline, or
/// why its provenance does not fit.
pub type Origin = Result<usize, ProvenanceMismatch>;

// ---------------------------------------------------------------------------
// Reasoning
// ---------------------------------------------------------------------------

/// Whether a block is, or holds, reasoning.
pub open spec fn is_reasoning(b: BlockView) -> bool
    decreases b,
{
    match b {
        BlockView::Thinking { .. } => true,
        BlockView::RedactedThinking { .. } => true,
        BlockView::ToolResult { content: ResultView::Blocks(inner), .. } => any_reasoning(inner),
        _ => false,
    }
}

/// Whether any block is, or holds, reasoning.
pub open spec fn any_reasoning(content: Seq<BlockView>) -> bool
    decreases content,
{
    if content.len() == 0 {
        false
    } else {
        any_reasoning(content.drop_last()) || is_reasoning(content.last())
    }
}

/// A block without reasoning; nothing where it is reasoning.
pub open spec fn without_reasoning(b: BlockView) -> Option<BlockView>
    decreases b,
{
    match b {
        BlockView::Thinking { .. } => None,
        BlockView::RedactedThinking { .. } => None,
        BlockView::ToolResult { tool_use_id, content: ResultView::Blocks(inner), is_error } => Some(
            BlockView::ToolResult {
                tool_use_id,
                content: ResultView::Blocks(stripped(inner)),
                is_error,
            },
        ),
        other => Some(other),
    }
}

/// The blocks without reasoning, at any depth.
pub open spec fn stripped(content: Seq<BlockView>) -> Seq<BlockView>
    decreases content,
{
    if content.len() == 0 {
        Seq::empty()
    } else {
        match without_reasoning(content.last()) {
            Some(b) => stripped(content.drop_last()).push(b),
            None => stripped(content.drop_last()),
        }
    }
}

/// Nothing is left of the reasoning.
pub proof fn law_stripping_leaves_no_reasoning(content: Seq<BlockView>)
    ensures
        !any_reasoning(stripped(content)),
    decreases content,
{
    reveal_with_fuel(is_reasoning, 2);
    reveal_with_fuel(any_reasoning, 2);
    reveal_with_fuel(without_reasoning, 2);
    reveal_with_fuel(stripped, 2);
    if content.len() > 0 {
        law_stripping_leaves_no_reasoning(content.drop_last());
        let rest = stripped(content.drop_last());
        match without_reasoning(content.last()) {
            Some(b) => {
                assert(rest.push(b).drop_last() =~= rest);
                match content.last() {
                    BlockView::ToolResult { content: ResultView::Blocks(inner), .. } => {
                        law_stripping_leaves_no_reasoning(inner);
                    },
                    _ => {},
                }
            },
            None => {},
        }
    }
}

/// Blocks that hold no reasoning are left as they are.
pub proof fn law_stripping_keeps_the_rest(content: Seq<BlockView>)
    requires
        !any_reasoning(content),
    ensures
        stripped(content) == content,
    decreases content,
{
    reveal_with_fuel(is_reasoning, 2);
    reveal_with_fuel(any_reasoning, 2);
    reveal_with_fuel(without_reasoning, 2);
    reveal_with_fuel(stripped, 2);
    if content.len() == 0 {
        assert(content =~= Seq::<BlockView>::empty());
    } else {
        law_stripping_keeps_the_rest(content.drop_last());
        match content.last() {
            BlockView::ToolResult { content: ResultView::Blocks(inner), .. } => {
                law_stripping_keeps_the_rest(inner);
            },
            _ => {},
        }
        assert(content.drop_last().push(content.last()) =~= content);
    }
}

/// The view of a prefix of blocks, one longer.
proof fn lemma_blocks_take(v: Seq<ContentBlock>, i: int)
    requires
        0 <= i < v.len(),
    ensures
        protocol::blocks(v.take(i + 1)).drop_last() == protocol::blocks(v.take(i)),
        protocol::blocks(v.take(i + 1)).last() == v[i]@,
        protocol::blocks(v.take(i + 1)).len() > 0,
{
    assert(protocol::blocks(v.take(i + 1)).drop_last() =~= protocol::blocks(v.take(i)));
}

/// A nested list of blocks is viewed block by block.
pub proof fn lemma_nested_blocks(inner: Vec<ContentBlock>)
    ensures
        ToolResultContent::Blocks(inner)@ == ResultView::Blocks(protocol::blocks(inner@)),
{
    reveal_with_fuel(ContentBlock::model, 2);
    let v = ToolResultContent::Blocks(inner)@->Blocks_0;
    assert forall|k: int| 0 <= k < inner@.len() implies #[trigger] v[k] == inner@[k]@ by {}
    assert(v =~= protocol::blocks(inner@));
}

fn block_is_reasoning(b: &ContentBlock) -> (r: bool)
    ensures
        r == is_reasoning(b@),
    decreases b,
{
    match b {
        ContentBlock::Thinking { .. } => true,
        ContentBlock::RedactedThinking { .. } => true,
        ContentBlock::ToolResult { content, .. } => match content {
            ToolResultContent::Blocks(inner) => {
                let mut i: usize = 0;
                proof {
                    lemma_nested_blocks(*inner);
                }
                while i < inner.len()
                    invariant
                        i <= inner@.len(),
                        b matches ContentBlock::ToolResult { content: c, .. } && c == *content
                            && c == ToolResultContent::Blocks(*inner),
                        is_reasoning(b@) == any_reasoning(protocol::blocks(inner@)),
                        !any_reasoning(protocol::blocks(inner@.take(i as int))),
                    decreases inner@.len() - i,
                {
                    proof {
                        lemma_blocks_take(inner@, i as int);
                        assert(decreases_to!(*b => b->ToolResult_content));
                        assert(decreases_to!(b->ToolResult_content => b->ToolResult_content->Blocks_0@[i as int]));
                    }
                    if block_is_reasoning(&inner[i]) {
                        proof {
                            lemma_any_reasoning_prefix(
                                protocol::blocks(inner@),
                                i + 1,
                            );
                            assert(protocol::blocks(inner@).take(i + 1) =~= protocol::blocks(
                                inner@.take(i + 1),
                            ));
                        }
                        return true;
                    }
                    i += 1;
                }
                proof {
                    assert(inner@.take(inner@.len() as int) =~= inner@);
                }
                false
            },
            ToolResultContent::Text(_) => false,
        },
        ContentBlock::Text { .. } => false,
        ContentBlock::Image { source } => false,
        ContentBlock::ToolUse { .. } => false,
    }
}

proof fn lemma_any_reasoning_prefix(content: Seq<BlockView>, n: int)
    requires
        0 <= n <= content.len(),
        any_reasoning(content.take(n)),
    ensures
        any_reasoning(content),
    decreases content.len() - n,
{
    if n == content.len() {
        assert(content.take(n) =~= content);
    } else {
        assert(content.take(n + 1).drop_last() =~= content.take(n));
        lemma_any_reasoning_prefix(content, n + 1);
    }
}

/// Whether any block is, or holds, reasoning.
pub fn has_reasoning(content: &Vec<ContentBlock>) -> (r: bool)
    ensures
        r == any_reasoning(protocol::blocks(content@)),
{
    let mut i: usize = 0;
    while i < content.len()
        invariant
            i <= content@.len(),
            !any_reasoning(protocol::blocks(content@.take(i as int))),
        decreases content@.len() - i,
    {
        proof {
            lemma_blocks_take(content@, i as int);
        }
        if block_is_reasoning(&content[i]) {
            proof {
                assert(protocol::blocks(content@).take(i + 1) =~= protocol::blocks(
                    content@.take(i + 1),
                ));
                lemma_any_reasoning_prefix(protocol::blocks(content@), i + 1);
            }
            return true;
        }
        i += 1;
    }
    proof {
        assert(content@.take(content@.len() as int) =~= content@);
    }
    false
}

fn block_without_reasoning(b: &ContentBlock) -> (r: Option<ContentBlock>)
    ensures
        protocol::opt(r) == without_reasoning(b@),
    decreases b,
{
    match b {
        ContentBlock::Thinking { .. } => None,
        ContentBlock::RedactedThinking { .. } => None,
        ContentBlock::ToolResult { tool_use_id, content, is_error } => match content {
            ToolResultContent::Blocks(inner) => {
                let mut out: Vec<ContentBlock> = Vec::new();
                let mut i: usize = 0;
                proof {
                    assert(protocol::blocks(out@) =~= stripped(
                        protocol::blocks(inner@.take(0)),
                    ));
                }
                while i < inner.len()
                    invariant
                        i <= inner@.len(),
                        b matches ContentBlock::ToolResult { content: c, .. } && c == *content
                            && c == ToolResultContent::Blocks(*inner),
                        protocol::blocks(out@) == stripped(
                            protocol::blocks(inner@.take(i as int)),
                        ),
                    decreases inner@.len() - i,
                {
                    proof {
                        lemma_blocks_take(inner@, i as int);
                        assert(decreases_to!(*b => b->ToolResult_content));
                        assert(decreases_to!(b->ToolResult_content => b->ToolResult_content->Blocks_0@[i as int]));
                    }
                    let ghost before = protocol::blocks(out@);
                    if let Some(kept) = block_without_reasoning(&inner[i]) {
                        let ghost view = kept@;
                        out.push(kept);
                        proof {
                            assert(protocol::blocks(out@) =~= before.push(view));
                        }
                    }
                    i += 1;
                }
                proof {
                    assert(inner@.take(inner@.len() as int) =~= inner@);
                    lemma_nested_blocks(*inner);
                    lemma_nested_blocks(out);
                }
                Some(
                    ContentBlock::ToolResult {
                        tool_use_id: tool_use_id.clone(),
                        content: ToolResultContent::Blocks(out),
                        is_error: *is_error,
                    },
                )
            },
            ToolResultContent::Text(_) => Some(b.clone()),
        },
        ContentBlock::Text { .. } => Some(b.clone()),
        ContentBlock::Image { source } => Some(b.clone()),
        ContentBlock::ToolUse { .. } => Some(b.clone()),
    }
}

/// The blocks without reasoning, at any depth.
pub fn strip_reasoning(content: &Vec<ContentBlock>) -> (r: Vec<ContentBlock>)
    ensures
        protocol::blocks(r@) == stripped(protocol::blocks(content@)),
{
    let mut out: Vec<ContentBlock> = Vec::new();
    let mut i: usize = 0;
    proof {
        assert(protocol::blocks(out@) =~= stripped(protocol::blocks(content@.take(0))));
    }
    while i < content.len()
        invariant
            i <= content@.len(),
            protocol::blocks(out@) == stripped(protocol::blocks(content@.take(i as int))),
        decreases content@.len() - i,
    {
        proof {
            lemma_blocks_take(content@, i as int);
        }
        let ghost before = protocol::blocks(out@);
        if let Some(kept) = block_without_reasoning(&content[i]) {
            let ghost view = kept@;
            out.push(kept);
            proof {
                assert(protocol::blocks(out@) =~= before.push(view));
            }
        }
        i += 1;
    }
    proof {
        assert(content@.take(content@.len() as int) =~= content@);
    }
    out
}

// ---------------------------------------------------------------------------
// The projection
// ---------------------------------------------------------------------------

/// What happens to one message on its way into a request.
#[verifier::ext_equal]
pub enum Projection {
    /// It goes out as it is.
    Keep,
    /// It goes out without its reasoning, or not at all where nothing is left.
    Strip(Option<MessageView>),
    /// The request cannot be built.
    Refuse(Seq<char>),
}

pub open spec fn mismatch_text(m: ProvenanceMismatch) -> Seq<char> {
    match m {
        ProvenanceMismatch::UnknownRevision =>
            "reasoning history references an unknown provider route revision"@,
        ProvenanceMismatch::OriginOutsideInterval =>
            "reasoning history origin lies outside its provider route interval"@,
        ProvenanceMismatch::OriginNotOnItsLine =>
            "reasoning history origin does not match its recorded line boundary"@,
        ProvenanceMismatch::IdentityMismatch =>
            "reasoning history provenance does not match its producing route"@,
        ProvenanceMismatch::BlockShapeMismatch =>
            "reasoning history block shape does not match its producing API family"@,
    }
}

/// Whether a durable change after route `from` authorizes stripping.
pub open spec fn changed_after(timeline: Seq<ReceiptView>, from: int) -> bool {
    exists|i: int|
        from < i < timeline.len() && ((#[trigger] timeline[i]).source
            == ProviderRouteSource::ExplicitSwitch || timeline[i].source
            == ProviderRouteSource::Reopened)
}

/// What a message looks like without its reasoning.
pub open spec fn stripped_message(m: MessageView) -> Option<MessageView> {
    let content = stripped(m.content);
    if m.role != Role::Assistant || content.len() > 0 {
        Some(MessageView { content, provenance: None, ..m })
    } else {
        None
    }
}

pub open spec fn projection(
    m: MessageView,
    timeline: Seq<ReceiptView>,
    attempt: AttemptView,
    origin: Origin,
) -> Projection {
    if !any_reasoning(m.content) {
        Projection::Keep
    } else {
        match m.provenance {
            None => Projection::Refuse("reasoning history is missing provider route provenance"@),
            Some(source) => match origin {
                Err(mismatch) => Projection::Refuse(mismatch_text(mismatch)),
                Ok(at) => {
                    let chat = attempt.api_family == ProviderApiFamily::OpenAiChatCompletions;
                    if !chat && routes::exact_replay(source, attempt) {
                        Projection::Keep
                    } else if !chat && !(source.route_revision < timeline.last().route_revision
                        && changed_after(timeline, at as int)) {
                        Projection::Refuse(
                            "reasoning mismatch is not authorized by a durable explicit provider switch"@,
                        )
                    } else {
                        Projection::Strip(stripped_message(m))
                    }
                },
            },
        }
    }
}

/// The messages up to `n`, projected; or the first reason why not.
pub open spec fn projected(
    messages: Seq<MessageView>,
    timeline: Seq<ReceiptView>,
    attempt: AttemptView,
    origins: Seq<Origin>,
    n: nat,
) -> Result<Seq<MessageView>, Seq<char>>
    decreases n,
{
    if n == 0 {
        Ok(Seq::empty())
    } else {
        match projected(messages, timeline, attempt, origins, (n - 1) as nat) {
            Err(e) => Err(e),
            Ok(before) => match projection(
                messages[n - 1],
                timeline,
                attempt,
                origins[n - 1],
            ) {
                Projection::Keep => Ok(before.push(messages[n - 1])),
                Projection::Strip(Some(m)) => Ok(before.push(m)),
                Projection::Strip(None) => Ok(before),
                Projection::Refuse(e) => Err(e),
            },
        }
    }
}

/// Whether an attempt belongs to the active route.
pub open spec fn on_active_route(timeline: Seq<ReceiptView>, attempt: AttemptView) -> bool {
    let active = timeline.last();
    &&& active.route_revision == attempt.route_revision
    &&& active.provider_id == attempt.provider_id
    &&& active.api_family == attempt.api_family
    &&& active.endpoint_fingerprint == attempt.endpoint_fingerprint
}

/// What a request carries of the messages.
pub open spec fn request_messages(
    messages: Seq<MessageView>,
    timeline: Seq<ReceiptView>,
    attempt: AttemptView,
    origins: Seq<Origin>,
) -> Result<Seq<MessageView>, Seq<char>> {
    if timeline.len() == 0 {
        Err("provider route timeline is missing"@)
    } else if !on_active_route(timeline, attempt) {
        Err("frozen provider attempt does not match the active durable route"@)
    } else {
        projected(messages, timeline, attempt, origins, messages.len())
    }
}

/// Origins that point into the timeline, one per message.
pub open spec fn origins_fit(origins: Seq<Origin>, messages: nat, timeline: nat) -> bool {
    &&& origins.len() == messages
    &&& forall|i: int| 0 <= i < origins.len() ==> (#[trigger] origins[i] matches Ok(at) ==> at
        < timeline)
}

impl ProviderFailure {
    /// A failure of the conversation's own protocol: trying again cannot help.
    pub fn protocol(message: &str) -> (r: Self)
        ensures
            r.message@ == message@,
            !r.retryable,
    {
        ProviderFailure { message: message.to_owned(), retryable: false }
    }
}

fn mismatch_message(m: ProvenanceMismatch) -> (r: &'static str)
    ensures
        r@ == mismatch_text(m),
{
    match m {
        ProvenanceMismatch::UnknownRevision =>
            "reasoning history references an unknown provider route revision",
        ProvenanceMismatch::OriginOutsideInterval =>
            "reasoning history origin lies outside its provider route interval",
        ProvenanceMismatch::OriginNotOnItsLine =>
            "reasoning history origin does not match its recorded line boundary",
        ProvenanceMismatch::IdentityMismatch =>
            "reasoning history provenance does not match its producing route",
        ProvenanceMismatch::BlockShapeMismatch =>
            "reasoning history block shape does not match its producing API family",
    }
}

fn is_change(source: ProviderRouteSource) -> (r: bool)
    ensures
        r == (source == ProviderRouteSource::ExplicitSwitch || source
            == ProviderRouteSource::Reopened),
{
    match source {
        ProviderRouteSource::ExplicitSwitch => true,
        ProviderRouteSource::Reopened => true,
        ProviderRouteSource::Initial => false,
    }
}

fn has_changed_after(timeline: &Vec<ProviderRouteReceipt>, from: usize) -> (r: bool)
    requires
        from < timeline@.len(),
    ensures
        r == changed_after(routes::receipts(timeline@), from as int),
{
    let ghost all = routes::receipts(timeline@);
    let len: usize = timeline.len();
    let mut i: usize = from + 1;
    while i < len
        invariant
            from < i <= len == timeline@.len(),
            all == routes::receipts(timeline@),
            forall|k: int|
                from < k < i ==> !((#[trigger] all[k]).source
                    == ProviderRouteSource::ExplicitSwitch || all[k].source
                    == ProviderRouteSource::Reopened),
        decreases timeline@.len() - i,
    {
        proof {
            assert(all[i as int] == timeline@[i as int]@);
        }
        if is_change(timeline[i].source) {
            return true;
        }
        i += 1;
    }
    false
}

enum Projected {
    Keep,
    Strip(Option<Message>),
    Refuse(&'static str),
}

fn project(
    m: &Message,
    timeline: &Vec<ProviderRouteReceipt>,
    attempt: &FrozenProviderAttempt,
    origin: &Origin,
) -> (r: Projected)
    requires
        timeline@.len() > 0,
        origin matches Ok(at) ==> at < timeline@.len(),
    ensures
        projection(m@, routes::receipts(timeline@), attempt@, *origin) == (match r {
            Projected::Keep => Projection::Keep,
            Projected::Strip(s) => Projection::Strip(protocol::opt(s)),
            Projected::Refuse(e) => Projection::Refuse(e@),
        }),
{
    if !has_reasoning(&m.content) {
        return Projected::Keep;
    }
    let source = match &m.provider_provenance {
        Some(source) => source,
        None => {
            return Projected::Refuse("reasoning history is missing provider route provenance");
        },
    };
    let at: usize = match origin {
        Ok(at) => *at,
        Err(mismatch) => {
            return Projected::Refuse(mismatch_message(*mismatch));
        },
    };
    let chat = attempt.api_family == ProviderApiFamily::OpenAiChatCompletions;
    if !chat && source.exact_replay_compatible(attempt) {
        return Projected::Keep;
    }
    let active = &timeline[timeline.len() - 1];
    proof {
        assert(routes::receipts(timeline@).last() == timeline@.last()@);
    }
    if !chat && !(source.route_revision < active.route_revision && has_changed_after(
        timeline,
        at,
    )) {
        return Projected::Refuse(
            "reasoning mismatch is not authorized by a durable explicit provider switch",
        );
    }
    let content = strip_reasoning(&m.content);
    let ghost kept = protocol::blocks(content@);
    if m.role != Role::Assistant || content.len() > 0 {
        proof {
            assert(kept.len() == content@.len());
        }
        Projected::Strip(
            Some(
                Message {
                    role: m.role,
                    content,
                    provider_provenance: None,
                    injected: match &m.injected {
                        Some(i) => Some(i.clone()),
                        None => None,
                    },
                },
            ),
        )
    } else {
        proof {
            assert(kept.len() == 0);
        }
        Projected::Strip(None)
    }
}

/// What a request carries of the messages, and whether that is all of them as
/// they are.
pub fn provider_request_view(
    messages: &Vec<Message>,
    timeline: &Vec<ProviderRouteReceipt>,
    attempt: &FrozenProviderAttempt,
    origins: &Vec<Origin>,
) -> (r: Result<(Vec<Message>, bool), ProviderFailure>)
    requires
        origins_fit(origins@, messages@.len(), timeline@.len()),
    ensures
        match r {
            Ok((view, exact)) => {
                &&& request_messages(
                    protocol::messages(messages@),
                    routes::receipts(timeline@),
                    attempt@,
                    origins@,
                ) == Ok::<Seq<MessageView>, Seq<char>>(protocol::messages(view@))
                &&& exact == (protocol::messages(view@) == protocol::messages(messages@))
            },
            Err(failure) => {
                &&& request_messages(
                    protocol::messages(messages@),
                    routes::receipts(timeline@),
                    attempt@,
                    origins@,
                ) == Err::<Seq<MessageView>, Seq<char>>(failure.message@)
                &&& !failure.retryable
            },
        },
{
    let ghost all = protocol::messages(messages@);
    let ghost times = routes::receipts(timeline@);
    if timeline.len() == 0 {
        return Err(ProviderFailure::protocol("provider route timeline is missing"));
    }
    let active = &timeline[timeline.len() - 1];
    proof {
        assert(times.last() == timeline@.last()@);
    }
    if active.route_revision != attempt.route_revision || !text::same(
        active.provider_id.as_str(),
        attempt.provider_id.as_str(),
    ) || active.api_family != attempt.api_family || !text::same(
        active.endpoint_fingerprint.as_str(),
        attempt.endpoint_fingerprint.as_str(),
    ) {
        return Err(
            ProviderFailure::protocol(
                "frozen provider attempt does not match the active durable route",
            ),
        );
    }
    let mut out: Vec<Message> = Vec::new();
    let mut exact = true;
    let mut i: usize = 0;
    proof {
        assert(protocol::messages(out@) =~= Seq::<MessageView>::empty());
        assert(all.take(0) =~= Seq::<MessageView>::empty());
    }
    while i < messages.len()
        invariant
            i <= messages@.len(),
            all == protocol::messages(messages@),
            times == routes::receipts(timeline@),
            timeline@.len() > 0,
            origins_fit(origins@, messages@.len(), timeline@.len()),
            on_active_route(times, attempt@),
            projected(all, times, attempt@, origins@, i as nat) == Ok::<
                Seq<MessageView>,
                Seq<char>,
            >(protocol::messages(out@)),
            out@.len() <= i,
            exact ==> protocol::messages(out@) == all.take(i as int),
            !exact ==> (out@.len() < i || exists|k: int|
                0 <= k < i && (#[trigger] protocol::messages(out@)[k]) != all[k]),
        decreases messages@.len() - i,
    {
        let ghost before = protocol::messages(out@);
        proof {
            assert(all[i as int] == messages@[i as int]@);
            assert(origins@[i as int] matches Ok(at) ==> at < timeline@.len());
        }
        match project(&messages[i], timeline, attempt, &origins[i]) {
            Projected::Keep => {
                out.push(messages[i].clone());
                proof {
                    assert(protocol::messages(out@) =~= before.push(all[i as int]));
                    if exact {
                        assert(all.take(i + 1) =~= all.take(i as int).push(all[i as int]));
                    } else if before.len() == i {
                        let k = choose|k: int|
                            0 <= k < i && (#[trigger] before[k]) != all[k];
                        assert(protocol::messages(out@)[k] != all[k]);
                    }
                }
            },
            Projected::Strip(Some(m)) => {
                let ghost view = m@;
                out.push(m);
                proof {
                    assert(protocol::messages(out@) =~= before.push(view));
                    assert(view.provenance is None && all[i as int].provenance is Some);
                    if before.len() == i {
                        assert(protocol::messages(out@)[i as int] != all[i as int]);
                    }
                }
                exact = false;
            },
            Projected::Strip(None) => {
                exact = false;
            },
            Projected::Refuse(e) => {
                proof {
                    lemma_projected_fails(
                        all,
                        times,
                        attempt@,
                        origins@,
                        (i + 1) as nat,
                        messages@.len(),
                    );
                }
                return Err(ProviderFailure::protocol(e));
            },
        }
        i += 1;
    }
    proof {
        assert(all.take(all.len() as int) =~= all);
    }
    Ok((out, exact))
}

proof fn lemma_projected_fails(
    messages: Seq<MessageView>,
    timeline: Seq<ReceiptView>,
    attempt: AttemptView,
    origins: Seq<Origin>,
    k: nat,
    n: nat,
)
    requires
        k <= n,
        projected(messages, timeline, attempt, origins, k) is Err,
    ensures
        projected(messages, timeline, attempt, origins, n) == projected(
            messages,
            timeline,
            attempt,
            origins,
            k,
        ),
    decreases n - k,
{
    if k < n {
        lemma_projected_fails(messages, timeline, attempt, origins, k, (n - 1) as nat);
    }
}

// ---------------------------------------------------------------------------
// Laws
// ---------------------------------------------------------------------------

/// A conversation whose reasoning all replays onto the attempt goes out as it
/// is: switching back to the route that produced the reasoning restores it,
/// and a conversation without reasoning is never touched.
pub proof fn law_replayable_history_goes_out_whole(
    messages: Seq<MessageView>,
    timeline: Seq<ReceiptView>,
    attempt: AttemptView,
    origins: Seq<Origin>,
)
    requires
        timeline.len() > 0,
        on_active_route(timeline, attempt),
        origins_fit(origins, messages.len(), timeline.len()),
        forall|i: int|
            0 <= i < messages.len() ==> (any_reasoning((#[trigger] messages[i]).content) ==> {
                &&& attempt.api_family != ProviderApiFamily::OpenAiChatCompletions
                &&& messages[i].provenance matches Some(source) && routes::exact_replay(
                    source,
                    attempt,
                )
                &&& origins[i] is Ok
            }),
    ensures
        request_messages(messages, timeline, attempt, origins) == Ok::<
            Seq<MessageView>,
            Seq<char>,
        >(messages),
{
    lemma_all_kept(messages, timeline, attempt, origins, messages.len());
    assert(messages.take(messages.len() as int) =~= messages);
}

proof fn lemma_all_kept(
    messages: Seq<MessageView>,
    timeline: Seq<ReceiptView>,
    attempt: AttemptView,
    origins: Seq<Origin>,
    n: nat,
)
    requires
        n <= messages.len(),
        forall|i: int|
            0 <= i < messages.len() ==> projection(
                #[trigger] messages[i],
                timeline,
                attempt,
                origins[i],
            ) is Keep,
    ensures
        projected(messages, timeline, attempt, origins, n) == Ok::<Seq<MessageView>, Seq<char>>(
            messages.take(n as int),
        ),
    decreases n,
{
    if n == 0 {
        assert(messages.take(0) =~= Seq::<MessageView>::empty());
    } else {
        lemma_all_kept(messages, timeline, attempt, origins, (n - 1) as nat);
        assert(projection(messages[n - 1], timeline, attempt, origins[n - 1]) is Keep);
        assert(messages.take(n as int) =~= messages.take(n - 1).push(messages[n - 1]));
    }
}

/// A request carries reasoning only where the target produced it: whatever
/// reasoning goes out belongs to the attempt's own provider, protocol,
/// endpoint and model, and none goes out on the chat rail.
pub proof fn law_no_foreign_reasoning_goes_out(
    messages: Seq<MessageView>,
    timeline: Seq<ReceiptView>,
    attempt: AttemptView,
    origins: Seq<Origin>,
    view: Seq<MessageView>,
    k: int,
)
    requires
        request_messages(messages, timeline, attempt, origins) == Ok::<
            Seq<MessageView>,
            Seq<char>,
        >(view),
        0 <= k < view.len(),
        any_reasoning(view[k].content),
    ensures
        attempt.api_family != ProviderApiFamily::OpenAiChatCompletions,
        view[k].provenance matches Some(source) && routes::exact_replay(source, attempt),
{
    lemma_no_foreign(messages, timeline, attempt, origins, messages.len(), view, k);
}

proof fn lemma_no_foreign(
    messages: Seq<MessageView>,
    timeline: Seq<ReceiptView>,
    attempt: AttemptView,
    origins: Seq<Origin>,
    n: nat,
    view: Seq<MessageView>,
    k: int,
)
    requires
        projected(messages, timeline, attempt, origins, n) == Ok::<Seq<MessageView>, Seq<char>>(
            view,
        ),
        0 <= k < view.len(),
        any_reasoning(view[k].content),
    ensures
        attempt.api_family != ProviderApiFamily::OpenAiChatCompletions,
        view[k].provenance matches Some(source) && routes::exact_replay(source, attempt),
    decreases n,
{
    if n > 0 {
        let before = projected(messages, timeline, attempt, origins, (n - 1) as nat)->Ok_0;
        let m = messages[n - 1];
        law_stripping_leaves_no_reasoning(m.content);
        match projection(m, timeline, attempt, origins[n - 1]) {
            Projection::Keep => {
                if k < before.len() {
                    assert(view[k] == before[k]);
                    lemma_no_foreign(
                        messages,
                        timeline,
                        attempt,
                        origins,
                        (n - 1) as nat,
                        before,
                        k,
                    );
                } else {
                    assert(view[k] == m);
                }
            },
            Projection::Strip(Some(s)) => {
                if k < before.len() {
                    assert(view[k] == before[k]);
                    lemma_no_foreign(
                        messages,
                        timeline,
                        attempt,
                        origins,
                        (n - 1) as nat,
                        before,
                        k,
                    );
                } else {
                    assert(view[k] == s);
                }
            },
            Projection::Strip(None) => {
                lemma_no_foreign(messages, timeline, attempt, origins, (n - 1) as nat, before, k);
            },
            Projection::Refuse(_) => {},
        }
    }
}

/// A list of blocks holds reasoning exactly where one of them is a thinking block,
/// readable or redacted, or a tool result with such a block inside.
pub proof fn law_reasoning_is_found_at_any_depth(content: Seq<BlockView>)
    ensures
        any_reasoning(content) <==> exists|i: int|
            0 <= i < content.len() && match #[trigger] content[i] {
                BlockView::Thinking { .. } => true,
                BlockView::RedactedThinking { .. } => true,
                BlockView::ToolResult { content: ResultView::Blocks(inner), .. } => any_reasoning(
                    inner,
                ),
                _ => false,
            },
    decreases content,
{
    reveal_with_fuel(is_reasoning, 2);
    reveal_with_fuel(any_reasoning, 2);
    if content.len() > 0 {
        let front = content.drop_last();
        law_reasoning_is_found_at_any_depth(front);
        assert(content.last() == content[content.len() - 1]);
        assert forall|i: int| 0 <= i < front.len() implies #[trigger] front[i] == content[i] by {}
        if any_reasoning(front) {
            let i = choose|i: int|
                0 <= i < front.len() && match #[trigger] front[i] {
                    BlockView::Thinking { .. } => true,
                    BlockView::RedactedThinking { .. } => true,
                    BlockView::ToolResult { content: ResultView::Blocks(inner), .. } =>
                        any_reasoning(inner),
                    _ => false,
                };
            assert(content[i] == front[i]);
        } else {
            assert forall|i: int| 0 <= i < front.len() implies !(match #[trigger] content[i] {
                BlockView::Thinking { .. } => true,
                BlockView::RedactedThinking { .. } => true,
                BlockView::ToolResult { content: ResultView::Blocks(inner), .. } => any_reasoning(
                    inner,
                ),
                _ => false,
            }) by {
                assert(front[i] == content[i]);
            }
        }
    }
}

/// Whether `out` is what stays of `content` when the thinking blocks are taken out:
/// `at` says where each block of `out` stood. Nothing else is missing, nothing is
/// moved, and a block that stays is the same, down to the blocks inside a tool
/// result, of which again only the thinking ones are gone.
pub open spec fn is_the_rest_of(out: Seq<BlockView>, content: Seq<BlockView>, at: Seq<int>) -> bool {
    &&& at.len() == out.len()
    &&& forall|k: int, l: int| 0 <= k < l < at.len() ==> #[trigger] at[k] < #[trigger] at[l]
    &&& forall|k: int|
        0 <= k < at.len() ==> 0 <= #[trigger] at[k] < content.len() && match content[at[k]] {
            BlockView::Thinking { .. } => false,
            BlockView::RedactedThinking { .. } => false,
            BlockView::ToolResult { tool_use_id, content: ResultView::Blocks(inner), is_error } => {
                out[k] == BlockView::ToolResult {
                    tool_use_id,
                    content: ResultView::Blocks(stripped(inner)),
                    is_error,
                }
            },
            other => out[k] == other,
        }
    &&& forall|i: int|
        0 <= i < content.len() && !((#[trigger] content[i]) is Thinking)
            && !(content[i] is RedactedThinking) ==> at.contains(i)
}

/// Stripping takes out the thinking blocks and nothing else, and keeps the order.
pub proof fn law_stripping_takes_only_reasoning(content: Seq<BlockView>)
    ensures
        exists|at: Seq<int>| #[trigger] is_the_rest_of(stripped(content), content, at),
    decreases content.len(),
{
    reveal_with_fuel(without_reasoning, 2);
    reveal_with_fuel(stripped, 2);
    if content.len() == 0 {
        assert(is_the_rest_of(stripped(content), content, Seq::<int>::empty()));
    } else {
        let front = content.drop_last();
        law_stripping_takes_only_reasoning(front);
        let before = stripped(front);
        let at = choose|at: Seq<int>| #[trigger] is_the_rest_of(before, front, at);
        let n = front.len() as int;
        let out = stripped(content);
        assert(content[n] == content.last());
        let stays = !(content.last() is Thinking) && !(content.last() is RedactedThinking);
        let now = if stays {
            at.push(n)
        } else {
            at
        };
        assert forall|k: int| 0 <= k < at.len() implies content[#[trigger] at[k]] == front[at[k]]
            && out[k] == before[k] by {
            assert(0 <= at[k] < front.len());
        }
        assert forall|k: int| 0 <= k < now.len() implies 0 <= #[trigger] now[k] < content.len()
            && match content[now[k]] {
            BlockView::Thinking { .. } => false,
            BlockView::RedactedThinking { .. } => false,
            BlockView::ToolResult { tool_use_id, content: ResultView::Blocks(inner), is_error } => {
                out[k] == BlockView::ToolResult {
                    tool_use_id,
                    content: ResultView::Blocks(stripped(inner)),
                    is_error,
                }
            },
            other => out[k] == other,
        } by {
            if k < at.len() {
                assert(now[k] == at[k]);
            }
        }
        assert forall|i: int|
            0 <= i < content.len() && !((#[trigger] content[i]) is Thinking) && !(content[i]
                is RedactedThinking) implies now.contains(i) by {
            if i < n {
                assert(front[i] == content[i]);
                assert(at.contains(i));
                let k = choose|k: int| 0 <= k < at.len() && at[k] == i;
                assert(now[k] == i);
            } else {
                assert(now[at.len() as int] == i);
            }
        }
        assert(is_the_rest_of(out, content, now));
    }
}

/// Whether a message's reasoning can be sent to this target as it is: the target
/// takes reasoning back, and it is the very provider, protocol, endpoint and model
/// that wrote it.
pub open spec fn wrote_it(m: MessageView, attempt: AttemptView) -> bool {
    &&& attempt.api_family != ProviderApiFamily::OpenAiChatCompletions
    &&& m.provenance is Some
    &&& m.provenance->0.provider_id == attempt.provider_id
    &&& m.provenance->0.api_family == attempt.api_family
    &&& m.provenance->0.endpoint_fingerprint == attempt.endpoint_fingerprint
    &&& m.provenance->0.model == attempt.model
}

/// Whether `view` is the conversation as a request may carry it: `at` says which
/// message each one is. A message goes out untouched, or, where it holds reasoning
/// that the target did not write, with its other blocks alone. Only an assistant
/// message that is nothing but reasoning is left out.
pub open spec fn is_the_conversation(
    view: Seq<MessageView>,
    messages: Seq<MessageView>,
    attempt: AttemptView,
    at: Seq<int>,
) -> bool {
    &&& at.len() == view.len()
    &&& forall|k: int, l: int| 0 <= k < l < at.len() ==> #[trigger] at[k] < #[trigger] at[l]
    &&& forall|k: int|
        0 <= k < at.len() ==> 0 <= #[trigger] at[k] < messages.len() && {
            let m = messages[at[k]];
            if any_reasoning(m.content) && !wrote_it(m, attempt) {
                &&& view[k].role == m.role
                &&& view[k].injected == m.injected
                &&& view[k].provenance is None
                &&& exists|b: Seq<int>| #[trigger]
                    is_the_rest_of(view[k].content, m.content, b)
            } else {
                view[k] == m
            }
        }
    &&& forall|i: int|
        0 <= i < messages.len() && !at.contains(i) ==> {
            &&& (#[trigger] messages[i]).role == Role::Assistant
            &&& !wrote_it(messages[i], attempt)
            &&& messages[i].content.len() > 0
            &&& forall|j: int|
                0 <= j < messages[i].content.len() ==> (#[trigger] messages[i].content[j])
                    is Thinking || messages[i].content[j] is RedactedThinking
        }
}

proof fn lemma_nothing_but_reasoning(content: Seq<BlockView>, j: int)
    requires
        stripped(content).len() == 0,
        0 <= j < content.len(),
    ensures
        content[j] is Thinking || content[j] is RedactedThinking,
{
    law_stripping_takes_only_reasoning(content);
    let at = choose|at: Seq<int>| #[trigger] is_the_rest_of(stripped(content), content, at);
    assert(at.len() == 0);
    assert(!at.contains(j));
}

#[verifier::spinoff_prover]
proof fn lemma_the_view_is_the_conversation(
    messages: Seq<MessageView>,
    timeline: Seq<ReceiptView>,
    attempt: AttemptView,
    origins: Seq<Origin>,
    n: nat,
)
    requires
        n <= messages.len(),
        projected(messages, timeline, attempt, origins, n) is Ok,
    ensures
        exists|at: Seq<int>| #[trigger]
            is_the_conversation(
                projected(messages, timeline, attempt, origins, n)->Ok_0,
                messages.take(n as int),
                attempt,
                at,
            ),
    decreases n,
{
    let view = projected(messages, timeline, attempt, origins, n)->Ok_0;
    let upto = messages.take(n as int);
    if n == 0 {
        assert(is_the_conversation(view, upto, attempt, Seq::<int>::empty()));
    } else {
        let p = (n - 1) as nat;
        lemma_the_view_is_the_conversation(messages, timeline, attempt, origins, p);
        let before = projected(messages, timeline, attempt, origins, p)->Ok_0;
        let past = messages.take(p as int);
        let at = choose|at: Seq<int>| #[trigger] is_the_conversation(before, past, attempt, at);
        let m = messages[p as int];
        assert(upto[p as int] == m);
        law_stripping_takes_only_reasoning(m.content);
        let out = projection(m, timeline, attempt, origins[p as int]);
        let left_out = out == Projection::Strip(None);
        let now = if left_out {
            at
        } else {
            at.push(p as int)
        };
        if left_out {
            assert forall|j: int| 0 <= j < m.content.len() implies (#[trigger] m.content[j])
                is Thinking || m.content[j] is RedactedThinking by {
                lemma_nothing_but_reasoning(m.content, j);
            }
        }
        assert forall|k: int| 0 <= k < now.len() implies 0 <= #[trigger] now[k] < upto.len() && {
            let m = upto[now[k]];
            if any_reasoning(m.content) && !wrote_it(m, attempt) {
                &&& view[k].role == m.role
                &&& view[k].injected == m.injected
                &&& view[k].provenance is None
                &&& exists|b: Seq<int>| #[trigger]
                    is_the_rest_of(view[k].content, m.content, b)
            } else {
                view[k] == m
            }
        } by {
            if k < at.len() {
                assert(now[k] == at[k]);
                assert(0 <= at[k] < past.len());
                assert(upto[at[k]] == past[at[k]]);
                assert(view[k] == before[k]);
            } else {
                assert(now[k] == p);
                match out {
                    Projection::Keep => {
                        assert(view[k] == m);
                    },
                    Projection::Strip(Some(s)) => {
                        assert(view[k] == s);
                        assert(s.content == stripped(m.content));
                    },
                    _ => {},
                }
            }
        }
        assert forall|i: int| 0 <= i < upto.len() && !now.contains(i) implies ({
            &&& (#[trigger] upto[i]).role == Role::Assistant
            &&& !wrote_it(upto[i], attempt)
            &&& upto[i].content.len() > 0
            &&& forall|j: int|
                0 <= j < upto[i].content.len() ==> (#[trigger] upto[i].content[j]) is Thinking
                    || upto[i].content[j] is RedactedThinking
        }) by {
            if i < p {
                if at.contains(i) {
                    let k = choose|k: int| 0 <= k < at.len() && at[k] == i;
                    assert(now[k] == i);
                }
                assert(past[i] == upto[i]);
            } else if !left_out {
                assert(now[at.len() as int] == i);
            } else {
                assert(upto[i] == m);
                assert(any_reasoning(m.content));
            }
        }
        assert(is_the_conversation(view, upto, attempt, now));
    }
}

/// A request carries the conversation: every message in its place, with all that is
/// not reasoning, and with the reasoning too where the target wrote it.
pub proof fn law_a_request_carries_the_conversation(
    messages: Seq<MessageView>,
    timeline: Seq<ReceiptView>,
    attempt: AttemptView,
    origins: Seq<Origin>,
)
    requires
        request_messages(messages, timeline, attempt, origins) is Ok,
    ensures
        exists|at: Seq<int>| #[trigger]
            is_the_conversation(
                request_messages(messages, timeline, attempt, origins)->Ok_0,
                messages,
                attempt,
                at,
            ),
{
    lemma_the_view_is_the_conversation(messages, timeline, attempt, origins, messages.len());
    assert(messages.take(messages.len() as int) =~= messages);
}

/// Whatever was said, and whatever was asked of a tool, is in the request.
pub proof fn law_nothing_said_is_lost(
    messages: Seq<MessageView>,
    timeline: Seq<ReceiptView>,
    attempt: AttemptView,
    origins: Seq<Origin>,
    i: int,
    j: int,
)
    requires
        request_messages(messages, timeline, attempt, origins) is Ok,
        0 <= i < messages.len(),
        0 <= j < messages[i].content.len(),
        messages[i].content[j] is Text || messages[i].content[j] is ToolUse
            || messages[i].content[j] is Image,
    ensures
        exists|k: int, l: int|
            0 <= k < request_messages(messages, timeline, attempt, origins)->Ok_0.len() && 0 <= l
                < request_messages(
                messages,
                timeline,
                attempt,
                origins,
            )->Ok_0[k].content.len() && (#[trigger] request_messages(
                messages,
                timeline,
                attempt,
                origins,
            )->Ok_0[k].content[l]) == messages[i].content[j],
{
    law_a_request_carries_the_conversation(messages, timeline, attempt, origins);
    let view = request_messages(messages, timeline, attempt, origins)->Ok_0;
    let at = choose|at: Seq<int>| #[trigger] is_the_conversation(view, messages, attempt, at);
    let block = messages[i].content[j];
    assert(at.contains(i));
    let k = choose|k: int| 0 <= k < at.len() && at[k] == i;
    assert(at[k] == i);
    if any_reasoning(messages[i].content) && !wrote_it(messages[i], attempt) {
        let b = choose|b: Seq<int>| #[trigger]
            is_the_rest_of(view[k].content, messages[i].content, b);
        assert(b.contains(j));
        let l = choose|l: int| 0 <= l < b.len() && b[l] == j;
        assert(b[l] == j);
        assert(view[k].content[l] == block);
    } else {
        assert(view[k].content[j] == block);
    }
}

/// Whether a message may go into a request. One without reasoning may. One with
/// reasoning must say where it came from, and that must fit the session's routes;
/// a target that takes reasoning back and did not write it is refused, unless the
/// session has since been moved to a later route on purpose.
pub open spec fn may_go_out(
    m: MessageView,
    timeline: Seq<ReceiptView>,
    attempt: AttemptView,
    origin: Origin,
) -> bool {
    any_reasoning(m.content) ==> {
        &&& m.provenance is Some
        &&& origin is Ok
        &&& attempt.api_family == ProviderApiFamily::OpenAiChatCompletions || wrote_it(m, attempt) || {
            &&& m.provenance->0.route_revision < timeline[timeline.len() - 1].route_revision
            &&& exists|i: int|
                origin->Ok_0 < i < timeline.len() && ((#[trigger] timeline[i]).source
                    == ProviderRouteSource::ExplicitSwitch || timeline[i].source
                    == ProviderRouteSource::Reopened)
        }
    }
}

proof fn lemma_projected_when(
    messages: Seq<MessageView>,
    timeline: Seq<ReceiptView>,
    attempt: AttemptView,
    origins: Seq<Origin>,
    n: nat,
)
    requires
        timeline.len() > 0,
        n <= messages.len(),
    ensures
        projected(messages, timeline, attempt, origins, n) is Ok <==> forall|i: int|
            0 <= i < n ==> may_go_out(#[trigger] messages[i], timeline, attempt, origins[i]),
    decreases n,
{
    if n > 0 {
        lemma_projected_when(messages, timeline, attempt, origins, (n - 1) as nat);
        let m = messages[n - 1];
        let origin = origins[n - 1];
        assert(projection(m, timeline, attempt, origin) is Refuse <==> !may_go_out(
            m,
            timeline,
            attempt,
            origin,
        )) by {
            assert(timeline.last() == timeline[timeline.len() - 1]);
            if origin is Ok {
                let from = origin->Ok_0 as int;
                assert(changed_after(timeline, from) <==> exists|i: int|
                    origin->Ok_0 < i < timeline.len() && ((#[trigger] timeline[i]).source
                        == ProviderRouteSource::ExplicitSwitch || timeline[i].source
                        == ProviderRouteSource::Reopened));
            }
        }
    }
}

/// A request is built exactly where the attempt runs on the session's newest route,
/// by revision, provider, protocol and endpoint, and every message may go out.
pub proof fn law_when_a_request_is_built(
    messages: Seq<MessageView>,
    timeline: Seq<ReceiptView>,
    attempt: AttemptView,
    origins: Seq<Origin>,
)
    ensures
        request_messages(messages, timeline, attempt, origins) is Ok <==> {
            &&& timeline.len() > 0
            &&& timeline[timeline.len() - 1].route_revision == attempt.route_revision
            &&& timeline[timeline.len() - 1].provider_id == attempt.provider_id
            &&& timeline[timeline.len() - 1].api_family == attempt.api_family
            &&& timeline[timeline.len() - 1].endpoint_fingerprint == attempt.endpoint_fingerprint
            &&& forall|i: int|
                0 <= i < messages.len() ==> may_go_out(
                    #[trigger] messages[i],
                    timeline,
                    attempt,
                    origins[i],
                )
        },
{
    if timeline.len() > 0 {
        assert(timeline.last() == timeline[timeline.len() - 1]);
        lemma_projected_when(messages, timeline, attempt, origins, messages.len());
    }
}

/// A refusal names the first message that may not go out, and says why.
pub proof fn law_the_first_refusal_is_reported(
    messages: Seq<MessageView>,
    timeline: Seq<ReceiptView>,
    attempt: AttemptView,
    origins: Seq<Origin>,
    i: int,
)
    requires
        timeline.len() > 0,
        on_active_route(timeline, attempt),
        0 <= i < messages.len(),
        forall|k: int|
            0 <= k < i ==> may_go_out(#[trigger] messages[k], timeline, attempt, origins[k]),
        !may_go_out(messages[i], timeline, attempt, origins[i]),
    ensures
        request_messages(messages, timeline, attempt, origins) == Err::<
            Seq<MessageView>,
            Seq<char>,
        >(
            if messages[i].provenance is None {
                "reasoning history is missing provider route provenance"@
            } else {
                match origins[i] {
                    Err(ProvenanceMismatch::UnknownRevision) =>
                        "reasoning history references an unknown provider route revision"@,
                    Err(ProvenanceMismatch::OriginOutsideInterval) =>
                        "reasoning history origin lies outside its provider route interval"@,
                    Err(ProvenanceMismatch::OriginNotOnItsLine) =>
                        "reasoning history origin does not match its recorded line boundary"@,
                    Err(ProvenanceMismatch::IdentityMismatch) =>
                        "reasoning history provenance does not match its producing route"@,
                    Err(ProvenanceMismatch::BlockShapeMismatch) =>
                        "reasoning history block shape does not match its producing API family"@,
                    Ok(_) =>
                        "reasoning mismatch is not authorized by a durable explicit provider switch"@,
                }
            },
        ),
{
    lemma_projected_when(messages, timeline, attempt, origins, i as nat);
    lemma_projected_when(messages, timeline, attempt, origins, (i + 1) as nat);
    lemma_projected_fails(
        messages,
        timeline,
        attempt,
        origins,
        (i + 1) as nat,
        messages.len(),
    );
}

/// An attempt on a route that has been recorded as the newest is on the active
/// route.
pub proof fn law_a_recorded_route_is_active(
    timeline: Seq<ReceiptView>,
    route: routes::RouteView,
    boundary: u64,
    source: ProviderRouteSource,
    continuity: protocol::ReasoningContinuity,
)
    ensures
        on_active_route(
            timeline.push(routes::receipt_of(route, boundary, source, continuity)),
            routes::attempt_of(route),
        ),
{
}

} // verus!

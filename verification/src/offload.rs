//! Oversized tool results: kept on disk, with a preview and a pointer in their
//! place.
//!
//! Nothing here touches the disk. What has been done so far comes in as a list
//! of replies, and the next thing to do comes out as a request.

use vstd::prelude::*;

use crate::agent::{TurnTerminal, TurnTerminalView};
use crate::protocol::{
    BlockView, ContentBlock, Message, MessageView, ProviderRouteSource, ReasoningContinuity,
    ResultView, ToolResultContent,
};
use crate::protocol;
use crate::routes::{FrozenProviderRoute, RouteView};
use crate::text;
use crate::usage::{ProviderUsageRecord, UsageRecordView};

verus! {

/// Characters above which a text tool result spills to disk.
pub const OFFLOAD_CAP_CHARS: usize = 32_000;

/// Character budget for one round's tool results taken together.
pub const ROUND_OFFLOAD_CAP_CHARS: usize = 128_000;

pub const HEAD_CHARS: usize = 1_500;

pub const TAIL_CHARS: usize = 500;

/// How every offload pointer ends.
pub const POINTER_END: &'static str = "so only what you extract enters the context]";

/// A line for the session file.
#[derive(Debug, PartialEq, Eq)]
pub enum Line {
    Message(Message),
    Usage(ProviderUsageRecord),
    Terminal(TurnTerminal),
    Compacted(Vec<Message>),
    InitialRoute(FrozenProviderRoute),
    RouteChanged {
        route: FrozenProviderRoute,
        source: ProviderRouteSource,
        continuity: ReasoningContinuity,
    },
    /// A server thread's effective runtime, as JSON text.
    Runtime(String),
}

/// Something to do outside.
#[derive(Debug, PartialEq, Eq)]
pub enum Request {
    /// Write a result to a fresh file of the offload store.
    Save { content: String },
    /// Take a file back out of the offload store.
    Remove { path: String },
    /// Append a line to the session file.
    Append(Line),
}

/// How it went.
#[derive(Debug, PartialEq, Eq)]
pub enum Reply {
    Saved { path: String },
    SaveFailed { error: String },
    Removed,
    /// The line was written at `boundary`; the next one comes at
    /// `next_boundary`, and `last_id` names the line.
    Appended { boundary: u64, next_boundary: u64, last_id: Option<String> },
    AppendFailed { error: String },
}

#[verifier::ext_equal]
pub enum LineView {
    Message(MessageView),
    Usage(UsageRecordView),
    Terminal(TurnTerminalView),
    Compacted(Seq<MessageView>),
    InitialRoute(RouteView),
    RouteChanged {
        route: RouteView,
        source: ProviderRouteSource,
        continuity: ReasoningContinuity,
    },
    Runtime(Seq<char>),
}

#[verifier::ext_equal]
pub enum RequestView {
    Save(Seq<char>),
    Remove(Seq<char>),
    Append(LineView),
}

impl View for Line {
    type V = LineView;

    open spec fn view(&self) -> LineView {
        match self {
            Line::Message(m) => LineView::Message(m@),
            Line::Usage(u) => LineView::Usage(u@),
            Line::Terminal(t) => LineView::Terminal(t@),
            Line::Compacted(items) => LineView::Compacted(protocol::messages(items@)),
            Line::InitialRoute(route) => LineView::InitialRoute(route@),
            Line::RouteChanged { route, source, continuity } => LineView::RouteChanged {
                route: route@,
                source: *source,
                continuity: *continuity,
            },
            Line::Runtime(t) => LineView::Runtime(t@),
        }
    }
}

impl View for Request {
    type V = RequestView;

    open spec fn view(&self) -> RequestView {
        match self {
            Request::Save { content } => RequestView::Save(content@),
            Request::Remove { path } => RequestView::Remove(path@),
            Request::Append(line) => RequestView::Append(line@),
        }
    }
}

/// Work that has either come to a request that no reply answers yet, or is
/// done, having used the replies up to a position.
#[verifier::ext_equal]
pub enum Run<T> {
    Needs(RequestView),
    Done(T, nat),
}

// ---------------------------------------------------------------------------
// What stands in place of a spilled result
// ---------------------------------------------------------------------------

/// The head and tail of a result, with the middle marked as dropped.
pub open spec fn preview_of(c: Seq<char>) -> Seq<char> {
    c.take(
        if c.len() < HEAD_CHARS {
            c.len() as int
        } else {
            HEAD_CHARS as int
        },
    ) + "\n…[truncated]…\n"@ + c.skip(
        if c.len() < TAIL_CHARS {
            0
        } else {
            c.len() - TAIL_CHARS
        },
    )
}

/// What the model sees in place of a result that was saved.
pub open spec fn pointer_to(c: Seq<char>, path: Seq<char>) -> Seq<char> {
    preview_of(c) + "\n[full output saved to "@ + path + " ("@ + text::decimal(c.len())
        + " chars). Query it in place instead of reading it back: bash with `python3 -c '...'` over that path, printing only the fields you need, "@
        + POINTER_END@
}

/// What the model sees in place of a result that could not be saved.
pub open spec fn truncated_for(c: Seq<char>, error: Seq<char>) -> Seq<char> {
    preview_of(c) + "\n[offload to disk failed ("@ + error + "); output truncated]"@
}

/// The head and tail that a spilled result keeps.
pub fn preview(content: &str) -> (r: String)
    ensures
        r@ == preview_of(content@),
{
    let chars = text::chars_of(content);
    let head: usize = if chars.len() < HEAD_CHARS {
        chars.len()
    } else {
        HEAD_CHARS
    };
    let from: usize = if chars.len() < TAIL_CHARS {
        0
    } else {
        chars.len() - TAIL_CHARS
    };
    let mut out = text::text_of(&chars, 0, head);
    out.append("\n…[truncated]…\n");
    out.append(text::text_of(&chars, from, chars.len()).as_str());
    proof {
        assert(content@.subrange(0, head as int) =~= content@.take(head as int));
        assert(content@.subrange(from as int, content@.len() as int) =~= content@.skip(
            from as int,
        ));
    }
    out
}

/// The preview and the path that stand in place of a saved result.
pub fn pointer(content: &str, path: &str) -> (r: String)
    ensures
        r@ == pointer_to(content@, path@),
{
    let mut out = preview(content);
    out.append("\n[full output saved to ");
    out.append(path);
    out.append(" (");
    out.append(text::decimal_text(text::char_count(content) as u64).as_str());
    out.append(
        " chars). Query it in place instead of reading it back: bash with `python3 -c '...'` over that path, printing only the fields you need, ",
    );
    out.append(POINTER_END);
    out
}

/// The preview that stands in place of a result that could not be saved.
pub fn truncated(content: &str, error: &str) -> (r: String)
    ensures
        r@ == truncated_for(content@, error@),
{
    let mut out = preview(content);
    out.append("\n[offload to disk failed (");
    out.append(error);
    out.append("); output truncated]");
    out
}

/// Whether a result is already a preview with a pointer.
pub fn is_offload_pointer(t: &str) -> (r: bool)
    ensures
        r == text::ends_with(t@, POINTER_END@),
{
    text::strip_suffix(t, POINTER_END).is_some()
}

/// A pointer is recognised as one.
pub proof fn law_pointers_are_recognised(c: Seq<char>, path: Seq<char>)
    ensures
        text::ends_with(pointer_to(c, path), POINTER_END@),
{
    let p = pointer_to(c, path);
    assert(p.skip(p.len() - POINTER_END@.len()) =~= POINTER_END@);
}

// ---------------------------------------------------------------------------
// One result
// ---------------------------------------------------------------------------

/// A text no longer than the cap stays; a longer one is saved.
pub open spec fn spill_text(c: Seq<char>, cap: nat, replies: Seq<Reply>, at: nat) -> Run<
    Seq<char>,
> {
    if c.len() <= cap {
        Run::Done(c, at)
    } else if at >= replies.len() {
        Run::Needs(RequestView::Save(c))
    } else {
        match replies[at as int] {
            Reply::Saved { path } => Run::Done(pointer_to(c, path@), at + 1),
            Reply::SaveFailed { error } => Run::Done(truncated_for(c, error@), at + 1),
            _ => Run::Needs(RequestView::Save(c)),
        }
    }
}

/// A block with another text for its result.
pub open spec fn with_text(b: BlockView, t: Seq<char>) -> BlockView {
    BlockView::ToolResult {
        tool_use_id: b->ToolResult_tool_use_id,
        content: ResultView::Text(t),
        is_error: b->ToolResult_is_error,
    }
}

/// The text of a text tool result.
pub open spec fn result_text(b: BlockView) -> Option<Seq<char>> {
    match b {
        BlockView::ToolResult { content: ResultView::Text(t), .. } => Some(t),
        _ => None,
    }
}

/// The blocks with every oversized text result spilled, from block `i` on.
pub open spec fn spill_blocks(
    content: Seq<BlockView>,
    i: nat,
    cap: nat,
    replies: Seq<Reply>,
    at: nat,
) -> Run<Seq<BlockView>>
    decreases content.len() - i,
{
    if i >= content.len() {
        Run::Done(content, at)
    } else {
        match result_text(content[i as int]) {
            None => spill_blocks(content, i + 1, cap, replies, at),
            Some(t) => match spill_text(t, cap, replies, at) {
                Run::Needs(request) => Run::Needs(request),
                Run::Done(kept, next) => spill_blocks(
                    content.update(i as int, with_text(content[i as int], kept)),
                    i + 1,
                    cap,
                    replies,
                    next,
                ),
            },
        }
    }
}

// ---------------------------------------------------------------------------
// One round
// ---------------------------------------------------------------------------

/// The size of each text result; nothing for other blocks.
pub open spec fn result_sizes(content: Seq<BlockView>) -> Seq<Option<nat>> {
    content.map_values(
        |b: BlockView|
            match result_text(b) {
                Some(t) => Some(t.len()),
                None => None,
            },
    )
}

/// The characters of all text results.
pub open spec fn round_chars(content: Seq<BlockView>) -> nat
    decreases content.len(),
{
    if content.len() == 0 {
        0
    } else {
        round_chars(content.drop_last()) + match result_text(content.last()) {
            Some(t) => t.len(),
            None => 0,
        }
    }
}

/// Whether `i` is the largest result not tried yet; of two of one size, the
/// earlier.
pub open spec fn is_largest(sizes: Seq<Option<nat>>, tried: Seq<bool>, i: int) -> bool {
    &&& 0 <= i < sizes.len()
    &&& !tried[i]
    &&& sizes[i] is Some
    &&& forall|j: int|
        0 <= j < sizes.len() && !tried[j] && #[trigger] sizes[j] is Some ==> sizes[j]->Some_0
            < sizes[i]->Some_0 || (sizes[j]->Some_0 == sizes[i]->Some_0 && i <= j)
}

/// The largest result not tried yet.
pub open spec fn largest(sizes: Seq<Option<nat>>, tried: Seq<bool>) -> Option<int> {
    if exists|i: int| is_largest(sizes, tried, i) {
        Some(choose|i: int| is_largest(sizes, tried, i))
    } else {
        None
    }
}

/// The round brought under its budget: the largest results go to disk, one at
/// a time, until it fits. A spill that cannot reach the disk leaves its result
/// inline. A spill that would not make the result smaller is undone and ends
/// the work, since nothing smaller can do better.
pub open spec fn fit_round(
    content: Seq<BlockView>,
    sizes: Seq<Option<nat>>,
    tried: Seq<bool>,
    total: int,
    replies: Seq<Reply>,
    at: nat,
) -> Run<Seq<BlockView>>
    decreases replies.len() - at,
{
    if total <= ROUND_OFFLOAD_CAP_CHARS {
        Run::Done(content, at)
    } else {
        match largest(sizes, tried) {
            None => Run::Done(content, at),
            Some(i) => {
                let t = result_text(content[i])->Some_0;
                if at >= replies.len() {
                    Run::Needs(RequestView::Save(t))
                } else {
                    match replies[at as int] {
                        Reply::Saved { path } => {
                            let p = pointer_to(t, path@);
                            if p.len() < sizes[i]->Some_0 {
                                fit_round(
                                    content.update(i, with_text(content[i], p)),
                                    sizes,
                                    tried.update(i, true),
                                    total - sizes[i]->Some_0 + p.len(),
                                    replies,
                                    at + 1,
                                )
                            } else if at + 1 < replies.len() && replies[at as int + 1] is Removed {
                                Run::Done(content, at + 2)
                            } else {
                                Run::Needs(RequestView::Remove(path@))
                            }
                        },
                        Reply::SaveFailed { .. } => fit_round(
                            content,
                            sizes,
                            tried.update(i, true),
                            total,
                            replies,
                            at + 1,
                        ),
                        _ => Run::Needs(RequestView::Save(t)),
                    }
                }
            },
        }
    }
}

pub open spec fn none_tried(n: nat) -> Seq<bool> {
    Seq::new(n, |i: int| false)
}

/// A message's blocks as they enter the conversation: each oversized result
/// spilled, then the round brought under its budget.
pub open spec fn settle(content: Seq<BlockView>, cap: nat, replies: Seq<Reply>, at: nat) -> Run<
    Seq<BlockView>,
> {
    match spill_blocks(content, 0, cap, replies, at) {
        Run::Needs(request) => Run::Needs(request),
        Run::Done(spilled, next) => fit_round(
            spilled,
            result_sizes(spilled),
            none_tried(spilled.len()),
            round_chars(spilled) as int,
            replies,
            next,
        ),
    }
}

/// Work on blocks that waits or is done.
#[derive(Debug, PartialEq, Eq)]
pub enum Settling {
    Needs(Request),
    Done(Vec<ContentBlock>, usize),
}

impl View for Settling {
    type V = Run<Seq<BlockView>>;

    open spec fn view(&self) -> Run<Seq<BlockView>> {
        match self {
            Settling::Needs(request) => Run::Needs(request@),
            Settling::Done(content, at) => Run::Done(protocol::blocks(content@), *at as nat),
        }
    }
}

/// A text that waits or is settled.
#[derive(Debug, PartialEq, Eq)]
pub enum SettlingText {
    Needs(Request),
    Done(String, usize),
}

impl View for SettlingText {
    type V = Run<Seq<char>>;

    open spec fn view(&self) -> Run<Seq<char>> {
        match self {
            SettlingText::Needs(request) => Run::Needs(request@),
            SettlingText::Done(t, at) => Run::Done(t@, *at as nat),
        }
    }
}

/// Bounds machine-produced text: kept up to the cap, else saved, with a preview
/// and a pointer in its place.
pub fn offload_text(content: String, cap: usize, replies: &Vec<Reply>, at: usize) -> (r:
    SettlingText)
    requires
        at <= replies@.len(),
    ensures
        r@ == spill_text(content@, cap as nat, replies@, at as nat),
        r matches SettlingText::Done(_, next) ==> at <= next <= replies@.len(),
{
    if text::char_count(content.as_str()) <= cap {
        return SettlingText::Done(content, at);
    }
    if at >= replies.len() {
        return SettlingText::Needs(Request::Save { content });
    }
    match &replies[at] {
        Reply::Saved { path } => SettlingText::Done(
            pointer(content.as_str(), path.as_str()),
            at + 1,
        ),
        Reply::SaveFailed { error } => SettlingText::Done(
            truncated(content.as_str(), error.as_str()),
            at + 1,
        ),
        _ => SettlingText::Needs(Request::Save { content }),
    }
}

/// The text of a block that is a text tool result.
fn text_of_result(b: &ContentBlock) -> (r: Option<&String>)
    ensures
        match r {
            Some(t) => result_text(b@) == Some(t@),
            None => result_text(b@) is None,
        },
{
    match b {
        ContentBlock::ToolResult { content: ToolResultContent::Text(t), .. } => Some(t),
        ContentBlock::ToolResult { content: ToolResultContent::Blocks(inner), .. } => {
            proof {
                assert(b@->ToolResult_content is Blocks);
            }
            None
        },
        ContentBlock::Text { .. } => None,
        ContentBlock::Thinking { .. } => None,
        ContentBlock::RedactedThinking { .. } => None,
        ContentBlock::Image { source } => None,
        ContentBlock::ToolUse { .. } => None,
    }
}

fn replace_text(content: &mut Vec<ContentBlock>, i: usize, t: String)
    requires
        i < old(content)@.len(),
        result_text(old(content)@[i as int]@) is Some,
    ensures
        protocol::blocks(final(content)@) == protocol::blocks(old(content)@).update(
            i as int,
            with_text(old(content)@[i as int]@, t@),
        ),
        final(content)@.len() == old(content)@.len(),
        forall|j: int|
            0 <= j < old(content)@.len() && j != i ==> #[trigger] final(content)@[j] == old(
                content,
            )@[j],
{
    let ghost before = protocol::blocks(content@);
    let (id, failed) = match &content[i] {
        ContentBlock::ToolResult { tool_use_id, is_error, .. } => (tool_use_id.clone(), *is_error),
        _ => (String::new(), false),
    };
    let block = ContentBlock::ToolResult {
        tool_use_id: id,
        content: ToolResultContent::Text(t),
        is_error: failed,
    };
    proof {
        assert(block@ == with_text(content@[i as int]@, t@));
    }
    content[i] = block;
    proof {
        assert(protocol::blocks(content@) =~= before.update(i as int, block@));
    }
}

fn spill_all(content: Vec<ContentBlock>, cap: usize, replies: &Vec<Reply>, at: usize) -> (r:
    Settling)
    requires
        at <= replies@.len(),
    ensures
        r@ == spill_blocks(protocol::blocks(content@), 0, cap as nat, replies@, at as nat),
        r matches Settling::Done(_, next) ==> at <= next <= replies@.len(),
{
    let ghost start = protocol::blocks(content@);
    let ghost whole = spill_blocks(start, 0, cap as nat, replies@, at as nat);
    let mut work = content;
    let mut next: usize = at;
    let mut i: usize = 0;
    while i < work.len()
        invariant
            i <= work@.len(),
            at <= next <= replies@.len(),
            whole == spill_blocks(protocol::blocks(content@), 0, cap as nat, replies@, at as nat),
            whole == spill_blocks(
                protocol::blocks(work@),
                i as nat,
                cap as nat,
                replies@,
                next as nat,
            ),
        decreases work@.len() - i,
    {
        proof {
            assert(protocol::blocks(work@)[i as int] == work@[i as int]@);
        }
        let t = match text_of_result(&work[i]) {
            Some(t) => t.clone(),
            None => {
                i += 1;
                continue;
            },
        };
        match offload_text(t, cap, replies, next) {
            SettlingText::Needs(request) => {
                return Settling::Needs(request);
            },
            SettlingText::Done(kept, after) => {
                replace_text(&mut work, i, kept);
                next = after;
            },
        }
        i += 1;
    }
    Settling::Done(work, next)
}

proof fn lemma_largest_unique(sizes: Seq<Option<nat>>, tried: Seq<bool>, i: int)
    requires
        is_largest(sizes, tried, i),
    ensures
        largest(sizes, tried) == Some(i),
{
    let k = choose|k: int| is_largest(sizes, tried, k);
    assert(is_largest(sizes, tried, k));
    assert(sizes[k] is Some && sizes[i] is Some);
}

/// The largest result not tried yet.
fn find_largest(sizes: &Vec<Option<usize>>, tried: &Vec<bool>) -> (r: Option<usize>)
    requires
        sizes@.len() == tried@.len(),
    ensures
        match r {
            Some(i) => i < sizes@.len() && largest(size_view(sizes@), tried@) == Some(i as int),
            None => largest(size_view(sizes@), tried@) is None,
        },
{
    let ghost view = size_view(sizes@);
    let mut best: Option<usize> = None;
    let mut i: usize = 0;
    while i < sizes.len()
        invariant
            i <= sizes@.len(),
            sizes@.len() == tried@.len(),
            view == size_view(sizes@),
            best is None ==> forall|j: int|
                0 <= j < i ==> !(!tried@[j] && #[trigger] view[j] is Some),
            best matches Some(b) ==> {
                &&& b < i
                &&& !tried@[b as int]
                &&& view[b as int] is Some
                &&& forall|j: int|
                    0 <= j < i && !tried@[j] && #[trigger] view[j] is Some ==> view[j]->Some_0
                        < view[b as int]->Some_0 || (view[j]->Some_0 == view[b as int]->Some_0 && b
                        <= j)
            },
        decreases sizes@.len() - i,
    {
        if let Some(n) = sizes[i] {
            if !tried[i] {
                match best {
                    None => {
                        best = Some(i);
                    },
                    Some(b) => {
                        if let Some(m) = sizes[b] {
                            if n > m {
                                best = Some(i);
                            }
                        }
                    },
                }
            }
        }
        i += 1;
    }
    match best {
        Some(b) => {
            proof {
                assert(is_largest(view, tried@, b as int));
                lemma_largest_unique(view, tried@, b as int);
            }
            Some(b)
        },
        None => {
            proof {
                assert forall|k: int| !is_largest(view, tried@, k) by {
                    if 0 <= k < view.len() {
                        assert(!(!tried@[k] && view[k] is Some));
                    }
                }
            }
            None
        },
    }
}

/// The view of a list of sizes.
pub open spec fn size_view(v: Seq<Option<usize>>) -> Seq<Option<nat>> {
    v.map_values(
        |s: Option<usize>|
            match s {
                Some(n) => Some(n as nat),
                None => None,
            },
    )
}

proof fn lemma_round_chars_take(content: Seq<BlockView>, i: int)
    requires
        0 <= i < content.len(),
    ensures
        round_chars(content.take(i + 1)) == round_chars(content.take(i)) + match result_text(
            content[i],
        ) {
            Some(t) => t.len(),
            None => 0,
        },
{
    assert(content.take(i + 1).drop_last() =~= content.take(i));
}

fn fit(content: Vec<ContentBlock>, replies: &Vec<Reply>, at: usize) -> (r: Settling)
    requires
        at <= replies@.len(),
    ensures
        r@ == fit_round(
            protocol::blocks(content@),
            result_sizes(protocol::blocks(content@)),
            none_tried(content@.len()),
            round_chars(protocol::blocks(content@)) as int,
            replies@,
            at as nat,
        ),
        r matches Settling::Done(_, next) ==> at <= next <= replies@.len(),
{
    let ghost start = protocol::blocks(content@);
    let ghost all_sizes = result_sizes(start);
    let mut sizes: Vec<Option<usize>> = Vec::new();
    let mut tried: Vec<bool> = Vec::new();
    let mut total: u128 = 0;
    let mut i: usize = 0;
    while i < content.len()
        invariant
            i <= content@.len(),
            start == protocol::blocks(content@),
            all_sizes == result_sizes(start),
            sizes@.len() == i,
            tried@ == none_tried(i as nat),
            size_view(sizes@) == all_sizes.take(i as int),
            total == round_chars(start.take(i as int)),
            total <= i * 0xffff_ffff_ffff_ffff,
        decreases content@.len() - i,
    {
        proof {
            lemma_round_chars_take(start, i as int);
            assert(start[i as int] == content@[i as int]@);
        }
        let size: Option<usize> = match text_of_result(&content[i]) {
            Some(t) => Some(text::char_count(t.as_str())),
            None => None,
        };
        sizes.push(size);
        if let Some(n) = size {
            total = total + n as u128;
        }
        tried.push(false);
        i += 1;
        proof {
            assert(size_view(sizes@) =~= all_sizes.take(i as int));
            assert(tried@ =~= none_tried(i as nat));
        }
    }
    proof {
        assert(start.take(start.len() as int) =~= start);
        assert(all_sizes.take(all_sizes.len() as int) =~= all_sizes);
    }
    let ghost whole = fit_round(
        start,
        all_sizes,
        none_tried(content@.len()),
        round_chars(start) as int,
        replies@,
        at as nat,
    );
    proof {
        lemma_untried_at_first(start, start.len() as int);
    }
    let mut work = content;
    let mut next: usize = at;
    while total > ROUND_OFFLOAD_CAP_CHARS as u128
        invariant
            at <= next <= replies@.len(),
            sizes@.len() == work@.len(),
            tried@.len() == work@.len(),
            size_view(sizes@) == all_sizes,
            total >= untried_chars(all_sizes, tried@, work@.len() as int),
            forall|j: int|
                0 <= j < work@.len() && !tried@[j] ==> match result_text(
                    (#[trigger] work@[j])@,
                ) {
                    Some(t) => all_sizes[j] == Some(t.len()),
                    None => all_sizes[j] is None,
                },
            start == protocol::blocks(content@),
            all_sizes == result_sizes(start),
            work@.len() == start.len(),
            whole == fit_round(
                start,
                all_sizes,
                none_tried(start.len()),
                round_chars(start) as int,
                replies@,
                at as nat,
            ),
            whole == fit_round(
                protocol::blocks(work@),
                all_sizes,
                tried@,
                total as int,
                replies@,
                next as nat,
            ),
        decreases replies@.len() - next,
    {
        let i: usize = match find_largest(&sizes, &tried) {
            Some(i) => i,
            None => {
                return Settling::Done(work, next);
            },
        };
        proof {
            assert(is_largest(all_sizes, tried@, i as int)) by {
                let k = choose|k: int| is_largest(all_sizes, tried@, k);
            }
            assert(protocol::blocks(work@)[i as int] == work@[i as int]@);
        }
        let t = match text_of_result(&work[i]) {
            Some(t) => t.clone(),
            None => String::new(),
        };
        let size: usize = match sizes[i] {
            Some(n) => n,
            None => 0,
        };
        proof {
            assert(size_view(sizes@)[i as int] == Some(size as nat));
            lemma_untried_drop(all_sizes, tried@, work@.len() as int, i as int);
        }
        if next >= replies.len() {
            return Settling::Needs(Request::Save { content: t });
        }
        match &replies[next] {
            Reply::Saved { path } => {
                let p = pointer(t.as_str(), path.as_str());
                let chars: usize = text::char_count(p.as_str());
                if chars < size {
                    replace_text(&mut work, i, p);
                    total = total - size as u128 + chars as u128;
                    tried.set(i, true);
                    next += 1;
                } else if replies.len() - next > 1 {
                    if let Reply::Removed = &replies[next + 1] {
                        return Settling::Done(work, next + 2);
                    }
                    return Settling::Needs(Request::Remove { path: path.clone() });
                } else {
                    return Settling::Needs(Request::Remove { path: path.clone() });
                }
            },
            Reply::SaveFailed { .. } => {
                tried.set(i, true);
                next += 1;
            },
            _ => {
                return Settling::Needs(Request::Save { content: t });
            },
        }
    }
    Settling::Done(work, next)
}

/// The characters of the results not tried yet, up to `n`.
spec fn untried_chars(sizes: Seq<Option<nat>>, tried: Seq<bool>, n: int) -> nat
    decreases n,
{
    if n <= 0 {
        0
    } else {
        untried_chars(sizes, tried, n - 1) + if !tried[n - 1] && sizes[n - 1] is Some {
            sizes[n - 1]->Some_0
        } else {
            0
        }
    }
}

proof fn lemma_untried_at_first(content: Seq<BlockView>, n: int)
    requires
        0 <= n <= content.len(),
    ensures
        untried_chars(result_sizes(content), none_tried(content.len()), n) == round_chars(
            content.take(n),
        ),
    decreases n,
{
    if n > 0 {
        lemma_untried_at_first(content, n - 1);
        lemma_round_chars_take(content, n - 1);
    } else {
        assert(content.take(0) =~= Seq::<BlockView>::empty());
    }
}

proof fn lemma_untried_drop(sizes: Seq<Option<nat>>, tried: Seq<bool>, n: int, i: int)
    requires
        0 <= i < tried.len(),
        n <= tried.len(),
        !tried[i],
        sizes[i] is Some,
    ensures
        i < n ==> untried_chars(sizes, tried, n) == untried_chars(sizes, tried.update(i, true), n)
            + sizes[i]->Some_0,
        i >= n ==> untried_chars(sizes, tried, n) == untried_chars(
            sizes,
            tried.update(i, true),
            n,
        ),
    decreases n,
{
    if n > 0 {
        lemma_untried_drop(sizes, tried, n - 1, i);
    }
}

/// Settles a message's blocks as far as the replies go.
pub fn settle_content(
    content: Vec<ContentBlock>,
    cap: usize,
    replies: &Vec<Reply>,
    at: usize,
) -> (r: Settling)
    requires
        at <= replies@.len(),
    ensures
        r@ == settle(protocol::blocks(content@), cap as nat, replies@, at as nat),
        r matches Settling::Done(_, next) ==> at <= next <= replies@.len(),
{
    match spill_all(content, cap, replies, at) {
        Settling::Needs(request) => Settling::Needs(request),
        Settling::Done(spilled, next) => fit(spilled, replies, next),
    }
}

// ---------------------------------------------------------------------------
// File names in the offload store
// ---------------------------------------------------------------------------

/// `n` in decimal, with zeros in front up to four digits.
pub open spec fn padded(n: nat) -> Seq<char> {
    let d = text::decimal(n);
    if d.len() >= 4 {
        d
    } else {
        Seq::new((4 - d.len()) as nat, |i: int| '0') + d
    }
}

/// The name of the offload file `id`.
pub open spec fn file_name(id: nat) -> Seq<char> {
    "off-"@ + padded(id) + ".txt"@
}

/// The id in an offload file's name, where it is one.
pub open spec fn id_in_name(name: Seq<char>) -> Option<nat> {
    if text::starts_with(name, "off-"@) && text::ends_with(name.skip(4), ".txt"@) {
        let rest = name.skip(4);
        text::parse_unsigned(rest.take(rest.len() - 4), usize::MAX as nat)
    } else {
        None
    }
}

/// The largest id among the first `n` names; 0 where there is none.
pub open spec fn largest_id(names: Seq<Seq<char>>, n: nat) -> nat
    decreases n,
{
    if n == 0 {
        0
    } else {
        let before = largest_id(names, (n - 1) as nat);
        match id_in_name(names[n - 1]) {
            Some(id) if id > before => id,
            _ => before,
        }
    }
}

/// The name of the offload file `id`.
pub fn offload_file_name(id: usize) -> (r: String)
    ensures
        r@ == file_name(id as nat),
{
    let mut out = "off-".to_owned();
    let digits = text::decimal_text(id as u64);
    let len: usize = text::char_count(digits.as_str());
    let mut i: usize = len;
    let ghost zeros: Seq<char> = Seq::new(
        (if len < 4 {
            4 - len
        } else {
            0int
        }) as nat,
        |i: int| '0',
    );
    proof {
        assert(out@ =~= "off-"@ + zeros.take(0));
    }
    while i < 4
        invariant
            len <= i,
            i <= 4 || i == len,
            zeros.len() == (if len < 4 {
                4 - len
            } else {
                0int
            }),
            forall|k: int| 0 <= k < zeros.len() ==> zeros[k] == '0',
            out@ == "off-"@ + zeros.take(i - len),
        decreases 4 - i,
    {
        out.push('0');
        i += 1;
        proof {
            assert(out@ =~= "off-"@ + zeros.take(i - len));
        }
    }
    out.append(digits.as_str());
    out.append(".txt");
    proof {
        if len < 4 {
            assert(zeros.take(4 - len) =~= zeros);
            assert(out@ =~= file_name(id as nat));
        } else {
            assert(zeros.take(0) =~= Seq::<char>::empty());
            assert(out@ =~= file_name(id as nat));
        }
    }
    out
}

/// The id in an offload file's name, where it is one.
pub fn offload_file_id(name: &str) -> (r: Option<usize>)
    ensures
        match r {
            Some(id) => id_in_name(name@) == Some(id as nat),
            None => id_in_name(name@) is None,
        },
{
    proof {
        reveal_strlit("off-");
        reveal_strlit(".txt");
    }
    let rest = text::strip_prefix(name, "off-")?;
    let digits = text::strip_suffix(rest.as_str(), ".txt")?;
    let id: u64 = text::parse_number(digits.as_str(), usize::MAX as u64)?;
    Some(id as usize)
}

/// Where a counter has to stand so that no file already there is written over:
/// past every id in use, and never back.
pub fn sync_offload_counter(names: &Vec<String>, counter: usize) -> (r: usize)
    requires
        largest_id(text::texts(names@), names@.len()) < usize::MAX,
    ensures
        r == if largest_id(text::texts(names@), names@.len()) + 1 > counter {
            largest_id(text::texts(names@), names@.len()) + 1
        } else {
            counter as nat
        },
{
    let ghost all = text::texts(names@);
    let mut max_seen: usize = 0;
    let mut i: usize = 0;
    while i < names.len()
        invariant
            i <= names@.len(),
            all == text::texts(names@),
            max_seen == largest_id(all, i as nat),
        decreases names@.len() - i,
    {
        proof {
            assert(all[i as int] == names@[i as int]@);
        }
        if let Some(id) = offload_file_id(names[i].as_str()) {
            if id > max_seen {
                max_seen = id;
            }
        }
        i += 1;
    }
    if max_seen + 1 > counter {
        max_seen + 1
    } else {
        counter
    }
}

// ---------------------------------------------------------------------------
// Laws
// ---------------------------------------------------------------------------

proof fn lemma_zeros_value(k: nat, d: Seq<char>)
    requires
        text::all_digits(d),
    ensures
        text::all_digits(Seq::new(k, |i: int| '0') + d),
        text::digits_value(Seq::new(k, |i: int| '0') + d) == text::digits_value(d),
    decreases d.len(),
{
    let zeros: Seq<char> = Seq::new(k, |i: int| '0');
    let whole = zeros + d;
    assert forall|i: int| 0 <= i < whole.len() implies text::is_digit(#[trigger] whole[i]) by {
        if i >= k {
            assert(whole[i] == d[i - k]);
        }
    }
    if d.len() == 0 {
        assert(whole =~= zeros);
        lemma_all_zeros(k);
    } else {
        assert(text::all_digits(d.drop_last())) by {
            assert forall|i: int| 0 <= i < d.drop_last().len() implies text::is_digit(
                #[trigger] d.drop_last()[i],
            ) by {
                assert(d.drop_last()[i] == d[i]);
            }
        }
        lemma_zeros_value(k, d.drop_last());
        assert(whole.drop_last() =~= zeros + d.drop_last());
        assert(whole.last() == d.last());
    }
}

proof fn lemma_all_zeros(k: nat)
    ensures
        text::digits_value(Seq::new(k, |i: int| '0')) == 0,
    decreases k,
{
    let zeros: Seq<char> = Seq::new(k, |i: int| '0');
    if k > 0 {
        lemma_all_zeros((k - 1) as nat);
        assert(zeros.drop_last() =~= Seq::new((k - 1) as nat, |i: int| '0'));
    }
}

/// A file's id is read back from its name.
pub proof fn law_file_names_read_back(id: nat)
    requires
        id <= usize::MAX,
    ensures
        id_in_name(file_name(id)) == Some(id),
{
    reveal_strlit("off-");
    reveal_strlit(".txt");
    let name = file_name(id);
    let p = padded(id);
    let d = text::decimal(id);
    text::lemma_decimal_reads_back(id);
    if d.len() < 4 {
        lemma_zeros_value((4 - d.len()) as nat, d);
    }
    assert(text::all_digits(p) && text::digits_value(p) == id && p.len() > 0);
    assert(name.take(4) =~= "off-"@);
    assert(name.skip(4) =~= p + ".txt"@);
    let rest = name.skip(4);
    assert(rest.skip(rest.len() - 4) =~= ".txt"@);
    assert(rest.take(rest.len() - 4) =~= p);
    assert(text::is_digit(p[0]));
    assert(text::unsigned_digits(p) == p);
}

/// A counter past every id in use names no file that is already there.
pub proof fn law_fresh_names_clobber_nothing(names: Seq<Seq<char>>, id: nat, i: int)
    requires
        id > largest_id(names, names.len()),
        id <= usize::MAX,
        0 <= i < names.len(),
    ensures
        file_name(id) != names[i],
{
    law_file_names_read_back(id);
    lemma_largest_id_bounds(names, names.len(), i);
}

proof fn lemma_largest_id_bounds(names: Seq<Seq<char>>, n: nat, i: int)
    requires
        0 <= i < n <= names.len(),
    ensures
        id_in_name(names[i]) matches Some(id) ==> id <= largest_id(names, n),
    decreases n,
{
    if i < n - 1 {
        lemma_largest_id_bounds(names, (n - 1) as nat, i);
    }
}

/// Two versions of a block: the same but for the text of a text result.
pub open spec fn same_but_text(a: BlockView, b: BlockView) -> bool {
    match result_text(a) {
        None => b == a,
        Some(_) => result_text(b) matches Some(t) && b == with_text(a, t),
    }
}

pub open spec fn all_same_but_text(a: Seq<BlockView>, b: Seq<BlockView>) -> bool {
    a.len() == b.len() && forall|i: int|
        0 <= i < a.len() ==> same_but_text(#[trigger] a[i], b[i])
}

proof fn lemma_spill_keeps_shape(
    start: Seq<BlockView>,
    content: Seq<BlockView>,
    i: nat,
    cap: nat,
    replies: Seq<Reply>,
    at: nat,
)
    requires
        all_same_but_text(start, content),
    ensures
        spill_blocks(content, i, cap, replies, at) matches Run::Done(c, _) ==> all_same_but_text(
            start,
            c,
        ),
    decreases content.len() - i,
{
    if i < content.len() {
        match result_text(content[i as int]) {
            None => lemma_spill_keeps_shape(start, content, i + 1, cap, replies, at),
            Some(t) => match spill_text(t, cap, replies, at) {
                Run::Needs(_) => {},
                Run::Done(kept, next) => {
                    let now = content.update(i as int, with_text(content[i as int], kept));
                    assert forall|k: int| 0 <= k < start.len() implies same_but_text(
                        #[trigger] start[k],
                        now[k],
                    ) by {
                        assert(same_but_text(start[k], content[k]));
                    }
                    lemma_spill_keeps_shape(start, now, i + 1, cap, replies, next);
                },
            },
        }
    }
}

proof fn lemma_fit_keeps_shape(
    start: Seq<BlockView>,
    content: Seq<BlockView>,
    sizes: Seq<Option<nat>>,
    tried: Seq<bool>,
    total: int,
    replies: Seq<Reply>,
    at: nat,
)
    requires
        all_same_but_text(start, content),
        sizes == result_sizes(start),
        tried.len() == start.len(),
    ensures
        fit_round(content, sizes, tried, total, replies, at) matches Run::Done(c, _)
            ==> all_same_but_text(start, c),
    decreases replies.len() - at,
{
    if total > ROUND_OFFLOAD_CAP_CHARS && largest(sizes, tried) is Some && at < replies.len() {
        let i = largest(sizes, tried)->Some_0;
        assert(is_largest(sizes, tried, i));
        assert(same_but_text(start[i], content[i]));
        assert(result_text(start[i]) is Some);
        match replies[at as int] {
            Reply::Saved { path } => {
                let t = result_text(content[i])->Some_0;
                let p = pointer_to(t, path@);
                if p.len() < sizes[i]->Some_0 {
                    let now = content.update(i, with_text(content[i], p));
                    assert forall|k: int| 0 <= k < start.len() implies same_but_text(
                        #[trigger] start[k],
                        now[k],
                    ) by {
                        assert(same_but_text(start[k], content[k]));
                    }
                    lemma_fit_keeps_shape(
                        start,
                        now,
                        sizes,
                        tried.update(i, true),
                        total - sizes[i]->Some_0 + p.len(),
                        replies,
                        at + 1,
                    );
                }
            },
            Reply::SaveFailed { .. } => {
                lemma_fit_keeps_shape(
                    start,
                    content,
                    sizes,
                    tried.update(i, true),
                    total,
                    replies,
                    at + 1,
                );
            },
            _ => {},
        }
    }
}

/// Settling keeps every block in its place: only the text of text results
/// changes, and each keeps the call it answers and whether it failed.
pub proof fn law_settling_keeps_every_block(
    content: Seq<BlockView>,
    cap: nat,
    replies: Seq<Reply>,
    at: nat,
)
    ensures
        settle(content, cap, replies, at) matches Run::Done(c, _) ==> all_same_but_text(content, c),
{
    assert forall|k: int| 0 <= k < content.len() implies same_but_text(
        #[trigger] content[k],
        content[k],
    ) by {}
    lemma_spill_keeps_shape(content, content, 0, cap, replies, at);
    match spill_blocks(content, 0, cap, replies, at) {
        Run::Needs(_) => {},
        Run::Done(spilled, next) => {
            assert forall|k: int| 0 <= k < spilled.len() implies same_but_text(
                #[trigger] spilled[k],
                spilled[k],
            ) by {}
            lemma_fit_keeps_shape(
                spilled,
                spilled,
                result_sizes(spilled),
                none_tried(spilled.len()),
                round_chars(spilled) as int,
                replies,
                next,
            );
            match settle(content, cap, replies, at) {
                Run::Done(c, _) => {
                    assert forall|k: int| 0 <= k < content.len() implies same_but_text(
                        #[trigger] content[k],
                        c[k],
                    ) by {
                        assert(same_but_text(content[k], spilled[k]));
                        assert(same_but_text(spilled[k], c[k]));
                    }
                },
                Run::Needs(_) => {},
            }
        },
    }
}

proof fn lemma_small_spills_nothing(
    content: Seq<BlockView>,
    i: nat,
    cap: nat,
    replies: Seq<Reply>,
    at: nat,
)
    requires
        forall|k: int|
            0 <= k < content.len() ==> (result_text(#[trigger] content[k]) matches Some(t) ==> t.len()
                <= cap),
    ensures
        spill_blocks(content, i, cap, replies, at) == Run::<Seq<BlockView>>::Done(content, at),
    decreases content.len() - i,
{
    if i < content.len() {
        match result_text(content[i as int]) {
            None => {},
            Some(t) => {
                assert(with_text(content[i as int], t) == content[i as int]);
                assert(content.update(i as int, content[i as int]) =~= content);
            },
        }
        lemma_small_spills_nothing(content, i + 1, cap, replies, at);
    }
}

/// A round whose results each fit the cap and together fit the budget enters
/// the conversation as it is, without anything being asked of the disk.
pub proof fn law_small_rounds_are_kept_verbatim(
    content: Seq<BlockView>,
    cap: nat,
    replies: Seq<Reply>,
    at: nat,
)
    requires
        forall|k: int|
            0 <= k < content.len() ==> (result_text(#[trigger] content[k]) matches Some(t) ==> t.len()
                <= cap),
        round_chars(content) <= ROUND_OFFLOAD_CAP_CHARS,
    ensures
        settle(content, cap, replies, at) == Run::<Seq<BlockView>>::Done(content, at),
{
    lemma_small_spills_nothing(content, 0, cap, replies, at);
}

proof fn lemma_round_chars_update(content: Seq<BlockView>, i: int, t: Seq<char>)
    requires
        0 <= i < content.len(),
        result_text(content[i]) is Some,
    ensures
        round_chars(content.update(i, with_text(content[i], t))) == round_chars(content)
            - result_text(content[i])->Some_0.len() + t.len(),
    decreases content.len(),
{
    let now = content.update(i, with_text(content[i], t));
    if i == content.len() - 1 {
        assert(now.drop_last() =~= content.drop_last());
    } else {
        lemma_round_chars_update(content.drop_last(), i, t);
        assert(now.drop_last() =~= content.drop_last().update(i, with_text(content[i], t)));
    }
}

/// Bringing a round under its budget never makes it larger.
pub proof fn law_fitting_never_grows_a_round(
    content: Seq<BlockView>,
    sizes: Seq<Option<nat>>,
    tried: Seq<bool>,
    replies: Seq<Reply>,
    at: nat,
)
    requires
        tried.len() == content.len(),
        sizes.len() == content.len(),
        forall|k: int|
            0 <= k < content.len() && !#[trigger] tried[k] ==> sizes[k] == (match result_text(
                content[k],
            ) {
                Some(t) => Some(t.len()),
                None => None::<nat>,
            }),
    ensures
        fit_round(content, sizes, tried, round_chars(content) as int, replies, at) matches Run::Done(
            c,
            _,
        ) ==> round_chars(c) <= round_chars(content),
    decreases replies.len() - at,
{
    let total = round_chars(content) as int;
    if total > ROUND_OFFLOAD_CAP_CHARS && largest(sizes, tried) is Some && at < replies.len() {
        let i = largest(sizes, tried)->Some_0;
        assert(is_largest(sizes, tried, i));
        assert(!tried[i]);
        match replies[at as int] {
            Reply::Saved { path } => {
                let t = result_text(content[i])->Some_0;
                let p = pointer_to(t, path@);
                if p.len() < sizes[i]->Some_0 {
                    lemma_round_chars_update(content, i, p);
                    let now = content.update(i, with_text(content[i], p));
                    law_fitting_never_grows_a_round(
                        now,
                        sizes,
                        tried.update(i, true),
                        replies,
                        at + 1,
                    );
                }
            },
            Reply::SaveFailed { .. } => {
                law_fitting_never_grows_a_round(
                    content,
                    sizes,
                    tried.update(i, true),
                    replies,
                    at + 1,
                );
            },
            _ => {},
        }
    }
}

/// A preview is the first 1500 characters and the last 500, with a mark between them;
/// of a shorter text, as much as there is.
pub proof fn law_a_preview_keeps_both_ends(c: Seq<char>)
    requires
        c.len() >= 1_500,
    ensures
        preview_of(c).take(1_500) == c.take(1_500),
        preview_of(c).skip(preview_of(c).len() - 500) == c.skip(c.len() - 500),
        preview_of(c) == c.take(1_500) + "\n…[truncated]…\n"@ + c.skip(c.len() - 500),
{
    assert(preview_of(c).take(1_500) =~= c.take(1_500));
    assert(preview_of(c).skip(preview_of(c).len() - 500) =~= c.skip(c.len() - 500));
}

/// A text within the cap stays as it is, and nothing is asked for it. A longer one is
/// asked to be saved, whole; then its preview stays, with where it was saved and how
/// long it is, or with why it could not be.
pub proof fn law_only_a_long_text_is_saved(
    c: Seq<char>,
    cap: nat,
    replies: Seq<Reply>,
    at: nat,
)
    ensures
        c.len() <= cap ==> spill_text(c, cap, replies, at) == Run::<Seq<char>>::Done(c, at),
        c.len() > cap && at >= replies.len() ==> spill_text(c, cap, replies, at) == Run::<
            Seq<char>,
        >::Needs(RequestView::Save(c)),
        c.len() > cap && at < replies.len() ==> (replies[at as int] matches Reply::Saved { path }
            ==> spill_text(c, cap, replies, at) == Run::<Seq<char>>::Done(
            preview_of(c) + "\n[full output saved to "@ + path@ + " ("@ + text::decimal(c.len())
                + " chars). Query it in place instead of reading it back: bash with `python3 -c '...'` over that path, printing only the fields you need, "@
                + "so only what you extract enters the context]"@,
            at + 1,
        )),
        c.len() > cap && at < replies.len() ==> (replies[at as int] matches Reply::SaveFailed {
            error,
        } ==> spill_text(c, cap, replies, at) == Run::<Seq<char>>::Done(
            preview_of(c) + "\n[offload to disk failed ("@ + error@ + "); output truncated]"@,
            at + 1,
        )),
{
}

/// A result keeps the call that it answers and whether it is an error, whatever
/// becomes of its text.
pub proof fn law_a_result_keeps_its_call(
    content: Seq<BlockView>,
    cap: nat,
    replies: Seq<Reply>,
    at: nat,
    k: int,
)
    requires
        settle(content, cap, replies, at) is Done,
        0 <= k < content.len(),
    ensures
        ({
            let now = settle(content, cap, replies, at)->Done_0;
            &&& now.len() == content.len()
            &&& match content[k] {
                BlockView::ToolResult { tool_use_id, content: ResultView::Text(_), is_error } => {
                    &&& now[k] is ToolResult
                    &&& now[k]->ToolResult_tool_use_id == tool_use_id
                    &&& now[k]->ToolResult_is_error == is_error
                    &&& now[k]->ToolResult_content is Text
                },
                other => now[k] == other,
            }
        }),
{
    law_settling_keeps_every_block(content, cap, replies, at);
    let now = settle(content, cap, replies, at)->Done_0;
    assert(same_but_text(content[k], now[k]));
}

/// Whether a text is what stays of a longer one: its pointer, or its truncation.
pub open spec fn stands_for(kept: Seq<char>, t: Seq<char>) -> bool {
    ||| exists|path: Seq<char>| kept == #[trigger] pointer_to(t, path)
    ||| exists|error: Seq<char>| kept == #[trigger] truncated_for(t, error)
}

proof fn lemma_spilled(
    start: Seq<BlockView>,
    content: Seq<BlockView>,
    i: nat,
    cap: nat,
    replies: Seq<Reply>,
    at: nat,
    k: int,
)
    requires
        content.len() == start.len(),
        0 <= k < start.len(),
        k >= i ==> content[k] == start[k],
        k < i ==> (match result_text(start[k]) {
            None => content[k] == start[k],
            Some(t) => if t.len() <= cap {
                content[k] == start[k]
            } else {
                result_text(content[k]) matches Some(kept) && stands_for(kept, t)
            },
        }),
    ensures
        spill_blocks(content, i, cap, replies, at) matches Run::Done(c, _) ==> (match result_text(
            start[k],
        ) {
            None => c[k] == start[k],
            Some(t) => if t.len() <= cap {
                c[k] == start[k]
            } else {
                result_text(c[k]) matches Some(kept) && stands_for(kept, t)
            },
        }),
    decreases content.len() - i,
{
    if i < content.len() {
        match result_text(content[i as int]) {
            None => {
                lemma_spilled(start, content, i + 1, cap, replies, at, k);
            },
            Some(t) => match spill_text(t, cap, replies, at) {
                Run::Needs(_) => {},
                Run::Done(kept, next) => {
                    let now = content.update(i as int, with_text(content[i as int], kept));
                    if k == i {
                        if t.len() <= cap {
                            assert(now[k] == start[k]);
                        } else {
                            assert(result_text(now[k]) == Some(kept));
                            match replies[at as int] {
                                Reply::Saved { path } => {
                                    assert(kept == pointer_to(t, path@));
                                },
                                Reply::SaveFailed { error } => {
                                    assert(kept == truncated_for(t, error@));
                                },
                                _ => {},
                            }
                        }
                    }
                    lemma_spilled(start, now, i + 1, cap, replies, next, k);
                },
            },
        }
    }
}

/// Each result of a round that is longer than the cap is replaced by what stands for
/// it, and no other is touched for its own size.
pub proof fn law_each_long_result_is_replaced(
    content: Seq<BlockView>,
    cap: nat,
    replies: Seq<Reply>,
    at: nat,
    k: int,
)
    requires
        spill_blocks(content, 0, cap, replies, at) is Done,
        0 <= k < content.len(),
    ensures
        ({
            let now = spill_blocks(content, 0, cap, replies, at)->Done_0;
            match result_text(content[k]) {
                None => now[k] == content[k],
                Some(t) => if t.len() <= cap {
                    now[k] == content[k]
                } else {
                    result_text(now[k]) matches Some(kept) && stands_for(kept, t)
                },
            }
        }),
{
    lemma_spilled(content, content, 0, cap, replies, at, k);
}

/// A round whose results together pass 128000 characters gives up its largest result
/// first.
pub proof fn law_the_largest_result_goes_first(
    content: Seq<BlockView>,
    cap: nat,
    k: int,
)
    requires
        round_chars(content) > 128_000,
        forall|j: int|
            0 <= j < content.len() ==> (result_text(#[trigger] content[j]) matches Some(t)
                ==> t.len() <= cap),
        0 <= k < content.len(),
        result_text(content[k]) is Some,
    ensures
        settle(content, cap, Seq::empty(), 0) matches Run::Needs(request) && (request matches
            RequestView::Save(t) && t.len() >= result_text(content[k])->0.len() && exists|i: int|
            0 <= i < content.len() && result_text(#[trigger] content[i]) == Some(t)),
{
    let none = Seq::<Reply>::empty();
    lemma_small_spills_nothing(content, 0, cap, none, 0);
    let sizes = result_sizes(content);
    let tried = none_tried(content.len());
    lemma_some_largest(sizes, tried, sizes.len(), k);
    let i = largest(sizes, tried)->0;
    assert(is_largest(sizes, tried, i));
    assert(sizes[k] == Some(result_text(content[k])->0.len()));
    assert(sizes[i] is Some);
    assert(result_text(content[i]) is Some);
}

proof fn lemma_some_largest(sizes: Seq<Option<nat>>, tried: Seq<bool>, n: nat, k: int)
    requires
        n <= sizes.len(),
        0 <= k < n,
        sizes[k] is Some,
        forall|j: int| 0 <= j < sizes.len() ==> !#[trigger] tried[j],
        forall|j: int| n <= j < sizes.len() ==> #[trigger] sizes[j] is None,
    ensures
        exists|i: int| is_largest(sizes, tried, i),
{
    let i = lemma_largest_among(sizes, n, k);
    assert(!tried[i]);
    assert(is_largest(sizes, tried, i));
}

proof fn lemma_largest_among(sizes: Seq<Option<nat>>, n: nat, k: int) -> (i: int)
    requires
        n <= sizes.len(),
        0 <= k < n,
        sizes[k] is Some,
    ensures
        0 <= i < n,
        sizes[i] is Some,
        forall|j: int|
            0 <= j < n && #[trigger] sizes[j] is Some ==> sizes[j]->Some_0 < sizes[i]->Some_0 || (
            sizes[j]->Some_0 == sizes[i]->Some_0 && i <= j),
    decreases n,
{
    if exists|j: int| 0 <= j < n - 1 && #[trigger] sizes[j] is Some {
        let j = choose|j: int| 0 <= j < n - 1 && #[trigger] sizes[j] is Some;
        let best = lemma_largest_among(sizes, (n - 1) as nat, j);
        if sizes[n - 1] is Some && sizes[n - 1]->Some_0 > sizes[best]->Some_0 {
            n - 1
        } else {
            best
        }
    } else {
        assert(k == n - 1);
        k
    }
}

/// The size of a round is that of the texts of its results.
pub proof fn law_the_size_of_a_round(content: Seq<BlockView>, b: BlockView)
    ensures
        round_chars(content.push(b)) == round_chars(content) + (match b {
            BlockView::ToolResult { content: ResultView::Text(t), .. } => t.len(),
            _ => 0,
        }),
        round_chars(Seq::<BlockView>::empty()) == 0,
{
    assert(content.push(b).drop_last() =~= content);
    assert(content.push(b).last() == b);
}

/// A saved file is named by its number, in at least four digits.
pub proof fn law_how_a_file_is_named(id: nat)
    ensures
        ({
            let digits = text::decimal(id);
            let name = file_name(id);
            &&& name.len() == if digits.len() >= 4 {
                8 + digits.len()
            } else {
                12
            }
            &&& name.take(4) == "off-"@
            &&& name.skip(name.len() - 4) == ".txt"@
            &&& name.subrange(name.len() - 4 - digits.len(), name.len() - 4) == digits
            &&& forall|i: int| 4 <= i < name.len() - 4 - digits.len() ==> #[trigger] name[i] == '0'
        }),
{
    reveal_strlit("off-");
    reveal_strlit(".txt");
    let name = file_name(id);
    let digits = text::decimal(id);
    assert(name.take(4) =~= "off-"@);
    assert(name.skip(name.len() - 4) =~= ".txt"@);
    assert(name.subrange(name.len() - 4 - digits.len(), name.len() - 4) =~= digits);
}

/// How many results are still to be tried.
pub open spec fn untried(sizes: Seq<Option<nat>>, tried: Seq<bool>, n: nat) -> nat
    decreases n,
{
    if n == 0 {
        0
    } else {
        untried(sizes, tried, (n - 1) as nat) + if !tried[n - 1] && sizes[n - 1] is Some {
            1nat
        } else {
            0
        }
    }
}

proof fn lemma_one_less_untried(sizes: Seq<Option<nat>>, tried: Seq<bool>, n: nat, i: int)
    requires
        n <= sizes.len() == tried.len(),
        0 <= i < tried.len(),
        !tried[i],
        sizes[i] is Some,
    ensures
        untried(sizes, tried.update(i, true), n) == untried(sizes, tried, n) - (if i < n {
            1int
        } else {
            0int
        }),
    decreases n,
{
    if n > 0 {
        lemma_one_less_untried(sizes, tried, (n - 1) as nat, i);
    }
}

proof fn lemma_some_untried(sizes: Seq<Option<nat>>, tried: Seq<bool>, n: nat) -> (k: int)
    requires
        n <= sizes.len() == tried.len(),
        untried(sizes, tried, n) > 0,
    ensures
        0 <= k < n,
        !tried[k],
        sizes[k] is Some,
    decreases n,
{
    if !tried[n - 1] && sizes[n - 1] is Some {
        n - 1
    } else {
        lemma_some_untried(sizes, tried, (n - 1) as nat)
    }
}

proof fn lemma_all_tried(sizes: Seq<Option<nat>>, tried: Seq<bool>)
    requires
        sizes.len() == tried.len(),
        largest(sizes, tried) is None,
    ensures
        untried(sizes, tried, sizes.len()) == 0,
{
    if untried(sizes, tried, sizes.len()) > 0 {
        let k = lemma_some_untried(sizes, tried, sizes.len());
        let masked = Seq::new(
            sizes.len(),
            |j: int|
                if tried[j] {
                    None
                } else {
                    sizes[j]
                },
        );
        assert(masked[k] is Some);
        let i = lemma_largest_among(masked, masked.len(), k);
        assert(!tried[i] && sizes[i] is Some);
        assert forall|j: int|
            0 <= j < sizes.len() && !tried[j] && #[trigger] sizes[j] is Some implies sizes[j]->Some_0
            < sizes[i]->Some_0 || (sizes[j]->Some_0 == sizes[i]->Some_0 && i <= j) by {
            assert(masked[j] is Some);
        }
        assert(is_largest(sizes, tried, i));
    }
}

/// Results are given up until the round is within 128000 characters. It ends before that
/// only where every result has been tried, each with one reply, or where what would stand
/// for a result is no shorter, and then the file is removed again.
pub proof fn law_a_round_is_cut_down_until_it_fits(
    content: Seq<BlockView>,
    sizes: Seq<Option<nat>>,
    tried: Seq<bool>,
    replies: Seq<Reply>,
    at: nat,
)
    requires
        tried.len() == content.len(),
        sizes.len() == content.len(),
        forall|k: int|
            0 <= k < content.len() && !#[trigger] tried[k] ==> sizes[k] == (match result_text(
                content[k],
            ) {
                Some(t) => Some(t.len()),
                None => None::<nat>,
            }),
    ensures
        fit_round(content, sizes, tried, round_chars(content) as int, replies, at) matches Run::Done(
            c,
            used,
        ) ==> {
            ||| round_chars(c) <= 128_000
            ||| at + 2 <= used <= replies.len() && replies[used - 1] is Removed
            ||| used - at == untried(sizes, tried, sizes.len())
        },
    decreases replies.len() - at,
{
    let total = round_chars(content) as int;
    if total > ROUND_OFFLOAD_CAP_CHARS {
        if largest(sizes, tried) is None {
            lemma_all_tried(sizes, tried);
        } else if at < replies.len() {
            let i = largest(sizes, tried)->Some_0;
            assert(is_largest(sizes, tried, i));
            assert(!tried[i]);
            lemma_one_less_untried(sizes, tried, sizes.len(), i);
            match replies[at as int] {
                Reply::Saved { path } => {
                    let t = result_text(content[i])->Some_0;
                    let p = pointer_to(t, path@);
                    if p.len() < sizes[i]->Some_0 {
                        lemma_round_chars_update(content, i, p);
                        let now = content.update(i, with_text(content[i], p));
                        law_a_round_is_cut_down_until_it_fits(
                            now,
                            sizes,
                            tried.update(i, true),
                            replies,
                            at + 1,
                        );
                    }
                },
                Reply::SaveFailed { .. } => {
                    law_a_round_is_cut_down_until_it_fits(
                        content,
                        sizes,
                        tried.update(i, true),
                        replies,
                        at + 1,
                    );
                },
                _ => {},
            }
        }
    }
}

} // verus!

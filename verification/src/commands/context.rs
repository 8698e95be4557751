//! `/context`: which parts of the prompt the context goes to.

use vstd::prelude::*;

use crate::commands;
use crate::commands::SlashResult;
use crate::history;
use crate::history::History;
use crate::paths;
use crate::protocol::BlockView;
use crate::protocol::ContentBlock;
use crate::protocol::Message;
use crate::protocol::MessageView;
use crate::protocol::Role;
use crate::protocol;
use crate::request::Segment;
use crate::text;
use crate::tokens;
use crate::tokens::ToolDef;

verus! {

pub const SUMMARY: &'static str = "show which parts of the prompt the context goes to";

/// How many of the largest tools are named after the tool total.
pub const LARGEST_TOOLS: usize = 3;

// ---------------------------------------------------------------------------
// Rows
// ---------------------------------------------------------------------------

/// One line of the listing. A nested row splits the row above it.
#[derive(Debug, PartialEq, Eq)]
pub struct Row {
    pub label: String,
    pub tokens: u64,
    pub detail: String,
    pub nested: bool,
}

#[verifier::ext_equal]
pub struct RowView {
    pub label: Seq<char>,
    pub tokens: nat,
    pub detail: Seq<char>,
    pub nested: bool,
}

impl View for Row {
    type V = RowView;

    open spec fn view(&self) -> RowView {
        RowView {
            label: self.label@,
            tokens: self.tokens as nat,
            detail: self.detail@,
            nested: self.nested,
        }
    }
}

/// The view of a listing.
pub open spec fn row_views(v: Seq<Row>) -> Seq<RowView> {
    v.map_values(|r: Row| r@)
}

/// A row of its own.
pub open spec fn top_row(label: Seq<char>, tokens: nat) -> RowView {
    RowView { label, tokens, detail: Seq::empty(), nested: false }
}

/// A row that splits the row above it.
pub open spec fn nested_row(label: Seq<char>, tokens: nat) -> RowView {
    RowView { label, tokens, detail: Seq::empty(), nested: true }
}

/// `n` spaces.
pub open spec fn spaces(n: int) -> Seq<char> {
    Seq::new(
        if n > 0 {
            n as nat
        } else {
            0
        },
        |i: int| ' ',
    )
}

/// How a row is written: the label padded to its column, the tokens aligned at
/// the right of theirs.
pub open spec fn row_text(row: RowView) -> Seq<char> {
    let size = "~"@ + text::decimal(row.tokens);
    let width: int = if row.nested {
        22
    } else {
        24
    };
    "\n"@ + (if row.nested {
        "    "@
    } else {
        "  "@
    }) + row.label + spaces(width - row.label.len()) + spaces(8 - size.len()) + size + row.detail
}

fn push_spaces(out: &mut String, width: usize, len: usize)
    ensures
        final(out)@ == old(out)@ + spaces(width - len),
{
    let ghost before = out@;
    let mut done: usize = len;
    proof {
        assert(out@ =~= before + spaces(done - len));
    }
    while done < width
        invariant
            len <= done,
            done <= width || done == len,
            out@ == before + spaces(done - len),
        decreases width - done,
    {
        out.push(' ');
        done += 1;
        proof {
            assert(out@ =~= before + spaces(done - len));
        }
    }
    proof {
        assert(spaces(width - len) =~= spaces(done - len));
    }
}

impl Row {
    /// A row of its own.
    pub fn top(label: String, tokens: u64) -> (r: Self)
        ensures
            r@ == top_row(label@, tokens as nat),
    {
        let detail = String::new();
        proof {
            assert(detail@ =~= Seq::<char>::empty());
        }
        Row { label, tokens, detail, nested: false }
    }

    /// The row as it is written.
    pub fn render(&self) -> (r: String)
        ensures
            r@ == row_text(self@),
    {
        let width: usize = if self.nested {
            22
        } else {
            24
        };
        let mut size = "~".to_owned();
        size.append(text::decimal_text(self.tokens).as_str());
        let mut out = "\n".to_owned();
        if self.nested {
            out.append("    ");
        } else {
            out.append("  ");
        }
        out.append(self.label.as_str());
        push_spaces(&mut out, width, text::char_count(self.label.as_str()));
        push_spaces(&mut out, 8, text::char_count(size.as_str()));
        out.append(size.as_str());
        out.append(self.detail.as_str());
        out
    }
}

fn push_row(rows: &mut Vec<Row>, row: Row)
    ensures
        row_views(final(rows)@) == row_views(old(rows)@).push(row@),
{
    let ghost before = row_views(rows@);
    rows.push(row);
    proof {
        assert(row_views(rows@) =~= before.push(row@));
    }
}

// ---------------------------------------------------------------------------
// Tools
// ---------------------------------------------------------------------------

/// A tool's name and the estimate of its definition.
#[verifier::ext_equal]
pub struct ToolSize {
    pub name: Seq<char>,
    pub tokens: nat,
}

/// The numbers of a text's characters.
pub open spec fn codes(s: Seq<char>) -> Seq<u32> {
    s.map_values(|c: char| c as u32)
}

/// Whether a tool is listed before another: the larger first, names break ties.
pub open spec fn listed_before(a: ToolSize, b: ToolSize) -> bool {
    a.tokens > b.tokens || (a.tokens == b.tokens && paths::before(codes(a.name), codes(b.name)))
}

/// A tool put into its place of a list that is in order.
pub open spec fn placed(list: Seq<ToolSize>, tool: ToolSize) -> Seq<ToolSize>
    decreases list.len(),
{
    if list.len() > 0 && listed_before(tool, list.last()) {
        placed(list.drop_last(), tool).push(list.last())
    } else {
        list.push(tool)
    }
}

/// Tools in the order in which they are listed.
pub open spec fn in_order(list: Seq<ToolSize>) -> Seq<ToolSize>
    decreases list.len(),
{
    if list.len() == 0 {
        Seq::empty()
    } else {
        placed(in_order(list.drop_last()), list.last())
    }
}

/// The size of a tool.
pub open spec fn tool_size(tool: ToolDef) -> ToolSize {
    ToolSize { name: tool.name@, tokens: tokens::saturated(tokens::text_tokens(tool.visible())) }
}

/// The sizes of tools.
pub open spec fn tool_sizes(tools: Seq<ToolDef>) -> Seq<ToolSize> {
    tools.map_values(|t: ToolDef| tool_size(t))
}

/// The sum of the estimates.
pub open spec fn size_sum(list: Seq<ToolSize>) -> nat
    decreases list.len(),
{
    if list.len() == 0 {
        0
    } else {
        size_sum(list.drop_last()) + list.last().tokens
    }
}

/// How tools are named after the total.
pub open spec fn tool_names(list: Seq<ToolSize>) -> Seq<Seq<char>> {
    list.map_values(|t: ToolSize| t.name + " ~"@ + text::decimal(t.tokens))
}

/// The first of a list, at most `n`.
pub open spec fn at_most(list: Seq<ToolSize>, n: nat) -> Seq<ToolSize> {
    if list.len() <= n {
        list
    } else {
        list.take(n as int)
    }
}

/// The row of the tool array.
pub open spec fn tools_row(tools: Seq<ToolDef>) -> RowView {
    let sizes = tool_sizes(tools);
    let largest = tool_names(at_most(in_order(sizes), LARGEST_TOOLS as nat));
    RowView {
        label: "tools ("@ + text::decimal(tools.len()) + ")"@,
        tokens: tokens::saturated(size_sum(sizes)),
        detail: if largest.len() == 0 {
            Seq::empty()
        } else {
            "  largest: "@ + text::join(largest, ", "@)
        },
        nested: false,
    }
}

struct SizedTool {
    name: String,
    codes: Vec<u32>,
    tokens: u64,
}

impl SizedTool {
    spec fn well_formed(self) -> bool {
        self.codes@ == codes(self.name@)
    }

    spec fn size(self) -> ToolSize {
        ToolSize { name: self.name@, tokens: self.tokens as nat }
    }
}

spec fn sizes_of(v: Seq<SizedTool>) -> Seq<ToolSize> {
    v.map_values(|t: SizedTool| t.size())
}

fn codes_of(s: &str) -> (r: Vec<u32>)
    ensures
        r@ == codes(s@),
{
    let chars = text::chars_of(s);
    let mut out: Vec<u32> = Vec::new();
    let mut i: usize = 0;
    while i < chars.len()
        invariant
            i <= chars@.len(),
            chars@ == s@,
            out@ == codes(s@.take(i as int)),
        decreases chars@.len() - i,
    {
        out.push(chars[i] as u32);
        i += 1;
        proof {
            assert(out@ =~= codes(s@.take(i as int)));
        }
    }
    proof {
        assert(s@.take(i as int) =~= s@);
    }
    out
}

fn is_listed_before(a: &SizedTool, b: &SizedTool) -> (r: bool)
    requires
        a.well_formed(),
        b.well_formed(),
    ensures
        r == listed_before(a.size(), b.size()),
{
    a.tokens > b.tokens || (a.tokens == b.tokens && paths::comes_before(&a.codes, &b.codes))
}

fn place(list: &mut Vec<SizedTool>, tool: SizedTool)
    requires
        tool.well_formed(),
        forall|i: int| 0 <= i < old(list)@.len() ==> (#[trigger] old(list)@[i]).well_formed(),
    ensures
        sizes_of(final(list)@) == placed(sizes_of(old(list)@), tool.size()),
        forall|i: int| 0 <= i < final(list)@.len() ==> (#[trigger] final(list)@[i]).well_formed(),
{
    let ghost all = sizes_of(list@);
    let mut at: usize = list.len();
    proof {
        assert(all.take(at as int) =~= all);
        assert(placed(all.take(at as int), tool.size()) + all.skip(at as int) =~= placed(
            all,
            tool.size(),
        ));
    }
    while at > 0 && is_listed_before(&tool, &list[at - 1])
        invariant
            at <= list@.len(),
            all == sizes_of(list@),
            tool.well_formed(),
            forall|i: int| 0 <= i < list@.len() ==> (#[trigger] list@[i]).well_formed(),
            placed(all, tool.size()) == placed(all.take(at as int), tool.size()) + all.skip(
                at as int,
            ),
        decreases at,
    {
        proof {
            let part = all.take(at as int);
            assert(part.last() == list@[at - 1].size());
            assert(part.drop_last() =~= all.take(at - 1));
            assert(placed(part.drop_last(), tool.size()).push(part.last()) + all.skip(at as int)
                =~= placed(part.drop_last(), tool.size()) + all.skip(at - 1));
        }
        at -= 1;
    }
    let ghost before = list@;
    proof {
        let part = all.take(at as int);
        if at > 0 {
            assert(part.last() == list@[at - 1].size());
        }
        assert(placed(part, tool.size()) == part.push(tool.size()));
    }
    list.insert(at, tool);
    proof {
        assert(sizes_of(list@) =~= all.take(at as int).push(tool.size()) + all.skip(at as int));
        assert forall|i: int| 0 <= i < list@.len() implies (#[trigger] list@[i]).well_formed() by {
            if i < at {
                assert(list@[i] == before[i]);
            } else if i > at {
                assert(list@[i] == before[i - 1]);
            }
        }
    }
}

/// The row of the tool array: the total, and the largest tools.
pub fn tool_row(tools: &Vec<ToolDef>) -> (r: Row)
    ensures
        r@ == tools_row(tools@),
{
    let ghost all = tool_sizes(tools@);
    let mut ordered: Vec<SizedTool> = Vec::new();
    let mut total: u64 = 0;
    let mut i: usize = 0;
    proof {
        assert(sizes_of(ordered@) =~= in_order(all.take(0)));
    }
    while i < tools.len()
        invariant
            i <= tools@.len(),
            all == tool_sizes(tools@),
            sizes_of(ordered@) == in_order(all.take(i as int)),
            forall|k: int| 0 <= k < ordered@.len() ==> (#[trigger] ordered@[k]).well_formed(),
            total == tokens::saturated(size_sum(all.take(i as int))),
        decreases tools@.len() - i,
    {
        let tool = &tools[i];
        let size = tokens::estimate_tool_def_tokens(tool);
        let sized = SizedTool {
            name: tool.name.clone(),
            codes: codes_of(tool.name.as_str()),
            tokens: size,
        };
        proof {
            assert(all.take(i + 1).drop_last() =~= all.take(i as int));
            assert(all.take(i + 1).last() == tool_size(*tool));
            assert(sized.size() == tool_size(*tool));
        }
        place(&mut ordered, sized);
        total = total.saturating_add(size);
        i += 1;
    }
    proof {
        assert(all.take(i as int) =~= all);
    }
    let ghost listed = in_order(all);
    let mut largest: Vec<String> = Vec::new();
    let shown: usize = if ordered.len() < LARGEST_TOOLS {
        ordered.len()
    } else {
        LARGEST_TOOLS
    };
    let mut k: usize = 0;
    proof {
        assert(text::texts(largest@) =~= tool_names(listed.take(0)));
    }
    while k < shown
        invariant
            k <= shown <= ordered@.len(),
            listed == sizes_of(ordered@),
            text::texts(largest@) == tool_names(listed.take(k as int)),
        decreases shown - k,
    {
        let mut entry = ordered[k].name.clone();
        entry.append(" ~");
        entry.append(text::decimal_text(ordered[k].tokens).as_str());
        text::push_text(&mut largest, entry);
        k += 1;
        proof {
            assert(text::texts(largest@) =~= tool_names(listed.take(k as int)));
        }
    }
    proof {
        assert(listed.take(k as int) =~= at_most(listed, LARGEST_TOOLS as nat));
        assert(text::texts(largest@).len() == largest@.len());
    }
    let mut label = "tools (".to_owned();
    label.append(text::decimal_text(tools.len() as u64).as_str());
    label.append(")");
    let mut detail = String::new();
    if largest.len() > 0 {
        detail.append("  largest: ");
        detail.append(text::joined(&largest, ", ").as_str());
    }
    proof {
        assert(detail@ =~= tools_row(tools@).detail);
    }
    Row { label, tokens: total, detail, nested: false }
}

// ---------------------------------------------------------------------------
// History by kind
// ---------------------------------------------------------------------------

/// The kinds that history is split into.
pub open spec fn kind_labels() -> Seq<Seq<char>> {
    seq![
        "user text"@,
        "injected text"@,
        "assistant text"@,
        "reasoning"@,
        "images"@,
        "tool calls"@,
        "tool results"@,
    ]
}

/// The kind of a block.
pub open spec fn kind_of(message: MessageView, block: BlockView) -> int {
    match block {
        BlockView::Text { .. } => match message.role {
            Role::User => if message.injected is None {
                0
            } else {
                1
            },
            Role::Assistant => 2,
        },
        BlockView::Thinking { .. } => 3,
        BlockView::RedactedThinking { .. } => 3,
        BlockView::Image { .. } => 4,
        BlockView::ToolUse { .. } => 5,
        BlockView::ToolResult { .. } => 6,
    }
}

/// The sizes of a message's first `n` blocks of a kind, together.
pub open spec fn block_sum(message: MessageView, sizes: Seq<u64>, kind: int, n: nat) -> nat
    decreases n,
{
    if n == 0 {
        0
    } else {
        block_sum(message, sizes, kind, (n - 1) as nat) + if kind_of(message, message.content[n - 1])
            == kind {
            sizes[n - 1] as nat
        } else {
            0
        }
    }
}

/// The sizes of the first `n` messages' blocks of a kind, together.
pub open spec fn kind_sum(
    messages: Seq<MessageView>,
    sizes: Seq<Seq<u64>>,
    kind: int,
    n: nat,
) -> nat
    decreases n,
{
    if n == 0 {
        0
    } else {
        kind_sum(messages, sizes, kind, (n - 1) as nat) + block_sum(
            messages[n - 1],
            sizes[n - 1],
            kind,
            messages[n - 1].content.len(),
        )
    }
}

/// The view of the blocks' sizes.
pub open spec fn size_views(v: Seq<Vec<u64>>) -> Seq<Seq<u64>> {
    v.map_values(|s: Vec<u64>| s@)
}

/// One size for each block.
pub open spec fn sizes_fit(sizes: Seq<Seq<u64>>, messages: Seq<MessageView>) -> bool {
    &&& sizes.len() == messages.len()
    &&& forall|i: int|
        0 <= i < sizes.len() ==> (#[trigger] sizes[i]).len() == messages[i].content.len()
}

/// The rows of the first `n` kinds, those without tokens left out.
pub open spec fn kind_rows(messages: Seq<MessageView>, sizes: Seq<Seq<u64>>, n: nat) -> Seq<RowView>
    decreases n,
{
    if n == 0 {
        Seq::empty()
    } else {
        let before = kind_rows(messages, sizes, (n - 1) as nat);
        let tokens = kind_sum(messages, sizes, n - 1, messages.len());
        if tokens > 0 {
            before.push(nested_row(kind_labels()[n - 1], tokens::saturated(tokens)))
        } else {
            before
        }
    }
}

fn kind(message: &Message, block: &ContentBlock) -> (r: usize)
    ensures
        r == kind_of(message@, block@),
        r < 7,
{
    match block {
        ContentBlock::Text { .. } => match message.role {
            Role::User => match &message.injected {
                None => 0,
                Some(_) => 1,
            },
            Role::Assistant => 2,
        },
        ContentBlock::Thinking { .. } => 3,
        ContentBlock::RedactedThinking { .. } => 3,
        ContentBlock::Image { .. } => 4,
        ContentBlock::ToolUse { .. } => 5,
        ContentBlock::ToolResult { .. } => 6,
    }
}

fn kind_tokens(messages: &Vec<Message>, sizes: &Vec<Vec<u64>>, wanted: usize) -> (r: u64)
    requires
        sizes_fit(size_views(sizes@), protocol::messages(messages@)),
    ensures
        r == tokens::saturated(
            kind_sum(
                protocol::messages(messages@),
                size_views(sizes@),
                wanted as int,
                messages@.len(),
            ),
        ),
{
    let ghost all = protocol::messages(messages@);
    let ghost views = size_views(sizes@);
    let mut total: u64 = 0;
    let mut i: usize = 0;
    while i < messages.len()
        invariant
            i <= messages@.len(),
            all == protocol::messages(messages@),
            views == size_views(sizes@),
            sizes_fit(views, all),
            total == tokens::saturated(kind_sum(all, views, wanted as int, i as nat)),
        decreases messages@.len() - i,
    {
        let message = &messages[i];
        let here = &sizes[i];
        let ghost so_far = kind_sum(all, views, wanted as int, i as nat);
        proof {
            assert(all[i as int] == message@);
            assert(views[i as int] == here@);
            assert(message@.content == protocol::blocks(message.content@));
        }
        let mut j: usize = 0;
        while j < message.content.len()
            invariant
                j <= message.content@.len(),
                message@.content == protocol::blocks(message.content@),
                here@.len() == message.content@.len(),
                total == tokens::saturated(
                    so_far + block_sum(message@, here@, wanted as int, j as nat),
                ),
            decreases message.content@.len() - j,
        {
            proof {
                assert(message@.content[j as int] == message.content@[j as int]@);
            }
            if kind(message, &message.content[j]) == wanted {
                total = total.saturating_add(here[j]);
            }
            j += 1;
        }
        i += 1;
    }
    total
}

fn kind_label(kind: usize) -> (r: &'static str)
    requires
        kind < 7,
    ensures
        r@ == kind_labels()[kind as int],
{
    if kind == 0 {
        "user text"
    } else if kind == 1 {
        "injected text"
    } else if kind == 2 {
        "assistant text"
    } else if kind == 3 {
        "reasoning"
    } else if kind == 4 {
        "images"
    } else if kind == 5 {
        "tool calls"
    } else {
        "tool results"
    }
}

/// History by the kind of its blocks, kinds without tokens left out. `sizes`
/// holds the estimate of each block.
pub fn history_rows(messages: &Vec<Message>, sizes: &Vec<Vec<u64>>) -> (r: Vec<Row>)
    requires
        sizes_fit(size_views(sizes@), protocol::messages(messages@)),
    ensures
        row_views(r@) == kind_rows(protocol::messages(messages@), size_views(sizes@), 7),
{
    let ghost all = protocol::messages(messages@);
    let ghost views = size_views(sizes@);
    let mut rows: Vec<Row> = Vec::new();
    let mut k: usize = 0;
    proof {
        assert(row_views(rows@) =~= kind_rows(all, views, 0));
    }
    while k < 7
        invariant
            k <= 7,
            all == protocol::messages(messages@),
            views == size_views(sizes@),
            sizes_fit(views, all),
            row_views(rows@) == kind_rows(all, views, k as nat),
        decreases 7 - k,
    {
        let total = kind_tokens(messages, sizes, k);
        if total > 0 {
            let detail = String::new();
            proof {
                assert(detail@ =~= Seq::<char>::empty());
            }
            let row = Row { label: kind_label(k).to_owned(), tokens: total, detail, nested: true };
            push_row(&mut rows, row);
        }
        k += 1;
    }
    rows
}

// ---------------------------------------------------------------------------
// The listing
// ---------------------------------------------------------------------------

/// The rows of injected parts.
pub open spec fn segment_rows(segments: Seq<Segment>) -> Seq<RowView> {
    segments.map_values(|s: Segment| top_row(s.label@, tokens::text_tokens(s.text@)))
}

/// The row of the history.
pub open spec fn history_row(messages: nat, tokens: nat) -> RowView {
    top_row(
        "history ("@ + text::decimal(messages) + " "@ + (if messages == 1 {
            "message"@
        } else {
            "messages"@
        }) + ")"@,
        tokens,
    )
}

/// The sum of the first `n` sizes.
pub open spec fn first_sizes(sizes: Seq<u64>, n: nat) -> nat
    decreases n,
{
    if n == 0 {
        0
    } else {
        first_sizes(sizes, (n - 1) as nat) + sizes[n - 1] as nat
    }
}

/// The conversation as the last requests carried it, stubs in place, with the
/// estimate of each message and of each of its blocks.
#[derive(Debug, PartialEq, Eq)]
pub struct AsSent {
    pub messages: Vec<Message>,
    pub sizes: Vec<u64>,
    pub block_sizes: Vec<Vec<u64>>,
}

#[verifier::ext_equal]
pub struct AsSentView {
    pub messages: Seq<MessageView>,
    pub sizes: Seq<u64>,
    pub block_sizes: Seq<Seq<u64>>,
}

impl View for AsSent {
    type V = AsSentView;

    open spec fn view(&self) -> AsSentView {
        AsSentView {
            messages: protocol::messages(self.messages@),
            sizes: self.sizes@,
            block_sizes: size_views(self.block_sizes@),
        }
    }
}

/// One size for each message and one for each block.
pub open spec fn is_sized(sent: AsSentView) -> bool {
    sent.sizes.len() == sent.messages.len() && sizes_fit(sent.block_sizes, sent.messages)
}

/// The rows that stand for themselves. The history is as large as it was sent.
pub open spec fn top_rows(
    system: Seq<char>,
    segments: Seq<Segment>,
    tools: Result<Vec<ToolDef>, String>,
    sent: AsSentView,
) -> Seq<RowView> {
    seq![top_row("system prompt"@, tokens::text_tokens(system))] + segment_rows(segments) + (
    match tools {
        Ok(list) => seq![tools_row(list@)],
        Err(_) => seq![],
    }) + seq![
        history_row(
            sent.messages.len(),
            tokens::saturated(first_sizes(sent.sizes, sent.messages.len())),
        ),
    ]
}

/// The sum over the rows.
pub open spec fn row_sum(rows: Seq<RowView>) -> nat
    decreases rows.len(),
{
    if rows.len() == 0 {
        0
    } else {
        row_sum(rows.drop_last()) + rows.last().tokens
    }
}

/// The rows as they are written.
pub open spec fn rows_text(rows: Seq<RowView>) -> Seq<char>
    decreases rows.len(),
{
    if rows.len() == 0 {
        Seq::empty()
    } else {
        rows_text(rows.drop_last()) + row_text(rows.last())
    }
}

/// What `/context` shows: the rows, the total of those that stand for
/// themselves, and what is known beside the estimate. `sizes` holds the estimate
/// of each message of the history, recorded ones first, then the staged ones.
pub open spec fn context_text(
    system: Seq<char>,
    segments: Seq<Segment>,
    tools: Result<Vec<ToolDef>, String>,
    h: history::HistoryView,
    sizes: Seq<u64>,
    sent: AsSentView,
    window: Option<u64>,
) -> Seq<char> {
    let top = top_rows(system, segments, tools, sent);
    "context by segment (estimated):"@ + rows_text(
        top + kind_rows(sent.messages, sent.block_sizes, 7),
    ) + row_text(top_row("total"@, tokens::saturated(row_sum(top)))) + beside_text(
        tools,
        h,
        sizes,
        window,
    )
}

fn sum_of_first(sizes: &Vec<u64>, n: usize) -> (r: u64)
    requires
        n <= sizes@.len(),
    ensures
        r == tokens::saturated(first_sizes(sizes@, n as nat)),
{
    let mut total: u64 = 0;
    let mut i: usize = 0;
    while i < n
        invariant
            i <= n <= sizes@.len(),
            total == tokens::saturated(first_sizes(sizes@, i as nat)),
        decreases n - i,
    {
        total = total.saturating_add(sizes[i]);
        i += 1;
    }
    total
}

fn total_of(rows: &Vec<Row>) -> (r: u64)
    ensures
        r == tokens::saturated(row_sum(row_views(rows@))),
{
    let ghost all = row_views(rows@);
    let mut total: u64 = 0;
    let mut i: usize = 0;
    proof {
        assert(row_sum(all.take(0)) == 0);
    }
    while i < rows.len()
        invariant
            i <= rows@.len(),
            all == row_views(rows@),
            total == tokens::saturated(row_sum(all.take(i as int))),
        decreases rows@.len() - i,
    {
        proof {
            assert(all.take(i + 1).drop_last() =~= all.take(i as int));
            assert(all.take(i + 1).last() == rows@[i as int]@);
        }
        total = total.saturating_add(rows[i].tokens);
        i += 1;
    }
    proof {
        assert(all.take(i as int) =~= all);
    }
    total
}

fn render_rows(out: &mut String, rows: &Vec<Row>)
    ensures
        final(out)@ == old(out)@ + rows_text(row_views(rows@)),
{
    let ghost before = out@;
    let ghost all = row_views(rows@);
    let mut i: usize = 0;
    proof {
        assert(out@ =~= before + rows_text(all.take(0)));
    }
    while i < rows.len()
        invariant
            i <= rows@.len(),
            all == row_views(rows@),
            out@ == before + rows_text(all.take(i as int)),
        decreases rows@.len() - i,
    {
        proof {
            assert(all.take(i + 1).drop_last() =~= all.take(i as int));
            assert(all.take(i + 1).last() == rows@[i as int]@);
        }
        out.append(rows[i].render().as_str());
        i += 1;
        proof {
            assert(out@ =~= before + rows_text(all.take(i as int)));
        }
    }
    proof {
        assert(all.take(i as int) =~= all);
    }
}

proof fn lemma_rows_text_add(a: Seq<RowView>, b: Seq<RowView>)
    ensures
        rows_text(a + b) == rows_text(a) + rows_text(b),
    decreases b.len(),
{
    if b.len() == 0 {
        assert(a + b =~= a);
        assert(rows_text(a + b) =~= rows_text(a) + rows_text(b));
    } else {
        lemma_rows_text_add(a, b.drop_last());
        assert((a + b).drop_last() =~= a + b.drop_last());
        assert((a + b).last() == b.last());
        assert(rows_text(a + b) =~= rows_text(a) + rows_text(b));
    }
}

/// The rows that stand for themselves.
fn own_rows(
    system: &str,
    segments: &Vec<Segment>,
    tools: &Result<Vec<ToolDef>, String>,
    sent: &AsSent,
) -> (r: Vec<Row>)
    requires
        is_sized(sent@),
    ensures
        row_views(r@) == top_rows(system@, segments@, *tools, sent@),
{
    let mut rows: Vec<Row> = Vec::new();
    push_row(
        &mut rows,
        Row::top("system prompt".to_owned(), tokens::estimate_text_tokens(system)),
    );
    let ghost head = seq![top_row("system prompt"@, tokens::text_tokens(system@))];
    let ghost parts = segments@;
    let mut i: usize = 0;
    proof {
        assert(row_views(rows@) =~= head + segment_rows(parts.take(0)));
    }
    while i < segments.len()
        invariant
            i <= segments@.len(),
            parts == segments@,
            row_views(rows@) == head + segment_rows(parts.take(i as int)),
        decreases segments@.len() - i,
    {
        push_row(
            &mut rows,
            Row::top(
                segments[i].label.clone(),
                tokens::estimate_text_tokens(segments[i].text.as_str()),
            ),
        );
        i += 1;
        proof {
            assert(row_views(rows@) =~= head + segment_rows(parts.take(i as int)));
        }
    }
    proof {
        assert(parts.take(i as int) =~= parts);
    }
    if let Ok(list) = tools {
        push_row(&mut rows, tool_row(list));
    }
    let count: usize = sent.messages.len();
    let total = sum_of_first(&sent.sizes, count);
    let mut label = "history (".to_owned();
    label.append(text::decimal_text(count as u64).as_str());
    label.append(" ");
    if count == 1 {
        label.append("message");
    } else {
        label.append("messages");
    }
    label.append(")");
    proof {
        assert(sent@.messages.len() == count);
        assert(label@ =~= history_row(count as nat, total as nat).label);
    }
    push_row(&mut rows, Row::top(label, total));
    proof {
        assert(row_views(rows@) =~= top_rows(system@, segments@, *tools, sent@));
    }
    rows
}

/// What is known beside the estimate.
pub open spec fn beside_text(
    tools: Result<Vec<ToolDef>, String>,
    h: history::HistoryView,
    sizes: Seq<u64>,
    window: Option<u64>,
) -> Seq<char> {
    (match tools {
        Err(error) => "\ntools: unavailable ("@ + error@ + ")"@,
        Ok(_) => Seq::empty(),
    }) + (if h.anchor is Some {
        "\nprovider-measured: ~"@ + text::decimal(history::context_tokens(h, sizes))
            + " tokens (last reported prompt plus what came after)"@
    } else {
        Seq::empty()
    }) + (match window {
        Some(w) => "\nwindow: "@ + text::decimal(w as nat) + " tokens"@,
        None => Seq::empty(),
    })
}

fn beside(
    tools: &Result<Vec<ToolDef>, String>,
    history: &History,
    sizes: &Vec<u64>,
    window: Option<u64>,
) -> (r: String)
    requires
        sizes@.len() == history@.items.len() + history@.staged.len(),
        history::context_tokens(history@, sizes@) <= u64::MAX,
    ensures
        r@ == beside_text(*tools, history@, sizes@, window),
{
    let mut out = String::new();
    if let Err(error) = tools {
        out.append("\ntools: unavailable (");
        out.append(error.as_str());
        out.append(")");
    }
    let ghost first = out@;
    proof {
        assert(first =~= (match *tools {
            Err(error) => "\ntools: unavailable ("@ + error@ + ")"@,
            Ok(_) => Seq::empty(),
        }));
    }
    if history.has_usage_anchor() {
        out.append("\nprovider-measured: ~");
        out.append(text::decimal_text(history.estimated_tokens(sizes)).as_str());
        out.append(" tokens (last reported prompt plus what came after)");
    }
    let ghost second = out@;
    proof {
        assert(second =~= first + (if history@.anchor is Some {
            "\nprovider-measured: ~"@ + text::decimal(history::context_tokens(history@, sizes@))
                + " tokens (last reported prompt plus what came after)"@
        } else {
            Seq::empty()
        }));
    }
    if let Some(w) = window {
        out.append("\nwindow: ");
        out.append(text::decimal_text(w).as_str());
        out.append(" tokens");
    }
    proof {
        assert(out@ =~= second + (match window {
            Some(w) => "\nwindow: "@ + text::decimal(w as nat) + " tokens"@,
            None => Seq::empty(),
        }));
    }
    out
}

/// Shows where the context goes, part by part. The history is sized as it was
/// sent; `sizes` holds the estimate of each message as it is kept, recorded ones
/// first, and serves the size that the provider measured.
pub fn run(
    history: &History,
    system: &str,
    segments: &Vec<Segment>,
    tools: &Result<Vec<ToolDef>, String>,
    sizes: &Vec<u64>,
    sent: &AsSent,
    window: Option<u64>,
) -> (r: SlashResult)
    requires
        sizes@.len() == history@.items.len() + history@.staged.len(),
        history::context_tokens(history@, sizes@) <= u64::MAX,
        is_sized(sent@),
    ensures
        r@ == commands::shows(
            context_text(
                system@,
                segments@,
                *tools,
                history@,
                sizes@,
                sent@,
                window,
            ),
        ),
{
    let ghost top = top_rows(system@, segments@, *tools, sent@);
    let ghost kinds = kind_rows(sent@.messages, sent@.block_sizes, 7);
    let rows = own_rows(system, segments, tools, sent);
    let total = total_of(&rows);
    let nested = history_rows(&sent.messages, &sent.block_sizes);
    let mut out = "context by segment (estimated):".to_owned();
    render_rows(&mut out, &rows);
    render_rows(&mut out, &nested);
    out.append(Row::top("total".to_owned(), total).render().as_str());
    proof {
        lemma_rows_text_add(top, kinds);
        assert(out@ =~= "context by segment (estimated):"@ + rows_text(top + kinds) + row_text(
            top_row("total"@, total as nat),
        ));
    }
    out.append(beside(tools, history, sizes, window).as_str());
    SlashResult::message(out)
}

// ---------------------------------------------------------------------------
// Laws
// ---------------------------------------------------------------------------

proof fn lemma_listed_asymmetric(a: ToolSize, b: ToolSize)
    ensures
        !(listed_before(a, b) && listed_before(b, a)),
{
    if listed_before(a, b) && listed_before(b, a) {
        paths::lemma_before_transitive(codes(a.name), codes(b.name), codes(a.name));
        paths::lemma_before_irreflexive(codes(a.name));
    }
}

/// What is not after `b` is before whatever `b` is before.
proof fn lemma_listed_chain(a: ToolSize, b: ToolSize, c: ToolSize)
    requires
        listed_before(a, b),
        !listed_before(c, b),
    ensures
        listed_before(a, c),
{
    let (ka, kb, kc) = (codes(a.name), codes(b.name), codes(c.name));
    paths::lemma_before_total(kb, kc);
    if a.tokens == b.tokens && b.tokens == c.tokens {
        if paths::before(kb, kc) {
            paths::lemma_before_transitive(ka, kb, kc);
        }
    }
}

/// Whether nothing stands behind something it is to be listed before.
pub open spec fn is_in_order(list: Seq<ToolSize>) -> bool {
    forall|i: int, j: int|
        0 <= i < j < list.len() ==> !listed_before(#[trigger] list[j], #[trigger] list[i])
}

proof fn lemma_placed(list: Seq<ToolSize>, tool: ToolSize)
    requires
        is_in_order(list),
    ensures
        placed(list, tool).len() == list.len() + 1,
        placed(list, tool).to_multiset() == list.to_multiset().insert(tool),
        is_in_order(placed(list, tool)),
        forall|i: int|
            0 <= i <= list.len() ==> #[trigger] placed(list, tool)[i] == tool || exists|k: int|
                0 <= k < list.len() && list[k] == placed(list, tool)[i],
    decreases list.len(),
{
    let now = placed(list, tool);
    if list.len() > 0 && listed_before(tool, list.last()) {
        let front = list.drop_last();
        let inner = placed(front, tool);
        lemma_placed(front, tool);
        lemma_listed_asymmetric(tool, list.last());
        assert(list =~= front.push(list.last()));
        front.to_multiset_ensures();
        inner.to_multiset_ensures();
        assert(now.to_multiset() =~= list.to_multiset().insert(tool));
        assert forall|i: int| 0 <= i < inner.len() implies !listed_before(
            list.last(),
            #[trigger] inner[i],
        ) && (inner[i] == tool || exists|k: int| 0 <= k < list.len() && list[k] == inner[i]) by {
            if inner[i] != tool {
                let k = choose|k: int| 0 <= k < front.len() && front[k] == inner[i];
                assert(list[k] == front[k]);
                assert(!listed_before(list[list.len() - 1], list[k]));
            }
        }
        assert forall|i: int, j: int| 0 <= i < j < now.len() implies !listed_before(
            #[trigger] now[j],
            #[trigger] now[i],
        ) by {
            assert(now[i] == inner[i]);
            if j < inner.len() {
                assert(now[j] == inner[j]);
            }
        }
        assert forall|i: int| 0 <= i <= list.len() implies #[trigger] now[i] == tool || exists|
            k: int,
        |
            0 <= k < list.len() && list[k] == now[i] by {
            if i < inner.len() {
                assert(now[i] == inner[i]);
            } else {
                assert(list[list.len() - 1] == now[i]);
            }
        }
    } else {
        list.to_multiset_ensures();
        assert forall|i: int, j: int| 0 <= i < j < now.len() implies !listed_before(
            #[trigger] now[j],
            #[trigger] now[i],
        ) by {
            assert(now[i] == list[i]);
            if j < list.len() {
                assert(now[j] == list[j]);
            } else if listed_before(tool, list[i]) {
                if i < list.len() - 1 {
                    assert(!listed_before(list[list.len() - 1], list[i]));
                    lemma_listed_chain(tool, list[i], list.last());
                }
            }
        }
        assert forall|i: int| 0 <= i <= list.len() implies #[trigger] now[i] == tool || exists|
            k: int,
        |
            0 <= k < list.len() && list[k] == now[i] by {
            if i < list.len() {
                assert(list[i] == now[i]);
            }
        }
    }
}

/// Tools are listed with the larger first and names breaking ties, and every
/// tool is listed exactly as often as it occurs.
pub proof fn law_tools_are_listed_in_order(list: Seq<ToolSize>)
    ensures
        is_in_order(in_order(list)),
        in_order(list).to_multiset() == list.to_multiset(),
        in_order(list).len() == list.len(),
    decreases list.len(),
{
    if list.len() > 0 {
        let front = list.drop_last();
        law_tools_are_listed_in_order(front);
        lemma_placed(in_order(front), list.last());
        assert(list =~= front.push(list.last()));
        front.to_multiset_ensures();
    } else {
        assert(in_order(list) =~= list);
    }
}

/// A block is counted under what it is: text by who wrote it, and whether it was put in
/// for them; reasoning, readable or not; images; calls; and results.
pub proof fn law_what_a_block_counts_as(message: MessageView, block: BlockView)
    ensures
        kind_labels()[kind_of(message, block)] == (match block {
            BlockView::Text { .. } => if message.role == Role::Assistant {
                "assistant text"@
            } else if message.injected is Some {
                "injected text"@
            } else {
                "user text"@
            },
            BlockView::Thinking { .. } => "reasoning"@,
            BlockView::RedactedThinking { .. } => "reasoning"@,
            BlockView::Image { .. } => "images"@,
            BlockView::ToolUse { .. } => "tool calls"@,
            BlockView::ToolResult { .. } => "tool results"@,
        }),
        0 <= kind_of(message, block) < 7,
{
}

/// The sizes of all blocks of a message up to one.
pub open spec fn all_blocks(sizes: Seq<u64>, n: nat) -> nat
    decreases n,
{
    if n == 0 {
        0
    } else {
        all_blocks(sizes, (n - 1) as nat) + sizes[n - 1] as nat
    }
}

/// The sizes of all blocks of all messages up to one.
pub open spec fn all_messages(messages: Seq<MessageView>, sizes: Seq<Seq<u64>>, n: nat) -> nat
    decreases n,
{
    if n == 0 {
        0
    } else {
        all_messages(messages, sizes, (n - 1) as nat) + all_blocks(
            sizes[n - 1],
            messages[n - 1].content.len(),
        )
    }
}

proof fn lemma_blocks_have_one_kind(message: MessageView, sizes: Seq<u64>, n: nat)
    ensures
        block_sum(message, sizes, 0, n) + block_sum(message, sizes, 1, n) + block_sum(
            message,
            sizes,
            2,
            n,
        ) + block_sum(message, sizes, 3, n) + block_sum(message, sizes, 4, n) + block_sum(
            message,
            sizes,
            5,
            n,
        ) + block_sum(message, sizes, 6, n) == all_blocks(sizes, n),
    decreases n,
{
    if n > 0 {
        lemma_blocks_have_one_kind(message, sizes, (n - 1) as nat);
        law_what_a_block_counts_as(message, message.content[n - 1]);
    }
}

/// Every block is counted once: the kinds together are the whole conversation.
pub proof fn law_every_block_is_counted_once(
    messages: Seq<MessageView>,
    sizes: Seq<Seq<u64>>,
    n: nat,
)
    ensures
        kind_sum(messages, sizes, 0, n) + kind_sum(messages, sizes, 1, n) + kind_sum(
            messages,
            sizes,
            2,
            n,
        ) + kind_sum(messages, sizes, 3, n) + kind_sum(messages, sizes, 4, n) + kind_sum(
            messages,
            sizes,
            5,
            n,
        ) + kind_sum(messages, sizes, 6, n) == all_messages(messages, sizes, n),
    decreases n,
{
    if n > 0 {
        law_every_block_is_counted_once(messages, sizes, (n - 1) as nat);
        lemma_blocks_have_one_kind(
            messages[n - 1],
            sizes[n - 1],
            messages[n - 1].content.len(),
        );
    }
}

/// A kind has a row exactly where something counts under it, and the row says how much;
/// the rows are in the order of the kinds.
pub proof fn law_a_kind_has_a_row_where_it_counts(
    messages: Seq<MessageView>,
    sizes: Seq<Seq<u64>>,
    n: nat,
)
    requires
        n < 7,
    ensures
        ({
            let tokens = kind_sum(messages, sizes, n as int, messages.len());
            let before = kind_rows(messages, sizes, n);
            let now = kind_rows(messages, sizes, n + 1);
            &&& tokens == 0 ==> now == before
            &&& tokens > 0 ==> now.len() == before.len() + 1 && now.take(before.len() as int)
                == before && now.last().label == kind_labels()[n as int] && now.last().nested
                && now.last().tokens == (if tokens <= u64::MAX {
                tokens
            } else {
                u64::MAX as nat
            })
        }),
        kind_rows(messages, sizes, 0).len() == 0,
{
    let before = kind_rows(messages, sizes, n);
    let now = kind_rows(messages, sizes, n + 1);
    if kind_sum(messages, sizes, n as int, messages.len()) > 0 {
        assert(now.take(before.len() as int) =~= before);
    }
}

/// The rows at the top are the system prompt, the segments in their order, the tools where
/// they are known, and the conversation; the total is theirs together.
pub proof fn law_what_stands_at_the_top(
    system: Seq<char>,
    segments: Seq<Segment>,
    tools: Result<Vec<ToolDef>, String>,
    sent: AsSentView,
)
    ensures
        ({
            let rows = top_rows(system, segments, tools, sent);
            let k: int = if tools is Ok {
                1
            } else {
                0
            };
            &&& rows.len() == 2 + segments.len() + k
            &&& rows[0].label == "system prompt"@ && rows[0].tokens == tokens::text_tokens(system)
            &&& forall|i: int|
                0 <= i < segments.len() ==> (#[trigger] rows[1 + i]).label == segments[i].label@
                    && rows[1 + i].tokens == tokens::text_tokens(segments[i].text@)
            &&& k == 1 ==> rows[1 + segments.len() as int] == tools_row(tools->Ok_0@)
            &&& rows.last().label == "history ("@ + text::decimal(sent.messages.len()) + " "@ + (
            if sent.messages.len() == 1 {
                "message"@
            } else {
                "messages"@
            }) + ")"@
            &&& rows.last().tokens == tokens::saturated(
                first_sizes(sent.sizes, sent.messages.len()),
            )
            &&& forall|i: int| 0 <= i < rows.len() ==> !(#[trigger] rows[i]).nested
            &&& row_sum(rows) == row_sum(rows.drop_last()) + rows.last().tokens
        }),
{
    let rows = top_rows(system, segments, tools, sent);
    let middle = segment_rows(segments);
    assert forall|i: int| 0 <= i < segments.len() implies (#[trigger] rows[1 + i]).label
        == segments[i].label@ && rows[1 + i].tokens == tokens::text_tokens(segments[i].text@) by {
        assert(rows[1 + i] == middle[i]);
    }
    assert forall|i: int| 0 <= i < rows.len() implies !(#[trigger] rows[i]).nested by {
        if 1 <= i < 1 + segments.len() {
            assert(rows[i] == middle[i - 1]);
        }
    }
}

/// The row of the tools counts all of them, and names the three largest.
pub proof fn law_the_row_of_the_tools(tools: Seq<ToolDef>)
    ensures
        ({
            let row = tools_row(tools);
            let list = in_order(tool_sizes(tools));
            let named = if list.len() <= 3 {
                list
            } else {
                list.take(3)
            };
            &&& row.label == "tools ("@ + text::decimal(tools.len()) + ")"@
            &&& row.tokens == tokens::saturated(size_sum(tool_sizes(tools)))
            &&& tools.len() == 0 ==> row.detail.len() == 0
            &&& tools.len() > 0 ==> row.detail == "  largest: "@ + text::join(
                tool_names(named),
                ", "@,
            )
            &&& !row.nested
        }),
{
    law_tools_are_listed_in_order(tool_sizes(tools));
}

/// Of two tools the larger is listed first; of two as large, the one whose name comes
/// first.
pub proof fn law_which_tool_is_listed_first(a: ToolSize, b: ToolSize)
    ensures
        a.tokens > b.tokens ==> listed_before(a, b) && !listed_before(b, a),
        a.tokens == b.tokens ==> (listed_before(a, b) <==> paths::before(
            a.name.map_values(|c: char| c as u32),
            b.name.map_values(|c: char| c as u32),
        )),
{
    assert(codes(a.name) =~= a.name.map_values(|c: char| c as u32));
    assert(codes(b.name) =~= b.name.map_values(|c: char| c as u32));
}

/// Beside the rows stands what could not be listed, what the provider counted, and the
/// window, each only where there is something to say.
pub proof fn law_what_stands_beside_the_rows(
    tools: Result<Vec<ToolDef>, String>,
    h: history::HistoryView,
    sizes: Seq<u64>,
    window: Option<u64>,
)
    ensures
        tools is Ok && h.anchor is None && window is None ==> beside_text(
            tools,
            h,
            sizes,
            window,
        ).len() == 0,
        tools is Ok && h.anchor is None && window is Some ==> beside_text(tools, h, sizes, window)
            == "\nwindow: "@ + text::decimal(window->0 as nat) + " tokens"@,
        tools is Ok && h.anchor is Some && window is None ==> beside_text(tools, h, sizes, window)
            == "\nprovider-measured: ~"@ + text::decimal(history::context_tokens(h, sizes))
            + " tokens (last reported prompt plus what came after)"@,
        tools matches Err(error) ==> (h.anchor is None && window is None ==> beside_text(
            tools,
            h,
            sizes,
            window,
        ) == "\ntools: unavailable ("@ + error@ + ")"@),
{
    let none = Seq::<char>::empty();
    let w = "\nwindow: "@ + text::decimal(window->0 as nat) + " tokens"@;
    let m = "\nprovider-measured: ~"@ + text::decimal(history::context_tokens(h, sizes))
        + " tokens (last reported prompt plus what came after)"@;
    assert(none + none + w =~= w);
    assert(none + m + none =~= m);
    if let Err(error) = tools {
        let e = "\ntools: unavailable ("@ + error@ + ")"@;
        assert(e + none + none =~= e);
    }
}

/// A row is its label and, behind spaces up to a common column, its size; a nested row is
/// set in by two more.
pub proof fn law_how_a_row_is_written(row: RowView)
    requires
        row.label.len() <= 22,
        text::decimal(row.tokens).len() <= 7,
    ensures
        ({
            let line = row_text(row);
            let size = "~"@ + text::decimal(row.tokens);
            let indent: int = if row.nested {
                4
            } else {
                2
            };
            &&& line.len() == 1 + 26 + 8 + row.detail.len()
            &&& line[0] == '\n'
            &&& line.subrange(1 + indent, 1 + indent + row.label.len()) == row.label
            &&& line.subrange(35 - size.len(), 35) == size
            &&& line.skip(35) == row.detail
        }),
{
    reveal_strlit("\n");
    reveal_strlit("~");
    reveal_strlit("    ");
    reveal_strlit("  ");
    let line = row_text(row);
    let size = "~"@ + text::decimal(row.tokens);
    let indent: int = if row.nested {
        4
    } else {
        2
    };
    assert(line.subrange(1 + indent, 1 + indent + row.label.len()) =~= row.label);
    assert(line.subrange(35 - size.len(), 35) =~= size);
    assert(line.skip(35) =~= row.detail);
}

/// The text is every row once, in order.
pub proof fn law_every_row_is_written(rows: Seq<RowView>, row: RowView)
    ensures
        rows_text(rows.push(row)) == rows_text(rows) + row_text(row),
        rows_text(Seq::<RowView>::empty()).len() == 0,
        row_sum(rows.push(row)) == row_sum(rows) + row.tokens,
        row_sum(Seq::<RowView>::empty()) == 0,
{
    assert(rows.push(row).drop_last() =~= rows);
    assert(rows.push(row).last() == row);
}

/// The size of the tools is that of all of them, and of each that of what the model sees.
pub proof fn law_the_size_of_the_tools(tools: Seq<ToolDef>, tool: ToolDef)
    ensures
        size_sum(tool_sizes(tools.push(tool))) == size_sum(tool_sizes(tools)) + tokens::saturated(
            tokens::text_tokens(tool.name@ + tool.description@ + tool.compact_schema()),
        ),
        tool_sizes(tools.push(tool)).last().name == tool.name@,
        size_sum(tool_sizes(Seq::<ToolDef>::empty())) == 0,
{
    assert(tool_sizes(tools.push(tool)) =~= tool_sizes(tools).push(tool_size(tool)));
    let all = tool_sizes(tools).push(tool_size(tool));
    assert(all.drop_last() =~= tool_sizes(tools));
    assert(tool_sizes(Seq::<ToolDef>::empty()) =~= Seq::<ToolSize>::empty());
}

} // verus!

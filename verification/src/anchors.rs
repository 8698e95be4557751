//! What the user said, carried across compactions by the runtime.
//!
//! A summary of a summary loses the user's own words. The runtime copies them
//! into every generation itself and inherits them only from the previous
//! generation's anchors.

use vstd::prelude::*;

use crate::inbox;
use crate::protocol::{
    BlockView, ContentBlock, Injected, InjectedView, Message, MessageView, Role,
};
use crate::protocol;
use crate::text;
use crate::tokens;

verus! {

pub const HEADER: &'static str =
    "[What the user said earlier in this session, verbatim — carried across compactions]";

pub const ORIGINAL_LABEL: &'static str = "Original request:";

pub const LATER_LABEL: &'static str = "Later messages (oldest first):";

/// Every body line carries this prefix, so a body may hold blank lines, a line
/// that starts like an item, or either label without ending its entry.
pub const INDENT: &'static str = "  ";

pub const ITEM: &'static str = "- ";

/// The original request is kept whatever else goes; this caps it.
pub const ORIGINAL_CHARS: usize = 4_000;

pub const LATER_CHARS: usize = 2_000;

/// Estimated tokens for the later messages, filled newest first.
pub const LATER_TOKENS: u64 = 4_096;

/// Room left for the elision marker inside a capped message.
pub const MARKER_RESERVE: usize = 64;

/// The user's words: the first request, and what followed, oldest first.
#[derive(Clone, Debug, PartialEq, Eq)]
pub struct UserAnchors {
    pub original: String,
    pub later: Vec<String>,
    /// Later messages dropped for the token budget, across all generations.
    pub omitted: usize,
}

/// The mathematical content of the anchors.
#[verifier::ext_equal]
pub struct AnchorsView {
    pub original: Seq<char>,
    pub later: Seq<Seq<char>>,
    pub omitted: nat,
}

impl View for UserAnchors {
    type V = AnchorsView;

    open spec fn view(&self) -> AnchorsView {
        AnchorsView {
            original: self.original@,
            later: text::texts(self.later@),
            omitted: self.omitted as nat,
        }
    }
}

// ---------------------------------------------------------------------------
// The written form
// ---------------------------------------------------------------------------

pub open spec fn newline() -> Seq<char> {
    seq!['\n']
}

/// The lines of a body: `head` before the first, the indent before the others.
pub open spec fn body_lines(head: Seq<char>, body: Seq<char>) -> Seq<Seq<char>> {
    text::split(body, '\n').map(
        |i: int, line: Seq<char>|
            if i == 0 {
                head + line
            } else {
                INDENT@ + line
            },
    )
}

/// The lines of all later messages.
pub open spec fn later_lines(later: Seq<Seq<char>>) -> Seq<Seq<char>>
    decreases later.len(),
{
    if later.len() == 0 {
        Seq::empty()
    } else {
        body_lines(ITEM@, later[0]) + later_lines(later.drop_first())
    }
}

pub open spec fn omitted_line(omitted: nat) -> Seq<char> {
    "("@ + text::decimal(omitted) + " earlier message(s) omitted)"@
}

/// The lines after the original request.
pub open spec fn later_section(a: AnchorsView) -> Seq<Seq<char>> {
    if a.later.len() == 0 && a.omitted == 0 {
        Seq::empty()
    } else {
        seq![Seq::<char>::empty(), LATER_LABEL@] + (if a.omitted > 0 {
            seq![omitted_line(a.omitted)]
        } else {
            Seq::<Seq<char>>::empty()
        }) + later_lines(a.later)
    }
}

/// The lines of the written form.
pub open spec fn render_lines(a: AnchorsView) -> Seq<Seq<char>> {
    seq![HEADER@, Seq::<char>::empty(), ORIGINAL_LABEL@] + body_lines(INDENT@, a.original)
        + later_section(a)
}

/// The written form.
pub open spec fn rendered(a: AnchorsView) -> Seq<char> {
    text::join(render_lines(a), newline())
}

// ---------------------------------------------------------------------------
// Reading the written form
// ---------------------------------------------------------------------------

/// How many lines from `at` on are indented without a break.
pub open spec fn indented(lines: Seq<Seq<char>>, at: nat) -> nat
    decreases lines.len() - at,
{
    if at < lines.len() && text::starts_with(lines[at as int], INDENT@) {
        1 + indented(lines, at + 1)
    } else {
        0
    }
}

/// `n` lines from `at` on without their two-character prefix.
pub open spec fn bare(lines: Seq<Seq<char>>, at: nat, n: nat) -> Seq<Seq<char>> {
    Seq::new(n, |i: int| lines[at + i].skip(2))
}

/// The items from line `at` on; nothing where a line begins none.
pub open spec fn items_from(lines: Seq<Seq<char>>, at: nat) -> Option<Seq<Seq<char>>>
    decreases
            (if at < lines.len() {
                lines.len() - at
            } else {
                0
            }),
{
    if at >= lines.len() {
        Some(Seq::empty())
    } else if !text::starts_with(lines[at as int], ITEM@) {
        None
    } else {
        let n = indented(lines, at + 1);
        match items_from(lines, at + 1 + n) {
            Some(rest) => Some(seq![text::join(bare(lines, at, n + 1), newline())] + rest),
            None => None,
        }
    }
}

/// The count in a line that tells how many messages were omitted.
pub open spec fn omitted_count(line: Seq<char>) -> Option<nat> {
    let rest = line.drop_first();
    let tail = " earlier message(s) omitted)"@;
    if text::ends_with(rest, tail) {
        text::parse_unsigned(rest.take(rest.len() - tail.len()), usize::MAX as nat)
    } else {
        None
    }
}

/// What follows the original request, from line `at` on.
pub open spec fn later_from(lines: Seq<Seq<char>>, at: nat) -> Option<(Seq<Seq<char>>, nat)> {
    if at >= lines.len() {
        Some((Seq::empty(), 0))
    } else if lines[at as int].len() != 0 || at + 1 >= lines.len() || lines[at as int + 1]
        != LATER_LABEL@ {
        None
    } else if at + 2 < lines.len() && text::starts_with(lines[at as int + 2], "("@) {
        match (omitted_count(lines[at as int + 2]), items_from(lines, at + 3)) {
            (Some(omitted), Some(later)) => Some((later, omitted)),
            _ => None,
        }
    } else {
        match items_from(lines, at + 2) {
            Some(later) => Some((later, 0)),
            None => None,
        }
    }
}

/// The anchors that the lines spell, where they spell any.
pub open spec fn parse_lines(lines: Seq<Seq<char>>) -> Option<AnchorsView> {
    if lines.len() < 3 || lines[0] != HEADER@ || lines[1].len() != 0 || lines[2]
        != ORIGINAL_LABEL@ {
        None
    } else {
        let n = indented(lines, 3);
        if n == 0 {
            None
        } else {
            match later_from(lines, 3 + n) {
                Some((later, omitted)) => Some(
                    AnchorsView {
                        original: text::join(bare(lines, 3, n), newline()),
                        later,
                        omitted,
                    },
                ),
                None => None,
            }
        }
    }
}

/// The anchors that a text is the written form of, where it is one of any.
pub open spec fn parsed(s: Seq<char>) -> Option<AnchorsView> {
    match parse_lines(text::split(s, '\n')) {
        Some(a) => if rendered(a) == s {
            Some(a)
        } else {
            None
        },
        None => None,
    }
}

// ---------------------------------------------------------------------------
// Writing and reading are inverse
// ---------------------------------------------------------------------------

proof fn lemma_prefix_facts()
    ensures
        INDENT@ == seq![' ', ' '],
        ITEM@ == seq!['-', ' '],
        "("@ == seq!['('],
        HEADER@.len() > 0,
        HEADER@[0] == '[',
        !HEADER@.contains('\n'),
        !ORIGINAL_LABEL@.contains('\n'),
        !LATER_LABEL@.contains('\n'),
        LATER_LABEL@.len() > 0,
        LATER_LABEL@[0] == 'L',
        !" earlier message(s) omitted)"@.contains('\n'),
{
    reveal_strlit("  ");
    reveal_strlit("- ");
    reveal_strlit("(");
    reveal_strlit(
        "[What the user said earlier in this session, verbatim — carried across compactions]",
    );
    reveal_strlit("Original request:");
    reveal_strlit("Later messages (oldest first):");
    reveal_strlit(" earlier message(s) omitted)");
    assert(INDENT@ =~= seq![' ', ' ']);
    assert(ITEM@ =~= seq!['-', ' ']);
    assert("("@ =~= seq!['(']);
}

/// A body's lines: the first begins with `head`, the others with the indent,
/// none holds a line break, and what follows the prefixes is the body split.
proof fn lemma_body_lines(head: Seq<char>, body: Seq<char>)
    requires
        head.len() == 2,
        !head.contains('\n'),
    ensures
        body_lines(head, body).len() == text::split(body, '\n').len() > 0,
        text::starts_with(body_lines(head, body)[0], head),
        forall|i: int|
            1 <= i < body_lines(head, body).len() ==> text::starts_with(
                #[trigger] body_lines(head, body)[i],
                INDENT@,
            ),
        forall|i: int|
            0 <= i < body_lines(head, body).len() ==> (#[trigger] body_lines(head, body)[i]).skip(2)
                == text::split(body, '\n')[i],
        forall|i: int|
            0 <= i < body_lines(head, body).len() ==> !(#[trigger] body_lines(
                head,
                body,
            )[i]).contains('\n'),
{
    lemma_prefix_facts();
    text::lemma_split_nonempty(body, '\n');
    text::lemma_split_free(body, '\n');
    let pieces = text::split(body, '\n');
    let lines = body_lines(head, body);
    assert(lines[0].take(2) =~= head);
    assert forall|i: int| 1 <= i < lines.len() implies text::starts_with(
        #[trigger] lines[i],
        INDENT@,
    ) by {
        assert(lines[i].take(2) =~= INDENT@);
    }
    assert forall|i: int| 0 <= i < lines.len() implies (#[trigger] lines[i]).skip(2)
        == pieces[i] by {
        assert(lines[i].skip(2) =~= pieces[i]);
    }
    assert forall|i: int| 0 <= i < lines.len() implies !(#[trigger] lines[i]).contains('\n') by {
        let p = if i == 0 {
            head
        } else {
            INDENT@
        };
        assert(lines[i] == p + pieces[i]);
        assert(!pieces[i].contains('\n'));
        assert forall|k: int| 0 <= k < lines[i].len() implies lines[i][k] != '\n' by {
            if k < 2 {
                assert(lines[i][k] == p[k]);
                assert(p.contains(p[k]));
            } else {
                assert(lines[i][k] == pieces[i][k - 2]);
                assert(pieces[i].contains(pieces[i][k - 2]));
            }
        }
    }
}

/// A run of indented lines that ends before an unindented one, or at the end,
/// is counted whole.
proof fn lemma_indented_run(lines: Seq<Seq<char>>, at: nat, n: nat)
    requires
        at + n <= lines.len(),
        forall|i: int| at <= i < at + n ==> text::starts_with(#[trigger] lines[i], INDENT@),
        at + n < lines.len() ==> !text::starts_with(lines[(at + n) as int], INDENT@),
    ensures
        indented(lines, at) == n,
    decreases n,
{
    if n > 0 {
        assert(text::starts_with(lines[at as int], INDENT@));
        lemma_indented_run(lines, at + 1, (n - 1) as nat);
    }
}

/// Stripping the prefixes of a body's lines and joining gives the body.
proof fn lemma_body_reads_back(
    lines: Seq<Seq<char>>,
    at: nat,
    head: Seq<char>,
    body: Seq<char>,
)
    requires
        head.len() == 2,
        !head.contains('\n'),
        at + body_lines(head, body).len() <= lines.len(),
        forall|i: int|
            0 <= i < body_lines(head, body).len() ==> lines[at + i] == #[trigger] body_lines(
                head,
                body,
            )[i],
    ensures
        text::join(bare(lines, at, body_lines(head, body).len()), newline()) == body,
{
    lemma_body_lines(head, body);
    let n = body_lines(head, body).len();
    assert(bare(lines, at, n) =~= text::split(body, '\n')) by {
        assert forall|i: int| 0 <= i < n implies bare(lines, at, n)[i] == text::split(
            body,
            '\n',
        )[i] by {
            assert(lines[at + i] == body_lines(head, body)[i]);
        }
    }
    text::lemma_join_split(body, '\n');
}

proof fn lemma_items_read_back(lines: Seq<Seq<char>>, at: nat, later: Seq<Seq<char>>)
    requires
        at + later_lines(later).len() == lines.len(),
        lines.skip(at as int) == later_lines(later),
    ensures
        items_from(lines, at) == Some(later),
    decreases later.len(),
{
    lemma_prefix_facts();
    if later.len() == 0 {
        assert(later =~= Seq::<Seq<char>>::empty());
    } else {
        let body = body_lines(ITEM@, later[0]);
        let rest = later_lines(later.drop_first());
        lemma_body_lines(ITEM@, later[0]);
        assert(later_lines(later) == body + rest);
        assert forall|i: int| 0 <= i < body.len() implies lines[at + i] == #[trigger] body[i] by {
            assert(lines.skip(at as int)[i] == body[i]);
        }
        assert(lines[at as int] == body[0]);
        let n = (body.len() - 1) as nat;
        assert forall|i: int| at + 1 <= i < at + 1 + n implies text::starts_with(
            #[trigger] lines[i],
            INDENT@,
        ) by {
            assert(lines[at + (i - at)] == body[i - at]);
        }
        if at + 1 + n < lines.len() {
            assert(lines.skip(at as int)[body.len() as int] == rest[0]);
            assert(later.drop_first().len() > 0);
            lemma_body_lines(ITEM@, later.drop_first()[0]);
            assert(rest[0] == body_lines(ITEM@, later.drop_first()[0])[0]);
            let next = lines[(at + 1 + n) as int];
            assert(next.take(2)[0] == ITEM@[0]);
            if text::starts_with(next, INDENT@) {
                assert(next.take(2)[0] == ' ');
            }
        }
        lemma_indented_run(lines, at + 1, n);
        lemma_body_reads_back(lines, at, ITEM@, later[0]);
        assert(lines.skip((at + 1 + n) as int) =~= rest) by {
            assert forall|i: int| 0 <= i < rest.len() implies lines[at + 1 + n + i] == rest[i] by {
                assert(lines.skip(at as int)[body.len() + i] == rest[i]);
            }
        }
        lemma_items_read_back(lines, at + 1 + n, later.drop_first());
        assert(seq![later[0]] + later.drop_first() =~= later);
    }
}

proof fn lemma_omitted_reads_back(omitted: nat)
    requires
        0 < omitted <= usize::MAX,
    ensures
        text::starts_with(omitted_line(omitted), "("@),
        omitted_count(omitted_line(omitted)) == Some(omitted),
        !omitted_line(omitted).contains('\n'),
{
    lemma_prefix_facts();
    text::lemma_parse_decimal(omitted, usize::MAX as nat);
    text::lemma_decimal_reads_back(omitted);
    let line = omitted_line(omitted);
    let tail = " earlier message(s) omitted)"@;
    let d = text::decimal(omitted);
    assert(line.take(1) =~= "("@);
    assert(line.drop_first() =~= d + tail);
    assert((d + tail).skip((d + tail).len() - tail.len()) =~= tail);
    assert((d + tail).take((d + tail).len() - tail.len()) =~= d);
    assert forall|k: int| 0 <= k < line.len() implies line[k] != '\n' by {
        if k == 0 {
            assert(line[k] == '(');
        } else if k < 1 + d.len() {
            assert(line[k] == d[k - 1]);
            assert(text::is_digit(d[k - 1]));
        } else {
            assert(line[k] == tail[k - 1 - d.len()]);
            assert(tail.contains(tail[k - 1 - d.len()]));
        }
    }
}

proof fn lemma_later_lines_free(later: Seq<Seq<char>>)
    ensures
        forall|i: int|
            0 <= i < later_lines(later).len() ==> !(#[trigger] later_lines(later)[i]).contains(
                '\n',
            ),
        later.len() > 0 ==> later_lines(later).len() > 0 && text::starts_with(
            later_lines(later)[0],
            ITEM@,
        ),
    decreases later.len(),
{
    lemma_prefix_facts();
    if later.len() > 0 {
        lemma_later_lines_free(later.drop_first());
        lemma_body_lines(ITEM@, later[0]);
        let body = body_lines(ITEM@, later[0]);
        let rest = later_lines(later.drop_first());
        assert forall|i: int| 0 <= i < later_lines(later).len() implies !(#[trigger] later_lines(
            later,
        )[i]).contains('\n') by {
            if i < body.len() {
                assert(later_lines(later)[i] == body[i]);
            } else {
                assert(later_lines(later)[i] == rest[i - body.len()]);
            }
        }
    }
}

/// A text reads as anchors exactly where it is what they would be written as:
/// anything else is no anchors at all.
pub proof fn law_only_the_written_form_parses(s: Seq<char>, a: AnchorsView)
    ensures
        parsed(s) == Some(a) ==> rendered(a) == s,
        rendered(a) == s && a.omitted <= usize::MAX ==> parsed(s) == Some(a),
{
    if a.omitted <= usize::MAX {
        law_render_parses_back(a);
    }
}

/// Anchors written down and read again are the same anchors.
pub proof fn law_render_parses_back(a: AnchorsView)
    requires
        a.omitted <= usize::MAX,
    ensures
        parsed(rendered(a)) == Some(a),
{
    lemma_prefix_facts();
    let lines = render_lines(a);
    let head = seq![HEADER@, Seq::<char>::empty(), ORIGINAL_LABEL@];
    let body = body_lines(INDENT@, a.original);
    let section = later_section(a);
    lemma_body_lines(INDENT@, a.original);
    lemma_later_lines_free(a.later);
    if a.omitted > 0 {
        lemma_omitted_reads_back(a.omitted);
    }
    assert forall|i: int| 0 <= i < lines.len() implies !(#[trigger] lines[i]).contains('\n') by {
        if i < 3 {
            assert(lines[i] == head[i]);
        } else if i < 3 + body.len() {
            assert(lines[i] == body[i - 3]);
        } else {
            let j = i - 3 - body.len();
            assert(lines[i] == section[j]);
            if j >= 2 {
                if a.omitted > 0 {
                    if j > 2 {
                        assert(section[j] == later_lines(a.later)[j - 3]);
                    }
                } else {
                    assert(section[j] == later_lines(a.later)[j - 2]);
                }
            }
        }
    }
    text::lemma_split_join(lines, '\n');
    assert(text::split(rendered(a), '\n') == lines);
    let n = body.len();
    assert forall|i: int| 0 <= i < n implies lines[3 + i] == #[trigger] body[i] by {}
    assert forall|i: int| 3 <= i < 3 + n implies text::starts_with(
        #[trigger] lines[i],
        INDENT@,
    ) by {
        assert(lines[3 + (i - 3)] == body[i - 3]);
    }
    lemma_indented_run(lines, 3, n);
    lemma_body_reads_back(lines, 3, INDENT@, a.original);
    let at = 3 + n;
    if section.len() > 0 {
        assert(lines[at as int] == section[0]);
        assert(lines[at as int + 1] == section[1]);
        if a.omitted > 0 {
            assert(lines[at as int + 2] == section[2]);
            assert(lines.skip(at as int + 3) =~= later_lines(a.later));
            lemma_items_read_back(lines, at + 3, a.later);
        } else {
            assert(lines.skip(at as int + 2) =~= later_lines(a.later));
            lemma_items_read_back(lines, at + 2, a.later);
            if at + 2 < lines.len() {
                assert(lines[at as int + 2] == later_lines(a.later)[0]);
                assert(lines[at as int + 2].take(2)[0] == ITEM@[0]);
                if text::starts_with(lines[at as int + 2], "("@) {
                    assert(lines[at as int + 2].take(1)[0] == '(');
                }
            }
        }
    } else {
        assert(a.later =~= Seq::<Seq<char>>::empty());
    }
}

// ---------------------------------------------------------------------------
// Capping
// ---------------------------------------------------------------------------

/// A text kept to `max` characters: its head and its tail around a marker that
/// tells how many characters went.
pub open spec fn capped(s: Seq<char>, max: nat) -> Seq<char> {
    if s.len() <= max {
        s
    } else {
        let keep = max - MARKER_RESERVE;
        let head = keep / 2;
        let tail = keep - head;
        s.take(head) + "\n[… "@ + text::decimal((s.len() - keep) as nat)
            + " characters omitted …]\n"@ + s.skip(s.len() - tail)
    }
}

/// A capped text is no longer than its cap, and capping it again changes
/// nothing.
pub proof fn law_capping_is_stable(s: Seq<char>, max: nat)
    requires
        MARKER_RESERVE <= max,
        s.len() <= usize::MAX,
    ensures
        capped(s, max).len() <= max,
        capped(capped(s, max), max) == capped(s, max),
{
    reveal_strlit("\n[… ");
    reveal_strlit(" characters omitted …]\n");
    if s.len() > max {
        let keep = max - MARKER_RESERVE;
        let n = (s.len() - keep) as nat;
        assert(vstd::arithmetic::power::pow(10, 20) == 100_000_000_000_000_000_000) by {
            reveal_with_fuel(vstd::arithmetic::power::pow, 21);
        }
        text::lemma_decimal_len(n, 20);
    }
}

/// Keeps the head and the tail: a request usually states the task first and
/// the constraint last.
pub fn cap(s: &str, max_chars: usize) -> (r: String)
    requires
        MARKER_RESERVE <= max_chars,
    ensures
        r@ == capped(s@, max_chars as nat),
{
    let chars = text::chars_of(s);
    let total: usize = chars.len();
    if total <= max_chars {
        return s.to_owned();
    }
    let keep: usize = max_chars - MARKER_RESERVE;
    let head: usize = keep / 2;
    let tail: usize = keep - head;
    let mut out = text::text_of(&chars, 0, head);
    out.append("\n[… ");
    out.append(text::decimal_text((total - keep) as u64).as_str());
    out.append(" characters omitted …]\n");
    out.append(text::text_of(&chars, total - tail, total).as_str());
    proof {
        assert(s@.subrange(0, head as int) =~= s@.take(head as int));
        assert(s@.subrange(total - tail, total as int) =~= s@.skip(total - tail));
    }
    out
}

// ---------------------------------------------------------------------------
// The user's own words
// ---------------------------------------------------------------------------

/// The text blocks' texts, in order.
pub open spec fn text_parts(content: Seq<BlockView>) -> Seq<Seq<char>>
    decreases content.len(),
{
    if content.len() == 0 {
        Seq::empty()
    } else {
        let before = text_parts(content.drop_last());
        match content.last() {
            BlockView::Text { text } => before.push(text),
            _ => before,
        }
    }
}

/// Whether a message carries a tool result.
pub open spec fn has_tool_result(content: Seq<BlockView>) -> bool {
    exists|i: int| 0 <= i < content.len() && (#[trigger] content[i]) is ToolResult
}

/// The words that count as the user's, before trimming: what they typed, or
/// what they typed while a turn ran. Everything else user-role is the harness
/// talking.
pub open spec fn raw_words(m: MessageView) -> Option<Seq<char>> {
    if m.role != Role::User || has_tool_result(m.content) {
        None
    } else {
        let all = text::join(text_parts(m.content), newline());
        match m.injected {
            None => Some(all),
            Some(InjectedView::Steering) => Some(inbox::steering_words(all)),
            Some(_) => None,
        }
    }
}

/// The words of a message the user said; nothing where they said none.
pub open spec fn words_of(m: MessageView) -> Option<Seq<char>> {
    match raw_words(m) {
        Some(words) if text::trim(words).len() > 0 => Some(text::trim(words)),
        _ => None,
    }
}

/// What the user said in a run of messages, in order.
pub open spec fn said(messages: Seq<MessageView>) -> Seq<Seq<char>>
    decreases messages.len(),
{
    if messages.len() == 0 {
        Seq::empty()
    } else {
        let before = said(messages.drop_last());
        match words_of(messages.last()) {
            Some(words) => before.push(words),
            None => before,
        }
    }
}

fn text_blocks(content: &Vec<ContentBlock>) -> (r: Vec<String>)
    ensures
        text::texts(r@) == text_parts(protocol::blocks(content@)),
{
    let mut out: Vec<String> = Vec::new();
    let mut i: usize = 0;
    let ghost all = protocol::blocks(content@);
    proof {
        assert(text::texts(out@) =~= text_parts(all.take(0)));
    }
    while i < content.len()
        invariant
            i <= content@.len(),
            all == protocol::blocks(content@),
            text::texts(out@) == text_parts(all.take(i as int)),
        decreases content@.len() - i,
    {
        proof {
            assert(all.take(i + 1).drop_last() =~= all.take(i as int));
            assert(all.take(i + 1).last() == content@[i as int]@);
        }
        let ghost before = out@;
        match &content[i] {
            ContentBlock::Text { text } => {
                out.push(text.clone());
                proof {
                    assert(text::texts(out@) =~= text::texts(before).push(text@));
                }
            },
            _ => {},
        }
        i += 1;
    }
    proof {
        assert(all.take(content@.len() as int) =~= all);
    }
    out
}

fn carries_tool_result(content: &Vec<ContentBlock>) -> (r: bool)
    ensures
        r == has_tool_result(protocol::blocks(content@)),
{
    let mut i: usize = 0;
    while i < content.len()
        invariant
            i <= content@.len(),
            forall|k: int|
                0 <= k < i ==> !((#[trigger] protocol::blocks(content@)[k]) is ToolResult),
        decreases content@.len() - i,
    {
        match &content[i] {
            ContentBlock::ToolResult { .. } => {
                proof {
                    assert(protocol::blocks(content@)[i as int] is ToolResult);
                }
                return true;
            },
            _ => {},
        }
        i += 1;
    }
    false
}

/// The words of a message the user said.
pub fn user_words(message: &Message) -> (r: Option<String>)
    ensures
        match r {
            Some(words) => words_of(message@) == Some(words@),
            None => words_of(message@) is None,
        },
{
    if message.role != Role::User || carries_tool_result(&message.content) {
        return None;
    }
    proof {
        reveal_strlit("\n");
        assert("\n"@ =~= newline());
    }
    let all = text::joined(&text_blocks(&message.content), "\n");
    let words = match &message.injected {
        None => all,
        Some(Injected::Steering) => inbox::steering_body(all.as_str()),
        Some(_) => {
            return None;
        },
    };
    if text::is_blank(words.as_str()) {
        None
    } else {
        Some(text::trimmed(words.as_str()))
    }
}

// ---------------------------------------------------------------------------
// The next generation
// ---------------------------------------------------------------------------

/// The estimated tokens of the texts from `k` on.
pub open spec fn suffix_tokens(later: Seq<Seq<char>>, k: int) -> nat
    decreases later.len() - k,
{
    if k < 0 || k >= later.len() {
        0
    } else {
        tokens::text_tokens(later[k]) + suffix_tokens(later, k + 1)
    }
}

/// The first of the newest texts that together fit the token budget, looking
/// back from `k`.
pub open spec fn keep_from(later: Seq<Seq<char>>, k: nat) -> nat
    decreases k,
{
    if k == 0 || suffix_tokens(later, k - 1) > LATER_TOKENS {
        k
    } else {
        keep_from(later, (k - 1) as nat)
    }
}

/// All later messages, old and new, before the budget.
pub open spec fn all_later(later: Seq<Seq<char>>, words: Seq<Seq<char>>) -> Seq<Seq<char>> {
    later + words.map_values(|w: Seq<char>| capped(w, LATER_CHARS as nat))
}

/// The anchors after the budget: the newest later messages that fit, and a
/// count of the others.
pub open spec fn within_budget(
    original: Seq<char>,
    later: Seq<Seq<char>>,
    omitted: nat,
) -> AnchorsView {
    let k = keep_from(later, later.len());
    AnchorsView { original, later: later.skip(k as int), omitted: omitted + k }
}

/// The next generation: the previous anchors plus what the user said in the
/// prefix being folded now.
pub open spec fn carried(previous: Option<AnchorsView>, folded: Seq<MessageView>) -> Option<
    AnchorsView,
> {
    let words = said(folded);
    match previous {
        Some(p) => Some(within_budget(p.original, all_later(p.later, words), p.omitted)),
        None => if words.len() == 0 {
            None
        } else {
            Some(
                within_budget(
                    capped(words[0], ORIGINAL_CHARS as nat),
                    all_later(Seq::empty(), words.skip(1)),
                    0,
                ),
            )
        },
    }
}

/// The first message that carries anchors which read back, and those anchors.
pub open spec fn found(leading: Seq<MessageView>) -> Option<AnchorsView>
    decreases leading.len(),
{
    if leading.len() == 0 {
        None
    } else {
        let here = anchors_in(leading[0]);
        if here is Some {
            here
        } else {
            found(leading.drop_first())
        }
    }
}

/// The anchors a message carries.
pub open spec fn anchors_in(m: MessageView) -> Option<AnchorsView> {
    if m.injected == Some(InjectedView::UserAnchors) && m.content.len() == 1 {
        match m.content[0] {
            BlockView::Text { text } => parsed(text),
            _ => None,
        }
    } else {
        None
    }
}

proof fn lemma_keep_from(later: Seq<Seq<char>>, k: nat)
    requires
        k <= later.len(),
        suffix_tokens(later, k as int) <= LATER_TOKENS,
    ensures
        keep_from(later, k) <= k,
        suffix_tokens(later, keep_from(later, k) as int) <= LATER_TOKENS,
        keep_from(later, k) > 0 ==> suffix_tokens(later, keep_from(later, k) - 1) > LATER_TOKENS,
    decreases k,
{
    if k > 0 && suffix_tokens(later, k - 1) <= LATER_TOKENS {
        lemma_keep_from(later, (k - 1) as nat);
    }
}

proof fn lemma_suffix_skip(later: Seq<Seq<char>>, k: int, j: int)
    requires
        0 <= k <= later.len(),
        0 <= j,
    ensures
        suffix_tokens(later.skip(k), j) == suffix_tokens(later, k + j),
    decreases later.len() - k - j,
{
    if k + j < later.len() {
        lemma_suffix_skip(later, k, j + 1);
    }
}

/// The original request survives every generation unchanged, no later message
/// disappears without being counted, the kept ones are the newest and fit the
/// budget, and one more would not.
pub proof fn law_carry_keeps_what_was_said(previous: AnchorsView, folded: Seq<MessageView>)
    ensures
        carried(Some(previous), folded) matches Some(next) && {
            let all = all_later(previous.later, said(folded));
            &&& next.original == previous.original
            &&& next.omitted + next.later.len() == previous.omitted + all.len()
            &&& next.later == all.skip(all.len() - next.later.len())
            &&& suffix_tokens(next.later, 0) <= LATER_TOKENS
            &&& next.later.len() < all.len() ==> suffix_tokens(
                all,
                all.len() - next.later.len() - 1,
            ) > LATER_TOKENS
        },
{
    let all = all_later(previous.later, said(folded));
    lemma_keep_from(all, all.len());
    let k = keep_from(all, all.len());
    lemma_suffix_skip(all, k as int, 0);
}

impl UserAnchors {
    /// The next generation: the previous anchors plus what the user said in
    /// the prefix being folded now. `None` when the user has said nothing in
    /// any folded prefix yet.
    pub fn carry(previous: Option<&UserAnchors>, folded: &Vec<Message>) -> (r: Option<Self>)
        requires
            previous matches Some(p) ==> p.omitted + p.later@.len() + folded@.len() <= usize::MAX,
        ensures
            match r {
                Some(next) => carried(
                    match previous {
                        Some(p) => Some(p@),
                        None => None,
                    },
                    protocol::messages(folded@),
                ) == Some(next@),
                None => carried(
                    match previous {
                        Some(p) => Some(p@),
                        None => None,
                    },
                    protocol::messages(folded@),
                ) is None,
            },
    {
        let words = words_in(folded);
        let ghost spoken = said(protocol::messages(folded@));
        let ghost mut start: Seq<Seq<char>> = Seq::empty();
        let mut later: Vec<String> = Vec::new();
        let mut from: usize = 0;
        let mut omitted: usize = 0;
        let original: String;
        match previous {
            Some(p) => {
                original = p.original.clone();
                omitted = p.omitted;
                let mut i: usize = 0;
                while i < p.later.len()
                    invariant
                        i <= p.later@.len(),
                        text::texts(later@) == text::texts(p.later@).take(i as int),
                    decreases p.later@.len() - i,
                {
                            text::push_text(&mut later, p.later[i].clone());
                    i += 1;
                    proof {
                        assert(text::texts(later@) =~= text::texts(p.later@).take(i as int));
                    }
                }
                proof {
                    start = text::texts(p.later@);
                    assert(text::texts(p.later@).take(p.later@.len() as int) =~= start);
                }
            },
            None => {
                if words.len() == 0 {
                    proof {
                        assert(text::texts(words@).len() == 0);
                    }
                    return None;
                }
                original = cap(words[0].as_str(), ORIGINAL_CHARS);
                from = 1;
                proof {
                    assert(text::texts(words@)[0] == words@[0]@);
                    assert(text::texts(later@) =~= start);
                }
            },
        }
        let ghost news = spoken.skip(from as int);
        let ghost all = all_later(start, news);
        proof {
            assert(start + news.take(0).map_values(|w: Seq<char>| capped(w, LATER_CHARS as nat))
                =~= start);
        }
        let mut w: usize = from;
        while w < words.len()
            invariant
                from <= w <= words@.len(),
                text::texts(words@) == spoken,
                news == spoken.skip(from as int),
                text::texts(later@) == start + news.take(w - from).map_values(
                    |w: Seq<char>| capped(w, LATER_CHARS as nat),
                ),
            decreases words@.len() - w,
        {
            text::push_text(&mut later, cap(words[w].as_str(), LATER_CHARS));
            proof {
                assert(spoken[w as int] == words@[w as int]@);
                assert(text::texts(later@) =~= start + news.take(w - from + 1).map_values(
                    |w: Seq<char>| capped(w, LATER_CHARS as nat),
                ));
            }
            w += 1;
        }
        proof {
            assert(news.take(news.len() as int) =~= news);
            assert(text::texts(later@) =~= all);
            if previous is None {
                assert(all =~= all_later(Seq::empty(), spoken.skip(1)));
            } else {
                assert(spoken.skip(0) =~= spoken);
            }
        }
        let mut keep: usize = later.len();
        let mut spent: u64 = 0;
        let mut open = true;
        while open && keep > 0
            invariant
                keep <= later@.len(),
                text::texts(later@) == all,
                spent == suffix_tokens(all, keep as int),
                spent <= LATER_TOKENS,
                keep_from(all, all.len()) == keep_from(all, keep as nat),
                !open ==> keep_from(all, keep as nat) == keep,
            decreases keep + (if open { 1int } else { 0int }),
        {
            let next: u64 = tokens::estimate_text_tokens(later[keep - 1].as_str());
            proof {
                assert(all[keep - 1] == later@[keep - 1]@);
            }
            if next > LATER_TOKENS - spent {
                open = false;
            } else {
                spent = spent + next;
                keep -= 1;
            }
        }
        let mut kept: Vec<String> = Vec::new();
        let mut i: usize = keep;
        while i < later.len()
            invariant
                keep <= i <= later@.len(),
                text::texts(later@) == all,
                text::texts(kept@) == all.subrange(keep as int, i as int),
            decreases later@.len() - i,
        {
            text::push_text(&mut kept, later[i].clone());
            i += 1;
            proof {
                assert(all[i - 1] == later@[i - 1]@);
                assert(text::texts(kept@) =~= all.subrange(keep as int, i as int));
            }
        }
        proof {
            assert(all.subrange(keep as int, all.len() as int) =~= all.skip(keep as int));
            lemma_said_len(protocol::messages(folded@));
            assert(news.len() <= folded@.len());
        }
        let r = UserAnchors { original, later: kept, omitted: omitted + keep };
        Some(r)
    }

    /// The anchors carried by a history's leading compaction products, if any.
    pub fn find(leading: &Vec<Message>) -> (r: Option<Self>)
        ensures
            match r {
                Some(anchors) => found(protocol::messages(leading@)) == Some(anchors@),
                None => found(protocol::messages(leading@)) is None,
            },
    {
        let ghost all = protocol::messages(leading@);
        let mut i: usize = 0;
        proof {
            assert(all.skip(0) =~= all);
        }
        while i < leading.len()
            invariant
                i <= leading@.len(),
                all == protocol::messages(leading@),
                found(all) == found(all.skip(i as int)),
            decreases leading@.len() - i,
        {
            let message = &leading[i];
            proof {
                assert(all.skip(i as int)[0] == message@);
                assert(all.skip(i as int).drop_first() =~= all.skip(i + 1));
            }
            if let Some(Injected::UserAnchors) = &message.injected {
                if message.content.len() == 1 {
                    proof {
                        assert(message@.content[0] == message.content@[0]@);
                    }
                    if let ContentBlock::Text { text } = &message.content[0] {
                        if let Some(anchors) = Self::parse(text.as_str()) {
                            return Some(anchors);
                        }
                    }
                }
            }
            i += 1;
        }
        None
    }

    /// The anchors as the message that carries them.
    pub fn into_message(self) -> (r: Message)
        ensures
            r@ == protocol::text_message(
                Role::User,
                rendered(self@),
                Some(InjectedView::UserAnchors),
            ),
    {
        Message::injected(Injected::UserAnchors, self.render())
    }

    /// The written form.
    pub fn render(&self) -> (r: String)
        ensures
            r@ == rendered(self@),
    {
        let mut lines: Vec<String> = Vec::new();
        lines.push(HEADER.to_owned());
        lines.push(String::new());
        lines.push(ORIGINAL_LABEL.to_owned());
        proof {
            assert(text::texts(lines@) =~= seq![HEADER@, Seq::<char>::empty(), ORIGINAL_LABEL@]);
        }
        push_body(&mut lines, INDENT, self.original.as_str());
        if self.later.len() > 0 || self.omitted > 0 {
            let ghost so_far = text::texts(lines@);
            lines.push(String::new());
            lines.push(LATER_LABEL.to_owned());
            if self.omitted > 0 {
                let mut line = "(".to_owned();
                line.append(text::decimal_text(self.omitted as u64).as_str());
                line.append(" earlier message(s) omitted)");
                lines.push(line);
            }
            let ghost opened = text::texts(lines@);
            proof {
                assert(opened =~= so_far + (seq![Seq::<char>::empty(), LATER_LABEL@] + (if self@.omitted
                    > 0 {
                    seq![omitted_line(self@.omitted)]
                } else {
                    Seq::<Seq<char>>::empty()
                })));
            }
            let ghost later = self@.later;
            let mut i: usize = 0;
            proof {
                assert(later.skip(0) =~= later);
            }
            while i < self.later.len()
                invariant
                    i <= self.later@.len(),
                    later == text::texts(self.later@),
                    text::texts(lines@) + later_lines(later.skip(i as int)) == opened + later_lines(
                        later,
                    ),
                decreases self.later@.len() - i,
            {
                let ghost before = text::texts(lines@);
                proof {
                    assert(later.skip(i as int)[0] == self.later@[i as int]@);
                    assert(later.skip(i as int).drop_first() =~= later.skip(i + 1));
                }
                push_body(&mut lines, ITEM, self.later[i].as_str());
                proof {
                    assert(text::texts(lines@) + later_lines(later.skip(i + 1)) =~= before
                        + later_lines(later.skip(i as int)));
                }
                i += 1;
            }
            proof {
                assert(later.skip(later.len() as int) =~= Seq::<Seq<char>>::empty());
                assert(text::texts(lines@) =~= opened + later_lines(later));
                assert(text::texts(lines@) =~= render_lines(self@));
            }
        } else {
            proof {
                assert(text::texts(lines@) =~= render_lines(self@));
            }
        }
        proof {
            reveal_strlit("\n");
            assert("\n"@ =~= newline());
        }
        text::joined(&lines, "\n")
    }

    /// The inverse of [`Self::render`]: anything that does not match the
    /// written form exactly is no anchors at all.
    pub fn parse(s: &str) -> (r: Option<Self>)
        ensures
            match r {
                Some(anchors) => parsed(s@) == Some(anchors@) && rendered(anchors@) == s@,
                None => parsed(s@) is None,
            },
    {
        let anchors = Self::read(s)?;
        if !text::same(anchors.render().as_str(), s) {
            return None;
        }
        Some(anchors)
    }

    /// The anchors that the lines of a text spell.
    fn read(s: &str) -> (r: Option<Self>)
        ensures
            match r {
                Some(anchors) => parse_lines(text::split(s@, '\n')) == Some(anchors@),
                None => parse_lines(text::split(s@, '\n')) is None,
            },
    {
        let lines = text::split_at_char(s, '\n');
        let ghost all = text::split(s@, '\n');
        proof {
            assert forall|i: int| 0 <= i < lines@.len() implies all[i] == #[trigger] lines@[i]@ by {
                assert(text::texts(lines@)[i] == lines@[i]@);
            }
            assert(all.len() == lines@.len());
        }
        if lines.len() < 3 || !text::same(lines[0].as_str(), HEADER) || text::char_count(
            lines[1].as_str(),
        ) != 0 || !text::same(lines[2].as_str(), ORIGINAL_LABEL) {
            return None;
        }
        let n: usize = indented_lines(&lines, 3);
        if n == 0 {
            return None;
        }
        proof {
            lemma_indented_lines_long(lines@, 3);
        }
        let original = bare_text(&lines, 3, n);
        let at: usize = 3 + n;
        let mut later: Vec<String> = Vec::new();
        let mut omitted: usize = 0;
        if at < lines.len() {
            if text::char_count(lines[at].as_str()) != 0 || lines.len() - at < 2 || !text::same(
                lines[at + 1].as_str(),
                LATER_LABEL,
            ) {
                return None;
            }
            let mut items_at: usize = at + 2;
            if items_at < lines.len() && text::has_prefix(lines[items_at].as_str(), "(") {
                omitted = parse_omitted(lines[items_at].as_str())?;
                items_at = items_at + 1;
            }
            later = items(&lines, items_at)?;
        } else {
            proof {
                assert(text::texts(later@) =~= Seq::<Seq<char>>::empty());
            }
        }
        Some(UserAnchors { original, later, omitted })
    }
}

proof fn lemma_said_len(m: Seq<MessageView>)
    ensures
        said(m).len() <= m.len(),
    decreases m.len(),
{
    if m.len() > 0 {
        lemma_said_len(m.drop_last());
    }
}

fn words_in(folded: &Vec<Message>) -> (r: Vec<String>)
    ensures
        text::texts(r@) == said(protocol::messages(folded@)),
{
    let ghost all = protocol::messages(folded@);
    let mut out: Vec<String> = Vec::new();
    let mut i: usize = 0;
    proof {
        assert(text::texts(out@) =~= said(all.take(0)));
    }
    while i < folded.len()
        invariant
            i <= folded@.len(),
            all == protocol::messages(folded@),
            text::texts(out@) == said(all.take(i as int)),
        decreases folded@.len() - i,
    {
        proof {
            assert(all.take(i + 1).drop_last() =~= all.take(i as int));
            assert(all.take(i + 1).last() == folded@[i as int]@);
        }
        let ghost before = out@;
        if let Some(words) = user_words(&folded[i]) {
            let ghost w = words@;
            out.push(words);
            proof {
                assert(text::texts(out@) =~= text::texts(before).push(w));
            }
        }
        i += 1;
    }
    proof {
        assert(all.take(folded@.len() as int) =~= all);
    }
    out
}

/// Appends a body's lines.
fn push_body(lines: &mut Vec<String>, head: &str, body: &str)
    ensures
        text::texts(final(lines)@) == text::texts(old(lines)@) + body_lines(head@, body@),
{
    let pieces = text::split_at_char(body, '\n');
    let ghost before = text::texts(lines@);
    let ghost added = body_lines(head@, body@);
    let mut i: usize = 0;
    proof {
        assert(before + added.take(0) =~= before);
    }
    while i < pieces.len()
        invariant
            i <= pieces@.len(),
            text::texts(pieces@) == text::split(body@, '\n'),
            added == body_lines(head@, body@),
            text::texts(lines@) == before + added.take(i as int),
        decreases pieces@.len() - i,
    {
        let mut line = if i == 0 {
            head.to_owned()
        } else {
            INDENT.to_owned()
        };
        line.append(pieces[i].as_str());
        proof {
            assert(text::texts(pieces@)[i as int] == pieces@[i as int]@);
            assert(added[i as int] == line@);
        }
        text::push_text(lines, line);
        i += 1;
        proof {
            assert(text::texts(lines@) =~= before + added.take(i as int));
        }
    }
    proof {
        assert(added.take(added.len() as int) =~= added);
    }
}

/// The length of the run of indented lines from `at` on.
fn indented_lines(lines: &Vec<String>, at: usize) -> (n: usize)
    requires
        at <= lines@.len(),
    ensures
        n == indented(text::texts(lines@), at as nat),
        at + n <= lines@.len(),
{
    let mut i: usize = at;
    while i < lines.len() && text::has_prefix(lines[i].as_str(), INDENT)
        invariant
            at <= i <= lines@.len(),
            indented(text::texts(lines@), at as nat) == (i - at) + indented(
                text::texts(lines@),
                i as nat,
            ),
        decreases lines@.len() - i,
    {
        proof {
            assert(text::texts(lines@)[i as int] == lines@[i as int]@);
        }
        i += 1;
    }
    proof {
        if i < lines@.len() {
            assert(text::texts(lines@)[i as int] == lines@[i as int]@);
        }
    }
    i - at
}

/// The lines `at..at + n` without their prefixes, joined.
fn bare_text(lines: &Vec<String>, at: usize, n: usize) -> (r: String)
    requires
        at + n <= lines@.len(),
        forall|i: int| at <= i < at + n ==> (#[trigger] lines@[i])@.len() >= 2,
    ensures
        r@ == text::join(bare(text::texts(lines@), at as nat, n as nat), newline()),
{
    let ghost all = text::texts(lines@);
    let len: usize = lines.len();
    let mut parts: Vec<String> = Vec::new();
    let mut i: usize = 0;
    while i < n
        invariant
            i <= n,
            at + n <= len == lines@.len(),
            all == text::texts(lines@),
            forall|i: int| at <= i < at + n ==> (#[trigger] lines@[i])@.len() >= 2,
            text::texts(parts@) == bare(all, at as nat, i as nat),
        decreases n - i,
    {
        let chars = text::chars_of(lines[at + i].as_str());
        text::push_text(&mut parts, text::text_of(&chars, 2, chars.len()));
        proof {
            assert(all[at + i] == lines@[at + i]@);
            assert(chars@.subrange(2, chars@.len() as int) =~= all[at + i].skip(2));
            assert(text::texts(parts@).last() == all[at + i].skip(2));
            assert(text::texts(parts@) =~= bare(all, at as nat, (i + 1) as nat));
        }
        i += 1;
    }
    proof {
        reveal_strlit("\n");
        assert("\n"@ =~= newline());
    }
    text::joined(&parts, "\n")
}

fn parse_omitted(line: &str) -> (r: Option<usize>)
    requires
        text::starts_with(line@, "("@),
    ensures
        match r {
            Some(n) => omitted_count(line@) == Some(n as nat),
            None => omitted_count(line@) is None,
        },
{
    proof {
        lemma_prefix_facts();
        assert(line@.skip(1) =~= line@.drop_first());
    }
    let rest = match text::strip_prefix(line, "(") {
        Some(rest) => rest,
        None => {
            return None;
        },
    };
    let count = text::strip_suffix(rest.as_str(), " earlier message(s) omitted)")?;
    let n: u64 = text::parse_number(count.as_str(), usize::MAX as u64)?;
    Some(n as usize)
}

/// The items from line `at` on.
fn items(lines: &Vec<String>, at: usize) -> (r: Option<Vec<String>>)
    requires
        at <= lines@.len(),
    ensures
        match r {
            Some(v) => items_from(text::texts(lines@), at as nat) == Some(text::texts(v@)),
            None => items_from(text::texts(lines@), at as nat) is None,
        },
{
    let ghost all = text::texts(lines@);
    let ghost whole = items_from(all, at as nat);
    let mut out: Vec<String> = Vec::new();
    let mut i: usize = at;
    proof {
        assert(text::texts(out@) =~= Seq::<Seq<char>>::empty());
        lemma_after_empty(items_from(all, at as nat));
    }
    while i < lines.len()
        invariant
            at <= i <= lines@.len(),
            all == text::texts(lines@),
            whole == items_from(all, at as nat),
            whole == after(text::texts(out@), items_from(all, i as nat)),
        decreases lines@.len() - i,
    {
        proof {
            lemma_prefix_facts();
            assert(all[i as int] == lines@[i as int]@);
        }
        if !text::has_prefix(lines[i].as_str(), ITEM) {
            return None;
        }
        let n: usize = indented_lines(lines, i + 1);
        proof {
            lemma_indented_lines_long(lines@, i as nat + 1);
        }
        let item = bare_text(lines, i, n + 1);
        let ghost before = text::texts(out@);
        let ghost word = item@;
        out.push(item);
        proof {
            assert(text::texts(out@) =~= before.push(word));
            let rest = items_from(all, (i + 1 + n) as nat);
            match rest {
                Some(v) => {
                    assert(before + (seq![word] + v) =~= before.push(word) + v);
                },
                None => {},
            }
        }
        i = i + 1 + n;
    }
    proof {
        assert(text::texts(out@) + Seq::<Seq<char>>::empty() =~= text::texts(out@));
    }
    Some(out)
}

/// `rest` with `before` in front of it.
spec fn after(before: Seq<Seq<char>>, rest: Option<Seq<Seq<char>>>) -> Option<Seq<Seq<char>>> {
    match rest {
        Some(v) => Some(before + v),
        None => None,
    }
}

proof fn lemma_after_empty(rest: Option<Seq<Seq<char>>>)
    ensures
        after(Seq::empty(), rest) == rest,
{
    match rest {
        Some(v) => {
            assert(Seq::<Seq<char>>::empty() + v =~= v);
        },
        None => {},
    }
}

proof fn lemma_indented_lines_long(lines: Seq<String>, at: nat)
    ensures
        forall|i: int|
            at <= i < at + indented(text::texts(lines), at) ==> (#[trigger] lines[i])@.len() >= 2,
    decreases lines.len() - at,
{
    lemma_prefix_facts();
    let all = text::texts(lines);
    if at < lines.len() && text::starts_with(all[at as int], INDENT@) {
        assert(all[at as int] == lines[at as int]@);
        lemma_indented_lines_long(lines, at + 1);
    }
}

// ---------------------------------------------------------------------------
// Whose words are carried, and which
// ---------------------------------------------------------------------------

proof fn lemma_text_parts_add(a: Seq<BlockView>, b: Seq<BlockView>)
    ensures
        text_parts(a + b) == text_parts(a) + text_parts(b),
    decreases b.len(),
{
    if b.len() == 0 {
        assert(a + b =~= a);
        assert(text_parts(a) + text_parts(b) =~= text_parts(a));
    } else {
        lemma_text_parts_add(a, b.drop_last());
        assert((a + b).drop_last() =~= a + b.drop_last());
        assert((a + b).last() == b.last());
        assert(text_parts(a + b) =~= text_parts(a) + text_parts(b));
    }
}

/// The texts of a message are those of its text blocks, in order; images and
/// anything else add nothing.
pub proof fn law_only_text_is_quoted(a: Seq<BlockView>, b: Seq<BlockView>, block: BlockView)
    ensures
        text_parts(a + b) == text_parts(a) + text_parts(b),
        text_parts(Seq::<BlockView>::empty()).len() == 0,
        text_parts(seq![block]) == (match block {
            BlockView::Text { text } => seq![text],
            _ => Seq::<Seq<char>>::empty(),
        }),
{
    lemma_text_parts_add(a, b);
    reveal_with_fuel(text_parts, 2);
    assert(seq![block].drop_last() =~= Seq::<BlockView>::empty());
    assert(seq![block].last() == block);
    assert(text_parts(seq![block]) =~= match block {
        BlockView::Text { text } => seq![text],
        _ => Seq::<Seq<char>>::empty(),
    });
}

/// Only a message of the user's own is quoted: one that was typed, at the start or
/// while a turn ran, and that does not answer a tool call. Of one typed while a turn
/// ran, the frame is left off. What is quoted has no white space at its ends, and a
/// message of nothing but white space is not quoted.
pub proof fn law_only_the_user_is_quoted(m: MessageView)
    ensures
        words_of(m) is Some ==> {
            &&& m.role == Role::User
            &&& m.injected is None || m.injected == Some(InjectedView::Steering)
            &&& forall|i: int|
                0 <= i < m.content.len() ==> !((#[trigger] m.content[i]) is ToolResult)
        },
        ({
            let all = text::join(text_parts(m.content), seq!['\n']);
            let typed = if m.injected is None {
                all
            } else {
                inbox::steering_words(all)
            };
            m.role == Role::User && (m.injected is None || m.injected == Some(
                InjectedView::Steering,
            )) && !(exists|i: int|
                0 <= i < m.content.len() && (#[trigger] m.content[i]) is ToolResult) ==> {
                &&& text::blank(typed) ==> words_of(m) is None
                &&& !text::blank(typed) ==> words_of(m) == Some(text::trim(typed))
            }
        }),
{
    let all = text::join(text_parts(m.content), seq!['\n']);
    let typed = if m.injected is None {
        all
    } else {
        inbox::steering_words(all)
    };
    text::lemma_trim_blank(typed);
    if words_of(m) is Some {
        assert forall|i: int| 0 <= i < m.content.len() implies !((#[trigger] m.content[i])
            is ToolResult) by {}
    }
}

/// What was said in a conversation is what was said in its messages, in order.
pub proof fn law_what_was_said_is_in_order(
    a: Seq<MessageView>,
    b: Seq<MessageView>,
    m: MessageView,
)
    ensures
        said(a + b) == said(a) + said(b),
        said(Seq::<MessageView>::empty()).len() == 0,
        said(seq![m]) == (match words_of(m) {
            Some(words) => seq![words],
            None => Seq::<Seq<char>>::empty(),
        }),
    decreases b.len(),
{
    reveal_with_fuel(said, 2);
    assert(seq![m].drop_last() =~= Seq::<MessageView>::empty());
    assert(seq![m].last() == m);
    assert(said(seq![m]) =~= match words_of(m) {
        Some(words) => seq![words],
        None => Seq::<Seq<char>>::empty(),
    });
    if b.len() == 0 {
        assert(a + b =~= a);
        assert(said(a) + said(b) =~= said(a));
    } else {
        law_what_was_said_is_in_order(a, b.drop_last(), m);
        assert((a + b).drop_last() =~= a + b.drop_last());
        assert((a + b).last() == b.last());
        assert(said(a + b) =~= said(a) + said(b));
    }
}

/// A text that is short enough is kept whole. Of a longer one the head and the tail
/// stay, as long as each other but for one character, and the note between them says
/// how many characters are missing.
pub proof fn law_a_capped_text_keeps_both_ends(s: Seq<char>, max: nat)
    requires
        64 <= max,
    ensures
        s.len() <= max ==> capped(s, max) == s,
        s.len() > max ==> exists|head: int, tail: int|
            0 <= head <= tail <= head + 1 && head + tail == max - 64 && capped(s, max) == (
            #[trigger] s.take(head)) + "\n[… "@ + text::decimal((s.len() - head - tail) as nat)
                + " characters omitted …]\n"@ + (#[trigger] s.skip(s.len() - tail)),
{
    if s.len() > max {
        let keep = max - 64;
        let head = keep / 2;
        let tail = keep - head;
        assert(0 <= head <= tail <= head + 1);
        assert(capped(s, max) == s.take(head) + "\n[… "@ + text::decimal(
            (s.len() - head - tail) as nat,
        ) + " characters omitted …]\n"@ + s.skip(s.len() - tail));
    }
}

/// The first compaction takes the first thing that the user said for the original
/// request, and the rest for what followed; where nothing was said, there is nothing
/// to carry. The request is never dropped.
pub proof fn law_the_first_words_are_the_request(folded: Seq<MessageView>)
    ensures
        carried(None, folded) is Some <==> said(folded).len() > 0,
        carried(None, folded) matches Some(a) ==> {
            let rest = said(folded).skip(1);
            &&& a.original == capped(said(folded)[0], 4_000)
            &&& a.omitted + a.later.len() == rest.len()
            &&& forall|i: int|
                0 <= i < a.later.len() ==> #[trigger] a.later[i] == capped(
                    rest[rest.len() - a.later.len() + i],
                    2_000,
                )
            &&& suffix_tokens(a.later, 0) <= 4_096
        },
{
    let words = said(folded);
    if words.len() > 0 {
        let rest = words.skip(1);
        let all = all_later(Seq::empty(), rest);
        lemma_keep_from(all, all.len());
        let k = keep_from(all, all.len());
        lemma_suffix_skip(all, k as int, 0);
        let a = carried(None, folded)->0;
        assert(a.later == all.skip(k as int));
        assert forall|i: int| 0 <= i < a.later.len() implies #[trigger] a.later[i] == capped(
            rest[rest.len() - a.later.len() + i],
            2_000,
        ) by {
            assert(a.later[i] == all[k + i]);
            assert(all[k + i] == capped(rest[k + i], 2_000));
        }
    }
}

/// A later compaction keeps the request, and puts what the user said since behind
/// what was carried; of all that, it keeps the newest that fits the budget and counts
/// the rest.
pub proof fn law_newer_words_follow_older(previous: AnchorsView, folded: Seq<MessageView>)
    ensures
        carried(Some(previous), folded) matches Some(a) && {
            let words = said(folded);
            let total = previous.later.len() + words.len();
            let first = total - a.later.len();
            &&& a.original == previous.original
            &&& a.omitted == previous.omitted + first
            &&& 0 <= first
            &&& forall|i: int|
                0 <= i < a.later.len() && first + i < previous.later.len() ==> #[trigger] a.later[i]
                    == previous.later[first + i]
            &&& forall|i: int|
                0 <= i < a.later.len() && first + i >= previous.later.len()
                    ==> #[trigger] a.later[i] == capped(
                    words[first + i - previous.later.len()],
                    2_000,
                )
            &&& suffix_tokens(a.later, 0) <= 4_096
            &&& first > 0 ==> suffix_tokens(a.later, 0) + tokens::text_tokens(
                if first - 1 < previous.later.len() {
                    previous.later[first - 1]
                } else {
                    capped(words[first - 1 - previous.later.len()], 2_000)
                },
            ) > 4_096
        },
{
    let words = said(folded);
    let all = all_later(previous.later, words);
    lemma_keep_from(all, all.len());
    let k = keep_from(all, all.len());
    lemma_suffix_skip(all, k as int, 0);
    let a = carried(Some(previous), folded)->0;
    assert(a.later == all.skip(k as int));
    assert forall|i: int| 0 <= i < previous.later.len() implies #[trigger] all[i]
        == previous.later[i] by {}
    assert forall|i: int| previous.later.len() <= i < all.len() implies #[trigger] all[i]
        == capped(words[i - previous.later.len()], 2_000) by {}
    assert forall|i: int| 0 <= i < a.later.len() implies #[trigger] a.later[i] == all[k + i] by {}
    if k > 0 {
        assert(suffix_tokens(all, k - 1) == tokens::text_tokens(all[k - 1]) + suffix_tokens(
            all,
            k as int,
        ));
    }
}

/// The tokens of a list are those of its texts together.
pub proof fn law_tokens_of_a_list_are_summed(later: Seq<Seq<char>>, more: Seq<char>)
    ensures
        suffix_tokens(later.push(more), 0) == suffix_tokens(later, 0) + tokens::text_tokens(more),
        suffix_tokens(Seq::<Seq<char>>::empty(), 0) == 0,
{
    lemma_suffix_push(later, more, 0);
}

proof fn lemma_suffix_push(later: Seq<Seq<char>>, more: Seq<char>, k: int)
    requires
        0 <= k <= later.len(),
    ensures
        suffix_tokens(later.push(more), k) == suffix_tokens(later, k) + tokens::text_tokens(more),
    decreases later.len() - k,
{
    let all = later.push(more);
    if k == later.len() {
        assert(all[k] == more);
        assert(suffix_tokens(all, k + 1) == 0);
    } else {
        lemma_suffix_push(later, more, k + 1);
        assert(all[k] == later[k]);
    }
}

/// What was carried is found in the first message that holds it: a message marked as
/// the user's words whose one text parses.
pub proof fn law_the_first_carried_words_are_found(leading: Seq<MessageView>, i: int)
    requires
        0 <= i < leading.len(),
        leading[i].injected == Some(InjectedView::UserAnchors),
        leading[i].content.len() == 1,
        leading[i].content[0] is Text,
        parsed(leading[i].content[0]->Text_text) is Some,
        forall|k: int|
            0 <= k < i ==> (#[trigger] leading[k]).injected != Some(InjectedView::UserAnchors),
    ensures
        found(leading) == parsed(leading[i].content[0]->Text_text),
    decreases i,
{
    if i > 0 {
        let rest = leading.drop_first();
        assert(leading[0].injected != Some(InjectedView::UserAnchors));
        assert(rest[i - 1] == leading[i]);
        assert forall|k: int| 0 <= k < i - 1 implies (#[trigger] rest[k]).injected != Some(
            InjectedView::UserAnchors,
        ) by {
            assert(rest[k] == leading[k + 1]);
        }
        law_the_first_carried_words_are_found(rest, i - 1);
    }
}

/// Words are carried only in messages marked as such.
pub proof fn law_nothing_else_is_taken_for_carried_words(leading: Seq<MessageView>)
    requires
        forall|k: int|
            0 <= k < leading.len() ==> (#[trigger] leading[k]).injected != Some(
                InjectedView::UserAnchors,
            ),
    ensures
        found(leading) is None,
    decreases leading.len(),
{
    if leading.len() > 0 {
        let rest = leading.drop_first();
        assert(leading[0].injected != Some(InjectedView::UserAnchors));
        assert forall|k: int| 0 <= k < rest.len() implies (#[trigger] rest[k]).injected != Some(
            InjectedView::UserAnchors,
        ) by {
            assert(rest[k] == leading[k + 1]);
        }
        law_nothing_else_is_taken_for_carried_words(rest);
    }
}

/// What is written: the header, the request under its label, and, where there is
/// more, how many messages are left out and then the rest, each line of every body
/// set in.
pub proof fn law_what_is_written(a: AnchorsView)
    ensures
        ({
            let lines = text::split(rendered(a), '\n');
            let request = text::split(a.original, '\n');
            let n = 3 + request.len() as int;
            &&& a.omitted <= usize::MAX ==> {
                &&& lines.len() >= n
                &&& lines[0]
                    == "[What the user said earlier in this session, verbatim — carried across compactions]"@
                &&& lines[1].len() == 0
                &&& lines[2] == "Original request:"@
                &&& forall|i: int| 3 <= i < n ==> #[trigger] lines[i] == "  "@ + request[i - 3]
                &&& a.later.len() == 0 && a.omitted == 0 ==> lines.len() == n
                &&& a.later.len() > 0 || a.omitted > 0 ==> lines.len() >= n + 2 && lines[n].len()
                    == 0 && lines[n + 1] == "Later messages (oldest first):"@
                &&& a.omitted > 0 ==> lines.len() > n + 2 && lines[n + 2] == "("@ + text::decimal(
                    a.omitted,
                ) + " earlier message(s) omitted)"@
            }
        }),
{
    if a.omitted <= usize::MAX {
        lemma_lines_read_back(a);
        let lines = render_lines(a);
        let body = body_lines(INDENT@, a.original);
        let section = later_section(a);
        let n = 3 + body.len() as int;
        assert forall|i: int| 3 <= i < n implies #[trigger] lines[i] == "  "@ + text::split(
            a.original,
            '\n',
        )[i - 3] by {
            assert(lines[i] == body[i - 3]);
        }
        if section.len() > 0 {
            assert(lines[n] == section[0]);
            assert(lines[n + 1] == section[1]);
            if a.omitted > 0 {
                assert(lines[n + 2] == section[2]);
            }
        }
    }
}

proof fn lemma_lines_read_back(a: AnchorsView)
    requires
        a.omitted <= usize::MAX,
    ensures
        text::split(rendered(a), '\n') == render_lines(a),
{
    lemma_prefix_facts();
    let lines = render_lines(a);
    let head = seq![HEADER@, Seq::<char>::empty(), ORIGINAL_LABEL@];
    let body = body_lines(INDENT@, a.original);
    let section = later_section(a);
    lemma_body_lines(INDENT@, a.original);
    lemma_later_lines_free(a.later);
    if a.omitted > 0 {
        lemma_omitted_reads_back(a.omitted);
    }
    assert forall|i: int| 0 <= i < lines.len() implies !(#[trigger] lines[i]).contains('\n') by {
        if i < 3 {
            assert(lines[i] == head[i]);
        } else if i < 3 + body.len() {
            assert(lines[i] == body[i - 3]);
        } else {
            let j = i - 3 - body.len();
            assert(lines[i] == section[j]);
            if j >= 2 {
                if a.omitted > 0 {
                    if j > 2 {
                        assert(section[j] == later_lines(a.later)[j - 3]);
                    }
                } else {
                    assert(section[j] == later_lines(a.later)[j - 2]);
                }
            }
        }
    }
    text::lemma_split_join(lines, '\n');
}

/// Each carried message is an item: its first line behind a dash, and every other line set
/// in, one after the other.
pub proof fn law_how_a_carried_message_is_written(later: Seq<Seq<char>>, body: Seq<char>, i: int)
    requires
        0 <= i < text::split(body, '\n').len(),
    ensures
        later_lines(seq![body]).len() == text::split(body, '\n').len(),
        later_lines(seq![body])[i] == (if i == 0 {
            "- "@
        } else {
            "  "@
        }) + text::split(body, '\n')[i],
        later_lines(later + seq![body]) == later_lines(later) + later_lines(seq![body]),
    decreases later.len(),
{
    reveal_with_fuel(later_lines, 2);
    let one = seq![body];
    assert(one.drop_first() =~= Seq::<Seq<char>>::empty());
    assert(one[0] == body);
    assert(later_lines(one) =~= body_lines(ITEM@, body));
    if later.len() == 0 {
        assert(later + one =~= one);
        assert(later_lines(later) + later_lines(one) =~= later_lines(one));
    } else {
        law_how_a_carried_message_is_written(later.drop_first(), body, i);
        let all = later + one;
        assert(all.drop_first() =~= later.drop_first() + one);
        assert(all[0] == later[0]);
        assert(later_lines(all) =~= later_lines(later) + later_lines(one));
    }
}

} // verus!

//! Files that were in use before a compaction, read again and placed after the
//! summary.

use vstd::prelude::*;
use vstd::utf8::encode_utf8;

use crate::json;
use crate::paths;
use crate::protocol;
use crate::protocol::BlockView;
use crate::protocol::ContentBlock;
use crate::protocol::Injected;
use crate::protocol::InjectedView;
use crate::protocol::Message;
use crate::protocol::MessageView;
use crate::protocol::Role;
use crate::text;
use crate::tokens;

verus! {

/// What the restored files are introduced by.
pub const HEADER: &'static str =
    "[Files that were in use before this compaction, re-read just now]";

/// The most files that are restored.
pub const MAX_FILES: usize = 5;

/// The most characters of one file.
pub const FILE_CHARS: usize = 12_000;

/// The most bytes of all files together.
pub const TOTAL_CHARS: usize = 40_000;

// ---------------------------------------------------------------------------
// Which files
// ---------------------------------------------------------------------------

/// The path that a block reads, where it is a `read_file` call.
pub open spec fn read_path(block: BlockView, cwd: Seq<char>) -> Option<Seq<char>> {
    match block {
        BlockView::ToolUse { name, input, .. } => if name == "read_file"@ {
            match json::string_field(input, "path"@) {
                Some(raw) => Some(paths::normalized(cwd, raw)),
                None => None,
            }
        } else {
            None
        },
        _ => None,
    }
}

/// A path that was not seen before is put at the end.
pub open spec fn noted(seen: Seq<Seq<char>>, path: Option<Seq<char>>) -> Seq<Seq<char>> {
    match path {
        Some(p) if !seen.contains(p) => seen.push(p),
        _ => seen,
    }
}

/// The paths that the blocks before `n` add, the newest first.
pub open spec fn block_paths(
    content: Seq<BlockView>,
    cwd: Seq<char>,
    n: nat,
    seen: Seq<Seq<char>>,
) -> Seq<Seq<char>>
    decreases n,
{
    if n == 0 {
        seen
    } else {
        block_paths(content, cwd, (n - 1) as nat, noted(seen, read_path(content[n - 1], cwd)))
    }
}

/// The paths that the messages before `n` add, the newest first.
pub open spec fn message_paths(
    messages: Seq<MessageView>,
    cwd: Seq<char>,
    n: nat,
    seen: Seq<Seq<char>>,
) -> Seq<Seq<char>>
    decreases n,
{
    if n == 0 {
        seen
    } else {
        let content = messages[n - 1].content;
        message_paths(
            messages,
            cwd,
            (n - 1) as nat,
            block_paths(content, cwd, content.len(), seen),
        )
    }
}

/// The paths passed to `read_file`, newest first, each once.
pub open spec fn paths_read(messages: Seq<MessageView>, cwd: Seq<char>) -> Seq<Seq<char>> {
    message_paths(messages, cwd, messages.len(), Seq::empty())
}

fn holds_path(list: &Vec<String>, path: &str) -> (r: bool)
    ensures
        r == text::texts(list@).contains(path@),
{
    let mut i: usize = 0;
    while i < list.len()
        invariant
            i <= list@.len(),
            forall|k: int| 0 <= k < i ==> text::texts(list@)[k] != path@,
        decreases list@.len() - i,
    {
        proof {
            assert(text::texts(list@)[i as int] == list@[i as int]@);
        }
        if text::same(list[i].as_str(), path) {
            proof {
                assert(text::texts(list@)[i as int] == path@);
            }
            return true;
        }
        i += 1;
    }
    false
}

fn path_read(block: &ContentBlock, cwd: &str) -> (r: Option<String>)
    ensures
        match r {
            Some(p) => read_path(block@, cwd@) == Some(p@),
            None => read_path(block@, cwd@) is None,
        },
{
    match block {
        ContentBlock::ToolUse { name, input, .. } => if text::same(name.as_str(), "read_file") {
            match json::string_under(input.as_str(), "path") {
                Some(raw) => Some(paths::normalize_absolute_path(cwd, raw.as_str())),
                None => None,
            }
        } else {
            None
        },
        _ => None,
    }
}

/// The paths passed to `read_file`, newest first, each once.
pub fn read_paths(messages: &Vec<Message>, cwd: &str) -> (r: Vec<String>)
    ensures
        text::texts(r@) == paths_read(protocol::messages(messages@), cwd@),
{
    let ghost all = protocol::messages(messages@);
    let mut out: Vec<String> = Vec::new();
    let mut n: usize = messages.len();
    proof {
        assert(text::texts(out@) =~= Seq::<Seq<char>>::empty());
    }
    while n > 0
        invariant
            n <= messages@.len(),
            all == protocol::messages(messages@),
            paths_read(all, cwd@) == message_paths(all, cwd@, n as nat, text::texts(out@)),
        decreases n,
    {
        let message = &messages[n - 1];
        let ghost content = message@.content;
        let ghost before = text::texts(out@);
        let mut k: usize = message.content.len();
        proof {
            assert(all[n - 1] == message@);
            assert(content == protocol::blocks(message.content@));
        }
        while k > 0
            invariant
                k <= message.content@.len(),
                content == protocol::blocks(message.content@),
                block_paths(content, cwd@, content.len(), before) == block_paths(
                    content,
                    cwd@,
                    k as nat,
                    text::texts(out@),
                ),
            decreases k,
        {
            proof {
                assert(content[k - 1] == message.content@[k - 1]@);
            }
            if let Some(path) = path_read(&message.content[k - 1], cwd) {
                if !holds_path(&out, path.as_str()) {
                    text::push_text(&mut out, path);
                }
            }
            k -= 1;
        }
        n -= 1;
    }
    out
}

/// Whether a path names a notebook, which has its own way of being read.
pub open spec fn is_notebook(path: Seq<char>) -> bool {
    let name = text::split(path, '/').last();
    text::ends_with(name, ".ipynb"@) && name.len() > ".ipynb"@.len()
}

fn names_notebook(path: &str) -> (r: bool)
    ensures
        r == is_notebook(path@),
{
    let pieces = text::split_at_char(path, '/');
    proof {
        text::lemma_split_nonempty(path@, '/');
        assert(text::texts(pieces@).len() == pieces@.len());
        assert(text::texts(pieces@).last() == pieces@.last()@);
    }
    match text::strip_suffix(pieces[pieces.len() - 1].as_str(), ".ipynb") {
        Some(stem) => text::char_count(stem.as_str()) > 0,
        None => false,
    }
}

/// The paths that qualify, among the first `n`: those that the tail does not
/// carry and that are no notebooks.
pub open spec fn qualifying(
    folded: Seq<Seq<char>>,
    tail: Seq<Seq<char>>,
    n: nat,
) -> Seq<Seq<char>>
    decreases n,
{
    if n == 0 {
        Seq::empty()
    } else {
        let before = qualifying(folded, tail, (n - 1) as nat);
        let path = folded[n - 1];
        if tail.contains(path) || is_notebook(path) {
            before
        } else {
            before.push(path)
        }
    }
}

/// The paths to restore, in the order in which they are tried.
pub open spec fn candidates_of(
    folded: Seq<MessageView>,
    tail: Seq<MessageView>,
    cwd: Seq<char>,
) -> Seq<Seq<char>> {
    let list = paths_read(folded, cwd);
    qualifying(list, paths_read(tail, cwd), list.len())
}

/// The paths to restore, in the order in which they are tried.
pub fn candidates(folded: &Vec<Message>, tail: &Vec<Message>, cwd: &str) -> (r: Vec<String>)
    ensures
        text::texts(r@) == candidates_of(
            protocol::messages(folded@),
            protocol::messages(tail@),
            cwd@,
        ),
{
    let list = read_paths(folded, cwd);
    let kept = read_paths(tail, cwd);
    let ghost all = text::texts(list@);
    let ghost in_tail = text::texts(kept@);
    let mut out: Vec<String> = Vec::new();
    let mut i: usize = 0;
    proof {
        assert(text::texts(out@) =~= qualifying(all, in_tail, 0));
    }
    while i < list.len()
        invariant
            i <= list@.len(),
            all == text::texts(list@),
            in_tail == text::texts(kept@),
            text::texts(out@) == qualifying(all, in_tail, i as nat),
        decreases list@.len() - i,
    {
        proof {
            assert(all[i as int] == list@[i as int]@);
        }
        let path = list[i].as_str();
        if !holds_path(&kept, path) && !names_notebook(path) {
            text::push_text(&mut out, list[i].clone());
        }
        i += 1;
    }
    out
}

// ---------------------------------------------------------------------------
// Pages
// ---------------------------------------------------------------------------

/// How much of a file's head fits the cap for one file, as it will be read.
#[derive(Debug, PartialEq, Eq)]
pub struct Page {
    pub lines: usize,
    pub total_lines: usize,
    pub text: String,
}

#[verifier::ext_equal]
pub struct PageView {
    pub lines: nat,
    pub total_lines: nat,
    pub text: Seq<char>,
}

impl View for Page {
    type V = PageView;

    open spec fn view(&self) -> PageView {
        PageView {
            lines: self.lines as nat,
            total_lines: self.total_lines as nat,
            text: self.text@,
        }
    }
}

/// A line without the carriage return at its end.
pub open spec fn bare_line(line: Seq<char>) -> Seq<char> {
    if text::ends_with(line, "\r"@) {
        line.take(line.len() - "\r"@.len())
    } else {
        line
    }
}

/// Line `n`, as it is shown.
pub open spec fn numbered(line: Seq<char>, n: nat) -> Seq<char> {
    text::decimal(n) + "\t"@ + bare_line(line)
}

/// The first `n` lines, as they are shown.
pub open spec fn head(lines: Seq<Seq<char>>, n: nat) -> Seq<char>
    decreases n,
{
    if n == 0 {
        Seq::empty()
    } else if n == 1 {
        numbered(lines[0], 1)
    } else {
        head(lines, (n - 1) as nat) + "\n"@ + numbered(lines[n - 1], n)
    }
}

/// How many lines fit, from `n` on.
pub open spec fn fitting(lines: Seq<Seq<char>>, n: nat) -> nat
    decreases lines.len() - n,
{
    if n < lines.len() && head(lines, n + 1).len() <= FILE_CHARS {
        fitting(lines, n + 1)
    } else {
        n
    }
}

/// The line that says where to go on.
pub open spec fn continuation(lines: nat, total: nat) -> Seq<char> {
    "\n\n[showing lines 1-"@ + text::decimal(lines) + " of "@ + text::decimal(total)
        + "; call read_file with offset="@ + text::decimal(lines + 1) + " to continue]"@
}

/// The page of a file: as many whole lines of its head as fit.
pub open spec fn page_of(content: Seq<char>) -> Option<PageView> {
    let lines = text::split(content, '\n');
    let shown = fitting(lines, 0);
    if content.len() == 0 || shown == 0 {
        None
    } else {
        Some(
            PageView {
                lines: shown,
                total_lines: lines.len(),
                text: head(lines, shown) + (if shown < lines.len() {
                    continuation(shown, lines.len())
                } else {
                    Seq::empty()
                }),
            },
        )
    }
}

fn numbered_line(line: &str, n: u64) -> (r: String)
    ensures
        r@ == numbered(line@, n as nat),
{
    let mut out = text::decimal_text(n);
    out.append("\t");
    match text::strip_suffix(line, "\r") {
        Some(bare) => {
            out.append(bare.as_str());
        },
        None => {
            out.append(line);
        },
    }
    out
}

/// Sizes the read of a file: an empty file, or one whose first line is too long,
/// has nothing to restore.
pub fn first_page(content: &str) -> (r: Option<Page>)
    ensures
        match r {
            Some(page) => page_of(content@) == Some(page@),
            None => page_of(content@) is None,
        },
{
    if text::char_count(content) == 0 {
        return None;
    }
    let lines = text::split_at_char(content, '\n');
    let ghost all = text::texts(lines@);
    let total: usize = lines.len();
    let mut shown: usize = 0;
    let mut out = String::new();
    let mut chars: usize = 0;
    let mut open = true;
    proof {
        reveal_strlit("\n");
        assert(out@ =~= head(all, 0));
    }
    while open && shown < total
        invariant
            shown <= total == lines@.len(),
            all == text::texts(lines@),
            "\n"@.len() == 1,
            out@ == head(all, shown as nat),
            chars == out@.len(),
            chars <= FILE_CHARS,
            open ==> fitting(all, 0) == fitting(all, shown as nat),
            !open ==> fitting(all, 0) == shown,
        decreases total - shown + (if open {
            1int
        } else {
            0int
        }),
    {
        proof {
            assert(all[shown as int] == lines@[shown as int]@);
        }
        let line = numbered_line(lines[shown].as_str(), shown as u64 + 1);
        let size = text::char_count(line.as_str());
        let separator: usize = if shown > 0 {
            1
        } else {
            0
        };
        proof {
            assert(head(all, (shown + 1) as nat).len() == chars + separator + line@.len());
        }
        if size > FILE_CHARS || chars + separator + size > FILE_CHARS {
            open = false;
        } else {
            if shown > 0 {
                out.append("\n");
            }
            out.append(line.as_str());
            chars = chars + separator + size;
            shown += 1;
            proof {
                assert(out@ =~= head(all, shown as nat));
            }
        }
    }
    if shown == 0 {
        return None;
    }
    let ghost body = out@;
    if shown < total {
        out.append("\n\n[showing lines 1-");
        out.append(text::decimal_text(shown as u64).as_str());
        out.append(" of ");
        out.append(text::decimal_text(total as u64).as_str());
        out.append("; call read_file with offset=");
        out.append(text::decimal_text(shown as u64 + 1).as_str());
        out.append(" to continue]");
        proof {
            assert(out@ =~= body + continuation(shown as nat, total as nat));
        }
    } else {
        proof {
            assert(out@ =~= body + Seq::<char>::empty());
        }
    }
    Some(Page { lines: shown, total_lines: total, text: out })
}

/// A file's part of the message.
pub open spec fn section_text(
    path: Seq<char>,
    lines: nat,
    total_lines: nat,
    content: Seq<char>,
) -> Seq<char> {
    path + " (lines 1-"@ + text::decimal(lines) + " of "@ + text::decimal(total_lines) + "):\n"@
        + content
}

/// A file's part of the message.
pub fn section(path: &str, lines: usize, total_lines: usize, content: &str) -> (r: String)
    ensures
        r@ == section_text(path@, lines as nat, total_lines as nat, content@),
{
    let mut out = path.to_owned();
    out.append(" (lines 1-");
    out.append(text::decimal_text(lines as u64).as_str());
    out.append(" of ");
    out.append(text::decimal_text(total_lines as u64).as_str());
    out.append("):\n");
    out.append(content);
    out
}

// ---------------------------------------------------------------------------
// Restoring
// ---------------------------------------------------------------------------

/// A restoration under way: the paths that are left to try, and what was read
/// so far.
#[derive(Debug, PartialEq, Eq)]
pub struct Restoring {
    candidates: Vec<String>,
    at: usize,
    sections: Vec<String>,
    chars: usize,
    tokens: u64,
    budget: u64,
}

#[verifier::ext_equal]
pub struct RestoringView {
    pub candidates: Seq<Seq<char>>,
    pub at: nat,
    pub sections: Seq<Seq<char>>,
    pub chars: nat,
    pub tokens: nat,
    pub budget: u64,
}

impl View for Restoring {
    type V = RestoringView;

    closed spec fn view(&self) -> RestoringView {
        RestoringView {
            candidates: text::texts(self.candidates@),
            at: self.at as nat,
            sections: text::texts(self.sections@),
            chars: self.chars as nat,
            tokens: self.tokens as nat,
            budget: self.budget,
        }
    }
}

/// What to do about a path.
#[derive(Debug, PartialEq, Eq)]
pub enum Inspected {
    /// It has nothing to restore.
    Skip,
    /// It would not fit: nothing more is restored.
    Stop,
    /// Its first lines are to be read.
    Read(Page),
}

/// `usize::MAX` for what is larger.
pub open spec fn capped(n: nat) -> nat {
    if n <= usize::MAX {
        n
    } else {
        usize::MAX as nat
    }
}

/// A restoration that begins.
pub open spec fn started(
    folded: Seq<MessageView>,
    tail: Seq<MessageView>,
    cwd: Seq<char>,
    budget: u64,
) -> RestoringView {
    RestoringView {
        candidates: candidates_of(folded, tail, cwd),
        at: 0,
        sections: Seq::empty(),
        chars: encode_utf8(HEADER@).len(),
        tokens: tokens::text_tokens(HEADER@),
        budget,
    }
}

/// Whether a section of that text would pass one of the caps.
pub open spec fn would_not_fit(r: RestoringView, rendered: Seq<char>) -> bool {
    ||| capped(r.chars + encode_utf8(rendered).len()) > TOTAL_CHARS
    ||| tokens::saturated(r.tokens + tokens::text_tokens(rendered)) > r.budget
}

/// What to do about a path, given whether it may be read and what it holds.
pub open spec fn inspection(r: RestoringView, blocked: bool, content: Option<Seq<char>>) -> (
    RestoringView,
    InspectedView,
) {
    let next = RestoringView { at: r.at + 1, ..r };
    let page = match content {
        Some(c) if !blocked => page_of(c),
        _ => None,
    };
    match page {
        None => (next, InspectedView::Skip),
        Some(p) => if would_not_fit(
            r,
            section_text(r.candidates[r.at as int], p.lines, p.total_lines, p.text),
        ) {
            (RestoringView { at: r.candidates.len(), ..r }, InspectedView::Stop)
        } else {
            (r, InspectedView::Read(p))
        },
    }
}

#[verifier::ext_equal]
pub enum InspectedView {
    Skip,
    Stop,
    Read(PageView),
}

impl View for Inspected {
    type V = InspectedView;

    open spec fn view(&self) -> InspectedView {
        match self {
            Inspected::Skip => InspectedView::Skip,
            Inspected::Stop => InspectedView::Stop,
            Inspected::Read(page) => InspectedView::Read(page@),
        }
    }
}

/// A path that was read: what came back is its section.
pub open spec fn restored(
    r: RestoringView,
    lines: nat,
    total_lines: nat,
    content: Option<Seq<char>>,
) -> RestoringView {
    match content {
        None => RestoringView { at: r.at + 1, ..r },
        Some(c) => {
            let rendered = section_text(r.candidates[r.at as int], lines, total_lines, c);
            RestoringView {
                at: r.at + 1,
                sections: r.sections.push(rendered),
                chars: capped(r.chars + encode_utf8(rendered).len()),
                tokens: tokens::saturated(r.tokens + tokens::text_tokens(rendered)),
                ..r
            }
        },
    }
}

/// The message of the restored files.
pub open spec fn restored_message(sections: Seq<Seq<char>>) -> Option<MessageView> {
    if sections.len() == 0 {
        None
    } else {
        Some(
            protocol::text_message(
                Role::User,
                HEADER@ + "\n\n"@ + text::join(sections, "\n\n"@),
                Some(InjectedView::RestoredFiles),
            ),
        )
    }
}

impl Restoring {
    /// Begins with the files most recently read in `folded` that `tail` does not
    /// already carry. `budget` is the share of the window that is left.
    pub fn start(folded: &Vec<Message>, tail: &Vec<Message>, cwd: &str, budget: u64) -> (r: Self)
        ensures
            r@ == started(
                protocol::messages(folded@),
                protocol::messages(tail@),
                cwd@,
                budget,
            ),
    {
        let sections: Vec<String> = Vec::new();
        proof {
            assert(text::texts(sections@) =~= Seq::<Seq<char>>::empty());
        }
        Restoring {
            candidates: candidates(folded, tail, cwd),
            at: 0,
            sections,
            chars: HEADER.as_bytes().len(),
            tokens: tokens::estimate_text_tokens(HEADER),
            budget,
        }
    }

    /// The next path to look at; nothing where the restoration is over.
    pub fn next_path(&self, cancelled: bool) -> (r: Option<&String>)
        ensures
            match r {
                Some(path) => !cancelled && self@.sections.len() != MAX_FILES && self@.at
                    < self@.candidates.len() && path@ == self@.candidates[self@.at as int],
                None => cancelled || self@.sections.len() == MAX_FILES || self@.at
                    >= self@.candidates.len(),
            },
    {
        if cancelled || self.sections.len() == MAX_FILES || self.at >= self.candidates.len() {
            return None;
        }
        Some(&self.candidates[self.at])
    }

    /// Decides about the path that was looked at. `content` is the text of a
    /// regular file.
    pub fn inspect(&mut self, blocked: bool, content: Option<&str>) -> (r: Inspected)
        requires
            old(self)@.at < old(self)@.candidates.len(),
        ensures
            (final(self)@, r@) == inspection(
                old(self)@,
                blocked,
                match content {
                    Some(c) => Some(c@),
                    None => None,
                },
            ),
    {
        let count: usize = self.candidates.len();
        let found = match content {
            Some(c) => if blocked {
                None
            } else {
                first_page(c)
            },
            None => None,
        };
        let page = match found {
            Some(page) => page,
            None => {
                self.at += 1;
                return Inspected::Skip;
            },
        };
        let predicted = section(
            self.candidates[self.at].as_str(),
            page.lines,
            page.total_lines,
            page.text.as_str(),
        );
        let size = self.chars.saturating_add(predicted.as_str().as_bytes().len());
        let tokens = self.tokens.saturating_add(tokens::estimate_text_tokens(predicted.as_str()));
        if size > TOTAL_CHARS || tokens > self.budget {
            self.at = count;
            return Inspected::Stop;
        }
        Inspected::Read(page)
    }

    /// Takes what reading the path gave back; nothing where the read failed.
    pub fn take_read(&mut self, lines: usize, total_lines: usize, content: Option<&str>)
        requires
            old(self)@.at < old(self)@.candidates.len(),
        ensures
            final(self)@ == restored(
                old(self)@,
                lines as nat,
                total_lines as nat,
                match content {
                    Some(c) => Some(c@),
                    None => None,
                },
            ),
    {
        let count: usize = self.candidates.len();
        assert(self.at < count);
        if let Some(c) = content {
            let rendered = section(self.candidates[self.at].as_str(), lines, total_lines, c);
            self.chars = self.chars.saturating_add(rendered.as_str().as_bytes().len());
            self.tokens = self.tokens.saturating_add(
                tokens::estimate_text_tokens(rendered.as_str()),
            );
            text::push_text(&mut self.sections, rendered);
        }
        self.at += 1;
    }

    /// The message of the restored files; nothing where there are none.
    pub fn finish(self) -> (r: Option<Message>)
        ensures
            match r {
                Some(m) => restored_message(self@.sections) == Some(m@),
                None => restored_message(self@.sections) is None,
            },
    {
        if self.sections.len() == 0 {
            return None;
        }
        let mut out = HEADER.to_owned();
        out.append("\n\n");
        out.append(text::joined(&self.sections, "\n\n").as_str());
        proof {
            assert(out@ =~= HEADER@ + "\n\n"@ + text::join(self@.sections, "\n\n"@));
        }
        Some(Message::injected(Injected::RestoredFiles, out))
    }
}

// ---------------------------------------------------------------------------
// Laws
// ---------------------------------------------------------------------------

/// Whether nothing occurs twice.
pub open spec fn all_distinct(list: Seq<Seq<char>>) -> bool {
    forall|i: int, j: int| 0 <= i < j < list.len() ==> #[trigger] list[i] != #[trigger] list[j]
}

proof fn lemma_block_paths_distinct(
    content: Seq<BlockView>,
    cwd: Seq<char>,
    n: nat,
    seen: Seq<Seq<char>>,
)
    requires
        all_distinct(seen),
    ensures
        all_distinct(block_paths(content, cwd, n, seen)),
    decreases n,
{
    if n > 0 {
        let path = read_path(content[n - 1], cwd);
        let now = noted(seen, path);
        assert forall|i: int, j: int| 0 <= i < j < now.len() implies #[trigger] now[i]
            != #[trigger] now[j] by {
            if j == seen.len() {
                assert(now[i] == seen[i]);
                assert(seen.contains(seen[i]));
            }
        }
        lemma_block_paths_distinct(content, cwd, (n - 1) as nat, now);
    }
}

proof fn lemma_message_paths_distinct(
    messages: Seq<MessageView>,
    cwd: Seq<char>,
    n: nat,
    seen: Seq<Seq<char>>,
)
    requires
        all_distinct(seen),
    ensures
        all_distinct(message_paths(messages, cwd, n, seen)),
    decreases n,
{
    if n > 0 {
        let content = messages[n - 1].content;
        lemma_block_paths_distinct(content, cwd, content.len(), seen);
        lemma_message_paths_distinct(
            messages,
            cwd,
            (n - 1) as nat,
            block_paths(content, cwd, content.len(), seen),
        );
    }
}

proof fn lemma_qualifying(folded: Seq<Seq<char>>, tail: Seq<Seq<char>>, n: nat, i: int)
    requires
        all_distinct(folded),
        n <= folded.len(),
    ensures
        all_distinct(qualifying(folded, tail, n)),
        0 <= i < qualifying(folded, tail, n).len() ==> {
            &&& !tail.contains(qualifying(folded, tail, n)[i])
            &&& !is_notebook(qualifying(folded, tail, n)[i])
            &&& exists|k: int| 0 <= k < n && folded[k] == qualifying(folded, tail, n)[i]
        },
    decreases n,
{
    if n > 0 {
        let before = qualifying(folded, tail, (n - 1) as nat);
        let now = qualifying(folded, tail, n);
        lemma_qualifying(folded, tail, (n - 1) as nat, i);
        if now.len() > before.len() {
            assert forall|a: int, b: int| 0 <= a < b < now.len() implies #[trigger] now[a]
                != #[trigger] now[b] by {
                if b == before.len() {
                    lemma_qualifying(folded, tail, (n - 1) as nat, a);
                    let k = choose|k: int| 0 <= k < n - 1 && folded[k] == before[a];
                    assert(folded[k] != folded[n - 1]);
                }
            }
            if i == before.len() {
                assert(folded[n - 1] == now[i]);
            }
        }
        if 0 <= i < before.len() {
            let k = choose|k: int| 0 <= k < n - 1 && folded[k] == before[i];
            assert(folded[k] == now[i]);
        }
    }
}

/// Each file is tried at most once, and none of them is in the tail or a
/// notebook.
pub proof fn law_each_file_is_tried_once(
    folded: Seq<MessageView>,
    tail: Seq<MessageView>,
    cwd: Seq<char>,
    i: int,
)
    requires
        0 <= i < candidates_of(folded, tail, cwd).len(),
    ensures
        all_distinct(candidates_of(folded, tail, cwd)),
        !paths_read(tail, cwd).contains(candidates_of(folded, tail, cwd)[i]),
        !is_notebook(candidates_of(folded, tail, cwd)[i]),
{
    let list = paths_read(folded, cwd);
    lemma_message_paths_distinct(folded, cwd, folded.len(), Seq::empty());
    lemma_qualifying(list, paths_read(tail, cwd), list.len(), i);
}

proof fn lemma_fitting(lines: Seq<Seq<char>>, n: nat)
    requires
        n <= lines.len(),
        head(lines, n).len() <= FILE_CHARS,
    ensures
        n <= fitting(lines, n) <= lines.len(),
        head(lines, fitting(lines, n)).len() <= FILE_CHARS,
        fitting(lines, n) < lines.len() ==> head(lines, fitting(lines, n) + 1).len() > FILE_CHARS,
    decreases lines.len() - n,
{
    if n < lines.len() && head(lines, n + 1).len() <= FILE_CHARS {
        lemma_fitting(lines, n + 1);
    }
}

/// A page holds as many whole lines of the file's head as the cap takes, and no
/// more.
pub proof fn law_a_page_is_the_head_that_fits(content: Seq<char>, page: PageView)
    requires
        page_of(content) == Some(page),
    ensures
        1 <= page.lines <= page.total_lines,
        page.total_lines == text::split(content, '\n').len(),
        head(text::split(content, '\n'), page.lines).len() <= FILE_CHARS,
        page.lines < page.total_lines ==> head(
            text::split(content, '\n'),
            page.lines + 1,
        ).len() > FILE_CHARS,
        text::starts_with(page.text, head(text::split(content, '\n'), page.lines)),
{
    let lines = text::split(content, '\n');
    lemma_fitting(lines, 0);
    assert(page.text.take(head(lines, page.lines).len() as int) =~= head(lines, page.lines));
}

/// A file that is read passes neither cap: if the read gives back what was
/// sized, the bytes stay within the total and the estimate within the budget.
pub proof fn law_reads_stay_within_the_caps(
    r: RestoringView,
    blocked: bool,
    content: Option<Seq<char>>,
    page: PageView,
)
    requires
        inspection(r, blocked, content).1 == InspectedView::Read(page),
    ensures
        restored(r, page.lines, page.total_lines, Some(page.text)).chars <= TOTAL_CHARS,
        restored(r, page.lines, page.total_lines, Some(page.text)).tokens <= r.budget,
{
}

/// What is found of a candidate: whether the restoration was cancelled before it,
/// whether it may be read, its text, and what reading it gives back.
pub struct Look {
    pub cancelled: bool,
    pub blocked: bool,
    pub content: Option<Seq<char>>,
    pub read: Option<Seq<char>>,
}

/// A restoration run to its end: each path in turn is looked at and, where it is
/// to be read, read.
pub open spec fn run_of(r: RestoringView, looks: Seq<Look>) -> RestoringView
    decreases r.candidates.len() - r.at,
{
    if r.sections.len() >= MAX_FILES || r.at >= r.candidates.len()
        || looks[r.at as int].cancelled {
        r
    } else {
        let look = looks[r.at as int];
        let (now, verdict) = inspection(r, look.blocked, look.content);
        match verdict {
            InspectedView::Skip => run_of(now, looks),
            InspectedView::Stop => now,
            InspectedView::Read(page) => run_of(
                restored(now, page.lines, page.total_lines, look.read),
                looks,
            ),
        }
    }
}

/// Which candidates such a run restores.
pub open spec fn taken(r: RestoringView, looks: Seq<Look>) -> Seq<int>
    decreases r.candidates.len() - r.at,
{
    if r.sections.len() >= MAX_FILES || r.at >= r.candidates.len()
        || looks[r.at as int].cancelled {
        Seq::empty()
    } else {
        let look = looks[r.at as int];
        let (now, verdict) = inspection(r, look.blocked, look.content);
        match verdict {
            InspectedView::Skip => taken(now, looks),
            InspectedView::Stop => Seq::empty(),
            InspectedView::Read(page) => {
                let next = restored(now, page.lines, page.total_lines, look.read);
                if look.read is Some {
                    seq![r.at as int] + taken(next, looks)
                } else {
                    taken(next, looks)
                }
            },
        }
    }
}

/// The section of a candidate that was read.
pub open spec fn section_at(candidates: Seq<Seq<char>>, looks: Seq<Look>, k: int) -> Seq<char> {
    let page = page_of(looks[k].content->0)->0;
    section_text(candidates[k], page.lines, page.total_lines, looks[k].read->0)
}

/// Whether a candidate can have been read: it may be, it holds text, and reading
/// it gave something back.
pub open spec fn readable(look: Look) -> bool {
    !look.cancelled && !look.blocked && look.read is Some && (look.content matches Some(c)
        && page_of(c) is Some)
}

proof fn lemma_run(r: RestoringView, looks: Seq<Look>)
    requires
        r.sections.len() <= MAX_FILES,
    ensures
        run_of(r, looks).sections == r.sections + taken(r, looks).map_values(
            |k: int| section_at(r.candidates, looks, k),
        ),
        run_of(r, looks).sections.len() <= MAX_FILES,
        forall|i: int|
            0 <= i < taken(r, looks).len() ==> r.at <= #[trigger] taken(r, looks)[i]
                < r.candidates.len() && readable(looks[taken(r, looks)[i]]),
        forall|i: int, j: int|
            0 <= i < j < taken(r, looks).len() ==> #[trigger] taken(r, looks)[i]
                < #[trigger] taken(r, looks)[j],
    decreases r.candidates.len() - r.at,
{
    let section_of = |k: int| section_at(r.candidates, looks, k);
    let picked = taken(r, looks);
    if r.sections.len() >= MAX_FILES || r.at >= r.candidates.len()
        || looks[r.at as int].cancelled {
        assert(r.sections + picked.map_values(section_of) =~= r.sections);
    } else {
        let look = looks[r.at as int];
        let (now, verdict) = inspection(r, look.blocked, look.content);
        match verdict {
            InspectedView::Skip => {
                lemma_run(now, looks);
            },
            InspectedView::Stop => {
                assert(r.sections + picked.map_values(section_of) =~= r.sections);
            },
            InspectedView::Read(page) => {
                let next = restored(now, page.lines, page.total_lines, look.read);
                lemma_run(next, looks);
                let rest = taken(next, looks);
                if look.read is Some {
                    assert(readable(look));
                    assert(picked == seq![r.at as int] + rest);
                    assert forall|i: int| 1 <= i < picked.len() implies #[trigger] picked[i]
                        == rest[i - 1] by {}
                    assert(r.sections + picked.map_values(section_of) =~= next.sections
                        + rest.map_values(section_of));
                }
            },
        }
    }
}

/// A run restores up to five of the files, the most recently read first, none
/// twice; each is one that may be read, holds text and was read, and its section
/// says what the read gave back. There is a message exactly where there is a
/// file.
pub proof fn law_a_run_restores_the_newest_files(
    folded: Seq<MessageView>,
    tail: Seq<MessageView>,
    cwd: Seq<char>,
    budget: u64,
    looks: Seq<Look>,
)
    ensures
        ({
            let start = started(folded, tail, cwd, budget);
            let files = taken(start, looks);
            let end = run_of(start, looks);
            &&& files.len() <= 5
            &&& end.sections == files.map_values(
                |k: int| section_at(start.candidates, looks, k),
            )
            &&& forall|i: int|
                0 <= i < files.len() ==> 0 <= #[trigger] files[i] < start.candidates.len()
                    && readable(looks[files[i]])
            &&& forall|i: int, j: int|
                0 <= i < j < files.len() ==> #[trigger] files[i] < #[trigger] files[j]
                    && start.candidates[files[i]] != start.candidates[files[j]]
            &&& restored_message(end.sections) is Some <==> files.len() > 0
        }),
{
    let start = started(folded, tail, cwd, budget);
    let files = taken(start, looks);
    lemma_run(start, looks);
    assert(run_of(start, looks).sections =~= files.map_values(
        |k: int| section_at(start.candidates, looks, k),
    ));
    if start.candidates.len() > 0 {
        law_each_file_is_tried_once(folded, tail, cwd, 0);
    }
}

/// Whether block `j` of message `i` is a `read_file` call on a path.
pub open spec fn reads_at(
    messages: Seq<MessageView>,
    cwd: Seq<char>,
    i: int,
    j: int,
    path: Seq<char>,
) -> bool {
    &&& 0 <= i < messages.len()
    &&& 0 <= j < messages[i].content.len()
    &&& messages[i].content[j] is ToolUse
    &&& messages[i].content[j]->ToolUse_name == "read_file"@
    &&& json::string_field(messages[i].content[j]->ToolUse_input, "path"@) is Some
    &&& path == paths::normalized(
        cwd,
        json::string_field(messages[i].content[j]->ToolUse_input, "path"@)->0,
    )
}

/// Whether block `j` of message `i` stands behind block `b` of message `a`.
pub open spec fn stands_behind(i: int, j: int, a: int, b: int) -> bool {
    i > a || (i == a && j > b)
}

/// Whether block `j` of message `i` is the last `read_file` call on a path.
pub open spec fn last_read_at(
    messages: Seq<MessageView>,
    cwd: Seq<char>,
    i: int,
    j: int,
    path: Seq<char>,
) -> bool {
    &&& reads_at(messages, cwd, i, j, path)
    &&& forall|a: int, b: int| #[trigger]
        reads_at(messages, cwd, a, b, path) ==> !stands_behind(a, b, i, j)
}

/// Whether `seen` lists what is read from block `j` of message `i` on, the newest
/// first: `at` is where each path is last read.
spec fn lists_from(
    seen: Seq<Seq<char>>,
    messages: Seq<MessageView>,
    cwd: Seq<char>,
    i: int,
    j: int,
    at: Seq<(int, int)>,
) -> bool {
    &&& at.len() == seen.len()
    &&& forall|k: int|
        0 <= k < at.len() ==> last_read_at(
            messages,
            cwd,
            (#[trigger] at[k]).0,
            at[k].1,
            seen[k],
        ) && !stands_behind(i, j, at[k].0, at[k].1)
    &&& forall|k: int, l: int|
        0 <= k < l < at.len() ==> stands_behind(
            (#[trigger] at[k]).0,
            at[k].1,
            (#[trigger] at[l]).0,
            at[l].1,
        )
    &&& forall|a: int, b: int, p: Seq<char>| #[trigger]
        reads_at(messages, cwd, a, b, p) && !stands_behind(i, j, a, b) ==> seen.contains(p)
}

proof fn lemma_block_is_noted(
    messages: Seq<MessageView>,
    cwd: Seq<char>,
    i: int,
    j: int,
    seen: Seq<Seq<char>>,
    at: Seq<(int, int)>,
) -> (now: Seq<(int, int)>)
    requires
        0 <= i < messages.len(),
        0 < j <= messages[i].content.len(),
        lists_from(seen, messages, cwd, i, j, at),
    ensures
        lists_from(
            noted(seen, read_path(messages[i].content[j - 1], cwd)),
            messages,
            cwd,
            i,
            j - 1,
            now,
        ),
{
    let found = read_path(messages[i].content[j - 1], cwd);
    let list = noted(seen, found);
    let fresh = found is Some && !seen.contains(found->0);
    let now = if fresh {
        at.push((i, j - 1))
    } else {
        at
    };
    if found is Some {
        assert(reads_at(messages, cwd, i, j - 1, found->0));
    }
    if fresh {
        assert forall|a: int, b: int| #[trigger]
            reads_at(messages, cwd, a, b, found->0) implies !stands_behind(a, b, i, j - 1) by {
            if stands_behind(a, b, i, j - 1) {
                assert(seen.contains(found->0));
            }
        }
        assert(last_read_at(messages, cwd, i, j - 1, found->0));
    }
    assert forall|k: int| 0 <= k < now.len() implies last_read_at(
        messages,
        cwd,
        (#[trigger] now[k]).0,
        now[k].1,
        list[k],
    ) && !stands_behind(i, j - 1, now[k].0, now[k].1) by {
        if k < at.len() {
            assert(now[k] == at[k]);
            assert(list[k] == seen[k]);
        }
    }
    assert forall|k: int, l: int| 0 <= k < l < now.len() implies stands_behind(
        (#[trigger] now[k]).0,
        now[k].1,
        (#[trigger] now[l]).0,
        now[l].1,
    ) by {
        assert(now[k] == at[k]);
        if l < at.len() {
            assert(now[l] == at[l]);
        }
    }
    assert forall|a: int, b: int, p: Seq<char>| #[trigger]
        reads_at(messages, cwd, a, b, p) && !stands_behind(i, j - 1, a, b) implies list.contains(
        p,
    ) by {
        if stands_behind(i, j, a, b) {
            assert(a == i && b == j - 1);
            assert(found == Some(p));
            if fresh {
                assert(list[seen.len() as int] == p);
            }
        } else {
            assert(seen.contains(p));
            let k = choose|k: int| 0 <= k < seen.len() && seen[k] == p;
            assert(list[k] == p);
        }
    }
    now
}

proof fn lemma_blocks_are_listed(
    messages: Seq<MessageView>,
    cwd: Seq<char>,
    i: int,
    j: nat,
    seen: Seq<Seq<char>>,
    at: Seq<(int, int)>,
) -> (now: Seq<(int, int)>)
    requires
        0 <= i < messages.len(),
        j <= messages[i].content.len(),
        lists_from(seen, messages, cwd, i, j as int, at),
    ensures
        lists_from(block_paths(messages[i].content, cwd, j, seen), messages, cwd, i, 0, now),
    decreases j,
{
    if j == 0 {
        at
    } else {
        let next = lemma_block_is_noted(messages, cwd, i, j as int, seen, at);
        lemma_blocks_are_listed(
            messages,
            cwd,
            i,
            (j - 1) as nat,
            noted(seen, read_path(messages[i].content[j - 1], cwd)),
            next,
        )
    }
}

proof fn lemma_messages_are_listed(
    messages: Seq<MessageView>,
    cwd: Seq<char>,
    n: nat,
    seen: Seq<Seq<char>>,
    at: Seq<(int, int)>,
) -> (now: Seq<(int, int)>)
    requires
        n <= messages.len(),
        lists_from(seen, messages, cwd, n as int, 0, at),
    ensures
        lists_from(message_paths(messages, cwd, n, seen), messages, cwd, 0, 0, now),
    decreases n,
{
    if n == 0 {
        at
    } else {
        let content = messages[n - 1].content;
        let size = content.len();
        assert(lists_from(seen, messages, cwd, n - 1, size as int, at)) by {
            assert forall|k: int| 0 <= k < at.len() implies last_read_at(
                messages,
                cwd,
                (#[trigger] at[k]).0,
                at[k].1,
                seen[k],
            ) && !stands_behind(n - 1, size as int, at[k].0, at[k].1) by {
                assert(reads_at(messages, cwd, at[k].0, at[k].1, seen[k]));
            }
        }
        let next = lemma_blocks_are_listed(messages, cwd, n - 1, size, seen, at);
        lemma_messages_are_listed(
            messages,
            cwd,
            (n - 1) as nat,
            block_paths(content, cwd, size, seen),
            next,
        )
    }
}

proof fn lemma_paths_are_listed(messages: Seq<MessageView>, cwd: Seq<char>) -> (at: Seq<
    (int, int),
>)
    ensures
        lists_from(paths_read(messages, cwd), messages, cwd, 0, 0, at),
{
    let none = Seq::<Seq<char>>::empty();
    assert(lists_from(none, messages, cwd, messages.len() as int, 0, Seq::empty()));
    lemma_messages_are_listed(messages, cwd, messages.len(), none, Seq::empty())
}

/// A path is listed exactly where some `read_file` call of the conversation is on
/// it.
pub proof fn law_every_path_read_is_listed(
    messages: Seq<MessageView>,
    cwd: Seq<char>,
    path: Seq<char>,
)
    ensures
        paths_read(messages, cwd).contains(path) <==> exists|i: int, j: int| #[trigger]
            reads_at(messages, cwd, i, j, path),
{
    let list = paths_read(messages, cwd);
    let at = lemma_paths_are_listed(messages, cwd);
    if list.contains(path) {
        let k = choose|k: int| 0 <= k < list.len() && list[k] == path;
        assert(last_read_at(messages, cwd, at[k].0, at[k].1, list[k]));
    }
}

/// Of two listed paths, the one that was read more recently comes first.
pub proof fn law_the_newest_read_comes_first(
    messages: Seq<MessageView>,
    cwd: Seq<char>,
    k: int,
    l: int,
    i: int,
    j: int,
    a: int,
    b: int,
)
    requires
        0 <= k < paths_read(messages, cwd).len(),
        0 <= l < paths_read(messages, cwd).len(),
        last_read_at(messages, cwd, i, j, paths_read(messages, cwd)[k]),
        last_read_at(messages, cwd, a, b, paths_read(messages, cwd)[l]),
    ensures
        k < l <==> stands_behind(i, j, a, b),
{
    let list = paths_read(messages, cwd);
    let at = lemma_paths_are_listed(messages, cwd);
    assert(last_read_at(messages, cwd, at[k].0, at[k].1, list[k]));
    assert(last_read_at(messages, cwd, at[l].0, at[l].1, list[l]));
    assert(reads_at(messages, cwd, at[k].0, at[k].1, list[k]));
    assert(reads_at(messages, cwd, at[l].0, at[l].1, list[l]));
    assert(reads_at(messages, cwd, i, j, list[k]));
    assert(reads_at(messages, cwd, a, b, list[l]));
    assert(!stands_behind(i, j, at[k].0, at[k].1) && !stands_behind(at[k].0, at[k].1, i, j));
    assert(!stands_behind(a, b, at[l].0, at[l].1) && !stands_behind(at[l].0, at[l].1, a, b));
    if l < k {
        assert(stands_behind(at[l].0, at[l].1, at[k].0, at[k].1));
    }
}

proof fn lemma_qualifying_in_order(
    folded: Seq<Seq<char>>,
    tail: Seq<Seq<char>>,
    n: nat,
) -> (at: Seq<int>)
    requires
        n <= folded.len(),
    ensures
        at.len() == qualifying(folded, tail, n).len(),
        forall|k: int|
            0 <= k < at.len() ==> 0 <= #[trigger] at[k] < n && qualifying(folded, tail, n)[k]
                == folded[at[k]] && !tail.contains(folded[at[k]]) && !is_notebook(folded[at[k]]),
        forall|k: int, l: int| 0 <= k < l < at.len() ==> #[trigger] at[k] < #[trigger] at[l],
        forall|i: int|
            0 <= i < n && !tail.contains(#[trigger] folded[i]) && !is_notebook(folded[i])
                ==> at.contains(i),
    decreases n,
{
    if n == 0 {
        Seq::empty()
    } else {
        let before = lemma_qualifying_in_order(folded, tail, (n - 1) as nat);
        let path = folded[n - 1];
        if tail.contains(path) || is_notebook(path) {
            before
        } else {
            let at = before.push(n - 1);
            let now = qualifying(folded, tail, n);
            let then = qualifying(folded, tail, (n - 1) as nat);
            assert forall|k: int| 0 <= k < at.len() implies 0 <= #[trigger] at[k] < n && now[k]
                == folded[at[k]] && !tail.contains(folded[at[k]]) && !is_notebook(
                folded[at[k]],
            ) by {
                if k < before.len() {
                    assert(at[k] == before[k]);
                    assert(now[k] == then[k]);
                }
            }
            assert forall|i: int|
                0 <= i < n && !tail.contains(#[trigger] folded[i]) && !is_notebook(
                    folded[i],
                ) implies at.contains(i) by {
                if i < n - 1 {
                    assert(before.contains(i));
                    let k = choose|k: int| 0 <= k < before.len() && before[k] == i;
                    assert(at[k] == i);
                } else {
                    assert(at[before.len() as int] == i);
                }
            }
            at
        }
    }
}

/// A file is a candidate exactly where it was read before the compaction, is not
/// read again in what is kept, and is no notebook.
pub proof fn law_which_files_are_candidates(
    folded: Seq<MessageView>,
    tail: Seq<MessageView>,
    cwd: Seq<char>,
    path: Seq<char>,
)
    ensures
        candidates_of(folded, tail, cwd).contains(path) <==> {
            &&& exists|i: int, j: int| #[trigger] reads_at(folded, cwd, i, j, path)
            &&& !exists|i: int, j: int| #[trigger] reads_at(tail, cwd, i, j, path)
            &&& !is_notebook(path)
        },
{
    let list = paths_read(folded, cwd);
    let kept = paths_read(tail, cwd);
    let found = candidates_of(folded, tail, cwd);
    law_every_path_read_is_listed(folded, cwd, path);
    law_every_path_read_is_listed(tail, cwd, path);
    let at = lemma_qualifying_in_order(list, kept, list.len());
    if found.contains(path) {
        let k = choose|k: int| 0 <= k < found.len() && found[k] == path;
        assert(list[at[k]] == path);
    }
    if list.contains(path) && !kept.contains(path) && !is_notebook(path) {
        let i = choose|i: int| 0 <= i < list.len() && list[i] == path;
        assert(at.contains(i));
        let k = choose|k: int| 0 <= k < at.len() && at[k] == i;
        assert(found[k] == list[at[k]]);
    }
}

/// Of two candidates, the one that was read more recently is tried first.
pub proof fn law_the_newest_candidate_is_tried_first(
    folded: Seq<MessageView>,
    tail: Seq<MessageView>,
    cwd: Seq<char>,
    k: int,
    l: int,
    i: int,
    j: int,
    a: int,
    b: int,
)
    requires
        0 <= k < candidates_of(folded, tail, cwd).len(),
        0 <= l < candidates_of(folded, tail, cwd).len(),
        last_read_at(folded, cwd, i, j, candidates_of(folded, tail, cwd)[k]),
        last_read_at(folded, cwd, a, b, candidates_of(folded, tail, cwd)[l]),
    ensures
        k < l <==> stands_behind(i, j, a, b),
{
    let list = paths_read(folded, cwd);
    let at = lemma_qualifying_in_order(list, paths_read(tail, cwd), list.len());
    assert(0 <= at[k] < list.len() && 0 <= at[l] < list.len());
    law_the_newest_read_comes_first(folded, cwd, at[k], at[l], i, j, a, b);
    if k < l {
        assert(at[k] < at[l]);
    }
    if l < k {
        assert(at[l] < at[k]);
    }
}

/// A path names a notebook exactly where its last segment ends in `.ipynb` and is
/// longer than that.
pub proof fn law_a_notebook_goes_by_its_name(path: Seq<char>)
    ensures
        ({
            let name = text::split(path, '/').last();
            is_notebook(path) <==> name.len() > 6 && name.skip(name.len() - 6) == seq![
                '.',
                'i',
                'p',
                'y',
                'n',
                'b',
            ]
        }),
{
    reveal_strlit(".ipynb");
    assert(".ipynb"@ =~= seq!['.', 'i', 'p', 'y', 'n', 'b']);
}

/// The head of a file is its lines in order, each behind its number and a tab and
/// without a carriage return at its end.
pub proof fn law_lines_are_numbered(lines: Seq<Seq<char>>, n: nat)
    requires
        n <= lines.len(),
    ensures
        head(lines, n) == text::join(
            Seq::new(
                n,
                |i: int|
                    text::decimal((i + 1) as nat) + "\t"@ + (if lines[i].len() > 0 && lines[i].last()
                        == '\r' {
                        lines[i].drop_last()
                    } else {
                        lines[i]
                    }),
            ),
            "\n"@,
        ),
    decreases n,
{
    reveal_strlit("\r");
    let shown = |i: int|
        text::decimal((i + 1) as nat) + "\t"@ + (if lines[i].len() > 0 && lines[i].last()
            == '\r' {
            lines[i].drop_last()
        } else {
            lines[i]
        });
    let all = Seq::new(n, shown);
    if n > 0 {
        let line = lines[n - 1];
        assert(text::ends_with(line, "\r"@) <==> line.len() > 0 && line.last() == '\r') by {
            if line.len() > 0 {
                assert(line.skip(line.len() - 1) =~= seq![line.last()]);
                assert("\r"@ =~= seq!['\r']);
                assert(seq![line.last()][0] == line.last());
                assert(seq!['\r'][0] == '\r');
            }
        }
        assert(bare_line(line) =~= (if line.len() > 0 && line.last() == '\r' {
            line.drop_last()
        } else {
            line
        }));
        assert(numbered(line, n) =~= all[n - 1]);
        law_lines_are_numbered(lines, (n - 1) as nat);
        assert(all.drop_last() =~= Seq::new((n - 1) as nat, shown));
    }
}

/// A file is passed over exactly where it may not be read, holds no text, or has a
/// first line that is too long by itself; then nothing else of the restoration
/// changes. It ends the restoration where its section would pass the bytes or the
/// budget. Otherwise it is to be read.
pub proof fn law_what_is_done_about_a_file(
    r: RestoringView,
    blocked: bool,
    content: Option<Seq<char>>,
)
    requires
        r.at < r.candidates.len(),
    ensures
        ({
            let (now, verdict) = inspection(r, blocked, content);
            let page = page_of(content->0)->0;
            let rendered = section_text(
                r.candidates[r.at as int],
                page.lines,
                page.total_lines,
                page.text,
            );
            if blocked || content is None || page_of(content->0) is None {
                verdict == InspectedView::Skip && now == RestoringView { at: r.at + 1, ..r }
            } else if r.chars + encode_utf8(rendered).len() > 40_000 || tokens::saturated(
                r.tokens + tokens::text_tokens(rendered),
            ) > r.budget {
                verdict == InspectedView::Stop && now == RestoringView {
                    at: r.candidates.len(),
                    ..r
                }
            } else {
                verdict == InspectedView::Read(page) && now == r
            }
        }),
{
}

/// A page is made of a file exactly where it holds something and its first line,
/// numbered, is no longer than the cap; it ends with a note on where to go on
/// exactly where lines are left.
pub proof fn law_when_a_file_has_a_page(content: Seq<char>)
    ensures
        ({
            let lines = text::split(content, '\n');
            let first = if lines[0].len() > 0 && lines[0].last() == '\r' {
                lines[0].drop_last()
            } else {
                lines[0]
            };
            let page = page_of(content)->0;
            &&& page_of(content) is Some <==> content.len() > 0 && ("1"@ + "\t"@ + first).len()
                <= 12_000
            &&& page_of(content) is Some ==> page.text == head(lines, page.lines) + (
            if page.lines < lines.len() {
                "\n\n[showing lines 1-"@ + text::decimal(page.lines) + " of "@ + text::decimal(
                    lines.len(),
                ) + "; call read_file with offset="@ + text::decimal(page.lines + 1)
                    + " to continue]"@
            } else {
                Seq::empty()
            })
        }),
{
    let lines = text::split(content, '\n');
    text::lemma_split_nonempty(content, '\n');
    law_lines_are_numbered(lines, 1);
    lemma_fitting(lines, 0);
    reveal_strlit("1");
    reveal_strlit("\t");
    reveal_strlit("\r");
    assert(text::decimal(1).len() == 1) by {
        reveal_with_fuel(text::decimal, 2);
    }
    let line = lines[0];
    assert(text::ends_with(line, "\r"@) <==> line.len() > 0 && line.last() == '\r') by {
        if line.len() > 0 {
            assert(line.skip(line.len() - 1) =~= seq![line.last()]);
            assert("\r"@ =~= seq!['\r']);
            assert(seq![line.last()][0] == line.last());
            assert(seq!['\r'][0] == '\r');
        }
    }
    assert(head(lines, 1) == numbered(lines[0], 1));
}

/// What reading a file gave back is put down behind the rest, under its path and
/// the lines it holds; a read that failed leaves no trace. Either way the file is
/// done with.
pub proof fn law_a_read_is_put_down(
    r: RestoringView,
    lines: nat,
    total_lines: nat,
    content: Option<Seq<char>>,
)
    requires
        r.at < r.candidates.len(),
    ensures
        ({
            let now = restored(r, lines, total_lines, content);
            let rendered = r.candidates[r.at as int] + " (lines 1-"@ + text::decimal(lines)
                + " of "@ + text::decimal(total_lines) + "):\n"@ + content->0;
            &&& now.at == r.at + 1
            &&& now.candidates == r.candidates
            &&& now.budget == r.budget
            &&& content is None ==> now.sections == r.sections && now.chars == r.chars
                && now.tokens == r.tokens
            &&& content is Some ==> {
                &&& now.sections == r.sections.push(rendered)
                &&& r.chars + encode_utf8(rendered).len() <= usize::MAX ==> now.chars == r.chars
                    + encode_utf8(rendered).len()
                &&& now.tokens == tokens::saturated(r.tokens + tokens::text_tokens(rendered))
            }
        }),
{
}

/// The message is the user's, marked as restored files, and holds the sections in
/// order behind the header, a blank line between them.
pub proof fn law_the_message_holds_the_sections(sections: Seq<Seq<char>>)
    ensures
        restored_message(sections) is Some <==> sections.len() > 0,
        sections.len() > 0 ==> restored_message(sections) == Some(
            MessageView {
                role: Role::User,
                content: seq![
                    BlockView::Text {
                        text: "[Files that were in use before this compaction, re-read just now]"@
                            + "\n\n"@ + text::join(sections, "\n\n"@),
                    },
                ],
                provenance: None,
                injected: Some(InjectedView::RestoredFiles),
            },
        ),
{
}

} // verus!

//! The append-only conversation history.
//!
//! A write may need the disk more than once: for spilled results and for the
//! session file. Each write takes the replies so far. Where they suffice, it
//! takes effect as a whole; where they do not, nothing changes and the next
//! request comes back.

use vstd::prelude::*;

use crate::agent::{ProviderFailure, TurnTerminal, TurnTerminalView};
use crate::anchors;
use crate::breaker::{BreakerView, CompactionBreaker};
use crate::breaker;
use crate::offload::{
    Line, LineView, Reply, Request, RequestView, Run, Settling, OFFLOAD_CAP_CHARS,
};
use crate::offload;
use crate::protocol::{
    BlockView, ContentBlock, Message, MessageView, ProviderRouteSource, ReasoningContinuity,
};
use crate::protocol;
use crate::request_view::Origin;
use crate::inbox::PendingItem;
use crate::inbox;
use crate::offload::SettlingText;
use crate::request_view;
use crate::routes::{
    AttemptView, FrozenProviderAttempt, FrozenProviderRoute, ProviderRouteReceipt,
    ProviderSwitchError, ReceiptView, ReopenedView, RouteReopened, RouteView, SwitchError,
};
use crate::routes;
use crate::text;
use crate::usage::{ProviderUsageRecord, UsageRecordView};
use crate::usage;

verus! {

/// Where the session file stands.
#[derive(Debug, PartialEq, Eq)]
pub struct RolloutCursor {
    pub path: String,
    pub next_boundary: u64,
    pub last_id: Option<String>,
}

#[verifier::ext_equal]
pub struct CursorView {
    pub path: Seq<char>,
    pub next_boundary: u64,
    pub last_id: Option<Seq<char>>,
}

impl View for RolloutCursor {
    type V = CursorView;

    open spec fn view(&self) -> CursorView {
        CursorView {
            path: self.path@,
            next_boundary: self.next_boundary,
            last_id: protocol::opt(self.last_id),
        }
    }
}

impl Clone for RolloutCursor {
    fn clone(&self) -> (r: Self)
        ensures
            r@ == self@,
    {
        RolloutCursor {
            path: self.path.clone(),
            next_boundary: self.next_boundary,
            last_id: match &self.last_id {
                Some(id) => Some(id.clone()),
                None => None,
            },
        }
    }
}

/// What a session file holds when it is opened again.
#[derive(Debug, PartialEq, Eq)]
pub struct ResumedSession {
    pub messages: Vec<Message>,
    pub provider_usage: Vec<ProviderUsageRecord>,
    pub provider_routes: Vec<ProviderRouteReceipt>,
    pub rollout: RolloutCursor,
}

/// Append-only conversation history. Oversized tool results are offloaded to
/// disk at record time; the history keeps a preview and the file's path.
#[derive(Debug, PartialEq, Eq)]
pub struct History {
    items: Vec<Message>,
    cap: usize,
    /// Items recorded at that point, and the total context tokens the provider
    /// reported for the request covering them.
    usage_anchor: Option<(usize, u64)>,
    provider_usage: Vec<ProviderUsageRecord>,
    provider_routes: Vec<ProviderRouteReceipt>,
    /// The smallest request size the provider has actually rejected.
    observed_overflow_ceiling: Option<u64>,
    /// Whether the automatic compaction pauses.
    compaction_breaker: CompactionBreaker,
    /// The session file, for a history that has one.
    rollout: Option<RolloutCursor>,
    next_memory_boundary: u64,
    /// This turn's input: in the request the model is being sent, not yet in
    /// the conversation.
    staged: Vec<Message>,
}

#[verifier::ext_equal]
pub struct HistoryView {
    pub items: Seq<MessageView>,
    pub cap: nat,
    pub anchor: Option<(nat, u64)>,
    pub usage: Seq<UsageRecordView>,
    pub timeline: Seq<ReceiptView>,
    pub ceiling: Option<u64>,
    pub breaker: BreakerView,
    pub rollout: Option<CursorView>,
    pub memory_boundary: u64,
    pub staged: Seq<MessageView>,
}

impl View for History {
    type V = HistoryView;

    closed spec fn view(&self) -> HistoryView {
        HistoryView {
            items: protocol::messages(self.items@),
            cap: self.cap as nat,
            anchor: match self.usage_anchor {
                Some((n, t)) => Some((n as nat, t)),
                None => None,
            },
            usage: usage::records(self.provider_usage@),
            timeline: routes::receipts(self.provider_routes@),
            ceiling: self.observed_overflow_ceiling,
            breaker: self.compaction_breaker@,
            rollout: protocol::opt(self.rollout),
            memory_boundary: self.next_memory_boundary,
            staged: protocol::messages(self.staged@),
        }
    }
}

/// What waits to be committed carries no provenance.
pub open spec fn well_formed(h: HistoryView) -> bool {
    forall|i: int| 0 <= i < h.staged.len() ==> (#[trigger] h.staged[i]).provenance is None
}

// ---------------------------------------------------------------------------
// Writes as functions of the replies
// ---------------------------------------------------------------------------

/// The boundary of the next line.
pub open spec fn next_boundary(h: HistoryView) -> u64 {
    match h.rollout {
        Some(cursor) => cursor.next_boundary,
        None => h.memory_boundary,
    }
}

/// One more, at most `u64::MAX`.
pub open spec fn after(boundary: u64) -> u64 {
    if boundary < u64::MAX {
        (boundary + 1) as u64
    } else {
        u64::MAX
    }
}

/// The session file after a line: a failed write drops it, and the session
/// goes on in memory.
pub open spec fn persisted(
    rollout: Option<CursorView>,
    line: LineView,
    replies: Seq<Reply>,
    at: nat,
) -> Run<Option<CursorView>> {
    match rollout {
        None => Run::Done(None, at),
        Some(cursor) => if at >= replies.len() {
            Run::Needs(RequestView::Append(line))
        } else {
            match replies[at as int] {
                Reply::Appended { next_boundary, last_id, .. } => Run::Done(
                    Some(
                        CursorView {
                            path: cursor.path,
                            next_boundary,
                            last_id: protocol::opt(last_id),
                        },
                    ),
                    at + 1,
                ),
                Reply::AppendFailed { .. } => Run::Done(None, at + 1),
                _ => Run::Needs(RequestView::Append(line)),
            }
        },
    }
}

/// The history with one more message, written through.
pub open spec fn appended(h: HistoryView, m: MessageView, replies: Seq<Reply>, at: nat) -> Run<
    HistoryView,
> {
    match persisted(h.rollout, LineView::Message(m), replies, at) {
        Run::Needs(request) => Run::Needs(request),
        Run::Done(rollout, next) => Run::Done(
            HistoryView {
                items: h.items.push(m),
                rollout,
                memory_boundary: after(next_boundary(h)),
                ..h
            },
            next,
        ),
    }
}

/// The history with one more message, its oversized results spilled.
pub open spec fn committed(h: HistoryView, m: MessageView, replies: Seq<Reply>, at: nat) -> Run<
    HistoryView,
> {
    match offload::settle(m.content, h.cap, replies, at) {
        Run::Needs(request) => Run::Needs(request),
        Run::Done(content, next) => appended(h, MessageView { content, ..m }, replies, next),
    }
}

/// The history with a list of messages, one after the other.
pub open spec fn all_committed(
    h: HistoryView,
    list: Seq<MessageView>,
    replies: Seq<Reply>,
    at: nat,
) -> Run<HistoryView>
    decreases list.len(),
{
    if list.len() == 0 {
        Run::Done(h, at)
    } else {
        match all_committed(h, list.drop_last(), replies, at) {
            Run::Needs(request) => Run::Needs(request),
            Run::Done(now, next) => committed(now, list.last(), replies, next),
        }
    }
}

/// The history with its staged input in the conversation.
pub open spec fn stage_committed(h: HistoryView, replies: Seq<Reply>) -> Run<HistoryView> {
    all_committed(HistoryView { staged: Seq::empty(), ..h }, h.staged, replies, 0)
}

/// The history with one pending item in the conversation: its body is bounded
/// first, then the staged input is committed, then the item's message.
pub open spec fn item_injected(
    h: HistoryView,
    p: PendingItem,
    replies: Seq<Reply>,
    at: nat,
) -> Run<HistoryView> {
    match inbox::settled_body(p.item, h.cap, replies, at) {
        Run::Needs(request) => Run::Needs(request),
        Run::Done(body, next) => match all_committed(
            HistoryView { staged: Seq::empty(), ..h },
            h.staged,
            replies,
            next,
        ) {
            Run::Needs(request) => Run::Needs(request),
            Run::Done(now, after) => committed(now, inbox::framed(p, body), replies, after),
        },
    }
}

/// The history with pending items in the conversation, in their order.
pub open spec fn items_injected(h: HistoryView, list: Seq<PendingItem>, replies: Seq<Reply>) -> Run<
    HistoryView,
>
    decreases list.len(),
{
    if list.len() == 0 {
        Run::Done(h, 0)
    } else {
        match items_injected(h, list.drop_last(), replies) {
            Run::Needs(request) => Run::Needs(request),
            Run::Done(now, next) => item_injected(now, list.last(), replies, next),
        }
    }
}

/// The history with a message recorded: the staged input first.
pub open spec fn recorded(h: HistoryView, m: MessageView, replies: Seq<Reply>) -> Run<HistoryView> {
    match stage_committed(h, replies) {
        Run::Needs(request) => Run::Needs(request),
        Run::Done(now, next) => committed(now, m, replies, next),
    }
}

/// The history with a provider's response recorded: the staged input first,
/// then the response with its provenance, as it is.
pub open spec fn assistant_recorded(
    h: HistoryView,
    content: Seq<BlockView>,
    attempt: AttemptView,
    replies: Seq<Reply>,
) -> Run<HistoryView> {
    match stage_committed(h, replies) {
        Run::Needs(request) => Run::Needs(request),
        Run::Done(now, next) => appended(
            now,
            MessageView {
                role: protocol::Role::Assistant,
                content,
                provenance: Some(routes::provenance_of(attempt, next_boundary(now))),
                injected: None,
            },
            replies,
            next,
        ),
    }
}

/// The history with a turn's closing line: the staged input first.
pub open spec fn terminal_recorded(
    h: HistoryView,
    terminal: TurnTerminalView,
    replies: Seq<Reply>,
) -> Run<HistoryView> {
    match stage_committed(h, replies) {
        Run::Needs(request) => Run::Needs(request),
        Run::Done(now, next) => match persisted(
            now.rollout,
            LineView::Terminal(terminal),
            replies,
            next,
        ) {
            Run::Needs(request) => Run::Needs(request),
            Run::Done(rollout, last) => Run::Done(HistoryView { rollout, ..now }, last),
        },
    }
}

/// The history with a usage line. A ledger entry is no place in the transcript,
/// so the staged input stays staged.
pub open spec fn usage_recorded(h: HistoryView, record: UsageRecordView, replies: Seq<Reply>) -> Run<
    HistoryView,
> {
    match persisted(h.rollout, LineView::Usage(record), replies, 0) {
        Run::Needs(request) => Run::Needs(request),
        Run::Done(rollout, next) => Run::Done(
            HistoryView { rollout, usage: h.usage.push(record), ..h },
            next,
        ),
    }
}

/// The history rewritten by a compaction. The staged input was not part of
/// what was folded up, so it stays staged. Every compaction that is applied,
/// whatever set it off, ends up here and closes the breaker.
pub open spec fn replaced(h: HistoryView, items: Seq<MessageView>, replies: Seq<Reply>) -> Run<
    HistoryView,
> {
    match persisted(h.rollout, LineView::Compacted(items), replies, 0) {
        Run::Needs(request) => Run::Needs(request),
        Run::Done(rollout, next) => Run::Done(
            HistoryView {
                rollout,
                items,
                anchor: None,
                breaker: breaker::closed_by_success(h.breaker),
                ..h
            },
            next,
        ),
    }
}

/// What a write comes to: the request that is missing, with nothing changed; or
/// the new history.
pub open spec fn wrote(
    before: HistoryView,
    run: Run<HistoryView>,
    now: HistoryView,
    request: Option<Request>,
) -> bool {
    match run {
        Run::Needs(view) => now == before && (request matches Some(r) && r@ == view),
        Run::Done(h, _) => now == h && request is None,
    }
}

// ---------------------------------------------------------------------------
// Executable writes
// ---------------------------------------------------------------------------

enum Persisting {
    Needs(Request),
    Done(Option<RolloutCursor>, usize),
}

fn copy_cursor(cursor: &Option<RolloutCursor>) -> (r: Option<RolloutCursor>)
    ensures
        protocol::opt(r) == protocol::opt(*cursor),
{
    match cursor {
        Some(c) => Some(c.clone()),
        None => None,
    }
}

fn persist(rollout: Option<RolloutCursor>, line: Line, replies: &Vec<Reply>, at: usize) -> (r:
    Persisting)
    requires
        at <= replies@.len(),
    ensures
        match r {
            Persisting::Needs(request) => persisted(
                protocol::opt(rollout),
                line@,
                replies@,
                at as nat,
            ) == Run::<Option<CursorView>>::Needs(request@),
            Persisting::Done(cursor, next) => {
                &&& persisted(protocol::opt(rollout), line@, replies@, at as nat) == Run::<
                    Option<CursorView>,
                >::Done(protocol::opt(cursor), next as nat)
                &&& at <= next <= replies@.len()
            },
        },
{
    match rollout {
        None => Persisting::Done(None, at),
        Some(cursor) => {
            if at >= replies.len() {
                return Persisting::Needs(Request::Append(line));
            }
            match &replies[at] {
                Reply::Appended { next_boundary, last_id, .. } => Persisting::Done(
                    Some(
                        RolloutCursor {
                            path: cursor.path,
                            next_boundary: *next_boundary,
                            last_id: match last_id {
                                Some(id) => Some(id.clone()),
                                None => None,
                            },
                        },
                    ),
                    at + 1,
                ),
                Reply::AppendFailed { .. } => Persisting::Done(None, at + 1),
                _ => Persisting::Needs(Request::Append(line)),
            }
        },
    }
}

/// A write in the making.
struct Draft {
    added: Vec<Message>,
    rollout: Option<RolloutCursor>,
    memory_boundary: u64,
    next: usize,
}

/// The history that a draft makes of another.
spec fn drafted(h: HistoryView, d: Draft) -> HistoryView {
    HistoryView {
        items: h.items + protocol::messages(d.added@),
        rollout: protocol::opt(d.rollout),
        memory_boundary: d.memory_boundary,
        staged: Seq::empty(),
        ..h
    }
}

enum Drafting {
    Needs(Request),
    Done(Draft),
}

fn one_more(boundary: u64) -> (r: u64)
    ensures
        r == after(boundary),
{
    boundary.saturating_add(1)
}

impl Draft {
    fn boundary(&self) -> (r: u64)
        ensures
            forall|h: HistoryView| r == next_boundary(#[trigger] drafted(h, *self)),
    {
        match &self.rollout {
            Some(cursor) => cursor.next_boundary,
            None => self.memory_boundary,
        }
    }

    /// Appends a message as it is.
    fn append(self, h: Ghost<HistoryView>, message: Message, replies: &Vec<Reply>) -> (r: Drafting)
        requires
            self.next <= replies@.len(),
        ensures
            match r {
                Drafting::Needs(request) => appended(
                    drafted(h@, self),
                    message@,
                    replies@,
                    self.next as nat,
                ) == Run::<HistoryView>::Needs(request@),
                Drafting::Done(d) => {
                    &&& appended(drafted(h@, self), message@, replies@, self.next as nat) == Run::<
                        HistoryView,
                    >::Done(drafted(h@, d), d.next as nat)
                    &&& d.next <= replies@.len()
                },
            },
    {
        let boundary: u64 = self.boundary();
        proof {
            assert(boundary == next_boundary(drafted(h@, self)));
        }
        let line = Line::Message(message.clone());
        match persist(self.rollout, line, replies, self.next) {
            Persisting::Needs(request) => Drafting::Needs(request),
            Persisting::Done(rollout, next) => {
                let ghost before = self.added@;
                let mut added = self.added;
                added.push(message);
                let d = Draft { added, rollout, memory_boundary: one_more(boundary), next };
                proof {
                    assert(h@.items + protocol::messages(d.added@) =~= (h@.items
                        + protocol::messages(before)).push(message@));
                    assert(drafted(h@, d) =~= HistoryView {
                        items: drafted(h@, self).items.push(message@),
                        rollout: protocol::opt(d.rollout),
                        memory_boundary: after(boundary),
                        ..drafted(h@, self)
                    });
                }
                Drafting::Done(d)
            },
        }
    }

    /// Commits a message, its oversized results spilled.
    fn commit(
        self,
        h: Ghost<HistoryView>,
        message: Message,
        cap: usize,
        replies: &Vec<Reply>,
    ) -> (r: Drafting)
        requires
            self.next <= replies@.len(),
            h@.cap == cap,
            message@.provenance is None,
        ensures
            match r {
                Drafting::Needs(request) => committed(
                    drafted(h@, self),
                    message@,
                    replies@,
                    self.next as nat,
                ) == Run::<HistoryView>::Needs(request@),
                Drafting::Done(d) => {
                    &&& committed(drafted(h@, self), message@, replies@, self.next as nat) == Run::<
                        HistoryView,
                    >::Done(drafted(h@, d), d.next as nat)
                    &&& d.next <= replies@.len()
                },
            },
    {
        let Message { role, content, provider_provenance, injected } = message;
        match offload::settle_content(content, cap, replies, self.next) {
            Settling::Needs(request) => Drafting::Needs(request),
            Settling::Done(content, next) => {
                let settled = Message { role, content, provider_provenance, injected };
                proof {
                    assert(settled@ =~= (MessageView {
                        content: protocol::blocks(content@),
                        ..message@
                    }));
                }
                let Draft { added, rollout, memory_boundary, .. } = self;
                let d = Draft { added, rollout, memory_boundary, next };
                proof {
                    assert(drafted(h@, d) == drafted(h@, self));
                }
                d.append(h, settled, replies)
            },
        }
    }
}

impl History {
    /// A history in memory, empty.
    pub fn new() -> (r: Self)
        ensures
            r@ == (HistoryView {
                items: Seq::empty(),
                cap: OFFLOAD_CAP_CHARS as nat,
                anchor: None,
                usage: Seq::empty(),
                timeline: Seq::empty(),
                ceiling: None,
                breaker: breaker::fresh(),
                rollout: None,
                memory_boundary: 1,
                staged: Seq::empty(),
            }),
            well_formed(r@),
    {
        let r = History {
            items: Vec::new(),
            cap: OFFLOAD_CAP_CHARS,
            usage_anchor: None,
            provider_usage: Vec::new(),
            provider_routes: Vec::new(),
            observed_overflow_ceiling: None,
            compaction_breaker: CompactionBreaker::default(),
            rollout: None,
            next_memory_boundary: 1,
            staged: Vec::new(),
        };
        proof {
            assert(r@.items =~= Seq::<MessageView>::empty());
            assert(r@.staged =~= Seq::<MessageView>::empty());
            assert(r@.usage =~= Seq::<UsageRecordView>::empty());
            assert(r@.timeline =~= Seq::<ReceiptView>::empty());
        }
        r
    }

    /// Writes through a session file from here on.
    pub fn attach_rollout(&mut self, rollout: RolloutCursor, timeline: Vec<ProviderRouteReceipt>)
        ensures
            final(self)@ == (HistoryView {
                rollout: Some(rollout@),
                timeline: routes::receipts(timeline@),
                ..old(self)@
            }),
    {
        self.provider_routes = timeline;
        self.rollout = Some(rollout);
    }

    /// A persisted session: its items were offloaded when first recorded, so
    /// they are installed as they are.
    pub fn resume(resumed: ResumedSession) -> (r: Self)
        ensures
            r@ == (HistoryView {
                items: protocol::messages(resumed.messages@),
                cap: OFFLOAD_CAP_CHARS as nat,
                anchor: None,
                usage: usage::records(resumed.provider_usage@),
                timeline: routes::receipts(resumed.provider_routes@),
                ceiling: None,
                breaker: breaker::fresh(),
                rollout: Some(resumed.rollout@),
                memory_boundary: resumed.rollout.next_boundary,
                staged: Seq::empty(),
            }),
            well_formed(r@),
    {
        let ResumedSession { messages, provider_usage, provider_routes, rollout } = resumed;
        let boundary: u64 = rollout.next_boundary;
        let r = History {
            items: messages,
            cap: OFFLOAD_CAP_CHARS,
            usage_anchor: None,
            provider_usage,
            provider_routes,
            observed_overflow_ceiling: None,
            compaction_breaker: CompactionBreaker::default(),
            rollout: Some(rollout),
            next_memory_boundary: boundary,
            staged: Vec::new(),
        };
        proof {
            assert(r@.staged =~= Seq::<MessageView>::empty());
        }
        r
    }

    /// Rewinds the live conversation onto a forked branch: its items and its
    /// file take the place of the old ones; what the provider rejected and what
    /// is staged stay.
    pub fn rebase(&mut self, resumed: ResumedSession)
        ensures
            final(self)@ == (HistoryView {
                items: protocol::messages(resumed.messages@),
                anchor: None,
                usage: usage::records(resumed.provider_usage@),
                timeline: routes::receipts(resumed.provider_routes@),
                rollout: Some(resumed.rollout@),
                memory_boundary: resumed.rollout.next_boundary,
                breaker: breaker::fresh(),
                ..old(self)@
            }),
    {
        let ResumedSession { messages, provider_usage, provider_routes, rollout } = resumed;
        self.next_memory_boundary = rollout.next_boundary;
        self.items = messages;
        self.provider_usage = provider_usage;
        self.provider_routes = provider_routes;
        self.rollout = Some(rollout);
        self.usage_anchor = None;
        self.compaction_breaker = CompactionBreaker::default();
    }

    /// Holds this turn's input outside the conversation until the turn produces
    /// something.
    pub fn stage(&mut self, message: Message)
        requires
            well_formed(old(self)@),
            message@.provenance is None,
        ensures
            final(self)@ == (HistoryView { staged: old(self)@.staged.push(message@), ..old(self)@ }),
            well_formed(final(self)@),
    {
        let ghost before = self@;
        self.staged.push(message);
        proof {
            assert(self@.staged =~= before.staged.push(message@));
        }
    }

    /// Whether this turn's input is still outside the conversation.
    pub fn has_staged(&self) -> (r: bool)
        ensures
            r == (self@.staged.len() > 0),
    {
        self.staged.len() > 0
    }

    /// Drops the staged input and hands it back.
    pub fn take_staged(&mut self) -> (r: Vec<Message>)
        ensures
            protocol::messages(r@) == old(self)@.staged,
            final(self)@ == (HistoryView { staged: Seq::empty(), ..old(self)@ }),
            well_formed(final(self)@),
    {
        let mut taken: Vec<Message> = Vec::new();
        std::mem::swap(&mut taken, &mut self.staged);
        proof {
            assert(self@.staged =~= Seq::<MessageView>::empty());
        }
        taken
    }

    /// Drops the staged input and hands back what was staged first: what the user
    /// sent. Context staged behind it goes with the turn that asked for it.
    pub fn take_input(&mut self) -> (r: Option<Message>)
        ensures
            protocol::opt(r) == (if old(self)@.staged.len() > 0 {
                Some(old(self)@.staged[0])
            } else {
                None
            }),
            final(self)@ == (HistoryView { staged: Seq::empty(), ..old(self)@ }),
            well_formed(final(self)@),
    {
        let mut taken = self.take_staged();
        if taken.len() == 0 {
            return None;
        }
        proof {
            assert(protocol::messages(taken@)[0] == taken@[0]@);
        }
        Some(taken.swap_remove(0))
    }

    /// The staged input committed, as a draft.
    fn draft_staged(&self, replies: &Vec<Reply>) -> (r: Drafting)
        requires
            well_formed(self@),
        ensures
            match r {
                Drafting::Needs(request) => stage_committed(self@, replies@) == Run::<
                    HistoryView,
                >::Needs(request@),
                Drafting::Done(d) => {
                    &&& stage_committed(self@, replies@) == Run::<HistoryView>::Done(
                        drafted(self@, d),
                        d.next as nat,
                    )
                    &&& d.next <= replies@.len()
                },
            },
    {
        self.draft_staged_from(replies, 0)
    }

    /// The staged input committed with the replies from a position on.
    fn draft_staged_from(&self, replies: &Vec<Reply>, at: usize) -> (r: Drafting)
        requires
            well_formed(self@),
            at <= replies@.len(),
        ensures
            match r {
                Drafting::Needs(request) => all_committed(
                    HistoryView { staged: Seq::empty(), ..self@ },
                    self@.staged,
                    replies@,
                    at as nat,
                ) == Run::<HistoryView>::Needs(request@),
                Drafting::Done(d) => {
                    &&& all_committed(
                        HistoryView { staged: Seq::empty(), ..self@ },
                        self@.staged,
                        replies@,
                        at as nat,
                    ) == Run::<HistoryView>::Done(drafted(self@, d), d.next as nat)
                    &&& d.next <= replies@.len()
                },
            },
    {
        let ghost h = self@;
        let ghost base = HistoryView { staged: Seq::empty(), ..h };
        let mut d = Draft {
            added: Vec::new(),
            rollout: copy_cursor(&self.rollout),
            memory_boundary: self.next_memory_boundary,
            next: at,
        };
        let mut i: usize = 0;
        proof {
            assert(h.items + protocol::messages(d.added@) =~= h.items);
            assert(drafted(h, d) =~= base);
            assert(h.staged.take(0) =~= Seq::<MessageView>::empty());
        }
        while i < self.staged.len()
            invariant
                i <= self.staged@.len(),
                h == self@,
                well_formed(h),
                base == (HistoryView { staged: Seq::empty(), ..h }),
                at <= replies@.len(),
                d.next <= replies@.len(),
                all_committed(base, h.staged.take(i as int), replies@, at as nat) == Run::<
                    HistoryView,
                >::Done(drafted(h, d), d.next as nat),
            decreases self.staged@.len() - i,
        {
            proof {
                assert(h.staged[i as int] == self.staged@[i as int]@);
                assert(h.staged.take(i + 1).drop_last() =~= h.staged.take(i as int));
                assert(h.staged.take(i + 1).last() == self.staged@[i as int]@);
            }
            match d.commit(Ghost(h), self.staged[i].clone(), self.cap, replies) {
                Drafting::Needs(request) => {
                    proof {
                        lemma_commit_stops(base, h.staged, replies@, at as nat, i as int + 1);
                    }
                    return Drafting::Needs(request);
                },
                Drafting::Done(next) => {
                    d = next;
                },
            }
            i += 1;
        }
        proof {
            assert(h.staged.take(h.staged.len() as int) =~= h.staged);
        }
        Drafting::Done(d)
    }

    fn install(&mut self, d: Draft)
        ensures
            final(self)@ == drafted(old(self)@, d),
            well_formed(final(self)@),
    {
        let ghost before = self@;
        let Draft { added, rollout, memory_boundary, .. } = d;
        let mut added = added;
        let ghost more = protocol::messages(added@);
        self.items.append(&mut added);
        self.rollout = rollout;
        self.next_memory_boundary = memory_boundary;
        self.staged = Vec::new();
        proof {
            assert(self@.items =~= before.items + more);
            assert(self@.staged =~= Seq::<MessageView>::empty());
            assert(self@ =~= drafted(before, d));
        }
    }

    /// Moves the staged input into the conversation.
    pub fn commit_staged(&mut self, replies: &Vec<Reply>) -> (r: Option<Request>)
        requires
            well_formed(old(self)@),
        ensures
            wrote(old(self)@, stage_committed(old(self)@, replies@), final(self)@, r),
            well_formed(final(self)@),
    {
        match self.draft_staged(replies) {
            Drafting::Needs(request) => Some(request),
            Drafting::Done(d) => {
                self.install(d);
                None
            },
        }
    }

    /// Records a message after the staged input. A provider's response has its
    /// own way in.
    pub fn record(&mut self, message: Message, replies: &Vec<Reply>) -> (r: Option<Request>)
        requires
            well_formed(old(self)@),
            message@.provenance is None,
        ensures
            wrote(old(self)@, recorded(old(self)@, message@, replies@), final(self)@, r),
            well_formed(final(self)@),
    {
        match self.draft_staged(replies) {
            Drafting::Needs(request) => Some(request),
            Drafting::Done(d) => match d.commit(Ghost(self@), message, self.cap, replies) {
                Drafting::Needs(request) => Some(request),
                Drafting::Done(d) => {
                    self.install(d);
                    None
                },
            },
        }
    }

    /// The first pending item in the conversation, as a draft.
    fn draft_first(&self, p: &PendingItem, replies: &Vec<Reply>) -> (r: Drafting)
        requires
            well_formed(self@),
        ensures
            match r {
                Drafting::Needs(request) => item_injected(self@, *p, replies@, 0) == Run::<
                    HistoryView,
                >::Needs(request@),
                Drafting::Done(d) => {
                    &&& item_injected(self@, *p, replies@, 0) == Run::<HistoryView>::Done(
                        drafted(self@, d),
                        d.next as nat,
                    )
                    &&& d.next <= replies@.len()
                },
            },
    {
        let (body, at) = match inbox::settle_body(&p.item, self.cap, replies, 0) {
            SettlingText::Needs(request) => {
                return Drafting::Needs(request);
            },
            SettlingText::Done(body, at) => (body, at),
        };
        match self.draft_staged_from(replies, at) {
            Drafting::Needs(request) => Drafting::Needs(request),
            Drafting::Done(d) => d.commit(
                Ghost(self@),
                inbox::frame(p, body.as_str()),
                self.cap,
                replies,
            ),
        }
    }

    /// Puts pending items into the conversation, in their order. Nothing changes
    /// until every write that this takes has been answered.
    pub fn inject_pending(&mut self, pending: &Vec<PendingItem>, replies: &Vec<Reply>) -> (r: Option<
        Request,
    >)
        requires
            well_formed(old(self)@),
        ensures
            wrote(old(self)@, items_injected(old(self)@, pending@, replies@), final(self)@, r),
            well_formed(final(self)@),
    {
        let ghost h = self@;
        if pending.len() == 0 {
            return None;
        }
        let ghost all = pending@;
        proof {
            lemma_first_injection(h, all, replies@);
        }
        let mut d = match self.draft_first(&pending[0], replies) {
            Drafting::Needs(request) => {
                proof {
                    lemma_injection_stops(h, all, replies@, 1);
                }
                return Some(request);
            },
            Drafting::Done(d) => d,
        };
        let mut i: usize = 1;
        while i < pending.len()
            invariant
                1 <= i <= pending@.len(),
                h == self@,
                well_formed(h),
                all == pending@,
                d.next <= replies@.len(),
                items_injected(h, all.take(i as int), replies@) == Run::<HistoryView>::Done(
                    drafted(h, d),
                    d.next as nat,
                ),
            decreases pending@.len() - i,
        {
            proof {
                assert(all.take(i + 1).drop_last() =~= all.take(i as int));
                assert(all.take(i + 1).last() == all[i as int]);
            }
            let (body, next) = match inbox::settle_body(
                &pending[i].item,
                self.cap,
                replies,
                d.next,
            ) {
                SettlingText::Needs(request) => {
                    proof {
                        lemma_injection_stops(h, all, replies@, i + 1);
                    }
                    return Some(request);
                },
                SettlingText::Done(body, next) => (body, next),
            };
            let Draft { added, rollout, memory_boundary, .. } = d;
            let ready = Draft { added, rollout, memory_boundary, next };
            proof {
                assert(drafted(h, ready) =~= HistoryView {
                    staged: Seq::empty(),
                    ..drafted(h, ready)
                });
            }
            d = match ready.commit(
                Ghost(h),
                inbox::frame(&pending[i], body.as_str()),
                self.cap,
                replies,
            ) {
                Drafting::Needs(request) => {
                    proof {
                        lemma_injection_stops(h, all, replies@, i + 1);
                    }
                    return Some(request);
                },
                Drafting::Done(d) => d,
            };
            i += 1;
        }
        proof {
            assert(all.take(i as int) =~= all);
        }
        self.install(d);
        None
    }

    /// Records a provider's response after the staged input, with where it
    /// came from.
    pub fn record_provider_assistant(
        &mut self,
        content: Vec<ContentBlock>,
        attempt: &FrozenProviderAttempt,
        replies: &Vec<Reply>,
    ) -> (r: Option<Request>)
        requires
            well_formed(old(self)@),
        ensures
            wrote(
                old(self)@,
                assistant_recorded(
                    old(self)@,
                    protocol::blocks(content@),
                    attempt@,
                    replies@,
                ),
                final(self)@,
                r,
            ),
            well_formed(final(self)@),
    {
        match self.draft_staged(replies) {
            Drafting::Needs(request) => Some(request),
            Drafting::Done(d) => {
                let boundary: u64 = d.boundary();
                proof {
                    assert(boundary == next_boundary(drafted(self@, d)));
                }
                let message = Message::assistant_from_provider(
                    content,
                    attempt.provenance(boundary),
                );
                match d.append(Ghost(self@), message, replies) {
                    Drafting::Needs(request) => Some(request),
                    Drafting::Done(d) => {
                        self.install(d);
                        None
                    },
                }
            },
        }
    }

    /// Persists a turn's closing line, after the staged input. It never enters
    /// the conversation.
    pub fn record_turn_terminal(&mut self, terminal: TurnTerminal, replies: &Vec<Reply>) -> (r:
        Option<Request>)
        requires
            well_formed(old(self)@),
        ensures
            wrote(old(self)@, terminal_recorded(old(self)@, terminal@, replies@), final(self)@, r),
            well_formed(final(self)@),
    {
        match self.draft_staged(replies) {
            Drafting::Needs(request) => Some(request),
            Drafting::Done(d) => {
                let Draft { added, rollout, memory_boundary, next } = d;
                match persist(rollout, Line::Terminal(terminal), replies, next) {
                    Persisting::Needs(request) => Some(request),
                    Persisting::Done(rollout, next) => {
                        let now = Draft { added, rollout, memory_boundary, next };
                        proof {
                            assert(drafted(self@, now) =~= (HistoryView {
                                rollout: protocol::opt(rollout),
                                ..drafted(self@, d)
                            }));
                        }
                        self.install(now);
                        None
                    },
                }
            },
        }
    }

    /// Records what a request cost. The staged input stays staged.
    pub fn record_provider_usage(&mut self, record: ProviderUsageRecord, replies: &Vec<Reply>) -> (r:
        Option<Request>)
        requires
            well_formed(old(self)@),
        ensures
            wrote(old(self)@, usage_recorded(old(self)@, record@, replies@), final(self)@, r),
            well_formed(final(self)@),
    {
        let ghost before = self@;
        match persist(copy_cursor(&self.rollout), Line::Usage(record.clone()), replies, 0) {
            Persisting::Needs(request) => Some(request),
            Persisting::Done(rollout, _) => {
                self.rollout = rollout;
                self.provider_usage.push(record);
                proof {
                    assert(self@.usage =~= before.usage.push(record@));
                }
                None
            },
        }
    }

    /// Compaction's rewrite of the conversation. The anchor no longer describes
    /// it and is dropped; the staged input stays staged; the breaker closes.
    pub fn replace_all(&mut self, items: Vec<Message>, replies: &Vec<Reply>) -> (r: Option<Request>)
        requires
            well_formed(old(self)@),
        ensures
            wrote(
                old(self)@,
                replaced(old(self)@, protocol::messages(items@), replies@),
                final(self)@,
                r,
            ),
            well_formed(final(self)@),
    {
        let line = Line::Compacted(protocol::clone_messages(&items));
        match persist(copy_cursor(&self.rollout), line, replies, 0) {
            Persisting::Needs(request) => Some(request),
            Persisting::Done(rollout, _) => {
                self.rollout = rollout;
                self.items = items;
                self.usage_anchor = None;
                self.compaction_breaker.record_success();
                None
            },
        }
    }

    /// The conversation.
    pub fn messages(&self) -> (r: &Vec<Message>)
        ensures
            protocol::messages(r@) == self@.items,
    {
        &self.items
    }

    /// What waits to be committed.
    pub fn staged(&self) -> (r: &Vec<Message>)
        ensures
            protocol::messages(r@) == self@.staged,
    {
        &self.staged
    }

    /// What requests have cost.
    pub fn provider_usage(&self) -> (r: &Vec<ProviderUsageRecord>)
        ensures
            usage::records(r@) == self@.usage,
    {
        &self.provider_usage
    }

    /// The route timeline.
    pub fn provider_routes(&self) -> (r: &Vec<ProviderRouteReceipt>)
        ensures
            routes::receipts(r@) == self@.timeline,
    {
        &self.provider_routes
    }

    /// Whether the route timeline has been opened.
    pub fn has_provider_route(&self) -> (r: bool)
        ensures
            r == (self@.timeline.len() > 0),
    {
        self.provider_routes.len() > 0
    }

    /// The name of the last line of the session file.
    pub fn rollout_last_id(&self) -> (r: Option<&String>)
        ensures
            match r {
                Some(id) => self@.rollout matches Some(cursor) && cursor.last_id == Some(id@),
                None => self@.rollout matches Some(cursor) ==> cursor.last_id is None,
            },
    {
        match &self.rollout {
            Some(cursor) => match &cursor.last_id {
                Some(id) => Some(id),
                None => None,
            },
            None => None,
        }
    }

    /// The path of the session file.
    pub fn rollout_path(&self) -> (r: Option<&String>)
        ensures
            match r {
                Some(path) => self@.rollout matches Some(cursor) && cursor.path == path@,
                None => self@.rollout is None,
            },
    {
        match &self.rollout {
            Some(cursor) => Some(&cursor.path),
            None => None,
        }
    }

    /// The breaker of the automatic compaction, to count on.
    pub fn compaction_breaker(&mut self) -> (r: &mut CompactionBreaker)
        ensures
            r@ == old(self)@.breaker,
            final(self)@ == (HistoryView { breaker: final(r)@, ..old(self)@ }),
    {
        &mut self.compaction_breaker
    }

    /// The breaker of the automatic compaction, as it stands.
    pub fn breaker(&self) -> (r: CompactionBreaker)
        ensures
            r@ == self@.breaker,
    {
        self.compaction_breaker
    }

    /// Anchors the context estimate: the provider reported this total for the
    /// request whose response is the last item.
    pub fn note_usage(&mut self, total_tokens: u64)
        ensures
            final(self)@ == (HistoryView {
                anchor: Some((old(self)@.items.len(), total_tokens)),
                ..old(self)@
            }),
    {
        self.usage_anchor = Some((self.items.len(), total_tokens));
    }

    /// Whether the estimate starts from a total that the provider reported.
    pub fn has_usage_anchor(&self) -> (r: bool)
        ensures
            r == self@.anchor is Some,
    {
        self.usage_anchor.is_some()
    }

    /// The total that the estimate starts from; 0 where the provider reported none.
    pub fn anchored_tokens(&self) -> (r: u64)
        ensures
            r == (match self@.anchor {
                Some((_, total)) => total,
                None => 0,
            }),
    {
        match self.usage_anchor {
            Some((_, total)) => total,
            None => 0,
        }
    }

    /// The window to plan against: the configured value, lowered to anything
    /// the provider has actually rejected, never raised.
    pub fn effective_window(&self, configured: u64) -> (r: u64)
        ensures
            r == window_of(self@, configured),
    {
        match self.observed_overflow_ceiling {
            Some(observed) => if observed < configured {
                observed
            } else {
                configured
            },
            None => configured,
        }
    }

    /// Records a size the provider refused; the smallest counts.
    pub fn note_overflow_at(&mut self, estimated_tokens: u64)
        ensures
            final(self)@ == (HistoryView {
                ceiling: Some(
                    match old(self)@.ceiling {
                        Some(previous) => if previous < estimated_tokens {
                            previous
                        } else {
                            estimated_tokens
                        },
                        None => estimated_tokens,
                    },
                ),
                ..old(self)@
            }),
    {
        self.observed_overflow_ceiling = Some(
            match self.observed_overflow_ceiling {
                Some(previous) => if previous < estimated_tokens {
                    previous
                } else {
                    estimated_tokens
                },
                None => estimated_tokens,
            },
        );
    }

    /// The current context size: the last anchor, and an estimate for
    /// everything recorded or staged after it. `sizes` holds the estimate of
    /// each message, recorded ones first.
    pub fn estimated_tokens(&self, sizes: &Vec<u64>) -> (r: u64)
        requires
            sizes@.len() == self@.items.len() + self@.staged.len(),
            context_tokens(self@, sizes@) <= u64::MAX,
        ensures
            r == context_tokens(self@, sizes@),
    {
        let ghost h = self@;
        let (anchored, base): (usize, u64) = match self.usage_anchor {
            Some((n, t)) => (n, t),
            None => (0, 0),
        };
        let items: usize = self.items.len();
        let from: usize = if anchored < items {
            anchored
        } else {
            items
        };
        let mut total: u64 = base;
        let mut i: usize = from;
        proof {
            assert(h.items.len() == items);
            lemma_sum_monotonic(sizes@, from as int, from as int);
        }
        while i < sizes.len()
            invariant
                from <= i <= sizes@.len(),
                total + sum_from(sizes@, i as int) == base + sum_from(sizes@, from as int),
                base + sum_from(sizes@, from as int) <= u64::MAX,
            decreases sizes@.len() - i,
        {
            proof {
                lemma_sum_monotonic(sizes@, i as int, i + 1);
            }
            total = total + sizes[i];
            i += 1;
        }
        total
    }
}

/// The window to plan against.
pub open spec fn window_of(h: HistoryView, configured: u64) -> u64 {
    match h.ceiling {
        Some(observed) => if observed < configured {
            observed
        } else {
            configured
        },
        None => configured,
    }
}

/// The sum of the sizes from `i` on.
pub open spec fn sum_from(sizes: Seq<u64>, i: int) -> nat
    decreases sizes.len() - i,
{
    if i < 0 || i >= sizes.len() {
        0
    } else {
        sizes[i] as nat + sum_from(sizes, i + 1)
    }
}

/// The context size that the sizes of all messages come to.
pub open spec fn context_tokens(h: HistoryView, sizes: Seq<u64>) -> nat {
    match h.anchor {
        Some((n, t)) => t as nat + sum_from(
            sizes,
            if n < h.items.len() {
                n as int
            } else {
                h.items.len() as int
            },
        ),
        None => sum_from(sizes, 0),
    }
}

proof fn lemma_sum_monotonic(sizes: Seq<u64>, i: int, j: int)
    requires
        0 <= i <= j,
    ensures
        sum_from(sizes, j) <= sum_from(sizes, i),
    decreases j - i,
{
    if i < j {
        lemma_sum_monotonic(sizes, i + 1, j);
    }
}

proof fn lemma_commit_stops(
    h: HistoryView,
    list: Seq<MessageView>,
    replies: Seq<Reply>,
    at: nat,
    n: int,
)
    requires
        0 <= n <= list.len(),
        all_committed(h, list.take(n), replies, at) is Needs,
    ensures
        all_committed(h, list, replies, at) == all_committed(h, list.take(n), replies, at),
    decreases list.len() - n,
{
    if n == list.len() {
        assert(list.take(n) =~= list);
    } else {
        assert(list.take(n + 1).drop_last() =~= list.take(n));
        lemma_commit_stops(h, list, replies, at, n + 1);
    }
}

proof fn lemma_first_injection(h: HistoryView, list: Seq<PendingItem>, replies: Seq<Reply>)
    requires
        list.len() > 0,
    ensures
        items_injected(h, list.take(1), replies) == item_injected(h, list[0], replies, 0),
{
    assert(list.take(1).drop_last() =~= Seq::<PendingItem>::empty());
    assert(items_injected(h, list.take(1).drop_last(), replies) == Run::<HistoryView>::Done(h, 0));
    assert(list.take(1).last() == list[0]);
}

proof fn lemma_injection_stops(
    h: HistoryView,
    list: Seq<PendingItem>,
    replies: Seq<Reply>,
    n: int,
)
    requires
        0 <= n <= list.len(),
        items_injected(h, list.take(n), replies) is Needs,
    ensures
        items_injected(h, list, replies) == items_injected(h, list.take(n), replies),
    decreases list.len() - n,
{
    if n == list.len() {
        assert(list.take(n) =~= list);
    } else {
        assert(list.take(n + 1).drop_last() =~= list.take(n));
        lemma_injection_stops(h, list, replies, n + 1);
    }
}

// ---------------------------------------------------------------------------
// Routes
// ---------------------------------------------------------------------------

/// A route write that waits, is done, or failed with nothing changed.
#[derive(Debug, PartialEq, Eq)]
pub enum RouteWrite {
    Needs(Request),
    Done(ProviderRouteReceipt),
    Failed(String),
}

#[verifier::ext_equal]
pub enum RouteRun {
    Needs(RequestView),
    Done(HistoryView, ReceiptView),
    Failed(Seq<char>),
}

/// What a route write comes to.
pub open spec fn route_wrote(
    before: HistoryView,
    run: RouteRun,
    now: HistoryView,
    result: RouteWrite,
) -> bool {
    match run {
        RouteRun::Needs(view) => now == before && (result matches RouteWrite::Needs(r) && r@
            == view),
        RouteRun::Done(h, receipt) => now == h && (result matches RouteWrite::Done(r) && r@
            == receipt),
        RouteRun::Failed(error) => now == before && (result matches RouteWrite::Failed(e) && e@
            == error),
    }
}

/// A route line that must reach the session file: a failed write is returned
/// and nothing changes.
pub open spec fn route_line(
    h: HistoryView,
    line: LineView,
    route: RouteView,
    source: ProviderRouteSource,
    continuity: ReasoningContinuity,
    replies: Seq<Reply>,
) -> RouteRun {
    if replies.len() == 0 {
        RouteRun::Needs(RequestView::Append(line))
    } else {
        match replies[0] {
            Reply::Appended { boundary, next_boundary, last_id } => {
                let receipt = routes::receipt_of(route, boundary, source, continuity);
                RouteRun::Done(
                    HistoryView {
                        rollout: Some(
                            CursorView {
                                path: h.rollout->Some_0.path,
                                next_boundary,
                                last_id: protocol::opt(last_id),
                            },
                        ),
                        timeline: h.timeline.push(receipt),
                        ..h
                    },
                    receipt,
                )
            },
            Reply::AppendFailed { error } => RouteRun::Failed(error@),
            _ => RouteRun::Needs(RequestView::Append(line)),
        }
    }
}

/// Whether a receipt names the same revision of the same place as a route.
pub open spec fn receipt_matches(receipt: ReceiptView, route: RouteView) -> bool {
    &&& receipt.route_revision == route.revision
    &&& same_identity(receipt, route)
}

/// Whether a receipt names the same place as a route.
pub open spec fn same_identity(receipt: ReceiptView, route: RouteView) -> bool {
    &&& receipt.provider_id == route.provider_id
    &&& receipt.api_family == route.api_family
    &&& receipt.endpoint_fingerprint == route.endpoint_fingerprint
    &&& receipt.model == route.model
}

/// The timeline opened with a route; an open timeline must already stand on it.
pub open spec fn opened(h: HistoryView, route: RouteView, replies: Seq<Reply>) -> RouteRun {
    if h.timeline.len() > 0 {
        if receipt_matches(h.timeline.last(), route) {
            RouteRun::Done(h, h.timeline.last())
        } else {
            RouteRun::Failed("history provider route does not match the frozen operation route"@)
        }
    } else if h.rollout is Some {
        route_line(
            h,
            LineView::InitialRoute(route),
            route,
            ProviderRouteSource::Initial,
            ReasoningContinuity::Preserved,
            replies,
        )
    } else {
        let receipt = routes::receipt_of(
            route,
            0,
            ProviderRouteSource::Initial,
            ReasoningContinuity::Preserved,
        );
        RouteRun::Done(HistoryView { timeline: h.timeline.push(receipt), ..h }, receipt)
    }
}

/// The timeline with one more revision.
pub open spec fn route_changed(
    h: HistoryView,
    route: RouteView,
    source: ProviderRouteSource,
    continuity: ReasoningContinuity,
    replies: Seq<Reply>,
) -> RouteRun {
    if h.timeline.len() == 0 {
        RouteRun::Failed("history provider route timeline is missing"@)
    } else if route.revision != after(h.timeline.last().route_revision) {
        RouteRun::Failed("provider route revision must advance by exactly one"@)
    } else if h.rollout is Some {
        route_line(
            h,
            LineView::RouteChanged { route, source, continuity },
            route,
            source,
            continuity,
            replies,
        )
    } else {
        let receipt = routes::receipt_of(route, h.memory_boundary, source, continuity);
        RouteRun::Done(
            HistoryView {
                timeline: h.timeline.push(receipt),
                memory_boundary: after(h.memory_boundary),
                ..h
            },
            receipt,
        )
    }
}

/// What the request view would cost on a proposed route: projected against a
/// timeline that already carries the proposed receipt.
pub open spec fn continuity_on(
    h: HistoryView,
    next: RouteView,
    source: ProviderRouteSource,
    origins: Seq<Origin>,
) -> Result<ReasoningContinuity, Seq<char>> {
    let hypothetical = h.timeline.push(
        routes::receipt_of(next, next_boundary(h), source, ReasoningContinuity::Preserved),
    );
    match request_view::request_messages(
        h.items,
        hypothetical,
        routes::attempt_of(next),
        origins,
    ) {
        Err(e) => Err(e),
        Ok(view) => Ok(
            if view == h.items {
                ReasoningContinuity::Preserved
            } else {
                ReasoningContinuity::Filtered
            },
        ),
    }
}

/// The view of a switch error.
#[verifier::ext_equal]
pub enum SwitchErrorView {
    RevisionExhausted,
    Refused(Seq<char>),
    History(Seq<char>),
    Persistence(Seq<char>),
}

pub open spec fn switch_error(e: ProviderSwitchError) -> SwitchErrorView {
    match e {
        ProviderSwitchError::Route(SwitchError::RevisionExhausted) =>
            SwitchErrorView::RevisionExhausted,
        ProviderSwitchError::Route(SwitchError::Refused(why)) => SwitchErrorView::Refused(why@),
        ProviderSwitchError::History(f) => SwitchErrorView::History(f.message@),
        ProviderSwitchError::Persistence(e) => SwitchErrorView::Persistence(e@),
    }
}

/// Opening a session on a route: waiting, done, or failed with nothing changed.
#[derive(Debug, PartialEq, Eq)]
pub enum Adoption {
    Needs(Request),
    Done(FrozenProviderRoute, Option<RouteReopened>),
    Failed(ProviderSwitchError),
}

#[verifier::ext_equal]
pub enum AdoptRun {
    Needs(RequestView),
    Done(HistoryView, RouteView, Option<ReopenedView>),
    Failed(SwitchErrorView),
}

/// What opening a session on a route comes to.
pub open spec fn adopt_wrote(
    before: HistoryView,
    run: AdoptRun,
    now: HistoryView,
    result: Adoption,
) -> bool {
    match run {
        AdoptRun::Needs(view) => now == before && (result matches Adoption::Needs(r) && r@ == view),
        AdoptRun::Done(h, route, reopened) => now == h && (result matches Adoption::Done(r, o) && r@
            == route && protocol::opt(o) == reopened),
        AdoptRun::Failed(error) => now == before && (result matches Adoption::Failed(e)
            && switch_error(e) == error),
    }
}

/// A session opened on a route: nothing is written where the session already
/// stands there; else one more revision records the hop.
pub open spec fn adopted(
    h: HistoryView,
    opening: RouteView,
    origins: Seq<Origin>,
    replies: Seq<Reply>,
) -> AdoptRun {
    if h.timeline.len() == 0 {
        AdoptRun::Failed(
            SwitchErrorView::Persistence("history provider route timeline is missing"@),
        )
    } else {
        let last = h.timeline.last();
        if same_identity(last, opening) {
            AdoptRun::Done(
                h,
                RouteView {
                    revision: last.route_revision,
                    continuity: last.continuity,
                    ..opening
                },
                None,
            )
        } else if last.route_revision == u64::MAX {
            AdoptRun::Failed(SwitchErrorView::RevisionExhausted)
        } else {
            let revision = (last.route_revision + 1) as u64;
            match continuity_on(
                h,
                RouteView { revision, ..opening },
                ProviderRouteSource::Reopened,
                origins,
            ) {
                Err(e) => AdoptRun::Failed(SwitchErrorView::History(e)),
                Ok(continuity) => {
                    let next = RouteView { revision, continuity, ..opening };
                    match route_changed(
                        h,
                        next,
                        ProviderRouteSource::Reopened,
                        continuity,
                        replies,
                    ) {
                        RouteRun::Needs(request) => AdoptRun::Needs(request),
                        RouteRun::Failed(e) => AdoptRun::Failed(SwitchErrorView::Persistence(e)),
                        RouteRun::Done(now, _) => AdoptRun::Done(
                            now,
                            next,
                            Some(
                                ReopenedView {
                                    from_provider: last.provider_id,
                                    from_model: last.model,
                                    to_provider: next.provider_id,
                                    to_model: next.model,
                                    continuity,
                                },
                            ),
                        ),
                    }
                },
            }
        }
    }
}

/// A switch that the user typed: waiting, done, or failed with nothing changed.
#[derive(Debug, PartialEq, Eq)]
pub enum Switching {
    Needs(Request),
    Done(ReasoningContinuity),
    Failed(ProviderSwitchError),
}

#[verifier::ext_equal]
pub enum SwitchRun {
    Needs(RequestView),
    Done(HistoryView, ReasoningContinuity),
    Failed(SwitchErrorView),
}

/// What a switch comes to.
pub open spec fn switch_wrote(
    before: HistoryView,
    run: SwitchRun,
    now: HistoryView,
    result: Switching,
) -> bool {
    match run {
        SwitchRun::Needs(view) => now == before && (result matches Switching::Needs(r) && r@
            == view),
        SwitchRun::Done(h, continuity) => now == h && result == Switching::Done(continuity),
        SwitchRun::Failed(error) => now == before && (result matches Switching::Failed(e)
            && switch_error(e) == error),
    }
}

/// A switch from one route to the next. A revision that moves only the effort
/// stays on the same route, and its continuity rides forward.
pub open spec fn switched(
    h: HistoryView,
    previous: RouteView,
    next: RouteView,
    origins: Seq<Origin>,
    replies: Seq<Reply>,
) -> SwitchRun {
    let continuity = if routes::same_place(previous, next) {
        Ok(previous.continuity)
    } else {
        continuity_on(h, next, ProviderRouteSource::ExplicitSwitch, origins)
    };
    match continuity {
        Err(e) => SwitchRun::Failed(SwitchErrorView::History(e)),
        Ok(c) => match route_changed(h, next, ProviderRouteSource::ExplicitSwitch, c, replies) {
            RouteRun::Needs(request) => SwitchRun::Needs(request),
            RouteRun::Failed(e) => SwitchRun::Failed(SwitchErrorView::Persistence(e)),
            RouteRun::Done(now, _) => SwitchRun::Done(now, c),
        },
    }
}

fn receipt_is_place(receipt: &ProviderRouteReceipt, route: &FrozenProviderRoute) -> (r: bool)
    ensures
        r == same_identity(receipt@, route@),
{
    text::same(receipt.provider_id.as_str(), route.provider_id.as_str()) && receipt.api_family
        == route.api_family && text::same(
        receipt.endpoint_fingerprint.as_str(),
        route.endpoint_fingerprint.as_str(),
    ) && text::same(receipt.model.as_str(), route.model.as_str())
}

impl History {
    fn push_receipt(&mut self, receipt: ProviderRouteReceipt)
        ensures
            final(self)@ == (HistoryView {
                timeline: old(self)@.timeline.push(receipt@),
                ..old(self)@
            }),
    {
        let ghost before = self@;
        self.provider_routes.push(receipt);
        proof {
            assert(self@.timeline =~= before.timeline.push(receipt@));
        }
    }

    fn write_route(
        &mut self,
        line: Line,
        route: &FrozenProviderRoute,
        source: ProviderRouteSource,
        continuity: ReasoningContinuity,
        replies: &Vec<Reply>,
    ) -> (r: RouteWrite)
        requires
            old(self)@.rollout is Some,
        ensures
            route_wrote(
                old(self)@,
                route_line(old(self)@, line@, route@, source, continuity, replies@),
                final(self)@,
                r,
            ),
    {
        if replies.len() == 0 {
            return RouteWrite::Needs(Request::Append(line));
        }
        match &replies[0] {
            Reply::Appended { boundary, next_boundary, last_id } => {
                let path = match &self.rollout {
                    Some(cursor) => cursor.path.clone(),
                    None => String::new(),
                };
                let receipt = route.receipt(*boundary, source, continuity);
                self.rollout = Some(
                    RolloutCursor {
                        path,
                        next_boundary: *next_boundary,
                        last_id: match last_id {
                            Some(id) => Some(id.clone()),
                            None => None,
                        },
                    },
                );
                self.push_receipt(receipt.clone());
                RouteWrite::Done(receipt)
            },
            Reply::AppendFailed { error } => RouteWrite::Failed(error.clone()),
            _ => RouteWrite::Needs(Request::Append(line)),
        }
    }

    /// Opens the route timeline; an open one must already stand on the route.
    pub fn ensure_initial_provider_route(
        &mut self,
        route: &FrozenProviderRoute,
        replies: &Vec<Reply>,
    ) -> (r: RouteWrite)
        ensures
            route_wrote(old(self)@, opened(old(self)@, route@, replies@), final(self)@, r),
    {
        if self.provider_routes.len() > 0 {
            let last = &self.provider_routes[self.provider_routes.len() - 1];
            proof {
                assert(self@.timeline.last() == last@);
            }
            if last.route_revision != route.revision || !receipt_is_place(last, route) {
                return RouteWrite::Failed(
                    "history provider route does not match the frozen operation route".to_owned(),
                );
            }
            return RouteWrite::Done(last.clone());
        }
        if self.rollout.is_some() {
            return self.write_route(
                Line::InitialRoute(route.clone()),
                route,
                ProviderRouteSource::Initial,
                ReasoningContinuity::Preserved,
                replies,
            );
        }
        let receipt = route.receipt(
            0,
            ProviderRouteSource::Initial,
            ReasoningContinuity::Preserved,
        );
        self.push_receipt(receipt.clone());
        RouteWrite::Done(receipt)
    }

    /// Appends a revision to the route timeline: exactly the next one.
    pub fn append_provider_route_changed(
        &mut self,
        route: &FrozenProviderRoute,
        source: ProviderRouteSource,
        continuity: ReasoningContinuity,
        replies: &Vec<Reply>,
    ) -> (r: RouteWrite)
        ensures
            route_wrote(
                old(self)@,
                route_changed(old(self)@, route@, source, continuity, replies@),
                final(self)@,
                r,
            ),
    {
        if self.provider_routes.len() == 0 {
            return RouteWrite::Failed("history provider route timeline is missing".to_owned());
        }
        let last = &self.provider_routes[self.provider_routes.len() - 1];
        proof {
            assert(self@.timeline.last() == last@);
        }
        if route.revision != one_more(last.route_revision) {
            return RouteWrite::Failed(
                "provider route revision must advance by exactly one".to_owned(),
            );
        }
        if self.rollout.is_some() {
            return self.write_route(
                Line::RouteChanged { route: route.clone(), source, continuity },
                route,
                source,
                continuity,
                replies,
            );
        }
        let receipt = route.receipt(self.next_memory_boundary, source, continuity);
        self.next_memory_boundary = one_more(self.next_memory_boundary);
        self.push_receipt(receipt.clone());
        RouteWrite::Done(receipt)
    }

    /// What a request carries: the conversation, then this turn's staged input.
    pub fn provider_request_view(
        &self,
        attempt: &FrozenProviderAttempt,
        origins: &Vec<Origin>,
        staged_origins: &Vec<Origin>,
    ) -> (r: Result<Vec<Message>, ProviderFailure>)
        requires
            request_view::origins_fit(origins@, self@.items.len(), self@.timeline.len()),
            request_view::origins_fit(staged_origins@, self@.staged.len(), self@.timeline.len()),
        ensures
            match r {
                Ok(view) => request_of(self@, attempt@, origins@, staged_origins@) == Ok::<
                    Seq<MessageView>,
                    Seq<char>,
                >(protocol::messages(view@)),
                Err(f) => request_of(self@, attempt@, origins@, staged_origins@) == Err::<
                    Seq<MessageView>,
                    Seq<char>,
                >(f.message@),
            },
    {
        let (view, _) = match request_view::provider_request_view(
            &self.items,
            &self.provider_routes,
            attempt,
            origins,
        ) {
            Ok(both) => both,
            Err(f) => {
                return Err(f);
            },
        };
        if self.staged.len() == 0 {
            return Ok(view);
        }
        let (rest, _) = match request_view::provider_request_view(
            &self.staged,
            &self.provider_routes,
            attempt,
            staged_origins,
        ) {
            Ok(both) => both,
            Err(f) => {
                return Err(f);
            },
        };
        let ghost first = protocol::messages(view@);
        let ghost second = protocol::messages(rest@);
        let mut view = view;
        let mut rest = rest;
        view.append(&mut rest);
        proof {
            assert(protocol::messages(view@) =~= first + second);
        }
        Ok(view)
    }

    fn projected_continuity(
        &self,
        next: &FrozenProviderRoute,
        source: ProviderRouteSource,
        origins: &Vec<Origin>,
    ) -> (r: Result<ReasoningContinuity, ProviderFailure>)
        requires
            request_view::origins_fit(origins@, self@.items.len(), self@.timeline.len() + 1),
        ensures
            match r {
                Ok(c) => continuity_on(self@, next@, source, origins@) == Ok::<
                    ReasoningContinuity,
                    Seq<char>,
                >(c),
                Err(f) => continuity_on(self@, next@, source, origins@) == Err::<
                    ReasoningContinuity,
                    Seq<char>,
                >(f.message@),
            },
    {
        let boundary: u64 = match &self.rollout {
            Some(cursor) => cursor.next_boundary,
            None => self.next_memory_boundary,
        };
        let mut hypothetical = routes::clone_receipts(&self.provider_routes);
        let receipt = next.receipt(boundary, source, ReasoningContinuity::Preserved);
        let ghost view = receipt@;
        let ghost before = routes::receipts(hypothetical@);
        hypothetical.push(receipt);
        proof {
            assert(routes::receipts(hypothetical@) =~= before.push(view));
        }
        match request_view::provider_request_view(
            &self.items,
            &hypothetical,
            &next.primary_attempt(),
            origins,
        ) {
            Err(f) => Err(f),
            Ok((_, exact)) => Ok(
                if exact {
                    ReasoningContinuity::Preserved
                } else {
                    ReasoningContinuity::Filtered
                },
            ),
        }
    }

    /// Opens the session on a route: the one a brand-new session would start
    /// on. A hop is a durable revision like any other, and comes back to be
    /// said out loud.
    pub fn adopt_provider_route(
        &mut self,
        opening: &FrozenProviderRoute,
        origins: &Vec<Origin>,
        replies: &Vec<Reply>,
    ) -> (r: Adoption)
        requires
            request_view::origins_fit(
                origins@,
                old(self)@.items.len(),
                old(self)@.timeline.len() + 1,
            ),
        ensures
            adopt_wrote(
                old(self)@,
                adopted(old(self)@, opening@, origins@, replies@),
                final(self)@,
                r,
            ),
    {
        if self.provider_routes.len() == 0 {
            return Adoption::Failed(
                ProviderSwitchError::Persistence(
                    "history provider route timeline is missing".to_owned(),
                ),
            );
        }
        let last = &self.provider_routes[self.provider_routes.len() - 1];
        proof {
            assert(self@.timeline.last() == last@);
        }
        if receipt_is_place(last, opening) {
            return Adoption::Done(
                opening.at_revision_with_continuity(last.route_revision, last.continuity),
                None,
            );
        }
        if last.route_revision == u64::MAX {
            return Adoption::Failed(ProviderSwitchError::Route(SwitchError::RevisionExhausted));
        }
        let from_provider = last.provider_id.clone();
        let from_model = last.model.clone();
        let revision: u64 = last.route_revision + 1;
        let tentative = opening.at_revision_with_continuity(revision, opening.continuity);
        let continuity = match self.projected_continuity(
            &tentative,
            ProviderRouteSource::Reopened,
            origins,
        ) {
            Ok(c) => c,
            Err(f) => {
                return Adoption::Failed(ProviderSwitchError::History(f));
            },
        };
        let next = opening.at_revision_with_continuity(revision, continuity);
        match self.append_provider_route_changed(
            &next,
            ProviderRouteSource::Reopened,
            continuity,
            replies,
        ) {
            RouteWrite::Needs(request) => Adoption::Needs(request),
            RouteWrite::Failed(e) => Adoption::Failed(ProviderSwitchError::Persistence(e)),
            RouteWrite::Done(_) => {
                let reopened = RouteReopened {
                    from_provider,
                    from_model,
                    to_provider: next.provider_id.clone(),
                    to_model: next.model.clone(),
                    continuity,
                };
                Adoption::Done(next, Some(reopened))
            },
        }
    }

    /// Commits a switch to a route that the catalog has resolved: the
    /// transcript is untouched, and a refusal leaves the session as it was.
    pub fn switch_provider(
        &mut self,
        previous: &FrozenProviderRoute,
        next: &FrozenProviderRoute,
        origins: &Vec<Origin>,
        replies: &Vec<Reply>,
    ) -> (r: Switching)
        requires
            request_view::origins_fit(
                origins@,
                old(self)@.items.len(),
                old(self)@.timeline.len() + 1,
            ),
        ensures
            switch_wrote(
                old(self)@,
                switched(old(self)@, previous@, next@, origins@, replies@),
                final(self)@,
                r,
            ),
    {
        let continuity = if previous.same_route(next) {
            previous.continuity
        } else {
            match self.projected_continuity(next, ProviderRouteSource::ExplicitSwitch, origins) {
                Ok(c) => c,
                Err(f) => {
                    return Switching::Failed(ProviderSwitchError::History(f));
                },
            }
        };
        match self.append_provider_route_changed(
            next,
            ProviderRouteSource::ExplicitSwitch,
            continuity,
            replies,
        ) {
            RouteWrite::Needs(request) => Switching::Needs(request),
            RouteWrite::Failed(e) => Switching::Failed(ProviderSwitchError::Persistence(e)),
            RouteWrite::Done(_) => Switching::Done(continuity),
        }
    }

    /// Pins a thread's effective runtime. Unlike a message this must reach the
    /// session file: a failed write is returned.
    pub fn append_runtime(&mut self, runtime: String, replies: &Vec<Reply>) -> (r: Result<
        Option<Request>,
        String,
    >)
        requires
            well_formed(old(self)@),
        ensures
            match runtime_appended(old(self)@, runtime@, replies@) {
                RuntimeRun::Needs(view) => final(self)@ == old(self)@ && (r matches Ok(Some(request))
                    && request@ == view),
                RuntimeRun::Done(h) => final(self)@ == h && r == Ok::<Option<Request>, String>(
                    None,
                ),
                RuntimeRun::Failed(e) => final(self)@ == old(self)@ && (r matches Err(error)
                    && error@ == e),
            },
    {
        let path = match &self.rollout {
            Some(cursor) => cursor.path.clone(),
            None => {
                return Err("history has no rollout".to_owned());
            },
        };
        if replies.len() == 0 {
            return Ok(Some(Request::Append(Line::Runtime(runtime))));
        }
        match &replies[0] {
            Reply::Appended { next_boundary, last_id, .. } => {
                self.rollout = Some(
                    RolloutCursor {
                        path,
                        next_boundary: *next_boundary,
                        last_id: match last_id {
                            Some(id) => Some(id.clone()),
                            None => None,
                        },
                    },
                );
                Ok(None)
            },
            Reply::AppendFailed { error } => Err(error.clone()),
            _ => Ok(Some(Request::Append(Line::Runtime(runtime)))),
        }
    }
}

#[verifier::ext_equal]
pub enum RuntimeRun {
    Needs(RequestView),
    Done(HistoryView),
    Failed(Seq<char>),
}

/// The history with a runtime line in its session file.
pub open spec fn runtime_appended(h: HistoryView, runtime: Seq<char>, replies: Seq<Reply>) -> RuntimeRun {
    match h.rollout {
        None => RuntimeRun::Failed("history has no rollout"@),
        Some(cursor) => if replies.len() == 0 {
            RuntimeRun::Needs(RequestView::Append(LineView::Runtime(runtime)))
        } else {
            match replies[0] {
                Reply::Appended { next_boundary, last_id, .. } => RuntimeRun::Done(
                    HistoryView {
                        rollout: Some(
                            CursorView {
                                path: cursor.path,
                                next_boundary,
                                last_id: protocol::opt(last_id),
                            },
                        ),
                        ..h
                    },
                ),
                Reply::AppendFailed { error } => RuntimeRun::Failed(error@),
                _ => RuntimeRun::Needs(RequestView::Append(LineView::Runtime(runtime))),
            }
        },
    }
}

/// What a request carries: the conversation, then the staged input.
pub open spec fn request_of(
    h: HistoryView,
    attempt: AttemptView,
    origins: Seq<Origin>,
    staged_origins: Seq<Origin>,
) -> Result<Seq<MessageView>, Seq<char>> {
    match request_view::request_messages(h.items, h.timeline, attempt, origins) {
        Err(e) => Err(e),
        Ok(first) => if h.staged.len() == 0 {
            Ok(first)
        } else {
            match request_view::request_messages(h.staged, h.timeline, attempt, staged_origins) {
                Err(e) => Err(e),
                Ok(second) => Ok(first + second),
            }
        },
    }
}

// ---------------------------------------------------------------------------
// Laws
// ---------------------------------------------------------------------------

/// Messages that differ only in the text of their text results.
pub open spec fn same_but_results(a: MessageView, b: MessageView) -> bool {
    &&& a.role == b.role
    &&& a.provenance == b.provenance
    &&& a.injected == b.injected
    &&& offload::all_same_but_text(a.content, b.content)
}

proof fn lemma_committed_adds_one(h: HistoryView, m: MessageView, replies: Seq<Reply>, at: nat)
    ensures
        committed(h, m, replies, at) matches Run::Done(now, _) ==> {
            &&& now.items.len() == h.items.len() + 1
            &&& now.items.take(h.items.len() as int) == h.items
            &&& same_but_results(m, now.items.last())
            &&& now.staged == h.staged
            &&& now.timeline == h.timeline
            &&& now.usage == h.usage
        },
{
    offload::law_settling_keeps_every_block(m.content, h.cap, replies, at);
    match committed(h, m, replies, at) {
        Run::Done(now, _) => {
            assert(now.items.take(h.items.len() as int) =~= h.items);
        },
        Run::Needs(_) => {},
    }
}

proof fn lemma_all_committed_in_order(
    h: HistoryView,
    list: Seq<MessageView>,
    replies: Seq<Reply>,
    at: nat,
)
    ensures
        all_committed(h, list, replies, at) matches Run::Done(now, _) ==> {
            &&& now.items.len() == h.items.len() + list.len()
            &&& now.items.take(h.items.len() as int) == h.items
            &&& forall|i: int|
                0 <= i < list.len() ==> same_but_results(
                    #[trigger] list[i],
                    now.items[h.items.len() + i],
                )
            &&& now.staged == h.staged
            &&& now.timeline == h.timeline
            &&& now.usage == h.usage
        },
    decreases list.len(),
{
    if list.len() == 0 {
        assert(h.items.take(h.items.len() as int) =~= h.items);
    } else {
        lemma_all_committed_in_order(h, list.drop_last(), replies, at);
        match all_committed(h, list.drop_last(), replies, at) {
            Run::Needs(_) => {},
            Run::Done(mid, next) => {
                lemma_committed_adds_one(mid, list.last(), replies, next);
                match committed(mid, list.last(), replies, next) {
                    Run::Needs(_) => {},
                    Run::Done(now, _) => {
                        assert(now.items.take(h.items.len() as int) =~= h.items) by {
                            assert(now.items.take(mid.items.len() as int) == mid.items);
                            assert forall|i: int| 0 <= i < h.items.len() implies now.items[i]
                                == h.items[i] by {
                                assert(now.items.take(mid.items.len() as int)[i] == mid.items[i]);
                                assert(mid.items.take(h.items.len() as int)[i] == h.items[i]);
                            }
                        }
                        assert forall|i: int| 0 <= i < list.len() implies same_but_results(
                            #[trigger] list[i],
                            now.items[h.items.len() + i],
                        ) by {
                            if i < list.len() - 1 {
                                assert(list.drop_last()[i] == list[i]);
                                assert(now.items.take(mid.items.len() as int)[h.items.len() + i]
                                    == mid.items[h.items.len() + i]);
                            }
                        }
                    },
                }
            },
        }
    }
}

/// Recording is append-only and in order: what was there stays in front, the
/// staged input follows, and the new message comes last; nothing stays staged.
pub proof fn law_the_staged_input_lands_before_what_follows_it(
    h: HistoryView,
    m: MessageView,
    replies: Seq<Reply>,
)
    ensures
        recorded(h, m, replies) matches Run::Done(now, _) ==> {
            &&& now.items.len() == h.items.len() + h.staged.len() + 1
            &&& now.items.take(h.items.len() as int) == h.items
            &&& forall|i: int|
                0 <= i < h.staged.len() ==> same_but_results(
                    #[trigger] h.staged[i],
                    now.items[h.items.len() + i],
                )
            &&& same_but_results(m, now.items.last())
            &&& now.staged.len() == 0
        },
{
    let base = HistoryView { staged: Seq::empty(), ..h };
    lemma_all_committed_in_order(base, h.staged, replies, 0);
    match stage_committed(h, replies) {
        Run::Needs(_) => {},
        Run::Done(mid, next) => {
            lemma_committed_adds_one(mid, m, replies, next);
            match recorded(h, m, replies) {
                Run::Needs(_) => {},
                Run::Done(now, _) => {
                    assert(now.items.take(mid.items.len() as int) == mid.items);
                    assert(now.items.take(h.items.len() as int) =~= h.items) by {
                        assert forall|i: int| 0 <= i < h.items.len() implies now.items[i]
                            == h.items[i] by {
                            assert(now.items.take(mid.items.len() as int)[i] == mid.items[i]);
                            assert(mid.items.take(h.items.len() as int)[i] == h.items[i]);
                        }
                    }
                    assert forall|i: int| 0 <= i < h.staged.len() implies same_but_results(
                        #[trigger] h.staged[i],
                        now.items[h.items.len() + i],
                    ) by {
                        assert(now.items.take(mid.items.len() as int)[h.items.len() + i]
                            == mid.items[h.items.len() + i]);
                    }
                },
            }
        },
    }
}

/// Whether a message is that of a pending item: word for word, but for a machine
/// result over the cap, whose body is bounded.
pub open spec fn is_message_of(m: MessageView, p: PendingItem, cap: nat) -> bool {
    if inbox::is_machine_result(p.item) && inbox::body_of(p.item).len() > cap {
        exists|body: Seq<char>| m == #[trigger] inbox::framed(p, body)
    } else {
        m == inbox::framed(p, inbox::body_of(p.item))
    }
}

/// A message of one text is settled as it is.
proof fn lemma_text_settles(m: MessageView, n: MessageView)
    requires
        same_but_results(m, n),
        m.content.len() == 1,
        m.content[0] is Text,
    ensures
        n == m,
{
    assert(offload::same_but_text(m.content[0], n.content[0]));
    assert(n.content =~= m.content);
}

proof fn lemma_item_injected(h: HistoryView, p: PendingItem, replies: Seq<Reply>, at: nat)
    ensures
        item_injected(h, p, replies, at) matches Run::Done(now, _) ==> {
            &&& now.items.len() == h.items.len() + h.staged.len() + 1
            &&& now.items.take(h.items.len() as int) == h.items
            &&& is_message_of(now.items.last(), p, h.cap)
            &&& now.staged.len() == 0
            &&& now.cap == h.cap
        },
{
    match inbox::settled_body(p.item, h.cap, replies, at) {
        Run::Needs(_) => {},
        Run::Done(body, next) => {
            let base = HistoryView { staged: Seq::empty(), ..h };
            lemma_all_committed_in_order(base, h.staged, replies, next);
            lemma_commits_keep_cap(base, h.staged, replies, next);
            match all_committed(base, h.staged, replies, next) {
                Run::Needs(_) => {},
                Run::Done(mid, then_at) => {
                    let m = inbox::framed(p, body);
                    lemma_committed_adds_one(mid, m, replies, then_at);
                    match committed(mid, m, replies, then_at) {
                        Run::Needs(_) => {},
                        Run::Done(now, _) => {
                            lemma_text_settles(m, now.items.last());
                            assert(now.items.take(h.items.len() as int) =~= h.items) by {
                                assert forall|i: int| 0 <= i < h.items.len() implies now.items[i]
                                    == h.items[i] by {
                                    assert(now.items.take(mid.items.len() as int)[i]
                                        == mid.items[i]);
                                    assert(mid.items.take(h.items.len() as int)[i] == h.items[i]);
                                }
                            }
                        },
                    }
                },
            }
        },
    }
}

proof fn lemma_commits_keep_cap(
    h: HistoryView,
    list: Seq<MessageView>,
    replies: Seq<Reply>,
    at: nat,
)
    ensures
        all_committed(h, list, replies, at) matches Run::Done(now, _) ==> now.cap == h.cap,
    decreases list.len(),
{
    if list.len() > 0 {
        lemma_commits_keep_cap(h, list.drop_last(), replies, at);
    }
}

/// Pending items land in their order, after the conversation and the staged
/// input, one message each: what a person wrote word for word, what a machine
/// produced bounded by the cap.
pub proof fn law_pending_items_land_in_order(
    h: HistoryView,
    list: Seq<PendingItem>,
    replies: Seq<Reply>,
)
    requires
        list.len() > 0,
    ensures
        items_injected(h, list, replies) matches Run::Done(now, _) ==> {
            &&& now.items.len() == h.items.len() + h.staged.len() + list.len()
            &&& now.items.take(h.items.len() as int) == h.items
            &&& forall|k: int|
                0 <= k < list.len() ==> is_message_of(
                    #[trigger] now.items[h.items.len() + h.staged.len() + k],
                    list[k],
                    h.cap,
                )
            &&& now.staged.len() == 0
            &&& now.cap == h.cap
        },
    decreases list.len(),
{
    let front = list.drop_last();
    let base = (h.items.len() + h.staged.len()) as int;
    if front.len() > 0 {
        law_pending_items_land_in_order(h, front, replies);
    }
    match items_injected(h, front, replies) {
        Run::Needs(_) => {},
        Run::Done(mid, next) => {
            lemma_item_injected(mid, list.last(), replies, next);
            match item_injected(mid, list.last(), replies, next) {
                Run::Needs(_) => {},
                Run::Done(now, _) => {
                    assert(now.items.take(mid.items.len() as int) == mid.items);
                    assert(now.items.take(h.items.len() as int) =~= h.items) by {
                        assert forall|i: int| 0 <= i < h.items.len() implies now.items[i]
                            == h.items[i] by {
                            assert(now.items.take(mid.items.len() as int)[i] == mid.items[i]);
                            if front.len() > 0 {
                                assert(mid.items.take(h.items.len() as int)[i] == h.items[i]);
                            }
                        }
                    }
                    assert forall|k: int| 0 <= k < list.len() implies is_message_of(
                        #[trigger] now.items[base + k],
                        list[k],
                        h.cap,
                    ) by {
                        if k < front.len() {
                            assert(now.items.take(mid.items.len() as int)[base + k]
                                == mid.items[base + k]);
                            assert(front[k] == list[k]);
                        }
                    }
                },
            }
        },
    }
}

/// At a round boundary the conversation and the staged input come first, then
/// what arrived, in order, then the reminders, each as a message of its own. A
/// reminder within the cap is said word for word, a longer one is bounded, and
/// none of them passes for something that the user said.
pub proof fn law_reminders_come_last_at_a_boundary(
    h: HistoryView,
    list: Seq<PendingItem>,
    arrived: Seq<PendingItem>,
    reminders: Seq<Seq<char>>,
    replies: Seq<Reply>,
)
    requires
        inbox::is_boundary_list(list, arrived, reminders),
        list.len() > 0,
    ensures
        items_injected(h, list, replies) matches Run::Done(now, _) ==> {
            let base = (h.items.len() + h.staged.len()) as int;
            &&& now.items.len() == base + arrived.len() + reminders.len()
            &&& now.items.take(h.items.len() as int) == h.items
            &&& forall|k: int|
                0 <= k < arrived.len() ==> is_message_of(
                    #[trigger] now.items[base + k],
                    arrived[k],
                    h.cap,
                )
            &&& forall|k: int|
                0 <= k < reminders.len() ==> {
                    let m = #[trigger] now.items[base + arrived.len() + k];
                    &&& m.role is User && m.injected == Some(protocol::InjectedView::Harness)
                    &&& m.content.len() == 1 && m.content[0] is Text
                    &&& anchors::words_of(m) is None
                    &&& reminders[k].len() <= h.cap ==> m == protocol::text_message(
                        protocol::Role::User,
                        reminders[k],
                        Some(protocol::InjectedView::Harness),
                    )
                }
        },
{
    law_pending_items_land_in_order(h, list, replies);
    match items_injected(h, list, replies) {
        Run::Needs(_) => {},
        Run::Done(now, _) => {
            let base = (h.items.len() + h.staged.len()) as int;
            assert forall|k: int| 0 <= k < arrived.len() implies is_message_of(
                #[trigger] now.items[base + k],
                arrived[k],
                h.cap,
            ) by {
                assert(list.take(arrived.len() as int)[k] == list[k]);
            }
            assert forall|k: int| 0 <= k < reminders.len() implies {
                let m = #[trigger] now.items[base + arrived.len() + k];
                &&& m.role is User && m.injected == Some(protocol::InjectedView::Harness)
                &&& m.content.len() == 1 && m.content[0] is Text
                &&& anchors::words_of(m) is None
                &&& reminders[k].len() <= h.cap ==> m == protocol::text_message(
                    protocol::Role::User,
                    reminders[k],
                    Some(protocol::InjectedView::Harness),
                )
            } by {
                let p = list[arrived.len() + k];
                let words = inbox::body_of(p.item);
                assert(is_message_of(now.items[base + (arrived.len() + k)], p, h.cap));
                assert(p.head@ + words + p.tail@ =~= words);
            }
        },
    }
}

/// A message in memory whose results fit is recorded as it is, with nothing
/// asked of the disk.
pub proof fn law_small_messages_are_recorded_verbatim(
    h: HistoryView,
    m: MessageView,
    replies: Seq<Reply>,
)
    requires
        h.rollout is None,
        h.staged.len() == 0,
        forall|k: int|
            0 <= k < m.content.len() ==> (offload::result_text(#[trigger] m.content[k]) matches Some(
                t,
            ) ==> t.len() <= h.cap),
        offload::round_chars(m.content) <= offload::ROUND_OFFLOAD_CAP_CHARS,
    ensures
        recorded(h, m, replies) == Run::<HistoryView>::Done(
            HistoryView {
                items: h.items.push(m),
                memory_boundary: after(h.memory_boundary),
                ..h
            },
            0,
        ),
{
    offload::law_small_rounds_are_kept_verbatim(m.content, h.cap, replies, 0);
    assert(HistoryView { staged: Seq::empty(), ..h } =~= h);
    assert(MessageView { content: m.content, ..m } =~= m);
}

/// Compaction's rewrite leaves the staged input staged and ends a pause of the
/// automatic compaction.
pub proof fn law_a_rewrite_keeps_the_staged_input(
    h: HistoryView,
    items: Seq<MessageView>,
    replies: Seq<Reply>,
)
    ensures
        replaced(h, items, replies) matches Run::Done(now, _) ==> now.staged == h.staged
            && now.items == items && now.anchor is None && now.breaker.failures == 0
            && !breaker::paused(now.breaker) && now.breaker.turn == h.breaker.turn,
{
}

/// A message staged and taken back leaves the history as it was.
pub proof fn law_taking_back_undoes_staging(h: HistoryView, m: MessageView)
    requires
        h.staged.len() == 0,
    ensures
        ({
            let staged = HistoryView { staged: h.staged.push(m), ..h };
            HistoryView { staged: Seq::empty(), ..staged } == h
        }),
{
    assert(h.staged =~= Seq::<MessageView>::empty());
}

/// The planning window never exceeds the configured one, nor any size that the
/// provider has refused.
pub proof fn law_the_window_is_only_lowered(h: HistoryView, configured: u64, refused: u64)
    ensures
        window_of(h, configured) <= configured,
        window_of(
            HistoryView {
                ceiling: Some(
                    match h.ceiling {
                        Some(previous) => if previous < refused {
                            previous
                        } else {
                            refused
                        },
                        None => refused,
                    },
                ),
                ..h
            },
            configured,
        ) <= window_of(h, configured),
        window_of(
            HistoryView {
                ceiling: Some(
                    match h.ceiling {
                        Some(previous) => if previous < refused {
                            previous
                        } else {
                            refused
                        },
                        None => refused,
                    },
                ),
                ..h
            },
            configured,
        ) <= refused,
{
}

/// A route change leaves the conversation and the earlier timeline alone and
/// adds exactly the next revision.
pub proof fn law_revisions_advance_by_one(
    h: HistoryView,
    route: RouteView,
    source: ProviderRouteSource,
    continuity: ReasoningContinuity,
    replies: Seq<Reply>,
)
    ensures
        route_changed(h, route, source, continuity, replies) matches RouteRun::Done(now, receipt)
            ==> {
            &&& now.items == h.items
            &&& now.staged == h.staged
            &&& now.timeline == h.timeline.push(receipt)
            &&& receipt.route_revision == after(h.timeline.last().route_revision)
        },
{
}

/// Opening again on the route a session already stands on writes nothing, so
/// reopening twice does not stack revisions.
pub proof fn law_reopening_is_idempotent(
    h: HistoryView,
    opening: RouteView,
    origins: Seq<Origin>,
    replies: Seq<Reply>,
    again: Seq<Origin>,
    more: Seq<Reply>,
)
    ensures
        adopted(h, opening, origins, replies) matches AdoptRun::Done(now, route, _) ==> adopted(
            now,
            opening,
            again,
            more,
        ) == AdoptRun::Done(now, route, None),
{
}

/// A switch whose line does not reach the session file changes nothing.
pub proof fn law_a_failed_switch_changes_nothing(
    h: HistoryView,
    previous: RouteView,
    next: RouteView,
    origins: Seq<Origin>,
    replies: Seq<Reply>,
    now: HistoryView,
    result: Switching,
)
    requires
        switch_wrote(h, switched(h, previous, next, origins, replies), now, result),
        result is Failed,
    ensures
        now == h,
{
}

/// The staged input rides the request after the conversation without joining
/// it.
pub proof fn law_the_staged_input_rides_the_request(
    h: HistoryView,
    attempt: AttemptView,
    origins: Seq<Origin>,
    staged_origins: Seq<Origin>,
)
    requires
        h.timeline.len() > 0,
        request_view::on_active_route(h.timeline, attempt),
        request_view::origins_fit(origins, h.items.len(), h.timeline.len()),
        request_view::origins_fit(staged_origins, h.staged.len(), h.timeline.len()),
        forall|i: int|
            0 <= i < h.items.len() ==> !request_view::any_reasoning((#[trigger] h.items[i]).content),
        forall|i: int|
            0 <= i < h.staged.len() ==> !request_view::any_reasoning(
                (#[trigger] h.staged[i]).content,
            ),
    ensures
        request_of(h, attempt, origins, staged_origins) == Ok::<Seq<MessageView>, Seq<char>>(
            h.items + h.staged,
        ),
{
    request_view::law_replayable_history_goes_out_whole(h.items, h.timeline, attempt, origins);
    request_view::law_replayable_history_goes_out_whole(
        h.staged,
        h.timeline,
        attempt,
        staged_origins,
    );
    if h.staged.len() == 0 {
        assert(h.items + h.staged =~= h.items);
    }
}

// ---------------------------------------------------------------------------
// What each record comes to
// ---------------------------------------------------------------------------

/// Without a session file nothing is asked of anyone. With one, the line is asked to
/// be written, and nothing is done before the reply is there; a line that was written
/// moves the file on, and one that was not ends the file's use: the session goes on
/// in memory.
pub proof fn law_a_line_is_written_or_the_file_is_left(
    rollout: Option<CursorView>,
    line: LineView,
    replies: Seq<Reply>,
    at: nat,
)
    ensures
        rollout is None ==> persisted(rollout, line, replies, at) == Run::<
            Option<CursorView>,
        >::Done(None, at),
        rollout is Some && at >= replies.len() ==> persisted(rollout, line, replies, at) == Run::<
            Option<CursorView>,
        >::Needs(RequestView::Append(line)),
        rollout matches Some(cursor) ==> (at < replies.len() ==> (replies[at as int] matches
            Reply::Appended { next_boundary, last_id, .. } ==> persisted(
            rollout,
            line,
            replies,
            at,
        ) == Run::<Option<CursorView>>::Done(
            Some(
                CursorView { path: cursor.path, next_boundary, last_id: protocol::opt(last_id) },
            ),
            at + 1,
        ))),
        rollout is Some && at < replies.len() && replies[at as int] is AppendFailed ==> persisted(
            rollout,
            line,
            replies,
            at,
        ) == Run::<Option<CursorView>>::Done(None, at + 1),
{
}

/// What a history keeps while it records: its limits, usage, routes, window and
/// breaker.
pub open spec fn keeps_its_accounts(h: HistoryView, now: HistoryView) -> bool {
    &&& now.cap == h.cap
    &&& now.anchor == h.anchor
    &&& now.usage == h.usage
    &&& now.timeline == h.timeline
    &&& now.ceiling == h.ceiling
    &&& now.breaker == h.breaker
}

proof fn lemma_committing_keeps_accounts(
    h: HistoryView,
    list: Seq<MessageView>,
    replies: Seq<Reply>,
    at: nat,
)
    ensures
        all_committed(h, list, replies, at) matches Run::Done(now, _) ==> keeps_its_accounts(h, now),
    decreases list.len(),
{
    if list.len() > 0 {
        lemma_committing_keeps_accounts(h, list.drop_last(), replies, at);
    }
}

/// Recording a message, an answer or the end of a turn touches the conversation and
/// the file, and nothing else.
pub proof fn law_recording_keeps_the_accounts(
    h: HistoryView,
    m: MessageView,
    content: Seq<BlockView>,
    attempt: AttemptView,
    terminal: TurnTerminalView,
    replies: Seq<Reply>,
)
    ensures
        recorded(h, m, replies) matches Run::Done(now, _) ==> keeps_its_accounts(h, now),
        assistant_recorded(h, content, attempt, replies) matches Run::Done(now, _)
            ==> keeps_its_accounts(h, now),
        terminal_recorded(h, terminal, replies) matches Run::Done(now, _) ==> keeps_its_accounts(
            h,
            now,
        ),
{
    lemma_committing_keeps_accounts(
        HistoryView { staged: Seq::empty(), ..h },
        h.staged,
        replies,
        0,
    );
}

/// An answer is recorded as the model gave it, with the route that it came from and
/// the place in the session where it stands; it is never cut.
pub proof fn law_an_answer_is_recorded_with_its_origin(
    h: HistoryView,
    content: Seq<BlockView>,
    attempt: AttemptView,
    replies: Seq<Reply>,
)
    requires
        h.staged.len() == 0,
    ensures
        ({
            let answer = MessageView {
                role: protocol::Role::Assistant,
                content,
                provenance: Some(
                    protocol::ProvenanceView {
                        route_revision: attempt.route_revision,
                        route_boundary: match h.rollout {
                            Some(cursor) => cursor.next_boundary,
                            None => h.memory_boundary,
                        },
                        provider_id: attempt.provider_id,
                        api_family: attempt.api_family,
                        endpoint_fingerprint: attempt.endpoint_fingerprint,
                        model: attempt.model,
                    },
                ),
                injected: None,
            };
            &&& assistant_recorded(h, content, attempt, replies) matches Run::Done(now, _)
                ==> now.items == h.items.push(answer)
            &&& h.rollout is None ==> assistant_recorded(h, content, attempt, replies) is Done
            &&& h.rollout is Some && replies.len() == 0 ==> assistant_recorded(
                h,
                content,
                attempt,
                replies,
            ) == Run::<HistoryView>::Needs(RequestView::Append(LineView::Message(answer)))
        }),
{
    assert(h.staged =~= Seq::<MessageView>::empty());
    assert(HistoryView { staged: Seq::empty(), ..h } =~= h);
}

/// Every message takes a place of its own: in memory the places follow each other.
pub proof fn law_each_message_has_its_place(h: HistoryView, m: MessageView, replies: Seq<Reply>)
    requires
        h.rollout is None,
        h.memory_boundary < u64::MAX,
    ensures
        appended(h, m, replies, 0) == Run::<HistoryView>::Done(
            HistoryView {
                items: h.items.push(m),
                memory_boundary: (h.memory_boundary + 1) as u64,
                ..h
            },
            0,
        ),
{
}

/// The end of a turn is a line of its own and adds nothing to the conversation.
pub proof fn law_the_end_of_a_turn_adds_no_message(
    h: HistoryView,
    terminal: TurnTerminalView,
    replies: Seq<Reply>,
)
    requires
        h.staged.len() == 0,
    ensures
        terminal_recorded(h, terminal, replies) matches Run::Done(now, _) ==> now.items == h.items,
        h.rollout is Some && replies.len() == 0 ==> terminal_recorded(h, terminal, replies)
            == Run::<HistoryView>::Needs(RequestView::Append(LineView::Terminal(terminal))),
        h.rollout is None ==> terminal_recorded(h, terminal, replies) == Run::<HistoryView>::Done(
            h,
            0,
        ),
{
    assert(h.staged =~= Seq::<MessageView>::empty());
    assert(HistoryView { staged: Seq::empty(), ..h } =~= h);
}

/// Usage is put behind what was used before, and written down; nothing else changes.
pub proof fn law_usage_is_put_down(
    h: HistoryView,
    record: UsageRecordView,
    replies: Seq<Reply>,
)
    ensures
        usage_recorded(h, record, replies) matches Run::Done(now, _) ==> now.usage == h.usage.push(
            record,
        ) && now == (HistoryView { usage: now.usage, rollout: now.rollout, ..h }),
        h.rollout is Some && replies.len() == 0 ==> usage_recorded(h, record, replies) == Run::<
            HistoryView,
        >::Needs(RequestView::Append(LineView::Usage(record))),
        h.rollout is None ==> usage_recorded(h, record, replies) is Done,
{
}

/// A rewrite puts the new conversation in place of the old one and writes it down
/// whole; usage, routes, window and place stay.
pub proof fn law_a_rewrite_is_written_down_whole(
    h: HistoryView,
    items: Seq<MessageView>,
    replies: Seq<Reply>,
)
    ensures
        replaced(h, items, replies) matches Run::Done(now, _) ==> {
            &&& now.items == items
            &&& now.anchor is None
            &&& now.usage == h.usage
            &&& now.timeline == h.timeline
            &&& now.ceiling == h.ceiling
            &&& now.cap == h.cap
            &&& now.staged == h.staged
            &&& now.memory_boundary == h.memory_boundary
        },
        h.rollout is Some && replies.len() == 0 ==> replaced(h, items, replies) == Run::<
            HistoryView,
        >::Needs(RequestView::Append(LineView::Compacted(items))),
        h.rollout is None ==> replaced(h, items, replies) is Done,
{
}

/// The window is the smaller of the configured one and the smallest that the provider
/// has refused.
pub proof fn law_the_window_is_the_smaller(h: HistoryView, configured: u64)
    ensures
        h.ceiling is None ==> window_of(h, configured) == configured,
        h.ceiling matches Some(seen) ==> {
            &&& window_of(h, configured) <= seen
            &&& window_of(h, configured) <= configured
            &&& window_of(h, configured) == seen || window_of(h, configured) == configured
        },
{
}

/// What a conversation takes is what the provider counted up to the last answer, and
/// the estimates of what came after; before any count, it is all estimated.
pub proof fn law_counted_then_estimated(h: HistoryView, sizes: Seq<u64>, size: u64)
    requires
        sizes.len() == h.items.len(),
    ensures
        h.anchor is None ==> context_tokens(h, sizes) == sum_from(sizes, 0),
        h.anchor matches Some((n, t)) ==> (n == h.items.len() ==> context_tokens(h, sizes) == t),
        h.anchor matches Some((n, t)) ==> (n < h.items.len() ==> context_tokens(h, sizes) == t
            + sizes[n as int] + sum_from(sizes, n as int + 1)),
        sum_from(sizes.push(size), 0) == sum_from(sizes, 0) + size,
        sum_from(Seq::<u64>::empty(), 0) == 0,
{
    lemma_sum_push(sizes, size, 0);
}

proof fn lemma_sum_push(sizes: Seq<u64>, size: u64, i: int)
    requires
        0 <= i <= sizes.len(),
    ensures
        sum_from(sizes.push(size), i) == sum_from(sizes, i) + size,
    decreases sizes.len() - i,
{
    let all = sizes.push(size);
    if i == sizes.len() {
        assert(all[i] == size);
        assert(sum_from(all, i + 1) == 0);
    } else {
        lemma_sum_push(sizes, size, i + 1);
        assert(all[i] == sizes[i]);
    }
}

/// The first route of a session is put down as such; a session that has a route is
/// opened on that route only, by revision and place, and nothing is put down again.
pub proof fn law_a_session_opens_once(h: HistoryView, route: RouteView, replies: Seq<Reply>)
    ensures
        h.timeline.len() > 0 ==> {
            let last = h.timeline[h.timeline.len() - 1];
            if last.route_revision == route.revision && last.provider_id == route.provider_id
                && last.api_family == route.api_family && last.endpoint_fingerprint
                == route.endpoint_fingerprint && last.model == route.model {
                opened(h, route, replies) == RouteRun::Done(h, last)
            } else {
                opened(h, route, replies) is Failed
            }
        },
        h.timeline.len() == 0 && h.rollout is None ==> (opened(h, route, replies) matches
            RouteRun::Done(now, receipt) && now == (HistoryView { timeline: seq![receipt], ..h })
            && receipt.source == ProviderRouteSource::Initial && receipt.continuity
            == ReasoningContinuity::Preserved && receipt.route_boundary == 0
            && receipt.route_revision == route.revision && same_identity(receipt, route)
            && receipt.effort == route.effort),
        h.timeline.len() == 0 && h.rollout is Some && replies.len() == 0 ==> opened(
            h,
            route,
            replies,
        ) == RouteRun::Needs(RequestView::Append(LineView::InitialRoute(route))),
{
    if h.timeline.len() > 0 {
        assert(h.timeline.last() == h.timeline[h.timeline.len() - 1]);
    } else {
        assert(h.timeline =~= Seq::<ReceiptView>::empty());
        let receipt = routes::receipt_of(
            route,
            0,
            ProviderRouteSource::Initial,
            ReasoningContinuity::Preserved,
        );
        assert(h.timeline.push(receipt) =~= seq![receipt]);
    }
}

/// A route change is put down as it was asked for, at the place where it happens; one
/// that does not take the next revision is refused, and so is one whose line could not
/// be written.
pub proof fn law_a_route_change_is_put_down(
    h: HistoryView,
    route: RouteView,
    source: ProviderRouteSource,
    continuity: ReasoningContinuity,
    replies: Seq<Reply>,
)
    ensures
        h.timeline.len() == 0 ==> route_changed(h, route, source, continuity, replies) is Failed,
        h.timeline.len() > 0 && h.timeline.last().route_revision < u64::MAX && route.revision
            != h.timeline.last().route_revision + 1 ==> route_changed(
            h,
            route,
            source,
            continuity,
            replies,
        ) is Failed,
        h.timeline.len() > 0 && h.timeline.last().route_revision < u64::MAX && route.revision
            == h.timeline.last().route_revision + 1 ==> {
            let run = route_changed(h, route, source, continuity, replies);
            if h.rollout is None {
                &&& run matches RouteRun::Done(now, receipt)
                &&& receipt == routes::receipt_of(route, h.memory_boundary, source, continuity)
                &&& now.timeline == h.timeline.push(receipt)
                &&& h.memory_boundary < u64::MAX ==> now.memory_boundary == h.memory_boundary + 1
                &&& now.rollout is None
            } else if replies.len() == 0 {
                run == RouteRun::Needs(
                    RequestView::Append(LineView::RouteChanged { route, source, continuity }),
                )
            } else if replies[0] is AppendFailed {
                run == RouteRun::Failed(replies[0]->AppendFailed_error@)
            } else if replies[0] is Appended {
                &&& run matches RouteRun::Done(now, receipt)
                &&& receipt == routes::receipt_of(
                    route,
                    replies[0]->Appended_boundary,
                    source,
                    continuity,
                )
                &&& now.timeline == h.timeline.push(receipt)
                &&& now.rollout matches Some(cursor) && cursor.path == h.rollout->0.path
                    && cursor.next_boundary == replies[0]->Appended_next_boundary
                &&& now.memory_boundary == h.memory_boundary
            } else {
                run is Needs
            }
        },
{
}

/// Reasoning carries over to a route exactly where the whole conversation can go out
/// on it as it is.
pub proof fn law_continuity_is_the_whole_conversation(
    h: HistoryView,
    next: RouteView,
    source: ProviderRouteSource,
    origins: Seq<Origin>,
)
    ensures
        ({
            let timeline = h.timeline.push(
                routes::receipt_of(
                    next,
                    match h.rollout {
                        Some(cursor) => cursor.next_boundary,
                        None => h.memory_boundary,
                    },
                    source,
                    ReasoningContinuity::Preserved,
                ),
            );
            let view = request_view::request_messages(
                h.items,
                timeline,
                routes::attempt_of(next),
                origins,
            );
            &&& view is Err ==> continuity_on(h, next, source, origins) == Err::<
                ReasoningContinuity,
                Seq<char>,
            >(view->Err_0)
            &&& view is Ok && view->Ok_0 == h.items ==> continuity_on(h, next, source, origins)
                == Ok::<ReasoningContinuity, Seq<char>>(ReasoningContinuity::Preserved)
            &&& view is Ok && view->Ok_0 != h.items ==> continuity_on(h, next, source, origins)
                == Ok::<ReasoningContinuity, Seq<char>>(ReasoningContinuity::Filtered)
        }),
{
}

/// A session that is opened on the place it stands on goes on at its revision, with
/// the continuity it had; on another place it takes the next revision as reopened, and
/// says where it came from and went to.
pub proof fn law_a_session_is_reopened_elsewhere(
    h: HistoryView,
    opening: RouteView,
    origins: Seq<Origin>,
    replies: Seq<Reply>,
)
    requires
        h.timeline.len() > 0,
    ensures
        ({
            let last = h.timeline[h.timeline.len() - 1];
            let run = adopted(h, opening, origins, replies);
            let here = last.provider_id == opening.provider_id && last.api_family
                == opening.api_family && last.endpoint_fingerprint == opening.endpoint_fingerprint
                && last.model == opening.model;
            &&& here ==> run == AdoptRun::Done(
                h,
                RouteView {
                    revision: last.route_revision,
                    continuity: last.continuity,
                    ..opening
                },
                None,
            )
            &&& !here && last.route_revision == u64::MAX ==> run == AdoptRun::Failed(
                SwitchErrorView::RevisionExhausted,
            )
            &&& !here ==> (run matches AdoptRun::Done(now, route, reopened) ==> {
                &&& route == RouteView {
                    revision: (last.route_revision + 1) as u64,
                    continuity: route.continuity,
                    ..opening
                }
                &&& reopened matches Some(r) && r.from_provider == last.provider_id
                    && r.from_model == last.model && r.to_provider == opening.provider_id
                    && r.to_model == opening.model && r.continuity == route.continuity
                &&& now.timeline.len() == h.timeline.len() + 1
                &&& now.timeline[h.timeline.len() as int].source == ProviderRouteSource::Reopened
                &&& now.timeline[h.timeline.len() as int].continuity == route.continuity
                &&& now.timeline[h.timeline.len() as int].provider_id == opening.provider_id
                &&& now.items == h.items
                &&& now.staged == h.staged
            })
        }),
{
    assert(h.timeline.last() == h.timeline[h.timeline.len() - 1]);
}

/// A switch is put down as asked for by the user. To the place that the session
/// stands on, the continuity stays; to another, it is what the conversation allows,
/// and a conversation that cannot go there refuses the switch.
pub proof fn law_a_switch_is_put_down(
    h: HistoryView,
    previous: RouteView,
    next: RouteView,
    origins: Seq<Origin>,
    replies: Seq<Reply>,
)
    ensures
        ({
            let run = switched(h, previous, next, origins, replies);
            let here = previous.provider_id == next.provider_id && previous.api_family
                == next.api_family && previous.endpoint_fingerprint == next.endpoint_fingerprint
                && previous.model == next.model;
            let allowed = continuity_on(h, next, ProviderRouteSource::ExplicitSwitch, origins);
            &&& !here && allowed is Err ==> run == SwitchRun::Failed(
                SwitchErrorView::History(allowed->Err_0),
            )
            &&& run matches SwitchRun::Done(now, continuity) ==> {
                &&& here ==> continuity == previous.continuity
                &&& !here ==> allowed == Ok::<ReasoningContinuity, Seq<char>>(continuity)
                &&& now.items == h.items
                &&& now.staged == h.staged
                &&& now.timeline.len() == h.timeline.len() + 1
                &&& now.timeline.take(h.timeline.len() as int) == h.timeline
                &&& now.timeline.last().source == ProviderRouteSource::ExplicitSwitch
                &&& now.timeline.last().continuity == continuity
                &&& now.timeline.last().route_revision == next.revision
                &&& now.timeline.last().provider_id == next.provider_id
                &&& now.timeline.last().model == next.model
                &&& now.timeline.last().effort == next.effort
            }
        }),
{
    if let SwitchRun::Done(now, _) = switched(h, previous, next, origins, replies) {
        assert(now.timeline.take(h.timeline.len() as int) =~= h.timeline);
    }
}

/// The state of a running program is written down or the call fails; the conversation
/// is untouched.
pub proof fn law_the_runtime_is_written_down(
    h: HistoryView,
    runtime: Seq<char>,
    replies: Seq<Reply>,
)
    ensures
        h.rollout is None ==> runtime_appended(h, runtime, replies) is Failed,
        h.rollout is Some && replies.len() == 0 ==> runtime_appended(h, runtime, replies)
            == RuntimeRun::Needs(RequestView::Append(LineView::Runtime(runtime))),
        h.rollout is Some && replies.len() > 0 && replies[0] is AppendFailed ==> runtime_appended(
            h,
            runtime,
            replies,
        ) == RuntimeRun::Failed(replies[0]->AppendFailed_error@),
        runtime_appended(h, runtime, replies) matches RuntimeRun::Done(now) ==> now == (
        HistoryView { rollout: now.rollout, ..h }) && (now.rollout matches Some(cursor)
            && cursor.path == h.rollout->0.path && cursor.next_boundary
            == replies[0]->Appended_next_boundary),
{
}

/// A request carries the conversation first and the staged input behind it; where
/// either cannot go out, there is no request.
pub proof fn law_a_request_is_the_conversation_and_the_staged_input(
    h: HistoryView,
    attempt: AttemptView,
    origins: Seq<Origin>,
    staged_origins: Seq<Origin>,
)
    requires
        h.staged.len() > 0,
    ensures
        ({
            let first = request_view::request_messages(h.items, h.timeline, attempt, origins);
            let second = request_view::request_messages(
                h.staged,
                h.timeline,
                attempt,
                staged_origins,
            );
            let whole = request_of(h, attempt, origins, staged_origins);
            &&& whole is Ok <==> first is Ok && second is Ok
            &&& whole is Ok ==> whole->Ok_0 == first->Ok_0 + second->Ok_0
            &&& first is Err ==> whole == first
        }),
{
}

/// Nothing of a history changes before everything that it asked for is there, nor where
/// it failed; what is returned then is the request, or the reason.
pub proof fn law_nothing_changes_before_it_is_written(
    before: HistoryView,
    now: HistoryView,
    run: Run<HistoryView>,
    request: Option<Request>,
    route_run: RouteRun,
    route_result: RouteWrite,
    adopt_run: AdoptRun,
    adoption: Adoption,
    switch_run: SwitchRun,
    switching: Switching,
)
    ensures
        wrote(before, run, now, request) ==> {
            &&& request is Some <==> run is Needs
            &&& request matches Some(r) ==> now == before && r@ == run->Needs_0
            &&& request is None ==> now == run->Done_0
        },
        route_wrote(before, route_run, now, route_result) ==> {
            &&& route_result matches RouteWrite::Done(receipt) ==> route_run
                == RouteRun::Done(now, receipt@)
            &&& route_result matches RouteWrite::Needs(r) ==> now == before && route_run
                == RouteRun::Needs(r@)
            &&& route_result matches RouteWrite::Failed(e) ==> now == before && route_run
                == RouteRun::Failed(e@)
        },
        adopt_wrote(before, adopt_run, now, adoption) ==> {
            &&& adoption matches Adoption::Done(route, reopened) ==> adopt_run == AdoptRun::Done(
                now,
                route@,
                protocol::opt(reopened),
            )
            &&& adoption matches Adoption::Needs(r) ==> now == before && adopt_run
                == AdoptRun::Needs(r@)
            &&& adoption is Failed ==> now == before && adopt_run is Failed
        },
        switch_wrote(before, switch_run, now, switching) ==> {
            &&& switching matches Switching::Done(continuity) ==> switch_run == SwitchRun::Done(
                now,
                continuity,
            )
            &&& switching matches Switching::Needs(r) ==> now == before && switch_run
                == SwitchRun::Needs(r@)
            &&& switching is Failed ==> now == before && switch_run is Failed
        },
{
}

/// A result that is longer than the cap does not join the conversation whole: it is asked
/// to be saved before the message is recorded.
pub proof fn law_a_long_result_is_saved_before_it_is_recorded(
    h: HistoryView,
    m: MessageView,
    id: Seq<char>,
    t: Seq<char>,
    is_error: bool,
)
    requires
        h.staged.len() == 0,
        m.content == seq![
            BlockView::ToolResult {
                tool_use_id: id,
                content: protocol::ResultView::Text(t),
                is_error,
            },
        ],
        t.len() > h.cap,
    ensures
        recorded(h, m, Seq::empty()) == Run::<HistoryView>::Needs(RequestView::Save(t)),
{
    assert(h.staged =~= Seq::<MessageView>::empty());
    assert(HistoryView { staged: Seq::empty(), ..h } =~= h);
    assert(offload::result_text(m.content[0]) == Some(t));
    assert(offload::spill_blocks(m.content, 0, h.cap, Seq::empty(), 0) == Run::<
        Seq<BlockView>,
    >::Needs(RequestView::Save(t)));
}

/// What a machine came to, and a reminder, do not join the conversation whole where they
/// are longer than the cap: they are asked to be saved first. Anything shorter, and
/// whatever a person said, goes in at once where there is no file.
pub proof fn law_a_long_item_is_saved_before_it_goes_in(
    h: HistoryView,
    p: PendingItem,
)
    requires
        h.staged.len() == 0,
    ensures
        ({
            let list = seq![p];
            let run = items_injected(h, list, Seq::empty());
            let body = inbox::body_of(p.item);
            &&& inbox::is_machine_result(p.item) && body.len() > h.cap ==> run == Run::<
                HistoryView,
            >::Needs(RequestView::Save(body))
            &&& (!inbox::is_machine_result(p.item) || body.len() <= h.cap) && h.rollout is None
                ==> (run matches Run::Done(now, used) && used == 0 && now.items == h.items.push(
                inbox::framed(p, body),
            ))
        }),
{
    reveal_with_fuel(items_injected, 2);
    let list = seq![p];
    assert(list.drop_last() =~= Seq::<PendingItem>::empty());
    assert(list.last() == p);
    assert(h.staged =~= Seq::<MessageView>::empty());
    let base = HistoryView { staged: Seq::empty(), ..h };
    assert(base =~= h);
    let body = inbox::body_of(p.item);
    if (!inbox::is_machine_result(p.item) || body.len() <= h.cap) && h.rollout is None {
        let m = inbox::framed(p, body);
        assert(offload::result_text(m.content[0]) is None);
        offload::law_the_size_of_a_round(Seq::<BlockView>::empty(), m.content[0]);
        assert(m.content =~= Seq::<BlockView>::empty().push(m.content[0]));
        offload::law_small_rounds_are_kept_verbatim(m.content, h.cap, Seq::empty(), 0);
        assert(MessageView { content: m.content, ..m } =~= m);
    }
}

} // verus!

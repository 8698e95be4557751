//! What arrives for the agent while a turn runs.

use vstd::prelude::*;

use crate::event::ScheduledTask;
use crate::event::ScheduledTaskOrigin;
use crate::event::ScheduledTaskStatus;
use crate::event::TaskView;
use crate::offload;
use crate::offload::Reply;
use crate::offload::Run;
use crate::offload::SettlingText;
use crate::protocol;
use crate::protocol::Injected;
use crate::protocol::Message;
use crate::protocol::MessageView;
use crate::protocol::Role;
use crate::text;

verus! {

/// How a message the user typed while a turn ran is framed for the model.
pub const STEERING_PREFIX: &'static str = "[The user sent this while you were working]\n";

/// The user's own words inside a framed message.
pub open spec fn steering_words(framed: Seq<char>) -> Seq<char> {
    if text::starts_with(framed, STEERING_PREFIX@) {
        framed.skip(STEERING_PREFIX@.len() as int)
    } else {
        framed
    }
}

/// The user's own words inside a framed message; a text without the frame is
/// the words.
pub fn steering_body(framed: &str) -> (r: String)
    ensures
        r@ == steering_words(framed@),
{
    match text::strip_prefix(framed, STEERING_PREFIX) {
        Some(words) => words,
        None => framed.to_owned(),
    }
}

/// Something that waits for the next step boundary.
#[derive(Debug, PartialEq, Eq)]
pub enum InboxItem {
    /// What the user typed while a turn ran.
    Steer(String),
    /// What a detached agent came to.
    SubAgentResult { label: String, summary: String },
    /// What a detached program came to.
    ProgramResult { label: String, run_id: String, summary: String },
    /// A prompt whose time has come.
    ScheduledPrompt {
        id: String,
        origin: ScheduledTaskOrigin,
        scheduled_for_ms: u64,
        reason: Option<String>,
        missed: bool,
        prompt: String,
    },
    /// The scheduler could not go on.
    SchedulerFailure { summary: String },
    /// What the harness reminds the model of.
    Reminder(String),
    /// Any other notice.
    Notice(String),
}

/// An item with the words around its body, and why it is injected.
#[derive(Debug, PartialEq, Eq)]
pub struct PendingItem {
    pub item: InboxItem,
    pub head: String,
    pub tail: String,
    pub injected: Option<Injected>,
}

/// What an item says.
pub open spec fn body_of(item: InboxItem) -> Seq<char> {
    match item {
        InboxItem::Steer(words) => words@,
        InboxItem::SubAgentResult { summary, .. } => summary@,
        InboxItem::ProgramResult { summary, .. } => summary@,
        InboxItem::ScheduledPrompt { prompt, .. } => prompt@,
        InboxItem::SchedulerFailure { summary } => summary@,
        InboxItem::Reminder(words) => words@,
        InboxItem::Notice(words) => words@,
    }
}

/// Whether a machine produced the body, so that it may be large: a result, or a
/// reminder.
pub open spec fn is_machine_result(item: InboxItem) -> bool {
    item is SubAgentResult || item is ProgramResult || item is Reminder
}

/// The body as it enters the conversation: machine results are bounded, what a
/// person wrote stays whole.
pub open spec fn settled_body(item: InboxItem, cap: nat, replies: Seq<Reply>, at: nat) -> Run<
    Seq<char>,
> {
    if is_machine_result(item) {
        offload::spill_text(body_of(item), cap, replies, at)
    } else {
        Run::Done(body_of(item), at)
    }
}

/// The message of an item with that body.
pub open spec fn framed(p: PendingItem, body: Seq<char>) -> MessageView {
    protocol::text_message(
        Role::User,
        p.head@ + body + p.tail@,
        match p.injected {
            Some(kind) => Some(kind@),
            None => None,
        },
    )
}

/// What an item says.
fn item_body(item: &InboxItem) -> (r: &String)
    ensures
        r@ == body_of(*item),
{
    match item {
        InboxItem::Steer(words) => words,
        InboxItem::SubAgentResult { summary, .. } => summary,
        InboxItem::ProgramResult { summary, .. } => summary,
        InboxItem::ScheduledPrompt { prompt, .. } => prompt,
        InboxItem::SchedulerFailure { summary } => summary,
        InboxItem::Reminder(words) => words,
        InboxItem::Notice(words) => words,
    }
}

/// The body as it enters the conversation.
pub fn settle_body(item: &InboxItem, cap: usize, replies: &Vec<Reply>, at: usize) -> (r:
    SettlingText)
    requires
        at <= replies@.len(),
    ensures
        r@ == settled_body(*item, cap as nat, replies@, at as nat),
        r matches SettlingText::Done(_, next) ==> at <= next <= replies@.len(),
{
    let body = item_body(item).clone();
    let machine = match item {
        InboxItem::SubAgentResult { .. } => true,
        InboxItem::ProgramResult { .. } => true,
        InboxItem::Reminder(_) => true,
        _ => false,
    };
    if machine {
        offload::offload_text(body, cap, replies, at)
    } else {
        SettlingText::Done(body, at)
    }
}

/// The message of an item with that body.
pub fn frame(p: &PendingItem, body: &str) -> (r: Message)
    ensures
        r@ == framed(*p, body@),
{
    let mut words = p.head.clone();
    words.append(body);
    words.append(p.tail.as_str());
    match &p.injected {
        Some(kind) => Message::injected(kind.clone(), words),
        None => Message::user_text(words),
    }
}

// ---------------------------------------------------------------------------
// The round boundary
// ---------------------------------------------------------------------------

/// What the model is reminded of at a round boundary: its todo list, which only
/// the main agent has, then the files it read that have changed since.
pub open spec fn reminders(
    depth: u8,
    todos: Option<Seq<char>>,
    changed_reads: Option<Seq<char>>,
) -> Seq<Seq<char>> {
    (match todos {
        Some(words) if depth == 0 => seq![words],
        _ => Seq::empty(),
    }) + (match changed_reads {
        Some(words) => seq![words],
        None => Seq::empty(),
    })
}

/// Whether an item is a reminder in these words: a message of its own, from the
/// harness.
pub open spec fn is_reminder(p: PendingItem, words: Seq<char>) -> bool {
    &&& p.item matches InboxItem::Reminder(said) && said@ == words
    &&& p.head@.len() == 0
    &&& p.tail@.len() == 0
    &&& p.injected == Some(Injected::Harness)
}

/// Whether a list is what is delivered at a round boundary: what came to the
/// inbox, then what came to the mailbox, then the reminders.
pub open spec fn is_boundary_list(
    list: Seq<PendingItem>,
    arrived: Seq<PendingItem>,
    reminders: Seq<Seq<char>>,
) -> bool {
    &&& list.len() == arrived.len() + reminders.len()
    &&& list.take(arrived.len() as int) == arrived
    &&& forall|k: int|
        0 <= k < reminders.len() ==> is_reminder(
            #[trigger] list[arrived.len() + k],
            reminders[k],
        )
}

fn reminder(words: String) -> (r: PendingItem)
    ensures
        is_reminder(r, words@),
{
    let head = String::new();
    let tail = String::new();
    proof {
        assert(head@ =~= Seq::<char>::empty());
        assert(tail@ =~= Seq::<char>::empty());
    }
    PendingItem { item: InboxItem::Reminder(words), head, tail, injected: Some(Injected::Harness) }
}

/// What is delivered at a round boundary, in order.
pub fn boundary_list(
    inbox: Vec<PendingItem>,
    mailbox: Vec<PendingItem>,
    depth: u8,
    todos: Option<String>,
    changed_reads: Option<String>,
) -> (r: Vec<PendingItem>)
    ensures
        is_boundary_list(
            r@,
            inbox@ + mailbox@,
            reminders(depth, protocol::opt(todos), protocol::opt(changed_reads)),
        ),
{
    let ghost arrived = inbox@ + mailbox@;
    let mut list = inbox;
    let mut mailbox = mailbox;
    list.append(&mut mailbox);
    if depth == 0 {
        if let Some(words) = todos {
            list.push(reminder(words));
        }
    }
    if let Some(words) = changed_reads {
        list.push(reminder(words));
    }
    proof {
        assert(list@.take(arrived.len() as int) =~= arrived);
    }
    list
}

/// What front-ends are told of an item.
pub open spec fn task_event(item: InboxItem) -> Option<TaskView> {
    match item {
        InboxItem::ScheduledPrompt { id, origin, scheduled_for_ms, reason, missed, .. } => Some(
            TaskView {
                id: id@,
                origin,
                status: ScheduledTaskStatus::Fired,
                scheduled_for_ms: Some(scheduled_for_ms),
                reason: protocol::opt(reason),
                detail: if missed {
                    Some("missed while inactive; confirmation required"@)
                } else {
                    None
                },
            },
        ),
        InboxItem::SchedulerFailure { summary } => Some(
            TaskView {
                id: "scheduler"@,
                origin: ScheduledTaskOrigin::Cron,
                status: ScheduledTaskStatus::Failed,
                scheduled_for_ms: None,
                reason: None,
                detail: Some(summary@),
            },
        ),
        _ => None,
    }
}

/// What front-ends are told of an item: a scheduled prompt that fired, or a
/// scheduler that failed.
pub fn scheduled_event(item: &InboxItem) -> (r: Option<ScheduledTask>)
    ensures
        protocol::opt(r) == task_event(*item),
{
    match item {
        InboxItem::ScheduledPrompt { id, origin, scheduled_for_ms, reason, missed, .. } => {
            let detail = if *missed {
                Some("missed while inactive; confirmation required".to_owned())
            } else {
                None
            };
            Some(
                ScheduledTask {
                    id: id.clone(),
                    origin: *origin,
                    status: ScheduledTaskStatus::Fired,
                    scheduled_for_ms: Some(*scheduled_for_ms),
                    reason: match reason {
                        Some(why) => Some(why.clone()),
                        None => None,
                    },
                    detail,
                },
            )
        },
        InboxItem::SchedulerFailure { summary } => Some(
            ScheduledTask {
                id: "scheduler".to_owned(),
                origin: ScheduledTaskOrigin::Cron,
                status: ScheduledTaskStatus::Failed,
                scheduled_for_ms: None,
                reason: None,
                detail: Some(summary.clone()),
            },
        ),
        _ => None,
    }
}

// ---------------------------------------------------------------------------
// Laws
// ---------------------------------------------------------------------------

/// What the user typed comes out of its frame as it went in, and a text without the
/// frame is left alone.
pub proof fn law_the_users_words_come_out_of_the_frame(words: Seq<char>)
    ensures
        steering_words("[The user sent this while you were working]\n"@ + words) == words,
        !text::starts_with(words, "[The user sent this while you were working]\n"@)
            ==> steering_words(words) == words,
{
    let framed = STEERING_PREFIX@ + words;
    assert(framed.take(STEERING_PREFIX@.len() as int) =~= STEERING_PREFIX@);
    assert(framed.skip(STEERING_PREFIX@.len() as int) =~= words);
}

/// What a person said, a prompt that was scheduled and a notice enter the
/// conversation word for word, whatever their size, and nothing is asked of anyone
/// for it.
pub proof fn law_what_was_said_is_never_cut(
    item: InboxItem,
    cap: nat,
    replies: Seq<Reply>,
    at: nat,
)
    ensures
        settled_body(item, cap, replies, at) == (match item {
            InboxItem::Steer(words) => Run::Done(words@, at),
            InboxItem::ScheduledPrompt { prompt, .. } => Run::Done(prompt@, at),
            InboxItem::SchedulerFailure { summary } => Run::Done(summary@, at),
            InboxItem::Notice(words) => Run::Done(words@, at),
            InboxItem::SubAgentResult { summary, .. } => offload::spill_text(
                summary@,
                cap,
                replies,
                at,
            ),
            InboxItem::ProgramResult { summary, .. } => offload::spill_text(
                summary@,
                cap,
                replies,
                at,
            ),
            InboxItem::Reminder(words) => offload::spill_text(words@, cap, replies, at),
        }),
{
}

/// An item goes in as one text of the user's side, its body between its head and its
/// tail, marked with why it is there.
pub proof fn law_an_item_is_one_text(p: PendingItem, body: Seq<char>)
    ensures
        framed(p, body) == (MessageView {
            role: Role::User,
            content: seq![protocol::BlockView::Text { text: p.head@ + body + p.tail@ }],
            provenance: None,
            injected: match p.injected {
                Some(kind) => Some(kind@),
                None => None,
            },
        }),
{
}

/// At a boundary everything that arrived goes in first, in the order in which it
/// arrived; then the list of things to do, for the main agent alone, and then the
/// files that changed.
pub proof fn law_reminders_follow_what_arrived(
    list: Seq<PendingItem>,
    arrived: Seq<PendingItem>,
    depth: u8,
    todos: Option<Seq<char>>,
    changed: Option<Seq<char>>,
)
    requires
        is_boundary_list(list, arrived, reminders(depth, todos, changed)),
    ensures
        ({
            let n = arrived.len() as int;
            let about_todos: int = if todos is Some && depth == 0 {
                1
            } else {
                0
            };
            let about_files: int = if changed is Some {
                1
            } else {
                0
            };
            &&& list.len() == n + about_todos + about_files
            &&& forall|k: int| 0 <= k < n ==> #[trigger] list[k] == arrived[k]
            &&& about_todos == 1 ==> list[n].item is Reminder && list[n].item->Reminder_0@
                == todos->0
            &&& about_files == 1 ==> list[n + about_todos].item is Reminder
                && list[n + about_todos].item->Reminder_0@ == changed->0
            &&& forall|k: int|
                n <= k < list.len() ==> (#[trigger] list[k]).injected == Some(Injected::Harness)
                    && list[k].head@.len() == 0 && list[k].tail@.len() == 0
        }),
{
    let said = reminders(depth, todos, changed);
    let n = arrived.len() as int;
    assert forall|k: int| 0 <= k < n implies #[trigger] list[k] == arrived[k] by {
        assert(list.take(n)[k] == list[k]);
    }
    assert forall|k: int| n <= k < list.len() implies (#[trigger] list[k]).injected == Some(
        Injected::Harness,
    ) && list[k].head@.len() == 0 && list[k].tail@.len() == 0 by {
        assert(is_reminder(list[n + (k - n)], said[k - n]));
    }
    if said.len() > 0 {
        assert(is_reminder(list[n + 0], said[0]));
    }
    if said.len() > 1 {
        assert(is_reminder(list[n + 1], said[1]));
    }
}

/// A prompt whose time has come is announced as fired, and a scheduler that cannot go
/// on as failed; nothing else is announced.
pub proof fn law_what_is_announced(item: InboxItem)
    ensures
        match item {
            InboxItem::ScheduledPrompt { id, origin, scheduled_for_ms, reason, missed, .. } => {
                &&& task_event(item) matches Some(task)
                &&& task.id == id@
                &&& task.origin == origin
                &&& task.status == ScheduledTaskStatus::Fired
                &&& task.scheduled_for_ms == Some(scheduled_for_ms)
                &&& task.reason == protocol::opt(reason)
                &&& task.detail == if missed {
                    Some("missed while inactive; confirmation required"@)
                } else {
                    None
                }
            },
            InboxItem::SchedulerFailure { summary } => {
                &&& task_event(item) matches Some(task)
                &&& task.id == "scheduler"@
                &&& task.origin == ScheduledTaskOrigin::Cron
                &&& task.status == ScheduledTaskStatus::Failed
                &&& task.scheduled_for_ms is None
                &&& task.reason is None
                &&& task.detail == Some(summary@)
            },
            _ => task_event(item) is None,
        },
{
}

} // verus!

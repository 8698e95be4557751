//! What the core tells its front-ends.

use vstd::prelude::*;

verus! {

/// What started a scheduled task.
#[derive(Clone, Copy, Debug, PartialEq, Eq, Structural)]
pub enum ScheduledTaskOrigin {
    Cron,
    LoopWakeup,
}

/// How a scheduled task stands.
#[derive(Clone, Copy, Debug, PartialEq, Eq, Structural)]
pub enum ScheduledTaskStatus {
    Fired,
    Failed,
}

/// A scheduled task, as front-ends see it.
#[derive(Debug, PartialEq, Eq)]
pub struct ScheduledTask {
    pub id: String,
    pub origin: ScheduledTaskOrigin,
    pub status: ScheduledTaskStatus,
    pub scheduled_for_ms: Option<u64>,
    pub reason: Option<String>,
    pub detail: Option<String>,
}

#[verifier::ext_equal]
pub struct TaskView {
    pub id: Seq<char>,
    pub origin: ScheduledTaskOrigin,
    pub status: ScheduledTaskStatus,
    pub scheduled_for_ms: Option<u64>,
    pub reason: Option<Seq<char>>,
    pub detail: Option<Seq<char>>,
}

impl View for ScheduledTask {
    type V = TaskView;

    open spec fn view(&self) -> TaskView {
        TaskView {
            id: self.id@,
            origin: self.origin,
            status: self.status,
            scheduled_for_ms: self.scheduled_for_ms,
            reason: crate::protocol::opt(self.reason),
            detail: crate::protocol::opt(self.detail),
        }
    }
}

/// One thing that happened.
#[derive(Debug, PartialEq, Eq)]
pub enum Event {
    Note(String),
    ScheduledTaskUpdated(ScheduledTask),
}

/// The one seam for output: each front-end projects the events its own way.
pub trait Ui: Send + Sync {
    fn emit(&self, ev: &Event);
}

} // verus!

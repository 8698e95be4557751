//! When the automatic compaction pauses: a summary request that keeps failing is
//! paid for a bounded number of times, then not at all for some turns.

use vstd::prelude::*;

verus! {

/// How many failures in a row pause the automatic compaction.
pub const COMPACTION_FAILURE_LIMIT: u32 = 2;

/// For how many turns it pauses.
pub const COMPACTION_PAUSE_TURNS: u64 = 3;

/// Told to the user when a pause begins.
pub const COMPACTION_PAUSED_NOTE: &'static str =
    "automatic compaction paused for 3 turns after 2 consecutive failures; /compact still works";

/// Counts the turns of a conversation and the automatic compactions that failed
/// in a row.
#[derive(Clone, Copy, Debug, PartialEq, Eq)]
pub struct CompactionBreaker {
    turn: u64,
    failures: u32,
    /// The last turn of a pause.
    paused_until: Option<u64>,
}

#[verifier::ext_equal]
pub struct BreakerView {
    pub turn: nat,
    pub failures: nat,
    pub paused_until: Option<nat>,
}

impl View for CompactionBreaker {
    type V = BreakerView;

    closed spec fn view(&self) -> BreakerView {
        BreakerView {
            turn: self.turn as nat,
            failures: self.failures as nat,
            paused_until: match self.paused_until {
                Some(t) => Some(t as nat),
                None => None,
            },
        }
    }
}

/// A conversation without a turn.
pub open spec fn fresh() -> BreakerView {
    BreakerView { turn: 0, failures: 0, paused_until: None }
}

/// Whether the automatic compaction pauses in this turn.
pub open spec fn paused(b: BreakerView) -> bool {
    b.paused_until matches Some(last) && b.turn <= last
}

/// One more turn: a pause that is over is forgotten.
pub open spec fn begun(b: BreakerView) -> BreakerView {
    let next = BreakerView { turn: b.turn + 1, ..b };
    if paused(next) {
        next
    } else {
        BreakerView { paused_until: None, ..next }
    }
}

/// Whether one more failure begins a pause.
pub open spec fn trips(b: BreakerView) -> bool {
    b.failures + 1 >= COMPACTION_FAILURE_LIMIT
}

/// One more failure: the last that is tolerated begins a pause, and the count
/// starts over.
pub open spec fn failed(b: BreakerView) -> BreakerView {
    if trips(b) {
        BreakerView { failures: 0, paused_until: Some(b.turn + COMPACTION_PAUSE_TURNS as nat), ..b }
    } else {
        BreakerView { failures: b.failures + 1, ..b }
    }
}

/// A compaction that was applied, whatever set it off, closes the breaker.
pub open spec fn closed_by_success(b: BreakerView) -> BreakerView {
    BreakerView { failures: 0, paused_until: None, ..b }
}

impl Default for CompactionBreaker {
    fn default() -> (r: Self)
        ensures
            r@ == fresh(),
    {
        CompactionBreaker { turn: 0, failures: 0, paused_until: None }
    }
}

impl CompactionBreaker {
    /// A breaker in a given state.
    pub fn at(turn: u64, failures: u32, paused_until: Option<u64>) -> (r: Self)
        ensures
            r@ == (BreakerView {
                turn: turn as nat,
                failures: failures as nat,
                paused_until: match paused_until {
                    Some(t) => Some(t as nat),
                    None => None,
                },
            }),
    {
        CompactionBreaker { turn, failures, paused_until }
    }

    /// The number of the turn.
    pub fn turn(&self) -> (r: u64)
        ensures
            r == self@.turn,
    {
        self.turn
    }

    /// Whether the automatic compaction pauses in this turn.
    pub fn is_paused(&self) -> (r: bool)
        ensures
            r == paused(self@),
    {
        match self.paused_until {
            Some(last) => self.turn <= last,
            None => false,
        }
    }

    /// Whether one more failure begins a pause.
    pub fn next_failure_pauses(&self) -> (r: bool)
        ensures
            r == trips(self@),
    {
        self.failures >= COMPACTION_FAILURE_LIMIT - 1
    }

    /// Counts a turn.
    pub fn begin_turn(&mut self)
        requires
            old(self)@.turn < u64::MAX,
        ensures
            final(self)@ == begun(old(self)@),
    {
        self.turn = self.turn + 1;
        if !self.is_paused() {
            self.paused_until = None;
        }
    }

    /// Counts a failure.
    pub fn record_failure(&mut self)
        requires
            old(self)@.turn + COMPACTION_PAUSE_TURNS <= u64::MAX,
        ensures
            final(self)@ == failed(old(self)@),
    {
        if self.next_failure_pauses() {
            self.failures = 0;
            self.paused_until = Some(self.turn + COMPACTION_PAUSE_TURNS);
        } else {
            self.failures = self.failures + 1;
        }
    }

    /// Closes the breaker: a compaction was applied.
    pub fn record_success(&mut self)
        ensures
            final(self)@ == closed_by_success(old(self)@),
    {
        self.failures = 0;
        self.paused_until = None;
    }
}

// ---------------------------------------------------------------------------
// Laws
// ---------------------------------------------------------------------------

/// The state some turns later, with nothing recorded in them.
pub open spec fn turns_later(b: BreakerView, n: nat) -> BreakerView
    decreases n,
{
    if n == 0 {
        b
    } else {
        begun(turns_later(b, (n - 1) as nat))
    }
}

proof fn lemma_turns_later(b: BreakerView, n: nat)
    requires
        b.paused_until matches Some(last) ==> b.turn <= last,
    ensures
        turns_later(b, n).turn == b.turn + n,
        turns_later(b, n).failures == b.failures,
        turns_later(b, n).paused_until == (if b.paused_until matches Some(last) && b.turn + n <= last {
            b.paused_until
        } else {
            None
        }),
    decreases n,
{
    if n > 0 {
        lemma_turns_later(b, (n - 1) as nat);
    }
}

/// A pause covers the rest of its turn and the turns that it is announced for,
/// and no turn after them.
pub proof fn law_a_pause_lasts_its_turns(b: BreakerView, n: nat)
    requires
        trips(b),
    ensures
        paused(turns_later(failed(b), n)) <==> n <= COMPACTION_PAUSE_TURNS,
        turns_later(failed(b), n).failures == 0,
{
    lemma_turns_later(failed(b), n);
}

/// Failures pause only in a row: after a success it takes the full count again.
pub proof fn law_a_success_starts_the_count_over(b: BreakerView)
    ensures
        !paused(closed_by_success(b)),
        !trips(closed_by_success(b)),
        !paused(failed(closed_by_success(b))),
        paused(failed(failed(closed_by_success(b)))),
{
}

/// Two failures in a row pause the automatic compaction for the rest of the turn
/// and for three turns more; one alone is only counted.
pub proof fn law_two_failures_pause_for_three_turns(b: BreakerView, n: nat)
    requires
        b.failures == 0,
        b.paused_until is None,
    ensures
        failed(b) == (BreakerView { failures: 1, ..b }),
        !paused(turns_later(failed(b), n)),
        paused(turns_later(failed(failed(b)), n)) <==> n <= 3,
        failed(failed(b)).failures == 0,
        failed(failed(b)).turn == b.turn,
{
    lemma_turns_later(failed(b), n);
    lemma_turns_later(failed(failed(b)), n);
}

/// A turn that begins is counted, keeps the failures that were counted, and ends a
/// pause exactly where its last turn is behind it.
pub proof fn law_a_turn_is_counted(b: BreakerView)
    ensures
        begun(b).turn == b.turn + 1,
        begun(b).failures == b.failures,
        begun(b).paused_until == (if b.paused_until is Some && b.turn + 1 <= b.paused_until->0 {
            b.paused_until
        } else {
            None
        }),
        paused(b) <==> b.paused_until is Some && b.turn <= b.paused_until->0,
{
}

/// A compaction that is applied ends a pause and forgets the failures, in the same
/// turn.
pub proof fn law_a_success_ends_a_pause(b: BreakerView)
    ensures
        closed_by_success(b) == (BreakerView { turn: b.turn, failures: 0, paused_until: None }),
{
}

} // verus!

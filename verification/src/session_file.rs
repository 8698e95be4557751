//! What the session file holds of a conversation: its lines, read from the first
//! to the last, give the conversation back.

use vstd::prelude::*;

use crate::agent::TurnTerminalView;
use crate::history;
use crate::history::HistoryView;
use crate::inbox;
use crate::inbox::PendingItem;
use crate::offload;
use crate::offload::LineView;
use crate::offload::Reply;
use crate::offload::RequestView;
use crate::offload::Run;
use crate::protocol;
use crate::protocol::BlockView;
use crate::protocol::MessageView;
use crate::routes;
use crate::routes::AttemptView;
use crate::usage::UsageRecordView;

verus! {

// ---------------------------------------------------------------------------
// Reading a session file
// ---------------------------------------------------------------------------

/// The conversation after one more line: a message is added, a compaction stands
/// for everything before it, any other line leaves the conversation alone.
pub open spec fn after_line(items: Seq<MessageView>, line: LineView) -> Seq<MessageView> {
    match line {
        LineView::Message(m) => items.push(m),
        LineView::Compacted(list) => list,
        _ => items,
    }
}

/// The conversation that the lines of a file give back.
pub open spec fn replayed(lines: Seq<LineView>) -> Seq<MessageView>
    decreases lines.len(),
{
    if lines.len() == 0 {
        Seq::empty()
    } else {
        after_line(replayed(lines.drop_last()), lines.last())
    }
}

// ---------------------------------------------------------------------------
// Writing one
// ---------------------------------------------------------------------------

/// The line that request number `k` of a write puts into the file, where it is an
/// append that succeeds.
pub open spec fn line_at(
    write: spec_fn(Seq<Reply>) -> Run<HistoryView>,
    replies: Seq<Reply>,
    k: nat,
) -> Seq<LineView> {
    match write(replies.take(k as int)) {
        Run::Needs(RequestView::Append(line)) => if replies[k as int] is Appended {
            seq![line]
        } else {
            Seq::empty()
        },
        _ => Seq::empty(),
    }
}

/// The lines that a write puts into the file from one request to another.
pub open spec fn lines_between(
    write: spec_fn(Seq<Reply>) -> Run<HistoryView>,
    replies: Seq<Reply>,
    from: nat,
    to: nat,
) -> Seq<LineView>
    decreases to,
{
    if to <= from {
        Seq::empty()
    } else {
        lines_between(write, replies, from, (to - 1) as nat) + line_at(
            write,
            replies,
            (to - 1) as nat,
        )
    }
}

/// Whether a write that is done leaves behind a file that still gives the
/// conversation back, where it gave it back before.
pub open spec fn keeps_file(
    before: HistoryView,
    write: spec_fn(Seq<Reply>) -> Run<HistoryView>,
    replies: Seq<Reply>,
) -> bool {
    write(replies) matches Run::Done(now, used) ==> now.rollout is Some ==> forall|
        file: Seq<LineView>,
    | #[trigger]
        replayed(file) == before.items ==> replayed(
            file + lines_between(write, replies, 0, used),
        ) == now.items
}

// ---------------------------------------------------------------------------
// Replies are read one after the other
// ---------------------------------------------------------------------------

/// Whether work that is done with the replies up to `to` waits for each of those
/// from `from` on.
spec fn in_turn<T>(
    work: spec_fn(Seq<Reply>) -> Run<T>,
    replies: Seq<Reply>,
    from: nat,
    to: nat,
    done: T,
) -> bool {
    &&& from <= to <= replies.len()
    &&& forall|k: nat| from <= k < to ==> (#[trigger] work(replies.take(k as int))) is Needs
    &&& forall|k: nat|
        to <= k <= replies.len() ==> (#[trigger] work(replies.take(k as int))) == Run::Done(done, to)
}

/// Whether nothing is appended on the way.
spec fn no_append<T>(
    work: spec_fn(Seq<Reply>) -> Run<T>,
    replies: Seq<Reply>,
    from: nat,
    to: nat,
) -> bool {
    forall|k: nat|
        from <= k < to ==> !((#[trigger] work(replies.take(k as int)))->Needs_0 is Append)
}

proof fn lemma_spill_text(c: Seq<char>, cap: nat, replies: Seq<Reply>, at: nat)
    requires
        at <= replies.len(),
    ensures
        offload::spill_text(c, cap, replies, at) matches Run::Done(kept, next) ==> in_turn(
            |r: Seq<Reply>| offload::spill_text(c, cap, r, at),
            replies,
            at,
            next,
            kept,
        ) && no_append(|r: Seq<Reply>| offload::spill_text(c, cap, r, at), replies, at, next),
{
}

proof fn lemma_spill_blocks(
    content: Seq<BlockView>,
    i: nat,
    cap: nat,
    replies: Seq<Reply>,
    at: nat,
)
    requires
        at <= replies.len(),
    ensures
        offload::spill_blocks(content, i, cap, replies, at) matches Run::Done(kept, next)
            ==> in_turn(
            |r: Seq<Reply>| offload::spill_blocks(content, i, cap, r, at),
            replies,
            at,
            next,
            kept,
        ) && no_append(
            |r: Seq<Reply>| offload::spill_blocks(content, i, cap, r, at),
            replies,
            at,
            next,
        ),
    decreases content.len() - i,
{
    let work = |r: Seq<Reply>| offload::spill_blocks(content, i, cap, r, at);
    match offload::spill_blocks(content, i, cap, replies, at) {
        Run::Needs(_) => {},
        Run::Done(kept, next) => {
            if i < content.len() {
                match offload::result_text(content[i as int]) {
                    None => {
                        let rest = |r: Seq<Reply>|
                            offload::spill_blocks(content, i + 1, cap, r, at);
                        lemma_spill_blocks(content, i + 1, cap, replies, at);
                        assert forall|k: nat| k <= replies.len() implies #[trigger] work(
                            replies.take(k as int),
                        ) == rest(replies.take(k as int)) by {}
                        assert(in_turn(rest, replies, at, next, kept));
                        assert(no_append(rest, replies, at, next));
                    },
                    Some(t) => {
                        let first = |r: Seq<Reply>| offload::spill_text(t, cap, r, at);
                        lemma_spill_text(t, cap, replies, at);
                        match offload::spill_text(t, cap, replies, at) {
                            Run::Needs(_) => {},
                            Run::Done(one, mid) => {
                                let more = content.update(
                                    i as int,
                                    offload::with_text(content[i as int], one),
                                );
                                let rest = |r: Seq<Reply>|
                                    offload::spill_blocks(more, i + 1, cap, r, mid);
                                assert(in_turn(first, replies, at, mid, one));
                                lemma_spill_blocks(more, i + 1, cap, replies, mid);
                                assert(in_turn(rest, replies, mid, next, kept));
                                assert forall|k: nat| at <= k < mid implies #[trigger] work(
                                    replies.take(k as int),
                                ) is Needs && !(work(replies.take(k as int))->Needs_0 is Append) by {
                                    assert(first(replies.take(k as int)) is Needs);
                                    assert(no_append(first, replies, at, mid));
                                }
                                assert forall|k: nat|
                                    mid <= k <= replies.len() implies #[trigger] work(
                                    replies.take(k as int),
                                ) == rest(replies.take(k as int)) by {
                                    assert(first(replies.take(k as int)) == Run::Done(one, mid));
                                }
                                assert(no_append(rest, replies, mid, next));
                            },
                        }
                    },
                }
            }
        },
    }
}

proof fn lemma_fit_round(
    content: Seq<BlockView>,
    sizes: Seq<Option<nat>>,
    tried: Seq<bool>,
    total: int,
    replies: Seq<Reply>,
    at: nat,
)
    requires
        at <= replies.len(),
    ensures
        offload::fit_round(content, sizes, tried, total, replies, at) matches Run::Done(kept, next)
            ==> in_turn(
            |r: Seq<Reply>| offload::fit_round(content, sizes, tried, total, r, at),
            replies,
            at,
            next,
            kept,
        ) && no_append(
            |r: Seq<Reply>| offload::fit_round(content, sizes, tried, total, r, at),
            replies,
            at,
            next,
        ),
    decreases replies.len() - at,
{
    let work = |r: Seq<Reply>| offload::fit_round(content, sizes, tried, total, r, at);
    match offload::fit_round(content, sizes, tried, total, replies, at) {
        Run::Needs(_) => {},
        Run::Done(kept, next) => {
            if total > offload::ROUND_OFFLOAD_CAP_CHARS && offload::largest(sizes, tried) is Some {
                let i = offload::largest(sizes, tried)->Some_0;
                let t = offload::result_text(content[i])->Some_0;
                assert(at < replies.len());
                assert forall|k: nat| at < k <= replies.len() implies (#[trigger] replies.take(
                    k as int,
                ))[at as int] == replies[at as int] by {}
                assert(work(replies.take(at as int)) == Run::<Seq<BlockView>>::Needs(
                    RequestView::Save(t),
                ));
                match replies[at as int] {
                    Reply::Saved { path } => {
                        let p = offload::pointer_to(t, path@);
                        if p.len() < sizes[i]->Some_0 {
                            let more = content.update(i, offload::with_text(content[i], p));
                            let left = total - sizes[i]->Some_0 + p.len();
                            let rest = |r: Seq<Reply>|
                                offload::fit_round(
                                    more,
                                    sizes,
                                    tried.update(i, true),
                                    left,
                                    r,
                                    at + 1,
                                );
                            lemma_fit_round(
                                more,
                                sizes,
                                tried.update(i, true),
                                left,
                                replies,
                                at + 1,
                            );
                            assert forall|k: nat| at < k <= replies.len() implies #[trigger] work(
                                replies.take(k as int),
                            ) == rest(replies.take(k as int)) by {}
                            assert(in_turn(rest, replies, at + 1, next, kept));
                            assert(no_append(rest, replies, at + 1, next));
                        } else {
                            assert(next == at + 2);
                            assert(work(replies.take(at as int + 1)) == Run::<
                                Seq<BlockView>,
                            >::Needs(RequestView::Remove(path@)));
                            assert forall|k: nat| at + 2 <= k <= replies.len() implies
                                #[trigger] work(replies.take(k as int)) == Run::Done(
                                kept,
                                next,
                            ) by {
                                assert(replies.take(k as int)[at as int + 1] == replies[at as int
                                    + 1]);
                            }
                            assert forall|k: nat| at <= k < next implies (#[trigger] work(
                                replies.take(k as int),
                            )) is Needs && !(work(replies.take(k as int))->Needs_0 is Append) by {
                                assert(k == at || k == at + 1);
                            }
                        }
                    },
                    Reply::SaveFailed { .. } => {
                        let rest = |r: Seq<Reply>|
                            offload::fit_round(
                                content,
                                sizes,
                                tried.update(i, true),
                                total,
                                r,
                                at + 1,
                            );
                        lemma_fit_round(
                            content,
                            sizes,
                            tried.update(i, true),
                            total,
                            replies,
                            at + 1,
                        );
                        assert forall|k: nat| at < k <= replies.len() implies #[trigger] work(
                            replies.take(k as int),
                        ) == rest(replies.take(k as int)) by {}
                        assert(in_turn(rest, replies, at + 1, next, kept));
                        assert(no_append(rest, replies, at + 1, next));
                    },
                    _ => {},
                }
            }
        },
    }
}

proof fn lemma_settle(content: Seq<BlockView>, cap: nat, replies: Seq<Reply>, at: nat)
    requires
        at <= replies.len(),
    ensures
        offload::settle(content, cap, replies, at) matches Run::Done(kept, next) ==> in_turn(
            |r: Seq<Reply>| offload::settle(content, cap, r, at),
            replies,
            at,
            next,
            kept,
        ) && no_append(|r: Seq<Reply>| offload::settle(content, cap, r, at), replies, at, next),
{
    let work = |r: Seq<Reply>| offload::settle(content, cap, r, at);
    let first = |r: Seq<Reply>| offload::spill_blocks(content, 0, cap, r, at);
    lemma_spill_blocks(content, 0, cap, replies, at);
    match offload::settle(content, cap, replies, at) {
        Run::Needs(_) => {},
        Run::Done(kept, next) => match offload::spill_blocks(content, 0, cap, replies, at) {
            Run::Needs(_) => {},
            Run::Done(spilled, mid) => {
                let sizes = offload::result_sizes(spilled);
                let tried = offload::none_tried(spilled.len());
                let total = offload::round_chars(spilled) as int;
                let rest = |r: Seq<Reply>|
                    offload::fit_round(spilled, sizes, tried, total, r, mid);
                assert(in_turn(first, replies, at, mid, spilled));
                assert(no_append(first, replies, at, mid));
                lemma_fit_round(spilled, sizes, tried, total, replies, mid);
                assert(in_turn(rest, replies, mid, next, kept));
                assert(no_append(rest, replies, mid, next));
                assert forall|k: nat| at <= k < mid implies #[trigger] work(
                    replies.take(k as int),
                ) is Needs && !(work(replies.take(k as int))->Needs_0 is Append) by {
                    assert(first(replies.take(k as int)) is Needs);
                }
                assert forall|k: nat| mid <= k <= replies.len() implies #[trigger] work(
                    replies.take(k as int),
                ) == rest(replies.take(k as int)) by {
                    assert(first(replies.take(k as int)) == Run::Done(spilled, mid));
                }
            },
        },
    }
}

// ---------------------------------------------------------------------------
// Lines
// ---------------------------------------------------------------------------

proof fn lemma_lines_add(
    write: spec_fn(Seq<Reply>) -> Run<HistoryView>,
    replies: Seq<Reply>,
    from: nat,
    mid: nat,
    to: nat,
)
    requires
        from <= mid <= to,
    ensures
        lines_between(write, replies, from, to) == lines_between(write, replies, from, mid)
            + lines_between(write, replies, mid, to),
    decreases to,
{
    if mid == to {
        assert(lines_between(write, replies, from, to) =~= lines_between(
            write,
            replies,
            from,
            mid,
        ) + lines_between(write, replies, mid, to));
    } else {
        lemma_lines_add(write, replies, from, mid, (to - 1) as nat);
        assert(lines_between(write, replies, from, to) =~= lines_between(
            write,
            replies,
            from,
            mid,
        ) + lines_between(write, replies, mid, to));
    }
}

proof fn lemma_lines_agree(
    a: spec_fn(Seq<Reply>) -> Run<HistoryView>,
    b: spec_fn(Seq<Reply>) -> Run<HistoryView>,
    replies: Seq<Reply>,
    from: nat,
    to: nat,
)
    requires
        forall|k: nat|
            from <= k < to ==> #[trigger] a(replies.take(k as int)) == b(replies.take(k as int)),
    ensures
        lines_between(a, replies, from, to) == lines_between(b, replies, from, to),
    decreases to,
{
    if from < to {
        lemma_lines_agree(a, b, replies, from, (to - 1) as nat);
        assert(a(replies.take((to - 1) as int)) == b(replies.take((to - 1) as int)));
    }
}

proof fn lemma_no_lines(
    write: spec_fn(Seq<Reply>) -> Run<HistoryView>,
    replies: Seq<Reply>,
    from: nat,
    to: nat,
)
    requires
        forall|k: nat|
            from <= k < to ==> (#[trigger] write(replies.take(k as int))) is Needs && !(write(
                replies.take(k as int),
            )->Needs_0 is Append),
    ensures
        lines_between(write, replies, from, to) == Seq::<LineView>::empty(),
    decreases to,
{
    if from < to {
        lemma_no_lines(write, replies, from, (to - 1) as nat);
        assert(!(write(replies.take((to - 1) as int))->Needs_0 is Append));
        assert(lines_between(write, replies, from, to) =~= Seq::<LineView>::empty());
    }
}

proof fn lemma_replayed_one(file: Seq<LineView>, line: LineView)
    ensures
        replayed(file + seq![line]) == after_line(replayed(file), line),
{
    assert((file + seq![line]).drop_last() =~= file);
}

// ---------------------------------------------------------------------------
// Messages
// ---------------------------------------------------------------------------

/// Whether a piece of a write reads its replies in turn and, where the file is
/// still there at its end, has added to it what it added to the conversation.
spec fn faithful(
    before: HistoryView,
    write: spec_fn(Seq<Reply>) -> Run<HistoryView>,
    replies: Seq<Reply>,
    from: nat,
    to: nat,
    now: HistoryView,
) -> bool {
    &&& in_turn(write, replies, from, to, now)
    &&& now.rollout is Some ==> {
        &&& before.rollout is Some
        &&& forall|file: Seq<LineView>| #[trigger]
            replayed(file) == before.items ==> replayed(
                file + lines_between(write, replies, from, to),
            ) == now.items
    }
}

proof fn lemma_appended(h: HistoryView, m: MessageView, replies: Seq<Reply>, at: nat)
    requires
        at <= replies.len(),
    ensures
        history::appended(h, m, replies, at) matches Run::Done(now, next) ==> faithful(
            h,
            |r: Seq<Reply>| history::appended(h, m, r, at),
            replies,
            at,
            next,
            now,
        ),
{
    let write = |r: Seq<Reply>| history::appended(h, m, r, at);
    match history::appended(h, m, replies, at) {
        Run::Needs(_) => {},
        Run::Done(now, next) => {
            if h.rollout is Some {
                assert(next == at + 1);
                assert(write(replies.take(at as int)) == Run::<HistoryView>::Needs(
                    RequestView::Append(LineView::Message(m)),
                ));
                assert forall|k: nat| next <= k <= replies.len() implies #[trigger] write(
                    replies.take(k as int),
                ) == Run::Done(now, next) by {
                    assert(replies.take(k as int)[at as int] == replies[at as int]);
                }
                if now.rollout is Some {
                    assert(lines_between(write, replies, at, at) =~= Seq::<LineView>::empty());
                    assert(lines_between(write, replies, at, next) =~= seq![LineView::Message(m)]);
                    assert forall|file: Seq<LineView>| #[trigger]
                        replayed(file) == h.items implies replayed(
                        file + lines_between(write, replies, at, next),
                    ) == now.items by {
                        lemma_replayed_one(file, LineView::Message(m));
                    }
                }
            }
        },
    }
}

proof fn lemma_committed(h: HistoryView, m: MessageView, replies: Seq<Reply>, at: nat)
    requires
        at <= replies.len(),
    ensures
        history::committed(h, m, replies, at) matches Run::Done(now, next) ==> faithful(
            h,
            |r: Seq<Reply>| history::committed(h, m, r, at),
            replies,
            at,
            next,
            now,
        ),
{
    let write = |r: Seq<Reply>| history::committed(h, m, r, at);
    let first = |r: Seq<Reply>| offload::settle(m.content, h.cap, r, at);
    lemma_settle(m.content, h.cap, replies, at);
    match history::committed(h, m, replies, at) {
        Run::Needs(_) => {},
        Run::Done(now, next) => match offload::settle(m.content, h.cap, replies, at) {
            Run::Needs(_) => {},
            Run::Done(content, mid) => {
                let settled = MessageView { content, ..m };
                let rest = |r: Seq<Reply>| history::appended(h, settled, r, mid);
                assert(in_turn(first, replies, at, mid, content));
                assert(no_append(first, replies, at, mid));
                lemma_appended(h, settled, replies, mid);
                assert(faithful(h, rest, replies, mid, next, now));
                assert forall|k: nat| at <= k < mid implies (#[trigger] write(
                    replies.take(k as int),
                )) is Needs && !(write(replies.take(k as int))->Needs_0 is Append) by {
                    assert(first(replies.take(k as int)) is Needs);
                }
                assert forall|k: nat| mid <= k <= replies.len() implies #[trigger] write(
                    replies.take(k as int),
                ) == rest(replies.take(k as int)) by {
                    assert(first(replies.take(k as int)) == Run::Done(content, mid));
                }
                lemma_lines_add(write, replies, at, mid, next);
                lemma_no_lines(write, replies, at, mid);
                lemma_lines_agree(write, rest, replies, mid, next);
                assert(lines_between(write, replies, at, next) =~= lines_between(
                    rest,
                    replies,
                    mid,
                    next,
                ));
            },
        },
    }
}

/// Two faithful pieces, one after the other, are one.
proof fn lemma_one_after_the_other(
    before: HistoryView,
    whole: spec_fn(Seq<Reply>) -> Run<HistoryView>,
    first: spec_fn(Seq<Reply>) -> Run<HistoryView>,
    second: spec_fn(Seq<Reply>) -> Run<HistoryView>,
    replies: Seq<Reply>,
    from: nat,
    mid: nat,
    to: nat,
    between: HistoryView,
    now: HistoryView,
)
    requires
        faithful(before, first, replies, from, mid, between),
        faithful(between, second, replies, mid, to, now),
        forall|k: nat|
            from <= k < mid ==> #[trigger] whole(replies.take(k as int)) == first(
                replies.take(k as int),
            ),
        forall|k: nat|
            mid <= k <= replies.len() ==> #[trigger] whole(replies.take(k as int)) == second(
                replies.take(k as int),
            ),
    ensures
        faithful(before, whole, replies, from, to, now),
{
    lemma_lines_add(whole, replies, from, mid, to);
    lemma_lines_agree(whole, first, replies, from, mid);
    lemma_lines_agree(whole, second, replies, mid, to);
    assert forall|k: nat| from <= k < to implies (#[trigger] whole(
        replies.take(k as int),
    )) is Needs by {
        if k < mid {
            assert(first(replies.take(k as int)) is Needs);
        } else {
            assert(second(replies.take(k as int)) is Needs);
        }
    }
    assert forall|k: nat| to <= k <= replies.len() implies (#[trigger] whole(
        replies.take(k as int),
    )) == Run::Done(now, to) by {
        assert(second(replies.take(k as int)) == Run::Done(now, to));
    }
    if now.rollout is Some {
        assert forall|file: Seq<LineView>| #[trigger]
            replayed(file) == before.items implies replayed(
            file + lines_between(whole, replies, from, to),
        ) == now.items by {
            let one = file + lines_between(first, replies, from, mid);
            assert(replayed(one) == between.items);
            assert(file + lines_between(whole, replies, from, to) =~= one + lines_between(
                second,
                replies,
                mid,
                to,
            ));
        }
    }
}

proof fn lemma_all_committed(
    h: HistoryView,
    list: Seq<MessageView>,
    replies: Seq<Reply>,
    at: nat,
)
    requires
        at <= replies.len(),
    ensures
        history::all_committed(h, list, replies, at) matches Run::Done(now, next) ==> faithful(
            h,
            |r: Seq<Reply>| history::all_committed(h, list, r, at),
            replies,
            at,
            next,
            now,
        ),
    decreases list.len(),
{
    let whole = |r: Seq<Reply>| history::all_committed(h, list, r, at);
    match history::all_committed(h, list, replies, at) {
        Run::Needs(_) => {},
        Run::Done(now, next) => {
            if list.len() == 0 {
                assert forall|file: Seq<LineView>| #[trigger]
                    replayed(file) == h.items implies replayed(
                    file + lines_between(whole, replies, at, next),
                ) == now.items by {
                    assert(file + lines_between(whole, replies, at, next) =~= file);
                }
            } else {
                let first = |r: Seq<Reply>| history::all_committed(h, list.drop_last(), r, at);
                lemma_all_committed(h, list.drop_last(), replies, at);
                match history::all_committed(h, list.drop_last(), replies, at) {
                    Run::Needs(_) => {},
                    Run::Done(between, mid) => {
                        let second = |r: Seq<Reply>|
                            history::committed(between, list.last(), r, mid);
                        assert(faithful(h, first, replies, at, mid, between));
                        lemma_committed(between, list.last(), replies, mid);
                        assert(faithful(between, second, replies, mid, next, now));
                        assert forall|k: nat| at <= k < mid implies #[trigger] whole(
                            replies.take(k as int),
                        ) == first(replies.take(k as int)) by {
                            assert(first(replies.take(k as int)) is Needs);
                        }
                        assert forall|k: nat| mid <= k <= replies.len() implies #[trigger] whole(
                            replies.take(k as int),
                        ) == second(replies.take(k as int)) by {
                            assert(first(replies.take(k as int)) == Run::Done(between, mid));
                        }
                        lemma_one_after_the_other(
                            h,
                            whole,
                            first,
                            second,
                            replies,
                            at,
                            mid,
                            next,
                            between,
                            now,
                        );
                    },
                }
            }
        },
    }
}

proof fn lemma_stage_committed(h: HistoryView, replies: Seq<Reply>)
    ensures
        history::stage_committed(h, replies) matches Run::Done(now, next) ==> faithful(
            h,
            |r: Seq<Reply>| history::stage_committed(h, r),
            replies,
            0,
            next,
            now,
        ),
{
    let base = HistoryView { staged: Seq::empty(), ..h };
    let inner = |r: Seq<Reply>| history::all_committed(base, h.staged, r, 0);
    let whole = |r: Seq<Reply>| history::stage_committed(h, r);
    lemma_all_committed(base, h.staged, replies, 0);
    match history::stage_committed(h, replies) {
        Run::Needs(_) => {},
        Run::Done(now, next) => {
            assert(faithful(base, inner, replies, 0, next, now));
            assert forall|k: nat| k <= replies.len() implies #[trigger] whole(
                replies.take(k as int),
            ) == inner(replies.take(k as int)) by {}
            lemma_lines_agree(whole, inner, replies, 0, next);
            assert forall|file: Seq<LineView>| now.rollout is Some && #[trigger] replayed(file)
                == h.items implies replayed(file + lines_between(whole, replies, 0, next))
                == now.items by {
                assert(replayed(file) == base.items);
            }
        },
    }
}

/// A write that begins with the staged input and goes on with one more piece.
proof fn lemma_after_the_stage(
    h: HistoryView,
    whole: spec_fn(Seq<Reply>) -> Run<HistoryView>,
    second: spec_fn(Seq<Reply>) -> Run<HistoryView>,
    replies: Seq<Reply>,
    between: HistoryView,
    mid: nat,
    now: HistoryView,
    to: nat,
)
    requires
        history::stage_committed(h, replies) == Run::<HistoryView>::Done(between, mid),
        faithful(between, second, replies, mid, to, now),
        forall|k: nat|
            k <= replies.len() ==> #[trigger] whole(replies.take(k as int)) == match history::stage_committed(
                h,
                replies.take(k as int),
            ) {
                Run::Needs(request) => Run::<HistoryView>::Needs(request),
                Run::Done(_, _) => second(replies.take(k as int)),
            },
    ensures
        faithful(h, whole, replies, 0, to, now),
{
    let first = |r: Seq<Reply>| history::stage_committed(h, r);
    lemma_stage_committed(h, replies);
    assert(faithful(h, first, replies, 0, mid, between));
    assert forall|k: nat| 0 <= k < mid implies #[trigger] whole(replies.take(k as int)) == first(
        replies.take(k as int),
    ) by {
        assert(first(replies.take(k as int)) is Needs);
    }
    assert forall|k: nat| mid <= k <= replies.len() implies #[trigger] whole(
        replies.take(k as int),
    ) == second(replies.take(k as int)) by {
        assert(first(replies.take(k as int)) == Run::Done(between, mid));
    }
    lemma_one_after_the_other(h, whole, first, second, replies, 0, mid, to, between, now);
}

/// Pieces that only wait, and then a faithful one.
proof fn lemma_after_waiting<T>(
    before: HistoryView,
    whole: spec_fn(Seq<Reply>) -> Run<HistoryView>,
    first: spec_fn(Seq<Reply>) -> Run<T>,
    second: spec_fn(Seq<Reply>) -> Run<HistoryView>,
    replies: Seq<Reply>,
    from: nat,
    mid: nat,
    to: nat,
    between: T,
    now: HistoryView,
)
    requires
        in_turn(first, replies, from, mid, between),
        no_append(first, replies, from, mid),
        faithful(before, second, replies, mid, to, now),
        forall|k: nat|
            k <= replies.len() ==> #[trigger] whole(replies.take(k as int)) == match first(
                replies.take(k as int),
            ) {
                Run::Needs(request) => Run::<HistoryView>::Needs(request),
                Run::Done(_, _) => second(replies.take(k as int)),
            },
    ensures
        faithful(before, whole, replies, from, to, now),
{
    assert forall|k: nat| from <= k < mid implies (#[trigger] whole(
        replies.take(k as int),
    )) is Needs && !(whole(replies.take(k as int))->Needs_0 is Append) by {
        assert(first(replies.take(k as int)) is Needs);
    }
    assert forall|k: nat| mid <= k <= replies.len() implies #[trigger] whole(
        replies.take(k as int),
    ) == second(replies.take(k as int)) by {
        assert(first(replies.take(k as int)) == Run::Done(between, mid));
    }
    lemma_lines_add(whole, replies, from, mid, to);
    lemma_no_lines(whole, replies, from, mid);
    lemma_lines_agree(whole, second, replies, mid, to);
    assert(lines_between(whole, replies, from, to) =~= lines_between(second, replies, mid, to));
}

proof fn lemma_settled_body(p: PendingItem, cap: nat, replies: Seq<Reply>, at: nat)
    requires
        at <= replies.len(),
    ensures
        inbox::settled_body(p.item, cap, replies, at) matches Run::Done(body, next) ==> in_turn(
            |r: Seq<Reply>| inbox::settled_body(p.item, cap, r, at),
            replies,
            at,
            next,
            body,
        ) && no_append(|r: Seq<Reply>| inbox::settled_body(p.item, cap, r, at), replies, at, next),
{
}

/// The staged input, and then a message.
spec fn staged_and(h: HistoryView, m: MessageView, replies: Seq<Reply>, at: nat) -> Run<
    HistoryView,
> {
    match history::all_committed(
        HistoryView { staged: Seq::empty(), ..h },
        h.staged,
        replies,
        at,
    ) {
        Run::Needs(request) => Run::Needs(request),
        Run::Done(now, after) => history::committed(now, m, replies, after),
    }
}

proof fn lemma_staged_and(h: HistoryView, m: MessageView, replies: Seq<Reply>, at: nat)
    requires
        at <= replies.len(),
    ensures
        staged_and(h, m, replies, at) matches Run::Done(now, next) ==> faithful(
            h,
            |r: Seq<Reply>| staged_and(h, m, r, at),
            replies,
            at,
            next,
            now,
        ),
{
    let base = HistoryView { staged: Seq::empty(), ..h };
    let whole = |r: Seq<Reply>| staged_and(h, m, r, at);
    let first = |r: Seq<Reply>| history::all_committed(base, h.staged, r, at);
    lemma_all_committed(base, h.staged, replies, at);
    match (staged_and(h, m, replies, at), history::all_committed(base, h.staged, replies, at)) {
        (Run::Done(now, to), Run::Done(between, mid)) => {
            assert(faithful(base, first, replies, at, mid, between));
            lemma_committed(between, m, replies, mid);
            let second = |r: Seq<Reply>| history::committed(between, m, r, mid);
            assert(faithful(between, second, replies, mid, to, now));
            assert forall|k: nat| at <= k < mid implies #[trigger] whole(
                replies.take(k as int),
            ) == first(replies.take(k as int)) by {
                assert(first(replies.take(k as int)) is Needs);
            }
            assert forall|k: nat| mid <= k <= replies.len() implies #[trigger] whole(
                replies.take(k as int),
            ) == second(replies.take(k as int)) by {
                assert(first(replies.take(k as int)) == Run::Done(between, mid));
            }
            lemma_one_after_the_other(
                base,
                whole,
                first,
                second,
                replies,
                at,
                mid,
                to,
                between,
                now,
            );
            assert(faithful(base, whole, replies, at, to, now));
            assert forall|file: Seq<LineView>| now.rollout is Some && #[trigger] replayed(file)
                == h.items implies replayed(file + lines_between(whole, replies, at, to))
                == now.items by {
                assert(replayed(file) == base.items);
            }
        },
        _ => {},
    }
}

/// What a body is once it is settled, it stays with more replies.
proof fn lemma_body_is_stable(
    p: PendingItem,
    cap: nat,
    replies: Seq<Reply>,
    at: nat,
    body: Seq<char>,
    mid: nat,
    k: nat,
)
    requires
        k <= replies.len(),
        inbox::settled_body(p.item, cap, replies, at) == Run::<Seq<char>>::Done(body, mid),
    ensures
        inbox::settled_body(p.item, cap, replies.take(k as int), at) matches Run::Done(x, n) ==> x
            == body && n == mid,
{
}

proof fn lemma_item_injected(h: HistoryView, p: PendingItem, replies: Seq<Reply>, at: nat)
    requires
        at <= replies.len(),
    ensures
        history::item_injected(h, p, replies, at) matches Run::Done(now, next) ==> faithful(
            h,
            |r: Seq<Reply>| history::item_injected(h, p, r, at),
            replies,
            at,
            next,
            now,
        ),
{
    let whole = |r: Seq<Reply>| history::item_injected(h, p, r, at);
    let first = |r: Seq<Reply>| inbox::settled_body(p.item, h.cap, r, at);
    lemma_settled_body(p, h.cap, replies, at);
    match (
        history::item_injected(h, p, replies, at),
        inbox::settled_body(p.item, h.cap, replies, at),
    ) {
        (Run::Done(now, to), Run::Done(body, mid)) => {
            let m = inbox::framed(p, body);
            let second = |r: Seq<Reply>| staged_and(h, m, r, mid);
            assert(in_turn(first, replies, at, mid, body));
            assert(no_append(first, replies, at, mid));
            lemma_staged_and(h, m, replies, mid);
            assert(faithful(h, second, replies, mid, to, now));
            assert forall|k: nat| k <= replies.len() implies #[trigger] whole(
                replies.take(k as int),
            ) == match first(replies.take(k as int)) {
                Run::Needs(request) => Run::<HistoryView>::Needs(request),
                Run::Done(_, _) => second(replies.take(k as int)),
            } by {
                lemma_body_is_stable(p, h.cap, replies, at, body, mid, k);
            }
            lemma_after_waiting(h, whole, first, second, replies, at, mid, to, body, now);
        },
        _ => {},
    }
}

proof fn lemma_items_injected(h: HistoryView, list: Seq<PendingItem>, replies: Seq<Reply>)
    ensures
        history::items_injected(h, list, replies) matches Run::Done(now, next) ==> faithful(
            h,
            |r: Seq<Reply>| history::items_injected(h, list, r),
            replies,
            0,
            next,
            now,
        ),
    decreases list.len(),
{
    let whole = |r: Seq<Reply>| history::items_injected(h, list, r);
    match history::items_injected(h, list, replies) {
        Run::Needs(_) => {},
        Run::Done(now, next) => {
            if list.len() == 0 {
                assert forall|file: Seq<LineView>| #[trigger]
                    replayed(file) == h.items implies replayed(
                    file + lines_between(whole, replies, 0, next),
                ) == now.items by {
                    assert(file + lines_between(whole, replies, 0, next) =~= file);
                }
            } else {
                let first = |r: Seq<Reply>| history::items_injected(h, list.drop_last(), r);
                lemma_items_injected(h, list.drop_last(), replies);
                match history::items_injected(h, list.drop_last(), replies) {
                    Run::Needs(_) => {},
                    Run::Done(between, mid) => {
                        let second = |r: Seq<Reply>|
                            history::item_injected(between, list.last(), r, mid);
                        assert(faithful(h, first, replies, 0, mid, between));
                        lemma_item_injected(between, list.last(), replies, mid);
                        assert(faithful(between, second, replies, mid, next, now));
                        assert forall|k: nat| 0 <= k < mid implies #[trigger] whole(
                            replies.take(k as int),
                        ) == first(replies.take(k as int)) by {
                            assert(first(replies.take(k as int)) is Needs);
                        }
                        assert forall|k: nat| mid <= k <= replies.len() implies #[trigger] whole(
                            replies.take(k as int),
                        ) == second(replies.take(k as int)) by {
                            assert(first(replies.take(k as int)) == Run::Done(between, mid));
                        }
                        lemma_one_after_the_other(
                            h,
                            whole,
                            first,
                            second,
                            replies,
                            0,
                            mid,
                            next,
                            between,
                            now,
                        );
                    },
                }
            }
        },
    }
}

/// What the staged input is once it is done, it stays with more replies.
proof fn lemma_stage_is_stable(
    h: HistoryView,
    replies: Seq<Reply>,
    between: HistoryView,
    mid: nat,
    k: nat,
)
    requires
        k <= replies.len(),
        history::stage_committed(h, replies) == Run::<HistoryView>::Done(between, mid),
    ensures
        history::stage_committed(h, replies.take(k as int)) matches Run::Done(x, n) ==> x == between
            && n == mid,
{
    let first = |r: Seq<Reply>| history::stage_committed(h, r);
    lemma_stage_committed(h, replies);
    assert(faithful(h, first, replies, 0, mid, between));
    if k < mid {
        assert(first(replies.take(k as int)) is Needs);
    } else {
        assert(first(replies.take(k as int)) == Run::Done(between, mid));
    }
}

/// The history with a line that is no message.
spec fn noted(h: HistoryView, line: LineView, replies: Seq<Reply>, at: nat) -> Run<HistoryView> {
    match history::persisted(h.rollout, line, replies, at) {
        Run::Needs(request) => Run::Needs(request),
        Run::Done(rollout, last) => Run::Done(HistoryView { rollout, ..h }, last),
    }
}

proof fn lemma_beside(h: HistoryView, line: LineView, replies: Seq<Reply>, at: nat)
    requires
        at <= replies.len(),
        !(line is Message),
        !(line is Compacted),
    ensures
        noted(h, line, replies, at) matches Run::Done(now, next) ==> faithful(
            h,
            |r: Seq<Reply>| noted(h, line, r, at),
            replies,
            at,
            next,
            now,
        ),
{
    let write = |r: Seq<Reply>| noted(h, line, r, at);
    match noted(h, line, replies, at) {
        Run::Needs(_) => {},
        Run::Done(now, next) => {
            if h.rollout is Some {
                assert(write(replies.take(at as int)) == Run::<HistoryView>::Needs(
                    RequestView::Append(line),
                ));
                assert forall|k: nat| next <= k <= replies.len() implies #[trigger] write(
                    replies.take(k as int),
                ) == Run::Done(now, next) by {
                    assert(replies.take(k as int)[at as int] == replies[at as int]);
                }
                if now.rollout is Some {
                    assert(lines_between(write, replies, at, at) =~= Seq::<LineView>::empty());
                    assert(lines_between(write, replies, at, next) =~= seq![line]);
                    assert forall|file: Seq<LineView>| #[trigger]
                        replayed(file) == h.items implies replayed(
                        file + lines_between(write, replies, at, next),
                    ) == now.items by {
                        lemma_replayed_one(file, line);
                    }
                }
            }
        },
    }
}

// ---------------------------------------------------------------------------
// Laws
// ---------------------------------------------------------------------------

/// A message that is recorded is read back from the session file: where the file
/// gave the conversation back before, it does so after, the staged input and the
/// message included.
pub proof fn law_a_recorded_message_is_read_back(
    h: HistoryView,
    m: MessageView,
    replies: Seq<Reply>,
)
    ensures
        keeps_file(h, |r: Seq<Reply>| history::recorded(h, m, r), replies),
{
    let whole = |r: Seq<Reply>| history::recorded(h, m, r);
    match (history::recorded(h, m, replies), history::stage_committed(h, replies)) {
        (Run::Done(now, to), Run::Done(between, mid)) => {
            lemma_stage_committed(h, replies);
            lemma_committed(between, m, replies, mid);
            let second = |r: Seq<Reply>| history::committed(between, m, r, mid);
            assert forall|k: nat| k <= replies.len() implies #[trigger] whole(
                replies.take(k as int),
            ) == match history::stage_committed(h, replies.take(k as int)) {
                Run::Needs(request) => Run::<HistoryView>::Needs(request),
                Run::Done(_, _) => second(replies.take(k as int)),
            } by {
                lemma_stage_is_stable(h, replies, between, mid, k);
            }
            lemma_after_the_stage(h, whole, second, replies, between, mid, now, to);
        },
        _ => {},
    }
}

/// A provider's response that is recorded is read back from the session file.
pub proof fn law_a_recorded_response_is_read_back(
    h: HistoryView,
    content: Seq<BlockView>,
    attempt: AttemptView,
    replies: Seq<Reply>,
)
    ensures
        keeps_file(
            h,
            |r: Seq<Reply>| history::assistant_recorded(h, content, attempt, r),
            replies,
        ),
{
    let whole = |r: Seq<Reply>| history::assistant_recorded(h, content, attempt, r);
    match (
        history::assistant_recorded(h, content, attempt, replies),
        history::stage_committed(h, replies),
    ) {
        (Run::Done(now, to), Run::Done(between, mid)) => {
            lemma_stage_committed(h, replies);
            let m = MessageView {
                role: protocol::Role::Assistant,
                content,
                provenance: Some(
                    routes::provenance_of(attempt, history::next_boundary(between)),
                ),
                injected: None,
            };
            lemma_appended(between, m, replies, mid);
            let second = |r: Seq<Reply>| history::appended(between, m, r, mid);
            assert forall|k: nat| k <= replies.len() implies #[trigger] whole(
                replies.take(k as int),
            ) == match history::stage_committed(h, replies.take(k as int)) {
                Run::Needs(request) => Run::<HistoryView>::Needs(request),
                Run::Done(_, _) => second(replies.take(k as int)),
            } by {
                lemma_stage_is_stable(h, replies, between, mid, k);
            }
            lemma_after_the_stage(h, whole, second, replies, between, mid, now, to);
        },
        _ => {},
    }
}

/// A turn's closing line leaves what the session file gives back: the
/// conversation, with the staged input in it.
pub proof fn law_a_closing_line_is_no_message(
    h: HistoryView,
    terminal: TurnTerminalView,
    replies: Seq<Reply>,
)
    ensures
        keeps_file(h, |r: Seq<Reply>| history::terminal_recorded(h, terminal, r), replies),
{
    let whole = |r: Seq<Reply>| history::terminal_recorded(h, terminal, r);
    match (
        history::terminal_recorded(h, terminal, replies),
        history::stage_committed(h, replies),
    ) {
        (Run::Done(now, to), Run::Done(between, mid)) => {
            lemma_stage_committed(h, replies);
            lemma_beside(between, LineView::Terminal(terminal), replies, mid);
            let second = |r: Seq<Reply>|
                noted(between, LineView::Terminal(terminal), r, mid);
            assert forall|k: nat| k <= replies.len() implies #[trigger] whole(
                replies.take(k as int),
            ) == match history::stage_committed(h, replies.take(k as int)) {
                Run::Needs(request) => Run::<HistoryView>::Needs(request),
                Run::Done(_, _) => second(replies.take(k as int)),
            } by {
                lemma_stage_is_stable(h, replies, between, mid, k);
            }
            lemma_after_the_stage(h, whole, second, replies, between, mid, now, to);
        },
        _ => {},
    }
}

/// A usage line leaves what the session file gives back.
pub proof fn law_a_usage_line_is_no_message(
    h: HistoryView,
    record: UsageRecordView,
    replies: Seq<Reply>,
)
    ensures
        keeps_file(h, |r: Seq<Reply>| history::usage_recorded(h, record, r), replies),
{
    let write = |r: Seq<Reply>| history::usage_recorded(h, record, r);
    match history::usage_recorded(h, record, replies) {
        Run::Done(now, used) if now.rollout is Some => {
            assert(write(replies.take(0)) == Run::<HistoryView>::Needs(
                RequestView::Append(LineView::Usage(record)),
            ));
            assert(lines_between(write, replies, 0, 0) =~= Seq::<LineView>::empty());
            assert(lines_between(write, replies, 0, used) =~= seq![LineView::Usage(record)]);
            assert forall|file: Seq<LineView>| #[trigger]
                replayed(file) == h.items implies replayed(
                file + lines_between(write, replies, 0, used),
            ) == now.items by {
                lemma_replayed_one(file, LineView::Usage(record));
            }
        },
        _ => {},
    }
}

/// A compaction is read back from the session file whatever stood in it before:
/// the file gives back the rewritten conversation.
pub proof fn law_a_rewrite_is_read_back(
    h: HistoryView,
    items: Seq<MessageView>,
    replies: Seq<Reply>,
    file: Seq<LineView>,
)
    ensures
        history::replaced(h, items, replies) matches Run::Done(now, used) ==> now.rollout is Some
            ==> replayed(
            file + lines_between(
                |r: Seq<Reply>| history::replaced(h, items, r),
                replies,
                0,
                used,
            ),
        ) == now.items,
{
    let write = |r: Seq<Reply>| history::replaced(h, items, r);
    match history::replaced(h, items, replies) {
        Run::Done(now, used) if now.rollout is Some => {
            assert(write(replies.take(0)) == Run::<HistoryView>::Needs(
                RequestView::Append(LineView::Compacted(items)),
            ));
            assert(lines_between(write, replies, 0, 0) =~= Seq::<LineView>::empty());
            assert(lines_between(write, replies, 0, used) =~= seq![LineView::Compacted(items)]);
            lemma_replayed_one(file, LineView::Compacted(items));
        },
        _ => {},
    }
}

/// Pending items that are injected are read back from the session file.
pub proof fn law_injected_items_are_read_back(
    h: HistoryView,
    list: Seq<PendingItem>,
    replies: Seq<Reply>,
)
    ensures
        keeps_file(h, |r: Seq<Reply>| history::items_injected(h, list, r), replies),
{
    lemma_items_injected(h, list, replies);
}

/// The staged input that is committed is read back from the session file.
pub proof fn law_committed_input_is_read_back(h: HistoryView, replies: Seq<Reply>)
    ensures
        keeps_file(h, |r: Seq<Reply>| history::stage_committed(h, r), replies),
{
    lemma_stage_committed(h, replies);
}

/// What a file says: a message is added to the conversation, a rewrite puts another in its
/// place, and no other line is part of it.
pub proof fn law_what_a_line_says(lines: Seq<LineView>, line: LineView)
    ensures
        replayed(Seq::<LineView>::empty()).len() == 0,
        replayed(lines.push(line)) == (match line {
            LineView::Message(m) => replayed(lines).push(m),
            LineView::Compacted(items) => items,
            LineView::Usage(_) => replayed(lines),
            LineView::Terminal(_) => replayed(lines),
            LineView::InitialRoute(_) => replayed(lines),
            LineView::RouteChanged { .. } => replayed(lines),
            LineView::Runtime(_) => replayed(lines),
        }),
{
    assert(lines.push(line).drop_last() =~= lines);
    assert(lines.push(line).last() == line);
}

} // verus!

//! The decisions of the thread that answers the async adapter's requests:
//! which requests an iteration of the recorder answers, and which wait.
//!
//! The thread itself, its channels and the values sent to each destination
//! live with the caller; each destination answered in one iteration gets that
//! iteration's result.

use crate::record::EncodeStatus;
use std::collections::VecDeque;
use vstd::prelude::*;

verus! {

/// A request to the recorder thread, carrying where the answer goes.
pub enum RecorderMessage<F, W> {
    /// Answer with the result of the next flush (or error).
    WaitForNextFlush(W),
    /// Answer with the result of the current iteration.
    WaitForFrame(F),
}

/// Whether an iteration with this result answers flush requests: it
/// published the stage, or it failed.
pub open spec fn releases<E>(result: Result<EncodeStatus, E>) -> bool {
    match result {
        Ok(status) => status == EncodeStatus::Flushed,
        Err(_) => true,
    }
}

/// The flush requests among `msgs`, in order.
pub open spec fn flush_requests<F, W>(msgs: Seq<RecorderMessage<F, W>>) -> Seq<W>
    decreases msgs.len(),
{
    if msgs.len() == 0 {
        Seq::empty()
    } else {
        let rest = flush_requests(msgs.drop_last());
        match msgs.last() {
            RecorderMessage::WaitForNextFlush(w) => rest.push(w),
            RecorderMessage::WaitForFrame(_) => rest,
        }
    }
}

/// The frame requests among `msgs`, in order.
pub open spec fn frame_requests<F, W>(msgs: Seq<RecorderMessage<F, W>>) -> Seq<F>
    decreases msgs.len(),
{
    if msgs.len() == 0 {
        Seq::empty()
    } else {
        let rest = frame_requests(msgs.drop_last());
        match msgs.last() {
            RecorderMessage::WaitForNextFlush(_) => rest,
            RecorderMessage::WaitForFrame(f) => rest.push(f),
        }
    }
}

pub fn releases_flush_waiters<E>(result: &Result<EncodeStatus, E>) -> (r: bool)
    ensures
        r == releases(*result),
{
    match result {
        Ok(EncodeStatus::Flushed) => true,
        Ok(_) => false,
        Err(_) => true,
    }
}

/// The flush requests that wait for a flush or an error.
pub struct FlushWaiters<W> {
    waiting: Vec<W>,
}

impl<W> View for FlushWaiters<W> {
    type V = Seq<W>;

    closed spec fn view(&self) -> Seq<W> {
        self.waiting@
    }
}

/// The destinations one iteration answers.
pub struct Wakeups<F, W> {
    pub frame: Vec<F>,
    pub flush: Vec<W>,
}

impl<W> FlushWaiters<W> {
    pub fn new() -> (r: Self)
        ensures
            r@.len() == 0,
    {
        FlushWaiters { waiting: Vec::new() }
    }

    /// Ends an iteration: when its result answers flush requests, every
    /// waiting one is handed back, oldest first, and none waits any more;
    /// otherwise nothing changes.
    pub fn drain<E>(&mut self, result: &Result<EncodeStatus, E>) -> (r: Vec<W>)
        ensures
            releases(*result) ==> r@ == old(self)@ && final(self)@.len() == 0,
            !releases(*result) ==> r@.len() == 0 && final(self)@ == old(self)@,
    {
        if releases_flush_waiters(result) {
            let mut answered: Vec<W> = Vec::new();
            std::mem::swap(&mut answered, &mut self.waiting);
            answered
        } else {
            Vec::new()
        }
    }
}

/// Takes one request: a frame request is answered at once with the current
/// iteration's result; a flush request waits until the end of the iteration.
pub fn handle_recorder_message<F, W>(msg: RecorderMessage<F, W>, flush_waiters: &mut FlushWaiters<W>)
    -> (r: Option<F>)
    ensures
        msg matches RecorderMessage::WaitForFrame(f) ==> r == Some(f) && final(flush_waiters)@
            == old(flush_waiters)@,
        msg matches RecorderMessage::WaitForNextFlush(w) ==> r is None && final(flush_waiters)@
            == old(flush_waiters)@.push(w),
{
    match msg {
        RecorderMessage::WaitForFrame(dest) => Some(dest),
        RecorderMessage::WaitForNextFlush(dest) => {
            flush_waiters.waiting.push(dest);
            None
        },
    }
}

/// What one iteration leaves waiting, and the flush requests it answers.
pub open spec fn iteration<F, W>(waiting: Seq<W>, msgs: Seq<RecorderMessage<F, W>>, releasing: bool) -> (
    Seq<W>,
    Seq<W>,
) {
    if releasing {
        (Seq::empty(), waiting + flush_requests(msgs))
    } else {
        (waiting + flush_requests(msgs), Seq::empty())
    }
}

/// Handles the requests that arrived during an iteration whose result is
/// `result`, then ends the iteration. Every frame request is answered; the
/// flush requests, old and new, are all answered if the result is a flush or
/// an error, and all keep waiting otherwise.
pub fn recorder_iteration<F, W, E>(
    flush_waiters: &mut FlushWaiters<W>,
    msgs: VecDeque<RecorderMessage<F, W>>,
    result: &Result<EncodeStatus, E>,
) -> (r: Wakeups<F, W>)
    ensures
        r.frame@ == frame_requests(msgs@),
        (final(flush_waiters)@, r.flush@) == iteration(
            old(flush_waiters)@,
            msgs@,
            releases(*result),
        ),
{
    let ghost all = msgs@;
    let ghost waiting0 = flush_waiters@;
    let mut frame: Vec<F> = Vec::new();
    let mut pending = msgs;
    while pending.len() > 0
        invariant
            pending@.len() <= all.len(),
            pending@ == all.skip(all.len() - pending@.len()),
            frame@ == frame_requests(all.take(all.len() - pending@.len())),
            flush_waiters@ == waiting0 + flush_requests(all.take(all.len() - pending@.len())),
        decreases pending@.len(),
    {
        let ghost done = all.len() - pending@.len();
        let msg = pending.pop_front().unwrap();
        assert(all.skip(done)[0] == all[done]);
        assert(pending@ =~= all.skip(done + 1));
        assert(all.take(done + 1).drop_last() =~= all.take(done));
        assert(all.take(done + 1).last() == all[done]);
        match handle_recorder_message(msg, flush_waiters) {
            Some(dest) => frame.push(dest),
            None => {},
        }
        assert(flush_waiters@ =~= waiting0 + flush_requests(all.take(done + 1)));
    }
    assert(all.take(all.len() as int) =~= all);
    let flush = flush_waiters.drain(result);
    Wakeups { frame, flush }
}

/// What waits after a series of iterations, each given as the messages that
/// arrived during it and whether its result answers flush requests.
pub open spec fn waiting_after<F, W>(
    waiting: Seq<W>,
    iters: Seq<(Seq<RecorderMessage<F, W>>, bool)>,
) -> Seq<W>
    decreases iters.len(),
{
    if iters.len() == 0 {
        waiting
    } else {
        iteration(waiting_after(waiting, iters.drop_last()), iters.last().0, iters.last().1).0
    }
}

/// The flush requests answered by iteration `t` of a series.
pub open spec fn answered_at<F, W>(
    waiting: Seq<W>,
    iters: Seq<(Seq<RecorderMessage<F, W>>, bool)>,
    t: int,
) -> Seq<W> {
    iteration(waiting_after(waiting, iters.take(t)), iters[t].0, iters[t].1).1
}

proof fn lemma_quiet_prefix<F, W>(
    waiting: Seq<W>,
    iters: Seq<(Seq<RecorderMessage<F, W>>, bool)>,
    j: int,
)
    requires
        0 <= j <= iters.len(),
        forall|t: int| 0 <= t < j ==> !(#[trigger] iters[t].1),
    ensures
        forall|t: int| 0 <= t < j ==> (#[trigger] answered_at(waiting, iters, t)).len() == 0,
        forall|k: int|
            0 <= k < waiting.len() ==> waiting_after(waiting, iters.take(j)).contains(
                #[trigger] waiting[k],
            ),
        forall|t: int, k: int|
            0 <= t < j && 0 <= k < flush_requests(iters[t].0).len() ==> waiting_after(
                waiting,
                iters.take(j),
            ).contains(#[trigger] flush_requests(iters[t].0)[k]),
    decreases j,
{
    if j > 0 {
        lemma_quiet_prefix(waiting, iters, j - 1);
        let before = waiting_after(waiting, iters.take(j - 1));
        assert(iters.take(j).drop_last() =~= iters.take(j - 1));
        assert(iters.take(j).last() == iters[j - 1]);
        let new = flush_requests(iters[j - 1].0);
        assert(waiting_after(waiting, iters.take(j)) == before + new);
        assert forall|k: int| 0 <= k < waiting.len() implies waiting_after(
            waiting,
            iters.take(j),
        ).contains(#[trigger] waiting[k]) by {
            let x = choose|x: int| 0 <= x < before.len() && before[x] == waiting[k];
            assert((before + new)[x] == waiting[k]);
        }
        assert forall|t: int, k: int|
            0 <= t < j && 0 <= k < flush_requests(iters[t].0).len() implies waiting_after(
            waiting,
            iters.take(j),
        ).contains(#[trigger] flush_requests(iters[t].0)[k]) by {
            if t < j - 1 {
                let x = choose|x: int|
                    0 <= x < before.len() && before[x] == flush_requests(iters[t].0)[k];
                assert((before + new)[x] == flush_requests(iters[t].0)[k]);
            } else {
                assert((before + new)[before.len() + k] == new[k]);
            }
        }
    }
}

/// A flush request is answered exactly at the first iteration after its
/// arrival whose result is a flush or an error: iterations without one answer
/// no flush request at all, and that iteration answers every request that
/// waited before it or arrived during the series, and leaves none waiting.
pub proof fn lemma_flush_answered_at_next_release<F, W>(
    waiting: Seq<W>,
    iters: Seq<(Seq<RecorderMessage<F, W>>, bool)>,
    j: int,
)
    requires
        0 <= j < iters.len(),
        forall|t: int| 0 <= t < j ==> !(#[trigger] iters[t].1),
        iters[j].1,
    ensures
        forall|t: int| 0 <= t < j ==> (#[trigger] answered_at(waiting, iters, t)).len() == 0,
        forall|k: int|
            0 <= k < waiting.len() ==> answered_at(waiting, iters, j).contains(#[trigger] waiting[k]),
        forall|t: int, k: int|
            0 <= t <= j && 0 <= k < flush_requests(iters[t].0).len() ==> answered_at(
                waiting,
                iters,
                j,
            ).contains(#[trigger] flush_requests(iters[t].0)[k]),
        waiting_after(waiting, iters.take(j + 1)).len() == 0,
{
    lemma_quiet_prefix(waiting, iters, j);
    let before = waiting_after(waiting, iters.take(j));
    let new = flush_requests(iters[j].0);
    assert(answered_at(waiting, iters, j) == before + new);
    assert(iters.take(j + 1).drop_last() =~= iters.take(j));
    assert(iters.take(j + 1).last() == iters[j]);
    assert forall|k: int| 0 <= k < waiting.len() implies answered_at(waiting, iters, j).contains(
        #[trigger] waiting[k],
    ) by {
        let x = choose|x: int| 0 <= x < before.len() && before[x] == waiting[k];
        assert((before + new)[x] == waiting[k]);
    }
    assert forall|t: int, k: int|
        0 <= t <= j && 0 <= k < flush_requests(iters[t].0).len() implies answered_at(
        waiting,
        iters,
        j,
    ).contains(#[trigger] flush_requests(iters[t].0)[k]) by {
        if t < j {
            let x = choose|x: int| 0 <= x < before.len() && before[x] == flush_requests(iters[t].0)[k];
            assert((before + new)[x] == flush_requests(iters[t].0)[k]);
        } else {
            assert((before + new)[before.len() + k] == new[k]);
        }
    }
}

/// An iteration whose result is a flush answers, before any later iteration
/// runs, every flush request that waited, in order, then those that arrived
/// during it; none is left waiting.
pub proof fn lemma_flush_answers_all_waiters<F, W>(
    waiting: Seq<W>,
    msgs: Seq<RecorderMessage<F, W>>,
)
    ensures
        iteration(waiting, msgs, releases(Ok::<EncodeStatus, ()>(EncodeStatus::Flushed)))
            == (Seq::<W>::empty(), waiting + flush_requests(msgs)),
{
}

/// An error reaches everyone who asks during its iteration: the frame
/// requests, which are always answered, and every flush request, waiting or
/// new.
pub proof fn lemma_error_reaches_all<F, W, E>(
    waiting: Seq<W>,
    msgs: Seq<RecorderMessage<F, W>>,
    error: E,
)
    ensures
        releases(Err::<EncodeStatus, E>(error)),
        iteration(waiting, msgs, releases(Err::<EncodeStatus, E>(error))) == (
            Seq::<W>::empty(),
            waiting + flush_requests(msgs),
        ),
{
}

} // verus!

//! The library's guarantees, proved as laws over the worker's and the
//! lifecycle's transition relations.

use vstd::prelude::*;
use crate::worker::{WorkerV, InputV, ReadV, ReplyV, LogEntry, StepOutcome};
use crate::worker::{worker_step, deadline_passed, route_unsolicited, decode_error_text};
use crate::lifecycle::{SessionManager, LifeEvent, life_enabled, life_step};
use crate::codec::frame_meaning;

verus! {

/// An input the worker may lawfully be given: a new request is handed
/// in only while none is in flight.
pub open spec fn input_ok(w: WorkerV, i: InputV) -> bool {
    i.incoming is Some ==> w.pending is None
}

/// The history alternates: acceptances at even positions, resolutions
/// at odd ones. So the k-th reply to resolve stands right after the
/// k-th accepted request: replies resolve in submission order, and
/// each acceptance is answered at most once.
pub open spec fn log_alternating(log: Seq<LogEntry>) -> bool {
    forall|k: int| 0 <= k < log.len() ==> ((log[k] is Accepted) <==> (k % 2 == 0))
}

/// The worker's invariant: the history alternates; a request is in
/// flight exactly while the last acceptance is unanswered, and then
/// the in-flight request is that acceptance.
pub open spec fn worker_wf(w: WorkerV) -> bool {
    &&& log_alternating(w.log)
    &&& ((w.pending is Some) <==> (w.log.len() % 2 == 1))
    &&& (match w.pending {
        Some(p) => w.log.len() >= 1 && w.log.last() == LogEntry::Accepted(p.request),
        None => true,
    })
}

/// A worker with no request in flight and an empty history satisfies
/// the invariant; [`crate::worker::Worker::new`] starts every session
/// in such a state.
pub proof fn lemma_fresh_worker_wf(w: WorkerV)
    requires
        w.pending is None,
        w.log == Seq::<LogEntry>::empty(),
    ensures
        worker_wf(w),
{
}

proof fn lemma_push_keeps_alternating(log: Seq<LogEntry>, e: LogEntry)
    requires
        log_alternating(log),
        (e is Accepted) <==> (log.len() % 2 == 0),
    ensures
        log_alternating(log.push(e)),
{
    let log2 = log.push(e);
    assert forall|k: int| 0 <= k < log2.len() implies ((log2[k] is Accepted) <==> (k % 2 == 0)) by {
        if k < log.len() {
            assert(log2[k] == log[k]);
        } else {
            assert(log2[k] == e);
        }
    }
}

/// One step preserves the invariant, and only appends to the history:
/// what was accepted and resolved is never rewritten.
pub proof fn lemma_step_preserves_wf(w: WorkerV, i: InputV)
    requires
        worker_wf(w),
        input_ok(w, i),
    ensures
        ({
            let (w2, e) = worker_step(w, i);
            &&& worker_wf(w2)
            &&& w2.log.len() >= w.log.len()
            &&& w2.log.take(w.log.len() as int) == w.log
        }),
{
    let (w2, e) = worker_step(w, i);
    if i.kill {
        match w.pending {
            Some(_) => {
                lemma_push_keeps_alternating(w.log, LogEntry::Resolved(ReplyV::Cancelled));
                assert(w2.log.take(w.log.len() as int) =~= w.log);
            },
            None => {
                assert(w2.log.take(w.log.len() as int) =~= w.log);
            },
        }
    } else {
        match i.incoming {
            Some(q) => {
                assert(w.pending is None);
                if q.expects_reply() {
                    lemma_push_keeps_alternating(w.log, LogEntry::Accepted(q));
                    let log1 = w.log.push(LogEntry::Accepted(q));
                    match i.read {
                        ReadV::Chunk { text, utf8_ok, last } => {
                            if last {
                                let frame = w.buf + text;
                                let ok = w.buf_ok && utf8_ok;
                                if ok && frame_meaning(frame) is Some {
                                    lemma_push_keeps_alternating(
                                        log1,
                                        LogEntry::Resolved(
                                            ReplyV::Success(frame_meaning(frame)->Some_0),
                                        ),
                                    );
                                } else {
                                    lemma_push_keeps_alternating(
                                        log1,
                                        LogEntry::Resolved(
                                            ReplyV::Malformed {
                                                error: decode_error_text(),
                                                json: frame,
                                            },
                                        ),
                                    );
                                }
                            }
                        },
                        ReadV::Fault { .. } => {
                            lemma_push_keeps_alternating(
                                log1,
                                LogEntry::Resolved(ReplyV::Cancelled),
                            );
                        },
                        ReadV::NoData => {},
                    }
                    assert(w2.log.take(w.log.len() as int) =~= w.log);
                } else {
                    assert(w2.log.take(w.log.len() as int) =~= w.log);
                }
            },
            None => {
                match w.pending {
                    Some(_) => {
                        if deadline_passed(w, i.now_ms) {
                            lemma_push_keeps_alternating(
                                w.log,
                                LogEntry::Resolved(ReplyV::TimedOut),
                            );
                        } else {
                            match i.read {
                                ReadV::Chunk { text, utf8_ok, last } => {
                                    if last {
                                        let frame = w.buf + text;
                                        let ok = w.buf_ok && utf8_ok;
                                        if ok && frame_meaning(frame) is Some {
                                            lemma_push_keeps_alternating(
                                                w.log,
                                                LogEntry::Resolved(
                                                    ReplyV::Success(frame_meaning(frame)->Some_0),
                                                ),
                                            );
                                        } else {
                                            lemma_push_keeps_alternating(
                                                w.log,
                                                LogEntry::Resolved(
                                                    ReplyV::Malformed {
                                                        error: decode_error_text(),
                                                        json: frame,
                                                    },
                                                ),
                                            );
                                        }
                                    }
                                },
                                ReadV::Fault { .. } => {
                                    lemma_push_keeps_alternating(
                                        w.log,
                                        LogEntry::Resolved(ReplyV::Cancelled),
                                    );
                                },
                                ReadV::NoData => {},
                            }
                        }
                        assert(w2.log.take(w.log.len() as int) =~= w.log);
                    },
                    None => {
                        assert(w2.log.take(w.log.len() as int) =~= w.log);
                    },
                }
            },
        }
    }
}

/// The worker's whole life: fold one step per iteration.
pub open spec fn worker_run(w: WorkerV, inputs: Seq<InputV>) -> WorkerV
    decreases inputs.len(),
{
    if inputs.len() == 0 {
        w
    } else {
        worker_run(worker_step(w, inputs[0]).0, inputs.drop_first())
    }
}

/// Every input of a run is lawful in the state it meets.
pub open spec fn run_ok(w: WorkerV, inputs: Seq<InputV>) -> bool
    decreases inputs.len(),
{
    if inputs.len() == 0 {
        true
    } else {
        input_ok(w, inputs[0]) && run_ok(worker_step(w, inputs[0]).0, inputs.drop_first())
    }
}

/// Replies resolve in submission order. Over any lawful run the
/// history stays alternating: each resolution stands right after the
/// acceptance it answers, one acceptance is in flight at a time, and
/// none is answered twice or passed over.
pub proof fn lemma_replies_in_submission_order(w: WorkerV, inputs: Seq<InputV>)
    requires
        worker_wf(w),
        run_ok(w, inputs),
    ensures
        worker_wf(worker_run(w, inputs)),
        log_alternating(worker_run(w, inputs).log),
    decreases inputs.len(),
{
    if inputs.len() > 0 {
        lemma_step_preserves_wf(w, inputs[0]);
        lemma_replies_in_submission_order(worker_step(w, inputs[0]).0, inputs.drop_first());
    }
}

/// A reply in flight is never dropped silently: a step either keeps
/// it in flight or resolves it, and when it resolves it leaves the
/// in-flight slot in the same step.
pub proof fn lemma_no_reply_lost(w: WorkerV, i: InputV)
    requires
        input_ok(w, i),
        w.pending is Some,
    ensures
        ({
            let (w2, e) = worker_step(w, i);
            &&& (w2.pending == w.pending && e.reply is None) || (w2.pending is None
                && e.reply is Some)
        }),
{
}

/// Progress: the step that observes kill, a port fault, a completed
/// frame, or a passed deadline resolves the in-flight reply then and
/// there. With the poll cadence bounded and the deadline finite, every
/// reply-expecting request resolves — with the response, a timeout, a
/// decode failure, or a cancellation.
pub proof fn lemma_step_progress(w: WorkerV, i: InputV)
    requires
        input_ok(w, i),
        w.pending is Some,
        i.kill || (i.read is Fault) || deadline_passed(w, i.now_ms) || (i.read matches ReadV::Chunk
            { last: true, .. }),
    ensures
        worker_step(w, i).1.reply is Some,
        worker_step(w, i).0.pending is None,
{
}

/// A late frame answers nothing. When the in-flight request's deadline
/// has passed by the time a frame completes, that step resolves the
/// reply as timed out — never with the frame — and the frame goes to
/// the sinks as unsolicited; a request submitted later cannot have it
/// either, since nothing is dequeued while a request is in flight.
pub proof fn lemma_stale_frame_not_misattributed(
    w: WorkerV,
    i: InputV,
    text: Seq<char>,
    utf8_ok: bool,
)
    requires
        input_ok(w, i),
        !i.kill,
        w.pending is Some,
        deadline_passed(w, i.now_ms),
        i.read == (ReadV::Chunk { text, utf8_ok, last: true }),
    ensures
        ({
            let (w2, e) = worker_step(w, i);
            let frame = w.buf + text;
            &&& e.reply == Some(ReplyV::TimedOut)
            &&& w2.pending is None
            &&& e.write_frame is None
            &&& ((w.buf_ok && utf8_ok && frame_meaning(frame) is Some) ==> e.events == seq![
                route_unsolicited(frame_meaning(frame)->Some_0),
            ])
        }),
{
}

/// Stopping resolves what is in flight: the step that observes the
/// kill flag resolves the pending reply as cancelled in the same step
/// in which it stops, so the worker never exits with a caller left
/// waiting; the stop's join completes only after that.
pub proof fn lemma_kill_cancels_pending(w: WorkerV, i: InputV)
    requires
        i.kill,
        w.pending is Some,
    ensures
        ({
            let (w2, e) = worker_step(w, i);
            &&& e.reply == Some(ReplyV::Cancelled)
            &&& e.outcome == StepOutcome::Stopped
            &&& w2.pending is None
            &&& w2.done
        }),
{
}

/// How many replies have resolved so far.
pub open spec fn resolved_count(log: Seq<LogEntry>) -> int
    decreases log.len(),
{
    if log.len() == 0 {
        0
    } else {
        resolved_count(log.drop_last()) + if log.last() is Resolved {
            1int
        } else {
            0int
        }
    }
}

/// A prefix has resolved at most as many replies as the whole.
proof fn lemma_resolved_count_prefix(log: Seq<LogEntry>, n: int)
    requires
        0 <= n <= log.len(),
    ensures
        resolved_count(log) >= resolved_count(log.take(n)),
    decreases log.len(),
{
    if n == log.len() {
        assert(log.take(n) =~= log);
    } else {
        assert(log.drop_last().take(n) =~= log.take(n));
        lemma_resolved_count_prefix(log.drop_last(), n);
    }
}

/// A step never loses a resolution from the count.
proof fn lemma_step_resolved_monotone(w: WorkerV, i: InputV)
    requires
        worker_wf(w),
        input_ok(w, i),
    ensures
        resolved_count(worker_step(w, i).0.log) >= resolved_count(w.log),
{
    let w2 = worker_step(w, i).0;
    lemma_step_preserves_wf(w, i);
    lemma_resolved_count_prefix(w2.log, w.log.len() as int);
}

/// The step that takes the in-flight request out of its slot adds a
/// resolution to the history.
proof fn lemma_step_resolution_counted(w: WorkerV, i: InputV)
    requires
        worker_wf(w),
        input_ok(w, i),
        w.pending is Some,
        worker_step(w, i).0.pending is None,
    ensures
        resolved_count(worker_step(w, i).0.log) > resolved_count(w.log),
{
    let w2 = worker_step(w, i).0;
    lemma_step_preserves_wf(w, i);
    let n = w.log.len() as int;
    assert(w2.log.len() % 2 == 0);
    assert(w2.log.len() >= n + 1);
    assert(w2.log[n] is Resolved);
    let front = w2.log.take(n + 1);
    assert(front.drop_last() =~= w2.log.take(n));
    assert(front.last() == w2.log[n]);
    assert(resolved_count(front) == resolved_count(w.log) + 1);
    lemma_resolved_count_prefix(w2.log, n + 1);
}

/// The step function never touches the configured deadline.
proof fn lemma_step_keeps_timeout(w: WorkerV, i: InputV)
    ensures
        worker_step(w, i).0.timeout_ms == w.timeout_ms,
{
}

/// Every reply-expecting request resolves. If a lawful run meets any
/// of the resolving triggers while the request is in flight — the
/// kill flag, a port fault, a clock past the request's deadline, or a
/// completed frame — then by the run's end one further reply has
/// resolved; by the half-duplex discipline it is the in-flight one.
/// With the poll cadence bounded, the clock alone guarantees such a
/// step by the deadline plus one poll interval: a send never hangs.
pub proof fn lemma_send_eventually_resolves(
    w: WorkerV,
    inputs: Seq<InputV>,
    k: int,
    p: crate::worker::PendingV,
)
    requires
        worker_wf(w),
        run_ok(w, inputs),
        w.pending == Some(p),
        0 <= k < inputs.len(),
        inputs[k].kill || (inputs[k].read is Fault) || inputs[k].now_ms > p.issued_at_ms
            + w.timeout_ms || (inputs[k].read matches ReadV::Chunk { last: true, .. }),
    ensures
        resolved_count(worker_run(w, inputs).log) > resolved_count(w.log),
    decreases inputs.len(),
{
    let i0 = inputs[0];
    let w2 = worker_step(w, i0).0;
    let rest = inputs.drop_first();
    lemma_step_preserves_wf(w, i0);
    lemma_no_reply_lost(w, i0);
    if w2.pending is None {
        lemma_step_resolution_counted(w, i0);
        lemma_run_resolved_monotone(w2, rest);
    } else {
        assert(w2.pending == w.pending);
        if k == 0 {
            if i0.now_ms > p.issued_at_ms + w.timeout_ms {
                assert(deadline_passed(w, i0.now_ms));
            }
            lemma_step_progress(w, i0);
            assert(false);
        } else {
            lemma_step_keeps_timeout(w, i0);
            assert(rest[k - 1] == inputs[k]);
            lemma_send_eventually_resolves(w2, rest, k - 1, p);
            lemma_step_resolved_monotone(w, i0);
        }
    }
}

/// Over a lawful run the resolution count never drops.
pub proof fn lemma_run_resolved_monotone(w: WorkerV, inputs: Seq<InputV>)
    requires
        worker_wf(w),
        run_ok(w, inputs),
    ensures
        resolved_count(worker_run(w, inputs).log) >= resolved_count(w.log),
    decreases inputs.len(),
{
    if inputs.len() > 0 {
        lemma_step_preserves_wf(w, inputs[0]);
        lemma_step_resolved_monotone(w, inputs[0]);
        lemma_run_resolved_monotone(worker_step(w, inputs[0]).0, inputs.drop_first());
    }
}

// ---------------------------------------------------------------------------
// Lifecycle law
// ---------------------------------------------------------------------------

/// A sequence of lifecycle transitions, each enabled where it fires.
pub open spec fn life_run_enabled(s: SessionManager, es: Seq<LifeEvent>) -> bool
    decreases es.len(),
{
    if es.len() == 0 {
        true
    } else {
        life_enabled(s, es[0]) && life_run_enabled(life_step(s, es[0]), es.drop_first())
    }
}

/// Where a sequence of lifecycle transitions lands.
pub open spec fn life_run(s: SessionManager, es: Seq<LifeEvent>) -> SessionManager
    decreases es.len(),
{
    if es.len() == 0 {
        s
    } else {
        life_run(life_step(s, es[0]), es.drop_first())
    }
}

/// Starting over an active session joins the old worker first. From a
/// running session, any lawful sequence of lifecycle transitions that
/// installs a newer worker passes through a completed stop: the old
/// worker's thread is joined before the new one exists to touch the
/// port.
pub proof fn lemma_restart_joins_old_worker(s: SessionManager, es: Seq<LifeEvent>)
    requires
        s.phase is Running || s.phase is Stopping,
        life_run_enabled(s, es),
        life_run(s, es).generation > s.generation,
    ensures
        exists|k: int| 0 <= k < es.len() && (es[k] is StopFinish),
    decreases es.len(),
{
    if es.len() == 0 {
    } else {
        let e0 = es[0];
        let s1 = life_step(s, e0);
        match e0 {
            LifeEvent::StopBegin => {
                lemma_restart_joins_old_worker(s1, es.drop_first());
                let k0 = choose|k: int|
                    0 <= k < es.drop_first().len() && (es.drop_first()[k] is StopFinish);
                assert(es[k0 + 1] is StopFinish);
            },
            LifeEvent::StopFinish(_) => {
                assert(es[0] is StopFinish);
            },
            LifeEvent::StartClear => {
                assert(false);
            },
            LifeEvent::StartInstall => {
                assert(false);
            },
        }
    }
}

} // verus!

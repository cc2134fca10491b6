//! The comms worker: one polling iteration at a time.
//!
//! The worker owns the serial conversation. Each iteration it observes
//! the kill flag, at most one newly dequeued request, the clock, and
//! what one poll of the port produced, and decides everything else:
//! what to write, how to resolve the in-flight reply, which events to
//! emit, and whether to keep running. The whole decision is a spec
//! function, [`worker_step`]; the executable [`Worker::step`] is proved
//! to agree with it exactly. The surrounding application performs the
//! I/O the decisions call for.

use vstd::prelude::*;
use vstd::string::StringExecFns;
use crate::messages::{DongleRequest, DongleResponse, KeyDotErrors, RequestV, ResponseV, ErrorV};
use crate::messages::RFID;
use crate::codec::{encode_request, decode_response, request_json, frame_meaning};

verus! {

/// Default deadline for a reply, in milliseconds.
pub const REQUEST_TIMEOUT_MS: u64 = 5000;

/// One request in flight, with the time it was written.
pub struct PendingRequest {
    pub request: DongleRequest,
    pub issued_at_ms: u64,
}

/// Spec-level image of [`PendingRequest`].
pub struct PendingV {
    pub request: RequestV,
    pub issued_at_ms: u64,
}

impl View for PendingRequest {
    type V = PendingV;

    open spec fn view(&self) -> PendingV {
        PendingV { request: self.request@, issued_at_ms: self.issued_at_ms }
    }
}

/// What one poll of the port produced.
pub enum PortRead {
    /// Nothing to read.
    NoData,
    /// Some text of a burst arrived; `last` marks the end of the
    /// burst, which closes one frame. `utf8_ok` says whether the raw
    /// bytes were valid text; if not, `text` carries a best-effort
    /// rendering for diagnostics.
    Chunk { text: String, utf8_ok: bool, last: bool },
    /// The read itself failed: the port is gone.
    Fault { error: String },
}

/// Spec-level image of [`PortRead`].
pub enum ReadV {
    NoData,
    Chunk { text: Seq<char>, utf8_ok: bool, last: bool },
    Fault { error: Seq<char> },
}

impl View for PortRead {
    type V = ReadV;

    open spec fn view(&self) -> ReadV {
        match self {
            PortRead::NoData => ReadV::NoData,
            PortRead::Chunk { text, utf8_ok, last } => ReadV::Chunk {
                text: text@,
                utf8_ok: *utf8_ok,
                last: *last,
            },
            PortRead::Fault { error } => ReadV::Fault { error: error@ },
        }
    }
}

/// Everything one polling iteration observes.
pub struct StepInput {
    /// The kill flag, read at the top of the iteration.
    pub kill: bool,
    /// A request freshly dequeued from the channel, if the worker was
    /// idle and one was waiting.
    pub incoming: Option<DongleRequest>,
    /// The clock, in milliseconds, monotone across iterations.
    pub now_ms: u64,
    /// What the port poll produced.
    pub read: PortRead,
}

/// Spec-level image of [`StepInput`].
pub struct InputV {
    pub kill: bool,
    pub incoming: Option<RequestV>,
    pub now_ms: u64,
    pub read: ReadV,
}

impl View for StepInput {
    type V = InputV;

    open spec fn view(&self) -> InputV {
        InputV {
            kill: self.kill,
            incoming: match &self.incoming {
                Some(q) => Some(q@),
                None => None,
            },
            now_ms: self.now_ms,
            read: self.read@,
        }
    }
}

/// How one pending reply was resolved; handed to the caller exactly
/// once per reply-expecting request.
#[derive(Debug)]
pub enum ReplyOutcome {
    /// The decoded response.
    Success(DongleResponse),
    /// No frame arrived within the deadline.
    TimedOut,
    /// A frame arrived but was not a well-formed response; carries the
    /// raw text for diagnosis.
    Malformed { error: String, json: String },
    /// The session was torn down while the request was in flight.
    Cancelled,
}

/// Spec-level image of [`ReplyOutcome`].
pub enum ReplyV {
    Success(ResponseV),
    TimedOut,
    Malformed { error: Seq<char>, json: Seq<char> },
    Cancelled,
}

impl View for ReplyOutcome {
    type V = ReplyV;

    open spec fn view(&self) -> ReplyV {
        match self {
            ReplyOutcome::Success(r) => ReplyV::Success(r@),
            ReplyOutcome::TimedOut => ReplyV::TimedOut,
            ReplyOutcome::Malformed { error, json } => ReplyV::Malformed {
                error: error@,
                json: json@,
            },
            ReplyOutcome::Cancelled => ReplyV::Cancelled,
        }
    }
}

/// An event for the application's sinks; tag detections go to their
/// own sink, all else to the generic ones.
#[derive(Debug)]
pub enum WorkerEvent {
    /// An unsolicited tag detection.
    TagDetected(RFID),
    /// Any other response that answers no pending request.
    UnsolicitedResponse(DongleResponse),
    /// The port read failed; the worker stops after this.
    PortFailure(KeyDotErrors),
    /// Diagnostic for a frame that was not a well-formed response.
    MalformedFrame(KeyDotErrors),
}

/// Spec-level image of [`WorkerEvent`].
pub enum EventV {
    Tag(u64),
    Unsolicited(ResponseV),
    PortFailure(ErrorV),
    Malformed(ErrorV),
}

impl View for WorkerEvent {
    type V = EventV;

    open spec fn view(&self) -> EventV {
        match self {
            WorkerEvent::TagDetected(r) => EventV::Tag(r@),
            WorkerEvent::UnsolicitedResponse(r) => EventV::Unsolicited(r@),
            WorkerEvent::PortFailure(e) => EventV::PortFailure(e@),
            WorkerEvent::MalformedFrame(e) => EventV::Malformed(e@),
        }
    }
}

/// Whether the worker keeps running after a step.
#[derive(PartialEq, Eq, Structural, Debug, Clone, Copy)]
pub enum StepOutcome {
    /// Keep polling.
    Continue,
    /// The kill flag was observed; the worker is done, successfully.
    Stopped,
    /// The port failed; the worker is done, with an error.
    Failed,
}

/// What the application must carry out after one step, in order:
/// write the frame, resolve the reply, emit the events.
pub struct StepEffects {
    /// A serialized request to write to the port.
    pub write_frame: Option<String>,
    /// The resolution of the in-flight reply, if one resolved now.
    pub reply: Option<ReplyOutcome>,
    /// Events for the application's sinks.
    pub events: Vec<WorkerEvent>,
    /// Whether to keep polling.
    pub outcome: StepOutcome,
}

/// Spec-level image of [`StepEffects`].
#[verifier::ext_equal]
pub struct EffectsV {
    pub write_frame: Option<Seq<char>>,
    pub reply: Option<ReplyV>,
    pub events: Seq<EventV>,
    pub outcome: StepOutcome,
}

impl View for StepEffects {
    type V = EffectsV;

    open spec fn view(&self) -> EffectsV {
        EffectsV {
            write_frame: match &self.write_frame {
                Some(f) => Some(f@),
                None => None,
            },
            reply: match &self.reply {
                Some(r) => Some(r@),
                None => None,
            },
            events: self.events.deep_view(),
            outcome: self.outcome,
        }
    }
}

impl DeepView for WorkerEvent {
    type V = EventV;

    open spec fn deep_view(&self) -> EventV {
        self.view()
    }
}

/// The reply discipline, recorded: one entry when a reply-expecting
/// request is accepted, one when its reply resolves.
pub enum LogEntry {
    Accepted(RequestV),
    Resolved(ReplyV),
}

/// The worker's state between polling iterations.
pub struct Worker {
    /// The reply deadline this session was configured with.
    pub timeout_ms: u64,
    /// The at-most-one request awaiting its reply.
    pub pending: Option<PendingRequest>,
    /// Text of the burst being accumulated.
    pub buf: String,
    /// Whether every chunk of the current burst was valid text.
    pub buf_ok: bool,
    /// Set once the worker has observed kill or a port fault.
    pub done: bool,
    /// History of acceptances and resolutions.
    pub log: Ghost<Seq<LogEntry>>,
}

/// Spec-level image of [`Worker`].
#[verifier::ext_equal]
pub struct WorkerV {
    pub timeout_ms: u64,
    pub pending: Option<PendingV>,
    pub buf: Seq<char>,
    pub buf_ok: bool,
    pub done: bool,
    pub log: Seq<LogEntry>,
}

impl View for Worker {
    type V = WorkerV;

    open spec fn view(&self) -> WorkerV {
        WorkerV {
            timeout_ms: self.timeout_ms,
            pending: match &self.pending {
                Some(p) => Some(p@),
                None => None,
            },
            buf: self.buf@,
            buf_ok: self.buf_ok,
            done: self.done,
            log: self.log@,
        }
    }
}

// ---------------------------------------------------------------------------
// The transition function
// ---------------------------------------------------------------------------

/// Time elapsed since a request was issued; a clock that went
/// backwards counts as no time passed.
pub open spec fn elapsed_ms(now: u64, issued: u64) -> int {
    if now >= issued {
        now - issued
    } else {
        0
    }
}

/// Whether the in-flight request's deadline has passed.
pub open spec fn deadline_passed(w: WorkerV, now: u64) -> bool {
    match w.pending {
        Some(p) => elapsed_ms(now, p.issued_at_ms) > w.timeout_ms,
        None => false,
    }
}

/// The diagnostic text attached to an undecodable frame.
pub open spec fn decode_error_text() -> Seq<char> {
    "not a well-formed dongle response frame"@
}

/// Where a response with no pending request is routed.
pub open spec fn route_unsolicited(r: ResponseV) -> EventV {
    match r {
        ResponseV::Rfid(n) => EventV::Tag(n),
        _ => EventV::Unsolicited(r),
    }
}

/// Kill observed: resolve any in-flight reply as cancelled and stop.
pub open spec fn step_kill(w: WorkerV) -> (WorkerV, EffectsV) {
    let w2 = WorkerV { pending: None, done: true, ..w };
    match w.pending {
        Some(_) => (
            WorkerV { log: w.log.push(LogEntry::Resolved(ReplyV::Cancelled)), ..w2 },
            EffectsV {
                write_frame: None,
                reply: Some(ReplyV::Cancelled),
                events: Seq::empty(),
                outcome: StepOutcome::Stopped,
            },
        ),
        None => (
            w2,
            EffectsV {
                write_frame: None,
                reply: None,
                events: Seq::empty(),
                outcome: StepOutcome::Stopped,
            },
        ),
    }
}

/// A freshly dequeued request: serialize it for the port; if it
/// expects a reply it becomes the in-flight request, stamped now.
pub open spec fn step_accept(w: WorkerV, incoming: Option<RequestV>, now: u64) -> (
    WorkerV,
    Option<Seq<char>>,
) {
    match incoming {
        Some(q) => if q.expects_reply() {
            (
                WorkerV {
                    pending: Some(PendingV { request: q, issued_at_ms: now }),
                    log: w.log.push(LogEntry::Accepted(q)),
                    ..w
                },
                Some(request_json(q)),
            )
        } else {
            (w, Some(request_json(q)))
        },
        None => (w, None),
    }
}

/// A stale in-flight request: resolve its reply as timed out, before
/// any read, so a late frame cannot be taken for its answer.
pub open spec fn step_timeout(w: WorkerV, now: u64) -> (WorkerV, Option<ReplyV>) {
    if deadline_passed(w, now) {
        (
            WorkerV {
                pending: None,
                log: w.log.push(LogEntry::Resolved(ReplyV::TimedOut)),
                ..w
            },
            Some(ReplyV::TimedOut),
        )
    } else {
        (w, None)
    }
}

/// The first of two reply resolutions; at most one is ever present.
pub open spec fn first_reply(a: Option<ReplyV>, b: Option<ReplyV>) -> Option<ReplyV> {
    match a {
        Some(_) => a,
        None => b,
    }
}

/// A completed burst: one decode attempt, then the buffer is cleared
/// whatever happened.
pub open spec fn step_decode(w: WorkerV, frame: Seq<char>, frame_ok: bool) -> (
    WorkerV,
    Option<ReplyV>,
    Seq<EventV>,
) {
    let cleared = WorkerV { buf: Seq::empty(), buf_ok: true, ..w };
    if frame_ok && frame_meaning(frame) is Some {
        let resp = frame_meaning(frame)->Some_0;
        match w.pending {
            Some(_) => (
                WorkerV {
                    pending: None,
                    log: cleared.log.push(LogEntry::Resolved(ReplyV::Success(resp))),
                    ..cleared
                },
                Some(ReplyV::Success(resp)),
                Seq::empty(),
            ),
            None => (cleared, None, seq![route_unsolicited(resp)]),
        }
    } else {
        let diag = EventV::Malformed(
            ErrorV::UndigestableJson { error: decode_error_text(), json: frame },
        );
        match w.pending {
            Some(_) => (
                WorkerV {
                    pending: None,
                    log: cleared.log.push(
                        LogEntry::Resolved(
                            ReplyV::Malformed { error: decode_error_text(), json: frame },
                        ),
                    ),
                    ..cleared
                },
                Some(ReplyV::Malformed { error: decode_error_text(), json: frame }),
                seq![diag],
            ),
            None => (cleared, None, seq![diag]),
        }
    }
}

/// One whole polling iteration: kill check, accept, timeout check,
/// then the read and its decode.
pub open spec fn worker_step(w: WorkerV, i: InputV) -> (WorkerV, EffectsV) {
    if i.kill {
        step_kill(w)
    } else {
        let (w1, wr) = step_accept(w, i.incoming, i.now_ms);
        let (w2, treply) = step_timeout(w1, i.now_ms);
        match i.read {
            ReadV::NoData => (
                w2,
                EffectsV {
                    write_frame: wr,
                    reply: treply,
                    events: Seq::empty(),
                    outcome: StepOutcome::Continue,
                },
            ),
            ReadV::Fault { error } => {
                let cancelled: Option<ReplyV> = match w2.pending {
                    Some(_) => Some(ReplyV::Cancelled),
                    None => None,
                };
                let w3 = WorkerV {
                    pending: None,
                    done: true,
                    log: match w2.pending {
                        Some(_) => w2.log.push(LogEntry::Resolved(ReplyV::Cancelled)),
                        None => w2.log,
                    },
                    ..w2
                };
                (
                    w3,
                    EffectsV {
                        write_frame: wr,
                        reply: first_reply(treply, cancelled),
                        events: seq![
                            EventV::PortFailure(ErrorV::NoPortConnection { error: error }),
                        ],
                        outcome: StepOutcome::Failed,
                    },
                )
            },
            ReadV::Chunk { text, utf8_ok, last } => {
                let w3 = WorkerV {
                    buf: w2.buf + text,
                    buf_ok: w2.buf_ok && utf8_ok,
                    ..w2
                };
                if !last {
                    (
                        w3,
                        EffectsV {
                            write_frame: wr,
                            reply: treply,
                            events: Seq::empty(),
                            outcome: StepOutcome::Continue,
                        },
                    )
                } else {
                    let (w4, dreply, events) = step_decode(w3, w3.buf, w3.buf_ok);
                    (
                        w4,
                        EffectsV {
                            write_frame: wr,
                            reply: first_reply(treply, dreply),
                            events: events,
                            outcome: StepOutcome::Continue,
                        },
                    )
                }
            },
        }
    }
}

// ---------------------------------------------------------------------------
// The executable worker
// ---------------------------------------------------------------------------

impl Worker {
    /// A worker for a fresh session, with the given reply deadline.
    pub fn new(timeout_ms: u64) -> (w: Worker)
        ensures
            w@ == (WorkerV {
                timeout_ms,
                pending: None,
                buf: Seq::empty(),
                buf_ok: true,
                done: false,
                log: Seq::empty(),
            }),
    {
        Worker {
            timeout_ms,
            pending: None,
            buf: String::new(),
            buf_ok: true,
            done: false,
            log: Ghost(Seq::empty()),
        }
    }

    /// Whether a request is in flight; while one is, the worker does
    /// not dequeue further requests.
    pub fn awaiting_reply(&self) -> (b: bool)
        ensures
            b == (self@.pending is Some),
    {
        self.pending.is_some()
    }

    /// Whether the worker has observed kill or a port fault.
    pub fn is_done(&self) -> (b: bool)
        ensures
            b == self@.done,
    {
        self.done
    }

    /// One polling iteration; carries out [`worker_step`] exactly.
    ///
    /// A new request may be handed in only while none is in flight:
    /// the protocol is half-duplex with at most one outstanding
    /// request.
    pub fn step(&mut self, input: StepInput) -> (eff: StepEffects)
        requires
            !old(self)@.done,
            old(self)@.pending is Some ==> input.incoming is None,
        ensures
            (final(self)@, eff@) == worker_step(old(self)@, input@),
    {
        let StepInput { kill, incoming, now_ms, read } = input;
        if kill {
            let reply = if self.pending.is_some() {
                self.pending = None;
                proof {
                    self.log@ = self.log@.push(LogEntry::Resolved(ReplyV::Cancelled));
                }
                Some(ReplyOutcome::Cancelled)
            } else {
                None
            };
            self.done = true;
            let eff = StepEffects {
                write_frame: None,
                reply,
                events: Vec::new(),
                outcome: StepOutcome::Stopped,
            };
            proof {
                assert(eff@.events =~= Seq::<EventV>::empty());
                assert((final(self)@, eff@) =~~= worker_step(old(self)@, input@));
            }
            return eff;
        }
        // A fresh request: write it, and track it if it expects a reply.
        let write_frame = match incoming {
            Some(q) => {
                let frame = encode_request(&q);
                if q.has_response() {
                    proof {
                        self.log@ = self.log@.push(LogEntry::Accepted(q@));
                    }
                    self.pending = Some(PendingRequest { request: q, issued_at_ms: now_ms });
                }
                Some(frame)
            },
            None => None,
        };
        // The stale check comes before the read: a late frame must not
        // be taken for the answer of a request that already timed out.
        let mut treply: Option<ReplyOutcome> = None;
        let timed_out = match &self.pending {
            Some(p) => now_ms >= p.issued_at_ms && now_ms - p.issued_at_ms > self.timeout_ms,
            None => false,
        };
        if timed_out {
            self.pending = None;
            proof {
                self.log@ = self.log@.push(LogEntry::Resolved(ReplyV::TimedOut));
            }
            treply = Some(ReplyOutcome::TimedOut);
        }
        match read {
            PortRead::NoData => {
                let eff = StepEffects {
                    write_frame,
                    reply: treply,
                    events: Vec::new(),
                    outcome: StepOutcome::Continue,
                };
                proof {
                    assert(eff@.events =~= Seq::<EventV>::empty());
                    assert((final(self)@, eff@) =~~= worker_step(old(self)@, input@));
                }
                eff
            },
            PortRead::Fault { error } => {
                let reply = if self.pending.is_some() {
                    self.pending = None;
                    proof {
                        self.log@ = self.log@.push(LogEntry::Resolved(ReplyV::Cancelled));
                    }
                    Some(ReplyOutcome::Cancelled)
                } else {
                    treply
                };
                self.done = true;
                let mut events: Vec<WorkerEvent> = Vec::new();
                events.push(
                    WorkerEvent::PortFailure(KeyDotErrors::NoPortConnection { error }),
                );
                let eff = StepEffects {
                    write_frame,
                    reply,
                    events,
                    outcome: StepOutcome::Failed,
                };
                proof {
                    assert(eff@.events =~= worker_step(old(self)@, input@).1.events);
                    assert((final(self)@, eff@) =~~= worker_step(old(self)@, input@));
                }
                eff
            },
            PortRead::Chunk { text, utf8_ok, last } => {
                self.buf.append(text.as_str());
                self.buf_ok = self.buf_ok && utf8_ok;
                if !last {
                    let eff = StepEffects {
                        write_frame,
                        reply: treply,
                        events: Vec::new(),
                        outcome: StepOutcome::Continue,
                    };
                    proof {
                        assert(eff@.events =~= Seq::<EventV>::empty());
                        assert((final(self)@, eff@) =~~= worker_step(old(self)@, input@));
                    }
                    eff
                } else {
                    let frame = self.buf.clone();
                    let frame_ok = self.buf_ok;
                    self.buf = String::new();
                    self.buf_ok = true;
                    let mut events: Vec<WorkerEvent> = Vec::new();
                    let mut reply: Option<ReplyOutcome> = treply;
                    let decoded = if frame_ok {
                        decode_response(frame.as_str())
                    } else {
                        None
                    };
                    match decoded {
                        Some(resp) => {
                            if self.pending.is_some() {
                                self.pending = None;
                                proof {
                                    self.log@ = self.log@.push(
                                        LogEntry::Resolved(ReplyV::Success(resp@)),
                                    );
                                }
                                reply = Some(ReplyOutcome::Success(resp));
                            } else {
                                match resp {
                                    DongleResponse::RFIDDetected(r) => {
                                        events.push(WorkerEvent::TagDetected(r));
                                    },
                                    other => {
                                        events.push(WorkerEvent::UnsolicitedResponse(other));
                                    },
                                }
                            }
                        },
                        None => {
                            let diag = KeyDotErrors::UndigestableJson {
                                error: String::from_str(
                                    "not a well-formed dongle response frame",
                                ),
                                json: frame.clone(),
                            };
                            if self.pending.is_some() {
                                self.pending = None;
                                proof {
                                    self.log@ = self.log@.push(
                                        LogEntry::Resolved(
                                            ReplyV::Malformed {
                                                error: decode_error_text(),
                                                json: frame@,
                                            },
                                        ),
                                    );
                                }
                                reply = Some(
                                    ReplyOutcome::Malformed {
                                        error: String::from_str(
                                            "not a well-formed dongle response frame",
                                        ),
                                        json: frame,
                                    },
                                );
                            }
                            events.push(WorkerEvent::MalformedFrame(diag));
                        },
                    }
                    let eff = StepEffects {
                        write_frame,
                        reply,
                        events,
                        outcome: StepOutcome::Continue,
                    };
                    proof {
                        assert(eff@.events =~= worker_step(old(self)@, input@).1.events);
                        assert((final(self)@, eff@) =~~= worker_step(old(self)@, input@));
                    }
                    eff
                }
            },
        }
    }
}

} // verus!

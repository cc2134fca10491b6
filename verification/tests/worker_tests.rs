use keydot_serial::messages::{DongleRequest, DongleResponse, KeyDotErrors, NewCard};
use keydot_serial::worker::{
    PortRead, ReplyOutcome, StepInput, StepOutcome, Worker, WorkerEvent, REQUEST_TIMEOUT_MS,
};

fn idle_input(now_ms: u64) -> StepInput {
    StepInput { kill: false, incoming: None, now_ms, read: PortRead::NoData }
}

fn frame_input(now_ms: u64, text: &str) -> StepInput {
    StepInput {
        kill: false,
        incoming: None,
        now_ms,
        read: PortRead::Chunk { text: text.to_string(), utf8_ok: true, last: true },
    }
}

#[test]
fn fetch_descriptions_resolves_in_order() {
    // Submit "fetch descriptions"; the device answers within 1s with
    // two entries; the reply resolves Ok with both, in device order.
    let mut w = Worker::new(REQUEST_TIMEOUT_MS);
    let eff = w.step(StepInput {
        kill: false,
        incoming: Some(DongleRequest::GetPasswordDescriptionsAndSwitchReader),
        now_ms: 0,
        read: PortRead::NoData,
    });
    assert_eq!(
        eff.write_frame.as_deref(),
        Some("{\"request_type\":\"get_pass_descs\"}")
    );
    assert!(eff.reply.is_none());
    assert!(w.awaiting_reply());

    let eff = w.step(frame_input(
        800,
        "{\"response_type\":\"get_pass_descs\",\"descriptions\":[{\"name\":\"home\",\"rfid\":7},{\"name\":\"work\",\"rfid\":9}]}",
    ));
    match eff.reply {
        Some(ReplyOutcome::Success(DongleResponse::SendPasswordDescriptions(d))) => {
            assert_eq!(d.descriptions.len(), 2);
            assert_eq!(d.descriptions[0].name, "home");
            assert_eq!(d.descriptions[1].name, "work");
        }
        other => panic!("unexpected reply: {:?}", other),
    }
    assert!(!w.awaiting_reply());
    assert!(eff.events.is_empty());
    assert!(matches!(eff.outcome, StepOutcome::Continue));
}

#[test]
fn provisioning_times_out_after_deadline_not_before() {
    // Submit "provision new credential"; the device never answers; the
    // reply resolves as timed out only once the deadline has passed.
    let mut w = Worker::new(REQUEST_TIMEOUT_MS);
    let eff = w.step(StepInput {
        kill: false,
        incoming: Some(DongleRequest::NewCard(NewCard {
            name: "alice".to_string(),
            password: "s3cret".to_string(),
        })),
        now_ms: 100,
        read: PortRead::NoData,
    });
    assert_eq!(
        eff.write_frame.as_deref(),
        Some("{\"request_type\":\"send_new_card\",\"name\":\"alice\",\"password\":\"s3cret\"}")
    );

    // Not before: at or under the deadline nothing resolves.
    let eff = w.step(idle_input(100 + REQUEST_TIMEOUT_MS));
    assert!(eff.reply.is_none());
    assert!(w.awaiting_reply());

    // One tick past the deadline resolves the reply as timed out.
    let eff = w.step(idle_input(100 + REQUEST_TIMEOUT_MS + 1));
    assert!(matches!(eff.reply, Some(ReplyOutcome::TimedOut)));
    assert!(!w.awaiting_reply());
    assert!(matches!(eff.outcome, StepOutcome::Continue));
}

#[test]
fn unsolicited_tag_goes_to_tag_sink() {
    // A tag detection with no request pending reaches the tag sink,
    // not the generic response sink.
    let mut w = Worker::new(REQUEST_TIMEOUT_MS);
    let eff = w.step(frame_input(
        10,
        "{\"response_type\":\"detected_rfid\",\"rfid\":31337}",
    ));
    assert!(eff.reply.is_none());
    assert_eq!(eff.events.len(), 1);
    match &eff.events[0] {
        WorkerEvent::TagDetected(r) => assert_eq!(r.rfid, 31337),
        other => panic!("unexpected event: {:?}", other),
    }
}

#[test]
fn unsolicited_confirm_goes_to_generic_sink() {
    let mut w = Worker::new(REQUEST_TIMEOUT_MS);
    let eff = w.step(frame_input(10, "{\"response_type\":\"send_new_card\"}"));
    assert!(eff.reply.is_none());
    assert_eq!(eff.events.len(), 1);
    assert!(matches!(
        &eff.events[0],
        WorkerEvent::UnsolicitedResponse(DongleResponse::ConfirmNewCard)
    ));
}

#[test]
fn malformed_frame_fails_pending_and_clears_buffer() {
    // Truncated bytes while a request is pending: the reply resolves
    // as malformed, carrying the raw text; the next valid frame is
    // parsed cleanly, so nothing bled over.
    let mut w = Worker::new(REQUEST_TIMEOUT_MS);
    w.step(StepInput {
        kill: false,
        incoming: Some(DongleRequest::GetPasswordDescriptionsAndSwitchReader),
        now_ms: 0,
        read: PortRead::NoData,
    });
    let eff = w.step(frame_input(50, "{\"response_type\":\"get_pa"));
    match eff.reply {
        Some(ReplyOutcome::Malformed { json, .. }) => {
            assert_eq!(json, "{\"response_type\":\"get_pa");
        }
        other => panic!("unexpected reply: {:?}", other),
    }
    assert_eq!(eff.events.len(), 1);
    match &eff.events[0] {
        WorkerEvent::MalformedFrame(KeyDotErrors::UndigestableJson { json, .. }) => {
            assert_eq!(json, "{\"response_type\":\"get_pa");
        }
        other => panic!("unexpected event: {:?}", other),
    }
    assert!(!w.awaiting_reply());

    // The buffer was cleared: a following valid frame decodes.
    let eff = w.step(frame_input(60, "{\"response_type\":\"detected_rfid\",\"rfid\":1}"));
    assert_eq!(eff.events.len(), 1);
    assert!(matches!(&eff.events[0], WorkerEvent::TagDetected(_)));
}

#[test]
fn burst_accumulates_across_chunks() {
    let mut w = Worker::new(REQUEST_TIMEOUT_MS);
    let part = |text: &str, last| PortRead::Chunk {
        text: text.to_string(),
        utf8_ok: true,
        last,
    };
    let eff = w.step(StepInput {
        kill: false,
        incoming: None,
        now_ms: 0,
        read: part("{\"response_type\":\"detected", false),
    });
    assert!(eff.events.is_empty());
    let eff = w.step(StepInput {
        kill: false,
        incoming: None,
        now_ms: 1,
        read: part("_rfid\",\"rfid\":8}", true),
    });
    assert_eq!(eff.events.len(), 1);
    match &eff.events[0] {
        WorkerEvent::TagDetected(r) => assert_eq!(r.rfid, 8),
        other => panic!("unexpected event: {:?}", other),
    }
}

#[test]
fn invalid_text_burst_is_malformed() {
    let mut w = Worker::new(REQUEST_TIMEOUT_MS);
    let eff = w.step(StepInput {
        kill: false,
        incoming: None,
        now_ms: 0,
        read: PortRead::Chunk {
            text: "{\"response_type\":\"send_new_card\"}".to_string(),
            utf8_ok: false,
            last: true,
        },
    });
    assert!(eff.reply.is_none());
    assert_eq!(eff.events.len(), 1);
    assert!(matches!(
        &eff.events[0],
        WorkerEvent::MalformedFrame(KeyDotErrors::UndigestableJson { .. })
    ));
}

#[test]
fn kill_cancels_pending_reply() {
    // Stopping the session with a request in flight resolves that
    // reply as cancelled, in the same step that stops the worker.
    let mut w = Worker::new(REQUEST_TIMEOUT_MS);
    w.step(StepInput {
        kill: false,
        incoming: Some(DongleRequest::GetPasswordDescriptionsAndSwitchReader),
        now_ms: 0,
        read: PortRead::NoData,
    });
    let eff = w.step(StepInput { kill: true, incoming: None, now_ms: 1, read: PortRead::NoData });
    assert!(matches!(eff.reply, Some(ReplyOutcome::Cancelled)));
    assert!(matches!(eff.outcome, StepOutcome::Stopped));
    assert!(w.is_done());
}

#[test]
fn kill_with_nothing_pending_just_stops() {
    let mut w = Worker::new(REQUEST_TIMEOUT_MS);
    let eff = w.step(StepInput { kill: true, incoming: None, now_ms: 0, read: PortRead::NoData });
    assert!(eff.reply.is_none());
    assert!(matches!(eff.outcome, StepOutcome::Stopped));
}

#[test]
fn port_fault_emits_error_and_stops() {
    let mut w = Worker::new(REQUEST_TIMEOUT_MS);
    w.step(StepInput {
        kill: false,
        incoming: Some(DongleRequest::GetPasswordDescriptionsAndSwitchReader),
        now_ms: 0,
        read: PortRead::NoData,
    });
    let eff = w.step(StepInput {
        kill: false,
        incoming: None,
        now_ms: 5,
        read: PortRead::Fault { error: "device unplugged".to_string() },
    });
    assert!(matches!(eff.reply, Some(ReplyOutcome::Cancelled)));
    assert!(matches!(eff.outcome, StepOutcome::Failed));
    assert_eq!(eff.events.len(), 1);
    match &eff.events[0] {
        WorkerEvent::PortFailure(KeyDotErrors::NoPortConnection { error }) => {
            assert_eq!(error, "device unplugged");
        }
        other => panic!("unexpected event: {:?}", other),
    }
    assert!(w.is_done());
}

#[test]
fn stale_response_is_not_misattributed() {
    // The request timed out; a frame completing in that same
    // iteration is routed as unsolicited, never as the stale
    // request's answer, and never as a later request's answer.
    let mut w = Worker::new(REQUEST_TIMEOUT_MS);
    w.step(StepInput {
        kill: false,
        incoming: Some(DongleRequest::GetPasswordDescriptionsAndSwitchReader),
        now_ms: 0,
        read: PortRead::NoData,
    });
    let eff = w.step(frame_input(
        REQUEST_TIMEOUT_MS + 500,
        "{\"response_type\":\"send_new_card\"}",
    ));
    assert!(matches!(eff.reply, Some(ReplyOutcome::TimedOut)));
    assert_eq!(eff.events.len(), 1);
    assert!(matches!(
        &eff.events[0],
        WorkerEvent::UnsolicitedResponse(DongleResponse::ConfirmNewCard)
    ));
    assert!(!w.awaiting_reply());
}

#[test]
fn fire_and_forget_keeps_worker_idle() {
    let mut w = Worker::new(REQUEST_TIMEOUT_MS);
    let eff = w.step(StepInput {
        kill: false,
        incoming: Some(DongleRequest::BoardSwitchMain),
        now_ms: 0,
        read: PortRead::NoData,
    });
    assert_eq!(
        eff.write_frame.as_deref(),
        Some("{\"request_type\":\"BoardSwitchMain\"}")
    );
    assert!(!w.awaiting_reply());

    let eff = w.step(StepInput {
        kill: false,
        incoming: Some(DongleRequest::ClearPasswords),
        now_ms: 1,
        read: PortRead::NoData,
    });
    assert_eq!(
        eff.write_frame.as_deref(),
        Some("{\"request_type\":\"ClearPasswords\"}")
    );
    assert!(!w.awaiting_reply());
}

#[test]
fn replies_resolve_in_submission_order() {
    // Two reply-expecting requests, submitted one after the other:
    // the first reply resolves before the second request is even
    // handed to the worker, so no two replies can cross.
    let mut w = Worker::new(REQUEST_TIMEOUT_MS);
    w.step(StepInput {
        kill: false,
        incoming: Some(DongleRequest::GetPasswordDescriptionsAndSwitchReader),
        now_ms: 0,
        read: PortRead::NoData,
    });
    let eff1 = w.step(frame_input(10, "{\"response_type\":\"get_pass_descs\",\"descriptions\":[]}"));
    assert!(matches!(
        eff1.reply,
        Some(ReplyOutcome::Success(DongleResponse::SendPasswordDescriptions(_)))
    ));
    assert!(!w.awaiting_reply());

    // Only now may the next request be dequeued.
    w.step(StepInput {
        kill: false,
        incoming: Some(DongleRequest::NewCard(NewCard {
            name: "n".to_string(),
            password: "p".to_string(),
        })),
        now_ms: 20,
        read: PortRead::NoData,
    });
    let eff2 = w.step(frame_input(30, "{\"response_type\":\"send_new_card\"}"));
    assert!(matches!(
        eff2.reply,
        Some(ReplyOutcome::Success(DongleResponse::ConfirmNewCard))
    ));
}

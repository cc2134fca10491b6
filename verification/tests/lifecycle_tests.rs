use keydot_serial::dispatch::{cards_from_reply, confirm_new_card_reply};
use keydot_serial::lifecycle::{SessionManager, SessionPhase};
use keydot_serial::messages::{
    DongleResponse, KeyDotErrors, PasswordDescriptions, PasswordLessCard, RFID,
};

#[test]
fn fresh_controller_is_killed_and_empty() {
    let s = SessionManager::new();
    assert_eq!(s.phase, SessionPhase::NoWorker);
    assert!(s.kill);
    assert_eq!(s.generation, 0);
    assert!(!s.is_running());
}

#[test]
fn start_then_stop_round() {
    let mut s = SessionManager::new();
    // First start: no old worker to stop.
    assert_eq!(s.stop_none(), Ok(false));
    s.start_clear();
    assert!(!s.kill);
    let gen = s.start_install();
    assert_eq!(gen, 1);
    assert!(s.is_running());

    // Stop: signal, join, slot emptied.
    let was_running = s.stop_begin();
    assert!(was_running);
    assert!(s.kill);
    let r = s.stop_finish(true, String::new());
    assert_eq!(r, Ok(true));
    assert_eq!(s.phase, SessionPhase::NoWorker);
}

#[test]
fn restart_replaces_worker_in_order() {
    // Starting over a running session: kill, join, clear, install —
    // the new worker exists only after the old one was joined.
    let mut s = SessionManager::new();
    s.start_clear();
    s.start_install();
    assert_eq!(s.generation, 1);

    assert!(s.stop_begin());
    assert!(s.kill, "old worker must see kill before the join");
    s.stop_finish(true, String::new()).unwrap();
    s.start_clear();
    assert!(!s.kill, "new worker starts with the flag clear");
    let gen = s.start_install();
    assert_eq!(gen, 2);
    assert!(s.is_running());
}

#[test]
fn failed_join_is_reported_not_swallowed() {
    let mut s = SessionManager::new();
    s.start_clear();
    s.start_install();
    s.stop_begin();
    let r = s.stop_finish(false, "worker panicked".to_string());
    match r {
        Err(KeyDotErrors::CouldNotStopSerialThread { error }) => {
            assert_eq!(error, "worker panicked");
        }
        other => panic!("unexpected stop result: {:?}", other),
    }
    assert_eq!(s.phase, SessionPhase::NoWorker);
}

#[test]
fn cards_reply_accepts_descriptions_only() {
    let d = DongleResponse::SendPasswordDescriptions(PasswordDescriptions {
        descriptions: vec![PasswordLessCard { name: "x".to_string(), rfid: 4 }],
    });
    match cards_from_reply(d) {
        Ok(descs) => {
            assert_eq!(descs.descriptions.len(), 1);
            assert_eq!(descs.descriptions[0].name, "x");
        }
        other => panic!("unexpected: {:?}", other),
    }
    match cards_from_reply(DongleResponse::RFIDDetected(RFID { rfid: 1 })) {
        Err(KeyDotErrors::ServerError { error }) => {
            assert_eq!(error, "Did not get password payload");
        }
        other => panic!("unexpected: {:?}", other),
    }
}

#[test]
fn confirm_reply_accepts_confirmation_only() {
    assert!(confirm_new_card_reply(DongleResponse::ConfirmNewCard).is_ok());
    match confirm_new_card_reply(DongleResponse::RFIDDetected(RFID { rfid: 1 })) {
        Err(KeyDotErrors::ServerError { error }) => {
            assert_eq!(error, "Did not get new card confirmation");
        }
        other => panic!("unexpected: {:?}", other),
    }
}

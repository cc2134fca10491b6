use keydot_serial::codec::{decode_response, encode_request, encode_response};
use keydot_serial::messages::{
    DongleRequest, DongleResponse, NewCard, PasswordDescriptions, PasswordLessCard, RFID,
};

fn descriptions(cards: Vec<(&str, u64)>) -> DongleResponse {
    DongleResponse::SendPasswordDescriptions(PasswordDescriptions {
        descriptions: cards
            .into_iter()
            .map(|(name, rfid)| PasswordLessCard { name: name.to_string(), rfid })
            .collect(),
    })
}

#[test]
fn encode_get_pass_descs() {
    let s = encode_request(&DongleRequest::GetPasswordDescriptionsAndSwitchReader);
    assert_eq!(s, "{\"request_type\":\"get_pass_descs\"}");
}

#[test]
fn encode_board_switch_main() {
    let s = encode_request(&DongleRequest::BoardSwitchMain);
    assert_eq!(s, "{\"request_type\":\"BoardSwitchMain\"}");
}

#[test]
fn encode_clear_passwords() {
    let s = encode_request(&DongleRequest::ClearPasswords);
    assert_eq!(s, "{\"request_type\":\"ClearPasswords\"}");
}

#[test]
fn encode_new_card() {
    let s = encode_request(&DongleRequest::NewCard(NewCard {
        name: "alice".to_string(),
        password: "s3cret".to_string(),
    }));
    assert_eq!(
        s,
        "{\"request_type\":\"send_new_card\",\"name\":\"alice\",\"password\":\"s3cret\"}"
    );
}

#[test]
fn encode_new_card_escapes() {
    let s = encode_request(&DongleRequest::NewCard(NewCard {
        name: "a\"b".to_string(),
        password: "c\\d\ne".to_string(),
    }));
    assert_eq!(
        s,
        "{\"request_type\":\"send_new_card\",\"name\":\"a\\\"b\",\"password\":\"c\\\\d\\u000ae\"}"
    );
}

#[test]
fn decode_confirm_new_card() {
    let r = decode_response("{\"response_type\":\"send_new_card\"}");
    assert!(matches!(r, Some(DongleResponse::ConfirmNewCard)));
}

#[test]
fn decode_detected_rfid() {
    let r = decode_response("{\"response_type\":\"detected_rfid\",\"rfid\":1234567890123}");
    match r {
        Some(DongleResponse::RFIDDetected(RFID { rfid })) => assert_eq!(rfid, 1234567890123),
        other => panic!("unexpected decode: {:?}", other),
    }
}

#[test]
fn decode_descriptions_two_entries_in_order() {
    let r = decode_response(
        "{\"response_type\":\"get_pass_descs\",\"descriptions\":[{\"name\":\"home\",\"rfid\":7},{\"name\":\"work\",\"rfid\":9}]}",
    );
    match r {
        Some(DongleResponse::SendPasswordDescriptions(d)) => {
            assert_eq!(d.descriptions.len(), 2);
            assert_eq!(d.descriptions[0].name, "home");
            assert_eq!(d.descriptions[0].rfid, 7);
            assert_eq!(d.descriptions[1].name, "work");
            assert_eq!(d.descriptions[1].rfid, 9);
        }
        other => panic!("unexpected decode: {:?}", other),
    }
}

#[test]
fn decode_empty_descriptions() {
    let r = decode_response("{\"response_type\":\"get_pass_descs\",\"descriptions\":[]}");
    match r {
        Some(DongleResponse::SendPasswordDescriptions(d)) => assert_eq!(d.descriptions.len(), 0),
        other => panic!("unexpected decode: {:?}", other),
    }
}

#[test]
fn decode_tolerates_whitespace() {
    let r = decode_response(
        " { \"response_type\" : \"detected_rfid\" , \"rfid\" : 5 } ",
    );
    match r {
        Some(DongleResponse::RFIDDetected(RFID { rfid })) => assert_eq!(rfid, 5),
        other => panic!("unexpected decode: {:?}", other),
    }
}

#[test]
fn decode_string_escapes() {
    let r = decode_response(
        "{\"response_type\":\"get_pass_descs\",\"descriptions\":[{\"name\":\"a\\\"b\\\\c\\n\\u0041\",\"rfid\":1}]}",
    );
    match r {
        Some(DongleResponse::SendPasswordDescriptions(d)) => {
            assert_eq!(d.descriptions[0].name, "a\"b\\c\nA");
        }
        other => panic!("unexpected decode: {:?}", other),
    }
}

#[test]
fn decode_rejects_garbage() {
    assert!(decode_response("").is_none());
    assert!(decode_response("not json at all").is_none());
    assert!(decode_response("{\"response_type\":\"send_new_card\"").is_none());
    assert!(decode_response("{\"response_type\":\"unknown_tag\"}").is_none());
    assert!(decode_response("{\"response_type\":\"send_new_card\"}trailing").is_none());
}

#[test]
fn decode_rejects_number_overflow() {
    // one more than u64::MAX
    let r = decode_response("{\"response_type\":\"detected_rfid\",\"rfid\":18446744073709551616}");
    assert!(r.is_none());
    // exactly u64::MAX is fine
    let r = decode_response("{\"response_type\":\"detected_rfid\",\"rfid\":18446744073709551615}");
    match r {
        Some(DongleResponse::RFIDDetected(RFID { rfid })) => assert_eq!(rfid, u64::MAX),
        other => panic!("unexpected decode: {:?}", other),
    }
}

#[test]
fn mirror_round_trip_confirm() {
    let frame = encode_response(&DongleResponse::ConfirmNewCard);
    assert_eq!(frame, "{\"response_type\":\"send_new_card\"}");
    assert!(matches!(
        decode_response(&frame),
        Some(DongleResponse::ConfirmNewCard)
    ));
}

#[test]
fn mirror_round_trip_rfid() {
    let frame = encode_response(&DongleResponse::RFIDDetected(RFID { rfid: 42 }));
    assert_eq!(frame, "{\"response_type\":\"detected_rfid\",\"rfid\":42}");
    match decode_response(&frame) {
        Some(DongleResponse::RFIDDetected(RFID { rfid })) => assert_eq!(rfid, 42),
        other => panic!("unexpected decode: {:?}", other),
    }
}

#[test]
fn mirror_round_trip_descriptions() {
    let value = descriptions(vec![("alpha", 1), ("beta \"quoted\"", 2), ("", 3)]);
    let frame = encode_response(&value);
    match decode_response(&frame) {
        Some(DongleResponse::SendPasswordDescriptions(d)) => {
            assert_eq!(d.descriptions.len(), 3);
            assert_eq!(d.descriptions[0].name, "alpha");
            assert_eq!(d.descriptions[1].name, "beta \"quoted\"");
            assert_eq!(d.descriptions[1].rfid, 2);
            assert_eq!(d.descriptions[2].name, "");
            assert_eq!(d.descriptions[2].rfid, 3);
        }
        other => panic!("unexpected decode: {:?}", other),
    }
}

#[test]
fn has_response_per_variant() {
    assert!(DongleRequest::GetPasswordDescriptionsAndSwitchReader.has_response());
    assert!(DongleRequest::NewCard(NewCard {
        name: "n".to_string(),
        password: "p".to_string(),
    })
    .has_response());
    assert!(!DongleRequest::BoardSwitchMain.has_response());
    assert!(!DongleRequest::ClearPasswords.has_response());
}

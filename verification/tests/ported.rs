use keydot_serial::codec::encode_request;
use keydot_serial::messages::DongleRequest;

#[test]
fn get_dongle_request() {
    let request = DongleRequest::GetPasswordDescriptionsAndSwitchReader;
    let serialized = encode_request(&request);
    println!("{}", serialized);
}

#[test]
fn test_errors() {
    let err: Result<(), String> = Result::Err("wasspoppin".to_string());
    println!("Printing le error: {:?}", err);

    let err: () = Result::Err("wasspoppin".to_string()).unwrap_or_else(|e| println!("fugg: {}", e));
    let _ = err;
}

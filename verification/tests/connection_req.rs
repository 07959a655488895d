use renet2_netcode::{extract_client_connection_req, ConnectionReqError};

#[test]
fn request_is_percent_decoded() {
    let r = extract_client_connection_req(Some("creq=%41%42c%00"), "creq");
    assert_eq!(r, Ok(vec![0x41, 0x42, b'c', 0x00]));
}

#[test]
fn request_without_percent_is_taken_as_is() {
    let r = extract_client_connection_req(Some("x=1&creq=hello+world"), "creq");
    assert_eq!(r, Ok(b"hello+world".to_vec()));
}

#[test]
fn request_keeps_malformed_escapes() {
    let r = extract_client_connection_req(Some("creq=%zz%4"), "creq");
    assert_eq!(r, Ok(b"%zz%4".to_vec()));
}

#[test]
fn empty_request_is_empty() {
    let r = extract_client_connection_req(Some("creq="), "creq");
    assert_eq!(r, Ok(Vec::new()));
}

#[test]
fn missing_query_is_invalid() {
    let r = extract_client_connection_req(None, "creq");
    assert_eq!(r, Err(ConnectionReqError::InvalidQuery));
    assert_eq!(
        ConnectionReqError::InvalidQuery.message(),
        "invalid uri query, dropping connection request..."
    );
}

#[test]
fn missing_key_is_missing_req() {
    let r = extract_client_connection_req(Some("a=b&c=d"), "creq");
    assert_eq!(r, Err(ConnectionReqError::MissingReq));
    assert_eq!(
        ConnectionReqError::MissingReq.message(),
        "invalid uri query (missing req), dropping connection request..."
    );
}

#[test]
fn key_not_followed_by_equals_is_missing_req() {
    assert_eq!(extract_client_connection_req(Some("creq"), "creq"), Err(ConnectionReqError::MissingReq));
    assert_eq!(extract_client_connection_req(Some("creq&x=1"), "creq"), Err(ConnectionReqError::MissingReq));
}

#[test]
fn only_the_first_occurrence_of_the_key_counts() {
    // The first `creq` is followed by `x`, so the later `creq=` is not looked at.
    assert_eq!(
        extract_client_connection_req(Some("creqx=1&creq=AB"), "creq"),
        Err(ConnectionReqError::MissingReq)
    );
    assert_eq!(extract_client_connection_req(Some("creq=A&creq=B"), "creq"), Ok(b"A&creq=B".to_vec()));
}

#[test]
fn key_found_inside_another_name() {
    assert_eq!(extract_client_connection_req(Some("xcreq=%20"), "creq"), Ok(vec![b' ']));
}

#[test]
fn escape_with_one_hex_digit_is_kept() {
    assert_eq!(extract_client_connection_req(Some("creq=%4%41%%"), "creq"), Ok(b"%4A%%".to_vec()));
    assert_eq!(extract_client_connection_req(Some("creq=%aF%Fa"), "creq"), Ok(vec![0xAF, 0xFA]));
}

#[test]
fn encoded_packet_round_trips() {
    let packet: Vec<u8> = (0u8..=255).collect();
    let query = format!("creq={}", urlencoding::encode_binary(&packet));
    assert_eq!(extract_client_connection_req(Some(&query), "creq"), Ok(packet));
}

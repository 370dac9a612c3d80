use iot_auth::coap_utils::{build_coap_non_post, extract_coap_payload, parse_response, ServerResponse};
use iot_auth::communication_manager::{
    comm_response_from_packet, CoapRequester, CommResponse, ExchangeTimer,
};

#[test]
fn build_post_with_two_segments() {
    let mut out = [0u8; 32];
    let segs: [&[u8]; 2] = [b"auth", b"m1"];
    let n = build_coap_non_post(0x1234, &segs, &[7u8], &mut out).unwrap();
    assert_eq!(n, 4 + 1 + 4 + 1 + 2 + 1 + 1);
    assert_eq!(
        &out[..n],
        &[0x50, 0x02, 0x12, 0x34, 0xB4, b'a', b'u', b't', b'h', 0x02, b'm', b'1', 0xFF, 7][..]
    );
    assert!(out[n..].iter().all(|&b| b == 0));
}

#[test]
fn build_post_without_segments() {
    let mut out = [9u8; 8];
    let segs: [&[u8]; 0] = [];
    let n = build_coap_non_post(1, &segs, b"ab", &mut out).unwrap();
    assert_eq!(&out[..n], &[0x50, 0x02, 0x00, 0x01, 0xFF, b'a', b'b'][..]);
    assert_eq!(out[7], 9);
}

#[test]
fn build_post_refuses_long_segment() {
    let mut out = [0u8; 64];
    let segs: [&[u8]; 1] = [b"thirteen-byte"];
    assert_eq!(build_coap_non_post(0, &segs, b"", &mut out), None);
}

#[test]
fn build_post_refuses_small_buffer() {
    let mut out = [0u8; 8];
    let segs: [&[u8]; 1] = [b"data"];
    assert_eq!(build_coap_non_post(0, &segs, b"xyz", &mut out), None);
    // exactly fitting works
    let mut out = [0u8; 4 + 5 + 1 + 3];
    assert_eq!(build_coap_non_post(0, &segs, b"xyz", &mut out), Some(13));
}

#[test]
fn build_post_failure_leaves_a_prefix() {
    // the segment does not fit after its option byte: header and that byte are written
    let mut out = [0xEEu8; 7];
    let segs: [&[u8]; 1] = [b"data"];
    assert_eq!(build_coap_non_post(0x0102, &segs, b"", &mut out), None);
    assert_eq!(out, [0x50, 0x02, 0x01, 0x02, 0xB4, 0xEE, 0xEE]);
    // the payload does not fit after the marker
    let mut out = [0xEEu8; 6];
    let none: [&[u8]; 0] = [];
    assert_eq!(build_coap_non_post(0, &none, b"ab", &mut out), None);
    assert_eq!(out, [0x50, 0x02, 0, 0, 0xFF, 0xEE]);
    // a segment that is too long stops before its option byte
    let mut out = [0xEEu8; 32];
    let segs: [&[u8]; 2] = [b"a", b"0123456789abc"];
    assert_eq!(build_coap_non_post(0, &segs, b"", &mut out), None);
    assert_eq!(&out[..7], &[0x50, 0x02, 0, 0, 0xB1, b'a', 0xEE]);
}

#[test]
fn extract_payload_of_built_message() {
    let mut out = [0u8; 64];
    let segs: [&[u8]; 3] = [b"a", b"bc", b"twelve-bytes"];
    let payload = b"hello payload";
    let n = build_coap_non_post(77, &segs, payload, &mut out).unwrap();
    assert_eq!(extract_coap_payload(&out[..n]), Some(&payload[..]));
}

#[test]
fn extract_payload_with_token_and_extended_options() {
    // TKL = 2, option with delta 13 (one extra byte) and length 13 (one extra byte)
    let mut pkt = vec![0x42, 0x45, 0x00, 0x01, 0xAA, 0xBB];
    pkt.push(0xDD);
    pkt.push(0x01); // delta ext
    pkt.push(0x00); // length ext: 13 + 0 = 13
    pkt.extend_from_slice(&[0u8; 13]);
    // option with delta 14 (two bytes) and length 14 (two bytes): length 269
    pkt.push(0xEE);
    pkt.extend_from_slice(&[0x00, 0x01]);
    pkt.extend_from_slice(&[0x00, 0x00]);
    pkt.extend_from_slice(&vec![1u8; 269]);
    pkt.push(0xFF);
    pkt.extend_from_slice(b"ACK");
    assert_eq!(extract_coap_payload(&pkt), Some(&b"ACK"[..]));
}

#[test]
fn extract_payload_failures() {
    assert_eq!(extract_coap_payload(&[0x50, 0x02, 0x00]), None);
    // no payload marker
    assert_eq!(extract_coap_payload(&[0x50, 0x02, 0x00, 0x01]), None);
    // token longer than the packet
    assert_eq!(extract_coap_payload(&[0x58, 0x02, 0x00, 0x01, 0xFF]), None);
    // option running past the end
    assert_eq!(extract_coap_payload(&[0x50, 0x02, 0x00, 0x01, 0x05, 1, 2]), None);
    // extended length byte missing
    assert_eq!(extract_coap_payload(&[0x50, 0x02, 0x00, 0x01, 0x0D]), None);
    // empty payload after marker
    assert_eq!(extract_coap_payload(&[0x50, 0x02, 0x00, 0x01, 0xFF]), Some(&[][..]));
}

#[test]
fn parse_server_responses() {
    assert_eq!(parse_response(b"ACK"), ServerResponse::Ack);
    assert_eq!(parse_response(b"ERROR:auth_session_timeout"), ServerResponse::AuthSessionTimeout);
    assert_eq!(parse_response(b"ACK "), ServerResponse::Unknown);
    assert_eq!(parse_response(b""), ServerResponse::Unknown);
}

#[test]
fn comm_responses_from_packets() {
    let mut out = [0u8; 64];
    let segs: [&[u8]; 0] = [];
    let n = build_coap_non_post(3, &segs, b"ACK", &mut out).unwrap();
    assert_eq!(comm_response_from_packet(&out[..n]), Some(CommResponse::Ack));
    let n = build_coap_non_post(3, &segs, b"ERROR:auth_session_timeout", &mut out).unwrap();
    assert_eq!(comm_response_from_packet(&out[..n]), Some(CommResponse::AuthSessionTimeout));
    let n = build_coap_non_post(3, &segs, b"what", &mut out).unwrap();
    assert_eq!(comm_response_from_packet(&out[..n]), Some(CommResponse::Unknown(b"what".to_vec())));
    assert_eq!(comm_response_from_packet(&[1, 2]), None);
}

#[test]
fn requester_ids_and_requests() {
    let mut r = CoapRequester::new();
    assert_eq!(r.message_id(), 0);
    let segs: [&[u8]; 1] = [b"data"];
    let req = r.prepare_request(&segs, b"x").unwrap();
    assert_eq!(req, vec![0x50, 0x02, 0, 0, 0xB4, b'd', b'a', b't', b'a', 0xFF, b'x']);
    r.mark_sent();
    assert_eq!(r.message_id(), 1);
    let req = r.prepare_request(&segs, b"x").unwrap();
    assert_eq!(&req[2..4], &[0, 1]);
    for _ in 0..65535 {
        r.mark_sent();
    }
    assert_eq!(r.message_id(), 0);
    let big = vec![0u8; 250];
    assert_eq!(r.prepare_request(&segs, &big), None);
}

#[test]
fn exchange_timer_decisions() {
    let mut t = ExchangeTimer::new(1000);
    assert!(!t.timed_out(11000));
    assert!(t.timed_out(11001));
    assert!(!t.take_resend(3000));
    assert!(t.take_resend(3001));
    assert!(!t.take_resend(5000));
}

use quic_cm::frame::encode_conn_msg;
use quic_cm::frame::encode_data_frame;
use quic_cm::frame::encode_data_header;
use quic_cm::frame::encode_erro_frame;
use quic_cm::frame::encode_ok_frame;
use quic_cm::frame::parse_data_header;
use quic_cm::frame::parse_reply;
use quic_cm::frame::Reply;

#[test]
fn data_header_bytes_are_exact() {
    let h = encode_data_header(0x01020304);
    assert_eq!(h, vec![0x44, 0x41, 0x54, 0x41, 0x01, 0x02, 0x03, 0x04]);
}

#[test]
fn data_header_zero_length() {
    let h = encode_data_header(0);
    assert_eq!(h, vec![0x44, 0x41, 0x54, 0x41, 0, 0, 0, 0]);
}

#[test]
fn data_header_roundtrip_various_lengths() {
    for &len in &[0u32, 1, 7, 0x1234, 0x0102_0304, u32::MAX] {
        let h = encode_data_header(len);
        assert_eq!(parse_data_header(&h), Some(len));
    }
}

#[test]
fn parse_data_header_rejects_bad_magic() {
    assert_eq!(parse_data_header(b"HELO\x00\x00\x00\x07"), None);
}

#[test]
fn parse_data_header_rejects_short_input() {
    assert_eq!(parse_data_header(b"DATA\x00\x00\x00"), None);
    assert_eq!(parse_data_header(b""), None);
}

#[test]
fn parse_data_header_ignores_trailing_payload() {
    let mut buf = encode_data_header(7);
    buf.extend_from_slice(b"ABCDEF\n");
    assert_eq!(parse_data_header(&buf), Some(7));
}

#[test]
fn data_frame_is_header_then_payload() {
    let f = encode_data_frame(b"ABCDEF\n");
    let mut expect = vec![0x44, 0x41, 0x54, 0x41, 0, 0, 0, 7];
    expect.extend_from_slice(b"ABCDEF\n");
    assert_eq!(f, expect);
}

#[test]
fn ok_frame_is_okok() {
    assert_eq!(encode_ok_frame(), b"OKOK".to_vec());
}

#[test]
fn erro_frame_carries_message() {
    assert_eq!(encode_erro_frame("bad"), b"ERRO bad".to_vec());
}

#[test]
fn conn_msg_layout() {
    let m = encode_conn_msg(b"127.0.0.1:7878", b"quiccat");
    assert_eq!(m, b"CONN 127.0.0.1:7878 quiccat ".to_vec());
}

#[test]
fn reply_okok_is_accepted() {
    assert!(matches!(parse_reply(b"OKOK"), Reply::Accepted));
    assert!(matches!(parse_reply(b"OKOK and more"), Reply::Accepted));
}

#[test]
fn reply_erro_carries_diagnostic() {
    match parse_reply(b"ERRO something failed") {
        Reply::Refused(msg) => assert_eq!(msg, b" something failed".to_vec()),
        other => panic!("expected a refusal, got {:?}", other),
    }
}

#[test]
fn reply_garbage_is_unrecognised() {
    assert!(matches!(parse_reply(b"WHAT is this"), Reply::Unrecognised));
    assert!(matches!(parse_reply(b"OK"), Reply::Unrecognised));
}

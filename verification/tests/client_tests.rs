use quic_cm::client::Client;
use quic_cm::client::ClientError;
use quic_cm::frame::encode_data_header;

fn data_msg(payload: &[u8]) -> Vec<u8> {
    let mut m = encode_data_header(payload.len() as u32);
    m.extend_from_slice(payload);
    m
}

#[test]
fn empty_read_means_departed() {
    let mut c = Client::new(9);
    assert_eq!(c.process_control_msg(b"").unwrap(), 0);
}

#[test]
fn short_command_is_refused() {
    let mut c = Client::new(9);
    assert_eq!(c.process_control_msg(b"DA").unwrap_err(), ClientError::ShortCommand);
}

#[test]
fn unknown_command_is_refused() {
    let mut c = Client::new(9);
    assert_eq!(
        c.process_control_msg(b"HELO 127.0.0.1:7878 quiccat").unwrap_err(),
        ClientError::UnknownCommand
    );
}

#[test]
fn short_length_field_is_refused() {
    let mut c = Client::new(9);
    assert_eq!(c.process_control_msg(b"DATA\x00\x00").unwrap_err(), ClientError::ShortLength);
}

#[test]
fn data_message_stages_payload() {
    let mut c = Client::new(9);
    let n = c.process_control_msg(&data_msg(b"ABCDEF\n")).unwrap();
    assert_eq!(n, 7);
    let staged = c.fetch_databuf();
    assert_eq!(staged, b"ABCDEF\n".to_vec());
    let again = c.fetch_databuf();
    assert!(again.is_empty());
}

#[test]
fn oversize_payload_is_cut_to_the_staging_buffer() {
    let mut c = Client::new(9);
    let big = vec![0xabu8; 70000];
    let n = c.process_control_msg(&data_msg(&big)).unwrap();
    assert_eq!(n, 65535);
    assert_eq!(c.fetch_databuf().len(), 65535);
}

#[test]
fn get_token_returns_the_token() {
    let c = Client::new(42);
    assert_eq!(c.get_token(), 42);
}

#[test]
fn deliver_data_frames_the_bytes() {
    let c = Client::new(1);
    let frame = c.deliver_data(b"hi");
    assert_eq!(frame, vec![0x44, 0x41, 0x54, 0x41, 0, 0, 0, 2, b'h', b'i']);
}

use quic_cm::control::parse_conn;
use quic_cm::control::split_fields;
use quic_cm::control::ControlError;

#[test]
fn split_fields_basic() {
    let fs = split_fields(b"CONN 127.0.0.1:7878 quiccat ");
    assert_eq!(fs.len(), 3);
    assert_eq!(fs[0], b"CONN".to_vec());
    assert_eq!(fs[1], b"127.0.0.1:7878".to_vec());
    assert_eq!(fs[2], b"quiccat".to_vec());
}

#[test]
fn split_fields_mixed_whitespace() {
    let fs = split_fields(b"  one\t\ttwo\nthree\r ");
    assert_eq!(fs, vec![b"one".to_vec(), b"two".to_vec(), b"three".to_vec()]);
}

#[test]
fn split_fields_empty_and_blank() {
    assert!(split_fields(b"").is_empty());
    assert!(split_fields(b" \t\r\n").is_empty());
}

#[test]
fn split_fields_single_token() {
    assert_eq!(split_fields(b"solo"), vec![b"solo".to_vec()]);
}

#[test]
fn parse_conn_accepts_well_formed_request() {
    let q = parse_conn(b"CONN 127.0.0.1:7878 quiccat ").unwrap();
    assert_eq!(q.address, b"127.0.0.1:7878".to_vec());
    assert_eq!(q.app_proto, b"quiccat".to_vec());
}

#[test]
fn parse_conn_rejects_wrong_command() {
    let r = parse_conn(b"HELO 127.0.0.1:7878 quiccat");
    assert_eq!(r.unwrap_err(), ControlError::NotConn);
}

#[test]
fn parse_conn_rejects_empty_input() {
    assert_eq!(parse_conn(b"").unwrap_err(), ControlError::NotConn);
    assert_eq!(parse_conn(b"   ").unwrap_err(), ControlError::NotConn);
}

#[test]
fn parse_conn_rejects_missing_fields() {
    assert_eq!(parse_conn(b"CONN").unwrap_err(), ControlError::TooFewFields);
    assert_eq!(parse_conn(b"CONN 127.0.0.1:7878").unwrap_err(), ControlError::TooFewFields);
}

#[test]
fn parse_conn_ignores_extra_fields() {
    let q = parse_conn(b"CONN somewhere:1 proto extra junk").unwrap();
    assert_eq!(q.address, b"somewhere:1".to_vec());
    assert_eq!(q.app_proto, b"proto".to_vec());
}

#[test]
fn normalize_address_appends_default_port() {
    assert_eq!(
        quic_cm::control::normalize_address(b"example.com"),
        b"example.com:7878".to_vec()
    );
}

#[test]
fn normalize_address_keeps_an_explicit_port() {
    assert_eq!(
        quic_cm::control::normalize_address(b"127.0.0.1:9999"),
        b"127.0.0.1:9999".to_vec()
    );
}

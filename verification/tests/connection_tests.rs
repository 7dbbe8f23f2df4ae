use quic_cm::connection::fresh_scid;
use quic_cm::connection::pick_first_ipv4;
use quic_cm::connection::quic_config_params;
use quic_cm::connection::AddClientOutcome;
use quic_cm::connection::ClientEventResult;
use quic_cm::connection::ConnEvent;
use quic_cm::connection::Connection;
use quic_cm::connection::DeliveryPlan;
use quic_cm::connection::State;
use quic_cm::frame::encode_data_header;
use quic_cm::tokens::TokenManager;

fn data_msg(payload: &[u8]) -> Vec<u8> {
    let mut m = encode_data_header(payload.len() as u32);
    m.extend_from_slice(payload);
    m
}

#[test]
fn new_connection_starts_connecting() {
    let c = Connection::new(b"quiccat".to_vec(), 3);
    assert!(matches!(c.state, State::Connecting));
    assert_eq!(c.next_stream_id, 4);
    assert!(!c.is_closed());
}

#[test]
fn stream_ids_stride_by_four() {
    let mut c = Connection::new(b"quiccat".to_vec(), 3);
    match c.add_client(b"quiccat", 10) {
        AddClientOutcome::Admitted(sid, reply) => {
            assert_eq!(sid, 4);
            assert!(reply.is_none());
        },
        other => panic!("expected admission, got {:?}", other),
    }
    match c.add_client(b"quiccat", 11) {
        AddClientOutcome::Admitted(sid, _) => assert_eq!(sid, 8),
        other => panic!("expected admission, got {:?}", other),
    }
}

#[test]
fn mismatched_proto_is_rejected_with_one_erro() {
    let mut c = Connection::new(b"test".to_vec(), 3);
    match c.add_client(b"test2", 10) {
        AddClientOutcome::Mismatch(frame) => {
            assert!(frame.starts_with(b"ERRO "));
            let text = String::from_utf8(frame).unwrap();
            assert!(text.contains("does not match"));
        },
        other => panic!("expected a mismatch, got {:?}", other),
    }
    assert_eq!(c.clients.len(), 0);
}

#[test]
fn establishment_sends_okok_to_every_waiting_client() {
    let mut c = Connection::new(b"quiccat".to_vec(), 3);
    c.add_client(b"quiccat", 10);
    c.add_client(b"quiccat", 11);
    let replies = c.process_datagram(false, false, true);
    assert!(matches!(c.state, State::Established));
    assert!(replies.errors.is_empty());
    assert_eq!(replies.acks.len(), 2);
    assert_eq!(replies.acks[0].0, 10);
    assert_eq!(replies.acks[1].0, 11);
    assert_eq!(replies.acks[0].1, b"OKOK".to_vec());
}

#[test]
fn client_admitted_after_establishment_gets_okok_at_once() {
    let mut c = Connection::new(b"quiccat".to_vec(), 3);
    c.process_datagram(false, false, true);
    match c.add_client(b"quiccat", 10) {
        AddClientOutcome::Admitted(_, reply) => {
            assert_eq!(reply.unwrap(), b"OKOK".to_vec());
        },
        other => panic!("expected admission, got {:?}", other),
    }
}

#[test]
fn close_report_is_terminal() {
    let mut c = Connection::new(b"quiccat".to_vec(), 3);
    let replies = c.process_datagram(true, false, false);
    assert!(c.is_closed());
    assert!(replies.errors.is_empty() && replies.acks.is_empty());
    c.process_datagram(false, false, true);
    assert!(c.is_closed());
}

#[test]
fn peer_error_tells_every_client() {
    let mut c = Connection::new(b"quiccat".to_vec(), 3);
    c.add_client(b"quiccat", 10);
    let replies = c.process_datagram(false, true, false);
    assert_eq!(replies.errors.len(), 1);
    assert_eq!(replies.errors[0].0, 10);
    assert!(replies.errors[0].1.starts_with(b"ERRO "));
}

#[test]
fn stream_data_is_delivered_in_arrival_order() {
    let mut c = Connection::new(b"quiccat".to_vec(), 3);
    c.add_client(b"quiccat", 10);
    c.accept_stream_data(4, b"ABC");
    c.accept_stream_data(4, b"DEF");
    match c.pending_delivery(4) {
        DeliveryPlan::Frame(token, frame) => {
            assert_eq!(token, 10);
            let mut expect = encode_data_header(6);
            expect.extend_from_slice(b"ABCDEF");
            assert_eq!(frame, expect);
        },
        other => panic!("expected a frame, got {:?}", other),
    }
    c.confirm_delivery(4, 3);
    match c.pending_delivery(4) {
        DeliveryPlan::Frame(_, frame) => {
            let mut expect = encode_data_header(3);
            expect.extend_from_slice(b"DEF");
            assert_eq!(frame, expect);
        },
        other => panic!("expected a frame, got {:?}", other),
    }
}

#[test]
fn data_for_an_unowned_stream_is_retained() {
    let mut c = Connection::new(b"quiccat".to_vec(), 3);
    c.accept_stream_data(12, b"orphan");
    assert!(matches!(c.pending_delivery(12), DeliveryPlan::NoClient));
    assert_eq!(c.received_data.len(), 1);
}

#[test]
fn client_departure_frees_slot_and_token_but_not_the_connection() {
    let mut tm = TokenManager::new();
    let conn_token = tm.allocate_token();
    let client_token = tm.allocate_token();
    let mut c = Connection::new(b"quiccat".to_vec(), conn_token);
    c.add_client(b"quiccat", client_token);
    c.process_datagram(false, false, true);
    assert_eq!(c.clients.len(), 1);
    let r = c.process_events(4, b"", &mut tm);
    assert!(matches!(r, ClientEventResult::Departed));
    assert_eq!(c.clients.len(), 0);
    assert!(!tm.used_tokens.contains(&client_token));
    assert!(matches!(c.state, State::Established));
}

#[test]
fn client_data_is_staged_and_acknowledged() {
    let mut tm = TokenManager::new();
    let t = tm.allocate_token();
    let mut c = Connection::new(b"quiccat".to_vec(), 9);
    c.add_client(b"quiccat", t);
    match c.process_events(4, &data_msg(b"ABCDEF\n"), &mut tm) {
        ClientEventResult::Staged(n, ack) => {
            assert_eq!(n, 7);
            assert_eq!(ack, b"OKOK".to_vec());
        },
        other => panic!("expected staging, got {:?}", other),
    }
    assert_eq!(c.fetch_databuf(4).unwrap(), b"ABCDEF\n".to_vec());
    assert_eq!(c.fetch_databuf(4).unwrap(), Vec::<u8>::new());
    assert!(c.fetch_databuf(16).is_none());
}

#[test]
fn malformed_client_message_aborts_only_that_client() {
    let mut tm = TokenManager::new();
    let t1 = tm.allocate_token();
    let t2 = tm.allocate_token();
    let mut c = Connection::new(b"quiccat".to_vec(), 9);
    c.add_client(b"quiccat", t1);
    c.add_client(b"quiccat", t2);
    match c.process_events(4, b"HELO nonsense", &mut tm) {
        ClientEventResult::Failed(frame) => assert!(frame.starts_with(b"ERRO ")),
        other => panic!("expected a failure, got {:?}", other),
    }
    assert_eq!(c.clients.len(), 1);
    assert_eq!(c.clients[0].0, 8);
}

#[test]
fn match_token_distinguishes_udp_and_clients() {
    let mut c = Connection::new(b"quiccat".to_vec(), 3);
    c.add_client(b"quiccat", 10);
    assert!(matches!(c.match_token(3), ConnEvent::Udp));
    assert!(matches!(c.match_token(10), ConnEvent::ClientStream(4)));
    assert!(matches!(c.match_token(77), ConnEvent::NotMine));
}

#[test]
fn fresh_scid_has_the_required_length() {
    let scid = fresh_scid().unwrap();
    assert_eq!(scid.len(), 20);
    let other = fresh_scid().unwrap();
    assert!(scid.iter().any(|&b| b != 0) || other.iter().any(|&b| b != 0));
}

#[test]
fn transport_parameters_match_the_design() {
    let p = quic_config_params();
    assert_eq!(p.max_idle_timeout_ms, 50_000);
    assert_eq!(p.max_udp_payload_size, 1350);
    assert_eq!(p.initial_max_data, 10_000_000);
    assert_eq!(p.initial_max_stream_data_bidi_local, 1_000_000);
    assert_eq!(p.initial_max_streams_bidi, 100);
    assert!(p.disable_active_migration);
    assert!(p.enable_early_data);
    assert!(!p.verify_peer);
}

#[test]
fn exhausted_stream_ids_are_refused() {
    let mut c = Connection::new(b"quiccat".to_vec(), 3);
    c.next_stream_id = u64::MAX - 3;
    match c.add_client(b"quiccat", 10) {
        AddClientOutcome::IdsExhausted(frame) => {
            assert!(frame.starts_with(b"ERRO "));
            assert!(String::from_utf8(frame).unwrap().contains("stream ids exhausted"));
        },
        other => panic!("expected exhaustion, got {:?}", other),
    }
}

#[test]
fn close_report_tells_every_remaining_client() {
    let mut c = Connection::new(b"quiccat".to_vec(), 3);
    c.add_client(b"quiccat", 10);
    c.add_client(b"quiccat", 11);
    let replies = c.process_datagram(true, false, false);
    assert!(c.is_closed());
    assert!(replies.acks.is_empty());
    assert_eq!(replies.errors.len(), 2);
    assert_eq!(replies.errors[0].0, 10);
    assert_eq!(replies.errors[1].0, 11);
    let text = String::from_utf8(replies.errors[0].1.clone()).unwrap();
    assert_eq!(text, "ERRO Connection is closed");
}

#[test]
fn pick_first_ipv4_takes_the_first_match() {
    assert_eq!(pick_first_ipv4(&vec![false, true, true]), Some(1));
    assert_eq!(pick_first_ipv4(&vec![true]), Some(0));
    assert_eq!(pick_first_ipv4(&vec![false, false]), None);
    assert_eq!(pick_first_ipv4(&vec![]), None);
}

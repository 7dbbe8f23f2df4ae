use quic_cm::connection::ClientEventResult;
use quic_cm::manager::min_timeout;
use quic_cm::manager::AdmitOutcome;
use quic_cm::manager::Dispatch;
use quic_cm::manager::Manager;

fn attach_first_client(m: &mut Manager, addr: &[u8], proto: &[u8]) -> quic_cm::manager::Installed {
    let mut req = b"CONN ".to_vec();
    req.extend_from_slice(addr);
    req.push(b' ');
    req.extend_from_slice(proto);
    req.push(b' ');
    match m.accept_incoming(&req) {
        AdmitOutcome::NeedConnection(q) => {
            assert_eq!(q.address, addr.to_vec());
            assert_eq!(q.app_proto, proto.to_vec());
            m.install_connection(addr, proto)
        },
        other => panic!("expected a new destination, got {:?}", other),
    }
}

#[test]
fn classify_routes_the_fixed_tokens() {
    let m = Manager::new();
    assert!(matches!(m.classify(m.signal_token), Dispatch::Signal));
    assert!(matches!(m.classify(m.listener_token), Dispatch::Listener));
    assert!(matches!(m.classify(999), Dispatch::ConnectionEvent));
}

#[test]
fn observe_signal_sets_terminate() {
    let mut m = Manager::new();
    assert!(!m.terminate);
    m.observe_signal();
    assert!(m.terminate);
}

#[test]
fn first_client_creates_one_connection() {
    let mut m = Manager::new();
    let ins = attach_first_client(&mut m, b"127.0.0.1:7878", b"quiccat");
    assert_eq!(m.connection_count(), 1);
    assert_eq!(ins.stream_id, 4);
    assert_ne!(ins.conn_token, ins.client_token);
    assert!(m.tokens.used_tokens.contains(&ins.conn_token));
    assert!(m.tokens.used_tokens.contains(&ins.client_token));
}

#[test]
fn repeated_conn_shares_the_connection() {
    let mut m = Manager::new();
    attach_first_client(&mut m, b"127.0.0.1:7878", b"quiccat");
    match m.accept_incoming(b"CONN 127.0.0.1:7878 quiccat ") {
        AdmitOutcome::Attached { stream_id, reply, .. } => {
            assert_eq!(stream_id, 8);
            assert!(reply.is_none());
        },
        other => panic!("expected attachment, got {:?}", other),
    }
    assert_eq!(m.connection_count(), 1);
}

#[test]
fn attached_after_establishment_gets_okok() {
    let mut m = Manager::new();
    attach_first_client(&mut m, b"127.0.0.1:7878", b"quiccat");
    m.conn_process_datagram(0, false, false, true);
    match m.accept_incoming(b"CONN 127.0.0.1:7878 quiccat ") {
        AdmitOutcome::Attached { reply, .. } => {
            assert_eq!(reply.unwrap(), b"OKOK".to_vec());
        },
        other => panic!("expected attachment, got {:?}", other),
    }
}

#[test]
fn mismatched_proto_gets_exactly_one_erro_and_no_handshake() {
    let mut m = Manager::new();
    attach_first_client(&mut m, b"127.0.0.1:7878", b"test");
    match m.accept_incoming(b"CONN 127.0.0.1:7878 test2 ") {
        AdmitOutcome::Rejected(frame) => {
            assert!(frame.starts_with(b"ERRO "));
            let text = String::from_utf8(frame).unwrap();
            assert!(text.contains("does not match"));
        },
        other => panic!("expected a rejection, got {:?}", other),
    }
    assert_eq!(m.connection_count(), 1);
    assert_eq!(m.connections[0].1.clients.len(), 1);
}

#[test]
fn non_conn_opening_is_refused() {
    let mut m = Manager::new();
    match m.accept_incoming(b"HELO 127.0.0.1:7878 quiccat") {
        AdmitOutcome::Reply(frame) => {
            let text = String::from_utf8(frame).unwrap();
            assert!(text.starts_with("ERRO "));
            assert!(text.contains("Expected CONN message"));
        },
        other => panic!("expected a refusal, got {:?}", other),
    }
    assert_eq!(m.connection_count(), 0);
}

#[test]
fn too_short_conn_is_refused() {
    let mut m = Manager::new();
    match m.accept_incoming(b"CONN 127.0.0.1:7878") {
        AdmitOutcome::Reply(frame) => {
            let text = String::from_utf8(frame).unwrap();
            assert!(text.contains("Malformed CONN message"));
        },
        other => panic!("expected a refusal, got {:?}", other),
    }
}

#[test]
fn two_destinations_get_two_connections() {
    let mut m = Manager::new();
    attach_first_client(&mut m, b"127.0.0.1:7878", b"quiccat");
    attach_first_client(&mut m, b"10.0.0.1:7878", b"quiccat");
    assert_eq!(m.connection_count(), 2);
}

#[test]
fn departure_frees_the_slot_within_one_event() {
    let mut m = Manager::new();
    let ins = attach_first_client(&mut m, b"127.0.0.1:7878", b"quiccat");
    m.conn_process_datagram(0, false, false, true);
    let r = m.conn_process_events(0, ins.stream_id, b"");
    assert!(matches!(r, ClientEventResult::Departed));
    assert_eq!(m.connections[0].1.clients.len(), 0);
    assert!(!m.tokens.used_tokens.contains(&ins.client_token));
    assert_eq!(m.connection_count(), 1);
    assert!(!m.conn_is_closed(0));
}

#[test]
fn min_timeout_takes_the_least_pending_timer() {
    assert_eq!(min_timeout(&vec![]), None);
    assert_eq!(min_timeout(&vec![None, None]), None);
    assert_eq!(min_timeout(&vec![Some(5), None, Some(3)]), Some(3));
    assert_eq!(min_timeout(&vec![None, Some(9)]), Some(9));
    assert_eq!(min_timeout(&vec![Some(2), Some(2)]), Some(2));
}

#[test]
fn closed_connections_are_collected() {
    let mut m = Manager::new();
    attach_first_client(&mut m, b"127.0.0.1:7878", b"quiccat");
    attach_first_client(&mut m, b"10.0.0.1:7878", b"quiccat");
    m.conn_process_datagram(0, true, false, false);
    m.collect_closed();
    assert_eq!(m.connection_count(), 1);
    assert_eq!(m.connections[0].0, b"10.0.0.1:7878".to_vec());
}

#[test]
fn stream_data_flows_through_the_manager() {
    let mut m = Manager::new();
    let ins = attach_first_client(&mut m, b"127.0.0.1:7878", b"quiccat");
    m.conn_process_datagram(0, false, false, true);
    m.conn_accept_stream_data(0, ins.stream_id, b"ABCDEF\n");
    match m.conn_pending_delivery(0, ins.stream_id) {
        quic_cm::connection::DeliveryPlan::Frame(token, frame) => {
            assert_eq!(token, ins.client_token);
            assert_eq!(&frame[8..], b"ABCDEF\n");
        },
        other => panic!("expected a frame, got {:?}", other),
    }
    m.conn_confirm_delivery(0, ins.stream_id, 7);
    match m.conn_pending_delivery(0, ins.stream_id) {
        quic_cm::connection::DeliveryPlan::Frame(_, frame) => {
            assert_eq!(frame.len(), 8);
        },
        other => panic!("expected an empty frame, got {:?}", other),
    }
}

#[test]
fn collection_returns_the_connection_tokens() {
    let mut m = Manager::new();
    let ins = attach_first_client(&mut m, b"127.0.0.1:7878", b"quiccat");
    let replies = m.conn_process_datagram(0, true, false, false);
    assert_eq!(replies.errors.len(), 1);
    assert_eq!(replies.errors[0].0, ins.client_token);
    m.collect_closed();
    assert_eq!(m.connection_count(), 0);
    assert!(!m.tokens.used_tokens.contains(&ins.conn_token));
    assert!(!m.tokens.used_tokens.contains(&ins.client_token));
    assert!(m.tokens.used_tokens.contains(&m.signal_token));
    assert!(m.tokens.used_tokens.contains(&m.listener_token));
}

#[test]
fn fresh_manager_tokens_are_fixed() {
    let m = Manager::new();
    assert_eq!(m.signal_token, 0);
    assert_eq!(m.listener_token, 1);
    assert_eq!(m.tokens.next, 2);
}

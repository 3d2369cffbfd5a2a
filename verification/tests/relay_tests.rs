use relay::backoff::{backoff_delay_ms, BACKOFF_BASE_MS, BACKOFF_CAP_MS};
use relay::broadcaster::Broadcaster;
use relay::config::parse_config;
use relay::frame::encode_frame;
use relay::node::ClientTable;
use relay::session::{ConnectOutcome, PeerSession, SessionState};

#[test]
fn backoff_doubles_and_caps() {
    let expected: [u64; 12] = [
        100, 200, 400, 800, 1600, 3200, 6400, 12800, 25600, 30000, 30000, 30000,
    ];
    for (failures, want) in expected.iter().enumerate() {
        assert_eq!(backoff_delay_ms(failures as u32), *want);
    }
    assert_eq!(backoff_delay_ms(0), BACKOFF_BASE_MS);
    assert_eq!(backoff_delay_ms(1000), BACKOFF_CAP_MS);
}

#[test]
fn successful_connect_resets_backoff() {
    let addr = relay::config::PeerAddr { a: 127, b: 0, c: 0, d: 1, port: 6002 };
    let mut s = PeerSession::new(2, addr);
    // Two failed connects double the next delay.
    s.submit(b"x", Some(ConnectOutcome::Failed), 0);
    assert_eq!(s.state, SessionState::Backoff(100));
    assert_eq!(s.failures, 1);
    s.tick(100);
    assert_eq!(s.state, SessionState::Disconnected);
    s.submit(b"y", Some(ConnectOutcome::Failed), 100);
    assert_eq!(s.state, SessionState::Backoff(300));
    assert_eq!(s.failures, 2);
    // A successful connect resets the failure count to the base.
    s.tick(300);
    s.submit(b"z", Some(ConnectOutcome::Immediate), 300);
    assert_eq!(s.state, SessionState::Connected);
    assert_eq!(s.failures, 0);
}

#[test]
fn two_peer_echo() {
    // Peers {1, 2}; peer 1 broadcasts a client's "hello" frame to peer 2.
    let text = b"self=1\nport=6001\n1=127.0.0.1:6001\n2=127.0.0.1:6002\n";
    let config = parse_config(text).unwrap();
    let mut b = Broadcaster::new(&config);
    assert_eq!(b.len(), 1);
    assert_eq!(b.addr_at(0).port, 6002);
    assert_eq!(b.sessions[0].peer_id, 2);
    b.submit_all(b"hello", &vec![Some(ConnectOutcome::Immediate)], 0);
    // Peer 2's inbound side receives exactly the framed payload.
    assert_eq!(b.sessions[0].pending, encode_frame(b"hello"));
    let n = b.sessions[0].pending.len();
    b.on_wrote_at(0, n);
    assert!(b.sessions[0].pending.is_empty());
}

#[test]
fn three_peer_fan_out() {
    // Peers {1, 2, 3}; one 12-byte payload at peer 1 reaches 2 and 3 once.
    let text =
        b"self=1\nport=6001\n1=127.0.0.1:6001\n2=127.0.0.1:6002\n3=127.0.0.1:6003\n";
    let config = parse_config(text).unwrap();
    let mut b = Broadcaster::new(&config);
    assert_eq!(b.len(), 2);
    let payload = b"twelve bytes";
    assert_eq!(payload.len(), 12);
    b.submit_all(
        payload,
        &vec![Some(ConnectOutcome::Immediate), Some(ConnectOutcome::Immediate)],
        0,
    );
    let frame = encode_frame(payload);
    assert_eq!(b.sessions[0].pending, frame);
    assert_eq!(b.sessions[1].pending, frame);
}

#[test]
fn per_peer_fifo_order_is_kept() {
    let addr = relay::config::PeerAddr { a: 127, b: 0, c: 0, d: 1, port: 6002 };
    let mut s = PeerSession::new(2, addr);
    s.submit(b"first", Some(ConnectOutcome::Immediate), 0);
    s.submit(b"second", None, 0);
    s.submit(b"third", None, 0);
    let mut want = encode_frame(b"first");
    want.extend_from_slice(&encode_frame(b"second"));
    want.extend_from_slice(&encode_frame(b"third"));
    assert_eq!(s.pending, want);
    // Partial writes drain from the front, keeping the order.
    s.on_wrote(3);
    assert_eq!(s.pending, &want[3..]);
}

#[test]
fn reconnect_receives_only_later_submissions() {
    // Peers {1, 2}: while peer 2 is down, submissions are dropped for it;
    // after it re-accepts, it receives exactly the later ones, in order.
    let text = b"self=1\nport=6001\n1=127.0.0.1:6001\n2=127.0.0.1:6002\n";
    let config = parse_config(text).unwrap();
    let mut b = Broadcaster::new(&config);
    // Peer 2 is down: the first connect attempt fails.
    b.submit_all(b"m0", &vec![Some(ConnectOutcome::Failed)], 0);
    assert_eq!(b.state_at(0), SessionState::Backoff(100));
    // Nine more submissions inside the backoff window: all dropped.
    for i in 1..10u64 {
        b.tick_all(i);
        b.submit_all(b"mx", &vec![None], i);
        assert!(b.sessions[0].pending.is_empty());
    }
    // Peer 2 restarts; the deadline passes and the next connect succeeds.
    b.tick_all(100);
    assert_eq!(b.state_at(0), SessionState::Disconnected);
    let mut want = Vec::new();
    for i in 0..10u32 {
        let payload = vec![b'a' + i as u8; 3];
        let outcome = if i == 0 { Some(ConnectOutcome::Immediate) } else { None };
        b.submit_all(&payload, &vec![outcome], 200 + i as u64);
        want.extend_from_slice(&encode_frame(&payload));
    }
    // Peer 2 receives exactly the ten later messages, in order.
    assert_eq!(b.sessions[0].pending, want);
}

#[test]
fn connect_in_progress_resolves_on_writability() {
    let text = b"self=1\nport=6001\n1=127.0.0.1:6001\n2=127.0.0.1:6002\n";
    let config = parse_config(text).unwrap();
    let mut b = Broadcaster::new(&config);
    b.submit_all(b"queued", &vec![Some(ConnectOutcome::InProgress)], 0);
    assert_eq!(b.state_at(0), SessionState::Connecting);
    assert_eq!(b.sessions[0].pending, encode_frame(b"queued"));
    // SO_ERROR == 0: the queue survives into the connected session.
    b.on_connect_result_at(0, true, 5);
    assert_eq!(b.state_at(0), SessionState::Connected);
    assert_eq!(b.sessions[0].pending, encode_frame(b"queued"));
    // A later socket failure clears the queue and schedules a retry.
    b.teardown_at(0, 10);
    assert_eq!(b.state_at(0), SessionState::Backoff(110));
    assert!(b.sessions[0].pending.is_empty());
}

#[test]
fn failed_so_error_schedules_backoff() {
    let addr = relay::config::PeerAddr { a: 127, b: 0, c: 0, d: 1, port: 6002 };
    let mut s = PeerSession::new(2, addr);
    s.submit(b"x", Some(ConnectOutcome::InProgress), 0);
    s.on_connect_result(false, 7);
    assert_eq!(s.state, SessionState::Backoff(107));
    assert_eq!(s.failures, 1);
    assert!(s.pending.is_empty());
}

#[test]
fn client_tokens_count_up_from_one() {
    let mut t = ClientTable::new();
    assert_eq!(t.accept_client(), 1);
    assert_eq!(t.accept_client(), 2);
    assert_eq!(t.accept_client(), 3);
    assert_eq!(t.find_client(2), Some(1));
    assert_eq!(t.find_client(9), None);
    assert_eq!(relay::node::LISTENER_TOKEN, 0);
}

#[test]
fn client_frames_are_extracted_in_order() {
    let mut t = ClientTable::new();
    t.accept_client();
    let mut bytes = encode_frame(b"one");
    bytes.extend_from_slice(&encode_frame(b"two"));
    bytes.extend_from_slice(&[0, 0, 0, 9, b'p']);
    let (payloads, keep) = t.on_client_data(0, &bytes);
    assert!(keep);
    assert_eq!(payloads, vec![b"one".to_vec(), b"two".to_vec()]);
    // The incomplete tail stays buffered until the rest arrives.
    let (payloads2, keep2) = t.on_client_data(0, b"artially");
    assert!(keep2);
    assert_eq!(payloads2, vec![b"partially".to_vec()]);
    assert!(t.clients[0].buf.is_empty());
}

#[test]
fn bad_frame_condemns_only_that_client() {
    // One client sends FF FF FF FF as a length prefix; peer 1 closes that
    // client, and a concurrent well-behaved client is untouched.
    let mut t = ClientTable::new();
    let good_tok = t.accept_client();
    let bad_tok = t.accept_client();
    let good_idx = t.find_client(good_tok).unwrap();
    t.on_client_data(good_idx, &[0, 0, 0, 5, b'h', b'e']);
    let bad_idx = t.find_client(bad_tok).unwrap();
    let (payloads, keep) = t.on_client_data(bad_idx, &[0xff, 0xff, 0xff, 0xff]);
    assert!(payloads.is_empty());
    assert!(!keep);
    t.drop_client(bad_idx);
    assert_eq!(t.clients.len(), 1);
    assert_eq!(t.find_client(bad_tok), None);
    // The well-behaved client still finishes its frame.
    let good_idx = t.find_client(good_tok).unwrap();
    assert_eq!(t.clients[good_idx].buf, vec![0, 0, 0, 5, b'h', b'e']);
    let (payloads, keep) = t.on_client_data(good_idx, b"llo");
    assert!(keep);
    assert_eq!(payloads, vec![b"hello".to_vec()]);
}

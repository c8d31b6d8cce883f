use udp_relay::addr::Endpoint;
use udp_relay::addr::HostAddr;
use udp_relay::relay::Action;
use udp_relay::relay::Event;
use udp_relay::relay::Forwarder;
use udp_relay::relay::RelayError;
use udp_relay::relay::RelayState;

fn forwarder(buffer_size: usize) -> Forwarder {
    Forwarder::new("127.0.0.1:9000", "127.0.0.1:9001", buffer_size).unwrap()
}

fn expect_forward(action: Action) -> (Vec<u8>, Endpoint) {
    match action {
        Action::Forward { payload, dest } => (payload, dest),
        _ => panic!("expected a forward action"),
    }
}

#[test]
fn small_datagram_forwarded_byte_for_byte() {
    let f = forwarder(4096);
    let data = b"hello".to_vec();
    let (state, action) = f.step(RelayState::Running, Event::Received { data, len: 5 });
    assert_eq!(state, RelayState::Running);
    assert_eq!(expect_forward(action).0, b"hello".to_vec());
}

#[test]
fn oversized_datagram_truncated_to_buffer() {
    let f = forwarder(4);
    let data = b"abcdef".to_vec();
    let (state, action) = f.step(RelayState::Running, Event::Received { data, len: 6 });
    assert_eq!(state, RelayState::Running);
    assert_eq!(expect_forward(action).0, b"abcd".to_vec());
}

#[test]
fn exact_fit_datagram_forwarded_whole() {
    let f = forwarder(4);
    let data = b"abcd".to_vec();
    let (_, action) = f.step(RelayState::Running, Event::Received { data, len: 4 });
    assert_eq!(expect_forward(action).0, b"abcd".to_vec());
}

#[test]
fn empty_datagram_forwarded_empty() {
    let f = forwarder(4096);
    let buffer = vec![0u8; 4096];
    let (_, action) = f.step(RelayState::Running, Event::Received { data: buffer, len: 0 });
    assert_eq!(expect_forward(action).0, Vec::<u8>::new());
}

#[test]
fn count_bounds_the_payload_to_the_buffer_prefix() {
    let f = forwarder(4096);
    let mut buffer = vec![0u8; 4096];
    buffer[0] = b'h';
    buffer[1] = b'i';
    let (_, action) = f.step(RelayState::Running, Event::Received { data: buffer, len: 2 });
    assert_eq!(expect_forward(action).0, b"hi".to_vec());
}

#[test]
fn overreported_count_clamped_to_data() {
    let f = forwarder(4096);
    let data = b"abc".to_vec();
    let (_, action) = f.step(RelayState::Running, Event::Received { data, len: 100 });
    assert_eq!(expect_forward(action).0, b"abc".to_vec());
}

#[test]
fn forward_goes_to_the_configured_target() {
    let f = forwarder(4096);
    let (_, action) = f.step(RelayState::Running, Event::Received { data: b"x".to_vec(), len: 1 });
    let (_, dest) = expect_forward(action);
    assert_eq!(dest, Endpoint { host: HostAddr::V4 { o1: 127, o2: 0, o3: 0, o4: 1 }, port: 9001 });
}

#[test]
fn bind_success_starts_the_loop() {
    let f = forwarder(4096);
    let (state, action) = f.step(RelayState::Starting, Event::BindSucceeded);
    assert_eq!(state, RelayState::Running);
    assert!(matches!(action, Action::Continue));
}

#[test]
fn bind_failure_is_fatal_before_any_receive() {
    let f = forwarder(4096);
    let (state, action) = f.step(RelayState::Starting, Event::BindFailed);
    assert_eq!(state, RelayState::Stopped { err: RelayError::BindError });
    assert!(matches!(action, Action::Stop { err: RelayError::BindError }));
}

#[test]
fn receive_failure_stops_the_relay() {
    let f = forwarder(4096);
    let (state, action) = f.step(RelayState::Running, Event::RecvFailed);
    assert_eq!(state, RelayState::Stopped { err: RelayError::ReceiveError });
    assert!(matches!(action, Action::Stop { err: RelayError::ReceiveError }));
}

#[test]
fn send_failure_is_tolerated_and_relay_keeps_forwarding() {
    let f = forwarder(4096);
    let (state, action) = f.step(RelayState::Running, Event::SendCompleted { ok: false });
    assert_eq!(state, RelayState::Running);
    assert!(matches!(action, Action::Continue));

    let (state, action) = f.step(state, Event::Received { data: b"next".to_vec(), len: 4 });
    assert_eq!(state, RelayState::Running);
    assert_eq!(expect_forward(action).0, b"next".to_vec());
}

#[test]
fn send_success_asks_for_nothing() {
    let f = forwarder(4096);
    let (state, action) = f.step(RelayState::Running, Event::SendCompleted { ok: true });
    assert_eq!(state, RelayState::Running);
    assert!(matches!(action, Action::Continue));
}

#[test]
fn stopped_relay_ignores_further_events() {
    let f = forwarder(4096);
    let stopped = RelayState::Stopped { err: RelayError::ReceiveError };
    let (state, action) = f.step(stopped, Event::Received { data: b"late".to_vec(), len: 4 });
    assert_eq!(state, stopped);
    assert!(matches!(action, Action::Continue));
}

#[test]
fn relay_scenario_hello() {
    let f = Forwarder::new("127.0.0.1:9000", "127.0.0.1:9001", 4096).unwrap();

    let (state, action) = f.step(RelayState::Starting, Event::BindSucceeded);
    assert_eq!(state, RelayState::Running);
    assert!(matches!(action, Action::Continue));

    let mut buffer = vec![0u8; 4096];
    buffer[..5].copy_from_slice(b"hello");
    let (state, action) = f.step(state, Event::Received { data: buffer, len: 5 });
    assert_eq!(state, RelayState::Running);
    let (payload, dest) = expect_forward(action);
    assert_eq!(payload, b"hello".to_vec());
    assert_eq!(dest, Endpoint { host: HostAddr::V4 { o1: 127, o2: 0, o3: 0, o4: 1 }, port: 9001 });
}

#[test]
fn relay_scenario_truncated_burst() {
    let f = forwarder(4);
    let mut state = RelayState::Running;
    let payloads: [&[u8]; 3] = [b"abcdef", b"xy", b"0123456789"];
    let expected: [&[u8]; 3] = [b"abcd", b"xy", b"0123"];
    for (sent, want) in payloads.iter().zip(expected.iter()) {
        let (next, action) = f.step(state, Event::Received { data: sent.to_vec(), len: sent.len() });
        assert_eq!(next, RelayState::Running);
        assert_eq!(expect_forward(action).0, want.to_vec());
        state = next;
    }
}

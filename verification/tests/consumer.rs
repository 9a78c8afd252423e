//! Tests of command parsing and of the per-frame dispatch step, including
//! the wire-level scenarios a connection goes through.

use rusty_pub_sub::codec::{decode_header, encode_header, HeaderStatus};
use rusty_pub_sub::consumer::{dispatch, get_message_components, Action};
use rusty_pub_sub::state::Subscription;

/// Run one frame through the pieces the handler loop strings together:
/// decode the header, take the payload, dispatch the command.
fn handle_frame(reg: &mut Subscription, client_id: &str, frame: &[u8]) -> Option<Action> {
    match decode_header(&frame[0..64]) {
        HeaderStatus::Length(n) => {
            let payload = String::from_utf8(frame[64..64 + n].to_vec()).unwrap();
            Some(dispatch(reg, client_id, &payload))
        }
        _ => None,
    }
}

fn frame_of(payload: &str) -> Vec<u8> {
    let mut frame = encode_header(payload.len());
    frame.extend_from_slice(payload.as_bytes());
    frame
}

#[test]
fn test_get_message_components() {
    let (method, message) = get_message_components("SUBSCRIBE test");
    assert_eq!(method, "SUBSCRIBE");
    assert_eq!(message, "test");
}

#[test]
fn test_get_message_components_multi_space() {
    let (method, message) = get_message_components("SUBSCRIBE test channel");
    assert_eq!(method, "SUBSCRIBE");
    assert_eq!(message, "test channel");
}

#[test]
fn test_get_message_components_no_space() {
    let (method, message) = get_message_components("DISCONNECT");
    assert_eq!(method, "DISCONNECT");
    assert_eq!(message, "");
}

#[test]
fn test_subscribe_handler() {
    let mut reg = Subscription::new();
    let a = dispatch(&mut reg, "127.0.0.1:5000", "SUBSCRIBE test");
    assert!(matches!(a, Action::Ignore));
    let subs = reg.get_subscribers("test");
    assert!(subs.iter().any(|s| s == "127.0.0.1:5000"));
}

#[test]
fn test_unsubscribe_handler() {
    let mut reg = Subscription::new();
    reg.add_subscription("127.0.0.1:5000", "test");
    let a = dispatch(&mut reg, "127.0.0.1:5000", "UNSUBSCRIBE test");
    assert!(matches!(a, Action::Ignore));
    assert!(!reg.get_subscribers("test").iter().any(|s| s == "127.0.0.1:5000"));
}

#[test]
fn test_disconnect_handler() {
    let mut reg = Subscription::new();
    reg.add_client("127.0.0.1:5000");
    let a = dispatch(&mut reg, "127.0.0.1:5000", "DISCONNECT");
    assert!(matches!(a, Action::Disconnect));
    assert!(!reg.is_registered("127.0.0.1:5000"));
}

#[test]
fn test_unknown_verb_ignored() {
    let mut reg = Subscription::new();
    let a = dispatch(&mut reg, "127.0.0.1:5000", "FROBNICATE now");
    assert!(matches!(a, Action::Ignore));
    assert!(!reg.is_registered("127.0.0.1:5000"));
}

#[test]
fn test_publish_without_space_is_parse_error() {
    let mut reg = Subscription::new();
    reg.add_subscription("s1", "room1");
    let a = dispatch(&mut reg, "p", "PUBLISH room1");
    assert!(matches!(a, Action::Ignore));
    // Nothing changed for the subscribers either.
    assert_eq!(reg.get_subscribers("room1").len(), 1);
}

#[test]
fn test_fan_out_two_subscribers() {
    // Publishing "hello\n" to a channel with subscribers s1 and s2 plans
    // exactly one delivery of that line to each of them.
    let mut reg = Subscription::new();
    reg.add_subscription("s1", "room1");
    reg.add_subscription("s2", "room1");
    let a = dispatch(&mut reg, "p", "PUBLISH room1 hello\n");
    match a {
        Action::FanOut(channel, deliveries) => {
            assert_eq!(channel, "room1");
            assert_eq!(deliveries.len(), 2);
            let mut targets: Vec<&str> =
                deliveries.iter().map(|d| d.subscriber.as_str()).collect();
            targets.sort();
            assert_eq!(targets, ["s1", "s2"]);
            for d in &deliveries {
                // The raw bytes go out unframed; the receiving side reads
                // one line per delivered message.
                assert_eq!(d.message, "hello\n");
                assert_eq!(d.message.lines().collect::<Vec<&str>>(), ["hello"]);
            }
        }
        other => panic!("expected a fan-out, got {:?}", action_name(&other)),
    }
}

#[test]
fn test_fan_out_no_subscribers() {
    // Publishing to a channel nobody joined, or that never existed, plans
    // no writes and is no error.
    let mut reg = Subscription::new();
    let a = dispatch(&mut reg, "p", "PUBLISH room1 hello\n");
    match a {
        Action::FanOut(channel, deliveries) => {
            assert_eq!(channel, "room1");
            assert!(deliveries.is_empty());
        }
        other => panic!("expected a fan-out, got {:?}", action_name(&other)),
    }
}

#[test]
fn test_ping_scenario() {
    // Sending the frame "PING" (a 4-byte payload) yields the response bytes
    // exactly "PONG\n" on the same connection.
    let mut reg = Subscription::new();
    let frame = frame_of("PING");
    assert_eq!(frame.len(), 64 + 4);
    match handle_frame(&mut reg, "c1", &frame) {
        Some(Action::Reply(m)) => assert_eq!(m.as_bytes(), b"PONG\n"),
        _ => panic!("PING did not ask for a reply"),
    }
}

#[test]
fn test_malformed_header_scenario() {
    // A header of "abc" and 61 spaces is a framing error: the message is
    // dropped, the connection stays open, and the next well-formed frame is
    // processed normally.
    let mut reg = Subscription::new();
    let mut bad = Vec::from(&b"abc"[..]);
    bad.extend_from_slice(&[b' '; 61]);
    bad.extend_from_slice(b"garbage");
    assert_eq!(decode_header(&bad[0..64]), HeaderStatus::Invalid);
    let frame = frame_of("SUBSCRIBE test");
    match handle_frame(&mut reg, "c1", &frame) {
        Some(Action::Ignore) => {}
        _ => panic!("the frame after a framing error was not processed"),
    }
    assert!(reg.get_subscribers("test").iter().any(|s| s == "c1"));
}

fn action_name(a: &Action) -> &'static str {
    match a {
        Action::Ignore => "Ignore",
        Action::Reply(_) => "Reply",
        Action::FanOut(_, _) => "FanOut",
        Action::Disconnect => "Disconnect",
    }
}

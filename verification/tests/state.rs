//! Tests of the subscription registry: registration, subscription in both
//! directions, the cascade on client removal, and the membership invariant.

use rusty_pub_sub::state::Subscription;

fn subscribers_of(reg: &Subscription, channel: &str) -> Vec<String> {
    reg.get_subscribers(channel)
}

fn contains(subs: &[String], id: &str) -> bool {
    subs.iter().any(|s| s == id)
}

#[test]
fn state_test_add_client() {
    let mut reg = Subscription::new();
    reg.add_client("localhost:8080");
    assert!(reg.is_registered("localhost:8080"));
}

#[test]
fn state_test_is_not_registered() {
    let reg = Subscription::new();
    assert!(!reg.is_registered("127.0.0.1:5000"));
}

#[test]
fn state_test_is_registered() {
    let mut reg = Subscription::new();
    reg.add_client("127.0.0.1:5000");
    assert!(reg.is_registered("127.0.0.1:5000"));
}

#[test]
fn state_test_remove_client() {
    let mut reg = Subscription::new();
    reg.add_client("127.0.0.1:5000");
    reg.remove_client("127.0.0.1:5000");
    assert!(!reg.is_registered("127.0.0.1:5000"));
}

#[test]
fn state_test_is_not_channel_registered() {
    let reg = Subscription::new();
    assert!(!reg.is_channel_registered("unregistered_channel"));
}

#[test]
fn state_test_is_channel_registered() {
    let mut reg = Subscription::new();
    reg.add_subscription("127.0.0.1:5000", "test_is_channel_registered");
    assert!(reg.is_channel_registered("test_is_channel_registered"));
}

#[test]
fn state_test_add_subscription() {
    let mut reg = Subscription::new();
    reg.add_subscription("127.0.0.1:5000", "test_add_subscription");
    assert!(contains(&subscribers_of(&reg, "test_add_subscription"), "127.0.0.1:5000"));
}

#[test]
fn test_remove_subscription_channel_not_registered() {
    let mut reg = Subscription::new();
    reg.remove_subscription("127.0.0.1:5000", "test_remove_subscription_channel_not_registered");
    assert!(!reg.is_channel_registered("test_remove_subscription_channel_not_registered"));
}

#[test]
fn test_remove_unsubscribed_channel() {
    let mut reg = Subscription::new();
    // Create the channel, then empty it again, so it exists with no members.
    reg.add_subscription("127.0.0.1:6000", "test_remove_unsubscribed_channel");
    reg.remove_subscription("127.0.0.1:6000", "test_remove_unsubscribed_channel");
    // A client that never joined unsubscribes: a no-op.
    reg.remove_subscription("127.0.0.1:5000", "test_remove_unsubscribed_channel");
    assert!(subscribers_of(&reg, "test_remove_unsubscribed_channel").is_empty());
}

#[test]
fn test_remove_subscription() {
    let mut reg = Subscription::new();
    reg.add_subscription("127.0.0.1:5000", "test_remove_unsubscribed");
    reg.remove_subscription("127.0.0.1:5000", "test_remove_unsubscribed");
    assert!(!contains(&subscribers_of(&reg, "test_remove_unsubscribed"), "127.0.0.1:5000"));
}

#[test]
fn test_subscribe_twice_is_once() {
    // Membership is a set, not a multiset: subscribing twice leaves exactly
    // one entry for the client.
    let mut reg = Subscription::new();
    reg.add_subscription("c", "x");
    reg.add_subscription("c", "x");
    let subs = subscribers_of(&reg, "x");
    assert_eq!(subs.len(), 1);
    assert_eq!(subs[0], "c");
}

#[test]
fn test_remove_client_cascades() {
    // A removed client leaves the subscriber set of every channel it had
    // joined, and the channels themselves stay.
    let mut reg = Subscription::new();
    reg.add_client("c");
    reg.add_subscription("c", "a");
    reg.add_subscription("c", "b");
    reg.remove_client("c");
    assert!(!contains(&subscribers_of(&reg, "a"), "c"));
    assert!(!contains(&subscribers_of(&reg, "b"), "c"));
    assert!(reg.is_channel_registered("a"));
    assert!(reg.is_channel_registered("b"));
    assert!(!reg.is_registered("c"));
}

#[test]
fn test_membership_invariant_after_sequence() {
    // After an arbitrary single-threaded mix of operations the two
    // directions agree: a client counts as subscribed exactly when the
    // channel's snapshot lists it.
    let mut reg = Subscription::new();
    let clients = ["c1", "c2", "c3"];
    let channels = ["a", "b", "c"];
    reg.add_client("c1");
    reg.add_client("c2");
    reg.add_subscription("c1", "a");
    reg.add_subscription("c1", "b");
    reg.add_subscription("c2", "a");
    reg.add_subscription("c3", "c");
    reg.remove_subscription("c1", "a");
    reg.remove_subscription("c2", "missing");
    reg.remove_client("c3");
    reg.add_subscription("c2", "b");
    let expected = [("c1", "b"), ("c2", "a"), ("c2", "b")];
    for client in clients {
        for channel in channels {
            let subscribed = expected.iter().any(|&(c, ch)| c == client && ch == channel);
            assert_eq!(contains(&subscribers_of(&reg, channel), client), subscribed);
        }
    }
}

#[test]
fn test_partial_delivery_failure() {
    // A failed fan-out write unsubscribes only that subscriber from that
    // channel; the client stays registered and keeps its other channels.
    let mut reg = Subscription::new();
    reg.add_client("s1");
    reg.add_client("s2");
    reg.add_subscription("s1", "room1");
    reg.add_subscription("s2", "room1");
    reg.add_subscription("s2", "room2");
    // The write to s2 fails during fan-out on room1.
    reg.remove_subscription("s2", "room1");
    let subs = subscribers_of(&reg, "room1");
    assert_eq!(subs.len(), 1);
    assert_eq!(subs[0], "s1");
    assert!(reg.is_registered("s2"));
    assert!(contains(&subscribers_of(&reg, "room2"), "s2"));
}

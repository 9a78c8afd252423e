//! Tests of the client-side command builders and of the options record:
//! what the client encodes, the server's parser takes apart again.

use rusty_pub_sub::cli::Options;
use rusty_pub_sub::client::{
    disconnect_message, ping_message, publish_message, subscribe_message, unsubscribe_message,
};
use rusty_pub_sub::consumer::get_message_components;

#[test]
fn test_ping_message() {
    assert_eq!(ping_message(), "PING");
}

#[test]
fn test_disconnect_message() {
    assert_eq!(disconnect_message(), "DISCONNECT");
}

#[test]
fn test_subscribe_message_round_trip() {
    let m = subscribe_message("test channel");
    assert_eq!(m, "SUBSCRIBE test channel");
    let (verb, rest) = get_message_components(&m);
    assert_eq!(verb, "SUBSCRIBE");
    assert_eq!(rest, "test channel");
}

#[test]
fn test_unsubscribe_message_round_trip() {
    let m = unsubscribe_message("test");
    assert_eq!(m, "UNSUBSCRIBE test");
    let (verb, rest) = get_message_components(&m);
    assert_eq!(verb, "UNSUBSCRIBE");
    assert_eq!(rest, "test");
}

#[test]
fn test_publish_message_round_trip() {
    let m = publish_message("room1", "hello world\n");
    assert_eq!(m, "PUBLISH room1 hello world\n");
    let (verb, rest) = get_message_components(&m);
    assert_eq!(verb, "PUBLISH");
    let (channel, body) = get_message_components(&rest);
    assert_eq!(channel, "room1");
    assert_eq!(body, "hello world\n");
}

#[test]
fn test_options_new() {
    let opts = Options::new(
        String::from("localhost"),
        7878,
        false,
        true,
        vec![String::from("a")],
        vec![],
        Some(String::from("room1")),
        Some(String::from("hi")),
        false,
        false,
    );
    assert_eq!(opts.host, "localhost");
    assert_eq!(opts.port, 7878);
    assert!(opts.ping);
    assert_eq!(opts.subscribe, ["a"]);
    assert_eq!(opts.channel.as_deref(), Some("room1"));
    assert_eq!(opts.message.as_deref(), Some("hi"));
}

#[test]
fn test_options_without_channel() {
    let opts = Options::new(
        String::from("localhost"),
        7878,
        false,
        false,
        vec![],
        vec![],
        None,
        Some(String::from("raw command")),
        true,
        true,
    );
    assert!(opts.channel.is_none());
    assert!(opts.recv);
    assert!(opts.listen);
}

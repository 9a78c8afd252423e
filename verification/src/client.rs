//! Client-side command building.
//!
//! A client speaks to the broker by sending framed text commands.  These
//! builders produce the exact payloads the connection handler understands;
//! the caller frames each one with [`crate::codec::encode_header`] and
//! writes header and payload back-to-back on its socket.  Replies and
//! delivered messages come back unframed and line-delimited, so the client
//! reads those by line.

use vstd::prelude::*;
use vstd::string::StringExecFns;

use crate::consumer;

verus! {

/// The payload that pings the server; the reply is the literal `PONG\n`.
pub fn ping_message() -> (m: String)
    ensures
        m@ == "PING"@,
{
    String::from_str("PING")
}

/// The payload that asks the server to close this connection after cleaning
/// up the client's registry record.
pub fn disconnect_message() -> (m: String)
    ensures
        m@ == "DISCONNECT"@,
{
    String::from_str("DISCONNECT")
}

/// The payload that subscribes this connection to `channel`.
pub fn subscribe_message(channel: &str) -> (m: String)
    ensures
        m@ == "SUBSCRIBE "@ + channel@,
{
    let mut m = String::from_str("SUBSCRIBE ");
    m.append(channel);
    m
}

/// The payload that unsubscribes this connection from `channel`.
pub fn unsubscribe_message(channel: &str) -> (m: String)
    ensures
        m@ == "UNSUBSCRIBE "@ + channel@,
{
    let mut m = String::from_str("UNSUBSCRIBE ");
    m.append(channel);
    m
}

/// The payload that publishes `message` to `channel`.  By convention the
/// message ends with a newline, because subscribers read deliveries
/// line-delimited; the convention is the caller's to follow.
pub fn publish_message(channel: &str, message: &str) -> (m: String)
    ensures
        m@ == "PUBLISH "@ + channel@ + " "@ + message@,
{
    let mut m = String::from_str("PUBLISH ");
    m.append(channel);
    m.append(" ");
    m.append(message);
    m
}

/// A verb followed by a space and an argument string parses back into
/// exactly that verb and that argument: what the builders above produce,
/// the server's splitter takes apart again, as long as the verb itself has
/// no space.
pub proof fn lemma_command_round_trip(verb: Seq<char>, rest: Seq<char>)
    requires
        !consumer::has_space(verb),
    ensures
        consumer::spec_verb(verb + seq![' '] + rest) == verb,
        consumer::spec_rest(verb + seq![' '] + rest) == rest,
{
    let s = verb + seq![' '] + rest;
    assert forall|j: int| 0 <= j < verb.len() implies s[j] != ' ' by {
        assert(s[j] == verb[j]);
        if verb[j] == ' ' {
            assert(consumer::has_space(verb));
        }
    }
    assert(s[verb.len() as int] == ' ');
    consumer::lemma_first_space_at(s, verb.len() as int);
    assert(s.take(verb.len() as int) =~= verb);
    assert(s.skip(verb.len() + 1 as int) =~= rest);
}

} // verus!

//! Command-line options of the client front end.
//!
//! The surrounding program reads the actual command line; this type holds
//! the result as plain values and states the one rule the combination must
//! obey: a channel without a message to send on it is an error, reported
//! before anything is attempted.

use vstd::prelude::*;

verus! {

/// What the user asked the client program to do.
pub struct Options {
    /// The hostname of the server.
    pub host: String,
    /// The port of the server.
    pub port: u16,
    /// Interactive mode.
    pub interactive: bool,
    /// Ping the server.
    pub ping: bool,
    /// Channels to subscribe to.
    pub subscribe: Vec<String>,
    /// Channels to unsubscribe from.
    pub unsubscribe: Vec<String>,
    /// Channel on which to send the message; without one the message goes to
    /// the server as a raw command.
    pub channel: Option<String>,
    /// Message to send.
    pub message: Option<String>,
    /// Wait for one message from the server.
    pub recv: bool,
    /// Listen continuously for messages from the server.
    pub listen: bool,
}

impl Options {
    /// May these options be acted on?  A channel is only meaningful with a
    /// message to publish on it.
    pub open spec fn valid(self) -> bool {
        self.channel is Some ==> self.message is Some
    }

    /// Bundle validated command-line values.  The caller must have refused a
    /// channel without a message already, as that combination cannot be
    /// acted on.
    pub fn new(
        host: String,
        port: u16,
        interactive: bool,
        ping: bool,
        subscribe: Vec<String>,
        unsubscribe: Vec<String>,
        channel: Option<String>,
        message: Option<String>,
        recv: bool,
        listen: bool,
    ) -> (opts: Options)
        requires
            channel is Some ==> message is Some,
        ensures
            opts.valid(),
            opts.host == host,
            opts.port == port,
            opts.interactive == interactive,
            opts.ping == ping,
            opts.subscribe == subscribe,
            opts.unsubscribe == unsubscribe,
            opts.channel == channel,
            opts.message == message,
            opts.recv == recv,
            opts.listen == listen,
    {
        Options {
            host,
            port,
            interactive,
            ping,
            subscribe,
            unsubscribe,
            channel,
            message,
            recv,
            listen,
        }
    }
}

} // verus!

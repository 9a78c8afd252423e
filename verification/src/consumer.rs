//! Command parsing and per-frame dispatch of the connection handler.
//!
//! A decoded payload is text of the shape `"<VERB>[ <ARGS>]"`.  The parser
//! splits it at the first space into the verb and the rest; for `PUBLISH`
//! the rest is split once more into the channel and the message body.  The
//! [`dispatch`] step is the heart of the handler loop: it takes one decoded
//! payload, mutates the registry as the command asks, and hands back the
//! [`Action`] the caller must carry out on the sockets — reply, fan-out
//! writes, or closing the connection.  The read loop around it lives outside
//! this crate.

use vstd::prelude::*;
use vstd::string::StrSliceExecFns;
use vstd::string::StringExecFns;

use crate::state::Subscription;

verus! {

/// Index of the first space of `s`, or `s.len()` if there is none.
pub open spec fn first_space(s: Seq<char>) -> int
    decreases s.len(),
{
    if s.len() == 0 {
        0
    } else if s[0] == ' ' {
        0
    } else {
        1 + first_space(s.skip(1))
    }
}

/// Does `s` contain a space at all?
pub open spec fn has_space(s: Seq<char>) -> bool {
    exists|i: int| 0 <= i < s.len() && s[i] == ' '
}

/// The part of `s` before its first space: the command verb, or for a
/// `PUBLISH` argument string the channel name.
pub open spec fn spec_verb(s: Seq<char>) -> Seq<char> {
    s.take(first_space(s))
}

/// The part of `s` after its first space, untrimmed, spaces and all; empty
/// if `s` has no space.
pub open spec fn spec_rest(s: Seq<char>) -> Seq<char> {
    if first_space(s) < s.len() {
        s.skip(first_space(s) + 1)
    } else {
        Seq::empty()
    }
}

/// What `first_space` finds: everything before it is not a space, and it
/// points at a space unless there is none at all.
pub proof fn lemma_first_space(s: Seq<char>)
    ensures
        0 <= first_space(s) <= s.len(),
        forall|j: int| 0 <= j < first_space(s) ==> s[j] != ' ',
        first_space(s) < s.len() ==> s[first_space(s)] == ' ',
        has_space(s) <==> first_space(s) < s.len(),
    decreases s.len(),
{
    if s.len() == 0 {
    } else if s[0] == ' ' {
    } else {
        lemma_first_space(s.skip(1));
        let f = first_space(s);
        assert forall|j: int| 0 <= j < f implies s[j] != ' ' by {
            if j > 0 {
                assert(s.skip(1)[j - 1] == s[j]);
                assert(s.skip(1)[j - 1] != ' ');
            }
        }
        if f < s.len() {
            assert(s[f] == s.skip(1)[f - 1]);
        }
        if has_space(s) {
            let i = choose|i: int| 0 <= i < s.len() && s[i] == ' ';
            assert(s.skip(1)[i - 1] == ' ');
            assert(has_space(s.skip(1)));
        }
        if has_space(s.skip(1)) {
            let i = choose|i: int| 0 <= i < s.skip(1).len() && s.skip(1)[i] == ' ';
            assert(s[i + 1] == ' ');
        }
    }
}

/// `first_space` is pinned down by its characterization: a position with no
/// space before it that is a space, or the end, is the first space.
pub proof fn lemma_first_space_at(s: Seq<char>, i: int)
    requires
        0 <= i <= s.len(),
        forall|j: int| 0 <= j < i ==> s[j] != ' ',
        i < s.len() ==> s[i] == ' ',
    ensures
        first_space(s) == i,
    decreases s.len(),
{
    if s.len() == 0 {
    } else if s[0] == ' ' {
        assert(i == 0);
    } else {
        assert(i > 0);
        assert(forall|j: int| 0 <= j < i - 1 ==> s.skip(1)[j] == s[j + 1]);
        if i - 1 < s.skip(1).len() {
            assert(s.skip(1)[i - 1] == s[i]);
        }
        lemma_first_space_at(s.skip(1), i - 1);
    }
}

/// Index of the first space of `message`, or its length if it has none.
fn find_first_space(message: &str) -> (i: usize)
    ensures
        i as int == first_space(message@),
        i <= message@.len(),
{
    let n = message.unicode_len();
    let mut i: usize = 0;
    while i < n && message.get_char(i) != ' '
        invariant
            0 <= i <= n,
            n == message@.len(),
            forall|j: int| 0 <= j < i ==> message@[j] != ' ',
        decreases n - i,
    {
        i += 1;
    }
    proof {
        lemma_first_space_at(message@, i as int);
    }
    i
}

/// Split a message at its first space into the verb and the rest.  The rest
/// keeps everything after that space, embedded spaces included, and is empty
/// when the message has no space.
pub fn get_message_components(message: &str) -> (r: (String, String))
    ensures
        r.0@ == spec_verb(message@),
        r.1@ == spec_rest(message@),
{
    let n = message.unicode_len();
    let i = find_first_space(message);
    let verb = message.substring_char(0, i).to_owned();
    let rest = if i < n {
        message.substring_char(i + 1, n).to_owned()
    } else {
        String::new()
    };
    (verb, rest)
}

/// Do two string slices hold the same characters?
fn str_eq(a: &str, b: &str) -> (r: bool)
    ensures
        r == (a@ == b@),
{
    let an = a.unicode_len();
    let bn = b.unicode_len();
    if an != bn {
        return false;
    }
    let mut i: usize = 0;
    while i < an
        invariant
            0 <= i <= an,
            an == a@.len(),
            an == b@.len(),
            forall|j: int| 0 <= j < i ==> a@[j] == b@[j],
        decreases an - i,
    {
        if a.get_char(i) != b.get_char(i) {
            return false;
        }
        i += 1;
    }
    proof {
        assert(a@ =~= b@);
    }
    true
}

/// One planned fan-out write: this message body goes to this subscriber's
/// connection, raw and unframed.
pub struct Delivery {
    /// Id of the subscriber to write to.
    pub subscriber: String,
    /// The message body to write, exactly as published.
    pub message: String,
}

/// The subscriber ids of a delivery plan, in order.
pub open spec fn delivery_targets(ds: Seq<Delivery>) -> Seq<Seq<char>> {
    Seq::new(ds.len(), |i: int| ds[i].subscriber@)
}

/// What the caller of [`dispatch`] must do on the sockets after one command.
pub enum Action {
    /// Nothing: the command only touched the registry, or was not
    /// recognized, or a `PUBLISH` argument could not be parsed.
    Ignore,
    /// Write this text back on the same connection and flush.
    Reply(String),
    /// Write the message of each planned delivery, unframed, to that
    /// subscriber of the named channel; on a failed write unsubscribe that
    /// one subscriber from that channel and carry on with the rest.
    FanOut(String, Vec<Delivery>),
    /// The client asked to disconnect: its registry record is already gone;
    /// close the connection and end the handler loop.
    Disconnect,
}

/// Plan the fan-out for one `PUBLISH` argument string: split it at its first
/// space into channel and body, and pair the body with every current
/// subscriber of the channel, each exactly once.  `None` when the argument
/// has no space to split at: that is a parse error and the command is
/// dropped.  A channel with no subscribers yields an empty plan: publishing
/// into silence is a valid no-op.
pub fn publish_handler(registry: &Subscription, message: &str) -> (r: Option<
    (String, Vec<Delivery>),
>)
    requires
        registry.wf(),
    ensures
        match r {
            Some(plan) => {
                &&& has_space(message@)
                &&& plan.0@ == spec_verb(message@)
                &&& delivery_targets(plan.1@).no_duplicates()
                &&& delivery_targets(plan.1@).to_set() == registry@.subscribers(spec_verb(message@))
                &&& forall|i: int|
                    0 <= i < plan.1@.len() ==> #[trigger] plan.1@[i].message@ == spec_rest(message@)
            },
            None => !has_space(message@),
        },
{
    proof {
        lemma_first_space(message@);
    }
    let n = message.unicode_len();
    let i = find_first_space(message);
    if i == n {
        return None;
    }
    let channel = message.substring_char(0, i).to_owned();
    let body = message.substring_char(i + 1, n).to_owned();
    let subscribers = registry.get_subscribers(channel.as_str());
    let mut deliveries: Vec<Delivery> = Vec::new();
    let mut k: usize = 0;
    let m = subscribers.len();
    while k < m
        invariant
            0 <= k <= m,
            m == subscribers@.len(),
            deliveries@.len() == k,
            forall|j: int|
                0 <= j < k ==> #[trigger] deliveries@[j].subscriber@ == subscribers.deep_view()[j],
            forall|j: int| 0 <= j < k ==> #[trigger] deliveries@[j].message@ == body@,
        decreases m - k,
    {
        deliveries.push(Delivery { subscriber: subscribers[k].clone(), message: body.clone() });
        k += 1;
    }
    proof {
        assert(delivery_targets(deliveries@) =~= subscribers.deep_view());
    }
    Some((channel, deliveries))
}

/// Dispatch one decoded payload from the connection of client `client_id`:
/// carry out the command on the registry and say what the caller must do on
/// the sockets.  `PING` asks for the literal reply `PONG\n`; `SUBSCRIBE`,
/// `UNSUBSCRIBE` and `DISCONNECT` act on the registry alone; `PUBLISH` plans
/// the fan-out writes; an unknown verb, like a malformed `PUBLISH`, is
/// dropped without closing the connection.
pub fn dispatch(registry: &mut Subscription, client_id: &str, message: &str) -> (a: Action)
    requires
        old(registry).wf(),
    ensures
        final(registry).wf(),
        ({
            let verb = spec_verb(message@);
            let rest = spec_rest(message@);
            &&& verb == "PING"@ ==> final(registry)@ == old(registry)@ && (a matches Action::Reply(m)
                && m@ == "PONG\n"@)
            &&& verb == "SUBSCRIBE"@ ==> final(registry)@ == old(registry)@.subscribe(
                client_id@,
                rest,
            ) && a == Action::Ignore
            &&& verb == "UNSUBSCRIBE"@ ==> final(registry)@ == old(registry)@.unsubscribe(
                client_id@,
                rest,
            ) && a == Action::Ignore
            &&& verb == "DISCONNECT"@ ==> final(registry)@ == old(registry)@.remove_client(
                client_id@,
            ) && a == Action::Disconnect
            &&& verb == "PUBLISH"@ ==> final(registry)@ == old(registry)@ && (if has_space(rest) {
                a matches Action::FanOut(ch, ds) && ch@ == spec_verb(rest) && delivery_targets(
                    ds@,
                ).no_duplicates() && delivery_targets(ds@).to_set() == old(registry)@.subscribers(
                    spec_verb(rest),
                ) && (forall|i: int|
                    0 <= i < ds@.len() ==> #[trigger] ds@[i].message@ == spec_rest(rest))
            } else {
                a == Action::Ignore
            })
            &&& verb != "PING"@ && verb != "SUBSCRIBE"@ && verb != "UNSUBSCRIBE"@ && verb
                != "DISCONNECT"@ && verb != "PUBLISH"@ ==> final(registry)@ == old(registry)@ && a
                == Action::Ignore
        }),
{
    proof {
        reveal_strlit("PING");
        reveal_strlit("SUBSCRIBE");
        reveal_strlit("UNSUBSCRIBE");
        reveal_strlit("DISCONNECT");
        reveal_strlit("PUBLISH");
        assert("PING"@.len() == 4);
        assert("SUBSCRIBE"@.len() == 9);
        assert("UNSUBSCRIBE"@.len() == 11);
        assert("DISCONNECT"@.len() == 10);
        assert("PUBLISH"@.len() == 7);
    }
    let (verb, rest) = get_message_components(message);
    if str_eq(verb.as_str(), "SUBSCRIBE") {
        registry.add_subscription(client_id, rest.as_str());
        Action::Ignore
    } else if str_eq(verb.as_str(), "UNSUBSCRIBE") {
        registry.remove_subscription(client_id, rest.as_str());
        Action::Ignore
    } else if str_eq(verb.as_str(), "DISCONNECT") {
        registry.remove_client(client_id);
        Action::Disconnect
    } else if str_eq(verb.as_str(), "PUBLISH") {
        match publish_handler(registry, rest.as_str()) {
            Some((channel, deliveries)) => Action::FanOut(channel, deliveries),
            None => Action::Ignore,
        }
    } else if str_eq(verb.as_str(), "PING") {
        Action::Reply(String::from_str("PONG\n"))
    } else {
        Action::Ignore
    }
}

} // verus!

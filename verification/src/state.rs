//! Subscription registry.
//!
//! The registry tracks which clients are connected and which channels each of
//! them has joined, in both directions: client to channels and channel to
//! subscribers.  A channel is created lazily on first subscription and is
//! never deleted, even once its subscriber set empties.  All operations on
//! one [`Subscription`] value appear atomic to callers; the process wraps the
//! single registry in one lock, so every logical operation runs in one
//! critical section and the two directions can never drift apart.

use vstd::prelude::*;
use vstd::hash_map::StringHashMap;
use vstd::pervasive::cloned;

verus! {

/// The abstract state of the registry: which channels each client has
/// joined, and which clients each channel holds, as maps of sets over plain
/// character strings.
#[verifier::ext_equal]
pub ghost struct RegistryView {
    /// Client id to the set of channels it is subscribed to.
    pub clients: Map<Seq<char>, Set<Seq<char>>>,
    /// Channel name to the set of ids subscribed to it.
    pub channels: Map<Seq<char>, Set<Seq<char>>>,
}

impl RegistryView {
    /// The registry with no clients and no channels.
    pub open spec fn empty() -> RegistryView {
        RegistryView { clients: Map::empty(), channels: Map::empty() }
    }

    /// The channels client `id` is subscribed to; empty for an unknown
    /// client.
    pub open spec fn client_channels(self, id: Seq<char>) -> Set<Seq<char>> {
        if self.clients.contains_key(id) {
            self.clients[id]
        } else {
            Set::empty()
        }
    }

    /// The subscribers of channel `ch`; empty for a channel that was never
    /// created.
    pub open spec fn subscribers(self, ch: Seq<char>) -> Set<Seq<char>> {
        if self.channels.contains_key(ch) {
            self.channels[ch]
        } else {
            Set::empty()
        }
    }

    /// Registering a client gives it an empty channel set if it is new and
    /// changes nothing otherwise.
    pub open spec fn register_client(self, id: Seq<char>) -> RegistryView {
        if self.clients.contains_key(id) {
            self
        } else {
            RegistryView { clients: self.clients.insert(id, Set::empty()), channels: self.channels }
        }
    }

    /// Subscribing adds the channel to the client's set and the client to
    /// the channel's set, creating either entry as needed.
    pub open spec fn subscribe(self, id: Seq<char>, ch: Seq<char>) -> RegistryView {
        RegistryView {
            clients: self.clients.insert(id, self.client_channels(id).insert(ch)),
            channels: self.channels.insert(ch, self.subscribers(ch).insert(id)),
        }
    }

    /// Unsubscribing removes the client from the channel's set and the
    /// channel from the client's set, if the channel exists; it is a no-op
    /// otherwise, including when the client was never a member.
    pub open spec fn unsubscribe(self, id: Seq<char>, ch: Seq<char>) -> RegistryView {
        if !self.channels.contains_key(ch) {
            self
        } else {
            RegistryView {
                clients: if self.clients.contains_key(id) {
                    self.clients.insert(id, self.clients[id].remove(ch))
                } else {
                    self.clients
                },
                channels: self.channels.insert(ch, self.channels[ch].remove(id)),
            }
        }
    }

    /// Removing a client drops its record and cascades: the client leaves
    /// the subscriber set of every channel.  Channel entries themselves stay,
    /// even when they become empty.
    pub open spec fn remove_client(self, id: Seq<char>) -> RegistryView {
        if !self.clients.contains_key(id) {
            self
        } else {
            RegistryView {
                clients: self.clients.remove(id),
                channels: self.channels.map_values(|subs: Set<Seq<char>>| subs.remove(id)),
            }
        }
    }

    /// The registry's two directions agree: a channel is in a client's set
    /// exactly when the client is in the channel's subscriber set.  Every
    /// operation of [`Subscription`] preserves this.
    pub open spec fn inv(self) -> bool {
        forall|id: Seq<char>, ch: Seq<char>|
            #![trigger self.client_channels(id).contains(ch)]
            #![trigger self.subscribers(ch).contains(id)]
            self.client_channels(id).contains(ch) <==> self.subscribers(ch).contains(id)
    }
}

/// Registering a client keeps the two directions in agreement: the new
/// client starts with no channels and no channel mentions it.
pub proof fn lemma_register_client_preserves_inv(v: RegistryView, id: Seq<char>)
    requires
        v.inv(),
    ensures
        v.register_client(id).inv(),
{
    let w = v.register_client(id);
    assert forall|id2: Seq<char>, ch: Seq<char>|
        #![trigger w.client_channels(id2).contains(ch)]
        #![trigger w.subscribers(ch).contains(id2)]
        w.client_channels(id2).contains(ch) <==> w.subscribers(ch).contains(id2) by {
        assert(w.subscribers(ch) == v.subscribers(ch));
        if id2 != id || v.clients.contains_key(id) {
            assert(w.client_channels(id2) == v.client_channels(id2));
        }
        assert(v.client_channels(id2).contains(ch) <==> v.subscribers(ch).contains(id2));
    }
}

/// Subscribing keeps the two directions in agreement: exactly the pair of
/// this client and this channel is added on both sides.
pub proof fn lemma_subscribe_preserves_inv(v: RegistryView, id: Seq<char>, ch: Seq<char>)
    requires
        v.inv(),
    ensures
        v.subscribe(id, ch).inv(),
{
    let w = v.subscribe(id, ch);
    assert forall|id2: Seq<char>, ch2: Seq<char>|
        #![trigger w.client_channels(id2).contains(ch2)]
        #![trigger w.subscribers(ch2).contains(id2)]
        w.client_channels(id2).contains(ch2) <==> w.subscribers(ch2).contains(id2) by {
        assert(v.client_channels(id2).contains(ch2) <==> v.subscribers(ch2).contains(id2));
        if id2 != id {
            assert(w.client_channels(id2) == v.client_channels(id2));
        }
        if ch2 != ch {
            assert(w.subscribers(ch2) == v.subscribers(ch2));
        }
    }
}

/// Unsubscribing keeps the two directions in agreement: exactly the pair of
/// this client and this channel is removed on both sides.
pub proof fn lemma_unsubscribe_preserves_inv(v: RegistryView, id: Seq<char>, ch: Seq<char>)
    requires
        v.inv(),
    ensures
        v.unsubscribe(id, ch).inv(),
{
    let w = v.unsubscribe(id, ch);
    assert forall|id2: Seq<char>, ch2: Seq<char>|
        #![trigger w.client_channels(id2).contains(ch2)]
        #![trigger w.subscribers(ch2).contains(id2)]
        w.client_channels(id2).contains(ch2) <==> w.subscribers(ch2).contains(id2) by {
        assert(v.client_channels(id2).contains(ch2) <==> v.subscribers(ch2).contains(id2));
        if v.channels.contains_key(ch) {
            if id2 != id || !v.clients.contains_key(id) {
                assert(w.client_channels(id2) == v.client_channels(id2));
            }
            if ch2 != ch {
                assert(w.subscribers(ch2) == v.subscribers(ch2));
            }
            if id2 == id && !v.clients.contains_key(id) {
                assert(!v.client_channels(id).contains(ch2));
            }
        }
    }
}

/// Removing a client keeps the two directions in agreement: its record goes
/// away and every channel's subscriber set loses it.
pub proof fn lemma_remove_client_preserves_inv(v: RegistryView, id: Seq<char>)
    requires
        v.inv(),
    ensures
        v.remove_client(id).inv(),
{
    let w = v.remove_client(id);
    if v.clients.contains_key(id) {
        assert forall|id2: Seq<char>, ch2: Seq<char>|
            #![trigger w.client_channels(id2).contains(ch2)]
            #![trigger w.subscribers(ch2).contains(id2)]
            w.client_channels(id2).contains(ch2) <==> w.subscribers(ch2).contains(id2) by {
            assert(v.client_channels(id2).contains(ch2) <==> v.subscribers(ch2).contains(id2));
            if id2 != id {
                assert(w.client_channels(id2) == v.client_channels(id2));
            } else {
                assert(w.client_channels(id2) == Set::<Seq<char>>::empty());
            }
            if v.channels.contains_key(ch2) {
                assert(w.subscribers(ch2) == v.subscribers(ch2).remove(id));
            } else {
                assert(w.subscribers(ch2) == Set::<Seq<char>>::empty());
            }
        }
    }
}

/// Subscribing is idempotent: membership is a set, not a multiset, so a
/// second identical subscribe leaves the registry exactly as the first left
/// it.
pub proof fn lemma_subscribe_idempotent(v: RegistryView, id: Seq<char>, ch: Seq<char>)
    ensures
        v.subscribe(id, ch).subscribe(id, ch) == v.subscribe(id, ch),
{
    let w = v.subscribe(id, ch);
    assert(w.client_channels(id) == v.client_channels(id).insert(ch));
    assert(w.subscribers(ch) == v.subscribers(ch).insert(id));
    assert(w.client_channels(id).insert(ch) =~= w.client_channels(id));
    assert(w.subscribers(ch).insert(id) =~= w.subscribers(ch));
    assert(w.subscribe(id, ch).clients =~~= w.clients);
    assert(w.subscribe(id, ch).channels =~~= w.channels);
    assert(w.subscribe(id, ch) =~~= w);
}

/// Removing a client cascades: afterwards no channel, whichever channels the
/// client had joined, counts it among its subscribers.
pub proof fn lemma_remove_client_cascade(v: RegistryView, id: Seq<char>)
    requires
        v.inv(),
    ensures
        forall|ch: Seq<char>| !(#[trigger] v.remove_client(id).subscribers(ch)).contains(id),
{
    let w = v.remove_client(id);
    assert forall|ch: Seq<char>| !(#[trigger] w.subscribers(ch)).contains(id) by {
        if v.clients.contains_key(id) {
            if v.channels.contains_key(ch) {
                assert(w.subscribers(ch) == v.channels[ch].remove(id));
            }
        } else {
            assert(!v.client_channels(id).contains(ch));
            assert(!v.subscribers(ch).contains(id));
        }
    }
}

/// A failed delivery costs a subscriber only its membership in one channel:
/// unsubscribing never changes which clients are registered.
pub proof fn lemma_unsubscribe_keeps_clients(v: RegistryView, id: Seq<char>, ch: Seq<char>)
    ensures
        forall|c: Seq<char>|
            #[trigger] v.unsubscribe(id, ch).clients.contains_key(c) == v.clients.contains_key(c),
{
}

/// Does the string vector hold an element whose characters are `x`'s?
fn vec_contains(v: &Vec<String>, x: &String) -> (r: bool)
    ensures
        r == v.deep_view().contains(x@),
{
    let n = v.len();
    let mut i: usize = 0;
    while i < n
        invariant
            0 <= i <= n,
            n == v@.len(),
            forall|j: int| 0 <= j < i ==> #[trigger] v.deep_view()[j] != x@,
        decreases n - i,
    {
        if v[i] == *x {
            assert(v.deep_view()[i as int] == x@);
            return true;
        }
        i += 1;
    }
    false
}

/// Add `x` to a duplicate-free string vector unless an equal string is
/// already there, keeping it duplicate-free.
fn vec_insert(v: &mut Vec<String>, x: &String)
    requires
        old(v).deep_view().no_duplicates(),
    ensures
        final(v).deep_view().no_duplicates(),
        final(v).deep_view().to_set() == old(v).deep_view().to_set().insert(x@),
{
    if !vec_contains(v, x) {
        let ghost pre = v.deep_view();
        v.push(x.clone());
        proof {
            assert(v.deep_view() =~= pre.push(x@));
            assert forall|y: Seq<char>| #[trigger] v.deep_view().to_set().contains(y)
                <==> pre.to_set().insert(x@).contains(y) by {
                if v.deep_view().contains(y) {
                    let j = choose|j: int| 0 <= j < v.deep_view().len() && v.deep_view()[j] == y;
                    if j < pre.len() {
                        assert(pre.contains(y));
                    }
                }
                if pre.contains(y) {
                    let j = choose|j: int| 0 <= j < pre.len() && pre[j] == y;
                    assert(v.deep_view()[j] == y);
                }
                if y == x@ {
                    assert(v.deep_view()[pre.len() as int] == y);
                }
            }
            assert(v.deep_view().to_set() =~= pre.to_set().insert(x@));
        }
    } else {
        proof {
            assert(v.deep_view().to_set().contains(x@));
            assert(v.deep_view().to_set() =~= v.deep_view().to_set().insert(x@));
        }
    }
}

/// Remove the string equal to `x`, if any, from a duplicate-free string
/// vector, keeping it duplicate-free.
fn vec_remove(v: &mut Vec<String>, x: &String)
    requires
        old(v).deep_view().no_duplicates(),
    ensures
        final(v).deep_view().no_duplicates(),
        final(v).deep_view().to_set() == old(v).deep_view().to_set().remove(x@),
{
    let n = v.len();
    let mut i: usize = 0;
    while i < n
        invariant
            0 <= i <= n,
            n == v@.len(),
            v@ == old(v)@,
            v.deep_view().no_duplicates(),
            forall|j: int| 0 <= j < i ==> #[trigger] v.deep_view()[j] != x@,
        decreases n - i,
    {
        if v[i] == *x {
            let ghost pre = v.deep_view();
            proof {
                assert(pre[i as int] == x@);
            }
            v.remove(i);
            proof {
                assert(v.deep_view() =~= pre.remove(i as int));
                let post = v.deep_view();
                assert forall|a: int, b: int|
                    0 <= a < b < post.len() implies post[a] != post[b] by {
                    let a0: int = if a < i { a } else { a + 1 };
                    let b0: int = if b < i { b } else { b + 1 };
                    assert(post[a] == pre[a0]);
                    assert(post[b] == pre[b0]);
                }
                assert forall|y: Seq<char>| #[trigger] post.to_set().contains(y)
                    <==> pre.to_set().remove(x@).contains(y) by {
                    if post.contains(y) {
                        let j = choose|j: int| 0 <= j < post.len() && post[j] == y;
                        let j0: int = if j < i { j } else { j + 1 };
                        assert(pre[j0] == y);
                        assert(pre.contains(y));
                        if y == x@ {
                            assert(pre[j0] == pre[i as int]);
                            assert(false);
                        }
                    }
                    if pre.contains(y) && y != x@ {
                        let j = choose|j: int| 0 <= j < pre.len() && pre[j] == y;
                        if j < i {
                            assert(post[j] == y);
                        } else {
                            assert(j != i);
                            assert(post[j - 1] == y);
                        }
                        assert(post.contains(y));
                    }
                }
                assert(v.deep_view().to_set() =~= pre.to_set().remove(x@));
            }
            return;
        }
        i += 1;
    }
    proof {
        assert(!v.deep_view().to_set().contains(x@));
        assert(v.deep_view().to_set() =~= v.deep_view().to_set().remove(x@));
    }
}

/// Clone a vector of strings; the copy holds equal strings.
fn clone_string_vec(v: &Vec<String>) -> (w: Vec<String>)
    ensures
        w@ == v@,
{
    let w = v.clone();
    proof {
        assert forall|i: int| 0 <= i < v@.len() implies w@[i] == v@[i] by {
            assert(cloned::<String>(v@[i], w@[i]));
        }
        assert(w@ =~= v@);
    }
    w
}

/// The subscription registry itself: one value holding both directions of
/// the client and channel relation, so that one critical section covers each
/// whole operation.
pub struct Subscription {
    /// Client id to the channels it has joined, duplicate-free.
    clients: StringHashMap<Vec<String>>,
    /// Channel name to the ids subscribed to it, duplicate-free.
    channels: StringHashMap<Vec<String>>,
}

impl View for Subscription {
    type V = RegistryView;

    closed spec fn view(&self) -> RegistryView {
        RegistryView {
            clients: self.clients@.map_values(|v: Vec<String>| v.deep_view().to_set()),
            channels: self.channels@.map_values(|v: Vec<String>| v.deep_view().to_set()),
        }
    }
}

impl Subscription {
    /// The stored membership lists are duplicate-free, so that each list
    /// faithfully represents a set.
    pub closed spec fn rep_inv(self) -> bool {
        &&& forall|k: Seq<char>|
            #[trigger] self.clients@.contains_key(k) ==> self.clients@[k].deep_view().no_duplicates()
        &&& forall|k: Seq<char>|
            #[trigger] self.channels@.contains_key(k)
                ==> self.channels@[k].deep_view().no_duplicates()
    }

    /// The registry is well formed: its representation is sound and the two
    /// directions of the membership relation agree.
    pub open spec fn wf(self) -> bool {
        &&& self.rep_inv()
        &&& self@.inv()
    }

    /// Create a registry with no clients and no channels.
    pub fn new() -> (s: Subscription)
        ensures
            s.wf(),
            s@ == RegistryView::empty(),
    {
        let s = Subscription { clients: StringHashMap::new(), channels: StringHashMap::new() };
        proof {
            assert(s@.clients =~= Map::<Seq<char>, Set<Seq<char>>>::empty());
            assert(s@.channels =~= Map::<Seq<char>, Set<Seq<char>>>::empty());
            assert(s@ =~~= RegistryView::empty());
        }
        s
    }

    /// Is this client currently registered?
    pub fn is_registered(&self, id: &str) -> (r: bool)
        ensures
            r == self@.clients.contains_key(id@),
    {
        self.clients.contains_key(id)
    }

    /// Has this channel ever been created?
    pub fn is_channel_registered(&self, channel: &str) -> (r: bool)
        ensures
            r == self@.channels.contains_key(channel@),
    {
        self.channels.contains_key(channel)
    }

    /// Register a client, giving it an empty channel set; registering an
    /// already known client changes nothing.
    pub fn add_client(&mut self, id: &str)
        requires
            old(self).wf(),
        ensures
            final(self).wf(),
            final(self)@ == old(self)@.register_client(id@),
    {
        if !self.clients.contains_key(id) {
            let fresh: Vec<String> = Vec::new();
            let ghost gfresh = fresh;
            self.clients.insert(id.to_owned(), fresh);
            proof {
                assert(gfresh.deep_view().to_set() =~= Set::<Seq<char>>::empty());
                assert(self@.clients =~~= old(self)@.clients.insert(
                    id@,
                    Set::<Seq<char>>::empty(),
                ));
                assert(self@.channels =~~= old(self)@.channels);
                assert(self@ =~~= old(self)@.register_client(id@));
                lemma_register_client_preserves_inv(old(self)@, id@);
            }
        }
    }

    /// Subscribe a client to a channel, creating the channel entry (and a
    /// record for a hitherto unknown client) as needed.  Subscribing twice
    /// changes nothing the second time.
    pub fn add_subscription(&mut self, id: &str, channel: &str)
        requires
            old(self).wf(),
        ensures
            final(self).wf(),
            final(self)@ == old(self)@.subscribe(id@, channel@),
    {
        let id_string = id.to_owned();
        let ch_string = channel.to_owned();

        let mut subs: Vec<String> = match self.channels.get(channel) {
            Some(v) => clone_string_vec(v),
            None => Vec::new(),
        };
        proof {
            assert(subs.deep_view().to_set() =~= old(self)@.subscribers(channel@));
        }
        vec_insert(&mut subs, &id_string);
        self.channels.insert(ch_string.clone(), subs);

        let mut chans: Vec<String> = match self.clients.get(id) {
            Some(v) => clone_string_vec(v),
            None => Vec::new(),
        };
        proof {
            assert(chans.deep_view().to_set() =~= old(self)@.client_channels(id@));
        }
        vec_insert(&mut chans, &ch_string);
        self.clients.insert(id_string, chans);

        proof {
            assert(self@.channels =~~= old(self)@.channels.insert(
                channel@,
                old(self)@.subscribers(channel@).insert(id@),
            ));
            assert(self@.clients =~~= old(self)@.clients.insert(
                id@,
                old(self)@.client_channels(id@).insert(channel@),
            ));
            assert(self@ =~~= old(self)@.subscribe(id@, channel@));
            lemma_subscribe_preserves_inv(old(self)@, id@, channel@);
        }
    }

    /// Unsubscribe a client from a channel.  If the channel was never
    /// created this is a no-op; if the client was not a member the channel
    /// keeps its subscribers and the client keeps its other channels.
    pub fn remove_subscription(&mut self, id: &str, channel: &str)
        requires
            old(self).wf(),
        ensures
            final(self).wf(),
            final(self)@ == old(self)@.unsubscribe(id@, channel@),
    {
        let id_string = id.to_owned();
        let found = match self.channels.get(channel) {
            Some(v) => {
                let mut subs = clone_string_vec(v);
                proof {
                    assert(subs.deep_view().to_set() =~= old(self)@.subscribers(channel@));
                }
                vec_remove(&mut subs, &id_string);
                self.channels.insert(channel.to_owned(), subs);
                true
            },
            None => false,
        };
        if found {
            match self.clients.get(id) {
                Some(v) => {
                    let mut chans = clone_string_vec(v);
                    proof {
                        assert(chans.deep_view().to_set() =~= old(self)@.client_channels(id@));
                    }
                    vec_remove(&mut chans, &channel.to_owned());
                    self.clients.insert(id_string, chans);
                },
                None => {},
            }
            proof {
                assert(self@.channels =~~= old(self)@.channels.insert(
                    channel@,
                    old(self)@.channels[channel@].remove(id@),
                ));
                if old(self)@.clients.contains_key(id@) {
                    assert(self@.clients =~~= old(self)@.clients.insert(
                        id@,
                        old(self)@.clients[id@].remove(channel@),
                    ));
                } else {
                    assert(self@.clients =~~= old(self)@.clients);
                }
                assert(self@ =~~= old(self)@.unsubscribe(id@, channel@));
                lemma_unsubscribe_preserves_inv(old(self)@, id@, channel@);
            }
        }
    }

    /// A snapshot of the ids subscribed to a channel, each exactly once; a
    /// channel that was never created has no subscribers.
    pub fn get_subscribers(&self, channel: &str) -> (subs: Vec<String>)
        requires
            self.wf(),
        ensures
            subs.deep_view().no_duplicates(),
            subs.deep_view().to_set() == self@.subscribers(channel@),
    {
        let subs = match self.channels.get(channel) {
            Some(v) => clone_string_vec(v),
            None => Vec::new(),
        };
        proof {
            assert(subs.deep_view().to_set() =~= self@.subscribers(channel@));
        }
        subs
    }

    /// Remove a client: unsubscribe it from every channel it had joined,
    /// then drop its record.  Removing an unknown client is a no-op, and
    /// channel entries stay even when they become empty.
    pub fn remove_client(&mut self, id: &str)
        requires
            old(self).wf(),
        ensures
            final(self).wf(),
            final(self)@ == old(self)@.remove_client(id@),
    {
        let chans: Vec<String> = match self.clients.get(id) {
            None => {
                return ;
            },
            Some(v) => clone_string_vec(v),
        };
        let ghost chlist = chans.deep_view();
        proof {
            assert(old(self)@.clients.contains_key(id@));
            assert(chlist.to_set() =~= old(self)@.client_channels(id@));
        }
        let id_string = id.to_owned();
        let n = chans.len();
        let mut i: usize = 0;
        while i < n
            invariant
                0 <= i <= n,
                n == chans@.len(),
                chlist == chans.deep_view(),
                chlist.no_duplicates(),
                id_string@ == id@,
                old(self).wf(),
                chlist.to_set() == old(self)@.client_channels(id@),
                self.clients@ == old(self).clients@,
                self.channels@.dom() == old(self).channels@.dom(),
                forall|k: Seq<char>|
                    #[trigger] self.channels@.contains_key(k)
                        ==> self.channels@[k].deep_view().no_duplicates(),
                forall|k: Seq<char>|
                    self.channels@.contains_key(k) && chlist.take(i as int).contains(k)
                        ==> #[trigger] self.channels@[k].deep_view().to_set()
                            == old(self)@.subscribers(k).remove(id@),
                forall|k: Seq<char>|
                    self.channels@.contains_key(k) && !chlist.take(i as int).contains(k)
                        ==> #[trigger] self.channels@[k] == old(self).channels@[k],
            decreases n - i,
        {
            let ch = &chans[i];
            proof {
                assert(chlist[i as int] == ch@);
                assert(chlist.to_set().contains(ch@));
                assert(old(self)@.client_channels(id@).contains(ch@));
                assert(old(self)@.subscribers(ch@).contains(id@));
                assert(old(self)@.channels.contains_key(ch@));
                assert(self.channels@.contains_key(ch@));
                // This channel has not been visited yet: the list is
                // duplicate-free.
                assert(!chlist.take(i as int).contains(ch@)) by {
                    if chlist.take(i as int).contains(ch@) {
                        let j = choose|j: int|
                            0 <= j < i && #[trigger] chlist.take(i as int)[j] == ch@;
                        assert(chlist[j] == chlist[i as int]);
                    }
                }
            }
            match self.channels.get(ch.as_str()) {
                Some(v) => {
                    let mut subs = clone_string_vec(v);
                    proof {
                        assert(subs.deep_view().to_set() =~= old(self)@.subscribers(ch@));
                    }
                    vec_remove(&mut subs, &id_string);
                    self.channels.insert(ch.clone(), subs);
                },
                None => {
                    proof {
                        assert(false);
                    }
                },
            }
            proof {
                assert(chlist.take(i + 1) =~= chlist.take(i as int).push(chlist[i as int]));
                assert forall|k: Seq<char>| chlist.take(i + 1).contains(k) implies
                    k == ch@ || chlist.take(i as int).contains(k) by {
                    let j = choose|j: int| 0 <= j < i + 1 && #[trigger] chlist.take(i + 1)[j] == k;
                    if j < i {
                        assert(chlist.take(i as int)[j] == k);
                    }
                }
                assert(chlist.take(i + 1)[i as int] == ch@);
                assert forall|k: Seq<char>| chlist.take(i as int).contains(k) implies
                    chlist.take(i + 1).contains(k) by {
                    let j = choose|j: int|
                        0 <= j < i && #[trigger] chlist.take(i as int)[j] == k;
                    assert(chlist.take(i + 1)[j] == k);
                }
            }
            i += 1;
        }
        proof {
            assert(chlist.take(n as int) =~= chlist);
        }
        self.clients.remove(id);
        proof {
            assert(self@.clients =~~= old(self)@.clients.remove(id@));
            assert forall|k: Seq<char>| #[trigger] self.channels@.contains_key(k) implies
                self.channels@[k].deep_view().to_set() == old(self)@.subscribers(k).remove(
                id@,
            ) by {
                if !chlist.contains(k) {
                    assert(self.channels@[k] == old(self).channels@[k]);
                    assert(!old(self)@.client_channels(id@).contains(k));
                    assert(!old(self)@.subscribers(k).contains(id@));
                    assert(old(self)@.subscribers(k).remove(id@) =~= old(self)@.subscribers(k));
                    assert(self.channels@[k].deep_view().to_set() =~= old(self)@.subscribers(k));
                }
            }
            assert(self@.channels =~~= old(self)@.channels.map_values(
                |subs: Set<Seq<char>>| subs.remove(id@),
            ));
            assert(self@ =~~= old(self)@.remove_client(id@));
            lemma_remove_client_preserves_inv(old(self)@, id@);
        }
    }
}

} // verus!

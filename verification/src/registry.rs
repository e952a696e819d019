//! Connected-subscriber bookkeeping.
//!
//! A `Client` is one connected subscriber's mutable set of subscribed
//! channel ids.  The `ClientRegistry` maps connection tokens to clients:
//! a token maps to at most one live client at a time, a reconnect under a
//! reused token supersedes the previous entry, and removing an absent token
//! is a no-op.  Broadcast takes the current membership as a snapshot of
//! tokens; delivery itself happens at the transport edge, outside the
//! registry.  Per current policy the snapshot is unfiltered: every
//! registered client is a target, whatever its subscriptions say.

use vstd::prelude::*;

verus! {

/// No channel id occurs twice.
pub open spec fn channels_unique(s: Seq<i32>) -> bool {
    forall|i: int, j: int| 0 <= i < j < s.len() ==> s[i] != s[j]
}

/// One connected subscriber: its set of subscribed channel ids.
///
/// The transport's send handle for the connection stays with the transport
/// edge, keyed by the same token the registry uses; the registry tracks
/// only the membership and subscription state.
pub struct Client {
    channels: Vec<i32>,
}

impl View for Client {
    type V = Set<i32>;

    closed spec fn view(&self) -> Set<i32> {
        self.channels@.to_set()
    }
}

proof fn lemma_to_set_push(s: Seq<i32>, c: i32)
    ensures
        s.push(c).to_set() =~= s.to_set().insert(c),
{
    assert forall|x: i32| s.push(c).to_set().contains(x) implies s.to_set().insert(c).contains(
        x,
    ) by {
        let k = choose|k: int| 0 <= k < s.push(c).len() && s.push(c)[k] == x;
        if k < s.len() {
            assert(s[k] == x);
            assert(s.contains(x));
        }
    }
    assert forall|x: i32| s.to_set().insert(c).contains(x) implies s.push(c).to_set().contains(
        x,
    ) by {
        if x == c {
            assert(s.push(c)[s.len() as int] == x);
        } else {
            let k = choose|k: int| 0 <= k < s.len() && s[k] == x;
            assert(s.push(c)[k] == x);
        }
        assert(s.push(c).contains(x));
    }
}

proof fn lemma_to_set_remove(s: Seq<i32>, j: int)
    requires
        channels_unique(s),
        0 <= j < s.len(),
    ensures
        s.remove(j).to_set() =~= s.to_set().remove(s[j]),
        channels_unique(s.remove(j)),
{
    let c = s[j];
    let r = s.remove(j);
    assert forall|x: i32| r.to_set().contains(x) implies s.to_set().remove(c).contains(x) by {
        let k = choose|k: int| 0 <= k < r.len() && r[k] == x;
        if k < j {
            assert(s[k] == x);
        } else {
            assert(s[k + 1] == x);
        }
        assert(s.contains(x));
    }
    assert forall|x: i32| s.to_set().remove(c).contains(x) implies r.to_set().contains(x) by {
        let k = choose|k: int| 0 <= k < s.len() && s[k] == x;
        if k < j {
            assert(r[k] == x);
        } else {
            assert(r[k - 1] == x);
        }
        assert(r.contains(x));
    }
    assert forall|i: int, k: int| 0 <= i < k < r.len() implies r[i] != r[k] by {
        if k < j {
            assert(r[i] == s[i] && r[k] == s[k]);
        } else if i < j {
            assert(r[i] == s[i] && r[k] == s[k + 1]);
        } else {
            assert(r[i] == s[i + 1] && r[k] == s[k + 1]);
        }
    }
}

impl Client {
    /// The subscription set never holds a channel twice.
    pub closed spec fn wf(&self) -> bool {
        channels_unique(self.channels@)
    }

    /// A fresh client subscribes to nothing.
    pub fn new() -> (r: Client)
        ensures
            r.wf(),
            r@ =~= Set::<i32>::empty(),
    {
        let r = Client { channels: Vec::new() };
        proof {
            assert forall|x: i32| !r.channels@.to_set().contains(x) by {
                if r.channels@.contains(x) {
                    let k = choose|k: int| 0 <= k < r.channels@.len() && r.channels@[k] == x;
                }
            }
        }
        r
    }

    fn find_channel(&self, channel: i32) -> (r: Option<usize>)
        ensures
            match r {
                Some(j) => j < self.channels@.len() && self.channels@[j as int] == channel,
                None => !self.channels@.contains(channel),
            },
    {
        let mut j: usize = 0;
        while j < self.channels.len()
            invariant
                j <= self.channels@.len(),
                forall|q: int| 0 <= q < j ==> self.channels@[q] != channel,
            decreases self.channels@.len() - j,
        {
            if self.channels[j] == channel {
                return Some(j);
            }
            j += 1;
        }
        None
    }

    /// Adds `channel` to the subscription set; adding a present channel
    /// changes nothing.
    pub fn subscribe(&mut self, channel: i32)
        requires
            old(self).wf(),
        ensures
            final(self).wf(),
            final(self)@ =~= old(self)@.insert(channel),
    {
        match self.find_channel(channel) {
            Some(_) => {
                proof {
                    assert(self.channels@.to_set().contains(channel));
                }
            },
            None => {
                let ghost old_channels = self.channels@;
                self.channels.push(channel);
                proof {
                    lemma_to_set_push(old_channels, channel);
                    assert forall|i: int, k: int|
                        0 <= i < k < self.channels@.len() implies self.channels@[i]
                        != self.channels@[k] by {
                        if k == self.channels@.len() - 1 {
                            assert(old_channels[i] != channel);
                        }
                    }
                }
            },
        }
    }

    /// Removes `channel` from the subscription set; removing an absent
    /// channel changes nothing.
    pub fn unsubscribe(&mut self, channel: i32)
        requires
            old(self).wf(),
        ensures
            final(self).wf(),
            final(self)@ =~= old(self)@.remove(channel),
    {
        match self.find_channel(channel) {
            Some(j) => {
                let ghost old_channels = self.channels@;
                self.channels.remove(j);
                proof {
                    lemma_to_set_remove(old_channels, j as int);
                }
            },
            None => {
                proof {
                    assert(!self.channels@.to_set().contains(channel));
                }
            },
        }
    }

    /// Whether `channel` is currently subscribed.
    pub fn in_channel(&self, channel: i32) -> (r: bool)
        ensures
            r == self@.contains(channel),
    {
        match self.find_channel(channel) {
            Some(j) => {
                proof {
                    assert(self.channels@.contains(channel));
                }
                true
            },
            None => false,
        }
    }
}

/// No connection token occurs twice.
pub open spec fn tokens_unique(s: Seq<(u64, Client)>) -> bool {
    forall|i: int, j: int| 0 <= i < j < s.len() ==> (#[trigger] s[i]).0 != (#[trigger] s[j]).0
}

/// The mapping an entry list denotes: later entries supersede earlier ones.
pub open spec fn map_of(s: Seq<(u64, Client)>) -> Map<u64, Set<i32>>
    decreases s.len(),
{
    if s.len() == 0 {
        Map::empty()
    } else {
        map_of(s.drop_last()).insert(s.last().0, s.last().1@)
    }
}

proof fn lemma_map_of_contains(s: Seq<(u64, Client)>, t: u64)
    ensures
        map_of(s).dom().contains(t) <==> exists|i: int| 0 <= i < s.len() && (#[trigger] s[i]).0
            == t,
    decreases s.len(),
{
    if s.len() > 0 {
        lemma_map_of_contains(s.drop_last(), t);
        if s.last().0 == t {
            assert(s[s.len() - 1].0 == t);
        }
        if exists|i: int| 0 <= i < s.drop_last().len() && (#[trigger] s.drop_last()[i]).0 == t {
            let i = choose|i: int|
                0 <= i < s.drop_last().len() && (#[trigger] s.drop_last()[i]).0 == t;
            assert(s[i].0 == t);
        }
        if exists|i: int| 0 <= i < s.len() && (#[trigger] s[i]).0 == t {
            let i = choose|i: int| 0 <= i < s.len() && (#[trigger] s[i]).0 == t;
            if i < s.len() - 1 {
                assert(s.drop_last()[i].0 == t);
            }
        }
    }
}

proof fn lemma_map_of_index(s: Seq<(u64, Client)>, j: int)
    requires
        tokens_unique(s),
        0 <= j < s.len(),
    ensures
        map_of(s).dom().contains(s[j].0),
        map_of(s)[s[j].0] == s[j].1@,
    decreases s.len(),
{
    if j == s.len() - 1 {
    } else {
        assert(s.drop_last()[j] == s[j]);
        lemma_map_of_index(s.drop_last(), j);
        assert(s.last().0 != s[j].0);
    }
}

proof fn lemma_map_of_remove(s: Seq<(u64, Client)>, j: int)
    requires
        tokens_unique(s),
        0 <= j < s.len(),
    ensures
        map_of(s.remove(j)) =~= map_of(s).remove(s[j].0),
        tokens_unique(s.remove(j)),
        forall|q: int| 0 <= q < s.remove(j).len() ==> (#[trigger] s.remove(j)[q]).0 != s[j].0,
    decreases s.len(),
{
    let t = s[j].0;
    let r = s.remove(j);
    assert forall|i: int, k: int| 0 <= i < k < r.len() implies (#[trigger] r[i]).0
        != (#[trigger] r[k]).0 by {
        if k < j {
            assert(r[i] == s[i] && r[k] == s[k]);
        } else if i < j {
            assert(r[i] == s[i] && r[k] == s[k + 1]);
        } else {
            assert(r[i] == s[i + 1] && r[k] == s[k + 1]);
        }
    }
    assert forall|q: int| 0 <= q < r.len() implies (#[trigger] r[q]).0 != t by {
        if q < j {
            assert(r[q] == s[q]);
        } else {
            assert(r[q] == s[q + 1]);
        }
    }
    if j == s.len() - 1 {
        assert(r =~= s.drop_last());
        lemma_map_of_contains(s.drop_last(), t);
        if map_of(s.drop_last()).dom().contains(t) {
            let i = choose|i: int|
                0 <= i < s.drop_last().len() && (#[trigger] s.drop_last()[i]).0 == t;
            assert(s[i].0 == t);
            assert(false);
        }
        assert(map_of(s.drop_last()).remove(t) =~= map_of(s.drop_last()));
    } else {
        assert(r.drop_last() =~= s.drop_last().remove(j));
        assert(r.last() == s.last());
        assert(s.drop_last()[j] == s[j]);
        lemma_map_of_remove(s.drop_last(), j);
        assert(map_of(r) == map_of(s.drop_last().remove(j)).insert(s.last().0, s.last().1@));
        assert(map_of(s.drop_last()).remove(t).insert(s.last().0, s.last().1@)
            =~= map_of(s.drop_last()).insert(s.last().0, s.last().1@).remove(t));
    }
}

proof fn lemma_map_of_dom_len(s: Seq<(u64, Client)>)
    requires
        tokens_unique(s),
    ensures
        map_of(s).dom().finite(),
        map_of(s).dom().len() == s.len(),
    decreases s.len(),
{
    if s.len() > 0 {
        lemma_map_of_dom_len(s.drop_last());
        lemma_map_of_contains(s.drop_last(), s.last().0);
        if map_of(s.drop_last()).dom().contains(s.last().0) {
            let i = choose|i: int|
                0 <= i < s.drop_last().len() && (#[trigger] s.drop_last()[i]).0 == s.last().0;
            assert(s[i].0 == s[s.len() - 1].0);
            assert(false);
        }
    }
}

/// The view a registry takes after `subscribe(token, channel)`: the token's
/// set gains the channel if the token is registered, else nothing changes.
pub open spec fn subscribe_view(m: Map<u64, Set<i32>>, token: u64, channel: i32) -> Map<
    u64,
    Set<i32>,
> {
    if m.dom().contains(token) {
        m.insert(token, m[token].insert(channel))
    } else {
        m
    }
}

/// The view a registry takes after `unsubscribe(token, channel)`.
pub open spec fn unsubscribe_view(m: Map<u64, Set<i32>>, token: u64, channel: i32) -> Map<
    u64,
    Set<i32>,
> {
    if m.dom().contains(token) {
        m.insert(token, m[token].remove(channel))
    } else {
        m
    }
}

/// The shared mapping from live connection tokens to clients.
pub struct ClientRegistry {
    entries: Vec<(u64, Client)>,
}

impl View for ClientRegistry {
    type V = Map<u64, Set<i32>>;

    closed spec fn view(&self) -> Map<u64, Set<i32>> {
        map_of(self.entries@)
    }
}

impl ClientRegistry {
    /// Tokens are unique and every held client is well formed.
    pub closed spec fn wf(&self) -> bool {
        tokens_unique(self.entries@) && forall|i: int|
            0 <= i < self.entries@.len() ==> (#[trigger] self.entries@[i]).1.wf()
    }

    /// An empty registry.
    pub fn new() -> (r: ClientRegistry)
        ensures
            r.wf(),
            r@ =~= Map::<u64, Set<i32>>::empty(),
    {
        ClientRegistry { entries: Vec::new() }
    }

    fn find_token(&self, token: u64) -> (r: Option<usize>)
        ensures
            match r {
                Some(j) => j < self.entries@.len() && self.entries@[j as int].0 == token,
                None => forall|q: int|
                    0 <= q < self.entries@.len() ==> (#[trigger] self.entries@[q]).0 != token,
            },
    {
        let mut j: usize = 0;
        while j < self.entries.len()
            invariant
                j <= self.entries@.len(),
                forall|q: int| 0 <= q < j ==> (#[trigger] self.entries@[q]).0 != token,
            decreases self.entries@.len() - j,
        {
            if self.entries[j].0 == token {
                return Some(j);
            }
            j += 1;
        }
        None
    }

    /// Number of live entries.
    pub fn len(&self) -> (r: usize)
        requires
            self.wf(),
        ensures
            r == self@.dom().len(),
    {
        proof {
            lemma_map_of_dom_len(self.entries@);
        }
        self.entries.len()
    }

    /// Removes the entry for `token` if present; removing an absent token
    /// is a no-op, not an error.
    pub fn deregister(&mut self, token: u64)
        requires
            old(self).wf(),
        ensures
            final(self).wf(),
            final(self)@ =~= old(self)@.remove(token),
            !final(self)@.dom().contains(token),
    {
        proof {
            lemma_map_of_contains(self.entries@, token);
        }
        match self.find_token(token) {
            Some(j) => {
                let ghost old_entries = self.entries@;
                self.entries.remove(j);
                proof {
                    lemma_map_of_remove(old_entries, j as int);
                    lemma_map_of_contains(self.entries@, token);
                }
            },
            None => {
                proof {
                    assert(map_of(self.entries@).remove(token) =~= map_of(self.entries@));
                }
            },
        }
    }

    /// Inserts a client under `token`, superseding any prior entry for the
    /// same token.
    pub fn register(&mut self, token: u64, client: Client)
        requires
            old(self).wf(),
            client.wf(),
        ensures
            final(self).wf(),
            final(self)@ =~= old(self)@.insert(token, client@),
    {
        self.deregister(token);
        proof {
            lemma_map_of_contains(self.entries@, token);
        }
        let ghost mid_entries = self.entries@;
        self.entries.push((token, client));
        proof {
            assert(self.entries@.drop_last() =~= mid_entries);
            assert forall|i: int, k: int| 0 <= i < k < self.entries@.len() implies
                (#[trigger] self.entries@[i]).0 != (#[trigger] self.entries@[k]).0 by {
                if k == self.entries@.len() - 1 {
                    assert(mid_entries[i].0 != token);
                }
            }
        }
    }

    /// Whether `token` is registered and subscribed to `channel`.
    pub fn is_subscribed(&self, token: u64, channel: i32) -> (r: bool)
        requires
            self.wf(),
        ensures
            r == (self@.dom().contains(token) && self@[token].contains(channel)),
    {
        proof {
            lemma_map_of_contains(self.entries@, token);
        }
        match self.find_token(token) {
            Some(j) => {
                proof {
                    lemma_map_of_index(self.entries@, j as int);
                }
                self.entries[j].1.in_channel(channel)
            },
            None => false,
        }
    }

    /// Adds `channel` to the client registered under `token`; a message for
    /// an unregistered token changes nothing.
    pub fn subscribe(&mut self, token: u64, channel: i32)
        requires
            old(self).wf(),
        ensures
            final(self).wf(),
            final(self)@ =~= subscribe_view(old(self)@, token, channel),
    {
        proof {
            lemma_map_of_contains(self.entries@, token);
        }
        match self.find_token(token) {
            Some(j) => {
                let ghost old_entries = self.entries@;
                proof {
                    lemma_map_of_index(old_entries, j as int);
                    lemma_map_of_remove(old_entries, j as int);
                }
                let mut entry = self.entries.remove(j);
                entry.1.subscribe(channel);
                let ghost mid_entries = self.entries@;
                self.entries.push(entry);
                proof {
                    assert(self.entries@.drop_last() =~= mid_entries);
                    assert forall|i: int, k: int| 0 <= i < k < self.entries@.len() implies
                        (#[trigger] self.entries@[i]).0 != (#[trigger] self.entries@[k]).0 by {
                        if k == self.entries@.len() - 1 {
                            assert(mid_entries[i].0 != token);
                        }
                    }
                    assert(final(self)@ =~= old(self)@.insert(token, old(self)@[token].insert(
                        channel,
                    )));
                }
            },
            None => {},
        }
    }

    /// Removes `channel` from the client registered under `token`; a
    /// message for an unregistered token changes nothing.
    pub fn unsubscribe(&mut self, token: u64, channel: i32)
        requires
            old(self).wf(),
        ensures
            final(self).wf(),
            final(self)@ =~= unsubscribe_view(old(self)@, token, channel),
    {
        proof {
            lemma_map_of_contains(self.entries@, token);
        }
        match self.find_token(token) {
            Some(j) => {
                let ghost old_entries = self.entries@;
                proof {
                    lemma_map_of_index(old_entries, j as int);
                    lemma_map_of_remove(old_entries, j as int);
                }
                let mut entry = self.entries.remove(j);
                entry.1.unsubscribe(channel);
                let ghost mid_entries = self.entries@;
                self.entries.push(entry);
                proof {
                    assert(self.entries@.drop_last() =~= mid_entries);
                    assert forall|i: int, k: int| 0 <= i < k < self.entries@.len() implies
                        (#[trigger] self.entries@[i]).0 != (#[trigger] self.entries@[k]).0 by {
                        if k == self.entries@.len() - 1 {
                            assert(mid_entries[i].0 != token);
                        }
                    }
                    assert(final(self)@ =~= old(self)@.insert(token, old(self)@[token].remove(
                        channel,
                    )));
                }
            },
            None => {},
        }
    }

    /// The snapshot of delivery targets for one broadcast: every registered
    /// token, each exactly once.  Per current policy the snapshot ignores
    /// subscription sets; broadcasting over an empty registry yields an
    /// empty snapshot and is a no-op.
    pub fn broadcast_targets(&self) -> (r: Vec<u64>)
        requires
            self.wf(),
        ensures
            r@.len() == self@.dom().len(),
            forall|k: u64| r@.contains(k) <==> self@.dom().contains(k),
    {
        let mut r: Vec<u64> = Vec::new();
        let mut i: usize = 0;
        while i < self.entries.len()
            invariant
                i <= self.entries@.len(),
                r@.len() == i,
                forall|q: int| 0 <= q < i ==> r@[q] == (#[trigger] self.entries@[q]).0,
            decreases self.entries@.len() - i,
        {
            r.push(self.entries[i].0);
            i += 1;
        }
        proof {
            lemma_map_of_dom_len(self.entries@);
            assert forall|k: u64| r@.contains(k) <==> self@.dom().contains(k) by {
                lemma_map_of_contains(self.entries@, k);
                if r@.contains(k) {
                    let q = choose|q: int| 0 <= q < r@.len() && r@[q] == k;
                    assert(self.entries@[q].0 == k);
                }
                if self@.dom().contains(k) {
                    let q = choose|q: int|
                        0 <= q < self.entries@.len() && (#[trigger] self.entries@[q]).0 == k;
                    assert(r@[q] == k);
                }
            }
        }
        r
    }
}

/// Registering a token that is not yet present and then deregistering it
/// restores the registry view exactly; in particular a round trip on an
/// empty registry leaves it empty.
pub proof fn lemma_register_deregister_round_trip(
    m: Map<u64, Set<i32>>,
    token: u64,
    channels: Set<i32>,
)
    requires
        !m.dom().contains(token),
    ensures
        m.insert(token, channels).remove(token) =~= m,
{
}

} // verus!

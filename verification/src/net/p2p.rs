use vstd::prelude::*;
use rand::rngs::OsRng;
use rand::seq::IteratorRandom;

verus! {

/// What the peer-to-peer interface holds: its settings and executor, the
/// addresses that are waiting for a connection, the connected channels by
/// address, and whether peer discovery runs and network debugging is on.
/// Addresses are URLs in their serialized form, which is what two URLs are
/// compared by.
pub struct P2pView<C, S, E> {
    pub settings: S,
    pub executor: E,
    pub pending: Set<Seq<char>>,
    pub channels: Map<Seq<char>, C>,
    pub peer_discovery_running: bool,
    pub dnet_enabled: bool,
}

impl<C, S, E> P2pView<C, S, E> {
    pub open spec fn with_pending(self, addr: Seq<char>) -> Self {
        P2pView { pending: self.pending.insert(addr), ..self }
    }

    pub open spec fn without_pending(self, addr: Seq<char>) -> Self {
        P2pView { pending: self.pending.remove(addr), ..self }
    }

    pub open spec fn with_channel(self, addr: Seq<char>, channel: C) -> Self {
        P2pView { channels: self.channels.insert(addr, channel), ..self }
    }

    pub open spec fn without_channel(self, addr: Seq<char>) -> Self {
        P2pView { channels: self.channels.remove(addr), ..self }
    }

    pub open spec fn with_dnet(self, enabled: bool) -> Self {
        P2pView { dnet_enabled: enabled, ..self }
    }

    pub open spec fn with_peer_discovery(self, running: bool) -> Self {
        P2pView { peer_discovery_running: running, ..self }
    }

    /// The channels left after those at the addresses in `addrs` are removed.
    pub open spec fn without_channels(self, addrs: Seq<String>) -> Self {
        P2pView {
            channels: self.channels.remove_keys(Set::new(|k: Seq<char>| listed(addrs, k))),
            ..self
        }
    }

    /// The addresses a broadcast reaches when those in `exclude` are left out.
    pub open spec fn reached_addresses(self, exclude: Seq<String>) -> Set<Seq<char>> {
        self.channels.dom().filter(|k: Seq<char>| !listed(exclude, k))
    }

    pub open spec fn is_connected(self, addr: Seq<char>) -> bool {
        self.channels.dom().contains(addr)
    }
}

/// No two entries share an address.
pub open spec fn keys_distinct<C>(e: Seq<(String, C)>) -> bool {
    forall|i: int, j: int|
        0 <= i < e.len() && 0 <= j < e.len() && i != j ==> #[trigger] e[i].0@ != #[trigger] e[j].0@
}

/// The map from address to channel that a list of entries with distinct
/// addresses stands for.
pub open spec fn entry_map<C>(e: Seq<(String, C)>) -> Map<Seq<char>, C> {
    Map::new(
        |k: Seq<char>| exists|i: int| 0 <= i < e.len() && #[trigger] e[i].0@ == k,
        |k: Seq<char>| e[choose|i: int| 0 <= i < e.len() && #[trigger] e[i].0@ == k].1,
    )
}

pub open spec fn strings_distinct(e: Seq<String>) -> bool {
    forall|i: int, j: int|
        0 <= i < e.len() && 0 <= j < e.len() && i != j ==> #[trigger] e[i]@ != #[trigger] e[j]@
}

/// The set of texts held by a list of strings.
pub open spec fn string_set(e: Seq<String>) -> Set<Seq<char>> {
    Set::new(|k: Seq<char>| exists|i: int| 0 <= i < e.len() && #[trigger] e[i]@ == k)
}

/// The addresses of a list of channel entries.
pub open spec fn entry_addresses<C>(res: Seq<&(String, C)>) -> Set<Seq<char>> {
    Set::new(|k: Seq<char>| exists|i: int| 0 <= i < res.len() && #[trigger] res[i].0@ == k)
}

/// `addr` is one of the texts in `list`.
pub open spec fn listed(list: Seq<String>, addr: Seq<char>) -> bool {
    exists|i: int| 0 <= i < list.len() && #[trigger] list[i]@ == addr
}

proof fn lemma_entry_lookup<C>(e: Seq<(String, C)>, i: int)
    requires
        keys_distinct(e),
        0 <= i < e.len(),
    ensures
        entry_map(e).dom().contains(e[i].0@),
        entry_map(e)[e[i].0@] == e[i].1,
{
    let k = e[i].0@;
    assert(exists|j: int| 0 <= j < e.len() && #[trigger] e[j].0@ == k);
    let j = choose|j: int| 0 <= j < e.len() && #[trigger] e[j].0@ == k;
    assert(j == i);
}

proof fn lemma_entry_push<C>(e: Seq<(String, C)>, s: String, c: C)
    requires
        keys_distinct(e),
        !entry_map(e).dom().contains(s@),
    ensures
        keys_distinct(e.push((s, c))),
        entry_map(e.push((s, c))) =~= entry_map(e).insert(s@, c),
{
    let f = e.push((s, c));
    assert forall|i: int, j: int|
        0 <= i < f.len() && 0 <= j < f.len() && i != j implies #[trigger] f[i].0@ != #[trigger] f[j].0@ by {
        if i == e.len() {
            assert(f[j] == e[j]);
            if f[j].0@ == s@ {
                assert(entry_map(e).dom().contains(s@));
            }
        } else if j == e.len() {
            assert(f[i] == e[i]);
            if f[i].0@ == s@ {
                assert(entry_map(e).dom().contains(s@));
            }
        } else {
            assert(f[i] == e[i] && f[j] == e[j]);
        }
    }
    assert forall|k: Seq<char>| #[trigger] entry_map(f).dom().contains(k) <==> entry_map(e).insert(s@, c).dom().contains(k) by {
        if entry_map(f).dom().contains(k) {
            let i = choose|i: int| 0 <= i < f.len() && #[trigger] f[i].0@ == k;
            if i < e.len() {
                assert(f[i] == e[i]);
            }
        }
        if entry_map(e).dom().contains(k) {
            let i = choose|i: int| 0 <= i < e.len() && #[trigger] e[i].0@ == k;
            assert(f[i] == e[i]);
        }
        if k == s@ {
            assert(f[e.len() as int].0@ == k);
        }
    }
    assert forall|k: Seq<char>| #[trigger] entry_map(f).dom().contains(k) implies entry_map(f)[k] == entry_map(e).insert(s@, c)[k] by {
        let i = choose|i: int| 0 <= i < f.len() && #[trigger] f[i].0@ == k;
        lemma_entry_lookup(f, i);
        if i < e.len() {
            assert(f[i] == e[i]);
            lemma_entry_lookup(e, i);
        }
    }
}

proof fn lemma_entry_update<C>(e: Seq<(String, C)>, i: int, s: String, c: C)
    requires
        keys_distinct(e),
        0 <= i < e.len(),
        e[i].0@ == s@,
    ensures
        keys_distinct(e.update(i, (s, c))),
        entry_map(e.update(i, (s, c))) =~= entry_map(e).insert(s@, c),
{
    let f = e.update(i, (s, c));
    assert forall|a: int, b: int|
        0 <= a < f.len() && 0 <= b < f.len() && a != b implies #[trigger] f[a].0@ != #[trigger] f[b].0@ by {
        assert(f[a].0@ == e[a].0@);
        assert(f[b].0@ == e[b].0@);
    }
    lemma_entry_lookup(e, i);
    assert forall|k: Seq<char>| #[trigger] entry_map(f).dom().contains(k) <==> entry_map(e).insert(s@, c).dom().contains(k) by {
        if entry_map(f).dom().contains(k) {
            let j = choose|j: int| 0 <= j < f.len() && #[trigger] f[j].0@ == k;
            assert(e[j].0@ == k);
        }
        if entry_map(e).dom().contains(k) {
            let j = choose|j: int| 0 <= j < e.len() && #[trigger] e[j].0@ == k;
            assert(f[j].0@ == k);
        }
    }
    assert forall|k: Seq<char>| #[trigger] entry_map(f).dom().contains(k) implies entry_map(f)[k] == entry_map(e).insert(s@, c)[k] by {
        let j = choose|j: int| 0 <= j < f.len() && #[trigger] f[j].0@ == k;
        lemma_entry_lookup(f, j);
        if j != i {
            assert(f[j] == e[j]);
            lemma_entry_lookup(e, j);
        }
    }
}

proof fn lemma_entry_remove<C>(e: Seq<(String, C)>, i: int)
    requires
        keys_distinct(e),
        0 <= i < e.len(),
    ensures
        keys_distinct(e.remove(i)),
        entry_map(e.remove(i)) =~= entry_map(e).remove(e[i].0@),
{
    let f = e.remove(i);
    let key = e[i].0@;
    assert forall|a: int| 0 <= a < f.len() implies #[trigger] f[a] == e[if a < i { a } else { a + 1 }] by {}
    assert forall|a: int, b: int|
        0 <= a < f.len() && 0 <= b < f.len() && a != b implies #[trigger] f[a].0@ != #[trigger] f[b].0@ by {
        assert(f[a] == e[if a < i { a } else { a + 1 }]);
        assert(f[b] == e[if b < i { b } else { b + 1 }]);
    }
    assert forall|k: Seq<char>| #[trigger] entry_map(f).dom().contains(k) <==> entry_map(e).remove(key).dom().contains(k) by {
        if entry_map(f).dom().contains(k) {
            let a = choose|a: int| 0 <= a < f.len() && #[trigger] f[a].0@ == k;
            let ea = if a < i { a } else { a + 1 };
            assert(f[a] == e[ea]);
            assert(e[ea].0@ == k);
            assert(ea != i);
        }
        if entry_map(e).remove(key).dom().contains(k) {
            let b = choose|b: int| 0 <= b < e.len() && #[trigger] e[b].0@ == k;
            assert(b != i);
            let fb = if b < i { b } else { b - 1 };
            assert(f[fb] == e[b]);
            assert(f[fb].0@ == k);
        }
    }
    assert forall|k: Seq<char>| #[trigger] entry_map(f).dom().contains(k) implies entry_map(f)[k] == entry_map(e).remove(key)[k] by {
        let a = choose|a: int| 0 <= a < f.len() && #[trigger] f[a].0@ == k;
        let ea = if a < i { a } else { a + 1 };
        assert(f[a] == e[ea]);
        lemma_entry_lookup(f, a);
        lemma_entry_lookup(e, ea);
    }
}

proof fn lemma_string_push(e: Seq<String>, s: String)
    requires
        strings_distinct(e),
        !string_set(e).contains(s@),
    ensures
        strings_distinct(e.push(s)),
        string_set(e.push(s)) =~= string_set(e).insert(s@),
{
    let f = e.push(s);
    assert forall|i: int, j: int|
        0 <= i < f.len() && 0 <= j < f.len() && i != j implies #[trigger] f[i]@ != #[trigger] f[j]@ by {
        if i == e.len() {
            assert(f[j] == e[j]);
            if f[j]@ == s@ {
                assert(string_set(e).contains(s@));
            }
        } else if j == e.len() {
            assert(f[i] == e[i]);
            if f[i]@ == s@ {
                assert(string_set(e).contains(s@));
            }
        } else {
            assert(f[i] == e[i] && f[j] == e[j]);
        }
    }
    assert forall|k: Seq<char>| #[trigger] string_set(f).contains(k) <==> string_set(e).insert(s@).contains(k) by {
        if string_set(f).contains(k) {
            let i = choose|i: int| 0 <= i < f.len() && #[trigger] f[i]@ == k;
            if i < e.len() {
                assert(f[i] == e[i]);
            }
        }
        if string_set(e).contains(k) {
            let i = choose|i: int| 0 <= i < e.len() && #[trigger] e[i]@ == k;
            assert(f[i] == e[i]);
        }
        if k == s@ {
            assert(f[e.len() as int]@ == k);
        }
    }
}

proof fn lemma_string_remove(e: Seq<String>, i: int)
    requires
        strings_distinct(e),
        0 <= i < e.len(),
    ensures
        strings_distinct(e.remove(i)),
        string_set(e.remove(i)) =~= string_set(e).remove(e[i]@),
{
    let f = e.remove(i);
    let key = e[i]@;
    assert forall|a: int| 0 <= a < f.len() implies #[trigger] f[a] == e[if a < i { a } else { a + 1 }] by {}
    assert forall|a: int, b: int|
        0 <= a < f.len() && 0 <= b < f.len() && a != b implies #[trigger] f[a]@ != #[trigger] f[b]@ by {
        assert(f[a] == e[if a < i { a } else { a + 1 }]);
        assert(f[b] == e[if b < i { b } else { b + 1 }]);
    }
    assert forall|k: Seq<char>| #[trigger] string_set(f).contains(k) <==> string_set(e).remove(key).contains(k) by {
        if string_set(f).contains(k) {
            let a = choose|a: int| 0 <= a < f.len() && #[trigger] f[a]@ == k;
            let ea = if a < i { a } else { a + 1 };
            assert(f[a] == e[ea]);
            assert(ea != i);
        }
        if string_set(e).remove(key).contains(k) {
            let b = choose|b: int| 0 <= b < e.len() && #[trigger] e[b]@ == k;
            assert(b != i);
            let fb = if b < i { b } else { b - 1 };
            assert(f[fb] == e[b]);
        }
    }
}

/// Storing a channel for an address connects that address to exactly that
/// channel and leaves every other address, and the pending set, as they were.
pub proof fn law_store_then_lookup<C, S, E>(v: P2pView<C, S, E>, addr: Seq<char>, channel: C, other: Seq<char>)
    requires
        other != addr,
    ensures
        v.with_channel(addr, channel).is_connected(addr),
        v.with_channel(addr, channel).channels[addr] == channel,
        v.with_channel(addr, channel).is_connected(other) == v.is_connected(other),
        v.is_connected(other) ==> v.with_channel(addr, channel).channels[other] == v.channels[other],
        v.with_channel(addr, channel).pending == v.pending,
{
}

/// Removing an address disconnects it and leaves every other address, and
/// the pending set, as they were.
pub proof fn law_remove_then_lookup<C, S, E>(v: P2pView<C, S, E>, addr: Seq<char>, other: Seq<char>)
    requires
        other != addr,
    ensures
        !v.without_channel(addr).is_connected(addr),
        v.without_channel(addr).is_connected(other) == v.is_connected(other),
        v.is_connected(other) ==> v.without_channel(addr).channels[other] == v.channels[other],
        v.without_channel(addr).pending == v.pending,
{
}

/// Removing an address that was stored while it was not connected undoes
/// the store.
pub proof fn law_remove_undoes_store<C, S, E>(v: P2pView<C, S, E>, addr: Seq<char>, channel: C)
    requires
        !v.is_connected(addr),
    ensures
        v.with_channel(addr, channel).without_channel(addr) == v,
{
    assert(v.with_channel(addr, channel).without_channel(addr).channels =~= v.channels);
}

/// The pending mark works as a lock: the first `add_pending` of an address
/// wins (returns `true`), any later one loses (returns `false`) until
/// `remove_pending` releases it, after which it can be won again.
pub proof fn law_pending_lock<C, S, E>(v: P2pView<C, S, E>, addr: Seq<char>)
    ensures
        v.with_pending(addr).pending.contains(addr),
        v.with_pending(addr).with_pending(addr) == v.with_pending(addr),
        !v.with_pending(addr).without_pending(addr).pending.contains(addr),
{
    assert(v.with_pending(addr).with_pending(addr).pending =~= v.with_pending(addr).pending);
}

/// Releasing an address that was marked while unmarked undoes the mark.
pub proof fn law_remove_pending_undoes_add<C, S, E>(v: P2pView<C, S, E>, addr: Seq<char>)
    requires
        !v.pending.contains(addr),
    ensures
        v.with_pending(addr).without_pending(addr) == v,
{
    assert(v.with_pending(addr).without_pending(addr).pending =~= v.pending);
}

/// Debugging is on after `dnet_enable` and off after `dnet_disable`, and
/// neither touches the channels or the pending set.
pub proof fn law_dnet_switch<C, S, E>(v: P2pView<C, S, E>)
    ensures
        v.with_dnet(true).dnet_enabled,
        !v.with_dnet(false).dnet_enabled,
        v.with_dnet(true).channels == v.channels && v.with_dnet(true).pending == v.pending,
        v.with_dnet(false).channels == v.channels && v.with_dnet(false).pending == v.pending,
{
}

/// A broadcast that excludes nothing reaches every connected address, so
/// `broadcast` reaches what `broadcast_with_exclude` does with an empty list.
pub proof fn law_broadcast_excludes_nothing<C, S, E>(v: P2pView<C, S, E>)
    ensures
        v.reached_addresses(Seq::<String>::empty()) == v.channels.dom(),
{
    assert(v.reached_addresses(Seq::<String>::empty()) =~= v.channels.dom());
}

/// Removing the failed channels keeps every other channel as it was, and
/// touches nothing but the channels.
pub proof fn law_remove_failed_keeps_others<C, S, E>(v: P2pView<C, S, E>, failed: Seq<String>, other: Seq<char>)
    requires
        !listed(failed, other),
    ensures
        v.without_channels(failed).is_connected(other) == v.is_connected(other),
        v.is_connected(other) ==> v.without_channels(failed).channels[other] == v.channels[other],
        forall|i: int| 0 <= i < failed.len() ==> !v.without_channels(failed).is_connected(#[trigger] failed[i]@),
        v.without_channels(failed).pending == v.pending,
{
}

/// Picks a position below `len` at random with `IteratorRandom::choose`
/// over `0..len`, drawing from the operating system's generator (`OsRng`).
/// Claimed: `None` exactly when `len` is 0, and otherwise a position below
/// `len`. Which position comes back is left open; `OsRng` panics if the
/// operating system cannot supply random bytes.
#[verifier::external_body]
fn choose_index(len: usize) -> (res: Option<usize>)
    ensures
        len == 0 <==> res is None,
        res matches Some(i) ==> i < len,
{
    (0..len).choose(&mut OsRng)
}

/// The state of the peer-to-peer interface, over channels of type `C`,
/// settings of type `S` and an executor handle of type `E`.
pub struct P2p<C, S, E> {
    settings: S,
    executor: E,
    pending: Vec<String>,
    channels: Vec<(String, C)>,
    peer_discovery_running: bool,
    dnet_enabled: bool,
}

impl<C, S, E> View for P2p<C, S, E> {
    type V = P2pView<C, S, E>;

    closed spec fn view(&self) -> P2pView<C, S, E> {
        P2pView {
            settings: self.settings,
            executor: self.executor,
            pending: string_set(self.pending@),
            channels: entry_map(self.channels@),
            peer_discovery_running: self.peer_discovery_running,
            dnet_enabled: self.dnet_enabled,
        }
    }
}

impl<C, S, E> P2p<C, S, E> {
    #[verifier::type_invariant]
    closed spec fn inv(self) -> bool {
        &&& strings_distinct(self.pending@)
        &&& keys_distinct(self.channels@)
    }

    /// The interface with the given settings and executor, nothing pending,
    /// nothing connected, peer discovery not running and debugging off.
    pub fn new(settings: S, executor: E) -> (res: Self)
        ensures
            res@.settings == settings,
            res@.executor == executor,
            res@.pending == Set::<Seq<char>>::empty(),
            res@.channels == Map::<Seq<char>, C>::empty(),
            !res@.peer_discovery_running,
            !res@.dnet_enabled,
    {
        let res = P2p {
            settings,
            executor,
            pending: Vec::new(),
            channels: Vec::new(),
            peer_discovery_running: false,
            dnet_enabled: false,
        };
        assert(string_set(res.pending@) =~= Set::<Seq<char>>::empty());
        assert(entry_map(res.channels@) =~= Map::<Seq<char>, C>::empty());
        res
    }

    /// Moves the channel entries out, leaving none behind.
    fn take_channels(&mut self) -> (res: Vec<(String, C)>)
        ensures
            res@ == old(self).channels@,
            final(self).channels@ == Seq::<(String, C)>::empty(),
            final(self).pending == old(self).pending,
            final(self).settings == old(self).settings,
            final(self).executor == old(self).executor,
            final(self).peer_discovery_running == old(self).peer_discovery_running,
            final(self).dnet_enabled == old(self).dnet_enabled,
    {
        proof { use_type_invariant(&*self); }
        let mut entries = Vec::new();
        std::mem::swap(&mut entries, &mut self.channels);
        entries
    }

    /// Moves the pending addresses out, leaving none behind.
    fn take_pending(&mut self) -> (res: Vec<String>)
        ensures
            res@ == old(self).pending@,
            final(self).pending@ == Seq::<String>::empty(),
            final(self).channels == old(self).channels,
            final(self).settings == old(self).settings,
            final(self).executor == old(self).executor,
            final(self).peer_discovery_running == old(self).peer_discovery_running,
            final(self).dnet_enabled == old(self).dnet_enabled,
    {
        proof { use_type_invariant(&*self); }
        let mut addrs = Vec::new();
        std::mem::swap(&mut addrs, &mut self.pending);
        addrs
    }

    /// Position of the channel entry for `addr`.
    fn find_channel(&self, addr: &String) -> (res: Option<usize>)
        ensures
            res is None ==> !self@.channels.dom().contains(addr@),
            res matches Some(i) ==> i < self.channels@.len() && self.channels@[i as int].0@ == addr@,
    {
        let mut i: usize = 0;
        while i < self.channels.len()
            invariant
                i <= self.channels@.len(),
                forall|j: int| 0 <= j < i ==> #[trigger] self.channels@[j].0@ != addr@,
            decreases self.channels@.len() - i,
        {
            if self.channels[i].0 == *addr {
                return Some(i);
            }
            i = i + 1;
        }
        None
    }

    /// Position of `addr` among the pending addresses.
    fn find_pending(&self, addr: &String) -> (res: Option<usize>)
        ensures
            res is None ==> !self@.pending.contains(addr@),
            res matches Some(i) ==> i < self.pending@.len() && self.pending@[i as int]@ == addr@,
    {
        let mut i: usize = 0;
        while i < self.pending.len()
            invariant
                i <= self.pending@.len(),
                forall|j: int| 0 <= j < i ==> #[trigger] self.pending@[j]@ != addr@,
            decreases self.pending@.len() - i,
        {
            if self.pending[i] == *addr {
                return Some(i);
            }
            i = i + 1;
        }
        None
    }

    /// Whether a channel to `addr` is connected.
    pub fn is_connected(&self, addr: &String) -> (res: bool)
        ensures
            res == self@.channels.dom().contains(addr@),
    {
        self.find_channel(addr).is_some()
    }

    /// Adds `channel`, connected to `addr`, to the connected channels; a
    /// channel already stored for `addr` is replaced.
    pub fn store(&mut self, addr: String, channel: C)
        ensures
            final(self)@ == old(self)@.with_channel(addr@, channel),
    {
        proof { use_type_invariant(&*self); }
        match self.find_channel(&addr) {
            Some(i) => {
                proof { lemma_entry_update(self.channels@, i as int, addr, channel); }
                let mut entries = self.take_channels();
                entries.set(i, (addr, channel));
                self.channels = entries;
            },
            None => {
                proof { lemma_entry_push(self.channels@, addr, channel); }
                let mut entries = self.take_channels();
                entries.push((addr, channel));
                self.channels = entries;
            },
        }
    }

    /// Removes the channel connected to `addr`, if there is one.
    pub fn remove(&mut self, addr: &String)
        ensures
            final(self)@ == old(self)@.without_channel(addr@),
    {
        proof { use_type_invariant(&*self); }
        match self.find_channel(addr) {
            Some(i) => {
                proof { lemma_entry_remove(self.channels@, i as int); }
                let mut entries = self.take_channels();
                entries.remove(i);
                self.channels = entries;
            },
            None => {
                assert(entry_map(self.channels@).remove(addr@) =~= entry_map(self.channels@));
            },
        }
    }

    /// Marks `addr` as awaiting a connection. Returns whether it was not
    /// marked before, so that only one caller wins the address.
    pub fn add_pending(&mut self, addr: &String) -> (res: bool)
        ensures
            res == !old(self)@.pending.contains(addr@),
            final(self)@ == old(self)@.with_pending(addr@),
    {
        proof { use_type_invariant(&*self); }
        match self.find_pending(addr) {
            Some(i) => {
                assert(string_set(self.pending@).contains(addr@)) by {
                    assert(self.pending@[i as int]@ == addr@);
                }
                assert(string_set(self.pending@).insert(addr@) =~= string_set(self.pending@));
                false
            },
            None => {
                let a = addr.clone();
                proof { lemma_string_push(self.pending@, a); }
                let mut addrs = self.take_pending();
                addrs.push(a);
                self.pending = addrs;
                true
            },
        }
    }

    /// Clears the mark of `addr` as awaiting a connection.
    pub fn remove_pending(&mut self, addr: &String)
        ensures
            final(self)@ == old(self)@.without_pending(addr@),
    {
        proof { use_type_invariant(&*self); }
        match self.find_pending(addr) {
            Some(i) => {
                proof { lemma_string_remove(self.pending@, i as int); }
                let mut addrs = self.take_pending();
                addrs.remove(i);
                self.pending = addrs;
            },
            None => {
                assert(string_set(self.pending@).remove(addr@) =~= string_set(self.pending@));
            },
        }
    }

    /// The connected channels, each with its address, every address once.
    pub fn channels(&self) -> (res: &Vec<(String, C)>)
        ensures
            keys_distinct(res@),
            entry_map(res@) == self@.channels,
    {
        proof { use_type_invariant(self); }
        &self.channels
    }

    /// The connected channels that a broadcast reaches when the addresses in
    /// `exclude_list` are left out: each connected channel whose address is
    /// not listed, once.
    pub fn broadcast_with_exclude(&self, exclude_list: &[String]) -> (res: Vec<&(String, C)>)
        ensures
            forall|i: int|
                0 <= i < res@.len() ==> {
                    &&& self@.channels.dom().contains(#[trigger] res@[i].0@)
                    &&& self@.channels[res@[i].0@] == res@[i].1
                    &&& !listed(exclude_list@, res@[i].0@)
                },
            forall|i: int, j: int|
                0 <= i < res@.len() && 0 <= j < res@.len() && i != j ==> #[trigger] res@[i].0@
                    != #[trigger] res@[j].0@,
            forall|k: Seq<char>|
                #[trigger] self@.channels.dom().contains(k) && !listed(exclude_list@, k) ==> exists|i: int|
                    0 <= i < res@.len() && #[trigger] res@[i].0@ == k,
            entry_addresses(res@) == self@.reached_addresses(exclude_list@),
    {
        proof { use_type_invariant(self); }
        let ghost e = self.channels@;
        let mut res: Vec<&(String, C)> = Vec::new();
        let ghost mut idx: Seq<int> = Seq::empty();
        let mut i: usize = 0;
        while i < self.channels.len()
            invariant
                i <= e.len(),
                e == self.channels@,
                keys_distinct(e),
                idx.len() == res@.len(),
                forall|a: int|
                    0 <= a < res@.len() ==> 0 <= #[trigger] idx[a] < i && *res@[a] == e[idx[a]],
                forall|a: int, b: int| 0 <= a < b < res@.len() ==> #[trigger] idx[a] < #[trigger] idx[b],
                forall|a: int| 0 <= a < res@.len() ==> !listed(exclude_list@, #[trigger] res@[a].0@),
                forall|j: int|
                    0 <= j < i && !listed(exclude_list@, #[trigger] e[j].0@) ==> exists|a: int|
                        0 <= a < res@.len() && #[trigger] idx[a] == j,
            decreases e.len() - i,
        {
            let entry = &self.channels[i];
            let mut excluded = false;
            let mut x: usize = 0;
            while x < exclude_list.len()
                invariant
                    x <= exclude_list@.len(),
                    excluded <==> exists|y: int| 0 <= y < x && #[trigger] exclude_list@[y]@ == entry.0@,
                decreases exclude_list@.len() - x,
            {
                if exclude_list[x] == entry.0 {
                    excluded = true;
                }
                x = x + 1;
            }
            assert(excluded == listed(exclude_list@, entry.0@));
            if !excluded {
                res.push(entry);
                proof {
                    let old_idx = idx;
                    idx = idx.push(i as int);
                    assert(idx[idx.len() - 1] == i);
                    assert forall|j: int|
                        0 <= j < i && !listed(exclude_list@, #[trigger] e[j].0@) implies exists|a: int|
                            0 <= a < res@.len() && #[trigger] idx[a] == j by {
                        let a = choose|a: int| 0 <= a < old_idx.len() && #[trigger] old_idx[a] == j;
                        assert(idx[a] == j);
                    }
                }
            }
            i = i + 1;
        }
        proof {
            assert forall|a: int| 0 <= a < res@.len() implies {
                &&& self@.channels.dom().contains(#[trigger] res@[a].0@)
                &&& self@.channels[res@[a].0@] == res@[a].1
            } by {
                lemma_entry_lookup(e, idx[a]);
            }
            assert forall|a: int, b: int|
                0 <= a < res@.len() && 0 <= b < res@.len() && a != b implies #[trigger] res@[a].0@
                    != #[trigger] res@[b].0@ by {
                if a < b {
                    assert(idx[a] < idx[b]);
                } else {
                    assert(idx[b] < idx[a]);
                }
                assert(e[idx[a]].0@ != e[idx[b]].0@);
            }
            assert forall|k: Seq<char>|
                #[trigger] self@.channels.dom().contains(k) && !listed(exclude_list@, k) implies exists|a: int|
                    0 <= a < res@.len() && #[trigger] res@[a].0@ == k by {
                let j = choose|j: int| 0 <= j < e.len() && #[trigger] e[j].0@ == k;
                assert(!listed(exclude_list@, e[j].0@));
                let a = choose|a: int| 0 <= a < res@.len() && #[trigger] idx[a] == j;
                assert(res@[a].0@ == k);
            }
            assert(entry_addresses(res@) =~= self@.reached_addresses(exclude_list@));
        }
        res
    }

    /// The connected channels that a broadcast reaches: all of them, once each.
    pub fn broadcast(&self) -> (res: Vec<&(String, C)>)
        ensures
            forall|i: int|
                0 <= i < res@.len() ==> {
                    &&& self@.channels.dom().contains(#[trigger] res@[i].0@)
                    &&& self@.channels[res@[i].0@] == res@[i].1
                },
            forall|i: int, j: int|
                0 <= i < res@.len() && 0 <= j < res@.len() && i != j ==> #[trigger] res@[i].0@
                    != #[trigger] res@[j].0@,
            forall|k: Seq<char>|
                #[trigger] self@.channels.dom().contains(k) ==> exists|i: int|
                    0 <= i < res@.len() && #[trigger] res@[i].0@ == k,
            entry_addresses(res@) == self@.reached_addresses(Seq::<String>::empty()),
    {
        let none: Vec<String> = Vec::new();
        let res = self.broadcast_with_exclude(none.as_slice());
        assert forall|k: Seq<char>| !listed(none@, k) by {}
        assert(none@ =~= Seq::<String>::empty());
        res
    }

    /// A connected channel picked at random, or `None` when none is connected.
    pub fn random_channel(&self) -> (res: Option<&C>)
        ensures
            res is None <==> self@.channels.dom() =~= Set::<Seq<char>>::empty(),
            res matches Some(c) ==> exists|k: Seq<char>|
                #[trigger] self@.channels.dom().contains(k) && self@.channels[k] == *c,
    {
        proof { use_type_invariant(self); }
        match choose_index(self.channels.len()) {
            Some(i) => {
                proof {
                    lemma_entry_lookup(self.channels@, i as int);
                    let k = self.channels@[i as int].0@;
                    assert(self@.channels.dom().contains(k));
                }
                Some(&self.channels[i].1)
            },
            None => {
                assert forall|k: Seq<char>| !self@.channels.dom().contains(k) by {}
                None
            },
        }
    }

    /// Turns network debugging on.
    pub fn dnet_enable(&mut self)
        ensures
            final(self)@ == old(self)@.with_dnet(true),
    {
        proof { use_type_invariant(&*self); }
        self.dnet_enabled = true;
    }

    /// Turns network debugging off.
    pub fn dnet_disable(&mut self)
        ensures
            final(self)@ == old(self)@.with_dnet(false),
    {
        proof { use_type_invariant(&*self); }
        self.dnet_enabled = false;
    }

    /// Whether network debugging is on.
    pub fn dnet_enabled(&self) -> (res: bool)
        ensures
            res == self@.dnet_enabled,
    {
        self.dnet_enabled
    }

    /// Whether peer discovery is running.
    pub fn peer_discovery_running(&self) -> (res: bool)
        ensures
            res == self@.peer_discovery_running,
    {
        self.peer_discovery_running
    }

    /// Marks peer discovery as running or not.
    pub fn set_peer_discovery_running(&mut self, running: bool)
        ensures
            final(self)@ == old(self)@.with_peer_discovery(running),
    {
        proof { use_type_invariant(&*self); }
        self.peer_discovery_running = running;
    }

    /// The network settings.
    pub fn settings(&self) -> (res: &S)
        ensures
            *res == self@.settings,
    {
        &self.settings
    }

    /// The executor handle.
    pub fn executor(&self) -> (res: &E)
        ensures
            *res == self@.executor,
    {
        &self.executor
    }

    /// Removes the channels at the addresses in `failed`, those whose send
    /// failed in a broadcast; every other channel stays.
    pub fn remove_failed(&mut self, failed: &[String])
        ensures
            final(self)@ == old(self)@.without_channels(failed@),
    {
        let ghost start = self@;
        proof {
            let none = Set::new(|k: Seq<char>| listed(failed@.take(0), k));
            assert(none =~= Set::<Seq<char>>::empty());
            assert(start.channels.remove_keys(none) =~= start.channels);
            assert(start.without_channels(failed@.take(0)) == start);
        }
        let mut i: usize = 0;
        while i < failed.len()
            invariant
                i <= failed@.len(),
                self@ == start.without_channels(failed@.take(i as int)),
            decreases failed@.len() - i,
        {
            let ghost before = self@;
            self.remove(&failed[i]);
            proof {
                let gone = Set::new(|k: Seq<char>| listed(failed@.take(i as int), k));
                let gone2 = Set::new(|k: Seq<char>| listed(failed@.take(i + 1), k));
                assert forall|k: Seq<char>| gone2.contains(k) <==> (gone.contains(k) || k == failed@[i as int]@) by {
                    if gone2.contains(k) {
                        let j = choose|j: int| 0 <= j < failed@.take(i + 1).len() && #[trigger] failed@.take(i + 1)[j]@ == k;
                        if j < i {
                            assert(failed@.take(i as int)[j] == failed@.take(i + 1)[j]);
                        }
                    }
                    if gone.contains(k) {
                        let j = choose|j: int| 0 <= j < failed@.take(i as int).len() && #[trigger] failed@.take(i as int)[j]@ == k;
                        assert(failed@.take(i + 1)[j] == failed@.take(i as int)[j]);
                    }
                    if k == failed@[i as int]@ {
                        assert(failed@.take(i + 1)[i as int] == failed@[i as int]);
                    }
                }
                assert(start.channels.remove_keys(gone).remove(failed@[i as int]@) =~= start.channels.remove_keys(gone2));
            }
            i = i + 1;
        }
        assert(failed@.take(failed@.len() as int) =~= failed@);
    }
}

// ------------------------- running the network ------------------------------

/// Where running the network is.
#[derive(Debug, Clone, Copy)]
pub enum RunState {
    /// Connecting the configured manual peer with this index.
    ConnectingManual(usize),
    StartingInbound,
    StartingOutbound,
    /// All sessions started; waiting for the stop signal.
    Running,
    StoppingManual,
    StoppingInbound,
    StoppingOutbound,
    Finished,
}

/// The outcome of the work that running the network asked for; a session
/// that fails to start reports its error `F`.
#[derive(Debug)]
pub enum RunEvent<F> {
    Done,
    Failed(F),
}

/// The work that running the network asks for next.
#[derive(Debug)]
pub enum RunAction<F> {
    /// Connect the manual session to the configured peer with this index.
    ConnectManual(usize),
    StartInbound,
    StartOutbound,
    /// Wait for the stop signal.
    WaitForStop,
    StopManual,
    StopInbound,
    StopOutbound,
    /// Return from running the network with this result.
    Exit(Result<(), F>),
}

/// The first state and action when there are `peers` manual peers.
pub open spec fn run_first<F>(peers: nat) -> (RunState, RunAction<F>) {
    if peers > 0 {
        (RunState::ConnectingManual(0), RunAction::ConnectManual(0))
    } else {
        (RunState::StartingInbound, RunAction::StartInbound)
    }
}

/// The events that running the network waits for in `state`: only starting
/// a session can fail.
pub open spec fn run_awaits<F>(peers: nat, state: RunState, event: RunEvent<F>) -> bool {
    match state {
        RunState::ConnectingManual(i) => i < peers && event is Done,
        RunState::StartingInbound => true,
        RunState::StartingOutbound => true,
        RunState::Finished => false,
        _ => event is Done,
    }
}

/// One step of running the network. A session that fails to start ends the
/// run with that session's error.
pub open spec fn run_next<F>(peers: nat, state: RunState, event: RunEvent<F>) -> (RunState, RunAction<F>) {
    match state {
        RunState::ConnectingManual(i) => if i + 1 < peers {
            (RunState::ConnectingManual((i + 1) as usize), RunAction::ConnectManual((i + 1) as usize))
        } else {
            (RunState::StartingInbound, RunAction::StartInbound)
        },
        RunState::StartingInbound => match event {
            RunEvent::Done => (RunState::StartingOutbound, RunAction::StartOutbound),
            RunEvent::Failed(e) => (RunState::Finished, RunAction::Exit(Err(e))),
        },
        RunState::StartingOutbound => match event {
            RunEvent::Done => (RunState::Running, RunAction::WaitForStop),
            RunEvent::Failed(e) => (RunState::Finished, RunAction::Exit(Err(e))),
        },
        RunState::Running => (RunState::StoppingManual, RunAction::StopManual),
        RunState::StoppingManual => (RunState::StoppingInbound, RunAction::StopInbound),
        RunState::StoppingInbound => (RunState::StoppingOutbound, RunAction::StopOutbound),
        RunState::StoppingOutbound => (RunState::Finished, RunAction::Exit(Ok(()))),
        RunState::Finished => (RunState::Finished, RunAction::Exit(Ok(()))),
    }
}

/// The actions asked for in `fuel` steps from `state` and `action`, when
/// every piece of work succeeds.
pub open spec fn run_trace_when_all_succeed<F>(
    peers: nat,
    state: RunState,
    action: RunAction<F>,
    fuel: nat,
) -> Seq<RunAction<F>>
    decreases fuel,
{
    if fuel == 0 {
        Seq::empty()
    } else {
        let (next_state, next_action) = run_next(peers, state, RunEvent::<F>::Done);
        seq![action] + run_trace_when_all_succeed(peers, next_state, next_action, (fuel - 1) as nat)
    }
}

/// The sequence of work when everything succeeds: every manual peer from
/// `from` on in order, then the inbound and the outbound session, then the
/// wait for the stop signal, then stopping the manual, inbound and outbound
/// sessions.
pub open spec fn run_order<F>(peers: nat, from: nat) -> Seq<RunAction<F>> {
    Seq::new((peers - from) as nat, |j: int| RunAction::<F>::ConnectManual((from + j) as usize)) + seq![
        RunAction::<F>::StartInbound,
        RunAction::<F>::StartOutbound,
        RunAction::<F>::WaitForStop,
        RunAction::<F>::StopManual,
        RunAction::<F>::StopInbound,
        RunAction::<F>::StopOutbound,
        RunAction::<F>::Exit(Ok(())),
    ]
}

proof fn lemma_run_tail<F>(peers: nat)
    ensures
        run_trace_when_all_succeed(peers, RunState::StartingInbound, RunAction::<F>::StartInbound, 7)
            == run_order::<F>(peers, peers),
{
    reveal_with_fuel(run_trace_when_all_succeed, 8);
    assert(run_trace_when_all_succeed(peers, RunState::StartingInbound, RunAction::<F>::StartInbound, 7)
        =~= run_order::<F>(peers, peers));
}

proof fn lemma_run_manual<F>(peers: nat, i: nat)
    requires
        i < peers <= usize::MAX,
    ensures
        run_trace_when_all_succeed(
            peers,
            RunState::ConnectingManual(i as usize),
            RunAction::<F>::ConnectManual(i as usize),
            (peers - i + 7) as nat,
        ) == run_order::<F>(peers, i),
    decreases peers - i,
{
    let next = run_next(peers, RunState::ConnectingManual(i as usize), RunEvent::<F>::Done);
    let rest = run_trace_when_all_succeed(peers, next.0, next.1, (peers - i + 6) as nat);
    if i + 1 < peers {
        lemma_run_manual::<F>(peers, i + 1);
        assert(rest == run_order::<F>(peers, i + 1));
    } else {
        lemma_run_tail::<F>(peers);
        assert(rest == run_order::<F>(peers, peers));
    }
    assert(seq![RunAction::<F>::ConnectManual(i as usize)] + rest =~= run_order::<F>(peers, i));
}

/// When every piece of work succeeds, running the network connects every
/// manual peer in order, starts the inbound and then the outbound session,
/// waits for the stop signal, stops the manual, inbound and outbound sessions
/// in that order, and returns `Ok`.
pub proof fn law_run_order<F>(peers: nat)
    requires
        peers <= usize::MAX,
    ensures
        run_trace_when_all_succeed(peers, run_first::<F>(peers).0, run_first::<F>(peers).1, peers + 7)
            == run_order::<F>(peers, 0),
{
    if peers > 0 {
        lemma_run_manual::<F>(peers, 0);
    } else {
        lemma_run_tail::<F>(peers);
        assert(run_order::<F>(peers, peers) =~= run_order::<F>(peers, 0));
    }
}

/// A session that fails to start ends the run at once with that session's
/// error: after a failed inbound start the outbound session is never
/// started, no session is stopped and no stop signal is awaited.
pub proof fn law_run_start_failure<F>(peers: nat, e: F)
    ensures
        run_next(peers, RunState::StartingInbound, RunEvent::Failed(e))
            == (RunState::Finished, RunAction::<F>::Exit(Err(e))),
        run_next(peers, RunState::StartingOutbound, RunEvent::Failed(e))
            == (RunState::Finished, RunAction::<F>::Exit(Err(e))),
        forall|ev: RunEvent<F>| !run_awaits(peers, RunState::Finished, ev),
{
}

/// Running the network waits for success of every piece of work it asks for:
/// each manual connection (for every peer index below the number of peers),
/// each session start, the stop signal and each session stop; it waits for
/// either outcome of a session start, and for nothing once finished.
pub proof fn law_run_awaits_outcomes<F>(peers: nat, i: usize, e: F)
    ensures
        (i as nat) < peers ==> run_awaits(peers, RunState::ConnectingManual(i), RunEvent::<F>::Done),
        run_awaits(peers, RunState::StartingInbound, RunEvent::<F>::Done),
        run_awaits(peers, RunState::StartingInbound, RunEvent::Failed(e)),
        run_awaits(peers, RunState::StartingOutbound, RunEvent::<F>::Done),
        run_awaits(peers, RunState::StartingOutbound, RunEvent::Failed(e)),
        run_awaits(peers, RunState::Running, RunEvent::<F>::Done),
        run_awaits(peers, RunState::StoppingManual, RunEvent::<F>::Done),
        run_awaits(peers, RunState::StoppingInbound, RunEvent::<F>::Done),
        run_awaits(peers, RunState::StoppingOutbound, RunEvent::<F>::Done),
        !run_awaits(peers, RunState::Finished, RunEvent::<F>::Done),
{
}

/// The first step of running the network with `peers` manual peers.
pub fn run_begin<F>(peers: usize) -> (res: (RunState, RunAction<F>))
    ensures
        res == run_first::<F>(peers as nat),
{
    if peers > 0 {
        (RunState::ConnectingManual(0), RunAction::ConnectManual(0))
    } else {
        (RunState::StartingInbound, RunAction::StartInbound)
    }
}

impl RunState {
    /// Whether running the network waits for `event` in this state.
    pub fn awaits<F>(&self, peers: usize, event: &RunEvent<F>) -> (res: bool)
        ensures
            res == run_awaits(peers as nat, *self, *event),
    {
        match self {
            RunState::ConnectingManual(i) => *i < peers && matches!(event, RunEvent::Done),
            RunState::StartingInbound => true,
            RunState::StartingOutbound => true,
            RunState::Finished => false,
            _ => matches!(event, RunEvent::Done),
        }
    }
}

/// One step of running the network: given the outcome of the work asked
/// for, the next state and the next work.
pub fn run_step<F>(peers: usize, state: RunState, event: RunEvent<F>) -> (res: (RunState, RunAction<F>))
    requires
        run_awaits(peers as nat, state, event),
    ensures
        res == run_next(peers as nat, state, event),
{
    match state {
        RunState::ConnectingManual(i) => if i + 1 < peers {
            (RunState::ConnectingManual(i + 1), RunAction::ConnectManual(i + 1))
        } else {
            (RunState::StartingInbound, RunAction::StartInbound)
        },
        RunState::StartingInbound => match event {
            RunEvent::Done => (RunState::StartingOutbound, RunAction::StartOutbound),
            RunEvent::Failed(e) => (RunState::Finished, RunAction::Exit(Err(e))),
        },
        RunState::StartingOutbound => match event {
            RunEvent::Done => (RunState::Running, RunAction::WaitForStop),
            RunEvent::Failed(e) => (RunState::Finished, RunAction::Exit(Err(e))),
        },
        RunState::Running => (RunState::StoppingManual, RunAction::StopManual),
        RunState::StoppingManual => (RunState::StoppingInbound, RunAction::StopInbound),
        RunState::StoppingInbound => (RunState::StoppingOutbound, RunAction::StopOutbound),
        RunState::StoppingOutbound => (RunState::Finished, RunAction::Exit(Ok(()))),
        RunState::Finished => (RunState::Finished, RunAction::Exit(Ok(()))),
    }
}

} // verus!

//! The slots of the connections that are open, by connection.
use vstd::prelude::*;

verus! {

/// How many parts a registry is split into.
pub const SHARDS: usize = 16;

/// An IP address as a number.
#[derive(Clone, Copy, PartialEq, Eq, Structural)]
pub enum Ip {
    /// An IPv4 address.
    V4(u32),
    /// An IPv6 address.
    V6(u128),
}

/// A connection, by its local and its remote address. Two connections that are open at the same
/// time differ in one of them.
#[derive(Clone, Copy, PartialEq, Eq)]
pub struct ConnKey {
    /// The local IP address.
    pub local_ip: Option<Ip>,
    /// The local port.
    pub local_port: Option<u16>,
    /// The peer's IP address.
    pub remote_ip: Option<Ip>,
    /// The peer's port.
    pub remote_port: Option<u16>,
}

/// The key of a connection with these addresses.
pub fn conn_key(
    local_ip: Option<Ip>,
    local_port: Option<u16>,
    remote_ip: Option<Ip>,
    remote_port: Option<u16>,
) -> (r: ConnKey)
    ensures
        r == (ConnKey { local_ip, local_port, remote_ip, remote_port }),
{
    ConnKey { local_ip, local_port, remote_ip, remote_port }
}

/// The part of a registry that a connection belongs to: its peer's port tells connections apart,
/// and a peer's ports follow each other.
pub open spec fn shard_of(key: ConnKey) -> int {
    match key.remote_port {
        Some(port) => port as int % SHARDS as int,
        None => 0,
    }
}

/// Connections from [`SHARDS`] ports in a row are spread over every part.
pub proof fn law_ports_spread(a: ConnKey, b: ConnKey)
    requires
        a.remote_port is Some,
        b.remote_port is Some,
        a.remote_port->0 < b.remote_port->0 < a.remote_port->0 + SHARDS,
    ensures
        shard_of(a) != shard_of(b),
{
}

/// The part of a registry that a connection belongs to.
pub fn shard_index(key: &ConnKey) -> (r: usize)
    ensures
        r == shard_of(*key),
        r < SHARDS,
{
    match key.remote_port {
        Some(port) => port as usize % SHARDS,
        None => 0,
    }
}

fn same_ip(a: Option<Ip>, b: Option<Ip>) -> (r: bool)
    ensures
        r == (a == b),
{
    match (a, b) {
        (Some(x), Some(y)) => x == y,
        (None, None) => true,
        _ => false,
    }
}

fn same_port(a: Option<u16>, b: Option<u16>) -> (r: bool)
    ensures
        r == (a == b),
{
    match (a, b) {
        (Some(x), Some(y)) => x == y,
        (None, None) => true,
        _ => false,
    }
}

fn same_key(a: &ConnKey, b: &ConnKey) -> (r: bool)
    ensures
        r == (*a == *b),
{
    same_ip(a.local_ip, b.local_ip) && same_port(a.local_port, b.local_port) && same_ip(
        a.remote_ip,
        b.remote_ip,
    ) && same_port(a.remote_port, b.remote_port)
}

/// One part of a registry.
pub struct Shard<V> {
    entries: Vec<(ConnKey, V)>,
}

impl<V> Shard<V> {
    /// No connection is listed twice.
    pub closed spec fn wf(&self) -> bool {
        forall|i: int, j: int|
            0 <= i < j < self.entries@.len() ==> (#[trigger] self.entries@[i]).0
                != (#[trigger] self.entries@[j]).0
    }

    /// Whether the entry of `key` stands at `i`.
    spec fn at(&self, key: ConnKey, i: int) -> bool {
        0 <= i < self.entries@.len() && self.entries@[i].0 == key
    }

    /// What is listed for a connection.
    pub closed spec fn lookup(&self, key: ConnKey) -> Option<V> {
        if exists|i: int| self.at(key, i) {
            Some(self.entries@[choose|i: int| self.at(key, i)].1)
        } else {
            None
        }
    }

    /// A part that lists nothing.
    pub fn new() -> (r: Shard<V>)
        ensures
            r.wf(),
            forall|k: ConnKey| #[trigger] r.lookup(k) is None,
    {
        Shard { entries: Vec::new() }
    }

    /// The place of a connection; the length where it is not listed.
    fn find(&self, key: &ConnKey) -> (r: usize)
        requires
            self.wf(),
        ensures
            r <= self.entries@.len(),
            r < self.entries@.len() ==> self.at(*key, r as int) && self.lookup(*key) == Some(
                self.entries@[r as int].1,
            ),
            r == self.entries@.len() ==> self.lookup(*key) is None,
    {
        let mut i: usize = 0;
        while i < self.entries.len()
            invariant
                0 <= i <= self.entries@.len(),
                self.wf(),
                forall|k: int| 0 <= k < i ==> (#[trigger] self.entries@[k]).0 != *key,
            decreases self.entries@.len() - i,
        {
            if same_key(&self.entries[i].0, key) {
                proof {
                    assert(self.at(*key, i as int));
                    let c = choose|i: int| self.at(*key, i);
                    assert(self.at(*key, c));
                    assert(c == i) by {
                        if c < i {
                            assert(self.entries@[c].0 != self.entries@[i as int].0);
                        } else if i < c {
                            assert(self.entries@[i as int].0 != self.entries@[c].0);
                        }
                    }
                }
                return i;
            }
            i = i + 1;
        }
        i
    }

    /// Lists `value` for a connection, in place of what was listed for it.
    pub fn insert(&mut self, key: ConnKey, value: V)
        requires
            old(self).wf(),
        ensures
            final(self).wf(),
            final(self).lookup(key) == Some(value),
            forall|k: ConnKey| k != key ==> #[trigger] final(self).lookup(k) == old(self).lookup(k),
    {
        let at = self.find(&key);
        if at < self.entries.len() {
            self.entries.swap_remove(at);
            proof {
                lemma_swap_remove(*old(self), *self, at as int);
            }
        }
        let ghost mid = *self;
        self.entries.push((key, value));
        proof {
            assert(self.entries@.drop_last() =~= mid.entries@);
            assert forall|k: ConnKey| k != key implies #[trigger] self.lookup(k) == mid.lookup(k) by {
                lemma_same_lookup(mid, *self, k);
            }
            let last = self.entries@.len() - 1;
            assert(self.at(key, last));
            let c = choose|i: int| self.at(key, i);
            assert(self.at(key, c));
            assert(c == last) by {
                if c < last {
                    assert(mid.at(key, c));
                    assert(self.entries@[c] == mid.entries@[c]);
                }
            }
            assert(self.wf()) by {
                assert forall|i: int, j: int| 0 <= i < j < self.entries@.len() implies (
                #[trigger] self.entries@[i]).0 != (#[trigger] self.entries@[j]).0 by {
                    if j == last {
                        if self.entries@[i].0 == key {
                            assert(mid.at(key, i));
                        }
                    } else {
                        assert(mid.entries@[i].0 != mid.entries@[j].0);
                    }
                }
            }
        }
    }

    /// Takes a connection off the list.
    pub fn remove(&mut self, key: ConnKey)
        requires
            old(self).wf(),
        ensures
            final(self).wf(),
            final(self).lookup(key) is None,
            forall|k: ConnKey| k != key ==> #[trigger] final(self).lookup(k) == old(self).lookup(k),
    {
        let at = self.find(&key);
        if at < self.entries.len() {
            self.entries.swap_remove(at);
            proof {
                lemma_swap_remove(*old(self), *self, at as int);
            }
        }
    }

    /// What is listed for a connection.
    pub fn get(&self, key: &ConnKey) -> (r: Option<&V>)
        requires
            self.wf(),
        ensures
            r is Some <==> self.lookup(*key) is Some,
            r matches Some(v) ==> self.lookup(*key) == Some(*v),
    {
        let at = self.find(key);
        if at < self.entries.len() {
            Some(&self.entries[at].1)
        } else {
            None
        }
    }
}

/// Two lists that hold the same entry for a connection, or none, agree on it.
proof fn lemma_same_lookup<V>(a: Shard<V>, b: Shard<V>, key: ConnKey)
    requires
        a.wf(),
        b.entries@.len() == a.entries@.len() + 1,
        b.entries@.drop_last() == a.entries@,
        b.entries@.last().0 != key,
    ensures
        b.lookup(key) == a.lookup(key),
{
    assert forall|i: int| a.at(key, i) == b.at(key, i) by {
        if 0 <= i < a.entries@.len() {
            assert(b.entries@.drop_last()[i] == a.entries@[i]);
        }
    }
    if exists|i: int| a.at(key, i) {
        let i = choose|i: int| a.at(key, i);
        let j = choose|i: int| b.at(key, i);
        assert(b.at(key, i));
        assert(b.at(key, j));
        assert(a.at(key, j));
        assert(i == j) by {
            if i < j {
                assert(a.entries@[i].0 != a.entries@[j].0);
            } else if j < i {
                assert(a.entries@[j].0 != a.entries@[i].0);
            }
        }
        assert(b.entries@.drop_last()[j] == a.entries@[j]);
    }
}

/// Taking the entry at `at` off a list, with the last entry in its place.
proof fn lemma_swap_remove<V>(a: Shard<V>, b: Shard<V>, at: int)
    requires
        a.wf(),
        0 <= at < a.entries@.len(),
        b.entries@ == a.entries@.update(at, a.entries@.last()).drop_last(),
    ensures
        b.wf(),
        b.lookup(a.entries@[at].0) is None,
        forall|k: ConnKey| k != a.entries@[at].0 ==> #[trigger] b.lookup(k) == a.lookup(k),
{
    let key = a.entries@[at].0;
    let last = a.entries@.len() - 1;
    assert forall|i: int| 0 <= i < b.entries@.len() implies #[trigger] b.entries@[i]
        == a.entries@[if i == at {
        last
    } else {
        i
    }] by {}
    assert forall|i: int, j: int| 0 <= i < j < b.entries@.len() implies (
    #[trigger] b.entries@[i]).0 != (#[trigger] b.entries@[j]).0 by {
        let p = if i == at {
            last
        } else {
            i
        };
        let q = if j == at {
            last
        } else {
            j
        };
        assert(p != q);
        if p < q {
            assert(a.entries@[p].0 != a.entries@[q].0);
        } else {
            assert(a.entries@[q].0 != a.entries@[p].0);
        }
    }
    assert forall|i: int| !b.at(key, i) by {
        if 0 <= i < b.entries@.len() {
            let p = if i == at {
                last
            } else {
                i
            };
            assert(p != at);
            if p < at {
                assert(a.entries@[p].0 != a.entries@[at].0);
            } else {
                assert(a.entries@[at].0 != a.entries@[p].0);
            }
        }
    }
    assert forall|k: ConnKey| k != key implies #[trigger] b.lookup(k) == a.lookup(k) by {
        if exists|i: int| a.at(k, i) {
            let i = choose|i: int| a.at(k, i);
            assert(a.at(k, i));
            let i2 = if i == last {
                at
            } else {
                i
            };
            assert(i != at);
            assert(b.at(k, i2));
            let j = choose|j: int| b.at(k, j);
            assert(b.at(k, j));
            assert(j == i2) by {
                if j < i2 {
                    assert(b.entries@[j].0 != b.entries@[i2].0);
                } else if i2 < j {
                    assert(b.entries@[i2].0 != b.entries@[j].0);
                }
            }
        } else {
            assert forall|j: int| !b.at(k, j) by {
                if b.at(k, j) {
                    let p = if j == at {
                        last
                    } else {
                        j
                    };
                    assert(a.at(k, p));
                }
            }
        }
    }
}

/// The slots of the connections that are open.
pub struct Registry<V> {
    shards: Vec<Shard<V>>,
}

impl<V> Registry<V> {
    /// Every part is well formed.
    pub closed spec fn wf(&self) -> bool {
        self.shards@.len() == SHARDS && forall|i: int|
            0 <= i < SHARDS ==> (#[trigger] self.shards@[i]).wf()
    }

    /// The slot that is registered for a connection.
    pub closed spec fn registered(&self, key: ConnKey) -> Option<V> {
        self.shards@[shard_of(key)].lookup(key)
    }

    /// A registry without connections.
    pub fn new() -> (r: Registry<V>)
        ensures
            r.wf(),
            forall|k: ConnKey| #[trigger] r.registered(k) is None,
    {
        let mut shards: Vec<Shard<V>> = Vec::new();
        while shards.len() < SHARDS
            invariant
                shards@.len() <= SHARDS,
                forall|i: int| 0 <= i < shards@.len() ==> (#[trigger] shards@[i]).wf(),
                forall|i: int, k: ConnKey|
                    0 <= i < shards@.len() ==> #[trigger] shards@[i].lookup(k) is None,
            decreases SHARDS - shards@.len(),
        {
            shards.push(Shard::new());
        }
        Registry { shards }
    }

    /// Registers the slot of a connection.
    pub fn register(&mut self, key: ConnKey, slot: V)
        requires
            old(self).wf(),
        ensures
            final(self).wf(),
            final(self).registered(key) == Some(slot),
            forall|k: ConnKey|
                k != key ==> #[trigger] final(self).registered(k) == old(self).registered(k),
    {
        let at = shard_index(&key);
        let shard = &mut self.shards[at];
        shard.insert(key, slot);
    }

    /// Forgets a connection.
    pub fn unregister(&mut self, key: ConnKey)
        requires
            old(self).wf(),
        ensures
            final(self).wf(),
            final(self).registered(key) is None,
            forall|k: ConnKey|
                k != key ==> #[trigger] final(self).registered(k) == old(self).registered(k),
    {
        let at = shard_index(&key);
        let shard = &mut self.shards[at];
        shard.remove(key);
    }

    /// The slot of a connection; `None` where it was never registered, or is forgotten.
    pub fn slot_for(&self, key: &ConnKey) -> (r: Option<&V>)
        requires
            self.wf(),
        ensures
            r is Some <==> self.registered(*key) is Some,
            r matches Some(slot) ==> self.registered(*key) == Some(*slot),
    {
        let at = shard_index(key);
        self.shards[at].get(key)
    }
}

} // verus!

//! A bounded cache of open files, by request path.
//!
//! What is cached is an open file, not its content. A hit asks that the file behind the path is the
//! one that was opened, by inode, size and time of modification, or that this was found to be so
//! less than [`REVALIDATE_MILLIS`] ago. The least recently used entry makes room for a new one.
use core::hash::{Hash, Hasher};
use vstd::prelude::*;

verus! {

/// How many parts a cache is split into.
pub const SHARDS: usize = 16;

/// How many entries one part holds at most.
pub const CAPACITY_PER_SHARD: usize = 32;

/// For how many milliseconds an entry that was found valid is not looked at again.
pub const REVALIDATE_MILLIS: i64 = 1000;

/// The milliseconds of a clock that reads `seconds` and `nanoseconds`.
pub fn millis(seconds: i64, nanoseconds: i64) -> (r: i64)
    requires
        0 <= nanoseconds < 1_000_000_000,
        i64::MIN <= seconds * 1000,
        seconds * 1000 + nanoseconds as int / 1_000_000 <= i64::MAX,
    ensures
        r == seconds * 1000 + nanoseconds as int / 1_000_000,
{
    seconds * 1000 + nanoseconds / 1_000_000
}

/// What tells one state of a file from another.
#[derive(Clone, Copy)]
pub struct FileMeta {
    /// The inode.
    pub ino: u64,
    /// The size.
    pub len: u64,
    /// The seconds of the time of modification.
    pub mtime: i64,
    /// The nanoseconds of the time of modification.
    pub mtime_nsec: i64,
}

/// A cached file.
#[derive(Clone, Copy)]
pub struct Entry {
    /// The state of the file when it was opened.
    pub meta: FileMeta,
    /// The open file and what is kept with it, by number.
    pub handle: u64,
    /// When the entry was last used, by the clock of its part.
    pub used: u64,
    /// When the entry was last found valid, in milliseconds.
    pub validated_at: i64,
}

/// A map from path to entry.
#[verifier::external_body]
pub struct Table {
    map: hashbrown::HashMap<Box<str>, Entry, rustc_hash::FxBuildHasher>,
}

/// What a table holds.
pub uninterp spec fn table_entries(table: Table) -> Map<Seq<char>, Entry>;

/// [`hashbrown::HashMap::with_hasher`]: an empty table.
#[verifier::external_body]
fn table_new() -> (r: Table)
    ensures
        table_entries(r).dom() == Set::<Seq<char>>::empty(),
{
    Table { map: hashbrown::HashMap::with_hasher(rustc_hash::FxBuildHasher) }
}

/// [`hashbrown::HashMap::get`]: the entry of a path.
#[verifier::external_body]
fn table_get(table: &Table, path: &str) -> (r: Option<Entry>)
    ensures
        r == (if table_entries(*table).contains_key(path@) {
            Some(table_entries(*table)[path@])
        } else {
            None
        }),
{
    table.map.get(path).copied()
}

/// [`hashbrown::HashMap::insert`]: puts an entry in for a path, in place of the one it had.
#[verifier::external_body]
fn table_insert(table: &mut Table, path: &str, entry: Entry)
    ensures
        table_entries(*final(table)) == table_entries(*old(table)).insert(path@, entry),
{
    table.map.insert(Box::from(path), entry);
}

/// [`hashbrown::HashMap::remove`]: takes out the entry of a path.
#[verifier::external_body]
fn table_remove(table: &mut Table, path: &str) -> (r: Option<Entry>)
    ensures
        table_entries(*final(table)) == table_entries(*old(table)).remove(path@),
        r == (if table_entries(*old(table)).contains_key(path@) {
            Some(table_entries(*old(table))[path@])
        } else {
            None
        }),
{
    table.map.remove(path)
}

/// [`hashbrown::HashMap::len`]: how many entries there are.
#[verifier::external_body]
fn table_len(table: &Table) -> (r: usize)
    ensures
        r == table_entries(*table).len(),
{
    table.map.len()
}

/// [`hashbrown::HashMap::iter`]: every path with the time its entry was last used, in no
/// particular order.
#[verifier::external_body]
fn table_uses(table: &Table) -> (r: Vec<(String, u64)>)
    ensures
        forall|i: int|
            0 <= i < r@.len() ==> table_entries(*table).contains_key((#[trigger] r@[i]).0@)
                && table_entries(*table)[r@[i].0@].used == r@[i].1,
        forall|k: Seq<char>| #[trigger]
            table_entries(*table).contains_key(k) ==> exists|i: int|
                0 <= i < r@.len() && (#[trigger] r@[i]).0@ == k,
{
    table.map.iter().map(|(path, entry)| (path.to_string(), entry.used)).collect()
}

/// [`rustc_hash::FxHasher`] over [`str::hash`]: a number that spreads paths over the parts of a
/// cache. Nothing is claimed of it: it depends on the width of the machine's words.
#[verifier::external_body]
fn path_hash(path: &str) -> u64 {
    let mut hasher = rustc_hash::FxHasher::default();
    path.hash(&mut hasher);
    hasher.finish()
}

/// The part of a cache that a hash belongs to.
pub open spec fn shard_of(hash: u64) -> int {
    hash as int % SHARDS as int
}

/// The part of a cache that a hash belongs to.
pub fn shard_index(hash: u64) -> (r: usize)
    ensures
        r == shard_of(hash),
        r < SHARDS,
{
    (hash % (SHARDS as u64)) as usize
}

/// The state of one part of a cache.
pub struct ShardModel {
    /// The entries, by path.
    pub entries: Map<Seq<char>, Entry>,
    /// How often an entry was looked for or put in.
    pub clock: u64,
}

/// Whether an entry still counts as valid.
pub open spec fn is_fresh(entry: Entry, now: i64) -> bool {
    now - entry.validated_at < REVALIDATE_MILLIS
}

/// Whether no entry was used longer ago than that of `path`.
pub open spec fn is_oldest(entries: Map<Seq<char>, Entry>, path: Seq<char>) -> bool {
    &&& entries.contains_key(path)
    &&& forall|k: Seq<char>| #[trigger]
        entries.contains_key(k) ==> entries[path].used <= entries[k].used
}

/// The path whose entry was used longest ago.
pub open spec fn oldest(entries: Map<Seq<char>, Entry>) -> Seq<char> {
    choose|path: Seq<char>| is_oldest(entries, path)
}

impl ShardModel {
    /// The number of entries is bounded, and no two entries were last used at the same time.
    pub open spec fn wf(self) -> bool {
        &&& self.entries.dom().finite()
        &&& self.entries.len() <= CAPACITY_PER_SHARD
        &&& forall|k: Seq<char>| #[trigger]
            self.entries.contains_key(k) ==> self.entries[k].used <= self.clock
        &&& forall|j: Seq<char>, k: Seq<char>| #[trigger]
            self.entries.contains_key(j) && #[trigger] self.entries.contains_key(k) && j != k
                ==> self.entries[j].used != self.entries[k].used
    }

    /// One tick later.
    pub open spec fn ticked(self) -> ShardModel {
        ShardModel { entries: self.entries, clock: (self.clock + 1) as u64 }
    }

    /// After the entry of `path` was used.
    pub open spec fn with(self, path: Seq<char>, entry: Entry) -> ShardModel {
        ShardModel {
            entries: self.entries.insert(path, Entry { used: (self.clock + 1) as u64, ..entry }),
            clock: (self.clock + 1) as u64,
        }
    }

    /// Whether a look for `path` that asks no more than freshness finds an entry.
    pub open spec fn hits_fresh(self, path: Seq<char>, now: i64) -> bool {
        self.entries.contains_key(path) && is_fresh(self.entries[path], now)
    }

    /// Whether a look for `path` finds an entry for a file in the state `meta`.
    pub open spec fn hits(self, path: Seq<char>, meta: FileMeta) -> bool {
        self.entries.contains_key(path) && self.entries[path].meta == meta
    }

    /// After a look that asks no more than freshness. It does not make an entry valid for longer.
    pub open spec fn after_fresh(self, path: Seq<char>, now: i64) -> ShardModel {
        if self.hits_fresh(path, now) {
            self.with(path, self.entries[path])
        } else {
            self.ticked()
        }
    }

    /// After a look for a file in the state `meta`. A hit is valid from now on.
    pub open spec fn after_get(self, path: Seq<char>, meta: FileMeta, now: i64) -> ShardModel {
        if self.hits(path, meta) {
            self.with(path, Entry { validated_at: now, ..self.entries[path] })
        } else {
            self.ticked()
        }
    }

    /// Whether a new entry for `path` takes the place of another path's.
    pub open spec fn evicts(self, path: Seq<char>) -> bool {
        !self.entries.contains_key(path) && self.entries.len() >= CAPACITY_PER_SHARD
    }

    /// After an entry was put in. Where there is no room, the least recently used entry makes it.
    pub open spec fn after_insert(
        self,
        path: Seq<char>,
        handle: u64,
        meta: FileMeta,
        now: i64,
    ) -> ShardModel {
        let entry = Entry { meta, handle, used: 0, validated_at: now };
        if self.evicts(path) {
            ShardModel {
                entries: self.entries.remove(oldest(self.entries)),
                clock: self.clock,
            }.with(path, entry)
        } else {
            self.with(path, entry)
        }
    }

    /// The handle that leaves when an entry is put in.
    pub open spec fn released(self, path: Seq<char>) -> Option<u64> {
        if self.entries.contains_key(path) {
            Some(self.entries[path].handle)
        } else if self.evicts(path) {
            Some(self.entries[oldest(self.entries)].handle)
        } else {
            None
        }
    }

    /// After the entry of `path` was taken out.
    pub open spec fn after_remove(self, path: Seq<char>) -> ShardModel {
        ShardModel { entries: self.entries.remove(path), clock: self.clock }
    }
}

/// Using one entry keeps a part well formed.
proof fn lemma_with_wf(m: ShardModel, path: Seq<char>, entry: Entry)
    requires
        m.wf(),
        m.clock < u64::MAX,
        m.entries.contains_key(path) || m.entries.len() < CAPACITY_PER_SHARD,
    ensures
        m.with(path, entry).wf(),
{
}

/// There is an oldest entry, and only one.
proof fn lemma_oldest(m: ShardModel, path: Seq<char>)
    requires
        m.wf(),
        is_oldest(m.entries, path),
    ensures
        oldest(m.entries) == path,
{
    let o = oldest(m.entries);
    assert(is_oldest(m.entries, o));
    assert(m.entries.contains_key(o) && m.entries.contains_key(path));
}

/// One part of a cache.
pub struct Shard {
    entries: Table,
    clock: u64,
}

impl Shard {
    /// The state of the part.
    pub closed spec fn model(&self) -> ShardModel {
        ShardModel { entries: table_entries(self.entries), clock: self.clock }
    }

    /// An empty part.
    pub fn new() -> (r: Shard)
        ensures
            r.model().wf(),
            r.model().entries == Map::<Seq<char>, Entry>::empty(),
            r.model().clock == 0,
    {
        let entries = table_new();
        assert(table_entries(entries) =~= Map::<Seq<char>, Entry>::empty());
        Shard { entries, clock: 0 }
    }

    /// Whether the clock can go on.
    pub fn can_tick(&self) -> (r: bool)
        ensures
            r == (self.model().clock < u64::MAX),
    {
        self.clock < u64::MAX
    }

    /// How many entries there are.
    pub fn len(&self) -> (r: usize)
        ensures
            r == self.model().entries.len(),
    {
        table_len(&self.entries)
    }

    /// The entry of `path`, where it was found valid less than [`REVALIDATE_MILLIS`] ago. The
    /// entry counts as used, but it is not valid for longer on that account.
    pub fn get_fresh(&mut self, path: &str, now: i64) -> (r: Option<Entry>)
        requires
            old(self).model().wf(),
            old(self).model().clock < u64::MAX,
        ensures
            final(self).model() == old(self).model().after_fresh(path@, now),
            final(self).model().wf(),
            r is Some <==> old(self).model().hits_fresh(path@, now),
            r matches Some(entry) ==> entry == final(self).model().entries[path@],
    {
        self.clock = self.clock + 1;
        match table_get(&self.entries, path) {
            None => None,
            Some(entry) => {
                if (now as i128) - (entry.validated_at as i128) >= REVALIDATE_MILLIS as i128 {
                    return None;
                }
                let used = Entry { used: self.clock, ..entry };
                table_insert(&mut self.entries, path, used);
                Some(used)
            },
        }
    }

    /// The entry of `path`, where its file is in the state `meta`. The entry is then valid from
    /// `now` on.
    pub fn get(&mut self, path: &str, meta: FileMeta, now: i64) -> (r: Option<Entry>)
        requires
            old(self).model().wf(),
            old(self).model().clock < u64::MAX,
        ensures
            final(self).model() == old(self).model().after_get(path@, meta, now),
            final(self).model().wf(),
            r is Some <==> old(self).model().hits(path@, meta),
            r matches Some(entry) ==> entry == final(self).model().entries[path@],
    {
        self.clock = self.clock + 1;
        match table_get(&self.entries, path) {
            None => None,
            Some(entry) => {
                if entry.meta.ino != meta.ino || entry.meta.len != meta.len || entry.meta.mtime
                    != meta.mtime || entry.meta.mtime_nsec != meta.mtime_nsec {
                    return None;
                }
                let used = Entry { used: self.clock, validated_at: now, ..entry };
                table_insert(&mut self.entries, path, used);
                Some(used)
            },
        }
    }

    /// The path whose entry was used longest ago.
    fn find_oldest(&self) -> (r: Option<String>)
        requires
            self.model().wf(),
        ensures
            r is Some <==> self.model().entries.len() > 0,
            r matches Some(path) ==> {
                &&& is_oldest(self.model().entries, path@)
                &&& path@ == oldest(self.model().entries)
            },
    {
        let ghost m = self.model();
        let uses = table_uses(&self.entries);
        if uses.len() == 0 {
            proof {
                assert forall|k: Seq<char>| !m.entries.contains_key(k) by {}
                assert(m.entries.dom() =~= Set::<Seq<char>>::empty());
            }
            return None;
        }
        let mut best: usize = 0;
        let mut i: usize = 1;
        while i < uses.len()
            invariant
                1 <= i <= uses@.len(),
                best < i,
                forall|k: int| 0 <= k < i ==> uses@[best as int].1 <= (#[trigger] uses@[k]).1,
            decreases uses@.len() - i,
        {
            if uses[i].1 < uses[best].1 {
                best = i;
            }
            i = i + 1;
        }
        let path = uses[best].0.clone();
        proof {
            assert(m.entries.contains_key(path@));
            assert forall|k: Seq<char>| #[trigger] m.entries.contains_key(k) implies m.entries[path@].used
                <= m.entries[k].used by {
                let j = choose|j: int| 0 <= j < uses@.len() && (#[trigger] uses@[j]).0@ == k;
                assert(uses@[best as int].1 <= uses@[j].1);
            }
            lemma_oldest(m, path@);
            assert(m.entries.dom().contains(path@));
            if m.entries.len() == 0 {
                assert(m.entries.dom() =~= Set::<Seq<char>>::empty());
            }
        }
        Some(path)
    }

    /// Puts an entry in for `path`, which is valid from `now` on, and returns the handle that
    /// leaves on that account.
    pub fn insert(&mut self, path: &str, handle: u64, meta: FileMeta, now: i64) -> (r: Option<u64>)
        requires
            old(self).model().wf(),
            old(self).model().clock < u64::MAX,
        ensures
            final(self).model() == old(self).model().after_insert(path@, handle, meta, now),
            final(self).model().wf(),
            r == old(self).model().released(path@),
    {
        let ghost m = self.model();
        let ghost entry0 = Entry { meta, handle, used: 0, validated_at: now };
        let mut left: Option<u64> = None;
        match table_get(&self.entries, path) {
            Some(entry) => {
                left = Some(entry.handle);
            },
            None => {
                if table_len(&self.entries) >= CAPACITY_PER_SHARD {
                    if let Some(victim) = self.find_oldest() {
                        if let Some(entry) = table_remove(&mut self.entries, victim.as_str()) {
                            left = Some(entry.handle);
                        }
                    }
                }
            },
        }
        proof {
            lemma_with_wf(self.model(), path@, entry0);
        }
        self.clock = self.clock + 1;
        let entry = Entry { meta, handle, used: self.clock, validated_at: now };
        table_insert(&mut self.entries, path, entry);
        left
    }

    /// Takes out the entry of `path` and returns its handle.
    pub fn remove(&mut self, path: &str) -> (r: Option<u64>)
        requires
            old(self).model().wf(),
        ensures
            final(self).model() == old(self).model().after_remove(path@),
            final(self).model().wf(),
            r == (if old(self).model().entries.contains_key(path@) {
                Some(old(self).model().entries[path@].handle)
            } else {
                None
            }),
    {
        match table_remove(&mut self.entries, path) {
            Some(entry) => Some(entry.handle),
            None => None,
        }
    }
}

/// A cache of open files, by request path. A path belongs to one part, by its hash.
pub struct FileCache {
    shards: Vec<Shard>,
}

/// Whether one part of a cache became `model` and the others stayed as they were.
pub open spec fn one_shard(before: FileCache, after: FileCache, at: int, model: ShardModel) -> bool {
    &&& after.shard(at) == model
    &&& forall|i: int|
        0 <= i < SHARDS && i != at ==> #[trigger] after.shard(i) == before.shard(i)
}

/// What a look for a fresh entry does.
pub open spec fn cache_get_fresh(
    before: FileCache,
    after: FileCache,
    hash: u64,
    path: Seq<char>,
    now: i64,
    r: Option<Entry>,
) -> bool {
    let m = before.shard(shard_of(hash));
    &&& one_shard(before, after, shard_of(hash), m.after_fresh(path, now))
    &&& r is Some <==> m.hits_fresh(path, now)
    &&& r matches Some(entry) ==> entry == after.shard(shard_of(hash)).entries[path]
}

/// What a look for an entry for a file in the state `meta` does.
pub open spec fn cache_get(
    before: FileCache,
    after: FileCache,
    hash: u64,
    path: Seq<char>,
    meta: FileMeta,
    now: i64,
    r: Option<Entry>,
) -> bool {
    let m = before.shard(shard_of(hash));
    &&& one_shard(before, after, shard_of(hash), m.after_get(path, meta, now))
    &&& r is Some <==> m.hits(path, meta)
    &&& r matches Some(entry) ==> entry == after.shard(shard_of(hash)).entries[path]
}

/// What putting in an entry does.
pub open spec fn cache_insert(
    before: FileCache,
    after: FileCache,
    hash: u64,
    path: Seq<char>,
    handle: u64,
    meta: FileMeta,
    now: i64,
    r: Option<u64>,
) -> bool {
    let m = before.shard(shard_of(hash));
    &&& one_shard(before, after, shard_of(hash), m.after_insert(path, handle, meta, now))
    &&& r == m.released(path)
}

/// What taking out an entry does.
pub open spec fn cache_remove(
    before: FileCache,
    after: FileCache,
    hash: u64,
    path: Seq<char>,
    r: Option<u64>,
) -> bool {
    let m = before.shard(shard_of(hash));
    &&& one_shard(before, after, shard_of(hash), m.after_remove(path))
    &&& r == (if m.entries.contains_key(path) {
        Some(m.entries[path].handle)
    } else {
        None
    })
}

/// The number of entries in the first `n` parts of a cache.
pub open spec fn entries_in(cache: FileCache, n: nat) -> nat
    decreases n,
{
    if n == 0 {
        0
    } else {
        entries_in(cache, (n - 1) as nat) + cache.shard(n - 1).entries.len()
    }
}

impl FileCache {
    /// The state of one part.
    pub closed spec fn shard(&self, at: int) -> ShardModel {
        self.shards@[at].model()
    }

    /// Every part is well formed.
    pub closed spec fn wf(&self) -> bool {
        self.shards@.len() == SHARDS && forall|i: int|
            0 <= i < SHARDS ==> (#[trigger] self.shards@[i]).model().wf()
    }

    /// The clock of every part can go on.
    pub open spec fn can_tick(&self) -> bool {
        forall|i: int| 0 <= i < SHARDS ==> (#[trigger] self.shard(i)).clock < u64::MAX
    }

    /// An empty cache.
    pub fn new() -> (r: FileCache)
        ensures
            r.wf(),
            r.can_tick(),
            forall|i: int|
                0 <= i < SHARDS ==> (#[trigger] r.shard(i)).entries == Map::<
                    Seq<char>,
                    Entry,
                >::empty() && r.shard(i).clock == 0,
    {
        let mut shards: Vec<Shard> = Vec::new();
        while shards.len() < SHARDS
            invariant
                shards@.len() <= SHARDS,
                forall|i: int|
                    0 <= i < shards@.len() ==> {
                        let m = (#[trigger] shards@[i]).model();
                        m.wf() && m.entries == Map::<Seq<char>, Entry>::empty() && m.clock == 0
                    },
            decreases SHARDS - shards@.len(),
        {
            shards.push(Shard::new());
        }
        FileCache { shards }
    }

    /// Whether the cache can be used further: the clock of every part can go on.
    pub fn ready(&self) -> (r: bool)
        requires
            self.wf(),
        ensures
            r == self.can_tick(),
    {
        let mut i: usize = 0;
        while i < SHARDS
            invariant
                self.wf(),
                0 <= i <= SHARDS,
                forall|k: int| 0 <= k < i ==> (#[trigger] self.shard(k)).clock < u64::MAX,
            decreases SHARDS - i,
        {
            if !self.shards[i].can_tick() {
                assert(self.shard(i as int).clock == u64::MAX);
                return false;
            }
            i = i + 1;
        }
        true
    }

    /// The entry of `path` in the part that `hash` belongs to, where it is fresh.
    pub fn get_fresh_at(&mut self, hash: u64, path: &str, now: i64) -> (r: Option<Entry>)
        requires
            old(self).wf(),
            old(self).can_tick(),
        ensures
            final(self).wf(),
            cache_get_fresh(*old(self), *final(self), hash, path@, now, r),
    {
        let at = shard_index(hash);
        assert(self.shard(at as int) == self.shards@[at as int].model());
        let shard = &mut self.shards[at];
        shard.get_fresh(path, now)
    }

    /// The entry of `path`, where it is fresh.
    pub fn get_fresh(&mut self, path: &str, now: i64) -> (r: Option<Entry>)
        requires
            old(self).wf(),
            old(self).can_tick(),
        ensures
            final(self).wf(),
            exists|hash: u64| cache_get_fresh(*old(self), *final(self), hash, path@, now, r),
    {
        self.get_fresh_at(path_hash(path), path, now)
    }

    /// The entry of `path` in the part that `hash` belongs to, for a file in the state `meta`.
    pub fn get_at(&mut self, hash: u64, path: &str, meta: FileMeta, now: i64) -> (r: Option<Entry>)
        requires
            old(self).wf(),
            old(self).can_tick(),
        ensures
            final(self).wf(),
            cache_get(*old(self), *final(self), hash, path@, meta, now, r),
    {
        let at = shard_index(hash);
        assert(self.shard(at as int) == self.shards@[at as int].model());
        let shard = &mut self.shards[at];
        shard.get(path, meta, now)
    }

    /// The entry of `path`, for a file in the state `meta`.
    pub fn get(&mut self, path: &str, meta: FileMeta, now: i64) -> (r: Option<Entry>)
        requires
            old(self).wf(),
            old(self).can_tick(),
        ensures
            final(self).wf(),
            exists|hash: u64| cache_get(*old(self), *final(self), hash, path@, meta, now, r),
    {
        self.get_at(path_hash(path), path, meta, now)
    }

    /// Puts an entry for `path` in the part that `hash` belongs to, and returns the handle that
    /// leaves on that account.
    pub fn insert_at(&mut self, hash: u64, path: &str, handle: u64, meta: FileMeta, now: i64) -> (r: Option<u64>)
        requires
            old(self).wf(),
            old(self).can_tick(),
        ensures
            final(self).wf(),
            cache_insert(*old(self), *final(self), hash, path@, handle, meta, now, r),
    {
        let at = shard_index(hash);
        assert(self.shard(at as int) == self.shards@[at as int].model());
        let shard = &mut self.shards[at];
        shard.insert(path, handle, meta, now)
    }

    /// Puts in an entry for `path`, and returns the handle that leaves on that account.
    pub fn insert(&mut self, path: &str, handle: u64, meta: FileMeta, now: i64) -> (r: Option<u64>)
        requires
            old(self).wf(),
            old(self).can_tick(),
        ensures
            final(self).wf(),
            exists|hash: u64| cache_insert(*old(self), *final(self), hash, path@, handle, meta, now, r),
    {
        self.insert_at(path_hash(path), path, handle, meta, now)
    }

    /// Takes the entry of `path` out of the part that `hash` belongs to, and returns its handle.
    pub fn remove_at(&mut self, hash: u64, path: &str) -> (r: Option<u64>)
        requires
            old(self).wf(),
        ensures
            final(self).wf(),
            cache_remove(*old(self), *final(self), hash, path@, r),
    {
        let at = shard_index(hash);
        assert(self.shard(at as int) == self.shards@[at as int].model());
        let shard = &mut self.shards[at];
        shard.remove(path)
    }

    /// Takes out the entry of `path`, and returns its handle.
    pub fn remove(&mut self, path: &str) -> (r: Option<u64>)
        requires
            old(self).wf(),
        ensures
            final(self).wf(),
            exists|hash: u64| cache_remove(*old(self), *final(self), hash, path@, r),
    {
        self.remove_at(path_hash(path), path)
    }

    /// How many entries there are.
    pub fn total_len(&self) -> (r: usize)
        requires
            self.wf(),
        ensures
            r == entries_in(*self, SHARDS as nat),
            r <= SHARDS * CAPACITY_PER_SHARD,
    {
        let mut total: usize = 0;
        let mut i: usize = 0;
        while i < SHARDS
            invariant
                self.wf(),
                0 <= i <= SHARDS,
                total == entries_in(*self, i as nat),
                total <= i * CAPACITY_PER_SHARD,
            decreases SHARDS - i,
        {
            assert(self.shards@[i as int].model().wf());
            total = total + self.shards[i].len();
            i = i + 1;
        }
        total
    }
}

/// No part of a cache ever holds more than [`CAPACITY_PER_SHARD`] entries, whatever was done to the
/// cache: every part of a cache that is well formed is.
pub proof fn law_parts_are_bounded(cache: FileCache, at: int)
    requires
        cache.wf(),
        0 <= at < SHARDS,
    ensures
        cache.shard(at).wf(),
        cache.shard(at).entries.len() <= CAPACITY_PER_SHARD,
{
}

/// A file that was put in is found again, by its state at any time, and without it while it is
/// fresh.
pub proof fn law_found_again(
    m: ShardModel,
    path: Seq<char>,
    handle: u64,
    meta: FileMeta,
    now: i64,
    later: i64,
)
    ensures
        ({
            let n = m.after_insert(path, handle, meta, now);
            &&& n.hits(path, meta)
            &&& n.entries[path].handle == handle
            &&& n.hits_fresh(path, later) <==> later - now < REVALIDATE_MILLIS
        }),
{
}

/// A file that was put in a cache is found there again, as long as its path keeps its hash: by its
/// state, and, while it is fresh, without it.
pub proof fn law_cache_gives_back(
    before: FileCache,
    filled: FileCache,
    after: FileCache,
    hash: u64,
    path: Seq<char>,
    handle: u64,
    meta: FileMeta,
    now: i64,
    later: i64,
    left: Option<u64>,
    hit: Option<Entry>,
)
    requires
        cache_insert(before, filled, hash, path, handle, meta, now, left),
    ensures
        cache_get(filled, after, hash, path, meta, later, hit) ==> hit is Some && hit->0.handle
            == handle && hit->0.meta == meta,
        cache_get_fresh(filled, after, hash, path, later, hit) && later - now < REVALIDATE_MILLIS
            ==> hit is Some && hit->0.handle == handle && hit->0.meta == meta,
{
}

/// A file that was changed, or replaced by another, is not found: a hit asks for the inode, the
/// size and the time of modification that the cached file had.
pub proof fn law_changed_file_misses(
    m: ShardModel,
    path: Seq<char>,
    handle: u64,
    meta: FileMeta,
    now: i64,
    changed: FileMeta,
)
    requires
        changed != meta,
    ensures
        !m.after_insert(path, handle, meta, now).hits(path, changed),
{
}

/// A path that was taken out is not found.
pub proof fn law_removed_is_gone(m: ShardModel, path: Seq<char>, meta: FileMeta, now: i64)
    ensures
        !m.after_remove(path).hits(path, meta),
        !m.after_remove(path).hits_fresh(path, now),
{
}

/// A file that is asked for all the time is still looked at again: a fresh hit does not make its
/// entry valid for longer, and a hit by state does.
pub proof fn law_revalidated(m: ShardModel, path: Seq<char>, meta: FileMeta, now: i64, later: i64)
    requires
        m.entries.contains_key(path),
    ensures
        m.after_fresh(path, now).entries[path].validated_at == m.entries[path].validated_at,
        m.after_fresh(path, now).hits_fresh(path, later) <==> later - m.entries[path].validated_at
            < REVALIDATE_MILLIS,
        m.hits(path, meta) ==> (m.after_get(path, meta, now).hits_fresh(path, later) <==> later - now
            < REVALIDATE_MILLIS),
{
}

/// What was used last is not what makes room: after a hit on `path`, a new entry leaves it in.
pub proof fn law_last_used_stays(
    m: ShardModel,
    path: Seq<char>,
    meta: FileMeta,
    now: i64,
    new_path: Seq<char>,
    handle: u64,
    new_meta: FileMeta,
    later: i64,
)
    requires
        m.wf(),
        m.clock + 1 < u64::MAX,
        m.hits(path, meta),
        new_path != path,
    ensures
        m.after_get(path, meta, now).after_insert(new_path, handle, new_meta, later).hits(path, meta),
{
    let n = m.after_get(path, meta, now);
    lemma_with_wf(m, path, Entry { validated_at: now, ..m.entries[path] });
    if n.evicts(new_path) {
        lemma_oldest_exists(n);
        let o = oldest(n.entries);
        assert(is_oldest(n.entries, o));
        if o == path {
            let rest = n.entries.dom().remove(path);
            assert(rest.len() >= CAPACITY_PER_SHARD - 1);
            let other = rest.choose();
            assert(rest.contains(other));
            assert(n.entries.contains_key(other));
            assert(m.entries.contains_key(other));
            assert(n.entries[other].used <= m.clock);
        }
    }
}

/// A part with entries has an oldest one.
proof fn lemma_oldest_exists(m: ShardModel)
    requires
        m.wf(),
        m.entries.len() > 0,
    ensures
        is_oldest(m.entries, oldest(m.entries)),
{
    lemma_oldest_in(m.entries, m.entries.dom());
    let o = choose|k: Seq<char>| #[trigger]
        m.entries.dom().contains(k) && forall|j: Seq<char>| #[trigger]
            m.entries.dom().contains(j) ==> m.entries[k].used <= m.entries[j].used;
    assert(m.entries.contains_key(o));
    assert(is_oldest(m.entries, o)) by {
        assert forall|k: Seq<char>| #[trigger] m.entries.contains_key(k) implies m.entries[o].used
            <= m.entries[k].used by {
            assert(m.entries.dom().contains(k));
        }
    }
}

proof fn lemma_oldest_in(entries: Map<Seq<char>, Entry>, keys: Set<Seq<char>>)
    requires
        keys.finite(),
        keys.len() > 0,
    ensures
        exists|k: Seq<char>| #[trigger]
            keys.contains(k) && forall|j: Seq<char>| #[trigger]
                keys.contains(j) ==> entries[k].used <= entries[j].used,
    decreases keys.len(),
{
    let k = keys.choose();
    assert(keys.contains(k));
    let rest = keys.remove(k);
    if rest.len() == 0 {
        assert forall|j: Seq<char>| #[trigger] keys.contains(j) implies entries[k].used
            <= entries[j].used by {
            if j != k {
                assert(rest.contains(j));
            }
        }
    } else {
        lemma_oldest_in(entries, rest);
        let o = choose|o: Seq<char>| #[trigger]
            rest.contains(o) && forall|j: Seq<char>| #[trigger]
                rest.contains(j) ==> entries[o].used <= entries[j].used;
        let best = if entries[k].used <= entries[o].used {
            k
        } else {
            o
        };
        assert(keys.contains(best));
        assert forall|j: Seq<char>| #[trigger] keys.contains(j) implies entries[best].used
            <= entries[j].used by {
            if j != k {
                assert(rest.contains(j));
            }
        }
    }
}

/// Where there is no room for a new path, the path that was used longest ago makes it, and every
/// other path stays.
pub proof fn law_least_recently_used_leaves(
    m: ShardModel,
    path: Seq<char>,
    handle: u64,
    meta: FileMeta,
    now: i64,
    k: Seq<char>,
)
    requires
        m.wf(),
        m.evicts(path),
        m.entries.contains_key(k),
    ensures
        m.after_insert(path, handle, meta, now).entries.contains_key(k) <==> !is_oldest(
            m.entries,
            k,
        ),
{
    lemma_oldest_exists(m);
    if is_oldest(m.entries, k) {
        lemma_oldest(m, k);
    }
}

/// What is done for one path leaves the entries of the others as they are, but for the one that leaves
/// for a new path.
pub proof fn law_other_entries_stay(
    m: ShardModel,
    path: Seq<char>,
    handle: u64,
    meta: FileMeta,
    now: i64,
    k: Seq<char>,
)
    requires
        m.wf(),
        m.entries.contains_key(k),
        k != path,
    ensures
        m.after_fresh(path, now).entries.contains_key(k) && m.after_fresh(path, now).entries[k]
            == m.entries[k],
        m.after_get(path, meta, now).entries.contains_key(k) && m.after_get(
            path,
            meta,
            now,
        ).entries[k] == m.entries[k],
        m.after_remove(path).entries.contains_key(k) && m.after_remove(path).entries[k]
            == m.entries[k],
        m.after_insert(path, handle, meta, now).entries.contains_key(k) ==> m.after_insert(
            path,
            handle,
            meta,
            now,
        ).entries[k] == m.entries[k],
        m.entries.contains_key(path) || m.entries.len() < 32 ==> m.after_insert(
            path,
            handle,
            meta,
            now,
        ).entries.contains_key(k),
{
    if m.evicts(path) {
        lemma_oldest_exists(m);
    }
}

/// A hit gives the file that was put in, in the state that it was put in with, and a miss changes
/// nothing that is stored.
pub proof fn law_hits_and_misses(m: ShardModel, path: Seq<char>, meta: FileMeta, now: i64)
    ensures
        m.hits(path, meta) <==> m.entries.contains_key(path) && m.entries[path].meta == meta,
        m.hits_fresh(path, now) <==> m.entries.contains_key(path) && now
            - m.entries[path].validated_at < 1000,
        m.hits(path, meta) ==> {
            let after = m.after_get(path, meta, now).entries;
            after.contains_key(path) && after[path].handle == m.entries[path].handle
                && after[path].meta == meta && after[path].validated_at == now
        },
        m.hits_fresh(path, now) ==> {
            let after = m.after_fresh(path, now).entries;
            after.contains_key(path) && after[path].handle == m.entries[path].handle
                && after[path].meta == m.entries[path].meta && after[path].validated_at
                == m.entries[path].validated_at
        },
        !m.hits(path, meta) ==> m.after_get(path, meta, now).entries == m.entries,
        !m.hits_fresh(path, now) ==> m.after_fresh(path, now).entries == m.entries,
{
}

/// No open file is lost: the handle of each entry is still there after another was put in, or is given
/// back. What is given back is there no more.
pub proof fn law_no_handle_is_lost(
    m: ShardModel,
    path: Seq<char>,
    handle: u64,
    meta: FileMeta,
    now: i64,
    k: Seq<char>,
)
    requires
        m.wf(),
        m.entries.contains_key(k),
    ensures
        ({
            let after = m.after_insert(path, handle, meta, now).entries;
            ||| k != path && after.contains_key(k) && after[k].handle == m.entries[k].handle
            ||| m.released(path) == Some(m.entries[k].handle)
        }),
        m.released(path) is Some ==> exists|j: Seq<char>| #[trigger]
            m.entries.contains_key(j) && m.released(path) == Some(m.entries[j].handle) && (j == path
                || !m.after_insert(path, handle, meta, now).entries.contains_key(j)),
{
    if m.evicts(path) {
        lemma_oldest_exists(m);
        let old = oldest(m.entries);
        assert(is_oldest(m.entries, old));
        assert(m.entries.contains_key(old));
        if !m.after_insert(path, handle, meta, now).entries.contains_key(k) {
            assert(k == old);
        }
    }
}

/// Nothing is given back where there was room, and nothing of that path.
pub proof fn law_room_is_used(m: ShardModel, path: Seq<char>)
    ensures
        m.released(path) is None <==> !m.entries.contains_key(path) && m.entries.len() < 32,
{
}

/// A path that was just asked for is not the one that leaves.
pub proof fn law_fresh_hit_stays(
    m: ShardModel,
    path: Seq<char>,
    now: i64,
    new_path: Seq<char>,
    handle: u64,
    new_meta: FileMeta,
    later: i64,
)
    requires
        m.wf(),
        m.clock + 1 < u64::MAX,
        m.hits_fresh(path, now),
        new_path != path,
    ensures
        m.after_fresh(path, now).after_insert(
            new_path,
            handle,
            new_meta,
            later,
        ).entries.contains_key(path),
{
    let n = m.after_fresh(path, now);
    lemma_with_wf(m, path, m.entries[path]);
    if n.evicts(new_path) {
        lemma_oldest_exists(n);
        let old = oldest(n.entries);
        assert(is_oldest(n.entries, old));
        if old == path {
            lemma_another_key(n, path);
        }
    }
}

/// A full part holds another path than a given one, and that was used earlier than the last one used.
proof fn lemma_another_key(n: ShardModel, path: Seq<char>)
    requires
        n.wf(),
        n.entries.len() >= CAPACITY_PER_SHARD,
        n.entries.contains_key(path),
        n.entries[path].used == n.clock,
    ensures
        !is_oldest(n.entries, path),
{
    let others = n.entries.dom().remove(path);
    assert(others.len() > 0);
    let k = others.choose();
    assert(others.contains(k));
    assert(n.entries.contains_key(k) && k != path);
    assert(n.entries[k].used != n.entries[path].used);
}

/// What is done for a path concerns its own part of the cache alone.
pub proof fn law_other_parts_stay(
    before: FileCache,
    after: FileCache,
    hash: u64,
    path: Seq<char>,
    handle: u64,
    meta: FileMeta,
    now: i64,
    entry: Option<Entry>,
    left: Option<u64>,
    i: int,
)
    requires
        0 <= i < SHARDS,
        i != shard_of(hash),
        cache_get_fresh(before, after, hash, path, now, entry) || cache_get(
            before,
            after,
            hash,
            path,
            meta,
            now,
            entry,
        ) || cache_insert(before, after, hash, path, handle, meta, now, left) || cache_remove(
            before,
            after,
            hash,
            path,
            left,
        ),
    ensures
        after.shard(i) == before.shard(i),
{
}

/// What the cache gives for a path is the entry of that path, in the part where it is kept.
pub proof fn law_given_entry_is_of_the_path(
    before: FileCache,
    after: FileCache,
    hash: u64,
    path: Seq<char>,
    meta: FileMeta,
    now: i64,
    hit: Option<Entry>,
)
    ensures
        ({
            let entries = before.shard(shard_of(hash)).entries;
            cache_get(before, after, hash, path, meta, now, hit) ==> match hit {
                Some(entry) => entries.contains_key(path) && entry.handle == entries[path].handle
                    && entry.meta == meta && entries[path].meta == meta,
                None => !entries.contains_key(path) || entries[path].meta != meta,
            }
        }),
        ({
            let entries = before.shard(shard_of(hash)).entries;
            cache_get_fresh(before, after, hash, path, now, hit) ==> match hit {
                Some(entry) => entries.contains_key(path) && entry.handle == entries[path].handle
                    && entry.meta == entries[path].meta && now - entries[path].validated_at < 1000,
                None => !entries.contains_key(path) || now - entries[path].validated_at >= 1000,
            }
        }),
{
}

} // verus!

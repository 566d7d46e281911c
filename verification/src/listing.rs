//! Directory listings.
use crate::bytes::same_bytes;
use crate::order::{lemma_text_total, lemma_text_transitive, sort, sorted, text_le, text_precedes, Ranked};
use crate::paths::{lies_under, starts_with};
use crate::text::{from_utf8_lossy, text_of};
use vstd::prelude::*;

verus! {

/// What kind of file a directory entry is.
#[derive(Clone, Copy, PartialEq, Eq, Structural)]
pub enum FileKind {
    /// A regular file.
    File,
    /// A directory.
    Dir,
    /// A symbolic link.
    Symlink,
    /// A pipe, a socket or a device.
    Other,
    /// The file system does not say.
    Unknown,
}

/// The kind of file in the type bits of a mode.
pub open spec fn kind_of_mode(mode: u32) -> FileKind {
    let bits = mode & 0xf000;
    if bits == 0x8000 {
        FileKind::File
    } else if bits == 0x4000 {
        FileKind::Dir
    } else if bits == 0xa000 {
        FileKind::Symlink
    } else if bits == 0x1000 || bits == 0xc000 || bits == 0x2000 || bits == 0x6000 {
        FileKind::Other
    } else {
        FileKind::Unknown
    }
}

/// [`rustix::fs::FileType::from_raw_mode`]: the kind of file in the type bits of a mode.
#[verifier::external_body]
pub(crate) fn file_kind(mode: u32) -> (r: FileKind)
    ensures
        r == kind_of_mode(mode),
{
    match rustix::fs::FileType::from_raw_mode(mode) {
        rustix::fs::FileType::RegularFile => FileKind::File,
        rustix::fs::FileType::Directory => FileKind::Dir,
        rustix::fs::FileType::Symlink => FileKind::Symlink,
        rustix::fs::FileType::Fifo => FileKind::Other,
        rustix::fs::FileType::Socket => FileKind::Other,
        rustix::fs::FileType::CharacterDevice => FileKind::Other,
        rustix::fs::FileType::BlockDevice => FileKind::Other,
        rustix::fs::FileType::Unknown => FileKind::Unknown,
    }
}

/// What [`chrono::DateTime::from_timestamp`] and [`chrono::DateTime::format`] make of a time in
/// seconds since the epoch; none where the time is out of their range.
pub uninterp spec fn utc_text(seconds: i64, format: Seq<char>) -> Option<Seq<char>>;

/// The view of an optional text.
pub open spec fn string_view(text: Option<String>) -> Option<Seq<char>> {
    match text {
        Some(t) => Some(t@),
        None => None,
    }
}

/// [`chrono::DateTime::from_timestamp`], then [`chrono::DateTime::format`]: the text of a time in
/// UTC. The format is the one this library uses: another may be one that the crate panics on.
#[verifier::external_body]
pub(crate) fn utc_format(seconds: i64, format: &str) -> (r: Option<String>)
    requires
        format@ == "%Y-%m-%d %H:%M:%S"@,
    ensures
        string_view(r) == utc_text(seconds, format@),
{
    chrono::DateTime::from_timestamp(seconds, 0).map(|time| time.format(format).to_string())
}

/// What the file system says of a directory entry's file.
#[derive(Clone, Copy)]
pub struct Stat {
    /// The mode.
    pub mode: u32,
    /// The size.
    pub size: u64,
    /// The time of modification, in seconds since the epoch.
    pub mtime: i64,
}

/// A directory entry as it was read.
pub struct RawEntry {
    /// The name.
    pub name: Vec<u8>,
    /// The kind of file, where the directory says.
    pub kind: FileKind,
    /// What the file system says of the file; none where it could not be asked.
    pub stat: Option<Stat>,
}

/// Whether a name stands for the directory itself or its parent.
pub open spec fn is_dots(name: Seq<u8>) -> bool {
    name == seq![0x2eu8] || name == seq![0x2eu8, 0x2eu8]
}

/// Whether a name stands for the directory itself or its parent.
pub fn skips_name(name: &[u8]) -> (r: bool)
    ensures
        r == is_dots(name@),
{
    let dot: [u8; 1] = [0x2e];
    let dots: [u8; 2] = [0x2e, 0x2e];
    assert(dot@ =~= seq![0x2eu8]);
    assert(dots@ =~= seq![0x2eu8, 0x2eu8]);
    same_bytes(name, dot.as_slice()) || same_bytes(name, dots.as_slice())
}

/// The kind of a file: what the directory says, or else what the mode says.
pub open spec fn actual_kind(kind: FileKind, mode: u32) -> FileKind {
    if kind is Unknown {
        kind_of_mode(mode)
    } else {
        kind
    }
}

/// The kind of a file: what the directory says, or else what the mode says.
pub fn resolve_kind(kind: FileKind, mode: u32) -> (r: FileKind)
    ensures
        r == actual_kind(kind, mode),
{
    if kind == FileKind::Unknown {
        file_kind(mode)
    } else {
        kind
    }
}

/// A listed entry.
pub struct ListEntry {
    /// The name.
    pub name: String,
    /// `dir` or `file`.
    pub entry_type: &'static str,
    /// The size; none for a directory.
    pub size: Option<u64>,
    /// The time of modification; empty where it has no text.
    pub modified: String,
}

/// A listed entry, as values.
pub struct EntryView {
    /// The name.
    pub name: Seq<char>,
    /// Whether it is a directory.
    pub dir: bool,
    /// The size.
    pub size: Option<u64>,
    /// The time of modification.
    pub modified: Seq<char>,
}

/// The two types of a listed entry.
pub open spec fn type_label(dir: bool) -> Seq<char> {
    if dir {
        "dir"@
    } else {
        "file"@
    }
}

impl ListEntry {
    /// Whether the entry is a directory, by its type.
    pub open spec fn is_dir(&self) -> bool {
        self.entry_type@ == "dir"@
    }

    /// The entry, as values.
    pub open spec fn view(&self) -> EntryView {
        EntryView {
            name: self.name@,
            dir: self.is_dir(),
            size: self.size,
            modified: self.modified@,
        }
    }
}

/// How a file of some kind is listed: not at all where it is a symbolic link.
pub open spec fn listed_as(
    name: Seq<char>,
    kind: FileKind,
    size: u64,
    modified: Option<Seq<char>>,
) -> Option<EntryView> {
    if kind is Symlink {
        None
    } else {
        Some(
            EntryView {
                name,
                dir: kind is Dir,
                size: if kind is Dir {
                    None
                } else {
                    Some(size)
                },
                modified: match modified {
                    Some(text) => text,
                    None => Seq::empty(),
                },
            },
        )
    }
}

/// The entry for a file of some kind, with the text of its time of modification.
pub fn list_entry(name: String, kind: FileKind, size: u64, modified: Option<String>) -> (r: Option<
    ListEntry,
>)
    ensures
        r is Some <==> listed_as(name@, kind, size, string_view(modified)) is Some,
        r matches Some(entry) ==> {
            &&& listed_as(name@, kind, size, string_view(modified)) == Some(entry.view())
            &&& entry.entry_type@ == type_label(entry.is_dir())
        },
{
    proof {
        reveal_strlit("dir");
        reveal_strlit("file");
        assert("dir"@.len() != "file"@.len());
    }
    if kind == FileKind::Symlink {
        return None;
    }
    let is_dir = kind == FileKind::Dir;
    let modified = match modified {
        Some(text) => text,
        None => {
            let none = String::new();
            assert(none@ =~= Seq::<char>::empty());
            none
        },
    };
    Some(
        ListEntry {
            name,
            entry_type: if is_dir {
                "dir"
            } else {
                "file"
            },
            size: if is_dir {
                None
            } else {
                Some(size)
            },
            modified,
        },
    )
}

/// How a directory entry is listed. The directory itself, its parent, symbolic links and what the
/// file system cannot say anything of are left out; names that begin with a dot are not.
pub open spec fn listed(raw: RawEntry) -> Option<EntryView> {
    if is_dots(raw.name@) || raw.stat is None {
        None
    } else {
        let stat = raw.stat->0;
        listed_as(
            text_of(raw.name@),
            actual_kind(raw.kind, stat.mode),
            stat.size,
            utc_text(stat.mtime, "%Y-%m-%d %H:%M:%S"@),
        )
    }
}

/// The listed entries of a directory, in the order in which they were read.
pub open spec fn all_listed(raw: Seq<RawEntry>) -> Seq<EntryView>
    decreases raw.len(),
{
    if raw.len() == 0 {
        Seq::empty()
    } else {
        match listed(raw.last()) {
            Some(entry) => all_listed(raw.drop_last()).push(entry),
            None => all_listed(raw.drop_last()),
        }
    }
}

/// Whether an entry may stand before another: directories first, then by name.
pub open spec fn entry_le(a: EntryView, b: EntryView) -> bool {
    if a.dir == b.dir {
        text_le(a.name, b.name)
    } else {
        a.dir
    }
}

/// The entries of a listing, as values.
pub open spec fn views(entries: Seq<ListEntry>) -> Seq<EntryView> {
    entries.map_values(|e: ListEntry| e.view())
}

impl Ranked for ListEntry {
    open spec fn le(self, other: Self) -> bool {
        entry_le(self.view(), other.view())
    }

    proof fn total(a: Self, b: Self) {
        lemma_text_total(a.name@, b.name@);
    }

    proof fn transitive(a: Self, b: Self, c: Self) {
        if a.is_dir() == b.is_dir() && b.is_dir() == c.is_dir() {
            lemma_text_transitive(a.name@, b.name@, c.name@);
        }
    }

    fn may_precede(&self, other: &Self) -> (r: bool) {
        let a_dir = crate::text::same_str(self.entry_type, "dir");
        let b_dir = crate::text::same_str(other.entry_type, "dir");
        if a_dir == b_dir {
            text_precedes(self.name.as_str(), other.name.as_str())
        } else {
            a_dir
        }
    }
}

/// Sorts the entries of a listing: directories first, then by name.
pub fn sort_list_entries(entries: Vec<ListEntry>) -> (r: Vec<ListEntry>)
    ensures
        r@.to_multiset() == entries@.to_multiset(),
        sorted(r@),
{
    sort(entries)
}

/// Whether `entries` is the listing of a directory that was read as `raw`: every entry that is
/// listed, once, in order.
pub open spec fn is_listing(raw: Seq<RawEntry>, entries: Seq<ListEntry>) -> bool {
    &&& views(entries).to_multiset() == all_listed(raw).to_multiset()
    &&& forall|i: int, j: int|
        0 <= i < j < entries.len() ==> entry_le(
            (#[trigger] entries[i]).view(),
            (#[trigger] entries[j]).view(),
        )
    &&& forall|i: int|
        0 <= i < entries.len() ==> (#[trigger] entries[i]).entry_type@ == type_label(
            entries[i].is_dir(),
        )
}

/// Lists a directory from its entries as they were read.
pub fn list_directory(raw: Vec<RawEntry>) -> (r: Vec<ListEntry>)
    ensures
        is_listing(raw@, r@),
{
    let mut out: Vec<ListEntry> = Vec::new();
    let mut i: usize = 0;
    assert(views(out@) =~= all_listed(raw@.take(0)));
    while i < raw.len()
        invariant
            0 <= i <= raw@.len(),
            views(out@) == all_listed(raw@.take(i as int)),
            forall|k: int|
                0 <= k < out@.len() ==> (#[trigger] out@[k]).entry_type@ == type_label(
                    out@[k].is_dir(),
                ),
        decreases raw@.len() - i,
    {
        let entry = &raw[i];
        let ghost so_far = raw@.take(i + 1);
        assert(so_far.drop_last() =~= raw@.take(i as int));
        assert(so_far.last() == *entry);
        let ghost done = out@;
        if !skips_name(entry.name.as_slice()) {
            if let Some(stat) = entry.stat {
                let kind = resolve_kind(entry.kind, stat.mode);
                let name = from_utf8_lossy(entry.name.as_slice());
                let modified = utc_format(stat.mtime, "%Y-%m-%d %H:%M:%S");
                if let Some(listed) = list_entry(name, kind, stat.size, modified) {
                    out.push(listed);
                    assert(views(out@) =~= views(done).push(listed.view()));
                }
            }
        }
        i = i + 1;
    }
    assert(raw@.take(raw@.len() as int) =~= raw@);
    let sorted_entries = sort_list_entries(out);
    proof {
        lemma_map_multiset(sorted_entries@, out@, |e: ListEntry| e.view());
        assert forall|k: int| 0 <= k < sorted_entries@.len() implies (
        #[trigger] sorted_entries@[k]).entry_type@ == type_label(sorted_entries@[k].is_dir()) by {
            broadcast use vstd::seq_lib::group_to_multiset_ensures;

            assert(sorted_entries@.contains(sorted_entries@[k]));
            assert(out@.to_multiset().count(sorted_entries@[k]) > 0);
            assert(out@.contains(sorted_entries@[k]));
        }
        assert forall|a: int, b: int| 0 <= a < b < sorted_entries@.len() implies entry_le(
            (#[trigger] sorted_entries@[a]).view(),
            (#[trigger] sorted_entries@[b]).view(),
        ) by {
            assert(sorted_entries@[a].le(sorted_entries@[b]));
        }
    }
    sorted_entries
}

/// The same values in another order stay the same values under a function.
pub proof fn lemma_map_multiset<T, U>(s: Seq<T>, t: Seq<T>, f: spec_fn(T) -> U)
    requires
        s.to_multiset() == t.to_multiset(),
    ensures
        s.map_values(f).to_multiset() == t.map_values(f).to_multiset(),
    decreases s.len(),
{
    broadcast use vstd::seq_lib::group_to_multiset_ensures;

    assert(s.len() == s.to_multiset().len());
    assert(t.len() == t.to_multiset().len());
    if s.len() == 0 {
        assert(s.map_values(f) =~= t.map_values(f));
    } else {
        let x = s.last();
        assert(s.contains(x));
        assert(t.to_multiset().count(x) > 0);
        assert(t.contains(x));
        let i = choose|i: int| 0 <= i < t.len() && t[i] == x;
        let s1 = s.drop_last();
        let t1 = t.remove(i);
        assert(s =~= s1.push(x));
        assert(s.to_multiset() =~= s1.to_multiset().insert(x));
        assert(t1.to_multiset() =~= t.to_multiset().remove(x));
        assert(s1.to_multiset() =~= t1.to_multiset());
        lemma_map_multiset(s1, t1, f);
        assert(s.map_values(f) =~= s1.map_values(f).push(f(x)));
        assert(t1.map_values(f) =~= t.map_values(f).remove(i));
        assert(t.map_values(f)[i] == f(x));
        assert(t1.map_values(f).to_multiset() =~= t.map_values(f).to_multiset().remove(f(x)));
        assert(t.map_values(f).contains(f(x)));
        assert(s.map_values(f).to_multiset() =~= t.map_values(f).to_multiset());
    }
}

/// The order of a listing is settled: entries that may stand in either order are of the same type
/// and have the same name.
pub proof fn law_order_settled(a: EntryView, b: EntryView)
    requires
        entry_le(a, b),
        entry_le(b, a),
    ensures
        a.dir == b.dir && a.name == b.name,
{
    crate::order::lemma_text_antisymmetric(a.name, b.name);
}

/// A link is never listed.
pub proof fn law_links_are_hidden(raw: RawEntry)
    requires
        raw.stat is Some,
        actual_kind(raw.kind, raw.stat->0.mode) is Symlink,
    ensures
        listed(raw) is None,
{
}

/// Every other entry is listed, whatever its name begins with, but for the directory itself and its
/// parent.
pub proof fn law_others_are_shown(raw: RawEntry)
    requires
        raw.stat is Some,
        !(actual_kind(raw.kind, raw.stat->0.mode) is Symlink),
        !is_dots(raw.name@),
    ensures
        listed(raw) is Some,
        listed(raw)->0.name == text_of(raw.name@),
        listed(raw)->0.dir == (actual_kind(raw.kind, raw.stat->0.mode) is Dir),
        listed(raw)->0.size == (if listed(raw)->0.dir {
            None
        } else {
            Some(raw.stat->0.size)
        }),
{
}

/// The path shown in a listing: the requested path behind a slash.
pub open spec fn shown_path(path: Seq<char>) -> Seq<char> {
    "/"@ + path
}

/// The path shown in a listing.
pub fn display_path(path: &str) -> (r: String)
    ensures
        r@ == shown_path(path@),
{
    let mut out = "/".to_string();
    out.append(path);
    out
}

/// Whether a resolved path is one that may be shown: it exists and lies under the root.
pub open spec fn may_resolve(root: Seq<u8>, canonical: Option<Seq<u8>>) -> bool {
    canonical is Some && lies_under(canonical->0, root)
}

/// The view of an optional path.
pub open spec fn path_view(path: Option<Vec<u8>>) -> Option<Seq<u8>> {
    match path {
        Some(p) => Some(p@),
        None => None,
    }
}

/// The resolved path of a request, where it exists and lies under the root.
pub fn resolve_under(root: &[u8], canonical: Option<Vec<u8>>) -> (r: Option<Vec<u8>>)
    ensures
        r == (if may_resolve(root@, path_view(canonical)) {
            canonical
        } else {
            None
        }),
{
    match canonical {
        None => None,
        Some(path) => if starts_with(path.as_slice(), root) {
            Some(path)
        } else {
            None
        },
    }
}

/// An address of this machine that was looked up, and when.
pub struct LanIpCache {
    ip: Option<String>,
    fetched_at: Option<u64>,
}

/// For how many nanoseconds an address that was looked up is used.
pub const LAN_IP_NANOS: u64 = 1_000_000_000;

impl LanIpCache {
    /// The address.
    pub closed spec fn ip(&self) -> Option<Seq<char>> {
        string_view(self.ip)
    }

    /// When it was looked up, in nanoseconds.
    pub closed spec fn fetched_at(&self) -> Option<u64> {
        self.fetched_at
    }

    /// Whether the address can be used at `now`.
    pub open spec fn current(&self, now: u64) -> bool {
        self.fetched_at() is Some && now - self.fetched_at()->0 < LAN_IP_NANOS
    }

    /// Nothing was looked up yet.
    pub fn new() -> (r: LanIpCache)
        ensures
            r.ip() is None,
            r.fetched_at() is None,
    {
        LanIpCache { ip: None, fetched_at: None }
    }

    /// The address that was looked up less than a second ago; `None` where it has to be looked up.
    pub fn get(&self, now: u64) -> (r: Option<Option<String>>)
        ensures
            r is Some <==> self.current(now),
            r matches Some(ip) ==> string_view(ip) == self.ip(),
    {
        match self.fetched_at {
            None => None,
            Some(at) => if now >= at && now - at >= LAN_IP_NANOS {
                None
            } else {
                match &self.ip {
                    Some(ip) => Some(Some(ip.clone())),
                    None => Some(None),
                }
            },
        }
    }

    /// Keeps an address that was looked up at `now`.
    pub fn store(&mut self, ip: Option<String>, now: u64)
        ensures
            final(self).ip() == string_view(ip),
            final(self).fetched_at() == Some(now),
    {
        self.ip = ip;
        self.fetched_at = Some(now);
    }
}

/// An address that was looked up is used for a second, and looked up anew after that.
pub proof fn law_lan_ip_lifetime(cache: LanIpCache, at: u64, now: u64)
    requires
        cache.fetched_at() == Some(at),
        at <= now,
    ensures
        cache.current(now) <==> now < at + LAN_IP_NANOS,
{
}

/// What came of reading a directory.
pub enum Listed {
    /// The work was not done.
    Failed,
    /// There is no such directory under the root.
    NoDirectory,
    /// Its entries.
    Entries(Vec<RawEntry>),
}

/// A listing as it is sent.
pub struct ListResponse {
    /// The path shown.
    pub path: String,
    /// An address of this machine.
    pub lan_ip: Option<String>,
    /// The port of this server.
    pub port: u16,
    /// The entries.
    pub entries: Vec<ListEntry>,
}

/// How a request for a listing is answered.
pub enum ListReply {
    /// With a status and no listing.
    Status(u16),
    /// With a listing.
    Listing(ListResponse),
}

/// Serves listings of the directories under a root.
pub struct ListApi {
    root: Vec<u8>,
    port: u16,
}

impl ListApi {
    /// The root.
    pub closed spec fn root_path(&self) -> Seq<u8> {
        self.root@
    }

    /// The port of this server.
    pub closed spec fn port(&self) -> u16 {
        self.port
    }

    /// Serves the directories under `root`.
    pub fn new(root: Vec<u8>, port: u16) -> (r: ListApi)
        ensures
            r.root_path() == root@,
            r.port() == port,
    {
        ListApi { root, port }
    }

    /// The root.
    pub fn root(&self) -> (r: &[u8])
        ensures
            r@ == self.root_path(),
    {
        self.root.as_slice()
    }

    /// The directory to be read for a request, given its resolved path.
    pub fn resolve(&self, canonical: Option<Vec<u8>>) -> (r: Option<Vec<u8>>)
        ensures
            r == (if may_resolve(self.root_path(), path_view(canonical)) {
                canonical
            } else {
                None
            }),
    {
        resolve_under(self.root.as_slice(), canonical)
    }

    /// Answers a request for a listing of `path`: with status 500 where the work was not done, with
    /// status 404 where there is no such directory, and else with its listing.
    pub fn handle(&self, path: &str, listed: Listed, lan_ip: Option<String>) -> (r: ListReply)
        ensures
            listed is Failed ==> r == ListReply::Status(500),
            listed is NoDirectory ==> r == ListReply::Status(404),
            listed matches Listed::Entries(raw) ==> {
                &&& r is Listing
                &&& r->Listing_0.path@ == shown_path(path@)
                &&& r->Listing_0.lan_ip == lan_ip
                &&& r->Listing_0.port == self.port()
                &&& is_listing(raw@, r->Listing_0.entries@)
            },
    {
        match listed {
            Listed::Failed => ListReply::Status(500),
            Listed::NoDirectory => ListReply::Status(404),
            Listed::Entries(raw) => ListReply::Listing(
                ListResponse {
                    path: display_path(path),
                    lan_ip,
                    port: self.port,
                    entries: list_directory(raw),
                },
            ),
        }
    }
}

/// Every listed entry, a file or a directory, shows the text of its own time of modification; it shows
/// none only where the time has no text.
pub proof fn law_modified_is_shown(raw: RawEntry)
    requires
        listed(raw) is Some,
    ensures
        raw.stat is Some,
        utc_text(raw.stat->0.mtime, "%Y-%m-%d %H:%M:%S"@) matches Some(text) ==> listed(
            raw,
        )->0.modified == text,
        utc_text(raw.stat->0.mtime, "%Y-%m-%d %H:%M:%S"@) is None ==> listed(raw)->0.modified.len()
            == 0,
{
}

/// An entry is not listed where nothing is known of its file, and where it is the directory itself or
/// its parent.
pub proof fn law_not_listed(raw: RawEntry)
    ensures
        raw.stat is None ==> listed(raw) is None,
        raw.name@ == seq![0x2eu8] ==> listed(raw) is None,
        raw.name@ == seq![0x2eu8, 0x2eu8] ==> listed(raw) is None,
{
}

/// A name that begins with a dot is shown like any other: only the two names of dots alone are not.
pub proof fn law_dotfiles_are_shown(name: Seq<u8>)
    requires
        name.len() != 1 || name[0] != 0x2e,
        name.len() != 2 || name[0] != 0x2e || name[1] != 0x2e,
    ensures
        !is_dots(name),
{
}

/// The kind of a file is in the four highest bits of its mode, whatever its permissions are.
pub proof fn law_kinds_in_modes(permissions: u32)
    requires
        permissions < 0x1000,
    ensures
        kind_of_mode(0x8000 | permissions) is File,
        kind_of_mode(0x4000 | permissions) is Dir,
        kind_of_mode(0xa000 | permissions) is Symlink,
        kind_of_mode(0x1000 | permissions) is Other,
        kind_of_mode(0x2000 | permissions) is Other,
        kind_of_mode(0x6000 | permissions) is Other,
        kind_of_mode(0xc000 | permissions) is Other,
        kind_of_mode(permissions) is Unknown,
{
    assert((0x8000 | permissions) & 0xf000 == 0x8000 && (0x4000 | permissions) & 0xf000 == 0x4000
        && (0xa000 | permissions) & 0xf000 == 0xa000 && (0x1000 | permissions) & 0xf000 == 0x1000
        && (0x2000 | permissions) & 0xf000 == 0x2000 && (0x6000 | permissions) & 0xf000 == 0x6000
        && (0xc000 | permissions) & 0xf000 == 0xc000 && permissions & 0xf000 == 0) by (bit_vector)
        requires
            permissions < 0x1000u32,
    ;
}

/// What a directory says of a file's kind stands; only where it says nothing is the mode asked.
pub proof fn law_directory_says_first(kind: FileKind, mode: u32)
    ensures
        !(kind is Unknown) ==> actual_kind(kind, mode) == kind,
        actual_kind(FileKind::Unknown, mode) == kind_of_mode(mode),
{
}

/// Directories stand before everything else, and entries of one type by name.
pub proof fn law_directories_first(a: EntryView, b: EntryView)
    ensures
        a.dir && !b.dir ==> entry_le(a, b) && !entry_le(b, a),
        a.dir == b.dir ==> (entry_le(a, b) <==> text_le(a.name, b.name)),
{
}

/// The shown path is the requested one behind one slash.
pub proof fn law_shown_path(path: Seq<char>)
    ensures
        shown_path(path).len() == path.len() + 1,
        shown_path(path)[0] == '/',
        shown_path(path).skip(1) == path,
{
    reveal_strlit("/");
    assert(shown_path(path).skip(1) =~= path);
}

/// A path that does not exist, or lies elsewhere, is never resolved; one that lies under the root is.
pub proof fn law_resolved_under_root(root: Seq<u8>, path: Seq<u8>)
    ensures
        !may_resolve(root, None),
        may_resolve(root, Some(path)) <==> lies_under(path, root),
{
}

/// Everything that is to be listed is: each entry of the directory stands in the listing, and nothing
/// stands in it that is not one of them.
pub proof fn law_whole_listing(raw: Seq<RawEntry>, entries: Seq<ListEntry>)
    requires
        is_listing(raw, entries),
    ensures
        forall|i: int|
            0 <= i < raw.len() && listed(#[trigger] raw[i]) is Some ==> exists|j: int|
                0 <= j < entries.len() && (#[trigger] entries[j]).view() == listed(raw[i])->0,
        forall|j: int|
            0 <= j < entries.len() ==> exists|i: int|
                0 <= i < raw.len() && listed(#[trigger] raw[i]) == Some(
                    (#[trigger] entries[j]).view(),
                ),
        (forall|i: int| 0 <= i < raw.len() ==> listed(#[trigger] raw[i]) is Some) ==> entries.len()
            == raw.len(),
{
    let all = all_listed(raw);
    let shown = views(entries);
    lemma_all_listed(raw);
    assert forall|i: int| 0 <= i < raw.len() && listed(#[trigger] raw[i]) is Some implies exists|j: int|
        0 <= j < entries.len() && (#[trigger] entries[j]).view() == listed(raw[i])->0 by {
        let x = listed(raw[i])->0;
        assert(all.contains(x));
        all.to_multiset_ensures();
        shown.to_multiset_ensures();
        assert(shown.to_multiset().count(x) > 0);
        assert(shown.contains(x));
        let j = choose|j: int| 0 <= j < shown.len() && shown[j] == x;
        assert(entries[j].view() == x);
    }
    assert forall|j: int| 0 <= j < entries.len() implies exists|i: int|
        0 <= i < raw.len() && listed(#[trigger] raw[i]) == Some((#[trigger] entries[j]).view()) by {
        let x = entries[j].view();
        assert(shown[j] == x);
        assert(shown.contains(x));
        all.to_multiset_ensures();
        shown.to_multiset_ensures();
        assert(all.to_multiset().count(x) > 0);
        assert(all.contains(x));
        let k = choose|k: int| 0 <= k < all.len() && all[k] == x;
        assert(exists|i: int| 0 <= i < raw.len() && listed(#[trigger] raw[i]) == Some(all[k]));
    }
    all.to_multiset_ensures();
    shown.to_multiset_ensures();
    assert(shown.len() == entries.len());
}

proof fn lemma_all_listed(raw: Seq<RawEntry>)
    ensures
        forall|i: int|
            0 <= i < raw.len() && listed(#[trigger] raw[i]) is Some ==> all_listed(raw).contains(
                listed(raw[i])->0,
            ),
        forall|k: int|
            0 <= k < all_listed(raw).len() ==> exists|i: int|
                0 <= i < raw.len() && listed(#[trigger] raw[i]) == Some(
                    #[trigger] all_listed(raw)[k],
                ),
        (forall|i: int| 0 <= i < raw.len() ==> listed(#[trigger] raw[i]) is Some) ==> all_listed(
            raw,
        ).len() == raw.len(),
    decreases raw.len(),
{
    if raw.len() > 0 {
        let some = raw.drop_last();
        let all = all_listed(raw);
        let before = all_listed(some);
        lemma_all_listed(some);
        assert forall|i: int| 0 <= i < raw.len() && listed(#[trigger] raw[i]) is Some implies all.contains(
            listed(raw[i])->0,
        ) by {
            let x = listed(raw[i])->0;
            if i < some.len() {
                assert(some[i] == raw[i]);
                assert(before.contains(x));
                let k = choose|k: int| 0 <= k < before.len() && before[k] == x;
                assert(all[k] == x);
            } else {
                assert(all[before.len() as int] == x);
            }
        }
        assert forall|k: int| 0 <= k < all.len() implies exists|i: int|
            0 <= i < raw.len() && listed(#[trigger] raw[i]) == Some(#[trigger] all[k]) by {
            if k < before.len() {
                assert(all[k] == before[k]);
                let i = choose|i: int|
                    0 <= i < some.len() && listed(#[trigger] some[i]) == Some(before[k]);
                assert(raw[i] == some[i]);
            } else {
                assert(listed(raw[raw.len() - 1]) == Some(all[k]));
            }
        }
        if forall|i: int| 0 <= i < raw.len() ==> listed(#[trigger] raw[i]) is Some {
            assert forall|i: int| 0 <= i < some.len() implies listed(#[trigger] some[i]) is Some by {
                assert(some[i] == raw[i]);
            }
            assert(listed(raw[raw.len() - 1]) is Some);
        }
    }
}

/// Each entry of a listing is labelled by what it is, and one that is no directory as a file.
pub proof fn law_labels(raw: Seq<RawEntry>, entries: Seq<ListEntry>, j: int)
    requires
        is_listing(raw, entries),
        0 <= j < entries.len(),
    ensures
        entries[j].entry_type@ == "dir"@ || entries[j].entry_type@ == "file"@,
        entries[j].view().dir <==> entries[j].entry_type@ == "dir"@,
{
}

/// An entry of a listing stands for what is in it.
pub proof fn law_listed_values(entries: Seq<ListEntry>, i: int, text: String, path: Vec<u8>)
    requires
        0 <= i < entries.len(),
    ensures
        views(entries).len() == entries.len(),
        views(entries)[i].name == entries[i].name@,
        views(entries)[i].dir <==> entries[i].entry_type@ == "dir"@,
        views(entries)[i].size == entries[i].size,
        views(entries)[i].modified == entries[i].modified@,
        string_view(Some(text)) == Some(text@),
        string_view(None) is None,
        path_view(Some(path)) == Some(path@),
        path_view(None) is None,
{
}

/// A listing stands in order: directories first, and each sort by name.
pub proof fn law_listing_stands_in_order(
    raw: Seq<RawEntry>,
    entries: Seq<ListEntry>,
    i: int,
    j: int,
)
    requires
        is_listing(raw, entries),
        0 <= i < j < entries.len(),
    ensures
        entries[j].entry_type@ == "dir"@ ==> entries[i].entry_type@ == "dir"@,
        entries[i].entry_type@ == entries[j].entry_type@ ==> text_le(
            entries[i].name@,
            entries[j].name@,
        ),
{
    assert(entry_le(entries[i].view(), entries[j].view()));
}

} // verus!

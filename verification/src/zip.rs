//! Packing a directory tree into an archive while it is sent.
//!
//! One side walks the tree and reads the files, the other writes the archive. Between them items
//! pass: a directory, or the start of a file, its chunks and its end.
use crate::listing::{may_resolve, resolve_under};
use crate::paths::{folder_label, folder_name};
use crate::percent::{
    escaped, escaped_byte, lemma_escaped_all, percent_decoded_text, push_escaped,
};
use crate::walk::{
    all_handed_over, is_walk, law_whole_walk, walked, Disk, Entry, EntryView, Task, WalkMove,
};
use vstd::prelude::*;
use vstd::utf8::*;

verus! {

/// How many bytes of a file are read and sent at once.
pub const ZIP_CHUNK: usize = 262_144;

/// How many items may wait between the two sides.
pub const ZIP_QUEUE: usize = 8;

/// The permissions of a directory in an archive.
pub const DIR_PERMISSIONS: u16 = 0x41ed;

/// The value of `Content-Disposition` for an archive of a folder.
pub open spec fn disposition(folder: Seq<char>) -> Seq<char> {
    "attachment; filename*=UTF-8''"@ + escaped(encode_utf8(folder), false) + ".zip"@
}

/// The value of `Content-Disposition` for an archive of a folder: the name in UTF-8, escaped.
pub fn content_disposition(folder_name: &str) -> (r: String)
    ensures
        r@ == disposition(folder_name@),
{
    let mut out = "attachment; filename*=UTF-8''".to_string();
    push_escaped(&mut out, folder_name.as_bytes(), false);
    out.append(".zip");
    out
}

/// Whether a text can be the value of a header: every character is a visible one of ASCII, or a
/// space.
pub open spec fn is_header_text(s: Seq<char>) -> bool {
    forall|i: int| 0 <= i < s.len() ==> ' ' <= #[trigger] s[i] <= '~'
}

/// The value of `Content-Disposition` can always be sent.
pub proof fn law_disposition_is_header_text(folder: Seq<char>)
    ensures
        is_header_text(disposition(folder)),
{
    reveal_strlit("attachment; filename*=UTF-8''");
    reveal_strlit(".zip");
    lemma_escaped_header_text(encode_utf8(folder), false);
    let a = "attachment; filename*=UTF-8''"@;
    let b = escaped(encode_utf8(folder), false);
    let c = ".zip"@;
    assert(is_header_text(a));
    assert(is_header_text(c));
    let all = disposition(folder);
    assert forall|i: int| 0 <= i < all.len() implies ' ' <= #[trigger] all[i] <= '~' by {
        if i < a.len() {
            assert(all[i] == a[i]);
        } else if i < a.len() + b.len() {
            assert(all[i] == b[i - a.len()]);
        } else {
            assert(all[i] == c[i - a.len() - b.len()]);
        }
    }
}

proof fn lemma_escaped_header_text(s: Seq<u8>, keep_slash: bool)
    ensures
        is_header_text(escaped(s, keep_slash)),
    decreases s.len(),
{
    if s.len() > 0 {
        lemma_escaped_header_text(s.drop_last(), keep_slash);
    }
}

/// What came of resolving a request.
pub enum Resolved {
    /// The work was not done.
    Failed,
    /// There is no such path.
    Missing,
    /// The resolved path, and whether it is a directory.
    Found { path: Vec<u8>, is_dir: bool },
}

/// An archive that is to be sent.
pub struct Archive {
    /// The directory.
    pub dir: Vec<u8>,
    /// The name of the folder in the archive.
    pub folder: String,
    /// The value of `Content-Type`.
    pub content_type: &'static str,
    /// The value of `Content-Disposition`.
    pub content_disposition: String,
}

/// How a request for an archive is answered.
pub enum ZipReply {
    /// With a status and no archive.
    Status(u16),
    /// With an archive.
    Archive(Archive),
}

/// Serves archives of the directories under a root.
pub struct ZipApi {
    root: Vec<u8>,
}

impl ZipApi {
    /// The root.
    pub closed spec fn root(&self) -> Seq<u8> {
        self.root@
    }

    /// Serves the directories under `root`.
    pub fn new(root: Vec<u8>) -> (r: ZipApi)
        ensures
            r.root() == root@,
    {
        ZipApi { root }
    }

    /// Answers a request: with status 500 where it was not resolved, with status 404 where it does
    /// not name a directory under the root, and else with an archive.
    pub fn handle(&self, resolved: Resolved) -> (r: ZipReply)
        ensures
            match resolved {
                Resolved::Failed => r == ZipReply::Status(500),
                Resolved::Missing => r == ZipReply::Status(404),
                Resolved::Found { path, is_dir } => if is_dir && may_resolve(
                    self.root(),
                    Some(path@),
                ) {
                    &&& r is Archive
                    &&& r->Archive_0.dir@ == path@
                    &&& r->Archive_0.folder@ == folder_label(path@)
                    &&& r->Archive_0.content_type@ == "application/zip"@
                    &&& r->Archive_0.content_disposition@ == disposition(folder_label(path@))
                } else {
                    r == ZipReply::Status(404)
                },
            },
    {
        match resolved {
            Resolved::Failed => ZipReply::Status(500),
            Resolved::Missing => ZipReply::Status(404),
            Resolved::Found { path, is_dir } => match resolve_under(
                self.root.as_slice(),
                Some(path),
            ) {
                None => ZipReply::Status(404),
                Some(dir) => if is_dir {
                    let folder = folder_name(dir.as_slice());
                    let content_disposition = content_disposition(folder.as_str());
                    ZipReply::Archive(
                        Archive {
                            dir,
                            folder,
                            content_type: "application/zip",
                            content_disposition,
                        },
                    )
                } else {
                    ZipReply::Status(404)
                },
            },
        }
    }
}

/// What passes between the two sides.
pub enum Item {
    /// A directory.
    Dir { name: String },
    /// The start of a file.
    FileStart { name: String },
    /// Some bytes of the file: the first `len` of `data`.
    Chunk { data: Vec<u8>, len: usize },
    /// The end of the file.
    FileEnd,
}

/// What the reading side does with a record of the walk.
pub enum FeedState {
    /// No record is under way.
    Idle,
    /// The start of a file was sent.
    Started { abs: Vec<u8> },
    /// The file is being opened.
    Opening,
    /// The file is being read.
    Reading,
    /// A chunk was sent.
    Chunked,
    /// The last item of the record was sent.
    Ended,
}

/// What happened on the reading side.
pub enum FeedEvent {
    /// The walk gave a record.
    Record(Entry),
    /// An item was sent; or the other side is gone.
    Sent(bool),
    /// The file was opened, or not.
    Opened(bool),
    /// Some bytes were read; zero at the end of the file and where reading failed.
    Read(usize),
}

/// What the reading side wants next.
pub enum FeedAction {
    /// A directory to be sent.
    SendDir { name: String },
    /// The start of a file to be sent.
    SendStart { name: String },
    /// A file to be opened.
    Open { abs: Vec<u8> },
    /// Some bytes to be read.
    Read,
    /// The bytes that were read to be sent.
    SendChunk { len: usize },
    /// The end of the file to be sent.
    SendEnd,
    /// The record is done; whether the walk goes on.
    Done(bool),
}

/// What the reading side does on an event. A file that cannot be opened is still sent, as an empty
/// one; one that cannot be read to its end is sent as far as it was read. Where the other side is
/// gone, or an event answers nothing that was asked, the walk ends.
pub open spec fn feed_step(state: FeedState, event: FeedEvent) -> (FeedState, FeedAction) {
    match event {
        FeedEvent::Record(Entry::Dir { name }) => if state is Idle {
            (FeedState::Ended, FeedAction::SendDir { name })
        } else {
            (FeedState::Idle, FeedAction::Done(false))
        },
        FeedEvent::Record(Entry::File { abs, name }) => if state is Idle {
            (FeedState::Started { abs }, FeedAction::SendStart { name })
        } else {
            (FeedState::Idle, FeedAction::Done(false))
        },
        FeedEvent::Sent(ok) => if !ok {
            (FeedState::Idle, FeedAction::Done(false))
        } else {
            match state {
                FeedState::Started { abs } => (FeedState::Opening, FeedAction::Open { abs }),
                FeedState::Chunked => (FeedState::Reading, FeedAction::Read),
                FeedState::Ended => (FeedState::Idle, FeedAction::Done(true)),
                _ => (FeedState::Idle, FeedAction::Done(false)),
            }
        },
        FeedEvent::Opened(ok) => if !(state is Opening) {
            (FeedState::Idle, FeedAction::Done(false))
        } else if ok {
            (FeedState::Reading, FeedAction::Read)
        } else {
            (FeedState::Ended, FeedAction::SendEnd)
        },
        FeedEvent::Read(n) => if !(state is Reading) {
            (FeedState::Idle, FeedAction::Done(false))
        } else if n > 0 {
            (FeedState::Chunked, FeedAction::SendChunk { len: n })
        } else {
            (FeedState::Ended, FeedAction::SendEnd)
        },
    }
}

/// Takes an event on the reading side and says what is wanted next.
pub fn feed(state: FeedState, event: FeedEvent) -> (r: (FeedState, FeedAction))
    ensures
        r == feed_step(state, event),
{
    match event {
        FeedEvent::Record(Entry::Dir { name }) => match state {
            FeedState::Idle => (FeedState::Ended, FeedAction::SendDir { name }),
            _ => (FeedState::Idle, FeedAction::Done(false)),
        },
        FeedEvent::Record(Entry::File { abs, name }) => match state {
            FeedState::Idle => (FeedState::Started { abs }, FeedAction::SendStart { name }),
            _ => (FeedState::Idle, FeedAction::Done(false)),
        },
        FeedEvent::Sent(ok) => if !ok {
            (FeedState::Idle, FeedAction::Done(false))
        } else {
            match state {
                FeedState::Started { abs } => (FeedState::Opening, FeedAction::Open { abs }),
                FeedState::Chunked => (FeedState::Reading, FeedAction::Read),
                FeedState::Ended => (FeedState::Idle, FeedAction::Done(true)),
                _ => (FeedState::Idle, FeedAction::Done(false)),
            }
        },
        FeedEvent::Opened(ok) => match state {
            FeedState::Opening => if ok {
                (FeedState::Reading, FeedAction::Read)
            } else {
                (FeedState::Ended, FeedAction::SendEnd)
            },
            _ => (FeedState::Idle, FeedAction::Done(false)),
        },
        FeedEvent::Read(n) => match state {
            FeedState::Reading => if n > 0 {
                (FeedState::Chunked, FeedAction::SendChunk { len: n })
            } else {
                (FeedState::Ended, FeedAction::SendEnd)
            },
            _ => (FeedState::Idle, FeedAction::Done(false)),
        },
    }
}

/// An item, as values.
pub enum ItemView {
    /// A directory.
    Dir { name: Seq<char> },
    /// The start of a file.
    FileStart { name: Seq<char> },
    /// Some bytes of the file.
    Chunk { bytes: Seq<u8> },
    /// The end of the file.
    FileEnd,
}

impl Item {
    /// The item, as values.
    pub open spec fn view(&self) -> ItemView {
        match self {
            Item::Dir { name } => ItemView::Dir { name: name@ },
            Item::FileStart { name } => ItemView::FileStart { name: name@ },
            Item::Chunk { data, len } => ItemView::Chunk { bytes: data@.take(*len as int) },
            Item::FileEnd => ItemView::FileEnd,
        }
    }
}

/// What the writing side does.
pub enum WriteAction {
    /// Writes a directory, with these permissions.
    WriteDir { name: String, permissions: u16 },
    /// Begins a file.
    BeginFile { name: String },
    /// Writes the first `len` bytes of `data` to the file, and hands the buffer back.
    WriteChunk { data: Vec<u8>, len: usize },
    /// Ends the file.
    EndFile,
    /// Ends the archive.
    EndArchive,
    /// Nothing.
    Skip,
}

/// What the writing side does with an item, or with the end of the items: `inside` says whether a
/// file is begun. Inside a file anything but a chunk ends it.
pub open spec fn write_step(inside: bool, item: Option<Item>) -> (bool, WriteAction) {
    match item {
        Some(Item::Chunk { data, len }) => if inside {
            (true, WriteAction::WriteChunk { data, len })
        } else {
            (false, WriteAction::Skip)
        },
        Some(Item::Dir { name }) => if inside {
            (false, WriteAction::EndFile)
        } else {
            (false, WriteAction::WriteDir { name, permissions: DIR_PERMISSIONS })
        },
        Some(Item::FileStart { name }) => if inside {
            (false, WriteAction::EndFile)
        } else {
            (true, WriteAction::BeginFile { name })
        },
        Some(Item::FileEnd) => if inside {
            (false, WriteAction::EndFile)
        } else {
            (false, WriteAction::Skip)
        },
        None => if inside {
            (false, WriteAction::EndFile)
        } else {
            (false, WriteAction::EndArchive)
        },
    }
}

/// Takes an item on the writing side and says what to do with it.
pub fn write_item(inside: bool, item: Option<Item>) -> (r: (bool, WriteAction))
    ensures
        r == write_step(inside, item),
{
    match item {
        Some(Item::Chunk { data, len }) => if inside {
            (true, WriteAction::WriteChunk { data, len })
        } else {
            (false, WriteAction::Skip)
        },
        Some(Item::Dir { name }) => if inside {
            (false, WriteAction::EndFile)
        } else {
            (false, WriteAction::WriteDir { name, permissions: DIR_PERMISSIONS })
        },
        Some(Item::FileStart { name }) => if inside {
            (false, WriteAction::EndFile)
        } else {
            (true, WriteAction::BeginFile { name })
        },
        Some(Item::FileEnd) => if inside {
            (false, WriteAction::EndFile)
        } else {
            (false, WriteAction::Skip)
        },
        None => if inside {
            (false, WriteAction::EndFile)
        } else {
            (false, WriteAction::EndArchive)
        },
    }
}

/// A record of an archive as it was written.
pub enum Record {
    /// A directory.
    Dir { name: Seq<char> },
    /// A file and its content.
    File { name: Seq<char>, content: Seq<u8> },
}

/// What the writing side has written: the records that are done, and the file that is begun.
pub struct Written {
    /// The records that are done.
    pub done: Seq<Record>,
    /// The file that is begun: its name and its content so far.
    pub begun: Option<(Seq<char>, Seq<u8>)>,
}

/// What is written after an action.
pub open spec fn written_after(w: Written, action: WriteAction) -> Written {
    match action {
        WriteAction::WriteDir { name, permissions } => Written {
            done: w.done.push(Record::Dir { name: name@ }),
            begun: w.begun,
        },
        WriteAction::BeginFile { name } => Written {
            done: w.done,
            begun: Some((name@, Seq::<u8>::empty())),
        },
        WriteAction::WriteChunk { data, len } => match w.begun {
            Some((name, content)) => Written {
                done: w.done,
                begun: Some((name, content + data@.take(len as int))),
            },
            None => w,
        },
        WriteAction::EndFile => match w.begun {
            Some((name, content)) => Written {
                done: w.done.push(Record::File { name, content }),
                begun: None,
            },
            None => w,
        },
        _ => w,
    }
}

/// What is written after a run of items.
pub open spec fn archive(w: Written, items: Seq<Item>) -> Written
    decreases items.len(),
{
    if items.len() == 0 {
        w
    } else {
        let before = archive(w, items.drop_last());
        written_after(before, write_step(before.begun is Some, Some(items.last())).1)
    }
}

/// Whether a run of items is a file: its start, chunks, and its end.
pub open spec fn is_file(items: Seq<Item>) -> bool {
    &&& items.len() >= 2
    &&& items[0] is FileStart
    &&& items.last() is FileEnd
    &&& forall|i: int| 0 < i < items.len() - 1 ==> (#[trigger] items[i]) is Chunk
}

/// The bytes of the chunks in a run of items.
pub open spec fn chunk_bytes(items: Seq<Item>) -> Seq<u8>
    decreases items.len(),
{
    if items.len() == 0 {
        Seq::empty()
    } else {
        match items.last() {
            Item::Chunk { data, len } => chunk_bytes(items.drop_last()) + data@.take(len as int),
            _ => chunk_bytes(items.drop_last()),
        }
    }
}

/// A file that is sent is written as one record, with its name and with the bytes of its chunks in
/// order, behind the records before it.
pub proof fn law_file_is_written(w: Written, items: Seq<Item>)
    requires
        w.begun is None,
        is_file(items),
    ensures
        archive(w, items) == (Written {
            done: w.done.push(
                Record::File { name: items[0]->FileStart_name@, content: chunk_bytes(items) },
            ),
            begun: None,
        }),
{
    lemma_file_begun(w, items, items.len() - 1);
    assert(items.take(items.len() - 1) =~= items.drop_last());
}

proof fn lemma_file_begun(w: Written, items: Seq<Item>, n: int)
    requires
        w.begun is None,
        is_file(items),
        1 <= n <= items.len() - 1,
    ensures
        archive(w, items.take(n)) == (Written {
            done: w.done,
            begun: Some((items[0]->FileStart_name@, chunk_bytes(items.take(n)))),
        }),
    decreases n,
{
    let some = items.take(n);
    assert(some.drop_last() =~= items.take(n - 1));
    if n == 1 {
        assert(items.take(0) =~= Seq::<Item>::empty());
        assert(archive(w, some.drop_last()) == w);
        assert(chunk_bytes(some.drop_last()) =~= Seq::<u8>::empty());
        assert(some.last() == items[0]);
        assert(chunk_bytes(some) =~= Seq::<u8>::empty());
    } else {
        lemma_file_begun(w, items, n - 1);
        assert(items[n - 1] is Chunk);
    }
}

/// A directory that is sent is written as one record.
pub proof fn law_dir_is_written(w: Written, name: String)
    requires
        w.begun is None,
    ensures
        archive(w, seq![Item::Dir { name }]) == (Written {
            done: w.done.push(Record::Dir { name: name@ }),
            begun: None,
        }),
{
    let items = seq![Item::Dir { name }];
    assert(items.drop_last() =~= Seq::<Item>::empty());
    assert(archive(w, items.drop_last()) == w);
}

/// Whether a file is under way on the reading side.
pub open spec fn in_file(state: FeedState) -> bool {
    state is Started || state is Opening || state is Reading || state is Chunked
}

/// The reading side keeps to the form of the items: a file starts only where none is under way, and
/// its chunks and its end come only where one is.
pub proof fn law_feed_keeps_form(state: FeedState, event: FeedEvent)
    ensures
        ({
            let (after, action) = feed_step(state, event);
            match action {
                FeedAction::SendDir { name } => !in_file(state) && !in_file(after),
                FeedAction::SendStart { name } => !in_file(state) && in_file(after),
                FeedAction::SendChunk { len } => in_file(state) && in_file(after) && len > 0,
                FeedAction::SendEnd => in_file(state) && !in_file(after),
                FeedAction::Open { abs } => in_file(state) && in_file(after),
                FeedAction::Read => in_file(state) && in_file(after),
                FeedAction::Done(more) => !in_file(after) && (more ==> !in_file(state)),
            }
        }),
{
}

/// One step on the reading side: the state and the event before it, and the buffer that was read
/// into last.
pub struct FeedMove {
    /// The state before.
    pub before: FeedState,
    /// The event.
    pub event: FeedEvent,
    /// The buffer.
    pub buf: Vec<u8>,
}

impl FeedMove {
    /// The state after.
    pub open spec fn after(self) -> FeedState {
        feed_step(self.before, self.event).0
    }

    /// The action.
    pub open spec fn action(self) -> FeedAction {
        feed_step(self.before, self.event).1
    }

    /// The item that is sent.
    pub open spec fn item(self) -> Option<Item> {
        match self.action() {
            FeedAction::SendDir { name } => Some(Item::Dir { name }),
            FeedAction::SendStart { name } => Some(Item::FileStart { name }),
            FeedAction::SendChunk { len } => Some(Item::Chunk { data: self.buf, len }),
            FeedAction::SendEnd => Some(Item::FileEnd),
            _ => None,
        }
    }

    /// The bytes of the file that were read.
    pub open spec fn bytes(self) -> Seq<u8> {
        match (self.before, self.event) {
            (FeedState::Reading, FeedEvent::Read(n)) => self.buf@.take(n as int),
            _ => Seq::empty(),
        }
    }
}

/// The items that some steps send.
pub open spec fn items_sent(moves: Seq<FeedMove>) -> Seq<Item>
    decreases moves.len(),
{
    if moves.len() == 0 {
        Seq::empty()
    } else {
        match moves.last().item() {
            Some(item) => items_sent(moves.drop_last()).push(item),
            None => items_sent(moves.drop_last()),
        }
    }
}

/// The bytes of the file that were read in some steps.
pub open spec fn bytes_read(moves: Seq<FeedMove>) -> Seq<u8>
    decreases moves.len(),
{
    if moves.len() == 0 {
        Seq::empty()
    } else {
        bytes_read(moves.drop_last()) + moves.last().bytes()
    }
}

/// Whether steps feed a record, from its beginning on.
pub open spec fn begins_feeding(entry: Entry, moves: Seq<FeedMove>) -> bool {
    &&& moves.len() > 0
    &&& moves[0].before is Idle
    &&& moves[0].event == FeedEvent::Record(entry)
    &&& forall|i: int|
        0 < i < moves.len() ==> (#[trigger] moves[i]).before == moves[i - 1].after() && !(
        moves[i].event is Record) && !(moves[i - 1].action() is Done)
}

/// Whether steps feed a record to its end, so that the walk goes on.
pub open spec fn feeds(entry: Entry, moves: Seq<FeedMove>) -> bool {
    begins_feeding(entry, moves) && moves.last().action() == FeedAction::Done(true)
}

/// The record that stands in the archive for one of the walk: a file with the bytes that were read.
pub open spec fn archived(entry: Entry, content: Seq<u8>) -> Record {
    match entry {
        Entry::Dir { name } => Record::Dir { name: name@ },
        Entry::File { abs, name } => Record::File { name: name@, content },
    }
}

/// What is written while a record is fed, by how far it came.
spec fn written_so_far(w: Written, entry: Entry, moves: Seq<FeedMove>) -> bool {
    let now = archive(w, items_sent(moves));
    let last = moves.last();
    let whole = Written { done: w.done.push(archived(entry, bytes_read(moves))), begun: None };
    match last.after() {
        FeedState::Ended => now == whole,
        FeedState::Idle => last.action() == FeedAction::Done(true) ==> now == whole,
        FeedState::Started { abs } => {
            &&& entry is File
            &&& entry->abs == abs
            &&& now.done == w.done
            &&& now.begun == Some((entry->File_name@, bytes_read(moves)))
        },
        _ => {
            &&& entry is File
            &&& now.done == w.done
            &&& now.begun == Some((entry->File_name@, bytes_read(moves)))
        },
    }
}

proof fn lemma_fed_so_far(w: Written, entry: Entry, moves: Seq<FeedMove>)
    requires
        w.begun is None,
        begins_feeding(entry, moves),
    ensures
        written_so_far(w, entry, moves),
    decreases moves.len(),
{
    let last = moves.last();
    let some = moves.drop_last();
    let items = items_sent(moves);
    if last.item() is Some {
        assert(items.drop_last() =~= items_sent(some));
        assert(items.last() == last.item()->0);
    }
    if moves.len() == 1 {
        assert(some =~= Seq::<FeedMove>::empty());
        assert(items_sent(some) =~= Seq::<Item>::empty());
        assert(archive(w, items_sent(some)) == w);
        assert(bytes_read(moves) =~= Seq::<u8>::empty());
    } else {
        assert(begins_feeding(entry, some)) by {
            assert forall|i: int| 0 < i < some.len() implies (#[trigger] some[i]).before == some[i
                - 1].after() && !(some[i].event is Record) && !(some[i - 1].action() is Done) by {
                assert(moves[i].before == moves[i - 1].after());
            }
        }
        lemma_fed_so_far(w, entry, some);
        assert(some.last() == moves[moves.len() - 2]);
        assert(moves[moves.len() - 1].before == moves[moves.len() - 2].after());
        assert(!(some.last().action() is Done));
        assert(bytes_read(moves) =~= bytes_read(some) + last.bytes());
        if !(last.action() is SendChunk) {
            assert(last.bytes() =~= Seq::<u8>::empty());
            assert(bytes_read(moves) =~= bytes_read(some));
        }
    }
}

/// A record that was fed to its end stands in the archive once, behind the records before it: a
/// directory by its name, a file by its name and with the bytes that were read of it, in order.
pub proof fn law_record_is_archived(w: Written, entry: Entry, moves: Seq<FeedMove>)
    requires
        w.begun is None,
        feeds(entry, moves),
    ensures
        archive(w, items_sent(moves)) == (Written {
            done: w.done.push(archived(entry, bytes_read(moves))),
            begun: None,
        }),
{
    lemma_fed_so_far(w, entry, moves);
    assert(moves.last().after() is Idle);
}

/// The file that is opened while a record is fed is the one that the record names.
pub proof fn law_record_file_is_opened(entry: Entry, moves: Seq<FeedMove>)
    requires
        begins_feeding(entry, moves),
    ensures
        moves.last().action() matches FeedAction::Open { abs } ==> entry is File && abs == entry->abs,
{
    if moves.last().action() is Open {
        let some = moves.drop_last();
        assert(begins_feeding(entry, some)) by {
            assert forall|i: int| 0 < i < some.len() implies (#[trigger] some[i]).before == some[i
                - 1].after() && !(some[i].event is Record) && !(some[i - 1].action() is Done) by {
                assert(moves[i].before == moves[i - 1].after());
            }
        }
        lemma_fed_so_far(Written { done: Seq::empty(), begun: None }, entry, some);
        assert(some.last() == moves[moves.len() - 2]);
        assert(moves[moves.len() - 1].before == moves[moves.len() - 2].after());
    }
}

/// The steps that feed one record of a walk.
pub struct FedRecord {
    /// The record.
    pub entry: Entry,
    /// The steps.
    pub moves: Seq<FeedMove>,
}

/// The items that some records send.
pub open spec fn all_items(records: Seq<FedRecord>) -> Seq<Item>
    decreases records.len(),
{
    if records.len() == 0 {
        Seq::empty()
    } else {
        all_items(records.drop_last()) + items_sent(records.last().moves)
    }
}

/// What stands in the archive for some records.
pub open spec fn all_archived(records: Seq<FedRecord>) -> Seq<Record> {
    records.map_values(|r: FedRecord| archived(r.entry, bytes_read(r.moves)))
}

/// What is written after two runs of items.
proof fn lemma_archive_concat(w: Written, a: Seq<Item>, b: Seq<Item>)
    ensures
        archive(w, a + b) == archive(archive(w, a), b),
    decreases b.len(),
{
    if b.len() == 0 {
        assert(a + b =~= a);
    } else {
        lemma_archive_concat(w, a, b.drop_last());
        assert((a + b).drop_last() =~= a + b.drop_last());
    }
}

/// Whether a record was fed to its end.
#[verifier::opaque]
spec fn fed(record: FedRecord) -> bool {
    feeds(record.entry, record.moves)
}

/// One more record that is fed to its end stands behind those before it.
proof fn lemma_archive_grows(w: Written, some: Seq<FedRecord>, last: FedRecord, done: Seq<Record>)
    requires
        archive(w, all_items(some)) == (Written { done, begun: None }),
        fed(last),
    ensures
        archive(w, all_items(some) + items_sent(last.moves)) == (Written {
            done: done.push(archived(last.entry, bytes_read(last.moves))),
            begun: None,
        }),
{
    reveal(fed);
    lemma_archive_concat(w, all_items(some), items_sent(last.moves));
    law_record_is_archived(archive(w, all_items(some)), last.entry, last.moves);
}

proof fn lemma_whole_archive(records: Seq<FedRecord>)
    requires
        forall|i: int| 0 <= i < records.len() ==> fed(#[trigger] records[i]),
    ensures
        archive(
            (Written { done: Seq::<Record>::empty(), begun: None }),
            all_items(records),
        ) == (Written { done: all_archived(records), begun: None }),
    decreases records.len(),
{
    let w = Written { done: Seq::<Record>::empty(), begun: None };
    if records.len() == 0 {
        assert(all_archived(records) =~= Seq::<Record>::empty());
    } else {
        let some = records.drop_last();
        let last = records.last();
        lemma_whole_archive(some);
        lemma_archive_grows(w, some, last, all_archived(some));
        assert(all_archived(records) =~= all_archived(some).push(
            archived(last.entry, bytes_read(last.moves)),
        ));
        assert(all_items(records) == all_items(some) + items_sent(last.moves));
    }
}

/// An archive holds the records of the walk, in the order in which it gave them, each file with the
/// bytes that were read of it, and nothing else.
pub proof fn law_whole_archive(records: Seq<FedRecord>)
    requires
        forall|i: int|
            0 <= i < records.len() ==> feeds((#[trigger] records[i]).entry, records[i].moves),
    ensures
        archive(
            (Written { done: Seq::<Record>::empty(), begun: None }),
            all_items(records),
        ) == (Written { done: all_archived(records), begun: None }),
{
    reveal(fed);
    lemma_whole_archive(records);
}

/// The record that stands in the archive for one that a walk handed over.
pub open spec fn archived_as(entry: EntryView, content: Seq<u8>) -> Record {
    match entry {
        EntryView::Dir { name } => Record::Dir { name },
        EntryView::File { abs, name } => Record::File { name, content },
    }
}

/// The records of a walk that were fed, as values.
pub open spec fn entries_of(records: Seq<FedRecord>) -> Seq<EntryView> {
    records.map_values(|r: FedRecord| r.entry.view())
}

/// The archive of a directory tree: where every record that a whole walk hands over is fed to its
/// end, the archive holds the records of the tree, depth first, each file with the bytes that were
/// read of it, and nothing else.
pub proof fn law_archive_of_tree(
    disk: Disk,
    dir: Seq<u8>,
    prefix: Seq<char>,
    moves: Seq<WalkMove>,
    n: nat,
    records: Seq<FedRecord>,
)
    requires
        is_walk(disk, dir, prefix, moves),
        walked(disk, seq![Task::Visit { dir, prefix }], n) is Some,
        entries_of(records) == all_handed_over(moves),
        forall|i: int|
            0 <= i < records.len() ==> feeds((#[trigger] records[i]).entry, records[i].moves),
    ensures
        ({
            let tree = walked(disk, seq![Task::Visit { dir, prefix }], n)->0;
            archive(
                (Written { done: Seq::<Record>::empty(), begun: None }),
                all_items(records),
            ) == (Written {
                done: Seq::new(
                    tree.len(),
                    |i: int| archived_as(tree[i], bytes_read(records[i].moves)),
                ),
                begun: None,
            })
        }),
{
    law_whole_walk(disk, dir, prefix, moves, n);
    law_whole_archive(records);
    let tree = walked(disk, seq![Task::Visit { dir, prefix }], n)->0;
    let done = Seq::new(tree.len(), |i: int| archived_as(tree[i], bytes_read(records[i].moves)));
    assert(tree == entries_of(records));
    assert forall|i: int| 0 <= i < done.len() implies done[i] == all_archived(records)[i] by {
        assert(entries_of(records)[i] == records[i].entry.view());
    }
    assert(done =~= all_archived(records));
}

/// Every byte that is read of a file is sent: a read of some bytes is followed by a chunk of as many,
/// the next read follows once it is sent, and a read of none ends the file.
pub proof fn law_what_is_read_is_sent(n: usize)
    ensures
        ({
            let (after, action) = feed_step(FeedState::Reading, FeedEvent::Read(n));
            &&& n > 0 ==> action == (FeedAction::SendChunk { len: n })
            &&& n > 0 ==> feed_step(after, FeedEvent::Sent(true)).1 is Read
            &&& n == 0 ==> action is SendEnd
            &&& n == 0 ==> feed_step(after, FeedEvent::Sent(true)).1 == FeedAction::Done(true)
        }),
{
}

/// Feeding goes on as long as the other side is there: a directory is one item, a file is opened
/// once its start is sent, read once it is open, and ended at once where it cannot be opened.
pub proof fn law_feeding_goes_on(abs: Vec<u8>, name: String)
    ensures
        ({
            let (sent, first) = feed_step(
                FeedState::Idle,
                FeedEvent::Record(Entry::Dir { name }),
            );
            &&& first == (FeedAction::SendDir { name })
            &&& feed_step(sent, FeedEvent::Sent(true)).1 == FeedAction::Done(true)
        }),
        ({
            let (begun, first) = feed_step(
                FeedState::Idle,
                FeedEvent::Record(Entry::File { abs, name }),
            );
            let (opening, second) = feed_step(begun, FeedEvent::Sent(true));
            let (closed, third) = feed_step(opening, FeedEvent::Opened(false));
            &&& first == (FeedAction::SendStart { name })
            &&& second == (FeedAction::Open { abs })
            &&& feed_step(opening, FeedEvent::Opened(true)).1 is Read
            &&& third is SendEnd
            &&& feed_step(closed, FeedEvent::Sent(true)).1 == FeedAction::Done(true)
        }),
{
}

/// Once the other side is gone, nothing more is done.
pub proof fn law_gone_ends_feeding(state: FeedState)
    ensures
        feed_step(state, FeedEvent::Sent(false)).1 == FeedAction::Done(false),
{
}

/// A directory is written with the mode of a directory that all may read.
pub proof fn law_directory_permissions(name: String)
    ensures
        write_step(false, Some(Item::Dir { name })).1 == (WriteAction::WriteDir {
            name,
            permissions: 0x41ed,
        }),
{
}

/// The archive ends when the items end, and not before; a file that is begun is ended first.
pub proof fn law_archive_ends_with_items(inside: bool, item: Item)
    ensures
        write_step(false, None).1 is EndArchive,
        write_step(true, None).1 is EndFile && !write_step(true, None).0,
        !(write_step(inside, Some(item)).1 is EndArchive),
{
}

/// The file name in `Content-Disposition` reads back as the folder's name with `.zip` behind it.
pub proof fn law_disposition_names_the_folder(folder: Seq<char>)
    ensures
        ({
            let head = "attachment; filename*=UTF-8''"@;
            let value = disposition(folder);
            let name = value.subrange(head.len() as int, value.len() - 4);
            &&& head.is_prefix_of(value)
            &&& value.skip(value.len() - 4) == ".zip"@
            &&& percent_decoded_text(name) == folder
            &&& !name.contains('/')
        }),
{
    reveal_strlit(".zip");
    let head = "attachment; filename*=UTF-8''"@;
    let e = escaped(encode_utf8(folder), false);
    let value = disposition(folder);
    assert(head =~= value.subrange(0, head.len() as int));
    assert(value.skip(value.len() - 4) =~= ".zip"@);
    assert(value.subrange(head.len() as int, value.len() - 4) =~= e);
    lemma_escaped_all(encode_utf8(folder), false);
    encode_utf8_valid_utf8(folder);
    encode_utf8_decode_utf8(folder);
    lemma_escaped_no_slash(encode_utf8(folder));
}

proof fn lemma_escaped_no_slash(s: Seq<u8>)
    ensures
        !escaped(s, false).contains('/'),
    decreases s.len(),
{
    if s.len() > 0 {
        lemma_escaped_no_slash(s.drop_last());
        let a = escaped(s.drop_last(), false);
        let b = escaped_byte(s.last(), false);
        assert forall|i: int| 0 <= i < (a + b).len() implies (a + b)[i] != '/' by {
            if i < a.len() {
                assert(a.contains(a[i]));
            } else {
                assert((a + b)[i] == b[i - a.len()]);
            }
        }
    }
}

/// An event that was not waited for ends the feeding.
pub proof fn law_unexpected_ends_feeding(state: FeedState, entry: Entry, n: usize, ok: bool)
    ensures
        !(state is Idle) ==> feed_step(state, FeedEvent::Record(entry)).1 == FeedAction::Done(false),
        !(state is Opening) ==> feed_step(state, FeedEvent::Opened(ok)).1 == FeedAction::Done(false),
        !(state is Reading) ==> feed_step(state, FeedEvent::Read(n)).1 == FeedAction::Done(false),
        state is Idle || state is Opening || state is Reading ==> feed_step(
            state,
            FeedEvent::Sent(ok),
        ).1 == FeedAction::Done(false),
{
}

/// Inside a file only its chunks are written, whole, and anything else ends it; outside a file a chunk
/// or an end is passed over.
pub proof fn law_items_in_place(name: String, data: Vec<u8>, len: usize)
    ensures
        write_step(true, Some(Item::Chunk { data, len })) == (true, WriteAction::WriteChunk { data, len }),
        write_step(true, Some(Item::Dir { name })) == (false, WriteAction::EndFile),
        write_step(true, Some(Item::FileStart { name })) == (false, WriteAction::EndFile),
        write_step(true, Some(Item::FileEnd)) == (false, WriteAction::EndFile),
        write_step(false, Some(Item::Chunk { data, len })) == (false, WriteAction::Skip),
        write_step(false, Some(Item::FileEnd)) == (false, WriteAction::Skip),
        write_step(false, Some(Item::FileStart { name })) == (true, WriteAction::BeginFile { name }),
        !write_step(false, Some(Item::Dir { name })).0,
{
}

} // verus!

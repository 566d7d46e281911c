//! Serving files under a root: how a request path is opened and how a response is built.
use crate::file_cache::{
    cache_get, cache_get_fresh, cache_insert, cache_remove, Entry, FileCache, FileMeta,
    shard_of, REVALIDATE_MILLIS,
};
use crate::listing::string_view;
use crate::paths::{lies_under, starts_with};
use crate::routes::Method;
use crate::text::{
    chars_of, differs, find_char, is_white_space, law_trimmed, leading, lemma_leading, lemma_leading_run,
    lemma_trailing_run, same_text, split, starts_with as begins_with, trim_white, trimmed,
    white_space,
};
use vstd::prelude::*;
use vstd::slice::slice_subrange;

verus! {

/// The largest file that is read whole without asking for more to be read ahead.
pub const PAGE: u64 = 4096;

/// What happened while a file is being opened.
pub enum OpenEvent {
    /// The file is asked for.
    Begin,
    /// The path was looked up, without following a link: whether it is a regular file, and its
    /// state. None where there is no such path.
    Stat(Option<(bool, FileMeta)>),
    /// The file was opened beneath the root in one step, or not.
    OpenedBeneath(bool),
    /// The path was resolved; none where it cannot be.
    Resolved(Option<Vec<u8>>),
    /// The resolved path was opened, or not.
    Opened(bool),
    /// The state of the open file was read; none where it cannot be.
    Meta(Option<FileMeta>),
}

/// What to do next.
pub enum OpenAction {
    /// Use the cached file.
    UseCached(Entry),
    /// Look up the path, without following a link.
    Stat,
    /// Open the file beneath the root in one step.
    OpenBeneath,
    /// Resolve the path.
    Resolve,
    /// Open the resolved path.
    OpenResolved(Vec<u8>),
    /// Read the state of the open file.
    ReadMeta,
    /// Use the open file. Where `read_ahead` says so, more of it is to be read ahead.
    Use { meta: FileMeta, read_ahead: bool },
    /// There is no such file.
    Refuse,
}

/// What to do next, where the cache is not asked. Only a regular file under the root is opened.
pub open spec fn open_step(root: Seq<u8>, event: OpenEvent) -> OpenAction {
    match event {
        OpenEvent::OpenedBeneath(ok) => if ok {
            OpenAction::ReadMeta
        } else {
            OpenAction::Resolve
        },
        OpenEvent::Resolved(Some(path)) => if lies_under(path@, root) {
            OpenAction::OpenResolved(path)
        } else {
            OpenAction::Refuse
        },
        OpenEvent::Opened(true) => OpenAction::ReadMeta,
        OpenEvent::Meta(Some(meta)) => OpenAction::Use { meta, read_ahead: meta.len > PAGE },
        _ => OpenAction::Refuse,
    }
}

/// Whether the cache is asked on an event.
pub open spec fn asks_cache(event: OpenEvent) -> bool {
    match event {
        OpenEvent::Begin => true,
        OpenEvent::Stat(None) => true,
        OpenEvent::Stat(Some((is_file, meta))) => is_file,
        _ => false,
    }
}

/// What is done where the cache is asked, with the hash that places the path in it: a fresh entry is
/// used at once; a path that is gone is taken out; and an entry is used where the file is in the
/// state that it was opened in.
pub open spec fn cache_step(
    before: FileCache,
    after: FileCache,
    hash: u64,
    sub: Seq<char>,
    beneath: bool,
    now: i64,
    event: OpenEvent,
    action: OpenAction,
) -> bool {
    match event {
        OpenEvent::Begin => exists|hit: Option<Entry>| #[trigger]
            cache_get_fresh(before, after, hash, sub, now, hit) && action == (match hit {
                Some(entry) => OpenAction::UseCached(entry),
                None => OpenAction::Stat,
            }),
        OpenEvent::Stat(None) => action is Refuse && exists|left: Option<u64>| #[trigger]
            cache_remove(before, after, hash, sub, left),
        OpenEvent::Stat(Some((is_file, meta))) => exists|hit: Option<Entry>| #[trigger]
            cache_get(before, after, hash, sub, meta, now, hit) && action == (match hit {
                Some(entry) => OpenAction::UseCached(entry),
                None => if beneath {
                    OpenAction::OpenBeneath
                } else {
                    OpenAction::Resolve
                },
            }),
        _ => false,
    }
}

/// Serves the files under a root.
pub struct ServeFiles {
    root: Vec<u8>,
    beneath: bool,
}

impl ServeFiles {
    /// The root.
    pub closed spec fn root(&self) -> Seq<u8> {
        self.root@
    }

    /// Whether files can be opened beneath the root in one step.
    pub closed spec fn beneath(&self) -> bool {
        self.beneath
    }

    /// Serves the files under `root`. Files are opened beneath it in one step where the root could
    /// be opened and the system call for it is not filtered.
    pub fn new(root: Vec<u8>, root_opened: bool, filtered: bool) -> (r: ServeFiles)
        ensures
            r.root() == root@,
            r.beneath() == (root_opened && !filtered),
    {
        ServeFiles { root, beneath: root_opened && !filtered }
    }

    /// Takes an event while the file `sub` is being opened, and says what to do next. The second
    /// result is the handle that left the cache, where one did.
    pub fn open(&self, cache: &mut FileCache, sub: &str, now: i64, event: OpenEvent) -> (r: (
        OpenAction,
        Option<u64>,
    ))
        requires
            old(cache).wf(),
            old(cache).can_tick(),
        ensures
            final(cache).wf(),
            !asks_cache(event) ==> r.0 == open_step(self.root(), event) && r.1 is None && *final(cache)
                == *old(cache),
            asks_cache(event) ==> exists|hash: u64| #[trigger]
                cache_step(
                    *old(cache),
                    *final(cache),
                    hash,
                    sub@,
                    self.beneath(),
                    now,
                    event,
                    r.0,
                ),
            event is Stat && event->Stat_0 is None ==> exists|hash: u64| #[trigger]
                cache_remove(*old(cache), *final(cache), hash, sub@, r.1),
            !(event is Stat && event->Stat_0 is None) ==> r.1 is None,
            can_follow(self.root(), event, r.0),
    {
        match event {
            OpenEvent::Begin => {
                let hit = cache.get_fresh(sub, now);
                let ghost h = choose|h: u64|
                    cache_get_fresh(*old(cache), *cache, h, sub@, now, hit);
                let action = match hit {
                    Some(entry) => OpenAction::UseCached(entry),
                    None => OpenAction::Stat,
                };
                assert(cache_step(
                    *old(cache),
                    *cache,
                    h,
                    sub@,
                    self.beneath(),
                    now,
                    event,
                    action,
                ));
                (action, None)
            },
            OpenEvent::Stat(None) => {
                let left = cache.remove(sub);
                let ghost h = choose|h: u64| cache_remove(*old(cache), *cache, h, sub@, left);
                assert(cache_step(
                    *old(cache),
                    *cache,
                    h,
                    sub@,
                    self.beneath(),
                    now,
                    event,
                    OpenAction::Refuse,
                ));
                (OpenAction::Refuse, left)
            },
            OpenEvent::Stat(Some((is_file, meta))) => {
                if !is_file {
                    return (OpenAction::Refuse, None);
                }
                let hit = cache.get(sub, meta, now);
                let ghost h = choose|h: u64|
                    cache_get(*old(cache), *cache, h, sub@, meta, now, hit);
                let action = match hit {
                    Some(entry) => OpenAction::UseCached(entry),
                    None => if self.beneath {
                        OpenAction::OpenBeneath
                    } else {
                        OpenAction::Resolve
                    },
                };
                assert(cache_step(
                    *old(cache),
                    *cache,
                    h,
                    sub@,
                    self.beneath(),
                    now,
                    event,
                    action,
                ));
                (action, None)
            },
            OpenEvent::OpenedBeneath(ok) => if ok {
                (OpenAction::ReadMeta, None)
            } else {
                (OpenAction::Resolve, None)
            },
            OpenEvent::Resolved(None) => (OpenAction::Refuse, None),
            OpenEvent::Resolved(Some(path)) => if starts_with(
                path.as_slice(),
                self.root.as_slice(),
            ) {
                (OpenAction::OpenResolved(path), None)
            } else {
                (OpenAction::Refuse, None)
            },
            OpenEvent::Opened(ok) => if ok {
                (OpenAction::ReadMeta, None)
            } else {
                (OpenAction::Refuse, None)
            },
            OpenEvent::Meta(None) => (OpenAction::Refuse, None),
            OpenEvent::Meta(Some(meta)) => (
                OpenAction::Use { meta, read_ahead: meta.len > PAGE },
                None,
            ),
        }
    }
}

/// What is not a regular file is never opened: links and directories are refused.
pub proof fn law_only_regular_files(root: Seq<u8>, meta: FileMeta)
    ensures
        !asks_cache(OpenEvent::Stat(Some((false, meta)))),
        open_step(root, OpenEvent::Stat(Some((false, meta)))) is Refuse,
{
}

/// A path that is resolved is only opened where it lies under the root.
pub proof fn law_only_under_the_root(root: Seq<u8>, event: OpenEvent)
    ensures
        open_step(root, event) matches OpenAction::OpenResolved(path) ==> lies_under(path@, root),
{
}

/// Whether an action can follow an event.
pub open spec fn can_follow(root: Seq<u8>, event: OpenEvent, action: OpenAction) -> bool {
    match event {
        OpenEvent::Begin => action is UseCached || action is Stat,
        OpenEvent::Stat(Some((true, meta))) => action is UseCached || action is OpenBeneath
            || action is Resolve,
        _ => action == open_step(root, event),
    }
}

/// Whether an event is the answer to an action.
pub open spec fn is_answer(action: OpenAction, event: OpenEvent) -> bool {
    match action {
        OpenAction::Stat => event is Stat,
        OpenAction::OpenBeneath => event is OpenedBeneath,
        OpenAction::Resolve => event is Resolved,
        OpenAction::OpenResolved(_) => event is Opened,
        OpenAction::ReadMeta => event is Meta,
        _ => false,
    }
}

/// One step in the opening of a file.
pub struct OpenStep {
    /// What happened.
    pub event: OpenEvent,
    /// What was done next.
    pub action: OpenAction,
}

/// Whether steps are the opening of a file, from its beginning.
pub open spec fn is_opening(root: Seq<u8>, steps: Seq<OpenStep>) -> bool {
    &&& steps.len() > 0
    &&& steps[0].event is Begin
    &&& forall|i: int|
        0 <= i < steps.len() ==> can_follow(
            root,
            (#[trigger] steps[i]).event,
            steps[i].action,
        )
    &&& forall|i: int|
        0 < i < steps.len() ==> is_answer(steps[i - 1].action, (#[trigger] steps[i]).event)
}

/// Whether a step found a regular file.
pub open spec fn found_file(step: OpenStep) -> bool {
    step.event matches OpenEvent::Stat(Some((is_file, meta))) && is_file
}

/// A file that is newly opened and used was found to be a regular file first, and was opened
/// beneath the root in one step, or by a resolved path that lies under the root.
pub proof fn law_no_way_out(root: Seq<u8>, steps: Seq<OpenStep>)
    requires
        is_opening(root, steps),
        steps.last().action is Use,
    ensures
        exists|i: int| 0 <= i < steps.len() && found_file(#[trigger] steps[i]),
        (exists|i: int|
            0 <= i < steps.len() && (#[trigger] steps[i]).event == OpenEvent::OpenedBeneath(true))
            || (exists|i: int|
            0 <= i < steps.len() && (#[trigger] steps[i]).action is OpenResolved && lies_under(
                steps[i].action->OpenResolved_0@,
                root,
            )),
{
    let n = steps.len() - 1;
    assert(can_follow(root, steps[n].event, steps[n].action));
    assert(n > 0);
    assert(is_answer(steps[n - 1].action, steps[n].event));
    let m = n - 1;
    assert(can_follow(root, steps[m].event, steps[m].action));
    assert(m > 0);
    assert(is_answer(steps[m - 1].action, steps[m].event));
    let k = m - 1;
    assert(can_follow(root, steps[k].event, steps[k].action));
    if steps[m].event is OpenedBeneath {
        lemma_asked_for_file(root, steps, k);
    } else {
        assert(k > 0);
        assert(is_answer(steps[k - 1].action, steps[k].event));
        let j = k - 1;
        assert(can_follow(root, steps[j].event, steps[j].action));
        assert(lies_under(steps[k].action->OpenResolved_0@, root));
        lemma_asked_for_file(root, steps, j);
    }
}

/// Opening a path is only tried once it was found to be a regular file.
proof fn lemma_asked_for_file(root: Seq<u8>, steps: Seq<OpenStep>, i: int)
    requires
        is_opening(root, steps),
        0 <= i < steps.len(),
        steps[i].action is OpenBeneath || steps[i].action is Resolve,
    ensures
        exists|k: int| 0 <= k < steps.len() && found_file(#[trigger] steps[k]),
    decreases i,
{
    assert(can_follow(root, steps[i].event, steps[i].action));
    if steps[i].event is OpenedBeneath {
        assert(i > 0);
        assert(is_answer(steps[i - 1].action, steps[i].event));
        lemma_asked_for_file(root, steps, i - 1);
    } else {
        assert(found_file(steps[i]));
    }
}

/// How a file is sent.
#[derive(Clone, Copy)]
pub struct SendPlan {
    /// The headers that were kept with the cached file are used.
    pub reuse_headers: bool,
    /// The response gets a body of its own; else it gets its head only.
    pub write_body: bool,
    /// The file and its headers are put in the cache.
    pub store: bool,
    /// The file is sent in place of the body, where that is possible.
    pub upgrade: bool,
    /// The response is plain bytes, without the headers that only a browser reads: `ETag`,
    /// `Last-Modified` and `Content-Disposition`.
    pub lean: bool,
}

/// The type of a lean response.
pub fn lean_type() -> (r: &'static str)
    ensures
        r@ == "application/octet-stream"@,
{
    "application/octet-stream"
}

/// How a request for a file is answered.
pub enum ServePlan {
    /// With a status and no file.
    Status(u16),
    /// With the file.
    Send(SendPlan),
}

/// How a request for a file is answered. `opened` says whether the file was opened, and then
/// whether it came from the cache; `slot` whether the connection can send from files.
pub open spec fn serve_plan(method: Method, opened: Option<bool>, slot: bool) -> ServePlan {
    if method is Other || opened is None {
        ServePlan::Status(404)
    } else {
        ServePlan::Send(
            SendPlan {
                reuse_headers: opened->0,
                write_body: method is Get && !slot,
                store: !opened->0,
                upgrade: method is Get,
                lean: false,
            },
        )
    }
}

/// How a request for a file is answered.
pub fn serve(method: Method, opened: Option<bool>, slot: bool) -> (r: ServePlan)
    ensures
        r == serve_plan(method, opened, slot),
{
    let head_only = match method {
        Method::Get => false,
        Method::Head => true,
        Method::Other => {
            return ServePlan::Status(404);
        },
    };
    match opened {
        None => ServePlan::Status(404),
        Some(cached) => ServePlan::Send(
            SendPlan {
                reuse_headers: cached,
                write_body: !head_only && !slot,
                store: !cached,
                upgrade: !head_only,
                lean: false,
            },
        ),
    }
}

/// How a request of the client for a file is answered: without the cache, and without the headers
/// that only a browser reads.
pub open spec fn pull_plan(method: Method, opened: bool, slot: bool) -> ServePlan {
    if method is Other || !opened {
        ServePlan::Status(404)
    } else {
        ServePlan::Send(
            SendPlan {
                reuse_headers: false,
                write_body: method is Get && !slot,
                store: false,
                upgrade: method is Get,
                lean: true,
            },
        )
    }
}

/// How a request of the client for a file is answered.
pub fn serve_pull(method: Method, opened: bool, slot: bool) -> (r: ServePlan)
    ensures
        r == pull_plan(method, opened, slot),
{
    let head_only = match method {
        Method::Get => false,
        Method::Head => true,
        Method::Other => {
            return ServePlan::Status(404);
        },
    };
    if !opened {
        return ServePlan::Status(404);
    }
    ServePlan::Send(
        SendPlan {
            reuse_headers: false,
            write_body: !head_only && !slot,
            store: false,
            upgrade: !head_only,
            lean: true,
        },
    )
}

/// The headers of a file's response that are kept with the open file.
pub struct FileHeaders {
    /// `Content-Type`.
    pub content_type: String,
    /// `Last-Modified`.
    pub last_modified: Option<String>,
    /// `ETag`.
    pub etag: Option<String>,
    /// `Content-Disposition`.
    pub disposition: Option<String>,
}

/// The headers, as values.
pub struct HeadersView {
    /// `Content-Type`.
    pub content_type: Seq<char>,
    /// `Last-Modified`.
    pub last_modified: Option<Seq<char>>,
    /// `ETag`.
    pub etag: Option<Seq<char>>,
    /// `Content-Disposition`.
    pub disposition: Option<Seq<char>>,
}

impl FileHeaders {
    /// The headers, as values.
    pub open spec fn view(&self) -> HeadersView {
        HeadersView {
            content_type: self.content_type@,
            last_modified: string_view(self.last_modified),
            etag: string_view(self.etag),
            disposition: string_view(self.disposition),
        }
    }
}

impl HeadersView {
    /// Whether every header is there.
    pub open spec fn complete(self) -> bool {
        self.last_modified is Some && self.etag is Some && self.disposition is Some
    }
}

/// The first of two values that is there.
pub open spec fn first_of(a: Option<Seq<char>>, b: Option<Seq<char>>) -> Option<Seq<char>> {
    if a is Some {
        a
    } else {
        b
    }
}

/// The headers that are sent: those that were kept with the cached file, and those that were made
/// for this response where there are none.
pub open spec fn sent_headers(kept: Option<HeadersView>, made: HeadersView) -> HeadersView {
    match kept {
        None => made,
        Some(k) => HeadersView {
            content_type: k.content_type,
            last_modified: first_of(k.last_modified, made.last_modified),
            etag: first_of(k.etag, made.etag),
            disposition: first_of(k.disposition, made.disposition),
        },
    }
}

/// The view of headers that may have been kept.
pub open spec fn kept_view(kept: Option<&FileHeaders>) -> Option<HeadersView> {
    match kept {
        Some(k) => Some(k.view()),
        None => None,
    }
}

fn kept_or_made(kept: &Option<String>, made: Option<String>) -> (r: Option<String>)
    ensures
        string_view(r) == first_of(string_view(*kept), string_view(made)),
{
    match kept {
        Some(text) => Some(text.clone()),
        None => made,
    }
}

/// The headers that are sent with a file.
pub fn choose_headers(kept: Option<&FileHeaders>, made: FileHeaders) -> (r: FileHeaders)
    ensures
        r.view() == sent_headers(kept_view(kept), made.view()),
{
    match kept {
        None => made,
        Some(k) => FileHeaders {
            content_type: k.content_type.clone(),
            last_modified: kept_or_made(&k.last_modified, made.last_modified),
            etag: kept_or_made(&k.etag, made.etag),
            disposition: kept_or_made(&k.disposition, made.disposition),
        },
    }
}

/// Two requests for a file that did not change carry the same headers. The first does not find it in
/// the cache, sends the headers `sent`, and keeps them under the handle that it puts in. The second
/// finds that handle, whether it asks for the file's state or the entry is still fresh, and sends
/// what was kept, whatever would be made now; and the length is that of the same open file. Where
/// there is no file, the status is 404.
pub proof fn law_hit_sends_the_same(
    before: FileCache,
    filled: FileCache,
    after: FileCache,
    hash: u64,
    path: Seq<char>,
    handle: u64,
    meta: FileMeta,
    now: i64,
    later: i64,
    left: Option<u64>,
    hit: Option<Entry>,
    method: Method,
    slot: bool,
    kept: Map<u64, HeadersView>,
    sent: HeadersView,
    made: HeadersView,
)
    requires
        !(method is Other),
        sent.complete(),
        cache_insert(before, filled, hash, path, handle, meta, now, left),
        kept[handle] == sent,
        cache_get(filled, after, hash, path, meta, later, hit) || (cache_get_fresh(
            filled,
            after,
            hash,
            path,
            later,
            hit,
        ) && later - now < REVALIDATE_MILLIS),
    ensures
        serve_plan(method, Some(false), slot) matches ServePlan::Send(first) && first.store,
        hit is Some,
        serve_plan(method, Some(true), slot) matches ServePlan::Send(second) && second.reuse_headers,
        sent_headers(Some(kept[hit->0.handle]), made) == sent,
        hit->0.meta.len == meta.len,
        serve_plan(method, None, slot) == ServePlan::Status(404),
{
}

/// Whether a line of a process status says that a filter of system calls is installed.
pub open spec fn line_has_filter(line: Seq<char>) -> bool {
    "Seccomp:"@.is_prefix_of(line) && trimmed(line.skip("Seccomp:"@.len() as int)) == "2"@
}

/// Whether a process status says that a filter of system calls is installed.
pub open spec fn status_has_filter(status: Seq<char>) -> bool {
    exists|i: int|
        0 <= i < split(status, '\n').len() && #[trigger] line_has_filter(split(status, '\n')[i])
}

/// Whether a process status says that a filter of system calls is installed.
pub fn has_seccomp_filter(status: &str) -> (r: bool)
    ensures
        r == status_has_filter(status@),
{
    let chars = chars_of(status);
    let mut rest = chars.as_slice();
    let ghost all = split(status@, '\n');
    let ghost mut done: int = 0;
    assert(all.skip(0) =~= all);
    loop
        invariant
            all == split(status@, '\n'),
            0 <= done < all.len(),
            all.skip(done) == split(rest@, '\n'),
            forall|i: int| 0 <= i < done ==> !line_has_filter(#[trigger] all[i]),
        decreases rest@.len(),
    {
        let at = find_char(rest, '\n');
        let line = slice_subrange(rest, 0, at);
        proof {
            assert(line@ =~= rest@.take(at as int));
            assert(all.skip(done)[0] == all[done]);
            assert(rest@.take(rest@.len() as int) =~= rest@);
            assert(all[done] == line@);
        }
        if begins_with(line, "Seccomp:") {
            proof {
                reveal_strlit("Seccomp:");
            }
            let value = slice_subrange(line, 8, line.len());
            assert(value@ =~= line@.skip("Seccomp:"@.len() as int));
            if same_text(trim_white(value), "2") {
                assert(line_has_filter(split(status@, '\n')[done]));
                return true;
            }
        }
        if at == rest.len() {
            proof {
                assert(all.skip(done) =~= seq![rest@]);
                assert(all.len() == done + 1) by {
                    assert(all.skip(done).len() == all.len() - done);
                }
            }
            return false;
        }
        let next = slice_subrange(rest, at + 1, rest.len());
        proof {
            assert(next@ =~= rest@.skip(at + 1));
            let tail = split(next@, '\n');
            assert(all.skip(done) =~= seq![line@] + tail);
            assert(all.skip(done + 1) =~= all.skip(done).skip(1));
            assert((seq![line@] + tail).skip(1) =~= tail);
            lemma_split_nonempty(next@);
            done = done + 1;
        }
        rest = next;
    }
}

/// There is always at least one line.
proof fn lemma_split_nonempty(s: Seq<char>)
    ensures
        split(s, '\n').len() > 0,
{
}

/// A GET for a file that was opened gets the file's content, from the cache or not: it is sent from
/// the file where that is possible, and where the connection cannot, the response has a body of its
/// own. A HEAD gets neither. A hit and a miss differ only in which headers are sent and in whether
/// the file is put in the cache.
pub proof fn law_get_sends_content(cached: bool, slot: bool)
    ensures
        serve_plan(Method::Get, Some(cached), slot) matches ServePlan::Send(get) && get.upgrade && (
        get.write_body <==> !slot) && !get.lean && (get.reuse_headers <==> cached) && (get.store
            <==> !cached),
        serve_plan(Method::Head, Some(cached), slot) matches ServePlan::Send(head) && !head.upgrade
            && !head.write_body && !head.lean && (head.reuse_headers <==> cached) && (head.store
            <==> !cached),
{
}

/// The client gets the same content as a browser, without the browser's headers and past the cache.
pub proof fn law_pull_sends_content(slot: bool)
    ensures
        pull_plan(Method::Get, true, slot) matches ServePlan::Send(get) && get.upgrade && (
        get.write_body <==> !slot) && get.lean && !get.reuse_headers && !get.store,
        pull_plan(Method::Head, true, slot) matches ServePlan::Send(head) && !head.upgrade
            && !head.write_body && head.lean && !head.reuse_headers && !head.store,
{
}

/// Where there is no file, or the method asks for none, the answer is status 404, to a browser and to
/// the client.
pub proof fn law_no_file_is_404(method: Method, opened: Option<bool>, found: bool, slot: bool)
    requires
        method is Other || (opened is None && !found),
    ensures
        serve_plan(method, opened, slot) == ServePlan::Status(404),
        pull_plan(method, found, slot) == ServePlan::Status(404),
{
}

/// A file that can be opened is used: opened beneath the root, or by a resolved path that lies under
/// it, in the state that the open file itself is in. Reading ahead is asked for where it is longer
/// than a page.
pub proof fn law_file_is_used(root: Seq<u8>, path: Vec<u8>, meta: FileMeta)
    ensures
        open_step(root, OpenEvent::OpenedBeneath(true)) is ReadMeta,
        open_step(root, OpenEvent::OpenedBeneath(false)) is Resolve,
        lies_under(path@, root) ==> open_step(root, OpenEvent::Resolved(Some(path)))
            == OpenAction::OpenResolved(path),
        open_step(root, OpenEvent::Opened(true)) is ReadMeta,
        open_step(root, OpenEvent::Meta(Some(meta))) == (OpenAction::Use {
            meta,
            read_ahead: meta.len > 4096,
        }),
{
}

/// What cannot be resolved, opened or looked at is refused, and so is what lies outside the root.
pub proof fn law_failures_are_refused(root: Seq<u8>, path: Vec<u8>)
    requires
        !lies_under(path@, root),
    ensures
        open_step(root, OpenEvent::Resolved(None)) is Refuse,
        open_step(root, OpenEvent::Resolved(Some(path))) is Refuse,
        open_step(root, OpenEvent::Opened(false)) is Refuse,
        open_step(root, OpenEvent::Meta(None)) is Refuse,
{
}

/// What a file that was asked for comes to where the cache is asked. A path that is gone leaves the
/// cache; a regular file in another state than the cached one is opened anew; one in the same state
/// is the cached one, under its handle.
pub proof fn law_cache_is_asked(
    before: FileCache,
    after: FileCache,
    hash: u64,
    sub: Seq<char>,
    beneath: bool,
    now: i64,
    meta: FileMeta,
    action: OpenAction,
)
    ensures
        cache_step(before, after, hash, sub, beneath, now, OpenEvent::Stat(None), action)
            ==> action is Refuse && !after.shard(shard_of(hash)).entries.contains_key(sub),
        cache_step(before, after, hash, sub, beneath, now, OpenEvent::Stat(Some((true, meta))), action)
            ==> {
            let entries = before.shard(shard_of(hash)).entries;
            if entries.contains_key(sub) && entries[sub].meta == meta {
                action matches OpenAction::UseCached(e) && e.handle == entries[sub].handle && e.meta
                    == meta
            } else if beneath {
                action is OpenBeneath
            } else {
                action is Resolve
            }
        },
        cache_step(before, after, hash, sub, beneath, now, OpenEvent::Begin, action) ==> {
            let entries = before.shard(shard_of(hash)).entries;
            if entries.contains_key(sub) && now - entries[sub].validated_at < REVALIDATE_MILLIS {
                action matches OpenAction::UseCached(e) && e.handle == entries[sub].handle && e.meta
                    == entries[sub].meta
            } else {
                action is Stat
            }
        },
{
}

/// A status says that a filter is installed where one of its lines is `Seccomp:`, white space and
/// the mode 2, wherever the line stands.
pub proof fn law_filter_is_seen(before: Seq<char>, space: Seq<char>, after: Seq<char>)
    requires
        forall|i: int| 0 <= i < space.len() ==> is_white_space(#[trigger] space[i]) && space[i] != '\n',
        before.len() == 0 || before.last() == '\n',
        after.len() == 0 || after[0] == '\n',
    ensures
        status_has_filter(before + ("Seccomp:"@ + space + "2"@) + after),
{
    let line = "Seccomp:"@ + space + "2"@;
    let all = before + line + after;
    reveal_strlit("Seccomp:");
    reveal_strlit("2");
    assert("Seccomp:"@ =~= line.subrange(0, 8));
    let value = line.skip(8);
    assert(value =~= space + "2"@);
    lemma_leading(value, white_space(), space.len() as int);
    let front = value.skip(space.len() as int);
    assert(front =~= "2"@);
    lemma_trailing_run(front, white_space(), 0);
    assert(trimmed(value) =~= "2"@);
    assert(line_has_filter(line));
    assert(!line.contains('\n')) by {
        if line.contains('\n') {
            let i = choose|i: int| 0 <= i < line.len() && line[i] == '\n';
            if 8 <= i < 8 + space.len() {
                assert(line[i] == space[i - 8]);
            }
        }
    }
    let i = lemma_line_is_split(before, line, after);
    assert(line_has_filter(split(all, '\n')[i]));
}

/// A line that stands between line breaks is one of the lines of the text.
proof fn lemma_line_is_split(before: Seq<char>, line: Seq<char>, after: Seq<char>) -> (i: int)
    requires
        before.len() == 0 || before.last() == '\n',
        after.len() == 0 || after[0] == '\n',
        !line.contains('\n'),
    ensures
        0 <= i < split(before + line + after, '\n').len(),
        split(before + line + after, '\n')[i] == line,
    decreases before.len(),
{
    let all = before + line + after;
    let p = differs('\n');
    if before.len() == 0 {
        assert(all =~= line + after);
        assert forall|k: int| 0 <= k < line.len() implies p(#[trigger] all[k]) by {
            assert(all[k] == line[k]);
            if line[k] == '\n' {
                assert(line.contains('\n'));
            }
        }
        lemma_leading(all, p, line.len() as int);
        assert(all.take(line.len() as int) =~= line);
        if after.len() == 0 {
            assert(all =~= line);
        }
        0
    } else {
        lemma_leading_run(before, p);
        let n = leading(before, p) as int;
        assert(n < before.len()) by {
            if n == before.len() {
                assert(p(before[before.len() - 1]));
            }
        }
        assert forall|k: int| 0 <= k < n implies p(#[trigger] all[k]) by {
            assert(all[k] == before[k]);
        }
        assert(all[n] == before[n]);
        lemma_leading(all, p, n);
        let rest = before.skip(n + 1);
        assert(all.skip(n + 1) =~= rest + line + after);
        let i = lemma_line_is_split(rest, line, after);
        assert(split(all, '\n') == seq![all.take(n)] + split(all.skip(n + 1), '\n'));
        i + 1
    }
}

/// Headers that were kept are sent again as they are; only what is missing among them is taken from
/// those that were made now. Without kept ones, all are those made now.
pub proof fn law_kept_headers_come_first(kept: HeadersView, made: HeadersView)
    ensures
        sent_headers(None, made) == made,
        sent_headers(Some(kept), made).content_type == kept.content_type,
        kept.last_modified is Some ==> sent_headers(Some(kept), made).last_modified
            == kept.last_modified,
        kept.last_modified is None ==> sent_headers(Some(kept), made).last_modified
            == made.last_modified,
        kept.etag is Some ==> sent_headers(Some(kept), made).etag == kept.etag,
        kept.etag is None ==> sent_headers(Some(kept), made).etag == made.etag,
        kept.disposition is Some ==> sent_headers(Some(kept), made).disposition == kept.disposition,
        kept.disposition is None ==> sent_headers(Some(kept), made).disposition == made.disposition,
        sent_headers(Some(kept), kept) == kept,
{
}

/// A status says of no filter where no line of it begins with `Seccomp:`, and where the mode in such a
/// line is another.
pub proof fn law_no_filter(status: Seq<char>, front: Seq<char>, mode: Seq<char>, end: Seq<char>)
    requires
        forall|i: int| 0 <= i < front.len() ==> is_white_space(#[trigger] front[i]),
        forall|i: int| 0 <= i < end.len() ==> is_white_space(#[trigger] end[i]),
        mode.len() > 0,
        !is_white_space(mode[0]) && !is_white_space(mode.last()),
    ensures
        (forall|i: int|
            0 <= i < split(status, '\n').len() ==> !"Seccomp:"@.is_prefix_of(
                #[trigger] split(status, '\n')[i],
            )) ==> !status_has_filter(status),
        line_has_filter("Seccomp:"@ + front + mode + end) <==> mode == "2"@,
{
    let head = "Seccomp:"@;
    let line = head + front + mode + end;
    assert(head =~= line.subrange(0, head.len() as int));
    assert(line.skip(head.len() as int) =~= front + mode + end);
    law_trimmed(front, mode, end);
}

/// The cache is asked where a file is looked for, where it is gone, and where it is a regular file; and
/// never while it is being opened.
pub proof fn law_when_cache_is_asked(event: OpenEvent)
    ensures
        asks_cache(event) <==> match event {
            OpenEvent::Begin => true,
            OpenEvent::Stat(found) => !(found matches Some((is_file, _)) && !is_file),
            _ => false,
        },
{
}

/// Headers stand for what is in them.
pub proof fn law_header_values(headers: FileHeaders)
    ensures
        headers.view().content_type == headers.content_type@,
        headers.view().last_modified == string_view(headers.last_modified),
        headers.view().etag == string_view(headers.etag),
        headers.view().disposition == string_view(headers.disposition),
        kept_view(Some(&headers)) == Some(headers.view()),
        kept_view(None) is None,
{
}

} // verus!

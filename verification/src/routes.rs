//! Which requests are served as files, and how a response is completed.
use crate::percent::{decode_url_path, law_plain_reads_as_itself, percent_decoded_text};
use crate::text::{
    chars_of, equals, lemma_leading, starts_with, string_of, trim_char_front, trim_front,
};
use vstd::prelude::*;
use vstd::slice::slice_subrange;

verus! {

/// For how many milliseconds the server waits after a connection could not be accepted.
pub const ACCEPT_BACKOFF_MILLIS: u64 = 10;

/// What follows a prefix and the slashes behind it in a path; none where the path does not begin
/// with the prefix.
pub open spec fn rest_behind(path: Seq<char>, prefix: Seq<char>) -> Option<Seq<char>> {
    if prefix.is_prefix_of(path) {
        Some(trim_front(path.skip(prefix.len() as int), equals('/')))
    } else {
        None
    }
}

/// The file that a path names behind a prefix; none where the path does not begin with it. A path
/// that ends in a slash names no file, which an empty name stands for.
pub open spec fn sub_path(path: Seq<char>, prefix: Seq<char>) -> Option<Seq<char>> {
    match rest_behind(path, prefix) {
        None => None,
        Some(rest) => if rest.len() > 0 && rest.last() == '/' {
            Some(Seq::empty())
        } else {
            Some(percent_decoded_text(rest))
        },
    }
}

/// The file that a path names behind a prefix.
fn sub_path_behind(path: &str, prefix: &str) -> (r: Option<String>)
    ensures
        r is Some <==> sub_path(path@, prefix@) is Some,
        r matches Some(sub) ==> sub_path(path@, prefix@) == Some(sub@),
{
    let chars = chars_of(path);
    if !starts_with(chars.as_slice(), prefix) {
        return None;
    }
    let n = chars_of(prefix).len();
    let behind = slice_subrange(chars.as_slice(), n, chars.len());
    assert(behind@ =~= path@.skip(prefix@.len() as int));
    let rest = trim_char_front(behind, '/');
    if rest.len() > 0 && rest[rest.len() - 1] == '/' {
        let none = String::new();
        assert(none@ =~= Seq::<char>::empty());
        return Some(none);
    }
    let text = string_of(rest);
    Some(decode_url_path(text.as_str()))
}

/// The file that a request for `/files/` names; `None` where the request is another.
pub fn files_sub_path(path: &str) -> (r: Option<String>)
    ensures
        r is Some <==> sub_path(path@, "/files/"@) is Some,
        r matches Some(sub) ==> sub_path(path@, "/files/"@) == Some(sub@),
{
    sub_path_behind(path, "/files/")
}

/// The file that a request for `/pull/` names; `None` where the request is another.
pub fn pull_sub_path(path: &str) -> (r: Option<String>)
    ensures
        r is Some <==> sub_path(path@, "/pull/"@) is Some,
        r matches Some(sub) ==> sub_path(path@, "/pull/"@) == Some(sub@),
{
    sub_path_behind(path, "/pull/")
}

/// The methods that matter.
#[derive(Clone, Copy, PartialEq, Eq, Structural)]
pub enum Method {
    /// `GET`.
    Get,
    /// `HEAD`.
    Head,
    /// Any other.
    Other,
}

/// What a request asks for.
pub enum Route {
    /// A file for a browser.
    Files(String),
    /// A file for the client.
    Pull(String),
    /// Nothing: the method is not one that files are asked for with.
    NoFile,
    /// Something that the router answers.
    Router,
}

/// Whether a route is the one of a path and a method.
pub open spec fn is_route(path: Seq<char>, method: Method, route: Route) -> bool {
    let files = sub_path(path, "/files/"@);
    let pull = sub_path(path, "/pull/"@);
    if files is Some || pull is Some {
        if method is Other {
            route is NoFile
        } else if files is Some {
            route is Files && files == Some(route->Files_0@)
        } else {
            route is Pull && pull == Some(route->Pull_0@)
        }
    } else {
        route is Router
    }
}

/// What a request with this path and method asks for.
pub fn route(path: &str, method: Method) -> (r: Route)
    ensures
        is_route(path@, method, r),
{
    let other = method == Method::Other;
    match files_sub_path(path) {
        Some(sub) => if other {
            Route::NoFile
        } else {
            Route::Files(sub)
        },
        None => match pull_sub_path(path) {
            Some(sub) => if other {
                Route::NoFile
            } else {
                Route::Pull(sub)
            },
            None => Route::Router,
        },
    }
}

/// Whether a response gets an error page: it has an error status and no body, and the request wants
/// one.
pub open spec fn wants_error_page(head_only: bool, status: Option<u16>, has_body: bool) -> bool {
    !head_only && !has_body && status is Some && 400 <= status->0 < 600
}

/// Whether a response gets an error page.
pub fn needs_error_page(head_only: bool, status: Option<u16>, has_body: bool) -> (r: bool)
    ensures
        r == wants_error_page(head_only, status, has_body),
{
    match status {
        None => false,
        Some(code) => !head_only && !has_body && 400 <= code && code < 600,
    }
}

/// What happened while a connection was accepted.
pub enum AcceptEvent {
    /// A connection came, or none could be accepted.
    Accepted(bool),
    /// The local address of the connection was read, or not.
    LocalAddr(bool),
    /// The connection was told not to delay small writes, or could not be.
    NoDelay(bool),
}

/// What to do next.
#[derive(Clone, Copy, PartialEq, Eq, Structural)]
pub enum AcceptAction {
    /// Wait for a moment and accept the next connection.
    BackOff,
    /// Read the local address of the connection.
    ReadLocalAddr,
    /// Tell the connection not to delay small writes.
    SetNoDelay,
    /// Serve the connection.
    Serve,
}

/// What to do next while connections are accepted. No failure ends the server: it costs the one
/// connection at most.
pub fn accept_next(event: AcceptEvent) -> (r: AcceptAction)
    ensures
        event matches AcceptEvent::Accepted(ok) ==> r == (if ok {
            AcceptAction::ReadLocalAddr
        } else {
            AcceptAction::BackOff
        }),
        event matches AcceptEvent::LocalAddr(ok) ==> r == (if ok {
            AcceptAction::SetNoDelay
        } else {
            AcceptAction::BackOff
        }),
        event is NoDelay ==> r == AcceptAction::Serve,
{
    match event {
        AcceptEvent::Accepted(ok) => if ok {
            AcceptAction::ReadLocalAddr
        } else {
            AcceptAction::BackOff
        },
        AcceptEvent::LocalAddr(ok) => if ok {
            AcceptAction::SetNoDelay
        } else {
            AcceptAction::BackOff
        },
        AcceptEvent::NoDelay(_) => AcceptAction::Serve,
    }
}

/// What a path names behind a prefix: what stands there, decoded, without the slashes in front; nothing
/// where it ends in a slash; and nothing is named behind a prefix that the path does not begin with.
pub proof fn law_named_behind_prefix(
    prefix: Seq<char>,
    slashes: Seq<char>,
    rest: Seq<char>,
    path: Seq<char>,
)
    requires
        forall|i: int| 0 <= i < slashes.len() ==> #[trigger] slashes[i] == '/',
        rest.len() > 0,
        rest[0] != '/',
        !prefix.is_prefix_of(path),
    ensures
        rest.last() != '/' ==> sub_path(prefix + slashes + rest, prefix) == Some(
            percent_decoded_text(rest),
        ),
        rest.last() == '/' ==> sub_path(prefix + slashes + rest, prefix) == Some(
            Seq::<char>::empty(),
        ),
        sub_path(prefix + slashes, prefix) == Some(Seq::<char>::empty()),
        sub_path(path, prefix) is None,
{
    let n = prefix.len() as int;
    let full = prefix + slashes + rest;
    assert(prefix =~= full.subrange(0, n));
    let tail = full.skip(n);
    assert(tail =~= slashes + rest);
    assert forall|i: int| 0 <= i < slashes.len() implies equals('/')(#[trigger] tail[i]) by {
        assert(tail[i] == slashes[i]);
    }
    assert(tail[slashes.len() as int] == rest[0]);
    lemma_leading(tail, equals('/'), slashes.len() as int);
    assert(trim_front(tail, equals('/')) =~= rest);
    let bare = prefix + slashes;
    assert(prefix =~= bare.subrange(0, n));
    assert(bare.skip(n) =~= slashes);
    lemma_leading(slashes, equals('/'), slashes.len() as int);
    let none = trim_front(slashes, equals('/'));
    assert(none =~= Seq::<char>::empty());
    law_plain_reads_as_itself(none);
}

/// A GET or HEAD below `/files/` or `/pull/` is for the file that its path names there; another
/// method is for no file; and every other path is for the router.
pub proof fn law_routes(path: Seq<char>, method: Method, route: Route)
    requires
        is_route(path, method, route),
    ensures
        !"/files/"@.is_prefix_of(path) && !"/pull/"@.is_prefix_of(path) ==> route is Router,
        ("/files/"@.is_prefix_of(path) || "/pull/"@.is_prefix_of(path)) && method is Other
            ==> route is NoFile,
        "/files/"@.is_prefix_of(path) && !(method is Other) ==> (route matches Route::Files(sub)
            && sub_path(path, "/files/"@) == Some(sub@)),
        "/pull/"@.is_prefix_of(path) && !(method is Other) ==> (route matches Route::Pull(sub)
            && sub_path(path, "/pull/"@) == Some(sub@)),
{
    reveal_strlit("/files/");
    reveal_strlit("/pull/");
    if "/files/"@.is_prefix_of(path) && "/pull/"@.is_prefix_of(path) {
        assert(path.subrange(0, 7)[1] == path.subrange(0, 6)[1]);
    }
}

/// A page is added to every error that has no body of its own, and to nothing else; never to what
/// answers a HEAD.
pub proof fn law_error_pages(status: u16, has_body: bool)
    ensures
        wants_error_page(false, Some(status), false) <==> status / 100 == 4 || status / 100 == 5,
        !wants_error_page(true, Some(status), has_body),
        !wants_error_page(false, Some(status), true),
        !wants_error_page(false, None, has_body),
{
}

} // verus!

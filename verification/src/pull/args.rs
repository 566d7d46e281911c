//! The command line of `lanfile get` and the URL in it.
use crate::percent::{law_plain_reads_as_itself, percent_decode, percent_decoded_text};
use crate::pull::error::Error;
use crate::text::{
    after, before, chars_of, cut_after, cut_before, equals, law_cut_at, leading, lemma_leading,
    lemma_leading_run, lemma_trailing_run, lemma_trailing_run_bound, starts_with, string_of,
    trailing_run, trim_both, trim_char, trim_char_front, trim_front,
};
use vstd::prelude::*;
use vstd::slice::slice_subrange;

verus! {

/// What a remote path is known to be.
#[derive(Debug, Clone, Copy, PartialEq, Eq, Structural)]
pub enum Kind {
    /// Nothing is known: a directory is tried first, then a file.
    Auto,
    /// A directory.
    Dir,
    /// A file.
    File,
}

/// A command line that was understood.
pub struct Parsed {
    /// The URL of the host, `http://<host>`.
    pub base: String,
    /// The host and its port.
    pub host: String,
    /// The remote path, without slashes at its ends; empty for the root.
    pub remote: String,
    /// What the remote path is known to be.
    pub kind: Kind,
    /// The local directory.
    pub local: String,
    /// Whether the content of a directory goes into the local directory itself.
    pub flat: bool,
}

/// A command line that was understood, as values.
pub struct ParsedView {
    /// The URL of the host.
    pub base: Seq<char>,
    /// The host and its port.
    pub host: Seq<char>,
    /// The remote path.
    pub remote: Seq<char>,
    /// What the remote path is known to be.
    pub kind: Kind,
    /// The local directory.
    pub local: Seq<char>,
    /// Whether the content of a directory goes into the local directory itself.
    pub flat: bool,
}

impl Parsed {
    /// The command line, as values.
    pub open spec fn view(&self) -> ParsedView {
        ParsedView {
            base: self.base@,
            host: self.host@,
            remote: self.remote@,
            kind: self.kind,
            local: self.local@,
            flat: self.flat,
        }
    }
}

/// Texts, as values.
pub open spec fn texts(args: Seq<String>) -> Seq<Seq<char>> {
    args.map_values(|s: String| s@)
}

/// What follows `head` in `text`; none where `text` does not begin with it.
pub open spec fn stripped(text: Seq<char>, head: Seq<char>) -> Option<Seq<char>> {
    if head.is_prefix_of(text) {
        Some(text.skip(head.len() as int))
    } else {
        None
    }
}

/// What follows one of two heads in `text`; none where that is nothing.
pub open spec fn stripped_of_either(
    text: Seq<char>,
    first: Seq<char>,
    second: Seq<char>,
) -> Option<Seq<char>> {
    let sub = if stripped(text, first) is Some {
        stripped(text, first)
    } else {
        stripped(text, second)
    };
    if sub is Some && sub->0.len() > 0 {
        sub
    } else {
        None
    }
}

/// A remote path that a URL names, and what it is known to be.
pub struct DirectView {
    /// The remote path.
    pub remote: Seq<char>,
    /// What it is known to be.
    pub kind: Kind,
}

/// The remote path that a URL with this path and fragment names; none where it names the host only.
/// A link of the server without a name behind it is a path like any other.
pub open spec fn direct(path: Seq<char>, fragment: Seq<char>) -> Option<DirectView> {
    let file = stripped_of_either(path, "files/"@, "pull/"@);
    let dir = stripped_of_either(path, "api/zip/"@, "api/list/"@);
    let inner = fragment_part(fragment);
    let outer = trim_both(path, equals('/'));
    if file is Some {
        Some(DirectView { remote: percent_decoded_text(file->0), kind: Kind::File })
    } else if dir is Some {
        Some(DirectView { remote: percent_decoded_text(dir->0), kind: Kind::Dir })
    } else if path.len() == 0 {
        if inner.len() > 0 {
            Some(DirectView { remote: percent_decoded_text(inner), kind: Kind::Dir })
        } else {
            None
        }
    } else if outer.len() > 0 {
        Some(DirectView { remote: percent_decoded_text(outer), kind: Kind::Auto })
    } else {
        None
    }
}

/// The part of a fragment that can name a remote path: without slashes at its front, and up to the
/// first `?`.
pub open spec fn fragment_part(fragment: Seq<char>) -> Seq<char> {
    before(trim_front(fragment, equals('/')), '?')
}

/// The characters that can stand in a host.
pub open spec fn in_host() -> spec_fn(char) -> bool {
    |c: char| c != '/' && c != '?' && c != '#'
}

/// A URL that was understood.
pub struct SourceView {
    /// The URL of the host.
    pub base: Seq<char>,
    /// The host and its port.
    pub host: Seq<char>,
    /// The remote path that the URL names.
    pub direct: Option<DirectView>,
}

/// What a URL stands for; none where it does not begin with `http://`. The host ends before the
/// first `/`, `?` or `#`; the fragment follows the first `#`, and the path ends before it and
/// before the first `?` there.
pub open spec fn source(url: Seq<char>) -> Option<SourceView> {
    match stripped(url, "http://"@) {
        None => None,
        Some(rest) => {
            let host_end = leading(rest, in_host()) as int;
            let host = rest.take(host_end);
            let tail = rest.skip(host_end);
            let behind = match stripped(tail, "/"@) {
                Some(behind) => behind,
                None => tail,
            };
            Some(
                SourceView {
                    base: "http://"@ + host,
                    host,
                    direct: direct(before(before(behind, '#'), '?'), after(behind, '#')),
                },
            )
        },
    }
}

/// Whether a text is the flag that may stand last.
pub open spec fn is_flat_flag(text: Seq<char>) -> bool {
    text == "--flat"@ || text == "-f"@
}

/// Whether the last argument is the flag.
pub open spec fn ends_flat(args: Seq<Seq<char>>) -> bool {
    args.len() > 0 && is_flat_flag(args.last())
}

/// The arguments without the flag.
pub open spec fn positions(args: Seq<Seq<char>>) -> Seq<Seq<char>> {
    if ends_flat(args) {
        args.drop_last()
    } else {
        args
    }
}

/// The message on how `lanfile get` is used.
pub open spec fn usage() -> Seq<char> {
    "用法: lanfile get <base_url|直链> [<remote_dir>] [local_dir] [--flat]"@
}

/// The message on a URL that is not understood.
pub open spec fn not_http() -> Seq<char> {
    "base_url 必须以 http:// 开头（不支持 https）"@
}

/// Where things are put when nothing is said of it.
pub open spec fn default_local(remote: Seq<char>) -> Seq<char> {
    if remote.len() == 0 {
        "lanfile-root"@
    } else {
        "."@
    }
}

/// What a command line stands for, or the message that says why it is not understood.
pub open spec fn parsed(args: Seq<Seq<char>>) -> Result<ParsedView, Seq<char>> {
    if args.len() == 0 {
        Err(usage())
    } else {
        match source(args[0]) {
            None => Err(not_http()),
            Some(src) => {
                let pos = positions(args.drop_first());
                let flat = ends_flat(args.drop_first());
                match src.direct {
                    Some(d) => if pos.len() > 1 {
                        Err(usage())
                    } else {
                        Ok(
                            ParsedView {
                                base: src.base,
                                host: src.host,
                                remote: trim_both(d.remote, equals('/')),
                                kind: d.kind,
                                local: if pos.len() == 1 {
                                    pos[0]
                                } else {
                                    default_local(trim_both(d.remote, equals('/')))
                                },
                                flat,
                            },
                        )
                    },
                    None => if pos.len() > 2 {
                        Err(usage())
                    } else {
                        let remote = if pos.len() >= 1 {
                            trim_both(pos[0], equals('/'))
                        } else {
                            Seq::empty()
                        };
                        Ok(
                            ParsedView {
                                base: src.base,
                                host: src.host,
                                remote,
                                kind: Kind::Auto,
                                local: if pos.len() == 2 {
                                    pos[1]
                                } else {
                                    default_local(remote)
                                },
                                flat,
                            },
                        )
                    },
                }
            },
        }
    }
}

/// A remote path that a URL names, and what it is known to be.
struct Direct {
    remote: String,
    kind: Kind,
}

/// A URL that was understood.
struct Source {
    base: String,
    host: String,
    direct: Option<Direct>,
}

spec fn direct_view(d: Option<Direct>) -> Option<DirectView> {
    match d {
        Some(d) => Some(DirectView { remote: d.remote@, kind: d.kind }),
        None => None,
    }
}

/// What follows `head` in `text`.
fn strip<'a>(text: &'a [char], head: &str) -> (r: Option<&'a [char]>)
    ensures
        r is Some <==> stripped(text@, head@) is Some,
        r matches Some(rest) ==> stripped(text@, head@) == Some(rest@),
{
    if starts_with(text, head) {
        let n = chars_of(head).len();
        let rest = slice_subrange(text, n, text.len());
        assert(rest@ =~= text@.skip(head@.len() as int));
        Some(rest)
    } else {
        None
    }
}

/// What follows one of two heads in `text`, where that is something.
fn strip_either<'a>(text: &'a [char], first: &str, second: &str) -> (r: Option<&'a [char]>)
    ensures
        r is Some <==> stripped_of_either(text@, first@, second@) is Some,
        r matches Some(rest) ==> stripped_of_either(text@, first@, second@) == Some(rest@),
{
    let sub = match strip(text, first) {
        Some(rest) => Some(rest),
        None => strip(text, second),
    };
    match sub {
        Some(rest) => if rest.len() > 0 {
            Some(rest)
        } else {
            None
        },
        None => None,
    }
}

fn decoded(part: &[char]) -> (r: String)
    ensures
        r@ == percent_decoded_text(part@),
        part@.len() > 0 ==> r@.len() > 0,
{
    let text = string_of(part);
    percent_decode(text.as_str())
}

/// The remote path that a URL with this path and fragment names. It is never empty.
fn direct_of(path: &[char], fragment: &[char]) -> (r: Option<Direct>)
    ensures
        direct_view(r) == direct(path@, fragment@),
        r matches Some(d) ==> d.remote@.len() > 0,
{
    if let Some(part) = strip_either(path, "files/", "pull/") {
        return Some(Direct { remote: decoded(part), kind: Kind::File });
    }
    if let Some(part) = strip_either(path, "api/zip/", "api/list/") {
        return Some(Direct { remote: decoded(part), kind: Kind::Dir });
    }
    if path.len() == 0 {
        let part = cut_before(trim_char_front(fragment, '/'), '?');
        if part.len() > 0 {
            return Some(Direct { remote: decoded(part), kind: Kind::Dir });
        }
        return None;
    }
    let part = trim_char(path, '/');
    if part.len() == 0 {
        return None;
    }
    Some(Direct { remote: decoded(part), kind: Kind::Auto })
}

/// Takes a URL apart.
fn parse_source(url: &str) -> (r: Result<Source, Error>)
    ensures
        r is Ok <==> source(url@) is Some,
        r matches Ok(src) ==> source(url@) == Some(
            SourceView {
                base: src.base@,
                host: src.host@,
                direct: direct_view(src.direct),
            },
        ),
        r matches Err(e) ==> e matches Error::Malformed(what) && what@ == not_http(),
{
    let chars = chars_of(url);
    let rest = match strip(chars.as_slice(), "http://") {
        None => {
            return Err(Error::Malformed("base_url 必须以 http:// 开头（不支持 https）"));
        },
        Some(rest) => rest,
    };
    let mut host_end: usize = 0;
    while host_end < rest.len() && rest[host_end] != '/' && rest[host_end] != '?' && rest[host_end]
        != '#'
        invariant
            0 <= host_end <= rest@.len(),
            forall|k: int| 0 <= k < host_end ==> in_host()(#[trigger] rest@[k]),
        decreases rest@.len() - host_end,
    {
        host_end = host_end + 1;
    }
    proof {
        lemma_leading(rest@, in_host(), host_end as int);
    }
    let host_chars = slice_subrange(rest, 0, host_end);
    let tail = slice_subrange(rest, host_end, rest.len());
    assert(host_chars@ =~= rest@.take(host_end as int));
    assert(tail@ =~= rest@.skip(host_end as int));
    let behind = match strip(tail, "/") {
        Some(behind) => behind,
        None => tail,
    };
    let fragment = cut_after(behind, '#');
    let path = cut_before(cut_before(behind, '#'), '?');
    let host = string_of(host_chars);
    let mut base = "http://".to_string();
    base.append(host.as_str());
    Ok(Source { base, host, direct: direct_of(path, fragment) })
}

/// Takes the flag off the end of the arguments, where it stands there.
fn parse_trailing(args: &[String]) -> (r: (&[String], bool))
    ensures
        texts(r.0@) == positions(texts(args@)),
        r.1 == ends_flat(texts(args@)),
{
    let n = args.len();
    if n == 0 {
        return (args, false);
    }
    let last = args[n - 1].as_str();
    assert(texts(args@).last() == last@);
    if crate::text::same_str(last, "--flat") || crate::text::same_str(last, "-f") {
        let rest = slice_subrange(args, 0, n - 1);
        assert(texts(rest@) =~= texts(args@).drop_last());
        (rest, true)
    } else {
        (args, false)
    }
}

/// Where things are put when nothing is said of it.
fn local_or_default(local: Option<String>, remote: &str) -> (r: String)
    ensures
        r@ == (match local {
            Some(l) => l@,
            None => default_local(remote@),
        }),
{
    match local {
        Some(local) => local,
        None => if chars_of(remote).len() == 0 {
            "lanfile-root".to_string()
        } else {
            ".".to_string()
        },
    }
}

/// Whether a text neither begins nor ends with a slash.
pub open spec fn no_slash_at_ends(s: Seq<char>) -> bool {
    s.len() == 0 || (s[0] != '/' && s.last() != '/')
}

/// What is left of a text without the slashes at its ends has none there, and is not cut again.
proof fn lemma_trimmed_ends(s: Seq<char>)
    ensures
        no_slash_at_ends(trim_both(s, equals('/'))),
        trim_both(trim_both(s, equals('/')), equals('/')) == trim_both(s, equals('/')),
{
    let front = trim_front(s, equals('/'));
    lemma_leading_run(s, equals('/'));
    lemma_trailing_run_bound(front, equals('/'));
    let both = trim_both(s, equals('/'));
    if both.len() > 0 {
        let n = leading(s, equals('/')) as int;
        assert(both[0] == s[n]);
        assert(!equals('/')(s[n]));
        assert(both.last() == front[front.len() - trailing_run(front, equals('/')) - 1]);
    }
    lemma_leading(both, equals('/'), 0);
    assert(trim_front(both, equals('/')) =~= both);
    lemma_trailing_run(both, equals('/'), 0);
    assert(trim_both(both, equals('/')) =~= both);
}

/// The remote path of a command line has no slash at its ends.
proof fn lemma_remote_ends(args: Seq<Seq<char>>)
    ensures
        parsed(args) matches Ok(p) ==> no_slash_at_ends(p.remote),
{
    if parsed(args) is Ok {
        let src = source(args[0])->0;
        if src.direct is Some {
            lemma_trimmed_ends(src.direct->0.remote);
        } else {
            let pos = positions(args.drop_first());
            if pos.len() >= 1 {
                lemma_trimmed_ends(pos[0]);
            }
        }
    }
}

/// Takes a command line apart: `<base_url|direct link> [remote_dir] [local_dir] [--flat]`.
pub fn parse_args(args: &[String]) -> (r: Result<Parsed, Error>)
    ensures
        r is Ok <==> parsed(texts(args@)) is Ok,
        r matches Ok(p) ==> parsed(texts(args@)) == Ok::<ParsedView, Seq<char>>(p.view()),
        r matches Err(e) ==> e matches Error::Malformed(what) && parsed(texts(args@)) == Err::<
            ParsedView,
            Seq<char>,
        >(what@),
        r matches Ok(p) ==> no_slash_at_ends(p.remote@),
{
    proof {
        lemma_remote_ends(texts(args@));
    }
    let usage = "用法: lanfile get <base_url|直链> [<remote_dir>] [local_dir] [--flat]";
    if args.len() == 0 {
        return Err(Error::Malformed(usage));
    }
    assert(texts(args@)[0] == args@[0]@);
    let src = match parse_source(args[0].as_str()) {
        Ok(src) => src,
        Err(error) => {
            return Err(error);
        },
    };
    let behind = slice_subrange(args, 1, args.len());
    assert(texts(behind@) =~= texts(args@).drop_first());
    let (pos, flat) = parse_trailing(behind);
    let ghost p = positions(texts(args@).drop_first());
    assert forall|i: int| 0 <= i < pos@.len() implies p[i] == (#[trigger] pos@[i])@ by {
        assert(texts(pos@)[i] == pos@[i]@);
    }
    assert(p.len() == pos@.len());
    let (remote, kind, local) = match src.direct {
        Some(direct) => {
            if pos.len() > 1 {
                return Err(Error::Malformed(usage));
            }
            let local = if pos.len() == 1 {
                Some(pos[0].clone())
            } else {
                None
            };
            let chars = chars_of(direct.remote.as_str());
            (string_of(trim_char(chars.as_slice(), '/')), direct.kind, local)
        },
        None => {
            if pos.len() > 2 {
                return Err(Error::Malformed(usage));
            }
            let remote = if pos.len() >= 1 {
                let chars = chars_of(pos[0].as_str());
                string_of(trim_char(chars.as_slice(), '/'))
            } else {
                let none = String::new();
                assert(none@ =~= Seq::<char>::empty());
                none
            };
            let local = if pos.len() == 2 {
                Some(pos[1].clone())
            } else {
                None
            };
            (remote, Kind::Auto, local)
        },
    };
    let local = local_or_default(local, remote.as_str());
    Ok(Parsed { base: src.base, host: src.host, remote, kind, local, flat })
}

/// A text in which a character does not occur is not cut at it.
proof fn lemma_uncut(s: Seq<char>, c: char)
    requires
        !s.contains(c),
    ensures
        before(s, c) == s,
        after(s, c) == Seq::<char>::empty(),
{
    assert forall|k: int| 0 <= k < s.len() implies crate::text::differs(c)(#[trigger] s[k]) by {
        if s[k] == c {
            assert(s.contains(c));
        }
    }
    lemma_leading(s, crate::text::differs(c), s.len() as int);
    assert(before(s, c) =~= s);
}

/// The URL of a host followed by a path.
pub open spec fn url(host: Seq<char>, path: Seq<char>) -> Seq<char> {
    "http://"@ + host + path
}

/// A URL whose path is none of the links of the server names that path, as if it had been given
/// behind the host: `http://h/.pi` is `http://h .pi`, whatever arguments follow. A path of slashes
/// alone names nothing, so that an argument behind it would be taken for the remote path.
pub proof fn law_path_is_remote(host: Seq<char>, sub: Seq<char>, more: Seq<Seq<char>>)
    requires
        forall|i: int| 0 <= i < host.len() ==> in_host()(#[trigger] host[i]),
        sub.len() > 0,
        !sub.contains('?') && !sub.contains('#') && !sub.contains('%'),
        stripped_of_either(sub, "files/"@, "pull/"@) is None,
        stripped_of_either(sub, "api/zip/"@, "api/list/"@) is None,
        more.len() == 0 ==> !is_flat_flag(sub),
        trim_both(sub, equals('/')).len() > 0 || positions(more).len() == 0,
    ensures
        parsed(seq![url(host, "/"@ + sub)] + more) == parsed(
            seq![url(host, Seq::empty()), sub] + more,
        ),
{
    reveal_strlit("/");
    let http = "http://"@;
    // The URL with the path.
    let long = url(host, "/"@ + sub);
    let rest = host + ("/"@ + sub);
    assert(long =~= http + rest);
    assert(http =~= long.subrange(0, http.len() as int));
    assert(long.skip(http.len() as int) =~= rest);
    lemma_leading(rest, in_host(), host.len() as int);
    assert(rest.take(host.len() as int) =~= host);
    let tail = rest.skip(host.len() as int);
    assert(tail =~= "/"@ + sub);
    assert("/"@ =~= tail.subrange(0, 1));
    assert(tail.skip(1) =~= sub);
    lemma_uncut(sub, '#');
    lemma_uncut(sub, '?');
    let outer = trim_both(sub, equals('/'));
    assert(!outer.contains('%')) by {
        if outer.contains('%') {
            let i = choose|i: int| 0 <= i < outer.len() && outer[i] == '%';
            lemma_trim_both_within(sub, i);
        }
    }
    law_plain_reads_as_itself(outer);
    lemma_trimmed_ends(sub);
    // The URL without.
    let short = url(host, Seq::empty());
    assert(short =~= http + host);
    assert(http =~= short.subrange(0, http.len() as int));
    assert(short.skip(http.len() as int) =~= host);
    lemma_leading(host, in_host(), host.len() as int);
    assert(host.take(host.len() as int) =~= host);
    let none = host.skip(host.len() as int);
    assert(none =~= Seq::<char>::empty());
    assert(stripped(none, "/"@) is None);
    lemma_uncut(none, '#');
    lemma_uncut(none, '?');
    lemma_nothing_direct();
    // The arguments.
    let one = seq![long] + more;
    let two = seq![short, sub] + more;
    assert(one.drop_first() =~= more);
    assert(two.drop_first() =~= seq![sub] + more);
    assert(two.drop_first().last() == if more.len() == 0 {
        sub
    } else {
        more.last()
    });
    assert(positions(two.drop_first()) =~= seq![sub] + positions(more));
    if outer.len() == 0 {
        assert(outer =~= Seq::<char>::empty());
    }
}

/// A URL names the host only exactly where its path holds nothing but slashes and, where the path is
/// empty, no part of its fragment names anything.
pub proof fn law_host_only(path: Seq<char>, fragment: Seq<char>)
    ensures
        direct(path, fragment) is None <==> (forall|i: int|
            0 <= i < path.len() ==> #[trigger] path[i] == '/') && (path.len() > 0 || fragment_part(
            fragment,
        ).len() == 0),
{
    reveal_strlit("files/");
    reveal_strlit("pull/");
    reveal_strlit("api/zip/");
    reveal_strlit("api/list/");
    let slash = equals('/');
    lemma_leading_run(path, slash);
    let n = leading(path, slash) as int;
    let front = trim_front(path, slash);
    lemma_trailing_run_bound(front, slash);
    let outer = trim_both(path, slash);
    if forall|i: int| 0 <= i < path.len() ==> #[trigger] path[i] == '/' {
        lemma_leading(path, slash, path.len() as int);
        assert(outer.len() == 0);
        if path.len() > 0 {
            lemma_other_head(path, "files/"@);
            lemma_other_head(path, "pull/"@);
            lemma_other_head(path, "api/zip/"@);
            lemma_other_head(path, "api/list/"@);
        }
    } else {
        let i = choose|i: int| 0 <= i < path.len() && #[trigger] path[i] != '/';
        assert(n <= i) by {
            if i < n {
                assert(slash(path[i]));
            }
        }
        assert(front[i - n] == path[i]);
        assert(outer.len() > 0) by {
            if trailing_run(front, slash) == front.len() {
                assert(slash(front[i - n]));
            }
        }
    }
}

/// A text that begins otherwise than a head does not begin with it.
proof fn lemma_other_head(text: Seq<char>, head: Seq<char>)
    requires
        text.len() > 0,
        head.len() > 0,
        text[0] != head[0],
    ensures
        stripped(text, head) is None,
{
    if head.is_prefix_of(text) {
        assert(text.subrange(0, head.len() as int)[0] == text[0]);
    }
}

/// A URL that names nothing behind its host.
proof fn lemma_nothing_direct()
    ensures
        direct(Seq::empty(), Seq::empty()) is None,
{
    let none = Seq::<char>::empty();
    reveal_strlit("files/");
    reveal_strlit("pull/");
    reveal_strlit("api/zip/");
    reveal_strlit("api/list/");
    assert(trim_front(none, equals('/')) =~= none);
    lemma_uncut(none, '?');
}

/// What is left of a text without the slashes at its ends is a part of it.
proof fn lemma_trim_both_within(s: Seq<char>, i: int)
    requires
        0 <= i < trim_both(s, equals('/')).len(),
    ensures
        s.contains(trim_both(s, equals('/'))[i]),
{
    let n = leading(s, equals('/')) as int;
    lemma_leading_run(s, equals('/'));
    let front = s.skip(n);
    lemma_trailing_run_bound(front, equals('/'));
    assert(trim_both(s, equals('/'))[i] == s[n + i]);
}

/// A query: nothing, or what follows a question mark, up to the fragment.
pub open spec fn is_query(text: Seq<char>) -> bool {
    text.len() == 0 || (text[0] == '?' && !text.contains('#'))
}

/// A fragment with its sign: nothing, or what follows a number sign.
pub open spec fn is_fragment(text: Seq<char>) -> bool {
    text.len() == 0 || text[0] == '#'
}

/// The host of a URL ends before the first slash, question mark or number sign.
pub open spec fn is_host(host: Seq<char>) -> bool {
    !host.contains('/') && !host.contains('?') && !host.contains('#')
}

/// What follows the host of a URL is cut into its parts.
proof fn lemma_parts(path: Seq<char>, query: Seq<char>, fragment: Seq<char>)
    requires
        !path.contains('?') && !path.contains('#'),
        is_query(query),
        is_fragment(fragment),
    ensures
        before(before(path + query + fragment, '#'), '?') == path,
        after(path + query + fragment, '#') == if fragment.len() == 0 {
            fragment
        } else {
            fragment.drop_first()
        },
{
    let behind = path + query + fragment;
    let front = path + query;
    assert(!front.contains('#')) by {
        if front.contains('#') {
            let i = choose|i: int| 0 <= i < front.len() && front[i] == '#';
            if i < path.len() {
                assert(path.contains(path[i]));
            } else {
                assert(query.contains(query[i - path.len()]));
            }
        }
    }
    if fragment.len() == 0 {
        assert(behind =~= front);
        lemma_uncut(front, '#');
        assert(fragment =~= Seq::<char>::empty());
    } else {
        assert(behind =~= front.push('#') + fragment.drop_first());
        law_cut_at(front, '#', fragment.drop_first());
    }
    if query.len() == 0 {
        assert(front =~= path);
        lemma_uncut(path, '?');
    } else {
        assert(front =~= path.push('?') + query.drop_first());
        law_cut_at(path, '?', query.drop_first());
    }
}

/// The host of a URL, and what follows it.
proof fn lemma_host(host: Seq<char>, behind: Seq<char>)
    requires
        is_host(host),
    ensures
        source(url(host, "/"@ + behind)) == Some(
            SourceView {
                base: "http://"@ + host,
                host,
                direct: direct(before(before(behind, '#'), '?'), after(behind, '#')),
            },
        ),
{
    reveal_strlit("/");
    let http = "http://"@;
    let end = "/"@ + behind;
    let whole = url(host, end);
    let rest = host + end;
    assert(whole =~= http + rest);
    assert(http =~= whole.subrange(0, http.len() as int));
    assert(whole.skip(http.len() as int) =~= rest);
    assert forall|i: int| 0 <= i < host.len() implies in_host()(#[trigger] rest[i]) by {
        assert(rest[i] == host[i]);
        assert(host.contains(host[i]));
    }
    assert(rest[host.len() as int] == '/');
    lemma_leading(rest, in_host(), host.len() as int);
    assert(rest.take(host.len() as int) =~= host);
    let tail = rest.skip(host.len() as int);
    assert(tail =~= end);
    assert("/"@ =~= tail.subrange(0, 1));
    assert(tail.skip(1) =~= behind);
}

/// The source in a URL that is put together from its parts.
proof fn lemma_source(host: Seq<char>, path: Seq<char>, query: Seq<char>, fragment: Seq<char>)
    requires
        is_host(host),
        !path.contains('?') && !path.contains('#'),
        is_query(query),
        is_fragment(fragment),
    ensures
        source(url(host, "/"@ + path + query + fragment)) == Some(
            SourceView {
                base: "http://"@ + host,
                host,
                direct: direct(
                    path,
                    if fragment.len() == 0 {
                        fragment
                    } else {
                        fragment.drop_first()
                    },
                ),
            },
        ),
{
    let behind = path + query + fragment;
    lemma_parts(path, query, fragment);
    lemma_host(host, behind);
    assert("/"@ + path + query + fragment =~= "/"@ + behind);
}

/// A head that stands in front of a text comes off it, and another of the heads does not.
proof fn lemma_heads(sub: Seq<char>)
    requires
        sub.len() > 0,
    ensures
        stripped_of_either("files/"@ + sub, "files/"@, "pull/"@) == Some(sub),
        stripped_of_either("pull/"@ + sub, "files/"@, "pull/"@) == Some(sub),
        stripped_of_either("api/zip/"@ + sub, "files/"@, "pull/"@) is None,
        stripped_of_either("api/list/"@ + sub, "files/"@, "pull/"@) is None,
        stripped_of_either("api/zip/"@ + sub, "api/zip/"@, "api/list/"@) == Some(sub),
        stripped_of_either("api/list/"@ + sub, "api/zip/"@, "api/list/"@) == Some(sub),
{
    reveal_strlit("files/");
    reveal_strlit("pull/");
    reveal_strlit("api/zip/");
    reveal_strlit("api/list/");
    let files = "files/"@ + sub;
    let pull = "pull/"@ + sub;
    let zip = "api/zip/"@ + sub;
    let list = "api/list/"@ + sub;
    assert(files.subrange(0, 6) =~= "files/"@);
    assert(files.skip(6) =~= sub);
    assert(pull.subrange(0, 5) =~= "pull/"@);
    assert(pull.skip(5) =~= sub);
    assert(zip.subrange(0, 8) =~= "api/zip/"@);
    assert(zip.skip(8) =~= sub);
    assert(list.subrange(0, 9) =~= "api/list/"@);
    assert(list.skip(9) =~= sub);
    lemma_other_head(pull, "files/"@);
    lemma_other_head(zip, "files/"@);
    lemma_other_head(zip, "pull/"@);
    lemma_other_head(list, "files/"@);
    lemma_other_head(list, "pull/"@);
    if "api/zip/"@.is_prefix_of(list) {
        assert(list.subrange(0, 8)[4] == list[4]);
    }
}

/// A parsed command line for a link: what it names, and where it goes. A directory may follow the
/// link, and else the working directory is taken.
pub open spec fn parsed_link(
    args: Seq<Seq<char>>,
    host: Seq<char>,
    sub: Seq<char>,
    kind: Kind,
    more: Seq<Seq<char>>,
) -> bool {
    let remote = trim_both(percent_decoded_text(sub), equals('/'));
    if more.len() == 0 {
        parsed(args) == Ok::<ParsedView, Seq<char>>(
            ParsedView {
                base: "http://"@ + host,
                host,
                remote,
                kind,
                local: if remote.len() == 0 {
                    "lanfile-root"@
                } else {
                    "."@
                },
                flat: false,
            },
        )
    } else if more.len() == 1 {
        parsed(args) == Ok::<ParsedView, Seq<char>>(
            ParsedView { base: "http://"@ + host, host, remote, kind, local: more[0], flat: false },
        )
    } else {
        parsed(args) is Err
    }
}

/// Whether a head with something behind it is a link to that, whatever the fragment is.
#[verifier::opaque]
spec fn reads_as(head: Seq<char>, sub: Seq<char>, kind: Kind) -> bool {
    forall|f: Seq<char>| #[trigger]
        direct(head + sub, f) == Some(DirectView { remote: percent_decoded_text(sub), kind })
}

proof fn lemma_link_heads(sub: Seq<char>)
    requires
        sub.len() > 0,
    ensures
        reads_as("files/"@, sub, Kind::File),
        reads_as("pull/"@, sub, Kind::File),
        reads_as("api/zip/"@, sub, Kind::Dir),
        reads_as("api/list/"@, sub, Kind::Dir),
{
    lemma_heads(sub);
    reveal(reads_as);
}

proof fn lemma_link_texts()
    ensures
        "/files/"@ == "/"@ + "files/"@,
        "/pull/"@ == "/"@ + "pull/"@,
        "/api/zip/"@ == "/"@ + "api/zip/"@,
        "/api/list/"@ == "/"@ + "api/list/"@,
        !"files/"@.contains('?') && !"files/"@.contains('#'),
        !"pull/"@.contains('?') && !"pull/"@.contains('#'),
        !"api/zip/"@.contains('?') && !"api/zip/"@.contains('#'),
        !"api/list/"@.contains('?') && !"api/list/"@.contains('#'),
{
    reveal_strlit("/");
    reveal_strlit("files/");
    reveal_strlit("pull/");
    reveal_strlit("api/zip/");
    reveal_strlit("api/list/");
    reveal_strlit("/files/");
    reveal_strlit("/pull/");
    reveal_strlit("/api/zip/");
    reveal_strlit("/api/list/");
    assert("/files/"@ =~= "/"@ + "files/"@);
    assert("/pull/"@ =~= "/"@ + "pull/"@);
    assert("/api/zip/"@ =~= "/"@ + "api/zip/"@);
    assert("/api/list/"@ =~= "/"@ + "api/list/"@);
}

proof fn lemma_one_link(
    host: Seq<char>,
    link: Seq<char>,
    head: Seq<char>,
    sub: Seq<char>,
    query: Seq<char>,
    fragment: Seq<char>,
    kind: Kind,
    more: Seq<Seq<char>>,
)
    requires
        is_host(host),
        link == "/"@ + head,
        !head.contains('?') && !head.contains('#'),
        !sub.contains('?') && !sub.contains('#'),
        is_query(query),
        is_fragment(fragment),
        more.len() == 0 || (more.last() != "--flat"@ && more.last() != "-f"@),
        reads_as(head, sub, kind),
    ensures
        parsed_link(
            seq![url(host, link + sub + query + fragment)] + more,
            host,
            sub,
            kind,
            more,
        ),
{
    reveal(reads_as);
    lemma_no_marks(head, sub);
    lemma_source(host, head + sub, query, fragment);
    assert("/"@ + (head + sub) + query + fragment =~= link + sub + query + fragment);
    assert((seq![url(host, link + sub + query + fragment)] + more).drop_first() =~= more);
}

/// A link to a file names the file that stands in it, without the query and the fragment: below
/// `files/` as a browser asks for it, and below `pull/` as the client does.
pub proof fn law_file_links(
    host: Seq<char>,
    sub: Seq<char>,
    query: Seq<char>,
    fragment: Seq<char>,
    more: Seq<Seq<char>>,
)
    requires
        is_host(host),
        sub.len() > 0,
        !sub.contains('?') && !sub.contains('#'),
        is_query(query),
        is_fragment(fragment),
        more.len() == 0 || (more.last() != "--flat"@ && more.last() != "-f"@),
    ensures
        parsed_link(
            seq![url(host, "/files/"@ + sub + query + fragment)] + more,
            host,
            sub,
            Kind::File,
            more,
        ),
        parsed_link(
            seq![url(host, "/pull/"@ + sub + query + fragment)] + more,
            host,
            sub,
            Kind::File,
            more,
        ),
{
    lemma_link_texts();
    lemma_link_heads(sub);
    lemma_one_link(host, "/files/"@, "files/"@, sub, query, fragment, Kind::File, more);
    lemma_one_link(host, "/pull/"@, "pull/"@, sub, query, fragment, Kind::File, more);
}

proof fn lemma_no_marks(head: Seq<char>, sub: Seq<char>)
    requires
        !head.contains('?') && !head.contains('#'),
        !sub.contains('?') && !sub.contains('#'),
    ensures
        !(head + sub).contains('?') && !(head + sub).contains('#'),
{
    let all = head + sub;
    assert forall|i: int| 0 <= i < all.len() implies all[i] != '?' && all[i] != '#' by {
        if i < head.len() {
            assert(head.contains(head[i]));
        } else {
            assert(sub.contains(sub[i - head.len()]));
        }
    }
}

/// A link to a directory names the directory that stands in it, without the query and the fragment:
/// below `api/zip/` for its archive, and below `api/list/` for its listing.
pub proof fn law_directory_links(
    host: Seq<char>,
    sub: Seq<char>,
    query: Seq<char>,
    fragment: Seq<char>,
    more: Seq<Seq<char>>,
)
    requires
        is_host(host),
        sub.len() > 0,
        !sub.contains('?') && !sub.contains('#'),
        is_query(query),
        is_fragment(fragment),
        more.len() == 0 || (more.last() != "--flat"@ && more.last() != "-f"@),
    ensures
        parsed_link(
            seq![url(host, "/api/zip/"@ + sub + query + fragment)] + more,
            host,
            sub,
            Kind::Dir,
            more,
        ),
        parsed_link(
            seq![url(host, "/api/list/"@ + sub + query + fragment)] + more,
            host,
            sub,
            Kind::Dir,
            more,
        ),
{
    lemma_link_texts();
    lemma_link_heads(sub);
    lemma_one_link(host, "/api/zip/"@, "api/zip/"@, sub, query, fragment, Kind::Dir, more);
    lemma_one_link(host, "/api/list/"@, "api/list/"@, sub, query, fragment, Kind::Dir, more);
}

/// The address of the page that shows a directory names the directory: the fragment without the
/// slashes in front, up to a question mark.
pub proof fn law_page_links(
    host: Seq<char>,
    query: Seq<char>,
    slashes: Seq<char>,
    sub: Seq<char>,
    end: Seq<char>,
    more: Seq<Seq<char>>,
)
    requires
        is_host(host),
        is_query(query),
        forall|i: int| 0 <= i < slashes.len() ==> #[trigger] slashes[i] == '/',
        sub.len() > 0,
        sub[0] != '/',
        !sub.contains('?'),
        end.len() == 0 || end[0] == '?',
        more.len() == 0 || (more.last() != "--flat"@ && more.last() != "-f"@),
    ensures
        parsed_link(
            seq![url(host, "/"@ + query + "#"@ + slashes + sub + end)] + more,
            host,
            sub,
            Kind::Dir,
            more,
        ),
{
    reveal_strlit("/");
    reveal_strlit("#");
    reveal_strlit("files/");
    reveal_strlit("pull/");
    reveal_strlit("api/zip/");
    reveal_strlit("api/list/");
    let none = Seq::<char>::empty();
    let inner = slashes + sub + end;
    let fragment = seq!['#'] + inner;
    lemma_source(host, none, query, fragment);
    assert(fragment.drop_first() =~= inner);
    assert("/"@ + none + query + fragment =~= "/"@ + query + "#"@ + slashes + sub + end);
    assert forall|i: int| 0 <= i < slashes.len() implies equals('/')(#[trigger] inner[i]) by {
        assert(inner[i] == slashes[i]);
    }
    assert(inner[slashes.len() as int] == sub[0]);
    lemma_leading(inner, equals('/'), slashes.len() as int);
    let rest = trim_front(inner, equals('/'));
    assert(rest =~= sub + end);
    if end.len() == 0 {
        assert(rest =~= sub);
        lemma_uncut(sub, '?');
    } else {
        assert(rest =~= sub.push('?') + end.drop_first());
        law_cut_at(sub, '?', end.drop_first());
    }
    assert((seq![url(host, "/"@ + query + "#"@ + slashes + sub + end)] + more).drop_first()
        =~= more);
}

/// Behind the address of a server stand the remote directory and the local one. Without the local
/// one the working directory is taken, or, where everything is asked for, one of its own.
pub proof fn law_server_address(host: Seq<char>, remote: Seq<char>, local: Seq<char>)
    requires
        is_host(host),
        remote != "--flat"@ && remote != "-f"@,
        local != "--flat"@ && local != "-f"@,
    ensures
        ({
            let server = url(host, Seq::empty());
            let sub = trim_both(remote, equals('/'));
            let all = ParsedView {
                base: server,
                host,
                remote: Seq::empty(),
                kind: Kind::Auto,
                local: "lanfile-root"@,
                flat: false,
            };
            &&& parsed(seq![server]) == Ok::<ParsedView, Seq<char>>(all)
            &&& parsed(seq![server, remote]) == Ok::<ParsedView, Seq<char>>(
                ParsedView {
                    remote: sub,
                    local: if sub.len() == 0 {
                        "lanfile-root"@
                    } else {
                        "."@
                    },
                    ..all
                },
            )
            &&& parsed(seq![server, remote, local]) == Ok::<ParsedView, Seq<char>>(
                ParsedView { remote: sub, local, ..all },
            )
            &&& parsed(seq![server, remote, local, local]) is Err
        }),
{
    let http = "http://"@;
    let none = Seq::<char>::empty();
    let server = url(host, none);
    assert(server =~= http + host);
    assert(http =~= server.subrange(0, http.len() as int));
    assert(server.skip(http.len() as int) =~= host);
    assert forall|i: int| 0 <= i < host.len() implies in_host()(#[trigger] host[i]) by {
        assert(host.contains(host[i]));
    }
    lemma_leading(host, in_host(), host.len() as int);
    assert(host.take(host.len() as int) =~= host);
    let rest = host.skip(host.len() as int);
    assert(rest =~= none);
    reveal_strlit("/");
    assert(stripped(none, "/"@) is None);
    lemma_uncut(none, '#');
    lemma_uncut(none, '?');
    lemma_nothing_direct();
    assert(seq![server].drop_first() =~= Seq::<Seq<char>>::empty());
    assert(seq![server, remote].drop_first() =~= seq![remote]);
    assert(seq![server, remote, local].drop_first() =~= seq![remote, local]);
    assert(seq![server, remote, local, local].drop_first() =~= seq![remote, local, local]);
}

/// The flag behind the other arguments says only that it was given: everything else is read as
/// without it.
pub proof fn law_flag_stands_apart(args: Seq<Seq<char>>, flag: Seq<char>)
    requires
        args.len() > 0,
        args.len() == 1 || (args.last() != "--flat"@ && args.last() != "-f"@),
        flag == "--flat"@ || flag == "-f"@,
    ensures
        match parsed(args) {
            Ok(p) => !p.flat && parsed(args.push(flag)) == Ok::<ParsedView, Seq<char>>(
                ParsedView { flat: true, ..p },
            ),
            Err(e) => parsed(args.push(flag)) == Err::<ParsedView, Seq<char>>(e),
        },
{
    assert(args.push(flag).drop_first() =~= args.drop_first().push(flag));
    assert(args.drop_first().push(flag).drop_last() =~= args.drop_first());
    if args.len() > 1 {
        assert(args.drop_first().last() == args.last());
    }
}

/// Without arguments, and with a first argument that is no address of the kind that is served, nothing
/// is parsed.
pub proof fn law_address_is_http(args: Seq<Seq<char>>)
    ensures
        args.len() == 0 ==> parsed(args) == Err::<ParsedView, Seq<char>>(usage()),
        args.len() > 0 && !"http://"@.is_prefix_of(args[0]) ==> parsed(args) == Err::<
            ParsedView,
            Seq<char>,
        >(not_http()),
{
}

/// The slash behind the host of a URL may be left out where no path follows.
pub proof fn law_slash_may_be_left_out(
    host: Seq<char>,
    query: Seq<char>,
    fragment: Seq<char>,
    more: Seq<Seq<char>>,
)
    requires
        is_host(host),
        is_query(query),
        is_fragment(fragment),
    ensures
        parsed(seq![url(host, query + fragment)] + more) == parsed(
            seq![url(host, "/"@ + query + fragment)] + more,
        ),
{
    reveal_strlit("/");
    let http = "http://"@;
    let end = query + fragment;
    lemma_host(host, end);
    assert("/"@ + query + fragment =~= "/"@ + end);
    let short = url(host, end);
    let rest = host + end;
    assert(short =~= http + rest);
    assert(http =~= short.subrange(0, http.len() as int));
    assert(short.skip(http.len() as int) =~= rest);
    assert forall|i: int| 0 <= i < host.len() implies in_host()(#[trigger] rest[i]) by {
        assert(rest[i] == host[i]);
        assert(host.contains(host[i]));
    }
    if end.len() > 0 {
        assert(end[0] == '?' || end[0] == '#') by {
            if query.len() > 0 {
                assert(end[0] == query[0]);
            } else {
                assert(end[0] == fragment[0]);
            }
        }
        assert(rest[host.len() as int] == end[0]);
        lemma_other_head(end, "/"@);
    }
    lemma_leading(rest, in_host(), host.len() as int);
    assert(rest.take(host.len() as int) =~= host);
    assert(rest.skip(host.len() as int) =~= end);
    assert(source(short) == source(url(host, "/"@ + end)));
    let one = seq![short] + more;
    let two = seq![url(host, "/"@ + query + fragment)] + more;
    assert(one.drop_first() =~= more);
    assert(two.drop_first() =~= more);
}

/// A parsed command line and its arguments stand for what is in them.
pub proof fn law_argument_values(parsed: Parsed, args: Seq<String>, i: int)
    requires
        0 <= i < args.len(),
    ensures
        parsed.view().base == parsed.base@,
        parsed.view().host == parsed.host@,
        parsed.view().remote == parsed.remote@,
        parsed.view().local == parsed.local@,
        parsed.view().kind == parsed.kind,
        parsed.view().flat == parsed.flat,
        texts(args).len() == args.len(),
        texts(args)[i] == args[i]@,
{
}

/// Any other path names what stands in it, without the slashes around it, the query and the fragment;
/// whether it is a directory or a file is not known.
pub proof fn law_other_links(
    host: Seq<char>,
    path: Seq<char>,
    query: Seq<char>,
    fragment: Seq<char>,
    more: Seq<Seq<char>>,
)
    requires
        is_host(host),
        !path.contains('?') && !path.contains('#'),
        stripped_of_either(path, "files/"@, "pull/"@) is None,
        stripped_of_either(path, "api/zip/"@, "api/list/"@) is None,
        trim_both(path, equals('/')).len() > 0,
        is_query(query),
        is_fragment(fragment),
        more.len() == 0 || (more.last() != "--flat"@ && more.last() != "-f"@),
    ensures
        parsed_link(
            seq![url(host, "/"@ + path + query + fragment)] + more,
            host,
            trim_both(path, equals('/')),
            Kind::Auto,
            more,
        ),
{
    let outer = trim_both(path, equals('/'));
    lemma_source(host, path, query, fragment);
    if path.len() == 0 {
        assert(trim_front(path, equals('/')) =~= path);
    }
    assert((seq![url(host, "/"@ + path + query + fragment)] + more).drop_first() =~= more);
}

/// What stands behind one of the links of the server, where there is anything: each link has its own
/// beginning, and nothing else begins one.
pub proof fn law_beginnings_of_links(path: Seq<char>, sub: Seq<char>)
    requires
        sub.len() > 0,
    ensures
        stripped_of_either(path, "files/"@, "pull/"@) == Some(sub) <==> path == "files/"@ + sub || path
            == "pull/"@ + sub,
        stripped_of_either(path, "api/zip/"@, "api/list/"@) == Some(sub) <==> path == "api/zip/"@ + sub
            || path == "api/list/"@ + sub,
{
    lemma_heads(sub);
    if "files/"@.is_prefix_of(path) {
        assert(path =~= "files/"@ + path.skip("files/"@.len() as int));
    }
    if "pull/"@.is_prefix_of(path) {
        assert(path =~= "pull/"@ + path.skip("pull/"@.len() as int));
    }
    if "api/zip/"@.is_prefix_of(path) {
        assert(path =~= "api/zip/"@ + path.skip("api/zip/"@.len() as int));
    }
    if "api/list/"@.is_prefix_of(path) {
        assert(path =~= "api/list/"@ + path.skip("api/list/"@.len() as int));
    }
}

} // verus!

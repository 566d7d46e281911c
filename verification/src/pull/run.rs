//! What `lanfile get` does: a directory or a file, where it goes, and what is reported.
use crate::bytes::memrchr;
use crate::decimal::{decimal, decimal_string};
use crate::paths::joined;
use crate::pull::args::Kind;
use crate::pull::error::{error_text, Error};
use crate::text::{
    chars_of, differs, equals, from_utf8_lossy, lemma_ascii_occurs, lemma_encode_concat,
    lemma_trailing_run, lemma_trailing_run_bound, string_of, text_of, trailing_run, trim_back,
    trim_char_back,
};
use vstd::prelude::*;
use vstd::slice::slice_subrange;
use vstd::utf8::*;

verus! {

/// What follows the last slash in a text; all of it where it has none.
pub open spec fn behind_last_slash(s: Seq<char>) -> Seq<char> {
    s.skip(s.len() - trailing_run(s, differs('/')))
}

/// The last name in a remote path, whatever slashes stand behind it; none for the root.
pub open spec fn base_name(remote: Seq<char>) -> Option<Seq<char>> {
    let head = trim_back(remote, equals('/'));
    if head.len() == 0 {
        None
    } else {
        Some(behind_last_slash(head))
    }
}

/// The last name in a remote path; none for the root.
pub fn basename(remote: &str) -> (r: Option<String>)
    ensures
        r is Some <==> base_name(remote@) is Some,
        r matches Some(name) ==> base_name(remote@) == Some(name@),
{
    let chars = chars_of(remote);
    let head = trim_char_back(chars.as_slice(), '/');
    if head.len() == 0 {
        return None;
    }
    let text = string_of(head);
    let bytes = text.as_str().as_bytes();
    match memrchr(0x2f, bytes) {
        None => {
            proof {
                lemma_ascii_occurs(head@, '/');
                assert forall|k: int| 0 <= k < head@.len() implies differs('/')(#[trigger] head@[k]) by {
                    if head@[k] == '/' {
                        assert(head@.contains('/'));
                    }
                }
                lemma_trailing_run(head@, differs('/'), head@.len() as int);
                assert(behind_last_slash(head@) =~= head@);
            }
            Some(text)
        },
        Some(at) => {
            let total: usize = bytes.len();
            let tail = slice_subrange(bytes, at + 1, total);
            proof {
                lemma_last_slash(head@, at as int);
            }
            Some(from_utf8_lossy(tail))
        },
    }
}

/// The bytes behind the last slash of a text are those of what follows its last slash.
proof fn lemma_last_slash(s: Seq<char>, at: int)
    requires
        0 <= at < encode_utf8(s).len(),
        encode_utf8(s)[at] == 0x2f,
        forall|k: int| at < k < encode_utf8(s).len() ==> encode_utf8(s)[k] != 0x2f,
    ensures
        text_of(encode_utf8(s).subrange(at + 1, encode_utf8(s).len() as int)) == behind_last_slash(s),
{
    let bytes = encode_utf8(s);
    lemma_ascii_occurs(s, '/');
    assert(bytes.contains(0x2fu8)) by {
        assert(bytes[at] == 0x2fu8);
    }
    lemma_trailing_run_bound(s, differs('/'));
    let n = trailing_run(s, differs('/'));
    assert(n < s.len()) by {
        if n == s.len() {
            let i = choose|i: int| 0 <= i < s.len() && s[i] == '/';
            assert(differs('/')(s[i]));
        }
    }
    let b = s.skip(s.len() - n);
    let a = s.take(s.len() - n - 1);
    let slash = seq!['/'];
    assert(s[s.len() - n - 1] == '/');
    assert(s =~= (a + slash) + b);
    lemma_encode_concat(a + slash, b);
    lemma_encode_concat(a, slash);
    is_ascii_chars_encode_utf8(slash);
    assert(encode_utf8(slash) =~= seq![0x2fu8]);
    let x = encode_utf8(a);
    let y = encode_utf8(b);
    assert(bytes == x + seq![0x2fu8] + y);
    assert(!b.contains('/')) by {
        if b.contains('/') {
            let i = choose|i: int| 0 <= i < b.len() && b[i] == '/';
            assert(differs('/')(s[s.len() - n + i]));
        }
    }
    lemma_ascii_occurs(b, '/');
    assert(bytes[x.len() as int] == 0x2f);
    assert(at >= x.len());
    assert(at == x.len()) by {
        if at > x.len() {
            assert(y[at - x.len() - 1] == 0x2f);
            assert(y.contains(0x2fu8));
        }
    }
    assert(bytes.subrange(at + 1, bytes.len() as int) =~= y);
    encode_utf8_valid_utf8(b);
    encode_utf8_decode_utf8(b);
}

/// The directory that a remote directory goes to: one of its name in the local directory, or the
/// local directory itself where that is asked for, and for the root.
pub open spec fn target(local: Seq<char>, remote: Seq<char>, flat: bool) -> Seq<char> {
    if !flat && base_name(remote) is Some {
        joined(local, base_name(remote)->0, '/')
    } else {
        local
    }
}

/// `sub` below `base`; `sub` itself where it is absolute.
pub fn join_text(base: &str, sub: &str) -> (r: String)
    ensures
        r@ == joined(base@, sub@, '/'),
{
    let b = chars_of(base);
    let s = chars_of(sub);
    if s.len() > 0 && s[0] == '/' {
        return sub.to_string();
    }
    let mut out = base.to_string();
    if b.len() > 0 && b[b.len() - 1] != '/' {
        out.append("/");
        proof {
            reveal_strlit("/");
            assert(out@ =~= base@.push('/'));
        }
    }
    out.append(sub);
    out
}

/// The directory that a remote directory goes to.
pub fn local_target(local: &str, remote: &str, flat: bool) -> (r: String)
    ensures
        r@ == target(local@, remote@, flat),
{
    if !flat {
        if let Some(name) = basename(remote) {
            return join_text(local, name.as_str());
        }
    }
    local.to_string()
}

/// The file that a remote file goes to: one of its name in the local directory.
pub open spec fn file_target(local: Seq<char>, remote: Seq<char>) -> Seq<char> {
    match base_name(remote) {
        Some(name) => joined(local, name, '/'),
        None => joined(local, "download"@, '/'),
    }
}

/// The file that a remote file goes to.
pub fn local_file(local: &str, remote: &str) -> (r: String)
    ensures
        r@ == file_target(local@, remote@),
{
    match basename(remote) {
        Some(name) => join_text(local, name.as_str()),
        None => join_text(local, "download"),
    }
}

/// Whether an error is the answer to a path that does not exist.
pub open spec fn is_404(error: Error) -> bool {
    error matches Error::Http { status, path } && status == 404
}

/// Whether `after` is what is reported of `error`: that the remote path does not exist, where the
/// other side says so, and else the error itself.
pub open spec fn reported(error: Error, remote: Seq<char>, after: Error) -> bool {
    if is_404(error) {
        after matches Error::NotFound { remote: r } && r@ == remote
    } else {
        after == error
    }
}

fn says_404(error: &Error) -> (r: bool)
    ensures
        r == is_404(*error),
{
    match error {
        Error::Http { status, path } => *status == 404,
        _ => false,
    }
}

/// Turns the answer to a path that does not exist into an error that says so.
pub fn to_not_found(error: Error, remote: &str) -> (r: Error)
    ensures
        reported(error, remote@, r),
{
    if says_404(&error) {
        Error::NotFound { remote: remote.to_string() }
    } else {
        error
    }
}

/// What to do with a remote path.
pub enum RunStep {
    /// Ask for its listing.
    List,
    /// Fetch it as a file.
    FetchFile,
    /// Mirror it as a directory.
    Mirror,
    /// Report an error.
    Fail(Error),
}

/// What to do first with a remote path, by what it is known to be.
pub fn run_first(kind: Kind) -> (r: RunStep)
    ensures
        kind is File ==> r is FetchFile,
        !(kind is File) ==> r is List,
{
    match kind {
        Kind::File => RunStep::FetchFile,
        _ => RunStep::List,
    }
}

/// What to do once a listing was asked for. Where there is none, and nothing was known of the path,
/// it is fetched as a file.
pub fn run_listed(kind: Kind, remote: &str, error: Option<Error>) -> (r: RunStep)
    ensures
        error is None ==> r is Mirror,
        error matches Some(e) ==> if is_404(e) && kind is Auto {
            r is FetchFile
        } else {
            r is Fail && reported(e, remote@, r->Fail_0)
        },
{
    match error {
        None => RunStep::Mirror,
        Some(error) => {
            let auto = match kind {
                Kind::Auto => true,
                _ => false,
            };
            if auto && says_404(&error) {
                RunStep::FetchFile
            } else {
                RunStep::Fail(to_not_found(error, remote))
            }
        },
    }
}

/// What is reported of a directory that was mirrored.
pub open spec fn dir_report(
    base: Seq<char>,
    remote: Seq<char>,
    target: Seq<char>,
    files: nat,
    bytes: nat,
    dirs: nat,
) -> Seq<char> {
    "lanfile get: "@ + base + "/"@ + remote + " -> "@ + target + "（"@ + decimal(files) + " 文件，"@
        + decimal(bytes) + " 字节，"@ + decimal(dirs) + " 目录）"@
}

/// What is reported of a directory that was mirrored.
pub fn dir_message(base: &str, remote: &str, target: &str, files: u64, bytes: u64, dirs: u64) -> (r:
    String)
    ensures
        r@ == dir_report(base@, remote@, target@, files as nat, bytes as nat, dirs as nat),
{
    let mut out = "lanfile get: ".to_string();
    out.append(base);
    out.append("/");
    out.append(remote);
    out.append(" -> ");
    out.append(target);
    out.append("（");
    out.append(decimal_string(files).as_str());
    out.append(" 文件，");
    out.append(decimal_string(bytes).as_str());
    out.append(" 字节，");
    out.append(decimal_string(dirs).as_str());
    out.append(" 目录）");
    out
}

/// What is reported of a file that was fetched.
pub open spec fn file_report(
    base: Seq<char>,
    remote: Seq<char>,
    target: Seq<char>,
    bytes: nat,
) -> Seq<char> {
    "lanfile get: "@ + base + "/"@ + remote + " -> "@ + target + "（"@ + decimal(bytes) + " 字节）"@
}

/// What is reported of a file that was fetched.
pub fn file_message(base: &str, remote: &str, target: &str, bytes: u64) -> (r: String)
    ensures
        r@ == file_report(base@, remote@, target@, bytes as nat),
{
    let mut out = "lanfile get: ".to_string();
    out.append(base);
    out.append("/");
    out.append(remote);
    out.append(" -> ");
    out.append(target);
    out.append("（");
    out.append(decimal_string(bytes).as_str());
    out.append(" 字节）");
    out
}

/// What is reported of a file of a directory that was not fetched.
pub fn skip_message(remote: &str, error: &Error) -> (r: String)
    ensures
        r@ == "  跳过 "@ + remote@ + "："@ + error_text(*error),
{
    let mut out = "  跳过 ".to_string();
    out.append(remote);
    out.append("：");
    out.append(error.message().as_str());
    out
}

/// The last name of a remote path stands behind its last slash, slashes at the end left aside; slashes
/// alone name nothing.
pub proof fn law_last_name_is_taken(dir: Seq<char>, name: Seq<char>, slashes: Seq<char>)
    requires
        dir.len() == 0 || dir.last() == '/',
        name.len() > 0,
        !name.contains('/'),
        forall|i: int| 0 <= i < slashes.len() ==> #[trigger] slashes[i] == '/',
    ensures
        base_name(dir + name + slashes) == Some(name),
        base_name(slashes) is None,
{
    let remote = dir + name + slashes;
    let head = dir + name;
    assert(name.contains(name.last()));
    assert forall|i: int| remote.len() - slashes.len() <= i < remote.len() implies equals('/')(
        #[trigger] remote[i],
    ) by {
        assert(remote[i] == slashes[i - head.len()]);
    }
    assert(remote[remote.len() - slashes.len() - 1] == name.last());
    lemma_trailing_run(remote, equals('/'), slashes.len() as int);
    assert(trim_back(remote, equals('/')) =~= head);
    assert forall|i: int| head.len() - name.len() <= i < head.len() implies differs('/')(
        #[trigger] head[i],
    ) by {
        assert(head[i] == name[i - dir.len()]);
        assert(name.contains(name[i - dir.len()]));
    }
    if dir.len() > 0 {
        assert(head[head.len() - name.len() - 1] == dir.last());
    }
    lemma_trailing_run(head, differs('/'), name.len() as int);
    assert(behind_last_slash(head) =~= name);
    lemma_trailing_run(slashes, equals('/'), slashes.len() as int);
}

/// Where things go. A directory goes into one of its own name below the local one, and straight into
/// the local one if asked for so or if everything is fetched; a file goes below the local one by its
/// name.
pub proof fn law_where_things_go(
    local: Seq<char>,
    dir: Seq<char>,
    name: Seq<char>,
    slashes: Seq<char>,
)
    requires
        local.len() > 0,
        local.last() != '/',
        dir.len() == 0 || dir.last() == '/',
        name.len() > 0,
        !name.contains('/'),
        forall|i: int| 0 <= i < slashes.len() ==> #[trigger] slashes[i] == '/',
    ensures
        target(local, dir + name + slashes, false) == local.push('/') + name,
        target(local, dir + name + slashes, true) == local,
        target(local, slashes, false) == local,
        target(local, slashes, true) == local,
        file_target(local, dir + name + slashes) == local.push('/') + name,
        file_target(local, slashes) == local.push('/') + "download"@,
{
    reveal_strlit("download");
    law_last_name_is_taken(dir, name, slashes);
    assert(name.contains(name[0]));
}

/// Only an answer that there is nothing is told as such; every other error stands as it is.
pub proof fn law_only_404_is_not_found(error: Error, remote: Seq<char>, after: Error)
    requires
        reported(error, remote, after),
    ensures
        (error matches Error::Http { status, path: _ } && status == 404) ==> (
        after matches Error::NotFound { remote: r } && r@ == remote),
        !(error matches Error::Http { status, path: _ } && status == 404) ==> after == error,
        is_404(error) <==> (error matches Error::Http { status, path: _ } && status == 404),
{
}

/// A report names where things came from and where they went, and then how much: files, bytes and
/// directories in this order, or the bytes of the one file.
pub proof fn law_reports(
    base: Seq<char>,
    remote: Seq<char>,
    target: Seq<char>,
    files: nat,
    bytes: nat,
    dirs: nat,
)
    ensures
        ({
            let front = "lanfile get: "@ + base + "/"@ + remote + " -> "@ + target + "（"@;
            let dir = dir_report(base, remote, target, files, bytes, dirs);
            let file = file_report(base, remote, target, bytes);
            &&& front.is_prefix_of(dir)
            &&& front.is_prefix_of(file)
            &&& dir.skip(front.len() as int) == decimal(files) + " 文件，"@ + decimal(bytes) + " 字节，"@
                + decimal(dirs) + " 目录）"@
            &&& file.skip(front.len() as int) == decimal(bytes) + " 字节）"@
        }),
{
    let front = "lanfile get: "@ + base + "/"@ + remote + " -> "@ + target + "（"@;
    let dir = dir_report(base, remote, target, files, bytes, dirs);
    let file = file_report(base, remote, target, bytes);
    let n = front.len() as int;
    assert(front =~= dir.subrange(0, n));
    assert(front =~= file.subrange(0, n));
    assert(dir.skip(n) =~= decimal(files) + " 文件，"@ + decimal(bytes) + " 字节，"@ + decimal(dirs)
        + " 目录）"@);
    assert(file.skip(n) =~= decimal(bytes) + " 字节）"@);
}

} // verus!

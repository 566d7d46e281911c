//! HTTP/1.1 with keep-alive: requests, response heads and bodies of a known length.
use crate::bytes::find_byte;
use crate::decimal::{
    decimal, law_decimal_round_trip, lemma_decimal_text, parse_text, parse_uint,
    parsed_uint,
};
use crate::pull::error::Error;
use crate::text::{
    after, before, chars_of, cut_after, cut_before, find_char, is_white_space, leading,
    law_cut_at, law_trimmed, lemma_leading, trim_white, trimmed,
};
use vstd::prelude::*;
use vstd::slice::slice_subrange;
use vstd::utf8::*;

verus! {

/// How many seconds a connection may take.
pub const CONNECT_SECONDS: u64 = 10;

/// How many seconds may pass between two reads.
pub const READ_SECONDS: u64 = 30;

/// How many bytes of a body are read at once.
pub const COPY_BUF: usize = 65_536;

/// The text of a request.
pub open spec fn request(host: Seq<char>, path: Seq<char>) -> Seq<char> {
    "GET "@ + path + " HTTP/1.1\r\nHost: "@ + host + "\r\n\r\n"@
}

/// The text of a request. It asks for the connection to be kept.
pub fn request_text(host: &str, path: &str) -> (r: String)
    ensures
        r@ == request(host@, path@),
{
    let mut out = "GET ".to_string();
    out.append(path);
    out.append(" HTTP/1.1\r\nHost: ");
    out.append(host);
    out.append("\r\n\r\n");
    out
}

/// The ASCII characters that count as white space.
pub open spec fn is_ascii_white(b: u8) -> bool {
    b == 0x20 || b == 0x09 || b == 0x0a || b == 0x0c || b == 0x0d
}

/// The bytes that are white space.
pub open spec fn ascii_white() -> spec_fn(u8) -> bool {
    |b: u8| is_ascii_white(b)
}

/// The bytes that are not.
pub open spec fn ascii_black() -> spec_fn(u8) -> bool {
    |b: u8| !is_ascii_white(b)
}

/// `s` without its first bytes that satisfy `p`.
pub open spec fn behind(s: Seq<u8>, p: spec_fn(u8) -> bool) -> Seq<u8> {
    s.skip(leading(s, p) as int)
}

/// The second word of a line, where white space stands between words; empty where there is none.
pub open spec fn second_word(line: Seq<u8>) -> Seq<u8> {
    let first = behind(line, ascii_white());
    let second = behind(behind(first, ascii_black()), ascii_white());
    second.take(leading(second, ascii_black()) as int)
}

/// The status in a status line such as `HTTP/1.1 200 OK`: its second word.
pub open spec fn status_of(line: Seq<u8>) -> Option<nat> {
    parsed_uint(second_word(line), u16::MAX as nat)
}

/// `s` without the white space at its front.
fn skip_white(s: &[u8]) -> (r: &[u8])
    ensures
        r@ == behind(s@, ascii_white()),
{
    let mut n: usize = 0;
    while n < s.len() && white(s[n])
        invariant
            0 <= n <= s@.len(),
            forall|k: int| 0 <= k < n ==> ascii_white()(#[trigger] s@[k]),
        decreases s@.len() - n,
    {
        n = n + 1;
    }
    proof {
        lemma_leading(s@, ascii_white(), n as int);
        assert(s@.subrange(n as int, s@.len() as int) =~= s@.skip(n as int));
    }
    slice_subrange(s, n, s.len())
}

/// How long the word at the front of `s` is: up to the first space, or to other white space before.
fn word_len(s: &[u8]) -> (r: usize)
    ensures
        r == leading(s@, ascii_black()),
        r <= s@.len(),
{
    let space = find_byte(s, 0x20);
    let mut n: usize = 0;
    while n < space && !white(s[n])
        invariant
            0 <= n <= space,
            space <= s@.len(),
            forall|k: int| 0 <= k < n ==> ascii_black()(#[trigger] s@[k]),
        decreases space - n,
    {
        n = n + 1;
    }
    proof {
        lemma_leading(s@, ascii_black(), n as int);
    }
    n
}

/// The status in a status line such as `HTTP/1.1 200 OK`. Words are split at any ASCII white space.
pub fn status_code(line: &str) -> (r: Option<u16>)
    ensures
        r is Some <==> status_of(encode_utf8(line@)) is Some,
        r matches Some(status) ==> status_of(encode_utf8(line@)) == Some(status as nat),
{
    let bytes = line.as_bytes();
    let first = skip_white(bytes);
    let rest = slice_subrange(first, word_len(first), first.len());
    assert(rest@ =~= behind(first@, ascii_black()));
    let second = skip_white(rest);
    let word = slice_subrange(second, 0, word_len(second));
    assert(word@ =~= second_word(bytes@));
    match parse_uint(word, u16::MAX as u64) {
        Some(status) => Some(status as u16),
        None => None,
    }
}

fn white(b: u8) -> (r: bool)
    ensures
        r == is_ascii_white(b),
{
    b == 0x20 || b == 0x09 || b == 0x0a || b == 0x0c || b == 0x0d
}

/// A character in lower case, where it is an ASCII letter.
pub open spec fn ascii_lower(c: char) -> char {
    if 'A' <= c <= 'Z' {
        ((c as u8) + 32) as u8 as char
    } else {
        c
    }
}

/// Whether two texts are the same but for the case of ASCII letters.
pub open spec fn same_ignoring_case(a: Seq<char>, b: Seq<char>) -> bool {
    a.len() == b.len() && forall|i: int|
        0 <= i < a.len() ==> ascii_lower(#[trigger] a[i]) == ascii_lower(b[i])
}

fn lower(c: char) -> (r: char)
    ensures
        r == ascii_lower(c),
{
    if 'A' <= c && c <= 'Z' {
        ((c as u8) + 32) as char
    } else {
        c
    }
}

fn eq_ignore_case(a: &[char], b: &[char]) -> (r: bool)
    ensures
        r == same_ignoring_case(a@, b@),
{
    if a.len() != b.len() {
        return false;
    }
    let mut i: usize = 0;
    while i < a.len()
        invariant
            0 <= i <= a@.len(),
            a@.len() == b@.len(),
            forall|k: int| 0 <= k < i ==> ascii_lower(#[trigger] a@[k]) == ascii_lower(b@[k]),
        decreases a@.len() - i,
    {
        if lower(a[i]) != lower(b[i]) {
            return false;
        }
        i = i + 1;
    }
    true
}

/// Whether a header line gives the length of the body.
pub open spec fn is_length_line(line: Seq<char>) -> bool {
    line.contains(':') && same_ignoring_case(trimmed(before(line, ':')), "content-length"@)
}

/// The length in such a line; none where it is not a number.
pub open spec fn length_in(line: Seq<char>) -> Option<nat> {
    parsed_uint(encode_utf8(trimmed(after(line, ':'))), u64::MAX as nat)
}

/// The message on a length that is not a number.
pub open spec fn bad_length() -> Seq<char> {
    "Content-Length 不是合法数字"@
}

/// The message on a status line that is not understood.
pub open spec fn bad_status() -> Seq<char> {
    "状态行格式异常"@
}

/// Takes the length of the body from a header line, where it gives one. A length that is not a
/// number is an error: without it nobody can tell whether a body is whole.
pub fn take_content_length(line: &str, content_length: &mut Option<u64>) -> (r: Result<(), Error>)
    ensures
        r is Err <==> is_length_line(line@) && length_in(line@) is None,
        r matches Err(e) ==> e matches Error::Malformed(what) && what@ == bad_length(),
        *final(content_length) == (if is_length_line(line@) && length_in(line@) is Some {
            Some(length_in(line@)->0 as u64)
        } else {
            *old(content_length)
        }),
{
    let chars = chars_of(line);
    let cs = chars.as_slice();
    if find_char(cs, ':') == cs.len() {
        return Ok(());
    }
    let name = chars_of("content-length");
    if !eq_ignore_case(trim_white(cut_before(cs, ':')), name.as_slice()) {
        return Ok(());
    }
    match parse_text(trim_white(cut_after(cs, ':')), u64::MAX) {
        None => Err(Error::Malformed("Content-Length 不是合法数字")),
        Some(length) => {
            *content_length = Some(length);
            Ok(())
        },
    }
}

/// A response head that was read so far: nothing, the status, or the status with the length of the
/// body.
pub struct Head {
    status: Option<u16>,
    content_length: Option<u64>,
}

/// Where the reading of a head stands.
pub enum HeadView {
    /// The status line is to come.
    Start,
    /// The status was read, and the length of the body, where a line gave it.
    Lines { status: u16, content_length: Option<u64> },
}

/// What a line of a head comes to.
pub enum HeadStep {
    /// More lines follow.
    More(HeadView),
    /// The head has ended.
    End { status: u16, content_length: Option<u64> },
    /// The head is not understood, for this reason.
    Bad(Seq<char>),
}

/// What a line comes to. A line of nothing but white space ends the head, and so does the end of
/// the input, which counts as an empty line.
pub open spec fn head_step(head: HeadView, line: Seq<char>) -> HeadStep {
    match head {
        HeadView::Start => match status_of(encode_utf8(line)) {
            Some(status) => HeadStep::More(
                HeadView::Lines { status: status as u16, content_length: None },
            ),
            None => HeadStep::Bad(bad_status()),
        },
        HeadView::Lines { status, content_length } => if trimmed(line).len() == 0 {
            HeadStep::End { status, content_length }
        } else if is_length_line(line) {
            match length_in(line) {
                Some(n) => HeadStep::More(
                    HeadView::Lines { status, content_length: Some(n as u64) },
                ),
                None => HeadStep::Bad(bad_length()),
            }
        } else {
            HeadStep::More(head)
        },
    }
}

impl Head {
    /// Where the reading stands.
    pub closed spec fn view(&self) -> HeadView {
        match self.status {
            None => HeadView::Start,
            Some(status) => HeadView::Lines { status, content_length: self.content_length },
        }
    }

    /// A head of which nothing was read.
    pub fn new() -> (r: Head)
        ensures
            r.view() is Start,
    {
        Head { status: None, content_length: None }
    }

    /// Takes the next line; an empty one at the end of the input. Returns the status and the
    /// length of the body once the head has ended.
    pub fn line(&mut self, line: &str) -> (r: Result<Option<(u16, Option<u64>)>, Error>)
        ensures
            match head_step(old(self).view(), line@) {
                HeadStep::More(head) => r matches Ok(None) && final(self).view() == head,
                HeadStep::End { status, content_length } => r == Ok::<
                    Option<(u16, Option<u64>)>,
                    Error,
                >(Some((status, content_length))) && final(self).view() == old(self).view(),
                HeadStep::Bad(why) => r matches Err(Error::Malformed(what)) && what@ == why
                    && final(self).view() == old(self).view(),
            },
    {
        match self.status {
            None => match status_code(line) {
                None => Err(Error::Malformed("状态行格式异常")),
                Some(status) => {
                    self.status = Some(status);
                    self.content_length = None;
                    Ok(None)
                },
            },
            Some(status) => {
                let chars = chars_of(line);
                if trim_white(chars.as_slice()).len() == 0 {
                    return Ok(Some((status, self.content_length)));
                }
                match take_content_length(line, &mut self.content_length) {
                    Ok(()) => Ok(None),
                    Err(error) => Err(error),
                }
            },
        }
    }
}

/// What a run of lines comes to, up to the first that ends the head or is not understood.
pub open spec fn head_run(head: HeadView, lines: Seq<Seq<char>>) -> HeadStep
    decreases lines.len(),
{
    if lines.len() == 0 {
        HeadStep::More(head)
    } else {
        match head_step(head, lines[0]) {
            HeadStep::More(next) => head_run(next, lines.drop_first()),
            end => end,
        }
    }
}

/// The length that header lines give: that of the last line that gives one.
pub open spec fn announced(lines: Seq<Seq<char>>) -> Option<u64>
    decreases lines.len(),
{
    if lines.len() == 0 {
        None
    } else if is_length_line(lines.last()) {
        Some(length_in(lines.last())->0 as u64)
    } else {
        announced(lines.drop_last())
    }
}

/// A head is its status line, header lines and an empty line: it gives the status of the first, and
/// the length that the header lines announce.
pub proof fn law_head_is_read(status_line: Seq<char>, lines: Seq<Seq<char>>, end: Seq<char>)
    requires
        status_of(encode_utf8(status_line)) is Some,
        forall|i: int|
            0 <= i < lines.len() ==> trimmed(#[trigger] lines[i]).len() > 0 && (is_length_line(
                lines[i],
            ) ==> length_in(lines[i]) is Some),
        trimmed(end).len() == 0,
    ensures
        head_run(HeadView::Start, seq![status_line] + lines.push(end)) == (HeadStep::End {
            status: status_of(encode_utf8(status_line))->0 as u16,
            content_length: announced(lines),
        }),
{
    let status = status_of(encode_utf8(status_line))->0 as u16;
    let all = seq![status_line] + lines.push(end);
    assert(all.drop_first() =~= lines.push(end));
    lemma_head_lines(status, Seq::empty(), lines, end);
    assert(Seq::<Seq<char>>::empty() + lines =~= lines);
}

proof fn lemma_head_lines(
    status: u16,
    done: Seq<Seq<char>>,
    lines: Seq<Seq<char>>,
    end: Seq<char>,
)
    requires
        forall|i: int|
            0 <= i < lines.len() ==> trimmed(#[trigger] lines[i]).len() > 0 && (is_length_line(
                lines[i],
            ) ==> length_in(lines[i]) is Some),
        trimmed(end).len() == 0,
    ensures
        head_run(
            HeadView::Lines { status, content_length: announced(done) },
            lines.push(end),
        ) == (HeadStep::End { status, content_length: announced(done + lines) }),
    decreases lines.len(),
{
    let head = HeadView::Lines { status, content_length: announced(done) };
    let all = lines.push(end);
    if lines.len() == 0 {
        assert(all[0] == end);
        assert(done + lines =~= done);
    } else {
        let line = lines[0];
        assert(all[0] == line);
        assert(all.drop_first() =~= lines.drop_first().push(end));
        let more = done.push(line);
        assert(more.drop_last() =~= done);
        lemma_head_lines(status, more, lines.drop_first(), end);
        assert(more + lines.drop_first() =~= done + lines);
    }
}

/// At most one connection that waits to be used again.
pub struct Pool<C> {
    conn: Option<C>,
}

impl<C> Pool<C> {
    /// The connection.
    pub closed spec fn idle(&self) -> Option<C> {
        self.conn
    }

    /// No connection.
    pub fn new() -> (r: Pool<C>)
        ensures
            r.idle() is None,
    {
        Pool { conn: None }
    }

    /// Whether a connection waits.
    pub fn is_idle(&self) -> (r: bool)
        ensures
            r == (self.idle() is Some),
    {
        self.conn.is_some()
    }

    /// Takes the connection that waits; where there is none, a new one has to be made.
    pub fn acquire(&mut self) -> (r: Option<C>)
        ensures
            r == old(self).idle(),
            final(self).idle() is None,
    {
        self.conn.take()
    }

    /// Gives a connection back. Its last response was read to its end and not beyond.
    pub fn release(&mut self, conn: C)
        ensures
            final(self).idle() == Some(conn),
    {
        self.conn = Some(conn);
    }
}

/// What came of a request on a connection.
pub enum Attempt {
    /// No connection could be made.
    NoConnection(Error),
    /// A response head was read.
    Response { status: u16, content_length: Option<u64> },
    /// The request was not sent, or no head was read.
    Failed(Error),
}

/// What follows from it.
pub enum GetStep {
    /// The body follows on the connection, with this length.
    Body(Option<u64>),
    /// The request is made again, on a new connection.
    Retry,
    /// It is over.
    Fail(Error),
}

/// A request under way: whether it runs on a connection that was used before.
pub struct Get {
    reused: bool,
}

/// What follows from an attempt. A connection that was used before may have been closed by the
/// other side meanwhile, so its failure is no failure of the request; a timeout is, since the other
/// side is there and slow.
pub open spec fn get_step(reused: bool, path: Seq<char>, attempt: Attempt, step: GetStep) -> bool {
    match attempt {
        Attempt::NoConnection(error) => step == GetStep::Fail(error),
        Attempt::Response { status, content_length } => if status == 200 {
            step == GetStep::Body(content_length)
        } else {
            step matches GetStep::Fail(Error::Http { status: s, path: p }) && s == status && p@
                == path
        },
        Attempt::Failed(error) => if reused && !(error is Timeout) {
            step is Retry
        } else {
            step == GetStep::Fail(error)
        },
    }
}

impl Get {
    /// Whether the request runs on a connection that was used before.
    pub closed spec fn reused(&self) -> bool {
        self.reused
    }

    /// A request that begins: `pooled` says whether a connection waits.
    pub fn new(pooled: bool) -> (r: Get)
        ensures
            r.reused() == pooled,
    {
        Get { reused: pooled }
    }

    /// Takes what came of an attempt.
    pub fn next(&mut self, path: &str, attempt: Attempt) -> (r: GetStep)
        ensures
            get_step(old(self).reused(), path@, attempt, r),
            final(self).reused() == (old(self).reused() && !(r is Retry)),
    {
        match attempt {
            Attempt::NoConnection(error) => GetStep::Fail(error),
            Attempt::Response { status, content_length } => if status == 200 {
                GetStep::Body(content_length)
            } else {
                GetStep::Fail(Error::Http { status, path: path.to_string() })
            },
            Attempt::Failed(error) => {
                let timeout = match &error {
                    Error::Timeout { phase } => true,
                    _ => false,
                };
                if self.reused && !timeout {
                    self.reused = false;
                    GetStep::Retry
                } else {
                    GetStep::Fail(error)
                }
            },
        }
    }
}

/// A request is made at most twice: after one retry nothing is retried.
pub proof fn law_one_retry(path: Seq<char>, attempt: Attempt, step: GetStep)
    requires
        get_step(false, path, attempt, step),
    ensures
        !(step is Retry),
{
}

/// A timeout is never retried, nor is an answer with another status than 200.
pub proof fn law_no_retry_on_timeout(reused: bool, path: Seq<char>, attempt: Attempt, step: GetStep)
    requires
        get_step(reused, path, attempt, step),
        attempt is Response || (attempt matches Attempt::Failed(error) && error is Timeout),
    ensures
        !(step is Retry),
{
}

/// How many bytes to read next of a body of length `max`, of which `total` were read.
pub open spec fn next_read(max: u64, total: u64) -> nat {
    if max - total < COPY_BUF {
        (max - total) as nat
    } else {
        COPY_BUF as nat
    }
}

/// How many bytes to read next of a body. It is never more than is left of it: a byte more would be
/// the first of the next response.
pub fn read_size(max: u64, total: u64) -> (r: usize)
    requires
        total <= max,
    ensures
        r == next_read(max, total),
        r <= max - total,
        r == 0 <==> total == max,
{
    if max - total < COPY_BUF as u64 {
        (max - total) as usize
    } else {
        COPY_BUF
    }
}

/// A request asks for its path in the first line, names the host in the second, and ends with an
/// empty line.
pub proof fn law_request_lines(host: Seq<char>, path: Seq<char>)
    ensures
        ({
            let first = "GET "@ + path + " HTTP/1.1\r\n"@;
            let text = request(host, path);
            &&& first.is_prefix_of(text)
            &&& text.skip(first.len() as int) == "Host: "@ + host + "\r\n"@ + "\r\n"@
        }),
{
    reveal_strlit("GET ");
    reveal_strlit(" HTTP/1.1\r\n");
    reveal_strlit(" HTTP/1.1\r\nHost: ");
    reveal_strlit("Host: ");
    reveal_strlit("\r\n");
    reveal_strlit("\r\n\r\n");
    let first = "GET "@ + path + " HTTP/1.1\r\n"@;
    let text = request(host, path);
    assert(" HTTP/1.1\r\nHost: "@ =~= " HTTP/1.1\r\n"@ + "Host: "@);
    assert("\r\n\r\n"@ =~= "\r\n"@ + "\r\n"@);
    assert(text =~= first + ("Host: "@ + host + "\r\n"@ + "\r\n"@));
    assert(first =~= text.subrange(0, first.len() as int));
}

/// The bytes that part words.
pub open spec fn is_gap(s: Seq<u8>) -> bool {
    forall|i: int| 0 <= i < s.len() ==> seq![0x20u8, 0x9, 0xa, 0xc, 0xd].contains(#[trigger] s[i])
}

/// A word: no byte of it parts words.
pub open spec fn is_word(s: Seq<u8>) -> bool {
    s.len() > 0 && forall|i: int|
        0 <= i < s.len() ==> !seq![0x20u8, 0x9, 0xa, 0xc, 0xd].contains(#[trigger] s[i])
}

proof fn lemma_white(b: u8)
    ensures
        is_ascii_white(b) <==> seq![0x20u8, 0x9, 0xa, 0xc, 0xd].contains(b),
{
    let list = seq![0x20u8, 0x9, 0xa, 0xc, 0xd];
    assert(list[0] == 0x20 && list[1] == 0x9 && list[2] == 0xa && list[3] == 0xc && list[4] == 0xd);
}

/// What stands behind a run of white bytes.
proof fn lemma_behind_gap(gap: Seq<u8>, rest: Seq<u8>)
    requires
        is_gap(gap),
        rest.len() == 0 || !is_ascii_white(rest[0]),
    ensures
        behind(gap + rest, ascii_white()) == rest,
{
    let s = gap + rest;
    assert forall|i: int| 0 <= i < gap.len() implies ascii_white()(#[trigger] s[i]) by {
        assert(s[i] == gap[i]);
        lemma_white(gap[i]);
    }
    if rest.len() > 0 {
        assert(s[gap.len() as int] == rest[0]);
    }
    lemma_leading(s, ascii_white(), gap.len() as int);
    assert(s.skip(gap.len() as int) =~= rest);
}

/// How far a word goes.
proof fn lemma_word(word: Seq<u8>, rest: Seq<u8>)
    requires
        is_word(word),
        rest.len() == 0 || is_ascii_white(rest[0]),
    ensures
        leading(word + rest, ascii_black()) == word.len(),
        !is_ascii_white(word[0]),
{
    let s = word + rest;
    assert forall|i: int| 0 <= i < word.len() implies ascii_black()(#[trigger] s[i]) by {
        assert(s[i] == word[i]);
        lemma_white(word[i]);
    }
    lemma_white(word[0]);
    if rest.len() > 0 {
        assert(s[word.len() as int] == rest[0]);
    }
    lemma_leading(s, ascii_black(), word.len() as int);
}

/// The status is the number in the second word of the status line, whatever the first word is and
/// whatever stands behind.
pub proof fn law_status_is_second_word(
    front: Seq<u8>,
    first: Seq<u8>,
    gap: Seq<u8>,
    second: Seq<u8>,
    end: Seq<u8>,
)
    requires
        is_gap(front),
        is_word(first),
        is_gap(gap),
        gap.len() > 0,
        is_word(second),
        end.len() == 0 || is_gap(end.take(1)),
    ensures
        status_of(front + first + gap + second + end) == parsed_uint(second, 0xffff),
{
    let line = front + first + gap + second + end;
    lemma_white(gap[0]);
    if end.len() > 0 {
        assert(end.take(1)[0] == end[0]);
        lemma_white(end[0]);
    }
    let a = first + (gap + (second + end));
    let b = gap + (second + end);
    assert(line =~= front + a);
    lemma_word(first, b);
    lemma_word(second, end);
    assert(a[0] == first[0]);
    lemma_behind_gap(front, a);
    assert(a.skip(first.len() as int) =~= b);
    assert((second + end)[0] == second[0]);
    lemma_behind_gap(gap, second + end);
    assert((second + end).take(second.len() as int) =~= second);
}

/// A text in any mixture of the cases that its letters have.
pub open spec fn is_cased(text: Seq<char>, lower: Seq<char>, upper: Seq<char>) -> bool {
    text.len() == lower.len() == upper.len() && forall|i: int|
        0 <= i < text.len() ==> (#[trigger] text[i] == lower[i] || text[i] == upper[i])
}

/// A header line announces a length exactly where the part before its first colon, without the white
/// space around it, is `Content-Length` in any case.
pub proof fn law_length_header(line: Seq<char>)
    ensures
        is_length_line(line) <==> line.contains(':') && is_cased(
            trimmed(before(line, ':')),
            "content-length"@,
            "CONTENT-LENGTH"@,
        ),
{
    reveal_strlit("content-length");
    reveal_strlit("CONTENT-LENGTH");
    let name = trimmed(before(line, ':'));
    let low = "content-length"@;
    let up = "CONTENT-LENGTH"@;
    if same_ignoring_case(name, low) {
        assert forall|i: int| 0 <= i < name.len() implies (#[trigger] name[i] == low[i] || name[i]
            == up[i]) by {
            lemma_lower(name[i], low[i], up[i]);
        }
    }
    if is_cased(name, low, up) {
        assert forall|i: int| 0 <= i < name.len() implies ascii_lower(#[trigger] name[i])
            == ascii_lower(low[i]) by {
            assert(name[i] == low[i] || name[i] == up[i]);
            lemma_lower(name[i], low[i], up[i]);
        }
    }
}

proof fn lemma_lower(c: char, low: char, up: char)
    requires
        ('a' <= low <= 'z' && up as u32 + 32 == low as u32) || (low == '-' && up == '-'),
    ensures
        ascii_lower(c) == ascii_lower(low) <==> c == low || c == up,
{
    if 'A' <= c <= 'Z' {
        assert((c as u8) + 32 <= 'z' as u8);
        assert(((c as u8) + 32) as u8 as char as u32 == c as u32 + 32);
    }
}

/// The length that is announced is the number between the colon and the end of the line, without the
/// white space around it.
pub proof fn law_announced_length(name: Seq<char>, front: Seq<char>, n: u64, end: Seq<char>)
    requires
        !name.contains(':'),
        forall|i: int| 0 <= i < front.len() ==> is_white_space(#[trigger] front[i]),
        forall|i: int| 0 <= i < end.len() ==> is_white_space(#[trigger] end[i]),
    ensures
        length_in(name + ":"@ + front + decimal(n as nat) + end) == Some(n as nat),
{
    reveal_strlit(":");
    let number = decimal(n as nat);
    let line = name + ":"@ + front + number + end;
    let value = front + number + end;
    assert(line =~= name.push(':') + value);
    law_cut_at(name, ':', value);
    lemma_number_is_black(n as nat);
    law_trimmed(front, number, end);
    lemma_decimal_text(n as nat);
    law_decimal_round_trip(n as nat, u64::MAX as nat);
}

proof fn lemma_number_is_black(n: nat)
    ensures
        decimal(n).len() > 0,
        forall|i: int| 0 <= i < decimal(n).len() ==> !is_white_space(#[trigger] decimal(n)[i]),
    decreases n,
{
    if n >= 10 {
        lemma_number_is_black(n / 10);
        assert forall|i: int| 0 <= i < decimal(n).len() implies !is_white_space(
            #[trigger] decimal(n)[i],
        ) by {
            if i < decimal(n / 10).len() {
                assert(decimal(n)[i] == decimal(n / 10)[i]);
            }
        }
    }
}

/// A head that does not begin with a status, or announces a length that is no number, is refused.
pub proof fn law_bad_heads(head: HeadView, line: Seq<char>)
    ensures
        head is Start ==> (head_step(head, line) is Bad <==> status_of(encode_utf8(line)) is None),
        head is Lines ==> (head_step(head, line) is Bad <==> trimmed(line).len() > 0
            && is_length_line(line) && length_in(line) is None),
        head is Lines ==> (head_step(head, line) is End <==> trimmed(line).len() == 0),
{
}

/// What an attempt comes to. The body of a response with status 200 is read; another status is an
/// error that names it and the path. A failure is reported as it came, but on a connection that was
/// used before it is tried once more, unless it was a timeout.
pub proof fn law_attempts(
    reused: bool,
    path: Seq<char>,
    status: u16,
    content_length: Option<u64>,
    error: Error,
    step: GetStep,
)
    ensures
        get_step(reused, path, Attempt::Response { status: 200, content_length }, step) ==> step
            == GetStep::Body(content_length),
        status != 200 && get_step(reused, path, Attempt::Response { status, content_length }, step)
            ==> (step matches GetStep::Fail(Error::Http { status: s, path: p }) && s == status && p@
            == path),
        get_step(reused, path, Attempt::NoConnection(error), step) ==> step == GetStep::Fail(error),
        get_step(reused, path, Attempt::Failed(error), step) ==> (step is Retry <==> reused && !(
        error is Timeout)),
        get_step(reused, path, Attempt::Failed(error), step) && !(step is Retry) ==> step
            == GetStep::Fail(error),
{
}

/// As much is read at once as the buffer takes, and never more than is left.
pub proof fn law_read_sizes(max: u64, total: u64)
    requires
        total <= max,
    ensures
        next_read(max, total) <= max - total,
        next_read(max, total) <= 65_536,
        next_read(max, total) == max - total || next_read(max, total) == 65_536,
{
}

/// A line of one word has no status.
pub proof fn law_one_word_is_no_status(front: Seq<u8>, word: Seq<u8>, end: Seq<u8>)
    requires
        is_gap(front),
        is_word(word),
        is_gap(end),
    ensures
        status_of(front + word + end) is None,
{
    let line = front + word + end;
    let rest = word + end;
    assert(line =~= front + rest);
    if end.len() > 0 {
        lemma_white(end[0]);
    }
    lemma_word(word, end);
    assert(rest[0] == word[0]);
    lemma_behind_gap(front, rest);
    assert(rest.skip(word.len() as int) =~= end);
    let none = Seq::<u8>::empty();
    assert(end =~= end + none);
    lemma_behind_gap(end, none);
    assert(second_word(line).len() == 0);
}

} // verus!

//! The access log: one line per request.
use crate::decimal::{decimal, decimal_bytes, decimal_string, lemma_decimal_text};
use crate::lan_ip::{ipv4_string, ipv4_text, Ipv4};
use crate::text::lemma_encode_concat;
use vstd::prelude::*;
use vstd::slice::slice_subrange;
use vstd::utf8::*;

verus! {

/// How long a line may be to be written without an allocation.
pub const LINE_STACK: usize = 256;

/// The longest buffer that is kept for the next line.
pub const LINE_KEEP_MAX: usize = 8192;

/// The address of a peer.
pub enum PeerIp {
    /// An IPv4 address.
    V4(Ipv4),
    /// An IPv6 address, as text.
    V6(String),
}

/// A version of HTTP.
#[derive(Clone, Copy)]
pub enum Version {
    /// HTTP/0.9.
    Http09,
    /// HTTP/1.0.
    Http10,
    /// HTTP/1.1.
    Http11,
    /// HTTP/2.
    Http2,
    /// HTTP/3.
    Http3,
}

/// A line of the access log.
pub struct AccessLine<'a> {
    /// The peer's address.
    pub ip: Option<PeerIp>,
    /// The method.
    pub method: &'a str,
    /// The path.
    pub path: &'a str,
    /// The version of HTTP.
    pub version: Version,
    /// The status.
    pub status: u16,
    /// The size of the body.
    pub size: &'a str,
}

/// The text of a peer's address.
pub open spec fn ip_text(ip: Option<PeerIp>) -> Seq<char> {
    match ip {
        None => "None"@,
        Some(PeerIp::V4(ip)) => "Some("@ + ipv4_text(ip) + ")"@,
        Some(PeerIp::V6(text)) => "Some("@ + text@ + ")"@,
    }
}

/// The text of a version of HTTP.
pub open spec fn version_text(version: Version) -> Seq<char> {
    match version {
        Version::Http09 => "HTTP/0.9"@,
        Version::Http10 => "HTTP/1.0"@,
        Version::Http11 => "HTTP/1.1"@,
        Version::Http2 => "HTTP/2.0"@,
        Version::Http3 => "HTTP/3.0"@,
    }
}

/// The text of a line, without what a logger puts around it.
pub open spec fn line_text(line: AccessLine) -> Seq<char> {
    "access ip="@ + ip_text(line.ip) + " method="@ + line.method@ + " path="@ + line.path@
        + " version="@ + version_text(line.version) + " status="@ + decimal(line.status as nat)
        + " size="@ + line.size@
}

/// The text of a line as it is logged, without the time before it.
pub open spec fn logged_text(line: AccessLine) -> Seq<char> {
    "  INFO lanfile: "@ + line_text(line) + "\n"@
}

/// The text of a version of HTTP.
fn version_str(version: Version) -> (r: &'static str)
    ensures
        r@ == version_text(version),
{
    match version {
        Version::Http09 => "HTTP/0.9",
        Version::Http10 => "HTTP/1.0",
        Version::Http11 => "HTTP/1.1",
        Version::Http2 => "HTTP/2.0",
        Version::Http3 => "HTTP/3.0",
    }
}

impl<'a> AccessLine<'a> {
    /// The text of the line.
    pub fn text(&self) -> (r: String)
        ensures
            r@ == line_text(*self),
    {
        let mut out = "access ip=".to_string();
        match &self.ip {
            None => out.append("None"),
            Some(PeerIp::V4(ip)) => {
                out.append("Some(");
                out.append(ipv4_string(*ip).as_str());
                out.append(")");
                assert(out@ =~= "access ip="@ + ip_text(self.ip));
            },
            Some(PeerIp::V6(text)) => {
                out.append("Some(");
                out.append(text.as_str());
                out.append(")");
                assert(out@ =~= "access ip="@ + ip_text(self.ip));
            },
        }
        out.append(" method=");
        out.append(self.method);
        out.append(" path=");
        out.append(self.path);
        out.append(" version=");
        out.append(version_str(self.version));
        out.append(" status=");
        out.append(decimal_string(self.status as u64).as_str());
        out.append(" size=");
        out.append(self.size);
        out
    }
}

/// Appends a line to `out` as it is logged: level, target, text and line break.
pub fn render_line(line: &AccessLine, out: &mut String)
    ensures
        final(out)@ == old(out)@ + logged_text(*line),
{
    let ghost start = out@;
    out.append("  INFO lanfile: ");
    out.append(line.text().as_str());
    out.append("\n");
    assert(out@ =~= start + logged_text(*line));
}

/// Whether a buffer holds `done` in its first bytes, `at` being how many they are; `at` is none
/// where `done` does not fit.
spec fn holds(out: Seq<u8>, at: Option<usize>, done: Seq<u8>) -> bool {
    match at {
        Some(n) => n == done.len() && n <= out.len() && out.take(n as int) == done,
        None => done.len() > out.len(),
    }
}

/// Copies `bytes` into `out` at `at`, where they fit.
fn push_bytes(out: &mut [u8], at: Option<usize>, bytes: &[u8], Ghost(done): Ghost<Seq<u8>>) -> (r:
    Option<usize>)
    requires
        holds(old(out)@, at, done),
    ensures
        final(out)@.len() == old(out)@.len(),
        holds(final(out)@, r, done + bytes@),
{
    let at: usize = match at {
        None => {
            return None;
        },
        Some(at) => at,
    };
    let total: usize = out.len();
    if bytes.len() > total - at {
        return None;
    }
    let ghost before = out@;
    let mut i: usize = 0;
    while i < bytes.len()
        invariant
            0 <= i <= bytes@.len(),
            at + bytes@.len() <= total,
            out@.len() == total,
            out@.len() == before.len(),
            forall|k: int| 0 <= k < at ==> out@[k] == before[k],
            forall|k: int| 0 <= k < i ==> out@[at + k] == #[trigger] bytes@[k],
        decreases bytes@.len() - i,
    {
        out[at + i] = bytes[i];
        i = i + 1;
    }
    assert(out@.take(at + bytes@.len()) =~= before.take(at as int) + bytes@);
    Some(at + bytes.len())
}

/// Whether a buffer holds the text `done`.
spec fn holds_text(out: Seq<u8>, at: Option<usize>, done: Seq<char>) -> bool {
    holds(out, at, encode_utf8(done))
}

/// Copies a text into `out` at `at`, behind `done`, where it fits.
fn push_str(out: &mut [u8], at: Option<usize>, text: &str, Ghost(done): Ghost<Seq<char>>) -> (r:
    Option<usize>)
    requires
        holds_text(old(out)@, at, done),
    ensures
        final(out)@.len() == old(out)@.len(),
        holds_text(final(out)@, r, done + text@),
{
    proof {
        lemma_encode_concat(done, text@);
    }
    push_bytes(out, at, text.as_bytes(), Ghost(encode_utf8(done)))
}

spec fn pow10(n: nat) -> nat
    decreases n,
{
    if n == 0 {
        1
    } else {
        10 * pow10((n - 1) as nat)
    }
}

/// Copies a number into `out` at `at`, where it fits.
fn push_uint(out: &mut [u8], at: Option<usize>, number: u32, Ghost(done): Ghost<Seq<char>>) -> (r:
    Option<usize>)
    requires
        holds_text(old(out)@, at, done),
    ensures
        final(out)@.len() == old(out)@.len(),
        holds_text(final(out)@, r, done + decimal(number as nat)),
{
    let mut digits: [u8; 10] = [0, 0, 0, 0, 0, 0, 0, 0, 0, 0];
    let mut start: usize = 10;
    let mut value: u32 = number;
    let ghost whole = decimal_bytes(number as nat);
    let mut more = true;
    proof {
        reveal_with_fuel(pow10, 11);
        assert(decimal_bytes(value as nat) + digits@.skip(10) =~= whole);
    }
    while more
        invariant
            start <= 10,
            more ==> start > 0 && value < pow10(start as nat) && decimal_bytes(value as nat)
                + digits@.skip(start as int) == whole,
            !more ==> digits@.skip(start as int) == whole,
        decreases start,
    {
        let ghost tail = digits@.skip(start as int);
        let ghost front = decimal_bytes(value as nat);
        start = start - 1;
        digits[start] = 0x30 + (value % 10) as u8;
        proof {
            let d = (0x30 + value as nat % 10) as u8;
            assert(digits@.skip(start as int) =~= seq![d] + tail);
            if value < 10 {
                assert(front =~= seq![d]);
                assert(front + tail =~= seq![d] + tail);
            } else {
                let rest = decimal_bytes(value as nat / 10);
                assert(front == rest.push(d));
                assert(front + tail =~= rest + (seq![d] + tail));
                assert(start > 0) by {
                    if start == 0 {
                        reveal_with_fuel(pow10, 2);
                        assert(pow10(1) == 10);
                    }
                }
                assert(pow10((start + 1) as nat) == 10 * pow10(start as nat));
            }
        }
        value = value / 10;
        if value == 0 {
            more = false;
        }
    }
    let text = slice_subrange(digits.as_slice(), start, 10);
    assert(text@ =~= whole);
    proof {
        lemma_decimal_text(number as nat);
        lemma_encode_concat(done, decimal(number as nat));
    }
    push_bytes(out, at, text, Ghost(encode_utf8(done)))
}

/// Copies an IPv4 address into `out` at `at`, where it fits.
fn push_ipv4(out: &mut [u8], at: Option<usize>, ip: Ipv4, Ghost(done): Ghost<Seq<char>>) -> (r:
    Option<usize>)
    requires
        holds_text(old(out)@, at, done),
    ensures
        final(out)@.len() == old(out)@.len(),
        holds_text(final(out)@, r, done + ipv4_text(ip)),
{
    let ghost d1 = done + decimal(ip.a as nat);
    let ghost d2 = d1 + "."@;
    let ghost d3 = d2 + decimal(ip.b as nat);
    let ghost d4 = d3 + "."@;
    let ghost d5 = d4 + decimal(ip.c as nat);
    let ghost d6 = d5 + "."@;
    let ghost d7 = d6 + decimal(ip.d as nat);
    let at = push_uint(out, at, ip.a as u32, Ghost(done));
    let at = push_str(out, at, ".", Ghost(d1));
    let at = push_uint(out, at, ip.b as u32, Ghost(d2));
    let at = push_str(out, at, ".", Ghost(d3));
    let at = push_uint(out, at, ip.c as u32, Ghost(d4));
    let at = push_str(out, at, ".", Ghost(d5));
    let at = push_uint(out, at, ip.d as u32, Ghost(d6));
    assert(d7 =~= done + ipv4_text(ip));
    at
}

/// Writes the time and a line, as it is logged, into a buffer, and returns the length. Returns
/// `None` where they do not fit, or where the peer's address is an IPv6 address: then
/// [`render_line`] is to be used.
pub fn render_line_stack(stamp: &str, line: &AccessLine, out: &mut [u8]) -> (r: Option<usize>)
    ensures
        final(out)@.len() == old(out)@.len(),
        ({
            let whole = encode_utf8(stamp@ + logged_text(*line));
            &&& r is Some <==> !(line.ip matches Some(PeerIp::V6(_))) && whole.len() <= old(
                out,
            )@.len()
            &&& r matches Some(len) ==> len == whole.len() && final(out)@.take(len as int) == whole
        }),
{
    proof {
        assert(encode_utf8(Seq::<char>::empty()) =~= Seq::<u8>::empty());
        assert(out@.take(0) =~= Seq::<u8>::empty());
        assert(holds_text(out@, Some(0), Seq::<char>::empty()));
    }
    let ghost none = Seq::<char>::empty();
    let ghost t1 = none + stamp@;
    let ghost t2 = t1 + "  INFO lanfile: "@;
    let ghost t3 = t2 + "access ip="@;
    let ghost t4 = t3 + ip_text(line.ip);
    let ghost t5 = t4 + " method="@;
    let ghost t6 = t5 + line.method@;
    let ghost t7 = t6 + " path="@;
    let ghost t8 = t7 + line.path@;
    let ghost t9 = t8 + " version="@;
    let ghost t10 = t9 + version_text(line.version);
    let ghost t11 = t10 + " status="@;
    let ghost t12 = t11 + decimal(line.status as nat);
    let ghost t13 = t12 + " size="@;
    let ghost t14 = t13 + line.size@;
    let ghost t15 = t14 + "\n"@;
    let at = push_str(out, Some(0), stamp, Ghost(none));
    let at = push_str(out, at, "  INFO lanfile: ", Ghost(t1));
    let at = push_str(out, at, "access ip=", Ghost(t2));
    let at = match &line.ip {
        None => push_str(out, at, "None", Ghost(t3)),
        Some(PeerIp::V4(ip)) => {
            let ghost i1 = t3 + "Some("@;
            let ghost i2 = i1 + ipv4_text(*ip);
            let at = push_str(out, at, "Some(", Ghost(t3));
            let at = push_ipv4(out, at, *ip, Ghost(i1));
            let at = push_str(out, at, ")", Ghost(i2));
            assert(i2 + ")"@ =~= t4);
            at
        },
        Some(PeerIp::V6(_)) => {
            return None;
        },
    };
    let at = push_str(out, at, " method=", Ghost(t4));
    let at = push_str(out, at, line.method, Ghost(t5));
    let at = push_str(out, at, " path=", Ghost(t6));
    let at = push_str(out, at, line.path, Ghost(t7));
    let at = push_str(out, at, " version=", Ghost(t8));
    let at = push_str(out, at, version_str(line.version), Ghost(t9));
    let at = push_str(out, at, " status=", Ghost(t10));
    let at = push_uint(out, at, line.status as u32, Ghost(t11));
    let at = push_str(out, at, " size=", Ghost(t12));
    let at = push_str(out, at, line.size, Ghost(t13));
    let at = push_str(out, at, "\n", Ghost(t14));
    assert(t15 =~= stamp@ + logged_text(*line));
    at
}

/// Where the access log goes.
#[derive(Clone, Copy, PartialEq, Eq, Structural)]
pub enum LogMode {
    /// Nowhere.
    Off,
    /// To the logger, which knows about terminals.
    Tracing,
    /// Straight into the buffer of the log.
    Direct,
}

/// Where the access log goes: nowhere where it is switched off, and past the logger where the
/// output is no terminal.
pub fn log_mode(enabled: bool, is_terminal: bool) -> (r: LogMode)
    ensures
        !enabled ==> r is Off,
        enabled && is_terminal ==> r is Tracing,
        enabled && !is_terminal ==> r is Direct,
{
    if !enabled {
        LogMode::Off
    } else if is_terminal {
        LogMode::Tracing
    } else {
        LogMode::Direct
    }
}

/// The line for a request and its response. A response without a status has status 200; one whose
/// length is not known has the size `-`.
pub fn access_line<'a>(
    ip: Option<PeerIp>,
    method: &'a str,
    path: &'a str,
    version: Version,
    status: Option<u16>,
    content_length: Option<&'a str>,
) -> (r: AccessLine<'a>)
    ensures
        r.ip == ip,
        r.method == method,
        r.path == path,
        r.version == version,
        r.status == (if status is Some {
            status->0
        } else {
            200
        }),
        r.size@ == (match content_length {
            Some(text) => text@,
            None => "-"@,
        }),
{
    AccessLine {
        ip,
        method,
        path,
        version,
        status: match status {
            Some(code) => code,
            None => 200,
        },
        size: match content_length {
            Some(text) => text,
            None => "-",
        },
    }
}

/// The text of the time, kept for a second.
pub struct Stamp {
    second: i64,
    text: String,
}

impl Stamp {
    /// The second that the text belongs to.
    pub closed spec fn second(&self) -> i64 {
        self.second
    }

    /// The text.
    pub closed spec fn text(&self) -> Seq<char> {
        self.text@
    }

    /// No text yet.
    pub fn new() -> (r: Stamp)
        ensures
            r.second() == i64::MIN,
            r.text() == Seq::<char>::empty(),
    {
        let text = String::new();
        assert(text@ =~= Seq::<char>::empty());
        Stamp { second: i64::MIN, text }
    }

    /// The text, where it belongs to this second; else it has to be made anew.
    pub fn get(&self, second: i64) -> (r: Option<&str>)
        ensures
            r is Some <==> self.second() == second,
            r matches Some(text) ==> text@ == self.text(),
    {
        if self.second == second {
            Some(self.text.as_str())
        } else {
            None
        }
    }

    /// Keeps the text of a second.
    pub fn set(&mut self, second: i64, text: String)
        ensures
            final(self).second() == second,
            final(self).text() == text@,
    {
        self.second = second;
        self.text = text;
    }
}

/// A line that is written without an allocation has the same bytes as one that is not.
pub proof fn law_same_line(stamp: Seq<char>, line: AccessLine)
    ensures
        encode_utf8(stamp + logged_text(line)) == encode_utf8(stamp) + encode_utf8(
            logged_text(line),
        ),
{
    lemma_encode_concat(stamp, logged_text(line));
}

/// A line names what was asked and what was answered, each behind its own word and in this order.
pub proof fn law_line_names_its_fields(line: AccessLine)
    ensures
        ({
            let text = line_text(line);
            let ip = "access ip="@ + ip_text(line.ip);
            let asked = " method="@ + line.method@ + " path="@ + line.path@ + " version="@
                + version_text(line.version);
            let answered = " status="@ + decimal(line.status as nat) + " size="@ + line.size@;
            &&& text == ip + asked + answered
            &&& logged_text(line) == "  INFO lanfile: "@ + text + "\n"@
        }),
{
    let ip = "access ip="@ + ip_text(line.ip);
    let asked = " method="@ + line.method@ + " path="@ + line.path@ + " version="@ + version_text(
        line.version,
    );
    let answered = " status="@ + decimal(line.status as nat) + " size="@ + line.size@;
    assert(line_text(line) =~= ip + asked + answered);
}

/// A peer is shown by its address, and one that is not known as such.
pub proof fn law_peer_is_shown(ip: Ipv4, text: String)
    ensures
        ip_text(Some(PeerIp::V4(ip))) == "Some("@ + ipv4_text(ip) + ")"@,
        ip_text(Some(PeerIp::V6(text))) == "Some("@ + text@ + ")"@,
        ip_text(None) == "None"@,
{
}

/// A version is shown by its name, which differs from that of each other.
pub proof fn law_versions_differ(a: Version, b: Version)
    ensures
        version_text(a) == version_text(b) ==> a == b,
        "HTTP/"@.is_prefix_of(version_text(a)),
        version_text(Version::Http11).skip(5) == "1.1"@,
        version_text(Version::Http10).skip(5) == "1.0"@,
        version_text(Version::Http09).skip(5) == "0.9"@,
        version_text(Version::Http2).skip(5) == "2.0"@,
        version_text(Version::Http3).skip(5) == "3.0"@,
{
    reveal_strlit("HTTP/");
    reveal_strlit("HTTP/0.9");
    reveal_strlit("HTTP/1.0");
    reveal_strlit("HTTP/1.1");
    reveal_strlit("HTTP/2.0");
    reveal_strlit("HTTP/3.0");
    reveal_strlit("0.9");
    reveal_strlit("1.0");
    reveal_strlit("1.1");
    reveal_strlit("2.0");
    reveal_strlit("3.0");
    assert("HTTP/"@ =~= version_text(a).subrange(0, 5));
    assert(version_text(a)[5] == version_text(b)[5] && version_text(a)[7] == version_text(b)[7]
        ==> a == b);
    assert("HTTP/1.1"@.skip(5) =~= "1.1"@);
    assert("HTTP/1.0"@.skip(5) =~= "1.0"@);
    assert("HTTP/0.9"@.skip(5) =~= "0.9"@);
    assert("HTTP/2.0"@.skip(5) =~= "2.0"@);
    assert("HTTP/3.0"@.skip(5) =~= "3.0"@);
}

} // verus!

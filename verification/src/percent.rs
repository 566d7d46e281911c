//! Percent-encoding: what a URL path escapes and how it is read back.
use crate::text::{from_utf8_lossy, lemma_ascii_occurs, lemma_encode_concat, push_char, text_of};
use vstd::prelude::*;
use vstd::utf8::*;

verus! {

/// The value of a hexadecimal digit of either case.
pub open spec fn hex_value(b: u8) -> Option<u8> {
    if 0x30 <= b <= 0x39 {
        Some((b - 0x30) as u8)
    } else if 0x61 <= b <= 0x66 {
        Some((b - 0x61 + 10) as u8)
    } else if 0x41 <= b <= 0x46 {
        Some((b - 0x41 + 10) as u8)
    } else {
        None
    }
}

/// Whether `s` begins with a percent sign and two hexadecimal digits.
pub open spec fn begins_escape(s: Seq<u8>) -> bool {
    s.len() >= 3 && s[0] == 0x25 && hex_value(s[1]) is Some && hex_value(s[2]) is Some
}

/// `s` with each escape `%XX` replaced by the byte it stands for; a percent sign that begins no
/// escape stays.
pub open spec fn percent_decoded(s: Seq<u8>) -> Seq<u8>
    decreases s.len(),
{
    if s.len() == 0 {
        Seq::empty()
    } else if begins_escape(s) {
        seq![(hex_value(s[1])->0 * 16 + hex_value(s[2])->0) as u8] + percent_decoded(s.skip(3))
    } else {
        seq![s[0]] + percent_decoded(s.skip(1))
    }
}

/// The bytes that are never escaped: letters, digits and `-_.~`.
pub open spec fn is_unreserved(b: u8) -> bool {
    ||| 0x30 <= b <= 0x39
    ||| 0x61 <= b <= 0x7a
    ||| 0x41 <= b <= 0x5a
    ||| b == 0x2d
    ||| b == 0x5f
    ||| b == 0x2e
    ||| b == 0x7e
}

/// The upper-case hexadecimal digit of `n`.
pub open spec fn hex_digit_char(n: u8) -> char {
    if n < 10 {
        (0x30 + n) as u8 as char
    } else {
        (0x41 + (n - 10)) as u8 as char
    }
}

/// How one byte is written: as itself where it is unreserved, or a slash that is kept, else as
/// `%XX`.
pub open spec fn escaped_byte(b: u8, keep_slash: bool) -> Seq<char> {
    if is_unreserved(b) || (keep_slash && b == 0x2f) {
        seq![b as char]
    } else {
        seq!['%', hex_digit_char(b / 16), hex_digit_char(b % 16)]
    }
}

/// How a byte sequence is written.
pub open spec fn escaped(s: Seq<u8>, keep_slash: bool) -> Seq<char>
    decreases s.len(),
{
    if s.len() == 0 {
        Seq::empty()
    } else {
        escaped(s.drop_last(), keep_slash) + escaped_byte(s.last(), keep_slash)
    }
}

/// The text of a percent-encoded path: the decoded bytes, with replacement characters where they
/// are not UTF-8.
pub open spec fn percent_decoded_text(s: Seq<char>) -> Seq<char> {
    text_of(percent_decoded(encode_utf8(s)))
}

proof fn lemma_escaped_byte(b: u8, keep_slash: bool)
    ensures
        is_ascii_chars(escaped_byte(b, keep_slash)),
        is_unreserved(b) || (keep_slash && b == 0x2f) ==> encode_utf8(escaped_byte(b, keep_slash))
            == seq![b],
        !(is_unreserved(b) || (keep_slash && b == 0x2f)) ==> {
            let e = encode_utf8(escaped_byte(b, keep_slash));
            &&& e.len() == 3
            &&& begins_escape(e)
            &&& hex_value(e[1])->0 == b / 16
            &&& hex_value(e[2])->0 == b % 16
        },
{
    let e = escaped_byte(b, keep_slash);
    is_ascii_chars_encode_utf8(e);
    if is_unreserved(b) || (keep_slash && b == 0x2f) {
        assert(encode_utf8(e) =~= seq![b]);
    }
}

/// The bytes written for `s`, front first.
pub proof fn lemma_escaped_front(s: Seq<u8>, keep_slash: bool)
    requires
        s.len() > 0,
    ensures
        escaped(s, keep_slash) == escaped_byte(s[0], keep_slash) + escaped(s.drop_first(), keep_slash),
    decreases s.len(),
{
    if s.len() == 1 {
        assert(s.drop_last() =~= Seq::<u8>::empty());
        assert(s.drop_first() =~= Seq::<u8>::empty());
        assert(escaped(s, keep_slash) =~= escaped_byte(s[0], keep_slash) + escaped(s.drop_first(), keep_slash));
    } else {
        lemma_escaped_front(s.drop_last(), keep_slash);
        assert(s.drop_last().drop_first() =~= s.drop_first().drop_last());
        assert(s.drop_first().last() == s.last());
        assert(escaped(s, keep_slash) =~= escaped_byte(s[0], keep_slash) + escaped(s.drop_first(), keep_slash));
    }
}

/// Decoding what was written for a byte sequence gives the sequence back.
pub proof fn lemma_escaped_all(s: Seq<u8>, keep_slash: bool)
    ensures
        percent_decoded(encode_utf8(escaped(s, keep_slash))) == s,
        is_ascii_chars(escaped(s, keep_slash)),
    decreases s.len(),
{
    if s.len() == 0 {
        assert(percent_decoded(encode_utf8(escaped(s, keep_slash))) =~= s);
    } else {
        let rest = s.drop_first();
        lemma_escaped_all(rest, keep_slash);
        lemma_escaped_front(s, keep_slash);
        let head = escaped_byte(s[0], keep_slash);
        lemma_encode_concat(head, escaped(rest, keep_slash));
        lemma_escaped_byte(s[0], keep_slash);
        let all = encode_utf8(escaped(s, keep_slash));
        let tail = encode_utf8(escaped(rest, keep_slash));
        let e = encode_utf8(head);
        assert(all == e + tail);
        if is_unreserved(s[0]) || (keep_slash && s[0] == 0x2f) {
            assert(all[0] == s[0]);
            assert(all.skip(1) =~= tail);
        } else {
            assert(all[0] == e[0] && all[1] == e[1] && all[2] == e[2]);
            assert(begins_escape(all));
            assert(all.skip(3) =~= tail);
            assert((s[0] / 16) * 16 + s[0] % 16 == s[0]);
        }
        assert(percent_decoded(all) =~= s);
        assert(s =~= seq![s[0]] + rest);
    }
}

/// A path that was encoded for a request reads back as the same path.
pub proof fn law_encode_then_decode(path: Seq<char>)
    ensures
        percent_decoded_text(escaped(encode_utf8(path), true)) == path,
{
    lemma_escaped_all(encode_utf8(path), true);
    encode_utf8_valid_utf8(path);
    encode_utf8_decode_utf8(path);
}

/// A path without a percent sign reads as itself.
pub proof fn law_plain_reads_as_itself(path: Seq<char>)
    requires
        !path.contains('%'),
    ensures
        percent_decoded_text(path) == path,
{
    lemma_ascii_occurs(path, '%');
    lemma_nothing_escaped(encode_utf8(path));
    encode_utf8_valid_utf8(path);
    encode_utf8_decode_utf8(path);
}

proof fn lemma_nothing_escaped(s: Seq<u8>)
    requires
        !s.contains(0x25),
    ensures
        percent_decoded(s) == s,
    decreases s.len(),
{
    if s.len() > 0 {
        assert(s.contains(s[0]));
        let rest = s.skip(1);
        assert forall|i: int| 0 <= i < rest.len() implies rest[i] != 0x25 by {
            assert(s.contains(s[i + 1]));
        }
        lemma_nothing_escaped(rest);
        assert(percent_decoded(s) =~= s);
    } else {
        assert(percent_decoded(s) =~= s);
    }
}

/// The value of a hexadecimal digit.
pub fn hex_digit(b: u8) -> (r: Option<u8>)
    ensures
        r == hex_value(b),
{
    if 0x30 <= b && b <= 0x39 {
        Some(b - 0x30)
    } else if 0x61 <= b && b <= 0x66 {
        Some(b - 0x61 + 10)
    } else if 0x41 <= b && b <= 0x46 {
        Some(b - 0x41 + 10)
    } else {
        None
    }
}

/// The bytes of `input` with every escape replaced by the byte it stands for.
pub fn percent_decode_bytes(bytes: &[u8]) -> (r: Vec<u8>)
    ensures
        r@ == percent_decoded(bytes@),
{
    let mut out: Vec<u8> = Vec::with_capacity(bytes.len());
    let mut i: usize = 0;
    assert(bytes@.skip(0) =~= bytes@);
    while i < bytes.len()
        invariant
            0 <= i <= bytes@.len(),
            out@ + percent_decoded(bytes@.skip(i as int)) == percent_decoded(bytes@),
        decreases bytes@.len() - i,
    {
        let ghost rest = bytes@.skip(i as int);
        let ghost done = out@;
        if bytes[i] == 0x25 && bytes.len() - i > 2 {
            let hi = hex_digit(bytes[i + 1]);
            let lo = hex_digit(bytes[i + 2]);
            assert(rest[1] == bytes@[i + 1] && rest[2] == bytes@[i + 2]);
            if let (Some(hi), Some(lo)) = (hi, lo) {
                assert(begins_escape(rest));
                assert(rest.skip(3) =~= bytes@.skip(i + 3));
                out.push(hi * 16 + lo);
                assert(out@ + percent_decoded(bytes@.skip(i + 3)) =~= done + percent_decoded(rest));
                i = i + 3;
                continue ;
            }
        }
        assert(!begins_escape(rest));
        assert(rest.skip(1) =~= bytes@.skip(i + 1));
        out.push(bytes[i]);
        assert(out@ + percent_decoded(bytes@.skip(i + 1)) =~= done + percent_decoded(rest));
        i = i + 1;
    }
    assert(bytes@.skip(i as int) =~= Seq::<u8>::empty());
    assert(out@ =~= percent_decoded(bytes@));
    out
}

/// Decodes a percent-encoded path. The result is text: bytes that are not UTF-8 come out as
/// replacement characters.
pub fn percent_decode(input: &str) -> (r: String)
    ensures
        r@ == percent_decoded_text(input@),
        input@.len() > 0 ==> r@.len() > 0,
{
    proof {
        if input@.len() > 0 {
            encode_utf8_first_scalar(input@);
            assert(percent_decoded(encode_utf8(input@)).len() > 0);
        }
    }
    let decoded = percent_decode_bytes(input.as_bytes());
    from_utf8_lossy(decoded.as_slice())
}

fn hex_char(n: u8) -> (r: char)
    requires
        n < 16,
    ensures
        r == hex_digit_char(n),
{
    if n < 10 {
        (0x30 + n) as char
    } else {
        (0x41 + (n - 10)) as char
    }
}

/// Appends the written form of `bytes` to `out`.
pub fn push_escaped(out: &mut String, bytes: &[u8], keep_slash: bool)
    ensures
        final(out)@ == old(out)@ + escaped(bytes@, keep_slash),
{
    let mut i: usize = 0;
    let ghost start = out@;
    assert(start + escaped(bytes@.take(0), keep_slash) =~= start);
    while i < bytes.len()
        invariant
            0 <= i <= bytes@.len(),
            out@ == start + escaped(bytes@.take(i as int), keep_slash),
        decreases bytes@.len() - i,
    {
        let b = bytes[i];
        let ghost done = out@;
        if (0x30 <= b && b <= 0x39) || (0x61 <= b && b <= 0x7a) || (0x41 <= b && b <= 0x5a) || b
            == 0x2d || b == 0x5f || b == 0x2e || b == 0x7e || (keep_slash && b == 0x2f) {
            push_char(out, b as char);
        } else {
            push_char(out, '%');
            push_char(out, hex_char(b / 16));
            push_char(out, hex_char(b % 16));
        }
        assert(out@ =~= done + escaped_byte(b, keep_slash));
        i = i + 1;
        let ghost so_far = bytes@.take(i as int);
        assert(so_far.drop_last() =~= bytes@.take(i - 1));
        assert(out@ =~= start + escaped(so_far, keep_slash));
    }
    assert(bytes@.take(bytes@.len() as int) =~= bytes@);
}

/// Encodes a remote path for a request line: letters, digits, `-_.~` and the separator `/` stay,
/// every other byte of the UTF-8 text is escaped.
pub fn encode_path(path: &str) -> (r: String)
    ensures
        r@ == escaped(encode_utf8(path@), true),
{
    let mut out = String::new();
    push_escaped(&mut out, path.as_bytes(), true);
    assert(out@ =~= escaped(encode_utf8(path@), true));
    out
}

/// [`salvo::routing::decode_url_path`]: the percent-decoded bytes of a path, read as
/// [`String::from_utf8_lossy`] reads them.
#[verifier::external_body]
pub(crate) fn decode_url_path(path: &str) -> (r: String)
    ensures
        r@ == percent_decoded_text(path@),
{
    salvo::routing::decode_url_path(path).into_owned()
}

/// A hexadecimal digit stands for the same number in upper and in lower case, and nothing else stands
/// for a number: the digits are `0123456789ABCDEF`, by their value.
pub proof fn law_hex_digits(b: u8)
    ensures
        hex_value(b) matches Some(v) ==> v < 16 && (b as char == "0123456789ABCDEF"@[v as int]
            || b as char == "0123456789abcdef"@[v as int]),
        forall|v: int|
            0 <= v < 16 && (b as char == #[trigger] "0123456789ABCDEF"@[v]) ==> hex_value(b) == Some(
                v as u8,
            ),
        forall|v: int|
            0 <= v < 16 && (b as char == #[trigger] "0123456789abcdef"@[v]) ==> hex_value(b) == Some(
                v as u8,
            ),
{
    reveal_strlit("0123456789ABCDEF");
    reveal_strlit("0123456789abcdef");
}

/// A byte is written as two hexadecimal digits in upper case behind a percent sign, and they read
/// back as the byte in either case.
pub proof fn law_escape_reads_back(b: u8, rest: Seq<u8>)
    ensures
        ({
            let hi = b / 16;
            let lo = b % 16;
            let upper = "0123456789ABCDEF"@;
            let lower = "0123456789abcdef"@;
            &&& percent_decoded(
                seq![0x25u8, upper[hi as int] as u8, upper[lo as int] as u8] + rest,
            ) == seq![b] + percent_decoded(rest)
            &&& percent_decoded(
                seq![0x25u8, lower[hi as int] as u8, lower[lo as int] as u8] + rest,
            ) == seq![b] + percent_decoded(rest)
        }),
{
    reveal_strlit("0123456789ABCDEF");
    reveal_strlit("0123456789abcdef");
    let hi = b / 16;
    let lo = b % 16;
    let up = seq![0x25u8, "0123456789ABCDEF"@[hi as int] as u8, "0123456789ABCDEF"@[lo as int] as u8];
    let low = seq![0x25u8, "0123456789abcdef"@[hi as int] as u8, "0123456789abcdef"@[lo as int] as u8];
    assert((up + rest).skip(3) =~= rest);
    assert((low + rest).skip(3) =~= rest);
    assert((up + rest)[0] == 0x25 && (up + rest)[1] == up[1] && (up + rest)[2] == up[2]);
    assert((low + rest)[0] == 0x25 && (low + rest)[1] == low[1] && (low + rest)[2] == low[2]);
    assert(hex_value(up[1]) == Some(hi));
    assert(hex_value(up[2]) == Some(lo));
    assert(hex_value(low[1]) == Some(hi));
    assert(hex_value(low[2]) == Some(lo));
}

/// A byte that begins no escape stands for itself: any but the percent sign, and the percent sign
/// without two hexadecimal digits behind it.
pub proof fn law_other_bytes_stay(b: u8, rest: Seq<u8>)
    requires
        b != 0x25 || rest.len() < 2 || hex_value(rest[0]) is None || hex_value(rest[1]) is None,
    ensures
        percent_decoded(seq![b] + rest) == seq![b] + percent_decoded(rest),
        percent_decoded(Seq::<u8>::empty()).len() == 0,
{
    let s = seq![b] + rest;
    assert(s.skip(1) =~= rest);
    if rest.len() >= 2 {
        assert(s[1] == rest[0] && s[2] == rest[1]);
    }
}

/// Letters, digits, `-`, `_`, `.` and `~` are written as they are, the slash where it is kept, and
/// every other byte as a percent sign and two hexadecimal digits in upper case.
pub proof fn law_what_is_escaped(s: Seq<u8>, b: u8, keep_slash: bool)
    ensures
        ({
            let c = b as char;
            let plain = 'a' <= c <= 'z' || 'A' <= c <= 'Z' || '0' <= c <= '9' || "-_.~"@.contains(c)
                || (keep_slash && c == '/');
            let hex = "0123456789ABCDEF"@;
            escaped(s.push(b), keep_slash) == escaped(s, keep_slash) + if plain {
                seq![c]
            } else {
                seq!['%', hex[(b / 16) as int], hex[(b % 16) as int]]
            }
        }),
        escaped(Seq::<u8>::empty(), keep_slash).len() == 0,
{
    reveal_strlit("0123456789ABCDEF");
    reveal_strlit("-_.~");
    assert(s.push(b).drop_last() =~= s);
    let c = b as char;
    let marks = "-_.~"@;
    if b == 0x2d || b == 0x5f || b == 0x2e || b == 0x7e {
        assert(marks[0] == '-' && marks[1] == '_' && marks[2] == '.' && marks[3] == '~');
        assert(marks.contains(c));
    }
}

/// A text is written escaped piece by piece.
pub proof fn law_escaped_concat(a: Seq<u8>, b: Seq<u8>, keep_slash: bool)
    ensures
        escaped(a + b, keep_slash) == escaped(a, keep_slash) + escaped(b, keep_slash),
    decreases b.len(),
{
    if b.len() == 0 {
        assert(a + b =~= a);
        assert(escaped(a, keep_slash) + escaped(b, keep_slash) =~= escaped(a, keep_slash));
    } else {
        law_escaped_concat(a, b.drop_last(), keep_slash);
        assert((a + b).drop_last() =~= a + b.drop_last());
        assert(escaped(a + b, keep_slash) =~= escaped(a, keep_slash) + escaped(b, keep_slash));
    }
}

/// What decodes to the bytes of a text reads as that text.
pub proof fn law_decoded_bytes_are_the_text(s: Seq<char>, text: Seq<char>)
    requires
        percent_decoded(encode_utf8(s)) == encode_utf8(text),
    ensures
        percent_decoded_text(s) == text,
{
    encode_utf8_valid_utf8(text);
    encode_utf8_decode_utf8(text);
}

} // verus!

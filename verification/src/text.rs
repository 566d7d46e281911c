//! Strings as sequences of characters: the few searches and cuts that the parsers share, and the
//! facts that tie a string's characters to its UTF-8 bytes.
use vstd::prelude::*;
use vstd::slice::slice_subrange;
use vstd::utf8::*;

verus! {

/// How many elements at the front of `s` satisfy `p`.
pub open spec fn leading<T>(s: Seq<T>, p: spec_fn(T) -> bool) -> nat
    decreases s.len(),
{
    if s.len() > 0 && p(s[0]) {
        1 + leading(s.drop_first(), p)
    } else {
        0
    }
}

/// How many elements at the back of `s` satisfy `p`.
pub open spec fn trailing_run<T>(s: Seq<T>, p: spec_fn(T) -> bool) -> nat
    decreases s.len(),
{
    if s.len() > 0 && p(s.last()) {
        1 + trailing_run(s.drop_last(), p)
    } else {
        0
    }
}

/// `s` without the elements at its front that satisfy `p`.
pub open spec fn trim_front<T>(s: Seq<T>, p: spec_fn(T) -> bool) -> Seq<T> {
    s.skip(leading(s, p) as int)
}

/// `s` without the elements at its back that satisfy `p`.
pub open spec fn trim_back<T>(s: Seq<T>, p: spec_fn(T) -> bool) -> Seq<T> {
    s.take(s.len() - trailing_run(s, p))
}

/// `s` without the elements at either end that satisfy `p`.
pub open spec fn trim_both<T>(s: Seq<T>, p: spec_fn(T) -> bool) -> Seq<T> {
    trim_back(trim_front(s, p), p)
}

/// The elements equal to `x`.
pub open spec fn equals<T>(x: T) -> spec_fn(T) -> bool {
    |y: T| y == x
}

/// The elements other than `x`.
pub open spec fn differs<T>(x: T) -> spec_fn(T) -> bool {
    |y: T| y != x
}

/// `s` up to the first `x`; all of `s` where `x` does not occur.
pub open spec fn before<T>(s: Seq<T>, x: T) -> Seq<T> {
    s.take(leading(s, differs(x)) as int)
}

/// What follows the first `x` in `s`; empty where `x` does not occur.
pub open spec fn after<T>(s: Seq<T>, x: T) -> Seq<T> {
    if s.contains(x) {
        s.skip(leading(s, differs(x)) as int + 1)
    } else {
        Seq::empty()
    }
}

/// The pieces of `s` between the `x` in it: one more than there are `x`.
pub open spec fn split<T>(s: Seq<T>, x: T) -> Seq<Seq<T>>
    decreases s.len(),
{
    let n = leading(s, differs(x)) as int;
    if n < s.len() {
        seq![s.take(n)] + split(s.skip(n + 1), x)
    } else {
        seq![s]
    }
}

/// The characters with the Unicode property `White_Space`.
pub open spec fn is_white_space(c: char) -> bool {
    ||| '\u{9}' <= c <= '\u{d}'
    ||| c == ' '
    ||| c == '\u{85}'
    ||| c == '\u{a0}'
    ||| c == '\u{1680}'
    ||| '\u{2000}' <= c <= '\u{200a}'
    ||| c == '\u{2028}'
    ||| c == '\u{2029}'
    ||| c == '\u{202f}'
    ||| c == '\u{205f}'
    ||| c == '\u{3000}'
}

/// [`is_white_space`] as a predicate.
pub open spec fn white_space() -> spec_fn(char) -> bool {
    |c: char| is_white_space(c)
}

/// `s` without the white space at either end.
pub open spec fn trimmed(s: Seq<char>) -> Seq<char> {
    trim_both(s, white_space())
}

/// A run of `n` elements that satisfy `p`, ended by the end of `s` or by one that does not, is
/// the leading run.
pub proof fn lemma_leading<T>(s: Seq<T>, p: spec_fn(T) -> bool, n: int)
    requires
        0 <= n <= s.len(),
        forall|i: int| 0 <= i < n ==> p(#[trigger] s[i]),
        n < s.len() ==> !p(s[n]),
    ensures
        leading(s, p) == n,
    decreases n,
{
    if n > 0 {
        assert(p(s[0]));
        let rest = s.drop_first();
        assert forall|i: int| 0 <= i < n - 1 implies p(#[trigger] rest[i]) by {
            assert(rest[i] == s[i + 1]);
        }
        lemma_leading(rest, p, n - 1);
    }
}

/// The leading run lies in the sequence, satisfies `p` throughout, and cannot be prolonged.
pub proof fn lemma_leading_run<T>(s: Seq<T>, p: spec_fn(T) -> bool)
    ensures
        leading(s, p) <= s.len(),
        forall|i: int| 0 <= i < leading(s, p) ==> p(#[trigger] s[i]),
        leading(s, p) < s.len() ==> !p(s[leading(s, p) as int]),
    decreases s.len(),
{
    if s.len() > 0 && p(s[0]) {
        let rest = s.drop_first();
        lemma_leading_run(rest, p);
        assert forall|i: int| 0 <= i < leading(s, p) implies p(#[trigger] s[i]) by {
            if i > 0 {
                assert(s[i] == rest[i - 1]);
            }
        }
    }
}

/// The counterpart of [`lemma_leading`] at the back of the sequence.
pub proof fn lemma_trailing_run<T>(s: Seq<T>, p: spec_fn(T) -> bool, n: int)
    requires
        0 <= n <= s.len(),
        forall|i: int| s.len() - n <= i < s.len() ==> p(#[trigger] s[i]),
        n < s.len() ==> !p(s[s.len() - n - 1]),
    ensures
        trailing_run(s, p) == n,
    decreases n,
{
    if n > 0 {
        assert(p(s[s.len() - 1]));
        let rest = s.drop_last();
        assert forall|i: int| rest.len() - (n - 1) <= i < rest.len() implies p(
            #[trigger] rest[i],
        ) by {
            assert(rest[i] == s[i]);
        }
        lemma_trailing_run(rest, p, n - 1);
    }
}

/// The trailing run lies in the sequence, satisfies `p` throughout, and cannot be prolonged.
pub proof fn lemma_trailing_run_bound<T>(s: Seq<T>, p: spec_fn(T) -> bool)
    ensures
        trailing_run(s, p) <= s.len(),
        forall|i: int| s.len() - trailing_run(s, p) <= i < s.len() ==> p(#[trigger] s[i]),
        trailing_run(s, p) < s.len() ==> !p(s[s.len() - trailing_run(s, p) - 1]),
    decreases s.len(),
{
    if s.len() > 0 && p(s.last()) {
        let rest = s.drop_last();
        lemma_trailing_run_bound(rest, p);
        assert forall|i: int| s.len() - trailing_run(s, p) <= i < s.len() implies p(
            #[trigger] s[i],
        ) by {
            if i < s.len() - 1 {
                assert(s[i] == rest[i]);
            }
        }
    }
}

/// The bytes of two strings put together are the bytes of the first and then of the second.
pub proof fn lemma_encode_concat(a: Seq<char>, b: Seq<char>)
    ensures
        encode_utf8(a + b) == encode_utf8(a) + encode_utf8(b),
    decreases a.len(),
{
    if a.len() == 0 {
        assert(a + b =~= b);
        assert(encode_utf8(a) + encode_utf8(b) =~= encode_utf8(b));
    } else {
        assert((a + b).drop_first() =~= a.drop_first() + b);
        lemma_encode_concat(a.drop_first(), b);
        assert(encode_utf8(a + b) =~= encode_utf8(a) + encode_utf8(b));
    }
}

/// The bytes of one character that is not ASCII all have the high bit set.
proof fn lemma_encode_scalar_high(v: u32)
    requires
        is_scalar(v),
        v >= 0x80,
    ensures
        forall|i: int| 0 <= i < encode_scalar(v).len() ==> #[trigger] encode_scalar(v)[i] >= 0x80,
{
    assert(0xC0 | ((v >> 6) & 0x1F) as u8 >= 0x80) by (bit_vector);
    assert(0xE0 | ((v >> 12) & 0x0F) as u8 >= 0x80) by (bit_vector);
    assert(0xF0 | ((v >> 18) & 0x7) as u8 >= 0x80) by (bit_vector);
    assert(0x80 | (v & 0x3F) as u8 >= 0x80) by (bit_vector);
    assert(0x80 | ((v >> 6) & 0x3F) as u8 >= 0x80) by (bit_vector);
    assert(0x80 | ((v >> 12) & 0x3F) as u8 >= 0x80) by (bit_vector);
}

/// An ASCII byte occurs in a string's bytes exactly where its character occurs in the string.
pub proof fn lemma_ascii_occurs(s: Seq<char>, c: char)
    requires
        c <= '\u{7f}',
    ensures
        encode_utf8(s).contains(c as u8) <==> s.contains(c),
    decreases s.len(),
{
    if s.len() > 0 {
        let rest = s.drop_first();
        lemma_ascii_occurs(rest, c);
        let v = s[0] as u32;
        char_is_scalar(s[0]);
        let first = encode_scalar(v);
        assert(encode_utf8(s) == first + encode_utf8(rest));
        if v < 0x80 {
            assert(v & 0x7F == v) by (bit_vector)
                requires
                    v < 0x80,
            ;
            assert(first =~= seq![v as u8]);
        } else {
            lemma_encode_scalar_high(v);
        }
        if s.contains(c) {
            if s[0] == c {
                assert(encode_utf8(s)[0] == c as u8);
            } else {
                let i = choose|i: int| 0 <= i < s.len() && s[i] == c;
                assert(rest[i - 1] == c);
                let j = choose|j: int|
                    0 <= j < encode_utf8(rest).len() && encode_utf8(rest)[j] == c as u8;
                assert(encode_utf8(s)[first.len() + j] == c as u8);
            }
        }
        if encode_utf8(s).contains(c as u8) {
            let j = choose|j: int| 0 <= j < encode_utf8(s).len() && encode_utf8(s)[j] == c as u8;
            if j < first.len() {
                assert(encode_utf8(s)[j] == first[j]);
                assert((c as u8) < 0x80);
                assert(v < 0x80);
                assert(first[j] == v as u8);
                assert(v as u8 == v);
                assert(c as u32 == v);
                char_u32_cast(c, v);
                char_u32_cast(s[0], v);
            } else {
                assert(encode_utf8(rest)[j - first.len()] == c as u8);
                let i = choose|i: int| 0 <= i < rest.len() && rest[i] == c;
                assert(s[i + 1] == c);
            }
        }
    }
}

/// What [`String::from_utf8_lossy`] makes of `bytes`.
pub uninterp spec fn lossy_utf8(bytes: Seq<u8>) -> Seq<char>;

/// The text of a byte string: what it decodes to where it is UTF-8, and else its text with
/// replacement characters.
pub open spec fn text_of(bytes: Seq<u8>) -> Seq<char> {
    if valid_utf8(bytes) {
        decode_utf8(bytes)
    } else {
        lossy_utf8(bytes)
    }
}

/// [`String::from_utf8_lossy`]: valid UTF-8 comes back as the string it encodes, anything else
/// with replacement characters in the place of what is not valid. Which replacement characters
/// come where is left to the name [`lossy_utf8`]; some text comes back of any byte.
#[verifier::external_body]
pub(crate) fn from_utf8_lossy(bytes: &[u8]) -> (r: String)
    ensures
        r@ == lossy_utf8(bytes@),
        valid_utf8(bytes@) ==> r@ == decode_utf8(bytes@),
        bytes@.len() > 0 ==> r@.len() > 0,
{
    String::from_utf8_lossy(bytes).into_owned()
}

/// [`String::push`]: puts `c` at the end of `s`.
#[verifier::external_body]
pub(crate) fn push_char(s: &mut String, c: char)
    ensures
        final(s)@ == old(s)@.push(c),
{
    s.push(c)
}

/// The characters of `s`.
pub fn chars_of(s: &str) -> (r: Vec<char>)
    ensures
        r@ == s@,
{
    let mut out: Vec<char> = Vec::new();
    for c in it: s.chars()
        invariant
            it.seq() == s@,
            out@ == s@.take(it.index() as int),
    {
        out.push(c);
        assert(out@ =~= s@.take(it.index() + 1));
    }
    assert(s@.take(s@.len() as int) =~= s@);
    out
}

/// The string of the characters `cs`.
pub fn string_of(cs: &[char]) -> (r: String)
    ensures
        r@ == cs@,
{
    let mut out = String::new();
    let mut i: usize = 0;
    while i < cs.len()
        invariant
            0 <= i <= cs@.len(),
            out@ == cs@.take(i as int),
        decreases cs@.len() - i,
    {
        push_char(&mut out, cs[i]);
        i = i + 1;
        assert(out@ =~= cs@.take(i as int));
    }
    assert(cs@.take(cs@.len() as int) =~= cs@);
    out
}

/// Whether `c` is white space.
pub fn is_white(c: char) -> (r: bool)
    ensures
        r == is_white_space(c),
{
    ('\u{9}' <= c && c <= '\u{d}') || c == ' ' || c == '\u{85}' || c == '\u{a0}' || c
        == '\u{1680}' || ('\u{2000}' <= c && c <= '\u{200a}') || c == '\u{2028}' || c == '\u{2029}'
        || c == '\u{202f}' || c == '\u{205f}' || c == '\u{3000}'
}

/// Whether `cs` begins with `head`.
pub fn starts_with(cs: &[char], head: &str) -> (r: bool)
    ensures
        r == head@.is_prefix_of(cs@),
{
    let head_chars = chars_of(head);
    if head_chars.len() > cs.len() {
        return false;
    }
    let mut i: usize = 0;
    while i < head_chars.len()
        invariant
            head_chars@ == head@,
            head@.len() <= cs@.len(),
            0 <= i <= head@.len(),
            forall|k: int| 0 <= k < i ==> head@[k] == #[trigger] cs@[k],
        decreases head@.len() - i,
    {
        if head_chars[i] != cs[i] {
            assert(cs@.subrange(0, head@.len() as int)[i as int] != head@[i as int]);
            return false;
        }
        i = i + 1;
    }
    assert(head@ =~= cs@.subrange(0, head@.len() as int));
    true
}

/// Whether `cs` is `text`.
pub fn same_text(cs: &[char], text: &str) -> (r: bool)
    ensures
        r == (cs@ == text@),
{
    let r = starts_with(cs, text) && chars_of(text).len() == cs.len();
    proof {
        if r {
            assert(cs@ =~= text@);
        } else if cs@ == text@ {
            assert(cs@.subrange(0, cs@.len() as int) =~= cs@);
        }
    }
    r
}

/// Whether two texts are the same.
pub fn same_str(a: &str, b: &str) -> (r: bool)
    ensures
        r == (a@ == b@),
{
    let chars = chars_of(a);
    same_text(chars.as_slice(), b)
}

/// The index of the first `c` in `cs`; the length of `cs` where `c` does not occur.
pub fn find_char(cs: &[char], c: char) -> (r: usize)
    ensures
        r <= cs@.len(),
        r == leading(cs@, differs(c)),
        r < cs@.len() <==> cs@.contains(c),
        r < cs@.len() ==> cs@[r as int] == c,
{
    let mut i: usize = 0;
    while i < cs.len() && cs[i] != c
        invariant
            0 <= i <= cs@.len(),
            forall|k: int| 0 <= k < i ==> #[trigger] cs@[k] != c,
        decreases cs@.len() - i,
    {
        i = i + 1;
    }
    proof {
        lemma_leading(cs@, differs(c), i as int);
        if i < cs@.len() {
            assert(cs@[i as int] == c);
        }
    }
    i
}

/// `cs` up to the first `c`.
pub fn cut_before(cs: &[char], c: char) -> (r: &[char])
    ensures
        r@ == before(cs@, c),
{
    let at = find_char(cs, c);
    slice_subrange(cs, 0, at)
}

/// What follows the first `c` in `cs`.
pub fn cut_after(cs: &[char], c: char) -> (r: &[char])
    ensures
        r@ == after(cs@, c),
{
    let at = find_char(cs, c);
    if at < cs.len() {
        slice_subrange(cs, at + 1, cs.len())
    } else {
        slice_subrange(cs, at, at)
    }
}

/// `cs` without the `c` at its front.
pub fn trim_char_front(cs: &[char], c: char) -> (r: &[char])
    ensures
        r@ == trim_front(cs@, equals(c)),
{
    let mut i: usize = 0;
    while i < cs.len() && cs[i] == c
        invariant
            0 <= i <= cs@.len(),
            forall|k: int| 0 <= k < i ==> #[trigger] cs@[k] == c,
        decreases cs@.len() - i,
    {
        i = i + 1;
    }
    proof {
        lemma_leading(cs@, equals(c), i as int);
    }
    slice_subrange(cs, i, cs.len())
}

/// `cs` without the `c` at its back.
pub fn trim_char_back(cs: &[char], c: char) -> (r: &[char])
    ensures
        r@ == trim_back(cs@, equals(c)),
{
    let mut end: usize = cs.len();
    while end > 0 && cs[end - 1] == c
        invariant
            0 <= end <= cs@.len(),
            forall|k: int| end <= k < cs@.len() ==> #[trigger] cs@[k] == c,
        decreases end,
    {
        end = end - 1;
    }
    proof {
        lemma_trailing_run(cs@, equals(c), cs@.len() - end);
    }
    slice_subrange(cs, 0, end)
}

/// `cs` without the `c` at either end.
pub fn trim_char(cs: &[char], c: char) -> (r: &[char])
    ensures
        r@ == trim_both(cs@, equals(c)),
{
    trim_char_back(trim_char_front(cs, c), c)
}

/// `cs` without the white space at either end.
pub fn trim_white(cs: &[char]) -> (r: &[char])
    ensures
        r@ == trimmed(cs@),
{
    let mut i: usize = 0;
    while i < cs.len() && is_white(cs[i])
        invariant
            0 <= i <= cs@.len(),
            forall|k: int| 0 <= k < i ==> is_white_space(#[trigger] cs@[k]),
        decreases cs@.len() - i,
    {
        i = i + 1;
    }
    proof {
        lemma_leading(cs@, white_space(), i as int);
    }
    let front = slice_subrange(cs, i, cs.len());
    let mut end: usize = front.len();
    while end > 0 && is_white(front[end - 1])
        invariant
            0 <= end <= front@.len(),
            forall|k: int| end <= k < front@.len() ==> is_white_space(#[trigger] front@[k]),
        decreases end,
    {
        end = end - 1;
    }
    proof {
        lemma_trailing_run(front@, white_space(), front@.len() - end);
    }
    slice_subrange(front, 0, end)
}

/// Trimming takes a run of what is trimmed from each end, and all of it.
pub proof fn law_trim<T>(s: Seq<T>, p: spec_fn(T) -> bool) -> (ends: (Seq<T>, Seq<T>))
    ensures
        s == ends.0 + trim_both(s, p) + ends.1,
        forall|i: int| 0 <= i < ends.0.len() ==> p(#[trigger] ends.0[i]),
        forall|i: int| 0 <= i < ends.1.len() ==> p(#[trigger] ends.1[i]),
        trim_both(s, p).len() > 0 ==> !p(trim_both(s, p)[0]) && !p(trim_both(s, p).last()),
        trim_both(s, p).len() == 0 ==> ends.1.len() == 0,
{
    lemma_leading_run(s, p);
    let n = leading(s, p) as int;
    let rest = s.skip(n);
    lemma_trailing_run_bound(rest, p);
    let m = trailing_run(rest, p) as int;
    let a = s.take(n);
    let b = rest.skip(rest.len() - m);
    assert(s =~= a + trim_both(s, p) + b);
    if m == rest.len() && m > 0 {
        assert(p(rest[0]));
    }
    (a, b)
}

/// A text is cut at the first place where a value stands: what is before it, the value, and what is
/// after it make up the text. Without such a place all of it is before, and nothing after.
pub proof fn law_cut<T>(s: Seq<T>, x: T)
    ensures
        !before(s, x).contains(x),
        s.contains(x) ==> s == before(s, x).push(x) + after(s, x),
        !s.contains(x) ==> before(s, x) == s && after(s, x).len() == 0,
{
    lemma_leading_run(s, differs(x));
    let n = leading(s, differs(x)) as int;
    if s.contains(x) {
        let i = choose|i: int| 0 <= i < s.len() && s[i] == x;
        assert(n < s.len()) by {
            if n == s.len() {
                assert(differs(x)(s[i]));
            }
        }
        assert(s =~= before(s, x).push(x) + after(s, x));
    } else {
        assert(n == s.len());
    }
}

/// Pieces put one behind the other, with a value between them.
pub open spec fn spliced<T>(pieces: Seq<Seq<T>>, x: T) -> Seq<T>
    decreases pieces.len(),
{
    if pieces.len() == 0 {
        Seq::empty()
    } else if pieces.len() == 1 {
        pieces[0]
    } else {
        pieces[0].push(x) + spliced(pieces.drop_first(), x)
    }
}

/// Splitting takes a text apart at a value, everywhere: no piece holds the value, and the pieces with
/// the value between them are the text.
pub proof fn law_split<T>(s: Seq<T>, x: T)
    ensures
        split(s, x).len() > 0,
        spliced(split(s, x), x) == s,
        forall|i: int| 0 <= i < split(s, x).len() ==> !(#[trigger] split(s, x)[i]).contains(x),
    decreases s.len(),
{
    lemma_leading_run(s, differs(x));
    let n = leading(s, differs(x)) as int;
    if n < s.len() {
        let rest = s.skip(n + 1);
        law_split(rest, x);
        let pieces = split(s, x);
        assert(pieces.drop_first() =~= split(rest, x));
        assert(pieces[0] == s.take(n));
        assert(s =~= s.take(n).push(x) + rest);
        assert forall|i: int| 0 <= i < pieces.len() implies !(#[trigger] pieces[i]).contains(x) by {
            if i > 0 {
                assert(pieces[i] == split(rest, x)[i - 1]);
            }
        }
    }
}

/// The white space characters, by their code points.
pub proof fn law_white_space_characters(c: char)
    ensures
        is_white_space(c) <==> seq![
            0x9u32,
            0xa,
            0xb,
            0xc,
            0xd,
            0x20,
            0x85,
            0xa0,
            0x1680,
            0x2000,
            0x2001,
            0x2002,
            0x2003,
            0x2004,
            0x2005,
            0x2006,
            0x2007,
            0x2008,
            0x2009,
            0x200a,
            0x2028,
            0x2029,
            0x202f,
            0x205f,
            0x3000,
        ].contains(c as u32),
{
    let list = seq![
        0x9u32,
        0xa,
        0xb,
        0xc,
        0xd,
        0x20,
        0x85,
        0xa0,
        0x1680,
        0x2000,
        0x2001,
        0x2002,
        0x2003,
        0x2004,
        0x2005,
        0x2006,
        0x2007,
        0x2008,
        0x2009,
        0x200a,
        0x2028,
        0x2029,
        0x202f,
        0x205f,
        0x3000,
    ];
    let v = c as u32;
    if is_white_space(c) {
        if v <= 0xd {
            assert(list[v - 9] == v);
        } else if 0x2000 <= v <= 0x200a {
            assert(list[v - 0x2000 + 9] == v);
        } else {
            assert(list[5] == 0x20 && list[6] == 0x85 && list[7] == 0xa0 && list[8] == 0x1680);
            assert(list[20] == 0x2028 && list[21] == 0x2029 && list[22] == 0x202f && list[23]
                == 0x205f && list[24] == 0x3000);
        }
    }
}

/// A text is cut at the first place of a value.
pub proof fn law_cut_at<T>(a: Seq<T>, x: T, b: Seq<T>)
    requires
        !a.contains(x),
    ensures
        before(a.push(x) + b, x) == a,
        after(a.push(x) + b, x) == b,
        (a.push(x) + b).contains(x),
{
    let s = a.push(x) + b;
    assert forall|k: int| 0 <= k < a.len() implies differs(x)(#[trigger] s[k]) by {
        assert(s[k] == a[k]);
        if a[k] == x {
            assert(a.contains(x));
        }
    }
    assert(s[a.len() as int] == x);
    lemma_leading(s, differs(x), a.len() as int);
    assert(s.contains(x));
    assert(before(s, x) =~= a);
    assert(after(s, x) =~= b);
}

/// The white space around a text is no part of it.
pub proof fn law_trimmed(front: Seq<char>, text: Seq<char>, end: Seq<char>)
    requires
        forall|i: int| 0 <= i < front.len() ==> is_white_space(#[trigger] front[i]),
        forall|i: int| 0 <= i < end.len() ==> is_white_space(#[trigger] end[i]),
        text.len() > 0,
        !is_white_space(text[0]) && !is_white_space(text.last()),
    ensures
        trimmed(front + text + end) == text,
{
    let white = white_space();
    let s = front + text + end;
    assert forall|i: int| 0 <= i < front.len() implies white(#[trigger] s[i]) by {
        assert(s[i] == front[i]);
    }
    assert(s[front.len() as int] == text[0]);
    lemma_leading(s, white, front.len() as int);
    let rest = trim_front(s, white);
    assert(rest =~= text + end);
    assert forall|i: int| rest.len() - end.len() <= i < rest.len() implies white(
        #[trigger] rest[i],
    ) by {
        assert(rest[i] == end[i - text.len()]);
    }
    assert(rest[rest.len() - end.len() - 1] == text.last());
    lemma_trailing_run(rest, white, end.len() as int);
    assert(trimmed(s) =~= text);
}

/// Bytes that are a text read as that text.
pub proof fn law_bytes_of_a_text(text: Seq<char>, bytes: Seq<u8>)
    ensures
        text_of(encode_utf8(text)) == text,
        !valid_utf8(bytes) ==> text_of(bytes) == lossy_utf8(bytes),
{
    encode_utf8_valid_utf8(text);
    encode_utf8_decode_utf8(text);
}

} // verus!

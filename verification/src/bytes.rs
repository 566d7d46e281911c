//! Searches in byte strings.
use crate::text::{differs, leading, lemma_leading, split};
use vstd::prelude::*;
use vstd::slice::slice_subrange;

verus! {

/// [`memchr::memchr`]: the index of the first `needle` in `haystack`.
#[verifier::external_body]
pub(crate) fn memchr(needle: u8, haystack: &[u8]) -> (r: Option<usize>)
    ensures
        r is None ==> !haystack@.contains(needle),
        r matches Some(i) ==> i < haystack@.len() && haystack@[i as int] == needle && forall|k: int|
            0 <= k < i ==> haystack@[k] != needle,
{
    memchr::memchr(needle, haystack)
}

/// [`memchr::memrchr`]: the index of the last `needle` in `haystack`.
#[verifier::external_body]
pub(crate) fn memrchr(needle: u8, haystack: &[u8]) -> (r: Option<usize>)
    ensures
        r is None ==> !haystack@.contains(needle),
        r matches Some(i) ==> i < haystack@.len() && haystack@[i as int] == needle && forall|k: int|
            i < k < haystack@.len() ==> haystack@[k] != needle,
{
    memchr::memrchr(needle, haystack)
}

/// The index of the first `b` in `s`; the length of `s` where `b` does not occur.
pub fn find_byte(s: &[u8], b: u8) -> (r: usize)
    ensures
        r <= s@.len(),
        r == leading(s@, differs(b)),
        r < s@.len() <==> s@.contains(b),
        r < s@.len() ==> s@[r as int] == b,
{
    match memchr(b, s) {
        Some(i) => {
            proof {
                lemma_leading(s@, differs(b), i as int);
                assert(s@.contains(b));
            }
            i
        },
        None => {
            proof {
                assert forall|k: int| 0 <= k < s@.len() implies #[trigger] s@[k] != b by {
                    if s@[k] == b {
                        assert(s@.contains(b));
                    }
                }
                lemma_leading(s@, differs(b), s@.len() as int);
            }
            s.len()
        },
    }
}

/// Whether two byte strings are the same.
pub fn same_bytes(a: &[u8], b: &[u8]) -> (r: bool)
    ensures
        r == (a@ == b@),
{
    if a.len() != b.len() {
        return false;
    }
    let mut i: usize = 0;
    while i < a.len()
        invariant
            0 <= i <= a@.len(),
            a@.len() == b@.len(),
            forall|k: int| 0 <= k < i ==> a@[k] == b@[k],
        decreases a@.len() - i,
    {
        if a[i] != b[i] {
            return false;
        }
        i = i + 1;
    }
    assert(a@ =~= b@);
    true
}

/// Whether `s` begins with `head`.
pub fn starts_with_bytes(s: &[u8], head: &[u8]) -> (r: bool)
    ensures
        r == head@.is_prefix_of(s@),
{
    if head.len() > s.len() {
        return false;
    }
    let front = slice_subrange(s, 0, head.len());
    same_bytes(front, head)
}

/// The pieces of a byte string, as owned strings.
pub open spec fn owned(v: Seq<Vec<u8>>) -> Seq<Seq<u8>> {
    Seq::new(v.len(), |i: int| v[i]@)
}

/// A copy of a byte string.
pub fn to_vec(s: &[u8]) -> (r: Vec<u8>)
    ensures
        r@ == s@,
{
    let mut out: Vec<u8> = Vec::with_capacity(s.len());
    out.extend_from_slice(s);
    assert(out@ =~= s@);
    out
}

/// The pieces of `s` between the `b` in it.
pub fn split_bytes(s: &[u8], b: u8) -> (r: Vec<Vec<u8>>)
    ensures
        owned(r@) == split(s@, b),
{
    let mut out: Vec<Vec<u8>> = Vec::new();
    let mut rest = s;
    assert(owned(out@) + split(rest@, b) =~= split(s@, b));
    loop
        invariant
            owned(out@) + split(rest@, b) == split(s@, b),
        decreases rest@.len(),
    {
        let at = find_byte(rest, b);
        let ghost done = out@;
        if at == rest.len() {
            out.push(to_vec(rest));
            assert(owned(out@) =~= owned(done) + split(rest@, b));
            return out;
        }
        out.push(to_vec(slice_subrange(rest, 0, at)));
        let next = slice_subrange(rest, at + 1, rest.len());
        proof {
            assert(next@ =~= rest@.skip(at + 1));
            assert(rest@.subrange(0, at as int) =~= rest@.take(at as int));
            assert(owned(out@) + split(next@, b) =~= owned(done) + split(rest@, b));
        }
        rest = next;
    }
}

} // verus!

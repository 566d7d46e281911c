//! File system paths as byte strings, separated by slashes.
use crate::bytes::{owned, same_bytes, split_bytes, to_vec};
use crate::text::{
    differs, from_utf8_lossy, leading, lemma_leading, lemma_leading_run, split, text_of,
};
use vstd::prelude::*;

verus! {

/// Whether a path begins at the root.
pub open spec fn absolute(path: Seq<u8>) -> bool {
    path.len() > 0 && path[0] == 0x2f
}

/// Whether a piece of a path between slashes stands for nothing: it is empty or a dot.
pub open spec fn is_blank(piece: Seq<u8>) -> bool {
    piece.len() == 0 || piece == seq![0x2eu8]
}

/// The pieces that stand for something.
pub open spec fn without_blanks(pieces: Seq<Seq<u8>>) -> Seq<Seq<u8>>
    decreases pieces.len(),
{
    if pieces.len() == 0 {
        Seq::empty()
    } else if is_blank(pieces.last()) {
        without_blanks(pieces.drop_last())
    } else {
        without_blanks(pieces.drop_last()).push(pieces.last())
    }
}

/// The names in a path, in order: repeated and trailing slashes and single dots count for nothing.
pub open spec fn names(path: Seq<u8>) -> Seq<Seq<u8>> {
    without_blanks(split(path, 0x2f))
}

/// Whether a relative path begins with a single dot, which counts as a step of its own.
pub open spec fn begins_here(path: Seq<u8>) -> bool {
    split(path, 0x2f)[0] == seq![0x2eu8]
}

/// Whether `path` is `base` or lies below it, step by step.
pub open spec fn lies_under(path: Seq<u8>, base: Seq<u8>) -> bool {
    &&& absolute(path) == absolute(base)
    &&& begins_here(path) == begins_here(base) || (begins_here(path) && names(base).len() == 0)
    &&& names(base).is_prefix_of(names(path))
}

/// The last name in a path; none where the path is empty, the root or ends in two dots.
pub open spec fn last_name(path: Seq<u8>) -> Option<Seq<u8>> {
    if names(path).len() == 0 || names(path).last() == seq![0x2eu8, 0x2eu8] {
        None
    } else {
        Some(names(path).last())
    }
}

/// `sub` below `base`; `sub` itself where it is absolute.
pub open spec fn joined<T>(base: Seq<T>, sub: Seq<T>, slash: T) -> Seq<T> {
    if sub.len() > 0 && sub[0] == slash {
        sub
    } else if base.len() == 0 || base.last() == slash {
        base + sub
    } else {
        base.push(slash) + sub
    }
}

/// The names in a path.
fn list_names(path: &[u8]) -> (r: (Vec<Vec<u8>>, bool))
    ensures
        owned(r.0@) == names(path@),
        r.1 == begins_here(path@),
{
    let pieces = split_bytes(path, 0x2f);
    let dot: [u8; 1] = [0x2e];
    let mut out: Vec<Vec<u8>> = Vec::new();
    let mut i: usize = 0;
    assert(dot@ =~= seq![0x2eu8]);
    assert(owned(out@) =~= without_blanks(owned(pieces@).take(0)));
    while i < pieces.len()
        invariant
            0 <= i <= pieces@.len(),
            dot@ == seq![0x2eu8],
            owned(out@) == without_blanks(owned(pieces@).take(i as int)),
        decreases pieces@.len() - i,
    {
        let piece = pieces[i].as_slice();
        let ghost so_far = owned(pieces@).take(i + 1);
        assert(so_far.drop_last() =~= owned(pieces@).take(i as int));
        assert(so_far.last() == piece@);
        let ghost done = out@;
        if !(piece.len() == 0 || same_bytes(piece, dot.as_slice())) {
            out.push(to_vec(piece));
            assert(owned(out@) =~= owned(done).push(piece@));
        }
        i = i + 1;
    }
    assert(owned(pieces@).take(pieces@.len() as int) =~= owned(pieces@));
    assert(owned(pieces@).len() > 0);
    assert(owned(pieces@)[0] == pieces@[0]@);
    let here = same_bytes(pieces[0].as_slice(), dot.as_slice());
    (out, here)
}

/// Whether `path` is `base` or lies below it.
pub fn starts_with(path: &[u8], base: &[u8]) -> (r: bool)
    ensures
        r == lies_under(path@, base@),
{
    let a = path.len() > 0 && path[0] == 0x2f;
    let b = base.len() > 0 && base[0] == 0x2f;
    if a != b {
        return false;
    }
    let (long, long_here) = list_names(path);
    let (short, short_here) = list_names(base);
    if !(long_here == short_here || (long_here && short.len() == 0)) {
        return false;
    }
    if short.len() > long.len() {
        return false;
    }
    let mut i: usize = 0;
    while i < short.len()
        invariant
            0 <= i <= short@.len(),
            short@.len() <= long@.len(),
            owned(long@) == names(path@),
            owned(short@) == names(base@),
            forall|k: int| 0 <= k < i ==> short@[k]@ == (#[trigger] long@[k])@,
        decreases short@.len() - i,
    {
        if !same_bytes(short[i].as_slice(), long[i].as_slice()) {
            proof {
                let n = names(base@);
                assert(n[i as int] == short@[i as int]@);
                assert(names(path@)[i as int] == long@[i as int]@);
                assert(names(path@).subrange(0, n.len() as int)[i as int] != n[i as int]);
            }
            return false;
        }
        i = i + 1;
    }
    proof {
        let n = names(base@);
        assert forall|k: int| 0 <= k < n.len() implies n[k] == names(path@)[k] by {
            assert(owned(short@)[k] == short@[k]@);
            assert(owned(long@)[k] == long@[k]@);
        }
        assert(n =~= names(path@).subrange(0, n.len() as int));
    }
    true
}

/// The last name in a path.
pub fn file_name(path: &[u8]) -> (r: Option<Vec<u8>>)
    ensures
        r is Some <==> last_name(path@) is Some,
        r matches Some(name) ==> last_name(path@) == Some(name@),
{
    let (mut all, _here) = list_names(path);
    let dots: [u8; 2] = [0x2e, 0x2e];
    assert(dots@ =~= seq![0x2eu8, 0x2eu8]);
    let ghost n = owned(all@);
    match all.pop() {
        None => None,
        Some(name) => {
            assert(n.last() == name@);
            if same_bytes(name.as_slice(), dots.as_slice()) {
                None
            } else {
                Some(name)
            }
        },
    }
}

/// `sub` below `base`; `sub` itself where it is absolute.
pub fn join(base: &[u8], sub: &[u8]) -> (r: Vec<u8>)
    ensures
        r@ == joined(base@, sub@, 0x2f),
{
    if sub.len() > 0 && sub[0] == 0x2f {
        return to_vec(sub);
    }
    let mut out = to_vec(base);
    if base.len() > 0 && base[base.len() - 1] != 0x2f {
        out.push(0x2f);
    }
    let ghost front = out@;
    out.extend_from_slice(sub);
    assert(out@ =~= front + sub@);
    out
}

/// No name in a path is empty.
proof fn lemma_no_blanks(pieces: Seq<Seq<u8>>)
    ensures
        forall|i: int|
            0 <= i < without_blanks(pieces).len() ==> (#[trigger] without_blanks(pieces)[i]).len()
                > 0,
    decreases pieces.len(),
{
    if pieces.len() > 0 {
        let some = without_blanks(pieces.drop_last());
        lemma_no_blanks(pieces.drop_last());
        assert forall|i: int| 0 <= i < without_blanks(pieces).len() implies (
        #[trigger] without_blanks(pieces)[i]).len() > 0 by {
            if i < some.len() {
                assert(without_blanks(pieces)[i] == some[i]);
            }
        }
    }
}

/// The name under which a folder is packed: its last name, or `root` where it has none.
pub open spec fn folder_label(dir: Seq<u8>) -> Seq<char> {
    match last_name(dir) {
        Some(name) => text_of(name),
        None => "root"@,
    }
}

/// The name under which a folder is packed.
pub fn folder_name(dir: &[u8]) -> (r: String)
    ensures
        r@ == folder_label(dir@),
        r@.len() > 0,
{
    proof {
        reveal_strlit("root");
        lemma_no_blanks(split(dir@, 0x2f));
    }
    match file_name(dir) {
        Some(name) => from_utf8_lossy(name.as_slice()),
        None => "root".to_string(),
    }
}

proof fn lemma_split_concat(a: Seq<u8>, b: Seq<u8>)
    ensures
        split(a.push(0x2f) + b, 0x2f) == split(a, 0x2f) + split(b, 0x2f),
    decreases a.len(),
{
    let p = differs(0x2fu8);
    let all = a.push(0x2f) + b;
    lemma_leading_run(a, p);
    let n = leading(a, p) as int;
    assert forall|i: int| 0 <= i < n implies p(#[trigger] all[i]) by {
        assert(all[i] == a[i]);
    }
    if n < a.len() {
        assert(all[n] == a[n]);
        lemma_leading(all, p, n);
        lemma_split_concat(a.skip(n + 1), b);
        assert(all.skip(n + 1) =~= a.skip(n + 1).push(0x2f) + b);
        assert(all.take(n) =~= a.take(n));
        assert(split(all, 0x2f) =~= split(a, 0x2f) + split(b, 0x2f));
    } else {
        assert(all[n] == 0x2f);
        lemma_leading(all, p, n);
        assert(all.take(n) =~= a);
        assert(all.skip(n + 1) =~= b);
    }
}

proof fn lemma_without_blanks_concat(a: Seq<Seq<u8>>, b: Seq<Seq<u8>>)
    ensures
        without_blanks(a + b) == without_blanks(a) + without_blanks(b),
    decreases b.len(),
{
    if b.len() == 0 {
        assert(a + b =~= a);
    } else {
        lemma_without_blanks_concat(a, b.drop_last());
        assert((a + b).drop_last() =~= a + b.drop_last());
        assert(without_blanks(a + b) =~= without_blanks(a) + without_blanks(b));
    }
}

/// The names of a path are those before a slash and those behind it, in order.
pub proof fn law_names_concat(a: Seq<u8>, b: Seq<u8>)
    ensures
        names(a.push(0x2f) + b) == names(a) + names(b),
{
    lemma_split_concat(a, b);
    lemma_without_blanks_concat(split(a, 0x2f), split(b, 0x2f));
}

/// A piece without a slash is one name; no name is the empty piece, nor the dot.
pub proof fn law_one_name(piece: Seq<u8>)
    requires
        !piece.contains(0x2f),
    ensures
        piece.len() == 0 || piece == seq![0x2eu8] ==> names(piece).len() == 0,
        piece.len() > 0 && piece != seq![0x2eu8] ==> names(piece) == seq![piece],
{
    assert forall|i: int| 0 <= i < piece.len() implies differs(0x2fu8)(#[trigger] piece[i]) by {
        assert(piece.contains(piece[i]));
    }
    lemma_leading(piece, differs(0x2fu8), piece.len() as int);
    let s = split(piece, 0x2f);
    assert(s == seq![piece]);
    assert(s.drop_last() =~= Seq::<Seq<u8>>::empty());
    assert(without_blanks(s.drop_last()).len() == 0);
    if piece.len() > 0 && piece != seq![0x2eu8] {
        assert(names(piece) =~= seq![piece]);
    }
}

/// What lies under a path goes on from it by more names, and is absolute where it is.
pub proof fn law_under_by_names(path: Seq<u8>, base: Seq<u8>)
    requires
        absolute(base),
    ensures
        lies_under(path, base) <==> absolute(path) && (exists|more: Seq<Seq<u8>>|
            names(path) == #[trigger] (names(base) + more)),
{
    lemma_begins_here(base);
    if absolute(path) {
        lemma_begins_here(path);
    }
    if lies_under(path, base) {
        let more = names(path).skip(names(base).len() as int);
        assert(names(path) =~= names(base) + more);
    }
    if absolute(path) && exists|more: Seq<Seq<u8>>| names(path) == #[trigger] (names(base) + more) {
        let more = choose|more: Seq<Seq<u8>>| names(path) == #[trigger] (names(base) + more);
        assert(names(base) =~= names(path).subrange(0, names(base).len() as int));
    }
}

proof fn lemma_begins_here(path: Seq<u8>)
    requires
        absolute(path),
    ensures
        !begins_here(path),
{
    lemma_leading(path, differs(0x2fu8), 0);
    assert(path.take(0).len() == 0);
    assert(split(path, 0x2f)[0].len() == 0);
}

/// A path lies under itself, and what lies under a path lies under what that lies under.
pub proof fn law_under_is_an_order(a: Seq<u8>, b: Seq<u8>, c: Seq<u8>)
    requires
        absolute(c),
    ensures
        lies_under(c, c),
        lies_under(a, b) && lies_under(b, c) ==> lies_under(a, c),
        lies_under(b, c) && lies_under(c, b) ==> names(b) == names(c),
{
    assert(names(c).subrange(0, names(c).len() as int) =~= names(c));
    if lies_under(b, c) {
        lemma_begins_here(b);
        lemma_begins_here(c);
        if lies_under(a, b) {
            lemma_begins_here(a);
            assert(names(c) =~= names(a).subrange(0, names(c).len() as int));
        }
    }
}

/// What is joined to a directory by a relative path lies under it, and its names are those of both.
pub proof fn law_joined_lies_under(base: Seq<u8>, sub: Seq<u8>)
    requires
        absolute(base),
        !absolute(sub),
    ensures
        lies_under(joined(base, sub, 0x2f), base),
        names(joined(base, sub, 0x2f)) == names(base) + names(sub),
        base.is_prefix_of(joined(base, sub, 0x2f)),
        joined(base, sub, 0x2f).skip(joined(base, sub, 0x2f).len() - sub.len()) == sub,
{
    let all = joined(base, sub, 0x2f);
    assert(all.skip(all.len() - sub.len()) =~= sub);
    assert(base =~= all.subrange(0, base.len() as int));
    if base.last() == 0x2f {
        let some = base.drop_last();
        assert(base =~= some.push(0x2f));
        assert(base =~= some.push(0x2f) + Seq::<u8>::empty());
        assert(all =~= some.push(0x2f) + sub);
        law_names_concat(some, sub);
        law_names_concat(some, Seq::empty());
        law_one_name(Seq::empty());
        assert(names(base) =~= names(some));
    } else {
        law_names_concat(base, sub);
    }
    assert(absolute(all));
    lemma_begins_here(all);
    lemma_begins_here(base);
    assert(names(base) =~= names(all).subrange(0, names(base).len() as int));
}

/// An absolute path stands for itself, whatever it is joined to.
pub proof fn law_absolute_stands_alone(base: Seq<u8>, sub: Seq<u8>)
    requires
        absolute(sub),
    ensures
        joined(base, sub, 0x2f) == sub,
{
}

/// A directory is called by the last name of its path, also with slashes behind it, and `root` where
/// it has none or goes up.
pub proof fn law_folder_is_called(dir: Seq<u8>, name: Seq<u8>, slashes: Seq<u8>)
    requires
        !name.contains(0x2f),
        forall|i: int| 0 <= i < slashes.len() ==> #[trigger] slashes[i] == 0x2f,
    ensures
        name.len() > 0 && name != seq![0x2eu8] && name != seq![0x2eu8, 0x2eu8] ==> folder_label(
            dir.push(0x2f) + name + slashes,
        ) == text_of(name),
        name == seq![0x2eu8, 0x2eu8] ==> folder_label(dir.push(0x2f) + name + slashes) == "root"@,
        folder_label(slashes) == "root"@,
{
    lemma_slashes(Seq::empty(), slashes);
    assert(Seq::<u8>::empty() + slashes =~= slashes);
    law_one_name(Seq::empty());
    lemma_slashes(dir.push(0x2f) + name, slashes);
    law_names_concat(dir, name);
    law_one_name(name);
    if name.len() > 0 && name != seq![0x2eu8] {
        assert(names(dir.push(0x2f) + name + slashes).last() == name);
    }
}

proof fn lemma_slashes(path: Seq<u8>, slashes: Seq<u8>)
    requires
        forall|i: int| 0 <= i < slashes.len() ==> #[trigger] slashes[i] == 0x2f,
    ensures
        names(path + slashes) == names(path),
    decreases slashes.len(),
{
    if slashes.len() == 0 {
        assert(path + slashes =~= path);
    } else {
        let some = slashes.drop_last();
        lemma_slashes(path, some);
        assert(path + slashes =~= (path + some).push(0x2f) + Seq::<u8>::empty());
        law_names_concat(path + some, Seq::empty());
        law_one_name(Seq::empty());
        assert(names(path + slashes) =~= names(path));
    }
}

/// A path is joined to a directory with one slash between them, which is added only where the
/// directory does not end with one; a path that begins with a slash stands alone.
pub proof fn law_joined<T>(base: Seq<T>, sub: Seq<T>, slash: T)
    requires
        sub.len() == 0 || sub[0] != slash,
    ensures
        joined(Seq::empty(), sub, slash) == sub,
        joined(base.push(slash), sub, slash) == base.push(slash) + sub,
        base.len() > 0 && base.last() != slash ==> joined(base, sub, slash) == joined(
            base.push(slash),
            sub,
            slash,
        ),
        joined(base, seq![slash] + sub, slash) == seq![slash] + sub,
{
    assert(Seq::<T>::empty() + sub =~= sub);
}

/// Every path lies under itself, and what lies under another begins at the root where that does and
/// goes through the same names first.
pub proof fn law_under_goes_through(path: Seq<u8>, base: Seq<u8>, i: int)
    requires
        lies_under(path, base),
        0 <= i < names(base).len(),
    ensures
        lies_under(base, base),
        absolute(path) <==> absolute(base),
        i < names(path).len(),
        names(path)[i] == names(base)[i],
{
    assert(names(base).subrange(0, names(base).len() as int) =~= names(base));
    assert(names(path).subrange(0, names(base).len() as int)[i] == names(path)[i]);
}

/// A relative path lies under the directory that it begins with, also behind a dot.
pub proof fn law_relative_lies_under(base: Seq<u8>, sub: Seq<u8>)
    requires
        base.len() > 0,
        !absolute(base),
    ensures
        lies_under(base.push(0x2f) + sub, base),
{
    let all = base.push(0x2f) + sub;
    law_names_concat(base, sub);
    lemma_split_concat(base, sub);
    assert(split(base, 0x2f).len() > 0) by {
        lemma_leading_run(base, differs(0x2fu8));
    }
    assert(split(all, 0x2f)[0] == split(base, 0x2f)[0]);
    assert(all[0] == base[0]);
    assert(names(base) =~= names(all).subrange(0, names(base).len() as int));
}

/// The path of a directory is no part of the path of another that only begins with the same letters.
pub proof fn law_sibling_lies_elsewhere(dir: Seq<u8>, name: Seq<u8>, other: Seq<u8>, sub: Seq<u8>)
    requires
        absolute(dir),
        !name.contains(0x2f) && !other.contains(0x2f),
        name.len() > 0 && name != seq![0x2eu8],
        other.len() > 0 && other != seq![0x2eu8],
        name != other,
    ensures
        !lies_under(dir.push(0x2f) + other, dir.push(0x2f) + name),
        !lies_under((dir.push(0x2f) + other).push(0x2f) + sub, dir.push(0x2f) + name),
        !lies_under(dir, dir.push(0x2f) + name),
{
    law_names_concat(dir, name);
    law_names_concat(dir, other);
    law_names_concat(dir.push(0x2f) + other, sub);
    law_one_name(name);
    law_one_name(other);
    let n = names(dir).len() as int;
    let base = dir.push(0x2f) + name;
    assert(names(base)[n] == name);
    assert(names(dir.push(0x2f) + other)[n] == other);
    assert(names((dir.push(0x2f) + other).push(0x2f) + sub)[n] == other);
    if lies_under(dir.push(0x2f) + other, base) {
        law_under_goes_through(dir.push(0x2f) + other, base, n);
    }
    if lies_under((dir.push(0x2f) + other).push(0x2f) + sub, base) {
        law_under_goes_through((dir.push(0x2f) + other).push(0x2f) + sub, base, n);
    }
    if lies_under(dir, base) {
        law_under_goes_through(dir, base, n);
    }
}

} // verus!

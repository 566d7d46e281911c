//! Sorting by an order.
use crate::text::chars_of;
use vstd::multiset::Multiset;
use vstd::prelude::*;

verus! {

/// Whether `a` comes before `b` in the order of texts, or is `b`: character by character, and a
/// text before every longer one that begins with it.
pub open spec fn text_le(a: Seq<char>, b: Seq<char>) -> bool
    decreases a.len(),
{
    if a.len() == 0 {
        true
    } else if b.len() == 0 {
        false
    } else if a[0] == b[0] {
        text_le(a.drop_first(), b.drop_first())
    } else {
        (a[0] as u32) < (b[0] as u32)
    }
}

/// Of two texts one comes before the other.
pub proof fn lemma_text_total(a: Seq<char>, b: Seq<char>)
    ensures
        text_le(a, b) || text_le(b, a),
    decreases a.len(),
{
    if a.len() > 0 && b.len() > 0 {
        if a[0] == b[0] {
            lemma_text_total(a.drop_first(), b.drop_first());
        } else {
            lemma_char_values(a[0], b[0]);
        }
    }
}

/// Characters with the same number are the same.
proof fn lemma_char_values(a: char, b: char)
    requires
        a != b,
    ensures
        a as u32 != b as u32,
{
}

/// The order of texts is transitive.
pub proof fn lemma_text_transitive(a: Seq<char>, b: Seq<char>, c: Seq<char>)
    requires
        text_le(a, b),
        text_le(b, c),
    ensures
        text_le(a, c),
    decreases a.len(),
{
    if a.len() > 0 && b.len() > 0 && c.len() > 0 {
        if a[0] == b[0] && b[0] == c[0] {
            lemma_text_transitive(a.drop_first(), b.drop_first(), c.drop_first());
        }
    }
}

/// Two texts that each come before the other are the same.
pub proof fn lemma_text_antisymmetric(a: Seq<char>, b: Seq<char>)
    requires
        text_le(a, b),
        text_le(b, a),
    ensures
        a == b,
    decreases a.len(),
{
    if a.len() == 0 || b.len() == 0 {
        assert(a =~= b);
    } else {
        lemma_text_antisymmetric(a.drop_first(), b.drop_first());
        assert(a =~= seq![a[0]] + a.drop_first());
        assert(b =~= seq![b[0]] + b.drop_first());
    }
}

/// Whether `a` comes before `b` in the order of texts, or is `b`.
pub fn text_precedes(a: &str, b: &str) -> (r: bool)
    ensures
        r == text_le(a@, b@),
{
    let x = chars_of(a);
    let y = chars_of(b);
    let mut i: usize = 0;
    assert(x@.skip(0) =~= a@ && y@.skip(0) =~= b@);
    loop
        invariant
            0 <= i <= x@.len(),
            i <= y@.len(),
            text_le(a@, b@) == text_le(x@.skip(i as int), y@.skip(i as int)),
        decreases x@.len() - i,
    {
        if i == x.len() {
            return true;
        }
        if i == y.len() {
            return false;
        }
        assert(x@.skip(i as int)[0] == x@[i as int] && y@.skip(i as int)[0] == y@[i as int]);
        if x[i] != y[i] {
            return (x[i] as u32) < (y[i] as u32);
        }
        assert(x@.skip(i as int).drop_first() =~= x@.skip(i + 1));
        assert(y@.skip(i as int).drop_first() =~= y@.skip(i + 1));
        i = i + 1;
    }
}

/// A type with an order.
pub trait Ranked: Sized {
    /// Whether `self` may stand before `other`.
    spec fn le(self, other: Self) -> bool;

    /// Of two values one may stand before the other.
    proof fn total(a: Self, b: Self)
        ensures
            a.le(b) || b.le(a),
    ;

    /// The order is transitive.
    proof fn transitive(a: Self, b: Self, c: Self)
        requires
            a.le(b),
            b.le(c),
        ensures
            a.le(c),
    ;

    /// Whether `self` may stand before `other`.
    fn may_precede(&self, other: &Self) -> (r: bool)
        ensures
            r == self.le(*other),
    ;
}

/// Whether each value may stand before each later one.
pub open spec fn sorted<T: Ranked>(s: Seq<T>) -> bool {
    forall|i: int, j: int| 0 <= i < j < s.len() ==> (#[trigger] s[i]).le(#[trigger] s[j])
}

/// Puts the values of a vector in reverse order.
pub fn reversed<T>(v: Vec<T>) -> (r: Vec<T>)
    ensures
        r@ == v@.reverse(),
{
    let mut from = v;
    let mut out: Vec<T> = Vec::with_capacity(from.len());
    let ghost n = v@.len();
    while from.len() > 0
        invariant
            from@.len() + out@.len() == n,
            n == v@.len(),
            from@ == v@.take(from@.len() as int),
            forall|i: int| 0 <= i < out@.len() ==> #[trigger] out@[i] == v@[n - 1 - i],
        decreases from@.len(),
    {
        if let Some(x) = from.pop() {
            out.push(x);
        }
    }
    assert(out@ =~= v@.reverse());
    out
}

/// Merges two sorted vectors into one in falling order.
fn merge_falling<T: Ranked>(a: Vec<T>, b: Vec<T>) -> (r: Vec<T>)
    requires
        sorted(a@),
        sorted(b@),
    ensures
        r@.len() == a@.len() + b@.len(),
        r@.to_multiset() == a@.to_multiset().add(b@.to_multiset()),
        forall|i: int, j: int| 0 <= i < j < r@.len() ==> (#[trigger] r@[j]).le(#[trigger] r@[i]),
{
    let mut x = a;
    let mut y = b;
    let mut out: Vec<T> = Vec::with_capacity(x.len());
    proof {
        broadcast use vstd::seq_lib::group_to_multiset_ensures;

        assert(out@.to_multiset() =~= Multiset::empty());
        assert(a@.to_multiset().add(b@.to_multiset()) =~= x@.to_multiset().add(
            y@.to_multiset(),
        ).add(out@.to_multiset()));
    }
    while x.len() > 0 || y.len() > 0
        invariant
            sorted(x@),
            sorted(y@),
            x@.len() + y@.len() + out@.len() == a@.len() + b@.len(),
            a@.to_multiset().add(b@.to_multiset()) == x@.to_multiset().add(y@.to_multiset()).add(
                out@.to_multiset(),
            ),
            forall|i: int, j: int|
                0 <= i < j < out@.len() ==> (#[trigger] out@[j]).le(#[trigger] out@[i]),
            forall|i: int, j: int|
                0 <= i < x@.len() && 0 <= j < out@.len() ==> (#[trigger] x@[i]).le(
                    #[trigger] out@[j],
                ),
            forall|i: int, j: int|
                0 <= i < y@.len() && 0 <= j < out@.len() ==> (#[trigger] y@[i]).le(
                    #[trigger] out@[j],
                ),
        decreases x@.len() + y@.len(),
    {
        let from_x = if y.len() == 0 {
            true
        } else if x.len() == 0 {
            false
        } else {
            !x[x.len() - 1].may_precede(&y[y.len() - 1])
        };
        let ghost x0 = x@;
        let ghost y0 = y@;
        let ghost out0 = out@;
        if from_x {
            proof {
                let last = x0.last();
                if y0.len() > 0 {
                    T::total(last, y0.last());
                    assert forall|i: int| 0 <= i < y0.len() implies (#[trigger] y0[i]).le(last) by {
                        if i < y0.len() - 1 {
                            T::transitive(y0[i], y0.last(), last);
                        }
                    }
                }
                lemma_push_pop(x0, out0);
            }
            if let Some(v) = x.pop() {
                out.push(v);
            }
            assert(x@ =~= x0.drop_last());
            assert(out@ =~= out0.push(x0.last()));
            proof {
                assert(x@.to_multiset().add(y@.to_multiset()).add(out@.to_multiset())
                    =~= x0.to_multiset().add(y0.to_multiset()).add(out0.to_multiset()));
            }
        } else {
            proof {
                let last = y0.last();
                if x0.len() > 0 {
                    assert forall|i: int| 0 <= i < x0.len() implies (#[trigger] x0[i]).le(last) by {
                        if i < x0.len() - 1 {
                            T::transitive(x0[i], x0.last(), last);
                        }
                    }
                }
                lemma_push_pop(y0, out0);
            }
            if let Some(v) = y.pop() {
                out.push(v);
            }
            assert(y@ =~= y0.drop_last());
            assert(out@ =~= out0.push(y0.last()));
            proof {
                assert(x@.to_multiset().add(y@.to_multiset()).add(out@.to_multiset())
                    =~= x0.to_multiset().add(y0.to_multiset()).add(out0.to_multiset()));
            }
        }
    }
    proof {
        broadcast use vstd::seq_lib::group_to_multiset_ensures;

        assert(x@ =~= Seq::<T>::empty());
        assert(y@ =~= Seq::<T>::empty());
        assert(x@.to_multiset() =~= Multiset::empty());
        assert(y@.to_multiset() =~= Multiset::empty());
        assert(out@.to_multiset() =~= a@.to_multiset().add(b@.to_multiset()));
    }
    out
}

/// Moving the last value of one sequence to the end of another loses none.
proof fn lemma_push_pop<T>(from: Seq<T>, to: Seq<T>)
    requires
        from.len() > 0,
    ensures
        from.drop_last().to_multiset().insert(from.last()) == from.to_multiset(),
        to.push(from.last()).to_multiset() == to.to_multiset().insert(from.last()),
{
    broadcast use vstd::seq_lib::group_to_multiset_ensures;

    assert(from.drop_last().push(from.last()) =~= from);
}

/// Sorts a vector: the same values, each before every later one in the order.
pub fn sort<T: Ranked>(v: Vec<T>) -> (r: Vec<T>)
    ensures
        r@.to_multiset() == v@.to_multiset(),
        r@.len() == v@.len(),
        sorted(r@),
    decreases v@.len(),
{
    if v.len() <= 1 {
        return v;
    }
    let mut front = v;
    let half: usize = front.len() / 2;
    let back = front.split_off(half);
    proof {
        assert(front@ + back@ =~= v@);
        vstd::seq_lib::lemma_multiset_commutative(front@, back@);
    }
    let a = sort(front);
    let b = sort(back);
    let falling = merge_falling(a, b);
    let out = reversed(falling);
    proof {
        lemma_reverse_multiset(falling@);
        let n = falling@.len();
        assert forall|i: int, j: int| 0 <= i < j < out@.len() implies (#[trigger] out@[i]).le(
            #[trigger] out@[j],
        ) by {
            assert(out@[i] == falling@[n - 1 - i]);
            assert(out@[j] == falling@[n - 1 - j]);
        }
    }
    out
}

/// A sequence in reverse order holds the same values.
proof fn lemma_reverse_multiset<T>(s: Seq<T>)
    ensures
        s.reverse().to_multiset() == s.to_multiset(),
    decreases s.len(),
{
    broadcast use vstd::seq_lib::group_to_multiset_ensures;

    if s.len() == 0 {
        assert(s.reverse() =~= s);
    } else {
        let rest = s.drop_last();
        lemma_reverse_multiset(rest);
        assert(s.reverse() =~= seq![s.last()] + rest.reverse());
        vstd::seq_lib::lemma_multiset_commutative(seq![s.last()], rest.reverse());
        assert(seq![s.last()] =~= Seq::empty().push(s.last()));
        assert(s =~= rest.push(s.last()));
        assert(s.reverse().to_multiset() =~= s.to_multiset());
    }
}

/// Names are ordered by the first character in which they differ, and the shorter one first where
/// they differ in none.
pub proof fn law_first_difference(front: Seq<char>, a: Seq<char>, b: Seq<char>)
    ensures
        text_le(front, front + b),
        b.len() > 0 ==> !text_le(front + b, front),
        a.len() > 0 && b.len() > 0 && (a[0] as u32) < (b[0] as u32) ==> text_le(
            front + a,
            front + b,
        ) && !text_le(
            front + b,
            front + a,
        ),
    decreases front.len(),
{
    if front.len() == 0 {
        assert(front + a =~= a);
        assert(front + b =~= b);
    } else {
        let rest = front.drop_first();
        law_first_difference(rest, a, b);
        assert((front + a).drop_first() =~= rest + a);
        assert((front + b).drop_first() =~= rest + b);
    }
}

} // verus!

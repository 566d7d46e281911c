//! Unsigned numbers in decimal, read and written.
use crate::text::{push_char, string_of};
use vstd::prelude::*;
use vstd::utf8::*;

verus! {

/// The bytes `0` to `9`.
pub open spec fn is_digit(b: u8) -> bool {
    0x30 <= b <= 0x39
}

/// Whether every byte of `s` is a digit.
pub open spec fn all_digits(s: Seq<u8>) -> bool {
    forall|i: int| 0 <= i < s.len() ==> is_digit(#[trigger] s[i])
}

/// The number that the digits `s` spell.
pub open spec fn digits_value(s: Seq<u8>) -> nat
    decreases s.len(),
{
    if s.len() == 0 {
        0
    } else {
        (digits_value(s.drop_last()) * 10 + (s.last() - 0x30)) as nat
    }
}

/// `s` without the one plus sign that may stand before a number.
pub open spec fn without_plus(s: Seq<u8>) -> Seq<u8> {
    if s.len() > 0 && s[0] == 0x2b {
        s.drop_first()
    } else {
        s
    }
}

/// The number that `s` spells: an optional plus sign, then one or more digits and nothing else,
/// with a value of at most `max`.
pub open spec fn parsed_uint(s: Seq<u8>, max: nat) -> Option<nat> {
    let d = without_plus(s);
    if d.len() > 0 && all_digits(d) && digits_value(d) <= max {
        Some(digits_value(d))
    } else {
        None
    }
}

/// The digits of `n`, without leading zeros; `0` is one digit.
pub open spec fn decimal_bytes(n: nat) -> Seq<u8>
    decreases n,
{
    if n < 10 {
        seq![(0x30 + n) as u8]
    } else {
        decimal_bytes(n / 10).push((0x30 + n % 10) as u8)
    }
}

/// [`decimal_bytes`] as text.
pub open spec fn decimal(n: nat) -> Seq<char>
    decreases n,
{
    if n < 10 {
        seq![(0x30 + n) as u8 as char]
    } else {
        decimal(n / 10).push((0x30 + n % 10) as u8 as char)
    }
}

/// Digits put behind a number never make it smaller.
proof fn lemma_digits_grow(s: Seq<u8>, i: int)
    requires
        0 <= i <= s.len(),
        all_digits(s),
    ensures
        digits_value(s.take(i)) <= digits_value(s),
    decreases s.len() - i,
{
    if i == s.len() {
        assert(s.take(i) =~= s);
    } else {
        let next = s.take(i + 1);
        assert(next.drop_last() =~= s.take(i));
        assert(is_digit(s[i]));
        lemma_digits_grow(s, i + 1);
    }
}

/// Writing a number and reading it back gives the number.
pub proof fn law_decimal_round_trip(n: nat, max: nat)
    requires
        n <= max,
    ensures
        parsed_uint(decimal_bytes(n), max) == Some(n),
{
    lemma_decimal_digits(n);
    assert(is_digit(decimal_bytes(n)[0]));
}

/// The digits of `n` are digits and spell `n`.
proof fn lemma_decimal_digits(n: nat)
    ensures
        decimal_bytes(n).len() > 0,
        all_digits(decimal_bytes(n)),
        digits_value(decimal_bytes(n)) == n,
    decreases n,
{
    if n < 10 {
        let s = decimal_bytes(n);
        assert(s.drop_last() =~= Seq::<u8>::empty());
        assert(digits_value(s.drop_last()) == 0);
    } else {
        lemma_decimal_digits(n / 10);
        let s = decimal_bytes(n);
        assert(s.drop_last() =~= decimal_bytes(n / 10));
    }
}

/// The text of a number is ASCII, and its bytes are its digits.
pub proof fn lemma_decimal_text(n: nat)
    ensures
        is_ascii_chars(decimal(n)),
        encode_utf8(decimal(n)) == decimal_bytes(n),
{
    lemma_decimal_same(n);
    lemma_decimal_digits(n);
    let d = decimal(n);
    assert forall|i: int| 0 <= i < d.len() implies '\0' <= #[trigger] d[i] <= '\u{7f}' by {
        assert(d[i] == decimal_bytes(n)[i] as char);
        assert(is_digit(decimal_bytes(n)[i]));
    }
    is_ascii_chars_encode_utf8(d);
    assert forall|i: int| 0 <= i < d.len() implies encode_utf8(d)[i] == decimal_bytes(n)[i] by {
        assert(d[i] == decimal_bytes(n)[i] as char);
        assert(is_digit(decimal_bytes(n)[i]));
    }
    assert(encode_utf8(d) =~= decimal_bytes(n));
}

proof fn lemma_decimal_same(n: nat)
    ensures
        decimal(n).len() == decimal_bytes(n).len(),
        forall|i: int|
            0 <= i < decimal(n).len() ==> #[trigger] decimal(n)[i] == decimal_bytes(n)[i] as char,
    decreases n,
{
    if n >= 10 {
        lemma_decimal_same(n / 10);
    }
}

/// Reads the number that `s` spells, as [`str::parse`] does for an unsigned type whose largest
/// value is `max`.
pub fn parse_uint(s: &[u8], max: u64) -> (r: Option<u64>)
    ensures
        r is Some <==> parsed_uint(s@, max as nat) is Some,
        r matches Some(n) ==> parsed_uint(s@, max as nat) == Some(n as nat),
{
    let start: usize = if s.len() > 0 && s[0] == 0x2b {
        1
    } else {
        0
    };
    let ghost d = without_plus(s@);
    assert(d =~= s@.skip(start as int));
    if start == s.len() {
        return None;
    }
    let mut value: u64 = 0;
    let mut i: usize = start;
    while i < s.len()
        invariant
            start <= i <= s@.len(),
            start <= 1,
            d == s@.skip(start as int),
            d == without_plus(s@),
            all_digits(d.take(i - start)),
            value == digits_value(d.take(i - start)),
            value <= max,
        decreases s@.len() - i,
    {
        let b = s[i];
        assert(b == d[i - start]);
        if b < 0x30 || b > 0x39 {
            assert(!is_digit(d[i - start]));
            return None;
        }
        let ghost next = d.take(i - start + 1);
        proof {
            assert(next.drop_last() =~= d.take(i - start));
            assert forall|k: int| 0 <= k < next.len() implies is_digit(#[trigger] next[k]) by {
                if k < i - start {
                    assert(next[k] == d.take(i - start)[k]);
                }
            }
        }
        let wide: u128 = (value as u128) * 10 + ((b - 0x30) as u128);
        if wide > max as u128 {
            proof {
                if all_digits(d) {
                    lemma_digits_grow(d, i - start + 1);
                }
            }
            return None;
        }
        value = wide as u64;
        i = i + 1;
    }
    assert(d.take(i - start) =~= d);
    Some(value)
}

/// Reads the number that the text `cs` spells, as [`parse_uint`] reads bytes.
pub fn parse_text(cs: &[char], max: u64) -> (r: Option<u64>)
    ensures
        r is Some <==> parsed_uint(encode_utf8(cs@), max as nat) is Some,
        r matches Some(n) ==> parsed_uint(encode_utf8(cs@), max as nat) == Some(n as nat),
{
    let text = string_of(cs);
    parse_uint(text.as_str().as_bytes(), max)
}

/// The text of `n` in decimal.
pub fn decimal_string(n: u64) -> (r: String)
    ensures
        r@ == decimal(n as nat),
    decreases n,
{
    let mut out = if n < 10 {
        String::new()
    } else {
        decimal_string(n / 10)
    };
    push_char(&mut out, (0x30u8 + (n % 10) as u8) as char);
    assert(n < 10 ==> out@ =~= decimal(n as nat));
    out
}

/// Ten to a power.
pub open spec fn power_of_ten(n: nat) -> nat
    decreases n,
{
    if n == 0 {
        1
    } else {
        10 * power_of_ten((n - 1) as nat)
    }
}

/// Digits stand for their places: digits before others count ten times as much for each of those.
pub proof fn law_digits_by_place(a: Seq<u8>, b: Seq<u8>)
    requires
        all_digits(b),
    ensures
        digits_value(a + b) == digits_value(a) * power_of_ten(b.len()) + digits_value(b),
    decreases b.len(),
{
    if b.len() == 0 {
        assert(a + b =~= a);
        assert(digits_value(b) == 0);
        assert(power_of_ten(0) == 1);
        assert(digits_value(a) * 1 == digits_value(a));
    } else {
        assert forall|i: int| 0 <= i < b.drop_last().len() implies is_digit(
            #[trigger] b.drop_last()[i],
        ) by {
            assert(b.drop_last()[i] == b[i]);
        }
        law_digits_by_place(a, b.drop_last());
        assert(is_digit(b[b.len() - 1]));
        assert((a + b).drop_last() =~= a + b.drop_last());
        let va = digits_value(a);
        let p = power_of_ten((b.len() - 1) as nat);
        assert((va * p) * 10 == va * (10 * p)) by (nonlinear_arith);
    }
}

/// One digit stands for its distance from zero.
pub proof fn law_one_digit(d: u8)
    requires
        0x30 <= d <= 0x39,
    ensures
        digits_value(seq![d]) == d - 0x30,
        digits_value(Seq::<u8>::empty()) == 0,
{
    assert(seq![d].drop_last() =~= Seq::<u8>::empty());
    assert(digits_value(seq![d].drop_last()) == 0);
}

/// A number is written with digits only, without a zero in front, and its digits stand for it.
pub proof fn law_decimal_form(n: nat)
    ensures
        all_digits(decimal_bytes(n)),
        digits_value(decimal_bytes(n)) == n,
        decimal_bytes(n).len() > 0,
        n > 0 ==> decimal_bytes(n)[0] != 0x30,
    decreases n,
{
    if n < 10 {
        assert(decimal_bytes(n).drop_last() =~= Seq::<u8>::empty());
        assert(digits_value(decimal_bytes(n).drop_last()) == 0);
    } else {
        law_decimal_form(n / 10);
        assert(decimal_bytes(n).drop_last() =~= decimal_bytes(n / 10));
    }
}

/// Only digits make a number: what reads as one is its decimal form behind zeros, behind at most one
/// plus sign.
pub proof fn law_only_digits_parse(s: Seq<u8>, max: nat) -> (front: (Seq<u8>, Seq<u8>))
    requires
        parsed_uint(s, max) is Some,
    ensures
        ({
            let n = parsed_uint(s, max)->0;
            &&& n <= max
            &&& s == front.0 + front.1 + decimal_bytes(n)
            &&& front.0.len() == 0 || front.0 == seq![0x2bu8]
            &&& forall|i: int| 0 <= i < front.1.len() ==> #[trigger] front.1[i] == 0x30
        }),
{
    let d = without_plus(s);
    let n = digits_value(d);
    let zeros = lemma_zeros_in_front(d);
    if s[0] == 0x2b {
        assert(s =~= seq![0x2bu8] + d);
        assert(s =~= seq![0x2bu8] + zeros + decimal_bytes(n));
        (seq![0x2bu8], zeros)
    } else {
        assert(s =~= Seq::<u8>::empty() + zeros + decimal_bytes(n));
        (Seq::empty(), zeros)
    }
}

proof fn lemma_zeros_in_front(d: Seq<u8>) -> (zeros: Seq<u8>)
    requires
        d.len() > 0,
        all_digits(d),
    ensures
        d == zeros + decimal_bytes(digits_value(d)),
        forall|i: int| 0 <= i < zeros.len() ==> #[trigger] zeros[i] == 0x30,
    decreases d.len(),
{
    let some = d.drop_last();
    if some.len() == 0 {
        assert(digits_value(some) == 0);
        assert(d =~= Seq::<u8>::empty() + decimal_bytes(digits_value(d)));
        Seq::empty()
    } else {
        let zeros = lemma_zeros_in_front(some);
        let m = digits_value(some);
        let n = digits_value(d);
        assert(n / 10 == m && n % 10 == d.last() - 0x30);
        if m == 0 {
            assert(decimal_bytes(m) == seq![0x30u8]);
            let more = zeros.push(0x30);
            assert(d =~= some.push(d.last()));
            assert(d =~= more + decimal_bytes(n));
            more
        } else {
            assert(n >= 10);
            assert(d =~= some.push(d.last()));
            assert(d =~= zeros + decimal_bytes(n));
            zeros
        }
    }
}

/// A plus sign and zeros in front change nothing, and no digits or a second sign make no number.
pub proof fn law_sign_and_zeros(s: Seq<u8>, max: nat)
    requires
        s.len() > 0,
        all_digits(s),
    ensures
        parsed_uint(seq![0x2bu8] + s, max) == parsed_uint(s, max),
        parsed_uint(seq![0x30u8] + s, max) == parsed_uint(s, max),
        parsed_uint(seq![0x2bu8, 0x2bu8] + s, max) is None,
        parsed_uint(seq![0x2du8] + s, max) is None,
        parsed_uint(seq![0x2bu8], max) is None,
        parsed_uint(Seq::<u8>::empty(), max) is None,
        digits_value(s) <= max ==> parsed_uint(s, max) is Some,
        digits_value(s) > max ==> parsed_uint(s, max) is None,
{
    assert(is_digit(s[0]));
    assert((seq![0x2bu8] + s).drop_first() =~= s);
    assert(seq![0x2bu8].drop_first() =~= Seq::<u8>::empty());
    let twice = (seq![0x2bu8, 0x2bu8] + s).drop_first();
    assert(twice[0] == 0x2b);
    assert(!is_digit(twice[0]));
    let minus = seq![0x2du8] + s;
    assert(minus[0] == 0x2d);
    assert(!is_digit(minus[0]));
    let zero = seq![0x30u8] + s;
    law_digits_by_place(seq![0x30u8], s);
    law_one_digit(0x30);
    assert(0 * power_of_ten(s.len()) == 0) by (nonlinear_arith);
    assert(zero[0] == 0x30);
    assert forall|i: int| 0 <= i < zero.len() implies is_digit(#[trigger] zero[i]) by {
        if i > 0 {
            assert(zero[i] == s[i - 1]);
        }
    }
}

} // verus!

//! Which responses are sent from their file.
use crate::decimal::{
    decimal, law_decimal_round_trip, lemma_decimal_text, parse_text, parse_uint, parsed_uint,
};
use crate::sendfile::body::{Plan, SendfileBody, SendfileSlot};
use crate::sendfile::registry::{ConnKey, Registry};
use crate::text::{
    before, chars_of, cut_before, is_white_space, law_cut_at, law_trimmed, starts_with, trim_white,
    trimmed,
};
use vstd::prelude::*;
use vstd::slice::slice_subrange;
use vstd::utf8::*;

verus! {

/// The start offset in a `Content-Range` value of the form `bytes <start>-<end>/<total>`.
pub open spec fn range_start_of(value: Seq<char>) -> Option<nat> {
    if "bytes "@.is_prefix_of(value) {
        parsed_uint(
            encode_utf8(trimmed(before(value.skip("bytes "@.len() as int), '-'))),
            u64::MAX as nat,
        )
    } else {
        None
    }
}

/// The start offset in a `Content-Range` value.
pub fn range_start(value: &str) -> (r: Option<u64>)
    ensures
        r is Some <==> range_start_of(value@) is Some,
        r matches Some(n) ==> range_start_of(value@) == Some(n as nat),
{
    let chars = chars_of(value);
    if !starts_with(chars.as_slice(), "bytes ") {
        return None;
    }
    proof {
        reveal_strlit("bytes ");
    }
    let range = slice_subrange(chars.as_slice(), 6, chars.len());
    assert(range@ =~= value@.skip("bytes "@.len() as int));
    parse_text(trim_white(cut_before(range, '-')), u64::MAX)
}

/// A range of a file.
pub struct FileRange {
    /// The offset of its first byte.
    pub offset: nat,
    /// Its length.
    pub len: nat,
}

/// The file range that stands behind a response: its offset and its length. A response is sent
/// from its file where its status is 200 or 206 and its `Content-Length` is a number; the offset
/// comes from its `Content-Range`, where that gives one.
pub open spec fn upgrade_range(
    status: Option<u16>,
    content_length: Option<Seq<char>>,
    content_range: Option<Seq<char>>,
) -> Option<FileRange> {
    if (status == Some(200u16) || status == Some(206u16)) && content_length is Some {
        match parsed_uint(encode_utf8(content_length->0), u64::MAX as nat) {
            None => None,
            Some(len) => {
                let start = if content_range is Some {
                    range_start_of(content_range->0)
                } else {
                    None
                };
                let offset = if start is Some {
                    start->0
                } else {
                    0
                };
                Some(FileRange { offset, len })
            },
        }
    } else {
        None
    }
}

/// The view of an optional text.
pub open spec fn text_view(text: Option<&str>) -> Option<Seq<char>> {
    match text {
        Some(t) => Some(t@),
        None => None,
    }
}

/// Arms `slot` with the file behind a response and returns the body that replaces the response's
/// own. Returns `None` and leaves the slot as it is where the response is not sent from its file:
/// then the response keeps its body.
pub fn upgrade_response_with_slot<F>(
    slot: &mut SendfileSlot<F>,
    status: Option<u16>,
    content_length: Option<&str>,
    content_range: Option<&str>,
    file: F,
) -> (r: Option<SendfileBody>)
    ensures
        ({
            let range = upgrade_range(status, text_view(content_length), text_view(content_range));
            &&& r is Some <==> range is Some && range->0.len > 0 && old(slot).armed() is None
            &&& r is None ==> final(slot).armed() == old(slot).armed()
            &&& r matches Some(body) ==> {
                &&& body.left() == range->0.len
                &&& final(slot).armed() == Some(
                    Plan { file, offset: range->0.offset as u64, remaining: range->0.len as u64 },
                )
            }
        }),
{
    let served = match status {
        Some(code) => code == 200 || code == 206,
        None => false,
    };
    if !served {
        return None;
    }
    let len: u64 = match content_length {
        None => {
            return None;
        },
        Some(text) => match parse_uint(text.as_bytes(), u64::MAX) {
            None => {
                return None;
            },
            Some(len) => len,
        },
    };
    let start = match content_range {
        Some(text) => range_start(text),
        None => None,
    };
    let offset: u64 = match start {
        Some(offset) => offset,
        None => 0,
    };
    slot.arm(file, offset, len)
}

/// The slot to arm for a response on a connection: the one that is registered for the connection,
/// where the response is one that is sent from its file.
pub fn upgrade_response<'a, V>(
    registry: &'a Registry<V>,
    key: &ConnKey,
    status: Option<u16>,
    content_length: Option<&str>,
) -> (r: Option<&'a V>)
    requires
        registry.wf(),
    ensures
        r is Some <==> upgrade_range(status, text_view(content_length), None) is Some
            && registry.registered(*key) is Some,
        r matches Some(slot) ==> registry.registered(*key) == Some(*slot),
{
    let served = match status {
        Some(code) => code == 200 || code == 206,
        None => false,
    };
    if !served {
        return None;
    }
    match content_length {
        None => None,
        Some(text) => match parse_uint(text.as_bytes(), u64::MAX) {
            None => None,
            Some(_) => registry.slot_for(key),
        },
    }
}

/// A range begins at the number between `bytes ` and the first hyphen, without the white space around
/// it; a value that begins otherwise names no place.
pub proof fn law_range_begins_at(
    front: Seq<char>,
    n: u64,
    end: Seq<char>,
    rest: Seq<char>,
    other: Seq<char>,
)
    requires
        forall|i: int| 0 <= i < front.len() ==> is_white_space(#[trigger] front[i]),
        forall|i: int| 0 <= i < end.len() ==> is_white_space(#[trigger] end[i]),
        !"bytes "@.is_prefix_of(other),
    ensures
        range_start_of("bytes "@ + front + decimal(n as nat) + end + "-"@ + rest) == Some(n as nat),
        range_start_of(other) is None,
{
    reveal_strlit("-");
    let head = "bytes "@;
    let number = decimal(n as nat);
    let mid = front + number + end;
    let value = head + front + number + end + "-"@ + rest;
    assert(value =~= head + (mid.push('-') + rest));
    assert(head =~= value.subrange(0, head.len() as int));
    assert(value.skip(head.len() as int) =~= mid.push('-') + rest);
    lemma_number_is_plain(n as nat);
    assert(!mid.contains('-')) by {
        if mid.contains('-') {
            let i = choose|i: int| 0 <= i < mid.len() && mid[i] == '-';
            if i < front.len() {
                assert(is_white_space(front[i]));
            } else if i < front.len() + number.len() {
                assert(number[i - front.len()] == '-');
            } else {
                assert(is_white_space(end[i - front.len() - number.len()]));
            }
        }
    }
    law_cut_at(mid, '-', rest);
    law_trimmed(front, number, end);
    lemma_decimal_text(n as nat);
    law_decimal_round_trip(n as nat, u64::MAX as nat);
}

proof fn lemma_number_is_plain(n: nat)
    ensures
        decimal(n).len() > 0,
        forall|i: int|
            0 <= i < decimal(n).len() ==> !is_white_space(#[trigger] decimal(n)[i]) && decimal(n)[i]
                != '-',
    decreases n,
{
    if n >= 10 {
        lemma_number_is_plain(n / 10);
        assert forall|i: int| 0 <= i < decimal(n).len() implies !is_white_space(
            #[trigger] decimal(n)[i],
        ) && decimal(n)[i] != '-' by {
            if i < decimal(n / 10).len() {
                assert(decimal(n)[i] == decimal(n / 10)[i]);
            }
        }
    }
}

/// A response is sent from the file where it has content whose length it announces: as many bytes as
/// that, from where its range begins, and from the beginning without one.
pub proof fn law_what_is_sent_from_the_file(
    status: u16,
    n: u64,
    content_range: Option<Seq<char>>,
    length: Option<Seq<char>>,
)
    ensures
        status == 200 || status == 206 ==> (upgrade_range(
            Some(status),
            Some(decimal(n as nat)),
            content_range,
        ) matches Some(range) && range.len == n && (content_range is None ==> range.offset == 0)
            && (content_range matches Some(value) ==> (match range_start_of(value) {
            Some(start) => range.offset == start,
            None => range.offset == 0,
        }))),
        status != 200 && status != 206 ==> upgrade_range(Some(status), length, content_range) is None,
        upgrade_range(None, length, content_range) is None,
        upgrade_range(Some(status), None, content_range) is None,
        (length matches Some(text) && parsed_uint(encode_utf8(text), u64::MAX as nat) is None)
            ==> upgrade_range(Some(status), length, content_range) is None,
{
    lemma_decimal_text(n as nat);
    law_decimal_round_trip(n as nat, u64::MAX as nat);
}

} // verus!

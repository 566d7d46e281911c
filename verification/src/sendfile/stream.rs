//! The transport stream that sends file content in place of placeholder body bytes.
use crate::sendfile::laws::{kept, law_finish_keeps_order, law_write_keeps_order};
use crate::sendfile::body::{advance, advanced, lemma_advanced, plan_after, Plan, SendfileSlot};
use crate::sendfile::target::{Call, Polled, Recorder, SendError, SendfileTarget};
use vstd::prelude::*;
use vstd::slice::slice_subrange;

verus! {

/// How a stream fails.
pub enum StreamError<E> {
    /// The stream is not where a response head is written.
    StateLost,
    /// No plan was waiting when the response head ended.
    PlanDisappeared,
    /// The body is longer than its content length.
    BodyTooLong,
    /// The file ended before its content length.
    FileEnded,
    /// The transport took no byte.
    WriteZero,
    /// The transport failed.
    Transport(E),
}

/// The text of a [`StreamError`] that the stream itself raises.
pub open spec fn stream_error_text<E>(error: StreamError<E>) -> Option<Seq<char>> {
    match error {
        StreamError::StateLost => Some("sendfile stream state lost"@),
        StreamError::PlanDisappeared => Some("sendfile plan disappeared"@),
        StreamError::BodyTooLong => Some("sendfile body exceeds its content length"@),
        StreamError::FileEnded => Some("file ended before its content length"@),
        StreamError::WriteZero => Some("write zero"@),
        StreamError::Transport(_) => None,
    }
}

impl<E> StreamError<E> {
    /// The message of an error that the stream itself raises; `None` for one of the transport.
    pub fn message(&self) -> (r: Option<&'static str>)
        ensures
            r is Some <==> stream_error_text(*self) is Some,
            r matches Some(text) ==> stream_error_text(*self) == Some(text@),
    {
        match self {
            StreamError::StateLost => Some("sendfile stream state lost"),
            StreamError::PlanDisappeared => Some("sendfile plan disappeared"),
            StreamError::BodyTooLong => Some("sendfile body exceeds its content length"),
            StreamError::FileEnded => Some("file ended before its content length"),
            StreamError::WriteZero => Some("write zero"),
            StreamError::Transport(_) => None,
        }
    }
}

/// The error of a transport that took no byte.
pub fn write_zero<E>() -> (r: StreamError<E>)
    ensures
        r == StreamError::<E>::WriteZero,
{
    StreamError::WriteZero
}

/// How far a write to the stream came.
pub enum WriteStep<E> {
    /// Nothing was taken; the task is woken when it is worth trying again.
    Pending,
    /// Nothing was taken, but the transport is writable again: try the same bytes at once.
    Again,
    /// Some bytes were taken, or the stream failed.
    Ready(Result<usize, StreamError<E>>),
}

// ---------------------------------------------------------------------------
// What a transport was sent
// ---------------------------------------------------------------------------

/// One byte on the wire: a byte that was written, or the byte of a file at an offset.
pub enum Item<F> {
    /// A byte that was written.
    Literal(u8),
    /// The byte of `file` at `offset`.
    Content { file: F, offset: u64 },
}

/// Bytes as they were written.
pub open spec fn literal<F>(bytes: Seq<u8>) -> Seq<Item<F>> {
    Seq::new(bytes.len(), |i: int| Item::Literal(bytes[i]))
}

/// `count` bytes of `file` from `offset` on.
pub open spec fn content<F>(file: F, offset: u64, count: nat) -> Seq<Item<F>> {
    Seq::new(count, |i: int| Item::Content { file, offset: advanced(offset, i as nat) })
}

/// What one call put on the wire.
pub open spec fn sent<F, E>(call: Call<F, E>) -> Seq<Item<F>> {
    match call {
        Call::Write { bytes, reply: Polled::Ready(Ok(n)) } => literal(bytes.take(n as int)),
        Call::WriteMore { bytes, reply: Polled::Ready(Ok(n)) } => literal(bytes.take(n as int)),
        Call::Sendfile { file, offset, count, reply: Ok(n) } => content(file, offset, n as nat),
        _ => Seq::empty(),
    }
}

/// What a sequence of calls put on the wire.
pub open spec fn wire<F, E>(calls: Seq<Call<F, E>>) -> Seq<Item<F>>
    decreases calls.len(),
{
    if calls.len() == 0 {
        Seq::empty()
    } else {
        sent(calls[0]) + wire(calls.skip(1))
    }
}

/// What two runs of calls put on the wire is what both did, in order.
pub proof fn lemma_wire_concat<F, E>(a: Seq<Call<F, E>>, b: Seq<Call<F, E>>)
    ensures
        wire(a + b) == wire(a) + wire(b),
    decreases a.len(),
{
    if a.len() == 0 {
        assert(a + b =~= b);
        assert(wire(a) + wire(b) =~= wire(b));
    } else {
        assert((a + b).skip(1) =~= a.skip(1) + b);
        lemma_wire_concat(a.skip(1), b);
        assert(wire(a + b) =~= wire(a) + wire(b));
    }
}

/// Whether a transport took no more than it was offered.
pub open spec fn call_fits<F, E>(call: Call<F, E>) -> bool {
    match call {
        Call::Write { bytes, reply: Polled::Ready(Ok(n)) } => n <= bytes.len(),
        Call::WriteMore { bytes, reply: Polled::Ready(Ok(n)) } => n <= bytes.len(),
        Call::Sendfile { file, offset, count, reply: Ok(n) } => n <= count,
        _ => true,
    }
}

/// Whether a transport never took more than it was offered, which every
/// [`SendfileTarget`] promises.
pub open spec fn taken_fits<F, E>(calls: Seq<Call<F, E>>) -> bool {
    forall|i: int| 0 <= i < calls.len() ==> call_fits(#[trigger] calls[i])
}

/// The calls made since the log read `before`.
pub open spec fn since<F, E>(before: Seq<Call<F, E>>, after: Seq<Call<F, E>>) -> Seq<Call<F, E>> {
    after.skip(before.len() as int)
}

// ---------------------------------------------------------------------------
// The end of a response head
// ---------------------------------------------------------------------------

/// Whether the byte at `j` is the last of a head terminator `\r\n\r\n` in `s`.
pub open spec fn head_ends_at(s: Seq<u8>, j: int) -> bool {
    3 <= j < s.len() && s[j - 3] == 13 && s[j - 2] == 10 && s[j - 1] == 13 && s[j] == 10
}

/// Whether the first head terminator in `s` ends at `j`.
pub open spec fn head_first_ends_at(s: Seq<u8>, j: int) -> bool {
    head_ends_at(s, j) && forall|k: int| 0 <= k < j ==> !head_ends_at(s, k)
}

/// Whether `s` holds no head terminator.
pub open spec fn no_head_end(s: Seq<u8>) -> bool {
    forall|k: int| !head_ends_at(s, k)
}

/// The index in `buf` of the last byte of the first head terminator in `carry` followed by `buf`.
pub open spec fn head_end(carry: Seq<u8>, buf: Seq<u8>) -> Option<int> {
    if no_head_end(carry + buf) {
        None
    } else {
        Some((choose|j: int| head_first_ends_at(carry + buf, j)) - carry.len())
    }
}

/// The last bytes of `s`, three at most.
pub open spec fn last_three(s: Seq<u8>) -> Seq<u8> {
    if s.len() <= 3 {
        s
    } else {
        s.skip(s.len() - 3)
    }
}

/// The index in `buf` of the last byte of the first head terminator. `carry` holds the last bytes
/// of earlier writes, so that a terminator split across writes is found.
pub fn find_head_end(carry: &[u8], buf: &[u8]) -> (r: Option<usize>)
    requires
        carry@.len() <= 3,
    ensures
        r is Some <==> head_end(carry@, buf@) is Some,
        r matches Some(i) ==> {
            &&& head_end(carry@, buf@) == Some(i as int)
            &&& i < buf@.len()
            &&& head_first_ends_at(carry@ + buf@, i + carry@.len())
        },
        r is None ==> no_head_end(carry@ + buf@),
{
    let ghost all = carry@ + buf@;
    let carried = carry.len();
    let mut last: usize = 0;
    while last < buf.len()
        invariant
            0 <= last <= buf@.len(),
            carried == carry@.len(),
            carried <= 3,
            all == carry@ + buf@,
            forall|k: int| 0 <= k < carried + last ==> !head_ends_at(all, k),
        decreases buf@.len() - last,
    {
        if ends_here(carry, buf, last) {
            assert(head_first_ends_at(all, last + carried));
            proof {
                let chosen = choose|j: int| head_first_ends_at(all, j);
                assert(head_first_ends_at(all, chosen));
                assert(chosen == last + carried);
            }
            return Some(last);
        }
        last = last + 1;
    }
    None
}

/// Whether a head terminator ends at `last` in `buf`, with `carry` before it.
fn ends_here(carry: &[u8], buf: &[u8], last: usize) -> (r: bool)
    requires
        carry@.len() <= 3,
        last < buf@.len(),
    ensures
        r == head_ends_at(carry@ + buf@, last + carry@.len()),
{
    if byte_back(carry, buf, last, 3) != Some(13u8) {
        return false;
    }
    byte_back(carry, buf, last, 2) == Some(10u8) && byte_back(carry, buf, last, 1) == Some(13u8)
        && buf[last] == 10
}

/// The byte that stands `back` places before index `last` of `buf`, with `carry` before it.
fn byte_back(carry: &[u8], buf: &[u8], last: usize, back: usize) -> (r: Option<u8>)
    requires
        last < buf@.len(),
        back <= 3,
        carry@.len() <= 3,
    ensures
        r is Some <==> last + carry@.len() >= back,
        r matches Some(b) ==> b == (carry@ + buf@)[last + carry@.len() - back],
{
    if last >= back {
        Some(buf[last - back])
    } else if carry.len() >= back - last {
        Some(carry[carry.len() - (back - last)])
    } else {
        None
    }
}

/// The last bytes of `carry` followed by `buf`, three at most, padded with zeros, and how many
/// there are.
pub fn trailing(carry: &[u8], buf: &[u8]) -> (r: ([u8; 3], u8))
    ensures
        r.1 <= 3,
        r.0@.take(r.1 as int) == last_three(carry@ + buf@),
        forall|i: int| r.1 <= i < 3 ==> r.0@[i] == 0,
{
    let ghost all = carry@ + buf@;
    let mut out: [u8; 3] = [0, 0, 0];
    let in_buf: usize = if buf.len() < 3 {
        buf.len()
    } else {
        3
    };
    let in_carry: usize = if carry.len() < 3 - in_buf {
        carry.len()
    } else {
        3 - in_buf
    };
    let mut i: usize = 0;
    while i < in_carry
        invariant
            0 <= i <= in_carry,
            in_carry <= carry@.len(),
            in_carry + in_buf <= 3,
            forall|k: int| 0 <= k < i ==> out@[k] == #[trigger] carry@[carry@.len() - in_carry + k],
            forall|k: int| i <= k < 3 ==> out@[k] == 0,
        decreases in_carry - i,
    {
        out[i] = carry[carry.len() - in_carry + i];
        i = i + 1;
    }
    let mut j: usize = 0;
    while j < in_buf
        invariant
            0 <= j <= in_buf,
            in_carry <= carry@.len(),
            in_buf <= buf@.len(),
            in_carry + in_buf <= 3,
            forall|k: int|
                0 <= k < in_carry ==> out@[k] == #[trigger] carry@[carry@.len() - in_carry + k],
            forall|k: int|
                0 <= k < j ==> out@[in_carry + k] == #[trigger] buf@[buf@.len() - in_buf + k],
            forall|k: int| in_carry + j <= k < 3 ==> out@[k] == 0,
        decreases in_buf - j,
    {
        out[in_carry + j] = buf[buf.len() - in_buf + j];
        j = j + 1;
    }
    proof {
        let got = out@.take(in_carry + in_buf);
        assert forall|k: int| 0 <= k < got.len() implies got[k] == last_three(all)[k] by {
            if k < in_carry {
                assert(out@[k] == carry@[carry@.len() - in_carry + k]);
            } else {
                assert(out@[in_carry + (k - in_carry)] == buf@[buf@.len() - in_buf + (k
                    - in_carry)]);
            }
        }
        assert(got =~= last_three(all));
    }
    (out, (in_carry + in_buf) as u8)
}

// ---------------------------------------------------------------------------
// What the stream does with a transport's answers
// ---------------------------------------------------------------------------

/// How a run of writes ends.
pub enum PushEnd<E> {
    /// Everything was taken.
    Done,
    /// The transport is full.
    Blocked,
    /// The transport took no byte.
    Zero,
    /// The transport failed.
    Failed(E),
    /// The calls are not those of this run.
    Stray,
}

/// The answer to a write of `bytes`, where `call` is that write.
pub open spec fn write_reply<F, E>(more: bool, bytes: Seq<u8>, call: Call<F, E>) -> Option<
    Polled<usize, E>,
> {
    match call {
        Call::Write { bytes: b, reply } => if !more && b == bytes {
            Some(reply)
        } else {
            None
        },
        Call::WriteMore { bytes: b, reply } => if more && b == bytes {
            Some(reply)
        } else {
            None
        },
        _ => None,
    }
}

/// A run of writes that offers `bytes`, then what was not taken of them, until all is taken, the
/// transport is full or it fails: how many bytes were taken, how the run ends, and how many of
/// `calls` it is made of.
pub open spec fn push_run<F, E>(more: bool, bytes: Seq<u8>, calls: Seq<Call<F, E>>) -> (
    nat,
    PushEnd<E>,
    nat,
)
    decreases calls.len(),
{
    if bytes.len() == 0 {
        (0, PushEnd::Done, 0)
    } else if calls.len() == 0 {
        (0, PushEnd::Stray, 0)
    } else {
        match write_reply(more, bytes, calls[0]) {
            None => (0, PushEnd::Stray, 0),
            Some(Polled::Pending) => (0, PushEnd::Blocked, 1),
            Some(Polled::Ready(Err(e))) => (0, PushEnd::Failed(e), 1),
            Some(Polled::Ready(Ok(n))) => if n == 0 {
                (0, PushEnd::Zero, 1)
            } else {
                let rest = push_run(more, bytes.skip(n as int), calls.skip(1));
                (n as nat + rest.0, rest.1, rest.2 + 1)
            },
        }
    }
}

/// How a run of file sends ends.
pub enum SendEnd<E> {
    /// Everything was sent, or the transport is full.
    Moved,
    /// The file ended.
    Ended,
    /// The transport failed.
    Failed(E),
    /// The calls are not those of this run.
    Stray,
}

/// A run of file sends that asks for `len` bytes of `file` from `offset` on, then for what was not
/// sent of them, until all is sent, the transport is full, the file ends or the transport fails:
/// how many bytes were sent, how the run ends, and how many of `calls` it is made of.
pub open spec fn send_run<F, E>(file: F, offset: u64, len: nat, calls: Seq<Call<F, E>>) -> (
    nat,
    SendEnd<E>,
    nat,
)
    decreases calls.len(),
{
    if len == 0 {
        (0, SendEnd::Moved, 0)
    } else if calls.len() == 0 {
        (0, SendEnd::Stray, 0)
    } else {
        match calls[0] {
            Call::Sendfile { file: f, offset: o, count, reply } => if f == file && o == offset
                && count == len {
                match reply {
                    Err(SendError::WouldBlock) => (0, SendEnd::Moved, 1),
                    Err(SendError::Failed(e)) => (0, SendEnd::Failed(e), 1),
                    Ok(n) => if n == 0 {
                        (0, SendEnd::Ended, 1)
                    } else {
                        let rest = send_run(
                            file,
                            advanced(offset, n as nat),
                            (len - n) as nat,
                            calls.skip(1),
                        );
                        (n as nat + rest.0, rest.1, rest.2 + 1)
                    },
                }
            } else {
                (0, SendEnd::Stray, 0)
            },
            _ => (0, SendEnd::Stray, 0),
        }
    }
}

/// A run that goes on after `done` bytes and `used` calls.
pub open spec fn push_on<E>(done: nat, used: nat, rest: (nat, PushEnd<E>, nat)) -> (
    nat,
    PushEnd<E>,
    nat,
) {
    (done + rest.0, rest.1, used + rest.2)
}

/// A run that goes on after `done` bytes and `used` calls.
pub open spec fn send_on<E>(done: nat, used: nat, rest: (nat, SendEnd<E>, nat)) -> (
    nat,
    SendEnd<E>,
    nat,
) {
    (done + rest.0, rest.1, used + rest.2)
}

/// Whether `calls` are the first of a run of file sends that has sent `done` bytes so far.
#[verifier::opaque]
spec fn send_begun<F, E>(file: F, offset: u64, len: nat, calls: Seq<Call<F, E>>, done: nat) -> bool {
    forall|rest: Seq<Call<F, E>>|
        send_run(file, offset, len, calls + rest) == send_on(
            done,
            calls.len(),
            #[trigger] send_run(file, advanced(offset, done), (len - done) as nat, rest),
        )
}

proof fn lemma_send_start<F, E>(file: F, offset: u64, len: nat)
    ensures
        send_begun(file, offset, len, Seq::<Call<F, E>>::empty(), 0),
{
    reveal(send_begun);
    lemma_advanced(offset, 0, 0);
    assert forall|rest: Seq<Call<F, E>>|
        send_run(file, offset, len, Seq::<Call<F, E>>::empty() + rest) == send_on(
            0,
            0,
            #[trigger] send_run(file, advanced(offset, 0), (len - 0) as nat, rest),
        ) by {
        assert(Seq::<Call<F, E>>::empty() + rest =~= rest);
    }
}

/// One more call, which sent `n` bytes.
proof fn lemma_send_more<F, E>(
    file: F,
    offset: u64,
    len: nat,
    calls: Seq<Call<F, E>>,
    done: nat,
    n: usize,
)
    requires
        send_begun(file, offset, len, calls, done),
        done < len,
        0 < n <= len - done,
    ensures
        send_begun(
            file,
            offset,
            len,
            calls.push(
                (Call::Sendfile {
                    file,
                    offset: advanced(offset, done),
                    count: (len - done) as nat,
                    reply: Ok(n),
                }),
            ),
            done + n as nat,
        ),
{
    reveal(send_begun);
    let call: Call<F, E> = Call::Sendfile {
        file,
        offset: advanced(offset, done),
        count: (len - done) as nat,
        reply: Ok(n),
    };
    lemma_advanced(offset, done, n as nat);
    assert forall|rest: Seq<Call<F, E>>|
        send_run(file, offset, len, calls.push(call) + rest) == send_on(
            done + n as nat,
            calls.push(call).len(),
            #[trigger] send_run(
                file,
                advanced(offset, done + n as nat),
                (len - (done + n as nat)) as nat,
                rest,
            ),
        ) by {
        let tail = seq![call] + rest;
        assert(calls.push(call) + rest =~= calls + tail);
        assert(tail.skip(1) =~= rest);
        assert(tail[0] == call);
        let step = send_run(file, advanced(offset, done), (len - done) as nat, tail);
    }
}

/// The last calls of a run.
proof fn lemma_send_last<F, E>(
    file: F,
    offset: u64,
    len: nat,
    calls: Seq<Call<F, E>>,
    done: nat,
    last: Seq<Call<F, E>>,
)
    requires
        send_begun(file, offset, len, calls, done),
    ensures
        send_run(file, offset, len, calls + last) == send_on(
            done,
            calls.len(),
            send_run(file, advanced(offset, done), (len - done) as nat, last),
        ),
{
    reveal(send_begun);
}

/// Moves `len` placeholder bytes to the peer as file content, as far as the transport takes it.
#[verifier::rlimit(40)]
fn transfer<S: SendfileTarget>(target: &mut Recorder<S>, plan: &mut Plan<S::File>, len: usize) -> (r: Result<
    usize,
    StreamError<S::Error>,
>)
    requires
        len <= old(plan).remaining,
    ensures
        old(target).log().is_prefix_of(final(target).log()),
        taken_fits(since(old(target).log(), final(target).log())),
        ({
            let new = since(old(target).log(), final(target).log());
            let run = send_run(old(plan).file, old(plan).offset, len as nat, new);
            &&& run.2 == new.len()
            &&& run.0 <= len
            &&& *final(plan) == plan_after(*old(plan), run.0)
            &&& match run.1 {
                SendEnd::Moved => r == Ok::<usize, StreamError<S::Error>>(run.0 as usize),
                SendEnd::Ended => r == Err::<usize, StreamError<S::Error>>(StreamError::FileEnded),
                SendEnd::Failed(e) => r == Err::<usize, StreamError<S::Error>>(
                    StreamError::Transport(e),
                ),
                SendEnd::Stray => false,
            }
        }),
{
    let mut done: usize = 0;
    let ghost start = target.log();
    let ghost first = *plan;
    proof {
        lemma_advanced(plan.offset, 0, 0);
        assert(since(start, start) =~= Seq::<Call<S::File, S::Error>>::empty());
        assert(start.take(start.len() as int) =~= start);
        lemma_send_start::<S::File, S::Error>(first.file, first.offset, len as nat);
    }
    while done < len
        invariant
            done <= len,
            len <= first.remaining,
            start == old(target).log(),
            first == *old(plan),
            *plan == plan_after(first, done as nat),
            start.is_prefix_of(target.log()),
            taken_fits(since(start, target.log())),
            send_begun(
                first.file,
                first.offset,
                len as nat,
                since(start, target.log()),
                done as nat,
            ),
        decreases len - done,
    {
        let ghost before = since(start, target.log());
        let ghost log = target.log();
        let reply = target.try_sendfile(&plan.file, plan.offset, len - done);
        proof {
            let call: Call<S::File, S::Error> = Call::Sendfile {
                file: first.file,
                offset: advanced(first.offset, done as nat),
                count: (len - done) as nat,
                reply,
            };
            assert(target.log() == log.push(call));
            assert(since(start, target.log()) =~= before.push(call));
            assert(before.push(call) =~= before + seq![call]);
            assert(start.is_prefix_of(target.log())) by {
                assert(target.log().subrange(0, start.len() as int) =~= log.subrange(
                    0,
                    start.len() as int,
                ));
            }
            lemma_send_last(
                first.file,
                first.offset,
                len as nat,
                before,
                done as nat,
                seq![call],
            );
        }
        match reply {
            Ok(written) => {
                if written == 0 {
                    return Err(StreamError::FileEnded);
                }
                proof {
                    lemma_advanced(first.offset, done as nat, written as nat);
                    lemma_send_more(
                        first.file,
                        first.offset,
                        len as nat,
                        before,
                        done as nat,
                        written,
                    );
                }
                plan.offset = advance(plan.offset, written as u64);
                plan.remaining = plan.remaining - written as u64;
                done = done + written;
            },
            Err(SendError::WouldBlock) => {
                return Ok(done);
            },
            Err(SendError::Failed(error)) => {
                return Err(StreamError::Transport(error));
            },
        }
    }
    proof {
        let now = since(start, target.log());
        let none = Seq::<Call<S::File, S::Error>>::empty();
        assert(now + none =~= now);
        lemma_send_last(first.file, first.offset, len as nat, now, done as nat, none);
    }
    Ok(done)
}

/// Offers `buf` to the transport until all of it is taken, the transport is full or it fails.
#[verifier::rlimit(40)]
fn push<S: SendfileTarget>(target: &mut Recorder<S>, waker: &S::Waker, more: bool, buf: &[u8]) -> (r: (
    usize,
    PushEnd<S::Error>,
))
    ensures
        old(target).log().is_prefix_of(final(target).log()),
        taken_fits(since(old(target).log(), final(target).log())),
        ({
            let new = since(old(target).log(), final(target).log());
            push_run(more, buf@, new) == (r.0 as nat, r.1, new.len())
        }),
        !(r.1 is Stray),
        r.0 <= buf@.len(),
        r.1 is Done <==> r.0 == buf@.len(),
{
    let mut done: usize = 0;
    let ghost start = target.log();
    proof {
        assert(start.take(start.len() as int) =~= start);
        assert forall|rest: Seq<Call<S::File, S::Error>>|
            push_run(more, buf@, since(start, target.log()) + rest) == push_on(
                0,
                0,
                #[trigger] push_run(more, buf@.skip(0), rest),
            ) by {
            assert(since(start, target.log()) + rest =~= rest);
            assert(buf@.skip(0) =~= buf@);
        }
    }
    while done < buf.len()
        invariant
            done <= buf@.len(),
            start == old(target).log(),
            start.is_prefix_of(target.log()),
            taken_fits(since(start, target.log())),
            forall|rest: Seq<Call<S::File, S::Error>>|
                push_run(more, buf@, since(start, target.log()) + rest) == push_on(
                    done as nat,
                    since(start, target.log()).len(),
                    #[trigger] push_run(more, buf@.skip(done as int), rest),
                ),
        decreases buf@.len() - done,
    {
        let ghost before = since(start, target.log());
        let ghost log = target.log();
        let left = slice_subrange(buf, done, buf.len());
        assert(left@ =~= buf@.skip(done as int));
        let reply = if more {
            target.poll_write_more(waker, left)
        } else {
            target.poll_write(waker, left)
        };
        let ghost call: Call<S::File, S::Error> = if more {
            Call::WriteMore { bytes: left@, reply }
        } else {
            Call::Write { bytes: left@, reply }
        };
        let ghost now = since(start, target.log());
        proof {
            assert(target.log() == log.push(call));
            assert(now =~= before + seq![call]);
            assert(start.is_prefix_of(target.log())) by {
                assert(target.log().subrange(0, start.len() as int) =~= log.subrange(
                    0,
                    start.len() as int,
                ));
            }
            assert(push_run(more, buf@, now) == push_on(
                done as nat,
                before.len(),
                push_run(more, buf@.skip(done as int), seq![call]),
            ));
        }
        match reply {
            Polled::Pending => {
                return (done, PushEnd::Blocked);
            },
            Polled::Ready(Err(error)) => {
                return (done, PushEnd::Failed(error));
            },
            Polled::Ready(Ok(count)) => {
                if count == 0 {
                    return (done, PushEnd::Zero);
                }
                proof {
                    assert(left@.skip(count as int) =~= buf@.skip(done + count));
                    assert forall|rest: Seq<Call<S::File, S::Error>>|
                        push_run(more, buf@, now + rest) == push_on(
                            (done + count) as nat,
                            now.len(),
                            #[trigger] push_run(more, buf@.skip(done + count), rest),
                        ) by {
                        assert(now + rest =~= before + (seq![call] + rest));
                        let tail = seq![call] + rest;
                        assert(tail.skip(1) =~= rest);
                        assert(tail[0] == call);
                        let step = push_run(more, buf@.skip(done as int), tail);
                    }
                }
                done = done + count;
            },
        }
    }
    proof {
        let now = since(start, target.log());
        let none = Seq::<Call<S::File, S::Error>>::empty();
        assert(now + none =~= now);
        let last = push_run(more, buf@.skip(done as int), none);
    }
    (done, PushEnd::Done)
}

/// What the bytes handed to a stream are taken to mean.
pub enum Mode {
    /// They are passed through.
    Idle,
    /// They belong to a response head, of which these are the last bytes so far, three at most.
    Head(Seq<u8>),
    /// They stand for file content.
    Sending,
}

/// A stream and the slot of its connection.
pub struct StreamModel<F> {
    /// What the next bytes mean.
    pub mode: Mode,
    /// Head bytes that were taken but not written yet.
    pub owed: Seq<u8>,
    /// The plan being sent.
    pub plan: Option<Plan<F>>,
    /// The plan that is waiting in the slot.
    pub slot: Option<Plan<F>>,
}

/// What a write comes to: the stream after it, how far it came, and how many calls it made.
pub struct Outcome<F, E> {
    /// The stream and the slot after the write.
    pub after: StreamModel<F>,
    /// How far the write came.
    pub step: WriteStep<E>,
    /// How many calls the transport had.
    pub used: nat,
}

/// The outcome for calls that no write makes: it claims more calls than there are.
pub open spec fn stray<F, E>(m: StreamModel<F>, calls: Seq<Call<F, E>>) -> Outcome<F, E> {
    Outcome { after: m, step: WriteStep::Pending, used: calls.len() + 1 }
}

/// An outcome with an error.
pub open spec fn failed<F, E>(m: StreamModel<F>, error: StreamError<E>, used: nat) -> Outcome<
    F,
    E,
> {
    Outcome { after: m, step: WriteStep::Ready(Err(error)), used }
}

/// An outcome with `n` bytes taken.
pub open spec fn took<F, E>(m: StreamModel<F>, n: nat, used: nat) -> Outcome<F, E> {
    Outcome { after: m, step: WriteStep::Ready(Ok(n as usize)), used }
}

/// An outcome after `used` earlier calls.
pub open spec fn later<F, E>(used: nat, o: Outcome<F, E>) -> Outcome<F, E> {
    Outcome { after: o.after, step: o.step, used: used + o.used }
}

/// A stream goes back to passing bytes through once its plan is sent.
pub open spec fn retired<F>(m: StreamModel<F>) -> StreamModel<F> {
    if m.plan is Some && m.plan->0.remaining == 0 {
        StreamModel { mode: Mode::Idle, plan: None, ..m }
    } else {
        m
    }
}

/// A write of `len` placeholder bytes: as much file content is sent in their place. Where the
/// transport is full at once, a wakeup is asked for.
#[verifier::opaque]
pub open spec fn placeholders_outcome<F, E>(
    m: StreamModel<F>,
    len: nat,
    calls: Seq<Call<F, E>>,
) -> Outcome<F, E> {
    match m.plan {
        None => failed(m, StreamError::PlanDisappeared, 0),
        Some(plan) => if len > plan.remaining {
            failed(m, StreamError::BodyTooLong, 0)
        } else {
            let run = send_run(plan.file, plan.offset, len, calls);
            let moved = StreamModel { plan: Some(plan_after(plan, run.0)), ..m };
            match run.1 {
                SendEnd::Stray => stray(m, calls),
                SendEnd::Ended => failed(moved, StreamError::FileEnded, run.2),
                SendEnd::Failed(e) => failed(moved, StreamError::Transport(e), run.2),
                SendEnd::Moved => if run.0 > 0 {
                    took(retired(moved), run.0, run.2)
                } else if run.2 < calls.len() && calls[run.2 as int] is Writable {
                    match calls[run.2 as int]->Writable_reply {
                        Polled::Pending => Outcome {
                            after: moved,
                            step: WriteStep::Pending,
                            used: run.2 + 1,
                        },
                        Polled::Ready(Ok(_)) => Outcome {
                            after: moved,
                            step: WriteStep::Again,
                            used: run.2 + 1,
                        },
                        Polled::Ready(Err(e)) => failed(
                            moved,
                            StreamError::Transport(e),
                            run.2 + 1,
                        ),
                    }
                } else {
                    stray(m, calls)
                },
            }
        },
    }
}

/// A write that begins inside a response head. The head is written as it is, up to its end; what
/// the transport does not take of it is owed. With the end of the head the waiting plan is taken,
/// and the bytes behind it are placeholders.
#[verifier::opaque]
pub open spec fn head_outcome<F, E>(
    m: StreamModel<F>,
    buf: Seq<u8>,
    calls: Seq<Call<F, E>>,
) -> Outcome<F, E> {
    if !(m.mode is Head) {
        failed(m, StreamError::StateLost, 0)
    } else {
        let carry = m.mode->Head_0;
        let end = head_end(carry, buf);
        let head_len = if end is Some {
            (end->0 + 1) as nat
        } else {
            buf.len()
        };
        let run = push_run(true, buf.take(head_len as int), calls);
        let owed = m.owed + buf.subrange(run.0 as int, head_len as int);
        match run.1 {
            PushEnd::Stray => stray(m, calls),
            PushEnd::Zero => failed(m, StreamError::WriteZero, run.2),
            PushEnd::Failed(e) => failed(m, StreamError::Transport(e), run.2),
            _ => if end is None {
                took(
                    StreamModel { mode: Mode::Head(last_three(carry + buf)), owed, ..m },
                    head_len,
                    run.2,
                )
            } else {
                let begun = StreamModel { mode: Mode::Sending, owed, plan: m.slot, slot: None };
                if m.slot is None {
                    failed(begun, StreamError::PlanDisappeared, run.2)
                } else if run.1 is Blocked || head_len == buf.len() {
                    took(begun, head_len, run.2)
                } else {
                    let plan = m.slot->0;
                    let rest = (buf.len() - head_len) as nat;
                    if rest > plan.remaining {
                        failed(begun, StreamError::BodyTooLong, run.2)
                    } else {
                        let send = send_run(
                            plan.file,
                            plan.offset,
                            rest,
                            calls.skip(run.2 as int),
                        );
                        let moved = StreamModel { plan: Some(plan_after(plan, send.0)), ..begun };
                        match send.1 {
                            SendEnd::Stray => stray(m, calls),
                            SendEnd::Ended => failed(
                                moved,
                                StreamError::FileEnded,
                                run.2 + send.2,
                            ),
                            SendEnd::Failed(e) => failed(
                                moved,
                                StreamError::Transport(e),
                                run.2 + send.2,
                            ),
                            SendEnd::Moved => took(
                                retired(moved),
                                head_len + send.0,
                                run.2 + send.2,
                            ),
                        }
                    }
                }
            },
        }
    }
}

/// A write that is passed through.
#[verifier::opaque]
pub open spec fn pass_outcome<F, E>(
    m: StreamModel<F>,
    buf: Seq<u8>,
    calls: Seq<Call<F, E>>,
) -> Outcome<F, E> {
    if calls.len() == 0 {
        stray(m, calls)
    } else {
        match write_reply(false, buf, calls[0]) {
            None => stray(m, calls),
            Some(Polled::Pending) => Outcome { after: m, step: WriteStep::Pending, used: 1 },
            Some(Polled::Ready(Ok(n))) => took(m, n as nat, 1),
            Some(Polled::Ready(Err(e))) => failed(m, StreamError::Transport(e), 1),
        }
    }
}

/// A write of `buf`: first what is owed, then `buf` by what the stream takes it to mean.
pub open spec fn write_outcome<F, E>(
    m: StreamModel<F>,
    buf: Seq<u8>,
    calls: Seq<Call<F, E>>,
) -> Outcome<F, E> {
    if buf.len() == 0 {
        took(m, 0, 0)
    } else {
        let drain = push_run(false, m.owed, calls);
        let drained = StreamModel { owed: m.owed.skip(drain.0 as int), ..m };
        let rest = calls.skip(drain.2 as int);
        match drain.1 {
            PushEnd::Stray => stray(m, calls),
            PushEnd::Blocked => Outcome {
                after: drained,
                step: WriteStep::Pending,
                used: drain.2,
            },
            PushEnd::Zero => failed(drained, StreamError::WriteZero, drain.2),
            PushEnd::Failed(e) => failed(drained, StreamError::Transport(e), drain.2),
            PushEnd::Done => later(
                drain.2,
                match drained.mode {
                    Mode::Idle => if drained.slot is None {
                        pass_outcome(drained, buf, rest)
                    } else {
                        head_outcome(
                            StreamModel { mode: Mode::Head(Seq::empty()), ..drained },
                            buf,
                            rest,
                        )
                    },
                    Mode::Head(_) => head_outcome(drained, buf, rest),
                    Mode::Sending => placeholders_outcome(drained, buf.len(), rest),
                },
            ),
        }
    }
}

/// What the bytes handed to the stream are taken to mean, as the stream stores it.
enum State {
    Idle,
    Head { carry: [u8; 3], len: u8 },
    Sending,
}

/// A transport stream that serves an armed [`SendfileSlot`].
///
/// A response head is written and then the response body. Where a handler has armed the slot, the
/// body it produced is a placeholder: the stream passes the head through untouched and then sends
/// file content in place of every byte that follows. Byte counts and order are kept.
pub struct SendfileStream<S: SendfileTarget> {
    inner: Recorder<S>,
    state: State,
    owed: Vec<u8>,
    plan: Option<Plan<S::File>>,
}

impl<S: SendfileTarget> SendfileStream<S> {
    /// The transport.
    pub closed spec fn transport(&self) -> S {
        self.inner.transport()
    }

    /// The calls that the transport has had.
    pub closed spec fn calls(&self) -> Seq<Call<S::File, S::Error>> {
        self.inner.log()
    }

    /// What the stream takes the next bytes to mean.
    pub closed spec fn mode(&self) -> Mode {
        match self.state {
            State::Idle => Mode::Idle,
            State::Head { carry, len } => Mode::Head(carry@.take(len as int)),
            State::Sending => Mode::Sending,
        }
    }

    /// The head bytes that were taken but not written yet.
    pub closed spec fn owed(&self) -> Seq<u8> {
        self.owed@
    }

    /// The plan being sent.
    pub closed spec fn plan(&self) -> Option<Plan<S::File>> {
        self.plan
    }

    /// A stream never remembers more than three bytes of a head.
    pub closed spec fn wf(&self) -> bool {
        self.state matches State::Head { carry, len } ==> len <= 3
    }

    /// The stream together with the slot of its connection.
    pub open spec fn model(&self, slot: SendfileSlot<S::File>) -> StreamModel<S::File> {
        StreamModel {
            mode: self.mode(),
            owed: self.owed(),
            plan: self.plan(),
            slot: slot.armed(),
        }
    }

    /// Wraps a transport.
    pub fn new(inner: S) -> (r: SendfileStream<S>)
        ensures
            r.wf(),
            r.transport() == inner,
            r.calls() == Seq::<Call<S::File, S::Error>>::empty(),
            r.mode() is Idle,
            r.owed() == Seq::<u8>::empty(),
            r.plan() is None,
    {
        SendfileStream { inner: Recorder::new(inner), state: State::Idle, owed: Vec::new(), plan: None }
    }

    /// The transport, for what does not go through the stream.
    pub fn get_ref(&self) -> (r: &S)
        ensures
            *r == self.transport(),
    {
        self.inner.get_ref()
    }

    /// Pushes head bytes that were taken already to the transport.
    fn drain_owed(&mut self, waker: &S::Waker) -> (r: PushEnd<S::Error>)
        requires
            old(self).wf(),
        ensures
            final(self).wf(),
            old(self).calls().is_prefix_of(final(self).calls()),
            taken_fits(since(old(self).calls(), final(self).calls())),
            ({
                let new = since(old(self).calls(), final(self).calls());
                let run = push_run(false, old(self).owed(), new);
                &&& run.1 == r
                &&& run.2 == new.len()
                &&& run.0 <= old(self).owed().len()
                &&& final(self).owed() == old(self).owed().skip(run.0 as int)
            }),
            !(r is Stray),
            r is Done ==> final(self).owed().len() == 0,
            final(self).mode() == old(self).mode(),
            final(self).plan() == old(self).plan(),
    {
        let (written, end) = push(&mut self.inner, waker, false, self.owed.as_slice());
        let left = self.owed.split_off(written);
        self.owed = left;
        end
    }

    /// Returns to passing bytes through once the plan's last byte is sent.
    fn retire(&mut self)
        requires
            old(self).wf(),
        ensures
            final(self).wf(),
            final(self).calls() == old(self).calls(),
            forall|slot: SendfileSlot<S::File>| #[trigger]
                final(self).model(slot) == retired(old(self).model(slot)),
    {
        let sent = match &self.plan {
            Some(plan) => plan.remaining == 0,
            None => false,
        };
        if sent {
            self.plan = None;
            self.state = State::Idle;
        }
    }

    /// Writes a response head and, where it ends in `buf`, sends content for the placeholders
    /// behind it.
    #[verifier::rlimit(40)]
    fn write_head(&mut self, slot: &mut SendfileSlot<S::File>, waker: &S::Waker, buf: &[u8]) -> (r:
        Result<usize, StreamError<S::Error>>)
        requires
            old(self).wf(),
        ensures
            final(self).wf(),
            old(self).calls().is_prefix_of(final(self).calls()),
            taken_fits(since(old(self).calls(), final(self).calls())),
            ({
                let new = since(old(self).calls(), final(self).calls());
                head_outcome(old(self).model(*old(slot)), buf@, new) == (Outcome {
                    after: final(self).model(*final(slot)),
                    step: WriteStep::Ready(r),
                    used: new.len(),
                })
            }),
    {
        let ghost before = self.calls();
        let ghost m = self.model(*slot);
        proof {
            reveal(head_outcome);
            assert(before.take(before.len() as int) =~= before);
        }
        let (carry, carry_len) = match &self.state {
            State::Head { carry, len } => (*carry, *len as usize),
            _ => {
                return Err(StreamError::StateLost);
            },
        };
        let carried = slice_subrange(carry.as_slice(), 0, carry_len);
        assert(carried@ == m.mode->Head_0);
        let total: usize = buf.len();
        let (head_len, found) = match find_head_end(carried, buf) {
            Some(index) => (index + 1, true),
            None => (total, false),
        };
        let head = slice_subrange(buf, 0, head_len);
        assert(head@ =~= buf@.take(head_len as int));
        let (written, end) = push(&mut self.inner, waker, true, head);
        let ghost pushed = self.calls();
        let ghost first = since(before, pushed);
        let blocked = match end {
            PushEnd::Zero => {
                return Err(write_zero());
            },
            PushEnd::Failed(error) => {
                return Err(StreamError::Transport(error));
            },
            PushEnd::Blocked => true,
            _ => false,
        };
        self.owed.extend_from_slice(slice_subrange(buf, written, head_len));
        assert(self.owed@ =~= m.owed + buf@.subrange(written as int, head_len as int));
        if !found {
            let (next, len) = trailing(carried, head);
            assert(head@ =~= buf@);
            self.state = State::Head { carry: next, len };
            return Ok(head_len);
        }
        self.state = State::Sending;
        self.plan = slot.take_plan();
        if self.plan.is_none() {
            return Err(StreamError::PlanDisappeared);
        }
        if blocked || head_len == buf.len() {
            return Ok(head_len);
        }
        let rest: usize = buf.len() - head_len;
        let ghost plan0 = self.plan->0;
        let sent = match &mut self.plan {
            None => {
                return Err(StreamError::PlanDisappeared);
            },
            Some(plan) => {
                if rest as u64 > plan.remaining {
                    return Err(StreamError::BodyTooLong);
                }
                transfer(&mut self.inner, plan, rest)
            },
        };
        proof {
            let second = since(pushed, self.calls());
            let all = since(before, self.calls());
            assert(all =~= first + second) by {
                lemma_prefix(before, pushed, self.calls());
            }
            assert(all.skip(first.len() as int) =~= second);
            lemma_push_extends(true, head@, first, second);
        }
        match sent {
            Err(error) => Err(error),
            Ok(done) => {
                self.retire();
                Ok(head_len + done)
            },
        }
    }

    /// Sends file content in place of `buf`.
    #[verifier::rlimit(40)]
    fn write_placeholders(&mut self, Ghost(slot): Ghost<SendfileSlot<S::File>>, waker: &S::Waker, buf: &[u8]) -> (r:
        WriteStep<S::Error>)
        requires
            old(self).wf(),
            buf@.len() > 0,
        ensures
            final(self).wf(),
            old(self).calls().is_prefix_of(final(self).calls()),
            taken_fits(since(old(self).calls(), final(self).calls())),
            ({
                let new = since(old(self).calls(), final(self).calls());
                placeholders_outcome(old(self).model(slot), buf@.len(), new) == (Outcome {
                    after: final(self).model(slot),
                    step: r,
                    used: new.len(),
                })
            }),
    {
        let ghost before = self.calls();
        proof {
            reveal(placeholders_outcome);
            assert(before.take(before.len() as int) =~= before);
        }
        let len: usize = buf.len();
        let sent = match &mut self.plan {
            None => {
                return WriteStep::Ready(Err(StreamError::PlanDisappeared));
            },
            Some(plan) => {
                if len as u64 > plan.remaining {
                    return WriteStep::Ready(Err(StreamError::BodyTooLong));
                }
                transfer(&mut self.inner, plan, len)
            },
        };
        let ghost moved = self.calls();
        let done: usize = match sent {
            Err(error) => {
                return WriteStep::Ready(Err(error));
            },
            Ok(done) => done,
        };
        if done > 0 {
            self.retire();
            return WriteStep::Ready(Ok(done));
        }
        let reply = self.inner.poll_writable(waker);
        proof {
            let call: Call<S::File, S::Error> = Call::Writable { reply };
            let plan = old(self).plan()->0;
            assert(moved.is_prefix_of(self.calls())) by {
                assert(moved =~= self.calls().subrange(0, moved.len() as int));
            }
            lemma_prefix(before, moved, self.calls());
            assert(since(moved, self.calls()) =~= seq![call]);
            lemma_send_extends(
                plan.file,
                plan.offset,
                len as nat,
                since(before, moved),
                seq![call],
            );
            assert(since(before, self.calls())[since(before, moved).len() as int] == call);
        }
        match reply {
            Polled::Pending => WriteStep::Pending,
            Polled::Ready(Ok(_)) => WriteStep::Again,
            Polled::Ready(Err(error)) => WriteStep::Ready(Err(StreamError::Transport(error))),
        }
    }

    /// Writes `buf`: head bytes as they are, placeholder bytes as file content.
    #[verifier::rlimit(40)]
    pub fn poll_write(&mut self, slot: &mut SendfileSlot<S::File>, waker: &S::Waker, buf: &[u8]) -> (r:
        WriteStep<S::Error>)
        requires
            old(self).wf(),
        ensures
            final(self).wf(),
            old(self).calls().is_prefix_of(final(self).calls()),
            taken_fits(since(old(self).calls(), final(self).calls())),
            ({
                let new = since(old(self).calls(), final(self).calls());
                write_outcome(old(self).model(*old(slot)), buf@, new) == (Outcome {
                    after: final(self).model(*final(slot)),
                    step: r,
                    used: new.len(),
                })
            }),
            kept(
                old(self).model(*old(slot)),
                buf@,
                since(old(self).calls(), final(self).calls()),
                (Outcome {
                    after: final(self).model(*final(slot)),
                    step: r,
                    used: since(old(self).calls(), final(self).calls()).len(),
                }),
            ),
    {
        let ghost before = self.calls();
        let ghost m = self.model(*slot);
        proof {
            reveal(pass_outcome);
            assert(before.take(before.len() as int) =~= before);
        }
        if buf.len() == 0 {
            proof {
                law_write_keeps_order(m, buf@, since(before, before));
            }
            return WriteStep::Ready(Ok(0));
        }
        let end = self.drain_owed(waker);
        let ghost drained = self.calls();
        let ghost first = since(before, drained);
        proof {
            if !(end is Done) {
                law_write_keeps_order(m, buf@, first);
            }
        }
        match end {
            PushEnd::Blocked => {
                return WriteStep::Pending;
            },
            PushEnd::Zero => {
                return WriteStep::Ready(Err(write_zero()));
            },
            PushEnd::Failed(error) => {
                return WriteStep::Ready(Err(StreamError::Transport(error)));
            },
            _ => {},
        }
        let idle = match &self.state {
            State::Idle => true,
            _ => false,
        };
        let sending = match &self.state {
            State::Sending => true,
            _ => false,
        };
        let step = if idle && !slot.is_armed() {
            match self.inner.poll_write(waker, buf) {
                Polled::Pending => WriteStep::Pending,
                Polled::Ready(Ok(n)) => WriteStep::Ready(Ok(n)),
                Polled::Ready(Err(error)) => WriteStep::Ready(Err(StreamError::Transport(error))),
            }
        } else if sending {
            self.write_placeholders(Ghost(*slot), waker, buf)
        } else {
            if idle {
                self.state = State::Head { carry: [0, 0, 0], len: 0 };
                assert(self.mode()->Head_0 =~= Seq::<u8>::empty());
            }
            WriteStep::Ready(self.write_head(slot, waker, buf))
        };
        proof {
            assert(drained.is_prefix_of(self.calls())) by {
                if idle && m.slot is None {
                    assert(drained =~= self.calls().subrange(0, drained.len() as int));
                }
            }
            lemma_prefix(before, drained, self.calls());
            lemma_push_extends(false, m.owed, first, since(drained, self.calls()));
            law_write_keeps_order(m, buf@, since(before, self.calls()));
        }
        step
    }

    /// Flushes the transport once nothing is owed.
    pub fn poll_flush(&mut self, waker: &S::Waker) -> (r: Polled<(), StreamError<S::Error>>)
        requires
            old(self).wf(),
        ensures
            final(self).wf(),
            old(self).calls().is_prefix_of(final(self).calls()),
            taken_fits(since(old(self).calls(), final(self).calls())),
            final(self).mode() == old(self).mode(),
            final(self).plan() == old(self).plan(),
            ({
                let new = since(old(self).calls(), final(self).calls());
                let drain = push_run(false, old(self).owed(), new);
                &&& final(self).owed() == old(self).owed().skip(drain.0 as int)
                &&& finish_outcome(drain, new, false) == Some(r)
            }),
            r matches Polled::Ready(Ok(_)) ==> final(self).owed().len() == 0,
            wire(since(old(self).calls(), final(self).calls())) + literal::<S::File>(
                final(self).owed(),
            ) == literal::<S::File>(old(self).owed()),
    {
        let ghost before = self.calls();
        let end = self.drain_owed(waker);
        let ghost drained = self.calls();
        proof {
            if !(end is Done) {
                law_finish_keeps_order(old(self).owed(), since(before, drained), false);
            }
        }
        match end {
            PushEnd::Blocked => {
                return Polled::Pending;
            },
            PushEnd::Zero => {
                return Polled::Ready(Err(write_zero()));
            },
            PushEnd::Failed(error) => {
                return Polled::Ready(Err(StreamError::Transport(error)));
            },
            _ => {},
        }
        let reply = self.inner.poll_flush(waker);
        proof {
            let call: Call<S::File, S::Error> = Call::Flush { reply };
            assert(drained.is_prefix_of(self.calls())) by {
                assert(drained =~= self.calls().subrange(0, drained.len() as int));
            }
            lemma_prefix(before, drained, self.calls());
            assert(since(drained, self.calls()) =~= seq![call]);
            lemma_push_extends(false, old(self).owed(), since(before, drained), seq![call]);
            assert(since(before, self.calls()).last() == call);
            law_finish_keeps_order(old(self).owed(), since(before, self.calls()), false);
        }
        match reply {
            Polled::Pending => Polled::Pending,
            Polled::Ready(Ok(_)) => Polled::Ready(Ok(())),
            Polled::Ready(Err(error)) => Polled::Ready(Err(StreamError::Transport(error))),
        }
    }

    /// Shuts the transport down once nothing is owed.
    pub fn poll_shutdown(&mut self, waker: &S::Waker) -> (r: Polled<(), StreamError<S::Error>>)
        requires
            old(self).wf(),
        ensures
            final(self).wf(),
            old(self).calls().is_prefix_of(final(self).calls()),
            taken_fits(since(old(self).calls(), final(self).calls())),
            final(self).mode() == old(self).mode(),
            final(self).plan() == old(self).plan(),
            ({
                let new = since(old(self).calls(), final(self).calls());
                let drain = push_run(false, old(self).owed(), new);
                &&& final(self).owed() == old(self).owed().skip(drain.0 as int)
                &&& finish_outcome(drain, new, true) == Some(r)
            }),
            r matches Polled::Ready(Ok(_)) ==> final(self).owed().len() == 0,
            wire(since(old(self).calls(), final(self).calls())) + literal::<S::File>(
                final(self).owed(),
            ) == literal::<S::File>(old(self).owed()),
    {
        let ghost before = self.calls();
        let end = self.drain_owed(waker);
        let ghost drained = self.calls();
        proof {
            if !(end is Done) {
                law_finish_keeps_order(old(self).owed(), since(before, drained), true);
            }
        }
        match end {
            PushEnd::Blocked => {
                return Polled::Pending;
            },
            PushEnd::Zero => {
                return Polled::Ready(Err(write_zero()));
            },
            PushEnd::Failed(error) => {
                return Polled::Ready(Err(StreamError::Transport(error)));
            },
            _ => {},
        }
        let reply = self.inner.poll_shutdown(waker);
        proof {
            let call: Call<S::File, S::Error> = Call::Shutdown { reply };
            assert(drained.is_prefix_of(self.calls())) by {
                assert(drained =~= self.calls().subrange(0, drained.len() as int));
            }
            lemma_prefix(before, drained, self.calls());
            assert(since(drained, self.calls()) =~= seq![call]);
            lemma_push_extends(false, old(self).owed(), since(before, drained), seq![call]);
            assert(since(before, self.calls()).last() == call);
            law_finish_keeps_order(old(self).owed(), since(before, self.calls()), true);
        }
        match reply {
            Polled::Pending => Polled::Pending,
            Polled::Ready(Ok(_)) => Polled::Ready(Ok(())),
            Polled::Ready(Err(error)) => Polled::Ready(Err(StreamError::Transport(error))),
        }
    }
}

/// The answer of a transport to a flush or a shutdown, as the stream gives it.
pub open spec fn finish_reply<E>(reply: Polled<(), E>) -> Polled<(), StreamError<E>> {
    match reply {
        Polled::Pending => Polled::Pending,
        Polled::Ready(Ok(_)) => Polled::Ready(Ok(())),
        Polled::Ready(Err(e)) => Polled::Ready(Err(StreamError::Transport(e))),
    }
}

/// What a flush or a shutdown comes to. `drain` is the run of writes of what was owed: only where
/// all of it was taken is the transport flushed or shut down, as the last of `calls`. `None` stands
/// for calls that neither makes.
pub open spec fn finish_outcome<F, E>(
    drain: (nat, PushEnd<E>, nat),
    calls: Seq<Call<F, E>>,
    shutdown: bool,
) -> Option<Polled<(), StreamError<E>>> {
    match drain.1 {
        PushEnd::Stray => None,
        PushEnd::Blocked => if calls.len() == drain.2 {
            Some(Polled::Pending)
        } else {
            None
        },
        PushEnd::Zero => if calls.len() == drain.2 {
            Some(Polled::Ready(Err(StreamError::WriteZero)))
        } else {
            None
        },
        PushEnd::Failed(e) => if calls.len() == drain.2 {
            Some(Polled::Ready(Err(StreamError::Transport(e))))
        } else {
            None
        },
        PushEnd::Done => if calls.len() != drain.2 + 1 {
            None
        } else {
            match calls.last() {
                Call::Flush { reply } => if shutdown {
                    None
                } else {
                    Some(finish_reply(reply))
                },
                Call::Shutdown { reply } => if shutdown {
                    Some(finish_reply(reply))
                } else {
                    None
                },
                _ => None,
            }
        },
    }
}

/// A run of writes is over when it has ended: later calls are not part of it.
pub proof fn lemma_push_extends<F, E>(
    more: bool,
    bytes: Seq<u8>,
    calls: Seq<Call<F, E>>,
    later: Seq<Call<F, E>>,
)
    requires
        !(push_run(more, bytes, calls).1 is Stray),
    ensures
        push_run(more, bytes, calls + later) == push_run(more, bytes, calls),
        push_run(more, bytes, calls).2 <= calls.len(),
    decreases calls.len(),
{
    if bytes.len() > 0 {
        assert((calls + later)[0] == calls[0]);
        if let Some(Polled::Ready(Ok(n))) = write_reply(more, bytes, calls[0]) {
            if n > 0 {
                assert((calls + later).skip(1) =~= calls.skip(1) + later);
                lemma_push_extends(more, bytes.skip(n as int), calls.skip(1), later);
            }
        }
    }
}

/// A run of file sends is over when it has ended: later calls are not part of it.
pub proof fn lemma_send_extends<F, E>(
    file: F,
    offset: u64,
    len: nat,
    calls: Seq<Call<F, E>>,
    later: Seq<Call<F, E>>,
)
    requires
        !(send_run(file, offset, len, calls).1 is Stray),
    ensures
        send_run(file, offset, len, calls + later) == send_run(file, offset, len, calls),
        send_run(file, offset, len, calls).2 <= calls.len(),
    decreases calls.len(),
{
    if len > 0 {
        assert((calls + later)[0] == calls[0]);
        if let Call::Sendfile { file: f, offset: o, count, reply: Ok(n) } = calls[0] {
            if n > 0 {
                assert((calls + later).skip(1) =~= calls.skip(1) + later);
                lemma_send_extends(
                    file,
                    advanced(offset, n as nat),
                    (len - n) as nat,
                    calls.skip(1),
                    later,
                );
            }
        }
    }
}

/// Calls made in two parts are the calls of the first part and those of the second.
proof fn lemma_prefix<F, E>(a: Seq<Call<F, E>>, b: Seq<Call<F, E>>, c: Seq<Call<F, E>>)
    requires
        a.is_prefix_of(b),
        b.is_prefix_of(c),
    ensures
        a.is_prefix_of(c),
        since(a, c) == since(a, b) + since(b, c),
        since(a, c).skip(since(a, b).len() as int) == since(b, c),
{
    assert(a =~= c.subrange(0, a.len() as int)) by {
        assert(b.subrange(0, a.len() as int) =~= c.subrange(0, b.len() as int).subrange(
            0,
            a.len() as int,
        ));
    }
    assert(since(a, c) =~= since(a, b) + since(b, c)) by {
        assert forall|i: int| 0 <= i < since(a, b).len() implies since(a, c)[i] == since(a, b)[i] by {
            assert(b[a.len() + i] == c.subrange(0, b.len() as int)[a.len() + i]);
        }
    }
    assert(since(a, c).skip(since(a, b).len() as int) =~= since(b, c));
}

/// What an error of the stream's own is called; one of the transport has its own words.
pub proof fn law_error_words<E>(error: E)
    ensures
        stream_error_text(StreamError::<E>::StateLost) == Some("sendfile stream state lost"@),
        stream_error_text(StreamError::<E>::PlanDisappeared) == Some("sendfile plan disappeared"@),
        stream_error_text(StreamError::<E>::BodyTooLong) == Some(
            "sendfile body exceeds its content length"@,
        ),
        stream_error_text(StreamError::<E>::FileEnded) == Some(
            "file ended before its content length"@,
        ),
        stream_error_text(StreamError::Transport(error)) is None,
{
}

} // verus!

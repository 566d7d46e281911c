//! What a write answers, by what the transport replied to it.
use crate::sendfile::body::{advanced, Plan};
use crate::sendfile::laws::tail_fits;
use crate::sendfile::stream::{
    finish_outcome, head_end, head_ends_at, head_first_ends_at, head_outcome, no_head_end, pass_outcome,
    placeholders_outcome, push_run, send_run, write_outcome, write_reply, Mode, PushEnd, SendEnd,
    StreamError, StreamModel, WriteStep,
};
use crate::sendfile::target::{Call, Polled, SendError};
use vstd::prelude::*;

verus! {

/// Whether the transport said that it wakes the task later.
pub open spec fn wakes_later<F, E>(call: Call<F, E>) -> bool {
    match call {
        Call::Write { bytes, reply } => reply is Pending,
        Call::WriteMore { bytes, reply } => reply is Pending,
        Call::Writable { reply } => reply is Pending,
        Call::Flush { reply } => reply is Pending,
        Call::Shutdown { reply } => reply is Pending,
        Call::Sendfile { file, offset, count, reply } => false,
    }
}

/// The error that the transport replied with.
pub open spec fn failure<F, E>(call: Call<F, E>) -> Option<E> {
    match call {
        Call::Write { bytes, reply: Polled::Ready(Err(e)) } => Some(e),
        Call::WriteMore { bytes, reply: Polled::Ready(Err(e)) } => Some(e),
        Call::Writable { reply: Polled::Ready(Err(e)) } => Some(e),
        Call::Flush { reply: Polled::Ready(Err(e)) } => Some(e),
        Call::Shutdown { reply: Polled::Ready(Err(e)) } => Some(e),
        Call::Sendfile { file, offset, count, reply: Err(SendError::Failed(e)) } => Some(e),
        _ => None,
    }
}

/// Whether the transport took none of some bytes.
pub open spec fn takes_none<F, E>(call: Call<F, E>) -> bool {
    match call {
        Call::Write { bytes, reply: Polled::Ready(Ok(n)) } => n == 0,
        Call::WriteMore { bytes, reply: Polled::Ready(Ok(n)) } => n == 0,
        _ => false,
    }
}

/// Whether the file had no content where some was asked for.
pub open spec fn file_ends<F, E>(call: Call<F, E>) -> bool {
    call matches Call::Sendfile { file, offset, count, reply: Ok(n) } && n == 0
}

/// Whether the transport went on: it took something.
pub open spec fn goes_on<F, E>(call: Call<F, E>) -> bool {
    match call {
        Call::Write { bytes, reply: Polled::Ready(Ok(n)) } => n > 0,
        Call::WriteMore { bytes, reply: Polled::Ready(Ok(n)) } => n > 0,
        Call::Sendfile { file, offset, count, reply: Ok(n) } => n > 0,
        _ => false,
    }
}

/// The calls that bytes are pushed with: of one sort, and all but the last one went on.
proof fn lemma_push_replies<F, E>(more: bool, bytes: Seq<u8>, calls: Seq<Call<F, E>>)
    requires
        !(push_run(more, bytes, calls).1 is Stray),
    ensures
        ({
            let run = push_run(more, bytes, calls);
            let last = calls[run.2 - 1];
            &&& run.2 <= calls.len()
            &&& forall|i: int|
                0 <= i < run.2 ==> (if more {
                    #[trigger] calls[i] is WriteMore
                } else {
                    calls[i] is Write
                })
            &&& forall|i: int| 0 <= i < run.2 - 1 ==> goes_on(#[trigger] calls[i])
            &&& match run.1 {
                PushEnd::Done => run.2 == 0 || goes_on(last),
                PushEnd::Blocked => run.2 > 0 && wakes_later(last),
                PushEnd::Zero => run.2 > 0 && takes_none(last),
                PushEnd::Failed(e) => run.2 > 0 && failure(last) == Some(e),
                PushEnd::Stray => false,
            }
        }),
    decreases calls.len(),
{
    let run = push_run(more, bytes, calls);
    if bytes.len() > 0 {
        if let Polled::Ready(Ok(n)) = write_reply(more, bytes, calls[0])->0 {
            if n > 0 {
                let rest = calls.skip(1);
                lemma_push_replies(more, bytes.skip(n as int), rest);
                assert forall|i: int| 0 <= i < run.2 implies (if more {
                    #[trigger] calls[i] is WriteMore
                } else {
                    calls[i] is Write
                }) by {
                    if i > 0 {
                        assert(calls[i] == rest[i - 1]);
                    }
                }
                assert forall|i: int| 0 <= i < run.2 - 1 implies goes_on(#[trigger] calls[i]) by {
                    if i > 0 {
                        assert(calls[i] == rest[i - 1]);
                    }
                }
                if run.2 > 1 {
                    assert(calls[run.2 - 1] == rest[run.2 - 2]);
                }
            }
        }
    }
}

/// The calls that file content is sent with.
proof fn lemma_send_replies<F, E>(file: F, offset: u64, len: nat, calls: Seq<Call<F, E>>)
    requires
        !(send_run(file, offset, len, calls).1 is Stray),
    ensures
        ({
            let run = send_run(file, offset, len, calls);
            let last = calls[run.2 - 1];
            &&& run.2 <= calls.len()
            &&& forall|i: int| 0 <= i < run.2 ==> #[trigger] calls[i] is Sendfile
            &&& forall|i: int| 0 <= i < run.2 - 1 ==> goes_on(#[trigger] calls[i])
            &&& match run.1 {
                SendEnd::Moved => run.2 == 0 || goes_on(last) || (
                last matches Call::Sendfile { file: f, offset: o, count, reply } && (
                reply matches Err(e) && e is WouldBlock)),
                SendEnd::Ended => run.2 > 0 && file_ends(last),
                SendEnd::Failed(e) => run.2 > 0 && failure(last) == Some(e),
                SendEnd::Stray => false,
            }
        }),
    decreases calls.len(),
{
    let run = send_run(file, offset, len, calls);
    if len > 0 {
        if let Ok(n) = calls[0]->Sendfile_reply {
            if n > 0 {
                let rest = calls.skip(1);
                lemma_send_replies(
                    file,
                    advanced(offset, n as nat),
                    (len - n) as nat,
                    rest,
                );
                assert forall|i: int| 0 <= i < run.2 implies #[trigger] calls[i] is Sendfile by {
                    if i > 0 {
                        assert(calls[i] == rest[i - 1]);
                    }
                }
                assert forall|i: int| 0 <= i < run.2 - 1 implies goes_on(#[trigger] calls[i]) by {
                    if i > 0 {
                        assert(calls[i] == rest[i - 1]);
                    }
                }
                if run.2 > 1 {
                    assert(calls[run.2 - 1] == rest[run.2 - 2]);
                }
            }
        }
    }
}

/// What a write answers, by the last reply that it had.
pub open spec fn answers<F, E>(step: WriteStep<E>, calls: Seq<Call<F, E>>) -> bool {
    match step {
        WriteStep::Pending => calls.len() > 0 && wakes_later(calls.last()),
        WriteStep::Again => calls.len() > 0 && (calls.last() matches Call::Writable { reply } && (
        reply matches Polled::Ready(Ok(_)))),
        WriteStep::Ready(Err(StreamError::Transport(e))) => calls.len() > 0 && failure(calls.last())
            == Some(e),
        WriteStep::Ready(Err(StreamError::WriteZero)) => calls.len() > 0 && takes_none(
            calls.last(),
        ),
        WriteStep::Ready(Err(StreamError::FileEnded)) => calls.len() > 0 && file_ends(calls.last()),
        WriteStep::Ready(Ok(n)) => calls.len() > 0 ==> failure(calls.last()) is None && !file_ends(
            calls.last(),
        ) && (takes_none(calls.last()) ==> n == 0),
        WriteStep::Ready(Err(error)) => {
            &&& error is PlanDisappeared || error is BodyTooLong
            &&& calls.len() > 0 ==> failure(calls.last()) is None && !file_ends(calls.last())
                && !takes_none(calls.last())
        },
    }
}

/// Whether no reply but the last one was an error.
pub open spec fn fails_last<F, E>(calls: Seq<Call<F, E>>) -> bool {
    forall|i: int|
        0 <= i < calls.len() - 1 ==> failure(#[trigger] calls[i]) is None && !file_ends(calls[i])
}

proof fn lemma_head_replies<F, E>(m: StreamModel<F>, buf: Seq<u8>, calls: Seq<Call<F, E>>)
    requires
        m.mode is Head,
        buf.len() > 0,
        head_outcome(m, buf, calls).used == calls.len(),
    ensures
        answers(head_outcome(m, buf, calls).step, calls),
        fails_last(calls),
        forall|i: int| 0 <= i < calls.len() ==> !(#[trigger] calls[i] is Write),
{
    reveal(head_outcome);
    let carry = m.mode->Head_0;
    let end = head_end(carry, buf);
    let head_len = if end is Some {
        (end->0 + 1) as nat
    } else {
        buf.len()
    };
    let run = push_run(true, buf.take(head_len as int), calls);
    lemma_push_replies(true, buf.take(head_len as int), calls);
    assert forall|i: int| 0 <= i < run.2 implies !(#[trigger] calls[i] is Write) by {
        assert(calls[i] is WriteMore);
    }
    let more = (buf.len() - head_len) as nat;
    if end is Some && m.slot is Some && run.1 is Done && head_len != buf.len() && more
        <= m.slot->0.remaining {
        let plan = m.slot->0;
        let rest = calls.skip(run.2 as int);
        let send = send_run(plan.file, plan.offset, more, rest);
        lemma_send_replies(plan.file, plan.offset, more, rest);
        assert(calls.len() == run.2 + send.2);
        assert forall|i: int| 0 <= i < calls.len() implies !(#[trigger] calls[i] is Write) by {
            if i >= run.2 {
                assert(calls[i] == rest[i - run.2]);
                assert(rest[i - run.2] is Sendfile);
            }
        }
        assert forall|i: int| 0 <= i < calls.len() - 1 implies failure(#[trigger] calls[i]) is None
            && !file_ends(calls[i]) by {
            if i >= run.2 {
                assert(calls[i] == rest[i - run.2]);
                assert(goes_on(rest[i - run.2]));
            } else if i < run.2 - 1 {
                assert(goes_on(calls[i]));
            }
        }
        if send.2 > 0 {
            assert(calls.last() == rest[send.2 - 1]);
        }
    } else {
        assert forall|i: int| 0 <= i < calls.len() - 1 implies failure(#[trigger] calls[i]) is None
            && !file_ends(calls[i]) by {
            assert(goes_on(calls[i]));
        }
    }
}

proof fn lemma_placeholder_replies<F, E>(m: StreamModel<F>, len: nat, calls: Seq<Call<F, E>>)
    requires
        len > 0,
        placeholders_outcome(m, len, calls).used == calls.len(),
    ensures
        answers(placeholders_outcome(m, len, calls).step, calls),
        fails_last(calls),
        forall|i: int| 0 <= i < calls.len() ==> #[trigger] calls[i] is Sendfile || calls[i] is Writable,
{
    reveal(placeholders_outcome);
    if m.plan is Some && len <= m.plan->0.remaining {
        let plan = m.plan->0;
        let run = send_run(plan.file, plan.offset, len, calls);
        lemma_send_replies(plan.file, plan.offset, len, calls);
        assert forall|i: int| 0 <= i < calls.len() implies #[trigger] calls[i] is Sendfile
            || calls[i] is Writable by {
            if i < run.2 {
                assert(calls[i] is Sendfile);
            }
        }
        assert forall|i: int| 0 <= i < calls.len() - 1 implies failure(#[trigger] calls[i]) is None
            && !file_ends(calls[i]) by {
            if i < run.2 - 1 {
                assert(goes_on(calls[i]));
            }
        }
    }
}

/// What a write answers goes by what the transport replied last: it waits only where the transport
/// said that it wakes the task, tries again only where the transport can be written to, and fails with
/// the transport's own error, with a file that ended or with bytes that were not taken, exactly where
/// that was the reply. After such a reply there is no further call.
pub proof fn law_answers<F, E>(m: StreamModel<F>, buf: Seq<u8>, calls: Seq<Call<F, E>>)
    requires
        write_outcome(m, buf, calls).used == calls.len(),
    ensures
        answers(write_outcome(m, buf, calls).step, calls),
        fails_last(calls),
{
    reveal(pass_outcome);
    if buf.len() > 0 {
        let drain = push_run(false, m.owed, calls);
        let drained = StreamModel { owed: m.owed.skip(drain.0 as int), ..m };
        let rest = calls.skip(drain.2 as int);
        lemma_push_replies(false, m.owed, calls);
        if drain.1 is Done {
            assert(rest.len() == calls.len() - drain.2);
            if drained.mode is Idle {
                if drained.slot is Some {
                    lemma_head_replies(
                        StreamModel { mode: Mode::Head(Seq::empty()), ..drained },
                        buf,
                        rest,
                    );
                }
            } else if drained.mode is Head {
                lemma_head_replies(drained, buf, rest);
            } else {
                lemma_placeholder_replies(drained, buf.len(), rest);
            }
            if rest.len() > 0 {
                assert(calls.last() == rest.last());
            }
            assert forall|i: int| 0 <= i < calls.len() - 1 implies failure(#[trigger] calls[i]) is None
                && !file_ends(calls[i]) by {
                if i >= drain.2 {
                    assert(calls[i] == rest[i - drain.2]);
                } else {
                    assert(goes_on(calls[i]));
                }
            }
        } else {
            assert forall|i: int| 0 <= i < calls.len() - 1 implies failure(#[trigger] calls[i]) is None
                && !file_ends(calls[i]) by {
                assert(goes_on(calls[i]));
            }
        }
    }
}

/// The bytes of a response head are written as bytes that more follow, and no others are: bytes that
/// are passed on, or that were owed, are written plainly, and in place of placeholders nothing is
/// written at all.
pub proof fn law_how_bytes_are_written<F, E>(m: StreamModel<F>, buf: Seq<u8>, calls: Seq<Call<F, E>>)
    requires
        m.owed.len() == 0,
        buf.len() > 0,
        write_outcome(m, buf, calls).used == calls.len(),
    ensures
        m.mode is Head || (m.mode is Idle && m.slot is Some) ==> forall|i: int|
            0 <= i < calls.len() ==> !(#[trigger] calls[i] is Write),
        m.mode is Idle && m.slot is None ==> calls.len() == 1 && (calls[0] matches Call::Write {
            bytes,
            reply: _,
        } && bytes == buf),
        m.mode is Sending ==> forall|i: int|
            0 <= i < calls.len() ==> #[trigger] calls[i] is Sendfile || calls[i] is Writable,
{
    reveal(pass_outcome);
    let drained = StreamModel { owed: m.owed.skip(0), ..m };
    assert(calls.skip(0) =~= calls);
    if m.mode is Idle {
        if m.slot is Some {
            lemma_head_replies(
                StreamModel { mode: Mode::Head(Seq::empty()), ..drained },
                buf,
                calls,
            );
        }
    } else if m.mode is Head {
        lemma_head_replies(drained, buf, calls);
    } else {
        lemma_placeholder_replies(drained, buf.len(), calls);
    }
}

/// No bytes are written without a call, and answered as none taken.
pub proof fn law_nothing_to_write<F, E>(m: StreamModel<F>, calls: Seq<Call<F, E>>)
    ensures
        ({
            let o = write_outcome(m, Seq::<u8>::empty(), calls);
            &&& o.after == m
            &&& o.step == WriteStep::<E>::Ready(Ok(0))
            &&& o.used == 0
        }),
{
}

/// Placeholders beyond the content that is planned are refused, before any call; as many as are
/// planned are taken as soon as the transport takes that much content.
pub proof fn law_placeholders_are_taken<F, E>(m: StreamModel<F>, buf: Seq<u8>, plan: Plan<F>)
    requires
        m.mode is Sending,
        m.owed.len() == 0,
        m.plan == Some(plan),
        0 < buf.len() <= usize::MAX,
    ensures
        buf.len() > plan.remaining ==> {
            let o = write_outcome(m, buf, Seq::<Call<F, E>>::empty());
            o.used == 0 && o.step == WriteStep::<E>::Ready(Err(StreamError::BodyTooLong))
        },
        buf.len() <= plan.remaining ==> {
            let all = Call::<F, E>::Sendfile {
                file: plan.file,
                offset: plan.offset,
                count: buf.len(),
                reply: Ok(buf.len() as usize),
            };
            let o = write_outcome(m, buf, seq![all]);
            o.used == 1 && o.step == WriteStep::<E>::Ready(Ok(buf.len() as usize))
        },
{
    reveal(placeholders_outcome);
    let none = Seq::<Call<F, E>>::empty();
    assert(none.skip(0) =~= none);
    if buf.len() <= plan.remaining {
        let all = Call::<F, E>::Sendfile {
            file: plan.file,
            offset: plan.offset,
            count: buf.len(),
            reply: Ok(buf.len() as usize),
        };
        let calls = seq![all];
        assert(calls.skip(0) =~= calls);
        assert(calls.skip(1) =~= none);
        let next = advanced(plan.offset, buf.len());
        assert(send_run(plan.file, next, 0, none) == (0nat, SendEnd::<E>::Moved, 0nat));
        assert(send_run(plan.file, plan.offset, buf.len(), calls) == (
            buf.len(),
            SendEnd::<E>::Moved,
            1nat,
        ));
    }
}

/// Where a transport would block before it took any content, a wakeup is asked for.
pub proof fn law_blocked_asks_for_wakeup<F, E>(m: StreamModel<F>, buf: Seq<u8>, plan: Plan<F>)
    requires
        m.mode is Sending,
        m.owed.len() == 0,
        m.plan == Some(plan),
        0 < buf.len() <= plan.remaining,
    ensures
        ({
            let blocked = Call::<F, E>::Sendfile {
                file: plan.file,
                offset: plan.offset,
                count: buf.len(),
                reply: Err(SendError::WouldBlock),
            };
            let asleep = Call::<F, E>::Writable { reply: Polled::Pending };
            let awake = Call::<F, E>::Writable { reply: Polled::Ready(Ok(())) };
            let parked = write_outcome(m, buf, seq![blocked, asleep]);
            let again = write_outcome(m, buf, seq![blocked, awake]);
            &&& parked.used == 2 && parked.step is Pending
            &&& again.used == 2 && again.step is Again
            &&& write_outcome(m, buf, seq![blocked]).used != 1
        }),
{
    reveal(placeholders_outcome);
    let blocked = Call::<F, E>::Sendfile {
        file: plan.file,
        offset: plan.offset,
        count: buf.len(),
        reply: Err(SendError::WouldBlock),
    };
    let asleep = Call::<F, E>::Writable { reply: Polled::Pending };
    let awake = Call::<F, E>::Writable { reply: Polled::Ready(Ok(())) };
    assert(seq![blocked, asleep].skip(0) =~= seq![blocked, asleep]);
    assert(seq![blocked, awake].skip(0) =~= seq![blocked, awake]);
    assert(seq![blocked].skip(0) =~= seq![blocked]);
}

/// A head that the transport takes whole is taken whole, and so are bytes that are passed on as far as
/// the transport takes them.
pub proof fn law_bytes_are_taken<F, E>(m: StreamModel<F>, buf: Seq<u8>, n: usize)
    requires
        m.owed.len() == 0,
        0 < buf.len() <= usize::MAX,
    ensures
        m.mode is Idle && m.slot is None ==> {
            let o = write_outcome(
                m,
                buf,
                seq![Call::<F, E>::Write { bytes: buf, reply: Polled::Ready(Ok(n)) }],
            );
            o.used == 1 && o.step == WriteStep::<E>::Ready(Ok(n)) && o.after.mode is Idle
        },
        (m.mode matches Mode::Head(carry) && no_head_end(carry + buf)) ==> {
            let o = write_outcome(
                m,
                buf,
                seq![
                    Call::<F, E>::WriteMore {
                        bytes: buf,
                        reply: Polled::Ready(Ok(buf.len() as usize)),
                    },
                ],
            );
            o.used == 1 && o.step == WriteStep::<E>::Ready(Ok(buf.len() as usize)) && o.after.mode is Head
        },
{
    reveal(head_outcome);
    reveal(pass_outcome);
    let none = Seq::<Call<F, E>>::empty();
    if m.mode is Head {
        let all = Call::<F, E>::WriteMore {
            bytes: buf,
            reply: Polled::Ready(Ok(buf.len() as usize)),
        };
        let calls = seq![all];
        assert(calls.skip(0) =~= calls);
        assert(calls.skip(1) =~= none);
        assert(buf.take(buf.len() as int) =~= buf);
        assert(buf.skip(buf.len() as int).len() == 0);
        assert(push_run(true, buf.skip(buf.len() as int), none) == (0nat, PushEnd::<E>::Done, 0nat));
        assert(push_run(true, buf, calls) == (buf.len(), PushEnd::<E>::Done, 1nat));
    } else {
        let calls = seq![Call::<F, E>::Write { bytes: buf, reply: Polled::Ready(Ok(n)) }];
        assert(calls.skip(0) =~= calls);
    }
}

/// A response head ends with an empty line, and nowhere else.
pub proof fn law_empty_line_ends_head(s: Seq<u8>, j: int, front: Seq<u8>, rest: Seq<u8>)
    ensures
        head_ends_at(s, j) ==> s.subrange(j - 3, j + 1) == seq![13u8, 10, 13, 10],
        head_ends_at(front + seq![13u8, 10, 13, 10] + rest, front.len() as int + 3),
{
    if head_ends_at(s, j) {
        assert(s.subrange(j - 3, j + 1) =~= seq![13u8, 10, 13, 10]);
    }
    let all = front + seq![13u8, 10, 13, 10] + rest;
    let n = front.len() as int;
    assert(all[n] == 13 && all[n + 1] == 10 && all[n + 2] == 13 && all[n + 3] == 10);
}

/// A flush, and a shutdown, answer what the transport replied last: done only where the transport
/// itself was flushed, or shut down, and said so.
pub proof fn law_finish_answers<F, E>(owed: Seq<u8>, calls: Seq<Call<F, E>>, shutdown: bool)
    requires
        finish_outcome(push_run(false, owed, calls), calls, shutdown) is Some,
    ensures
        calls.len() > 0,
        fails_last(calls),
        match finish_outcome(push_run(false, owed, calls), calls, shutdown)->0 {
            Polled::Pending => wakes_later(calls.last()),
            Polled::Ready(Ok(_)) => if shutdown {
                calls.last() matches Call::Shutdown { reply } && (reply matches Polled::Ready(Ok(_)))
            } else {
                calls.last() matches Call::Flush { reply } && (reply matches Polled::Ready(Ok(_)))
            },
            Polled::Ready(Err(StreamError::Transport(e))) => failure(calls.last()) == Some(e),
            Polled::Ready(Err(error)) => error is WriteZero && takes_none(calls.last()),
        },
{
    lemma_push_replies(false, owed, calls);
    let drain = push_run(false, owed, calls);
    assert forall|i: int| 0 <= i < calls.len() - 1 implies failure(#[trigger] calls[i]) is None
        && !file_ends(calls[i]) by {
        assert(goes_on(calls[i]));
    }
}

/// A plan that is gone is an error, and never an answer: where placeholders come and no plan is left
/// for them, and where a head ends and no plan waits behind it.
pub proof fn law_lost_plan<F, E>(m: StreamModel<F>, buf: Seq<u8>, calls: Seq<Call<F, E>>)
    requires
        m.owed.len() == 0,
        buf.len() > 0,
        write_outcome(m, buf, calls).used == calls.len(),
    ensures
        m.mode is Sending && m.plan is None ==> calls.len() == 0 && write_outcome(m, buf, calls).step
            == WriteStep::<E>::Ready(Err(StreamError::PlanDisappeared)),
        (m.mode matches Mode::Head(carry) && !no_head_end(carry + buf)) && m.slot is None ==> (
        write_outcome(m, buf, calls).step matches WriteStep::Ready(Err(_))),
{
    reveal(placeholders_outcome);
    reveal(head_outcome);
    assert(calls.skip(0) =~= calls);
}

/// The stream's own errors come for their own reasons only: a plan that is gone where one is needed,
/// and more bytes than the plan has content for.
pub proof fn law_own_errors<F, E>(m: StreamModel<F>, buf: Seq<u8>, calls: Seq<Call<F, E>>)
    requires
        tail_fits(m),
        write_outcome(m, buf, calls).used == calls.len(),
    ensures
        write_outcome(m, buf, calls).step matches WriteStep::Ready(Err(error)) ==> {
            &&& error is PlanDisappeared ==> if m.mode is Sending {
                m.plan is None
            } else {
                m.slot is None
            }
            &&& error is BodyTooLong ==> if m.mode is Sending {
                m.plan is Some && buf.len() > m.plan->0.remaining
            } else {
                m.slot is Some && buf.len() > m.slot->0.remaining
            }
            &&& !(error is StateLost)
        },
{
    reveal(placeholders_outcome);
    reveal(head_outcome);
    reveal(pass_outcome);
    if buf.len() > 0 {
        let carry = if m.mode is Head {
            m.mode->Head_0
        } else {
            Seq::empty()
        };
        lemma_head_part(carry, buf);
    }
}

/// The end of a head lies in what is written, where it was not there before.
proof fn lemma_head_part(carry: Seq<u8>, buf: Seq<u8>)
    requires
        carry.len() <= 3,
    ensures
        head_end(carry, buf) matches Some(end) ==> 0 <= end < buf.len(),
{
    let all = carry + buf;
    if !no_head_end(all) {
        let k = choose|k: int| head_ends_at(all, k);
        lemma_first_of(all, k);
        let j = choose|j: int| head_first_ends_at(all, j);
        assert(head_first_ends_at(all, j));
    }
}

proof fn lemma_first_of(s: Seq<u8>, k: int)
    requires
        head_ends_at(s, k),
    ensures
        exists|j: int| head_first_ends_at(s, j),
    decreases k,
{
    if forall|i: int| 0 <= i < k ==> !head_ends_at(s, i) {
        assert(head_first_ends_at(s, k));
    } else {
        let i = choose|i: int| 0 <= i < k && head_ends_at(s, i);
        lemma_first_of(s, i);
    }
}

} // verus!

//! What reaches the peer: the bytes a connection is handed, with file content in place of the
//! placeholders, whole and in order.
use crate::sendfile::body::{
    advanced, frames, law_frames_total, lemma_advanced, plan_after, total, Plan,
};
use crate::sendfile::stream::{
    call_fits, content, finish_outcome, head_end, head_ends_at, head_first_ends_at, head_outcome, last_three,
    lemma_push_extends, lemma_send_extends, lemma_wire_concat, literal, no_head_end, pass_outcome,
    placeholders_outcome, push_run, send_run, sent, taken_fits, wire, write_outcome, write_reply,
    Item, Mode, Outcome, StreamModel, WriteStep,
};
use crate::sendfile::target::{Call, Polled};
use vstd::prelude::*;

verus! {

/// Where a connection stands in what it is handed.
pub enum Stage<F> {
    /// Outside any armed response.
    Idle,
    /// Inside a response head, of which these are the last bytes, three at most.
    Head(Seq<u8>),
    /// Inside a body of placeholders; the plan says what stands for them.
    Body(Plan<F>),
    /// Behind a head that no plan was waiting for.
    Lost,
}

/// A stage and the plan that is waiting in the connection's slot.
pub struct Place<F> {
    /// The stage.
    pub stage: Stage<F>,
    /// The waiting plan.
    pub slot: Option<Plan<F>>,
}

/// The place of a stream.
pub open spec fn place<F>(m: StreamModel<F>) -> Place<F> {
    Place {
        stage: match m.mode {
            Mode::Idle => Stage::Idle,
            Mode::Head(tail) => Stage::Head(tail),
            Mode::Sending => match m.plan {
                Some(plan) => Stage::Body(plan),
                None => Stage::Lost,
            },
        },
        slot: m.slot,
    }
}

/// The place after a byte of a head that ends in `tail` so far.
pub open spec fn after_head_byte<F>(tail: Seq<u8>, slot: Option<Plan<F>>, b: u8) -> Place<F> {
    let all = tail.push(b);
    if head_ends_at(all, all.len() - 1) {
        Place {
            stage: match slot {
                Some(plan) => Stage::Body(plan),
                None => Stage::Lost,
            },
            slot: None,
        }
    } else {
        Place { stage: Stage::Head(last_three(all)), slot }
    }
}

/// The place after one byte.
pub open spec fn after_byte<F>(p: Place<F>, b: u8) -> Place<F> {
    match p.stage {
        Stage::Idle => if p.slot is None {
            p
        } else {
            after_head_byte(Seq::empty(), p.slot, b)
        },
        Stage::Head(tail) => after_head_byte(tail, p.slot, b),
        Stage::Body(plan) => Place {
            stage: if plan.remaining <= 1 {
                Stage::Idle
            } else {
                Stage::Body(plan_after(plan, 1))
            },
            slot: p.slot,
        },
        Stage::Lost => p,
    }
}

/// What one byte stands for.
pub open spec fn meaning_of_byte<F>(p: Place<F>, b: u8) -> Item<F> {
    match p.stage {
        Stage::Body(plan) => Item::Content { file: plan.file, offset: plan.offset },
        _ => Item::Literal(b),
    }
}

/// The place after a run of bytes.
pub open spec fn after<F>(p: Place<F>, bytes: Seq<u8>) -> Place<F>
    decreases bytes.len(),
{
    if bytes.len() == 0 {
        p
    } else {
        after_byte(after(p, bytes.drop_last()), bytes.last())
    }
}

/// What a run of bytes stands for: head bytes for themselves, placeholders for file content.
pub open spec fn meaning<F>(p: Place<F>, bytes: Seq<u8>) -> Seq<Item<F>>
    decreases bytes.len(),
{
    if bytes.len() == 0 {
        Seq::empty()
    } else {
        meaning(p, bytes.drop_last()).push(
            meaning_of_byte(after(p, bytes.drop_last()), bytes.last()),
        )
    }
}

/// However a run of bytes is cut into writes, it stands for the same.
pub proof fn law_cut_anywhere<F>(p: Place<F>, a: Seq<u8>, b: Seq<u8>)
    ensures
        after(p, a + b) == after(after(p, a), b),
        meaning(p, a + b) == meaning(p, a) + meaning(after(p, a), b),
    decreases b.len(),
{
    if b.len() == 0 {
        assert(a + b =~= a);
        assert(meaning(p, a) + meaning(after(p, a), b) =~= meaning(p, a));
    } else {
        law_cut_anywhere(p, a, b.drop_last());
        assert((a + b).drop_last() =~= a + b.drop_last());
        assert(meaning(p, a + b) =~= meaning(p, a) + meaning(after(p, a), b));
    }
}

/// Bytes outside any armed response stand for themselves.
pub proof fn law_pass_through<F>(bytes: Seq<u8>)
    ensures
        ({
            let p = Place::<F> { stage: Stage::Idle, slot: None };
            after(p, bytes) == p && meaning(p, bytes) == literal::<F>(bytes)
        }),
    decreases bytes.len(),
{
    let p = Place::<F> { stage: Stage::Idle, slot: None };
    if bytes.len() > 0 {
        law_pass_through::<F>(bytes.drop_last());
    }
    assert(meaning(p, bytes) =~= literal::<F>(bytes));
}

/// Bytes of a head that does not end yet stand for themselves.
proof fn lemma_inside_head<F>(tail: Seq<u8>, slot: Option<Plan<F>>, bytes: Seq<u8>)
    requires
        tail.len() <= 3,
        no_head_end(tail + bytes),
    ensures
        ({
            let p = Place { stage: Stage::Head(tail), slot };
            &&& after(p, bytes) == (Place { stage: Stage::Head(last_three(tail + bytes)), slot })
            &&& meaning(p, bytes) == literal::<F>(bytes)
        }),
    decreases bytes.len(),
{
    let p = Place { stage: Stage::Head(tail), slot };
    if bytes.len() == 0 {
        assert(tail + bytes =~= tail);
        assert(meaning(p, bytes) =~= literal::<F>(bytes));
    } else {
        let less = bytes.drop_last();
        let b = bytes.last();
        assert(tail + bytes =~= (tail + less).push(b));
        assert forall|k: int| !head_ends_at(tail + less, k) by {
            assert(!head_ends_at(tail + bytes, k));
        }
        lemma_inside_head(tail, slot, less);
        lemma_last_byte(tail + less, b);
        let at: int = (tail + bytes).len() - 1;
        assert(!head_ends_at(tail + bytes, at));
        assert(meaning(p, bytes) =~= literal::<F>(bytes));
    }
}

/// Whether a head ends with a byte is seen from the last three bytes before it.
proof fn lemma_last_byte(s: Seq<u8>, b: u8)
    ensures
        ({
            let t = last_three(s).push(b);
            &&& head_ends_at(t, t.len() - 1) == head_ends_at(s.push(b), s.len() as int)
            &&& last_three(t) == last_three(s.push(b))
        }),
{
    let t = last_three(s).push(b);
    assert(last_three(t) =~= last_three(s.push(b)));
}

/// A head up to its end stands for itself, and placeholders follow.
proof fn lemma_to_head_end<F>(tail: Seq<u8>, slot: Option<Plan<F>>, bytes: Seq<u8>)
    requires
        tail.len() <= 3,
        bytes.len() > 0,
        head_first_ends_at(tail + bytes, tail.len() + bytes.len() - 1),
    ensures
        ({
            let p = Place { stage: Stage::Head(tail), slot };
            &&& after(p, bytes) == (Place {
                stage: match slot {
                    Some(plan) => Stage::Body(plan),
                    None => Stage::Lost,
                },
                slot: None::<Plan<F>>,
            })
            &&& meaning(p, bytes) == literal::<F>(bytes)
        }),
{
    let p = Place { stage: Stage::Head(tail), slot };
    let less = bytes.drop_last();
    let b = bytes.last();
    assert(tail + bytes =~= (tail + less).push(b));
    assert forall|k: int| !head_ends_at(tail + less, k) by {
        if 0 <= k < (tail + less).len() {
            assert(!head_ends_at(tail + bytes, k));
        }
    }
    lemma_inside_head(tail, slot, less);
    lemma_last_byte(tail + less, b);
    assert(meaning(p, bytes) =~= literal::<F>(bytes));
}

/// Placeholders stand for the content of the plan's file.
proof fn lemma_body<F>(plan: Plan<F>, slot: Option<Plan<F>>, bytes: Seq<u8>)
    requires
        bytes.len() <= plan.remaining,
    ensures
        ({
            let p = Place { stage: Stage::Body(plan), slot };
            &&& meaning(p, bytes) == content(plan.file, plan.offset, bytes.len())
            &&& after(p, bytes) == (Place {
                stage: if bytes.len() == plan.remaining && bytes.len() > 0 {
                    Stage::Idle
                } else {
                    Stage::Body(plan_after(plan, bytes.len()))
                },
                slot,
            })
        }),
    decreases bytes.len(),
{
    let p = Place { stage: Stage::Body(plan), slot };
    lemma_advanced(plan.offset, 0, 0);
    if bytes.len() == 0 {
        assert(meaning(p, bytes) =~= content(plan.file, plan.offset, bytes.len()));
    } else {
        let less = bytes.drop_last();
        lemma_body(plan, slot, less);
        lemma_advanced(plan.offset, less.len(), 1);
        assert(meaning(p, bytes) =~= content(plan.file, plan.offset, bytes.len()));
    }
}

/// A whole armed response: its head reaches the peer as it is, and the file range reaches it in
/// place of the placeholders, from the first byte to the last. The connection is then idle again.
pub proof fn law_response<F>(plan: Plan<F>, head: Seq<u8>, placeholders: Seq<u8>)
    requires
        head_first_ends_at(head, head.len() - 1),
        placeholders.len() <= plan.remaining,
    ensures
        ({
            let p = Place { stage: Stage::Idle, slot: Some(plan) };
            &&& meaning(p, head + placeholders) == literal::<F>(head) + content(
                plan.file,
                plan.offset,
                placeholders.len(),
            )
            &&& placeholders.len() == plan.remaining && placeholders.len() > 0 ==> after(
                p,
                head + placeholders,
            ) == (Place { stage: Stage::Idle, slot: None::<Plan<F>> })
        }),
{
    let p = Place { stage: Stage::Idle, slot: Some(plan) };
    let none = Seq::<u8>::empty();
    assert(none + head =~= head);
    lemma_to_head_end(none, Some(plan), head);
    lemma_idle_is_head(plan, head);
    law_cut_anywhere(p, head, placeholders);
    lemma_body(plan, None, placeholders);
}

/// A connection whose slot is armed takes the next byte as the first of a head.
proof fn lemma_idle_is_head<F>(plan: Plan<F>, bytes: Seq<u8>)
    requires
        bytes.len() > 0,
    ensures
        ({
            let p = Place { stage: Stage::Idle, slot: Some(plan) };
            let q = Place { stage: Stage::Head(Seq::<u8>::empty()), slot: Some(plan) };
            after(p, bytes) == after(q, bytes) && meaning(p, bytes) == meaning(q, bytes)
        }),
    decreases bytes.len(),
{
    let p = Place { stage: Stage::Idle, slot: Some(plan) };
    let q = Place { stage: Stage::Head(Seq::<u8>::empty()), slot: Some(plan) };
    if bytes.len() > 1 {
        lemma_idle_is_head(plan, bytes.drop_last());
    } else {
        assert(bytes.drop_last() =~= Seq::<u8>::empty());
        assert(after(p, bytes.drop_last()) == p);
        assert(after(q, bytes.drop_last()) == q);
        assert(meaning(p, bytes.drop_last()) =~= meaning(q, bytes.drop_last()));
        assert(meaning(p, bytes) =~= meaning(q, bytes));
    }
}

/// What a run of writes puts on the wire is the part that was taken.
proof fn lemma_push_wire<F, E>(more: bool, bytes: Seq<u8>, calls: Seq<Call<F, E>>)
    requires
        !(push_run(more, bytes, calls).1 is Stray),
        taken_fits(calls),
    ensures
        ({
            let run = push_run(more, bytes, calls);
            &&& run.2 <= calls.len()
            &&& run.0 <= bytes.len()
            &&& run.1 is Done ==> run.0 == bytes.len()
            &&& wire(calls.take(run.2 as int)) == literal::<F>(bytes.take(run.0 as int))
        }),
    decreases calls.len(),
{
    let run = push_run(more, bytes, calls);
    lemma_push_extends(more, bytes, calls, Seq::empty());
    if bytes.len() == 0 {
        assert(wire(calls.take(0)) =~= literal::<F>(bytes.take(0)));
    } else {
        let first = calls.take(run.2 as int);
        assert(first[0] == calls[0]);
        match write_reply(more, bytes, calls[0]) {
            Some(Polled::Ready(Ok(n))) => {
                assert(call_fits(calls[0]));
                if n > 0 {
                    let rest = calls.skip(1);
                    assert forall|i: int| 0 <= i < rest.len() implies call_fits(#[trigger] rest[i]) by {
                        assert(call_fits(calls[i + 1]));
                    }
                    lemma_push_wire(more, bytes.skip(n as int), rest);
                    let run1 = push_run(more, bytes.skip(n as int), rest);
                    assert(first.skip(1) =~= rest.take(run1.2 as int));
                    assert(wire(first) =~= literal::<F>(bytes.take(run.0 as int)));
                } else {
                    assert(first.skip(1) =~= Seq::<Call<F, E>>::empty());
                    assert(wire(first.skip(1)) =~= Seq::<Item<F>>::empty());
                    assert(wire(first) =~= literal::<F>(bytes.take(0)));
                }
            },
            _ => {
                assert(first.skip(1) =~= Seq::<Call<F, E>>::empty());
                assert(wire(first.skip(1)) =~= Seq::<Item<F>>::empty());
                assert(wire(first) =~= literal::<F>(bytes.take(0)));
            },
        }
    }
}

/// What a run of file sends puts on the wire is the content that was sent.
proof fn lemma_send_wire<F, E>(file: F, offset: u64, len: nat, calls: Seq<Call<F, E>>)
    requires
        !(send_run(file, offset, len, calls).1 is Stray),
        taken_fits(calls),
    ensures
        ({
            let run = send_run(file, offset, len, calls);
            &&& run.2 <= calls.len()
            &&& run.0 <= len
            &&& wire(calls.take(run.2 as int)) == content(file, offset, run.0)
        }),
    decreases calls.len(),
{
    let run = send_run(file, offset, len, calls);
    lemma_send_extends(file, offset, len, calls, Seq::empty());
    if len == 0 {
        assert(wire(calls.take(0)) =~= content(file, offset, 0));
    } else {
        let first = calls.take(run.2 as int);
        assert(first[0] == calls[0]);
        assert(call_fits(calls[0]));
        match calls[0] {
            Call::Sendfile { file: f, offset: o, count, reply } => {
                match reply {
                    Ok(n) => {
                        if n > 0 {
                            let rest = calls.skip(1);
                            assert forall|i: int| 0 <= i < rest.len() implies call_fits(
                                #[trigger] rest[i],
                            ) by {
                                assert(call_fits(calls[i + 1]));
                            }
                            let offset1 = advanced(offset, n as nat);
                            lemma_send_wire(file, offset1, (len - n) as nat, rest);
                            let run1 = send_run(file, offset1, (len - n) as nat, rest);
                            assert(first.skip(1) =~= rest.take(run1.2 as int));
                            assert forall|i: int| 0 <= i < run1.0 implies advanced(
                                offset1,
                                i as nat,
                            ) == #[trigger] advanced(offset, (n + i) as nat) by {
                                lemma_advanced(offset, n as nat, i as nat);
                            }
                            assert(sent(calls[0]) == content(file, offset, n as nat));
                            let whole = content(file, offset, run.0);
                            let got = sent(calls[0]) + content(file, offset1, run1.0);
                            assert forall|i: int| 0 <= i < whole.len() implies whole[i] == got[i] by {
                                if i >= n {
                                    assert(advanced(offset1, (i - n) as nat) == advanced(
                                        offset,
                                        (n + (i - n)) as nat,
                                    ));
                                }
                            }
                            assert(got =~= whole);
                        } else {
                            assert(first.skip(1) =~= Seq::<Call<F, E>>::empty());
                            assert(wire(first.skip(1)) =~= Seq::<Item<F>>::empty());
                            assert(wire(first) =~= content(file, offset, 0));
                        }
                    },
                    _ => {
                        assert(first.skip(1) =~= Seq::<Call<F, E>>::empty());
                        assert(wire(first.skip(1)) =~= Seq::<Item<F>>::empty());
                        assert(wire(first) =~= content(file, offset, 0));
                    },
                }
            },
            _ => {},
        }
    }
}

/// Whether a stream remembers no more than three bytes of a head.
pub open spec fn tail_fits<F>(m: StreamModel<F>) -> bool {
    m.mode matches Mode::Head(tail) ==> tail.len() <= 3
}

/// What a write has to keep: the bytes on the wire, followed by those still owed, are the bytes
/// owed before, followed by what the bytes taken stand for.
pub open spec fn kept<F, E>(
    m: StreamModel<F>,
    buf: Seq<u8>,
    calls: Seq<Call<F, E>>,
    o: Outcome<F, E>,
) -> bool {
    match o.step {
        WriteStep::Ready(Ok(n)) => {
            &&& n <= buf.len()
            &&& wire(calls) + literal::<F>(o.after.owed) == literal::<F>(m.owed) + meaning(
                place(m),
                buf.take(n as int),
            )
            &&& place(o.after) == after(place(m), buf.take(n as int))
        },
        WriteStep::Ready(Err(_)) => wire(calls).is_prefix_of(
            literal::<F>(m.owed) + meaning(place(m), buf),
        ),
        _ => {
            &&& wire(calls) + literal::<F>(o.after.owed) == literal::<F>(m.owed)
            &&& place(o.after) == place(m)
        },
    }
}

/// What the first bytes of a run stand for comes first in what the run stands for.
proof fn lemma_meaning_prefix<F>(p: Place<F>, bytes: Seq<u8>, n: int)
    requires
        0 <= n <= bytes.len(),
    ensures
        meaning(p, bytes.take(n)).is_prefix_of(meaning(p, bytes)),
        meaning(p, bytes) == meaning(p, bytes.take(n)) + meaning(
            after(p, bytes.take(n)),
            bytes.skip(n),
        ),
{
    assert(bytes.take(n) + bytes.skip(n) =~= bytes);
    law_cut_anywhere(p, bytes.take(n), bytes.skip(n));
    let a = meaning(p, bytes.take(n));
    let whole = meaning(p, bytes);
    assert(a =~= whole.subrange(0, a.len() as int));
}

proof fn lemma_placeholders_kept<F, E>(m: StreamModel<F>, buf: Seq<u8>, calls: Seq<Call<F, E>>)
    requires
        m.mode is Sending,
        m.owed.len() == 0,
        buf.len() > 0,
        taken_fits(calls),
        placeholders_outcome(m, buf.len(), calls).used == calls.len(),
        buf.len() <= usize::MAX,
    ensures
        kept(m, buf, calls, placeholders_outcome(m, buf.len(), calls)),
{
    reveal(placeholders_outcome);
    let o = placeholders_outcome(m, buf.len(), calls);
    let owed = literal::<F>(m.owed);
    let p = place(m);
    assert(owed =~= Seq::<Item<F>>::empty());
    if m.plan is Some && buf.len() <= m.plan->0.remaining {
        let plan = m.plan->0;
        let run = send_run(plan.file, plan.offset, buf.len(), calls);
        lemma_send_wire(plan.file, plan.offset, buf.len(), calls);
        lemma_advanced(plan.offset, 0, 0);
        lemma_body(plan, m.slot, buf.take(run.0 as int));
        lemma_meaning_prefix(p, buf, run.0 as int);
        let first = calls.take(run.2 as int);
        if run.1 is Moved && run.0 == 0 {
            let last = calls.skip(run.2 as int);
            assert(calls =~= first + last);
            lemma_wire_concat(first, last);
            assert(last.skip(1) =~= Seq::<Call<F, E>>::empty());
            assert(wire(last.skip(1)) =~= Seq::<Item<F>>::empty());
            assert(wire(last) =~= Seq::<Item<F>>::empty());
            assert(wire(first) =~= Seq::<Item<F>>::empty());
            assert(wire(calls) =~= Seq::<Item<F>>::empty());
            assert(wire(calls) + owed =~= owed);
            assert(wire(calls) =~= (owed + meaning(p, buf)).subrange(0, 0));
        } else {
            assert(first =~= calls);
            assert(wire(calls) + owed =~= owed + meaning(p, buf.take(run.0 as int)));
            assert(owed + meaning(p, buf) =~= meaning(p, buf));
        }
    } else {
        assert(wire(calls) =~= Seq::<Item<F>>::empty());
        assert(wire(calls) =~= (owed + meaning(p, buf)).subrange(0, 0));
    }
}

#[verifier::rlimit(60)]
#[verifier::spinoff_prover]
proof fn lemma_head_kept<F, E>(m: StreamModel<F>, buf: Seq<u8>, calls: Seq<Call<F, E>>)
    requires
        m.mode is Head,
        tail_fits(m),
        m.owed.len() == 0,
        buf.len() > 0,
        taken_fits(calls),
        head_outcome(m, buf, calls).used == calls.len(),
        buf.len() <= usize::MAX,
    ensures
        kept(m, buf, calls, head_outcome(m, buf, calls)),
{
    reveal(head_outcome);
    let o = head_outcome(m, buf, calls);
    let owed = literal::<F>(m.owed);
    let p = place(m);
    let carry = m.mode->Head_0;
    assert(owed =~= Seq::<Item<F>>::empty());
    assert(owed + meaning(p, buf) =~= meaning(p, buf));
    lemma_head_end(carry, buf);
    let end = head_end(carry, buf);
    let head_len = if end is Some {
        (end->0 + 1) as nat
    } else {
        buf.len()
    };
    let head = buf.take(head_len as int);
    let run = push_run(true, head, calls);
    lemma_push_wire(true, head, calls);
    lemma_meaning_prefix(p, buf, head_len as int);
    if end is Some {
        assert(carry + head =~= (carry + buf).take((carry.len() + head_len) as int));
        assert(head_first_ends_at(carry + head, carry.len() + head_len - 1)) by {
            assert forall|k: int| 0 <= k < carry.len() + head_len - 1 implies !head_ends_at(
                carry + head,
                k,
            ) by {
                assert(!head_ends_at(carry + buf, k));
            }
        }
        lemma_to_head_end(carry, m.slot, head);
    } else {
        assert(head =~= buf);
        lemma_inside_head(carry, m.slot, buf);
    }
    let first = calls.take(run.2 as int);
    let held = m.owed + buf.subrange(run.0 as int, head_len as int);
    assert(literal::<F>(head.take(run.0 as int)) + literal::<F>(held) =~= literal::<F>(head));
    assert(head.take(run.0 as int) =~= buf.take(run.0 as int));
    assert(literal::<F>(head.take(run.0 as int)) =~= literal::<F>(head).subrange(0, run.0 as int));
    assert(meaning(p, head) == literal::<F>(head));
    assert(literal::<F>(head.take(run.0 as int)) =~= meaning(p, buf).subrange(0, run.0 as int));
    let sends = end is Some && run.1 is Done && m.slot is Some && head_len < buf.len() && buf.len()
        - head_len <= m.slot->0.remaining;
    if sends {
        let plan = m.slot->0;
        let rest = (buf.len() - head_len) as nat;
        let last = calls.skip(run.2 as int);
        assert(taken_fits(last)) by {
            assert forall|i: int| 0 <= i < last.len() implies call_fits(#[trigger] last[i]) by {
                assert(call_fits(calls[run.2 + i]));
            }
        }
        let send = send_run(plan.file, plan.offset, rest, last);
        lemma_send_wire(plan.file, plan.offset, rest, last);
        assert(last.take(send.2 as int) =~= last);
        assert(calls =~= first + last);
        lemma_wire_concat(first, last);
        let n = head_len + send.0;
        let body = buf.subrange(head_len as int, n as int);
        lemma_body(plan, None::<Plan<F>>, body);
        assert(buf.take(n as int) =~= head + body);
        law_cut_anywhere(p, head, body);
        lemma_meaning_prefix(p, buf, n as int);
        assert(held =~= Seq::<u8>::empty());
        assert(literal::<F>(held) =~= Seq::<Item<F>>::empty());
        assert(head.take(run.0 as int) =~= head);
        assert(wire(calls) =~= meaning(p, buf.take(n as int)));
        assert(wire(calls) + literal::<F>(held) =~= owed + meaning(p, buf.take(n as int)));
    } else {
        assert(first =~= calls);
        assert(wire(calls) + literal::<F>(held) =~= owed + meaning(p, head));
    }
}

/// The end of a head lies in the bytes that are new.
proof fn lemma_head_end(carry: Seq<u8>, buf: Seq<u8>)
    requires
        carry.len() <= 3,
    ensures
        head_end(carry, buf) is None ==> no_head_end(carry + buf),
        head_end(carry, buf) matches Some(i) ==> 0 <= i < buf.len() && head_first_ends_at(
            carry + buf,
            i + carry.len(),
        ),
{
    let all = carry + buf;
    if !no_head_end(all) {
        let some = choose|k: int| head_ends_at(all, k);
        lemma_first_end(all, some);
        let j = choose|j: int| head_first_ends_at(all, j);
        assert(head_first_ends_at(all, j));
    }
}

/// Where a head terminator ends somewhere, a first one does.
proof fn lemma_first_end(s: Seq<u8>, k: int)
    requires
        head_ends_at(s, k),
    ensures
        exists|j: int| head_first_ends_at(s, j),
    decreases k,
{
    if head_first_ends_at(s, k) {
    } else {
        let earlier = choose|i: int| 0 <= i < k && head_ends_at(s, i);
        assert(0 <= earlier < k && head_ends_at(s, earlier));
        lemma_first_end(s, earlier);
    }
}

/// Whatever the transport answers, a write keeps byte counts and order: nothing is lost, doubled
/// or moved. Bytes that were taken are on the wire or owed, and stand there for what they mean;
/// a write that takes nothing leaves the connection where it was; and even a write that fails has
/// put nothing on the wire but the first part of what was to come.
#[verifier::rlimit(40)]
pub proof fn law_write_keeps_order<F, E>(m: StreamModel<F>, buf: Seq<u8>, calls: Seq<Call<F, E>>)
    requires
        tail_fits(m),
        taken_fits(calls),
        buf.len() <= usize::MAX,
        write_outcome(m, buf, calls).used == calls.len(),
    ensures
        kept(m, buf, calls, write_outcome(m, buf, calls)),
{
    let o = write_outcome(m, buf, calls);
    let p = place(m);
    let owed = literal::<F>(m.owed);
    if buf.len() == 0 {
        assert(calls =~= Seq::<Call<F, E>>::empty());
        assert(wire(calls) =~= Seq::<Item<F>>::empty());
        assert(buf.take(0) =~= Seq::<u8>::empty());
        assert(wire(calls) + owed =~= owed + meaning(p, buf.take(0)));
    } else {
        let drain = push_run(false, m.owed, calls);
        lemma_push_wire(false, m.owed, calls);
        let drained = StreamModel { owed: m.owed.skip(drain.0 as int), ..m };
        let first = calls.take(drain.2 as int);
        let rest = calls.skip(drain.2 as int);
        assert(calls =~= first + rest);
        lemma_wire_concat(first, rest);
        assert(taken_fits(rest)) by {
            assert forall|i: int| 0 <= i < rest.len() implies call_fits(#[trigger] rest[i]) by {
                assert(call_fits(calls[drain.2 + i]));
            }
        }
        if drain.1 is Done {
            assert(m.owed.take(drain.0 as int) =~= m.owed);
            assert(literal::<F>(drained.owed) =~= Seq::<Item<F>>::empty());
            let inner = match drained.mode {
                Mode::Idle => if drained.slot is None {
                    pass_outcome(drained, buf, rest)
                } else {
                    head_outcome(
                        StreamModel { mode: Mode::Head(Seq::empty()), ..drained },
                        buf,
                        rest,
                    )
                },
                Mode::Head(_) => head_outcome(drained, buf, rest),
                Mode::Sending => placeholders_outcome(drained, buf.len(), rest),
            };
            match drained.mode {
                Mode::Idle => {
                    if drained.slot is None {
                        lemma_pass_kept(drained, buf, rest);
                    } else {
                        let armed = StreamModel { mode: Mode::Head(Seq::empty()), ..drained };
                        lemma_head_kept(armed, buf, rest);
                        assert forall|n: int| 0 < n <= buf.len() implies meaning(
                            place(armed),
                            #[trigger] buf.take(n),
                        ) == meaning(p, buf.take(n)) && after(place(armed), buf.take(n)) == after(
                            p,
                            buf.take(n),
                        ) by {
                            lemma_idle_is_head(m.slot->0, buf.take(n));
                        }
                        assert(buf.take(buf.len() as int) =~= buf);
                        lemma_head_takes(armed, buf, rest);
                    }
                },
                Mode::Head(_) => {
                    lemma_head_kept(drained, buf, rest);
                },
                Mode::Sending => {
                    lemma_placeholders_kept(drained, buf, rest);
                },
            }
            match inner.step {
                WriteStep::Ready(Ok(n)) => {
                    assert(wire(calls) + literal::<F>(o.after.owed) =~= owed + (wire(rest)
                        + literal::<F>(inner.after.owed)));
                    assert(literal::<F>(drained.owed) + meaning(p, buf.take(n as int)) =~= meaning(
                        p,
                        buf.take(n as int),
                    ));
                },
                WriteStep::Ready(Err(_)) => {
                    let all = owed + meaning(p, buf);
                    assert(literal::<F>(drained.owed) + meaning(p, buf) =~= meaning(p, buf));
                    assert(wire(calls) =~= all.subrange(0, wire(calls).len() as int));
                },
                _ => {
                    assert(wire(calls) + literal::<F>(o.after.owed) =~= owed + (wire(rest)
                        + literal::<F>(inner.after.owed)));
                    assert(wire(calls) + literal::<F>(o.after.owed) =~= owed);
                },
            }
        } else {
            assert(first =~= calls);
            assert(wire(calls) + literal::<F>(drained.owed) =~= owed);
            let all = owed + meaning(p, buf);
            assert(wire(calls) =~= all.subrange(0, wire(calls).len() as int));
        }
    }
}

/// A write inside a head takes at least one byte, or fails.
proof fn lemma_head_takes<F, E>(m: StreamModel<F>, buf: Seq<u8>, calls: Seq<Call<F, E>>)
    requires
        m.mode is Head,
        tail_fits(m),
        buf.len() > 0,
        head_outcome(m, buf, calls).used == calls.len(),
        buf.len() <= usize::MAX,
        taken_fits(calls),
    ensures
        match head_outcome(m, buf, calls).step {
            WriteStep::Ready(Ok(n)) => n > 0,
            WriteStep::Ready(Err(_)) => true,
            _ => false,
        },
{
    reveal(head_outcome);
    lemma_head_end(m.mode->Head_0, buf);
    let end = head_end(m.mode->Head_0, buf);
    if end is Some {
        let head_len = (end->0 + 1) as nat;
        let run = push_run(true, buf.take(head_len as int), calls);
        lemma_push_wire(true, buf.take(head_len as int), calls);
        let last = calls.skip(run.2 as int);
        assert(taken_fits(last)) by {
            assert forall|i: int| 0 <= i < last.len() implies call_fits(#[trigger] last[i]) by {
                assert(call_fits(calls[run.2 + i]));
            }
        }
        if m.slot is Some {
            let plan = m.slot->0;
            let rest = (buf.len() - head_len) as nat;
            if !(send_run(plan.file, plan.offset, rest, last).1 is Stray) {
                lemma_send_wire(plan.file, plan.offset, rest, last);
            }
        }
    }
}

proof fn lemma_pass_kept<F, E>(m: StreamModel<F>, buf: Seq<u8>, calls: Seq<Call<F, E>>)
    requires
        m.mode is Idle,
        m.slot is None,
        m.owed.len() == 0,
        taken_fits(calls),
        pass_outcome(m, buf, calls).used == calls.len(),
    ensures
        kept(m, buf, calls, pass_outcome(m, buf, calls)),
{
    reveal(pass_outcome);
    let p = place(m);
    let owed = literal::<F>(m.owed);
    assert(owed =~= Seq::<Item<F>>::empty());
    assert(call_fits(calls[0]));
    assert(calls.skip(1) =~= Seq::<Call<F, E>>::empty());
    assert(wire(calls.skip(1)) =~= Seq::<Item<F>>::empty());
    match write_reply(false, buf, calls[0]) {
        Some(Polled::Ready(Ok(n))) => {
            law_pass_through::<F>(buf.take(n as int));
            assert(wire(calls) + owed =~= owed + meaning(p, buf.take(n as int)));
        },
        _ => {
            assert(wire(calls) =~= Seq::<Item<F>>::empty());
            assert(wire(calls) + owed =~= owed);
            assert(wire(calls) =~= (owed + meaning(p, buf)).subrange(0, 0));
        },
    }
}

/// A flush or a shutdown keeps order too: what was owed is on the wire or still owed, and nothing is
/// owed once it succeeds.
pub proof fn law_finish_keeps_order<F, E>(owed: Seq<u8>, calls: Seq<Call<F, E>>, shutdown: bool)
    requires
        taken_fits(calls),
        finish_outcome(push_run(false, owed, calls), calls, shutdown) is Some,
    ensures
        ({
            let drain = push_run(false, owed, calls);
            let left = owed.skip(drain.0 as int);
            &&& drain.0 <= owed.len()
            &&& wire(calls) + literal::<F>(left) == literal::<F>(owed)
            &&& finish_outcome(drain, calls, shutdown)->0 matches Polled::Ready(Ok(_)) ==> left.len()
                == 0
        }),
{
    let drain = push_run(false, owed, calls);
    let left = owed.skip(drain.0 as int);
    lemma_push_wire(false, owed, calls);
    let first = calls.take(drain.2 as int);
    let last = calls.skip(drain.2 as int);
    assert(calls =~= first + last);
    lemma_wire_concat(first, last);
    if drain.1 is Done {
        assert(last.len() == 1);
        assert(last[0] == calls.last());
        assert(last.skip(1) =~= Seq::<Call<F, E>>::empty());
        assert(wire(last.skip(1)) =~= Seq::<Item<F>>::empty());
        assert(wire(last) =~= Seq::<Item<F>>::empty());
    } else {
        assert(last =~= Seq::<Call<F, E>>::empty());
        assert(wire(last) =~= Seq::<Item<F>>::empty());
    }
    assert(wire(calls) =~= literal::<F>(owed.take(drain.0 as int)));
    assert(wire(calls) + literal::<F>(left) =~= literal::<F>(owed));
}

/// The response that a handler armed with `len` bytes of a file: whatever placeholders its body
/// yields, the peer gets the head and then exactly these bytes, and the connection is idle again.
pub proof fn law_armed_response<F>(
    file: F,
    offset: u64,
    len: u64,
    head: Seq<u8>,
    placeholders: Seq<u8>,
)
    requires
        len > 0,
        head_first_ends_at(head, head.len() - 1),
        placeholders.len() == total(frames(len as nat)),
    ensures
        ({
            let p = Place {
                stage: Stage::Idle,
                slot: Some(Plan { file, offset, remaining: len }),
            };
            &&& meaning(p, head + placeholders) == literal::<F>(head) + content(
                file,
                offset,
                len as nat,
            )
            &&& after(p, head + placeholders) == (Place {
                stage: Stage::Idle,
                slot: None::<Plan<F>>,
            })
        }),
{
    law_frames_total(len as nat);
    law_response(Plan { file, offset, remaining: len }, head, placeholders);
}

/// One write: the stream before it, the bytes offered, and the calls that it made.
pub struct Write<F, E> {
    /// The stream before the write.
    pub before: StreamModel<F>,
    /// The bytes offered.
    pub buf: Seq<u8>,
    /// The calls.
    pub calls: Seq<Call<F, E>>,
}

impl<F, E> Write<F, E> {
    /// What the write came to.
    #[verifier::opaque]
    pub open spec fn outcome(self) -> Outcome<F, E> {
        write_outcome(self.before, self.buf, self.calls)
    }

    /// The bytes that it took.
    pub open spec fn taken(self) -> Seq<u8> {
        match self.outcome().step {
            WriteStep::Ready(Ok(n)) => self.buf.take(n as int),
            _ => Seq::empty(),
        }
    }

    /// Whether the calls are those of the write, and it did not fail.
    pub open spec fn went_well(self) -> bool {
        &&& self.outcome().used == self.calls.len()
        &&& taken_fits(self.calls)
        &&& self.buf.len() <= usize::MAX
        &&& !(self.outcome().step matches WriteStep::Ready(Err(_)))
    }
}

/// Whether writes follow each other on one connection, without failing.
pub open spec fn follow<F, E>(writes: Seq<Write<F, E>>) -> bool {
    &&& forall|i: int| 0 <= i < writes.len() ==> (#[trigger] writes[i]).went_well()
    &&& forall|i: int|
        0 <= i < writes.len() - 1 ==> (#[trigger] writes[i]).outcome().after == writes[i + 1].before
}

/// All bytes that writes took.
pub open spec fn all_taken<F, E>(writes: Seq<Write<F, E>>) -> Seq<u8>
    decreases writes.len(),
{
    if writes.len() == 0 {
        Seq::empty()
    } else {
        all_taken(writes.drop_last()) + writes.last().taken()
    }
}

/// All calls that writes made.
pub open spec fn all_calls<F, E>(writes: Seq<Write<F, E>>) -> Seq<Call<F, E>>
    decreases writes.len(),
{
    if writes.len() == 0 {
        Seq::empty()
    } else {
        all_calls(writes.drop_last()) + writes.last().calls
    }
}

/// A write leaves a stream that remembers no more than three bytes of a head.
proof fn lemma_tail_fits<F, E>(m: StreamModel<F>, buf: Seq<u8>, calls: Seq<Call<F, E>>)
    requires
        tail_fits(m),
    ensures
        tail_fits(write_outcome(m, buf, calls).after),
{
    reveal(head_outcome);
    reveal(placeholders_outcome);
    reveal(pass_outcome);
}

/// However a connection is written to, as long as it does not fail: what the peer got, and what is
/// still owed to it, is what all the bytes taken stand for, in order.
#[verifier::rlimit(40)]
pub proof fn law_whole_connection<F, E>(writes: Seq<Write<F, E>>)
    requires
        writes.len() > 0,
        follow(writes),
        tail_fits(writes[0].before),
    ensures
        ({
            let first = writes[0].before;
            let last = writes.last().outcome().after;
            &&& wire(all_calls(writes)) + literal::<F>(last.owed) == literal::<F>(first.owed)
                + meaning(place(first), all_taken(writes))
            &&& place(last) == after(place(first), all_taken(writes))
            &&& tail_fits(last)
        }),
    decreases writes.len(),
{
    let first = writes[0].before;
    let w = writes.last();
    let rest = writes.drop_last();
    assert(w.went_well());
    if writes.len() == 1 {
        assert(rest =~= Seq::<Write<F, E>>::empty());
        assert(all_taken(rest) =~= Seq::<u8>::empty());
        assert(all_taken(writes) =~= w.taken());
        assert(all_calls(rest) =~= Seq::<Call<F, E>>::empty());
        assert(all_calls(writes) =~= w.calls);
        lemma_taken_kept(w);
    } else {
        assert(follow(rest)) by {
            assert forall|i: int| 0 <= i < rest.len() implies (#[trigger] rest[i]).went_well() by {
                assert(rest[i] == writes[i]);
            }
            assert forall|i: int| 0 <= i < rest.len() - 1 implies (#[trigger] rest[i]).outcome().after
                == rest[i + 1].before by {
                assert(rest[i] == writes[i] && rest[i + 1] == writes[i + 1]);
            }
        }
        law_whole_connection(rest);
        let mid = rest.last().outcome().after;
        assert(rest.last() == writes[writes.len() - 2]);
        assert(mid == w.before);
        lemma_taken_kept(w);
        let last = w.outcome().after;
        let a = all_taken(rest);
        let b = w.taken();
        law_cut_anywhere(place(first), a, b);
        lemma_wire_concat(all_calls(rest), w.calls);
        let x = wire(all_calls(rest));
        let y = wire(w.calls);
        let o0 = literal::<F>(first.owed);
        let o1 = literal::<F>(mid.owed);
        let o2 = literal::<F>(last.owed);
        assert(x + o1 == o0 + meaning(place(first), a));
        assert(y + o2 == o1 + meaning(place(mid), b));
        assert((x + y) + o2 =~= x + (y + o2));
        assert(x + (o1 + meaning(place(mid), b)) =~= (x + o1) + meaning(place(mid), b));
        assert((o0 + meaning(place(first), a)) + meaning(place(mid), b) =~= o0 + (meaning(
            place(first),
            a,
        ) + meaning(place(mid), b)));
    }
}

/// What a write that did not fail keeps, over the bytes that it took.
proof fn lemma_taken_kept<F, E>(w: Write<F, E>)
    requires
        w.went_well(),
        tail_fits(w.before),
    ensures
        wire(w.calls) + literal::<F>(w.outcome().after.owed) == literal::<F>(w.before.owed)
            + meaning(place(w.before), w.taken()),
        place(w.outcome().after) == after(place(w.before), w.taken()),
        tail_fits(w.outcome().after),
{
    reveal(Write::outcome);
    law_write_keeps_order(w.before, w.buf, w.calls);
    lemma_tail_fits(w.before, w.buf, w.calls);
    let none = Seq::<u8>::empty();
    let o = literal::<F>(w.before.owed);
    assert(meaning(place(w.before), none) =~= Seq::<Item<F>>::empty());
    assert(o + Seq::<Item<F>>::empty() =~= o);
}

/// A connection from its arming to its flush. The slot was armed with `len` bytes of a file; a head,
/// as many placeholders and then some more bytes were written, in whatever cuts, over a transport
/// that may stall or take a part; and the flush succeeded. Then the transport was sent exactly the
/// head, the file's bytes and the bytes that followed.
pub proof fn law_delivered<F, E>(
    writes: Seq<Write<F, E>>,
    flush: Seq<Call<F, E>>,
    file: F,
    offset: u64,
    len: u64,
    head: Seq<u8>,
    placeholders: Seq<u8>,
    more: Seq<u8>,
)
    requires
        writes.len() > 0,
        follow(writes),
        writes[0].before == (StreamModel {
            mode: Mode::Idle,
            owed: Seq::<u8>::empty(),
            plan: None::<Plan<F>>,
            slot: Some(Plan { file, offset, remaining: len }),
        }),
        all_taken(writes) == head + placeholders + more,
        head_first_ends_at(head, head.len() - 1),
        placeholders.len() == len,
        len > 0,
        taken_fits(flush),
        finish_outcome(
            push_run(false, writes.last().outcome().after.owed, flush),
            flush,
            false,
        ) matches Some(Polled::Ready(Ok(_))),
    ensures
        wire(all_calls(writes) + flush) == literal::<F>(head) + content(file, offset, len as nat)
            + literal::<F>(more),
        place(writes.last().outcome().after) == (Place {
            stage: Stage::Idle,
            slot: None::<Plan<F>>,
        }),
{
    let first = writes[0].before;
    let last = writes.last().outcome().after;
    let plan = Plan { file, offset, remaining: len };
    let p = place(first);
    law_whole_connection(writes);
    law_finish_keeps_order(last.owed, flush, false);
    law_response(plan, head, placeholders);
    law_cut_anywhere(p, head + placeholders, more);
    law_pass_through::<F>(more);
    lemma_wire_concat(all_calls(writes), flush);
    let drain = push_run(false, last.owed, flush);
    let left = last.owed.skip(drain.0 as int);
    assert(literal::<F>(left) =~= Seq::<Item<F>>::empty());
    assert(wire(flush) =~= literal::<F>(last.owed));
    assert(literal::<F>(first.owed) =~= Seq::<Item<F>>::empty());
    let all = meaning(p, all_taken(writes));
    assert(literal::<F>(first.owed) + all =~= all);
}

} // verus!

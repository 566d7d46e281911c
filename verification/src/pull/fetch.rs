//! Fetching one file, and reading one listing.
use crate::percent::{
    encode_path, escaped, escaped_byte, law_encode_then_decode, law_escaped_concat,
    lemma_escaped_front, percent_decoded_text,
};
use crate::pull::error::Error;
use crate::pull::http::{next_read, read_size};
use crate::routes::sub_path;
use crate::text::{
    chars_of, equals, lemma_ascii_occurs, lemma_encode_concat, lemma_leading, same_str,
    trim_front,
};
use vstd::pervasive::{arbitrary, unreached};
use vstd::prelude::*;
use vstd::utf8::*;

verus! {

/// The message on a response that does not say how long its body is.
pub open spec fn no_length() -> Seq<char> {
    "响应没有 Content-Length，无法确定正文边界"@
}

/// An entry of a remote listing.
pub struct RemoteEntry {
    /// The name.
    pub name: String,
    /// `dir` for a directory; anything else stands for a file.
    pub kind: String,
    /// The size of a file.
    pub size: Option<u64>,
}

impl RemoteEntry {
    /// Whether the entry is a directory.
    pub open spec fn names_dir(&self) -> bool {
        self.kind@ == "dir"@
    }

    /// Whether the entry is a directory.
    pub fn is_dir(&self) -> (r: bool)
        ensures
            r == self.names_dir(),
    {
        same_str(self.kind.as_str(), "dir")
    }
}

/// The request path of a listing.
pub open spec fn list_path(remote: Seq<char>) -> Seq<char> {
    if remote.len() == 0 {
        "/api/list"@
    } else {
        "/api/list/"@ + escaped(encode_utf8(remote), true)
    }
}

/// The request path of a listing.
pub fn list_request(remote: &str) -> (r: String)
    ensures
        r@ == list_path(remote@),
{
    if chars_of(remote).len() == 0 {
        "/api/list".to_string()
    } else {
        let mut out = "/api/list/".to_string();
        out.append(encode_path(remote).as_str());
        out
    }
}

/// The request path of a file.
pub open spec fn file_path(remote: Seq<char>) -> Seq<char> {
    "/pull/"@ + escaped(encode_utf8(remote), true)
}

/// The request path of a file.
pub fn file_request(remote: &str) -> (r: String)
    ensures
        r@ == file_path(remote@),
{
    let mut out = "/pull/".to_string();
    out.append(encode_path(remote).as_str());
    out
}

/// A slash at an end of an escaped path is one at that end of the path.
proof fn lemma_escaped_ends(remote: Seq<char>)
    requires
        remote.len() > 0,
        remote[0] != '/',
        remote.last() != '/',
    ensures
        ({
            let e = escaped(encode_utf8(remote), true);
            e.len() > 0 && e[0] != '/' && e.last() != '/'
        }),
{
    let bytes = encode_utf8(remote);
    let first = seq![remote[0]];
    let last = seq![remote.last()];
    assert(remote =~= first + remote.drop_first());
    assert(remote =~= remote.drop_last() + last);
    lemma_encode_concat(first, remote.drop_first());
    lemma_encode_concat(remote.drop_last(), last);
    lemma_ascii_occurs(first, '/');
    lemma_ascii_occurs(last, '/');
    assert(!first.contains('/') && !last.contains('/'));
    let a = encode_utf8(first);
    let b = encode_utf8(last);
    encode_utf8_first_scalar(first);
    encode_utf8_first_scalar(last);
    assert(a.len() > 0 && b.len() > 0);
    assert(a.contains(a[0]));
    assert(b.contains(b.last()));
    assert(bytes[0] == a[0]);
    assert(bytes.last() == b.last());
    lemma_escaped_front(bytes, true);
    let e = escaped(bytes, true);
    assert(e[0] == escaped_byte(bytes[0], true)[0]);
    assert(e.last() == escaped_byte(bytes.last(), true).last());
}

/// What the client asks for is what the server reads: the request path of a file names that file.
pub proof fn law_server_reads_request(remote: Seq<char>)
    requires
        remote.len() > 0,
        remote[0] != '/',
        remote.last() != '/',
    ensures
        sub_path(file_path(remote), "/pull/"@) == Some(remote),
{
    let e = escaped(encode_utf8(remote), true);
    let path = file_path(remote);
    lemma_escaped_ends(remote);
    assert("/pull/"@ =~= path.subrange(0, "/pull/"@.len() as int));
    assert(path.skip("/pull/"@.len() as int) =~= e);
    lemma_leading(e, equals('/'), 0);
    assert(trim_front(e, equals('/')) =~= e);
    law_encode_then_decode(remote);
}

/// How many bytes of a listing to read: as many as were announced.
pub fn list_length(declared: Option<u64>) -> (r: Result<u64, Error>)
    ensures
        declared matches Some(n) ==> r == Ok::<u64, Error>(n),
        declared is None ==> (r matches Err(Error::Malformed(what)) && what@ == no_length()),
{
    match declared {
        Some(n) => Ok(n),
        None => Err(Error::Malformed("响应没有 Content-Length，无法确定正文边界")),
    }
}

/// Whether a listing came whole. Only then may it be read, and its connection be used again.
pub fn list_whole(remote: &str, want: u64, got: u64) -> (r: Result<(), Error>)
    ensures
        r is Ok <==> got == want,
        r matches Err(e) ==> (e matches Error::Truncated { remote: p, want: w, got: g } && p@
            == remote@ && w == want && g == got),
{
    if got != want {
        Err(Error::Truncated { remote: remote.to_string(), want, got })
    } else {
        Ok(())
    }
}

/// Where the fetching of a file stands.
pub enum FetchState {
    /// The response head is waited for.
    Head,
    /// The local file is being made.
    Creating { want: u64 },
    /// The body is being read: how long it is, and how much was written.
    Reading { want: u64, total: u64 },
    /// Bytes of the body are being written.
    Writing { want: u64, total: u64, len: usize },
    /// What was written is being flushed.
    Flushing { want: u64, total: u64 },
    /// It is over.
    Over,
}

/// What happened.
pub enum FetchEvent {
    /// The response head came, with the length of the body where it was given; or the request
    /// failed.
    Head(Result<Option<u64>, Error>),
    /// The local file was made, or not.
    Created(Result<(), Error>),
    /// Bytes of the body came, none at its end; or reading failed, or nothing came in time.
    Read(Result<usize, Error>),
    /// The bytes were written, or not.
    Wrote(Result<(), Error>),
    /// What was written was flushed, or not.
    Flushed(Result<(), Error>),
}

/// What to do next.
pub enum FetchAction {
    /// Make the local file.
    Create,
    /// Read up to this many bytes of the body.
    Read { max: usize },
    /// Write the bytes that came.
    Write { len: usize },
    /// Flush what was written.
    Flush,
    /// Report the error. The local file is taken away first, where `discard` says so; the
    /// connection is not used again.
    Fail { discard: bool, error: Error },
    /// The file is whole. Its connection can be used again.
    Done { copied: u64 },
}

/// What to do next while a body is read.
pub open spec fn read_on(want: u64, total: u64) -> (FetchState, FetchAction) {
    if total == want {
        (FetchState::Flushing { want, total }, FetchAction::Flush)
    } else {
        (
            FetchState::Reading { want, total },
            FetchAction::Read { max: next_read(want, total) as usize },
        )
    }
}

/// What to do on an event, but for the errors that are made here.
pub open spec fn fetch_step(state: FetchState, event: FetchEvent) -> (FetchState, FetchAction)
    recommends
        fits(state, event),
{
    match (state, event) {
        (FetchState::Head, FetchEvent::Head(Ok(Some(want)))) => (
            FetchState::Creating { want },
            FetchAction::Create,
        ),
        (FetchState::Head, FetchEvent::Head(Err(error))) => (
            FetchState::Over,
            FetchAction::Fail { discard: false, error },
        ),
        (FetchState::Creating { want }, FetchEvent::Created(Ok(_))) => read_on(want, 0),
        (FetchState::Creating { want }, FetchEvent::Created(Err(error))) => (
            FetchState::Over,
            FetchAction::Fail { discard: false, error },
        ),
        (FetchState::Reading { want, total }, FetchEvent::Read(Ok(n))) => if n == 0 {
            (FetchState::Flushing { want, total }, FetchAction::Flush)
        } else {
            (FetchState::Writing { want, total, len: n }, FetchAction::Write { len: n })
        },
        (FetchState::Reading { want, total }, FetchEvent::Read(Err(error))) => (
            FetchState::Over,
            FetchAction::Fail { discard: true, error },
        ),
        (FetchState::Writing { want, total, len }, FetchEvent::Wrote(Ok(_))) => read_on(
            want,
            (total + len) as u64,
        ),
        (FetchState::Writing { want, total, len }, FetchEvent::Wrote(Err(error))) => (
            FetchState::Over,
            FetchAction::Fail { discard: true, error },
        ),
        (FetchState::Flushing { want, total }, FetchEvent::Flushed(Ok(_))) => (
            FetchState::Over,
            FetchAction::Done { copied: total },
        ),
        (FetchState::Flushing { want, total }, FetchEvent::Flushed(Err(error))) => (
            FetchState::Over,
            FetchAction::Fail { discard: true, error },
        ),
        _ => arbitrary(),
    }
}

/// Whether an event answers what was asked for in a state. No more bytes come than were asked for.
pub open spec fn fits(state: FetchState, event: FetchEvent) -> bool {
    match state {
        FetchState::Head => event is Head,
        FetchState::Creating { want } => event is Created,
        FetchState::Reading { want, total } => total < want && (event matches FetchEvent::Read(r)
            && (r matches Ok(n) ==> n <= next_read(want, total))),
        FetchState::Writing { want, total, len } => total + len <= want && event is Wrote,
        FetchState::Flushing { want, total } => total <= want && event is Flushed,
        FetchState::Over => false,
    }
}

/// Whether no more was written than there is to write.
pub open spec fn in_bounds(state: FetchState) -> bool {
    match state {
        FetchState::Reading { want, total } => total < want,
        FetchState::Writing { want, total, len } => 0 < len && total + len <= want,
        FetchState::Flushing { want, total } => total <= want,
        _ => true,
    }
}

fn go_on(want: u64, total: u64) -> (r: (FetchState, FetchAction))
    requires
        total <= want,
    ensures
        r == read_on(want, total),
        in_bounds(r.0),
{
    if total == want {
        (FetchState::Flushing { want, total }, FetchAction::Flush)
    } else {
        let max: usize = read_size(want, total);
        (FetchState::Reading { want, total }, FetchAction::Read { max })
    }
}

/// Whether the events of a state lead to an error that is made here: a response without a length,
/// or a body that ends too soon.
pub open spec fn falls_short(state: FetchState, event: FetchEvent) -> bool {
    match (state, event) {
        (FetchState::Head, FetchEvent::Head(Ok(None))) => true,
        (FetchState::Flushing { want, total }, FetchEvent::Flushed(Ok(_))) => total != want,
        _ => false,
    }
}

/// What to do about such an error: it is reported, and the local file is taken away, where it was
/// made.
pub open spec fn short_action(remote: Seq<char>, state: FetchState, action: FetchAction) -> bool {
    match state {
        FetchState::Flushing { want, total } => {
            &&& action is Fail
            &&& action->discard
            &&& action->error is Truncated
            &&& action->error->Truncated_remote@ == remote
            &&& action->error->want == want
            &&& action->error->got == total
        },
        _ => {
            &&& action is Fail
            &&& !action->discard
            &&& action->error is Malformed
            &&& action->error->Malformed_0@ == no_length()
        },
    }
}

/// Takes an event in the fetching of the file `remote`, and says what to do next.
pub fn fetch_next(remote: &str, state: FetchState, event: FetchEvent) -> (r: (
    FetchState,
    FetchAction,
))
    requires
        in_bounds(state),
        fits(state, event),
    ensures
        in_bounds(r.0),
        !falls_short(state, event) ==> r == fetch_step(state, event),
        falls_short(state, event) ==> r.0 is Over && short_action(remote@, state, r.1),
{
    match state {
        FetchState::Head => match event {
            FetchEvent::Head(Ok(Some(want))) => (
                FetchState::Creating { want },
                FetchAction::Create,
            ),
            FetchEvent::Head(Ok(None)) => (
                FetchState::Over,
                FetchAction::Fail {
                    discard: false,
                    error: Error::Malformed(
                        "响应没有 Content-Length，无法确定正文边界",
                    ),
                },
            ),
            FetchEvent::Head(Err(error)) => (
                FetchState::Over,
                FetchAction::Fail { discard: false, error },
            ),
            _ => unreached(),
        },
        FetchState::Creating { want } => match event {
            FetchEvent::Created(Ok(_)) => go_on(want, 0),
            FetchEvent::Created(Err(error)) => (
                FetchState::Over,
                FetchAction::Fail { discard: false, error },
            ),
            _ => unreached(),
        },
        FetchState::Reading { want, total } => match event {
            FetchEvent::Read(Ok(n)) => if n == 0 {
                (FetchState::Flushing { want, total }, FetchAction::Flush)
            } else {
                (FetchState::Writing { want, total, len: n }, FetchAction::Write { len: n })
            },
            FetchEvent::Read(Err(error)) => (
                FetchState::Over,
                FetchAction::Fail { discard: true, error },
            ),
            _ => unreached(),
        },
        FetchState::Writing { want, total, len } => match event {
            FetchEvent::Wrote(Ok(_)) => go_on(want, total + len as u64),
            FetchEvent::Wrote(Err(error)) => (
                FetchState::Over,
                FetchAction::Fail { discard: true, error },
            ),
            _ => unreached(),
        },
        FetchState::Flushing { want, total } => match event {
            FetchEvent::Flushed(Ok(_)) => if total != want {
                (
                    FetchState::Over,
                    FetchAction::Fail {
                        discard: true,
                        error: Error::Truncated { remote: remote.to_string(), want, got: total },
                    },
                )
            } else {
                (FetchState::Over, FetchAction::Done { copied: total })
            },
            FetchEvent::Flushed(Err(error)) => (
                FetchState::Over,
                FetchAction::Fail { discard: true, error },
            ),
            _ => unreached(),
        },
        FetchState::Over => unreached(),
    }
}

/// Whether the local file exists in a state, as far as the fetching made it.
pub open spec fn file_made(state: FetchState) -> bool {
    state is Reading || state is Writing || state is Flushing
}

/// A file that is kept is whole: it is done only when as many bytes were written as were announced.
pub proof fn law_done_is_whole(state: FetchState, event: FetchEvent)
    requires
        in_bounds(state),
        fits(state, event),
        !falls_short(state, event),
        fetch_step(state, event).1 is Done,
    ensures
        state matches FetchState::Flushing { want, total } && total == want
            && fetch_step(state, event).1 == (FetchAction::Done { copied: want }),
{
}

/// No part of a file is left behind: once the local file was made, every failure takes it away.
pub proof fn law_failure_discards(state: FetchState, event: FetchEvent)
    requires
        in_bounds(state),
        fits(state, event),
        file_made(state),
    ensures
        !falls_short(state, event) ==> (fetch_step(state, event).1 matches FetchAction::Fail {
            discard,
            error,
        } ==> discard),
        forall|remote: Seq<char>, action: FetchAction|
            falls_short(state, event) && #[trigger] short_action(remote, state, action)
                ==> action->discard,
{
}

/// Nothing is read beyond the end of a body, so its connection can be used again.
pub proof fn law_never_reads_on(state: FetchState, event: FetchEvent)
    requires
        in_bounds(state),
        fits(state, event),
        !falls_short(state, event),
    ensures
        fetch_step(state, event).1 matches FetchAction::Read { max } ==> (fetch_step(
            state,
            event,
        ).0 matches FetchState::Reading { want, total } && 0 < max && total + max <= want),
{
}

/// One step in the fetching of a file: the state and the event before it.
pub struct FetchMove {
    /// The state before.
    pub before: FetchState,
    /// The event.
    pub event: FetchEvent,
}

impl FetchMove {
    /// The state after.
    pub open spec fn after(self) -> FetchState {
        fetch_step(self.before, self.event).0
    }

    /// The action.
    pub open spec fn action(self) -> FetchAction {
        fetch_step(self.before, self.event).1
    }

    /// How many bytes it brought into the local file.
    pub open spec fn brought(self) -> nat {
        match (self.before, self.event) {
            (FetchState::Writing { want, total, len }, FetchEvent::Wrote(Ok(_))) => len as nat,
            _ => 0,
        }
    }

    /// How many bytes it asks to be written to the local file.
    pub open spec fn asked(self) -> nat {
        match self.action() {
            FetchAction::Write { len } => len as nat,
            _ => 0,
        }
    }

    /// How many bytes came.
    pub open spec fn came(self) -> nat {
        match self.event {
            FetchEvent::Read(Ok(n)) => n as nat,
            _ => 0,
        }
    }
}

/// Whether steps are the fetching of a file from its beginning, without an error that is made here.
pub open spec fn is_fetch(moves: Seq<FetchMove>) -> bool {
    &&& moves.len() > 0
    &&& moves[0].before is Head
    &&& forall|i: int|
        0 <= i < moves.len() ==> in_bounds((#[trigger] moves[i]).before) && fits(
            moves[i].before,
            moves[i].event,
        ) && !falls_short(moves[i].before, moves[i].event)
    &&& forall|i: int| 0 < i < moves.len() ==> (#[trigger] moves[i]).before == moves[i - 1].after()
}

/// How many bytes came in steps.
pub open spec fn all_came(moves: Seq<FetchMove>) -> nat
    decreases moves.len(),
{
    if moves.len() == 0 {
        0
    } else {
        all_came(moves.drop_last()) + moves.last().came()
    }
}

/// How many bytes steps asked to be written to the local file.
pub open spec fn all_asked(moves: Seq<FetchMove>) -> nat
    decreases moves.len(),
{
    if moves.len() == 0 {
        0
    } else {
        all_asked(moves.drop_last()) + moves.last().asked()
    }
}

/// How many bytes steps brought into the local file.
pub open spec fn all_brought(moves: Seq<FetchMove>) -> nat
    decreases moves.len(),
{
    if moves.len() == 0 {
        0
    } else {
        all_brought(moves.drop_last()) + moves.last().brought()
    }
}

/// The length that the response head announced.
pub open spec fn announced_length(first: FetchMove) -> Option<u64> {
    match first.event {
        FetchEvent::Head(Ok(Some(want))) => Some(want),
        _ => None,
    }
}

/// How many bytes a state says were written, and how many there are.
spec fn counted(state: FetchState) -> Option<(u64, u64)> {
    match state {
        FetchState::Creating { want } => Some((0u64, want)),
        FetchState::Reading { want, total } => Some((total, want)),
        FetchState::Writing { want, total, len } => Some((total, want)),
        FetchState::Flushing { want, total } => Some((total, want)),
        _ => None,
    }
}

/// How many bytes a state says came that are not written yet.
spec fn at_hand(state: FetchState) -> nat {
    match state {
        FetchState::Writing { want, total, len } => len as nat,
        _ => 0,
    }
}

/// A file that is done holds exactly as many bytes as the response announced: so many came, so many
/// were asked to be written, and so many were.
pub proof fn law_whole_fetch(moves: Seq<FetchMove>, copied: u64)
    requires
        is_fetch(moves),
        fetch_step(moves.last().before, moves.last().event).1 == (FetchAction::Done { copied }),
    ensures
        announced_length(moves[0]) == Some(copied),
        all_came(moves) == copied,
        all_asked(moves) == copied,
        all_brought(moves) == copied,
{
    let last = moves.last();
    law_done_is_whole(last.before, last.event);
    assert(moves.len() > 1);
    let some = moves.drop_last();
    lemma_fetch_part(moves);
    lemma_counts(some);
    assert(some.last() == moves[moves.len() - 2]);
    assert(moves[moves.len() - 1].before == moves[moves.len() - 2].after());
}

/// The first steps of a fetching are one.
proof fn lemma_fetch_part(moves: Seq<FetchMove>)
    requires
        moves.len() > 1,
        is_fetch(moves),
    ensures
        is_fetch(moves.drop_last()),
{
    let some = moves.drop_last();
    assert forall|i: int| 0 <= i < some.len() implies in_bounds((#[trigger] some[i]).before)
        && fits(some[i].before, some[i].event) && !falls_short(some[i].before, some[i].event) by {
        assert(some[i] == moves[i]);
    }
    assert forall|i: int| 0 < i < some.len() implies (#[trigger] some[i]).before == some[i
        - 1].after() by {
        assert(moves[i].before == moves[i - 1].after());
    }
}

/// A state counts what was brought into the local file.
proof fn lemma_counts(moves: Seq<FetchMove>)
    requires
        is_fetch(moves),
    ensures
        counted(moves.last().after()) matches Some((total, want)) ==> total == all_brought(moves)
            && total + at_hand(moves.last().after()) == all_came(moves) && all_asked(moves)
            == all_came(moves) && announced_length(moves[0]) == Some(want),
    decreases moves.len(),
{
    let last = moves.last();
    let some = moves.drop_last();
    assert(fits(last.before, last.event));
    if moves.len() == 1 {
        assert(all_brought(some) == 0);
        assert(all_came(some) == 0);
        assert(all_asked(some) == 0);
    } else {
        lemma_fetch_part(moves);
        lemma_counts(some);
        assert(some.last() == moves[moves.len() - 2]);
        assert(moves[moves.len() - 1].before == moves[moves.len() - 2].after());
        assert(in_bounds(last.before));
    }
}

/// Whatever comes is written, all of it: a read of some bytes is followed by a write of as many, and
/// then by the next read. No bytes mean the end of what comes, and what was written is flushed.
pub proof fn law_what_comes_is_written(want: u64, total: u64, n: usize)
    requires
        total < want,
        n <= want - total,
    ensures
        ({
            let (after, action) = fetch_step(
                FetchState::Reading { want, total },
                FetchEvent::Read(Ok(n)),
            );
            &&& n > 0 ==> action == (FetchAction::Write { len: n })
            &&& n == 0 ==> action is Flush
            &&& n > 0 ==> {
                let (next, second) = fetch_step(after, FetchEvent::Wrote(Ok(())));
                &&& total + n < want ==> (second matches FetchAction::Read { max } && 0 < max <= want
                    - total - n) && next == (FetchState::Reading {
                    want,
                    total: (total + n) as u64,
                })
                &&& total + n == want ==> second is Flush
            }
        }),
{
}

/// A fetching goes on while nothing fails: a length that was announced makes a file, and the file
/// that was made is read into at once, or flushed where there is nothing to read.
pub proof fn law_fetch_begins(want: u64)
    ensures
        ({
            let (made, first) = fetch_step(FetchState::Head, FetchEvent::Head(Ok(Some(want))));
            let (next, second) = fetch_step(made, FetchEvent::Created(Ok(())));
            &&& first is Create
            &&& want > 0 ==> (second matches FetchAction::Read { max } && 0 < max <= want)
            &&& want == 0 ==> second is Flush
        }),
{
}

/// An error is reported as it came.
pub proof fn law_errors_are_reported(state: FetchState, error: Error)
    ensures
        state is Head ==> fetch_step(state, FetchEvent::Head(Err(error))).1 == (FetchAction::Fail {
            discard: false,
            error,
        }),
        state is Creating ==> fetch_step(state, FetchEvent::Created(Err(error))).1 == (
        FetchAction::Fail { discard: false, error }),
        state is Reading ==> fetch_step(state, FetchEvent::Read(Err(error))).1 == (
        FetchAction::Fail { discard: true, error }),
        state is Writing ==> fetch_step(state, FetchEvent::Wrote(Err(error))).1 == (
        FetchAction::Fail { discard: true, error }),
        state is Flushing ==> fetch_step(state, FetchEvent::Flushed(Err(error))).1 == (
        FetchAction::Fail { discard: true, error }),
{
}

/// A body that ends before it is whole is never taken for a whole one, and neither is a response
/// that does not say how long its body is.
pub proof fn law_short_is_reported(
    remote: Seq<char>,
    want: u64,
    total: u64,
    action: FetchAction,
)
    requires
        total < want,
    ensures
        falls_short(FetchState::Flushing { want, total }, FetchEvent::Flushed(Ok(()))),
        falls_short(FetchState::Head, FetchEvent::Head(Ok(None))),
        !falls_short(FetchState::Flushing { want, total: want }, FetchEvent::Flushed(Ok(()))),
        short_action(remote, FetchState::Flushing { want, total }, action) ==> (
        action matches FetchAction::Fail { discard, error } && discard && (
        error matches Error::Truncated { remote: r, want: w, got: g } && r@ == remote && w == want
            && g == total)),
        short_action(remote, FetchState::Head, action) ==> (action matches FetchAction::Fail {
            discard,
            error,
        } && !discard && (error matches Error::Malformed(what) && what@ == no_length())),
{
}

/// The request path of a listing reads back as the remote path it was made for.
pub proof fn law_list_request_reads_back(remote: Seq<char>)
    ensures
        "/api/list"@.is_prefix_of(list_path(remote)),
        remote.len() == 0 ==> list_path(remote).len() == "/api/list"@.len(),
        remote.len() > 0 ==> {
            let rest = list_path(remote).skip("/api/list"@.len() as int);
            rest[0] == '/' && percent_decoded_text(rest.skip(1)) == remote
        },
{
    reveal_strlit("/api/list");
    reveal_strlit("/api/list/");
    let e = escaped(encode_utf8(remote), true);
    let path = list_path(remote);
    assert("/api/list"@ =~= path.subrange(0, 9));
    if remote.len() > 0 {
        assert(path.skip(9).skip(1) =~= e);
        law_encode_then_decode(remote);
    }
}

/// What lies below a directory is asked for below it: the slashes between the names of a remote path
/// are those of the request path.
pub proof fn law_requests_go_down(dir: Seq<char>, name: Seq<char>)
    requires
        dir.len() > 0,
    ensures
        list_path(dir).push('/').is_prefix_of(list_path(dir.push('/') + name)),
        file_path(dir).push('/').is_prefix_of(file_path(dir.push('/') + name)),
{
    let path = dir.push('/') + name;
    let slash = seq!['/'];
    assert(path =~= dir + (slash + name));
    lemma_encode_concat(dir, slash + name);
    lemma_encode_concat(slash, name);
    let s = encode_utf8(slash);
    lemma_slash_is_a_byte();
    let a = encode_utf8(dir);
    let b = encode_utf8(name);
    law_escaped_concat(a, s + b, true);
    law_escaped_concat(s, b, true);
    lemma_escaped_slash();
    let rest = escaped(b, true);
    let low = escaped(a, true);
    assert(escaped(encode_utf8(path), true) =~= low.push('/') + rest);
    let list = list_path(path);
    let file = file_path(path);
    assert(list_path(dir).push('/') =~= list.subrange(0, list_path(dir).len() as int + 1));
    assert(file_path(dir).push('/') =~= file.subrange(0, file_path(dir).len() as int + 1));
}

proof fn lemma_slash_is_a_byte()
    ensures
        encode_utf8(seq!['/']) == seq![0x2fu8],
{
    let slash = seq!['/'];
    is_ascii_chars_encode_utf8(slash);
    assert(encode_utf8(slash) =~= seq![0x2fu8]);
}

proof fn lemma_escaped_slash()
    ensures
        escaped(seq![0x2fu8], true) == seq!['/'],
{
    let s = seq![0x2fu8];
    assert(s.drop_last() =~= Seq::<u8>::empty());
    assert(escaped(s.drop_last(), true) =~= Seq::<char>::empty());
    assert(escaped(s, true) =~= seq!['/']);
}

/// Which events are taken: the answer to what was asked for, and of the body no more bytes than were
/// asked for.
pub proof fn law_fitting_events(want: u64, total: u64, n: usize, error: Error)
    requires
        total < want,
        n <= want - total,
        n <= 65_536,
    ensures
        fits(FetchState::Head, FetchEvent::Head(Ok(Some(want)))),
        fits(FetchState::Head, FetchEvent::Head(Ok(None))),
        fits(FetchState::Head, FetchEvent::Head(Err(error))),
        fits(FetchState::Creating { want }, FetchEvent::Created(Ok(()))),
        fits(FetchState::Creating { want }, FetchEvent::Created(Err(error))),
        fits(FetchState::Reading { want, total }, FetchEvent::Read(Ok(n))),
        fits(FetchState::Reading { want, total }, FetchEvent::Read(Err(error))),
        fits(FetchState::Writing { want, total, len: n }, FetchEvent::Wrote(Ok(()))),
        fits(FetchState::Writing { want, total, len: n }, FetchEvent::Wrote(Err(error))),
        fits(FetchState::Flushing { want, total }, FetchEvent::Flushed(Ok(()))),
        fits(FetchState::Flushing { want, total }, FetchEvent::Flushed(Err(error))),
{
}

/// A file whose last byte was written is done once it is flushed, with all its bytes counted.
pub proof fn law_whole_is_done(want: u64)
    ensures
        fetch_step(FetchState::Flushing { want, total: want }, FetchEvent::Flushed(Ok(()))).1 == (
        FetchAction::Done { copied: want }),
        !falls_short(FetchState::Flushing { want, total: want }, FetchEvent::Flushed(Ok(()))),
{
}

/// An error that is made here is made only where a length is missing or bytes are.
pub proof fn law_falls_short_only_so(state: FetchState, event: FetchEvent)
    requires
        falls_short(state, event),
        fits(state, event),
    ensures
        match state {
            FetchState::Head => event matches FetchEvent::Head(Ok(None)),
            FetchState::Flushing { want, total } => total < want && (
            event matches FetchEvent::Flushed(Ok(_))),
            _ => false,
        },
{
}

} // verus!

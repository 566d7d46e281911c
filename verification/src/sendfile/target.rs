//! Transports, and the record of what they were asked and answered.
use vstd::prelude::*;

verus! {

/// What a transport answers when it is polled.
pub enum Polled<T, E> {
    /// Not now; the task is woken when it is worth trying again.
    Pending,
    /// Done, or failed.
    Ready(Result<T, E>),
}

/// Why a transport did not send file content.
pub enum SendError<E> {
    /// The transport is full for the moment. Nothing was arranged to wake the task.
    WouldBlock,
    /// The transport failed.
    Failed(E),
}

/// One call of a transport, with its answer.
pub enum Call<F, E> {
    /// Bytes to write.
    Write { bytes: Seq<u8>, reply: Polled<usize, E> },
    /// Bytes to write that more follow at once.
    WriteMore { bytes: Seq<u8>, reply: Polled<usize, E> },
    /// File content to send.
    Sendfile { file: F, offset: u64, count: nat, reply: Result<usize, SendError<E>> },
    /// A wakeup asked for.
    Writable { reply: Polled<(), E> },
    /// A flush.
    Flush { reply: Polled<(), E> },
    /// A shutdown.
    Shutdown { reply: Polled<(), E> },
}

/// A transport that can move file bytes to the peer without copying them. No implementation says
/// that it took more than it was offered: what is proved of a stream rests on that.
pub trait SendfileTarget {
    /// A file that content can be sent from.
    type File;

    /// What a transport keeps in order to wake the task.
    type Waker;

    /// How the transport fails.
    type Error;

    /// Sends up to `count` bytes of `file` from `offset` on and says how many were sent.
    /// `WouldBlock` arranges no wakeup: before parking its task the caller has to call
    /// [`SendfileTarget::poll_writable`].
    fn try_sendfile(&mut self, file: &Self::File, offset: u64, count: usize) -> (r: Result<
        usize,
        SendError<Self::Error>,
    >)
        ensures
            r matches Ok(n) ==> n <= count,
    ;

    /// Registers the task to be woken once the transport is writable. `Ready(Ok(()))` says that it
    /// is writable now, so the caller tries again instead of parking.
    fn poll_writable(&mut self, waker: &Self::Waker) -> (r: Polled<(), Self::Error>);

    /// Writes some bytes and says how many were taken.
    fn poll_write(&mut self, waker: &Self::Waker, buf: &[u8]) -> (r: Polled<usize, Self::Error>)
        ensures
            r matches Polled::Ready(Ok(n)) ==> n <= buf@.len(),
    ;

    /// Writes bytes of a response head, which the body follows at once: a transport may hold them
    /// back until then, so that head and body leave together. One that does not say how writes
    /// them straight away: its answer, and what becomes of it, are those of
    /// [`SendfileTarget::poll_write`] on the same bytes.
    fn poll_write_more(&mut self, waker: &Self::Waker, buf: &[u8]) -> (r: Polled<
        usize,
        Self::Error,
    >)
        where Self: Sized,
        ensures
            r matches Polled::Ready(Ok(n)) ==> n <= buf@.len(),
        default_ensures
            exists|me: &mut Self|
                *me == *old(self) && *final(me) == *final(self) && #[trigger] call_ensures(
                    Self::poll_write,
                    (me, waker, buf),
                    r,
                ),
    {
        self.poll_write(waker, buf)
    }

    /// Flushes the transport.
    fn poll_flush(&mut self, waker: &Self::Waker) -> (r: Polled<(), Self::Error>);

    /// Shuts the transport down.
    fn poll_shutdown(&mut self, waker: &Self::Waker) -> (r: Polled<(), Self::Error>);
}

/// A transport whose calls are on record. The record exists in proofs only.
pub struct Recorder<S: SendfileTarget> {
    inner: S,
    log: Ghost<Seq<Call<S::File, S::Error>>>,
}

impl<S: SendfileTarget> Recorder<S> {
    /// The transport.
    pub closed spec fn transport(&self) -> S {
        self.inner
    }

    /// The calls made so far, in order.
    pub closed spec fn log(&self) -> Seq<Call<S::File, S::Error>> {
        self.log@
    }

    /// A transport that was not called yet.
    pub fn new(inner: S) -> (r: Recorder<S>)
        ensures
            r.transport() == inner,
            r.log() == Seq::<Call<S::File, S::Error>>::empty(),
    {
        Recorder { inner, log: Ghost(Seq::empty()) }
    }

    /// The transport, for what does not go on record.
    pub fn get_ref(&self) -> (r: &S)
        ensures
            *r == self.transport(),
    {
        &self.inner
    }

    /// [`SendfileTarget::try_sendfile`], on record.
    pub fn try_sendfile(&mut self, file: &S::File, offset: u64, count: usize) -> (r: Result<usize, SendError<S::Error>>)
        ensures
            final(self).log() == old(self).log().push((Call::Sendfile { file: *file, offset, count: count as nat, reply: r })),
            r matches Ok(n) ==> n <= count,
    {
        let r = self.inner.try_sendfile(file, offset, count);
        proof {
            self.log@ = self.log@.push(Call::Sendfile { file: *file, offset, count: count as nat, reply: r });
        }
        r
    }

    /// [`SendfileTarget::poll_writable`], on record.
    pub fn poll_writable(&mut self, waker: &S::Waker) -> (r: Polled<(), S::Error>)
        ensures
            final(self).log() == old(self).log().push((Call::Writable { reply: r })),
    {
        let r = self.inner.poll_writable(waker);
        proof {
            self.log@ = self.log@.push(Call::Writable { reply: r });
        }
        r
    }

    /// [`SendfileTarget::poll_write`], on record.
    pub fn poll_write(&mut self, waker: &S::Waker, buf: &[u8]) -> (r: Polled<usize, S::Error>)
        ensures
            final(self).log() == old(self).log().push((Call::Write { bytes: buf@, reply: r })),
            r matches Polled::Ready(Ok(n)) ==> n <= buf@.len(),
    {
        let r = self.inner.poll_write(waker, buf);
        proof {
            self.log@ = self.log@.push(Call::Write { bytes: buf@, reply: r });
        }
        r
    }

    /// [`SendfileTarget::poll_write_more`], on record.
    pub fn poll_write_more(&mut self, waker: &S::Waker, buf: &[u8]) -> (r: Polled<usize, S::Error>)
        ensures
            final(self).log() == old(self).log().push((Call::WriteMore { bytes: buf@, reply: r })),
            r matches Polled::Ready(Ok(n)) ==> n <= buf@.len(),
    {
        let r = self.inner.poll_write_more(waker, buf);
        proof {
            self.log@ = self.log@.push(Call::WriteMore { bytes: buf@, reply: r });
        }
        r
    }

    /// [`SendfileTarget::poll_flush`], on record.
    pub fn poll_flush(&mut self, waker: &S::Waker) -> (r: Polled<(), S::Error>)
        ensures
            final(self).log() == old(self).log().push((Call::Flush { reply: r })),
    {
        let r = self.inner.poll_flush(waker);
        proof {
            self.log@ = self.log@.push(Call::Flush { reply: r });
        }
        r
    }

    /// [`SendfileTarget::poll_shutdown`], on record.
    pub fn poll_shutdown(&mut self, waker: &S::Waker) -> (r: Polled<(), S::Error>)
        ensures
            final(self).log() == old(self).log().push((Call::Shutdown { reply: r })),
    {
        let r = self.inner.poll_shutdown(waker);
        proof {
            self.log@ = self.log@.push(Call::Shutdown { reply: r });
        }
        r
    }
}

} // verus!

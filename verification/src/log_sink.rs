//! The buffer of the log: lines are gathered in parts, one for each thread, and written in batches.
use vstd::prelude::*;

verus! {

/// How many bytes in one part make a batch.
pub const LOG_BATCH: usize = 65_536;

/// For how many milliseconds lines wait at most to be written.
pub const LOG_INTERVAL_MILLIS: u64 = 100;

/// How many bytes are gathered at most, in all parts together. What would go beyond is dropped.
pub const LOG_PENDING_MAX: usize = 4_194_304;

/// How many parts there are.
pub const SHARDS: usize = 32;

/// How many bytes are gathered at most in one part. What would go beyond is dropped.
pub const LOG_PENDING_MAX_PER_SHARD: usize = 131_072;

/// The part for the thread with this number: threads take the parts in turn.
pub fn shard_index(ticket: usize) -> (r: usize)
    ensures
        r == ticket as int % SHARDS as int,
        r < SHARDS,
{
    ticket % SHARDS
}

/// One part of the buffer.
pub struct LogPart {
    pending: Vec<u8>,
}

/// What a part holds after bytes were appended to it. Bytes that would take it beyond its limit are
/// dropped whole, and so are bytes for a part that has reached it.
pub open spec fn part_after(part: Seq<u8>, buf: Seq<u8>) -> Seq<u8> {
    if drops(part, buf) {
        part
    } else {
        part + buf
    }
}

/// Whether bytes for a part are dropped.
pub open spec fn drops(part: Seq<u8>, buf: Seq<u8>) -> bool {
    part.len() >= LOG_PENDING_MAX_PER_SHARD || part.len() + buf.len() > LOG_PENDING_MAX_PER_SHARD
}

impl LogPart {
    /// The bytes in the part.
    pub closed spec fn view(&self) -> Seq<u8> {
        self.pending@
    }

    /// The part is within its limit.
    pub open spec fn wf(&self) -> bool {
        self.view().len() <= LOG_PENDING_MAX_PER_SHARD
    }

    /// A part without lines.
    pub fn new() -> (r: LogPart)
        ensures
            r.wf(),
            r.view() == Seq::<u8>::empty(),
    {
        let pending: Vec<u8> = Vec::new();
        assert(pending@ =~= Seq::<u8>::empty());
        LogPart { pending }
    }

    /// Appends bytes, and says whether the part holds a batch now. Bytes that would take it beyond
    /// its limit are dropped.
    pub fn append(&mut self, buf: &[u8]) -> (r: bool)
        requires
            old(self).wf(),
        ensures
            final(self).wf(),
            final(self).view() == part_after(old(self).view(), buf@),
            r == (!drops(old(self).view(), buf@) && final(self).view().len() >= LOG_BATCH),
    {
        let held: usize = self.pending.len();
        if held >= LOG_PENDING_MAX_PER_SHARD || buf.len() > LOG_PENDING_MAX_PER_SHARD - held {
            return false;
        }
        let ghost start = self.pending@;
        self.pending.extend_from_slice(buf);
        assert(self.pending@ =~= start + buf@);
        self.pending.len() >= LOG_BATCH
    }

    /// Whether the part holds no byte.
    pub fn is_empty(&self) -> (r: bool)
        ensures
            r == (self.view().len() == 0),
    {
        self.pending.len() == 0
    }

    /// Takes the bytes of the part.
    pub fn take(&mut self) -> (r: Vec<u8>)
        ensures
            final(self).wf(),
            r@ == old(self).view(),
            final(self).view() == Seq::<u8>::empty(),
    {
        let mut batch: Vec<u8> = Vec::new();
        assert(batch@ =~= Seq::<u8>::empty());
        core::mem::swap(&mut self.pending, &mut batch);
        batch
    }
}

/// The lines that are gathered.
pub struct LogSink {
    pending: Vec<LogPart>,
}

/// The bytes of some parts, one part after the other.
pub open spec fn gathered(parts: Seq<Seq<u8>>) -> Seq<u8>
    decreases parts.len(),
{
    if parts.len() == 0 {
        Seq::empty()
    } else {
        gathered(parts.drop_last()) + parts.last()
    }
}

/// Parts without a byte.
pub open spec fn empty_parts() -> Seq<Seq<u8>> {
    Seq::new(SHARDS as nat, |i: int| Seq::<u8>::empty())
}

impl LogSink {
    /// The bytes in each part.
    pub closed spec fn parts(&self) -> Seq<Seq<u8>> {
        Seq::new(self.pending@.len(), |i: int| self.pending@[i].view())
    }

    /// There are as many parts as there should be, each within its limit.
    pub open spec fn wf(&self) -> bool {
        &&& self.parts().len() == SHARDS
        &&& forall|i: int|
            0 <= i < SHARDS ==> (#[trigger] self.parts()[i]).len() <= LOG_PENDING_MAX_PER_SHARD
    }

    /// A buffer without lines.
    pub fn new() -> (r: LogSink)
        ensures
            r.wf(),
            r.parts() == empty_parts(),
    {
        let mut pending: Vec<LogPart> = Vec::new();
        while pending.len() < SHARDS
            invariant
                pending@.len() <= SHARDS,
                forall|i: int|
                    0 <= i < pending@.len() ==> (#[trigger] pending@[i]).view() == Seq::<u8>::empty(),
            decreases SHARDS - pending@.len(),
        {
            pending.push(LogPart::new());
        }
        let r = LogSink { pending };
        assert(r.parts() =~= empty_parts());
        r
    }

    /// Appends bytes to a part, and says whether it holds a batch now. Bytes that would take the
    /// part beyond its limit are dropped.
    pub fn append(&mut self, shard: usize, buf: &[u8]) -> (r: bool)
        requires
            old(self).wf(),
            shard < SHARDS,
        ensures
            final(self).wf(),
            ({
                let part = old(self).parts()[shard as int];
                &&& final(self).parts() == old(self).parts().update(
                    shard as int,
                    part_after(part, buf@),
                )
                &&& r == (!drops(part, buf@) && part.len() + buf@.len() >= LOG_BATCH)
                &&& drops(part, buf@) ==> final(self).parts() == old(self).parts()
            }),
    {
        let ghost before = self.parts();
        assert(before[shard as int] == self.pending@[shard as int].view());
        let part = &mut self.pending[shard];
        let full = part.append(buf);
        proof {
            let after = before.update(shard as int, part_after(before[shard as int], buf@));
            assert(self.parts() =~= after);
            assert forall|i: int| 0 <= i < SHARDS implies (#[trigger] self.parts()[i]).len()
                <= LOG_PENDING_MAX_PER_SHARD by {
                if i != shard {
                    assert(self.parts()[i] == before[i]);
                }
            }
            if drops(before[shard as int], buf@) {
                assert(after =~= before);
            }
        }
        full
    }

    /// Whether no part holds a byte.
    pub fn is_empty(&self) -> (r: bool)
        requires
            self.wf(),
        ensures
            r == (self.parts() == empty_parts()),
    {
        let mut i: usize = 0;
        while i < SHARDS
            invariant
                self.wf(),
                0 <= i <= SHARDS,
                forall|k: int| 0 <= k < i ==> (#[trigger] self.pending@[k]).view().len() == 0,
            decreases SHARDS - i,
        {
            assert(self.pending@.len() == self.parts().len());
            if !self.pending[i].is_empty() {
                proof {
                    assert(self.parts()[i as int].len() > 0);
                    assert(empty_parts()[i as int].len() == 0);
                }
                return false;
            }
            i = i + 1;
        }
        proof {
            assert forall|k: int| 0 <= k < SHARDS implies self.parts()[k] == empty_parts()[k] by {
                assert(self.pending@[k].view().len() == 0);
                assert(self.parts()[k] =~= Seq::<u8>::empty());
            }
            assert(self.parts() =~= empty_parts());
        }
        true
    }

    /// Takes the bytes of a part.
    pub fn take(&mut self, shard: usize) -> (r: Vec<u8>)
        requires
            old(self).wf(),
            shard < SHARDS,
        ensures
            final(self).wf(),
            r@ == old(self).parts()[shard as int],
            final(self).parts() == old(self).parts().update(shard as int, Seq::<u8>::empty()),
    {
        let ghost before = self.parts();
        let part = &mut self.pending[shard];
        let batch = part.take();
        proof {
            assert(self.parts() =~= before.update(shard as int, Seq::<u8>::empty()));
            assert forall|i: int| 0 <= i < SHARDS implies (#[trigger] self.parts()[i]).len()
                <= LOG_PENDING_MAX_PER_SHARD by {
                if i != shard {
                    assert(self.parts()[i] == before[i]);
                }
            }
        }
        batch
    }

    /// Takes the bytes of all parts and appends them to `out`, part by part.
    pub fn flush(&mut self, out: &mut Vec<u8>)
        requires
            old(self).wf(),
        ensures
            final(self).wf(),
            final(self).parts() == empty_parts(),
            final(out)@ == old(out)@ + gathered(old(self).parts()),
    {
        let ghost before = self.parts();
        let ghost start = out@;
        let mut i: usize = 0;
        assert(start + gathered(before.take(0)) =~= start);
        while i < SHARDS
            invariant
                self.wf(),
                before.len() == SHARDS,
                0 <= i <= SHARDS,
                out@ == start + gathered(before.take(i as int)),
                forall|k: int| 0 <= k < i ==> #[trigger] self.parts()[k] == Seq::<u8>::empty(),
                forall|k: int| i <= k < SHARDS ==> #[trigger] self.parts()[k] == before[k],
            decreases SHARDS - i,
        {
            let ghost so_far = before.take(i + 1);
            let ghost done = out@;
            assert(self.parts()[i as int] == before[i as int]);
            let mut batch = self.take(i);
            out.append(&mut batch);
            proof {
                assert(so_far.drop_last() =~= before.take(i as int));
                assert(out@ =~= done + before[i as int]);
                assert(out@ =~= start + gathered(so_far));
            }
            i = i + 1;
        }
        assert(before.take(SHARDS as int) =~= before);
        assert(self.parts() =~= empty_parts());
    }
}

/// The limits hold whatever was appended and taken: no part goes beyond its own, and all parts
/// together never hold more than [`LOG_PENDING_MAX`] bytes.
pub proof fn law_limits_hold(sink: LogSink)
    requires
        sink.wf(),
    ensures
        forall|i: int|
            0 <= i < SHARDS ==> (#[trigger] sink.parts()[i]).len() <= LOG_PENDING_MAX_PER_SHARD,
        gathered(sink.parts()).len() <= LOG_PENDING_MAX,
{
    lemma_gathered_len(sink.parts());
}

proof fn lemma_gathered_len(parts: Seq<Seq<u8>>)
    requires
        forall|i: int| 0 <= i < parts.len() ==> (#[trigger] parts[i]).len()
            <= LOG_PENDING_MAX_PER_SHARD,
    ensures
        gathered(parts).len() <= parts.len() * LOG_PENDING_MAX_PER_SHARD,
    decreases parts.len(),
{
    if parts.len() > 0 {
        let some = parts.drop_last();
        assert forall|i: int| 0 <= i < some.len() implies (#[trigger] some[i]).len()
            <= LOG_PENDING_MAX_PER_SHARD by {
            assert(some[i] == parts[i]);
        }
        lemma_gathered_len(some);
        assert(parts.last().len() <= LOG_PENDING_MAX_PER_SHARD);
    }
}

/// Nothing is written twice: once the parts were taken, there is nothing to take.
pub proof fn law_written_once()
    ensures
        gathered(empty_parts()) == Seq::<u8>::empty(),
{
    lemma_gathered_empty(empty_parts());
}

proof fn lemma_gathered_empty(parts: Seq<Seq<u8>>)
    requires
        forall|i: int| 0 <= i < parts.len() ==> (#[trigger] parts[i]).len() == 0,
    ensures
        gathered(parts) == Seq::<u8>::empty(),
    decreases parts.len(),
{
    if parts.len() > 0 {
        lemma_gathered_empty(parts.drop_last());
        assert(parts.last().len() == 0);
        assert(gathered(parts) =~= Seq::<u8>::empty());
    }
}

/// What still fits is kept, behind what was there; what would go beyond the limit of its part is
/// dropped whole, and nothing that was there is lost.
pub proof fn law_what_fits_is_kept(part: Seq<u8>, buf: Seq<u8>)
    ensures
        part.len() < 131_072 && part.len() + buf.len() <= 131_072 ==> part_after(part, buf) == part
            + buf,
        part.len() >= 131_072 || part.len() + buf.len() > 131_072 ==> part_after(part, buf) == part,
        drops(part, buf) <==> part.len() >= 131_072 || part.len() + buf.len() > 131_072,
{
}

/// The parts are written one after the other, each whole: what was in a part stands between what was
/// in the parts before it and in those behind.
pub proof fn law_parts_are_written_whole(a: Seq<Seq<u8>>, part: Seq<u8>, b: Seq<Seq<u8>>)
    ensures
        gathered(a.push(part) + b) == gathered(a) + part + gathered(b),
    decreases b.len(),
{
    let all = a.push(part) + b;
    if b.len() == 0 {
        assert(all =~= a.push(part));
        assert(a.push(part).drop_last() =~= a);
        assert(gathered(a) + part + gathered(b) =~= gathered(a) + part);
    } else {
        law_parts_are_written_whole(a, part, b.drop_last());
        assert(all.drop_last() =~= a.push(part) + b.drop_last());
        assert(gathered(a) + part + gathered(b) =~= gathered(a) + part + gathered(b.drop_last())
            + b.last());
    }
}

} // verus!

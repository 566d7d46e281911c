//! The handoff between a handler and the transport stream of its connection.
use vstd::prelude::*;

verus! {

/// The largest frame of placeholder bytes a body yields.
pub const PHANTOM_LEN: u64 = 262_144;

/// The file range that a connection's next response sends.
pub struct Plan<F> {
    /// The file.
    pub file: F,
    /// Where in the file the next byte stands.
    pub offset: u64,
    /// How many bytes are still to be sent.
    pub remaining: u64,
}

/// The offset `count` bytes behind `offset`. An offset is a 64-bit number and wraps.
#[verifier::opaque]
pub open spec fn advanced(offset: u64, count: nat) -> u64 {
    ((offset + count) % 0x1_0000_0000_0000_0000) as u64
}

/// A plan after `count` of its bytes were sent.
pub open spec fn plan_after<F>(plan: Plan<F>, count: nat) -> Plan<F> {
    Plan {
        file: plan.file,
        offset: advanced(plan.offset, count),
        remaining: (plan.remaining - count) as u64,
    }
}

/// The place where a handler leaves the plan for its connection's next response and where the
/// transport stream picks it up.
pub struct SendfileSlot<F> {
    plan: Option<Plan<F>>,
}

impl<F> SendfileSlot<F> {
    /// The plan that is waiting, if there is one.
    pub closed spec fn armed(&self) -> Option<Plan<F>> {
        self.plan
    }

    /// An empty slot.
    pub fn new() -> (r: SendfileSlot<F>)
        ensures
            r.armed() is None,
    {
        SendfileSlot { plan: None }
    }

    /// Arms the slot with `len` bytes of `file` from `offset` on, and returns the body that stands
    /// for them. Returns `None` and changes nothing where `len` is zero or a plan is waiting
    /// already; the caller then keeps its ordinary body.
    pub fn arm(&mut self, file: F, offset: u64, len: u64) -> (r: Option<SendfileBody>)
        ensures
            r is Some <==> len > 0 && old(self).armed() is None,
            r is None ==> final(self).armed() == old(self).armed(),
            r matches Some(body) ==> {
                &&& body.left() == len
                &&& final(self).armed() == Some(Plan { file, offset, remaining: len })
            },
    {
        if len == 0 || self.plan.is_some() {
            return None;
        }
        self.plan = Some(Plan { file, offset, remaining: len });
        Some(SendfileBody { remaining: len })
    }

    /// Whether a plan is waiting.
    pub fn is_armed(&self) -> (r: bool)
        ensures
            r == (self.armed() is Some),
    {
        self.plan.is_some()
    }

    /// Takes the waiting plan and leaves the slot empty.
    pub fn take_plan(&mut self) -> (r: Option<Plan<F>>)
        ensures
            r == old(self).armed(),
            final(self).armed() is None,
    {
        self.plan.take()
    }
}

impl<F> Default for SendfileSlot<F> {
    /// An empty slot.
    fn default() -> (r: SendfileSlot<F>)
        ensures
            r.armed() is None,
    {
        SendfileSlot::new()
    }
}

/// A response body that stands for a number of file bytes and yields as many placeholder bytes.
pub struct SendfileBody {
    remaining: u64,
}

impl SendfileBody {
    /// How many placeholder bytes are still to come.
    pub closed spec fn left(&self) -> nat {
        self.remaining as nat
    }

    /// How many file bytes this body stands for.
    pub fn len(&self) -> (r: u64)
        ensures
            r == self.left(),
    {
        self.remaining
    }

    /// Always false: an armed plan is never empty, and a body stands for one. Whether a body has
    /// ended is what [`SendfileBody::is_end_stream`] says.
    pub fn is_empty(&self) -> (r: bool)
        ensures
            !r,
    {
        false
    }

    /// Whether the body has ended.
    pub fn is_end_stream(&self) -> (r: bool)
        ensures
            r == (self.left() == 0),
    {
        self.remaining == 0
    }

    /// The exact number of bytes still to come.
    pub fn size_hint(&self) -> (r: u64)
        ensures
            r == self.left(),
    {
        self.remaining
    }

    /// The length of the next frame of placeholders, or `None` at the end. Every frame is as long
    /// as [`PHANTOM_LEN`] but the last, which is what is left.
    pub fn poll_frame(&mut self) -> (r: Option<usize>)
        ensures
            r is None <==> old(self).left() == 0,
            r is None ==> final(self).left() == 0,
            r matches Some(len) ==> {
                &&& len == next_frame(old(self).left())
                &&& final(self).left() == old(self).left() - len
            },
    {
        if self.remaining == 0 {
            return None;
        }
        let len: u64 = if self.remaining < PHANTOM_LEN {
            self.remaining
        } else {
            PHANTOM_LEN
        };
        self.remaining = self.remaining - len;
        Some(len as usize)
    }
}

/// The length of the frame a body yields with `left` bytes to come.
pub open spec fn next_frame(left: nat) -> nat {
    if left < PHANTOM_LEN {
        left
    } else {
        PHANTOM_LEN as nat
    }
}

/// The lengths of all frames that a body yields with `left` bytes to come.
pub open spec fn frames(left: nat) -> Seq<nat>
    decreases left,
{
    if left == 0 {
        Seq::empty()
    } else {
        seq![next_frame(left)] + frames((left - next_frame(left)) as nat)
    }
}

/// The sum of a sequence of lengths.
pub open spec fn total(lengths: Seq<nat>) -> nat
    decreases lengths.len(),
{
    if lengths.len() == 0 {
        0
    } else {
        lengths[0] + total(lengths.drop_first())
    }
}

/// The placeholder bytes of a body are exactly as many as the file bytes it stands for.
pub proof fn law_frames_total(left: nat)
    ensures
        total(frames(left)) == left,
        forall|i: int| 0 <= i < frames(left).len() ==> 0 < #[trigger] frames(left)[i] <= PHANTOM_LEN,
    decreases left,
{
    if left > 0 {
        let rest = (left - next_frame(left)) as nat;
        law_frames_total(rest);
        assert(frames(left).drop_first() =~= frames(rest));
        assert forall|i: int| 0 <= i < frames(left).len() implies 0 < #[trigger] frames(left)[i]
            <= PHANTOM_LEN by {
            if i > 0 {
                assert(frames(left)[i] == frames(rest)[i - 1]);
            }
        }
    }
}

/// The offset `count` bytes on, computed.
pub fn advance(offset: u64, count: u64) -> (r: u64)
    ensures
        r == advanced(offset, count as nat),
{
    reveal(advanced);
    offset.wrapping_add(count)
}

/// Sending in two parts ends at the same offset as sending at once.
pub proof fn lemma_advanced(offset: u64, a: nat, b: nat)
    ensures
        advanced(advanced(offset, a), b) == advanced(offset, a + b),
        advanced(offset, 0) == offset,
{
    reveal(advanced);
    let m: int = 0x1_0000_0000_0000_0000;
    vstd::arithmetic::div_mod::lemma_add_mod_noop(offset + a, b as int, m);
    vstd::arithmetic::div_mod::lemma_mod_bound(offset + a, m);
    vstd::arithmetic::div_mod::lemma_mod_bound(offset + a + b, m);
    vstd::arithmetic::div_mod::lemma_small_mod(offset as nat, m as nat);
    vstd::arithmetic::div_mod::lemma_mod_twice(offset + a, m);
    if b < m {
        vstd::arithmetic::div_mod::lemma_small_mod(b, m as nat);
    }
    assert((offset + a) % m + b == ((offset + a) % m) + b);
    vstd::arithmetic::div_mod::lemma_add_mod_noop((offset + a) % m, b as int, m);
}

/// The place in a file moves on by what was sent, and begins anew beyond the last one there is.
pub proof fn law_place_moves_on(offset: u64, count: nat)
    ensures
        offset + count <= u64::MAX ==> advanced(offset, count) == offset + count,
        u64::MAX < offset + count <= 2 * u64::MAX + 1 ==> advanced(offset, count) == offset + count
            - u64::MAX - 1,
{
    reveal(advanced);
    let m = 0x1_0000_0000_0000_0000int;
    if offset + count <= u64::MAX {
        vstd::arithmetic::div_mod::lemma_small_mod((offset + count) as nat, m as nat);
    } else if offset + count <= 2 * u64::MAX + 1 {
        let rest = offset + count - m;
        vstd::arithmetic::div_mod::lemma_small_mod(rest as nat, m as nat);
        vstd::arithmetic::div_mod::lemma_mod_add_multiples_vanish(rest, m);
    }
}

/// What is left of a plan, and what was sent of it, are together the plan.
pub proof fn law_plan_shrinks<F>(plan: Plan<F>, count: nat)
    requires
        count <= plan.remaining,
    ensures
        plan_after(plan, count).remaining + count == plan.remaining,
        plan_after(plan, count).file == plan.file,
        plan.offset + count <= u64::MAX ==> plan_after(plan, count).offset == plan.offset + count,
{
    law_place_moves_on(plan.offset, count);
}

/// A frame is as long as a frame can be, but for the last one, which is what is left.
pub proof fn law_frame_lengths(left: nat)
    ensures
        next_frame(left) <= left,
        next_frame(left) <= 262_144,
        next_frame(left) == left || next_frame(left) == 262_144,
{
}

} // verus!

//! A linear instruction buffer for a single channel.
//!
//! A path is an ordered list of `(duration, opcode, payload)` steps together
//! with the running total duration.  Payload bytes are held under shared
//! ownership, so extending one path with another copies only the small step
//! records, never the bytes.

use vstd::prelude::*;
use std::sync::Arc;
use crate::arena::{ChannelId, Time, bytes_arc_clone, bytes_arc_ref};

verus! {

/// One step of a path.
#[derive(Clone)]
pub struct Step {
    pub duration: Time,
    pub opcode: u16,
    pub payload: Arc<Vec<u8>>,
}

/// Model of one step.
pub struct StepModel {
    pub duration: Time,
    pub opcode: u16,
    pub payload: Seq<u8>,
}

impl View for Step {
    type V = StepModel;

    open spec fn view(&self) -> StepModel {
        StepModel { duration: self.duration, opcode: self.opcode, payload: self.payload@ }
    }
}

impl DeepView for Step {
    type V = StepModel;

    open spec fn deep_view(&self) -> StepModel {
        self@
    }
}

/// The sum of the steps' durations.
pub open spec fn steps_duration(s: Seq<StepModel>) -> int
    decreases s.len(),
{
    if s.len() == 0 {
        0
    } else {
        s[0].duration + steps_duration(s.drop_first())
    }
}

/// The attempt to extend a path with one built for another channel.
#[derive(Debug)]
pub struct ChannelMismatch {
    pub expected: ChannelId,
    pub found: ChannelId,
}

/// A single-channel instruction buffer.
#[derive(Clone)]
pub struct MorphismPath {
    pub channel_id: ChannelId,
    pub steps: Vec<Step>,
    pub total_duration: Time,
}

proof fn lemma_steps_duration_snoc(s: Seq<StepModel>, e: StepModel)
    ensures
        steps_duration(s.push(e)) == steps_duration(s) + e.duration,
    decreases s.len(),
{
    let sp = s.push(e);
    if s.len() == 0 {
        assert(sp[0] == e);
        assert(sp.drop_first() =~= Seq::<StepModel>::empty());
        assert(steps_duration(sp.drop_first()) == 0);
    } else {
        assert(sp[0] == s[0]);
        assert(sp.drop_first() =~= s.drop_first().push(e));
        lemma_steps_duration_snoc(s.drop_first(), e);
    }
}

proof fn lemma_steps_duration_concat(a: Seq<StepModel>, b: Seq<StepModel>)
    ensures
        steps_duration(a + b) == steps_duration(a) + steps_duration(b),
    decreases b.len(),
{
    if b.len() == 0 {
        assert(a + b =~= a);
    } else {
        lemma_steps_duration_concat(a, b.drop_last());
        assert(a + b =~= (a + b.drop_last()).push(b.last()));
        lemma_steps_duration_snoc(a + b.drop_last(), b.last());
        assert(b =~= b.drop_last().push(b.last()));
        lemma_steps_duration_snoc(b.drop_last(), b.last());
    }
}

impl MorphismPath {
    /// The stored total always equals the steps' summed duration.
    pub open spec fn wf(&self) -> bool {
        self.total_duration as int == steps_duration(self.steps.deep_view())
    }

    /// An empty path on the given channel.
    pub fn new(channel_id: ChannelId) -> (r: MorphismPath)
        ensures
            r.wf(),
            r.channel_id == channel_id,
            r.steps.deep_view() == Seq::<StepModel>::empty(),
            r.total_duration == 0,
    {
        let r = MorphismPath { channel_id, steps: Vec::with_capacity(64), total_duration: 0 };
        proof {
            assert(r.steps.deep_view() =~= Seq::<StepModel>::empty());
        }
        r
    }

    /// An empty path with room reserved for `capacity` steps.
    pub fn with_capacity(channel_id: ChannelId, capacity: usize) -> (r: MorphismPath)
        ensures
            r.wf(),
            r.channel_id == channel_id,
            r.steps.deep_view() == Seq::<StepModel>::empty(),
            r.total_duration == 0,
    {
        let r = MorphismPath { channel_id, steps: Vec::with_capacity(capacity), total_duration: 0 };
        proof {
            assert(r.steps.deep_view() =~= Seq::<StepModel>::empty());
        }
        r
    }

    /// Append one step, moving its payload into shared ownership.
    pub fn append(&mut self, duration: Time, opcode: u16, payload: Vec<u8>)
        requires
            old(self).wf(),
            old(self).total_duration + duration <= u64::MAX,
        ensures
            final(self).wf(),
            final(self).channel_id == old(self).channel_id,
            final(self).steps.deep_view() == old(self).steps.deep_view().push(
                StepModel { duration, opcode, payload: payload@ },
            ),
            final(self).total_duration == old(self).total_duration + duration,
    {
        let ghost pre = self.steps.deep_view();
        let step = Step { duration, opcode, payload: Arc::new(payload) };
        let ghost sm = step@;
        self.steps.push(step);
        self.total_duration = self.total_duration + duration;
        proof {
            assert(self.steps.deep_view() =~= pre.push(sm));
            lemma_steps_duration_snoc(pre, sm);
        }
    }

    /// Append every step of another path for the same channel; the payloads
    /// are shared, not copied.  A path for another channel is rejected and
    /// nothing changes.
    pub fn extend(&mut self, other: &MorphismPath) -> (r: Result<(), ChannelMismatch>)
        requires
            old(self).wf(),
            other.wf(),
            old(self).total_duration + other.total_duration <= u64::MAX,
        ensures
            final(self).wf(),
            final(self).channel_id == old(self).channel_id,
            r is Ok <==> old(self).channel_id == other.channel_id,
            r matches Err(e) ==> *final(self) == *old(self) && e.expected == old(self).channel_id
                && e.found == other.channel_id,
            r is Ok ==> final(self).steps.deep_view() == old(self).steps.deep_view()
                + other.steps.deep_view() && final(self).total_duration == old(
                self,
            ).total_duration + other.total_duration,
    {
        if self.channel_id != other.channel_id {
            return Err(ChannelMismatch { expected: self.channel_id, found: other.channel_id });
        }
        let ghost pre = self.steps.deep_view();
        let mut i: usize = 0;
        proof {
            assert(pre + other.steps.deep_view().take(0) =~= pre);
        }
        while i < other.steps.len()
            invariant
                i <= other.steps@.len(),
                other.steps@.len() == other.steps.deep_view().len(),
                self.steps.deep_view() == pre + other.steps.deep_view().take(i as int),
                self.channel_id == old(self).channel_id,
                self.total_duration == old(self).total_duration,
            decreases other.steps@.len() - i,
        {
            let ghost mid = self.steps.deep_view();
            let s = &other.steps[i];
            self.steps.push(
                Step { duration: s.duration, opcode: s.opcode, payload: bytes_arc_clone(&s.payload) },
            );
            proof {
                let ov = other.steps.deep_view();
                assert(self.steps.deep_view() =~= mid.push(ov[i as int]));
                assert(ov.take(i + 1) =~= ov.take(i as int).push(ov[i as int]));
                assert(mid.push(ov[i as int]) =~= pre + ov.take(i + 1));
            }
            i = i + 1;
        }
        self.total_duration = self.total_duration + other.total_duration;
        proof {
            let ov = other.steps.deep_view();
            assert(ov.take(ov.len() as int) =~= ov);
            lemma_steps_duration_concat(pre, ov);
        }
        Ok(())
    }

    /// The number of steps.
    pub fn len(&self) -> (r: usize)
        ensures
            r == self.steps.deep_view().len(),
    {
        self.steps.len()
    }

    pub fn is_empty(&self) -> (r: bool)
        ensures
            r == (self.steps.deep_view().len() == 0),
    {
        self.steps.is_empty()
    }

    /// The identity morphism: a single wait of the given duration, or an
    /// empty path when the duration is zero.
    pub fn identity(channel_id: ChannelId, duration: Time, opcode: u16) -> (r: MorphismPath)
        ensures
            r.wf(),
            r.channel_id == channel_id,
            r.total_duration == duration,
            duration == 0 ==> r.steps.deep_view().len() == 0,
            duration > 0 ==> r.steps.deep_view() == seq![
                StepModel { duration, opcode, payload: Seq::<u8>::empty() },
            ],
    {
        let mut path = MorphismPath::new(channel_id);
        if duration > 0 {
            path.append(duration, opcode, Vec::new());
            proof {
                assert(path.steps.deep_view() =~= seq![
                    StepModel { duration, opcode, payload: Seq::<u8>::empty() },
                ]);
            }
        }
        path
    }

    /// Pad the path with one wait step up to `target_duration`; a path that
    /// is already long enough is left alone.
    pub fn align(&mut self, target_duration: Time, opcode: u16)
        requires
            old(self).wf(),
        ensures
            final(self).wf(),
            final(self).channel_id == old(self).channel_id,
            old(self).total_duration >= target_duration ==> *final(self) == *old(self),
            old(self).total_duration < target_duration ==> {
                &&& final(self).total_duration == target_duration
                &&& final(self).steps.deep_view() == old(self).steps.deep_view().push(
                    StepModel {
                        duration: (target_duration - old(self).total_duration) as Time,
                        opcode,
                        payload: Seq::<u8>::empty(),
                    },
                )
            },
    {
        if self.total_duration < target_duration {
            let diff = target_duration - self.total_duration;
            self.append(diff, opcode, Vec::new());
        }
    }

    /// Read one step; the payload bytes are copied out.
    pub fn get_step(&self, index: usize) -> (r: Option<(Time, u16, Vec<u8>)>)
        ensures
            r is Some <==> index < self.steps.deep_view().len(),
            r matches Some(t) ==> t.0 == self.steps.deep_view()[index as int].duration && t.1
                == self.steps.deep_view()[index as int].opcode && t.2@
                == self.steps.deep_view()[index as int].payload,
    {
        if index >= self.steps.len() {
            return None;
        }
        let step = &self.steps[index];
        let bytes = bytes_arc_ref(&step.payload);
        let mut out: Vec<u8> = Vec::new();
        let mut i: usize = 0;
        proof {
            assert(out@ =~= bytes@.take(0));
        }
        while i < bytes.len()
            invariant
                i <= bytes@.len(),
                out@ == bytes@.take(i as int),
            decreases bytes@.len() - i,
        {
            out.push(bytes[i]);
            proof {
                assert(bytes@.take(i + 1) =~= bytes@.take(i as int).push(bytes@[i as int]));
            }
            i = i + 1;
        }
        proof {
            assert(bytes@.take(bytes@.len() as int) =~= bytes@);
        }
        Some((step.duration, step.opcode, out))
    }
}

} // verus!

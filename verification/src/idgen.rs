//! Segment-based id generation.
//!
//! Ids come from contiguous segments that a central allocator hands out. The
//! next segment is fetched when the current one is half consumed, so that the
//! allocator is asked once for many ids. Ids are unique and increasing; gaps
//! occur where segments end.

use vstd::prelude::*;

verus! {

/// Hands out contiguous id ranges.
pub trait SegmentProvider {
    /// Every id below this one may have been handed out.
    spec fn reserved(&self) -> nat;

    /// How many ids can still be handed out.
    spec fn room(&self) -> nat;

    /// Whether reserving `step` ids can give the range that begins at `start` and
    /// leave the allocator as `after`.
    spec fn hands_out(&self, step: u64, start: u64, after: &Self) -> bool;

    /// Reserves the next range of `step` ids; returns its first id.
    fn next_segment(&mut self, step: u64) -> (r: u64)
        requires
            step <= old(self).room(),
        ensures
            old(self).hands_out(step, r, final(self)),
            r >= old(self).reserved(),
            r + step <= final(self).reserved(),
            r + step <= u64::MAX,
            final(self).room() >= old(self).room() - step,
    ;
}

/// An in-process allocator.
#[derive(Debug)]
pub struct MemorySegmentProvider {
    max_id: u64,
}

impl MemorySegmentProvider {
    /// The next id to be handed out.
    pub closed spec fn next(self) -> u64 {
        self.max_id
    }

    /// An allocator whose first id is `start`.
    pub fn starting_at(start: u64) -> (r: MemorySegmentProvider)
        ensures
            r.next() == start,
            r.reserved() == start,
            r.room() == u64::MAX - start,
    {
        MemorySegmentProvider { max_id: start }
    }
}

impl SegmentProvider for MemorySegmentProvider {
    closed spec fn reserved(&self) -> nat {
        self.max_id as nat
    }

    closed spec fn room(&self) -> nat {
        (u64::MAX - self.max_id) as nat
    }

    open spec fn hands_out(&self, step: u64, start: u64, after: &Self) -> bool {
        start == self.next() && after.next() == start + step
    }

    fn next_segment(&mut self, step: u64) -> (r: u64) {
        let start: u64 = self.max_id;
        self.max_id = start + step;
        start
    }
}

/// Generates ids from segments, the next of which is fetched ahead.
pub struct LeafIdGen<P: SegmentProvider> {
    provider: P,
    step: u64,
    cursor: u64,
    end: u64,
    next: Option<u64>,
}

impl<P: SegmentProvider> LeafIdGen<P> {
    /// Every id generated so far is below this one.
    pub closed spec fn fresh(self) -> u64 {
        self.cursor
    }

    /// End of the current segment.
    pub closed spec fn limit(self) -> u64 {
        self.end
    }

    /// Start of the segment that was fetched ahead.
    pub closed spec fn staged(self) -> Option<u64> {
        self.next
    }

    /// Ids in a segment.
    pub closed spec fn stride(self) -> u64 {
        self.step
    }

    /// Where the segments come from.
    pub closed spec fn source(self) -> P {
        self.provider
    }

    /// The generator's invariant: what is left of the current segment, and the
    /// staged one, have been reserved, and one is staged before the current one
    /// ends.
    pub closed spec fn wf(self) -> bool {
        &&& self.step >= 2
        &&& self.cursor == self.end ==> self.next is Some
        &&& self.cursor <= self.end
        &&& self.end <= self.provider.reserved()
        &&& match self.next {
            Some(start) => {
                &&& start >= self.end
                &&& start + self.step <= self.provider.reserved()
                &&& start + self.step <= u64::MAX
            },
            None => true,
        }
    }

    /// A generator with its first segment.
    pub fn new(provider: P, step: u64) -> (r: LeafIdGen<P>)
        requires
            step >= 2,
            step <= provider.room(),
        ensures
            r.wf(),
            r.stride() == step,
            r.staged() is None,
            provider.hands_out(step, r.fresh(), &r.source()),
            r.fresh() >= provider.reserved(),
            r.limit() == r.fresh() + step,
            r.source().room() >= provider.room() - step,
    {
        let mut provider = provider;
        let start: u64 = provider.next_segment(step);
        LeafIdGen { provider, step, cursor: start, end: start + step, next: None }
    }

    /// Generates one id. It is larger than every id before. The segment ends
    /// where the id after its last one is drawn, which is passed over. With half
    /// of a segment consumed, the next one is fetched.
    pub fn next_id(&mut self) -> (r: u64)
        requires
            old(self).wf(),
            old(self).source().room() >= old(self).stride(),
        ensures
            final(self).wf(),
            final(self).stride() == old(self).stride(),
            r >= old(self).fresh(),
            final(self).fresh() == r + 1,
            r < final(self).limit() <= final(self).source().reserved(),
            old(self).fresh() < old(self).limit() ==> r == old(self).fresh()
                && final(self).limit() == old(self).limit(),
            old(self).fresh() == old(self).limit() ==> {
                let start = old(self).staged()->0;
                &&& old(self).staged() is Some
                &&& r == if start > old(self).fresh() + 1 {
                    start as int
                } else {
                    old(self).fresh() + 1
                }
                &&& final(self).limit() == start + old(self).stride()
            },
            ({
                let ahead = if old(self).fresh() < old(self).limit() {
                    old(self).staged()
                } else {
                    None
                };
                if ahead is None && final(self).limit() - r <= old(self).stride() / 2 {
                    &&& final(self).staged() is Some
                    &&& old(self).source().hands_out(
                        old(self).stride(),
                        final(self).staged()->0,
                        &final(self).source(),
                    )
                } else {
                    &&& final(self).staged() == ahead
                    &&& final(self).source() == old(self).source()
                }
            }),
            final(self).source().room() >= old(self).source().room() - old(self).stride(),
    {
        if self.cursor == self.end {
            self.install_next();
        }
        let id: u64 = self.cursor;
        if self.end - id <= self.step / 2 {
            self.stage_next();
        }
        self.cursor = id + 1;
        id
    }

    /// Fetches the next segment ahead, unless that has been done.
    fn stage_next(&mut self)
        requires
            old(self).wf(),
            old(self).next is None ==> old(self).step <= old(self).provider.room(),
        ensures
            final(self).wf(),
            final(self).step == old(self).step,
            final(self).cursor == old(self).cursor,
            final(self).end == old(self).end,
            if old(self).next is None {
                &&& final(self).next is Some
                &&& old(self).provider.hands_out(
                    old(self).step,
                    final(self).next->0,
                    &final(self).provider,
                )
            } else {
                &&& final(self).next == old(self).next
                &&& final(self).provider == old(self).provider
            },
            final(self).provider.room() >= old(self).provider.room() - old(self).step,
    {
        if self.next.is_none() {
            let start: u64 = self.provider.next_segment(self.step);
            self.next = Some(start);
        }
    }

    /// Moves on to the staged segment. The id that showed the current one to be
    /// exhausted is passed over.
    fn install_next(&mut self)
        requires
            old(self).wf(),
            old(self).cursor == old(self).end,
        ensures
            final(self).wf(),
            final(self).step == old(self).step,
            final(self).next is None,
            final(self).provider == old(self).provider,
            old(self).cursor < final(self).cursor < final(self).end,
            old(self).next is Some,
            final(self).end == old(self).next->0 + old(self).step,
            final(self).cursor == if old(self).next->0 > old(self).cursor + 1 {
                old(self).next->0 as int
            } else {
                old(self).cursor + 1
            },
    {
        if let Some(start) = self.next {
            let passed: u64 = self.cursor + 1;
            self.end = start + self.step;
            self.cursor = if start > passed {
                start
            } else {
                passed
            };
            self.next = None;
        }
    }
}

/// Ids that one generator draws one after the other never repeat: each is larger
/// than all before it. `states` are the generator's states around the calls.
pub proof fn law_ids_never_repeat<P: SegmentProvider>(states: Seq<LeafIdGen<P>>, ids: Seq<u64>)
    requires
        states.len() == ids.len() + 1,
        forall|i: int|
            0 <= i < ids.len() ==> #[trigger] ids[i] >= states[i].fresh() && states[i + 1].fresh()
                == ids[i] + 1,
    ensures
        forall|i: int, j: int| 0 <= i < j < ids.len() ==> #[trigger] ids[i] < #[trigger] ids[j],
    decreases ids.len(),
{
    if ids.len() > 1 {
        let front = ids.drop_last();
        let n = ids.len() - 1;
        assert forall|i: int| 0 <= i < front.len() implies #[trigger] front[i]
            >= states.drop_last()[i].fresh() && states.drop_last()[i + 1].fresh() == front[i]
            + 1 by {
            assert(ids[i] >= states[i].fresh());
        }
        law_ids_never_repeat(states.drop_last(), front);
        assert(ids[n] >= states[n].fresh());
        assert(states[n - 1 + 1].fresh() == ids[n - 1] + 1);
        assert forall|i: int, j: int| 0 <= i < j < ids.len() implies #[trigger] ids[i]
            < #[trigger] ids[j] by {
            if j < n {
                assert(front[i] < front[j]);
            } else if i < n - 1 {
                assert(front[i] < front[n - 1]);
            }
        }
    }
}

} // verus!

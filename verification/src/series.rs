use vstd::prelude::*;

verus! {

/// A plotted point: a synthetic position on the x axis and a latency
/// value in milliseconds (0 stands for a failed probe).
#[derive(Clone, Copy, Debug, PartialEq, Eq, Structural)]
pub struct Sample {
    pub pos: u64,
    pub value: u32,
}

/// Positions advance by exactly `delta` from each sample to the next.
pub open spec fn chained(s: Seq<Sample>, delta: u64) -> bool {
    forall|i: int| 0 <= i < s.len() - 1 ==> #[trigger] s[i + 1].pos == s[i].pos + delta
}

/// Contents of a series of capacity `cap` after appending `extra` to
/// `s`, the oldest entries evicted first to make room.
pub open spec fn slide(s: Seq<Sample>, extra: Seq<Sample>, cap: nat) -> Seq<Sample> {
    if s.len() + extra.len() <= cap {
        s + extra
    } else {
        (s + extra).skip(s.len() + extra.len() - cap)
    }
}

/// A fixed-capacity ordered run of samples for plotting: appending to a
/// full series evicts the oldest entry, and positions advance by a
/// fixed step across the whole run.
pub struct SlidingSeries {
    capacity: usize,
    delta: u64,
    data: Vec<Sample>,
}

impl SlidingSeries {
    /// The samples currently held, oldest first.
    pub closed spec fn samples(&self) -> Seq<Sample> {
        self.data@
    }

    /// The fixed capacity chosen at construction.
    pub closed spec fn capacity(&self) -> nat {
        self.capacity as nat
    }

    /// The fixed position step between consecutive samples.
    pub closed spec fn delta(&self) -> u64 {
        self.delta
    }

    pub closed spec fn wf(&self) -> bool {
        &&& 0 < self.capacity
        &&& 0 < self.delta
        &&& self.data@.len() <= self.capacity
        &&& chained(self.data@, self.delta)
    }

    /// The next sample must continue the position progression.
    pub open spec fn can_append(&self, s: Sample) -> bool {
        self.samples().len() == 0 || s.pos == self.samples().last().pos + self.delta()
    }

    pub fn new(capacity: usize, delta: u64) -> (r: SlidingSeries)
        requires
            capacity > 0,
            delta > 0,
        ensures
            r.wf(),
            r.capacity() == capacity,
            r.delta() == delta,
            r.samples() =~= Seq::<Sample>::empty(),
    {
        SlidingSeries { capacity, delta, data: Vec::new() }
    }

    pub fn len(&self) -> (n: usize)
        ensures
            n == self.samples().len(),
    {
        self.data.len()
    }

    pub fn get(&self, i: usize) -> (s: Sample)
        requires
            i < self.samples().len(),
        ensures
            s == self.samples()[i as int],
    {
        self.data[i]
    }

    /// Insert one sample, evicting the single oldest entry first when
    /// the series is already at capacity.
    pub fn append(&mut self, s: Sample)
        requires
            old(self).wf(),
            old(self).can_append(s),
        ensures
            final(self).wf(),
            final(self).capacity() == old(self).capacity(),
            final(self).delta() == old(self).delta(),
            final(self).samples() =~= slide(old(self).samples(), seq![s], old(self).capacity()),
    {
        if self.data.len() == self.capacity {
            self.data.remove(0);
            proof {
                let prev = old(self).data@;
                assert(self.data@ =~= prev.skip(1));
                assert forall|i: int| 0 <= i < self.data@.len() - 1 implies #[trigger] self
                    .data@[i + 1].pos == self.data@[i].pos + self.delta by {
                    assert(self.data@[i + 1] == prev[i + 2]);
                    assert(self.data@[i] == prev[i + 1]);
                    assert(prev[(i + 1) + 1].pos == prev[i + 1].pos + self.delta);
                }
            }
        }
        self.data.push(s);
        proof {
            let prev = old(self).data@;
            let now = self.data@;
            assert forall|i: int| 0 <= i < now.len() - 1 implies #[trigger] now[i + 1].pos
                == now[i].pos + self.delta by {
                if i + 1 < now.len() - 1 || prev.len() < old(self).capacity {
                } else {
                    assert(now[i] == prev.last());
                }
            }
        }
    }
    /// Apply `append` to each sample in order: pushing a batch of k new
    /// points evicts the k oldest when the series is already full.
    pub fn extend(&mut self, samples: &Vec<Sample>)
        requires
            old(self).wf(),
            chained(samples@, old(self).delta()),
            old(self).samples().len() > 0 && samples@.len() > 0 ==> samples@[0].pos == old(
                self,
            ).samples().last().pos + old(self).delta(),
        ensures
            final(self).wf(),
            final(self).capacity() == old(self).capacity(),
            final(self).delta() == old(self).delta(),
            final(self).samples() =~= slide(
                old(self).samples(),
                samples@,
                old(self).capacity(),
            ),
    {
        let mut i: usize = 0;
        proof {
            assert(samples@.take(0) =~= Seq::<Sample>::empty());
            assert(slide(old(self).samples(), samples@.take(0), old(self).capacity())
                =~= old(self).samples());
        }
        while i < samples.len()
            invariant
                i <= samples@.len(),
                self.wf(),
                self.capacity() == old(self).capacity(),
                self.delta() == old(self).delta(),
                chained(samples@, self.delta()),
                old(self).samples().len() > 0 && samples@.len() > 0 ==> samples@[0].pos == old(
                    self,
                ).samples().last().pos + self.delta(),
                self.samples() =~= slide(
                    old(self).samples(),
                    samples@.take(i as int),
                    old(self).capacity(),
                ),
            decreases samples@.len() - i,
        {
            proof {
                let joined = old(self).samples() + samples@.take(i as int);
                if self.samples().len() > 0 {
                    assert(self.samples().last() == joined.last());
                    if i > 0 {
                        assert(joined.last() == samples@[i - 1]);
                        assert(samples@[(i - 1) + 1].pos == samples@[i - 1].pos + self.delta());
                    } else {
                        assert(samples@.take(0) =~= Seq::<Sample>::empty());
                        assert(joined.last() == old(self).samples().last());
                    }
                }
            }
            let s = samples[i];
            proof {
                lemma_slide_snoc(
                    old(self).samples(),
                    samples@.take(i as int),
                    samples@[i as int],
                    old(self).capacity(),
                );
                assert(samples@.take(i + 1) =~= samples@.take(i as int).push(samples@[i as int]));
            }
            self.append(s);
            i = i + 1;
        }
        proof {
            assert(samples@.take(samples@.len() as int) =~= samples@);
        }
    }
}

/// Sliding one more sample after a batch is the same as sliding the
/// whole batch extended by that sample.
proof fn lemma_slide_snoc(s: Seq<Sample>, extra: Seq<Sample>, x: Sample, cap: nat)
    requires
        cap > 0,
    ensures
        slide(s, extra.push(x), cap) =~= slide(slide(s, extra, cap), seq![x], cap),
{
    assert(s + extra.push(x) =~= (s + extra).push(x));
}

/// A well-formed series never holds more than its capacity.
pub proof fn lemma_wf_len(s: &SlidingSeries)
    requires
        s.wf(),
    ensures
        s.samples().len() <= s.capacity(),
{
}

/// Capacity law: a series never exceeds its capacity, and once at
/// capacity every later state is exactly at capacity.
pub proof fn lemma_slide_len(s: Seq<Sample>, extra: Seq<Sample>, cap: nat)
    requires
        s.len() <= cap,
    ensures
        slide(s, extra, cap).len() <= cap,
        slide(s, extra, cap).len() == if s.len() + extra.len() <= cap {
            (s.len() + extra.len()) as int
        } else {
            cap as int
        },
        s.len() == cap ==> slide(s, extra, cap).len() == cap,
{
}

/// Steady-state eviction law: appending k samples to a series already
/// at capacity evicts exactly the k oldest and leaves the length unchanged.
pub proof fn lemma_steady_state(s: Seq<Sample>, extra: Seq<Sample>, cap: nat)
    requires
        s.len() == cap,
        extra.len() <= cap,
    ensures
        slide(s, extra, cap).len() == s.len(),
        slide(s, extra, cap) =~= s.skip(extra.len() as int) + extra,
{
}

/// Ordering law, series side: after a batch is appended the new samples
/// form the tail of the series in exactly the order issued, behind the
/// surviving old samples in their old order.
pub proof fn lemma_slide_order(s: Seq<Sample>, extra: Seq<Sample>, cap: nat)
    requires
        extra.len() <= cap,
    ensures
        slide(s, extra, cap) =~= s.skip(
            if s.len() + extra.len() <= cap {
                0
            } else {
                s.len() + extra.len() - cap
            },
        ) + extra,
{
}

} // verus!

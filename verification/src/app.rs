use vstd::prelude::*;
use crate::ping::{Ping, ProbeOutcome, spec_outcome_value, outcome_value};
use crate::series::{Sample, SlidingSeries, chained, slide};
use crate::statistics::{Statistics, spec_push_all, spec_push, BUFFER_SIZE};

verus! {

/// Number of samples the chart can hold.
pub const CAPACITY: usize = 100;

/// Number of zero-value samples the chart is seeded with at startup.
pub const SEED_SAMPLES: usize = 95;

/// Number of probes issued per tick.
pub const TICK_SAMPLES: usize = 5;

/// Position step between consecutive samples on the x axis.
pub const DELTA: u64 = 1;

/// Width of the visible position range; it spans the whole chart.
pub const WINDOW_WIDTH: u64 = 100;

/// Length of one tick cycle in milliseconds; the probe timeout is
/// configured strictly below it so a slow probe cannot starve the loop.
pub const TICK_INTERVAL_MS: u64 = 1000;

/// The visible position range of the chart; it advances by a fixed
/// increment each tick and its width never changes.
#[derive(Clone, Copy, Debug, PartialEq, Eq, Structural)]
pub struct AxisWindow {
    pub low: u64,
    pub high: u64,
}

impl AxisWindow {
    /// Slide the visible range forward, keeping its width constant.
    pub fn advance(&mut self, step: u64)
        requires
            old(self).low <= old(self).high,
            old(self).high + step <= u64::MAX,
        ensures
            final(self).low == old(self).low + step,
            final(self).high == old(self).high + step,
            final(self).high - final(self).low == old(self).high - old(self).low,
    {
        self.low = self.low + step;
        self.high = self.high + step;
    }
}

/// The values a batch of probe outcomes contributes, in issued order.
pub open spec fn values_of(os: Seq<ProbeOutcome>) -> Seq<u32> {
    os.map_values(|o: ProbeOutcome| spec_outcome_value(o))
}

/// The samples a batch of probe outcomes turns into when positions are
/// assigned from `start` in steps of `step`, in issued order.
pub open spec fn samples_from(os: Seq<ProbeOutcome>, start: u64, step: u64) -> Seq<Sample> {
    Seq::new(os.len(), |i: int| Sample {
        pos: (start + i * step) as u64,
        value: spec_outcome_value(os[i]),
    })
}

/// The zero-value samples the chart is seeded with, at positions
/// 0, step, 2 * step, and so on.
pub open spec fn seed_samples(count: nat, step: u64) -> Seq<Sample> {
    Seq::new(count, |i: int| Sample { pos: (i * step) as u64, value: 0u32 })
}

/// The whole monitoring state driven by the tick loop: the probe
/// configuration with its position counter, the plotted series, the
/// rolling block averages, and the visible axis range.
pub struct App {
    pub ping: Ping,
    pub data: SlidingSeries,
    pub stats: Statistics,
    pub window: AxisWindow,
}

impl App {
    pub open spec fn wf(&self) -> bool {
        &&& self.data.wf()
        &&& self.stats.wf()
        &&& self.window.low <= self.window.high
        &&& self.data.capacity() == CAPACITY as nat
        &&& self.data.delta() == DELTA
        &&& (self.data.samples().len() == 0 || self.ping.x == self.data.samples().last().pos
            + DELTA)
    }

    /// Record a batch of probe outcomes: each becomes the next sample of
    /// the series (evicting the oldest entries when full) and each raw
    /// value is pushed into the rolling averages, all in issued order.
    fn feed(&mut self, outcomes: &Vec<ProbeOutcome>)
        requires
            old(self).wf(),
            old(self).ping.x + outcomes@.len() * DELTA <= u64::MAX,
        ensures
            final(self).wf(),
            final(self).data.samples() =~= slide(
                old(self).data.samples(),
                samples_from(outcomes@, old(self).ping.x, DELTA),
                CAPACITY as nat,
            ),
            final(self).stats.current() =~= spec_push_all(
                old(self).stats.current(),
                old(self).stats.history(),
                values_of(outcomes@),
                old(self).stats.block_size(),
            ).0,
            final(self).stats.history() =~= spec_push_all(
                old(self).stats.current(),
                old(self).stats.history(),
                values_of(outcomes@),
                old(self).stats.block_size(),
            ).1,
            final(self).stats.block_size() == old(self).stats.block_size(),
            final(self).window == old(self).window,
            final(self).ping.x == old(self).ping.x + outcomes@.len() * DELTA,
            final(self).ping.addr == old(self).ping.addr,
            final(self).ping.data == old(self).ping.data,
            final(self).ping.timeout_ms == old(self).ping.timeout_ms,
            final(self).ping.ttl == old(self).ping.ttl,
            final(self).ping.dont_fragment == old(self).ping.dont_fragment,
    {
        let ghost start = self.ping.x;
        let mut batch: Vec<Sample> = Vec::new();
        let mut j: usize = 0;
        proof {
            assert(batch@ =~= samples_from(outcomes@.take(0), start, DELTA));
            assert(values_of(outcomes@.take(0)) =~= Seq::<u32>::empty());
        }
        while j < outcomes.len()
            invariant
                j <= outcomes@.len(),
                start + outcomes@.len() * DELTA <= u64::MAX,
                self.ping.x == start + j * DELTA,
                self.ping.addr == old(self).ping.addr,
                self.ping.data == old(self).ping.data,
                self.ping.timeout_ms == old(self).ping.timeout_ms,
                self.ping.ttl == old(self).ping.ttl,
                self.ping.dont_fragment == old(self).ping.dont_fragment,
                self.data == old(self).data,
                self.window == old(self).window,
                self.stats.wf(),
                self.stats.block_size() == old(self).stats.block_size(),
                self.stats.current() =~= spec_push_all(
                    old(self).stats.current(),
                    old(self).stats.history(),
                    values_of(outcomes@.take(j as int)),
                    old(self).stats.block_size(),
                ).0,
                self.stats.history() =~= spec_push_all(
                    old(self).stats.current(),
                    old(self).stats.history(),
                    values_of(outcomes@.take(j as int)),
                    old(self).stats.block_size(),
                ).1,
                batch@ =~= samples_from(outcomes@.take(j as int), start, DELTA),
            decreases outcomes@.len() - j,
        {
            let v = outcome_value(&outcomes[j]);
            let s = self.ping.record(&outcomes[j], DELTA);
            batch.push(s);
            self.stats.push(v);
            proof {
                let vs1 = values_of(outcomes@.take(j + 1));
                let vs0 = values_of(outcomes@.take(j as int));
                assert(vs1.drop_last() =~= vs0);
                assert(vs1.last() == spec_outcome_value(outcomes@[j as int]));
                assert(vs1 =~= vs0.push(vs1.last()));
                assert(batch@ =~= samples_from(outcomes@.take(j + 1), start, DELTA));
            }
            j = j + 1;
        }
        proof {
            assert(outcomes@.take(outcomes@.len() as int) =~= outcomes@);
            assert(chained(batch@, DELTA)) by {
                assert forall|i: int| 0 <= i < batch@.len() - 1 implies #[trigger] batch@[i
                    + 1].pos == batch@[i].pos + DELTA by {
                    assert(batch@[i + 1].pos == start + (i + 1) * DELTA);
                    assert(batch@[i].pos == start + i * DELTA);
                }
            }
        }
        self.data.extend(&batch);
        proof {
            if batch@.len() > 0 {
                let joined = old(self).data.samples() + batch@;
                assert(self.data.samples().last() == joined.last());
                assert(joined.last() == batch@.last());
                assert(batch@.last().pos == start + (batch@.len() - 1) * DELTA);
            } else {
                assert(old(self).data.samples() + batch@ =~= old(self).data.samples());
            }
        }
    }

    /// Startup state: a series of 95 zero-value seed samples at
    /// positions 0, 1, 2, ... followed by the first batch of real probe
    /// outcomes, an empty rolling aggregator fed that same batch, and
    /// the visible window at the start of the axis.
    pub fn new(initial: &Vec<ProbeOutcome>) -> (app: App)
        requires
            initial@.len() == TICK_SAMPLES,
        ensures
            app.wf(),
            app.data.samples() =~= seed_samples(SEED_SAMPLES as nat, DELTA) + samples_from(
                initial@,
                SEED_SAMPLES as u64,
                DELTA,
            ),
            app.data.samples().len() == CAPACITY,
            app.stats.current() =~= values_of(initial@),
            app.stats.history() =~= Seq::<crate::statistics::Mean>::empty(),
            app.stats.block_size() == BUFFER_SIZE,
            app.window == (AxisWindow { low: 0, high: WINDOW_WIDTH }),
            app.ping.x == CAPACITY as u64,
            (app.ping.addr matches crate::ping::Target::V4(o) && o@ =~= seq![8u8, 8u8, 8u8, 8u8]),
    {
        let mut ping = Ping::for_target(crate::ping::Target::V4([8, 8, 8, 8]));
        let mut data = SlidingSeries::new(CAPACITY, DELTA);
        let stats = Statistics::new();
        let mut i: usize = 0;
        proof {
            assert(data.samples() =~= seed_samples(0, DELTA));
        }
        while i < SEED_SAMPLES
            invariant
                i <= SEED_SAMPLES,
                data.wf(),
                data.capacity() == CAPACITY as nat,
                data.delta() == DELTA,
                data.samples() =~= seed_samples(i as nat, DELTA),
            decreases SEED_SAMPLES - i,
        {
            let s = Sample { pos: (i as u64) * DELTA, value: 0 };
            proof {
                if i > 0 {
                    assert(data.samples().last() == seed_samples(i as nat, DELTA)[i - 1]);
                }
            }
            data.append(s);
            proof {
                assert(data.samples() =~= seed_samples((i + 1) as nat, DELTA));
            }
            i = i + 1;
        }
        ping.x = (SEED_SAMPLES as u64) * DELTA;
        let mut app = App { ping, data, stats, window: AxisWindow { low: 0, high: WINDOW_WIDTH } };
        proof {
            if SEED_SAMPLES > 0 {
                assert(app.data.samples().last() == seed_samples(SEED_SAMPLES as nat, DELTA)[
                    SEED_SAMPLES - 1]);
            }
        }
        app.feed(initial);
        proof {
            let seeded = seed_samples(SEED_SAMPLES as nat, DELTA);
            let fresh = samples_from(initial@, SEED_SAMPLES as u64, DELTA);
            assert(app.data.samples() =~= seeded + fresh);
            crate::statistics::lemma_push_all_no_flush(
                Seq::<u32>::empty(),
                Seq::<crate::statistics::Mean>::empty(),
                values_of(initial@),
                BUFFER_SIZE as nat,
            );
            assert(Seq::<u32>::empty() + values_of(initial@) =~= values_of(initial@));
        }
        app
    }

    /// One tick: record the batch of probe outcomes issued this cycle,
    /// then advance the visible window by the same increment the
    /// positions advanced by.
    pub fn on_tick(&mut self, outcomes: &Vec<ProbeOutcome>)
        requires
            old(self).wf(),
            old(self).ping.x + outcomes@.len() * DELTA <= u64::MAX,
            old(self).window.high + outcomes@.len() * DELTA <= u64::MAX,
        ensures
            final(self).wf(),
            final(self).data.samples() =~= slide(
                old(self).data.samples(),
                samples_from(outcomes@, old(self).ping.x, DELTA),
                CAPACITY as nat,
            ),
            final(self).stats.current() =~= spec_push_all(
                old(self).stats.current(),
                old(self).stats.history(),
                values_of(outcomes@),
                old(self).stats.block_size(),
            ).0,
            final(self).stats.history() =~= spec_push_all(
                old(self).stats.current(),
                old(self).stats.history(),
                values_of(outcomes@),
                old(self).stats.block_size(),
            ).1,
            final(self).stats.block_size() == old(self).stats.block_size(),
            final(self).window.low == old(self).window.low + outcomes@.len() * DELTA,
            final(self).window.high == old(self).window.high + outcomes@.len() * DELTA,
            final(self).window.high - final(self).window.low == old(self).window.high - old(
                self,
            ).window.low,
            final(self).ping.x == old(self).ping.x + outcomes@.len() * DELTA,
            final(self).data.samples().len() <= CAPACITY,
            old(self).data.samples().len() == CAPACITY ==> final(self).data.samples().len()
                == CAPACITY,
            final(self).ping.addr == old(self).ping.addr,
            final(self).ping.data == old(self).ping.data,
            final(self).ping.timeout_ms == old(self).ping.timeout_ms,
            final(self).ping.ttl == old(self).ping.ttl,
            final(self).ping.dont_fragment == old(self).ping.dont_fragment,
    {
        self.feed(outcomes);
        proof {
            crate::series::lemma_wf_len(&old(self).data);
            crate::series::lemma_slide_len(
                old(self).data.samples(),
                samples_from(outcomes@, old(self).ping.x, DELTA),
                CAPACITY as nat,
            );
        }
        let step = (outcomes.len() as u64) * DELTA;
        self.window.advance(step);
    }
}

/// Remaining cancellation-poll budget within one tick: the tick
/// interval minus the time already spent, saturating at zero so the
/// loop never overruns its deadline waiting for input.
pub fn poll_budget(interval_ms: u64, elapsed_ms: u64) -> (r: u64)
    ensures
        r == if elapsed_ms >= interval_ms {
            0int
        } else {
            interval_ms - elapsed_ms
        },
        r <= interval_ms,
{
    if elapsed_ms >= interval_ms {
        0
    } else {
        interval_ms - elapsed_ms
    }
}

} // verus!

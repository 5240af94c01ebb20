use vstd::prelude::*;
use vstd::arithmetic::div_mod::lemma_fundamental_div_mod;
use vstd::arithmetic::div_mod::lemma_fundamental_div_mod_converse;
use vstd::arithmetic::div_mod::lemma_mod_bound;
use vstd::arithmetic::mul::lemma_mul_inequality;
use vstd::arithmetic::mul::lemma_mul_nonnegative;

verus! {

/// Number of raw samples that make up one aggregation block.
pub const BUFFER_SIZE: usize = 10;

/// The exact mean of one run of raw samples, kept as the pair
/// (sum, count) so that no precision is lost.
#[derive(Clone, Copy, Debug, PartialEq, Eq, Structural)]
pub struct Mean {
    pub sum: u64,
    pub count: usize,
}

/// Sum of a run of raw latency values, as a mathematical integer.
pub open spec fn sum_of(s: Seq<u32>) -> int
    decreases s.len(),
{
    if s.len() == 0 {
        0
    } else {
        sum_of(s.drop_last()) + s.last()
    }
}

proof fn lemma_sum_of_bound(s: Seq<u32>)
    ensures
        0 <= sum_of(s) <= s.len() * (u32::MAX as int),
    decreases s.len(),
{
    if s.len() == 0 {
    } else {
        lemma_sum_of_bound(s.drop_last());
    }
}

/// One push into the aggregator model: when the raw buffer has reached
/// the block size the buffer is flushed into one history entry first,
/// then the new value is inserted.
pub open spec fn spec_push(data: Seq<u32>, history: Seq<Mean>, v: u32, block: nat) -> (Seq<u32>, Seq<
    Mean,
>) {
    if data.len() >= block {
        (seq![v], history.push(Mean { sum: sum_of(data) as u64, count: data.len() as usize }))
    } else {
        (data.push(v), history)
    }
}

/// Pushing a whole batch of values, in order.
pub open spec fn spec_push_all(
    data: Seq<u32>,
    history: Seq<Mean>,
    vs: Seq<u32>,
    block: nat,
) -> (Seq<u32>, Seq<Mean>)
    decreases vs.len(),
{
    if vs.len() == 0 {
        (data, history)
    } else {
        let prev = spec_push_all(data, history, vs.drop_last(), block);
        spec_push(prev.0, prev.1, vs.last(), block)
    }
}

/// A bounded buffer of raw probe values that collapses into one block
/// average each time it fills, the averages accumulating in `averages`.
#[derive(Clone, Debug)]
pub struct Statistics {
    buffer_size: usize,
    data: Vec<u32>,
    averages: Vec<Mean>,
}

impl Statistics {
    /// The raw values of the block being gathered, oldest first.
    pub closed spec fn current(&self) -> Seq<u32> {
        self.data@
    }

    /// The completed block averages, oldest first.
    pub closed spec fn history(&self) -> Seq<Mean> {
        self.averages@
    }

    /// The block size fixed at construction.
    pub closed spec fn block_size(&self) -> nat {
        self.buffer_size as nat
    }

    pub closed spec fn wf(&self) -> bool {
        &&& 0 < self.buffer_size <= 0x1_0000_0000
        &&& self.data@.len() <= self.buffer_size
    }

    pub fn new() -> (r: Statistics)
        ensures
            r.wf(),
            r.block_size() == BUFFER_SIZE,
            r.current() =~= Seq::<u32>::empty(),
            r.history() =~= Seq::<Mean>::empty(),
    {
        Statistics { buffer_size: BUFFER_SIZE, data: Vec::new(), averages: Vec::new() }
    }

    /// The exact mean of the raw values gathered so far, or no data at
    /// all when the buffer is empty.
    pub fn average(&self) -> (r: Option<Mean>)
        requires
            self.wf(),
        ensures
            match r {
                Option::None => self.current().len() == 0,
                Option::Some(m) => self.current().len() > 0 && m.count == self.current().len()
                    && m.sum == sum_of(self.current()),
            },
    {
        if self.data.len() == 0 {
            return None;
        }
        let mut sum: u64 = 0;
        let mut i: usize = 0;
        while i < self.data.len()
            invariant
                i <= self.data@.len(),
                self.data@.len() <= 0x1_0000_0000,
                sum == sum_of(self.data@.take(i as int)),
            decreases self.data@.len() - i,
        {
            proof {
                lemma_sum_of_bound(self.data@.take(i as int));
                assert(self.data@.take(i + 1).drop_last() =~= self.data@.take(i as int));
                assert(self.data@.take(i + 1).last() == self.data@[i as int]);
            }
            sum = sum + self.data[i] as u64;
            i = i + 1;
        }
        proof {
            assert(self.data@.take(self.data@.len() as int) =~= self.data@);
        }
        Some(Mean { sum, count: self.data.len() })
    }

    /// Collapse the full raw buffer into one history entry and reset it.
    fn flush(&mut self)
        requires
            old(self).wf(),
            old(self).current().len() > 0,
        ensures
            final(self).wf(),
            final(self).block_size() == old(self).block_size(),
            final(self).current() =~= Seq::<u32>::empty(),
            final(self).history() =~= old(self).history().push(
                Mean {
                    sum: sum_of(old(self).current()) as u64,
                    count: old(self).current().len() as usize,
                },
            ),
    {
        let average = self.average();
        if let Some(m) = average {
            self.averages.push(m);
        }
        self.data = Vec::new();
    }

    /// Insert one raw value, flushing the gathered block first when the
    /// buffer has already reached the block size.
    pub fn push(&mut self, value: u32)
        requires
            old(self).wf(),
        ensures
            final(self).wf(),
            final(self).block_size() == old(self).block_size(),
            final(self).current() =~= spec_push(
                old(self).current(),
                old(self).history(),
                value,
                old(self).block_size(),
            ).0,
            final(self).history() =~= spec_push(
                old(self).current(),
                old(self).history(),
                value,
                old(self).block_size(),
            ).1,
    {
        if self.data.len() >= self.buffer_size {
            self.flush();
        }
        self.data.push(value);
    }

    /// How many block averages have been completed so far.
    pub fn history_len(&self) -> (n: usize)
        ensures
            n == self.history().len(),
    {
        self.averages.len()
    }

    /// The most recently completed block average, or no data at all
    /// before the first flush.
    pub fn last_average(&self) -> (r: Option<Mean>)
        ensures
            match r {
                Option::None => self.history().len() == 0,
                Option::Some(m) => self.history().len() > 0 && m == self.history().last(),
            },
    {
        if self.averages.len() == 0 {
            None
        } else {
            Some(self.averages[self.averages.len() - 1])
        }
    }
}

/// A batch that fits in the remaining room of the raw buffer is
/// gathered whole, with no flush.
pub proof fn lemma_push_all_no_flush(data: Seq<u32>, history: Seq<Mean>, vs: Seq<u32>, block: nat)
    requires
        data.len() + vs.len() <= block,
    ensures
        spec_push_all(data, history, vs, block).0 =~= data + vs,
        spec_push_all(data, history, vs, block).1 =~= history,
    decreases vs.len(),
{
    if vs.len() == 0 {
        assert(data + vs =~= data);
    } else {
        lemma_push_all_no_flush(data, history, vs.drop_last(), block);
        assert(data + vs =~= (data + vs.drop_last()).push(vs.last()));
    }
}

/// Flush law: pushing exactly block + 1 values into a fresh aggregator
/// leaves one history entry, the exact mean of the first block values,
/// while the last value alone occupies the raw buffer.
pub proof fn lemma_flush_law(vs: Seq<u32>, block: nat)
    requires
        0 < block,
        vs.len() == block + 1,
    ensures
        spec_push_all(Seq::<u32>::empty(), Seq::<Mean>::empty(), vs, block).0 =~= seq![vs.last()],
        spec_push_all(Seq::<u32>::empty(), Seq::<Mean>::empty(), vs, block).1 =~= seq![
            Mean {
                sum: sum_of(vs.take(block as int)) as u64,
                count: block as usize,
            },
        ],
{
    lemma_push_all_no_flush(Seq::<u32>::empty(), Seq::<Mean>::empty(), vs.drop_last(), block);
    assert(Seq::<u32>::empty() + vs.drop_last() =~= vs.take(block as int));
}

/// Optional-result law, growth half: the history of block averages only
/// ever grows; after any batch the old history is a prefix of the new
/// one, so once a first flush has happened the last average stays defined.
pub proof fn lemma_history_monotone(data: Seq<u32>, history: Seq<Mean>, vs: Seq<u32>, block: nat)
    ensures
        history.is_prefix_of(spec_push_all(data, history, vs, block).1),
    decreases vs.len(),
{
    if vs.len() == 0 {
        assert(history =~= history.subrange(0, history.len() as int));
    } else {
        lemma_history_monotone(data, history, vs.drop_last(), block);
        let prev = spec_push_all(data, history, vs.drop_last(), block);
        let fin = spec_push(prev.0, prev.1, vs.last(), block);
        assert(history =~= fin.1.subrange(0, history.len() as int));
    }
}

/// Number of completed blocks after n pushes into a fresh aggregator:
/// a full block is flushed only when the next push arrives, so a block
/// completed by the n-th push still sits in the raw buffer.
pub open spec fn blocks_done(n: nat, block: nat) -> nat
    recommends
        block > 0,
{
    if n == 0 {
        0
    } else {
        ((n - 1) as nat) / block
    }
}

/// Ordering law, aggregator side: after any run of pushes into a fresh
/// aggregator the history holds, in issued order, the exact mean of
/// each completed block of `block` consecutive values, and the raw
/// buffer holds exactly the values issued after the last completed
/// block, in issued order.
pub proof fn lemma_push_all_blocks(vs: Seq<u32>, block: nat)
    requires
        0 < block <= 0xFFFF_FFFF,
    ensures
        ({
            let r = spec_push_all(Seq::<u32>::empty(), Seq::<Mean>::empty(), vs, block);
            let k = blocks_done(vs.len(), block);
            &&& r.0 =~= vs.skip((k * block) as int)
            &&& r.1.len() == k
            &&& forall|t: int| 0 <= t < k ==> #[trigger] r.1[t] == (Mean {
                sum: sum_of(vs.subrange(t * block as int, (t + 1) * block as int)) as u64,
                count: block as usize,
            })
        }),
    decreases vs.len(),
{
    let n = vs.len() as int;
    let b = block as int;
    if n == 0 {
        assert(spec_push_all(Seq::<u32>::empty(), Seq::<Mean>::empty(), vs, block).0 =~= vs.skip(
            0,
        ));
    } else {
        let m = n - 1;
        let head = vs.drop_last();
        lemma_push_all_blocks(head, block);
        let prev = spec_push_all(Seq::<u32>::empty(), Seq::<Mean>::empty(), head, block);
        let k1 = blocks_done(m as nat, block) as int;
        if m == 0 {
            assert(k1 == 0);
            assert(k1 * b == 0) by (nonlinear_arith)
                requires
                    k1 == 0,
            ;
        } else {
            lemma_fundamental_div_mod(m - 1, b);
            lemma_mod_bound(m - 1, b);
            let q = (m - 1) / b;
            let r1 = (m - 1) % b;
            assert(m - 1 == b * q + r1);
            assert(0 <= r1 < b);
            assert(k1 == q);
            assert(k1 * b == b * q) by (nonlinear_arith)
                requires
                    k1 == q,
            ;
        }
        assert(0 <= m - k1 * b <= b);
        assert(prev.0.len() == m - k1 * b);
        let fin = spec_push_all(Seq::<u32>::empty(), Seq::<Mean>::empty(), vs, block);
        assert(fin == spec_push(prev.0, prev.1, vs.last(), block));
        if prev.0.len() >= block {
            // the raw buffer held a whole block: this push flushes it
            assert((k1 + 1) * b == k1 * b + b) by (nonlinear_arith);
            assert(m == (k1 + 1) * b);
            lemma_fundamental_div_mod_converse(m, b, k1 + 1, 0);
            assert(blocks_done(n as nat, block) == k1 + 1);
            assert(prev.0 =~= vs.subrange(k1 * b, (k1 + 1) * b));
            assert(fin.0 =~= vs.skip((k1 + 1) * b));
            assert forall|t: int| 0 <= t < k1 + 1 implies #[trigger] fin.1[t] == (Mean {
                sum: sum_of(vs.subrange(t * b, (t + 1) * b)) as u64,
                count: block as usize,
            }) by {
                lemma_mul_nonnegative(t, b);
                lemma_mul_inequality(t, t + 1, b);
                lemma_mul_inequality(t + 1, k1 + 1, b);
                if t < k1 {
                    lemma_mul_inequality(t + 1, k1, b);
                    assert(prev.1[t] == Mean {
                        sum: sum_of(head.subrange(t * b, (t + 1) * b)) as u64,
                        count: block as usize,
                    });
                    assert(head.subrange(t * b, (t + 1) * b) =~= vs.subrange(t * b, (t + 1) * b));
                } else {
                    assert(fin.1[t] == Mean {
                        sum: sum_of(prev.0) as u64,
                        count: prev.0.len() as usize,
                    });
                }
            }
        } else {
            // the raw buffer still has room: the value is only gathered
            lemma_fundamental_div_mod_converse(m, b, k1, m - k1 * b);
            assert(blocks_done(n as nat, block) == k1);
            assert(fin.0 =~= vs.skip(k1 * b));
            assert forall|t: int| 0 <= t < k1 implies #[trigger] fin.1[t] == (Mean {
                sum: sum_of(vs.subrange(t * b, (t + 1) * b)) as u64,
                count: block as usize,
            }) by {
                lemma_mul_nonnegative(t, b);
                lemma_mul_inequality(t, t + 1, b);
                lemma_mul_inequality(t + 1, k1, b);
                assert(prev.1[t] == Mean {
                    sum: sum_of(head.subrange(t * b, (t + 1) * b)) as u64,
                    count: block as usize,
                });
                assert(head.subrange(t * b, (t + 1) * b) =~= vs.subrange(t * b, (t + 1) * b));
            }
        }
    }
}

} // verus!

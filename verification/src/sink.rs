//! The decision state of the solution sink and the log sink.
//!
//! The sinks' loops, channels and files live outside the library; they call
//! these functions for every decision that matters.

use vstd::prelude::*;

verus! {

/// The log sink writes one sampled line each time this many messages have
/// been consumed since the last write.
pub const SAMPLE_INTERVAL: u32 = 100000;

/// The best length the solution sink starts from: worse than any real walk.
pub const INITIAL_BEST: u32 = 0xFFFF_FFFF;

/// The solution sink's state: the best (smallest) length recorded so far.
pub struct SolutionSink {
    pub best: u32,
}

impl SolutionSink {
    /// Whether a reported walk of length `length` is a strict improvement.
    pub open spec fn accepts(self, length: u32) -> bool {
        length < self.best
    }

    pub fn new() -> (s: SolutionSink)
        ensures
            s.best == INITIAL_BEST,
    {
        SolutionSink { best: INITIAL_BEST }
    }

    /// Offer a reported solution length.  It is recorded, and the caller told
    /// to write it out, exactly when it strictly improves on the best so far.
    pub fn offer(&mut self, length: u32) -> (improved: bool)
        ensures
            improved == old(self).accepts(length),
            final(self).best == if improved {
                length
            } else {
                old(self).best
            },
    {
        if length < self.best {
            self.best = length;
            true
        } else {
            false
        }
    }
}

/// The lengths the solution sink writes out when, starting with best length
/// `best`, the lengths of `offers` arrive in order.
pub open spec fn written_lengths(best: u32, offers: Seq<u32>) -> Seq<u32>
    decreases offers.len(),
{
    if offers.len() == 0 {
        Seq::empty()
    } else if offers.first() < best {
        seq![offers.first()] + written_lengths(offers.first(), offers.drop_first())
    } else {
        written_lengths(best, offers.drop_first())
    }
}

/// Anytime monotonicity: whatever lengths are offered to the solution sink
/// and in whatever order, the sequence of lengths it writes out is strictly
/// decreasing, and every written length improves on the starting best.
pub proof fn lemma_written_strictly_decreasing(best: u32, offers: Seq<u32>)
    ensures
        forall|i: int, j: int|
            0 <= i < j < written_lengths(best, offers).len() ==> written_lengths(best, offers)[i]
                > written_lengths(best, offers)[j],
        forall|i: int|
            0 <= i < written_lengths(best, offers).len() ==> written_lengths(best, offers)[i]
                < best,
    decreases offers.len(),
{
    if offers.len() > 0 {
        let first = offers.first();
        let rest = offers.drop_first();
        let w = written_lengths(best, offers);
        if first < best {
            lemma_written_strictly_decreasing(first, rest);
            let wr = written_lengths(first, rest);
            assert(w == seq![first] + wr);
            assert(w[0] == first);
            assert forall|i: int, j: int| 0 <= i < j < w.len() implies w[i] > w[j] by {
                if i == 0 {
                    assert(w[j] == wr[j - 1]);
                    assert(wr[j - 1] < first);
                } else {
                    assert(w[i] == wr[i - 1] && w[j] == wr[j - 1]);
                    assert(wr[i - 1] > wr[j - 1]);
                }
            }
            assert forall|i: int| 0 <= i < w.len() implies w[i] < best by {
                if i > 0 {
                    assert(w[i] == wr[i - 1]);
                    assert(wr[i - 1] < first);
                }
            }
        } else {
            lemma_written_strictly_decreasing(best, rest);
            let wr = written_lengths(best, rest);
            assert(w == wr);
            assert forall|i: int, j: int| 0 <= i < j < w.len() implies w[i] > w[j] by {
                assert(wr[i] > wr[j]);
            }
            assert forall|i: int| 0 <= i < w.len() implies w[i] < best by {
                assert(wr[i] < best);
            }
        }
    }
}

/// The log sink's state: how many messages it has consumed since the last
/// sampled write.
pub struct LogSampler {
    pub counter: u32,
}

impl LogSampler {
    pub open spec fn wf(self) -> bool {
        self.counter < SAMPLE_INTERVAL
    }

    pub fn new() -> (s: LogSampler)
        ensures
            s.counter == 0,
            s.wf(),
    {
        LogSampler { counter: 0 }
    }

    /// Consume one message.  Exactly the `SAMPLE_INTERVAL`-th message since
    /// the last sampled write (the counter counts the messages before it)
    /// tells the caller to write one line, and the counter starts over: a
    /// deterministic one-in-N decimation.
    pub fn note(&mut self) -> (emit: bool)
        requires
            old(self).wf(),
        ensures
            final(self).wf(),
            emit == (old(self).counter + 1 >= SAMPLE_INTERVAL),
            final(self).counter == if emit {
                0
            } else {
                old(self).counter + 1
            },
    {
        if self.counter + 1 >= SAMPLE_INTERVAL {
            self.counter = 0;
            true
        } else {
            self.counter = self.counter + 1;
            false
        }
    }
}

} // verus!

//! The frontier store: a bounded-memory LIFO stack of candidate walks whose
//! cold tail overflows into an encoded byte stack.
//!
//! The store is logically one stack.  Its hot tail sits in `cache`; once a
//! push lifts the cache above the high watermark, walks are moved from the
//! cold end of the cache onto the spill stack until the low watermark is
//! reached.  When a pop finds the cache below the low refill threshold,
//! records are moved back until the high refill threshold is reached or the
//! spill stack is exhausted.  The hysteresis band keeps alternating pushes
//! and pops from thrashing between the two tiers.

use crate::codec::{
    encode_all, encode_record, lemma_encode_all_push, push_u16_le, push_u32_le, u16_from_le,
    u16_le, u32_from_le, u32_le,
};
use crate::walk::{TravelPath, WalkAbs};
use vstd::prelude::*;

verus! {

/// A push may leave at most this many walks in memory.
pub const HIGH_WATERMARK: usize = 1000000;

/// A spill episode drains the memory buffer down to this many walks.
pub const LOW_WATERMARK: usize = 500000;

/// A pop that finds fewer than this many walks in memory refills from disk.
pub const LOW_REFILL: usize = 2000;

/// A refill stops once this many walks are in memory.
pub const HIGH_REFILL: usize = 50000;

/// The walks of `c`, reduced to their mathematical content.
pub open spec fn abs_seq(c: Seq<TravelPath>) -> Seq<WalkAbs> {
    Seq::new(c.len(), |i: int| c[i].abs())
}

/// LIFO round-trip: pushing a walk and then popping returns exactly that
/// walk, states and length intact, and leaves the store's contents as they
/// were — whatever mixture of memory and spill the store is in.  `push`
/// ensures the entries become `ws.push(w)`; `pop` ensures the popped walk is
/// the last entry and the rest remain; this lemma closes the loop between the
/// two contracts.
pub proof fn lemma_lifo_round_trip(ws: Seq<WalkAbs>, w: WalkAbs)
    ensures
        ws.push(w).len() > 0,
        ws.push(w).last() == w,
        ws.push(w).drop_last() == ws,
{
    assert(ws.push(w).drop_last() =~= ws);
}

pub struct PathStack {
    /// The hot tail, coldest walk first.
    pub cache: Vec<TravelPath>,
    /// The byte image of the spilled cold tail, oldest record first.
    pub spill: Vec<u8>,
    /// The number of records on the spill stack.
    pub count: usize,
    pub hi_mark: usize,
    pub lo_mark: usize,
    pub lo_refill: usize,
    pub hi_refill: usize,
    /// The walks the spill bytes encode, oldest first.
    pub spilled: Ghost<Seq<WalkAbs>>,
}

impl PathStack {
    /// The whole logical stack, oldest walk first.
    pub open spec fn entries(self) -> Seq<WalkAbs> {
        self.spilled@ + abs_seq(self.cache@)
    }

    pub open spec fn wf(self) -> bool {
        &&& self.count == self.spilled@.len()
        &&& self.spill@ == encode_all(self.spilled@)
        &&& forall|i: int|
            0 <= i < self.spilled@.len() ==> 1 <= (#[trigger] self.spilled@[i]).states.len()
                <= 0xFFFF
        &&& forall|i: int| 0 <= i < self.cache@.len() ==> (#[trigger] self.cache@[i]).wf()
        &&& self.cache@.len() <= self.hi_mark
        &&& 1 <= self.lo_mark <= self.hi_mark
        &&& 2 <= self.lo_refill <= self.hi_refill <= self.hi_mark
        &&& self.spilled@.len() + self.cache@.len() <= usize::MAX
        &&& (self.spilled@.len() > 0 ==> self.cache@.len() > 0)
    }

    /// An empty store with the fixed production thresholds.
    pub fn new() -> (s: PathStack)
        ensures
            s.wf(),
            s.entries() == Seq::<WalkAbs>::empty(),
            s.hi_mark == HIGH_WATERMARK,
            s.lo_mark == LOW_WATERMARK,
            s.lo_refill == LOW_REFILL,
            s.hi_refill == HIGH_REFILL,
    {
        PathStack::with_thresholds(HIGH_WATERMARK, LOW_WATERMARK, LOW_REFILL, HIGH_REFILL)
    }

    /// An empty store with caller-chosen watermarks and refill thresholds.
    pub fn with_thresholds(hi_mark: usize, lo_mark: usize, lo_refill: usize, hi_refill: usize) -> (s:
        PathStack)
        requires
            1 <= lo_mark <= hi_mark,
            2 <= lo_refill <= hi_refill <= hi_mark,
        ensures
            s.wf(),
            s.entries() == Seq::<WalkAbs>::empty(),
            s.hi_mark == hi_mark,
            s.lo_mark == lo_mark,
            s.lo_refill == lo_refill,
            s.hi_refill == hi_refill,
    {
        let s = PathStack {
            cache: Vec::new(),
            spill: Vec::new(),
            count: 0,
            hi_mark,
            lo_mark,
            lo_refill,
            hi_refill,
            spilled: Ghost(Seq::empty()),
        };
        proof {
            assert(s.entries() =~= Seq::<WalkAbs>::empty());
        }
        s
    }

    /// The number of walks the store holds, in memory and spilled together.
    pub fn len(&self) -> (n: usize)
        requires
            self.wf(),
        ensures
            n == self.entries().len(),
    {
        self.count + self.cache.len()
    }

    /// The number of walks currently on the spill stack.
    pub fn spilled_count(&self) -> (n: usize)
        requires
            self.wf(),
        ensures
            n == self.spilled@.len(),
    {
        self.count
    }

    /// Append one record to the spill stack.
    fn push_to_file(&mut self, path: TravelPath)
        requires
            old(self).spill@ == encode_all(old(self).spilled@),
            old(self).count == old(self).spilled@.len(),
            old(self).count < usize::MAX,
            path.wf(),
        ensures
            final(self).spill@ == encode_all(final(self).spilled@),
            final(self).spilled@ == old(self).spilled@.push(path.abs()),
            final(self).count == old(self).count + 1,
            final(self).cache == old(self).cache,
            final(self).hi_mark == old(self).hi_mark,
            final(self).lo_mark == old(self).lo_mark,
            final(self).lo_refill == old(self).lo_refill,
            final(self).hi_refill == old(self).hi_refill,
    {
        push_u32_le(&mut self.spill, path.length);
        let ghost mid = self.spill@;
        let mut i: usize = 0;
        while i < path.states.len()
            invariant
                i <= path.states@.len(),
                self.spill@ == mid + path.states@.take(i as int),
                self.cache == old(self).cache,
                self.count == old(self).count,
                self.spilled == old(self).spilled,
                self.hi_mark == old(self).hi_mark,
                self.lo_mark == old(self).lo_mark,
                self.lo_refill == old(self).lo_refill,
                self.hi_refill == old(self).hi_refill,
            decreases path.states@.len() - i,
        {
            self.spill.push(path.states[i]);
            proof {
                assert(self.spill@ =~= mid + path.states@.take(i as int + 1));
            }
            i = i + 1;
        }
        proof {
            assert(path.states@.take(path.states@.len() as int) =~= path.states@);
        }
        push_u16_le(&mut self.spill, path.states.len() as u16);
        self.count = self.count + 1;
        proof {
            lemma_encode_all_push(self.spilled@, path.abs());
            assert(self.spill@ =~= encode_all(self.spilled@) + encode_record(path.abs()));
        }
        self.spilled = Ghost(self.spilled@.push(path.abs()));
    }

    /// Read back and remove the most recent spill record, if one exists.
    fn pop_from_file(&mut self) -> (r: Option<TravelPath>)
        requires
            old(self).spill@ == encode_all(old(self).spilled@),
            old(self).count == old(self).spilled@.len(),
            forall|i: int|
                0 <= i < old(self).spilled@.len() ==> 1 <= (#[trigger] old(self).spilled@[i]).states.len() <= 0xFFFF,
        ensures
            final(self).spill@ == encode_all(final(self).spilled@),
            final(self).count == final(self).spilled@.len(),
            final(self).cache == old(self).cache,
            final(self).hi_mark == old(self).hi_mark,
            final(self).lo_mark == old(self).lo_mark,
            final(self).lo_refill == old(self).lo_refill,
            final(self).hi_refill == old(self).hi_refill,
            match r {
                Some(p) => {
                    &&& old(self).spilled@.len() > 0
                    &&& p.abs() == old(self).spilled@.last()
                    &&& p.wf()
                    &&& final(self).spilled@ == old(self).spilled@.drop_last()
                },
                None => {
                    &&& old(self).spilled@.len() == 0
                    &&& final(self).spilled@ == old(self).spilled@
                },
            },
    {
        if self.count == 0 {
            return None;
        }
        let ghost ws = self.spilled@;
        let ghost last = ws.last();
        let ghost rec = encode_record(last);
        let ghost prefix = encode_all(ws.drop_last());
        let ghost m = last.states.len();
        proof {
            assert(self.spill@ == prefix + rec);
            assert(rec.len() == 6 + m);
        }
        let n_lo = self.spill[self.spill.len() - 2];
        let n_hi = self.spill[self.spill.len() - 1];
        proof {
            assert(rec[4 + m as int] == u16_le(m as u16)[0]);
            assert(rec[5 + m as int] == u16_le(m as u16)[1]);
            assert(n_lo == u16_le(m as u16)[0]);
            assert(n_hi == u16_le(m as u16)[1]);
            crate::codec::lemma_u16_le_round_trip(m as u16);
        }
        let n16: u16 = (n_lo as u16) | ((n_hi as u16) << 8);
        proof {
            assert(n16 == u16_from_le(n_lo, n_hi));
            assert(n16 == m);
        }
        let n = n16 as usize;
        let start = self.spill.len() - n - 6;
        proof {
            assert(start == prefix.len());
        }
        let l0 = self.spill[start];
        let l1 = self.spill[start + 1];
        let l2 = self.spill[start + 2];
        let l3 = self.spill[start + 3];
        proof {
            assert(l0 == rec[0] && l1 == rec[1] && l2 == rec[2] && l3 == rec[3]);
            assert(rec[0] == u32_le(last.length)[0]);
            assert(rec[1] == u32_le(last.length)[1]);
            assert(rec[2] == u32_le(last.length)[2]);
            assert(rec[3] == u32_le(last.length)[3]);
            crate::codec::lemma_u32_le_round_trip(last.length);
        }
        let length: u32 = (l0 as u32) | ((l1 as u32) << 8) | ((l2 as u32) << 16) | ((l3
            as u32) << 24);
        proof {
            assert(length == u32_from_le(l0, l1, l2, l3));
            assert(length == last.length);
        }
        let mut states: Vec<u8> = Vec::new();
        let mut i: usize = 0;
        while i < n
            invariant
                i <= n,
                n == m,
                states@ == last.states.take(i as int),
                self == old(self),
                ws == self.spilled@,
                self.spill@ == prefix + rec,
                rec == encode_record(last),
                prefix.len() == start,
                start + n + 6 == self.spill@.len(),
                start + n + 6 <= usize::MAX,
            decreases n - i,
        {
            proof {
                assert(rec[4 + i as int] == last.states[i as int]);
                assert(self.spill@[start + 4 + i as int] == rec[4 + i as int]);
            }
            states.push(self.spill[start + 4 + i]);
            proof {
                assert(last.states.take(i as int).push(last.states[i as int]) =~= last.states.take(
                    i as int + 1,
                ));
            }
            i = i + 1;
        }
        proof {
            assert(last.states.take(m as int) =~= last.states);
        }
        self.spill.truncate(start);
        proof {
            assert(self.spill@ =~= prefix);
        }
        self.count = self.count - 1;
        self.spilled = Ghost(self.spilled@.drop_last());
        let p = TravelPath { states, length };
        proof {
            assert(p.abs() == last);
        }
        Some(p)
    }

    /// Push a walk onto the hot end of the store.  Immediately afterwards the
    /// memory buffer is at or under the high watermark, and if the push
    /// overflowed it, a spill episode has drained the buffer to the low
    /// watermark.
    pub fn push(&mut self, path: TravelPath)
        requires
            old(self).wf(),
            path.wf(),
            old(self).entries().len() < usize::MAX,
        ensures
            final(self).wf(),
            final(self).entries() == old(self).entries().push(path.abs()),
            final(self).cache@.len() <= final(self).hi_mark,
            old(self).cache@.len() + 1 > old(self).hi_mark ==> final(self).cache@.len() == final(self).lo_mark,
            final(self).hi_mark == old(self).hi_mark,
            final(self).lo_mark == old(self).lo_mark,
            final(self).lo_refill == old(self).lo_refill,
            final(self).hi_refill == old(self).hi_refill,
    {
        self.cache.push(path);
        proof {
            assert(self.entries() =~= old(self).entries().push(path.abs()));
        }
        let ghost target = self.entries();
        if self.cache.len() > self.hi_mark {
            while self.cache.len() > self.lo_mark
                invariant
                    self.entries() == target,
                    self.spill@ == encode_all(self.spilled@),
                    self.count == self.spilled@.len(),
                    forall|i: int|
                        0 <= i < self.spilled@.len() ==> 1 <= (#[trigger] self.spilled@[i]).states.len()
                            <= 0xFFFF,
                    forall|i: int| 0 <= i < self.cache@.len() ==> (#[trigger] self.cache@[i]).wf(),
                    self.cache@.len() >= self.lo_mark,
                    self.spilled@.len() + self.cache@.len() <= usize::MAX,
                    self.hi_mark == old(self).hi_mark,
                    self.lo_mark == old(self).lo_mark,
                    self.lo_refill == old(self).lo_refill,
                    self.hi_refill == old(self).hi_refill,
                    1 <= self.lo_mark,
                decreases self.cache@.len(),
            {
                let ghost pre = *self;
                let w = self.cache.remove(0);
                self.push_to_file(w);
                proof {
                    assert(self.entries() =~= pre.entries());
                }
            }
        }
        proof {
            assert(self.cache@.len() <= self.hi_mark);
        }
    }

    /// Pop the most recently pushed surviving walk, or `None` if the store is
    /// empty.  The spill stack is only read when the pre-pop memory buffer
    /// was under the low refill threshold, and a refill stops at the high
    /// refill threshold or when the spill stack is exhausted.
    pub fn pop(&mut self) -> (r: Option<TravelPath>)
        requires
            old(self).wf(),
        ensures
            final(self).wf(),
            final(self).hi_mark == old(self).hi_mark,
            final(self).lo_mark == old(self).lo_mark,
            final(self).lo_refill == old(self).lo_refill,
            final(self).hi_refill == old(self).hi_refill,
            match r {
                Some(p) => {
                    &&& old(self).entries().len() > 0
                    &&& p.abs() == old(self).entries().last()
                    &&& p.wf()
                    &&& final(self).entries() == old(self).entries().drop_last()
                },
                None => {
                    &&& old(self).entries().len() == 0
                    &&& final(self).entries() == old(self).entries()
                },
            },
            old(self).cache@.len() >= old(self).lo_refill ==> final(self).spilled@ == old(self).spilled@ && final(self).spill@ == old(self).spill@,
            old(self).cache@.len() < old(self).lo_refill ==> final(self).cache@.len() >= final(self).hi_refill || final(self).spilled@.len() == 0,
            final(self).cache@.len() <= old(self).cache@.len() || final(self).cache@.len() <= final(self).hi_refill,
    {
        let pre_len = self.cache.len();
        proof {
            if self.cache@.len() == 0 {
                assert(self.entries() =~= Seq::<WalkAbs>::empty());
            } else {
                assert(self.entries().last() == self.cache@.last().abs());
                assert(self.entries().drop_last() =~= self.spilled@ + abs_seq(
                    self.cache@.drop_last(),
                ));
            }
        }
        let r = self.cache.pop();
        let ghost target = self.spilled@ + abs_seq(self.cache@);
        proof {
            if old(self).cache@.len() > 0 {
                assert(abs_seq(old(self).cache@.drop_last()) =~= abs_seq(self.cache@));
            }
        }
        if pre_len < self.lo_refill {
            while self.cache.len() < self.hi_refill && self.count > 0
                invariant
                    self.spilled@ + abs_seq(self.cache@) == target,
                    self.spill@ == encode_all(self.spilled@),
                    self.count == self.spilled@.len(),
                    forall|i: int|
                        0 <= i < self.spilled@.len() ==> 1 <= (#[trigger] self.spilled@[i]).states.len()
                            <= 0xFFFF,
                    forall|i: int| 0 <= i < self.cache@.len() ==> (#[trigger] self.cache@[i]).wf(),
                    self.cache@.len() <= self.hi_refill,
                    self.spilled@.len() + self.cache@.len() <= usize::MAX,
                    self.hi_mark == old(self).hi_mark,
                    self.lo_mark == old(self).lo_mark,
                    self.lo_refill == old(self).lo_refill,
                    self.hi_refill == old(self).hi_refill,
                decreases self.spilled@.len(),
            {
                let ghost pre = *self;
                let p = self.pop_from_file();
                let p = p.unwrap();
                self.cache.insert(0, p);
                proof {
                    assert(self.spilled@ + abs_seq(self.cache@) =~= pre.spilled@ + abs_seq(
                        pre.cache@,
                    ));
                }
            }
        }
        proof {
            assert(self.entries() == target);
            if old(self).cache@.len() > 0 {
                assert(self.entries() =~= old(self).entries().drop_last());
            } else {
                assert(old(self).spilled@.len() == 0);
                assert(self.entries() =~= old(self).entries());
                assert(old(self).entries() =~= Seq::<WalkAbs>::empty());
            }
        }
        r
    }
}

} // verus!

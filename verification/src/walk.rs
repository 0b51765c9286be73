//! Candidate walks and their repetition rules.

use vstd::prelude::*;

verus! {

/// How many times `x` occurs in `s`.
pub open spec fn count_in(s: Seq<u8>, x: u8) -> nat
    decreases s.len(),
{
    if s.len() == 0 {
        0
    } else {
        (if s.last() == x {
            1nat
        } else {
            0nat
        }) + count_in(s.drop_last(), x)
    }
}

pub proof fn lemma_count_in_push(s: Seq<u8>, y: u8, x: u8)
    ensures
        count_in(s.push(y), x) == count_in(s, x) + (if y == x {
            1nat
        } else {
            0nat
        }),
{
    assert(s.push(y).drop_last() =~= s);
}

pub proof fn lemma_count_in_le_len(s: Seq<u8>, x: u8)
    ensures
        count_in(s, x) <= s.len(),
    decreases s.len(),
{
    if s.len() > 0 {
        lemma_count_in_le_len(s.drop_last(), x);
    }
}

pub proof fn lemma_count_in_contains(s: Seq<u8>, x: u8)
    ensures
        count_in(s, x) > 0 <==> s.contains(x),
    decreases s.len(),
{
    if s.len() > 0 {
        lemma_count_in_contains(s.drop_last(), x);
        if s.last() == x {
            assert(s[s.len() - 1] == x);
        } else {
            if s.contains(x) {
                let i = choose|i: int| 0 <= i < s.len() && s[i] == x;
                assert(s.drop_last()[i] == x);
            }
            if s.drop_last().contains(x) {
                let i = choose|i: int| 0 <= i < s.drop_last().len() && s.drop_last()[i] == x;
                assert(s[i] == x);
            }
        }
    }
}

/// At least two distinct node ids occur more than once in `s`.
pub open spec fn has_double_repeat(s: Seq<u8>) -> bool {
    exists|a: u8, b: u8| a != b && count_in(s, a) > 1 && count_in(s, b) > 1
}

/// The repetition rule every retained walk must obey: its terminal node
/// occurs at most twice, and no two distinct nodes are repeated.
pub open spec fn repetition_valid(s: Seq<u8>) -> bool
    recommends
        s.len() > 0,
{
    &&& count_in(s, s.last()) <= 2
    &&& !has_double_repeat(s)
}

/// The mathematical content of a candidate walk: its node-id sequence and
/// its accumulated length.
pub ghost struct WalkAbs {
    pub states: Seq<u8>,
    pub length: u32,
}

/// A candidate walk: an ordered, never-empty sequence of node ids together
/// with the accumulated length of the edges along it.
pub struct TravelPath {
    pub states: Vec<u8>,
    pub length: u32,
}

impl TravelPath {
    /// A walk the frontier store can hold: never empty, and short enough for
    /// the spill record's two-byte state count.
    pub open spec fn wf(self) -> bool {
        1 <= self.states@.len() <= 0xFFFF
    }

    pub open spec fn abs(self) -> WalkAbs {
        WalkAbs { states: self.states@, length: self.length }
    }

    /// The walk's terminal node.
    pub fn get_end(&self) -> (r: u8)
        requires
            self.states@.len() > 0,
        ensures
            r == self.states@.last(),
    {
        self.states[self.states.len() - 1]
    }

    /// How many times `state_to_count` occurs in the walk.
    pub fn get_count_of_state(&self, state_to_count: u8) -> (count: u32)
        requires
            self.states@.len() <= 0xFFFF_FFFF,
        ensures
            count == count_in(self.states@, state_to_count),
    {
        let mut count: u32 = 0;
        let mut i: usize = 0;
        while i < self.states.len()
            invariant
                i <= self.states@.len() <= 0xFFFF_FFFF,
                count == count_in(self.states@.take(i as int), state_to_count),
            decreases self.states@.len() - i,
        {
            proof {
                lemma_count_in_push(
                    self.states@.take(i as int),
                    self.states@[i as int],
                    state_to_count,
                );
                assert(self.states@.take(i as int).push(self.states@[i as int]) =~= self.states@
                    .take(i as int + 1));
                lemma_count_in_le_len(self.states@.take(i as int), state_to_count);
            }
            if self.states[i] == state_to_count {
                count = count + 1;
            }
            i = i + 1;
        }
        proof {
            assert(self.states@.take(self.states@.len() as int) =~= self.states@);
        }
        count
    }

    /// Whether two distinct node ids are both repeated in the walk.
    pub fn has_a_double_repeat(&self) -> (r: bool)
        requires
            self.states@.len() <= 0xFFFF_FFFF,
        ensures
            r == has_double_repeat(self.states@),
    {
        let ghost s = self.states@;
        let mut first_rep: Option<u8> = None;
        let mut found = false;
        let mut i: usize = 0;
        while i < self.states.len()
            invariant
                i <= s.len() <= 0xFFFF_FFFF,
                s == self.states@,
                found ==> has_double_repeat(s),
                !found && first_rep is None ==> forall|k: int|
                    0 <= k < i ==> count_in(s, #[trigger] s[k]) <= 1,
                !found && first_rep is Some ==> count_in(s, first_rep->0) > 1,
                !found && first_rep is Some ==> forall|k: int|
                    0 <= k < i ==> (count_in(s, #[trigger] s[k]) <= 1 || s[k] == first_rep->0),
            decreases s.len() - i,
        {
            if !found {
                let x = self.states[i];
                let c = self.get_count_of_state(x);
                if c > 1 {
                    match first_rep {
                        None => { first_rep = Some(x); },
                        Some(v) => {
                            if x != v {
                                found = true;
                            }
                        },
                    }
                }
            }
            i = i + 1;
        }
        proof {
            if !found && has_double_repeat(s) {
                let (a, b) = choose|a: u8, b: u8|
                    a != b && count_in(s, a) > 1 && count_in(s, b) > 1;
                lemma_count_in_contains(s, a);
                lemma_count_in_contains(s, b);
                let ia = choose|ia: int| 0 <= ia < s.len() && s[ia] == a;
                let ib = choose|ib: int| 0 <= ib < s.len() && s[ib] == b;
                assert(count_in(s, s[ia]) > 1);
                assert(count_in(s, s[ib]) > 1);
                assert(false);
            }
        }
        found
    }

    /// The repetition rule of `repetition_valid`, decided executably.
    pub fn is_repetition_valid(&self) -> (r: bool)
        requires
            1 <= self.states@.len() <= 0xFFFF_FFFF,
        ensures
            r == repetition_valid(self.states@),
    {
        let e = self.get_end();
        let c = self.get_count_of_state(e);
        c <= 2 && !self.has_a_double_repeat()
    }
}

/// An element-for-element copy of a walk's state sequence.
pub fn clone_states(v: &Vec<u8>) -> (r: Vec<u8>)
    ensures
        r@ == v@,
{
    let mut r: Vec<u8> = Vec::new();
    let mut i: usize = 0;
    while i < v.len()
        invariant
            i <= v@.len(),
            r@ == v@.take(i as int),
        decreases v@.len() - i,
    {
        r.push(v[i]);
        proof {
            assert(v@.take(i as int).push(v@[i as int]) =~= v@.take(i as int + 1));
        }
        i = i + 1;
    }
    proof {
        assert(v@.take(v@.len() as int) =~= v@);
    }
    r
}

} // verus!

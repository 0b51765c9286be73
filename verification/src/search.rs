//! Worker logic: expanding a candidate walk into its filtered, ordered
//! children, and deciding goal acceptance at the end node.

use crate::graph::{Graph, StateConnection};
use crate::store::abs_seq;
use crate::walk::{clone_states, count_in, repetition_valid, TravelPath, WalkAbs};
use vstd::multiset::Multiset;
use vstd::prelude::*;
use vstd::seq_lib::*;

verus! {

/// The repetition rule on a walk's mathematical content.
pub open spec fn abs_valid(w: WalkAbs) -> bool {
    repetition_valid(w.states)
}

/// The adjacency list of the walk's terminal node.
pub open spec fn spec_adj(g: Graph, p: TravelPath) -> Seq<StateConnection> {
    g.nodes@[p.states@.last() as int].connections@
}

/// The child walk reached from `parent` through one adjacency entry.
pub open spec fn spec_child(parent: TravelPath, conn: StateConnection) -> WalkAbs {
    WalkAbs {
        states: parent.states@.push(conn.target),
        length: (parent.length + conn.distance) as u32,
    }
}

/// Every child of `p`, one per adjacency entry, in adjacency order.
pub open spec fn spec_children(g: Graph, p: TravelPath) -> Seq<WalkAbs> {
    Seq::new(spec_adj(g, p).len(), |i: int| spec_child(p, spec_adj(g, p)[i]))
}

/// The subsequence of `s` that survives the repetition rule.
pub open spec fn keep_valid(s: Seq<WalkAbs>) -> Seq<WalkAbs>
    decreases s.len(),
{
    if s.len() == 0 {
        Seq::empty()
    } else {
        let rest = keep_valid(s.drop_last());
        if abs_valid(s.last()) {
            rest.push(s.last())
        } else {
            rest
        }
    }
}

/// The children of `p` that survive the repetition rule, in adjacency order.
pub open spec fn valid_children(g: Graph, p: TravelPath) -> Seq<WalkAbs> {
    keep_valid(spec_children(g, p))
}

pub proof fn lemma_keep_valid_push(s: Seq<WalkAbs>, w: WalkAbs)
    ensures
        keep_valid(s.push(w)) == if abs_valid(w) {
            keep_valid(s).push(w)
        } else {
            keep_valid(s)
        },
{
    assert(s.push(w).drop_last() =~= s);
}

pub proof fn lemma_keep_valid_all_valid(s: Seq<WalkAbs>)
    ensures
        forall|i: int| 0 <= i < keep_valid(s).len() ==> abs_valid(#[trigger] keep_valid(s)[i]),
    decreases s.len(),
{
    if s.len() > 0 {
        lemma_keep_valid_all_valid(s.drop_last());
        let rest = keep_valid(s.drop_last());
        if abs_valid(s.last()) {
            assert forall|i: int| 0 <= i < keep_valid(s).len() implies abs_valid(
                #[trigger] keep_valid(s)[i],
            ) by {
                if i < rest.len() {
                    assert(keep_valid(s)[i] == rest[i]);
                } else {
                    assert(keep_valid(s)[i] == s.last());
                }
            }
        }
    }
}

/// How often the walk's terminal node occurs in it.
pub open spec fn term_count(w: WalkAbs) -> nat {
    count_in(w.states, w.states.last())
}

/// The sibling order: a destination visited less often comes first; among
/// equally visited destinations the larger accumulated length comes first.
pub open spec fn sib_le(a: WalkAbs, b: WalkAbs) -> bool {
    term_count(a) < term_count(b) || (term_count(a) == term_count(b) && a.length >= b.length)
}

pub open spec fn sib_sorted(s: Seq<WalkAbs>) -> bool {
    forall|i: int, j: int| 0 <= i < j < s.len() ==> sib_le(#[trigger] s[i], #[trigger] s[j])
}

/// The sibling order, decided executably.
fn sib_le_exec(a: &TravelPath, b: &TravelPath) -> (r: bool)
    requires
        a.wf(),
        b.wf(),
    ensures
        r == sib_le(a.abs(), b.abs()),
{
    let ca = a.get_count_of_state(a.get_end());
    let cb = b.get_count_of_state(b.get_end());
    ca < cb || (ca == cb && a.length >= b.length)
}

/// A copy of `parent` with one more state appended and the edge weight added.
pub fn make_child(parent: &TravelPath, conn: &StateConnection) -> (c: TravelPath)
    requires
        parent.wf(),
        parent.states@.len() + 1 <= 0xFFFF,
        parent.length + conn.distance <= u32::MAX,
    ensures
        c.abs() == spec_child(*parent, *conn),
        c.wf(),
{
    let mut states = clone_states(&parent.states);
    states.push(conn.target);
    TravelPath { states, length: parent.length + conn.distance }
}

/// Reorder walks into the sibling order, keeping exactly the same walks.
pub fn sort_siblings(v: Vec<TravelPath>) -> (r: Vec<TravelPath>)
    requires
        forall|i: int| 0 <= i < v@.len() ==> (#[trigger] v@[i]).wf(),
    ensures
        abs_seq(r@).to_multiset() == abs_seq(v@).to_multiset(),
        sib_sorted(abs_seq(r@)),
        forall|i: int| 0 <= i < r@.len() ==> (#[trigger] r@[i]).wf(),
{
    let mut input = v;
    let mut out: Vec<TravelPath> = Vec::new();
    proof {
        abs_seq(out@).to_multiset_ensures();
        vstd::multiset::lemma_multiset_empty_len(abs_seq(out@).to_multiset());
        assert(abs_seq(out@).to_multiset().add(abs_seq(input@).to_multiset()) =~= abs_seq(
            v@,
        ).to_multiset());
    }
    while input.len() > 0
        invariant
            forall|i: int| 0 <= i < input@.len() ==> (#[trigger] input@[i]).wf(),
            forall|i: int| 0 <= i < out@.len() ==> (#[trigger] out@[i]).wf(),
            abs_seq(out@).to_multiset().add(abs_seq(input@).to_multiset()) == abs_seq(
                v@,
            ).to_multiset(),
            sib_sorted(abs_seq(out@)),
            forall|i: int, j: int|
                0 <= i < out@.len() && 0 <= j < input@.len() ==> sib_le(
                    #[trigger] abs_seq(out@)[i],
                    #[trigger] abs_seq(input@)[j],
                ),
        decreases input@.len(),
    {
        let mut min_idx: usize = 0;
        let mut t: usize = 1;
        while t < input.len()
            invariant
                1 <= t <= input@.len(),
                (min_idx as int) < input@.len(),
                forall|i: int| 0 <= i < input@.len() ==> (#[trigger] input@[i]).wf(),
                forall|u: int|
                    0 <= u < t ==> sib_le(
                        abs_seq(input@)[min_idx as int],
                        #[trigger] abs_seq(input@)[u],
                    ),
            decreases input@.len() - t,
        {
            if !sib_le_exec(&input[min_idx], &input[t]) {
                proof {
                    assert(sib_le(input@[t as int].abs(), input@[min_idx as int].abs()));
                    assert forall|u: int| 0 <= u < t + 1 implies sib_le(
                        abs_seq(input@)[t as int],
                        #[trigger] abs_seq(input@)[u],
                    ) by {
                        if u < t {
                            assert(sib_le(abs_seq(input@)[min_idx as int], abs_seq(input@)[u]));
                        }
                    }
                }
                min_idx = t;
            }
            t = t + 1;
        }
        let ghost pre_in = input@;
        let ghost pre_out = out@;
        let m = input.remove(min_idx);
        out.push(m);
        proof {
            let a = m.abs();
            assert(abs_seq(pre_in).to_multiset().contains(a)) by {
                assert(abs_seq(pre_in)[min_idx as int] == a);
                abs_seq(pre_in).to_multiset_ensures();
            }
            assert(abs_seq(input@) =~= abs_seq(pre_in).remove(min_idx as int));
            assert(abs_seq(out@) =~= abs_seq(pre_out).push(a));
            abs_seq(pre_in).to_multiset_ensures();
            abs_seq(pre_out).to_multiset_ensures();
            assert(abs_seq(input@).to_multiset() =~= abs_seq(pre_in).to_multiset().remove(a));
            assert(abs_seq(out@).to_multiset() =~= abs_seq(pre_out).to_multiset().insert(a));
            assert(abs_seq(out@).to_multiset().add(abs_seq(input@).to_multiset()) =~= abs_seq(
                pre_out,
            ).to_multiset().add(abs_seq(pre_in).to_multiset()));
            assert forall|i: int, j: int|
                0 <= i < out@.len() && 0 <= j < input@.len() implies sib_le(
                #[trigger] abs_seq(out@)[i],
                #[trigger] abs_seq(input@)[j],
            ) by {
                let jj = if j < min_idx {
                    j
                } else {
                    j + 1
                };
                assert(abs_seq(input@)[j] == abs_seq(pre_in)[jj]);
                if i < pre_out.len() {
                    assert(sib_le(abs_seq(pre_out)[i], abs_seq(pre_in)[jj]));
                } else {
                    assert(abs_seq(out@)[i] == a);
                    assert(sib_le(a, abs_seq(pre_in)[jj]));
                }
            }
            assert forall|i: int, j: int|
                0 <= i < j < out@.len() implies sib_le(
                #[trigger] abs_seq(out@)[i],
                #[trigger] abs_seq(out@)[j],
            ) by {
                if j < pre_out.len() {
                    assert(sib_le(abs_seq(pre_out)[i], abs_seq(pre_out)[j]));
                } else {
                    assert(abs_seq(out@)[j] == a);
                    assert(sib_le(abs_seq(pre_out)[i], abs_seq(pre_in)[min_idx as int]));
                }
            }
        }
    }
    proof {
        abs_seq(input@).to_multiset_ensures();
        vstd::multiset::lemma_multiset_empty_len(abs_seq(input@).to_multiset());
        assert(abs_seq(out@).to_multiset() =~= abs_seq(out@).to_multiset().add(abs_seq(
            input@,
        ).to_multiset()));
    }
    out
}

/// The children of `path` that survive the repetition rule, in adjacency
/// order.
fn filtered_children(g: &Graph, path: &TravelPath) -> (kept: Vec<TravelPath>)
    requires
        g.wf(),
        path.wf(),
        (path.states@.last() as int) < g.nodes@.len(),
        path.states@.len() + 1 <= 0xFFFF,
        forall|i: int|
            0 <= i < spec_adj(*g, *path).len() ==> path.length + (#[trigger] spec_adj(
                *g,
                *path,
            )[i]).distance <= u32::MAX,
    ensures
        abs_seq(kept@) == valid_children(*g, *path),
        forall|i: int| 0 <= i < kept@.len() ==> (#[trigger] kept@[i]).wf(),
{
    let end = path.get_end();
    let mut kept: Vec<TravelPath> = Vec::new();
    let ghost sc = spec_children(*g, *path);
    let n = g.nodes[end as usize].connections.len();
    let mut i: usize = 0;
    proof {
        assert(abs_seq(kept@) =~= keep_valid(sc.take(0)));
    }
    while i < n
        invariant
            i <= n,
            n == spec_adj(*g, *path).len(),
            end == path.states@.last(),
            g.wf(),
            path.wf(),
            (path.states@.last() as int) < g.nodes@.len(),
            path.states@.len() + 1 <= 0xFFFF,
            forall|k: int|
                0 <= k < spec_adj(*g, *path).len() ==> path.length + (#[trigger] spec_adj(
                    *g,
                    *path,
                )[k]).distance <= u32::MAX,
            sc == spec_children(*g, *path),
            abs_seq(kept@) == keep_valid(sc.take(i as int)),
            forall|k: int| 0 <= k < kept@.len() ==> (#[trigger] kept@[k]).wf(),
        decreases n - i,
    {
        let conn = g.nodes[end as usize].connections[i];
        let c = make_child(path, &conn);
        let ghost pre = kept@;
        proof {
            assert(sc[i as int] == spec_child(*path, conn));
            assert(sc.take(i as int).push(sc[i as int]) =~= sc.take(i as int + 1));
            lemma_keep_valid_push(sc.take(i as int), sc[i as int]);
        }
        if c.is_repetition_valid() {
            kept.push(c);
            proof {
                assert(abs_seq(kept@) =~= abs_seq(pre).push(c.abs()));
            }
        }
        i = i + 1;
    }
    proof {
        assert(sc.take(sc.len() as int) =~= sc);
    }
    kept
}

/// Expand a walk into its surviving children, ordered by the sibling order.
/// Exactly the children that pass the repetition rule come back, every one of
/// them obeying it.
pub fn expand(g: &Graph, path: &TravelPath) -> (children: Vec<TravelPath>)
    requires
        g.wf(),
        path.wf(),
        (path.states@.last() as int) < g.nodes@.len(),
        path.states@.len() + 1 <= 0xFFFF,
        forall|i: int|
            0 <= i < spec_adj(*g, *path).len() ==> path.length + (#[trigger] spec_adj(
                *g,
                *path,
            )[i]).distance <= u32::MAX,
    ensures
        abs_seq(children@).to_multiset() == valid_children(*g, *path).to_multiset(),
        sib_sorted(abs_seq(children@)),
        forall|i: int| 0 <= i < children@.len() ==> (#[trigger] children@[i]).wf(),
        forall|i: int|
            0 <= i < children@.len() ==> abs_valid(#[trigger] abs_seq(children@)[i]),
{
    let kept = filtered_children(g, path);
    let children = sort_siblings(kept);
    proof {
        let vc = valid_children(*g, *path);
        lemma_keep_valid_all_valid(spec_children(*g, *path));
        abs_seq(children@).to_multiset_ensures();
        vc.to_multiset_ensures();
        assert forall|i: int| 0 <= i < children@.len() implies abs_valid(
            #[trigger] abs_seq(children@)[i],
        ) by {
            let w = abs_seq(children@)[i];
            assert(abs_seq(children@).contains(w));
            assert(abs_seq(children@).to_multiset().count(w) > 0);
            assert(vc.to_multiset().count(w) > 0);
            assert(vc.contains(w));
            let j = choose|j: int| 0 <= j < vc.len() && vc[j] == w;
            assert(abs_valid(vc[j]));
        }
    }
    children
}

/// Whether every node id of the graph occurs in the walk.
pub open spec fn spec_visits_all(g: Graph, p: TravelPath) -> bool {
    forall|id: int| 0 <= id < g.n() ==> p.states@.contains(#[trigger] (id as u8))
}

fn contains_state(v: &Vec<u8>, x: u8) -> (r: bool)
    ensures
        r == v@.contains(x),
{
    let mut i: usize = 0;
    while i < v.len()
        invariant
            i <= v@.len(),
            forall|k: int| 0 <= k < i ==> v@[k] != x,
        decreases v@.len() - i,
    {
        if v[i] == x {
            return true;
        }
        i = i + 1;
    }
    false
}

/// Whether the walk has visited every node of the graph at least once.
pub fn visits_all(g: &Graph, path: &TravelPath) -> (r: bool)
    requires
        g.wf(),
    ensures
        r == spec_visits_all(*g, *path),
{
    let mut id: usize = 0;
    while id < g.nodes.len()
        invariant
            id <= g.n() <= 256,
            forall|k: int| 0 <= k < id ==> path.states@.contains(#[trigger] (k as u8)),
        decreases g.n() - id,
    {
        if !contains_state(&path.states, id as u8) {
            proof {
                assert(0 <= (id as int) < g.n() && !path.states@.contains((id as int) as u8));
            }
            return false;
        }
        id = id + 1;
    }
    true
}

/// What a worker does with one walk it received.
pub enum WorkerAction {
    /// The walk's terminal is not the end node: push these children.
    Expand(Vec<TravelPath>),
    /// The walk ends at the end node and covers every node: report it.
    Accept,
    /// The walk ends at the end node but misses some node: a dead end.
    Discard,
}

/// One worker decision.  A walk is accepted for the solution sink exactly
/// when its terminal node is the end node and every graph node occurs in it;
/// a walk at the end node missing some node is discarded; any other walk is
/// expanded into its filtered, ordered children and never anything else.
pub fn worker_step(g: &Graph, path: &TravelPath, end_id: u8) -> (a: WorkerAction)
    requires
        g.wf(),
        path.wf(),
        (path.states@.last() as int) < g.nodes@.len(),
        path.states@.last() != end_id ==> path.states@.len() + 1 <= 0xFFFF,
        path.states@.last() != end_id ==> forall|i: int|
            0 <= i < spec_adj(*g, *path).len() ==> path.length + (#[trigger] spec_adj(
                *g,
                *path,
            )[i]).distance <= u32::MAX,
    ensures
        match a {
            WorkerAction::Accept => path.states@.last() == end_id && spec_visits_all(*g, *path),
            WorkerAction::Discard => path.states@.last() == end_id && !spec_visits_all(*g, *path),
            WorkerAction::Expand(children) => {
                &&& path.states@.last() != end_id
                &&& abs_seq(children@).to_multiset() == valid_children(*g, *path).to_multiset()
                &&& sib_sorted(abs_seq(children@))
                &&& forall|i: int| 0 <= i < children@.len() ==> (#[trigger] children@[i]).wf()
                &&& forall|i: int|
                    0 <= i < children@.len() ==> abs_valid(#[trigger] abs_seq(children@)[i])
            },
        },
{
    if path.get_end() != end_id {
        WorkerAction::Expand(expand(g, path))
    } else if visits_all(g, path) {
        WorkerAction::Accept
    } else {
        WorkerAction::Discard
    }
}

} // verus!

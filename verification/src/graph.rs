//! The immutable adjacency structure the search runs over, and its
//! construction from parsed edge rows.

use vstd::prelude::*;
use vstd::string::StringExecFns;

verus! {

/// A weighted adjacency entry.
#[derive(Clone, Copy)]
pub struct StateConnection {
    pub distance: u32,
    pub target: u8,
}

/// A node: its display name, dense integer id, and adjacency list.
pub struct StateNode {
    pub name: String,
    pub id: u8,
    pub connections: Vec<StateConnection>,
}

/// The graph: nodes indexed by their dense id.
pub struct Graph {
    pub nodes: Vec<StateNode>,
}

impl Graph {
    pub open spec fn n(self) -> nat {
        self.nodes@.len()
    }

    pub open spec fn wf(self) -> bool {
        &&& self.nodes@.len() <= 256
        &&& forall|i: int| 0 <= i < self.nodes@.len() ==> (#[trigger] self.nodes@[i]).id == i
        &&& forall|i: int, j: int|
            0 <= i < self.nodes@.len() && 0 <= j < self.nodes@[i].connections@.len() ==> (
            #[trigger] self.nodes@[i].connections@[j]).target < self.nodes@.len()
    }
}

/// One parsed line of the edge-list input.
pub struct EdgeRow {
    pub from: String,
    pub distance: u32,
    pub to: String,
}

/// `names` extended with `n`, unless `n` is already known.
pub open spec fn add_name(names: Seq<Seq<char>>, n: Seq<char>) -> Seq<Seq<char>> {
    if names.contains(n) {
        names
    } else {
        names.push(n)
    }
}

/// The node names of `rows`, ids assigned in order of first appearance, the
/// source name of a row before its target name.
pub open spec fn names_after(rows: Seq<EdgeRow>) -> Seq<Seq<char>>
    decreases rows.len(),
{
    if rows.len() == 0 {
        Seq::empty()
    } else {
        add_name(add_name(names_after(rows.drop_last()), rows.last().from@), rows.last().to@)
    }
}

/// Node `a` has an adjacency entry of weight `d` aimed at node `b`.
pub open spec fn has_edge(g: Graph, a: int, b: int, d: u32) -> bool {
    exists|j: int|
        0 <= j < g.nodes@[a].connections@.len() && (#[trigger] g.nodes@[a].connections@[j]).target
            == b && g.nodes@[a].connections@[j].distance == d
}

/// The graph records `row` symmetrically: some node carries the row's source
/// name, some node its target name, and each of the two aims an entry of the
/// row's distance at the other.
pub open spec fn row_connected(g: Graph, row: EdgeRow) -> bool {
    exists|f: int, t: int|
        0 <= f < g.n() && 0 <= t < g.n() && (#[trigger] g.nodes@[f]).name@ == row.from@ && (
        #[trigger] g.nodes@[t]).name@ == row.to@ && has_edge(g, t, f, row.distance) && has_edge(
            g,
            f,
            t,
            row.distance,
        )
}

/// The graph's nodes carry exactly the names of `names`, in id order.
pub open spec fn graph_named(g: Graph, names: Seq<Seq<char>>) -> bool {
    &&& g.nodes@.len() == names.len()
    &&& forall|i: int| 0 <= i < names.len() ==> (#[trigger] g.nodes@[i]).name@ == names[i]
}

/// The total number of adjacency entries over all of `nodes`.
pub open spec fn conn_count(nodes: Seq<StateNode>) -> int
    decreases nodes.len(),
{
    if nodes.len() == 0 {
        0
    } else {
        conn_count(nodes.drop_last()) + nodes.last().connections@.len()
    }
}

proof fn lemma_conn_count_push(nodes: Seq<StateNode>, node: StateNode)
    ensures
        conn_count(nodes.push(node)) == conn_count(nodes) + node.connections@.len(),
{
    assert(nodes.push(node).drop_last() =~= nodes);
}

proof fn lemma_conn_count_update(nodes: Seq<StateNode>, i: int, node: StateNode)
    requires
        0 <= i < nodes.len(),
    ensures
        conn_count(nodes.update(i, node)) == conn_count(nodes) + node.connections@.len()
            - nodes[i].connections@.len(),
    decreases nodes.len(),
{
    if i == nodes.len() - 1 {
        assert(nodes.update(i, node).drop_last() =~= nodes.drop_last());
        assert(nodes.update(i, node).last() == node);
    } else {
        assert(nodes.update(i, node).drop_last() =~= nodes.drop_last().update(i, node));
        assert(nodes.update(i, node).last() == nodes.last());
        lemma_conn_count_update(nodes.drop_last(), i, node);
    }
}

/// The dense id of `n` in the name table: its first index.
pub open spec fn id_of(names: Seq<Seq<char>>, n: Seq<char>) -> int {
    names.index_of_first(n)->0
}

/// The adjacency entries one row contributes to node `i`: the entry of the
/// target node first, then the entry of the source node.
pub open spec fn row_entries(row: EdgeRow, names: Seq<Seq<char>>, i: int) -> Seq<StateConnection> {
    let f = id_of(names, row.from@);
    let t = id_of(names, row.to@);
    (if t == i {
        seq![StateConnection { distance: row.distance, target: f as u8 }]
    } else {
        Seq::empty()
    }) + (if f == i {
        seq![StateConnection { distance: row.distance, target: t as u8 }]
    } else {
        Seq::empty()
    })
}

/// The exact adjacency sequence node `i` has after `rows`, in insertion
/// order.
pub open spec fn adj_after(rows: Seq<EdgeRow>, names: Seq<Seq<char>>, i: int) -> Seq<
    StateConnection,
>
    decreases rows.len(),
{
    if rows.len() == 0 {
        Seq::empty()
    } else {
        adj_after(rows.drop_last(), names, i) + row_entries(rows.last(), names, i)
    }
}

proof fn lemma_adj_after_step(rows: Seq<EdgeRow>, names: Seq<Seq<char>>, k: int, i: int)
    requires
        0 <= k < rows.len(),
    ensures
        adj_after(rows.take(k + 1), names, i) == adj_after(rows.take(k), names, i) + row_entries(
            rows[k],
            names,
            i,
        ),
{
    assert(rows.take(k + 1).drop_last() =~= rows.take(k));
    assert(rows.take(k + 1).last() == rows[k]);
}

/// The first occurrence of a name within a prefix of the table is its first
/// occurrence in the whole table.
proof fn lemma_first_index_from_prefix(
    p: Seq<Seq<char>>,
    names: Seq<Seq<char>>,
    x: Seq<char>,
    i: int,
)
    requires
        p.is_prefix_of(names),
        0 <= i < p.len(),
        p[i] == x,
        forall|j: int| 0 <= j < i ==> p[j] != x,
    ensures
        names.index_of_first(x) == Some(i),
{
    names.index_of_first_ensures(x);
    assert(names[i] == p[i]);
    assert(names.contains(x));
    let idx = names.index_of_first(x)->0;
    if idx < i {
        assert(names[idx] == p[idx]);
        assert(false);
    }
    if idx > i {
        assert(names[i] != x);
        assert(false);
    }
}

proof fn lemma_add_name_props(names: Seq<Seq<char>>, n: Seq<char>)
    ensures
        names.is_prefix_of(add_name(names, n)),
        add_name(names, n).contains(n),
        add_name(names, n).len() >= names.len(),
{
    if names.contains(n) {
        assert(names =~= add_name(names, n).subrange(0, names.len() as int));
    } else {
        assert(names.push(n)[names.len() as int] == n);
        assert(names =~= names.push(n).subrange(0, names.len() as int));
    }
}

proof fn lemma_prefix_contains(a: Seq<Seq<char>>, b: Seq<Seq<char>>, x: Seq<char>)
    requires
        a.is_prefix_of(b),
        a.contains(x),
    ensures
        b.contains(x),
{
    let i = choose|i: int| 0 <= i < a.len() && a[i] == x;
    assert(b[i] == a[i]);
}

proof fn lemma_prefix_trans(a: Seq<Seq<char>>, b: Seq<Seq<char>>, c: Seq<Seq<char>>)
    requires
        a.is_prefix_of(b),
        b.is_prefix_of(c),
    ensures
        a.is_prefix_of(c),
{
    assert(a =~= c.subrange(0, a.len() as int));
}

/// One row extends the name table by at most its two names, as a prefix.
proof fn lemma_names_step(rows: Seq<EdgeRow>, k: int)
    requires
        0 <= k < rows.len(),
    ensures
        names_after(rows.take(k)).is_prefix_of(names_after(rows.take(k + 1))),
        names_after(rows.take(k + 1)).contains(rows[k].from@),
        names_after(rows.take(k + 1)).contains(rows[k].to@),
        names_after(rows.take(k + 1)) == add_name(
            add_name(names_after(rows.take(k)), rows[k].from@),
            rows[k].to@,
        ),
{
    assert(rows.take(k + 1).drop_last() =~= rows.take(k));
    assert(rows.take(k + 1).last() == rows[k]);
    let n0 = names_after(rows.take(k));
    let n1 = add_name(n0, rows[k].from@);
    let n2 = add_name(n1, rows[k].to@);
    lemma_add_name_props(n0, rows[k].from@);
    lemma_add_name_props(n1, rows[k].to@);
    lemma_prefix_trans(n0, n1, n2);
    lemma_prefix_contains(n1, n2, rows[k].from@);
}

/// Every partial name table is a prefix of the full one.
proof fn lemma_names_take_prefix(rows: Seq<EdgeRow>, k: int)
    requires
        0 <= k <= rows.len(),
    ensures
        names_after(rows.take(k)).is_prefix_of(names_after(rows)),
    decreases rows.len() - k,
{
    if k == rows.len() {
        assert(rows.take(k) =~= rows);
        assert(names_after(rows) =~= names_after(rows).subrange(
            0,
            names_after(rows).len() as int,
        ));
    } else {
        lemma_names_take_prefix(rows, k + 1);
        lemma_names_step(rows, k);
        lemma_prefix_trans(
            names_after(rows.take(k)),
            names_after(rows.take(k + 1)),
            names_after(rows),
        );
    }
}

/// A graph that only gained nodes and adjacency entries keeps recording a row.
proof fn lemma_row_connected_mono(g1: Graph, g2: Graph, row: EdgeRow)
    requires
        row_connected(g1, row),
        g1.nodes@.len() <= g2.nodes@.len(),
        forall|i: int|
            0 <= i < g1.nodes@.len() ==> (#[trigger] g2.nodes@[i]).name@ == g1.nodes@[i].name@,
        forall|i: int|
            0 <= i < g1.nodes@.len() ==> g1.nodes@[i].connections@.is_prefix_of(
                (#[trigger] g2.nodes@[i]).connections@,
            ),
    ensures
        row_connected(g2, row),
{
    let (f, t) = choose|f: int, t: int|
        0 <= f < g1.n() && 0 <= t < g1.n() && (#[trigger] g1.nodes@[f]).name@ == row.from@ && (
        #[trigger] g1.nodes@[t]).name@ == row.to@ && has_edge(g1, t, f, row.distance) && has_edge(
            g1,
            f,
            t,
            row.distance,
        );
    let j1 = choose|j: int|
        0 <= j < g1.nodes@[t].connections@.len() && (#[trigger] g1.nodes@[t].connections@[j]).target
            == f && g1.nodes@[t].connections@[j].distance == row.distance;
    let j2 = choose|j: int|
        0 <= j < g1.nodes@[f].connections@.len() && (#[trigger] g1.nodes@[f].connections@[j]).target
            == t && g1.nodes@[f].connections@[j].distance == row.distance;
    assert(g2.nodes@[t].connections@[j1] == g1.nodes@[t].connections@[j1]);
    assert(g2.nodes@[f].connections@[j2] == g1.nodes@[f].connections@[j2]);
    assert(has_edge(g2, t, f, row.distance));
    assert(has_edge(g2, f, t, row.distance));
}

/// The dense id already given to `name`: the first node carrying it, if any.
fn find_name(g: &Graph, name: &String) -> (r: Option<usize>)
    ensures
        match r {
            Some(i) => {
                &&& i < g.nodes@.len()
                &&& g.nodes@[i as int].name@ == name@
                &&& forall|j: int| 0 <= j < i ==> (#[trigger] g.nodes@[j]).name@ != name@
            },
            None => forall|i: int|
                0 <= i < g.nodes@.len() ==> (#[trigger] g.nodes@[i]).name@ != name@,
        },
{
    let mut i: usize = 0;
    while i < g.nodes.len()
        invariant
            i <= g.nodes@.len(),
            forall|k: int| 0 <= k < i ==> (#[trigger] g.nodes@[k]).name@ != name@,
        decreases g.nodes@.len() - i,
    {
        if g.nodes[i].name == *name {
            return Some(i);
        }
        i = i + 1;
    }
    None
}

/// Find the id of `name` in `g`, creating a fresh node for it if absent.
/// Keeps the graph in step with the name table: afterwards the graph is named
/// by `add_name(names, name@)`.
fn find_or_insert(g: &mut Graph, name: &String, Ghost(names): Ghost<Seq<Seq<char>>>) -> (r: Option<
    usize,
>)
    requires
        old(g).wf(),
        graph_named(*old(g), names),
    ensures
        final(g).wf(),
        match r {
            Some(i) => {
                &&& graph_named(*final(g), add_name(names, name@))
                &&& i < final(g).nodes@.len()
                &&& final(g).nodes@[i as int].name@ == name@
                &&& old(g).nodes@.len() <= final(g).nodes@.len()
                &&& forall|k: int|
                    0 <= k < old(g).nodes@.len() ==> (#[trigger] final(g).nodes@[k]) == old(
                        g,
                    ).nodes@[k]
                &&& forall|j: int| 0 <= j < i ==> (#[trigger] final(g).nodes@[j]).name@ != name@
                &&& forall|k: int|
                    old(g).nodes@.len() <= k < final(g).nodes@.len() ==> (#[trigger] final(g).nodes@[k]).connections@ == Seq::<StateConnection>::empty()
                &&& conn_count(final(g).nodes@) == conn_count(old(g).nodes@)
            },
            None => add_name(names, name@).len() > 256 && *final(g) == *old(g),
        },
{
    match find_name(g, name) {
        Some(i) => {
            proof {
                assert(names.contains(name@)) by {
                    assert(names[i as int] == name@);
                }
            }
            Some(i)
        },
        None => {
            proof {
                if names.contains(name@) {
                    let i = choose|i: int| 0 <= i < names.len() && names[i] == name@;
                    assert(g.nodes@[i].name@ == name@);
                }
            }
            if g.nodes.len() >= 256 {
                return None;
            }
            let id = g.nodes.len();
            g.nodes.push(
                StateNode { name: name.clone(), id: id as u8, connections: Vec::new() },
            );
            proof {
                assert(graph_named(*g, names.push(name@)));
                lemma_conn_count_push(old(g).nodes@, g.nodes@.last());
                assert(g.nodes@ =~= old(g).nodes@.push(g.nodes@.last()));
            }
            Some(id)
        },
    }
}

/// Append an adjacency entry to node `a`.
fn add_connection(g: &mut Graph, a: usize, c: StateConnection)
    requires
        a < old(g).nodes@.len(),
    ensures
        final(g).nodes@.len() == old(g).nodes@.len(),
        final(g).nodes@[a as int].name@ == old(g).nodes@[a as int].name@,
        final(g).nodes@[a as int].id == old(g).nodes@[a as int].id,
        final(g).nodes@[a as int].connections@ == old(g).nodes@[a as int].connections@.push(c),
        forall|k: int|
            0 <= k < old(g).nodes@.len() && k != a ==> (#[trigger] final(g).nodes@[k]) == old(
                g,
            ).nodes@[k],
        conn_count(final(g).nodes@) == conn_count(old(g).nodes@) + 1,
    {
        let node = &mut g.nodes[a];
        node.connections.push(c);
        proof {
            assert(g.nodes@ =~= old(g).nodes@.update(a as int, g.nodes@[a as int]));
            lemma_conn_count_update(old(g).nodes@, a as int, g.nodes@[a as int]);
        }
    }

/// Build the graph from parsed edge rows.  Node ids are handed out in order
/// of first appearance of a name, each row inserting its adjacency entry
/// symmetrically, the entry of the target node first.  `None` only when the
/// rows name more nodes than the one-byte id space can hold.
#[verifier::rlimit(100)]
pub fn load_states(rows: &Vec<EdgeRow>) -> (r: Option<Graph>)
    ensures
        match r {
            Some(g) => {
                &&& g.wf()
                &&& graph_named(g, names_after(rows@))
                &&& forall|k: int| 0 <= k < rows@.len() ==> row_connected(g, #[trigger] rows@[k])
                &&& conn_count(g.nodes@) == 2 * rows@.len()
                &&& forall|i: int|
                    0 <= i < g.nodes@.len() ==> (#[trigger] g.nodes@[i]).connections@ == adj_after(
                        rows@,
                        names_after(rows@),
                        i,
                    )
            },
            None => names_after(rows@).len() > 256,
        },
{
    let mut g = Graph { nodes: Vec::new() };
    let mut k: usize = 0;
    proof {
        assert(graph_named(g, names_after(rows@.take(0))));
    }
    while k < rows.len()
        invariant
            k <= rows@.len(),
            g.wf(),
            graph_named(g, names_after(rows@.take(k as int))),
            forall|t: int| 0 <= t < k ==> row_connected(g, #[trigger] rows@[t]),
            conn_count(g.nodes@) == 2 * k,
            forall|i: int|
                0 <= i < g.nodes@.len() ==> (#[trigger] g.nodes@[i]).connections@ == adj_after(
                    rows@.take(k as int),
                    names_after(rows@),
                    i,
                ),
            forall|i: int|
                g.nodes@.len() <= i < names_after(rows@).len() ==> #[trigger] adj_after(
                    rows@.take(k as int),
                    names_after(rows@),
                    i,
                ) == Seq::<StateConnection>::empty(),
        decreases rows@.len() - k,
    {
        let ghost pre_names = names_after(rows@.take(k as int));
        let ghost g0 = g;
        proof {
            lemma_names_step(rows@, k as int);
        }
        let row = &rows[k];
        let ghost full = names_after(rows@);
        let from_id = match find_or_insert(&mut g, &row.from, Ghost(pre_names)) {
            Some(i) => i,
            None => {
                proof {
                    lemma_add_name_props(add_name(pre_names, rows@[k as int].from@), rows@[k as int].to@);
                    lemma_names_take_prefix(rows@, k as int + 1);
                }
                return None;
            },
        };
        let ghost g_mid = g;
        let ghost mid_names = add_name(pre_names, rows@[k as int].from@);
        let to_id = match find_or_insert(&mut g, &row.to, Ghost(mid_names)) {
            Some(i) => i,
            None => {
                proof {
                    lemma_names_take_prefix(rows@, k as int + 1);
                }
                return None;
            },
        };
        let ghost g1 = g;
        add_connection(&mut g, to_id, StateConnection { distance: row.distance, target: from_id as u8 });
        let ghost g2 = g;
        add_connection(&mut g, from_id, StateConnection { distance: row.distance, target: to_id as u8 });
        proof {
            assert forall|t: int| 0 <= t < k implies row_connected(g, #[trigger] rows@[t]) by {
                assert forall|i: int| 0 <= i < g0.nodes@.len() implies g0.nodes@[i].connections@.is_prefix_of(
                    (#[trigger] g.nodes@[i]).connections@,
                ) by {
                    assert(g0.nodes@[i].connections@ == g1.nodes@[i].connections@);
                    if i == to_id && i == from_id {
                        assert(g0.nodes@[i].connections@ =~= g.nodes@[i].connections@.subrange(
                            0,
                            g0.nodes@[i].connections@.len() as int,
                        ));
                    } else {
                        assert(g0.nodes@[i].connections@ =~= g.nodes@[i].connections@.subrange(
                            0,
                            g0.nodes@[i].connections@.len() as int,
                        ));
                    }
                }
                lemma_row_connected_mono(g0, g, rows@[t]);
            }
            assert(row_connected(g, rows@[k as int])) by {
                let f = from_id as int;
                let t = to_id as int;
                assert(g.nodes@[f].name@ == rows@[k as int].from@);
                assert(g.nodes@[t].name@ == rows@[k as int].to@);
                if f == t {
                    let c = g.nodes@[t].connections@;
                    assert(c[c.len() - 2].target == from_id as u8);
                    assert(c[c.len() - 1].target == to_id as u8);
                    assert(has_edge(g, t, f, rows@[k as int].distance));
                } else {
                    let ct = g.nodes@[t].connections@;
                    let cf = g.nodes@[f].connections@;
                    assert(ct[ct.len() - 1].target == from_id as u8);
                    assert(cf[cf.len() - 1].target == to_id as u8);
                    assert(has_edge(g, t, f, rows@[k as int].distance));
                    assert(has_edge(g, f, t, rows@[k as int].distance));
                }
            }
            let kk = k as int;
            let rowk = rows@[kk];
            let p3 = names_after(rows@.take(kk + 1));
            lemma_names_take_prefix(rows@, kk + 1);
            assert(graph_named(g1, p3));
            assert(p3[from_id as int] == rowk.from@);
            assert forall|j: int| 0 <= j < from_id implies p3[j] != rowk.from@ by {
                assert(g1.nodes@[j] == g_mid.nodes@[j]);
                assert(g_mid.nodes@[j].name@ != rowk.from@);
            }
            lemma_first_index_from_prefix(p3, full, rowk.from@, from_id as int);
            assert(p3[to_id as int] == rowk.to@);
            assert forall|j: int| 0 <= j < to_id implies p3[j] != rowk.to@ by {
                assert(g1.nodes@[j].name@ != rowk.to@);
            }
            lemma_first_index_from_prefix(p3, full, rowk.to@, to_id as int);
            assert(id_of(full, rowk.from@) == from_id as int);
            assert(id_of(full, rowk.to@) == to_id as int);
            let back = StateConnection { distance: rowk.distance, target: from_id as u8 };
            let fwd = StateConnection { distance: rowk.distance, target: to_id as u8 };
            assert forall|i: int| 0 <= i < g.nodes@.len() implies (
            #[trigger] g.nodes@[i]).connections@ == adj_after(rows@.take(kk + 1), full, i) by {
                lemma_adj_after_step(rows@, full, kk, i);
                let prev = adj_after(rows@.take(kk), full, i);
                assert(g1.nodes@[i].connections@ == prev) by {
                    if i < g0.nodes@.len() {
                        assert(g_mid.nodes@[i] == g0.nodes@[i]);
                        assert(g1.nodes@[i] == g_mid.nodes@[i]);
                    } else {
                        assert(i < p3.len());
                        assert(p3.len() <= full.len());
                        assert(adj_after(rows@.take(kk), full, i)
                            == Seq::<StateConnection>::empty());
                        if i < g_mid.nodes@.len() {
                            assert(g_mid.nodes@[i].connections@
                                == Seq::<StateConnection>::empty());
                            assert(g1.nodes@[i] == g_mid.nodes@[i]);
                        } else {
                            assert(g1.nodes@[i].connections@
                                == Seq::<StateConnection>::empty());
                        }
                    }
                }
                let re = row_entries(rowk, full, i);
                if i == to_id as int && i == from_id as int {
                    assert(g2.nodes@[i].connections@ == g1.nodes@[i].connections@.push(back));
                    assert(g.nodes@[i].connections@ == g2.nodes@[i].connections@.push(fwd));
                    assert(g.nodes@[i].connections@ =~= prev + re);
                } else if i == to_id as int {
                    assert(g2.nodes@[i].connections@ == g1.nodes@[i].connections@.push(back));
                    assert(g.nodes@[i] == g2.nodes@[i]);
                    assert(g.nodes@[i].connections@ =~= prev + re);
                } else if i == from_id as int {
                    assert(g2.nodes@[i] == g1.nodes@[i]);
                    assert(g.nodes@[i].connections@ == g2.nodes@[i].connections@.push(fwd));
                    assert(g.nodes@[i].connections@ =~= prev + re);
                } else {
                    assert(g2.nodes@[i] == g1.nodes@[i]);
                    assert(g.nodes@[i] == g2.nodes@[i]);
                    assert(g.nodes@[i].connections@ =~= prev + re);
                }
            }
            assert forall|i: int|
                g.nodes@.len() <= i < full.len() implies #[trigger] adj_after(
                rows@.take(kk + 1),
                full,
                i,
            ) == Seq::<StateConnection>::empty() by {
                lemma_adj_after_step(rows@, full, kk, i);
                assert(from_id < g.nodes@.len() && to_id < g.nodes@.len());
                assert(row_entries(rowk, full, i) =~= Seq::<StateConnection>::empty());
                assert(g0.nodes@.len() <= i);
                assert(adj_after(rows@.take(kk), full, i) == Seq::<StateConnection>::empty());
                assert(adj_after(rows@.take(kk + 1), full, i) =~= Seq::<
                    StateConnection,
                >::empty());
            }
        }
        k = k + 1;
    }
    proof {
        assert(rows@.take(rows@.len() as int) =~= rows@);
    }
    Some(g)
}

/// The ids of the start and end nodes: the first node named `WA` and the
/// first node named `ME`, or `None` if either name is absent.
pub fn get_start_and_end(states: &Graph) -> (r: Option<(u8, u8)>)
    requires
        states.wf(),
    ensures
        match r {
            Some(p) => {
                &&& (p.0 as int) < states.nodes@.len()
                &&& states.nodes@[p.0 as int].name@ == "WA"@
                &&& (p.1 as int) < states.nodes@.len()
                &&& states.nodes@[p.1 as int].name@ == "ME"@
            },
            None => !((exists|i: int|
                0 <= i < states.nodes@.len() && (#[trigger] states.nodes@[i]).name@ == "WA"@) && (
            exists|i: int|
                0 <= i < states.nodes@.len() && (#[trigger] states.nodes@[i]).name@ == "ME"@)),
        },
{
    let start_name: String = String::from_str("WA");
    let end_name: String = String::from_str("ME");
    let mut start: Option<usize> = None;
    let mut end: Option<usize> = None;
    let mut i: usize = 0;
    while i < states.nodes.len()
        invariant
            i <= states.nodes@.len(),
            states.nodes@.len() <= 256,
            start_name@ == "WA"@,
            end_name@ == "ME"@,
            match start {
                Some(s) => s < states.nodes@.len() && states.nodes@[s as int].name@ == "WA"@,
                None => forall|k: int| 0 <= k < i ==> (#[trigger] states.nodes@[k]).name@ != "WA"@,
            },
            match end {
                Some(e) => e < states.nodes@.len() && states.nodes@[e as int].name@ == "ME"@,
                None => forall|k: int| 0 <= k < i ==> (#[trigger] states.nodes@[k]).name@ != "ME"@,
            },
        decreases states.nodes@.len() - i,
    {
        if start.is_none() && states.nodes[i].name == start_name {
            start = Some(i);
        }
        if end.is_none() && states.nodes[i].name == end_name {
            end = Some(i);
        }
        i = i + 1;
    }
    match (start, end) {
        (Some(s), Some(e)) => Some((s as u8, e as u8)),
        _ => None,
    }
}

} // verus!

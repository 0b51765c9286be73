//! Drives the closed search loop in one thread: the frontier store feeds a
//! worker whose children flow back into the store, and accepted walks flow
//! into the solution sink.

use statewalk::graph::{Graph, StateConnection, StateNode};
use statewalk::search::{worker_step, WorkerAction};
use statewalk::sink::SolutionSink;
use statewalk::store::PathStack;
use statewalk::walk::TravelPath;

fn node(name: &str, id: u8, conns: Vec<(u32, u8)>) -> StateNode {
    StateNode {
        name: name.to_string(),
        id,
        connections: conns
            .into_iter()
            .map(|(distance, target)| StateConnection { distance, target })
            .collect(),
    }
}

#[test]
fn search_finds_the_shortest_covering_walk() {
    // Nodes A(start), B, C, D(end); edges A-B=1, B-C=1, C-D=1, B-D=5.
    let g = Graph {
        nodes: vec![
            node("A", 0, vec![(1, 1)]),
            node("B", 1, vec![(1, 0), (1, 2), (5, 3)]),
            node("C", 2, vec![(1, 1), (1, 3)]),
            node("D", 3, vec![(1, 2), (5, 1)]),
        ],
    };
    let end_id: u8 = 3;

    // Tight thresholds so the loop also crosses the spill boundary.
    let mut store = PathStack::with_thresholds(4, 2, 2, 3);
    store.push(TravelPath { states: vec![0], length: 0 });

    let mut sink = SolutionSink::new();
    let mut written: Vec<u32> = Vec::new();
    let mut accepted: Vec<u32> = Vec::new();

    while let Some(path) = store.pop() {
        match worker_step(&g, &path, end_id) {
            WorkerAction::Expand(children) => {
                for child in children {
                    store.push(child);
                }
            }
            WorkerAction::Accept => {
                accepted.push(path.length);
                if sink.offer(path.length) {
                    written.push(path.length);
                }
            }
            WorkerAction::Discard => {}
        }
    }

    // The bounded-repetition rules make the search space finite; on this
    // graph exactly the walks [A,B,C,D] (3) and [A,B,C,B,D] (8) cover every
    // node and end at D.
    accepted.sort();
    assert_eq!(accepted, vec![3, 8]);
    // The sink records the optimum, and its writes strictly decrease.
    assert_eq!(sink.best, 3);
    assert_eq!(*written.last().unwrap(), 3);
    for pair in written.windows(2) {
        assert!(pair[0] > pair[1]);
    }
}

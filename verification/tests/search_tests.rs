use statewalk::graph::{Graph, StateConnection, StateNode};
use statewalk::search::{expand, visits_all, worker_step, WorkerAction};
use statewalk::walk::TravelPath;

fn node(name: &str, id: u8, conns: Vec<(u32, u8)>) -> StateNode {
    StateNode {
        name: name.to_string(),
        id,
        connections: conns
            .into_iter()
            .map(|(distance, target)| StateConnection { distance, target })
            .collect(),
    }
}

/// Nodes A(start), B, C, D(end); edges A-B=1, B-C=1, C-D=1, B-D=5.
fn diamond() -> Graph {
    Graph {
        nodes: vec![
            node("A", 0, vec![(1, 1)]),
            node("B", 1, vec![(1, 0), (1, 2), (5, 3)]),
            node("C", 2, vec![(1, 1), (1, 3)]),
            node("D", 3, vec![(1, 2), (5, 1)]),
        ],
    }
}

#[test]
fn complete_walk_is_accepted() {
    let g = diamond();
    let p = TravelPath { states: vec![0, 1, 2, 3], length: 3 };
    assert!(matches!(worker_step(&g, &p, 3), WorkerAction::Accept));
}

#[test]
fn incomplete_walk_at_end_node_is_discarded() {
    let g = diamond();
    // [A, B, D] reaches the end node but never visited C: a dead end, not
    // expanded any further.
    let p = TravelPath { states: vec![0, 1, 3], length: 6 };
    assert!(matches!(worker_step(&g, &p, 3), WorkerAction::Discard));
}

#[test]
fn single_node_repeat_walk_is_still_accepted() {
    let g = diamond();
    // [A, B, C, B, D]: B occurs twice, still only one repeated node.
    let p = TravelPath { states: vec![0, 1, 2, 1, 3], length: 8 };
    assert!(matches!(worker_step(&g, &p, 3), WorkerAction::Accept));
}

#[test]
fn walk_off_the_end_node_is_expanded() {
    let g = diamond();
    let p = TravelPath { states: vec![0], length: 0 };
    match worker_step(&g, &p, 3) {
        WorkerAction::Expand(children) => {
            assert_eq!(children.len(), 1);
            assert_eq!(children[0].states, vec![0, 1]);
            assert_eq!(children[0].length, 1);
        }
        _ => panic!("expected an expansion"),
    }
}

#[test]
fn expansion_orders_siblings_least_visited_then_longest() {
    let g = diamond();
    let p = TravelPath { states: vec![0, 1], length: 1 };
    let children = expand(&g, &p);
    // Children of B: back to A (A already visited once -> count 2),
    // to C (fresh, hop 1) and to D (fresh, hop 5).  Fresh destinations come
    // first, the longer hop before the shorter; the revisit comes last.
    assert_eq!(children.len(), 3);
    assert_eq!(children[0].states, vec![0, 1, 3]);
    assert_eq!(children[0].length, 6);
    assert_eq!(children[1].states, vec![0, 1, 2]);
    assert_eq!(children[1].length, 2);
    assert_eq!(children[2].states, vec![0, 1, 0]);
    assert_eq!(children[2].length, 2);
}

#[test]
fn expansion_drops_children_that_double_repeat() {
    let g = diamond();
    // [A, B, A] is a valid walk, but its only child [A, B, A, B] would
    // repeat both A and B, so nothing survives.
    let p = TravelPath { states: vec![0, 1, 0], length: 2 };
    let children = expand(&g, &p);
    assert_eq!(children.len(), 0);
}

#[test]
fn expansion_drops_third_visit_of_destination() {
    let g = diamond();
    // From [B, C, B] the child [B, C, B, C]... repeats two nodes; the child
    // going back to A or D is fine.  From [C, B, C] the child [C, B, C, B]
    // doubles both; [C, B, C, D] only repeats C.
    let p = TravelPath { states: vec![2, 1, 2], length: 2 };
    let children = expand(&g, &p);
    let state_lists: Vec<Vec<u8>> = children.iter().map(|c| c.states.clone()).collect();
    assert!(state_lists.contains(&vec![2, 1, 2, 3]));
    assert!(!state_lists.contains(&vec![2, 1, 2, 1]));
}

#[test]
fn visits_all_checks_every_node() {
    let g = diamond();
    let all = TravelPath { states: vec![0, 1, 2, 3], length: 3 };
    let missing = TravelPath { states: vec![0, 1, 3], length: 6 };
    assert!(visits_all(&g, &all));
    assert!(!visits_all(&g, &missing));
}

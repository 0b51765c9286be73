use statewalk::graph::{get_start_and_end, load_states, EdgeRow, Graph, StateNode};

fn row(from: &str, distance: u32, to: &str) -> EdgeRow {
    EdgeRow { from: from.to_string(), distance, to: to.to_string() }
}

#[test]
fn ids_follow_first_appearance() {
    let rows = vec![row("WA", 1, "OR"), row("OR", 2, "ID"), row("ID", 3, "WA")];
    let g = load_states(&rows).unwrap();
    let names: Vec<&str> = g.nodes.iter().map(|n| n.name.as_str()).collect();
    assert_eq!(names, vec!["WA", "OR", "ID"]);
    for (i, n) in g.nodes.iter().enumerate() {
        assert_eq!(n.id as usize, i);
    }
}

#[test]
fn edges_are_inserted_symmetrically() {
    let rows = vec![row("WA", 4, "OR")];
    let g = load_states(&rows).unwrap();
    assert_eq!(g.nodes.len(), 2);
    let wa = &g.nodes[0];
    let or = &g.nodes[1];
    assert_eq!(wa.connections.len(), 1);
    assert_eq!(or.connections.len(), 1);
    assert_eq!(wa.connections[0].target, 1);
    assert_eq!(wa.connections[0].distance, 4);
    assert_eq!(or.connections[0].target, 0);
    assert_eq!(or.connections[0].distance, 4);
}

#[test]
fn repeated_rows_keep_every_entry() {
    // A multigraph: the same pair twice gives two adjacency entries a side.
    let rows = vec![row("WA", 1, "OR"), row("WA", 9, "OR")];
    let g = load_states(&rows).unwrap();
    assert_eq!(g.nodes.len(), 2);
    let wa: Vec<(u32, u8)> = g.nodes[0].connections.iter().map(|c| (c.distance, c.target)).collect();
    let or: Vec<(u32, u8)> = g.nodes[1].connections.iter().map(|c| (c.distance, c.target)).collect();
    assert_eq!(wa, vec![(1, 1), (9, 1)]);
    assert_eq!(or, vec![(1, 0), (9, 0)]);
}

#[test]
fn start_and_end_are_found_by_name() {
    let rows = vec![row("WA", 1, "MT"), row("MT", 2, "ME")];
    let g = load_states(&rows).unwrap();
    let (start, end) = get_start_and_end(&g).unwrap();
    assert_eq!(g.nodes[start as usize].name, "WA");
    assert_eq!(g.nodes[end as usize].name, "ME");
}

#[test]
fn missing_start_or_end_is_reported() {
    let rows = vec![row("OR", 1, "ID")];
    let g = load_states(&rows).unwrap();
    assert!(get_start_and_end(&g).is_none());
    let rows = vec![row("WA", 1, "ID")];
    let g = load_states(&rows).unwrap();
    assert!(get_start_and_end(&g).is_none());
}

#[test]
fn too_many_names_are_rejected() {
    // 258 distinct names: one more node than the one-byte id space can hold.
    let mut rows = Vec::new();
    for i in 0..257 {
        rows.push(row(&format!("N{}", i), 1, &format!("N{}", i + 1)));
    }
    assert!(load_states(&rows).is_none());
    // 256 distinct names still fit.
    let mut rows = Vec::new();
    for i in 0..255 {
        rows.push(row(&format!("N{}", i), 1, &format!("N{}", i + 1)));
    }
    let g = load_states(&rows).unwrap();
    assert_eq!(g.nodes.len(), 256);
}

#[test]
fn empty_graph_has_no_start() {
    let g = Graph { nodes: Vec::<StateNode>::new() };
    assert!(get_start_and_end(&g).is_none());
}

use swindex::{Edge, EdgeKind, Graph, GraphError, GraphSource, Node, NodeKind, SliceSource};

/// Four nodes with the edges 0-1, 1-2, 2-3 and 0-2: twice the total weight is 8.
fn diamond_graph() -> (Vec<Node>, Vec<Edge>) {
    let n0 = Node::fresh(NodeKind::new("v"));
    let n1 = Node::fresh(NodeKind::new("v"));
    let n2 = Node::fresh(NodeKind::new("v"));
    let n3 = Node::fresh(NodeKind::new("v"));
    let edges = vec![
        Edge::fresh(n0.id, n1.id, EdgeKind::new("e")),
        Edge::fresh(n1.id, n2.id, EdgeKind::new("e")),
        Edge::fresh(n2.id, n3.id, EdgeKind::new("e")),
        Edge::fresh(n0.id, n2.id, EdgeKind::new("e")),
    ];
    (vec![n0, n1, n2, n3], edges)
}

#[test]
fn empty_graph_has_zero_total_weight() {
    let src = SliceSource::new(&[], &[]);
    let g = Graph::from_source(&src).ok().unwrap();
    assert_eq!(g.node_count(), 0);
    assert_eq!(g.twice_total_weight(), 0);
}

#[test]
fn diamond_has_expected_structure() {
    let (nodes, edges) = diamond_graph();
    let src = SliceSource::new(&nodes, &edges);
    let g = Graph::from_source(&src).ok().unwrap();

    assert_eq!(g.node_count(), 4);
    assert_eq!(g.twice_total_weight(), 8);

    let i0 = g.index_of(nodes[0].id).unwrap();
    let i1 = g.index_of(nodes[1].id).unwrap();
    let i2 = g.index_of(nodes[2].id).unwrap();
    let i3 = g.index_of(nodes[3].id).unwrap();
    assert_eq!(g.degree(i0), 2);
    assert_eq!(g.degree(i1), 2);
    assert_eq!(g.degree(i2), 3);
    assert_eq!(g.degree(i3), 1);
}

#[test]
fn adjacency_is_symmetric() {
    let (nodes, edges) = diamond_graph();
    let src = SliceSource::new(&nodes, &edges);
    let g = Graph::from_source(&src).ok().unwrap();

    for u in 0..g.node_count() {
        for &(v, w) in g.neighbors(u) {
            let v_has_u = g.neighbors(v).iter().any(|&(x, xw)| x == u && xw == w);
            assert!(v_has_u, "asymmetry: {u}->{v} present, reverse missing");
        }
    }
}

#[test]
fn dangling_edge_errors() {
    let n0 = Node::fresh(NodeKind::new("v"));
    let n1 = Node::fresh(NodeKind::new("v"));
    let nodes = vec![n0.clone()];
    let edges = vec![Edge::fresh(n0.id, n1.id, EdgeKind::new("e"))];
    let src = SliceSource::new(&nodes, &edges);

    match Graph::from_source(&src) {
        Err(GraphError::DanglingEdge { which }) => assert_eq!(which, n1.id),
        Ok(_) => panic!("expected a dangling edge"),
    }
}

#[test]
fn dangling_source_is_reported_before_target() {
    let n0 = Node::fresh(NodeKind::new("v"));
    let n1 = Node::fresh(NodeKind::new("v"));
    let edges = vec![Edge::fresh(n0.id, n1.id, EdgeKind::new("e"))];
    let src = SliceSource::new(&[], &edges);
    match Graph::from_source(&src) {
        Err(e) => {
            let text = format!(
                "edge endpoint not present in source's node set: {}",
                n0.id.to_string()
            );
            assert_eq!(e.to_string(), text);
        }
        Ok(_) => panic!("expected a dangling edge"),
    }
}

#[test]
fn parallel_edges_add_up_and_self_loops_count_once() {
    let a = Node::fresh(NodeKind::new("v"));
    let b = Node::fresh(NodeKind::new("v"));
    let edges = vec![
        Edge::fresh(a.id, b.id, EdgeKind::new("e")),
        Edge::fresh(b.id, a.id, EdgeKind::new("e")),
        Edge::fresh(a.id, a.id, EdgeKind::new("e")),
    ];
    let nodes = vec![a.clone(), b.clone(), a.clone()];
    let src = SliceSource::new(&nodes, &edges);
    let g = Graph::from_source(&src).ok().unwrap();
    assert_eq!(g.node_count(), 2);
    assert_eq!(g.node_id(0), a.id);
    assert_eq!(g.node_id(1), b.id);
    assert_eq!(g.degree(0), 3);
    assert_eq!(g.degree(1), 2);
    assert_eq!(g.self_loop(0), 1);
    assert_eq!(g.self_loop(1), 0);
    assert_eq!(g.twice_total_weight(), 5);
    assert!(g.index_of(Node::fresh(NodeKind::new("v")).id).is_none());
}

/// A parcel and its owner.
fn make_demo() -> (Vec<Node>, Vec<Edge>) {
    let parcel = Node::fresh(NodeKind::new("parcel"));
    let owner = Node::fresh(NodeKind::new("owner"));
    let nodes = vec![parcel.clone(), owner.clone()];
    let edges = vec![Edge::fresh(owner.id, parcel.id, EdgeKind::new("owns"))];
    (nodes, edges)
}

#[test]
fn empty_source_yields_nothing() {
    let src = SliceSource::new(&[], &[]);
    assert_eq!(src.nodes().len(), 0);
    assert_eq!(src.edges().len(), 0);
    assert_eq!(src.node_count_hint(), Some(0));
    assert_eq!(src.edge_count_hint(), Some(0));
}

#[test]
fn yields_exactly_the_input() {
    let (nodes, edges) = make_demo();
    let src = SliceSource::new(&nodes, &edges);

    assert_eq!(src.nodes(), nodes);
    assert_eq!(src.edges(), edges);
}

#[test]
fn source_iteration_is_repeatable() {
    let (nodes, edges) = make_demo();
    let src = SliceSource::new(&nodes, &edges);

    let first = src.nodes();
    let second = src.nodes();
    assert_eq!(first, second, "calling nodes() twice must return the same sequence");

    let first_e = src.edges();
    let second_e = src.edges();
    assert_eq!(first_e, second_e);
}

#[test]
fn size_hints_match_slice_lengths() {
    let (nodes, edges) = make_demo();
    let src = SliceSource::new(&nodes, &edges);
    assert_eq!(src.node_count_hint(), Some(2));
    assert_eq!(src.edge_count_hint(), Some(1));
    assert_eq!(src.node_len(), 2);
    assert_eq!(src.edge_len(), 1);
}

fn count_via_trait<G: GraphSource>(g: &G) -> (usize, usize) {
    (g.nodes().len(), g.edges().len())
}

#[test]
fn works_through_generic_trait_bound() {
    let (nodes, edges) = make_demo();
    let src = SliceSource::new(&nodes, &edges);
    assert_eq!(count_via_trait(&src), (2, 1));
}

#[test]
fn a_slice_has_no_labels() {
    let (nodes, edges) = make_demo();
    let src = SliceSource::new(&nodes, &edges);
    assert_eq!(src.label_of(nodes[0].id), None);
}

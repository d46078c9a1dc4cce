use slotgraph::adj_graph::AdjGraph;
use slotgraph::slotgraph::{EdgeKey, NodeKey, SlotGraph};

#[test]
fn adjacency_of_one_edge() {
    let mut ag: AdjGraph<&str, &str> = AdjGraph::with_key();
    let n1 = ag.insert_node("n1");
    let n2 = ag.insert_node("n2");
    let e1 = ag.insert_edge(n1, n2, "e1").unwrap();

    assert_eq!(ag.out_edges(n1), Some(vec![e1]));
    assert_eq!(ag.out_edges(n2), Some(vec![]));

    assert_eq!(ag.out_nodes(n1), Some(vec![n2]));
    assert_eq!(ag.out_nodes(n2), Some(vec![]));

    assert_eq!(ag.in_edges(n1), Some(vec![]));
    assert_eq!(ag.in_edges(n2), Some(vec![e1]));

    assert_eq!(ag.in_nodes(n1), Some(vec![]));
    assert_eq!(ag.in_nodes(n2), Some(vec![n1]));
}

#[test]
fn unknown_node_has_no_entry() {
    let mut ag: AdjGraph<u32, u32> = AdjGraph::new();
    let n = ag.insert_node(1);
    let mut elsewhere: SlotGraph<u32, u32> = SlotGraph::new();
    let _ = elsewhere.insert_node(0);
    let stranger = elsewhere.insert_node(0);
    assert_eq!(ag.out_edges(n), Some(vec![]));
    assert_eq!(ag.in_edges(n), Some(vec![]));
    assert_eq!(ag.out_nodes(n), Some(vec![]));
    assert_eq!(ag.in_nodes(n), Some(vec![]));
    assert_eq!(ag.out_edges(stranger), None);
    assert_eq!(ag.in_edges(stranger), None);
    assert_eq!(ag.out_nodes(stranger), None);
    assert_eq!(ag.in_nodes(stranger), None);
    assert_eq!(ag.out_edges(NodeKey::default()), None);
}

#[test]
fn edge_between_unknown_nodes_is_refused() {
    let mut ag: AdjGraph<u32, u32> = AdjGraph::new();
    let n = ag.insert_node(1);
    let mut elsewhere: SlotGraph<u32, u32> = SlotGraph::new();
    let _ = elsewhere.insert_node(0);
    let stranger = elsewhere.insert_node(0);
    let other = NodeKey::default();
    assert_eq!(ag.insert_edge(stranger, n, 5), Err(stranger));
    assert_eq!(ag.insert_edge(n, stranger, 5), Err(stranger));
    assert_eq!(ag.insert_edge(stranger, other, 5), Err(stranger));
    assert_eq!(ag.insert_edge(other, stranger, 5), Err(other));
    assert_eq!(ag.as_graph().edge_len(), 0);
    assert_eq!(ag.out_edges(n), Some(vec![]));
    assert_eq!(ag.in_edges(n), Some(vec![]));
}

#[test]
fn lists_keep_insertion_order() {
    let mut ag: AdjGraph<u32, u32> = AdjGraph::new();
    let a = ag.insert_node(1);
    let b = ag.insert_node(2);
    let c = ag.insert_node(3);
    let ab = ag.insert_edge(a, b, 10).unwrap();
    let ac = ag.insert_edge(a, c, 20).unwrap();
    let ab2 = ag.insert_edge(a, b, 30).unwrap();
    let ca = ag.insert_edge(c, a, 40).unwrap();
    let aa = ag.insert_edge(a, a, 50).unwrap();
    assert_eq!(ag.out_edges(a), Some(vec![ab, ac, ab2, aa]));
    assert_eq!(ag.out_nodes(a), Some(vec![b, c, b, a]));
    assert_eq!(ag.in_edges(a), Some(vec![ca, aa]));
    assert_eq!(ag.in_nodes(a), Some(vec![c, a]));
    assert_eq!(ag.in_edges(b), Some(vec![ab, ab2]));
    assert_eq!(ag.in_nodes(b), Some(vec![a, a]));
    assert_eq!(ag.out_edges(c), Some(vec![ca]));
    assert_eq!(ag.in_edges(c), Some(vec![ac]));
}

#[test]
fn every_edge_stands_once_in_each_list() {
    let mut ag: AdjGraph<u32, u32> = AdjGraph::new();
    let nodes: Vec<NodeKey> = (0..5u32).map(|i| ag.insert_node(i)).collect();
    let mut edges: Vec<(EdgeKey, NodeKey, NodeKey)> = Vec::new();
    for i in 0..5usize {
        for j in 0..5usize {
            if (i + 2 * j) % 3 != 0 {
                let e = ag.insert_edge(nodes[i], nodes[j], (i * 10 + j) as u32).unwrap();
                edges.push((e, nodes[i], nodes[j]));
            }
        }
    }
    for (e, from, to) in edges.iter() {
        let out_edges = ag.out_edges(*from).unwrap();
        let out_nodes = ag.out_nodes(*from).unwrap();
        let in_edges = ag.in_edges(*to).unwrap();
        let in_nodes = ag.in_nodes(*to).unwrap();
        let at_out: Vec<usize> = (0..out_edges.len()).filter(|&i| out_edges[i] == *e).collect();
        let at_in: Vec<usize> = (0..in_edges.len()).filter(|&i| in_edges[i] == *e).collect();
        assert_eq!(at_out.len(), 1);
        assert_eq!(at_in.len(), 1);
        assert_eq!(out_nodes[at_out[0]], *to);
        assert_eq!(in_nodes[at_in[0]], *from);
        assert_eq!(ag.as_graph().get_edge_nodes(*e), Some((*from, *to)));
    }
    assert_eq!(ag.as_graph().edge_len(), edges.len());
    assert_eq!(ag.as_graph().node_len(), 5);
}

#[test]
fn index_reads_payloads_through_the_graph() {
    let mut ag: AdjGraph<&str, u32> = AdjGraph::new();
    let a = ag.insert_node("a");
    let b = ag.insert_node("b");
    let e = ag.insert_edge(a, b, 9).unwrap();
    assert_eq!(ag.as_graph().get_node(a), Some(&"a"));
    assert_eq!(ag.as_graph().get_node(b), Some(&"b"));
    assert_eq!(ag.as_graph().get_edge(e), Some(&9));
}

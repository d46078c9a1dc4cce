use slotgraph::slotgraph::{EdgeKey, NodeKey, SlotGraph};

#[test]
fn edge_iter() {
    let mut sg = SlotGraph::new();
    let n1 = sg.insert_node("n1");
    let n2 = sg.insert_node("n2");
    let e1 = sg.insert_edge(n1, n2, "e1");
    let mut edge_iter = sg.iter_edges().into_iter();
    assert_eq!(edge_iter.next(), Some((e1, &"e1")));
    assert_eq!(edge_iter.next(), None);
}

#[test]
fn empty_graph_has_nothing() {
    let sg: SlotGraph<u32, u32> = SlotGraph::new();
    assert_eq!(sg.node_len(), 0);
    assert_eq!(sg.edge_len(), 0);
    assert!(sg.iter_nodes().is_empty());
    assert!(sg.iter_edges().is_empty());
    assert!(sg.iter_edge_nodes().is_empty());
    let by_key: SlotGraph<u32, u32> = SlotGraph::with_key();
    assert_eq!(by_key.node_len(), 0);
    let by_default: SlotGraph<u32, u32> = SlotGraph::default();
    assert_eq!(by_default.edge_len(), 0);
}

#[test]
fn node_insert_get_remove() {
    let mut sg: SlotGraph<String, ()> = SlotGraph::new();
    let a = sg.insert_node("a".to_string());
    let b = sg.insert_node("b".to_string());
    assert_ne!(a, b);
    assert_eq!(sg.node_len(), 2);
    assert_eq!(sg.get_node(a), Some(&"a".to_string()));
    assert_eq!(sg.get_node(b), Some(&"b".to_string()));
    assert_eq!(sg.remove_node(a), Some("a".to_string()));
    assert_eq!(sg.node_len(), 1);
    assert_eq!(sg.get_node(a), None);
    assert_eq!(sg.remove_node(a), None);
    assert_eq!(sg.get_node(b), Some(&"b".to_string()));
}

#[test]
fn removed_node_key_is_never_reused() {
    let mut sg: SlotGraph<u32, ()> = SlotGraph::new();
    let n1 = sg.insert_node(1);
    assert_eq!(sg.remove_node(n1), Some(1));
    assert_eq!(sg.get_node(n1), None);
    let fresh = sg.insert_node(2);
    assert_ne!(fresh, n1);
    assert_eq!(sg.get_node(n1), None);
    assert_eq!(sg.remove_node(n1), None);
    assert_eq!(sg.get_node(fresh), Some(&2));
}

#[test]
fn removed_key_stays_dead_through_many_reuses() {
    let mut sg: SlotGraph<u32, ()> = SlotGraph::new();
    let first = sg.insert_node(0);
    assert_eq!(sg.remove_node(first), Some(0));
    let mut seen: Vec<NodeKey> = vec![first];
    for i in 1..50u32 {
        let k = sg.insert_node(i);
        assert!(!seen.contains(&k));
        assert_eq!(sg.get_node(first), None);
        assert_eq!(sg.get_node(k), Some(&i));
        assert_eq!(sg.remove_node(k), Some(i));
        assert_eq!(sg.get_node(k), None);
        seen.push(k);
    }
    assert_eq!(sg.node_len(), 0);
}

#[test]
fn edge_keeps_dangling_endpoint() {
    let mut sg: SlotGraph<&str, &str> = SlotGraph::new();
    let n1 = sg.insert_node("n1");
    let n2 = sg.insert_node("n2");
    let e = sg.insert_edge(n1, n2, "e");
    assert_eq!(sg.remove_node(n1), Some("n1"));
    assert_eq!(sg.get_edge_nodes(e), Some((n1, n2)));
    assert_eq!(sg.get_node(n1), None);
    assert_eq!(sg.get_edge(e), Some(&"e"));
    assert_eq!(sg.edge_len(), 1);
}

#[test]
fn edge_endpoints_do_not_change() {
    let mut sg: SlotGraph<u32, u32> = SlotGraph::new();
    let a = sg.insert_node(1);
    let b = sg.insert_node(2);
    let e = sg.insert_edge(a, b, 10);
    let c = sg.insert_node(3);
    let other = sg.insert_edge(b, c, 20);
    assert_eq!(sg.get_edge_nodes(e), Some((a, b)));
    *sg.get_edge_mut(e).unwrap() = 11;
    assert_eq!(sg.get_edge_nodes(e), Some((a, b)));
    assert_eq!(sg.remove_edge(other), Some(20));
    assert_eq!(sg.remove_node(b), Some(2));
    let d = sg.insert_node(4);
    let again = sg.insert_edge(d, a, 30);
    assert_eq!(sg.get_edge_nodes(e), Some((a, b)));
    assert_eq!(sg.get_edge_nodes(again), Some((d, a)));
    assert_eq!(sg.get_edge_nodes(other), None);
    assert_eq!(sg.get_edge(e), Some(&11));
}

#[test]
fn edge_insert_does_not_check_endpoints() {
    let mut sg: SlotGraph<u32, u32> = SlotGraph::new();
    let a = sg.insert_node(1);
    assert_eq!(sg.remove_node(a), Some(1));
    let nowhere = NodeKey::default();
    let e = sg.insert_edge(a, nowhere, 5);
    assert_eq!(sg.get_edge_nodes(e), Some((a, nowhere)));
    assert_eq!(sg.get_node(nowhere), None);
    assert_eq!(sg.edge_len(), 1);
    assert_eq!(sg.node_len(), 0);
}

#[test]
fn edge_remove_and_reuse() {
    let mut sg: SlotGraph<(), u32> = SlotGraph::new();
    let n = sg.insert_node(());
    let e1 = sg.insert_edge(n, n, 1);
    let e2 = sg.insert_edge(n, n, 2);
    assert_eq!(sg.remove_edge(e1), Some(1));
    assert_eq!(sg.remove_edge(e1), None);
    assert_eq!(sg.get_edge(e1), None);
    assert_eq!(sg.get_edge_nodes(e1), None);
    let e3 = sg.insert_edge(n, n, 3);
    assert_ne!(e3, e1);
    assert_ne!(e3, e2);
    assert_eq!(sg.get_edge(e1), None);
    assert_eq!(sg.get_edge(e2), Some(&2));
    assert_eq!(sg.get_edge(e3), Some(&3));
    assert_eq!(sg.edge_len(), 2);
}

#[test]
fn payloads_survive_removal_of_others() {
    let mut sg: SlotGraph<u32, ()> = SlotGraph::new();
    let keys: Vec<NodeKey> = (0..10u32).map(|i| sg.insert_node(i)).collect();
    assert_eq!(sg.remove_node(keys[0]), Some(0));
    assert_eq!(sg.remove_node(keys[4]), Some(4));
    assert_eq!(sg.remove_node(keys[9]), Some(9));
    for (i, k) in keys.iter().enumerate() {
        let expected = if i == 0 || i == 4 || i == 9 { None } else { Some(i as u32) };
        assert_eq!(sg.get_node(*k).copied(), expected);
    }
    assert_eq!(sg.node_len(), 7);
}

#[test]
fn get_node_mut_writes_in_place() {
    let mut sg: SlotGraph<u32, ()> = SlotGraph::new();
    let a = sg.insert_node(1);
    let b = sg.insert_node(2);
    *sg.get_node_mut(a).unwrap() += 40;
    assert_eq!(sg.get_node(a), Some(&41));
    assert_eq!(sg.get_node(b), Some(&2));
    assert_eq!(sg.remove_node(a), Some(41));
    assert!(sg.get_node_mut(a).is_none());
}

#[test]
fn iter_nodes_lists_each_live_node_once() {
    let mut sg: SlotGraph<u32, ()> = SlotGraph::new();
    let a = sg.insert_node(1);
    let b = sg.insert_node(2);
    let c = sg.insert_node(3);
    assert_eq!(sg.remove_node(b), Some(2));
    let mut listed: Vec<(NodeKey, u32)> =
        sg.iter_nodes().into_iter().map(|(k, v)| (k, *v)).collect();
    listed.sort();
    let mut expected = vec![(a, 1), (c, 3)];
    expected.sort();
    assert_eq!(listed, expected);
}

#[test]
fn iter_nodes_mut_writes_every_node() {
    let mut sg: SlotGraph<u32, ()> = SlotGraph::new();
    let a = sg.insert_node(1);
    let b = sg.insert_node(2);
    for (_, v) in sg.iter_nodes_mut() {
        *v *= 10;
    }
    assert_eq!(sg.get_node(a), Some(&10));
    assert_eq!(sg.get_node(b), Some(&20));
}

#[test]
fn into_node_iter_gives_payloads_back() {
    let mut sg: SlotGraph<String, ()> = SlotGraph::new();
    let a = sg.insert_node("a".to_string());
    let b = sg.insert_node("b".to_string());
    let mut listed = sg.into_node_iter();
    listed.sort();
    let mut expected = vec![(a, "a".to_string()), (b, "b".to_string())];
    expected.sort();
    assert_eq!(listed, expected);
}

#[test]
fn iter_edges_mut_writes_every_edge() {
    let mut sg: SlotGraph<(), u32> = SlotGraph::new();
    let n = sg.insert_node(());
    let m = sg.insert_node(());
    let e1 = sg.insert_edge(n, m, 1);
    let e2 = sg.insert_edge(m, n, 2);
    for (_, v) in sg.iter_edges_mut() {
        *v += 100;
    }
    assert_eq!(sg.get_edge(e1), Some(&101));
    assert_eq!(sg.get_edge(e2), Some(&102));
    assert_eq!(sg.get_edge_nodes(e1), Some((n, m)));
    assert_eq!(sg.get_edge_nodes(e2), Some((m, n)));
}

#[test]
fn into_edge_iter_gives_payloads_back() {
    let mut sg: SlotGraph<(), u32> = SlotGraph::new();
    let n = sg.insert_node(());
    let e1 = sg.insert_edge(n, n, 1);
    let e2 = sg.insert_edge(n, n, 2);
    assert_eq!(sg.remove_edge(e1), Some(1));
    let e3 = sg.insert_edge(n, n, 3);
    let mut listed = sg.into_edge_iter();
    listed.sort();
    let mut expected = vec![(e2, 2), (e3, 3)];
    expected.sort();
    assert_eq!(listed, expected);
}

#[test]
fn iter_edge_nodes_lists_endpoints() {
    let mut sg: SlotGraph<(), ()> = SlotGraph::new();
    let a = sg.insert_node(());
    let b = sg.insert_node(());
    let e1 = sg.insert_edge(a, b, ());
    let e2 = sg.insert_edge(b, b, ());
    let mut listed = sg.iter_edge_nodes();
    listed.sort();
    let mut expected = vec![(e1, (a, b)), (e2, (b, b))];
    expected.sort();
    assert_eq!(listed, expected);
}

#[test]
fn default_keys_are_null_and_never_live() {
    let mut sg: SlotGraph<u32, u32> = SlotGraph::new();
    let n = sg.insert_node(1);
    let e = sg.insert_edge(n, n, 2);
    assert_ne!(n, NodeKey::default());
    assert_ne!(e, EdgeKey::default());
    assert_eq!(NodeKey::default(), NodeKey::default());
    assert_eq!(sg.get_node(NodeKey::default()), None);
    assert_eq!(sg.get_edge(EdgeKey::default()), None);
    assert_eq!(sg.remove_node(NodeKey::default()), None);
}

#[test]
fn node_and_edge_keys_are_counted_apart() {
    let mut sg: SlotGraph<u32, u32> = SlotGraph::new();
    let n = sg.insert_node(7);
    let e = sg.insert_edge(n, n, 8);
    assert_eq!(sg.remove_node(n), Some(7));
    assert_eq!(sg.get_edge(e), Some(&8));
    assert_eq!(sg.remove_edge(e), Some(8));
    assert_eq!(sg.node_len(), 0);
    assert_eq!(sg.edge_len(), 0);
}

#[test]
fn key_words_round_trip() {
    let mut sg: SlotGraph<u32, u32> = SlotGraph::new();
    let n = sg.insert_node(1);
    let e = sg.insert_edge(n, n, 2);
    assert_eq!(NodeKey::from_bits(n.to_bits()), Some(n));
    assert_eq!(EdgeKey::from_bits(e.to_bits()), Some(e));
    assert_eq!(n.to_bits(), e.to_bits());
    assert_eq!(NodeKey::from_bits(0), None);
    assert_eq!(EdgeKey::from_bits(2), None);
    assert_eq!(NodeKey::from_bits(NodeKey::default().to_bits()), Some(NodeKey::default()));
}

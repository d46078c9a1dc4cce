use slotgraph::handle::Handle;
use slotgraph::SlotGraph;

#[test]
fn plain_graph_nodes() {
    let mut sg: SlotGraph<&str> = SlotGraph::new();
    let a = sg.insert_node("a");
    let b = sg.insert_node("b");
    assert!(sg.contains_node(a));
    assert!(sg.contains_node(b));
    assert!(!sg.contains_node(Handle::null()));
    assert_eq!(sg.get(a), Some(&"a"));
    *sg.get_mut(b).unwrap() = "c";
    assert_eq!(sg.get(b), Some(&"c"));
    assert_eq!(sg.get(Handle::default()), None);
    assert!(sg.get_mut(Handle::default()).is_none());
    assert_eq!(sg.iter_in(a), Some(vec![]));
    assert_eq!(sg.iter_out(a), Some(vec![]));
    let empty: SlotGraph<u8> = SlotGraph::with_key();
    assert!(!empty.contains_node(Handle::null()));
}

#[test]
fn plain_graph_edge_goes_out_of_from_and_into_to() {
    let mut sg = SlotGraph::new();
    let n1 = sg.insert_node(());
    let n2 = sg.insert_node(());
    sg.insert_edge(n1, n2).unwrap();
    assert_eq!(sg.iter_out(n1), Some(vec![n2]));
    assert_eq!(sg.iter_in(n2), Some(vec![n1]));
    assert_eq!(sg.iter_in(n1), Some(vec![]));
    assert_eq!(sg.iter_out(n2), Some(vec![]));
    assert!(sg.contains_edge(n1, n2));
    assert!(!sg.contains_edge(n2, n1));
    assert!(!sg.contains_edge(n1, n1));
}

#[test]
fn plain_graph_refuses_unknown_endpoints() {
    let mut sg: SlotGraph<u8> = SlotGraph::new();
    let a = sg.insert_node(1);
    let mut elsewhere: SlotGraph<u8> = SlotGraph::new();
    let _ = elsewhere.insert_node(0);
    let stranger = elsewhere.insert_node(0);
    let null = Handle::null();
    assert_eq!(sg.insert_edge(stranger, a), Err(stranger));
    assert_eq!(sg.insert_edge(a, stranger), Err(stranger));
    assert_eq!(sg.insert_edge(null, stranger), Err(null));
    assert_eq!(sg.remove_edge(stranger, a), Err(stranger));
    assert_eq!(sg.remove_edge(a, stranger), Err(stranger));
    assert_eq!(sg.remove_edge(stranger, null), Err(stranger));
    assert!(!sg.contains_edge(stranger, a));
    assert!(!sg.contains_edge(a, stranger));
    assert_eq!(sg.iter_in(stranger), None);
    assert_eq!(sg.iter_out(stranger), None);
    assert_eq!(sg.iter_out(a), Some(vec![]));
    assert_eq!(sg.iter_in(a), Some(vec![]));
}

#[test]
fn plain_graph_remove_edge_swaps_last_into_gap() {
    let mut sg: SlotGraph<u8> = SlotGraph::new();
    let a = sg.insert_node(0);
    let b = sg.insert_node(1);
    let c = sg.insert_node(2);
    let d = sg.insert_node(3);
    sg.insert_edge(a, b).unwrap();
    sg.insert_edge(a, c).unwrap();
    sg.insert_edge(a, b).unwrap();
    sg.insert_edge(a, d).unwrap();
    sg.insert_edge(c, b).unwrap();
    assert_eq!(sg.iter_out(a), Some(vec![b, c, b, d]));
    assert_eq!(sg.iter_in(b), Some(vec![a, a, c]));
    assert_eq!(sg.remove_edge(a, b), Ok(()));
    assert_eq!(sg.iter_out(a), Some(vec![d, c, b]));
    assert_eq!(sg.iter_in(b), Some(vec![c, a]));
    assert!(sg.contains_edge(a, b));
    assert_eq!(sg.remove_edge(a, b), Ok(()));
    assert_eq!(sg.iter_out(a), Some(vec![d, c]));
    assert_eq!(sg.iter_in(b), Some(vec![c]));
    assert!(!sg.contains_edge(a, b));
    assert_eq!(sg.remove_edge(a, b), Ok(()));
    assert_eq!(sg.iter_out(a), Some(vec![d, c]));
    assert_eq!(sg.iter_in(b), Some(vec![c]));
    assert_eq!(sg.iter_in(c), Some(vec![a]));
    assert_eq!(sg.iter_in(d), Some(vec![a]));
}

#[test]
fn plain_graph_self_loop() {
    let mut sg: SlotGraph<u8> = SlotGraph::new();
    let a = sg.insert_node(0);
    sg.insert_edge(a, a).unwrap();
    assert!(sg.contains_edge(a, a));
    assert_eq!(sg.iter_out(a), Some(vec![a]));
    assert_eq!(sg.iter_in(a), Some(vec![a]));
    assert_eq!(sg.remove_edge(a, a), Ok(()));
    assert!(!sg.contains_edge(a, a));
    assert_eq!(sg.iter_out(a), Some(vec![]));
    assert_eq!(sg.iter_in(a), Some(vec![]));
}

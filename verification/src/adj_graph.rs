//! The adjacency index: a directed graph that also keeps, for each node, the
//! list of its outgoing edges and the list of its incoming edges.
//!
//! Each list holds pairs of an edge key and the node key at the other end,
//! in the order in which the edges were added. Nodes and edges can only be
//! added, so every node of the graph is tracked and every entry names a live
//! edge.
use vstd::prelude::*;

use crate::handle::Handle;
use crate::lists::{lemma_push_contains, lemma_push_no_duplicates, occurrences, HandleLists};
use crate::slotgraph::{group_key_handles, Edge, EdgeKey, GraphView, NodeKey, SlotGraph};
use crate::slots::SLOT_LIMIT;

verus! {

broadcast use group_key_handles;

/// A directed graph with per-node lists of outgoing and incoming edges.
pub struct AdjGraph<N, E> {
    sg: SlotGraph<N, E>,
    adj_in: HandleLists<(EdgeKey, NodeKey)>,
    adj_out: HandleLists<(EdgeKey, NodeKey)>,
}

impl<N, E> AdjGraph<N, E> {
    /// The nodes and edges of the graph.
    pub closed spec fn graph(&self) -> GraphView<N, E> {
        self.sg@
    }

    /// For each tracked node, its outgoing edges: each with the node it
    /// leads to.
    pub closed spec fn out_lists(&self) -> Map<NodeKey, Seq<(EdgeKey, NodeKey)>> {
        Map::new(
            |k: NodeKey| self.adj_out@.contains_key(k.handle()),
            |k: NodeKey| self.adj_out@[k.handle()],
        )
    }

    /// For each tracked node, its incoming edges: each with the node it
    /// comes from.
    pub closed spec fn in_lists(&self) -> Map<NodeKey, Seq<(EdgeKey, NodeKey)>> {
        Map::new(
            |k: NodeKey| self.adj_in@.contains_key(k.handle()),
            |k: NodeKey| self.adj_in@[k.handle()],
        )
    }

    /// The lists say what the graph says: the tracked nodes are the nodes of
    /// the graph, no list repeats an entry, and an entry stands in a node's
    /// list exactly when the graph has that edge at that node.
    pub closed spec fn wf(&self) -> bool {
        let g = self.sg@;
        &&& self.sg.wf()
        &&& self.adj_in.wf()
        &&& self.adj_out.wf()
        &&& forall|h: Handle| #[trigger]
            self.adj_out@.contains_key(h) == g.nodes.contains_key(NodeKey::of(h))
        &&& forall|h: Handle| #[trigger]
            self.adj_in@.contains_key(h) == g.nodes.contains_key(NodeKey::of(h))
        &&& forall|h: Handle| #[trigger]
            self.adj_out@.contains_key(h) ==> self.adj_out@[h].no_duplicates()
        &&& forall|h: Handle| #[trigger]
            self.adj_in@.contains_key(h) ==> self.adj_in@[h].no_duplicates()
        &&& forall|h: Handle, e: EdgeKey, n: NodeKey|
            self.adj_out@.contains_key(h) ==> (#[trigger] self.adj_out@[h].contains((e, n)) <==> (
            g.edges.contains_key(e) && g.edges[e].from == NodeKey::of(h) && g.edges[e].to == n))
        &&& forall|h: Handle, e: EdgeKey, n: NodeKey|
            self.adj_in@.contains_key(h) ==> (#[trigger] self.adj_in@[h].contains((e, n)) <==> (
            g.edges.contains_key(e) && g.edges[e].to == NodeKey::of(h) && g.edges[e].from == n))
        &&& forall|e: EdgeKey| #[trigger]
            g.edges.contains_key(e) ==> g.nodes.contains_key(g.edges[e].from)
                && g.nodes.contains_key(g.edges[e].to)
    }

    /// The empty graph.
    pub fn new() -> (a: AdjGraph<N, E>)
        ensures
            a.wf(),
            a.graph().nodes == Map::<NodeKey, N>::empty(),
            a.graph().edges == Map::<EdgeKey, Edge<E>>::empty(),
            a.out_lists() == Map::<NodeKey, Seq<(EdgeKey, NodeKey)>>::empty(),
            a.in_lists() == Map::<NodeKey, Seq<(EdgeKey, NodeKey)>>::empty(),
    {
        AdjGraph::with_key()
    }

    /// The empty graph.
    pub fn with_key() -> (a: AdjGraph<N, E>)
        ensures
            a.wf(),
            a.graph().nodes == Map::<NodeKey, N>::empty(),
            a.graph().edges == Map::<EdgeKey, Edge<E>>::empty(),
            a.out_lists() == Map::<NodeKey, Seq<(EdgeKey, NodeKey)>>::empty(),
            a.in_lists() == Map::<NodeKey, Seq<(EdgeKey, NodeKey)>>::empty(),
    {
        let a = AdjGraph {
            sg: SlotGraph::with_key(),
            adj_in: HandleLists::new(),
            adj_out: HandleLists::new(),
        };
        assert(a.out_lists() =~= Map::<NodeKey, Seq<(EdgeKey, NodeKey)>>::empty());
        assert(a.in_lists() =~= Map::<NodeKey, Seq<(EdgeKey, NodeKey)>>::empty());
        a
    }

    /// The graph under the index, for reading.
    pub fn as_graph(&self) -> (g: &SlotGraph<N, E>)
        requires
            self.wf(),
        ensures
            g.wf(),
            g@ == self.graph(),
    {
        &self.sg
    }

    /// Adds a node, tracked with two empty lists, and returns its key.
    pub fn insert_node(&mut self, value: N) -> (key: NodeKey)
        requires
            old(self).wf(),
            old(self).graph().nodes.len() < SLOT_LIMIT,
        ensures
            final(self).wf(),
            !old(self).graph().nodes.contains_key(key),
            final(self).graph().nodes == old(self).graph().nodes.insert(key, value),
            final(self).graph().edges == old(self).graph().edges,
            final(self).out_lists() == old(self).out_lists().insert(key, Seq::empty()),
            final(self).in_lists() == old(self).in_lists().insert(key, Seq::empty()),
    {
        let key = self.sg.insert_node(value);
        let h = key.to_handle();
        proof {
            assert forall|other: Handle| #[trigger]
                self.adj_in@.contains_key(other) implies other.index() != h.index() by {
                assert(old(self).sg@.nodes.contains_key(NodeKey::of(other)));
            }
            assert forall|other: Handle| #[trigger]
                self.adj_out@.contains_key(other) implies other.index() != h.index() by {
                assert(old(self).sg@.nodes.contains_key(NodeKey::of(other)));
            }
        }
        self.adj_in.track(h);
        self.adj_out.track(h);
        proof {
            assert(final(self).out_lists() =~= old(self).out_lists().insert(key, Seq::empty()));
            assert(final(self).in_lists() =~= old(self).in_lists().insert(key, Seq::empty()));
        }
        key
    }
    /// Adds an edge from `from` to `to`, enters it at the end of `from`'s
    /// outgoing list and of `to`'s incoming list, and returns its key.
    ///
    /// Fails, and changes nothing, when an endpoint is not tracked: the
    /// error is that endpoint, `from` before `to`.
    pub fn insert_edge(&mut self, from: NodeKey, to: NodeKey, value: E) -> (r: Result<
        EdgeKey,
        NodeKey,
    >)
        requires
            old(self).wf(),
            old(self).graph().edges.len() < SLOT_LIMIT,
        ensures
            final(self).wf(),
            r.is_ok() <==> old(self).out_lists().contains_key(from) && old(
                self,
            ).out_lists().contains_key(to),
            match r {
                Ok(key) => {
                    &&& !old(self).graph().edges.contains_key(key)
                    &&& final(self).graph().nodes == old(self).graph().nodes
                    &&& final(self).graph().edges == old(self).graph().edges.insert(
                        key,
                        Edge { from, to, value },
                    )
                    &&& final(self).out_lists() == old(self).out_lists().insert(
                        from,
                        old(self).out_lists()[from].push((key, to)),
                    )
                    &&& final(self).in_lists() == old(self).in_lists().insert(
                        to,
                        old(self).in_lists()[to].push((key, from)),
                    )
                },
                Err(unknown) => {
                    &&& unknown == (if old(self).out_lists().contains_key(from) {
                        to
                    } else {
                        from
                    })
                    &&& final(self).graph() == old(self).graph()
                    &&& final(self).out_lists() == old(self).out_lists()
                    &&& final(self).in_lists() == old(self).in_lists()
                },
            },
    {
        if !self.adj_out.tracks(from.to_handle()) {
            return Err(from);
        }
        if !self.adj_in.tracks(to.to_handle()) {
            return Err(to);
        }
        let key = self.sg.insert_edge(from, to, value);
        match self.adj_out.get_mut(from.to_handle()) {
            Some(list) => {
                list.push((key, to));
            },
            None => {},
        }
        match self.adj_in.get_mut(to.to_handle()) {
            Some(list) => {
                list.push((key, from));
            },
            None => {},
        }
        proof {
            let g0 = old(self).sg@;
            let g1 = self.sg@;
            let out0 = old(self).adj_out@;
            let in0 = old(self).adj_in@;
            let hf = from.handle();
            let ht = to.handle();
            assert(self.adj_out@ == out0.insert(hf, out0[hf].push((key, to))));
            assert(self.adj_in@ == in0.insert(ht, in0[ht].push((key, from))));
            assert(!out0[hf].contains((key, to)));
            assert(!in0[ht].contains((key, from)));
            lemma_push_no_duplicates(out0[hf], (key, to));
            lemma_push_no_duplicates(in0[ht], (key, from));
            assert forall|h: Handle| #[trigger]
                self.adj_out@.contains_key(h) == g1.nodes.contains_key(NodeKey::of(h)) by {
                assert(out0.contains_key(h) == g0.nodes.contains_key(NodeKey::of(h)));
            }
            assert forall|h: Handle| #[trigger]
                self.adj_in@.contains_key(h) == g1.nodes.contains_key(NodeKey::of(h)) by {
                assert(in0.contains_key(h) == g0.nodes.contains_key(NodeKey::of(h)));
            }
            assert forall|h: Handle| #[trigger]
                self.adj_out@.contains_key(h) implies self.adj_out@[h].no_duplicates() by {
                assert(out0.contains_key(h));
            }
            assert forall|h: Handle| #[trigger]
                self.adj_in@.contains_key(h) implies self.adj_in@[h].no_duplicates() by {
                assert(in0.contains_key(h));
            }
            assert forall|h: Handle, e: EdgeKey, n: NodeKey|
                self.adj_out@.contains_key(h) implies (#[trigger] self.adj_out@[h].contains(
                (e, n),
            ) <==> (g1.edges.contains_key(e) && g1.edges[e].from == NodeKey::of(h)
                && g1.edges[e].to == n)) by {
                assert(out0.contains_key(h));
                assert(out0[h].contains((e, n)) <==> (g0.edges.contains_key(e) && g0.edges[e].from
                    == NodeKey::of(h) && g0.edges[e].to == n));
                if h == hf {
                    lemma_push_contains(out0[hf], (key, to), (e, n));
                }
            }
            assert forall|h: Handle, e: EdgeKey, n: NodeKey|
                self.adj_in@.contains_key(h) implies (#[trigger] self.adj_in@[h].contains((e, n))
                <==> (g1.edges.contains_key(e) && g1.edges[e].to == NodeKey::of(h)
                && g1.edges[e].from == n)) by {
                assert(in0.contains_key(h));
                assert(in0[h].contains((e, n)) <==> (g0.edges.contains_key(e) && g0.edges[e].to
                    == NodeKey::of(h) && g0.edges[e].from == n));
                if h == ht {
                    lemma_push_contains(in0[ht], (key, from), (e, n));
                }
            }
            assert forall|e: EdgeKey| #[trigger]
                g1.edges.contains_key(e) implies g1.nodes.contains_key(g1.edges[e].from)
                && g1.nodes.contains_key(g1.edges[e].to) by {
                if e != key {
                    assert(g0.edges.contains_key(e));
                }
            }
            assert(final(self).out_lists() =~= old(self).out_lists().insert(
                from,
                old(self).out_lists()[from].push((key, to)),
            ));
            assert(final(self).in_lists() =~= old(self).in_lists().insert(
                to,
                old(self).in_lists()[to].push((key, from)),
            ));
        }
        Ok(key)
    }
    /// The keys of the edges that leave `from`, in the order in which they
    /// were added; nothing if `from` is not tracked.
    pub fn out_edges(&self, from: NodeKey) -> (r: Option<Vec<EdgeKey>>)
        requires
            self.wf(),
        ensures
            r.is_some() == self.out_lists().contains_key(from),
            r matches Some(keys) ==> keys@ == self.out_lists()[from].map_values(
                |entry: (EdgeKey, NodeKey)| entry.0,
            ),
    {
        match self.adj_out.get(from.to_handle()) {
            Some(list) => Some(edge_keys(list)),
            None => None,
        }
    }

    /// The nodes that the edges leaving `from` lead to, in the order in
    /// which the edges were added; nothing if `from` is not tracked.
    pub fn out_nodes(&self, from: NodeKey) -> (r: Option<Vec<NodeKey>>)
        requires
            self.wf(),
        ensures
            r.is_some() == self.out_lists().contains_key(from),
            r matches Some(keys) ==> keys@ == self.out_lists()[from].map_values(
                |entry: (EdgeKey, NodeKey)| entry.1,
            ),
    {
        match self.adj_out.get(from.to_handle()) {
            Some(list) => Some(node_keys(list)),
            None => None,
        }
    }

    /// The keys of the edges that arrive at `to`, in the order in which they
    /// were added; nothing if `to` is not tracked.
    pub fn in_edges(&self, to: NodeKey) -> (r: Option<Vec<EdgeKey>>)
        requires
            self.wf(),
        ensures
            r.is_some() == self.in_lists().contains_key(to),
            r matches Some(keys) ==> keys@ == self.in_lists()[to].map_values(
                |entry: (EdgeKey, NodeKey)| entry.0,
            ),
    {
        match self.adj_in.get(to.to_handle()) {
            Some(list) => Some(edge_keys(list)),
            None => None,
        }
    }

    /// The nodes that the edges arriving at `to` come from, in the order in
    /// which the edges were added; nothing if `to` is not tracked.
    pub fn in_nodes(&self, to: NodeKey) -> (r: Option<Vec<NodeKey>>)
        requires
            self.wf(),
        ensures
            r.is_some() == self.in_lists().contains_key(to),
            r matches Some(keys) ==> keys@ == self.in_lists()[to].map_values(
                |entry: (EdgeKey, NodeKey)| entry.1,
            ),
    {
        match self.adj_in.get(to.to_handle()) {
            Some(list) => Some(node_keys(list)),
            None => None,
        }
    }

    /// The tracked nodes are the nodes of the graph, and finitely many, as
    /// are the edges.
    pub proof fn lemma_tracks_nodes(&self)
        requires
            self.wf(),
        ensures
            self.out_lists().dom() == self.graph().nodes.dom(),
            self.in_lists().dom() == self.graph().nodes.dom(),
            self.graph().nodes.dom().finite(),
            self.graph().edges.dom().finite(),
    {
        self.sg.lemma_finite();
        assert forall|k: NodeKey|
            self.out_lists().contains_key(k) == self.graph().nodes.contains_key(k) by {
            assert(self.adj_out@.contains_key(k.handle()) == self.sg@.nodes.contains_key(
                NodeKey::of(k.handle()),
            ));
        }
        assert forall|k: NodeKey|
            self.in_lists().contains_key(k) == self.graph().nodes.contains_key(k) by {
            assert(self.adj_in@.contains_key(k.handle()) == self.sg@.nodes.contains_key(
                NodeKey::of(k.handle()),
            ));
        }
        assert(self.out_lists().dom() =~= self.graph().nodes.dom());
        assert(self.in_lists().dom() =~= self.graph().nodes.dom());
    }

    /// Every live edge stands exactly once in the outgoing list of the node
    /// it leaves, with the node it leads to, and exactly once in the incoming
    /// list of the node it leads to, with the node it leaves.
    pub proof fn lemma_adjacency_consistent(&self, e: EdgeKey)
        requires
            self.wf(),
            self.graph().edges.contains_key(e),
        ensures
            self.out_lists().contains_key(self.graph().edges[e].from),
            occurrences(
                self.out_lists()[self.graph().edges[e].from],
                (e, self.graph().edges[e].to),
            ) == 1,
            self.in_lists().contains_key(self.graph().edges[e].to),
            occurrences(
                self.in_lists()[self.graph().edges[e].to],
                (e, self.graph().edges[e].from),
            ) == 1,
    {
        let edge = self.sg@.edges[e];
        let hf = edge.from.handle();
        let ht = edge.to.handle();
        assert(self.sg@.nodes.contains_key(NodeKey::of(hf)));
        assert(self.sg@.nodes.contains_key(NodeKey::of(ht)));
        assert(self.adj_out@.contains_key(hf));
        assert(self.adj_in@.contains_key(ht));
        assert(self.adj_out@[hf].contains((e, edge.to)));
        assert(self.adj_in@[ht].contains((e, edge.from)));
        self.adj_out@[hf].to_multiset_ensures();
        self.adj_in@[ht].to_multiset_ensures();
        self.adj_out@[hf].lemma_multiset_has_no_duplicates();
        self.adj_in@[ht].lemma_multiset_has_no_duplicates();
    }

    /// Every entry of an outgoing or incoming list names a live edge of the
    /// graph with the endpoints that the entry and its list give.
    pub proof fn lemma_entries_are_edges(&self, node: NodeKey, e: EdgeKey, other: NodeKey)
        requires
            self.wf(),
        ensures
            self.out_lists().contains_key(node) && self.out_lists()[node].contains((e, other))
                ==> self.graph().edges.contains_key(e) && self.graph().edges[e].from == node
                && self.graph().edges[e].to == other,
            self.in_lists().contains_key(node) && self.in_lists()[node].contains((e, other))
                ==> self.graph().edges.contains_key(e) && self.graph().edges[e].to == node
                && self.graph().edges[e].from == other,
    {
    }
}

/// The edge keys of a list of entries, in order.
fn edge_keys(list: &Vec<(EdgeKey, NodeKey)>) -> (keys: Vec<EdgeKey>)
    ensures
        keys@ == list@.map_values(|entry: (EdgeKey, NodeKey)| entry.0),
{
    let mut keys: Vec<EdgeKey> = Vec::new();
    let mut i: usize = 0;
    while i < list.len()
        invariant
            i <= list@.len(),
            keys@ == list@.take(i as int).map_values(|entry: (EdgeKey, NodeKey)| entry.0),
        decreases list@.len() - i,
    {
        let entry = list[i];
        keys.push(entry.0);
        i += 1;
        assert(keys@ =~= list@.take(i as int).map_values(|entry: (EdgeKey, NodeKey)| entry.0));
    }
    assert(list@.take(i as int) =~= list@);
    keys
}

/// The node keys of a list of entries, in order.
fn node_keys(list: &Vec<(EdgeKey, NodeKey)>) -> (keys: Vec<NodeKey>)
    ensures
        keys@ == list@.map_values(|entry: (EdgeKey, NodeKey)| entry.1),
{
    let mut keys: Vec<NodeKey> = Vec::new();
    let mut i: usize = 0;
    while i < list.len()
        invariant
            i <= list@.len(),
            keys@ == list@.take(i as int).map_values(|entry: (EdgeKey, NodeKey)| entry.1),
        decreases list@.len() - i,
    {
        let entry = list[i];
        keys.push(entry.1);
        i += 1;
        assert(keys@ =~= list@.take(i as int).map_values(|entry: (EdgeKey, NodeKey)| entry.1));
    }
    assert(list@.take(i as int) =~= list@);
    keys
}

} // verus!

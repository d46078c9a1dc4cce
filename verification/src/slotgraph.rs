//! The directed graph: node payloads and edge payloads in two arenas, behind
//! handle types of their own.
//!
//! An edge stores the two node handles it was created with. The graph does
//! not check that they are live, and removing a node leaves the edges that
//! name it in place.
use vstd::prelude::*;

use crate::arena::{
    lemma_listing_len, lemma_listing_renamed, lemma_listing_reversed, lists_each_once, Arena,
};
use crate::handle::{is_handle_bits, Handle, LAST_GENERATION};
use crate::history::Census;
use crate::slots::SLOT_LIMIT;

verus! {

/// The handle of a node.
///
/// Node keys and edge keys are types of their own: neither can stand where
/// the other is expected, though the two may carry the same handle, as the
/// first node and the first edge of a graph do.
#[derive(Copy, Clone, PartialEq, Eq, Structural, PartialOrd, Ord, Hash, Debug)]
pub struct NodeKey(Handle);

/// The handle of an edge. See [`NodeKey`].
#[derive(Copy, Clone, PartialEq, Eq, Structural, PartialOrd, Ord, Hash, Debug)]
pub struct EdgeKey(Handle);

impl NodeKey {
    /// The arena handle behind this key.
    pub closed spec fn handle(self) -> Handle {
        self.0
    }

    /// The node key in front of an arena handle.
    pub closed spec fn of(h: Handle) -> NodeKey {
        NodeKey(h)
    }

    /// The generation at which this key was issued.
    pub open spec fn generation(self) -> int {
        self.handle().generation()
    }

    /// A key is the key of its own handle.
    pub broadcast proof fn lemma_of_handle(k: NodeKey)
        ensures
            NodeKey::of(#[trigger] k.handle()) == k,
    {
    }

    /// The key of a handle has that handle.
    pub broadcast proof fn lemma_handle_of(h: Handle)
        ensures
            #[trigger] NodeKey::of(h).handle() == h,
    {
    }

    pub(crate) fn from_handle(h: Handle) -> (k: NodeKey)
        ensures
            k == NodeKey::of(h),
            k.handle() == h,
    {
        NodeKey(h)
    }

    pub(crate) fn to_handle(self) -> (h: Handle)
        ensures
            h == self.handle(),
    {
        self.0
    }

    /// The node key that `bits` carries, if it carries one.
    pub fn from_bits(bits: u64) -> (r: Option<NodeKey>)
        ensures
            r.is_some() == is_handle_bits(bits),
            r matches Some(k) ==> k.handle().bits() == bits,
    {
        match Handle::from_bits(bits) {
            Some(h) => Some(NodeKey(h)),
            None => None,
        }
    }

    /// The word that carries this key.
    pub fn to_bits(self) -> (bits: u64)
        ensures
            bits == self.handle().bits(),
            is_handle_bits(bits),
    {
        self.0.to_bits()
    }
}

impl EdgeKey {
    /// The arena handle behind this key.
    pub closed spec fn handle(self) -> Handle {
        self.0
    }

    /// The edge key in front of an arena handle.
    pub closed spec fn of(h: Handle) -> EdgeKey {
        EdgeKey(h)
    }

    /// The generation at which this key was issued.
    pub open spec fn generation(self) -> int {
        self.handle().generation()
    }

    /// A key is the key of its own handle.
    pub broadcast proof fn lemma_of_handle(k: EdgeKey)
        ensures
            EdgeKey::of(#[trigger] k.handle()) == k,
    {
    }

    /// The key of a handle has that handle.
    pub broadcast proof fn lemma_handle_of(h: Handle)
        ensures
            #[trigger] EdgeKey::of(h).handle() == h,
    {
    }

    pub(crate) fn from_handle(h: Handle) -> (k: EdgeKey)
        ensures
            k == EdgeKey::of(h),
            k.handle() == h,
    {
        EdgeKey(h)
    }

    pub(crate) fn to_handle(self) -> (h: Handle)
        ensures
            h == self.handle(),
    {
        self.0
    }

    /// The edge key that `bits` carries, if it carries one.
    pub fn from_bits(bits: u64) -> (r: Option<EdgeKey>)
        ensures
            r.is_some() == is_handle_bits(bits),
            r matches Some(k) ==> k.handle().bits() == bits,
    {
        match Handle::from_bits(bits) {
            Some(h) => Some(EdgeKey(h)),
            None => None,
        }
    }

    /// The word that carries this key.
    pub fn to_bits(self) -> (bits: u64)
        ensures
            bits == self.handle().bits(),
            is_handle_bits(bits),
    {
        self.0.to_bits()
    }
}

pub broadcast group group_key_handles {
    NodeKey::lemma_of_handle,
    NodeKey::lemma_handle_of,
    EdgeKey::lemma_of_handle,
    EdgeKey::lemma_handle_of,
}

impl Default for NodeKey {
    /// The null node key, which is never live.
    fn default() -> (k: NodeKey)
        ensures
            k.handle().is_null_handle(),
    {
        NodeKey(Handle::null())
    }
}

impl Default for EdgeKey {
    /// The null edge key, which is never live.
    fn default() -> (k: EdgeKey)
        ensures
            k.handle().is_null_handle(),
    {
        EdgeKey(Handle::null())
    }
}

/// An edge: where it starts, where it ends, and what it carries.
pub struct Edge<E> {
    pub from: NodeKey,
    pub to: NodeKey,
    pub value: E,
}

/// What a graph holds: the payload of each live node, and the endpoints and
/// the payload of each live edge.
pub struct GraphView<N, E> {
    pub nodes: Map<NodeKey, N>,
    pub edges: Map<EdgeKey, Edge<E>>,
}

impl<N, E> GraphView<N, E> {
    /// Every edge that is live in both states has the same endpoints in both.
    pub open spec fn same_endpoints(self, later: GraphView<N, E>) -> bool {
        forall|e: EdgeKey| #[trigger]
            self.edges.contains_key(e) && later.edges.contains_key(e) ==> later.edges[e].from
                == self.edges[e].from && later.edges[e].to == self.edges[e].to
    }
}

/// A directed graph of node payloads `N` and edge payloads `E`.
pub struct SlotGraph<N, E> {
    nodes: Arena<N>,
    edges: Arena<Edge<E>>,
}

impl<N, E> View for SlotGraph<N, E> {
    type V = GraphView<N, E>;

    closed spec fn view(&self) -> GraphView<N, E> {
        GraphView {
            nodes: Map::new(
                |k: NodeKey| self.nodes@.contains_key(k.handle()),
                |k: NodeKey| self.nodes@[k.handle()],
            ),
            edges: Map::new(
                |k: EdgeKey| self.edges@.contains_key(k.handle()),
                |k: EdgeKey| self.edges@[k.handle()],
            ),
        }
    }
}

impl<N, E> Default for SlotGraph<N, E> {
    /// The empty graph.
    fn default() -> (g: SlotGraph<N, E>)
        ensures
            g.wf(),
            g@.nodes == Map::<NodeKey, N>::empty(),
            g@.edges == Map::<EdgeKey, Edge<E>>::empty(),
            g.retired_nodes() == Set::<NodeKey>::empty(),
            g.retired_edges() == Set::<EdgeKey>::empty(),
    {
        SlotGraph::with_key()
    }
}

impl<N, E> SlotGraph<N, E> {
    /// Both arenas are well formed.
    pub closed spec fn wf(&self) -> bool {
        self.nodes.wf() && self.edges.wf()
    }

    /// The node keys that have been removed and will not be handed out
    /// again.
    pub closed spec fn retired_nodes(&self) -> Set<NodeKey> {
        Set::new(|k: NodeKey| self.nodes.retired().contains(k.handle()))
    }

    /// The edge keys that have been removed and will not be handed out
    /// again.
    pub closed spec fn retired_edges(&self) -> Set<EdgeKey> {
        Set::new(|k: EdgeKey| self.edges.retired().contains(k.handle()))
    }

    /// The live and the retired node keys.
    pub open spec fn node_census(&self) -> Census<NodeKey> {
        Census { live: self@.nodes.dom(), retired: self.retired_nodes() }
    }

    /// The live and the retired edge keys.
    pub open spec fn edge_census(&self) -> Census<EdgeKey> {
        Census { live: self@.edges.dom(), retired: self.retired_edges() }
    }

    /// No key is both live and retired.
    pub proof fn lemma_retired_not_live(&self)
        requires
            self.wf(),
        ensures
            self.retired_nodes().disjoint(self@.nodes.dom()),
            self.retired_edges().disjoint(self@.edges.dom()),
            self.node_census().sound(),
            self.edge_census().sound(),
    {
        self.nodes.lemma_retired_not_live();
        self.edges.lemma_retired_not_live();
    }

    /// The live nodes and the live edges are finitely many.
    pub proof fn lemma_finite(&self)
        requires
            self.wf(),
        ensures
            self@.nodes.dom().finite(),
            self@.edges.dom().finite(),
    {
        self.lemma_node_count();
        self.lemma_edge_count();
    }

    /// The live node keys are as many as the live handles of the node arena.
    proof fn lemma_node_count(&self)
        requires
            self.wf(),
        ensures
            self@.nodes.dom().finite(),
            self@.nodes.len() == self.nodes@.len(),
    {
        self.nodes.lemma_order();
        lemma_listing_len(self.nodes.order(), self.nodes@.dom());
        lemma_listing_renamed(
            self.nodes.order(),
            self.nodes@.dom(),
            self@.nodes.dom(),
            |h: Handle| NodeKey::of(h),
            |k: NodeKey| k.handle(),
        );
        lemma_listing_len(
            self.nodes.order().map_values(|h: Handle| NodeKey::of(h)),
            self@.nodes.dom(),
        );
    }

    /// The live edge keys are as many as the live handles of the edge arena.
    proof fn lemma_edge_count(&self)
        requires
            self.wf(),
        ensures
            self@.edges.dom().finite(),
            self@.edges.len() == self.edges@.len(),
    {
        self.edges.lemma_order();
        lemma_listing_len(self.edges.order(), self.edges@.dom());
        lemma_listing_renamed(
            self.edges.order(),
            self.edges@.dom(),
            self@.edges.dom(),
            |h: Handle| EdgeKey::of(h),
            |k: EdgeKey| k.handle(),
        );
        lemma_listing_len(
            self.edges.order().map_values(|h: Handle| EdgeKey::of(h)),
            self@.edges.dom(),
        );
    }

    /// The empty graph.
    pub fn new() -> (g: SlotGraph<N, E>)
        ensures
            g.wf(),
            g@.nodes == Map::<NodeKey, N>::empty(),
            g@.edges == Map::<EdgeKey, Edge<E>>::empty(),
            g.retired_nodes() == Set::<NodeKey>::empty(),
            g.retired_edges() == Set::<EdgeKey>::empty(),
    {
        SlotGraph::with_key()
    }

    /// The empty graph.
    pub fn with_key() -> (g: SlotGraph<N, E>)
        ensures
            g.wf(),
            g@.nodes == Map::<NodeKey, N>::empty(),
            g@.edges == Map::<EdgeKey, Edge<E>>::empty(),
            g.retired_nodes() == Set::<NodeKey>::empty(),
            g.retired_edges() == Set::<EdgeKey>::empty(),
    {
        let g = SlotGraph { nodes: Arena::new(), edges: Arena::new() };
        assert(g@.nodes =~= Map::<NodeKey, N>::empty());
        assert(g@.edges =~= Map::<EdgeKey, Edge<E>>::empty());
        assert(g.retired_nodes() =~= Set::<NodeKey>::empty());
        assert(g.retired_edges() =~= Set::<EdgeKey>::empty());
        g
    }
}

// Nodes.
impl<N, E> SlotGraph<N, E> {
    /// Adds a node and returns its key, which has never been live before.
    ///
    /// The key is not null, and no live node shares its slot.
    pub fn insert_node(&mut self, value: N) -> (key: NodeKey)
        requires
            old(self).wf(),
            old(self)@.nodes.len() < SLOT_LIMIT,
        ensures
            final(self).wf(),
            !old(self)@.nodes.contains_key(key),
            !old(self).retired_nodes().contains(key),
            !key.handle().is_null_handle(),
            forall|other: NodeKey| #[trigger]
                old(self)@.nodes.contains_key(other) ==> other.handle().index()
                    != key.handle().index(),
            final(self)@.nodes == old(self)@.nodes.insert(key, value),
            final(self)@.edges == old(self)@.edges,
            final(self).retired_nodes() == old(self).retired_nodes(),
            final(self).retired_edges() == old(self).retired_edges(),
            old(self).node_census().step(final(self).node_census()),
            old(self).edge_census().step(final(self).edge_census()),
            old(self)@.same_endpoints(final(self)@),
    {
        proof {
            self.lemma_node_count();
        }
        let key = NodeKey::from_handle(self.nodes.insert(value));
        proof {
            assert(final(self)@.nodes =~= old(self)@.nodes.insert(key, value));
            assert(final(self)@.edges =~= old(self)@.edges);
            assert(final(self).retired_nodes() =~= old(self).retired_nodes());
            assert(final(self).retired_edges() =~= old(self).retired_edges());
            assert(final(self)@.nodes.dom() =~= old(self)@.nodes.dom().insert(key));
            assert(old(self).node_census().inserts(key, final(self).node_census()));
        }
        key
    }

    /// Removes a node and returns its payload, if the key is live. Edges that
    /// name the node stay as they are.
    ///
    /// A key removed is retired for good, unless its slot had reached its
    /// last generation.
    pub fn remove_node(&mut self, key: NodeKey) -> (r: Option<N>)
        requires
            old(self).wf(),
        ensures
            final(self).wf(),
            r == (if old(self)@.nodes.contains_key(key) {
                Some(old(self)@.nodes[key])
            } else {
                None
            }),
            final(self)@.nodes == old(self)@.nodes.remove(key),
            final(self)@.edges == old(self)@.edges,
            final(self).retired_edges() == old(self).retired_edges(),
            r.is_none() ==> final(self).retired_nodes() == old(self).retired_nodes(),
            r.is_some() ==> final(self).retired_nodes().subset_of(
                old(self).retired_nodes().insert(key),
            ),
            r.is_some() && key.generation() < LAST_GENERATION ==> final(self).retired_nodes()
                == old(self).retired_nodes().insert(key),
            r.is_none() || key.generation() < LAST_GENERATION ==> old(self).node_census().step(
                final(self).node_census(),
            ),
            old(self).edge_census().step(final(self).edge_census()),
            old(self)@.same_endpoints(final(self)@),
    {
        let r = self.nodes.remove(key.to_handle());
        proof {
            assert(final(self)@.nodes =~= old(self)@.nodes.remove(key));
            assert(final(self)@.edges =~= old(self)@.edges);
            assert(final(self).retired_edges() =~= old(self).retired_edges());
            if r.is_none() {
                assert(final(self).retired_nodes() =~= old(self).retired_nodes());
                assert(final(self)@.nodes.dom() =~= old(self)@.nodes.dom());
            } else {
                assert(final(self).retired_nodes().subset_of(
                    old(self).retired_nodes().insert(key),
                ));
                if key.generation() < LAST_GENERATION {
                    assert(final(self).retired_nodes() =~= old(self).retired_nodes().insert(key));
                    assert(final(self)@.nodes.dom() =~= old(self)@.nodes.dom().remove(key));
                    assert(old(self).node_census().removes(key, final(self).node_census()));
                }
            }
        }
        r
    }

    /// The payload of a node, if the key is live.
    pub fn get_node(&self, key: NodeKey) -> (r: Option<&N>)
        requires
            self.wf(),
        ensures
            r == (if self@.nodes.contains_key(key) {
                Some(&self@.nodes[key])
            } else {
                None
            }),
    {
        self.nodes.get(key.to_handle())
    }

    /// The payload of a node for writing, if the key is live. What the caller
    /// leaves there is the node's payload from then on.
    pub fn get_node_mut(&mut self, key: NodeKey) -> (r: Option<&mut N>)
        requires
            old(self).wf(),
        ensures
            final(self).wf(),
            final(self)@.edges == old(self)@.edges,
            final(self).retired_nodes() == old(self).retired_nodes(),
            final(self).retired_edges() == old(self).retired_edges(),
            r.is_some() == old(self)@.nodes.contains_key(key),
            match r {
                Some(v) => *v == old(self)@.nodes[key] && final(self)@.nodes == old(
                    self,
                )@.nodes.insert(key, *final(v)),
                None => final(self)@.nodes == old(self)@.nodes,
            },
            old(self).node_census().step(final(self).node_census()),
            old(self).edge_census().step(final(self).edge_census()),
            old(self)@.same_endpoints(final(self)@),
    {
        self.nodes.get_mut(key.to_handle())
    }

    /// The number of live nodes.
    pub fn node_len(&self) -> (n: usize)
        requires
            self.wf(),
        ensures
            self@.nodes.dom().finite(),
            n == self@.nodes.len(),
    {
        proof {
            self.lemma_node_count();
        }
        self.nodes.len()
    }
    /// Every live node key with its payload, each once, in no particular
    /// order.
    pub fn iter_nodes(&self) -> (r: Vec<(NodeKey, &N)>)
        requires
            self.wf(),
        ensures
            lists_each_once(r@.map_values(|e: (NodeKey, &N)| e.0), self@.nodes.dom()),
            forall|i: int| 0 <= i < r@.len() ==> *(#[trigger] r@[i]).1 == self@.nodes[r@[i].0],
    {
        let items = self.nodes.iter();
        let mut out: Vec<(NodeKey, &N)> = Vec::new();
        let mut i: usize = 0;
        while i < items.len()
            invariant
                i <= items@.len(),
                out@.len() == i,
                forall|j: int|
                    0 <= j < i ==> (#[trigger] out@[j]).0 == NodeKey::of(items@[j].0) && out@[j].1
                        == items@[j].1,
            decreases items@.len() - i,
        {
            let (h, v) = items[i];
            out.push((NodeKey::from_handle(h), v));
            i += 1;
        }
        proof {
            let handles = items@.map_values(|e: (Handle, &N)| e.0);
            lemma_listing_renamed(
                handles,
                self.nodes@.dom(),
                self@.nodes.dom(),
                |h: Handle| NodeKey::of(h),
                |k: NodeKey| k.handle(),
            );
            assert(out@.map_values(|e: (NodeKey, &N)| e.0) =~= handles.map_values(
                |h: Handle| NodeKey::of(h),
            ));
            assert forall|i: int| 0 <= i < out@.len() implies *(#[trigger] out@[i]).1
                == self@.nodes[out@[i].0] by {
                assert(*items@[i].1 == self.nodes@[items@[i].0]);
                assert(handles[i] == items@[i].0);
            }
        }
        out
    }

    /// Every live node key with its payload for writing, each once, in no
    /// particular order. What the caller leaves in each place is the payload
    /// of that node from then on.
    pub fn iter_nodes_mut(&mut self) -> (r: Vec<(NodeKey, &mut N)>)
        requires
            old(self).wf(),
        ensures
            final(self).wf(),
            final(self)@.edges == old(self)@.edges,
            final(self).retired_nodes() == old(self).retired_nodes(),
            final(self).retired_edges() == old(self).retired_edges(),
            final(self)@.nodes.dom() == old(self)@.nodes.dom(),
            lists_each_once(r@.map_values(|e: (NodeKey, &mut N)| e.0), old(self)@.nodes.dom()),
            forall|i: int|
                0 <= i < r@.len() ==> *(#[trigger] r@[i]).1 == old(self)@.nodes[r@[i].0],
            forall|i: int|
                0 <= i < r@.len() ==> final(self)@.nodes[(#[trigger] r@[i]).0] == *final(r@[i].1),
            old(self).node_census().step(final(self).node_census()),
            old(self).edge_census().step(final(self).edge_census()),
            old(self)@.same_endpoints(final(self)@),
    {
        let mut items = self.nodes.iter_mut();
        let ghost all = items@;
        let mut out: Vec<(NodeKey, &mut N)> = Vec::new();
        while items.len() > 0
            invariant
                items@.len() + out@.len() == all.len(),
                items@ == all.take(items@.len() as int),
                forall|j: int|
                    0 <= j < out@.len() ==> (#[trigger] out@[j]).0 == NodeKey::of(
                        all[all.len() - 1 - j].0,
                    ),
                forall|j: int|
                    0 <= j < out@.len() ==> *(#[trigger] out@[j]).1 == *all[all.len() - 1 - j].1,
                forall|j: int|
                    0 <= j < out@.len() ==> *final((#[trigger] out@[j]).1)
                        == *final(all[all.len() - 1 - j].1),
            decreases items@.len(),
        {
            match items.pop() {
                Some((h, place)) => {
                    out.push((NodeKey::from_handle(h), place));
                },
                None => {},
            }
        }
        proof {
            let n = all.len() as int;
            let handles = all.map_values(|e: (Handle, &mut N)| e.0);
            let keys = out@.map_values(|e: (NodeKey, &mut N)| e.0);
            lemma_listing_len(handles, old(self).nodes@.dom());
            lemma_listing_renamed(
                handles,
                old(self).nodes@.dom(),
                old(self)@.nodes.dom(),
                |h: Handle| NodeKey::of(h),
                |k: NodeKey| k.handle(),
            );
            let forward = handles.map_values(|h: Handle| NodeKey::of(h));
            lemma_listing_reversed(forward, keys, old(self)@.nodes.dom());
            assert forall|i: int| 0 <= i < out@.len() implies old(self)@.nodes.contains_key(
                (#[trigger] out@[i]).0,
            ) by {
                let k = n - 1 - i;
                assert(handles[k] == all[k].0);
                assert(handles.to_set().contains(handles[k]));
            }
        }
        out
    }

    /// Takes the graph apart into its live node keys and their payloads,
    /// each once, in no particular order.
    pub fn into_node_iter(self) -> (r: Vec<(NodeKey, N)>)
        requires
            self.wf(),
        ensures
            lists_each_once(r@.map_values(|e: (NodeKey, N)| e.0), self@.nodes.dom()),
            forall|i: int| 0 <= i < r@.len() ==> (#[trigger] r@[i]).1 == self@.nodes[r@[i].0],
    {
        let mut items = self.nodes.into_entries();
        let ghost all = items@;
        let mut out: Vec<(NodeKey, N)> = Vec::new();
        while items.len() > 0
            invariant
                items@.len() + out@.len() == all.len(),
                items@ == all.take(items@.len() as int),
                forall|j: int|
                    0 <= j < out@.len() ==> (#[trigger] out@[j]).0 == NodeKey::of(
                        all[all.len() - 1 - j].0,
                    ) && out@[j].1 == all[all.len() - 1 - j].1,
            decreases items@.len(),
        {
            match items.pop() {
                Some((h, value)) => {
                    out.push((NodeKey::from_handle(h), value));
                },
                None => {},
            }
        }
        proof {
            let n = all.len() as int;
            let handles = all.map_values(|e: (Handle, N)| e.0);
            let keys = out@.map_values(|e: (NodeKey, N)| e.0);
            lemma_listing_renamed(
                handles,
                self.nodes@.dom(),
                self@.nodes.dom(),
                |h: Handle| NodeKey::of(h),
                |k: NodeKey| k.handle(),
            );
            let forward = handles.map_values(|h: Handle| NodeKey::of(h));
            lemma_listing_reversed(forward, keys, self@.nodes.dom());
            assert forall|i: int| 0 <= i < out@.len() implies (#[trigger] out@[i]).1
                == self@.nodes[out@[i].0] by {
                let k = n - 1 - i;
                assert(handles[k] == all[k].0);
                assert(handles.to_set().contains(handles[k]));
                assert(all[k].1 == self.nodes@[all[k].0]);
            }
        }
        out
    }
}

// Edges.
impl<N, E> SlotGraph<N, E> {
    /// Adds an edge from `from` to `to` and returns its key, which has never
    /// been live before. The endpoints are stored as given, live or not.
    pub fn insert_edge(&mut self, from: NodeKey, to: NodeKey, value: E) -> (key: EdgeKey)
        requires
            old(self).wf(),
            old(self)@.edges.len() < SLOT_LIMIT,
        ensures
            final(self).wf(),
            !old(self)@.edges.contains_key(key),
            !old(self).retired_edges().contains(key),
            !key.handle().is_null_handle(),
            final(self)@.nodes == old(self)@.nodes,
            final(self)@.edges == old(self)@.edges.insert(key, (Edge { from, to, value })),
            final(self).retired_nodes() == old(self).retired_nodes(),
            final(self).retired_edges() == old(self).retired_edges(),
            old(self).node_census().step(final(self).node_census()),
            old(self).edge_census().step(final(self).edge_census()),
            old(self)@.same_endpoints(final(self)@),
    {
        proof {
            self.lemma_edge_count();
        }
        let key = EdgeKey::from_handle(self.edges.insert(Edge { from, to, value }));
        proof {
            assert(final(self)@.nodes =~= old(self)@.nodes);
            assert(final(self)@.edges =~= old(self)@.edges.insert(key, Edge { from, to, value }));
            assert(final(self).retired_nodes() =~= old(self).retired_nodes());
            assert(final(self).retired_edges() =~= old(self).retired_edges());
            assert(final(self)@.edges.dom() =~= old(self)@.edges.dom().insert(key));
            assert(old(self).edge_census().inserts(key, final(self).edge_census()));
        }
        key
    }

    /// Removes an edge and returns its payload, if the key is live.
    ///
    /// A key removed is retired for good, unless its slot had reached its
    /// last generation.
    pub fn remove_edge(&mut self, key: EdgeKey) -> (r: Option<E>)
        requires
            old(self).wf(),
        ensures
            final(self).wf(),
            r == (if old(self)@.edges.contains_key(key) {
                Some(old(self)@.edges[key].value)
            } else {
                None
            }),
            final(self)@.nodes == old(self)@.nodes,
            final(self)@.edges == old(self)@.edges.remove(key),
            final(self).retired_nodes() == old(self).retired_nodes(),
            r.is_none() ==> final(self).retired_edges() == old(self).retired_edges(),
            r.is_some() ==> final(self).retired_edges().subset_of(
                old(self).retired_edges().insert(key),
            ),
            r.is_some() && key.generation() < LAST_GENERATION ==> final(self).retired_edges()
                == old(self).retired_edges().insert(key),
            old(self).node_census().step(final(self).node_census()),
            r.is_none() || key.generation() < LAST_GENERATION ==> old(self).edge_census().step(
                final(self).edge_census(),
            ),
            old(self)@.same_endpoints(final(self)@),
    {
        let r = self.edges.remove(key.to_handle());
        proof {
            assert(final(self)@.nodes =~= old(self)@.nodes);
            assert(final(self)@.edges =~= old(self)@.edges.remove(key));
            assert(final(self).retired_nodes() =~= old(self).retired_nodes());
            if r.is_none() {
                assert(final(self).retired_edges() =~= old(self).retired_edges());
                assert(final(self)@.edges.dom() =~= old(self)@.edges.dom());
            } else {
                assert(final(self).retired_edges().subset_of(
                    old(self).retired_edges().insert(key),
                ));
                if key.generation() < LAST_GENERATION {
                    assert(final(self).retired_edges() =~= old(self).retired_edges().insert(key));
                    assert(final(self)@.edges.dom() =~= old(self)@.edges.dom().remove(key));
                    assert(old(self).edge_census().removes(key, final(self).edge_census()));
                }
            }
        }
        match r {
            Some(edge) => Some(edge.value),
            None => None,
        }
    }

    /// The payload of an edge, if the key is live.
    pub fn get_edge(&self, key: EdgeKey) -> (r: Option<&E>)
        requires
            self.wf(),
        ensures
            r == (if self@.edges.contains_key(key) {
                Some(&self@.edges[key].value)
            } else {
                None
            }),
    {
        match self.edges.get(key.to_handle()) {
            Some(edge) => Some(&edge.value),
            None => None,
        }
    }

    /// The payload of an edge for writing, if the key is live. What the
    /// caller leaves there is the edge's payload from then on; its endpoints
    /// stay.
    pub fn get_edge_mut(&mut self, key: EdgeKey) -> (r: Option<&mut E>)
        requires
            old(self).wf(),
        ensures
            final(self).wf(),
            final(self)@.nodes == old(self)@.nodes,
            final(self).retired_nodes() == old(self).retired_nodes(),
            final(self).retired_edges() == old(self).retired_edges(),
            r.is_some() == old(self)@.edges.contains_key(key),
            match r {
                Some(v) => *v == old(self)@.edges[key].value && final(self)@.edges == old(
                    self,
                )@.edges.insert(
                    key,
                    (Edge {
                        from: old(self)@.edges[key].from,
                        to: old(self)@.edges[key].to,
                        value: *final(v),
                    }),
                ),
                None => final(self)@.edges == old(self)@.edges,
            },
            old(self).node_census().step(final(self).node_census()),
            old(self).edge_census().step(final(self).edge_census()),
            old(self)@.same_endpoints(final(self)@),
    {
        match self.edges.get_mut(key.to_handle()) {
            Some(edge) => Some(&mut edge.value),
            None => None,
        }
    }

    /// The number of live edges.
    pub fn edge_len(&self) -> (n: usize)
        requires
            self.wf(),
        ensures
            self@.edges.dom().finite(),
            n == self@.edges.len(),
    {
        proof {
            self.lemma_edge_count();
        }
        self.edges.len()
    }

    /// The endpoints of an edge as they were given when it was added, if the
    /// key is live. The nodes they name may have been removed since.
    pub fn get_edge_nodes(&self, key: EdgeKey) -> (r: Option<(NodeKey, NodeKey)>)
        requires
            self.wf(),
        ensures
            r == (if self@.edges.contains_key(key) {
                Some((self@.edges[key].from, self@.edges[key].to))
            } else {
                None
            }),
    {
        match self.edges.get(key.to_handle()) {
            Some(edge) => Some((edge.from, edge.to)),
            None => None,
        }
    }
}

// Edge listings.
impl<N, E> SlotGraph<N, E> {
    /// Every live edge key with its payload, each once, in no particular
    /// order.
    pub fn iter_edges(&self) -> (r: Vec<(EdgeKey, &E)>)
        requires
            self.wf(),
        ensures
            lists_each_once(r@.map_values(|e: (EdgeKey, &E)| e.0), self@.edges.dom()),
            forall|i: int|
                0 <= i < r@.len() ==> *(#[trigger] r@[i]).1 == self@.edges[r@[i].0].value,
    {
        let items = self.edges.iter();
        let mut out: Vec<(EdgeKey, &E)> = Vec::new();
        let mut i: usize = 0;
        while i < items.len()
            invariant
                i <= items@.len(),
                out@.len() == i,
                forall|j: int|
                    0 <= j < i ==> (#[trigger] out@[j]).0 == EdgeKey::of(items@[j].0) && *out@[j].1
                        == items@[j].1.value,
            decreases items@.len() - i,
        {
            let (h, edge) = items[i];
            out.push((EdgeKey::from_handle(h), &edge.value));
            i += 1;
        }
        proof {
            let handles = items@.map_values(|e: (Handle, &Edge<E>)| e.0);
            lemma_listing_renamed(
                handles,
                self.edges@.dom(),
                self@.edges.dom(),
                |h: Handle| EdgeKey::of(h),
                |k: EdgeKey| k.handle(),
            );
            assert(out@.map_values(|e: (EdgeKey, &E)| e.0) =~= handles.map_values(
                |h: Handle| EdgeKey::of(h),
            ));
            assert forall|i: int| 0 <= i < out@.len() implies *(#[trigger] out@[i]).1
                == self@.edges[out@[i].0].value by {
                assert(*items@[i].1 == self.edges@[items@[i].0]);
                assert(handles[i] == items@[i].0);
            }
        }
        out
    }

    /// Every live edge key with its endpoints, each once, in no particular
    /// order.
    pub fn iter_edge_nodes(&self) -> (r: Vec<(EdgeKey, (NodeKey, NodeKey))>)
        requires
            self.wf(),
        ensures
            lists_each_once(
                r@.map_values(|e: (EdgeKey, (NodeKey, NodeKey))| e.0),
                self@.edges.dom(),
            ),
            forall|i: int|
                0 <= i < r@.len() ==> (#[trigger] r@[i]).1 == (
                    self@.edges[r@[i].0].from,
                    self@.edges[r@[i].0].to,
                ),
    {
        let items = self.edges.iter();
        let mut out: Vec<(EdgeKey, (NodeKey, NodeKey))> = Vec::new();
        let mut i: usize = 0;
        while i < items.len()
            invariant
                i <= items@.len(),
                out@.len() == i,
                forall|j: int|
                    0 <= j < i ==> (#[trigger] out@[j]).0 == EdgeKey::of(items@[j].0) && out@[j].1
                        == (items@[j].1.from, items@[j].1.to),
            decreases items@.len() - i,
        {
            let (h, edge) = items[i];
            out.push((EdgeKey::from_handle(h), (edge.from, edge.to)));
            i += 1;
        }
        proof {
            let handles = items@.map_values(|e: (Handle, &Edge<E>)| e.0);
            lemma_listing_renamed(
                handles,
                self.edges@.dom(),
                self@.edges.dom(),
                |h: Handle| EdgeKey::of(h),
                |k: EdgeKey| k.handle(),
            );
            assert(out@.map_values(|e: (EdgeKey, (NodeKey, NodeKey))| e.0) =~= handles.map_values(
                |h: Handle| EdgeKey::of(h),
            ));
            assert forall|i: int| 0 <= i < out@.len() implies (#[trigger] out@[i]).1 == (
                self@.edges[out@[i].0].from,
                self@.edges[out@[i].0].to,
            ) by {
                assert(*items@[i].1 == self.edges@[items@[i].0]);
                assert(handles[i] == items@[i].0);
            }
        }
        out
    }

    /// Every live edge key with its payload for writing, each once, in no
    /// particular order. What the caller leaves in each place is the payload
    /// of that edge from then on; the endpoints stay.
    pub fn iter_edges_mut(&mut self) -> (r: Vec<(EdgeKey, &mut E)>)
        requires
            old(self).wf(),
        ensures
            final(self).wf(),
            final(self)@.nodes == old(self)@.nodes,
            final(self).retired_nodes() == old(self).retired_nodes(),
            final(self).retired_edges() == old(self).retired_edges(),
            final(self)@.edges.dom() == old(self)@.edges.dom(),
            lists_each_once(r@.map_values(|e: (EdgeKey, &mut E)| e.0), old(self)@.edges.dom()),
            forall|i: int|
                0 <= i < r@.len() ==> *(#[trigger] r@[i]).1 == old(self)@.edges[r@[i].0].value,
            forall|i: int|
                0 <= i < r@.len() ==> final(self)@.edges[(#[trigger] r@[i]).0].value
                    == *final(r@[i].1),
            old(self).node_census().step(final(self).node_census()),
            old(self).edge_census().step(final(self).edge_census()),
            old(self)@.same_endpoints(final(self)@),
    {
        let mut items = self.edges.iter_mut();
        let ghost all = items@;
        let mut out: Vec<(EdgeKey, &mut E)> = Vec::new();
        while items.len() > 0
            invariant
                items@.len() + out@.len() == all.len(),
                items@ == all.take(items@.len() as int),
                forall|j: int|
                    0 <= j < out@.len() ==> (#[trigger] out@[j]).0 == EdgeKey::of(
                        all[all.len() - 1 - j].0,
                    ),
                forall|j: int|
                    0 <= j < out@.len() ==> *(#[trigger] out@[j]).1 == all[all.len() - 1
                        - j].1.value,
                forall|j: int|
                    0 <= j < out@.len() ==> (#[trigger] out@[j]).0 == out@[j].0
                        && *final(all[all.len() - 1 - j].1) == (Edge {
                        from: all[all.len() - 1 - j].1.from,
                        to: all[all.len() - 1 - j].1.to,
                        value: *final(out@[j].1),
                    }),
            decreases items@.len(),
        {
            match items.pop() {
                Some((h, edge)) => {
                    out.push((EdgeKey::from_handle(h), &mut edge.value));
                },
                None => {},
            }
        }
        proof {
            let n = all.len() as int;
            let handles = all.map_values(|e: (Handle, &mut Edge<E>)| e.0);
            let keys = out@.map_values(|e: (EdgeKey, &mut E)| e.0);
            lemma_listing_len(handles, old(self).edges@.dom());
            lemma_listing_renamed(
                handles,
                old(self).edges@.dom(),
                old(self)@.edges.dom(),
                |h: Handle| EdgeKey::of(h),
                |k: EdgeKey| k.handle(),
            );
            let forward = handles.map_values(|h: Handle| EdgeKey::of(h));
            lemma_listing_reversed(forward, keys, old(self)@.edges.dom());
            assert forall|i: int| 0 <= i < out@.len() implies old(self)@.edges.contains_key(
                (#[trigger] out@[i]).0,
            ) by {
                let k = n - 1 - i;
                assert(handles[k] == all[k].0);
                assert(handles.to_set().contains(handles[k]));
            }
        }
        out
    }

    /// Takes the graph apart into its live edge keys and their payloads,
    /// each once, in no particular order.
    pub fn into_edge_iter(self) -> (r: Vec<(EdgeKey, E)>)
        requires
            self.wf(),
        ensures
            lists_each_once(r@.map_values(|e: (EdgeKey, E)| e.0), self@.edges.dom()),
            forall|i: int|
                0 <= i < r@.len() ==> (#[trigger] r@[i]).1 == self@.edges[r@[i].0].value,
    {
        let mut items = self.edges.into_entries();
        let ghost all = items@;
        let mut out: Vec<(EdgeKey, E)> = Vec::new();
        while items.len() > 0
            invariant
                items@.len() + out@.len() == all.len(),
                items@ == all.take(items@.len() as int),
                forall|j: int|
                    0 <= j < out@.len() ==> (#[trigger] out@[j]).0 == EdgeKey::of(
                        all[all.len() - 1 - j].0,
                    ) && out@[j].1 == all[all.len() - 1 - j].1.value,
            decreases items@.len(),
        {
            match items.pop() {
                Some((h, edge)) => {
                    out.push((EdgeKey::from_handle(h), edge.value));
                },
                None => {},
            }
        }
        proof {
            let n = all.len() as int;
            let handles = all.map_values(|e: (Handle, Edge<E>)| e.0);
            let keys = out@.map_values(|e: (EdgeKey, E)| e.0);
            lemma_listing_renamed(
                handles,
                self.edges@.dom(),
                self@.edges.dom(),
                |h: Handle| EdgeKey::of(h),
                |k: EdgeKey| k.handle(),
            );
            let forward = handles.map_values(|h: Handle| EdgeKey::of(h));
            lemma_listing_reversed(forward, keys, self@.edges.dom());
            assert forall|i: int| 0 <= i < out@.len() implies (#[trigger] out@[i]).1
                == self@.edges[out@[i].0].value by {
                let k = n - 1 - i;
                assert(handles[k] == all[k].0);
                assert(handles.to_set().contains(handles[k]));
                assert(all[k].1 == self.edges@[all[k].0]);
            }
        }
        out
    }
}

/// Along a run of states of which each keeps the endpoints of the one
/// before it, an edge that is live in every state has the same endpoints in
/// every state.
pub proof fn lemma_endpoints_stable<N, E>(
    states: Seq<GraphView<N, E>>,
    e: EdgeKey,
    i: int,
    j: int,
)
    requires
        forall|k: int|
            0 <= k < states.len() - 1 ==> (#[trigger] states[k]).same_endpoints(states[k + 1]),
        forall|k: int| 0 <= k < states.len() ==> (#[trigger] states[k]).edges.contains_key(e),
        0 <= i <= j < states.len(),
    ensures
        states[j].edges[e].from == states[i].edges[e].from,
        states[j].edges[e].to == states[i].edges[e].to,
    decreases j - i,
{
    if i < j {
        lemma_endpoints_stable(states, e, i, j - 1);
        assert(states[j - 1].same_endpoints(states[j]));
        assert(states[j - 1].edges.contains_key(e));
        assert(states[j].edges.contains_key(e));
    }
}

} // verus!

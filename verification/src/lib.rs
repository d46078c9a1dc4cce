//! Directed-graph containers over generational slot arenas.
//!
//! [`arena::Arena`] stores payloads behind generational handles.
//! [`slotgraph::SlotGraph`] keeps node and edge payloads in two arenas, with
//! handle types of their own. [`adj_graph::AdjGraph`] adds per-node lists of
//! outgoing and incoming edges. [`SlotGraph`], here, is the plain form:
//! node payloads and, for each node, the lists of its neighbours.
use vstd::prelude::*;

pub mod adj_graph;
pub mod arena;
pub mod handle;
pub mod history;
pub mod lists;
pub mod slotgraph;
pub mod slots;

use crate::arena::Arena;
use crate::handle::Handle;
use crate::lists::{
    first_position, lemma_first_position, lemma_push_contains, lemma_push_occurrences,
    lemma_swap_removed_occurrences, occurrences, position, swap_removed, HandleLists,
};
use crate::slots::SLOT_LIMIT;

verus! {

/// `b` stands in the out-list of `a` as often as `a` in the in-list of `b`.
spec fn balanced(
    out: Map<Handle, Seq<Handle>>,
    inn: Map<Handle, Seq<Handle>>,
    a: Handle,
    b: Handle,
) -> bool {
    occurrences(out[a], b) == occurrences(inn[b], a)
}

/// A directed graph of node payloads, with the successors and the
/// predecessors of each node listed. Between two nodes there may be several
/// edges, and a node may have an edge to itself.
pub struct SlotGraph<V> {
    nodes: Arena<V>,
    adj_in: HandleLists<Handle>,
    adj_out: HandleLists<Handle>,
}

impl<V> SlotGraph<V> {
    /// The payload of each node.
    pub closed spec fn nodes(&self) -> Map<Handle, V> {
        self.nodes@
    }

    /// For each node, the nodes its edges lead to, one entry per edge.
    pub closed spec fn successors(&self) -> Map<Handle, Seq<Handle>> {
        self.adj_out@
    }

    /// For each node, the nodes its incoming edges come from, one entry per
    /// edge.
    pub closed spec fn predecessors(&self) -> Map<Handle, Seq<Handle>> {
        self.adj_in@
    }

    /// Every node has both lists, every entry names a node, and `b` stands
    /// among the successors of `a` as often as `a` among the predecessors of
    /// `b`.
    pub closed spec fn wf(&self) -> bool {
        &&& self.nodes.wf()
        &&& self.adj_in.wf()
        &&& self.adj_out.wf()
        &&& self.adj_out@.dom() =~= self.nodes@.dom()
        &&& self.adj_in@.dom() =~= self.nodes@.dom()
        &&& forall|a: Handle, b: Handle|
            self.adj_out@.contains_key(a) && #[trigger] self.adj_out@[a].contains(b)
                ==> self.nodes@.contains_key(b)
        &&& forall|a: Handle, b: Handle|
            self.adj_in@.contains_key(a) && #[trigger] self.adj_in@[a].contains(b)
                ==> self.nodes@.contains_key(b)
        &&& forall|a: Handle, b: Handle|
            self.nodes@.contains_key(a) && self.nodes@.contains_key(b) ==> #[trigger] balanced(
                self.adj_out@,
                self.adj_in@,
                a,
                b,
            )
    }

    /// The lists agree with one another and with the nodes, which are
    /// finitely many.
    pub proof fn lemma_lists_agree(&self, a: Handle, b: Handle)
        requires
            self.wf(),
        ensures
            self.nodes().dom().finite(),
            self.successors().dom() == self.nodes().dom(),
            self.predecessors().dom() == self.nodes().dom(),
            self.nodes().contains_key(a) && self.nodes().contains_key(b) ==> occurrences(
                self.successors()[a],
                b,
            ) == occurrences(self.predecessors()[b], a),
            self.nodes().contains_key(a) && self.successors()[a].contains(b)
                ==> self.nodes().contains_key(b),
            self.nodes().contains_key(a) && self.predecessors()[a].contains(b)
                ==> self.nodes().contains_key(b),
    {
        self.nodes.lemma_order();
        if self.nodes@.contains_key(a) && self.nodes@.contains_key(b) {
            assert(balanced(self.adj_out@, self.adj_in@, a, b));
        }
    }

    /// The empty graph.
    pub fn new() -> (g: SlotGraph<V>)
        ensures
            g.wf(),
            g.nodes() == Map::<Handle, V>::empty(),
            g.successors() == Map::<Handle, Seq<Handle>>::empty(),
            g.predecessors() == Map::<Handle, Seq<Handle>>::empty(),
    {
        SlotGraph::with_key()
    }

    /// The empty graph.
    pub fn with_key() -> (g: SlotGraph<V>)
        ensures
            g.wf(),
            g.nodes() == Map::<Handle, V>::empty(),
            g.successors() == Map::<Handle, Seq<Handle>>::empty(),
            g.predecessors() == Map::<Handle, Seq<Handle>>::empty(),
    {
        let g = SlotGraph {
            nodes: Arena::new(),
            adj_out: HandleLists::new(),
            adj_in: HandleLists::new(),
        };
        g
    }

    /// The payload of a node, if the key names one.
    pub fn get(&self, key: Handle) -> (r: Option<&V>)
        requires
            self.wf(),
        ensures
            r == (if self.nodes().contains_key(key) {
                Some(&self.nodes()[key])
            } else {
                None
            }),
    {
        self.nodes.get(key)
    }

    /// The payload of a node for writing, if the key names one. What the
    /// caller leaves there is the node's payload from then on.
    pub fn get_mut(&mut self, key: Handle) -> (r: Option<&mut V>)
        requires
            old(self).wf(),
        ensures
            final(self).wf(),
            final(self).successors() == old(self).successors(),
            final(self).predecessors() == old(self).predecessors(),
            r.is_some() == old(self).nodes().contains_key(key),
            match r {
                Some(v) => *v == old(self).nodes()[key] && final(self).nodes() == old(
                    self,
                ).nodes().insert(key, *final(v)),
                None => final(self).nodes() == old(self).nodes(),
            },
    {
        self.nodes.get_mut(key)
    }

    /// Adds a node without edges and returns its key, which no node had
    /// before.
    pub fn insert_node(&mut self, value: V) -> (key: Handle)
        requires
            old(self).wf(),
            old(self).nodes().len() < SLOT_LIMIT,
        ensures
            final(self).wf(),
            !old(self).nodes().contains_key(key),
            final(self).nodes() == old(self).nodes().insert(key, value),
            final(self).successors() == old(self).successors().insert(key, Seq::empty()),
            final(self).predecessors() == old(self).predecessors().insert(key, Seq::empty()),
    {
        let key = self.nodes.insert(value);
        self.adj_in.track(key);
        self.adj_out.track(key);
        proof {
            Seq::<Handle>::empty().to_multiset_ensures();
            assert forall|a: Handle, b: Handle|
                self.nodes@.contains_key(a) && self.nodes@.contains_key(b)
                    implies #[trigger] balanced(
                self.adj_out@,
                self.adj_in@,
                a,
                b,
            ) by {
                if a != key && b != key {
                    assert(balanced(old(self).adj_out@, old(self).adj_in@, a, b));
                } else if a == key && b != key {
                    old(self).adj_in@[b].to_multiset_ensures();
                    assert(!old(self).adj_in@[b].contains(key));
                } else if a != key && b == key {
                    old(self).adj_out@[a].to_multiset_ensures();
                    assert(!old(self).adj_out@[a].contains(key));
                }
            }
        }
        key
    }

    /// Whether the key names a node.
    pub fn contains_node(&self, key: Handle) -> (r: bool)
        requires
            self.wf(),
        ensures
            r == self.nodes().contains_key(key),
    {
        self.nodes.contains(key)
    }
    /// Adds an edge from `from` to `to`: `to` goes to the end of the
    /// successors of `from`, and `from` to the end of the predecessors of
    /// `to`.
    ///
    /// Fails, and changes nothing, when an endpoint is not a node: the error
    /// is that endpoint, `from` before `to`.
    pub fn insert_edge(&mut self, from: Handle, to: Handle) -> (r: Result<(), Handle>)
        requires
            old(self).wf(),
        ensures
            final(self).wf(),
            final(self).nodes() == old(self).nodes(),
            r.is_ok() <==> old(self).nodes().contains_key(from) && old(self).nodes().contains_key(
                to,
            ),
            match r {
                Ok(_) => {
                    &&& final(self).successors() == old(self).successors().insert(
                        from,
                        old(self).successors()[from].push(to),
                    )
                    &&& final(self).predecessors() == old(self).predecessors().insert(
                        to,
                        old(self).predecessors()[to].push(from),
                    )
                },
                Err(unknown) => {
                    &&& unknown == (if old(self).nodes().contains_key(from) {
                        to
                    } else {
                        from
                    })
                    &&& final(self).successors() == old(self).successors()
                    &&& final(self).predecessors() == old(self).predecessors()
                },
            },
    {
        if !self.adj_out.tracks(from) {
            return Err(from);
        }
        if !self.adj_in.tracks(to) {
            return Err(to);
        }
        match self.adj_out.get_mut(from) {
            Some(list) => {
                list.push(to);
            },
            None => {},
        }
        match self.adj_in.get_mut(to) {
            Some(list) => {
                list.push(from);
            },
            None => {},
        }
        proof {
            let out0 = old(self).adj_out@;
            let in0 = old(self).adj_in@;
            assert(self.adj_out@ == out0.insert(from, out0[from].push(to)));
            assert(self.adj_in@ == in0.insert(to, in0[to].push(from)));
            assert forall|a: Handle, b: Handle|
                self.adj_out@.contains_key(a) && #[trigger] self.adj_out@[a].contains(
                    b,
                ) implies self.nodes@.contains_key(b) by {
                if a == from {
                    lemma_push_contains(out0[from], to, b);
                }
                if b != to {
                    assert(out0[a].contains(b));
                }
            }
            assert forall|a: Handle, b: Handle|
                self.adj_in@.contains_key(a) && #[trigger] self.adj_in@[a].contains(
                    b,
                ) implies self.nodes@.contains_key(b) by {
                if a == to {
                    lemma_push_contains(in0[to], from, b);
                }
                if b != from {
                    assert(in0[a].contains(b));
                }
            }
            assert forall|a: Handle, b: Handle|
                self.nodes@.contains_key(a) && self.nodes@.contains_key(b)
                    implies #[trigger] balanced(
                self.adj_out@,
                self.adj_in@,
                a,
                b,
            ) by {
                assert(balanced(old(self).adj_out@, old(self).adj_in@, a, b));
                lemma_push_occurrences(out0[from], to, b);
                lemma_push_occurrences(in0[to], from, a);
            }
        }
        Ok(())
    }

    /// Whether there is an edge from `from` to `to`. There is none unless
    /// both are nodes.
    pub fn contains_edge(&self, from: Handle, to: Handle) -> (r: bool)
        requires
            self.wf(),
        ensures
            r == (self.nodes().contains_key(from) && self.successors()[from].contains(to)),
            r ==> self.nodes().contains_key(to),
            r == (self.nodes().contains_key(to) && self.predecessors()[to].contains(from)),
    {
        proof {
            if self.nodes@.contains_key(from) && self.nodes@.contains_key(to) {
                assert(balanced(self.adj_out@, self.adj_in@, from, to));
                self.adj_out@[from].to_multiset_ensures();
                self.adj_in@[to].to_multiset_ensures();
            }
        }
        match self.adj_out.get(from) {
            Some(list) => position(list, to).is_some(),
            None => false,
        }
    }

    /// Removes one edge from `from` to `to`, if there is one: the first
    /// `to` among the successors of `from` and the first `from` among the
    /// predecessors of `to` leave their lists, and the last entry of each
    /// list takes the place left free.
    ///
    /// Fails, and changes nothing, when an endpoint is not a node: the error
    /// is that endpoint, `from` before `to`.
    pub fn remove_edge(&mut self, from: Handle, to: Handle) -> (r: Result<(), Handle>)
        requires
            old(self).wf(),
        ensures
            final(self).wf(),
            final(self).nodes() == old(self).nodes(),
            r.is_ok() <==> old(self).nodes().contains_key(from) && old(self).nodes().contains_key(
                to,
            ),
            r matches Err(unknown) ==> unknown == (if old(self).nodes().contains_key(from) {
                to
            } else {
                from
            }),
            r.is_ok() && old(self).successors()[from].contains(to) ==> {
                &&& final(self).successors() == old(self).successors().insert(
                    from,
                    swap_removed(
                        old(self).successors()[from],
                        first_position(old(self).successors()[from], to),
                    ),
                )
                &&& final(self).predecessors() == old(self).predecessors().insert(
                    to,
                    swap_removed(
                        old(self).predecessors()[to],
                        first_position(old(self).predecessors()[to], from),
                    ),
                )
            },
            r.is_err() || !old(self).successors()[from].contains(to) ==> {
                &&& final(self).successors() == old(self).successors()
                &&& final(self).predecessors() == old(self).predecessors()
            },
    {
        if !self.adj_out.tracks(from) {
            return Err(from);
        }
        if !self.adj_in.tracks(to) {
            return Err(to);
        }
        let idx_out = match self.adj_out.get(from) {
            Some(list) => position(list, to),
            None => None,
        };
        let idx_in = match self.adj_in.get(to) {
            Some(list) => position(list, from),
            None => None,
        };
        proof {
            assert(balanced(self.adj_out@, self.adj_in@, from, to));
            self.adj_out@[from].to_multiset_ensures();
            self.adj_in@[to].to_multiset_ensures();
        }
        match (idx_out, idx_in) {
            (Some(i), Some(j)) => {
                match self.adj_out.get_mut(from) {
                    Some(list) => {
                        let _ = list.swap_remove(i);
                    },
                    None => {},
                }
                match self.adj_in.get_mut(to) {
                    Some(list) => {
                        let _ = list.swap_remove(j);
                    },
                    None => {},
                }
                proof {
                    let out0 = old(self).adj_out@;
                    let in0 = old(self).adj_in@;
                    lemma_first_position(out0[from], to, i as int);
                    lemma_first_position(in0[to], from, j as int);
                    assert(self.adj_out@ == out0.insert(from, swap_removed(out0[from], i as int)));
                    assert(self.adj_in@ == in0.insert(to, swap_removed(in0[to], j as int)));
                    assert forall|a: Handle, b: Handle|
                        self.adj_out@.contains_key(a) && #[trigger] self.adj_out@[a].contains(
                            b,
                        ) implies self.nodes@.contains_key(b) by {
                        if a == from {
                            lemma_swap_removed_occurrences(out0[from], i as int, b);
                        }
                        assert(out0[a].contains(b));
                    }
                    assert forall|a: Handle, b: Handle|
                        self.adj_in@.contains_key(a) && #[trigger] self.adj_in@[a].contains(
                            b,
                        ) implies self.nodes@.contains_key(b) by {
                        if a == to {
                            lemma_swap_removed_occurrences(in0[to], j as int, b);
                        }
                        assert(in0[a].contains(b));
                    }
                    assert forall|a: Handle, b: Handle|
                        self.nodes@.contains_key(a) && self.nodes@.contains_key(b)
                            implies #[trigger] balanced(
                        self.adj_out@,
                        self.adj_in@,
                        a,
                        b,
                    ) by {
                        assert(balanced(old(self).adj_out@, old(self).adj_in@, a, b));
                        lemma_swap_removed_occurrences(out0[from], i as int, b);
                        lemma_swap_removed_occurrences(in0[to], j as int, a);
                    }
                }
            },
            _ => {},
        }
        Ok(())
    }

    /// The predecessors of `node`, one entry per incoming edge; nothing if
    /// `node` is not a node.
    pub fn iter_in(&self, node: Handle) -> (r: Option<Vec<Handle>>)
        requires
            self.wf(),
        ensures
            r.is_some() == self.nodes().contains_key(node),
            r matches Some(list) ==> list@ == self.predecessors()[node],
    {
        match self.adj_in.get(node) {
            Some(list) => Some(copy_of(list)),
            None => None,
        }
    }

    /// The successors of `node`, one entry per outgoing edge; nothing if
    /// `node` is not a node.
    pub fn iter_out(&self, node: Handle) -> (r: Option<Vec<Handle>>)
        requires
            self.wf(),
        ensures
            r.is_some() == self.nodes().contains_key(node),
            r matches Some(list) ==> list@ == self.successors()[node],
    {
        match self.adj_out.get(node) {
            Some(list) => Some(copy_of(list)),
            None => None,
        }
    }
}

/// A list with the same entries in the same order.
fn copy_of(list: &Vec<Handle>) -> (copy: Vec<Handle>)
    ensures
        copy@ == list@,
{
    let mut copy: Vec<Handle> = Vec::new();
    let mut i: usize = 0;
    while i < list.len()
        invariant
            i <= list@.len(),
            copy@ == list@.take(i as int),
        decreases list@.len() - i,
    {
        copy.push(list[i]);
        i += 1;
        assert(copy@ =~= list@.take(i as int));
    }
    assert(list@.take(i as int) =~= list@);
    copy
}

} // verus!

//! The two forms of a graph in memory: unresolved, as read from storage, its
//! adjacency entries bare indices; and resolved, every entry validated against
//! the graph.

use vstd::prelude::*;
use crate::hnsw::{
    lists_of, views_of, EntrencePoint, Graph, GraphError, GraphView, NodePtr, NodeView,
};

verus! {

/// The entries of `list` as resolved entries.
pub open spec fn resolved_list(list: Seq<NodePtr>) -> Seq<NodePtr> {
    list.map_values(|p: NodePtr| NodePtr::Ptr(p.target()))
}

/// The entries of `list` as bare indices.
pub open spec fn unresolved_list(list: Seq<NodePtr>) -> Seq<NodePtr> {
    list.map_values(|p: NodePtr| NodePtr::Index(p.target()))
}

/// The adjacency lists `layers` with resolved entries.
pub open spec fn resolved_layers(layers: Seq<Seq<NodePtr>>) -> Seq<Seq<NodePtr>> {
    layers.map_values(|l: Seq<NodePtr>| resolved_list(l))
}

/// The adjacency lists `layers` with bare indices for entries.
pub open spec fn unresolved_layers(layers: Seq<Seq<NodePtr>>) -> Seq<Seq<NodePtr>> {
    layers.map_values(|l: Seq<NodePtr>| unresolved_list(l))
}

impl NodeView {
    /// The node with every adjacency entry resolved.
    pub open spec fn resolution(self) -> NodeView {
        NodeView { friend_layers: resolved_layers(self.friend_layers), ..self }
    }

    /// The node with every adjacency entry a bare index.
    pub open spec fn unresolved(self) -> NodeView {
        NodeView { friend_layers: unresolved_layers(self.friend_layers), ..self }
    }
}

impl GraphView {
    /// The graph with its entrance and every adjacency entry resolved.
    pub open spec fn resolution(self) -> GraphView {
        GraphView {
            nodes: self.nodes.map_values(|n: NodeView| n.resolution()),
            entrence_point: EntrencePoint::Weak(self.entrence_point.target()),
            ..self
        }
    }

    /// The graph with its entrance and every adjacency entry a bare index: the
    /// form in which it comes from storage.
    pub open spec fn unresolved(self) -> GraphView {
        GraphView {
            nodes: self.nodes.map_values(|n: NodeView| n.unresolved()),
            entrence_point: EntrencePoint::Index(self.entrence_point.target()),
            ..self
        }
    }

    /// A well-formed graph is the resolution of its unresolved form, and its
    /// own resolution.
    pub proof fn lemma_resolution(self)
        requires
            self.wf(),
        ensures
            self.unresolved().resolution() == self,
            self.resolution() == self,
    {
        let r = self.unresolved().resolution();
        let q = self.resolution();
        assert forall|i: int| 0 <= i < self.nodes.len() implies #[trigger] r.nodes[i]
            == self.nodes[i] by {
            self.lemma_resolution_of_node(i);
        }
        assert forall|i: int| 0 <= i < self.nodes.len() implies #[trigger] q.nodes[i]
            == self.nodes[i] by {
            self.lemma_resolution_of_node(i);
        }
        assert(r.nodes =~= self.nodes);
        assert(q.nodes =~= self.nodes);
    }

    /// A node of a well-formed graph is the resolution of its unresolved form,
    /// and its own resolution.
    pub proof fn lemma_resolution_of_node(self, i: int)
        requires
            self.wf(),
            0 <= i < self.nodes.len(),
        ensures
            self.nodes[i].unresolved().resolution() == self.nodes[i],
            self.nodes[i].resolution() == self.nodes[i],
    {
        assert(self.node_wf(i));
        let b = self.nodes[i].friend_layers;
        let a = self.nodes[i].unresolved().resolution().friend_layers;
        let c = self.nodes[i].resolution().friend_layers;
        assert forall|l: int| 0 <= l < b.len() implies #[trigger] a[l] == b[l] by {
            assert(self.list_wf(i, l));
            assert forall|j: int| 0 <= j < b[l].len() implies #[trigger] a[l][j] == b[l][j] by {
                assert(b[l][j] is Ptr);
            }
            assert(a[l] =~= b[l]);
        }
        assert forall|l: int| 0 <= l < b.len() implies #[trigger] c[l] == b[l] by {
            assert(self.list_wf(i, l));
            assert forall|j: int| 0 <= j < b[l].len() implies #[trigger] c[l][j] == b[l][j] by {
                assert(b[l][j] is Ptr);
            }
            assert(c[l] =~= b[l]);
        }
        assert(a =~= b);
        assert(c =~= b);
    }
}

/// Resolves every entry of an adjacency list.
fn resolve_list(list: &mut Vec<NodePtr>)
    ensures
        final(list)@ == resolved_list(old(list)@),
{
    let mut j: usize = 0;
    while j < list.len()
        invariant
            j <= list.len(),
            list.len() == old(list).len(),
            forall|k: int| 0 <= k < j ==> #[trigger] list@[k] == NodePtr::Ptr(old(list)@[k].target()),
            forall|k: int| j <= k < list.len() ==> #[trigger] list@[k] == old(list)@[k],
        decreases list.len() - j,
    {
        let t: usize = match list[j] {
            NodePtr::Ptr(t) => t,
            NodePtr::Index(t) => t,
        };
        list[j] = NodePtr::Ptr(t);
        j = j + 1;
    }
    assert(list@ =~= resolved_list(old(list)@));
}

/// Resolves every entry of the adjacency lists of a node.
fn resolve_layers(layers: &mut Vec<Vec<NodePtr>>)
    ensures
        lists_of(final(layers)@) == resolved_layers(lists_of(old(layers)@)),
{
    let mut l: usize = 0;
    while l < layers.len()
        invariant
            l <= layers.len(),
            layers.len() == old(layers).len(),
            forall|k: int| 0 <= k < l ==> (#[trigger] layers@[k])@ == resolved_list(old(layers)@[k]@),
            forall|k: int| l <= k < layers.len() ==> #[trigger] layers@[k] == old(layers)@[k],
        decreases layers.len() - l,
    {
        resolve_list(&mut layers[l]);
        l = l + 1;
    }
    assert(lists_of(layers@) =~= resolved_layers(lists_of(old(layers)@)));
}

impl Graph {
    /// Whether the adjacency list of node `i` on layer `l` is within its limit
    /// and names only nodes of that layer.
    fn list_valid(&self, i: usize, l: usize) -> (r: bool)
        requires
            i < self.nodes.len(),
            l < self.nodes[i as int].friend_layers.len(),
        ensures
            r == self@.resolution().list_wf(i as int, l as int),
    {
        let ghost rv = self@.resolution();
        let list = &self.nodes[i].friend_layers[l];
        let ghost rl = rv.friends(i as int, l as int);
        assert(rl == resolved_list(list@));
        let limit = if l > 0 {
            self.m_max
        } else {
            self.m_max0
        };
        if list.len() > limit {
            return false;
        }
        let mut j: usize = 0;
        while j < list.len()
            invariant
                j <= list.len(),
                rv == self@.resolution(),
                rl == resolved_list(list@),
                rl == rv.friends(i as int, l as int),
                forall|k: int|
                    0 <= k < j ==> (#[trigger] rl[k]) is Ptr && rv.on_layer(
                        rl[k].target() as int,
                        l as int,
                    ),
            decreases list.len() - j,
        {
            let t: usize = match list[j] {
                NodePtr::Ptr(t) => t,
                NodePtr::Index(t) => t,
            };
            assert(rl[j as int].target() == t);
            assert(t < self.nodes.len() ==> rv.nodes[t as int].max_level
                == self.nodes@[t as int].max_level);
            if t >= self.nodes.len() || self.nodes[t].max_level < l {
                assert(!rv.on_layer(rl[j as int].target() as int, l as int));
                assert(!rv.list_on_layer(rl, l as int));
                return false;
            }
            assert(rv.nodes[t as int].max_level == self.nodes@[t as int].max_level);
            j = j + 1;
        }
        true
    }

    /// Whether node `i` knows its index, holds a vector of the graph's
    /// dimension, and has one valid adjacency list for each layer up to its
    /// own, which lies below the number of layers.
    fn node_valid(&self, i: usize) -> (r: bool)
        requires
            i < self.nodes.len(),
        ensures
            r == self@.resolution().node_wf(i as int),
    {
        let ghost rv = self@.resolution();
        let node = &self.nodes[i];
        assert(rv.nodes[i as int] == node@.resolution());
        if node.index != i || node.vector.len() != self.dimension || node.max_level
            >= self.layer_count || node.friend_layers.len() != node.max_level + 1 {
            return false;
        }
        let mut l: usize = 0;
        while l <= node.max_level
            invariant
                l <= node.max_level + 1,
                node.max_level < usize::MAX,
                i < self.nodes.len(),
                node == self.nodes@[i as int],
                node.friend_layers.len() == node.max_level + 1,
                rv == self@.resolution(),
                forall|k: int| 0 <= k < l ==> #[trigger] rv.list_wf(i as int, k),
            decreases node.max_level + 1 - l,
        {
            if !self.list_valid(i, l) {
                return false;
            }
            l = l + 1;
        }
        true
    }

    /// Whether the graph, once resolved, is well-formed: whether `resolve`
    /// accepts it.
    pub fn is_valid(&self) -> (r: bool)
        ensures
            r == self@.resolution().wf(),
    {
        let ghost rv = self@.resolution();
        if self.m_max == 0 || self.m_max0 == 0 || self.canidate_list_size == 0 || self.layer_count
            == 0 {
            return false;
        }
        let e: usize = match self.entrence_point {
            EntrencePoint::Weak(e) => e,
            EntrencePoint::Index(e) => e,
        };
        if e >= self.nodes.len() || self.nodes[e].max_level < self.layer_count - 1 {
            return false;
        }
        assert(rv.nodes[e as int].max_level == self.nodes@[e as int].max_level);
        let mut i: usize = 0;
        while i < self.nodes.len()
            invariant
                i <= self.nodes.len(),
                rv == self@.resolution(),
                forall|k: int| 0 <= k < i ==> #[trigger] rv.node_wf(k),
            decreases self.nodes.len() - i,
        {
            if !self.node_valid(i) {
                return false;
            }
            i = i + 1;
        }
        true
    }

    /// Resolves the graph: makes sure that every index in it names a node that
    /// the invariant of a graph allows there, and then turns the entrance and
    /// every adjacency entry into a resolved one. A graph that breaks the
    /// invariant is left as it was.
    pub fn resolve(&mut self) -> (r: Result<(), GraphError>)
        ensures
            old(self)@.resolution().wf() ==> r is Ok && final(self)@ == old(self)@.resolution(),
            !old(self)@.resolution().wf() ==> r == Err::<(), GraphError>(GraphError::FormatError)
                && final(self)@ == old(self)@,
    {
        if !self.is_valid() {
            return Err(GraphError::FormatError);
        }
        let ghost before = self@;
        let e: usize = match self.entrence_point {
            EntrencePoint::Weak(e) => e,
            EntrencePoint::Index(e) => e,
        };
        self.entrence_point = EntrencePoint::Weak(e);
        let mut i: usize = 0;
        while i < self.nodes.len()
            invariant
                i <= self.nodes.len(),
                self@.nodes.len() == before.nodes.len(),
                self@ == (GraphView { nodes: self@.nodes, ..before.resolution() }),
                forall|k: int| 0 <= k < i ==> #[trigger] self@.nodes[k] == before.nodes[k].resolution(),
                forall|k: int| i <= k < self.nodes.len() ==> #[trigger] self@.nodes[k] == before.nodes[k],
            decreases self.nodes.len() - i,
        {
            let ghost prev = self.nodes@;
            resolve_layers(&mut self.nodes[i].friend_layers);
            proof {
                let now = self.nodes@;
                assert forall|k: int| 0 <= k < now.len() && k != i implies now[k] == prev[k] by {}
                assert(now[i as int]@ == prev[i as int]@.resolution());
                assert forall|k: int| 0 <= k < i + 1 implies #[trigger] self@.nodes[k]
                    == before.nodes[k].resolution() by {
                    if k < i {
                        assert(now[k] == prev[k]);
                        assert(views_of(prev)[k] == before.nodes[k].resolution());
                    } else {
                        assert(views_of(prev)[k] == before.nodes[k]);
                        assert(views_of(now)[k] == now[k]@);
                    }
                }
                assert forall|k: int| i + 1 <= k < self.nodes.len() implies #[trigger] self@.nodes[k]
                    == before.nodes[k] by {
                    assert(now[k] == prev[k]);
                    assert(views_of(prev)[k] == before.nodes[k]);
                }
            }
            i = i + 1;
        }
        assert(self@.nodes =~= before.resolution().nodes);
        Ok(())
    }
}

} // verus!

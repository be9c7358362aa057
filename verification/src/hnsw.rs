//! The layered proximity graph: its nodes, its invariant and insertion.

use vstd::prelude::*;
use vstd::slice::slice_to_vec;
use crate::distance::{is_metric, measure, metric};
use crate::heap::{enqueue, lemma_ordered, ordered, NodeHeapItem};
pub use crate::search::knn_search;
use crate::search::{descend, search_layer};

verus! {

/// What an operation on a graph can fail with.
#[derive(Clone, Copy, Debug, PartialEq, Eq, Structural)]
pub enum GraphError {
    /// A vector's length is not the graph's dimension.
    DimensionMismatch,
    /// A parameter is zero, or more results are asked for than the search keeps.
    InvalidParameter,
    /// Stored bytes do not describe a graph.
    FormatError,
    /// The graph still holds bare indices read from storage.
    UnresolvedGraph,
}

/// A neighbour in an adjacency list.
#[derive(Clone, Copy, Debug, PartialEq, Eq, Structural)]
pub enum NodePtr {
    /// A neighbour known to be a node of the graph.
    Ptr(usize),
    /// A bare index as read from storage, not yet validated against the graph.
    Index(usize),
}

impl NodePtr {
    /// The index that the entry holds, validated or not.
    pub open spec fn target(self) -> usize {
        match self {
            NodePtr::Ptr(i) => i,
            NodePtr::Index(i) => i,
        }
    }

    /// The node referred to, if the entry is resolved.
    pub fn ptr(&self) -> (r: Option<usize>)
        ensures
            r == (match *self {
                NodePtr::Ptr(i) => Some(i),
                NodePtr::Index(_) => None,
            }),
    {
        if let NodePtr::Ptr(i) = self {
            Some(*i)
        } else {
            None
        }
    }

    /// The bare index, if the entry is unresolved.
    pub fn index(&self) -> (r: Option<usize>)
        ensures
            r == (match *self {
                NodePtr::Ptr(_) => None,
                NodePtr::Index(i) => Some(i),
            }),
    {
        if let NodePtr::Index(i) = self {
            Some(*i)
        } else {
            None
        }
    }
}

/// The node at which every descent begins.
#[derive(Clone, Copy, Debug, PartialEq, Eq, Structural)]
pub enum EntrencePoint {
    /// The entrance of a resolved graph.
    Weak(usize),
    /// The entrance as read from storage, not yet validated against the graph.
    Index(usize),
}

impl EntrencePoint {
    /// The index that the entrance holds, validated or not.
    pub open spec fn target(self) -> usize {
        match self {
            EntrencePoint::Weak(i) => i,
            EntrencePoint::Index(i) => i,
        }
    }

    /// The entrance node, if the graph is resolved.
    pub fn weak(&self) -> (r: Option<usize>)
        ensures
            r == (match *self {
                EntrencePoint::Weak(i) => Some(i),
                EntrencePoint::Index(_) => None,
            }),
    {
        if let EntrencePoint::Weak(i) = self {
            Some(*i)
        } else {
            None
        }
    }

    /// The bare index, if the graph is unresolved.
    pub fn index(&self) -> (r: Option<usize>)
        ensures
            r == (match *self {
                EntrencePoint::Weak(_) => None,
                EntrencePoint::Index(i) => Some(i),
            }),
    {
        if let EntrencePoint::Index(i) = self {
            Some(*i)
        } else {
            None
        }
    }
}

/// A stored vector with its adjacency lists, one per layer it takes part in.
#[derive(Clone, Debug)]
pub struct Node {
    /// The node's position in the graph, fixed when it is inserted.
    pub index: usize,
    /// `friend_layers[l]` lists the neighbours on layer `l`.
    pub friend_layers: Vec<Vec<NodePtr>>,
    /// The highest layer the node takes part in.
    pub max_level: usize,
    /// The payload, as 64-bit IEEE-754 patterns.
    pub vector: Vec<u64>,
}

/// The mathematical content of a [`Node`].
#[verifier::ext_equal]
pub struct NodeView {
    pub index: usize,
    pub friend_layers: Seq<Seq<NodePtr>>,
    pub max_level: usize,
    pub vector: Seq<u64>,
}

/// The contents of the adjacency lists `layers`.
pub open spec fn lists_of(layers: Seq<Vec<NodePtr>>) -> Seq<Seq<NodePtr>> {
    layers.map_values(|l: Vec<NodePtr>| l@)
}

/// The contents of the nodes `nodes`.
pub open spec fn views_of(nodes: Seq<Node>) -> Seq<NodeView> {
    nodes.map_values(|n: Node| n@)
}

impl View for Node {
    type V = NodeView;

    open spec fn view(&self) -> NodeView {
        NodeView {
            index: self.index,
            friend_layers: lists_of(self.friend_layers@),
            max_level: self.max_level,
            vector: self.vector@,
        }
    }
}

impl NodeView {
    /// A node on the layers up to `max_level` that has no neighbours yet.
    pub open spec fn fresh(index: usize, max_level: usize, vector: Seq<u64>) -> NodeView {
        NodeView {
            index,
            friend_layers: Seq::new((max_level + 1) as nat, |l: int| Seq::<NodePtr>::empty()),
            max_level,
            vector,
        }
    }
}

impl Node {
    /// Makes the node at position `index` that holds `vector` and takes part in
    /// the layers up to `max_level`, with an empty adjacency list on each.
    pub fn new(index: usize, max_level: usize, vector: &[u64]) -> (node: Node)
        requires
            max_level < usize::MAX,
        ensures
            node@ == NodeView::fresh(index, max_level, vector@),
    {
        let mut friend_layers: Vec<Vec<NodePtr>> = Vec::new();
        let mut l: usize = 0;
        while l <= max_level
            invariant
                l <= max_level + 1,
                max_level < usize::MAX,
                friend_layers.len() == l,
                forall|k: int| 0 <= k < l ==> (#[trigger] friend_layers@[k])@.len() == 0,
            decreases max_level + 1 - l,
        {
            friend_layers.push(Vec::new());
            l = l + 1;
        }
        let node = Node { index, friend_layers, max_level, vector: slice_to_vec(vector) };
        assert(node@.friend_layers =~~= NodeView::fresh(index, max_level, vector@).friend_layers);
        node
    }
}

/// The index: every node ever inserted, the entrance, and the parameters that
/// were fixed at construction.
#[derive(Clone, Debug)]
pub struct Graph {
    /// The nodes in insertion order; the seed vector is `nodes[0]`.
    pub nodes: Vec<Node>,
    /// The node on the top layer at which searches start.
    pub entrence_point: EntrencePoint,
    /// The number of layers.
    pub layer_count: usize,
    /// The level-sampling normalisation factor, as a 64-bit IEEE-754 pattern.
    pub m_l: u64,
    /// The most neighbours a node keeps on a layer above the base.
    pub m_max: usize,
    /// The most neighbours a node keeps on the base layer.
    pub m_max0: usize,
    /// The width of the candidate list during insertion.
    pub canidate_list_size: usize,
    /// The length of every stored vector.
    pub dimension: usize,
}

/// The mathematical content of a [`Graph`].
#[verifier::ext_equal]
pub struct GraphView {
    pub nodes: Seq<NodeView>,
    pub entrence_point: EntrencePoint,
    pub layer_count: usize,
    pub m_l: u64,
    pub m_max: usize,
    pub m_max0: usize,
    pub canidate_list_size: usize,
    pub dimension: usize,
}

impl View for Graph {
    type V = GraphView;

    open spec fn view(&self) -> GraphView {
        GraphView {
            nodes: views_of(self.nodes@),
            entrence_point: self.entrence_point,
            layer_count: self.layer_count,
            m_l: self.m_l,
            m_max: self.m_max,
            m_max0: self.m_max0,
            canidate_list_size: self.canidate_list_size,
            dimension: self.dimension,
        }
    }
}

/// The nodes of `items` as resolved adjacency entries, in the same order.
pub open spec fn ptrs_of(items: Seq<NodeHeapItem>) -> Seq<NodePtr> {
    items.map_values(|it: NodeHeapItem| NodePtr::Ptr(it.node))
}

/// The most neighbours a node may keep on `layer`.
pub open spec fn layer_limit(layer: int, m_max: usize, m_max0: usize) -> usize {
    if layer > 0 {
        m_max
    } else {
        m_max0
    }
}

/// Tells whether a neighbour list of `friends_count` entries on `layer` is over
/// its limit, and if so, the size it has to be cut down to.
pub fn shrinkable(friends_count: usize, layer: usize, m_max: usize, m_max0: usize) -> (r: Option<
    usize,
>)
    ensures
        r == (if friends_count > layer_limit(layer as int, m_max, m_max0) {
            Some(layer_limit(layer as int, m_max, m_max0))
        } else {
            None
        }),
{
    if layer > 0 {
        if friends_count > m_max {
            return Some(m_max);
        }
    } else {
        if friends_count > m_max0 {
            return Some(m_max0);
        }
    }
    None
}

impl GraphView {
    /// The most neighbours a node of this graph may keep on `layer`.
    pub open spec fn limit(self, layer: int) -> usize {
        layer_limit(layer, self.m_max, self.m_max0)
    }

    /// Whether `i` is a node that takes part in `layer`.
    pub open spec fn on_layer(self, i: int, layer: int) -> bool {
        0 <= i < self.nodes.len() && 0 <= layer <= self.nodes[i].max_level
    }

    /// The adjacency list of node `i` on `layer`.
    pub open spec fn friends(self, i: int, layer: int) -> Seq<NodePtr> {
        self.nodes[i].friend_layers[layer]
    }

    /// Every entry of `list` is resolved and names a node that takes part in
    /// `layer`.
    pub open spec fn list_on_layer(self, list: Seq<NodePtr>, layer: int) -> bool {
        forall|j: int|
            0 <= j < list.len() ==> (#[trigger] list[j]) is Ptr && self.on_layer(
                list[j].target() as int,
                layer,
            )
    }

    /// The adjacency list of node `i` on `layer` is within its limit and names
    /// only nodes of that layer.
    pub open spec fn list_wf(self, i: int, layer: int) -> bool {
        &&& self.friends(i, layer).len() <= self.limit(layer)
        &&& self.list_on_layer(self.friends(i, layer), layer)
    }

    /// Node `i` knows its index, holds a vector of the graph's dimension and one
    /// well-formed adjacency list for each layer up to its own.
    pub open spec fn node_wf(self, i: int) -> bool {
        &&& self.nodes[i].index == i
        &&& self.nodes[i].vector.len() == self.dimension
        &&& self.nodes[i].max_level < self.layer_count
        &&& self.nodes[i].friend_layers.len() == self.nodes[i].max_level + 1
        &&& forall|layer: int|
            0 <= layer <= self.nodes[i].max_level ==> #[trigger] self.list_wf(i, layer)
    }

    /// Whether searches and insertions may run: the entrance is resolved.
    pub open spec fn resolved(self) -> bool {
        self.entrence_point is Weak
    }

    /// The invariant of a resolved graph: positive parameters, well-formed
    /// nodes, and an entrance on the top layer.
    pub open spec fn wf(self) -> bool {
        &&& self.m_max >= 1
        &&& self.m_max0 >= 1
        &&& self.canidate_list_size >= 1
        &&& self.resolved()
        &&& self.layer_count >= 1
        &&& self.on_layer(self.entrence_point.target() as int, self.layer_count - 1)
        &&& forall|i: int| 0 <= i < self.nodes.len() ==> #[trigger] self.node_wf(i)
    }

    /// Every node holds a vector of the graph's dimension.
    pub open spec fn vectors_ok(self) -> bool {
        forall|i: int|
            0 <= i < self.nodes.len() ==> (#[trigger] self.nodes[i]).vector.len() == self.dimension
    }

    /// Every entry of `list` is resolved and names a node of the graph.
    pub open spec fn list_in_graph(self, list: Seq<NodePtr>) -> bool {
        forall|j: int|
            0 <= j < list.len() ==> (#[trigger] list[j]) is Ptr && list[j].target()
                < self.nodes.len()
    }

    /// Node `i` with its distance to `q`.
    pub open spec fn item<F: Fn(&[u64], &[u64]) -> u64>(
        self,
        dist: &F,
        q: Seq<u64>,
        i: usize,
    ) -> NodeHeapItem {
        NodeHeapItem { distance: metric(dist, q, self.nodes[i as int].vector), node: i }
    }

    /// The nodes that `list` names, each with its distance to `q`.
    pub open spec fn items_of<F: Fn(&[u64], &[u64]) -> u64>(
        self,
        dist: &F,
        q: Seq<u64>,
        list: Seq<NodePtr>,
    ) -> Seq<NodeHeapItem> {
        list.map_values(|p: NodePtr| self.item(dist, q, p.target()))
    }

    /// The `m` nodes of `list` closest to `q`, or all of them if there are
    /// fewer, closest first.
    pub open spec fn select<F: Fn(&[u64], &[u64]) -> u64>(
        self,
        dist: &F,
        q: Seq<u64>,
        list: Seq<NodePtr>,
        m: usize,
    ) -> Seq<NodePtr> {
        ptrs_of(
            ordered(self.items_of(dist, q, list)).take(
                if m <= list.len() {
                    m as int
                } else {
                    list.len() as int
                },
            ),
        )
    }

    /// The graph with `list` as the adjacency list of node `i` on `layer`.
    pub open spec fn with_friends(self, i: int, layer: int, list: Seq<NodePtr>) -> GraphView {
        GraphView {
            nodes: self.nodes.update(
                i,
                NodeView {
                    friend_layers: self.nodes[i].friend_layers.update(layer, list),
                    ..self.nodes[i]
                },
            ),
            ..self
        }
    }

    /// The graph after `owner` takes `friend` as a neighbour on `layer`: the
    /// entry is appended, and if the list is then over its limit, it is cut down
    /// to the entries closest to `owner`'s own vector.
    pub open spec fn befriend<F: Fn(&[u64], &[u64]) -> u64>(
        self,
        dist: &F,
        owner: usize,
        friend: usize,
        layer: usize,
    ) -> GraphView {
        let pushed = self.with_friends(
            owner as int,
            layer as int,
            self.friends(owner as int, layer as int).push(NodePtr::Ptr(friend)),
        );
        if pushed.friends(owner as int, layer as int).len() > self.limit(layer as int) {
            pushed.with_friends(
                owner as int,
                layer as int,
                pushed.select(
                    dist,
                    self.nodes[owner as int].vector,
                    pushed.friends(owner as int, layer as int),
                    self.limit(layer as int),
                ),
            )
        } else {
            pushed
        }
    }

    /// The graph after `node` takes `friend` as a neighbour on `layer`, and,
    /// with `propagate`, `friend` has first taken `node`.
    pub open spec fn push_friend<F: Fn(&[u64], &[u64]) -> u64>(
        self,
        dist: &F,
        node: usize,
        friend: usize,
        layer: usize,
        propagate: bool,
    ) -> GraphView {
        if propagate {
            self.befriend(dist, friend, node, layer).befriend(dist, node, friend, layer)
        } else {
            self.befriend(dist, node, friend, layer)
        }
    }

    /// The graph that holds the seed vector alone: one node on the base layer,
    /// which is the entrance.
    pub open spec fn seed(
        q: Seq<u64>,
        m_l: u64,
        m_max: usize,
        m_max0: usize,
        canidate_list_size: usize,
    ) -> GraphView {
        GraphView {
            nodes: seq![NodeView::fresh(0, 0, q)],
            entrence_point: EntrencePoint::Weak(0),
            layer_count: 1,
            m_l,
            m_max,
            m_max0,
            canidate_list_size,
            dimension: q.len() as usize,
        }
    }

    /// The graph with one more node, which holds `q`, takes part in the layers
    /// up to `level` and has no neighbours. A node of a level that the graph
    /// does not have yet adds a layer and becomes the entrance.
    pub open spec fn with_node(self, q: Seq<u64>, level: usize) -> GraphView {
        GraphView {
            nodes: self.nodes.push(NodeView::fresh(self.nodes.len() as usize, level, q)),
            entrence_point: if level >= self.layer_count {
                EntrencePoint::Weak(self.nodes.len() as usize)
            } else {
                self.entrence_point
            },
            layer_count: if level >= self.layer_count {
                (self.layer_count + 1) as usize
            } else {
                self.layer_count
            },
            ..self
        }
    }

    /// The graph after node `u` and each of `neighbors[j..]` in turn, itself
    /// excepted, have taken each other as neighbours on `layer`.
    pub open spec fn link_all<F: Fn(&[u64], &[u64]) -> u64>(
        self,
        dist: &F,
        u: usize,
        neighbors: Seq<NodePtr>,
        j: int,
        layer: usize,
    ) -> GraphView
        decreases neighbors.len() - j,
    {
        if 0 <= j < neighbors.len() {
            (if neighbors[j].target() != u {
                self.push_friend(dist, u, neighbors[j].target(), layer, true)
            } else {
                self
            }).link_all(dist, u, neighbors, j + 1, layer)
        } else {
            self
        }
    }

    /// The graph after node `u`, which holds `q`, has been given its neighbours
    /// on the layers from `layer` down to the base. On each layer the search
    /// starts at `ep` and keeps `canidate_list_size` nodes, the closest of them
    /// up to the layer's limit become neighbours, and the closest of all is the
    /// entry to the layer below.
    pub open spec fn fill<F: Fn(&[u64], &[u64]) -> u64>(
        self,
        dist: &F,
        q: Seq<u64>,
        u: usize,
        ep: usize,
        layer: int,
    ) -> GraphView
        decreases layer + 1,
    {
        if layer < 0 {
            self
        } else {
            let nearest = self.search_layer(dist, q, ep, self.canidate_list_size, layer as usize);
            let neighbors = self.select(dist, q, ptrs_of(nearest), self.limit(layer));
            self.link_all(dist, u, neighbors, 0, layer as usize).fill(
                dist,
                q,
                u,
                nearest[0].node,
                layer - 1,
            )
        }
    }

    /// The level that a node gets whose sampled level is `sampled`: at most one
    /// above the present top layer.
    pub open spec fn clamped(self, sampled: usize) -> usize {
        if sampled < self.layer_count {
            sampled
        } else {
            self.layer_count
        }
    }

    /// The graph after the insertion of `q` with the sampled level `sampled`.
    /// The new node is added on its clamped level. From the entrance that the
    /// graph had, a greedy descent leads through the layers above the new
    /// node's level, and from there down the node is given its neighbours.
    pub open spec fn inserted<F: Fn(&[u64], &[u64]) -> u64>(
        self,
        dist: &F,
        q: Seq<u64>,
        sampled: usize,
    ) -> GraphView {
        let level = self.clamped(sampled);
        let top = self.layer_count - 1;
        let grown = self.with_node(q, level);
        let ep = grown.descend(dist, q, self.entrence_point.target(), top, level + 1);
        grown.fill(
            dist,
            q,
            self.nodes.len() as usize,
            ep,
            if level < top {
                level as int
            } else {
                top
            },
        )
    }

    /// Whether every node that the node added last in `end` has for a
    /// neighbour had room for one more neighbour on that layer in this graph.
    pub open spec fn new_neighbors_had_room(self, end: GraphView) -> bool {
        forall|l: usize, b: usize|
            b < self.nodes.len() && #[trigger] end.linked(self.nodes.len() as usize, b, l)
                ==> self.has_room(b, l)
    }

    /// In a well-formed graph no node lies above the top layer, and the
    /// entrance lies on it.
    pub proof fn lemma_layer_count(self)
        requires
            self.wf(),
        ensures
            self.nodes[self.entrence_point.target() as int].max_level == self.layer_count - 1,
            forall|i: int|
                0 <= i < self.nodes.len() ==> (#[trigger] self.nodes[i]).max_level
                    <= self.layer_count - 1,
    {
        assert(self.node_wf(self.entrence_point.target() as int));
        assert forall|i: int| 0 <= i < self.nodes.len() implies (#[trigger] self.nodes[i]).max_level
            <= self.layer_count - 1 by {
            assert(self.node_wf(i));
        }
    }

    /// The error with which an insertion fails, if it does: the graph is
    /// unresolved, or the vector has the wrong length.
    pub open spec fn insert_error(self, len: nat) -> Option<GraphError> {
        if !self.resolved() {
            Some(GraphError::UnresolvedGraph)
        } else if len != self.dimension {
            Some(GraphError::DimensionMismatch)
        } else {
            None
        }
    }

    /// Adding a node without neighbours keeps the graph well-formed.
    pub proof fn lemma_with_node(self, q: Seq<u64>, level: usize)
        requires
            self.wf(),
            q.len() == self.dimension,
            level <= self.layer_count,
            self.nodes.len() < usize::MAX,
            self.layer_count < usize::MAX,
        ensures
            self.with_node(q, level).wf(),
            self.with_node(q, level).on_layer(self.nodes.len() as int, level as int),
            self.with_node(q, level).on_layer(
                self.entrence_point.target() as int,
                self.layer_count - 1,
            ),
    {
        let g = self.with_node(q, level);
        let n = self.nodes.len() as int;
        assert forall|k: int| 0 <= k < g.nodes.len() implies #[trigger] g.node_wf(k) by {
            if k < n {
                assert(self.node_wf(k));
                assert(g.nodes[k] == self.nodes[k]);
                assert forall|l: int| 0 <= l <= g.nodes[k].max_level implies #[trigger] g.list_wf(
                    k,
                    l,
                ) by {
                    assert(self.list_wf(k, l));
                    let fl = g.friends(k, l);
                    assert forall|j: int| 0 <= j < fl.len() implies (#[trigger] fl[j]) is Ptr
                        && g.on_layer(fl[j].target() as int, l) by {
                        assert(self.on_layer(fl[j].target() as int, l));
                        assert(g.nodes[fl[j].target() as int] == self.nodes[fl[j].target() as int]);
                    }
                }
            } else {
                assert forall|l: int| 0 <= l <= g.nodes[k].max_level implies #[trigger] g.list_wf(
                    k,
                    l,
                ) by {
                    assert(g.friends(k, l).len() == 0);
                }
            }
        }
        let e = self.entrence_point.target() as int;
        assert(g.nodes[e] == self.nodes[e]);
        assert(self.node_wf(e));
    }

    /// Whether `other` differs from this graph in adjacency lists alone.
    pub open spec fn same_shape(self, other: GraphView) -> bool {
        &&& other.nodes.len() == self.nodes.len()
        &&& other.entrence_point == self.entrence_point
        &&& other.layer_count == self.layer_count
        &&& other.m_l == self.m_l
        &&& other.m_max == self.m_max
        &&& other.m_max0 == self.m_max0
        &&& other.canidate_list_size == self.canidate_list_size
        &&& other.dimension == self.dimension
        &&& forall|i: int|
            0 <= i < self.nodes.len() ==> (#[trigger] other.nodes[i]).index == self.nodes[i].index
                && other.nodes[i].max_level == self.nodes[i].max_level && other.nodes[i].vector
                == self.nodes[i].vector && other.nodes[i].friend_layers.len()
                == self.nodes[i].friend_layers.len()
    }

    /// Graphs that differ in adjacency lists alone from a common one differ so
    /// from each other.
    pub proof fn lemma_same_shape(self, mid: GraphView, last: GraphView)
        requires
            self.same_shape(mid),
            mid.same_shape(last),
        ensures
            self.same_shape(last),
            forall|i: int, l: int| self.on_layer(i, l) == #[trigger] last.on_layer(i, l),
    {
        assert forall|i: int| 0 <= i < self.nodes.len() implies (#[trigger] last.nodes[i]).index
            == self.nodes[i].index && last.nodes[i].max_level == self.nodes[i].max_level
            && last.nodes[i].vector == self.nodes[i].vector && last.nodes[i].friend_layers.len()
            == self.nodes[i].friend_layers.len() by {
            assert(mid.nodes[i].index == self.nodes[i].index);
        }
    }

    /// Replacing an adjacency list by one that is within the limit and names
    /// nodes of the layer keeps the graph well-formed.
    pub proof fn lemma_with_friends(self, i: int, layer: int, list: Seq<NodePtr>)
        requires
            self.wf(),
            self.on_layer(i, layer),
            list.len() <= self.limit(layer),
            self.list_on_layer(list, layer),
        ensures
            self.with_friends(i, layer, list).wf(),
            self.same_shape(self.with_friends(i, layer, list)),
    {
        let g = self.with_friends(i, layer, list);
        assert(self.node_wf(i));
        assert forall|k: int| 0 <= k < g.nodes.len() implies #[trigger] g.node_wf(k) by {
            assert(self.node_wf(k));
            assert forall|l: int| 0 <= l <= g.nodes[k].max_level implies #[trigger] g.list_wf(
                k,
                l,
            ) by {
                assert(self.list_wf(k, l));
                let fl = g.friends(k, l);
                if k == i && l == layer {
                    assert(fl == list);
                } else {
                    assert(fl == self.friends(k, l));
                }
                assert forall|j: int| 0 <= j < fl.len() implies (#[trigger] fl[j]) is Ptr
                    && g.on_layer(fl[j].target() as int, l) by {
                    assert(self.on_layer(fl[j].target() as int, l));
                }
            }
        }
        assert(self.on_layer(self.entrence_point.target() as int, self.layer_count - 1));
    }

    /// Taking a neighbour keeps the graph well-formed and changes adjacency
    /// lists alone.
    pub proof fn lemma_befriend<F: Fn(&[u64], &[u64]) -> u64>(
        self,
        dist: &F,
        owner: usize,
        friend: usize,
        layer: usize,
    )
        requires
            self.wf(),
            self.on_layer(owner as int, layer as int),
            self.on_layer(friend as int, layer as int),
        ensures
            self.befriend(dist, owner, friend, layer).wf(),
            self.same_shape(self.befriend(dist, owner, friend, layer)),
    {
        let old_list = self.friends(owner as int, layer as int);
        let list = old_list.push(NodePtr::Ptr(friend));
        let pushed = self.with_friends(owner as int, layer as int, list);
        let limit = self.limit(layer as int);
        assert(self.node_wf(owner as int));
        assert(self.list_wf(owner as int, layer as int));
        assert(self.list_on_layer(list, layer as int)) by {
            assert forall|j: int| 0 <= j < list.len() implies (#[trigger] list[j]) is Ptr
                && self.on_layer(list[j].target() as int, layer as int) by {
                if j < old_list.len() {
                    assert(list[j] == old_list[j]);
                }
            }
        }
        assert(pushed.friends(owner as int, layer as int) == list);
        if list.len() > limit {
            let kept = pushed.select(dist, self.nodes[owner as int].vector, list, limit);
            pushed.lemma_select(dist, self.nodes[owner as int].vector, list, limit);
            assert(self.list_on_layer(kept, layer as int)) by {
                assert forall|j: int| 0 <= j < kept.len() implies (#[trigger] kept[j]) is Ptr
                    && self.on_layer(kept[j].target() as int, layer as int) by {
                    let k = choose|k: int| 0 <= k < list.len() && list[k].target() == kept[j].target();
                    assert(self.on_layer(list[k].target() as int, layer as int));
                }
            }
            self.lemma_with_friends(owner as int, layer as int, kept);
            assert(pushed.with_friends(owner as int, layer as int, kept) =~~= self.with_friends(
                owner as int,
                layer as int,
                kept,
            ));
        } else {
            self.lemma_with_friends(owner as int, layer as int, list);
        }
    }

    /// A selection holds at most `m` entries, as many as asked for if the list
    /// has them, each resolved and naming a node that the list names.
    pub proof fn lemma_select<F: Fn(&[u64], &[u64]) -> u64>(
        self,
        dist: &F,
        q: Seq<u64>,
        list: Seq<NodePtr>,
        m: usize,
    )
        ensures
            self.select(dist, q, list, m).len() == (if m <= list.len() {
                m as int
            } else {
                list.len() as int
            }),
            forall|j: int|
                0 <= j < self.select(dist, q, list, m).len() ==> (#[trigger] self.select(
                    dist,
                    q,
                    list,
                    m,
                )[j]) is Ptr && exists|k: int|
                    0 <= k < list.len() && (#[trigger] list[k]).target() == self.select(
                        dist,
                        q,
                        list,
                        m,
                    )[j].target(),
    {
        let items = self.items_of(dist, q, list);
        lemma_ordered(items);
        let o = ordered(items);
        let kept = self.select(dist, q, list, m);
        assert forall|j: int| 0 <= j < kept.len() implies (#[trigger] kept[j]) is Ptr && exists|
            k: int,
        |
            0 <= k < list.len() && (#[trigger] list[k]).target() == kept[j].target() by {
            assert(items.contains(o[j]));
            let k = choose|k: int| 0 <= k < items.len() && items[k] == o[j];
            assert(list[k].target() == kept[j].target());
        }
    }
}

/// Chooses from the candidates `c` the `m` nodes closest to `q`, or all of
/// them if there are fewer, closest first.
pub fn select_neighbors_simple<F: Fn(&[u64], &[u64]) -> u64>(
    g: &Graph,
    q: &[u64],
    c: &Vec<NodePtr>,
    m: usize,
    dist: &F,
) -> (res: Vec<NodePtr>)
    requires
        is_metric(dist),
        g@.vectors_ok(),
        q@.len() == g@.dimension,
        g@.list_in_graph(c@),
    ensures
        res@ == g@.select(dist, q@, c@, m),
        res@.len() == (if m <= c@.len() {
            m as int
        } else {
            c@.len() as int
        }),
{
    proof {
        g@.lemma_select(dist, q@, c@, m);
    }
    let mut nearest_heap: Vec<NodeHeapItem> = Vec::new();
    let ghost items = g@.items_of(dist, q@, c@);
    let mut i: usize = 0;
    assert(items.take(0) =~= Seq::<NodeHeapItem>::empty());
    while i < c.len()
        invariant
            i <= c.len(),
            is_metric(dist),
            g@.vectors_ok(),
            q@.len() == g@.dimension,
            g@.list_in_graph(c@),
            items == g@.items_of(dist, q@, c@),
            nearest_heap@ == ordered(items.take(i as int)),
        decreases c.len() - i,
    {
        let v = c[i].ptr().unwrap();
        proof {
            assert(g@.nodes[v as int] == g.nodes@[v as int]@);
            assert(items.take(i + 1).drop_last() =~= items.take(i as int));
            assert(items.take(i + 1).last() == g@.item(dist, q@, v));
        }
        let item = NodeHeapItem { distance: measure(dist, q, g.nodes[v].vector.as_slice()), node: v };
        enqueue(&mut nearest_heap, item);
        i = i + 1;
    }
    proof {
        assert(items.take(c.len() as int) =~= items);
        lemma_ordered(items);
    }
    let count: usize = if m <= c.len() {
        m
    } else {
        c.len()
    };
    let mut res: Vec<NodePtr> = Vec::new();
    let mut k: usize = 0;
    while k < count
        invariant
            k <= count <= nearest_heap.len(),
            res@ == ptrs_of(nearest_heap@.take(k as int)),
        decreases count - k,
    {
        res.push(NodePtr::Ptr(nearest_heap[k].node));
        assert(res@ =~= ptrs_of(nearest_heap@.take(k + 1)));
        k = k + 1;
    }
    res
}

/// The nodes of `found` as resolved adjacency entries, in the same order.
pub fn as_ptrs(found: &Vec<NodeHeapItem>) -> (res: Vec<NodePtr>)
    ensures
        res@ == ptrs_of(found@),
{
    let mut res: Vec<NodePtr> = Vec::new();
    let mut k: usize = 0;
    while k < found.len()
        invariant
            k <= found.len(),
            res@ == ptrs_of(found@.take(k as int)),
        decreases found.len() - k,
    {
        res.push(NodePtr::Ptr(found[k].node));
        assert(res@ =~= ptrs_of(found@.take(k + 1)));
        k = k + 1;
    }
    assert(found@.take(found.len() as int) =~= found@);
    res
}

impl Graph {
    /// Makes the graph that holds the vector `q` alone. `m_l` is the
    /// level-sampling factor, `m_max` and `m_max0` limit the neighbours of a
    /// node above and on the base layer, and `canidate_list_size` is the width
    /// of the candidate list during insertion. None of the three may be zero.
    pub fn new(q: &[u64], m_l: u64, m_max: usize, m_max0: usize, canidate_list_size: usize) -> (r:
        Result<Graph, GraphError>)
        ensures
            (m_max == 0 || m_max0 == 0 || canidate_list_size == 0) ==> r is Err && r->Err_0
                == GraphError::InvalidParameter,
            !(m_max == 0 || m_max0 == 0 || canidate_list_size == 0) ==> r is Ok && r->Ok_0@
                == GraphView::seed(q@, m_l, m_max, m_max0, canidate_list_size) && r->Ok_0@.wf()
                && r->Ok_0@.symmetric(),
    {
        if m_max == 0 || m_max0 == 0 || canidate_list_size == 0 {
            return Err(GraphError::InvalidParameter);
        }
        let node = Node::new(0, 0, q);
        let mut nodes: Vec<Node> = Vec::new();
        nodes.push(node);
        let g = Graph {
            nodes,
            entrence_point: EntrencePoint::Weak(0),
            layer_count: 1,
            m_l,
            m_max,
            m_max0,
            canidate_list_size,
            dimension: q.len(),
        };
        proof {
            let v = GraphView::seed(q@, m_l, m_max, m_max0, canidate_list_size);
            assert(g@.nodes =~= v.nodes);
            assert(g@ == v);
            assert forall|l: int| 0 <= l <= v.nodes[0].max_level implies #[trigger] v.list_wf(
                0,
                l,
            ) by {
                assert(v.friends(0, l).len() == 0);
            }
            assert(v.node_wf(0));
            assert forall|a: usize, b: usize, layer: usize|
                v.on_layer(a as int, layer as int) && #[trigger] v.linked(
                    a,
                    b,
                    layer,
                ) implies v.linked(b, a, layer) by {
                assert(v.friends(a as int, layer as int).len() == 0);
            }
        }
        Ok(g)
    }

    /// Inserts the vector `q` as a new node. `level` is the level sampled for
    /// it; the node gets that level, or the next new layer if the level lies
    /// higher. The node is then linked to its closest neighbours on each of its
    /// layers that the graph already had.
    ///
    /// Fails with `UnresolvedGraph` on a graph that has not been resolved, else
    /// with `DimensionMismatch` if `q` has not the graph's dimension; the graph
    /// is then unchanged.
    ///
    /// The graph stays well-formed and never loses a layer. Its adjacency stays
    /// symmetric if it was and no list that takes the new node was full; a full
    /// list gives up its farthest entry, which may keep its own end of the
    /// link.
    pub fn insert<F: Fn(&[u64], &[u64]) -> u64>(&mut self, q: &[u64], level: usize, dist: &F) -> (r:
        Result<(), GraphError>)
        requires
            old(self)@.resolved() ==> old(self)@.wf(),
            is_metric(dist),
            old(self).nodes.len() < usize::MAX,
            old(self).layer_count < usize::MAX,
        ensures
            match old(self)@.insert_error(q@.len()) {
                Some(e) => r == Err::<(), GraphError>(e) && final(self)@ == old(self)@,
                None => {
                    &&& r is Ok
                    &&& final(self)@ == old(self)@.inserted(dist, q@, level)
                    &&& final(self)@.wf()
                    &&& old(self)@.with_node(q@, old(self)@.clamped(level)).same_shape(final(self)@)
                    &&& final(self)@.nodes.len() == old(self)@.nodes.len() + 1
                    &&& final(self)@.layer_count >= old(self)@.layer_count
                    &&& old(self)@.symmetric() && old(self)@.new_neighbors_had_room(final(self)@)
                        ==> final(self)@.symmetric()
                },
            },
    {
        let old_ep = match self.entrence_point.weak() {
            Some(e) => e,
            None => {
                return Err(GraphError::UnresolvedGraph);
            },
        };
        if q.len() != self.dimension {
            return Err(GraphError::DimensionMismatch);
        }
        let new_level = if level < self.layer_count {
            level
        } else {
            self.layer_count
        };
        let index = self.nodes.len();
        let top = self.layer_count - 1;
        let ghost before = self@;
        let ghost grown = before.with_node(q@, new_level);
        self.nodes.push(Node::new(index, new_level, q));
        if new_level >= self.layer_count {
            self.layer_count = self.layer_count + 1;
            self.entrence_point = EntrencePoint::Weak(index);
        }
        proof {
            before.lemma_with_node(q@, new_level);
            assert(self@.nodes =~= grown.nodes);
            assert(self@ == grown);
        }
        let mut ep = descend(self, q, old_ep, top, new_level + 1, dist);
        let start = if new_level < top {
            new_level
        } else {
            top
        };
        let mut i: usize = start + 1;
        proof {
            grown.lemma_same_shape(grown, grown);
        }
        while i > 0
            invariant
                is_metric(dist),
                q@.len() == grown.dimension,
                self@.wf(),
                grown.same_shape(self@),
                i <= start + 1,
                start <= new_level,
                index == grown.nodes.len() - 1,
                grown.on_layer(index as int, new_level as int),
                i > 0 ==> grown.on_layer(ep as int, i - 1),
                self@.fill(dist, q@, index, ep, i - 1) == before.inserted(dist, q@, level),
            decreases i,
        {
            i = i - 1;
            let ghost gs = self@;
            proof {
                grown.lemma_same_shape(gs, gs);
            }
            let nearest_nodes = search_layer(self, q, ep, self.canidate_list_size, i, dist);
            let m = if i > 0 {
                self.m_max
            } else {
                self.m_max0
            };
            let cands = as_ptrs(&nearest_nodes);
            proof {
                assert forall|k: int| 0 <= k < cands@.len() implies (#[trigger] cands@[k]) is Ptr
                    && cands@[k].target() < gs.nodes.len() by {
                    assert(gs.on_layer(nearest_nodes@[k].node as int, i as int));
                }
                assert forall|k: int| 0 <= k < gs.nodes.len() implies (#[trigger] gs.nodes[k]).vector.len()
                    == gs.dimension by {
                    assert(gs.node_wf(k));
                }
            }
            let neighbors = select_neighbors_simple(self, q, &cands, m, dist);
            proof {
                gs.lemma_select(dist, q@, cands@, m);
                assert forall|k: int| 0 <= k < neighbors@.len() implies (
                #[trigger] neighbors@[k]) is Ptr && gs.on_layer(
                    neighbors@[k].target() as int,
                    i as int,
                ) by {
                    let c = choose|c: int|
                        0 <= c < cands@.len() && (#[trigger] cands@[c]).target()
                            == neighbors@[k].target();
                    assert(gs.on_layer(nearest_nodes@[c].node as int, i as int));
                }
            }
            let mut j: usize = 0;
            while j < neighbors.len()
                invariant
                    is_metric(dist),
                    self@.wf(),
                    gs.same_shape(self@),
                    gs.on_layer(index as int, i as int),
                    forall|k: int|
                        0 <= k < neighbors@.len() ==> (#[trigger] neighbors@[k]) is Ptr
                            && gs.on_layer(neighbors@[k].target() as int, i as int),
                    j <= neighbors.len(),
                    self@.link_all(dist, index, neighbors@, j as int, i) == gs.link_all(
                        dist,
                        index,
                        neighbors@,
                        0,
                        i,
                    ),
                decreases neighbors.len() - j,
            {
                let v = neighbors[j].ptr().unwrap();
                if v != index {
                    let ghost cur = self@;
                    proof {
                        gs.lemma_same_shape(cur, cur);
                    }
                    self.push_friend(index, v, i, true, dist);
                    proof {
                        gs.lemma_same_shape(cur, self@);
                    }
                }
                j = j + 1;
            }
            ep = nearest_nodes[0].node;
            proof {
                grown.lemma_same_shape(gs, self@);
                assert(gs.on_layer(ep as int, i as int));
            }
        }
        proof {
            if before.symmetric() && before.new_neighbors_had_room(self@) {
                before.lemma_insert_symmetric(dist, q@, level);
            }
        }
        Ok(())
    }

    /// Makes `node` take `friend` as a neighbour on `level`, cutting the list
    /// down to the entries closest to `node` if it grows over its limit. With
    /// `propagate`, `friend` first takes `node` in the same way.
    pub fn push_friend<F: Fn(&[u64], &[u64]) -> u64>(
        &mut self,
        node: usize,
        friend: usize,
        level: usize,
        propagate: bool,
        dist: &F,
    )
        requires
            old(self)@.wf(),
            is_metric(dist),
            old(self)@.on_layer(node as int, level as int),
            old(self)@.on_layer(friend as int, level as int),
        ensures
            final(self)@ == old(self)@.push_friend(dist, node, friend, level, propagate),
            final(self)@.wf(),
            old(self)@.same_shape(final(self)@),
        decreases propagate as int,
    {
        if propagate {
            proof {
                old(self)@.lemma_befriend(dist, friend, node, level);
            }
            self.push_friend(friend, node, level, false, dist);
        }
        let ghost before = self@;
        proof {
            before.lemma_befriend(dist, node, friend, level);
            assert(before.node_wf(node as int));
            assert(before.nodes[node as int] == self.nodes@[node as int]@);
        }
        self.nodes[node].friend_layers[level].push(NodePtr::Ptr(friend));
        let ghost pushed = before.with_friends(
            node as int,
            level as int,
            before.friends(node as int, level as int).push(NodePtr::Ptr(friend)),
        );
        assert(self@ =~~= pushed);
        let len = self.nodes[node].friend_layers[level].len();
        if let Some(m) = shrinkable(len, level, self.m_max, self.m_max0) {
            proof {
                let had = before.friends(node as int, level as int);
                let list = pushed.friends(node as int, level as int);
                assert(before.list_wf(node as int, level as int));
                assert(self.nodes@[node as int].friend_layers@[level as int]@ == list);
                assert forall|i: int| 0 <= i < self@.nodes.len() implies (
                #[trigger] self@.nodes[i]).vector.len() == self@.dimension by {
                    assert(before.node_wf(i));
                }
                assert forall|j: int| 0 <= j < list.len() implies (#[trigger] list[j]) is Ptr
                    && list[j].target() < self@.nodes.len() by {
                    if j < had.len() {
                        assert(list[j] == had[j]);
                        assert(before.on_layer(had[j].target() as int, level as int));
                    }
                }
            }
            let new_neighbors = select_neighbors_simple(
                self,
                self.nodes[node].vector.as_slice(),
                &self.nodes[node].friend_layers[level],
                m,
                dist,
            );
            self.nodes[node].friend_layers[level] = new_neighbors;
            assert(self@ =~~= pushed.with_friends(node as int, level as int, new_neighbors@));
        }
    }
}

} // verus!

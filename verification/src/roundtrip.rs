//! What is read back from the stored form of a graph is the graph.

use vstd::prelude::*;
use crate::bytes::{
    be32_low, be64, lemma_be_len, lemma_u32_of_be32, lemma_u64_of_be64, u32_at, u64_at,
};
use crate::file::{
    end_marker, file_bytes, header_bytes, header_fields, ids_at, ids_bytes, ids_fit, layers_bytes,
    lemma_vector_len, magic, node_bytes, nodes_bytes, parse_file, parse_header, parse_layers,
    parse_node, parse_nodes, payload_bytes, vector_at, vector_bytes, word_at,
};
use crate::hnsw::{GraphView, NodePtr, NodeView};
use crate::resolve::{unresolved_layers, unresolved_list};

verus! {

/// The nodes `nodes`, each with bare indices for adjacency entries.
pub open spec fn unresolved_nodes(nodes: Seq<NodeView>) -> Seq<NodeView> {
    nodes.map_values(|n: NodeView| n.unresolved())
}

impl NodeView {
    /// Whether the node can be stored for a graph of dimension `dim`: its
    /// vector has that length, it has one adjacency list for each layer up to
    /// its own, and its record is short enough for its length field.
    pub open spec fn fits_record(self, dim: usize) -> bool {
        &&& self.vector.len() == dim
        &&& self.friend_layers.len() == self.max_level + 1
        &&& payload_bytes(self).len() <= u32::MAX
    }
}

impl GraphView {
    /// Whether the graph can be stored: each of its nodes can, and their
    /// number fits a machine word.
    pub open spec fn fits_file(self) -> bool {
        &&& self.nodes.len() <= usize::MAX
        &&& forall|i: int|
            0 <= i < self.nodes.len() ==> (#[trigger] self.nodes[i]).fits_record(self.dimension)
    }
}

/// Where the bytes of a number stand, the number is read.
pub proof fn lemma_u64_at(s: Seq<u8>, at: int, x: u64)
    requires
        0 <= at,
        at + 8 <= s.len(),
        s.subrange(at, at + 8) == be64(x),
    ensures
        u64_at(s, at) == x,
{
    lemma_u64_of_be64(x);
}

/// The entries of an adjacency list take eight bytes each.
pub proof fn lemma_ids_len(list: Seq<NodePtr>)
    ensures
        ids_bytes(list).len() == 8 * list.len(),
    decreases list.len(),
{
    if list.len() > 0 {
        lemma_be_len(list[0].target() as u64);
        lemma_ids_len(list.skip(1));
    }
}

/// Where the bytes of a vector stand, the vector is read.
pub proof fn lemma_vector_at(s: Seq<u8>, at: int, v: Seq<u64>)
    requires
        0 <= at,
        at + 8 * v.len() <= s.len(),
        s.subrange(at, at + 8 * v.len()) == vector_bytes(v),
    ensures
        vector_at(s, at, v.len()) == v,
    decreases v.len(),
{
    if v.len() > 0 {
        let rest = v.skip(1);
        lemma_vector_len(rest);
        lemma_be_len(v[0]);
        let whole = s.subrange(at, at + 8 * v.len());
        assert(s.subrange(at, at + 8) =~= whole.subrange(0, 8));
        assert(whole.subrange(0, 8) =~= be64(v[0]));
        lemma_u64_at(s, at, v[0]);
        assert(s.subrange(at + 8, at + 8 + 8 * rest.len()) =~= whole.subrange(
            8,
            8 * v.len() as int,
        ));
        assert(whole.subrange(8, 8 * v.len() as int) =~= vector_bytes(rest));
        lemma_vector_at(s, at + 8, rest);
        assert forall|i: int| 0 <= i < v.len() implies vector_at(s, at, v.len())[i] == v[i] by {
            if i > 0 {
                assert(word_at(s, at, i) == word_at(s, at + 8, i - 1));
                assert(vector_at(s, at + 8, rest.len())[i - 1] == rest[i - 1]);
            }
        }
    }
    assert(vector_at(s, at, v.len()) =~= v);
}

/// Where the entries of an adjacency list stand, the list is read,
/// unresolved.
pub proof fn lemma_ids_at(s: Seq<u8>, at: int, list: Seq<NodePtr>)
    requires
        0 <= at,
        at + 8 * list.len() <= s.len(),
        s.subrange(at, at + 8 * list.len()) == ids_bytes(list),
    ensures
        ids_fit(s, at, list.len()),
        ids_at(s, at, list.len()) == unresolved_list(list),
    decreases list.len(),
{
    if list.len() > 0 {
        let rest = list.skip(1);
        lemma_ids_len(rest);
        lemma_be_len(list[0].target() as u64);
        let whole = s.subrange(at, at + 8 * list.len());
        assert(s.subrange(at, at + 8) =~= whole.subrange(0, 8));
        assert(whole.subrange(0, 8) =~= be64(list[0].target() as u64));
        lemma_u64_at(s, at, list[0].target() as u64);
        assert(s.subrange(at + 8, at + 8 + 8 * rest.len()) =~= whole.subrange(
            8,
            8 * list.len() as int,
        ));
        assert(whole.subrange(8, 8 * list.len() as int) =~= ids_bytes(rest));
        lemma_ids_at(s, at + 8, rest);
        assert forall|i: int| 0 <= i < list.len() implies #[trigger] word_at(s, at, i)
            == list[i].target() by {
            if i > 0 {
                assert(word_at(s, at, i) == word_at(s, at + 8, i - 1));
                assert(ids_at(s, at + 8, rest.len())[i - 1] == unresolved_list(rest)[i - 1]);
                assert(word_at(s, at + 8, i - 1) <= usize::MAX);
            }
        }
    }
    assert(ids_at(s, at, list.len()) =~= unresolved_list(list));
}

/// Where the adjacency lists of a node stand up to the end of a record, they
/// are read, unresolved.
pub proof fn lemma_layers_at(s: Seq<u8>, at: int, layers: Seq<Seq<NodePtr>>)
    requires
        0 <= at <= s.len(),
        s.len() <= u32::MAX,
        s.subrange(at, s.len() as int) == layers_bytes(layers),
    ensures
        parse_layers(s, at, layers.len()) == Some(unresolved_layers(layers)),
    decreases layers.len(),
{
    let tail = s.subrange(at, s.len() as int);
    if layers.len() == 0 {
        assert(unresolved_layers(layers) =~= Seq::<Seq<NodePtr>>::empty());
    } else {
        let first = layers[0];
        let rest = layers.skip(1);
        lemma_ids_len(first);
        let n = first.len() as int;
        lemma_be_len(n as u64);
        assert(tail.len() == 8 + 8 * n + layers_bytes(rest).len());
        assert(s.subrange(at, at + 8) =~= tail.subrange(0, 8));
        assert(tail.subrange(0, 8) =~= be64(n as u64));
        lemma_u64_at(s, at, n as u64);
        assert(s.subrange(at + 8, at + 8 + 8 * n) =~= tail.subrange(8, 8 + 8 * n));
        assert(tail.subrange(8, 8 + 8 * n) =~= ids_bytes(first));
        lemma_ids_at(s, at + 8, first);
        assert(s.subrange(at + 8 + 8 * n, s.len() as int) =~= tail.subrange(
            8 + 8 * n,
            tail.len() as int,
        ));
        assert(tail.subrange(8 + 8 * n, tail.len() as int) =~= layers_bytes(rest));
        lemma_layers_at(s, at + 8 + 8 * n, rest);
        assert(seq![unresolved_list(first)] + unresolved_layers(rest) =~= unresolved_layers(
            layers,
        ));
    }
}

/// The record of a node that can be stored reads as the node, unresolved.
pub proof fn lemma_node(n: NodeView, dim: usize)
    requires
        n.fits_record(dim),
    ensures
        parse_node(payload_bytes(n), dim) == Some(n.unresolved()),
{
    let s = payload_bytes(n);
    lemma_vector_len(n.vector);
    lemma_be_len(n.index as u64);
    lemma_be_len(n.max_level as u64);
    assert(s.subrange(0, 8) =~= be64(n.index as u64));
    lemma_u64_at(s, 0, n.index as u64);
    assert(s.subrange(8, 16) =~= be64(n.max_level as u64));
    lemma_u64_at(s, 8, n.max_level as u64);
    assert(s.subrange(16, 16 + 8 * dim) =~= vector_bytes(n.vector));
    lemma_vector_at(s, 16, n.vector);
    assert(s.subrange(16 + 8 * dim, s.len() as int) =~= layers_bytes(n.friend_layers));
    lemma_layers_at(s, 16 + 8 * dim, n.friend_layers);
}

/// Where `a` and then `b` stand in `s`, `a` stands and `b` stands after it.
pub proof fn lemma_split(s: Seq<u8>, from: int, to: int, a: Seq<u8>, b: Seq<u8>)
    requires
        0 <= from <= to <= s.len(),
        s.subrange(from, to) == a + b,
    ensures
        from + a.len() + b.len() == to,
        s.subrange(from, from + a.len()) == a,
        s.subrange(from + a.len(), to) == b,
{
    let whole = s.subrange(from, to);
    assert(whole.len() == a.len() + b.len());
    assert(s.subrange(from, from + a.len()) =~= whole.subrange(0, a.len() as int));
    assert(whole.subrange(0, a.len() as int) =~= a);
    assert(s.subrange(from + a.len(), to) =~= whole.subrange(a.len() as int, whole.len() as int));
    assert(whole.subrange(a.len() as int, whole.len() as int) =~= b);
}

/// The end marker reads as a record length of zero.
pub proof fn lemma_end_marker(s: Seq<u8>, at: int)
    requires
        0 <= at,
        at + 4 <= s.len(),
        s.subrange(at, at + 4) == end_marker(),
    ensures
        u32_at(s, at) == 0,
{
    assert(((0u8 as u32) << 24 | (0u8 as u32) << 16 | (0u8 as u32) << 8 | (0u8 as u32)) == 0u32)
        by (bit_vector);
}

/// Where the record of a node that can be stored stands, its length field
/// reads as the length of the rest, which is not zero, and the rest reads as
/// the node, unresolved.
pub proof fn lemma_record_at(s: Seq<u8>, at: int, n: NodeView, dim: usize)
    requires
        0 <= at,
        at + node_bytes(n).len() <= s.len(),
        s.subrange(at, at + node_bytes(n).len()) == node_bytes(n),
        n.fits_record(dim),
    ensures
        node_bytes(n).len() == 4 + payload_bytes(n).len(),
        u32_at(s, at) == payload_bytes(n).len(),
        u32_at(s, at) != 0,
        parse_node(s.subrange(at + 4, at + 4 + u32_at(s, at)), dim) == Some(n.unresolved()),
{
    let payload = payload_bytes(n);
    let len = payload.len() as int;
    assert(len >= 16) by {
        lemma_vector_len(n.vector);
        lemma_be_len(n.index as u64);
        lemma_be_len(n.max_level as u64);
    }
    lemma_u32_of_be32(len as u64);
    lemma_split(s, at, at + node_bytes(n).len(), be32_low(len as u64), payload);
    lemma_node(n, dim);
}

/// Where the records of nodes that can be stored stand, followed by the end
/// marker, the nodes are read, unresolved.
pub proof fn lemma_nodes_at(s: Seq<u8>, at: int, nodes: Seq<NodeView>, dim: usize)
    requires
        0 <= at <= s.len(),
        s.subrange(at, s.len() as int) == nodes_bytes(nodes) + end_marker(),
        forall|i: int| 0 <= i < nodes.len() ==> (#[trigger] nodes[i]).fits_record(dim),
    ensures
        parse_nodes(s, at, dim) == Some(unresolved_nodes(nodes)),
    decreases nodes.len(),
{
    if nodes.len() == 0 {
        lemma_split(s, at, s.len() as int, nodes_bytes(nodes), end_marker());
        lemma_end_marker(s, at);
        assert(unresolved_nodes(nodes) =~= Seq::<NodeView>::empty());
    } else {
        let first = nodes[0];
        let rest = nodes.skip(1);
        let record = node_bytes(first);
        let after = nodes_bytes(rest) + end_marker();
        assert(nodes_bytes(nodes) + end_marker() =~= record + after);
        lemma_split(s, at, s.len() as int, record, after);
        lemma_record_at(s, at, first, dim);
        assert forall|i: int| 0 <= i < rest.len() implies (#[trigger] rest[i]).fits_record(dim) by {
            assert(rest[i] == nodes[i + 1]);
        }
        lemma_nodes_at(s, at + record.len(), rest, dim);
        assert(seq![first.unresolved()] + unresolved_nodes(rest) =~= unresolved_nodes(nodes));
    }
}

/// The header of a graph whose node count fits a machine word reads as the
/// graph without its nodes, the entrance unresolved.
pub proof fn lemma_header(g: GraphView)
    requires
        g.nodes.len() <= usize::MAX,
    ensures
        header_bytes(g).len() == 64,
        parse_header(header_bytes(g)) == Some(
            GraphView { nodes: Seq::<NodeView>::empty(), ..g.unresolved() },
        ),
        u64_at(header_bytes(g), 8) == g.nodes.len(),
{
    let h = header_bytes(g);
    let f = header_fields(g);
    lemma_vector_len(f);
    assert(h.subrange(0, 64) =~= h);
    lemma_vector_at(h, 0, f);
    let w = vector_at(h, 0, 8);
    assert(w[0] == f[0] && w[1] == f[1] && w[2] == f[2] && w[3] == f[3] && w[4] == f[4] && w[5]
        == f[5] && w[6] == f[6] && w[7] == f[7]);
    assert(word_at(h, 0, 0) == u64_at(h, 0));
    assert(word_at(h, 0, 1) == u64_at(h, 8));
    assert(word_at(h, 0, 2) == u64_at(h, 16));
    assert(word_at(h, 0, 3) == u64_at(h, 24));
    assert(word_at(h, 0, 4) == u64_at(h, 32));
    assert(word_at(h, 0, 5) == u64_at(h, 40));
    assert(word_at(h, 0, 6) == u64_at(h, 48));
    assert(word_at(h, 0, 7) == u64_at(h, 56));
}

/// The stored form of a graph that can be stored reads as the graph,
/// unresolved.
pub proof fn lemma_read_write(g: GraphView)
    requires
        g.fits_file(),
    ensures
        parse_file(file_bytes(g)) == Some(g.unresolved()),
{
    let s = file_bytes(g);
    let h = header_bytes(g);
    lemma_header(g);
    assert(s.subrange(0, 14) =~= magic());
    assert(s.subrange(14, 78) =~= h);
    assert(s.subrange(22, 30) =~= h.subrange(8, 16));
    assert(u64_at(s, 22) == u64_at(h, 8));
    assert(s.subrange(78, s.len() as int) =~= nodes_bytes(g.nodes) + end_marker());
    lemma_nodes_at(s, 78, g.nodes, g.dimension);
    assert(unresolved_nodes(g.nodes) == g.unresolved().nodes);
}

/// A well-formed graph that is written, read back and resolved is the graph
/// that was written: the same parameters, and for every node the same index,
/// vector, top level and adjacency lists.
pub proof fn lemma_round_trip(g: GraphView)
    requires
        g.wf(),
        g.fits_file(),
    ensures
        parse_file(file_bytes(g)) is Some,
        parse_file(file_bytes(g))->0.resolution() == g,
        parse_file(file_bytes(g))->0.resolution().wf(),
        file_bytes(parse_file(file_bytes(g))->0.resolution()) == file_bytes(g),
{
    lemma_read_write(g);
    g.lemma_resolution();
}

/// A query on a graph that was written, read back and resolved has the answer
/// that it has on the graph that was written.
pub proof fn lemma_same_answers<F: Fn(&[u64], &[u64]) -> u64>(
    g: GraphView,
    dist: &F,
    q: Seq<u64>,
    k: usize,
    ef: usize,
)
    requires
        g.wf(),
        g.fits_file(),
    ensures
        parse_file(file_bytes(g))->0.resolution().knn(dist, q, k, ef) == g.knn(dist, q, k, ef),
        parse_file(file_bytes(g))->0.resolution().knn_error(q.len(), k, ef) == g.knn_error(
            q.len(),
            k,
            ef,
        ),
{
    lemma_round_trip(g);
}

} // verus!

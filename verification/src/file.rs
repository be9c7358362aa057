//! The stored form of a graph: a magic string, a header of eight fields, one
//! record per node, and an end marker. All numbers are big-endian.

use vstd::prelude::*;
use crate::bytes::{be32_low, be64, get_u32, get_u64, lemma_be_len, put_u64, u32_at, u64_at};
use crate::hnsw::{
    lists_of, views_of, EntrencePoint, Graph, GraphError, GraphView, Node, NodePtr, NodeView,
};

verus! {

/// The fourteen bytes with which a stored graph begins: `vite format 0` and a
/// zero byte.
pub open spec fn magic() -> Seq<u8> {
    seq![118u8, 105u8, 116u8, 101u8, 32u8, 102u8, 111u8, 114u8, 109u8, 97u8, 116u8, 32u8, 48u8, 0u8]
}

/// The end marker: a record length of zero.
pub open spec fn end_marker() -> Seq<u8> {
    seq![0u8, 0u8, 0u8, 0u8]
}

/// The bytes of a vector: its patterns, eight bytes each.
pub open spec fn vector_bytes(v: Seq<u64>) -> Seq<u8>
    decreases v.len(),
{
    if v.len() == 0 {
        Seq::empty()
    } else {
        be64(v[0]) + vector_bytes(v.skip(1))
    }
}

/// The bytes of the entries of an adjacency list: the index of each neighbour.
pub open spec fn ids_bytes(list: Seq<NodePtr>) -> Seq<u8>
    decreases list.len(),
{
    if list.len() == 0 {
        Seq::empty()
    } else {
        be64(list[0].target() as u64) + ids_bytes(list.skip(1))
    }
}

/// The bytes of an adjacency list: the number of its entries, then the
/// entries.
pub open spec fn list_bytes(list: Seq<NodePtr>) -> Seq<u8> {
    be64(list.len() as u64) + ids_bytes(list)
}

/// The bytes of the adjacency lists of a node, from the base layer up.
pub open spec fn layers_bytes(layers: Seq<Seq<NodePtr>>) -> Seq<u8>
    decreases layers.len(),
{
    if layers.len() == 0 {
        Seq::empty()
    } else {
        list_bytes(layers[0]) + layers_bytes(layers.skip(1))
    }
}

/// The bytes of a node record after its length: index, top level, vector and
/// adjacency lists.
pub open spec fn payload_bytes(n: NodeView) -> Seq<u8> {
    be64(n.index as u64) + be64(n.max_level as u64) + vector_bytes(n.vector) + layers_bytes(
        n.friend_layers,
    )
}

/// The bytes of a node record: the length of what follows in four bytes, and
/// what follows.
pub open spec fn node_bytes(n: NodeView) -> Seq<u8> {
    be32_low(payload_bytes(n).len() as u64) + payload_bytes(n)
}

/// The records of the nodes `nodes`, one after the other.
pub open spec fn nodes_bytes(nodes: Seq<NodeView>) -> Seq<u8>
    decreases nodes.len(),
{
    if nodes.len() == 0 {
        Seq::empty()
    } else {
        node_bytes(nodes[0]) + nodes_bytes(nodes.skip(1))
    }
}

/// The eight numbers of the header of a graph: dimension, number of nodes,
/// entrance, number of layers, level factor, the two neighbour limits and the
/// width of the candidate list.
pub open spec fn header_fields(g: GraphView) -> Seq<u64> {
    seq![
        g.dimension as u64,
        g.nodes.len() as u64,
        g.entrence_point.target() as u64,
        g.layer_count as u64,
        g.m_l,
        g.m_max as u64,
        g.m_max0 as u64,
        g.canidate_list_size as u64,
    ]
}

/// The header of a graph: its eight numbers, eight bytes each.
pub open spec fn header_bytes(g: GraphView) -> Seq<u8> {
    vector_bytes(header_fields(g))
}

/// The stored form of a graph.
pub open spec fn file_bytes(g: GraphView) -> Seq<u8> {
    magic() + header_bytes(g) + nodes_bytes(g.nodes) + end_marker()
}

/// A vector takes eight bytes for each pattern.
pub proof fn lemma_vector_len(v: Seq<u64>)
    ensures
        vector_bytes(v).len() == 8 * v.len(),
    decreases v.len(),
{
    if v.len() > 0 {
        lemma_be_len(v[0]);
        lemma_vector_len(v.skip(1));
    }
}

/// Appends the patterns of `v`.
fn put_vector(out: &mut Vec<u8>, v: &Vec<u64>)
    ensures
        final(out)@ == old(out)@ + vector_bytes(v@),
{
    let mut i: usize = 0;
    assert(v@.skip(0) =~= v@);
    assert(out@ + vector_bytes(v@) =~= old(out)@ + vector_bytes(v@));
    while i < v.len()
        invariant
            i <= v.len(),
            out@ + vector_bytes(v@.skip(i as int)) == old(out)@ + vector_bytes(v@),
        decreases v.len() - i,
    {
        let ghost before = out@;
        put_u64(out, v[i]);
        proof {
            let rest = v@.skip(i as int);
            assert(rest[0] == v@[i as int]);
            assert(rest.skip(1) =~= v@.skip(i + 1));
            assert(out@ + vector_bytes(v@.skip(i + 1)) =~= before + vector_bytes(rest));
        }
        i = i + 1;
    }
    assert(out@ + vector_bytes(v@.skip(i as int)) =~= out@);
}

/// Appends an adjacency list: its length and the index of each neighbour.
fn put_list(out: &mut Vec<u8>, list: &Vec<NodePtr>)
    ensures
        final(out)@ == old(out)@ + list_bytes(list@),
{
    put_u64(out, list.len() as u64);
    let ghost start = out@;
    let mut i: usize = 0;
    assert(list@.skip(0) =~= list@);
    while i < list.len()
        invariant
            i <= list.len(),
            out@ + ids_bytes(list@.skip(i as int)) == start + ids_bytes(list@),
        decreases list.len() - i,
    {
        let ghost before = out@;
        let id: usize = match list[i] {
            NodePtr::Ptr(t) => t,
            NodePtr::Index(t) => t,
        };
        put_u64(out, id as u64);
        proof {
            let rest = list@.skip(i as int);
            assert(rest[0] == list@[i as int]);
            assert(rest.skip(1) =~= list@.skip(i + 1));
            assert(out@ + ids_bytes(list@.skip(i + 1)) =~= before + ids_bytes(rest));
        }
        i = i + 1;
    }
    assert(out@ + ids_bytes(list@.skip(i as int)) =~= out@);
    assert(out@ =~= old(out)@ + list_bytes(list@));
}

/// Appends the adjacency lists of a node, from the base layer up.
fn put_layers(out: &mut Vec<u8>, layers: &Vec<Vec<NodePtr>>)
    ensures
        final(out)@ == old(out)@ + layers_bytes(lists_of(layers@)),
{
    let ghost all = lists_of(layers@);
    let mut i: usize = 0;
    assert(all.skip(0) =~= all);
    assert(out@ + layers_bytes(all) =~= old(out)@ + layers_bytes(all));
    while i < layers.len()
        invariant
            i <= layers.len(),
            all == lists_of(layers@),
            out@ + layers_bytes(all.skip(i as int)) == old(out)@ + layers_bytes(all),
        decreases layers.len() - i,
    {
        let ghost before = out@;
        put_list(out, &layers[i]);
        proof {
            let rest = all.skip(i as int);
            assert(rest[0] == layers@[i as int]@);
            assert(rest.skip(1) =~= all.skip(i + 1));
            assert(out@ + layers_bytes(all.skip(i + 1)) =~= before + layers_bytes(rest));
        }
        i = i + 1;
    }
    assert(out@ + layers_bytes(all.skip(i as int)) =~= out@);
}

impl Node {
    /// The record of the node: four bytes with the length of the rest, then
    /// the index, the top level, the vector, and for each layer the number of
    /// neighbours and their indices. A length of 2^32 or more is stored by its
    /// low four bytes.
    pub fn serialize(&self) -> (collect: Vec<u8>)
        ensures
            collect@ == node_bytes(self@),
    {
        let mut collect: Vec<u8> = Vec::new();
        collect.push(0);
        collect.push(0);
        collect.push(0);
        collect.push(0);
        let ghost blank = collect@;
        put_u64(&mut collect, self.index as u64);
        put_u64(&mut collect, self.max_level as u64);
        put_vector(&mut collect, &self.vector);
        put_layers(&mut collect, &self.friend_layers);
        assert(collect@ =~= blank + payload_bytes(self@));
        let len: u64 = (collect.len() - 4) as u64;
        assert(((len >> 24) & 0xff) <= 0xff && ((len >> 16) & 0xff) <= 0xff && ((len >> 8) & 0xff)
            <= 0xff && ((len >> 0) & 0xff) <= 0xff) by (bit_vector);
        collect[0] = ((len >> 24) & 0xff) as u8;
        collect[1] = ((len >> 16) & 0xff) as u8;
        collect[2] = ((len >> 8) & 0xff) as u8;
        collect[3] = ((len >> 0) & 0xff) as u8;
        assert(collect@ =~= node_bytes(self@)) by {
            reveal(be32_low);
        }
        collect
    }
}

impl Graph {
    /// The header of the graph without the magic string: eight fields of eight
    /// bytes.
    pub fn serialize(&self) -> (collect: Vec<u8>)
        ensures
            collect@ == header_bytes(self@),
            collect@.len() == 64,
    {
        let entrance: usize = match self.entrence_point {
            EntrencePoint::Weak(e) => e,
            EntrencePoint::Index(e) => e,
        };
        let mut fields: Vec<u64> = Vec::new();
        fields.push(self.dimension as u64);
        fields.push(self.nodes.len() as u64);
        fields.push(entrance as u64);
        fields.push(self.layer_count as u64);
        fields.push(self.m_l);
        fields.push(self.m_max as u64);
        fields.push(self.m_max0 as u64);
        fields.push(self.canidate_list_size as u64);
        assert(fields@ =~= header_fields(self@));
        let mut collect: Vec<u8> = Vec::new();
        put_vector(&mut collect, &fields);
        proof {
            assert(collect@ =~= header_bytes(self@));
            lemma_vector_len(fields@);
        }
        collect
    }
}

/// The stored form of the graph `g`: the magic string, the header, the record
/// of each node in order of insertion, and the end marker.
pub fn write(g: &Graph) -> (out: Vec<u8>)
    ensures
        out@ == file_bytes(g@),
{
    let mut out: Vec<u8> = Vec::new();
    out.push(118);
    out.push(105);
    out.push(116);
    out.push(101);
    out.push(32);
    out.push(102);
    out.push(111);
    out.push(114);
    out.push(109);
    out.push(97);
    out.push(116);
    out.push(32);
    out.push(48);
    out.push(0);
    assert(out@ =~= magic());
    let mut header = g.serialize();
    out.append(&mut header);
    let ghost start = out@;
    let ghost all = g@.nodes;
    let mut i: usize = 0;
    assert(all.skip(0) =~= all);
    while i < g.nodes.len()
        invariant
            i <= g.nodes.len(),
            all == views_of(g.nodes@),
            out@ + nodes_bytes(all.skip(i as int)) == start + nodes_bytes(all),
        decreases g.nodes.len() - i,
    {
        let ghost before = out@;
        let mut record = g.nodes[i].serialize();
        out.append(&mut record);
        proof {
            let rest = all.skip(i as int);
            assert(rest[0] == g.nodes@[i as int]@);
            assert(rest.skip(1) =~= all.skip(i + 1));
            assert(out@ + nodes_bytes(all.skip(i + 1)) =~= before + nodes_bytes(rest));
        }
        i = i + 1;
    }
    assert(out@ + nodes_bytes(all.skip(i as int)) =~= out@);
    out.push(0);
    out.push(0);
    out.push(0);
    out.push(0);
    assert(out@ =~= file_bytes(g@));
    out
}

/// The number stored in the eight bytes of `s` from position `at`, if it is
/// there and fits a machine word.
pub open spec fn usize_at(s: Seq<u8>, at: int) -> Option<usize> {
    if 0 <= at && at + 8 <= s.len() && u64_at(s, at) <= usize::MAX {
        Some(u64_at(s, at) as usize)
    } else {
        None
    }
}

/// Number `i` of the eight-byte numbers stored in `s` from position `at`.
pub open spec fn word_at(s: Seq<u8>, at: int, i: int) -> u64 {
    u64_at(s, at + 8 * i)
}

/// The vector of `count` patterns stored in `s` from position `at`.
pub open spec fn vector_at(s: Seq<u8>, at: int, count: nat) -> Seq<u64> {
    Seq::new(count, |i: int| word_at(s, at, i))
}

/// Whether each of the `count` indices stored in `s` from position `at` fits
/// a machine word.
pub open spec fn ids_fit(s: Seq<u8>, at: int, count: nat) -> bool {
    forall|i: int| 0 <= i < count ==> #[trigger] word_at(s, at, i) <= usize::MAX
}

/// The adjacency list of `count` unresolved entries stored in `s` from
/// position `at`.
pub open spec fn ids_at(s: Seq<u8>, at: int, count: nat) -> Seq<NodePtr> {
    Seq::new(count, |i: int| NodePtr::Index(word_at(s, at, i) as usize))
}

/// What has been read, followed by what the rest reads as; nothing if the rest
/// cannot be read.
pub open spec fn joined<T>(done: Seq<T>, rest: Option<Seq<T>>) -> Option<Seq<T>> {
    match rest {
        Some(r) => Some(done + r),
        None => None,
    }
}

/// The `count` adjacency lists stored in `s` from position `at` to its end:
/// each a number of entries that fit in what is left, and the entries. Nothing
/// if the lists do not end where `s` ends.
pub open spec fn parse_layers(s: Seq<u8>, at: int, count: nat) -> Option<Seq<Seq<NodePtr>>>
    decreases count,
{
    if count == 0 {
        if at == s.len() {
            Some(Seq::empty())
        } else {
            None
        }
    } else if at < 0 || at + 8 > s.len() {
        None
    } else if u64_at(s, at) > (s.len() - at - 8) / 8 {
        None
    } else if !ids_fit(s, at + 8, u64_at(s, at) as nat) {
        None
    } else {
        joined(
            seq![ids_at(s, at + 8, u64_at(s, at) as nat)],
            parse_layers(s, at + 8 + 8 * u64_at(s, at), (count - 1) as nat),
        )
    }
}

/// The node stored in the record `s`, whose vector has `dim` patterns: the
/// index, the top level, the vector, and one adjacency list for each layer up
/// to the top level, which end where the record ends.
pub open spec fn parse_node(s: Seq<u8>, dim: usize) -> Option<NodeView> {
    if s.len() < 16 || dim > (s.len() - 16) / 8 {
        None
    } else {
        match (usize_at(s, 0), usize_at(s, 8)) {
            (Some(index), Some(max_level)) => match parse_layers(
                s,
                16 + 8 * dim,
                (max_level + 1) as nat,
            ) {
                Some(layers) => Some(
                    NodeView {
                        index,
                        friend_layers: layers,
                        max_level,
                        vector: vector_at(s, 16, dim as nat),
                    },
                ),
                None => None,
            },
            _ => None,
        }
    }
}

/// The nodes stored in `s` from position `at`: records, each after its length,
/// up to the end marker, with which `s` ends.
pub open spec fn parse_nodes(s: Seq<u8>, at: int, dim: usize) -> Option<Seq<NodeView>>
    decreases s.len() - at,
{
    if at < 0 || at + 4 > s.len() {
        None
    } else if u32_at(s, at) == 0 {
        if at + 4 == s.len() {
            Some(Seq::empty())
        } else {
            None
        }
    } else if at + 4 + u32_at(s, at) > s.len() {
        None
    } else {
        match parse_node(s.subrange(at + 4, at + 4 + u32_at(s, at)), dim) {
            Some(n) => joined(seq![n], parse_nodes(s, at + 4 + u32_at(s, at), dim)),
            None => None,
        }
    }
}

/// The graph without nodes that the sixty-four header bytes `s` describe, its
/// entrance unresolved.
pub open spec fn parse_header(s: Seq<u8>) -> Option<GraphView> {
    if s.len() != 64 {
        None
    } else {
        parse_fields(s)
    }
}

/// The graph without nodes whose parameters are the numbers stored in `s`.
pub open spec fn parse_fields(s: Seq<u8>) -> Option<GraphView> {
    match (
        usize_at(s, 0),
        usize_at(s, 16),
        usize_at(s, 24),
        usize_at(s, 40),
        usize_at(s, 48),
        usize_at(s, 56),
    ) {
        (
            Some(dimension),
            Some(entrance),
            Some(layer_count),
            Some(m_max),
            Some(m_max0),
            Some(canidate_list_size),
        ) => Some(
            GraphView {
                nodes: Seq::empty(),
                entrence_point: EntrencePoint::Index(entrance),
                layer_count,
                m_l: u64_at(s, 32),
                m_max,
                m_max0,
                canidate_list_size,
                dimension,
            },
        ),
        _ => None,
    }
}

/// The graph stored in `s`, unresolved: the magic string, the header, and as
/// many node records as the header counts, up to the end marker.
pub open spec fn parse_file(s: Seq<u8>) -> Option<GraphView> {
    if s.len() < 78 || s.subrange(0, 14) != magic() {
        None
    } else {
        match (parse_header(s.subrange(14, 78)), usize_at(s, 22)) {
            (Some(h), Some(count)) => match parse_nodes(s, 78, h.dimension) {
                Some(nodes) => if nodes.len() == count {
                    Some(GraphView { nodes, ..h })
                } else {
                    None
                },
                None => None,
            },
            _ => None,
        }
    }
}

/// Adjacency lists that parse take at least eight bytes each.
pub proof fn lemma_layers_take_room(s: Seq<u8>, at: int, count: nat)
    requires
        parse_layers(s, at, count) is Some,
    ensures
        at + 8 * count <= s.len(),
    decreases count,
{
    if count > 0 {
        lemma_layers_take_room(s, at + 8 + 8 * u64_at(s, at), (count - 1) as nat);
    }
}

/// Reads the number stored in the eight bytes from `at`, if it fits a machine
/// word.
fn get_usize(bytes: &[u8], at: usize) -> (r: Option<usize>)
    requires
        at + 8 <= bytes@.len(),
    ensures
        r == usize_at(bytes@, at as int),
{
    let x = get_u64(bytes, at);
    if x <= usize::MAX as u64 {
        Some(x as usize)
    } else {
        None
    }
}

/// Reads the vector of `count` patterns stored from `at`.
fn read_vector(bytes: &[u8], at: usize, count: usize) -> (v: Vec<u64>)
    requires
        at + 8 * count <= bytes@.len(),
    ensures
        v@ == vector_at(bytes@, at as int, count as nat),
{
    let mut v: Vec<u64> = Vec::new();
    let mut i: usize = 0;
    let size = bytes.len();
    while i < count
        invariant
            i <= count,
            at + 8 * count <= bytes@.len(),
            size == bytes@.len(),
            v@ == vector_at(bytes@, at as int, i as nat),
        decreases count - i,
    {
        v.push(get_u64(bytes, at + 8 * i));
        assert(v@ =~= vector_at(bytes@, at as int, (i + 1) as nat));
        i = i + 1;
    }
    v
}

/// Reads the adjacency list of `count` entries stored from `at`, unless an
/// index does not fit a machine word.
fn read_ids(bytes: &[u8], at: usize, count: usize) -> (r: Option<Vec<NodePtr>>)
    requires
        at + 8 * count <= bytes@.len(),
    ensures
        r is Some <==> ids_fit(bytes@, at as int, count as nat),
        r is Some ==> r->0@ == ids_at(bytes@, at as int, count as nat),
{
    let mut v: Vec<NodePtr> = Vec::new();
    let mut i: usize = 0;
    let size = bytes.len();
    while i < count
        invariant
            i <= count,
            at + 8 * count <= bytes@.len(),
            size == bytes@.len(),
            ids_fit(bytes@, at as int, i as nat),
            v@ == ids_at(bytes@, at as int, i as nat),
        decreases count - i,
    {
        match get_usize(bytes, at + 8 * i) {
            Some(id) => {
                v.push(NodePtr::Index(id));
            },
            None => {
                assert(word_at(bytes@, at as int, i as int) > usize::MAX);
                return None;
            },
        }
        assert(word_at(bytes@, at as int, i as int) <= usize::MAX);
        assert(v@ =~= ids_at(bytes@, at as int, (i + 1) as nat));
        i = i + 1;
    }
    Some(v)
}

/// Reads the adjacency lists of the layers up to `max_level` stored from `at`
/// to the end of `bytes`.
fn read_layers(bytes: &[u8], at: usize, max_level: usize) -> (r: Option<Vec<Vec<NodePtr>>>)
    requires
        at <= bytes@.len(),
    ensures
        match r {
            Some(v) => parse_layers(bytes@, at as int, (max_level + 1) as nat) == Some(
                lists_of(v@),
            ),
            None => parse_layers(bytes@, at as int, (max_level + 1) as nat) is None,
        },
{
    let ghost s = bytes@;
    let ghost total = (max_level + 1) as nat;
    if max_level >= (bytes.len() - at) / 8 {
        proof {
            if parse_layers(s, at as int, total) is Some {
                lemma_layers_take_room(s, at as int, total);
            }
        }
        return None;
    }
    let mut friends: Vec<Vec<NodePtr>> = Vec::new();
    let mut k: usize = at;
    let mut i: usize = 0;
    assert(Seq::<Seq<NodePtr>>::empty() + parse_layers(s, at as int, total)->0 =~= parse_layers(
        s,
        at as int,
        total,
    )->0);
    while i <= max_level
        invariant
            s == bytes@,
            total == max_level + 1,
            max_level < usize::MAX,
            i <= max_level + 1,
            at <= k <= bytes@.len(),
            joined(lists_of(friends@), parse_layers(s, k as int, (total - i) as nat))
                == parse_layers(s, at as int, total),
        decreases max_level + 1 - i,
    {
        if bytes.len() - k < 8 {
            return None;
        }
        let len = get_u64(bytes, k);
        if len > ((bytes.len() - k - 8) / 8) as u64 {
            return None;
        }
        let ids = match read_ids(bytes, k + 8, len as usize) {
            Some(ids) => ids,
            None => {
                return None;
            },
        };
        proof {
            let next = parse_layers(s, k + 8 + 8 * len, (total - i - 1) as nat);
            if next is Some {
                assert(lists_of(friends@.push(ids)) + next->0 =~= lists_of(friends@) + (seq![
                    ids@,
                ] + next->0));
            }
        }
        friends.push(ids);
        k = k + 8 + 8 * (len as usize);
        i = i + 1;
    }
    if k != bytes.len() {
        return None;
    }
    assert(lists_of(friends@) + Seq::<Seq<NodePtr>>::empty() =~= lists_of(friends@));
    Some(friends)
}

impl Node {
    /// Reads a node from its record without the four length bytes. The vector
    /// has `dimension` patterns, and the adjacency lists have to end where the
    /// record ends. The entries are left unresolved.
    pub fn deserialize(bytes: &[u8], dimension: usize) -> (r: Result<Node, GraphError>)
        ensures
            match r {
                Ok(node) => parse_node(bytes@, dimension) == Some(node@),
                Err(e) => e == GraphError::FormatError && parse_node(bytes@, dimension) is None,
            },
    {
        if bytes.len() < 16 || dimension > (bytes.len() - 16) / 8 {
            return Err(GraphError::FormatError);
        }
        let index = match get_usize(bytes, 0) {
            Some(x) => x,
            None => {
                return Err(GraphError::FormatError);
            },
        };
        let max_level = match get_usize(bytes, 8) {
            Some(x) => x,
            None => {
                return Err(GraphError::FormatError);
            },
        };
        let vector = read_vector(bytes, 16, dimension);
        let friends = match read_layers(bytes, 16 + 8 * dimension, max_level) {
            Some(f) => f,
            None => {
                return Err(GraphError::FormatError);
            },
        };
        Ok(Node { index, friend_layers: friends, max_level, vector })
    }
}

impl Graph {
    /// Reads the parameters of a graph from the sixty-four header bytes that
    /// follow the magic string; any other number of bytes is no header. The
    /// graph has no nodes yet, and its entrance is unresolved.
    pub fn deserialize(bytes: &[u8]) -> (r: Result<Graph, GraphError>)
        ensures
            match r {
                Ok(g) => parse_header(bytes@) == Some(g@),
                Err(e) => e == GraphError::FormatError && parse_header(bytes@) is None,
            },
    {
        if bytes.len() != 64 {
            return Err(GraphError::FormatError);
        }
        let dimension = get_usize(bytes, 0);
        let entrance = get_usize(bytes, 16);
        let layer_count = get_usize(bytes, 24);
        let m_l = get_u64(bytes, 32);
        let m_max = get_usize(bytes, 40);
        let m_max0 = get_usize(bytes, 48);
        let canidate = get_usize(bytes, 56);
        match (dimension, entrance, layer_count, m_max, m_max0, canidate) {
            (
                Some(dimension),
                Some(entrance),
                Some(layer_count),
                Some(m_max),
                Some(m_max0),
                Some(canidate),
            ) => {
                let g = Graph {
                    nodes: Vec::new(),
                    entrence_point: EntrencePoint::Index(entrance),
                    layer_count,
                    m_l,
                    m_max,
                    m_max0,
                    canidate_list_size: canidate,
                    dimension,
                };
                assert(g@.nodes =~= Seq::<NodeView>::empty());
                Ok(g)
            },
            _ => Err(GraphError::FormatError),
        }
    }
}

/// Reading one more item and then the rest is reading the rest after it.
pub proof fn lemma_joined_push<T>(done: Seq<T>, x: T, rest: Option<Seq<T>>)
    ensures
        joined(done.push(x), rest) == joined(done, joined(seq![x], rest)),
{
    if rest is Some {
        assert(done.push(x) + rest->0 =~= done + (seq![x] + rest->0));
    }
}

/// Reads the node records stored from position 78 up to the end marker, which
/// has to be the last four bytes.
fn read_nodes(bytes: &[u8], dimension: usize) -> (r: Option<Vec<Node>>)
    requires
        78 <= bytes@.len(),
    ensures
        match r {
            Some(nodes) => parse_nodes(bytes@, 78, dimension) == Some(views_of(nodes@)),
            None => parse_nodes(bytes@, 78, dimension) is None,
        },
{
    let ghost s = bytes@;
    let mut nodes: Vec<Node> = Vec::new();
    let mut at: usize = 78;
    assert(joined(views_of(nodes@), parse_nodes(s, 78, dimension)) == parse_nodes(
        s,
        78,
        dimension,
    )) by {
        let rest = parse_nodes(s, 78, dimension);
        if rest is Some {
            assert(views_of(nodes@) + rest->0 =~= rest->0);
        }
    }
    loop
        invariant
            s == bytes@,
            78 <= at <= bytes@.len(),
            joined(views_of(nodes@), parse_nodes(s, at as int, dimension)) == parse_nodes(
                s,
                78,
                dimension,
            ),
        decreases bytes@.len() - at,
    {
        if bytes.len() - at < 4 {
            assert(parse_nodes(s, at as int, dimension) is None);
            return None;
        }
        let node_size = get_u32(bytes, at);
        if node_size == 0 {
            if at + 4 != bytes.len() {
                assert(parse_nodes(s, at as int, dimension) is None);
                return None;
            }
            assert(parse_nodes(s, at as int, dimension) == Some(Seq::<NodeView>::empty()));
            assert(views_of(nodes@) + Seq::<NodeView>::empty() =~= views_of(nodes@));
            return Some(nodes);
        }
        if node_size as usize > bytes.len() - at - 4 {
            assert(parse_nodes(s, at as int, dimension) is None);
            return None;
        }
        let end = at + 4 + node_size as usize;
        let ghost record = s.subrange(at + 4, end as int);
        let ghost rest = parse_nodes(s, end as int, dimension);
        let node = match Node::deserialize(&bytes[at + 4..end], dimension) {
            Ok(n) => n,
            Err(e) => {
                assert(parse_node(record, dimension) is None);
                assert(parse_nodes(s, at as int, dimension) is None);
                return None;
            },
        };
        proof {
            assert(parse_node(record, dimension) == Some(node@));
            assert(parse_nodes(s, at as int, dimension) == joined(seq![node@], rest));
            lemma_joined_push(views_of(nodes@), node@, rest);
            assert(views_of(nodes@.push(node)) =~= views_of(nodes@).push(node@));
        }
        nodes.push(node);
        at = end;
    }
}

/// Reads a graph from its stored form. The bytes have to begin with the magic
/// string and hold the header, as many node records as the header counts, and
/// the end marker as their last four bytes. The graph comes out unresolved.
pub fn read(bytes: &[u8]) -> (r: Result<Graph, GraphError>)
    ensures
        match r {
            Ok(g) => parse_file(bytes@) == Some(g@),
            Err(e) => e == GraphError::FormatError && parse_file(bytes@) is None,
        },
        bytes@.len() < 14 || bytes@.subrange(0, 14) != magic() ==> r is Err,
{
    let ghost s = bytes@;
    if bytes.len() < 78 {
        return Err(GraphError::FormatError);
    }
    if !(bytes[0] == 118 && bytes[1] == 105 && bytes[2] == 116 && bytes[3] == 101 && bytes[4] == 32
        && bytes[5] == 102 && bytes[6] == 111 && bytes[7] == 114 && bytes[8] == 109 && bytes[9]
        == 97 && bytes[10] == 116 && bytes[11] == 32 && bytes[12] == 48 && bytes[13] == 0) {
        proof {
            let m = s.subrange(0, 14);
            assert(m[0] == s[0] && m[1] == s[1] && m[2] == s[2] && m[3] == s[3] && m[4] == s[4]
                && m[5] == s[5] && m[6] == s[6] && m[7] == s[7] && m[8] == s[8] && m[9] == s[9]
                && m[10] == s[10] && m[11] == s[11] && m[12] == s[12] && m[13] == s[13]);
        }
        return Err(GraphError::FormatError);
    }
    assert(s.subrange(0, 14) =~= magic());
    let mut g = match Graph::deserialize(&bytes[14..78]) {
        Ok(g) => g,
        Err(e) => {
            return Err(GraphError::FormatError);
        },
    };
    let count = match get_usize(bytes, 22) {
        Some(c) => c,
        None => {
            return Err(GraphError::FormatError);
        },
    };
    let ghost header = g@;
    let nodes = match read_nodes(bytes, g.dimension) {
        Some(nodes) => nodes,
        None => {
            return Err(GraphError::FormatError);
        },
    };
    if nodes.len() != count {
        return Err(GraphError::FormatError);
    }
    g.nodes = nodes;
    Ok(g)
}

} // verus!

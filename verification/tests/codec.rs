use rand::rngs::StdRng;
use rand::{Rng, SeedableRng};
use vite::file::read;
use vite::hnsw::{knn_search, EntrencePoint, Graph, GraphError, Node, NodePtr};

fn cosine_distance(a: &[f64], b: &[f64]) -> f64 {
    let mut num = 0.0;
    for i in 0..a.len() {
        num += a[i] * b[i];
    }
    let mut sum = 0.0;
    for f in a {
        sum += f.powi(2);
    }
    let mut dem = sum.sqrt();
    sum = 0.0;
    for f in b {
        sum += f.powi(2);
    }
    dem = dem * sum.sqrt();
    1.0 - (num / dem)
}

fn bits(v: &[f64]) -> Vec<u64> {
    v.iter().map(|x| x.to_bits()).collect()
}

fn reals(v: &[u64]) -> Vec<f64> {
    v.iter().map(|x| f64::from_bits(*x)).collect()
}

fn dist(a: &[u64], b: &[u64]) -> u64 {
    cosine_distance(&reals(a), &reals(b)).to_bits()
}

fn level_factor(m: f64) -> u64 {
    (1.0 / m.ln()).to_bits()
}

fn seed_graph() -> Graph {
    Graph::new(&bits(&[1.0, 2.0, 3.0, 4.0]), level_factor(5.0), 5, 10, 20).unwrap()
}

fn bulk_graph() -> Graph {
    let mut g = seed_graph();
    let mut rng = StdRng::seed_from_u64(7);
    let m_l = f64::from_bits(g.m_l);
    for _ in 0..100 {
        let v = bits(&[rng.gen::<f64>(), rng.gen::<f64>(), rng.gen::<f64>(), rng.gen::<f64>()]);
        let sample: f64 = rng.gen();
        let level = (-sample.ln() * m_l).floor() as usize;
        g.insert(&v, level, &dist).unwrap();
    }
    g
}

fn word(x: u64) -> Vec<u8> {
    x.to_be_bytes().to_vec()
}

fn small_file() -> Vec<u8> {
    let mut g = Graph::new(&[10, 20], 77, 2, 3, 4).unwrap();
    g.nodes[0].friend_layers[0].push(NodePtr::Ptr(1));
    let mut second = Node::new(1, 1, &[30, 40]);
    second.friend_layers[0].push(NodePtr::Ptr(0));
    g.nodes.push(second);
    g.layer_count = 2;
    g.entrence_point = EntrencePoint::Weak(1);
    vite::file::write(&g)
}

#[test]
fn persistence_round_trip() {
    let g = bulk_graph();
    let stored = vite::file::write(&g);
    let mut back = read(&stored).unwrap();
    assert_eq!(back.entrence_point, EntrencePoint::Index(g.entrence_point.weak().unwrap()));
    back.resolve().unwrap();
    assert_eq!(vite::file::write(&back), stored);
    assert_eq!(back.dimension, g.dimension);
    assert_eq!(back.layer_count, g.layer_count);
    assert_eq!(back.m_l, g.m_l);
    assert_eq!(back.m_max, g.m_max);
    assert_eq!(back.m_max0, g.m_max0);
    assert_eq!(back.canidate_list_size, g.canidate_list_size);
    assert_eq!(back.entrence_point, g.entrence_point);
    assert_eq!(back.nodes.len(), g.nodes.len());
    for (a, b) in back.nodes.iter().zip(g.nodes.iter()) {
        assert_eq!(a.index, b.index);
        assert_eq!(a.max_level, b.max_level);
        assert_eq!(a.vector, b.vector);
        assert_eq!(a.friend_layers, b.friend_layers);
    }
    let q = bits(&[1.0, 2.0, 3.0, 4.0]);
    let before = knn_search(&g, &q, 5, 20, &dist).unwrap();
    let after = knn_search(&back, &q, 5, 20, &dist).unwrap();
    assert_eq!(before.len(), 5);
    assert_eq!(before, after);
    assert_eq!(before[0].0, 0);
}

#[test]
fn malformed_file() {
    let mut stored = vite::file::write(&seed_graph());
    assert!(read(&stored).is_ok());
    stored[12] = b'1';
    assert_eq!(&stored[0..14], b"vite format 1\0");
    assert_eq!(read(&stored).err(), Some(GraphError::FormatError));
}

#[test]
fn any_other_magic_is_rejected() {
    let good = vite::file::write(&seed_graph());
    for i in 0..14 {
        let mut stored = good.clone();
        stored[i] ^= 0x20;
        assert_eq!(read(&stored).err(), Some(GraphError::FormatError));
    }
    assert_eq!(read(&[]).err(), Some(GraphError::FormatError));
    assert_eq!(read(b"vite format 0\0").err(), Some(GraphError::FormatError));
}

#[test]
fn stored_form_has_the_documented_layout() {
    let stored = small_file();
    let mut expected: Vec<u8> = b"vite format 0\0".to_vec();
    for x in [2u64, 2, 1, 2, 77, 2, 3, 4] {
        expected.extend(word(x));
    }
    // node 0: index 0, level 0, vector, one list with one neighbour
    expected.extend([0u8, 0, 0, 48]);
    for x in [0u64, 0, 10, 20, 1, 1] {
        expected.extend(word(x));
    }
    // node 1: index 1, level 1, vector, a list with one neighbour and an empty one
    expected.extend([0u8, 0, 0, 56]);
    for x in [1u64, 1, 30, 40, 1, 0, 0] {
        expected.extend(word(x));
    }
    expected.extend([0u8, 0, 0, 0]);
    assert_eq!(stored, expected);
    assert_eq!(stored.len(), 78 + 52 + 60 + 4);
}

#[test]
fn header_and_record_are_serialized_alone() {
    let g = seed_graph();
    let header = g.serialize();
    assert_eq!(header.len(), 64);
    let mut expected = Vec::new();
    for x in [4u64, 1, 0, 1, level_factor(5.0), 5, 10, 20] {
        expected.extend(word(x));
    }
    assert_eq!(header, expected);
    let record = g.nodes[0].serialize();
    let mut expected = vec![0u8, 0, 0, 56];
    for x in [0u64, 0, 1.0f64.to_bits(), 2.0f64.to_bits(), 3.0f64.to_bits(), 4.0f64.to_bits(), 0] {
        expected.extend(word(x));
    }
    assert_eq!(record, expected);
}

#[test]
fn header_is_read_back_unresolved() {
    let g = seed_graph();
    let back = Graph::deserialize(&g.serialize()).unwrap();
    assert_eq!(back.dimension, 4);
    assert_eq!(back.layer_count, 1);
    assert_eq!(back.m_l, level_factor(5.0));
    assert_eq!(back.m_max, 5);
    assert_eq!(back.m_max0, 10);
    assert_eq!(back.canidate_list_size, 20);
    assert_eq!(back.entrence_point, EntrencePoint::Index(0));
    assert!(back.nodes.is_empty());
}

#[test]
fn record_is_read_back_unresolved() {
    let stored = small_file();
    let record = &stored[78 + 52 + 4..78 + 52 + 60];
    let node = Node::deserialize(record, 2).unwrap();
    assert_eq!(node.index, 1);
    assert_eq!(node.max_level, 1);
    assert_eq!(node.vector, vec![30, 40]);
    assert_eq!(node.friend_layers, vec![vec![NodePtr::Index(0)], vec![]]);
    // a record must end where its lists end
    assert_eq!(Node::deserialize(&record[..55], 2).err(), Some(GraphError::FormatError));
    let mut longer = record.to_vec();
    longer.push(0);
    assert_eq!(Node::deserialize(&longer, 2).err(), Some(GraphError::FormatError));
    assert_eq!(Node::deserialize(record, 4).err(), Some(GraphError::FormatError));
    assert_eq!(Node::deserialize(record, 6).err(), Some(GraphError::FormatError));
    // read with a dimension of three, the same bytes are a node with two empty lists
    let other = Node::deserialize(record, 3).unwrap();
    assert_eq!(other.vector, vec![30, 40, 1]);
    assert_eq!(other.friend_layers, vec![vec![], vec![]]);
    assert_eq!(Node::deserialize(&record[..15], 0).err(), Some(GraphError::FormatError));
}

#[test]
fn truncated_files_are_rejected() {
    let stored = small_file();
    assert!(read(&stored).is_ok());
    for len in 0..stored.len() {
        assert_eq!(read(&stored[..len]).err(), Some(GraphError::FormatError), "length {}", len);
    }
    let mut longer = stored.clone();
    longer.push(0);
    assert_eq!(read(&longer).err(), Some(GraphError::FormatError));
}

#[test]
fn node_count_must_match_the_records() {
    let mut stored = small_file();
    stored[29] = 3;
    assert_eq!(read(&stored).err(), Some(GraphError::FormatError));
    stored[29] = 1;
    assert_eq!(read(&stored).err(), Some(GraphError::FormatError));
    stored[29] = 2;
    assert!(read(&stored).is_ok());
}

#[test]
fn oversized_adjacency_length_is_rejected() {
    let mut stored = small_file();
    // the length of node 0's only list
    let at = 78 + 4 + 32;
    assert_eq!(&stored[at..at + 8], &word(1)[..]);
    stored[at + 7] = 2;
    assert_eq!(read(&stored).err(), Some(GraphError::FormatError));
    stored[at] = 0xff;
    assert_eq!(read(&stored).err(), Some(GraphError::FormatError));
}

#[test]
fn unresolved_graph_refuses_search_and_insert() {
    let stored = vite::file::write(&bulk_graph());
    let mut g = read(&stored).unwrap();
    let q = bits(&[1.0, 2.0, 3.0, 4.0]);
    assert_eq!(knn_search(&g, &q, 1, 20, &dist), Err(GraphError::UnresolvedGraph));
    assert_eq!(g.insert(&q, 0, &dist), Err(GraphError::UnresolvedGraph));
    assert_eq!(g.nodes.len(), 101);
    g.resolve().unwrap();
    assert!(knn_search(&g, &q, 1, 20, &dist).is_ok());
    assert_eq!(g.insert(&q, 0, &dist), Ok(()));
    assert_eq!(g.nodes.len(), 102);
}

#[test]
fn resolve_rejects_what_breaks_the_invariant() {
    let stored = small_file();
    let good = read(&stored).unwrap();
    assert!(good.clone().resolve().is_ok());

    let mut g = good.clone();
    g.nodes[0].friend_layers[0][0] = NodePtr::Index(2);
    assert_eq!(g.resolve(), Err(GraphError::FormatError));
    assert_eq!(g.nodes[0].friend_layers[0][0], NodePtr::Index(2));
    assert_eq!(g.entrence_point, EntrencePoint::Index(1));

    let mut g = good.clone();
    g.entrence_point = EntrencePoint::Index(0);
    assert_eq!(g.resolve(), Err(GraphError::FormatError));

    let mut g = good.clone();
    g.entrence_point = EntrencePoint::Index(9);
    assert_eq!(g.resolve(), Err(GraphError::FormatError));

    let mut g = good.clone();
    g.nodes[1].friend_layers[1].push(NodePtr::Index(0));
    assert_eq!(g.resolve(), Err(GraphError::FormatError));

    let mut g = good.clone();
    g.nodes[1].index = 5;
    assert_eq!(g.resolve(), Err(GraphError::FormatError));

    let mut g = good.clone();
    g.m_max0 = 0;
    assert_eq!(g.resolve(), Err(GraphError::FormatError));

    let mut g = good.clone();
    g.nodes[0].friend_layers[0] =
        vec![NodePtr::Index(1), NodePtr::Index(1), NodePtr::Index(1), NodePtr::Index(1)];
    assert_eq!(g.resolve(), Err(GraphError::FormatError));

    let mut g = good.clone();
    g.dimension = 3;
    assert_eq!(g.resolve(), Err(GraphError::FormatError));

    let mut g = good.clone();
    g.layer_count = 3;
    assert_eq!(g.resolve(), Err(GraphError::FormatError));
}

#[test]
fn resolve_turns_every_index_into_a_pointer() {
    let mut g = read(&small_file()).unwrap();
    assert_eq!(g.nodes[0].friend_layers, vec![vec![NodePtr::Index(1)]]);
    assert_eq!(g.resolve(), Ok(()));
    assert_eq!(g.entrence_point, EntrencePoint::Weak(1));
    assert_eq!(g.nodes[0].friend_layers, vec![vec![NodePtr::Ptr(1)]]);
    assert_eq!(g.nodes[1].friend_layers, vec![vec![NodePtr::Ptr(0)], vec![]]);
    assert_eq!(g.resolve(), Ok(()));
    assert_eq!(g.nodes[0].friend_layers, vec![vec![NodePtr::Ptr(1)]]);
}

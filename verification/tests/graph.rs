use rand::rngs::StdRng;
use rand::{Rng, SeedableRng};
use vite::hnsw::{
    as_ptrs, select_neighbors_simple, shrinkable, EntrencePoint, Graph, GraphError, Node, NodePtr,
};
use vite::search::{contains_rc, descend, knn_search, search_layer};

fn cosine_distance(a: &[f64], b: &[f64]) -> f64 {
    let mut num = 0.0;
    for i in 0..a.len() {
        num += a[i] * b[i];
    }
    let mut sum = 0.0;
    for f in a {
        sum += f.powi(2);
    }
    let mut dem = sum.sqrt();
    sum = 0.0;
    for f in b {
        sum += f.powi(2);
    }
    dem = dem * sum.sqrt();
    1.0 - (num / dem)
}

fn bits(v: &[f64]) -> Vec<u64> {
    v.iter().map(|x| x.to_bits()).collect()
}

fn reals(v: &[u64]) -> Vec<f64> {
    v.iter().map(|x| f64::from_bits(*x)).collect()
}

fn dist(a: &[u64], b: &[u64]) -> u64 {
    cosine_distance(&reals(a), &reals(b)).to_bits()
}

fn level_factor(m: f64) -> u64 {
    (1.0 / m.ln()).to_bits()
}

fn calc_level(rng: &mut StdRng, m_l: f64) -> usize {
    let sample: f64 = rng.gen();
    (-sample.ln() * m_l).floor() as usize
}

fn at_angle(degrees: f64) -> Vec<u64> {
    let r = degrees.to_radians();
    bits(&[r.cos(), r.sin()])
}

fn seed_graph() -> Graph {
    Graph::new(&bits(&[1.0, 2.0, 3.0, 4.0]), level_factor(5.0), 5, 10, 20).unwrap()
}

fn bulk_graph() -> (Graph, Vec<Vec<u64>>) {
    let mut g = seed_graph();
    let mut rng = StdRng::seed_from_u64(7);
    let m_l = f64::from_bits(g.m_l);
    let mut vectors = Vec::new();
    for _ in 0..100 {
        let v = bits(&[rng.gen::<f64>(), rng.gen::<f64>(), rng.gen::<f64>(), rng.gen::<f64>()]);
        let level = calc_level(&mut rng, m_l);
        g.insert(&v, level, &dist).unwrap();
        vectors.push(v);
    }
    (g, vectors)
}

fn targets(list: &[NodePtr]) -> Vec<usize> {
    list.iter()
        .map(|p| match p {
            NodePtr::Ptr(i) => *i,
            NodePtr::Index(i) => *i,
        })
        .collect()
}

fn assert_invariants(g: &Graph) {
    assert!(g.layer_count >= 1);
    let entrance = g.entrence_point.weak().unwrap();
    assert_eq!(g.nodes[entrance].max_level, g.layer_count - 1);
    let mut top = 0;
    for (i, node) in g.nodes.iter().enumerate() {
        assert_eq!(node.index, i);
        assert_eq!(node.vector.len(), g.dimension);
        assert_eq!(node.friend_layers.len(), node.max_level + 1);
        top = top.max(node.max_level);
        for (layer, list) in node.friend_layers.iter().enumerate() {
            let limit = if layer > 0 { g.m_max } else { g.m_max0 };
            assert!(list.len() <= limit);
            for p in list {
                let t = p.ptr().unwrap();
                assert!(t < g.nodes.len());
                assert!(g.nodes[t].max_level >= layer);
            }
        }
    }
    assert_eq!(g.layer_count, top + 1);
}

fn is_symmetric(g: &Graph) -> bool {
    for (i, node) in g.nodes.iter().enumerate() {
        for (layer, list) in node.friend_layers.iter().enumerate() {
            for t in targets(list) {
                if !targets(&g.nodes[t].friend_layers[layer]).contains(&i) {
                    return false;
                }
            }
        }
    }
    true
}

#[test]
fn single_vector_recall() {
    let g = seed_graph();
    let q = bits(&[1.0, 2.0, 3.0, 4.0]);
    let found = knn_search(&g, &q, 1, 20, &dist).unwrap();
    assert_eq!(found.len(), 1);
    assert_eq!(found[0].0, 0);
    assert!(f64::from_bits(found[0].1) <= 1e-12);
}

#[test]
fn self_recall_after_bulk_insert() {
    let (g, vectors) = bulk_graph();
    assert_eq!(g.nodes.len(), 101);
    let mut hits = 0;
    for (i, v) in vectors.iter().enumerate() {
        let found = knn_search(&g, v, 1, 50, &dist).unwrap();
        assert_eq!(found.len(), 1);
        if found[0].0 == i + 1 {
            hits += 1;
        }
    }
    assert!(hits >= 95, "only {} of 100 vectors found themselves", hits);
}

#[test]
fn invariants_hold_after_every_insert() {
    let mut g = seed_graph();
    assert_invariants(&g);
    let mut rng = StdRng::seed_from_u64(11);
    let m_l = f64::from_bits(g.m_l);
    let mut layers = g.layer_count;
    for n in 0..60 {
        let v = bits(&[rng.gen::<f64>(), rng.gen::<f64>(), rng.gen::<f64>(), rng.gen::<f64>()]);
        let level = calc_level(&mut rng, m_l);
        g.insert(&v, level, &dist).unwrap();
        assert_eq!(g.nodes.len(), n + 2);
        assert!(g.layer_count >= layers);
        assert!(g.layer_count <= layers + 1);
        layers = g.layer_count;
        assert_invariants(&g);
    }
}

#[test]
fn dimension_mismatch_is_rejected_and_changes_nothing() {
    let mut g = seed_graph();
    let r = g.insert(&bits(&[1.0, 2.0, 3.0]), 0, &dist);
    assert_eq!(r, Err(GraphError::DimensionMismatch));
    assert_eq!(g.nodes.len(), 1);
    let r = knn_search(&g, &bits(&[1.0, 2.0, 3.0]), 1, 20, &dist);
    assert_eq!(r, Err(GraphError::DimensionMismatch));
}

#[test]
fn zero_parameters_are_rejected() {
    let q = bits(&[1.0, 2.0]);
    assert_eq!(Graph::new(&q, level_factor(5.0), 0, 10, 20).err(), Some(GraphError::InvalidParameter));
    assert_eq!(Graph::new(&q, level_factor(5.0), 5, 0, 20).err(), Some(GraphError::InvalidParameter));
    assert_eq!(Graph::new(&q, level_factor(5.0), 5, 10, 0).err(), Some(GraphError::InvalidParameter));
    assert!(Graph::new(&q, level_factor(5.0), 1, 1, 1).is_ok());
}

#[test]
fn more_results_than_candidates_is_rejected() {
    let g = seed_graph();
    let q = bits(&[1.0, 2.0, 3.0, 4.0]);
    assert_eq!(knn_search(&g, &q, 3, 2, &dist), Err(GraphError::InvalidParameter));
    assert!(knn_search(&g, &q, 2, 2, &dist).is_ok());
}

#[test]
fn new_graph_holds_the_seed_alone() {
    let g = seed_graph();
    assert_eq!(g.nodes.len(), 1);
    assert_eq!(g.layer_count, 1);
    assert_eq!(g.dimension, 4);
    assert_eq!(g.m_max, 5);
    assert_eq!(g.m_max0, 10);
    assert_eq!(g.canidate_list_size, 20);
    assert_eq!(g.m_l, level_factor(5.0));
    assert_eq!(g.entrence_point, EntrencePoint::Weak(0));
    assert_eq!(g.nodes[0].index, 0);
    assert_eq!(g.nodes[0].max_level, 0);
    assert_eq!(g.nodes[0].vector, bits(&[1.0, 2.0, 3.0, 4.0]));
    assert_eq!(g.nodes[0].friend_layers, vec![Vec::<NodePtr>::new()]);
}

#[test]
fn node_new_has_one_empty_list_per_layer() {
    let n = Node::new(7, 2, &bits(&[0.5, 0.25]));
    assert_eq!(n.index, 7);
    assert_eq!(n.max_level, 2);
    assert_eq!(n.vector, bits(&[0.5, 0.25]));
    assert_eq!(n.friend_layers.len(), 3);
    assert!(n.friend_layers.iter().all(|l| l.is_empty()));
}

#[test]
fn inserted_seed_vector_is_found_at_distance_zero() {
    let mut g = seed_graph();
    let q = bits(&[1.0, 2.0, 3.0, 4.0]);
    g.insert(&q, 0, &dist).unwrap();
    let found = knn_search(&g, &q, 1, 20, &dist).unwrap();
    assert_eq!(found.len(), 1);
    assert_eq!(found[0].0, 0);
    assert!(f64::from_bits(found[0].1) <= 1e-12);
    let both = knn_search(&g, &q, 2, 20, &dist).unwrap();
    assert_eq!(both.iter().map(|x| x.0).collect::<Vec<_>>(), vec![0, 1]);
}

#[test]
fn one_result_with_one_candidate_is_the_end_of_the_descent() {
    let (g, vectors) = bulk_graph();
    let entrance = g.entrence_point.weak().unwrap();
    for v in vectors.iter().take(20) {
        let found = knn_search(&g, v, 1, 1, &dist).unwrap();
        let end = descend(&g, v, entrance, g.layer_count - 1, 0, &dist);
        assert_eq!(found, vec![(end, dist(v, &g.nodes[end].vector))]);
        let ep = descend(&g, v, entrance, g.layer_count - 1, 1, &dist);
        let base = search_layer(&g, v, ep, 1, 0, &dist);
        assert_eq!(base.len(), 1);
        assert_eq!(base[0].node, end);
    }
}

#[test]
fn fewer_nodes_than_asked_for_returns_them_all() {
    let mut g = seed_graph();
    g.insert(&bits(&[4.0, 3.0, 2.0, 1.0]), 0, &dist).unwrap();
    g.insert(&bits(&[1.0, 1.0, 1.0, 1.0]), 0, &dist).unwrap();
    let found = knn_search(&g, &bits(&[1.0, 2.0, 3.0, 4.0]), 5, 20, &dist).unwrap();
    assert_eq!(found.len(), 3);
    assert_eq!(found.iter().map(|x| x.0).collect::<Vec<_>>(), vec![0, 2, 1]);
}

#[test]
fn unreachable_node_is_not_returned() {
    // With one neighbour per node, node 0 gives up node 1 for the closer node 2,
    // and node 1, which still points at node 0, can no longer be reached from it.
    let mut g = Graph::new(&at_angle(0.0), level_factor(5.0), 1, 1, 20).unwrap();
    g.insert(&at_angle(40.0), 0, &dist).unwrap();
    g.insert(&at_angle(10.0), 0, &dist).unwrap();
    assert_eq!(targets(&g.nodes[0].friend_layers[0]), vec![2]);
    assert_eq!(targets(&g.nodes[1].friend_layers[0]), vec![0]);
    assert_eq!(targets(&g.nodes[2].friend_layers[0]), vec![0]);
    assert!(!is_symmetric(&g));
    let found = knn_search(&g, &at_angle(0.0), 5, 20, &dist).unwrap();
    assert_eq!(found.iter().map(|x| x.0).collect::<Vec<_>>(), vec![0, 2]);
}

#[test]
fn results_are_distinct_sorted_and_at_most_k() {
    let (g, _) = bulk_graph();
    let mut rng = StdRng::seed_from_u64(3);
    for k in [0usize, 1, 5, 20] {
        let q = bits(&[rng.gen::<f64>(), rng.gen::<f64>(), rng.gen::<f64>(), rng.gen::<f64>()]);
        let found = knn_search(&g, &q, k, 20, &dist).unwrap();
        assert!(found.len() <= k);
        for w in found.windows(2) {
            assert!(f64::from_bits(w[0].1) <= f64::from_bits(w[1].1));
        }
        let mut ids: Vec<usize> = found.iter().map(|x| x.0).collect();
        ids.sort();
        ids.dedup();
        assert_eq!(ids.len(), found.len());
        for (i, d) in &found {
            assert_eq!(*d, dist(&q, &g.nodes[*i].vector));
        }
    }
}

#[test]
fn full_list_is_cut_to_the_closest_of_its_owner() {
    let mut g = Graph::new(&at_angle(0.0), level_factor(5.0), 2, 2, 20).unwrap();
    g.insert(&at_angle(50.0), 0, &dist).unwrap();
    g.insert(&at_angle(-40.0), 0, &dist).unwrap();
    assert_eq!(targets(&g.nodes[0].friend_layers[0]), vec![1, 2]);
    assert_eq!(targets(&g.nodes[1].friend_layers[0]), vec![0, 2]);
    assert_eq!(targets(&g.nodes[2].friend_layers[0]), vec![0, 1]);
    assert!(is_symmetric(&g));
    g.insert(&at_angle(20.0), 0, &dist).unwrap();
    // Seen from the new node the closest are 0 and 1; seen from node 0 they are the
    // new node and node 2, and from node 1 the new node and node 0.
    assert_eq!(targets(&g.nodes[3].friend_layers[0]), vec![0, 1]);
    assert_eq!(targets(&g.nodes[0].friend_layers[0]), vec![3, 2]);
    assert_eq!(targets(&g.nodes[1].friend_layers[0]), vec![3, 0]);
    assert_eq!(targets(&g.nodes[2].friend_layers[0]), vec![0, 1]);
    assert!(!is_symmetric(&g));
    assert_invariants(&g);
}

#[test]
fn insertion_with_room_everywhere_keeps_symmetry() {
    let mut g = Graph::new(&at_angle(0.0), level_factor(5.0), 8, 8, 20).unwrap();
    let mut level = 0;
    for (i, a) in [15.0, 80.0, -30.0, 130.0, 200.0, 45.0].iter().enumerate() {
        g.insert(&at_angle(*a), level, &dist).unwrap();
        level = (i + 1) % 3;
        assert!(is_symmetric(&g));
        assert_invariants(&g);
    }
    assert_eq!(g.nodes.len(), 7);
}

#[test]
fn sampled_level_is_clamped_to_one_new_layer() {
    let mut g = seed_graph();
    g.insert(&bits(&[4.0, 3.0, 2.0, 1.0]), 100, &dist).unwrap();
    assert_eq!(g.layer_count, 2);
    assert_eq!(g.nodes[1].max_level, 1);
    assert_eq!(g.entrence_point, EntrencePoint::Weak(1));
    assert_eq!(g.nodes[1].friend_layers.len(), 2);
    assert_eq!(targets(&g.nodes[1].friend_layers[0]), vec![0]);
    assert!(g.nodes[1].friend_layers[1].is_empty());
    assert_eq!(targets(&g.nodes[0].friend_layers[0]), vec![1]);
    g.insert(&bits(&[1.0, 1.0, 1.0, 1.0]), 1, &dist).unwrap();
    assert_eq!(g.layer_count, 2);
    assert_eq!(g.nodes[2].max_level, 1);
    assert_eq!(g.entrence_point, EntrencePoint::Weak(1));
    assert_eq!(targets(&g.nodes[2].friend_layers[1]), vec![1]);
    assert_eq!(targets(&g.nodes[1].friend_layers[1]), vec![2]);
    assert_invariants(&g);
}

#[test]
fn layer_search_keeps_the_closest_in_order() {
    let mut g = Graph::new(&at_angle(0.0), level_factor(5.0), 8, 8, 20).unwrap();
    for a in [10.0, 20.0, 30.0, 40.0] {
        g.insert(&at_angle(a), 0, &dist).unwrap();
    }
    let q = at_angle(26.0);
    let found = search_layer(&g, &q, 0, 3, 0, &dist);
    assert_eq!(found.iter().map(|x| x.node).collect::<Vec<_>>(), vec![3, 2, 4]);
    for it in &found {
        assert_eq!(it.distance, dist(&q, &g.nodes[it.node].vector));
    }
    let all = search_layer(&g, &q, 0, 10, 0, &dist);
    assert_eq!(all.iter().map(|x| x.node).collect::<Vec<_>>(), vec![3, 2, 4, 1, 0]);
    let one = search_layer(&g, &q, 0, 1, 0, &dist);
    assert_eq!(one.iter().map(|x| x.node).collect::<Vec<_>>(), vec![3]);
}

#[test]
fn selection_takes_the_closest_candidates() {
    let mut g = Graph::new(&at_angle(0.0), level_factor(5.0), 8, 8, 20).unwrap();
    for a in [10.0, 20.0, 30.0, 40.0] {
        g.insert(&at_angle(a), 0, &dist).unwrap();
    }
    let c = vec![NodePtr::Ptr(0), NodePtr::Ptr(4), NodePtr::Ptr(2), NodePtr::Ptr(1)];
    let q = at_angle(36.0);
    assert_eq!(
        select_neighbors_simple(&g, &q, &c, 2, &dist),
        vec![NodePtr::Ptr(4), NodePtr::Ptr(2)]
    );
    assert_eq!(
        select_neighbors_simple(&g, &q, &c, 9, &dist),
        vec![NodePtr::Ptr(4), NodePtr::Ptr(2), NodePtr::Ptr(1), NodePtr::Ptr(0)]
    );
    assert_eq!(select_neighbors_simple(&g, &q, &c, 0, &dist), vec![]);
    let found = search_layer(&g, &q, 0, 2, 0, &dist);
    assert_eq!(as_ptrs(&found), vec![NodePtr::Ptr(4), NodePtr::Ptr(3)]);
}

#[test]
fn push_friend_links_both_ways() {
    let mut g = Graph::new(&at_angle(0.0), level_factor(5.0), 2, 2, 20).unwrap();
    g.nodes.push(Node::new(1, 0, &at_angle(10.0)));
    g.nodes.push(Node::new(2, 0, &at_angle(20.0)));
    g.push_friend(1, 0, 0, true, &dist);
    assert_eq!(targets(&g.nodes[0].friend_layers[0]), vec![1]);
    assert_eq!(targets(&g.nodes[1].friend_layers[0]), vec![0]);
    g.push_friend(2, 0, 0, false, &dist);
    assert_eq!(targets(&g.nodes[0].friend_layers[0]), vec![1]);
    assert_eq!(targets(&g.nodes[2].friend_layers[0]), vec![0]);
}

#[test]
fn shrinkable_reports_the_limit_of_a_crowded_list() {
    assert_eq!(shrinkable(6, 1, 5, 10), Some(5));
    assert_eq!(shrinkable(5, 1, 5, 10), None);
    assert_eq!(shrinkable(11, 0, 5, 10), Some(10));
    assert_eq!(shrinkable(10, 0, 5, 10), None);
    assert_eq!(shrinkable(6, 0, 5, 10), None);
    assert_eq!(shrinkable(11, 3, 5, 10), Some(5));
}

#[test]
fn contains_rc_finds_what_is_there() {
    let v = vec![3usize, 1, 4];
    assert!(contains_rc(&v, 4));
    assert!(contains_rc(&v, 3));
    assert!(!contains_rc(&v, 2));
    assert!(!contains_rc(&Vec::new(), 0));
}

#[test]
fn pointers_tell_resolved_from_unresolved() {
    assert_eq!(NodePtr::Ptr(3).ptr(), Some(3));
    assert_eq!(NodePtr::Ptr(3).index(), None);
    assert_eq!(NodePtr::Index(4).ptr(), None);
    assert_eq!(NodePtr::Index(4).index(), Some(4));
    assert_eq!(EntrencePoint::Weak(1).weak(), Some(1));
    assert_eq!(EntrencePoint::Weak(1).index(), None);
    assert_eq!(EntrencePoint::Index(2).weak(), None);
    assert_eq!(EntrencePoint::Index(2).index(), Some(2));
}

#[test]
fn narrow_candidate_list_gives_short_neighbour_lists() {
    let mut g = Graph::new(&at_angle(0.0), level_factor(5.0), 5, 10, 1).unwrap();
    for a in [10.0, 20.0, 30.0, 40.0, 50.0] {
        g.insert(&at_angle(a), 0, &dist).unwrap();
        let last = g.nodes.len() - 1;
        assert_eq!(g.nodes[last].friend_layers[0].len(), 1);
    }
    assert_invariants(&g);
}

#[test]
fn asking_for_nothing_returns_nothing() {
    let (g, _) = bulk_graph();
    let q = bits(&[1.0, 2.0, 3.0, 4.0]);
    assert_eq!(knn_search(&g, &q, 0, 20, &dist), Ok(vec![]));
    assert_eq!(knn_search(&g, &q, 0, 0, &dist), Ok(vec![]));
    assert_eq!(knn_search(&g, &q, 1, 0, &dist), Err(GraphError::InvalidParameter));
}

#[test]
fn layer_search_always_keeps_one_node() {
    let mut g = Graph::new(&at_angle(0.0), level_factor(5.0), 8, 8, 20).unwrap();
    for a in [10.0, 20.0, 30.0] {
        g.insert(&at_angle(a), 0, &dist).unwrap();
    }
    let found = search_layer(&g, &at_angle(25.0), 0, 0, 0, &dist);
    assert_eq!(found.len(), 1);
}

#[test]
fn descent_stops_where_it_is_told() {
    let mut g = Graph::new(&at_angle(0.0), level_factor(5.0), 8, 8, 20).unwrap();
    g.insert(&at_angle(90.0), 1, &dist).unwrap();
    g.insert(&at_angle(45.0), 2, &dist).unwrap();
    g.insert(&at_angle(80.0), 1, &dist).unwrap();
    assert_eq!(g.layer_count, 3);
    assert_eq!(g.entrence_point, EntrencePoint::Weak(2));
    let q = at_angle(85.0);
    // nothing to descend through
    assert_eq!(descend(&g, &q, 2, 2, 3, &dist), 2);
    // on the top layer the entrance is alone
    assert_eq!(descend(&g, &q, 2, 2, 2, &dist), 2);
    // one layer down the closest of nodes 1, 2 and 3
    assert_eq!(descend(&g, &q, 2, 2, 1, &dist), 3);
    assert_eq!(descend(&g, &q, 2, 2, 0, &dist), 3);
    assert_eq!(descend(&g, &at_angle(1.0), 2, 2, 0, &dist), 0);
}

#[test]
fn valid_graphs_are_recognised() {
    let (mut g, _) = bulk_graph();
    assert!(g.is_valid());
    g.nodes[5].friend_layers[0].push(NodePtr::Ptr(1000));
    assert!(!g.is_valid());
}

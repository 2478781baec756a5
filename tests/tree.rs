use vector_tree::codec::{deserialize, serialize, Record};
use vector_tree::error::NodeError;
use vector_tree::node::{Hit, Node};
use vector_tree::score::{score_gt, score_lt, total_key};

fn cos(a: &[f64], b: &[f64]) -> f64 {
    let dot: f64 = a.iter().zip(b.iter()).map(|(x, y)| x * y).sum();
    let na: f64 = a.iter().map(|x| x * x).sum::<f64>().sqrt();
    let nb: f64 = b.iter().map(|x| x * x).sum::<f64>().sqrt();
    dot / (na * nb)
}

fn bits(v: &[f64]) -> Vec<u64> {
    v.iter().map(|x| x.to_bits()).collect()
}

fn floats(v: &[u64]) -> Vec<f64> {
    v.iter().map(|b| f64::from_bits(*b)).collect()
}

fn sims(t: &Node, e: &[f64]) -> Vec<u64> {
    (0..t.len()).map(|i| cos(&floats(&t.slot(i).embedding), e).to_bits()).collect()
}

fn insert(t: &mut Node, e: &[f64], url: &str) {
    let s = sims(t, e);
    assert!(t.has_room());
    t.add_child(bits(e), url.to_string(), &s);
}

fn search(t: &Node, q: &[f64], thr: f64, cap: usize) -> Vec<Hit> {
    let s = sims(t, q);
    t.search(thr.to_bits(), cap, &s)
}

fn labels(h: &[Hit]) -> Vec<String> {
    h.iter().map(|x| x.url.clone()).collect()
}

fn scenario_tree() -> Node {
    let mut t = Node::new(0, vec![], String::new());
    insert(&mut t, &[1.0, 0.0], "a");
    insert(&mut t, &[0.0, 1.0], "b");
    insert(&mut t, &[0.9, 0.1], "c");
    t
}

#[test]
fn three_vectors_scenario() {
    let t = scenario_tree();
    assert_eq!(t.len(), 3);
    assert_eq!(t.get_url(), "a");
    let root = t.slot(0);
    assert_eq!(root.node_a, Some(1));
    assert_eq!(root.node_b, Some(2));
    assert_eq!(t.slot(1).url, "b");
    assert_eq!(t.slot(2).url, "c");
    assert_eq!(t.slot(1).depth, 1);
    assert!(f64::from_bits(root.node_a_dist).abs() < 1e-12);
    assert!((f64::from_bits(root.node_b_dist) - cos(&[1.0, 0.0], &[0.9, 0.1])).abs() < 1e-12);
    let hits = search(&t, &[1.0, 0.0], 0.5, 5);
    assert_eq!(labels(&hits), vec!["c".to_string(), "a".to_string()]);
    assert_eq!(hits[0].visit, 3);
    assert_eq!(hits[1].visit, 1);
    assert!((f64::from_bits(hits[1].score) - 1.0).abs() < 1e-12);
}

#[test]
fn descends_into_more_similar_child() {
    let mut t = scenario_tree();
    // [0.1, 0.9] is closer to b (slot 1) than to c (slot 2).
    insert(&mut t, &[0.1, 0.9], "d");
    assert_eq!(t.slot(1).node_a, Some(3));
    assert_eq!(t.slot(3).depth, 2);
    // [0.95, 0.05] is closer to c.
    insert(&mut t, &[0.95, 0.05], "e");
    assert_eq!(t.slot(2).node_a, Some(4));
}

#[test]
fn equal_similarity_goes_to_child_a() {
    let mut t = Node::new(0, bits(&[1.0, 0.0]), "r".to_string());
    insert(&mut t, &[0.0, 1.0], "x");
    insert(&mut t, &[0.0, 1.0], "y");
    insert(&mut t, &[0.0, 1.0], "z");
    assert_eq!(t.slot(1).node_a, Some(3));
    assert_eq!(t.slot(2).node_a, None);
}

#[test]
fn unpopulated_root_adopts_first_vector() {
    let mut t = Node::new(0, vec![], "placeholder".to_string());
    insert(&mut t, &[3.0, 4.0], "first");
    assert_eq!(t.len(), 1);
    assert_eq!(t.get_url(), "first");
    assert_eq!(t.slot(0).embedding, bits(&[3.0, 4.0]));
    assert_eq!(t.slot(0).node_a, None);
}

#[test]
fn zero_cap_still_scores_root() {
    let t = scenario_tree();
    let hits = search(&t, &[1.0, 0.0], 0.5, 0);
    assert_eq!(labels(&hits), vec!["a".to_string()]);
    assert_eq!(hits[0].visit, 1);
    let none = search(&t, &[0.0, 1.0], 0.5, 0);
    assert!(none.is_empty());
}

#[test]
fn cap_stops_descent_but_does_not_truncate() {
    let t = scenario_tree();
    // After the root matches, one result is already at the cap of one.
    let hits = search(&t, &[1.0, 0.0], -1.0, 1);
    assert_eq!(labels(&hits), vec!["a".to_string()]);
    // A cap of two lets the root descend; both children are then visited.
    let hits = search(&t, &[1.0, 0.0], -1.0, 2);
    assert_eq!(hits.len(), 3);
}

#[test]
fn traverse_counts_visits() {
    let t = scenario_tree();
    let s = sims(&t, &[1.0, 0.0]);
    let mut tally: u32 = 0;
    let found = t.traverse(0, &mut tally, &s, Vec::new(), (10, (0.5f64).to_bits()));
    assert_eq!(tally, 3);
    assert_eq!(found, vec![(2, 3), (0, 1)]);
}

#[test]
fn traverse_sorts_passed_in_and_found_matches() {
    let t = scenario_tree();
    let s = sims(&t, &[1.0, 0.0]);
    // A match passed in with the root's own score but an earlier visit, and one with
    // the lowest score: the root's match joins them in order, with no descent at cap 0.
    let mut tally: u32 = 8;
    let found = t.traverse(0, &mut tally, &s, vec![(2, 1), (1, 2)], (0, (-1.0f64).to_bits()));
    assert_eq!(tally, 9);
    assert_eq!(found, vec![(1, 2), (2, 1), (0, 9)]);
}

#[test]
fn every_inserted_vector_finds_itself() {
    let vs: Vec<Vec<f64>> = vec![
        vec![1.0, 0.0, 0.0],
        vec![0.0, 1.0, 0.0],
        vec![0.0, 0.0, 1.0],
        vec![1.0, 1.0, 0.0],
        vec![0.0, 1.0, 1.0],
        vec![1.0, 0.0, 1.0],
    ];
    let mut t = Node::new(0, vec![], String::new());
    for (i, v) in vs.iter().enumerate() {
        insert(&mut t, v, &format!("v{}", i));
    }
    for (i, v) in vs.iter().enumerate() {
        let hits = search(&t, v, -1.0, vs.len());
        let own = hits.iter().find(|h| h.url == format!("v{}", i)).expect("own label");
        assert!((f64::from_bits(own.score) - 1.0).abs() < 1e-9);
    }
}

#[test]
fn same_inserts_give_same_tree() {
    let build = || {
        let mut t = Node::new(0, vec![], String::new());
        insert(&mut t, &[1.0, 0.0], "a");
        insert(&mut t, &[0.0, 1.0], "b");
        insert(&mut t, &[0.9, 0.1], "c");
        insert(&mut t, &[0.2, 0.8], "d");
        t
    };
    let (t1, t2) = (build(), build());
    assert_eq!(t1.len(), t2.len());
    for i in 0..t1.len() {
        let (a, b) = (t1.slot(i), t2.slot(i));
        assert_eq!(a.node_a, b.node_a);
        assert_eq!(a.node_b, b.node_b);
        assert_eq!(a.node_a_dist, b.node_a_dist);
        assert_eq!(a.node_b_dist, b.node_b_dist);
        assert_eq!(a.url, b.url);
        assert_eq!(a.depth, b.depth);
    }
}

#[test]
fn round_trip_keeps_search_results() {
    let mut t = scenario_tree();
    insert(&mut t, &[0.1, 0.9], "d");
    insert(&mut t, &[0.95, 0.05], "e");
    let rec = serialize(&t);
    assert_eq!(rec.url, "a");
    let back = deserialize(&rec).ok().expect("loads");
    assert_eq!(back.len(), t.len());
    for q in [[1.0, 0.0], [0.3, 0.7], [0.0, 1.0]] {
        let h1 = search(&t, &q, 0.0, 3);
        let h2 = search(&back, &q, 0.0, 3);
        assert_eq!(labels(&h1), labels(&h2));
        let s1: Vec<(u64, u32)> = h1.iter().map(|h| (h.score, h.visit)).collect();
        let s2: Vec<(u64, u32)> = h2.iter().map(|h| (h.score, h.visit)).collect();
        assert_eq!(s1, s2);
    }
}

fn leaf(depth: u32, url: &str) -> Record {
    Record {
        depth,
        embeddings: bits(&[1.0]),
        url: url.to_string(),
        node_a: None,
        node_a_dist: 0,
        node_b: None,
        node_b_dist: 0,
    }
}

#[test]
fn load_rejects_child_b_without_a() {
    let mut r = leaf(0, "root");
    r.node_b = Some(Box::new(leaf(1, "b")));
    assert!(deserialize(&r).is_err());
}

#[test]
fn load_rejects_wrong_depth() {
    let mut r = leaf(0, "root");
    r.node_a = Some(Box::new(leaf(2, "a")));
    assert!(deserialize(&r).is_err());
}

#[test]
fn load_lays_out_children() {
    let mut r = leaf(0, "root");
    let mut a = leaf(1, "a");
    a.node_a = Some(Box::new(leaf(2, "aa")));
    r.node_a = Some(Box::new(a));
    r.node_b = Some(Box::new(leaf(1, "b")));
    let t = deserialize(&r).ok().expect("loads");
    assert_eq!(t.len(), 4);
    assert_eq!(t.slot(0).node_a, Some(1));
    assert_eq!(t.slot(1).node_a, Some(2));
    assert_eq!(t.slot(0).node_b, Some(3));
    assert_eq!(t.slot(3).url, "b");
}

#[test]
fn compact_outline() {
    let t = scenario_tree();
    let s = t.to_compact_string();
    assert_eq!(
        s,
        "a\nnode_a:\nb\n  node_a:\n  \n  node_b:\n  \nnode_b:\nc\n  node_a:\n  \n  node_b:\n  "
    );
}

#[test]
fn score_order_matches_floats() {
    let vals = [-1.5f64, -0.0, 0.0, 0.25, 1.0, f64::INFINITY, f64::NEG_INFINITY, f64::NAN];
    for a in vals {
        for b in vals {
            assert_eq!(score_lt(a.to_bits(), b.to_bits()), a < b, "{} < {}", a, b);
            assert_eq!(score_gt(a.to_bits(), b.to_bits()), a > b, "{} > {}", a, b);
            assert_eq!(
                total_key(a.to_bits()).cmp(&total_key(b.to_bits())),
                a.total_cmp(&b),
                "{} vs {}",
                a,
                b
            );
        }
    }
}

#[test]
fn nan_scores_never_match() {
    let mut t = Node::new(0, vec![], String::new());
    insert(&mut t, &[0.0, 0.0], "zero");
    insert(&mut t, &[1.0, 0.0], "x");
    let hits = search(&t, &[1.0, 0.0], -1.0, 5);
    assert_eq!(labels(&hits), vec!["x".to_string()]);
}

#[test]
fn error_messages() {
    assert_eq!(NodeError::new("io".to_string()).msg, "io");
    assert_eq!(NodeError::from("bad").msg, "bad");
}

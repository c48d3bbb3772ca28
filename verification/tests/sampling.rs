//! Walk-sampler and negative-sampler behaviour on small graphs.

use kb_tool::graph::{SampleError, KG};
use kb_tool::triple::Triple;
use rand::rngs::StdRng;
use rand::SeedableRng;

fn cycle3() -> KG {
    let triples = vec![
        Triple::new("A", "r1", "B"),
        Triple::new("B", "r2", "C"),
        Triple::new("C", "r3", "A"),
    ];
    KG::from_triples(triples)
}

#[test]
fn regular_graph() {
    let triples = vec![
        Triple::new("A", "r1", "B"),
        Triple::new("B", "r2", "C"),
        Triple::new("C", "r3", "A"),
    ];
    let kg = KG::from_triples(triples);
    println!("{:#?}", kg);
    let mut rng = StdRng::from_entropy();
    for _ in 0..10 {
        println!("{:?}", kg.sample_path(2, &mut rng, "::-->", "::<--"));
    }
}

#[test]
fn cycle_counts() {
    // A 3-cycle yields exactly 3 nodes and 3 edges, each node with exactly
    // one outgoing and one incoming edge.
    let kg = cycle3();
    assert_eq!(kg.num_nodes(), 3);
    assert_eq!(kg.num_edges(), 3);
    for i in 0..3 {
        assert_eq!(kg.node_fwd_degree(i), 1);
        assert_eq!(kg.node_rev_degree(i), 1);
    }
    assert_eq!(kg.node_label(0), "A");
    assert_eq!(kg.node_label(1), "B");
    assert_eq!(kg.node_label(2), "C");
    assert_eq!(kg.edge_endpoints(0), (0, 1));
    assert_eq!(kg.edge_endpoints(1), (1, 2));
    assert_eq!(kg.edge_endpoints(2), (2, 0));
    assert_eq!(kg.edge_label(1), "r2");
}

#[test]
fn rebuild_assigns_same_ids() {
    // Rebuilding from the same triple sequence assigns identical ids.
    let mk = || {
        KG::from_triples(vec![
            Triple::new("x", "p", "y"),
            Triple::new("z", "q", "x"),
            Triple::new("y", "p", "z"),
        ])
    };
    let g1 = mk();
    let g2 = mk();
    assert_eq!(g1.num_nodes(), g2.num_nodes());
    assert_eq!(g1.num_edges(), g2.num_edges());
    for i in 0..g1.num_nodes() {
        assert_eq!(g1.node_label(i), g2.node_label(i));
        assert_eq!(g1.node_fwd_degree(i), g2.node_fwd_degree(i));
        assert_eq!(g1.node_rev_degree(i), g2.node_rev_degree(i));
    }
    for e in 0..g1.num_edges() {
        assert_eq!(g1.edge_endpoints(e), g2.edge_endpoints(e));
        assert_eq!(g1.edge_label(e), g2.edge_label(e));
    }
}

#[test]
fn path_token_count_and_alternation() {
    // 2L+1 tokens, node labels on even positions, suffixed relation labels on
    // odd positions.
    let kg = cycle3();
    let mut rng = StdRng::seed_from_u64(7);
    for len in 0..6 {
        let path = kg.sample_path(len, &mut rng, "::-->", "::<--").unwrap();
        assert_eq!(path.len(), 2 * len + 1);
        for (i, tok) in path.iter().enumerate() {
            if i % 2 == 0 {
                assert!(tok == "A" || tok == "B" || tok == "C");
            } else {
                assert!(tok.ends_with("::-->") || tok.ends_with("::<--"));
                assert!(tok.starts_with("r1") || tok.starts_with("r2") || tok.starts_with("r3"));
            }
        }
    }
}

#[test]
fn empty_graph_fails_fast() {
    let kg = KG::from_triples(vec![]);
    assert_eq!(kg.num_nodes(), 0);
    let mut rng = StdRng::seed_from_u64(1);
    assert_eq!(
        kg.sample_path(2, &mut rng, "::-->", "::<--"),
        Err(SampleError::EmptyGraph)
    );
}

#[test]
fn no_backtrack_when_alternatives_exist() {
    // A node with more than one incident edge never retraces the previous
    // edge.
    let kg = KG::from_triples(vec![
        Triple::new("A", "r1", "B"),
        Triple::new("A", "r2", "C"),
        Triple::new("D", "r3", "A"),
    ]);
    let a = kg.lookup_node_id(&String::from("A")).unwrap();
    let mut rng = StdRng::seed_from_u64(5);
    for prev in 0..3 {
        for _ in 0..200 {
            let (e, _) = kg.select_edge(a, Some(prev), &mut rng);
            assert_ne!(e, prev);
        }
    }
}

#[test]
fn forced_retrace_on_single_edge() {
    // A node with exactly one incident edge may (must, here) retrace it.
    let kg = KG::from_triples(vec![Triple::new("A", "r", "B")]);
    let b = kg.lookup_node_id(&String::from("B")).unwrap();
    let mut rng = StdRng::seed_from_u64(5);
    let (e, fwd) = kg.select_edge(b, Some(0), &mut rng);
    assert_eq!(e, 0);
    assert!(!fwd);
    // And a two-step walk from this graph always bounces back.
    let path = kg.sample_path(2, &mut rng, ">", "<").unwrap();
    assert_eq!(path.len(), 5);
    assert_eq!(path[0], path[4]);
}

#[test]
fn uniform_negative_never_tail_and_covers_rest() {
    let kg = cycle3();
    let mut rng = StdRng::seed_from_u64(11);
    let path = vec![
        String::from("A"),
        String::from("r1::-->"),
        String::from("B"),
    ];
    let mut saw_a = 0u32;
    let mut saw_c = 0u32;
    for _ in 0..500 {
        let neg = kg.sample_negative_tail_uniformly(&path, &mut rng).unwrap();
        assert_ne!(neg, "B");
        if neg == "A" {
            saw_a += 1;
        } else {
            assert_eq!(neg, "C");
            saw_c += 1;
        }
    }
    // Both remaining ids appear; with 500 fair draws each side exceeds 150.
    assert!(saw_a > 150 && saw_c > 150);
}

#[test]
fn near_miss_prefers_unreachable_candidate() {
    // candidates[r::-->] = {B, D}; reachable from A via r::--> = {B};
    // so the near miss must be D.
    let kg = KG::from_triples(vec![
        Triple::new("A", "r", "B"),
        Triple::new("C", "r", "D"),
    ]);
    let path = vec![
        String::from("A"),
        String::from("r::-->"),
        String::from("B"),
    ];
    let mut rng = StdRng::seed_from_u64(3);
    for _ in 0..50 {
        let neg = kg.sample_negative_tail_near_miss(&path, &mut rng).unwrap();
        assert_eq!(neg, "D");
    }
}

#[test]
fn near_miss_falls_back_to_uniform() {
    // Only B is a candidate for r::-->, and it is both reachable and the
    // tail: the difference is empty, so the fallback must avoid the tail.
    let kg = KG::from_triples(vec![Triple::new("A", "r", "B")]);
    let path = vec![
        String::from("A"),
        String::from("r::-->"),
        String::from("B"),
    ];
    let mut rng = StdRng::seed_from_u64(9);
    for _ in 0..50 {
        let neg = kg.sample_negative_tail_near_miss(&path, &mut rng).unwrap();
        assert_eq!(neg, "A");
    }
}

#[test]
fn exact_negative_picks_other_candidate() {
    let kg = KG::from_triples(vec![
        Triple::new("A", "r", "B"),
        Triple::new("C", "r", "D"),
    ]);
    let path = vec![
        String::from("A"),
        String::from("r::-->"),
        String::from("B"),
    ];
    let mut rng = StdRng::seed_from_u64(13);
    for _ in 0..50 {
        let neg = kg.sample_negative_tail(&path, &mut rng).unwrap();
        assert_eq!(neg, "D");
    }
}

#[test]
fn exact_negative_degrades_to_whole_graph() {
    // The only candidate is the tail itself: the fallback picks any node,
    // possibly the tail.
    let kg = KG::from_triples(vec![Triple::new("A", "r", "B")]);
    let path = vec![
        String::from("A"),
        String::from("r::-->"),
        String::from("B"),
    ];
    let mut rng = StdRng::seed_from_u64(17);
    for _ in 0..50 {
        let neg = kg.sample_negative_tail(&path, &mut rng).unwrap();
        assert!(neg == "A" || neg == "B");
    }
}

#[test]
fn fixed_seed_reproduces_outputs() {
    // Determinism: a fixed seed and a fixed call sequence give identical
    // results across runs.
    let run = || {
        let kg = cycle3();
        let mut rng = StdRng::seed_from_u64(2024);
        let mut out: Vec<String> = Vec::new();
        for _ in 0..20 {
            let path = kg.sample_path(2, &mut rng, "::-->", "::<--").unwrap();
            out.extend(path.iter().cloned());
            out.push(kg.sample_negative_tail_uniformly(&path, &mut rng).unwrap());
            out.push(kg.sample_negative_tail(&path, &mut rng).unwrap());
        }
        out
    };
    assert_eq!(run(), run());
}

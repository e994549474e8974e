//! Tests for the graph-based best-first trust spreader and the ranking
//! jobs.

use peer_trust::trust_graph::{compute_scores, Graph, Node, NodeScore};

#[test]
fn node_score_bundles_and_nets() {
    let r = NodeScore::new(String::from("alice"), 7, 3);
    assert_eq!(r.node, "alice");
    assert_eq!(r.p_score, 7);
    assert_eq!(r.n_score, 3);
    assert_eq!(r.net_score(), 4);
}

#[test]
fn node_stores_latest_weights() {
    let mut node = Node::new();
    node.add_positive_edge(String::from("bob"), 5);
    node.add_negative_edge(String::from("carol"), 2);
    assert_eq!(node.get_positive_weight(String::from("bob")), 5);
    assert_eq!(node.get_negative_weight(String::from("carol")), 2);
    // A later opinion replaces the earlier one.
    node.add_positive_edge(String::from("bob"), 9);
    assert_eq!(node.get_positive_weight(String::from("bob")), 9);
}

#[test]
fn node_neighbours_are_deduplicated() {
    let mut node = Node::new();
    node.add_positive_edge(String::from("bob"), 5);
    node.add_negative_edge(String::from("bob"), 2);
    node.add_negative_edge(String::from("carol"), 1);
    let mut names = node.out_neighbours();
    names.sort();
    assert_eq!(names, vec![String::from("bob"), String::from("carol")]);
}

#[test]
fn graph_files_peers_and_weights() {
    let mut g = Graph::new();
    g.add_positive_edge(String::from("a"), String::from("b"), 10);
    g.add_negative_edge(String::from("b"), String::from("c"), 4);
    assert_eq!(
        g.get_positive_weight(String::from("a"), String::from("b")),
        10
    );
    assert_eq!(
        g.get_negative_weight(String::from("b"), String::from("c")),
        4
    );
    let mut names = g.for_each_node();
    names.sort();
    assert_eq!(
        names,
        vec![String::from("a"), String::from("b"), String::from("c")]
    );
    let nbrs = g.for_each_neighbour(String::from("a"));
    assert_eq!(nbrs, vec![String::from("b")]);
}

#[test]
fn compute_scores_reports_every_peer_but_the_source() {
    let mut g = Graph::new();
    g.add_positive_edge(String::from("a"), String::from("b"), 2);
    g.add_positive_edge(String::from("b"), String::from("c"), 3);
    g.add_negative_edge(String::from("c"), String::from("a"), 1);
    let results = compute_scores(g, String::from("a"));
    let mut names: Vec<String> = results.iter().map(|r| r.node.clone()).collect();
    names.sort();
    assert_eq!(names, vec![String::from("b"), String::from("c")]);
    for r in results.iter() {
        assert!(r.p_score >= 0);
        assert!(r.n_score >= 0);
        assert_eq!(r.net_score(), r.p_score - r.n_score);
        // Influence only flows toward peers at least as trusted as the
        // visited one, so nothing accumulates from a lone source.
        assert_eq!(r.p_score, 0);
        assert_eq!(r.n_score, 0);
    }
}

#[test]
fn compute_scores_of_isolated_peers_is_zero() {
    let mut g = Graph::new();
    g.add_positive_edge(String::from("s"), String::from("x"), 7);
    let results = compute_scores(g, String::from("s"));
    assert_eq!(results.len(), 1);
    assert_eq!(results[0].node, "x");
    // Propagation only flows toward peers at least as trusted as the
    // visited one, so a freshly filed peer gathers nothing.
    assert_eq!(results[0].p_score, 0);
    assert_eq!(results[0].n_score, 0);
}

#[test]
fn page_rank_job_returns_five_scores() {
    let r = peer_trust::page_rank::run_job();
    assert_eq!(r.len(), 5);
    for &x in r.iter() {
        assert!(x >= 0);
    }
    // Two identical runs agree.
    assert_eq!(r, peer_trust::page_rank::run_job());
}

#[test]
fn hubs_and_auth_job_returns_unit_length_scores() {
    let (hubs, auth) = peer_trust::hubs_and_auth::run_job();
    assert_eq!(hubs.len(), 5);
    assert_eq!(auth.len(), 5);
    let sq = |v: &Vec<i64>| -> i128 {
        v.iter().map(|&x| (x as i128) * (x as i128)).sum()
    };
    let unit = (peer_trust::fixed::SCALE as i128) * (peer_trust::fixed::SCALE as i128);
    // Each vector was rescaled to (at most, by rounding) unit length.
    assert!(sq(&hubs) <= unit);
    assert!(sq(&auth) <= unit);
    assert!(sq(&hubs) > 0);
    assert!(sq(&auth) > 0);
}

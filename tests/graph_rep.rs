use graphix::GraphRep;

#[test]
fn test_empty() {
    let g: GraphRep<i32> = GraphRep::from_list(Vec::new());
    assert_eq!(g.num_vertices(), 0);
    assert_eq!(g.num_edges(), 0);
    assert!(g.id.is_empty());
}

#[test]
fn test_small_graph() {
    // edges = [(0–1,1), (1–2,2), (2–0,3)]
    let edges = vec![(0, 1, 1), (1, 2, 2), (2, 0, 3)];
    let g = GraphRep::from_list(edges.clone());

    assert_eq!(g.num_vertices(), 3);
    assert_eq!(g.num_edges(), 3);
    assert_eq!(g.id, edges);

    let degs: Vec<_> = (0..3).map(|u| g.edges_from(u).len()).collect();
    assert_eq!(degs, vec![2, 2, 2]);

    let mut adj0: Vec<_> = g.edges_from(0).iter().cloned().collect();
    adj0.sort_by_key(|&(to, _, eid)| (to, eid));
    assert_eq!(adj0, vec![(1, 1, 0), (2, 3, 2)]);
}

#[test]
fn empty_build_has_one_offset() {
    let g: GraphRep<u64> = GraphRep::from_list(Vec::new());
    assert_eq!(g.v_len(), 1);
    assert_eq!(g.e_len(), 0);
    assert!(g.original_edge(0).is_none());
    assert!(g.all_edges().is_empty());
    assert!(g.current_edges().is_empty());
}

#[test]
fn build_counts_follow_largest_endpoint() {
    let g = GraphRep::from_list(vec![(5, 2, 7i64), (0, 1, 3)]);
    assert_eq!(g.num_vertices(), 6);
    assert_eq!(g.num_edges(), 2);
    assert_eq!(g.v_len(), 7);
    assert_eq!(g.e_len(), 4);
    assert!(g.edges_from(3).is_empty());
    assert!(g.edges_from(4).is_empty());
    assert_eq!(g.edges_from(5), &[(2, 7, 0)]);
}

#[test]
fn build_keeps_input_order_at_each_vertex() {
    let g = GraphRep::from_list(vec![(0, 3, 9), (2, 0, 4), (0, 1, 6)]);
    assert_eq!(g.edges_from(0), &[(3, 9, 0), (2, 4, 1), (1, 6, 2)]);
    assert_eq!(g.edges_from(1), &[(0, 6, 2)]);
    assert_eq!(g.edges_from(2), &[(0, 4, 1)]);
    assert_eq!(g.edges_from(3), &[(0, 9, 0)]);
}

#[test]
fn self_loop_gives_two_half_edges_at_its_vertex() {
    let g = GraphRep::from_list(vec![(1, 1, 5)]);
    assert_eq!(g.num_vertices(), 2);
    assert_eq!(g.num_edges(), 1);
    assert!(g.edges_from(0).is_empty());
    assert_eq!(g.edges_from(1), &[(1, 5, 0), (1, 5, 0)]);
}

#[test]
fn half_edges_are_symmetric() {
    let g = GraphRep::from_list(vec![(0, 1, 2), (1, 3, 4), (3, 0, 1), (2, 1, 8)]);
    for u in 0..g.num_vertices() {
        for &(v, w, id) in g.edges_from(u) {
            assert!(g.edges_from(v).contains(&(u, w, id)));
        }
    }
}

#[test]
fn original_edge_returns_input_triples() {
    let edges = vec![(0, 2, 10), (2, 1, 20), (1, 0, 30)];
    let g = GraphRep::from_list(edges.clone());
    for id in 0..g.num_edges() {
        assert_eq!(g.original_edge(id), Some(&edges[id]));
    }
    assert_eq!(g.original_edge(3), None);
    assert_eq!(g.original_edge(usize::MAX), None);
}

#[test]
fn all_edges_puts_lower_endpoint_first() {
    let g = GraphRep::from_list(vec![(2, 0, 5), (1, 3, 6), (2, 2, 7)]);
    assert_eq!(g.all_edges(), vec![(0, 2, 5, 0), (1, 3, 6, 1), (2, 2, 7, 2)]);
}

#[test]
fn current_edges_lists_each_edge_once() {
    let g = GraphRep::from_list(vec![(2, 0, 5), (1, 3, 6), (0, 1, 7)]);
    assert_eq!(g.current_edges(), vec![(0, 2, 5, 0), (0, 1, 7, 2), (1, 3, 6, 1)]);
}

#[test]
fn update_rebuilds_from_explicit_ids() {
    let mut g = GraphRep::from_list(vec![(0, 1, 1), (1, 2, 2), (2, 3, 3)]);
    g.update_v_e(&[(1, 0, 2, 1), (0, 2, 3, 2)]);
    assert_eq!(g.num_vertices(), 3);
    assert_eq!(g.num_edges(), 2);
    assert_eq!(g.edges_from(0), &[(1, 2, 1), (2, 3, 2)]);
    assert_eq!(g.edges_from(1), &[(0, 2, 1)]);
    assert_eq!(g.edges_from(2), &[(0, 3, 2)]);
    assert_eq!(g.id, vec![(0, 1, 1), (1, 2, 2), (2, 3, 3)]);
}

#[test]
fn update_with_no_edges_resets_layout() {
    let mut g = GraphRep::from_list(vec![(0, 1, 1), (1, 2, 2)]);
    g.update_v_e(&[]);
    assert_eq!(g.num_vertices(), 0);
    assert_eq!(g.num_edges(), 0);
    assert_eq!(g.v_len(), 1);
    assert_eq!(g.e_len(), 0);
    assert_eq!(g.id.len(), 2);
}

#[test]
fn chain_contraction_keeps_middle_edge() {
    let mut g = GraphRep::from_list(vec![(0, 1, 10), (1, 2, 20), (2, 3, 30)]);
    g.contract_vertices(&[0, 0, 1, 1]);
    assert_eq!(g.num_vertices(), 2);
    assert_eq!(g.num_edges(), 1);
    assert_eq!(g.v_len(), 3);
    assert_eq!(g.edges_from(0), &[(1, 20, 1)]);
    assert_eq!(g.edges_from(1), &[(0, 20, 1)]);
    assert_eq!(g.original_edge(1), Some(&(1, 2, 20)));
    assert_eq!(g.current_edges(), vec![(0, 1, 20, 1)]);
}

#[test]
fn identity_contraction_changes_nothing() {
    let mut g = GraphRep::from_list(vec![(0, 1, 1), (1, 2, 2), (2, 0, 3), (3, 1, 4)]);
    let before: Vec<Vec<(usize, i32, usize)>> = (0..4).map(|u| g.edges_from(u).to_vec()).collect();
    g.contract_vertices(&[0, 1, 2, 3]);
    assert_eq!(g.num_vertices(), 4);
    assert_eq!(g.num_edges(), 4);
    assert_eq!(g.v_len(), 5);
    for u in 0..4 {
        assert_eq!(g.edges_from(u), before[u].as_slice());
    }
}

#[test]
fn merging_a_subset_drops_only_its_inner_edges() {
    // merge {0, 1} into super-vertex 0; 2 and 3 become 1 and 2
    let mut g = GraphRep::from_list(vec![(0, 1, 1), (1, 2, 2), (2, 3, 3), (3, 0, 4)]);
    g.contract_vertices(&[0, 0, 1, 2]);
    assert_eq!(g.num_vertices(), 3);
    assert_eq!(g.num_edges(), 3);
    assert_eq!(g.edges_from(0), &[(2, 4, 3), (1, 2, 1)]);
    assert_eq!(g.edges_from(1), &[(0, 2, 1), (2, 3, 2)]);
    assert_eq!(g.edges_from(2), &[(1, 3, 2), (0, 4, 3)]);
}

#[test]
fn full_contraction_leaves_one_bare_vertex() {
    let mut g = GraphRep::from_list(vec![(0, 1, 1), (1, 2, 2), (2, 0, 3)]);
    g.contract_vertices(&[4, 4, 4]);
    assert_eq!(g.num_vertices(), 5);
    assert_eq!(g.num_edges(), 0);
    g.contract_vertices(&[0, 0, 0, 0, 0]);
    assert_eq!(g.num_vertices(), 1);
    assert_eq!(g.num_edges(), 0);
    assert!(g.edges_from(0).is_empty());
    assert_eq!(g.v_len(), 2);
}

#[test]
fn contraction_keeps_parallel_edges() {
    let mut g = GraphRep::from_list(vec![(0, 2, 5), (1, 2, 3), (0, 1, 9)]);
    g.contract_vertices(&[0, 0, 1]);
    assert_eq!(g.num_edges(), 2);
    assert_eq!(g.edges_from(0), &[(1, 5, 0), (1, 3, 1)]);
    assert_eq!(g.edges_from(1), &[(0, 5, 0), (0, 3, 1)]);
}

#[test]
fn repeated_contraction_keeps_provenance() {
    let edges = vec![(0, 1, 4), (1, 2, 1), (2, 3, 7), (3, 4, 2), (4, 0, 6)];
    let mut g = GraphRep::from_list(edges.clone());
    g.contract_vertices(&[0, 0, 1, 1, 2]);
    g.contract_vertices(&[0, 0, 1]);
    assert_eq!(g.num_vertices(), 2);
    assert_eq!(g.num_edges(), 2);
    assert_eq!(g.current_edges(), vec![(0, 1, 6, 4), (0, 1, 2, 3)]);
    for (_, _, w, id) in g.current_edges() {
        assert_eq!(g.original_edge(id).map(|t| t.2), Some(w));
    }
}

#[test]
fn current_edges_lists_a_self_loop_once() {
    let g = GraphRep::from_list(vec![(0, 0, 5)]);
    assert_eq!(g.current_edges(), vec![(0, 0, 5, 0)]);
    assert_eq!(g.current_edges().len(), g.num_edges());
}

#[test]
fn current_edges_with_loops_and_plain_edges() {
    let g = GraphRep::from_list(vec![(1, 1, 5), (0, 1, 2), (1, 1, 7)]);
    assert_eq!(g.current_edges(), vec![(0, 1, 2, 1), (1, 1, 5, 0), (1, 1, 7, 2)]);
    assert_eq!(g.current_edges().len(), g.num_edges());
}

#[test]
fn rebuilt_loop_is_listed_once() {
    let mut g = GraphRep::from_list(vec![(0, 1, 1)]);
    g.update_v_e(&[(2, 2, 9, 0), (0, 2, 4, 0)]);
    assert_eq!(g.current_edges(), vec![(0, 2, 4, 0), (2, 2, 9, 0)]);
}

#[test]
fn contraction_leaves_no_loops_and_pairs_half_edges() {
    let mut g = GraphRep::from_list(vec![(0, 0, 1), (0, 1, 2), (1, 2, 3), (2, 0, 4)]);
    g.contract_vertices(&[0, 1, 1]);
    for u in 0..g.num_vertices() {
        for &(v, w, id) in g.edges_from(u) {
            assert_ne!(v, u);
            let here = g.edges_from(u).iter().filter(|&&h| h == (v, w, id)).count();
            let there = g.edges_from(v).iter().filter(|&&h| h == (u, w, id)).count();
            assert_eq!(here, there);
        }
    }
    assert_eq!(g.current_edges().len(), g.num_edges());
}

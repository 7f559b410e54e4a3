use rand::SeedableRng;
use rand_chacha::ChaCha8Rng;
use simblock::routing::{connect_node, init_outbound_links, neighbor_ids, try_add_edge};
use simblock::NodeId;

#[test]
fn neighbor_ids_merges_and_dedups() {
    let out = vec![3u32, 1];
    let inn = vec![2, 3];
    assert_eq!(neighbor_ids(&out, &inn), vec![1, 2, 3]);
}

#[test]
fn init_outbound_respects_caps_and_avoids_duplicates() {
    let n = 5usize;
    let max_out = vec![2, 2, 2, 2, 2];
    let mut out: Vec<Vec<NodeId>> = vec![Vec::new(); n];
    let mut inn: Vec<Vec<NodeId>> = vec![Vec::new(); n];
    let mut rng = ChaCha8Rng::seed_from_u64(123);
    init_outbound_links(&mut rng, &max_out, &mut out, &mut inn);
    for i in 0..n {
        assert!(out[i].len() <= 2);
        for &p in &out[i] {
            assert_ne!(p, (i + 1) as NodeId);
        }
        let uniq: std::collections::HashSet<_> = out[i].iter().copied().collect();
        assert_eq!(uniq.len(), out[i].len());
    }
    for j in 0..n {
        for &from in &inn[j] {
            let peer = (j + 1) as NodeId;
            assert!(out[from as usize - 1].contains(&peer));
        }
    }
}

#[test]
fn neighbor_ids_of_empty_lists_is_empty() {
    assert_eq!(neighbor_ids(&[], &[]), Vec::<NodeId>::new());
}

#[test]
fn neighbor_ids_is_sorted_union_without_repeats() {
    let out = vec![9u32, 4, 4, 7];
    let inn = vec![7, 1, 9];
    assert_eq!(neighbor_ids(&out, &inn), vec![1, 4, 7, 9]);
}

#[test]
fn try_add_edge_adds_new_link_both_ways() {
    let max_out = vec![1, 1, 1];
    let mut out: Vec<Vec<NodeId>> = vec![Vec::new(); 3];
    let mut inn: Vec<Vec<NodeId>> = vec![Vec::new(); 3];
    assert!(try_add_edge(0, 3, 1, &max_out, &mut out, &mut inn));
    assert_eq!(out[0], vec![3]);
    assert_eq!(inn[2], vec![1]);
}

#[test]
fn try_add_edge_refuses_self_duplicate_reverse_and_full_cap() {
    let max_out = vec![1, 2, 2];
    let mut out: Vec<Vec<NodeId>> = vec![Vec::new(); 3];
    let mut inn: Vec<Vec<NodeId>> = vec![Vec::new(); 3];
    // self link
    assert!(!try_add_edge(0, 1, 1, &max_out, &mut out, &mut inn));
    assert!(try_add_edge(0, 2, 1, &max_out, &mut out, &mut inn));
    // cap of node 1 reached
    assert!(!try_add_edge(0, 3, 1, &max_out, &mut out, &mut inn));
    // reverse of an existing link
    assert!(!try_add_edge(1, 1, 2, &max_out, &mut out, &mut inn));
    assert!(try_add_edge(1, 3, 2, &max_out, &mut out, &mut inn));
    // duplicate
    assert!(!try_add_edge(1, 3, 2, &max_out, &mut out, &mut inn));
    assert_eq!(out, vec![vec![2], vec![3], vec![]]);
    assert_eq!(inn, vec![vec![], vec![1], vec![2]]);
}

#[test]
fn init_outbound_links_saturates_small_network() {
    // With caps of 4 among 5 nodes every node ends up linked (one way or the other) to
    // every other node or at its cap.
    let n = 5usize;
    let max_out = vec![4; n];
    let mut out: Vec<Vec<NodeId>> = vec![Vec::new(); n];
    let mut inn: Vec<Vec<NodeId>> = vec![Vec::new(); n];
    let mut rng = ChaCha8Rng::seed_from_u64(7);
    init_outbound_links(&mut rng, &max_out, &mut out, &mut inn);
    for i in 0..n {
        let linked = (0..n)
            .filter(|&j| j != i)
            .all(|j| out[i].contains(&((j + 1) as NodeId)) || inn[i].contains(&((j + 1) as NodeId)));
        assert!(out[i].len() >= max_out[i] || linked);
    }
}

#[test]
fn connect_node_tries_candidates_in_the_given_order() {
    // Node index 1 (id 2) with a cap of 2 tries 3, 0, 2: node 3 (id 4) already links to it,
    // so that candidate is skipped; then 0 and 2 are linked and the cap is reached.
    let max_out = vec![2, 2, 2, 2];
    let mut out: Vec<Vec<NodeId>> = vec![vec![], vec![], vec![], vec![2]];
    let mut inn: Vec<Vec<NodeId>> = vec![vec![], vec![4], vec![], vec![]];
    connect_node(1, &vec![3, 0, 2], &max_out, &mut out, &mut inn);
    assert_eq!(out, vec![vec![], vec![1, 3], vec![], vec![2]]);
    assert_eq!(inn, vec![vec![2], vec![4], vec![2], vec![]]);

    // A different order gives a different graph: with 2 first, then 0.
    let mut out2: Vec<Vec<NodeId>> = vec![vec![], vec![], vec![], vec![2]];
    let mut inn2: Vec<Vec<NodeId>> = vec![vec![], vec![4], vec![], vec![]];
    connect_node(1, &vec![2, 1, 0, 3], &max_out, &mut out2, &mut inn2);
    assert_eq!(out2, vec![vec![], vec![3, 1], vec![], vec![2]]);
    assert_eq!(inn2, vec![vec![2], vec![4], vec![2], vec![]]);
}

#[test]
fn connect_node_stops_at_the_cap() {
    let max_out = vec![1, 1, 1];
    let mut out: Vec<Vec<NodeId>> = vec![Vec::new(); 3];
    let mut inn: Vec<Vec<NodeId>> = vec![Vec::new(); 3];
    connect_node(0, &vec![2, 1], &max_out, &mut out, &mut inn);
    assert_eq!(out, vec![vec![3], vec![], vec![]]);
    assert_eq!(inn, vec![vec![], vec![], vec![1]]);
}

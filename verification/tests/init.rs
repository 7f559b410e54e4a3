use rand::SeedableRng;
use rand_chacha::ChaCha8Rng;
use simblock::simulation::init::{
    pick_by_power, pick_genesis_minter, total_mining_power, bool_rate_list, degree_bucket_assign_list, expand_outdegree_list_from_cdf, region_assign_list,
    sample_node_inits, sample_outdegrees_from_cdf, DegreePlan,
};

const DEGREE_CDF_DOGECOIN: &[f64] = &[
    0.00, 0.00, 0.00, 0.00, 0.00, 0.00, 0.00, 1.0, 1.00, 1.00, 1.00, 1.00, 1.00, 1.00, 1.00, 1.00,
    1.00, 1.00, 1.00, 1.0,
];

/// Thresholds `floor(n * cdf[k])` of a cumulative outdegree distribution.
fn cdf_bounds(n: usize, cdf: Option<&[f64]>) -> Vec<Option<usize>> {
    cdf.expect("doge preset uses cdf")
        .iter()
        .map(|c| {
            let t = n as f64 * c;
            if t >= 0.0 {
                Some(t.floor() as usize)
            } else {
                None
            }
        })
        .collect()
}

fn dogecoin_counts() -> (usize, usize, usize) {
    let bounds = cdf_bounds(300, Some(DEGREE_CDF_DOGECOIN));
    let v = expand_outdegree_list_from_cdf(300, &bounds);
    (v.len(), v.iter().filter(|&&c| c == 1).count(), v.iter().filter(|&&c| c == 8).count())
}

#[test]
fn init_dogecoin_cdf_oversized_list_len_and_counts() {
    let (len, ones, eights) = dogecoin_counts();
    assert_eq!(len, 301);
    assert_eq!(ones, 1);
    assert_eq!(eights, 300);
}

#[test]
fn simulation_dogecoin_cdf_oversized_list_len_and_counts() {
    let (len, ones, eights) = dogecoin_counts();
    assert_eq!(len, 301);
    assert_eq!(ones, 1);
    assert_eq!(eights, 300);
}

#[test]
fn expand_cdf_of_empty_distribution_is_all_ones() {
    assert_eq!(expand_outdegree_list_from_cdf(3, &[]), vec![1, 1, 1]);
}

#[test]
fn expand_cdf_fills_to_n_with_last_cap() {
    // thresholds 0 and 1 over n = 4: one cap 1, one cap 2, then caps 3 up to n.
    assert_eq!(expand_outdegree_list_from_cdf(4, &[Some(0), Some(1)]), vec![1, 2, 3, 3]);
    // a negative threshold adds nothing for its index.
    assert_eq!(expand_outdegree_list_from_cdf(2, &[None, Some(2)]), vec![2, 2, 2]);
}

fn sorted<T: Ord + Clone>(v: &[T]) -> Vec<T> {
    let mut w = v.to_vec();
    w.sort();
    w
}

#[test]
fn region_assign_list_counts_follow_targets() {
    let mut rng = ChaCha8Rng::seed_from_u64(1);
    let v = region_assign_list(&mut rng, 10, &[3, 3, 8]);
    assert_eq!(sorted(&v), vec![0, 0, 0, 2, 2, 2, 2, 2, 2, 2]);
}

#[test]
fn degree_bucket_assign_list_counts_follow_buckets() {
    let mut rng = ChaCha8Rng::seed_from_u64(2);
    let v = degree_bucket_assign_list(&mut rng, 6, &[(1, 2), (4, 3)]);
    assert_eq!(sorted(&v), vec![1, 1, 4, 4, 4, 4]);
    let w = degree_bucket_assign_list(&mut rng, 2, &[]);
    assert_eq!(w, vec![1, 1]);
}

#[test]
fn bool_rate_list_sets_exactly_count_flags() {
    let mut rng = ChaCha8Rng::seed_from_u64(3);
    let v = bool_rate_list(&mut rng, 9, 4);
    assert_eq!(v.len(), 9);
    assert_eq!(v.iter().filter(|&&b| b).count(), 4);
    let w = bool_rate_list(&mut rng, 3, 7);
    assert_eq!(w, vec![true, true, true]);
}

#[test]
fn sample_outdegrees_keeps_n_caps_from_the_list() {
    let mut rng = ChaCha8Rng::seed_from_u64(4);
    let bounds = cdf_bounds(300, Some(DEGREE_CDF_DOGECOIN));
    let v = sample_outdegrees_from_cdf(&mut rng, 300, &bounds);
    assert_eq!(v.len(), 300);
    assert!(v.iter().all(|&c| c == 1 || c == 8));
}

#[test]
fn sample_node_inits_draws_each_field() {
    let mut rng = ChaCha8Rng::seed_from_u64(5);
    let v = sample_node_inits(&mut rng, 8, &[4, 8], &DegreePlan::Buckets(vec![(3, 8)]), 2, 5);
    assert_eq!(v.len(), 8);
    assert_eq!(v.iter().filter(|i| i.region == 0).count(), 4);
    assert!(v.iter().all(|i| i.max_outbound == 3));
    assert_eq!(v.iter().filter(|i| i.use_cbr).count(), 2);
    assert_eq!(v.iter().filter(|i| i.is_churn).count(), 5);
}

fn node_with_power(id: u32, power: u64) -> simblock::simulation::node::NodeState {
    simblock::simulation::node::NodeState {
        id,
        region: 0,
        mining_power: power,
        use_cbr: false,
        is_churn: false,
        max_outbound: 1,
        outbound: Vec::new(),
        inbound: Vec::new(),
        tip: None,
        pending_mining: None,
        orphans: Vec::new(),
        block_send_queue: std::collections::VecDeque::new(),
        sending_block: false,
        downloading: Vec::new(),
    }
}

#[test]
fn weighted_pick_by_cumulative_power() {
    let nodes = vec![node_with_power(1, 2), node_with_power(2, 0), node_with_power(3, 3)];
    assert_eq!(total_mining_power(&nodes), 5);
    assert_eq!(pick_by_power(&nodes, 0), 1);
    assert_eq!(pick_by_power(&nodes, 1), 1);
    assert_eq!(pick_by_power(&nodes, 2), 3);
    assert_eq!(pick_by_power(&nodes, 4), 3);
    assert_eq!(pick_by_power(&nodes, 99), 3);
}

#[test]
fn genesis_minter_is_drawn_among_nodes_with_power() {
    let mut rng = ChaCha8Rng::seed_from_u64(11);
    let nodes = vec![node_with_power(1, 0), node_with_power(2, 5), node_with_power(3, 0)];
    for _ in 0..20 {
        assert_eq!(pick_genesis_minter(&mut rng, &nodes), 2);
    }
    let idle = vec![node_with_power(1, 0), node_with_power(2, 0)];
    assert_eq!(pick_genesis_minter(&mut rng, &idle), 1);
}

#[test]
fn assignment_lists_are_shuffled() {
    let mut rng = ChaCha8Rng::seed_from_u64(9);
    let buckets: Vec<(usize, usize)> = (1..=8).map(|c| (c, c)).collect();
    let v = degree_bucket_assign_list(&mut rng, 8, &buckets);
    assert_eq!(sorted(&v), (1..=8).collect::<Vec<usize>>());
    assert_ne!(v, (1..=8).collect::<Vec<usize>>());
}

//! Per-run construction draws: region and outbound-degree assignment lists, boolean rate lists
//! and the genesis minter. The real-valued shares are converted to the integer counts taken here
//! before they reach the library.
use super::node::{NodeInit, NodeState};
use crate::rng::{gen_below_u128, shuffle};
use crate::types::NodeId;
use rand_chacha::ChaCha8Rng;
use vstd::prelude::*;

verus! {

/// `list` followed by copies of `val` until its length reaches `target` (unchanged if it is
/// already that long).
pub open spec fn fill_to(list: Seq<usize>, val: usize, target: int) -> Seq<usize> {
    if list.len() < target {
        list + Seq::new((target - list.len()) as nat, |_i: int| val)
    } else {
        list
    }
}

/// Fill with `k`, then `k + 1`, ... up to cumulative length `targets[k]`, for the first `k` targets.
pub open spec fn indexed_fill(targets: Seq<usize>, k: nat) -> Seq<usize>
    decreases k,
{
    if k == 0 {
        Seq::empty()
    } else {
        fill_to(indexed_fill(targets, (k - 1) as nat), (k - 1) as usize, targets[k - 1] as int)
    }
}

/// Region list before shuffling: region `k` until the cumulative target `targets[k]`, then the
/// last region (or region 0 when there is none) until `num` entries.
pub open spec fn region_list(targets: Seq<usize>, num: usize) -> Seq<usize> {
    fill_to(
        indexed_fill(targets, targets.len()),
        if targets.len() > 0 { (targets.len() - 1) as usize } else { 0 },
        num as int,
    )
}

/// Fill with the cap of bucket `k` up to its cumulative target, for the first `k` buckets.
pub open spec fn bucket_fill(buckets: Seq<(usize, usize)>, k: nat) -> Seq<usize>
    decreases k,
{
    if k == 0 {
        Seq::empty()
    } else {
        fill_to(bucket_fill(buckets, (k - 1) as nat), buckets[k - 1].0, buckets[k - 1].1 as int)
    }
}

/// Degree-cap list before shuffling: bucket caps up to their cumulative targets, then the last
/// bucket's cap (or 1 without buckets) until `num` entries.
pub open spec fn bucket_list(buckets: Seq<(usize, usize)>, num: usize) -> Seq<usize> {
    fill_to(
        bucket_fill(buckets, buckets.len()),
        if buckets.len() > 0 { buckets[buckets.len() - 1].0 } else { 1 },
        num as int,
    )
}

/// For the first `k` indices: while the list length is at most `bounds[i]`, append `i + 1`.
pub open spec fn cdf_fill(bounds: Seq<Option<usize>>, k: nat) -> Seq<usize>
    decreases k,
{
    if k == 0 {
        Seq::empty()
    } else {
        let prev = cdf_fill(bounds, (k - 1) as nat);
        match bounds[k - 1] {
            Some(b) => fill_to(prev, k as usize, b + 1),
            None => prev,
        }
    }
}

/// Outdegree-cap list of a cumulative distribution: `n` ones without thresholds; otherwise the
/// threshold fill padded to `n` entries with `bounds.len() + 1`.
pub open spec fn cdf_list(bounds: Seq<Option<usize>>, n: usize) -> Seq<usize> {
    if bounds.len() == 0 {
        Seq::new(n as nat, |_i: int| 1usize)
    } else {
        fill_to(cdf_fill(bounds, bounds.len()), (bounds.len() + 1) as usize, n as int)
    }
}

/// `true` for the first `count` of `num` positions.
pub open spec fn rate_list(num: usize, count: usize) -> Seq<bool> {
    Seq::new(num as nat, |i: int| i < count)
}

/// Appends `val` to `list` until its length is `target`.
fn push_until(list: &mut Vec<usize>, val: usize, target: usize)
    ensures
        final(list)@ == fill_to(old(list)@, val, target as int),
{
    let ghost l0 = list@;
    while list.len() < target
        invariant
            list@ == fill_to(l0, val, list@.len() as int),
            l0.len() <= list@.len(),
            l0.len() < target ==> list@.len() <= target,
            l0.len() >= target ==> list@ == l0,
        decreases target - list@.len(),
    {
        let ghost before = list@;
        list.push(val);
        proof {
            assert(list@ =~= fill_to(l0, val, list@.len() as int));
        }
    }
    proof {
        if l0.len() < target {
            assert(list@.len() == target);
        } else {
            assert(list@ =~= l0);
        }
    }
}

/// Region of each of `num` nodes: `targets[k]` is the cumulative count reached after region `k`
/// (the floor of `num` times the running sum of region shares); the list is then shuffled.
pub fn region_assign_list(rng: &mut ChaCha8Rng, num: usize, targets: &[usize]) -> (list: Vec<usize>)
    ensures
        list@.to_multiset() == region_list(targets@, num).to_multiset(),
{
    let mut list: Vec<usize> = Vec::new();
    let mut idx: usize = 0;
    while idx < targets.len()
        invariant
            idx <= targets@.len(),
            list@ == indexed_fill(targets@, idx as nat),
        decreases targets@.len() - idx,
    {
        push_until(&mut list, idx, targets[idx]);
        idx += 1;
    }
    let last = if targets.len() > 0 { targets.len() - 1 } else { 0 };
    push_until(&mut list, last, num);
    shuffle(rng, &mut list);
    list
}

/// Outbound cap of each of `num` nodes from cumulative buckets `(cap, cumulative target)`;
/// the list is then shuffled.
pub fn degree_bucket_assign_list(
    rng: &mut ChaCha8Rng,
    num: usize,
    buckets: &[(usize, usize)],
) -> (list: Vec<usize>)
    ensures
        list@.to_multiset() == bucket_list(buckets@, num).to_multiset(),
{
    let mut list: Vec<usize> = Vec::new();
    let mut k: usize = 0;
    while k < buckets.len()
        invariant
            k <= buckets@.len(),
            list@ == bucket_fill(buckets@, k as nat),
        decreases buckets@.len() - k,
    {
        let (cap, target) = buckets[k];
        push_until(&mut list, cap, target);
        k += 1;
    }
    let fallback = if buckets.len() > 0 { buckets[buckets.len() - 1].0 } else { 1 };
    push_until(&mut list, fallback, num);
    shuffle(rng, &mut list);
    list
}

/// Build a multiset of outdegree caps from a cumulative distribution (length may exceed `n`).
/// `bounds[i]` is the floor of `n` times the `i`-th cumulative share (`None` when that product is
/// negative): cap `i + 1` is appended while the list length is at most that bound.
pub fn expand_outdegree_list_from_cdf(n: usize, bounds: &[Option<usize>]) -> (list: Vec<usize>)
    requires
        bounds@.len() < usize::MAX,
        forall|i: int| 0 <= i < bounds@.len() ==> match #[trigger] bounds@[i] {
            Some(b) => b < usize::MAX,
            None => true,
        },
    ensures
        list@ == cdf_list(bounds@, n),
{
    let mut list: Vec<usize> = Vec::new();
    if bounds.len() == 0 {
        let mut k: usize = 0;
        while k < n
            invariant
                k <= n,
                list@ == Seq::new(k as nat, |_i: int| 1usize),
            decreases n - k,
        {
            list.push(1);
            k += 1;
            assert(list@ =~= Seq::new(k as nat, |_i: int| 1usize));
        }
        return list;
    }
    let mut index: usize = 0;
    while index < bounds.len()
        invariant
            index <= bounds@.len(),
            bounds@.len() < usize::MAX,
            list@ == cdf_fill(bounds@, index as nat),
            forall|i: int| 0 <= i < bounds@.len() ==> match #[trigger] bounds@[i] {
                Some(b) => b < usize::MAX,
                None => true,
            },
        decreases bounds@.len() - index,
    {
        match bounds[index] {
            Some(b) => {
                push_until(&mut list, index + 1, b + 1);
            },
            None => {},
        }
        index += 1;
    }
    push_until(&mut list, bounds.len() + 1, n);
    list
}

/// Shuffle then keep the first `n` entries (extra draws are dropped).
pub fn sample_outdegrees_from_cdf(rng: &mut ChaCha8Rng, n: usize, bounds: &[Option<usize>]) -> (list:
    Vec<usize>)
    requires
        bounds@.len() < usize::MAX,
        forall|i: int| 0 <= i < bounds@.len() ==> match #[trigger] bounds@[i] {
            Some(b) => b < usize::MAX,
            None => true,
        },
    ensures
        list@.len() == n,
        list@.to_multiset().subset_of(cdf_list(bounds@, n).to_multiset()),
        forall|k: int| 0 <= k < n ==> cdf_list(bounds@, n).contains(#[trigger] list@[k]),
{
    broadcast use vstd::seq_lib::group_to_multiset_ensures;

    let mut list = expand_outdegree_list_from_cdf(n, bounds);
    proof {
        if bounds@.len() != 0 {
            assert(cdf_list(bounds@, n) == fill_to(cdf_fill(bounds@, bounds@.len()), (bounds@.len() + 1) as usize, n as int));
        }
    }
    let ghost full = list@;
    assert(full.len() >= n);
    shuffle(rng, &mut list);
    let ghost shuffled = list@;
    list.truncate(n);
    proof {
        assert forall|k: int| 0 <= k < n implies cdf_list(bounds@, n).contains(#[trigger] list@[k]) by {
            assert(shuffled[k] == list@[k]);
            assert(shuffled.contains(list@[k]));
            vstd::seq_lib::to_multiset_contains(shuffled, list@[k]);
            vstd::seq_lib::to_multiset_contains(full, list@[k]);
        }
        let rest = shuffled.subrange(n as int, shuffled.len() as int);
        assert(shuffled =~= list@ + rest);
        vstd::seq_lib::lemma_multiset_commutative(list@, rest);
        assert forall|v: usize| list@.to_multiset().count(v) <= cdf_list(bounds@, n).to_multiset().count(v) by {
            assert(shuffled.to_multiset().count(v) == list@.to_multiset().count(v) + rest.to_multiset().count(v));
        }
    }
    list
}

/// `num` flags of which the first `count` are set, shuffled.
pub fn bool_rate_list(rng: &mut ChaCha8Rng, num: usize, count: usize) -> (v: Vec<bool>)
    ensures
        v@.to_multiset() == rate_list(num, count).to_multiset(),
{
    let mut v: Vec<bool> = Vec::new();
    let mut i: usize = 0;
    while i < num
        invariant
            i <= num,
            v@ == Seq::new(i as nat, |j: int| j < count),
        decreases num - i,
    {
        v.push(i < count);
        i += 1;
        assert(v@ =~= Seq::new(i as nat, |j: int| j < count));
    }
    shuffle(rng, &mut v);
    v
}


proof fn lemma_indexed_fill(targets: Seq<usize>, k: nat, num: usize)
    requires
        k <= targets.len(),
        forall|i: int| 0 <= i < targets.len() ==> #[trigger] targets[i] <= num,
    ensures
        indexed_fill(targets, k).len() <= num,
        forall|j: int| 0 <= j < indexed_fill(targets, k).len() ==> #[trigger] indexed_fill(targets, k)[j] < k,
    decreases k,
{
    if k > 0 {
        lemma_indexed_fill(targets, (k - 1) as nat, num);
        let prev = indexed_fill(targets, (k - 1) as nat);
        let cur = indexed_fill(targets, k);
        assert(targets[k - 1] <= num);
        assert forall|j: int| 0 <= j < cur.len() implies #[trigger] cur[j] < k by {
            if j < prev.len() {
                assert(cur[j] == prev[j]);
            }
        }
    }
}

/// With every cumulative target at most `num`, the region list has exactly `num` entries,
/// each a valid region index (or 0 when there are no regions).
pub proof fn lemma_region_list(targets: Seq<usize>, num: usize)
    requires
        forall|i: int| 0 <= i < targets.len() ==> #[trigger] targets[i] <= num,
    ensures
        region_list(targets, num).len() == num,
        forall|j: int|
            0 <= j < num ==> (#[trigger] region_list(targets, num)[j] < targets.len() || (targets.len()
                == 0 && region_list(targets, num)[j] == 0)),
{
    lemma_indexed_fill(targets, targets.len(), num);
    let f = indexed_fill(targets, targets.len());
    let r = region_list(targets, num);
    assert forall|j: int| 0 <= j < num implies (#[trigger] r[j] < targets.len() || (targets.len() == 0
        && r[j] == 0)) by {
        if j < f.len() {
            assert(r[j] == f[j]);
        }
    }
}

proof fn lemma_bucket_fill(buckets: Seq<(usize, usize)>, k: nat, num: usize)
    requires
        k <= buckets.len(),
        forall|i: int| 0 <= i < buckets.len() ==> (#[trigger] buckets[i]).1 <= num,
    ensures
        bucket_fill(buckets, k).len() <= num,
    decreases k,
{
    if k > 0 {
        lemma_bucket_fill(buckets, (k - 1) as nat, num);
        assert(buckets[k - 1].1 <= num);
    }
}

/// With every cumulative target at most `num`, the cap list has exactly `num` entries.
pub proof fn lemma_bucket_list(buckets: Seq<(usize, usize)>, num: usize)
    requires
        forall|i: int| 0 <= i < buckets.len() ==> (#[trigger] buckets[i]).1 <= num,
    ensures
        bucket_list(buckets, num).len() == num,
{
    lemma_bucket_fill(buckets, buckets.len(), num);
}

/// How the outbound-degree caps of a run are drawn.
pub enum DegreePlan {
    /// Cumulative buckets `(cap, cumulative target count)`.
    Buckets(Vec<(usize, usize)>),
    /// Cumulative distribution thresholds (see [`expand_outdegree_list_from_cdf`]).
    Cdf(Vec<Option<usize>>),
}

impl DegreePlan {
    /// Targets at most `n` (buckets), or thresholds below `usize::MAX` (distribution).
    pub open spec fn fits(&self, n: usize) -> bool {
        match self {
            DegreePlan::Buckets(b) => forall|i: int| 0 <= i < b@.len() ==> (#[trigger] b@[i]).1 <= n,
            DegreePlan::Cdf(c) => {
                &&& c@.len() < usize::MAX
                &&& forall|i: int| 0 <= i < c@.len() ==> match #[trigger] c@[i] {
                    Some(b) => b < usize::MAX,
                    None => true,
                }
            },
        }
    }
}

/// The regions of a list of node draws.
pub open spec fn init_regions(v: Seq<NodeInit>) -> Seq<usize> {
    Seq::new(v.len(), |i: int| v[i].region)
}

/// The outbound caps of a list of node draws.
pub open spec fn init_caps(v: Seq<NodeInit>) -> Seq<usize> {
    Seq::new(v.len(), |i: int| v[i].max_outbound)
}

/// The compact-relay flags of a list of node draws.
pub open spec fn init_cbr(v: Seq<NodeInit>) -> Seq<bool> {
    Seq::new(v.len(), |i: int| v[i].use_cbr)
}

/// The churn flags of a list of node draws.
pub open spec fn init_churn(v: Seq<NodeInit>) -> Seq<bool> {
    Seq::new(v.len(), |i: int| v[i].is_churn)
}

/// Draws region, outbound cap and the two flags of each of `n` nodes, in that order.
pub fn sample_node_inits(
    rng: &mut ChaCha8Rng,
    n: usize,
    region_targets: &[usize],
    degrees: &DegreePlan,
    cbr_count: usize,
    churn_count: usize,
) -> (v: Vec<NodeInit>)
    requires
        forall|i: int| 0 <= i < region_targets@.len() ==> #[trigger] region_targets@[i] <= n,
        degrees.fits(n),
    ensures
        v@.len() == n,
        init_regions(v@).to_multiset() == region_list(region_targets@, n).to_multiset(),
        forall|i: int|
            0 <= i < n ==> (#[trigger] v@[i].region < region_targets@.len() || (region_targets@.len()
                == 0 && v@[i].region == 0)),
        match degrees {
            DegreePlan::Buckets(b) => init_caps(v@).to_multiset() == bucket_list(b@, n).to_multiset(),
            DegreePlan::Cdf(c) => {
                &&& init_caps(v@).to_multiset().subset_of(cdf_list(c@, n).to_multiset())
                &&& forall|i: int| 0 <= i < n ==> cdf_list(c@, n).contains(#[trigger] v@[i].max_outbound)
            },
        },
        init_cbr(v@).to_multiset() == rate_list(n, cbr_count).to_multiset(),
        init_churn(v@).to_multiset() == rate_list(n, churn_count).to_multiset(),
{
    broadcast use vstd::seq_lib::group_to_multiset_ensures;

    let regions = region_assign_list(rng, n, region_targets);
    let max_out = match degrees {
        DegreePlan::Cdf(cdf) => sample_outdegrees_from_cdf(rng, n, cdf.as_slice()),
        DegreePlan::Buckets(b) => degree_bucket_assign_list(rng, n, b.as_slice()),
    };
    let use_cbr = bool_rate_list(rng, n, cbr_count);
    let churn = bool_rate_list(rng, n, churn_count);
    proof {
        lemma_region_list(region_targets@, n);
        match degrees {
            DegreePlan::Buckets(b) => lemma_bucket_list(b@, n),
            DegreePlan::Cdf(_) => {},
        }
        vstd::seq_lib::to_multiset_len(regions@);
        vstd::seq_lib::to_multiset_len(region_list(region_targets@, n));
        assert(regions@.len() == n);
        match degrees {
            DegreePlan::Buckets(b) => {
                vstd::seq_lib::to_multiset_len(max_out@);
                vstd::seq_lib::to_multiset_len(bucket_list(b@, n));
            },
            DegreePlan::Cdf(_) => {},
        }
        assert(max_out@.len() == n);
        vstd::seq_lib::to_multiset_len(use_cbr@);
        vstd::seq_lib::to_multiset_len(rate_list(n, cbr_count));
        vstd::seq_lib::to_multiset_len(churn@);
        vstd::seq_lib::to_multiset_len(rate_list(n, churn_count));
        assert(use_cbr@.len() == n);
        assert(churn@.len() == n);
    }
    let mut v: Vec<NodeInit> = Vec::new();
    let mut i: usize = 0;
    while i < n
        invariant
            i <= n,
            regions@.len() == n,
            max_out@.len() == n,
            use_cbr@.len() == n,
            churn@.len() == n,
            v@.len() == i,
            forall|k: int| 0 <= k < i ==> #[trigger] v@[k] == (NodeInit {
                region: regions@[k],
                max_outbound: max_out@[k],
                use_cbr: use_cbr@[k],
                is_churn: churn@[k],
            }),
        decreases n - i,
    {
        v.push(NodeInit { region: regions[i], max_outbound: max_out[i], use_cbr: use_cbr[i], is_churn: churn[i] });
        i += 1;
    }
    proof {
        assert(init_regions(v@) =~= regions@);
        assert(init_caps(v@) =~= max_out@);
        assert(init_cbr(v@) =~= use_cbr@);
        assert(init_churn(v@) =~= churn@);
        let rl = region_list(region_targets@, n);
        assert forall|k: int| 0 <= k < n implies (#[trigger] v@[k].region < region_targets@.len() || (
            region_targets@.len() == 0 && v@[k].region == 0)) by {
            let x = regions@[k];
            assert(regions@.contains(x));
            vstd::seq_lib::to_multiset_contains(regions@, x);
            vstd::seq_lib::to_multiset_contains(rl, x);
            let w = choose|w: int| 0 <= w < rl.len() && rl[w] == x;
            assert(rl[w] < region_targets@.len() || (region_targets@.len() == 0 && rl[w] == 0));
        }
        match degrees {
            DegreePlan::Cdf(c) => {
                assert forall|k: int| 0 <= k < n implies cdf_list(c@, n).contains(#[trigger] v@[k].max_outbound) by {
                    assert(v@[k].max_outbound == max_out@[k]);
                }
            },
            DegreePlan::Buckets(_) => {},
        }
    }
    v
}

/// Total mining power of the first `k` nodes.
pub open spec fn power_prefix(nodes: Seq<NodeState>, k: int) -> nat
    decreases k,
{
    if k <= 0 {
        0
    } else {
        power_prefix(nodes, k - 1) + nodes[k - 1].mining_power as nat
    }
}

/// Scanning from index `k`, the first node whose cumulative mining power exceeds `r`
/// (the last node if none does).
pub open spec fn pick_from(nodes: Seq<NodeState>, r: nat, k: int) -> int
    decreases nodes.len() - k,
{
    if k >= nodes.len() - 1 {
        nodes.len() - 1
    } else if r < power_prefix(nodes, k + 1) {
        k
    } else {
        pick_from(nodes, r, k + 1)
    }
}

/// The first node whose cumulative mining power exceeds `r` (the last node if none does).
pub open spec fn weighted_pick(nodes: Seq<NodeState>, r: nat) -> int {
    pick_from(nodes, r, 0)
}

/// The picked index is a valid node index.
pub proof fn lemma_pick_from_range(nodes: Seq<NodeState>, r: nat, k: int)
    requires
        nodes.len() >= 1,
        k >= 0,
    ensures
        0 <= pick_from(nodes, r, k) < nodes.len(),
        k < nodes.len() ==> k <= pick_from(nodes, r, k),
    decreases nodes.len() - k,
{
    if k < nodes.len() - 1 && r >= power_prefix(nodes, k + 1) {
        lemma_pick_from_range(nodes, r, k + 1);
    }
}

proof fn lemma_power_prefix_bound(nodes: Seq<NodeState>, k: int)
    requires
        0 <= k <= nodes.len(),
    ensures
        power_prefix(nodes, k) <= k * (u64::MAX as int),
    decreases k,
{
    if k > 0 {
        lemma_power_prefix_bound(nodes, k - 1);
    }
}

proof fn lemma_power_prefix_mono(nodes: Seq<NodeState>, a: int, b: int)
    requires
        0 <= a <= b,
    ensures
        power_prefix(nodes, a) <= power_prefix(nodes, b),
    decreases b - a,
{
    if a < b {
        lemma_power_prefix_mono(nodes, a, b - 1);
    }
}

/// Node picked by cumulative mining power for the value `r` drawn below the total.
pub fn pick_by_power(nodes: &Vec<NodeState>, r: u128) -> (id: NodeId)
    requires
        nodes@.len() >= 1,
    ensures
        id == nodes@[weighted_pick(nodes@, r as nat)].id,
{
    let mut c: u128 = 0;
    let mut i: usize = 0;
    while i < nodes.len()
        invariant
            1 <= nodes@.len(),
            i <= nodes@.len(),
            c == power_prefix(nodes@, i as int),
            pick_from(nodes@, r as nat, 0) == pick_from(nodes@, r as nat, i as int),
        decreases nodes@.len() - i,
    {
        proof {
            lemma_power_prefix_bound(nodes@, i as int + 1);
            assert((i as int + 1) * (u64::MAX as int) <= (usize::MAX as int + 1) * (u64::MAX as int)) by (nonlinear_arith)
                requires i < usize::MAX;
            assert((usize::MAX as int + 1) * (u64::MAX as int) < u128::MAX) by (nonlinear_arith);
        }
        c = c + nodes[i].mining_power as u128;
        if r < c {
            return nodes[i].id;
        }
        i += 1;
    }
    nodes[nodes.len() - 1].id
}

/// Total mining power of all nodes.
pub fn total_mining_power(nodes: &Vec<NodeState>) -> (t: u128)
    ensures
        t == power_prefix(nodes@, nodes@.len() as int),
{
    let mut c: u128 = 0;
    let mut i: usize = 0;
    while i < nodes.len()
        invariant
            i <= nodes@.len(),
            c == power_prefix(nodes@, i as int),
        decreases nodes@.len() - i,
    {
        proof {
            lemma_power_prefix_bound(nodes@, i as int + 1);
            assert((i as int + 1) * (u64::MAX as int) <= (usize::MAX as int + 1) * (u64::MAX as int)) by (nonlinear_arith)
                requires i < usize::MAX;
            assert((usize::MAX as int + 1) * (u64::MAX as int) < u128::MAX) by (nonlinear_arith);
        }
        c = c + nodes[i].mining_power as u128;
        i += 1;
    }
    c
}

/// Genesis minter: drawn with probability proportional to mining power (the first node when the
/// total is zero).
pub fn pick_genesis_minter(rng: &mut ChaCha8Rng, nodes: &Vec<NodeState>) -> (id: NodeId)
    requires
        nodes@.len() >= 1,
    ensures
        power_prefix(nodes@, nodes@.len() as int) == 0 ==> id == nodes@[0].id,
        power_prefix(nodes@, nodes@.len() as int) > 0 ==> exists|r: nat|
            #![trigger weighted_pick(nodes@, r)]
            r < power_prefix(nodes@, nodes@.len() as int) && id == nodes@[weighted_pick(nodes@, r)].id,
{
    let total = total_mining_power(nodes);
    if total == 0 {
        return nodes[0].id;
    }
    let r = gen_below_u128(rng, total);
    let id = pick_by_power(nodes, r);
    proof {
        let rr = r as nat;
        assert(rr < power_prefix(nodes@, nodes@.len() as int));
        assert(id == nodes@[weighted_pick(nodes@, rr)].id);
    }
    id
}

} // verus!

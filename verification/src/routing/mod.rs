//! Topology: random outbound links and neighbor enumeration.
use crate::rng::shuffle;
use crate::types::NodeId;
use rand_chacha::ChaCha8Rng;
use vstd::prelude::*;

verus! {

/// Identifier of the node stored at index `i`.
pub open spec fn nid(i: int) -> NodeId {
    (i + 1) as NodeId
}

/// Strictly increasing, hence sorted and free of repeats.
pub open spec fn strictly_increasing(s: Seq<NodeId>) -> bool {
    forall|a: int, b: int| 0 <= a < b < s.len() ==> #[trigger] s[a] < #[trigger] s[b]
}

/// Whether `v` holds `x`.
pub fn vec_contains(v: &Vec<NodeId>, x: NodeId) -> (r: bool)
    ensures
        r == v@.contains(x),
{
    let mut i: usize = 0;
    while i < v.len()
        invariant
            i <= v@.len(),
            forall|k: int| 0 <= k < i ==> #[trigger] v@[k] != x,
        decreases v@.len() - i,
    {
        if v[i] == x {
            return true;
        }
        i += 1;
    }
    false
}

/// Adds `x` to the strictly increasing `v` unless it is already there.
fn insert_sorted(v: &mut Vec<NodeId>, x: NodeId)
    requires
        strictly_increasing(old(v)@),
    ensures
        strictly_increasing(final(v)@),
        forall|y: NodeId| #[trigger] final(v)@.contains(y) <==> (old(v)@.contains(y) || y == x),
{
    let mut j: usize = 0;
    while j < v.len() && v[j] < x
        invariant
            j <= v@.len(),
            forall|k: int| 0 <= k < j ==> #[trigger] v@[k] < x,
        decreases v@.len() - j,
    {
        j += 1;
    }
    if j < v.len() && v[j] == x {
        return;
    }
    let ghost old_v = v@;
    v.insert(j, x);
    proof {
        let nv = v@;
        assert(nv == old_v.insert(j as int, x));
        assert forall|a: int, b: int| 0 <= a < b < nv.len() implies #[trigger] nv[a] < #[trigger] nv[b] by {
            if b < j {
            } else if b == j {
            } else if a < j {
                assert(old_v[b - 1] >= x);
            } else if a == j {
                assert(old_v[j as int] > x);
                if b - 1 > j {
                    assert(old_v[j as int] < old_v[b - 1]);
                }
            } else {
                assert(old_v[a - 1] < old_v[b - 1]);
            }
        }
        assert forall|y: NodeId| #[trigger] nv.contains(y) <==> (old_v.contains(y) || y == x) by {
            if nv.contains(y) {
                let k = choose|k: int| 0 <= k < nv.len() && nv[k] == y;
                if k < j {
                    assert(old_v[k] == y);
                } else if k > j {
                    assert(old_v[k - 1] == y);
                }
            }
            if old_v.contains(y) {
                let k = choose|k: int| 0 <= k < old_v.len() && old_v[k] == y;
                if k < j {
                    assert(nv[k] == y);
                } else {
                    assert(nv[k + 1] == y);
                }
            }
            if y == x {
                assert(nv[j as int] == x);
            }
        }
    }
}

/// Sorted, deduplicated union of the outbound and inbound neighbor lists.
pub fn neighbor_ids(out: &[NodeId], inn: &[NodeId]) -> (v: Vec<NodeId>)
    ensures
        strictly_increasing(v@),
        forall|y: NodeId| #[trigger] v@.contains(y) <==> (out@.contains(y) || inn@.contains(y)),
{
    let mut v: Vec<NodeId> = Vec::new();
    let mut i: usize = 0;
    while i < out.len()
        invariant
            i <= out@.len(),
            strictly_increasing(v@),
            forall|y: NodeId| #[trigger] v@.contains(y) <==> out@.subrange(0, i as int).contains(y),
        decreases out@.len() - i,
    {
        insert_sorted(&mut v, out[i]);
        proof {
            assert forall|y: NodeId| #[trigger] v@.contains(y) <==> out@.subrange(0, i + 1).contains(y) by {
                let s0 = out@.subrange(0, i as int);
                let s1 = out@.subrange(0, i + 1);
                if s1.contains(y) {
                    let k = choose|k: int| 0 <= k < s1.len() && s1[k] == y;
                    if k < i {
                        assert(s0[k] == y);
                    }
                }
                if s0.contains(y) {
                    let k = choose|k: int| 0 <= k < s0.len() && s0[k] == y;
                    assert(s1[k] == y);
                }
                if y == out@[i as int] {
                    assert(s1[i as int] == y);
                }
            }
        }
        i += 1;
    }
    assert(out@.subrange(0, out@.len() as int) =~= out@);
    let mut i: usize = 0;
    while i < inn.len()
        invariant
            i <= inn@.len(),
            strictly_increasing(v@),
            forall|y: NodeId| #[trigger] v@.contains(y) <==> (out@.contains(y) || inn@.subrange(
                0,
                i as int,
            ).contains(y)),
        decreases inn@.len() - i,
    {
        insert_sorted(&mut v, inn[i]);
        proof {
            assert forall|y: NodeId| #[trigger] v@.contains(y) <==> (out@.contains(y) || inn@.subrange(0, i + 1).contains(y)) by {
                let s0 = inn@.subrange(0, i as int);
                let s1 = inn@.subrange(0, i + 1);
                if s1.contains(y) {
                    let k = choose|k: int| 0 <= k < s1.len() && s1[k] == y;
                    if k < i {
                        assert(s0[k] == y);
                    }
                }
                if s0.contains(y) {
                    let k = choose|k: int| 0 <= k < s0.len() && s0[k] == y;
                    assert(s1[k] == y);
                }
                if y == inn@[i as int] {
                    assert(s1[i as int] == y);
                }
            }
        }
        i += 1;
    }
    assert(inn@.subrange(0, inn@.len() as int) =~= inn@);
    v
}


/// A neighbor list of node index `i` among `n` nodes: identifiers in `1..=n`, no repeats,
/// and not the node itself.
pub open spec fn row_ok(s: Seq<NodeId>, n: nat, i: int) -> bool {
    &&& forall|k: int| 0 <= k < s.len() ==> 1 <= #[trigger] s[k] <= n
    &&& forall|a: int, b: int| 0 <= a < b < s.len() ==> #[trigger] s[a] != #[trigger] s[b]
    &&& !s.contains(nid(i))
}

/// The link lists are a consistent directed graph: valid rows, no node both an outbound and an
/// inbound neighbor of the same node, and `inn` holds exactly the reverse of the `out` edges.
pub open spec fn links_wf(out: Seq<Vec<NodeId>>, inn: Seq<Vec<NodeId>>) -> bool {
    let n = out.len();
    &&& inn.len() == n
    &&& n <= u32::MAX
    &&& forall|i: int| 0 <= i < n ==> row_ok(#[trigger] out[i]@, n, i)
    &&& forall|i: int| 0 <= i < n ==> row_ok(#[trigger] inn[i]@, n, i)
    &&& forall|i: int, p: NodeId|
        0 <= i < n && #[trigger] out[i]@.contains(p) ==> !inn[i]@.contains(p)
    &&& forall|i: int, j: int|
        0 <= i < n && 0 <= j < n ==> (#[trigger] out[i]@.contains(nid(j))
            <==> #[trigger] inn[j]@.contains(nid(i)))
}

/// No node has more outbound links than its cap.
pub open spec fn caps_ok(out: Seq<Vec<NodeId>>, max_out: Seq<usize>) -> bool {
    &&& max_out.len() == out.len()
    &&& forall|i: int| 0 <= i < out.len() ==> #[trigger] out[i]@.len() <= max_out[i]
}

/// Node `i` has filled its outbound cap or is linked, one way or the other, to every other node.
pub open spec fn saturated(
    out: Seq<Vec<NodeId>>,
    inn: Seq<Vec<NodeId>>,
    max_out: Seq<usize>,
    i: int,
) -> bool {
    ||| out[i]@.len() >= max_out[i]
    ||| forall|j: int|
        0 <= j < out.len() && j != i ==> #[trigger] out[i]@.contains(nid(j)) || inn[i]@.contains(
            nid(j),
        )
}

/// Every link of `a` is still present in `b`.
pub open spec fn links_grow(a: Seq<Vec<NodeId>>, b: Seq<Vec<NodeId>>) -> bool {
    &&& a.len() == b.len()
    &&& forall|i: int, p: NodeId| 0 <= i < a.len() && #[trigger] a[i]@.contains(p) ==> b[i]@.contains(p)
}

/// Adds the edge `self_id -> peer` from node index `i` when the peer is another node, not yet a
/// neighbor, the node's outbound cap is not reached, and the peer has no inbound link from it.
pub fn try_add_edge(
    i: usize,
    peer: NodeId,
    self_id: NodeId,
    max_out: &[usize],
    out: &mut Vec<Vec<NodeId>>,
    inn: &mut Vec<Vec<NodeId>>,
) -> (added: bool)
    requires
        i < old(out)@.len(),
        old(inn)@.len() == old(out)@.len(),
        max_out@.len() == old(out)@.len(),
        1 <= peer <= old(out)@.len(),
    ensures
        added == (peer != self_id && !old(out)@[i as int]@.contains(peer) && !old(
            inn,
        )@[i as int]@.contains(peer) && old(out)@[i as int]@.len() < max_out@[i as int] && !old(
            inn,
        )@[peer - 1]@.contains(self_id)),
        final(out)@.len() == old(out)@.len(),
        final(inn)@.len() == old(inn)@.len(),
        added ==> final(out)@[i as int]@ == old(out)@[i as int]@.push(peer),
        added ==> final(inn)@[peer - 1]@ == old(inn)@[peer - 1]@.push(self_id),
        !added ==> final(out)@ == old(out)@ && final(inn)@ == old(inn)@,
        forall|k: int| 0 <= k < old(out)@.len() && k != i ==> #[trigger] final(out)@[k] == old(out)@[k],
        forall|k: int|
            0 <= k < old(inn)@.len() && k != peer - 1 ==> #[trigger] final(inn)@[k] == old(inn)@[k],
{
    if peer == self_id {
        return false;
    }
    if vec_contains(&out[i], peer) || vec_contains(&inn[i], peer) {
        return false;
    }
    if out[i].len() >= max_out[i] {
        return false;
    }
    let j = peer as usize - 1;
    if vec_contains(&inn[j], self_id) {
        return false;
    }
    out[i].push(peer);
    inn[j].push(self_id);
    true
}

proof fn lemma_nid_injective(a: int, b: int)
    requires
        0 <= a < u32::MAX,
        0 <= b < u32::MAX,
        nid(a) == nid(b),
    ensures
        a == b,
{
}

proof fn lemma_add_edge_keeps_wf(
    o0: Seq<Vec<NodeId>>,
    i0: Seq<Vec<NodeId>>,
    o1: Seq<Vec<NodeId>>,
    i1: Seq<Vec<NodeId>>,
    max_out: Seq<usize>,
    i: int,
    j: int,
)
    requires
        links_wf(o0, i0),
        caps_ok(o0, max_out),
        0 <= i < o0.len(),
        0 <= j < o0.len(),
        i != j,
        !o0[i]@.contains(nid(j)),
        !i0[i]@.contains(nid(j)),
        !i0[j]@.contains(nid(i)),
        o0[i]@.len() < max_out[i],
        o1.len() == o0.len(),
        i1.len() == i0.len(),
        o1[i]@ == o0[i]@.push(nid(j)),
        i1[j]@ == i0[j]@.push(nid(i)),
        forall|k: int| 0 <= k < o0.len() && k != i ==> #[trigger] o1[k] == o0[k],
        forall|k: int| 0 <= k < i0.len() && k != j ==> #[trigger] i1[k] == i0[k],
    ensures
        links_wf(o1, i1),
        caps_ok(o1, max_out),
        links_grow(o0, o1),
        links_grow(i0, i1),
{
    let n = o0.len();
    assert forall|k: int| 0 <= k < n implies row_ok(#[trigger] o1[k]@, n, k) by {
        assert(row_ok(o0[k]@, n, k));
        if k == i {
            let s = o1[k]@;
            assert forall|a: int, b: int| 0 <= a < b < s.len() implies #[trigger] s[a] != #[trigger] s[b] by {
                if b == s.len() - 1 {
                    assert(o0[i]@.contains(s[a]) ==> s[a] != nid(j));
                    assert(o0[i]@[a] == s[a]);
                }
            }
            if s.contains(nid(k)) {
                let w = choose|w: int| 0 <= w < s.len() && s[w] == nid(k);
                if w < s.len() - 1 {
                    assert(o0[i]@[w] == nid(k));
                } else {
                    lemma_nid_injective(j, k);
                }
            }
        }
    }
    assert forall|k: int| 0 <= k < n implies row_ok(#[trigger] i1[k]@, n, k) by {
        assert(row_ok(i0[k]@, n, k));
        if k == j {
            let s = i1[k]@;
            assert forall|a: int, b: int| 0 <= a < b < s.len() implies #[trigger] s[a] != #[trigger] s[b] by {
                if b == s.len() - 1 {
                    assert(i0[j]@[a] == s[a]);
                    assert(i0[j]@.contains(s[a]));
                }
            }
            if s.contains(nid(k)) {
                let w = choose|w: int| 0 <= w < s.len() && s[w] == nid(k);
                if w < s.len() - 1 {
                    assert(i0[j]@[w] == nid(k));
                } else {
                    lemma_nid_injective(i, k);
                }
            }
        }
    }
    assert forall|k: int, p: NodeId| 0 <= k < n && #[trigger] o1[k]@.contains(p) implies !i1[k]@.contains(p) by {
        let op = o0[k]@.contains(p);
        if k == i {
            if !op {
                let w = choose|w: int| 0 <= w < o1[k]@.len() && o1[k]@[w] == p;
                if w < o1[k]@.len() - 1 {
                    assert(o0[k]@[w] == p);
                }
            }
        }
        if k == j && i1[k]@.contains(p) && !i0[k]@.contains(p) {
            let w = choose|w: int| 0 <= w < i1[k]@.len() && i1[k]@[w] == p;
            if w < i1[k]@.len() - 1 {
                assert(i0[k]@[w] == p);
            }
            assert(p == nid(i));
            // p = nid(i) in out[j] would mean nid(j) in inn[i]
            if k != i {
                assert(o0[j]@.contains(nid(i)) <==> i0[i]@.contains(nid(j)));
            }
        }
        if k == i && k == j {
        }
    }
    assert forall|a: int, b: int| 0 <= a < n && 0 <= b < n implies (#[trigger] o1[a]@.contains(nid(b))
        <==> #[trigger] i1[b]@.contains(nid(a))) by {
        assert(o0[a]@.contains(nid(b)) <==> i0[b]@.contains(nid(a)));
        // the new pair
        if a == i && b == j {
            assert(o1[a]@[o1[a]@.len() - 1] == nid(b));
            assert(i1[b]@[i1[b]@.len() - 1] == nid(a));
        }
        if a == i {
            if o1[a]@.contains(nid(b)) && !o0[a]@.contains(nid(b)) {
                let w = choose|w: int| 0 <= w < o1[a]@.len() && o1[a]@[w] == nid(b);
                if w < o1[a]@.len() - 1 {
                    assert(o0[a]@[w] == nid(b));
                } else {
                    lemma_nid_injective(j, b);
                }
            }
            if o0[a]@.contains(nid(b)) {
                let w = choose|w: int| 0 <= w < o0[a]@.len() && o0[a]@[w] == nid(b);
                assert(o1[a]@[w] == nid(b));
            }
        }
        if b == j {
            if i1[b]@.contains(nid(a)) && !i0[b]@.contains(nid(a)) {
                let w = choose|w: int| 0 <= w < i1[b]@.len() && i1[b]@[w] == nid(a);
                if w < i1[b]@.len() - 1 {
                    assert(i0[b]@[w] == nid(a));
                } else {
                    lemma_nid_injective(i, a);
                }
            }
            if i0[b]@.contains(nid(a)) {
                let w = choose|w: int| 0 <= w < i0[b]@.len() && i0[b]@[w] == nid(a);
                assert(i1[b]@[w] == nid(a));
            }
        }
    }
    assert forall|k: int, p: NodeId| 0 <= k < n && #[trigger] o0[k]@.contains(p) implies o1[k]@.contains(p) by {
        if k == i {
            let w = choose|w: int| 0 <= w < o0[k]@.len() && o0[k]@[w] == p;
            assert(o1[k]@[w] == p);
        }
    }
    assert forall|k: int, p: NodeId| 0 <= k < n && #[trigger] i0[k]@.contains(p) implies i1[k]@.contains(p) by {
        if k == j {
            let w = choose|w: int| 0 <= w < i0[k]@.len() && i0[k]@[w] == p;
            assert(i1[k]@[w] == p);
        }
    }
    assert forall|k: int| 0 <= k < n implies #[trigger] o1[k]@.len() <= max_out[k] by {}
}


/// No neighbor list got shorter.
pub open spec fn lens_grow(a: Seq<Vec<NodeId>>, b: Seq<Vec<NodeId>>) -> bool {
    &&& a.len() == b.len()
    &&& forall|i: int| 0 <= i < a.len() ==> #[trigger] a[i]@.len() <= b[i]@.len()
}

proof fn lemma_saturated_grows(
    o0: Seq<Vec<NodeId>>,
    i0: Seq<Vec<NodeId>>,
    o1: Seq<Vec<NodeId>>,
    i1: Seq<Vec<NodeId>>,
    max_out: Seq<usize>,
    i: int,
)
    requires
        0 <= i < o0.len(),
        i0.len() == o0.len(),
        saturated(o0, i0, max_out, i),
        links_grow(o0, o1),
        links_grow(i0, i1),
        lens_grow(o0, o1),
    ensures
        saturated(o1, i1, max_out, i),
{
    if o0[i]@.len() >= max_out[i] {
        assert(o0[i]@.len() <= o1[i]@.len());
    } else {
        assert forall|j: int| 0 <= j < o1.len() && j != i implies #[trigger] o1[i]@.contains(nid(j))
            || i1[i]@.contains(nid(j)) by {
            assert(o0[i]@.contains(nid(j)) || i0[i]@.contains(nid(j)));
            if o0[i]@.contains(nid(j)) {
                assert(o1[i]@.contains(nid(j)));
            } else {
                assert(i1[i]@.contains(nid(j)));
            }
        }
    }
}

/// Sequence `0, 1, .., n - 1`.
pub open spec fn index_range(n: nat) -> Seq<usize> {
    Seq::new(n, |x: int| x as usize)
}

/// The neighbor lists as plain sequences.
pub open spec fn rows(v: Seq<Vec<NodeId>>) -> Seq<Seq<NodeId>> {
    v.map_values(|r: Vec<NodeId>| r@)
}

/// Whether [`try_add_edge`] adds the edge from node index `i` to node index `j`.
pub open spec fn edge_allowed(out: Seq<Seq<NodeId>>, inn: Seq<Seq<NodeId>>, max_out: Seq<usize>, i: int, j: int) -> bool {
    &&& nid(j) != nid(i)
    &&& !out[i].contains(nid(j))
    &&& !inn[i].contains(nid(j))
    &&& out[i].len() < max_out[i]
    &&& !inn[j].contains(nid(i))
}

/// The neighbor lists after [`try_add_edge`] from node index `i` to node index `j`.
pub open spec fn add_edge(
    out: Seq<Seq<NodeId>>,
    inn: Seq<Seq<NodeId>>,
    max_out: Seq<usize>,
    i: int,
    j: int,
) -> (Seq<Seq<NodeId>>, Seq<Seq<NodeId>>) {
    if edge_allowed(out, inn, max_out, i, j) {
        (out.update(i, out[i].push(nid(j))), inn.update(j, inn[j].push(nid(i))))
    } else {
        (out, inn)
    }
}

/// The neighbor lists after node index `i` tries the candidates `cand`, in order.
pub open spec fn greedy_links(
    out: Seq<Seq<NodeId>>,
    inn: Seq<Seq<NodeId>>,
    max_out: Seq<usize>,
    i: int,
    cand: Seq<usize>,
) -> (Seq<Seq<NodeId>>, Seq<Seq<NodeId>>)
    decreases cand.len(),
{
    if cand.len() == 0 {
        (out, inn)
    } else {
        let prev = greedy_links(out, inn, max_out, i, cand.drop_last());
        add_edge(prev.0, prev.1, max_out, i, cand.last() as int)
    }
}

/// The neighbor lists after the nodes of `order` connect in turn, node `order[t]` trying the
/// candidates `cands[t]` in order.
pub open spec fn wiring(
    out: Seq<Seq<NodeId>>,
    inn: Seq<Seq<NodeId>>,
    max_out: Seq<usize>,
    order: Seq<usize>,
    cands: Seq<Seq<usize>>,
) -> (Seq<Seq<NodeId>>, Seq<Seq<NodeId>>)
    decreases order.len(),
{
    if order.len() == 0 || cands.len() == 0 {
        (out, inn)
    } else {
        let prev = wiring(out, inn, max_out, order.drop_last(), cands.drop_last());
        greedy_links(prev.0, prev.1, max_out, order.last() as int, cands.last())
    }
}

/// The indices `0..x` other than `i`, in increasing order.
pub open spec fn others(i: usize, x: nat) -> Seq<usize>
    decreases x,
{
    if x == 0 {
        Seq::empty()
    } else {
        let p = others(i, (x - 1) as nat);
        if x - 1 != i {
            p.push((x - 1) as usize)
        } else {
            p
        }
    }
}

/// The neighbor lists of `n` nodes with no links yet.
pub open spec fn no_links(n: nat) -> Seq<Seq<NodeId>> {
    Seq::new(n, |i: int| Seq::<NodeId>::empty())
}

/// `out`/`inn` are the greedy [`wiring`] from `out0`/`inn0` for some order of all the nodes, each
/// node trying all the other nodes in some order.
pub open spec fn random_wiring(
    out0: Seq<Seq<NodeId>>,
    inn0: Seq<Seq<NodeId>>,
    max_out: Seq<usize>,
    out: Seq<Seq<NodeId>>,
    inn: Seq<Seq<NodeId>>,
) -> bool {
    exists|order: Seq<usize>, cands: Seq<Seq<usize>>|
        {
            &&& order.to_multiset() == index_range(out0.len()).to_multiset()
            &&& cands.len() == order.len()
            &&& forall|t: int|
                0 <= t < cands.len() ==> (#[trigger] cands[t]).to_multiset() == others(order[t], out0.len()).to_multiset()
            &&& (out, inn) == #[trigger] wiring(out0, inn0, max_out, order, cands)
        }
}

/// Node index `i` tries the candidates `cand` in order, adding each edge that [`try_add_edge`]
/// allows.
pub fn connect_node(i: usize, cand: &Vec<usize>, max_out: &[usize], out: &mut Vec<Vec<NodeId>>, inn: &mut Vec<Vec<NodeId>>)
    requires
        links_wf(old(out)@, old(inn)@),
        caps_ok(old(out)@, max_out@),
        i < old(out)@.len(),
        forall|d: int| 0 <= d < cand@.len() ==> #[trigger] cand@[d] < old(out)@.len(),
    ensures
        (rows(final(out)@), rows(final(inn)@)) == greedy_links(rows(old(out)@), rows(old(inn)@), max_out@, i as int, cand@),
        links_wf(final(out)@, final(inn)@),
        caps_ok(final(out)@, max_out@),
        links_grow(old(out)@, final(out)@),
        links_grow(old(inn)@, final(inn)@),
        lens_grow(old(out)@, final(out)@),
        forall|d: int|
            0 <= d < cand@.len() && #[trigger] cand@[d] != i ==> (final(out)@[i as int]@.len() >= max_out@[i as int]
                || final(out)@[i as int]@.contains(nid(cand@[d] as int))
                || final(inn)@[i as int]@.contains(nid(cand@[d] as int))),
{
    let n = out.len();
    let self_id = (i + 1) as NodeId;
    let ghost out_t = out@;
    let ghost inn_t = inn@;
    let mut c: usize = 0;
    assert(cand@.subrange(0, 0) =~= Seq::<usize>::empty());
    while c < cand.len()
        invariant
            n == out@.len(),
            i < n,
            self_id == nid(i as int),
            forall|d: int| 0 <= d < cand@.len() ==> #[trigger] cand@[d] < n,
            (rows(out@), rows(inn@)) == greedy_links(rows(out_t), rows(inn_t), max_out@, i as int, cand@.subrange(0, c as int)),
            links_wf(out@, inn@),
            caps_ok(out@, max_out@),
            links_grow(out_t, out@),
            links_grow(inn_t, inn@),
            lens_grow(out_t, out@),
            forall|d: int|
                0 <= d < c && #[trigger] cand@[d] != i ==> (out@[i as int]@.len() >= max_out@[i as int]
                    || out@[i as int]@.contains(nid(cand@[d] as int))
                    || inn@[i as int]@.contains(nid(cand@[d] as int))),
            c <= cand@.len(),
        decreases cand@.len() - c,
    {
        let j = cand[c];
        let peer = (j + 1) as NodeId;
        let ghost o0 = out@;
        let ghost i0 = inn@;
        let added = try_add_edge(i, peer, self_id, max_out, out, inn);
        proof {
            assert(peer == nid(j as int));
            let ro = rows(o0);
            let ri = rows(i0);
            assert(cand@.subrange(0, c + 1).drop_last() =~= cand@.subrange(0, c as int));
            assert(cand@.subrange(0, c + 1).last() == j);
            assert(ro[i as int] == o0[i as int]@ && ri[i as int] == i0[i as int]@ && ri[j as int] == i0[j as int]@);
            if nid(j as int) == nid(i as int) {
                lemma_nid_injective(j as int, i as int);
            }
            assert(added == edge_allowed(ro, ri, max_out@, i as int, j as int));
            if added {
                lemma_add_edge_keeps_wf(o0, i0, out@, inn@, max_out@, i as int, j as int);
                assert(out@[i as int]@[out@[i as int]@.len() - 1] == peer);
                assert(rows(out@) =~= ro.update(i as int, ro[i as int].push(nid(j as int))));
                assert(rows(inn@) =~= ri.update(j as int, ri[j as int].push(nid(i as int))));
            } else {
                assert(o0[i as int]@.contains(nid(j as int)) <==> i0[j as int]@.contains(nid(i as int)));
                assert(rows(out@) =~= ro);
                assert(rows(inn@) =~= ri);
            }
            assert forall|p: int, q: NodeId| 0 <= p < n && #[trigger] out_t[p]@.contains(q) implies out@[p]@.contains(q) by {
                assert(o0[p]@.contains(q));
                if added && p == i {
                    let w = choose|w: int| 0 <= w < o0[p]@.len() && o0[p]@[w] == q;
                    assert(out@[p]@[w] == q);
                }
            }
            assert forall|p: int, q: NodeId| 0 <= p < n && #[trigger] inn_t[p]@.contains(q) implies inn@[p]@.contains(q) by {
                assert(i0[p]@.contains(q));
                if added && p == j {
                    let w = choose|w: int| 0 <= w < i0[p]@.len() && i0[p]@[w] == q;
                    assert(inn@[p]@[w] == q);
                }
            }
            assert forall|p: int| 0 <= p < n implies #[trigger] out_t[p]@.len() <= out@[p]@.len() by {
                assert(out_t[p]@.len() <= o0[p]@.len());
            }
            assert forall|d: int| 0 <= d < c + 1 && #[trigger] cand@[d] != i implies (out@[i as int]@.len() >= max_out@[i as int]
                || out@[i as int]@.contains(nid(cand@[d] as int))
                || inn@[i as int]@.contains(nid(cand@[d] as int))) by {
                if d == c {
                    if added {
                        assert(out@[i as int]@[out@[i as int]@.len() - 1] == nid(j as int));
                    } else {
                        if nid(j as int) == nid(i as int) {
                            lemma_nid_injective(j as int, i as int);
                        }
                        assert(i0[j as int]@.contains(nid(i as int)) ==> o0[i as int]@.contains(nid(j as int)));
                    }
                }
                if d < c {
                    let q = nid(cand@[d] as int);
                    if o0[i as int]@.contains(q) {
                        let w = choose|w: int| 0 <= w < o0[i as int]@.len() && o0[i as int]@[w] == q;
                        assert(out@[i as int]@[w] == q);
                    }
                }
            }
        }
        c += 1;
    }
    assert(cand@.subrange(0, cand@.len() as int) =~= cand@);
}

/// Each node opens outbound connections up to its cap; the peer records an inbound edge.
/// Nodes are visited in a random order, and each tries the other nodes in a random order
/// (see [`connect_node`]); the result is the greedy [`wiring`] for those drawn orders.
pub fn init_outbound_links(
    rng: &mut ChaCha8Rng,
    max_out: &[usize],
    out: &mut Vec<Vec<NodeId>>,
    inn: &mut Vec<Vec<NodeId>>,
)
    requires
        links_wf(old(out)@, old(inn)@),
        caps_ok(old(out)@, max_out@),
    ensures
        random_wiring(rows(old(out)@), rows(old(inn)@), max_out@, rows(final(out)@), rows(final(inn)@)),
        links_wf(final(out)@, final(inn)@),
        caps_ok(final(out)@, max_out@),
        links_grow(old(out)@, final(out)@),
        links_grow(old(inn)@, final(inn)@),
        forall|i: int|
            0 <= i < final(out)@.len() ==> #[trigger] saturated(final(out)@, final(inn)@, max_out@, i),
{
    let n = out.len();
    let ghost out0 = out@;
    let ghost inn0 = inn@;
    let mut order: Vec<usize> = Vec::new();
    let mut k: usize = 0;
    while k < n
        invariant
            k <= n,
            order@ == index_range(k as nat),
        decreases n - k,
    {
        order.push(k);
        k += 1;
        assert(order@ =~= index_range(k as nat));
    }
    let ghost range = order@;
    shuffle(rng, &mut order);
    let ghost mut cands: Seq<Seq<usize>> = Seq::empty();
    let mut t: usize = 0;
    proof {
        assert(order@.subrange(0, 0) =~= Seq::<usize>::empty());
    }
    while t < n
        invariant
            n == out@.len(),
            order@.len() == n,
            range == index_range(n as nat),
            order@.to_multiset() == range.to_multiset(),
            links_wf(out@, inn@),
            caps_ok(out@, max_out@),
            links_grow(out0, out@),
            links_grow(inn0, inn@),
            forall|u: int| 0 <= u < t ==> #[trigger] saturated(out@, inn@, max_out@, order@[u] as int),
            t <= n,
            cands.len() == t,
            forall|u: int|
                0 <= u < t ==> (#[trigger] cands[u]).to_multiset() == others(order@[u], n as nat).to_multiset(),
            (rows(out@), rows(inn@)) == wiring(rows(out0), rows(inn0), max_out@, order@.subrange(0, t as int), cands),
        decreases n - t,
    {
        let i = order[t];
        proof {
            assert(order@.contains(i));
            vstd::seq_lib::to_multiset_contains(order@, i);
            vstd::seq_lib::to_multiset_contains(range, i);
            assert(range.contains(i));
        }
        let mut cand: Vec<usize> = Vec::new();
        let mut x: usize = 0;
        while x < n
            invariant
                x <= n,
                i < n,
                cand@ == others(i, x as nat),
                forall|y: usize| #[trigger] cand@.contains(y) <==> (y < x && y != i),
            decreases n - x,
        {
            if x != i {
                let ghost c0 = cand@;
                cand.push(x);
                proof {
                    assert forall|y: usize| #[trigger] cand@.contains(y) <==> (y < x + 1 && y != i) by {
                        if c0.contains(y) {
                            let w = choose|w: int| 0 <= w < c0.len() && c0[w] == y;
                            assert(cand@[w] == y);
                        }
                        if y == x {
                            assert(cand@[c0.len() as int] == y);
                        }
                        if cand@.contains(y) && y != x {
                            let w = choose|w: int| 0 <= w < cand@.len() && cand@[w] == y;
                            assert(c0[w] == y);
                        }
                    }
                }
            }
            x += 1;
        }
        let ghost cand0 = cand@;
        shuffle(rng, &mut cand);
        let ghost out_t = out@;
        let ghost inn_t = inn@;
        proof {
            assert forall|d: int| 0 <= d < cand@.len() implies #[trigger] cand@[d] < out@.len() by {
                let y = cand@[d];
                assert(cand@.contains(y));
                vstd::seq_lib::to_multiset_contains(cand@, y);
                vstd::seq_lib::to_multiset_contains(cand0, y);
            }
        }
        connect_node(i, &cand, max_out, out, inn);
        proof {
            let sub1 = order@.subrange(0, t + 1);
            let c1 = cands.push(cand@);
            assert(sub1.drop_last() =~= order@.subrange(0, t as int));
            assert(c1.drop_last() =~= cands);
            assert(sub1.last() == i);
            assert(c1.last() == cand@);
            assert(wiring(rows(out0), rows(inn0), max_out@, sub1, c1) == greedy_links(
                rows(out_t),
                rows(inn_t),
                max_out@,
                i as int,
                cand@,
            ));
            assert forall|p: int, q: NodeId| 0 <= p < n && #[trigger] out0[p]@.contains(q) implies out@[p]@.contains(q) by {
                assert(out_t[p]@.contains(q));
            }
            assert forall|p: int, q: NodeId| 0 <= p < n && #[trigger] inn0[p]@.contains(q) implies inn@[p]@.contains(q) by {
                assert(inn_t[p]@.contains(q));
            }
            assert forall|jj: int| 0 <= jj < n && jj != i implies #[trigger] out@[i as int]@.contains(nid(jj))
                || inn@[i as int]@.contains(nid(jj)) || out@[i as int]@.len() >= max_out@[i as int] by {
                let y = jj as usize;
                assert(cand0.contains(y));
                vstd::seq_lib::to_multiset_contains(cand0, y);
                vstd::seq_lib::to_multiset_contains(cand@, y);
                assert(cand@.contains(y));
                let d = choose|d: int| 0 <= d < cand@.len() && cand@[d] == y;
                assert(out@[i as int]@.len() >= max_out@[i as int] || out@[i as int]@.contains(
                    nid(cand@[d] as int),
                ) || inn@[i as int]@.contains(nid(cand@[d] as int)));
            }
            assert(saturated(out@, inn@, max_out@, i as int));
            assert forall|u: int| 0 <= u < t + 1 implies #[trigger] saturated(out@, inn@, max_out@, order@[u] as int) by {
                if u < t {
                    assert(order@.contains(order@[u]));
                    vstd::seq_lib::to_multiset_contains(order@, order@[u]);
                    vstd::seq_lib::to_multiset_contains(range, order@[u]);
                    assert(range.contains(order@[u]));
                    lemma_saturated_grows(out_t, inn_t, out@, inn@, max_out@, order@[u] as int);
                }
            }
            assert forall|u: int| 0 <= u < t + 1 implies (#[trigger] c1[u]).to_multiset() == others(
                order@[u],
                n as nat,
            ).to_multiset() by {
                if u < t {
                    assert(c1[u] == cands[u]);
                }
            }
            cands = c1;
        }
        t += 1;
    }
    proof {
        assert forall|i: int| 0 <= i < out@.len() implies #[trigger] saturated(out@, inn@, max_out@, i) by {
            let y = i as usize;
            assert(range[i] == y);
            assert(range.contains(y));
            vstd::seq_lib::to_multiset_contains(range, y);
            vstd::seq_lib::to_multiset_contains(order@, y);
            assert(order@.contains(y));
            let u = choose|u: int| 0 <= u < order@.len() && order@[u] == y;
            assert(saturated(out@, inn@, max_out@, order@[u] as int));
        }
        assert(order@.subrange(0, n as int) =~= order@);
        assert(wiring(rows(out0), rows(inn0), max_out@, order@, cands) == (rows(out@), rows(inn@)));
    }
}

} // verus!

//! Shortest-path search: classic Dijkstra over the dense graph with a
//! min-priority queue of (cost, node) entries, plus path reconstruction
//! from the predecessor relation.
//!
//! The search keeps a tentative-distance table (absent = unreached), pops
//! the cheapest queue entry, discards stale entries, and relaxes every
//! incident edge under a strict improvement test.  When the target is
//! popped, the recorded distance is the cost of an actual walk from start
//! to target, which the contract states through a witness path; a run that
//! exhausts the queue reports "no path", a normal outcome, not an error,
//! and the contract shows it does so exactly when no walk joins the nodes.

use vstd::prelude::*;
use crate::geo::hav_dist;
use crate::graph::{Edge, Graph, OsmNode, edges_metric};

verus! {

/// A priority-queue entry: the tentative cost to reach a node.
#[derive(Clone, Copy, Debug, PartialEq, Eq, Structural)]
pub struct State {
    pub cost: u64,
    pub position: usize,
}

/// Edge e joins u and v (in either direction: edges are undirected).
pub open spec fn edge_links(e: Edge, u: int, v: int) -> bool {
    (e.a == u && e.b == v) || (e.b == u && e.a == v)
}

/// p is a walk from u to v along edge indices of g.
pub open spec fn is_path(g: Graph, u: int, v: int, p: Seq<int>) -> bool
    decreases p.len(),
{
    if p.len() == 0 {
        u == v
    } else {
        &&& 0 <= p[0] < g.edges@.len()
        &&& exists|m: int|
            #[trigger] edge_links(g.edges@[p[0]], u, m) && is_path(g, m, v, p.drop_first())
    }
}

/// Total weight of a walk given by edge indices.
pub open spec fn path_cost(g: Graph, p: Seq<int>) -> int
    decreases p.len(),
{
    if p.len() == 0 {
        0
    } else {
        g.edges@[p[0]].weight + path_cost(g, p.drop_first())
    }
}

/// Two nodes are connected when some walk joins them.
pub open spec fn connected(g: Graph, u: int, v: int) -> bool {
    exists|p: Seq<int>| is_path(g, u, v, p)
}

/// Every recorded predecessor is a valid index joined to its node by some
/// edge of the graph.
pub open spec fn pred_links_ok(g: Graph, preds: Seq<Option<usize>>) -> bool {
    forall|v: int|
        0 <= v < preds.len() ==> match #[trigger] preds[v] {
            Some(u) => (u as int) < preds.len() && exists|e: int|
                0 <= e < g.edges@.len() && edge_links(g.edges@[e], u as int, v),
            None => true,
        }
}

/// Appending an edge that joins the walk's endpoint to w extends the walk,
/// and adds exactly that edge's weight.
proof fn lemma_path_extend(g: Graph, u: int, v: int, w: int, p: Seq<int>, e: int)
    requires
        is_path(g, u, v, p),
        0 <= e < g.edges@.len(),
        edge_links(g.edges@[e], v, w),
    ensures
        is_path(g, u, w, p.push(e)),
        path_cost(g, p.push(e)) == path_cost(g, p) + g.edges@[e].weight,
    decreases p.len(),
{
    if p.len() == 0 {
        assert(p.push(e)[0] == e);
        assert(p.push(e).drop_first() =~= Seq::<int>::empty());
        assert(edge_links(g.edges@[p.push(e)[0]], u, w) && is_path(
            g,
            w,
            w,
            p.push(e).drop_first(),
        ));
        assert(path_cost(g, p.push(e).drop_first()) == 0);
        assert(path_cost(g, p.push(e)) == g.edges@[e].weight + 0);
    } else {
        assert(exists|m: int|
            #[trigger] edge_links(g.edges@[p[0]], u, m) && is_path(g, m, v, p.drop_first()));
        let m = choose|m: int|
            #[trigger] edge_links(g.edges@[p[0]], u, m) && is_path(g, m, v, p.drop_first());
        lemma_path_extend(g, m, v, w, p.drop_first(), e);
        assert(p.push(e).drop_first() =~= p.drop_first().push(e));
        assert(p.push(e)[0] == p[0]);
        assert(edge_links(g.edges@[p.push(e)[0]], u, m) && is_path(
            g,
            m,
            w,
            p.push(e).drop_first(),
        ));
        assert(path_cost(g, p.push(e)) == g.edges@[p[0]].weight + path_cost(
            g,
            p.drop_first().push(e),
        ));
    }
}

/// The distance-metric total along a walk, summed edge by edge over the
/// endpoints' coordinates in the node table.
pub open spec fn path_metric_sum(g: Graph, t: Seq<OsmNode>, p: Seq<int>) -> int
    decreases p.len(),
{
    if p.len() == 0 {
        0
    } else {
        hav_dist(
            t[g.edges@[p[0]].a as int].lat as int,
            t[g.edges@[p[0]].a as int].lon as int,
            t[g.edges@[p[0]].b as int].lat as int,
            t[g.edges@[p[0]].b as int].lon as int,
        ) + path_metric_sum(g, t, p.drop_first())
    }
}

/// In a metric-weighted graph the cost of any walk equals the summed
/// great-circle distances between its consecutive points.
pub proof fn lemma_path_cost_is_metric_sum(g: Graph, t: Seq<OsmNode>, u: int, v: int, p: Seq<int>)
    requires
        edges_metric(g.edges@, t),
        is_path(g, u, v, p),
    ensures
        path_cost(g, p) == path_metric_sum(g, t, p),
    decreases p.len(),
{
    if p.len() > 0 {
        assert(exists|m: int|
            #[trigger] edge_links(g.edges@[p[0]], u, m) && is_path(g, m, v, p.drop_first()));
        let m = choose|m: int|
            #[trigger] edge_links(g.edges@[p[0]], u, m) && is_path(g, m, v, p.drop_first());
        lemma_path_cost_is_metric_sum(g, t, m, v, p.drop_first());
    }
}

/// The total that the search reports for a metric-weighted graph is the
/// summed distance metric along an actual start-to-end walk.
pub proof fn lemma_total_is_metric_sum(g: Graph, t: Seq<OsmNode>, start: int, end: int, total: int)
    requires
        edges_metric(g.edges@, t),
        exists|p: Seq<int>| is_path(g, start, end, p) && path_cost(g, p) == total,
    ensures
        exists|p: Seq<int>| is_path(g, start, end, p) && path_metric_sum(g, t, p) == total,
{
    let p = choose|p: Seq<int>| is_path(g, start, end, p) && path_cost(g, p) == total;
    lemma_path_cost_is_metric_sum(g, t, start, end, p);
    assert(is_path(g, start, end, p) && path_metric_sum(g, t, p) == total);
}

/// The distance-metric total along an ordered node path, summed over its
/// consecutive points.
pub open spec fn route_metric_sum(t: Seq<OsmNode>, p: Seq<usize>) -> int
    decreases p.len(),
{
    if p.len() <= 1 {
        0
    } else {
        route_metric_sum(t, p.drop_last()) + hav_dist(
            t[p[p.len() - 2] as int].lat as int,
            t[p[p.len() - 2] as int].lon as int,
            t[p.last() as int].lat as int,
            t[p.last() as int].lon as int,
        )
    }
}

/// In a graph whose edges are weighted by the distance metric of their
/// endpoints, the search's total -- carried by the predecessor chain --
/// equals the metric summed over the reconstructed path's consecutive
/// points.
pub proof fn lemma_route_total_is_metric_sum(
    g: Graph,
    t: Seq<OsmNode>,
    preds: Seq<Option<usize>>,
    p: Seq<usize>,
    start: usize,
    end: usize,
    total: int,
    fuel: int,
)
    requires
        edges_metric(g.edges@, t),
        g.wf(),
        g.node_count <= t.len(),
        preds.len() == t.len(),
        chain_cost_ok(g, preds, start as int, end as int, total, fuel),
        preds[start as int] is None,
        (start as int) < preds.len(),
        p.len() >= 1,
        p[0] == start,
        p[p.len() - 1] == end,
        forall|i: int| 0 <= i < p.len() ==> (#[trigger] p[i]) < preds.len(),
        forall|i: int| 1 <= i < p.len() ==> preds[(#[trigger] p[i]) as int] == Some(p[i - 1]),
    ensures
        total == route_metric_sum(t, p),
    decreases p.len(),
{
    if p.len() == 1 {
        assert(end == start);
    } else {
        assert(preds[p[p.len() - 1] as int] == Some(p[p.len() - 2]));
        assert(end != start);
        let u = p[p.len() - 2];
        let e0 = choose|e: int|
            0 <= e < g.edges@.len() && #[trigger] edge_links(g.edges@[e], u as int, end as int)
                && g.edges@[e].weight <= total && chain_cost_ok(
                g,
                preds,
                start as int,
                u as int,
                total - g.edges@[e].weight,
                fuel - 1,
            );
        let w: int = g.edges@[e0].weight as int;
        crate::geo::lemma_distance_symmetric(
            t[end as int].lat as int,
            t[end as int].lon as int,
            t[u as int].lat as int,
            t[u as int].lon as int,
        );
        assert(w == hav_dist(
            t[u as int].lat as int,
            t[u as int].lon as int,
            t[end as int].lat as int,
            t[end as int].lon as int,
        ));
        let pp = p.drop_last();
        assert(pp[0] == p[0]);
        assert(pp[pp.len() - 1] == u);
        assert forall|i: int| 1 <= i < pp.len() implies preds[(#[trigger] pp[i]) as int] == Some(
            pp[i - 1],
        ) by {
            assert(pp[i] == p[i] && pp[i - 1] == p[i - 1]);
        }
        lemma_route_total_is_metric_sum(g, t, preds, pp, start, u, total - w, fuel - 1);
    }
}

/// Termination measure of the search: unreached nodes count as one more
/// than any reachable tentative distance, so every strict improvement
/// shrinks the total.
spec fn dist_sum(s: Seq<Option<u64>>) -> int
    decreases s.len(),
{
    if s.len() == 0 {
        0
    } else {
        dist_sum(s.drop_last()) + match s.last() {
            Some(d) => d as int,
            None => 0x1_0000_0000_0000_0000,
        }
    }
}

/// How many nodes have a tentative distance recorded.
spec fn assigned_count(s: Seq<Option<u64>>) -> int
    decreases s.len(),
{
    if s.len() == 0 {
        0
    } else {
        assigned_count(s.drop_last()) + match s.last() {
            Some(_) => 1int,
            None => 0int,
        }
    }
}

proof fn lemma_dist_stats_nonneg(s: Seq<Option<u64>>)
    ensures
        dist_sum(s) >= 0,
        0 <= assigned_count(s) <= s.len(),
    decreases s.len(),
{
    if s.len() > 0 {
        lemma_dist_stats_nonneg(s.drop_last());
    }
}

proof fn lemma_update_stats(s: Seq<Option<u64>>, i: int, x: u64)
    requires
        0 <= i < s.len(),
        match s[i] {
            Some(d) => x < d,
            None => true,
        },
    ensures
        dist_sum(s.update(i, Some(x))) < dist_sum(s),
        assigned_count(s.update(i, Some(x))) == assigned_count(s) + match s[i] {
            Some(_) => 0int,
            None => 1int,
        },
    decreases s.len(),
{
    let t = s.update(i, Some(x));
    if i == s.len() - 1 {
        assert(t.drop_last() =~= s.drop_last());
        assert(t.last() == Some(x));
    } else {
        assert(t.drop_last() =~= s.drop_last().update(i, Some(x)));
        assert(t.last() == s.last());
        lemma_update_stats(s.drop_last(), i, x);
    }
}

proof fn lemma_count_gap(s: Seq<Option<u64>>, i: int)
    requires
        0 <= i < s.len(),
        s[i] is None,
    ensures
        assigned_count(s) <= s.len() - 1,
    decreases s.len(),
{
    lemma_dist_stats_nonneg(s.drop_last());
    if i < s.len() - 1 {
        lemma_count_gap(s.drop_last(), i);
    }
}

/// Some queue entry carries node v at exactly its recorded distance.
spec fn has_witness(q: Seq<State>, dist: Seq<Option<u64>>, v: int) -> bool {
    exists|qi: int|
        0 <= qi < q.len() && (#[trigger] q[qi]).position == v && dist[v] == Some(q[qi].cost)
}

/// Some queue entry carries node v, at whatever cost.
spec fn has_entry(q: Seq<State>, v: int) -> bool {
    exists|qi: int| 0 <= qi < q.len() && (#[trigger] q[qi]).position == v
}

/// Node v has been fully relaxed: over every incident edge, the neighbor's
/// recorded distance is at most v's plus the edge weight.
spec fn relaxed_at(g: Graph, dist: Seq<Option<u64>>, v: int) -> bool {
    forall|e: int|
        0 <= e < g.edges@.len() ==> ((#[trigger] g.edges@[e]).a == v ==> dist[g.edges@[e].b
            as int] is Some && dist[g.edges@[e].b as int].unwrap() <= dist[v].unwrap()
            + g.edges@[e].weight) && (g.edges@[e].b == v ==> dist[g.edges@[e].a as int] is Some
            && dist[g.edges@[e].a as int].unwrap() <= dist[v].unwrap() + g.edges@[e].weight)
}

/// Relaxedness survives any pointwise improvement of the distance table
/// that leaves v's own distance unchanged.
proof fn lemma_relaxed_update(g: Graph, dist: Seq<Option<u64>>, dist2: Seq<Option<u64>>, v: int)
    requires
        relaxed_at(g, dist, v),
        dist2.len() == dist.len(),
        g.wf(),
        dist.len() == g.node_count,
        forall|x: int|
            0 <= x < dist.len() && (#[trigger] dist[x]) is Some ==> dist2[x] is Some
                && dist2[x].unwrap() <= dist[x].unwrap(),
        dist2[v] == dist[v],
    ensures
        relaxed_at(g, dist2, v),
{
    assert forall|e: int|
        0 <= e < g.edges@.len() implies ((#[trigger] g.edges@[e]).a == v ==> dist2[g.edges@[e].b
            as int] is Some && dist2[g.edges@[e].b as int].unwrap() <= dist2[v].unwrap()
            + g.edges@[e].weight) && (g.edges@[e].b == v ==> dist2[g.edges@[e].a
            as int] is Some && dist2[g.edges@[e].a as int].unwrap() <= dist2[v].unwrap()
            + g.edges@[e].weight) by {
        if g.edges@[e].a == v {
            assert(dist[g.edges@[e].b as int] is Some);
        }
        if g.edges@[e].b == v {
            assert(dist[g.edges@[e].a as int] is Some);
        }
    }
}

/// A set of nodes that is fully relaxed is closed under walks: the far end
/// of any walk out of it has a recorded distance too.
proof fn lemma_closure(g: Graph, dist: Seq<Option<u64>>, u: int, v: int, p: Seq<int>)
    requires
        dist.len() == g.node_count,
        g.wf(),
        forall|x: int|
            0 <= x < dist.len() && (#[trigger] dist[x]) is Some ==> relaxed_at(g, dist, x),
        0 <= u < dist.len(),
        dist[u] is Some,
        is_path(g, u, v, p),
    ensures
        0 <= v < dist.len(),
        dist[v] is Some,
    decreases p.len(),
{
    if p.len() > 0 {
        assert(exists|m: int|
            #[trigger] edge_links(g.edges@[p[0]], u, m) && is_path(g, m, v, p.drop_first()));
        let m = choose|m: int|
            #[trigger] edge_links(g.edges@[p[0]], u, m) && is_path(g, m, v, p.drop_first());
        assert(relaxed_at(g, dist, u));
        assert(0 <= p[0] < g.edges@.len());
        assert(dist[m] is Some && 0 <= m < dist.len());
        lemma_closure(g, dist, m, v, p.drop_first());
    }
}

/// Removes and returns a cheapest entry of the queue.
fn pop_min(queue: &mut Vec<State>) -> (r: State)
    requires
        old(queue)@.len() > 0,
    ensures
        old(queue)@.contains(r),
        final(queue)@.len() == old(queue)@.len() - 1,
        forall|i: int|
            0 <= i < final(queue)@.len() ==> old(queue)@.contains(#[trigger] final(queue)@[i]),
        forall|i: int| 0 <= i < old(queue)@.len() ==> r.cost <= (#[trigger] old(queue)@[i]).cost,
        exists|bi: int|
            0 <= bi < old(queue)@.len() && r == #[trigger] old(queue)@[bi] && final(queue)@
                == old(queue)@.update(bi, old(queue)@.last()).drop_last(),
{
    let mut best: usize = 0;
    let mut i: usize = 1;
    while i < queue.len()
        invariant
            best < i,
            i <= queue@.len(),
            0 < queue@.len(),
            forall|j: int|
                0 <= j < i ==> queue@[best as int].cost <= (#[trigger] queue@[j]).cost,
        decreases queue@.len() - i,
    {
        if queue[i].cost < queue[best].cost {
            best = i;
        }
        i += 1;
    }
    let ghost pre = queue@;
    let r = queue.swap_remove(best);
    proof {
        assert(pre[best as int] == r);
        assert(pre.contains(r));
        assert forall|j: int| 0 <= j < queue@.len() implies pre.contains(#[trigger] queue@[j]) by {
            if j == best {
                assert(queue@[j] == pre[pre.len() - 1]);
            } else {
                assert(queue@[j] == pre[j]);
            }
        }
        assert(0 <= (best as int) && (best as int) < pre.len() && r == pre[best as int] && queue@
            == pre.update(best as int, pre.last()).drop_last());
    }
    r
}

/// Sum of weights along any walk is non-negative.
proof fn lemma_path_cost_nonneg(g: Graph, u: int, v: int, p: Seq<int>)
    requires
        is_path(g, u, v, p),
    ensures
        path_cost(g, p) >= 0,
    decreases p.len(),
{
    if p.len() > 0 {
        assert(exists|m: int|
            #[trigger] edge_links(g.edges@[p[0]], u, m) && is_path(g, m, v, p.drop_first()));
        let m = choose|m: int|
            #[trigger] edge_links(g.edges@[p[0]], u, m) && is_path(g, m, v, p.drop_first());
        lemma_path_cost_nonneg(g, m, v, p.drop_first());
    }
}

/// A nonempty walk splits into the walk before its last edge and that edge.
proof fn lemma_path_split_last(g: Graph, u: int, v: int, p: Seq<int>)
    requires
        is_path(g, u, v, p),
        p.len() >= 1,
    ensures
        0 <= p.last() < g.edges@.len(),
        exists|m: int|
            #[trigger] edge_links(g.edges@[p.last()], m, v) && is_path(g, u, m, p.drop_last()),
        path_cost(g, p) == path_cost(g, p.drop_last()) + g.edges@[p.last()].weight,
    decreases p.len(),
{
    assert(exists|m0: int|
        #[trigger] edge_links(g.edges@[p[0]], u, m0) && is_path(g, m0, v, p.drop_first()));
    let m0 = choose|m0: int|
        #[trigger] edge_links(g.edges@[p[0]], u, m0) && is_path(g, m0, v, p.drop_first());
    if p.len() == 1 {
        assert(p.drop_first().len() == 0);
        assert(p.last() == p[0]);
        assert(p.drop_last() =~= Seq::<int>::empty());
        assert(edge_links(g.edges@[p.last()], u, v) && is_path(g, u, u, p.drop_last()));
        assert(path_cost(g, p.drop_first()) == 0);
    } else {
        lemma_path_split_last(g, m0, v, p.drop_first());
        let m = choose|m: int|
            #[trigger] edge_links(g.edges@[p.drop_first().last()], m, v) && is_path(
                g,
                m0,
                m,
                p.drop_first().drop_last(),
            );
        assert(p.drop_first().last() == p.last());
        assert(p.drop_first().drop_last() =~= p.drop_last().drop_first());
        assert(p.drop_last()[0] == p[0]);
        assert(edge_links(g.edges@[p.drop_last()[0]], u, m0) && is_path(
            g,
            m0,
            m,
            p.drop_last().drop_first(),
        ));
        assert(is_path(g, u, m, p.drop_last()));
        assert(edge_links(g.edges@[p.last()], m, v) && is_path(g, u, m, p.drop_last()));
        assert(path_cost(g, p) == g.edges@[p[0]].weight + path_cost(g, p.drop_first()));
        assert(path_cost(g, p.drop_last()) == g.edges@[p.drop_last()[0]].weight + path_cost(
            g,
            p.drop_last().drop_first(),
        ));
    }
}

/// The cut argument at a pop: since every unsettled reached node still has
/// a queue entry at its recorded distance, and every queue entry costs at
/// least the popped key, any walk out of the start pays at least the
/// target's recorded distance (or the key, if the target is beyond it).
proof fn lemma_cut(
    g: Graph,
    dist: Seq<Option<u64>>,
    done: Set<int>,
    q: Seq<State>,
    start: int,
    c: u64,
    z: int,
    p: Seq<int>,
)
    requires
        g.wf(),
        dist.len() == g.node_count,
        0 <= start < dist.len(),
        dist[start] == Some(0u64),
        forall|v: int|
            0 <= v < dist.len() && (#[trigger] dist[v]) is Some ==> has_witness(q, dist, v)
                || done.contains(v),
        forall|v: int|
            #[trigger] done.contains(v) ==> 0 <= v < dist.len() && dist[v] is Some && relaxed_at(
                g,
                dist,
                v,
            ),
        forall|qi: int| 0 <= qi < q.len() ==> (#[trigger] q[qi]).cost >= c,
        is_path(g, start, z, p),
        0 <= z < dist.len(),
    ensures
        path_cost(g, p) >= if dist[z] is Some && dist[z].unwrap() <= c {
            dist[z].unwrap() as int
        } else {
            c as int
        },
    decreases p.len(),
{
    if p.len() > 0 {
        lemma_path_split_last(g, start, z, p);
        let m = choose|m: int|
            #[trigger] edge_links(g.edges@[p.last()], m, z) && is_path(g, start, m, p.drop_last());
        assert(0 <= m < dist.len());
        lemma_cut(g, dist, done, q, start, c, m, p.drop_last());
        if dist[m] is Some && dist[m].unwrap() <= c {
            if has_witness(q, dist, m) {
                let wi = choose|qi: int|
                    0 <= qi < q.len() && (#[trigger] q[qi]).position == m && dist[m] == Some(
                        q[qi].cost,
                    );
                assert(q[wi].cost >= c);
                assert(dist[m].unwrap() == c);
            } else {
                assert(done.contains(m));
                assert(relaxed_at(g, dist, m));
                assert(dist[z] is Some && dist[z].unwrap() <= dist[m].unwrap() + g.edges@[
                    p.last()].weight);
            }
        }
    }
}

/// One recorded predecessor step is exact: it points from v, through a
/// specific edge, to a settled node whose recorded distance is smaller by
/// exactly that edge's weight; settled nodes are ordered by join time.
spec fn pred_exact(
    g: Graph,
    dist: Seq<Option<u64>>,
    preds: Seq<Option<usize>>,
    done: Set<int>,
    tm: Map<int, int>,
    v: int,
) -> bool {
    match preds[v] {
        Some(u) => {
            &&& u as int != v
            &&& (u as int) < dist.len()
            &&& dist[v] is Some
            &&& dist[u as int] is Some
            &&& done.contains(u as int)
            &&& exists|e: int|
                0 <= e < g.edges@.len() && #[trigger] edge_links(g.edges@[e], u as int, v)
                    && dist[u as int].unwrap() + g.edges@[e].weight == dist[v].unwrap()
            &&& (done.contains(v) ==> tm.contains_key(v) && tm.contains_key(u as int) && tm[u
                as int] < tm[v])
        },
        None => true,
    }
}

/// Exact predecessor steps survive pointwise distance changes that leave
/// the step's own two nodes alone.
proof fn lemma_pred_exact_stable(
    g: Graph,
    dist1: Seq<Option<u64>>,
    dist2: Seq<Option<u64>>,
    preds1: Seq<Option<usize>>,
    preds2: Seq<Option<usize>>,
    done: Set<int>,
    tm: Map<int, int>,
    v: int,
)
    requires
        pred_exact(g, dist1, preds1, done, tm, v),
        dist2.len() == dist1.len(),
        dist2[v] == dist1[v],
        preds2[v] == preds1[v],
        forall|x: int|
            #[trigger] done.contains(x) && 0 <= x < dist1.len() ==> dist2[x] == dist1[x],
    ensures
        pred_exact(g, dist2, preds2, done, tm, v),
{
    match preds1[v] {
        Some(u) => {
            let e0 = choose|e: int|
                0 <= e < g.edges@.len() && #[trigger] edge_links(g.edges@[e], u as int, v)
                    && dist1[u as int].unwrap() + g.edges@[e].weight == dist1[v].unwrap();
            assert(done.contains(u as int));
            assert(0 <= e0 < g.edges@.len() && edge_links(g.edges@[e0], u as int, v) && dist2[u
                as int].unwrap() + g.edges@[e0].weight == dist2[v].unwrap());
        },
        None => {},
    }
}

/// Measure of the predecessor descent: settled nodes descend by join time.
spec fn chain_measure(tm: Map<int, int>, start: int, u: int) -> int {
    if u == start {
        0
    } else {
        tm[u] + 1
    }
}

/// Telescoping the exact predecessor steps of a settled node back to the
/// start yields a chain whose edge weights sum to its recorded distance.
proof fn lemma_chain_done(
    g: Graph,
    dist: Seq<Option<u64>>,
    preds: Seq<Option<usize>>,
    done: Set<int>,
    tm: Map<int, int>,
    start: int,
    u: int,
    fuel: int,
)
    requires
        dist.len() == preds.len(),
        0 <= start < dist.len(),
        dist[start] == Some(0u64),
        0 <= u < dist.len(),
        dist[u] is Some,
        forall|v: int| 0 <= v < preds.len() ==> #[trigger] pred_exact(g, dist, preds, done, tm, v),
        forall|v: int|
            0 <= v < dist.len() && (#[trigger] dist[v]) is Some && v != start ==> preds[v] is Some,
        forall|v: int| #[trigger] done.contains(v) ==> tm.contains_key(v) && 0 <= tm[v],
        u == start || (done.contains(u) && fuel >= tm[u] + 1),
        fuel >= 0,
    ensures
        chain_cost_ok(g, preds, start, u, dist[u].unwrap() as int, fuel),
    decreases chain_measure(tm, start, u),
{
    if u != start {
        assert(preds[u] is Some);
        assert(pred_exact(g, dist, preds, done, tm, u));
        let pu = preds[u].unwrap();
        let e0 = choose|e: int|
            0 <= e < g.edges@.len() && #[trigger] edge_links(g.edges@[e], pu as int, u) && dist[pu
                as int].unwrap() + g.edges@[e].weight == dist[u].unwrap();
        lemma_chain_done(g, dist, preds, done, tm, start, pu as int, fuel - 1);
        assert(0 <= e0 < g.edges@.len() && edge_links(g.edges@[e0], pu as int, u) && g.edges@[
            e0].weight <= dist[u].unwrap() as int && chain_cost_ok(
            g,
            preds,
            start,
            pu as int,
            dist[u].unwrap() - g.edges@[e0].weight,
            fuel - 1,
        ));
        assert(chain_cost_ok(g, preds, start, u, dist[u].unwrap() as int, fuel));
    }
}

/// One relaxation step restores the search invariants: the improved
/// neighbor gains a fresh queue witness and an exact predecessor step
/// through the relaxing edge, everything else is preserved pointwise.
proof fn lemma_relax_restores(
    g: Graph,
    dist_old: Seq<Option<u64>>,
    dist: Seq<Option<u64>>,
    preds_old: Seq<Option<usize>>,
    preds: Seq<Option<usize>>,
    q_old: Seq<State>,
    q: Seq<State>,
    done: Set<int>,
    tm: Map<int, int>,
    pos: usize,
    nb: usize,
    ei: int,
    cand: u64,
    n: int,
    end: int,
)
    requires
        g.wf(),
        dist_old.len() == g.node_count,
        dist_old.len() == n,
        preds_old.len() == n,
        0 <= end < n,
        (nb as int) < n,
        (pos as int) < n,
        nb != pos,
        0 <= ei < g.edges@.len(),
        edge_links(g.edges@[ei], pos as int, nb as int),
        dist_old[pos as int] is Some,
        dist_old[pos as int].unwrap() + g.edges@[ei].weight == cand,
        dist == dist_old.update(nb as int, Some(cand)),
        preds == preds_old.update(nb as int, Some(pos)),
        q == q_old.push(State { cost: cand, position: nb }),
        done.contains(pos as int),
        !done.contains(nb as int),
        match dist_old[nb as int] {
            Some(d) => cand < d,
            None => true,
        },
        forall|v: int|
            0 <= v < n && (#[trigger] dist_old[v]) is Some ==> has_witness(q_old, dist_old, v)
                || done.contains(v),
        forall|v: int|
            #[trigger] done.contains(v) ==> 0 <= v < n && dist_old[v] is Some && (v == pos as int
                || relaxed_at(g, dist_old, v)),
        forall|v: int|
            0 <= v < n ==> #[trigger] pred_exact(g, dist_old, preds_old, done, tm, v),
        dist_old[end] is Some ==> has_entry(q_old, end),
    ensures
        forall|x: int|
            0 <= x < n && (#[trigger] dist_old[x]) is Some ==> dist[x] is Some
                && dist[x].unwrap() <= dist_old[x].unwrap(),
        forall|v: int|
            0 <= v < n && (#[trigger] dist[v]) is Some ==> has_witness(q, dist, v)
                || done.contains(v),
        forall|v: int|
            #[trigger] done.contains(v) && v != pos as int ==> relaxed_at(g, dist, v),
        forall|v: int| 0 <= v < n ==> #[trigger] pred_exact(g, dist, preds, done, tm, v),
        dist[end] is Some ==> has_entry(q, end),
{
    assert forall|x: int|
        0 <= x < n && (#[trigger] dist_old[x]) is Some implies dist[x] is Some && dist[x].unwrap()
            <= dist_old[x].unwrap() by {}
    assert(q[q.len() - 1] == State { cost: cand, position: nb });
    assert(has_witness(q, dist, nb as int));
    assert forall|v: int|
        0 <= v < n && (#[trigger] dist[v]) is Some && v != nb as int implies has_witness(
        q,
        dist,
        v,
    ) || done.contains(v) by {
        assert(dist[v] == dist_old[v]);
        if has_witness(q_old, dist_old, v) {
            let wi = choose|qi: int|
                0 <= qi < q_old.len() && (#[trigger] q_old[qi]).position == v && dist_old[v]
                    == Some(q_old[qi].cost);
            assert(q[wi] == q_old[wi]);
            assert(has_witness(q, dist, v));
        }
    }
    assert forall|v: int|
        #[trigger] done.contains(v) && v != pos as int implies relaxed_at(g, dist, v) by {
        lemma_relaxed_update(g, dist_old, dist, v);
    }
    assert forall|v: int| 0 <= v < n implies #[trigger] pred_exact(g, dist, preds, done, tm, v) by {
        if v == nb as int {
            assert(edge_links(g.edges@[ei], pos as int, nb as int) && dist[pos as int].unwrap()
                + g.edges@[ei].weight == dist[nb as int].unwrap());
        } else {
            assert(pred_exact(g, dist_old, preds_old, done, tm, v));
            lemma_pred_exact_stable(g, dist_old, dist, preds_old, preds, done, tm, v);
        }
    }
    if dist[end] is Some {
        if nb as int == end {
            assert(has_entry(q, end));
        } else {
            assert(dist_old[end] is Some);
            let wi = choose|qi: int| 0 <= qi < q_old.len() && (#[trigger] q_old[qi]).position == end;
            assert(q[wi] == q_old[wi]);
            assert(has_entry(q, end));
        }
    }
}

/// Removing the popped entry keeps every reached node witnessed, settled,
/// or equal to the popped node at the popped cost; an entry for the target
/// survives any pop of another node.
proof fn lemma_after_pop(
    dist: Seq<Option<u64>>,
    done: Set<int>,
    q0: Seq<State>,
    q1: Seq<State>,
    s: State,
    n: int,
    end: int,
)
    requires
        dist.len() == n,
        0 <= end < n,
        s.position as int != end,
        forall|v: int|
            0 <= v < n && (#[trigger] dist[v]) is Some ==> has_witness(q0, dist, v)
                || done.contains(v),
        dist[end] is Some ==> has_entry(q0, end),
        exists|bi: int|
            0 <= bi < q0.len() && s == #[trigger] q0[bi] && q1 == q0.update(
                bi,
                q0.last(),
            ).drop_last(),
    ensures
        forall|v: int|
            0 <= v < n && (#[trigger] dist[v]) is Some ==> has_witness(q1, dist, v)
                || done.contains(v) || (v == s.position as int && dist[v] == Some(s.cost)),
        dist[end] is Some ==> has_entry(q1, end),
{
    let bi = choose|bi: int|
        0 <= bi < q0.len() && s == #[trigger] q0[bi] && q1 == q0.update(bi, q0.last()).drop_last();
    assert forall|v: int|
        0 <= v < n && (#[trigger] dist[v]) is Some implies has_witness(q1, dist, v)
            || done.contains(v) || (v == s.position as int && dist[v] == Some(s.cost)) by {
        if has_witness(q0, dist, v) {
            let wi = choose|qi: int|
                0 <= qi < q0.len() && (#[trigger] q0[qi]).position == v && dist[v] == Some(
                    q0[qi].cost,
                );
            if wi == bi {
                assert(v == s.position as int && dist[v] == Some(s.cost));
            } else if wi < q0.len() - 1 {
                assert(q1[wi] == q0[wi]);
                assert(has_witness(q1, dist, v));
            } else {
                assert(q1[bi] == q0[wi]);
                assert(has_witness(q1, dist, v));
            }
        }
    }
    if dist[end] is Some {
        let wi = choose|qi: int| 0 <= qi < q0.len() && (#[trigger] q0[qi]).position == end;
        if wi == bi {
            assert(false);
        } else if wi < q0.len() - 1 {
            assert(q1[wi] == q0[wi]);
        } else {
            assert(q1[bi] == q0[wi]);
        }
        assert(has_entry(q1, end));
    }
}

/// Settling the popped node keeps every predecessor step exact: the new
/// member's join time exceeds every earlier one.
proof fn lemma_join_keeps_pred_exact(
    g: Graph,
    dist: Seq<Option<u64>>,
    preds: Seq<Option<usize>>,
    done0: Set<int>,
    tm0: Map<int, int>,
    ctr0: int,
    done: Set<int>,
    tm: Map<int, int>,
    pos: int,
)
    requires
        forall|v: int|
            0 <= v < preds.len() ==> #[trigger] pred_exact(g, dist, preds, done0, tm0, v),
        forall|v: int| #[trigger] done0.contains(v) ==> tm0.contains_key(v) && tm0[v] < ctr0,
        done == if done0.contains(pos) { done0 } else { done0.insert(pos) },
        tm == if done0.contains(pos) { tm0 } else { tm0.insert(pos, ctr0) },
    ensures
        forall|v: int| 0 <= v < preds.len() ==> #[trigger] pred_exact(g, dist, preds, done, tm, v),
{
    assert forall|v: int|
        0 <= v < preds.len() implies #[trigger] pred_exact(g, dist, preds, done, tm, v) by {
        assert(pred_exact(g, dist, preds, done0, tm0, v));
        match preds[v] {
            Some(u) => {
                assert(done0.contains(u as int));
                assert(done.contains(u as int));
                if done.contains(v) {
                    if v == pos && !done0.contains(pos) {
                        assert(u as int != pos);
                        assert(tm[u as int] == tm0[u as int]);
                        assert(tm0[u as int] < ctr0);
                        assert(tm[v] == ctr0);
                    } else {
                        assert(done0.contains(v));
                        assert(tm0[u as int] < tm0[v]);
                        assert(u as int != pos || done0.contains(pos));
                    }
                }
            },
            None => {},
        }
    }
}

/// At the pop of the target: the recorded distance is minimal over all
/// start-to-end walks, and the predecessor chain out of the target
/// telescopes back to the start with exactly that total.
proof fn lemma_target_popped(
    g: Graph,
    dist: Seq<Option<u64>>,
    preds: Seq<Option<usize>>,
    done: Set<int>,
    tm: Map<int, int>,
    ctr: int,
    q0: Seq<State>,
    start: int,
    end: int,
    c: u64,
    total: u64,
)
    requires
        g.wf(),
        dist.len() == g.node_count,
        preds.len() == g.node_count,
        0 <= start < dist.len(),
        0 <= end < dist.len(),
        start != end,
        dist[start] == Some(0u64),
        dist[end] is Some,
        total == dist[end].unwrap(),
        total <= c,
        forall|v: int|
            0 <= v < dist.len() && (#[trigger] dist[v]) is Some ==> has_witness(q0, dist, v)
                || done.contains(v),
        forall|v: int|
            #[trigger] done.contains(v) ==> 0 <= v < dist.len() && dist[v] is Some && relaxed_at(
                g,
                dist,
                v,
            ),
        forall|qi: int| 0 <= qi < q0.len() ==> (#[trigger] q0[qi]).cost >= c,
        forall|v: int| 0 <= v < preds.len() ==> #[trigger] pred_exact(g, dist, preds, done, tm, v),
        forall|v: int|
            0 <= v < dist.len() && (#[trigger] dist[v]) is Some && v != start ==> preds[v] is Some,
        forall|v: int| #[trigger] done.contains(v) ==> tm.contains_key(v) && 0 <= tm[v] && tm[v]
            < ctr,
        done.finite(),
        ctr == done.len(),
        !done.contains(end),
    ensures
        forall|p: Seq<int>| is_path(g, start, end, p) ==> path_cost(g, p) >= total as int,
        chain_cost_ok(g, preds, start, end, total as int, g.node_count as int),
        forall|v: int| 0 <= v < preds.len() ==> (#[trigger] preds[v]) != Some(v as usize),
{
    let n: int = g.node_count as int;
    assert forall|p: Seq<int>| is_path(g, start, end, p) implies path_cost(g, p) >= total
        as int by {
        lemma_cut(g, dist, done, q0, start, c, end, p);
    }
    assert(preds[end] is Some);
    assert(pred_exact(g, dist, preds, done, tm, end));
    let u0 = preds[end].unwrap();
    let e0 = choose|e: int|
        0 <= e < g.edges@.len() && #[trigger] edge_links(g.edges@[e], u0 as int, end) && dist[u0
            as int].unwrap() + g.edges@[e].weight == dist[end].unwrap();
    vstd::set_lib::lemma_int_range(0, n);
    let allowed = vstd::set_lib::set_int_range(0, n).remove(end);
    assert forall|x: int| done.contains(x) implies allowed.contains(x) by {}
    vstd::set_lib::lemma_len_subset(done, allowed);
    vstd::set::axiom_set_remove_len(vstd::set_lib::set_int_range(0, n), end);
    assert(done.len() <= n - 1);
    if u0 as int != start {
        assert(tm[u0 as int] + 1 <= n - 1);
    }
    lemma_chain_done(g, dist, preds, done, tm, start, u0 as int, n - 1);
    assert(0 <= e0 < g.edges@.len() && edge_links(g.edges@[e0], u0 as int, end) && g.edges@[
        e0].weight <= total as int && chain_cost_ok(
        g,
        preds,
        start,
        u0 as int,
        total - g.edges@[e0].weight,
        n - 1,
    ));
    assert(chain_cost_ok(g, preds, start, end, total as int, n));
    assert forall|v: int| 0 <= v < preds.len() implies (#[trigger] preds[v]) != Some(v as usize) by {
        assert(pred_exact(g, dist, preds, done, tm, v));
    }
}

/// Single-source shortest path between two dense node indices.
///
/// A successful result carries the minimum total: it is the weight of an
/// actual walk from start to end (stated through a witness path, and again
/// through the returned predecessor chain, whose edge weights telescope to
/// the total), and no start-to-end walk costs less.  Equal start and end
/// yield cost zero at once.  An exhausted queue yields no result: the nodes
/// are not joined.
#[verifier::rlimit(100)]
pub fn dijkstra_path(g: &Graph, start: usize, end: usize) -> (r: Option<(u64, Vec<Option<usize>>)>)
    requires
        g.wf(),
        g.node_count < 4_294_967_296,
        start < g.node_count,
        end < g.node_count,
    ensures
        match r {
            Some(res) => {
                &&& exists|p: Seq<int>|
                    is_path(*g, start as int, end as int, p) && path_cost(*g, p) == res.0 as int
                &&& forall|p: Seq<int>|
                    is_path(*g, start as int, end as int, p) ==> path_cost(*g, p) >= res.0 as int
                &&& connected(*g, start as int, end as int)
                &&& res.1@.len() == g.node_count
                &&& res.1@[start as int] is None
                &&& pred_links_ok(*g, res.1@)
                &&& chain_cost_ok(*g, res.1@, start as int, end as int, res.0 as int, g.node_count as int)
                &&& forall|v: int| 0 <= v < res.1@.len() ==> (#[trigger] res.1@[v]) != Some(v as usize)
                &&& (start == end ==> res.0 == 0)
            },
            None => start != end && !connected(*g, start as int, end as int),
        },
        !connected(*g, start as int, end as int) ==> r is None,
{
    let n: usize = g.node_count;
    let mut dist: Vec<Option<u64>> = Vec::new();
    let mut preds: Vec<Option<usize>> = Vec::new();
    let mut i: usize = 0;
    while i < n
        invariant
            i <= n,
            dist@.len() == i,
            preds@.len() == i,
            forall|v: int| 0 <= v < i ==> (#[trigger] dist@[v]) is None,
            forall|v: int| 0 <= v < i ==> (#[trigger] preds@[v]) is None,
        decreases n - i,
    {
        dist.push(None);
        preds.push(None);
        i += 1;
    }
    if start == end {
        proof {
            assert(is_path(*g, start as int, end as int, Seq::<int>::empty()));
            assert(path_cost(*g, Seq::<int>::empty()) == 0);
            assert forall|p: Seq<int>|
                is_path(*g, start as int, end as int, p) implies path_cost(*g, p) >= 0int by {
                lemma_path_cost_nonneg(*g, start as int, end as int, p);
            }
            assert(chain_cost_ok(*g, preds@, start as int, end as int, 0int, g.node_count as int));
        }
        return Some((0, preds));
    }
    dist[start] = Some(0);
    let mut queue: Vec<State> = Vec::new();
    queue.push(State { cost: 0, position: start });
    let ghost mut paths: Map<int, Seq<int>> = Map::<int, Seq<int>>::empty().insert(
        start as int,
        Seq::empty(),
    );
    let ghost mut done: Set<int> = Set::empty();
    let ghost mut tm: Map<int, int> = Map::empty();
    let ghost mut ctr: int = 0;
    let ghost mut key: u64 = 0;
    proof {
        assert(is_path(*g, start as int, start as int, Seq::<int>::empty()));
        assert(path_cost(*g, Seq::<int>::empty()) == 0);
        lemma_dist_stats_nonneg(dist@);
        assert(0 <= 20_015_086 * assigned_count(dist@));
        assert(queue@[0] == State { cost: 0u64, position: start });
        assert(has_witness(queue@, dist@, start as int));
        assert(dist@[end as int] is None);
    }
    while queue.len() > 0
        invariant
            n == g.node_count,
            g.wf(),
            start < n,
            end < n,
            n < 4_294_967_296,
            start != end,
            dist@.len() == n,
            preds@.len() == n,
            dist@[start as int] == Some(0u64),
            preds@[start as int] is None,
            pred_links_ok(*g, preds@),
            forall|v: int|
                0 <= v < n ==> match #[trigger] dist@[v] {
                    Some(dv) => paths.contains_key(v) && is_path(*g, start as int, v, paths[v])
                        && path_cost(*g, paths[v]) == dv as int && dv as int <= 20_015_086
                        * assigned_count(dist@),
                    None => preds@[v] is None,
                },
            forall|qi: int|
                0 <= qi < queue@.len() ==> (#[trigger] queue@[qi]).position < n && dist@[(
                queue@[qi].position) as int] is Some && dist@[(queue@[qi].position) as int].unwrap()
                    <= queue@[qi].cost && queue@[qi].cost >= key,
            forall|v: int|
                0 <= v < n && (#[trigger] dist@[v]) is Some ==> has_witness(queue@, dist@, v)
                    || done.contains(v),
            forall|v: int|
                #[trigger] done.contains(v) ==> 0 <= v < n && dist@[v] is Some && dist@[v].unwrap()
                    <= key && relaxed_at(*g, dist@, v),
            forall|v: int| 0 <= v < n ==> #[trigger] pred_exact(*g, dist@, preds@, done, tm, v),
            forall|v: int|
                0 <= v < n && (#[trigger] dist@[v]) is Some && v != start as int
                    ==> preds@[v] is Some,
            forall|v: int| #[trigger] done.contains(v) ==> tm.contains_key(v) && 0 <= tm[v] && tm[v]
                < ctr,
            done.finite(),
            ctr == done.len(),
            !done.contains(end as int),
            dist@[end as int] is Some ==> has_entry(queue@, end as int),
        decreases dist_sum(dist@), queue@.len(),
    {
        proof {
            lemma_dist_stats_nonneg(dist@);
        }
        let ghost q0 = queue@;
        let s: State = pop_min(&mut queue);
        let pos: usize = s.position;
        if pos == end {
            let de: Option<u64> = dist[end];
            let total: u64 = de.unwrap();
            proof {
                assert(is_path(*g, start as int, end as int, paths[end as int]));
                assert(path_cost(*g, paths[end as int]) == total as int);
                assert(total <= s.cost);
                lemma_target_popped(
                    *g,
                    dist@,
                    preds@,
                    done,
                    tm,
                    ctr,
                    q0,
                    start as int,
                    end as int,
                    s.cost,
                    total,
                );
            }
            return Some((total, preds));
        }
        let dp: Option<u64> = dist[pos];
        let cur: u64 = dp.unwrap();
        proof {
            lemma_after_pop(dist@, done, q0, queue@, s, n as int, end as int);
            key = s.cost;
        }
        if s.cost <= cur {
            proof {
                assert(s.cost == cur);
                let ghost done0 = done;
                let ghost tm0 = tm;
                let ghost ctr0 = ctr;
                if !done.contains(pos as int) {
                    vstd::set::axiom_set_insert_len(done, pos as int);
                    done = done.insert(pos as int);
                    tm = tm.insert(pos as int, ctr);
                    ctr = ctr + 1;
                }
                lemma_join_keeps_pred_exact(
                    *g,
                    dist@,
                    preds@,
                    done0,
                    tm0,
                    ctr0,
                    done,
                    tm,
                    pos as int,
                );
            }
            let m: usize = g.edges.len();
            let ghost sum_pre = dist_sum(dist@);
            let ghost qlen_pre = queue@.len();
            let mut ei: usize = 0;
            while ei < m
                invariant
                    n == g.node_count,
                    g.wf(),
                    start < n,
                    end < n,
                    n < 4_294_967_296,
                    start != end,
                    dist@.len() == n,
                    preds@.len() == n,
                    dist@[start as int] == Some(0u64),
                    preds@[start as int] is None,
                    pred_links_ok(*g, preds@),
                    forall|v: int|
                        0 <= v < n ==> match #[trigger] dist@[v] {
                            Some(dv) => paths.contains_key(v) && is_path(
                                *g,
                                start as int,
                                v,
                                paths[v],
                            ) && path_cost(*g, paths[v]) == dv as int && dv as int <= 20_015_086
                                * assigned_count(dist@),
                            None => preds@[v] is None,
                        },
                    forall|qi: int|
                        0 <= qi < queue@.len() ==> (#[trigger] queue@[qi]).position < n && dist@[(
                        queue@[qi].position) as int] is Some && dist@[(queue@[qi].position) as int].unwrap()
                            <= queue@[qi].cost && queue@[qi].cost >= key,
                    forall|v: int|
                        0 <= v < n && (#[trigger] dist@[v]) is Some ==> has_witness(
                            queue@,
                            dist@,
                            v,
                        ) || done.contains(v),
                    forall|v: int|
                        #[trigger] done.contains(v) ==> 0 <= v < n && dist@[v] is Some
                            && dist@[v].unwrap() <= key && (v == pos as int || relaxed_at(
                            *g,
                            dist@,
                            v,
                        )),
                    forall|v: int|
                        0 <= v < n ==> #[trigger] pred_exact(*g, dist@, preds@, done, tm, v),
                    forall|v: int|
                        0 <= v < n && (#[trigger] dist@[v]) is Some && v != start as int
                            ==> preds@[v] is Some,
                    forall|v: int|
                        #[trigger] done.contains(v) ==> tm.contains_key(v) && 0 <= tm[v] && tm[v]
                            < ctr,
                    done.finite(),
                    ctr == done.len(),
                    !done.contains(end as int),
                    done.contains(pos as int),
                    key == cur,
                    dist@[end as int] is Some ==> has_entry(queue@, end as int),
                    ei <= m,
                    m == g.edges@.len(),
                    pos < n,
                    dist@[pos as int] == Some(cur),
                    dist_sum(dist@) <= sum_pre,
                    dist_sum(dist@) == sum_pre ==> queue@.len() == qlen_pre,
                    forall|e: int|
                        0 <= e < ei ==> ((#[trigger] g.edges@[e]).a == pos
                            ==> dist@[g.edges@[e].b as int] is Some
                            && dist@[g.edges@[e].b as int].unwrap() <= cur + g.edges@[e].weight)
                            && (g.edges@[e].b == pos
                            ==> dist@[g.edges@[e].a as int] is Some
                            && dist@[g.edges@[e].a as int].unwrap() <= cur + g.edges@[e].weight),
                decreases m - ei,
            {
                let e: Edge = g.edges[ei];
                if e.a == pos {
                    let nb: usize = e.b;
                    let dn: Option<u64> = dist[nb];
                    proof {
                        lemma_dist_stats_nonneg(dist@);
                        assert(cur as int <= 20_015_086 * (n as int));
                    }
                    let cand: u64 = cur + e.weight;
                    let improve: bool = match dn {
                        Some(d) => cand < d,
                        None => true,
                    };
                    if improve {
                        let ghost dist_old = dist@;
                        let ghost preds_old = preds@;
                        let ghost q_old = queue@;
                        proof {
                            assert(nb != start);
                            assert(nb != pos);
                            assert(!done.contains(nb as int));
                            if dn is None {
                                lemma_count_gap(dist@, nb as int);
                            }
                            lemma_update_stats(dist@, nb as int, cand);
                            lemma_path_extend(
                                *g,
                                start as int,
                                pos as int,
                                nb as int,
                                paths[pos as int],
                                ei as int,
                            );
                            paths = paths.insert(nb as int, paths[pos as int].push(ei as int));
                        }
                        dist[nb] = Some(cand);
                        preds[nb] = Some(pos);
                        queue.push(State { cost: cand, position: nb });
                        proof {
                            assert(queue@ == q_old.push(State { cost: cand, position: nb }));
                            assert(dist@ == dist_old.update(nb as int, Some(cand)));
                            assert forall|x: int|
                                0 <= x < n && (#[trigger] dist_old[x]) is Some implies dist@[x] is Some
                                    && dist@[x].unwrap() <= dist_old[x].unwrap() by {}
                            assert(queue@[queue@.len() - 1] == State {
                                cost: cand,
                                position: nb,
                            });
                            assert(has_witness(queue@, dist@, nb as int));
                            assert forall|v: int|
                                0 <= v < n && (#[trigger] dist@[v]) is Some && v != nb
                                    as int implies has_witness(queue@, dist@, v) || done.contains(
                                v,
                            ) by {
                                assert(dist@[v] == dist_old[v]);
                                if has_witness(q_old, dist_old, v) {
                                    let wi = choose|qi: int|
                                        0 <= qi < q_old.len() && (#[trigger] q_old[qi]).position
                                            == v && dist_old[v] == Some(q_old[qi].cost);
                                    assert(queue@[wi] == q_old[wi]);
                                    assert(has_witness(queue@, dist@, v));
                                }
                            }
                            assert forall|v: int|
                                #[trigger] done.contains(v) && v != pos as int implies relaxed_at(
                                *g,
                                dist@,
                                v,
                            ) by {
                                lemma_relaxed_update(*g, dist_old, dist@, v);
                            }
                            assert forall|v: int|
                                0 <= v < n implies #[trigger] pred_exact(
                                *g,
                                dist@,
                                preds@,
                                done,
                                tm,
                                v,
                            ) by {
                                if v == nb as int {
                                    assert(0 <= (ei as int) && (ei as int) < g.edges@.len()
                                        && edge_links(
                                        g.edges@[ei as int],
                                        pos as int,
                                        nb as int,
                                    ) && dist@[pos as int].unwrap() + g.edges@[ei as int].weight
                                        == dist@[nb as int].unwrap());
                                } else {
                                    assert(pred_exact(*g, dist_old, preds_old, done, tm, v));
                                    lemma_pred_exact_stable(
                                        *g,
                                        dist_old,
                                        dist@,
                                        preds_old,
                                        preds@,
                                        done,
                                        tm,
                                        v,
                                    );
                                }
                            }
                            if dist@[end as int] is Some {
                                if nb == end {
                                    assert(has_entry(queue@, end as int));
                                } else {
                                    assert(dist_old[end as int] is Some);
                                    let wi = choose|qi: int|
                                        0 <= qi < q_old.len() && (#[trigger] q_old[qi]).position
                                            == end as int;
                                    assert(queue@[wi] == q_old[wi]);
                                    assert(has_entry(queue@, end as int));
                                }
                            }
                        }
                    }
                }
                if e.b == pos {
                    let nb: usize = e.a;
                    let dn: Option<u64> = dist[nb];
                    proof {
                        lemma_dist_stats_nonneg(dist@);
                        assert(cur as int <= 20_015_086 * (n as int));
                    }
                    let cand: u64 = cur + e.weight;
                    let improve: bool = match dn {
                        Some(d) => cand < d,
                        None => true,
                    };
                    if improve {
                        let ghost dist_old = dist@;
                        let ghost preds_old = preds@;
                        let ghost q_old = queue@;
                        proof {
                            assert(nb != start);
                            assert(nb != pos);
                            assert(!done.contains(nb as int));
                            if dn is None {
                                lemma_count_gap(dist@, nb as int);
                            }
                            lemma_update_stats(dist@, nb as int, cand);
                            lemma_path_extend(
                                *g,
                                start as int,
                                pos as int,
                                nb as int,
                                paths[pos as int],
                                ei as int,
                            );
                            paths = paths.insert(nb as int, paths[pos as int].push(ei as int));
                        }
                        dist[nb] = Some(cand);
                        preds[nb] = Some(pos);
                        queue.push(State { cost: cand, position: nb });
                        proof {
                            assert(queue@ == q_old.push(State { cost: cand, position: nb }));
                            assert(dist@ == dist_old.update(nb as int, Some(cand)));
                            assert forall|x: int|
                                0 <= x < n && (#[trigger] dist_old[x]) is Some implies dist@[x] is Some
                                    && dist@[x].unwrap() <= dist_old[x].unwrap() by {}
                            assert(queue@[queue@.len() - 1] == State {
                                cost: cand,
                                position: nb,
                            });
                            assert(has_witness(queue@, dist@, nb as int));
                            assert forall|v: int|
                                0 <= v < n && (#[trigger] dist@[v]) is Some && v != nb
                                    as int implies has_witness(queue@, dist@, v) || done.contains(
                                v,
                            ) by {
                                assert(dist@[v] == dist_old[v]);
                                if has_witness(q_old, dist_old, v) {
                                    let wi = choose|qi: int|
                                        0 <= qi < q_old.len() && (#[trigger] q_old[qi]).position
                                            == v && dist_old[v] == Some(q_old[qi].cost);
                                    assert(queue@[wi] == q_old[wi]);
                                    assert(has_witness(queue@, dist@, v));
                                }
                            }
                            assert forall|v: int|
                                #[trigger] done.contains(v) && v != pos as int implies relaxed_at(
                                *g,
                                dist@,
                                v,
                            ) by {
                                lemma_relaxed_update(*g, dist_old, dist@, v);
                            }
                            assert forall|v: int|
                                0 <= v < n implies #[trigger] pred_exact(
                                *g,
                                dist@,
                                preds@,
                                done,
                                tm,
                                v,
                            ) by {
                                if v == nb as int {
                                    assert(0 <= (ei as int) && (ei as int) < g.edges@.len()
                                        && edge_links(
                                        g.edges@[ei as int],
                                        pos as int,
                                        nb as int,
                                    ) && dist@[pos as int].unwrap() + g.edges@[ei as int].weight
                                        == dist@[nb as int].unwrap());
                                } else {
                                    assert(pred_exact(*g, dist_old, preds_old, done, tm, v));
                                    lemma_pred_exact_stable(
                                        *g,
                                        dist_old,
                                        dist@,
                                        preds_old,
                                        preds@,
                                        done,
                                        tm,
                                        v,
                                    );
                                }
                            }
                            if dist@[end as int] is Some {
                                if nb == end {
                                    assert(has_entry(queue@, end as int));
                                } else {
                                    assert(dist_old[end as int] is Some);
                                    let wi = choose|qi: int|
                                        0 <= qi < q_old.len() && (#[trigger] q_old[qi]).position
                                            == end as int;
                                    assert(queue@[wi] == q_old[wi]);
                                    assert(has_entry(queue@, end as int));
                                }
                            }
                        }
                    }
                }
                ei += 1;
            }
            proof {
                assert(relaxed_at(*g, dist@, pos as int));
                assert forall|v: int|
                    #[trigger] done.contains(v) implies 0 <= v < n && dist@[v] is Some
                        && dist@[v].unwrap() <= key && relaxed_at(*g, dist@, v) by {}
            }
        } else {
            proof {
                assert forall|v: int|
                    0 <= v < n && (#[trigger] dist@[v]) is Some implies has_witness(
                        queue@,
                        dist@,
                        v,
                    ) || done.contains(v) by {
                    if v == pos as int {
                        assert(dist@[v] == Some(cur));
                    }
                }
            }
        }
        proof {
            lemma_dist_stats_nonneg(dist@);
        }
    }
    proof {
        assert forall|x: int|
            0 <= x < n && (#[trigger] dist@[x]) is Some implies relaxed_at(*g, dist@, x) by {
            assert(!has_witness(queue@, dist@, x));
            assert(done.contains(x));
        }
        if connected(*g, start as int, end as int) {
            let p = choose|p: Seq<int>| is_path(*g, start as int, end as int, p);
            lemma_closure(*g, dist@, start as int, end as int, p);
            assert(has_entry(queue@, end as int));
            assert(false);
        }
    }
    None
}

/// Walking the predecessor relation back from v reaches the start node
/// within the given number of steps, through actual edges of the graph
/// whose weights sum to exactly the given total.
pub open spec fn chain_cost_ok(
    g: Graph,
    preds: Seq<Option<usize>>,
    start: int,
    v: int,
    total: int,
    fuel: int,
) -> bool
    decreases fuel,
{
    if v == start {
        total == 0
    } else if fuel <= 0 {
        false
    } else {
        match preds[v] {
            Some(u) => exists|e: int|
                0 <= e < g.edges@.len() && #[trigger] edge_links(g.edges@[e], u as int, v)
                    && g.edges@[e].weight <= total && chain_cost_ok(
                    g,
                    preds,
                    start,
                    u as int,
                    total - g.edges@[e].weight,
                    fuel - 1,
                ),
            None => false,
        }
    }
}

/// The predecessor chain out of v gets back to the start node within the
/// given number of steps.
pub open spec fn chain_reaches(preds: Seq<Option<usize>>, start: int, v: int, fuel: int) -> bool
    decreases fuel,
{
    if v == start {
        true
    } else if fuel <= 0 {
        false
    } else {
        match preds[v] {
            Some(u) => chain_reaches(preds, start, u as int, fuel - 1),
            None => false,
        }
    }
}

/// Rebuilds the ordered node path from the predecessor relation, walking
/// back from the end node, guarded by a step bound of the node count so the
/// walk fails safely instead of looping if the relation were ever cyclic.
///
/// Succeeds exactly when the chain out of the end node reaches the start
/// node within that bound.
pub fn reconstruct_path(preds: &Vec<Option<usize>>, start: usize, end: usize) -> (r: Option<
    Vec<usize>,
>)
    requires
        start < preds@.len(),
        end < preds@.len(),
        forall|v: int|
            0 <= v < preds@.len() ==> match #[trigger] preds@[v] {
                Some(u) => u < preds@.len(),
                None => true,
            },
    ensures
        r is Some <==> chain_reaches(preds@, start as int, end as int, preds@.len() as int),
        match r {
            Some(p) => {
                &&& p@.len() >= 1
                &&& p@[0] == start
                &&& p@[p@.len() - 1] == end
                &&& forall|i: int| 0 <= i < p@.len() ==> (#[trigger] p@[i]) < preds@.len()
                &&& forall|i: int|
                    1 <= i < p@.len() ==> preds@[(#[trigger] p@[i]) as int] == Some(p@[i - 1])
                &&& (start == end ==> p@.len() == 1)
            },
            None => start != end,
        },
{
    let n: usize = preds.len();
    let mut rev: Vec<usize> = Vec::new();
    let mut cur: usize = end;
    rev.push(end);
    let mut steps: usize = 0;
    while cur != start && steps < n
        invariant
            n == preds@.len(),
            start < n,
            end < n,
            cur < n,
            steps <= n,
            rev@.len() == steps + 1,
            rev@[0] == end,
            rev@[rev@.len() - 1] == cur,
            start == end ==> cur == start && steps == 0,
            chain_reaches(preds@, start as int, end as int, n as int) <==> chain_reaches(
                preds@,
                start as int,
                cur as int,
                n as int - steps,
            ),
            forall|i: int| 0 <= i < rev@.len() ==> (#[trigger] rev@[i]) < n,
            forall|i: int|
                0 <= i < rev@.len() - 1 ==> preds@[(#[trigger] rev@[i]) as int] == Some(
                    rev@[i + 1],
                ),
            forall|v: int|
                0 <= v < preds@.len() ==> match #[trigger] preds@[v] {
                    Some(u) => u < preds@.len(),
                    None => true,
                },
        decreases n - steps,
    {
        let pc: Option<usize> = preds[cur];
        match pc {
            Some(u) => {
                cur = u;
                rev.push(u);
                steps += 1;
            },
            None => {
                return None;
            },
        }
    }
    if cur != start {
        return None;
    }
    let mut path: Vec<usize> = Vec::new();
    let mut k: usize = rev.len();
    while k > 0
        invariant
            k <= rev@.len(),
            path@.len() == rev@.len() - k,
            forall|i: int|
                0 <= i < path@.len() ==> path@[i] == rev@[rev@.len() - 1 - i],
        decreases k,
    {
        k -= 1;
        let x: usize = rev[k];
        path.push(x);
    }
    proof {
        assert(path@[0] == rev@[rev@.len() - 1]);
        assert(path@[path@.len() - 1] == rev@[0]);
        assert forall|i: int| 1 <= i < path@.len() implies preds@[(#[trigger] path@[i]) as int]
            == Some(path@[i - 1]) by {
            assert(path@[i] == rev@[rev@.len() - 1 - i]);
            assert(path@[i - 1] == rev@[rev@.len() - i]);
        }
    }
    Some(path)
}

} // verus!

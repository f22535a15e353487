//! Nearest-node search: a linear scan of the node table with the same
//! distance metric that weighs graph edges.
//!
//! Ties are broken deterministically: among equidistant entries the first
//! one in table order wins.

use vstd::prelude::*;
use crate::geo::{haversine, hav_dist, lemma_distance_zero_on_equal, lemma_distance_bounds};
use crate::graph::{OsmNode, RouteError};

verus! {

/// Distance from the query point to table entry k.
pub open spec fn query_dist(t: Seq<OsmNode>, lat: int, lon: int, k: int) -> int {
    hav_dist(lat, lon, t[k].lat as int, t[k].lon as int)
}

/// Entry i is nearest to the query, and is the first entry in table order
/// among the equidistant ones.
pub open spec fn is_nearest_at(t: Seq<OsmNode>, lat: int, lon: int, i: int) -> bool {
    &&& 0 <= i < t.len()
    &&& forall|j: int|
        0 <= j < t.len() ==> query_dist(t, lat, lon, i) <= #[trigger] query_dist(t, lat, lon, j)
    &&& forall|j: int|
        0 <= j < i ==> #[trigger] query_dist(t, lat, lon, j) > query_dist(t, lat, lon, i)
}

/// The identifier of the node nearest to the query coordinate, by linear
/// scan over the node table; fails exactly on an empty table.
pub fn find_nearest_node(nodes: &Vec<OsmNode>, lat: i64, lon: i64) -> (r: Result<
    i64,
    RouteError,
>)
    ensures
        match r {
            Ok(id) => nodes@.len() > 0 && exists|i: int|
                is_nearest_at(nodes@, lat as int, lon as int, i) && nodes@[i].id == id,
            Err(e) => e == RouteError::NotFound && nodes@.len() == 0,
        },
{
    if nodes.len() == 0 {
        return Err(RouteError::NotFound);
    }
    let mut best_i: usize = 0;
    let mut best_d: u64 = haversine(lat, lon, nodes[0].lat, nodes[0].lon);
    let mut j: usize = 1;
    while j < nodes.len()
        invariant
            1 <= j <= nodes@.len(),
            best_i < j,
            best_d as int == query_dist(nodes@, lat as int, lon as int, best_i as int),
            forall|m: int|
                0 <= m < j ==> best_d as int <= #[trigger] query_dist(
                    nodes@,
                    lat as int,
                    lon as int,
                    m,
                ),
            forall|m: int|
                0 <= m < best_i ==> #[trigger] query_dist(nodes@, lat as int, lon as int, m)
                    > best_d as int,
        decreases nodes@.len() - j,
    {
        let d: u64 = haversine(lat, lon, nodes[j].lat, nodes[j].lon);
        if d < best_d {
            best_d = d;
            best_i = j;
        }
        j += 1;
    }
    proof {
        assert(is_nearest_at(nodes@, lat as int, lon as int, best_i as int));
    }
    Ok(nodes[best_i].id)
}

/// A node set that contains the exact query coordinate yields a nearest
/// node at distance zero.
pub proof fn lemma_nearest_exact_match(t: Seq<OsmNode>, lat: int, lon: int, i: int, w: int)
    requires
        0 <= i < t.len(),
        t[i].lat as int == lat,
        t[i].lon as int == lon,
        is_nearest_at(t, lat, lon, w),
    ensures
        query_dist(t, lat, lon, w) == 0,
{
    lemma_distance_zero_on_equal(lat, lon);
    assert(query_dist(t, lat, lon, i) == 0);
    lemma_distance_bounds(lat, lon, t[w].lat as int, t[w].lon as int);
}

} // verus!

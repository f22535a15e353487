//! Graph construction from raw map records.
//!
//! A first pass turns every point record into a node of a dense, contiguous
//! index space (the position in the node table is the graph index).  A second
//! pass walks every segment record and adds one weighted, undirected edge per
//! consecutive pair of point ids whose endpoints both resolve; a pair with a
//! dangling reference is skipped silently, the rest of the segment is kept.
//! Only a record with a missing field is malformed and aborts construction
//! with a parse error; coordinates may be any integer microdegree values,
//! which the distance metric folds onto the sphere.

use vstd::prelude::*;
use crate::geo::{haversine, hav_dist};

verus! {

/// A map point: identifier plus coordinates in microdegrees.
#[derive(Clone, Copy, Debug, PartialEq, Eq, Structural)]
pub struct OsmNode {
    pub id: i64,
    pub lat: i64,
    pub lon: i64,
}

/// A raw tagged record as handed over by the map-data collaborator: a point
/// with its coordinates, or a road segment with the ordered ids of its
/// polyline points.  Fields the source may omit are options, checked during
/// construction.
#[derive(Clone, Debug)]
pub enum Element {
    Node { id: i64, lat: Option<i64>, lon: Option<i64> },
    Way { id: i64, nodes: Option<Vec<i64>> },
}

/// The failures that abort a query: a structurally invalid record, or a
/// nearest-node lookup against an empty node set.  "No path" is not an
/// error and is represented by an absent result instead.
#[derive(Clone, Copy, Debug, PartialEq, Eq, Structural)]
pub enum RouteError {
    ParseError,
    NotFound,
}

/// One undirected, weighted edge between two dense node indices.
#[derive(Clone, Copy, Debug, PartialEq, Eq, Structural)]
pub struct Edge {
    pub a: usize,
    pub b: usize,
    pub weight: u64,
}

/// An undirected, edge-weighted graph over the dense index space
/// `0 .. node_count`, held as a flat edge arena.
#[derive(Clone, Debug)]
pub struct Graph {
    pub node_count: usize,
    pub edges: Vec<Edge>,
}

impl Graph {
    /// Every edge joins two valid indices, and every weight is a
    /// great-circle distance, so at most half the Earth's circumference.
    pub open spec fn wf(self) -> bool {
        forall|i: int|
            0 <= i < self.edges@.len() ==> (#[trigger] self.edges@[i]).a < self.node_count
                && self.edges@[i].b < self.node_count && self.edges@[i].weight <= 20_015_086
    }
}

pub open spec fn elem_valid(e: Element) -> bool {
    match e {
        Element::Node { id: _, lat, lon } => match (lat, lon) {
            (Some(_), Some(_)) => true,
            _ => false,
        },
        Element::Way { id: _, nodes } => match nodes {
            Some(_) => true,
            None => false,
        },
    }
}

pub open spec fn all_valid(s: Seq<Element>) -> bool {
    forall|i: int| 0 <= i < s.len() ==> elem_valid(#[trigger] s[i])
}

/// The node table that the first pass produces: one entry per point record,
/// in record order.
pub open spec fn spec_nodes(s: Seq<Element>) -> Seq<OsmNode>
    decreases s.len(),
{
    if s.len() == 0 {
        Seq::empty()
    } else {
        spec_nodes(s.drop_last()) + match s.last() {
            Element::Node { id, lat: Some(la), lon: Some(lo) } => seq![
                OsmNode { id, lat: la, lon: lo },
            ],
            _ => Seq::empty(),
        }
    }
}

/// The dense index of a point id: the position of the last table entry
/// carrying it, absent when no entry does.
pub open spec fn idx_of(t: Seq<OsmNode>, id: i64) -> Option<int>
    decreases t.len(),
{
    if t.len() == 0 {
        None
    } else if t.last().id == id {
        Some(t.len() - 1)
    } else {
        idx_of(t.drop_last(), id)
    }
}

/// The edge a consecutive id pair contributes: one edge weighted by the
/// distance metric when both endpoints resolve, nothing otherwise.
pub open spec fn pair_edges(t: Seq<OsmNode>, a_id: i64, b_id: i64) -> Seq<Edge> {
    match (idx_of(t, a_id), idx_of(t, b_id)) {
        (Some(ia), Some(ib)) => seq![
            Edge {
                a: ia as usize,
                b: ib as usize,
                weight: hav_dist(t[ia].lat as int, t[ia].lon as int, t[ib].lat as int, t[ib].lon as int) as u64,
            },
        ],
        _ => Seq::empty(),
    }
}

/// Edges of the first k consecutive pairs of one segment's id list.
pub open spec fn way_edges_upto(t: Seq<OsmNode>, ids: Seq<i64>, k: int) -> Seq<Edge>
    decreases k,
{
    if k <= 0 {
        Seq::empty()
    } else {
        way_edges_upto(t, ids, k - 1) + pair_edges(t, ids[k - 1], ids[k])
    }
}

pub open spec fn way_edges(t: Seq<OsmNode>, ids: Seq<i64>) -> Seq<Edge> {
    if ids.len() == 0 {
        Seq::empty()
    } else {
        way_edges_upto(t, ids, ids.len() - 1)
    }
}

/// Edges contributed by the first k records.
pub open spec fn elems_edges_upto(t: Seq<OsmNode>, s: Seq<Element>, k: int) -> Seq<Edge>
    decreases k,
{
    if k <= 0 {
        Seq::empty()
    } else {
        elems_edges_upto(t, s, k - 1) + match s[k - 1] {
            Element::Way { id: _, nodes: Some(ids) } => way_edges(t, ids@),
            _ => Seq::empty(),
        }
    }
}

/// The full edge list of the graph built from a record sequence.
pub open spec fn spec_edges(s: Seq<Element>) -> Seq<Edge> {
    elems_edges_upto(spec_nodes(s), s, s.len() as int)
}

/// The dense index of a point id in the node table, scanning for the last
/// entry that carries it.
pub fn node_index(table: &Vec<OsmNode>, id: i64) -> (r: Option<usize>)
    ensures
        match r {
            Some(x) => idx_of(table@, id) == Some(x as int) && x < table@.len()
                && table@[x as int].id == id,
            None => idx_of(table@, id) is None,
        },
{
    let mut k: usize = table.len();
    proof {
        assert(table@.take(table@.len() as int) =~= table@);
    }
    while k > 0
        invariant
            k <= table@.len(),
            idx_of(table@, id) == idx_of(table@.take(k as int), id),
        decreases k,
    {
        let idx: usize = k - 1;
        if table[idx].id == id {
            proof {
                assert(table@.take(k as int).last() == table@[idx as int]);
            }
            return Some(idx);
        }
        proof {
            assert(table@.take(k as int).drop_last() =~= table@.take(idx as int));
        }
        k = idx;
    }
    None
}

/// Builds the node table and the weighted graph from raw records.
///
/// Succeeds exactly when every record is structurally valid; the table then
/// lists the point records in order, the graph's dense index space matches
/// the table, and the edge list holds one distance-weighted edge per
/// consecutive segment pair whose endpoints both resolve.
pub fn build_graph_from_osm_data(elements: &Vec<Element>) -> (r: Result<
    (Vec<OsmNode>, Graph),
    RouteError,
>)
    ensures
        match r {
            Ok((table, graph)) => all_valid(elements@) && table@ == spec_nodes(elements@)
                && graph.node_count == table@.len() && graph.edges@ == spec_edges(elements@)
                && graph.wf(),
            Err(e) => e == RouteError::ParseError && !all_valid(elements@),
        },
{
    let mut table: Vec<OsmNode> = Vec::new();
    let mut i: usize = 0;
    proof {
        assert(elements@.take(0) =~= Seq::<Element>::empty());
    }
    while i < elements.len()
        invariant
            i <= elements@.len(),
            table@ == spec_nodes(elements@.take(i as int)),
            forall|k: int| 0 <= k < i ==> elem_valid(#[trigger] elements@[k]),
        decreases elements@.len() - i,
    {
        let elem = &elements[i];
        match elem {
            Element::Node { id, lat, lon } => {
                match (lat, lon) {
                    (Some(la), Some(lo)) => {
                        table.push(OsmNode { id: *id, lat: *la, lon: *lo });
                    },
                    _ => {
                        proof {
                            assert(!elem_valid(elements@[i as int]));
                        }
                        return Err(RouteError::ParseError);
                    },
                }
            },
            Element::Way { id: _, nodes } => {
                match nodes {
                    Some(_) => {},
                    None => {
                        proof {
                            assert(!elem_valid(elements@[i as int]));
                        }
                        return Err(RouteError::ParseError);
                    },
                }
            },
        }
        proof {
            assert(elements@.take(i + 1).drop_last() =~= elements@.take(i as int));
            assert(elements@.take(i + 1).last() == elements@[i as int]);
            assert(table@ =~= spec_nodes(elements@.take(i + 1)));
        }
        i += 1;
    }
    proof {
        assert(elements@.take(elements@.len() as int) =~= elements@);
    }
    let ghost t_seq = table@;
    let mut edges: Vec<Edge> = Vec::new();
    let mut j: usize = 0;
    while j < elements.len()
        invariant
            j <= elements@.len(),
            all_valid(elements@),
            t_seq == table@,
            table@ == spec_nodes(elements@),
            edges@ == elems_edges_upto(t_seq, elements@, j as int),
            edge_list_wf(edges@, table@.len() as int),
        decreases elements@.len() - j,
    {
        let elem = &elements[j];
        match elem {
            Element::Way { id: _, nodes } => {
                match nodes {
                    Some(ids) => {
                        if ids.len() >= 1 {
                            let mut k: usize = 0;
                            let ghost base = edges@;
                            while k < ids.len() - 1
                                invariant
                                    k <= ids@.len() - 1,
                                    ids@.len() >= 1,
                                    t_seq == table@,
                                    edges@ == base + way_edges_upto(t_seq, ids@, k as int),
                                    edge_list_wf(edges@, table@.len() as int),
                                decreases ids@.len() - k,
                            {
                                let a_id: i64 = ids[k];
                                let b_id: i64 = ids[k + 1];
                                let ia = node_index(&table, a_id);
                                let ib = node_index(&table, b_id);
                                match (ia, ib) {
                                    (Some(x), Some(y)) => {
                                        let na_lat: i64 = table[x].lat;
                                        let na_lon: i64 = table[x].lon;
                                        let nb_lat: i64 = table[y].lat;
                                        let nb_lon: i64 = table[y].lon;
                                        let w: u64 = haversine(na_lat, na_lon, nb_lat, nb_lon);
                                        edges.push(Edge { a: x, b: y, weight: w });
                                    },
                                    _ => {},
                                }
                                proof {
                                    assert(edges@ =~= base + way_edges_upto(
                                        t_seq,
                                        ids@,
                                        k as int + 1,
                                    ));
                                }
                                k += 1;
                            }
                            proof {
                                assert(way_edges(t_seq, ids@) == way_edges_upto(
                                    t_seq,
                                    ids@,
                                    ids@.len() - 1,
                                ));
                            }
                        } else {
                            proof {
                                assert(edges@ =~= edges@ + way_edges(t_seq, ids@));
                            }
                        }
                    },
                    None => {
                        proof {
                            assert(!elem_valid(elements@[j as int]));
                            assert(false);
                        }
                    },
                }
            },
            _ => {
                proof {
                    assert(edges@ =~= edges@ + Seq::<Edge>::empty());
                }
            },
        }
        proof {
            assert(edges@ =~= elems_edges_upto(t_seq, elements@, j as int + 1));
        }
        j += 1;
    }
    proof {
        assert(elems_edges_upto(t_seq, elements@, elements@.len() as int) == spec_edges(
            elements@,
        ));
    }
    let n: usize = table.len();
    let graph = Graph { node_count: n, edges };
    Ok((table, graph))
}

/// Every listed edge joins indices below n with a bounded weight.
pub open spec fn edge_list_wf(es: Seq<Edge>, n: int) -> bool {
    forall|i: int|
        0 <= i < es.len() ==> (#[trigger] es[i]).a < n && es[i].b < n && es[i].weight
            <= 20_015_086
}

/// How many point records a record sequence holds.
pub open spec fn point_record_count(s: Seq<Element>) -> int
    decreases s.len(),
{
    if s.len() == 0 {
        0
    } else {
        point_record_count(s.drop_last()) + match s.last() {
            Element::Node { .. } => 1int,
            _ => 0int,
        }
    }
}

/// The node table of a valid record sequence has exactly one entry per
/// point record.
pub proof fn lemma_node_count(s: Seq<Element>)
    requires
        all_valid(s),
    ensures
        spec_nodes(s).len() == point_record_count(s),
    decreases s.len(),
{
    if s.len() > 0 {
        assert forall|i: int| 0 <= i < s.drop_last().len() implies elem_valid(
            #[trigger] s.drop_last()[i],
        ) by {
            assert(s.drop_last()[i] == s[i]);
        }
        lemma_node_count(s.drop_last());
        assert(elem_valid(s[s.len() - 1]));
        assert(s.last() == s[s.len() - 1]);
    }
}

/// The naive pair count of one segment: its point count less one.
pub open spec fn way_pair_count(ids: Seq<i64>) -> int {
    if ids.len() >= 1 {
        ids.len() - 1
    } else {
        0int
    }
}

/// Sum over the segments of their naive pair counts.
pub open spec fn naive_pair_count(s: Seq<Element>) -> int
    decreases s.len(),
{
    if s.len() == 0 {
        0
    } else {
        naive_pair_count(s.drop_last()) + match s.last() {
            Element::Way { id: _, nodes: Some(ids) } => way_pair_count(ids@),
            _ => 0int,
        }
    }
}

/// Every consecutive pair of the segment resolves both endpoints.
pub open spec fn way_pairs_resolved(t: Seq<OsmNode>, ids: Seq<i64>) -> bool {
    forall|k: int|
        0 <= k < ids.len() - 1 ==> (idx_of(t, #[trigger] ids[k]) is Some && idx_of(
            t,
            ids[k + 1],
        ) is Some)
}

/// No segment pair of the whole record sequence dangles.
pub open spec fn all_pairs_resolved(t: Seq<OsmNode>, s: Seq<Element>) -> bool {
    forall|i: int|
        0 <= i < s.len() ==> match #[trigger] s[i] {
            Element::Way { id: _, nodes: Some(ids) } => way_pairs_resolved(t, ids@),
            _ => true,
        }
}

proof fn lemma_way_edges_count(t: Seq<OsmNode>, ids: Seq<i64>, k: int)
    requires
        0 <= k <= ids.len() - 1,
    ensures
        way_edges_upto(t, ids, k).len() <= k,
        (way_edges_upto(t, ids, k).len() == k) <==> (forall|j: int|
            0 <= j < k ==> (idx_of(t, #[trigger] ids[j]) is Some && idx_of(
                t,
                ids[j + 1],
            ) is Some)),
    decreases k,
{
    if k > 0 {
        lemma_way_edges_count(t, ids, k - 1);
        if way_edges_upto(t, ids, k).len() == k {
            assert(way_edges_upto(t, ids, k - 1).len() == k - 1);
            assert(pair_edges(t, ids[k - 1], ids[k]).len() == 1);
            assert(idx_of(t, ids[k - 1]) is Some && idx_of(t, ids[k]) is Some);
        }
        if forall|j: int|
            0 <= j < k ==> (idx_of(t, #[trigger] ids[j]) is Some && idx_of(
                t,
                ids[j + 1],
            ) is Some) {
            assert(idx_of(t, ids[k - 1]) is Some && idx_of(t, ids[k]) is Some);
            assert(pair_edges(t, ids[k - 1], ids[k]).len() == 1);
        }
    }
}

proof fn lemma_way_edges_total(t: Seq<OsmNode>, ids: Seq<i64>)
    ensures
        way_edges(t, ids).len() <= way_pair_count(ids),
        (way_edges(t, ids).len() == way_pair_count(ids)) <==> way_pairs_resolved(t, ids),
{
    if ids.len() == 0 {
    } else {
        lemma_way_edges_count(t, ids, ids.len() - 1);
    }
}

proof fn lemma_elems_edges_count(t: Seq<OsmNode>, s: Seq<Element>, k: int)
    requires
        0 <= k <= s.len(),
    ensures
        elems_edges_upto(t, s, k).len() <= naive_pair_count(s.take(k)),
        (elems_edges_upto(t, s, k).len() == naive_pair_count(s.take(k))) <==> (forall|i: int|
            0 <= i < k ==> match #[trigger] s[i] {
                Element::Way { id: _, nodes: Some(ids) } => way_pairs_resolved(t, ids@),
                _ => true,
            }),
    decreases k,
{
    if k > 0 {
        lemma_elems_edges_count(t, s, k - 1);
        assert(s.take(k).drop_last() =~= s.take(k - 1));
        assert(s.take(k).last() == s[k - 1]);
        match s[k - 1] {
            Element::Way { id: _, nodes: Some(ids) } => {
                lemma_way_edges_total(t, ids@);
            },
            _ => {},
        }
        if elems_edges_upto(t, s, k).len() == naive_pair_count(s.take(k)) {
            assert(elems_edges_upto(t, s, k - 1).len() == naive_pair_count(s.take(k - 1)));
        }
        if forall|i: int|
            0 <= i < k ==> match #[trigger] s[i] {
                Element::Way { id: _, nodes: Some(ids) } => way_pairs_resolved(t, ids@),
                _ => true,
            } {
            assert(elems_edges_upto(t, s, k - 1).len() == naive_pair_count(s.take(k - 1)));
        }
    }
}

/// The built graph never holds more edges than the segments' naive pair
/// count, and holds exactly that many when no pair dangles.
pub proof fn lemma_edge_count(s: Seq<Element>)
    ensures
        spec_edges(s).len() <= naive_pair_count(s),
        (spec_edges(s).len() == naive_pair_count(s)) <==> all_pairs_resolved(spec_nodes(s), s),
{
    lemma_elems_edges_count(spec_nodes(s), s, s.len() as int);
    assert(s.take(s.len() as int) =~= s);
}

/// Every edge of the built graph is weighted by the distance metric of its
/// two endpoints' coordinates.
pub open spec fn edges_metric(es: Seq<Edge>, t: Seq<OsmNode>) -> bool {
    forall|i: int|
        0 <= i < es.len() ==> (#[trigger] es[i]).weight as int == hav_dist(
            t[es[i].a as int].lat as int,
            t[es[i].a as int].lon as int,
            t[es[i].b as int].lat as int,
            t[es[i].b as int].lon as int,
        )
}

/// A resolved id points into the table.
proof fn lemma_idx_of_range(t: Seq<OsmNode>, id: i64)
    requires
        idx_of(t, id) is Some,
    ensures
        0 <= idx_of(t, id).unwrap() < t.len(),
    decreases t.len(),
{
    if t.len() > 0 && t.last().id != id {
        lemma_idx_of_range(t.drop_last(), id);
    }
}

#[verifier::rlimit(100)]
proof fn lemma_way_edges_metric(t: Seq<OsmNode>, ids: Seq<i64>, k: int)
    requires
        0 <= k <= ids.len() - 1,
        t.len() < 0x1_0000_0000,
    ensures
        edges_metric(way_edges_upto(t, ids, k), t),
    decreases k,
{
    if k > 0 {
        lemma_way_edges_metric(t, ids, k - 1);
        let prev = way_edges_upto(t, ids, k - 1);
        let cur = way_edges_upto(t, ids, k);
        match (idx_of(t, ids[k - 1]), idx_of(t, ids[k])) {
            (Some(ia), Some(ib)) => {
                lemma_idx_of_range(t, ids[k - 1]);
                lemma_idx_of_range(t, ids[k]);
                crate::geo::lemma_distance_bounds(
                    t[ia].lat as int,
                    t[ia].lon as int,
                    t[ib].lat as int,
                    t[ib].lon as int,
                );
            },
            _ => {},
        }
        assert forall|i: int| 0 <= i < cur.len() implies (#[trigger] cur[i]).weight as int
            == hav_dist(
            t[cur[i].a as int].lat as int,
            t[cur[i].a as int].lon as int,
            t[cur[i].b as int].lat as int,
            t[cur[i].b as int].lon as int,
        ) by {
            if i < prev.len() {
                assert(cur[i] == prev[i]);
            } else {
                assert(pair_edges(t, ids[k - 1], ids[k]).len() == 1);
                assert(cur[i] == pair_edges(t, ids[k - 1], ids[k])[0]);
                let ia = idx_of(t, ids[k - 1]).unwrap();
                let ib = idx_of(t, ids[k]).unwrap();
                assert(cur[i].a as int == ia);
                assert(cur[i].b as int == ib);
            }
        }
    }
}

proof fn lemma_elems_edges_metric(t: Seq<OsmNode>, s: Seq<Element>, k: int)
    requires
        0 <= k <= s.len(),
        t.len() < 0x1_0000_0000,
    ensures
        edges_metric(elems_edges_upto(t, s, k), t),
    decreases k,
{
    if k > 0 {
        lemma_elems_edges_metric(t, s, k - 1);
        let prev = elems_edges_upto(t, s, k - 1);
        let cur = elems_edges_upto(t, s, k);
        match s[k - 1] {
            Element::Way { id: _, nodes: Some(ids) } => {
                if ids@.len() > 0 {
                    lemma_way_edges_metric(t, ids@, ids@.len() - 1);
                    let tail = way_edges_upto(t, ids@, ids@.len() - 1);
                    assert(way_edges(t, ids@) == tail);
                    assert forall|i: int| 0 <= i < cur.len() implies (#[trigger] cur[i]).weight
                        as int == hav_dist(
                        t[cur[i].a as int].lat as int,
                        t[cur[i].a as int].lon as int,
                        t[cur[i].b as int].lat as int,
                        t[cur[i].b as int].lon as int,
                    ) by {
                        if i < prev.len() {
                            assert(cur[i] == prev[i]);
                        } else {
                            assert(cur[i] == tail[i - prev.len()]);
                        }
                    }
                } else {
                    assert(cur =~= prev);
                }
            },
            _ => {
                assert(cur =~= prev);
            },
        }
    }
}

/// In a graph built from records, every edge weight is the great-circle
/// distance between its endpoints' coordinates.
pub proof fn lemma_built_edges_metric(s: Seq<Element>)
    requires
        spec_nodes(s).len() < 0x1_0000_0000,
    ensures
        edges_metric(spec_edges(s), spec_nodes(s)),
{
    lemma_elems_edges_metric(spec_nodes(s), s, s.len() as int);
}

} // verus!

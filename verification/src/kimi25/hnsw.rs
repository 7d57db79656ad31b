//! The HNSW graph index.
//!
//! Nodes are kept in insertion order; node `i` has a level and, for every
//! layer from `0` to its level, a list of neighbours. Distances are `f32`
//! values held by their bit patterns and computed by a function that the
//! caller supplies (the metric's distance).

use std::collections::HashMap;

use vstd::prelude::*;

use crate::float_bits::{distance_key, distance_keys, f32_less, keys_of, float_less, is_nan_bits, order_key, INFINITY_BITS};
use crate::kimi25::distance::DistanceMetric;
use crate::kimi25::persistence::{SerializableHnsw, SerializableNode};
use crate::ranking::{min_nat, precedes, ranks_first, top_k};

verus! {

broadcast use vstd::std_specs::hash::group_hash_axioms;

/// The position of a node in the graph.
pub type NodeId = usize;

/// The distance that the function gave for two vectors.
pub open spec fn measured<F: Fn(&[u32], &[u32]) -> u32>(dist: F, a: Seq<u32>, b: Seq<u32>, d: u32) -> bool {
    exists|x: &[u32], y: &[u32]| x@ == a && y@ == b && #[trigger] dist.ensures((x, y), d)
}

/// The function accepts any two vectors.
pub open spec fn total<F: Fn(&[u32], &[u32]) -> u32>(dist: F) -> bool {
    forall|x: &[u32], y: &[u32]| #[trigger] dist.requires((x, y))
}

/// The function never gives a NaN.
pub open spec fn never_nan<F: Fn(&[u32], &[u32]) -> u32>(dist: F) -> bool {
    forall|x: &[u32], y: &[u32], d: u32| #[trigger] dist.ensures((x, y), d) ==> !is_nan_bits(d)
}

/// Calls the distance function.
fn distance<F: Fn(&[u32], &[u32]) -> u32>(dist: &F, a: &[u32], b: &Vec<u32>) -> (d: u32)
    requires
        total(*dist),
    ensures
        measured(*dist, a@, b@, d),
        never_nan(*dist) ==> !is_nan_bits(d),
{
    dist(a, b.as_slice())
}

/// A value that is not below `c` is not below any `d` that is below `c`.
proof fn lemma_not_below(s: u32, c: u32, d: u32)
    requires
        float_less(d, c),
        !float_less(s, c),
    ensures
        !float_less(s, d),
{
}

/// A node of the graph.
#[derive(Debug)]
pub struct Node {
    pub id: NodeId,
    pub external_id: u64,
    pub vector: Vec<u32>,
    pub level: usize,
    pub neighbors: Vec<Vec<NodeId>>,
}

/// What a node holds.
pub struct NodeView {
    pub id: NodeId,
    pub external_id: u64,
    pub vector: Seq<u32>,
    pub level: usize,
    pub neighbors: Seq<Seq<NodeId>>,
}

impl View for Node {
    type V = NodeView;

    open spec fn view(&self) -> NodeView {
        NodeView {
            id: self.id,
            external_id: self.external_id,
            vector: self.vector@,
            level: self.level,
            neighbors: self.neighbors@.map_values(|l: Vec<NodeId>| l@),
        }
    }
}

impl Node {
    /// A node with an empty neighbour list for each layer from `0` to its
    /// level.
    pub fn new(id: NodeId, external_id: u64, vector: Vec<u32>, level: usize, m: usize) -> (n: Node)
        requires
            level < usize::MAX,
        ensures
            n@.id == id,
            n@.external_id == external_id,
            n@.vector == vector@,
            n@.level == level,
            n@.neighbors.len() == level + 1,
            forall|l: int| 0 <= l <= level ==> (#[trigger] n@.neighbors[l]).len() == 0,
    {
        let mut neighbors: Vec<Vec<NodeId>> = Vec::with_capacity(level + 1);
        let mut l: usize = 0;
        while l <= level
            invariant
                level < usize::MAX,
                l <= level + 1,
                neighbors@.len() == l,
                forall|j: int| 0 <= j < l ==> (#[trigger] neighbors@[j])@.len() == 0,
            decreases level + 1 - l,
        {
            neighbors.push(Vec::with_capacity(m));
            l += 1;
        }
        Node { id, external_id, vector, level, neighbors }
    }
}

/// A node reached during a search, with its distance to the query.
#[derive(Debug, Clone, Copy)]
pub struct Candidate {
    pub id: NodeId,
    pub distance: u32,
}

impl PartialEq for Candidate {
    /// Candidates are equal when their distances are equal as `f32` values.
    fn eq(&self, other: &Self) -> (r: bool) {
        !crate::float_bits::is_nan(self.distance) && !crate::float_bits::is_nan(other.distance) && distance_key(
            self.distance,
        ) == distance_key(other.distance)
    }
}

impl vstd::std_specs::cmp::PartialEqSpecImpl for Candidate {
    open spec fn obeys_eq_spec() -> bool {
        true
    }

    open spec fn eq_spec(&self, other: &Self) -> bool {
        !is_nan_bits(self.distance) && !is_nan_bits(other.distance) && order_key(self.distance) == order_key(
            other.distance,
        )
    }
}

/// What a stored point is: its external id, its vector and its level.
pub struct Point {
    pub external_id: u64,
    pub vector: Seq<u32>,
    pub level: usize,
}

/// The points of the nodes, in node order.
pub open spec fn points(nodes: Seq<NodeView>) -> Seq<Point> {
    nodes.map_values(|n: NodeView| Point { external_id: n.external_id, vector: n.vector, level: n.level })
}

/// A list is a sound neighbour list for node `i` at layer `l`: at most
/// `m` entries, no repeats, and each a node other than `i` whose level
/// reaches `l`.
pub open spec fn list_ok(nodes: Seq<NodeView>, i: int, l: int, list: Seq<NodeId>, m: nat) -> bool {
    &&& list.len() <= m
    &&& list.no_duplicates()
    &&& forall|j: int|
        0 <= j < list.len() ==> {
            &&& 0 <= #[trigger] list[j] < nodes.len()
            &&& list[j] != i
            &&& nodes[list[j] as int].level >= l
        }
}

/// The neighbour list of node `i` at layer `l` is sound.
pub open spec fn layer_ok(nodes: Seq<NodeView>, i: int, l: int, m: nat) -> bool {
    list_ok(nodes, i, l, nodes[i].neighbors[l], m)
}

/// The nodes with the list of node `i` at layer `l` replaced.
pub open spec fn relinked(nodes: Seq<NodeView>, i: int, l: int, list: Seq<NodeId>) -> Seq<NodeView> {
    nodes.update(i, NodeView { neighbors: nodes[i].neighbors.update(l, list), ..nodes[i] })
}

/// Every node knows its position, has one list per layer up to its level,
/// and every list is sound.
pub open spec fn graph_ok(nodes: Seq<NodeView>, m: nat) -> bool {
    &&& forall|i: int|
        0 <= i < nodes.len() ==> {
            &&& (#[trigger] nodes[i]).id == i
            &&& nodes[i].neighbors.len() == nodes[i].level + 1
        }
    &&& forall|i: int, l: int|
        0 <= i < nodes.len() && 0 <= l < nodes[i].neighbors.len() ==> #[trigger] layer_ok(nodes, i, l, m)
}

/// Replacing one list by a sound one keeps the graph sound.
proof fn lemma_relink(nodes: Seq<NodeView>, i: int, l: int, list: Seq<NodeId>, m: nat)
    requires
        graph_ok(nodes, m),
        0 <= i < nodes.len(),
        0 <= l < nodes[i].neighbors.len(),
        list_ok(nodes, i, l, list, m),
    ensures
        graph_ok(relinked(nodes, i, l, list), m),
        points(relinked(nodes, i, l, list)) == points(nodes),
{
    let after = relinked(nodes, i, l, list);
    assert forall|a: int| 0 <= a < after.len() implies {
        &&& (#[trigger] after[a]).id == a
        &&& after[a].neighbors.len() == after[a].level + 1
    } by {
        assert(nodes[a].id == a);
    }
    assert forall|a: int, b: int|
        0 <= a < after.len() && 0 <= b < after[a].neighbors.len() implies #[trigger] layer_ok(after, a, b, m) by {
        if a == i && b == l {
            assert forall|j: int| 0 <= j < list.len() implies {
                &&& 0 <= #[trigger] list[j] < after.len()
                &&& list[j] != a
                &&& after[list[j] as int].level >= b
            } by {
                assert(nodes[list[j] as int].level >= l);
            }
        } else {
            assert(layer_ok(nodes, a, b, m));
            let lst = nodes[a].neighbors[b];
            assert(after[a].neighbors[b] == lst);
            assert forall|j: int| 0 <= j < lst.len() implies {
                &&& 0 <= #[trigger] lst[j] < after.len()
                &&& lst[j] != a
                &&& after[lst[j] as int].level >= b
            } by {
                assert(nodes[lst[j] as int].level >= b);
            }
        }
    }
    assert(points(after) =~= points(nodes));
}

/// Some node lists `x` as a neighbour at layer `l`.
pub open spec fn linked_at(nodes: Seq<NodeView>, l: int, x: NodeId) -> bool {
    exists|i: int, j: int|
        0 <= i < nodes.len() && 0 <= l < nodes[i].neighbors.len() && 0 <= j < nodes[i].neighbors[l].len()
            && #[trigger] nodes[i].neighbors[l][j] == x
}

/// The two node sequences differ at most in the lists of layer `l`.
pub open spec fn same_except_layer(a: Seq<NodeView>, b: Seq<NodeView>, l: int) -> bool {
    &&& a.len() == b.len()
    &&& points(a) == points(b)
    &&& forall|i: int|
        0 <= i < a.len() ==> {
            &&& (#[trigger] a[i]).id == b[i].id
            &&& a[i].neighbors.len() == b[i].neighbors.len()
            &&& forall|l2: int| 0 <= l2 < a[i].neighbors.len() && l2 != l ==> #[trigger] a[i].neighbors[l2] == b[i].neighbors[l2]
        }
}

proof fn lemma_same_except_trans(a: Seq<NodeView>, b: Seq<NodeView>, c: Seq<NodeView>, l: int)
    requires
        same_except_layer(a, b, l),
        same_except_layer(b, c, l),
    ensures
        same_except_layer(a, c, l),
{
    assert forall|i: int| 0 <= i < a.len() implies {
        &&& (#[trigger] a[i]).id == c[i].id
        &&& a[i].neighbors.len() == c[i].neighbors.len()
        &&& forall|l2: int| 0 <= l2 < a[i].neighbors.len() && l2 != l ==> #[trigger] a[i].neighbors[l2] == c[i].neighbors[l2]
    } by {
        assert(b[i].id == c[i].id);
        assert forall|l2: int| 0 <= l2 < a[i].neighbors.len() && l2 != l implies #[trigger] a[i].neighbors[l2]
            == c[i].neighbors[l2] by {
            assert(a[i].neighbors[l2] == b[i].neighbors[l2]);
            assert(b[i].neighbors[l2] == c[i].neighbors[l2]);
        }
    }
}

proof fn lemma_relinked_same_except(nodes: Seq<NodeView>, i: int, l: int, list: Seq<NodeId>)
    requires
        0 <= i < nodes.len(),
        0 <= l < nodes[i].neighbors.len(),
    ensures
        same_except_layer(nodes, relinked(nodes, i, l, list), l),
{
    let after = relinked(nodes, i, l, list);
    assert(points(after) =~= points(nodes));
    assert forall|a: int| 0 <= a < nodes.len() implies {
        &&& (#[trigger] nodes[a]).id == after[a].id
        &&& nodes[a].neighbors.len() == after[a].neighbors.len()
        &&& forall|l2: int|
            0 <= l2 < nodes[a].neighbors.len() && l2 != l ==> #[trigger] nodes[a].neighbors[l2] == after[a].neighbors[l2]
    } by {}
}

/// Whether a node is linked at a layer other than `l` does not change when
/// only the lists of layer `l` change.
proof fn lemma_linked_frame(a: Seq<NodeView>, b: Seq<NodeView>, l: int, l2: int, x: NodeId)
    requires
        same_except_layer(a, b, l),
        l2 != l,
    ensures
        linked_at(a, l2, x) == linked_at(b, l2, x),
{
    if linked_at(a, l2, x) {
        let (i, j) = choose|i: int, j: int|
            0 <= i < a.len() && 0 <= l2 < a[i].neighbors.len() && 0 <= j < a[i].neighbors[l2].len()
                && #[trigger] a[i].neighbors[l2][j] == x;
        assert(a[i].neighbors[l2] == b[i].neighbors[l2]);
        assert(b[i].neighbors[l2][j] == x);
    }
    if linked_at(b, l2, x) {
        let (i, j) = choose|i: int, j: int|
            0 <= i < b.len() && 0 <= l2 < b[i].neighbors.len() && 0 <= j < b[i].neighbors[l2].len()
                && #[trigger] b[i].neighbors[l2][j] == x;
        assert(a[i].neighbors[l2] == b[i].neighbors[l2]);
        assert(a[i].neighbors[l2][j] == x);
    }
}

/// A new node with empty lists, appended to a sound graph, keeps it sound,
/// and no node links to it.
proof fn lemma_push_node(nodes: Seq<NodeView>, v: NodeView, m: nat)
    requires
        graph_ok(nodes, m),
        v.id == nodes.len(),
        v.neighbors.len() == v.level + 1,
        forall|l: int| 0 <= l < v.neighbors.len() ==> (#[trigger] v.neighbors[l]).len() == 0,
    ensures
        graph_ok(nodes.push(v), m),
        forall|l: int| !#[trigger] linked_at(nodes.push(v), l, nodes.len() as NodeId),
{
    let after = nodes.push(v);
    assert forall|a: int| 0 <= a < after.len() implies {
        &&& (#[trigger] after[a]).id == a
        &&& after[a].neighbors.len() == after[a].level + 1
    } by {
        if a < nodes.len() {
            assert(after[a] == nodes[a]);
        }
    }
    assert forall|a: int, b: int|
        0 <= a < after.len() && 0 <= b < after[a].neighbors.len() implies #[trigger] layer_ok(after, a, b, m) by {
        if a < nodes.len() {
            assert(after[a] == nodes[a]);
            assert(layer_ok(nodes, a, b, m));
            let lst = nodes[a].neighbors[b];
            assert forall|j: int| 0 <= j < lst.len() implies {
                &&& 0 <= #[trigger] lst[j] < after.len()
                &&& lst[j] != a
                &&& after[lst[j] as int].level >= b
            } by {
                assert(after[lst[j] as int] == nodes[lst[j] as int]);
            }
        } else {
            assert(after[a] == v);
            assert(v.neighbors[b].len() == 0);
        }
    }
    assert forall|l: int| !#[trigger] linked_at(after, l, nodes.len() as NodeId) by {
        if linked_at(after, l, nodes.len() as NodeId) {
            let (i, j) = choose|i: int, j: int|
                0 <= i < after.len() && 0 <= l < after[i].neighbors.len() && 0 <= j < after[i].neighbors[l].len()
                    && #[trigger] after[i].neighbors[l][j] == nodes.len() as NodeId;
            if i < nodes.len() {
                assert(after[i] == nodes[i]);
                assert(layer_ok(nodes, i, l, m));
                assert(nodes[i].neighbors[l][j] < nodes.len());
            } else {
                assert(after[i] == v);
            }
        }
    }
}

/// Facts that depend only on the points carry over between node sequences
/// with the same points.
proof fn lemma_points_frame(a: Seq<NodeView>, b: Seq<NodeView>, map: Map<u64, NodeId>, ep: usize, ml: usize)
    requires
        points(a) == points(b),
    ensures
        a.len() == b.len(),
        forall|i: int| 0 <= i < a.len() ==> (#[trigger] a[i]).level == b[i].level && a[i].external_id == b[i].external_id && a[i].vector == b[i].vector,
        index_ok(a, map) == index_ok(b, map),
        entry_ok(a, ep, ml) == entry_ok(b, ep, ml),
{
    assert(points(a).len() == points(b).len());
    assert(points(a).len() == a.len());
    assert(points(b).len() == b.len());
    assert forall|i: int| 0 <= i < a.len() implies (#[trigger] a[i]).level == b[i].level && a[i].external_id
        == b[i].external_id && a[i].vector == b[i].vector by {
        assert(points(a)[i] == points(b)[i]);
        assert(points(a)[i].level == a[i].level && points(a)[i].external_id == a[i].external_id);
        assert(points(a)[i].vector == a[i].vector);
        assert(points(b)[i].level == b[i].level && points(b)[i].external_id == b[i].external_id);
        assert(points(b)[i].vector == b[i].vector);
    }
    if index_ok(a, map) {
        assert forall|i: int| 0 <= i < b.len() implies {
            &&& map.contains_key((#[trigger] b[i]).external_id)
            &&& map[b[i].external_id] >= i
        } by {
            assert(a[i].external_id == b[i].external_id);
        }
        assert forall|k: u64| #[trigger] map.contains_key(k) implies {
            &&& map[k] < b.len()
            &&& b[map[k] as int].external_id == k
        } by {
            assert(a[map[k] as int].external_id == b[map[k] as int].external_id);
        }
    }
    if index_ok(b, map) {
        assert forall|i: int| 0 <= i < a.len() implies {
            &&& map.contains_key((#[trigger] a[i]).external_id)
            &&& map[a[i].external_id] >= i
        } by {
            assert(a[i].external_id == b[i].external_id);
        }
        assert forall|k: u64| #[trigger] map.contains_key(k) implies {
            &&& map[k] < a.len()
            &&& a[map[k] as int].external_id == k
        } by {
            assert(a[map[k] as int].external_id == b[map[k] as int].external_id);
        }
    }
    if a.len() > 0 {
        if entry_ok(a, ep, ml) {
            assert forall|i: int| 0 <= i < b.len() implies (#[trigger] b[i]).level <= ml by {
                assert(a[i].level == b[i].level);
            }
        }
        if entry_ok(b, ep, ml) {
            assert forall|i: int| 0 <= i < a.len() implies (#[trigger] a[i]).level <= ml by {
                assert(a[i].level == b[i].level);
            }
        }
    }
}

/// The entry point is a node of the top level (no node when the graph is
/// empty).
pub open spec fn entry_ok(nodes: Seq<NodeView>, entry_point: usize, max_level: usize) -> bool {
    if nodes.len() == 0 {
        entry_point == usize::MAX && max_level == 0
    } else {
        &&& entry_point < nodes.len()
        &&& nodes[entry_point as int].level == max_level
        &&& forall|i: int| 0 <= i < nodes.len() ==> (#[trigger] nodes[i]).level <= max_level
    }
}

/// Node `i` is the last one inserted with this external id.
pub open spec fn is_last_with(nodes: Seq<NodeView>, external_id: u64, i: int) -> bool {
    &&& 0 <= i < nodes.len()
    &&& nodes[i].external_id == external_id
    &&& forall|j: int| i < j < nodes.len() ==> (#[trigger] nodes[j]).external_id != external_id
}

/// Some node has this external id.
pub open spec fn holds_external(nodes: Seq<NodeView>, external_id: u64) -> bool {
    exists|i: int| 0 <= i < nodes.len() && (#[trigger] nodes[i]).external_id == external_id
}

/// The id map sends each external id to the last node inserted with it.
pub open spec fn index_ok(nodes: Seq<NodeView>, map: Map<u64, NodeId>) -> bool {
    &&& forall|i: int|
        0 <= i < nodes.len() ==> {
            &&& map.contains_key((#[trigger] nodes[i]).external_id)
            &&& map[nodes[i].external_id] >= i
        }
    &&& forall|k: u64|
        #[trigger] map.contains_key(k) ==> {
            &&& map[k] < nodes.len()
            &&& nodes[map[k] as int].external_id == k
        }
}

/// The number of marked positions.
pub open spec fn count_marked(s: Seq<bool>) -> nat
    decreases s.len(),
{
    if s.len() == 0 {
        0
    } else {
        count_marked(s.drop_last()) + if s.last() {
            1nat
        } else {
            0nat
        }
    }
}

proof fn lemma_count_bound(s: Seq<bool>)
    ensures
        count_marked(s) <= s.len(),
    decreases s.len(),
{
    if s.len() > 0 {
        lemma_count_bound(s.drop_last());
    }
}

proof fn lemma_count_mark(s: Seq<bool>, i: int)
    requires
        0 <= i < s.len(),
        !s[i],
    ensures
        count_marked(s.update(i, true)) == count_marked(s) + 1,
    decreases s.len(),
{
    let t = s.update(i, true);
    if i == s.len() - 1 {
        assert(t.drop_last() =~= s.drop_last());
    } else {
        assert(t.drop_last() =~= s.drop_last().update(i, true));
        lemma_count_mark(s.drop_last(), i);
    }
}

proof fn lemma_count_none(s: Seq<bool>)
    requires
        forall|i: int| 0 <= i < s.len() ==> !s[i],
    ensures
        count_marked(s) == 0,
    decreases s.len(),
{
    if s.len() > 0 {
        lemma_count_none(s.drop_last());
    }
}

/// `n` unmarked positions.
fn unmarked(n: usize) -> (v: Vec<bool>)
    ensures
        v@.len() == n,
        forall|i: int| 0 <= i < n ==> !(#[trigger] v@[i]),
        count_marked(v@) == 0,
{
    let mut v: Vec<bool> = Vec::with_capacity(n);
    let mut i: usize = 0;
    while i < n
        invariant
            i <= n,
            v@.len() == i,
            forall|j: int| 0 <= j < i ==> !(#[trigger] v@[j]),
        decreases n - i,
    {
        v.push(false);
        i += 1;
    }
    proof {
        lemma_count_none(v@);
    }
    v
}

/// Some measurement of node `x`'s distance to the query is not below `d`.
pub open spec fn not_nearer<F: Fn(&[u32], &[u32]) -> u32>(
    dist: F,
    nodes: Seq<NodeView>,
    query: Seq<u32>,
    x: int,
    d: u32,
) -> bool {
    exists|e: u32| measured(dist, query, nodes[x].vector, e) && !float_less(e, d)
}

/// Node `v` is a local minimum at layer `l` for the distance `d`: no
/// neighbour of `v` there was measured nearer to the query than `d`.
pub open spec fn local_min<F: Fn(&[u32], &[u32]) -> u32>(
    dist: F,
    nodes: Seq<NodeView>,
    query: Seq<u32>,
    v: int,
    l: int,
    d: u32,
) -> bool {
    forall|j: int|
        0 <= j < nodes[v].neighbors[l].len() ==> not_nearer(dist, nodes, query, #[trigger] nodes[v].neighbors[l][j] as int, d)
}

/// Some node whose level reaches `l` is a local minimum at layer `l` for a
/// measured distance not below `d`.
pub open spec fn reached_min<F: Fn(&[u32], &[u32]) -> u32>(
    dist: F,
    nodes: Seq<NodeView>,
    query: Seq<u32>,
    l: int,
    d: u32,
) -> bool {
    exists|g: int, gd: u32|
        0 <= g < nodes.len() && nodes[g].level >= l && #[trigger] measured(dist, query, nodes[g].vector, gd)
            && local_min(dist, nodes, query, g, l, gd) && !float_less(gd, d)
}

/// `r` is what a greedy descent from `start` through the layers `top` down
/// to `bottom + 1` reaches: a node measured at a distance `cd` that no
/// measurement of `start` undercuts, and, when some layer was searched, at
/// least as near as a local minimum of layer `bottom + 1`.
pub open spec fn descended<F: Fn(&[u32], &[u32]) -> u32>(
    dist: F,
    nodes: Seq<NodeView>,
    query: Seq<u32>,
    start: int,
    top: int,
    bottom: int,
    r: int,
) -> bool {
    exists|cd: u32|
        #[trigger] measured(dist, query, nodes[r].vector, cd) && not_nearer(dist, nodes, query, start, cd) && (top
            > bottom ==> reached_min(dist, nodes, query, bottom + 1, cd))
}

/// `list` is what adding `new_id` to the list `old_list` of node `nb`
/// gives: the list with `new_id` appended, or, when that holds more than
/// `m_max` nodes, the `m` of them measured nearest to `nb` (list order among
/// equal distances), nearest first.
pub open spec fn linked_list<F: Fn(&[u32], &[u32]) -> u32>(
    dist: F,
    pts: Seq<Point>,
    nb: int,
    old_list: Seq<NodeId>,
    new_id: NodeId,
    m: nat,
    m_max: nat,
    list: Seq<NodeId>,
) -> bool {
    let pushed = old_list.push(new_id);
    if pushed.len() <= m_max {
        list == pushed
    } else {
        exists|ds: Seq<u32>, slots: Seq<usize>|
            #![trigger ranks_first(keys_of(ds), false, m, slots)]
            {
                &&& ds.len() == pushed.len()
                &&& forall|t: int|
                    0 <= t < pushed.len() ==> measured(dist, pts[nb].vector, pts[pushed[t] as int].vector, #[trigger] ds[t])
                &&& ranks_first(keys_of(ds), false, m, slots)
                &&& list == slots.map_values(|q: usize| pushed[q as int])
            }
    }
}

/// The candidates are in ascending order of distance.
pub open spec fn by_distance(s: Seq<Candidate>) -> bool {
    forall|i: int, j: int| 0 <= i < j < s.len() ==> order_key(#[trigger] s[i].distance) <= order_key(#[trigger] s[j].distance)
}

/// No node occurs twice among the candidates.
pub open spec fn distinct_nodes(s: Seq<Candidate>) -> bool {
    forall|i: int, j: int| 0 <= i < j < s.len() ==> (#[trigger] s[i]).id != (#[trigger] s[j]).id
}

/// A candidate that a search at layer `l` from `entry_point` can report: a
/// node whose level reaches `l`, that is the entry point or some node's
/// neighbour at `l`, with its distance to the query.
pub open spec fn found<F: Fn(&[u32], &[u32]) -> u32>(
    dist: F,
    nodes: Seq<NodeView>,
    query: Seq<u32>,
    l: int,
    entry_point: NodeId,
    c: Candidate,
) -> bool {
    &&& c.id < nodes.len()
    &&& nodes[c.id as int].level >= l
    &&& c.id == entry_point || linked_at(nodes, l, c.id)
    &&& measured(dist, query, nodes[c.id as int].vector, c.distance)
}

/// The position of a nearest candidate (the first, among equals).
fn nearest_position(cands: &Vec<Candidate>) -> (p: usize)
    requires
        cands@.len() > 0,
    ensures
        p < cands@.len(),
        forall|j: int| 0 <= j < cands@.len() ==> order_key(cands@[p as int].distance) <= order_key(#[trigger] cands@[j].distance),
        forall|j: int| 0 <= j < p ==> order_key(#[trigger] cands@[j].distance) > order_key(cands@[p as int].distance),
{
    let mut best: usize = 0;
    let mut best_key = distance_key(cands[0].distance);
    let mut i: usize = 1;
    while i < cands.len()
        invariant
            1 <= i <= cands@.len(),
            best < i,
            best_key == order_key(cands@[best as int].distance),
            forall|j: int| 0 <= j < i ==> best_key <= order_key(#[trigger] cands@[j].distance),
            forall|j: int| 0 <= j < best ==> order_key(#[trigger] cands@[j].distance) > best_key,
        decreases cands@.len() - i,
    {
        let k = distance_key(cands[i].distance);
        if k < best_key {
            best = i;
            best_key = k;
        }
        i += 1;
    }
    best
}

/// Inserts a candidate after those not farther than it, keeping the order.
fn insert_by_distance(results: &mut Vec<Candidate>, c: Candidate) -> (p: usize)
    requires
        by_distance(old(results)@),
    ensures
        p <= old(results)@.len(),
        final(results)@ == old(results)@.insert(p as int, c),
        by_distance(final(results)@),
{
    let key = distance_key(c.distance);
    let mut p: usize = 0;
    while p < results.len() && distance_key(results[p].distance) <= key
        invariant
            p <= results@.len(),
            key == order_key(c.distance),
            forall|j: int| 0 <= j < p ==> order_key((#[trigger] results@[j]).distance) <= key,
        decreases results@.len() - p,
    {
        p += 1;
    }
    let ghost before = results@;
    results.insert(p, c);
    proof {
        let after = results@;
        assert forall|i: int, j: int| 0 <= i < j < after.len() implies order_key(
            #[trigger] after[i].distance,
        ) <= order_key(#[trigger] after[j].distance) by {
            if j < p {
                assert(after[i] == before[i] && after[j] == before[j]);
            } else if j == p {
                assert(after[i] == before[i]);
            } else if i == p {
                assert(after[j] == before[j - 1]);
                assert(order_key(before[p as int].distance) > key);
                assert(order_key(before[p as int].distance) <= order_key(before[j - 1].distance));
            } else if i < p {
                assert(after[i] == before[i] && after[j] == before[j - 1]);
            } else {
                assert(after[i] == before[i - 1] && after[j] == before[j - 1]);
            }
        }
    }
    p
}

/// `r` is what a search for `query` may return: at most `k` hits (at
/// least one when there is a node and `k >= 1`, none when there is no
/// node), each the external id of a different node with its distance to the
/// query, nearest first.
pub open spec fn search_outcome<F: Fn(&[u32], &[u32]) -> u32>(
    dist: F,
    nodes: Seq<NodeView>,
    query: Seq<u32>,
    k: nat,
    r: Seq<(u64, u32)>,
) -> bool {
    &&& r.len() <= k
    &&& nodes.len() == 0 ==> r.len() == 0
    &&& nodes.len() > 0 && k >= 1 ==> r.len() >= 1
    &&& forall|i: int, j: int| 0 <= i < j < r.len() ==> order_key((#[trigger] r[i]).1) <= order_key((#[trigger] r[j]).1)
    &&& exists|pos: Seq<NodeId>|
        #![trigger pos.len()]
        {
            &&& pos.len() == r.len()
            &&& forall|i: int|
                0 <= i < r.len() ==> {
                    &&& #[trigger] pos[i] < nodes.len()
                    &&& r[i].0 == nodes[pos[i] as int].external_id
                    &&& measured(dist, query, nodes[pos[i] as int].vector, r[i].1)
                }
            &&& forall|i: int, j: int| 0 <= i < j < r.len() ==> #[trigger] pos[i] != #[trigger] pos[j]
        }
}

/// Some candidate is node `x`.
pub open spec fn has_id(s: Seq<Candidate>, x: NodeId) -> bool {
    exists|k: int| 0 <= k < s.len() && (#[trigger] s[k]).id == x
}

/// Every neighbour of node `x` at layer `l` is marked.
pub open spec fn expanded(nodes: Seq<NodeView>, marks: Seq<bool>, x: NodeId, l: int) -> bool {
    forall|t: int|
        0 <= t < nodes[x as int].neighbors[l].len() ==> #[trigger] nodes[x as int].neighbors[l][t] < marks.len()
            && marks[nodes[x as int].neighbors[l][t] as int]
}

/// The candidates are closed under the links of layer `l`: every
/// neighbour there of a candidate is a candidate.
pub open spec fn closed_under_links(nodes: Seq<NodeView>, l: int, w: Seq<Candidate>) -> bool {
    forall|i: int, t: int|
        0 <= i < w.len() && 0 <= t < nodes[w[i].id as int].neighbors[l].len() ==> has_id(
            w,
            #[trigger] nodes[(#[trigger] w[i]).id as int].neighbors[l][t],
        )
}

/// The bookkeeping of a beam search at layer `l`: `marks` are the nodes
/// reached, `seen` their measured distances, `exp` the nodes whose
/// neighbours were all reached; every kept candidate was reached at its
/// measured distance; before the beam is full (`ef` candidates) every
/// reached node is kept, and once it is full every reached node left out is
/// not nearer than the farthest kept one.
pub open spec fn beam_book<F: Fn(&[u32], &[u32]) -> u32>(
    dist: F,
    nodes: Seq<NodeView>,
    query: Seq<u32>,
    l: int,
    ef: nat,
    res: Seq<Candidate>,
    marks: Seq<bool>,
    exp: Seq<bool>,
    seen: Seq<u32>,
) -> bool {
    &&& marks.len() == nodes.len()
    &&& exp.len() == nodes.len()
    &&& seen.len() == nodes.len()
    &&& forall|x: int| 0 <= x < nodes.len() && #[trigger] exp[x] ==> marks[x] && expanded(nodes, marks, x as NodeId, l)
    &&& forall|v: int| 0 <= v < nodes.len() && #[trigger] marks[v] ==> measured(dist, query, nodes[v].vector, seen[v])
    &&& forall|v: int| 0 <= v < nodes.len() && #[trigger] marks[v] ==> nodes[v].level >= l
    &&& res.len() >= 1
    &&& forall|i: int|
        0 <= i < res.len() ==> {
            &&& (#[trigger] res[i]).id < nodes.len()
            &&& marks[res[i].id as int]
            &&& res[i].distance == seen[res[i].id as int]
        }
    &&& res.len() >= ef ==> forall|v: int|
        0 <= v < nodes.len() && #[trigger] marks[v] && !has_id(res, v as NodeId) ==> !float_less(
            seen[v],
            res.last().distance,
        )
    &&& res.len() < ef ==> forall|v: int| 0 <= v < nodes.len() && #[trigger] marks[v] ==> has_id(res, v as NodeId)
}

/// What a beam search from `ep` at layer `l` reached, by the bookkeeping of
/// [`beam_book`]: it expanded `ep` itself.
pub open spec fn beam_visit<F: Fn(&[u32], &[u32]) -> u32>(
    dist: F,
    nodes: Seq<NodeView>,
    query: Seq<u32>,
    l: int,
    ep: NodeId,
    ef: nat,
    res: Seq<Candidate>,
    marks: Seq<bool>,
    exp: Seq<bool>,
    seen: Seq<u32>,
) -> bool {
    &&& beam_book(dist, nodes, query, l, ef, res, marks, exp, seen)
    &&& ep < nodes.len()
    &&& exp[ep as int]
    &&& forall|v: int| 0 <= v < nodes.len() && #[trigger] marks[v] ==> v == ep || linked_at(nodes, l, v as NodeId)
}

/// Marking more nodes keeps a node expanded.
proof fn lemma_expanded_mono(nodes: Seq<NodeView>, m0: Seq<bool>, m1: Seq<bool>, x: NodeId, l: int)
    requires
        m1.len() == m0.len(),
        forall|i: int| 0 <= i < m0.len() && #[trigger] m0[i] ==> m1[i],
        expanded(nodes, m0, x, l),
    ensures
        expanded(nodes, m1, x, l),
{
    assert forall|t: int| 0 <= t < nodes[x as int].neighbors[l].len() implies #[trigger] nodes[x as int].neighbors[l][t]
        < m1.len() && m1[nodes[x as int].neighbors[l][t] as int] by {
        assert(m0[nodes[x as int].neighbors[l][t] as int]);
    }
}

/// Reaching node `nb` at distance `d` without keeping it (the beam is full
/// and `d` is not nearer than its farthest) keeps the bookkeeping.
proof fn lemma_book_skip<F: Fn(&[u32], &[u32]) -> u32>(
    dist: F,
    nodes: Seq<NodeView>,
    query: Seq<u32>,
    l: int,
    ef: nat,
    res: Seq<Candidate>,
    marks0: Seq<bool>,
    exp: Seq<bool>,
    seen0: Seq<u32>,
    nb: NodeId,
    d: u32,
)
    requires
        nodes.len() <= usize::MAX,
        beam_book(dist, nodes, query, l, ef, res, marks0, exp, seen0),
        nb < nodes.len(),
        !marks0[nb as int],
        nodes[nb as int].level >= l,
        measured(dist, query, nodes[nb as int].vector, d),
        res.len() >= ef,
        !float_less(d, res.last().distance),
    ensures
        beam_book(dist, nodes, query, l, ef, res, marks0.update(nb as int, true), exp, seen0.update(nb as int, d)),
{
    let marks = marks0.update(nb as int, true);
    let seen = seen0.update(nb as int, d);
    assert forall|x: int| 0 <= x < nodes.len() && #[trigger] exp[x] implies marks[x] && expanded(nodes, marks, x as NodeId, l) by {
        lemma_expanded_mono(nodes, marks0, marks, x as NodeId, l);
    }
    assert forall|i: int| 0 <= i < res.len() implies {
        &&& (#[trigger] res[i]).id < nodes.len()
        &&& marks[res[i].id as int]
        &&& res[i].distance == seen[res[i].id as int]
    } by {
        assert(marks0[res[i].id as int]);
    }
}

/// Reaching node `nb` at distance `d` and keeping it (inserted at `p`, the
/// farthest kept one dropped when the beam overflows) keeps the
/// bookkeeping.
#[verifier::rlimit(40)]
proof fn lemma_book_keep<F: Fn(&[u32], &[u32]) -> u32>(
    dist: F,
    nodes: Seq<NodeView>,
    query: Seq<u32>,
    l: int,
    ef: nat,
    res0: Seq<Candidate>,
    res: Seq<Candidate>,
    marks0: Seq<bool>,
    exp: Seq<bool>,
    seen0: Seq<u32>,
    c: Candidate,
    p: int,
)
    requires
        nodes.len() <= usize::MAX,
        beam_book(dist, nodes, query, l, ef, res0, marks0, exp, seen0),
        res0.len() < ef ==> forall|v: int| 0 <= v < nodes.len() && #[trigger] marks0[v] ==> has_id(res0, v as NodeId),
        c.id < nodes.len(),
        !marks0[c.id as int],
        nodes[c.id as int].level >= l,
        measured(dist, query, nodes[c.id as int].vector, c.distance),
        res0.len() >= ef ==> float_less(c.distance, res0.last().distance),
        0 <= p <= res0.len(),
        by_distance(res0.insert(p, c)),
        res == (if res0.len() + 1 > ef {
            res0.insert(p, c).drop_last()
        } else {
            res0.insert(p, c)
        }),
    ensures
        beam_book(dist, nodes, query, l, ef, res, marks0.update(c.id as int, true), exp, seen0.update(c.id as int, c.distance)),
{
    let marks = marks0.update(c.id as int, true);
    let seen = seen0.update(c.id as int, c.distance);
    let full = res0.insert(p, c);
    assert forall|x: int| 0 <= x < nodes.len() && #[trigger] exp[x] implies marks[x] && expanded(nodes, marks, x as NodeId, l) by {
        lemma_expanded_mono(nodes, marks0, marks, x as NodeId, l);
    }
    // Every kept candidate was kept before, or is `c`.
    assert forall|i: int| 0 <= i < full.len() implies {
        &&& (#[trigger] full[i]).id < nodes.len()
        &&& marks[full[i].id as int]
        &&& full[i].distance == seen[full[i].id as int]
    } by {
        if i < p {
            assert(full[i] == res0[i]);
            assert(marks0[res0[i].id as int]);
        } else if i > p {
            assert(full[i] == res0[i - 1]);
            assert(marks0[res0[i - 1].id as int]);
        }
    }
    assert forall|i: int| 0 <= i < res.len() implies {
        &&& (#[trigger] res[i]).id < nodes.len()
        &&& marks[res[i].id as int]
        &&& res[i].distance == seen[res[i].id as int]
    } by {
        assert(res[i] == full[i]);
    }
    assert(res.len() >= 1);
    if res0.len() >= ef {
        {
            // `c` is nearer than the farthest kept one, which is the one dropped.
            let last0 = res0.last();
            assert(p < res0.len()) by {
                if p == res0.len() {
                    assert(full[p - 1] == last0);
                    assert(full[p] == c);
                }
            }
            assert(full.last() == last0);
            let nl = res.last();
            assert(nl == full[full.len() - 2]);
            assert(order_key(nl.distance) <= order_key(last0.distance));
            assert forall|v: int| 0 <= v < nodes.len() && #[trigger] marks[v] && !has_id(res, v as NodeId) implies !float_less(
                seen[v],
                res.last().distance,
            ) by {
                if v == c.id as int {
                    assert(res[p] == c);
                } else {
                    assert(marks0[v]);
                    if has_id(res0, v as NodeId) {
                        let k = choose|k: int| 0 <= k < res0.len() && (#[trigger] res0[k]).id == v as NodeId;
                        if k < res0.len() - 1 {
                            if k < p {
                                assert(res[k] == res0[k]);
                            } else {
                                assert(res[k + 1] == res0[k]);
                            }
                        } else {
                            assert(res0[k] == last0);
                            assert(res0[k].distance == seen0[res0[k].id as int]);
                            assert(seen[v] == seen0[v]);
                            assert(seen[v] == last0.distance);
                        }
                    } else {
                        assert(!float_less(seen0[v], last0.distance));
                    }
                }
            }
        }
    } else {
        {
            // The beam was not full: every reached node was kept.
            assert(res == full);
            assert forall|v: int| 0 <= v < nodes.len() && #[trigger] marks[v] implies has_id(res, v as NodeId) by {
                if v == c.id as int {
                    assert(res[p] == c);
                } else {
                    assert(marks0[v]);
                    let k = choose|k: int| 0 <= k < res0.len() && (#[trigger] res0[k]).id == v as NodeId;
                    if k < p {
                        assert(res[k] == res0[k]);
                    } else {
                        assert(res[k + 1] == res0[k]);
                    }
                }
            }
        }
    }
}

/// A beam that gained candidate `c` (newly marked) at position `p` keeps
/// its bookkeeping: every marked node is kept, every candidate is kept, and
/// every kept node is a candidate, expanded, or the one being expanded.
proof fn lemma_beam_grew(
    nodes: Seq<NodeView>,
    n: nat,
    l: int,
    cid: NodeId,
    marks0: Seq<bool>,
    marks: Seq<bool>,
    res0: Seq<Candidate>,
    res: Seq<Candidate>,
    cands0: Seq<Candidate>,
    cands: Seq<Candidate>,
    c: Candidate,
    p: int,
)
    requires
        marks0.len() == n,
        0 <= c.id < n,
        marks == marks0.update(c.id as int, true),
        0 <= p <= res0.len(),
        res == res0.insert(p, c),
        cands == cands0.push(c),
        forall|v: int| 0 <= v < n && #[trigger] marks0[v] ==> has_id(res0, v as NodeId),
        forall|k: int| 0 <= k < cands0.len() ==> res0.contains(#[trigger] cands0[k]),
        forall|i: int|
            0 <= i < res0.len() ==> has_id(cands0, (#[trigger] res0[i]).id) || expanded(nodes, marks0, res0[i].id, l)
                || res0[i].id == cid,
    ensures
        forall|v: int| 0 <= v < n && #[trigger] marks[v] ==> has_id(res, v as NodeId),
        forall|k: int| 0 <= k < cands.len() ==> res.contains(#[trigger] cands[k]),
        forall|i: int|
            0 <= i < res.len() ==> has_id(cands, (#[trigger] res[i]).id) || expanded(nodes, marks, res[i].id, l)
                || res[i].id == cid,
{
    assert(res[p] == c);
    assert forall|v: int| 0 <= v < n && #[trigger] marks[v] implies has_id(res, v as NodeId) by {
        if v != c.id as int {
            assert(marks0[v]);
            let k = choose|k: int| 0 <= k < res0.len() && (#[trigger] res0[k]).id == v as NodeId;
            if k < p {
                assert(res[k] == res0[k]);
            } else {
                assert(res[k + 1] == res0[k]);
            }
        }
    }
    assert forall|k: int| 0 <= k < cands.len() implies res.contains(#[trigger] cands[k]) by {
        if k < cands0.len() {
            assert(cands[k] == cands0[k]);
            let q = choose|q: int| 0 <= q < res0.len() && res0[q] == cands0[k];
            if q < p {
                assert(res[q] == res0[q]);
            } else {
                assert(res[q + 1] == res0[q]);
            }
        }
    }
    assert forall|i: int| 0 <= i < res.len() implies has_id(cands, (#[trigger] res[i]).id) || expanded(nodes, marks, res[i].id, l)
        || res[i].id == cid by {
        if i == p {
            assert(cands[cands0.len() as int] == c);
        } else {
            let bi = if i < p {
                i
            } else {
                i - 1
            };
            assert(res[i] == res0[bi]);
            if has_id(cands0, res0[bi].id) {
                let k = choose|k: int| 0 <= k < cands0.len() && (#[trigger] cands0[k]).id == res0[bi].id;
                assert(cands[k] == cands0[k]);
            } else if expanded(nodes, marks0, res0[bi].id, l) {
                assert forall|t: int| 0 <= t < nodes[res0[bi].id as int].neighbors[l].len() implies marks[#[trigger] nodes[res0[bi].id as int].neighbors[l][t] as int] by {
                    assert(marks0[nodes[res0[bi].id as int].neighbors[l][t] as int]);
                }
            }
        }
    }
}

/// The width of the layer-0 beam of a search for `k` hits: `max(k,
/// ef_search)`.
pub open spec fn beam_width(k: nat, ef_search: nat) -> nat {
    if k > ef_search {
        k
    } else {
        ef_search
    }
}

/// `w` is a sound outcome of a beam search for `query` at layer `l`: at
/// most `cap` different nodes (at least one when `cap_asked >= 1`) whose
/// level reaches `l`, each with its measured distance, nearest first.
pub open spec fn beam_kept<F: Fn(&[u32], &[u32]) -> u32>(
    dist: F,
    pts: Seq<Point>,
    query: Seq<u32>,
    l: int,
    cap_asked: nat,
    w: Seq<Candidate>,
) -> bool {
    &&& w.len() <= (if cap_asked == 0 {
        1
    } else {
        cap_asked
    })
    &&& cap_asked >= 1 ==> w.len() >= 1
    &&& distinct_nodes(w)
    &&& by_distance(w)
    &&& forall|i: int|
        0 <= i < w.len() ==> {
            &&& (#[trigger] w[i]).id < pts.len()
            &&& pts[w[i].id as int].level >= l
            &&& measured(dist, query, pts[w[i].id as int].vector, w[i].distance)
        }
}

/// The hits for some candidates: each node's external id with its
/// distance, in the candidates' order.
pub open spec fn hits_of(nodes: Seq<NodeView>, w: Seq<Candidate>) -> Seq<(u64, u32)> {
    w.map_values(|c: Candidate| (nodes[c.id as int].external_id, c.distance))
}

/// `r` is what a search of the graph returns: nothing for an empty graph;
/// otherwise a greedy descent from the entry point through the upper layers
/// reaches a node `ep` (see [`descended`]), a beam search of width
/// [`beam_width`] at layer 0 from `ep` keeps the candidates `w` (which hold
/// every node linked at layer 0 to one of them when the beam did not fill
/// up, and, when it did, are no farther than any node it reached and left
/// out: see [`beam_visit`]), and `r` is the first `min(k, |w|)` of them,
/// nearest first.
pub open spec fn searched_hits<F: Fn(&[u32], &[u32]) -> u32>(
    dist: F,
    nodes: Seq<NodeView>,
    entry_point: usize,
    max_level: usize,
    ef_search: nat,
    query: Seq<u32>,
    k: nat,
    r: Seq<(u64, u32)>,
) -> bool {
    if nodes.len() == 0 {
        r.len() == 0
    } else {
        exists|ep: int, w: Seq<Candidate>|
            #![trigger descended(dist, nodes, query, entry_point as int, max_level as int, 0, ep), beam_kept(dist, points(nodes), query, 0, beam_width(k, ef_search), w)]
            {
                &&& 0 <= ep < nodes.len()
                &&& descended(dist, nodes, query, entry_point as int, max_level as int, 0, ep)
                &&& beam_kept(dist, points(nodes), query, 0, beam_width(k, ef_search), w)
                &&& forall|i: int| 0 <= i < w.len() ==> found(dist, nodes, query, 0, ep as NodeId, #[trigger] w[i])
                &&& w.len() < beam_width(k, ef_search) ==> closed_under_links(nodes, 0, w)
                &&& exists|marks: Seq<bool>, exp: Seq<bool>, seen: Seq<u32>|
                    #[trigger] beam_visit(dist, nodes, query, 0, ep as NodeId, beam_width(k, ef_search), w, marks, exp, seen)
                &&& r == hits_of(nodes, w.take(min_nat(k, w.len()) as int))
            }
    }
}

/// The highest level a node is given.
pub const MAX_LEVEL: usize = 16usize;

/// The node positions of some candidates, in order.
pub open spec fn candidate_ids(w: Seq<Candidate>) -> Seq<NodeId> {
    w.map_values(|c: Candidate| c.id)
}

/// At layer `l` the new node `x` joined the graph `before`, giving the
/// graph `after`: its list there is the first `min(m, |w|)` of the
/// candidates `w` that a beam search (of width `ef`) for its vector kept
/// among the earlier nodes (from some start `ep`, with the bookkeeping of
/// [`beam_visit`] over `before`), and each of those nodes' lists is its
/// list in `before` with `x` added (see [`linked_list`]).
pub open spec fn layer_joined<F: Fn(&[u32], &[u32]) -> u32>(
    dist: F,
    before: Seq<NodeView>,
    after: Seq<NodeView>,
    x: int,
    query: Seq<u32>,
    l: int,
    m: nat,
    m_max: nat,
    ef: nat,
) -> bool {
    exists|w: Seq<Candidate>|
        #![trigger beam_kept(dist, points(after), query, l, ef, w)]
        {
            &&& beam_kept(dist, points(after), query, l, ef, w)
            &&& forall|i: int| 0 <= i < w.len() ==> (#[trigger] w[i]).id < x
            &&& exists|ep: NodeId, marks: Seq<bool>, exp: Seq<bool>, seen: Seq<u32>|
                #[trigger] beam_visit(dist, before, query, l, ep, ef, w, marks, exp, seen)
            &&& after[x].neighbors[l] == candidate_ids(w.take(min_nat(m, w.len()) as int))
            &&& forall|t: int|
                0 <= t < after[x].neighbors[l].len() ==> linked_list(
                    dist,
                    points(after),
                    #[trigger] after[x].neighbors[l][t] as int,
                    before[after[x].neighbors[l][t] as int].neighbors[l],
                    x as NodeId,
                    m,
                    m_max,
                    after[after[x].neighbors[l][t] as int].neighbors[l],
                )
        }
}

/// A beam search of the graph `g`, made of the nodes of `old` (with the
/// same points and the same lists at layer `l`) and one more node that no
/// list at `l` names and whose own list there is empty, reached only nodes
/// of `old`: it is a beam search of `old`.
proof fn lemma_visit_earlier<F: Fn(&[u32], &[u32]) -> u32>(
    dist: F,
    g: Seq<NodeView>,
    old: Seq<NodeView>,
    query: Seq<u32>,
    l: int,
    ep: NodeId,
    ef: nat,
    w: Seq<Candidate>,
    marks: Seq<bool>,
    exp: Seq<bool>,
    seen: Seq<u32>,
    m: nat,
)
    requires
        g.len() == old.len() + 1,
        graph_ok(g, m),
        graph_ok(old, m),
        0 <= l,
        forall|i: int| 0 <= i < old.len() ==> #[trigger] points(g)[i] == points(old)[i],
        forall|i: int|
            0 <= i < old.len() && l < old[i].neighbors.len() ==> #[trigger] g[i].neighbors[l] == old[i].neighbors[l],
        l < g[old.len() as int].neighbors.len() ==> g[old.len() as int].neighbors[l].len() == 0,
        ep < old.len(),
        !linked_at(g, l, old.len() as NodeId),
        forall|i: int| 0 <= i < w.len() ==> (#[trigger] w[i]).id < old.len(),
        beam_visit(dist, g, query, l, ep, ef, w, marks, exp, seen),
    ensures
        beam_visit(
            dist,
            old,
            query,
            l,
            ep,
            ef,
            w,
            marks.take(old.len() as int),
            exp.take(old.len() as int),
            seen.take(old.len() as int),
        ),
{
    let x = old.len() as int;
    let mk = marks.take(x);
    let ex = exp.take(x);
    let se = seen.take(x);
    assert(!marks[x]);
    assert forall|v: int| 0 <= v < x implies old[v].vector == g[v].vector && old[v].level == g[v].level by {
        assert(points(g)[v] == points(old)[v]);
    }
    assert forall|y: int| 0 <= y < x && #[trigger] ex[y] implies mk[y] && expanded(old, mk, y as NodeId, l) by {
        assert(exp[y] && marks[y]);
        assert(expanded(g, marks, y as NodeId, l));
        assert(g[y].level >= l);
        assert(old[y].neighbors.len() == old[y].level + 1);
        assert(g[y].neighbors[l] == old[y].neighbors[l]);
        assert(layer_ok(old, y, l, m));
        assert forall|t: int| 0 <= t < old[y].neighbors[l].len() implies #[trigger] old[y].neighbors[l][t] < mk.len()
            && mk[old[y].neighbors[l][t] as int] by {
            assert(g[y].neighbors[l][t] == old[y].neighbors[l][t]);
        }
    }
    assert forall|v: int| 0 <= v < x && #[trigger] mk[v] implies v == ep || linked_at(old, l, v as NodeId) by {
        assert(marks[v]);
        if v != ep {
            assert(linked_at(g, l, v as NodeId));
            let (i, j) = choose|i: int, j: int|
                0 <= i < g.len() && 0 <= l < g[i].neighbors.len() && 0 <= j < g[i].neighbors[l].len()
                    && #[trigger] g[i].neighbors[l][j] == v as NodeId;
            assert(i != x);
            assert(g[i].neighbors.len() == g[i].level + 1);
            assert(points(g)[i] == points(old)[i]);
            assert(old[i].neighbors.len() == old[i].level + 1);
            assert(g[i].neighbors[l] == old[i].neighbors[l]);
            assert(old[i].neighbors[l][j] == v as NodeId);
        }
    }
    assert forall|i: int| 0 <= i < w.len() implies {
        &&& (#[trigger] w[i]).id < old.len()
        &&& mk[w[i].id as int]
        &&& w[i].distance == se[w[i].id as int]
    } by {
        assert(marks[w[i].id as int]);
    }
    if w.len() >= ef {
        assert forall|v: int| 0 <= v < x && #[trigger] mk[v] && !has_id(w, v as NodeId) implies !float_less(
            se[v],
            w.last().distance,
        ) by {
            assert(marks[v]);
        }
    }
    assert(beam_book(dist, old, query, l, ef, w, mk, ex, se));
}

/// A change confined to the lists of another layer keeps how the new node
/// joined at layer `l`.
proof fn lemma_joined_frame<F: Fn(&[u32], &[u32]) -> u32>(
    dist: F,
    before: Seq<NodeView>,
    a: Seq<NodeView>,
    b: Seq<NodeView>,
    x: int,
    query: Seq<u32>,
    l: int,
    lc: int,
    m: nat,
    m_max: nat,
    ef: nat,
)
    requires
        graph_ok(a, m),
        same_except_layer(a, b, lc),
        l != lc,
        0 <= x < a.len(),
        0 <= l < a[x].neighbors.len(),
        layer_joined(dist, before, a, x, query, l, m, m_max, ef),
    ensures
        layer_joined(dist, before, b, x, query, l, m, m_max, ef),
{
    let w = choose|w: Seq<Candidate>|
        {
            &&& #[trigger] beam_kept(dist, points(a), query, l, ef, w)
            &&& forall|i: int| 0 <= i < w.len() ==> (#[trigger] w[i]).id < x
            &&& exists|ep: NodeId, marks: Seq<bool>, exp: Seq<bool>, seen: Seq<u32>|
                #[trigger] beam_visit(dist, before, query, l, ep, ef, w, marks, exp, seen)
            &&& a[x].neighbors[l] == candidate_ids(w.take(min_nat(m, w.len()) as int))
            &&& forall|t: int|
                0 <= t < a[x].neighbors[l].len() ==> linked_list(
                    dist,
                    points(a),
                    #[trigger] a[x].neighbors[l][t] as int,
                    before[a[x].neighbors[l][t] as int].neighbors[l],
                    x as NodeId,
                    m,
                    m_max,
                    a[a[x].neighbors[l][t] as int].neighbors[l],
                )
        };
    assert(b[x].neighbors[l] == a[x].neighbors[l]);
    let list = a[x].neighbors[l];
    assert(layer_ok(a, x, l, m));
    assert forall|t: int| 0 <= t < b[x].neighbors[l].len() implies linked_list(
        dist,
        points(b),
        #[trigger] b[x].neighbors[l][t] as int,
        before[b[x].neighbors[l][t] as int].neighbors[l],
        x as NodeId,
        m,
        m_max,
        b[b[x].neighbors[l][t] as int].neighbors[l],
    ) by {
        let s = list[t] as int;
        assert(0 <= s < a.len());
        assert(a[s].neighbors.len() == a[s].level + 1);
        assert(b[s].neighbors[l] == a[s].neighbors[l]);
    }
    assert(beam_kept(dist, points(b), query, l, ef, w));
}

/// One step of an insertion: after the new node `x` joined layer `lc`
/// (the graph `before` becoming `after`), it has joined every layer from
/// `lc` to `top`, and the layers below are still as they were.
#[verifier::rlimit(40)]
proof fn lemma_join_step<F: Fn(&[u32], &[u32]) -> u32>(
    dist: F,
    old_nodes: Seq<NodeView>,
    before: Seq<NodeView>,
    after: Seq<NodeView>,
    x: int,
    query: Seq<u32>,
    lc: int,
    top: int,
    m: nat,
    efc: nat,
    w: Seq<Candidate>,
    selected: Seq<NodeId>,
    curr_ep: NodeId,
    marks: Seq<bool>,
    exp: Seq<bool>,
    seen: Seq<u32>,
)
    requires
        graph_ok(before, m),
        beam_visit(dist, old_nodes, query, lc, curr_ep, efc, w, marks, exp, seen),
        graph_ok(old_nodes, m),
        same_except_layer(before, after, lc),
        old_nodes.len() == x,
        before.len() == x + 1,
        forall|i: int| 0 <= i < x ==> #[trigger] points(before)[i] == points(old_nodes)[i],
        0 <= lc <= top,
        top < before[x].neighbors.len(),
        forall|l: int| lc < l <= top ==> #[trigger] layer_joined(dist, old_nodes, before, x, query, l, m, m, efc),
        forall|i: int, l: int|
            0 <= i < x && 0 <= l < lc + 1 && l < old_nodes[i].neighbors.len() ==> #[trigger] before[i].neighbors[l]
                == old_nodes[i].neighbors[l],
        forall|i: int| 0 <= i < w.len() ==> found(dist, before, query, lc, curr_ep, #[trigger] w[i]),
        curr_ep < x,
        !linked_at(before, lc, x as NodeId),
        w.len() <= (if efc == 0 {
            1
        } else {
            efc
        }),
        efc >= 1 ==> w.len() >= 1,
        distinct_nodes(w),
        by_distance(w),
        selected == candidate_ids(w.take(min_nat(m, w.len()) as int)),
        after[x].neighbors[lc] == selected,
        forall|t: int|
            0 <= t < selected.len() ==> linked_list(
                dist,
                points(before),
                #[trigger] selected[t] as int,
                before[selected[t] as int].neighbors[lc],
                x as NodeId,
                m,
                m,
                after[selected[t] as int].neighbors[lc],
            ),
    ensures
        forall|l: int| lc <= l <= top ==> #[trigger] layer_joined(dist, old_nodes, after, x, query, l, m, m, efc),
        forall|i: int, l: int|
            0 <= i < x && 0 <= l < lc && l < old_nodes[i].neighbors.len() ==> #[trigger] after[i].neighbors[l]
                == old_nodes[i].neighbors[l],
{
    assert(points(after) == points(before));
    assert forall|i: int| 0 <= i < w.len() implies {
        &&& (#[trigger] w[i]).id < points(after).len()
        &&& points(after)[w[i].id as int].level >= lc
        &&& measured(dist, query, points(after)[w[i].id as int].vector, w[i].distance)
    } by {
        assert(found(dist, before, query, lc, curr_ep, w[i]));
    }
    assert(beam_kept(dist, points(after), query, lc, efc, w));
    assert forall|i: int| 0 <= i < w.len() implies (#[trigger] w[i]).id < x by {
        assert(found(dist, before, query, lc, curr_ep, w[i]));
    }
    assert forall|t: int| 0 <= t < after[x].neighbors[lc].len() implies linked_list(
        dist,
        points(after),
        #[trigger] after[x].neighbors[lc][t] as int,
        old_nodes[after[x].neighbors[lc][t] as int].neighbors[lc],
        x as NodeId,
        m,
        m,
        after[after[x].neighbors[lc][t] as int].neighbors[lc],
    ) by {
        let sv = selected[t];
        assert(sv == w[t].id);
        assert(found(dist, before, query, lc, curr_ep, w[t]));
        assert(sv < x);
        assert(points(before)[sv as int] == points(old_nodes)[sv as int]);
        assert(old_nodes[sv as int].neighbors.len() == old_nodes[sv as int].level + 1);
        assert(before[sv as int].neighbors[lc] == old_nodes[sv as int].neighbors[lc]);
    }
    assert(layer_joined(dist, old_nodes, after, x, query, lc, m, m, efc));
    assert forall|l: int| lc <= l <= top implies #[trigger] layer_joined(dist, old_nodes, after, x, query, l, m, m, efc) by {
        if l > lc {
            lemma_joined_frame(dist, old_nodes, before, after, x, query, l, lc, m, m, efc);
        }
    }
    assert forall|i: int, l: int|
        0 <= i < x && 0 <= l < lc && l < old_nodes[i].neighbors.len() implies #[trigger] after[i].neighbors[l]
            == old_nodes[i].neighbors[l] by {
        assert(before[i].neighbors[l] == old_nodes[i].neighbors[l]);
        assert(points(before)[i] == points(old_nodes)[i]);
        assert(before[i].neighbors.len() == before[i].level + 1);
    }
}

/// A copy of a list of node positions.
fn copy_ids(v: &Vec<NodeId>) -> (r: Vec<NodeId>)
    ensures
        r@ == v@,
{
    let mut r: Vec<NodeId> = Vec::with_capacity(v.len());
    let mut i: usize = 0;
    while i < v.len()
        invariant
            i <= v@.len(),
            r@ == v@.subrange(0, i as int),
        decreases v@.len() - i,
    {
        r.push(v[i]);
        i += 1;
        assert(r@ =~= v@.subrange(0, i as int));
    }
    assert(v@.subrange(0, v@.len() as int) =~= v@);
    r
}

/// A hierarchical navigable small-world graph over vectors keyed by `u64`
/// external ids.
pub struct HnswIndex {
    nodes: Vec<Node>,
    id_to_idx: HashMap<u64, NodeId>,
    entry_point: usize,
    max_level: usize,
    dimension: usize,
    metric: DistanceMetric,
    m: usize,
    m_max: usize,
    ef_construction: usize,
    ef_search: usize,
}

impl HnswIndex {
    /// The nodes, in insertion order.
    pub closed spec fn spec_nodes(&self) -> Seq<NodeView> {
        self.nodes@.map_values(|n: Node| n@)
    }

    /// The node searches start from (`usize::MAX` when empty).
    pub closed spec fn spec_entry_point(&self) -> usize {
        self.entry_point
    }

    /// The highest level of any node.
    pub closed spec fn spec_max_level(&self) -> usize {
        self.max_level
    }

    /// The largest number of neighbours a node keeps per layer.
    pub closed spec fn spec_m(&self) -> usize {
        self.m
    }

    /// How many candidates an insertion keeps per layer.
    pub closed spec fn spec_ef_construction(&self) -> usize {
        self.ef_construction
    }

    /// How many candidates a search keeps at least.
    pub closed spec fn spec_ef_search(&self) -> usize {
        self.ef_search
    }

    /// The dimension the index was made for.
    pub closed spec fn spec_dimension(&self) -> usize {
        self.dimension
    }

    /// The metric the index was made for.
    pub closed spec fn spec_metric(&self) -> DistanceMetric {
        self.metric
    }

    /// The graph is sound, the entry point is on the top level and the id
    /// map sends each external id to its last node.
    pub closed spec fn wf(&self) -> bool {
        &&& graph_ok(self.spec_nodes(), self.m as nat)
        &&& entry_ok(self.spec_nodes(), self.entry_point, self.max_level)
        &&& index_ok(self.spec_nodes(), self.id_to_idx@)
        &&& self.m_max == self.m
        &&& self.max_level <= MAX_LEVEL
    }

    /// An empty index.
    pub fn new(dimension: usize, metric: DistanceMetric, m: usize, ef_construction: usize, ef_search: usize) -> (h:
        Self)
        ensures
            h.wf(),
            h.spec_nodes().len() == 0,
            h.spec_entry_point() == usize::MAX,
            h.spec_max_level() == 0,
            h.spec_dimension() == dimension,
            h.spec_metric() == metric,
            h.spec_m() == m,
            h.spec_ef_construction() == ef_construction,
            h.spec_ef_search() == ef_search,
    {
        let h = HnswIndex {
            nodes: Vec::new(),
            id_to_idx: HashMap::new(),
            entry_point: usize::MAX,
            max_level: 0,
            dimension,
            metric,
            m,
            m_max: m,
            ef_construction,
            ef_search,
        };
        proof {
            assert(h.spec_nodes() =~= Seq::<NodeView>::empty());
        }
        h
    }

    /// The number of nodes.
    pub fn len(&self) -> (n: usize)
        ensures
            n == self.spec_nodes().len(),
    {
        self.nodes.len()
    }

    /// Whether there is no node.
    pub fn is_empty(&self) -> (b: bool)
        ensures
            b == (self.spec_nodes().len() == 0),
    {
        self.len() == 0
    }

    /// A copy of node `id`'s vector, if there is such a node.
    pub fn get_vector(&self, id: NodeId) -> (r: Option<Vec<u32>>)
        ensures
            match r {
                Some(v) => id < self.spec_nodes().len() && v@ == self.spec_nodes()[id as int].vector,
                None => id >= self.spec_nodes().len(),
            },
    {
        if id < self.nodes.len() {
            Some(crate::copying::copy_words(self.nodes[id].vector.as_slice()))
        } else {
            None
        }
    }

    /// The node last inserted under an external id, if any.
    pub fn get_id_by_external(&self, external_id: u64) -> (r: Option<NodeId>)
        requires
            self.wf(),
        ensures
            match r {
                Some(i) => is_last_with(self.spec_nodes(), external_id, i as int),
                None => !holds_external(self.spec_nodes(), external_id),
            },
    {
        let ghost nodes = self.spec_nodes();
        match self.id_to_idx.get(&external_id) {
            Some(i) => {
                let i = *i;
                proof {
                    assert(nodes[i as int].external_id == external_id);
                    assert forall|j: int| i < j < nodes.len() implies (#[trigger] nodes[j]).external_id
                        != external_id by {
                        if nodes[j].external_id == external_id {
                            assert(self.id_to_idx@[nodes[j].external_id] >= j);
                        }
                    }
                }
                Some(i)
            },
            None => {
                proof {
                    if holds_external(nodes, external_id) {
                        let i = choose|i: int| 0 <= i < nodes.len() && (#[trigger] nodes[i]).external_id == external_id;
                        assert(self.id_to_idx@.contains_key(nodes[i].external_id));
                    }
                }
                None
            },
        }
    }

    /// Greedy descent at one layer: from the entry point, moves to any
    /// unvisited neighbour of the current node that is nearer to the query,
    /// until a pass over the current node's neighbours finds none; returns
    /// the node reached and its distance.
    fn search_layer_simple<F: Fn(&[u32], &[u32]) -> u32>(
        &self,
        query: &[u32],
        entry_point: NodeId,
        level: usize,
        dist: &F,
    ) -> (r: (NodeId, u32))
        requires
            graph_ok(self.spec_nodes(), self.m as nat),
            total(*dist),
            entry_point < self.spec_nodes().len(),
            self.spec_nodes()[entry_point as int].level >= level,
        ensures
            r.0 < self.spec_nodes().len(),
            self.spec_nodes()[r.0 as int].level >= level,
            measured(*dist, query@, self.spec_nodes()[r.0 as int].vector, r.1),
            local_min(*dist, self.spec_nodes(), query@, r.0 as int, level as int, r.1),
            not_nearer(*dist, self.spec_nodes(), query@, entry_point as int, r.1),
    {
        let ghost nodes = self.spec_nodes();
        let n = self.nodes.len();
        let mut visited = unmarked(n);
        proof {
            lemma_count_mark(visited@, entry_point as int);
        }
        visited.set(entry_point, true);
        let ghost mut nvis: nat = 1;
        let mut curr = entry_point;
        assert(self.nodes@[curr as int]@ == nodes[curr as int]);
        let mut curr_dist = distance(dist, query, &self.nodes[curr].vector);
        let ghost mut seen: Seq<u32> = Seq::new(n as nat, |i: int| 0u32).update(entry_point as int, curr_dist);
        loop
            invariant
                nodes == self.spec_nodes(),
                n == nodes.len(),
                graph_ok(nodes, self.m as nat),
                total(*dist),
                visited@.len() == n,
                seen.len() == n,
                nvis == count_marked(visited@),
                curr < n,
                nodes[curr as int].level >= level,
                measured(*dist, query@, nodes[curr as int].vector, curr_dist),
                entry_point < n,
                visited@[entry_point as int],
                forall|v: int|
                    0 <= v < n && #[trigger] visited@[v] ==> measured(*dist, query@, nodes[v].vector, seen[v])
                        && !float_less(seen[v], curr_dist),
            ensures
                curr < n,
                nodes[curr as int].level >= level,
                measured(*dist, query@, nodes[curr as int].vector, curr_dist),
                local_min(*dist, nodes, query@, curr as int, level as int, curr_dist),
                not_nearer(*dist, nodes, query@, entry_point as int, curr_dist),
            decreases n - nvis,
        {
            proof {
                lemma_count_bound(visited@);
            }
            let c0 = curr;
            let ghost nvis0 = nvis;
            assert(nodes[c0 as int].neighbors.len() == nodes[c0 as int].level + 1);
            assert(self.nodes@[c0 as int]@ == nodes[c0 as int]);
            assert(layer_ok(nodes, c0 as int, level as int, self.m as nat));
            let nbrs = &self.nodes[c0].neighbors[level];
            assert(nbrs@ == nodes[c0 as int].neighbors[level as int]);
            let mut changed = false;
            let mut j: usize = 0;
            while j < nbrs.len()
                invariant
                    nodes == self.spec_nodes(),
                    n == nodes.len(),
                    graph_ok(nodes, self.m as nat),
                    total(*dist),
                    c0 < n,
                    nodes[c0 as int].level >= level,
                    nbrs@ == nodes[c0 as int].neighbors[level as int],
                    layer_ok(nodes, c0 as int, level as int, self.m as nat),
                    j <= nbrs@.len(),
                    visited@.len() == n,
                    seen.len() == n,
                    nvis == count_marked(visited@),
                    nvis >= nvis0,
                    changed ==> nvis > nvis0,
                    !changed ==> curr == c0,
                    curr < n,
                    nodes[curr as int].level >= level,
                    measured(*dist, query@, nodes[curr as int].vector, curr_dist),
                    entry_point < n,
                    visited@[entry_point as int],
                    forall|v: int|
                        0 <= v < n && #[trigger] visited@[v] ==> measured(*dist, query@, nodes[v].vector, seen[v])
                            && !float_less(seen[v], curr_dist),
                    forall|t: int| 0 <= t < j ==> visited@[#[trigger] nbrs@[t] as int],
                decreases nbrs@.len() - j,
            {
                let nb = nbrs[j];
                assert(0 <= nbrs@[j as int] < nodes.len());
                if !visited[nb] {
                    proof {
                        lemma_count_mark(visited@, nb as int);
                        nvis = nvis + 1;
                    }
                    let ghost before = visited@;
                    visited.set(nb, true);
                    assert(self.nodes@[nb as int]@ == nodes[nb as int]);
                    let d = distance(dist, query, &self.nodes[nb].vector);
                    let ghost old_dist = curr_dist;
                    proof {
                        seen = seen.update(nb as int, d);
                    }
                    if f32_less(d, curr_dist) {
                        curr = nb;
                        curr_dist = d;
                        changed = true;
                    }
                    proof {
                        assert forall|v: int|
                            0 <= v < n && #[trigger] visited@[v] implies measured(*dist, query@, nodes[v].vector, seen[v])
                            && !float_less(seen[v], curr_dist) by {
                            if v != nb {
                                assert(before[v]);
                                if curr_dist != old_dist {
                                    lemma_not_below(seen[v], old_dist, curr_dist);
                                }
                            }
                        }
                        assert forall|t: int| 0 <= t < j + 1 implies visited@[#[trigger] nbrs@[t] as int] by {
                            if t < j {
                                assert(before[nbrs@[t] as int]);
                            }
                        }
                    }
                }
                j += 1;
            }
            proof {
                lemma_count_bound(visited@);
            }
            if !changed {
                proof {
                    assert forall|t: int|
                        0 <= t < nodes[curr as int].neighbors[level as int].len() implies not_nearer(
                        *dist,
                        nodes,
                        query@,
                        #[trigger] nodes[curr as int].neighbors[level as int][t] as int,
                        curr_dist,
                    ) by {
                        let x = nbrs@[t] as int;
                        assert(visited@[x]);
                        assert(measured(*dist, query@, nodes[x].vector, seen[x]) && !float_less(seen[x], curr_dist));
                    }
                    assert(measured(*dist, query@, nodes[entry_point as int].vector, seen[entry_point as int]));
                }
                break;
            }
        }
        (curr, curr_dist)
    }

    /// Greedy descent from `start` through the layers from `top` down to
    /// just above `bottom`: at each, a greedy search from the current node,
    /// whose result replaces it when nearer to the query.
    fn descend<F: Fn(&[u32], &[u32]) -> u32>(
        &self,
        query: &[u32],
        start: NodeId,
        top: usize,
        bottom: usize,
        dist: &F,
    ) -> (r: NodeId)
        requires
            graph_ok(self.spec_nodes(), self.m as nat),
            total(*dist),
            start < self.spec_nodes().len(),
            self.spec_nodes()[start as int].level >= top,
        ensures
            r < self.spec_nodes().len(),
            self.spec_nodes()[r as int].level >= (if top <= bottom { top } else { bottom }),
            r == start || self.spec_nodes()[r as int].level > bottom,
            descended(*dist, self.spec_nodes(), query@, start as int, top as int, bottom as int, r as int),
    {
        let ghost nodes = self.spec_nodes();
        assert(self.nodes@[start as int]@ == nodes[start as int]);
        let mut curr_ep = start;
        let mut curr_dist = distance(dist, query, &self.nodes[curr_ep].vector);
        let ghost ds = curr_dist;
        let ghost mut g: int = 0;
        let ghost mut gd: u32 = 0;
        let mut lc = top;
        while lc > bottom
            invariant
                nodes == self.spec_nodes(),
                graph_ok(nodes, self.m as nat),
                total(*dist),
                curr_ep < nodes.len(),
                nodes[curr_ep as int].level >= lc,
                lc <= top,
                top > bottom ==> lc >= bottom,
                curr_ep == start || nodes[curr_ep as int].level > bottom,
                measured(*dist, query@, nodes[curr_ep as int].vector, curr_dist),
                measured(*dist, query@, nodes[start as int].vector, ds),
                !float_less(ds, curr_dist),
                lc < top ==> {
                    &&& 0 <= g < nodes.len()
                    &&& nodes[g].level >= lc + 1
                    &&& measured(*dist, query@, nodes[g].vector, gd)
                    &&& local_min(*dist, nodes, query@, g, lc + 1, gd)
                    &&& !float_less(gd, curr_dist)
                },
            decreases lc,
        {
            let (new_ep, new_dist) = self.search_layer_simple(query, curr_ep, lc, dist);
            let ghost old_dist = curr_dist;
            if f32_less(new_dist, curr_dist) {
                curr_ep = new_ep;
                curr_dist = new_dist;
                proof {
                    lemma_not_below(ds, old_dist, new_dist);
                }
            }
            proof {
                g = new_ep as int;
                gd = new_dist;
            }
            lc -= 1;
        }
        proof {
            assert(not_nearer(*dist, nodes, query@, start as int, curr_dist));
            if top > bottom {
                assert(lc == bottom);
                assert(reached_min(*dist, nodes, query@, bottom + 1, curr_dist));
            }
        }
        curr_ep
    }

    /// Beam search at one layer: keeps the `ef` nearest nodes found so far
    /// (at least the entry point), expands the nearest unexpanded candidate
    /// until it is farther than the farthest kept node, and returns the kept
    /// nodes nearest first.
    #[verifier::rlimit(100)]
    #[verifier::spinoff_prover]
    fn search_layer<F: Fn(&[u32], &[u32]) -> u32>(
        &self,
        query: &[u32],
        entry_point: NodeId,
        ef: usize,
        level: usize,
        dist: &F,
    ) -> (res: Vec<Candidate>)
        requires
            graph_ok(self.spec_nodes(), self.m as nat),
            total(*dist),
            entry_point < self.spec_nodes().len(),
            self.spec_nodes()[entry_point as int].level >= level,
        ensures
            forall|i: int|
                0 <= i < res@.len() ==> found(*dist, self.spec_nodes(), query@, level as int, entry_point, #[trigger] res@[i]),
            distinct_nodes(res@),
            by_distance(res@),
            res@.len() <= (if ef == 0 { 1 } else { ef }),
            ef >= 1 ==> res@.len() >= 1,
            // A beam that never filled up found every node reachable at this layer.
            res@.len() < ef ==> closed_under_links(self.spec_nodes(), level as int, res@),
            exists|marks: Seq<bool>, exp: Seq<bool>, seen: Seq<u32>|
                #[trigger] beam_visit(*dist, self.spec_nodes(), query@, level as int, entry_point, ef as nat, res@, marks, exp, seen),
    {
        let ghost nodes = self.spec_nodes();
        let ghost cap: nat = if ef == 0 { 1 } else { ef as nat };
        let n = self.nodes.len();
        let mut visited = unmarked(n);
        proof {
            lemma_count_mark(visited@, entry_point as int);
        }
        visited.set(entry_point, true);
        let ghost mut nvis: nat = 1;
        assert(self.nodes@[entry_point as int]@ == nodes[entry_point as int]);
        let entry_dist = distance(dist, query, &self.nodes[entry_point].vector);
        let start = Candidate { id: entry_point, distance: entry_dist };
        let mut candidates: Vec<Candidate> = Vec::new();
        candidates.push(start);
        let mut results: Vec<Candidate> = Vec::new();
        results.push(start);
        let mut stop = false;
        let ghost mut exp: Seq<bool> = Seq::new(n as nat, |i: int| false);
        let ghost mut seen: Seq<u32> = Seq::new(n as nat, |i: int| 0u32).update(entry_point as int, entry_dist);
        let ghost mut started = false;
        proof {
            lemma_count_bound(visited@);
            assert(results@[0] == start && candidates@[0] == start);
            assert(results@ =~= seq![start]);
            assert(candidates@ =~= seq![start]);
            assert forall|v: int| 0 <= v < n && #[trigger] visited@[v] implies measured(*dist, query@, nodes[v].vector, seen[v]) by {
                assert(v == entry_point as int);
            }
            assert forall|v: int| 0 <= v < n && #[trigger] visited@[v] && !has_id(results@, v as NodeId) implies !float_less(
                seen[v],
                results@.last().distance,
            ) by {
                assert(v == entry_point as int);
                assert(results@[0].id == entry_point);
            }
            assert(beam_book(*dist, nodes, query@, level as int, ef as nat, results@, visited@, exp, seen));
            assert forall|v: int| 0 <= v < n && #[trigger] visited@[v] implies has_id(results@, v as NodeId) by {
                assert(v == entry_point as int);
            }
            assert(has_id(candidates@, results@[0].id));
        }
        while !stop && candidates.len() > 0
            invariant
                nodes == self.spec_nodes(),
                n == nodes.len(),
                graph_ok(nodes, self.m as nat),
                total(*dist),
                entry_point < n,
                nodes[entry_point as int].level >= level,
                cap == (if ef == 0 { 1 } else { ef as nat }),
                visited@.len() == n,
                nvis == count_marked(visited@),
                nvis <= n,
                forall|i: int|
                    0 <= i < results@.len() ==> found(*dist, nodes, query@, level as int, entry_point, #[trigger] results@[i]),
                forall|i: int| 0 <= i < results@.len() ==> visited@[(#[trigger] results@[i]).id as int],
                forall|i: int|
                    0 <= i < candidates@.len() ==> found(*dist, nodes, query@, level as int, entry_point, #[trigger] candidates@[i]),
                distinct_nodes(results@),
                by_distance(results@),
                results@.len() <= cap,
                ef >= 1 ==> results@.len() >= 1,
                results@.len() < ef ==> forall|k: int| 0 <= k < candidates@.len() ==> results@.contains(#[trigger] candidates@[k]),
                results@.len() < ef ==> forall|i: int|
                    0 <= i < results@.len() ==> has_id(candidates@, (#[trigger] results@[i]).id) || expanded(
                        nodes,
                        visited@,
                        results@[i].id,
                        level as int,
                    ),
                results@.len() < ef ==> !stop,
                beam_book(*dist, nodes, query@, level as int, ef as nat, results@, visited@, exp, seen),
                forall|k: int| 0 <= k < candidates@.len() ==> visited@[(#[trigger] candidates@[k]).id as int],
                forall|v: int| 0 <= v < n && #[trigger] visited@[v] ==> v == entry_point as int || linked_at(nodes, level as int, v as NodeId),
                start.id == entry_point,
                started ==> exp[entry_point as int],
                !started ==> candidates@ == seq![start] && results@ == seq![start] && !stop,
            decreases (n - nvis) + candidates@.len(),
        {
            let ghost measure0: int = (n - nvis) + candidates@.len();
            let ci = nearest_position(&candidates);
            let ghost cands0 = candidates@;
            let curr = candidates.remove(ci);
            proof {
                assert(curr == cands0[ci as int]);
                if results@.len() < ef {
                    assert forall|i: int| 0 <= i < results@.len() implies has_id(candidates@, (#[trigger] results@[i]).id)
                        || expanded(nodes, visited@, results@[i].id, level as int) || results@[i].id == curr.id by {
                        if has_id(cands0, results@[i].id) && results@[i].id != curr.id {
                            let k = choose|k: int| 0 <= k < cands0.len() && (#[trigger] cands0[k]).id == results@[i].id;
                            assert(k != ci);
                            if k < ci {
                                assert(candidates@[k] == cands0[k]);
                            } else {
                                assert(candidates@[k - 1] == cands0[k]);
                            }
                        }
                    }
                    assert forall|k: int| 0 <= k < candidates@.len() implies results@.contains(#[trigger] candidates@[k]) by {
                        if k < ci {
                            assert(candidates@[k] == cands0[k]);
                        } else {
                            assert(candidates@[k] == cands0[k + 1]);
                        }
                    }
                    assert(results@.contains(cands0[ci as int]));
                }
            }
            assert(found(*dist, nodes, query@, level as int, entry_point, curr));
            let worst = if results.len() > 0 {
                results[results.len() - 1].distance
            } else {
                INFINITY_BITS
            };
            if f32_less(worst, curr.distance) {
                proof {
                    if !started {
                        assert(cands0 =~= seq![start]);
                        assert(curr == start);
                        assert(results@[0] == start);
                        assert(false);
                    }
                    if results@.len() < ef {
                        let j = choose|j: int| 0 <= j < results@.len() && results@[j] == curr;
                        if j < results@.len() - 1 {
                            assert(order_key(results@[j].distance) <= order_key(results@[results@.len() - 1].distance));
                        }
                        assert(false);
                    }
                }
                stop = true;
            } else {
                let cid = curr.id;
                assert(nodes[cid as int].neighbors.len() == nodes[cid as int].level + 1);
                assert(self.nodes@[cid as int]@ == nodes[cid as int]);
                assert(layer_ok(nodes, cid as int, level as int, self.m as nat));
                let nbrs = &self.nodes[cid].neighbors[level];
                assert(nbrs@ == nodes[cid as int].neighbors[level as int]);
                let mut j: usize = 0;
                while j < nbrs.len()
                    invariant
                        nodes == self.spec_nodes(),
                        n == nodes.len(),
                        graph_ok(nodes, self.m as nat),
                        total(*dist),
                        entry_point < n,
                        cid < n,
                        nodes[cid as int].level >= level,
                        nbrs@ == nodes[cid as int].neighbors[level as int],
                        layer_ok(nodes, cid as int, level as int, self.m as nat),
                        j <= nbrs@.len(),
                        cap == (if ef == 0 { 1 } else { ef as nat }),
                        visited@.len() == n,
                        nvis == count_marked(visited@),
                        nvis <= n,
                        (n - nvis) + candidates@.len() <= measure0 - 1,
                        forall|i: int|
                            0 <= i < results@.len() ==> found(*dist, nodes, query@, level as int, entry_point, #[trigger] results@[i]),
                        forall|i: int| 0 <= i < results@.len() ==> visited@[(#[trigger] results@[i]).id as int],
                        forall|i: int|
                            0 <= i < candidates@.len() ==> found(*dist, nodes, query@, level as int, entry_point, #[trigger] candidates@[i]),
                        distinct_nodes(results@),
                        by_distance(results@),
                        results@.len() <= cap,
                        ef >= 1 ==> results@.len() >= 1,
                                results@.len() < ef ==> forall|k: int| 0 <= k < candidates@.len() ==> results@.contains(#[trigger] candidates@[k]),
                        results@.len() < ef ==> forall|i: int|
                            0 <= i < results@.len() ==> has_id(candidates@, (#[trigger] results@[i]).id) || expanded(
                                nodes,
                                visited@,
                                results@[i].id,
                                level as int,
                            ) || results@[i].id == cid,
                        forall|t: int| 0 <= t < j ==> visited@[#[trigger] nbrs@[t] as int],
                        beam_book(*dist, nodes, query@, level as int, ef as nat, results@, visited@, exp, seen),
                        forall|k: int| 0 <= k < candidates@.len() ==> visited@[(#[trigger] candidates@[k]).id as int],
                        visited@[cid as int],
                        forall|v: int| 0 <= v < n && #[trigger] visited@[v] ==> v == entry_point as int || linked_at(nodes, level as int, v as NodeId),
                    decreases nbrs@.len() - j,
                {
                    let nb = nbrs[j];
                    let ghost marks0 = visited@;
                    let ghost res0 = results@;
                    let ghost cands0 = candidates@;
                    assert(0 <= nbrs@[j as int] < nodes.len());
                    if !visited[nb] {
                        proof {
                            lemma_count_mark(visited@, nb as int);
                            nvis = nvis + 1;
                        }
                        let ghost before_marks = visited@;
                        visited.set(nb, true);
                        proof {
                            lemma_count_bound(visited@);
                            assert forall|i: int| 0 <= i < results@.len() implies visited@[(#[trigger] results@[i]).id as int] by {
                                assert(before_marks[results@[i].id as int]);
                            }
                            assert(nodes[cid as int].neighbors[level as int][j as int] == nb);
                            assert(linked_at(nodes, level as int, nb));
                            assert forall|v: int| 0 <= v < n && #[trigger] visited@[v] implies v == entry_point as int || linked_at(nodes, level as int, v as NodeId) by {
                                if v != nb as int {
                                    assert(before_marks[v]);
                                }
                            }
                        }
                        assert(self.nodes@[nb as int]@ == nodes[nb as int]);
                        let d = distance(dist, query, &self.nodes[nb].vector);
                        let worst = if results.len() > 0 {
                            results[results.len() - 1].distance
                        } else {
                            INFINITY_BITS
                        };
                        if f32_less(d, worst) || results.len() < ef {
                            let c = Candidate { id: nb, distance: d };
                            proof {
                                assert(nodes[cid as int].neighbors[level as int][j as int] == nb);
                                assert(linked_at(nodes, level as int, nb));
                                assert(found(*dist, nodes, query@, level as int, entry_point, c));
                            }
                            candidates.push(c);
                            let ghost before = results@;
                            let p = insert_by_distance(&mut results, c);
                            proof {
                                let after = results@;
                                assert forall|i: int| 0 <= i < after.len() implies found(*dist, nodes, query@, level as int, entry_point, #[trigger] after[i]) && visited@[after[i].id as int] by {
                                    if i < p {
                                        assert(after[i] == before[i]);
                                    } else if i > p {
                                        assert(after[i] == before[i - 1]);
                                    }
                                }
                                assert forall|a: int, b: int| 0 <= a < b < after.len() implies (#[trigger] after[a]).id != (#[trigger] after[b]).id by {
                                    if a < p && b < p {
                                        assert(after[a] == before[a] && after[b] == before[b]);
                                    } else if a < p && b == p {
                                        assert(after[a] == before[a]);
                                        assert(before_marks[before[a].id as int]);
                                    } else if a < p {
                                        assert(after[a] == before[a] && after[b] == before[b - 1]);
                                    } else if a == p {
                                        assert(after[b] == before[b - 1]);
                                        assert(before_marks[before[b - 1].id as int]);
                                    } else {
                                        assert(after[a] == before[a - 1] && after[b] == before[b - 1]);
                                    }
                                }
                            }
                            if results.len() > ef {
                                let ghost full = results@;
                                let _ = results.pop();
                                proof {
                                    assert(results@ =~= full.drop_last());
                                }
                            }
                            proof {
                                if results@.len() < ef {
                                    lemma_beam_grew(nodes, n as nat, level as int, cid, marks0, visited@, res0, results@, cands0, candidates@, c, p as int);
                                }
                                lemma_book_keep(*dist, nodes, query@, level as int, ef as nat, res0, results@, marks0, exp, seen, c, p as int);
                                seen = seen.update(nb as int, d);
                            }
                        } else {
                            proof {
                                lemma_book_skip(*dist, nodes, query@, level as int, ef as nat, res0, marks0, exp, seen, nb, d);
                                seen = seen.update(nb as int, d);
                            }
                        }
                    }
                    proof {
                        assert forall|t: int| 0 <= t < j + 1 implies visited@[#[trigger] nbrs@[t] as int] by {
                            if t < j {
                                assert(marks0[nbrs@[t] as int]);
                            }
                        }
                        if results@.len() < ef && results@ == res0 {
                            assert forall|i: int| 0 <= i < results@.len() implies has_id(candidates@, (#[trigger] results@[i]).id)
                                || expanded(nodes, visited@, results@[i].id, level as int) || results@[i].id == cid by {
                                if !has_id(candidates@, results@[i].id) && results@[i].id != cid {
                                    assert(expanded(nodes, marks0, results@[i].id, level as int));
                                    assert forall|t: int| 0 <= t < nodes[results@[i].id as int].neighbors[level as int].len() implies visited@[#[trigger] nodes[results@[i].id as int].neighbors[level as int][t] as int] by {
                                        assert(marks0[nodes[results@[i].id as int].neighbors[level as int][t] as int]);
                                    }
                                }
                            }
                            assert forall|v: int| 0 <= v < n && #[trigger] visited@[v] implies has_id(results@, v as NodeId) by {
                                if v != nb as int {
                                    assert(marks0[v]);
                                }
                            }
                        }
                    }
                    j += 1;
                }
                proof {
                    assert forall|t: int| 0 <= t < nodes[cid as int].neighbors[level as int].len() implies #[trigger] nodes[cid as int].neighbors[level as int][t]
                        < visited@.len() && visited@[nodes[cid as int].neighbors[level as int][t] as int] by {
                        assert(nbrs@[t] == nodes[cid as int].neighbors[level as int][t]);
                    }
                    assert(expanded(nodes, visited@, cid, level as int));
                    if !started {
                        assert(cands0 =~= seq![start]);
                        assert(cid == entry_point);
                    }
                    let exp1 = exp.update(cid as int, true);
                    assert forall|x: int| 0 <= x < nodes.len() && #[trigger] exp1[x] implies visited@[x] && expanded(
                        nodes,
                        visited@,
                        x as NodeId,
                        level as int,
                    ) by {
                        if x != cid as int {
                            assert(exp[x]);
                        }
                    }
                    exp = exp1;
                    started = true;
                    if results@.len() < ef {
                        assert forall|i: int| 0 <= i < results@.len() implies has_id(candidates@, (#[trigger] results@[i]).id)
                            || expanded(nodes, visited@, results@[i].id, level as int) by {
                            if results@[i].id == cid {
                                assert forall|t: int| 0 <= t < nodes[cid as int].neighbors[level as int].len() implies visited@[#[trigger] nodes[cid as int].neighbors[level as int][t] as int] by {
                                    assert(nbrs@[t] == nodes[cid as int].neighbors[level as int][t]);
                                }
                            }
                        }
                    }
                }
            }
        }
        proof {
            assert(started);
            assert(beam_visit(*dist, nodes, query@, level as int, entry_point, ef as nat, results@, visited@, exp, seen));
            if results@.len() < ef {
                assert(candidates@.len() == 0);
                assert forall|i: int, t: int|
                    0 <= i < results@.len() && 0 <= t < nodes[results@[i].id as int].neighbors[level as int].len() implies has_id(
                    results@,
                    #[trigger] nodes[(#[trigger] results@[i]).id as int].neighbors[level as int][t],
                ) by {
                    assert(expanded(nodes, visited@, results@[i].id, level as int));
                    let v = nodes[results@[i].id as int].neighbors[level as int][t];
                    assert(visited@[v as int]);
                    assert(layer_ok(nodes, results@[i].id as int, level as int, self.m as nat));
                }
            }
        }
        results
    }

    /// The `k` nearest nodes that the search finds: a greedy descent from
    /// the entry point through the upper layers, then a beam search of
    /// width `max(k, ef_search)` at layer 0. Each hit is a node's external
    /// id and its distance to the query, nearest first.
    pub fn search<F: Fn(&[u32], &[u32]) -> u32>(&self, query: &[u32], k: usize, dist: &F) -> (r: Vec<(u64, u32)>)
        requires
            self.wf(),
            total(*dist),
        ensures
            search_outcome(*dist, self.spec_nodes(), query@, k as nat, r@),
            searched_hits(
                *dist,
                self.spec_nodes(),
                self.spec_entry_point(),
                self.spec_max_level(),
                self.spec_ef_search() as nat,
                query@,
                k as nat,
                r@,
            ),
    {
        let ghost nodes = self.spec_nodes();
        if self.nodes.len() == 0 {
            let r: Vec<(u64, u32)> = Vec::new();
            proof {
                let pos = Seq::<NodeId>::empty();
                assert(pos.len() == r@.len());
            }
            return r;
        }
        let ef = if k > self.ef_search {
            k
        } else {
            self.ef_search
        };
        let curr_ep = self.descend(query, self.entry_point, self.max_level, 0, dist);
        let results = self.search_layer(query, curr_ep, ef, 0, dist);
        let take = if k < results.len() {
            k
        } else {
            results.len()
        };
        let mut r: Vec<(u64, u32)> = Vec::with_capacity(take);
        let mut i: usize = 0;
        while i < take
            invariant
                nodes == self.spec_nodes(),
                take <= results@.len(),
                take <= k,
                i <= take,
                r@.len() == i,
                forall|t: int|
                    0 <= t < results@.len() ==> found(*dist, nodes, query@, 0, curr_ep, #[trigger] results@[t]),
                forall|t: int|
                    0 <= t < i ==> {
                        &&& (#[trigger] r@[t]).0 == nodes[results@[t].id as int].external_id
                        &&& r@[t].1 == results@[t].distance
                    },
                r@ == hits_of(nodes, results@.take(i as int)),
            decreases take - i,
        {
            let c = results[i];
            assert(found(*dist, nodes, query@, 0, curr_ep, results@[i as int]));
            assert(self.nodes@[c.id as int]@ == nodes[c.id as int]);
            r.push((self.nodes[c.id].external_id, c.distance));
            proof {
                assert(results@.take(i + 1) =~= results@.take(i as int).push(c));
                assert(r@ =~= hits_of(nodes, results@.take(i + 1)));
            }
            i += 1;
        }
        proof {
            let w = results@;
            let bw = beam_width(k as nat, self.ef_search as nat);
            assert(bw == ef as nat);
            assert forall|t: int| 0 <= t < w.len() implies {
                &&& (#[trigger] w[t]).id < points(nodes).len()
                &&& points(nodes)[w[t].id as int].level >= 0
                &&& measured(*dist, query@, points(nodes)[w[t].id as int].vector, w[t].distance)
            } by {
                assert(found(*dist, nodes, query@, 0, curr_ep, w[t]));
            }
            assert(beam_kept(*dist, points(nodes), query@, 0, bw, w));
            assert(take == min_nat(k as nat, w.len()));
            assert(descended(*dist, nodes, query@, self.entry_point as int, self.max_level as int, 0, curr_ep as int));
            assert(searched_hits(
                *dist,
                nodes,
                self.entry_point,
                self.max_level,
                self.ef_search as nat,
                query@,
                k as nat,
                r@,
            ));
            let pos = Seq::new(r@.len(), |t: int| results@[t].id);
            assert(pos.len() == r@.len());
            assert forall|t: int| 0 <= t < r@.len() implies {
                &&& #[trigger] pos[t] < nodes.len()
                &&& r@[t].0 == nodes[pos[t] as int].external_id
                &&& measured(*dist, query@, nodes[pos[t] as int].vector, r@[t].1)
            } by {
                assert(found(*dist, nodes, query@, 0, curr_ep, results@[t]));
            }
            assert forall|a: int, b: int| 0 <= a < b < r@.len() implies #[trigger] pos[a] != #[trigger] pos[b] by {
                assert(results@[a].id != results@[b].id);
            }
            assert forall|a: int, b: int| 0 <= a < b < r@.len() implies order_key((#[trigger] r@[a]).1) <= order_key(
                (#[trigger] r@[b]).1,
            ) by {
                assert(order_key(results@[a].distance) <= order_key(results@[b].distance));
            }
        }
        r
    }

    /// Searches for each query in turn.
    pub fn batch_search<F: Fn(&[u32], &[u32]) -> u32>(&self, queries: &[Vec<u32>], k: usize, dist: &F) -> (r: Vec<
        Vec<(u64, u32)>,
    >)
        requires
            self.wf(),
            total(*dist),
        ensures
            r@.len() == queries@.len(),
            forall|q: int|
                0 <= q < queries@.len() ==> search_outcome(
                    *dist,
                    self.spec_nodes(),
                    queries@[q]@,
                    k as nat,
                    #[trigger] r@[q]@,
                ),
            forall|q: int|
                0 <= q < queries@.len() ==> searched_hits(
                    *dist,
                    self.spec_nodes(),
                    self.spec_entry_point(),
                    self.spec_max_level(),
                    self.spec_ef_search() as nat,
                    queries@[q]@,
                    k as nat,
                    #[trigger] r@[q]@,
                ),
    {
        let mut r: Vec<Vec<(u64, u32)>> = Vec::with_capacity(queries.len());
        let mut q: usize = 0;
        while q < queries.len()
            invariant
                self.wf(),
                total(*dist),
                q <= queries@.len(),
                r@.len() == q,
                forall|t: int|
                    0 <= t < q ==> search_outcome(*dist, self.spec_nodes(), queries@[t]@, k as nat, #[trigger] r@[t]@),
                forall|t: int|
                    0 <= t < q ==> searched_hits(
                        *dist,
                        self.spec_nodes(),
                        self.spec_entry_point(),
                        self.spec_max_level(),
                        self.spec_ef_search() as nat,
                        queries@[t]@,
                        k as nat,
                        #[trigger] r@[t]@,
                    ),
            decreases queries@.len() - q,
        {
            let hits = self.search(queries[q].as_slice(), k, dist);
            r.push(hits);
            q += 1;
        }
        r
    }

    /// Replaces the neighbour list of node `i` at layer `l`.
    fn set_links(&mut self, i: NodeId, l: usize, list: Vec<NodeId>)
        requires
            i < old(self).spec_nodes().len(),
            l < old(self).spec_nodes()[i as int].neighbors.len(),
        ensures
            final(self).spec_nodes() == relinked(old(self).spec_nodes(), i as int, l as int, list@),
            final(self).id_to_idx == old(self).id_to_idx,
            final(self).entry_point == old(self).entry_point,
            final(self).max_level == old(self).max_level,
            final(self).dimension == old(self).dimension,
            final(self).metric == old(self).metric,
            final(self).m == old(self).m,
            final(self).m_max == old(self).m_max,
            final(self).ef_construction == old(self).ef_construction,
            final(self).ef_search == old(self).ef_search,
    {
        assert(self.nodes@[i as int]@ == self.spec_nodes()[i as int]);
        self.nodes[i].neighbors.set(l, list);
        proof {
            let want = relinked(old(self).spec_nodes(), i as int, l as int, list@);
            assert(self.nodes@[i as int]@.neighbors =~= want[i as int].neighbors);
            assert(self.spec_nodes() =~= want);
        }
    }

    /// Adds `new_id` to the neighbour list of `nb` at layer `l`; when the
    /// list then holds more than `m_max` nodes, keeps the `m` nearest to
    /// `nb` (in list order among equal distances).
    fn link_back<F: Fn(&[u32], &[u32]) -> u32>(&mut self, nb: NodeId, l: usize, new_id: NodeId, dist: &F)
        requires
            graph_ok(old(self).spec_nodes(), old(self).m as nat),
            old(self).m_max == old(self).m,
            total(*dist),
            nb < old(self).spec_nodes().len(),
            new_id < old(self).spec_nodes().len(),
            nb != new_id,
            l < old(self).spec_nodes()[nb as int].neighbors.len(),
            old(self).spec_nodes()[new_id as int].level >= l,
            !old(self).spec_nodes()[nb as int].neighbors[l as int].contains(new_id),
        ensures
            graph_ok(final(self).spec_nodes(), final(self).m as nat),
            final(self).spec_nodes() == relinked(
                old(self).spec_nodes(),
                nb as int,
                l as int,
                final(self).spec_nodes()[nb as int].neighbors[l as int],
            ),
            linked_list(
                *dist,
                points(old(self).spec_nodes()),
                nb as int,
                old(self).spec_nodes()[nb as int].neighbors[l as int],
                new_id,
                old(self).m as nat,
                old(self).m_max as nat,
                final(self).spec_nodes()[nb as int].neighbors[l as int],
            ),
            final(self).id_to_idx == old(self).id_to_idx,
            final(self).entry_point == old(self).entry_point,
            final(self).max_level == old(self).max_level,
            final(self).dimension == old(self).dimension,
            final(self).metric == old(self).metric,
            final(self).m == old(self).m,
            final(self).m_max == old(self).m_max,
            final(self).ef_construction == old(self).ef_construction,
            final(self).ef_search == old(self).ef_search,
    {
        let ghost nodes = self.spec_nodes();
        let ghost old_list = nodes[nb as int].neighbors[l as int];
        assert(self.nodes@[nb as int]@ == nodes[nb as int]);
        assert(nodes[nb as int].neighbors[l as int] == self.nodes@[nb as int].neighbors@[l as int]@);
        assert(layer_ok(nodes, nb as int, l as int, self.m as nat));
        let mut list = copy_ids(&self.nodes[nb].neighbors[l]);
        list.push(new_id);
        let ghost pushed = list@;
        assert(pushed == old_list.push(new_id));
        assert forall|j: int| 0 <= j < pushed.len() implies {
            &&& 0 <= #[trigger] pushed[j] < nodes.len()
            &&& pushed[j] != nb
            &&& nodes[pushed[j] as int].level >= l
        } by {
            if j < old_list.len() {
                assert(pushed[j] == old_list[j]);
            }
        }
        assert(pushed.no_duplicates()) by {
            assert forall|a: int, b: int| 0 <= a < pushed.len() && 0 <= b < pushed.len() && a != b implies pushed[a]
                != pushed[b] by {
                if a < old_list.len() && b < old_list.len() {
                    assert(pushed[a] == old_list[a] && pushed[b] == old_list[b]);
                } else if a < old_list.len() {
                    assert(pushed[a] == old_list[a]);
                    assert(old_list.contains(old_list[a]));
                } else if b < old_list.len() {
                    assert(pushed[b] == old_list[b]);
                    assert(old_list.contains(old_list[b]));
                }
            }
        }
        if list.len() > self.m_max {
            let mut ds: Vec<u32> = Vec::with_capacity(list.len());
            let mut t: usize = 0;
            while t < list.len()
                invariant
                    nodes == self.spec_nodes(),
                    total(*dist),
                    list@ == pushed,
                    nb < nodes.len(),
                    forall|j: int| 0 <= j < pushed.len() ==> 0 <= #[trigger] pushed[j] < nodes.len(),
                    t <= list@.len(),
                    ds@.len() == t,
                    forall|j: int|
                        0 <= j < t ==> measured(*dist, nodes[nb as int].vector, nodes[pushed[j] as int].vector, #[trigger] ds@[j]),
                decreases list@.len() - t,
            {
                let x = list[t];
                assert(0 <= pushed[t as int] < nodes.len());
                assert(self.nodes@[x as int]@ == nodes[x as int]);
                let d = distance(dist, self.nodes[nb].vector.as_slice(), &self.nodes[x].vector);
                ds.push(d);
                t += 1;
            }
            let keys = distance_keys(ds.as_slice());
            let slots = top_k(keys.as_slice(), self.m, false);
            let mut pruned: Vec<NodeId> = Vec::with_capacity(slots.len());
            let mut s: usize = 0;
            while s < slots.len()
                invariant
                    list@ == pushed,
                    keys@.len() == pushed.len(),
                    ranks_first(keys@, false, self.m as nat, slots@),
                    s <= slots@.len(),
                    pruned@.len() == s,
                    forall|j: int| 0 <= j < s ==> #[trigger] pruned@[j] == pushed[slots@[j] as int],
                decreases slots@.len() - s,
            {
                let slot = slots[s];
                pruned.push(list[slot]);
                s += 1;
            }
            proof {
                let pr = pruned@;
                assert(pr.len() == min_nat(self.m as nat, pushed.len()));
                assert forall|j: int| 0 <= j < pr.len() implies {
                    &&& 0 <= #[trigger] pr[j] < nodes.len()
                    &&& pr[j] != nb
                    &&& nodes[pr[j] as int].level >= l
                } by {
                    let sj = slots@[j] as int;
                    assert(pr[j] == pushed[sj]);
                }
                assert forall|a: int, b: int| 0 <= a < pr.len() && 0 <= b < pr.len() && a != b implies pr[a] != pr[b] by {
                    if a < b {
                        assert(precedes(keys@, false, slots@[a] as int, slots@[b] as int));
                    } else {
                        assert(precedes(keys@, false, slots@[b] as int, slots@[a] as int));
                    }
                    assert(slots@[a] != slots@[b]);
                    assert(pr[a] == pushed[slots@[a] as int]);
                    assert(pr[b] == pushed[slots@[b] as int]);
                }
                assert(list_ok(nodes, nb as int, l as int, pr, self.m as nat));
                let pts = points(nodes);
                assert forall|j: int| 0 <= j < pushed.len() implies measured(
                    *dist,
                    pts[nb as int].vector,
                    pts[pushed[j] as int].vector,
                    #[trigger] ds@[j],
                ) by {
                    assert(pts[nb as int].vector == nodes[nb as int].vector);
                    assert(pts[pushed[j] as int].vector == nodes[pushed[j] as int].vector);
                }
                assert(pr =~= slots@.map_values(|q: usize| pushed[q as int]));
                assert(ranks_first(keys_of(ds@), false, self.m as nat, slots@));
            }
            list = pruned;
        } else {
            assert(list_ok(nodes, nb as int, l as int, pushed, self.m as nat));
        }
        let ghost final_list = list@;
        self.set_links(nb, l, list);
        proof {
            lemma_relink(nodes, nb as int, l as int, final_list, self.m as nat);
        }
    }

    /// Gives node `node_id` the selected neighbours at layer `lc` and adds
    /// it to each of theirs.
    fn connect_layer<F: Fn(&[u32], &[u32]) -> u32>(
        &mut self,
        node_id: NodeId,
        lc: usize,
        selected: &Vec<NodeId>,
        dist: &F,
    )
        requires
            graph_ok(old(self).spec_nodes(), old(self).m as nat),
            old(self).m_max == old(self).m,
            total(*dist),
            node_id < old(self).spec_nodes().len(),
            lc < old(self).spec_nodes()[node_id as int].neighbors.len(),
            list_ok(old(self).spec_nodes(), node_id as int, lc as int, selected@, old(self).m as nat),
            !linked_at(old(self).spec_nodes(), lc as int, node_id),
        ensures
            graph_ok(final(self).spec_nodes(), final(self).m as nat),
            same_except_layer(old(self).spec_nodes(), final(self).spec_nodes(), lc as int),
            final(self).spec_nodes()[node_id as int].neighbors[lc as int] == selected@,
            forall|x: int|
                0 <= x < old(self).spec_nodes().len() && x != node_id && !selected@.contains(x as NodeId) ==> (
                #[trigger] final(self).spec_nodes()[x]).neighbors[lc as int] == old(self).spec_nodes()[x].neighbors[lc as int],
            forall|t: int|
                0 <= t < selected@.len() ==> linked_list(
                    *dist,
                    points(old(self).spec_nodes()),
                    #[trigger] selected@[t] as int,
                    old(self).spec_nodes()[selected@[t] as int].neighbors[lc as int],
                    node_id,
                    old(self).m as nat,
                    old(self).m_max as nat,
                    final(self).spec_nodes()[selected@[t] as int].neighbors[lc as int],
                ),
            final(self).id_to_idx == old(self).id_to_idx,
            final(self).entry_point == old(self).entry_point,
            final(self).max_level == old(self).max_level,
            final(self).dimension == old(self).dimension,
            final(self).metric == old(self).metric,
            final(self).m == old(self).m,
            final(self).m_max == old(self).m_max,
            final(self).ef_construction == old(self).ef_construction,
            final(self).ef_search == old(self).ef_search,
    {
        let ghost start = self.spec_nodes();
        let own = copy_ids(selected);
        self.set_links(node_id, lc, own);
        proof {
            lemma_relink(start, node_id as int, lc as int, selected@, self.m as nat);
            lemma_relinked_same_except(start, node_id as int, lc as int, selected@);
        }
        let mut s: usize = 0;
        while s < selected.len()
            invariant
                graph_ok(self.spec_nodes(), self.m as nat),
                self.m_max == self.m,
                total(*dist),
                same_except_layer(start, self.spec_nodes(), lc as int),
                start.len() == self.spec_nodes().len(),
                node_id < start.len(),
                lc < start[node_id as int].neighbors.len(),
                list_ok(start, node_id as int, lc as int, selected@, self.m as nat),
                !linked_at(start, lc as int, node_id),
                s <= selected@.len(),
                forall|t: int|
                    s <= t < selected@.len() ==> self.spec_nodes()[#[trigger] selected@[t] as int].neighbors[lc as int]
                        == start[selected@[t] as int].neighbors[lc as int],
                self.id_to_idx == old(self).id_to_idx,
                self.entry_point == old(self).entry_point,
                self.max_level == old(self).max_level,
                self.dimension == old(self).dimension,
                self.metric == old(self).metric,
                self.m == old(self).m,
                self.ef_construction == old(self).ef_construction,
                self.ef_search == old(self).ef_search,
                start == old(self).spec_nodes(),
                self.spec_nodes()[node_id as int].neighbors[lc as int] == selected@,
                forall|x: int|
                    0 <= x < start.len() && x != node_id && !selected@.contains(x as NodeId) ==> (
                    #[trigger] self.spec_nodes()[x]).neighbors[lc as int] == start[x].neighbors[lc as int],
                forall|t: int|
                    0 <= t < s ==> linked_list(
                        *dist,
                        points(start),
                        #[trigger] selected@[t] as int,
                        start[selected@[t] as int].neighbors[lc as int],
                        node_id,
                        self.m as nat,
                        self.m_max as nat,
                        self.spec_nodes()[selected@[t] as int].neighbors[lc as int],
                    ),
            decreases selected@.len() - s,
        {
            let nb = selected[s];
            let ghost cur = self.spec_nodes();
            proof {
                lemma_points_frame(start, cur, self.id_to_idx@, self.entry_point, self.max_level);
                assert(0 <= selected@[s as int] < start.len());
                assert(nb != node_id);
                assert(start[nb as int].level >= lc);
                assert(start[nb as int].neighbors.len() == start[nb as int].level + 1);
                assert(cur[nb as int].neighbors.len() == start[nb as int].neighbors.len());
                assert(start[node_id as int].neighbors.len() == start[node_id as int].level + 1);
                assert(cur[nb as int].neighbors[lc as int] == start[nb as int].neighbors[lc as int]);
                if cur[nb as int].neighbors[lc as int].contains(node_id) {
                    let j = choose|j: int|
                        0 <= j < start[nb as int].neighbors[lc as int].len() && start[nb as int].neighbors[lc as int][j]
                            == node_id;
                    assert(start[nb as int].neighbors[lc as int][j] == node_id);
                    assert(linked_at(start, lc as int, node_id));
                }
            }
            self.link_back(nb, lc, node_id, dist);
            proof {
                let after = self.spec_nodes();
                lemma_relinked_same_except(cur, nb as int, lc as int, after[nb as int].neighbors[lc as int]);
                lemma_same_except_trans(start, cur, after, lc as int);
                assert forall|t: int|
                    s + 1 <= t < selected@.len() implies after[#[trigger] selected@[t] as int].neighbors[lc as int]
                        == start[selected@[t] as int].neighbors[lc as int] by {
                    assert(selected@[t] != selected@[s as int]);
                    assert(cur[selected@[t] as int].neighbors[lc as int] == start[selected@[t] as int].neighbors[lc as int]);
                }
                assert(points(cur) == points(start));
                assert forall|x: int|
                    0 <= x < start.len() && x != node_id && !selected@.contains(x as NodeId) implies (
                    #[trigger] after[x]).neighbors[lc as int] == start[x].neighbors[lc as int] by {
                    if x == nb as int {
                        assert(selected@[s as int] == nb);
                    }
                    assert(cur[x].neighbors[lc as int] == start[x].neighbors[lc as int]);
                }
                assert forall|t: int|
                    0 <= t < s + 1 implies linked_list(
                    *dist,
                    points(start),
                    #[trigger] selected@[t] as int,
                    start[selected@[t] as int].neighbors[lc as int],
                    node_id,
                    self.m as nat,
                    self.m_max as nat,
                    after[selected@[t] as int].neighbors[lc as int],
                ) by {
                    if t < s {
                        assert(selected@[t] != selected@[s as int]);
                        assert(after[selected@[t] as int].neighbors[lc as int] == cur[selected@[t] as int].neighbors[lc as int]);
                    }
                }
            }
            s += 1;
        }
    }

    /// Adds a node for a vector at a level (drawn by the caller).
    ///
    /// From the entry point, a greedy descent through the layers above the
    /// node's level finds a start; at each layer from `min(level,
    /// max_level)` down to 0 a beam search of width `ef_construction` finds
    /// candidates, the `m` nearest become the node's neighbours, the node is
    /// added to each of theirs (a list that outgrows `m_max` keeps its `m`
    /// nearest), and the nearest candidate starts the next layer. A node
    /// above the top level becomes the entry point. The external id then
    /// names this node.
    ///
    /// The distance function must not give NaN: pruning sorts distances
    /// with a total order.
    pub fn insert<F: Fn(&[u32], &[u32]) -> u32>(&mut self, external_id: u64, vector: Vec<u32>, level: usize, dist: &F)
        requires
            old(self).wf(),
            total(*dist),
            never_nan(*dist),
            level <= MAX_LEVEL,
        ensures
            final(self).wf(),
            points(final(self).spec_nodes()) == points(old(self).spec_nodes()).push(
                Point { external_id, vector: vector@, level },
            ),
            old(self).spec_nodes().len() > 0 ==> forall|l: int|
                0 <= l <= (if level < old(self).spec_max_level() {
                    level
                } else {
                    old(self).spec_max_level()
                }) ==> #[trigger] layer_joined(
                    *dist,
                    old(self).spec_nodes(),
                    final(self).spec_nodes(),
                    old(self).spec_nodes().len() as int,
                    vector@,
                    l,
                    old(self).spec_m() as nat,
                    old(self).spec_m() as nat,
                    old(self).spec_ef_construction() as nat,
                ),
            old(self).spec_nodes().len() > 0 && old(self).spec_m() >= 1 && old(self).spec_ef_construction() >= 1
                ==> final(self).spec_nodes()[old(self).spec_nodes().len() as int].neighbors[0].len() >= 1,
            old(self).spec_nodes().len() == 0 ==> final(self).spec_entry_point() == 0 && final(self).spec_max_level()
                == level,
            old(self).spec_nodes().len() > 0 && level > old(self).spec_max_level() ==> final(self).spec_entry_point()
                == old(self).spec_nodes().len() && final(self).spec_max_level() == level,
            old(self).spec_nodes().len() > 0 && level <= old(self).spec_max_level() ==> final(self).spec_entry_point()
                == old(self).spec_entry_point() && final(self).spec_max_level() == old(self).spec_max_level(),
            final(self).spec_dimension() == old(self).spec_dimension(),
            final(self).spec_metric() == old(self).spec_metric(),
            final(self).spec_m() == old(self).spec_m(),
            final(self).spec_ef_construction() == old(self).spec_ef_construction(),
            final(self).spec_ef_search() == old(self).spec_ef_search(),
    {
        let ghost old_nodes = self.spec_nodes();
        let ghost new_point = Point { external_id, vector: vector@, level };
        let node_id = self.nodes.len();
        let node = Node::new(node_id, external_id, crate::copying::copy_words(vector.as_slice()), level, self.m);
        let ghost node_view = node@;
        self.nodes.push(node);
        proof {
            assert(self.spec_nodes() =~= old_nodes.push(node_view));
            lemma_push_node(old_nodes, node_view, self.m as nat);
            assert(points(self.spec_nodes()) =~= points(old_nodes).push(new_point));
        }
        let _ = self.id_to_idx.insert(external_id, node_id);
        proof {
            let nodes = self.spec_nodes();
            let map = self.id_to_idx@;
            assert forall|i: int| 0 <= i < nodes.len() implies {
                &&& map.contains_key((#[trigger] nodes[i]).external_id)
                &&& map[nodes[i].external_id] >= i
            } by {
                if i < old_nodes.len() {
                    assert(nodes[i] == old_nodes[i]);
                }
            }
            assert forall|k: u64| #[trigger] map.contains_key(k) implies {
                &&& map[k] < nodes.len()
                &&& nodes[map[k] as int].external_id == k
            } by {
                if k != external_id {
                    assert(nodes[map[k] as int] == old_nodes[map[k] as int]);
                }
            }
            assert(index_ok(nodes, map));
        }
        if node_id == 0 {
            self.entry_point = 0;
            self.max_level = level;
            return;
        }
        let ep = self.entry_point;
        let max_level = self.max_level;
        let top = if level < max_level {
            level
        } else {
            max_level
        };
        proof {
            assert(self.spec_nodes() =~= old_nodes.push(node_view));
            assert(self.spec_nodes()[ep as int] == old_nodes[ep as int]);
            assert forall|l: int| 0 <= l < top + 1 implies !#[trigger] linked_at(self.spec_nodes(), l, node_id) by {
                assert(!linked_at(old_nodes.push(node_view), l, old_nodes.len() as NodeId));
            }
        }
        let mut curr_ep = self.descend(vector.as_slice(), ep, max_level, level, dist);
        let mut layer: usize = top + 1;
        while layer > 0
            invariant
                graph_ok(self.spec_nodes(), self.m as nat),
                self.m_max == self.m,
                total(*dist),
                never_nan(*dist),
                index_ok(self.spec_nodes(), self.id_to_idx@),
                points(self.spec_nodes()) == points(old_nodes).push(new_point),
                self.spec_nodes().len() == node_id + 1,
                node_id == old_nodes.len(),
                self.spec_nodes()[node_id as int].level == level,
                self.spec_nodes()[node_id as int].neighbors.len() == level + 1,
                top <= level,
                top <= max_level,
                layer <= top + 1,
                curr_ep < node_id,
                layer > 0 ==> self.spec_nodes()[curr_ep as int].level >= layer - 1,
                forall|l: int| 0 <= l < layer ==> !#[trigger] linked_at(self.spec_nodes(), l, node_id),
                forall|l: int| 0 <= l < layer ==> (#[trigger] self.spec_nodes()[node_id as int].neighbors[l]).len() == 0,
                graph_ok(old_nodes, self.m as nat),
                forall|l: int|
                    layer <= l <= top ==> #[trigger] layer_joined(
                        *dist,
                        old_nodes,
                        self.spec_nodes(),
                        node_id as int,
                        vector@,
                        l,
                        self.m as nat,
                        self.m as nat,
                        self.ef_construction as nat,
                    ),
                forall|i: int, l: int|
                    0 <= i < node_id && 0 <= l < layer && l < old_nodes[i].neighbors.len() ==> #[trigger] self.spec_nodes()[i].neighbors[l]
                        == old_nodes[i].neighbors[l],
                entry_ok(old_nodes, ep, max_level),
                self.entry_point == ep,
                self.max_level == max_level,
                self.dimension == old(self).dimension,
                self.metric == old(self).metric,
                self.m == old(self).m,
                self.ef_construction == old(self).ef_construction,
                self.ef_search == old(self).ef_search,
            decreases layer,
        {
            let lc = layer - 1;
            let ghost before = self.spec_nodes();
            let neighbors = self.search_layer(vector.as_slice(), curr_ep, self.ef_construction, lc, dist);
            let sel_len = if self.m < neighbors.len() {
                self.m
            } else {
                neighbors.len()
            };
            let mut selected: Vec<NodeId> = Vec::with_capacity(sel_len);
            let mut i: usize = 0;
            while i < sel_len
                invariant
                    sel_len <= neighbors@.len(),
                    i <= sel_len,
                    selected@.len() == i,
                    forall|t: int| 0 <= t < i ==> #[trigger] selected@[t] == neighbors@[t].id,
                decreases sel_len - i,
            {
                selected.push(neighbors[i].id);
                i += 1;
            }
            proof {
                assert(selected@ =~= candidate_ids(neighbors@.take(sel_len as int)));
                assert(sel_len == min_nat(self.m as nat, neighbors@.len()));
                assert forall|i: int| 0 <= i < node_id implies #[trigger] points(before)[i] == points(old_nodes)[i] by {
                    assert(points(old_nodes).push(new_point)[i] == points(old_nodes)[i]);
                }
                assert(!linked_at(before, lc as int, node_id));
                assert forall|j: int| 0 <= j < selected@.len() implies {
                    &&& 0 <= #[trigger] selected@[j] < before.len()
                    &&& selected@[j] != node_id
                    &&& before[selected@[j] as int].level >= lc
                } by {
                    assert(found(*dist, before, vector@, lc as int, curr_ep, neighbors@[j]));
                }
                assert(selected@.no_duplicates()) by {
                    assert forall|a: int, b: int|
                        0 <= a < selected@.len() && 0 <= b < selected@.len() && a != b implies selected@[a]
                        != selected@[b] by {
                        if a < b {
                            assert(neighbors@[a].id != neighbors@[b].id);
                        } else {
                            assert(neighbors@[b].id != neighbors@[a].id);
                        }
                    }
                }
                assert(list_ok(before, node_id as int, lc as int, selected@, self.m as nat));
            }
            self.connect_layer(node_id, lc, &selected, dist);
            proof {
                let after = self.spec_nodes();
                lemma_points_frame(before, after, self.id_to_idx@, ep, max_level);
                assert forall|l: int| 0 <= l < lc implies !#[trigger] linked_at(after, l, node_id) by {
                    lemma_linked_frame(before, after, lc as int, l, node_id);
                }
                assert forall|l: int| 0 <= l < lc implies (#[trigger] after[node_id as int].neighbors[l]).len() == 0 by {
                    assert(after[node_id as int].neighbors[l] == before[node_id as int].neighbors[l]);
                }
                let efc = self.ef_construction as nat;
                let (vm, ve, vs) = choose|marks: Seq<bool>, exp: Seq<bool>, seen: Seq<u32>|
                    #[trigger] beam_visit(*dist, before, vector@, lc as int, curr_ep, efc, neighbors@, marks, exp, seen);
                assert forall|i: int| 0 <= i < neighbors@.len() implies (#[trigger] neighbors@[i]).id < old_nodes.len() by {
                    assert(found(*dist, before, vector@, lc as int, curr_ep, neighbors@[i]));
                    if neighbors@[i].id == node_id {
                        assert(linked_at(before, lc as int, node_id));
                    }
                }
                assert forall|i: int|
                    0 <= i < old_nodes.len() && lc < old_nodes[i].neighbors.len() implies #[trigger] before[i].neighbors[lc as int]
                        == old_nodes[i].neighbors[lc as int] by {}
                lemma_visit_earlier(*dist, before, old_nodes, vector@, lc as int, curr_ep, efc, neighbors@, vm, ve, vs, self.m as nat);
                lemma_join_step(
                    *dist,
                    old_nodes,
                    before,
                    after,
                    node_id as int,
                    vector@,
                    lc as int,
                    top as int,
                    self.m as nat,
                    self.ef_construction as nat,
                    neighbors@,
                    selected@,
                    curr_ep,
                    vm.take(old_nodes.len() as int),
                    ve.take(old_nodes.len() as int),
                    vs.take(old_nodes.len() as int),
                );
            }
            if neighbors.len() > 0 {
                proof {
                    assert(found(*dist, before, vector@, lc as int, curr_ep, neighbors@[0]));
                }
                curr_ep = neighbors[0].id;
            }
            layer -= 1;
        }
        proof {
            if self.m >= 1 && self.ef_construction >= 1 {
                let nodes = self.spec_nodes();
                assert(layer_joined(
                    *dist,
                    old_nodes,
                    nodes,
                    node_id as int,
                    vector@,
                    0,
                    self.m as nat,
                    self.m as nat,
                    self.ef_construction as nat,
                ));
                let w = choose|w: Seq<Candidate>|
                    {
                        &&& #[trigger] beam_kept(*dist, points(nodes), vector@, 0, self.ef_construction as nat, w)
                        &&& forall|i: int| 0 <= i < w.len() ==> (#[trigger] w[i]).id < node_id
                        &&& nodes[node_id as int].neighbors[0] == candidate_ids(
                            w.take(min_nat(self.m as nat, w.len()) as int),
                        )
                        &&& forall|t: int|
                            0 <= t < nodes[node_id as int].neighbors[0].len() ==> linked_list(
                                *dist,
                                points(nodes),
                                #[trigger] nodes[node_id as int].neighbors[0][t] as int,
                                old_nodes[nodes[node_id as int].neighbors[0][t] as int].neighbors[0],
                                node_id as NodeId,
                                self.m as nat,
                                self.m as nat,
                                nodes[nodes[node_id as int].neighbors[0][t] as int].neighbors[0],
                            )
                    };
                assert(w.len() >= 1);
                assert(nodes[node_id as int].neighbors[0].len() == min_nat(self.m as nat, w.len()));
            }
        }
        if level > max_level {
            self.max_level = level;
            self.entry_point = node_id;
        }
        proof {
            let nodes = self.spec_nodes();
            lemma_points_frame(nodes, old_nodes.push(node_view), self.id_to_idx@, self.entry_point, self.max_level);
            assert forall|i: int| 0 <= i < nodes.len() implies (#[trigger] nodes[i]).level <= self.max_level by {
                if i < old_nodes.len() {
                    assert(points(nodes)[i] == points(old_nodes)[i]);
                    assert(points(nodes)[i].level == nodes[i].level);
                }
            }
        }
    }

    /// A copy of the graph: every node with its lists, the id map's pairs
    /// (each once, in node order), the entry point and the top level.
    pub fn serialize(&self) -> (r: SerializableHnsw)
        requires
            self.wf(),
        ensures
            r.nodes@.map_values(|n: SerializableNode| n@) == self.spec_nodes(),
            forall|i: int, j: int|
                0 <= i < j < r.id_to_idx@.len() ==> (#[trigger] r.id_to_idx@[i]).0 != (#[trigger] r.id_to_idx@[j]).0,
            forall|i: int|
                0 <= i < r.id_to_idx@.len() ==> is_last_with(
                    self.spec_nodes(),
                    (#[trigger] r.id_to_idx@[i]).0,
                    r.id_to_idx@[i].1 as int,
                ),
            forall|k: u64|
                holds_external(self.spec_nodes(), k) ==> exists|i: int|
                    0 <= i < r.id_to_idx@.len() && (#[trigger] r.id_to_idx@[i]).0 == k,
            r.entry_point == self.spec_entry_point(),
            r.max_level == self.spec_max_level(),
    {
        let ghost nodes = self.spec_nodes();
        let ghost map = self.id_to_idx@;
        let n = self.nodes.len();
        let mut out: Vec<SerializableNode> = Vec::with_capacity(n);
        let mut pairs: Vec<(u64, NodeId)> = Vec::new();
        let mut i: usize = 0;
        while i < n
            invariant
                nodes == self.spec_nodes(),
                map == self.id_to_idx@,
                self.wf(),
                n == nodes.len(),
                i <= n,
                out@.len() == i,
                forall|t: int| 0 <= t < i ==> (#[trigger] out@[t])@ == nodes[t],
                forall|a: int, b: int|
                    0 <= a < b < pairs@.len() ==> (#[trigger] pairs@[a]).1 < (#[trigger] pairs@[b]).1,
                forall|a: int|
                    0 <= a < pairs@.len() ==> (#[trigger] pairs@[a]).1 < i && map.contains_key(pairs@[a].0) && map[pairs@[a].0]
                        == pairs@[a].1,
                forall|t: int|
                    0 <= t < i && map[nodes[t].external_id] == t ==> exists|a: int|
                        0 <= a < pairs@.len() && (#[trigger] pairs@[a]).1 == t,
            decreases n - i,
        {
            let node = &self.nodes[i];
            assert(node@ == nodes[i as int]);
            let mut lists: Vec<Vec<NodeId>> = Vec::with_capacity(node.neighbors.len());
            let mut l: usize = 0;
            while l < node.neighbors.len()
                invariant
                    l <= node.neighbors@.len(),
                    lists@.len() == l,
                    forall|t: int| 0 <= t < l ==> (#[trigger] lists@[t])@ == node.neighbors@[t]@,
                decreases node.neighbors@.len() - l,
            {
                lists.push(copy_ids(&node.neighbors[l]));
                l += 1;
            }
            let sn = SerializableNode {
                id: node.id,
                external_id: node.external_id,
                vector: crate::copying::copy_words(node.vector.as_slice()),
                level: node.level,
                neighbors: lists,
            };
            proof {
                assert(sn@.neighbors =~= node@.neighbors);
            }
            out.push(sn);
            let ext = node.external_id;
            let ghost before_pairs = pairs@;
            match self.id_to_idx.get(&ext) {
                Some(at) => {
                    if *at == i {
                        pairs.push((ext, i));
                    }
                },
                None => {},
            }
            proof {
                assert forall|t: int|
                    0 <= t < i + 1 && map[nodes[t].external_id] == t implies exists|a: int|
                        0 <= a < pairs@.len() && (#[trigger] pairs@[a]).1 == t by {
                    if t == i {
                        assert(nodes[t].external_id == ext);
                        assert(map.contains_key(nodes[t].external_id));
                        assert(pairs@[pairs@.len() - 1].1 == t);
                    } else {
                        let a = choose|a: int| 0 <= a < before_pairs.len() && (#[trigger] before_pairs[a]).1 == t;
                        assert(pairs@[a] == before_pairs[a]);
                    }
                }
            }
            i += 1;
        }
        proof {
            assert(out@.map_values(|sn: SerializableNode| sn@) =~= nodes);
            assert forall|a: int, b: int| 0 <= a < b < pairs@.len() implies (#[trigger] pairs@[a]).0 != (#[trigger] pairs@[b]).0 by {
                if pairs@[a].0 == pairs@[b].0 {
                    assert(map[pairs@[a].0] == pairs@[a].1);
                    assert(map[pairs@[b].0] == pairs@[b].1);
                }
            }
            assert forall|a: int| 0 <= a < pairs@.len() implies is_last_with(nodes, (#[trigger] pairs@[a]).0, pairs@[a].1 as int) by {
                let k = pairs@[a].0;
                assert forall|j: int| pairs@[a].1 < j < nodes.len() implies (#[trigger] nodes[j]).external_id != k by {
                    if nodes[j].external_id == k {
                        assert(map[nodes[j].external_id] >= j);
                    }
                }
            }
            assert forall|k: u64| holds_external(nodes, k) implies exists|a: int|
                0 <= a < pairs@.len() && (#[trigger] pairs@[a]).0 == k by {
                let t = choose|t: int| 0 <= t < nodes.len() && (#[trigger] nodes[t]).external_id == k;
                assert(map.contains_key(nodes[t].external_id));
                let u = map[k] as int;
                assert(0 <= u < nodes.len());
                assert(nodes[u].external_id == k);
                assert(map[nodes[u].external_id] == u);
                let a = choose|a: int| 0 <= a < pairs@.len() && (#[trigger] pairs@[a]).1 == u;
                assert(map[pairs@[a].0] == pairs@[a].1);
                assert(nodes[map[pairs@[a].0] as int].external_id == pairs@[a].0);
            }
        }
        let r = SerializableHnsw { nodes: out, id_to_idx: pairs, entry_point: self.entry_point, max_level: self.max_level };
        assert(r.id_to_idx@ == pairs@);
        assert forall|k: u64| holds_external(self.spec_nodes(), k) implies exists|i: int|
            0 <= i < r.id_to_idx@.len() && (#[trigger] r.id_to_idx@[i]).0 == k by {
            assert(holds_external(nodes, k));
            let a = choose|a: int| 0 <= a < pairs@.len() && (#[trigger] pairs@[a]).0 == k;
            assert(r.id_to_idx@[a].0 == k);
        }
        r
    }

    /// What well-formedness guarantees: the graph is sound (every list of
    /// every node holds at most `m` distinct other nodes, each of a level
    /// reaching the list's layer), the entry point is a node of the top
    /// level, and no node's level exceeds `MAX_LEVEL`. Every graph that `new`
    /// and `insert` make is well formed.
    pub proof fn law_graph_sound(&self)
        requires
            self.wf(),
        ensures
            graph_ok(self.spec_nodes(), self.spec_m() as nat),
            entry_ok(self.spec_nodes(), self.spec_entry_point(), self.spec_max_level()),
            self.spec_max_level() <= MAX_LEVEL,
            forall|i: int| 0 <= i < self.spec_nodes().len() ==> (#[trigger] self.spec_nodes()[i]).level <= MAX_LEVEL,
    {
        let nodes = self.spec_nodes();
        if nodes.len() > 0 {
            assert forall|i: int| 0 <= i < nodes.len() implies (#[trigger] nodes[i]).level <= MAX_LEVEL by {
                assert(nodes[i].level <= self.max_level);
            }
        }
    }

    /// The largest number of neighbours a node keeps per layer.
    pub fn m(&self) -> (r: usize)
        ensures
            r == self.spec_m(),
    {
        self.m
    }

    /// How many candidates an insertion keeps per layer.
    pub fn ef_construction(&self) -> (r: usize)
        ensures
            r == self.spec_ef_construction(),
    {
        self.ef_construction
    }

    /// How many candidates a search keeps at least.
    pub fn ef_search(&self) -> (r: usize)
        ensures
            r == self.spec_ef_search(),
    {
        self.ef_search
    }
}

/// Reading back what was inserted: after a point is appended, its external
/// id names the new node, and every other external id names the node it
/// named before.
pub proof fn law_lookup_after_insert(before: Seq<NodeView>, after: Seq<NodeView>, p: Point)
    requires
        points(after) == points(before).push(p),
    ensures
        is_last_with(after, p.external_id, before.len() as int),
        forall|k: u64, i: int| k != p.external_id ==> (is_last_with(after, k, i) <==> #[trigger] is_last_with(before, k, i)),
        forall|k: u64| k != p.external_id ==> (holds_external(after, k) <==> #[trigger] holds_external(before, k)),
{
    assert(points(after).len() == after.len());
    assert(points(before).len() == before.len());
    assert forall|i: int| 0 <= i < before.len() implies (#[trigger] after[i]).external_id == before[i].external_id by {
        assert(points(after)[i] == points(before)[i]);
        assert(points(after)[i].external_id == after[i].external_id);
        assert(points(before)[i].external_id == before[i].external_id);
    }
    assert(points(after)[before.len() as int] == p);
    assert(after[before.len() as int].external_id == p.external_id);
    assert forall|k: u64, i: int| k != p.external_id implies (is_last_with(after, k, i) <==> #[trigger] is_last_with(
        before,
        k,
        i,
    )) by {
        if is_last_with(before, k, i) {
            assert forall|j: int| i < j < after.len() implies (#[trigger] after[j]).external_id != k by {
                if j < before.len() {
                    assert(before[j].external_id != k);
                }
            }
        }
        if is_last_with(after, k, i) {
            assert(i != before.len());
            assert forall|j: int| i < j < before.len() implies (#[trigger] before[j]).external_id != k by {
                assert(after[j].external_id != k);
            }
        }
    }
    assert forall|k: u64| k != p.external_id implies (holds_external(after, k) <==> #[trigger] holds_external(before, k)) by {
        if holds_external(before, k) {
            let i = choose|i: int| 0 <= i < before.len() && (#[trigger] before[i]).external_id == k;
            assert(after[i].external_id == k);
        }
        if holds_external(after, k) {
            let i = choose|i: int| 0 <= i < after.len() && (#[trigger] after[i]).external_id == k;
            assert(i < before.len());
            assert(before[i].external_id == k);
        }
    }
}

/// Layer 0 connects every node to every other: any candidates that hold
/// some node and every node linked at layer 0 to one of them hold all the
/// nodes.
pub open spec fn layer0_connected(nodes: Seq<NodeView>) -> bool {
    forall|w: Seq<Candidate>|
        w.len() > 0 && (forall|i: int| 0 <= i < w.len() ==> (#[trigger] w[i]).id < nodes.len()) && #[trigger] closed_under_links(
            nodes,
            0,
            w,
        ) ==> forall|x: int| 0 <= x < nodes.len() ==> #[trigger] has_id(w, x as NodeId)
}

/// On a graph whose layer 0 is connected, a search for `k` hits returns
/// `min(k, n)` of them: the layer-0 beam either fills up to its width (at
/// least `k`) or reaches every node.
pub proof fn law_connected_search_count<F: Fn(&[u32], &[u32]) -> u32>(
    dist: F,
    nodes: Seq<NodeView>,
    entry_point: usize,
    max_level: usize,
    ef_search: nat,
    query: Seq<u32>,
    k: nat,
    r: Seq<(u64, u32)>,
)
    requires
        nodes.len() <= usize::MAX,
        layer0_connected(nodes),
        searched_hits(dist, nodes, entry_point, max_level, ef_search, query, k, r),
    ensures
        r.len() == min_nat(k, nodes.len()),
{
    if nodes.len() > 0 {
        let n = nodes.len();
        let bw = beam_width(k, ef_search);
        let (ep, w) = choose|ep: int, w: Seq<Candidate>|
            {
                &&& 0 <= ep < nodes.len()
                &&& #[trigger] descended(dist, nodes, query, entry_point as int, max_level as int, 0, ep)
                &&& #[trigger] beam_kept(dist, points(nodes), query, 0, bw, w)
                &&& forall|i: int| 0 <= i < w.len() ==> found(dist, nodes, query, 0, ep as NodeId, #[trigger] w[i])
                &&& w.len() < bw ==> closed_under_links(nodes, 0, w)
                &&& exists|marks: Seq<bool>, exp: Seq<bool>, seen: Seq<u32>|
                    #[trigger] beam_visit(dist, nodes, query, 0, ep as NodeId, bw, w, marks, exp, seen)
                &&& r == hits_of(nodes, w.take(min_nat(k, w.len()) as int))
            };
        let ids = candidate_ids(w);
        assert(ids.no_duplicates()) by {
            assert forall|a: int, b: int| 0 <= a < ids.len() && 0 <= b < ids.len() && a != b implies ids[a] != ids[b] by {
                if a < b {
                    assert(w[a].id != w[b].id);
                } else {
                    assert(w[b].id != w[a].id);
                }
            }
        }
        assert forall|i: int| 0 <= i < ids.len() implies #[trigger] ids[i] < n by {
            assert(w[i].id < points(nodes).len());
        }
        crate::ranking::lemma_positions_cover(ids, n);
        if k > 0 && w.len() < bw {
            assert(w.len() > 0);
            assert(closed_under_links(nodes, 0, w));
            assert forall|i: int| 0 <= i < w.len() implies (#[trigger] w[i]).id < nodes.len() by {
                assert(ids[i] == w[i].id);
            }
            assert forall|t: int| 0 <= t < n implies ids.contains(#[trigger] (t as usize)) by {
                assert(has_id(w, t as NodeId));
                let q = choose|q: int| 0 <= q < w.len() && (#[trigger] w[q]).id == t as NodeId;
                assert(ids[q] == t as usize);
            }
        }
    }
}

/// A beam keeps the nearest nodes it reached: every kept candidate is at
/// most as far as any reached node it left out (distances that are not NaN).
pub proof fn law_beam_keeps_nearest<F: Fn(&[u32], &[u32]) -> u32>(
    dist: F,
    nodes: Seq<NodeView>,
    query: Seq<u32>,
    l: int,
    ep: NodeId,
    ef: nat,
    w: Seq<Candidate>,
    marks: Seq<bool>,
    exp: Seq<bool>,
    seen: Seq<u32>,
    i: int,
    v: int,
)
    requires
        nodes.len() <= usize::MAX,
        beam_visit(dist, nodes, query, l, ep, ef, w, marks, exp, seen),
        by_distance(w),
        0 <= i < w.len(),
        0 <= v < nodes.len(),
        marks[v],
        !has_id(w, v as NodeId),
        !is_nan_bits(seen[v]),
        !is_nan_bits(w.last().distance),
    ensures
        order_key(w[i].distance) <= order_key(seen[v]),
{
    if w.len() < ef {
        assert(false);
    }
    assert(!float_less(seen[v], w.last().distance));
    if i < w.len() - 1 {
        assert(order_key(w[i].distance) <= order_key(w[w.len() - 1].distance));
    }
}

} // verus!

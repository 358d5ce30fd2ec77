//! Breadth-first search: the least number of edges from a start node to
//! every node, and the totals from which an average path length is taken.

use crate::network::{has_arc, is_undirected, Adjacency, Graph};
use vstd::prelude::*;

verus! {

broadcast use vstd::std_specs::hash::group_hash_axioms;

/// The entry of a distance vector for a node that no walk from the start reaches.
pub const UNREACHABLE: usize = usize::MAX;

/// `p` is a non-empty sequence of nodes, each joined to the next by an arc.
pub open spec fn is_walk(g: Adjacency, p: Seq<usize>) -> bool {
    &&& p.len() > 0
    &&& forall|i: int| 0 <= i < p.len() - 1 ==> has_arc(g, #[trigger] p[i], p[i + 1])
}

/// Some walk of exactly `d` arcs leads from `s` to `t`.
pub open spec fn reachable_in(g: Adjacency, s: usize, t: usize, d: nat) -> bool {
    exists|p: Seq<usize>|
        #[trigger] is_walk(g, p) && p.first() == s && p.last() == t && p.len() == d + 1
}

/// Some walk leads from `s` to `t`.
pub open spec fn reachable(g: Adjacency, s: usize, t: usize) -> bool {
    exists|d: nat| reachable_in(g, s, t, d)
}

/// `d` is the least number of arcs of a walk from `s` to `t`.
pub open spec fn is_distance(g: Adjacency, s: usize, t: usize, d: nat) -> bool {
    &&& reachable_in(g, s, t, d)
    &&& forall|k: nat| k < d ==> !reachable_in(g, s, t, k)
}

/// Every node that a walk from `s` reaches is below `n`, `s` itself included.
pub open spec fn reach_in_range(g: Adjacency, s: usize, n: nat) -> bool {
    forall|t: usize| reachable(g, s, t) ==> t < n
}

/// `dist` has one entry per registered node; the entry at `t` is the distance
/// from `s` to `t`, or `UNREACHABLE` where no walk leads there.
pub open spec fn is_distance_vector(g: Adjacency, s: usize, dist: Seq<usize>) -> bool {
    &&& dist.len() == g.dom().len()
    &&& dist.len() <= usize::MAX
    &&& forall|t: usize|
        t < dist.len() ==> if reachable(g, s, t) {
            #[trigger] dist[t as int] != UNREACHABLE && is_distance(g, s, t, dist[t as int] as nat)
        } else {
            dist[t as int] == UNREACHABLE
        }
}

/// A walk grows by one arc at its end.
pub proof fn lemma_walk_extends(g: Adjacency, s: usize, u: usize, w: usize, d: nat)
    requires
        reachable_in(g, s, u, d),
        has_arc(g, u, w),
    ensures
        reachable_in(g, s, w, d + 1),
{
    let p = choose|p: Seq<usize>|
        #[trigger] is_walk(g, p) && p.first() == s && p.last() == u && p.len() == d + 1;
    let r = p.push(w);
    assert forall|i: int| 0 <= i < r.len() - 1 implies has_arc(g, #[trigger] r[i], r[i + 1]) by {
        if i < p.len() - 1 {
            assert(has_arc(g, p[i], p[i + 1]));
        }
    }
    assert(is_walk(g, r) && r.first() == s && r.last() == w && r.len() == d + 2);
}

/// Every node is at distance 0 from itself.
pub proof fn lemma_distance_to_self(g: Adjacency, s: usize)
    ensures
        is_distance(g, s, s, 0),
{
    let p = seq![s];
    assert(is_walk(g, p) && p.first() == s && p.last() == s && p.len() == 1);
}

/// The distance between two nodes, where there is one, is a single number.
pub proof fn lemma_distance_unique(g: Adjacency, s: usize, t: usize, a: nat, b: nat)
    requires
        is_distance(g, s, t, a),
        is_distance(g, s, t, b),
    ensures
        a == b,
{
}

/// A graph has at most one distance vector for a start node.
pub proof fn lemma_distance_vector_unique(g: Adjacency, s: usize, a: Seq<usize>, b: Seq<usize>)
    requires
        is_distance_vector(g, s, a),
        is_distance_vector(g, s, b),
    ensures
        a == b,
{
    assert forall|i: int| 0 <= i < a.len() implies a[i] == b[i] by {
        let t = i as usize;
        assert(a[t as int] == a[i]);
        assert(b[t as int] == b[i]);
        if reachable(g, s, t) {
            lemma_distance_unique(g, s, t, a[i] as nat, b[i] as nat);
        }
    }
    assert(a =~= b);
}

/// In an undirected graph a walk read backwards is a walk.
pub proof fn lemma_reachable_in_symmetric(g: Adjacency, u: usize, v: usize, d: nat)
    requires
        is_undirected(g),
        reachable_in(g, u, v, d),
    ensures
        reachable_in(g, v, u, d),
{
    let p = choose|p: Seq<usize>|
        #[trigger] is_walk(g, p) && p.first() == u && p.last() == v && p.len() == d + 1;
    let r = Seq::new(p.len(), |i: int| p[p.len() - 1 - i]);
    assert forall|i: int| 0 <= i < r.len() - 1 implies has_arc(g, #[trigger] r[i], r[i + 1]) by {
        let j = p.len() - 2 - i;
        assert(has_arc(g, p[j], p[j + 1]));
    }
    assert(is_walk(g, r) && r.first() == v && r.last() == u && r.len() == d + 1);
}

/// In an undirected graph the distance from `u` to `v` is the distance from
/// `v` to `u`.
pub proof fn lemma_distance_symmetric(g: Adjacency, u: usize, v: usize, d: nat)
    requires
        is_undirected(g),
        is_distance(g, u, v, d),
    ensures
        is_distance(g, v, u, d),
{
    lemma_reachable_in_symmetric(g, u, v, d);
    assert forall|k: nat| k < d implies !reachable_in(g, v, u, k) by {
        if reachable_in(g, v, u, k) {
            lemma_reachable_in_symmetric(g, v, u, k);
        }
    }
}

/// `v` has an entry in `dist` and the search has reached it.
spec fn visited(dist: Seq<usize>, v: usize) -> bool {
    v < dist.len() && dist[v as int] != UNREACHABLE
}

/// Every neighbour of `u` has been reached, at most one step beyond `u`.
spec fn relaxed_from(g: Adjacency, dist: Seq<usize>, u: usize) -> bool {
    forall|w: usize| #[trigger]
        has_arc(g, u, w) ==> visited(dist, w) && dist[w as int] <= dist[u as int] + 1
}

/// What holds of the search whenever it looks at its queue: `q` lists the
/// nodes reached so far in the order they were reached, the first `head` of
/// them with all their neighbours seen.
spec fn search_state(g: Adjacency, s: usize, dist: Seq<usize>, q: Seq<usize>, head: int) -> bool {
    &&& dist.len() == g.dom().len()
    &&& dist.len() <= usize::MAX
    &&& 0 <= head <= q.len()
    &&& visited(dist, s) && dist[s as int] == 0
    &&& q.no_duplicates()
    &&& forall|v: usize| visited(dist, v) <==> #[trigger] q.contains(v)
    &&& forall|i: int|
        0 <= i < q.len() ==> reachable_in(g, s, #[trigger] q[i], dist[q[i] as int] as nat)
    &&& forall|i: int, j: int|
        0 <= i <= j < q.len() ==> dist[#[trigger] q[i] as int] <= dist[#[trigger] q[j] as int]
    &&& forall|j: int|
        0 <= j < q.len() && head < q.len() ==> dist[#[trigger] q[j] as int] <= dist[q[head] as int]
            + 1
    &&& forall|i: int| 0 <= i < head ==> relaxed_from(g, dist, #[trigger] q[i])
    &&& forall|i: int| 0 <= i < q.len() ==> dist[#[trigger] q[i] as int] <= i
}

/// Distinct numbers below `n` are at most `n` in number.
proof fn lemma_distinct_below(q: Seq<usize>, n: nat)
    requires
        q.no_duplicates(),
        forall|i: int| 0 <= i < q.len() ==> #[trigger] q[i] < n,
    ensures
        q.len() <= n,
    decreases n,
{
    if n == 0 {
        if q.len() > 0 {
            assert(q[0] < n);
        }
    } else if exists|j: int| 0 <= j < q.len() && #[trigger] q[j] == n - 1 {
        let j = choose|j: int| 0 <= j < q.len() && #[trigger] q[j] == n - 1;
        let r = q.remove(j);
        assert forall|i: int| 0 <= i < r.len() implies #[trigger] r[i] < n - 1 by {
            if i < j {
                assert(r[i] == q[i]);
                assert(q[i] < n);
            } else {
                assert(r[i] == q[i + 1]);
                assert(q[i + 1] < n);
            }
        }
        assert forall|a: int, b: int| 0 <= a < r.len() && 0 <= b < r.len() && a != b implies r[a]
            != r[b] by {
            let a1 = if a < j { a } else { a + 1 };
            let b1 = if b < j { b } else { b + 1 };
            assert(r[a] == q[a1] && r[b] == q[b1]);
        }
        lemma_distinct_below(r, (n - 1) as nat);
    } else {
        assert forall|i: int| 0 <= i < q.len() implies #[trigger] q[i] < n - 1 by {
            assert(q[i] < n);
        }
        lemma_distinct_below(q, (n - 1) as nat);
    }
}

/// The nodes reached so far are no more than the graph has entries for.
proof fn lemma_queue_fits(g: Adjacency, s: usize, dist: Seq<usize>, q: Seq<usize>, head: int)
    requires
        search_state(g, s, dist, q, head),
    ensures
        q.len() <= dist.len(),
{
    assert forall|i: int| 0 <= i < q.len() implies #[trigger] q[i] < dist.len() by {
        assert(q.contains(q[i]));
    }
    lemma_distinct_below(q, dist.len());
}

/// Once every reached node has had its neighbours seen, each node of a walk
/// from `s` has been reached, and its entry is at most its place in the walk.
proof fn lemma_walk_stays_visited(
    g: Adjacency,
    s: usize,
    dist: Seq<usize>,
    q: Seq<usize>,
    p: Seq<usize>,
    i: int,
)
    requires
        search_state(g, s, dist, q, q.len() as int),
        is_walk(g, p),
        p.first() == s,
        0 <= i < p.len(),
    ensures
        visited(dist, p[i]),
        dist[p[i] as int] <= i,
    decreases i,
{
    if i > 0 {
        lemma_walk_stays_visited(g, s, dist, q, p, i - 1);
        let u = p[i - 1];
        assert(q.contains(u));
        let j = choose|j: int| 0 <= j < q.len() && q[j] == u;
        assert(relaxed_from(g, dist, q[j]));
        assert(has_arc(g, p[i - 1], p[i - 1 + 1]));
    }
}

/// A finished search holds the distance vector, and has reached every node
/// that a walk from `s` leads to.
proof fn lemma_search_complete(g: Adjacency, s: usize, dist: Seq<usize>, q: Seq<usize>)
    requires
        search_state(g, s, dist, q, q.len() as int),
    ensures
        reach_in_range(g, s, g.dom().len()),
        is_distance_vector(g, s, dist),
{
    assert forall|t: usize, d: nat| reachable_in(g, s, t, d) implies visited(dist, t) && dist[t as int]
        <= d by {
        let p = choose|p: Seq<usize>|
            #[trigger] is_walk(g, p) && p.first() == s && p.last() == t && p.len() == d + 1;
        lemma_walk_stays_visited(g, s, dist, q, p, d as int);
    }
    assert forall|t: usize| t < dist.len() implies if reachable(g, s, t) {
        #[trigger] dist[t as int] != UNREACHABLE && is_distance(g, s, t, dist[t as int] as nat)
    } else {
        dist[t as int] == UNREACHABLE
    } by {
        if visited(dist, t) {
            assert(q.contains(t));
            let j = choose|j: int| 0 <= j < q.len() && q[j] == t;
            assert(reachable_in(g, s, q[j], dist[q[j] as int] as nat));
            assert(reachable(g, s, t));
        }
    }
}

/// A vector of `n` entries, each `UNREACHABLE`.
fn all_unreachable(n: usize) -> (dist: Vec<usize>)
    ensures
        dist@.len() == n,
        forall|i: int| 0 <= i < n ==> dist@[i] == UNREACHABLE,
{
    let mut dist: Vec<usize> = Vec::new();
    while dist.len() < n
        invariant
            dist@.len() <= n,
            forall|i: int| 0 <= i < dist@.len() ==> dist@[i] == UNREACHABLE,
        decreases n - dist@.len(),
    {
        dist.push(UNREACHABLE);
    }
    dist
}

/// Breadth-first search from `start` that answers for every graph: the
/// distance vector where each node that a walk from `start` reaches has a
/// place in it, `None` where one has not (an unknown start node among them).
pub fn checked_shortest_paths(graph: &Graph, start: usize) -> (result: Option<Vec<usize>>)
    ensures
        result is Some <==> reach_in_range(graph@, start, graph@.dom().len()),
        result matches Some(dist) ==> is_distance_vector(graph@, start, dist@) && dist@[start as int]
            == 0,
{
    let ghost g = graph@;
    let n = graph.num_nodes();
    proof {
        lemma_distance_to_self(g, start);
        assert(reachable_in(g, start, start, 0));
        assert(reachable(g, start, start));
    }
    if start >= n {
        return None;
    }
    let mut distance = all_unreachable(n);
    distance.set(start, 0);
    let mut queue: Vec<usize> = Vec::new();
    queue.push(start);
    let mut head: usize = 0;
    proof {
        assert(queue@ =~= seq![start]);
        assert forall|v: usize| visited(distance@, v) <==> #[trigger] queue@.contains(v) by {
            if v == start {
                assert(queue@[0] == v);
            }
        }
    }
    while head < queue.len()
        invariant
            g == graph@,
            n == g.dom().len(),
            search_state(g, start, distance@, queue@, head as int),
            queue@.len() <= n,
        decreases n - head,
    {
        let current = queue[head];
        proof {
            assert(queue@.contains(current));
        }
        let next_dist = distance[current] + 1;
        match graph.adj_list.get(&current) {
            Some(neighbors) => {
                let mut i: usize = 0;
                while i < neighbors.len()
                    invariant
                        g == graph@,
                        n == g.dom().len(),
                        search_state(g, start, distance@, queue@, head as int),
                        queue@.len() <= n,
                        head < queue@.len(),
                        current == queue@[head as int],
                        next_dist == distance@[current as int] + 1,
                        g.contains_key(current),
                        neighbors@ == g[current],
                        0 <= i <= neighbors@.len(),
                        forall|k: int|
                            0 <= k < i ==> visited(distance@, #[trigger] neighbors@[k])
                                && distance@[neighbors@[k] as int] <= next_dist,
                    decreases neighbors@.len() - i,
                {
                    let w = neighbors[i];
                    proof {
                        assert(g[current].contains(w));
                        assert(has_arc(g, current, w));
                        assert(reachable_in(g, start, queue@[head as int], distance@[current as int] as nat));
                        lemma_walk_extends(g, start, current, w, distance@[current as int] as nat);
                    }
                    if w >= n {
                        proof {
                            assert(reachable(g, start, w));
                        }
                        return None;
                    }
                    if distance[w] == UNREACHABLE {
                        let ghost old_dist = distance@;
                        let ghost old_queue = queue@;
                        distance.set(w, next_dist);
                        queue.push(w);
                        proof {
                            assert(old_queue.contains(old_queue[head as int]));
                            assert(visited(old_dist, current));
                            lemma_reach_next(g, start, old_dist, old_queue, head as int, w);
                            assert forall|k: int| 0 <= k < i implies visited(
                                distance@,
                                #[trigger] neighbors@[k],
                            ) && distance@[neighbors@[k] as int] <= next_dist by {
                                assert(visited(old_dist, neighbors@[k]));
                            }
                            lemma_queue_fits(g, start, distance@, queue@, head as int);
                        }
                    } else {
                        proof {
                            assert(visited(distance@, w));
                            assert(queue@.contains(w));
                            let j = choose|j: int| 0 <= j < queue@.len() && queue@[j] == w;
                            assert(distance@[queue@[j] as int] <= distance@[queue@[head as int] as int] + 1);
                        }
                    }
                    i += 1;
                }
                proof {
                    assert forall|w: usize| #[trigger] has_arc(g, current, w) implies visited(distance@, w)
                        && distance@[w as int] <= distance@[current as int] + 1 by {
                        let k = choose|k: int| 0 <= k < neighbors@.len() && neighbors@[k] == w;
                        assert(visited(distance@, neighbors@[k]));
                    }
                    assert(relaxed_from(g, distance@, current));
                }
            },
            None => {
                proof {
                    assert(relaxed_from(g, distance@, current));
                }
            },
        }
        proof {
            lemma_advance(g, start, distance@, queue@, head as int);
        }
        head += 1;
    }
    proof {
        lemma_search_complete(g, start, distance@, queue@);
        lemma_distance_to_self(g, start);
    }
    Some(distance)
}

/// Reaching the unvisited neighbour `w` of the node at the head of the queue
/// keeps the search in order.
proof fn lemma_reach_next(
    g: Adjacency,
    s: usize,
    dist: Seq<usize>,
    q: Seq<usize>,
    head: int,
    w: usize,
)
    requires
        search_state(g, s, dist, q, head),
        head < q.len(),
        w < dist.len(),
        !visited(dist, w),
        has_arc(g, q[head], w),
    ensures
        search_state(
            g,
            s,
            dist.update(w as int, (dist[q[head] as int] + 1) as usize),
            q.push(w),
            head,
        ),
{
    let cur = q[head];
    assert(q.contains(cur));
    let nd = (dist[cur as int] + 1) as usize;
    let dist2 = dist.update(w as int, nd);
    let q2 = q.push(w);
    assert(!q.contains(w));
    assert forall|i: int| 0 <= i < q.len() implies q2[i] == q[i] && q[i] != w && dist2[q[i] as int]
        == dist[q[i] as int] by {
        assert(q.contains(q[i]));
    }
    assert(q2[q.len() as int] == w);
    assert(q2.no_duplicates());
    assert forall|i: int| 0 <= i < q2.len() implies #[trigger] q2[i] < dist.len() by {
        if i < q.len() {
            assert(q.contains(q[i]));
        }
    }
    lemma_distinct_below(q2, dist.len());
    assert(dist[q[head] as int] <= head);
    assert(nd < usize::MAX);
    assert forall|v: usize| visited(dist2, v) <==> #[trigger] q2.contains(v) by {
        if v == w {
            assert(q2[q.len() as int] == v);
        } else {
            if visited(dist2, v) {
                assert(visited(dist, v));
                assert(q.contains(v));
                let j = choose|j: int| 0 <= j < q.len() && q[j] == v;
                assert(q2[j] == v);
            }
            if q2.contains(v) {
                let j = choose|j: int| 0 <= j < q2.len() && q2[j] == v;
                assert(q[j] == v);
                assert(q.contains(v));
            }
        }
    }
    assert forall|i: int| 0 <= i < q2.len() implies reachable_in(
        g,
        s,
        #[trigger] q2[i],
        dist2[q2[i] as int] as nat,
    ) by {
        if i == q.len() {
            assert(reachable_in(g, s, q[head], dist[q[head] as int] as nat));
            lemma_walk_extends(g, s, cur, w, dist[cur as int] as nat);
        } else {
            assert(reachable_in(g, s, q[i], dist[q[i] as int] as nat));
        }
    }
    assert forall|i: int, j: int| 0 <= i <= j < q2.len() implies dist2[#[trigger] q2[i] as int]
        <= dist2[#[trigger] q2[j] as int] by {
        if j == q.len() {
            if i < q.len() {
                assert(dist[q[i] as int] <= dist[q[head] as int] + 1);
            }
        } else {
            assert(dist[q[i] as int] <= dist[q[j] as int]);
        }
    }
    assert forall|j: int| 0 <= j < q2.len() implies dist2[#[trigger] q2[j] as int] <= dist2[q2[head] as int]
        + 1 by {
        if j < q.len() {
            assert(dist[q[j] as int] <= dist[q[head] as int] + 1);
        }
    }
    assert forall|i: int| 0 <= i < head implies relaxed_from(g, dist2, #[trigger] q2[i]) by {
        assert(relaxed_from(g, dist, q[i]));
        assert forall|x: usize| #[trigger] has_arc(g, q2[i], x) implies visited(dist2, x) && dist2[x as int]
            <= dist2[q2[i] as int] + 1 by {
            assert(visited(dist, x));
        }
    }
}

/// With every neighbour of the node at the head of the queue reached, the
/// search moves on to the next node in the queue.
proof fn lemma_advance(g: Adjacency, s: usize, dist: Seq<usize>, q: Seq<usize>, head: int)
    requires
        search_state(g, s, dist, q, head),
        head < q.len(),
        relaxed_from(g, dist, q[head]),
    ensures
        search_state(g, s, dist, q, head + 1),
{
    if head + 1 < q.len() {
        assert(dist[q[head] as int] <= dist[q[head + 1] as int]);
        assert forall|j: int| 0 <= j < q.len() implies dist[#[trigger] q[j] as int] <= dist[q[head + 1] as int]
            + 1 by {
            assert(dist[q[j] as int] <= dist[q[head] as int] + 1);
        }
    }
}

/// Breadth-first search from `start`: the distance vector of the graph.
/// Every node that a walk from `start` reaches needs a place in the vector,
/// `start` itself among them.
pub fn bfs_shortest_paths(graph: &Graph, start: usize) -> (distance: Vec<usize>)
    requires
        reach_in_range(graph@, start, graph@.dom().len()),
    ensures
        is_distance_vector(graph@, start, distance@),
        distance@[start as int] == 0,
{
    match checked_shortest_paths(graph, start) {
        Some(distance) => distance,
        None => vstd::pervasive::unreached(),
    }
}

/// The lengths of the shortest paths from a start node to the other nodes
/// it reaches, added up, and their number. The average path length is
/// `total / count`, and 0 where `count` is 0.
#[derive(Clone, Copy, Debug, PartialEq, Eq, Structural)]
pub struct PathTotals {
    pub total: u128,
    pub count: usize,
}

/// The entry `d` of a distance vector belongs to a node that is reached and
/// is not the start node.
pub open spec fn is_path_length(d: usize) -> bool {
    d != UNREACHABLE && d != 0
}

/// The sum of the entries of `dist` that are path lengths.
pub open spec fn sum_of_paths(dist: Seq<usize>) -> nat
    decreases dist.len(),
{
    if dist.len() == 0 {
        0
    } else if is_path_length(dist.last()) {
        sum_of_paths(dist.drop_last()) + dist.last() as nat
    } else {
        sum_of_paths(dist.drop_last())
    }
}

/// The number of entries of `dist` that are path lengths.
pub open spec fn number_of_paths(dist: Seq<usize>) -> nat
    decreases dist.len(),
{
    if dist.len() == 0 {
        0
    } else if is_path_length(dist.last()) {
        number_of_paths(dist.drop_last()) + 1
    } else {
        number_of_paths(dist.drop_last())
    }
}

/// Adds up the entries of a distance vector that are path lengths, and
/// counts them.
pub fn path_length_totals(distances: &Vec<usize>) -> (totals: PathTotals)
    ensures
        totals.total == sum_of_paths(distances@),
        totals.count == number_of_paths(distances@),
{
    let mut total: u128 = 0;
    let mut count: usize = 0;
    let mut i: usize = 0;
    while i < distances.len()
        invariant
            0 <= i <= distances@.len(),
            total == sum_of_paths(distances@.take(i as int)),
            count == number_of_paths(distances@.take(i as int)),
            count <= i,
            total <= i * usize::MAX,
        decreases distances@.len() - i,
    {
        let dist = distances[i];
        proof {
            let next = distances@.take(i + 1);
            assert(next.drop_last() =~= distances@.take(i as int));
            assert(next.last() == dist);
            assert((i + 1) * usize::MAX == i * usize::MAX + usize::MAX) by (nonlinear_arith);
            assert((i + 1) * usize::MAX <= usize::MAX * usize::MAX) by (nonlinear_arith)
                requires
                    i + 1 <= usize::MAX,
            ;
            assert(usize::MAX * usize::MAX <= u128::MAX) by (nonlinear_arith)
                requires
                    usize::MAX <= 0xffff_ffff_ffff_ffff,
            ;
        }
        if dist != UNREACHABLE && dist != 0 {
            total += dist as u128;
            count += 1;
        }
        i += 1;
    }
    proof {
        assert(distances@.take(distances@.len() as int) =~= distances@);
    }
    PathTotals { total, count }
}

/// The totals for the average length of the shortest paths from `start` to
/// the other nodes it reaches. In a graph without nodes nothing is reached
/// and both totals are 0. Otherwise the distance vector is needed: where a
/// node that `start` reaches has no place in it the answer is `None`.
pub fn average_shortest_path_length(graph: &Graph, start: usize) -> (result: Option<PathTotals>)
    ensures
        result is Some <==> graph@.dom().len() == 0 || reach_in_range(
            graph@,
            start,
            graph@.dom().len(),
        ),
        result matches Some(totals) ==> exists|dist: Seq<usize>|
            #![trigger is_distance_vector(graph@, start, dist)]
            is_distance_vector(graph@, start, dist) && totals.total == sum_of_paths(dist)
                && totals.count == number_of_paths(dist),
{
    if graph.num_nodes() == 0 {
        proof {
            assert(is_distance_vector(graph@, start, Seq::<usize>::empty()));
        }
        return Some(PathTotals { total: 0, count: 0 });
    }
    match checked_shortest_paths(graph, start) {
        Some(distances) => {
            let totals = path_length_totals(&distances);
            proof {
                assert(is_distance_vector(graph@, start, distances@));
            }
            Some(totals)
        },
        None => None,
    }
}

} // verus!

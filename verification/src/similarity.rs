//! Jaccard similarity of neighbourhoods: the share of the distinct
//! neighbours of two nodes that both have, kept as a pair of counts.

use crate::network::{neighbors_of, Adjacency, Graph};
use std::collections::HashSet;
use vstd::prelude::*;

verus! {

broadcast use {vstd::std_specs::hash::group_hash_axioms, vstd::set::group_set_axioms};

/// A similarity score as a fraction: `shared` of `total` distinct
/// neighbours. A `total` of 0 stands for the score 0. The counts are wider
/// than a machine word, since two neighbourhoods together can hold every
/// machine word, which is one more than the greatest of them.
#[derive(Clone, Copy, Debug, PartialEq, Eq, Structural)]
pub struct Similarity {
    pub shared: u128,
    pub total: u128,
}

/// The distinct neighbours of `node`.
pub open spec fn neighbor_set(g: Adjacency, node: usize) -> Set<usize> {
    neighbors_of(g, node).to_set()
}

/// The number of distinct neighbours that `a` and `b` both have; 0 when
/// either is not registered.
pub open spec fn shared_neighbors(g: Adjacency, a: usize, b: usize) -> nat {
    if g.contains_key(a) && g.contains_key(b) {
        neighbor_set(g, a).intersect(neighbor_set(g, b)).len()
    } else {
        0
    }
}

/// The number of distinct neighbours that `a` or `b` has; 0 when either is
/// not registered.
pub open spec fn joint_neighbors(g: Adjacency, a: usize, b: usize) -> nat {
    if g.contains_key(a) && g.contains_key(b) {
        neighbor_set(g, a).union(neighbor_set(g, b)).len()
    } else {
        0
    }
}

/// The Jaccard similarity of `a` and `b` in a finite graph `g`.
pub open spec fn jaccard(g: Adjacency, a: usize, b: usize) -> Similarity {
    Similarity { shared: shared_neighbors(g, a, b) as u128, total: joint_neighbors(g, a, b) as u128 }
}

/// `s` holds the Jaccard similarity of `a` and `b` in `g`.
pub open spec fn is_jaccard(g: Adjacency, a: usize, b: usize, s: Similarity) -> bool {
    s.shared == shared_neighbors(g, a, b) && s.total == joint_neighbors(g, a, b)
}

impl Similarity {
    /// The counts are those of some pair of neighbourhoods: the shared
    /// neighbours are among all of them, and both counts are within what
    /// sets of machine words can hold.
    pub open spec fn is_valid(self) -> bool {
        self.shared <= self.total && self.shared <= usize::MAX && self.total <= usize::MAX + 1
    }

    /// The number the score is divided by: `total`, or 1 for the score 0.
    pub open spec fn divisor(self) -> int {
        if self.total == 0 {
            1
        } else {
            self.total as int
        }
    }

    /// The score of `self` is greater than the score of `other`, as fractions.
    pub open spec fn exceeds(self, other: Similarity) -> bool {
        self.shared * other.divisor() > other.shared * self.divisor()
    }

    /// The score is 0.
    pub open spec fn is_zero(self) -> bool {
        self.shared == 0
    }

    /// Whether the score of `self` is greater than the score of `other`.
    pub fn is_greater(&self, other: &Similarity) -> (r: bool)
        requires
            self.is_valid(),
            other.is_valid(),
        ensures
            r == self.exceeds(*other),
    {
        let d_self: u128 = if self.total == 0 { 1 } else { self.total };
        let d_other: u128 = if other.total == 0 { 1 } else { other.total };
        assert(self.shared * d_other <= 0xffff_ffff_ffff_ffff * 0x1_0000_0000_0000_0000) by (nonlinear_arith)
            requires
                self.shared <= 0xffff_ffff_ffff_ffff,
                d_other <= 0x1_0000_0000_0000_0000,
        ;
        assert(other.shared * d_self <= 0xffff_ffff_ffff_ffff * 0x1_0000_0000_0000_0000) by (nonlinear_arith)
            requires
                other.shared <= 0xffff_ffff_ffff_ffff,
                d_self <= 0x1_0000_0000_0000_0000,
        ;
        self.shared * d_other > other.shared * d_self
    }
}

/// A set of machine words below `n` has at most `n` members.
proof fn lemma_set_below(s: Set<usize>, n: nat)
    requires
        s.finite(),
        forall|x: usize| s.contains(x) ==> x < n,
    ensures
        s.len() <= n,
    decreases n,
{
    if n == 0 {
        assert(s =~= Set::<usize>::empty());
    } else if n - 1 <= usize::MAX {
        let top = (n - 1) as usize;
        lemma_set_below(s.remove(top), (n - 1) as nat);
    } else {
        lemma_set_below(s, (n - 1) as nat);
    }
}

/// The counts of shared and joint neighbours of any two nodes of a finite
/// graph make a valid score.
pub proof fn lemma_jaccard_is_valid(g: Adjacency, a: usize, b: usize, s: Similarity)
    requires
        crate::network::is_finite_graph(g),
        is_jaccard(g, a, b, s),
    ensures
        s.is_valid(),
{
    if g.contains_key(a) && g.contains_key(b) {
        let sa = neighbor_set(g, a);
        let sb = neighbor_set(g, b);
        lemma_seq_set_finite(g[a]);
        lemma_seq_set_finite(g[b]);
        vstd::set_lib::lemma_len_intersect(sa, sb);
        vstd::set_lib::lemma_len_subset(sa.intersect(sb), sa.union(sb));
        lemma_set_below(sa.union(sb), (usize::MAX + 1) as nat);
    }
}

/// The distinct members of a sequence are finitely many, no more than its length.
proof fn lemma_seq_set_finite(q: Seq<usize>)
    ensures
        q.to_set().finite(),
        q.to_set().len() <= q.len(),
{
    vstd::seq_lib::seq_to_set_is_finite(q);
    q.lemma_cardinality_of_set();
}

/// Similarity does not depend on the order in which the two nodes are named.
pub proof fn lemma_jaccard_symmetric(g: Adjacency, a: usize, b: usize)
    ensures
        shared_neighbors(g, a, b) == shared_neighbors(g, b, a),
        joint_neighbors(g, a, b) == joint_neighbors(g, b, a),
        jaccard(g, a, b) == jaccard(g, b, a),
{
    let sa = neighbor_set(g, a);
    let sb = neighbor_set(g, b);
    assert(sa.intersect(sb) =~= sb.intersect(sa));
    assert(sa.union(sb) =~= sb.union(sa));
}

/// A score lies between 0 and 1: the shared neighbours are at most the
/// joint ones. It is 0 when either node is not registered and when
/// neither node has a neighbour.
pub proof fn lemma_jaccard_bounds(g: Adjacency, a: usize, b: usize)
    requires
        crate::network::is_finite_graph(g),
    ensures
        0 <= shared_neighbors(g, a, b) <= joint_neighbors(g, a, b),
        !g.contains_key(a) || !g.contains_key(b) ==> shared_neighbors(g, a, b) == 0,
        neighbors_of(g, a).len() == 0 && neighbors_of(g, b).len() == 0 ==> shared_neighbors(g, a, b)
            == 0 && joint_neighbors(g, a, b) == 0,
{
    if g.contains_key(a) && g.contains_key(b) {
        let sa = neighbor_set(g, a);
        let sb = neighbor_set(g, b);
        lemma_seq_set_finite(g[a]);
        lemma_seq_set_finite(g[b]);
        vstd::set_lib::lemma_len_subset(sa.intersect(sb), sa.union(sb));
        if g[a].len() == 0 && g[b].len() == 0 {
            assert(sa.union(sb) =~= Set::<usize>::empty());
            assert(sa.intersect(sb) =~= Set::<usize>::empty());
        }
    }
}

/// A registered node with at least one neighbour is as similar to itself
/// as can be: all its distinct neighbours are shared.
pub proof fn lemma_jaccard_self(g: Adjacency, a: usize)
    requires
        g.contains_key(a),
        g[a].len() > 0,
    ensures
        shared_neighbors(g, a, a) == joint_neighbors(g, a, a),
        joint_neighbors(g, a, a) > 0,
{
    let sa = neighbor_set(g, a);
    assert(sa.intersect(sa) =~= sa);
    assert(sa.union(sa) =~= sa);
    lemma_seq_set_finite(g[a]);
    assert(sa.contains(g[a][0]));
}

/// The distinct members of `list`.
fn distinct(list: &Vec<usize>) -> (set: HashSet<usize>)
    ensures
        set@ == list@.to_set(),
        set@.finite(),
{
    let mut set: HashSet<usize> = HashSet::new();
    let mut i: usize = 0;
    while i < list.len()
        invariant
            0 <= i <= list@.len(),
            set@.finite(),
            forall|j: int| 0 <= j < i ==> set@.contains(#[trigger] list@[j]),
            forall|x: usize| set@.contains(x) ==> list@.contains(x),
        decreases list@.len() - i,
    {
        set.insert(list[i]);
        i += 1;
    }
    proof {
        assert(set@ =~= list@.to_set());
    }
    set
}

/// The Jaccard similarity of `a` and `b`: the number of distinct neighbours
/// that both have, and the number that either has. Both counts are 0 when
/// either node is not registered.
pub fn jaccard_similarity(graph: &Graph, a: usize, b: usize) -> (s: Similarity)
    ensures
        is_jaccard(graph@, a, b, s),
        s == jaccard(graph@, a, b),
        s.is_valid(),
{
    let ghost g = graph@;
    let neighbors_a = match graph.adj_list.get(&a) {
        Some(neighbors) => neighbors,
        None => {
            return Similarity { shared: 0, total: 0 };
        },
    };
    let neighbors_b = match graph.adj_list.get(&b) {
        Some(neighbors) => neighbors,
        None => {
            return Similarity { shared: 0, total: 0 };
        },
    };
    let set_b = distinct(neighbors_b);
    let mut set_a: HashSet<usize> = HashSet::new();
    let mut shared: usize = 0;
    let mut i: usize = 0;
    proof {
        assert(set_a@.intersect(set_b@) =~= Set::<usize>::empty());
    }
    while i < neighbors_a.len()
        invariant
            0 <= i <= neighbors_a@.len(),
            set_a@.finite(),
            set_b@.finite(),
            forall|j: int| 0 <= j < i ==> set_a@.contains(#[trigger] neighbors_a@[j]),
            forall|x: usize| set_a@.contains(x) ==> neighbors_a@.contains(x),
            shared == set_a@.intersect(set_b@).len(),
        decreases neighbors_a@.len() - i,
    {
        let x = neighbors_a[i];
        let ghost before = set_a@;
        if set_a.insert(x) {
            if set_b.contains(&x) {
                proof {
                    assert(set_a@.intersect(set_b@) =~= before.intersect(set_b@).insert(x));
                    vstd::set_lib::lemma_len_intersect(set_a@, set_b@);
                    assert(set_a@.len() == set_a.len());
                }
                shared += 1;
            } else {
                proof {
                    assert(set_a@.intersect(set_b@) =~= before.intersect(set_b@));
                }
            }
        } else {
            proof {
                assert(set_a@ =~= before);
            }
        }
        i += 1;
    }
    proof {
        assert(set_a@ =~= neighbors_a@.to_set());
        assert(g[a] == neighbors_a@ && g[b] == neighbors_b@);
        vstd::set_lib::lemma_set_intersect_union_lens(set_a@, set_b@);
        vstd::set_lib::lemma_len_intersect(set_a@, set_b@);
        assert(set_a@.len() == set_a.len());
        assert(set_b@.len() == set_b.len());
        graph.lemma_view_is_finite();
    }
    let total: u128 = set_a.len() as u128 + set_b.len() as u128 - shared as u128;
    let s = Similarity { shared: shared as u128, total };
    proof {
        lemma_jaccard_is_valid(g, a, b, s);
    }
    s
}

/// A node with its similarity to the target of a ranking.
pub type Scored = (usize, Similarity);

/// A score that exceeds a second one exceeds every score that the second
/// one is not below.
pub proof fn lemma_exceeds_chain(x: Similarity, y: Similarity, z: Similarity)
    requires
        !x.exceeds(y),
        z.exceeds(y),
    ensures
        z.exceeds(x),
        !x.exceeds(z),
{
    let (xs, ys, zs) = (x.shared as int, y.shared as int, z.shared as int);
    let (dx, dy, dz) = (x.divisor(), y.divisor(), z.divisor());
    assert(zs * dx > xs * dz) by (nonlinear_arith)
        requires
            xs * dy <= ys * dx,
            zs * dy > ys * dz,
            dx > 0,
            dy > 0,
            dz > 0,
            xs >= 0,
            ys >= 0,
            zs >= 0,
    {
        assert((zs * dy) * dx > (ys * dz) * dx);
        assert((ys * dx) * dz >= (xs * dy) * dz);
        assert((zs * dy) * dx == (zs * dx) * dy);
        assert((ys * dz) * dx == (ys * dx) * dz);
        assert((xs * dy) * dz == (xs * dz) * dy);
        assert((zs * dx) * dy > (xs * dz) * dy);
    }
}

/// A score that exceeds another is above 0.
pub proof fn lemma_exceeding_is_positive(x: Similarity, y: Similarity)
    requires
        x.exceeds(y),
    ensures
        !x.is_zero(),
{
    let (xs, ys) = (x.shared as int, y.shared as int);
    let (dx, dy) = (x.divisor(), y.divisor());
    assert(xs > 0) by (nonlinear_arith)
        requires
            xs * dy > ys * dx,
            xs >= 0,
            ys >= 0,
            dx > 0,
            dy > 0,
    ;
}

/// The nodes of `nodes` other than `target`, in their order, each with its
/// similarity to `target`.
pub open spec fn candidates(g: Adjacency, target: usize, nodes: Seq<usize>) -> Seq<Scored>
    decreases nodes.len(),
{
    if nodes.len() == 0 {
        Seq::empty()
    } else {
        let rest = candidates(g, target, nodes.drop_last());
        if nodes.last() == target {
            rest
        } else {
            rest.push((nodes.last(), jaccard(g, target, nodes.last())))
        }
    }
}

/// No entry of `s` has a greater score than an entry before it.
pub open spec fn is_descending(s: Seq<Scored>) -> bool {
    forall|i: int, j: int| 0 <= i < j < s.len() ==> !(#[trigger] s[j]).1.exceeds((#[trigger] s[i]).1)
}

/// `places` says from which place of `cands` each entry of `sorted` comes:
/// from every place once, and entries of equal score in the order in which
/// `cands` holds them.
pub open spec fn is_stable_placing(cands: Seq<Scored>, sorted: Seq<Scored>, places: Seq<int>) -> bool {
    &&& places.len() == sorted.len()
    &&& sorted.len() == cands.len()
    &&& forall|i: int|
        0 <= i < sorted.len() ==> 0 <= #[trigger] places[i] < cands.len() && sorted[i]
            == cands[places[i]]
    &&& forall|i: int, j: int|
        0 <= i < j < sorted.len() ==> #[trigger] places[i] != #[trigger] places[j]
    &&& forall|i: int, j: int|
        0 <= i < j < sorted.len() && !sorted[i].1.exceeds(sorted[j].1) ==> #[trigger] places[i]
            < #[trigger] places[j]
}

/// `sorted` holds the entries of `cands` by descending score, those of
/// equal score in the order in which `cands` holds them.
pub open spec fn is_ranking(cands: Seq<Scored>, sorted: Seq<Scored>) -> bool {
    &&& sorted.to_multiset() == cands.to_multiset()
    &&& is_descending(sorted)
    &&& exists|places: Seq<int>| is_stable_placing(cands, sorted, places)
}

/// `result` holds the first `k` entries, or all if there are fewer, of the
/// ranking of `cands`.
pub open spec fn is_top_selection(cands: Seq<Scored>, k: nat, result: Seq<Scored>) -> bool {
    exists|sorted: Seq<Scored>|
        #![trigger is_ranking(cands, sorted)]
        is_ranking(cands, sorted) && result == sorted.take(
            if k <= sorted.len() {
                k as int
            } else {
                sorted.len() as int
            },
        )
}

/// `nodes` lists the registered nodes of `g`, each once.
pub open spec fn is_node_order(g: Adjacency, nodes: Seq<usize>) -> bool {
    nodes.no_duplicates() && nodes.to_set() == g.dom()
}

/// Every candidate is a listed node other than the target, with its
/// similarity to the target.
pub proof fn lemma_candidates_members(g: Adjacency, target: usize, nodes: Seq<usize>, i: int)
    requires
        0 <= i < candidates(g, target, nodes).len(),
    ensures
        candidates(g, target, nodes)[i].0 != target,
        nodes.contains(candidates(g, target, nodes)[i].0),
        candidates(g, target, nodes)[i].1 == jaccard(g, target, candidates(g, target, nodes)[i].0),
        candidates(g, target, nodes).len() <= nodes.len(),
    decreases nodes.len(),
{
    let rest = candidates(g, target, nodes.drop_last());
    if nodes.last() != target && i == rest.len() {
        assert(nodes[nodes.len() - 1] == nodes.last());
        if rest.len() > 0 {
            lemma_candidates_members(g, target, nodes.drop_last(), 0);
        }
    } else {
        lemma_candidates_members(g, target, nodes.drop_last(), i);
        let n = rest[i].0;
        let j = choose|j: int| 0 <= j < nodes.drop_last().len() && nodes.drop_last()[j] == n;
        assert(nodes[j] == n);
    }
}

/// Of nodes listed once each, every one but the target is a candidate.
pub proof fn lemma_candidates_len(g: Adjacency, target: usize, nodes: Seq<usize>)
    requires
        nodes.no_duplicates(),
    ensures
        candidates(g, target, nodes).len() == if nodes.contains(target) {
            nodes.len() - 1
        } else {
            nodes.len() as int
        },
    decreases nodes.len(),
{
    if nodes.len() > 0 {
        let front = nodes.drop_last();
        lemma_candidates_len(g, target, front);
        if front.contains(target) {
            let j = choose|j: int| 0 <= j < front.len() && front[j] == target;
            assert(nodes[j] == target);
            assert(nodes.contains(target));
            assert(nodes[nodes.len() - 1] != nodes[j]);
        } else if nodes.last() == target {
            assert(nodes[nodes.len() - 1] == target);
        } else {
            if nodes.contains(target) {
                let j = choose|j: int| 0 <= j < nodes.len() && nodes[j] == target;
                assert(front[j] == target);
            }
        }
    }
}

/// A ranking is sorted by score, never rising, and holds only listed nodes
/// other than the target, each with its similarity to the target; it has
/// `k` entries, or as many as there are candidates if those are fewer.
pub proof fn lemma_top_selection_is_ranking(
    g: Adjacency,
    target: usize,
    nodes: Seq<usize>,
    k: nat,
    result: Seq<Scored>,
)
    requires
        is_top_selection(candidates(g, target, nodes), k, result),
    ensures
        is_descending(result),
        result.len() == if k <= candidates(g, target, nodes).len() {
            k
        } else {
            candidates(g, target, nodes).len()
        },
        forall|i: int|
            0 <= i < result.len() ==> (#[trigger] result[i]).0 != target && nodes.contains(result[i].0)
                && result[i].1 == jaccard(g, target, result[i].0),
{
    let cands = candidates(g, target, nodes);
    let sorted = choose|sorted: Seq<Scored>|
        #![trigger is_ranking(cands, sorted)]
        is_ranking(cands, sorted) && result == sorted.take(
            if k <= sorted.len() {
                k as int
            } else {
                sorted.len() as int
            },
        );
    vstd::seq_lib::to_multiset_len(sorted);
    vstd::seq_lib::to_multiset_len(cands);
    assert(sorted.len() == cands.len());
    assert forall|i: int| 0 <= i < result.len() implies (#[trigger] result[i]).0 != target
        && nodes.contains(result[i].0) && result[i].1 == jaccard(g, target, result[i].0) by {
        assert(result[i] == sorted[i]);
        assert(sorted.contains(sorted[i]));
        vstd::seq_lib::to_multiset_contains(sorted, sorted[i]);
        vstd::seq_lib::to_multiset_contains(cands, sorted[i]);
        assert(cands.contains(sorted[i]));
        let j = choose|j: int| 0 <= j < cands.len() && cands[j] == sorted[i];
        lemma_candidates_members(g, target, nodes, j);
    }
    assert forall|i: int, j: int| 0 <= i < j < result.len() implies !(#[trigger] result[j]).1.exceeds(
        (#[trigger] result[i]).1,
    ) by {
        assert(result[i] == sorted[i] && result[j] == sorted[j]);
    }
}

/// A candidate that a ranking leaves out, or holds fewer times than the
/// candidates do, has no greater score than any entry of the ranking.
pub proof fn lemma_top_selection_dominates(
    cands: Seq<Scored>,
    k: nat,
    result: Seq<Scored>,
    c: Scored,
    i: int,
)
    requires
        is_top_selection(cands, k, result),
        cands.to_multiset().count(c) > result.to_multiset().count(c),
        0 <= i < result.len(),
    ensures
        !c.1.exceeds(result[i].1),
{
    let sorted = choose|sorted: Seq<Scored>|
        #![trigger is_ranking(cands, sorted)]
        is_ranking(cands, sorted) && result == sorted.take(
            if k <= sorted.len() {
                k as int
            } else {
                sorted.len() as int
            },
        );
    let kept = result.len() as int;
    let rest = sorted.skip(kept);
    assert(sorted =~= result + rest);
    vstd::seq_lib::lemma_multiset_commutative(result, rest);
    assert(rest.to_multiset().count(c) > 0);
    vstd::seq_lib::to_multiset_contains(rest, c);
    let j = choose|j: int| 0 <= j < rest.len() && rest[j] == c;
    assert(sorted[kept + j] == c);
    assert(sorted[i] == result[i]);
    assert(!sorted[kept + j].1.exceeds(sorted[i].1));
}

/// Puts `item` into the descending `list`, behind every entry whose score
/// it does not exceed and before the first one whose score it exceeds, and
/// returns its place.
fn insert_descending(list: &mut Vec<Scored>, item: Scored) -> (place: usize)
    requires
        is_descending(old(list)@),
        forall|q: int| 0 <= q < old(list)@.len() ==> (#[trigger] old(list)@[q]).1.is_valid(),
        item.1.is_valid(),
    ensures
        is_descending(final(list)@),
        forall|q: int| 0 <= q < final(list)@.len() ==> (#[trigger] final(list)@[q]).1.is_valid(),
        final(list)@.to_multiset() == old(list)@.to_multiset().insert(item),
        place <= old(list)@.len(),
        final(list)@ == old(list)@.insert(place as int, item),
        forall|q: int| 0 <= q < place ==> !item.1.exceeds((#[trigger] old(list)@[q]).1),
        place < old(list)@.len() ==> item.1.exceeds(old(list)@[place as int].1),
{
    let ghost before = list@;
    let mut p: usize = 0;
    while p < list.len() && !item.1.is_greater(&list[p].1)
        invariant
            list@ == before,
            0 <= p <= list@.len(),
            item.1.is_valid(),
            forall|q: int| 0 <= q < list@.len() ==> (#[trigger] list@[q]).1.is_valid(),
            forall|q: int| 0 <= q < p ==> !item.1.exceeds((#[trigger] list@[q]).1),
        decreases list@.len() - p,
    {
        p += 1;
    }
    list.insert(p, item);
    proof {
        vstd::seq_lib::to_multiset_insert(before, p as int, item);
        let after = list@;
        assert forall|i: int, j: int| 0 <= i < j < after.len() implies !(#[trigger] after[j]).1.exceeds(
            (#[trigger] after[i]).1,
        ) by {
            if j == p {
                assert(after[i] == before[i]);
            } else if i == p {
                assert(after[j] == before[j - 1]);
                if j - 1 > p {
                    assert(!before[j - 1].1.exceeds(before[p as int].1));
                }
                lemma_exceeds_chain(before[j - 1].1, before[p as int].1, item.1);
            } else {
                let i0 = if i < p { i } else { i - 1 };
                let j0 = if j < p { j } else { j - 1 };
                assert(after[i] == before[i0] && after[j] == before[j0]);
                assert(!before[j0].1.exceeds(before[i0].1));
            }
        }
        assert forall|q: int| 0 <= q < after.len() implies (#[trigger] after[q]).1.is_valid() by {
            if q < p {
                assert(after[q] == before[q]);
            } else if q > p {
                assert(after[q] == before[q - 1]);
            }
        }
    }
    p
}

/// A stable placing stays one when a new last candidate is put behind the
/// entries whose score it does not exceed.
proof fn lemma_placing_grows(
    cands: Seq<Scored>,
    sorted: Seq<Scored>,
    places: Seq<int>,
    item: Scored,
    p: int,
)
    requires
        is_stable_placing(cands, sorted, places),
        is_descending(sorted),
        0 <= p <= sorted.len(),
        forall|q: int| 0 <= q < p ==> !item.1.exceeds((#[trigger] sorted[q]).1),
        p < sorted.len() ==> item.1.exceeds(sorted[p].1),
    ensures
        is_stable_placing(cands.push(item), sorted.insert(p, item), places.insert(p, cands.len() as int)),
{
    let m = cands.len() as int;
    let cands2 = cands.push(item);
    let sorted2 = sorted.insert(p, item);
    let places2 = places.insert(p, m);
    assert forall|i: int| 0 <= i < sorted2.len() implies (if i < p {
        sorted2[i] == sorted[i] && places2[i] == places[i]
    } else if i == p {
        sorted2[i] == item && places2[i] == m
    } else {
        sorted2[i] == sorted[i - 1] && places2[i] == places[i - 1]
    }) by {}
    assert forall|i: int| 0 <= i < sorted2.len() implies 0 <= #[trigger] places2[i] < cands2.len()
        && sorted2[i] == cands2[places2[i]] by {
        if i < p {
            assert(0 <= places[i] < m);
        } else if i > p {
            assert(0 <= places[i - 1] < m);
        }
    }
    assert forall|i: int, j: int| 0 <= i < j < sorted2.len() implies #[trigger] places2[i]
        != #[trigger] places2[j] && (!sorted2[i].1.exceeds(sorted2[j].1) ==> places2[i] < places2[j]) by {
        let i0 = if i < p { i } else { i - 1 };
        let j0 = if j < p { j } else { j - 1 };
        if i == p {
            assert(places[j0] < m);
            if j0 > p {
                assert(!sorted[j0].1.exceeds(sorted[p].1));
            }
            lemma_exceeds_chain(sorted[j0].1, sorted[p].1, item.1);
        } else if j == p {
            assert(places[i0] < m);
        } else {
            assert(places[i0] != places[j0]);
        }
    }
}

/// The `top_n` nodes of `nodes` most similar to `target`, `target` itself
/// left out, by descending score; fewer where there are fewer. Among equal
/// scores the node listed earlier comes first.
pub fn top_similar_among(graph: &Graph, target: usize, nodes: &Vec<usize>, top_n: usize) -> (result:
    Vec<Scored>)
    ensures
        is_top_selection(candidates(graph@, target, nodes@), top_n as nat, result@),
        is_descending(result@),
        result@.len() == if top_n <= candidates(graph@, target, nodes@).len() {
            top_n as nat
        } else {
            candidates(graph@, target, nodes@).len()
        },
        forall|i: int|
            0 <= i < result@.len() ==> (#[trigger] result@[i]).0 != target && nodes@.contains(
                result@[i].0,
            ) && result@[i].1 == jaccard(graph@, target, result@[i].0),
{
    let ghost g = graph@;
    let mut sorted: Vec<Scored> = Vec::new();
    let ghost mut places: Seq<int> = Seq::empty();
    let mut i: usize = 0;
    while i < nodes.len()
        invariant
            g == graph@,
            0 <= i <= nodes@.len(),
            forall|q: int| 0 <= q < sorted@.len() ==> (#[trigger] sorted@[q]).1.is_valid(),
            sorted@.to_multiset() == candidates(g, target, nodes@.take(i as int)).to_multiset(),
            is_descending(sorted@),
            is_stable_placing(candidates(g, target, nodes@.take(i as int)), sorted@, places),
        decreases nodes@.len() - i,
    {
        let node = nodes[i];
        proof {
            let next = nodes@.take(i + 1);
            assert(next.drop_last() =~= nodes@.take(i as int));
            assert(next.last() == node);
        }
        if node != target {
            let score = jaccard_similarity(graph, target, node);
            let ghost before = sorted@;
            let place = insert_descending(&mut sorted, (node, score));
            proof {
                let cands = candidates(g, target, nodes@.take(i as int));
                vstd::seq_lib::to_multiset_build(cands, (node, score));
                lemma_placing_grows(cands, before, places, (node, score), place as int);
                places = places.insert(place as int, cands.len() as int);
            }
        }
        i += 1;
    }
    let ghost all = sorted@;
    sorted.truncate(top_n);
    proof {
        assert(nodes@.take(nodes@.len() as int) =~= nodes@);
        let kept = if top_n <= all.len() { top_n as int } else { all.len() as int };
        assert(sorted@ =~= all.take(kept));
        assert(is_ranking(candidates(g, target, nodes@), all));
        lemma_top_selection_is_ranking(g, target, nodes@, top_n as nat, sorted@);
    }
    sorted
}

/// The `top_n` registered nodes most similar to `target`, `target` itself
/// left out, by descending score; fewer where the graph has fewer other
/// nodes. The order among equal scores is that of some listing of the nodes.
pub fn find_top_jaccard_similarities(graph: &Graph, target: usize, top_n: usize) -> (result: Vec<
    Scored,
>)
    ensures
        exists|nodes: Seq<usize>|
            #![trigger is_node_order(graph@, nodes)]
            is_node_order(graph@, nodes) && is_top_selection(
                candidates(graph@, target, nodes),
                top_n as nat,
                result@,
            ),
        is_descending(result@),
        result@.len() == if top_n <= graph@.dom().remove(target).len() {
            top_n as nat
        } else {
            graph@.dom().remove(target).len()
        },
        forall|i: int|
            0 <= i < result@.len() ==> (#[trigger] result@[i]).0 != target && graph@.contains_key(
                result@[i].0,
            ) && result@[i].1 == jaccard(graph@, target, result@[i].0),
{
    let nodes = graph.nodes();
    let result = top_similar_among(graph, target, &nodes, top_n);
    proof {
        assert(is_node_order(graph@, nodes@));
        lemma_candidates_len(graph@, target, nodes@);
        graph.lemma_view_is_finite();
        assert(nodes@.contains(target) <==> nodes@.to_set().contains(target));
        assert forall|i: int| 0 <= i < result@.len() implies graph@.contains_key(
            (#[trigger] result@[i]).0,
        ) by {
            assert(nodes@.contains(result@[i].0));
            assert(nodes@.to_set().contains(result@[i].0));
        }
    }
    result
}

/// Two nodes with their similarity.
#[derive(Clone, Copy, Debug, PartialEq, Eq, Structural)]
pub struct SimilarPair {
    pub a: usize,
    pub b: usize,
    pub score: Similarity,
}

/// What a search for the most similar pair holds before it has seen a pair
/// with a score above 0: the nodes 0 and 0 with the score 0.
pub open spec fn no_pair() -> SimilarPair {
    SimilarPair { a: 0, b: 0, score: Similarity { shared: 0, total: 0 } }
}

/// The similarity of the nodes at the places `i` and `j` of `nodes`.
pub open spec fn score_at(g: Adjacency, nodes: Seq<usize>, i: int, j: int) -> Similarity {
    jaccard(g, nodes[i], nodes[j])
}

/// The pair of places `(i2, j2)` is tried before the pair `(i, j)`: pairs
/// are tried by rising first place, then by rising second place.
pub open spec fn tried_before(i2: int, j2: int, i: int, j: int) -> bool {
    i2 < i || (i2 == i && j2 < j)
}

/// `r` is the pair at the places `i < j` of `nodes`, no pair has a greater
/// score, and every pair tried before it has a smaller one.
pub open spec fn is_first_best_at(g: Adjacency, nodes: Seq<usize>, r: SimilarPair, i: int, j: int) -> bool {
    &&& 0 <= i < j < nodes.len()
    &&& r.a == nodes[i] && r.b == nodes[j] && r.score == score_at(g, nodes, i, j)
    &&& !r.score.is_zero()
    &&& forall|i2: int, j2: int|
        0 <= i2 < j2 < nodes.len() ==> !(#[trigger] score_at(g, nodes, i2, j2)).exceeds(r.score)
    &&& forall|i2: int, j2: int|
        0 <= i2 < j2 < nodes.len() && tried_before(i2, j2, i, j) ==> r.score.exceeds(
            #[trigger] score_at(g, nodes, i2, j2),
        )
}

/// `r` is the first pair of greatest score among the pairs of two places of
/// `nodes`; where every pair has the score 0, and where there is no pair,
/// `r` is `no_pair()`.
pub open spec fn is_first_best(g: Adjacency, nodes: Seq<usize>, r: SimilarPair) -> bool {
    if exists|i: int, j: int|
        0 <= i < j < nodes.len() && !(#[trigger] score_at(g, nodes, i, j)).is_zero() {
        exists|i: int, j: int| #[trigger] is_first_best_at(g, nodes, r, i, j)
    } else {
        r == no_pair()
    }
}

/// What the search knows when the pair of places `(i, j)` is the next to
/// try: `best` is the first best among the pairs tried so far.
spec fn best_so_far(g: Adjacency, nodes: Seq<usize>, best: SimilarPair, i: int, j: int, bi: int, bj: int) -> bool {
    &&& best.score.is_valid()
    &&& forall|i2: int, j2: int|
        0 <= i2 < j2 < nodes.len() && tried_before(i2, j2, i, j) ==> !(#[trigger] score_at(
            g,
            nodes,
            i2,
            j2,
        )).exceeds(best.score)
    &&& if best.score.is_zero() {
        best == no_pair()
    } else {
        &&& 0 <= bi < bj < nodes.len()
        &&& tried_before(bi, bj, i, j)
        &&& best.a == nodes[bi] && best.b == nodes[bj] && best.score == score_at(g, nodes, bi, bj)
        &&& forall|i2: int, j2: int|
            0 <= i2 < j2 < nodes.len() && tried_before(i2, j2, bi, bj) ==> best.score.exceeds(
                #[trigger] score_at(g, nodes, i2, j2),
            )
    }
}

/// The most similar pair among the nodes of `nodes`, each pair of two
/// places taken once: the first pair tried that has the greatest score.
/// Where no pair has a score above 0 the result is `no_pair()`.
pub fn most_similar_among(graph: &Graph, nodes: &Vec<usize>) -> (best: SimilarPair)
    ensures
        is_first_best(graph@, nodes@, best),
        best.score.is_valid(),
{
    let ghost g = graph@;
    let ghost mut bi: int = 0;
    let ghost mut bj: int = 0;
    let mut best = SimilarPair { a: 0, b: 0, score: Similarity { shared: 0, total: 0 } };
    let mut i: usize = 0;
    while i < nodes.len()
        invariant
            g == graph@,
            0 <= i <= nodes@.len(),
            best_so_far(g, nodes@, best, i as int, 0, bi, bj),
        decreases nodes@.len() - i,
    {
        let mut j: usize = i + 1;
        while j < nodes.len()
            invariant
                g == graph@,
                0 <= i < nodes@.len(),
                i + 1 <= j <= nodes@.len(),
                best_so_far(g, nodes@, best, i as int, j as int, bi, bj),
            decreases nodes@.len() - j,
        {
            let a = nodes[i];
            let b = nodes[j];
            let score = jaccard_similarity(graph, a, b);
            if score.is_greater(&best.score) {
                proof {
                    let old_score = best.score;
                    assert forall|i2: int, j2: int|
                        0 <= i2 < j2 < nodes@.len() && tried_before(
                            i2,
                            j2,
                            i as int,
                            j as int,
                        ) implies score.exceeds(#[trigger] score_at(g, nodes@, i2, j2)) by {
                        lemma_exceeds_chain(score_at(g, nodes@, i2, j2), old_score, score);
                    }
                    lemma_exceeding_is_positive(score, old_score);
                    bi = i as int;
                    bj = j as int;
                }
                best = SimilarPair { a, b, score };
            }
            proof {
                assert(score == score_at(g, nodes@, i as int, j as int));
                assert forall|i2: int, j2: int|
                    0 <= i2 < j2 < nodes@.len() && tried_before(
                        i2,
                        j2,
                        i as int,
                        j + 1,
                    ) implies !(#[trigger] score_at(g, nodes@, i2, j2)).exceeds(best.score) by {
                    if i2 == i && j2 == j {
                    } else {
                        assert(tried_before(i2, j2, i as int, j as int));
                    }
                }
            }
            j += 1;
        }
        i += 1;
    }
    proof {
        let n = nodes@.len() as int;
        if best.score.is_zero() {
            assert forall|i2: int, j2: int| 0 <= i2 < j2 < n implies (#[trigger] score_at(
                g,
                nodes@,
                i2,
                j2,
            )).is_zero() by {
                assert(tried_before(i2, j2, n, 0));
                assert(!score_at(g, nodes@, i2, j2).exceeds(best.score));
            }
        } else {
            assert forall|i2: int, j2: int| 0 <= i2 < j2 < n implies !(#[trigger] score_at(
                g,
                nodes@,
                i2,
                j2,
            )).exceeds(best.score) by {
                assert(tried_before(i2, j2, n, 0));
            }
            assert(is_first_best_at(g, nodes@, best, bi, bj));
            assert(!score_at(g, nodes@, bi, bj).is_zero());
        }
    }
    best
}

/// The most similar pair of registered nodes, or `None` where the graph has
/// fewer than two nodes and so no pair. Each pair of two nodes is tried
/// once, in the order of some listing of the nodes, and the first pair of
/// greatest score is kept; where every pair has the score 0 the result is
/// `no_pair()`.
pub fn find_most_similar_pair(graph: &Graph) -> (result: Option<SimilarPair>)
    ensures
        result is Some <==> graph@.dom().len() >= 2,
        result matches Some(best) ==> best.score.is_valid() && exists|nodes: Seq<usize>|
            #![trigger is_node_order(graph@, nodes)]
            is_node_order(graph@, nodes) && is_first_best(graph@, nodes, best),
        result matches Some(best) ==> is_greatest_pair(graph@, best),
{
    if graph.num_nodes() < 2 {
        return None;
    }
    let nodes = graph.nodes();
    let best = most_similar_among(graph, &nodes);
    proof {
        assert(is_node_order(graph@, nodes@));
        lemma_first_best_is_greatest(graph@, nodes@, best);
    }
    Some(best)
}

/// No two different registered nodes are more similar than `r`, and `r` is
/// either two different registered nodes with their score, which is above
/// 0, or `no_pair()`.
pub open spec fn is_greatest_pair(g: Adjacency, r: SimilarPair) -> bool {
    &&& forall|x: usize, y: usize|
        g.contains_key(x) && g.contains_key(y) && x != y ==> !(#[trigger] jaccard(g, x, y)).exceeds(
            r.score,
        )
    &&& r == no_pair() || (g.contains_key(r.a) && g.contains_key(r.b) && r.a != r.b && r.score
        == jaccard(g, r.a, r.b) && !r.score.is_zero())
}

/// The first best pair of a listing of the nodes is a pair of greatest
/// score among all pairs of different nodes, in whichever order the nodes
/// are listed.
pub proof fn lemma_first_best_is_greatest(g: Adjacency, nodes: Seq<usize>, r: SimilarPair)
    requires
        is_node_order(g, nodes),
        is_first_best(g, nodes, r),
    ensures
        is_greatest_pair(g, r),
{
    assert forall|x: usize, y: usize| g.contains_key(x) && g.contains_key(y) && x != y implies !(
    #[trigger] jaccard(g, x, y)).exceeds(r.score) by {
        assert(nodes.to_set().contains(x) && nodes.to_set().contains(y));
        let i = choose|i: int| 0 <= i < nodes.len() && nodes[i] == x;
        let j = choose|j: int| 0 <= j < nodes.len() && nodes[j] == y;
        lemma_jaccard_symmetric(g, x, y);
        let (lo, hi) = if i < j { (i, j) } else { (j, i) };
        assert(score_at(g, nodes, lo, hi) == jaccard(g, x, y));
        if r == no_pair() {
            if !score_at(g, nodes, lo, hi).is_zero() {
                let (i1, j1) = choose|i1: int, j1: int| #[trigger] is_first_best_at(g, nodes, r, i1, j1);
            }
        } else {
            let (i1, j1) = choose|i1: int, j1: int| #[trigger] is_first_best_at(g, nodes, r, i1, j1);
            assert(!score_at(g, nodes, lo, hi).exceeds(r.score));
        }
    }
    if r != no_pair() {
        let (i1, j1) = choose|i1: int, j1: int| #[trigger] is_first_best_at(g, nodes, r, i1, j1);
        assert(nodes.to_set().contains(nodes[i1]));
        assert(nodes.to_set().contains(nodes[j1]));
    }
}

} // verus!

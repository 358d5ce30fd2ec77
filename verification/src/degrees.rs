//! The degree distribution: how many nodes have each degree.

use crate::network::{is_finite_graph, key_list, Adjacency, Graph};
use std::collections::HashMap;
use vstd::prelude::*;

verus! {

broadcast use {vstd::std_specs::hash::group_hash_axioms, vstd::set::group_set_axioms};

/// The registered nodes of `g` with exactly `d` neighbour entries.
pub open spec fn nodes_of_degree(g: Adjacency, d: nat) -> Set<usize> {
    Set::new(|k: usize| g.contains_key(k) && g[k].len() == d)
}

/// `m` maps each degree that some node of `g` has to the number of nodes
/// that have it, and holds no other degree.
pub open spec fn is_degree_distribution(g: Adjacency, m: Map<usize, usize>) -> bool {
    forall|d: usize|
        #![trigger m.contains_key(d)]
        #![trigger nodes_of_degree(g, d as nat)]
        if nodes_of_degree(g, d as nat).len() > 0 {
            m.contains_key(d) && m[d] == nodes_of_degree(g, d as nat).len()
        } else {
            !m.contains_key(d)
        }
}

/// The sum of the counts of all buckets of `m`.
pub open spec fn total_count(m: Map<usize, usize>) -> nat
    decreases m.dom().len(),
{
    if m.dom().finite() && m.dom().len() > 0 {
        let d = m.dom().choose();
        (m[d] + total_count(m.remove(d))) as nat
    } else {
        0
    }
}

/// The nodes of one degree are among the nodes of the graph.
proof fn lemma_bucket_finite(g: Adjacency, d: nat)
    requires
        g.dom().finite(),
    ensures
        nodes_of_degree(g, d).finite(),
        nodes_of_degree(g, d).len() <= g.dom().len(),
        nodes_of_degree(g, d).subset_of(g.dom()),
{
    vstd::set_lib::lemma_len_subset(nodes_of_degree(g, d), g.dom());
}

/// The bucket counts of a degree distribution sum to the number of nodes.
pub proof fn lemma_distribution_counts_sum(g: Adjacency, m: Map<usize, usize>)
    requires
        is_finite_graph(g),
        m.dom().finite(),
        is_degree_distribution(g, m),
    ensures
        total_count(m) == g.dom().len(),
    decreases m.dom().len(),
{
    if m.dom().len() == 0 {
        assert forall|k: usize| !g.dom().contains(k) by {
            if g.contains_key(k) {
                let d = g[k].len() as usize;
                lemma_bucket_finite(g, d as nat);
                assert(nodes_of_degree(g, d as nat).contains(k));
                assert(m.contains_key(d));
            }
        }
        assert(g.dom() =~= Set::<usize>::empty());
    } else {
        let d = m.dom().choose();
        let bucket = nodes_of_degree(g, d as nat);
        let g2 = g.remove_keys(bucket);
        let m2 = m.remove(d);
        lemma_bucket_finite(g, d as nat);
        assert(g2.dom() =~= g.dom().difference(bucket));
        assert forall|e: usize|
            #![trigger m2.contains_key(e)]
            #![trigger nodes_of_degree(g2, e as nat)]
            if nodes_of_degree(g2, e as nat).len() > 0 {
                m2.contains_key(e) && m2[e] == nodes_of_degree(g2, e as nat).len()
            } else {
                !m2.contains_key(e)
            } by {
            if e == d {
                assert(nodes_of_degree(g2, e as nat) =~= Set::<usize>::empty());
            } else {
                assert(nodes_of_degree(g2, e as nat) =~= nodes_of_degree(g, e as nat));
                assert(m.contains_key(e) == m2.contains_key(e));
            }
        }
        vstd::set_lib::lemma_set_difference_len(g.dom(), bucket);
        assert(g.dom().intersect(bucket) =~= bucket);
        lemma_distribution_counts_sum(g2, m2);
    }
}

/// A graph has one degree distribution.
pub proof fn lemma_distribution_unique(g: Adjacency, a: Map<usize, usize>, b: Map<usize, usize>)
    requires
        is_degree_distribution(g, a),
        is_degree_distribution(g, b),
    ensures
        a == b,
{
    assert forall|d: usize| a.contains_key(d) == b.contains_key(d) && (a.contains_key(d) ==> a[d]
        == b[d]) by {
        if nodes_of_degree(g, d as nat).len() > 0 {
            assert(a.contains_key(d) && b.contains_key(d));
        } else {
            assert(!a.contains_key(d) && !b.contains_key(d));
        }
    }
    assert(a =~= b);
}

/// Counting one more node `k` of `g`, beside the nodes `seen`, raises the
/// count of its degree by one and leaves the other buckets as they are.
proof fn lemma_count_node(g: Adjacency, seen: Set<usize>, k: usize, m: Map<usize, usize>)
    requires
        is_finite_graph(g),
        seen.finite(),
        seen.subset_of(g.dom()),
        g.contains_key(k),
        !seen.contains(k),
        is_degree_distribution(g.restrict(seen), m),
    ensures
        ({
            let d = g[k].len() as usize;
            let c = if m.contains_key(d) { m[d] } else { 0 };
            &&& c < seen.len() + 1
            &&& c + 1 <= g.dom().len()
            &&& is_degree_distribution(g.restrict(seen.insert(k)), m.insert(d, (c + 1) as usize))
        }),
{
    let d = g[k].len() as usize;
    let c: usize = if m.contains_key(d) { m[d] } else { 0 };
    let g1 = g.restrict(seen);
    let g2 = g.restrict(seen.insert(k));
    let m2 = m.insert(d, (c + 1) as usize);
    assert(g1.dom() =~= seen);
    assert(g2.dom() =~= seen.insert(k));
    vstd::set_lib::lemma_len_subset(seen.insert(k), g.dom());
    lemma_bucket_finite(g1, d as nat);
    assert(nodes_of_degree(g2, d as nat) =~= nodes_of_degree(g1, d as nat).insert(k));
    assert(!nodes_of_degree(g1, d as nat).contains(k));
    assert(nodes_of_degree(g2, d as nat).len() == nodes_of_degree(g1, d as nat).len() + 1);
    assert(c == nodes_of_degree(g1, d as nat).len());
    assert(m2[d] == nodes_of_degree(g2, d as nat).len());
    assert forall|e: usize|
        #![trigger m2.contains_key(e)]
        #![trigger nodes_of_degree(g2, e as nat)]
        if nodes_of_degree(g2, e as nat).len() > 0 {
            m2.contains_key(e) && m2[e] == nodes_of_degree(g2, e as nat).len()
        } else {
            !m2.contains_key(e)
        } by {
        if e != d {
            assert(nodes_of_degree(g2, e as nat) =~= nodes_of_degree(g1, e as nat));
            assert(m.contains_key(e) == m2.contains_key(e));
        }
    }
}

/// The degree distribution of the graph: for each degree that occurs, the
/// number of nodes that have it.
pub fn compute_degree_distribution(graph: &Graph) -> (degree_count: HashMap<usize, usize>)
    ensures
        is_degree_distribution(graph@, degree_count@),
        total_count(degree_count@) == graph@.dom().len(),
{
    let ghost g = graph@;
    let nodes = graph.nodes();
    let mut degree_count: HashMap<usize, usize> = HashMap::new();
    let ghost mut seen: Set<usize> = Set::empty();
    proof {
        graph.lemma_view_is_finite();
        assert forall|d: usize| nodes_of_degree(g.restrict(seen), d as nat) =~= Set::<usize>::empty() by {}
    }
    let mut idx: usize = 0;
    while idx < nodes.len()
        invariant
            g == graph@,
            is_finite_graph(g),
            nodes@.no_duplicates(),
            nodes@.to_set() == g.dom(),
            0 <= idx <= nodes@.len(),
            nodes@.len() == g.dom().len(),
            seen.finite(),
            seen.len() == idx,
            seen.subset_of(g.dom()),
            forall|j: int| 0 <= j < idx ==> seen.contains(#[trigger] nodes@[j]),
            forall|k: usize| seen.contains(k) ==> exists|j: int| 0 <= j < idx && nodes@[j] == k,
            is_degree_distribution(g.restrict(seen), degree_count@),
        decreases nodes@.len() - idx,
    {
        let node = nodes[idx];
        proof {
            assert(nodes@.to_set().contains(nodes@[idx as int]));
            assert(g.contains_key(node));
            if seen.contains(node) {
                let j = choose|j: int| 0 <= j < idx && nodes@[j] == node;
                assert(nodes@[j] == nodes@[idx as int]);
            }
            lemma_count_node(g, seen, node, degree_count@);
        }
        let degree = graph.degree(node);
        let slot = degree_count.entry(degree).or_insert(0);
        *slot = *slot + 1;
        proof {
            seen = seen.insert(node);
        }
        idx += 1;
    }
    proof {
        assert(seen =~= g.dom()) by {
            assert forall|k: usize| g.dom().contains(k) implies seen.contains(k) by {
                assert(nodes@.to_set().contains(k));
                assert(nodes@.contains(k));
                let j = choose|j: int| 0 <= j < nodes@.len() && nodes@[j] == k;
                assert(seen.contains(nodes@[j]));
            }
        }
        assert(g.restrict(seen) =~= g);
        lemma_distribution_counts_sum(g, degree_count@);
    }
    degree_count
}

/// One line of the degree histogram: a degree, the number of nodes that
/// have it, and the length of the bar drawn for it.
#[derive(Clone, Copy, Debug, PartialEq, Eq, Structural)]
pub struct HistogramBar {
    pub degree: usize,
    pub count: usize,
    pub bar_len: usize,
}

/// The length of the bar of the greatest bucket.
pub const BAR_WIDTH: usize = 50;

/// The length of the bar for a bucket of `count` nodes where the greatest
/// bucket has `max_count`: `BAR_WIDTH * count / max_count` rounded to the
/// nearest whole number, halves upwards, and at least 1.
pub open spec fn bar_length(count: nat, max_count: nat) -> nat {
    if max_count == 0 {
        1
    } else {
        let rounded = (2 * BAR_WIDTH * count + max_count) / (2 * max_count) as int;
        if rounded < 1 {
            1
        } else {
            rounded as nat
        }
    }
}

/// `greatest` is the greatest count of `m`, and 1 where `m` has no bucket.
pub open spec fn is_greatest_count(m: Map<usize, usize>, greatest: usize) -> bool {
    &&& forall|d: usize| #[trigger] m.contains_key(d) ==> m[d] <= greatest
    &&& if exists|d: usize| m.contains_key(d) {
        exists|d: usize| #[trigger] m.contains_key(d) && m[d] == greatest
    } else {
        greatest == 1
    }
}

/// `bars` holds one line for each bucket of `m`, by rising degree, each
/// with the count of its bucket and the bar that goes with it.
pub open spec fn is_histogram(m: Map<usize, usize>, bars: Seq<HistogramBar>) -> bool {
    &&& forall|i: int, j: int|
        0 <= i < j < bars.len() ==> (#[trigger] bars[i]).degree < (#[trigger] bars[j]).degree
    &&& forall|i: int|
        0 <= i < bars.len() ==> m.contains_key((#[trigger] bars[i]).degree) && bars[i].count
            == m[bars[i].degree]
    &&& forall|d: usize| #[trigger]
        m.contains_key(d) ==> exists|i: int| 0 <= i < bars.len() && (#[trigger] bars[i]).degree == d
    &&& exists|greatest: usize| #[trigger]
        is_greatest_count(m, greatest) && forall|i: int|
            0 <= i < bars.len() ==> (#[trigger] bars[i]).bar_len == bar_length(
                bars[i].count as nat,
                greatest as nat,
            )
}

/// No member of `s` is as great as a member behind it.
pub open spec fn is_ascending(s: Seq<usize>) -> bool {
    forall|i: int, j: int| 0 <= i < j < s.len() ==> s[i] < s[j]
}

/// The length of the bar for a bucket of `count` nodes where the greatest
/// bucket has `max_count`.
pub fn bar_len(count: usize, max_count: usize) -> (len: usize)
    requires
        count <= max_count,
    ensures
        len == bar_length(count as nat, max_count as nat),
        1 <= len <= BAR_WIDTH,
{
    if max_count == 0 {
        return 1;
    }
    let doubled: u128 = 2 * (BAR_WIDTH as u128) * (count as u128) + max_count as u128;
    let rounded: u128 = doubled / (2 * (max_count as u128));
    assert(rounded <= BAR_WIDTH) by (nonlinear_arith)
        requires
            rounded == (100 * count + max_count) / (2 * max_count),
            0 <= count <= max_count,
            max_count > 0,
            BAR_WIDTH == 50,
    ;
    if rounded < 1 {
        1
    } else {
        rounded as usize
    }
}

/// Puts `x` at its place in the ascending `list`.
fn insert_ascending(list: &mut Vec<usize>, x: usize)
    requires
        is_ascending(old(list)@),
        !old(list)@.contains(x),
    ensures
        is_ascending(final(list)@),
        final(list)@.len() == old(list)@.len() + 1,
        forall|y: usize| final(list)@.contains(y) <==> old(list)@.contains(y) || y == x,
{
    let ghost before = list@;
    let mut p: usize = 0;
    while p < list.len() && list[p] < x
        invariant
            list@ == before,
            0 <= p <= list@.len(),
            forall|q: int| 0 <= q < p ==> list@[q] < x,
        decreases list@.len() - p,
    {
        p += 1;
    }
    list.insert(p, x);
    proof {
        let after = list@;
        assert(after[p as int] == x);
        assert forall|i: int| 0 <= i < before.len() implies before[i] == after[if i < p {
            i
        } else {
            i + 1
        }] by {}
        assert forall|i: int, j: int| 0 <= i < j < after.len() implies after[i] < after[j] by {
            let i0 = if i < p { i } else { i - 1 };
            let j0 = if j < p { j } else { j - 1 };
            if i == p {
                assert(after[j] == before[j0]);
                assert(before.contains(before[j0]));
                assert(before[p as int] <= before[j0]) by {
                    if p < j0 {
                        assert(before[p as int] < before[j0]);
                    }
                }
            } else if j == p {
                assert(after[i] == before[i0]);
            } else {
                assert(after[i] == before[i0] && after[j] == before[j0]);
            }
        }
        assert forall|y: usize| after.contains(y) <==> before.contains(y) || y == x by {
            if after.contains(y) {
                let i = choose|i: int| 0 <= i < after.len() && after[i] == y;
                if i != p {
                    let i0 = if i < p { i } else { i - 1 };
                    assert(before[i0] == y);
                }
            }
            if before.contains(y) {
                let i = choose|i: int| 0 <= i < before.len() && before[i] == y;
                assert(after[if i < p { i } else { i + 1 }] == y);
            }
        }
    }
}

/// The histogram of a distribution: its buckets by rising degree, each
/// with the length of its bar.
pub fn histogram_of(degree_count: &HashMap<usize, usize>) -> (bars: Vec<HistogramBar>)
    ensures
        is_histogram(degree_count@, bars@),
{
    let ghost m = degree_count@;
    let keys = key_list(degree_count);
    let mut degrees: Vec<usize> = Vec::new();
    let mut greatest: usize = 0;
    let mut i: usize = 0;
    while i < keys.len()
        invariant
            m == degree_count@,
            keys@.no_duplicates(),
            keys@.to_set() == m.dom(),
            0 <= i <= keys@.len(),
            is_ascending(degrees@),
            degrees@.len() == i,
            forall|y: usize| degrees@.contains(y) <==> exists|q: int| 0 <= q < i && keys@[q] == y,
            forall|q: int| 0 <= q < i ==> m[#[trigger] keys@[q]] <= greatest,
            i == 0 ==> greatest == 0,
            i > 0 ==> exists|q: int| 0 <= q < i && m[#[trigger] keys@[q]] == greatest,
        decreases keys@.len() - i,
    {
        let degree = keys[i];
        proof {
            assert(keys@.to_set().contains(keys@[i as int]));
            if degrees@.contains(degree) {
                let q = choose|q: int| 0 <= q < i && keys@[q] == degree;
                assert(keys@[q] == keys@[i as int]);
            }
        }
        insert_ascending(&mut degrees, degree);
        let count = match degree_count.get(&degree) {
            Some(count) => *count,
            None => 0,
        };
        if count > greatest {
            greatest = count;
        }
        proof {
            assert(m[keys@[i as int]] <= greatest);
            assert forall|y: usize| degrees@.contains(y) <==> exists|q: int|
                0 <= q < i + 1 && keys@[q] == y by {
                if y == degree {
                    assert(keys@[i as int] == y);
                }
            }
        }
        i += 1;
    }
    if keys.len() == 0 {
        greatest = 1;
    }
    proof {
        assert forall|d: usize| #[trigger] m.contains_key(d) implies m[d] <= greatest
            && degrees@.contains(d) by {
            assert(keys@.to_set().contains(d));
            assert(keys@.contains(d));
            let q = choose|q: int| 0 <= q < keys@.len() && keys@[q] == d;
            assert(m[keys@[q]] <= greatest);
        }
        if keys@.len() > 0 {
            let q = choose|q: int| 0 <= q < keys@.len() && m[#[trigger] keys@[q]] == greatest;
            assert(keys@.to_set().contains(keys@[q]));
            assert(m.contains_key(keys@[q]));
        } else {
            assert forall|d: usize| !m.contains_key(d) by {
                if m.contains_key(d) {
                    assert(keys@.to_set().contains(d));
                    assert(keys@.contains(d));
                }
            }
        }
        assert(is_greatest_count(m, greatest));
        assert forall|k: int| 0 <= k < degrees@.len() implies m.contains_key(#[trigger] degrees@[k]) by {
            assert(degrees@.contains(degrees@[k]));
            let q = choose|q: int| 0 <= q < keys@.len() && keys@[q] == degrees@[k];
            assert(keys@.to_set().contains(keys@[q]));
        }
    }
    let mut bars: Vec<HistogramBar> = Vec::new();
    let mut k: usize = 0;
    while k < degrees.len()
        invariant
            m == degree_count@,
            0 <= k <= degrees@.len(),
            bars@.len() == k,
            forall|q: int| 0 <= q < degrees@.len() ==> m.contains_key(#[trigger] degrees@[q]),
            forall|d: usize| #[trigger] m.contains_key(d) ==> m[d] <= greatest,
            forall|q: int|
                0 <= q < k ==> (#[trigger] bars@[q]).degree == degrees@[q] && bars@[q].count
                    == m[degrees@[q]] && bars@[q].bar_len == bar_length(
                    bars@[q].count as nat,
                    greatest as nat,
                ),
        decreases degrees@.len() - k,
    {
        let degree = degrees[k];
        proof {
            assert(m.contains_key(degrees@[k as int]));
        }
        let count = match degree_count.get(&degree) {
            Some(count) => *count,
            None => 0,
        };
        bars.push(HistogramBar { degree, count, bar_len: bar_len(count, greatest) });
        k += 1;
    }
    proof {
        assert forall|d: usize| #[trigger] m.contains_key(d) implies exists|q: int|
            0 <= q < bars@.len() && (#[trigger] bars@[q]).degree == d by {
            assert(degrees@.contains(d));
            let q = choose|q: int| 0 <= q < degrees@.len() && degrees@[q] == d;
            assert(bars@[q].degree == d);
        }
        assert forall|a: int, b: int| 0 <= a < b < bars@.len() implies (#[trigger] bars@[a]).degree < (
        #[trigger] bars@[b]).degree by {
            assert(degrees@[a] < degrees@[b]);
        }
    }
    bars
}

/// The degree histogram of the graph: one line for each degree that
/// occurs, by rising degree.
pub fn degree_histogram(graph: &Graph) -> (bars: Vec<HistogramBar>)
    ensures
        exists|m: Map<usize, usize>| #[trigger]
            is_degree_distribution(graph@, m) && is_histogram(m, bars@),
{
    let degree_count = compute_degree_distribution(graph);
    histogram_of(&degree_count)
}

} // verus!

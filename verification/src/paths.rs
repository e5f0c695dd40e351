//! What the two path strategies compute, stated over the graph of links: the hop distance
//! and the tree of fewest-hop paths, and the widest bottleneck and a tree of widest paths.
use vstd::prelude::*;
use crate::netgraph::{Link, PathStrategy, effective_bandwidth};

verus! {

/// `u` and `v` are two distinct vertices of `g` joined by a link.
pub open spec fn adjacent<T>(g: Seq<Seq<Option<Link<T>>>>, u: int, v: int) -> bool {
    &&& 0 <= u < g.len()
    &&& 0 <= v < g.len()
    &&& u != v
    &&& g[u][v] is Some
}

/// The bandwidth offered by the link joining `u` and `v`.
pub open spec fn weight<T>(g: Seq<Seq<Option<Link<T>>>>, u: int, v: int) -> u32 {
    effective_bandwidth(g[u][v]->Some_0)
}

/// `v` can be reached from `s` in at most `k` hops.
pub open spec fn reach<T>(g: Seq<Seq<Option<Link<T>>>>, s: int, v: int, k: nat) -> bool
    decreases k,
{
    v == s || (k > 0 && exists|u: int| #[trigger] adjacent(g, u, v) && reach(g, s, u, (k - 1) as nat))
}

/// `v` can be reached from `s`.
pub open spec fn reachable<T>(g: Seq<Seq<Option<Link<T>>>>, s: int, v: int) -> bool {
    exists|k: nat| #[trigger] reach(g, s, v, k)
}

/// The fewest hops from `s` to `v` are `d`.
pub open spec fn hops<T>(g: Seq<Seq<Option<Link<T>>>>, s: int, v: int, d: nat) -> bool {
    &&& reach(g, s, v, d)
    &&& d > 0 ==> !reach(g, s, v, (d - 1) as nat)
}

/// `dist` gives the hop distance from `s` of each vertex it can reach, and `parents` the tree
/// of fewest-hop paths in which the parent of each vertex is the vertex of smallest index one
/// hop closer to `s`.
pub open spec fn shortest_tree<T>(
    g: Seq<Seq<Option<Link<T>>>>,
    s: int,
    dist: Seq<Option<u32>>,
    parents: Seq<Option<usize>>,
) -> bool {
    &&& dist.len() == g.len()
    &&& parents.len() == g.len()
    &&& forall|v: int|
        0 <= v < g.len() ==> {
            &&& (#[trigger] dist[v] is None <==> !reachable(g, s, v))
            &&& (dist[v] matches Some(d) ==> hops(g, s, v, d as nat))
            &&& (parents[v] is None <==> (v == s || dist[v] is None))
            &&& (parents[v] matches Some(p) ==> {
                &&& adjacent(g, p as int, v)
                &&& dist[p as int] matches Some(dp)
                &&& dist[v] matches Some(dv)
                &&& dp + 1 == dv
                &&& forall|u: int|
                    0 <= u < p ==> !(#[trigger] adjacent(g, u, v) && dist[u] == Some(dp))
            })
        }
}

/// A walk of at most `k` hops leads from `s` to `v` over links of bandwidth at least `b`.
pub open spec fn carry<T>(g: Seq<Seq<Option<Link<T>>>>, s: int, v: int, b: int, k: nat) -> bool
    decreases k,
{
    v == s || (k > 0 && exists|u: int|
        #[trigger] adjacent(g, u, v) && weight(g, u, v) >= b && carry(g, s, u, b, (k - 1) as nat))
}

/// A path leads from `s` to `v` over links of bandwidth at least `b`.
pub open spec fn carries<T>(g: Seq<Seq<Option<Link<T>>>>, s: int, v: int, b: int) -> bool {
    exists|k: nat| #[trigger] carry(g, s, v, b, k)
}

/// `label` gives, for each vertex other than `s`, the largest bottleneck bandwidth of the
/// paths from `s` (`u32::MAX` for `s` itself, nothing for a vertex out of reach), and
/// `parents` a tree of paths that reach these bottlenecks.
pub open spec fn widest_tree<T>(
    g: Seq<Seq<Option<Link<T>>>>,
    s: int,
    label: Seq<Option<u32>>,
    parents: Seq<Option<usize>>,
) -> bool {
    &&& label.len() == g.len()
    &&& parents.len() == g.len()
    &&& label[s] == Some(u32::MAX)
    &&& forall|v: int|
        0 <= v < g.len() ==> {
            &&& (#[trigger] label[v] is None <==> !carries(g, s, v, 0))
            &&& (v != s ==> (label[v] matches Some(w) ==> carries(g, s, v, w as int) && !carries(
                g,
                s,
                v,
                w + 1,
            )))
            &&& (parents[v] is None <==> (v == s || label[v] is None))
            &&& (parents[v] matches Some(p) ==> {
                &&& adjacent(g, p as int, v)
                &&& label[p as int] matches Some(lp)
                &&& label[v] matches Some(lv)
                &&& lv == min_u32(lp, weight(g, p as int, v))
            })
        }
}

/// The smaller of two bandwidths.
pub open spec fn min_u32(a: u32, b: u32) -> u32 {
    if a <= b {
        a
    } else {
        b
    }
}

/// The label of `x` has been passed on to each neighbour of `x`: each neighbour is labelled
/// with at least the smaller of that label and the bandwidth of the link between them.
pub open spec fn passed_on<T>(g: Seq<Seq<Option<Link<T>>>>, label: Seq<Option<u32>>, x: int) -> bool {
    forall|y: int|
        #[trigger] adjacent(g, x, y) ==> (label[y] matches Some(ly) && ly >= min_u32(
            label[x]->Some_0,
            weight(g, x, y),
        ))
}

/// Following parents from any vertex ends: some rank decreases from each vertex to its parent.
pub open spec fn parents_acyclic(parents: Seq<Option<usize>>) -> bool {
    exists|rank: Seq<int>| #[trigger] ranked(parents, rank)
}

/// `rank` decreases from each vertex to its parent, and stays nonnegative.
pub open spec fn ranked(parents: Seq<Option<usize>>, rank: Seq<int>) -> bool {
    &&& rank.len() == parents.len()
    &&& forall|v: int|
        0 <= v < parents.len() ==> (#[trigger] parents[v] matches Some(p) ==> p < parents.len()
            && 0 <= rank[p as int] < rank[v])
}

/// The number of entries of `s` that hold nothing.
pub open spec fn count_none<A>(s: Seq<Option<A>>) -> nat
    decreases s.len(),
{
    if s.len() == 0 {
        0
    } else {
        count_none(s.drop_last()) + if s.last() is None {
            1nat
        } else {
            0nat
        }
    }
}

pub proof fn lemma_count_none_le<A>(s: Seq<Option<A>>)
    ensures
        count_none(s) <= s.len(),
    decreases s.len(),
{
    if s.len() > 0 {
        lemma_count_none_le(s.drop_last());
    }
}

pub proof fn lemma_count_none_update<A>(s: Seq<Option<A>>, i: int, x: A)
    requires
        0 <= i < s.len(),
        s[i] is None,
    ensures
        count_none(s.update(i, Some(x))) + 1 == count_none(s),
    decreases s.len(),
{
    let t = s.update(i, Some(x));
    if i == s.len() - 1 {
        assert(t.drop_last() =~= s.drop_last());
    } else {
        assert(t.drop_last() =~= s.drop_last().update(i, Some(x)));
        lemma_count_none_update(s.drop_last(), i, x);
    }
}

/// The potential of a label: it falls each time the label grows.
pub open spec fn pot(l: Option<u32>) -> int {
    match l {
        Some(b) => u32::MAX - b,
        None => u32::MAX + 1,
    }
}

/// The sum of the potentials of the labels.
pub open spec fn pot_sum(s: Seq<Option<u32>>) -> int
    decreases s.len(),
{
    if s.len() == 0 {
        0
    } else {
        pot_sum(s.drop_last()) + pot(s.last())
    }
}

pub proof fn lemma_pot_sum_nonneg(s: Seq<Option<u32>>)
    ensures
        pot_sum(s) >= 0,
    decreases s.len(),
{
    if s.len() > 0 {
        lemma_pot_sum_nonneg(s.drop_last());
    }
}

pub proof fn lemma_pot_sum_update(s: Seq<Option<u32>>, i: int, x: Option<u32>)
    requires
        0 <= i < s.len(),
    ensures
        pot_sum(s.update(i, x)) == pot_sum(s) - pot(s[i]) + pot(x),
    decreases s.len(),
{
    let t = s.update(i, x);
    if i == s.len() - 1 {
        assert(t.drop_last() =~= s.drop_last());
    } else {
        assert(t.drop_last() =~= s.drop_last().update(i, x));
        lemma_pot_sum_update(s.drop_last(), i, x);
    }
}

/// More hops reach at least as far.
pub proof fn lemma_reach_mono<T>(g: Seq<Seq<Option<Link<T>>>>, s: int, v: int, k1: nat, k2: nat)
    requires
        k1 <= k2,
        reach(g, s, v, k1),
    ensures
        reach(g, s, v, k2),
    decreases k2,
{
    if v != s && k1 < k2 {
        let u = choose|u: int| #[trigger] adjacent(g, u, v) && reach(g, s, u, (k1 - 1) as nat);
        lemma_reach_mono(g, s, u, (k1 - 1) as nat, (k2 - 1) as nat);
        assert(adjacent(g, u, v) && reach(g, s, u, (k2 - 1) as nat));
    }
}

/// When `d + 1` hops reach no farther than `d` hops, no number of hops does.
pub proof fn lemma_reach_stable<T>(g: Seq<Seq<Option<Link<T>>>>, s: int, d: nat, v: int, k: nat)
    requires
        forall|x: int| #[trigger] reach(g, s, x, d + 1) ==> reach(g, s, x, d),
        reach(g, s, v, k),
    ensures
        reach(g, s, v, d),
    decreases k,
{
    if k <= d {
        lemma_reach_mono(g, s, v, k, d);
    } else if v != s {
        let u = choose|u: int| #[trigger] adjacent(g, u, v) && reach(g, s, u, (k - 1) as nat);
        lemma_reach_stable(g, s, d, u, (k - 1) as nat);
        assert(adjacent(g, u, v) && reach(g, s, u, d));
        assert(reach(g, s, v, d + 1));
    }
}

/// An element other than the one removed stays in the sequence.
pub proof fn lemma_remove_keeps<A>(q: Seq<A>, i: int, e: A)
    requires
        0 <= i < q.len(),
        q.contains(e),
        q[i] != e,
    ensures
        q.remove(i).contains(e),
{
    let k = choose|k: int| 0 <= k < q.len() && q[k] == e;
    q.remove_ensures(i);
    if k < i {
        assert(q.remove(i)[k] == e);
    } else {
        assert(q.remove(i)[k - 1] == e);
    }
}

/// An element stays in the sequence when another is pushed.
pub proof fn lemma_push_keeps<A>(q: Seq<A>, x: A, e: A)
    requires
        q.contains(e),
    ensures
        q.push(x).contains(e),
{
    let k = choose|k: int| 0 <= k < q.len() && q[k] == e;
    assert(q.push(x)[k] == e);
}

/// A walk over links of bandwidth at least `b` also carries any smaller bandwidth.
pub proof fn lemma_carry_mono<T>(g: Seq<Seq<Option<Link<T>>>>, s: int, v: int, b1: int, b2: int, k: nat)
    requires
        b2 <= b1,
        carry(g, s, v, b1, k),
    ensures
        carry(g, s, v, b2, k),
    decreases k,
{
    if v != s {
        let u = choose|u: int|
            #[trigger] adjacent(g, u, v) && weight(g, u, v) >= b1 && carry(g, s, u, b1, (k - 1) as nat);
        lemma_carry_mono(g, s, u, b1, b2, (k - 1) as nat);
        assert(adjacent(g, u, v) && weight(g, u, v) >= b2 && carry(g, s, u, b2, (k - 1) as nat));
    }
}

/// A path to `u` carrying `b`, followed by the link from `u` to `v`, carries the smaller of
/// `b` and the bandwidth of that link.
pub proof fn lemma_carries_extend<T>(g: Seq<Seq<Option<Link<T>>>>, s: int, u: int, v: int, b: int, c: int)
    requires
        carries(g, s, u, b),
        adjacent(g, u, v),
        c <= b,
        c <= weight(g, u, v),
    ensures
        carries(g, s, v, c),
{
    let k = choose|k: nat| #[trigger] carry(g, s, u, b, k);
    lemma_carry_mono(g, s, u, b, c, k);
    assert(adjacent(g, u, v) && weight(g, u, v) >= c && carry(g, s, u, c, k));
    assert(carry(g, s, v, c, k + 1));
}

/// Where every labelled vertex has passed its label on to its neighbours, a walk carrying
/// `b` ends at a vertex labelled with at least `b`.
pub proof fn lemma_carry_complete<T>(
    g: Seq<Seq<Option<Link<T>>>>,
    s: int,
    label: Seq<Option<u32>>,
    v: int,
    b: int,
    k: nat,
)
    requires
        label.len() == g.len(),
        0 <= s < g.len(),
        0 <= v < g.len(),
        label[s] == Some(u32::MAX),
        0 <= b <= u32::MAX,
        forall|x: int| 0 <= x < g.len() && #[trigger] label[x] is Some ==> passed_on(g, label, x),
        carry(g, s, v, b, k),
    ensures
        label[v] matches Some(lv) && lv >= b,
    decreases k,
{
    if v != s {
        let u = choose|u: int|
            #[trigger] adjacent(g, u, v) && weight(g, u, v) >= b && carry(g, s, u, b, (k - 1) as nat);
        lemma_carry_complete(g, s, label, u, b, (k - 1) as nat);
        assert(passed_on(g, label, u));
    }
}


/// The smallest bandwidth offered by the links, `u32::MAX` when there is none.
pub open spec fn bottleneck<T>(links: Seq<Link<T>>) -> u32
    decreases links.len(),
{
    if links.len() == 0 {
        u32::MAX
    } else {
        min_u32(effective_bandwidth(links[0]), bottleneck(links.drop_first()))
    }
}

/// `nodes` are the vertices met following `parents` back from `to` until a vertex without
/// parent, in order from that vertex, and `links` the links joining each to the next.
pub open spec fn follows<T>(
    g: Seq<Seq<Option<Link<T>>>>,
    parents: Seq<Option<usize>>,
    nodes: Seq<usize>,
    links: Seq<Link<T>>,
    to: int,
) -> bool {
    &&& nodes.len() == links.len() + 1
    &&& nodes.last() == to
    &&& parents[nodes[0] as int] is None
    &&& forall|i: int| 0 <= i < nodes.len() ==> #[trigger] nodes[i] < g.len()
    &&& forall|i: int|
        0 <= i < links.len() ==> parents[nodes[i + 1] as int] == Some(nodes[i]) && g[nodes[i] as int][nodes[i
            + 1] as int] == Some(#[trigger] links[i])
}

/// `s` and `t` are joined under the strategy: by a path of distinct ends for the path of
/// fewest hops, by any path (possibly empty) for the widest path.
pub open spec fn connected<T>(strategy: PathStrategy, g: Seq<Seq<Option<Link<T>>>>, s: int, t: int) -> bool {
    match strategy {
        PathStrategy::WidestPath => carries(g, s, t, 0),
        PathStrategy::ShortestPath => s != t && reachable(g, s, t),
    }
}

/// `val` and `parents` are what the strategy computes from `s`: hop distances and the tree
/// of fewest-hop paths, or widest bandwidths and a tree of widest paths.
pub open spec fn strategy_tree<T>(
    strategy: PathStrategy,
    g: Seq<Seq<Option<Link<T>>>>,
    s: int,
    val: Seq<Option<u32>>,
    parents: Seq<Option<usize>>,
) -> bool {
    &&& parents_acyclic(parents)
    &&& match strategy {
        PathStrategy::WidestPath => widest_tree(g, s, val, parents),
        PathStrategy::ShortestPath => shortest_tree(g, s, val, parents),
    }
}

/// `r` is the bandwidth between `s` and `t` under the strategy: the widest bandwidth, or the
/// bottleneck of the fewest-hop path of the tree (nothing when `t` hangs from no vertex).
pub open spec fn bandwidth_along<T>(
    strategy: PathStrategy,
    g: Seq<Seq<Option<Link<T>>>>,
    s: int,
    t: int,
    r: Option<u32>,
) -> bool {
    exists|val: Seq<Option<u32>>, parents: Seq<Option<usize>>|
        #[trigger] strategy_tree(strategy, g, s, val, parents) && match strategy {
            PathStrategy::WidestPath => r == val[t],
            PathStrategy::ShortestPath => if parents[t] is None {
                r is None
            } else {
                exists|nodes: Seq<usize>, links: Seq<Link<T>>|
                    #[trigger] follows(g, parents, nodes, links, t) && r == Some(bottleneck(links))
            },
        }
}

/// `links` is the path from `s` to `t` in the tree of the strategy.
pub open spec fn path_along<T>(
    strategy: PathStrategy,
    g: Seq<Seq<Option<Link<T>>>>,
    s: int,
    t: int,
    links: Seq<Link<T>>,
) -> bool {
    exists|val: Seq<Option<u32>>, parents: Seq<Option<usize>>, nodes: Seq<usize>|
        #[trigger] strategy_tree(strategy, g, s, val, parents) && #[trigger] follows(g, parents, nodes, links, t)
}


/// The `i`-th link of the path of `nodes` joins `r` and `c`, in either direction.
pub open spec fn edge_is(nodes: Seq<usize>, i: int, r: int, c: int) -> bool {
    (nodes[i] == r && nodes[i + 1] == c) || (nodes[i] == c && nodes[i + 1] == r)
}

/// One of the links `lo .. hi` of the path of `nodes` joins `r` and `c`.
pub open spec fn on_edges(nodes: Seq<usize>, lo: int, hi: int, r: int, c: int) -> bool {
    exists|i: int| lo <= i < hi && #[trigger] edge_is(nodes, i, r, c)
}

/// `new_g` is `old_g` where each link `i` in `lo .. hi` of the path of `nodes` has had its
/// bandwidth replaced by what `func` gives for the bandwidth the link offered.
pub open spec fn updated_along<T, F: Fn(u32) -> u32>(
    old_g: Seq<Seq<Option<Link<T>>>>,
    new_g: Seq<Seq<Option<Link<T>>>>,
    nodes: Seq<usize>,
    links: Seq<Link<T>>,
    lo: int,
    hi: int,
    func: F,
) -> bool {
    &&& new_g.len() == old_g.len()
    &&& forall|r: int| 0 <= r < new_g.len() ==> #[trigger] new_g[r].len() == old_g[r].len()
    &&& forall|r: int, c: int|
        0 <= r < old_g.len() && 0 <= c < old_g.len() && !on_edges(nodes, lo, hi, r, c) ==> #[trigger] new_g[r][c]
            == old_g[r][c]
    &&& forall|i: int, r: int, c: int|
        lo <= i < hi && #[trigger] edge_is(nodes, i, r, c) ==> (new_g[r][c] matches Some(l) && l == (Link {
            bandwidth: l.bandwidth,
            ..links[i]
        }) && func.ensures((effective_bandwidth(links[i]),), l.bandwidth))
}

/// Distinct vertices make distinct links.
pub proof fn lemma_edges_distinct(nodes: Seq<usize>, i: int, j: int, r: int, c: int)
    requires
        0 <= i < nodes.len() - 1,
        0 <= j < nodes.len() - 1,
        i != j,
        forall|a: int, b: int| 0 <= a < b < nodes.len() ==> nodes[a] != nodes[b],
        edge_is(nodes, i, r, c),
    ensures
        !edge_is(nodes, j, r, c),
{
    if edge_is(nodes, j, r, c) {
        if nodes[i] == r {
            if nodes[j] == r {
                assert(nodes[i] == nodes[j]);
            } else {
                assert(nodes[j + 1] == r);
                if i != j + 1 {
                    assert(nodes[i] == nodes[j + 1]);
                } else {
                    assert(nodes[i + 1] == c && nodes[j] == c);
                    assert(nodes[i + 1] == nodes[j]);
                }
            }
        } else {
            assert(nodes[i] == c && nodes[i + 1] == r);
            if nodes[j] == c {
                assert(nodes[i] == nodes[j]);
            } else {
                assert(nodes[j + 1] == c);
                if i != j + 1 {
                    assert(nodes[i] == nodes[j + 1]);
                } else {
                    assert(nodes[j] == r);
                    assert(nodes[i + 1] == nodes[j]);
                }
            }
        }
    }
}

} // verus!

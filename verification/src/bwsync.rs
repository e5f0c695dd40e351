//! Sharing the bandwidth of the emulated network between the active flows.
//!
//! A set of flows is a sequence in which a flow is known by its two ends: two flows with the
//! same source and destination are the same flow. The fair division of a link between the
//! flows that cross it works on real numbers; it is handed in as a function, and this module
//! decides which flows each division concerns, merges the divisions, and recomputes the
//! bandwidth that the flows leave on the links.
use vstd::prelude::*;
use vstd::laws_eq::obeys_concrete_eq;
use crate::apps::Flow;
use crate::netgraph::{Link, Network, Path, PathStrategy, index_of, holds_link, distinct_links, effective_bandwidth};
use crate::paths::{strategy_tree, follows, path_along, updated_along, on_edges, edge_is, connected};

verus! {

/// The links of a network, row by row.
pub type Graph<T> = Seq<Seq<Option<Link<T>>>>;

/// Two flows are the same flow when they join the same source to the same destination.
pub open spec fn same_ends<T>(x: Flow<T>, y: Flow<T>) -> bool {
    x.source == y.source && x.destination == y.destination
}

/// The first of the `n` first flows of `s` that is the same flow as `f`.
pub open spec fn first_match<T>(s: Seq<Flow<T>>, f: Flow<T>, n: nat) -> Option<Flow<T>>
    decreases n,
{
    if n == 0 {
        None
    } else {
        match first_match(s, f, (n - 1) as nat) {
            Some(x) => Some(x),
            None => if same_ends(s[n - 1], f) {
                Some(s[n - 1])
            } else {
                None
            },
        }
    }
}

/// `s` holds the same flow as `f`.
pub open spec fn has_flow<T>(s: Seq<Flow<T>>, f: Flow<T>) -> bool {
    exists|i: int| 0 <= i < s.len() && same_ends(#[trigger] s[i], f)
}

/// Of two copies of a flow, the one authorised to use less.
pub open spec fn stricter<T>(x: Flow<T>, y: Flow<T>) -> Flow<T> {
    if x.authorized_bandwidth < y.authorized_bandwidth {
        x
    } else {
        y
    }
}

/// The `n` first flows of `b` that `a` does not hold, in order.
pub open spec fn only_new<T>(b: Seq<Flow<T>>, a: Seq<Flow<T>>, n: nat) -> Seq<Flow<T>>
    decreases n,
{
    if n == 0 {
        seq![]
    } else {
        let rest = only_new(b, a, (n - 1) as nat);
        if first_match(a, b[n - 1], a.len()) is Some {
            rest
        } else {
            rest.push(b[n - 1])
        }
    }
}

/// The flows of `a`, each replaced by the stricter of it and its copy in `b`, followed by the
/// flows of `b` that `a` does not hold.
pub open spec fn merged<T>(a: Seq<Flow<T>>, b: Seq<Flow<T>>) -> Seq<Flow<T>> {
    Seq::new(
        a.len(),
        |i: int|
            match first_match(b, a[i], b.len()) {
                Some(y) => stricter(a[i], y),
                None => a[i],
            },
    ) + only_new(b, a, b.len())
}

/// The `n` first sets of flows of `outs`, merged one after the other.
pub open spec fn merged_all<T>(outs: Seq<Seq<Flow<T>>>, n: nat) -> Seq<Flow<T>>
    decreases n,
{
    if n == 0 {
        seq![]
    } else {
        merged(merged_all(outs, (n - 1) as nat), outs[n - 1])
    }
}

/// The `n` first flows of `s` but those that are the same flow as `f`.
pub open spec fn without<T>(s: Seq<Flow<T>>, f: Flow<T>, n: nat) -> Seq<Flow<T>>
    decreases n,
{
    if n == 0 {
        seq![]
    } else {
        let rest = without(s, f, (n - 1) as nat);
        if same_ends(s[n - 1], f) {
            rest
        } else {
            rest.push(s[n - 1])
        }
    }
}

/// `s` with `f` in place of the flows that are the same flow as `f`, or `f` added at the end
/// when there is none.
pub open spec fn replaced<T>(s: Seq<Flow<T>>, f: Flow<T>) -> Seq<Flow<T>> {
    if has_flow(s, f) {
        Seq::new(
            s.len(),
            |i: int|
                if same_ends(s[i], f) {
                    f
                } else {
                    s[i]
                },
        )
    } else {
        s.push(f)
    }
}

/// `s` with each of the `n` first flows of `fs` put in, one after the other, by `replaced`.
pub open spec fn replaced_all<T>(s: Seq<Flow<T>>, fs: Seq<Flow<T>>, n: nat) -> Seq<Flow<T>>
    decreases n,
{
    if n == 0 {
        s
    } else {
        replaced(replaced_all(s, fs, (n - 1) as nat), fs[n - 1])
    }
}

/// Both ends of the flow are vertices of the network.
pub open spec fn flow_mapped<T: Copy + PartialEq>(net: Network<T>, f: Flow<T>) -> bool {
    index_of(net.mapping(), f.source) is Some && index_of(net.mapping(), f.destination) is Some
}

/// `new_g` is `old_g` where each link of the path of `nodes` offers `amount` less than it
/// offered, the subtraction wrapping around below zero.
pub open spec fn reduced_along<T>(
    old_g: Graph<T>,
    new_g: Graph<T>,
    nodes: Seq<usize>,
    links: Seq<Link<T>>,
    amount: u32,
) -> bool {
    &&& new_g.len() == old_g.len()
    &&& forall|r: int| 0 <= r < new_g.len() ==> #[trigger] new_g[r].len() == old_g[r].len()
    &&& forall|r: int, c: int|
        0 <= r < old_g.len() && 0 <= c < old_g.len() && !on_edges(nodes, 0, links.len() as int, r, c)
            ==> #[trigger] new_g[r][c] == old_g[r][c]
    &&& forall|i: int, r: int, c: int|
        0 <= i < links.len() && #[trigger] edge_is(nodes, i, r, c) ==> new_g[r][c] == Some(
            Link { bandwidth: effective_bandwidth(links[i]).wrapping_sub(amount), ..links[i] },
        )
}

/// `g1` is `g0` once the flow `f` has taken its bandwidth from the links of its path in `g0`;
/// a flow with an end outside the network takes nothing.
pub open spec fn flow_taken<T>(
    strategy: PathStrategy,
    mapping: Seq<(T, usize)>,
    g0: Graph<T>,
    g1: Graph<T>,
    f: Flow<T>,
) -> bool {
    match (index_of(mapping, f.source), index_of(mapping, f.destination)) {
        (Some(s), Some(t)) => exists|
            val: Seq<Option<u32>>,
            parents: Seq<Option<usize>>,
            nodes: Seq<usize>,
            links: Seq<Link<T>>,
        |
            #[trigger] strategy_tree(strategy, g0, s as int, val, parents) && #[trigger] follows(
                g0,
                parents,
                nodes,
                links,
                t as int,
            ) && reduced_along(g0, g1, nodes, links, f.used_bandwidth),
        _ => g1 == g0,
    }
}

/// `gs` are the graphs met while the flows take their bandwidth one after the other.
pub open spec fn flows_taken<T>(
    strategy: PathStrategy,
    mapping: Seq<(T, usize)>,
    gs: Seq<Graph<T>>,
    flows: Seq<Flow<T>>,
) -> bool {
    &&& gs.len() == flows.len() + 1
    &&& forall|i: int| 0 <= i < flows.len() ==> flow_taken(strategy, mapping, gs[i], gs[i + 1], #[trigger] flows[i])
}

/// `r` is the network `net` once each flow of `flows`, in order, has taken its used bandwidth
/// from the links of its path.
pub open spec fn bandwidth_graph<T: Copy + PartialEq>(net: Network<T>, flows: Seq<Flow<T>>, r: Network<T>) -> bool {
    &&& r.wf()
    &&& r.mapping() == net.mapping()
    &&& r.strategy() == net.strategy()
    &&& exists|gs: Seq<Graph<T>>|
        #[trigger] flows_taken(net.strategy(), net.mapping(), gs, flows) && gs[0] == net.graph() && gs.last()
            == r.graph()
}

/// A change of each link along a path that subtracts `amount` is a reduction along it.
proof fn lemma_reduced<T, F: Fn(u32) -> u32>(
    g0: Graph<T>,
    g1: Graph<T>,
    nodes: Seq<usize>,
    links: Seq<Link<T>>,
    func: F,
    amount: u32,
)
    requires
        updated_along(g0, g1, nodes, links, 0, links.len() as int, func),
        forall|x: u32, y: u32| #[trigger] func.ensures((x,), y) ==> y == x.wrapping_sub(amount),
    ensures
        reduced_along(g0, g1, nodes, links, amount),
{
    assert forall|i: int, r: int, c: int| 0 <= i < links.len() && #[trigger] edge_is(nodes, i, r, c) implies g1[r][c]
        == Some(Link { bandwidth: effective_bandwidth(links[i]).wrapping_sub(amount), ..links[i] }) by {
        let l = g1[r][c]->Some_0;
        assert(func.ensures((effective_bandwidth(links[i]),), l.bandwidth));
    }
}

/// The first flow of `s` that is the same flow as `f`, if there is one.
fn find_flow<T: Copy + PartialEq>(s: &Vec<Flow<T>>, f: &Flow<T>) -> (r: Option<Flow<T>>)
    requires
        obeys_concrete_eq::<T>(),
    ensures
        r == first_match(s@, *f, s@.len()),
{
    let mut r: Option<Flow<T>> = None;
    let mut j: usize = 0;
    while j < s.len()
        invariant
            j <= s@.len(),
            obeys_concrete_eq::<T>(),
            r == first_match(s@, *f, j as nat),
        decreases s@.len() - j,
    {
        if r.is_none() && s[j].same_flow(f) {
            r = Some(s[j]);
        }
        j = j + 1;
    }
    r
}

/// The flows of `s` but the one that is the same flow as `f`.
pub fn without_flow<T: Copy + PartialEq>(s: &Vec<Flow<T>>, f: &Flow<T>) -> (r: Vec<Flow<T>>)
    requires
        obeys_concrete_eq::<T>(),
    ensures
        r@ == without(s@, *f, s@.len()),
{
    let mut r: Vec<Flow<T>> = Vec::new();
    let mut j: usize = 0;
    while j < s.len()
        invariant
            j <= s@.len(),
            obeys_concrete_eq::<T>(),
            r@ == without(s@, *f, j as nat),
        decreases s@.len() - j,
    {
        if !s[j].same_flow(f) {
            r.push(s[j]);
        }
        j = j + 1;
    }
    r
}

/// Puts `f` in place of the flow of `s` that is the same flow, or adds it when there is none.
pub fn replace_flow<T: Copy + PartialEq>(s: &mut Vec<Flow<T>>, f: Flow<T>)
    requires
        obeys_concrete_eq::<T>(),
    ensures
        final(s)@ == replaced(old(s)@, f),
{
    let ghost s0 = s@;
    let mut found = false;
    let mut j: usize = 0;
    while j < s.len()
        invariant
            j <= s@.len(),
            s@.len() == s0.len(),
            obeys_concrete_eq::<T>(),
            found <==> exists|k: int| 0 <= k < j && same_ends(#[trigger] s0[k], f),
            forall|k: int| 0 <= k < j ==> #[trigger] s@[k] == (if same_ends(s0[k], f) { f } else { s0[k] }),
            forall|k: int| j <= k < s@.len() ==> #[trigger] s@[k] == s0[k],
        decreases s@.len() - j,
    {
        if s[j].same_flow(&f) {
            s.set(j, f);
            found = true;
        }
        j = j + 1;
    }
    if !found {
        s.push(f);
        proof {
            assert(!has_flow(s0, f));
            assert(s@ =~= s0.push(f));
        }
    } else {
        proof {
            assert(has_flow(s0, f));
            assert(s@ =~= replaced(s0, f));
        }
    }
}

/// Puts each flow of `fs`, one after the other, in `s` with `replace_flow`.
pub fn replace_flows<T: Copy + PartialEq>(s: &mut Vec<Flow<T>>, fs: &Vec<Flow<T>>)
    requires
        obeys_concrete_eq::<T>(),
    ensures
        final(s)@ == replaced_all(old(s)@, fs@, fs@.len()),
{
    let ghost s0 = s@;
    let mut j: usize = 0;
    while j < fs.len()
        invariant
            j <= fs@.len(),
            obeys_concrete_eq::<T>(),
            s@ == replaced_all(s0, fs@, j as nat),
        decreases fs@.len() - j,
    {
        replace_flow(s, fs[j]);
        j = j + 1;
    }
}

/// Merges two sets of flows keeping, of a flow that both hold, the copy authorised to use
/// less: the flows of `first`, each replaced by the stricter copy, then the flows of `other`
/// that `first` does not hold.
pub fn merge<T: Copy + PartialEq>(first: &Vec<Flow<T>>, other: &Vec<Flow<T>>) -> (r: Vec<Flow<T>>)
    requires
        obeys_concrete_eq::<T>(),
    ensures
        r@ == merged(first@, other@),
{
    let mut r: Vec<Flow<T>> = Vec::new();
    let mut i: usize = 0;
    while i < first.len()
        invariant
            i <= first@.len(),
            obeys_concrete_eq::<T>(),
            r@ == merged(first@, other@).subrange(0, i as int),
        decreases first@.len() - i,
    {
        let x = first[i];
        match find_flow(other, &x) {
            Some(y) => {
                if x.authorized_bandwidth < y.authorized_bandwidth {
                    r.push(x);
                } else {
                    r.push(y);
                }
            },
            None => {
                r.push(x);
            },
        }
        proof {
            assert(r@ =~= merged(first@, other@).subrange(0, i + 1));
        }
        i = i + 1;
    }
    let ghost head = r@;
    let mut j: usize = 0;
    while j < other.len()
        invariant
            j <= other@.len(),
            obeys_concrete_eq::<T>(),
            head.len() == first@.len(),
            r@ == head + only_new(other@, first@, j as nat),
        decreases other@.len() - j,
    {
        let y = other[j];
        if find_flow(first, &y).is_none() {
            r.push(y);
            proof {
                assert(r@ =~= head + only_new(other@, first@, (j + 1) as nat));
            }
        }
        j = j + 1;
    }
    proof {
        assert(head =~= merged(first@, other@).subrange(0, first@.len() as int));
        assert(r@ =~= merged(first@, other@));
    }
    r
}

/// The network `graph` once each active flow, in order, has taken the bandwidth it uses from
/// the links of its path; the subtraction wraps around below zero.
pub fn calculate_bandwidth_graph<T: Copy + PartialEq>(graph: &Network<T>, active_flows: &Vec<Flow<T>>) -> (r: Network<
    T,
>)
    requires
        graph.wf(),
        obeys_concrete_eq::<T>(),
    ensures
        bandwidth_graph(*graph, active_flows@, r),
{
    let mut bw = graph.duplicate();
    let ghost mut gs: Seq<Graph<T>> = seq![graph.graph()];
    let mut i: usize = 0;
    while i < active_flows.len()
        invariant
            i <= active_flows@.len(),
            obeys_concrete_eq::<T>(),
            bw.wf(),
            bw.mapping() == graph.mapping(),
            bw.strategy() == graph.strategy(),
            gs.len() == i + 1,
            gs[0] == graph.graph(),
            gs[i as int] == bw.graph(),
            forall|k: int|
                0 <= k < i ==> flow_taken(
                    graph.strategy(),
                    graph.mapping(),
                    gs[k],
                    gs[k + 1],
                    #[trigger] active_flows@[k],
                ),
        decreases active_flows@.len() - i,
    {
        let f = active_flows[i];
        let amount = f.used_bandwidth;
        let reduce = move |old: u32| -> (v: u32)
            ensures
                v == old.wrapping_sub(amount),
            { old.wrapping_sub(amount) };
        let ghost g0 = bw.graph();
        bw.update_edges_along_path_by(&f.source, &f.destination, reduce);
        proof {
            let m = graph.mapping();
            let st = graph.strategy();
            if index_of(m, f.source) is Some && index_of(m, f.destination) is Some {
                let s = index_of(m, f.source)->Some_0 as int;
                let t = index_of(m, f.destination)->Some_0 as int;
                let (val, parents, nodes, links) = choose|
                    val: Seq<Option<u32>>,
                    parents: Seq<Option<usize>>,
                    nodes: Seq<usize>,
                    links: Seq<Link<T>>,
                |
                    #[trigger] strategy_tree(st, g0, s, val, parents) && #[trigger] follows(g0, parents, nodes, links, t)
                        && updated_along(g0, bw.graph(), nodes, links, 0, links.len() as int, reduce);
                lemma_reduced(g0, bw.graph(), nodes, links, reduce, amount);
                assert(flow_taken(st, m, g0, bw.graph(), f));
            }
            gs = gs.push(bw.graph());
            assert forall|k: int| 0 <= k < i + 1 implies flow_taken(st, m, gs[k], gs[k + 1], #[trigger] active_flows@[k]) by {
                if k < i {
                    assert(gs[k] == gs.drop_last()[k]);
                }
            }
        }
        i = i + 1;
    }
    proof {
        assert(flows_taken(graph.strategy(), graph.mapping(), gs, active_flows@));
    }
    bw
}

/// `p` is the path of the flow `f` in the tree of the network's strategy.
pub open spec fn route_of<T: Copy + PartialEq>(net: Network<T>, f: Flow<T>, p: Seq<Link<T>>) -> bool {
    path_along(
        net.strategy(),
        net.graph(),
        index_of(net.mapping(), f.source)->Some_0 as int,
        index_of(net.mapping(), f.destination)->Some_0 as int,
        p,
    )
}

/// `paths[j]` is the path of the flow `flows[j]`.
pub open spec fn routes<T: Copy + PartialEq>(net: Network<T>, flows: Seq<Flow<T>>, paths: Seq<Seq<Link<T>>>) -> bool {
    &&& paths.len() == flows.len()
    &&& forall|j: int| 0 <= j < flows.len() ==> route_of(net, #[trigger] flows[j], paths[j])
}

/// The views of paths.
pub open spec fn path_views<T: Copy>(ps: Seq<Path<T>>) -> Seq<Seq<Link<T>>> {
    ps.map_values(|p: Path<T>| p@)
}

/// The views of groups of flows.
pub open spec fn group_views<T>(gs: Seq<(Link<T>, Vec<Flow<T>>)>) -> Seq<(Link<T>, Seq<Flow<T>>)> {
    gs.map_values(|g: (Link<T>, Vec<Flow<T>>)| (g.0, g.1@))
}

/// Of the `n` first flows, those whose path crosses the link `l`, in order.
pub open spec fn users<T: Copy>(flows: Seq<Flow<T>>, paths: Seq<Seq<Link<T>>>, l: Link<T>, n: nat) -> Seq<Flow<T>>
    decreases n,
{
    if n == 0 {
        seq![]
    } else {
        let rest = users(flows, paths, l, (n - 1) as nat);
        if holds_link(paths[n - 1], l) {
            rest.push(flows[n - 1])
        } else {
            rest
        }
    }
}

/// The group of a link once the updated flow is taken out of it (when it uses nothing) or
/// put in it.
pub open spec fn adjusted<T>(group: Seq<Flow<T>>, upd: Flow<T>) -> Seq<Flow<T>> {
    if upd.used_bandwidth == 0 {
        without(group, upd, group.len())
    } else {
        replaced(group, upd)
    }
}

/// Each link of the updated flow's path `up`, with the flows whose path crosses it,
/// adjusted by the updated flow.
pub open spec fn link_groups<T: Copy>(
    up: Seq<Link<T>>,
    flows: Seq<Flow<T>>,
    paths: Seq<Seq<Link<T>>>,
    upd: Flow<T>,
) -> Seq<(Link<T>, Seq<Flow<T>>)> {
    Seq::new(up.len(), |i: int| (up[i], adjusted(users(flows, paths, up[i], flows.len()), upd)))
}

/// `groups` are the links of the path of `upd`, each with the flows of `flows` that cross it,
/// for some choice of the flows' paths in the strategy's trees.
pub open spec fn groups_of<T: Copy + PartialEq>(
    net: Network<T>,
    upd: Flow<T>,
    flows: Seq<Flow<T>>,
    groups: Seq<(Link<T>, Seq<Flow<T>>)>,
) -> bool {
    exists|up: Seq<Link<T>>, ps: Seq<Seq<Link<T>>>|
        #[trigger] route_of(net, upd, up) && #[trigger] routes(net, flows, ps) && groups == link_groups(
            up,
            flows,
            ps,
            upd,
        )
}

/// The path of a flow whose ends are in the network.
fn route<T: Copy + PartialEq>(graph: &Network<T>, f: &Flow<T>) -> (p: Path<T>)
    requires
        graph.wf(),
        obeys_concrete_eq::<T>(),
        flow_mapped(*graph, *f),
    ensures
        route_of(*graph, *f, p@),
{
    match graph.get_path_between(&f.source, &f.destination) {
        Some(p) => p,
        None => Path::new(),
    }
}

/// The paths of flows whose ends are in the network.
fn routes_of<T: Copy + PartialEq>(graph: &Network<T>, flows: &Vec<Flow<T>>) -> (ps: Vec<Path<T>>)
    requires
        graph.wf(),
        obeys_concrete_eq::<T>(),
        forall|j: int| 0 <= j < flows@.len() ==> flow_mapped(*graph, #[trigger] flows@[j]),
    ensures
        routes(*graph, flows@, path_views(ps@)),
{
    let mut ps: Vec<Path<T>> = Vec::new();
    let mut j: usize = 0;
    while j < flows.len()
        invariant
            j <= flows@.len(),
            graph.wf(),
            obeys_concrete_eq::<T>(),
            forall|k: int| 0 <= k < flows@.len() ==> flow_mapped(*graph, #[trigger] flows@[k]),
            ps@.len() == j,
            forall|k: int| 0 <= k < j ==> route_of(*graph, #[trigger] flows@[k], ps@[k]@),
        decreases flows@.len() - j,
    {
        let p = route(graph, &flows[j]);
        ps.push(p);
        j = j + 1;
    }
    ps
}

/// Whether `links` holds a link joining the same vertices as `l`.
fn holds_in<T: Copy>(links: &Vec<Link<T>>, l: &Link<T>) -> (b: bool)
    ensures
        b == holds_link(links@, *l),
{
    let mut j: usize = 0;
    while j < links.len()
        invariant
            j <= links@.len(),
            forall|k: int| 0 <= k < j ==> #[trigger] links@[k].ends() != l.ends(),
        decreases links@.len() - j,
    {
        if links[j].same_link(l) {
            return true;
        }
        j = j + 1;
    }
    false
}

/// The flows whose path crosses the link `l`.
fn users_of<T: Copy>(flows: &Vec<Flow<T>>, ps: &Vec<Path<T>>, l: &Link<T>) -> (r: Vec<Flow<T>>)
    requires
        ps@.len() == flows@.len(),
    ensures
        r@ == users(flows@, path_views(ps@), *l, flows@.len()),
{
    let mut r: Vec<Flow<T>> = Vec::new();
    let mut j: usize = 0;
    while j < flows.len()
        invariant
            j <= flows@.len(),
            ps@.len() == flows@.len(),
            r@ == users(flows@, path_views(ps@), *l, j as nat),
        decreases flows@.len() - j,
    {
        let links = ps[j].links_set();
        if holds_in(&links, l) {
            r.push(flows[j]);
        }
        j = j + 1;
    }
    r
}

/// For each link of the path of the updated flow, the active flows whose path crosses it;
/// in each group, the updated flow is taken out when it uses no bandwidth, and put in, in
/// place of its old copy, otherwise.
pub fn get_flows_by_shared_links<T: Copy + PartialEq>(
    flow_updated: &Flow<T>,
    all_flows: &Vec<Flow<T>>,
    graph: &Network<T>,
) -> (r: Vec<(Link<T>, Vec<Flow<T>>)>)
    requires
        graph.wf(),
        obeys_concrete_eq::<T>(),
        flow_mapped(*graph, *flow_updated),
        forall|j: int| 0 <= j < all_flows@.len() ==> flow_mapped(*graph, #[trigger] all_flows@[j]),
    ensures
        groups_of(*graph, *flow_updated, all_flows@, group_views(r@)),
{
    let up = route(graph, flow_updated).links_set();
    let ps = routes_of(graph, all_flows);
    let ghost want = link_groups(up@, all_flows@, path_views(ps@), *flow_updated);
    let mut r: Vec<(Link<T>, Vec<Flow<T>>)> = Vec::new();
    let mut i: usize = 0;
    while i < up.len()
        invariant
            i <= up@.len(),
            obeys_concrete_eq::<T>(),
            ps@.len() == all_flows@.len(),
            want == link_groups(up@, all_flows@, path_views(ps@), *flow_updated),
            group_views(r@) == want.subrange(0, i as int),
        decreases up@.len() - i,
    {
        let l = up[i];
        let group = users_of(all_flows, &ps, &l);
        let adjusted_group = if flow_updated.used_bandwidth == 0 {
            without_flow(&group, flow_updated)
        } else {
            let mut g = group;
            replace_flow(&mut g, *flow_updated);
            g
        };
        let ghost old_r = r@;
        r.push((l, adjusted_group));
        proof {
            assert(group_views(old_r).len() == old_r.len());
            assert(old_r.len() == i);
            assert(r@ == old_r.push((l, adjusted_group)));
            assert(adjusted_group@ == adjusted(group@, *flow_updated));
            assert(group_views(r@)[i as int] == want[i as int]);
            assert forall|k: int| 0 <= k < i implies group_views(r@)[k] == want[k] by {
                assert(r@[k] == old_r[k]);
                assert(group_views(old_r)[k] == want.subrange(0, i as int)[k]);
            }
            assert(group_views(r@) =~= want.subrange(0, i + 1));
        }
        i = i + 1;
    }
    proof {
        assert(group_views(r@) =~= want);
        assert(route_of(*graph, *flow_updated, up@));
        assert(routes(*graph, all_flows@, path_views(ps@)));
    }
    r
}

/// The path `b` has a link of the path `a`.
pub open spec fn shares<T: Copy>(a: Seq<Link<T>>, b: Seq<Link<T>>) -> bool {
    exists|k: int| 0 <= k < a.len() && holds_link(b, #[trigger] a[k])
}

/// Of the `n` first flows, those whose path shares a link with the path `up`, in order.
pub open spec fn impacted<T: Copy>(flows: Seq<Flow<T>>, paths: Seq<Seq<Link<T>>>, up: Seq<Link<T>>, n: nat) -> Seq<
    Flow<T>,
>
    decreases n,
{
    if n == 0 {
        seq![]
    } else {
        let rest = impacted(flows, paths, up, (n - 1) as nat);
        if shares(up, paths[n - 1]) {
            rest.push(flows[n - 1])
        } else {
            rest
        }
    }
}

/// `links` are, once each, the links of the path `up` that the path of another flow than
/// `upd` crosses.
pub open spec fn shared_links<T: Copy>(
    upd: Flow<T>,
    flows: Seq<Flow<T>>,
    paths: Seq<Seq<Link<T>>>,
    up: Seq<Link<T>>,
    links: Seq<Link<T>>,
) -> bool {
    &&& distinct_links(links)
    &&& forall|i: int|
        0 <= i < links.len() ==> holds_link(up, #[trigger] links[i]) && exists|j: int|
            0 <= j < flows.len() && !same_ends(flows[j], upd) && holds_link(#[trigger] paths[j], links[i])
    &&& forall|j: int, k: int|
        0 <= j < flows.len() && 0 <= k < up.len() && !same_ends(flows[j], upd) && #[trigger] holds_link(paths[j], up[k])
            ==> holds_link(links, up[k])
}

/// `r` holds the links that the path of `upd` shares with the paths of the other flows, and
/// the flows whose path shares a link with it, for some choice of the flows' paths in the
/// strategy's trees.
pub open spec fn impact_of<T: Copy + PartialEq>(
    net: Network<T>,
    upd: Flow<T>,
    flows: Seq<Flow<T>>,
    r: (Seq<Link<T>>, Seq<Flow<T>>),
) -> bool {
    exists|up: Seq<Link<T>>, ps: Seq<Seq<Link<T>>>|
        #[trigger] route_of(net, upd, up) && #[trigger] routes(net, flows, ps) && r.1 == impacted(
            flows,
            ps,
            up,
            flows.len(),
        ) && shared_links(upd, flows, ps, up, r.0)
}

/// A link held by `b` is held by `a` when each link of `b` is.
proof fn lemma_holds_through<T: Copy>(a: Seq<Link<T>>, b: Seq<Link<T>>, l: Link<T>)
    requires
        holds_link(b, l),
        forall|x: int| 0 <= x < b.len() ==> holds_link(a, #[trigger] b[x]),
    ensures
        holds_link(a, l),
{
    let x = choose|x: int| 0 <= x < b.len() && #[trigger] b[x].ends() == l.ends();
    assert(holds_link(a, b[x]));
    let y = choose|y: int| 0 <= y < a.len() && #[trigger] a[y].ends() == b[x].ends();
    assert(a[y].ends() == l.ends());
}

/// The shared links of two paths are not empty exactly when the second path crosses a link
/// of the first.
proof fn lemma_shares_iff<T: Copy>(up: Seq<Link<T>>, p: Seq<Link<T>>, shared: Seq<Link<T>>)
    requires
        forall|i: int| 0 <= i < shared.len() ==> holds_link(up, #[trigger] shared[i]) && holds_link(p, shared[i]),
        forall|i: int| 0 <= i < up.len() && holds_link(p, #[trigger] up[i]) ==> holds_link(shared, up[i]),
    ensures
        shares(up, p) <==> shared.len() > 0,
{
    if shares(up, p) {
        let k = choose|k: int| 0 <= k < up.len() && holds_link(p, #[trigger] up[k]);
        assert(holds_link(shared, up[k]));
    }
    if shared.len() > 0 {
        assert(holds_link(up, shared[0]));
        let k = choose|k: int| 0 <= k < up.len() && #[trigger] up[k].ends() == shared[0].ends();
        assert(holds_link(p, shared[0]));
        let q = choose|q: int| 0 <= q < p.len() && #[trigger] p[q].ends() == shared[0].ends();
        assert(p[q].ends() == up[k].ends());
        assert(holds_link(p, up[k]));
    }
}

/// `l` is one of the links of `s`.
pub open spec fn comes_from<T>(s: Seq<Link<T>>, l: Link<T>) -> bool {
    exists|x: int| 0 <= x < s.len() && #[trigger] s[x] == l
}

/// Adds to `links`, in order, the links of `shared` that it does not hold yet.
fn add_links<T: Copy>(links: &mut Vec<Link<T>>, shared: &Vec<Link<T>>)
    requires
        distinct_links(old(links)@),
    ensures
        distinct_links(final(links)@),
        final(links)@.len() >= old(links)@.len(),
        forall|y: int| 0 <= y < old(links)@.len() ==> #[trigger] final(links)@[y] == old(links)@[y],
        forall|i: int| old(links)@.len() <= i < final(links)@.len() ==> comes_from(shared@, #[trigger] final(links)@[i]),
        forall|x: int| 0 <= x < shared@.len() ==> holds_link(final(links)@, #[trigger] shared@[x]),
{
    let ghost l0 = links@;
    let mut m: usize = 0;
    while m < shared.len()
        invariant
            m <= shared@.len(),
            distinct_links(links@),
            links@.len() >= l0.len(),
            forall|y: int| 0 <= y < l0.len() ==> #[trigger] links@[y] == l0[y],
            forall|i: int| l0.len() <= i < links@.len() ==> comes_from(shared@, #[trigger] links@[i]),
            forall|x: int| 0 <= x < m ==> holds_link(links@, #[trigger] shared@[x]),
        decreases shared@.len() - m,
    {
        let l = shared[m];
        if !holds_in(links, &l) {
            let ghost before = links@;
            links.push(l);
            proof {
                assert(links@[links@.len() - 1] == shared@[m as int]);
                assert forall|i: int| l0.len() <= i < links@.len() implies comes_from(shared@, #[trigger] links@[i]) by {
                    if i < before.len() {
                        assert(links@[i] == before[i]);
                    } else {
                        assert(links@[i] == shared@[m as int]);
                        assert(comes_from(shared@, links@[i]));
                    }
                }
                assert forall|x: int| 0 <= x < m + 1 implies holds_link(links@, #[trigger] shared@[x]) by {
                    if x < m {
                        let y = choose|y: int| 0 <= y < before.len() && #[trigger] before[y].ends() == shared@[x].ends();
                        assert(links@[y] == before[y]);
                    } else {
                        assert(links@[links@.len() - 1].ends() == shared@[x].ends());
                    }
                }
            }
        }
        m = m + 1;
    }
}

/// The links that the path of the updated flow shares with the paths of the other flows,
/// and the flows (the updated one among them) whose path shares a link with it.
#[verifier::rlimit(50)]
pub fn get_shared_links_and_impacted_flows<T: Copy + PartialEq>(
    flow_updated: &Flow<T>,
    all_flows: &Vec<Flow<T>>,
    graph: &Network<T>,
) -> (r: (Vec<Link<T>>, Vec<Flow<T>>))
    requires
        graph.wf(),
        obeys_concrete_eq::<T>(),
        flow_mapped(*graph, *flow_updated),
        forall|j: int| 0 <= j < all_flows@.len() ==> flow_mapped(*graph, #[trigger] all_flows@[j]),
    ensures
        impact_of(*graph, *flow_updated, all_flows@, (r.0@, r.1@)),
{
    let up = route(graph, flow_updated);
    let ps = routes_of(graph, all_flows);
    let ghost pv = path_views(ps@);
    let ghost upv = up@;
    let mut links: Vec<Link<T>> = Vec::new();
    let mut flows: Vec<Flow<T>> = Vec::new();
    let mut j: usize = 0;
    while j < all_flows.len()
        invariant
            j <= all_flows@.len(),
            obeys_concrete_eq::<T>(),
            ps@.len() == all_flows@.len(),
            pv == path_views(ps@),
            upv == up@,
            flows@ == impacted(all_flows@, pv, upv, j as nat),
            distinct_links(links@),
            forall|i: int|
                0 <= i < links@.len() ==> holds_link(upv, #[trigger] links@[i]) && exists|q: int|
                    0 <= q < all_flows@.len() && !same_ends(all_flows@[q], *flow_updated) && holds_link(
                        #[trigger] pv[q],
                        links@[i],
                    ),
            forall|q: int, k: int|
                0 <= q < j && 0 <= k < upv.len() && !same_ends(all_flows@[q], *flow_updated) && #[trigger] holds_link(
                    pv[q],
                    upv[k],
                ) ==> holds_link(links@, upv[k]),
        decreases all_flows@.len() - j,
    {
        let shared = up.shared_edges(&ps[j]);
        proof {
            assert(pv[j as int] == ps@[j as int]@);
            lemma_shares_iff(upv, pv[j as int], shared@);
        }
        if shared.len() > 0 {
            flows.push(all_flows[j]);
            if !all_flows[j].same_flow(flow_updated) {
                let ghost before = links@;
                add_links(&mut links, &shared);
                proof {
                    assert forall|i: int| 0 <= i < links@.len() implies holds_link(upv, #[trigger] links@[i]) && exists|q: int|
                        0 <= q < all_flows@.len() && !same_ends(all_flows@[q], *flow_updated) && holds_link(
                            #[trigger] pv[q],
                            links@[i],
                        ) by {
                        if i < before.len() {
                            assert(links@[i] == before[i]);
                        } else {
                            assert(comes_from(shared@, links@[i]));
                            let x = choose|x: int| 0 <= x < shared@.len() && #[trigger] shared@[x] == links@[i];
                            assert(holds_link(pv[j as int], links@[i]));
                        }
                    }
                    assert forall|q: int, k: int|
                        0 <= q < j + 1 && 0 <= k < upv.len() && !same_ends(all_flows@[q], *flow_updated)
                            && #[trigger] holds_link(pv[q], upv[k]) implies holds_link(links@, upv[k]) by {
                        if q == j {
                            assert(holds_link(shared@, upv[k]));
                            lemma_holds_through(links@, shared@, upv[k]);
                        } else {
                            let y = choose|y: int| 0 <= y < before.len() && #[trigger] before[y].ends() == upv[k].ends();
                            assert(links@[y] == before[y]);
                        }
                    }
                }
            }
        }
        proof {
            assert(flows@ == impacted(all_flows@, pv, upv, (j + 1) as nat));
        }
        j = j + 1;
    }
    proof {
        assert(route_of(*graph, *flow_updated, upv));
        assert(routes(*graph, all_flows@, pv));
        assert(shared_links(*flow_updated, all_flows@, pv, upv, links@));
    }
    (links, flows)
}

/// The views of sets of flows.
pub open spec fn vec_views<T>(outs: Seq<Vec<Flow<T>>>) -> Seq<Seq<Flow<T>>> {
    outs.map_values(|v: Vec<Flow<T>>| v@)
}

/// `out` is the merge, in order, of what `distribute` may give for each group of the links
/// of the path of `upd` (see `groups_of`).
pub open spec fn divided<T: Copy + PartialEq, F: Fn(Link<T>, Vec<Flow<T>>) -> Vec<Flow<T>>>(
    net: Network<T>,
    upd: Flow<T>,
    active: Seq<Flow<T>>,
    distribute: F,
    out: Seq<Flow<T>>,
) -> bool {
    exists|groups: Seq<(Link<T>, Vec<Flow<T>>)>, outs: Seq<Vec<Flow<T>>>|
        #![trigger groups_of(net, upd, active, group_views(groups)), merged_all(vec_views(outs), outs.len())]
        groups_of(net, upd, active, group_views(groups)) && outs.len() == groups.len() && (forall|i: int|
            0 <= i < groups.len() ==> distribute.ensures((groups[i].0, groups[i].1), #[trigger] outs[i])) && out
            == merged_all(vec_views(outs), outs.len())
}

/// The flow `f` with the hunger of its copy among the active flows, when there is one.
pub open spec fn with_hunger<T>(active: Seq<Flow<T>>, f: Flow<T>) -> Flow<T> {
    match first_match(active, f, active.len()) {
        Some(e) => Flow { is_hungry: e.is_hungry, ..f },
        None => f,
    }
}

/// Merging depends only on the sets merged.
proof fn lemma_merged_all_prefix<T>(a: Seq<Seq<Flow<T>>>, b: Seq<Seq<Flow<T>>>, n: nat)
    requires
        n <= a.len(),
        n <= b.len(),
        forall|k: int| 0 <= k < n ==> a[k] == b[k],
    ensures
        merged_all(a, n) == merged_all(b, n),
    decreases n,
{
    if n > 0 {
        lemma_merged_all_prefix(a, b, (n - 1) as nat);
    }
}

/// A flow is found among the `n` first flows exactly when one of them is the same flow.
proof fn lemma_first_match_some<T>(s: Seq<Flow<T>>, f: Flow<T>, n: nat)
    requires
        n <= s.len(),
    ensures
        first_match(s, f, n) is Some <==> exists|i: int| 0 <= i < n && same_ends(#[trigger] s[i], f),
    decreases n,
{
    if n > 0 {
        lemma_first_match_some(s, f, (n - 1) as nat);
        if same_ends(s[n - 1], f) {
            assert(same_ends(s[n - 1], f));
        }
    }
}

/// Once a flow is taken out, no flow left is the same flow.
proof fn lemma_without_none<T>(s: Seq<Flow<T>>, f: Flow<T>, n: nat)
    requires
        n <= s.len(),
    ensures
        forall|i: int| 0 <= i < without(s, f, n).len() ==> !same_ends(#[trigger] without(s, f, n)[i], f),
    decreases n,
{
    if n > 0 {
        lemma_without_none(s, f, (n - 1) as nat);
        let rest = without(s, f, (n - 1) as nat);
        assert forall|i: int| 0 <= i < without(s, f, n).len() implies !same_ends(#[trigger] without(s, f, n)[i], f) by {
            if i < rest.len() {
                assert(without(s, f, n)[i] == rest[i]);
            }
        }
    }
}

/// Gives the updated flow the hunger of its active copy, then divides each link of its path
/// between the flows that cross it, with `distribute`, and merges the divisions, keeping for
/// each flow the strictest.
pub fn update_active_flows<T: Copy + PartialEq, F: Fn(Link<T>, Vec<Flow<T>>) -> Vec<Flow<T>>>(
    flow_updated: &mut Flow<T>,
    active_flows: &Vec<Flow<T>>,
    original_graph: &Network<T>,
    distribute: F,
) -> (r: Vec<Flow<T>>)
    requires
        original_graph.wf(),
        obeys_concrete_eq::<T>(),
        flow_mapped(*original_graph, *old(flow_updated)),
        forall|j: int| 0 <= j < active_flows@.len() ==> flow_mapped(*original_graph, #[trigger] active_flows@[j]),
        forall|l: Link<T>, v: Vec<Flow<T>>| #[trigger] distribute.requires((l, v)),
    ensures
        *final(flow_updated) == with_hunger(active_flows@, *old(flow_updated)),
        divided(*original_graph, *final(flow_updated), active_flows@, distribute, r@),
{
    match find_flow(active_flows, flow_updated) {
        Some(e) => {
            flow_updated.set_hungry(e.is_hungry());
        },
        None => {},
    }
    let mut groups = get_flows_by_shared_links(flow_updated, active_flows, original_graph);
    let ghost g0 = groups@;
    let mut r: Vec<Flow<T>> = Vec::new();
    let ghost mut outs: Seq<Vec<Flow<T>>> = seq![];
    let mut i: usize = 0;
    let n = groups.len();
    while i < n
        invariant
            n == g0.len(),
            i <= n,
            obeys_concrete_eq::<T>(),
            forall|l: Link<T>, v: Vec<Flow<T>>| #[trigger] distribute.requires((l, v)),
            groups@ == g0.subrange(i as int, n as int),
            outs.len() == i,
            forall|k: int| 0 <= k < i ==> distribute.ensures((g0[k].0, g0[k].1), #[trigger] outs[k]),
            r@ == merged_all(vec_views(outs), i as nat),
        decreases n - i,
    {
        let (l, g) = groups.remove(0);
        proof {
            assert(g0[i as int] == (l, g));
        }
        let out = distribute(l, g);
        let ghost old_outs = outs;
        proof {
            outs = outs.push(out);
            lemma_merged_all_prefix(vec_views(old_outs), vec_views(outs), i as nat);
            assert(vec_views(outs)[i as int] == out@);
        }
        r = merge(&r, &out);
        proof {
            assert forall|k: int| 0 <= k < i + 1 implies distribute.ensures((g0[k].0, g0[k].1), #[trigger] outs[k]) by {
                if k < i {
                    assert(outs[k] == old_outs[k]);
                }
            }
            assert(groups@ =~= g0.subrange(i + 1, n as int));
        }
        i = i + 1;
    }
    proof {
        assert(divided(*original_graph, *flow_updated, active_flows@, distribute, r@));
    }
    r
}

/// Removes a flow from the active flows and shares again the links of its path between the
/// flows left; gives the new active flows and the bandwidth they leave on the network.
pub fn remove_flow<T: Copy + PartialEq, F: Fn(Link<T>, Vec<Flow<T>>) -> Vec<Flow<T>>>(
    active_flows: Vec<Flow<T>>,
    flow: &mut Flow<T>,
    graph: &Network<T>,
    distribute: F,
) -> (r: (Vec<Flow<T>>, Network<T>))
    requires
        graph.wf(),
        obeys_concrete_eq::<T>(),
        flow_mapped(*graph, *old(flow)),
        forall|j: int| 0 <= j < active_flows@.len() ==> flow_mapped(*graph, #[trigger] active_flows@[j]),
        forall|l: Link<T>, v: Vec<Flow<T>>| #[trigger] distribute.requires((l, v)),
    ensures
        *final(flow) == *old(flow),
        exists|out: Seq<Flow<T>>|
            #[trigger] divided(*graph, *old(flow), without(active_flows@, *old(flow), active_flows@.len()), distribute, out)
                && r.0@ == replaced_all(without(active_flows@, *old(flow), active_flows@.len()), out, out.len()),
        bandwidth_graph(*graph, r.0@, r.1),
        flows_distinct(active_flows@) ==> flows_distinct(r.0@),
{
    let mut active = without_flow(&active_flows, flow);
    proof {
        lemma_without_none(active_flows@, *flow, active_flows@.len());
        lemma_first_match_some(active@, *flow, active@.len());
        assert forall|j: int| 0 <= j < active@.len() implies flow_mapped(*graph, #[trigger] active@[j]) by {
            lemma_without_member(active_flows@, *flow, active_flows@.len(), j);
        }
    }
    let ghost kept = active@;
    let new_flows = update_active_flows(flow, &active, graph, distribute);
    replace_flows(&mut active, &new_flows);
    proof {
        if flows_distinct(active_flows@) {
            lemma_without_distinct(active_flows@, *old(flow), active_flows@.len());
            lemma_replaced_all_distinct(kept, new_flows@, new_flows@.len());
        }
    }
    let bw = calculate_bandwidth_graph(graph, &active);
    (active, bw)
}

/// Each flow kept by `without` is one of the flows it started from.
proof fn lemma_without_member<T>(s: Seq<Flow<T>>, f: Flow<T>, n: nat, i: int)
    requires
        n <= s.len(),
        0 <= i < without(s, f, n).len(),
    ensures
        exists|k: int| 0 <= k < n && #[trigger] s[k] == without(s, f, n)[i],
    decreases n,
{
    let rest = without(s, f, (n - 1) as nat);
    if i < rest.len() {
        lemma_without_member(s, f, (n - 1) as nat, i);
        let k = choose|k: int| 0 <= k < n - 1 && #[trigger] s[k] == rest[i];
        assert(s[k] == without(s, f, n)[i]);
    } else {
        assert(s[n - 1] == without(s, f, n)[i]);
    }
}

/// Adds or updates a flow: when the bandwidth graph joins its ends, shares again the links of
/// its path between the flows, puts the results in the active flows and recomputes the
/// bandwidth they leave; otherwise changes nothing.
pub fn update_flows<T: Copy + PartialEq, F: Fn(Link<T>, Vec<Flow<T>>) -> Vec<Flow<T>>>(
    active_flows: Vec<Flow<T>>,
    flow: &mut Flow<T>,
    graph: &Network<T>,
    bw_graph: Network<T>,
    distribute: F,
) -> (r: (Vec<Flow<T>>, Network<T>))
    requires
        graph.wf(),
        bw_graph.wf(),
        obeys_concrete_eq::<T>(),
        flow_mapped(bw_graph, *old(flow)) ==> flow_mapped(*graph, *old(flow)),
        forall|j: int| 0 <= j < active_flows@.len() ==> flow_mapped(*graph, #[trigger] active_flows@[j]),
        forall|l: Link<T>, v: Vec<Flow<T>>| #[trigger] distribute.requires((l, v)),
    ensures
        ({
            let joined = flow_mapped(bw_graph, *old(flow)) && connected(
                bw_graph.strategy(),
                bw_graph.graph(),
                index_of(bw_graph.mapping(), old(flow).source)->Some_0 as int,
                index_of(bw_graph.mapping(), old(flow).destination)->Some_0 as int,
            );
            &&& joined ==> {
                &&& *final(flow) == with_hunger(active_flows@, *old(flow))
                &&& exists|out: Seq<Flow<T>>|
                    #[trigger] divided(*graph, *final(flow), active_flows@, distribute, out) && r.0@ == replaced_all(
                        active_flows@,
                        out,
                        out.len(),
                    )
                &&& bandwidth_graph(*graph, r.0@, r.1)
            }
            &&& !joined ==> *final(flow) == *old(flow) && r.0@ == active_flows@ && r.1 == bw_graph
        }),
        flows_distinct(active_flows@) ==> flows_distinct(r.0@),
{
    match bw_graph.bandwidth_between(&flow.source, &flow.destination) {
        Some(_) => {
            let mut active = active_flows;
            let new_flows = update_active_flows(flow, &active, graph, distribute);
            replace_flows(&mut active, &new_flows);
            proof {
                if flows_distinct(active_flows@) {
                    lemma_replaced_all_distinct(active_flows@, new_flows@, new_flows@.len());
                }
            }
            let bw = calculate_bandwidth_graph(graph, &active);
            (active, bw)
        },
        None => (active_flows, bw_graph),
    }
}

/// No two flows of `s` join the same source to the same destination.
pub open spec fn flows_distinct<T>(s: Seq<Flow<T>>) -> bool {
    forall|i: int, j: int| 0 <= i < j < s.len() ==> !same_ends(#[trigger] s[i], #[trigger] s[j])
}

/// Removing the copies of a flow keeps the flows distinct.
pub proof fn lemma_without_distinct<T>(s: Seq<Flow<T>>, f: Flow<T>, n: nat)
    requires
        n <= s.len(),
        flows_distinct(s),
    ensures
        flows_distinct(without(s, f, n)),
    decreases n,
{
    if n > 0 {
        let rest = without(s, f, (n - 1) as nat);
        lemma_without_distinct(s, f, (n - 1) as nat);
        if !same_ends(s[n - 1], f) {
            let r = without(s, f, n);
            assert(r == rest.push(s[n - 1]));
            assert forall|i: int, j: int| 0 <= i < j < r.len() implies !same_ends(#[trigger] r[i], #[trigger] r[j]) by {
                if j == rest.len() {
                    lemma_without_member(s, f, (n - 1) as nat, i);
                    let k = choose|k: int| 0 <= k < n - 1 && #[trigger] s[k] == rest[i];
                    assert(!same_ends(s[k], s[n - 1]));
                } else {
                    assert(r[i] == rest[i] && r[j] == rest[j]);
                }
            }
        }
    }
}

/// Putting a flow in by `replaced` keeps the flows distinct.
pub proof fn lemma_replaced_distinct<T>(s: Seq<Flow<T>>, f: Flow<T>)
    requires
        flows_distinct(s),
    ensures
        flows_distinct(replaced(s, f)),
{
    let r = replaced(s, f);
    if has_flow(s, f) {
        assert forall|i: int, j: int| 0 <= i < j < r.len() implies !same_ends(#[trigger] r[i], #[trigger] r[j]) by {
            assert(!same_ends(s[i], s[j]));
        }
    } else {
        assert forall|i: int, j: int| 0 <= i < j < r.len() implies !same_ends(#[trigger] r[i], #[trigger] r[j]) by {
            if j == s.len() {
                assert(r[i] == s[i]);
                assert(!same_ends(s[i], f));
            } else {
                assert(!same_ends(s[i], s[j]));
            }
        }
    }
}

/// Putting flows in one after the other by `replaced` keeps the flows distinct.
pub proof fn lemma_replaced_all_distinct<T>(s: Seq<Flow<T>>, fs: Seq<Flow<T>>, n: nat)
    requires
        n <= fs.len(),
        flows_distinct(s),
    ensures
        flows_distinct(replaced_all(s, fs, n)),
    decreases n,
{
    if n > 0 {
        lemma_replaced_all_distinct(s, fs, (n - 1) as nat);
        lemma_replaced_distinct(replaced_all(s, fs, (n - 1) as nat), fs[n - 1]);
    }
}

/// Every flow of `s` has both ends in the network.
pub open spec fn all_mapped<T: Copy + PartialEq>(net: Network<T>, s: Seq<Flow<T>>) -> bool {
    forall|j: int| 0 <= j < s.len() ==> flow_mapped(net, #[trigger] s[j])
}

/// Whether `s` holds the same flow as `f`.
pub fn contains_flow<T: Copy + PartialEq>(s: &Vec<Flow<T>>, f: &Flow<T>) -> (b: bool)
    requires
        obeys_concrete_eq::<T>(),
    ensures
        b == (first_match(s@, *f, s@.len()) is Some),
{
    find_flow(s, f).is_some()
}

/// The flow found is one of the flows searched.
proof fn lemma_first_match_in<T>(s: Seq<Flow<T>>, f: Flow<T>, n: nat)
    requires
        n <= s.len(),
    ensures
        first_match(s, f, n) matches Some(x) ==> exists|j: int| 0 <= j < n && s[j] == x,
    decreases n,
{
    if n > 0 {
        lemma_first_match_in(s, f, (n - 1) as nat);
        if first_match(s, f, (n - 1) as nat) is None && same_ends(s[n - 1], f) {
            assert(s[n - 1] == first_match(s, f, n)->Some_0);
        }
    }
}

proof fn lemma_only_new_mapped<T: Copy + PartialEq>(net: Network<T>, b: Seq<Flow<T>>, a: Seq<Flow<T>>, n: nat)
    requires
        n <= b.len(),
        all_mapped(net, b),
    ensures
        all_mapped(net, only_new(b, a, n)),
    decreases n,
{
    if n > 0 {
        lemma_only_new_mapped(net, b, a, (n - 1) as nat);
        let rest = only_new(b, a, (n - 1) as nat);
        assert forall|j: int| 0 <= j < only_new(b, a, n).len() implies flow_mapped(net, #[trigger] only_new(b, a, n)[j]) by {
            if j < rest.len() {
                assert(only_new(b, a, n)[j] == rest[j]);
            } else {
                assert(flow_mapped(net, b[n - 1]));
            }
        }
    }
}

proof fn lemma_merged_mapped<T: Copy + PartialEq>(net: Network<T>, a: Seq<Flow<T>>, b: Seq<Flow<T>>)
    requires
        all_mapped(net, a),
        all_mapped(net, b),
    ensures
        all_mapped(net, merged(a, b)),
{
    lemma_only_new_mapped(net, b, a, b.len());
    let m = merged(a, b);
    assert forall|j: int| 0 <= j < m.len() implies flow_mapped(net, #[trigger] m[j]) by {
        if j < a.len() {
            lemma_first_match_in(b, a[j], b.len());
            assert(flow_mapped(net, a[j]));
            if first_match(b, a[j], b.len()) is Some {
                let k = choose|k: int| 0 <= k < b.len() && b[k] == first_match(b, a[j], b.len())->Some_0;
                assert(flow_mapped(net, b[k]));
            }
        } else {
            assert(m[j] == only_new(b, a, b.len())[j - a.len()]);
        }
    }
}

proof fn lemma_merged_all_mapped<T: Copy + PartialEq>(net: Network<T>, outs: Seq<Seq<Flow<T>>>, n: nat)
    requires
        n <= outs.len(),
        forall|i: int| 0 <= i < n ==> all_mapped(net, #[trigger] outs[i]),
    ensures
        all_mapped(net, merged_all(outs, n)),
    decreases n,
{
    if n > 0 {
        lemma_merged_all_mapped(net, outs, (n - 1) as nat);
        assert(all_mapped(net, outs[n - 1]));
        lemma_merged_mapped(net, merged_all(outs, (n - 1) as nat), outs[n - 1]);
    }
}

proof fn lemma_without_mapped<T: Copy + PartialEq>(net: Network<T>, s: Seq<Flow<T>>, f: Flow<T>, n: nat)
    requires
        n <= s.len(),
        all_mapped(net, s),
    ensures
        all_mapped(net, without(s, f, n)),
{
    assert forall|i: int| 0 <= i < without(s, f, n).len() implies flow_mapped(net, #[trigger] without(s, f, n)[i]) by {
        lemma_without_member(s, f, n, i);
        let k = choose|k: int| 0 <= k < n && #[trigger] s[k] == without(s, f, n)[i];
        assert(flow_mapped(net, s[k]));
    }
}

proof fn lemma_replaced_all_mapped<T: Copy + PartialEq>(net: Network<T>, s: Seq<Flow<T>>, fs: Seq<Flow<T>>, n: nat)
    requires
        n <= fs.len(),
        all_mapped(net, s),
        all_mapped(net, fs),
    ensures
        all_mapped(net, replaced_all(s, fs, n)),
    decreases n,
{
    if n > 0 {
        lemma_replaced_all_mapped(net, s, fs, (n - 1) as nat);
        let r = replaced_all(s, fs, (n - 1) as nat);
        assert(flow_mapped(net, fs[n - 1]));
        let r2 = replaced(r, fs[n - 1]);
        assert forall|j: int| 0 <= j < r2.len() implies flow_mapped(net, #[trigger] r2[j]) by {
            if j < r.len() {
                assert(flow_mapped(net, r[j]));
            }
        }
    }
}

/// When the divisions keep the flows' ends in the network, so does a removal: the active
/// flows left by `remove_flow` all have their ends in the network.
pub proof fn lemma_removal_mapped<T: Copy + PartialEq, F: Fn(Link<T>, Vec<Flow<T>>) -> Vec<Flow<T>>>(
    net: Network<T>,
    f: Flow<T>,
    active: Seq<Flow<T>>,
    distribute: F,
    out: Seq<Flow<T>>,
)
    requires
        all_mapped(net, active),
        divided(net, f, without(active, f, active.len()), distribute, out),
        forall|l: Link<T>, v: Vec<Flow<T>>, o: Vec<Flow<T>>|
            #[trigger] distribute.ensures((l, v), o) ==> all_mapped(net, o@),
    ensures
        all_mapped(net, replaced_all(without(active, f, active.len()), out, out.len())),
{
    let act = without(active, f, active.len());
    let (groups, outs) = choose|groups: Seq<(Link<T>, Vec<Flow<T>>)>, outs: Seq<Vec<Flow<T>>>|
        #![trigger groups_of(net, f, act, group_views(groups)), merged_all(vec_views(outs), outs.len())]
        groups_of(net, f, act, group_views(groups)) && outs.len() == groups.len() && (forall|i: int|
            0 <= i < groups.len() ==> distribute.ensures((groups[i].0, groups[i].1), #[trigger] outs[i])) && out
            == merged_all(vec_views(outs), outs.len());
    assert forall|i: int| 0 <= i < outs.len() implies all_mapped(net, #[trigger] vec_views(outs)[i]) by {
        assert(distribute.ensures((groups[i].0, groups[i].1), outs[i]));
    }
    lemma_merged_all_mapped(net, vec_views(outs), outs.len());
    lemma_without_mapped(net, active, f, active.len());
    lemma_replaced_all_mapped(net, act, out, out.len());
}

} // verus!

//! Random networks: a backbone of internal vertices joined as a tree, with the terminal
//! vertices hanging from it, on links of random bandwidth.
use vstd::prelude::*;
use rand::Rng;
use crate::matrix::{triangle_len, is_square, sym_update};
use crate::netgraph::{Network, PathStrategy, Link, mapper_build, mapper_insert, index_of};
use crate::paths::{adjacent, reach, reachable};

verus! {

#[verifier::external_type_specification]
#[verifier::external_body]
pub struct ExThreadRng(rand::rngs::ThreadRng);

/// `rand::thread_rng`: the random number generator of the calling thread. Nothing is claimed
/// of the generator.
#[verifier::external_body]
fn new_rng() -> rand::rngs::ThreadRng {
    rand::thread_rng()
}

/// `Rng::gen_range` on the range `0..high`: a number drawn by `rng` below `high`. The range
/// must not be empty (`gen_range` panics on an empty range); which number comes is left open.
#[verifier::external_body]
fn random_below(rng: &mut rand::rngs::ThreadRng, high: usize) -> (r: usize)
    requires
        high > 0,
    ensures
        r < high,
{
    rng.gen_range(0..high)
}

/// Adds `item` to `v` unless `v` holds it already; tells whether it was added.
fn insert_set(v: &mut Vec<usize>, item: usize) -> (added: bool)
    ensures
        added == !old(v)@.contains(item),
        added ==> final(v)@ == old(v)@.push(item),
        !added ==> final(v)@ == old(v)@,
{
    let mut j: usize = 0;
    while j < v.len()
        invariant
            j <= v@.len(),
            forall|k: int| 0 <= k < j ==> v@[k] != item,
        decreases v@.len() - j,
    {
        if v[j] == item {
            return false;
        }
        j = j + 1;
    }
    v.push(item);
    true
}

/// An element of `v` taken at random, if `v` has any.
fn get_random(v: &Vec<usize>, rng: &mut rand::rngs::ThreadRng) -> (r: Option<usize>)
    ensures
        v@.len() == 0 ==> r is None,
        v@.len() > 0 ==> (r matches Some(x) && v@.contains(x)),
{
    if v.len() == 0 {
        None
    } else {
        let index = random_below(rng, v.len());
        Some(v[index])
    }
}

/// Removes an element of `v` taken at random, the last element taking its place; gives the
/// element removed, if `v` had any.
fn remove_random(v: &mut Vec<usize>, rng: &mut rand::rngs::ThreadRng) -> (r: Option<usize>)
    ensures
        old(v)@.len() == 0 ==> r is None && final(v)@ == old(v)@,
        old(v)@.len() > 0 ==> (r matches Some(x) && exists|i: int|
            0 <= i < old(v)@.len() && #[trigger] old(v)@[i] == x && final(v)@ == old(v)@.update(i, old(v)@.last()).drop_last()),
{
    if v.len() == 0 {
        None
    } else {
        let index = random_below(rng, v.len());
        let x = v.swap_remove(index);
        Some(x)
    }
}

/// The mapping built from distinct vertices gives each its position.
proof fn lemma_mapper_build_distinct(vs: Seq<usize>, k: nat)
    requires
        k <= vs.len(),
        forall|i: int, j: int| 0 <= i < j < vs.len() ==> vs[i] != vs[j],
    ensures
        mapper_build(vs, k) == Seq::new(k, |j: int| (vs[j], j as usize)),
    decreases k,
{
    if k > 0 {
        lemma_mapper_build_distinct(vs, (k - 1) as nat);
        let m = mapper_build(vs, (k - 1) as nat);
        assert(!(exists|j: int| 0 <= j < m.len() && #[trigger] m[j].0 == vs[k - 1]));
        assert(mapper_insert(m, vs[k - 1], (k - 1) as usize) =~= Seq::new(k, |j: int| (vs[j], j as usize)));
    }
}

/// The facts about the links of a random network under construction: every link is
/// narrower than `diff`, and the first `nb_term` vertices are joined to none but internal
/// vertices.
pub open spec fn links_bounded(g: Seq<Seq<Option<Link<usize>>>>, diff: usize) -> bool {
    forall|r: int, c: int|
        0 <= r < g.len() && 0 <= c < g.len() ==> (#[trigger] g[r][c] matches Some(l) ==> l.bandwidth < diff)
}

/// The vertex `i` is joined to one of the vertices `lo .. hi` by a link of bandwidth `speed`
/// (as 32 bits).
pub open spec fn hangs(g: Seq<Seq<Option<Link<usize>>>>, i: int, lo: int, hi: int, speed: usize) -> bool {
    exists|v: int| lo <= v < hi && (#[trigger] g[i][v] matches Some(l) && l.bandwidth == speed as u32)
}

/// Adding a link narrower than `diff` between `f` and `t` keeps every link narrower than
/// `diff` and changes no other cell.
proof fn lemma_edge_added(g0: Seq<Seq<Option<Link<usize>>>>, g1: Seq<Seq<Option<Link<usize>>>>, f: int, t: int, diff: usize)
    requires
        is_square(g0, g0.len()),
        0 <= f < g0.len(),
        0 <= t < g0.len(),
        links_bounded(g0, diff),
        exists|l: Link<usize>| l.bandwidth < diff && g1 == #[trigger] sym_update(g0, f, t, Some(l)),
    ensures
        is_square(g1, g0.len()),
        g1.len() == g0.len(),
        links_bounded(g1, diff),
        forall|r: int, c: int|
            0 <= r < g0.len() && 0 <= c < g0.len() && !((r == f && c == t) || (r == t && c == f)) ==> #[trigger] g1[r][c]
                == g0[r][c],
        g1[f][t] is Some,
        g1[t][f] == g1[f][t],
{
}

/// Every one of the vertices `0 .. n` can be reached from `root`: the network is connected.
pub open spec fn reaches_all(g: Seq<Seq<Option<Link<usize>>>>, root: int, n: nat) -> bool {
    forall|x: int| 0 <= x < n ==> #[trigger] reachable(g, root, x)
}

/// Reaching a vertex stays possible when links are added.
proof fn lemma_reach_grow(g0: Seq<Seq<Option<Link<usize>>>>, g1: Seq<Seq<Option<Link<usize>>>>, s: int, v: int, k: nat)
    requires
        forall|u: int, w: int| #[trigger] adjacent(g0, u, w) ==> adjacent(g1, u, w),
        reach(g0, s, v, k),
    ensures
        reach(g1, s, v, k),
    decreases k,
{
    if v != s {
        let u = choose|u: int| #[trigger] adjacent(g0, u, v) && reach(g0, s, u, (k - 1) as nat);
        lemma_reach_grow(g0, g1, s, u, (k - 1) as nat);
        assert(adjacent(g1, u, v));
    }
}

/// Adding a link keeps every link, and makes the new end reachable from what reaches the
/// other end; what was reachable stays so.
proof fn lemma_link_reach(g0: Seq<Seq<Option<Link<usize>>>>, g1: Seq<Seq<Option<Link<usize>>>>, f: int, t: int, root: int)
    requires
        is_square(g0, g0.len()),
        0 <= f < g0.len(),
        0 <= t < g0.len(),
        f != t,
        g1.len() == g0.len(),
        forall|r: int, c: int|
            0 <= r < g0.len() && 0 <= c < g0.len() && !((r == f && c == t) || (r == t && c == f)) ==> #[trigger] g1[r][c]
                == g0[r][c],
        g1[f][t] is Some,
        g1[t][f] == g1[f][t],
        reachable(g0, root, f),
    ensures
        forall|x: int| #[trigger] reachable(g0, root, x) ==> reachable(g1, root, x),
        reachable(g1, root, t),
{
    assert forall|u: int, w: int| #[trigger] adjacent(g0, u, w) implies adjacent(g1, u, w) by {
        if !((u == f && w == t) || (u == t && w == f)) {
            assert(g1[u][w] == g0[u][w]);
        }
    }
    assert forall|x: int| #[trigger] reachable(g0, root, x) implies reachable(g1, root, x) by {
        let k = choose|k: nat| #[trigger] reach(g0, root, x, k);
        lemma_reach_grow(g0, g1, root, x, k);
    }
    let k = choose|k: nat| #[trigger] reach(g1, root, f, k);
    assert(adjacent(g1, f, t));
    assert(reach(g1, root, t, k + 1));
}

/// Removing an entry of a sequence without repetition, the last one taking its place,
/// leaves the others, once each.
proof fn lemma_swap_remove(s: Seq<usize>, i: int)
    requires
        s.no_duplicates(),
        0 <= i < s.len(),
    ensures
        s.update(i, s.last()).drop_last().no_duplicates(),
        forall|y: usize| #[trigger] s.update(i, s.last()).drop_last().contains(y) <==> (s.contains(y) && y != s[i]),
{
    let r = s.update(i, s.last()).drop_last();
    let l = s.len() - 1;
    assert forall|a: int, b: int| 0 <= a < r.len() && 0 <= b < r.len() && a != b implies r[a] != r[b] by {
        let a2 = if a == i { l } else { a };
        let b2 = if b == i { l } else { b };
        assert(r[a] == s[a2]);
        assert(r[b] == s[b2]);
    }
    assert forall|y: usize| #[trigger] r.contains(y) <==> (s.contains(y) && y != s[i]) by {
        if r.contains(y) {
            let a = choose|a: int| 0 <= a < r.len() && r[a] == y;
            let a2 = if a == i { l } else { a };
            assert(s[a2] == y);
            assert(a2 != i);
        }
        if s.contains(y) && y != s[i] {
            let a = choose|a: int| 0 <= a < s.len() && s[a] == y;
            if a == l {
                assert(r[i] == y);
            } else {
                assert(r[a] == y);
            }
        }
    }
}

impl Network<usize> {
    /// A random network on the vertices `0 .. nb_term + nb_inter`: the internal vertices
    /// (the last `nb_inter`) are joined into a tree, then each terminal vertex is joined to
    /// one internal vertex; each link gets a random bandwidth below `diff_speeds`, and the
    /// bandwidths of the terminal vertices' links are returned too.
    pub fn generate_random_network(nb_inter: usize, nb_term: usize, diff_speeds: usize, path_strategy: PathStrategy) -> (r: (
        Network<usize>,
        Vec<usize>,
    ))
        requires
            nb_inter >= 1,
            diff_speeds > 0 || (nb_inter == 1 && nb_term == 0),
            nb_term + nb_inter < u32::MAX,
            triangle_len((nb_term + nb_inter) as nat) <= usize::MAX,
        ensures
            r.0.wf(),
            r.0.strategy() == path_strategy,
            r.0.graph().len() == nb_term + nb_inter,
            forall|v: usize| v < nb_term + nb_inter ==> #[trigger] index_of(r.0.mapping(), v) == Some(v),
            links_bounded(r.0.graph(), diff_speeds),
            forall|a: int, b: int|
                0 <= a < nb_term && 0 <= b < nb_term ==> #[trigger] r.0.graph()[a][b] is None,
            r.1@.len() == nb_term,
            forall|i: int| 0 <= i < nb_term ==> #[trigger] r.1@[i] < diff_speeds,
            forall|i: int| 0 <= i < nb_term ==> hangs(r.0.graph(), i, nb_term as int, (nb_term + nb_inter) as int, #[trigger] r.1@[i]),
            exists|root: int| nb_term <= root < nb_term + nb_inter && #[trigger] reaches_all(r.0.graph(), root, (nb_term + nb_inter) as nat),
    {
        let mut rng = new_rng();
        let n = nb_term + nb_inter;
        let mut vertices: Vec<usize> = Vec::new();
        let mut k: usize = 0;
        while k < n
            invariant
                k <= n,
                vertices@ == Seq::new(k as nat, |j: int| j as usize),
            decreases n - k,
        {
            vertices.push(k);
            proof {
                assert(vertices@ =~= Seq::new((k + 1) as nat, |j: int| j as usize));
            }
            k = k + 1;
        }
        let mut net = Network::new(&vertices, path_strategy);
        proof {
            lemma_mapper_build_distinct(vertices@, n as nat);
            net.lemma_graph_symmetric();
            assert forall|v: usize| v < n implies #[trigger] index_of(net.mapping(), v) == Some(v) by {
                let m = net.mapping();
                assert(m[v as int].0 == v);
                let j = choose|j: int| 0 <= j < m.len() && #[trigger] m[j].0 == v;
                assert(j == v);
            }
        }
        let mut speeds: Vec<usize> = Vec::new();
        let mut k: usize = 0;
        while k < nb_term
            invariant
                k <= nb_term,
                speeds@.len() == k,
                forall|i: int| 0 <= i < k ==> #[trigger] speeds@[i] == 0,
            decreases nb_term - k,
        {
            speeds.push(0);
            k = k + 1;
        }
        let mut visited: Vec<usize> = Vec::new();
        let mut available: Vec<usize> = Vec::new();
        let mut k: usize = 0;
        while k < nb_inter
            invariant
                k <= nb_inter,
                n == nb_term + nb_inter,
                available@ == Seq::new(k as nat, |j: int| (j + nb_term) as usize),
            decreases nb_inter - k,
        {
            available.push(k + nb_term);
            proof {
                assert(available@ =~= Seq::new((k + 1) as nat, |j: int| (j + nb_term) as usize));
            }
            k = k + 1;
        }
        proof {
            assert(available@.no_duplicates());
        }
        let ghost avail0 = available@;
        let first_node = match remove_random(&mut available, &mut rng) {
            Some(x) => x,
            None => 0,
        };
        proof {
            let i = choose|i: int| 0 <= i < avail0.len() && #[trigger] avail0[i] == first_node && available@ == avail0.update(
                i,
                avail0.last(),
            ).drop_last();
            lemma_swap_remove(avail0, i);
            assert forall|x: int| nb_term <= x < n implies x == first_node || #[trigger] available@.contains(x as usize) by {
                assert(avail0[x - nb_term] == x as usize);
            }
        }
        let ghost root = first_node as int;
        insert_set(&mut visited, first_node);
        proof {
            assert(reach(net.graph(), root, root, 0));
            assert(visited@[0] == first_node);
        }
        loop
            invariant
                n == nb_term + nb_inter,
                net.wf(),
                net.strategy() == path_strategy,
                net.graph().len() == n,
                is_square(net.graph(), n as nat),
                forall|v: usize| v < n ==> #[trigger] index_of(net.mapping(), v) == Some(v),
                links_bounded(net.graph(), diff_speeds),
                forall|a: int, c: int| 0 <= a < nb_term && 0 <= c < n ==> #[trigger] net.graph()[a][c] is None,
                visited@.len() > 0,
                forall|i: int| 0 <= i < visited@.len() ==> nb_term <= #[trigger] visited@[i] < n,
                forall|i: int| 0 <= i < available@.len() ==> nb_term <= #[trigger] available@[i] < n,
                diff_speeds > 0 || available@.len() == 0,
                nb_term <= root < n,
                available@.no_duplicates(),
                forall|i: int, j: int| 0 <= i < visited@.len() && 0 <= j < available@.len() ==> #[trigger] visited@[i] != #[trigger] available@[j],
                forall|x: int| nb_term <= x < n ==> visited@.contains(x as usize) || #[trigger] available@.contains(x as usize),
                forall|i: int| 0 <= i < visited@.len() ==> #[trigger] reachable(net.graph(), root, visited@[i] as int),
            ensures
                available@.len() == 0,
            decreases available@.len(),
        {
            let ghost av0 = available@;
            let ghost vis0 = visited@;
            let a = match remove_random(&mut available, &mut rng) {
                Some(a) => a,
                None => {
                    break;
                },
            };
            proof {
                let i = choose|i: int| 0 <= i < av0.len() && #[trigger] av0[i] == a && available@ == av0.update(i, av0.last()).drop_last();
                lemma_swap_remove(av0, i);
                assert forall|q: int| 0 <= q < vis0.len() implies vis0[q] != a by {
                    assert(vis0[q] != av0[i]);
                }
            }
            let v = match get_random(&visited, &mut rng) {
                Some(v) => v,
                None => 0,
            };
            insert_set(&mut visited, a);
            let edge_speed = random_below(&mut rng, diff_speeds);
            let bandwidth = edge_speed as u32;
            proof {
                assert(bandwidth <= edge_speed) by (bit_vector)
                    requires
                        bandwidth == edge_speed as u32,
                ;
                assert(nb_term <= v < n) by {
                    let i = choose|i: int| 0 <= i < visited@.len() && visited@[i] == v;
                }
            }
            let ghost g0 = net.graph();
            proof {
                assert(index_of(net.mapping(), v) == Some(v));
                assert(index_of(net.mapping(), a) == Some(a));
            }
            net.add_edge(&v, &a, bandwidth);
            proof {
                lemma_edge_added(g0, net.graph(), v as int, a as int, diff_speeds);
                net.lemma_graph_symmetric();
                let qv = choose|q: int| 0 <= q < vis0.len() && vis0[q] == v;
                assert(reachable(g0, root, vis0[qv] as int));
                lemma_link_reach(g0, net.graph(), v as int, a as int, root);
                assert(visited@ == vis0.push(a));
                assert forall|q: int| 0 <= q < visited@.len() implies #[trigger] reachable(net.graph(), root, visited@[q] as int) by {
                    if q < vis0.len() {
                        assert(reachable(g0, root, vis0[q] as int));
                    }
                }
                assert forall|q: int, j: int| 0 <= q < visited@.len() && 0 <= j < available@.len() implies #[trigger] visited@[q] != #[trigger] available@[j] by {
                    assert(available@.contains(available@[j]));
                    if q < vis0.len() {
                        assert(av0.contains(available@[j]));
                        let j0 = choose|j0: int| 0 <= j0 < av0.len() && av0[j0] == available@[j];
                        assert(vis0[q] != av0[j0]);
                    }
                }
                assert forall|x: int| nb_term <= x < n implies visited@.contains(x as usize) || #[trigger] available@.contains(x as usize) by {
                    if vis0.contains(x as usize) {
                        let q = choose|q: int| 0 <= q < vis0.len() && vis0[q] == x as usize;
                        assert(visited@[q] == x as usize);
                    } else if x as usize == a {
                        assert(visited@[vis0.len() as int] == a);
                    }
                }
            }
        }
        proof {
            assert forall|x: int| nb_term <= x < n implies #[trigger] reachable(net.graph(), root, x) by {
                assert(!available@.contains(x as usize));
                assert(visited@.contains(x as usize));
                let q = choose|q: int| 0 <= q < visited@.len() && visited@[q] == x as usize;
                assert(reachable(net.graph(), root, visited@[q] as int));
            }
        }
        let mut remaining_terminal = nb_term;
        while remaining_terminal > 0
            invariant
                n == nb_term + nb_inter,
                remaining_terminal <= nb_term,
                net.wf(),
                net.strategy() == path_strategy,
                net.graph().len() == n,
                is_square(net.graph(), n as nat),
                forall|v: usize| v < n ==> #[trigger] index_of(net.mapping(), v) == Some(v),
                links_bounded(net.graph(), diff_speeds),
                forall|a: int, c: int| 0 <= a < nb_term && 0 <= c < nb_term ==> #[trigger] net.graph()[a][c] is None,
                forall|a: int, c: int|
                    nb_term - remaining_terminal <= a < nb_term && 0 <= c < n ==> #[trigger] net.graph()[a][c] is None,
                visited@.len() > 0,
                forall|i: int| 0 <= i < visited@.len() ==> nb_term <= #[trigger] visited@[i] < n,
                speeds@.len() == nb_term,
                forall|i: int| 0 <= i < nb_term ==> #[trigger] speeds@[i] < diff_speeds || speeds@[i] == 0,
                forall|i: int| 0 <= i < nb_term - remaining_terminal ==> #[trigger] speeds@[i] < diff_speeds,
                diff_speeds > 0 || remaining_terminal == 0,
                forall|i: int| 0 <= i < nb_term - remaining_terminal ==> hangs(net.graph(), i, nb_term as int, n as int, #[trigger] speeds@[i]),
                nb_term <= root < n,
                forall|x: int| nb_term <= x < n ==> #[trigger] reachable(net.graph(), root, x),
                forall|x: int| 0 <= x < nb_term - remaining_terminal ==> #[trigger] reachable(net.graph(), root, x),
            decreases remaining_terminal,
        {
            let v = match get_random(&visited, &mut rng) {
                Some(v) => v,
                None => 0,
            };
            proof {
                let i = choose|i: int| 0 <= i < visited@.len() && visited@[i] == v;
            }
            let drawn = random_below(&mut rng, 3) + 1;
            let to_place = if drawn < remaining_terminal { drawn } else { remaining_terminal };
            let mut i: usize = 0;
            while i < to_place
                invariant
                    n == nb_term + nb_inter,
                    0 < remaining_terminal <= nb_term,
                    to_place <= remaining_terminal,
                    i <= to_place,
                    nb_term <= v < n,
                    diff_speeds > 0,
                    net.wf(),
                    net.strategy() == path_strategy,
                    net.graph().len() == n,
                    is_square(net.graph(), n as nat),
                is_square(net.graph(), n as nat),
                    forall|x: usize| x < n ==> #[trigger] index_of(net.mapping(), x) == Some(x),
                    links_bounded(net.graph(), diff_speeds),
                    forall|a: int, c: int| 0 <= a < nb_term && 0 <= c < nb_term ==> #[trigger] net.graph()[a][c] is None,
                    forall|a: int, c: int|
                        nb_term - remaining_terminal + i <= a < nb_term && 0 <= c < n ==> #[trigger] net.graph()[a][c] is None,
                    speeds@.len() == nb_term,
                    forall|j: int| 0 <= j < nb_term ==> #[trigger] speeds@[j] < diff_speeds || speeds@[j] == 0,
                    forall|j: int| 0 <= j < nb_term - remaining_terminal + i ==> #[trigger] speeds@[j] < diff_speeds,
                    forall|j: int| 0 <= j < nb_term - remaining_terminal + i ==> hangs(net.graph(), j, nb_term as int, n as int, #[trigger] speeds@[j]),
                    nb_term <= root < n,
                    forall|x: int| nb_term <= x < n ==> #[trigger] reachable(net.graph(), root, x),
                    forall|x: int| 0 <= x < nb_term - remaining_terminal + i ==> #[trigger] reachable(net.graph(), root, x),
                decreases to_place - i,
            {
                let current_node = nb_term - remaining_terminal + i;
                let edge_speed = random_below(&mut rng, diff_speeds);
                speeds.set(current_node, edge_speed);
                let bandwidth = edge_speed as u32;
                proof {
                    assert(bandwidth <= edge_speed) by (bit_vector)
                        requires
                            bandwidth == edge_speed as u32,
                    ;
                }
                let ghost g0 = net.graph();
                proof {
                    assert(index_of(net.mapping(), v) == Some(v));
                    assert(index_of(net.mapping(), current_node) == Some(current_node));
                }
                net.add_edge(&v, &current_node, bandwidth);
                proof {
                    lemma_edge_added(g0, net.graph(), v as int, current_node as int, diff_speeds);
                    net.lemma_graph_symmetric();
                    assert(reachable(g0, root, v as int));
                    lemma_link_reach(g0, net.graph(), v as int, current_node as int, root);
                    assert forall|x: int| 0 <= x < nb_term - remaining_terminal + i + 1 implies #[trigger] reachable(net.graph(), root, x) by {
                        if x < current_node {
                            assert(reachable(g0, root, x));
                        }
                    }
                    assert forall|x: int| nb_term <= x < n implies #[trigger] reachable(net.graph(), root, x) by {
                        assert(reachable(g0, root, x));
                    }
                    let g = net.graph();
                    assert forall|j: int| 0 <= j < nb_term - remaining_terminal + i + 1 implies hangs(g, j, nb_term as int, n as int, #[trigger] speeds@[j]) by {
                        if j < current_node {
                            assert(hangs(g0, j, nb_term as int, n as int, speeds@[j]));
                            let w = choose|w: int| nb_term <= w < n && (#[trigger] g0[j][w] matches Some(l) && l.bandwidth == speeds@[j] as u32);
                            assert(g[j][w] == g0[j][w]);
                        } else {
                            assert(g[j][v as int] matches Some(l) && l.bandwidth == speeds@[j] as u32);
                        }
                    }
                }
                i = i + 1;
            }
            remaining_terminal = remaining_terminal - to_place;
        }
        proof {
            assert forall|x: int| 0 <= x < n implies #[trigger] reachable(net.graph(), root, x) by {
                if x < nb_term {
                    assert(reachable(net.graph(), root, x));
                }
            }
            assert(reaches_all(net.graph(), root, n as nat));
        }
        (net, speeds)
    }
}

} // verus!

//! Placing an emulation on the cluster: choosing hosts (cluster nodes, possibly used more
//! than once) for the applications so that no host is loaded beyond its limit and the
//! bandwidth the applications of a host need towards the others fits in what is left
//! between the hosts.
use vstd::prelude::*;
use crate::common::{Error, ErrorKind};
use crate::matrix::{SymMatrix, is_square, skip_index};

verus! {

/// The places of applications: `mapper[equivalence[a]] % hosts` for each application `a`.
pub open spec fn place_of(mapper: Seq<usize>, equivalence: Seq<usize>, hosts: nat, a: int) -> int {
    mapper[equivalence[a] as int] as int % hosts as int
}

/// How many of the first `k` applications are placed on `host`.
pub open spec fn count_on(mapper: Seq<usize>, equivalence: Seq<usize>, hosts: nat, host: int, k: nat) -> nat
    decreases k,
{
    if k == 0 {
        0
    } else {
        count_on(mapper, equivalence, hosts, host, (k - 1) as nat) + if place_of(mapper, equivalence, hosts, k - 1)
            == host {
            1nat
        } else {
            0nat
        }
    }
}

/// The bandwidth application `a` needs towards the first `k` applications placed elsewhere
/// than `host`.
pub open spec fn demand_to(
    g1: Seq<Seq<u32>>,
    mapper: Seq<usize>,
    equivalence: Seq<usize>,
    hosts: nat,
    host: int,
    a: int,
    k: nat,
) -> nat
    decreases k,
{
    if k == 0 {
        0
    } else {
        demand_to(g1, mapper, equivalence, hosts, host, a, (k - 1) as nat) + if place_of(
            mapper,
            equivalence,
            hosts,
            k - 1,
        ) != host {
            g1[a][k - 1] as nat
        } else {
            0nat
        }
    }
}

/// The bandwidth the first `k` applications placed on `host` need towards the `n`
/// applications placed elsewhere.
pub open spec fn demand(
    g1: Seq<Seq<u32>>,
    mapper: Seq<usize>,
    equivalence: Seq<usize>,
    hosts: nat,
    host: int,
    k: nat,
    n: nat,
) -> nat
    decreases k,
{
    if k == 0 {
        0
    } else {
        demand(g1, mapper, equivalence, hosts, host, (k - 1) as nat, n) + if place_of(mapper, equivalence, hosts, k - 1)
            == host {
            demand_to(g1, mapper, equivalence, hosts, host, k - 1, n)
        } else {
            0nat
        }
    }
}

/// `host` can take the applications placed on it: their number fits in what its load
/// leaves, and the bandwidth they need towards the others fits in what is left from the
/// host to each host that holds one of the others.
pub open spec fn host_fits(
    residual: Seq<Seq<u32>>,
    loads: Seq<usize>,
    max_load: usize,
    g1: Seq<Seq<u32>>,
    mapper: Seq<usize>,
    equivalence: Seq<usize>,
    host: int,
) -> bool {
    let hosts = residual.len();
    let n = g1.len();
    &&& count_on(mapper, equivalence, hosts, host, n) <= max_load - loads[host]
    &&& forall|k: int|
        0 <= k < equivalence.len() && #[trigger] (mapper[equivalence[k] as int] as int % hosts as int) != host
            ==> demand(g1, mapper, equivalence, hosts, host, n, n) <= residual[host][mapper[equivalence[k] as int]
            as int % hosts as int]
}

/// Every host that the first `size` entries of `mapper` name can take what is placed on it.
pub open spec fn placement_fits(
    residual: Seq<Seq<u32>>,
    loads: Seq<usize>,
    max_load: usize,
    g1: Seq<Seq<u32>>,
    size: nat,
    mapper: Seq<usize>,
    equivalence: Seq<usize>,
) -> bool {
    forall|i: int|
        0 <= i < size ==> #[trigger] host_fits(
            residual,
            loads,
            max_load,
            g1,
            mapper,
            equivalence,
            mapper[i] as int % residual.len() as int,
        )
}

/// `p` is a permutation of `0 .. n`: `n` distinct values below `n`.
pub open spec fn is_permutation(p: Seq<usize>, n: nat) -> bool {
    &&& p.len() == n
    &&& forall|i: int| 0 <= i < n ==> #[trigger] p[i] < n
    &&& forall|i: int, j: int| 0 <= i < j < n ==> #[trigger] p[i] != #[trigger] p[j]
}

/// `c` is a combination of `k` values out of `0 .. n` (a `k`-subset of a set of size `n`),
/// in increasing order.
pub open spec fn is_combination(c: Seq<usize>, k: nat, n: nat) -> bool {
    &&& c.len() == k
    &&& forall|i: int| 0 <= i < k ==> #[trigger] c[i] < n
    &&& forall|i: int, j: int| 0 <= i < j < k ==> #[trigger] c[i] < #[trigger] c[j]
}

/// `c` is the last combination of `k` values out of `0 .. n`: `n - k, ..., n - 1`.
pub open spec fn is_last_combination(c: Seq<usize>, k: nat, n: nat) -> bool {
    forall|j: int| 0 <= j < k ==> #[trigger] c[j] == n - k + j
}

/// The last position of `c` that can still grow: the largest `i` with `c[i] < n - k + i`.
pub open spec fn growable(c: Seq<usize>, k: nat, n: nat, i: int) -> bool {
    0 <= i < k && c[i] < n - k + i && forall|j: int| i < j < k ==> #[trigger] c[j] >= n - k + j
}

/// The combination that follows `c`: its last growable position grows by one and the
/// positions after it follow on by one each.
pub open spec fn successor(c: Seq<usize>, k: nat, i: int) -> Seq<usize> {
    Seq::new(
        k,
        |j: int|
            if j < i {
                c[j]
            } else {
                (c[i] + 1 + (j - i)) as usize
            },
    )
}

/// `a` and `b` first differ at position `m`, where `a` is smaller.
pub open spec fn first_below(a: Seq<usize>, b: Seq<usize>, m: int) -> bool {
    &&& 0 <= m < a.len()
    &&& forall|j: int| 0 <= j < m ==> #[trigger] a[j] == b[j]
    &&& a[m] < b[m]
}

/// `a` comes before `b` in lexicographic order (the two have the same length).
pub open spec fn lex_less(a: Seq<usize>, b: Seq<usize>) -> bool {
    a.len() == b.len() && exists|m: int| #[trigger] first_below(a, b, m)
}

/// The combination that follows `previous` among the combinations of `k` values out of
/// `0 .. n` (the `k`-subsets of a set of size `n`) in lexicographic order: the last position
/// that can grow is grown by one and the positions after it follow on. Nothing follows the
/// last combination, `n - k, ..., n - 1`.
pub fn next_comb(previous: Vec<usize>, k: usize, n: usize) -> (r: Option<Vec<usize>>)
    requires
        1 <= k <= n,
        is_combination(previous@, k as nat, n as nat),
    ensures
        match r {
            None => is_last_combination(previous@, k as nat, n as nat),
            Some(c) => {
                &&& !is_last_combination(previous@, k as nat, n as nat)
                &&& is_combination(c@, k as nat, n as nat)
                &&& lex_less(previous@, c@)
                &&& forall|d: Seq<usize>|
                    is_combination(d, k as nat, n as nat) && #[trigger] lex_less(previous@, d) ==> !lex_less(d, c@)
                &&& exists|i: int| #[trigger] growable(previous@, k as nat, n as nat, i) && c@ == successor(previous@, k as nat, i)
            },
        },
{
    let mut previous = previous;
    let ghost orig = previous@;
    let mut i: usize = k - 1;
    proof {
        lemma_combination_bound(orig, k as nat, n as nat, i as int);
    }
    previous.set(i, previous[i] + 1);
    while previous[i] >= n - k + 1 + i && i > 0
        invariant
            1 <= k <= n,
            i < k,
            previous@.len() == k,
            is_combination(orig, k as nat, n as nat),
            forall|j: int| 0 <= j < i ==> #[trigger] previous@[j] == orig[j],
            forall|j: int| i <= j < k ==> #[trigger] previous@[j] == orig[j] + 1,
            forall|j: int| i < j < k ==> #[trigger] orig[j] >= n - k + j,
        decreases i,
    {
        proof {
            lemma_combination_bound(orig, k as nat, n as nat, i as int);
        }
        i = i - 1;
        proof {
            lemma_combination_bound(orig, k as nat, n as nat, i as int);
        }
        previous.set(i, previous[i] + 1);
    }
    proof {
        lemma_combination_bound(orig, k as nat, n as nat, i as int);
        lemma_combination_bound(orig, k as nat, n as nat, 0);
    }
    if previous[0] > n - k {
        proof {
            assert(i == 0);
            assert forall|j: int| 0 <= j < k implies #[trigger] orig[j] == n - k + j by {
                lemma_combination_bound(orig, k as nat, n as nat, j);
            }
        }
        return None;
    }
    proof {
        assert(growable(orig, k as nat, n as nat, i as int));
        assert(!is_last_combination(orig, k as nat, n as nat)) by {
            assert(orig[i as int] != n - k + i);
        }
    }
    let mut v: usize = i + 1;
    while v < k
        invariant
            1 <= k <= n,
            i < v <= k,
            previous@.len() == k,
            is_combination(orig, k as nat, n as nat),
            previous@[i as int] == orig[i as int] + 1,
            previous@[i as int] < n - k + 1 + i,
            forall|j: int| 0 <= j < i ==> #[trigger] previous@[j] == orig[j],
            forall|j: int| i <= j < v ==> #[trigger] previous@[j] == orig[i as int] + 1 + (j - i),
        decreases k - v,
    {
        let value = previous[v - 1] + 1;
        previous.set(v, value);
        v = v + 1;
    }
    proof {
        assert(previous@ =~= successor(orig, k as nat, i as int));
        lemma_successor_next(orig, k as nat, n as nat, i as int);
    }
    Some(previous)
}

/// The `i`-th value of a combination of `k` out of `0 .. n` is at most `n - k + i`.
proof fn lemma_combination_bound(c: Seq<usize>, k: nat, n: nat, i: int)
    requires
        is_combination(c, k, n),
        0 <= i < k,
    ensures
        c[i] <= n - k + i,
    decreases k - i,
{
    if i < k - 1 {
        lemma_combination_bound(c, k, n, i + 1);
        assert(c[i] < c[i + 1]);
    }
}

/// The `i`-th value of a combination is at least `i`.
proof fn lemma_combination_low(c: Seq<usize>, k: nat, n: nat, i: int)
    requires
        is_combination(c, k, n),
        0 <= i < k,
    ensures
        c[i] >= i,
    decreases i,
{
    if i > 0 {
        lemma_combination_low(c, k, n, i - 1);
        assert(c[i - 1] < c[i]);
    }
}

/// The values of a combination grow by at least one at each position.
proof fn lemma_combination_gap(c: Seq<usize>, k: nat, n: nat, a: int, b: int)
    requires
        is_combination(c, k, n),
        0 <= a <= b < k,
    ensures
        c[b] >= c[a] + (b - a),
    decreases b - a,
{
    if a < b {
        lemma_combination_gap(c, k, n, a, b - 1);
        assert(c[b - 1] < c[b]);
    }
}

/// The successor of a combination is a combination, comes after it, and no combination
/// lies strictly between the two.
proof fn lemma_successor_next(c: Seq<usize>, k: nat, n: nat, i: int)
    requires
        n <= usize::MAX,
        is_combination(c, k, n),
        growable(c, k, n, i),
    ensures
        is_combination(successor(c, k, i), k, n),
        lex_less(c, successor(c, k, i)),
        forall|d: Seq<usize>| is_combination(d, k, n) && #[trigger] lex_less(c, d) ==> !lex_less(d, successor(c, k, i)),
{
    let s = successor(c, k, i);
    assert forall|j: int| i <= j < k implies #[trigger] s[j] == c[i] + 1 + (j - i) && s[j] < n by {
        assert(c[i] + 1 + (j - i) < n);
        assert(c[i] + 1 + (j - i) <= usize::MAX);
    }
    assert forall|p: int, q: int| 0 <= p < q < k implies #[trigger] s[p] < #[trigger] s[q] by {
        if q < i {
            assert(c[p] < c[q]);
        } else if p < i {
            assert(c[p] < c[i]);
            assert(s[q] == c[i] + 1 + (q - i));
        } else {
            assert(s[p] == c[i] + 1 + (p - i));
            assert(s[q] == c[i] + 1 + (q - i));
        }
    }
    assert forall|j: int| 0 <= j < k implies #[trigger] s[j] < n by {
        if j < i {
            assert(c[j] < n);
        }
    }
    assert(first_below(c, s, i));
    assert forall|d: Seq<usize>| is_combination(d, k, n) && #[trigger] lex_less(c, d) implies !lex_less(d, s) by {
        let m1 = choose|m: int| #[trigger] first_below(c, d, m);
        if lex_less(d, s) {
            let m2 = choose|m: int| #[trigger] first_below(d, s, m);
            if m1 < i {
                assert(s[m1] == c[m1]);
                if m2 < m1 {
                    assert(d[m2] == c[m2]);
                    assert(s[m2] == c[m2]);
                } else if m2 > m1 {
                    assert(d[m1] == s[m1]);
                }
            } else if m1 == i {
                if m2 < i {
                    assert(d[m2] == c[m2]);
                    assert(s[m2] == c[m2]);
                } else if m2 > i {
                    assert(d[i] == s[i]);
                    lemma_combination_gap(d, k, n, i, m2);
                    assert(s[m2] == c[i] + 1 + (m2 - i));
                }
            } else {
                assert(c[m1] >= n - k + m1);
                lemma_combination_bound(d, k, n, m1);
            }
        }
    }
}

/// Every value below `n` appears in a sequence of `n` distinct values below `n`.
proof fn lemma_distinct_onto(s: Seq<usize>, n: nat, q: usize)
    requires
        s.len() == n,
        forall|i: int| 0 <= i < n ==> #[trigger] s[i] < n,
        forall|i: int, j: int| 0 <= i < j < n ==> #[trigger] s[i] != #[trigger] s[j],
        q < n,
    ensures
        exists|i: int| 0 <= i < n && s[i] == q,
{
    if !(exists|i: int| 0 <= i < n && s[i] == q) {
        let t = Seq::new(n, |i: int| if s[i] > q { (s[i] - 1) as usize } else { s[i] });
        assert forall|i: int, j: int| 0 <= i < j < n implies #[trigger] t[i] != #[trigger] t[j] by {
            assert(s[i] != s[j]);
            assert(s[i] != q && s[j] != q);
        }
        assert forall|i: int| 0 <= i < n implies #[trigger] t[i] < n - 1 by {
            assert(s[i] != q);
        }
        lemma_distinct_bound(t, (n - 1) as nat);
    }
}

/// A sequence of distinct values below `b` has at most `b` entries.
proof fn lemma_distinct_bound(s: Seq<usize>, b: nat)
    requires
        forall|i: int| 0 <= i < s.len() ==> #[trigger] s[i] < b,
        forall|i: int, j: int| 0 <= i < j < s.len() ==> #[trigger] s[i] != #[trigger] s[j],
    ensures
        s.len() <= b,
    decreases b,
{
    if b == 0 {
        if s.len() > 0 {
            assert(s[0] < 0);
        }
    } else {
        let top = (b - 1) as usize;
        let r = if exists|i: int| 0 <= i < s.len() && s[i] == top {
            let i = choose|i: int| 0 <= i < s.len() && s[i] == top;
            s.remove(i)
        } else {
            s
        };
        assert(r.len() + 1 >= s.len());
        assert forall|i: int| 0 <= i < r.len() implies #[trigger] r[i] < b - 1 by {
            if exists|j: int| 0 <= j < s.len() && s[j] == top {
                let j = choose|j: int| 0 <= j < s.len() && s[j] == top;
                if i < j {
                    assert(r[i] == s[i]);
                    assert(s[i] != s[j]);
                } else {
                    assert(r[i] == s[i + 1]);
                    assert(s[j] != s[i + 1]);
                }
            }
        }
        assert forall|i: int, j: int| 0 <= i < j < r.len() implies #[trigger] r[i] != #[trigger] r[j] by {
            if exists|m: int| 0 <= m < s.len() && s[m] == top {
                let m = choose|m: int| 0 <= m < s.len() && s[m] == top;
                let i2 = if i < m { i } else { i + 1 };
                let j2 = if j < m { j } else { j + 1 };
                assert(r[i] == s[i2]);
                assert(r[j] == s[j2]);
                assert(s[i2] != s[j2]);
            }
        }
        lemma_distinct_bound(r, (b - 1) as nat);
    }
}

/// How many applications go on a host depends only on where each goes.
proof fn lemma_count_on_congr(m1: Seq<usize>, e1: Seq<usize>, m2: Seq<usize>, e2: Seq<usize>, hosts: nat, host: int, k: nat)
    requires
        forall|a: int| 0 <= a < k ==> #[trigger] place_of(m1, e1, hosts, a) == place_of(m2, e2, hosts, a),
    ensures
        count_on(m1, e1, hosts, host, k) == count_on(m2, e2, hosts, host, k),
    decreases k,
{
    if k > 0 {
        lemma_count_on_congr(m1, e1, m2, e2, hosts, host, (k - 1) as nat);
        assert(place_of(m1, e1, hosts, k - 1) == place_of(m2, e2, hosts, k - 1));
    }
}

proof fn lemma_demand_to_congr(
    g1: Seq<Seq<u32>>,
    m1: Seq<usize>,
    e1: Seq<usize>,
    m2: Seq<usize>,
    e2: Seq<usize>,
    hosts: nat,
    host: int,
    a: int,
    k: nat,
)
    requires
        forall|b: int| 0 <= b < k ==> #[trigger] place_of(m1, e1, hosts, b) == place_of(m2, e2, hosts, b),
    ensures
        demand_to(g1, m1, e1, hosts, host, a, k) == demand_to(g1, m2, e2, hosts, host, a, k),
    decreases k,
{
    if k > 0 {
        lemma_demand_to_congr(g1, m1, e1, m2, e2, hosts, host, a, (k - 1) as nat);
        assert(place_of(m1, e1, hosts, k - 1) == place_of(m2, e2, hosts, k - 1));
    }
}

proof fn lemma_demand_congr(
    g1: Seq<Seq<u32>>,
    m1: Seq<usize>,
    e1: Seq<usize>,
    m2: Seq<usize>,
    e2: Seq<usize>,
    hosts: nat,
    host: int,
    k: nat,
    n: nat,
)
    requires
        k <= n,
        forall|b: int| 0 <= b < n ==> #[trigger] place_of(m1, e1, hosts, b) == place_of(m2, e2, hosts, b),
    ensures
        demand(g1, m1, e1, hosts, host, k, n) == demand(g1, m2, e2, hosts, host, k, n),
    decreases k,
{
    if k > 0 {
        lemma_demand_congr(g1, m1, e1, m2, e2, hosts, host, (k - 1) as nat, n);
        assert(place_of(m1, e1, hosts, k - 1) == place_of(m2, e2, hosts, k - 1));
        lemma_demand_to_congr(g1, m1, e1, m2, e2, hosts, host, k - 1, n);
    }
}

/// Whether a host can take what is placed on it depends only on where each application
/// goes.
proof fn lemma_host_fits_congr(
    residual: Seq<Seq<u32>>,
    loads: Seq<usize>,
    max_load: usize,
    g1: Seq<Seq<u32>>,
    m1: Seq<usize>,
    e1: Seq<usize>,
    m2: Seq<usize>,
    e2: Seq<usize>,
    host: int,
)
    requires
        e1.len() == g1.len(),
        e2.len() == g1.len(),
        forall|a: int| 0 <= a < g1.len() ==> #[trigger] place_of(m1, e1, residual.len(), a) == place_of(m2, e2, residual.len(), a),
    ensures
        host_fits(residual, loads, max_load, g1, m1, e1, host) == host_fits(residual, loads, max_load, g1, m2, e2, host),
{
    let hosts = residual.len();
    let n = g1.len();
    lemma_count_on_congr(m1, e1, m2, e2, hosts, host, n);
    lemma_demand_congr(g1, m1, e1, m2, e2, hosts, host, n, n);
    assert forall|k: int| 0 <= k < n implies (m1[e1[k] as int] as int % hosts as int) == (m2[e2[k] as int] as int
        % hosts as int) by {
        assert(place_of(m1, e1, hosts, k) == place_of(m2, e2, hosts, k));
    }
}

/// No order of the applications fits on the hosts chosen by `c`.
pub open spec fn no_fit(residual: Seq<Seq<u32>>, loads: Seq<usize>, max_load: usize, g1: Seq<Seq<u32>>, c: Seq<usize>) -> bool {
    forall|p: Seq<usize>| #[trigger] is_permutation(p, g1.len()) ==> !placement_fits(residual, loads, max_load, g1, g1.len(), c, p)
}

/// `t` holds distinct values, one for each entry of `c`, standing for the same host.
pub open spec fn set_of(t: Seq<usize>, c: Seq<usize>, hosts: nat) -> bool {
    &&& t.len() == c.len()
    &&& forall|i: int, j: int| 0 <= i < j < t.len() ==> #[trigger] t[i] != #[trigger] t[j]
    &&& forall|i: int| 0 <= i < t.len() ==> #[trigger] (t[i] as int % hosts as int) == c[i] as int % hosts as int
}

/// `t` stands for the hosts of a choice on which no order of the applications fits.
pub open spec fn exhausted(residual: Seq<Seq<u32>>, loads: Seq<usize>, max_load: usize, g1: Seq<Seq<u32>>, t: Seq<usize>) -> bool {
    exists|c0: Seq<usize>| #[trigger] set_of(t, c0, residual.len()) && no_fit(residual, loads, max_load, g1, c0)
}

/// Two choices of hosts that stand for the same hosts admit the same placements: when none
/// fits on the first, none fits on the second.
proof fn lemma_same_hosts_no_fit(
    residual: Seq<Seq<u32>>,
    loads: Seq<usize>,
    max_load: usize,
    g1: Seq<Seq<u32>>,
    t: Seq<usize>,
    c0: Seq<usize>,
    s: Seq<usize>,
    c: Seq<usize>,
)
    requires
        residual.len() >= 1,
        g1.len() <= usize::MAX,
        set_of(t, c0, residual.len()),
        no_fit(residual, loads, max_load, g1, c0),
        set_of(s, c, residual.len()),
        t.len() == g1.len(),
        s.len() == g1.len(),
        forall|i: int| 0 <= i < t.len() ==> s.contains(#[trigger] t[i]),
    ensures
        no_fit(residual, loads, max_load, g1, c),
{
    let hosts = residual.len();
    let k = g1.len();
    assert forall|p: Seq<usize>| #[trigger] is_permutation(p, k) implies !placement_fits(residual, loads, max_load, g1, k, c, p) by {
        if placement_fits(residual, loads, max_load, g1, k, c, p) {
            // the position in `s` of each value of `t`
            let idx = Seq::new(k, |j: int| (choose|i: int| 0 <= i < k && s[i] == t[j]) as usize);
            assert forall|j: int| 0 <= j < k implies #[trigger] idx[j] < k && s[idx[j] as int] == t[j] by {
                assert(s.contains(t[j]));
                let i = choose|i: int| 0 <= i < k && s[i] == t[j];
                assert(idx[j] == i as usize);
            }
            assert forall|j1: int, j2: int| 0 <= j1 < j2 < k implies #[trigger] idx[j1] != #[trigger] idx[j2] by {
                assert(t[j1] != t[j2]);
            }
            // each value of `s` is a value of `t`
            assert forall|i: int| 0 <= i < k implies t.contains(#[trigger] s[i]) by {
                lemma_distinct_onto(idx, k, i as usize);
                let j = choose|j: int| 0 <= j < k && idx[j] == i as usize;
                assert(s[idx[j] as int] == t[j]);
                assert(t[j] == s[i]);
            }
            let sigma = Seq::new(k, |i: int| (choose|j: int| 0 <= j < k && t[j] == s[i]) as usize);
            assert forall|i: int| 0 <= i < k implies #[trigger] sigma[i] < k && t[sigma[i] as int] == s[i] by {
                assert(t.contains(s[i]));
            }
            let p0 = Seq::new(k, |a: int| sigma[p[a] as int]);
            assert forall|a: int| 0 <= a < k implies #[trigger] p0[a] < k by {
                assert(p[a] < k);
            }
            assert forall|a: int, b: int| 0 <= a < b < k implies #[trigger] p0[a] != #[trigger] p0[b] by {
                assert(p[a] != p[b]);
                assert(s[p[a] as int] != s[p[b] as int]);
                assert(t[sigma[p[a] as int] as int] == s[p[a] as int]);
                assert(t[sigma[p[b] as int] as int] == s[p[b] as int]);
            }
            assert(is_permutation(p0, k));
            assert forall|a: int| 0 <= a < k implies #[trigger] place_of(c0, p0, hosts, a) == place_of(c, p, hosts, a) by {
                let q = p[a] as int;
                let j = sigma[q] as int;
                assert(t[j] == s[q]);
                assert((t[j] as int % hosts as int) == c0[j] as int % hosts as int);
                assert((s[q] as int % hosts as int) == c[q] as int % hosts as int);
            }
            assert forall|i: int| 0 <= i < k implies #[trigger] host_fits(
                residual,
                loads,
                max_load,
                g1,
                c0,
                p0,
                c0[i] as int % residual.len() as int,
            ) by {
                assert(s.contains(t[i]));
                let m = choose|m: int| 0 <= m < k && s[m] == t[i];
                assert((t[i] as int % hosts as int) == c0[i] as int % hosts as int);
                assert((s[m] as int % hosts as int) == c[m] as int % hosts as int);
                assert(host_fits(residual, loads, max_load, g1, c, p, c[m] as int % residual.len() as int));
                lemma_host_fits_congr(residual, loads, max_load, g1, c0, p0, c, p, c0[i] as int % hosts as int);
            }
            assert(placement_fits(residual, loads, max_load, g1, k, c0, p0));
        }
    }
}

/// At least one application goes on the host of a place that the order reaches.
proof fn lemma_count_on_pos(m: Seq<usize>, e: Seq<usize>, hosts: nat, host: int, k: nat, a: int)
    requires
        0 <= a < k,
        place_of(m, e, hosts, a) == host,
    ensures
        count_on(m, e, hosts, host, k) >= 1,
    decreases k,
{
    if a < k - 1 {
        lemma_count_on_pos(m, e, hosts, host, (k - 1) as nat, a);
    }
}

/// Nothing fits on a choice of hosts that holds a host at its load limit.
proof fn lemma_full_host_no_fit(
    residual: Seq<Seq<u32>>,
    loads: Seq<usize>,
    max_load: usize,
    g1: Seq<Seq<u32>>,
    c: Seq<usize>,
    q: int,
)
    requires
        residual.len() >= 1,
        g1.len() <= usize::MAX,
        loads.len() == residual.len(),
        c.len() == g1.len(),
        0 <= q < g1.len(),
        loads[c[q] as int % residual.len() as int] >= max_load,
    ensures
        no_fit(residual, loads, max_load, g1, c),
{
    let hosts = residual.len();
    let k = g1.len();
    let h = c[q] as int % hosts as int;
    assert forall|p: Seq<usize>| #[trigger] is_permutation(p, k) implies !placement_fits(residual, loads, max_load, g1, k, c, p) by {
        lemma_distinct_onto(p, k, q as usize);
        let a = choose|a: int| 0 <= a < k && p[a] == q as usize;
        assert(place_of(c, p, hosts, a) == h);
        lemma_count_on_pos(c, p, hosts, h, k, a);
        assert(!host_fits(residual, loads, max_load, g1, c, p, h));
    }
}

/// Two different sequences of the same length are ordered one way or the other.
proof fn lemma_lex_total(a: Seq<usize>, b: Seq<usize>)
    requires
        a.len() == b.len(),
        a != b,
    ensures
        lex_less(a, b) || lex_less(b, a),
{
    assert(!(a =~= b));
    let i = choose|i: int| 0 <= i < a.len() && a[i] != b[i];
    lemma_first_diff(a, b, i);
    let m = choose|m: int| 0 <= m <= i && a[m] != b[m] && forall|j: int| 0 <= j < m ==> #[trigger] a[j] == b[j];
    if a[m] < b[m] {
        assert(first_below(a, b, m));
    } else {
        assert(first_below(b, a, m));
    }
}

proof fn lemma_first_diff(a: Seq<usize>, b: Seq<usize>, i: int)
    requires
        0 <= i < a.len(),
        a.len() == b.len(),
        a[i] != b[i],
    ensures
        exists|m: int| 0 <= m <= i && a[m] != b[m] && forall|j: int| 0 <= j < m ==> #[trigger] a[j] == b[j],
    decreases i,
{
    if exists|j: int| 0 <= j < i && a[j] != b[j] {
        let j = choose|j: int| 0 <= j < i && a[j] != b[j];
        lemma_first_diff(a, b, j);
    } else {
        assert(forall|j: int| 0 <= j < i ==> #[trigger] a[j] == b[j]);
    }
}

/// Every combination comes at latest with the last one.
proof fn lemma_last_is_last(last: Seq<usize>, c: Seq<usize>, k: nat, n: nat)
    requires
        is_combination(last, k, n),
        is_last_combination(last, k, n),
        is_combination(c, k, n),
    ensures
        !lex_less(last, c),
{
    if lex_less(last, c) {
        let m = choose|m: int| #[trigger] first_below(last, c, m);
        lemma_combination_bound(c, k, n, m);
    }
}

/// The clones of each host in the first round of the search: as many as the applications
/// outnumber the hosts.
pub open spec fn first_clones(k: nat, hosts: nat) -> nat {
    if k > hosts {
        (k - hosts) as nat
    } else {
        0
    }
}

/// The choices of hosts tried in the round with `cl` clones of each host: the
/// combinations of `k` values out of `0 .. hosts * (cl + 1)` when there are more values than
/// applications, the values `0 .. k` alone otherwise; value `v` stands for host `v % hosts`.
pub open spec fn round_choice(hosts: nat, cl: nat, k: nat, c: Seq<usize>) -> bool {
    if k < hosts * (cl + 1) {
        is_combination(c, k, hosts * (cl + 1))
    } else {
        c == Seq::new(k, |i: int| i as usize)
    }
}

/// Places the emulations on the cluster: what is left of the bandwidth between the hosts,
/// the load of each host and the load a host may take.
#[derive(Clone, Debug)]
pub struct Orchestrator {
    residual_graph: SymMatrix<u32>,
    loads: Vec<usize>,
    max_load: usize,
    emulations: Vec<(u128, SymMatrix<u32>, Vec<usize>)>,
}

impl Orchestrator {
    /// What is left of the bandwidth between the hosts.
    pub closed spec fn residual(&self) -> Seq<Seq<u32>> {
        self.residual_graph@
    }

    /// The load of each host.
    pub closed spec fn host_loads(&self) -> Seq<usize> {
        self.loads@
    }

    /// The load a host may take.
    pub closed spec fn load_limit(&self) -> usize {
        self.max_load
    }

    /// The emulations placed, in the order they came: the identifier, the bandwidth
    /// between the applications and the host of each application.
    pub closed spec fn recorded(&self) -> Seq<(u128, Seq<Seq<u32>>, Seq<usize>)> {
        self.emulations@.map_values(|e: (u128, SymMatrix<u32>, Vec<usize>)| (e.0, e.1@, e.2@))
    }

    /// At least one host, a load for each, none beyond the limit; the load of a host counts
    /// the applications the recorded emulations place on it, and what is left between two
    /// hosts and what the recorded emulations take there fit together in a `u32`.
    pub closed spec fn wf(&self) -> bool {
        &&& self.residual_graph.wf()
        &&& is_square(self.residual_graph@, self.residual_graph@.len())
        &&& self.residual_graph@.len() >= 1
        &&& self.loads@.len() == self.residual_graph@.len()
        &&& forall|h: int| 0 <= h < self.loads@.len() ==> #[trigger] self.loads@[h] <= self.max_load
        &&& forall|k: int|
            0 <= k < self.emulations@.len() ==> {
                let e = #[trigger] self.emulations@[k];
                &&& e.1.wf()
                &&& e.1@.len() == e.2@.len()
                &&& forall|a: int| 0 <= a < e.2@.len() ==> #[trigger] e.2@[a] < self.residual_graph@.len()
            }
        &&& forall|h: int| 0 <= h < self.loads@.len() ==> #[trigger] self.loads@[h] == total_placed(self.recorded(), h)
        &&& forall|x: int, y: int|
            0 <= x < self.residual_graph@.len() && 0 <= y < self.residual_graph@.len() ==> self.residual_graph@[x][y]
                + #[trigger] total_between(self.recorded(), x, y) <= u32::MAX
    }

    /// An orchestrator for hosts joined by the bandwidths of `residual_graph`, none loaded
    /// yet, each taking at most `max_load` applications.
    pub fn new(residual_graph: SymMatrix<u32>, max_load: usize) -> (o: Orchestrator)
        requires
            residual_graph.wf(),
            residual_graph@.len() >= 1,
        ensures
            o.wf(),
            o.residual() == residual_graph@,
            o.load_limit() == max_load,
            o.host_loads().len() == residual_graph@.len(),
            forall|h: int| 0 <= h < o.host_loads().len() ==> #[trigger] o.host_loads()[h] == 0,
    {
        proof {
            residual_graph.lemma_view_square_symmetric();
        }
        let n = residual_graph.size();
        let mut loads: Vec<usize> = Vec::new();
        let mut i: usize = 0;
        while i < n
            invariant
                i <= n,
                loads@.len() == i,
                forall|h: int| 0 <= h < i ==> #[trigger] loads@[h] == 0,
            decreases n - i,
        {
            loads.push(0);
            i = i + 1;
        }
        let o = Orchestrator { residual_graph, loads, max_load, emulations: Vec::new() };
        proof {
            assert(o.recorded().len() == 0);
            assert forall|x: int, y: int| 0 <= x < n && 0 <= y < n implies o.residual_graph@[x][y]
                + #[trigger] total_between(o.recorded(), x, y) <= u32::MAX by {}
        }
        o
    }

    /// Places a new emulation, whose applications need the bandwidths of `apps` between
    /// them: when a placement fits, the emulation takes its bandwidth between the hosts and
    /// its load on them, is recorded under `id`, and the placement (the host of each
    /// application) is returned; when none fits, nothing changes.
    pub fn new_emulation(&mut self, id: u128, apps: SymMatrix<u32>) -> (r: Result<Option<Vec<usize>>, Error>)
        requires
            old(self).wf(),
            apps.wf(),
            old(self).residual().len() * (apps@.len() + 7) + apps@.len() < usize::MAX,
        ensures
            final(self).wf(),
            final(self).load_limit() == old(self).load_limit(),
            match r {
                Ok(Some(eq)) => {
                    &&& apps@.len() == 0 && eq@.len() == 0 || fits_somewhere(
                        old(self).residual(),
                        old(self).host_loads(),
                        old(self).load_limit(),
                        apps@,
                        eq@,
                    )
                    &&& final(self).residual() == reserved(old(self).residual(), apps@, eq@)
                    &&& final(self).host_loads() == loaded(old(self).host_loads(), eq@)
                    &&& final(self).recorded() == old(self).recorded().push((id, apps@, eq@))
                },
                Ok(None) => {
                    &&& apps@.len() >= 1
                    &&& final(self).residual() == old(self).residual()
                    &&& final(self).host_loads() == old(self).host_loads()
                    &&& final(self).recorded() == old(self).recorded()
                    &&& forall|d: nat, c: Seq<usize>|
                        d < 5 && #[trigger] round_choice(
                            old(self).residual().len(),
                            first_clones(apps@.len(), old(self).residual().len()) + d,
                            apps@.len(),
                            c,
                        ) ==> no_fit(old(self).residual(), old(self).host_loads(), old(self).load_limit(), apps@, c)
                },
                Err(_) => false,
            },
    {
        let n = apps.size();
        let eq: Vec<usize> = if n == 0 {
            Vec::new()
        } else {
            match self.find_isomorphism(apps.duplicate()) {
                Ok(Some(eq)) => eq,
                _ => {
                    return Ok(None);
                },
            }
        };
        let ghost r0 = self.residual_graph@;
        let ghost l0 = self.loads@;
        let ghost recs0 = self.recorded();
        let ghost emul0 = self.emulations@;
        let ghost apps_view = apps@;
        let hosts = self.residual_graph.size();
        proof {
            self.residual_graph.lemma_view_square_symmetric();
            if n > 0 {
                lemma_fits_room(r0, l0, self.max_load, apps@, eq@, 0, 0);
            }
            assert(eq@.len() == n);
            assert forall|a: int| 0 <= a < eq@.len() implies #[trigger] eq@[a] < hosts by {}
            assert forall|x: int, y: int| 0 <= x < hosts && 0 <= y < hosts implies #[trigger] between(apps@, eq@, x, y)
                <= r0[x][y] by {
                if n > 0 {
                    lemma_fits_room(r0, l0, self.max_load, apps@, eq@, x, y);
                    lemma_fits_room(r0, l0, self.max_load, apps@, eq@, y, x);
                }
            }
            assert forall|h: int| 0 <= h < hosts implies l0[h] + #[trigger] placed_on(eq@, h, eq@.len()) <= self.max_load by {
                if n > 0 {
                    lemma_fits_room(r0, l0, self.max_load, apps@, eq@, h, h);
                    if !(exists|a: int| 0 <= a < eq@.len() && #[trigger] eq@[a] as int == h) {
                        assert forall|b: int| 0 <= b < eq@.len() implies #[trigger] eq@[b] as int != h by {}
                        lemma_placed_none(eq@, h, eq@.len());
                    }
                }
            }
        }
        take_bandwidth(&mut self.residual_graph, &apps, &eq);
        add_loads(&mut self.loads, &eq);
        let placement = eq.clone();
        self.emulations.push((id, apps, eq));
        proof {
            let recs = self.recorded();
            assert(recs =~= recs0.push((id, self.emulations@.last().1@, placement@)));
            assert(recs.drop_last() =~= recs0);
            assert forall|x: int, y: int| 0 <= x < hosts && 0 <= y < hosts implies self.residual_graph@[x][y]
                + #[trigger] total_between(self.recorded(), x, y) <= u32::MAX by {
                assert(total_between(recs0, x, y) + r0[x][y] <= u32::MAX);
                assert(total_between(recs, x, y) == total_between(recs0, x, y) + between(apps_view, placement@, x, y));
            }
            assert forall|h: int| 0 <= h < self.loads@.len() implies #[trigger] self.loads@[h] == total_placed(self.recorded(), h) by {
                assert(total_placed(recs, h) == total_placed(recs0, h) + placed_on(placement@, h, placement@.len()));
            }
            assert forall|h: int| 0 <= h < self.loads@.len() implies #[trigger] self.loads@[h] <= self.max_load by {
                assert(l0[h] + placed_on(placement@, h, placement@.len()) <= self.max_load);
            }
            assert forall|k: int| 0 <= k < self.emulations@.len() implies {
                let e = #[trigger] self.emulations@[k];
                &&& e.1.wf()
                &&& e.1@.len() == e.2@.len()
                &&& forall|a: int| 0 <= a < e.2@.len() ==> #[trigger] e.2@[a] < self.residual_graph@.len()
            } by {
                if k < self.emulations@.len() - 1 {
                    assert(self.emulations@[k] == emul0[k]);
                }
            }
        }
        Ok(Some(placement))
    }

    /// Stops the first recorded emulation with identifier `id`: it gives its bandwidth back
    /// between the hosts and its load on them, and is no longer recorded. An error when no
    /// emulation is recorded under `id`.
    pub fn stop_emulation(&mut self, id: u128) -> (r: Result<(), Error>)
        requires
            old(self).wf(),
        ensures
            final(self).wf(),
            final(self).load_limit() == old(self).load_limit(),
            match record_of(old(self).recorded(), id) {
                None => {
                    &&& r matches Err(e) && e.kind == ErrorKind::InvalidData
                    &&& final(self).residual() == old(self).residual()
                    &&& final(self).host_loads() == old(self).host_loads()
                    &&& final(self).recorded() == old(self).recorded()
                },
                Some(k) => {
                    &&& r is Ok
                    &&& final(self).residual() == released(
                        old(self).residual(),
                        old(self).recorded()[k].1,
                        old(self).recorded()[k].2,
                    )
                    &&& final(self).host_loads() == unloaded(old(self).host_loads(), old(self).recorded()[k].2)
                    &&& final(self).recorded() == old(self).recorded().remove(k)
                },
            },
    {
        let ghost recs0 = self.recorded();
        let mut found: Option<usize> = None;
        let mut k: usize = 0;
        while k < self.emulations.len()
            invariant
                k <= self.emulations@.len(),
                recs0 == self.recorded(),
                found is None ==> forall|j: int| 0 <= j < k ==> (#[trigger] recs0[j]).0 != id,
                found matches Some(f) ==> f < k && recs0[f as int].0 == id && forall|j: int| 0 <= j < f ==> (#[trigger] recs0[j]).0 != id,
            decreases self.emulations@.len() - k,
        {
            if found.is_none() && self.emulations[k].0 == id {
                found = Some(k);
            }
            k = k + 1;
        }
        match found {
            None => {
                proof {
                    assert(!(exists|j: int| 0 <= j < recs0.len() && (#[trigger] recs0[j]).0 == id));
                }
                Err(Error::new("orchestrator", ErrorKind::InvalidData, "no emulation registered"))
            },
            Some(f) => {
                proof {
                    assert(exists|j: int| 0 <= j < recs0.len() && (#[trigger] recs0[j]).0 == id) by {
                        assert(recs0[f as int].0 == id);
                    }
                    let c = record_of(recs0, id)->0;
                    if c < f {
                        assert(recs0[c].0 != id);
                    }
                    if f < c {
                        assert(recs0[f as int].0 == id);
                    }
                    assert(c == f);
                }
                let ghost r0 = self.residual_graph@;
                let ghost l0 = self.loads@;
                let hosts = self.residual_graph.size();
                let rec = self.emulations.remove(f);
                proof {
                    self.residual_graph.lemma_view_square_symmetric();
                    assert(self.recorded() =~= recs0.remove(f as int));
                    assert(recs0[f as int] == (rec.0, rec.1@, rec.2@));
                    assert forall|x: int, y: int| 0 <= x < hosts && 0 <= y < hosts implies r0[x][y] + #[trigger] between(
                        rec.1@,
                        rec.2@,
                        x,
                        y,
                    ) <= u32::MAX by {
                        lemma_total_remove(recs0, f as int, x, y, 0);
                        assert(r0[x][y] + total_between(recs0, x, y) <= u32::MAX);
                    }
                    assert forall|h: int| 0 <= h < hosts implies #[trigger] placed_on(rec.2@, h, rec.2@.len()) <= l0[h] by {
                        lemma_total_remove(recs0, f as int, 0, 0, h);
                    }
                }
                give_bandwidth(&mut self.residual_graph, &rec.1, &rec.2);
                remove_loads(&mut self.loads, &rec.2);
                proof {
                    assert forall|x: int, y: int| 0 <= x < hosts && 0 <= y < hosts implies self.residual_graph@[x][y]
                        + #[trigger] total_between(self.recorded(), x, y) <= u32::MAX by {
                        lemma_total_remove(recs0, f as int, x, y, 0);
                        assert(r0[x][y] + total_between(recs0, x, y) <= u32::MAX);
                    }
                    assert forall|h: int| 0 <= h < self.loads@.len() implies #[trigger] self.loads@[h] == total_placed(
                        self.recorded(),
                        h,
                    ) by {
                        lemma_total_remove(recs0, f as int, 0, 0, h);
                    }
                }
                Ok(())
            },
        }
    }

    /// Removes host `host` from the cluster: every recorded emulation is stopped first, so
    /// that the bandwidths and loads are as if none ran, and their identifiers are returned
    /// in the order they were recorded; then the host leaves the bandwidths and the loads.
    /// An error when there is no such host.
    pub fn remove_cluster_node(&mut self, host: usize) -> (r: Result<Vec<u128>, Error>)
        requires
            old(self).wf(),
            old(self).residual().len() >= 2,
        ensures
            final(self).wf(),
            final(self).load_limit() == old(self).load_limit(),
            host >= old(self).residual().len() ==> {
                &&& r matches Err(e) && e.kind == ErrorKind::InvalidData
                &&& final(self).residual() == old(self).residual()
                &&& final(self).host_loads() == old(self).host_loads()
                &&& final(self).recorded() == old(self).recorded()
            },
            host < old(self).residual().len() ==> {
                &&& r matches Ok(ids) && ids@ == old(self).recorded().map_values(
                    |e: (u128, Seq<Seq<u32>>, Seq<usize>)| e.0,
                )
                &&& final(self).recorded().len() == 0
                &&& final(self).residual().len() == old(self).residual().len() - 1
                &&& forall|x: int, y: int|
                    0 <= x < final(self).residual().len() && 0 <= y < final(self).residual().len()
                        ==> #[trigger] final(self).residual()[x][y] == released_all(old(self).residual(), old(self).recorded())[skip_index(
                        x,
                        host as int,
                    )][skip_index(y, host as int)]
                &&& final(self).host_loads().len() == old(self).host_loads().len() - 1
                &&& forall|h: int| 0 <= h < final(self).host_loads().len() ==> #[trigger] final(self).host_loads()[h] == 0
            },
    {
        if host >= self.residual_graph.size() {
            return Err(Error::new("orchestrator", ErrorKind::InvalidData, "Cannot find the node to remove"));
        }
        let ghost recs0 = self.recorded();
        let ghost r0 = self.residual_graph@;
        let ghost n0 = r0.len();
        let mut ids: Vec<u128> = Vec::new();
        while self.emulations.len() > 0
            invariant
                self.wf(),
                self.load_limit() == old(self).load_limit(),
                self.residual().len() == n0,
                ids@.len() <= recs0.len(),
                self.recorded() == recs0.subrange(ids@.len() as int, recs0.len() as int),
                ids@ == recs0.subrange(0, ids@.len() as int).map_values(|e: (u128, Seq<Seq<u32>>, Seq<usize>)| e.0),
                released_all(self.residual(), self.recorded()) == released_all(r0, recs0),
            decreases self.emulations@.len(),
        {
            let id = self.emulations[0].0;
            let ghost recs = self.recorded();
            let ghost r = self.residual();
            proof {
                assert(recs[0].0 == id);
                assert(exists|j: int| 0 <= j < recs.len() && (#[trigger] recs[j]).0 == id);
                let c = record_of(recs, id)->0;
                if c > 0 {
                    assert(recs[0].0 != id);
                }
            }
            let _ = self.stop_emulation(id);
            proof {
                assert(self.recorded() =~= recs.drop_first());
                assert(recs.drop_first() =~= recs0.subrange(ids@.len() as int + 1, recs0.len() as int));
                assert(recs[0] == recs0[ids@.len() as int]);
            }
            ids.push(id);
            proof {
                assert(ids@ =~= recs0.subrange(0, ids@.len() as int).map_values(
                    |e: (u128, Seq<Seq<u32>>, Seq<usize>)| e.0,
                ));
            }
        }
        proof {
            assert(ids@.len() == recs0.len());
            assert(recs0.subrange(0, recs0.len() as int) =~= recs0);
            assert(self.recorded().len() == 0);
            assert forall|h: int| 0 <= h < self.loads@.len() implies #[trigger] self.loads@[h] == 0 by {
                assert(self.loads@[h] == total_placed(self.recorded(), h));
            }
        }
        let ghost r1 = self.residual_graph@;
        let ghost l1 = self.loads@;
        self.residual_graph = self.residual_graph.remove_id(host);
        self.loads.remove(host);
        proof {
            assert(r1 == released_all(r0, recs0));
            assert(self.recorded().len() == 0);
            assert forall|x: int, y: int| 0 <= x < self.residual_graph@.len() && 0 <= y < self.residual_graph@.len() implies self.residual_graph@[x][y]
                + #[trigger] total_between(self.recorded(), x, y) <= u32::MAX by {}
            assert forall|h: int| 0 <= h < self.loads@.len() implies #[trigger] self.loads@[h] == total_placed(self.recorded(), h) by {
                if h < host {
                    assert(self.loads@[h] == l1[h]);
                } else {
                    assert(self.loads@[h] == l1[h + 1]);
                }
            }
        }
        Ok(ids)
    }

    /// The load of a host.
    pub fn get_actual_load(&self, host: usize) -> (l: usize)
        requires
            self.wf(),
            host < self.host_loads().len(),
        ensures
            l == self.host_loads()[host as int],
    {
        self.loads[host]
    }

    /// Whether the placement of the applications of `g1` given by `equivalence` and
    /// `mapper` fits: each host named by `mapper` can take what is placed on it.
    fn verify_permutation(
        &self,
        g1: &SymMatrix<u32>,
        residual: &SymMatrix<u32>,
        equivalence: &Vec<usize>,
        mapper: &Vec<usize>,
    ) -> (r: bool)
        requires
            self.wf(),
            g1.wf(),
            residual@.len() == g1@.len(),
            is_square(g1@, g1@.len()),
            is_permutation(equivalence@, g1@.len()),
            mapper@.len() == g1@.len(),
        ensures
            r == placement_fits(
                self.residual(),
                self.host_loads(),
                self.load_limit(),
                g1@,
                g1@.len(),
                mapper@,
                equivalence@,
            ),
    {
        let hosts = self.residual_graph.size();
        let n = g1.size();
        let ghost res = self.residual();
        let ghost loads = self.host_loads();
        let mut checked: Vec<usize> = Vec::new();
        let mut i: usize = 0;
        while i < residual.size()
            invariant
                self.wf(),
                hosts == res.len(),
                res == self.residual(),
                loads == self.host_loads(),
                n == g1@.len(),
                residual@.len() == n,
                g1.wf(),
                is_square(g1@, n as nat),
                is_permutation(equivalence@, n as nat),
                mapper@.len() == n,
                i <= n,
                forall|h: int| 0 <= h < checked@.len() ==> #[trigger] host_fits(res, loads, self.load_limit(), g1@, mapper@, equivalence@, checked@[h] as int),
                forall|j: int| 0 <= j < i ==> #[trigger] host_fits(res, loads, self.load_limit(), g1@, mapper@, equivalence@, mapper@[j] as int % hosts as int),
            decreases n - i,
        {
            let host = mapper[i] % hosts;
            let mut seen = false;
            let mut c: usize = 0;
            while c < checked.len()
                invariant
                    c <= checked@.len(),
                    seen ==> exists|h: int| 0 <= h < checked@.len() && checked@[h] == host,
                decreases checked@.len() - c,
            {
                if checked[c] == host {
                    seen = true;
                }
                c = c + 1;
            }
            if seen {
                i = i + 1;
                continue;
            }
            checked.push(host);
            let ghost hostg = host as int;
            // the applications placed on the host
            let mut count: usize = 0;
            let mut a: usize = 0;
            while a < n
                invariant
                    a <= n,
                    n == g1@.len(),
                    hosts == res.len(),
                    hosts >= 1,
                    is_permutation(equivalence@, n as nat),
                    mapper@.len() == n,
                    hostg == host,
                    count == count_on(mapper@, equivalence@, hosts as nat, hostg, a as nat),
                    count <= a,
                decreases n - a,
            {
                if mapper[equivalence[a]] % hosts == host {
                    count = count + 1;
                }
                a = a + 1;
            }
            let load = self.get_actual_load(host);
            if self.max_load - load < count {
                proof {
                    assert(!host_fits(res, loads, self.load_limit(), g1@, mapper@, equivalence@, mapper@[i as int] as int % hosts as int));
                }
                return false;
            }
            // the bandwidth they need towards the others
            let mut total: u128 = 0;
            let mut a2: usize = 0;
            proof {
                g1.lemma_wf_size();
                lemma_size_bound(g1@.len());
            }
            while a2 < n
                invariant
                    a2 <= n,
                    n == g1@.len(),
                    n * n < 0x1_0000_0000_0000_0000_0000,
                    hosts == res.len(),
                    hosts >= 1,
                    g1.wf(),
                    is_square(g1@, n as nat),
                    is_permutation(equivalence@, n as nat),
                    mapper@.len() == n,
                    hostg == host,
                    total == demand(g1@, mapper@, equivalence@, hosts as nat, hostg, a2 as nat, n as nat),
                    total <= a2 * n * 0xffff_ffff,
                decreases n - a2,
            {
                if mapper[equivalence[a2]] % hosts == host {
                    let mut b: usize = 0;
                    let mut row: u128 = 0;
                    while b < n
                        invariant
                            b <= n,
                            a2 < n,
                            n == g1@.len(),
                            hosts >= 1,
                            g1.wf(),
                            is_square(g1@, n as nat),
                            is_permutation(equivalence@, n as nat),
                            mapper@.len() == n,
                            hostg == host,
                            row == demand_to(g1@, mapper@, equivalence@, hosts as nat, hostg, a2 as int, b as nat),
                            row <= b * 0xffff_ffff,
                        decreases n - b,
                    {
                        if mapper[equivalence[b]] % hosts != host {
                            row = row + g1.get(a2, b) as u128;
                        }
                        b = b + 1;
                    }
                    proof {
                        assert(total + row <= (a2 + 1) * n * 0xffff_ffff) by (nonlinear_arith)
                            requires
                                total <= a2 * n * 0xffff_ffff,
                                row <= n * 0xffff_ffff,
                        ;
                        assert((a2 + 1) * n * 0xffff_ffff < 0x1_0000_0000_0000_0000_0000_0000_0000_0000) by (nonlinear_arith)
                            requires
                                a2 + 1 <= n,
                                n * n < 0x1_0000_0000_0000_0000_0000,
                        ;
                    }
                    total = total + row;
                } else {
                    proof {
                        assert(total <= (a2 + 1) * n * 0xffff_ffff) by (nonlinear_arith)
                            requires
                                total <= a2 * n * 0xffff_ffff,
                        ;
                    }
                }
                a2 = a2 + 1;
            }
            // against what is left from the host to each host holding another application
            let mut k: usize = 0;
            while k < equivalence.len()
                invariant
                    self.wf(),
                    res == self.residual(),
                    hosts == res.len(),
                    host < hosts,
                    hostg == host,
                    loads == self.host_loads(),
                    n == g1@.len(),
                    total == demand(g1@, mapper@, equivalence@, hosts as nat, hostg, n as nat, n as nat),
                    hostg == mapper@[i as int] as int % hosts as int,
                    i < mapper@.len(),
                    k <= equivalence@.len(),
                    is_permutation(equivalence@, n as nat),
                    mapper@.len() == n,
                    forall|q: int|
                        0 <= q < k && #[trigger] (mapper@[equivalence@[q] as int] as int % hosts as int) != hostg
                            ==> total <= res[hostg][mapper@[equivalence@[q] as int] as int % hosts as int],
                decreases equivalence@.len() - k,
            {
                let other = mapper[equivalence[k]] % hosts;
                if other != host {
                    if total > self.residual_graph.get(host, other) as u128 {
                        proof {
                            assert(!host_fits(res, loads, self.load_limit(), g1@, mapper@, equivalence@, hostg)) by {
                                assert((mapper@[equivalence@[k as int] as int] as int % hosts as int) != hostg);
                            }
                            assert(!host_fits(res, loads, self.load_limit(), g1@, mapper@, equivalence@, mapper@[i as int] as int % hosts as int));
                        }
                        return false;
                    }
                }
                k = k + 1;
            }
            proof {
                assert(host_fits(res, loads, self.load_limit(), g1@, mapper@, equivalence@, hostg));
            }
            i = i + 1;
        }
        true
    }
}

impl Orchestrator {
    /// Looks for an order of the applications of `g1` that fits on the hosts of `mapper`
    /// (`residual` is what is left between them), trying the orders in lexicographic order;
    /// the graphs must have the same size. No order is found exactly when none fits.
    fn graph_isomorphism(&self, g1: &SymMatrix<u32>, residual: &SymMatrix<u32>, mapper: &Vec<usize>) -> (r: Result<
        Option<Vec<usize>>,
        Error,
    >)
        requires
            self.wf(),
            g1.wf(),
            residual.wf(),
            is_square(g1@, g1@.len()),
            mapper@.len() == g1@.len(),
        ensures
            r is Err <==> g1@.len() != residual@.len(),
            r matches Err(e) ==> e.kind == ErrorKind::InvalidData,
            r matches Ok(Some(eq)) ==> is_permutation(eq@, g1@.len()) && placement_fits(
                self.residual(),
                self.host_loads(),
                self.load_limit(),
                g1@,
                g1@.len(),
                mapper@,
                eq@,
            ),
            r matches Ok(None) ==> forall|p: Seq<usize>|
                #[trigger] is_permutation(p, g1@.len()) ==> !placement_fits(
                    self.residual(),
                    self.host_loads(),
                    self.load_limit(),
                    g1@,
                    g1@.len(),
                    mapper@,
                    p,
                ),
    {
        if g1.size() != residual.size() {
            return Err(Error::new("orchestrator", ErrorKind::InvalidData, "the graph must have the same size"));
        }
        let r = self.search_orders(g1, residual, mapper, Vec::new());
        proof {
            assert forall|p: Seq<usize>| #[trigger] is_permutation(p, g1@.len()) && r is None implies !placement_fits(
                self.residual(),
                self.host_loads(),
                self.load_limit(),
                g1@,
                g1@.len(),
                mapper@,
                p,
            ) by {
                assert(p.subrange(0, 0) =~= Seq::<usize>::empty());
            }
        }
        Ok(r)
    }

    /// Looks, among the orders of the applications that begin with `prefix`, taken in
    /// lexicographic order, for one whose placement fits.
    fn search_orders(&self, g1: &SymMatrix<u32>, residual: &SymMatrix<u32>, mapper: &Vec<usize>, prefix: Vec<usize>) -> (r:
        Option<Vec<usize>>)
        requires
            self.wf(),
            g1.wf(),
            is_square(g1@, g1@.len()),
            residual@.len() == g1@.len(),
            mapper@.len() == g1@.len(),
            prefix@.len() <= g1@.len(),
            forall|i: int| 0 <= i < prefix@.len() ==> #[trigger] prefix@[i] < g1@.len(),
            forall|i: int, j: int| 0 <= i < j < prefix@.len() ==> #[trigger] prefix@[i] != #[trigger] prefix@[j],
        ensures
            r matches Some(p) ==> is_permutation(p@, g1@.len()) && placement_fits(
                self.residual(),
                self.host_loads(),
                self.load_limit(),
                g1@,
                g1@.len(),
                mapper@,
                p@,
            ),
            r is None ==> forall|p: Seq<usize>|
                #[trigger] is_permutation(p, g1@.len()) && p.subrange(0, prefix@.len() as int) == prefix@
                    ==> !placement_fits(self.residual(), self.host_loads(), self.load_limit(), g1@, g1@.len(), mapper@, p),
        decreases g1@.len() - prefix@.len(),
    {
        let n = g1.size();
        let len = prefix.len();
        if len == n {
            proof {
                assert forall|p: Seq<usize>| #[trigger] is_permutation(p, g1@.len()) && p.subrange(0, len as int) == prefix@
                    implies p == prefix@ by {
                    assert(p =~= p.subrange(0, len as int));
                }
            }
            if self.verify_permutation(g1, residual, &prefix, mapper) {
                return Some(prefix);
            }
            return None;
        }
        let mut v: usize = 0;
        while v < n
            invariant
                self.wf(),
                g1.wf(),
                is_square(g1@, g1@.len()),
                residual@.len() == g1@.len(),
                mapper@.len() == g1@.len(),
                n == g1@.len(),
                len == prefix@.len(),
                len < n,
                v <= n,
                forall|i: int| 0 <= i < prefix@.len() ==> #[trigger] prefix@[i] < g1@.len(),
                forall|i: int, j: int| 0 <= i < j < prefix@.len() ==> #[trigger] prefix@[i] != #[trigger] prefix@[j],
                forall|p: Seq<usize>|
                    #[trigger] is_permutation(p, g1@.len()) && p.subrange(0, len as int) == prefix@ && p[len as int] < v
                        ==> !placement_fits(self.residual(), self.host_loads(), self.load_limit(), g1@, g1@.len(), mapper@, p),
            decreases n - v,
        {
            let mut used = false;
            let mut j: usize = 0;
            while j < len
                invariant
                    j <= len,
                    len == prefix@.len(),
                    used <==> exists|q: int| 0 <= q < j && prefix@[q] == v,
                decreases len - j,
            {
                if prefix[j] == v {
                    used = true;
                }
                j = j + 1;
            }
            if used {
                proof {
                    let q = choose|q: int| 0 <= q < len && prefix@[q] == v;
                    assert forall|p: Seq<usize>|
                        #[trigger] is_permutation(p, g1@.len()) && p.subrange(0, len as int) == prefix@ && p[len as int] < v + 1
                            implies !placement_fits(self.residual(), self.host_loads(), self.load_limit(), g1@, g1@.len(), mapper@, p) by {
                        if p[len as int] == v {
                            assert(p[q] == p.subrange(0, len as int)[q]);
                            assert(p[q] != p[len as int]);
                        }
                    }
                }
            } else {
                let mut next = prefix.clone();
                proof {
                    assert(next@ =~= prefix@);
                }
                next.push(v);
                proof {
                    assert forall|i: int, k: int| 0 <= i < k < next@.len() implies #[trigger] next@[i] != #[trigger] next@[k] by {
                        if k == len {
                            assert(next@[i] == prefix@[i]);
                        } else {
                            assert(next@[i] == prefix@[i]);
                            assert(next@[k] == prefix@[k]);
                        }
                    }
                    assert forall|i: int| 0 <= i < next@.len() implies #[trigger] next@[i] < g1@.len() by {
                        if i < len {
                            assert(next@[i] == prefix@[i]);
                        }
                    }
                }
                let ghost nv = next@;
                match self.search_orders(g1, residual, mapper, next) {
                    Some(p) => {
                        return Some(p);
                    },
                    None => {
                        proof {
                            assert forall|p: Seq<usize>|
                                #[trigger] is_permutation(p, g1@.len()) && p.subrange(0, len as int) == prefix@ && p[len as int] < v
                                    + 1 implies !placement_fits(
                                self.residual(),
                                self.host_loads(),
                                self.load_limit(),
                                g1@,
                                g1@.len(),
                                mapper@,
                                p,
                            ) by {
                                if p[len as int] == v {
                                    assert(p.subrange(0, len + 1) =~= nv);
                                }
                            }
                        }
                    },
                }
            }
            v = v + 1;
        }
        None
    }
}

/// `b` to the power `m`.
pub open spec fn pow_nat(b: nat, m: nat) -> nat
    decreases m,
{
    if m == 0 {
        1
    } else {
        b * pow_nat(b, (m - 1) as nat)
    }
}

/// The first `m` entries of `c` read as a number in base `b`, the first the most
/// significant.
pub open spec fn enc(c: Seq<usize>, m: nat, b: nat) -> nat
    decreases m,
{
    if m == 0 {
        0
    } else {
        enc(c, (m - 1) as nat, b) * b + c[m - 1] as nat
    }
}

proof fn lemma_enc_bound(c: Seq<usize>, m: nat, b: nat)
    requires
        m <= c.len(),
        forall|j: int| 0 <= j < m ==> #[trigger] c[j] < b,
    ensures
        enc(c, m, b) < pow_nat(b, m),
    decreases m,
{
    if m > 0 {
        lemma_enc_bound(c, (m - 1) as nat, b);
        let e = enc(c, (m - 1) as nat, b);
        let p = pow_nat(b, (m - 1) as nat);
        assert(e * b + c[m - 1] < p * b) by (nonlinear_arith)
            requires
                e < p,
                c[m - 1] < b,
                e >= 0,
        ;
        assert(pow_nat(b, m) == b * p);
        assert(p * b == b * p) by (nonlinear_arith);
    }
}

proof fn lemma_enc_increase(c: Seq<usize>, d: Seq<usize>, i: int, m: nat, b: nat)
    requires
        0 <= i < m <= c.len(),
        m <= d.len(),
        forall|j: int| 0 <= j < i ==> #[trigger] c[j] == d[j],
        d[i] == c[i] + 1,
        forall|j: int| 0 <= j < m ==> #[trigger] c[j] < b && d[j] < b,
    ensures
        enc(d, m, b) >= enc(c, m, b) + 1,
    decreases m,
{
    if m == i + 1 {
        lemma_enc_same(c, d, i as nat, b);
    } else {
        lemma_enc_increase(c, d, i, (m - 1) as nat, b);
        let ec = enc(c, (m - 1) as nat, b);
        let ed = enc(d, (m - 1) as nat, b);
        assert(ed * b + d[m - 1] >= ec * b + c[m - 1] + 1) by (nonlinear_arith)
            requires
                ed >= ec + 1,
                c[m - 1] < b,
                d[m - 1] >= 0,
                b >= 1,
        ;
    }
}

proof fn lemma_enc_same(c: Seq<usize>, d: Seq<usize>, m: nat, b: nat)
    requires
        m <= c.len(),
        m <= d.len(),
        forall|j: int| 0 <= j < m ==> #[trigger] c[j] == d[j],
    ensures
        enc(c, m, b) == enc(d, m, b),
    decreases m,
{
    if m > 0 {
        lemma_enc_same(c, d, (m - 1) as nat, b);
    }
}

/// `eq` places the applications of `g1` on hosts: there is a choice `c` of (possibly
/// repeated, by cloning) hosts and an order `p` of the applications such that the
/// placement fits, and application `a` goes to host `c[p[a]] % hosts`.
pub open spec fn fits_somewhere(
    residual: Seq<Seq<u32>>,
    loads: Seq<usize>,
    max_load: usize,
    g1: Seq<Seq<u32>>,
    eq: Seq<usize>,
) -> bool {
    exists|c: Seq<usize>, p: Seq<usize>|
        #[trigger] placement_fits(residual, loads, max_load, g1, g1.len(), c, p) && c.len() == g1.len()
            && is_permutation(p, g1.len()) && eq.len() == g1.len() && forall|a: int|
            0 <= a < g1.len() ==> #[trigger] eq[a] == c[p[a] as int] % residual.len() as usize
}

/// Whether two vectors of distinct values hold the same values: they have the same length
/// and each value of the first is in the second.
fn same_values(a: &Vec<usize>, b: &Vec<usize>) -> (r: bool)
    ensures
        r == (a@.len() == b@.len() && forall|i: int| 0 <= i < a@.len() ==> b@.contains(#[trigger] a@[i])),
{
    if a.len() != b.len() {
        return false;
    }
    let mut i: usize = 0;
    while i < a.len()
        invariant
            i <= a@.len(),
            a@.len() == b@.len(),
            forall|x: int| 0 <= x < i ==> b@.contains(#[trigger] a@[x]),
        decreases a@.len() - i,
    {
        let mut found = false;
        let mut j: usize = 0;
        while j < b.len()
            invariant
                i < a@.len(),
                j <= b@.len(),
                found <==> exists|y: int| 0 <= y < j && b@[y] == a@[i as int],
            decreases b@.len() - j,
        {
            if a[i] == b[j] {
                found = true;
            }
            j = j + 1;
        }
        if !found {
            proof {
                assert(!b@.contains(a@[i as int]));
            }
            return false;
        }
        i = i + 1;
    }
    true
}

/// How many values of `s` are at least `v`.
spec fn count_at_least(s: Seq<usize>, v: int) -> nat
    decreases s.len(),
{
    if s.len() == 0 {
        0
    } else {
        count_at_least(s.drop_last(), v) + if s.last() >= v {
            1nat
        } else {
            0nat
        }
    }
}

proof fn lemma_count_at_least_step(s: Seq<usize>, v: int, w: int)
    requires
        v < w,
        s.contains(v as usize),
        0 <= v <= usize::MAX,
    ensures
        count_at_least(s, w) < count_at_least(s, v),
    decreases s.len(),
{
    lemma_count_at_least_mono(s.drop_last(), v, w);
    if s.last() as int != v {
        let k = choose|k: int| 0 <= k < s.len() && s[k] == v as usize;
        assert(k != s.len() - 1);
        assert(s.drop_last()[k] == s[k]);
        assert(s.drop_last().contains(v as usize));
        lemma_count_at_least_step(s.drop_last(), v, w);
    }
}

proof fn lemma_count_at_least_mono(s: Seq<usize>, v: int, w: int)
    requires
        v <= w,
    ensures
        count_at_least(s, w) <= count_at_least(s, v),
    decreases s.len(),
{
    if s.len() > 0 {
        lemma_count_at_least_mono(s.drop_last(), v, w);
    }
}

proof fn lemma_count_at_least_le(s: Seq<usize>, v: int)
    ensures
        count_at_least(s, v) <= s.len(),
    decreases s.len(),
{
    if s.len() > 0 {
        lemma_count_at_least_le(s.drop_last(), v);
    }
}

impl Orchestrator {
    /// The hosts of a combination as a set: each value taken modulo the number of hosts,
    /// and raised by that number as long as it is already there, so that clones of a host
    /// are told apart.
    fn combination_set(&self, combination: &Vec<usize>) -> (set: Vec<usize>)
        requires
            self.wf(),
            self.residual().len() * (combination@.len() + 1) < usize::MAX,
        ensures
            set_of(set@, combination@, self.residual().len()),
    {
        let hosts = self.residual_graph.size();
        let mut set: Vec<usize> = Vec::new();
        let mut i: usize = 0;
        while i < combination.len()
            invariant
                hosts == self.residual().len(),
                hosts >= 1,
                hosts * (combination@.len() + 1) < usize::MAX,
                i <= combination@.len(),
                set@.len() == i,
                forall|q: int| 0 <= q < set@.len() ==> #[trigger] set@[q] < hosts * (i + 1),
                forall|p: int, q: int| 0 <= p < q < set@.len() ==> #[trigger] set@[p] != #[trigger] set@[q],
                forall|q: int| 0 <= q < set@.len() ==> #[trigger] (set@[q] as int % hosts as int) == combination@[q] as int % hosts as int,
            decreases combination@.len() - i,
        {
            let mut v = combination[i] % hosts;
            proof {
                assert((v as int % hosts as int) == combination@[i as int] as int % hosts as int) by (nonlinear_arith)
                    requires
                        v == combination@[i as int] % hosts,
                        hosts >= 1,
                ;
                assert(hosts * (i + 2) <= hosts * (combination@.len() + 1)) by (nonlinear_arith)
                    requires
                        i + 1 <= combination@.len(),
                        hosts >= 1,
                ;
                lemma_count_at_least_le(set@, v as int);
                let c = count_at_least(set@, v as int);
                assert(v + hosts * c < hosts * (i + 2)) by (nonlinear_arith)
                    requires
                        v < hosts,
                        c <= i,
                        hosts >= 1,
                ;
            }
            loop
                invariant
                    hosts >= 1,
                    hosts * (i + 2) < usize::MAX,
                    v as int + hosts * count_at_least(set@, v as int) < hosts * (i + 2),
                    forall|q: int| 0 <= q < set@.len() ==> #[trigger] set@[q] < hosts * (i + 1),
                    i < combination@.len(),
                    (v as int % hosts as int) == combination@[i as int] as int % hosts as int,
                ensures
                    forall|x: int| 0 <= x < set@.len() ==> set@[x] != v,
                decreases count_at_least(set@, v as int),
            {
                let mut present = false;
                let mut q: usize = 0;
                while q < set.len()
                    invariant
                        q <= set@.len(),
                        present <==> exists|x: int| 0 <= x < q && set@[x] == v,
                    decreases set@.len() - q,
                {
                    if set[q] == v {
                        present = true;
                    }
                    q = q + 1;
                }
                if !present {
                    break;
                }
                proof {
                    assert((v + hosts) as int % hosts as int == v as int % hosts as int) by (nonlinear_arith)
                        requires
                            hosts >= 1,
                    ;
                    lemma_count_at_least_step(set@, v as int, v + hosts);
                    let c = count_at_least(set@, v as int);
                    let c2 = count_at_least(set@, v + hosts);
                    assert(v + hosts + hosts * c2 <= v + hosts * c) by (nonlinear_arith)
                        requires
                            c2 + 1 <= c,
                            hosts >= 1,
                    ;
                    assert(hosts * c >= hosts) by (nonlinear_arith)
                        requires
                            c >= 1,
                            hosts >= 1,
                    ;
                }
                v = v + hosts;
            }
            proof {
                assert(hosts * count_at_least(set@, v as int) >= 0) by (nonlinear_arith)
                    requires
                        hosts >= 1,
                ;
                assert(forall|q: int| 0 <= q < set@.len() ==> #[trigger] set@[q] < hosts * (i + 2)) by {
                    assert(hosts * (i + 1) <= hosts * (i + 2)) by (nonlinear_arith)
                        requires
                            hosts >= 1,
                    ;
                }
            }
            set.push(v);
            i = i + 1;
        }
        set
    }

    /// Looks for a placement of the applications of `g1` on the hosts, each host standing
    /// `clones + 1` times, then with one more clone each time, at most `max_depth` times.
    /// The combinations of hosts are tried in increasing order, each set of hosts once and
    /// only when none of its hosts is at its load limit; the first that admits an order of
    /// the applications that fits gives the placement. No placement is found only when no
    /// order fits on any choice of hosts of these rounds.
    fn find_iso_internal(&self, g1: &SymMatrix<u32>, clones: usize, tested_comb: Vec<Vec<usize>>, max_depth: usize) -> (r: Result<
        Option<Vec<usize>>,
        Error,
    >)
        requires
            self.wf(),
            g1.wf(),
            is_square(g1@, g1@.len()),
            g1@.len() >= 1,
            self.residual().len() * (clones + max_depth + 1) + g1@.len() < usize::MAX,
            self.residual().len() * (g1@.len() + 1) < usize::MAX,
            forall|t: int|
                0 <= t < tested_comb@.len() ==> exhausted(
                    self.residual(),
                    self.host_loads(),
                    self.load_limit(),
                    g1@,
                    #[trigger] tested_comb@[t]@,
                ),
            forall|t: int| 0 <= t < tested_comb@.len() ==> #[trigger] tested_comb@[t]@.len() == g1@.len(),
        ensures
            r is Ok,
            r matches Ok(Some(eq)) ==> fits_somewhere(self.residual(), self.host_loads(), self.load_limit(), g1@, eq@),
            r matches Ok(None) ==> forall|d: nat, c: Seq<usize>|
                d < max_depth && #[trigger] round_choice(self.residual().len(), (clones + d) as nat, g1@.len(), c) ==> no_fit(
                    self.residual(),
                    self.host_loads(),
                    self.load_limit(),
                    g1@,
                    c,
                ),
        decreases max_depth,
    {
        if max_depth == 0 {
            return Ok(None);
        }
        let mut tested_comb = tested_comb;
        let hosts = self.residual_graph.size();
        let ghost res = self.residual();
        let ghost lds = self.host_loads();
        let ghost ml = self.load_limit();
        proof {
            assert(hosts * clones + hosts <= hosts * (clones + max_depth + 1)) by (nonlinear_arith)
                requires
                    hosts >= 1,
                    max_depth >= 1,
            ;
            assert(hosts * (clones + 1) == hosts * clones + hosts) by (nonlinear_arith);
            g1.lemma_wf_size();
        }
        let mut searching_set_size = hosts - 1;
        if clones > 0 {
            searching_set_size = searching_set_size + hosts * clones;
        }
        let k = g1.size();
        let mut combination: Vec<usize> = Vec::new();
        let mut j: usize = 0;
        while j < k
            invariant
                j <= k,
                combination@.len() == j,
                forall|q: int| 0 <= q < j ==> #[trigger] combination@[q] == q,
            decreases k - j,
        {
            combination.push(j);
            j = j + 1;
        }
        let ghost n = (searching_set_size + 1) as nat;
        proof {
            assert(n == hosts * (clones + 1));
            assert(is_combination(combination@, k as nat, n) || k > searching_set_size);
            if k > searching_set_size {
                assert(combination@ =~= Seq::new(k as nat, |i: int| i as usize));
            }
            assert forall|c: Seq<usize>| is_combination(c, k as nat, n) implies !#[trigger] lex_less(c, combination@) by {
                if lex_less(c, combination@) {
                    let m = choose|m: int| #[trigger] first_below(c, combination@, m);
                    lemma_combination_low(c, k as nat, n, m);
                }
            }
        }
        loop
            invariant
                self.wf(),
                g1.wf(),
                is_square(g1@, g1@.len()),
                k == g1@.len(),
                k >= 1,
                crate::matrix::triangle_len(k as nat) <= usize::MAX,
                hosts * (k + 1) < usize::MAX,
                hosts == self.residual().len(),
                res == self.residual(),
                lds == self.host_loads(),
                ml == self.load_limit(),
                n == searching_set_size + 1,
                n == hosts * (clones + 1),
                searching_set_size < usize::MAX,
                combination@.len() == k,
                k <= searching_set_size ==> is_combination(combination@, k as nat, n),
                k > searching_set_size ==> combination@ == Seq::new(k as nat, |i: int| i as usize),
                forall|c: Seq<usize>|
                    is_combination(c, k as nat, n) && #[trigger] lex_less(c, combination@) ==> no_fit(res, lds, ml, g1@, c),
                forall|t: int| 0 <= t < tested_comb@.len() ==> exhausted(res, lds, ml, g1@, #[trigger] tested_comb@[t]@),
                forall|t: int| 0 <= t < tested_comb@.len() ==> #[trigger] tested_comb@[t]@.len() == g1@.len(),
            ensures
                forall|c: Seq<usize>| #[trigger] round_choice(hosts as nat, clones as nat, k as nat, c) ==> no_fit(res, lds, ml, g1@, c),
                forall|t: int| 0 <= t < tested_comb@.len() ==> exhausted(res, lds, ml, g1@, #[trigger] tested_comb@[t]@),
                forall|t: int| 0 <= t < tested_comb@.len() ==> #[trigger] tested_comb@[t]@.len() == g1@.len(),
            decreases pow_nat(n, k as nat) - enc(combination@, k as nat, n),
        {
            let combination_set = self.combination_set(&combination);
            let mut remaining = true;
            let mut q: usize = 0;
            while q < combination_set.len()
                invariant_except_break
                    remaining,
                invariant
                    self.wf(),
                    hosts == self.residual().len(),
                    lds == self.host_loads(),
                    ml == self.load_limit(),
                    q <= combination_set@.len(),
                ensures
                    !remaining ==> exists|x: int|
                        0 <= x < combination_set@.len() && lds[combination_set@[x] as int % hosts as int] >= ml,
                decreases combination_set@.len() - q,
            {
                let index = combination_set[q] % hosts;
                let below = self.get_actual_load(index) < self.max_load;
                remaining = remaining && below;
                if !remaining {
                    break;
                }
                q = q + 1;
            }
            let mut already = false;
            let mut t: usize = 0;
            while t < tested_comb.len()
                invariant
                    t <= tested_comb@.len(),
                    already ==> exists|x: int|
                        0 <= x < tested_comb@.len() && #[trigger] tested_comb@[x]@.len() == combination_set@.len() && forall|i: int|
                            0 <= i < tested_comb@[x]@.len() ==> combination_set@.contains(#[trigger] tested_comb@[x]@[i]),
                decreases tested_comb@.len() - t,
            {
                if same_values(&tested_comb[t], &combination_set) {
                    already = true;
                }
                t = t + 1;
            }
            proof {
                if !remaining {
                    let x = choose|x: int| 0 <= x < combination_set@.len() && lds[combination_set@[x] as int % hosts as int] >= ml;
                    assert((combination_set@[x] as int % hosts as int) == combination@[x] as int % hosts as int);
                    lemma_full_host_no_fit(res, lds, ml, g1@, combination@, x);
                } else if already {
                    let x = choose|x: int|
                        0 <= x < tested_comb@.len() && #[trigger] tested_comb@[x]@.len() == combination_set@.len() && forall|i: int|
                            0 <= i < tested_comb@[x]@.len() ==> combination_set@.contains(#[trigger] tested_comb@[x]@[i]);
                    let tv = tested_comb@[x]@;
                    assert(exhausted(res, lds, ml, g1@, tv));
                    let c0 = choose|c0: Seq<usize>| #[trigger] set_of(tv, c0, res.len()) && no_fit(res, lds, ml, g1@, c0);
                    lemma_same_hosts_no_fit(res, lds, ml, g1@, tv, c0, combination_set@, combination@);
                }
            }
            if !already && remaining {
                let cref = &combination;
                let cell = |row: usize, col: usize| -> (v: u32)
                    requires
                        row < cref@.len(),
                        col < cref@.len(),
                        self.wf(),
                    {
                        let i1 = cref[row] % self.residual_graph.size();
                        let i2 = cref[col] % self.residual_graph.size();
                        self.residual_graph.get(i1, i2)
                    };
                let sub_graph = SymMatrix::new_fn(combination.len(), cell);
                let result = self.graph_isomorphism(g1, &sub_graph, &combination);
                match result {
                    Ok(None) => {
                        proof {
                            assert(set_of(combination_set@, combination@, res.len()));
                        }
                        let ghost before = tested_comb@;
                        tested_comb.push(combination_set);
                        proof {
                            assert forall|t: int| 0 <= t < tested_comb@.len() implies exhausted(
                                res,
                                lds,
                                ml,
                                g1@,
                                #[trigger] tested_comb@[t]@,
                            ) && tested_comb@[t]@.len() == g1@.len() by {
                                if t < before.len() {
                                    assert(tested_comb@[t] == before[t]);
                                }
                            }
                        }
                    },
                    Ok(Some(eq)) => {
                        let mut equivalence = eq;
                        let ghost p = equivalence@;
                        let mut a: usize = 0;
                        while a < equivalence.len()
                            invariant
                                a <= equivalence@.len(),
                                equivalence@.len() == p.len(),
                                is_permutation(p, k as nat),
                                combination@.len() == k,
                                hosts >= 1,
                                forall|b: int| a <= b < p.len() ==> #[trigger] equivalence@[b] == p[b],
                                forall|b: int| 0 <= b < a ==> #[trigger] equivalence@[b] == combination@[p[b] as int] % hosts,
                            decreases equivalence@.len() - a,
                        {
                            let value = combination[equivalence[a]] % hosts;
                            equivalence.set(a, value);
                            a = a + 1;
                        }
                        proof {
                            assert(placement_fits(self.residual(), self.host_loads(), self.load_limit(), g1@, g1@.len(), combination@, p));
                        }
                        return Ok(Some(equivalence));
                    },
                    Err(_) => {},
                }
            }
            proof {
                assert(no_fit(res, lds, ml, g1@, combination@));
            }
            if k > searching_set_size {
                proof {
                    assert forall|c: Seq<usize>| #[trigger] round_choice(hosts as nat, clones as nat, k as nat, c) implies no_fit(
                        res,
                        lds,
                        ml,
                        g1@,
                        c,
                    ) by {
                        assert(c == combination@);
                    }
                }
                break;
            }
            let ghost before = combination@;
            match next_comb(combination.clone(), k, searching_set_size + 1) {
                Some(comb) => {
                    proof {
                        let i = choose|i: int| #[trigger] growable(before, k as nat, n, i) && comb@ == successor(before, k as nat, i);
                        assert forall|q: int| 0 <= q < k implies #[trigger] before[q] < n + 1 && comb@[q] < n + 1 by {}
                        lemma_enc_increase(before, comb@, i, k as nat, n);
                        lemma_enc_bound(comb@, k as nat, n);
                        assert forall|c: Seq<usize>| is_combination(c, k as nat, n) && #[trigger] lex_less(c, comb@) implies no_fit(
                            res,
                            lds,
                            ml,
                            g1@,
                            c,
                        ) by {
                            if c != before {
                                lemma_lex_total(c, before);
                                if lex_less(before, c) {
                                    assert(!lex_less(c, comb@));
                                }
                            }
                        }
                    }
                    combination = comb;
                },
                None => {
                    proof {
                        assert forall|c: Seq<usize>| #[trigger] round_choice(hosts as nat, clones as nat, k as nat, c) implies no_fit(
                            res,
                            lds,
                            ml,
                            g1@,
                            c,
                        ) by {
                            if c != before {
                                lemma_lex_total(c, before);
                                lemma_last_is_last(before, c, k as nat, n);
                            }
                        }
                    }
                    break;
                },
            }
        }
        proof {
            assert(clones + max_depth + 1 <= hosts * (clones + max_depth + 1)) by (nonlinear_arith)
                requires
                    hosts >= 1,
            ;
            assert(hosts * (clones + 1 + (max_depth - 1) + 1) == hosts * (clones + max_depth + 1));
        }
        let r = self.find_iso_internal(g1, clones + 1, tested_comb, max_depth - 1);
        proof {
            assert forall|d: nat, c: Seq<usize>|
                d < max_depth && #[trigger] round_choice(self.residual().len(), (clones + d) as nat, g1@.len(), c) && r is Ok && r->Ok_0 is None
                    implies no_fit(self.residual(), self.host_loads(), self.load_limit(), g1@, c) by {
                if d > 0 {
                    let d2 = (d - 1) as nat;
                    assert((clones + 1 + d2) as nat == (clones + d) as nat);
                    assert(round_choice(self.residual().len(), (clones + 1 + d2) as nat, g1@.len(), c));
                }
            }
        }
        r
    }

    /// Looks for a placement of the applications of the emulation matrix on the hosts:
    /// hosts stand once, or as many times as needed for the applications to outnumber them
    /// no more, and then with up to four more clones each.
    pub fn find_isomorphism(&self, graph: SymMatrix<u32>) -> (r: Result<Option<Vec<usize>>, Error>)
        requires
            self.wf(),
            graph.wf(),
            graph@.len() >= 1,
            self.residual().len() * (graph@.len() + 7) + graph@.len() < usize::MAX,
        ensures
            r is Ok,
            r matches Ok(Some(eq)) ==> fits_somewhere(self.residual(), self.host_loads(), self.load_limit(), graph@, eq@),
            r matches Ok(None) ==> forall|d: nat, c: Seq<usize>|
                d < 5 && #[trigger] round_choice(
                    self.residual().len(),
                    first_clones(graph@.len(), self.residual().len()) + d,
                    graph@.len(),
                    c,
                ) ==> no_fit(self.residual(), self.host_loads(), self.load_limit(), graph@, c),
    {
        proof {
            graph.lemma_view_square_symmetric();
        }
        let hosts = self.residual_graph.size();
        let clones: usize = if graph.size() > hosts {
            graph.size() - hosts
        } else {
            0
        };
        proof {
            assert(hosts * (clones + 5 + 1) <= hosts * (graph@.len() + 7)) by (nonlinear_arith)
                requires
                    clones <= graph@.len(),
                    hosts >= 1,
            ;
            assert(hosts * (graph@.len() + 1) <= hosts * (graph@.len() + 7)) by (nonlinear_arith)
                requires
                    hosts >= 1,
            ;
        }
        self.find_iso_internal(&graph, clones, Vec::new(), 5)
    }
}

/// The size of a stored symmetric matrix is small enough for its squared size to fit in 80
/// bits.
proof fn lemma_size_bound(n: nat)
    requires
        crate::matrix::triangle_len(n) <= usize::MAX,
    ensures
        n * n < 0x1_0000_0000_0000_0000_0000,
{
    crate::matrix::lemma_triangle_len(n);
    assert(n * n <= n * (n + 1)) by (nonlinear_arith);
}


// ------------------------------------------------------------------------------------------
// The bandwidth and load an emulation takes on the cluster.

/// The bandwidth that application `a` needs towards those of the first `k` applications
/// that `eq` places on host `y`.
pub open spec fn need_to(g: Seq<Seq<u32>>, eq: Seq<usize>, y: int, a: int, k: nat) -> nat
    decreases k,
{
    if k == 0 {
        0
    } else {
        need_to(g, eq, y, a, (k - 1) as nat) + if eq[k - 1] as int == y {
            g[a][k - 1] as nat
        } else {
            0nat
        }
    }
}

/// The bandwidth that those of the first `k` applications placed on host `x` need towards
/// the applications placed on host `y`.
pub open spec fn pair_need(g: Seq<Seq<u32>>, eq: Seq<usize>, x: int, y: int, k: nat) -> nat
    decreases k,
{
    if k == 0 {
        0
    } else {
        pair_need(g, eq, x, y, (k - 1) as nat) + if eq[k - 1] as int == x {
            need_to(g, eq, y, k - 1, eq.len())
        } else {
            0nat
        }
    }
}

/// The bandwidth an emulation placed by `eq` takes between two distinct hosts: what the
/// applications on the first of the two need towards those on the second.
pub open spec fn between(g: Seq<Seq<u32>>, eq: Seq<usize>, x: int, y: int) -> nat {
    if x == y {
        0
    } else if x < y {
        pair_need(g, eq, x, y, eq.len())
    } else {
        pair_need(g, eq, y, x, eq.len())
    }
}

/// How many of the first `k` applications `eq` places on host `h`.
pub open spec fn placed_on(eq: Seq<usize>, h: int, k: nat) -> nat
    decreases k,
{
    if k == 0 {
        0
    } else {
        placed_on(eq, h, (k - 1) as nat) + if eq[k - 1] as int == h {
            1nat
        } else {
            0nat
        }
    }
}

/// The bandwidth left between the hosts once the emulation placed by `eq` takes its part.
pub open spec fn reserved(r: Seq<Seq<u32>>, g: Seq<Seq<u32>>, eq: Seq<usize>) -> Seq<Seq<u32>> {
    Seq::new(r.len(), |x: int| Seq::new(r[x].len(), |y: int| (r[x][y] - between(g, eq, x, y)) as u32))
}

/// The bandwidth left between the hosts once the emulation placed by `eq` gives its part back.
pub open spec fn released(r: Seq<Seq<u32>>, g: Seq<Seq<u32>>, eq: Seq<usize>) -> Seq<Seq<u32>> {
    Seq::new(r.len(), |x: int| Seq::new(r[x].len(), |y: int| (r[x][y] + between(g, eq, x, y)) as u32))
}

/// The loads of the hosts with the applications placed by `eq` added.
pub open spec fn loaded(l: Seq<usize>, eq: Seq<usize>) -> Seq<usize> {
    Seq::new(l.len(), |h: int| (l[h] + placed_on(eq, h, eq.len())) as usize)
}

/// The loads of the hosts with the applications placed by `eq` taken away.
pub open spec fn unloaded(l: Seq<usize>, eq: Seq<usize>) -> Seq<usize> {
    Seq::new(l.len(), |h: int| (l[h] - placed_on(eq, h, eq.len())) as usize)
}

/// The bandwidth the recorded emulations take between two hosts.
pub open spec fn total_between(recs: Seq<(u128, Seq<Seq<u32>>, Seq<usize>)>, x: int, y: int) -> nat
    decreases recs.len(),
{
    if recs.len() == 0 {
        0
    } else {
        total_between(recs.drop_last(), x, y) + between(recs.last().1, recs.last().2, x, y)
    }
}

/// The applications the recorded emulations place on a host.
pub open spec fn total_placed(recs: Seq<(u128, Seq<Seq<u32>>, Seq<usize>)>, h: int) -> nat
    decreases recs.len(),
{
    if recs.len() == 0 {
        0
    } else {
        total_placed(recs.drop_last(), h) + placed_on(recs.last().2, h, recs.last().2.len())
    }
}

/// The index of the first recorded emulation with identifier `id`.
pub open spec fn record_of(recs: Seq<(u128, Seq<Seq<u32>>, Seq<usize>)>, id: u128) -> Option<int> {
    if exists|k: int| 0 <= k < recs.len() && (#[trigger] recs[k]).0 == id {
        Some(choose|k: int| 0 <= k < recs.len() && (#[trigger] recs[k]).0 == id && forall|j: int| 0 <= j < k ==> (#[trigger] recs[j]).0 != id)
    } else {
        None
    }
}

proof fn lemma_need_mono(g: Seq<Seq<u32>>, eq: Seq<usize>, y: int, a: int, k1: nat, k2: nat)
    requires
        k1 <= k2,
    ensures
        need_to(g, eq, y, a, k1) <= need_to(g, eq, y, a, k2),
    decreases k2,
{
    if k1 < k2 {
        lemma_need_mono(g, eq, y, a, k1, (k2 - 1) as nat);
    }
}

proof fn lemma_pair_mono(g: Seq<Seq<u32>>, eq: Seq<usize>, x: int, y: int, k1: nat, k2: nat)
    requires
        k1 <= k2,
    ensures
        pair_need(g, eq, x, y, k1) <= pair_need(g, eq, x, y, k2),
    decreases k2,
{
    if k1 < k2 {
        lemma_pair_mono(g, eq, x, y, k1, (k2 - 1) as nat);
    }
}

proof fn lemma_placed_mono(eq: Seq<usize>, h: int, k1: nat, k2: nat)
    requires
        k1 <= k2,
    ensures
        placed_on(eq, h, k1) <= placed_on(eq, h, k2),
    decreases k2,
{
    if k1 < k2 {
        lemma_placed_mono(eq, h, k1, (k2 - 1) as nat);
    }
}

/// With `eq` giving the places that `mapper` and `equivalence` give, the bandwidth an
/// application needs towards another host is part of what it needs towards all the others.
proof fn lemma_need_in_demand(
    g: Seq<Seq<u32>>,
    eq: Seq<usize>,
    mapper: Seq<usize>,
    equivalence: Seq<usize>,
    hosts: nat,
    x: int,
    y: int,
    a: int,
    k: nat,
)
    requires
        x != y,
        k <= eq.len(),
        forall|b: int| 0 <= b < eq.len() ==> #[trigger] eq[b] as int == place_of(mapper, equivalence, hosts, b),
    ensures
        need_to(g, eq, y, a, k) <= demand_to(g, mapper, equivalence, hosts, x, a, k),
    decreases k,
{
    if k > 0 {
        lemma_need_in_demand(g, eq, mapper, equivalence, hosts, x, y, a, (k - 1) as nat);
        assert(eq[k - 1] as int == place_of(mapper, equivalence, hosts, k - 1));
    }
}

/// The bandwidth the applications of host `x` need towards host `y` is part of the demand
/// of host `x`.
proof fn lemma_pair_in_demand(
    g: Seq<Seq<u32>>,
    eq: Seq<usize>,
    mapper: Seq<usize>,
    equivalence: Seq<usize>,
    hosts: nat,
    x: int,
    y: int,
    k: nat,
)
    requires
        x != y,
        k <= eq.len(),
        forall|b: int| 0 <= b < eq.len() ==> #[trigger] eq[b] as int == place_of(mapper, equivalence, hosts, b),
    ensures
        pair_need(g, eq, x, y, k) <= demand(g, mapper, equivalence, hosts, x, k, eq.len()),
    decreases k,
{
    if k > 0 {
        lemma_pair_in_demand(g, eq, mapper, equivalence, hosts, x, y, (k - 1) as nat);
        assert(eq[k - 1] as int == place_of(mapper, equivalence, hosts, k - 1));
        lemma_need_in_demand(g, eq, mapper, equivalence, hosts, x, y, k - 1, eq.len());
    }
}

/// Counting the applications placed on a host through `eq` or through `mapper` and
/// `equivalence` gives the same number.
proof fn lemma_placed_count(eq: Seq<usize>, mapper: Seq<usize>, equivalence: Seq<usize>, hosts: nat, h: int, k: nat)
    requires
        k <= eq.len(),
        forall|b: int| 0 <= b < eq.len() ==> #[trigger] eq[b] as int == place_of(mapper, equivalence, hosts, b),
    ensures
        placed_on(eq, h, k) == count_on(mapper, equivalence, hosts, h, k),
    decreases k,
{
    if k > 0 {
        lemma_placed_count(eq, mapper, equivalence, hosts, h, (k - 1) as nat);
        assert(eq[k - 1] as int == place_of(mapper, equivalence, hosts, k - 1));
    }
}

/// No application on `y` among the first `k`: none of them needs anything towards `y`.
proof fn lemma_need_none(g: Seq<Seq<u32>>, eq: Seq<usize>, y: int, a: int, k: nat)
    requires
        forall|b: int| 0 <= b < k ==> #[trigger] eq[b] as int != y,
    ensures
        need_to(g, eq, y, a, k) == 0,
    decreases k,
{
    if k > 0 {
        lemma_need_none(g, eq, y, a, (k - 1) as nat);
    }
}

/// No application on `x` among the first `k`: nothing is needed from `x`.
proof fn lemma_pair_none(g: Seq<Seq<u32>>, eq: Seq<usize>, x: int, y: int, k: nat)
    requires
        forall|b: int| 0 <= b < k ==> #[trigger] eq[b] as int != x,
    ensures
        pair_need(g, eq, x, y, k) == 0,
    decreases k,
{
    if k > 0 {
        lemma_pair_none(g, eq, x, y, (k - 1) as nat);
    }
}

/// A placement that fits leaves room between any two hosts for what it takes there, and on
/// each host for the applications it places there.
proof fn lemma_fits_room(
    residual: Seq<Seq<u32>>,
    loads: Seq<usize>,
    max_load: usize,
    g: Seq<Seq<u32>>,
    eq: Seq<usize>,
    x: int,
    y: int,
)
    requires
        fits_somewhere(residual, loads, max_load, g, eq),
        residual.len() <= usize::MAX,
        0 <= x < residual.len(),
        0 <= y < residual.len(),
    ensures
        eq.len() == g.len(),
        forall|a: int| 0 <= a < eq.len() ==> #[trigger] eq[a] < residual.len(),
        x != y ==> pair_need(g, eq, x, y, eq.len()) <= residual[x][y],
        (exists|a: int| 0 <= a < eq.len() && #[trigger] eq[a] as int == x) ==> placed_on(eq, x, eq.len()) <= max_load
            - loads[x],
{
    let (c, p) = choose|c: Seq<usize>, p: Seq<usize>|
        #[trigger] placement_fits(residual, loads, max_load, g, g.len(), c, p) && c.len() == g.len()
            && is_permutation(p, g.len()) && eq.len() == g.len() && forall|a: int|
            0 <= a < g.len() ==> #[trigger] eq[a] == c[p[a] as int] % residual.len() as usize;
    let hosts = residual.len();
    assert forall|b: int| 0 <= b < eq.len() implies #[trigger] eq[b] as int == place_of(c, p, hosts, b) by {
        assert(eq[b] == c[p[b] as int] % residual.len() as usize);
    }
    if exists|a: int| 0 <= a < eq.len() && #[trigger] eq[a] as int == x {
        let a = choose|a: int| 0 <= a < eq.len() && #[trigger] eq[a] as int == x;
        assert(0 <= p[a] < g.len());
        assert(host_fits(residual, loads, max_load, g, c, p, c[p[a] as int] as int % residual.len() as int));
        assert(c[p[a] as int] as int % residual.len() as int == x);
        lemma_placed_count(eq, c, p, hosts, x, eq.len());
        if x == y {
        } else if exists|b: int| 0 <= b < eq.len() && #[trigger] eq[b] as int == y {
            let b = choose|b: int| 0 <= b < eq.len() && #[trigger] eq[b] as int == y;
            assert(c[p[b] as int] as int % hosts as int == y);
            lemma_pair_in_demand(g, eq, c, p, hosts, x, y, eq.len());
        } else {
            assert forall|b: int| 0 <= b < eq.len() implies #[trigger] eq[b] as int != y by {}
            lemma_pair_zero_row(g, eq, x, y, eq.len());
        }
    } else {
        assert forall|b: int| 0 <= b < eq.len() implies #[trigger] eq[b] as int != x by {}
        lemma_pair_none(g, eq, x, y, eq.len());
    }
}

/// No application on `y` at all: nothing is needed towards `y`.
proof fn lemma_pair_zero_row(g: Seq<Seq<u32>>, eq: Seq<usize>, x: int, y: int, k: nat)
    requires
        k <= eq.len(),
        forall|b: int| 0 <= b < eq.len() ==> #[trigger] eq[b] as int != y,
    ensures
        pair_need(g, eq, x, y, k) == 0,
    decreases k,
{
    if k > 0 {
        lemma_pair_zero_row(g, eq, x, y, (k - 1) as nat);
        lemma_need_none(g, eq, y, k - 1, eq.len());
    }
}

/// Taking a recorded emulation out of the records takes its part out of the totals.
proof fn lemma_total_remove(recs: Seq<(u128, Seq<Seq<u32>>, Seq<usize>)>, k: int, x: int, y: int, h: int)
    requires
        0 <= k < recs.len(),
    ensures
        total_between(recs, x, y) == total_between(recs.remove(k), x, y) + between(recs[k].1, recs[k].2, x, y),
        total_placed(recs, h) == total_placed(recs.remove(k), h) + placed_on(recs[k].2, h, recs[k].2.len()),
    decreases recs.len(),
{
    if k == recs.len() - 1 {
        assert(recs.remove(k) =~= recs.drop_last());
    } else {
        lemma_total_remove(recs.drop_last(), k, x, y, h);
        assert(recs.remove(k).drop_last() =~= recs.drop_last().remove(k));
        assert(recs.remove(k).last() == recs.last());
        assert(recs.drop_last()[k] == recs[k]);
    }
}

/// Giving back what an emulation took leaves the bandwidth and the loads as they were:
/// `released` undoes `reserved` where the emulation fits, and `unloaded` undoes `loaded`.
pub proof fn lemma_release_undoes_reserve(r: Seq<Seq<u32>>, l: Seq<usize>, g: Seq<Seq<u32>>, eq: Seq<usize>)
    requires
        is_square(r, r.len()),
        forall|x: int, y: int| 0 <= x < r.len() && 0 <= y < r.len() ==> #[trigger] between(g, eq, x, y) <= r[x][y],
        forall|h: int| 0 <= h < l.len() ==> #[trigger] l[h] + placed_on(eq, h, eq.len()) <= usize::MAX,
    ensures
        released(reserved(r, g, eq), g, eq) == r,
        unloaded(loaded(l, eq), eq) == l,
{
    let m = released(reserved(r, g, eq), g, eq);
    assert forall|x: int| 0 <= x < r.len() implies #[trigger] m[x] == r[x] by {
        assert forall|y: int| 0 <= y < r.len() implies #[trigger] m[x][y] == r[x][y] by {
            assert(between(g, eq, x, y) <= r[x][y]);
        }
        assert(m[x] =~= r[x]);
    }
    assert(m =~= r);
    let u = unloaded(loaded(l, eq), eq);
    assert forall|h: int| 0 <= h < l.len() implies #[trigger] u[h] == l[h] by {
        assert(l[h] + placed_on(eq, h, eq.len()) <= usize::MAX);
    }
    assert(u =~= l);
}


/// Whether the cell `(i, j)` is among those the loops over the host pairs have handled,
/// the pair `(x, y)` being the next one.
spec fn pair_done(i: int, j: int, x: int, y: int) -> bool {
    let lo = if i < j { i } else { j };
    let hi = if i < j { j } else { i };
    lo < x || (lo == x && hi < y)
}

/// What the applications on host `x` need towards those on host `y`.
fn pair_amount(apps: &SymMatrix<u32>, eq: &Vec<usize>, x: usize, y: usize) -> (r: u32)
    requires
        apps.wf(),
        apps@.len() == eq@.len(),
        pair_need(apps@, eq@, x as int, y as int, eq@.len()) <= u32::MAX,
    ensures
        r == pair_need(apps@, eq@, x as int, y as int, eq@.len()),
{
    let n = eq.len();
    let mut acc: u32 = 0;
    let mut a: usize = 0;
    while a < n
        invariant
            a <= n,
            n == eq@.len(),
            apps.wf(),
            apps@.len() == n,
            acc == pair_need(apps@, eq@, x as int, y as int, a as nat),
            pair_need(apps@, eq@, x as int, y as int, n as nat) <= u32::MAX,
        decreases n - a,
    {
        if eq[a] == x {
            proof {
                lemma_pair_mono(apps@, eq@, x as int, y as int, (a + 1) as nat, n as nat);
            }
            let mut row: u32 = 0;
            let mut b: usize = 0;
            while b < n
                invariant
                    b <= n,
                    a < n,
                    n == eq@.len(),
                    apps.wf(),
                    apps@.len() == n,
                    row == need_to(apps@, eq@, y as int, a as int, b as nat),
                    acc + need_to(apps@, eq@, y as int, a as int, n as nat) <= u32::MAX,
                decreases n - b,
            {
                if eq[b] == y {
                    proof {
                        lemma_need_mono(apps@, eq@, y as int, a as int, (b + 1) as nat, n as nat);
                    }
                    row = row + apps.get(a, b);
                }
                b = b + 1;
            }
            acc = acc + row;
        }
        a = a + 1;
    }
    acc
}

/// Takes from the bandwidth left between the hosts what the emulation placed by `eq`
/// needs between them.
fn take_bandwidth(res: &mut SymMatrix<u32>, apps: &SymMatrix<u32>, eq: &Vec<usize>)
    requires
        old(res).wf(),
        apps.wf(),
        apps@.len() == eq@.len(),
        forall|x: int, y: int|
            0 <= x < old(res)@.len() && 0 <= y < old(res)@.len() ==> #[trigger] between(apps@, eq@, x, y) <= old(res)@[x][y],
    ensures
        final(res).wf(),
        final(res)@ == reserved(old(res)@, apps@, eq@),
{
    proof {
        res.lemma_view_square_symmetric();
    }
    let ghost r0 = res@;
    let h = res.size();
    let mut x: usize = 0;
    while x < h
        invariant
            x <= h,
            h == r0.len(),
            is_square(r0, h as nat),
            crate::matrix::is_symmetric(r0),
            res.wf(),
            res@.len() == h,
            is_square(res@, h as nat),
            apps.wf(),
            apps@.len() == eq@.len(),
            forall|i: int, j: int| 0 <= i < h && 0 <= j < h ==> #[trigger] between(apps@, eq@, i, j) <= r0[i][j],
            forall|i: int, j: int|
                0 <= i < h && 0 <= j < h ==> #[trigger] res@[i][j] == if pair_done(i, j, x as int, x as int) {
                    reserved(r0, apps@, eq@)[i][j]
                } else {
                    r0[i][j]
                },
        decreases h - x,
    {
        proof {
            assert(reserved(r0, apps@, eq@)[x as int][x as int] == r0[x as int][x as int]);
        }
        let mut y: usize = x + 1;
        while y < h
            invariant
                x < h,
                x + 1 <= y <= h,
                h == r0.len(),
                is_square(r0, h as nat),
                crate::matrix::is_symmetric(r0),
                res.wf(),
                res@.len() == h,
                is_square(res@, h as nat),
                apps.wf(),
                apps@.len() == eq@.len(),
                forall|i: int, j: int| 0 <= i < h && 0 <= j < h ==> #[trigger] between(apps@, eq@, i, j) <= r0[i][j],
                forall|i: int, j: int|
                    0 <= i < h && 0 <= j < h ==> #[trigger] res@[i][j] == if pair_done(i, j, x as int, y as int) {
                        reserved(r0, apps@, eq@)[i][j]
                    } else {
                        r0[i][j]
                    },
            decreases h - y,
        {
            proof {
                assert(between(apps@, eq@, x as int, y as int) <= r0[x as int][y as int]);
            }
            let amount = pair_amount(apps, eq, x, y);
            let cur = res.get(x, y);
            res.set(x, y, cur - amount);
            proof {
                assert(r0[y as int][x as int] == r0[x as int][y as int]);
            }
            y = y + 1;
        }
        x = x + 1;
    }
    proof {
        assert(res@ =~= reserved(r0, apps@, eq@)) by {
            assert forall|i: int| 0 <= i < h implies #[trigger] res@[i] =~= reserved(r0, apps@, eq@)[i] by {
                assert forall|j: int| 0 <= j < h implies #[trigger] res@[i][j] == reserved(r0, apps@, eq@)[i][j] by {
                    assert(pair_done(i, j, h as int, h as int));
                }
            }
        }
    }
}

/// Gives back to the bandwidth left between the hosts what the emulation placed by `eq`
/// took between them.
fn give_bandwidth(res: &mut SymMatrix<u32>, apps: &SymMatrix<u32>, eq: &Vec<usize>)
    requires
        old(res).wf(),
        apps.wf(),
        apps@.len() == eq@.len(),
        forall|x: int, y: int|
            0 <= x < old(res)@.len() && 0 <= y < old(res)@.len() ==> old(res)@[x][y] + #[trigger] between(apps@, eq@, x, y)
                <= u32::MAX,
    ensures
        final(res).wf(),
        final(res)@ == released(old(res)@, apps@, eq@),
{
    proof {
        res.lemma_view_square_symmetric();
    }
    let ghost r0 = res@;
    let h = res.size();
    let mut x: usize = 0;
    while x < h
        invariant
            x <= h,
            h == r0.len(),
            is_square(r0, h as nat),
            crate::matrix::is_symmetric(r0),
            res.wf(),
            res@.len() == h,
            is_square(res@, h as nat),
            apps.wf(),
            apps@.len() == eq@.len(),
            forall|i: int, j: int| 0 <= i < h && 0 <= j < h ==> r0[i][j] + #[trigger] between(apps@, eq@, i, j) <= u32::MAX,
            forall|i: int, j: int|
                0 <= i < h && 0 <= j < h ==> #[trigger] res@[i][j] == if pair_done(i, j, x as int, x as int) {
                    released(r0, apps@, eq@)[i][j]
                } else {
                    r0[i][j]
                },
        decreases h - x,
    {
        proof {
            assert(released(r0, apps@, eq@)[x as int][x as int] == r0[x as int][x as int]);
        }
        let mut y: usize = x + 1;
        while y < h
            invariant
                x < h,
                x + 1 <= y <= h,
                h == r0.len(),
                is_square(r0, h as nat),
                crate::matrix::is_symmetric(r0),
                res.wf(),
                res@.len() == h,
                is_square(res@, h as nat),
                apps.wf(),
                apps@.len() == eq@.len(),
                forall|i: int, j: int| 0 <= i < h && 0 <= j < h ==> r0[i][j] + #[trigger] between(apps@, eq@, i, j) <= u32::MAX,
                forall|i: int, j: int|
                    0 <= i < h && 0 <= j < h ==> #[trigger] res@[i][j] == if pair_done(i, j, x as int, y as int) {
                        released(r0, apps@, eq@)[i][j]
                    } else {
                        r0[i][j]
                    },
            decreases h - y,
        {
            proof {
                assert(r0[x as int][y as int] + between(apps@, eq@, x as int, y as int) <= u32::MAX);
            }
            let amount = pair_amount(apps, eq, x, y);
            let cur = res.get(x, y);
            res.set(x, y, cur + amount);
            proof {
                assert(r0[y as int][x as int] == r0[x as int][y as int]);
            }
            y = y + 1;
        }
        x = x + 1;
    }
    proof {
        assert(res@ =~= released(r0, apps@, eq@)) by {
            assert forall|i: int| 0 <= i < h implies #[trigger] res@[i] =~= released(r0, apps@, eq@)[i] by {
                assert forall|j: int| 0 <= j < h implies #[trigger] res@[i][j] == released(r0, apps@, eq@)[i][j] by {
                    assert(pair_done(i, j, h as int, h as int));
                }
            }
        }
    }
}

/// Adds to the load of each host the applications `eq` places on it.
fn add_loads(loads: &mut Vec<usize>, eq: &Vec<usize>)
    requires
        forall|a: int| 0 <= a < eq@.len() ==> #[trigger] eq@[a] < old(loads)@.len(),
        forall|h: int| 0 <= h < old(loads)@.len() ==> old(loads)@[h] + #[trigger] placed_on(eq@, h, eq@.len()) <= usize::MAX,
    ensures
        final(loads)@ == loaded(old(loads)@, eq@),
{
    let ghost l0 = loads@;
    let mut a: usize = 0;
    while a < eq.len()
        invariant
            a <= eq@.len(),
            loads@.len() == l0.len(),
            forall|b: int| 0 <= b < eq@.len() ==> #[trigger] eq@[b] < l0.len(),
            forall|h: int| 0 <= h < l0.len() ==> l0[h] + #[trigger] placed_on(eq@, h, eq@.len()) <= usize::MAX,
            forall|h: int| 0 <= h < l0.len() ==> #[trigger] loads@[h] == l0[h] + placed_on(eq@, h, a as nat),
        decreases eq@.len() - a,
    {
        let h = eq[a];
        proof {
            lemma_placed_mono(eq@, h as int, (a + 1) as nat, eq@.len());
        }
        let v = loads[h] + 1;
        loads.set(h, v);
        a = a + 1;
    }
    proof {
        assert(loads@ =~= loaded(l0, eq@));
    }
}

/// Takes from the load of each host the applications `eq` places on it.
fn remove_loads(loads: &mut Vec<usize>, eq: &Vec<usize>)
    requires
        forall|a: int| 0 <= a < eq@.len() ==> #[trigger] eq@[a] < old(loads)@.len(),
        forall|h: int| 0 <= h < old(loads)@.len() ==> #[trigger] placed_on(eq@, h, eq@.len()) <= old(loads)@[h],
    ensures
        final(loads)@ == unloaded(old(loads)@, eq@),
{
    let ghost l0 = loads@;
    let mut a: usize = 0;
    while a < eq.len()
        invariant
            a <= eq@.len(),
            loads@.len() == l0.len(),
            forall|b: int| 0 <= b < eq@.len() ==> #[trigger] eq@[b] < l0.len(),
            forall|h: int| 0 <= h < l0.len() ==> #[trigger] placed_on(eq@, h, eq@.len()) <= l0[h],
            forall|h: int| 0 <= h < l0.len() ==> #[trigger] loads@[h] == l0[h] - placed_on(eq@, h, a as nat),
        decreases eq@.len() - a,
    {
        let h = eq[a];
        proof {
            lemma_placed_mono(eq@, h as int, (a + 1) as nat, eq@.len());
        }
        let v = loads[h] - 1;
        loads.set(h, v);
        a = a + 1;
    }
    proof {
        assert(loads@ =~= unloaded(l0, eq@));
    }
}


/// No application on `h` among the first `k`: none is counted there.
proof fn lemma_placed_none(eq: Seq<usize>, h: int, k: nat)
    requires
        forall|b: int| 0 <= b < k ==> #[trigger] eq[b] as int != h,
    ensures
        placed_on(eq, h, k) == 0,
    decreases k,
{
    if k > 0 {
        lemma_placed_none(eq, h, (k - 1) as nat);
    }
}


/// The bandwidth left between the hosts once each of the recorded emulations, in order,
/// gives its part back.
pub open spec fn released_all(r: Seq<Seq<u32>>, recs: Seq<(u128, Seq<Seq<u32>>, Seq<usize>)>) -> Seq<Seq<u32>>
    decreases recs.len(),
{
    if recs.len() == 0 {
        r
    } else {
        released_all(released(r, recs[0].1, recs[0].2), recs.drop_first())
    }
}

} // verus!

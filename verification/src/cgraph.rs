//! The cluster graph: what is known of the speed between every two nodes of the cluster.
//!
//! Each pair of nodes carries a `TestData`: whether the connection is limited by the network
//! rather than by the nodes themselves, whether it was measured directly, and its speed.
//! Speeds that were not measured are extrapolated from the others: the speed through a third
//! node is the slower of the two legs.
use vstd::prelude::*;
use vstd::laws_eq::obeys_concrete_eq;
use vstd::std_specs::cmp::PartialEqSpec;
use crate::matrix::{SymMatrix, sym_update, is_square, is_symmetric, triangle_len, skip_index, lemma_triangle_len};

verus! {

/// What is known of a connection: `(is_limited, is_directly_tested, speed)`.
#[derive(Copy, Clone, Debug)]
pub struct TestData(pub bool, pub bool, pub usize);

impl TestData {
    /// An unknown connection: limited, not tested, of speed 0.
    pub fn default(_row: usize, _col: usize) -> (d: TestData)
        ensures
            d == TestData(true, false, 0),
    {
        TestData(true, false, 0)
    }

    pub fn set_limited(&mut self, is_limited: bool)
        ensures
            *final(self) == TestData(is_limited, old(self).1, old(self).2),
    {
        self.0 = is_limited
    }

    pub fn set_direct_tested(&mut self, is_directly_tested: bool)
        ensures
            *final(self) == TestData(old(self).0, is_directly_tested, old(self).2),
    {
        self.1 = is_directly_tested
    }

    pub fn set_speed(&mut self, speed: usize)
        ensures
            *final(self) == TestData(old(self).0, old(self).1, speed),
    {
        self.2 = speed
    }

    pub fn is_limited(&self) -> (b: bool)
        ensures
            b == self.0,
    {
        self.0
    }

    pub fn is_directly_tested(&self) -> (b: bool)
        ensures
            b == self.1,
    {
        self.1
    }

    pub fn speed(&self) -> (s: usize)
        ensures
            s == self.2,
    {
        self.2
    }
}

/// A node of the cluster: its place in the graph, its own speed and what identifies it.
#[derive(Clone, Copy, Debug)]
pub struct Node<I> {
    index: usize,
    speed: usize,
    info: I,
}

impl<I: Copy> View for Node<I> {
    type V = (usize, usize, I);

    /// `(index, speed, info)`
    closed spec fn view(&self) -> (usize, usize, I) {
        (self.index, self.speed, self.info)
    }
}

impl<I: Copy> Node<I> {
    fn build(index: usize, speed: usize, info: I) -> (n: Self)
        ensures
            n@ == (index, speed, info),
    {
        Node { index, speed, info }
    }

    pub fn speed(&self) -> (s: usize)
        ensures
            s == self@.1,
    {
        self.speed
    }

    pub fn info(&self) -> (i: I)
        ensures
            i == self@.2,
    {
        self.info
    }

    /// The place of the node in the graph.
    pub fn index(&self) -> (i: usize)
        ensures
            i == self@.0,
    {
        self.index
    }
}

/// Errors of the cluster graph.
#[derive(Clone, Copy, Debug, PartialEq, Eq)]
pub enum CGraphError {
    /// The graph has no node.
    EmptyGraph,
    /// A node given is not in the graph.
    NotInGraph,
    /// A measured speed is above the speed of one of the two nodes.
    InvalidData,
    /// No node matches what is looked for.
    NotFound,
}

/// The smaller of two speeds.
pub open spec fn min_speed(a: usize, b: usize) -> usize {
    if a <= b {
        a
    } else {
        b
    }
}

/// `p` answers true on `n`, whatever the call.
pub open spec fn always_accepts<I, P: Fn(&Node<I>) -> bool>(p: P, n: Node<I>) -> bool {
    forall|b: bool| #[trigger] p.ensures((&n,), b) ==> b
}

/// One step of the speed propagation: the connection `(i, j)` goes through `k` when that is
/// faster than what is known; it is then no more limited by the network when its speed became
/// the speed of the slower of the two nodes.
pub open spec fn relax(m: Seq<Seq<TestData>>, speeds: Seq<usize>, i: int, j: int, k: int) -> Seq<
    Seq<TestData>,
> {
    let t = min_speed(m[i][k].2, m[k][j].2);
    if m[i][j].2 < t {
        if min_speed(speeds[i], speeds[j]) == t {
            sym_update(m, i, j, TestData(false, m[i][j].1, t))
        } else {
            sym_update(m, i, j, TestData(m[i][j].0, m[i][j].1, t))
        }
    } else {
        m
    }
}

/// The steps `(i, j, 0) .. (i, j, k - 1)` of the propagation.
pub open spec fn relax_k(m: Seq<Seq<TestData>>, speeds: Seq<usize>, i: int, j: int, k: nat) -> Seq<
    Seq<TestData>,
>
    decreases k,
{
    if k == 0 {
        m
    } else {
        relax(relax_k(m, speeds, i, j, (k - 1) as nat), speeds, i, j, k - 1)
    }
}

/// The steps `(i, 0, _) .. (i, j - 1, _)` of the propagation on an `n x n` matrix.
pub open spec fn relax_j(m: Seq<Seq<TestData>>, speeds: Seq<usize>, i: int, j: nat, n: nat) -> Seq<
    Seq<TestData>,
>
    decreases j,
{
    if j == 0 {
        m
    } else {
        relax_k(relax_j(m, speeds, i, (j - 1) as nat, n), speeds, i, j - 1, n)
    }
}

/// The steps `(0, _, _) .. (i - 1, _, _)` of the propagation on an `n x n` matrix.
pub open spec fn relax_i(m: Seq<Seq<TestData>>, speeds: Seq<usize>, i: nat, n: nat) -> Seq<
    Seq<TestData>,
>
    decreases i,
{
    if i == 0 {
        m
    } else {
        relax_j(relax_i(m, speeds, (i - 1) as nat, n), speeds, i - 1, n, n)
    }
}

/// The whole propagation: for each `i`, each `j`, each `k` in turn, one `relax` step.
pub open spec fn propagate_speeds(m: Seq<Seq<TestData>>, speeds: Seq<usize>) -> Seq<Seq<TestData>> {
    relax_i(m, speeds, m.len(), m.len())
}

proof fn lemma_relax_square(m: Seq<Seq<TestData>>, speeds: Seq<usize>, i: int, j: int, k: int)
    requires
        is_square(m, m.len()),
    ensures
        is_square(relax(m, speeds, i, j, k), m.len()),
{
}

proof fn lemma_relax_k_square(m: Seq<Seq<TestData>>, speeds: Seq<usize>, i: int, j: int, k: nat)
    requires
        is_square(m, m.len()),
    ensures
        is_square(relax_k(m, speeds, i, j, k), m.len()),
    decreases k,
{
    if k > 0 {
        lemma_relax_k_square(m, speeds, i, j, (k - 1) as nat);
        lemma_relax_square(relax_k(m, speeds, i, j, (k - 1) as nat), speeds, i, j, k - 1);
    }
}

proof fn lemma_relax_j_square(m: Seq<Seq<TestData>>, speeds: Seq<usize>, i: int, j: nat, n: nat)
    requires
        is_square(m, m.len()),
    ensures
        is_square(relax_j(m, speeds, i, j, n), m.len()),
    decreases j,
{
    if j > 0 {
        lemma_relax_j_square(m, speeds, i, (j - 1) as nat, n);
        lemma_relax_k_square(relax_j(m, speeds, i, (j - 1) as nat, n), speeds, i, j - 1, n);
    }
}

proof fn lemma_relax_i_square(m: Seq<Seq<TestData>>, speeds: Seq<usize>, i: nat, n: nat)
    requires
        is_square(m, m.len()),
    ensures
        is_square(relax_i(m, speeds, i, n), m.len()),
    decreases i,
{
    if i > 0 {
        lemma_relax_i_square(m, speeds, (i - 1) as nat, n);
        lemma_relax_j_square(relax_i(m, speeds, (i - 1) as nat, n), speeds, i - 1, n, n);
    }
}

/// The known speeds of `b` are each at least those of `a`.
pub open spec fn no_speed_lower(a: Seq<Seq<TestData>>, b: Seq<Seq<TestData>>) -> bool {
    forall|r: int, c: int| 0 <= r < a.len() && 0 <= c < a.len() ==> #[trigger] b[r][c].2 >= a[r][c].2
}

/// One propagation step keeps the matrix square and symmetric and lowers no known speed.
proof fn lemma_relax_no_lower(m: Seq<Seq<TestData>>, speeds: Seq<usize>, i: int, j: int, k: int)
    requires
        is_square(m, m.len()),
        is_symmetric(m),
    ensures
        is_square(relax(m, speeds, i, j, k), m.len()),
        is_symmetric(relax(m, speeds, i, j, k)),
        no_speed_lower(m, relax(m, speeds, i, j, k)),
{
    let r = relax(m, speeds, i, j, k);
    assert forall|a: int, b: int| 0 <= a < m.len() && 0 <= b < m.len() implies #[trigger] r[a][b].2 >= m[a][b].2 by {
        if (a == i && b == j) || (a == j && b == i) {
            assert(m[a][b] == m[i][j]);
        }
    }
}

proof fn lemma_relax_k_no_lower(m: Seq<Seq<TestData>>, speeds: Seq<usize>, i: int, j: int, k: nat)
    requires
        is_square(m, m.len()),
        is_symmetric(m),
    ensures
        is_square(relax_k(m, speeds, i, j, k), m.len()),
        is_symmetric(relax_k(m, speeds, i, j, k)),
        no_speed_lower(m, relax_k(m, speeds, i, j, k)),
    decreases k,
{
    if k > 0 {
        let p = relax_k(m, speeds, i, j, (k - 1) as nat);
        lemma_relax_k_no_lower(m, speeds, i, j, (k - 1) as nat);
        lemma_relax_no_lower(p, speeds, i, j, k - 1);
        let q = relax(p, speeds, i, j, k - 1);
        assert forall|a: int, b: int| 0 <= a < m.len() && 0 <= b < m.len() implies #[trigger] q[a][b].2 >= m[a][b].2 by {
            assert(p[a][b].2 >= m[a][b].2);
        }
    }
}

proof fn lemma_relax_j_no_lower(m: Seq<Seq<TestData>>, speeds: Seq<usize>, i: int, j: nat, n: nat)
    requires
        is_square(m, m.len()),
        is_symmetric(m),
    ensures
        is_square(relax_j(m, speeds, i, j, n), m.len()),
        is_symmetric(relax_j(m, speeds, i, j, n)),
        no_speed_lower(m, relax_j(m, speeds, i, j, n)),
    decreases j,
{
    if j > 0 {
        let p = relax_j(m, speeds, i, (j - 1) as nat, n);
        lemma_relax_j_no_lower(m, speeds, i, (j - 1) as nat, n);
        lemma_relax_k_no_lower(p, speeds, i, j - 1, n);
        let q = relax_k(p, speeds, i, j - 1, n);
        assert forall|a: int, b: int| 0 <= a < m.len() && 0 <= b < m.len() implies #[trigger] q[a][b].2 >= m[a][b].2 by {
            assert(p[a][b].2 >= m[a][b].2);
        }
    }
}

proof fn lemma_relax_i_no_lower(m: Seq<Seq<TestData>>, speeds: Seq<usize>, i: nat, n: nat)
    requires
        is_square(m, m.len()),
        is_symmetric(m),
    ensures
        is_square(relax_i(m, speeds, i, n), m.len()),
        is_symmetric(relax_i(m, speeds, i, n)),
        no_speed_lower(m, relax_i(m, speeds, i, n)),
    decreases i,
{
    if i > 0 {
        let p = relax_i(m, speeds, (i - 1) as nat, n);
        lemma_relax_i_no_lower(m, speeds, (i - 1) as nat, n);
        lemma_relax_j_no_lower(p, speeds, i - 1, n, n);
        let q = relax_j(p, speeds, i - 1, n, n);
        assert forall|a: int, b: int| 0 <= a < m.len() && 0 <= b < m.len() implies #[trigger] q[a][b].2 >= m[a][b].2 by {
            assert(p[a][b].2 >= m[a][b].2);
        }
    }
}

/// Propagating the speeds never lowers a known speed: a speed reached through a third node
/// only ever raises what is known of a connection, it never replaces a faster one.
pub proof fn lemma_propagation_never_lowers(m: Seq<Seq<TestData>>, speeds: Seq<usize>)
    requires
        is_square(m, m.len()),
        is_symmetric(m),
    ensures
        forall|r: int, c: int|
            0 <= r < m.len() && 0 <= c < m.len() ==> #[trigger] propagate_speeds(m, speeds)[r][c].2 >= m[r][c].2,
{
    lemma_relax_i_no_lower(m, speeds, m.len(), m.len());
    let q = propagate_speeds(m, speeds);
    assert forall|r: int, c: int| 0 <= r < m.len() && 0 <= c < m.len() implies #[trigger] q[r][c].2 >= m[r][c].2 by {
        assert(no_speed_lower(m, q));
    }
}

/// The known speeds of a matrix of tests.
pub open spec fn speeds_of(m: Seq<Seq<TestData>>) -> Seq<Seq<usize>> {
    Seq::new(m.len(), |r: int| Seq::new(m[r].len(), |c: int| m[r][c].2))
}

/// The own speeds of the nodes, by index.
pub open spec fn node_speeds<I: Copy>(nodes: Seq<Node<I>>) -> Seq<usize> {
    Seq::new(nodes.len(), |k: int| nodes[k]@.1)
}

/// The sum of the known speeds from node `i` to the nodes `0 .. j`, itself left out.
pub open spec fn row_sum(m: Seq<Seq<TestData>>, i: int, j: nat) -> int
    decreases j,
{
    if j == 0 {
        0
    } else {
        row_sum(m, i, (j - 1) as nat) + if i == j - 1 {
            0
        } else {
            m[i][j - 1].2 as int
        }
    }
}

proof fn lemma_row_sum_nonneg(m: Seq<Seq<TestData>>, i: int, j: nat)
    ensures
        row_sum(m, i, j) >= 0,
    decreases j,
{
    if j > 0 {
        lemma_row_sum_nonneg(m, i, (j - 1) as nat);
    }
}

/// The index, among `0 .. k`, of the first node of largest `row_sum` over the `n` nodes;
/// 0 when every sum is 0.
pub open spec fn leader_among(m: Seq<Seq<TestData>>, n: nat, k: nat) -> int
    decreases k,
{
    if k <= 1 {
        0
    } else {
        let b = leader_among(m, n, (k - 1) as nat);
        if row_sum(m, k - 1, n) > row_sum(m, b, n) {
            k - 1
        } else {
            b
        }
    }
}

/// The connection `(f, t)` still needs a direct test: it was never measured, and its known
/// speed is below both the sufficient speed and the speed of the slower of the two nodes.
pub open spec fn needs_test(
    m: Seq<Seq<TestData>>,
    f: int,
    t: int,
    from_speed: usize,
    to_speed: usize,
    sufficient: usize,
) -> bool {
    &&& !m[f][t].1
    &&& m[f][t].2 < sufficient
    &&& m[f][t].2 < min_speed(from_speed, to_speed)
}

/// Node `k` settles the speed of `(f, t)` without a test: both legs `f - k` and `k - t` are
/// known (not limited, or measured), and their speeds differ, so the slower one is the speed
/// of `(f, t)`.
pub open spec fn settles(m: Seq<Seq<TestData>>, f: int, t: int, k: int) -> bool {
    &&& k != f
    &&& k != t
    &&& (!m[f][k].0 || m[f][k].1)
    &&& (!m[k][t].0 || m[k][t].1)
    &&& m[f][k].2 != m[k][t].2
}

/// The first node of `0 .. n` that settles `(f, t)`, if any.
pub open spec fn first_settler(m: Seq<Seq<TestData>>, f: int, t: int, n: nat) -> Option<int>
    decreases n,
{
    if n == 0 {
        None
    } else {
        match first_settler(m, f, t, (n - 1) as nat) {
            Some(k) => Some(k),
            None => if settles(m, f, t, n - 1) {
                Some(n - 1)
            } else {
                None
            },
        }
    }
}

proof fn lemma_first_settler_extend(m: Seq<Seq<TestData>>, f: int, t: int, k: nat, n: nat)
    requires
        first_settler(m, f, t, k) is None,
        settles(m, f, t, k as int),
        k < n,
    ensures
        first_settler(m, f, t, n) == Some(k as int),
    decreases n,
{
    if n > k + 1 {
        lemma_first_settler_extend(m, f, t, k, (n - 1) as nat);
    }
}

/// The search of missing tests from `f` over the nodes `0 .. t`: the matrix, where
/// connections settled by a third node were set, and the nodes left to test, in order.
pub open spec fn missing_from(
    m: Seq<Seq<TestData>>,
    speeds: Seq<usize>,
    f: int,
    from_speed: usize,
    sufficient: usize,
    t: nat,
) -> (Seq<Seq<TestData>>, Seq<int>)
    decreases t,
{
    if t == 0 {
        (m, Seq::empty())
    } else {
        let prev = missing_from(m, speeds, f, from_speed, sufficient, (t - 1) as nat);
        let cur = prev.0;
        let to = t - 1;
        if to == f || !needs_test(cur, f, to, from_speed, speeds[to], sufficient) {
            prev
        } else {
            match first_settler(cur, f, to, cur.len()) {
                Some(k) => (
                    sym_update(
                        cur,
                        f,
                        to,
                        TestData(cur[f][to].0, true, min_speed(cur[f][k].2, cur[k][to].2)),
                    ),
                    prev.1,
                ),
                None => (cur, prev.1.push(to)),
            }
        }
    }
}

/// The node `first_settler` finds is one of the `n` first and settles the connection.
proof fn lemma_first_settler_settles(m: Seq<Seq<TestData>>, f: int, t: int, n: nat)
    requires
        first_settler(m, f, t, n) is Some,
    ensures
        0 <= first_settler(m, f, t, n)->0 < n,
        settles(m, f, t, first_settler(m, f, t, n)->0),
    decreases n,
{
    if first_settler(m, f, t, (n - 1) as nat) is Some {
        lemma_first_settler_settles(m, f, t, (n - 1) as nat);
    }
}

proof fn lemma_missing_from_square(
    m: Seq<Seq<TestData>>,
    speeds: Seq<usize>,
    f: int,
    from_speed: usize,
    sufficient: usize,
    t: nat,
)
    requires
        is_square(m, m.len()),
    ensures
        is_square(missing_from(m, speeds, f, from_speed, sufficient, t).0, m.len()),
    decreases t,
{
    if t > 0 {
        lemma_missing_from_square(m, speeds, f, from_speed, sufficient, (t - 1) as nat);
    }
}

/// When the search of missing tests from `f` settles the connection to the next node `to`
/// through a third node `k` instead of asking for a test, the speed it records is that of
/// the slower of the two legs `f - k` and `k - to`: never above either leg, and one of them.
pub proof fn lemma_settled_speed_is_slower_leg(
    m: Seq<Seq<TestData>>,
    speeds: Seq<usize>,
    f: int,
    from_speed: usize,
    sufficient: usize,
    t: nat,
)
    requires
        is_square(m, m.len()),
        0 <= f < m.len(),
        1 <= t <= m.len(),
    ensures
        ({
            let prev = missing_from(m, speeds, f, from_speed, sufficient, (t - 1) as nat).0;
            let cur = missing_from(m, speeds, f, from_speed, sufficient, t).0;
            let to = t - 1;
            cur[f][to] != prev[f][to] ==> exists|k: int|
                #![trigger prev[f][k], prev[k][to]]
                0 <= k < m.len() && k != f && k != to && prev[f][k].2 != prev[k][to].2 && cur[f][to].2
                    <= prev[f][k].2 && cur[f][to].2 <= prev[k][to].2 && (cur[f][to].2 == prev[f][k].2
                    || cur[f][to].2 == prev[k][to].2)
        }),
{
    let prev = missing_from(m, speeds, f, from_speed, sufficient, (t - 1) as nat).0;
    let cur = missing_from(m, speeds, f, from_speed, sufficient, t).0;
    let to = t - 1;
    lemma_missing_from_square(m, speeds, f, from_speed, sufficient, (t - 1) as nat);
    if cur[f][to] != prev[f][to] {
        let fs = first_settler(prev, f, to, prev.len());
        assert(fs is Some);
        lemma_first_settler_settles(prev, f, to, prev.len());
        let k = fs->0;
        assert(cur[f][to].2 == min_speed(prev[f][k].2, prev[k][to].2));
        assert(prev[f][k].2 == prev[f][k].2 && prev[k][to].2 == prev[k][to].2);
    }
}

/// The position in `s` of the last node of largest speed.
pub open spec fn fastest_pos(s: Seq<int>, speeds: Seq<usize>) -> int
    decreases s.len(),
{
    if s.len() <= 1 {
        0
    } else {
        let b = fastest_pos(s.drop_last(), speeds);
        if speeds[s.last()] >= speeds[s[b]] {
            s.len() - 1
        } else {
            b
        }
    }
}

/// The cluster graph.
#[derive(Clone, Debug)]
pub struct CGraph<I> {
    c_graph: SymMatrix<TestData>,
    nodes: Vec<Node<I>>,
}

impl<I: Copy + PartialEq> CGraph<I> {
    /// What is known of every connection, as a full symmetric matrix.
    pub closed spec fn tests(&self) -> Seq<Seq<TestData>> {
        self.c_graph@
    }

    /// The nodes, ordered by index.
    pub closed spec fn node_list(&self) -> Seq<Node<I>> {
        self.nodes@
    }

    /// Node `k` has index `k`, no two nodes have the same info, and there is one row of
    /// tests per node.
    pub closed spec fn wf(&self) -> bool {
        &&& self.c_graph.wf()
        &&& self.nodes@.len() == self.c_graph@.len()
        &&& is_square(self.c_graph@, self.c_graph@.len())
        &&& triangle_len(self.c_graph@.len()) <= usize::MAX
        &&& forall|k: int| 0 <= k < self.nodes@.len() ==> (#[trigger] self.nodes@[k])@.0 == k
        &&& forall|a: int, b: int|
            0 <= a < b < self.nodes@.len() ==> (#[trigger] self.nodes@[a])@.2 != (
            #[trigger] self.nodes@[b])@.2
    }

    /// An empty graph.
    pub fn new() -> (g: Self)
        ensures
            g.wf(),
            g.node_list().len() == 0,
            g.tests().len() == 0,
    {
        proof {
            assert(triangle_len(0) == 0);
        }
        let c_graph = SymMatrix::new_fn(0, TestData::default);
        CGraph { c_graph, nodes: Vec::new() }
    }

    /// The nodes, ordered by index.
    pub fn nodes(&self) -> (v: Vec<Node<I>>)
        ensures
            v@ == self.node_list(),
    {
        let mut v: Vec<Node<I>> = Vec::new();
        let mut k: usize = 0;
        while k < self.nodes.len()
            invariant
                k <= self.nodes@.len(),
                v@ == self.nodes@.subrange(0, k as int),
            decreases self.nodes@.len() - k,
        {
            v.push(self.nodes[k]);
            k = k + 1;
        }
        v
    }

    /// The number of nodes.
    pub fn size(&self) -> (s: usize)
        ensures
            s == self.node_list().len(),
    {
        self.nodes.len()
    }


    /// Adds a node of the given speed and info, with a new row of unknown connections, its
    /// connection with itself being of the largest speed. A node of the same info already in
    /// the graph is given back instead, and the graph left as it was.
    pub fn add_node(&mut self, speed: usize, info: I) -> (r: Result<Node<I>, CGraphError>)
        requires
            old(self).wf(),
            obeys_concrete_eq::<I>(),
            triangle_len(old(self).node_list().len() + 1) <= usize::MAX,
        ensures
            final(self).wf(),
            r is Ok,
            (exists|k: int|
                0 <= k < old(self).node_list().len() && (#[trigger] old(self).node_list()[k])@.2
                    == info) ==> {
                &&& *final(self) == *old(self)
                &&& exists|k: int|
                    0 <= k < old(self).node_list().len() && (#[trigger] old(self).node_list()[k])@.2
                        == info && r == Ok::<Node<I>, CGraphError>(old(self).node_list()[k])
            },
            !(exists|k: int|
                0 <= k < old(self).node_list().len() && (#[trigger] old(self).node_list()[k])@.2
                    == info) ==> {
                let n = old(self).node_list().len() as int;
                &&& r matches Ok(node) && node@ == (n as usize, speed, info)
                &&& final(self).node_list() == old(self).node_list().push(r->Ok_0)
                &&& final(self).tests().len() == n + 1
                &&& forall|a: int, b: int|
                    0 <= a < n && 0 <= b < n ==> #[trigger] final(self).tests()[a][b]
                        == old(self).tests()[a][b]
                &&& forall|a: int|
                    0 <= a < n ==> #[trigger] final(self).tests()[a][n] == TestData(true, false, 0)
                        && final(self).tests()[n][a] == TestData(true, false, 0)
                &&& final(self).tests()[n][n] == TestData(true, false, usize::MAX)
            },
    {
        proof {
            reveal(obeys_concrete_eq);
        }
        // Check if the node is already in, if yes, return it
        let mut k: usize = 0;
        while k < self.nodes.len()
            invariant
                k <= self.nodes@.len(),
                self.wf(),
                obeys_concrete_eq::<I>(),
                I::obeys_eq_spec(),
                forall|x: I, y: I| x.eq_spec(&y) <==> (x == y),
                forall|q: int| 0 <= q < k ==> (#[trigger] self.nodes@[q])@.2 != info,
            decreases self.nodes@.len() - k,
        {
            if self.nodes[k].info == info {
                return Ok(self.nodes[k]);
            }
            k = k + 1;
        }
        // Add a row and a column to the c_graph for the node
        let old_n = self.c_graph.size();
        let ghost old_tests = self.c_graph@;
        proof {
            let m = old_n as nat + 1;
            lemma_triangle_len(m);
            assert(m * (m + 1) >= 2 * m) by (nonlinear_arith);
        }
        let grown = self.c_graph.grow_fn(1, TestData::default);
        let ghost gv = grown@;
        self.c_graph = grown;
        // set the speed with itself to maximum
        let index = self.c_graph.size() - 1;
        let d = self.c_graph.get(index, index);
        self.c_graph.set(index, index, TestData(d.0, d.1, usize::MAX));
        // Create the node
        let node = Node::build(index, speed, info);
        self.nodes.push(node);
        proof {
            assert(TestData::default.ensures((old_n, old_n), gv[old_n as int][old_n as int]));
            lemma_triangle_len(old_n as nat + 1);
            assert forall|a: int| 0 <= a < old_n implies #[trigger] self.c_graph@[a][old_n as int]
                == TestData(true, false, 0) && self.c_graph@[old_n as int][a] == TestData(
                true,
                false,
                0,
            ) by {
                self.c_graph.lemma_view_square_symmetric();
                assert(TestData::default.ensures((a as usize, old_n), gv[a][old_n as int]));
                assert(self.c_graph@[old_n as int][a] == self.c_graph@[a][old_n as int]);
            }
        }
        Ok(node)
    }

    /// Sets the connection `(from_index, to_index)` as not limited by the network.
    fn set_not_limited(&mut self, from_index: usize, to_index: usize)
        requires
            old(self).wf(),
            from_index < old(self).node_list().len(),
            to_index < old(self).node_list().len(),
        ensures
            final(self).wf(),
            final(self).node_list() == old(self).node_list(),
            final(self).tests() == sym_update(
                old(self).tests(),
                from_index as int,
                to_index as int,
                TestData(
                    false,
                    old(self).tests()[from_index as int][to_index as int].1,
                    old(self).tests()[from_index as int][to_index as int].2,
                ),
            ),
    {
        let d = self.c_graph.get(from_index, to_index);
        self.c_graph.set(from_index, to_index, TestData(false, d.1, d.2));
    }


    /// Extrapolates the speeds from what is known: for each pair `(i, j)` and each third node
    /// `k` in turn, the connection goes through `k` when that is faster (see `relax`).
    fn update_speeds(&mut self)
        requires
            old(self).wf(),
        ensures
            final(self).wf(),
            final(self).node_list() == old(self).node_list(),
            final(self).tests() == propagate_speeds(
                old(self).tests(),
                node_speeds(old(self).node_list()),
            ),
    {
        let n = self.c_graph.size();
        let ghost m0 = self.c_graph@;
        let ghost sp = node_speeds(self.nodes@);
        let mut i: usize = 0;
        while i < n
            invariant
                self.wf(),
                n == self.c_graph@.len(),
                self.nodes@ == old(self).nodes@,
                m0 == old(self).tests(),
                sp == node_speeds(self.nodes@),
                i <= n,
                self.c_graph@ == relax_i(m0, sp, i as nat, n as nat),
            decreases n - i,
        {
            let mut j: usize = 0;
            while j < n
                invariant
                    self.wf(),
                    n == self.c_graph@.len(),
                    self.nodes@ == old(self).nodes@,
                    sp == node_speeds(self.nodes@),
                    i < n,
                    j <= n,
                    self.c_graph@ == relax_j(relax_i(m0, sp, i as nat, n as nat), sp, i as int, j as nat, n as nat),
                decreases n - j,
            {
                let mut k: usize = 0;
                while k < n
                    invariant
                        self.wf(),
                        n == self.c_graph@.len(),
                        self.nodes@ == old(self).nodes@,
                        sp == node_speeds(self.nodes@),
                        i < n,
                        j < n,
                        k <= n,
                        self.c_graph@ == relax_k(
                            relax_j(relax_i(m0, sp, i as nat, n as nat), sp, i as int, j as nat, n as nat),
                            sp,
                            i as int,
                            j as int,
                            k as nat,
                        ),
                    decreases n - k,
                {
                    let ghost before = self.c_graph@;
                    // get the minimum by transition, the minimal speed is the one bottle-necking the connection.
                    let ik = self.c_graph.get(i, k).2;
                    let kj = self.c_graph.get(k, j).2;
                    let speed_by_transition = if ik <= kj {
                        ik
                    } else {
                        kj
                    };
                    let cur = self.c_graph.get(i, j);
                    // If we find a better speed by transition, adapt the speed
                    if cur.2 < speed_by_transition {
                        self.c_graph.set(i, j, TestData(cur.0, cur.1, speed_by_transition));
                        // If the limitation became one of the two nodes
                        // we can safely say that their connection is not limited by the network.
                        let si = self.nodes[i].speed;
                        let sj = self.nodes[j].speed;
                        let min_speed = if si <= sj {
                            si
                        } else {
                            sj
                        };
                        if min_speed == speed_by_transition {
                            self.set_not_limited(i, j);
                            proof {
                                assert(self.c_graph@ =~~= sym_update(
                                    before,
                                    i as int,
                                    j as int,
                                    TestData(false, cur.1, speed_by_transition),
                                ));
                            }
                        }
                    }
                    k = k + 1;
                }
                j = j + 1;
            }
            i = i + 1;
        }
    }

    /// Records a direct test of speed `speed` between `from` and `to`, then extrapolates the
    /// other speeds. Tells whether the test improved the known speed of the connection.
    pub fn add_link_direct_test(&mut self, from: Node<I>, to: Node<I>, speed: usize) -> (r: Result<
        bool,
        CGraphError,
    >)
        requires
            old(self).wf(),
        ensures
            final(self).wf(),
            final(self).node_list() == old(self).node_list(),
            (from@.0 >= old(self).node_list().len() || to@.0 >= old(self).node_list().len()) ==> r
                == Err::<bool, CGraphError>(CGraphError::NotInGraph) && *final(self) == *old(self),
            (from@.0 < old(self).node_list().len() && to@.0 < old(self).node_list().len() && speed
                > min_speed(from@.1, to@.1)) ==> r == Err::<bool, CGraphError>(
                CGraphError::InvalidData,
            ) && *final(self) == *old(self),
            (from@.0 < old(self).node_list().len() && to@.0 < old(self).node_list().len() && speed
                <= min_speed(from@.1, to@.1)) ==> {
                let f = from@.0 as int;
                let t = to@.0 as int;
                &&& r == Ok::<bool, CGraphError>(old(self).tests()[f][t].2 < speed)
                &&& final(self).tests() == propagate_speeds(
                    sym_update(old(self).tests(), f, t, TestData(false, true, speed)),
                    node_speeds(old(self).node_list()),
                )
                &&& final(self).tests()[f][t].2 >= speed
                &&& forall|a: int, b: int|
                    0 <= a < old(self).tests().len() && 0 <= b < old(self).tests().len() && !((a == f && b == t) || (a
                        == t && b == f)) ==> #[trigger] final(self).tests()[a][b].2 >= old(self).tests()[a][b].2
            },
    {
        let n = self.nodes.len();
        // check that both nodes are in the graph
        if from.index >= n || to.index >= n {
            return Err(CGraphError::NotInGraph);
        }
        // minimum between both nodes, used to check if the speed given is lower or equal
        let min_speed = if from.speed <= to.speed {
            from.speed
        } else {
            to.speed
        };
        if speed > min_speed {
            return Err(CGraphError::InvalidData);
        }
        let ghost m0 = self.c_graph@;
        // everything is ok, let enable the link between the two nodes
        self.set_not_limited(from.index, to.index);
        // check if the new information is useful, aka we improved the speed.
        let d = self.c_graph.get(from.index, to.index);
        let useful = d.2 < speed;
        // Register that a direct test has been made between the two nodes, and its speed
        self.c_graph.set(from.index, to.index, TestData(d.0, true, speed));
        proof {
            assert(self.c_graph@ =~~= sym_update(
                m0,
                from.index as int,
                to.index as int,
                TestData(false, true, speed),
            ));
        }
        let ghost m1 = self.c_graph@;
        proof {
            self.c_graph.lemma_view_square_symmetric();
            lemma_propagation_never_lowers(m1, node_speeds(self.nodes@));
        }
        // finally, update the speeds, use transitions
        self.update_speeds();
        proof {
            let fi = from.index as int;
            let ti = to.index as int;
            assert(m1[fi][ti].2 == speed);
            assert(self.c_graph@[fi][ti].2 >= m1[fi][ti].2);
            assert forall|a: int, b: int|
                0 <= a < m0.len() && 0 <= b < m0.len() && !((a == fi && b == ti) || (a == ti && b == fi)) implies #[trigger] self.c_graph@[a][b].2
                >= m0[a][b].2 by {
                assert(m1[a][b] == m0[a][b]);
                assert(self.c_graph@[a][b].2 >= m1[a][b].2);
            }
        }
        Ok(useful)
    }

    /// The known speeds, as a symmetric matrix.
    pub fn speeds(&self) -> (m: SymMatrix<usize>)
        requires
            self.wf(),
        ensures
            m.wf(),
            m@ == speeds_of(self.tests()),
    {
        let n = self.nodes.len();
        let g = |row: usize, col: usize| -> (s: usize)
            requires
                row <= col < n,
            ensures
                s == self.tests()[row as int][col as int].2,
            { self.c_graph.get(row, col).2 };
        let m = SymMatrix::new_fn(n, g);
        proof {
            m.lemma_view_square_symmetric();
            self.c_graph.lemma_view_square_symmetric();
            assert forall|r: int, c: int| 0 <= r < n && 0 <= c < n implies #[trigger] m@[r][c]
                == speeds_of(self.tests())[r][c] by {
                if r <= c {
                    assert(g.ensures((r as usize, c as usize), m@[r][c]));
                } else {
                    assert(g.ensures((c as usize, r as usize), m@[c][r]));
                }
            }
            assert(m@ =~~= speeds_of(self.tests()));
        }
        m
    }


    /// The node with the best speed to all the others: the first node of largest sum of known
    /// speeds to the other nodes.
    pub fn find_leader(&self) -> (r: Result<Node<I>, CGraphError>)
        requires
            self.wf(),
        ensures
            self.node_list().len() == 0 ==> r == Err::<Node<I>, CGraphError>(CGraphError::EmptyGraph),
            self.node_list().len() > 0 ==> r == Ok::<Node<I>, CGraphError>(
                self.node_list()[leader_among(
                    self.tests(),
                    self.node_list().len(),
                    self.node_list().len(),
                )],
            ),
    {
        // find the best average speed against all others
        let n = self.nodes.len();
        if n == 0 {
            return Err(CGraphError::EmptyGraph);
        }
        let ghost m = self.c_graph@;
        let mut best_index: usize = 0;
        let mut best_sum: u128 = 0;
        let mut i: usize = 0;
        while i < n
            invariant
                self.wf(),
                m == self.c_graph@,
                n == self.nodes@.len(),
                i <= n,
                i == 0 ==> best_index == 0 && best_sum == 0,
                i > 0 ==> best_index == leader_among(m, n as nat, i as nat) && best_sum == row_sum(
                    m,
                    best_index as int,
                    n as nat,
                ),
                best_index < n,
            decreases n - i,
        {
            let mut sum: u128 = 0;
            let mut j: usize = 0;
            while j < n
                invariant
                    self.wf(),
                    m == self.c_graph@,
                    n == self.nodes@.len(),
                    i < n,
                    j <= n,
                    sum == row_sum(m, i as int, j as nat),
                    row_sum(m, i as int, j as nat) <= j * (usize::MAX as int),
                decreases n - j,
            {
                if i != j {
                    let sp = self.c_graph.get(i, j).2;
                    proof {
                        assert((j + 1) * (usize::MAX as int) < u128::MAX) by (nonlinear_arith)
                            requires
                                j < usize::MAX,
                        ;
                        assert(j * (usize::MAX as int) + sp <= (j + 1) * (usize::MAX as int)) by (nonlinear_arith)
                            requires
                                sp <= usize::MAX,
                        ;
                    }
                    sum = sum + sp as u128;
                } else {
                    proof {
                        assert(j * (usize::MAX as int) <= (j + 1) * (usize::MAX as int)) by (nonlinear_arith);
                    }
                }
                j = j + 1;
            }
            if sum > best_sum {
                best_index = i;
                best_sum = sum;
            }
            proof {
                if i == 0 {
                    assert(row_sum(m, 0, n as nat) >= 0) by {
                        lemma_row_sum_nonneg(m, 0, n as nat);
                    }
                }
            }
            i = i + 1;
        }
        Ok(self.nodes[best_index])
    }


    /// The first node among `0 .. n` that settles the connection `(f, t)`, if any.
    fn find_settler(&self, f: usize, t: usize) -> (r: Option<usize>)
        requires
            self.wf(),
            f < self.node_list().len(),
            t < self.node_list().len(),
        ensures
            r matches Some(k) ==> first_settler(self.tests(), f as int, t as int, self.tests().len())
                == Some(k as int) && k < self.node_list().len(),
            r is None ==> first_settler(self.tests(), f as int, t as int, self.tests().len())
                is None,
    {
        let n = self.nodes.len();
        let ghost m = self.c_graph@;
        let mut k: usize = 0;
        while k < n
            invariant
                self.wf(),
                m == self.c_graph@,
                n == m.len(),
                f < n,
                t < n,
                k <= n,
                first_settler(m, f as int, t as int, k as nat) is None,
            decreases n - k,
        {
            if k != f && k != t {
                let fk = self.c_graph.get(f, k);
                let kt = self.c_graph.get(k, t);
                if (!fk.0 || fk.1) && (!kt.0 || kt.1) && fk.2 != kt.2 {
                    proof {
                        lemma_first_settler_extend(m, f as int, t as int, k as nat, n as nat);
                    }
                    return Some(k);
                }
            }
            k = k + 1;
        }
        None
    }

    /// Looks for the nodes to which the connection from `me` must still be tested. On the way,
    /// a connection whose speed is settled by a third node (see `settles`) is set without a
    /// test. Gives back the fastest of the nodes to test, the last one among equals.
    pub fn find_missing_from_me(&mut self, me: Node<I>, sufficient_speed: usize) -> (r: Option<Node<I>>)
        requires
            old(self).wf(),
            me@.0 < old(self).node_list().len(),
        ensures
            final(self).wf(),
            final(self).node_list() == old(self).node_list(),
            ({
                let res = missing_from(
                    old(self).tests(),
                    node_speeds(old(self).node_list()),
                    me@.0 as int,
                    me@.1,
                    sufficient_speed,
                    old(self).node_list().len(),
                );
                &&& final(self).tests() == res.0
                &&& res.1.len() == 0 ==> r is None
                &&& res.1.len() > 0 ==> r == Some(
                    old(self).node_list()[res.1[fastest_pos(res.1, node_speeds(old(self).node_list()))]],
                )
            }),
    {
        let f = me.index;
        let from_speed = me.speed;
        let n = self.nodes.len();
        let ghost m0 = self.c_graph@;
        let ghost sp = node_speeds(self.nodes@);
        // list storing all the missing links
        let mut missing: Vec<usize> = Vec::new();
        let mut to: usize = 0;
        while to < n
            invariant
                self.wf(),
                n == self.nodes@.len(),
                self.nodes@ == old(self).nodes@,
                m0 == old(self).tests(),
                sp == node_speeds(self.nodes@),
                f < n,
                to <= n,
                ({
                    let res = missing_from(m0, sp, f as int, from_speed, sufficient_speed, to as nat);
                    &&& self.c_graph@ == res.0
                    &&& missing@.map_values(|x: usize| x as int) == res.1
                }),
                forall|p: int| 0 <= p < missing@.len() ==> #[trigger] missing@[p] < n,
            decreases n - to,
        {
            let ghost before_missing = missing@;
            if to != f {
                let cur = self.c_graph.get(f, to);
                let to_speed = self.nodes[to].speed;
                let min_s = if from_speed <= to_speed {
                    from_speed
                } else {
                    to_speed
                };
                if !cur.1 && cur.2 < sufficient_speed && cur.2 < min_s {
                    match self.find_settler(f, to) {
                        Some(k) => {
                            let fk = self.c_graph.get(f, k).2;
                            let kt = self.c_graph.get(k, to).2;
                            let s = if fk > kt {
                                kt
                            } else {
                                fk
                            };
                            self.c_graph.set(f, to, TestData(cur.0, true, s));
                        },
                        None => {
                            missing.push(to);
                            proof {
                                assert(missing@.map_values(|x: usize| x as int) =~= before_missing.map_values(
                                    |x: usize| x as int,
                                ).push(to as int));
                            }
                        },
                    }
                }
            }
            to = to + 1;
        }
        let ghost res1 = missing_from(m0, sp, f as int, from_speed, sufficient_speed, n as nat).1;
        // if we found missing links, choose the best one to test first
        if missing.len() == 0 {
            None
        } else {
            let mut best: usize = 0;
            let mut p: usize = 1;
            while p < missing.len()
                invariant
                    self.nodes@ == old(self).nodes@,
                    n == self.nodes@.len(),
                    sp == node_speeds(self.nodes@),
                    missing@.map_values(|x: usize| x as int) == res1,
                    forall|q: int| 0 <= q < missing@.len() ==> #[trigger] missing@[q] < n,
                    1 <= p <= missing@.len(),
                    best == fastest_pos(res1.subrange(0, p as int), sp),
                    best < p,
                decreases missing@.len() - p,
            {
                proof {
                    assert(res1.subrange(0, p + 1).drop_last() =~= res1.subrange(0, p as int));
                    assert(res1.subrange(0, p + 1).last() == res1[p as int]);
                    assert(res1.subrange(0, p + 1)[best as int] == res1[best as int]);
                    assert(res1[p as int] == missing@[p as int] as int);
                    assert(res1[best as int] == missing@[best as int] as int);
                }
                if self.nodes[missing[p]].speed >= self.nodes[missing[best]].speed {
                    best = p;
                }
                p = p + 1;
            }
            proof {
                assert(res1.subrange(0, missing@.len() as int) =~= res1);
                assert(res1[best as int] == missing@[best as int] as int);
            }
            Some(self.nodes[missing[best]])
        }
    }


    /// Removes the first node, by index, for which `predicate` answers true, with its row and
    /// column of tests; the nodes after it move down by one index.
    pub fn remove_one_by<P: Fn(&Node<I>) -> bool>(&mut self, predicate: P) -> (r: Result<(), CGraphError>)
        requires
            old(self).wf(),
            forall|k: int| 0 <= k < old(self).node_list().len() ==> #[trigger] predicate.requires(
                (&old(self).node_list()[k],),
            ),
            exists|k: int|
                0 <= k < old(self).node_list().len() && #[trigger] always_accepts(
                    predicate,
                    old(self).node_list()[k],
                ),
        ensures
            final(self).wf(),
            r is Ok,
            exists|k: int| #![trigger old(self).node_list()[k]]
                {
                    &&& 0 <= k < old(self).node_list().len()
                    &&& predicate.ensures((&old(self).node_list()[k],), true)
                    &&& forall|q: int|
                        0 <= q < k ==> #[trigger] predicate.ensures(
                            (&old(self).node_list()[q],),
                            false,
                        )
                    &&& final(self).node_list().len() == old(self).node_list().len() - 1
                    &&& forall|p: int|
                        0 <= p < final(self).node_list().len() ==> (#[trigger] final(self).node_list()[p])@
                            == (
                            p as usize,
                            old(self).node_list()[skip_index(p, k)]@.1,
                            old(self).node_list()[skip_index(p, k)]@.2,
                        )
                    &&& final(self).tests().len() == old(self).tests().len() - 1
                    &&& forall|a: int, b: int|
                        0 <= a < final(self).tests().len() && 0 <= b < final(self).tests().len()
                            ==> #[trigger] final(self).tests()[a][b] == old(self).tests()[skip_index(
                            a,
                            k,
                        )][skip_index(b, k)]
                },
    {
        let n = self.nodes.len();
        let ghost w = choose|k: int|
            0 <= k < old(self).node_list().len() && #[trigger] always_accepts(
                predicate,
                old(self).node_list()[k],
            );
        let mut k: usize = 0;
        loop
            invariant
                self.wf(),
                n == self.nodes@.len(),
                *self == *old(self),
                k <= w < n,
                always_accepts(predicate, self.nodes@[w]),
                forall|q: int| 0 <= q < n ==> #[trigger] predicate.requires((&self.nodes@[q],)),
                forall|q: int| 0 <= q < k ==> #[trigger] predicate.ensures((&self.nodes@[q],), false),
            ensures
                self.wf(),
                *self == *old(self),
                k < n,
                predicate.ensures((&self.nodes@[k as int],), true),
                forall|q: int| 0 <= q < k ==> #[trigger] predicate.ensures((&self.nodes@[q],), false),
            decreases w - k,
        {
            let found = predicate(&self.nodes[k]);
            if found {
                break;
            }
            k = k + 1;
        }
        let ghost old_nodes = self.nodes@;
        let ghost old_tests = self.c_graph@;
        let cgraph = self.c_graph.remove_id(k);
        // Now, as the matrix changed, the indexes stored inside the nodes are not correct anymore.
        // All indexes greater than the index of the node we removed must be reduced by 1.
        let mut new_nodes: Vec<Node<I>> = Vec::new();
        let mut q: usize = 0;
        while q < n
            invariant
                n == old_nodes.len(),
                old_nodes == self.nodes@,
                k < n,
                q <= n,
                forall|p: int| 0 <= p < n ==> (#[trigger] old_nodes[p])@.0 == p,
                new_nodes@.len() == if q <= k {
                    q as int
                } else {
                    q - 1
                },
                forall|p: int|
                    0 <= p < new_nodes@.len() ==> (#[trigger] new_nodes@[p])@ == (
                        p as usize,
                        old_nodes[skip_index(p, k as int)]@.1,
                        old_nodes[skip_index(p, k as int)]@.2,
                    ),
            decreases n - q,
        {
            if q != k {
                let nd = self.nodes[q];
                if nd.index > k {
                    new_nodes.push(Node::build(nd.index - 1, nd.speed, nd.info));
                } else {
                    new_nodes.push(nd);
                }
            }
            q = q + 1;
        }
        proof {
            lemma_triangle_len(n as nat);
            lemma_triangle_len((n - 1) as nat);
            assert((n - 1) * n <= n * (n + 1)) by (nonlinear_arith)
                requires
                    n >= 1,
            ;
            assert forall|a: int, b: int|
                0 <= a < b < new_nodes@.len() implies (#[trigger] new_nodes@[a])@.2 != (
                #[trigger] new_nodes@[b])@.2 by {
                let a2 = skip_index(a, k as int);
                let b2 = skip_index(b, k as int);
                assert(old_nodes[a2]@.2 != old_nodes[b2]@.2);
            }
        }
        self.c_graph = cgraph;
        self.nodes = new_nodes;
        proof {
            let kk = k as int;
            assert(old(self).node_list()[kk] == old_nodes[kk]);
            assert(forall|q: int|
                0 <= q < kk ==> #[trigger] predicate.ensures((&old(self).node_list()[q],), false));
        }
        Ok(())
    }

    pub fn is_empty(&self) -> (b: bool)
        ensures
            b == (self.node_list().len() == 0),
    {
        self.nodes.len() == 0
    }
}

} // verus!

//! The emulated network: vertices joined by links of given bandwidth, and the paths between
//! them under one of two strategies: the path of fewest hops, or the path of largest bottleneck.
use vstd::prelude::*;
use vstd::laws_eq::obeys_concrete_eq;
use vstd::std_specs::cmp::PartialEqSpec;
use crate::matrix::{SymMatrix, sym_update, is_square, triangle_len};
use crate::paths::{adjacent, weight, reach, reachable, hops, shortest_tree, carry, carries, widest_tree, parents_acyclic, ranked, count_none, lemma_count_none_le, lemma_count_none_update, pot, pot_sum, lemma_pot_sum_nonneg, lemma_pot_sum_update, lemma_reach_mono, lemma_reach_stable, lemma_carry_mono, lemma_carries_extend, lemma_carry_complete, min_u32, passed_on, lemma_remove_keeps, lemma_push_keeps, bottleneck, follows, connected, strategy_tree, bandwidth_along, path_along, edge_is, on_edges, updated_along, lemma_edges_distinct};

verus! {

/// Whether a link carries its bandwidth in both directions at once, or shares it.
#[derive(Copy, Clone, Debug, PartialEq, Eq)]
pub enum Duplex {
    HalfDuplex,
    FullDuplex,
}

/// The latency and jitter of a link, as IEEE-754 encodings of `f32` values.
#[derive(Copy, Clone, Debug, PartialEq, Eq)]
pub struct LatencyJitter {
    pub latency: u32,
    pub jitter: u32,
}

/// A link between two vertices.
///
/// `drop` and the two values of `latency_jitter` are the IEEE-754 encodings of 32-bit
/// floating-point values (`f32::to_bits`): the library carries them along the links and paths
/// and never interprets them.
#[derive(Copy, Clone, Debug)]
pub struct Link<T> {
    /// Index, in the graph, of the source.
    pub internal_source: usize,
    /// Index, in the graph, of the destination.
    pub internal_destination: usize,
    pub source: T,
    pub destination: T,
    pub bandwidth: u32,
    pub drop: u32,
    pub latency_jitter: LatencyJitter,
    pub duplex: Duplex,
}

/// The bandwidth a link offers: its bandwidth, or half of it when the link is half-duplex.
pub open spec fn effective_bandwidth<T>(l: Link<T>) -> u32 {
    match l.duplex {
        Duplex::FullDuplex => l.bandwidth,
        Duplex::HalfDuplex => l.bandwidth / 2,
    }
}

impl<T: Copy> Link<T> {
    /// The indices, in the graph, of the two ends, the smaller first.
    pub open spec fn ends(self) -> (usize, usize) {
        if self.internal_source <= self.internal_destination {
            (self.internal_source, self.internal_destination)
        } else {
            (self.internal_destination, self.internal_source)
        }
    }

    /// The indices, in the graph, of the source and the destination.
    pub open spec fn internal(self) -> (usize, usize) {
        (self.internal_source, self.internal_destination)
    }

    fn build(
        source: T,
        destination: T,
        internal_source: usize,
        internal_destination: usize,
        bandwidth: u32,
    ) -> (l: Link<T>)
        ensures
            l.internal() == (internal_source, internal_destination),
            l.source == source,
            l.destination == destination,
            l.bandwidth == bandwidth,
            l.drop == 0,
            l.latency_jitter == (LatencyJitter { latency: 0, jitter: 0 }),
            l.duplex == Duplex::FullDuplex,
    {
        Link {
            internal_source,
            internal_destination,
            source,
            destination,
            bandwidth,
            latency_jitter: LatencyJitter { latency: 0, jitter: 0 },
            drop: 0,
            duplex: Duplex::FullDuplex,
        }
    }

    fn build_all(
        source: T,
        destination: T,
        internal_source: usize,
        internal_destination: usize,
        bandwidth: u32,
        latency_jitter: LatencyJitter,
        drop: u32,
    ) -> (l: Link<T>)
        ensures
            l.internal() == (internal_source, internal_destination),
            l.source == source,
            l.destination == destination,
            l.bandwidth == bandwidth,
            l.drop == drop,
            l.latency_jitter == latency_jitter,
            l.duplex == Duplex::FullDuplex,
    {
        Link {
            internal_source,
            internal_destination,
            source,
            destination,
            bandwidth,
            latency_jitter,
            drop,
            duplex: Duplex::FullDuplex,
        }
    }

    pub fn set_duplex(&mut self, duplex: Duplex)
        ensures
            *final(self) == (Link { duplex, ..*old(self) }),
    {
        self.duplex = duplex;
    }

    /// The bandwidth the link offers.
    pub fn bandwidth(&self) -> (b: u32)
        ensures
            b == effective_bandwidth(*self),
    {
        match self.duplex {
            Duplex::FullDuplex => self.bandwidth,
            Duplex::HalfDuplex => self.bandwidth / 2,
        }
    }

    /// Two links are the same link when they join the same two vertices, in either direction.
    pub fn same_link(&self, other: &Link<T>) -> (b: bool)
        ensures
            b == (self.ends() == other.ends()),
    {
        let (a1, b1) = if self.internal_source <= self.internal_destination {
            (self.internal_source, self.internal_destination)
        } else {
            (self.internal_destination, self.internal_source)
        };
        let (a2, b2) = if other.internal_source <= other.internal_destination {
            (other.internal_source, other.internal_destination)
        } else {
            (other.internal_destination, other.internal_source)
        };
        a1 == a2 && b1 == b2
    }
}

/// The strategy used to choose the path between two vertices.
#[derive(Copy, Clone, Debug, PartialEq, Eq)]
pub enum PathStrategy {
    /// The path of largest bottleneck bandwidth.
    WidestPath,
    /// The path of fewest hops.
    ShortestPath,
}

/// A path: its links in order from the source, without repetition.
#[derive(Clone, Debug)]
pub struct Path<T> {
    links: Vec<Link<T>>,
}

impl<T: Copy> View for Path<T> {
    type V = Seq<Link<T>>;

    closed spec fn view(&self) -> Seq<Link<T>> {
        self.links@
    }
}

/// `s` does not hold the same link twice.
pub open spec fn distinct_links<T: Copy>(s: Seq<Link<T>>) -> bool {
    forall|i: int, j: int| 0 <= i < j < s.len() ==> s[i].ends() != s[j].ends()
}

/// `s` holds a link joining the same vertices as `l`.
pub open spec fn holds_link<T: Copy>(s: Seq<Link<T>>, l: Link<T>) -> bool {
    exists|i: int| 0 <= i < s.len() && #[trigger] s[i].ends() == l.ends()
}

impl<T: Copy> Path<T> {
    /// An empty path.
    pub fn new() -> (p: Path<T>)
        ensures
            p@.len() == 0,
    {
        Path { links: Vec::new() }
    }

    /// The links of this path that the other path has too, in the order of this path.
    pub fn shared_edges(&self, other: &Path<T>) -> (s: Vec<Link<T>>)
        ensures
            forall|i: int| 0 <= i < s@.len() ==> holds_link(self@, #[trigger] s@[i]) && holds_link(other@, s@[i]),
            forall|i: int| 0 <= i < self@.len() && holds_link(other@, #[trigger] self@[i]) ==> holds_link(s@, self@[i]),
            s@.len() <= self@.len(),
    {
        let mut s: Vec<Link<T>> = Vec::new();
        let mut i: usize = 0;
        while i < self.links.len()
            invariant
                i <= self.links@.len(),
                s@.len() <= i,
                forall|k: int| 0 <= k < s@.len() ==> holds_link(self@, #[trigger] s@[k]) && holds_link(other@, s@[k]),
                forall|k: int| 0 <= k < i && holds_link(other@, #[trigger] self@[k]) ==> holds_link(s@, self@[k]),
            decreases self.links@.len() - i,
        {
            let mut j: usize = 0;
            let mut found = false;
            while j < other.links.len()
                invariant
                    j <= other.links@.len(),
                    i < self.links@.len(),
                    found ==> holds_link(other@, self@[i as int]),
                    !found ==> forall|k: int| 0 <= k < j ==> #[trigger] other@[k].ends() != self@[i as int].ends(),
                decreases other.links@.len() - j,
            {
                if self.links[i].same_link(&other.links[j]) {
                    found = true;
                }
                j = j + 1;
            }
            if found {
                let ghost before = s@;
                s.push(self.links[i]);
                proof {
                    assert(s@[s@.len() - 1] == self@[i as int]);
                    assert(holds_link(self@, self@[i as int]));
                    assert forall|k: int| 0 <= k < i + 1 && holds_link(other@, #[trigger] self@[k]) implies holds_link(s@, self@[k]) by {
                        if k < i {
                            let q = choose|q: int| 0 <= q < before.len() && #[trigger] before[q].ends() == self@[k].ends();
                            assert(s@[q] == before[q]);
                        } else {
                            assert(s@[s@.len() - 1].ends() == self@[k].ends());
                        }
                    }
                }
            }
            i = i + 1;
        }
        s
    }

    /// The links of the path.
    pub fn links_set(&self) -> (s: Vec<Link<T>>)
        ensures
            s@ == self@,
    {
        let mut s: Vec<Link<T>> = Vec::new();
        let mut i: usize = 0;
        while i < self.links.len()
            invariant
                i <= self.links@.len(),
                s@ == self@.subrange(0, i as int),
            decreases self.links@.len() - i,
        {
            s.push(self.links[i]);
            i = i + 1;
        }
        s
    }
}

/// The mapping of vertices to indices after inserting `(v, i)`: the entry of `v` gets index
/// `i` if there is one, else the entry is added.
pub open spec fn mapper_insert<T>(m: Seq<(T, usize)>, v: T, i: usize) -> Seq<(T, usize)> {
    if exists|j: int| 0 <= j < m.len() && #[trigger] m[j].0 == v {
        let j = choose|j: int| 0 <= j < m.len() && #[trigger] m[j].0 == v;
        m.update(j, (v, i))
    } else {
        m.push((v, i))
    }
}

/// The mapping built by inserting `(vs[i], i)` for `i` in `0 .. k`.
pub open spec fn mapper_build<T>(vs: Seq<T>, k: nat) -> Seq<(T, usize)>
    decreases k,
{
    if k == 0 {
        Seq::empty()
    } else {
        mapper_insert(mapper_build(vs, (k - 1) as nat), vs[k - 1], (k - 1) as usize)
    }
}

/// The index that the mapping gives `v`, if any.
pub open spec fn index_of<T>(m: Seq<(T, usize)>, v: T) -> Option<usize> {
    if exists|j: int| 0 <= j < m.len() && #[trigger] m[j].0 == v {
        let j = choose|j: int| 0 <= j < m.len() && #[trigger] m[j].0 == v;
        Some(m[j].1)
    } else {
        None
    }
}

/// No two entries of the mapping are for the same vertex.
pub open spec fn keys_distinct<T>(m: Seq<(T, usize)>) -> bool {
    forall|a: int, b: int| 0 <= a < b < m.len() ==> #[trigger] m[a].0 != #[trigger] m[b].0
}

proof fn lemma_index_of_at<T>(m: Seq<(T, usize)>, j: int)
    requires
        keys_distinct(m),
        0 <= j < m.len(),
    ensures
        index_of(m, m[j].0) == Some(m[j].1),
{
    let v = m[j].0;
    assert(0 <= j < m.len() && m[j].0 == v);
    let k = choose|k: int| 0 <= k < m.len() && #[trigger] m[k].0 == v;
    if k != j {
        if k < j {
            assert(m[k].0 != m[j].0);
        } else {
            assert(m[j].0 != m[k].0);
        }
    }
}

proof fn lemma_mapper_insert<T>(m: Seq<(T, usize)>, v: T, i: usize, n: nat)
    requires
        keys_distinct(m),
        forall|j: int| 0 <= j < m.len() ==> #[trigger] m[j].1 < n,
        i < n,
    ensures
        keys_distinct(mapper_insert(m, v, i)),
        forall|j: int| 0 <= j < mapper_insert(m, v, i).len() ==> #[trigger] mapper_insert(m, v, i)[j].1 < n,
{
    let r = mapper_insert(m, v, i);
    if exists|j: int| 0 <= j < m.len() && #[trigger] m[j].0 == v {
        let j = choose|j: int| 0 <= j < m.len() && #[trigger] m[j].0 == v;
        assert forall|a: int, b: int| 0 <= a < b < r.len() implies #[trigger] r[a].0 != #[trigger] r[b].0 by {
            assert(m[a].0 != m[b].0);
        }
    } else {
        assert forall|a: int, b: int| 0 <= a < b < r.len() implies #[trigger] r[a].0 != #[trigger] r[b].0 by {
            if b < m.len() {
                assert(m[a].0 != m[b].0);
            } else {
                assert(r[b].0 == v);
                assert(m[a].0 != v);
            }
        }
    }
}

/// The network: a symmetric matrix of optional links between its vertices, and the mapping
/// of each vertex to its index in the matrix.
#[derive(Clone, Debug)]
pub struct Network<T: Copy> {
    links: SymMatrix<Option<Link<T>>>,
    mapper: Vec<(T, usize)>,
    path_strategy: PathStrategy,
}

impl<T: Copy + PartialEq> Network<T> {
    /// The links, as a full symmetric matrix indexed by vertex index.
    pub closed spec fn graph(&self) -> Seq<Seq<Option<Link<T>>>> {
        self.links@
    }

    /// The vertices and their indices in the matrix.
    pub closed spec fn mapping(&self) -> Seq<(T, usize)> {
        self.mapper@
    }

    /// The path strategy.
    pub closed spec fn strategy(&self) -> PathStrategy {
        self.path_strategy
    }

    /// The matrix is well formed and square, the indices fit in 32 bits, the mapping holds
    /// each vertex once and gives indices inside the matrix.
    pub closed spec fn wf(&self) -> bool {
        &&& self.links.wf()
        &&& is_square(self.links@, self.links@.len())
        &&& self.links@.len() < u32::MAX
        &&& keys_distinct(self.mapper@)
        &&& forall|j: int| 0 <= j < self.mapper@.len() ==> #[trigger] self.mapper@[j].1 < self.links@.len()
    }

    /// A network with the given vertices and no link: vertex `vertices[i]` gets index `i`;
    /// a vertex given twice gets the index of its last occurrence.
    pub fn new(vertices: &Vec<T>, path_strategy: PathStrategy) -> (net: Network<T>)
        requires
            triangle_len(vertices@.len()) <= usize::MAX,
            vertices@.len() < u32::MAX,
            obeys_concrete_eq::<T>(),
        ensures
            net.wf(),
            net.graph().len() == vertices@.len(),
            forall|r: int, c: int| 0 <= r < vertices@.len() && 0 <= c < vertices@.len() ==> #[trigger] net.graph()[r][c] is None,
            net.mapping() == mapper_build(vertices@, vertices@.len()),
            net.strategy() == path_strategy,
    {
        proof {
            reveal(obeys_concrete_eq);
        }
        let n = vertices.len();
        let empty = |_r: usize, _c: usize| -> (o: Option<Link<T>>)
            ensures
                o is None,
            { None };
        let links = SymMatrix::new_fn(n, empty);
        let mut mapper: Vec<(T, usize)> = Vec::new();
        let mut i: usize = 0;
        while i < n
            invariant
                i <= n,
                n == vertices@.len(),
                T::obeys_eq_spec(),
                forall|x: T, y: T| x.eq_spec(&y) <==> (x == y),
                mapper@ == mapper_build(vertices@, i as nat),
                keys_distinct(mapper@),
                forall|j: int| 0 <= j < mapper@.len() ==> #[trigger] mapper@[j].1 < n,
            decreases n - i,
        {
            let v = vertices[i];
            let ghost before = mapper@;
            proof {
                lemma_mapper_insert(before, v, i, n as nat);
            }
            let mut j: usize = 0;
            let mut found = false;
            while j < mapper.len()
                invariant
                    j <= mapper@.len(),
                    mapper@ == before,
                    T::obeys_eq_spec(),
                    forall|x: T, y: T| x.eq_spec(&y) <==> (x == y),
                    forall|q: int| 0 <= q < j ==> #[trigger] before[q].0 != v,
                    found ==> j < mapper@.len() && before[j as int].0 == v,
                ensures
                    found ==> j < mapper@.len() && before[j as int].0 == v,
                    !found ==> j == mapper@.len(),
                decreases mapper@.len() - j,
            {
                if mapper[j].0 == v {
                    found = true;
                    break;
                }
                j = j + 1;
            }
            proof {
                assert(mapper_build(vertices@, (i + 1) as nat) == mapper_insert(before, v, i));
            }
            if found {
                proof {
                    let k = choose|k: int| 0 <= k < before.len() && #[trigger] before[k].0 == v;
                    if k != j {
                        if k < j {
                            assert(before[k].0 != before[j as int].0);
                        } else {
                            assert(before[j as int].0 != before[k].0);
                        }
                    }
                }
                mapper.set(j, (v, i));
            } else {
                mapper.push((v, i));
            }
            i = i + 1;
        }
        proof {
            let g = links@;
            links.lemma_view_square_symmetric();
            assert forall|r: int, c: int| 0 <= r < n && 0 <= c < n implies #[trigger] g[r][c] is None by {
                if r > c {
                    assert(empty.ensures((c as usize, r as usize), g[c][r]));
                    assert(g[r][c] == g[c][r]);
                } else {
                    assert(empty.ensures((r as usize, c as usize), g[r][c]));
                }
            }
        }
        Network { links, mapper, path_strategy }
    }

    /// The index of `vertex` in the matrix, if it is in the network.
    fn map(&self, vertex: &T) -> (r: Option<usize>)
        requires
            self.wf(),
            obeys_concrete_eq::<T>(),
        ensures
            r == index_of(self.mapping(), *vertex),
            r matches Some(i) ==> i < self.graph().len(),
    {
        proof {
            reveal(obeys_concrete_eq);
        }
        let mut j: usize = 0;
        while j < self.mapper.len()
            invariant
                self.wf(),
                j <= self.mapper@.len(),
                T::obeys_eq_spec(),
                forall|x: T, y: T| x.eq_spec(&y) <==> (x == y),
                forall|q: int| 0 <= q < j ==> #[trigger] self.mapper@[q].0 != *vertex,
            decreases self.mapper@.len() - j,
        {
            if self.mapper[j].0 == *vertex {
                proof {
                    lemma_index_of_at(self.mapper@, j as int);
                }
                return Some(self.mapper[j].1);
            }
            j = j + 1;
        }
        None
    }

    /// The indices of both vertices, if both are in the network.
    fn map_two(&self, vertex1: &T, vertex2: &T) -> (r: Option<(usize, usize)>)
        requires
            self.wf(),
            obeys_concrete_eq::<T>(),
        ensures
            r matches Some(p) ==> index_of(self.mapping(), *vertex1) == Some(p.0) && index_of(self.mapping(), *vertex2) == Some(p.1) && p.0 < self.graph().len() && p.1 < self.graph().len(),
            r is None ==> index_of(self.mapping(), *vertex1) is None || index_of(self.mapping(), *vertex2) is None,
    {
        let ver1 = self.map(vertex1);
        let ver2 = self.map(vertex2);
        match (ver1, ver2) {
            (Some(a), Some(b)) => Some((a, b)),
            _ => None,
        }
    }

    /// A copy of the network: the same links, vertices and strategy.
    pub fn duplicate(&self) -> (net: Network<T>)
        requires
            self.wf(),
        ensures
            net.wf(),
            net.graph() == self.graph(),
            net.mapping() == self.mapping(),
            net.strategy() == self.strategy(),
    {
        let mut mapper: Vec<(T, usize)> = Vec::new();
        let mut j: usize = 0;
        while j < self.mapper.len()
            invariant
                j <= self.mapper@.len(),
                mapper@ == self.mapper@.subrange(0, j as int),
            decreases self.mapper@.len() - j,
        {
            mapper.push(self.mapper[j]);
            j = j + 1;
        }
        proof {
            assert(mapper@ =~= self.mapper@);
        }
        Network { links: self.links.duplicate(), mapper, path_strategy: self.path_strategy }
    }

    /// The vertices of the network.
    pub fn vertices(&self) -> (v: Vec<T>)
        ensures
            v@ == self.mapping().map_values(|e: (T, usize)| e.0),
    {
        let mut v: Vec<T> = Vec::new();
        let mut j: usize = 0;
        while j < self.mapper.len()
            invariant
                j <= self.mapper@.len(),
                v@ == self.mapper@.subrange(0, j as int).map_values(|e: (T, usize)| e.0),
            decreases self.mapper@.len() - j,
        {
            v.push(self.mapper[j].0);
            proof {
                assert(self.mapper@.subrange(0, j + 1).map_values(|e: (T, usize)| e.0) =~= self.mapper@.subrange(0, j as int).map_values(|e: (T, usize)| e.0).push(self.mapper@[j as int].0));
            }
            j = j + 1;
        }
        proof {
            assert(self.mapper@.subrange(0, self.mapper@.len() as int) =~= self.mapper@);
        }
        v
    }

    /// Replaces, in the mapping, the vertex equal to `new_vertex` by `new_vertex`, keeping its
    /// index; does nothing when no vertex is equal to it.
    pub fn edit_vertex(&mut self, new_vertex: T)
        requires
            old(self).wf(),
            obeys_concrete_eq::<T>(),
        ensures
            final(self).wf(),
            final(self).graph() == old(self).graph(),
            final(self).strategy() == old(self).strategy(),
            final(self).mapping() == mapper_insert(
                old(self).mapping(),
                new_vertex,
                match index_of(old(self).mapping(), new_vertex) {
                    Some(i) => i,
                    None => 0,
                },
            ) || index_of(old(self).mapping(), new_vertex) is None && final(self).mapping() == old(self).mapping(),
    {
        proof {
            reveal(obeys_concrete_eq);
        }
        let mut j: usize = 0;
        while j < self.mapper.len()
            invariant
                self.wf(),
                *self == *old(self),
                j <= self.mapper@.len(),
                T::obeys_eq_spec(),
                forall|x: T, y: T| x.eq_spec(&y) <==> (x == y),
                forall|q: int| 0 <= q < j ==> #[trigger] self.mapper@[q].0 != new_vertex,
            decreases self.mapper@.len() - j,
        {
            if self.mapper[j].0 == new_vertex {
                let idx = self.mapper[j].1;
                proof {
                    lemma_index_of_at(self.mapper@, j as int);
                    let k = choose|k: int| 0 <= k < self.mapper@.len() && #[trigger] self.mapper@[k].0 == new_vertex;
                    if k != j {
                        if k < j {
                            assert(self.mapper@[k].0 != self.mapper@[j as int].0);
                        } else {
                            assert(self.mapper@[j as int].0 != self.mapper@[k].0);
                        }
                    }
                }
                self.mapper.set(j, (new_vertex, idx));
                proof {
                    lemma_mapper_insert(old(self).mapper@, new_vertex, idx, self.links@.len());
                }
                return;
            }
            j = j + 1;
        }
    }
}


impl<T: Copy + PartialEq> Network<T> {
    /// Two vectors of `n` entries that hold nothing.
    fn empty_labels(n: usize) -> (r: (Vec<Option<u32>>, Vec<Option<usize>>))
        ensures
            r.0@.len() == n,
            r.1@.len() == n,
            forall|v: int| 0 <= v < n ==> #[trigger] r.0@[v] is None && r.1@[v] is None,
    {
        let mut dist: Vec<Option<u32>> = Vec::new();
        let mut parents: Vec<Option<usize>> = Vec::new();
        let mut i: usize = 0;
        while i < n
            invariant
                i <= n,
                dist@.len() == i,
                parents@.len() == i,
                forall|v: int| 0 <= v < i ==> #[trigger] dist@[v] is None && parents@[v] is None,
            decreases n - i,
        {
            dist.push(None);
            parents.push(None);
            i = i + 1;
        }
        (dist, parents)
    }

    /// The fewest-hop distance from `from` to every vertex, and the tree of fewest-hop paths
    /// in which each vertex hangs from the vertex of smallest index one hop closer.
    ///
    /// The vertices are labelled level by level: those at distance `d + 1` from the vertices
    /// at distance `d`, taken in increasing index; this is the order in which a priority
    /// queue ordered by distance, then index, hands them out.
    fn shortest_path(&self, from: usize) -> (r: (Vec<Option<u32>>, Vec<Option<usize>>))
        requires
            self.wf(),
            from < self.graph().len(),
        ensures
            shortest_tree(self.graph(), from as int, r.0@, r.1@),
    {
        let n = self.links.size();
        let ghost g = self.graph();
        let (mut dist, mut parents) = Self::empty_labels(n);
        proof {
            lemma_count_none_update(dist@, from as int, 0u32);
            lemma_count_none_le(dist@);
        }
        let ghost empty = dist@;
        dist.set(from, Some(0));
        proof {
            assert forall|v: int| 0 <= v < n implies (#[trigger] parents@[v] is None <==> (v == from || dist@[v] is None)) by {
                assert(empty[v] is None && parents@[v] is None);
            }
        }
        let mut d: u32 = 0;
        let mut changed = true;
        while changed
            invariant
                self.wf(),
                g == self.graph(),
                n == g.len(),
                from < n,
                n < u32::MAX,
                dist@.len() == n,
                parents@.len() == n,
                dist@[from as int] == Some(0u32),
                count_none(dist@) + d + 1 <= n,
                forall|v: int| 0 <= v < n ==> (#[trigger] dist@[v] matches Some(k) ==> k <= d && hops(g, from as int, v, k as nat)),
                forall|v: int| 0 <= v < n ==> (#[trigger] dist@[v] is None ==> !reach(g, from as int, v, d as nat)),
                !changed ==> forall|x: int| #[trigger] reach(g, from as int, x, (d + 1) as nat) ==> reach(g, from as int, x, d as nat),
                forall|v: int| 0 <= v < n ==> (#[trigger] parents@[v] is None <==> (v == from || dist@[v] is None)),
                forall|v: int|
                    0 <= v < n ==> (#[trigger] parents@[v] matches Some(p) ==> {
                        &&& p < n
                        &&& adjacent(g, p as int, v)
                        &&& dist@[p as int] matches Some(dp)
                        &&& dist@[v] matches Some(dv)
                        &&& dp + 1 == dv
                        &&& forall|u: int| 0 <= u < p ==> !(#[trigger] adjacent(g, u, v) && dist@[u] == Some(dp))
                    }),
            decreases count_none(dist@) + if changed { 1int } else { 0int },
        {
            changed = false;
            let ghost start = dist@;
            let mut u: usize = 0;
            while u < n
                invariant
                    self.wf(),
                    g == self.graph(),
                    n == g.len(),
                    from < n,
                    n < u32::MAX,
                    u <= n,
                    dist@.len() == n,
                    parents@.len() == n,
                    dist@[from as int] == Some(0u32),
                    count_none(start) + d + 1 <= n,
                    changed ==> count_none(dist@) < count_none(start),
                    !changed ==> dist@ == start,
                    forall|v: int| 0 <= v < n ==> (#[trigger] start[v] matches Some(k) ==> k <= d && hops(g, from as int, v, k as nat)),
                    forall|v: int| 0 <= v < n ==> (#[trigger] start[v] is None ==> !reach(g, from as int, v, d as nat)),
                    forall|v: int| 0 <= v < n ==> (#[trigger] start[v] is Some ==> dist@[v] == start[v]),
                    forall|v: int| 0 <= v < n ==> (#[trigger] dist@[v] matches Some(k) ==> k <= d + 1 && hops(g, from as int, v, k as nat)),
                    forall|v: int| 0 <= v < n ==> (#[trigger] dist@[v] matches Some(k) ==> (start[v] is None ==> k == d + 1)),
                    forall|v: int, w: int|
                        0 <= v < n && 0 <= w < u && #[trigger] dist@[v] is None && #[trigger] dist@[w] == Some(d) ==> !adjacent(g, w, v),
                    forall|v: int| 0 <= v < n ==> (#[trigger] parents@[v] is None <==> (v == from || dist@[v] is None)),
                    forall|v: int|
                        0 <= v < n ==> (#[trigger] parents@[v] matches Some(p) ==> {
                            &&& p < n
                            &&& adjacent(g, p as int, v)
                            &&& dist@[p as int] matches Some(dp)
                            &&& dist@[v] matches Some(dv)
                            &&& dp + 1 == dv
                            &&& forall|x: int| 0 <= x < p ==> !(#[trigger] adjacent(g, x, v) && dist@[x] == Some(dp))
                        }),
                decreases n - u,
            {
                let at_level = match dist[u] {
                    Some(k) => k == d,
                    None => false,
                };
                if at_level {
                    let mut v: usize = 0;
                    while v < n
                        invariant
                            self.wf(),
                            g == self.graph(),
                            n == g.len(),
                            from < n,
                            n < u32::MAX,
                            u < n,
                            v <= n,
                            dist@.len() == n,
                            parents@.len() == n,
                            dist@[u as int] == Some(d),
                            dist@[from as int] == Some(0u32),
                            count_none(start) + d + 1 <= n,
                            changed ==> count_none(dist@) < count_none(start),
                            !changed ==> dist@ == start,
                            forall|x: int| 0 <= x < n ==> (#[trigger] start[x] matches Some(k) ==> k <= d && hops(g, from as int, x, k as nat)),
                            forall|x: int| 0 <= x < n ==> (#[trigger] start[x] is None ==> !reach(g, from as int, x, d as nat)),
                            forall|x: int| 0 <= x < n ==> (#[trigger] start[x] is Some ==> dist@[x] == start[x]),
                            forall|x: int| 0 <= x < n ==> (#[trigger] dist@[x] matches Some(k) ==> k <= d + 1 && hops(g, from as int, x, k as nat)),
                            forall|x: int| 0 <= x < n ==> (#[trigger] dist@[x] matches Some(k) ==> (start[x] is None ==> k == d + 1)),
                            forall|x: int, w: int|
                                0 <= x < n && 0 <= w < u && #[trigger] dist@[x] is None && #[trigger] dist@[w] == Some(d) ==> !adjacent(g, w, x),
                            forall|x: int| 0 <= x < v && #[trigger] dist@[x] is None ==> !adjacent(g, u as int, x),
                            forall|x: int| 0 <= x < n ==> (#[trigger] parents@[x] is None <==> (x == from || dist@[x] is None)),
                            forall|x: int|
                                0 <= x < n ==> (#[trigger] parents@[x] matches Some(p) ==> {
                                    &&& p < n
                                    &&& adjacent(g, p as int, x)
                                    &&& dist@[p as int] matches Some(dp)
                                    &&& dist@[x] matches Some(dx)
                                    &&& dp + 1 == dx
                                    &&& forall|y: int| 0 <= y < p ==> !(#[trigger] adjacent(g, y, x) && dist@[y] == Some(dp))
                                }),
                        decreases n - v,
                    {
                        let linked = v != u && self.links.get(u, v).is_some();
                        let unlabelled = dist[v].is_none();
                        if linked && unlabelled {
                            proof {
                                lemma_count_none_le(dist@);
                                lemma_count_none_update(dist@, v as int, (d + 1) as u32);
                                assert(adjacent(g, u as int, v as int));
                                assert(reach(g, from as int, u as int, d as nat));
                                assert(reach(g, from as int, v as int, (d + 1) as nat));
                                assert(start[v as int] is None);
                            }
                            let ghost before = dist@;
                            dist.set(v, Some(d + 1));
                            parents.set(v, Some(u));
                            changed = true;
                            proof {
                                assert forall|x: int|
                                    0 <= x < n implies (#[trigger] parents@[x] matches Some(p) ==> {
                                        &&& p < n
                                        &&& adjacent(g, p as int, x)
                                        &&& dist@[p as int] matches Some(dp)
                                        &&& dist@[x] matches Some(dx)
                                        &&& dp + 1 == dx
                                        &&& forall|y: int| 0 <= y < p ==> !(#[trigger] adjacent(g, y, x) && dist@[y] == Some(dp))
                                    }) by {
                                    if x == v {
                                        assert forall|y: int| 0 <= y < u implies !(#[trigger] adjacent(g, y, x) && dist@[y] == Some(d)) by {
                                            if adjacent(g, y, x) && dist@[y] == Some(d) {
                                                assert(before[y] == Some(d));
                                                assert(before[x] is None);
                                            }
                                        }
                                    }
                                }
                            }
                        }
                        v = v + 1;
                    }
                }
                u = u + 1;
            }
            proof {
                assert forall|v: int| 0 <= v < n && #[trigger] dist@[v] is None implies !reach(g, from as int, v, (d + 1) as nat) by {
                    if reach(g, from as int, v, (d + 1) as nat) {
                        assert(v != from);
                        let w = choose|w: int| #[trigger] adjacent(g, w, v) && reach(g, from as int, w, d as nat);
                        assert(start[w] is Some);
                        let k = start[w]->0;
                        if k < d {
                            assert(reach(g, from as int, w, k as nat));
                            assert(adjacent(g, w, v) && reach(g, from as int, w, k as nat));
                            assert(reach(g, from as int, v, (k + 1) as nat));
                            lemma_reach_mono(g, from as int, v, (k + 1) as nat, d as nat);
                        } else {
                            assert(dist@[w] == Some(d));
                        }
                    }
                }
                if !changed {
                    assert forall|x: int| #[trigger] reach(g, from as int, x, (d + 1) as nat) implies reach(g, from as int, x, d as nat) by {
                        if 0 <= x < n {
                            if dist@[x] is Some {
                                let k = dist@[x]->0;
                                lemma_reach_mono(g, from as int, x, k as nat, d as nat);
                            }
                        } else {
                            if x != from {
                                let w = choose|w: int| #[trigger] adjacent(g, w, x) && reach(g, from as int, w, d as nat);
                            }
                        }
                    }
                }
            }
            if changed {
                d = d + 1;
            }
        }
        proof {
            assert forall|v: int| 0 <= v < n implies (#[trigger] dist@[v] is None <==> !reachable(g, from as int, v)) by {
                if dist@[v] is None {
                    if reachable(g, from as int, v) {
                        let k = choose|k: nat| #[trigger] reach(g, from as int, v, k);
                        lemma_reach_stable(g, from as int, d as nat, v, k);
                    }
                } else {
                    let k = dist@[v]->0;
                    assert(reach(g, from as int, v, k as nat));
                }
            }
        }
        (dist, parents)
    }
}


/// The rank of a vertex in the tree of widest paths: vertices of larger label first, and
/// among equal labels, those labelled earlier first.
spec fn widest_rank(label: Seq<Option<u32>>, stamp: Seq<int>, clock: int) -> Seq<int> {
    Seq::new(
        label.len(),
        |v: int|
            match label[v] {
                Some(l) => (u32::MAX - l) * clock + stamp[v],
                None => 0,
            },
    )
}

proof fn lemma_widest_rank_order(lp: u32, lv: u32, sp: int, sv: int, clock: int)
    requires
        lp > lv,
        0 <= sp < clock,
        0 <= sv,
    ensures
        0 <= (u32::MAX - lp) * clock + sp < (u32::MAX - lv) * clock + sv,
{
    let a: int = u32::MAX - lp;
    let b: int = u32::MAX - lv;
    assert(0 <= a * clock + sp < b * clock + sv) by (nonlinear_arith)
        requires
            0 <= a,
            a + 1 <= b,
            0 <= sp < clock,
            0 <= sv,
    ;
}

impl<T: Copy + PartialEq> Network<T> {
    /// The largest bottleneck bandwidth from `from` to every vertex, and a tree of paths that
    /// reach it.
    ///
    /// Labels are corrected until no vertex can improve a neighbour: the pending labels wait
    /// in a queue out of which the smallest (label, vertex) comes first, as from a priority
    /// queue ordered that way.
    fn widest_path(&self, from: usize) -> (r: (Vec<Option<u32>>, Vec<Option<usize>>))
        requires
            self.wf(),
            from < self.graph().len(),
        ensures
            widest_tree(self.graph(), from as int, r.0@, r.1@),
            parents_acyclic(r.1@),
    {
        let n = self.links.size();
        let ghost g = self.graph();
        let (mut label, mut parents) = Self::empty_labels(n);
        let ghost empty = label@;
        label.set(from, Some(u32::MAX));
        let mut queue: Vec<(u32, usize)> = Vec::new();
        queue.push((u32::MAX, from));
        let ghost mut stamp: Seq<int> = Seq::new(n as nat, |i: int| 0int);
        let ghost mut clock: int = 1;
        proof {
            assert forall|v: int| 0 <= v < n implies (#[trigger] parents@[v] is None <==> (v == from || label@[v] is None)) by {
                assert(empty[v] is None && parents@[v] is None);
            }
            assert(carry(g, from as int, from as int, u32::MAX as int, 0));
            assert forall|v: int| 0 <= v < n implies (#[trigger] label@[v] matches Some(w) ==> carries(g, from as int, v, w as int)) by {
                assert(empty[v] is None);
                if v == from {
                    assert(carry(g, from as int, v, u32::MAX as int, 0));
                }
            }
            assert forall|x: int| 0 <= x < n implies (#[trigger] label@[x] matches Some(lx) ==> (queue@.contains((lx, x as usize)) || passed_on(g, label@, x))) by {
                assert(empty[x] is None);
                if x == from {
                    assert(queue@[0] == (u32::MAX, from));
                }
            }
        }
        while queue.len() > 0
            invariant
                self.wf(),
                g == self.graph(),
                n == g.len(),
                from < n,
                label@.len() == n,
                parents@.len() == n,
                stamp.len() == n,
                label@[from as int] == Some(u32::MAX),
                forall|v: int| 0 <= v < n ==> (#[trigger] label@[v] matches Some(w) ==> carries(g, from as int, v, w as int)),
                forall|v: int| 0 <= v < n ==> (#[trigger] parents@[v] is None <==> (v == from || label@[v] is None)),
                forall|v: int|
                    0 <= v < n ==> (#[trigger] parents@[v] matches Some(p) ==> {
                        &&& p < n
                        &&& adjacent(g, p as int, v)
                        &&& label@[p as int] matches Some(lp)
                        &&& label@[v] matches Some(lv)
                        &&& lv <= lp
                        &&& lv <= weight(g, p as int, v)
                        &&& (lp > lv || stamp[p as int] < stamp[v])
                    }),
                forall|v: int| 0 <= v < n ==> 0 <= #[trigger] stamp[v] < clock,
                forall|k: int|
                    0 <= k < queue@.len() ==> (#[trigger] queue@[k]).1 < n && (label@[queue@[k].1 as int] matches Some(l) && queue@[k].0 <= l),
                forall|x: int|
                    0 <= x < n ==> (#[trigger] label@[x] matches Some(lx) ==> (queue@.contains((lx, x as usize)) || passed_on(g, label@, x))),
            decreases 2 * pot_sum(label@) + queue@.len(),
        {
            let mut best: usize = 0;
            let mut k: usize = 1;
            while k < queue.len()
                invariant
                    1 <= k <= queue@.len(),
                    best < queue@.len(),
                decreases queue@.len() - k,
            {
                let (bv, bn) = queue[best];
                let (kv, kn) = queue[k];
                if kv < bv || (kv == bv && kn < bn) {
                    best = k;
                }
                k = k + 1;
            }
            let ghost q0 = queue@;
            let ghost m0 = 2 * pot_sum(label@) + queue@.len();
            let (val, u) = queue.remove(best);
            proof {
                lemma_pot_sum_nonneg(label@);
                assert(q0[best as int] == (val, u));
            }
            let lu = match label[u] {
                Some(l) => l,
                None => val,
            };
            if val < lu {
                proof {
                    assert forall|x: int| 0 <= x < n implies (#[trigger] label@[x] matches Some(lx) ==> (queue@.contains((lx, x as usize)) || passed_on(g, label@, x))) by {
                        if label@[x] is Some && !passed_on(g, label@, x) {
                            let lx = label@[x]->0;
                            assert(q0.contains((lx, x as usize)));
                            lemma_remove_keeps(q0, best as int, (lx, x as usize));
                        }
                    }
                    q0.remove_ensures(best as int);
                    assert forall|k: int| 0 <= k < queue@.len() implies (#[trigger] queue@[k]).1 < n && (label@[queue@[k].1 as int] matches Some(l) && queue@[k].0 <= l) by {
                        if k < best {
                            assert(queue@[k] == q0[k]);
                        } else {
                            assert(queue@[k] == q0[k + 1]);
                        }
                    }
                }
            } else {
                proof {
                    q0.remove_ensures(best as int);
                    assert forall|k: int| 0 <= k < queue@.len() implies (#[trigger] queue@[k]).1 < n && (label@[queue@[k].1 as int] matches Some(l) && queue@[k].0 <= l) by {
                        if k < best {
                            assert(queue@[k] == q0[k]);
                        } else {
                            assert(queue@[k] == q0[k + 1]);
                        }
                    }
                    assert forall|x: int| 0 <= x < n && x != u implies (#[trigger] label@[x] matches Some(lx) ==> (queue@.contains((lx, x as usize)) || passed_on(g, label@, x))) by {
                        if label@[x] is Some && !passed_on(g, label@, x) {
                            let lx = label@[x]->0;
                            assert(q0.contains((lx, x as usize)));
                            lemma_remove_keeps(q0, best as int, (lx, x as usize));
                        }
                    }
                }
                let mut v: usize = 0;
                while v < n
                    invariant
                        self.wf(),
                        g == self.graph(),
                        n == g.len(),
                        from < n,
                        u < n,
                        v <= n,
                        label@.len() == n,
                        parents@.len() == n,
                        stamp.len() == n,
                        label@[from as int] == Some(u32::MAX),
                        label@[u as int] == Some(lu),
                        2 * pot_sum(label@) + queue@.len() < m0,
                        forall|v: int| 0 <= v < n ==> (#[trigger] label@[v] matches Some(w) ==> carries(g, from as int, v, w as int)),
                        forall|v: int| 0 <= v < n ==> (#[trigger] parents@[v] is None <==> (v == from || label@[v] is None)),
                        forall|v: int|
                            0 <= v < n ==> (#[trigger] parents@[v] matches Some(p) ==> {
                                &&& p < n
                                &&& adjacent(g, p as int, v)
                                &&& label@[p as int] matches Some(lp)
                                &&& label@[v] matches Some(lv)
                                &&& lv <= lp
                                &&& lv <= weight(g, p as int, v)
                                &&& (lp > lv || stamp[p as int] < stamp[v])
                            }),
                        forall|v: int| 0 <= v < n ==> 0 <= #[trigger] stamp[v] < clock,
                        forall|k: int|
                            0 <= k < queue@.len() ==> (#[trigger] queue@[k]).1 < n && (label@[queue@[k].1 as int] matches Some(l) && queue@[k].0 <= l),
                        forall|x: int|
                            0 <= x < n && x != u ==> (#[trigger] label@[x] matches Some(lx) ==> (queue@.contains((lx, x as usize)) || passed_on(g, label@, x))),
                        forall|y: int|
                            0 <= y < v && #[trigger] adjacent(g, u as int, y) ==> (label@[y] matches Some(ly) && ly >= min_u32(lu, weight(g, u as int, y))),
                    decreases n - v,
                {
                    if v != u {
                        match self.links.get(u, v) {
                            Some(link) => {
                                let w = link.bandwidth();
                                let m = if lu <= w { lu } else { w };
                                let better = match label[v] {
                                    Some(bw) => {
                                        let current = if bw >= m { bw } else { m };
                                        current > bw
                                    },
                                    None => true,
                                };
                                if better {
                                    let ghost old_label = label@;
                                    let ghost old_queue = queue@;
                                    let ghost old_stamp = stamp;
                                    proof {
                                        assert(adjacent(g, u as int, v as int));
                                        assert(w == weight(g, u as int, v as int));
                                        lemma_carries_extend(g, from as int, u as int, v as int, lu as int, m as int);
                                        lemma_pot_sum_update(label@, v as int, Some(m));
                                    }
                                    label.set(v, Some(m));
                                    parents.set(v, Some(u));
                                    queue.push((m, v));
                                    proof {
                                        stamp = stamp.update(v as int, clock);
                                        clock = clock + 1;
                                        assert forall|x: int| 0 <= x < n implies 0 <= #[trigger] stamp[x] < clock by {
                                            if x != v {
                                                assert(stamp[x] == old_stamp[x]);
                                                assert(0 <= old_stamp[x] < clock - 1);
                                            }
                                        }
                                        assert forall|x: int| 0 <= x < n && x != u implies (#[trigger] label@[x] matches Some(lx) ==> (queue@.contains((lx, x as usize)) || passed_on(g, label@, x))) by {
                                            if x == v {
                                                assert(queue@[queue@.len() - 1] == (m, v));
                                            } else if label@[x] is Some {
                                                let lx = label@[x]->0;
                                                if old_queue.contains((lx, x as usize)) {
                                                    lemma_push_keeps(old_queue, (m, v), (lx, x as usize));
                                                } else {
                                                    assert(passed_on(g, old_label, x));
                                                    assert forall|y: int| #[trigger] adjacent(g, x, y) implies (label@[y] matches Some(ly) && ly >= min_u32(label@[x]->Some_0, weight(g, x, y))) by {
                                                        assert(old_label[y] is Some);
                                                    }
                                                }
                                            }
                                        }
                                        assert forall|k: int| 0 <= k < queue@.len() implies (#[trigger] queue@[k]).1 < n && (label@[queue@[k].1 as int] matches Some(l) && queue@[k].0 <= l) by {
                                            if k < old_queue.len() {
                                                assert(queue@[k] == old_queue[k]);
                                            }
                                        }
                                        assert forall|x: int|
                                            0 <= x < n implies (#[trigger] parents@[x] matches Some(p) ==> {
                                                &&& p < n
                                                &&& adjacent(g, p as int, x)
                                                &&& label@[p as int] matches Some(lp)
                                                &&& label@[x] matches Some(lx)
                                                &&& lx <= lp
                                                &&& lx <= weight(g, p as int, x)
                                                &&& (lp > lx || stamp[p as int] < stamp[x])
                                            }) by {
                                            if x != v && parents@[x] is Some {
                                                let p = parents@[x]->0;
                                                assert(old_label[x] is Some);
                                            }
                                        }
                                    }
                                }
                            },
                            None => {},
                        }
                    }
                    v = v + 1;
                }
            }
            proof {
                lemma_pot_sum_nonneg(label@);
            }
        }
        proof {
            assert forall|x: int| 0 <= x < g.len() && #[trigger] label@[x] is Some implies passed_on(g, label@, x) by {
                let lx = label@[x]->0;
                assert(!queue@.contains((lx, x as usize)));
            }
            assert forall|v: int| 0 <= v < g.len() implies {
                &&& (#[trigger] label@[v] is None <==> !carries(g, from as int, v, 0))
                &&& (v != from ==> (label@[v] matches Some(w) ==> carries(g, from as int, v, w as int) && !carries(g, from as int, v, w + 1)))
                &&& (parents@[v] is None <==> (v == from || label@[v] is None))
                &&& (parents@[v] matches Some(p) ==> {
                    &&& adjacent(g, p as int, v)
                    &&& label@[p as int] matches Some(lp)
                    &&& label@[v] matches Some(lv)
                    &&& lv == min_u32(lp, weight(g, p as int, v))
                })
            } by {
                if label@[v] is None {
                    if carries(g, from as int, v, 0) {
                        let k = choose|k: nat| #[trigger] carry(g, from as int, v, 0, k);
                        lemma_carry_complete(g, from as int, label@, v, 0, k);
                    }
                } else {
                    let w = label@[v]->0;
                    let k = choose|k: nat| #[trigger] carry(g, from as int, v, w as int, k);
                    lemma_carry_mono(g, from as int, v, w as int, 0, k);
                    if v != from && carries(g, from as int, v, w + 1) {
                        let k2 = choose|k: nat| #[trigger] carry(g, from as int, v, w + 1, k);
                        if w < u32::MAX {
                            lemma_carry_complete(g, from as int, label@, v, w + 1, k2);
                        }
                    }
                }
                if parents@[v] is Some {
                    let p = parents@[v]->0;
                    let lp = label@[p as int]->0;
                    let m = min_u32(lp, weight(g, p as int, v));
                    lemma_carries_extend(g, from as int, p as int, v, lp as int, m as int);
                    let k = choose|k: nat| #[trigger] carry(g, from as int, v, m as int, k);
                    lemma_carry_complete(g, from as int, label@, v, m as int, k);
                }
            }
            let rank = widest_rank(label@, stamp, clock);
            assert forall|v: int| 0 <= v < parents@.len() implies (#[trigger] parents@[v] matches Some(p) ==> p < parents@.len() && 0 <= rank[p as int] < rank[v]) by {
                if parents@[v] is Some {
                    let p = parents@[v]->0;
                    let lp = label@[p as int]->0;
                    let lv = label@[v]->0;
                    if lp > lv {
                        lemma_widest_rank_order(lp, lv, stamp[p as int], stamp[v], clock);
                    } else {
                        assert(0 <= (u32::MAX - lp) * clock) by (nonlinear_arith)
                            requires
                                0 <= u32::MAX - lp,
                                0 <= clock,
                        ;
                    }
                }
            }
            assert(ranked(parents@, rank));
        }
        (label, parents)
    }
}


impl<T: Copy + PartialEq> Network<T> {
    /// The labels and the tree of paths from `from` under the strategy of the network.
    fn path_between(&self, from: usize) -> (r: (Vec<Option<u32>>, Vec<Option<usize>>))
        requires
            self.wf(),
            from < self.graph().len(),
        ensures
            strategy_tree(self.strategy(), self.graph(), from as int, r.0@, r.1@),
    {
        match self.path_strategy {
            PathStrategy::WidestPath => self.widest_path(from),
            PathStrategy::ShortestPath => {
                let r = self.shortest_path(from);
                proof {
                    let g = self.graph();
                    let rank = Seq::new(
                        r.1@.len(),
                        |v: int|
                            match r.0@[v] {
                                Some(d) => d as int,
                                None => 0,
                            },
                    );
                    assert forall|v: int| 0 <= v < r.1@.len() implies (#[trigger] r.1@[v] matches Some(p) ==> p < r.1@.len() && 0 <= rank[p as int] < rank[v]) by {
                        assert(r.0@[v] is None || r.0@[v] is Some);
                        if r.1@[v] is Some {
                            let p = r.1@[v]->0;
                            assert(adjacent(g, p as int, v));
                        }
                    }
                    assert(ranked(r.1@, rank));
                }
                r
            },
        }
    }

    /// The vertices and links met following `parents` back from `to`, in order from the
    /// vertex without parent where the walk ends.
    fn path_to(&self, parents: &Vec<Option<usize>>, to: usize, Ghost(rank): Ghost<Seq<int>>) -> (r: (
        Vec<usize>,
        Vec<Link<T>>,
    ))
        requires
            self.wf(),
            parents@.len() == self.graph().len(),
            to < parents@.len(),
            ranked(parents@, rank),
            forall|v: int| 0 <= v < parents@.len() ==> (#[trigger] parents@[v] matches Some(p) ==> adjacent(self.graph(), p as int, v)),
        ensures
            follows(self.graph(), parents@, r.0@, r.1@, to as int),
            forall|i: int, j: int| 0 <= i < j < r.0@.len() ==> rank[r.0@[i] as int] < rank[r.0@[j] as int],
    {
        let ghost g = self.graph();
        let n = parents.len();
        let mut back: Vec<usize> = Vec::new();
        back.push(to);
        let mut cur = to;
        loop
            invariant_except_break
                back@.len() >= 1,
                back@[0] == to,
                back@.last() == cur,
                cur < n,
                n == parents@.len(),
                ranked(parents@, rank),
                forall|i: int| 0 <= i < back@.len() ==> #[trigger] back@[i] < n,
                forall|i: int| 0 <= i < back@.len() - 1 ==> parents@[#[trigger] back@[i] as int] == Some(back@[i + 1]),
                forall|i: int, j: int| 0 <= i < j < back@.len() ==> rank[#[trigger] back@[j] as int] < rank[#[trigger] back@[i] as int],
            ensures
                back@.len() >= 1,
                back@[0] == to,
                back@.last() == cur,
                parents@[cur as int] is None,
                forall|i: int| 0 <= i < back@.len() ==> #[trigger] back@[i] < n,
                forall|i: int| 0 <= i < back@.len() - 1 ==> parents@[#[trigger] back@[i] as int] == Some(back@[i + 1]),
                forall|i: int, j: int| 0 <= i < j < back@.len() ==> rank[#[trigger] back@[j] as int] < rank[#[trigger] back@[i] as int],
            decreases rank[cur as int],
        {
            match parents[cur] {
                Some(p) => {
                    proof {
                        assert(parents@[cur as int] == Some(p));
                    }
                    let ghost old_back = back@;
                    back.push(p);
                    proof {
                        assert forall|i: int, j: int| 0 <= i < j < back@.len() implies rank[#[trigger] back@[j] as int] < rank[#[trigger] back@[i] as int] by {
                            if j == back@.len() - 1 && i < j {
                                if i < old_back.len() - 1 {
                                    assert(rank[old_back[old_back.len() - 1] as int] < rank[old_back[i] as int]);
                                }
                            } else {
                                assert(back@[i] == old_back[i] && back@[j] == old_back[j]);
                            }
                        }
                        assert forall|i: int| 0 <= i < back@.len() - 1 implies parents@[#[trigger] back@[i] as int] == Some(back@[i + 1]) by {
                            if i < old_back.len() - 1 {
                                assert(back@[i] == old_back[i] && back@[i + 1] == old_back[i + 1]);
                            }
                        }
                    }
                    cur = p;
                },
                None => {
                    break;
                },
            }
        }
        let m = back.len();
        let mut nodes: Vec<usize> = Vec::new();
        let mut links: Vec<Link<T>> = Vec::new();
        nodes.push(back[m - 1]);
        let mut k: usize = m - 1;
        while k > 0
            invariant
                self.wf(),
                g == self.graph(),
                n == g.len(),
                n == parents@.len(),
                m == back@.len(),
                m >= 1,
                k < m,
                nodes@.len() == m - k,
                links@.len() == m - k - 1,
                forall|i: int| 0 <= i < nodes@.len() ==> #[trigger] nodes@[i] == back@[m - 1 - i],
                forall|i: int| 0 <= i < back@.len() ==> #[trigger] back@[i] < n,
                forall|i: int| 0 <= i < back@.len() - 1 ==> parents@[#[trigger] back@[i] as int] == Some(back@[i + 1]),
                forall|v: int| 0 <= v < parents@.len() ==> (#[trigger] parents@[v] matches Some(p) ==> adjacent(g, p as int, v)),
                forall|i: int| 0 <= i < links@.len() ==> g[nodes@[i] as int][nodes@[i + 1] as int] == Some(#[trigger] links@[i]),
            decreases k,
        {
            let parent = back[k];
            let child = back[k - 1];
            proof {
                assert(parents@[back@[k - 1] as int] == Some(back@[k as int]));
                assert(adjacent(g, parent as int, child as int));
                self.links.lemma_view_square_symmetric();
            }
            let link = self.links.get(parent, child).unwrap();
            nodes.push(child);
            links.push(link);
            k = k - 1;
        }
        proof {
            assert forall|i: int, j: int| 0 <= i < j < nodes@.len() implies rank[nodes@[i] as int] < rank[nodes@[j] as int] by {
                assert(nodes@[i] == back@[m - 1 - i] && nodes@[j] == back@[m - 1 - j]);
                assert(rank[back@[m - 1 - i] as int] < rank[back@[m - 1 - j] as int]);
            }
            assert forall|i: int| 0 <= i < links@.len() implies parents@[nodes@[i + 1] as int] == Some(nodes@[i]) && g[nodes@[i] as int][nodes@[i + 1] as int] == Some(#[trigger] links@[i]) by {
                assert(nodes@[i] == back@[m - 1 - i] && nodes@[i + 1] == back@[m - 2 - i]);
                assert(parents@[back@[m - 2 - i] as int] == Some(back@[m - 1 - i]));
            }
            assert(nodes@.last() == back@[0]);
        }
        (nodes, links)
    }
}


/// What both strategies' trees share: each parent is a neighbour, and a vertex other than
/// the source hangs from a parent exactly when the strategy joins it to the source.
proof fn lemma_tree_facts<T>(
    strategy: PathStrategy,
    g: Seq<Seq<Option<Link<T>>>>,
    s: int,
    val: Seq<Option<u32>>,
    parents: Seq<Option<usize>>,
)
    requires
        strategy_tree(strategy, g, s, val, parents),
        0 <= s < g.len(),
    ensures
        parents.len() == g.len(),
        val.len() == g.len(),
        forall|v: int| 0 <= v < parents.len() ==> (#[trigger] parents[v] matches Some(p) ==> adjacent(g, p as int, v)),
        forall|v: int| 0 <= v < parents.len() ==> (#[trigger] parents[v] is Some <==> (v != s && connected(strategy, g, s, v))),
        strategy == PathStrategy::WidestPath ==> forall|v: int| 0 <= v < parents.len() ==> (#[trigger] val[v] is Some <==> connected(strategy, g, s, v)),
{
    assert forall|v: int| 0 <= v < parents.len() implies (#[trigger] parents[v] matches Some(p) ==> adjacent(g, p as int, v)) && (parents[v] is Some <==> (v != s && connected(strategy, g, s, v))) by {
        assert(val[v] is Some || val[v] is None);
    }
    if strategy == PathStrategy::WidestPath {
        assert forall|v: int| 0 <= v < parents.len() implies (#[trigger] val[v] is Some <==> connected(strategy, g, s, v)) by {
            if v == s {
                assert(carry(g, s, s, 0, 0));
            }
        }
    }
}

impl<T: Copy + PartialEq> Network<T> {
    /// The links form a square, symmetric matrix: the link from `a` to `b` is the link from `b`
    /// to `a`.
    pub proof fn lemma_graph_symmetric(&self)
        requires
            self.wf(),
        ensures
            is_square(self.graph(), self.graph().len()),
            forall|r: int, c: int|
                0 <= r < self.graph().len() && 0 <= c < self.graph().len() ==> #[trigger] self.graph()[r][c]
                    == self.graph()[c][r],
    {
        self.links.lemma_view_square_symmetric();
    }

    /// The bandwidth between two vertices: the widest bandwidth between them, or the smallest
    /// bandwidth along the fewest-hop path from `from` to `to`, as the strategy says; nothing
    /// when a vertex is not in the network or the strategy does not join them.
    pub fn bandwidth_between(&self, from: &T, to: &T) -> (r: Option<u32>)
        requires
            self.wf(),
            obeys_concrete_eq::<T>(),
        ensures
            match (index_of(self.mapping(), *from), index_of(self.mapping(), *to)) {
                (Some(f), Some(t)) => {
                    &&& bandwidth_along(self.strategy(), self.graph(), f as int, t as int, r)
                    &&& (r is Some <==> connected(self.strategy(), self.graph(), f as int, t as int))
                },
                _ => r is None,
            },
    {
        match self.map_two(from, to) {
            Some((f, t)) => {
                let (val, parents) = self.path_between(f);
                proof {
                    lemma_tree_facts(self.strategy(), self.graph(), f as int, val@, parents@);
                }
                match self.path_strategy {
                    PathStrategy::WidestPath => {
                        let r = val[t];
                        proof {
                            assert(strategy_tree(self.strategy(), self.graph(), f as int, val@, parents@));
                        }
                        r
                    },
                    PathStrategy::ShortestPath => {
                        if parents[t].is_none() {
                            proof {
                                assert(strategy_tree(self.strategy(), self.graph(), f as int, val@, parents@));
                                assert(!connected(self.strategy(), self.graph(), f as int, t as int));
                            }
                            return None;
                        }
                        let ghost rank = choose|rank: Seq<int>| #[trigger] ranked(parents@, rank);
                        let (nodes, links) = self.path_to(&parents, t, Ghost(rank));
                        let mut speed: u32 = u32::MAX;
                        let mut i: usize = links.len();
                        proof {
                            assert(links@.subrange(i as int, links@.len() as int).len() == 0);
                        }
                        while i > 0
                            invariant
                                i <= links@.len(),
                                speed == bottleneck(links@.subrange(i as int, links@.len() as int)),
                            decreases i,
                        {
                            let b = links[i - 1].bandwidth();
                            proof {
                                let tail = links@.subrange(i - 1, links@.len() as int);
                                assert(tail.drop_first() =~= links@.subrange(i as int, links@.len() as int));
                                assert(tail[0] == links@[i - 1]);
                            }
                            speed = if speed <= b { speed } else { b };
                            i = i - 1;
                        }
                        proof {
                            assert(links@.subrange(0, links@.len() as int) =~= links@);
                            assert(follows(self.graph(), parents@, nodes@, links@, t as int));
                            assert(strategy_tree(self.strategy(), self.graph(), f as int, val@, parents@));
                        }
                        Some(speed)
                    },
                }
            },
            None => None,
        }
    }

    /// The path from `from` to `to` in the tree of paths of the strategy; the path is empty
    /// when the strategy joins them by no link.
    pub fn get_path_between(&self, from: &T, to: &T) -> (r: Option<Path<T>>)
        requires
            self.wf(),
            obeys_concrete_eq::<T>(),
        ensures
            match (index_of(self.mapping(), *from), index_of(self.mapping(), *to)) {
                (Some(f), Some(t)) => r matches Some(p) && path_along(self.strategy(), self.graph(), f as int, t as int, p@),
                _ => r is None,
            },
    {
        match self.map_two(from, to) {
            Some((f, t)) => {
                let (val, parents) = self.path_between(f);
                proof {
                    lemma_tree_facts(self.strategy(), self.graph(), f as int, val@, parents@);
                }
                let ghost rank = choose|rank: Seq<int>| #[trigger] ranked(parents@, rank);
                let (nodes, links) = self.path_to(&parents, t, Ghost(rank));
                let p = Path { links };
                proof {
                    assert(strategy_tree(self.strategy(), self.graph(), f as int, val@, parents@));
                    assert(follows(self.graph(), parents@, nodes@, p@, t as int));
                }
                Some(p)
            },
            None => None,
        }
    }

    /// Sets to `bandwidth` the bandwidth of the link between the vertices of indices `from`
    /// and `to`, if there is one.
    fn update_bandwidth_inter(&mut self, from: usize, to: usize, bandwidth: u32)
        requires
            old(self).wf(),
            from < old(self).graph().len(),
            to < old(self).graph().len(),
        ensures
            final(self).wf(),
            final(self).mapping() == old(self).mapping(),
            final(self).strategy() == old(self).strategy(),
            old(self).graph()[from as int][to as int] matches Some(l) ==> final(self).graph() == sym_update(
                old(self).graph(),
                from as int,
                to as int,
                Some(Link { bandwidth, ..l }),
            ),
            old(self).graph()[from as int][to as int] is None ==> final(self).graph() == old(self).graph(),
    {
        match self.links.get(from, to) {
            Some(l) => {
                let mut updated = l;
                updated.bandwidth = bandwidth;
                self.links.set(from, to, Some(updated));
            },
            None => {},
        }
    }

    /// Sets to `bandwidth` the bandwidth of the link between two vertices, if both are in the
    /// network and joined by a link.
    pub fn update_bandwidth(&mut self, from: &T, to: &T, bandwidth: u32)
        requires
            old(self).wf(),
            obeys_concrete_eq::<T>(),
        ensures
            final(self).wf(),
            final(self).mapping() == old(self).mapping(),
            final(self).strategy() == old(self).strategy(),
            match (index_of(old(self).mapping(), *from), index_of(old(self).mapping(), *to)) {
                (Some(f), Some(t)) => match old(self).graph()[f as int][t as int] {
                    Some(l) => final(self).graph() == sym_update(old(self).graph(), f as int, t as int, Some(Link { bandwidth, ..l })),
                    None => final(self).graph() == old(self).graph(),
                },
                _ => final(self).graph() == old(self).graph(),
            },
    {
        match self.map_two(from, to) {
            Some((f, t)) => self.update_bandwidth_inter(f, t, bandwidth),
            None => {},
        }
    }

    /// Adds, or replaces, the link between two vertices, if both are in the network: a
    /// full-duplex link of the given bandwidth, without drop, latency or jitter.
    pub fn add_edge(&mut self, from: &T, to: &T, bandwidth: u32)
        requires
            old(self).wf(),
            obeys_concrete_eq::<T>(),
        ensures
            final(self).wf(),
            final(self).mapping() == old(self).mapping(),
            final(self).strategy() == old(self).strategy(),
            match (index_of(old(self).mapping(), *from), index_of(old(self).mapping(), *to)) {
                (Some(f), Some(t)) => final(self).graph() == sym_update(
                    old(self).graph(),
                    f as int,
                    t as int,
                    Some(
                        Link {
                            internal_source: f,
                            internal_destination: t,
                            source: *from,
                            destination: *to,
                            bandwidth,
                            drop: 0,
                            latency_jitter: LatencyJitter { latency: 0, jitter: 0 },
                            duplex: Duplex::FullDuplex,
                        },
                    ),
                ),
                _ => final(self).graph() == old(self).graph(),
            },
    {
        match self.map_two(from, to) {
            Some((f, t)) => {
                let link = Link::build(*from, *to, f, t, bandwidth);
                self.links.set(f, t, Some(link));
            },
            None => {},
        }
    }

    /// Adds, or replaces, the link between two vertices, if both are in the network: a
    /// full-duplex link of the given bandwidth, latency and jitter, and drop.
    pub fn add_edge_with_props(
        &mut self,
        from: &T,
        to: &T,
        bandwidth: u32,
        latency_jitter: LatencyJitter,
        drop: u32,
    )
        requires
            old(self).wf(),
            obeys_concrete_eq::<T>(),
        ensures
            final(self).wf(),
            final(self).mapping() == old(self).mapping(),
            final(self).strategy() == old(self).strategy(),
            match (index_of(old(self).mapping(), *from), index_of(old(self).mapping(), *to)) {
                (Some(f), Some(t)) => final(self).graph() == sym_update(
                    old(self).graph(),
                    f as int,
                    t as int,
                    Some(
                        Link {
                            internal_source: f,
                            internal_destination: t,
                            source: *from,
                            destination: *to,
                            bandwidth,
                            drop,
                            latency_jitter,
                            duplex: Duplex::FullDuplex,
                        },
                    ),
                ),
                _ => final(self).graph() == old(self).graph(),
            },
    {
        match self.map_two(from, to) {
            Some((f, t)) => {
                let link = Link::build_all(*from, *to, f, t, bandwidth, latency_jitter, drop);
                self.links.set(f, t, Some(link));
            },
            None => {},
        }
    }
}


/// Updating the next link back along the path extends the updated part by that link.
proof fn lemma_update_step<T, F: Fn(u32) -> u32>(
    g0: Seq<Seq<Option<Link<T>>>>,
    cur: Seq<Seq<Option<Link<T>>>>,
    nodes: Seq<usize>,
    links: Seq<Link<T>>,
    i: int,
    func: F,
    nb: u32,
)
    requires
        1 <= i <= links.len(),
        nodes.len() == links.len() + 1,
        is_square(g0, g0.len()),
        forall|a: int, b: int| 0 <= a < b < nodes.len() ==> nodes[a] != nodes[b],
        forall|j: int| 0 <= j < nodes.len() ==> #[trigger] nodes[j] < g0.len(),
        forall|j: int| 0 <= j < links.len() ==> g0[nodes[j] as int][nodes[j + 1] as int] == Some(#[trigger] links[j]),
        updated_along(g0, cur, nodes, links, i, links.len() as int, func),
        func.ensures((effective_bandwidth(links[i - 1]),), nb),
    ensures
        cur[nodes[i - 1] as int][nodes[i] as int] == Some(links[i - 1]),
        updated_along(
            g0,
            sym_update(cur, nodes[i - 1] as int, nodes[i] as int, Some(Link { bandwidth: nb, ..links[i - 1] })),
            nodes,
            links,
            i - 1,
            links.len() as int,
            func,
        ),
{
    let p = nodes[i - 1] as int;
    let ch = nodes[i] as int;
    let hi = links.len() as int;
    let new_link = Link { bandwidth: nb, ..links[i - 1] };
    let next = sym_update(cur, p, ch, Some(new_link));
    assert(nodes[i - 1] < g0.len() && nodes[i] < g0.len());
    assert(edge_is(nodes, i - 1, p, ch));
    if on_edges(nodes, i, hi, p, ch) {
        let j = choose|j: int| i <= j < hi && #[trigger] edge_is(nodes, j, p, ch);
        lemma_edges_distinct(nodes, i - 1, j, p, ch);
    }
    assert(g0[p][ch] == Some(links[i - 1]));
    assert forall|r: int, c: int|
        0 <= r < g0.len() && 0 <= c < g0.len() && !on_edges(nodes, i - 1, hi, r, c) implies #[trigger] next[r][c] == g0[r][c] by {
        if edge_is(nodes, i - 1, r, c) {
            assert(on_edges(nodes, i - 1, hi, r, c));
        }
        assert(!on_edges(nodes, i, hi, r, c)) by {
            if on_edges(nodes, i, hi, r, c) {
                let j = choose|j: int| i <= j < hi && #[trigger] edge_is(nodes, j, r, c);
                assert(on_edges(nodes, i - 1, hi, r, c));
            }
        }
    }
    assert forall|j: int, r: int, c: int|
        i - 1 <= j < hi && #[trigger] edge_is(nodes, j, r, c) implies (next[r][c] matches Some(l) && l == (Link {
            bandwidth: l.bandwidth,
            ..links[j]
        }) && func.ensures((effective_bandwidth(links[j]),), l.bandwidth)) by {
        if j == i - 1 {
            assert(next[r][c] == Some(new_link));
        } else {
            lemma_edges_distinct(nodes, j, i - 1, r, c);
            assert(next[r][c] == cur[r][c]);
        }
    }
}

impl<T: Copy + PartialEq> Network<T> {
    /// Replaces the bandwidth of each link on the path from `from` to `to` (the path of the
    /// strategy's tree) by what `func` gives for the bandwidth the link offered; does nothing
    /// when a vertex is not in the network.
    pub fn update_edges_along_path_by<F: Fn(u32) -> u32>(&mut self, from: &T, to: &T, func: F)
        requires
            old(self).wf(),
            obeys_concrete_eq::<T>(),
            forall|x: u32| #[trigger] func.requires((x,)),
        ensures
            final(self).wf(),
            final(self).mapping() == old(self).mapping(),
            final(self).strategy() == old(self).strategy(),
            index_of(old(self).mapping(), *from) is Some && index_of(old(self).mapping(), *to) is Some
                ==> exists|
                val: Seq<Option<u32>>,
                parents: Seq<Option<usize>>,
                nodes: Seq<usize>,
                links: Seq<Link<T>>,
            |
                #[trigger] strategy_tree(
                    old(self).strategy(),
                    old(self).graph(),
                    index_of(old(self).mapping(), *from)->Some_0 as int,
                    val,
                    parents,
                ) && #[trigger] follows(
                    old(self).graph(),
                    parents,
                    nodes,
                    links,
                    index_of(old(self).mapping(), *to)->Some_0 as int,
                ) && updated_along(old(self).graph(), final(self).graph(), nodes, links, 0, links.len() as int, func),
            index_of(old(self).mapping(), *from) is None || index_of(old(self).mapping(), *to) is None
                ==> final(self).graph() == old(self).graph(),
    {
        match self.map_two(from, to) {
            Some((f, t)) => {
                let (val, parents) = self.path_between(f);
                proof {
                    lemma_tree_facts(self.strategy(), self.graph(), f as int, val@, parents@);
                }
                let ghost rank = choose|rank: Seq<int>| #[trigger] ranked(parents@, rank);
                let (nodes, links) = self.path_to(&parents, t, Ghost(rank));
                let ghost g0 = self.graph();
                let ghost m0 = self.mapping();
                let ghost s0 = self.strategy();
                proof {
                    self.lemma_graph_symmetric();
                    assert forall|a: int, b: int| 0 <= a < b < nodes@.len() implies nodes@[a] != nodes@[b] by {
                        assert(rank[nodes@[a] as int] < rank[nodes@[b] as int]);
                    }
                }
                let mut i: usize = links.len();
                while i > 0
                    invariant
                        self.wf(),
                        self.mapping() == m0,
                        self.strategy() == s0,
                        i <= links@.len(),
                        nodes@.len() == links@.len() + 1,
                        is_square(g0, g0.len()),
                        follows(g0, parents@, nodes@, links@, t as int),
                        forall|a: int, b: int| 0 <= a < b < nodes@.len() ==> nodes@[a] != nodes@[b],
                        updated_along(g0, self.graph(), nodes@, links@, i as int, links@.len() as int, func),
                        forall|x: u32| #[trigger] func.requires((x,)),
                    decreases i,
                {
                    let parent = nodes[i - 1];
                    let child = nodes[i];
                    proof {
                        assert(nodes@[i - 1] < g0.len() && nodes@[i as int] < g0.len());
                        assert(g0[nodes@[i - 1] as int][nodes@[i as int] as int] == Some(links@[i - 1]));
                        if on_edges(nodes@, i as int, links@.len() as int, parent as int, child as int) {
                            let j = choose|j: int| i <= j < links@.len() && #[trigger] edge_is(nodes@, j, parent as int, child as int);
                            lemma_edges_distinct(nodes@, i - 1, j, parent as int, child as int);
                        }
                    }
                    let edge_speed = self.links.get(parent, child).unwrap().bandwidth();
                    let nb = func(edge_speed);
                    proof {
                        lemma_update_step(g0, self.graph(), nodes@, links@, i as int, func, nb);
                    }
                    self.update_bandwidth_inter(parent, child, nb);
                    i = i - 1;
                }
                proof {
                    assert(g0 == old(self).graph());
                    assert(strategy_tree(s0, g0, f as int, val@, parents@));
                    assert(follows(g0, parents@, nodes@, links@, t as int));
                    assert(updated_along(g0, self.graph(), nodes@, links@, 0, links@.len() as int, func));
                    assert(index_of(old(self).mapping(), *from) == Some(f));
                    assert(index_of(old(self).mapping(), *to) == Some(t));
                    assert(strategy_tree(old(self).strategy(), old(self).graph(), index_of(old(self).mapping(), *from)->Some_0 as int, val@, parents@));
                    assert(follows(old(self).graph(), parents@, nodes@, links@, index_of(old(self).mapping(), *to)->Some_0 as int));
                    assert(exists|
                        val: Seq<Option<u32>>,
                        parents: Seq<Option<usize>>,
                        nodes: Seq<usize>,
                        links: Seq<Link<T>>,
                    |
                        #[trigger] strategy_tree(
                            old(self).strategy(),
                            old(self).graph(),
                            index_of(old(self).mapping(), *from)->Some_0 as int,
                            val,
                            parents,
                        ) && #[trigger] follows(
                            old(self).graph(),
                            parents,
                            nodes,
                            links,
                            index_of(old(self).mapping(), *to)->Some_0 as int,
                        ) && updated_along(old(self).graph(), self.graph(), nodes, links, 0, links.len() as int, func));
                }
            },
            None => {
                assert(self.graph() == old(self).graph());
            },
        }
    }
}


/// The vertices of the entries of `m` whose choice in `sel` is `true`, in order.
pub open spec fn select_keys<T>(m: Seq<(T, usize)>, sel: Seq<bool>) -> Seq<T>
    decreases m.len(),
{
    if m.len() == 0 {
        Seq::empty()
    } else {
        let rest = select_keys(m.drop_last(), sel.drop_last());
        if sel.last() {
            rest.push(m.last().0)
        } else {
            rest
        }
    }
}

impl<T: Copy + PartialEq> Network<T> {
    /// The bandwidth between each two of the vertices that `predicate` keeps, taken in the
    /// order of the mapping: a symmetric matrix whose diagonal holds `u32::MAX`, and the kept
    /// vertices. Cell `(a, b)`, `a < b`, holds the bandwidth from vertex `a` to vertex `b`.
    pub fn bandwidth_matrix<P: Fn(&T) -> bool>(&self, predicate: P) -> (r: (SymMatrix<u32>, Vec<T>))
        requires
            self.wf(),
            obeys_concrete_eq::<T>(),
            forall|x: &T| #[trigger] predicate.requires((x,)),
            forall|j1: int, j2: int|
                0 <= j1 < self.mapping().len() && 0 <= j2 < self.mapping().len() && j1 != j2
                    && predicate.ensures((&self.mapping()[j1].0,), true) && predicate.ensures(
                    (&self.mapping()[j2].0,),
                    true,
                ) ==> #[trigger] connected(
                    self.strategy(),
                    self.graph(),
                    self.mapping()[j1].1 as int,
                    self.mapping()[j2].1 as int,
                ),
            triangle_len(self.mapping().len()) <= usize::MAX,
        ensures
            exists|sel: Seq<bool>|
                #![trigger select_keys(self.mapping(), sel)]
                sel.len() == self.mapping().len() && (forall|j: int|
                    0 <= j < sel.len() ==> predicate.ensures((&self.mapping()[j].0,), #[trigger] sel[j]))
                    && r.1@ == select_keys(self.mapping(), sel),
            r.0.wf(),
            r.0@.len() == r.1@.len(),
            is_square(r.0@, r.1@.len()),
            forall|a: int| 0 <= a < r.1@.len() ==> #[trigger] r.0@[a][a] == u32::MAX,
            forall|a: int, b: int|
                0 <= a < b < r.1@.len() ==> bandwidth_along(
                    self.strategy(),
                    self.graph(),
                    index_of(self.mapping(), r.1@[a])->Some_0 as int,
                    index_of(self.mapping(), r.1@[b])->Some_0 as int,
                    Some(#[trigger] r.0@[a][b]),
                ),
    {
        let ghost m = self.mapping();
        let mut nodes: Vec<T> = Vec::new();
        let ghost mut sel: Seq<bool> = Seq::empty();
        let ghost mut pos: Seq<int> = Seq::empty();
        let mut j: usize = 0;
        while j < self.mapper.len()
            invariant
                self.wf(),
                m == self.mapping(),
                j <= m.len(),
                sel.len() == j,
                forall|x: &T| #[trigger] predicate.requires((x,)),
                forall|k: int| 0 <= k < j ==> predicate.ensures((&m[k].0,), #[trigger] sel[k]),
                nodes@ == select_keys(m.subrange(0, j as int), sel),
                pos.len() == nodes@.len(),
                forall|a: int| 0 <= a < pos.len() ==> 0 <= #[trigger] pos[a] < j && nodes@[a] == m[pos[a]].0 && sel[pos[a]],
                forall|a: int, b: int| 0 <= a < b < pos.len() ==> #[trigger] pos[a] < #[trigger] pos[b],
            decreases m.len() - j,
        {
            let v = self.mapper[j].0;
            let keep = predicate(&v);
            proof {
                assert(m.subrange(0, j + 1).drop_last() =~= m.subrange(0, j as int));
                assert(sel.push(keep).drop_last() =~= sel);
                sel = sel.push(keep);
            }
            if keep {
                nodes.push(v);
                proof {
                    pos = pos.push(j as int);
                }
            }
            j = j + 1;
        }
        proof {
            assert(m.subrange(0, m.len() as int) =~= m);
            assert forall|a: int, b: int|
                #![trigger nodes@[a], nodes@[b]]
                0 <= a < nodes@.len() && 0 <= b < nodes@.len() && a != b implies index_of(self.mapping(), nodes@[a]) is Some
                    && connected(
                    self.strategy(),
                    self.graph(),
                    index_of(self.mapping(), nodes@[a])->Some_0 as int,
                    index_of(self.mapping(), nodes@[b])->Some_0 as int,
                ) by {
                lemma_index_of_at(m, pos[a]);
                lemma_index_of_at(m, pos[b]);
                assert(pos[a] != pos[b]) by {
                    if a < b {
                        assert(pos[a] < pos[b]);
                    } else {
                        assert(pos[b] < pos[a]);
                    }
                }
                assert(predicate.ensures((&m[pos[a]].0,), sel[pos[a]]));
                assert(predicate.ensures((&m[pos[b]].0,), sel[pos[b]]));
            }
        }
        let ghost nodes_view = nodes@;
        let ghost g = self.graph();
        let ghost strategy = self.strategy();
        let nref = &nodes;
        let cell = |row: usize, col: usize| -> (v: u32)
            requires
                row <= col < nref@.len(),
                self.wf(),
                obeys_concrete_eq::<T>(),
                forall|a: int, b: int|
                    #![trigger nref@[a], nref@[b]]
                    0 <= a < nref@.len() && 0 <= b < nref@.len() && a != b ==> index_of(self.mapping(), nref@[a]) is Some
                        && connected(
                        self.strategy(),
                        self.graph(),
                        index_of(self.mapping(), nref@[a])->Some_0 as int,
                        index_of(self.mapping(), nref@[b])->Some_0 as int,
                    ),
            ensures
                row == col ==> v == u32::MAX,
                row != col ==> bandwidth_along(
                    self.strategy(),
                    self.graph(),
                    index_of(self.mapping(), nref@[row as int])->Some_0 as int,
                    index_of(self.mapping(), nref@[col as int])->Some_0 as int,
                    Some(v),
                ),
            {
                if row == col {
                    u32::MAX
                } else {
                    proof {
                        let a = row as int;
                        let c = col as int;
                        assert(index_of(self.mapping(), nref@[a]) is Some && connected(
                            self.strategy(),
                            self.graph(),
                            index_of(self.mapping(), nref@[a])->Some_0 as int,
                            index_of(self.mapping(), nref@[c])->Some_0 as int,
                        ));
                        assert(index_of(self.mapping(), nref@[c]) is Some);
                    }
                    let b = self.bandwidth_between(&nref[row], &nref[col]);
                    b.unwrap()
                }
            };
        proof {
            assert(nodes@.len() <= m.len()) by {
                assert forall|a: int| 0 <= a < pos.len() implies pos[a] >= a by {
                    lemma_increasing_at_least(pos, a);
                }
                if pos.len() > 0 {
                    assert(pos[pos.len() - 1] >= pos.len() - 1);
                }
            }
            lemma_triangle_mono(nodes@.len(), m.len());
        }
        let matrix = SymMatrix::new_fn(nodes.len(), cell);
        proof {
            matrix.lemma_view_square_symmetric();
            assert forall|a: int| 0 <= a < nodes_view.len() implies #[trigger] matrix@[a][a] == u32::MAX by {
                assert(cell.ensures((a as usize, a as usize), matrix@[a][a]));
            }
            assert forall|a: int, b: int|
                0 <= a < b < nodes_view.len() implies bandwidth_along(
                    strategy,
                    g,
                    index_of(m, nodes_view[a])->Some_0 as int,
                    index_of(m, nodes_view[b])->Some_0 as int,
                    Some(#[trigger] matrix@[a][b]),
                ) by {
                assert(cell.ensures((a as usize, b as usize), matrix@[a][b]));
            }
            assert(select_keys(m, sel) == nodes@);
        }
        (matrix, nodes)
    }
}

/// An increasing sequence of naturals has at least `a` at position `a`.
proof fn lemma_increasing_at_least(pos: Seq<int>, a: int)
    requires
        0 <= a < pos.len(),
        forall|x: int| 0 <= x < pos.len() ==> 0 <= #[trigger] pos[x],
        forall|x: int, y: int| 0 <= x < y < pos.len() ==> #[trigger] pos[x] < #[trigger] pos[y],
    ensures
        pos[a] >= a,
    decreases a,
{
    if a > 0 {
        lemma_increasing_at_least(pos, a - 1);
        assert(pos[a - 1] < pos[a]);
    }
}

/// The triangle of a smaller matrix is no larger.
proof fn lemma_triangle_mono(a: nat, b: nat)
    requires
        a <= b,
    ensures
        triangle_len(a) <= triangle_len(b),
{
    crate::matrix::lemma_triangle_len(a);
    crate::matrix::lemma_triangle_len(b);
    assert(a * (a + 1) <= b * (b + 1)) by (nonlinear_arith)
        requires
            a <= b,
    ;
    assert(a * (a + 1) / 2 <= b * (b + 1) / 2) by (nonlinear_arith)
        requires
            a * (a + 1) <= b * (b + 1),
    ;
}

} // verus!

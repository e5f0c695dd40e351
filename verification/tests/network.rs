use kollaps::netgraph::{Duplex, LatencyJitter, Network, PathStrategy};

fn star(strategy: PathStrategy) -> Network<usize> {
    // 0, 1, 2 are applications, 3 and 4 bridges:
    // 0 -100- 3, 1 -50- 3, 3 -100- 4, 4 -100- 2
    let vertices: Vec<usize> = (0..5).collect();
    let mut net = Network::new(&vertices, strategy);
    net.add_edge(&0, &3, 100);
    net.add_edge(&1, &3, 50);
    net.add_edge(&3, &4, 100);
    net.add_edge(&4, &2, 100);
    net
}

fn triangle(strategy: PathStrategy) -> Network<usize> {
    // 0 -10- 1 -10- 2 and a direct 0 -5- 2
    let vertices: Vec<usize> = (0..3).collect();
    let mut net = Network::new(&vertices, strategy);
    net.add_edge(&0, &1, 10);
    net.add_edge(&1, &2, 10);
    net.add_edge(&0, &2, 5);
    net
}

#[test]
fn shortest_path_bandwidths() {
    let net = star(PathStrategy::ShortestPath);
    assert_eq!(net.bandwidth_between(&0, &2), Some(100));
    assert_eq!(net.bandwidth_between(&1, &2), Some(50));
    assert_eq!(net.bandwidth_between(&0, &1), Some(50));
    assert_eq!(net.bandwidth_between(&0, &0), None);
    assert_eq!(net.bandwidth_between(&0, &7), None);
}

#[test]
fn widest_path_bandwidths() {
    let net = star(PathStrategy::WidestPath);
    assert_eq!(net.bandwidth_between(&0, &2), Some(100));
    assert_eq!(net.bandwidth_between(&2, &1), Some(50));
    assert_eq!(net.bandwidth_between(&0, &0), Some(u32::MAX));
}

#[test]
fn strategies_differ_on_a_detour() {
    let fewest = triangle(PathStrategy::ShortestPath);
    let widest = triangle(PathStrategy::WidestPath);
    assert_eq!(fewest.bandwidth_between(&0, &2), Some(5));
    assert_eq!(widest.bandwidth_between(&0, &2), Some(10));
    let p = fewest.get_path_between(&0, &2).unwrap();
    assert_eq!(p.links_set().len(), 1);
    let q = widest.get_path_between(&0, &2).unwrap();
    let links = q.links_set();
    assert_eq!(links.len(), 2);
    assert_eq!(links[0].source, 0);
    assert_eq!(links[0].destination, 1);
    assert_eq!(links[1].destination, 2);
}

#[test]
fn unreachable_vertices() {
    let vertices: Vec<usize> = (0..3).collect();
    let mut net = Network::new(&vertices, PathStrategy::WidestPath);
    net.add_edge(&0, &1, 10);
    assert_eq!(net.bandwidth_between(&0, &2), None);
    assert_eq!(net.get_path_between(&0, &2).unwrap().links_set().len(), 0);
    let fewest = Network::new(&vertices, PathStrategy::ShortestPath);
    assert_eq!(fewest.bandwidth_between(&0, &1), None);
}

#[test]
fn half_duplex_halves_the_bandwidth() {
    let net = star(PathStrategy::ShortestPath);
    let p = net.get_path_between(&0, &3).unwrap();
    let mut link = p.links_set()[0];
    assert_eq!(link.bandwidth(), 100);
    link.set_duplex(Duplex::HalfDuplex);
    assert_eq!(link.bandwidth(), 50);
}

#[test]
fn update_along_path() {
    let mut net = star(PathStrategy::ShortestPath);
    net.update_edges_along_path_by(&0, &2, |b| b - 30);
    assert_eq!(net.bandwidth_between(&0, &2), Some(70));
    assert_eq!(net.bandwidth_between(&1, &3), Some(50));
    assert_eq!(net.bandwidth_between(&0, &3), Some(70));
}

#[test]
fn update_bandwidth_of_a_link() {
    let mut net = star(PathStrategy::WidestPath);
    net.update_bandwidth(&3, &4, 20);
    assert_eq!(net.bandwidth_between(&0, &2), Some(20));
    // no link between 0 and 1: nothing changes
    net.update_bandwidth(&0, &1, 5);
    assert_eq!(net.bandwidth_between(&0, &1), Some(50));
}

#[test]
fn edge_with_properties() {
    let vertices: Vec<usize> = (0..2).collect();
    let mut net = Network::new(&vertices, PathStrategy::ShortestPath);
    let lj = LatencyJitter { latency: 1.5f32.to_bits(), jitter: 0.25f32.to_bits() };
    net.add_edge_with_props(&0, &1, 40, lj, 0.1f32.to_bits());
    let p = net.get_path_between(&0, &1).unwrap();
    let l = p.links_set()[0];
    assert_eq!(l.bandwidth, 40);
    assert_eq!(f32::from_bits(l.latency_jitter.latency), 1.5);
    assert_eq!(f32::from_bits(l.drop), 0.1);
}

#[test]
fn bandwidth_matrix_of_applications() {
    let net = star(PathStrategy::ShortestPath);
    let (m, nodes) = net.bandwidth_matrix(|v: &usize| *v < 3);
    assert_eq!(nodes, vec![0, 1, 2]);
    assert_eq!(m.get(0, 0), u32::MAX);
    assert_eq!(m.get(0, 1), 50);
    assert_eq!(m.get(1, 0), 50);
    assert_eq!(m.get(0, 2), 100);
    assert_eq!(m.get(1, 2), 50);
}

#[test]
fn vertices_and_edit() {
    let mut net = star(PathStrategy::ShortestPath);
    assert_eq!(net.vertices(), vec![0, 1, 2, 3, 4]);
    net.edit_vertex(3);
    assert_eq!(net.vertices(), vec![0, 1, 2, 3, 4]);
    net.edit_vertex(9);
    assert_eq!(net.vertices().len(), 5);
}

#[test]
fn shared_edges_of_two_paths() {
    let net = star(PathStrategy::ShortestPath);
    let a = net.get_path_between(&0, &2).unwrap();
    let b = net.get_path_between(&1, &2).unwrap();
    let shared = a.shared_edges(&b);
    assert_eq!(shared.len(), 2);
    assert!(shared.iter().all(|l| l.same_link(&a.links_set()[1]) || l.same_link(&a.links_set()[2])));
}

use kollaps::matrix::SymMatrix;
use kollaps::netgraph::{Network, PathStrategy};
use kollaps::orchestrator::{next_comb, Orchestrator};

#[test]
fn combinations_in_order() {
    // the 2-subsets of {0, 1, 2}, in lexicographic order
    assert_eq!(next_comb(vec![0, 1], 2, 3), Some(vec![0, 2]));
    assert_eq!(next_comb(vec![0, 2], 2, 3), Some(vec![1, 2]));
    assert_eq!(next_comb(vec![1, 2], 2, 3), None);
    // all the 3-subsets of a set of 5, each once
    let mut c = vec![0, 1, 2];
    let mut count = 1;
    while let Some(next) = next_comb(c.clone(), 3, 5) {
        assert!(next > c);
        assert!(next.iter().all(|v| *v < 5));
        c = next;
        count += 1;
    }
    assert_eq!(count, 10);
    assert_eq!(c, vec![2, 3, 4]);
    assert_eq!(next_comb(vec![0], 1, 2), Some(vec![1]));
    assert_eq!(next_comb(vec![1], 1, 2), None);
}

fn emulation_matrix() -> SymMatrix<u32> {
    let vertices: Vec<usize> = (0..5).collect();
    let mut net = Network::new(&vertices, PathStrategy::ShortestPath);
    net.add_edge(&0, &3, 100);
    net.add_edge(&1, &3, 50);
    net.add_edge(&3, &4, 100);
    net.add_edge(&4, &2, 100);
    net.bandwidth_matrix(|v: &usize| *v < 3).0
}

#[test]
fn places_on_a_large_cluster() {
    let residual = SymMatrix::new_fn(4, |r, c| if r == c { u32::MAX } else { 1000 });
    let orch = Orchestrator::new(residual, 4);
    let eq = orch.find_isomorphism(emulation_matrix()).unwrap().unwrap();
    assert_eq!(eq.len(), 3);
    assert!(eq.iter().all(|h| *h < 4));
    assert_eq!(orch.get_actual_load(0), 0);
}

#[test]
fn gathers_on_one_host_when_links_are_thin() {
    // two hosts joined by 10: no application may talk across
    let residual = SymMatrix::new_fn(2, |r, c| if r == c { u32::MAX } else { 10 });
    let orch = Orchestrator::new(residual, 4);
    let eq = orch.find_isomorphism(emulation_matrix()).unwrap().unwrap();
    assert_eq!(eq.len(), 3);
    assert!(eq.iter().all(|h| *h == eq[0]));
}

#[test]
fn no_placement_when_hosts_are_full() {
    let residual = SymMatrix::new_fn(2, |r, c| if r == c { u32::MAX } else { 10 });
    let orch = Orchestrator::new(residual, 2);
    assert_eq!(orch.find_isomorphism(emulation_matrix()).unwrap(), None);
}

#[test]
fn a_single_host_takes_everything_it_can_hold() {
    // one host holding at most 3 applications: the 3 applications all go there
    let residual = SymMatrix::new_fn(1, |_, _| u32::MAX);
    let orch = Orchestrator::new(residual, 3);
    assert_eq!(orch.find_isomorphism(emulation_matrix()).unwrap(), Some(vec![0, 0, 0]));
    // at most 2 applications: no placement at all
    let residual = SymMatrix::new_fn(1, |_, _| u32::MAX);
    let orch = Orchestrator::new(residual, 2);
    assert_eq!(orch.find_isomorphism(emulation_matrix()).unwrap(), None);
}

#[test]
fn test_distribution() {
    // ten hosts joined two by two by 1000, each holding at most 4 applications
    let residual = SymMatrix::new_fn(10, |r, c| if r == c { u32::MAX } else { 1000 });
    let mut orch = Orchestrator::new(residual, 4);
    let mut number_of_experiments = 0;
    let mut id: u128 = 1;
    while let Ok(Some(_)) = orch.new_emulation(id, emulation_matrix()) {
        number_of_experiments += 1;
        id += 1;
    }
    assert_eq!(number_of_experiments, 13);
    let total: usize = (0..10).map(|h| orch.get_actual_load(h)).sum();
    assert_eq!(total, 39);
}

#[test]
fn stopping_an_emulation_gives_its_place_back() {
    // two hosts joined by 60, each holding 3 applications: the applications of an emulation
    // cannot be split across the hosts, so each emulation takes a whole host
    let residual = SymMatrix::new_fn(2, |r, c| if r == c { u32::MAX } else { 60 });
    let mut orch = Orchestrator::new(residual, 3);
    let first = orch.new_emulation(7, emulation_matrix()).unwrap().unwrap();
    assert_eq!(first.len(), 3);
    assert!(first.iter().all(|h| *h == first[0]));
    assert_eq!(orch.get_actual_load(first[0]), 3);
    let second = orch.new_emulation(8, emulation_matrix()).unwrap().unwrap();
    assert!(second.iter().all(|h| *h == 1 - first[0]));
    assert_eq!((orch.get_actual_load(0), orch.get_actual_load(1)), (3, 3));
    assert_eq!(orch.new_emulation(9, emulation_matrix()).unwrap(), None);
    assert!(orch.stop_emulation(10).is_err());
    assert!(orch.stop_emulation(7).is_ok());
    assert_eq!(orch.get_actual_load(first[0]), 0);
    assert_eq!(orch.get_actual_load(1 - first[0]), 3);
    assert!(orch.stop_emulation(7).is_err());
    // once the first is stopped, a third fits where it was
    let third = orch.new_emulation(9, emulation_matrix()).unwrap().unwrap();
    assert!(third.iter().all(|h| *h == first[0]));
    assert!(orch.stop_emulation(8).is_ok());
    assert!(orch.stop_emulation(9).is_ok());
    assert_eq!((orch.get_actual_load(0), orch.get_actual_load(1)), (0, 0));
}

#[test]
fn removing_a_host_stops_every_emulation() {
    let residual = SymMatrix::new_fn(3, |r, c| if r == c { u32::MAX } else { 1000 });
    let mut orch = Orchestrator::new(residual, 4);
    assert!(orch.new_emulation(7, emulation_matrix()).unwrap().is_some());
    assert!(orch.new_emulation(8, emulation_matrix()).unwrap().is_some());
    assert!(orch.remove_cluster_node(3).is_err());
    assert_eq!(orch.remove_cluster_node(1).unwrap(), vec![7, 8]);
    assert_eq!((orch.get_actual_load(0), orch.get_actual_load(1)), (0, 0));
    assert!(orch.stop_emulation(7).is_err());
    assert_eq!(orch.remove_cluster_node(0).unwrap(), Vec::<u128>::new());
    // one host of 4 applications left
    let eq = orch.new_emulation(9, emulation_matrix()).unwrap().unwrap();
    assert_eq!(eq, vec![0, 0, 0]);
}

use kollaps::apps::Flow;
use kollaps::bwsync::{
    calculate_bandwidth_graph, get_flows_by_shared_links, get_shared_links_and_impacted_flows, merge, remove_flow,
    replace_flow, update_active_flows, update_flows, without_flow,
};
use kollaps::netgraph::{Link, Network, PathStrategy};

fn star() -> Network<usize> {
    // 0 -100- 3, 1 -50- 3, 3 -100- 4, 4 -100- 2
    let vertices: Vec<usize> = (0..5).collect();
    let mut net = Network::new(&vertices, PathStrategy::ShortestPath);
    net.add_edge(&0, &3, 100);
    net.add_edge(&1, &3, 50);
    net.add_edge(&3, &4, 100);
    net.add_edge(&4, &2, 100);
    net
}

fn with_auth(mut f: Flow<usize>, auth: u32) -> Flow<usize> {
    f.authorized_bandwidth = auth;
    f
}

/// Gives every flow of a group the whole bandwidth of the link.
fn whole_link(l: Link<usize>, flows: Vec<Flow<usize>>) -> Vec<Flow<usize>> {
    flows.into_iter().map(|f| with_auth(f, l.bandwidth())).collect()
}

#[test]
fn merge_keeps_the_stricter_copy() {
    let f1 = Flow::build(0, 2, 100, 60);
    let f2 = Flow::build(1, 2, 50, 40);
    let f3 = Flow::build(0, 1, 10, 5);
    let a = vec![with_auth(f1, 30), with_auth(f2, 10)];
    let b = vec![with_auth(f1, 20), f3, with_auth(f2, 15)];
    let r = merge(&a, &b);
    assert_eq!(r.len(), 3);
    assert_eq!((r[0].source, r[0].destination, r[0].authorized_bandwidth), (0, 2, 20));
    assert_eq!((r[1].source, r[1].destination, r[1].authorized_bandwidth), (1, 2, 10));
    assert_eq!((r[2].source, r[2].destination), (0, 1));
    // merging with nothing changes nothing
    assert_eq!(merge(&a, &vec![]).len(), 2);
    assert_eq!(merge(&vec![], &b).len(), 3);
}

#[test]
fn replace_and_remove_flows() {
    let f1 = Flow::build(0, 2, 100, 60);
    let f2 = Flow::build(1, 2, 50, 40);
    let mut s = vec![f1, f2];
    replace_flow(&mut s, with_auth(f1, 7));
    assert_eq!(s.len(), 2);
    assert_eq!(s[0].authorized_bandwidth, 7);
    replace_flow(&mut s, Flow::build(2, 0, 1, 1));
    assert_eq!(s.len(), 3);
    let w = without_flow(&s, &f2);
    assert_eq!(w.len(), 2);
    assert!(w.iter().all(|f| !(f.source == 1 && f.destination == 2)));
}

#[test]
fn bandwidth_left_by_flows() {
    let net = star();
    let f1 = Flow::build(0, 2, 100, 60);
    let f2 = Flow::build(1, 2, 50, 40);
    let bw = calculate_bandwidth_graph(&net, &vec![f1, f2]);
    assert_eq!(bw.bandwidth_between(&0, &3), Some(40));
    assert_eq!(bw.bandwidth_between(&1, &3), Some(10));
    assert_eq!(bw.bandwidth_between(&3, &4), Some(0));
    assert_eq!(bw.bandwidth_between(&4, &2), Some(0));
    // no flow: the network is unchanged
    let same = calculate_bandwidth_graph(&net, &vec![]);
    assert_eq!(same.bandwidth_between(&3, &4), Some(100));
    // a flow that asks more than a link has wraps around
    let big = Flow::build(1, 3, 100, 60);
    let wrapped = calculate_bandwidth_graph(&net, &vec![big]);
    assert_eq!(wrapped.bandwidth_between(&1, &3), Some(50u32.wrapping_sub(60)));
}

#[test]
fn groups_by_shared_links() {
    let net = star();
    let f1 = Flow::build(0, 2, 100, 60);
    let f2 = Flow::build(1, 2, 50, 40);
    let groups = get_flows_by_shared_links(&f1, &vec![f2], &net);
    // the path of f1: 0 - 3 - 4 - 2
    assert_eq!(groups.len(), 3);
    assert_eq!(groups[0].1.len(), 1);
    assert_eq!(groups[1].1.len(), 2);
    assert_eq!(groups[2].1.len(), 2);
    // an updated flow that uses nothing is taken out of the groups
    let stopped = Flow::build(0, 2, 100, 0);
    let groups = get_flows_by_shared_links(&stopped, &vec![f1, f2], &net);
    assert_eq!(groups.len(), 3);
    assert_eq!(groups[0].1.len(), 0);
    assert_eq!(groups[1].1.len(), 1);
}

#[test]
fn shared_links_and_impacted_flows() {
    let net = star();
    let f1 = Flow::build(0, 2, 100, 60);
    let f2 = Flow::build(1, 2, 50, 40);
    let f3 = Flow::build(0, 1, 10, 5);
    let (links, flows) = get_shared_links_and_impacted_flows(&f1, &vec![f1, f2, f3], &net);
    // f2 shares 3 - 4 and 4 - 2; f3 shares 0 - 3
    assert_eq!(links.len(), 3);
    assert_eq!(flows.len(), 3);
    let (links, flows) = get_shared_links_and_impacted_flows(&f2, &vec![f3], &net);
    // f3 (0 - 3 - 1) shares 1 - 3 with f2
    assert_eq!(links.len(), 1);
    assert_eq!(flows.len(), 1);
}

#[test]
fn update_copies_the_hunger() {
    let net = star();
    let mut active = Flow::build(1, 2, 50, 40);
    active.set_hungry(true);
    let mut updated = Flow::build(1, 2, 50, 45);
    let out = update_active_flows(&mut updated, &vec![active], &net, whole_link);
    assert!(updated.is_hungry());
    // the path 1 - 3 - 4 - 2: 50, 100, 100; the strictest division is the link of 50
    assert_eq!(out.len(), 1);
    assert_eq!(out[0].authorized_bandwidth, 50);
}

#[test]
fn removing_a_flow() {
    let net = star();
    let f1 = Flow::build(0, 2, 100, 60);
    let f2 = Flow::build(1, 2, 50, 40);
    let mut stop = Flow::build(0, 2, 100, 0);
    let (active, bw) = remove_flow(vec![f1, f2], &mut stop, &net, whole_link);
    assert_eq!(active.len(), 1);
    assert_eq!((active[0].source, active[0].destination), (1, 2));
    assert_eq!(active[0].authorized_bandwidth, 100);
    assert_eq!(bw.bandwidth_between(&3, &4), Some(60));
    assert_eq!(bw.bandwidth_between(&0, &3), Some(100));
}

#[test]
fn adding_a_flow() {
    let net = star();
    let f2 = Flow::build(1, 2, 50, 40);
    let bw = calculate_bandwidth_graph(&net, &vec![f2]);
    let mut f1 = Flow::build(0, 2, 100, 60);
    let (active, bw) = update_flows(vec![f2], &mut f1, &net, bw, whole_link);
    assert_eq!(active.len(), 2);
    assert_eq!(bw.bandwidth_between(&3, &4), Some(0));
    // a flow between vertices the network does not have changes nothing
    let mut lost = Flow::build(7, 8, 10, 10);
    let (same, _) = update_flows(active.clone(), &mut lost, &net, bw, whole_link);
    assert_eq!(same.len(), 2);
}

#[test]
fn flows_stay_distinct() {
    let net = star();
    let bw = calculate_bandwidth_graph(&net, &vec![]);
    let mut f1 = Flow::build(0, 2, 100, 60);
    let (active, bw) = update_flows(vec![], &mut f1, &net, bw, whole_link);
    assert_eq!(active.len(), 1);
    let mut again = Flow::build(0, 2, 80, 30);
    let (active, bw) = update_flows(active, &mut again, &net, bw, whole_link);
    assert_eq!(active.len(), 1);
    let mut other = Flow::build(1, 2, 50, 40);
    let (active, _) = update_flows(active, &mut other, &net, bw, whole_link);
    assert_eq!(active.len(), 2);
    assert!(active[0].source != active[1].source || active[0].destination != active[1].destination);
    // a flow that stops uses nothing any more
    let mut stop = Flow::build(0, 2, 80, 0);
    let (active, _) = remove_flow(active, &mut stop, &net, whole_link);
    assert_eq!(active.len(), 1);
    assert_eq!((active[0].source, active[0].destination), (1, 2));
}

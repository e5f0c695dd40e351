use kollaps::apps::{AppStatus, ApplicationKind, ContainerConfig, EventAction, Flow};
use kollaps::cluster::{CtrlAction, CtrlEvent, CtrlLimits, CtrlState};
use kollaps::emulcore::{app_event_step, flows_from, remove_all_flows_from, target_bandwidth, AppStep};
use kollaps::netgraph::{Link, Network, PathStrategy};
use kollaps::apps::TopologyRejectReason;
use kollaps::matrix::SymMatrix;
use kollaps::omanager::{manager_step, ManagerAction, ManagerEvent, ReadyBoard};
use kollaps::orchestrator::Orchestrator;
use kollaps::topology::TopologyNode;

fn star() -> Network<usize> {
    let vertices: Vec<usize> = (0..5).collect();
    let mut net = Network::new(&vertices, PathStrategy::ShortestPath);
    net.add_edge(&0, &3, 100);
    net.add_edge(&1, &3, 50);
    net.add_edge(&3, &4, 100);
    net.add_edge(&4, &2, 100);
    net
}

fn whole_link(l: Link<usize>, flows: Vec<Flow<usize>>) -> Vec<Flow<usize>> {
    flows
        .into_iter()
        .map(|mut f| {
            f.authorized_bandwidth = l.bandwidth();
            f
        })
        .collect()
}

#[test]
fn leader_accepts_one_node_at_a_time() {
    let limits = CtrlLimits { cjq_retry: 2, heartbeat_misses: 3 };
    let mut leader = CtrlState::new(true, &limits);
    assert_eq!(leader.step(&limits, CtrlEvent::CJQRequest { node: 5, known: false }), CtrlAction::ReplyAccepted);
    assert!(leader.adding_new_node);
    assert_eq!(leader.step(&limits, CtrlEvent::CJQRequest { node: 6, known: false }), CtrlAction::ReplyWait);
    assert_eq!(leader.step(&limits, CtrlEvent::CJQAbort), CtrlAction::ReplyNone);
    assert!(!leader.adding_new_node);
    assert_eq!(leader.step(&limits, CtrlEvent::CJQRequest { node: 6, known: false }), CtrlAction::ReplyAccepted);
    assert_eq!(leader.step(&limits, CtrlEvent::CGraphUpdate), CtrlAction::ReplaceGraph);
    assert!(!leader.adding_new_node);
    assert_eq!(leader.step(&limits, CtrlEvent::CHeartbeatCheck), CtrlAction::CheckHeartbeats);
}

#[test]
fn node_removed_after_missed_heartbeats() {
    let limits = CtrlLimits { cjq_retry: 2, heartbeat_misses: 3 };
    let mut leader = CtrlState::new(true, &limits);
    assert_eq!(leader.step(&limits, CtrlEvent::NodeFailure { node: 9 }), CtrlAction::ReplyNone);
    assert_eq!(leader.heartbeat_misses.get(&9), Some(&1));
    assert_eq!(leader.step(&limits, CtrlEvent::NodeFailure { node: 9 }), CtrlAction::ReplyNone);
    assert_eq!(leader.heartbeat_misses.get(&9), Some(&2));
    assert_eq!(leader.step(&limits, CtrlEvent::NodeFailure { node: 9 }), CtrlAction::RemoveNode(9));
    assert!(leader.heartbeat_misses.is_empty());
    // a reboot of a known node clears its count
    leader.step(&limits, CtrlEvent::NodeFailure { node: 4 });
    assert_eq!(leader.step(&limits, CtrlEvent::CJQRequest { node: 4, known: true }), CtrlAction::ReplyAccepted);
    assert!(leader.heartbeat_misses.get(&4).is_none());
    leader.step(&limits, CtrlEvent::NodeFailure { node: 4 });
    assert_eq!(leader.step(&limits, CtrlEvent::CHeartbeatReset), CtrlAction::ReplyNone);
    assert!(leader.heartbeat_misses.is_empty());
}

#[test]
fn follower_gives_up_after_retries() {
    let limits = CtrlLimits { cjq_retry: 2, heartbeat_misses: 3 };
    let mut node = CtrlState::new(false, &limits);
    assert_eq!(node.step(&limits, CtrlEvent::CJQRequest { node: 1, known: false }), CtrlAction::ReplyNone);
    assert_eq!(node.step(&limits, CtrlEvent::CJQRetry), CtrlAction::SendJoiningRequest);
    assert_eq!(node.step(&limits, CtrlEvent::CJQRetry), CtrlAction::SendJoiningRequest);
    assert_eq!(node.step(&limits, CtrlEvent::CJQWait), CtrlAction::RetryLater);
    assert_eq!(node.cjq_remaining, 2);
    assert_eq!(node.step(&limits, CtrlEvent::CJQRetry), CtrlAction::SendJoiningRequest);
    assert_eq!(node.step(&limits, CtrlEvent::CJQRetry), CtrlAction::SendJoiningRequest);
    assert_eq!(node.step(&limits, CtrlEvent::CJQRetry), CtrlAction::GiveUp);
    assert_eq!(node.step(&limits, CtrlEvent::CHeartbeat { same_cluster: true }), CtrlAction::ReplyHeartbeat);
    assert_eq!(node.step(&limits, CtrlEvent::CHeartbeat { same_cluster: false }), CtrlAction::ReplyNone);
    assert_eq!(node.step(&limits, CtrlEvent::CHeartbeatCheck), CtrlAction::Ignore);
    assert_eq!(node.step(&limits, CtrlEvent::CJQAccepted), CtrlAction::AddMyself);
    assert_eq!(node.step(&limits, CtrlEvent::PClient), CtrlAction::LaunchPerfServer);
}

#[test]
fn flow_targets() {
    assert_eq!(target_bandwidth(None, 100), 0);
    assert_eq!(target_bandwidth(Some(50), 100), 50);
    assert_eq!(target_bandwidth(Some(150), 100), 100);
}

#[test]
fn application_events() {
    let bare = ApplicationKind::BareMetal;
    let started = ApplicationKind::Container(ContainerConfig::new(
        "app".to_string(),
        None,
        Some(("alpine".to_string(), None)),
    ));
    let attached = ApplicationKind::Container(ContainerConfig::new("app".to_string(), Some("id".to_string()), None));
    assert_eq!(app_event_step(AppStatus::NotInit, EventAction::Join, &bare), (AppStatus::Running, AppStep::InitPaths));
    assert_eq!(app_event_step(AppStatus::Stopped, EventAction::Join, &bare), (AppStatus::Running, AppStep::Reconnect));
    assert_eq!(app_event_step(AppStatus::Running, EventAction::Join, &bare), (AppStatus::Running, AppStep::Nothing));
    assert_eq!(app_event_step(AppStatus::Crashed, EventAction::Join, &bare), (AppStatus::Crashed, AppStep::Nothing));
    assert_eq!(app_event_step(AppStatus::Running, EventAction::Quit, &bare), (AppStatus::Stopped, AppStep::Disconnect));
    assert_eq!(
        app_event_step(AppStatus::Running, EventAction::Crash, &started),
        (AppStatus::Crashed, AppStep::DisconnectAndStop)
    );
    assert_eq!(app_event_step(AppStatus::Running, EventAction::Crash, &attached), (AppStatus::Crashed, AppStep::Disconnect));
    assert_eq!(app_event_step(AppStatus::Running, EventAction::Crash, &bare), (AppStatus::Crashed, AppStep::Disconnect));
}

#[test]
fn removing_the_flows_of_an_application() {
    let net = star();
    let f1 = Flow::build(0, 2, 100, 60);
    let f2 = Flow::build(1, 2, 50, 40);
    let f3 = Flow::build(0, 1, 10, 5);
    let active = vec![f1, f2, f3];
    let leaving = flows_from(&active, &0);
    assert_eq!(leaving.len(), 2);
    let bw = kollaps::bwsync::calculate_bandwidth_graph(&net, &active);
    let (left, bw) = remove_all_flows_from(active, bw, &0, &net, whole_link);
    assert!(left.iter().all(|f| f.source != 0 || f.used_bandwidth != 0));
    assert!(left.iter().any(|f| f.source == 1 && f.destination == 2));
    assert!(bw.bandwidth_between(&3, &4).is_some());
}

#[test]
fn emulation_starts_when_all_nodes_are_ready() {
    let mut board = ReadyBoard::new();
    board.register(7, &vec![1, 2]);
    board.register(8, &vec![3]);
    assert!(!board.mark_ready(7, 1));
    assert!(board.mark_ready(7, 2));
    assert_eq!(board.nodes(7), vec![1, 2]);
    assert!(board.mark_ready(8, 3));
    board.remove(7);
    assert!(board.emulations.get(&7).is_none());
    assert!(board.emulations.get(&8).is_some());
}

const TOPOLOGY: &str = r#"<?xml version="1.0" encoding="UTF-8" ?>
<experiment boot="kollaps:2.0">
  <services>
    <service name="a" image="alpine" command="ash" kind="container"/>
    <service name="b" image="alpine" command="ash" kind="container"/>
  </services>
  <links>
    <link origin="a" dest="b" bandwidth="10Mbps"/>
  </links>
</experiment>"#;

fn two_hosts(bandwidth: u32, max_load: usize) -> Orchestrator {
    Orchestrator::new(SymMatrix::new_fn(2, move |_, _| bandwidth), max_load)
}

#[test]
fn manager_refuses_a_bad_file() {
    let mut orch = two_hosts(1000, 4);
    let mut board = ReadyBoard::new();
    let a = manager_step(&mut board, &mut orch, ManagerEvent::NewTopology { text: "<experiment>".to_string() });
    assert!(matches!(a, ManagerAction::Rejected(TopologyRejectReason::BadFile(_))));
    let a = manager_step(&mut board, &mut orch, ManagerEvent::NewTopology { text: "<nothing/>".to_string() });
    assert!(matches!(a, ManagerAction::Rejected(TopologyRejectReason::BadFile(_))));
    assert!(board.emulations.is_empty());
}

#[test]
fn manager_builds_a_topology_under_a_fresh_identifier() {
    let mut orch = two_hosts(1000, 4);
    let mut board = ReadyBoard::new();
    let a = manager_step(&mut board, &mut orch, ManagerEvent::NewTopology { text: TOPOLOGY.to_string() });
    let (id, t) = match a {
        ManagerAction::BuildNetwork(id, t) => (id, t),
        other => panic!("unexpected {:?}", other),
    };
    let uuid = uuid::Uuid::from_u128(id);
    assert_eq!(uuid.get_version_num(), 4);
    let text = uuid.to_string();
    assert_eq!(text.len(), 36);
    match &t.nodes[0].1 {
        TopologyNode::App(_, s) => match &s.kind {
            ApplicationKind::Container(c) => assert_eq!(c.name(), format!("kollaps_{}_0", text)),
            _ => panic!("a must be a container"),
        },
        _ => panic!("a must be a service"),
    }
    let b = manager_step(&mut board, &mut orch, ManagerEvent::NewTopology { text: TOPOLOGY.to_string() });
    match b {
        ManagerAction::BuildNetwork(other, _) => assert_ne!(other, id),
        other => panic!("unexpected {:?}", other),
    }
    assert!(board.emulations.is_empty());
}

#[test]
fn manager_places_and_starts_an_emulation() {
    let mut orch = two_hosts(1000, 1);
    let mut board = ReadyBoard::new();
    let apps = SymMatrix::new_fn(2, |r, c| if r == c { 0 } else { 100 });
    let a = manager_step(&mut board, &mut orch, ManagerEvent::NetworkBuilt { id: 5, apps });
    let placement = match a {
        ManagerAction::SendEmulation(5, placement) => placement,
        other => panic!("unexpected {:?}", other),
    };
    assert_eq!(placement.len(), 2);
    assert_ne!(placement[0], placement[1]);
    let mut hosts: Vec<u64> = board.emulations.get(&5).unwrap().iter().map(|e| e.0).collect();
    hosts.sort();
    assert_eq!(hosts, vec![0, 1]);
    assert!(matches!(
        manager_step(&mut board, &mut orch, ManagerEvent::SendResult { id: 5, ok: true }),
        ManagerAction::Accepted
    ));
    assert!(matches!(
        manager_step(&mut board, &mut orch, ManagerEvent::SendResult { id: 5, ok: false }),
        ManagerAction::Rejected(TopologyRejectReason::NoDeploymentFound)
    ));
    assert!(matches!(
        manager_step(&mut board, &mut orch, ManagerEvent::EmulationReady { id: 5, node: 0 }),
        ManagerAction::ReplyNone
    ));
    assert!(matches!(
        manager_step(&mut board, &mut orch, ManagerEvent::CleanStop { id: 5, node: 0, app_index: 0 }),
        ManagerAction::ReplyNone
    ));
    match manager_step(&mut board, &mut orch, ManagerEvent::EmulationReady { id: 5, node: 1 }) {
        ManagerAction::Start(5, mut nodes) => {
            nodes.sort();
            assert_eq!(nodes, vec![0, 1]);
        }
        other => panic!("unexpected {:?}", other),
    }
    match manager_step(&mut board, &mut orch, ManagerEvent::Abort { id: 5 }) {
        ManagerAction::Abort(5, nodes) => assert_eq!(nodes.len(), 2),
        other => panic!("unexpected {:?}", other),
    }
    assert!(board.emulations.is_empty());
}

#[test]
fn manager_finds_no_deployment() {
    let mut orch = two_hosts(10, 1);
    let mut board = ReadyBoard::new();
    let apps = SymMatrix::new_fn(3, |r, c| if r == c { 0 } else { 100 });
    let a = manager_step(&mut board, &mut orch, ManagerEvent::NetworkBuilt { id: 9, apps });
    assert!(matches!(a, ManagerAction::Rejected(TopologyRejectReason::NoDeploymentFound)));
    assert!(board.emulations.is_empty());
}

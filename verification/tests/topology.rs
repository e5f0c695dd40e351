use kollaps::apps::{ApplicationKind, EventAction};
use kollaps::topology::{parse_topology, TopologyNode};

const DOC: &str = r#"<?xml version="1.0" encoding="UTF-8" ?>
<experiment boot="kollaps:2.0">
  <services>
    <service name="a" image="alpine" command="ash" kind="container"/>
    <service name="b" kind="BareMetal" ip="10.0.0.2"/>
  </services>
  <bridges>
    <bridge name="s1"/>
  </bridges>
  <links>
    <link origin="a" dest="s1" latency="10" bandwidth="100Mbps"/>
    <!-- a comment between links -->
    <link origin="b" dest="s1" bandwidth="at most 1Gbps" jitter="0.5" drop="0.01"/>
  </links>
  <dynamic>
    <schedule name="a" time="2.5" action="leave"/>
    <schedule name="s1" action="Crash"/>
  </dynamic>
</experiment>"#;

fn node<'a>(t: &'a kollaps::topology::Topology, name: &str) -> &'a TopologyNode {
    &t.nodes.iter().find(|(n, _)| n == name).unwrap().1
}

#[test]
fn reads_a_topology() {
    let t = parse_topology(DOC, "e1").unwrap();
    assert_eq!(t.nodes.len(), 3);
    match node(&t, "a") {
        TopologyNode::App(id, s) => {
            assert_eq!(*id, 0);
            assert_eq!(s.name, "a");
            match &s.kind {
                ApplicationKind::Container(c) => {
                    assert_eq!(c.name(), "kollaps_e1_0");
                    assert_eq!(c.image(), Some("alpine".to_string()));
                    assert_eq!(c.command(), Some("ash".to_string()));
                }
                _ => panic!("a must be a container"),
            }
        }
        _ => panic!("a must be a service"),
    }
    match node(&t, "b") {
        TopologyNode::App(id, s) => {
            assert_eq!(*id, 1);
            assert_eq!(s.ip, Some("10.0.0.2".to_string()));
            assert!(matches!(s.kind, ApplicationKind::BareMetal));
        }
        _ => panic!("b must be a service"),
    }
    assert_eq!(node(&t, "s1").id(), 2);
    assert!(!node(&t, "s1").is_app());
    assert_eq!(t.links.len(), 2);
    assert_eq!((t.links[0].origin, t.links[0].destination), (0, 2));
    assert_eq!((t.links[0].bandwidth.as_str(), t.links[0].unit.as_str()), ("100", "M"));
    assert_eq!(t.links[0].latency, Some("10".to_string()));
    assert_eq!(t.links[0].jitter, None);
    assert_eq!((t.links[1].bandwidth.as_str(), t.links[1].unit.as_str()), ("1", "G"));
    assert_eq!(t.links[1].drop, Some("0.01".to_string()));
    assert_eq!(t.schedule.len(), 2);
    assert_eq!(t.schedule[0].app_id, 0);
    assert_eq!(t.schedule[0].time, Some("2.5".to_string()));
    assert_eq!(t.schedule[0].action, EventAction::Quit);
    assert_eq!(t.schedule[1].app_id, 2);
    assert_eq!(t.schedule[1].action, EventAction::Crash);
}

#[test]
fn refuses_wrong_topologies() {
    assert!(parse_topology("<experiment", "e").is_err());
    assert!(parse_topology("<other boot=\"x\"><services/><links/></other>", "e").is_err());
    assert!(parse_topology("<experiment><services/><links/></experiment>", "e").is_err());
    assert!(parse_topology("<experiment boot=\"x\"><links/></experiment>", "e").is_err());
    assert!(parse_topology("<experiment boot=\"x\"><services/></experiment>", "e").is_err());
    assert!(parse_topology("<experiment boot=\"x\"><services/><services/><links/></experiment>", "e").is_err());
    let unknown = "<experiment boot=\"x\"><services><service name=\"a\" kind=\"baremetal\"/></services><links><link origin=\"a\" dest=\"z\" bandwidth=\"1Kbps\"/></links></experiment>";
    assert!(parse_topology(unknown, "e").is_err());
    let bad_bw = "<experiment boot=\"x\"><services><service name=\"a\" kind=\"baremetal\"/><service name=\"b\" kind=\"baremetal\"/></services><links><link origin=\"a\" dest=\"b\" bandwidth=\"10 Mbps\"/></links></experiment>";
    assert!(parse_topology(bad_bw, "e").is_err());
    let bad_kind = "<experiment boot=\"x\"><services><service name=\"a\" kind=\"vm\"/></services><links/></experiment>";
    assert!(parse_topology(bad_kind, "e").is_err());
    let attach = "<experiment boot=\"x\"><services><service name=\"a\" kind=\"container\" ip=\"1.2.3.4\"/></services><links/></experiment>";
    assert!(parse_topology(attach, "e").is_err());
    let bad_action = "<experiment boot=\"x\"><services><service name=\"a\" kind=\"baremetal\"/></services><links/><dynamic><schedule name=\"a\" action=\"jump\"/></dynamic></experiment>";
    assert!(parse_topology(bad_action, "e").is_err());
}

#[test]
fn minimal_topology() {
    let doc = "<experiment boot=\"x\"><services><service name=\"a\" kind=\"baremetal\"/><service name=\"a\" kind=\"baremetal\"/></services><links/></experiment>";
    let t = parse_topology(doc, "e").unwrap();
    // the second service of the same name replaces the first, and keeps its own number
    assert_eq!(t.nodes.len(), 1);
    assert_eq!(node(&t, "a").id(), 1);
    assert!(t.links.is_empty());
    assert!(t.schedule.is_empty());
}

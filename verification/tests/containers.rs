use kollaps::apps::{AppStatus, ContainerConfig, Flow, TopologyRejectReason};
use kollaps::docker::{inspect_args, network_ls_args, run_args, DockerHelper, NetworkCreateOpts, NetworkDriver, NetworkLsOpts, RunOpts};
use kollaps::common::Subnet;

fn strings(v: &[&str]) -> Vec<String> {
    v.iter().map(|s| s.to_string()).collect()
}

#[test]
fn container_config() {
    let c = ContainerConfig::new("web".to_string(), None, Some(("nginx".to_string(), Some("serve".to_string()))));
    assert_eq!(c.name(), "web");
    assert_eq!(c.image(), Some("nginx".to_string()));
    assert_eq!(c.command(), Some("serve".to_string()));
    assert_eq!(c.id(), None);
    let d = ContainerConfig::new("db".to_string(), Some("abc".to_string()), None);
    assert_eq!(d.image(), None);
    assert_eq!(d.command(), None);
    assert_eq!(d.id(), Some("abc".to_string()));
    assert_eq!(AppStatus::NotInit, AppStatus::NotInit);
}

#[test]
fn flows() {
    let mut f = Flow::build(1usize, 2usize, 100, 40);
    assert_eq!(f.authorized_bandwidth, 0);
    assert!(!f.is_hungry());
    f.set_hungry(true);
    assert!(f.is_hungry());
    let g = Flow::build(1usize, 2usize, 5, 5);
    assert!(f.same_flow(&g));
    assert!(!f.same_flow(&Flow::build(2usize, 1usize, 5, 5)));
}

#[test]
fn reject_reasons() {
    assert_eq!(TopologyRejectReason::BadFile("x".to_string()).text(), "Bad file: x");
    assert_eq!(TopologyRejectReason::TooMuch.text(), "Already too much topology is running, please try later");
}

#[test]
fn docker_run_arguments() {
    let mut opts = RunOpts::new();
    opts.rm(true);
    opts.detach(true);
    opts.name("c1");
    opts.ip([192, 168, 1, 200]);
    assert_eq!(run_args(&opts, "alpine:latest", Some("ash")), strings(&["run", "--rm", "-d", "--name", "c1", "--ip", "192.168.1.200", "alpine:latest", "ash"]));
    assert_eq!(run_args(&RunOpts::new(), "alpine", None), strings(&["run", "alpine"]));
    assert_eq!(inspect_args("{{.Id}}"), strings(&["inspect", "--format", "{{.Id}}"]));
}

#[test]
fn docker_network_arguments() {
    let mut ls = NetworkLsOpts::new();
    ls.quiet(true);
    ls.filter(("name", "a"));
    ls.filter(("name", "b"));
    assert_eq!(network_ls_args(&ls), strings(&["network", "ls", "--quiet", "--filter", "name=b"]));
    assert_eq!(NetworkDriver::MacVlan.to_arg(), "macvlan");
    let mut create = NetworkCreateOpts::new();
    create.driver(NetworkDriver::Bridge);
    create.range(Subnet::from_parts([10, 0, 0, 0], 8));
    assert_eq!(kollaps::docker::network_create_args(&create, "n"), strings(&["network", "create", "-d", "bridge", "--ip-range", "10.0.0.0/8", "n"]));
}

#[test]
fn docker_helper_arguments() {
    let helper = DockerHelper::new();
    assert_eq!(DockerHelper::network_lookup_args(), strings(&["network", "ls", "--quiet", "--filter", "name=kollaps_ipvlan"]));
    assert!(DockerHelper::network_missing(""));
    assert!(!DockerHelper::network_missing("f00d\n"));
    let subnet = Subnet::from_parts([192, 168, 1, 0], 24);
    assert_eq!(
        DockerHelper::create_network_args("wlp0s20f3", subnet, [192, 168, 1, 1]),
        strings(&["network", "create", "-d", "ipvlan", "--gateway=192.168.1.1", "--subnet=192.168.1.0/24", "-o", "parent=wlp0s20f3", "kollaps_ipvlan"])
    );
    assert_eq!(
        helper.launch_container_args("alpine:latest", "ipvlan-1", [192, 168, 1, 200], Some("ash")),
        strings(&["run", "--rm", "-d", "-i", "-t", "--network", "kollaps_ipvlan", "--name", "ipvlan-1", "--ip", "192.168.1.200", "alpine:latest", "ash"])
    );
    assert_eq!(helper.stop_container_args("ipvlan-1"), strings(&["stop", "ipvlan-1"]));
    assert_eq!(helper.delete_network_args(), strings(&["network", "rm", "kollaps_ipvlan"]));
}

use kollaps::common::{Error, ErrorKind, IpMask, MonitorIpAddr, SocketAddr, Subnet, ToU32IpAddr};
use kollaps::text::quad_from_text;

#[test]
fn conversions() {
    let addr = "192.168.1.200";
    let val = MonitorIpAddr::from_text(addr);
    assert_eq!(val.addr, 0b11000000_10101000_00000001_11001000);
    assert_eq!(val.to_string(), addr);
    assert_eq!(val.octets(), [192, 168, 1, 200]);
}

#[test]
fn monitor_address_new() {
    let m = MonitorIpAddr::new(0x0a000001);
    assert_eq!(m.to_string(), "10.0.0.1");
}

#[test]
fn kernel_side_address_is_little_endian() {
    let s = SocketAddr::from_text("1.2.3.4");
    assert_eq!(s.addr, (4 << 24) | (3 << 16) | (2 << 8) | 1);
    assert_eq!(s.text(), " 4 . 3 . 2 . 1 ");
    let t = SocketAddr::new((192 << 24) | (10 << 16) | (1 << 8) | 100);
    assert_eq!(t.text(), "192.10 . 1 .100");
}

#[test]
fn dotted_quads() {
    assert_eq!(quad_from_text("10.0.255.7"), Some([10, 0, 255, 7]));
    assert_eq!(quad_from_text("+1.02.3.4"), Some([1, 2, 3, 4]));
    assert_eq!(quad_from_text("1.2.3"), None);
    assert_eq!(quad_from_text("1.2.3.4.5"), None);
    assert_eq!(quad_from_text("256.1.1.1"), None);
    assert_eq!(quad_from_text("1..2.3"), None);
    assert_eq!(quad_from_text("a.b.c.d"), None);
}

#[test]
fn mask_prefix_length() {
    assert_eq!(IpMask::from_text("255.255.255.0").to_cidr(), 24);
    assert_eq!(IpMask::from_text("255.255.240.0").to_cidr(), 20);
    assert_eq!(IpMask::from_text("255.255.255.255").to_cidr(), 32);
    assert_eq!(IpMask::from_text("0.0.0.0").to_cidr(), 0);
    assert_eq!(IpMask::from_bytes([128, 0, 0, 0]).to_cidr(), 1);
    assert_eq!(IpMask::from_bytes([255, 0, 0, 0]).text(), "255.0.0.0");
}

#[test]
fn subnet_from_prefix() {
    let s = Subnet::from_parts([192, 168, 1, 0], 24);
    assert_eq!(s.mask.bytes, [255, 255, 255, 0]);
    assert_eq!(s.text(), "192.168.1.0/24");
    let t = Subnet::from_parts([10, 0, 0, 0], 20);
    assert_eq!(t.mask.bytes, [255, 255, 240, 0]);
    assert_eq!(t.text(), "10.0.0.0/20");
    let z = Subnet::from_parts([0, 0, 0, 0], 0);
    assert_eq!(z.mask.bytes, [0, 0, 0, 0]);
    assert_eq!(Subnet::from_parts([1, 2, 3, 4], 32).mask.bytes, [255, 255, 255, 255]);
}

#[test]
fn octets_to_u32() {
    assert_eq!([127u8, 0, 0, 1].to_u32(), 0x7f000001);
}

#[test]
fn error_texts() {
    assert_eq!(ErrorKind::CommandFailed.text(), "Command Failed");
    assert_eq!(ErrorKind::UnexpectedEof.text(), "Unexpected EOF");
    let e = Error::new("docker helper", ErrorKind::DockerInit, "cannot start");
    assert_eq!(e.location, "DOCKER HELPER");
    assert_eq!(e.text(), "[DOCKER HELPER]: Error type: Docker Initialization \t Error message: cannot start.");
    let p = Error::producer("orchestrator");
    let e2 = p.create(ErrorKind::InvalidData, "bad");
    assert_eq!(e2.location, "ORCHESTRATOR");
    assert_eq!(e2.kind, ErrorKind::InvalidData);
}

#[test]
fn active_paths_of_a_list() {
    let r = kollaps::text::process_active_paths("['a-b', 'c']");
    assert_eq!(r, vec!["a-b".to_string(), " c".to_string()]);
    let r = kollaps::text::process_active_paths("");
    assert_eq!(r, vec!["".to_string()]);
}

#[test]
fn monitor_address_text_round_trip() {
    for addr in [0u32, 1, 0xc0a8_01c8, 0xffff_ffff, 0x0a00_0001] {
        let m = MonitorIpAddr::new(addr);
        let text = m.to_string();
        assert_eq!(MonitorIpAddr::from_text(&text).addr, addr);
        let bytes = m.octets();
        assert_eq!(quad_from_text(&text), Some(bytes));
        assert_eq!(kollaps::common::from_be_bytes(kollaps::common::to_be_bytes(addr)), addr);
    }
}

#[test]
fn subnets_from_text() {
    assert_eq!(Subnet::from_address("192.168.1.0", 24).text(), "192.168.1.0/24");
    assert_eq!(Subnet::from_address("10.1.2.3", 0).text(), "10.1.2.3/0");
    assert_eq!(Subnet::from_address("10.1.2.3", 32).text(), "10.1.2.3/32");
    assert_eq!(Subnet::from_text("10.0.0.0/8").unwrap().text(), "10.0.0.0/8");
    assert_eq!(Subnet::from_text("192.168.1.200/28").unwrap().text(), "192.168.1.200/28");
    assert!(Subnet::from_text("10.0.0.0").is_none());
    assert!(Subnet::from_text("10.0.0.0/8/1").is_none());
    assert!(Subnet::from_text("10.0.0.0/40").is_none());
    assert!(Subnet::from_text("10.0.0.0/x").is_none());
}

use vpsnet::config::{IpAddress, V4Ip, VPS};
use vpsnet::diff::{make_diff, needs_update, reconcile, Diff};
use vpsnet::error::Error;
use vpsnet::netlink::{Address, Interface, LinkAttribute, LinkRecord, Route, State};

const PRIVATE: u32 = 0x6440_0000; // 100.64.0.0
const PUBLIC: u32 = 0xC103_A5DF; // 193.3.165.223
const PREFIX: u128 = 0x2a11_f2c0_0003_0000_0000_0000_0000_0000; // 2a11:f2c0:3::

fn tenant(vlan: u16) -> VPS {
    VPS { vlan, v4_addr: PRIVATE, v4_public: Some(V4Ip::One(PUBLIC)), v6_prefix: PREFIX }
}

fn empty_state() -> State {
    State { interfaces: vec![], addresses: vec![], routes: vec![] }
}

fn interface(name: &str, index: u32, vlan: u16) -> Interface {
    Interface { name: name.to_string(), index, link: 2, vlan }
}

fn provisioned() -> State {
    State {
        interfaces: vec![interface("vps1", 7, 4000)],
        addresses: vec![Address {
            interface: 7,
            address: IpAddress::V4(PRIVATE),
            prefix_length: 31,
            message: 0,
        }],
        routes: vec![
            Route {
                destination: IpAddress::V4(PUBLIC),
                destination_prefix_length: 32,
                interface: 7,
                message: 0,
            },
            Route {
                destination: IpAddress::V6(PREFIX),
                destination_prefix_length: 64,
                interface: 7,
                message: 1,
            },
        ],
    }
}

fn describe(ops: &[Diff]) -> Vec<String> {
    ops.iter().map(|op| format!("{:?}", op)).collect()
}

#[test]
fn empty_kernel_creates_everything_for_one_tenant() {
    let target = vec![tenant(4000)];
    let (ops, names) = reconcile(2, &target, &empty_state());
    assert_eq!(ops.len(), 4);
    match &ops[0] {
        Diff::AddInterface(i) => {
            assert_eq!(i.name, "vps1");
            assert_eq!(i.vlan, 4000);
            assert_eq!(i.link, 2);
            assert_eq!(i.index, 0);
        }
        other => panic!("unexpected {:?}", other),
    }
    match &ops[1] {
        Diff::AddAddress(a) => {
            assert_eq!(a.address, IpAddress::V4(PRIVATE));
            assert_eq!(a.prefix_length, 31);
            assert_eq!(a.interface_name, "vps1");
        }
        other => panic!("unexpected {:?}", other),
    }
    match &ops[2] {
        Diff::AddRoute(r) => {
            assert_eq!(r.destination, IpAddress::V4(PUBLIC));
            assert_eq!(r.destination_prefix_length, 32);
            assert_eq!(r.interface_name, "vps1");
        }
        other => panic!("unexpected {:?}", other),
    }
    match &ops[3] {
        Diff::AddRoute(r) => {
            assert_eq!(r.destination, IpAddress::V6(PREFIX));
            assert_eq!(r.destination_prefix_length, 64);
            assert_eq!(r.interface_name, "vps1");
        }
        other => panic!("unexpected {:?}", other),
    }
    assert_eq!(names.len(), 1);
    assert_eq!(names[0].name, "vps1");
    assert_eq!(names[0].vps.vlan, 4000);
}

#[test]
fn missing_public_route_is_the_only_addition() {
    let mut state = provisioned();
    state.routes.remove(0);
    let target = vec![tenant(4000)];
    let (ops, names) = reconcile(2, &target, &state);
    assert_eq!(ops.len(), 1);
    match &ops[0] {
        Diff::AddRoute(r) => {
            assert_eq!(r.destination, IpAddress::V4(PUBLIC));
            assert_eq!(r.destination_prefix_length, 32);
            assert_eq!(r.interface_name, "vps1");
        }
        other => panic!("unexpected {:?}", other),
    }
    assert_eq!(names[0].name, "vps1");
}

#[test]
fn dropped_tenant_removes_only_its_interface() {
    let target: Vec<VPS> = vec![];
    let (ops, names) = reconcile(2, &target, &provisioned());
    assert_eq!(ops.len(), 1);
    assert!(matches!(ops[0], Diff::RemoveInterface(7)));
    assert!(names.is_empty());
}

#[test]
fn new_interface_is_numbered_after_the_highest() {
    let state = State {
        interfaces: vec![interface("vps3", 5, 10), interface("vps7", 6, 11)],
        addresses: vec![],
        routes: vec![],
    };
    let target = vec![tenant(10), tenant(11), tenant(12)];
    let (ops, names) = reconcile(2, &target, &state);
    assert_eq!(names.len(), 3);
    assert_eq!(names[0].name, "vps3");
    assert_eq!(names[1].name, "vps7");
    assert_eq!(names[2].name, "vps8");
    assert!(ops.iter().any(|op| matches!(op, Diff::AddInterface(i) if i.name == "vps8" && i.vlan == 12)));
}

#[test]
fn wrong_prefix_length_is_replaced() {
    let mut state = provisioned();
    state.addresses[0].prefix_length = 32;
    state.addresses[0].message = 5;
    let target = vec![tenant(4000)];
    let (ops, _) = reconcile(2, &target, &state);
    assert_eq!(ops.len(), 2);
    assert!(matches!(ops[0], Diff::RemoveAddress(5)));
    match &ops[1] {
        Diff::AddAddress(a) => {
            assert_eq!(a.address, IpAddress::V4(PRIVATE));
            assert_eq!(a.prefix_length, 31);
            assert_eq!(a.interface_name, "vps1");
        }
        other => panic!("unexpected {:?}", other),
    }
}

#[test]
fn provisioned_tenant_needs_nothing() {
    let target = vec![tenant(4000)];
    let (ops, names) = reconcile(2, &target, &provisioned());
    assert!(ops.is_empty(), "{:?}", describe(&ops));
    assert_eq!(names[0].name, "vps1");
    assert!(!needs_update(&ops, false));
    assert!(needs_update(&ops, true));
}

#[test]
fn make_diff_resolves_the_parent_link() {
    let links = vec![
        LinkRecord { index: 1, attributes: vec![LinkAttribute::IfName("lo".to_string())] },
        LinkRecord { index: 2, attributes: vec![LinkAttribute::IfName("eth0".to_string())] },
    ];
    let target = vec![tenant(4000)];
    let (ops, _) = make_diff("eth0", &links, &target, empty_state()).unwrap();
    assert!(matches!(&ops[0], Diff::AddInterface(i) if i.link == 2));
    match make_diff("eth1", &links, &target, empty_state()) {
        Err(Error::InterfaceNotFound(name)) => assert_eq!(name, "eth1"),
        other => panic!("unexpected {:?}", other.map(|_| ())),
    }
}

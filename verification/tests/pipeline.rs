use vpsnet::config::{IpAddress, V4Ip, VPS};
use vpsnet::diff::{make_diff, Diff};
use vpsnet::netlink::{
    get_state, AddressAttribute, AddressRecord, LinkAttribute, LinkInfo, LinkKind, LinkRecord,
    RouteAttribute, RouteRecord, VlanAttribute, AF_INET, AF_INET6, RT_SCOPE_UNIVERSE,
};

const TAG: u8 = 157;

fn vlan_link(index: u32, name: &str, vlan: u16) -> LinkRecord {
    LinkRecord {
        index,
        attributes: vec![
            LinkAttribute::IfName(name.to_string()),
            LinkAttribute::Link(2),
            LinkAttribute::Info(vec![
                LinkInfo::Kind(LinkKind::Vlan),
                LinkInfo::VlanData(vec![VlanAttribute::Id(vlan)]),
            ]),
        ],
    }
}

fn parent() -> LinkRecord {
    LinkRecord { index: 2, attributes: vec![LinkAttribute::IfName("eth0".to_string())] }
}

fn address(index: u32, scope: u8, prefix_len: u8, payload: Vec<u8>) -> AddressRecord {
    let family = if payload.len() == 4 { AF_INET } else { AF_INET6 };
    AddressRecord {
        family,
        prefix_len,
        scope,
        index,
        attributes: vec![AddressAttribute::Address(payload)],
    }
}

fn route(protocol: u8, oif: u32, prefix: u8, payload: Vec<u8>) -> RouteRecord {
    let family = if payload.len() == 4 { AF_INET } else { AF_INET6 };
    RouteRecord {
        address_family: family,
        destination_prefix_length: prefix,
        protocol,
        attributes: vec![RouteAttribute::Destination(payload), RouteAttribute::Oif(oif)],
    }
}

fn prefix_bytes() -> Vec<u8> {
    vec![0x2a, 0x11, 0xf2, 0xc0, 0, 3, 0, 0, 0, 0, 0, 0, 0, 0, 0, 0]
}

fn tenant() -> VPS {
    VPS {
        vlan: 4000,
        v4_addr: 0x6440_0000,
        v4_public: Some(V4Ip::Many(vec![0xC103_A5DF])),
        v6_prefix: 0x2a11_f2c0_0003_0000_0000_0000_0000_0000,
    }
}

#[test]
fn removals_carry_the_position_of_the_kernel_record() {
    let links = vec![parent(), vlan_link(7, "vps1", 4000), vlan_link(9, "eth0.5", 5)];
    let addresses = vec![
        address(2, RT_SCOPE_UNIVERSE, 24, vec![192, 0, 2, 1]),
        address(7, 253, 64, vec![0xfe, 0x80, 0, 0, 0, 0, 0, 0, 0, 0, 0, 0, 0, 0, 0, 1]),
        address(7, RT_SCOPE_UNIVERSE, 32, vec![100, 64, 0, 0]),
        address(7, RT_SCOPE_UNIVERSE, 31, vec![100, 64, 0, 0]),
    ];
    let routes = vec![
        route(4, 2, 0, vec![0, 0, 0, 0]),
        route(TAG, 7, 32, vec![193, 3, 165, 223]),
        route(TAG, 7, 32, vec![198, 51, 100, 7]),
        route(2, 7, 64, prefix_bytes()),
        route(TAG, 7, 64, prefix_bytes()),
    ];
    let state = get_state(&links, &addresses, &routes, TAG);
    let target = vec![tenant()];
    let (ops, names) = make_diff("eth0", &vec![parent()], &target, state).unwrap();
    assert_eq!(ops.len(), 2, "{:?}", ops);
    assert!(matches!(ops[0], Diff::RemoveRoute(2)));
    assert!(matches!(ops[1], Diff::RemoveAddress(2)));
    assert_eq!(names[0].name, "vps1");
}

#[test]
fn records_of_others_never_lead_to_a_removal() {
    let links = vec![parent(), vlan_link(9, "eth0.5", 5)];
    let addresses = vec![
        address(2, RT_SCOPE_UNIVERSE, 24, vec![192, 0, 2, 1]),
        address(9, RT_SCOPE_UNIVERSE, 24, vec![192, 0, 2, 2]),
    ];
    let routes = vec![route(4, 2, 0, vec![0, 0, 0, 0]), route(3, 9, 24, vec![10, 0, 0, 0])];
    let state = get_state(&links, &addresses, &routes, TAG);
    assert!(state.interfaces.is_empty());
    assert!(state.routes.is_empty());
    let target = vec![tenant()];
    let (ops, names) = make_diff("eth0", &links, &target, state).unwrap();
    assert_eq!(ops.len(), 4);
    assert!(ops.iter().all(|op| matches!(
        op,
        Diff::AddInterface(_) | Diff::AddAddress(_) | Diff::AddRoute(_)
    )));
    assert!(matches!(&ops[0], Diff::AddInterface(i) if i.name == "vps1" && i.link == 2));
    assert!(matches!(&ops[2], Diff::AddRoute(r) if r.destination == IpAddress::V4(0xC103_A5DF)));
    assert_eq!(names[0].name, "vps1");
}

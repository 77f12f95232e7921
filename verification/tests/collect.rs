use vpsnet::config::IpAddress;
use vpsnet::error::Error;
use vpsnet::netlink::{
    get_addresses, get_routes, get_state, get_vlan_interfaces, interface_name_to_index,
    AddressAttribute, AddressRecord, LinkAttribute, LinkInfo, LinkKind, LinkRecord,
    RouteAttribute, RouteRecord, VlanAttribute, AF_INET, AF_INET6, RT_SCOPE_UNIVERSE,
};

fn vlan_link(index: u32, name: &str, parent: u32, vlan: u16) -> LinkRecord {
    LinkRecord {
        index,
        attributes: vec![
            LinkAttribute::IfName(name.to_string()),
            LinkAttribute::Other,
            LinkAttribute::Link(parent),
            LinkAttribute::Info(vec![
                LinkInfo::Kind(LinkKind::Vlan),
                LinkInfo::VlanData(vec![VlanAttribute::Other, VlanAttribute::Id(vlan)]),
            ]),
        ],
    }
}

fn plain_link(index: u32, name: &str) -> LinkRecord {
    LinkRecord {
        index,
        attributes: vec![
            LinkAttribute::IfName(name.to_string()),
            LinkAttribute::Info(vec![LinkInfo::Kind(LinkKind::Other), LinkInfo::Other]),
        ],
    }
}

fn address(family: u8, scope: u8, index: u32, prefix_len: u8, payload: Vec<u8>) -> AddressRecord {
    AddressRecord {
        family,
        prefix_len,
        scope,
        index,
        attributes: vec![AddressAttribute::Other, AddressAttribute::Address(payload)],
    }
}

fn route(family: u8, protocol: u8, prefix: u8, oif: u32, payload: Vec<u8>) -> RouteRecord {
    RouteRecord {
        address_family: family,
        destination_prefix_length: prefix,
        protocol,
        attributes: vec![
            RouteAttribute::Other,
            RouteAttribute::Destination(payload),
            RouteAttribute::Oif(oif),
        ],
    }
}

#[test]
fn only_vlan_links_with_the_prefix_are_interfaces() {
    let links = vec![
        plain_link(1, "lo"),
        plain_link(2, "eth0"),
        vlan_link(5, "vps3", 2, 4000),
        vlan_link(6, "eth0.12", 2, 12),
        plain_link(7, "vps9"),
        vlan_link(8, "vps10", 2, 4001),
    ];
    let interfaces = get_vlan_interfaces(&links);
    assert_eq!(interfaces.len(), 2);
    assert_eq!(interfaces[0].name, "vps3");
    assert_eq!(interfaces[0].index, 5);
    assert_eq!(interfaces[0].link, 2);
    assert_eq!(interfaces[0].vlan, 4000);
    assert_eq!(interfaces[1].name, "vps10");
    assert_eq!(interfaces[1].index, 8);
    assert_eq!(interfaces[1].vlan, 4001);
}

#[test]
fn last_attribute_of_a_kind_wins() {
    let links = vec![LinkRecord {
        index: 4,
        attributes: vec![
            LinkAttribute::IfName("vps1".to_string()),
            LinkAttribute::Link(2),
            LinkAttribute::Info(vec![
                LinkInfo::Kind(LinkKind::Vlan),
                LinkInfo::VlanData(vec![VlanAttribute::Id(10), VlanAttribute::Id(11)]),
                LinkInfo::VlanData(vec![VlanAttribute::Other]),
            ]),
            LinkAttribute::Link(3),
            LinkAttribute::IfName("vps2".to_string()),
        ],
    }];
    let interfaces = get_vlan_interfaces(&links);
    assert_eq!(interfaces.len(), 1);
    assert_eq!(interfaces[0].name, "vps2");
    assert_eq!(interfaces[0].link, 3);
    assert_eq!(interfaces[0].vlan, 11);
}

#[test]
fn vlan_link_without_attributes_reads_as_zeroes() {
    let links = vec![LinkRecord {
        index: 4,
        attributes: vec![
            LinkAttribute::Info(vec![LinkInfo::Kind(LinkKind::Vlan)]),
            LinkAttribute::IfName("vps".to_string()),
        ],
    }];
    let interfaces = get_vlan_interfaces(&links);
    assert_eq!(interfaces.len(), 1);
    assert_eq!(interfaces[0].name, "vps");
    assert_eq!(interfaces[0].link, 0);
    assert_eq!(interfaces[0].vlan, 0);
}

#[test]
fn only_universe_scope_addresses_are_kept() {
    let records = vec![
        address(AF_INET, RT_SCOPE_UNIVERSE, 7, 31, vec![100, 64, 0, 0]),
        address(AF_INET6, 253, 7, 64, vec![0xfe, 0x80, 0, 0, 0, 0, 0, 0, 0, 0, 0, 0, 0, 0, 0, 1]),
        address(AF_INET, 254, 1, 8, vec![127, 0, 0, 1]),
        address(
            AF_INET6,
            RT_SCOPE_UNIVERSE,
            2,
            64,
            vec![0x2a, 0x11, 0xf2, 0xc0, 0, 3, 0, 0, 0, 0, 0, 0, 0, 0, 0, 1],
        ),
    ];
    let addresses = get_addresses(&records);
    assert_eq!(addresses.len(), 2);
    assert_eq!(addresses[0].interface, 7);
    assert_eq!(addresses[0].address, IpAddress::V4(0x6440_0000));
    assert_eq!(addresses[0].prefix_length, 31);
    assert_eq!(addresses[0].message, 0);
    assert_eq!(addresses[1].interface, 2);
    assert_eq!(
        addresses[1].address,
        IpAddress::V6(0x2a11_f2c0_0003_0000_0000_0000_0000_0001)
    );
    assert_eq!(addresses[1].prefix_length, 64);
    assert_eq!(addresses[1].message, 3);
}

#[test]
fn bytes_are_read_most_significant_first() {
    let records = vec![
        address(AF_INET, RT_SCOPE_UNIVERSE, 1, 32, vec![193, 3, 165, 223]),
        address(AF_INET, RT_SCOPE_UNIVERSE, 1, 32, vec![255, 255, 255, 255]),
        address(AF_INET6, RT_SCOPE_UNIVERSE, 1, 128, vec![255; 16]),
        address(
            AF_INET6,
            RT_SCOPE_UNIVERSE,
            1,
            128,
            vec![0, 1, 2, 3, 4, 5, 6, 7, 8, 9, 10, 11, 12, 13, 14, 15],
        ),
    ];
    let addresses = get_addresses(&records);
    assert_eq!(addresses[0].address, IpAddress::V4(0xC103_A5DF));
    assert_eq!(addresses[1].address, IpAddress::V4(u32::MAX));
    assert_eq!(addresses[2].address, IpAddress::V6(u128::MAX));
    assert_eq!(addresses[3].address, IpAddress::V6(0x0001_0203_0405_0607_0809_0a0b_0c0d_0e0f));
}

#[test]
fn unreadable_address_attribute_is_ignored() {
    let records = vec![
        address(AF_INET, RT_SCOPE_UNIVERSE, 1, 24, vec![10, 0, 0]),
        address(7, RT_SCOPE_UNIVERSE, 1, 24, vec![10, 0, 0, 1]),
        AddressRecord {
            family: AF_INET,
            prefix_len: 24,
            scope: RT_SCOPE_UNIVERSE,
            index: 1,
            attributes: vec![
                AddressAttribute::Address(vec![10, 0, 0, 1]),
                AddressAttribute::Address(vec![1, 2]),
            ],
        },
        AddressRecord {
            family: AF_INET,
            prefix_len: 24,
            scope: RT_SCOPE_UNIVERSE,
            index: 1,
            attributes: vec![],
        },
    ];
    let addresses = get_addresses(&records);
    assert_eq!(addresses.len(), 4);
    assert_eq!(addresses[0].address, IpAddress::V4(0));
    assert_eq!(addresses[1].address, IpAddress::V4(0));
    assert_eq!(addresses[2].address, IpAddress::V4(0x0a00_0001));
    assert_eq!(addresses[3].address, IpAddress::V4(0));
}

#[test]
fn only_routes_with_the_protocol_tag_are_kept() {
    let records = vec![
        route(AF_INET, 4, 24, 2, vec![10, 0, 0, 0]),
        route(AF_INET, 157, 32, 7, vec![193, 3, 165, 223]),
        route(AF_INET6, 2, 64, 2, vec![0xfe, 0x80, 0, 0, 0, 0, 0, 0, 0, 0, 0, 0, 0, 0, 0, 0]),
        route(
            AF_INET6,
            157,
            64,
            7,
            vec![0x2a, 0x11, 0xf2, 0xc0, 0, 3, 0, 0, 0, 0, 0, 0, 0, 0, 0, 0],
        ),
    ];
    let routes = get_routes(&records, 157);
    assert_eq!(routes.len(), 2);
    assert_eq!(routes[0].destination, IpAddress::V4(0xC103_A5DF));
    assert_eq!(routes[0].destination_prefix_length, 32);
    assert_eq!(routes[0].interface, 7);
    assert_eq!(routes[0].message, 1);
    assert_eq!(
        routes[1].destination,
        IpAddress::V6(0x2a11_f2c0_0003_0000_0000_0000_0000_0000)
    );
    assert_eq!(routes[1].destination_prefix_length, 64);
    assert_eq!(routes[1].interface, 7);
    assert_eq!(routes[1].message, 3);
    assert!(get_routes(&records, 3).is_empty());
}

#[test]
fn route_of_an_unknown_family_is_skipped() {
    let records = vec![
        route(28, 157, 20, 7, vec![0, 0, 1]),
        route(AF_INET, 157, 32, 7, vec![1, 2, 3]),
        RouteRecord {
            address_family: 28,
            destination_prefix_length: 0,
            protocol: 157,
            attributes: vec![RouteAttribute::Oif(9)],
        },
        route(AF_INET, 157, 32, 7, vec![1, 2, 3, 4]),
    ];
    let routes = get_routes(&records, 157);
    assert_eq!(routes.len(), 1);
    assert_eq!(routes[0].destination, IpAddress::V4(0x0102_0304));
    assert_eq!(routes[0].message, 3);
}

#[test]
fn route_without_destination_reads_as_zeroes() {
    let records = vec![
        RouteRecord {
            address_family: AF_INET,
            destination_prefix_length: 0,
            protocol: 157,
            attributes: vec![RouteAttribute::Oif(9), RouteAttribute::Oif(4)],
        },
        RouteRecord {
            address_family: AF_INET6,
            destination_prefix_length: 0,
            protocol: 157,
            attributes: vec![],
        },
    ];
    let routes = get_routes(&records, 157);
    assert_eq!(routes.len(), 2);
    assert_eq!(routes[0].destination, IpAddress::V4(0));
    assert_eq!(routes[0].destination_prefix_length, 0);
    assert_eq!(routes[0].interface, 4);
    assert_eq!(routes[0].message, 0);
    assert_eq!(routes[1].destination, IpAddress::V4(0));
    assert_eq!(routes[1].interface, 0);
    assert_eq!(routes[1].message, 1);
}

#[test]
fn snapshot_joins_the_three_collections() {
    let links = vec![plain_link(2, "eth0"), vlan_link(5, "vps3", 2, 4000)];
    let addresses = vec![address(AF_INET, RT_SCOPE_UNIVERSE, 5, 31, vec![100, 64, 0, 0])];
    let routes = vec![route(AF_INET, 157, 32, 5, vec![193, 3, 165, 223])];
    let state = get_state(&links, &addresses, &routes, 157);
    assert_eq!(state.interfaces.len(), 1);
    assert_eq!(state.interfaces[0].name, "vps3");
    assert_eq!(state.addresses.len(), 1);
    assert_eq!(state.addresses[0].interface, 5);
    assert_eq!(state.routes.len(), 1);
    assert_eq!(state.routes[0].interface, 5);
    let empty = get_state(&vec![], &vec![], &vec![], 157);
    assert!(empty.interfaces.is_empty() && empty.addresses.is_empty() && empty.routes.is_empty());
}

#[test]
fn name_resolves_to_the_index_of_its_link() {
    let links = vec![plain_link(1, "lo"), plain_link(2, "eth0"), vlan_link(5, "vps3", 2, 4000)];
    assert_eq!(interface_name_to_index(&links, "eth0").unwrap(), 2);
    assert_eq!(interface_name_to_index(&links, "vps3").unwrap(), 5);
    assert_eq!(interface_name_to_index(&links, "lo").unwrap(), 1);
}

#[test]
fn unknown_name_is_not_found() {
    let links = vec![plain_link(1, "lo"), plain_link(2, "eth0")];
    match interface_name_to_index(&links, "eth") {
        Err(Error::InterfaceNotFound(name)) => assert_eq!(name, "eth"),
        other => panic!("unexpected {:?}", other),
    }
    match interface_name_to_index(&vec![], "eth0") {
        Err(Error::InterfaceNotFound(name)) => assert_eq!(name, "eth0"),
        other => panic!("unexpected {:?}", other),
    }
}

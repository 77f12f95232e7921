use vpsnet::config::{IpAddress, V4Ip, VPS};
use vpsnet::diff::{interface_numbers_fit, reconcile, Diff};
use vpsnet::netlink::{Address, Interface, Route, State};

fn tenant(vlan: u16, private: u32, public: Vec<u32>, prefix: u128) -> VPS {
    let v4_public = match public.len() {
        0 => None,
        1 => Some(V4Ip::One(public[0])),
        _ => Some(V4Ip::Many(public)),
    };
    VPS { vlan, v4_addr: private, v4_public, v6_prefix: prefix }
}

fn copy(state: &State) -> State {
    State {
        interfaces: state
            .interfaces
            .iter()
            .map(|i| Interface { name: i.name.clone(), index: i.index, link: i.link, vlan: i.vlan })
            .collect(),
        addresses: state
            .addresses
            .iter()
            .map(|a| Address {
                interface: a.interface,
                address: a.address,
                prefix_length: a.prefix_length,
                message: a.message,
            })
            .collect(),
        routes: state
            .routes
            .iter()
            .map(|r| Route {
                destination: r.destination,
                destination_prefix_length: r.destination_prefix_length,
                interface: r.interface,
                message: r.message,
            })
            .collect(),
    }
}

/// A kernel that takes every operation: removing an interface takes its
/// addresses and routes with it, and what is added gets an unused index or
/// record.
fn take(state: &mut State, ops: &[Diff]) {
    for op in ops {
        match op {
            Diff::AddInterface(i) => {
                let index = state
                    .interfaces
                    .iter()
                    .map(|i| i.index)
                    .chain(state.addresses.iter().map(|a| a.interface))
                    .chain(state.routes.iter().map(|r| r.interface))
                    .max()
                    .unwrap_or(0)
                    + 1;
                state.interfaces.push(Interface {
                    name: i.name.clone(),
                    index,
                    link: i.link,
                    vlan: i.vlan,
                });
            }
            Diff::RemoveInterface(index) => {
                state.interfaces.retain(|i| i.index != *index);
                state.addresses.retain(|a| a.interface != *index);
                state.routes.retain(|r| r.interface != *index);
            }
            Diff::AddAddress(a) => {
                let interface =
                    state.interfaces.iter().find(|i| i.name == a.interface_name).unwrap().index;
                let message = state.addresses.iter().map(|a| a.message).max().unwrap_or(0) + 1;
                state.addresses.push(Address {
                    interface,
                    address: a.address,
                    prefix_length: a.prefix_length,
                    message,
                });
            }
            Diff::RemoveAddress(message) => state.addresses.retain(|a| a.message != *message),
            Diff::AddRoute(r) => {
                let interface =
                    state.interfaces.iter().find(|i| i.name == r.interface_name).unwrap().index;
                let message = state.routes.iter().map(|r| r.message).max().unwrap_or(0) + 1;
                state.routes.push(Route {
                    destination: r.destination,
                    destination_prefix_length: r.destination_prefix_length,
                    interface,
                    message,
                });
            }
            Diff::RemoveRoute(message) => state.routes.retain(|r| r.message != *message),
        }
    }
}

fn is_removal(op: &Diff) -> bool {
    matches!(op, Diff::RemoveInterface(_) | Diff::RemoveAddress(_) | Diff::RemoveRoute(_))
}

fn messy_state() -> State {
    State {
        interfaces: vec![
            Interface { name: "vps3".to_string(), index: 5, link: 2, vlan: 10 },
            Interface { name: "vps7".to_string(), index: 6, link: 2, vlan: 11 },
            Interface { name: "vps9".to_string(), index: 8, link: 2, vlan: 99 },
        ],
        addresses: vec![
            Address { interface: 5, address: IpAddress::V4(100), prefix_length: 32, message: 0 },
            Address { interface: 5, address: IpAddress::V6(77), prefix_length: 64, message: 1 },
            Address { interface: 6, address: IpAddress::V4(200), prefix_length: 31, message: 2 },
            Address { interface: 8, address: IpAddress::V4(300), prefix_length: 31, message: 3 },
            Address { interface: 2, address: IpAddress::V4(400), prefix_length: 24, message: 4 },
        ],
        routes: vec![
            Route {
                destination: IpAddress::V4(1000),
                destination_prefix_length: 32,
                interface: 5,
                message: 0,
            },
            Route {
                destination: IpAddress::V4(1001),
                destination_prefix_length: 24,
                interface: 5,
                message: 1,
            },
            Route {
                destination: IpAddress::V6(0xaa),
                destination_prefix_length: 64,
                interface: 6,
                message: 2,
            },
            Route {
                destination: IpAddress::V4(5000),
                destination_prefix_length: 32,
                interface: 8,
                message: 3,
            },
            Route {
                destination: IpAddress::V4(6000),
                destination_prefix_length: 32,
                interface: 2,
                message: 4,
            },
        ],
    }
}

fn tenants() -> Vec<VPS> {
    vec![
        tenant(10, 100, vec![1000, 1002], 0xbb),
        tenant(12, 500, vec![], 0xcc),
        tenant(11, 200, vec![2000], 0xaa),
        tenant(13, 600, vec![3000, 3001, 3002], 0xdd),
    ]
}

#[test]
fn second_reconciliation_finds_nothing_to_do() {
    let target = tenants();
    let mut state = messy_state();
    assert!(interface_numbers_fit(&target, &state));
    let (ops, _) = reconcile(2, &target, &state);
    assert!(!ops.is_empty());
    take(&mut state, &ops);
    let (again, _) = reconcile(2, &target, &state);
    assert!(again.is_empty(), "{:?}", again);
}

#[test]
fn reconciliation_from_nothing_converges() {
    let target = tenants();
    let mut state = State { interfaces: vec![], addresses: vec![], routes: vec![] };
    let (ops, names) = reconcile(2, &target, &state);
    assert_eq!(ops.len(), 5 + 3 + 4 + 6);
    assert_eq!(
        names.iter().map(|s| s.name.as_str()).collect::<Vec<_>>(),
        vec!["vps1", "vps2", "vps3", "vps4"]
    );
    take(&mut state, &ops);
    let (again, names) = reconcile(2, &target, &state);
    assert!(again.is_empty(), "{:?}", again);
    assert_eq!(
        names.iter().map(|s| s.name.as_str()).collect::<Vec<_>>(),
        vec!["vps1", "vps2", "vps3", "vps4"]
    );
}

#[test]
fn nothing_to_do_stays_nothing_to_do() {
    let target = tenants();
    let mut state = messy_state();
    let (ops, _) = reconcile(2, &target, &state);
    take(&mut state, &ops);
    let before = copy(&state);
    let (none, _) = reconcile(2, &target, &state);
    assert!(none.is_empty());
    take(&mut state, &none);
    assert_eq!(format!("{:?}", state), format!("{:?}", before));
    let (none, _) = reconcile(2, &target, &state);
    assert!(none.is_empty());
}

#[test]
fn removals_stand_before_additions() {
    let (ops, _) = reconcile(2, &tenants(), &messy_state());
    let first_addition = ops.iter().position(|op| !is_removal(op)).unwrap();
    assert!(ops[..first_addition].iter().all(is_removal));
    assert!(ops[first_addition..].iter().all(|op| !is_removal(op)));
    let kinds: Vec<u8> = ops[..first_addition]
        .iter()
        .map(|op| match op {
            Diff::RemoveInterface(_) => 0,
            Diff::RemoveRoute(_) => 1,
            _ => 2,
        })
        .collect();
    let mut sorted = kinds.clone();
    sorted.sort();
    assert_eq!(kinds, sorted);
}

#[test]
fn exact_operations_for_a_messy_snapshot() {
    let target = tenants();
    let (ops, names) = reconcile(2, &target, &messy_state());
    let text: Vec<String> = ops.iter().map(|op| format!("{:?}", op)).collect();
    assert!(matches!(ops[0], Diff::RemoveInterface(8)));
    assert!(matches!(ops[1], Diff::RemoveRoute(1)));
    assert!(matches!(ops[2], Diff::RemoveRoute(4)));
    assert!(matches!(ops[3], Diff::RemoveAddress(0)));
    assert!(matches!(ops[4], Diff::RemoveAddress(1)));
    assert!(matches!(&ops[5], Diff::AddAddress(a)
        if a.address == IpAddress::V4(100) && a.prefix_length == 31 && a.interface_name == "vps3"));
    assert!(matches!(&ops[6], Diff::AddRoute(r)
        if r.destination == IpAddress::V4(1002) && r.destination_prefix_length == 32
            && r.interface_name == "vps3"));
    assert!(matches!(&ops[7], Diff::AddRoute(r)
        if r.destination == IpAddress::V6(0xbb) && r.destination_prefix_length == 64
            && r.interface_name == "vps3"));
    assert!(matches!(&ops[8], Diff::AddInterface(i)
        if i.name == "vps10" && i.vlan == 12 && i.link == 2 && i.index == 0));
    assert!(matches!(&ops[9], Diff::AddAddress(a)
        if a.address == IpAddress::V4(500) && a.interface_name == "vps10"));
    assert!(matches!(&ops[10], Diff::AddRoute(r)
        if r.destination == IpAddress::V6(0xcc) && r.interface_name == "vps10"));
    assert!(matches!(&ops[11], Diff::AddRoute(r)
        if r.destination == IpAddress::V4(2000) && r.interface_name == "vps7"));
    assert!(matches!(&ops[12], Diff::AddInterface(i) if i.name == "vps11" && i.vlan == 13));
    assert_eq!(ops.len(), 18, "{:?}", text);
    assert_eq!(
        names.iter().map(|s| (s.vps.vlan, s.name.as_str())).collect::<Vec<_>>(),
        vec![(10, "vps3"), (12, "vps10"), (11, "vps7"), (13, "vps11")]
    );
}

#[test]
fn nothing_is_removed_on_an_interface_that_goes() {
    let state = messy_state();
    let (ops, _) = reconcile(2, &tenants(), &state);
    let gone: Vec<u32> = ops
        .iter()
        .filter_map(|op| match op {
            Diff::RemoveInterface(index) => Some(*index),
            _ => None,
        })
        .collect();
    assert_eq!(gone, vec![8]);
    for op in &ops {
        match op {
            Diff::RemoveRoute(message) => {
                let route = state.routes.iter().find(|r| r.message == *message).unwrap();
                assert!(!gone.contains(&route.interface));
            }
            Diff::RemoveAddress(message) => {
                let address = state.addresses.iter().find(|a| a.message == *message).unwrap();
                assert!(!gone.contains(&address.interface));
            }
            _ => {}
        }
    }
}

#[test]
fn addresses_of_other_interfaces_are_left_alone() {
    let state = messy_state();
    let (ops, _) = reconcile(2, &tenants(), &state);
    assert!(!ops.iter().any(|op| matches!(op, Diff::RemoveAddress(4))));
    assert!(!ops.iter().any(|op| matches!(op, Diff::RemoveAddress(3))));
    assert!(!ops.iter().any(|op| matches!(op, Diff::RemoveRoute(3))));
}

#[test]
fn new_names_differ_from_every_name_in_the_snapshot() {
    let state = messy_state();
    let target = tenants();
    let (_, names) = reconcile(2, &target, &state);
    let mut all: Vec<&str> = names.iter().map(|s| s.name.as_str()).collect();
    all.sort();
    all.dedup();
    assert_eq!(all.len(), names.len());
    assert!(!names.iter().any(|s| s.name == "vps9"));
}

#[test]
fn names_stay_distinct_over_repeated_reconciliations() {
    let mut state = State { interfaces: vec![], addresses: vec![], routes: vec![] };
    let mut target = vec![];
    for round in 0..6u16 {
        target.push(tenant(100 + round, 10 * round as u32, vec![round as u32], round as u128));
        let (ops, _) = reconcile(2, &target, &state);
        take(&mut state, &ops);
        let mut names: Vec<&str> = state.interfaces.iter().map(|i| i.name.as_str()).collect();
        assert_eq!(names.len(), round as usize + 1);
        names.sort();
        names.dedup();
        assert_eq!(names.len(), round as usize + 1);
    }
    assert_eq!(state.interfaces[5].name, "vps6");
}

#[test]
fn tenant_without_public_addresses_gets_address_and_prefix_route_only() {
    let target = vec![tenant(12, 500, vec![], 0xcc)];
    let state = State { interfaces: vec![], addresses: vec![], routes: vec![] };
    let (ops, _) = reconcile(9, &target, &state);
    assert_eq!(ops.len(), 3);
    assert!(matches!(&ops[0], Diff::AddInterface(i) if i.name == "vps1" && i.link == 9));
    assert!(matches!(&ops[1], Diff::AddAddress(_)));
    assert!(matches!(&ops[2], Diff::AddRoute(r)
        if r.destination == IpAddress::V6(0xcc) && r.destination_prefix_length == 64));
}

#[test]
fn numbering_that_does_not_fit_is_told() {
    let state = State {
        interfaces: vec![Interface {
            name: "vps18446744073709551615".to_string(),
            index: 5,
            link: 2,
            vlan: 10,
        }],
        addresses: vec![],
        routes: vec![],
    };
    assert!(interface_numbers_fit(&[tenant(10, 1, vec![], 2)], &state));
    assert!(!interface_numbers_fit(&[tenant(11, 1, vec![], 2)], &state));
    assert!(interface_numbers_fit(&[], &state));
}

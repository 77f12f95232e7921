use vpsnet::config::{V4Ip, VPS};

#[test]
fn one_address_is_a_list_of_one() {
    let one = V4Ip::One(0xC103_A5DF);
    assert_eq!(one.as_many(), &[0xC103_A5DF]);
}

#[test]
fn many_addresses_stay_in_order() {
    let many = V4Ip::Many(vec![3, 1, 2]);
    assert_eq!(many.as_many(), &[3, 1, 2]);
    let none = V4Ip::Many(vec![]);
    assert!(none.as_many().is_empty());
}

#[test]
fn tenant_without_public_addresses_has_none() {
    let vps = VPS { vlan: 10, v4_addr: 1, v4_public: None, v6_prefix: 2 };
    assert!(vps.public_addresses().is_empty());
    let vps = VPS { vlan: 10, v4_addr: 1, v4_public: Some(V4Ip::One(9)), v6_prefix: 2 };
    assert_eq!(vps.public_addresses(), &[9]);
    let vps = VPS { vlan: 10, v4_addr: 1, v4_public: Some(V4Ip::Many(vec![9, 8])), v6_prefix: 2 };
    assert_eq!(vps.public_addresses(), &[9, 8]);
}

//! Actual state: the kernel resources this daemon owns, and how a snapshot of
//! them is read out of raw kernel records.

use vstd::prelude::*;
use vstd::string::*;
use crate::config::IpAddress;
use crate::error::{Error, ErrorView};
use crate::names::has_managed_prefix;

verus! {

/// A VLAN sub-interface.
#[derive(Debug)]
pub struct Interface {
    pub name: String,
    pub index: u32,
    pub link: u32,
    pub vlan: u16,
}

/// An address on an interface. `message` is the position of the kernel record
/// this entry was read from; it is only ever handed back to delete the entry.
#[derive(Debug)]
pub struct Address {
    pub interface: u32,
    pub address: IpAddress,
    pub prefix_length: u8,
    pub message: usize,
}

/// A managed route. `message` is the position of the kernel record this entry
/// was read from; it is only ever handed back to delete the entry.
#[derive(Debug)]
pub struct Route {
    pub destination: IpAddress,
    pub destination_prefix_length: u8,
    pub interface: u32,
    pub message: usize,
}

/// One snapshot of the managed kernel state.
#[derive(Debug)]
pub struct State {
    pub interfaces: Vec<Interface>,
    pub addresses: Vec<Address>,
    pub routes: Vec<Route>,
}

/// The mathematical value of an interface.
pub struct InterfaceView {
    pub name: Seq<char>,
    pub index: nat,
    pub link: nat,
    pub vlan: u16,
}

/// The mathematical value of an address.
pub struct AddressView {
    pub interface: nat,
    pub address: IpAddress,
    pub prefix_length: u8,
    pub message: nat,
}

/// The mathematical value of a route.
pub struct RouteView {
    pub destination: IpAddress,
    pub destination_prefix_length: u8,
    pub interface: nat,
    pub message: nat,
}

/// The mathematical value of a snapshot.
pub struct StateView {
    pub interfaces: Seq<InterfaceView>,
    pub addresses: Seq<AddressView>,
    pub routes: Seq<RouteView>,
}

impl View for Interface {
    type V = InterfaceView;

    open spec fn view(&self) -> InterfaceView {
        InterfaceView {
            name: self.name@,
            index: self.index as nat,
            link: self.link as nat,
            vlan: self.vlan,
        }
    }
}

impl View for Address {
    type V = AddressView;

    open spec fn view(&self) -> AddressView {
        AddressView {
            interface: self.interface as nat,
            address: self.address,
            prefix_length: self.prefix_length,
            message: self.message as nat,
        }
    }
}

impl View for Route {
    type V = RouteView;

    open spec fn view(&self) -> RouteView {
        RouteView {
            destination: self.destination,
            destination_prefix_length: self.destination_prefix_length,
            interface: self.interface as nat,
            message: self.message as nat,
        }
    }
}

/// Whether no two interfaces carry the same name.
pub open spec fn names_are_distinct(interfaces: Seq<InterfaceView>) -> bool {
    forall|a: int, b: int|
        0 <= a < b < interfaces.len() ==> (#[trigger] interfaces[a]).name != (
        #[trigger] interfaces[b]).name
}

/// Whether no two interfaces serve the same VLAN.
pub open spec fn vlans_are_distinct(interfaces: Seq<InterfaceView>) -> bool {
    forall|a: int, b: int|
        0 <= a < b < interfaces.len() ==> (#[trigger] interfaces[a]).vlan != (
        #[trigger] interfaces[b]).vlan
}

/// Whether no two interfaces carry the same kernel index.
pub open spec fn indices_are_distinct(interfaces: Seq<InterfaceView>) -> bool {
    forall|a: int, b: int|
        0 <= a < b < interfaces.len() ==> (#[trigger] interfaces[a]).index != (
        #[trigger] interfaces[b]).index
}

/// Whether no two addresses were read from the same kernel record.
pub open spec fn address_messages_are_distinct(addresses: Seq<AddressView>) -> bool {
    forall|a: int, b: int|
        0 <= a < b < addresses.len() ==> (#[trigger] addresses[a]).message != (
        #[trigger] addresses[b]).message
}

/// Whether a snapshot is one that a kernel can be in: names, kernel indices
/// and VLANs tell its interfaces apart, and record positions its addresses.
pub open spec fn is_consistent(s: StateView) -> bool {
    &&& names_are_distinct(s.interfaces)
    &&& indices_are_distinct(s.interfaces)
    &&& vlans_are_distinct(s.interfaces)
    &&& address_messages_are_distinct(s.addresses)
}

/// Whether no two routes were read from the same kernel record.
pub open spec fn route_messages_are_distinct(routes: Seq<RouteView>) -> bool {
    forall|a: int, b: int|
        0 <= a < b < routes.len() ==> (#[trigger] routes[a]).message != (
        #[trigger] routes[b]).message
}

/// Whether names, kernel indices and VLANs tell interfaces apart.
pub open spec fn interfaces_are_distinct(interfaces: Seq<InterfaceView>) -> bool {
    &&& names_are_distinct(interfaces)
    &&& indices_are_distinct(interfaces)
    &&& vlans_are_distinct(interfaces)
}

/// The interfaces of a list, each by its mathematical value.
pub open spec fn interface_views(interfaces: Seq<Interface>) -> Seq<InterfaceView> {
    interfaces.map_values(|i: Interface| i@)
}

/// The addresses of a list, each by its mathematical value.
pub open spec fn address_views(addresses: Seq<Address>) -> Seq<AddressView> {
    addresses.map_values(|a: Address| a@)
}

/// The routes of a list, each by its mathematical value.
pub open spec fn route_views(routes: Seq<Route>) -> Seq<RouteView> {
    routes.map_values(|r: Route| r@)
}

impl View for State {
    type V = StateView;

    open spec fn view(&self) -> StateView {
        StateView {
            interfaces: interface_views(self.interfaces@),
            addresses: address_views(self.addresses@),
            routes: route_views(self.routes@),
        }
    }
}


// ---------------------------------------------------------------------------
// Kernel records
// ---------------------------------------------------------------------------

/// An attribute of a VLAN link's own data.
#[derive(Debug)]
pub enum VlanAttribute {
    Id(u16),
    Other,
}

/// The kind of a link, as far as this daemon tells kinds apart.
#[derive(Debug)]
pub enum LinkKind {
    Vlan,
    Other,
}

/// One entry of a link's info attribute.
#[derive(Debug)]
pub enum LinkInfo {
    Kind(LinkKind),
    VlanData(Vec<VlanAttribute>),
    Other,
}

/// One attribute of a link record.
#[derive(Debug)]
pub enum LinkAttribute {
    Info(Vec<LinkInfo>),
    Link(u32),
    IfName(String),
    Other,
}

/// A link as the kernel reports it.
#[derive(Debug)]
pub struct LinkRecord {
    pub index: u32,
    pub attributes: Vec<LinkAttribute>,
}

/// Whether an info entry says that the link is a VLAN.
pub open spec fn info_is_vlan_kind(info: LinkInfo) -> bool {
    info == LinkInfo::Kind(LinkKind::Vlan)
}

/// Whether one of the info entries says that the link is a VLAN.
pub open spec fn infos_have_vlan_kind(infos: Seq<LinkInfo>) -> bool {
    exists|b: int| 0 <= b < infos.len() && info_is_vlan_kind(#[trigger] infos[b])
}

/// Whether an attribute says that the link is a VLAN.
pub open spec fn attribute_has_vlan_kind(attribute: LinkAttribute) -> bool {
    match attribute {
        LinkAttribute::Info(infos) => infos_have_vlan_kind(infos@),
        _ => false,
    }
}

/// Whether an attribute names the link with the reserved prefix.
pub open spec fn attribute_has_managed_name(attribute: LinkAttribute) -> bool {
    match attribute {
        LinkAttribute::IfName(name) => has_managed_prefix(name@),
        _ => false,
    }
}

/// Whether the record says that the link is a VLAN.
pub open spec fn is_vlan_link(attributes: Seq<LinkAttribute>) -> bool {
    exists|a: int| 0 <= a < attributes.len() && attribute_has_vlan_kind(#[trigger] attributes[a])
}

/// Whether the record names the link with the reserved prefix.
pub open spec fn has_managed_name(attributes: Seq<LinkAttribute>) -> bool {
    exists|a: int|
        0 <= a < attributes.len() && attribute_has_managed_name(#[trigger] attributes[a])
}

/// Whether a link is one of this daemon's: a VLAN named with the prefix.
pub open spec fn is_managed_link(record: LinkRecord) -> bool {
    is_vlan_link(record.attributes@) && has_managed_name(record.attributes@)
}

/// The name in a link record: that of its last name attribute, empty where
/// there is none.
pub open spec fn link_name(attributes: Seq<LinkAttribute>) -> Seq<char>
    decreases attributes.len(),
{
    if attributes.len() == 0 {
        Seq::empty()
    } else {
        match attributes.last() {
            LinkAttribute::IfName(name) => name@,
            _ => link_name(attributes.drop_last()),
        }
    }
}

/// The parent link in a link record: that of its last parent attribute, 0
/// where there is none.
pub open spec fn link_parent(attributes: Seq<LinkAttribute>) -> u32
    decreases attributes.len(),
{
    if attributes.len() == 0 {
        0
    } else {
        match attributes.last() {
            LinkAttribute::Link(link) => link,
            _ => link_parent(attributes.drop_last()),
        }
    }
}

/// The VLAN id after reading a VLAN's data, `before` where it holds no id.
pub open spec fn vlan_in_data(data: Seq<VlanAttribute>, before: u16) -> u16
    decreases data.len(),
{
    if data.len() == 0 {
        before
    } else {
        match data.last() {
            VlanAttribute::Id(id) => id,
            VlanAttribute::Other => vlan_in_data(data.drop_last(), before),
        }
    }
}

/// The VLAN id after reading an info attribute, `before` where it holds none.
pub open spec fn vlan_in_infos(infos: Seq<LinkInfo>, before: u16) -> u16
    decreases infos.len(),
{
    if infos.len() == 0 {
        before
    } else {
        let earlier = vlan_in_infos(infos.drop_last(), before);
        match infos.last() {
            LinkInfo::VlanData(data) => vlan_in_data(data@, earlier),
            _ => earlier,
        }
    }
}

/// The VLAN id in a link record: the last id that its attributes hold, 0
/// where there is none.
pub open spec fn link_vlan(attributes: Seq<LinkAttribute>) -> u16
    decreases attributes.len(),
{
    if attributes.len() == 0 {
        0
    } else {
        let earlier = link_vlan(attributes.drop_last());
        match attributes.last() {
            LinkAttribute::Info(infos) => vlan_in_infos(infos@, earlier),
            _ => earlier,
        }
    }
}

/// The interface that a link record describes.
pub open spec fn interface_of(record: LinkRecord) -> InterfaceView {
    InterfaceView {
        name: link_name(record.attributes@),
        index: record.index as nat,
        link: link_parent(record.attributes@) as nat,
        vlan: link_vlan(record.attributes@),
    }
}

/// Whether a link is one of this daemon's.
pub open spec fn managed_link() -> spec_fn(LinkRecord) -> bool {
    |record: LinkRecord| is_managed_link(record)
}

/// The interface that a link record describes.
pub open spec fn as_interface() -> spec_fn(LinkRecord) -> InterfaceView {
    |record: LinkRecord| interface_of(record)
}

/// The interfaces of a snapshot: the managed links among all links, in the
/// order in which the kernel reported them.
pub open spec fn collected_interfaces(links: Seq<LinkRecord>) -> Seq<InterfaceView> {
    links.filter(managed_link()).map_values(as_interface())
}

/// The kernel index of the first link at or after position `from` that
/// carries the name.
pub open spec fn resolve_from(links: Seq<LinkRecord>, name: Seq<char>, from: nat) -> Option<u32>
    decreases links.len() - from,
{
    if from >= links.len() {
        None
    } else if link_name(links[from as int].attributes@) == name {
        Some(links[from as int].index)
    } else {
        resolve_from(links, name, from + 1)
    }
}

/// The kernel index of the link that carries exactly this name.
pub open spec fn resolved_index(links: Seq<LinkRecord>, name: Seq<char>) -> Option<u32> {
    resolve_from(links, name, 0)
}

/// Whether a name begins with the reserved prefix.
fn starts_with_prefix(name: &str) -> (r: bool)
    ensures
        r == has_managed_prefix(name@),
{
    name.unicode_len() >= 3 && name.get_char(0) == 'v' && name.get_char(1) == 'p' && name.get_char(
        2,
    ) == 's'
}

/// Whether one of the info entries says that the link is a VLAN.
fn has_vlan_kind(infos: &Vec<LinkInfo>) -> (r: bool)
    ensures
        r == infos_have_vlan_kind(infos@),
{
    let mut b: usize = 0;
    while b < infos.len()
        invariant
            b <= infos.len(),
            forall|j: int| 0 <= j < b ==> !info_is_vlan_kind(#[trigger] infos@[j]),
        decreases infos.len() - b,
    {
        match &infos[b] {
            LinkInfo::Kind(LinkKind::Vlan) => {
                return true;
            },
            _ => {},
        }
        b += 1;
    }
    false
}

/// Whether the record says that the link is a VLAN.
fn record_is_vlan(record: &LinkRecord) -> (r: bool)
    ensures
        r == is_vlan_link(record.attributes@),
{
    let mut a: usize = 0;
    while a < record.attributes.len()
        invariant
            a <= record.attributes.len(),
            forall|j: int| 0 <= j < a ==> !attribute_has_vlan_kind(#[trigger] record.attributes@[j]),
        decreases record.attributes.len() - a,
    {
        match &record.attributes[a] {
            LinkAttribute::Info(infos) => {
                if has_vlan_kind(infos) {
                    return true;
                }
            },
            _ => {},
        }
        a += 1;
    }
    false
}

/// Whether the record names the link with the reserved prefix.
fn record_has_managed_name(record: &LinkRecord) -> (r: bool)
    ensures
        r == has_managed_name(record.attributes@),
{
    let mut a: usize = 0;
    while a < record.attributes.len()
        invariant
            a <= record.attributes.len(),
            forall|j: int|
                0 <= j < a ==> !attribute_has_managed_name(#[trigger] record.attributes@[j]),
        decreases record.attributes.len() - a,
    {
        match &record.attributes[a] {
            LinkAttribute::IfName(name) => {
                if starts_with_prefix(name.as_str()) {
                    return true;
                }
            },
            _ => {},
        }
        a += 1;
    }
    false
}

/// The VLAN id after reading a VLAN's data.
fn read_vlan_data(data: &Vec<VlanAttribute>, before: u16) -> (vlan: u16)
    ensures
        vlan == vlan_in_data(data@, before),
{
    let mut vlan: u16 = before;
    let mut c: usize = 0;
    while c < data.len()
        invariant
            c <= data.len(),
            vlan == vlan_in_data(data@.take(c as int), before),
        decreases data.len() - c,
    {
        proof {
            assert(data@.take(c + 1).drop_last() =~= data@.take(c as int));
            assert(data@.take(c + 1).last() == data@[c as int]);
        }
        match &data[c] {
            VlanAttribute::Id(id) => {
                vlan = *id;
            },
            VlanAttribute::Other => {},
        }
        c += 1;
    }
    proof {
        assert(data@.take(c as int) =~= data@);
    }
    vlan
}

/// The VLAN id after reading an info attribute.
fn read_vlan_infos(infos: &Vec<LinkInfo>, before: u16) -> (vlan: u16)
    ensures
        vlan == vlan_in_infos(infos@, before),
{
    let mut vlan: u16 = before;
    let mut b: usize = 0;
    while b < infos.len()
        invariant
            b <= infos.len(),
            vlan == vlan_in_infos(infos@.take(b as int), before),
        decreases infos.len() - b,
    {
        proof {
            assert(infos@.take(b + 1).drop_last() =~= infos@.take(b as int));
            assert(infos@.take(b + 1).last() == infos@[b as int]);
        }
        match &infos[b] {
            LinkInfo::VlanData(data) => {
                vlan = read_vlan_data(data, vlan);
            },
            _ => {},
        }
        b += 1;
    }
    proof {
        assert(infos@.take(b as int) =~= infos@);
    }
    vlan
}

/// Reads the interface that a link record describes.
fn read_interface(record: &LinkRecord) -> (interface: Interface)
    ensures
        interface@ == interface_of(*record),
{
    let mut interface = Interface { index: record.index, name: String::new(), link: 0, vlan: 0 };
    let ghost attributes = record.attributes@;
    let mut a: usize = 0;
    while a < record.attributes.len()
        invariant
            a <= record.attributes.len(),
            attributes == record.attributes@,
            interface.index == record.index,
            interface.name@ == link_name(attributes.take(a as int)),
            interface.link == link_parent(attributes.take(a as int)),
            interface.vlan == link_vlan(attributes.take(a as int)),
        decreases record.attributes.len() - a,
    {
        proof {
            assert(attributes.take(a + 1).drop_last() =~= attributes.take(a as int));
            assert(attributes.take(a + 1).last() == attributes[a as int]);
        }
        match &record.attributes[a] {
            LinkAttribute::Info(infos) => {
                interface.vlan = read_vlan_infos(infos, interface.vlan);
            },
            LinkAttribute::Link(link) => {
                interface.link = *link;
            },
            LinkAttribute::IfName(name) => {
                interface.name = name.clone();
            },
            LinkAttribute::Other => {},
        }
        a += 1;
    }
    proof {
        assert(attributes.take(a as int) =~= attributes);
    }
    interface
}

/// Picks the managed interfaces out of the links that the kernel reported.
pub fn get_vlan_interfaces(links: &Vec<LinkRecord>) -> (interfaces: Vec<Interface>)
    ensures
        interface_views(interfaces@) == collected_interfaces(links@),
{
    let mut interfaces: Vec<Interface> = Vec::new();
    let mut k: usize = 0;
    proof {
        links@.take(0).lemma_filter_len(managed_link());
        assert(interface_views(interfaces@) =~= links@.take(0).filter(managed_link()).map_values(
            as_interface(),
        ));
    }
    while k < links.len()
        invariant
            k <= links.len(),
            interface_views(interfaces@) == links@.take(k as int).filter(
                managed_link(),
            ).map_values(as_interface()),
        decreases links.len() - k,
    {
        let record = &links[k];
        proof {
            links@.lemma_take_succ_push(k as int);
            links@.take(k as int).lemma_filter_push(links@[k as int], managed_link());
            links@.take(k as int).filter(managed_link()).lemma_push_map_commute(
                as_interface(),
                links@[k as int],
            );
        }
        if record_is_vlan(record) && record_has_managed_name(record) {
            let ghost before = interfaces@;
            let interface = read_interface(record);
            interfaces.push(interface);
            proof {
                assert(interface_views(interfaces@) =~= interface_views(before).push(
                    interface_of(*record),
                ));
            }
        }
        k += 1;
    }
    proof {
        assert(links@.take(k as int) =~= links@);
    }
    interfaces
}

/// Resolves an interface name to the kernel index of the link that carries
/// it, among the links that the kernel reported.
pub fn interface_name_to_index(links: &Vec<LinkRecord>, name: &str) -> (r: Result<u32, Error>)
    ensures
        match r {
            Ok(index) => resolved_index(links@, name@) == Some(index),
            Err(e) => resolved_index(links@, name@) is None && e@ == ErrorView::InterfaceNotFound(
                name@,
            ),
        },
{
    let wanted = name.to_owned();
    let mut k: usize = 0;
    while k < links.len()
        invariant
            k <= links.len(),
            wanted@ == name@,
            resolve_from(links@, name@, 0) == resolve_from(links@, name@, k as nat),
        decreases links.len() - k,
    {
        let found = read_interface(&links[k]);
        if found.name == wanted {
            return Ok(links[k].index);
        }
        k += 1;
    }
    Err(Error::InterfaceNotFound(wanted))
}


// ---------------------------------------------------------------------------
// Addresses and routes
// ---------------------------------------------------------------------------

/// The address family of IPv4 in kernel records.
pub const AF_INET: u8 = 2;

/// The address family of IPv6 in kernel records.
pub const AF_INET6: u8 = 10;

/// The scope of globally routable addresses in kernel records.
pub const RT_SCOPE_UNIVERSE: u8 = 0;

/// One attribute of an address record.
#[derive(Debug)]
pub enum AddressAttribute {
    Address(Vec<u8>),
    Other,
}

/// An address as the kernel reports it.
#[derive(Debug)]
pub struct AddressRecord {
    pub family: u8,
    pub prefix_len: u8,
    pub scope: u8,
    pub index: u32,
    pub attributes: Vec<AddressAttribute>,
}

/// One attribute of a route record.
#[derive(Debug)]
pub enum RouteAttribute {
    Oif(u32),
    Destination(Vec<u8>),
    Other,
}

/// A route as the kernel reports it.
#[derive(Debug)]
pub struct RouteRecord {
    pub address_family: u8,
    pub destination_prefix_length: u8,
    pub protocol: u8,
    pub attributes: Vec<RouteAttribute>,
}

/// The number that bytes write, most significant byte first.
pub open spec fn be_value(bytes: Seq<u8>) -> nat
    decreases bytes.len(),
{
    if bytes.len() == 0 {
        0
    } else {
        be_value(bytes.drop_last()) * 256 + bytes.last() as nat
    }
}

/// 256 to the power `n`.
pub open spec fn pow256(n: nat) -> nat
    decreases n,
{
    if n == 0 {
        1
    } else {
        256 * pow256((n - 1) as nat)
    }
}

/// Bytes write a number below 256 to the power of their count.
pub proof fn lemma_be_value_bound(bytes: Seq<u8>)
    ensures
        be_value(bytes) < pow256(bytes.len()),
    decreases bytes.len(),
{
    if bytes.len() > 0 {
        lemma_be_value_bound(bytes.drop_last());
        assert(be_value(bytes.drop_last()) * 256 + 255 < 256 * pow256(
            bytes.drop_last().len(),
        )) by (nonlinear_arith)
            requires
                be_value(bytes.drop_last()) < pow256(bytes.drop_last().len()),
        ;
    }
}

/// The address that a payload of the family writes, if the family is known
/// and the payload has that family's length.
pub open spec fn payload_address(family: u8, payload: Seq<u8>) -> Option<IpAddress> {
    if family == AF_INET && payload.len() == 4 {
        Some(IpAddress::V4(be_value(payload) as u32))
    } else if family == AF_INET6 && payload.len() == 16 {
        Some(IpAddress::V6(be_value(payload) as u128))
    } else {
        None
    }
}

/// Reads four bytes as an IPv4 address.
fn read_v4(payload: &Vec<u8>) -> (address: u32)
    requires
        payload.len() == 4,
    ensures
        address == be_value(payload@),
{
    let b0: u32 = payload[0] as u32;
    let b1: u32 = payload[1] as u32;
    let b2: u32 = payload[2] as u32;
    let b3: u32 = payload[3] as u32;
    proof {
        let s = payload@;
        assert(s.drop_last().drop_last().drop_last().drop_last().len() == 0);
        reveal_with_fuel(be_value, 5);
        assert(be_value(s) == ((b0 as nat * 256 + b1 as nat) * 256 + b2 as nat) * 256 + b3 as nat);
    }
    ((b0 * 256 + b1) * 256 + b2) * 256 + b3
}

/// Reads sixteen bytes as an IPv6 address.
fn read_v6(payload: &Vec<u8>) -> (address: u128)
    requires
        payload.len() == 16,
    ensures
        address == be_value(payload@),
{
    let mut address: u128 = 0;
    let mut k: usize = 0;
    while k < 16
        invariant
            k <= 16,
            payload.len() == 16,
            address == be_value(payload@.take(k as int)),
        decreases 16 - k,
    {
        proof {
            assert(payload@.take(k + 1).drop_last() =~= payload@.take(k as int));
            assert(payload@.take(k + 1).last() == payload@[k as int]);
            lemma_be_value_bound(payload@.take(k + 1));
            lemma_pow256_monotone((k + 1) as nat, 16);
            reveal_with_fuel(pow256, 17);
            assert(pow256(16) == 0x1_0000_0000_0000_0000_0000_0000_0000_0000);
        }
        address = address * 256 + payload[k] as u128;
        k += 1;
    }
    proof {
        assert(payload@.take(k as int) =~= payload@);
    }
    address
}

/// Powers of 256 grow with the exponent.
pub proof fn lemma_pow256_monotone(a: nat, b: nat)
    requires
        a <= b,
    ensures
        pow256(a) <= pow256(b),
    decreases b - a,
{
    if a < b {
        lemma_pow256_monotone(a, (b - 1) as nat);
    }
}

/// Reads the address that a payload of the family writes.
fn read_payload(family: u8, payload: &Vec<u8>) -> (address: Option<IpAddress>)
    ensures
        address == payload_address(family, payload@),
{
    if family == AF_INET && payload.len() == 4 {
        Some(IpAddress::V4(read_v4(payload)))
    } else if family == AF_INET6 && payload.len() == 16 {
        Some(IpAddress::V6(read_v6(payload)))
    } else {
        None
    }
}

/// The address in an address record: what its last readable address
/// attribute writes, 0.0.0.0 where there is none.
pub open spec fn record_address(family: u8, attributes: Seq<AddressAttribute>) -> IpAddress
    decreases attributes.len(),
{
    if attributes.len() == 0 {
        IpAddress::V4(0)
    } else {
        let earlier = record_address(family, attributes.drop_last());
        match attributes.last() {
            AddressAttribute::Address(payload) => match payload_address(family, payload@) {
                Some(address) => address,
                None => earlier,
            },
            AddressAttribute::Other => earlier,
        }
    }
}

/// The snapshot entry for the address record at `position`.
pub open spec fn address_entry(record: AddressRecord, position: nat) -> AddressView {
    AddressView {
        interface: record.index as nat,
        address: record_address(record.family, record.attributes@),
        prefix_length: record.prefix_len,
        message: position,
    }
}

/// The addresses of a snapshot, read from the first `n` records: those of
/// universe scope, each with the position of its record.
pub open spec fn collected_addresses(records: Seq<AddressRecord>, n: int) -> Seq<AddressView>
    decreases n,
{
    if n <= 0 {
        Seq::empty()
    } else {
        let earlier = collected_addresses(records, n - 1);
        if records[n - 1].scope == RT_SCOPE_UNIVERSE {
            earlier.push(address_entry(records[n - 1], (n - 1) as nat))
        } else {
            earlier
        }
    }
}

/// Whether an attribute is a destination that cannot be read as an address
/// of the family.
pub open spec fn attribute_is_unreadable(family: u8, attribute: RouteAttribute) -> bool {
    match attribute {
        RouteAttribute::Destination(payload) => payload_address(family, payload@) is None,
        _ => false,
    }
}

/// Whether every destination that the record holds can be read as an address
/// of the record's family.
pub open spec fn route_is_readable(family: u8, attributes: Seq<RouteAttribute>) -> bool {
    forall|a: int|
        0 <= a < attributes.len() ==> !attribute_is_unreadable(family, #[trigger] attributes[a])
}

/// The destination in a route record: what its last destination attribute
/// writes, 0.0.0.0 where there is none.
pub open spec fn route_destination(family: u8, attributes: Seq<RouteAttribute>) -> IpAddress
    decreases attributes.len(),
{
    if attributes.len() == 0 {
        IpAddress::V4(0)
    } else {
        let earlier = route_destination(family, attributes.drop_last());
        match attributes.last() {
            RouteAttribute::Destination(payload) => match payload_address(family, payload@) {
                Some(address) => address,
                None => earlier,
            },
            _ => earlier,
        }
    }
}

/// The output interface in a route record: that of its last such attribute,
/// 0 where there is none.
pub open spec fn route_interface(attributes: Seq<RouteAttribute>) -> u32
    decreases attributes.len(),
{
    if attributes.len() == 0 {
        0
    } else {
        match attributes.last() {
            RouteAttribute::Oif(index) => index,
            _ => route_interface(attributes.drop_last()),
        }
    }
}

/// The snapshot entry for the route record at `position`.
pub open spec fn route_entry(record: RouteRecord, position: nat) -> RouteView {
    RouteView {
        destination: route_destination(record.address_family, record.attributes@),
        destination_prefix_length: record.destination_prefix_length,
        interface: route_interface(record.attributes@) as nat,
        message: position,
    }
}

/// Whether a family is one of the two that routes are read for.
pub open spec fn is_classified(family: u8) -> bool {
    family == AF_INET || family == AF_INET6
}

/// Whether a route is one of this daemon's and can be read: it carries the
/// protocol tag, its family is IPv4 or IPv6, and every destination in it is
/// an address of that family.
pub open spec fn is_managed_route(record: RouteRecord, route_proto: u8) -> bool {
    record.protocol == route_proto && is_classified(record.address_family) && route_is_readable(
        record.address_family,
        record.attributes@,
    )
}

/// The routes of a snapshot, read from the first `n` records: the managed
/// ones, each with the position of its record.
pub open spec fn collected_routes(records: Seq<RouteRecord>, route_proto: u8, n: int) -> Seq<
    RouteView,
>
    decreases n,
{
    if n <= 0 {
        Seq::empty()
    } else {
        let earlier = collected_routes(records, route_proto, n - 1);
        if is_managed_route(records[n - 1], route_proto) {
            earlier.push(route_entry(records[n - 1], (n - 1) as nat))
        } else {
            earlier
        }
    }
}

/// The snapshot that the kernel's records describe.
pub open spec fn collected_state(
    links: Seq<LinkRecord>,
    addresses: Seq<AddressRecord>,
    routes: Seq<RouteRecord>,
    route_proto: u8,
) -> StateView {
    StateView {
        interfaces: collected_interfaces(links),
        addresses: collected_addresses(addresses, addresses.len() as int),
        routes: collected_routes(routes, route_proto, routes.len() as int),
    }
}

/// Reads the address in an address record.
fn read_address(record: &AddressRecord) -> (address: IpAddress)
    ensures
        address == record_address(record.family, record.attributes@),
{
    let ghost attributes = record.attributes@;
    let mut address = IpAddress::V4(0);
    let mut a: usize = 0;
    while a < record.attributes.len()
        invariant
            a <= record.attributes.len(),
            attributes == record.attributes@,
            address == record_address(record.family, attributes.take(a as int)),
        decreases record.attributes.len() - a,
    {
        proof {
            assert(attributes.take(a + 1).drop_last() =~= attributes.take(a as int));
            assert(attributes.take(a + 1).last() == attributes[a as int]);
        }
        match &record.attributes[a] {
            AddressAttribute::Address(payload) => {
                match read_payload(record.family, payload) {
                    Some(read) => {
                        address = read;
                    },
                    None => {},
                }
            },
            AddressAttribute::Other => {},
        }
        a += 1;
    }
    proof {
        assert(attributes.take(a as int) =~= attributes);
    }
    address
}

/// Picks the addresses of universe scope out of those that the kernel
/// reported.
pub fn get_addresses(records: &Vec<AddressRecord>) -> (addresses: Vec<Address>)
    ensures
        address_views(addresses@) == collected_addresses(records@, records.len() as int),
{
    let mut addresses: Vec<Address> = Vec::new();
    let mut k: usize = 0;
    proof {
        assert(address_views(addresses@) =~= collected_addresses(records@, 0));
    }
    while k < records.len()
        invariant
            k <= records.len(),
            address_views(addresses@) == collected_addresses(records@, k as int),
        decreases records.len() - k,
    {
        let record = &records[k];
        if record.scope == RT_SCOPE_UNIVERSE {
            let ghost before = addresses@;
            let address = Address {
                interface: record.index,
                address: read_address(record),
                prefix_length: record.prefix_len,
                message: k,
            };
            addresses.push(address);
            proof {
                assert(address_views(addresses@) =~= address_views(before).push(
                    address_entry(*record, k as nat),
                ));
            }
        }
        k += 1;
    }
    addresses
}

/// Reads a route record, if its family is IPv4 or IPv6 and every
/// destination in it can be read.
fn read_route(record: &RouteRecord, position: usize) -> (route: Option<Route>)
    ensures
        match route {
            Some(r) => is_classified(record.address_family) && route_is_readable(
                record.address_family,
                record.attributes@,
            ) && r@ == route_entry(*record, position as nat),
            None => !(is_classified(record.address_family) && route_is_readable(
                record.address_family,
                record.attributes@,
            )),
        },
{
    if record.address_family != AF_INET && record.address_family != AF_INET6 {
        return None;
    }
    let ghost attributes = record.attributes@;
    let mut route = Route {
        destination: IpAddress::V4(0),
        destination_prefix_length: record.destination_prefix_length,
        interface: 0,
        message: position,
    };
    let mut a: usize = 0;
    while a < record.attributes.len()
        invariant
            a <= record.attributes.len(),
            attributes == record.attributes@,
            route.destination_prefix_length == record.destination_prefix_length,
            route.message == position,
            route_is_readable(record.address_family, attributes.take(a as int)),
            route.destination == route_destination(
                record.address_family,
                attributes.take(a as int),
            ),
            route.interface == route_interface(attributes.take(a as int)),
        decreases record.attributes.len() - a,
    {
        proof {
            assert(attributes.take(a + 1).drop_last() =~= attributes.take(a as int));
            assert(attributes.take(a + 1).last() == attributes[a as int]);
        }
        match &record.attributes[a] {
            RouteAttribute::Oif(index) => {
                route.interface = *index;
            },
            RouteAttribute::Destination(payload) => {
                match read_payload(record.address_family, payload) {
                    Some(read) => {
                        route.destination = read;
                    },
                    None => {
                        assert(attribute_is_unreadable(record.address_family, attributes[a as int]));
                        return None;
                    },
                }
            },
            RouteAttribute::Other => {},
        }
        proof {
            assert forall|b: int| 0 <= b < a + 1 implies !attribute_is_unreadable(
                record.address_family,
                #[trigger] attributes.take(a + 1)[b],
            ) by {
                if b < a {
                    assert(attributes.take(a + 1)[b] == attributes.take(a as int)[b]);
                }
            }
        }
        a += 1;
    }
    proof {
        assert(attributes.take(a as int) =~= attributes);
    }
    Some(route)
}

/// Picks the managed routes out of those that the kernel reported.
pub fn get_routes(records: &Vec<RouteRecord>, route_proto: u8) -> (routes: Vec<Route>)
    ensures
        route_views(routes@) == collected_routes(records@, route_proto, records.len() as int),
{
    let mut routes: Vec<Route> = Vec::new();
    let mut k: usize = 0;
    proof {
        assert(route_views(routes@) =~= collected_routes(records@, route_proto, 0));
    }
    while k < records.len()
        invariant
            k <= records.len(),
            route_views(routes@) == collected_routes(records@, route_proto, k as int),
        decreases records.len() - k,
    {
        let record = &records[k];
        if record.protocol == route_proto {
            match read_route(record, k) {
                Some(route) => {
                    let ghost before = routes@;
                    routes.push(route);
                    proof {
                        assert(route_views(routes@) =~= route_views(before).push(
                            route_entry(*record, k as nat),
                        ));
                    }
                },
                None => {},
            }
        }
        k += 1;
    }
    routes
}

/// Reads the snapshot of managed state out of what the kernel reported:
/// all links, all addresses, and all routes of both families.
pub fn get_state(
    links: &Vec<LinkRecord>,
    addresses: &Vec<AddressRecord>,
    routes: &Vec<RouteRecord>,
    route_proto: u8,
) -> (state: State)
    ensures
        state@ == collected_state(links@, addresses@, routes@, route_proto),
{
    let interfaces = get_vlan_interfaces(links);
    let addresses = get_addresses(addresses);
    let routes = get_routes(routes, route_proto);
    State { interfaces, addresses, routes }
}

} // verus!

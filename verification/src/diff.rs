//! The reconciler: from a snapshot and the tenants to an ordered list of
//! operations and the interface name of each tenant.

use vstd::prelude::*;
use crate::config::{IpAddress, VPS, VpsView};
use crate::error::{Error, ErrorView};
use crate::names::{format_interface_name, interface_name, interface_number, parse_interface_number};
use crate::netlink::{
    address_views, interface_name_to_index, interface_views, resolved_index, route_views, Address,
    AddressView, Interface, InterfaceView, LinkRecord, Route, RouteView, State, StateView,
};

verus! {

/// An address to add to the interface that carries a name.
#[derive(Debug)]
pub struct AddAddress {
    pub address: IpAddress,
    pub prefix_length: u8,
    pub interface_name: String,
}

/// A route to add through the interface that carries a name.
#[derive(Debug)]
pub struct AddRoute {
    pub destination: IpAddress,
    pub destination_prefix_length: u8,
    pub interface_name: String,
}

/// One operation against the kernel. Removals of addresses and routes carry
/// the `message` of the snapshot entry they delete.
#[derive(Debug)]
pub enum Diff {
    AddInterface(Interface),
    RemoveInterface(u32),
    AddAddress(AddAddress),
    RemoveAddress(usize),
    AddRoute(AddRoute),
    RemoveRoute(usize),
}

/// The interface that serves a tenant.
#[derive(Debug)]
pub struct InterfaceState<'a> {
    pub name: String,
    pub vps: &'a VPS,
}

/// The mathematical value of an address to add.
pub struct AddAddressView {
    pub address: IpAddress,
    pub prefix_length: u8,
    pub interface_name: Seq<char>,
}

/// The mathematical value of a route to add.
pub struct AddRouteView {
    pub destination: IpAddress,
    pub destination_prefix_length: u8,
    pub interface_name: Seq<char>,
}

/// The mathematical value of an operation.
pub enum DiffView {
    AddInterface(InterfaceView),
    RemoveInterface(nat),
    AddAddress(AddAddressView),
    RemoveAddress(nat),
    AddRoute(AddRouteView),
    RemoveRoute(nat),
}

/// The mathematical value of a tenant's assignment.
pub struct InterfaceStateView {
    pub name: Seq<char>,
    pub vps: VpsView,
}

impl View for AddAddress {
    type V = AddAddressView;

    open spec fn view(&self) -> AddAddressView {
        AddAddressView {
            address: self.address,
            prefix_length: self.prefix_length,
            interface_name: self.interface_name@,
        }
    }
}

impl View for AddRoute {
    type V = AddRouteView;

    open spec fn view(&self) -> AddRouteView {
        AddRouteView {
            destination: self.destination,
            destination_prefix_length: self.destination_prefix_length,
            interface_name: self.interface_name@,
        }
    }
}

impl View for Diff {
    type V = DiffView;

    open spec fn view(&self) -> DiffView {
        match self {
            Diff::AddInterface(i) => DiffView::AddInterface(i@),
            Diff::RemoveInterface(index) => DiffView::RemoveInterface(*index as nat),
            Diff::AddAddress(a) => DiffView::AddAddress(a@),
            Diff::RemoveAddress(message) => DiffView::RemoveAddress(*message as nat),
            Diff::AddRoute(r) => DiffView::AddRoute(r@),
            Diff::RemoveRoute(message) => DiffView::RemoveRoute(*message as nat),
        }
    }
}

impl<'a> View for InterfaceState<'a> {
    type V = InterfaceStateView;

    open spec fn view(&self) -> InterfaceStateView {
        InterfaceStateView { name: self.name@, vps: self.vps@ }
    }
}

/// The operations of a list, each by its mathematical value.
pub open spec fn diff_views(ops: Seq<Diff>) -> Seq<DiffView> {
    ops.map_values(|d: Diff| d@)
}

/// The tenants of a list, each by its mathematical value.
pub open spec fn vps_views(target: Seq<VPS>) -> Seq<VpsView> {
    target.map_values(|v: VPS| v@)
}

/// The assignments of a list, each by its mathematical value.
pub open spec fn interface_state_views(states: Seq<InterfaceState>) -> Seq<InterfaceStateView> {
    states.map_values(|s: InterfaceState| s@)
}

// ---------------------------------------------------------------------------
// What reconciliation computes
// ---------------------------------------------------------------------------

/// The first interface at or after position `from` that carries `vlan`.
pub open spec fn find_vlan(interfaces: Seq<InterfaceView>, vlan: u16, from: nat) -> Option<
    InterfaceView,
>
    decreases interfaces.len() - from,
{
    if from >= interfaces.len() {
        None
    } else if interfaces[from as int].vlan == vlan {
        Some(interfaces[from as int])
    } else {
        find_vlan(interfaces, vlan, from + 1)
    }
}

/// The existing interface that serves a VLAN, if there is one.
pub open spec fn matched_interface(interfaces: Seq<InterfaceView>, vlan: u16) -> Option<
    InterfaceView,
> {
    find_vlan(interfaces, vlan, 0)
}

/// The highest number that any interface name of the snapshot carries.
pub open spec fn highest_number(interfaces: Seq<InterfaceView>) -> nat
    decreases interfaces.len(),
{
    if interfaces.len() == 0 {
        0
    } else {
        let rest = highest_number(interfaces.drop_last());
        let last = interface_number(interfaces.last().name);
        if last > rest {
            last
        } else {
            rest
        }
    }
}

/// How many of the first `n` tenants have no interface yet.
pub open spec fn unmatched_count(interfaces: Seq<InterfaceView>, specs: Seq<VpsView>, n: int) -> nat
    decreases n,
{
    if n <= 0 {
        0
    } else {
        unmatched_count(interfaces, specs, n - 1) + if matched_interface(
            interfaces,
            specs[n - 1].vlan,
        ) is None {
            1nat
        } else {
            0nat
        }
    }
}

/// The interface name of tenant `t`: that of its existing interface, or the
/// next unused number after every number seen in the snapshot.
pub open spec fn assigned_name(interfaces: Seq<InterfaceView>, specs: Seq<VpsView>, t: int) -> Seq<
    char,
> {
    match matched_interface(interfaces, specs[t].vlan) {
        Some(i) => i.name,
        None => interface_name(
            highest_number(interfaces) + 1 + unmatched_count(interfaces, specs, t),
        ),
    }
}

/// The private point-to-point address of the tenant, at prefix length 31.
pub open spec fn wanted_address(spec: VpsView, a: AddressView) -> bool {
    a.address == IpAddress::V4(spec.v4_addr) && a.prefix_length == 31
}

/// A host route to a public address of the tenant, or the route to its
/// IPv6 prefix.
pub open spec fn wanted_route(spec: VpsView, r: RouteView) -> bool {
    match r.destination {
        IpAddress::V4(d) => spec.v4_public.contains(d) && r.destination_prefix_length == 32,
        IpAddress::V6(d) => d == spec.v6_prefix && r.destination_prefix_length == 64,
    }
}

/// Whether the interface holds the tenant's private address.
pub open spec fn has_wanted_address(addresses: Seq<AddressView>, interface: nat, spec: VpsView)
    -> bool {
    exists|k: int|
        0 <= k < addresses.len() && (#[trigger] addresses[k]).interface == interface
            && wanted_address(spec, addresses[k])
}

/// Whether a route to the destination runs through the interface.
pub open spec fn has_route(
    routes: Seq<RouteView>,
    interface: nat,
    destination: IpAddress,
    prefix_length: u8,
) -> bool {
    exists|k: int|
        0 <= k < routes.len() && (#[trigger] routes[k]).interface == interface
            && routes[k].destination == destination && routes[k].destination_prefix_length
            == prefix_length
}

/// The operation that gives a tenant its private address on the interface
/// `name`.
pub open spec fn add_address_op(spec: VpsView, name: Seq<char>) -> DiffView {
    DiffView::AddAddress(
        AddAddressView {
            address: IpAddress::V4(spec.v4_addr),
            prefix_length: 31,
            interface_name: name,
        },
    )
}

/// The operation that routes one public address to the interface `name`.
pub open spec fn add_public_route_op(address: u32, name: Seq<char>) -> DiffView {
    DiffView::AddRoute(
        AddRouteView {
            destination: IpAddress::V4(address),
            destination_prefix_length: 32,
            interface_name: name,
        },
    )
}

/// The operation that routes a public address to the interface `name`.
pub open spec fn add_public_route(name: Seq<char>) -> spec_fn(u32) -> DiffView {
    |p: u32| add_public_route_op(p, name)
}

/// Whether a public address has no host route on the interface yet.
pub open spec fn lacks_public_route(routes: Seq<RouteView>, interface: nat) -> spec_fn(u32) -> bool {
    |p: u32| !has_route(routes, interface, IpAddress::V4(p), 32)
}

/// The operation that routes a tenant's IPv6 prefix to the interface `name`.
pub open spec fn add_prefix_route_op(spec: VpsView, name: Seq<char>) -> DiffView {
    DiffView::AddRoute(
        AddRouteView {
            destination: IpAddress::V6(spec.v6_prefix),
            destination_prefix_length: 64,
            interface_name: name,
        },
    )
}

/// What a tenant still lacks on the interface it already has: the address,
/// then each public route in configuration order, then the prefix route.
pub open spec fn kept_additions(s: StateView, spec: VpsView, i: InterfaceView) -> Seq<DiffView> {
    (if has_wanted_address(s.addresses, i.index, spec) {
        Seq::<DiffView>::empty()
    } else {
        seq![add_address_op(spec, i.name)]
    }) + spec.v4_public.filter(lacks_public_route(s.routes, i.index)).map_values(
        add_public_route(i.name),
    ) + (if has_route(
        s.routes,
        i.index,
        IpAddress::V6(spec.v6_prefix),
        64,
    ) {
        Seq::<DiffView>::empty()
    } else {
        seq![add_prefix_route_op(spec, i.name)]
    })
}

/// Everything a tenant without an interface needs, in the order in which the
/// kernel can take it.
pub open spec fn new_additions(spec: VpsView, name: Seq<char>, link: nat) -> Seq<DiffView> {
    seq![
        DiffView::AddInterface(InterfaceView { name, index: 0, link, vlan: spec.vlan }),
        add_address_op(spec, name),
    ] + spec.v4_public.map_values(add_public_route(name)) + seq![
        add_prefix_route_op(spec, name),
    ]
}

/// The additions for tenant `t`.
pub open spec fn tenant_additions(s: StateView, specs: Seq<VpsView>, link: nat, t: int) -> Seq<
    DiffView,
> {
    match matched_interface(s.interfaces, specs[t].vlan) {
        Some(i) => kept_additions(s, specs[t], i),
        None => new_additions(specs[t], assigned_name(s.interfaces, specs, t), link),
    }
}

/// The additions for the first `n` tenants, tenant by tenant.
pub open spec fn additions(s: StateView, specs: Seq<VpsView>, link: nat, n: int) -> Seq<DiffView>
    decreases n,
{
    if n <= 0 {
        Seq::empty()
    } else {
        additions(s, specs, link, n - 1) + tenant_additions(s, specs, link, n - 1)
    }
}

/// Whether an address sits on the interface and is not the tenant's private
/// address.
pub open spec fn unwanted_address_on(interface: nat, spec: VpsView) -> spec_fn(AddressView) -> bool {
    |a: AddressView| a.interface == interface && !wanted_address(spec, a)
}

/// The operation that removes an address.
pub open spec fn remove_address() -> spec_fn(AddressView) -> DiffView {
    |a: AddressView| DiffView::RemoveAddress(a.message)
}

/// The operation that removes a route.
pub open spec fn remove_route() -> spec_fn(RouteView) -> DiffView {
    |r: RouteView| DiffView::RemoveRoute(r.message)
}

/// The operation that removes an interface.
pub open spec fn remove_interface() -> spec_fn(InterfaceView) -> DiffView {
    |i: InterfaceView| DiffView::RemoveInterface(i.index)
}

/// Whether an interface of the snapshot serves no tenant.
pub open spec fn serves_no_tenant(interfaces: Seq<InterfaceView>, specs: Seq<VpsView>) -> spec_fn(
    InterfaceView,
) -> bool {
    |i: InterfaceView| !is_kept(interfaces, specs, i.index)
}

/// Whether a route is wanted by no tenant and sits on no interface that is
/// removed.
pub open spec fn unwanted_route(s: StateView, specs: Seq<VpsView>) -> spec_fn(RouteView) -> bool {
    |r: RouteView|
        !is_retained(s, specs, r.message) && !is_removed(s.interfaces, specs, r.interface)
}

/// The addresses on a tenant's existing interface that are not its private
/// address, as removals.
pub open spec fn tenant_address_removals(s: StateView, specs: Seq<VpsView>, t: int) -> Seq<
    DiffView,
> {
    match matched_interface(s.interfaces, specs[t].vlan) {
        Some(i) => s.addresses.filter(unwanted_address_on(i.index, specs[t])).map_values(
            remove_address(),
        ),
        None => Seq::empty(),
    }
}

/// The address removals for the first `n` tenants, tenant by tenant.
pub open spec fn address_removals(s: StateView, specs: Seq<VpsView>, n: int) -> Seq<DiffView>
    decreases n,
{
    if n <= 0 {
        Seq::empty()
    } else {
        address_removals(s, specs, n - 1) + tenant_address_removals(s, specs, n - 1)
    }
}

/// The kernel index of the existing interface that serves a VLAN.
pub open spec fn matched_index(interfaces: Seq<InterfaceView>, vlan: u16) -> Option<nat> {
    match matched_interface(interfaces, vlan) {
        Some(i) => Some(i.index),
        None => None,
    }
}

/// Whether the interface with this kernel index serves one of the first `n`
/// tenants.
pub open spec fn is_kept_among(
    interfaces: Seq<InterfaceView>,
    specs: Seq<VpsView>,
    n: int,
    index: nat,
) -> bool {
    exists|t: int|
        0 <= t < n && matched_index(interfaces, (#[trigger] specs[t]).vlan) == Some(index)
}

/// Whether the interface with this kernel index serves one of the tenants.
pub open spec fn is_kept(interfaces: Seq<InterfaceView>, specs: Seq<VpsView>, index: nat) -> bool {
    is_kept_among(interfaces, specs, specs.len() as int, index)
}

/// Whether an interface with this kernel index is in the snapshot and serves
/// no tenant, so that it is removed.
pub open spec fn is_removed(interfaces: Seq<InterfaceView>, specs: Seq<VpsView>, index: nat)
    -> bool {
    !is_kept(interfaces, specs, index) && in_snapshot_within(
        interfaces,
        interfaces.len() as int,
        index,
    )
}

/// Whether one of the first `n` routes was read from this kernel record,
/// sits on the interface and is one that the tenant wants.
pub open spec fn retained_within(
    routes: Seq<RouteView>,
    n: int,
    interface: nat,
    spec: VpsView,
    message: nat,
) -> bool {
    exists|k: int|
        0 <= k < n && (#[trigger] routes[k]).interface == interface && wanted_route(
            spec,
            routes[k],
        ) && routes[k].message == message
}

/// Whether a route read from this kernel record sits on the interface and
/// is one that the tenant wants.
pub open spec fn retained_on(routes: Seq<RouteView>, interface: nat, spec: VpsView, message: nat)
    -> bool {
    retained_within(routes, routes.len() as int, interface, spec, message)
}

/// Whether tenant `t` wants the route entry read from this kernel record on
/// its existing interface.
pub open spec fn is_retained_for(s: StateView, specs: Seq<VpsView>, t: int, message: nat) -> bool {
    match matched_index(s.interfaces, specs[t].vlan) {
        Some(index) => retained_on(s.routes, index, specs[t], message),
        None => false,
    }
}

/// Whether one of the first `n` tenants wants the route entry read from this
/// kernel record on its existing interface.
pub open spec fn is_retained_among(s: StateView, specs: Seq<VpsView>, n: int, message: nat)
    -> bool {
    exists|t: int| 0 <= t < n && #[trigger] is_retained_for(s, specs, t, message)
}

/// Whether the route entry read from this kernel record is one that a tenant
/// wants on its existing interface.
pub open spec fn is_retained(s: StateView, specs: Seq<VpsView>, message: nat) -> bool {
    is_retained_among(s, specs, specs.len() as int, message)
}

/// The removals of the interfaces that serve no tenant, in snapshot order.
pub open spec fn interface_removals(s: StateView, specs: Seq<VpsView>) -> Seq<DiffView> {
    s.interfaces.filter(serves_no_tenant(s.interfaces, specs)).map_values(remove_interface())
}

/// The removals of the routes that no tenant wants and whose interface
/// stays, in snapshot order.
pub open spec fn route_removals(s: StateView, specs: Seq<VpsView>) -> Seq<DiffView> {
    s.routes.filter(unwanted_route(s, specs)).map_values(remove_route())
}

/// The operations that bring the snapshot to what the tenants ask for:
/// interfaces that serve no tenant go first, then routes that no tenant
/// wants, then addresses that no tenant wants, then everything missing.
/// Routes and addresses of an interface that goes are not listed: they go
/// with it.
pub open spec fn operations(s: StateView, specs: Seq<VpsView>, link: nat) -> Seq<DiffView> {
    interface_removals(s, specs) + route_removals(s, specs) + address_removals(
        s,
        specs,
        specs.len() as int,
    ) + additions(s, specs, link, specs.len() as int)
}

/// The interface of each tenant, in the order of the tenants.
pub open spec fn assignments(s: StateView, specs: Seq<VpsView>) -> Seq<InterfaceStateView> {
    Seq::new(
        specs.len(),
        |t: int|
            InterfaceStateView { name: assigned_name(s.interfaces, specs, t), vps: specs[t] },
    )
}


// ---------------------------------------------------------------------------
// Computing it
// ---------------------------------------------------------------------------

/// Filtering and mapping one element more of a sequence.
proof fn lemma_filter_map_step<A, B>(
    s: Seq<A>,
    k: int,
    pred: spec_fn(A) -> bool,
    f: spec_fn(A) -> B,
)
    requires
        0 <= k < s.len(),
    ensures
        s.take(k + 1).filter(pred).map_values(f) == if pred(s[k]) {
            s.take(k).filter(pred).map_values(f).push(f(s[k]))
        } else {
            s.take(k).filter(pred).map_values(f)
        },
{
    s.lemma_take_succ_push(k);
    s.take(k).lemma_filter_push(s[k], pred);
    s.take(k).filter(pred).lemma_push_map_commute(f, s[k]);
}

/// The count of tenants without an interface only grows along the list.
pub proof fn lemma_unmatched_count_grows(
    interfaces: Seq<InterfaceView>,
    specs: Seq<VpsView>,
    a: int,
    b: int,
)
    requires
        a <= b,
    ensures
        unmatched_count(interfaces, specs, a) <= unmatched_count(interfaces, specs, b),
    decreases b - a,
{
    if a < b {
        lemma_unmatched_count_grows(interfaces, specs, a, b - 1);
    }
}

/// Whether an interface with this kernel index is among the first `n` of
/// the snapshot.
pub open spec fn in_snapshot_within(interfaces: Seq<InterfaceView>, n: int, index: nat) -> bool {
    exists|k: int| 0 <= k < n && (#[trigger] interfaces[k]).index == index
}

/// Looking at one interface more.
proof fn lemma_in_snapshot_step(interfaces: Seq<InterfaceView>, k: int, index: nat)
    requires
        0 <= k < interfaces.len(),
    ensures
        in_snapshot_within(interfaces, k + 1, index) <==> in_snapshot_within(interfaces, k, index)
            || interfaces[k].index == index,
{
    if in_snapshot_within(interfaces, k + 1, index) {
        let j = choose|j: int| 0 <= j < k + 1 && (#[trigger] interfaces[j]).index == index;
        if j < k {
            assert(in_snapshot_within(interfaces, k, index));
        }
    }
    if in_snapshot_within(interfaces, k, index) {
        let j = choose|j: int| 0 <= j < k && (#[trigger] interfaces[j]).index == index;
        assert(interfaces[j].index == index);
        assert(in_snapshot_within(interfaces, k + 1, index));
    }
    if interfaces[k].index == index {
        assert(in_snapshot_within(interfaces, k + 1, index));
    }
}

/// Looking at one tenant more.
proof fn lemma_kept_step(interfaces: Seq<InterfaceView>, specs: Seq<VpsView>, t: int, index: nat)
    requires
        0 <= t < specs.len(),
    ensures
        is_kept_among(interfaces, specs, t + 1, index) <==> is_kept_among(
            interfaces,
            specs,
            t,
            index,
        ) || matched_index(interfaces, specs[t].vlan) == Some(index),
{
    if is_kept_among(interfaces, specs, t + 1, index) {
        let u = choose|u: int|
            0 <= u < t + 1 && matched_index(interfaces, (#[trigger] specs[u]).vlan) == Some(
                index,
            );
        if u < t {
            assert(is_kept_among(interfaces, specs, t, index));
        }
    }
    if is_kept_among(interfaces, specs, t, index) {
        let u = choose|u: int|
            0 <= u < t && matched_index(interfaces, (#[trigger] specs[u]).vlan) == Some(index);
        assert(matched_index(interfaces, specs[u].vlan) == Some(index));
        assert(is_kept_among(interfaces, specs, t + 1, index));
    }
    if matched_index(interfaces, specs[t].vlan) == Some(index) {
        assert(is_kept_among(interfaces, specs, t + 1, index));
    }
}

/// Looking at one tenant more.
proof fn lemma_retained_among_step(s: StateView, specs: Seq<VpsView>, t: int, message: nat)
    requires
        0 <= t < specs.len(),
    ensures
        is_retained_among(s, specs, t + 1, message) <==> is_retained_among(s, specs, t, message)
            || is_retained_for(s, specs, t, message),
{
    if is_retained_among(s, specs, t + 1, message) {
        let u = choose|u: int| 0 <= u < t + 1 && #[trigger] is_retained_for(s, specs, u, message);
        if u < t {
            assert(is_retained_among(s, specs, t, message));
        }
    }
    if is_retained_among(s, specs, t, message) {
        let u = choose|u: int| 0 <= u < t && #[trigger] is_retained_for(s, specs, u, message);
        assert(is_retained_for(s, specs, u, message));
        assert(is_retained_among(s, specs, t + 1, message));
    }
    if is_retained_for(s, specs, t, message) {
        assert(is_retained_among(s, specs, t + 1, message));
    }
}

/// Whether the list holds the kernel index.
fn contains_index(list: &Vec<u32>, x: u32) -> (r: bool)
    ensures
        r == list@.contains(x),
{
    let mut k: usize = 0;
    while k < list.len()
        invariant
            k <= list.len(),
            forall|j: int| 0 <= j < k ==> list@[j] != x,
        decreases list.len() - k,
    {
        if list[k] == x {
            return true;
        }
        k += 1;
    }
    false
}

/// Whether the list holds the record position.
fn contains_message(list: &Vec<usize>, x: usize) -> (r: bool)
    ensures
        r == list@.contains(x),
{
    let mut k: usize = 0;
    while k < list.len()
        invariant
            k <= list.len(),
            forall|j: int| 0 <= j < k ==> list@[j] != x,
        decreases list.len() - k,
    {
        if list[k] == x {
            return true;
        }
        k += 1;
    }
    false
}

/// Whether the list holds the address.
fn contains_address(list: &[u32], x: u32) -> (r: bool)
    ensures
        r == list@.contains(x),
{
    let mut k: usize = 0;
    while k < list.len()
        invariant
            k <= list.len(),
            forall|j: int| 0 <= j < k ==> list@[j] != x,
        decreases list.len() - k,
    {
        if list[k] == x {
            return true;
        }
        k += 1;
    }
    false
}

/// The position of the interface that serves a VLAN.
fn find_interface(interfaces: &Vec<Interface>, vlan: u16) -> (r: Option<usize>)
    ensures
        match r {
            Some(k) => k < interfaces.len() && matched_interface(
                interface_views(interfaces@),
                vlan,
            ) == Some(interfaces@[k as int]@),
            None => matched_interface(interface_views(interfaces@), vlan) is None,
        },
{
    let ghost views = interface_views(interfaces@);
    let mut k: usize = 0;
    while k < interfaces.len()
        invariant
            k <= interfaces.len(),
            views == interface_views(interfaces@),
            find_vlan(views, vlan, 0) == find_vlan(views, vlan, k as nat),
        decreases interfaces.len() - k,
    {
        if interfaces[k].vlan == vlan {
            return Some(k);
        }
        k += 1;
    }
    None
}

/// The highest number among the interface names of a snapshot.
fn highest_interface_number(interfaces: &Vec<Interface>) -> (n: u64)
    ensures
        n == highest_number(interface_views(interfaces@)),
{
    let ghost views = interface_views(interfaces@);
    let mut highest: u64 = 0;
    let mut k: usize = 0;
    while k < interfaces.len()
        invariant
            k <= interfaces.len(),
            views == interface_views(interfaces@),
            highest == highest_number(views.take(k as int)),
        decreases interfaces.len() - k,
    {
        let n: u64 = parse_interface_number(interfaces[k].name.as_str());
        proof {
            assert(views.take(k + 1).drop_last() =~= views.take(k as int));
            assert(views.take(k + 1).last() == views[k as int]);
        }
        if n > highest {
            highest = n;
        }
        k += 1;
    }
    proof {
        assert(views.take(k as int) =~= views);
    }
    highest
}

/// Whether a route to the destination runs through the interface.
fn route_exists(routes: &Vec<Route>, interface: u32, destination: IpAddress, prefix_length: u8)
    -> (r: bool)
    ensures
        r == has_route(route_views(routes@), interface as nat, destination, prefix_length),
{
    let ghost views = route_views(routes@);
    let mut k: usize = 0;
    while k < routes.len()
        invariant
            k <= routes.len(),
            views == route_views(routes@),
            forall|j: int|
                0 <= j < k ==> !((#[trigger] views[j]).interface == interface as nat
                    && views[j].destination == destination && views[j].destination_prefix_length
                    == prefix_length),
        decreases routes.len() - k,
    {
        let r = &routes[k];
        if r.interface == interface && r.destination == destination
            && r.destination_prefix_length == prefix_length {
            assert(views[k as int] == r@);
            return true;
        }
        k += 1;
    }
    false
}

/// Whether the tenant wants the route.
fn is_wanted_route(vps: &VPS, route: &Route) -> (r: bool)
    ensures
        r == wanted_route(vps@, route@),
{
    match route.destination {
        IpAddress::V4(d) => contains_address(vps.public_addresses(), d)
            && route.destination_prefix_length == 32,
        IpAddress::V6(d) => d == vps.v6_prefix && route.destination_prefix_length == 64,
    }
}


/// Looks at the addresses of a tenant's interface: says whether the private
/// address is there, and queues every other address on it for removal.
fn scan_addresses(
    addresses: &Vec<Address>,
    interface: u32,
    vps: &VPS,
    removals: &mut Vec<Diff>,
) -> (found: bool)
    ensures
        found == has_wanted_address(address_views(addresses@), interface as nat, vps@),
        diff_views(final(removals)@) == diff_views(old(removals)@) + address_views(
            addresses@,
        ).filter(unwanted_address_on(interface as nat, vps@)).map_values(remove_address()),
{
    let ghost views = address_views(addresses@);
    let ghost before = diff_views(removals@);
    let ghost pred = unwanted_address_on(interface as nat, vps@);
    let mut found = false;
    let mut k: usize = 0;
    assert(views.take(0).filter(pred).map_values(remove_address()) =~= Seq::<DiffView>::empty())
        by {
        views.take(0).lemma_filter_len(pred);
    }
    assert(before + Seq::<DiffView>::empty() =~= before);
    while k < addresses.len()
        invariant
            k <= addresses.len(),
            views == address_views(addresses@),
            pred == unwanted_address_on(interface as nat, vps@),
            diff_views(removals@) == before + views.take(k as int).filter(pred).map_values(
                remove_address(),
            ),
            found <==> exists|j: int|
                0 <= j < k && (#[trigger] views[j]).interface == interface as nat
                    && wanted_address(vps@, views[j]),
        decreases addresses.len() - k,
    {
        let a = &addresses[k];
        let ghost sofar = views.take(k as int).filter(pred).map_values(remove_address());
        proof {
            lemma_filter_map_step(views, k as int, pred, remove_address());
            assert(views[k as int] == a@);
        }
        if a.interface == interface {
            if a.address == IpAddress::V4(vps.v4_addr) && a.prefix_length == 31 {
                found = true;
            } else {
                let ghost old_removals = removals@;
                removals.push(Diff::RemoveAddress(a.message));
                proof {
                    assert(diff_views(removals@) =~= diff_views(old_removals).push(
                        DiffView::RemoveAddress(a.message as nat),
                    ));
                    assert((before + sofar).push(DiffView::RemoveAddress(a.message as nat))
                        =~= before + sofar.push(DiffView::RemoveAddress(a.message as nat)));
                }
            }
        }
        k += 1;
    }
    proof {
        assert(views.take(k as int) =~= views);
    }
    found
}

/// Looking at one route more.
proof fn lemma_retained_step(
    routes: Seq<RouteView>,
    k: int,
    interface: nat,
    spec: VpsView,
    message: nat,
)
    requires
        0 <= k < routes.len(),
    ensures
        retained_within(routes, k + 1, interface, spec, message) <==> retained_within(
            routes,
            k,
            interface,
            spec,
            message,
        ) || (routes[k].interface == interface && wanted_route(spec, routes[k])
            && routes[k].message == message),
{
    if retained_within(routes, k + 1, interface, spec, message) {
        let j = choose|j: int|
            0 <= j < k + 1 && (#[trigger] routes[j]).interface == interface && wanted_route(
                spec,
                routes[j],
            ) && routes[j].message == message;
        if j < k {
            assert(retained_within(routes, k, interface, spec, message));
        }
    }
    if retained_within(routes, k, interface, spec, message) {
        let j = choose|j: int|
            0 <= j < k && (#[trigger] routes[j]).interface == interface && wanted_route(
                spec,
                routes[j],
            ) && routes[j].message == message;
        assert(routes[j].interface == interface);
        assert(retained_within(routes, k + 1, interface, spec, message));
    }
    if routes[k].interface == interface && wanted_route(spec, routes[k]) && routes[k].message
        == message {
        assert(retained_within(routes, k + 1, interface, spec, message));
    }
}

/// Notes the routes on a tenant's interface that the tenant wants.
fn retain_routes(routes: &Vec<Route>, interface: u32, vps: &VPS, keep: &mut Vec<usize>)
    ensures
        forall|m: usize|
            final(keep)@.contains(m) <==> old(keep)@.contains(m) || retained_on(
                route_views(routes@),
                interface as nat,
                vps@,
                m as nat,
            ),
{
    let ghost views = route_views(routes@);
    let ghost before = keep@;
    let mut k: usize = 0;
    while k < routes.len()
        invariant
            k <= routes.len(),
            views == route_views(routes@),
            forall|m: usize|
                #![trigger keep@.contains(m)]
                keep@.contains(m) <==> before.contains(m) || retained_within(
                    views,
                    k as int,
                    interface as nat,
                    vps@,
                    m as nat,
                ),
        decreases routes.len() - k,
    {
        let r = &routes[k];
        let ghost old_keep = keep@;
        let ghost k0 = k as int;
        assert(views[k as int] == r@);
        let wanted = r.interface == interface && is_wanted_route(vps, r);
        if wanted {
            keep.push(r.message);
        }
        k += 1;
        proof {
            assert forall|m: usize|
                #![trigger keep@.contains(m)]
                keep@.contains(m) <==> before.contains(m) || retained_within(
                    views,
                    k as int,
                    interface as nat,
                    vps@,
                    m as nat,
                ) by {
                lemma_retained_step(views, k0, interface as nat, vps@, m as nat);
                assert(old_keep.contains(m) <==> before.contains(m) || retained_within(
                    views,
                    k0,
                    interface as nat,
                    vps@,
                    m as nat,
                ));
                if wanted {
                    vstd::seq_lib::lemma_seq_contains_after_push(old_keep, r.message, m);
                    assert(keep@ == old_keep.push(r.message));
                } else {
                    assert(keep@ == old_keep);
                }
            }
        }
    }
}

/// The operation that gives a tenant its private address.
fn make_add_address(vps: &VPS, name: &String) -> (op: Diff)
    ensures
        op@ == add_address_op(vps@, name@),
{
    Diff::AddAddress(
        AddAddress {
            address: IpAddress::V4(vps.v4_addr),
            prefix_length: 31,
            interface_name: name.clone(),
        },
    )
}

/// The operation that routes a public address to a tenant.
fn make_add_public_route(address: u32, name: &String) -> (op: Diff)
    ensures
        op@ == add_public_route_op(address, name@),
{
    Diff::AddRoute(
        AddRoute {
            destination: IpAddress::V4(address),
            destination_prefix_length: 32,
            interface_name: name.clone(),
        },
    )
}

/// The operation that routes a tenant's IPv6 prefix to it.
fn make_add_prefix_route(vps: &VPS, name: &String) -> (op: Diff)
    ensures
        op@ == add_prefix_route_op(vps@, name@),
{
    Diff::AddRoute(
        AddRoute {
            destination: IpAddress::V6(vps.v6_prefix),
            destination_prefix_length: 64,
            interface_name: name.clone(),
        },
    )
}

/// Appends one operation.
fn push_op(ops: &mut Vec<Diff>, op: Diff)
    ensures
        diff_views(final(ops)@) == diff_views(old(ops)@).push(op@),
{
    ops.push(op);
    assert(diff_views(ops@) =~= diff_views(old(ops)@).push(op@));
}

/// Queues what a tenant still lacks on the interface it already has.
fn push_kept_additions(
    state: &State,
    vps: &VPS,
    interface: &Interface,
    found_address: bool,
    adds: &mut Vec<Diff>,
)
    requires
        found_address == has_wanted_address(state@.addresses, interface.index as nat, vps@),
    ensures
        diff_views(final(adds)@) == diff_views(old(adds)@) + kept_additions(
            state@,
            vps@,
            interface@,
        ),
{
    let ghost before = diff_views(adds@);
    let ghost s = state@;
    let ghost name = interface.name@;
    let ghost first = if found_address {
        Seq::<DiffView>::empty()
    } else {
        seq![add_address_op(vps@, name)]
    };
    if !found_address {
        push_op(adds, make_add_address(vps, &interface.name));
    }
    assert(diff_views(adds@) =~= before + first);
    let public = vps.public_addresses();
    let ghost pred = lacks_public_route(s.routes, interface.index as nat);
    let ghost f = add_public_route(name);
    assert(public@.take(0).filter(pred).map_values(f) =~= Seq::<DiffView>::empty()) by {
        public@.take(0).lemma_filter_len(pred);
    }
    assert(before + first + Seq::<DiffView>::empty() =~= before + first);
    let mut k: usize = 0;
    while k < public.len()
        invariant
            k <= public.len(),
            public@ == vps@.v4_public,
            s == state@,
            name == interface.name@,
            pred == lacks_public_route(s.routes, interface.index as nat),
            f == add_public_route(name),
            diff_views(adds@) == before + first + public@.take(k as int).filter(pred).map_values(
                f,
            ),
        decreases public.len() - k,
    {
        let p: u32 = public[k];
        let ghost sofar = public@.take(k as int).filter(pred).map_values(f);
        proof {
            lemma_filter_map_step(public@, k as int, pred, f);
        }
        if !route_exists(&state.routes, interface.index, IpAddress::V4(p), 32) {
            push_op(adds, make_add_public_route(p, &interface.name));
            assert((before + first + sofar).push(f(p)) =~= before + first + sofar.push(f(p)));
        }
        k += 1;
    }
    assert(public@.take(k as int) =~= public@);
    let ghost middle = public@.filter(pred).map_values(f);
    let ghost last = if has_route(
        s.routes,
        interface.index as nat,
        IpAddress::V6(vps@.v6_prefix),
        64,
    ) {
        Seq::<DiffView>::empty()
    } else {
        seq![add_prefix_route_op(vps@, name)]
    };
    if !route_exists(&state.routes, interface.index, IpAddress::V6(vps.v6_prefix), 64) {
        push_op(adds, make_add_prefix_route(vps, &interface.name));
    }
    assert(diff_views(adds@) =~= before + (first + middle + last));
}

/// Queues everything a tenant without an interface needs.
fn push_new_additions(vps: &VPS, name: &String, link: u32, adds: &mut Vec<Diff>)
    ensures
        diff_views(final(adds)@) == diff_views(old(adds)@) + new_additions(
            vps@,
            name@,
            link as nat,
        ),
{
    let ghost before = diff_views(adds@);
    let ghost head = seq![
        DiffView::AddInterface(
            InterfaceView { name: name@, index: 0, link: link as nat, vlan: vps@.vlan },
        ),
        add_address_op(vps@, name@),
    ];
    push_op(
        adds,
        Diff::AddInterface(Interface { name: name.clone(), index: 0, link, vlan: vps.vlan }),
    );
    push_op(adds, make_add_address(vps, name));
    assert(diff_views(adds@) =~= before + head);
    let public = vps.public_addresses();
    let ghost f = add_public_route(name@);
    assert(before + head + public@.take(0).map_values(f) =~= before + head);
    let mut k: usize = 0;
    while k < public.len()
        invariant
            k <= public.len(),
            public@ == vps@.v4_public,
            f == add_public_route(name@),
            diff_views(adds@) == before + head + public@.take(k as int).map_values(f),
        decreases public.len() - k,
    {
        let p: u32 = public[k];
        let ghost sofar = public@.take(k as int).map_values(f);
        push_op(adds, make_add_public_route(p, name));
        proof {
            public@.lemma_take_succ_push(k as int);
            public@.take(k as int).lemma_push_map_commute(f, p);
            assert((before + head + sofar).push(f(p)) =~= before + head + sofar.push(f(p)));
        }
        k += 1;
    }
    assert(public@.take(k as int) =~= public@);
    push_op(adds, make_add_prefix_route(vps, name));
    assert(diff_views(adds@) =~= before + (head + public@.map_values(f) + seq![
        add_prefix_route_op(vps@, name@),
    ]));
}


/// Whether the interface numbers that the tenants without an interface need
/// all fit in 64 bits.
pub open spec fn numbers_fit(s: StateView, specs: Seq<VpsView>) -> bool {
    highest_number(s.interfaces) + unmatched_count(s.interfaces, specs, specs.len() as int)
        <= u64::MAX
}

/// Tells whether the interface numbers that the tenants without an
/// interface need all fit in 64 bits, which reconciliation asks for.
pub fn interface_numbers_fit(target: &[VPS], state: &State) -> (r: bool)
    ensures
        r == numbers_fit(state@, vps_views(target@)),
{
    let ghost s = state@;
    let ghost specs = vps_views(target@);
    let highest: u64 = highest_interface_number(&state.interfaces);
    let mut count: usize = 0;
    let mut t: usize = 0;
    while t < target.len()
        invariant
            t <= target.len(),
            s == state@,
            specs == vps_views(target@),
            count <= t,
            count == unmatched_count(s.interfaces, specs, t as int),
        decreases target.len() - t,
    {
        assert(specs[t as int] == target@[t as int]@);
        if find_interface(&state.interfaces, target[t].vlan).is_none() {
            count += 1;
        }
        t += 1;
    }
    count as u64 <= u64::MAX - highest
}

/// Computes the operations that bring `state` to what the tenants in
/// `target` ask for, and the interface name of each tenant. New interfaces
/// are created on the parent link with kernel index `link`.
pub fn reconcile<'a>(link: u32, target: &'a [VPS], state: &State) -> (r: (
    Vec<Diff>,
    Vec<InterfaceState<'a>>,
))
    requires
        numbers_fit(state@, vps_views(target@)),
    ensures
        diff_views(r.0@) == operations(state@, vps_views(target@), link as nat),
        interface_state_views(r.1@) == assignments(state@, vps_views(target@)),
{
    let ghost s = state@;
    let ghost specs = vps_views(target@);
    let mut keep_interfaces: Vec<u32> = Vec::new();
    let mut keep_routes: Vec<usize> = Vec::new();
    let mut rem_addresses: Vec<Diff> = Vec::new();
    let mut diff_add: Vec<Diff> = Vec::new();
    let mut diff: Vec<Diff> = Vec::new();
    let mut interface_states: Vec<InterfaceState<'a>> = Vec::new();
    let mut last_id: u64 = highest_interface_number(&state.interfaces);

    let mut t: usize = 0;
    proof {
        assert(diff_views(rem_addresses@) =~= address_removals(s, specs, 0));
        assert(diff_views(diff_add@) =~= additions(s, specs, link as nat, 0));
        assert(interface_state_views(interface_states@) =~= assignments(s, specs).take(0));
    }
    while t < target.len()
        invariant
            t <= target.len(),
            s == state@,
            specs == vps_views(target@),
            numbers_fit(s, specs),
            last_id as nat == highest_number(s.interfaces) + unmatched_count(
                s.interfaces,
                specs,
                t as int,
            ),
            forall|x: u32|
                #![trigger keep_interfaces@.contains(x)]
                keep_interfaces@.contains(x) <==> is_kept_among(
                    s.interfaces,
                    specs,
                    t as int,
                    x as nat,
                ),
            forall|m: usize|
                #![trigger keep_routes@.contains(m)]
                keep_routes@.contains(m) <==> is_retained_among(s, specs, t as int, m as nat),
            diff_views(rem_addresses@) == address_removals(s, specs, t as int),
            diff_views(diff_add@) == additions(s, specs, link as nat, t as int),
            interface_state_views(interface_states@) == assignments(s, specs).take(t as int),
        decreases target.len() - t,
    {
        let vps = &target[t];
        let ghost t0 = t as int;
        let ghost old_keep_interfaces = keep_interfaces@;
        let ghost old_keep_routes = keep_routes@;
        let ghost old_states = interface_states@;
        assert(specs[t0] == vps@);
        match find_interface(&state.interfaces, vps.vlan) {
            Some(k) => {
                let i = &state.interfaces[k];
                assert(s.interfaces[k as int] == i@);
                keep_interfaces.push(i.index);
                interface_states.push(InterfaceState { name: i.name.clone(), vps });
                let found = scan_addresses(&state.addresses, i.index, vps, &mut rem_addresses);
                retain_routes(&state.routes, i.index, vps, &mut keep_routes);
                push_kept_additions(state, vps, i, found, &mut diff_add);
                proof {
                    assert forall|x: u32|
                        #![trigger keep_interfaces@.contains(x)]
                        keep_interfaces@.contains(x) <==> is_kept_among(
                            s.interfaces,
                            specs,
                            t0 + 1,
                            x as nat,
                        ) by {
                        vstd::seq_lib::lemma_seq_contains_after_push(
                            old_keep_interfaces,
                            i.index,
                            x,
                        );
                        lemma_kept_step(s.interfaces, specs, t0, x as nat);
                        assert(old_keep_interfaces.contains(x) <==> is_kept_among(
                            s.interfaces,
                            specs,
                            t0,
                            x as nat,
                        ));
                    }
                    assert forall|m: usize|
                        #![trigger keep_routes@.contains(m)]
                        keep_routes@.contains(m) <==> is_retained_among(
                            s,
                            specs,
                            t0 + 1,
                            m as nat,
                        ) by {
                        lemma_retained_among_step(s, specs, t0, m as nat);
                        assert(old_keep_routes.contains(m) <==> is_retained_among(
                            s,
                            specs,
                            t0,
                            m as nat,
                        ));
                    }
                }
            },
            None => {
                proof {
                    lemma_unmatched_count_grows(
                        s.interfaces,
                        specs,
                        t0 + 1,
                        specs.len() as int,
                    );
                }
                last_id = last_id + 1;
                let interface_name = format_interface_name(last_id);
                interface_states.push(InterfaceState { name: interface_name.clone(), vps });
                push_new_additions(vps, &interface_name, link, &mut diff_add);
                proof {
                    assert forall|x: u32|
                        #![trigger keep_interfaces@.contains(x)]
                        keep_interfaces@.contains(x) <==> is_kept_among(
                            s.interfaces,
                            specs,
                            t0 + 1,
                            x as nat,
                        ) by {
                        lemma_kept_step(s.interfaces, specs, t0, x as nat);
                        assert(old_keep_interfaces.contains(x) <==> is_kept_among(
                            s.interfaces,
                            specs,
                            t0,
                            x as nat,
                        ));
                    }
                    assert forall|m: usize|
                        #![trigger keep_routes@.contains(m)]
                        keep_routes@.contains(m) <==> is_retained_among(
                            s,
                            specs,
                            t0 + 1,
                            m as nat,
                        ) by {
                        lemma_retained_among_step(s, specs, t0, m as nat);
                        assert(old_keep_routes.contains(m) <==> is_retained_among(
                            s,
                            specs,
                            t0,
                            m as nat,
                        ));
                    }
                    assert(diff_views(rem_addresses@) + Seq::<DiffView>::empty() =~= diff_views(
                        rem_addresses@,
                    ));
                }
            },
        }
        proof {
            assert(interface_state_views(interface_states@) =~= interface_state_views(
                old_states,
            ).push(
                InterfaceStateView {
                    name: assigned_name(s.interfaces, specs, t0),
                    vps: specs[t0],
                },
            ));
            assert(assignments(s, specs).take(t0 + 1) =~= assignments(s, specs).take(t0).push(
                assignments(s, specs)[t0],
            ));
        }
        t += 1;
    }
    proof {
        assert(assignments(s, specs).take(t as int) =~= assignments(s, specs));
    }

    let ghost unkept = serves_no_tenant(s.interfaces, specs);
    let mut rem_interfaces: Vec<u32> = Vec::new();
    let mut k: usize = 0;
    proof {
        s.interfaces.take(0).lemma_filter_len(unkept);
        assert(diff_views(diff@) =~= s.interfaces.take(0).filter(unkept).map_values(
            remove_interface(),
        ));
    }
    while k < state.interfaces.len()
        invariant
            k <= state.interfaces.len(),
            s == state@,
            unkept == serves_no_tenant(s.interfaces, specs),
            forall|x: u32|
                #![trigger keep_interfaces@.contains(x)]
                keep_interfaces@.contains(x) <==> is_kept(s.interfaces, specs, x as nat),
            forall|x: u32|
                #![trigger rem_interfaces@.contains(x)]
                rem_interfaces@.contains(x) <==> !is_kept(s.interfaces, specs, x as nat)
                    && in_snapshot_within(s.interfaces, k as int, x as nat),
            diff_views(diff@) == s.interfaces.take(k as int).filter(unkept).map_values(
                remove_interface(),
            ),
        decreases state.interfaces.len() - k,
    {
        let interface = &state.interfaces[k];
        let ghost k0 = k as int;
        let ghost old_rem = rem_interfaces@;
        proof {
            assert(s.interfaces[k0] == interface@);
            lemma_filter_map_step(s.interfaces, k0, unkept, remove_interface());
        }
        let gone = !contains_index(&keep_interfaces, interface.index);
        if gone {
            push_op(&mut diff, Diff::RemoveInterface(interface.index));
            rem_interfaces.push(interface.index);
        }
        k += 1;
        proof {
            assert forall|x: u32|
                #![trigger rem_interfaces@.contains(x)]
                rem_interfaces@.contains(x) <==> !is_kept(s.interfaces, specs, x as nat)
                    && in_snapshot_within(s.interfaces, k as int, x as nat) by {
                lemma_in_snapshot_step(s.interfaces, k0, x as nat);
                assert(old_rem.contains(x) <==> !is_kept(s.interfaces, specs, x as nat)
                    && in_snapshot_within(s.interfaces, k0, x as nat));
                if gone {
                    vstd::seq_lib::lemma_seq_contains_after_push(old_rem, interface.index, x);
                }
            }
        }
    }
    proof {
        assert(s.interfaces.take(k as int) =~= s.interfaces);
    }
    let ghost first = interface_removals(s, specs);

    let ghost unwanted = unwanted_route(s, specs);
    let mut j: usize = 0;
    proof {
        s.routes.take(0).lemma_filter_len(unwanted);
        assert(diff_views(diff@) =~= first + s.routes.take(0).filter(unwanted).map_values(
            remove_route(),
        ));
    }
    while j < state.routes.len()
        invariant
            j <= state.routes.len(),
            s == state@,
            unwanted == unwanted_route(s, specs),
            forall|m: usize|
                #![trigger keep_routes@.contains(m)]
                keep_routes@.contains(m) <==> is_retained(s, specs, m as nat),
            forall|x: u32|
                #![trigger rem_interfaces@.contains(x)]
                rem_interfaces@.contains(x) <==> is_removed(s.interfaces, specs, x as nat),
            diff_views(diff@) == first + s.routes.take(j as int).filter(unwanted).map_values(
                remove_route(),
            ),
        decreases state.routes.len() - j,
    {
        let route = &state.routes[j];
        let ghost sofar = s.routes.take(j as int).filter(unwanted).map_values(remove_route());
        proof {
            assert(s.routes[j as int] == route@);
            lemma_filter_map_step(s.routes, j as int, unwanted, remove_route());
        }
        if !contains_message(&keep_routes, route.message) && !contains_index(
            &rem_interfaces,
            route.interface,
        ) {
            push_op(&mut diff, Diff::RemoveRoute(route.message));
            proof {
                assert((first + sofar).push(DiffView::RemoveRoute(route.message as nat)) =~= first
                    + sofar.push(DiffView::RemoveRoute(route.message as nat)));
            }
        }
        j += 1;
    }
    proof {
        assert(s.routes.take(j as int) =~= s.routes);
    }
    let ghost removed = diff_views(diff@);
    let ghost addresses = diff_views(rem_addresses@);
    let ghost added = diff_views(diff_add@);
    diff.append(&mut rem_addresses);
    diff.append(&mut diff_add);
    proof {
        assert(diff_views(diff@) =~= removed + addresses + added);
    }
    (diff, interface_states)
}


/// Resolves the parent link by name among the links that the kernel
/// reported for it, then computes the operations that bring `state` to what
/// the tenants in `target` ask for, and the interface name of each tenant.
/// Fails only where no link carries the parent's name.
pub fn make_diff<'a>(
    root_interface: &str,
    root_links: &Vec<LinkRecord>,
    target: &'a [VPS],
    state: State,
) -> (r: Result<(Vec<Diff>, Vec<InterfaceState<'a>>), Error>)
    requires
        numbers_fit(state@, vps_views(target@)),
    ensures
        match (r, resolved_index(root_links@, root_interface@)) {
            (Ok(made), Some(link)) => diff_views(made.0@) == operations(
                state@,
                vps_views(target@),
                link as nat,
            ) && interface_state_views(made.1@) == assignments(state@, vps_views(target@)),
            (Err(e), None) => e@ == ErrorView::InterfaceNotFound(root_interface@),
            _ => false,
        },
{
    match interface_name_to_index(root_links, root_interface) {
        Ok(link) => Ok(reconcile(link, target, &state)),
        Err(e) => Err(e),
    }
}

/// Whether a tick has anything to replay against the kernel and to tell the
/// downstream services about: always on the first tick, later only where the
/// snapshot differs from what the tenants ask for.
pub fn needs_update(diff: &Vec<Diff>, first_update: bool) -> (r: bool)
    ensures
        r == (diff@.len() > 0 || first_update),
{
    diff.len() > 0 || first_update
}

} // verus!

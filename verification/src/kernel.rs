//! A model of the kernel: what each operation does to a snapshot.

use vstd::prelude::*;
use crate::apply::RequestView;
use crate::diff::{AddAddressView, AddRouteView, DiffView};
use crate::netlink::{AddressView, InterfaceView, RouteView, StateView};

verus! {

/// The greatest number of a sequence, 0 where it is empty.
pub open spec fn greatest(s: Seq<nat>) -> nat
    decreases s.len(),
{
    if s.len() == 0 {
        0
    } else {
        let before = greatest(s.drop_last());
        if s.last() > before {
            s.last()
        } else {
            before
        }
    }
}

/// No number of a sequence is above the greatest.
pub proof fn lemma_greatest_bounds(s: Seq<nat>, k: int)
    requires
        0 <= k < s.len(),
    ensures
        s[k] <= greatest(s),
    decreases s.len(),
{
    if k < s.len() - 1 {
        lemma_greatest_bounds(s.drop_last(), k);
    }
}

/// The kernel index of an interface.
pub open spec fn interface_index() -> spec_fn(InterfaceView) -> nat {
    |i: InterfaceView| i.index
}

/// The kernel index that an address refers to.
pub open spec fn address_interface() -> spec_fn(AddressView) -> nat {
    |a: AddressView| a.interface
}

/// The kernel index that a route refers to.
pub open spec fn route_interface() -> spec_fn(RouteView) -> nat {
    |r: RouteView| r.interface
}

/// The record that an address carries.
pub open spec fn address_message() -> spec_fn(AddressView) -> nat {
    |a: AddressView| a.message
}

/// The record that a route carries.
pub open spec fn route_message() -> spec_fn(RouteView) -> nat {
    |r: RouteView| r.message
}

/// A kernel index that nothing in the snapshot uses or refers to.
pub open spec fn fresh_index(s: StateView) -> nat {
    greatest(s.interfaces.map_values(interface_index())) + greatest(
        s.addresses.map_values(address_interface()),
    ) + greatest(s.routes.map_values(route_interface())) + 1
}

/// A record position that no address of the snapshot carries.
pub open spec fn fresh_address_message(s: StateView) -> nat {
    greatest(s.addresses.map_values(address_message())) + 1
}

/// A record position that no route of the snapshot carries.
pub open spec fn fresh_route_message(s: StateView) -> nat {
    greatest(s.routes.map_values(route_message())) + 1
}

/// The kernel index of the first interface at or after `from` that carries
/// the name.
pub open spec fn index_of_name_from(interfaces: Seq<InterfaceView>, name: Seq<char>, from: nat)
    -> Option<nat>
    decreases interfaces.len() - from,
{
    if from >= interfaces.len() {
        None
    } else if interfaces[from as int].name == name {
        Some(interfaces[from as int].index)
    } else {
        index_of_name_from(interfaces, name, from + 1)
    }
}

/// The kernel index of the interface that carries the name.
pub open spec fn index_of_name(interfaces: Seq<InterfaceView>, name: Seq<char>) -> Option<nat> {
    index_of_name_from(interfaces, name, 0)
}

/// Whether an interface has another kernel index.
pub open spec fn not_index(index: nat) -> spec_fn(InterfaceView) -> bool {
    |i: InterfaceView| i.index != index
}

/// Whether an address sits on another interface.
pub open spec fn address_not_on(index: nat) -> spec_fn(AddressView) -> bool {
    |a: AddressView| a.interface != index
}

/// Whether a route runs through another interface.
pub open spec fn route_not_on(index: nat) -> spec_fn(RouteView) -> bool {
    |r: RouteView| r.interface != index
}

/// Whether an address carries another record.
pub open spec fn address_not_from(message: nat) -> spec_fn(AddressView) -> bool {
    |a: AddressView| a.message != message
}

/// Whether a route carries another record.
pub open spec fn route_not_from(message: nat) -> spec_fn(RouteView) -> bool {
    |r: RouteView| r.message != message
}

/// The address that the kernel holds after adding one to the interface with
/// kernel index `interface`.
pub open spec fn added_address(s: StateView, a: AddAddressView, interface: nat) -> AddressView {
    AddressView {
        interface,
        address: a.address,
        prefix_length: a.prefix_length,
        message: fresh_address_message(s),
    }
}

/// The route that the kernel holds after adding one through the interface
/// with kernel index `interface`.
pub open spec fn added_route(s: StateView, r: AddRouteView, interface: nat) -> RouteView {
    RouteView {
        destination: r.destination,
        destination_prefix_length: r.destination_prefix_length,
        interface,
        message: fresh_route_message(s),
    }
}

/// What one operation does to the kernel's state. Removing an interface
/// takes its addresses and routes with it. A new interface gets an index of
/// the kernel's choosing, here one that is not in use. Additions of
/// addresses and routes find their interface by its name; where no
/// interface carries the name, nothing changes.
pub open spec fn apply_op(s: StateView, op: DiffView) -> StateView {
    match op {
        DiffView::AddInterface(i) => StateView {
            interfaces: s.interfaces.push(
                InterfaceView { name: i.name, index: fresh_index(s), link: i.link, vlan: i.vlan },
            ),
            ..s
        },
        DiffView::RemoveInterface(index) => StateView {
            interfaces: s.interfaces.filter(not_index(index)),
            addresses: s.addresses.filter(address_not_on(index)),
            routes: s.routes.filter(route_not_on(index)),
        },
        DiffView::AddAddress(a) => match index_of_name(s.interfaces, a.interface_name) {
            Some(interface) => StateView {
                addresses: s.addresses.push(added_address(s, a, interface)),
                ..s
            },
            None => s,
        },
        DiffView::RemoveAddress(message) => StateView {
            addresses: s.addresses.filter(address_not_from(message)),
            ..s
        },
        DiffView::AddRoute(r) => match index_of_name(s.interfaces, r.interface_name) {
            Some(interface) => StateView {
                routes: s.routes.push(added_route(s, r, interface)),
                ..s
            },
            None => s,
        },
        DiffView::RemoveRoute(message) => StateView {
            routes: s.routes.filter(route_not_from(message)),
            ..s
        },
    }
}

/// The kernel's state after a list of operations, each applied in turn.
pub open spec fn applied(s: StateView, ops: Seq<DiffView>) -> StateView
    decreases ops.len(),
{
    if ops.len() == 0 {
        s
    } else {
        apply_op(applied(s, ops.drop_last()), ops.last())
    }
}

/// Applying two lists one after the other is applying them joined.
pub proof fn lemma_applied_concat(s: StateView, a: Seq<DiffView>, b: Seq<DiffView>)
    ensures
        applied(s, a + b) == applied(applied(s, a), b),
    decreases b.len(),
{
    if b.len() == 0 {
        assert(a + b =~= a);
    } else {
        assert((a + b).drop_last() =~= a + b.drop_last());
        assert((a + b).last() == b.last());
        lemma_applied_concat(s, a, b.drop_last());
    }
}


/// What one request does to the kernel's state. Resolving a name changes
/// nothing.
pub open spec fn performed(s: StateView, request: RequestView) -> StateView {
    match request {
        RequestView::AddVlan { name, link, vlan } => StateView {
            interfaces: s.interfaces.push(
                InterfaceView { name, index: fresh_index(s), link, vlan },
            ),
            ..s
        },
        RequestView::DeleteLink { index } => StateView {
            interfaces: s.interfaces.filter(not_index(index)),
            addresses: s.addresses.filter(address_not_on(index)),
            routes: s.routes.filter(route_not_on(index)),
        },
        RequestView::ResolveName { name } => s,
        RequestView::AddAddress { interface, address, prefix_length } => StateView {
            addresses: s.addresses.push(
                AddressView {
                    interface,
                    address,
                    prefix_length,
                    message: fresh_address_message(s),
                },
            ),
            ..s
        },
        RequestView::DeleteAddress { message } => StateView {
            addresses: s.addresses.filter(address_not_from(message)),
            ..s
        },
        RequestView::AddRoute { interface, destination, prefix_length, protocol } => StateView {
            routes: s.routes.push(
                RouteView {
                    destination,
                    destination_prefix_length: prefix_length,
                    interface,
                    message: fresh_route_message(s),
                },
            ),
            ..s
        },
        RequestView::DeleteRoute { message } => StateView {
            routes: s.routes.filter(route_not_from(message)),
            ..s
        },
    }
}

} // verus!

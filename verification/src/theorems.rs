//! What holds of every operation list that reconciliation computes.

use vstd::prelude::*;
use crate::config::VpsView;
use crate::diff::{
    add_address_op, add_public_route, additions, address_removals, assigned_name, find_vlan,
    has_wanted_address, highest_number, in_snapshot_within, interface_removals, is_kept_among,
    is_removed, is_retained, kept_additions, lacks_public_route, lemma_unmatched_count_grows,
    matched_index, matched_interface, new_additions, numbers_fit, operations, remove_address,
    remove_interface, remove_route, route_removals, serves_no_tenant, tenant_additions,
    unmatched_count, unwanted_address_on, unwanted_route, wanted_address, DiffView,
};
use crate::names::{interface_name, interface_number, lemma_name_carries_number, lemma_names_differ};
use crate::netlink::{
    address_entry, address_messages_are_distinct, as_interface, collected_addresses,
    collected_routes, collected_state, interface_of, is_managed_link, is_managed_route,
    managed_link, names_are_distinct, route_entry, route_messages_are_distinct, AddressRecord,
    InterfaceView, LinkRecord, RouteRecord, RT_SCOPE_UNIVERSE, StateView,
};

verus! {

/// Whether an operation creates something.
pub open spec fn is_addition(op: DiffView) -> bool {
    op is AddInterface || op is AddAddress || op is AddRoute
}

/// Whether an operation destroys something.
pub open spec fn is_removal(op: DiffView) -> bool {
    op is RemoveInterface || op is RemoveAddress || op is RemoveRoute
}

/// Every element of a filtered and mapped sequence comes from an element of
/// the sequence that passes the filter.
pub(crate) proof fn lemma_filter_map_source<A, B>(
    s: Seq<A>,
    pred: spec_fn(A) -> bool,
    f: spec_fn(A) -> B,
    k: int,
) -> (j: int)
    requires
        0 <= k < s.filter(pred).map_values(f).len(),
    ensures
        0 <= j < s.len(),
        pred(s[j]),
        f(s[j]) == s.filter(pred).map_values(f)[k],
{
    let kept = s.filter(pred);
    s.lemma_filter_pred(pred, k);
    assert(kept.contains(kept[k]));
    s.lemma_filter_contains_rev(pred, kept[k]);
    let j = choose|j: int| 0 <= j < s.len() && s[j] == kept[k];
    j
}

/// Every element of a sequence that passes the filter is found again, mapped,
/// in the filtered and mapped sequence.
pub(crate) proof fn lemma_filter_map_target<A, B>(
    s: Seq<A>,
    pred: spec_fn(A) -> bool,
    f: spec_fn(A) -> B,
    j: int,
)
    requires
        0 <= j < s.len(),
        pred(s[j]),
    ensures
        s.filter(pred).map_values(f).contains(f(s[j])),
{
    s.lemma_filter_contains(pred, j);
    let kept = s.filter(pred);
    let k = choose|k: int| 0 <= k < kept.len() && kept[k] == s[j];
    assert(kept.map_values(f)[k] == f(s[j]));
}

/// What a tenant lacks on its existing interface is added, never removed,
/// and all of it names that interface.
pub(crate) proof fn lemma_kept_additions_add(s: StateView, spec: VpsView, i: InterfaceView, k: int)
    requires
        0 <= k < kept_additions(s, spec, i).len(),
    ensures
        is_addition(kept_additions(s, spec, i)[k]),
        operation_name(kept_additions(s, spec, i)[k]) == Some(i.name),
{
    let first = if has_wanted_address(s.addresses, i.index, spec) {
        Seq::<DiffView>::empty()
    } else {
        seq![add_address_op(spec, i.name)]
    };
    let middle = spec.v4_public.filter(lacks_public_route(s.routes, i.index)).map_values(
        add_public_route(i.name),
    );
    if first.len() <= k < first.len() + middle.len() {
        let j = lemma_filter_map_source(
            spec.v4_public,
            lacks_public_route(s.routes, i.index),
            add_public_route(i.name),
            k - first.len(),
        );
    }
}

/// The interface name that an addition of an address or a route refers to.
pub open spec fn operation_name(op: DiffView) -> Option<Seq<char>> {
    match op {
        DiffView::AddInterface(i) => Some(i.name),
        DiffView::AddAddress(a) => Some(a.interface_name),
        DiffView::AddRoute(r) => Some(r.interface_name),
        _ => None,
    }
}

/// What a tenant without an interface needs is added, never removed, and
/// all of it names the tenant's new interface.
pub(crate) proof fn lemma_new_additions_add(spec: VpsView, name: Seq<char>, link: nat, k: int)
    requires
        0 <= k < new_additions(spec, name, link).len(),
    ensures
        is_addition(new_additions(spec, name, link)[k]),
        operation_name(new_additions(spec, name, link)[k]) == Some(name),
{
}

/// Whether an operation is one of the additions for tenant `t`.
pub open spec fn added_for(s: StateView, specs: Seq<VpsView>, link: nat, t: int, op: DiffView)
    -> bool {
    tenant_additions(s, specs, link, t).contains(op)
}

/// Every addition is an addition for one of the tenants, and names that
/// tenant's interface.
pub(crate) proof fn lemma_additions_source(
    s: StateView,
    specs: Seq<VpsView>,
    link: nat,
    n: int,
    k: int,
) -> (t: int)
    requires
        0 <= n <= specs.len(),
        0 <= k < additions(s, specs, link, n).len(),
    ensures
        0 <= t < n,
        added_for(s, specs, link, t, additions(s, specs, link, n)[k]),
        is_addition(additions(s, specs, link, n)[k]),
        operation_name(additions(s, specs, link, n)[k]) == Some(
            assigned_name(s.interfaces, specs, t),
        ),
    decreases n,
{
    let earlier = additions(s, specs, link, n - 1);
    let last = tenant_additions(s, specs, link, n - 1);
    if k < earlier.len() {
        lemma_additions_source(s, specs, link, n - 1, k)
    } else {
        let q = k - earlier.len();
        assert(additions(s, specs, link, n)[k] == last[q]);
        match matched_interface(s.interfaces, specs[n - 1].vlan) {
            Some(i) => {
                lemma_kept_additions_add(s, specs[n - 1], i, q);
            },
            None => {
                lemma_new_additions_add(
                    specs[n - 1],
                    assigned_name(s.interfaces, specs, n - 1),
                    link,
                    q,
                );
            },
        }
        n - 1
    }
}

/// Whether tenant `t` has an address of the snapshot, read from this kernel
/// record, on its existing interface without wanting it.
pub open spec fn is_dropped_for(s: StateView, specs: Seq<VpsView>, t: int, message: nat) -> bool {
    exists|j: int|
        0 <= j < s.addresses.len() && matched_index(s.interfaces, specs[t].vlan) == Some(
            (#[trigger] s.addresses[j]).interface,
        ) && !wanted_address(specs[t], s.addresses[j]) && s.addresses[j].message == message
}

/// Every address removal deletes an address of the snapshot that sits on the
/// existing interface of a tenant that does not want it.
pub(crate) proof fn lemma_address_removals_source(s: StateView, specs: Seq<VpsView>, n: int, k: int) -> (t:
    int)
    requires
        0 <= n <= specs.len(),
        0 <= k < address_removals(s, specs, n).len(),
    ensures
        0 <= t < n,
        address_removals(s, specs, n)[k] is RemoveAddress,
        is_dropped_for(s, specs, t, address_removals(s, specs, n)[k]->RemoveAddress_0),
    decreases n,
{
    let earlier = address_removals(s, specs, n - 1);
    if k < earlier.len() {
        lemma_address_removals_source(s, specs, n - 1, k)
    } else {
        let q = k - earlier.len();
        let i = matched_interface(s.interfaces, specs[n - 1].vlan)->Some_0;
        let j = lemma_filter_map_source(
            s.addresses,
            unwanted_address_on(i.index, specs[n - 1]),
            remove_address(),
            q,
        );
        assert(s.addresses[j].message == address_removals(s, specs, n)[k]->RemoveAddress_0);
        n - 1
    }
}

/// In every operation list, all removals stand before all additions.
pub proof fn theorem_removals_precede_additions(s: StateView, specs: Seq<VpsView>, link: nat)
    ensures
        forall|i: int, j: int|
            #![trigger operations(s, specs, link)[i], operations(s, specs, link)[j]]
            0 <= i < j < operations(s, specs, link).len() && is_addition(
                operations(s, specs, link)[i],
            ) ==> is_addition(operations(s, specs, link)[j]),
        forall|i: int|
            0 <= i < operations(s, specs, link).len() ==> is_addition(
                #[trigger] operations(s, specs, link)[i],
            ) || is_removal(operations(s, specs, link)[i]),
{
    let ops = operations(s, specs, link);
    let n = specs.len() as int;
    let first = interface_removals(s, specs);
    let second = route_removals(s, specs);
    let third = address_removals(s, specs, n);
    let fourth = additions(s, specs, link, n);
    let removed = first.len() + second.len() + third.len();
    assert forall|i: int| 0 <= i < ops.len() implies (if i < removed {
        is_removal(#[trigger] ops[i])
    } else {
        is_addition(ops[i])
    }) by {
        if i < first.len() {
            assert(ops[i] == first[i]);
        } else if i < first.len() + second.len() {
            assert(ops[i] == second[i - first.len()]);
        } else if i < removed {
            assert(ops[i] == third[i - first.len() - second.len()]);
            let t = lemma_address_removals_source(s, specs, n, i - first.len() - second.len());
        } else {
            assert(ops[i] == fourth[i - removed]);
            let t = lemma_additions_source(s, specs, link, n, i - removed);
        }
    }
}


/// Whether the snapshot holds a route, read from this kernel record, that no
/// tenant wants and whose interface stays.
pub open spec fn route_is_dropped(s: StateView, specs: Seq<VpsView>, message: nat) -> bool {
    exists|j: int|
        0 <= j < s.routes.len() && (#[trigger] s.routes[j]).message == message && !is_retained(
            s,
            specs,
            message,
        ) && !is_removed(s.interfaces, specs, s.routes[j].interface)
}

/// Whether the snapshot holds an address, read from this kernel record, on
/// the existing interface of a tenant that does not want it.
pub open spec fn address_is_dropped(s: StateView, specs: Seq<VpsView>, message: nat) -> bool {
    exists|t: int| 0 <= t < specs.len() && #[trigger] is_dropped_for(s, specs, t, message)
}

/// Whether an operation is an addition for one of the tenants and names that
/// tenant's interface.
pub open spec fn is_added(s: StateView, specs: Seq<VpsView>, link: nat, op: DiffView) -> bool {
    exists|t: int|
        0 <= t < specs.len() && #[trigger] added_for(s, specs, link, t, op) && operation_name(op)
            == Some(assigned_name(s.interfaces, specs, t))
}

/// Whether an operation touches only what the snapshot holds or what a
/// tenant asks for: a removal deletes an entry of the snapshot that nothing
/// keeps, an addition is one of a tenant's.
pub open spec fn is_justified(s: StateView, specs: Seq<VpsView>, link: nat, op: DiffView) -> bool {
    match op {
        DiffView::RemoveInterface(index) => is_removed(s.interfaces, specs, index),
        DiffView::RemoveRoute(message) => route_is_dropped(s, specs, message),
        DiffView::RemoveAddress(message) => address_is_dropped(s, specs, message),
        _ => is_added(s, specs, link, op),
    }
}

/// Every operation that reconciliation emits is justified by the snapshot
/// and the tenants: nothing outside the snapshot is ever removed.
pub proof fn theorem_operations_are_justified(s: StateView, specs: Seq<VpsView>, link: nat)
    ensures
        forall|k: int|
            0 <= k < operations(s, specs, link).len() ==> is_justified(
                s,
                specs,
                link,
                #[trigger] operations(s, specs, link)[k],
            ),
{
    let ops = operations(s, specs, link);
    let n = specs.len() as int;
    let first = interface_removals(s, specs);
    let second = route_removals(s, specs);
    let third = address_removals(s, specs, n);
    let fourth = additions(s, specs, link, n);
    let removed = first.len() + second.len() + third.len();
    assert forall|k: int| 0 <= k < ops.len() implies is_justified(
        s,
        specs,
        link,
        #[trigger] ops[k],
    ) by {
        if k < first.len() {
            assert(ops[k] == first[k]);
            let j = lemma_filter_map_source(
                s.interfaces,
                serves_no_tenant(s.interfaces, specs),
                remove_interface(),
                k,
            );
            assert(in_snapshot_within(
                s.interfaces,
                s.interfaces.len() as int,
                s.interfaces[j].index,
            ));
        } else if k < first.len() + second.len() {
            assert(ops[k] == second[k - first.len()]);
            let j = lemma_filter_map_source(
                s.routes,
                unwanted_route(s, specs),
                remove_route(),
                k - first.len(),
            );
            assert(route_is_dropped(s, specs, s.routes[j].message));
        } else if k < removed {
            assert(ops[k] == third[k - first.len() - second.len()]);
            let t = lemma_address_removals_source(s, specs, n, k - first.len() - second.len());
            assert(address_is_dropped(s, specs, ops[k]->RemoveAddress_0));
        } else {
            assert(ops[k] == fourth[k - removed]);
            let t = lemma_additions_source(s, specs, link, n, k - removed);
            assert(is_added(s, specs, link, ops[k]));
        }
    }
}

/// No route and no address is removed on an interface that the same list
/// removes: each such removal deletes an entry of the snapshot whose
/// interface stays.
pub proof fn theorem_nothing_removed_twice(s: StateView, specs: Seq<VpsView>, link: nat)
    ensures
        forall|k: int|
            0 <= k < operations(s, specs, link).len() && (#[trigger] operations(
                s,
                specs,
                link,
            )[k]) is RemoveRoute ==> exists|j: int|
                0 <= j < s.routes.len() && (#[trigger] s.routes[j]).message == operations(
                    s,
                    specs,
                    link,
                )[k]->RemoveRoute_0 && !operations(s, specs, link).contains(
                    DiffView::RemoveInterface(s.routes[j].interface),
                ),
        forall|k: int|
            0 <= k < operations(s, specs, link).len() && (#[trigger] operations(
                s,
                specs,
                link,
            )[k]) is RemoveAddress ==> exists|j: int|
                0 <= j < s.addresses.len() && (#[trigger] s.addresses[j]).message == operations(
                    s,
                    specs,
                    link,
                )[k]->RemoveAddress_0 && !operations(s, specs, link).contains(
                    DiffView::RemoveInterface(s.addresses[j].interface),
                ),
{
    let ops = operations(s, specs, link);
    theorem_operations_are_justified(s, specs, link);
    assert forall|x: nat| ops.contains(DiffView::RemoveInterface(x)) implies is_removed(
        s.interfaces,
        specs,
        x,
    ) by {
        let k = choose|k: int| 0 <= k < ops.len() && ops[k] == DiffView::RemoveInterface(x);
        assert(is_justified(s, specs, link, ops[k]));
    }
    assert forall|k: int| 0 <= k < ops.len() && (#[trigger] ops[k]) is RemoveRoute implies exists|
        j: int,
    |
        0 <= j < s.routes.len() && (#[trigger] s.routes[j]).message == ops[k]->RemoveRoute_0
            && !ops.contains(DiffView::RemoveInterface(s.routes[j].interface)) by {
        let m = ops[k]->RemoveRoute_0;
        assert(is_justified(s, specs, link, ops[k]));
        let j = choose|j: int|
            0 <= j < s.routes.len() && (#[trigger] s.routes[j]).message == m && !is_retained(
                s,
                specs,
                m,
            ) && !is_removed(s.interfaces, specs, s.routes[j].interface);
        assert(s.routes[j].message == m);
    }
    assert forall|k: int|
        0 <= k < ops.len() && (#[trigger] ops[k]) is RemoveAddress implies exists|j: int|
        0 <= j < s.addresses.len() && (#[trigger] s.addresses[j]).message
            == ops[k]->RemoveAddress_0 && !ops.contains(
            DiffView::RemoveInterface(s.addresses[j].interface),
        ) by {
        let m = ops[k]->RemoveAddress_0;
        assert(is_justified(s, specs, link, ops[k]));
        let t = choose|t: int| 0 <= t < specs.len() && #[trigger] is_dropped_for(s, specs, t, m);
        let j = choose|j: int|
            0 <= j < s.addresses.len() && matched_index(s.interfaces, specs[t].vlan) == Some(
                (#[trigger] s.addresses[j]).interface,
            ) && !wanted_address(specs[t], s.addresses[j]) && s.addresses[j].message == m;
        assert(is_kept_among(
            s.interfaces,
            specs,
            specs.len() as int,
            s.addresses[j].interface,
        ));
        assert(s.addresses[j].message == m);
    }
}


/// Every collected address was read from a record of universe scope, carries
/// the position of that record, and stands after every address read from an
/// earlier record.
pub(crate) proof fn lemma_collected_addresses_source(records: Seq<AddressRecord>, n: int, k: int)
    requires
        0 <= n <= records.len(),
        0 <= k < collected_addresses(records, n).len(),
    ensures
        collected_addresses(records, n)[k].message < n,
        records[collected_addresses(records, n)[k].message as int].scope == RT_SCOPE_UNIVERSE,
        collected_addresses(records, n)[k] == address_entry(
            records[collected_addresses(records, n)[k].message as int],
            collected_addresses(records, n)[k].message,
        ),
        forall|j: int|
            0 <= j < k ==> (#[trigger] collected_addresses(records, n)[j]).message
                < collected_addresses(records, n)[k].message,
    decreases n,
{
    let earlier = collected_addresses(records, n - 1);
    if k < earlier.len() {
        lemma_collected_addresses_source(records, n - 1, k);
        assert forall|j: int| 0 <= j < k implies (#[trigger] collected_addresses(
            records,
            n,
        )[j]).message < collected_addresses(records, n)[k].message by {
            assert(collected_addresses(records, n)[j] == earlier[j]);
        }
    } else {
        assert forall|j: int| 0 <= j < k implies (#[trigger] collected_addresses(
            records,
            n,
        )[j]).message < collected_addresses(records, n)[k].message by {
            lemma_collected_addresses_source(records, n - 1, j);
            assert(collected_addresses(records, n)[j] == earlier[j]);
        }
    }
}

/// Every collected route was read from a managed record, carries the
/// position of that record, and stands after every route read from an
/// earlier record.
pub(crate) proof fn lemma_collected_routes_source(
    records: Seq<RouteRecord>,
    route_proto: u8,
    n: int,
    k: int,
)
    requires
        0 <= n <= records.len(),
        0 <= k < collected_routes(records, route_proto, n).len(),
    ensures
        collected_routes(records, route_proto, n)[k].message < n,
        is_managed_route(
            records[collected_routes(records, route_proto, n)[k].message as int],
            route_proto,
        ),
        collected_routes(records, route_proto, n)[k] == route_entry(
            records[collected_routes(records, route_proto, n)[k].message as int],
            collected_routes(records, route_proto, n)[k].message,
        ),
        forall|j: int|
            0 <= j < k ==> (#[trigger] collected_routes(records, route_proto, n)[j]).message
                < collected_routes(records, route_proto, n)[k].message,
    decreases n,
{
    let earlier = collected_routes(records, route_proto, n - 1);
    if k < earlier.len() {
        lemma_collected_routes_source(records, route_proto, n - 1, k);
        assert forall|j: int| 0 <= j < k implies (#[trigger] collected_routes(
            records,
            route_proto,
            n,
        )[j]).message < collected_routes(records, route_proto, n)[k].message by {
            assert(collected_routes(records, route_proto, n)[j] == earlier[j]);
        }
    } else {
        assert forall|j: int| 0 <= j < k implies (#[trigger] collected_routes(
            records,
            route_proto,
            n,
        )[j]).message < collected_routes(records, route_proto, n)[k].message by {
            lemma_collected_routes_source(records, route_proto, n - 1, j);
            assert(collected_routes(records, route_proto, n)[j] == earlier[j]);
        }
    }
}

/// Whether an interface is what one of the managed links among the records
/// describes.
pub open spec fn is_read_from_managed_link(links: Seq<LinkRecord>, interface: InterfaceView)
    -> bool {
    exists|j: int|
        0 <= j < links.len() && is_managed_link(#[trigger] links[j]) && interface == interface_of(
            links[j],
        )
}

/// Whether a managed link with this kernel index is among the records.
pub open spec fn is_managed_index(links: Seq<LinkRecord>, index: nat) -> bool {
    exists|j: int|
        0 <= j < links.len() && is_managed_link(#[trigger] links[j]) && links[j].index == index
}

/// A snapshot holds nothing but managed resources: every interface comes
/// from a VLAN link named with the reserved prefix, every address from a
/// record of universe scope, every route from a record with the protocol
/// tag, and no two addresses and no two routes carry the same record.
pub proof fn theorem_snapshot_is_managed(
    links: Seq<LinkRecord>,
    addresses: Seq<AddressRecord>,
    routes: Seq<RouteRecord>,
    route_proto: u8,
)
    ensures
        forall|k: int|
            0 <= k < collected_state(links, addresses, routes, route_proto).interfaces.len()
                ==> is_read_from_managed_link(
                links,
                #[trigger] collected_state(links, addresses, routes, route_proto).interfaces[k],
            ),
        forall|k: int|
            #![trigger collected_state(links, addresses, routes, route_proto).addresses[k]]
            0 <= k < collected_state(links, addresses, routes, route_proto).addresses.len() ==> {
                let a = collected_state(links, addresses, routes, route_proto).addresses[k];
                a.message < addresses.len() && addresses[a.message as int].scope
                    == RT_SCOPE_UNIVERSE && a == address_entry(
                    addresses[a.message as int],
                    a.message,
                )
            },
        forall|k: int|
            #![trigger collected_state(links, addresses, routes, route_proto).routes[k]]
            0 <= k < collected_state(links, addresses, routes, route_proto).routes.len() ==> {
                let r = collected_state(links, addresses, routes, route_proto).routes[k];
                r.message < routes.len() && routes[r.message as int].protocol == route_proto && r
                    == route_entry(routes[r.message as int], r.message)
            },
        address_messages_are_distinct(
            collected_state(links, addresses, routes, route_proto).addresses,
        ),
        route_messages_are_distinct(
            collected_state(links, addresses, routes, route_proto).routes,
        ),
{
    let st = collected_state(links, addresses, routes, route_proto);
    assert forall|k: int| 0 <= k < st.interfaces.len() implies is_read_from_managed_link(
        links,
        #[trigger] st.interfaces[k],
    ) by {
        let j = lemma_filter_map_source(links, managed_link(), as_interface(), k);
        assert(is_managed_link(links[j]));
    }
    assert forall|k: int| 0 <= k < st.addresses.len() implies {
        let a = #[trigger] st.addresses[k];
        a.message < addresses.len() && addresses[a.message as int].scope == RT_SCOPE_UNIVERSE
            && a == address_entry(addresses[a.message as int], a.message)
    } by {
        lemma_collected_addresses_source(addresses, addresses.len() as int, k);
    }
    assert forall|k: int| 0 <= k < st.routes.len() implies {
        let r = #[trigger] st.routes[k];
        r.message < routes.len() && routes[r.message as int].protocol == route_proto && r
            == route_entry(routes[r.message as int], r.message)
    } by {
        lemma_collected_routes_source(routes, route_proto, routes.len() as int, k);
    }
    assert forall|a: int, b: int| 0 <= a < b < st.addresses.len() implies (
    #[trigger] st.addresses[a]).message != (#[trigger] st.addresses[b]).message by {
        lemma_collected_addresses_source(addresses, addresses.len() as int, b);
    }
    assert forall|a: int, b: int| 0 <= a < b < st.routes.len() implies (
    #[trigger] st.routes[a]).message != (#[trigger] st.routes[b]).message by {
        lemma_collected_routes_source(routes, route_proto, routes.len() as int, b);
    }
}

/// Reconciling a collected snapshot never removes anything unmanaged: every
/// interface it removes is a VLAN link named with the reserved prefix, every
/// address it removes was read from a record of universe scope, and every
/// route it removes from a record with the protocol tag.
pub proof fn theorem_unmanaged_is_never_removed(
    links: Seq<LinkRecord>,
    addresses: Seq<AddressRecord>,
    routes: Seq<RouteRecord>,
    route_proto: u8,
    specs: Seq<VpsView>,
    link: nat,
)
    ensures
        forall|k: int|
            0 <= k < operations(
                collected_state(links, addresses, routes, route_proto),
                specs,
                link,
            ).len() ==> match #[trigger] operations(
                collected_state(links, addresses, routes, route_proto),
                specs,
                link,
            )[k] {
                DiffView::RemoveInterface(index) => is_managed_index(links, index),
                DiffView::RemoveAddress(message) => message < addresses.len()
                    && addresses[message as int].scope == RT_SCOPE_UNIVERSE,
                DiffView::RemoveRoute(message) => message < routes.len()
                    && routes[message as int].protocol == route_proto,
                _ => true,
            },
{
    let st = collected_state(links, addresses, routes, route_proto);
    let ops = operations(st, specs, link);
    theorem_operations_are_justified(st, specs, link);
    theorem_snapshot_is_managed(links, addresses, routes, route_proto);
    assert forall|k: int| 0 <= k < ops.len() implies match #[trigger] ops[k] {
        DiffView::RemoveInterface(index) => is_managed_index(links, index),
        DiffView::RemoveAddress(message) => message < addresses.len()
            && addresses[message as int].scope == RT_SCOPE_UNIVERSE,
        DiffView::RemoveRoute(message) => message < routes.len() && routes[message as int].protocol
            == route_proto,
        _ => true,
    } by {
        assert(is_justified(st, specs, link, ops[k]));
        match ops[k] {
            DiffView::RemoveInterface(index) => {
                let i = choose|i: int|
                    0 <= i < st.interfaces.len() && (#[trigger] st.interfaces[i]).index == index;
                assert(is_read_from_managed_link(links, st.interfaces[i]));
                let j = choose|j: int|
                    0 <= j < links.len() && is_managed_link(#[trigger] links[j])
                        && st.interfaces[i] == interface_of(links[j]);
                assert(links[j].index == index);
            },
            DiffView::RemoveAddress(message) => {
                let t = choose|t: int|
                    0 <= t < specs.len() && #[trigger] is_dropped_for(st, specs, t, message);
                let j = choose|j: int|
                    0 <= j < st.addresses.len() && matched_index(st.interfaces, specs[t].vlan)
                        == Some((#[trigger] st.addresses[j]).interface) && !wanted_address(
                        specs[t],
                        st.addresses[j],
                    ) && st.addresses[j].message == message;
                assert(st.addresses[j].message == message);
            },
            DiffView::RemoveRoute(message) => {
                let j = choose|j: int|
                    0 <= j < st.routes.len() && (#[trigger] st.routes[j]).message == message
                        && !is_retained(st, specs, message) && !is_removed(
                        st.interfaces,
                        specs,
                        st.routes[j].interface,
                    );
                assert(st.routes[j].message == message);
            },
            _ => {},
        }
    }
}


/// Where the first interface at or after `from` that carries a VLAN stands:
/// nothing before it carries the VLAN; -1 where none does.
pub(crate) proof fn lemma_find_vlan(interfaces: Seq<InterfaceView>, vlan: u16, from: nat) -> (p: int)
    ensures
        match find_vlan(interfaces, vlan, from) {
            Some(i) => from <= p < interfaces.len() && interfaces[p] == i && i.vlan == vlan,
            None => p == -1,
        },
        forall|q: int|
            from <= q < (if p == -1 {
                interfaces.len() as int
            } else {
                p
            }) ==> (#[trigger] interfaces[q]).vlan != vlan,
    decreases interfaces.len() - from,
{
    if from >= interfaces.len() {
        -1
    } else if interfaces[from as int].vlan == vlan {
        from as int
    } else {
        lemma_find_vlan(interfaces, vlan, from + 1)
    }
}

/// No interface name of the snapshot carries a number above the highest.
pub(crate) proof fn lemma_highest_number_bounds(interfaces: Seq<InterfaceView>, k: int)
    requires
        0 <= k < interfaces.len(),
    ensures
        interface_number(interfaces[k].name) <= highest_number(interfaces),
    decreases interfaces.len(),
{
    if k < interfaces.len() - 1 {
        lemma_highest_number_bounds(interfaces.drop_last(), k);
    }
}

/// The number that a tenant without an interface is given.
pub open spec fn assigned_number(interfaces: Seq<InterfaceView>, specs: Seq<VpsView>, t: int)
    -> nat {
    highest_number(interfaces) + 1 + unmatched_count(interfaces, specs, t)
}

/// A new interface is numbered above every number that the snapshot holds,
/// whether its interface stays or goes: no name of the snapshot, and no name
/// that carries a number seen in the snapshot, is given out again.
pub proof fn theorem_new_names_are_unused(
    s: StateView,
    specs: Seq<VpsView>,
    t: int,
    name: Seq<char>,
)
    requires
        numbers_fit(s, specs),
        0 <= t < specs.len(),
        matched_interface(s.interfaces, specs[t].vlan) is None,
        interface_number(name) <= highest_number(s.interfaces),
    ensures
        interface_number(assigned_name(s.interfaces, specs, t)) > highest_number(s.interfaces),
        assigned_name(s.interfaces, specs, t) != name,
        forall|k: int|
            0 <= k < s.interfaces.len() ==> (#[trigger] s.interfaces[k]).name != assigned_name(
                s.interfaces,
                specs,
                t,
            ),
{
    let number = assigned_number(s.interfaces, specs, t);
    lemma_unmatched_count_grows(s.interfaces, specs, t + 1, specs.len() as int);
    lemma_name_carries_number(number);
    assert forall|k: int| 0 <= k < s.interfaces.len() implies (#[trigger] s.interfaces[k]).name
        != assigned_name(s.interfaces, specs, t) by {
        lemma_highest_number_bounds(s.interfaces, k);
    }
}

/// Two tenants on different VLANs are never given the same interface name,
/// as long as no two interfaces of the snapshot share one.
pub proof fn theorem_tenants_get_distinct_names(
    s: StateView,
    specs: Seq<VpsView>,
    t: int,
    u: int,
)
    requires
        numbers_fit(s, specs),
        names_are_distinct(s.interfaces),
        0 <= t < u < specs.len(),
        specs[t].vlan != specs[u].vlan,
    ensures
        assigned_name(s.interfaces, specs, t) != assigned_name(s.interfaces, specs, u),
{
    let p = lemma_find_vlan(s.interfaces, specs[t].vlan, 0);
    let q = lemma_find_vlan(s.interfaces, specs[u].vlan, 0);
    let empty: Seq<char> = Seq::empty();
    if p == -1 && q == -1 {
        lemma_unmatched_count_grows(s.interfaces, specs, t + 1, u);
        lemma_names_differ(
            assigned_number(s.interfaces, specs, t),
            assigned_number(s.interfaces, specs, u),
        );
    } else if p == -1 {
        theorem_new_names_are_unused(s, specs, t, empty);
        assert(s.interfaces[q].name != assigned_name(s.interfaces, specs, t));
    } else if q == -1 {
        theorem_new_names_are_unused(s, specs, u, empty);
        assert(s.interfaces[p].name != assigned_name(s.interfaces, specs, u));
    } else {
        assert(p != q);
        if p < q {
            assert(s.interfaces[p].name != s.interfaces[q].name);
        } else {
            assert(s.interfaces[q].name != s.interfaces[p].name);
        }
    }
}

} // verus!

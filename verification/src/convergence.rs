//! Reconciliation converges: once its operations are applied, a second
//! reconciliation finds nothing left to do.

use vstd::prelude::*;
use crate::config::{tenants_are_distinct, IpAddress, VpsView};
use crate::diff::{
    add_address_op, add_prefix_route_op, add_public_route, add_public_route_op, additions,
    address_removals, assigned_name, has_route, has_wanted_address, highest_number,
    in_snapshot_within, interface_removals, is_kept, is_kept_among, is_removed, is_retained,
    is_retained_among, is_retained_for, kept_additions, lacks_public_route,
    lemma_unmatched_count_grows, matched_index, matched_interface, new_additions, numbers_fit,
    operations, remove_address, remove_interface, remove_route, retained_within, route_removals,
    serves_no_tenant, tenant_additions, tenant_address_removals, unwanted_address_on,
    unwanted_route, wanted_address, wanted_route, AddAddressView, AddRouteView, DiffView,
};
use crate::kernel::{
    added_address, added_route, address_interface, address_message, address_not_from,
    address_not_on, applied, apply_op, fresh_address_message, fresh_index, index_of_name,
    index_of_name_from, interface_index, lemma_applied_concat, lemma_greatest_bounds, not_index,
    route_interface, route_not_from, route_not_on,
};
use crate::names::{interface_number, lemma_names_differ};
use crate::netlink::{
    address_messages_are_distinct, interfaces_are_distinct, is_consistent, names_are_distinct,
    vlans_are_distinct, AddressView, InterfaceView, RouteView, StateView,
};
use crate::theorems::{
    address_is_dropped, assigned_number, is_addition, is_dropped_for, is_justified, is_removal,
    lemma_additions_source, lemma_filter_map_source, lemma_filter_map_target, lemma_find_vlan,
    operation_name, route_is_dropped, theorem_new_names_are_unused,
    theorem_operations_are_justified, theorem_removals_precede_additions,
};

verus! {

/// Where VLANs tell interfaces apart, the interface that serves a VLAN is
/// the one interface that carries it.
proof fn lemma_matched_is_the_member(interfaces: Seq<InterfaceView>, vlan: u16, k: int)
    requires
        vlans_are_distinct(interfaces),
        0 <= k < interfaces.len(),
        interfaces[k].vlan == vlan,
    ensures
        matched_interface(interfaces, vlan) == Some(interfaces[k]),
{
    let p = lemma_find_vlan(interfaces, vlan, 0);
    if p == -1 {
        assert(interfaces[k].vlan != vlan);
    } else if p < k {
        assert(interfaces[p].vlan != interfaces[k].vlan);
    } else if k < p {
        assert(interfaces[k].vlan != vlan);
    }
}

/// Where the first interface at or after `from` that carries a name stands;
/// -1 where none does.
proof fn lemma_index_of_name(interfaces: Seq<InterfaceView>, name: Seq<char>, from: nat) -> (p:
    int)
    ensures
        match index_of_name_from(interfaces, name, from) {
            Some(index) => from <= p < interfaces.len() && interfaces[p].name == name
                && interfaces[p].index == index,
            None => p == -1,
        },
        forall|q: int|
            from <= q < (if p == -1 {
                interfaces.len() as int
            } else {
                p
            }) ==> (#[trigger] interfaces[q]).name != name,
    decreases interfaces.len() - from,
{
    if from >= interfaces.len() {
        -1
    } else if interfaces[from as int].name == name {
        from as int
    } else {
        lemma_index_of_name(interfaces, name, from + 1)
    }
}

/// Where names tell interfaces apart, a name resolves to the kernel index of
/// the one interface that carries it.
proof fn lemma_name_resolves(interfaces: Seq<InterfaceView>, k: int)
    requires
        names_are_distinct(interfaces),
        0 <= k < interfaces.len(),
    ensures
        index_of_name(interfaces, interfaces[k].name) == Some(interfaces[k].index),
{
    let name = interfaces[k].name;
    let p = lemma_index_of_name(interfaces, name, 0);
    if p == -1 {
        assert(interfaces[k].name != name);
    } else if p < k {
        assert(interfaces[p].name != interfaces[k].name);
    } else if k < p {
        assert(interfaces[k].name != name);
    }
}

/// A filter that nothing passes leaves nothing.
proof fn lemma_filter_nothing<A>(s: Seq<A>, pred: spec_fn(A) -> bool)
    requires
        forall|k: int| 0 <= k < s.len() ==> !pred(#[trigger] s[k]),
    ensures
        s.filter(pred) =~= Seq::<A>::empty(),
{
    let kept = s.filter(pred);
    if kept.len() > 0 {
        s.lemma_filter_pred(pred, 0);
        assert(kept.contains(kept[0]));
        s.lemma_filter_contains_rev(pred, kept[0]);
        let j = choose|j: int| 0 <= j < s.len() && s[j] == kept[0];
        assert(!pred(s[j]));
    }
}

/// Whether tenant `t` has all it asks for: an interface for its VLAN, on it
/// its private address and no other, and a route for each public address
/// and for its prefix.
pub open spec fn is_settled(x: StateView, specs: Seq<VpsView>, t: int) -> bool {
    match matched_interface(x.interfaces, specs[t].vlan) {
        Some(i) => {
            &&& has_wanted_address(x.addresses, i.index, specs[t])
            &&& forall|j: int|
                0 <= j < x.addresses.len() && (#[trigger] x.addresses[j]).interface == i.index
                    ==> wanted_address(specs[t], x.addresses[j])
            &&& forall|p: int|
                0 <= p < specs[t].v4_public.len() ==> has_route(
                    x.routes,
                    i.index,
                    IpAddress::V4(#[trigger] specs[t].v4_public[p]),
                    32,
                )
            &&& has_route(x.routes, i.index, IpAddress::V6(specs[t].v6_prefix), 64)
        },
        None => false,
    }
}

/// Whether a state is what the tenants ask for: every tenant is settled,
/// every interface serves a tenant, and every route is one that a tenant
/// wants.
pub open spec fn is_converged(x: StateView, specs: Seq<VpsView>) -> bool {
    &&& forall|t: int| 0 <= t < specs.len() ==> #[trigger] is_settled(x, specs, t)
    &&& forall|k: int|
        0 <= k < x.interfaces.len() ==> is_kept(
            x.interfaces,
            specs,
            (#[trigger] x.interfaces[k]).index,
        )
    &&& forall|j: int|
        0 <= j < x.routes.len() ==> is_retained(x, specs, (#[trigger] x.routes[j]).message)
}

/// Settled tenants have no addresses to remove.
proof fn lemma_settled_address_removals(x: StateView, specs: Seq<VpsView>, n: int)
    requires
        0 <= n <= specs.len(),
        forall|t: int| 0 <= t < specs.len() ==> #[trigger] is_settled(x, specs, t),
    ensures
        address_removals(x, specs, n) =~= Seq::<DiffView>::empty(),
    decreases n,
{
    if n > 0 {
        lemma_settled_address_removals(x, specs, n - 1);
        assert(is_settled(x, specs, n - 1));
        let i = matched_interface(x.interfaces, specs[n - 1].vlan)->Some_0;
        lemma_filter_nothing(x.addresses, unwanted_address_on(i.index, specs[n - 1]));
    }
}

/// Settled tenants have nothing to add.
proof fn lemma_settled_additions(x: StateView, specs: Seq<VpsView>, link: nat, n: int)
    requires
        0 <= n <= specs.len(),
        forall|t: int| 0 <= t < specs.len() ==> #[trigger] is_settled(x, specs, t),
    ensures
        additions(x, specs, link, n) =~= Seq::<DiffView>::empty(),
    decreases n,
{
    if n > 0 {
        lemma_settled_additions(x, specs, link, n - 1);
        assert(is_settled(x, specs, n - 1));
        let spec = specs[n - 1];
        let i = matched_interface(x.interfaces, spec.vlan)->Some_0;
        lemma_filter_nothing(spec.v4_public, lacks_public_route(x.routes, i.index));
        assert(kept_additions(x, spec, i) =~= Seq::<DiffView>::empty());
    }
}

/// Reconciling a state that is what the tenants ask for yields no operation.
proof fn lemma_converged_needs_nothing(x: StateView, specs: Seq<VpsView>, link: nat)
    requires
        is_converged(x, specs),
    ensures
        operations(x, specs, link) =~= Seq::<DiffView>::empty(),
{
    lemma_filter_nothing(x.interfaces, serves_no_tenant(x.interfaces, specs));
    lemma_filter_nothing(x.routes, unwanted_route(x, specs));
    lemma_settled_address_removals(x, specs, specs.len() as int);
    lemma_settled_additions(x, specs, link, specs.len() as int);
}

/// Where reconciliation finds nothing to do, applying its operations changes
/// nothing, and it finds nothing to do again.
pub proof fn theorem_nothing_to_do_stays(s: StateView, specs: Seq<VpsView>, link: nat)
    requires
        operations(s, specs, link) == Seq::<DiffView>::empty(),
    ensures
        applied(s, operations(s, specs, link)) == s,
        operations(applied(s, Seq::<DiffView>::empty()), specs, link) == Seq::<DiffView>::empty(),
{
}


/// What passes a filter is what was there and passes.
proof fn lemma_filter_member<A>(s: Seq<A>, pred: spec_fn(A) -> bool, x: A)
    ensures
        s.filter(pred).contains(x) <==> s.contains(x) && pred(x),
{
    let kept = s.filter(pred);
    if kept.contains(x) {
        let k = choose|k: int| 0 <= k < kept.len() && kept[k] == x;
        s.lemma_filter_pred(pred, k);
        s.lemma_filter_contains_rev(pred, x);
    }
    if s.contains(x) && pred(x) {
        let j = choose|j: int| 0 <= j < s.len() && s[j] == x;
        s.lemma_filter_contains(pred, j);
    }
}

/// A filter keeps the order: two elements of the filtered sequence stand in
/// the same order in the sequence.
proof fn lemma_filter_order<A>(s: Seq<A>, pred: spec_fn(A) -> bool, a: int, b: int) -> (r: (
    int,
    int,
))
    requires
        0 <= a < b < s.filter(pred).len(),
    ensures
        0 <= r.0 < r.1 < s.len(),
        s[r.0] == s.filter(pred)[a],
        s[r.1] == s.filter(pred)[b],
    decreases s.len(),
{
    reveal(Seq::filter);
    let rest = s.drop_last();
    if pred(s.last()) && b == s.filter(pred).len() - 1 {
        let kept = rest.filter(pred);
        assert(s.filter(pred) == kept.push(s.last()));
        assert(kept.contains(kept[a]));
        rest.lemma_filter_contains_rev(pred, kept[a]);
        let j = choose|j: int| 0 <= j < rest.len() && rest[j] == kept[a];
        (j, s.len() - 1)
    } else {
        let r = lemma_filter_order(rest, pred, a, b);
        r
    }
}

/// Whether a list of operations leaves an interface in place.
pub open spec fn interface_survives(ops: Seq<DiffView>, i: InterfaceView) -> bool {
    !ops.contains(DiffView::RemoveInterface(i.index))
}

/// Whether a list of operations leaves an address in place.
pub open spec fn address_survives(ops: Seq<DiffView>, a: AddressView) -> bool {
    !ops.contains(DiffView::RemoveInterface(a.interface)) && !ops.contains(
        DiffView::RemoveAddress(a.message),
    )
}

/// Whether a list of operations leaves a route in place.
pub open spec fn route_survives(ops: Seq<DiffView>, r: RouteView) -> bool {
    !ops.contains(DiffView::RemoveInterface(r.interface)) && !ops.contains(
        DiffView::RemoveRoute(r.message),
    )
}

/// Whether `x` holds exactly what `ops` leaves of `s`.
pub open spec fn is_what_survives(s: StateView, ops: Seq<DiffView>, x: StateView) -> bool {
    &&& forall|i: InterfaceView|
        #![trigger x.interfaces.contains(i)]
        x.interfaces.contains(i) <==> s.interfaces.contains(i) && interface_survives(ops, i)
    &&& forall|a: AddressView|
        #![trigger x.addresses.contains(a)]
        x.addresses.contains(a) <==> s.addresses.contains(a) && address_survives(ops, a)
    &&& forall|r: RouteView|
        #![trigger x.routes.contains(r)]
        x.routes.contains(r) <==> s.routes.contains(r) && route_survives(ops, r)
}

/// Thinning out interfaces does not make two of them alike.
proof fn lemma_filter_keeps_distinct(
    interfaces: Seq<InterfaceView>,
    pred: spec_fn(InterfaceView) -> bool,
)
    requires
        interfaces_are_distinct(interfaces),
    ensures
        interfaces_are_distinct(interfaces.filter(pred)),
{
    let kept = interfaces.filter(pred);
    assert forall|a: int, b: int| 0 <= a < b < kept.len() implies (#[trigger] kept[a]).name != (
    #[trigger] kept[b]).name && kept[a].index != kept[b].index && kept[a].vlan != kept[b].vlan by {
        let r = lemma_filter_order(interfaces, pred, a, b);
        assert(interfaces[r.0].name != interfaces[r.1].name);
        assert(interfaces[r.0].index != interfaces[r.1].index);
        assert(interfaces[r.0].vlan != interfaces[r.1].vlan);
    }
}

/// After a list of removals the kernel holds exactly what they leave, and
/// its interfaces are still told apart.
proof fn lemma_removals_applied(s: StateView, ops: Seq<DiffView>)
    requires
        interfaces_are_distinct(s.interfaces),
        forall|k: int| 0 <= k < ops.len() ==> is_removal(#[trigger] ops[k]),
    ensures
        is_what_survives(s, ops, applied(s, ops)),
        interfaces_are_distinct(applied(s, ops).interfaces),
    decreases ops.len(),
{
    if ops.len() > 0 {
        let before = ops.drop_last();
        let op = ops.last();
        let y = applied(s, before);
        let x = applied(s, ops);
        assert(ops =~= before.push(op));
        assert forall|k: int| 0 <= k < before.len() implies is_removal(#[trigger] before[k]) by {
            assert(before[k] == ops[k]);
        }
        lemma_removals_applied(s, before);
        assert(is_removal(op));
        assert forall|i: InterfaceView|
            #![trigger x.interfaces.contains(i)]
            x.interfaces.contains(i) <==> s.interfaces.contains(i) && interface_survives(
                ops,
                i,
            ) by {
            vstd::seq_lib::lemma_seq_contains_after_push(
                before,
                op,
                DiffView::RemoveInterface(i.index),
            );
            assert(y.interfaces.contains(i) <==> s.interfaces.contains(i) && interface_survives(
                before,
                i,
            ));
            match op {
                DiffView::RemoveInterface(index) => {
                    lemma_filter_member(y.interfaces, not_index(index), i);
                },
                _ => {},
            }
        }
        assert forall|a: AddressView|
            #![trigger x.addresses.contains(a)]
            x.addresses.contains(a) <==> s.addresses.contains(a) && address_survives(ops, a) by {
            vstd::seq_lib::lemma_seq_contains_after_push(
                before,
                op,
                DiffView::RemoveInterface(a.interface),
            );
            vstd::seq_lib::lemma_seq_contains_after_push(
                before,
                op,
                DiffView::RemoveAddress(a.message),
            );
            assert(y.addresses.contains(a) <==> s.addresses.contains(a) && address_survives(
                before,
                a,
            ));
            match op {
                DiffView::RemoveInterface(index) => {
                    lemma_filter_member(y.addresses, address_not_on(index), a);
                },
                DiffView::RemoveAddress(message) => {
                    lemma_filter_member(y.addresses, address_not_from(message), a);
                },
                _ => {},
            }
        }
        assert forall|r: RouteView|
            #![trigger x.routes.contains(r)]
            x.routes.contains(r) <==> s.routes.contains(r) && route_survives(ops, r) by {
            vstd::seq_lib::lemma_seq_contains_after_push(
                before,
                op,
                DiffView::RemoveInterface(r.interface),
            );
            vstd::seq_lib::lemma_seq_contains_after_push(
                before,
                op,
                DiffView::RemoveRoute(r.message),
            );
            assert(y.routes.contains(r) <==> s.routes.contains(r) && route_survives(before, r));
            match op {
                DiffView::RemoveInterface(index) => {
                    lemma_filter_member(y.routes, route_not_on(index), r);
                },
                DiffView::RemoveRoute(message) => {
                    lemma_filter_member(y.routes, route_not_from(message), r);
                },
                _ => {},
            }
        }
        match op {
            DiffView::RemoveInterface(index) => {
                lemma_filter_keeps_distinct(y.interfaces, not_index(index));
            },
            _ => {},
        }
    }
}


/// The removals of an operation list: everything before its additions.
pub open spec fn removals(s: StateView, specs: Seq<VpsView>) -> Seq<DiffView> {
    interface_removals(s, specs) + route_removals(s, specs) + address_removals(
        s,
        specs,
        specs.len() as int,
    )
}

/// An address that a tenant does not want on its interface is among the
/// address removals.
proof fn lemma_address_removals_target(
    s: StateView,
    specs: Seq<VpsView>,
    n: int,
    t: int,
    message: nat,
)
    requires
        0 <= t < n <= specs.len(),
        is_dropped_for(s, specs, t, message),
    ensures
        address_removals(s, specs, n).contains(DiffView::RemoveAddress(message)),
    decreases n,
{
    let earlier = address_removals(s, specs, n - 1);
    let last = tenant_address_removals(s, specs, n - 1);
    let op = DiffView::RemoveAddress(message);
    if t < n - 1 {
        lemma_address_removals_target(s, specs, n - 1, t, message);
        let k = choose|k: int| 0 <= k < earlier.len() && earlier[k] == op;
        assert(address_removals(s, specs, n)[k] == op);
    } else {
        let j = choose|j: int|
            0 <= j < s.addresses.len() && matched_index(s.interfaces, specs[t].vlan) == Some(
                (#[trigger] s.addresses[j]).interface,
            ) && !wanted_address(specs[t], s.addresses[j]) && s.addresses[j].message == message;
        let i = matched_interface(s.interfaces, specs[t].vlan)->Some_0;
        lemma_filter_map_target(
            s.addresses,
            unwanted_address_on(i.index, specs[t]),
            remove_address(),
            j,
        );
        let k = choose|k: int| 0 <= k < last.len() && last[k] == op;
        assert(address_removals(s, specs, n)[earlier.len() + k] == op);
    }
}

/// What the removals hold: an interface removal for exactly the interfaces
/// that serve no tenant, an address removal for exactly the addresses that
/// a tenant does not want on its interface, a route removal for exactly the
/// routes that no tenant wants and whose interface stays.
proof fn lemma_removals_hold(s: StateView, specs: Seq<VpsView>)
    ensures
        forall|k: int|
            0 <= k < removals(s, specs).len() ==> is_removal(#[trigger] removals(s, specs)[k]),
        forall|index: nat|
            #![trigger removals(s, specs).contains(DiffView::RemoveInterface(index))]
            removals(s, specs).contains(DiffView::RemoveInterface(index)) <==> is_removed(
                s.interfaces,
                specs,
                index,
            ),
        forall|message: nat|
            #![trigger removals(s, specs).contains(DiffView::RemoveAddress(message))]
            removals(s, specs).contains(DiffView::RemoveAddress(message)) <==> address_is_dropped(
                s,
                specs,
                message,
            ),
        forall|message: nat|
            #![trigger removals(s, specs).contains(DiffView::RemoveRoute(message))]
            removals(s, specs).contains(DiffView::RemoveRoute(message)) <==> route_is_dropped(
                s,
                specs,
                message,
            ),
{
    let rem = removals(s, specs);
    let n = specs.len() as int;
    let first = interface_removals(s, specs);
    let second = route_removals(s, specs);
    let third = address_removals(s, specs, n);
    let ops = operations(s, specs, 0);
    assert(ops =~= rem + additions(s, specs, 0, n));
    theorem_operations_are_justified(s, specs, 0);
    theorem_removals_precede_additions(s, specs, 0);
    assert forall|k: int| 0 <= k < rem.len() implies is_removal(#[trigger] rem[k]) && is_justified(
        s,
        specs,
        0,
        rem[k],
    ) by {
        assert(rem[k] == ops[k]);
        if k < first.len() {
            assert(rem[k] == first[k]);
        } else if k < first.len() + second.len() {
            assert(rem[k] == second[k - first.len()]);
        } else {
            assert(rem[k] == third[k - first.len() - second.len()]);
            let t = crate::theorems::lemma_address_removals_source(
                s,
                specs,
                n,
                k - first.len() - second.len(),
            );
        }
    }
    assert forall|index: nat|
        #![trigger rem.contains(DiffView::RemoveInterface(index))]
        rem.contains(DiffView::RemoveInterface(index)) <==> is_removed(
            s.interfaces,
            specs,
            index,
        ) by {
        let op = DiffView::RemoveInterface(index);
        if rem.contains(op) {
            let k = choose|k: int| 0 <= k < rem.len() && rem[k] == op;
            assert(is_justified(s, specs, 0, rem[k]));
        }
        if is_removed(s.interfaces, specs, index) {
            let j = choose|j: int|
                0 <= j < s.interfaces.len() && (#[trigger] s.interfaces[j]).index == index;
            lemma_filter_map_target(
                s.interfaces,
                serves_no_tenant(s.interfaces, specs),
                remove_interface(),
                j,
            );
            let k = choose|k: int| 0 <= k < first.len() && first[k] == op;
            assert(rem[k] == op);
        }
    }
    assert forall|message: nat|
        #![trigger rem.contains(DiffView::RemoveAddress(message))]
        rem.contains(DiffView::RemoveAddress(message)) <==> address_is_dropped(
            s,
            specs,
            message,
        ) by {
        let op = DiffView::RemoveAddress(message);
        if rem.contains(op) {
            let k = choose|k: int| 0 <= k < rem.len() && rem[k] == op;
            assert(is_justified(s, specs, 0, rem[k]));
        }
        if address_is_dropped(s, specs, message) {
            let t = choose|t: int|
                0 <= t < specs.len() && #[trigger] is_dropped_for(s, specs, t, message);
            lemma_address_removals_target(s, specs, n, t, message);
            let k = choose|k: int| 0 <= k < third.len() && third[k] == op;
            assert(rem[first.len() + second.len() + k] == op);
        }
    }
    assert forall|message: nat|
        #![trigger rem.contains(DiffView::RemoveRoute(message))]
        rem.contains(DiffView::RemoveRoute(message)) <==> route_is_dropped(s, specs, message) by {
        let op = DiffView::RemoveRoute(message);
        if rem.contains(op) {
            let k = choose|k: int| 0 <= k < rem.len() && rem[k] == op;
            assert(is_justified(s, specs, 0, rem[k]));
        }
        if route_is_dropped(s, specs, message) {
            let j = choose|j: int|
                0 <= j < s.routes.len() && (#[trigger] s.routes[j]).message == message
                    && !is_retained(s, specs, message) && !is_removed(
                    s.interfaces,
                    specs,
                    s.routes[j].interface,
                );
            lemma_filter_map_target(s.routes, unwanted_route(s, specs), remove_route(), j);
            let k = choose|k: int| 0 <= k < second.len() && second[k] == op;
            assert(rem[first.len() + k] == op);
        }
    }
}

/// Whether `x` holds what the removals leave of the snapshot: the interfaces
/// that serve a tenant, the addresses that are not dropped, and the routes
/// that are not dropped, none of them on an interface that goes.
pub open spec fn is_thinned(s: StateView, specs: Seq<VpsView>, x: StateView) -> bool {
    &&& interfaces_are_distinct(x.interfaces)
    &&& forall|i: InterfaceView|
        #![trigger x.interfaces.contains(i)]
        x.interfaces.contains(i) <==> s.interfaces.contains(i) && is_kept(
            s.interfaces,
            specs,
            i.index,
        )
    &&& forall|a: AddressView|
        #![trigger x.addresses.contains(a)]
        x.addresses.contains(a) <==> s.addresses.contains(a) && !is_removed(
            s.interfaces,
            specs,
            a.interface,
        ) && !address_is_dropped(s, specs, a.message)
    &&& forall|r: RouteView|
        #![trigger x.routes.contains(r)]
        x.routes.contains(r) <==> s.routes.contains(r) && !is_removed(
            s.interfaces,
            specs,
            r.interface,
        ) && !route_is_dropped(s, specs, r.message)
}

/// After the removals the kernel holds what they leave of the snapshot.
proof fn lemma_after_removals(s: StateView, specs: Seq<VpsView>)
    requires
        interfaces_are_distinct(s.interfaces),
    ensures
        is_thinned(s, specs, applied(s, removals(s, specs))),
{
    let rem = removals(s, specs);
    let x = applied(s, rem);
    lemma_removals_hold(s, specs);
    lemma_removals_applied(s, rem);
    assert forall|i: InterfaceView|
        #![trigger x.interfaces.contains(i)]
        x.interfaces.contains(i) <==> s.interfaces.contains(i) && is_kept(
            s.interfaces,
            specs,
            i.index,
        ) by {
        assert(rem.contains(DiffView::RemoveInterface(i.index)) <==> is_removed(
            s.interfaces,
            specs,
            i.index,
        ));
        if s.interfaces.contains(i) {
            let k = choose|k: int| 0 <= k < s.interfaces.len() && s.interfaces[k] == i;
            assert(in_snapshot_within(s.interfaces, s.interfaces.len() as int, i.index));
        }
    }
    assert forall|a: AddressView|
        #![trigger x.addresses.contains(a)]
        x.addresses.contains(a) <==> s.addresses.contains(a) && !is_removed(
            s.interfaces,
            specs,
            a.interface,
        ) && !address_is_dropped(s, specs, a.message) by {
        assert(rem.contains(DiffView::RemoveInterface(a.interface)) <==> is_removed(
            s.interfaces,
            specs,
            a.interface,
        ));
        assert(rem.contains(DiffView::RemoveAddress(a.message)) <==> address_is_dropped(
            s,
            specs,
            a.message,
        ));
    }
    assert forall|r: RouteView|
        #![trigger x.routes.contains(r)]
        x.routes.contains(r) <==> s.routes.contains(r) && !is_removed(
            s.interfaces,
            specs,
            r.interface,
        ) && !route_is_dropped(s, specs, r.message) by {
        assert(rem.contains(DiffView::RemoveInterface(r.interface)) <==> is_removed(
            s.interfaces,
            specs,
            r.interface,
        ));
        assert(rem.contains(DiffView::RemoveRoute(r.message)) <==> route_is_dropped(
            s,
            specs,
            r.message,
        ));
    }
}


/// Whether a list holds nothing but additions of addresses and routes on the
/// interface `name`.
pub open spec fn names_only(ops: Seq<DiffView>, name: Seq<char>) -> bool {
    forall|k: int|
        0 <= k < ops.len() ==> ((#[trigger] ops[k]) is AddAddress || ops[k] is AddRoute)
            && operation_name(ops[k]) == Some(name)
}

/// The operation that adds an address like `a` to the interface `name`.
pub open spec fn address_op(a: AddressView, name: Seq<char>) -> DiffView {
    DiffView::AddAddress(
        AddAddressView {
            address: a.address,
            prefix_length: a.prefix_length,
            interface_name: name,
        },
    )
}

/// The operation that adds a route like `r` through the interface `name`.
pub open spec fn route_op(r: RouteView, name: Seq<char>) -> DiffView {
    DiffView::AddRoute(
        AddRouteView {
            destination: r.destination,
            destination_prefix_length: r.destination_prefix_length,
            interface_name: name,
        },
    )
}

/// Whether the interface holds an address with this prefix length.
pub open spec fn has_address(
    addresses: Seq<AddressView>,
    interface: nat,
    address: IpAddress,
    prefix_length: u8,
) -> bool {
    exists|k: int|
        0 <= k < addresses.len() && (#[trigger] addresses[k]).interface == interface
            && addresses[k].address == address && addresses[k].prefix_length == prefix_length
}

/// Whether `y` is `x` with what `ops` adds on the interface `name`, which
/// has the kernel index `index`.
pub open spec fn is_extended_by(
    x: StateView,
    ops: Seq<DiffView>,
    name: Seq<char>,
    index: nat,
    y: StateView,
) -> bool {
    &&& y.interfaces == x.interfaces
    &&& forall|a: AddressView|
        #![trigger x.addresses.contains(a)]
        x.addresses.contains(a) ==> y.addresses.contains(a)
    &&& forall|a: AddressView|
        #![trigger y.addresses.contains(a)]
        y.addresses.contains(a) ==> x.addresses.contains(a) || (a.interface == index
            && ops.contains(address_op(a, name)))
    &&& forall|v: AddAddressView|
        #![trigger ops.contains(DiffView::AddAddress(v))]
        ops.contains(DiffView::AddAddress(v)) ==> has_address(
            y.addresses,
            index,
            v.address,
            v.prefix_length,
        )
    &&& forall|r: RouteView|
        #![trigger x.routes.contains(r)]
        x.routes.contains(r) ==> y.routes.contains(r)
    &&& forall|r: RouteView|
        #![trigger y.routes.contains(r)]
        y.routes.contains(r) ==> x.routes.contains(r) || (r.interface == index && ops.contains(
            route_op(r, name),
        ))
    &&& forall|v: AddRouteView|
        #![trigger ops.contains(DiffView::AddRoute(v))]
        ops.contains(DiffView::AddRoute(v)) ==> has_route(
            y.routes,
            index,
            v.destination,
            v.destination_prefix_length,
        )
}

/// Applying additions of addresses and routes that all name one interface
/// adds just these, on that interface.
proof fn lemma_named_additions_applied(
    x: StateView,
    ops: Seq<DiffView>,
    name: Seq<char>,
    index: nat,
)
    requires
        index_of_name(x.interfaces, name) == Some(index),
        names_only(ops, name),
    ensures
        is_extended_by(x, ops, name, index, applied(x, ops)),
    decreases ops.len(),
{
    if ops.len() > 0 {
        let before = ops.drop_last();
        let op = ops.last();
        let z = applied(x, before);
        let y = applied(x, ops);
        assert(ops =~= before.push(op));
        assert forall|k: int| 0 <= k < before.len() implies ((#[trigger] before[k]) is AddAddress
            || before[k] is AddRoute) && operation_name(before[k]) == Some(name) by {
            assert(before[k] == ops[k]);
        }
        lemma_named_additions_applied(x, before, name, index);
        assert(operation_name(op) == Some(name));
        assert forall|e: DiffView| before.contains(e) implies ops.contains(e) by {
            vstd::seq_lib::lemma_seq_contains_after_push(before, op, e);
        }
        assert(ops.contains(op)) by {
            vstd::seq_lib::lemma_seq_contains_after_push(before, op, op);
        }
        assert forall|a: AddressView|
            #![trigger y.addresses.contains(a)]
            (z.addresses.contains(a) ==> y.addresses.contains(a)) && (y.addresses.contains(a)
                ==> x.addresses.contains(a) || (a.interface == index && ops.contains(
                address_op(a, name),
            ))) by {
            match op {
                DiffView::AddAddress(v) => {
                    vstd::seq_lib::lemma_seq_contains_after_push(
                        z.addresses,
                        added_address(z, v, index),
                        a,
                    );
                },
                _ => {},
            }
            if z.addresses.contains(a) {
                assert(x.addresses.contains(a) || (a.interface == index && before.contains(
                    address_op(a, name),
                )));
            }
        }
        assert forall|v: AddAddressView|
            #![trigger ops.contains(DiffView::AddAddress(v))]
            ops.contains(DiffView::AddAddress(v)) implies has_address(
            y.addresses,
            index,
            v.address,
            v.prefix_length,
        ) by {
            vstd::seq_lib::lemma_seq_contains_after_push(before, op, DiffView::AddAddress(v));
            if before.contains(DiffView::AddAddress(v)) {
                let k = choose|k: int|
                    0 <= k < z.addresses.len() && (#[trigger] z.addresses[k]).interface == index
                        && z.addresses[k].address == v.address && z.addresses[k].prefix_length
                        == v.prefix_length;
                assert(z.addresses.contains(z.addresses[k]));
                assert(y.addresses.contains(z.addresses[k]));
                let j = choose|j: int| 0 <= j < y.addresses.len() && y.addresses[j] == z.addresses[k];
                assert(y.addresses[j].interface == index);
            } else {
                let j = z.addresses.len() as int;
                assert(y.addresses[j] == added_address(z, v, index));
                assert(y.addresses[j].interface == index);
            }
        }
        assert forall|r: RouteView|
            #![trigger y.routes.contains(r)]
            (z.routes.contains(r) ==> y.routes.contains(r)) && (y.routes.contains(r)
                ==> x.routes.contains(r) || (r.interface == index && ops.contains(
                route_op(r, name),
            ))) by {
            match op {
                DiffView::AddRoute(v) => {
                    vstd::seq_lib::lemma_seq_contains_after_push(
                        z.routes,
                        added_route(z, v, index),
                        r,
                    );
                },
                _ => {},
            }
            if z.routes.contains(r) {
                assert(x.routes.contains(r) || (r.interface == index && before.contains(
                    route_op(r, name),
                )));
            }
        }
        assert forall|v: AddRouteView|
            #![trigger ops.contains(DiffView::AddRoute(v))]
            ops.contains(DiffView::AddRoute(v)) implies has_route(
            y.routes,
            index,
            v.destination,
            v.destination_prefix_length,
        ) by {
            vstd::seq_lib::lemma_seq_contains_after_push(before, op, DiffView::AddRoute(v));
            if before.contains(DiffView::AddRoute(v)) {
                let k = choose|k: int|
                    0 <= k < z.routes.len() && (#[trigger] z.routes[k]).interface == index
                        && z.routes[k].destination == v.destination
                        && z.routes[k].destination_prefix_length == v.destination_prefix_length;
                assert(z.routes.contains(z.routes[k]));
                assert(y.routes.contains(z.routes[k]));
                let j = choose|j: int| 0 <= j < y.routes.len() && y.routes[j] == z.routes[k];
                assert(y.routes[j].interface == index);
            } else {
                let j = z.routes.len() as int;
                assert(y.routes[j] == added_route(z, v, index));
                assert(y.routes[j].interface == index);
            }
        }
        assert forall|a: AddressView|
            #![trigger x.addresses.contains(a)]
            x.addresses.contains(a) implies y.addresses.contains(a) by {
            assert(z.addresses.contains(a));
        }
        assert forall|r: RouteView|
            #![trigger x.routes.contains(r)]
            x.routes.contains(r) implies y.routes.contains(r) by {
            assert(z.routes.contains(r));
        }
    }
}


/// Whether a route with this destination is one that the tenant wants.
pub open spec fn route_suits(spec: VpsView, destination: IpAddress, prefix_length: u8) -> bool {
    match destination {
        IpAddress::V4(d) => spec.v4_public.contains(d) && prefix_length == 32,
        IpAddress::V6(d) => d == spec.v6_prefix && prefix_length == 64,
    }
}

/// Whether a list adds, on the interface `name`, nothing but what the tenant
/// wants.
pub open spec fn ops_suit(spec: VpsView, name: Seq<char>, ops: Seq<DiffView>) -> bool {
    &&& names_only(ops, name)
    &&& forall|v: AddAddressView|
        #![trigger ops.contains(DiffView::AddAddress(v))]
        ops.contains(DiffView::AddAddress(v)) ==> v.address == IpAddress::V4(spec.v4_addr)
            && v.prefix_length == 31
    &&& forall|v: AddRouteView|
        #![trigger ops.contains(DiffView::AddRoute(v))]
        ops.contains(DiffView::AddRoute(v)) ==> route_suits(
            spec,
            v.destination,
            v.destination_prefix_length,
        )
}

/// Whether a list adds everything that the tenant wants and that `x` does
/// not hold on the interface `name` with kernel index `index`.
pub open spec fn ops_complete(
    spec: VpsView,
    name: Seq<char>,
    index: nat,
    x: StateView,
    ops: Seq<DiffView>,
) -> bool {
    &&& has_address(x.addresses, index, IpAddress::V4(spec.v4_addr), 31) || ops.contains(
        add_address_op(spec, name),
    )
    &&& forall|p: int|
        0 <= p < spec.v4_public.len() ==> has_route(
            x.routes,
            index,
            IpAddress::V4(#[trigger] spec.v4_public[p]),
            32,
        ) || ops.contains(add_public_route_op(spec.v4_public[p], name))
    &&& has_route(x.routes, index, IpAddress::V6(spec.v6_prefix), 64) || ops.contains(
        add_prefix_route_op(spec, name),
    )
}

/// What a tenant lacks on its existing interface is what it wants and the
/// snapshot does not hold.
proof fn lemma_kept_additions_suit(s: StateView, spec: VpsView, i: InterfaceView)
    ensures
        ops_suit(spec, i.name, kept_additions(s, spec, i)),
        ops_complete(spec, i.name, i.index, s, kept_additions(s, spec, i)),
{
    let ops = kept_additions(s, spec, i);
    let name = i.name;
    let first = if has_wanted_address(s.addresses, i.index, spec) {
        Seq::<DiffView>::empty()
    } else {
        seq![add_address_op(spec, name)]
    };
    let pred = lacks_public_route(s.routes, i.index);
    let f = add_public_route(name);
    let middle = spec.v4_public.filter(pred).map_values(f);
    let last = if has_route(s.routes, i.index, IpAddress::V6(spec.v6_prefix), 64) {
        Seq::<DiffView>::empty()
    } else {
        seq![add_prefix_route_op(spec, name)]
    };
    assert(ops == first + middle + last);
    assert forall|k: int| 0 <= k < ops.len() implies ((#[trigger] ops[k]) is AddAddress
        || ops[k] is AddRoute) && operation_name(ops[k]) == Some(name) && match ops[k] {
        DiffView::AddAddress(v) => v.address == IpAddress::V4(spec.v4_addr) && v.prefix_length
            == 31,
        DiffView::AddRoute(v) => route_suits(spec, v.destination, v.destination_prefix_length),
        _ => true,
    } by {
        if k < first.len() {
            assert(ops[k] == first[k]);
        } else if k < first.len() + middle.len() {
            assert(ops[k] == middle[k - first.len()]);
            let j = lemma_filter_map_source(spec.v4_public, pred, f, k - first.len());
            assert(spec.v4_public.contains(spec.v4_public[j]));
        } else {
            assert(ops[k] == last[k - first.len() - middle.len()]);
        }
    }
    assert forall|v: AddAddressView|
        #![trigger ops.contains(DiffView::AddAddress(v))]
        ops.contains(DiffView::AddAddress(v)) implies v.address == IpAddress::V4(spec.v4_addr)
        && v.prefix_length == 31 by {
        let k = choose|k: int| 0 <= k < ops.len() && ops[k] == DiffView::AddAddress(v);
        assert(ops[k] is AddAddress);
    }
    assert forall|v: AddRouteView|
        #![trigger ops.contains(DiffView::AddRoute(v))]
        ops.contains(DiffView::AddRoute(v)) implies route_suits(
        spec,
        v.destination,
        v.destination_prefix_length,
    ) by {
        let k = choose|k: int| 0 <= k < ops.len() && ops[k] == DiffView::AddRoute(v);
        assert(ops[k] is AddRoute);
    }
    if !has_wanted_address(s.addresses, i.index, spec) {
        assert(ops[0] == add_address_op(spec, name));
    } else {
        let k = choose|k: int|
            0 <= k < s.addresses.len() && (#[trigger] s.addresses[k]).interface == i.index
                && wanted_address(spec, s.addresses[k]);
        assert(s.addresses[k].interface == i.index);
        assert(has_address(s.addresses, i.index, IpAddress::V4(spec.v4_addr), 31));
    }
    assert forall|p: int| 0 <= p < spec.v4_public.len() implies has_route(
        s.routes,
        i.index,
        IpAddress::V4(#[trigger] spec.v4_public[p]),
        32,
    ) || ops.contains(add_public_route_op(spec.v4_public[p], name)) by {
        if !has_route(s.routes, i.index, IpAddress::V4(spec.v4_public[p]), 32) {
            lemma_filter_map_target(spec.v4_public, pred, f, p);
            let k = choose|k: int|
                0 <= k < middle.len() && middle[k] == f(spec.v4_public[p]);
            assert(ops[first.len() + k] == add_public_route_op(spec.v4_public[p], name));
        }
    }
    if !has_route(s.routes, i.index, IpAddress::V6(spec.v6_prefix), 64) {
        assert(ops[(first.len() + middle.len()) as int] == add_prefix_route_op(spec, name));
    }
}

/// What a new interface gets once it exists: the address, then the routes.
pub open spec fn new_entries(spec: VpsView, name: Seq<char>) -> Seq<DiffView> {
    seq![add_address_op(spec, name)] + spec.v4_public.map_values(add_public_route(name)) + seq![
        add_prefix_route_op(spec, name),
    ]
}

/// What a new interface gets is all that its tenant wants.
proof fn lemma_new_entries_suit(spec: VpsView, name: Seq<char>, index: nat, x: StateView)
    ensures
        ops_suit(spec, name, new_entries(spec, name)),
        ops_complete(spec, name, index, x, new_entries(spec, name)),
{
    let ops = new_entries(spec, name);
    let f = add_public_route(name);
    let middle = spec.v4_public.map_values(f);
    assert forall|k: int| 0 <= k < ops.len() implies ((#[trigger] ops[k]) is AddAddress
        || ops[k] is AddRoute) && operation_name(ops[k]) == Some(name) && match ops[k] {
        DiffView::AddAddress(v) => v.address == IpAddress::V4(spec.v4_addr) && v.prefix_length
            == 31,
        DiffView::AddRoute(v) => route_suits(spec, v.destination, v.destination_prefix_length),
        _ => true,
    } by {
        if 1 <= k < 1 + middle.len() {
            assert(ops[k] == middle[k - 1]);
            assert(spec.v4_public.contains(spec.v4_public[k - 1]));
        }
    }
    assert forall|v: AddAddressView|
        #![trigger ops.contains(DiffView::AddAddress(v))]
        ops.contains(DiffView::AddAddress(v)) implies v.address == IpAddress::V4(spec.v4_addr)
        && v.prefix_length == 31 by {
        let k = choose|k: int| 0 <= k < ops.len() && ops[k] == DiffView::AddAddress(v);
        assert(ops[k] is AddAddress);
    }
    assert forall|v: AddRouteView|
        #![trigger ops.contains(DiffView::AddRoute(v))]
        ops.contains(DiffView::AddRoute(v)) implies route_suits(
        spec,
        v.destination,
        v.destination_prefix_length,
    ) by {
        let k = choose|k: int| 0 <= k < ops.len() && ops[k] == DiffView::AddRoute(v);
        assert(ops[k] is AddRoute);
    }
    assert(ops[0] == add_address_op(spec, name));
    assert forall|p: int| 0 <= p < spec.v4_public.len() implies ops.contains(
        add_public_route_op(#[trigger] spec.v4_public[p], name),
    ) by {
        assert(ops[1 + p] == add_public_route_op(spec.v4_public[p], name));
    }
    assert(ops[(1 + middle.len()) as int] == add_prefix_route_op(spec, name));
}


/// Whether an interface serves the VLAN.
pub open spec fn has_interface(interfaces: Seq<InterfaceView>, vlan: u16) -> bool {
    exists|k: int| 0 <= k < interfaces.len() && (#[trigger] interfaces[k]).vlan == vlan
}

/// Whether the interface with this kernel index serves the VLAN.
pub open spec fn serving(interfaces: Seq<InterfaceView>, vlan: u16, index: nat) -> bool {
    exists|k: int|
        0 <= k < interfaces.len() && (#[trigger] interfaces[k]).vlan == vlan
            && interfaces[k].index == index
}

/// Whether an interface is the one that was created for tenant `t`.
pub open spec fn is_new_for(s: StateView, specs: Seq<VpsView>, t: int, i: InterfaceView) -> bool {
    matched_interface(s.interfaces, specs[t].vlan) is None && i.vlan == specs[t].vlan && i.name
        == assigned_name(s.interfaces, specs, t)
}

/// Whether an interface is one that the removals left or one that was
/// created for one of the first `n` tenants.
pub open spec fn interface_is_accounted(
    s: StateView,
    specs: Seq<VpsView>,
    left: StateView,
    n: int,
    i: InterfaceView,
) -> bool {
    left.interfaces.contains(i) || exists|t: int|
        0 <= t < n && #[trigger] is_new_for(s, specs, t, i)
}

/// Whether an address sits on the interface of tenant `t` and is the one
/// that the tenant wants.
pub open spec fn address_is_owned(x: StateView, specs: Seq<VpsView>, t: int, a: AddressView)
    -> bool {
    serving(x.interfaces, specs[t].vlan, a.interface) && wanted_address(specs[t], a)
}

/// Whether a route runs through the interface of tenant `t` and is one that
/// the tenant wants.
pub open spec fn route_is_owned(x: StateView, specs: Seq<VpsView>, t: int, r: RouteView) -> bool {
    serving(x.interfaces, specs[t].vlan, r.interface) && wanted_route(specs[t], r)
}

/// Whether an address is one that the removals left or one that one of the
/// first `n` tenants owns.
pub open spec fn address_is_accounted(
    specs: Seq<VpsView>,
    left: StateView,
    x: StateView,
    n: int,
    a: AddressView,
) -> bool {
    left.addresses.contains(a) || exists|t: int|
        0 <= t < n && #[trigger] address_is_owned(x, specs, t, a)
}

/// Whether a route is one that the removals left or one that one of the
/// first `n` tenants owns.
pub open spec fn route_is_accounted(
    specs: Seq<VpsView>,
    left: StateView,
    x: StateView,
    n: int,
    r: RouteView,
) -> bool {
    left.routes.contains(r) || exists|t: int|
        0 <= t < n && #[trigger] route_is_owned(x, specs, t, r)
}

/// Whether tenant `t` has its private address on its interface.
pub open spec fn has_owned_address(x: StateView, specs: Seq<VpsView>, t: int) -> bool {
    exists|j: int|
        0 <= j < x.addresses.len() && address_is_owned(x, specs, t, #[trigger] x.addresses[j])
}

/// Whether tenant `t` has a route to the destination through its interface.
pub open spec fn has_owned_route(
    x: StateView,
    specs: Seq<VpsView>,
    t: int,
    destination: IpAddress,
    prefix_length: u8,
) -> bool {
    exists|j: int|
        0 <= j < x.routes.len() && serving(
            x.interfaces,
            specs[t].vlan,
            (#[trigger] x.routes[j]).interface,
        ) && x.routes[j].destination == destination && x.routes[j].destination_prefix_length
            == prefix_length
}

/// Whether tenant `t` has its address and all its routes on its interface.
pub open spec fn has_entries(x: StateView, specs: Seq<VpsView>, t: int) -> bool {
    &&& has_owned_address(x, specs, t)
    &&& forall|p: int|
        0 <= p < specs[t].v4_public.len() ==> has_owned_route(
            x,
            specs,
            t,
            IpAddress::V4(#[trigger] specs[t].v4_public[p]),
            32,
        )
    &&& has_owned_route(x, specs, t, IpAddress::V6(specs[t].v6_prefix), 64)
}

/// Whether the addresses and routes of `x` are those that the removals left
/// and those that the first `n` tenants want, each of these tenants having
/// all of its own.
pub open spec fn entries_hold(specs: Seq<VpsView>, left: StateView, x: StateView, n: int) -> bool {
    &&& forall|a: AddressView|
        #![trigger left.addresses.contains(a)]
        left.addresses.contains(a) ==> x.addresses.contains(a)
    &&& forall|a: AddressView|
        #![trigger x.addresses.contains(a)]
        x.addresses.contains(a) ==> address_is_accounted(specs, left, x, n, a)
    &&& forall|r: RouteView|
        #![trigger left.routes.contains(r)]
        left.routes.contains(r) ==> x.routes.contains(r)
    &&& forall|r: RouteView|
        #![trigger x.routes.contains(r)]
        x.routes.contains(r) ==> route_is_accounted(specs, left, x, n, r)
    &&& forall|t: int| 0 <= t < n ==> #[trigger] has_entries(x, specs, t)
}

/// Giving tenant `t` what it lacks on its interface leaves the first `t + 1`
/// tenants with all their entries, and adds nothing else.
proof fn lemma_tenant_entries(
    specs: Seq<VpsView>,
    left: StateView,
    x: StateView,
    t: int,
    ops: Seq<DiffView>,
    name: Seq<char>,
    index: nat,
)
    requires
        0 <= t < specs.len(),
        index_of_name(x.interfaces, name) == Some(index),
        serving(x.interfaces, specs[t].vlan, index),
        entries_hold(specs, left, x, t),
        ops_suit(specs[t], name, ops),
        ops_complete(specs[t], name, index, x, ops),
    ensures
        applied(x, ops).interfaces == x.interfaces,
        entries_hold(specs, left, applied(x, ops), t + 1),
{
    let y = applied(x, ops);
    let spec = specs[t];
    lemma_named_additions_applied(x, ops, name, index);
    assert forall|a: AddressView|
        #![trigger y.addresses.contains(a)]
        y.addresses.contains(a) implies address_is_accounted(specs, left, y, t + 1, a) by {
        if x.addresses.contains(a) {
            assert(address_is_accounted(specs, left, x, t, a));
            if !left.addresses.contains(a) {
                let u = choose|u: int| 0 <= u < t && #[trigger] address_is_owned(x, specs, u, a);
                assert(address_is_owned(y, specs, u, a));
            }
        } else {
            assert(ops.contains(address_op(a, name)));
            assert(address_is_owned(y, specs, t, a));
        }
    }
    assert forall|r: RouteView|
        #![trigger y.routes.contains(r)]
        y.routes.contains(r) implies route_is_accounted(specs, left, y, t + 1, r) by {
        if x.routes.contains(r) {
            assert(route_is_accounted(specs, left, x, t, r));
            if !left.routes.contains(r) {
                let u = choose|u: int| 0 <= u < t && #[trigger] route_is_owned(x, specs, u, r);
                assert(route_is_owned(y, specs, u, r));
            }
        } else {
            assert(ops.contains(route_op(r, name)));
            assert(route_is_owned(y, specs, t, r));
        }
    }
    assert forall|u: int| 0 <= u < t + 1 implies #[trigger] has_entries(y, specs, u) by {
        if u < t {
            assert(has_entries(x, specs, u));
            lemma_entries_stay(x, y, specs, u);
        } else {
            lemma_owned_address(x, y, spec, name, index, ops);
            assert(has_owned_address(y, specs, t)) by {
                let j = choose|j: int|
                    0 <= j < y.addresses.len() && (#[trigger] y.addresses[j]).interface == index
                        && y.addresses[j].address == IpAddress::V4(spec.v4_addr)
                        && y.addresses[j].prefix_length == 31;
                assert(address_is_owned(y, specs, t, y.addresses[j]));
            }
            assert forall|p: int| 0 <= p < spec.v4_public.len() implies has_owned_route(
                y,
                specs,
                t,
                IpAddress::V4(#[trigger] spec.v4_public[p]),
                32,
            ) by {
                let d = IpAddress::V4(spec.v4_public[p]);
                lemma_owned_route(x, y, name, index, ops, d, 32);
                let j = choose|j: int|
                    0 <= j < y.routes.len() && (#[trigger] y.routes[j]).interface == index
                        && y.routes[j].destination == d && y.routes[j].destination_prefix_length
                        == 32;
                assert(serving(y.interfaces, specs[t].vlan, y.routes[j].interface));
            }
            assert(has_owned_route(y, specs, t, IpAddress::V6(spec.v6_prefix), 64)) by {
                let d = IpAddress::V6(spec.v6_prefix);
                lemma_owned_route(x, y, name, index, ops, d, 64);
                let j = choose|j: int|
                    0 <= j < y.routes.len() && (#[trigger] y.routes[j]).interface == index
                        && y.routes[j].destination == d && y.routes[j].destination_prefix_length
                        == 64;
                assert(serving(y.interfaces, specs[t].vlan, y.routes[j].interface));
            }
        }
    }
}

/// A tenant keeps its entries where nothing is taken away and every
/// interface stays.
proof fn lemma_entries_stay(x: StateView, y: StateView, specs: Seq<VpsView>, u: int)
    requires
        has_entries(x, specs, u),
        forall|i: InterfaceView|
            #![trigger x.interfaces.contains(i)]
            x.interfaces.contains(i) ==> y.interfaces.contains(i),
        forall|a: AddressView|
            #![trigger x.addresses.contains(a)]
            x.addresses.contains(a) ==> y.addresses.contains(a),
        forall|r: RouteView|
            #![trigger x.routes.contains(r)]
            x.routes.contains(r) ==> y.routes.contains(r),
    ensures
        has_entries(y, specs, u),
{
    let vlan = specs[u].vlan;
    assert forall|index: nat| serving(x.interfaces, vlan, index) implies serving(
        y.interfaces,
        vlan,
        index,
    ) by {
        let k = choose|k: int|
            0 <= k < x.interfaces.len() && (#[trigger] x.interfaces[k]).vlan == vlan
                && x.interfaces[k].index == index;
        assert(x.interfaces.contains(x.interfaces[k]));
        let i = x.interfaces[k];
        assert(y.interfaces.contains(i));
        let q = choose|q: int| 0 <= q < y.interfaces.len() && y.interfaces[q] == i;
        assert(y.interfaces[q].vlan == vlan);
    }
    let j = choose|j: int|
        0 <= j < x.addresses.len() && address_is_owned(x, specs, u, #[trigger] x.addresses[j]);
    let a = x.addresses[j];
    assert(x.addresses.contains(a));
    assert(y.addresses.contains(a));
    let q = choose|q: int| 0 <= q < y.addresses.len() && y.addresses[q] == a;
    assert(address_is_owned(y, specs, u, y.addresses[q]));
    assert forall|p: int| 0 <= p < specs[u].v4_public.len() implies has_owned_route(
        y,
        specs,
        u,
        IpAddress::V4(#[trigger] specs[u].v4_public[p]),
        32,
    ) by {
        lemma_owned_route_stays(x, y, specs, u, IpAddress::V4(specs[u].v4_public[p]), 32);
    }
    lemma_owned_route_stays(x, y, specs, u, IpAddress::V6(specs[u].v6_prefix), 64);
}

/// A tenant keeps a route where nothing is taken away and every interface
/// stays.
proof fn lemma_owned_route_stays(
    x: StateView,
    y: StateView,
    specs: Seq<VpsView>,
    u: int,
    destination: IpAddress,
    prefix_length: u8,
)
    requires
        has_owned_route(x, specs, u, destination, prefix_length),
        forall|index: nat|
            serving(x.interfaces, specs[u].vlan, index) ==> serving(
                y.interfaces,
                specs[u].vlan,
                index,
            ),
        forall|r: RouteView|
            #![trigger x.routes.contains(r)]
            x.routes.contains(r) ==> y.routes.contains(r),
    ensures
        has_owned_route(y, specs, u, destination, prefix_length),
{
    let j = choose|j: int|
        0 <= j < x.routes.len() && serving(
            x.interfaces,
            specs[u].vlan,
            (#[trigger] x.routes[j]).interface,
        ) && x.routes[j].destination == destination && x.routes[j].destination_prefix_length
            == prefix_length;
    let r = x.routes[j];
    assert(x.routes.contains(r));
    assert(y.routes.contains(r));
    let q = choose|q: int| 0 <= q < y.routes.len() && y.routes[q] == r;
    assert(serving(y.interfaces, specs[u].vlan, y.routes[q].interface));
}

/// After the additions the interface holds the tenant's private address.
proof fn lemma_owned_address(
    x: StateView,
    y: StateView,
    spec: VpsView,
    name: Seq<char>,
    index: nat,
    ops: Seq<DiffView>,
)
    requires
        is_extended_by(x, ops, name, index, y),
        has_address(x.addresses, index, IpAddress::V4(spec.v4_addr), 31) || ops.contains(
            add_address_op(spec, name),
        ),
    ensures
        has_address(y.addresses, index, IpAddress::V4(spec.v4_addr), 31),
{
    if has_address(x.addresses, index, IpAddress::V4(spec.v4_addr), 31) {
        let k = choose|k: int|
            0 <= k < x.addresses.len() && (#[trigger] x.addresses[k]).interface == index
                && x.addresses[k].address == IpAddress::V4(spec.v4_addr)
                && x.addresses[k].prefix_length == 31;
        let a = x.addresses[k];
        assert(x.addresses.contains(a));
        assert(y.addresses.contains(a));
        let q = choose|q: int| 0 <= q < y.addresses.len() && y.addresses[q] == a;
        assert(y.addresses[q].interface == index);
    } else {
        let v = AddAddressView {
            address: IpAddress::V4(spec.v4_addr),
            prefix_length: 31,
            interface_name: name,
        };
        assert(ops.contains(DiffView::AddAddress(v)));
    }
}

/// After the additions the interface holds a route that was there or was
/// added.
proof fn lemma_owned_route(
    x: StateView,
    y: StateView,
    name: Seq<char>,
    index: nat,
    ops: Seq<DiffView>,
    destination: IpAddress,
    prefix_length: u8,
)
    requires
        is_extended_by(x, ops, name, index, y),
        has_route(x.routes, index, destination, prefix_length) || ops.contains(
            DiffView::AddRoute(
                AddRouteView {
                    destination,
                    destination_prefix_length: prefix_length,
                    interface_name: name,
                },
            ),
        ),
    ensures
        has_route(y.routes, index, destination, prefix_length),
{
    if has_route(x.routes, index, destination, prefix_length) {
        let k = choose|k: int|
            0 <= k < x.routes.len() && (#[trigger] x.routes[k]).interface == index
                && x.routes[k].destination == destination
                && x.routes[k].destination_prefix_length == prefix_length;
        let r = x.routes[k];
        assert(x.routes.contains(r));
        assert(y.routes.contains(r));
        let q = choose|q: int| 0 <= q < y.routes.len() && y.routes[q] == r;
        assert(y.routes[q].interface == index);
    }
}


/// Whether the interfaces of `x` are those that the removals left and those
/// created for the first `n` tenants, each of these tenants having one, all
/// told apart, and nothing that the removals left sits on a created one.
pub open spec fn interfaces_hold(
    s: StateView,
    specs: Seq<VpsView>,
    left: StateView,
    x: StateView,
    n: int,
) -> bool {
    &&& interfaces_are_distinct(x.interfaces)
    &&& forall|i: InterfaceView|
        #![trigger left.interfaces.contains(i)]
        left.interfaces.contains(i) ==> x.interfaces.contains(i)
    &&& forall|i: InterfaceView|
        #![trigger x.interfaces.contains(i)]
        x.interfaces.contains(i) ==> interface_is_accounted(s, specs, left, n, i)
    &&& forall|t: int| 0 <= t < n ==> has_interface(x.interfaces, (#[trigger] specs[t]).vlan)
    &&& forall|i: InterfaceView, a: AddressView|
        #![trigger x.interfaces.contains(i), left.addresses.contains(a)]
        x.interfaces.contains(i) && !left.interfaces.contains(i) && left.addresses.contains(a)
            ==> a.interface != i.index
    &&& forall|i: InterfaceView, r: RouteView|
        #![trigger x.interfaces.contains(i), left.routes.contains(r)]
        x.interfaces.contains(i) && !left.interfaces.contains(i) && left.routes.contains(r)
            ==> r.interface != i.index
}

/// The interface of a tenant that has one in the snapshot is left in place,
/// and no other tenant is served by an interface with its kernel index.
proof fn lemma_kept_interface(s: StateView, specs: Seq<VpsView>, left: StateView, t: int)
    requires
        is_consistent(s),
        tenants_are_distinct(specs),
        is_thinned(s, specs, left),
        0 <= t < specs.len(),
        matched_interface(s.interfaces, specs[t].vlan) is Some,
    ensures
        left.interfaces.contains(matched_interface(s.interfaces, specs[t].vlan)->Some_0),
        s.interfaces.contains(matched_interface(s.interfaces, specs[t].vlan)->Some_0),
        matched_interface(s.interfaces, specs[t].vlan)->Some_0.vlan == specs[t].vlan,
        is_kept(
            s.interfaces,
            specs,
            matched_interface(s.interfaces, specs[t].vlan)->Some_0.index,
        ),
        forall|u: int|
            0 <= u < specs.len() && matched_index(s.interfaces, (#[trigger] specs[u]).vlan)
                == matched_index(s.interfaces, specs[t].vlan) ==> u == t,
{
    let i = matched_interface(s.interfaces, specs[t].vlan)->Some_0;
    let p = lemma_find_vlan(s.interfaces, specs[t].vlan, 0);
    assert(s.interfaces.contains(s.interfaces[p]));
    assert(matched_index(s.interfaces, specs[t].vlan) == Some(i.index));
    assert(is_kept_among(s.interfaces, specs, specs.len() as int, i.index));
    assert forall|u: int|
        0 <= u < specs.len() && matched_index(s.interfaces, (#[trigger] specs[u]).vlan)
            == matched_index(s.interfaces, specs[t].vlan) implies u == t by {
        let q = lemma_find_vlan(s.interfaces, specs[u].vlan, 0);
        if p < q {
            assert(s.interfaces[p].index != s.interfaces[q].index);
        } else if q < p {
            assert(s.interfaces[q].index != s.interfaces[p].index);
        }
        if u < t {
            assert(specs[u].vlan != specs[t].vlan);
        } else if t < u {
            assert(specs[t].vlan != specs[u].vlan);
        }
    }
}

/// The private address that a tenant has on its interface in the snapshot is
/// left in place.
proof fn lemma_wanted_address_is_left(
    s: StateView,
    specs: Seq<VpsView>,
    left: StateView,
    t: int,
    k: int,
)
    requires
        is_consistent(s),
        tenants_are_distinct(specs),
        is_thinned(s, specs, left),
        0 <= t < specs.len(),
        0 <= k < s.addresses.len(),
        matched_index(s.interfaces, specs[t].vlan) == Some(s.addresses[k].interface),
        wanted_address(specs[t], s.addresses[k]),
    ensures
        left.addresses.contains(s.addresses[k]),
{
    let a = s.addresses[k];
    lemma_kept_interface(s, specs, left, t);
    assert(s.addresses.contains(a));
    if address_is_dropped(s, specs, a.message) {
        let u = choose|u: int|
            0 <= u < specs.len() && #[trigger] is_dropped_for(s, specs, u, a.message);
        let j = choose|j: int|
            0 <= j < s.addresses.len() && matched_index(s.interfaces, specs[u].vlan) == Some(
                (#[trigger] s.addresses[j]).interface,
            ) && !wanted_address(specs[u], s.addresses[j]) && s.addresses[j].message
                == a.message;
        if j < k {
            assert(s.addresses[j].message != s.addresses[k].message);
        } else if k < j {
            assert(s.addresses[k].message != s.addresses[j].message);
        }
        assert(matched_index(s.interfaces, specs[u].vlan) == matched_index(
            s.interfaces,
            specs[t].vlan,
        ));
        assert(u == t);
    }
}

/// A route that a tenant wants and has on its interface in the snapshot is
/// left in place.
proof fn lemma_wanted_route_is_left(
    s: StateView,
    specs: Seq<VpsView>,
    left: StateView,
    t: int,
    k: int,
)
    requires
        is_consistent(s),
        tenants_are_distinct(specs),
        is_thinned(s, specs, left),
        0 <= t < specs.len(),
        0 <= k < s.routes.len(),
        matched_index(s.interfaces, specs[t].vlan) == Some(s.routes[k].interface),
        wanted_route(specs[t], s.routes[k]),
    ensures
        left.routes.contains(s.routes[k]),
{
    let r = s.routes[k];
    lemma_kept_interface(s, specs, left, t);
    assert(s.routes.contains(r));
    assert(retained_within(
        s.routes,
        s.routes.len() as int,
        r.interface,
        specs[t],
        r.message,
    ));
    assert(is_retained_for(s, specs, t, r.message));
    assert(is_retained_among(s, specs, specs.len() as int, r.message));
}

/// Giving a tenant what it lacks on the interface it has settles it.
proof fn lemma_kept_tenant_step(
    s: StateView,
    specs: Seq<VpsView>,
    link: nat,
    left: StateView,
    x: StateView,
    t: int,
)
    requires
        is_consistent(s),
        tenants_are_distinct(specs),
        is_thinned(s, specs, left),
        0 <= t < specs.len(),
        matched_interface(s.interfaces, specs[t].vlan) is Some,
        interfaces_hold(s, specs, left, x, t),
        entries_hold(specs, left, x, t),
    ensures
        interfaces_hold(s, specs, left, applied(x, tenant_additions(s, specs, link, t)), t + 1),
        entries_hold(specs, left, applied(x, tenant_additions(s, specs, link, t)), t + 1),
{
    let spec = specs[t];
    let i = matched_interface(s.interfaces, spec.vlan)->Some_0;
    let ops = kept_additions(s, spec, i);
    let y = applied(x, ops);
    lemma_kept_interface(s, specs, left, t);
    assert(x.interfaces.contains(i));
    let k = choose|k: int| 0 <= k < x.interfaces.len() && x.interfaces[k] == i;
    lemma_name_resolves(x.interfaces, k);
    assert(x.interfaces[k].vlan == spec.vlan);
    assert(serving(x.interfaces, spec.vlan, i.index));
    lemma_kept_additions_suit(s, spec, i);
    assert(ops_complete(spec, i.name, i.index, x, ops)) by {
        if has_address(s.addresses, i.index, IpAddress::V4(spec.v4_addr), 31) {
            let j = choose|j: int|
                0 <= j < s.addresses.len() && (#[trigger] s.addresses[j]).interface == i.index
                    && s.addresses[j].address == IpAddress::V4(spec.v4_addr)
                    && s.addresses[j].prefix_length == 31;
            lemma_wanted_address_is_left(s, specs, left, t, j);
            lemma_has_address(x.addresses, s.addresses[j]);
        }
        assert forall|p: int| 0 <= p < spec.v4_public.len() implies has_route(
            x.routes,
            i.index,
            IpAddress::V4(#[trigger] spec.v4_public[p]),
            32,
        ) || ops.contains(add_public_route_op(spec.v4_public[p], i.name)) by {
            let d = IpAddress::V4(spec.v4_public[p]);
            if has_route(s.routes, i.index, d, 32) {
                let j = choose|j: int|
                    0 <= j < s.routes.len() && (#[trigger] s.routes[j]).interface == i.index
                        && s.routes[j].destination == d && s.routes[j].destination_prefix_length
                        == 32;
                assert(spec.v4_public.contains(spec.v4_public[p]));
                lemma_wanted_route_is_left(s, specs, left, t, j);
                lemma_has_route(x.routes, s.routes[j]);
            }
        }
        let d = IpAddress::V6(spec.v6_prefix);
        if has_route(s.routes, i.index, d, 64) {
            let j = choose|j: int|
                0 <= j < s.routes.len() && (#[trigger] s.routes[j]).interface == i.index
                    && s.routes[j].destination == d && s.routes[j].destination_prefix_length
                    == 64;
            lemma_wanted_route_is_left(s, specs, left, t, j);
            lemma_has_route(x.routes, s.routes[j]);
        }
    }
    lemma_tenant_entries(specs, left, x, t, ops, i.name, i.index);
    assert forall|e: InterfaceView|
        #![trigger y.interfaces.contains(e)]
        y.interfaces.contains(e) implies interface_is_accounted(s, specs, left, t + 1, e) by {
        assert(interface_is_accounted(s, specs, left, t, e));
        if !left.interfaces.contains(e) {
            let u = choose|u: int| 0 <= u < t && #[trigger] is_new_for(s, specs, u, e);
            assert(is_new_for(s, specs, u, e));
        }
    }
    assert forall|u: int| 0 <= u < t + 1 implies has_interface(
        y.interfaces,
        (#[trigger] specs[u]).vlan,
    ) by {
        if u == t {
            assert(y.interfaces[k].vlan == spec.vlan);
        }
    }
}

/// An address that a state holds is found by its fields.
proof fn lemma_has_address(addresses: Seq<AddressView>, a: AddressView)
    requires
        addresses.contains(a),
    ensures
        has_address(addresses, a.interface, a.address, a.prefix_length),
{
    let k = choose|k: int| 0 <= k < addresses.len() && addresses[k] == a;
    assert(addresses[k].interface == a.interface);
}

/// A route that a state holds is found by its fields.
proof fn lemma_has_route(routes: Seq<RouteView>, r: RouteView)
    requires
        routes.contains(r),
    ensures
        has_route(routes, r.interface, r.destination, r.destination_prefix_length),
{
    let k = choose|k: int| 0 <= k < routes.len() && routes[k] == r;
    assert(routes[k].interface == r.interface);
}


/// Creating an interface for a tenant that has none, and giving it all the
/// tenant wants, settles the tenant.
proof fn lemma_new_tenant_step(
    s: StateView,
    specs: Seq<VpsView>,
    link: nat,
    left: StateView,
    x: StateView,
    t: int,
)
    requires
        is_consistent(s),
        tenants_are_distinct(specs),
        numbers_fit(s, specs),
        is_thinned(s, specs, left),
        0 <= t < specs.len(),
        matched_interface(s.interfaces, specs[t].vlan) is None,
        interfaces_hold(s, specs, left, x, t),
        entries_hold(specs, left, x, t),
    ensures
        interfaces_hold(s, specs, left, applied(x, tenant_additions(s, specs, link, t)), t + 1),
        entries_hold(specs, left, applied(x, tenant_additions(s, specs, link, t)), t + 1),
{
    let spec = specs[t];
    let name = assigned_name(s.interfaces, specs, t);
    let ops = new_additions(spec, name, link);
    let create = DiffView::AddInterface(InterfaceView { name, index: 0, link, vlan: spec.vlan });
    let index = fresh_index(x);
    let made = InterfaceView { name, index, link, vlan: spec.vlan };
    let x1 = apply_op(x, create);
    let entries = new_entries(spec, name);
    assert(ops =~= seq![create] + entries);
    assert(applied(x, seq![create]) == x1) by {
        assert(seq![create].drop_last() =~= Seq::<DiffView>::empty());
        assert(applied(x, seq![create].drop_last()) == x);
    }
    lemma_applied_concat(x, seq![create], entries);
    let y = applied(x1, entries);
    assert(applied(x, ops) == y);
    let n = x.interfaces.len() as int;
    assert(x1.interfaces == x.interfaces.push(made));
    assert(x1.addresses == x.addresses);
    assert(x1.routes == x.routes);
    let empty: Seq<char> = Seq::empty();
    theorem_new_names_are_unused(s, specs, t, empty);
    let p = lemma_find_vlan(s.interfaces, spec.vlan, 0);
    assert forall|a: int| 0 <= a < n implies (#[trigger] x.interfaces[a]).name != name
        && x.interfaces[a].vlan != spec.vlan && x.interfaces[a].index != index by {
        let e = x.interfaces[a];
        assert(x.interfaces.contains(e));
        assert(interface_is_accounted(s, specs, left, t, e));
        if left.interfaces.contains(e) {
            assert(s.interfaces.contains(e));
            let q = choose|q: int| 0 <= q < s.interfaces.len() && s.interfaces[q] == e;
            assert(s.interfaces[q].name != name);
            assert(s.interfaces[q].vlan != spec.vlan);
        } else {
            let u = choose|u: int| 0 <= u < t && #[trigger] is_new_for(s, specs, u, e);
            lemma_unmatched_count_grows(s.interfaces, specs, u + 1, t);
            lemma_names_differ(
                assigned_number(s.interfaces, specs, u),
                assigned_number(s.interfaces, specs, t),
            );
            assert(specs[u].vlan != specs[t].vlan);
        }
        lemma_greatest_bounds(x.interfaces.map_values(interface_index()), a);
    }
    assert(interfaces_are_distinct(x1.interfaces)) by {
        assert forall|a: int, b: int| 0 <= a < b < x1.interfaces.len() implies (
        #[trigger] x1.interfaces[a]).name != (#[trigger] x1.interfaces[b]).name
            && x1.interfaces[a].index != x1.interfaces[b].index && x1.interfaces[a].vlan
            != x1.interfaces[b].vlan by {
            if b < n {
                assert(x1.interfaces[a] == x.interfaces[a]);
                assert(x1.interfaces[b] == x.interfaces[b]);
                assert(x.interfaces[a].name != x.interfaces[b].name);
                assert(x.interfaces[a].index != x.interfaces[b].index);
                assert(x.interfaces[a].vlan != x.interfaces[b].vlan);
            } else {
                assert(x1.interfaces[a] == x.interfaces[a]);
            }
        }
    }
    assert forall|e: InterfaceView|
        #![trigger x1.interfaces.contains(e)]
        (x.interfaces.contains(e) ==> x1.interfaces.contains(e)) && (x1.interfaces.contains(e)
            ==> x.interfaces.contains(e) || e == made) by {
        vstd::seq_lib::lemma_seq_contains_after_push(x.interfaces, made, e);
    }
    assert(!left.interfaces.contains(made)) by {
        if left.interfaces.contains(made) {
            assert(x.interfaces.contains(made));
            let a = choose|a: int| 0 <= a < n && x.interfaces[a] == made;
            assert(x.interfaces[a].name != name);
        }
    }
    assert(is_new_for(s, specs, t, made));
    assert(x1.interfaces[n] == made);
    assert(interfaces_hold(s, specs, left, x1, t + 1)) by {
        assert forall|e: InterfaceView|
            #![trigger left.interfaces.contains(e)]
            left.interfaces.contains(e) implies x1.interfaces.contains(e) by {
            assert(x.interfaces.contains(e));
        }
        assert forall|e: InterfaceView|
            #![trigger x1.interfaces.contains(e)]
            x1.interfaces.contains(e) implies interface_is_accounted(
            s,
            specs,
            left,
            t + 1,
            e,
        ) by {
            if x.interfaces.contains(e) {
                assert(interface_is_accounted(s, specs, left, t, e));
                if !left.interfaces.contains(e) {
                    let u = choose|u: int| 0 <= u < t && #[trigger] is_new_for(s, specs, u, e);
                    assert(is_new_for(s, specs, u, e));
                }
            }
        }
        assert forall|u: int| 0 <= u < t + 1 implies has_interface(
            x1.interfaces,
            (#[trigger] specs[u]).vlan,
        ) by {
            if u < t {
                assert(has_interface(x.interfaces, specs[u].vlan));
                let k = choose|k: int|
                    0 <= k < x.interfaces.len() && (#[trigger] x.interfaces[k]).vlan
                        == specs[u].vlan;
                assert(x1.interfaces[k].vlan == specs[u].vlan);
            } else {
                assert(x1.interfaces[n].vlan == specs[u].vlan);
            }
        }
        assert forall|e: InterfaceView, a: AddressView|
            #![trigger x1.interfaces.contains(e), left.addresses.contains(a)]
            x1.interfaces.contains(e) && !left.interfaces.contains(e) && left.addresses.contains(
                a,
            ) implies a.interface != e.index by {
            if x.interfaces.contains(e) {
            } else {
                assert(x.addresses.contains(a));
                let j = choose|j: int| 0 <= j < x.addresses.len() && x.addresses[j] == a;
                lemma_greatest_bounds(x.addresses.map_values(address_interface()), j);
            }
        }
        assert forall|e: InterfaceView, r: RouteView|
            #![trigger x1.interfaces.contains(e), left.routes.contains(r)]
            x1.interfaces.contains(e) && !left.interfaces.contains(e) && left.routes.contains(
                r,
            ) implies r.interface != e.index by {
            if x.interfaces.contains(e) {
            } else {
                assert(x.routes.contains(r));
                let j = choose|j: int| 0 <= j < x.routes.len() && x.routes[j] == r;
                lemma_greatest_bounds(x.routes.map_values(route_interface()), j);
            }
        }
    }
    assert(entries_hold(specs, left, x1, t)) by {
        assert forall|a: AddressView|
            #![trigger x1.addresses.contains(a)]
            x1.addresses.contains(a) implies address_is_accounted(specs, left, x1, t, a) by {
            assert(address_is_accounted(specs, left, x, t, a));
            if !left.addresses.contains(a) {
                let u = choose|u: int| 0 <= u < t && #[trigger] address_is_owned(x, specs, u, a);
                lemma_serving_stays(x.interfaces, x1.interfaces, specs[u].vlan, a.interface);
                assert(address_is_owned(x1, specs, u, a));
            }
        }
        assert forall|r: RouteView|
            #![trigger x1.routes.contains(r)]
            x1.routes.contains(r) implies route_is_accounted(specs, left, x1, t, r) by {
            assert(route_is_accounted(specs, left, x, t, r));
            if !left.routes.contains(r) {
                let u = choose|u: int| 0 <= u < t && #[trigger] route_is_owned(x, specs, u, r);
                lemma_serving_stays(x.interfaces, x1.interfaces, specs[u].vlan, r.interface);
                assert(route_is_owned(x1, specs, u, r));
            }
        }
        assert forall|u: int| 0 <= u < t implies #[trigger] has_entries(x1, specs, u) by {
            assert(has_entries(x, specs, u));
            lemma_entries_stay(x, x1, specs, u);
        }
    }
    lemma_name_resolves(x1.interfaces, n);
    assert(x1.interfaces[n].vlan == spec.vlan);
    assert(serving(x1.interfaces, spec.vlan, index));
    lemma_new_entries_suit(spec, name, index, x1);
    lemma_tenant_entries(specs, left, x1, t, entries, name, index);
}

/// An interface that serves a VLAN still does where every interface stays.
proof fn lemma_serving_stays(
    before: Seq<InterfaceView>,
    after: Seq<InterfaceView>,
    vlan: u16,
    index: nat,
)
    requires
        serving(before, vlan, index),
        forall|i: InterfaceView|
            #![trigger before.contains(i)]
            before.contains(i) ==> after.contains(i),
    ensures
        serving(after, vlan, index),
{
    let k = choose|k: int|
        0 <= k < before.len() && (#[trigger] before[k]).vlan == vlan && before[k].index == index;
    let i = before[k];
    assert(before.contains(i));
    assert(after.contains(i));
    let q = choose|q: int| 0 <= q < after.len() && after[q] == i;
    assert(after[q].vlan == vlan);
}

/// After the additions for the first `n` tenants, these tenants have their
/// interfaces and all their entries.
proof fn lemma_additions_applied(
    s: StateView,
    specs: Seq<VpsView>,
    link: nat,
    left: StateView,
    n: int,
)
    requires
        is_consistent(s),
        tenants_are_distinct(specs),
        numbers_fit(s, specs),
        is_thinned(s, specs, left),
        0 <= n <= specs.len(),
    ensures
        interfaces_hold(s, specs, left, applied(left, additions(s, specs, link, n)), n),
        entries_hold(specs, left, applied(left, additions(s, specs, link, n)), n),
    decreases n,
{
    if n == 0 {
        assert(applied(left, additions(s, specs, link, 0)) == left);
    } else {
        lemma_additions_applied(s, specs, link, left, n - 1);
        let earlier = additions(s, specs, link, n - 1);
        let last = tenant_additions(s, specs, link, n - 1);
        let x = applied(left, earlier);
        lemma_applied_concat(left, earlier, last);
        if matched_interface(s.interfaces, specs[n - 1].vlan) is Some {
            lemma_kept_tenant_step(s, specs, link, left, x, n - 1);
        } else {
            lemma_new_tenant_step(s, specs, link, left, x, n - 1);
        }
    }
}


/// Where VLANs tell interfaces apart, the interface that is serving a VLAN
/// is the one that reconciliation finds for it.
proof fn lemma_serving_is_matched(interfaces: Seq<InterfaceView>, vlan: u16, index: nat)
    requires
        vlans_are_distinct(interfaces),
        serving(interfaces, vlan, index),
    ensures
        matched_index(interfaces, vlan) == Some(index),
{
    let k = choose|k: int|
        0 <= k < interfaces.len() && (#[trigger] interfaces[k]).vlan == vlan
            && interfaces[k].index == index;
    lemma_matched_is_the_member(interfaces, vlan, k);
}

/// Where every tenant has its interface and its entries, and nothing else is
/// there but what the removals left, every tenant is settled.
proof fn lemma_tenant_is_settled(
    s: StateView,
    specs: Seq<VpsView>,
    left: StateView,
    x: StateView,
    t: int,
)
    requires
        is_consistent(s),
        tenants_are_distinct(specs),
        is_thinned(s, specs, left),
        interfaces_hold(s, specs, left, x, specs.len() as int),
        entries_hold(specs, left, x, specs.len() as int),
        0 <= t < specs.len(),
    ensures
        is_settled(x, specs, t),
{
    let spec = specs[t];
    assert(has_interface(x.interfaces, specs[t].vlan));
    let k = choose|k: int| 0 <= k < x.interfaces.len() && (#[trigger] x.interfaces[k]).vlan
        == spec.vlan;
    lemma_matched_is_the_member(x.interfaces, spec.vlan, k);
    let i = x.interfaces[k];
    assert(x.interfaces.contains(i));
    assert(has_entries(x, specs, t));
    assert(has_wanted_address(x.addresses, i.index, spec)) by {
        let j = choose|j: int|
            0 <= j < x.addresses.len() && address_is_owned(x, specs, t, #[trigger] x.addresses[j]);
        lemma_serving_is_matched(x.interfaces, spec.vlan, x.addresses[j].interface);
        assert(x.addresses[j].interface == i.index);
    }
    assert forall|p: int| 0 <= p < spec.v4_public.len() implies has_route(
        x.routes,
        i.index,
        IpAddress::V4(#[trigger] spec.v4_public[p]),
        32,
    ) by {
        let d = IpAddress::V4(spec.v4_public[p]);
        assert(has_owned_route(x, specs, t, d, 32));
        let j = choose|j: int|
            0 <= j < x.routes.len() && serving(
                x.interfaces,
                specs[t].vlan,
                (#[trigger] x.routes[j]).interface,
            ) && x.routes[j].destination == d && x.routes[j].destination_prefix_length == 32;
        lemma_serving_is_matched(x.interfaces, spec.vlan, x.routes[j].interface);
        assert(x.routes[j].interface == i.index);
    }
    assert(has_route(x.routes, i.index, IpAddress::V6(spec.v6_prefix), 64)) by {
        let d = IpAddress::V6(spec.v6_prefix);
        let j = choose|j: int|
            0 <= j < x.routes.len() && serving(
                x.interfaces,
                specs[t].vlan,
                (#[trigger] x.routes[j]).interface,
            ) && x.routes[j].destination == d && x.routes[j].destination_prefix_length == 64;
        lemma_serving_is_matched(x.interfaces, spec.vlan, x.routes[j].interface);
        assert(x.routes[j].interface == i.index);
    }
    assert forall|j: int|
        0 <= j < x.addresses.len() && (#[trigger] x.addresses[j]).interface
            == i.index implies wanted_address(spec, x.addresses[j]) by {
        let a = x.addresses[j];
        assert(x.addresses.contains(a));
        assert(address_is_accounted(specs, left, x, specs.len() as int, a));
        if left.addresses.contains(a) {
            assert(left.interfaces.contains(i));
            assert(s.interfaces.contains(i));
            let q = choose|q: int| 0 <= q < s.interfaces.len() && s.interfaces[q] == i;
            lemma_matched_is_the_member(s.interfaces, spec.vlan, q);
            assert(s.addresses.contains(a));
            let g = choose|g: int| 0 <= g < s.addresses.len() && s.addresses[g] == a;
            if !wanted_address(spec, a) {
                assert(matched_index(s.interfaces, specs[t].vlan) == Some(
                    s.addresses[g].interface,
                ));
                assert(is_dropped_for(s, specs, t, a.message));
                assert(address_is_dropped(s, specs, a.message));
            }
        } else {
            let u = choose|u: int|
                0 <= u < specs.len() && #[trigger] address_is_owned(x, specs, u, a);
            lemma_serving_is_matched(x.interfaces, specs[u].vlan, a.interface);
            let q = lemma_find_vlan(x.interfaces, specs[u].vlan, 0);
            if q < k {
                assert(x.interfaces[q].index != x.interfaces[k].index);
            } else if k < q {
                assert(x.interfaces[k].index != x.interfaces[q].index);
            }
            if u < t {
                assert(specs[u].vlan != specs[t].vlan);
            } else if t < u {
                assert(specs[t].vlan != specs[u].vlan);
            }
        }
    }
}

/// Every interface that is left or was created serves a tenant.
proof fn lemma_interface_serves(
    s: StateView,
    specs: Seq<VpsView>,
    left: StateView,
    x: StateView,
    k: int,
)
    requires
        is_consistent(s),
        is_thinned(s, specs, left),
        interfaces_hold(s, specs, left, x, specs.len() as int),
        0 <= k < x.interfaces.len(),
    ensures
        is_kept(x.interfaces, specs, x.interfaces[k].index),
{
    let n = specs.len() as int;
    let e = x.interfaces[k];
    assert(x.interfaces.contains(e));
    assert(interface_is_accounted(s, specs, left, n, e));
    if left.interfaces.contains(e) {
        assert(s.interfaces.contains(e));
        let q = choose|q: int| 0 <= q < s.interfaces.len() && s.interfaces[q] == e;
        assert(is_kept_among(s.interfaces, specs, n, e.index));
        let u = choose|u: int|
            0 <= u < n && matched_index(s.interfaces, (#[trigger] specs[u]).vlan) == Some(
                e.index,
            );
        let g = lemma_find_vlan(s.interfaces, specs[u].vlan, 0);
        if g < q {
            assert(s.interfaces[g].index != s.interfaces[q].index);
        } else if q < g {
            assert(s.interfaces[q].index != s.interfaces[g].index);
        }
        lemma_matched_is_the_member(x.interfaces, specs[u].vlan, k);
        assert(matched_index(x.interfaces, specs[u].vlan) == Some(e.index));
        assert(is_kept_among(x.interfaces, specs, n, e.index));
    } else {
        let u = choose|u: int| 0 <= u < n && #[trigger] is_new_for(s, specs, u, e);
        lemma_matched_is_the_member(x.interfaces, specs[u].vlan, k);
        assert(matched_index(x.interfaces, specs[u].vlan) == Some(e.index));
        assert(is_kept_among(x.interfaces, specs, n, e.index));
    }
}

/// Every route that is left was read from a record that a tenant wants a
/// route of, and that route is left too.
proof fn lemma_left_route_is_retained(
    s: StateView,
    specs: Seq<VpsView>,
    left: StateView,
    x: StateView,
    r: RouteView,
)
    requires
        is_consistent(s),
        tenants_are_distinct(specs),
        is_thinned(s, specs, left),
        interfaces_hold(s, specs, left, x, specs.len() as int),
        entries_hold(specs, left, x, specs.len() as int),
        left.routes.contains(r),
    ensures
        is_retained(x, specs, r.message),
{
    let n = specs.len() as int;
    let m = r.message;
    assert(s.routes.contains(r));
    let g = choose|g: int| 0 <= g < s.routes.len() && s.routes[g] == r;
    assert(s.routes[g].message == m);
    assert(!route_is_dropped(s, specs, m));
    assert(is_retained_among(s, specs, n, m));
    let u = choose|u: int| 0 <= u < n && #[trigger] is_retained_for(s, specs, u, m);
    let index = matched_index(s.interfaces, specs[u].vlan)->Some_0;
    assert(retained_within(s.routes, s.routes.len() as int, index, specs[u], m));
    let h = choose|h: int|
        0 <= h < s.routes.len() && (#[trigger] s.routes[h]).interface == index && wanted_route(
            specs[u],
            s.routes[h],
        ) && s.routes[h].message == m;
    lemma_wanted_route_is_left(s, specs, left, u, h);
    let kept = s.routes[h];
    assert(x.routes.contains(kept));
    let c = choose|c: int| 0 <= c < x.routes.len() && x.routes[c] == kept;
    lemma_kept_interface(s, specs, left, u);
    let i = matched_interface(s.interfaces, specs[u].vlan)->Some_0;
    assert(x.interfaces.contains(i));
    let b = choose|b: int| 0 <= b < x.interfaces.len() && x.interfaces[b] == i;
    lemma_matched_is_the_member(x.interfaces, specs[u].vlan, b);
    assert(x.routes[c].interface == index);
    assert(retained_within(x.routes, x.routes.len() as int, index, specs[u], m));
    assert(is_retained_for(x, specs, u, m));
    assert(is_retained_among(x, specs, n, m));
}

/// Every route that a tenant owns is one that the tenant wants.
proof fn lemma_owned_route_is_retained(specs: Seq<VpsView>, x: StateView, u: int, j: int)
    requires
        vlans_are_distinct(x.interfaces),
        0 <= u < specs.len(),
        0 <= j < x.routes.len(),
        route_is_owned(x, specs, u, x.routes[j]),
    ensures
        is_retained(x, specs, x.routes[j].message),
{
    let r = x.routes[j];
    lemma_serving_is_matched(x.interfaces, specs[u].vlan, r.interface);
    assert(x.routes[j].interface == r.interface);
    assert(retained_within(
        x.routes,
        x.routes.len() as int,
        r.interface,
        specs[u],
        r.message,
    ));
    assert(is_retained_for(x, specs, u, r.message));
    assert(is_retained_among(x, specs, specs.len() as int, r.message));
}

/// Where every tenant has its interface and its entries, and nothing else is
/// there but what the removals left, the state is what the tenants ask for.
proof fn lemma_settled_is_converged(
    s: StateView,
    specs: Seq<VpsView>,
    left: StateView,
    x: StateView,
)
    requires
        is_consistent(s),
        tenants_are_distinct(specs),
        is_thinned(s, specs, left),
        interfaces_hold(s, specs, left, x, specs.len() as int),
        entries_hold(specs, left, x, specs.len() as int),
    ensures
        is_converged(x, specs),
{
    let n = specs.len() as int;
    assert forall|t: int| 0 <= t < specs.len() implies #[trigger] is_settled(x, specs, t) by {
        lemma_tenant_is_settled(s, specs, left, x, t);
    }
    assert forall|k: int| 0 <= k < x.interfaces.len() implies is_kept(
        x.interfaces,
        specs,
        (#[trigger] x.interfaces[k]).index,
    ) by {
        lemma_interface_serves(s, specs, left, x, k);
    }
    assert forall|j: int| 0 <= j < x.routes.len() implies is_retained(
        x,
        specs,
        (#[trigger] x.routes[j]).message,
    ) by {
        let r = x.routes[j];
        assert(x.routes.contains(r));
        assert(route_is_accounted(specs, left, x, n, r));
        if left.routes.contains(r) {
            lemma_left_route_is_retained(s, specs, left, x, r);
        } else {
            let u = choose|u: int| 0 <= u < n && #[trigger] route_is_owned(x, specs, u, r);
            lemma_owned_route_is_retained(specs, x, u, j);
        }
    }
}

/// Reconciliation converges: on a kernel that takes every operation, the
/// state after the operations of one reconciliation is what the tenants ask
/// for, and a second reconciliation yields no operation.
pub proof fn theorem_reconciliation_converges(s: StateView, specs: Seq<VpsView>, link: nat)
    requires
        is_consistent(s),
        tenants_are_distinct(specs),
        numbers_fit(s, specs),
    ensures
        is_converged(applied(s, operations(s, specs, link)), specs),
        operations(applied(s, operations(s, specs, link)), specs, link) == Seq::<DiffView>::empty(),
{
    let n = specs.len() as int;
    let rem = removals(s, specs);
    let adds = additions(s, specs, link, n);
    let left = applied(s, rem);
    assert(operations(s, specs, link) =~= rem + adds);
    lemma_applied_concat(s, rem, adds);
    lemma_after_removals(s, specs);
    lemma_additions_applied(s, specs, link, left, n);
    let x = applied(left, adds);
    lemma_settled_is_converged(s, specs, left, x);
    lemma_converged_needs_nothing(x, specs, link);
}


/// Removals leave the addresses told apart by their records.
proof fn lemma_removals_keep_messages_distinct(s: StateView, ops: Seq<DiffView>)
    requires
        address_messages_are_distinct(s.addresses),
        forall|k: int| 0 <= k < ops.len() ==> is_removal(#[trigger] ops[k]),
    ensures
        address_messages_are_distinct(applied(s, ops).addresses),
    decreases ops.len(),
{
    if ops.len() > 0 {
        let before = ops.drop_last();
        let y = applied(s, before);
        assert forall|k: int| 0 <= k < before.len() implies is_removal(#[trigger] before[k]) by {
            assert(before[k] == ops[k]);
        }
        lemma_removals_keep_messages_distinct(s, before);
        assert(is_removal(ops.last()));
        match ops.last() {
            DiffView::RemoveInterface(index) => {
                lemma_filter_keeps_messages_distinct(y.addresses, address_not_on(index));
            },
            DiffView::RemoveAddress(message) => {
                lemma_filter_keeps_messages_distinct(y.addresses, address_not_from(message));
            },
            _ => {},
        }
    }
}

/// Thinning out addresses does not make two of them carry the same record.
proof fn lemma_filter_keeps_messages_distinct(
    addresses: Seq<AddressView>,
    pred: spec_fn(AddressView) -> bool,
)
    requires
        address_messages_are_distinct(addresses),
    ensures
        address_messages_are_distinct(addresses.filter(pred)),
{
    let kept = addresses.filter(pred);
    assert forall|a: int, b: int| 0 <= a < b < kept.len() implies (#[trigger] kept[a]).message
        != (#[trigger] kept[b]).message by {
        let r = lemma_filter_order(addresses, pred, a, b);
        assert(addresses[r.0].message != addresses[r.1].message);
    }
}

/// Additions leave the addresses told apart by their records: the kernel
/// gives each new address a record of its own.
proof fn lemma_additions_keep_messages_distinct(x: StateView, ops: Seq<DiffView>)
    requires
        address_messages_are_distinct(x.addresses),
        forall|k: int| 0 <= k < ops.len() ==> is_addition(#[trigger] ops[k]),
    ensures
        address_messages_are_distinct(applied(x, ops).addresses),
    decreases ops.len(),
{
    if ops.len() > 0 {
        let before = ops.drop_last();
        let z = applied(x, before);
        let y = applied(x, ops);
        assert forall|k: int| 0 <= k < before.len() implies is_addition(#[trigger] before[k]) by {
            assert(before[k] == ops[k]);
        }
        lemma_additions_keep_messages_distinct(x, before);
        assert(is_addition(ops.last()));
        match ops.last() {
            DiffView::AddAddress(v) => {
                if index_of_name(z.interfaces, v.interface_name) is Some {
                    let fresh = fresh_address_message(z);
                    let n = z.addresses.len() as int;
                    assert forall|a: int, b: int| 0 <= a < b < y.addresses.len() implies (
                    #[trigger] y.addresses[a]).message != (#[trigger] y.addresses[b]).message by {
                        lemma_greatest_bounds(z.addresses.map_values(address_message()), a);
                        if b < n {
                            assert(y.addresses[a] == z.addresses[a]);
                            assert(y.addresses[b] == z.addresses[b]);
                            assert(z.addresses[a].message != z.addresses[b].message);
                        } else {
                            assert(y.addresses[a] == z.addresses[a]);
                            assert(y.addresses[b].message == fresh);
                        }
                    }
                }
            },
            _ => {},
        }
    }
}

/// A kernel that was in a consistent state is in one again after the
/// operations of a reconciliation: in particular, no two interfaces ever
/// share a name, however often the tenants are reconciled.
pub proof fn theorem_consistency_is_kept(s: StateView, specs: Seq<VpsView>, link: nat)
    requires
        is_consistent(s),
        tenants_are_distinct(specs),
        numbers_fit(s, specs),
    ensures
        is_consistent(applied(s, operations(s, specs, link))),
{
    let n = specs.len() as int;
    let rem = removals(s, specs);
    let adds = additions(s, specs, link, n);
    let left = applied(s, rem);
    assert(operations(s, specs, link) =~= rem + adds);
    lemma_applied_concat(s, rem, adds);
    lemma_after_removals(s, specs);
    lemma_additions_applied(s, specs, link, left, n);
    lemma_removals_hold(s, specs);
    lemma_removals_keep_messages_distinct(s, rem);
    assert forall|k: int| 0 <= k < adds.len() implies is_addition(#[trigger] adds[k]) by {
        let t = lemma_additions_source(s, specs, link, n, k);
    }
    lemma_additions_keep_messages_distinct(left, adds);
}


/// A name that goes with its interface is not given out by the next
/// reconciliation either, as long as it carried a number no higher than the
/// highest that is still in use after the first.
pub proof fn theorem_freed_names_stay_free(
    s: StateView,
    specs: Seq<VpsView>,
    link: nat,
    later: Seq<VpsView>,
    k: int,
    t: int,
)
    requires
        0 <= k < s.interfaces.len(),
        0 <= t < later.len(),
        numbers_fit(applied(s, operations(s, specs, link)), later),
        matched_interface(applied(s, operations(s, specs, link)).interfaces, later[t].vlan)
            is None,
        interface_number(s.interfaces[k].name) <= highest_number(
            applied(s, operations(s, specs, link)).interfaces,
        ),
    ensures
        assigned_name(applied(s, operations(s, specs, link)).interfaces, later, t)
            != s.interfaces[k].name,
{
    theorem_new_names_are_unused(
        applied(s, operations(s, specs, link)),
        later,
        t,
        s.interfaces[k].name,
    );
}

} // verus!

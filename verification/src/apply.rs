//! The applier: replays an operation list against the kernel, one request at
//! a time. The caller performs each request and reports how it ended.

use vstd::prelude::*;
use crate::config::IpAddress;
use crate::diff::{diff_views, Diff, DiffView};
use crate::error::{Error, ErrorView};
use crate::kernel::{apply_op, index_of_name, performed};
use crate::netlink::{interface_name_to_index, resolved_index, LinkRecord, StateView};

verus! {

/// Where the replay of an operation list stands.
#[derive(Clone, Copy, Debug, PartialEq, Eq, Structural)]
pub enum Progress {
    /// The operation at this position is the next to start.
    Ready(usize),
    /// The interface name of the operation at this position is being resolved.
    Resolving(usize),
    /// Every operation was carried out.
    Done,
    /// An operation failed; nothing after it was or will be attempted.
    Failed,
}

/// One request to the kernel.
#[derive(Debug)]
pub enum Request {
    AddVlan { name: String, link: u32, vlan: u16 },
    DeleteLink { index: u32 },
    ResolveName { name: String },
    AddAddress { interface: u32, address: IpAddress, prefix_length: u8 },
    DeleteAddress { message: usize },
    AddRoute { interface: u32, destination: IpAddress, prefix_length: u8, protocol: u8 },
    DeleteRoute { message: usize },
}

/// How the last request ended.
#[derive(Debug)]
pub enum Event {
    /// Nothing was asked yet, or what was asked is done.
    Completed,
    /// The links that the kernel reported for the name that was to be
    /// resolved.
    Resolved(Vec<LinkRecord>),
    /// The kernel transport rejected or could not complete the request.
    Failed,
}

/// What the caller has to do next.
#[derive(Debug)]
pub enum Step {
    Perform(Request),
    Finished(Result<(), Error>),
}

/// The mathematical value of a request.
pub enum RequestView {
    AddVlan { name: Seq<char>, link: nat, vlan: u16 },
    DeleteLink { index: nat },
    ResolveName { name: Seq<char> },
    AddAddress { interface: nat, address: IpAddress, prefix_length: u8 },
    DeleteAddress { message: nat },
    AddRoute { interface: nat, destination: IpAddress, prefix_length: u8, protocol: u8 },
    DeleteRoute { message: nat },
}

/// The mathematical value of a step.
pub enum StepView {
    Perform(RequestView),
    Succeeded,
    Failed(ErrorView),
}

impl View for Request {
    type V = RequestView;

    open spec fn view(&self) -> RequestView {
        match self {
            Request::AddVlan { name, link, vlan } => RequestView::AddVlan {
                name: name@,
                link: *link as nat,
                vlan: *vlan,
            },
            Request::DeleteLink { index } => RequestView::DeleteLink { index: *index as nat },
            Request::ResolveName { name } => RequestView::ResolveName { name: name@ },
            Request::AddAddress { interface, address, prefix_length } => RequestView::AddAddress {
                interface: *interface as nat,
                address: *address,
                prefix_length: *prefix_length,
            },
            Request::DeleteAddress { message } => RequestView::DeleteAddress {
                message: *message as nat,
            },
            Request::AddRoute {
                interface,
                destination,
                prefix_length,
                protocol,
            } => RequestView::AddRoute {
                interface: *interface as nat,
                destination: *destination,
                prefix_length: *prefix_length,
                protocol: *protocol,
            },
            Request::DeleteRoute { message } => RequestView::DeleteRoute {
                message: *message as nat,
            },
        }
    }
}

impl View for Step {
    type V = StepView;

    open spec fn view(&self) -> StepView {
        match self {
            Step::Perform(request) => StepView::Perform(request@),
            Step::Finished(Ok(_)) => StepView::Succeeded,
            Step::Finished(Err(e)) => StepView::Failed(e@),
        }
    }
}

/// What starting an operation asks of the kernel, and where the replay
/// stands while that is under way. Additions of addresses and routes name
/// their interface, so its kernel index is asked for first.
pub open spec fn start_operation(op: DiffView, position: usize) -> (Progress, RequestView) {
    match op {
        DiffView::AddInterface(i) => (
            Progress::Ready((position + 1) as usize),
            RequestView::AddVlan { name: i.name, link: i.link, vlan: i.vlan },
        ),
        DiffView::RemoveInterface(index) => (
            Progress::Ready((position + 1) as usize),
            RequestView::DeleteLink { index },
        ),
        DiffView::AddAddress(a) => (
            Progress::Resolving(position),
            RequestView::ResolveName { name: a.interface_name },
        ),
        DiffView::RemoveAddress(message) => (
            Progress::Ready((position + 1) as usize),
            RequestView::DeleteAddress { message },
        ),
        DiffView::AddRoute(r) => (
            Progress::Resolving(position),
            RequestView::ResolveName { name: r.interface_name },
        ),
        DiffView::RemoveRoute(message) => (
            Progress::Ready((position + 1) as usize),
            RequestView::DeleteRoute { message },
        ),
    }
}

/// What an addition asks of the kernel once the links that the kernel
/// reported for its interface are known: the addition itself, on the kernel
/// index that the name resolves to. Routes carry the protocol tag that marks
/// them as managed. Where no link carries the name, the replay fails.
pub open spec fn finish_operation(
    op: DiffView,
    position: usize,
    links: Seq<LinkRecord>,
    route_proto: u8,
) -> (Progress, StepView) {
    match op {
        DiffView::AddAddress(a) => match resolved_index(links, a.interface_name) {
            Some(interface) => (
                Progress::Ready((position + 1) as usize),
                StepView::Perform(
                    RequestView::AddAddress {
                        interface: interface as nat,
                        address: a.address,
                        prefix_length: a.prefix_length,
                    },
                ),
            ),
            None => (
                Progress::Failed,
                StepView::Failed(ErrorView::InterfaceNotFound(a.interface_name)),
            ),
        },
        DiffView::AddRoute(r) => match resolved_index(links, r.interface_name) {
            Some(interface) => (
                Progress::Ready((position + 1) as usize),
                StepView::Perform(
                    RequestView::AddRoute {
                        interface: interface as nat,
                        destination: r.destination,
                        prefix_length: r.destination_prefix_length,
                        protocol: route_proto,
                    },
                ),
            ),
            None => (
                Progress::Failed,
                StepView::Failed(ErrorView::InterfaceNotFound(r.interface_name)),
            ),
        },
        _ => (Progress::Failed, StepView::Failed(ErrorView::Netlink)),
    }
}

/// One step of the replay: operations start strictly in the order of the
/// list, each only after the one before it was reported as completed. The
/// first failure ends the replay: what was done stays done, what follows is
/// never attempted. An event that does not answer what was asked counts as
/// a failure of the transport.
pub open spec fn apply_step(route_proto: u8, ops: Seq<DiffView>, progress: Progress, event: Event)
    -> (Progress, StepView) {
    match (progress, event) {
        (Progress::Done, _) => (Progress::Done, StepView::Succeeded),
        (Progress::Ready(k), Event::Completed) => if k >= ops.len() {
            (Progress::Done, StepView::Succeeded)
        } else {
            let started = start_operation(ops[k as int], k);
            (started.0, StepView::Perform(started.1))
        },
        (Progress::Resolving(k), Event::Resolved(links)) => if k < ops.len() {
            finish_operation(ops[k as int], k, links@, route_proto)
        } else {
            (Progress::Failed, StepView::Failed(ErrorView::Netlink))
        },
        _ => (Progress::Failed, StepView::Failed(ErrorView::Netlink)),
    }
}

/// The replay before anything was asked of the kernel.
pub fn start() -> (progress: Progress)
    ensures
        progress == Progress::Ready(0),
{
    Progress::Ready(0)
}

/// Starts the operation at `position`.
fn start_request(op: &Diff, position: usize) -> (r: (Progress, Request))
    requires
        position < usize::MAX,
    ensures
        (r.0, r.1@) == start_operation(op@, position),
{
    match op {
        Diff::AddInterface(i) => (
            Progress::Ready(position + 1),
            Request::AddVlan { name: i.name.clone(), link: i.link, vlan: i.vlan },
        ),
        Diff::RemoveInterface(index) => (
            Progress::Ready(position + 1),
            Request::DeleteLink { index: *index },
        ),
        Diff::AddAddress(a) => (
            Progress::Resolving(position),
            Request::ResolveName { name: a.interface_name.clone() },
        ),
        Diff::RemoveAddress(message) => (
            Progress::Ready(position + 1),
            Request::DeleteAddress { message: *message },
        ),
        Diff::AddRoute(r) => (
            Progress::Resolving(position),
            Request::ResolveName { name: r.interface_name.clone() },
        ),
        Diff::RemoveRoute(message) => (
            Progress::Ready(position + 1),
            Request::DeleteRoute { message: *message },
        ),
    }
}

/// Takes the replay of `diff` one step further: given where it stands and
/// how the last request ended, says what to ask of the kernel next, or how
/// the replay ended.
pub fn apply_diff(route_proto: u8, diff: &Vec<Diff>, progress: Progress, event: Event) -> (r: (
    Progress,
    Step,
))
    ensures
        (r.0, r.1@) == apply_step(route_proto, diff_views(diff@), progress, event),
{
    let ghost ops = diff_views(diff@);
    match progress {
        Progress::Done => (Progress::Done, Step::Finished(Ok(()))),
        Progress::Ready(k) => match event {
            Event::Completed => {
                if k >= diff.len() {
                    (Progress::Done, Step::Finished(Ok(())))
                } else {
                    assert(ops[k as int] == diff@[k as int]@);
                    let started = start_request(&diff[k], k);
                    (started.0, Step::Perform(started.1))
                }
            },
            _ => (Progress::Failed, Step::Finished(Err(Error::Netlink))),
        },
        Progress::Resolving(k) => match event {
            Event::Resolved(links) => {
                if k < diff.len() {
                    assert(ops[k as int] == diff@[k as int]@);
                    match &diff[k] {
                        Diff::AddAddress(a) => match interface_name_to_index(
                            &links,
                            a.interface_name.as_str(),
                        ) {
                            Ok(interface) => (
                                Progress::Ready(k + 1),
                                Step::Perform(
                                    Request::AddAddress {
                                        interface,
                                        address: a.address,
                                        prefix_length: a.prefix_length,
                                    },
                                ),
                            ),
                            Err(e) => (Progress::Failed, Step::Finished(Err(e))),
                        },
                        Diff::AddRoute(r) => match interface_name_to_index(
                            &links,
                            r.interface_name.as_str(),
                        ) {
                            Ok(interface) => (
                                Progress::Ready(k + 1),
                                Step::Perform(
                                    Request::AddRoute {
                                        interface,
                                        destination: r.destination,
                                        prefix_length: r.destination_prefix_length,
                                        protocol: route_proto,
                                    },
                                ),
                            ),
                            Err(e) => (Progress::Failed, Step::Finished(Err(e))),
                        },
                        _ => (Progress::Failed, Step::Finished(Err(Error::Netlink))),
                    }
                } else {
                    (Progress::Failed, Step::Finished(Err(Error::Netlink)))
                }
            },
            _ => (Progress::Failed, Step::Finished(Err(Error::Netlink))),
        },
        Progress::Failed => (Progress::Failed, Step::Finished(Err(Error::Netlink))),
    }
}


/// The name that an operation has to have resolved before it can be carried
/// out.
pub open spec fn name_to_resolve(op: DiffView) -> Option<Seq<char>> {
    match op {
        DiffView::AddAddress(a) => Some(a.interface_name),
        DiffView::AddRoute(r) => Some(r.interface_name),
        _ => None,
    }
}

/// Whether the links that the kernel reported for the name that an operation
/// needs resolved are what the kernel's state holds for that name.
pub open spec fn is_faithful(s: StateView, op: DiffView, reply: Seq<LinkRecord>) -> bool {
    match name_to_resolve(op) {
        Some(name) => match resolved_index(reply, name) {
            Some(index) => index_of_name(s.interfaces, name) == Some(index as nat),
            None => index_of_name(s.interfaces, name) is None,
        },
        None => true,
    }
}

/// What a step asks of the kernel, where it asks for anything.
pub open spec fn request_of(step: StepView) -> Option<RequestView> {
    match step {
        StepView::Perform(request) => Some(request),
        _ => None,
    }
}

/// The replay does to the kernel what the operations say: from the start of
/// an operation it asks for one request, or for the operation's interface
/// and then for one request, and what that request does to the kernel is
/// what the operation does in the model of the kernel. Then the next
/// operation is ready to start. Where the operation's interface does not
/// exist, the replay fails and the kernel is left as it was.
pub proof fn theorem_replay_follows_operations(
    route_proto: u8,
    ops: Seq<DiffView>,
    k: usize,
    s: StateView,
    reply: Vec<LinkRecord>,
)
    requires
        k < ops.len(),
        k < usize::MAX,
        is_faithful(s, ops[k as int], reply@),
    ensures
        ({
            let first = apply_step(route_proto, ops, Progress::Ready(k), Event::Completed);
            let second = apply_step(
                route_proto,
                ops,
                Progress::Resolving(k),
                Event::Resolved(reply),
            );
            let next = Progress::Ready((k + 1) as usize);
            match name_to_resolve(ops[k as int]) {
                None => first.0 == next && request_of(first.1) is Some && performed(
                    s,
                    request_of(first.1)->Some_0,
                ) == apply_op(s, ops[k as int]),
                Some(name) => first == (
                    Progress::Resolving(k),
                    StepView::Perform(RequestView::ResolveName { name }),
                ) && match resolved_index(reply@, name) {
                    Some(index) => second.0 == next && request_of(second.1) is Some && performed(
                        s,
                        request_of(second.1)->Some_0,
                    ) == apply_op(s, ops[k as int]),
                    None => second == (
                        Progress::Failed,
                        StepView::Failed(ErrorView::InterfaceNotFound(name)),
                    ) && apply_op(s, ops[k as int]) == s,
                },
            }
        }),
{
}

/// A failure ends the replay for good: whatever is reported after it, no
/// further request is made.
pub proof fn theorem_failure_ends_replay(
    route_proto: u8,
    ops: Seq<DiffView>,
    progress: Progress,
    event: Event,
)
    ensures
        progress != Progress::Done && event is Failed ==> apply_step(
            route_proto,
            ops,
            progress,
            event,
        ) == (Progress::Failed, StepView::Failed(ErrorView::Netlink)),
        progress == Progress::Failed ==> apply_step(route_proto, ops, progress, event) == (
            Progress::Failed,
            StepView::Failed(ErrorView::Netlink),
        ),
        apply_step(route_proto, ops, progress, event).0 == Progress::Failed ==> request_of(
            apply_step(route_proto, ops, progress, event).1,
        ) is None,
{
}

} // verus!

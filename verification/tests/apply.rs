use vpsnet::apply::{apply_diff, start, Event, Progress, Request, Step};
use vpsnet::config::IpAddress;
use vpsnet::diff::{AddAddress, AddRoute, Diff};
use vpsnet::error::Error;
use vpsnet::netlink::{Interface, LinkAttribute, LinkRecord};

fn link(index: u32, name: &str) -> LinkRecord {
    LinkRecord { index, attributes: vec![LinkAttribute::IfName(name.to_string())] }
}

fn plan() -> Vec<Diff> {
    vec![
        Diff::RemoveInterface(4),
        Diff::RemoveRoute(2),
        Diff::RemoveAddress(1),
        Diff::AddInterface(Interface { name: "vps8".to_string(), index: 0, link: 2, vlan: 12 }),
        Diff::AddAddress(AddAddress {
            address: IpAddress::V4(0x6440_0000),
            prefix_length: 31,
            interface_name: "vps8".to_string(),
        }),
        Diff::AddRoute(AddRoute {
            destination: IpAddress::V6(0x2a11_f2c0_0003_0000_0000_0000_0000_0000),
            destination_prefix_length: 64,
            interface_name: "vps8".to_string(),
        }),
    ]
}

fn perform(step: Step) -> Request {
    match step {
        Step::Perform(request) => request,
        other => panic!("unexpected {:?}", other),
    }
}

#[test]
fn replay_asks_for_each_operation_in_order() {
    let diff = plan();
    let progress = start();
    assert_eq!(progress, Progress::Ready(0));

    let (progress, step) = apply_diff(157, &diff, progress, Event::Completed);
    assert_eq!(progress, Progress::Ready(1));
    assert!(matches!(perform(step), Request::DeleteLink { index: 4 }));

    let (progress, step) = apply_diff(157, &diff, progress, Event::Completed);
    assert_eq!(progress, Progress::Ready(2));
    assert!(matches!(perform(step), Request::DeleteRoute { message: 2 }));

    let (progress, step) = apply_diff(157, &diff, progress, Event::Completed);
    assert_eq!(progress, Progress::Ready(3));
    assert!(matches!(perform(step), Request::DeleteAddress { message: 1 }));

    let (progress, step) = apply_diff(157, &diff, progress, Event::Completed);
    assert_eq!(progress, Progress::Ready(4));
    match perform(step) {
        Request::AddVlan { name, link, vlan } => {
            assert_eq!(name, "vps8");
            assert_eq!(link, 2);
            assert_eq!(vlan, 12);
        }
        other => panic!("unexpected {:?}", other),
    }

    let (progress, step) = apply_diff(157, &diff, progress, Event::Completed);
    assert_eq!(progress, Progress::Resolving(4));
    match perform(step) {
        Request::ResolveName { name } => assert_eq!(name, "vps8"),
        other => panic!("unexpected {:?}", other),
    }

    let reply = Event::Resolved(vec![link(31, "vps8")]);
    let (progress, step) = apply_diff(157, &diff, progress, reply);
    assert_eq!(progress, Progress::Ready(5));
    match perform(step) {
        Request::AddAddress { interface, address, prefix_length } => {
            assert_eq!(interface, 31);
            assert_eq!(address, IpAddress::V4(0x6440_0000));
            assert_eq!(prefix_length, 31);
        }
        other => panic!("unexpected {:?}", other),
    }

    let (progress, step) = apply_diff(157, &diff, progress, Event::Completed);
    assert_eq!(progress, Progress::Resolving(5));
    assert!(matches!(perform(step), Request::ResolveName { .. }));

    let reply = Event::Resolved(vec![link(31, "vps8")]);
    let (progress, step) = apply_diff(157, &diff, progress, reply);
    assert_eq!(progress, Progress::Ready(6));
    match perform(step) {
        Request::AddRoute { interface, destination, prefix_length, protocol } => {
            assert_eq!(interface, 31);
            assert_eq!(destination, IpAddress::V6(0x2a11_f2c0_0003_0000_0000_0000_0000_0000));
            assert_eq!(prefix_length, 64);
            assert_eq!(protocol, 157);
        }
        other => panic!("unexpected {:?}", other),
    }

    let (progress, step) = apply_diff(157, &diff, progress, Event::Completed);
    assert_eq!(progress, Progress::Done);
    assert!(matches!(step, Step::Finished(Ok(()))));

    let (progress, step) = apply_diff(157, &diff, progress, Event::Completed);
    assert_eq!(progress, Progress::Done);
    assert!(matches!(step, Step::Finished(Ok(()))));
}

#[test]
fn empty_list_finishes_at_once() {
    let (progress, step) = apply_diff(157, &vec![], start(), Event::Completed);
    assert_eq!(progress, Progress::Done);
    assert!(matches!(step, Step::Finished(Ok(()))));
}

#[test]
fn failure_ends_the_replay() {
    let diff = plan();
    let (progress, _) = apply_diff(157, &diff, start(), Event::Completed);
    let (progress, step) = apply_diff(157, &diff, progress, Event::Failed);
    assert_eq!(progress, Progress::Failed);
    assert!(matches!(step, Step::Finished(Err(Error::Netlink))));
    let (progress, step) = apply_diff(157, &diff, progress, Event::Completed);
    assert_eq!(progress, Progress::Failed);
    assert!(matches!(step, Step::Finished(Err(Error::Netlink))));
}

#[test]
fn unresolved_name_ends_the_replay() {
    let diff = plan();
    let reply = Event::Resolved(vec![link(30, "vps7")]);
    let (progress, step) = apply_diff(157, &diff, Progress::Resolving(4), reply);
    assert_eq!(progress, Progress::Failed);
    match step {
        Step::Finished(Err(Error::InterfaceNotFound(name))) => assert_eq!(name, "vps8"),
        other => panic!("unexpected {:?}", other),
    }
    let (progress, step) = apply_diff(157, &diff, Progress::Resolving(5), Event::Resolved(vec![]));
    assert_eq!(progress, Progress::Failed);
    assert!(matches!(step, Step::Finished(Err(Error::InterfaceNotFound(_)))));
}

#[test]
fn event_that_answers_nothing_counts_as_failure() {
    let diff = plan();
    let (progress, step) = apply_diff(157, &diff, Progress::Ready(0), Event::Resolved(vec![]));
    assert_eq!(progress, Progress::Failed);
    assert!(matches!(step, Step::Finished(Err(Error::Netlink))));
    let (progress, step) = apply_diff(157, &diff, Progress::Resolving(4), Event::Completed);
    assert_eq!(progress, Progress::Failed);
    assert!(matches!(step, Step::Finished(Err(Error::Netlink))));
    let reply = Event::Resolved(vec![link(4, "vps8")]);
    let (progress, step) = apply_diff(157, &diff, Progress::Resolving(0), reply);
    assert_eq!(progress, Progress::Failed);
    assert!(matches!(step, Step::Finished(Err(Error::Netlink))));
    let reply = Event::Resolved(vec![link(4, "vps8")]);
    let (progress, step) = apply_diff(157, &diff, Progress::Resolving(9), reply);
    assert_eq!(progress, Progress::Failed);
    assert!(matches!(step, Step::Finished(Err(Error::Netlink))));
}

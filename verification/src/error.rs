//! Failures that a reconciliation tick can end in.

use vstd::prelude::*;

verus! {

/// Why a reconciliation tick failed.
#[derive(Debug)]
pub enum Error {
    /// The kernel transport rejected or could not complete a request.
    Netlink,
    /// No interface carries the name that was to be resolved.
    InterfaceNotFound(String),
}

/// The mathematical value of a failure.
pub enum ErrorView {
    Netlink,
    InterfaceNotFound(Seq<char>),
}

impl View for Error {
    type V = ErrorView;

    open spec fn view(&self) -> ErrorView {
        match self {
            Error::Netlink => ErrorView::Netlink,
            Error::InterfaceNotFound(name) => ErrorView::InterfaceNotFound(name@),
        }
    }
}

} // verus!

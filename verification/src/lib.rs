//! Reconciliation engine for per-tenant VLAN provisioning on a hosting node.
//!
//! Each tenant gets a VLAN sub-interface with a point-to-point address, a
//! host route for each of its public addresses and a route for its IPv6
//! prefix. The crate reads a snapshot of what the kernel holds out of the
//! kernel's records ([`netlink`]), computes the ordered list of operations
//! that bring the snapshot to what the tenants ask for ([`diff`]), and
//! decides how that list is replayed against the kernel ([`apply`]).
//!
//! The crate does no I/O: its caller asks the kernel and hands in what the
//! kernel said. [`kernel`] is a model of what the operations do to the
//! kernel; [`theorems`] and [`convergence`] prove, over that model, what
//! holds of every operation list.

pub mod apply;
pub mod config;
pub mod convergence;
pub mod diff;
pub mod error;
pub mod kernel;
pub mod names;
pub mod netlink;
pub mod theorems;

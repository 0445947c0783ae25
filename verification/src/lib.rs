//! Forced, recursive removal of filesystem entries, in the manner of `rm -rf`.
//!
//! The library holds every decision of a removal and performs none of its
//! system calls. A [`Removal`] is a state machine: it names the next operation
//! on the filesystem ([`Removal::request`]), takes what the host answered
//! ([`Removal::step`]) and ends with the outcome of the whole removal
//! ([`Removal::into_outcome`]). Directories that wait for their children are
//! kept on a heap-allocated work list, so the depth of a tree never shows in
//! the call stack.
//!
//! [`remove`] starts a strict removal, which fails on an absent target;
//! [`ensure_removed`] starts one that treats absence as success.
//!
//! The modules: [`target`] validates a path and gives its canonical form;
//! [`removal`] is the state machine; [`laws`] holds what is true of it
//! under any host; [`host`] what is true under a host that answers
//! truthfully; and [`clearing`] proves that under a host that does its part
//! a removal clears its target, all beneath it, and nothing else.

pub mod clearing;
pub mod error;
pub mod host;
pub mod laws;
pub mod removal;
pub mod target;

pub use crate::error::Error;
pub use crate::error::FailureKind;
pub use crate::error::IoFailure;
pub use crate::removal::ensure_removed;
pub use crate::removal::remove;
pub use crate::removal::Operation;
pub use crate::removal::Removal;
pub use crate::removal::Reply;
pub use crate::removal::Request;

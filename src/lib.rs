//! A relay that runs shell commands on a remote agent.
//!
//! The listener turns lines of operator input into commands and sends them;
//! the dialer runs each command it receives and sends back a report. This
//! crate holds what both sides decide and the wire format they share; the
//! program around it drives the transport, the terminal and the processes.
use vstd::prelude::*;

pub mod codec;
pub mod command;
pub mod config;
pub mod execution;
pub mod message;
pub mod session;
pub mod text;

pub use message::{Payload, Report};

verus! {

/// Which side of the relay a process plays.
#[derive(Debug, Clone, Copy, PartialEq, Eq)]
pub enum Runner {
    Server,
    Client,
}

/// The role together with the debug flag.
#[derive(Debug, Clone, Copy, PartialEq, Eq)]
pub enum RunnerMode {
    State(Runner, bool),
}

} // verus!

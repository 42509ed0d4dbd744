//! What an invocation asks for, and what the tool does about it.
use vstd::prelude::*;

use crate::port::{is_port_text, parse_port, port_value, PortError};

verus! {

/// Arguments of `listen`.
#[derive(Clone, Copy, Debug, PartialEq, Eq, Structural)]
pub struct ListenArgs {
    pub port: u16,
}

/// Arguments of `send`.
#[derive(Clone, Debug)]
pub struct SendArgs {
    pub host: String,
    pub port: u16,
}

/// What the command line held, before its port argument is read.
#[derive(Clone, Debug)]
pub enum Invocation {
    /// `send <HOST> <PORT>`
    Send { host: String, port: String },
    /// `listen <PORT>`
    Listen { port: String },
    /// No subcommand.
    Bare,
}

/// What the tool does for an invocation.
#[derive(Clone, Debug)]
pub enum Action {
    /// Send standard input as one datagram.
    Send(SendArgs),
    /// Receive and log datagrams until stopped.
    Listen(ListenArgs),
    /// Print the usage text to standard output.
    ShowHelp,
    /// Report an invalid port argument, and touch no socket.
    Refuse(PortError),
}

/// An IPv4 address and a port to bind a socket to.
#[derive(Clone, Copy, Debug)]
pub struct BindAddress {
    pub ip: [u8; 4],
    pub port: u16,
}

/// The address with every octet zero: all interfaces.
pub open spec fn is_wildcard(a: BindAddress) -> bool {
    a.ip@ == seq![0u8, 0u8, 0u8, 0u8]
}

/// The action that `inv` asks for.
pub open spec fn planned(inv: Invocation, a: Action) -> bool {
    match inv {
        Invocation::Send { host, port } => if is_port_text(port@) {
            a matches Action::Send(s) && s.host@ == host@ && s.port as nat == port_value(port@)
        } else {
            a matches Action::Refuse(e) && e.text@ == port@
        },
        Invocation::Listen { port } => if is_port_text(port@) {
            a matches Action::Listen(l) && l.port as nat == port_value(port@)
        } else {
            a matches Action::Refuse(e) && e.text@ == port@
        },
        Invocation::Bare => a matches Action::ShowHelp,
    }
}

/// The status the process ends with once `a` has been carried out.
pub open spec fn status_of(a: Action) -> i32 {
    match a {
        Action::Refuse(_) => 1,
        _ => 0,
    }
}

/// Decides what to do for an invocation: a port argument that does not name a
/// port is refused before anything else happens; no subcommand asks for help.
pub fn plan(inv: Invocation) -> (r: Action)
    ensures
        planned(inv, r),
{
    match inv {
        Invocation::Send { host, port } => match parse_port(port.as_str()) {
            Ok(p) => Action::Send(SendArgs { host, port: p }),
            Err(e) => Action::Refuse(e),
        },
        Invocation::Listen { port } => match parse_port(port.as_str()) {
            Ok(p) => Action::Listen(ListenArgs { port: p }),
            Err(e) => Action::Refuse(e),
        },
        Invocation::Bare => Action::ShowHelp,
    }
}

/// The exit status once `a` has been carried out: 1 for a refused argument, and
/// 0 otherwise.
pub fn exit_status(a: &Action) -> (r: i32)
    ensures
        r == status_of(*a),
{
    match a {
        Action::Refuse(_) => 1,
        _ => 0,
    }
}

/// Where the listener binds: the given port on all interfaces.
pub fn listen_address(args: &ListenArgs) -> (r: BindAddress)
    ensures
        is_wildcard(r),
        r.port == args.port,
{
    let r = BindAddress { ip: [0u8, 0u8, 0u8, 0u8], port: args.port };
    assert(r.ip@ =~= seq![0u8, 0u8, 0u8, 0u8]);
    r
}

/// Where the sender binds: all interfaces, and port 0 so that the system picks
/// an ephemeral one.
pub fn send_address() -> (r: BindAddress)
    ensures
        is_wildcard(r),
        r.port == 0,
{
    let r = BindAddress { ip: [0u8, 0u8, 0u8, 0u8], port: 0 };
    assert(r.ip@ =~= seq![0u8, 0u8, 0u8, 0u8]);
    r
}

} // verus!

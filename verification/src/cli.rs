//! The command line: which of the three commands was asked for.
//!
//! The first argument is the program's own name, the second the command:
//! `start`, `stop`, or `add-route -domain <d> -lhost <h> -lport <p>`. The
//! three flags of `add-route` may come in any order, each followed by its
//! value; where a flag comes twice, the later value counts.

use crate::port::{parse_port, port_of};
use crate::route::{Route, RouteView};
use crate::text::{bytes_eq, views};
use vstd::prelude::*;

verus! {

/// The fewest arguments that `add-route` can do with: the program's name,
/// the command, and five more.
pub const ADD_ROUTE_MIN_ARGS: usize = 7;

/// What the command line asks for.
#[derive(Clone, PartialEq, Eq, Debug)]
pub enum Command {
    /// Load the configuration and serve.
    Start,
    /// Add this route to the configuration.
    AddRoute { route: Route },
    /// End the running proxy.
    Stop,
}

/// What a [`Command`] holds, as plain values.
pub enum CommandView {
    Start,
    AddRoute { route: RouteView },
    Stop,
}

impl View for Command {
    type V = CommandView;

    open spec fn view(&self) -> CommandView {
        match self {
            Command::Start => CommandView::Start,
            Command::AddRoute { route } => CommandView::AddRoute { route: route@ },
            Command::Stop => CommandView::Stop,
        }
    }
}

/// Why a command line cannot be understood.
#[derive(Clone, Copy, PartialEq, Eq, Debug)]
pub enum UsageError {
    /// No command was given.
    MissingCommand,
    /// The command is none of the three.
    InvalidCommand,
    /// `add-route` lacks a flag or a value, or its port is no port number.
    MissingArguments,
    /// The argument at this position should be a flag of `add-route` and
    /// is none.
    InvalidArgument { position: usize },
}

/// The values that the flags of `add-route` gave so far.
pub struct FlagValues {
    pub domain: Option<Seq<u8>>,
    pub lhost: Option<Seq<u8>>,
    pub lport: Option<u16>,
}

/// `start`
pub open spec fn start_word() -> Seq<u8> {
    seq![0x73u8, 0x74, 0x61, 0x72, 0x74]
}

/// `stop`
pub open spec fn stop_word() -> Seq<u8> {
    seq![0x73u8, 0x74, 0x6f, 0x70]
}

/// `add-route`
pub open spec fn add_route_word() -> Seq<u8> {
    seq![0x61u8, 0x64, 0x64, 0x2d, 0x72, 0x6f, 0x75, 0x74, 0x65]
}

/// `-domain`
pub open spec fn domain_flag() -> Seq<u8> {
    seq![0x2du8, 0x64, 0x6f, 0x6d, 0x61, 0x69, 0x6e]
}

/// `-lhost`
pub open spec fn lhost_flag() -> Seq<u8> {
    seq![0x2du8, 0x6c, 0x68, 0x6f, 0x73, 0x74]
}

/// `-lport`
pub open spec fn lport_flag() -> Seq<u8> {
    seq![0x2du8, 0x6c, 0x70, 0x6f, 0x72, 0x74]
}

/// No flag seen yet.
pub open spec fn no_flags() -> FlagValues {
    FlagValues { domain: None, lhost: None, lport: None }
}

/// Whether `arg` is one of the three flags.
pub open spec fn is_flag(arg: Seq<u8>) -> bool {
    arg == domain_flag() || arg == lhost_flag() || arg == lport_flag()
}

/// `seen` after the flag `flag` was given the value `value`. A port that
/// is no port number leaves the port unset.
pub open spec fn with_flag(seen: FlagValues, flag: Seq<u8>, value: Seq<u8>) -> FlagValues {
    if flag == domain_flag() {
        FlagValues { domain: Some(value), lhost: seen.lhost, lport: seen.lport }
    } else if flag == lhost_flag() {
        FlagValues { domain: seen.domain, lhost: Some(value), lport: seen.lport }
    } else {
        FlagValues { domain: seen.domain, lhost: seen.lhost, lport: port_of(value) }
    }
}

/// The values that the flags from position `i` on give, on top of `seen`.
pub open spec fn flags_from(args: Seq<Seq<u8>>, i: int, seen: FlagValues) -> Result<
    FlagValues,
    UsageError,
>
    decreases args.len() - i,
{
    if !(0 <= i < args.len()) {
        Ok(seen)
    } else if !is_flag(args[i]) {
        Err(UsageError::InvalidArgument { position: i as usize })
    } else if i + 1 >= args.len() {
        Err(UsageError::MissingArguments)
    } else {
        flags_from(args, i + 2, with_flag(seen, args[i], args[i + 1]))
    }
}

/// The route that `add-route` asks for, if all three flags have a value.
pub open spec fn route_of_flags(seen: FlagValues) -> Result<CommandView, UsageError> {
    if seen.domain is Some && seen.lhost is Some && seen.lport is Some {
        Ok(
            CommandView::AddRoute {
                route: RouteView {
                    domain: seen.domain.unwrap(),
                    upstream_host: seen.lhost.unwrap(),
                    upstream_port: seen.lport.unwrap(),
                },
            },
        )
    } else {
        Err(UsageError::MissingArguments)
    }
}

/// What a command line asks for.
pub open spec fn command_of(args: Seq<Seq<u8>>) -> Result<CommandView, UsageError> {
    if args.len() < 2 {
        Err(UsageError::MissingCommand)
    } else if args[1] == start_word() {
        Ok(CommandView::Start)
    } else if args[1] == add_route_word() {
        if args.len() < ADD_ROUTE_MIN_ARGS {
            Err(UsageError::MissingArguments)
        } else {
            match flags_from(args, 2, no_flags()) {
                Err(e) => Err(e),
                Ok(seen) => route_of_flags(seen),
            }
        }
    } else if args[1] == stop_word() {
        Ok(CommandView::Stop)
    } else {
        Err(UsageError::InvalidCommand)
    }
}

/// The view of a value that may be missing.
pub open spec fn opt_view(o: Option<Vec<u8>>) -> Option<Seq<u8>> {
    match o {
        Some(v) => Some(v@),
        None => None,
    }
}

/// Reads the flags of `add-route`, which start at position 2.
fn parse_flags(args: &Vec<Vec<u8>>) -> (r: Result<Route, UsageError>)
    ensures
        r matches Ok(route) ==> (match flags_from(views(args@), 2, no_flags()) {
            Ok(seen) => route_of_flags(seen) == Ok::<CommandView, UsageError>(
                CommandView::AddRoute { route: route@ },
            ),
            Err(_) => false,
        }),
        r matches Err(e) ==> (match flags_from(views(args@), 2, no_flags()) {
            Ok(seen) => route_of_flags(seen) == Err::<CommandView, UsageError>(e),
            Err(f) => f == e,
        }),
{
    let flag_domain: Vec<u8> = vec![0x2du8, 0x64, 0x6f, 0x6d, 0x61, 0x69, 0x6e];
    let flag_lhost: Vec<u8> = vec![0x2du8, 0x6c, 0x68, 0x6f, 0x73, 0x74];
    let flag_lport: Vec<u8> = vec![0x2du8, 0x6c, 0x70, 0x6f, 0x72, 0x74];
    assert(flag_domain@ =~= domain_flag());
    assert(flag_lhost@ =~= lhost_flag());
    assert(flag_lport@ =~= lport_flag());
    let mut domain: Option<Vec<u8>> = None;
    let mut lhost: Option<Vec<u8>> = None;
    let mut lport: Option<u16> = None;
    let mut i: usize = 2;
    while i < args.len()
        invariant
            flag_domain@ == domain_flag(),
            flag_lhost@ == lhost_flag(),
            flag_lport@ == lport_flag(),
            flags_from(views(args@), 2, no_flags()) == flags_from(
                views(args@),
                i as int,
                FlagValues { domain: opt_view(domain), lhost: opt_view(lhost), lport },
            ),
        decreases args.len() - i,
    {
        let ghost all = views(args@);
        let ghost seen = FlagValues { domain: opt_view(domain), lhost: opt_view(lhost), lport };
        assert(all[i as int] == args[i as int]@);
        let is_domain: bool = bytes_eq(args[i].as_slice(), flag_domain.as_slice());
        let is_lhost: bool = bytes_eq(args[i].as_slice(), flag_lhost.as_slice());
        let is_lport: bool = bytes_eq(args[i].as_slice(), flag_lport.as_slice());
        if !is_domain && !is_lhost && !is_lport {
            return Err(UsageError::InvalidArgument { position: i });
        }
        if i + 1 >= args.len() {
            return Err(UsageError::MissingArguments);
        }
        assert(all[i + 1] == args[i + 1]@);
        if is_domain {
            domain = Some(args[i + 1].clone());
        } else if is_lhost {
            assert(domain_flag() !== lhost_flag()) by {
                assert(domain_flag().len() != lhost_flag().len());
            }
            lhost = Some(args[i + 1].clone());
        } else {
            lport = parse_port(args[i + 1].as_slice());
        }
        assert(FlagValues { domain: opt_view(domain), lhost: opt_view(lhost), lport } == with_flag(
            seen,
            all[i as int],
            all[i + 1],
        ));
        i += 2;
    }
    match (domain, lhost, lport) {
        (Some(domain), Some(upstream_host), Some(upstream_port)) => Ok(
            Route { domain, upstream_host, upstream_port },
        ),
        _ => Err(UsageError::MissingArguments),
    }
}

/// Reads the command line `args`, the program's own name first.
pub fn parse_command(args: &Vec<Vec<u8>>) -> (r: Result<Command, UsageError>)
    ensures
        r matches Ok(c) ==> command_of(views(args@)) == Ok::<CommandView, UsageError>(c@),
        r matches Err(e) ==> command_of(views(args@)) == Err::<CommandView, UsageError>(e),
{
    if args.len() < 2 {
        return Err(UsageError::MissingCommand);
    }
    let start: Vec<u8> = vec![0x73u8, 0x74, 0x61, 0x72, 0x74];
    let add_route: Vec<u8> = vec![0x61u8, 0x64, 0x64, 0x2d, 0x72, 0x6f, 0x75, 0x74, 0x65];
    let stop: Vec<u8> = vec![0x73u8, 0x74, 0x6f, 0x70];
    assert(start@ =~= start_word());
    assert(add_route@ =~= add_route_word());
    assert(stop@ =~= stop_word());
    assert(views(args@)[1] == args[1]@);
    if bytes_eq(args[1].as_slice(), start.as_slice()) {
        Ok(Command::Start)
    } else if bytes_eq(args[1].as_slice(), add_route.as_slice()) {
        if args.len() < ADD_ROUTE_MIN_ARGS {
            Err(UsageError::MissingArguments)
        } else {
            match parse_flags(args) {
                Ok(route) => Ok(Command::AddRoute { route }),
                Err(e) => Err(e),
            }
        }
    } else if bytes_eq(args[1].as_slice(), stop.as_slice()) {
        Ok(Command::Stop)
    } else {
        Err(UsageError::InvalidCommand)
    }
}

} // verus!

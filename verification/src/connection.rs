//! One client connection, as a state machine.
//!
//! A connection serves one request. It is accepted, its request head is read
//! line by line, the head is routed, the upstream is dialled, the head is
//! replayed to it, and what the upstream answers is relayed to the client
//! chunk by chunk until the upstream ends its stream:
//!
//! ```text
//! Accepted -> HeadParsed -> Routed -> Forwarding -> Closed
//! ```
//!
//! with an exit to `Closed` from every stage at its first failure. Nothing
//! is tried twice, and a closed connection stays closed.
//!
//! Three parts share the work. The reader has the connection while it is
//! `Accepted`: it takes the request line and the header lines up to the
//! blank line. The router has it for the one step from `HeadParsed`. The
//! forwarder has it from `Routed` on: it dials, sends the head, relays the
//! answer, and ends with a [`ForwardResult`].
//!
//! The machine does no input or output. It is handed an [`Event`], the
//! outcome of the work it asked for last, and answers with its next state
//! and an [`Action`], the work it asks for next. Whoever owns the sockets
//! performs the action and comes back with the event.
//!
//! Each state but one awaits one kind of event. Any other event,
//! [`Event::Failed`] among them, is that stage's failure. The one state that
//! awaits nothing is `HeadParsed`: routing needs no outside work, so the
//! step that takes the blank line routes the head at once and goes on to
//! `Routed` or to `Closed`, and a connection that is handed over with its
//! head parsed is routed by its next step, whatever event comes with it.

use crate::request::{
    head_bytes, head_of_request_line, is_blank, is_blank_line, is_terminated, is_whole_line,
    parse_request_line, with_header, HeadView, ParsedRequestHead,
};
use crate::route::{RouteMap, RouteTable};
use crate::router::{decision, resolve, RouteDecision, RouteDecisionView};
use vstd::prelude::*;

verus! {

/// The number of bytes asked of the upstream in one read.
pub const RELAY_CHUNK: usize = 4096;

/// The seconds granted to an upstream to accept a connection.
pub const CONNECT_TIMEOUT_SECS: u64 = 10;

/// The seconds granted to a peer to deliver the next bytes.
pub const IDLE_TIMEOUT_SECS: u64 = 60;

/// Why a connection was closed.
#[derive(Clone, Copy, PartialEq, Eq, Debug, Structural)]
pub enum CloseReason {
    /// The upstream ended its stream after the whole answer was relayed.
    Completed,
    /// The client ended its stream before it sent anything.
    ConnectionClosed,
    /// Reading the head from the client failed, or the client ended its
    /// stream inside the head: inside a line, or before the blank line.
    ConnectionReadFailed,
    /// The request has no `Host` header.
    HeaderMissing,
    /// No route is registered for the requested domain.
    NoRoute,
    /// The upstream could not be reached.
    UpstreamUnreachable,
    /// The request could not be written to the upstream.
    UpstreamWriteFailed,
    /// Reading from the upstream or writing to the client failed during
    /// the relay.
    ForwardInterrupted,
}

/// How forwarding ended: what became of a request that was routed.
#[derive(Clone, Copy, PartialEq, Eq, Debug, Structural)]
pub enum ForwardResult {
    /// The upstream answered and ended its stream; all of it was relayed.
    Completed,
    /// The upstream could not be reached.
    UpstreamUnreachable,
    /// The request could not be written to the upstream.
    UpstreamWriteFailed,
    /// The relay broke off; what was written to the client stays written.
    ForwardInterrupted,
}

/// How forwarding ended, for a reason that ends forwarding; nothing for a
/// reason that closes a connection before it is routed.
pub open spec fn forward_result_of(reason: CloseReason) -> Option<ForwardResult> {
    match reason {
        CloseReason::Completed => Some(ForwardResult::Completed),
        CloseReason::UpstreamUnreachable => Some(ForwardResult::UpstreamUnreachable),
        CloseReason::UpstreamWriteFailed => Some(ForwardResult::UpstreamWriteFailed),
        CloseReason::ForwardInterrupted => Some(ForwardResult::ForwardInterrupted),
        _ => None,
    }
}

impl CloseReason {
    /// How forwarding ended, if the connection was routed.
    pub fn forward_result(&self) -> (r: Option<ForwardResult>)
        ensures
            r == forward_result_of(*self),
    {
        match self {
            CloseReason::Completed => Some(ForwardResult::Completed),
            CloseReason::UpstreamUnreachable => Some(ForwardResult::UpstreamUnreachable),
            CloseReason::UpstreamWriteFailed => Some(ForwardResult::UpstreamWriteFailed),
            CloseReason::ForwardInterrupted => Some(ForwardResult::ForwardInterrupted),
            _ => None,
        }
    }
}

/// The stages of a connection's life.
#[derive(Clone, Copy, PartialEq, Eq, Debug, Structural)]
pub enum Stage {
    /// The head is being read.
    Accepted,
    /// The head is complete and not yet routed. No connection rests here.
    HeadParsed,
    /// A route was found and the upstream is being dialled.
    Routed,
    /// The upstream is connected: the request is sent, the answer relayed.
    Forwarding,
    /// Both sockets are closed.
    Closed,
}

/// The outcome of the work that a connection asked for last.
#[derive(Clone, PartialEq, Eq, Debug)]
pub enum Event {
    /// What one read of a line from the client returned: the bytes up to
    /// and including the next line feed; fewer, without a line feed, where
    /// the stream ended first; none where it had ended already.
    ClientLine(Vec<u8>),
    /// The upstream accepted the connection.
    Connected,
    /// The request was written to the upstream and flushed.
    RequestSent,
    /// What one read from the upstream returned: at least one byte, or none
    /// at the end of its stream.
    UpstreamData(Vec<u8>),
    /// The chunk was written to the client.
    ClientWritten,
    /// The work failed: an error, or a timeout.
    Failed,
}

/// What an [`Event`] holds, as plain values.
pub enum EventView {
    ClientLine(Seq<u8>),
    Connected,
    RequestSent,
    UpstreamData(Seq<u8>),
    ClientWritten,
    Failed,
}

impl View for Event {
    type V = EventView;

    open spec fn view(&self) -> EventView {
        match self {
            Event::ClientLine(line) => EventView::ClientLine(line@),
            Event::Connected => EventView::Connected,
            Event::RequestSent => EventView::RequestSent,
            Event::UpstreamData(bytes) => EventView::UpstreamData(bytes@),
            Event::ClientWritten => EventView::ClientWritten,
            Event::Failed => EventView::Failed,
        }
    }
}

/// The work that a connection asks for next.
#[derive(Clone, PartialEq, Eq, Debug)]
pub enum Action {
    /// Read one line from the client; answer with [`Event::ClientLine`].
    ReadLine,
    /// Connect to the upstream within [`CONNECT_TIMEOUT_SECS`]; answer with
    /// [`Event::Connected`].
    Dial { host: Vec<u8>, port: u16 },
    /// Write these bytes to the upstream and flush; answer with
    /// [`Event::RequestSent`].
    SendRequest { bytes: Vec<u8> },
    /// Read at most `max_len` bytes from the upstream; answer with
    /// [`Event::UpstreamData`].
    ReadUpstream { max_len: usize },
    /// Write these bytes to the client; answer with [`Event::ClientWritten`].
    WriteClient { bytes: Vec<u8> },
    /// Close both sockets. No answer is awaited.
    Close { reason: CloseReason },
}

/// What an [`Action`] holds, as plain values.
pub enum ActionView {
    ReadLine,
    Dial { host: Seq<u8>, port: u16 },
    SendRequest { bytes: Seq<u8> },
    ReadUpstream { max_len: usize },
    WriteClient { bytes: Seq<u8> },
    Close { reason: CloseReason },
}

impl View for Action {
    type V = ActionView;

    open spec fn view(&self) -> ActionView {
        match self {
            Action::ReadLine => ActionView::ReadLine,
            Action::Dial { host, port } => ActionView::Dial { host: host@, port: *port },
            Action::SendRequest { bytes } => ActionView::SendRequest { bytes: bytes@ },
            Action::ReadUpstream { max_len } => ActionView::ReadUpstream { max_len: *max_len },
            Action::WriteClient { bytes } => ActionView::WriteClient { bytes: bytes@ },
            Action::Close { reason } => ActionView::Close { reason: *reason },
        }
    }
}

/// The state of one connection: what it awaits, and what it holds for later.
#[derive(Clone, PartialEq, Eq, Debug)]
pub enum Connection {
    /// Accepted; the request line is awaited.
    AwaitingRequestLine,
    /// Accepted; the next header line or the blank line is awaited.
    AwaitingHeader { head: ParsedRequestHead },
    /// The head is complete; nothing is awaited, the next step routes it.
    HeadParsed { head: ParsedRequestHead },
    /// Routed; the upstream's acceptance is awaited. `request` is the head
    /// as it will be replayed.
    Dialing { request: Vec<u8> },
    /// Forwarding; the end of the write to the upstream is awaited.
    Sending,
    /// Forwarding; the next chunk from the upstream is awaited.
    Receiving,
    /// Forwarding; the end of the write to the client is awaited.
    Delivering,
    /// Closed.
    Closed { reason: CloseReason },
}

/// What a [`Connection`] holds, as plain values.
pub enum ConnectionView {
    AwaitingRequestLine,
    AwaitingHeader { head: HeadView },
    HeadParsed { head: HeadView },
    Dialing { request: Seq<u8> },
    Sending,
    Receiving,
    Delivering,
    Closed { reason: CloseReason },
}

impl View for Connection {
    type V = ConnectionView;

    open spec fn view(&self) -> ConnectionView {
        match self {
            Connection::AwaitingRequestLine => ConnectionView::AwaitingRequestLine,
            Connection::AwaitingHeader { head } => ConnectionView::AwaitingHeader { head: head@ },
            Connection::HeadParsed { head } => ConnectionView::HeadParsed { head: head@ },
            Connection::Dialing { request } => ConnectionView::Dialing { request: request@ },
            Connection::Sending => ConnectionView::Sending,
            Connection::Receiving => ConnectionView::Receiving,
            Connection::Delivering => ConnectionView::Delivering,
            Connection::Closed { reason } => ConnectionView::Closed { reason: *reason },
        }
    }
}

/// The stage that a state belongs to.
pub open spec fn stage_of(c: ConnectionView) -> Stage {
    match c {
        ConnectionView::AwaitingRequestLine => Stage::Accepted,
        ConnectionView::AwaitingHeader { .. } => Stage::Accepted,
        ConnectionView::HeadParsed { .. } => Stage::HeadParsed,
        ConnectionView::Dialing { .. } => Stage::Routed,
        ConnectionView::Sending => Stage::Forwarding,
        ConnectionView::Receiving => Stage::Forwarding,
        ConnectionView::Delivering => Stage::Forwarding,
        ConnectionView::Closed { .. } => Stage::Closed,
    }
}

/// The reason for which a connection is closed, if it is.
pub open spec fn close_reason_of(c: ConnectionView) -> Option<CloseReason> {
    match c {
        ConnectionView::Closed { reason } => Some(reason),
        _ => None,
    }
}

/// A closed connection and the action that closes it.
pub open spec fn closed(reason: CloseReason) -> (ConnectionView, ActionView) {
    (ConnectionView::Closed { reason }, ActionView::Close { reason })
}

/// The step from a parsed head: dial the upstream that the router finds,
/// holding the head's bytes for replay, or close where it finds none.
pub open spec fn routed(head: HeadView, table: RouteMap) -> (ConnectionView, ActionView) {
    match decision(head.headers, table) {
        RouteDecisionView::Matched { host, port } => (
            ConnectionView::Dialing { request: head_bytes(head) },
            ActionView::Dial { host, port },
        ),
        RouteDecisionView::HeaderMissing => closed(CloseReason::HeaderMissing),
        RouteDecisionView::NoRoute { .. } => closed(CloseReason::NoRoute),
    }
}

/// The step of a connection that awaits the request line. A read that
/// hands over nothing means that the client sent nothing; one that hands
/// over bytes without a line feed means that the stream ended inside the
/// request line.
pub open spec fn after_request_line(e: EventView) -> (ConnectionView, ActionView) {
    match e {
        EventView::ClientLine(line) => if line.len() == 0 {
            closed(CloseReason::ConnectionClosed)
        } else if !is_terminated(line) {
            closed(CloseReason::ConnectionReadFailed)
        } else {
            (
                ConnectionView::AwaitingHeader { head: head_of_request_line(line) },
                ActionView::ReadLine,
            )
        },
        _ => closed(CloseReason::ConnectionReadFailed),
    }
}

/// The step of a connection that awaits a header line or the blank line.
/// A read that hands over no whole line means that the stream ended before
/// the head was complete: the head is not routed.
pub open spec fn after_header(head: HeadView, e: EventView, table: RouteMap) -> (
    ConnectionView,
    ActionView,
) {
    match e {
        EventView::ClientLine(line) => if !is_terminated(line) {
            closed(CloseReason::ConnectionReadFailed)
        } else if is_blank(line) {
            routed(head, table)
        } else {
            (ConnectionView::AwaitingHeader { head: with_header(head, line) }, ActionView::ReadLine)
        },
        _ => closed(CloseReason::ConnectionReadFailed),
    }
}

/// The step of a connection that awaits the upstream's acceptance.
pub open spec fn after_dial(request: Seq<u8>, e: EventView) -> (ConnectionView, ActionView) {
    match e {
        EventView::Connected => (ConnectionView::Sending, ActionView::SendRequest { bytes: request }),
        _ => closed(CloseReason::UpstreamUnreachable),
    }
}

/// The step of a connection that awaits the end of the write to the upstream.
pub open spec fn after_send(e: EventView) -> (ConnectionView, ActionView) {
    match e {
        EventView::RequestSent => (
            ConnectionView::Receiving,
            ActionView::ReadUpstream { max_len: RELAY_CHUNK },
        ),
        _ => closed(CloseReason::UpstreamWriteFailed),
    }
}

/// The step of a connection that awaits a chunk from the upstream.
pub open spec fn after_receive(e: EventView) -> (ConnectionView, ActionView) {
    match e {
        EventView::UpstreamData(bytes) => if bytes.len() == 0 {
            closed(CloseReason::Completed)
        } else {
            (ConnectionView::Delivering, ActionView::WriteClient { bytes })
        },
        _ => closed(CloseReason::ForwardInterrupted),
    }
}

/// The step of a connection that awaits the end of the write to the client.
pub open spec fn after_deliver(e: EventView) -> (ConnectionView, ActionView) {
    match e {
        EventView::ClientWritten => (
            ConnectionView::Receiving,
            ActionView::ReadUpstream { max_len: RELAY_CHUNK },
        ),
        _ => closed(CloseReason::ForwardInterrupted),
    }
}

/// The step function: the next state and the next action of a connection
/// in state `c` that is handed the event `e`.
pub open spec fn next(c: ConnectionView, e: EventView, table: RouteMap) -> (
    ConnectionView,
    ActionView,
) {
    match c {
        ConnectionView::AwaitingRequestLine => after_request_line(e),
        ConnectionView::AwaitingHeader { head } => after_header(head, e, table),
        ConnectionView::HeadParsed { head } => routed(head, table),
        ConnectionView::Dialing { request } => after_dial(request, e),
        ConnectionView::Sending => after_send(e),
        ConnectionView::Receiving => after_receive(e),
        ConnectionView::Delivering => after_deliver(e),
        ConnectionView::Closed { reason } => closed(reason),
    }
}

impl Connection {
    /// A connection that was just accepted, and its first action.
    pub fn accept() -> (r: (Connection, Action))
        ensures
            r.0@ == ConnectionView::AwaitingRequestLine,
            r.1@ == ActionView::ReadLine,
    {
        (Connection::AwaitingRequestLine, Action::ReadLine)
    }

    /// The stage that the connection is in.
    pub fn stage(&self) -> (s: Stage)
        ensures
            s == stage_of(self@),
    {
        match self {
            Connection::AwaitingRequestLine => Stage::Accepted,
            Connection::AwaitingHeader { .. } => Stage::Accepted,
            Connection::HeadParsed { .. } => Stage::HeadParsed,
            Connection::Dialing { .. } => Stage::Routed,
            Connection::Sending => Stage::Forwarding,
            Connection::Receiving => Stage::Forwarding,
            Connection::Delivering => Stage::Forwarding,
            Connection::Closed { .. } => Stage::Closed,
        }
    }

    /// The reason for which the connection is closed, if it is.
    pub fn close_reason(&self) -> (r: Option<CloseReason>)
        ensures
            r == close_reason_of(self@),
    {
        match self {
            Connection::Closed { reason } => Some(*reason),
            _ => None,
        }
    }

    /// Takes the connection one step: from its state and the event to its
    /// next state and the next action.
    pub fn step(self, event: Event, table: &RouteTable) -> (r: (Connection, Action))
        ensures
            (r.0@, r.1@) == next(self@, event@, table@),
    {
        match self {
            Connection::AwaitingRequestLine => match event {
                Event::ClientLine(line) => {
                    if line.len() == 0 {
                        close(CloseReason::ConnectionClosed)
                    } else if !is_whole_line(line.as_slice()) {
                        close(CloseReason::ConnectionReadFailed)
                    } else {
                        let head: ParsedRequestHead = parse_request_line(line);
                        (Connection::AwaitingHeader { head }, Action::ReadLine)
                    }
                },
                _ => close(CloseReason::ConnectionReadFailed),
            },
            Connection::AwaitingHeader { head } => match event {
                Event::ClientLine(line) => {
                    if !is_whole_line(line.as_slice()) {
                        close(CloseReason::ConnectionReadFailed)
                    } else if is_blank_line(line.as_slice()) {
                        route(head, table)
                    } else {
                        let mut head: ParsedRequestHead = head;
                        head.push_header(line);
                        (Connection::AwaitingHeader { head }, Action::ReadLine)
                    }
                },
                _ => close(CloseReason::ConnectionReadFailed),
            },
            Connection::HeadParsed { head } => route(head, table),
            Connection::Dialing { request } => match event {
                Event::Connected => (Connection::Sending, Action::SendRequest { bytes: request }),
                _ => close(CloseReason::UpstreamUnreachable),
            },
            Connection::Sending => match event {
                Event::RequestSent => (
                    Connection::Receiving,
                    Action::ReadUpstream { max_len: RELAY_CHUNK },
                ),
                _ => close(CloseReason::UpstreamWriteFailed),
            },
            Connection::Receiving => match event {
                Event::UpstreamData(bytes) => {
                    if bytes.len() == 0 {
                        close(CloseReason::Completed)
                    } else {
                        (Connection::Delivering, Action::WriteClient { bytes })
                    }
                },
                _ => close(CloseReason::ForwardInterrupted),
            },
            Connection::Delivering => match event {
                Event::ClientWritten => (
                    Connection::Receiving,
                    Action::ReadUpstream { max_len: RELAY_CHUNK },
                ),
                _ => close(CloseReason::ForwardInterrupted),
            },
            Connection::Closed { reason } => close(reason),
        }
    }
}

/// A closed connection and the action that closes it.
pub fn close(reason: CloseReason) -> (r: (Connection, Action))
    ensures
        (r.0@, r.1@) == closed(reason),
{
    (Connection::Closed { reason }, Action::Close { reason })
}

/// Routes a parsed head: dials the upstream that the router finds, or
/// closes where it finds none.
pub fn route(head: ParsedRequestHead, table: &RouteTable) -> (r: (Connection, Action))
    ensures
        (r.0@, r.1@) == routed(head@, table@),
{
    match resolve(&head.headers, table) {
        RouteDecision::Matched { host, port } => {
            let request: Vec<u8> = head.to_bytes();
            (Connection::Dialing { request }, Action::Dial { host, port })
        },
        RouteDecision::HeaderMissing => close(CloseReason::HeaderMissing),
        RouteDecision::NoRoute { domain } => close(CloseReason::NoRoute),
    }
}

} // verus!

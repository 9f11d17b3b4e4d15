//! Runs of connections: what holds of a connection over any sequence of
//! events, and of many connections that are served side by side.
//!
//! A run hands a connection its events one after another, each to the state
//! that the one before it left. The laws below are stated of runs, over the
//! step function of [`crate::connection`].

use crate::connection::{
    closed, forward_result_of, next, routed, ActionView, CloseReason, ConnectionView, EventView,
    RELAY_CHUNK,
};
use crate::request::{
    blank_line, concat_lines, head_bytes, head_of_request_line, header_of, is_blank,
    is_terminated, unknown_method, unknown_path, unknown_version, with_header, HeadView,
};
use crate::route::RouteMap;
use crate::router::{decision, RouteDecisionView};
use crate::text::tokens;
use vstd::prelude::*;

verus! {

/// The state that a connection in state `c` reaches over `events`.
pub open spec fn run(c: ConnectionView, events: Seq<EventView>, table: RouteMap) -> ConnectionView
    decreases events.len(),
{
    if events.len() == 0 {
        c
    } else {
        next(run(c, events.drop_last(), table), events.last(), table).0
    }
}

/// The actions that a connection in state `c` answers over `events`, in order.
pub open spec fn actions(c: ConnectionView, events: Seq<EventView>, table: RouteMap) -> Seq<
    ActionView,
>
    decreases events.len(),
{
    if events.len() == 0 {
        Seq::empty()
    } else {
        actions(c, events.drop_last(), table).push(
            next(run(c, events.drop_last(), table), events.last(), table).1,
        )
    }
}

/// The bytes that one action writes to the client.
pub open spec fn client_bytes_of(a: ActionView) -> Seq<u8> {
    match a {
        ActionView::WriteClient { bytes } => bytes,
        _ => Seq::empty(),
    }
}

/// The bytes that one action writes to the upstream.
pub open spec fn upstream_bytes_of(a: ActionView) -> Seq<u8> {
    match a {
        ActionView::SendRequest { bytes } => bytes,
        _ => Seq::empty(),
    }
}

/// All bytes that `acts` write to the client, in order.
pub open spec fn written_to_client(acts: Seq<ActionView>) -> Seq<u8>
    decreases acts.len(),
{
    if acts.len() == 0 {
        Seq::empty()
    } else {
        written_to_client(acts.drop_last()) + client_bytes_of(acts.last())
    }
}

/// All bytes that `acts` write to the upstream, in order.
pub open spec fn sent_upstream(acts: Seq<ActionView>) -> Seq<u8>
    decreases acts.len(),
{
    if acts.len() == 0 {
        Seq::empty()
    } else {
        sent_upstream(acts.drop_last()) + upstream_bytes_of(acts.last())
    }
}

/// The number of times that `acts` dial an upstream.
pub open spec fn dials(acts: Seq<ActionView>) -> nat
    decreases acts.len(),
{
    if acts.len() == 0 {
        0
    } else {
        dials(acts.drop_last()) + if acts.last() is Dial {
            1nat
        } else {
            0nat
        }
    }
}

/// The byte strings of `parts`, one after the other.
pub open spec fn joined(parts: Seq<Seq<u8>>) -> Seq<u8>
    decreases parts.len(),
{
    if parts.len() == 0 {
        Seq::empty()
    } else {
        joined(parts.drop_last()) + parts.last()
    }
}

/// The events of a client that delivers `lines`, one line per read.
pub open spec fn line_events(lines: Seq<Seq<u8>>) -> Seq<EventView> {
    Seq::new(lines.len(), |i: int| EventView::ClientLine(lines[i]))
}

/// The events of a relay in which the upstream delivers `chunks`, one per
/// read, and each is written to the client before the next is read.
pub open spec fn relay_events(chunks: Seq<Seq<u8>>) -> Seq<EventView>
    decreases chunks.len(),
{
    if chunks.len() == 0 {
        Seq::empty()
    } else {
        relay_events(chunks.drop_last()) + seq![
            EventView::UpstreamData(chunks.last()),
            EventView::ClientWritten,
        ]
    }
}

/// The head that a request line and the header lines behind it give.
pub open spec fn head_of_lines(request_line: Seq<u8>, header_lines: Seq<Seq<u8>>) -> HeadView
    decreases header_lines.len(),
{
    if header_lines.len() == 0 {
        head_of_request_line(request_line)
    } else {
        with_header(head_of_lines(request_line, header_lines.drop_last()), header_lines.last())
    }
}

/// Whether every byte string of `parts` holds at least one byte.
pub open spec fn none_empty(parts: Seq<Seq<u8>>) -> bool {
    forall|i: int| 0 <= i < parts.len() ==> (#[trigger] parts[i]).len() > 0
}

/// Whether every line of `lines` is a header line: a whole line that is
/// not blank.
pub open spec fn header_lines_only(lines: Seq<Seq<u8>>) -> bool {
    forall|i: int| 0 <= i < lines.len() ==> is_terminated(#[trigger] lines[i]) && !is_blank(lines[i])
}

/// Whether every line of `lines` is a whole line.
pub open spec fn all_terminated(lines: Seq<Seq<u8>>) -> bool {
    forall|i: int| 0 <= i < lines.len() ==> is_terminated(#[trigger] lines[i])
}

/// Whether `lines` hold no complete head: whether no line behind the first,
/// which is the request line whatever it holds, is the blank line.
pub open spec fn head_unfinished(lines: Seq<Seq<u8>>) -> bool {
    forall|i: int| 1 <= i < lines.len() ==> !is_blank(#[trigger] lines[i])
}

/// The reason for which a head closes that was cut off: the client sent
/// nothing at all, or the stream ended inside the head.
pub open spec fn cut_off_reason(lines: Seq<Seq<u8>>) -> CloseReason {
    if lines.len() > 0 && lines[0].len() == 0 {
        CloseReason::ConnectionClosed
    } else {
        CloseReason::ConnectionReadFailed
    }
}

/// What a trace may hold at each state: nothing is dialled before a route
/// is found, an upstream is dialled once at most, and nothing is written to
/// the client before the upstream has taken the request.
pub open spec fn trace_safe(c: ConnectionView, acts: Seq<ActionView>) -> bool {
    match c {
        ConnectionView::AwaitingRequestLine
        | ConnectionView::AwaitingHeader { .. }
        | ConnectionView::HeadParsed { .. } => {
            &&& dials(acts) == 0
            &&& sent_upstream(acts).len() == 0
            &&& written_to_client(acts).len() == 0
        },
        ConnectionView::Dialing { .. } => {
            &&& dials(acts) == 1
            &&& sent_upstream(acts).len() == 0
            &&& written_to_client(acts).len() == 0
        },
        ConnectionView::Sending => dials(acts) == 1 && written_to_client(acts).len() == 0,
        ConnectionView::Receiving | ConnectionView::Delivering => dials(acts) == 1,
        ConnectionView::Closed { reason } => {
            &&& dials(acts) <= 1
            &&& before_routing(reason) ==> dials(acts) == 0
            &&& before_forwarding(reason) ==> sent_upstream(acts).len() == 0
            &&& before_relay(reason) ==> written_to_client(acts).len() == 0
        },
    }
}

/// The reasons that close a connection before a route is found.
pub open spec fn before_routing(reason: CloseReason) -> bool {
    reason is ConnectionClosed || reason is ConnectionReadFailed || reason is HeaderMissing
        || reason is NoRoute
}

/// The reasons that close a connection before its upstream is connected.
pub open spec fn before_forwarding(reason: CloseReason) -> bool {
    before_routing(reason) || reason is UpstreamUnreachable
}

/// The reasons that close a connection before the relay begins.
pub open spec fn before_relay(reason: CloseReason) -> bool {
    before_forwarding(reason) || reason is UpstreamWriteFailed
}

/// A run over two sequences of events in a row is the run over the first,
/// then the run over the second from where the first ended.
pub proof fn lemma_run_concat(
    c: ConnectionView,
    first: Seq<EventView>,
    second: Seq<EventView>,
    table: RouteMap,
)
    ensures
        run(c, first + second, table) == run(run(c, first, table), second, table),
        actions(c, first + second, table) == actions(c, first, table) + actions(
            run(c, first, table),
            second,
            table,
        ),
    decreases second.len(),
{
    if second.len() == 0 {
        assert(first + second =~= first);
        assert(actions(c, first, table) + Seq::<ActionView>::empty() =~= actions(c, first, table));
    } else {
        assert((first + second).drop_last() =~= first + second.drop_last());
        assert((first + second).last() == second.last());
        lemma_run_concat(c, first, second.drop_last(), table);
        let mid = run(c, first, table);
        assert(actions(c, first + second, table) =~= actions(c, first, table) + actions(
            mid,
            second,
            table,
        ));
    }
}

/// The run over one event is one step.
pub proof fn lemma_run_one(c: ConnectionView, e: EventView, table: RouteMap)
    ensures
        run(c, seq![e], table) == next(c, e, table).0,
        actions(c, seq![e], table) == seq![next(c, e, table).1],
{
    let events = seq![e];
    assert(events.drop_last() =~= Seq::<EventView>::empty());
    assert(run(c, events.drop_last(), table) == c);
    assert(actions(c, events.drop_last(), table) =~= Seq::<ActionView>::empty());
    assert(actions(c, events, table) =~= seq![next(c, e, table).1]);
}

/// What two traces in a row write and dial is what each writes and dials.
pub proof fn lemma_trace_concat(first: Seq<ActionView>, second: Seq<ActionView>)
    ensures
        written_to_client(first + second) == written_to_client(first) + written_to_client(second),
        sent_upstream(first + second) == sent_upstream(first) + sent_upstream(second),
        dials(first + second) == dials(first) + dials(second),
    decreases second.len(),
{
    if second.len() == 0 {
        assert(first + second =~= first);
        assert(written_to_client(first) + Seq::<u8>::empty() =~= written_to_client(first));
        assert(sent_upstream(first) + Seq::<u8>::empty() =~= sent_upstream(first));
    } else {
        assert((first + second).drop_last() =~= first + second.drop_last());
        assert((first + second).last() == second.last());
        lemma_trace_concat(first, second.drop_last());
        assert(written_to_client(first + second) =~= written_to_client(first) + written_to_client(
            second,
        ));
        assert(sent_upstream(first + second) =~= sent_upstream(first) + sent_upstream(second));
    }
}

/// What a trace of one action writes and dials.
pub proof fn lemma_trace_one(a: ActionView)
    ensures
        written_to_client(seq![a]) == client_bytes_of(a),
        sent_upstream(seq![a]) == upstream_bytes_of(a),
        dials(seq![a]) == if a is Dial {
            1nat
        } else {
            0nat
        },
{
    let acts = seq![a];
    assert(acts.drop_last() =~= Seq::<ActionView>::empty());
    assert(written_to_client(acts.drop_last()) =~= Seq::<u8>::empty());
    assert(sent_upstream(acts.drop_last()) =~= Seq::<u8>::empty());
    assert(dials(acts.drop_last()) == 0);
    assert(written_to_client(acts) =~= client_bytes_of(a));
    assert(sent_upstream(acts) =~= upstream_bytes_of(a));
}

/// Whether a connection is in the forwarder's hands: routed, or forwarding.
pub open spec fn in_forwarder(c: ConnectionView) -> bool {
    c is Dialing || c is Sending || c is Receiving || c is Delivering
}

/// Whether a connection is still reading its head.
pub open spec fn in_reader(c: ConnectionView) -> bool {
    c is AwaitingRequestLine || c is AwaitingHeader
}

/// Forwarding ends with a forward result and in no other way. Whatever
/// events a routed connection is handed, it is still being forwarded, or it
/// is closed for one of the four reasons that say how forwarding ended; it
/// never goes back to reading or routing.
pub proof fn lemma_forwarding_ends_with_result(
    c: ConnectionView,
    events: Seq<EventView>,
    table: RouteMap,
)
    requires
        in_forwarder(c),
    ensures
        in_forwarder(run(c, events, table)) || (run(c, events, table) matches ConnectionView::Closed {
            reason,
        } && forward_result_of(reason) is Some),
    decreases events.len(),
{
    if events.len() > 0 {
        lemma_forwarding_ends_with_result(c, events.drop_last(), table);
    }
}

/// A connection that closes while its head is read or routed was never
/// forwarded: from a fresh connection, every run ends reading, or in the
/// forwarder's hands, or closed; and where it is closed for a reason that
/// is no forward result, no upstream was dialled.
pub proof fn lemma_unrouted_never_forwarded(events: Seq<EventView>, table: RouteMap)
    ensures
        ({
            let end = run(ConnectionView::AwaitingRequestLine, events, table);
            let acts = actions(ConnectionView::AwaitingRequestLine, events, table);
            &&& in_reader(end) || in_forwarder(end) || end is Closed
            &&& match end {
                ConnectionView::Closed { reason } => forward_result_of(reason) is None ==> {
                    &&& dials(acts) == 0
                    &&& sent_upstream(acts).len() == 0
                    &&& written_to_client(acts).len() == 0
                },
                _ => true,
            }
        }),
{
    lemma_trace_safe(events, table);
    lemma_never_rests_head_parsed(ConnectionView::AwaitingRequestLine, EventView::Failed, events, table);
}

/// A closed connection stays closed: whatever events follow, its state and
/// its reason stay, each answer is the same `Close`, and nothing is written
/// or dialled.
pub proof fn lemma_closed_stays_closed(reason: CloseReason, events: Seq<EventView>, table: RouteMap)
    ensures
        run(ConnectionView::Closed { reason }, events, table) == (ConnectionView::Closed { reason }),
        actions(ConnectionView::Closed { reason }, events, table).len() == events.len(),
        forall|i: int|
            0 <= i < events.len() ==> #[trigger] actions(
                ConnectionView::Closed { reason },
                events,
                table,
            )[i] == (ActionView::Close { reason }),
        written_to_client(actions(ConnectionView::Closed { reason }, events, table)).len() == 0,
        sent_upstream(actions(ConnectionView::Closed { reason }, events, table)).len() == 0,
        dials(actions(ConnectionView::Closed { reason }, events, table)) == 0,
    decreases events.len(),
{
    if events.len() > 0 {
        lemma_closed_stays_closed(reason, events.drop_last(), table);
        let c = ConnectionView::Closed { reason };
        let acts = actions(c, events, table);
        assert(acts.drop_last() =~= actions(c, events.drop_last(), table));
    }
}

/// Every trace from a fresh connection is safe: nothing is dialled before a
/// route is found, an upstream is dialled once at most, nothing is sent
/// before it is connected, and nothing is written to the client before the
/// upstream has taken the request.
pub proof fn lemma_trace_safe(events: Seq<EventView>, table: RouteMap)
    ensures
        trace_safe(
            run(ConnectionView::AwaitingRequestLine, events, table),
            actions(ConnectionView::AwaitingRequestLine, events, table),
        ),
    decreases events.len(),
{
    let start = ConnectionView::AwaitingRequestLine;
    if events.len() > 0 {
        lemma_trace_safe(events.drop_last(), table);
        let before = run(start, events.drop_last(), table);
        let acts_before = actions(start, events.drop_last(), table);
        let step = next(before, events.last(), table);
        let acts = actions(start, events, table);
        assert(acts.drop_last() =~= acts_before);
        assert(acts.last() == step.1);
        assert(written_to_client(acts) == written_to_client(acts_before) + client_bytes_of(step.1));
        assert(sent_upstream(acts) == sent_upstream(acts_before) + upstream_bytes_of(step.1));
    }
}

/// No connection rests with its head parsed: no step ends there, so no
/// run of a fresh connection does.
pub proof fn lemma_never_rests_head_parsed(
    c: ConnectionView,
    e: EventView,
    events: Seq<EventView>,
    table: RouteMap,
)
    ensures
        !(next(c, e, table).0 is HeadParsed),
        !(run(ConnectionView::AwaitingRequestLine, events, table) is HeadParsed),
{
    if events.len() > 0 {
        let before = run(ConnectionView::AwaitingRequestLine, events.drop_last(), table);
        assert(!(next(before, events.last(), table).0 is HeadParsed));
    }
}

/// Reading a head: a whole request line and header lines behind it leave
/// the connection awaiting the next header, holding the head of these
/// lines, and every answer asks for the next line.
pub proof fn lemma_read_head(request_line: Seq<u8>, header_lines: Seq<Seq<u8>>, table: RouteMap)
    requires
        is_terminated(request_line),
        header_lines_only(header_lines),
    ensures
        run(
            ConnectionView::AwaitingRequestLine,
            line_events(seq![request_line] + header_lines),
            table,
        ) == (ConnectionView::AwaitingHeader { head: head_of_lines(request_line, header_lines) }),
        actions(
            ConnectionView::AwaitingRequestLine,
            line_events(seq![request_line] + header_lines),
            table,
        ) == Seq::new(1 + header_lines.len(), |i: int| ActionView::ReadLine),
    decreases header_lines.len(),
{
    let start = ConnectionView::AwaitingRequestLine;
    let lines = seq![request_line] + header_lines;
    let events = line_events(lines);
    let all_read = Seq::new(1 + header_lines.len(), |i: int| ActionView::ReadLine);
    if header_lines.len() == 0 {
        assert(events =~= seq![EventView::ClientLine(request_line)]);
        lemma_run_one(start, EventView::ClientLine(request_line), table);
        assert(actions(start, events, table) =~= all_read);
    } else {
        let shorter = header_lines.drop_last();
        lemma_read_head(request_line, shorter, table);
        assert(events.drop_last() =~= line_events(seq![request_line] + shorter));
        assert(events.last() == EventView::ClientLine(header_lines.last()));
        assert(actions(start, events, table) =~= all_read);
    }
}

/// No request line is refused. Whatever tokens a whole line holds, the
/// connection goes on to read headers, holding the line as it was read,
/// with a placeholder for each of method, path and version that the line
/// lacks.
pub proof fn lemma_request_line_accepted(line: Seq<u8>, table: RouteMap)
    requires
        is_terminated(line),
    ensures
        next(ConnectionView::AwaitingRequestLine, EventView::ClientLine(line), table) == (
            ConnectionView::AwaitingHeader { head: head_of_request_line(line) },
            ActionView::ReadLine,
        ),
        head_of_request_line(line).request_line == line,
        tokens(line).len() < 1 ==> head_of_request_line(line).method == unknown_method(),
        tokens(line).len() < 2 ==> head_of_request_line(line).path == unknown_path(),
        tokens(line).len() < 3 ==> head_of_request_line(line).version == unknown_version(),
        tokens(line).len() >= 1 ==> head_of_request_line(line).method == tokens(line)[0],
        tokens(line).len() >= 2 ==> head_of_request_line(line).path == tokens(line)[1],
        tokens(line).len() >= 3 ==> head_of_request_line(line).version == tokens(line)[2],
{
}

/// What becomes of a head is the router's decision on its headers alone.
/// Whatever the request line holds, once the blank line arrives behind the
/// header lines the connection dials the upstream that the router finds,
/// holding the lines as they were read and a blank line for replay, or
/// closes for the reason the router gives.
pub proof fn lemma_head_decides(
    request_line: Seq<u8>,
    header_lines: Seq<Seq<u8>>,
    blank: Seq<u8>,
    table: RouteMap,
)
    requires
        is_terminated(request_line),
        header_lines_only(header_lines),
        is_blank(blank),
    ensures
        ({
            let start = ConnectionView::AwaitingRequestLine;
            let events = line_events(seq![request_line] + header_lines + seq![blank]);
            let headers = Seq::new(header_lines.len(), |i: int| header_of(header_lines[i]));
            let end = run(start, events, table);
            let acts = actions(start, events, table);
            &&& acts.len() == header_lines.len() + 2
            &&& forall|i: int| 0 <= i <= header_lines.len() ==> acts[i] == ActionView::ReadLine
            &&& match decision(headers, table) {
                RouteDecisionView::Matched { host, port } => {
                    &&& end == ConnectionView::Dialing {
                        request: request_line + joined(header_lines) + blank_line(),
                    }
                    &&& acts.last() == ActionView::Dial { host, port }
                },
                RouteDecisionView::HeaderMissing => {
                    &&& end == ConnectionView::Closed { reason: CloseReason::HeaderMissing }
                    &&& acts.last() == ActionView::Close { reason: CloseReason::HeaderMissing }
                },
                RouteDecisionView::NoRoute { .. } => {
                    &&& end == ConnectionView::Closed { reason: CloseReason::NoRoute }
                    &&& acts.last() == ActionView::Close { reason: CloseReason::NoRoute }
                },
            }
        }),
{
    let start = ConnectionView::AwaitingRequestLine;
    let lines = seq![request_line] + header_lines;
    let events = line_events(lines + seq![blank]);
    let head = head_of_lines(request_line, header_lines);
    lemma_read_head(request_line, header_lines, table);
    lemma_head_bytes_of_lines(request_line, header_lines);
    assert(events.drop_last() =~= line_events(lines));
    assert(events.last() == EventView::ClientLine(blank));
    assert(run(start, events.drop_last(), table) == ConnectionView::AwaitingHeader { head });
    assert(next(ConnectionView::AwaitingHeader { head }, EventView::ClientLine(blank), table)
        == routed(head, table));
}

/// A head that is cut off is never routed or forwarded. Where the reads of
/// a fresh connection hand over no blank line behind the request line, no
/// upstream is dialled and nothing is sent or written, whatever the lines
/// hold, a `Host` line for a routed domain or a lone carriage return among
/// them. While every read hands over a whole line,
/// the connection goes on reading. From the first read that hands over no
/// whole line, it is closed: because the client sent nothing, where that
/// read was the first and handed over nothing, and because reading failed
/// everywhere else.
pub proof fn lemma_cut_off_head_never_routed(lines: Seq<Seq<u8>>, table: RouteMap)
    requires
        head_unfinished(lines),
    ensures
        ({
            let end = run(ConnectionView::AwaitingRequestLine, line_events(lines), table);
            let acts = actions(ConnectionView::AwaitingRequestLine, line_events(lines), table);
            &&& dials(acts) == 0
            &&& sent_upstream(acts).len() == 0
            &&& written_to_client(acts).len() == 0
            &&& all_terminated(lines) && lines.len() == 0 ==> end is AwaitingRequestLine
            &&& all_terminated(lines) && lines.len() > 0 ==> end is AwaitingHeader
            &&& !all_terminated(lines) ==> end == ConnectionView::Closed {
                reason: cut_off_reason(lines),
            }
        }),
    decreases lines.len(),
{
    let start = ConnectionView::AwaitingRequestLine;
    let events = line_events(lines);
    lemma_trace_safe(events, table);
    if lines.len() > 0 {
        let shorter = lines.drop_last();
        lemma_cut_off_head_never_routed(shorter, table);
        assert(events.drop_last() =~= line_events(shorter));
        assert(events.last() == EventView::ClientLine(lines.last()));
        let before = run(start, events.drop_last(), table);
        if all_terminated(shorter) {
            if shorter.len() > 0 {
                assert(is_terminated(shorter[0]));
                assert(lines[0] == shorter[0]);
            }
            if is_terminated(lines.last()) {
                assert forall|i: int| 0 <= i < lines.len() implies is_terminated(
                    #[trigger] lines[i],
                ) by {
                    if i < shorter.len() {
                        assert(lines[i] == shorter[i]);
                    }
                }
            } else {
                assert(!is_terminated(lines[lines.len() - 1]));
            }
        } else {
            let i = choose|i: int| 0 <= i < shorter.len() && !is_terminated(#[trigger] shorter[i]);
            assert(lines[i] == shorter[i]);
            assert(lines[0] == shorter[0]);
            assert(before == ConnectionView::Closed { reason: cut_off_reason(shorter) });
        }
    }
}

/// The bytes that replay the head of some lines are these lines as they
/// were read, then the blank line.
pub proof fn lemma_head_bytes_of_lines(request_line: Seq<u8>, header_lines: Seq<Seq<u8>>)
    ensures
        head_of_lines(request_line, header_lines).request_line == request_line,
        head_of_lines(request_line, header_lines).headers == Seq::new(
            header_lines.len(),
            |i: int| header_of(header_lines[i]),
        ),
        concat_lines(head_of_lines(request_line, header_lines).headers) == joined(header_lines),
        head_bytes(head_of_lines(request_line, header_lines)) == request_line + joined(header_lines)
            + blank_line(),
    decreases header_lines.len(),
{
    let head = head_of_lines(request_line, header_lines);
    let expected = Seq::new(header_lines.len(), |i: int| header_of(header_lines[i]));
    if header_lines.len() == 0 {
        assert(head.headers =~= expected);
    } else {
        lemma_head_bytes_of_lines(request_line, header_lines.drop_last());
        assert(head.headers =~= expected);
        assert(head.headers.drop_last() =~= head_of_lines(
            request_line,
            header_lines.drop_last(),
        ).headers);
    }
}

/// The relay keeps bytes and their order: where the upstream delivers
/// `chunks`, none of them empty, the client is written exactly these chunks
/// one after the other, and the connection awaits the next chunk.
pub proof fn lemma_relay_keeps_bytes(chunks: Seq<Seq<u8>>, table: RouteMap)
    requires
        none_empty(chunks),
    ensures
        run(ConnectionView::Receiving, relay_events(chunks), table) == ConnectionView::Receiving,
        written_to_client(actions(ConnectionView::Receiving, relay_events(chunks), table))
            == joined(chunks),
        sent_upstream(actions(ConnectionView::Receiving, relay_events(chunks), table)).len() == 0,
        dials(actions(ConnectionView::Receiving, relay_events(chunks), table)) == 0,
    decreases chunks.len(),
{
    let start = ConnectionView::Receiving;
    if chunks.len() > 0 {
        let shorter = chunks.drop_last();
        lemma_relay_keeps_bytes(shorter, table);
        let data = EventView::UpstreamData(chunks.last());
        let one = seq![data];
        let two = seq![EventView::ClientWritten];
        let tail = seq![data, EventView::ClientWritten];
        assert(tail =~= one + two);
        lemma_run_one(start, data, table);
        lemma_run_one(ConnectionView::Delivering, EventView::ClientWritten, table);
        lemma_run_concat(start, one, two, table);
        lemma_run_concat(start, relay_events(shorter), tail, table);
        let acts_tail = actions(start, tail, table);
        assert(acts_tail =~= seq![ActionView::WriteClient { bytes: chunks.last() }] + seq![
            ActionView::ReadUpstream { max_len: RELAY_CHUNK },
        ]);
        lemma_trace_one(ActionView::WriteClient { bytes: chunks.last() });
        lemma_trace_one(ActionView::ReadUpstream { max_len: RELAY_CHUNK });
        lemma_trace_concat(
            seq![ActionView::WriteClient { bytes: chunks.last() }],
            seq![ActionView::ReadUpstream { max_len: RELAY_CHUNK }],
        );
        lemma_trace_concat(actions(start, relay_events(shorter), table), acts_tail);
        assert(written_to_client(actions(start, relay_events(chunks), table)) =~= joined(chunks));
    }
}

/// Round trip through an upstream that echoes. A connection holds the head
/// `head`, for which the table has a route. The client's blank line
/// arrives, the upstream accepts, takes the request and answers with
/// `chunks`, none of them empty, which together are the bytes that replay
/// the head; then it ends its stream. The connection closes as completed,
/// the upstream was sent the head's bytes, and the client was written
/// exactly these bytes: the head as it was read, then the blank line.
pub proof fn lemma_echo_round_trip(
    head: HeadView,
    blank: Seq<u8>,
    chunks: Seq<Seq<u8>>,
    table: RouteMap,
)
    requires
        is_blank(blank),
        decision(head.headers, table) is Matched,
        none_empty(chunks),
        joined(chunks) == head_bytes(head),
    ensures
        ({
            let start = ConnectionView::AwaitingHeader { head };
            let events = seq![
                EventView::ClientLine(blank),
                EventView::Connected,
                EventView::RequestSent,
            ] + relay_events(chunks) + seq![EventView::UpstreamData(Seq::empty())];
            &&& run(start, events, table) == (ConnectionView::Closed {
                reason: CloseReason::Completed,
            })
            &&& sent_upstream(actions(start, events, table)) == head_bytes(head)
            &&& written_to_client(actions(start, events, table)) == head_bytes(head)
            &&& dials(actions(start, events, table)) == 1
        }),
{
    let start = ConnectionView::AwaitingHeader { head };
    let e1 = EventView::ClientLine(blank);
    let e2 = EventView::Connected;
    let e3 = EventView::RequestSent;
    let end = EventView::UpstreamData(Seq::empty());
    let opening = seq![e1, e2, e3];
    let events = opening + relay_events(chunks) + seq![end];
    let request = head_bytes(head);
    let dialing = ConnectionView::Dialing { request };
    let a1 = next(start, e1, table).1;
    let a2 = ActionView::SendRequest { bytes: request };
    let a3 = ActionView::ReadUpstream { max_len: RELAY_CHUNK };
    let a_end = ActionView::Close { reason: CloseReason::Completed };
    assert(next(start, e1, table) == routed(head, table));
    assert(next(start, e1, table).0 == dialing);
    assert(a1 is Dial);

    // The opening: blank line, connected, request sent.
    assert(opening =~= seq![e1] + seq![e2] + seq![e3]);
    lemma_run_one(start, e1, table);
    lemma_run_one(dialing, e2, table);
    lemma_run_one(ConnectionView::Sending, e3, table);
    lemma_run_concat(start, seq![e1], seq![e2], table);
    lemma_run_concat(start, seq![e1] + seq![e2], seq![e3], table);
    assert(run(start, opening, table) == ConnectionView::Receiving);
    let acts_opening = actions(start, opening, table);
    assert(acts_opening =~= seq![a1] + seq![a2] + seq![a3]);
    lemma_trace_one(a1);
    lemma_trace_one(a2);
    lemma_trace_one(a3);
    lemma_trace_concat(seq![a1], seq![a2]);
    lemma_trace_concat(seq![a1] + seq![a2], seq![a3]);
    assert(sent_upstream(acts_opening) =~= request);
    assert(written_to_client(acts_opening) =~= Seq::<u8>::empty());

    // The relay, then the end of the upstream's stream.
    lemma_relay_keeps_bytes(chunks, table);
    lemma_run_concat(start, opening, relay_events(chunks), table);
    lemma_run_one(ConnectionView::Receiving, end, table);
    lemma_run_concat(start, opening + relay_events(chunks), seq![end], table);
    let acts_relay = actions(ConnectionView::Receiving, relay_events(chunks), table);
    lemma_trace_one(a_end);
    lemma_trace_concat(acts_opening, acts_relay);
    lemma_trace_concat(acts_opening + acts_relay, seq![a_end]);
    let acts = actions(start, events, table);
    assert(acts == acts_opening + acts_relay + seq![a_end]);
    assert(sent_upstream(acts) =~= request);
    assert(written_to_client(acts) =~= request);
}

/// The states of `conns` after the event `e` went to the connection `who`.
pub open spec fn deliver(
    conns: Seq<ConnectionView>,
    who: int,
    e: EventView,
    table: RouteMap,
) -> Seq<ConnectionView> {
    if 0 <= who < conns.len() {
        conns.update(who, next(conns[who], e, table).0)
    } else {
        conns
    }
}

/// The states of `conns` after a schedule: a sequence of events, each with
/// the position of the connection that it went to.
pub open spec fn run_all(
    conns: Seq<ConnectionView>,
    schedule: Seq<(int, EventView)>,
    table: RouteMap,
) -> Seq<ConnectionView>
    decreases schedule.len(),
{
    if schedule.len() == 0 {
        conns
    } else {
        deliver(
            run_all(conns, schedule.drop_last(), table),
            schedule.last().0,
            schedule.last().1,
            table,
        )
    }
}

/// The events of a schedule that went to the connection `who`, in order.
pub open spec fn events_for(schedule: Seq<(int, EventView)>, who: int) -> Seq<EventView>
    decreases schedule.len(),
{
    if schedule.len() == 0 {
        Seq::empty()
    } else if schedule.last().0 == who {
        events_for(schedule.drop_last(), who).push(schedule.last().1)
    } else {
        events_for(schedule.drop_last(), who)
    }
}

/// Connections do not interfere. However the events of many connections
/// are interleaved, each connection ends where its own events alone take
/// it: what happens to the others, and when, changes nothing for it.
pub proof fn lemma_connections_independent(
    conns: Seq<ConnectionView>,
    schedule: Seq<(int, EventView)>,
    table: RouteMap,
    who: int,
)
    requires
        0 <= who < conns.len(),
    ensures
        run_all(conns, schedule, table).len() == conns.len(),
        run_all(conns, schedule, table)[who] == run(conns[who], events_for(schedule, who), table),
    decreases schedule.len(),
{
    if schedule.len() > 0 {
        lemma_connections_independent(conns, schedule.drop_last(), table, who);
        if schedule.last().0 == who {
            let mine = events_for(schedule, who);
            assert(mine.drop_last() =~= events_for(schedule.drop_last(), who));
            assert(mine.last() == schedule.last().1);
        }
    }
}

} // verus!

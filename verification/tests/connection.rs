use reverse_proxy::connection::{
    route, Action, CloseReason, Connection, Event, ForwardResult, Stage, RELAY_CHUNK,
};
use reverse_proxy::config::parse_config;
use reverse_proxy::request::parse_request_line;
use reverse_proxy::route::{Route, RouteTable};

fn table() -> RouteTable {
    RouteTable::build(vec![
        Route {
            domain: b"example.com".to_vec(),
            upstream_host: b"127.0.0.1".to_vec(),
            upstream_port: 9000,
        },
        Route {
            domain: b"api.example.com".to_vec(),
            upstream_host: b"10.0.0.2".to_vec(),
            upstream_port: 8080,
        },
    ])
    .unwrap()
}

/// The table of a configuration that holds `example.com 127.0.0.1 9000`.
fn scenario_table() -> RouteTable {
    RouteTable::build(parse_config(b"example.com 127.0.0.1 9000\n").unwrap()).unwrap()
}

fn line(bytes: &[u8]) -> Event {
    Event::ClientLine(bytes.to_vec())
}

fn data(bytes: &[u8]) -> Event {
    Event::UpstreamData(bytes.to_vec())
}

fn close(reason: CloseReason) -> Action {
    Action::Close { reason }
}

fn read_upstream() -> Action {
    Action::ReadUpstream { max_len: 4096 }
}

/// Hands `events` to a fresh connection and gives its last state and all its answers.
fn run(events: Vec<Event>, table: &RouteTable) -> (Connection, Vec<Action>) {
    let (mut conn, first) = Connection::accept();
    assert_eq!(first, Action::ReadLine);
    let mut actions = Vec::new();
    for event in events {
        let (next, action) = conn.step(event, table);
        conn = next;
        actions.push(action);
    }
    (conn, actions)
}

fn written_to_client(actions: &[Action]) -> Vec<u8> {
    let mut out = Vec::new();
    for a in actions {
        if let Action::WriteClient { bytes } = a {
            out.extend_from_slice(bytes);
        }
    }
    out
}

fn sent_upstream(actions: &[Action]) -> Vec<u8> {
    let mut out = Vec::new();
    for a in actions {
        if let Action::SendRequest { bytes } = a {
            out.extend_from_slice(bytes);
        }
    }
    out
}

fn dials(actions: &[Action]) -> usize {
    actions.iter().filter(|a| matches!(a, Action::Dial { .. })).count()
}

#[test]
fn relay_chunk_is_4096_bytes() {
    assert_eq!(RELAY_CHUNK, 4096);
}

#[test]
fn accepted_connection_asks_for_a_line() {
    let (conn, action) = Connection::accept();
    assert_eq!(conn, Connection::AwaitingRequestLine);
    assert_eq!(action, Action::ReadLine);
    assert_eq!(conn.stage(), Stage::Accepted);
    assert_eq!(conn.close_reason(), None);
}

#[test]
fn scenario_match() {
    let response = b"HTTP/1.1 200 OK\r\nContent-Length: 2\r\n\r\nOK";
    let (conn, actions) = run(
        vec![
            line(b"GET / HTTP/1.1\r\n"),
            line(b"Host: example.com\r\n"),
            line(b"\r\n"),
            Event::Connected,
            Event::RequestSent,
            data(response),
            Event::ClientWritten,
            data(b""),
        ],
        &scenario_table(),
    );
    assert_eq!(
        actions,
        vec![
            Action::ReadLine,
            Action::ReadLine,
            Action::Dial { host: b"127.0.0.1".to_vec(), port: 9000 },
            Action::SendRequest { bytes: b"GET / HTTP/1.1\r\nHost: example.com\r\n\r\n".to_vec() },
            read_upstream(),
            Action::WriteClient { bytes: response.to_vec() },
            read_upstream(),
            close(CloseReason::Completed),
        ]
    );
    assert_eq!(conn, Connection::Closed { reason: CloseReason::Completed });
    assert_eq!(written_to_client(&actions), response.to_vec());
}

#[test]
fn scenario_match_passes_through_every_stage() {
    let t = table();
    let (conn, _) = Connection::accept();
    assert_eq!(conn.stage(), Stage::Accepted);
    let (conn, _) = conn.step(line(b"GET / HTTP/1.1\r\n"), &t);
    assert_eq!(conn.stage(), Stage::Accepted);
    let (conn, _) = conn.step(line(b"Host: example.com\r\n"), &t);
    assert_eq!(conn.stage(), Stage::Accepted);
    let (conn, _) = conn.step(line(b"\r\n"), &t);
    assert_eq!(conn.stage(), Stage::Routed);
    let (conn, _) = conn.step(Event::Connected, &t);
    assert_eq!(conn.stage(), Stage::Forwarding);
    let (conn, _) = conn.step(Event::RequestSent, &t);
    assert_eq!(conn.stage(), Stage::Forwarding);
    let (conn, _) = conn.step(data(b"x"), &t);
    assert_eq!(conn.stage(), Stage::Forwarding);
    let (conn, _) = conn.step(Event::ClientWritten, &t);
    assert_eq!(conn.stage(), Stage::Forwarding);
    let (conn, _) = conn.step(data(b""), &t);
    assert_eq!(conn.stage(), Stage::Closed);
    assert_eq!(conn.close_reason(), Some(CloseReason::Completed));
}

#[test]
fn scenario_no_match() {
    let (conn, actions) = run(
        vec![line(b"GET / HTTP/1.1\r\n"), line(b"Host: other.com\r\n"), line(b"\r\n")],
        &scenario_table(),
    );
    assert_eq!(actions, vec![Action::ReadLine, Action::ReadLine, close(CloseReason::NoRoute)]);
    assert_eq!(conn, Connection::Closed { reason: CloseReason::NoRoute });
    assert_eq!(dials(&actions), 0);
    assert_eq!(written_to_client(&actions), Vec::<u8>::new());
}

#[test]
fn scenario_missing_host() {
    let (conn, actions) = run(
        vec![line(b"GET / HTTP/1.1\r\n"), line(b"Accept: */*\r\n"), line(b"\r\n")],
        &scenario_table(),
    );
    assert_eq!(actions, vec![Action::ReadLine, Action::ReadLine, close(CloseReason::HeaderMissing)]);
    assert_eq!(conn.close_reason(), Some(CloseReason::HeaderMissing));
    assert_eq!(dials(&actions), 0);
    assert_eq!(sent_upstream(&actions), Vec::<u8>::new());
    assert_eq!(written_to_client(&actions), Vec::<u8>::new());
}

#[test]
fn scenario_missing_host_without_any_header() {
    let (conn, actions) = run(vec![line(b"GET / HTTP/1.1\r\n"), line(b"\r\n")], &scenario_table());
    assert_eq!(actions, vec![Action::ReadLine, close(CloseReason::HeaderMissing)]);
    assert_eq!(conn.close_reason(), Some(CloseReason::HeaderMissing));
}

#[test]
fn scenario_upstream_down() {
    let (conn, actions) = run(
        vec![
            line(b"GET / HTTP/1.1\r\n"),
            line(b"Host: example.com\r\n"),
            line(b"\r\n"),
            Event::Failed,
        ],
        &scenario_table(),
    );
    assert_eq!(
        actions,
        vec![
            Action::ReadLine,
            Action::ReadLine,
            Action::Dial { host: b"127.0.0.1".to_vec(), port: 9000 },
            close(CloseReason::UpstreamUnreachable),
        ]
    );
    assert_eq!(conn.close_reason(), Some(CloseReason::UpstreamUnreachable));
    assert_eq!(sent_upstream(&actions), Vec::<u8>::new());
    assert_eq!(written_to_client(&actions), Vec::<u8>::new());
}

#[test]
fn boundary_short_request_line_still_reaches_the_router() {
    for request_line in [&b"GET /\r\n"[..], b"GET\r\n", b"   \r\n", b"x\n", b"\r\n"] {
        let (conn, actions) =
            run(vec![line(request_line), line(b"Host: other.com\r\n"), line(b"\n")], &table());
        assert_eq!(actions, vec![Action::ReadLine, Action::ReadLine, close(CloseReason::NoRoute)]);
        assert_eq!(conn.close_reason(), Some(CloseReason::NoRoute));
        let (conn, actions) = run(vec![line(request_line), line(b"\r\n")], &table());
        assert_eq!(actions, vec![Action::ReadLine, close(CloseReason::HeaderMissing)]);
        assert_eq!(conn.close_reason(), Some(CloseReason::HeaderMissing));
    }
}

#[test]
fn boundary_short_request_line_is_forwarded_as_read() {
    let (_, actions) = run(
        vec![line(b"GET\r\n"), line(b"Host: example.com\r\n"), line(b"\r\n"), Event::Connected],
        &table(),
    );
    assert_eq!(sent_upstream(&actions), b"GET\r\nHost: example.com\r\n\r\n".to_vec());
}

#[test]
fn short_request_line_holds_placeholders() {
    let (conn, _) = Connection::accept();
    let (conn, action) = conn.step(line(b"GET\r\n"), &table());
    assert_eq!(action, Action::ReadLine);
    match conn {
        Connection::AwaitingHeader { head } => {
            assert_eq!(head.method, b"GET".to_vec());
            assert_eq!(head.path, b"UNKNOWN_PATH".to_vec());
            assert_eq!(head.version, b"UNKNOWN_VERSION".to_vec());
        },
        other => panic!("{:?}", other),
    }
}

#[test]
fn stream_that_ends_before_any_line_is_connection_closed() {
    let (conn, actions) = run(vec![line(b"")], &table());
    assert_eq!(actions, vec![close(CloseReason::ConnectionClosed)]);
    assert_eq!(conn.close_reason(), Some(CloseReason::ConnectionClosed));
}

#[test]
fn stream_that_ends_inside_the_head_is_read_failed() {
    let (conn, actions) = run(vec![line(b"GET / HTTP/1.1\r\n"), line(b"")], &table());
    assert_eq!(actions, vec![Action::ReadLine, close(CloseReason::ConnectionReadFailed)]);
    assert_eq!(conn.close_reason(), Some(CloseReason::ConnectionReadFailed));
    let (conn, _) = run(
        vec![line(b"GET / HTTP/1.1\r\n"), line(b"Host: example.com"), line(b"")],
        &table(),
    );
    assert_eq!(conn.close_reason(), Some(CloseReason::ConnectionReadFailed));
}

#[test]
fn read_error_is_read_failed() {
    let (conn, actions) = run(vec![Event::Failed], &table());
    assert_eq!(actions, vec![close(CloseReason::ConnectionReadFailed)]);
    assert_eq!(conn.close_reason(), Some(CloseReason::ConnectionReadFailed));
    let (conn, _) = run(vec![line(b"GET / HTTP/1.1\r\n"), Event::Failed], &table());
    assert_eq!(conn.close_reason(), Some(CloseReason::ConnectionReadFailed));
}

#[test]
fn whitespace_line_is_a_header_line_not_the_blank_line() {
    let (conn, actions) = run(
        vec![
            line(b"GET / HTTP/1.1\r\n"),
            line(b"Host: example.com\r\n"),
            line(b"  \r\n"),
            line(b"\r\n"),
            Event::Connected,
        ],
        &table(),
    );
    assert_eq!(conn, Connection::Sending);
    assert_eq!(
        sent_upstream(&actions),
        b"GET / HTTP/1.1\r\nHost: example.com\r\n  \r\n\r\n".to_vec()
    );
}

#[test]
fn bare_line_feed_ends_the_head_and_a_full_blank_line_is_sent() {
    let (_, actions) = run(
        vec![line(b"GET / HTTP/1.1\n"), line(b"Host: example.com\n"), line(b"\n"), Event::Connected],
        &table(),
    );
    assert_eq!(sent_upstream(&actions), b"GET / HTTP/1.1\nHost: example.com\n\r\n".to_vec());
}

#[test]
fn upstream_write_failure_is_upstream_write_failed() {
    let (conn, actions) = run(
        vec![
            line(b"GET / HTTP/1.1\r\n"),
            line(b"Host: example.com\r\n"),
            line(b"\r\n"),
            Event::Connected,
            Event::Failed,
        ],
        &table(),
    );
    assert_eq!(conn.close_reason(), Some(CloseReason::UpstreamWriteFailed));
    assert_eq!(actions.last(), Some(&close(CloseReason::UpstreamWriteFailed)));
    assert_eq!(written_to_client(&actions), Vec::<u8>::new());
}

#[test]
fn upstream_read_failure_is_forward_interrupted() {
    let (conn, actions) = run(
        vec![
            line(b"GET / HTTP/1.1\r\n"),
            line(b"Host: example.com\r\n"),
            line(b"\r\n"),
            Event::Connected,
            Event::RequestSent,
            data(b"HTTP/1.1 200"),
            Event::ClientWritten,
            Event::Failed,
        ],
        &table(),
    );
    assert_eq!(conn.close_reason(), Some(CloseReason::ForwardInterrupted));
    assert_eq!(written_to_client(&actions), b"HTTP/1.1 200".to_vec());
}

#[test]
fn client_write_failure_is_forward_interrupted() {
    let (conn, actions) = run(
        vec![
            line(b"GET / HTTP/1.1\r\n"),
            line(b"Host: example.com\r\n"),
            line(b"\r\n"),
            Event::Connected,
            Event::RequestSent,
            data(b"HTTP/1.1 200"),
            Event::Failed,
        ],
        &table(),
    );
    assert_eq!(conn.close_reason(), Some(CloseReason::ForwardInterrupted));
    assert_eq!(actions.last(), Some(&close(CloseReason::ForwardInterrupted)));
}

#[test]
fn relay_keeps_bytes_and_order() {
    let chunks: Vec<Vec<u8>> = vec![
        b"HTTP/1.1 200 OK\r\n".to_vec(),
        b"Transfer-Encoding: chunked\r\n\r\n".to_vec(),
        vec![0u8, 255, 13, 10, 0],
        vec![b'x'; 4096],
        b"0\r\n\r\n".to_vec(),
    ];
    let mut events = vec![
        line(b"GET / HTTP/1.1\r\n"),
        line(b"Host: api.example.com\r\n"),
        line(b"\r\n"),
        Event::Connected,
        Event::RequestSent,
    ];
    for c in &chunks {
        events.push(Event::UpstreamData(c.clone()));
        events.push(Event::ClientWritten);
    }
    events.push(data(b""));
    let (conn, actions) = run(events, &table());
    assert_eq!(conn.close_reason(), Some(CloseReason::Completed));
    assert_eq!(written_to_client(&actions), chunks.concat());
    let writes: Vec<&Action> =
        actions.iter().filter(|a| matches!(a, Action::WriteClient { .. })).collect();
    assert_eq!(writes.len(), chunks.len());
    for (w, c) in writes.iter().zip(&chunks) {
        assert_eq!(**w, Action::WriteClient { bytes: c.clone() });
    }
    assert_eq!(dials(&actions), 1);
}

#[test]
fn echo_round_trip_gives_the_head_and_a_blank_line() {
    let head_lines: Vec<&[u8]> = vec![
        b"POST /submit?x=1 HTTP/1.1\r\n",
        b"Host:   example.com  \r\n",
        b"Content-Length: 5\r\n",
        b"X-Odd :\tvalue\n",
    ];
    let expected: Vec<u8> = [head_lines.concat(), b"\r\n".to_vec()].concat();
    let t = table();
    let (mut conn, _) = Connection::accept();
    let mut last = Action::ReadLine;
    for l in &head_lines {
        let (c, a) = conn.step(line(l), &t);
        conn = c;
        last = a;
    }
    assert_eq!(last, Action::ReadLine);
    let (conn, a) = conn.step(line(b"\r\n"), &t);
    assert_eq!(a, Action::Dial { host: b"127.0.0.1".to_vec(), port: 9000 });
    let (mut conn, a) = conn.step(Event::Connected, &t);
    let sent = match a {
        Action::SendRequest { bytes } => bytes,
        other => panic!("{:?}", other),
    };
    assert_eq!(sent, expected);
    let (c, a) = conn.step(Event::RequestSent, &t);
    conn = c;
    assert_eq!(a, read_upstream());
    let mut received = Vec::new();
    for chunk in sent.chunks(7) {
        let (c, a) = conn.step(data(chunk), &t);
        match a {
            Action::WriteClient { bytes } => received.extend_from_slice(&bytes),
            other => panic!("{:?}", other),
        }
        let (c, a) = c.step(Event::ClientWritten, &t);
        assert_eq!(a, read_upstream());
        conn = c;
    }
    let (conn, a) = conn.step(data(b""), &t);
    assert_eq!(a, close(CloseReason::Completed));
    assert_eq!(conn.close_reason(), Some(CloseReason::Completed));
    assert_eq!(received, expected);
}

#[test]
fn same_request_twice_gives_two_equal_outcomes() {
    let t = table();
    let events = || {
        vec![
            line(b"GET / HTTP/1.1\r\n"),
            line(b"Host: example.com\r\n"),
            line(b"\r\n"),
            Event::Connected,
            Event::RequestSent,
            data(b"HTTP/1.1 204 No Content\r\n\r\n"),
            Event::ClientWritten,
            data(b""),
        ]
    };
    let first = run(events(), &t);
    assert_eq!(t.lookup(b"example.com"), Some((b"127.0.0.1".to_vec(), 9000)));
    let second = run(events(), &t);
    assert_eq!(first, second);
    assert_eq!(first.0.close_reason(), Some(CloseReason::Completed));
}

#[test]
fn failure_of_one_connection_leaves_the_other_alone() {
    let t = table();
    let good = vec![
        line(b"GET / HTTP/1.1\r\n"),
        line(b"Host: example.com\r\n"),
        line(b"\r\n"),
        Event::Connected,
        Event::RequestSent,
        data(b"ok"),
        Event::ClientWritten,
        data(b""),
    ];
    let alone = run(good.clone(), &t);
    let (mut a, _) = Connection::accept();
    let (mut b, _) = Connection::accept();
    let mut a_actions = Vec::new();
    let bad = vec![line(b"GET / HTTP/1.1\r\n"), line(b"Host: example.com\r\n"), Event::Failed];
    for (i, e) in good.into_iter().enumerate() {
        if i < bad.len() {
            let (nb, _) = b.step(bad[i].clone(), &t);
            b = nb;
        } else {
            let (nb, act) = b.step(Event::Connected, &t);
            assert_eq!(act, close(CloseReason::ConnectionReadFailed));
            b = nb;
        }
        let (na, act) = a.step(e, &t);
        a = na;
        a_actions.push(act);
    }
    assert_eq!((a, a_actions), alone);
    assert_eq!(b.close_reason(), Some(CloseReason::ConnectionReadFailed));
}

#[test]
fn interleaved_connections_end_as_each_would_alone() {
    let t = table();
    let domains: Vec<&[u8]> = vec![b"example.com", b"api.example.com", b"other.com"];
    let scripts: Vec<Vec<Event>> = domains
        .iter()
        .enumerate()
        .map(|(i, d)| {
            let body = vec![b'a' + i as u8; 3 + i];
            vec![
                line(b"GET / HTTP/1.1\r\n"),
                Event::ClientLine([&b"Host: "[..], d, b"\r\n"].concat()),
                line(b"\r\n"),
                Event::Connected,
                Event::RequestSent,
                Event::UpstreamData(body),
                Event::ClientWritten,
                data(b""),
            ]
        })
        .collect();
    let alone: Vec<(Connection, Vec<Action>)> =
        scripts.iter().map(|s| run(s.clone(), &t)).collect();
    let mut conns: Vec<Connection> = scripts.iter().map(|_| Connection::accept().0).collect();
    let mut traces: Vec<Vec<Action>> = scripts.iter().map(|_| Vec::new()).collect();
    let mut cursors = vec![0usize; scripts.len()];
    let order = [2usize, 0, 0, 1, 2, 1, 0, 2, 2, 1, 0, 0, 1, 1, 2, 0, 1, 2, 0, 1, 2, 0, 1, 2];
    for who in order {
        if cursors[who] < scripts[who].len() {
            let event = scripts[who][cursors[who]].clone();
            cursors[who] += 1;
            let conn = std::mem::replace(&mut conns[who], Connection::AwaitingRequestLine);
            let (next, action) = conn.step(event, &t);
            conns[who] = next;
            traces[who].push(action);
        }
    }
    for who in 0..scripts.len() {
        assert_eq!(cursors[who], scripts[who].len());
        assert_eq!((conns[who].clone(), traces[who].clone()), alone[who]);
    }
    assert_eq!(conns[0].close_reason(), Some(CloseReason::Completed));
    assert_eq!(conns[1].close_reason(), Some(CloseReason::Completed));
    assert_eq!(conns[2].close_reason(), Some(CloseReason::NoRoute));
    assert_eq!(written_to_client(&traces[0]), b"aaa".to_vec());
    assert_eq!(written_to_client(&traces[1]), b"bbbb".to_vec());
}

#[test]
fn closed_connection_stays_closed() {
    let t = table();
    let (conn, _) = run(vec![line(b"")], &t);
    let mut conn = conn;
    for event in [
        line(b"GET / HTTP/1.1\r\n"),
        line(b""),
        Event::Connected,
        Event::RequestSent,
        data(b"x"),
        data(b""),
        Event::ClientWritten,
        Event::Failed,
    ] {
        let (next, action) = conn.step(event, &t);
        assert_eq!(action, close(CloseReason::ConnectionClosed));
        assert_eq!(next, Connection::Closed { reason: CloseReason::ConnectionClosed });
        conn = next;
    }
}

#[test]
fn event_out_of_place_is_the_failure_of_the_stage() {
    let t = table();
    let cases: Vec<(Connection, Vec<Event>, CloseReason)> = vec![
        (
            Connection::AwaitingRequestLine,
            vec![Event::Connected, Event::RequestSent, data(b"x"), Event::ClientWritten],
            CloseReason::ConnectionReadFailed,
        ),
        (
            Connection::Dialing { request: b"GET /\r\n\r\n".to_vec() },
            vec![line(b"x"), Event::RequestSent, data(b"x"), Event::ClientWritten, Event::Failed],
            CloseReason::UpstreamUnreachable,
        ),
        (
            Connection::Sending,
            vec![line(b"x"), Event::Connected, data(b"x"), Event::ClientWritten, Event::Failed],
            CloseReason::UpstreamWriteFailed,
        ),
        (
            Connection::Receiving,
            vec![line(b"x"), Event::Connected, Event::RequestSent, Event::ClientWritten],
            CloseReason::ForwardInterrupted,
        ),
        (
            Connection::Delivering,
            vec![line(b"x"), Event::Connected, Event::RequestSent, data(b"x"), data(b"")],
            CloseReason::ForwardInterrupted,
        ),
    ];
    for (state, events, reason) in cases {
        for event in events {
            let (next, action) = state.clone().step(event, &t);
            assert_eq!(action, close(reason));
            assert_eq!(next, Connection::Closed { reason });
        }
    }
}

#[test]
fn empty_table_routes_nothing() {
    let (conn, actions) = run(
        vec![line(b"GET / HTTP/1.1\r\n"), line(b"Host: example.com\r\n"), line(b"\r\n")],
        &RouteTable::empty(),
    );
    assert_eq!(conn.close_reason(), Some(CloseReason::NoRoute));
    assert_eq!(dials(&actions), 0);
}

#[test]
fn head_parsed_connection_is_routed_by_its_next_step() {
    let t = table();
    let mut head = parse_request_line(b"GET / HTTP/1.1\r\n".to_vec());
    head.push_header(b"Host: example.com\r\n".to_vec());
    let state = Connection::HeadParsed { head };
    assert_eq!(state.stage(), Stage::HeadParsed);
    for event in [Event::Failed, Event::Connected, line(b"x"), data(b"")] {
        let (next, action) = state.clone().step(event, &t);
        assert_eq!(action, Action::Dial { host: b"127.0.0.1".to_vec(), port: 9000 });
        assert_eq!(
            next,
            Connection::Dialing { request: b"GET / HTTP/1.1\r\nHost: example.com\r\n\r\n".to_vec() }
        );
    }
}

#[test]
fn route_closes_a_head_without_a_route() {
    let t = table();
    let head = parse_request_line(b"GET / HTTP/1.1\r\n".to_vec());
    assert_eq!(
        route(head.clone(), &t),
        (Connection::Closed { reason: CloseReason::HeaderMissing }, close(CloseReason::HeaderMissing))
    );
    let mut other = head;
    other.push_header(b"Host: nowhere.example\r\n".to_vec());
    assert_eq!(
        route(other, &t),
        (Connection::Closed { reason: CloseReason::NoRoute }, close(CloseReason::NoRoute))
    );
}

#[test]
fn forward_result_says_how_forwarding_ended() {
    assert_eq!(CloseReason::Completed.forward_result(), Some(ForwardResult::Completed));
    assert_eq!(
        CloseReason::UpstreamUnreachable.forward_result(),
        Some(ForwardResult::UpstreamUnreachable)
    );
    assert_eq!(
        CloseReason::UpstreamWriteFailed.forward_result(),
        Some(ForwardResult::UpstreamWriteFailed)
    );
    assert_eq!(
        CloseReason::ForwardInterrupted.forward_result(),
        Some(ForwardResult::ForwardInterrupted)
    );
    for reason in [
        CloseReason::ConnectionClosed,
        CloseReason::ConnectionReadFailed,
        CloseReason::HeaderMissing,
        CloseReason::NoRoute,
    ] {
        assert_eq!(reason.forward_result(), None);
    }
}

#[test]
fn routed_connection_ends_with_a_forward_result() {
    let t = table();
    let starts = [
        Connection::Dialing { request: b"GET / HTTP/1.1\r\n\r\n".to_vec() },
        Connection::Sending,
        Connection::Receiving,
        Connection::Delivering,
    ];
    let events = [
        line(b"GET / HTTP/1.1\r\n"),
        line(b""),
        Event::Connected,
        Event::RequestSent,
        data(b"x"),
        data(b""),
        Event::ClientWritten,
        Event::Failed,
    ];
    for start in &starts {
        for first in &events {
            for second in &events {
                let (c, _) = start.clone().step(first.clone(), &t);
                let (c, _) = c.step(second.clone(), &t);
                match c.close_reason() {
                    Some(reason) => assert!(reason.forward_result().is_some()),
                    None => assert!(matches!(c.stage(), Stage::Routed | Stage::Forwarding)),
                }
            }
        }
    }
}

#[test]
fn head_cut_off_inside_its_blank_line_is_not_routed() {
    let (conn, actions) = run(
        vec![line(b"GET / HTTP/1.1\r\n"), line(b"Host: example.com\r\n"), line(b"\r")],
        &scenario_table(),
    );
    assert_eq!(
        actions,
        vec![Action::ReadLine, Action::ReadLine, close(CloseReason::ConnectionReadFailed)]
    );
    assert_eq!(conn, Connection::Closed { reason: CloseReason::ConnectionReadFailed });
    assert_eq!(dials(&actions), 0);
    assert_eq!(sent_upstream(&actions), Vec::<u8>::new());
    assert_eq!(written_to_client(&actions), Vec::<u8>::new());
}

#[test]
fn head_cut_off_inside_a_header_line_fails_at_once() {
    let (conn, actions) = run(
        vec![line(b"GET / HTTP/1.1\r\n"), line(b"Host: example.com")],
        &scenario_table(),
    );
    assert_eq!(actions, vec![Action::ReadLine, close(CloseReason::ConnectionReadFailed)]);
    assert_eq!(conn.close_reason(), Some(CloseReason::ConnectionReadFailed));
}

#[test]
fn head_cut_off_inside_the_request_line_is_read_failed() {
    for partial in [&b"G"[..], b"GET / HTTP/1.1", b"GET / HTTP/1.1\r", b"\r"] {
        let (conn, actions) = run(vec![line(partial)], &scenario_table());
        assert_eq!(actions, vec![close(CloseReason::ConnectionReadFailed)]);
        assert_eq!(conn.close_reason(), Some(CloseReason::ConnectionReadFailed));
    }
}

#[test]
fn cut_off_heads_are_never_routed() {
    let whole: Vec<&[u8]> = vec![
        b"GET / HTTP/1.1\r\n",
        b"Host: example.com\r\n",
        b"Accept: */*\r\n",
        b"\r\n",
    ];
    let stream: Vec<u8> = whole.concat();
    for cut in 0..stream.len() {
        let mut events = Vec::new();
        let mut rest = &stream[..cut];
        while let Some(i) = rest.iter().position(|b| *b == b'\n') {
            events.push(line(&rest[..=i]));
            rest = &rest[i + 1..];
        }
        events.push(line(rest));
        if !rest.is_empty() {
            events.push(line(b""));
        }
        let (conn, actions) = run(events, &scenario_table());
        let expected =
            if cut == 0 { CloseReason::ConnectionClosed } else { CloseReason::ConnectionReadFailed };
        assert_eq!(conn.close_reason(), Some(expected));
        assert_eq!(dials(&actions), 0);
        assert_eq!(sent_upstream(&actions), Vec::<u8>::new());
        assert_eq!(written_to_client(&actions), Vec::<u8>::new());
    }
}

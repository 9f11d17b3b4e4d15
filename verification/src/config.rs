//! The routing configuration as text: one route per line.
//!
//! A line ends at a line feed; one carriage return before it is not part of
//! the line. A line without any byte is skipped. Every other line must hold
//! exactly three whitespace-separated fields, `domain upstream_host
//! upstream_port`, the last of them a port number; a line that does not,
//! a line of nothing but whitespace among them, makes the whole text invalid.

use crate::port::{
    decimal_digits, is_digit, lemma_digits_value, lemma_port_round_trip, parse_port, port_digits,
    port_of,
};
use crate::route::{distinct_domains, route_views, Route, RouteView};
use crate::text::{
    bytes_eq, copy_range, find_byte, index_of, is_space, lemma_index_of, lemma_index_of_prefix,
    lemma_index_of_shift, lemma_index_of_unique, lemma_tokens_are_words, lemma_tokens_of_word,
    lemma_tokens_prepend, lemma_word_end, no_spaces, skip_word, split_tokens, tokens, views, CR,
    LF,
};
use vstd::prelude::*;

verus! {

/// The space that parts the fields of a written route.
pub const SPACE: u8 = 0x20;

/// `line` without the one carriage return that may end it.
pub open spec fn without_cr(line: Seq<u8>) -> Seq<u8> {
    if line.len() > 0 && line.last() == CR {
        line.drop_last()
    } else {
        line
    }
}

/// The lines of `text` that start at or after `from`, in order, each
/// without its line feed and the carriage return before it. What follows
/// the last line feed is a line too, unless it is empty.
pub open spec fn lines_from(text: Seq<u8>, from: int) -> Seq<Seq<u8>>
    decreases text.len() - from,
{
    if 0 <= from < text.len() {
        let end = index_of(text, LF, from);
        let line = without_cr(text.subrange(from, end));
        if from <= end < text.len() {
            seq![line] + lines_from(text, end + 1)
        } else {
            seq![line]
        }
    } else {
        Seq::empty()
    }
}

/// The lines of `text`.
pub open spec fn lines(text: Seq<u8>) -> Seq<Seq<u8>> {
    lines_from(text, 0)
}

/// The route that a line writes, if it writes one: exactly three fields,
/// the third a port.
pub open spec fn route_of_line(line: Seq<u8>) -> Option<RouteView> {
    let fields = tokens(line);
    if fields.len() == 3 && port_of(fields[2]) is Some {
        Some(
            RouteView {
                domain: fields[0],
                upstream_host: fields[1],
                upstream_port: port_of(fields[2]).unwrap(),
            },
        )
    } else {
        None
    }
}

/// Whether a line is in order: empty, or a route.
pub open spec fn line_ok(line: Seq<u8>) -> bool {
    line.len() == 0 || route_of_line(line) is Some
}

/// Whether every line is in order.
pub open spec fn all_lines_ok(lines: Seq<Seq<u8>>) -> bool {
    forall|k: int| 0 <= k < lines.len() ==> line_ok(#[trigger] lines[k])
}

/// The position of the first line at or after `from` that is not in order,
/// or the number of lines where all are.
pub open spec fn first_malformed(lines: Seq<Seq<u8>>, from: int) -> int
    decreases lines.len() - from,
{
    if 0 <= from < lines.len() && line_ok(lines[from]) {
        first_malformed(lines, from + 1)
    } else {
        from
    }
}

/// The routes that the lines write, in order; lines that write none are
/// passed over.
pub open spec fn routes_of(lines: Seq<Seq<u8>>) -> Seq<RouteView>
    decreases lines.len(),
{
    if lines.len() == 0 {
        Seq::empty()
    } else if lines.last().len() > 0 && route_of_line(lines.last()) is Some {
        routes_of(lines.drop_last()).push(route_of_line(lines.last()).unwrap())
    } else {
        routes_of(lines.drop_last())
    }
}

/// A route as it is written: domain, host and port in decimal, with two
/// spaces between them.
pub open spec fn route_body(route: RouteView) -> Seq<u8> {
    route.domain + seq![SPACE, SPACE] + route.upstream_host + seq![SPACE, SPACE] + decimal_digits(
        route.upstream_port as nat,
    )
}

/// The line that writes a route: the route as it is written, and a line feed.
pub open spec fn route_line(route: RouteView) -> Seq<u8> {
    route_body(route) + seq![LF]
}

/// Whether a field can be written and read back: at least one byte, none
/// of them whitespace.
pub open spec fn field_ok(field: Seq<u8>) -> bool {
    field.len() > 0 && no_spaces(field)
}

/// Whether some entry has the domain `domain`.
pub open spec fn domain_taken(entries: Seq<RouteView>, domain: Seq<u8>) -> bool {
    exists|i: int| 0 <= i < entries.len() && (#[trigger] entries[i]).domain == domain
}

/// Whether no two entries share a port.
pub open spec fn distinct_ports(entries: Seq<RouteView>) -> bool {
    forall|i: int, j: int|
        0 <= i < j < entries.len() ==> (#[trigger] entries[i]).upstream_port != (
        #[trigger] entries[j]).upstream_port
}

/// Whether some entry has the port `port`.
pub open spec fn port_taken(entries: Seq<RouteView>, port: u16) -> bool {
    exists|i: int| 0 <= i < entries.len() && (#[trigger] entries[i]).upstream_port == port
}

/// `first_malformed` finds the first line that is not in order.
pub proof fn lemma_first_malformed(lines: Seq<Seq<u8>>, from: int)
    requires
        0 <= from <= lines.len(),
    ensures
        from <= first_malformed(lines, from) <= lines.len(),
        forall|k: int| from <= k < first_malformed(lines, from) ==> line_ok(#[trigger] lines[k]),
        first_malformed(lines, from) < lines.len() ==> !line_ok(lines[first_malformed(lines, from)]),
    decreases lines.len() - from,
{
    if from < lines.len() && line_ok(lines[from]) {
        lemma_first_malformed(lines, from + 1);
    }
}

/// The line at `k` is the one that `first_malformed` finds when it is not
/// in order and all before it are.
pub proof fn lemma_first_malformed_unique(lines: Seq<Seq<u8>>, from: int, k: int)
    requires
        0 <= from <= k <= lines.len(),
        forall|j: int| from <= j < k ==> line_ok(#[trigger] lines[j]),
        k < lines.len() ==> !line_ok(lines[k]),
    ensures
        first_malformed(lines, from) == k,
    decreases k - from,
{
    if from < k {
        lemma_first_malformed_unique(lines, from + 1, k);
    }
}

/// Where all lines of `seen` are in order and the next line is not, that
/// line is the first that is not.
pub proof fn lemma_malformed_at(lines: Seq<Seq<u8>>, seen: Seq<Seq<u8>>, line: Seq<u8>)
    requires
        all_lines_ok(seen),
        !line_ok(line),
        seen.len() < lines.len(),
        lines.subrange(0, seen.len() as int) == seen,
        lines[seen.len() as int] == line,
    ensures
        !all_lines_ok(lines),
        first_malformed(lines, 0) == seen.len(),
{
    assert forall|j: int| 0 <= j < seen.len() implies line_ok(#[trigger] lines[j]) by {
        assert(lines[j] == seen[j]);
    }
    lemma_first_malformed_unique(lines, 0, seen.len() as int);
}

/// A route that was read can be written: its domain and its host hold at
/// least one byte and no whitespace.
pub proof fn lemma_read_route_can_be_written(line: Seq<u8>)
    ensures
        route_of_line(line) matches Some(route) ==> field_ok(route.domain) && field_ok(
            route.upstream_host,
        ),
{
    lemma_tokens_are_words(line, 0);
    if route_of_line(line) is Some {
        let fields = tokens(line);
        assert(fields[0].len() > 0 && no_spaces(fields[0]));
        assert(fields[1].len() > 0 && no_spaces(fields[1]));
    }
}

/// The fields of a written route are its domain, its host and the digits
/// of its port.
pub proof fn lemma_route_body_tokens(route: RouteView)
    requires
        field_ok(route.domain),
        field_ok(route.upstream_host),
    ensures
        tokens(route_body(route)) == seq![
            route.domain,
            route.upstream_host,
            decimal_digits(route.upstream_port as nat),
        ],
{
    let d = route.domain;
    let h = route.upstream_host;
    let p = decimal_digits(route.upstream_port as nat);
    let gap = seq![SPACE, SPACE];
    lemma_digits_value(route.upstream_port as nat);
    assert forall|i: int| 0 <= i < p.len() implies !is_space(#[trigger] p[i]) by {
        assert(is_digit(p[i]));
    }
    assert(route_body(route) =~= d + gap + (h + gap + p));
    lemma_tokens_prepend(d, gap, h + gap + p);
    lemma_tokens_prepend(h, gap, p);
    lemma_tokens_of_word(p);
    assert(seq![d] + (seq![h] + seq![p]) =~= seq![d, h, p]);
}

/// A written route holds no line feed and does not end with a carriage
/// return.
pub proof fn lemma_route_body_one_line(route: RouteView)
    requires
        field_ok(route.domain),
        field_ok(route.upstream_host),
    ensures
        route_body(route).len() > 0,
        route_body(route).last() != CR,
        forall|j: int| 0 <= j < route_body(route).len() ==> route_body(route)[j] != LF,
{
    let d = route.domain;
    let h = route.upstream_host;
    let p = decimal_digits(route.upstream_port as nat);
    let gap = seq![SPACE, SPACE];
    let body = route_body(route);
    lemma_digits_value(route.upstream_port as nat);
    assert(body.last() == p.last());
    assert(is_digit(p.last()));
    assert forall|j: int| 0 <= j < body.len() implies body[j] != LF by {
        let b1 = d.len() as int;
        let a2 = b1 + 2;
        let b2 = a2 + h.len();
        let a3 = b2 + 2;
        if j < b1 {
            assert(body[j] == d[j]);
            assert(!is_space(d[j]));
        } else if j < a2 {
            assert(body[j] == gap[j - b1]);
        } else if j < b2 {
            assert(body[j] == h[j - a2]);
            assert(!is_space(h[j - a2]));
        } else if j < a3 {
            assert(body[j] == gap[j - b2]);
        } else {
            assert(body[j] == p[j - a3]);
            assert(is_digit(p[j - a3]));
        }
    }
}

/// A route with fields that can be written reads back from its line: the
/// line is one line, and the route of that line is the route.
pub proof fn lemma_route_line_reads_back(route: RouteView)
    requires
        field_ok(route.domain),
        field_ok(route.upstream_host),
    ensures
        lines(route_line(route)) == seq![route_body(route)],
        route_of_line(route_body(route)) == Some(route),
{
    let body = route_body(route);
    let text = route_line(route);
    lemma_route_body_tokens(route);
    lemma_route_body_one_line(route);
    lemma_port_round_trip(route.upstream_port);
    let n = body.len() as int;
    assert forall|j: int| 0 <= j < n implies text[j] != LF by {
        assert(text[j] == body[j]);
    }
    lemma_index_of_unique(text, LF, 0, n);
    assert(text.subrange(0, n) =~= body);
    assert(lines_from(text, n + 1) =~= Seq::<Seq<u8>>::empty());
    assert(lines(text) =~= seq![body]);
}

/// A text that ends inside a line has the same lines with a line feed
/// behind it.
pub proof fn lemma_lines_terminated(text: Seq<u8>, from: int)
    requires
        0 <= from < text.len(),
        text.last() != LF,
    ensures
        lines_from(text + seq![LF], from) == lines_from(text, from),
    decreases text.len() - from,
{
    let longer = text + seq![LF];
    let end = index_of(text, LF, from);
    lemma_index_of(text, LF, from);
    if end < text.len() {
        lemma_index_of_prefix(text, seq![LF], LF, from);
        assert(longer.subrange(from, end) =~= text.subrange(from, end));
        lemma_lines_terminated(text, end + 1);
    } else {
        assert forall|j: int| from <= j < text.len() implies longer[j] != LF by {
            assert(longer[j] == text[j]);
        }
        lemma_index_of_unique(longer, LF, from, text.len() as int);
        assert(longer.subrange(from, end) =~= text.subrange(from, end));
        assert(lines_from(longer, end + 1) =~= Seq::<Seq<u8>>::empty());
        assert(lines_from(longer, from) =~= lines_from(text, from));
    }
}

/// The lines of `more` behind `text`, from a position in `more`, are the
/// lines of `more` alone from that position.
pub proof fn lemma_lines_shift(text: Seq<u8>, more: Seq<u8>, k: int)
    requires
        0 <= k <= more.len(),
    ensures
        lines_from(text + more, text.len() + k) == lines_from(more, k),
    decreases more.len() - k,
{
    let whole = text + more;
    if k < more.len() {
        lemma_index_of_shift(text, more, LF, k);
        lemma_index_of(more, LF, k);
        let end = index_of(more, LF, k);
        assert(whole.subrange(text.len() + k, text.len() + end) =~= more.subrange(k, end));
        if end < more.len() {
            lemma_lines_shift(text, more, end + 1);
        }
    }
}

/// The lines of a text that is empty or ends with a line feed, with more
/// text behind it, are its own lines and then those of the other text.
pub proof fn lemma_lines_append(text: Seq<u8>, more: Seq<u8>, from: int)
    requires
        text.len() == 0 || text.last() == LF,
        0 <= from <= text.len(),
    ensures
        lines_from(text + more, from) == lines_from(text, from) + lines(more),
    decreases text.len() - from,
{
    let whole = text + more;
    if from == text.len() {
        lemma_lines_shift(text, more, 0);
        assert(lines_from(text, from) + lines(more) =~= lines(more));
    } else {
        lemma_index_of(text, LF, from);
        let end = index_of(text, LF, from);
        assert(end < text.len());
        lemma_index_of_prefix(text, more, LF, from);
        assert(whole.subrange(from, end) =~= text.subrange(from, end));
        lemma_lines_append(text, more, end + 1);
        let line = without_cr(text.subrange(from, end));
        assert(seq![line] + (lines_from(text, end + 1) + lines(more)) =~= (seq![line] + lines_from(
            text,
            end + 1,
        )) + lines(more));
    }
}

/// The routes of some lines with one more route line behind them are the
/// routes before and then the new one.
pub proof fn lemma_routes_of_push(before: Seq<Seq<u8>>, line: Seq<u8>)
    requires
        all_lines_ok(before),
        line.len() > 0,
        route_of_line(line) is Some,
    ensures
        all_lines_ok(before.push(line)),
        routes_of(before.push(line)) == routes_of(before).push(route_of_line(line).unwrap()),
{
    let after = before.push(line);
    assert(after.drop_last() =~= before);
    assert forall|k: int| 0 <= k < after.len() implies line_ok(#[trigger] after[k]) by {
        if k < before.len() {
            assert(after[k] == before[k]);
        }
    }
}

/// What `addition` gives can be appended: the longer text is valid, and
/// its routes are the routes of the text and then the new one.
pub proof fn lemma_addition_reads_back(text: Seq<u8>, candidate: RouteView)
    requires
        addition(text, candidate) is Ok,
    ensures
        all_lines_ok(lines(text + addition(text, candidate).unwrap())),
        routes_of(lines(text + addition(text, candidate).unwrap())) == routes_of(lines(text)).push(
            candidate,
        ),
{
    let sep = separator(text);
    let ended = text + sep;
    let line = route_line(candidate);
    let body = route_body(candidate);
    if sep.len() == 0 {
        assert(ended =~= text);
    } else {
        lemma_lines_terminated(text, 0);
    }
    assert(lines(ended) == lines(text));
    assert(ended.len() == 0 || ended.last() == LF);
    lemma_lines_append(ended, line, 0);
    lemma_route_line_reads_back(candidate);
    assert(text + (sep + line) =~= ended + line);
    assert(lines(text) + seq![body] =~= lines(text).push(body));
    assert(body.len() > 0) by {
        assert(route_of_line(body) is Some);
    }
    lemma_routes_of_push(lines(text), body);
}

/// Adding keeps domains and ports apart: where no two routes of a list
/// share a domain or a port, and a new route takes neither a domain nor a
/// port of the list, no two routes of the longer list share one.
pub proof fn lemma_addition_keeps_apart(entries: Seq<RouteView>, candidate: RouteView)
    requires
        distinct_domains(entries),
        distinct_ports(entries),
        !domain_taken(entries, candidate.domain),
        !port_taken(entries, candidate.upstream_port),
    ensures
        distinct_domains(entries.push(candidate)),
        distinct_ports(entries.push(candidate)),
{
    let longer = entries.push(candidate);
    assert forall|i: int, j: int| 0 <= i < j < longer.len() implies (#[trigger] longer[i]).domain != (
    #[trigger] longer[j]).domain && longer[i].upstream_port != longer[j].upstream_port by {
        assert(longer[i] == entries[i]);
        if j < entries.len() {
            assert(longer[j] == entries[j]);
        }
    }
}

/// The error of [`parse_config`]: the line at position `line`, counted from
/// zero, is neither empty nor a route.
#[derive(Clone, Copy, PartialEq, Eq, Debug)]
pub struct ConfigInvalid {
    pub line: usize,
}

/// Why a route cannot be added to a configuration.
#[derive(Clone, Copy, PartialEq, Eq, Debug)]
pub enum AddRouteError {
    /// The domain or the host of the new route is empty or holds
    /// whitespace, so its line could not be read back.
    FieldInvalid,
    /// The configuration is invalid as it stands, at this line.
    ConfigInvalid { line: usize },
    /// A route for this domain exists already.
    DomainExists,
    /// A route to this port exists already.
    PortInUse,
}

/// Reads the routes of a configuration text, or names its first line that
/// is neither empty nor a route.
pub fn parse_config(text: &[u8]) -> (r: Result<Vec<Route>, ConfigInvalid>)
    ensures
        r is Ok <==> all_lines_ok(lines(text@)),
        r matches Ok(routes) ==> route_views(routes@) == routes_of(lines(text@)),
        r matches Err(e) ==> e.line == first_malformed(lines(text@), 0) && e.line < lines(
            text@,
        ).len(),
{
    let mut routes: Vec<Route> = Vec::new();
    let mut i: usize = 0;
    let mut n: usize = 0;
    let ghost mut seen: Seq<Seq<u8>> = Seq::empty();
    assert(seen + lines_from(text@, 0) =~= lines(text@));
    assert(route_views(routes@) =~= routes_of(seen));
    while i < text.len()
        invariant
            i <= text@.len(),
            n <= i,
            n == seen.len(),
            lines(text@) == seen + lines_from(text@, i as int),
            all_lines_ok(seen),
            route_views(routes@) == routes_of(seen),
        decreases text.len() - i,
    {
        let end: usize = find_byte(text, LF, i);
        proof {
            lemma_index_of(text@, LF, i as int);
        }
        let stop: usize = if end > i && text[end - 1] == CR {
            end - 1
        } else {
            end
        };
        let line: Vec<u8> = copy_range(text, i, stop);
        let next: usize = if end < text.len() {
            end + 1
        } else {
            end
        };
        proof {
            let raw = text@.subrange(i as int, end as int);
            assert(line@ =~= without_cr(raw));
            assert(lines_from(text@, i as int) =~= seq![line@] + lines_from(text@, next as int));
            assert(seen + (seq![line@] + lines_from(text@, next as int)) =~= seen.push(line@)
                + lines_from(text@, next as int));
            assert(seen.push(line@).drop_last() =~= seen);
            assert(lines(text@).subrange(0, seen.len() as int) =~= seen);
            assert(lines(text@)[seen.len() as int] == line@);
        }
        if line.len() > 0 {
            let fields: Vec<Vec<u8>> = split_tokens(line.as_slice());
            assert(views(fields@) == tokens(line@));
            if fields.len() != 3 {
                proof {
                    lemma_malformed_at(lines(text@), seen, line@);
                }
                return Err(ConfigInvalid { line: n });
            }
            assert(fields[0]@ == views(fields@)[0]);
            assert(fields[1]@ == views(fields@)[1]);
            assert(fields[2]@ == views(fields@)[2]);
            match parse_port(fields[2].as_slice()) {
                None => {
                    proof {
                        lemma_malformed_at(lines(text@), seen, line@);
                    }
                    return Err(ConfigInvalid { line: n });
                },
                Some(port) => {
                    let route = Route {
                        domain: fields[0].clone(),
                        upstream_host: fields[1].clone(),
                        upstream_port: port,
                    };
                    let ghost before = route_views(routes@);
                    routes.push(route);
                    assert(route_views(routes@) =~= before.push(route@));
                },
            }
        }
        proof {
            seen = seen.push(line@);
        }
        i = next;
        n += 1;
    }
    assert(lines_from(text@, i as int) =~= Seq::<Seq<u8>>::empty());
    assert(seen + Seq::<Seq<u8>>::empty() =~= seen);
    Ok(routes)
}

/// Writes the line of a route.
pub fn format_route(route: &Route) -> (line: Vec<u8>)
    ensures
        line@ == route_line(route@),
{
    let mut line: Vec<u8> = route.domain.clone();
    line.push(SPACE);
    line.push(SPACE);
    line.extend_from_slice(route.upstream_host.as_slice());
    line.push(SPACE);
    line.push(SPACE);
    let digits: Vec<u8> = port_digits(route.upstream_port);
    line.extend_from_slice(digits.as_slice());
    line.push(LF);
    assert(line@ =~= route_line(route@));
    line
}

/// Whether `field` has at least one byte and no whitespace.
pub fn field_is_ok(field: &[u8]) -> (r: bool)
    ensures
        r == field_ok(field@),
{
    let end: usize = skip_word(field, 0);
    proof {
        lemma_word_end(field@, 0);
    }
    field.len() > 0 && end == field.len()
}

/// Whether a new route may join `existing`: its domain and its port are
/// both free.
pub fn check_new_route(existing: &Vec<Route>, candidate: &Route) -> (r: Result<(), AddRouteError>)
    ensures
        r is Ok <==> !domain_taken(route_views(existing@), candidate@.domain) && !port_taken(
            route_views(existing@),
            candidate@.upstream_port,
        ),
        r == Err::<(), AddRouteError>(AddRouteError::DomainExists) <==> domain_taken(
            route_views(existing@),
            candidate@.domain,
        ),
        r is Ok || r == Err::<(), AddRouteError>(AddRouteError::DomainExists) || r == Err::<
            (),
            AddRouteError,
        >(AddRouteError::PortInUse),
{
    let ghost entries = route_views(existing@);
    let mut i: usize = 0;
    while i < existing.len()
        invariant
            i <= existing@.len(),
            entries == route_views(existing@),
            forall|k: int| 0 <= k < i ==> (#[trigger] entries[k]).domain != candidate@.domain,
        decreases existing.len() - i,
    {
        if bytes_eq(existing[i].domain.as_slice(), candidate.domain.as_slice()) {
            assert(entries[i as int].domain == candidate@.domain);
            return Err(AddRouteError::DomainExists);
        }
        i += 1;
    }
    let mut j: usize = 0;
    while j < existing.len()
        invariant
            j <= existing@.len(),
            entries == route_views(existing@),
            !domain_taken(entries, candidate@.domain),
            forall|k: int| 0 <= k < j ==> (#[trigger] entries[k]).upstream_port != candidate@.upstream_port,
        decreases existing.len() - j,
    {
        if existing[j].upstream_port == candidate.upstream_port {
            assert(entries[j as int].upstream_port == candidate@.upstream_port);
            return Err(AddRouteError::PortInUse);
        }
        j += 1;
    }
    Ok(())
}

/// The line feed that must stand between `text` and a line added to it:
/// one where `text` ends inside a line, none where it is empty or ends with
/// a line feed.
pub open spec fn separator(text: Seq<u8>) -> Seq<u8> {
    if text.len() > 0 && text.last() != LF {
        seq![LF]
    } else {
        Seq::empty()
    }
}

/// What adding `candidate` to the configuration `text` appends to it: the
/// line of the new route, behind a line feed where `text` lacks one, if the
/// route's fields can be written, the text is valid, and neither the
/// route's domain nor its port is taken.
pub open spec fn addition(text: Seq<u8>, candidate: RouteView) -> Result<Seq<u8>, AddRouteError> {
    if !field_ok(candidate.domain) || !field_ok(candidate.upstream_host) {
        Err(AddRouteError::FieldInvalid)
    } else if !all_lines_ok(lines(text)) {
        Err(AddRouteError::ConfigInvalid { line: first_malformed(lines(text), 0) as usize })
    } else if domain_taken(routes_of(lines(text)), candidate.domain) {
        Err(AddRouteError::DomainExists)
    } else if port_taken(routes_of(lines(text)), candidate.upstream_port) {
        Err(AddRouteError::PortInUse)
    } else {
        Ok(separator(text) + route_line(candidate))
    }
}

/// Decides whether `candidate` may be added to the configuration `text`,
/// and gives the bytes to append where it may.
pub fn add_route(text: &[u8], candidate: &Route) -> (r: Result<Vec<u8>, AddRouteError>)
    ensures
        r is Ok <==> addition(text@, candidate@) is Ok,
        r matches Ok(line) ==> addition(text@, candidate@) == Ok::<Seq<u8>, AddRouteError>(line@),
        r matches Err(e) ==> addition(text@, candidate@) == Err::<Seq<u8>, AddRouteError>(e),
{
    if !field_is_ok(candidate.domain.as_slice()) || !field_is_ok(
        candidate.upstream_host.as_slice(),
    ) {
        return Err(AddRouteError::FieldInvalid);
    }
    match parse_config(text) {
        Err(e) => Err(AddRouteError::ConfigInvalid { line: e.line }),
        Ok(existing) => match check_new_route(&existing, candidate) {
            Err(e) => Err(e),
            Ok(()) => {
                let mut addition: Vec<u8> = Vec::new();
                if text.len() > 0 && text[text.len() - 1] != LF {
                    addition.push(LF);
                }
                let line: Vec<u8> = format_route(candidate);
                addition.extend_from_slice(line.as_slice());
                assert(addition@ =~= separator(text@) + route_line(candidate@));
                Ok(addition)
            },
        },
    }
}

} // verus!

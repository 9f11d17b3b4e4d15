//! The router: from the headers of a request to the upstream that serves it.
//!
//! The requested domain is the value of the first header whose name is
//! exactly `Host`: everything after the first colon of that line, without
//! surrounding whitespace. Later `Host` headers are not looked at.

use crate::request::{
    has_colon, header_name, header_of, header_value, header_views, lemma_header_padding,
    parse_header_value, Header, HeaderView,
};
use crate::route::{RouteMap, RouteTable};
use crate::text::{
    all_spaces, bytes_eq, index_of, is_space, is_trimmed, lemma_index_of, lemma_spaces_start,
    lemma_trimmed, COLON,
};
use vstd::prelude::*;

verus! {

/// What the router decides for one request.
#[derive(Clone, PartialEq, Eq, Debug)]
pub enum RouteDecision {
    /// The requested domain has a route, to this upstream.
    Matched { host: Vec<u8>, port: u16 },
    /// The request has no `Host` header.
    HeaderMissing,
    /// No route is registered for the requested domain.
    NoRoute { domain: Vec<u8> },
}

/// What a [`RouteDecision`] holds, as plain values.
pub enum RouteDecisionView {
    Matched { host: Seq<u8>, port: u16 },
    HeaderMissing,
    NoRoute { domain: Seq<u8> },
}

impl View for RouteDecision {
    type V = RouteDecisionView;

    open spec fn view(&self) -> RouteDecisionView {
        match self {
            RouteDecision::Matched { host, port } => RouteDecisionView::Matched {
                host: host@,
                port: *port,
            },
            RouteDecision::HeaderMissing => RouteDecisionView::HeaderMissing,
            RouteDecision::NoRoute { domain } => RouteDecisionView::NoRoute { domain: domain@ },
        }
    }
}

/// `Host`, the name of the header that carries the requested domain.
pub open spec fn host_name() -> Seq<u8> {
    seq![0x48u8, 0x6f, 0x73, 0x74]
}

/// The position of the first header at or after `from` whose name is
/// `Host`, or the number of headers where there is none.
pub open spec fn host_position(headers: Seq<HeaderView>, from: int) -> int
    decreases headers.len() - from,
{
    if 0 <= from < headers.len() && headers[from].name != host_name() {
        host_position(headers, from + 1)
    } else {
        from
    }
}

/// The domain that a request asks for: the value of its first `Host` header.
pub open spec fn requested_domain(headers: Seq<HeaderView>) -> Option<Seq<u8>> {
    let k = host_position(headers, 0);
    if k < headers.len() {
        Some(header_value(headers[k].raw_line))
    } else {
        None
    }
}

/// The decision for a request with these headers against this table.
pub open spec fn decision(headers: Seq<HeaderView>, table: RouteMap) -> RouteDecisionView {
    match requested_domain(headers) {
        None => RouteDecisionView::HeaderMissing,
        Some(domain) => if table.contains_key(domain) {
            RouteDecisionView::Matched { host: table[domain].0, port: table[domain].1 }
        } else {
            RouteDecisionView::NoRoute { domain }
        },
    }
}

/// `host_position` finds the first header named `Host`.
pub proof fn lemma_host_position(headers: Seq<HeaderView>, from: int)
    requires
        0 <= from <= headers.len(),
    ensures
        from <= host_position(headers, from) <= headers.len(),
        forall|j: int| from <= j < host_position(headers, from) ==> headers[j].name != host_name(),
        host_position(headers, from) < headers.len() ==> headers[host_position(
            headers,
            from,
        )].name == host_name(),
    decreases headers.len() - from,
{
    if from < headers.len() && headers[from].name != host_name() {
        lemma_host_position(headers, from + 1);
    }
}

/// The header at `k` is the one that `host_position` finds when it is named
/// `Host` and none before it is.
pub proof fn lemma_host_position_unique(headers: Seq<HeaderView>, from: int, k: int)
    requires
        0 <= from <= k < headers.len(),
        forall|j: int| from <= j < k ==> headers[j].name != host_name(),
        headers[k].name == host_name(),
    ensures
        host_position(headers, from) == k,
    decreases k - from,
{
    if from < k {
        lemma_host_position_unique(headers, from + 1, k);
    }
}

/// The requested domain does not depend on the whitespace around the colon
/// and the value of the `Host` line. Where no header of `before` is named
/// `Host`, and the next line is `Host`, `pad_a`, a colon, `pad_b`, `domain`
/// and `pad_c`, the requested domain is `domain`, whatever whitespace the three
/// pads hold and whatever headers follow.
pub proof fn lemma_requested_domain_ignores_padding(
    before: Seq<HeaderView>,
    pad_a: Seq<u8>,
    pad_b: Seq<u8>,
    domain: Seq<u8>,
    pad_c: Seq<u8>,
    after: Seq<HeaderView>,
)
    requires
        forall|j: int| 0 <= j < before.len() ==> (#[trigger] before[j]).name != host_name(),
        is_trimmed(domain),
        all_spaces(pad_a),
        all_spaces(pad_b),
        all_spaces(pad_c),
    ensures
        requested_domain(
            before + seq![header_of(host_name() + pad_a + seq![COLON] + pad_b + domain + pad_c)]
                + after,
        ) == Some(domain),
{
    let line = host_name() + pad_a + seq![COLON] + pad_b + domain + pad_c;
    let headers = before + seq![header_of(line)] + after;
    let k = before.len() as int;
    assert(index_of(host_name(), COLON, 0) == host_name().len()) by {
        reveal_with_fuel(index_of, 5);
    }
    lemma_header_padding(host_name(), pad_a, pad_b, domain, pad_c);
    assert(headers[k] == header_of(line));
    assert forall|j: int| 0 <= j < k implies headers[j].name != host_name() by {
        assert(headers[j] == before[j]);
    }
    lemma_host_position_unique(headers, 0, k);
}

/// An indented line is no `Host` header: a line that begins with whitespace
/// does not have the name `Host`, whatever follows the whitespace.
pub proof fn lemma_indented_line_is_not_host(line: Seq<u8>)
    requires
        line.len() > 0,
        is_space(line[0]),
    ensures
        header_name(line) != host_name(),
{
    let name = header_name(line);
    assert(host_name().len() == 4);
    assert(!is_space(host_name()[0]));
    if has_colon(line) {
        let c = index_of(line, COLON, 0);
        lemma_index_of(line, COLON, 0);
        let before = line.subrange(0, c);
        lemma_spaces_start(before, before.len() as int);
        if name.len() > 0 {
            assert(name[0] == before[0]);
            assert(before[0] == line[0]);
        }
    } else {
        assert(name.len() == 0);
    }
}

/// The requested domain neither begins nor ends with whitespace.
pub proof fn lemma_requested_domain_trimmed(headers: Seq<HeaderView>)
    ensures
        requested_domain(headers) matches Some(domain) ==> is_trimmed(domain),
{
    let k = host_position(headers, 0);
    if k < headers.len() {
        let line = headers[k].raw_line;
        if has_colon(line) {
            lemma_trimmed(line.subrange(index_of(line, COLON, 0) + 1, line.len() as int));
        }
    }
}

/// The domain that the request with these headers asks for, if it names one.
pub fn requested_host(headers: &Vec<Header>) -> (r: Option<Vec<u8>>)
    ensures
        r is Some <==> requested_domain(header_views(headers@)) is Some,
        r matches Some(domain) ==> requested_domain(header_views(headers@)) == Some(domain@),
{
    let host: Vec<u8> = vec![0x48u8, 0x6f, 0x73, 0x74];
    assert(host@ =~= host_name());
    let mut i: usize = 0;
    while i < headers.len() && !bytes_eq(headers[i].name.as_slice(), host.as_slice())
        invariant
            host@ == host_name(),
            host_position(header_views(headers@), 0) == host_position(
                header_views(headers@),
                i as int,
            ),
        decreases headers.len() - i,
    {
        i += 1;
    }
    if i < headers.len() {
        Some(parse_header_value(headers[i].raw_line.as_slice()))
    } else {
        None
    }
}

/// Decides where the request with these headers goes.
pub fn resolve(headers: &Vec<Header>, table: &RouteTable) -> (r: RouteDecision)
    ensures
        r@ == decision(header_views(headers@), table@),
{
    match requested_host(headers) {
        None => RouteDecision::HeaderMissing,
        Some(domain) => match table.lookup(domain.as_slice()) {
            Some((host, port)) => RouteDecision::Matched { host, port },
            None => RouteDecision::NoRoute { domain },
        },
    }
}

} // verus!

//! Routes and the route table: which upstream serves which domain.
//!
//! A domain is compared byte for byte with the value of the `Host` header:
//! case matters, and nothing is stripped or expanded. A table holds at most
//! one upstream per domain; a list of routes in which a domain occurs twice
//! is refused when the table is built.

use crate::text::bytes_eq;
use vstd::prelude::*;

verus! {

/// One route: requests for `domain` go to `upstream_host:upstream_port`.
#[derive(Clone, PartialEq, Eq, Debug)]
pub struct Route {
    pub domain: Vec<u8>,
    pub upstream_host: Vec<u8>,
    pub upstream_port: u16,
}

/// What a [`Route`] holds, as plain values.
pub struct RouteView {
    pub domain: Seq<u8>,
    pub upstream_host: Seq<u8>,
    pub upstream_port: u16,
}

impl View for Route {
    type V = RouteView;

    open spec fn view(&self) -> RouteView {
        RouteView {
            domain: self.domain@,
            upstream_host: self.upstream_host@,
            upstream_port: self.upstream_port,
        }
    }
}

/// The mapping that a route table stands for: domain to upstream host and port.
pub type RouteMap = Map<Seq<u8>, (Seq<u8>, u16)>;

/// The views of a list of routes, in order.
pub open spec fn route_views(routes: Seq<Route>) -> Seq<RouteView> {
    Seq::new(routes.len(), |i: int| routes[i]@)
}

/// Whether no two entries share a domain.
pub open spec fn distinct_domains(entries: Seq<RouteView>) -> bool {
    forall|i: int, j: int|
        0 <= i < j < entries.len() ==> (#[trigger] entries[i]).domain != (#[trigger] entries[j]).domain
}

/// The position of the first entry at or after `from` whose domain is
/// `domain`, or the number of entries where there is none.
pub open spec fn position_of(entries: Seq<RouteView>, domain: Seq<u8>, from: int) -> int
    decreases entries.len() - from,
{
    if 0 <= from < entries.len() && entries[from].domain != domain {
        position_of(entries, domain, from + 1)
    } else {
        from
    }
}

/// The position of the first entry at or after `from` whose domain an
/// earlier entry holds already, or the number of entries where there is none.
pub open spec fn first_repeat(entries: Seq<RouteView>, from: int) -> int
    decreases entries.len() - from,
{
    if 0 <= from < entries.len() && position_of(entries, entries[from].domain, 0) >= from {
        first_repeat(entries, from + 1)
    } else {
        from
    }
}

/// The mapping that a list of entries defines: each domain that occurs goes
/// to the upstream of its first entry.
pub open spec fn table_of(entries: Seq<RouteView>) -> RouteMap {
    Map::new(
        |d: Seq<u8>| position_of(entries, d, 0) < entries.len(),
        |d: Seq<u8>|
            {
                let r = entries[position_of(entries, d, 0)];
                (r.upstream_host, r.upstream_port)
            },
    )
}

/// `position_of` finds the first entry for a domain.
pub proof fn lemma_position_of(entries: Seq<RouteView>, domain: Seq<u8>, from: int)
    requires
        0 <= from <= entries.len(),
    ensures
        from <= position_of(entries, domain, from) <= entries.len(),
        forall|j: int| from <= j < position_of(entries, domain, from) ==> entries[j].domain != domain,
        position_of(entries, domain, from) < entries.len() ==> entries[position_of(
            entries,
            domain,
            from,
        )].domain == domain,
    decreases entries.len() - from,
{
    if from < entries.len() && entries[from].domain != domain {
        lemma_position_of(entries, domain, from + 1);
    }
}

/// `first_repeat` finds the first entry that repeats a domain.
pub proof fn lemma_first_repeat(entries: Seq<RouteView>, from: int)
    requires
        0 <= from <= entries.len(),
    ensures
        from <= first_repeat(entries, from) <= entries.len(),
        forall|j: int|
            from <= j < first_repeat(entries, from) ==> position_of(entries, entries[j].domain, 0)
                >= j,
        first_repeat(entries, from) < entries.len() ==> position_of(
            entries,
            entries[first_repeat(entries, from)].domain,
            0,
        ) < first_repeat(entries, from),
    decreases entries.len() - from,
{
    if from < entries.len() && position_of(entries, entries[from].domain, 0) >= from {
        lemma_first_repeat(entries, from + 1);
    }
}

/// A list has distinct domains exactly when no entry repeats one.
pub proof fn lemma_distinct_iff_no_repeat(entries: Seq<RouteView>)
    ensures
        distinct_domains(entries) <==> first_repeat(entries, 0) == entries.len(),
{
    lemma_first_repeat(entries, 0);
    let k = first_repeat(entries, 0);
    if k < entries.len() {
        lemma_position_of(entries, entries[k].domain, 0);
        let i = position_of(entries, entries[k].domain, 0);
        assert(entries[i].domain == entries[k].domain);
    } else {
        assert forall|i: int, j: int| 0 <= i < j < entries.len() implies (#[trigger] entries[i]).domain
            != (#[trigger] entries[j]).domain by {
            lemma_position_of(entries, entries[j].domain, 0);
        }
    }
}

/// Every entry of a list with distinct domains is found under its domain,
/// with exactly the upstream it was registered with.
pub proof fn lemma_lookup_registered(entries: Seq<RouteView>, i: int)
    requires
        distinct_domains(entries),
        0 <= i < entries.len(),
    ensures
        table_of(entries).contains_key(entries[i].domain),
        table_of(entries)[entries[i].domain] == (entries[i].upstream_host, entries[i].upstream_port),
{
    lemma_position_of(entries, entries[i].domain, 0);
    let k = position_of(entries, entries[i].domain, 0);
    assert(entries[k].domain == entries[i].domain);
}

/// A domain that no entry holds is not in the mapping.
pub proof fn lemma_lookup_absent(entries: Seq<RouteView>, domain: Seq<u8>)
    requires
        forall|i: int| 0 <= i < entries.len() ==> (#[trigger] entries[i]).domain != domain,
    ensures
        !table_of(entries).contains_key(domain),
{
    lemma_position_of(entries, domain, 0);
}

/// The error of [`RouteTable::build`]: `domain` occurs in two entries.
#[derive(Clone, PartialEq, Eq, Debug)]
pub struct DuplicateDomain {
    pub domain: Vec<u8>,
}

/// The routes that the proxy serves, found by domain.
#[derive(Debug)]
pub struct RouteTable {
    routes: Vec<Route>,
}

impl View for RouteTable {
    type V = RouteMap;

    closed spec fn view(&self) -> RouteMap {
        table_of(self.entries())
    }
}

impl RouteTable {
    /// The entries that the table was built from, in order.
    pub closed spec fn entries(&self) -> Seq<RouteView> {
        route_views(self.routes@)
    }

    /// A domain is the key of a table: no two entries share one.
    #[verifier::type_invariant]
    pub closed spec fn well_formed(&self) -> bool {
        distinct_domains(self.entries())
    }

    /// What a table stands for is the mapping of its entries.
    pub proof fn lemma_view(&self)
        ensures
            self@ == table_of(self.entries()),
    {
    }

    /// A table without routes: every lookup misses.
    pub fn empty() -> (t: RouteTable)
        ensures
            t.entries() == Seq::<RouteView>::empty(),
            t@ == Map::<Seq<u8>, (Seq<u8>, u16)>::empty(),
            t.well_formed(),
    {
        let t = RouteTable { routes: Vec::new() };
        assert(t.entries() =~= Seq::<RouteView>::empty());
        assert(t@ =~= Map::<Seq<u8>, (Seq<u8>, u16)>::empty());
        t
    }

    /// Builds the table of `routes`, or names the first domain that a later
    /// entry repeats.
    pub fn build(routes: Vec<Route>) -> (r: Result<RouteTable, DuplicateDomain>)
        ensures
            r is Ok <==> distinct_domains(route_views(routes@)),
            r matches Ok(t) ==> t.entries() == route_views(routes@) && t@ == table_of(
                route_views(routes@),
            ) && t.well_formed(),
            r matches Err(e) ==> first_repeat(route_views(routes@), 0) < routes@.len() && e.domain@
                == routes@[first_repeat(route_views(routes@), 0)].domain@,
    {
        let ghost entries = route_views(routes@);
        let mut j: usize = 0;
        while j < routes.len()
            invariant
                j <= routes@.len(),
                entries == route_views(routes@),
                first_repeat(entries, 0) == first_repeat(entries, j as int),
            decreases routes.len() - j,
        {
            let found: usize = Self::find(&routes, routes[j].domain.as_slice());
            if found < j {
                proof {
                    lemma_distinct_iff_no_repeat(entries);
                }
                return Err(DuplicateDomain { domain: routes[j].domain.clone() });
            }
            j += 1;
        }
        proof {
            lemma_distinct_iff_no_repeat(entries);
        }
        Ok(RouteTable { routes })
    }

    /// The position of the first of `routes` whose domain is `domain`, or
    /// their number.
    fn find(routes: &Vec<Route>, domain: &[u8]) -> (k: usize)
        ensures
            k == position_of(route_views(routes@), domain@, 0),
    {
        let mut i: usize = 0;
        while i < routes.len() && !bytes_eq(routes[i].domain.as_slice(), domain)
            invariant
                position_of(route_views(routes@), domain@, 0) == position_of(
                    route_views(routes@),
                    domain@,
                    i as int,
                ),
            decreases routes.len() - i,
        {
            i += 1;
        }
        i
    }

    /// The number of routes.
    pub fn len(&self) -> (n: usize)
        ensures
            n == self.entries().len(),
    {
        self.routes.len()
    }

    /// The upstream host and port registered for `domain`, if there is one.
    pub fn lookup(&self, domain: &[u8]) -> (r: Option<(Vec<u8>, u16)>)
        ensures
            r is Some <==> self@.contains_key(domain@),
            r matches Some((host, port)) ==> self@[domain@] == (host@, port),
    {
        let k: usize = Self::find(&self.routes, domain);
        if k < self.routes.len() {
            Some((self.routes[k].upstream_host.clone(), self.routes[k].upstream_port))
        } else {
            None
        }
    }
}

} // verus!

//! What it means for a route to match a request, dimension by dimension,
//! and the shared algebra of route multisets the matchers are specified with.

use vstd::prelude::*;
use vstd::multiset::Multiset;
use crate::bytes_util::ascii_lower;
use crate::regex_support::regex_found;
use crate::rule::{Route, RouteModel, PatternModel, HeaderConditionModel, ValueConditionModel,
    pattern_ok};
use crate::request::{RequestModel, req_method, request_has_header};
use crate::canon::canonical_path;

verus! {

broadcast use vstd::multiset::group_multiset_axioms, vstd::multiset::group_multiset_properties, vstd::seq_lib::group_to_multiset_ensures;

/// A route with no scheme restriction.
pub open spec fn scheme_is_any(m: RouteModel) -> bool {
    m.scheme is None
}

/// A scheme-restricted route whose scheme is the request's.
pub open spec fn scheme_specific_ok(m: RouteModel, req: RequestModel) -> bool {
    m.scheme is Some && req.scheme is Some && m.scheme->0 == req.scheme->0
}

/// A route open to any host: no host pattern, or the empty static host.
pub open spec fn host_is_any(m: RouteModel) -> bool {
    match m.host {
        Option::None => true,
        Option::Some(PatternModel::Static(s)) => s.len() == 0,
        Option::Some(PatternModel::Dynamic(_)) => false,
    }
}

/// A host-restricted route whose pattern selects the request's host.
pub open spec fn host_specific_ok(m: RouteModel, req: RequestModel) -> bool {
    !host_is_any(m) && req.host is Some && pattern_ok(m.host->0, req.host->0)
}

/// The method dimension: no method restriction, or the request's method
/// among the route's.
pub open spec fn method_ok(m: RouteModel, req: RequestModel) -> bool {
    m.methods.len() == 0 || m.methods.contains(req_method(req))
}

/// A header value the matcher may hand to the regex engine: visible ASCII
/// and tab only; anything else is skipped, as a header decoding error.
pub open spec fn value_decodable(v: Seq<u8>) -> bool {
    forall|i: int| 0 <= i < v.len() ==> (32 <= #[trigger] v[i] < 127 || v[i] == 9)
}

/// One header condition against the request. A Regex condition reads only
/// the decodable values of the header.
pub open spec fn cond_ok(c: HeaderConditionModel, req: RequestModel) -> bool {
    match c.condition {
        ValueConditionModel::NotExist => !request_has_header(req, c.header_name),
        ValueConditionModel::Static(s) => exists|j: int|
            0 <= j < req.headers.len() && ascii_lower((#[trigger] req.headers[j]).0)
                == c.header_name && req.headers[j].1 == s,
        ValueConditionModel::Regex(r) => exists|j: int|
            0 <= j < req.headers.len() && ascii_lower((#[trigger] req.headers[j]).0)
                == c.header_name && value_decodable(req.headers[j].1) && regex_found(
                r,
                req.headers[j].1,
            ),
    }
}

/// The header dimension: every condition of the route holds.
pub open spec fn headers_ok(m: RouteModel, req: RequestModel) -> bool {
    forall|i: int| 0 <= i < m.headers.len() ==> cond_ok(#[trigger] m.headers[i], req)
}

/// The path dimension, against the canonical matching key.
pub open spec fn path_ok(m: RouteModel, req: RequestModel) -> bool {
    pattern_ok(m.path, canonical_path(req.path_and_query))
}

/// Everything below the host layer.
pub open spec fn lower_ok(m: RouteModel, req: RequestModel) -> bool {
    method_ok(m, req) && headers_ok(m, req) && path_ok(m, req)
}

/// Whether the route's whole source selects the request, the any-host policy
/// aside.
pub open spec fn source_matches(m: RouteModel, req: RequestModel) -> bool {
    &&& (scheme_is_any(m) || scheme_specific_ok(m, req))
    &&& (host_is_any(m) || host_specific_ok(m, req))
    &&& lower_ok(m, req)
}

/// The models of a route sequence, in order.
pub open spec fn models_of(rs: Seq<Route>) -> Seq<RouteModel> {
    rs.map_values(|r: Route| r.model())
}

/// The multiset of models of a route sequence.
pub open spec fn routes_of(rs: Seq<Route>) -> Multiset<RouteModel> {
    models_of(rs).to_multiset()
}

pub proof fn lemma_routes_of_empty()
    ensures
        routes_of(Seq::<Route>::empty()) =~= Multiset::<RouteModel>::empty(),
{
    let s = Seq::<Route>::empty().map_values(|r: Route| r.model());
    assert(s.len() == 0);
    assert forall|m: RouteModel| routes_of(Seq::<Route>::empty()).count(m) == 0 by {
        if s.to_multiset().count(m) > 0 {
            assert(s.contains(m));
        }
    }
}

pub proof fn lemma_routes_of_push(rs: Seq<Route>, r: Route)
    ensures
        routes_of(rs.push(r)) == routes_of(rs).insert(r.model()),
{
    let f = |x: Route| x.model();
    assert(rs.push(r).map_values(f) =~= rs.map_values(f).push(r.model()));
}

pub proof fn lemma_filter_add(
    a: Multiset<RouteModel>,
    b: Multiset<RouteModel>,
    f: spec_fn(RouteModel) -> bool,
)
    ensures
        (a.add(b)).filter(f) =~= a.filter(f).add(b.filter(f)),
{
}

pub proof fn lemma_filter_none(a: Multiset<RouteModel>, f: spec_fn(RouteModel) -> bool)
    requires
        forall|m: RouteModel| #[trigger] a.contains(m) ==> !f(m),
    ensures
        a.filter(f) =~= Multiset::<RouteModel>::empty(),
{
    assert forall|m: RouteModel| a.filter(f).count(m) == 0 by {
        if a.count(m) > 0 {
            assert(a.contains(m));
        }
    }
}

pub proof fn lemma_filter_all(a: Multiset<RouteModel>, f: spec_fn(RouteModel) -> bool)
    requires
        forall|m: RouteModel| #[trigger] a.contains(m) ==> f(m),
    ensures
        a.filter(f) =~= a,
{
    assert forall|m: RouteModel| a.filter(f).count(m) == a.count(m) by {
        if a.count(m) > 0 {
            assert(a.contains(m));
        }
    }
}

pub proof fn lemma_filter_subset(a: Multiset<RouteModel>, f: spec_fn(RouteModel) -> bool, g: spec_fn(RouteModel) -> bool)
    requires
        forall|m: RouteModel| #[trigger] a.contains(m) ==> (f(m) == g(m)),
    ensures
        a.filter(f) =~= a.filter(g),
{
    assert forall|m: RouteModel| a.filter(f).count(m) == a.filter(g).count(m) by {
        if a.count(m) > 0 {
            assert(a.contains(m));
        }
    }
}

/// The members of `rs` that pass the path dimension.
pub open spec fn filter_path(rs: Multiset<RouteModel>, req: RequestModel) -> Multiset<RouteModel> {
    rs.filter(|m: RouteModel| path_ok(m, req))
}

/// The members that pass the header and path dimensions.
pub open spec fn filter_headers_path(rs: Multiset<RouteModel>, req: RequestModel) -> Multiset<
    RouteModel,
> {
    rs.filter(|m: RouteModel| headers_ok(m, req) && path_ok(m, req))
}

/// The members that pass everything below the host layer.
pub open spec fn filter_lower(rs: Multiset<RouteModel>, req: RequestModel) -> Multiset<
    RouteModel,
> {
    rs.filter(|m: RouteModel| lower_ok(m, req))
}

/// The host-specific members that fully match.
pub open spec fn host_specific_matched(rs: Multiset<RouteModel>, req: RequestModel) -> Multiset<
    RouteModel,
> {
    rs.filter(|m: RouteModel| host_specific_ok(m, req) && lower_ok(m, req))
}

/// The any-host members that fully match.
pub open spec fn host_any_matched(rs: Multiset<RouteModel>, req: RequestModel) -> Multiset<
    RouteModel,
> {
    rs.filter(|m: RouteModel| host_is_any(m) && lower_ok(m, req))
}

/// The host layer's verdict over a route population: host-specific matches
/// win; the any-host lane speaks only when they are silent.
pub open spec fn host_level_matched(rs: Multiset<RouteModel>, req: RequestModel) -> Multiset<
    RouteModel,
> {
    let specific = host_specific_matched(rs, req);
    if specific.len() > 0 {
        specific
    } else {
        host_any_matched(rs, req)
    }
}

/// The scheme-less members of a route population.
pub open spec fn scheme_any_part(rs: Multiset<RouteModel>) -> Multiset<RouteModel> {
    rs.filter(|m: RouteModel| scheme_is_any(m))
}

/// The members restricted to the request's scheme.
pub open spec fn scheme_part(rs: Multiset<RouteModel>, req: RequestModel) -> Multiset<
    RouteModel,
> {
    rs.filter(|m: RouteModel| scheme_specific_ok(m, req))
}

/// What the whole pipeline returns for a request, as a function of the route
/// population alone: each scheme lane applies the host policy to its own
/// routes, and the two verdicts are joined.
pub open spec fn match_model(rs: Multiset<RouteModel>, req: RequestModel) -> Multiset<
    RouteModel,
> {
    host_level_matched(scheme_any_part(rs), req).add(
        host_level_matched(scheme_part(rs, req), req),
    )
}

/// The members whose identifier differs from `id`.
pub open spec fn routes_without_id(rs: Multiset<RouteModel>, id: Seq<u8>) -> Multiset<RouteModel> {
    rs.filter(|m: RouteModel| m.id != id)
}

/// The members whose identifier is `id`.
pub open spec fn routes_with_id(rs: Multiset<RouteModel>, id: Seq<u8>) -> Multiset<RouteModel> {
    rs.filter(|m: RouteModel| m.id == id)
}

/// Anything that contains a route population.
pub trait RouteStore: Sized {
    spec fn store_ms(self) -> Multiset<RouteModel>;
}

/// The routes of a sequence of keyed lanes.
pub open spec fn lanes_ms<K, M: RouteStore>(ls: Seq<(K, M)>) -> Multiset<RouteModel>
    decreases ls.len(),
{
    if ls.len() == 0 {
        Multiset::empty()
    } else {
        ls[0].1.store_ms().add(lanes_ms(ls.subrange(1, ls.len() as int)))
    }
}

pub proof fn lemma_lanes_ms_push<K, M: RouteStore>(ls: Seq<(K, M)>, l: (K, M))
    ensures
        lanes_ms(ls.push(l)) =~= lanes_ms(ls).add(l.1.store_ms()),
    decreases ls.len(),
{
    if ls.len() == 0 {
        assert(ls.push(l)[0] == l);
        assert(ls.push(l).subrange(1, 1) =~= Seq::<(K, M)>::empty());
        assert(lanes_ms(ls.push(l).subrange(1, 1)) == Multiset::<RouteModel>::empty());
    } else {
        let rest = ls.subrange(1, ls.len() as int);
        assert(ls.push(l).subrange(1, ls.push(l).len() as int) =~= rest.push(l));
        lemma_lanes_ms_push(rest, l);
        assert(ls.push(l)[0] == ls[0]);
    }
}

pub proof fn lemma_lanes_ms_remove<K, M: RouteStore>(ls: Seq<(K, M)>, i: int)
    requires
        0 <= i < ls.len(),
    ensures
        lanes_ms(ls) =~= lanes_ms(ls.remove(i)).add(ls[i].1.store_ms()),
    decreases ls.len(),
{
    if i == 0 {
        assert(ls.remove(0) =~= ls.subrange(1, ls.len() as int));
    } else {
        let rest = ls.subrange(1, ls.len() as int);
        lemma_lanes_ms_remove(rest, i - 1);
        assert(ls.remove(i)[0] == ls[0]);
        assert(ls.remove(i).subrange(1, ls.remove(i).len() as int) =~= rest.remove(i - 1));
        assert(rest[i - 1] == ls[i]);
    }
}

pub proof fn lemma_lanes_ms_contains<K, M: RouteStore>(ls: Seq<(K, M)>, m: RouteModel)
    ensures
        lanes_ms(ls).contains(m) <==> (exists|i: int|
            0 <= i < ls.len() && (#[trigger] ls[i]).1.store_ms().contains(m)),
    decreases ls.len(),
{
    if ls.len() > 0 {
        let rest = ls.subrange(1, ls.len() as int);
        lemma_lanes_ms_contains(rest, m);
        if lanes_ms(ls).contains(m) {
            if ls[0].1.store_ms().contains(m) {
            } else {
                let j = choose|j: int|
                    0 <= j < rest.len() && (#[trigger] rest[j]).1.store_ms().contains(m);
                assert(ls[j + 1].1.store_ms().contains(m));
            }
        }
        if exists|i: int| 0 <= i < ls.len() && (#[trigger] ls[i]).1.store_ms().contains(m) {
            let i = choose|i: int|
                0 <= i < ls.len() && (#[trigger] ls[i]).1.store_ms().contains(m);
            if i > 0 {
                assert(rest[i - 1] == ls[i]);
            }
        }
    }
}

/// An absence condition holds exactly when the request carries no header of
/// the name; a header present with any value, the empty one included,
/// defeats it.
pub proof fn lemma_not_exist_condition(c: HeaderConditionModel, req: RequestModel)
    requires
        c.condition is NotExist,
    ensures
        cond_ok(c, req) <==> !request_has_header(req, c.header_name),
        forall|j: int|
            0 <= j < req.headers.len() && ascii_lower((#[trigger] req.headers[j]).0)
                == c.header_name ==> !cond_ok(c, req),
{
    assert forall|j: int|
        0 <= j < req.headers.len() && ascii_lower((#[trigger] req.headers[j]).0)
            == c.header_name implies !cond_ok(c, req) by {
        assert(request_has_header(req, c.header_name));
    }
}

} // verus!

//! The router: rules compiled into routes, handed to the matcher pipeline,
//! and the laws the pipeline obeys.

use vstd::prelude::*;
use vstd::multiset::Multiset;
use vstd::string::StringSliceAdditionalSpecFns;
use crate::rule::{Rule, Route, RouteModel, InvalidRule, rule_patterns_valid, compiled_route};
use crate::request::{Request, RequestModel};
use crate::scheme_matcher::SchemeMatcher;
use crate::matching::{routes_of, routes_without_id, routes_with_id, match_model, source_matches,
    scheme_is_any, scheme_any_part, scheme_part, host_level_matched, host_specific_matched,
    host_any_matched, host_specific_ok, host_is_any};

verus! {

broadcast use vstd::multiset::group_multiset_axioms, vstd::multiset::group_multiset_properties, vstd::seq_lib::group_to_multiset_ensures;

/// The engine: a population of compiled routes behind the scheme matcher.
pub struct Router {
    matcher: SchemeMatcher,
}

impl Router {
    /// Structural soundness.
    pub closed spec fn wf(self) -> bool {
        self.matcher.wf()
    }

    /// The compiled routes held.
    pub closed spec fn routes_ms(self) -> Multiset<RouteModel> {
        self.matcher.routes_ms()
    }

    /// An empty router.
    pub fn new() -> (r: Router)
        ensures
            r.wf(),
            r.routes_ms() =~= Multiset::<RouteModel>::empty(),
    {
        Router { matcher: SchemeMatcher::new() }
    }

    /// Compiles and stores one rule; a rule whose regex does not compile is
    /// rejected and the router left unchanged.
    pub fn insert(&mut self, rule: Rule) -> (r: Result<(), InvalidRule>)
        requires
            old(self).wf(),
        ensures
            final(self).wf(),
            (r is Ok) == rule_patterns_valid(rule.model()),
            r is Ok ==> final(self).routes_ms() =~= old(self).routes_ms().insert(
                compiled_route(rule.model()),
            ),
            r is Err ==> final(self).routes_ms() == old(self).routes_ms(),
    {
        let ghost rm = rule.model();
        match rule.compile() {
            Result::Ok(route) => {
                self.matcher.insert(route);
                Result::Ok(())
            },
            Result::Err(e) => Result::Err(e),
        }
    }

    /// Removes every route carrying `id`; true when something was removed.
    pub fn remove(&mut self, id: &str) -> (r: bool)
        requires
            old(self).wf(),
        ensures
            final(self).wf(),
            final(self).routes_ms() =~= routes_without_id(old(self).routes_ms(), id.spec_bytes()),
            r == (routes_with_id(old(self).routes_ms(), id.spec_bytes()).len() > 0),
    {
        self.matcher.remove(id.as_bytes())
    }

    /// The matched routes for a request: exactly the pipeline's verdict as a
    /// function of the route population.
    pub fn match_request(&self, request: &Request) -> (r: Vec<Route>)
        requires
            self.wf(),
        ensures
            routes_of(r@) =~= match_model(self.routes_ms(), request.model()),
    {
        self.matcher.match_request(request)
    }

    /// The explanation tree for a request; the routes it reaches are
    /// exactly the match set.
    pub fn trace(&self, request: &Request) -> (r: Vec<crate::trace::Trace>)
        requires
            self.wf(),
        ensures
            crate::trace::Trace::collected_children(r@) =~= match_model(
                self.routes_ms(),
                request.model(),
            ),
    {
        self.matcher.trace(request)
    }

    /// The budget a cache pass over the whole pipeline leaves.
    pub closed spec fn budget_after(self, limit: u64, level: u64) -> u64 {
        self.matcher.budget_after(limit, level)
    }

    /// Spends up to `limit` regex compilations across the pipeline, one per
    /// stored pattern down to `level` levels, and returns the budget that is
    /// left. The pass warms the regex engine only: no compiled value is
    /// kept.
    pub fn cache(&mut self, limit: u64, level: u64) -> (r: u64)
        requires
            old(self).wf(),
        ensures
            final(self).wf(),
            final(self).routes_ms() =~= old(self).routes_ms(),
            r == old(self).budget_after(limit, level),
    {
        self.matcher.cache(limit, level)
    }
}

/// Soundness: every route the pipeline returns is one of the population, and
/// its whole source selects the request.
pub proof fn lemma_match_sound(rs: Multiset<RouteModel>, req: RequestModel)
    ensures
        forall|m: RouteModel| #[trigger]
            match_model(rs, req).contains(m) ==> rs.contains(m) && source_matches(m, req),
{
    assert forall|m: RouteModel| #[trigger] match_model(rs, req).contains(m) implies rs.contains(
        m,
    ) && source_matches(m, req) by {
        let anyp = scheme_any_part(rs);
        let sp = scheme_part(rs, req);
        if host_level_matched(anyp, req).contains(m) {
            if host_specific_matched(anyp, req).len() > 0 {
                assert(host_specific_matched(anyp, req).count(m) > 0);
                assert(anyp.count(m) >= host_specific_matched(anyp, req).count(m));
            } else {
                assert(host_any_matched(anyp, req).count(m) > 0);
                assert(anyp.count(m) >= host_any_matched(anyp, req).count(m));
            }
            assert(anyp.contains(m));
            assert(rs.count(m) >= anyp.count(m));
        } else {
            assert(host_level_matched(sp, req).contains(m));
            if host_specific_matched(sp, req).len() > 0 {
                assert(sp.count(m) >= host_specific_matched(sp, req).count(m));
            } else {
                assert(sp.count(m) >= host_any_matched(sp, req).count(m));
            }
            assert(sp.contains(m));
            assert(rs.count(m) >= sp.count(m));
        }
    }
}

/// Completeness: a route whose source selects the request is returned,
/// unless the any-host policy silences it: a host-free route is withheld
/// exactly when a host-specific route of the same scheme bucket matched.
pub proof fn lemma_match_complete(rs: Multiset<RouteModel>, req: RequestModel, m: RouteModel)
    requires
        rs.contains(m),
        source_matches(m, req),
        host_specific_ok(m, req) || host_specific_matched(
            if scheme_is_any(m) {
                scheme_any_part(rs)
            } else {
                scheme_part(rs, req)
            },
            req,
        ).len() == 0,
    ensures
        match_model(rs, req).contains(m),
{
    let bucket = if scheme_is_any(m) {
        scheme_any_part(rs)
    } else {
        scheme_part(rs, req)
    };
    assert(bucket.count(m) == rs.count(m));
    assert(bucket.contains(m));
    if host_specific_ok(m, req) {
        assert(host_specific_matched(bucket, req).count(m) == bucket.count(m));
        assert(host_specific_matched(bucket, req).len() >= host_specific_matched(
            bucket,
            req,
        ).count(m));
        assert(host_level_matched(bucket, req).contains(m));
    } else {
        assert(host_is_any(m));
        assert(host_any_matched(bucket, req).count(m) == bucket.count(m));
        assert(host_level_matched(bucket, req).contains(m));
    }
    if scheme_is_any(m) {
        assert(match_model(rs, req).count(m) >= host_level_matched(bucket, req).count(m));
    } else {
        assert(match_model(rs, req).count(m) >= host_level_matched(bucket, req).count(m));
    }
}

/// Build-order independence: the match set is a function of the route
/// population alone, so any two routers holding the same routes agree on
/// every request.
pub proof fn lemma_match_order_independent(
    rs1: Multiset<RouteModel>,
    rs2: Multiset<RouteModel>,
    req: RequestModel,
)
    requires
        rs1 =~= rs2,
    ensures
        match_model(rs1, req) == match_model(rs2, req),
{
}

/// Inserting a route into an empty population and then removing its
/// identifier restores the empty population, which matches nothing.
pub proof fn lemma_insert_remove_restores_empty(m: RouteModel, req: RequestModel)
    ensures
        routes_without_id(Multiset::<RouteModel>::empty().insert(m), m.id) =~= Multiset::<
            RouteModel,
        >::empty(),
        match_model(Multiset::<RouteModel>::empty(), req) =~= Multiset::<RouteModel>::empty(),
{
    let one = Multiset::<RouteModel>::empty().insert(m);
    assert forall|x: RouteModel| routes_without_id(one, m.id).count(x) == 0 by {
        if x == m {
        } else {
            assert(one.count(x) == 0);
        }
    }
    let e = Multiset::<RouteModel>::empty();
    assert forall|x: RouteModel|
        host_specific_matched(scheme_any_part(e), req).count(x) == 0 && host_any_matched(
            scheme_any_part(e),
            req,
        ).count(x) == 0 && host_specific_matched(scheme_part(e, req), req).count(x) == 0
        && host_any_matched(scheme_part(e, req), req).count(x) == 0 by {
        assert(scheme_any_part(e).count(x) == 0);
        assert(scheme_part(e, req).count(x) == 0);
    }
    assert(host_specific_matched(scheme_any_part(e), req) =~= Multiset::<RouteModel>::empty());
    assert(host_any_matched(scheme_any_part(e), req) =~= Multiset::<RouteModel>::empty());
    assert(host_specific_matched(scheme_part(e, req), req) =~= Multiset::<RouteModel>::empty());
    assert(host_any_matched(scheme_part(e, req), req) =~= Multiset::<RouteModel>::empty());
    assert(match_model(e, req) =~= Multiset::<RouteModel>::empty());
}

impl Default for Router {
    /// The empty value, as Router::new builds it.
    fn default() -> (r: Self)
        ensures
            r.wf() && r.routes_ms() =~= Multiset::<RouteModel>::empty(),
    {
        Router::new()
    }
}

} // verus!

//! The method layer: routes bucketed by the method lists they declare, plus
//! a lane for routes open to any method.

use vstd::prelude::*;
use vstd::multiset::Multiset;
use crate::bytes_util::bytes_eq;
use crate::rule::{Route, RouteModel, clone_bytes_vec};
use crate::request::{Request, req_method};
use crate::header_matcher::HeaderMatcher;
use crate::route_matcher::append_routes;
use crate::matching::{routes_of, routes_without_id, routes_with_id, RouteStore, lanes_ms,
    lemma_lanes_ms_push, lemma_lanes_ms_remove, filter_lower, headers_ok,
    path_ok, method_ok, lower_ok, lemma_filter_add, lemma_filter_subset, lemma_filter_none};

verus! {

broadcast use vstd::multiset::group_multiset_axioms, vstd::multiset::group_multiset_properties, vstd::seq_lib::group_to_multiset_ensures;

/// Whether the byte-string list holds `x`.
fn list_contains_bytes(l: &Vec<Vec<u8>>, x: &[u8]) -> (r: bool)
    ensures
        r == l.deep_view().contains(x@),
{
    let mut i: usize = 0;
    while i < l.len()
        invariant
            0 <= i <= l@.len(),
            forall|j: int| 0 <= j < i ==> (#[trigger] l.deep_view()[j]) != x@,
        decreases l@.len() - i,
    {
        proof {
            assert(l.deep_view()[i as int] == l@[i as int]@);
        }
        if bytes_eq(l[i].as_slice(), x) {
            proof {
                assert(l.deep_view().contains(x@));
            }
            return true;
        }
        i += 1;
    }
    proof {
        if l.deep_view().contains(x@) {
            let j = choose|j: int| 0 <= j < l.deep_view().len() && l.deep_view()[j] == x@;
            assert(l.deep_view()[j] != x@);
        }
    }
    false
}

/// Whether two byte-string lists are equal element by element.
fn bytes_list_eq(a: &Vec<Vec<u8>>, b: &Vec<Vec<u8>>) -> (r: bool)
    ensures
        r == (a.deep_view() == b.deep_view()),
{
    if a.len() != b.len() {
        proof {
            assert(a.deep_view().len() != b.deep_view().len());
        }
        return false;
    }
    let mut i: usize = 0;
    while i < a.len()
        invariant
            0 <= i <= a@.len(),
            a@.len() == b@.len(),
            forall|j: int| 0 <= j < i ==> (#[trigger] a.deep_view()[j]) == b.deep_view()[j],
        decreases a@.len() - i,
    {
        proof {
            assert(a.deep_view()[i as int] == a@[i as int]@);
            assert(b.deep_view()[i as int] == b@[i as int]@);
        }
        if !bytes_eq(a[i].as_slice(), b[i].as_slice()) {
            proof {
                assert(a.deep_view()[i as int] != b.deep_view()[i as int]);
            }
            return false;
        }
        i += 1;
    }
    proof {
        assert(a.deep_view() =~= b.deep_view());
    }
    true
}

/// Matches on the request's method.
pub struct MethodMatcher {
    any_method: HeaderMatcher,
    lanes: Vec<(Vec<Vec<u8>>, HeaderMatcher)>,
}

impl RouteStore for MethodMatcher {
    open spec fn store_ms(self) -> Multiset<RouteModel> {
        self.routes_ms()
    }
}

impl MethodMatcher {
    /// The routes this layer holds.
    pub closed spec fn routes_ms(self) -> Multiset<RouteModel> {
        self.any_method.routes_ms().add(lanes_ms(self.lanes@))
    }

    /// Lanes agree with their method lists, and the any lane holds only
    /// method-free routes.
    pub closed spec fn wf(self) -> bool {
        &&& self.any_method.wf()
        &&& (forall|m: RouteModel|
            #[trigger] self.any_method.store_ms().contains(m) ==> m.methods.len() == 0)
        &&& (forall|i: int| 0 <= i < self.lanes@.len() ==> (#[trigger] self.lanes@[i].1).wf())
        &&& (forall|i: int, m: RouteModel|
            0 <= i < self.lanes@.len() && (#[trigger] self.lanes@[i].1.store_ms().contains(m))
                ==> m.methods == self.lanes@[i].0.deep_view() && m.methods.len() > 0)
    }

    /// An empty layer.
    pub fn new() -> (r: MethodMatcher)
        ensures
            r.wf(),
            r.routes_ms() =~= Multiset::<RouteModel>::empty(),
    {
        let r = MethodMatcher { any_method: HeaderMatcher::new(), lanes: Vec::new() };
        proof {
            assert(r.lanes@ =~= Seq::<(Vec<Vec<u8>>, HeaderMatcher)>::empty());
        }
        r
    }

    /// The sub-matcher a fresh lane starts from.
    pub fn create_sub_matcher() -> (r: HeaderMatcher)
        ensures
            r.wf(),
            r.routes_ms() =~= Multiset::<RouteModel>::empty(),
    {
        HeaderMatcher::new()
    }

    /// Stores a route under its method list.
    #[verifier::loop_isolation(false)]
    pub fn insert(&mut self, route: Route)
        requires
            old(self).wf(),
        ensures
            final(self).wf(),
            final(self).routes_ms() =~= old(self).routes_ms().insert(route.model()),
    {
        let ghost rm = route.model();
        if route.methods.len() == 0 {
            self.any_method.insert(route);
            proof {
                assert(rm.methods.len() == 0);
                assert forall|m: RouteModel| #[trigger]
                    self.any_method.store_ms().contains(m) implies m.methods.len() == 0 by {
                    if m != rm {
                        assert(old(self).any_method.store_ms().contains(m));
                    }
                }
            }
            return ;
        }
        let key = clone_bytes_vec(&route.methods);
        proof {
            assert(key.deep_view() =~= rm.methods);
        }
        let mut i: usize = 0;
        while i < self.lanes.len()
            invariant
                *self == *old(self),
                0 <= i <= self.lanes@.len(),
            decreases self.lanes@.len() - i,
        {
            if bytes_list_eq(&self.lanes[i].0, &key) {
                let ghost pre = self.lanes@;
                let (k, mut sub) = self.lanes.remove(i);
                let ghost sub0 = sub;
                sub.insert(route);
                proof {
                    lemma_lanes_ms_remove(pre, i as int);
                }
                self.lanes.push((k, sub));
                proof {
                    assert(self.lanes@ == pre.remove(i as int).push((k, sub)));
                    lemma_lanes_ms_push(pre.remove(i as int), (k, sub));
                    assert(lanes_ms(self.lanes@) =~= lanes_ms(pre).insert(rm));
                    assert forall|j: int, m: RouteModel|
                        0 <= j < self.lanes@.len() && (#[trigger] self.lanes@[j].1.store_ms()
                            .contains(m)) implies m.methods == self.lanes@[j].0.deep_view()
                        && m.methods.len() > 0 by {
                        if j < self.lanes@.len() - 1 {
                            let o = if j < i { j } else { j + 1 };
                            assert(self.lanes@[j] == pre[o]);
                        } else {
                            assert(self.lanes@[j] == (k, sub));
                            if m != rm {
                                assert(sub0.store_ms().contains(m));
                                assert(pre[i as int].1.store_ms().contains(m));
                            }
                        }
                    }
                    assert forall|j: int| 0 <= j < self.lanes@.len() implies (
                    #[trigger] self.lanes@[j].1).wf() by {
                        if j < self.lanes@.len() - 1 {
                            let o = if j < i { j } else { j + 1 };
                            assert(self.lanes@[j] == pre[o]);
                        }
                    }
                }
                return ;
            }
            i += 1;
        }
        let mut sub = HeaderMatcher::new();
        sub.insert(route);
        let ghost pre = self.lanes@;
        self.lanes.push((key, sub));
        proof {
            lemma_lanes_ms_push(pre, self.lanes@.last());
            assert(sub.store_ms() =~= Multiset::<RouteModel>::empty().insert(rm));
            assert(lanes_ms(self.lanes@) =~= lanes_ms(pre).insert(rm));
            assert forall|j: int, m: RouteModel|
                0 <= j < self.lanes@.len() && (#[trigger] self.lanes@[j].1.store_ms().contains(
                    m,
                )) implies m.methods == self.lanes@[j].0.deep_view() && m.methods.len() > 0 by {
                if j < self.lanes@.len() - 1 {
                    assert(self.lanes@[j] == pre[j]);
                } else {
                    assert(m == rm);
                }
            }
            assert forall|j: int| 0 <= j < self.lanes@.len() implies (
            #[trigger] self.lanes@[j].1).wf() by {
                if j < self.lanes@.len() - 1 {
                    assert(self.lanes@[j] == pre[j]);
                }
            }
        }
    }

    /// Returns the routes passing the method, header and path dimensions.
    #[verifier::loop_isolation(false)]
    pub fn match_request(&self, request: &Request) -> (r: Vec<Route>)
        requires
            self.wf(),
        ensures
            routes_of(r@) =~= filter_lower(self.routes_ms(), request.model()),
    {
        let ghost req = request.model();
        let method = request.method();
        let mut out = self.any_method.match_request(request);
        proof {
            assert forall|m: RouteModel| #[trigger]
                self.any_method.store_ms().contains(m) implies ((headers_ok(m, req) && path_ok(
                m,
                req,
            )) == lower_ok(m, req)) by {
                assert(m.methods.len() == 0);
                assert(method_ok(m, req));
            }
            lemma_filter_subset(
                self.any_method.store_ms(),
                |m: RouteModel| headers_ok(m, req) && path_ok(m, req),
                |m: RouteModel| lower_ok(m, req),
            );
            assert(routes_of(out@) =~= filter_lower(self.any_method.store_ms(), req));
            assert(self.lanes@.subrange(0, 0) =~= Seq::<(Vec<Vec<u8>>, HeaderMatcher)>::empty());
        }
        let ghost any_part = routes_of(out@);
        let mut g: usize = 0;
        while g < self.lanes.len()
            invariant
                0 <= g <= self.lanes@.len(),
                routes_of(out@) =~= any_part.add(
                    filter_lower(lanes_ms(self.lanes@.subrange(0, g as int)), req),
                ),
            decreases self.lanes@.len() - g,
        {
            let ghost pre = self.lanes@.subrange(0, g as int);
            let ghost lane = self.lanes@[g as int];
            proof {
                assert(self.lanes@.subrange(0, g as int + 1) =~= pre.push(lane));
                lemma_lanes_ms_push(pre, lane);
                lemma_filter_add(
                    lanes_ms(pre),
                    lane.1.store_ms(),
                    |m: RouteModel| lower_ok(m, req),
                );
            }
            if list_contains_bytes(&self.lanes[g].0, method.as_slice()) {
                proof {
                    assert(lane.0.deep_view().contains(req_method(req)));
                    assert forall|m: RouteModel| #[trigger]
                        lane.1.store_ms().contains(m) implies ((headers_ok(m, req) && path_ok(
                        m,
                        req,
                    )) == lower_ok(m, req)) by {
                        assert(m.methods == lane.0.deep_view());
                        assert(method_ok(m, req));
                    }
                    lemma_filter_subset(
                        lane.1.store_ms(),
                        |m: RouteModel| headers_ok(m, req) && path_ok(m, req),
                        |m: RouteModel| lower_ok(m, req),
                    );
                }
                let more = self.lanes[g].1.match_request(request);
                append_routes(&mut out, more);
            } else {
                proof {
                    assert forall|m: RouteModel| #[trigger]
                        lane.1.store_ms().contains(m) implies !lower_ok(m, req) by {
                        assert(m.methods == lane.0.deep_view());
                        assert(m.methods.len() > 0);
                        assert(!m.methods.contains(req_method(req)));
                    }
                    lemma_filter_none(lane.1.store_ms(), |m: RouteModel| lower_ok(m, req));
                }
            }
            g += 1;
        }
        proof {
            assert(self.lanes@.subrange(0, self.lanes@.len() as int) =~= self.lanes@);
            lemma_filter_add(
                self.any_method.store_ms(),
                lanes_ms(self.lanes@),
                |m: RouteModel| lower_ok(m, req),
            );
        }
        out
    }

    /// The layer's trace: the any-method lane, then one node per method
    /// bucket, opened only when the request's method is in its list.
    #[verifier::loop_isolation(false)]
    pub fn trace(&self, request: &Request) -> (r: Vec<crate::trace::Trace>)
        requires
            self.wf(),
        ensures
            crate::trace::Trace::collected_children(r@) =~= filter_lower(
                self.routes_ms(),
                request.model(),
            ),
    {
        let ghost req = request.model();
        let method = request.method();
        let any_traces = self.any_method.trace(request);
        let empty_routes: Vec<Route> = Vec::new();
        let any_node = crate::trace::Trace::new(
            crate::trace::label_bytes("Any method"),
            true,
            true,
            0,
            any_traces,
            empty_routes,
        );
        let mut out: Vec<crate::trace::Trace> = Vec::new();
        proof {
            crate::matching::lemma_routes_of_empty();
            assert(out@ =~= Seq::<crate::trace::Trace>::empty());
            assert forall|m: RouteModel| #[trigger]
                self.any_method.store_ms().contains(m) implies ((headers_ok(m, req) && path_ok(
                m,
                req,
            )) == lower_ok(m, req)) by {
                assert(m.methods.len() == 0);
                assert(method_ok(m, req));
            }
            lemma_filter_subset(
                self.any_method.store_ms(),
                |m: RouteModel| headers_ok(m, req) && path_ok(m, req),
                |m: RouteModel| lower_ok(m, req),
            );
            assert(any_node.collected() =~= filter_lower(self.any_method.store_ms(), req));
        }
        out.push(any_node);
        proof {
            crate::trace::lemma_collected_children_push(
                Seq::<crate::trace::Trace>::empty(),
                any_node,
            );
            assert(out@ =~= Seq::<crate::trace::Trace>::empty().push(any_node));
            assert(self.lanes@.subrange(0, 0) =~= Seq::<(Vec<Vec<u8>>, HeaderMatcher)>::empty());
        }
        let ghost any_part = crate::trace::Trace::collected_children(out@);
        let mut g: usize = 0;
        while g < self.lanes.len()
            invariant
                0 <= g <= self.lanes@.len(),
                crate::trace::Trace::collected_children(out@) =~= any_part.add(
                    filter_lower(lanes_ms(self.lanes@.subrange(0, g as int)), req),
                ),
            decreases self.lanes@.len() - g,
        {
            let ghost pre = self.lanes@.subrange(0, g as int);
            let ghost lane = self.lanes@[g as int];
            proof {
                assert(self.lanes@.subrange(0, g as int + 1) =~= pre.push(lane));
                lemma_lanes_ms_push(pre, lane);
                lemma_filter_add(
                    lanes_ms(pre),
                    lane.1.store_ms(),
                    |m: RouteModel| lower_ok(m, req),
                );
            }
            let node = if list_contains_bytes(&self.lanes[g].0, method.as_slice()) {
                proof {
                    assert(lane.0.deep_view().contains(req_method(req)));
                    assert forall|m: RouteModel| #[trigger]
                        lane.1.store_ms().contains(m) implies ((headers_ok(m, req) && path_ok(
                        m,
                        req,
                    )) == lower_ok(m, req)) by {
                        assert(m.methods == lane.0.deep_view());
                        assert(method_ok(m, req));
                    }
                    lemma_filter_subset(
                        lane.1.store_ms(),
                        |m: RouteModel| headers_ok(m, req) && path_ok(m, req),
                        |m: RouteModel| lower_ok(m, req),
                    );
                }
                let sub_traces = self.lanes[g].1.trace(request);
                let empty_routes2: Vec<Route> = Vec::new();
                let n = crate::trace::Trace::new(
                    crate::trace::label_bytes("Method"),
                    true,
                    true,
                    0,
                    sub_traces,
                    empty_routes2,
                );
                proof {
                    crate::matching::lemma_routes_of_empty();
                    assert(n.collected() =~= filter_lower(lane.1.store_ms(), req));
                }
                n
            } else {
                proof {
                    assert forall|m: RouteModel| #[trigger]
                        lane.1.store_ms().contains(m) implies !lower_ok(m, req) by {
                        assert(m.methods == lane.0.deep_view());
                        assert(m.methods.len() > 0);
                        assert(!m.methods.contains(req_method(req)));
                    }
                    lemma_filter_none(lane.1.store_ms(), |m: RouteModel| lower_ok(m, req));
                }
                let empty_routes2: Vec<Route> = Vec::new();
                let n = crate::trace::Trace::leaf(
                    crate::trace::label_bytes("Method"),
                    false,
                    false,
                    0,
                    empty_routes2,
                );
                proof {
                    crate::matching::lemma_routes_of_empty();
                    assert(n.collected() =~= filter_lower(lane.1.store_ms(), req));
                }
                n
            };
            let ghost opre = out@;
            out.push(node);
            proof {
                crate::trace::lemma_collected_children_push(opre, node);
                assert(out@ =~= opre.push(node));
            }
            g += 1;
        }
        proof {
            assert(self.lanes@.subrange(0, self.lanes@.len() as int) =~= self.lanes@);
            lemma_filter_add(
                self.any_method.store_ms(),
                lanes_ms(self.lanes@),
                |m: RouteModel| lower_ok(m, req),
            );
        }
        out
    }

    /// Removes every route carrying `id`; true when something was removed.
    #[verifier::loop_isolation(false)]
    pub fn remove(&mut self, id: &[u8]) -> (r: bool)
        requires
            old(self).wf(),
        ensures
            final(self).wf(),
            final(self).routes_ms() =~= routes_without_id(old(self).routes_ms(), id@),
            r == (routes_with_id(old(self).routes_ms(), id@).len() > 0),
    {
        let r1 = self.any_method.remove(id);
        let ghost ah = self.any_method;
        let mut any = r1;
        let mut i: usize = 0;
        proof {
            assert(old(self).lanes@.subrange(0, 0) =~= Seq::<(Vec<Vec<u8>>, HeaderMatcher)>::empty());
            assert(routes_without_id(lanes_ms(old(self).lanes@.subrange(0, 0)), id@)
                =~= Multiset::<RouteModel>::empty());
            assert(routes_with_id(lanes_ms(old(self).lanes@.subrange(0, 0)), id@) =~= Multiset::<
                RouteModel,
            >::empty());
        }
        while i < self.lanes.len()
            invariant
                0 <= i <= self.lanes@.len(),
                self.lanes@.len() == old(self).lanes@.len(),
                self.any_method == ah,
                forall|j: int|
                    i <= j < self.lanes@.len() ==> (#[trigger] self.lanes@[j]) == old(
                        self,
                    ).lanes@[j],
                forall|j: int|
                    0 <= j < i ==> (#[trigger] self.lanes@[j]).0.deep_view() == old(
                        self,
                    ).lanes@[j].0.deep_view() && self.lanes@[j].1.store_ms() == routes_without_id(
                        old(self).lanes@[j].1.store_ms(),
                        id@,
                    ) && self.lanes@[j].1.wf(),
                lanes_ms(self.lanes@.subrange(0, i as int)) =~= routes_without_id(
                    lanes_ms(old(self).lanes@.subrange(0, i as int)),
                    id@,
                ),
                any == (r1 || routes_with_id(
                    lanes_ms(old(self).lanes@.subrange(0, i as int)),
                    id@,
                ).len() > 0),
            decreases self.lanes@.len() - i,
        {
            let ghost pre_new = self.lanes@.subrange(0, i as int);
            let ghost pre_old = old(self).lanes@.subrange(0, i as int);
            let ghost lane_old = old(self).lanes@[i as int];
            let (k, mut sub) = self.lanes.remove(i);
            let removed = sub.remove(id);
            any = any || removed;
            self.lanes.insert(i, (k, sub));
            proof {
                assert(self.lanes@.subrange(0, i as int + 1) =~= pre_new.push((k, sub)));
                assert(old(self).lanes@.subrange(0, i as int + 1) =~= pre_old.push(lane_old));
                lemma_lanes_ms_push(pre_new, (k, sub));
                lemma_lanes_ms_push(pre_old, lane_old);
                lemma_filter_add(
                    lanes_ms(pre_old),
                    lane_old.1.store_ms(),
                    |m: RouteModel| m.id != id@,
                );
                lemma_filter_add(
                    lanes_ms(pre_old),
                    lane_old.1.store_ms(),
                    |m: RouteModel| m.id == id@,
                );
            }
            i += 1;
        }
        proof {
            assert(self.lanes@.subrange(0, self.lanes@.len() as int) =~= self.lanes@);
            assert(old(self).lanes@.subrange(0, old(self).lanes@.len() as int) =~= old(
                self,
            ).lanes@);
            lemma_filter_add(
                old(self).any_method.store_ms(),
                lanes_ms(old(self).lanes@),
                |m: RouteModel| m.id != id@,
            );
            lemma_filter_add(
                old(self).any_method.store_ms(),
                lanes_ms(old(self).lanes@),
                |m: RouteModel| m.id == id@,
            );
            assert forall|m: RouteModel|
                #[trigger] self.any_method.store_ms().contains(m) implies m.methods.len()
                == 0 by {
                assert(old(self).any_method.store_ms().contains(m));
            }
            assert forall|j: int, m: RouteModel|
                0 <= j < self.lanes@.len() && (#[trigger] self.lanes@[j].1.store_ms().contains(
                    m,
                )) implies m.methods == self.lanes@[j].0.deep_view() && m.methods.len() > 0 by {
                assert(old(self).lanes@[j].1.store_ms().contains(m));
            }
        }
        any
    }

    /// The budget a cache pass over this layer leaves: the any lane first,
    /// then each method bucket in order.
    pub closed spec fn budget_after(self, limit: u64, level: u64) -> u64 {
        Self::lanes_budget_after(self.lanes@, self.any_method.budget_after(limit, level), level)
    }

    pub open spec fn lanes_budget_after(
        ls: Seq<(Vec<Vec<u8>>, HeaderMatcher)>,
        limit: u64,
        level: u64,
    ) -> u64
        decreases ls.len(),
    {
        if ls.len() == 0 {
            limit
        } else {
            Self::lanes_budget_after(
                ls.subrange(1, ls.len() as int),
                ls[0].1.budget_after(limit, level),
                level,
            )
        }
    }

    /// Spends the compilation budget across the any lane and the buckets and
    /// returns what is left.
    #[verifier::loop_isolation(false)]
    pub fn cache(&mut self, limit: u64, level: u64) -> (r: u64)
        requires
            old(self).wf(),
        ensures
            final(self).wf(),
            final(self).routes_ms() =~= old(self).routes_ms(),
            forall|l: u64, lv: u64|
                #[trigger] final(self).budget_after(l, lv) == old(self).budget_after(l, lv),
            r == old(self).budget_after(limit, level),
    {
        let mut budget = self.any_method.cache(limit, level);
        let ghost ah = self.any_method;
        let mut i: usize = 0;
        proof {
            assert(old(self).lanes@.subrange(0, 0) =~= Seq::<(Vec<Vec<u8>>, HeaderMatcher)>::empty());
        }
        while i < self.lanes.len()
            invariant
                self.any_method == ah,
                ah.wf(),
                ah.routes_ms() =~= old(self).any_method.routes_ms(),
                forall|l: u64, lv: u64|
                    #[trigger] ah.budget_after(l, lv) == old(self).any_method.budget_after(l, lv),
                self.lanes@.len() == old(self).lanes@.len(),
                forall|j: int|
                    i <= j < self.lanes@.len() ==> (#[trigger] self.lanes@[j]) == old(
                        self,
                    ).lanes@[j],
                forall|j: int|
                    0 <= j < self.lanes@.len() ==> (#[trigger] self.lanes@[j]).0.deep_view()
                        == old(self).lanes@[j].0.deep_view() && self.lanes@[j].1.store_ms()
                        == old(self).lanes@[j].1.store_ms() && self.lanes@[j].1.wf(),
                forall|j: int, l: u64, lv: u64|
                    0 <= j < self.lanes@.len() ==> (#[trigger] self.lanes@[j].1.budget_after(
                        l,
                        lv,
                    )) == old(self).lanes@[j].1.budget_after(l, lv),
                budget == Self::lanes_budget_after(
                    old(self).lanes@.subrange(0, i as int),
                    old(self).any_method.budget_after(limit, level),
                    level,
                ),
                0 <= i <= self.lanes@.len(),
            decreases self.lanes@.len() - i,
        {
            let ghost pre = old(self).lanes@.subrange(0, i as int);
            proof {
                assert(old(self).lanes@.subrange(0, i as int + 1) =~= pre.push(
                    old(self).lanes@[i as int],
                ));
                lemma_lanes_budget_push(
                    pre,
                    old(self).lanes@[i as int],
                    old(self).any_method.budget_after(limit, level),
                    level,
                );
            }
            let (k, mut sub) = self.lanes.remove(i);
            let ghost sub0 = sub;
            proof {
                assert((k, sub0) == old(self).lanes@[i as int]);
            }
            budget = sub.cache(budget, level);
            self.lanes.insert(i, (k, sub));
            i += 1;
        }
        proof {
            assert(old(self).lanes@.subrange(0, old(self).lanes@.len() as int) =~= old(
                self,
            ).lanes@);
            lemma_lanes_budget_congruence(self.lanes@, old(self).lanes@);
        }
        proof {
            lemma_lanes_same_ms(self.lanes@, old(self).lanes@);
            assert forall|m: RouteModel|
                #[trigger] self.any_method.store_ms().contains(m) implies m.methods.len()
                == 0 by {
                assert(old(self).any_method.store_ms().contains(m));
            }
            assert forall|j: int, m: RouteModel|
                0 <= j < self.lanes@.len() && (#[trigger] self.lanes@[j].1.store_ms().contains(
                    m,
                )) implies m.methods == self.lanes@[j].0.deep_view() && m.methods.len() > 0 by {
                assert(old(self).lanes@[j].1.store_ms().contains(m));
            }
        }
        budget
    }
}

proof fn lemma_lanes_budget_push(
    ls: Seq<(Vec<Vec<u8>>, HeaderMatcher)>,
    l: (Vec<Vec<u8>>, HeaderMatcher),
    limit: u64,
    level: u64,
)
    ensures
        MethodMatcher::lanes_budget_after(ls.push(l), limit, level) == l.1.budget_after(
            MethodMatcher::lanes_budget_after(ls, limit, level),
            level,
        ),
    decreases ls.len(),
{
    if ls.len() == 0 {
        assert(ls.push(l)[0] == l);
        assert(ls.push(l).subrange(1, 1) =~= Seq::<(Vec<Vec<u8>>, HeaderMatcher)>::empty());
        assert(MethodMatcher::lanes_budget_after(ls, limit, level) == limit);
        assert(MethodMatcher::lanes_budget_after(ls.push(l), limit, level)
            == MethodMatcher::lanes_budget_after(
            ls.push(l).subrange(1, 1),
            l.1.budget_after(limit, level),
            level,
        ));
        assert(MethodMatcher::lanes_budget_after(
            Seq::<(Vec<Vec<u8>>, HeaderMatcher)>::empty(),
            l.1.budget_after(limit, level),
            level,
        ) == l.1.budget_after(limit, level));
    } else {
        let rest = ls.subrange(1, ls.len() as int);
        assert(ls.push(l).subrange(1, ls.push(l).len() as int) =~= rest.push(l));
        assert(ls.push(l)[0] == ls[0]);
        lemma_lanes_budget_push(rest, l, ls[0].1.budget_after(limit, level), level);
        assert(MethodMatcher::lanes_budget_after(ls, limit, level)
            == MethodMatcher::lanes_budget_after(
            rest,
            ls[0].1.budget_after(limit, level),
            level,
        ));
        assert(MethodMatcher::lanes_budget_after(ls.push(l), limit, level)
            == MethodMatcher::lanes_budget_after(
            rest.push(l),
            ls[0].1.budget_after(limit, level),
            level,
        ));
    }
}

/// Two lane lists whose matchers agree on every budget agree on the
/// threaded total.
proof fn lemma_lanes_budget_congruence(
    a: Seq<(Vec<Vec<u8>>, HeaderMatcher)>,
    b: Seq<(Vec<Vec<u8>>, HeaderMatcher)>,
)
    requires
        a.len() == b.len(),
        forall|j: int, l: u64, lv: u64|
            0 <= j < a.len() ==> (#[trigger] a[j].1.budget_after(l, lv)) == b[j].1.budget_after(
                l,
                lv,
            ),
    ensures
        forall|l: u64, lv: u64|
            #[trigger] MethodMatcher::lanes_budget_after(a, l, lv)
                == MethodMatcher::lanes_budget_after(b, l, lv),
    decreases a.len(),
{
    if a.len() > 0 {
        let ra = a.subrange(1, a.len() as int);
        let rb = b.subrange(1, b.len() as int);
        assert forall|j: int, l: u64, lv: u64|
            0 <= j < ra.len() implies (#[trigger] ra[j].1.budget_after(l, lv))
            == rb[j].1.budget_after(l, lv) by {
            assert(ra[j] == a[j + 1] && rb[j] == b[j + 1]);
            assert(a[j + 1].1.budget_after(l, lv) == b[j + 1].1.budget_after(l, lv));
        }
        lemma_lanes_budget_congruence(ra, rb);
        assert forall|l: u64, lv: u64|
            #[trigger] MethodMatcher::lanes_budget_after(a, l, lv)
                == MethodMatcher::lanes_budget_after(b, l, lv) by {
            assert(a[0].1.budget_after(l, lv) == b[0].1.budget_after(l, lv));
            assert(MethodMatcher::lanes_budget_after(ra, a[0].1.budget_after(l, lv), lv)
                == MethodMatcher::lanes_budget_after(rb, a[0].1.budget_after(l, lv), lv));
        }
    }
}

/// Two lane lists with pairwise equal route populations hold the same
/// routes.
proof fn lemma_lanes_same_ms(a: Seq<(Vec<Vec<u8>>, HeaderMatcher)>, b: Seq<(Vec<Vec<u8>>, HeaderMatcher)>)
    requires
        a.len() == b.len(),
        forall|j: int|
            0 <= j < a.len() ==> (#[trigger] a[j]).1.store_ms() == b[j].1.store_ms(),
    ensures
        lanes_ms(a) =~= lanes_ms(b),
    decreases a.len(),
{
    if a.len() > 0 {
        let ra = a.subrange(1, a.len() as int);
        let rb = b.subrange(1, b.len() as int);
        assert forall|j: int|
            0 <= j < ra.len() implies (#[trigger] ra[j]).1.store_ms() == rb[j].1.store_ms() by {
            assert(ra[j] == a[j + 1]);
            assert(rb[j] == b[j + 1]);
        }
        lemma_lanes_same_ms(ra, rb);
        assert(a[0].1.store_ms() == b[0].1.store_ms());
    }
}

impl Default for MethodMatcher {
    /// The empty value, as MethodMatcher::new builds it.
    fn default() -> (r: Self)
        ensures
            r.wf() && r.routes_ms() =~= Multiset::<RouteModel>::empty(),
    {
        MethodMatcher::new()
    }
}

} // verus!

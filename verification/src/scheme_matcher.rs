//! The scheme layer, top of the pipeline: an any-scheme lane always
//! consulted, and one lane per scheme.

use vstd::prelude::*;
use vstd::multiset::Multiset;
use crate::bytes_util::bytes_eq;
use crate::rule::{Route, RouteModel};
use crate::request::{Request, RequestModel};
use crate::host_matcher::HostMatcher;
use crate::route_matcher::append_routes;
use crate::matching::{routes_of, routes_without_id, routes_with_id, RouteStore, lanes_ms,
    lemma_lanes_ms_push, lemma_lanes_ms_remove, lemma_lanes_ms_contains, scheme_is_any,
    scheme_specific_ok, scheme_any_part, scheme_part, host_level_matched, match_model,
    lemma_filter_add, lemma_filter_all, lemma_filter_none};

verus! {

broadcast use vstd::multiset::group_multiset_axioms, vstd::multiset::group_multiset_properties, vstd::seq_lib::group_to_multiset_ensures;

/// Matches on the request's scheme and hands down to the host layer.
pub struct SchemeMatcher {
    any_scheme: HostMatcher,
    lanes: Vec<(Vec<u8>, HostMatcher)>,
}

impl RouteStore for SchemeMatcher {
    open spec fn store_ms(self) -> Multiset<RouteModel> {
        self.routes_ms()
    }
}

impl SchemeMatcher {
    /// The routes this matcher holds.
    pub closed spec fn routes_ms(self) -> Multiset<RouteModel> {
        self.any_scheme.routes_ms().add(lanes_ms(self.lanes@))
    }

    /// Lanes agree with their schemes and carry distinct keys; the any lane
    /// holds exactly the scheme-free routes.
    pub closed spec fn wf(self) -> bool {
        &&& self.any_scheme.wf()
        &&& (forall|m: RouteModel|
            #[trigger] self.any_scheme.store_ms().contains(m) ==> scheme_is_any(m))
        &&& (forall|i: int| 0 <= i < self.lanes@.len() ==> (#[trigger] self.lanes@[i].1).wf())
        &&& (forall|i: int, m: RouteModel|
            0 <= i < self.lanes@.len() && (#[trigger] self.lanes@[i].1.store_ms().contains(m))
                ==> m.scheme == Option::Some(self.lanes@[i].0@))
        &&& (forall|i: int, j: int|
            0 <= i < j < self.lanes@.len() ==> (#[trigger] self.lanes@[i]).0@ != (
            #[trigger] self.lanes@[j]).0@)
    }

    /// An empty matcher.
    pub fn new() -> (r: SchemeMatcher)
        ensures
            r.wf(),
            r.routes_ms() =~= Multiset::<RouteModel>::empty(),
    {
        let r = SchemeMatcher { any_scheme: HostMatcher::new(), lanes: Vec::new() };
        proof {
            assert(r.lanes@ =~= Seq::<(Vec<u8>, HostMatcher)>::empty());
        }
        r
    }

    /// The sub-matcher a fresh lane starts from.
    pub fn create_sub_matcher() -> (r: HostMatcher)
        ensures
            r.wf(),
            r.routes_ms() =~= Multiset::<RouteModel>::empty(),
    {
        HostMatcher::new()
    }

    /// Stores a route under its scheme.
    #[verifier::loop_isolation(false)]
    pub fn insert(&mut self, route: Route)
        requires
            old(self).wf(),
        ensures
            final(self).wf(),
            final(self).routes_ms() =~= old(self).routes_ms().insert(route.model()),
    {
        let ghost rm = route.model();
        match &route.scheme {
            Option::None => {
                self.any_scheme.insert(route);
                proof {
                    assert(scheme_is_any(rm));
                    assert forall|m: RouteModel| #[trigger]
                        self.any_scheme.store_ms().contains(m) implies scheme_is_any(m) by {
                        if m != rm {
                            assert(old(self).any_scheme.store_ms().contains(m));
                        }
                    }
                }
            },
            Option::Some(s) => {
                let key = s.clone();
                proof {
                    assert(rm.scheme == Option::Some(key@));
                }
                let mut i: usize = 0;
                while i < self.lanes.len()
                    invariant
                        *self == *old(self),
                        0 <= i <= self.lanes@.len(),
                        forall|j: int| 0 <= j < i ==> (#[trigger] self.lanes@[j]).0@ != key@,
                    decreases self.lanes@.len() - i,
                {
                    if bytes_eq(self.lanes[i].0.as_slice(), key.as_slice()) {
                        let ghost pre = self.lanes@;
                        let (k, mut sub) = self.lanes.remove(i);
                        let ghost sub0 = sub;
                        sub.insert(route);
                        proof {
                            lemma_lanes_ms_remove(pre, i as int);
                        }
                        self.lanes.push((k, sub));
                        proof {
                            assert(self.lanes@ == pre.remove(i as int).push((k, sub)));
                            lemma_lanes_ms_push(pre.remove(i as int), (k, sub));
                            assert(lanes_ms(self.lanes@) =~= lanes_ms(pre).insert(rm));
                            assert forall|j: int, m: RouteModel|
                                0 <= j < self.lanes@.len() && (
                                #[trigger] self.lanes@[j].1.store_ms().contains(
                                    m,
                                )) implies m.scheme == Option::Some(self.lanes@[j].0@) by {
                                if j < self.lanes@.len() - 1 {
                                    let o = if j < i { j } else { j + 1 };
                                    assert(self.lanes@[j] == pre[o]);
                                } else {
                                    assert(self.lanes@[j] == (k, sub));
                                    if m != rm {
                                        assert(sub0.store_ms().contains(m));
                                        assert(pre[i as int].1.store_ms().contains(m));
                                    } else {
                                        assert(k@ == key@);
                                    }
                                }
                            }
                            assert forall|j: int| 0 <= j < self.lanes@.len() implies (
                            #[trigger] self.lanes@[j].1).wf() by {
                                if j < self.lanes@.len() - 1 {
                                    let o = if j < i { j } else { j + 1 };
                                    assert(self.lanes@[j] == pre[o]);
                                }
                            }
                            assert forall|a: int, b: int|
                                0 <= a < b < self.lanes@.len() implies (
                            #[trigger] self.lanes@[a]).0@ != (#[trigger] self.lanes@[b]).0@ by {
                                let oa = if a < i { a } else { a + 1 };
                                let ob = if b < i { b } else { b + 1 };
                                if b < self.lanes@.len() - 1 {
                                    assert(self.lanes@[a] == pre[oa]);
                                    assert(self.lanes@[b] == pre[ob]);
                                } else {
                                    assert(self.lanes@[b].0@ == pre[i as int].0@);
                                    assert(self.lanes@[a] == pre[oa]);
                                }
                            }
                        }
                        return ;
                    }
                    i += 1;
                }
                let mut sub = HostMatcher::new();
                sub.insert(route);
                let ghost pre = self.lanes@;
                self.lanes.push((key, sub));
                proof {
                    lemma_lanes_ms_push(pre, self.lanes@.last());
                    assert(sub.store_ms() =~= Multiset::<RouteModel>::empty().insert(rm));
                    assert(lanes_ms(self.lanes@) =~= lanes_ms(pre).insert(rm));
                    assert forall|j: int, m: RouteModel|
                        0 <= j < self.lanes@.len() && (#[trigger] self.lanes@[j].1.store_ms()
                            .contains(m)) implies m.scheme == Option::Some(
                        self.lanes@[j].0@,
                    ) by {
                        if j < self.lanes@.len() - 1 {
                            assert(self.lanes@[j] == pre[j]);
                        } else {
                            assert(m == rm);
                        }
                    }
                    assert forall|j: int| 0 <= j < self.lanes@.len() implies (
                    #[trigger] self.lanes@[j].1).wf() by {
                        if j < self.lanes@.len() - 1 {
                            assert(self.lanes@[j] == pre[j]);
                        }
                    }
                    assert forall|a: int, b: int|
                        0 <= a < b < self.lanes@.len() implies (#[trigger] self.lanes@[a]).0@ != (
                    #[trigger] self.lanes@[b]).0@ by {
                        if b < self.lanes@.len() - 1 {
                            assert(self.lanes@[a] == pre[a]);
                            assert(self.lanes@[b] == pre[b]);
                        } else {
                            assert(self.lanes@[a] == pre[a]);
                            assert(self.lanes@[b].0@ == key@);
                        }
                    }
                }
            },
        }
    }

    /// Returns the pipeline's verdict for the request.
    #[verifier::loop_isolation(false)]
    pub fn match_request(&self, request: &Request) -> (r: Vec<Route>)
        requires
            self.wf(),
        ensures
            routes_of(r@) =~= match_model(self.routes_ms(), request.model()),
    {
        let ghost req = request.model();
        let ghost total = self.routes_ms();
        let mut out = self.any_scheme.match_request(request);
        proof {
            // the any lane is exactly the scheme-less part of the population
            assert forall|m: RouteModel| #[trigger]
                self.any_scheme.store_ms().contains(m) implies scheme_is_any(m) by {}
            lemma_filter_all(self.any_scheme.store_ms(), |m: RouteModel| scheme_is_any(m));
            assert forall|m: RouteModel| #[trigger]
                lanes_ms(self.lanes@).contains(m) implies !scheme_is_any(m) by {
                lemma_lanes_ms_contains(self.lanes@, m);
                let j = choose|j: int|
                    0 <= j < self.lanes@.len() && (#[trigger] self.lanes@[j]).1.store_ms()
                        .contains(m);
                assert(self.lanes@[j].1.store_ms().contains(m));
            }
            lemma_filter_none(lanes_ms(self.lanes@), |m: RouteModel| scheme_is_any(m));
            lemma_filter_add(
                self.any_scheme.store_ms(),
                lanes_ms(self.lanes@),
                |m: RouteModel| scheme_is_any(m),
            );
            assert(scheme_any_part(total) =~= self.any_scheme.store_ms());
            assert(scheme_any_part(total) == self.any_scheme.store_ms());
            assert(routes_of(out@) =~= host_level_matched(scheme_any_part(total), req));
        }
        let ghost any_out = routes_of(out@);
        match &request.scheme {
            Option::None => {
                proof {
                    assert forall|m: RouteModel| #[trigger]
                        total.contains(m) implies !scheme_specific_ok(m, req) by {
                        assert(req.scheme is None);
                    }
                    lemma_filter_none(total, |m: RouteModel| scheme_specific_ok(m, req));
                    lemma_host_level_empty(req);
                    assert(scheme_part(total, req) == Multiset::<RouteModel>::empty());
                    assert(host_level_matched(scheme_part(total, req), req) =~= Multiset::<
                        RouteModel,
                    >::empty());
                    assert(any_out.add(host_level_matched(scheme_part(total, req), req))
                        =~= any_out);
                    assert(routes_of(out@) =~= match_model(total, req));
                }
                out
            },
            Option::Some(s) => {
                let mut i: usize = 0;
                while i < self.lanes.len()
                    invariant
                        0 <= i <= self.lanes@.len(),
                        routes_of(out@) =~= any_out,
                        forall|j: int| 0 <= j < i ==> (#[trigger] self.lanes@[j]).0@ != s@,
                    decreases self.lanes@.len() - i,
                {
                    if bytes_eq(self.lanes[i].0.as_slice(), s.as_slice()) {
                        let ghost lane = self.lanes@[i as int];
                        proof {
                            // this lane is exactly the request-scheme part
                            assert forall|m: RouteModel| #[trigger]
                                lane.1.store_ms().contains(m) implies scheme_specific_ok(
                                m,
                                req,
                            ) by {
                                assert(m.scheme == Option::Some(lane.0@));
                            }
                            lemma_filter_all(
                                lane.1.store_ms(),
                                |m: RouteModel| scheme_specific_ok(m, req),
                            );
                            assert forall|m: RouteModel| #[trigger]
                                self.any_scheme.store_ms().contains(
                                m,
                            ) implies !scheme_specific_ok(m, req) by {
                                assert(scheme_is_any(m));
                            }
                            lemma_filter_none(
                                self.any_scheme.store_ms(),
                                |m: RouteModel| scheme_specific_ok(m, req),
                            );
                            lemma_lanes_ms_remove(self.lanes@, i as int);
                            assert forall|m: RouteModel| #[trigger]
                                lanes_ms(self.lanes@.remove(i as int)).contains(
                                m,
                            ) implies !scheme_specific_ok(m, req) by {
                                lemma_lanes_ms_contains(self.lanes@.remove(i as int), m);
                                let j = choose|j: int|
                                    0 <= j < self.lanes@.remove(i as int).len() && (
                                    #[trigger] self.lanes@.remove(i as int)[j]).1.store_ms()
                                        .contains(m);
                                let o = if j < i { j } else { j + 1 };
                                assert(self.lanes@.remove(i as int)[j] == self.lanes@[o]);
                                assert(self.lanes@[o].1.store_ms().contains(m));
                                assert(m.scheme == Option::Some(self.lanes@[o].0@));
                                assert(self.lanes@[o].0@ != lane.0@);
                            }
                            lemma_filter_none(
                                lanes_ms(self.lanes@.remove(i as int)),
                                |m: RouteModel| scheme_specific_ok(m, req),
                            );
                            lemma_filter_add(
                                self.any_scheme.store_ms(),
                                lanes_ms(self.lanes@),
                                |m: RouteModel| scheme_specific_ok(m, req),
                            );
                            lemma_filter_add(
                                lanes_ms(self.lanes@.remove(i as int)),
                                lane.1.store_ms(),
                                |m: RouteModel| scheme_specific_ok(m, req),
                            );
                            assert(scheme_part(total, req) =~= lane.1.store_ms());
                            assert(scheme_part(total, req) == lane.1.store_ms());
                        }
                        let more = self.lanes[i].1.match_request(request);
                        append_routes(&mut out, more);
                        proof {
                            assert(routes_of(more@) =~= host_level_matched(
                                lane.1.store_ms(),
                                req,
                            ));
                            assert(host_level_matched(scheme_part(total, req), req)
                                == host_level_matched(lane.1.store_ms(), req));
                            assert(routes_of(out@) =~= any_out.add(
                                host_level_matched(scheme_part(total, req), req),
                            ));
                            assert(routes_of(out@) =~= match_model(total, req));
                        }
                        return out;
                    }
                    i += 1;
                }
                proof {
                    // no lane for this scheme: the scheme part is empty
                    assert forall|m: RouteModel| #[trigger]
                        total.contains(m) implies !scheme_specific_ok(m, req) by {
                        if self.any_scheme.store_ms().contains(m) {
                            assert(scheme_is_any(m));
                        } else {
                            assert(lanes_ms(self.lanes@).contains(m));
                            lemma_lanes_ms_contains(self.lanes@, m);
                            let j = choose|j: int|
                                0 <= j < self.lanes@.len() && (
                                #[trigger] self.lanes@[j]).1.store_ms().contains(m);
                            assert(self.lanes@[j].1.store_ms().contains(m));
                            assert(m.scheme == Option::Some(self.lanes@[j].0@));
                            assert(self.lanes@[j].0@ != s@);
                        }
                    }
                    lemma_filter_none(total, |m: RouteModel| scheme_specific_ok(m, req));
                    lemma_host_level_empty(req);
                    assert(scheme_part(total, req) == Multiset::<RouteModel>::empty());
                    assert(host_level_matched(scheme_part(total, req), req) =~= Multiset::<
                        RouteModel,
                    >::empty());
                    assert(any_out.add(host_level_matched(scheme_part(total, req), req))
                        =~= any_out);
                    assert(routes_of(out@) =~= match_model(total, req));
                }
                out
            },
        }
    }

    /// The pipeline's trace: the any-scheme lane always, and the lane of the
    /// request's scheme when one exists.
    #[verifier::loop_isolation(false)]
    pub fn trace(&self, request: &Request) -> (r: Vec<crate::trace::Trace>)
        requires
            self.wf(),
        ensures
            crate::trace::Trace::collected_children(r@) =~= match_model(
                self.routes_ms(),
                request.model(),
            ),
    {
        let ghost req = request.model();
        let ghost total = self.routes_ms();
        let any_traces = self.any_scheme.trace(request);
        let empty_routes: Vec<Route> = Vec::new();
        let any_node = crate::trace::Trace::new(
            crate::trace::label_bytes("Any scheme"),
            true,
            true,
            0,
            any_traces,
            empty_routes,
        );
        let mut out: Vec<crate::trace::Trace> = Vec::new();
        proof {
            crate::matching::lemma_routes_of_empty();
            assert(out@ =~= Seq::<crate::trace::Trace>::empty());
            assert forall|m: RouteModel| #[trigger]
                self.any_scheme.store_ms().contains(m) implies scheme_is_any(m) by {}
            lemma_filter_all(self.any_scheme.store_ms(), |m: RouteModel| scheme_is_any(m));
            assert forall|m: RouteModel| #[trigger]
                lanes_ms(self.lanes@).contains(m) implies !scheme_is_any(m) by {
                lemma_lanes_ms_contains(self.lanes@, m);
                let j = choose|j: int|
                    0 <= j < self.lanes@.len() && (#[trigger] self.lanes@[j]).1.store_ms()
                        .contains(m);
                assert(self.lanes@[j].1.store_ms().contains(m));
            }
            lemma_filter_none(lanes_ms(self.lanes@), |m: RouteModel| scheme_is_any(m));
            lemma_filter_add(
                self.any_scheme.store_ms(),
                lanes_ms(self.lanes@),
                |m: RouteModel| scheme_is_any(m),
            );
            assert(scheme_any_part(total) == self.any_scheme.store_ms());
            assert(any_node.collected() =~= host_level_matched(scheme_any_part(total), req));
        }
        out.push(any_node);
        proof {
            crate::trace::lemma_collected_children_push(
                Seq::<crate::trace::Trace>::empty(),
                any_node,
            );
            assert(out@ =~= Seq::<crate::trace::Trace>::empty().push(any_node));
        }
        let ghost any_part = crate::trace::Trace::collected_children(out@);
        // one node per scheme lane, matched when it is the request's scheme
        let mut li: usize = 0;
        while li < self.lanes.len()
            invariant
                0 <= li <= self.lanes@.len(),
                crate::trace::Trace::collected_children(out@) =~= any_part,
            decreases self.lanes@.len() - li,
        {
            let key_matches = match &request.scheme {
                Option::Some(s) => bytes_eq(self.lanes[li].0.as_slice(), s.as_slice()),
                Option::None => false,
            };
            let mut description = crate::trace::label_bytes("Scheme ");
            crate::canon::append_vec(&mut description, self.lanes[li].0.clone());
            let no_routes: Vec<Route> = Vec::new();
            let key_node = crate::trace::Trace::leaf(
                description,
                key_matches,
                key_matches,
                0,
                no_routes,
            );
            let ghost opre = out@;
            proof {
                crate::matching::lemma_routes_of_empty();
                assert(key_node.collected() =~= Multiset::<RouteModel>::empty());
            }
            out.push(key_node);
            proof {
                crate::trace::lemma_collected_children_push(opre, key_node);
                assert(out@ =~= opre.push(key_node));
            }
            li += 1;
        }
        match &request.scheme {
            Option::None => {
                proof {
                    assert forall|m: RouteModel| #[trigger]
                        total.contains(m) implies !scheme_specific_ok(m, req) by {
                        assert(req.scheme is None);
                    }
                    lemma_filter_none(total, |m: RouteModel| scheme_specific_ok(m, req));
                    lemma_host_level_empty(req);
                    assert(scheme_part(total, req) == Multiset::<RouteModel>::empty());
                    assert(host_level_matched(scheme_part(total, req), req) =~= Multiset::<
                        RouteModel,
                    >::empty());
                    assert(any_part.add(host_level_matched(scheme_part(total, req), req))
                        =~= any_part);
                }
                out
            },
            Option::Some(s) => {
                let mut i: usize = 0;
                while i < self.lanes.len()
                    invariant
                        0 <= i <= self.lanes@.len(),
                        crate::trace::Trace::collected_children(out@) =~= any_part,
                        forall|j: int| 0 <= j < i ==> (#[trigger] self.lanes@[j]).0@ != s@,
                    decreases self.lanes@.len() - i,
                {
                    if bytes_eq(self.lanes[i].0.as_slice(), s.as_slice()) {
                        let ghost lane = self.lanes@[i as int];
                        proof {
                            assert forall|m: RouteModel| #[trigger]
                                lane.1.store_ms().contains(m) implies scheme_specific_ok(
                                m,
                                req,
                            ) by {
                                assert(m.scheme == Option::Some(lane.0@));
                            }
                            lemma_filter_all(
                                lane.1.store_ms(),
                                |m: RouteModel| scheme_specific_ok(m, req),
                            );
                            assert forall|m: RouteModel| #[trigger]
                                self.any_scheme.store_ms().contains(
                                m,
                            ) implies !scheme_specific_ok(m, req) by {
                                assert(scheme_is_any(m));
                            }
                            lemma_filter_none(
                                self.any_scheme.store_ms(),
                                |m: RouteModel| scheme_specific_ok(m, req),
                            );
                            lemma_lanes_ms_remove(self.lanes@, i as int);
                            assert forall|m: RouteModel| #[trigger]
                                lanes_ms(self.lanes@.remove(i as int)).contains(
                                m,
                            ) implies !scheme_specific_ok(m, req) by {
                                lemma_lanes_ms_contains(self.lanes@.remove(i as int), m);
                                let j = choose|j: int|
                                    0 <= j < self.lanes@.remove(i as int).len() && (
                                    #[trigger] self.lanes@.remove(i as int)[j]).1.store_ms()
                                        .contains(m);
                                let o = if j < i { j } else { j + 1 };
                                assert(self.lanes@.remove(i as int)[j] == self.lanes@[o]);
                                assert(self.lanes@[o].1.store_ms().contains(m));
                                assert(m.scheme == Option::Some(self.lanes@[o].0@));
                                assert(self.lanes@[o].0@ != lane.0@);
                            }
                            lemma_filter_none(
                                lanes_ms(self.lanes@.remove(i as int)),
                                |m: RouteModel| scheme_specific_ok(m, req),
                            );
                            lemma_filter_add(
                                self.any_scheme.store_ms(),
                                lanes_ms(self.lanes@),
                                |m: RouteModel| scheme_specific_ok(m, req),
                            );
                            lemma_filter_add(
                                lanes_ms(self.lanes@.remove(i as int)),
                                lane.1.store_ms(),
                                |m: RouteModel| scheme_specific_ok(m, req),
                            );
                            assert(scheme_part(total, req) =~= lane.1.store_ms());
                            assert(scheme_part(total, req) == lane.1.store_ms());
                        }
                        let lane_traces = self.lanes[i].1.trace(request);
                        let empty_routes2: Vec<Route> = Vec::new();
                        let lane_node = crate::trace::Trace::new(
                            crate::trace::label_bytes("Scheme"),
                            true,
                            true,
                            0,
                            lane_traces,
                            empty_routes2,
                        );
                        proof {
                            crate::matching::lemma_routes_of_empty();
                            assert(lane_node.collected() =~= host_level_matched(
                                scheme_part(total, req),
                                req,
                            ));
                        }
                        let ghost opre = out@;
                        let mut out = out;
                        out.push(lane_node);
                        proof {
                            crate::trace::lemma_collected_children_push(opre, lane_node);
                            assert(out@ =~= opre.push(lane_node));
                            assert(crate::trace::Trace::collected_children(out@)
                                =~= match_model(total, req));
                        }
                        return out;
                    }
                    i += 1;
                }
                proof {
                    assert forall|m: RouteModel| #[trigger]
                        total.contains(m) implies !scheme_specific_ok(m, req) by {
                        if self.any_scheme.store_ms().contains(m) {
                            assert(scheme_is_any(m));
                        } else {
                            assert(lanes_ms(self.lanes@).contains(m));
                            lemma_lanes_ms_contains(self.lanes@, m);
                            let j = choose|j: int|
                                0 <= j < self.lanes@.len() && (
                                #[trigger] self.lanes@[j]).1.store_ms().contains(m);
                            assert(self.lanes@[j].1.store_ms().contains(m));
                            assert(m.scheme == Option::Some(self.lanes@[j].0@));
                            assert(self.lanes@[j].0@ != s@);
                        }
                    }
                    lemma_filter_none(total, |m: RouteModel| scheme_specific_ok(m, req));
                    lemma_host_level_empty(req);
                    assert(scheme_part(total, req) == Multiset::<RouteModel>::empty());
                    assert(host_level_matched(scheme_part(total, req), req) =~= Multiset::<
                        RouteModel,
                    >::empty());
                    assert(any_part.add(host_level_matched(scheme_part(total, req), req))
                        =~= any_part);
                }
                out
            },
        }
    }

    /// Removes every route carrying `id`; true when something was removed.
    #[verifier::loop_isolation(false)]
    pub fn remove(&mut self, id: &[u8]) -> (r: bool)
        requires
            old(self).wf(),
        ensures
            final(self).wf(),
            final(self).routes_ms() =~= routes_without_id(old(self).routes_ms(), id@),
            r == (routes_with_id(old(self).routes_ms(), id@).len() > 0),
    {
        let r1 = self.any_scheme.remove(id);
        let ghost ah = self.any_scheme;
        let mut any = r1;
        let mut i: usize = 0;
        proof {
            assert(old(self).lanes@.subrange(0, 0) =~= Seq::<(Vec<u8>, HostMatcher)>::empty());
            assert(routes_without_id(lanes_ms(old(self).lanes@.subrange(0, 0)), id@)
                =~= Multiset::<RouteModel>::empty());
            assert(routes_with_id(lanes_ms(old(self).lanes@.subrange(0, 0)), id@) =~= Multiset::<
                RouteModel,
            >::empty());
        }
        while i < self.lanes.len()
            invariant
                0 <= i <= self.lanes@.len(),
                self.lanes@.len() == old(self).lanes@.len(),
                self.any_scheme == ah,
                forall|j: int|
                    i <= j < self.lanes@.len() ==> (#[trigger] self.lanes@[j]) == old(
                        self,
                    ).lanes@[j],
                forall|j: int|
                    0 <= j < i ==> (#[trigger] self.lanes@[j]).0@ == old(self).lanes@[j].0@
                        && self.lanes@[j].1.store_ms() == routes_without_id(
                        old(self).lanes@[j].1.store_ms(),
                        id@,
                    ) && self.lanes@[j].1.wf(),
                lanes_ms(self.lanes@.subrange(0, i as int)) =~= routes_without_id(
                    lanes_ms(old(self).lanes@.subrange(0, i as int)),
                    id@,
                ),
                any == (r1 || routes_with_id(
                    lanes_ms(old(self).lanes@.subrange(0, i as int)),
                    id@,
                ).len() > 0),
            decreases self.lanes@.len() - i,
        {
            let ghost pre_new = self.lanes@.subrange(0, i as int);
            let ghost pre_old = old(self).lanes@.subrange(0, i as int);
            let ghost lane_old = old(self).lanes@[i as int];
            let (k, mut sub) = self.lanes.remove(i);
            let removed = sub.remove(id);
            any = any || removed;
            self.lanes.insert(i, (k, sub));
            proof {
                assert(self.lanes@.subrange(0, i as int + 1) =~= pre_new.push((k, sub)));
                assert(old(self).lanes@.subrange(0, i as int + 1) =~= pre_old.push(lane_old));
                lemma_lanes_ms_push(pre_new, (k, sub));
                lemma_lanes_ms_push(pre_old, lane_old);
                lemma_filter_add(
                    lanes_ms(pre_old),
                    lane_old.1.store_ms(),
                    |m: RouteModel| m.id != id@,
                );
                lemma_filter_add(
                    lanes_ms(pre_old),
                    lane_old.1.store_ms(),
                    |m: RouteModel| m.id == id@,
                );
            }
            i += 1;
        }
        proof {
            assert(self.lanes@.subrange(0, self.lanes@.len() as int) =~= self.lanes@);
            assert(old(self).lanes@.subrange(0, old(self).lanes@.len() as int) =~= old(
                self,
            ).lanes@);
            lemma_filter_add(
                old(self).any_scheme.store_ms(),
                lanes_ms(old(self).lanes@),
                |m: RouteModel| m.id != id@,
            );
            lemma_filter_add(
                old(self).any_scheme.store_ms(),
                lanes_ms(old(self).lanes@),
                |m: RouteModel| m.id == id@,
            );
            assert forall|m: RouteModel| #[trigger]
                self.any_scheme.store_ms().contains(m) implies scheme_is_any(m) by {
                assert(old(self).any_scheme.store_ms().contains(m));
            }
            assert forall|j: int, m: RouteModel|
                0 <= j < self.lanes@.len() && (#[trigger] self.lanes@[j].1.store_ms().contains(
                    m,
                )) implies m.scheme == Option::Some(self.lanes@[j].0@) by {
                assert(old(self).lanes@[j].1.store_ms().contains(m));
            }
            assert forall|a: int, b: int|
                0 <= a < b < self.lanes@.len() implies (#[trigger] self.lanes@[a]).0@ != (
            #[trigger] self.lanes@[b]).0@ by {
                assert(old(self).lanes@[a].0@ != old(self).lanes@[b].0@);
            }
        }
        any
    }

    /// The budget a cache pass over the pipeline leaves: the any-scheme lane
    /// first, then each scheme lane in order.
    pub closed spec fn budget_after(self, limit: u64, level: u64) -> u64 {
        Self::lanes_budget_after(self.lanes@, self.any_scheme.budget_after(limit, level), level)
    }

    pub open spec fn lanes_budget_after(
        ls: Seq<(Vec<u8>, HostMatcher)>,
        limit: u64,
        level: u64,
    ) -> u64
        decreases ls.len(),
    {
        if ls.len() == 0 {
            limit
        } else {
            Self::lanes_budget_after(
                ls.subrange(1, ls.len() as int),
                ls[0].1.budget_after(limit, level),
                level,
            )
        }
    }

    /// Spends the compilation budget down the pipeline and returns what is
    /// left.
    #[verifier::loop_isolation(false)]
    pub fn cache(&mut self, limit: u64, level: u64) -> (r: u64)
        requires
            old(self).wf(),
        ensures
            final(self).wf(),
            final(self).routes_ms() =~= old(self).routes_ms(),
            r == old(self).budget_after(limit, level),
    {
        let mut budget = self.any_scheme.cache(limit, level);
        let ghost ah = self.any_scheme;
        let mut i: usize = 0;
        proof {
            assert(old(self).lanes@.subrange(0, 0) =~= Seq::<(Vec<u8>, HostMatcher)>::empty());
        }
        while i < self.lanes.len()
            invariant
                self.any_scheme == ah,
                ah.wf(),
                ah.routes_ms() =~= old(self).any_scheme.routes_ms(),
                self.lanes@.len() == old(self).lanes@.len(),
                forall|j: int|
                    i <= j < self.lanes@.len() ==> (#[trigger] self.lanes@[j]) == old(
                        self,
                    ).lanes@[j],
                forall|j: int|
                    0 <= j < self.lanes@.len() ==> (#[trigger] self.lanes@[j]).0@ == old(
                        self,
                    ).lanes@[j].0@ && self.lanes@[j].1.store_ms() == old(
                        self,
                    ).lanes@[j].1.store_ms() && self.lanes@[j].1.wf(),
                budget == Self::lanes_budget_after(
                    old(self).lanes@.subrange(0, i as int),
                    old(self).any_scheme.budget_after(limit, level),
                    level,
                ),
                0 <= i <= self.lanes@.len(),
            decreases self.lanes@.len() - i,
        {
            let ghost pre = old(self).lanes@.subrange(0, i as int);
            proof {
                assert(old(self).lanes@.subrange(0, i as int + 1) =~= pre.push(
                    old(self).lanes@[i as int],
                ));
                lemma_scheme_lanes_budget_push(
                    pre,
                    old(self).lanes@[i as int],
                    old(self).any_scheme.budget_after(limit, level),
                    level,
                );
            }
            let (k, mut sub) = self.lanes.remove(i);
            let ghost sub0 = sub;
            proof {
                assert((k, sub0) == old(self).lanes@[i as int]);
            }
            budget = sub.cache(budget, level);
            self.lanes.insert(i, (k, sub));
            i += 1;
        }
        proof {
            assert(old(self).lanes@.subrange(0, old(self).lanes@.len() as int) =~= old(
                self,
            ).lanes@);
        }
        proof {
            lemma_scheme_lanes_same_ms(self.lanes@, old(self).lanes@);
            assert forall|m: RouteModel| #[trigger]
                self.any_scheme.store_ms().contains(m) implies scheme_is_any(m) by {
                assert(old(self).any_scheme.store_ms().contains(m));
            }
            assert forall|j: int, m: RouteModel|
                0 <= j < self.lanes@.len() && (#[trigger] self.lanes@[j].1.store_ms().contains(
                    m,
                )) implies m.scheme == Option::Some(self.lanes@[j].0@) by {
                assert(old(self).lanes@[j].1.store_ms().contains(m));
            }
            assert forall|a: int, b: int|
                0 <= a < b < self.lanes@.len() implies (#[trigger] self.lanes@[a]).0@ != (
            #[trigger] self.lanes@[b]).0@ by {
                assert(old(self).lanes@[a].0@ != old(self).lanes@[b].0@);
            }
        }
        budget
    }
}

/// The host layer returns nothing of an empty population.
proof fn lemma_host_level_empty(req: RequestModel)
    ensures
        host_level_matched(Multiset::<RouteModel>::empty(), req) =~= Multiset::<
            RouteModel,
        >::empty(),
{
    broadcast use vstd::multiset::group_multiset_axioms;

    let e = Multiset::<RouteModel>::empty();
    assert forall|m: RouteModel|
        crate::matching::host_specific_matched(e, req).count(m) == 0 by {
        assert(e.count(m) == 0);
    }
    assert forall|m: RouteModel| crate::matching::host_any_matched(e, req).count(m) == 0 by {
        assert(e.count(m) == 0);
    }
    assert(crate::matching::host_specific_matched(e, req) =~= Multiset::<RouteModel>::empty());
    assert(crate::matching::host_any_matched(e, req) =~= Multiset::<RouteModel>::empty());
}

proof fn lemma_scheme_lanes_budget_push(
    ls: Seq<(Vec<u8>, HostMatcher)>,
    l: (Vec<u8>, HostMatcher),
    limit: u64,
    level: u64,
)
    ensures
        SchemeMatcher::lanes_budget_after(ls.push(l), limit, level) == l.1.budget_after(
            SchemeMatcher::lanes_budget_after(ls, limit, level),
            level,
        ),
    decreases ls.len(),
{
    if ls.len() == 0 {
        assert(ls.push(l)[0] == l);
        assert(ls.push(l).subrange(1, 1) =~= Seq::<(Vec<u8>, HostMatcher)>::empty());
        assert(SchemeMatcher::lanes_budget_after(ls, limit, level) == limit);
        assert(SchemeMatcher::lanes_budget_after(ls.push(l), limit, level)
            == SchemeMatcher::lanes_budget_after(
            ls.push(l).subrange(1, 1),
            l.1.budget_after(limit, level),
            level,
        ));
        assert(SchemeMatcher::lanes_budget_after(
            Seq::<(Vec<u8>, HostMatcher)>::empty(),
            l.1.budget_after(limit, level),
            level,
        ) == l.1.budget_after(limit, level));
    } else {
        let rest = ls.subrange(1, ls.len() as int);
        assert(ls.push(l).subrange(1, ls.push(l).len() as int) =~= rest.push(l));
        assert(ls.push(l)[0] == ls[0]);
        lemma_scheme_lanes_budget_push(rest, l, ls[0].1.budget_after(limit, level), level);
        assert(SchemeMatcher::lanes_budget_after(ls, limit, level)
            == SchemeMatcher::lanes_budget_after(
            rest,
            ls[0].1.budget_after(limit, level),
            level,
        ));
        assert(SchemeMatcher::lanes_budget_after(ls.push(l), limit, level)
            == SchemeMatcher::lanes_budget_after(
            rest.push(l),
            ls[0].1.budget_after(limit, level),
            level,
        ));
    }
}

/// Two lane lists with pairwise equal route populations hold the same
/// routes.
proof fn lemma_scheme_lanes_same_ms(a: Seq<(Vec<u8>, HostMatcher)>, b: Seq<(Vec<u8>, HostMatcher)>)
    requires
        a.len() == b.len(),
        forall|j: int| 0 <= j < a.len() ==> (#[trigger] a[j]).1.store_ms() == b[j].1.store_ms(),
    ensures
        lanes_ms(a) =~= lanes_ms(b),
    decreases a.len(),
{
    if a.len() > 0 {
        let ra = a.subrange(1, a.len() as int);
        let rb = b.subrange(1, b.len() as int);
        assert forall|j: int|
            0 <= j < ra.len() implies (#[trigger] ra[j]).1.store_ms() == rb[j].1.store_ms() by {
            assert(ra[j] == a[j + 1]);
            assert(rb[j] == b[j + 1]);
        }
        lemma_scheme_lanes_same_ms(ra, rb);
        assert(a[0].1.store_ms() == b[0].1.store_ms());
    }
}

impl Default for SchemeMatcher {
    /// The empty value, as SchemeMatcher::new builds it.
    fn default() -> (r: Self)
        ensures
            r.wf() && r.routes_ms() =~= Multiset::<RouteModel>::empty(),
    {
        SchemeMatcher::new()
    }
}

} // verus!

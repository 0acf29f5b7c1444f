//! The host layer: static hosts, dynamic host patterns behind the radix
//! tree, and an any-host lane consulted only when neither of those matched.

use vstd::prelude::*;
use vstd::multiset::Multiset;
use crate::bytes_util::bytes_eq;
use crate::rule::{Route, RouteModel, PatternModel, StaticOrDynamic};
use crate::request::{Request, RequestModel};
use crate::method_matcher::MethodMatcher;
use crate::route_matcher::append_routes;
use crate::radix_tree::{RegexRadixTree, RegexItem, ItemModel, item_matches, items_of, without_id};
use crate::regex_support::pattern_matches;
use crate::matching::{routes_of, routes_without_id, routes_with_id, RouteStore, lanes_ms,
    lemma_lanes_ms_push, lemma_lanes_ms_remove, lemma_lanes_ms_contains, filter_lower, lower_ok,
    host_is_any, host_specific_ok, host_specific_matched, host_any_matched, host_level_matched,
    lemma_filter_add, lemma_filter_subset, lemma_filter_none};

verus! {

broadcast use vstd::multiset::group_multiset_axioms, vstd::multiset::group_multiset_properties, vstd::seq_lib::group_to_multiset_ensures;

/// Matches on the request's host.
pub struct HostMatcher {
    any_host: MethodMatcher,
    static_lanes: Vec<(Vec<u8>, MethodMatcher)>,
    dynamic_lanes: Vec<(Vec<u8>, MethodMatcher)>,
    regex_tree: RegexRadixTree,
}

impl RouteStore for HostMatcher {
    open spec fn store_ms(self) -> Multiset<RouteModel> {
        self.routes_ms()
    }
}

impl HostMatcher {
    /// The routes this layer holds.
    pub closed spec fn routes_ms(self) -> Multiset<RouteModel> {
        self.any_host.routes_ms().add(
            lanes_ms(self.static_lanes@).add(lanes_ms(self.dynamic_lanes@)),
        )
    }

    /// Lanes agree with their keys, the any lane holds exactly the routes
    /// open to any host, and the tree indexes every dynamic pattern.
    pub closed spec fn wf(self) -> bool {
        &&& self.any_host.wf()
        &&& self.regex_tree.wf()
        &&& (forall|m: RouteModel|
            #[trigger] self.any_host.store_ms().contains(m) ==> host_is_any(m))
        &&& (forall|i: int| 0 <= i < self.static_lanes@.len() ==> (#[trigger] self.static_lanes@[i].1).wf())
        &&& (forall|i: int| 0 <= i < self.dynamic_lanes@.len() ==> (#[trigger] self.dynamic_lanes@[i].1).wf())
        &&& (forall|i: int, m: RouteModel|
            0 <= i < self.static_lanes@.len() && (#[trigger] self.static_lanes@[i].1.store_ms()
                .contains(m)) ==> m.host == Option::Some(
                PatternModel::Static(self.static_lanes@[i].0@),
            ) && self.static_lanes@[i].0@.len() > 0)
        &&& (forall|i: int, m: RouteModel|
            0 <= i < self.dynamic_lanes@.len() && (#[trigger] self.dynamic_lanes@[i].1.store_ms()
                .contains(m)) ==> m.host == Option::Some(
                PatternModel::Dynamic(self.dynamic_lanes@[i].0@),
            ) && self.regex_tree.items().contains(
                ItemModel { id: m.id, regex: self.dynamic_lanes@[i].0@ },
            ))
    }

    /// An empty layer.
    pub fn new() -> (r: HostMatcher)
        ensures
            r.wf(),
            r.routes_ms() =~= Multiset::<RouteModel>::empty(),
    {
        let r = HostMatcher {
            any_host: MethodMatcher::new(),
            static_lanes: Vec::new(),
            dynamic_lanes: Vec::new(),
            regex_tree: RegexRadixTree::new(),
        };
        proof {
            assert(r.static_lanes@ =~= Seq::<(Vec<u8>, MethodMatcher)>::empty());
            assert(r.dynamic_lanes@ =~= Seq::<(Vec<u8>, MethodMatcher)>::empty());
        }
        r
    }

    /// The sub-matcher a fresh lane starts from.
    pub fn create_sub_matcher() -> (r: MethodMatcher)
        ensures
            r.wf(),
            r.routes_ms() =~= Multiset::<RouteModel>::empty(),
    {
        MethodMatcher::new()
    }

    /// Stores a route under its host pattern.
    #[verifier::loop_isolation(false)]
    pub fn insert(&mut self, route: Route)
        requires
            old(self).wf(),
        ensures
            final(self).wf(),
            final(self).routes_ms() =~= old(self).routes_ms().insert(route.model()),
    {
        let ghost rm = route.model();
        let is_any = match &route.host {
            Option::None => true,
            Option::Some(StaticOrDynamic::Static(h)) => h.len() == 0,
            Option::Some(StaticOrDynamic::Dynamic(_)) => false,
        };
        if is_any {
            self.any_host.insert(route);
            proof {
                assert(host_is_any(rm));
                assert forall|m: RouteModel| #[trigger]
                    self.any_host.store_ms().contains(m) implies host_is_any(m) by {
                    if m != rm {
                        assert(old(self).any_host.store_ms().contains(m));
                    }
                }
            }
            return ;
        }
        match &route.host {
            Option::None => {},
            Option::Some(StaticOrDynamic::Static(h)) => {
                let key = h.clone();
                proof {
                    assert(rm.host == Option::Some(PatternModel::Static(key@)));
                    assert(key@.len() > 0);
                }
                let mut i: usize = 0;
                while i < self.static_lanes.len()
                    invariant
                        *self == *old(self),
                        0 <= i <= self.static_lanes@.len(),
                    decreases self.static_lanes@.len() - i,
                {
                    if bytes_eq(self.static_lanes[i].0.as_slice(), key.as_slice()) {
                        let ghost pre = self.static_lanes@;
                        let (k, mut sub) = self.static_lanes.remove(i);
                        let ghost sub0 = sub;
                        sub.insert(route);
                        proof {
                            lemma_lanes_ms_remove(pre, i as int);
                        }
                        self.static_lanes.push((k, sub));
                        proof {
                            assert(self.static_lanes@ == pre.remove(i as int).push((k, sub)));
                            lemma_lanes_ms_push(pre.remove(i as int), (k, sub));
                            assert(lanes_ms(self.static_lanes@) =~= lanes_ms(pre).insert(rm));
                            assert forall|j: int, m: RouteModel|
                                0 <= j < self.static_lanes@.len() && (
                                #[trigger] self.static_lanes@[j].1.store_ms().contains(
                                    m,
                                )) implies m.host == Option::Some(
                                PatternModel::Static(self.static_lanes@[j].0@),
                            ) && self.static_lanes@[j].0@.len() > 0 by {
                                if j < self.static_lanes@.len() - 1 {
                                    let o = if j < i { j } else { j + 1 };
                                    assert(self.static_lanes@[j] == pre[o]);
                                } else {
                                    assert(self.static_lanes@[j] == (k, sub));
                                    if m != rm {
                                        assert(sub0.store_ms().contains(m));
                                        assert(pre[i as int].1.store_ms().contains(m));
                                    }
                                }
                            }
                            assert forall|j: int|
                                0 <= j < self.static_lanes@.len() implies (
                            #[trigger] self.static_lanes@[j].1).wf() by {
                                if j < self.static_lanes@.len() - 1 {
                                    let o = if j < i { j } else { j + 1 };
                                    assert(self.static_lanes@[j] == pre[o]);
                                }
                            }
                        }
                        return ;
                    }
                    i += 1;
                }
                let mut sub = MethodMatcher::new();
                sub.insert(route);
                let ghost pre = self.static_lanes@;
                self.static_lanes.push((key, sub));
                proof {
                    lemma_lanes_ms_push(pre, self.static_lanes@.last());
                    assert(sub.store_ms() =~= Multiset::<RouteModel>::empty().insert(rm));
                    assert(lanes_ms(self.static_lanes@) =~= lanes_ms(pre).insert(rm));
                    assert forall|j: int, m: RouteModel|
                        0 <= j < self.static_lanes@.len() && (
                        #[trigger] self.static_lanes@[j].1.store_ms().contains(
                            m,
                        )) implies m.host == Option::Some(
                        PatternModel::Static(self.static_lanes@[j].0@),
                    ) && self.static_lanes@[j].0@.len() > 0 by {
                        if j < self.static_lanes@.len() - 1 {
                            assert(self.static_lanes@[j] == pre[j]);
                        } else {
                            assert(m == rm);
                        }
                    }
                    assert forall|j: int|
                        0 <= j < self.static_lanes@.len() implies (
                    #[trigger] self.static_lanes@[j].1).wf() by {
                        if j < self.static_lanes@.len() - 1 {
                            assert(self.static_lanes@[j] == pre[j]);
                        }
                    }
                }
            },
            Option::Some(StaticOrDynamic::Dynamic(d)) => {
                let key = d.clone();
                proof {
                    assert(rm.host == Option::Some(PatternModel::Dynamic(key@)));
                }
                let item = RegexItem { id: route.id.clone(), regex: key.clone() };
                let ghost im = item.model();
                proof {
                    assert(im == (ItemModel { id: rm.id, regex: key@ }));
                }
                self.regex_tree.insert(item);
                let ghost tree_now = self.regex_tree;
                let mut i: usize = 0;
                while i < self.dynamic_lanes.len()
                    invariant
                        self.any_host == old(self).any_host,
                        self.static_lanes@ == old(self).static_lanes@,
                        self.dynamic_lanes@ == old(self).dynamic_lanes@,
                        self.regex_tree == tree_now,
                        tree_now.wf(),
                        tree_now.items() =~= old(self).regex_tree.items().insert(im),
                        0 <= i <= self.dynamic_lanes@.len(),
                    decreases self.dynamic_lanes@.len() - i,
                {
                    if bytes_eq(self.dynamic_lanes[i].0.as_slice(), key.as_slice()) {
                        let ghost pre = self.dynamic_lanes@;
                        let (k, mut sub) = self.dynamic_lanes.remove(i);
                        let ghost sub0 = sub;
                        sub.insert(route);
                        proof {
                            lemma_lanes_ms_remove(pre, i as int);
                        }
                        self.dynamic_lanes.push((k, sub));
                        proof {
                            assert(self.dynamic_lanes@ == pre.remove(i as int).push((k, sub)));
                            lemma_lanes_ms_push(pre.remove(i as int), (k, sub));
                            assert(lanes_ms(self.dynamic_lanes@) =~= lanes_ms(pre).insert(rm));
                            assert forall|j: int, m: RouteModel|
                                0 <= j < self.dynamic_lanes@.len() && (
                                #[trigger] self.dynamic_lanes@[j].1.store_ms().contains(
                                    m,
                                )) implies m.host == Option::Some(
                                PatternModel::Dynamic(self.dynamic_lanes@[j].0@),
                            ) && self.regex_tree.items().contains(
                                ItemModel { id: m.id, regex: self.dynamic_lanes@[j].0@ },
                            ) by {
                                if j < self.dynamic_lanes@.len() - 1 {
                                    let o = if j < i { j } else { j + 1 };
                                    assert(self.dynamic_lanes@[j] == pre[o]);
                                    if pre[o].1.store_ms().contains(m) {
                                        assert(old(self).regex_tree.items().contains(
                                            ItemModel { id: m.id, regex: pre[o].0@ },
                                        ));
                                    }
                                } else {
                                    assert(self.dynamic_lanes@[j] == (k, sub));
                                    if m != rm {
                                        assert(sub0.store_ms().contains(m));
                                        assert(pre[i as int].1.store_ms().contains(m));
                                        assert(old(self).regex_tree.items().contains(
                                            ItemModel { id: m.id, regex: k@ },
                                        ));
                                    } else {
                                        assert(k@ == key@);
                                    }
                                }
                            }
                            assert forall|j: int|
                                0 <= j < self.dynamic_lanes@.len() implies (
                            #[trigger] self.dynamic_lanes@[j].1).wf() by {
                                if j < self.dynamic_lanes@.len() - 1 {
                                    let o = if j < i { j } else { j + 1 };
                                    assert(self.dynamic_lanes@[j] == pre[o]);
                                }
                            }
                            assert forall|j: int, m: RouteModel|
                                0 <= j < self.static_lanes@.len() && (
                                #[trigger] self.static_lanes@[j].1.store_ms().contains(
                                    m,
                                )) implies m.host == Option::Some(
                                PatternModel::Static(self.static_lanes@[j].0@),
                            ) && self.static_lanes@[j].0@.len() > 0 by {
                                assert(old(self).static_lanes@[j].1.store_ms().contains(m));
                            }
                        }
                        return ;
                    }
                    i += 1;
                }
                let mut sub = MethodMatcher::new();
                sub.insert(route);
                let ghost pre = self.dynamic_lanes@;
                self.dynamic_lanes.push((key, sub));
                proof {
                    lemma_lanes_ms_push(pre, self.dynamic_lanes@.last());
                    assert(sub.store_ms() =~= Multiset::<RouteModel>::empty().insert(rm));
                    assert(lanes_ms(self.dynamic_lanes@) =~= lanes_ms(pre).insert(rm));
                    assert forall|j: int, m: RouteModel|
                        0 <= j < self.dynamic_lanes@.len() && (
                        #[trigger] self.dynamic_lanes@[j].1.store_ms().contains(
                            m,
                        )) implies m.host == Option::Some(
                        PatternModel::Dynamic(self.dynamic_lanes@[j].0@),
                    ) && self.regex_tree.items().contains(
                        ItemModel { id: m.id, regex: self.dynamic_lanes@[j].0@ },
                    ) by {
                        if j < self.dynamic_lanes@.len() - 1 {
                            assert(self.dynamic_lanes@[j] == pre[j]);
                            if pre[j].1.store_ms().contains(m) {
                                assert(old(self).regex_tree.items().contains(
                                    ItemModel { id: m.id, regex: pre[j].0@ },
                                ));
                            }
                        } else {
                            assert(m == rm);
                        }
                    }
                    assert forall|j: int|
                        0 <= j < self.dynamic_lanes@.len() implies (
                    #[trigger] self.dynamic_lanes@[j].1).wf() by {
                        if j < self.dynamic_lanes@.len() - 1 {
                            assert(self.dynamic_lanes@[j] == pre[j]);
                        }
                    }
                    assert forall|j: int, m: RouteModel|
                        0 <= j < self.static_lanes@.len() && (
                        #[trigger] self.static_lanes@[j].1.store_ms().contains(
                            m,
                        )) implies m.host == Option::Some(
                        PatternModel::Static(self.static_lanes@[j].0@),
                    ) && self.static_lanes@[j].0@.len() > 0 by {
                        assert(old(self).static_lanes@[j].1.store_ms().contains(m));
                    }
                }
            },
        }
    }

    /// The host layer's matches: the host-specific routes when some
    /// matched, the any-host lane's routes otherwise.
    #[verifier::loop_isolation(false)]
    pub fn match_request(&self, request: &Request) -> (r: Vec<Route>)
        requires
            self.wf(),
        ensures
            routes_of(r@) =~= host_level_matched(self.routes_ms(), request.model()),
    {
        let ghost req = request.model();
        let ghost total = self.routes_ms();
        match &request.host {
            Option::None => {
                let out = self.any_host.match_request(request);
                proof {
                    assert forall|m: RouteModel| #[trigger]
                        total.contains(m) implies !(host_specific_ok(m, req) && lower_ok(
                        m,
                        req,
                    )) by {
                        assert(req.host is None);
                    }
                    lemma_filter_none(
                        total,
                        |m: RouteModel| host_specific_ok(m, req) && lower_ok(m, req),
                    );
                    self.lemma_any_part(req);
                    assert(routes_of(out@) =~= host_any_matched(total, req));
                }
                out
            },
            Option::Some(h) => {
                let mut out: Vec<Route> = Vec::new();
                proof {
                    crate::matching::lemma_routes_of_empty();
                    assert(self.static_lanes@.subrange(0, 0) =~= Seq::<
                        (Vec<u8>, MethodMatcher),
                    >::empty());
                    assert(host_specific_matched(
                        lanes_ms(self.static_lanes@.subrange(0, 0)),
                        req,
                    ) =~= Multiset::<RouteModel>::empty());
                }
                let mut i: usize = 0;
                while i < self.static_lanes.len()
                    invariant
                        0 <= i <= self.static_lanes@.len(),
                        routes_of(out@) =~= host_specific_matched(
                            lanes_ms(self.static_lanes@.subrange(0, i as int)),
                            req,
                        ),
                    decreases self.static_lanes@.len() - i,
                {
                    let ghost pre = self.static_lanes@.subrange(0, i as int);
                    let ghost lane = self.static_lanes@[i as int];
                    proof {
                        assert(self.static_lanes@.subrange(0, i as int + 1) =~= pre.push(lane));
                        lemma_lanes_ms_push(pre, lane);
                        lemma_filter_add(
                            lanes_ms(pre),
                            lane.1.store_ms(),
                            |m: RouteModel| host_specific_ok(m, req) && lower_ok(m, req),
                        );
                    }
                    if bytes_eq(self.static_lanes[i].0.as_slice(), h.as_slice()) {
                        proof {
                            assert forall|m: RouteModel| #[trigger]
                                lane.1.store_ms().contains(m) implies (lower_ok(m, req) == (
                            host_specific_ok(m, req) && lower_ok(m, req))) by {
                                assert(m.host == Option::Some(PatternModel::Static(lane.0@)));
                                assert(host_specific_ok(m, req));
                            }
                            lemma_filter_subset(
                                lane.1.store_ms(),
                                |m: RouteModel| lower_ok(m, req),
                                |m: RouteModel| host_specific_ok(m, req) && lower_ok(m, req),
                            );
                        }
                        let more = self.static_lanes[i].1.match_request(request);
                        append_routes(&mut out, more);
                    } else {
                        proof {
                            assert forall|m: RouteModel| #[trigger]
                                lane.1.store_ms().contains(m) implies !(host_specific_ok(m, req)
                                && lower_ok(m, req)) by {
                                assert(m.host == Option::Some(PatternModel::Static(lane.0@)));
                            }
                            lemma_filter_none(
                                lane.1.store_ms(),
                                |m: RouteModel| host_specific_ok(m, req) && lower_ok(m, req),
                            );
                        }
                    }
                    i += 1;
                }
                proof {
                    assert(self.static_lanes@.subrange(0, self.static_lanes@.len() as int)
                        =~= self.static_lanes@);
                }
                let ghost static_part = routes_of(out@);
                let found = self.regex_tree.find_bytes(h.as_slice());
                match found {
                    Option::None => {
                        proof {
                            assert(self.regex_tree.matched(h@).len() == 0);
                            assert forall|j: int, m: RouteModel|
                                0 <= j < self.dynamic_lanes@.len() && (
                                #[trigger] self.dynamic_lanes@[j].1.store_ms().contains(
                                    m,
                                )) implies !(host_specific_ok(m, req) && lower_ok(m, req)) by {
                                if host_specific_ok(m, req) {
                                    let im = ItemModel {
                                        id: m.id,
                                        regex: self.dynamic_lanes@[j].0@,
                                    };
                                    assert(self.regex_tree.items().contains(im));
                                    assert(item_matches(im, h@));
                                    assert(self.regex_tree.matched(h@).count(im)
                                        == self.regex_tree.items().count(im));
                                    assert(self.regex_tree.matched(h@).len() > 0);
                                }
                            }
                            lemma_host_dynamic_none(self.dynamic_lanes@, req);
                        }
                    },
                    Option::Some(items) => {
                        proof {
                            assert(items_of(items@) == self.regex_tree.matched(h@));
                            assert(self.dynamic_lanes@.subrange(0, 0) =~= Seq::<
                                (Vec<u8>, MethodMatcher),
                            >::empty());
                            assert(host_specific_matched(
                                lanes_ms(self.dynamic_lanes@.subrange(0, 0)),
                                req,
                            ) =~= Multiset::<RouteModel>::empty());
                        }
                        let mut d: usize = 0;
                        while d < self.dynamic_lanes.len()
                            invariant
                                0 <= d <= self.dynamic_lanes@.len(),
                                items_of(items@) == self.regex_tree.matched(h@),
                                routes_of(out@) =~= static_part.add(
                                    host_specific_matched(
                                        lanes_ms(self.dynamic_lanes@.subrange(0, d as int)),
                                        req,
                                    ),
                                ),
                            decreases self.dynamic_lanes@.len() - d,
                        {
                            let ghost pre = self.dynamic_lanes@.subrange(0, d as int);
                            let ghost lane = self.dynamic_lanes@[d as int];
                            proof {
                                assert(self.dynamic_lanes@.subrange(0, d as int + 1) =~= pre.push(
                                    lane,
                                ));
                                lemma_lanes_ms_push(pre, lane);
                                lemma_filter_add(
                                    lanes_ms(pre),
                                    lane.1.store_ms(),
                                    |m: RouteModel| host_specific_ok(m, req) && lower_ok(m, req),
                                );
                            }
                            if crate::path_matcher::contains_regex(
                                &items,
                                self.dynamic_lanes[d].0.as_slice(),
                            ) {
                                proof {
                                    let j = choose|j: int|
                                        0 <= j < items@.len() && (#[trigger] items@[j]).regex@
                                            == lane.0@;
                                    let s = items@.map_values(|it: RegexItem| it.model());
                                    assert(s[j] == items@[j].model());
                                    assert(s.contains(items@[j].model()));
                                    assert(items_of(items@).contains(items@[j].model()));
                                    assert(item_matches(items@[j].model(), h@));
                                    assert(pattern_matches(lane.0@, h@));
                                    assert forall|m: RouteModel| #[trigger]
                                        lane.1.store_ms().contains(m) implies (lower_ok(m, req)
                                        == (host_specific_ok(m, req) && lower_ok(m, req))) by {
                                        assert(m.host == Option::Some(
                                            PatternModel::Dynamic(lane.0@),
                                        ));
                                        assert(host_specific_ok(m, req));
                                    }
                                    lemma_filter_subset(
                                        lane.1.store_ms(),
                                        |m: RouteModel| lower_ok(m, req),
                                        |m: RouteModel| host_specific_ok(m, req) && lower_ok(
                                            m,
                                            req,
                                        ),
                                    );
                                }
                                let more = self.dynamic_lanes[d].1.match_request(request);
                                append_routes(&mut out, more);
                            } else {
                                proof {
                                    assert forall|m: RouteModel| #[trigger]
                                        lane.1.store_ms().contains(m) implies !(host_specific_ok(
                                        m,
                                        req,
                                    ) && lower_ok(m, req)) by {
                                        if host_specific_ok(m, req) {
                                            let im = ItemModel { id: m.id, regex: lane.0@ };
                                            assert(self.regex_tree.items().contains(im));
                                            assert(item_matches(im, h@));
                                            assert(self.regex_tree.matched(h@).count(im)
                                                == self.regex_tree.items().count(im));
                                            assert(items_of(items@).contains(im));
                                            let s = items@.map_values(|it: RegexItem| it.model());
                                            assert(s.contains(im));
                                            let j = choose|j: int| 0 <= j < s.len() && s[j] == im;
                                            assert(items@[j].model() == im);
                                            assert(items@[j].regex@ == lane.0@);
                                        }
                                    }
                                    lemma_filter_none(
                                        lane.1.store_ms(),
                                        |m: RouteModel| host_specific_ok(m, req) && lower_ok(
                                            m,
                                            req,
                                        ),
                                    );
                                }
                            }
                            d += 1;
                        }
                        proof {
                            assert(self.dynamic_lanes@.subrange(
                                0,
                                self.dynamic_lanes@.len() as int,
                            ) =~= self.dynamic_lanes@);
                        }
                    },
                }
                proof {
                    // the any lane never matches host-specifically
                    assert forall|m: RouteModel| #[trigger]
                        self.any_host.store_ms().contains(m) implies !(host_specific_ok(m, req)
                        && lower_ok(m, req)) by {
                        assert(host_is_any(m));
                    }
                    lemma_filter_none(
                        self.any_host.store_ms(),
                        |m: RouteModel| host_specific_ok(m, req) && lower_ok(m, req),
                    );
                    lemma_filter_add(
                        self.any_host.store_ms(),
                        lanes_ms(self.static_lanes@).add(lanes_ms(self.dynamic_lanes@)),
                        |m: RouteModel| host_specific_ok(m, req) && lower_ok(m, req),
                    );
                    lemma_filter_add(
                        lanes_ms(self.static_lanes@),
                        lanes_ms(self.dynamic_lanes@),
                        |m: RouteModel| host_specific_ok(m, req) && lower_ok(m, req),
                    );
                    assert(routes_of(out@) =~= host_specific_matched(total, req));
                }
                if out.len() > 0 {
                    proof {
                        assert(routes_of(out@).len() == out@.len());
                        assert(host_specific_matched(total, req).len() > 0);
                    }
                    out
                } else {
                    proof {
                        assert(routes_of(out@).len() == out@.len());
                        assert(host_specific_matched(total, req).len() == 0);
                    }
                    let any_out = self.any_host.match_request(request);
                    proof {
                        self.lemma_any_part(req);
                        assert(routes_of(any_out@) =~= host_any_matched(total, req));
                    }
                    any_out
                }
            },
        }
    }

    /// The layer's trace: one node per static host key with whether the
    /// request's host equals it, the factored pattern tree, the
    /// host-specific matches, and the any-host lane only when those are
    /// silent.
    #[verifier::loop_isolation(false)]
    pub fn trace(&self, request: &Request) -> (r: Vec<crate::trace::Trace>)
        requires
            self.wf(),
        ensures
            crate::trace::Trace::collected_children(r@) =~= host_level_matched(
                self.routes_ms(),
                request.model(),
            ),
    {
        let ghost req = request.model();
        let ghost total = self.routes_ms();
        let mut out: Vec<crate::trace::Trace> = Vec::new();
        proof {
            assert(out@ =~= Seq::<crate::trace::Trace>::empty());
            crate::matching::lemma_routes_of_empty();
        }
        let mut i: usize = 0;
        while i < self.static_lanes.len()
            invariant
                0 <= i <= self.static_lanes@.len(),
                crate::trace::Trace::collected_children(out@) =~= Multiset::<
                    RouteModel,
                >::empty(),
            decreases self.static_lanes@.len() - i,
        {
            let key_matches = match &request.host {
                Option::Some(h) => bytes_eq(self.static_lanes[i].0.as_slice(), h.as_slice()),
                Option::None => false,
            };
            let mut description = crate::trace::label_bytes("Host ");
            crate::canon::append_vec(&mut description, self.static_lanes[i].0.clone());
            let no_routes: Vec<Route> = Vec::new();
            let key_node = crate::trace::Trace::leaf(
                description,
                key_matches,
                key_matches,
                0,
                no_routes,
            );
            let ghost opre = out@;
            proof {
                crate::matching::lemma_routes_of_empty();
                assert(key_node.collected() =~= Multiset::<RouteModel>::empty());
            }
            out.push(key_node);
            proof {
                crate::trace::lemma_collected_children_push(opre, key_node);
                assert(out@ =~= opre.push(key_node));
            }
            i += 1;
        }
        match &request.host {
            Option::Some(h) => {
                let tree_node = self.regex_tree.trace_shape(h.as_slice());
                let ghost opre = out@;
                out.push(tree_node);
                proof {
                    crate::trace::lemma_collected_children_push(opre, tree_node);
                    assert(out@ =~= opre.push(tree_node));
                }
            },
            Option::None => {},
        }
        let specific = self.match_specific(request);
        if specific.len() > 0 {
            proof {
                assert(routes_of(specific@).len() == specific@.len());
                assert(host_specific_matched(total, req).len() > 0);
            }
            let count = specific.len() as u64;
            let node = crate::trace::Trace::leaf(
                crate::trace::label_bytes("Host"),
                true,
                true,
                count,
                specific,
            );
            let ghost opre = out@;
            out.push(node);
            proof {
                crate::trace::lemma_collected_children_push(opre, node);
                assert(out@ =~= opre.push(node));
            }
        } else {
            proof {
                assert(routes_of(specific@).len() == specific@.len());
                assert(host_specific_matched(total, req).len() == 0);
            }
            let any_traces = self.any_host.trace(request);
            let empty_routes: Vec<Route> = Vec::new();
            let node = crate::trace::Trace::new(
                crate::trace::label_bytes("Any host"),
                true,
                true,
                0,
                any_traces,
                empty_routes,
            );
            proof {
                crate::matching::lemma_routes_of_empty();
                self.lemma_any_part(req);
                assert(node.collected() =~= host_any_matched(total, req));
            }
            let ghost opre = out@;
            out.push(node);
            proof {
                crate::trace::lemma_collected_children_push(opre, node);
                assert(out@ =~= opre.push(node));
            }
        }
        out
    }

    /// The host-specific full matches alone.
    #[verifier::loop_isolation(false)]
    fn match_specific(&self, request: &Request) -> (r: Vec<Route>)
        requires
            self.wf(),
        ensures
            routes_of(r@) =~= host_specific_matched(self.routes_ms(), request.model()),
    {
        let ghost req = request.model();
        let ghost total = self.routes_ms();
        match &request.host {
            Option::None => {
                let out: Vec<Route> = Vec::new();
                proof {
                    crate::matching::lemma_routes_of_empty();
                    assert(out@ =~= Seq::<Route>::empty());
                    assert forall|m: RouteModel| #[trigger]
                        total.contains(m) implies !(host_specific_ok(m, req) && lower_ok(
                        m,
                        req,
                    )) by {
                        assert(req.host is None);
                    }
                    lemma_filter_none(
                        total,
                        |m: RouteModel| host_specific_ok(m, req) && lower_ok(m, req),
                    );
                }
                out
            },
            Option::Some(h) => {
                let mut out: Vec<Route> = Vec::new();
                proof {
                    crate::matching::lemma_routes_of_empty();
                    assert(self.static_lanes@.subrange(0, 0) =~= Seq::<
                        (Vec<u8>, MethodMatcher),
                    >::empty());
                    assert(host_specific_matched(
                        lanes_ms(self.static_lanes@.subrange(0, 0)),
                        req,
                    ) =~= Multiset::<RouteModel>::empty());
                }
                let mut i: usize = 0;
                while i < self.static_lanes.len()
                    invariant
                        0 <= i <= self.static_lanes@.len(),
                        routes_of(out@) =~= host_specific_matched(
                            lanes_ms(self.static_lanes@.subrange(0, i as int)),
                            req,
                        ),
                    decreases self.static_lanes@.len() - i,
                {
                    let ghost pre = self.static_lanes@.subrange(0, i as int);
                    let ghost lane = self.static_lanes@[i as int];
                    proof {
                        assert(self.static_lanes@.subrange(0, i as int + 1) =~= pre.push(lane));
                        lemma_lanes_ms_push(pre, lane);
                        lemma_filter_add(
                            lanes_ms(pre),
                            lane.1.store_ms(),
                            |m: RouteModel| host_specific_ok(m, req) && lower_ok(m, req),
                        );
                    }
                    if bytes_eq(self.static_lanes[i].0.as_slice(), h.as_slice()) {
                        proof {
                            assert forall|m: RouteModel| #[trigger]
                                lane.1.store_ms().contains(m) implies (lower_ok(m, req) == (
                            host_specific_ok(m, req) && lower_ok(m, req))) by {
                                assert(m.host == Option::Some(PatternModel::Static(lane.0@)));
                                assert(host_specific_ok(m, req));
                            }
                            lemma_filter_subset(
                                lane.1.store_ms(),
                                |m: RouteModel| lower_ok(m, req),
                                |m: RouteModel| host_specific_ok(m, req) && lower_ok(m, req),
                            );
                        }
                        let more = self.static_lanes[i].1.match_request(request);
                        append_routes(&mut out, more);
                    } else {
                        proof {
                            assert forall|m: RouteModel| #[trigger]
                                lane.1.store_ms().contains(m) implies !(host_specific_ok(m, req)
                                && lower_ok(m, req)) by {
                                assert(m.host == Option::Some(PatternModel::Static(lane.0@)));
                            }
                            lemma_filter_none(
                                lane.1.store_ms(),
                                |m: RouteModel| host_specific_ok(m, req) && lower_ok(m, req),
                            );
                        }
                    }
                    i += 1;
                }
                proof {
                    assert(self.static_lanes@.subrange(0, self.static_lanes@.len() as int)
                        =~= self.static_lanes@);
                }
                let ghost static_part = routes_of(out@);
                let found = self.regex_tree.find_bytes(h.as_slice());
                match found {
                    Option::None => {
                        proof {
                            assert(self.regex_tree.matched(h@).len() == 0);
                            assert forall|j: int, m: RouteModel|
                                0 <= j < self.dynamic_lanes@.len() && (
                                #[trigger] self.dynamic_lanes@[j].1.store_ms().contains(
                                    m,
                                )) implies !(host_specific_ok(m, req) && lower_ok(m, req)) by {
                                if host_specific_ok(m, req) {
                                    let im = ItemModel {
                                        id: m.id,
                                        regex: self.dynamic_lanes@[j].0@,
                                    };
                                    assert(self.regex_tree.items().contains(im));
                                    assert(item_matches(im, h@));
                                    assert(self.regex_tree.matched(h@).count(im)
                                        == self.regex_tree.items().count(im));
                                    assert(self.regex_tree.matched(h@).len() > 0);
                                }
                            }
                            lemma_host_dynamic_none(self.dynamic_lanes@, req);
                        }
                    },
                    Option::Some(items) => {
                        proof {
                            assert(items_of(items@) == self.regex_tree.matched(h@));
                            assert(self.dynamic_lanes@.subrange(0, 0) =~= Seq::<
                                (Vec<u8>, MethodMatcher),
                            >::empty());
                            assert(host_specific_matched(
                                lanes_ms(self.dynamic_lanes@.subrange(0, 0)),
                                req,
                            ) =~= Multiset::<RouteModel>::empty());
                        }
                        let mut d: usize = 0;
                        while d < self.dynamic_lanes.len()
                            invariant
                                0 <= d <= self.dynamic_lanes@.len(),
                                items_of(items@) == self.regex_tree.matched(h@),
                                routes_of(out@) =~= static_part.add(
                                    host_specific_matched(
                                        lanes_ms(self.dynamic_lanes@.subrange(0, d as int)),
                                        req,
                                    ),
                                ),
                            decreases self.dynamic_lanes@.len() - d,
                        {
                            let ghost pre = self.dynamic_lanes@.subrange(0, d as int);
                            let ghost lane = self.dynamic_lanes@[d as int];
                            proof {
                                assert(self.dynamic_lanes@.subrange(0, d as int + 1) =~= pre.push(
                                    lane,
                                ));
                                lemma_lanes_ms_push(pre, lane);
                                lemma_filter_add(
                                    lanes_ms(pre),
                                    lane.1.store_ms(),
                                    |m: RouteModel| host_specific_ok(m, req) && lower_ok(m, req),
                                );
                            }
                            if crate::path_matcher::contains_regex(
                                &items,
                                self.dynamic_lanes[d].0.as_slice(),
                            ) {
                                proof {
                                    let j = choose|j: int|
                                        0 <= j < items@.len() && (#[trigger] items@[j]).regex@
                                            == lane.0@;
                                    let s = items@.map_values(|it: RegexItem| it.model());
                                    assert(s[j] == items@[j].model());
                                    assert(s.contains(items@[j].model()));
                                    assert(items_of(items@).contains(items@[j].model()));
                                    assert(item_matches(items@[j].model(), h@));
                                    assert(pattern_matches(lane.0@, h@));
                                    assert forall|m: RouteModel| #[trigger]
                                        lane.1.store_ms().contains(m) implies (lower_ok(m, req)
                                        == (host_specific_ok(m, req) && lower_ok(m, req))) by {
                                        assert(m.host == Option::Some(
                                            PatternModel::Dynamic(lane.0@),
                                        ));
                                        assert(host_specific_ok(m, req));
                                    }
                                    lemma_filter_subset(
                                        lane.1.store_ms(),
                                        |m: RouteModel| lower_ok(m, req),
                                        |m: RouteModel| host_specific_ok(m, req) && lower_ok(
                                            m,
                                            req,
                                        ),
                                    );
                                }
                                let more = self.dynamic_lanes[d].1.match_request(request);
                                append_routes(&mut out, more);
                            } else {
                                proof {
                                    assert forall|m: RouteModel| #[trigger]
                                        lane.1.store_ms().contains(m) implies !(host_specific_ok(
                                        m,
                                        req,
                                    ) && lower_ok(m, req)) by {
                                        if host_specific_ok(m, req) {
                                            let im = ItemModel { id: m.id, regex: lane.0@ };
                                            assert(self.regex_tree.items().contains(im));
                                            assert(item_matches(im, h@));
                                            assert(self.regex_tree.matched(h@).count(im)
                                                == self.regex_tree.items().count(im));
                                            assert(items_of(items@).contains(im));
                                            let s = items@.map_values(|it: RegexItem| it.model());
                                            assert(s.contains(im));
                                            let j = choose|j: int| 0 <= j < s.len() && s[j] == im;
                                            assert(items@[j].model() == im);
                                            assert(items@[j].regex@ == lane.0@);
                                        }
                                    }
                                    lemma_filter_none(
                                        lane.1.store_ms(),
                                        |m: RouteModel| host_specific_ok(m, req) && lower_ok(
                                            m,
                                            req,
                                        ),
                                    );
                                }
                            }
                            d += 1;
                        }
                        proof {
                            assert(self.dynamic_lanes@.subrange(
                                0,
                                self.dynamic_lanes@.len() as int,
                            ) =~= self.dynamic_lanes@);
                        }
                    },
                }
                proof {
                    assert forall|m: RouteModel| #[trigger]
                        self.any_host.store_ms().contains(m) implies !(host_specific_ok(m, req)
                        && lower_ok(m, req)) by {
                        assert(host_is_any(m));
                    }
                    lemma_filter_none(
                        self.any_host.store_ms(),
                        |m: RouteModel| host_specific_ok(m, req) && lower_ok(m, req),
                    );
                    lemma_filter_add(
                        self.any_host.store_ms(),
                        lanes_ms(self.static_lanes@).add(lanes_ms(self.dynamic_lanes@)),
                        |m: RouteModel| host_specific_ok(m, req) && lower_ok(m, req),
                    );
                    lemma_filter_add(
                        lanes_ms(self.static_lanes@),
                        lanes_ms(self.dynamic_lanes@),
                        |m: RouteModel| host_specific_ok(m, req) && lower_ok(m, req),
                    );
                }
                out
            },
        }
    }

    /// The any lane's full matches are exactly the any-host matches of the
    /// whole population.
    proof fn lemma_any_part(self, req: RequestModel)
        requires
            self.wf(),
        ensures
            filter_lower(self.any_host.store_ms(), req) =~= host_any_matched(
                self.routes_ms(),
                req,
            ),
    {
        assert forall|m: RouteModel| #[trigger]
            self.any_host.store_ms().contains(m) implies (lower_ok(m, req) == (host_is_any(m)
            && lower_ok(m, req))) by {
            assert(host_is_any(m));
        }
        lemma_filter_subset(
            self.any_host.store_ms(),
            |m: RouteModel| lower_ok(m, req),
            |m: RouteModel| host_is_any(m) && lower_ok(m, req),
        );
        assert forall|j: int, m: RouteModel|
            0 <= j < self.static_lanes@.len() && (
            #[trigger] self.static_lanes@[j].1.store_ms().contains(m)) implies !(host_is_any(m)
            && lower_ok(m, req)) by {
            assert(m.host == Option::Some(PatternModel::Static(self.static_lanes@[j].0@)));
        }
        assert forall|j: int, m: RouteModel|
            0 <= j < self.dynamic_lanes@.len() && (
            #[trigger] self.dynamic_lanes@[j].1.store_ms().contains(m)) implies !(host_is_any(m)
            && lower_ok(m, req)) by {
            assert(m.host == Option::Some(PatternModel::Dynamic(self.dynamic_lanes@[j].0@)));
        }
        assert forall|m: RouteModel| #[trigger]
            lanes_ms(self.static_lanes@).contains(m) implies !(host_is_any(m) && lower_ok(
            m,
            req,
        )) by {
            lemma_lanes_ms_contains(self.static_lanes@, m);
        }
        assert forall|m: RouteModel| #[trigger]
            lanes_ms(self.dynamic_lanes@).contains(m) implies !(host_is_any(m) && lower_ok(
            m,
            req,
        )) by {
            lemma_lanes_ms_contains(self.dynamic_lanes@, m);
        }
        lemma_filter_none(
            lanes_ms(self.static_lanes@),
            |m: RouteModel| host_is_any(m) && lower_ok(m, req),
        );
        lemma_filter_none(
            lanes_ms(self.dynamic_lanes@),
            |m: RouteModel| host_is_any(m) && lower_ok(m, req),
        );
        lemma_filter_add(
            self.any_host.store_ms(),
            lanes_ms(self.static_lanes@).add(lanes_ms(self.dynamic_lanes@)),
            |m: RouteModel| host_is_any(m) && lower_ok(m, req),
        );
        lemma_filter_add(
            lanes_ms(self.static_lanes@),
            lanes_ms(self.dynamic_lanes@),
            |m: RouteModel| host_is_any(m) && lower_ok(m, req),
        );
    }

    /// Removes every route carrying `id`; true when something was removed.
    #[verifier::loop_isolation(false)]
    pub fn remove(&mut self, id: &[u8]) -> (r: bool)
        requires
            old(self).wf(),
        ensures
            final(self).wf(),
            final(self).routes_ms() =~= routes_without_id(old(self).routes_ms(), id@),
            r == (routes_with_id(old(self).routes_ms(), id@).len() > 0),
    {
        let r1 = self.any_host.remove(id);
        let r2 = remove_from_host_lanes(&mut self.static_lanes, id);
        let r3 = remove_from_host_lanes(&mut self.dynamic_lanes, id);
        let _ = self.regex_tree.remove_bytes(id);
        proof {
            lemma_filter_add(
                old(self).any_host.store_ms(),
                lanes_ms(old(self).static_lanes@).add(lanes_ms(old(self).dynamic_lanes@)),
                |m: RouteModel| m.id != id@,
            );
            lemma_filter_add(
                lanes_ms(old(self).static_lanes@),
                lanes_ms(old(self).dynamic_lanes@),
                |m: RouteModel| m.id != id@,
            );
            lemma_filter_add(
                old(self).any_host.store_ms(),
                lanes_ms(old(self).static_lanes@).add(lanes_ms(old(self).dynamic_lanes@)),
                |m: RouteModel| m.id == id@,
            );
            lemma_filter_add(
                lanes_ms(old(self).static_lanes@),
                lanes_ms(old(self).dynamic_lanes@),
                |m: RouteModel| m.id == id@,
            );
            assert forall|m: RouteModel| #[trigger]
                self.any_host.store_ms().contains(m) implies host_is_any(m) by {
                assert(old(self).any_host.store_ms().contains(m));
            }
            assert forall|j: int, m: RouteModel|
                0 <= j < self.static_lanes@.len() && (
                #[trigger] self.static_lanes@[j].1.store_ms().contains(
                    m,
                )) implies m.host == Option::Some(PatternModel::Static(self.static_lanes@[j].0@))
                && self.static_lanes@[j].0@.len() > 0 by {
                assert(old(self).static_lanes@[j].1.store_ms().contains(m));
            }
            assert forall|j: int, m: RouteModel|
                0 <= j < self.dynamic_lanes@.len() && (
                #[trigger] self.dynamic_lanes@[j].1.store_ms().contains(
                    m,
                )) implies m.host == Option::Some(PatternModel::Dynamic(self.dynamic_lanes@[j].0@))
                && self.regex_tree.items().contains(
                ItemModel { id: m.id, regex: self.dynamic_lanes@[j].0@ },
            ) by {
                assert(old(self).dynamic_lanes@[j].1.store_ms().contains(m));
                assert(m.id != id@);
                let im = ItemModel { id: m.id, regex: self.dynamic_lanes@[j].0@ };
                assert(old(self).regex_tree.items().contains(im));
                assert(self.regex_tree.items() =~= without_id(old(self).regex_tree.items(), id@));
                assert(self.regex_tree.items().count(im) == old(self).regex_tree.items().count(
                    im,
                ));
            }
        }
        r1 || r2 || r3
    }

    /// The budget a cache pass over this layer leaves: the host pattern
    /// index first, then the any lane's chain.
    pub closed spec fn budget_after(self, limit: u64, level: u64) -> u64 {
        self.any_host.budget_after(self.regex_tree.budget_after(limit, level), level)
    }

    /// Spends the compilation budget on the host patterns and the any lane's
    /// chain and returns what is left.
    #[verifier::loop_isolation(false)]
    pub fn cache(&mut self, limit: u64, level: u64) -> (r: u64)
        requires
            old(self).wf(),
        ensures
            final(self).wf(),
            final(self).routes_ms() =~= old(self).routes_ms(),
            forall|l: u64, lv: u64|
                #[trigger] final(self).budget_after(l, lv) == old(self).budget_after(l, lv),
            r == old(self).budget_after(limit, level),
    {
        let budget = self.regex_tree.cache(limit, level);
        let budget = self.any_host.cache(budget, level);
        proof {
            assert forall|m: RouteModel| #[trigger]
                self.any_host.store_ms().contains(m) implies host_is_any(m) by {
                assert(old(self).any_host.store_ms().contains(m));
            }
        }
        budget
    }
}

proof fn lemma_host_dynamic_none(ls: Seq<(Vec<u8>, MethodMatcher)>, req: RequestModel)
    requires
        forall|j: int, m: RouteModel|
            0 <= j < ls.len() && (#[trigger] ls[j].1.store_ms().contains(m)) ==> !(
            host_specific_ok(m, req) && lower_ok(m, req)),
    ensures
        host_specific_matched(lanes_ms(ls), req) =~= Multiset::<RouteModel>::empty(),
{
    assert forall|m: RouteModel| #[trigger] lanes_ms(ls).contains(m) implies !(host_specific_ok(
        m,
        req,
    ) && lower_ok(m, req)) by {
        lemma_lanes_ms_contains(ls, m);
        let j = choose|j: int| 0 <= j < ls.len() && (#[trigger] ls[j]).1.store_ms().contains(m);
        assert(ls[j].1.store_ms().contains(m));
    }
    lemma_filter_none(lanes_ms(ls), |m: RouteModel| host_specific_ok(m, req) && lower_ok(m, req));
}

/// Removes `id` from every lane, keeping the lanes in place.
#[verifier::loop_isolation(false)]
fn remove_from_host_lanes(lanes: &mut Vec<(Vec<u8>, MethodMatcher)>, id: &[u8]) -> (r: bool)
    requires
        forall|j: int| 0 <= j < old(lanes)@.len() ==> (#[trigger] old(lanes)@[j].1).wf(),
    ensures
        final(lanes)@.len() == old(lanes)@.len(),
        forall|j: int|
            0 <= j < final(lanes)@.len() ==> (#[trigger] final(lanes)@[j]).0@ == old(
                lanes,
            )@[j].0@ && final(lanes)@[j].1.store_ms() == routes_without_id(
                old(lanes)@[j].1.store_ms(),
                id@,
            ) && final(lanes)@[j].1.wf(),
        lanes_ms(final(lanes)@) =~= routes_without_id(lanes_ms(old(lanes)@), id@),
        r == (routes_with_id(lanes_ms(old(lanes)@), id@).len() > 0),
{
    let mut any = false;
    let mut i: usize = 0;
    proof {
        assert(old(lanes)@.subrange(0, 0) =~= Seq::<(Vec<u8>, MethodMatcher)>::empty());
        assert(routes_without_id(lanes_ms(old(lanes)@.subrange(0, 0)), id@) =~= Multiset::<
            RouteModel,
        >::empty());
        assert(routes_with_id(lanes_ms(old(lanes)@.subrange(0, 0)), id@) =~= Multiset::<
            RouteModel,
        >::empty());
    }
    while i < lanes.len()
        invariant
            0 <= i <= lanes@.len(),
            lanes@.len() == old(lanes)@.len(),
            forall|j: int| i <= j < lanes@.len() ==> (#[trigger] lanes@[j]) == old(lanes)@[j],
            forall|j: int|
                0 <= j < i ==> (#[trigger] lanes@[j]).0@ == old(lanes)@[j].0@
                    && lanes@[j].1.store_ms() == routes_without_id(
                    old(lanes)@[j].1.store_ms(),
                    id@,
                ) && lanes@[j].1.wf(),
            lanes_ms(lanes@.subrange(0, i as int)) =~= routes_without_id(
                lanes_ms(old(lanes)@.subrange(0, i as int)),
                id@,
            ),
            any == (routes_with_id(lanes_ms(old(lanes)@.subrange(0, i as int)), id@).len() > 0),
        decreases lanes@.len() - i,
    {
        let ghost pre_new = lanes@.subrange(0, i as int);
        let ghost pre_old = old(lanes)@.subrange(0, i as int);
        let ghost lane_old = old(lanes)@[i as int];
        let (k, mut sub) = lanes.remove(i);
        let removed = sub.remove(id);
        any = any || removed;
        lanes.insert(i, (k, sub));
        proof {
            assert(lanes@.subrange(0, i as int + 1) =~= pre_new.push((k, sub)));
            assert(old(lanes)@.subrange(0, i as int + 1) =~= pre_old.push(lane_old));
            lemma_lanes_ms_push(pre_new, (k, sub));
            lemma_lanes_ms_push(pre_old, lane_old);
            lemma_filter_add(
                lanes_ms(pre_old),
                lane_old.1.store_ms(),
                |m: RouteModel| m.id != id@,
            );
            lemma_filter_add(
                lanes_ms(pre_old),
                lane_old.1.store_ms(),
                |m: RouteModel| m.id == id@,
            );
        }
        i += 1;
    }
    proof {
        assert(lanes@.subrange(0, lanes@.len() as int) =~= lanes@);
        assert(old(lanes)@.subrange(0, old(lanes)@.len() as int) =~= old(lanes)@);
    }
    any
}

impl Default for HostMatcher {
    /// The empty value, as HostMatcher::new builds it.
    fn default() -> (r: Self)
        ensures
            r.wf() && r.routes_ms() =~= Multiset::<RouteModel>::empty(),
    {
        HostMatcher::new()
    }
}

} // verus!

//! The header layer: routes grouped by their full header-condition
//! conjunction, evaluated once per group against the request.

use vstd::prelude::*;
use vstd::multiset::Multiset;
use vstd::string::StringExecFns;
use vstd::string::StrSliceExecFns;
use crate::rule::{Route, RouteModel, HeaderCondition, HeaderConditionModel, ValueCondition,
    ValueConditionModel, clone_conditions, condition_list_eq};
use crate::request::{Request, RequestModel};
use crate::path_matcher::PathAndQueryMatcher;
use crate::route_matcher::append_routes;
use crate::matching::{routes_of, routes_without_id, routes_with_id, RouteStore, lanes_ms,
    lemma_lanes_ms_push, lemma_lanes_ms_remove, lemma_routes_of_empty,
    filter_headers_path, path_ok, headers_ok, cond_ok, lemma_filter_add, lemma_filter_subset,
    lemma_filter_none};

verus! {

broadcast use vstd::multiset::group_multiset_axioms, vstd::multiset::group_multiset_properties, vstd::seq_lib::group_to_multiset_ensures;

impl ValueCondition {
    /// Evaluates this condition against the request for the given lowercased
    /// header name.
    pub fn match_value(&self, request: &Request, lowered_name: &[u8]) -> (r: bool)
        ensures
            r == cond_ok(
                HeaderConditionModel { header_name: lowered_name@, condition: self.model() },
                request.model(),
            ),
    {
        match self {
            ValueCondition::NotExist => !request.header_exists_lowered(lowered_name),
            ValueCondition::Static(s) => request.header_value_is(lowered_name, s.as_slice()),
            ValueCondition::Regex(p) => request.header_value_found(lowered_name, p.as_slice()),
        }
    }
}

/// What a condition reads as, in words.
pub open spec fn format_model(c: ValueConditionModel) -> Seq<char> {
    match c {
        ValueConditionModel::NotExist => "Not existing header"@,
        ValueConditionModel::Static(s) => "Match value "@ + vstd::utf8::decode_utf8(s),
        ValueConditionModel::Regex(r) => "Match regex "@ + vstd::utf8::decode_utf8(r),
    }
}

impl ValueCondition {
    /// Renders the condition for a trace description.
    pub fn format(&self) -> (r: String)
        ensures
            (match self.model() {
                ValueConditionModel::NotExist => true,
                ValueConditionModel::Static(s) => vstd::utf8::valid_utf8(s),
                ValueConditionModel::Regex(p) => vstd::utf8::valid_utf8(p),
            }) ==> r@ == format_model(self.model()),
    {
        match self {
            ValueCondition::NotExist => "Not existing header".to_owned(),
            ValueCondition::Static(s) => {
                let mut out = "Match value ".to_owned();
                let tail = crate::bytes_util::bytes_to_string(s.as_slice());
                out.append(tail.as_str());
                out
            },
            ValueCondition::Regex(p) => {
                let mut out = "Match regex ".to_owned();
                let tail = crate::bytes_util::bytes_to_string(p.as_slice());
                out.append(tail.as_str());
                out
            },
        }
    }
}

/// Matches on the request's headers: routes without conditions pass through
/// the any lane; the others sit in one lane per condition conjunction.
pub struct HeaderMatcher {
    any_header: PathAndQueryMatcher,
    condition_groups: Vec<(Vec<HeaderCondition>, PathAndQueryMatcher)>,
}

impl RouteStore for HeaderMatcher {
    open spec fn store_ms(self) -> Multiset<RouteModel> {
        self.routes_ms()
    }
}

/// The model of a condition list.
pub open spec fn conds_model(cs: Seq<HeaderCondition>) -> Seq<HeaderConditionModel> {
    cs.map_values(|c: HeaderCondition| c.model())
}

/// Whether every condition of the list holds of the request.
pub open spec fn conds_hold(cs: Seq<HeaderConditionModel>, req: RequestModel) -> bool {
    forall|i: int| 0 <= i < cs.len() ==> cond_ok(#[trigger] cs[i], req)
}

/// Finds an already-evaluated verdict for a condition equal to `c`.
fn memo_lookup(memo: &Vec<(HeaderCondition, bool)>, c: &HeaderCondition) -> (r: Option<bool>)
    ensures
        r is Some ==> exists|i: int|
            0 <= i < memo@.len() && (#[trigger] memo@[i]).0.model() == c.model() && memo@[i].1
                == r->Some_0,
{
    let mut i: usize = 0;
    while i < memo.len()
        invariant
            0 <= i <= memo@.len(),
        decreases memo@.len() - i,
    {
        if crate::rule::condition_eq(&memo[i].0, c) {
            return Option::Some(memo[i].1);
        }
        i += 1;
    }
    Option::None
}

proof fn lemma_groups_budget_push(
    gs: Seq<(Vec<HeaderCondition>, PathAndQueryMatcher)>,
    g: (Vec<HeaderCondition>, PathAndQueryMatcher),
    limit: u64,
    level: u64,
)
    ensures
        HeaderMatcher::groups_budget_after(gs.push(g), limit, level) == g.1.budget_after(
            HeaderMatcher::groups_budget_after(gs, limit, level),
            level,
        ),
    decreases gs.len(),
{
    if gs.len() == 0 {
        assert(gs.push(g)[0] == g);
        assert(gs.push(g).subrange(1, 1) =~= Seq::<
            (Vec<HeaderCondition>, PathAndQueryMatcher),
        >::empty());
        assert(HeaderMatcher::groups_budget_after(gs, limit, level) == limit);
        assert(HeaderMatcher::groups_budget_after(gs.push(g), limit, level)
            == HeaderMatcher::groups_budget_after(
            gs.push(g).subrange(1, 1),
            g.1.budget_after(limit, level),
            level,
        ));
        assert(HeaderMatcher::groups_budget_after(
            Seq::<(Vec<HeaderCondition>, PathAndQueryMatcher)>::empty(),
            g.1.budget_after(limit, level),
            level,
        ) == g.1.budget_after(limit, level));
    } else {
        let rest = gs.subrange(1, gs.len() as int);
        assert(gs.push(g).subrange(1, gs.push(g).len() as int) =~= rest.push(g));
        assert(gs.push(g)[0] == gs[0]);
        lemma_groups_budget_push(rest, g, gs[0].1.budget_after(limit, level), level);
        assert(HeaderMatcher::groups_budget_after(gs, limit, level)
            == HeaderMatcher::groups_budget_after(
            rest,
            gs[0].1.budget_after(limit, level),
            level,
        ));
        assert(HeaderMatcher::groups_budget_after(gs.push(g), limit, level)
            == HeaderMatcher::groups_budget_after(
            rest.push(g),
            gs[0].1.budget_after(limit, level),
            level,
        ));
    }
}

proof fn lemma_conds_hold_push(cs: Seq<HeaderConditionModel>, c: HeaderConditionModel, req: RequestModel)
    ensures
        conds_hold(cs.push(c), req) == (conds_hold(cs, req) && cond_ok(c, req)),
{
    if conds_hold(cs, req) && cond_ok(c, req) {
        assert forall|x: int| 0 <= x < cs.push(c).len() implies cond_ok(
            #[trigger] cs.push(c)[x],
            req,
        ) by {
            if x < cs.len() {
                assert(cs.push(c)[x] == cs[x]);
            } else {
                assert(cs.push(c)[x] == c);
            }
        }
    }
    if conds_hold(cs.push(c), req) {
        assert forall|x: int| 0 <= x < cs.len() implies cond_ok(#[trigger] cs[x], req) by {
            assert(cs.push(c)[x] == cs[x]);
            assert(cond_ok(cs.push(c)[x], req));
        }
        assert(cs.push(c)[cs.len() as int] == c);
        assert(cond_ok(c, req));
    }
}

impl HeaderMatcher {
    /// The routes this layer holds.
    pub closed spec fn routes_ms(self) -> Multiset<RouteModel> {
        self.any_header.routes_ms().add(lanes_ms(self.condition_groups@))
    }

    /// Condition lanes agree with their keys, the any lane holds only
    /// condition-free routes, and the layers below are sound.
    pub closed spec fn wf(self) -> bool {
        &&& self.any_header.wf()
        &&& (forall|m: RouteModel|
            #[trigger] self.any_header.store_ms().contains(m) ==> m.headers.len() == 0)
        &&& (forall|i: int| 0 <= i < self.condition_groups@.len() ==> (#[trigger] self.condition_groups@[i].1).wf())
        &&& (forall|i: int, m: RouteModel|
            0 <= i < self.condition_groups@.len() && (
            #[trigger] self.condition_groups@[i].1.store_ms().contains(m)) ==> m.headers
                == conds_model(self.condition_groups@[i].0@) && m.headers.len() > 0)
    }

    /// An empty layer.
    pub fn new() -> (r: HeaderMatcher)
        ensures
            r.wf(),
            r.routes_ms() =~= Multiset::<RouteModel>::empty(),
    {
        let r = HeaderMatcher {
            any_header: PathAndQueryMatcher::new(),
            condition_groups: Vec::new(),
        };
        proof {
            assert(r.condition_groups@ =~= Seq::<(Vec<HeaderCondition>, PathAndQueryMatcher)>::empty());
        }
        r
    }

    /// The sub-matcher a fresh group starts from.
    pub fn create_sub_matcher() -> (r: PathAndQueryMatcher)
        ensures
            r.wf(),
            r.routes_ms() =~= Multiset::<RouteModel>::empty(),
    {
        PathAndQueryMatcher::new()
    }

    /// Stores a route under its condition conjunction.
    #[verifier::loop_isolation(false)]
    pub fn insert(&mut self, route: Route)
        requires
            old(self).wf(),
        ensures
            final(self).wf(),
            final(self).routes_ms() =~= old(self).routes_ms().insert(route.model()),
    {
        let ghost rm = route.model();
        if route.headers.len() == 0 {
            self.any_header.insert(route);
            proof {
                assert(rm.headers.len() == 0);
                assert forall|m: RouteModel| #[trigger]
                    self.any_header.store_ms().contains(m) implies m.headers.len() == 0 by {
                    if m != rm {
                        assert(old(self).any_header.store_ms().contains(m));
                    }
                }
            }
            return ;
        }
        let key = clone_conditions(&route.headers);
        proof {
            assert(conds_model(key@) =~= rm.headers);
        }
        let mut i: usize = 0;
        while i < self.condition_groups.len()
            invariant
                *self == *old(self),
                0 <= i <= self.condition_groups@.len(),
            decreases self.condition_groups@.len() - i,
        {
            if condition_list_eq(&self.condition_groups[i].0, &key) {
                let ghost pre = self.condition_groups@;
                let (k, mut sub) = self.condition_groups.remove(i);
                let ghost sub0 = sub;
                sub.insert(route);
                proof {
                    lemma_lanes_ms_remove(pre, i as int);
                }
                self.condition_groups.push((k, sub));
                proof {
                    assert(self.condition_groups@ == pre.remove(i as int).push((k, sub)));
                    lemma_lanes_ms_push(pre.remove(i as int), (k, sub));
                    assert(lanes_ms(self.condition_groups@) =~= lanes_ms(pre).insert(rm));
                    assert forall|j: int, m: RouteModel|
                        0 <= j < self.condition_groups@.len() && (
                        #[trigger] self.condition_groups@[j].1.store_ms().contains(
                            m,
                        )) implies m.headers == conds_model(self.condition_groups@[j].0@)
                        && m.headers.len() > 0 by {
                        if j < self.condition_groups@.len() - 1 {
                            let o = if j < i { j } else { j + 1 };
                            assert(self.condition_groups@[j] == pre[o]);
                        } else {
                            assert(self.condition_groups@[j] == (k, sub));
                            if m != rm {
                                assert(sub0.store_ms().contains(m));
                                assert(pre[i as int].1.store_ms().contains(m));
                            } else {
                                assert(conds_model(k@) =~= conds_model(key@));
                            }
                        }
                    }
                    assert forall|j: int|
                        0 <= j < self.condition_groups@.len() implies (
                    #[trigger] self.condition_groups@[j].1).wf() by {
                        if j < self.condition_groups@.len() - 1 {
                            let o = if j < i { j } else { j + 1 };
                            assert(self.condition_groups@[j] == pre[o]);
                        }
                    }
                }
                return ;
            }
            i += 1;
        }
        let mut sub = PathAndQueryMatcher::new();
        sub.insert(route);
        let ghost pre = self.condition_groups@;
        self.condition_groups.push((key, sub));
        proof {
            lemma_lanes_ms_push(pre, self.condition_groups@.last());
            assert(sub.store_ms() =~= Multiset::<RouteModel>::empty().insert(rm));
            assert(lanes_ms(self.condition_groups@) =~= lanes_ms(pre).insert(rm));
            assert forall|j: int, m: RouteModel|
                0 <= j < self.condition_groups@.len() && (
                #[trigger] self.condition_groups@[j].1.store_ms().contains(
                    m,
                )) implies m.headers == conds_model(self.condition_groups@[j].0@)
                && m.headers.len() > 0 by {
                if j < self.condition_groups@.len() - 1 {
                    assert(self.condition_groups@[j] == pre[j]);
                } else {
                    assert(m == rm);
                }
            }
            assert forall|j: int|
                0 <= j < self.condition_groups@.len() implies (
            #[trigger] self.condition_groups@[j].1).wf() by {
                if j < self.condition_groups@.len() - 1 {
                    assert(self.condition_groups@[j] == pre[j]);
                }
            }
        }
    }

    /// Returns the routes whose conditions all hold and whose path selects
    /// the request.
    #[verifier::loop_isolation(false)]
    pub fn match_request(&self, request: &Request) -> (r: Vec<Route>)
        requires
            self.wf(),
        ensures
            routes_of(r@) =~= filter_headers_path(self.routes_ms(), request.model()),
    {
        let ghost req = request.model();
        let mut out = self.any_header.match_request(request);
        proof {
            assert forall|m: RouteModel| #[trigger]
                self.any_header.store_ms().contains(m) implies (path_ok(m, req) == (headers_ok(
                m,
                req,
            ) && path_ok(m, req))) by {
                assert(m.headers.len() == 0);
            }
            lemma_filter_subset(
                self.any_header.store_ms(),
                |m: RouteModel| path_ok(m, req),
                |m: RouteModel| headers_ok(m, req) && path_ok(m, req),
            );
            assert(routes_of(out@) =~= filter_headers_path(self.any_header.store_ms(), req));
            assert(self.condition_groups@.subrange(0, 0) =~= Seq::<
                (Vec<HeaderCondition>, PathAndQueryMatcher),
            >::empty());
        }
        let ghost any_part = routes_of(out@);
        let mut memo: Vec<(HeaderCondition, bool)> = Vec::new();
        let mut g: usize = 0;
        while g < self.condition_groups.len()
            invariant
                0 <= g <= self.condition_groups@.len(),
                forall|x: int|
                    0 <= x < memo@.len() ==> (#[trigger] memo@[x]).1 == cond_ok(
                        memo@[x].0.model(),
                        req,
                    ),
                routes_of(out@) =~= any_part.add(
                    filter_headers_path(
                        lanes_ms(self.condition_groups@.subrange(0, g as int)),
                        req,
                    ),
                ),
            decreases self.condition_groups@.len() - g,
        {
            let ghost pre = self.condition_groups@.subrange(0, g as int);
            let ghost lane = self.condition_groups@[g as int];
            proof {
                assert(self.condition_groups@.subrange(0, g as int + 1) =~= pre.push(lane));
                lemma_lanes_ms_push(pre, lane);
                lemma_filter_add(
                    lanes_ms(pre),
                    lane.1.store_ms(),
                    |m: RouteModel| headers_ok(m, req) && path_ok(m, req),
                );
            }
            // evaluate the group's conjunction once
            let conds = &self.condition_groups[g].0;
            let mut all_hold = true;
            let mut c: usize = 0;
            while c < conds.len()
                invariant
                    0 <= c <= conds@.len(),
                    conds@ == lane.0@,
                    forall|x: int|
                        0 <= x < memo@.len() ==> (#[trigger] memo@[x]).1 == cond_ok(
                            memo@[x].0.model(),
                            req,
                        ),
                    all_hold == conds_hold(conds_model(lane.0@).subrange(0, c as int), req),
                decreases conds@.len() - c,
            {
                let ghost cpre = conds_model(lane.0@).subrange(0, c as int);
                proof {
                    assert(conds_model(lane.0@).subrange(0, c as int + 1) =~= cpre.push(
                        conds_model(lane.0@)[c as int],
                    ));
                }
                // identical conditions across groups are evaluated at most
                // once per request: the memo keeps each verdict
                let holds = match memo_lookup(&memo, &conds[c]) {
                    Option::Some(b) => {
                        proof {
                            let w = choose|w: int|
                                0 <= w < memo@.len() && (#[trigger] memo@[w]).0.model()
                                    == conds@[c as int].model() && memo@[w].1 == b;
                            assert(memo@[w].1 == cond_ok(memo@[w].0.model(), req));
                        }
                        b
                    },
                    Option::None => {
                        let b = conds[c].condition.match_value(
                            request,
                            conds[c].header_name.as_slice(),
                        );
                        let entry = (conds[c].clone(), b);
                        let ghost mpre = memo@;
                        memo.push(entry);
                        proof {
                            assert forall|x: int| 0 <= x < memo@.len() implies (
                            #[trigger] memo@[x]).1 == cond_ok(memo@[x].0.model(), req) by {
                                if x < memo@.len() - 1 {
                                    assert(memo@[x] == mpre[x]);
                                } else {
                                    assert(memo@[x] == entry);
                                    assert(entry.0.model() == conds@[c as int].model());
                                }
                            }
                        }
                        b
                    },
                };
                proof {
                    assert(conds_model(lane.0@)[c as int] == conds@[c as int].model());
                    assert(holds == cond_ok(conds_model(lane.0@)[c as int], req));
                    lemma_conds_hold_push(cpre, conds_model(lane.0@)[c as int], req);
                }
                all_hold = all_hold && holds;
                c += 1;
            }
            proof {
                assert(conds_model(lane.0@).subrange(0, conds_model(lane.0@).len() as int)
                    =~= conds_model(lane.0@));
            }
            if all_hold {
                proof {
                    assert forall|m: RouteModel| #[trigger]
                        lane.1.store_ms().contains(m) implies (path_ok(m, req) == (headers_ok(
                        m,
                        req,
                    ) && path_ok(m, req))) by {
                        assert(m.headers == conds_model(lane.0@));
                        assert(headers_ok(m, req));
                    }
                    lemma_filter_subset(
                        lane.1.store_ms(),
                        |m: RouteModel| path_ok(m, req),
                        |m: RouteModel| headers_ok(m, req) && path_ok(m, req),
                    );
                }
                let more = self.condition_groups[g].1.match_request(request);
                append_routes(&mut out, more);
            } else {
                proof {
                    let bad = choose|x: int|
                        0 <= x < conds_model(lane.0@).len() && !cond_ok(
                            #[trigger] conds_model(lane.0@)[x],
                            req,
                        );
                    assert forall|m: RouteModel| #[trigger]
                        lane.1.store_ms().contains(m) implies !(headers_ok(m, req) && path_ok(
                        m,
                        req,
                    )) by {
                        assert(m.headers == conds_model(lane.0@));
                        assert(!cond_ok(m.headers[bad], req));
                    }
                    lemma_filter_none(
                        lane.1.store_ms(),
                        |m: RouteModel| headers_ok(m, req) && path_ok(m, req),
                    );
                }
            }
            g += 1;
        }
        proof {
            assert(self.condition_groups@.subrange(0, self.condition_groups@.len() as int)
                =~= self.condition_groups@);
            lemma_filter_add(
                self.any_header.store_ms(),
                lanes_ms(self.condition_groups@),
                |m: RouteModel| headers_ok(m, req) && path_ok(m, req),
            );
        }
        out
    }

    /// The layer's trace: the any lane's explanation, one node per newly
    /// evaluated condition with its outcome, and one result node per
    /// condition group holding its verdict and, when it matched, the
    /// explanation below it.
    #[verifier::loop_isolation(false)]
    pub fn trace(&self, request: &Request) -> (r: Vec<crate::trace::Trace>)
        requires
            self.wf(),
        ensures
            crate::trace::Trace::collected_children(r@) =~= filter_headers_path(
                self.routes_ms(),
                request.model(),
            ),
    {
        let ghost req = request.model();
        let any_traces = self.any_header.trace(request);
        let empty_routes: Vec<Route> = Vec::new();
        let any_node = crate::trace::Trace::new(
            crate::trace::label_bytes("Any header"),
            true,
            true,
            0,
            any_traces,
            empty_routes,
        );
        let mut out: Vec<crate::trace::Trace> = Vec::new();
        proof {
            crate::matching::lemma_routes_of_empty();
            assert(out@ =~= Seq::<crate::trace::Trace>::empty());
            assert forall|m: RouteModel| #[trigger]
                self.any_header.store_ms().contains(m) implies (path_ok(m, req) == (headers_ok(
                m,
                req,
            ) && path_ok(m, req))) by {
                assert(m.headers.len() == 0);
            }
            lemma_filter_subset(
                self.any_header.store_ms(),
                |m: RouteModel| path_ok(m, req),
                |m: RouteModel| headers_ok(m, req) && path_ok(m, req),
            );
            assert(any_node.collected() =~= filter_headers_path(
                self.any_header.store_ms(),
                req,
            ));
        }
        out.push(any_node);
        proof {
            crate::trace::lemma_collected_children_push(
                Seq::<crate::trace::Trace>::empty(),
                any_node,
            );
            assert(out@ =~= Seq::<crate::trace::Trace>::empty().push(any_node));
            assert(self.condition_groups@.subrange(0, 0) =~= Seq::<
                (Vec<HeaderCondition>, PathAndQueryMatcher),
            >::empty());
        }
        let ghost any_part = crate::trace::Trace::collected_children(out@);
        let mut memo: Vec<(HeaderCondition, bool)> = Vec::new();
        let mut g: usize = 0;
        while g < self.condition_groups.len()
            invariant
                0 <= g <= self.condition_groups@.len(),
                forall|x: int|
                    0 <= x < memo@.len() ==> (#[trigger] memo@[x]).1 == cond_ok(
                        memo@[x].0.model(),
                        req,
                    ),
                crate::trace::Trace::collected_children(out@) =~= any_part.add(
                    filter_headers_path(
                        lanes_ms(self.condition_groups@.subrange(0, g as int)),
                        req,
                    ),
                ),
            decreases self.condition_groups@.len() - g,
        {
            let ghost pre = self.condition_groups@.subrange(0, g as int);
            let ghost lane = self.condition_groups@[g as int];
            proof {
                assert(self.condition_groups@.subrange(0, g as int + 1) =~= pre.push(lane));
                lemma_lanes_ms_push(pre, lane);
                lemma_filter_add(
                    lanes_ms(pre),
                    lane.1.store_ms(),
                    |m: RouteModel| headers_ok(m, req) && path_ok(m, req),
                );
            }
            let ghost group_start = crate::trace::Trace::collected_children(out@);
            let conds = &self.condition_groups[g].0;
            let mut all_hold = true;
            let mut c: usize = 0;
            while c < conds.len()
                invariant
                    0 <= c <= conds@.len(),
                    conds@ == lane.0@,
                    forall|x: int|
                        0 <= x < memo@.len() ==> (#[trigger] memo@[x]).1 == cond_ok(
                            memo@[x].0.model(),
                            req,
                        ),
                    crate::trace::Trace::collected_children(out@) =~= group_start,
                    all_hold == conds_hold(conds_model(lane.0@).subrange(0, c as int), req),
                decreases conds@.len() - c,
            {
                let ghost cpre = conds_model(lane.0@).subrange(0, c as int);
                proof {
                    assert(conds_model(lane.0@).subrange(0, c as int + 1) =~= cpre.push(
                        conds_model(lane.0@)[c as int],
                    ));
                }
                // identical conditions across groups are evaluated once; a
                // fresh evaluation also reports its outcome as a node
                let holds = match memo_lookup(&memo, &conds[c]) {
                    Option::Some(b) => {
                        proof {
                            let w = choose|w: int|
                                0 <= w < memo@.len() && (#[trigger] memo@[w]).0.model()
                                    == conds@[c as int].model() && memo@[w].1 == b;
                            assert(memo@[w].1 == cond_ok(memo@[w].0.model(), req));
                        }
                        b
                    },
                    Option::None => {
                        let b = conds[c].condition.match_value(
                            request,
                            conds[c].header_name.as_slice(),
                        );
                        let entry = (conds[c].clone(), b);
                        let ghost mpre = memo@;
                        memo.push(entry);
                        proof {
                            assert forall|x: int| 0 <= x < memo@.len() implies (
                            #[trigger] memo@[x]).1 == cond_ok(memo@[x].0.model(), req) by {
                                if x < memo@.len() - 1 {
                                    assert(memo@[x] == mpre[x]);
                                } else {
                                    assert(memo@[x] == entry);
                                    assert(entry.0.model() == conds@[c as int].model());
                                }
                            }
                        }
                        let mut description = crate::trace::label_bytes("Header condition on ");
                        crate::canon::append_vec(&mut description, conds[c].header_name.clone());
                        crate::canon::append_vec(&mut description, crate::trace::label_bytes(": "));
                        let formatted = conds[c].condition.format();
                        crate::canon::append_vec(
                            &mut description,
                            formatted.as_str().as_bytes_vec(),
                        );
                        let no_routes: Vec<Route> = Vec::new();
                        let cond_node = crate::trace::Trace::leaf(description, b, true, 0, no_routes);
                        proof {
                            crate::matching::lemma_routes_of_empty();
                            assert(cond_node.collected() =~= Multiset::<RouteModel>::empty());
                        }
                        let ghost opre2 = out@;
                        out.push(cond_node);
                        proof {
                            crate::trace::lemma_collected_children_push(opre2, cond_node);
                            assert(out@ =~= opre2.push(cond_node));
                            assert(group_start.add(Multiset::<RouteModel>::empty())
                                =~= group_start);
                        }
                        b
                    },
                };
                proof {
                    assert(conds_model(lane.0@)[c as int] == conds@[c as int].model());
                    assert(holds == cond_ok(conds_model(lane.0@)[c as int], req));
                    lemma_conds_hold_push(cpre, conds_model(lane.0@)[c as int], req);
                }
                all_hold = all_hold && holds;
                c += 1;
            }
            proof {
                assert(conds_model(lane.0@).subrange(0, conds_model(lane.0@).len() as int)
                    =~= conds_model(lane.0@));
            }
            let node = if all_hold {
                proof {
                    assert forall|m: RouteModel| #[trigger]
                        lane.1.store_ms().contains(m) implies (path_ok(m, req) == (headers_ok(
                        m,
                        req,
                    ) && path_ok(m, req))) by {
                        assert(m.headers == conds_model(lane.0@));
                        assert(headers_ok(m, req));
                    }
                    lemma_filter_subset(
                        lane.1.store_ms(),
                        |m: RouteModel| path_ok(m, req),
                        |m: RouteModel| headers_ok(m, req) && path_ok(m, req),
                    );
                }
                let sub_traces = self.condition_groups[g].1.trace(request);
                let empty_routes2: Vec<Route> = Vec::new();
                let n = crate::trace::Trace::new(
                    crate::trace::label_bytes("Header condition group result"),
                    true,
                    true,
                    0,
                    sub_traces,
                    empty_routes2,
                );
                proof {
                    crate::matching::lemma_routes_of_empty();
                    assert(n.collected() =~= filter_headers_path(lane.1.store_ms(), req));
                }
                n
            } else {
                proof {
                    let bad = choose|x: int|
                        0 <= x < conds_model(lane.0@).len() && !cond_ok(
                            #[trigger] conds_model(lane.0@)[x],
                            req,
                        );
                    assert forall|m: RouteModel| #[trigger]
                        lane.1.store_ms().contains(m) implies !(headers_ok(m, req) && path_ok(
                        m,
                        req,
                    )) by {
                        assert(m.headers == conds_model(lane.0@));
                        assert(!cond_ok(m.headers[bad], req));
                    }
                    lemma_filter_none(
                        lane.1.store_ms(),
                        |m: RouteModel| headers_ok(m, req) && path_ok(m, req),
                    );
                }
                let empty_routes2: Vec<Route> = Vec::new();
                let n = crate::trace::Trace::leaf(
                    crate::trace::label_bytes("Header condition group result"),
                    false,
                    true,
                    0,
                    empty_routes2,
                );
                proof {
                    crate::matching::lemma_routes_of_empty();
                    assert(n.collected() =~= filter_headers_path(lane.1.store_ms(), req));
                }
                n
            };
            let ghost opre = out@;
            out.push(node);
            proof {
                crate::trace::lemma_collected_children_push(opre, node);
                assert(out@ =~= opre.push(node));
                assert(crate::trace::Trace::collected_children(opre) =~= group_start);
            }
            g += 1;
        }
        proof {
            assert(self.condition_groups@.subrange(0, self.condition_groups@.len() as int)
                =~= self.condition_groups@);
            lemma_filter_add(
                self.any_header.store_ms(),
                lanes_ms(self.condition_groups@),
                |m: RouteModel| headers_ok(m, req) && path_ok(m, req),
            );
        }
        out
    }

    /// Removes every route carrying `id`; true when something was removed.
    #[verifier::loop_isolation(false)]
    pub fn remove(&mut self, id: &[u8]) -> (r: bool)
        requires
            old(self).wf(),
        ensures
            final(self).wf(),
            final(self).routes_ms() =~= routes_without_id(old(self).routes_ms(), id@),
            r == (routes_with_id(old(self).routes_ms(), id@).len() > 0),
    {
        let r1 = self.any_header.remove(id);
        let ghost ah = self.any_header;
        let mut any = r1;
        let mut i: usize = 0;
        proof {
            assert(old(self).condition_groups@.subrange(0, 0) =~= Seq::<
                (Vec<HeaderCondition>, PathAndQueryMatcher),
            >::empty());
            assert(routes_without_id(
                lanes_ms(old(self).condition_groups@.subrange(0, 0)),
                id@,
            ) =~= Multiset::<RouteModel>::empty());
            assert(routes_with_id(
                lanes_ms(old(self).condition_groups@.subrange(0, 0)),
                id@,
            ) =~= Multiset::<RouteModel>::empty());
        }
        while i < self.condition_groups.len()
            invariant
                0 <= i <= self.condition_groups@.len(),
                self.condition_groups@.len() == old(self).condition_groups@.len(),
                self.any_header == ah,
                forall|j: int|
                    i <= j < self.condition_groups@.len() ==> (#[trigger] self.condition_groups@[j])
                        == old(self).condition_groups@[j],
                forall|j: int|
                    0 <= j < i ==> (#[trigger] self.condition_groups@[j]).0@ == old(
                        self,
                    ).condition_groups@[j].0@ && self.condition_groups@[j].1.store_ms()
                        == routes_without_id(old(self).condition_groups@[j].1.store_ms(), id@)
                        && self.condition_groups@[j].1.wf(),
                lanes_ms(self.condition_groups@.subrange(0, i as int)) =~= routes_without_id(
                    lanes_ms(old(self).condition_groups@.subrange(0, i as int)),
                    id@,
                ),
                any == (r1 || routes_with_id(
                    lanes_ms(old(self).condition_groups@.subrange(0, i as int)),
                    id@,
                ).len() > 0),
            decreases self.condition_groups@.len() - i,
        {
            let ghost pre_new = self.condition_groups@.subrange(0, i as int);
            let ghost pre_old = old(self).condition_groups@.subrange(0, i as int);
            let ghost lane_old = old(self).condition_groups@[i as int];
            let (k, mut sub) = self.condition_groups.remove(i);
            let removed = sub.remove(id);
            any = any || removed;
            self.condition_groups.insert(i, (k, sub));
            proof {
                assert(self.condition_groups@.subrange(0, i as int + 1) =~= pre_new.push(
                    (k, sub),
                ));
                assert(old(self).condition_groups@.subrange(0, i as int + 1) =~= pre_old.push(
                    lane_old,
                ));
                lemma_lanes_ms_push(pre_new, (k, sub));
                lemma_lanes_ms_push(pre_old, lane_old);
                lemma_filter_add(
                    lanes_ms(pre_old),
                    lane_old.1.store_ms(),
                    |m: RouteModel| m.id != id@,
                );
                lemma_filter_add(
                    lanes_ms(pre_old),
                    lane_old.1.store_ms(),
                    |m: RouteModel| m.id == id@,
                );
            }
            i += 1;
        }
        proof {
            assert(self.condition_groups@.subrange(0, self.condition_groups@.len() as int)
                =~= self.condition_groups@);
            assert(old(self).condition_groups@.subrange(
                0,
                old(self).condition_groups@.len() as int,
            ) =~= old(self).condition_groups@);
            lemma_filter_add(
                old(self).any_header.store_ms(),
                lanes_ms(old(self).condition_groups@),
                |m: RouteModel| m.id != id@,
            );
            lemma_filter_add(
                old(self).any_header.store_ms(),
                lanes_ms(old(self).condition_groups@),
                |m: RouteModel| m.id == id@,
            );
            assert forall|m: RouteModel|
                #[trigger] self.any_header.store_ms().contains(m) implies m.headers.len()
                == 0 by {
                assert(old(self).any_header.store_ms().contains(m));
            }
            assert forall|j: int, m: RouteModel|
                0 <= j < self.condition_groups@.len() && (
                #[trigger] self.condition_groups@[j].1.store_ms().contains(
                    m,
                )) implies m.headers == conds_model(self.condition_groups@[j].0@)
                && m.headers.len() > 0 by {
                assert(old(self).condition_groups@[j].1.store_ms().contains(m));
            }
        }
        any
    }

    /// The budget a cache pass over this layer leaves: the any lane first,
    /// then each condition group in order.
    pub closed spec fn budget_after(self, limit: u64, level: u64) -> u64 {
        Self::groups_budget_after(
            self.condition_groups@,
            self.any_header.budget_after(limit, level),
            level,
        )
    }

    pub open spec fn groups_budget_after(
        gs: Seq<(Vec<HeaderCondition>, PathAndQueryMatcher)>,
        limit: u64,
        level: u64,
    ) -> u64
        decreases gs.len(),
    {
        if gs.len() == 0 {
            limit
        } else {
            Self::groups_budget_after(
                gs.subrange(1, gs.len() as int),
                gs[0].1.budget_after(limit, level),
                level,
            )
        }
    }

    /// Spends the compilation budget across the any lane and the groups and
    /// returns what is left.
    #[verifier::loop_isolation(false)]
    pub fn cache(&mut self, limit: u64, level: u64) -> (r: u64)
        requires
            old(self).wf(),
        ensures
            final(self).wf(),
            final(self).routes_ms() =~= old(self).routes_ms(),
            forall|l: u64, lv: u64|
                #[trigger] final(self).budget_after(l, lv) == old(self).budget_after(l, lv),
            r == old(self).budget_after(limit, level),
    {
        let mut budget = self.any_header.cache(limit, level);
        let ghost any_after = self.any_header.budget_after(limit, level);
        let mut i: usize = 0;
        proof {
            assert(old(self).condition_groups@.subrange(0, 0) =~= Seq::<
                (Vec<HeaderCondition>, PathAndQueryMatcher),
            >::empty());
        }
        while i < self.condition_groups.len()
            invariant
                self.any_header == old(self).any_header,
                self.condition_groups@.len() == old(self).condition_groups@.len(),
                forall|j: int|
                    0 <= j < self.condition_groups@.len() ==> (
                    #[trigger] self.condition_groups@[j]) == old(self).condition_groups@[j],
                budget == Self::groups_budget_after(
                    old(self).condition_groups@.subrange(0, i as int),
                    old(self).any_header.budget_after(limit, level),
                    level,
                ),
                0 <= i <= self.condition_groups@.len(),
            decreases self.condition_groups@.len() - i,
        {
            let ghost pre = old(self).condition_groups@.subrange(0, i as int);
            proof {
                assert(old(self).condition_groups@.subrange(0, i as int + 1) =~= pre.push(
                    old(self).condition_groups@[i as int],
                ));
                lemma_groups_budget_push(
                    pre,
                    old(self).condition_groups@[i as int],
                    old(self).any_header.budget_after(limit, level),
                    level,
                );
            }
            let (k, mut sub) = self.condition_groups.remove(i);
            let ghost sub0 = sub;
            budget = sub.cache(budget, level);
            proof {
                assert(sub == sub0);
                assert((k, sub) == old(self).condition_groups@[i as int]);
            }
            self.condition_groups.insert(i, (k, sub));
            proof {
                assert forall|j: int|
                    0 <= j < self.condition_groups@.len() implies (
                #[trigger] self.condition_groups@[j]) == old(self).condition_groups@[j] by {}
            }
            i += 1;
        }
        proof {
            assert(self.condition_groups@ =~= old(self).condition_groups@);
            assert(old(self).condition_groups@.subrange(
                0,
                old(self).condition_groups@.len() as int,
            ) =~= old(self).condition_groups@);
        }
        budget
    }
}

impl Default for HeaderMatcher {
    /// The empty value, as HeaderMatcher::new builds it.
    fn default() -> (r: Self)
        ensures
            r.wf() && r.routes_ms() =~= Multiset::<RouteModel>::empty(),
    {
        HeaderMatcher::new()
    }
}

} // verus!

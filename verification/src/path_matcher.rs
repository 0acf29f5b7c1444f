//! The path-and-query layer: a static map over canonical paths, and a
//! regex radix tree accelerating the dynamic patterns.

use vstd::prelude::*;
use vstd::multiset::Multiset;
use vstd::string::StringSliceAdditionalSpecFns;
use crate::bytes_util::bytes_eq;
use crate::rule::{Route, RouteModel, PatternModel, StaticOrDynamic};
use crate::request::Request;
use crate::route_matcher::{RouteMatcher, append_routes};
use crate::radix_tree::{RegexRadixTree, RegexItem, ItemModel, item_matches, items_of,
    without_id};
use crate::regex_support::pattern_matches;
use crate::canon::canonical_path;
use crate::matching::{routes_of, routes_without_id, routes_with_id, RouteStore, lanes_ms,
    lemma_lanes_ms_push, lemma_lanes_ms_remove, lemma_lanes_ms_contains, lemma_routes_of_empty,
    filter_path, path_ok, lemma_filter_add, lemma_filter_all, lemma_filter_none};

verus! {

broadcast use vstd::multiset::group_multiset_axioms, vstd::multiset::group_multiset_properties, vstd::seq_lib::group_to_multiset_ensures;

/// Matches on the canonical path-and-query key: exact entries in lanes keyed
/// by the canonical path, dynamic entries in lanes keyed by their pattern,
/// with the radix tree pruning which patterns are evaluated.
pub struct PathAndQueryMatcher {
    static_lanes: Vec<(Vec<u8>, RouteMatcher)>,
    dynamic_lanes: Vec<(Vec<u8>, RouteMatcher)>,
    regex_tree: RegexRadixTree,
}

impl RouteStore for PathAndQueryMatcher {
    open spec fn store_ms(self) -> Multiset<RouteModel> {
        self.routes_ms()
    }
}

impl PathAndQueryMatcher {
    /// The routes this layer holds.
    pub closed spec fn routes_ms(self) -> Multiset<RouteModel> {
        lanes_ms(self.static_lanes@).add(lanes_ms(self.dynamic_lanes@))
    }

    /// Lanes agree with their keys, and the tree indexes every dynamic
    /// route's pattern.
    pub closed spec fn wf(self) -> bool {
        &&& self.regex_tree.wf()
        &&& (forall|i: int, m: RouteModel|
            0 <= i < self.static_lanes@.len() && (#[trigger] self.static_lanes@[i].1.store_ms()
                .contains(m)) ==> m.path == PatternModel::Static(self.static_lanes@[i].0@))
        &&& (forall|i: int, m: RouteModel|
            0 <= i < self.dynamic_lanes@.len() && (#[trigger] self.dynamic_lanes@[i].1.store_ms()
                .contains(m)) ==> m.path == PatternModel::Dynamic(self.dynamic_lanes@[i].0@)
                && self.regex_tree.items().contains(
                ItemModel { id: m.id, regex: self.dynamic_lanes@[i].0@ },
            ))
    }

    /// An empty layer.
    pub fn new() -> (r: PathAndQueryMatcher)
        ensures
            r.wf(),
            r.routes_ms() =~= Multiset::<RouteModel>::empty(),
    {
        let r = PathAndQueryMatcher {
            static_lanes: Vec::new(),
            dynamic_lanes: Vec::new(),
            regex_tree: RegexRadixTree::new(),
        };
        proof {
            assert(r.static_lanes@ =~= Seq::<(Vec<u8>, RouteMatcher)>::empty());
            assert(r.dynamic_lanes@ =~= Seq::<(Vec<u8>, RouteMatcher)>::empty());
        }
        r
    }

    /// The canonical matching key of a request: its path with the sorted,
    /// re-encoded query.
    pub fn request_to_path(request: &Request) -> (r: Vec<u8>)
        ensures
            r@ == canonical_path(request.model().path_and_query),
    {
        request.canonical_key()
    }

    /// The canonical serialisation of a raw query string, or None when
    /// nothing remains of it.
    pub fn build_sorted_query(query: &str) -> (r: Option<Vec<u8>>)
        ensures
            (r is Some) == (crate::canon::sorted_query(query.spec_bytes()).len() > 0),
            r is Some ==> (r->Some_0)@ == crate::canon::sorted_query(query.spec_bytes()),
    {
        crate::canon::build_sorted_query_bytes(query.as_bytes())
    }

    /// The sub-matcher a fresh lane starts from.
    pub fn create_sub_matcher() -> (r: RouteMatcher)
        ensures
            r.routes_ms() =~= Multiset::<RouteModel>::empty(),
    {
        RouteMatcher::new()
    }

    /// Stores a route under its path pattern.
    #[verifier::loop_isolation(false)]
    pub fn insert(&mut self, route: Route)
        requires
            old(self).wf(),
        ensures
            final(self).wf(),
            final(self).routes_ms() =~= old(self).routes_ms().insert(route.model()),
    {
        let ghost rm = route.model();
        match &route.path_and_query {
            StaticOrDynamic::Static(p) => {
                let key = p.clone();
                proof {
                    assert(rm.path == PatternModel::Static(key@));
                }
                let mut i: usize = 0;
                while i < self.static_lanes.len()
                    invariant
                        *self == *old(self),
                        0 <= i <= self.static_lanes@.len(),
                    decreases self.static_lanes@.len() - i,
                {
                    if bytes_eq(self.static_lanes[i].0.as_slice(), key.as_slice()) {
                        let ghost pre = self.static_lanes@;
                        let (k, mut sub) = self.static_lanes.remove(i);
                        let ghost sub0 = sub;
                        sub.insert(route);
                        proof {
                            lemma_lanes_ms_remove(pre, i as int);
                        }
                        self.static_lanes.push((k, sub));
                        proof {
                            assert(self.static_lanes@ == pre.remove(i as int).push((k, sub)));
                            lemma_lanes_ms_push(pre.remove(i as int), (k, sub));
                            assert(sub.store_ms() =~= sub0.store_ms().insert(rm));
                            assert(lanes_ms(self.static_lanes@) =~= lanes_ms(pre).insert(rm));
                            assert forall|j: int, m: RouteModel|
                                0 <= j < self.static_lanes@.len() && (
                                #[trigger] self.static_lanes@[j].1.store_ms().contains(
                                    m,
                                )) implies m.path == PatternModel::Static(
                                self.static_lanes@[j].0@,
                            ) by {
                                if j < self.static_lanes@.len() - 1 {
                                    let o = if j < i { j } else { j + 1 };
                                    assert(self.static_lanes@[j] == pre[o]);
                                } else {
                                    assert(self.static_lanes@[j] == (k, sub));
                                    if m != rm {
                                        assert(sub0.store_ms().contains(m));
                                        assert(pre[i as int].1.store_ms().contains(m));
                                    } else {
                                        assert(k@ == key@);
                                    }
                                }
                            }
                        }
                        return ;
                    }
                    i += 1;
                }
                let mut sub = RouteMatcher::new();
                sub.insert(route);
                let ghost pre = self.static_lanes@;
                self.static_lanes.push((key, sub));
                proof {
                    lemma_lanes_ms_push(pre, self.static_lanes@.last());
                    assert(sub.store_ms() =~= Multiset::<RouteModel>::empty().insert(rm));
                    assert(lanes_ms(self.static_lanes@) =~= lanes_ms(pre).insert(rm));
                    assert forall|j: int, m: RouteModel|
                        0 <= j < self.static_lanes@.len() && (
                        #[trigger] self.static_lanes@[j].1.store_ms().contains(
                            m,
                        )) implies m.path == PatternModel::Static(self.static_lanes@[j].0@) by {
                        if j < self.static_lanes@.len() - 1 {
                            assert(self.static_lanes@[j] == pre[j]);
                        } else {
                            assert(m == rm);
                        }
                    }
                }
            },
            StaticOrDynamic::Dynamic(d) => {
                let key = d.clone();
                proof {
                    assert(rm.path == PatternModel::Dynamic(key@));
                }
                let item = RegexItem { id: route.id.clone(), regex: key.clone() };
                let ghost im = item.model();
                proof {
                    assert(im == (ItemModel { id: rm.id, regex: key@ }));
                }
                self.regex_tree.insert(item);
                let ghost tree_now = self.regex_tree;
                let mut i: usize = 0;
                while i < self.dynamic_lanes.len()
                    invariant
                        self.static_lanes@ == old(self).static_lanes@,
                        self.dynamic_lanes@ == old(self).dynamic_lanes@,
                        self.regex_tree == tree_now,
                        tree_now.wf(),
                        tree_now.items() =~= old(self).regex_tree.items().insert(im),
                        0 <= i <= self.dynamic_lanes@.len(),
                    decreases self.dynamic_lanes@.len() - i,
                {
                    if bytes_eq(self.dynamic_lanes[i].0.as_slice(), key.as_slice()) {
                        let ghost pre = self.dynamic_lanes@;
                        let (k, mut sub) = self.dynamic_lanes.remove(i);
                        let ghost sub0 = sub;
                        sub.insert(route);
                        proof {
                            lemma_lanes_ms_remove(pre, i as int);
                        }
                        self.dynamic_lanes.push((k, sub));
                        proof {
                            assert(self.dynamic_lanes@ == pre.remove(i as int).push((k, sub)));
                            lemma_lanes_ms_push(pre.remove(i as int), (k, sub));
                            assert(sub.store_ms() =~= sub0.store_ms().insert(rm));
                            assert(lanes_ms(self.dynamic_lanes@) =~= lanes_ms(pre).insert(rm));
                            assert forall|j: int, m: RouteModel|
                                0 <= j < self.dynamic_lanes@.len() && (
                                #[trigger] self.dynamic_lanes@[j].1.store_ms().contains(
                                    m,
                                )) implies m.path == PatternModel::Dynamic(
                                self.dynamic_lanes@[j].0@,
                            ) && self.regex_tree.items().contains(
                                ItemModel { id: m.id, regex: self.dynamic_lanes@[j].0@ },
                            ) by {
                                if j < self.dynamic_lanes@.len() - 1 {
                                    let o = if j < i { j } else { j + 1 };
                                    assert(self.dynamic_lanes@[j] == pre[o]);
                                    if pre[o].1.store_ms().contains(m) {
                                        assert(old(self).regex_tree.items().contains(
                                            ItemModel { id: m.id, regex: pre[o].0@ },
                                        ));
                                    }
                                } else {
                                    assert(self.dynamic_lanes@[j] == (k, sub));
                                    if m != rm {
                                        assert(sub0.store_ms().contains(m));
                                        assert(pre[i as int].1.store_ms().contains(m));
                                        assert(old(self).regex_tree.items().contains(
                                            ItemModel { id: m.id, regex: k@ },
                                        ));
                                    } else {
                                        assert(k@ == key@);
                                    }
                                }
                            }
                        }
                        return ;
                    }
                    i += 1;
                }
                let mut sub = RouteMatcher::new();
                sub.insert(route);
                let ghost pre = self.dynamic_lanes@;
                self.dynamic_lanes.push((key, sub));
                proof {
                    lemma_lanes_ms_push(pre, self.dynamic_lanes@.last());
                    assert(sub.store_ms() =~= Multiset::<RouteModel>::empty().insert(rm));
                    assert(lanes_ms(self.dynamic_lanes@) =~= lanes_ms(pre).insert(rm));
                    assert forall|j: int, m: RouteModel|
                        0 <= j < self.dynamic_lanes@.len() && (
                        #[trigger] self.dynamic_lanes@[j].1.store_ms().contains(
                            m,
                        )) implies m.path == PatternModel::Dynamic(self.dynamic_lanes@[j].0@)
                        && self.regex_tree.items().contains(
                        ItemModel { id: m.id, regex: self.dynamic_lanes@[j].0@ },
                    ) by {
                        if j < self.dynamic_lanes@.len() - 1 {
                            assert(self.dynamic_lanes@[j] == pre[j]);
                            if pre[j].1.store_ms().contains(m) {
                                assert(old(self).regex_tree.items().contains(
                                    ItemModel { id: m.id, regex: pre[j].0@ },
                                ));
                            }
                        } else {
                            assert(m == rm);
                        }
                    }
                }
            },
        }
    }

    /// Returns the routes whose path pattern selects the request's canonical
    /// key.
    #[verifier::loop_isolation(false)]
    pub fn match_request(&self, request: &Request) -> (r: Vec<Route>)
        requires
            self.wf(),
        ensures
            routes_of(r@) =~= filter_path(self.routes_ms(), request.model()),
    {
        let key = request.canonical_key();
        let ghost req = request.model();
        let ghost canon = canonical_path(req.path_and_query);
        let mut out: Vec<Route> = Vec::new();
        proof {
            lemma_routes_of_empty();
            assert(self.static_lanes@.subrange(0, 0) =~= Seq::<(Vec<u8>, RouteMatcher)>::empty());
            assert(filter_path(lanes_ms(self.static_lanes@.subrange(0, 0)), req) =~= Multiset::<
                RouteModel,
            >::empty());
        }
        let mut i: usize = 0;
        while i < self.static_lanes.len()
            invariant
                self.wf(),
                key@ == canonical_path(request.model().path_and_query),
                req == request.model(),
                canon == canonical_path(req.path_and_query),
                0 <= i <= self.static_lanes@.len(),
                routes_of(out@) =~= filter_path(
                    lanes_ms(self.static_lanes@.subrange(0, i as int)),
                    req,
                ),
            decreases self.static_lanes@.len() - i,
        {
            let ghost pre = self.static_lanes@.subrange(0, i as int);
            let ghost lane = self.static_lanes@[i as int];
            proof {
                assert(self.static_lanes@.subrange(0, i as int + 1) =~= pre.push(lane));
                lemma_lanes_ms_push(pre, lane);
                lemma_filter_add(
                    lanes_ms(pre),
                    lane.1.store_ms(),
                    |m: RouteModel| path_ok(m, req),
                );
            }
            if bytes_eq(self.static_lanes[i].0.as_slice(), key.as_slice()) {
                proof {
                    assert forall|m: RouteModel| #[trigger]
                        lane.1.store_ms().contains(m) implies path_ok(m, req) by {
                        assert(m.path == PatternModel::Static(lane.0@));
                    }
                    lemma_filter_all(lane.1.store_ms(), |m: RouteModel| path_ok(m, req));
                }
                let more = self.static_lanes[i].1.match_request(request);
                append_routes(&mut out, more);
            } else {
                proof {
                    assert forall|m: RouteModel| #[trigger]
                        lane.1.store_ms().contains(m) implies !path_ok(m, req) by {
                        assert(m.path == PatternModel::Static(lane.0@));
                    }
                    lemma_filter_none(lane.1.store_ms(), |m: RouteModel| path_ok(m, req));
                }
            }
            i += 1;
        }
        proof {
            assert(self.static_lanes@.subrange(0, self.static_lanes@.len() as int)
                =~= self.static_lanes@);
        }
        let ghost static_part = routes_of(out@);
        let found = self.regex_tree.find_bytes(key.as_slice());
        match found {
            Option::None => {
                proof {
                    assert(self.regex_tree.matched(key@).len() == 0);
                    assert forall|j: int, m: RouteModel|
                        0 <= j < self.dynamic_lanes@.len() && (
                        #[trigger] self.dynamic_lanes@[j].1.store_ms().contains(
                            m,
                        )) implies !path_ok(m, req) by {
                        if path_ok(m, req) {
                            let im = ItemModel { id: m.id, regex: self.dynamic_lanes@[j].0@ };
                            assert(self.regex_tree.items().contains(im));
                            assert(item_matches(im, canon));
                            assert(self.regex_tree.matched(key@).count(im)
                                == self.regex_tree.items().count(im));
                            assert(self.regex_tree.matched(key@).len() > 0);
                        }
                    }
                    lemma_dynamic_filter_none(self.dynamic_lanes@, req);
                    lemma_filter_add(
                        lanes_ms(self.static_lanes@),
                        lanes_ms(self.dynamic_lanes@),
                        |m: RouteModel| path_ok(m, req),
                    );
                }
                out
            },
            Option::Some(items) => {
                proof {
                    assert(items_of(items@) == self.regex_tree.matched(key@));
                    assert(self.dynamic_lanes@.subrange(0, 0) =~= Seq::<
                        (Vec<u8>, RouteMatcher),
                    >::empty());
                    assert(filter_path(lanes_ms(self.dynamic_lanes@.subrange(0, 0)), req)
                        =~= Multiset::<RouteModel>::empty());
                }
                let mut d: usize = 0;
                while d < self.dynamic_lanes.len()
                    invariant
                        self.wf(),
                        key@ == canonical_path(request.model().path_and_query),
                        req == request.model(),
                        canon == canonical_path(req.path_and_query),
                        items_of(items@) == self.regex_tree.matched(key@),
                        0 <= d <= self.dynamic_lanes@.len(),
                        routes_of(out@) =~= static_part.add(
                            filter_path(lanes_ms(self.dynamic_lanes@.subrange(0, d as int)), req),
                        ),
                    decreases self.dynamic_lanes@.len() - d,
                {
                    let ghost pre = self.dynamic_lanes@.subrange(0, d as int);
                    let ghost lane = self.dynamic_lanes@[d as int];
                    proof {
                        assert(self.dynamic_lanes@.subrange(0, d as int + 1) =~= pre.push(lane));
                        lemma_lanes_ms_push(pre, lane);
                        lemma_filter_add(
                            lanes_ms(pre),
                            lane.1.store_ms(),
                            |m: RouteModel| path_ok(m, req),
                        );
                    }
                    if contains_regex(&items, self.dynamic_lanes[d].0.as_slice()) {
                        proof {
                            let j = choose|j: int|
                                0 <= j < items@.len() && (#[trigger] items@[j]).regex@ == lane.0@;
                            let s = items@.map_values(|it: RegexItem| it.model());
                            assert(s[j] == items@[j].model());
                            assert(s.contains(items@[j].model()));
                            assert(items_of(items@).contains(items@[j].model()));
                            assert(item_matches(items@[j].model(), key@));
                            assert(pattern_matches(lane.0@, canon));
                            assert forall|m: RouteModel| #[trigger]
                                lane.1.store_ms().contains(m) implies path_ok(m, req) by {
                                assert(m.path == PatternModel::Dynamic(lane.0@));
                            }
                            lemma_filter_all(lane.1.store_ms(), |m: RouteModel| path_ok(m, req));
                        }
                        let more = self.dynamic_lanes[d].1.match_request(request);
                        append_routes(&mut out, more);
                    } else {
                        proof {
                            assert forall|m: RouteModel| #[trigger]
                                lane.1.store_ms().contains(m) implies !path_ok(m, req) by {
                                if path_ok(m, req) {
                                    let im = ItemModel { id: m.id, regex: lane.0@ };
                                    assert(self.regex_tree.items().contains(im));
                                    assert(item_matches(im, canon));
                                    assert(self.regex_tree.matched(key@).count(im)
                                        == self.regex_tree.items().count(im));
                                    assert(items_of(items@).contains(im));
                                    let s = items@.map_values(|it: RegexItem| it.model());
                                    assert(s.contains(im));
                                    let j = choose|j: int| 0 <= j < s.len() && s[j] == im;
                                    assert(items@[j].model() == im);
                                    assert(items@[j].regex@ == lane.0@);
                                }
                            }
                            lemma_filter_none(lane.1.store_ms(), |m: RouteModel| path_ok(m, req));
                        }
                    }
                    d += 1;
                }
                proof {
                    assert(self.dynamic_lanes@.subrange(0, self.dynamic_lanes@.len() as int)
                        =~= self.dynamic_lanes@);
                    lemma_filter_add(
                        lanes_ms(self.static_lanes@),
                        lanes_ms(self.dynamic_lanes@),
                        |m: RouteModel| path_ok(m, req),
                    );
                }
                out
            },
        }
    }

    /// The layer's trace: the factored prefix tree, then one node with the
    /// routes whose path pattern selected the canonical key.
    pub fn trace(&self, request: &Request) -> (r: Vec<crate::trace::Trace>)
        requires
            self.wf(),
        ensures
            crate::trace::Trace::collected_children(r@) =~= filter_path(
                self.routes_ms(),
                request.model(),
            ),
    {
        let key = request.canonical_key();
        let tree_node = self.regex_tree.trace_shape(key.as_slice());
        let routes = self.match_request(request);
        let matched = routes.len() > 0;
        let count = routes.len() as u64;
        let path_node = crate::trace::Trace::leaf(
            crate::trace::label_bytes("Path and query"),
            matched,
            true,
            count,
            routes,
        );
        let mut out: Vec<crate::trace::Trace> = Vec::new();
        proof {
            assert(out@ =~= Seq::<crate::trace::Trace>::empty());
        }
        out.push(tree_node);
        out.push(path_node);
        proof {
            crate::trace::lemma_collected_children_push(
                Seq::<crate::trace::Trace>::empty(),
                tree_node,
            );
            crate::trace::lemma_collected_children_push(
                Seq::<crate::trace::Trace>::empty().push(tree_node),
                path_node,
            );
            assert(out@ =~= Seq::<crate::trace::Trace>::empty().push(tree_node).push(path_node));
        }
        out
    }

    /// Removes every route carrying `id`; true when something was removed.
    pub fn remove(&mut self, id: &[u8]) -> (r: bool)
        requires
            old(self).wf(),
        ensures
            final(self).wf(),
            final(self).routes_ms() =~= routes_without_id(old(self).routes_ms(), id@),
            r == (routes_with_id(old(self).routes_ms(), id@).len() > 0),
    {
        let r1 = remove_from_lanes(&mut self.static_lanes, id);
        let r2 = remove_from_lanes(&mut self.dynamic_lanes, id);
        let _ = self.regex_tree.remove_bytes(id);
        proof {
            lemma_filter_add(
                lanes_ms(old(self).static_lanes@),
                lanes_ms(old(self).dynamic_lanes@),
                |m: RouteModel| m.id != id@,
            );
            lemma_filter_add(
                lanes_ms(old(self).static_lanes@),
                lanes_ms(old(self).dynamic_lanes@),
                |m: RouteModel| m.id == id@,
            );
            assert forall|j: int, m: RouteModel|
                0 <= j < self.static_lanes@.len() && (
                #[trigger] self.static_lanes@[j].1.store_ms().contains(
                    m,
                )) implies m.path == PatternModel::Static(self.static_lanes@[j].0@) by {
                assert(old(self).static_lanes@[j].1.store_ms().contains(m));
            }
            assert forall|j: int, m: RouteModel|
                0 <= j < self.dynamic_lanes@.len() && (
                #[trigger] self.dynamic_lanes@[j].1.store_ms().contains(
                    m,
                )) implies m.path == PatternModel::Dynamic(self.dynamic_lanes@[j].0@)
                && self.regex_tree.items().contains(
                ItemModel { id: m.id, regex: self.dynamic_lanes@[j].0@ },
            ) by {
                assert(old(self).dynamic_lanes@[j].1.store_ms().contains(m));
                assert(m.id != id@);
                let im = ItemModel { id: m.id, regex: self.dynamic_lanes@[j].0@ };
                assert(old(self).regex_tree.items().contains(im));
                assert(self.regex_tree.items() =~= without_id(
                    old(self).regex_tree.items(),
                    id@,
                ));
                assert(self.regex_tree.items().count(im) == old(self).regex_tree.items().count(
                    im,
                ));
            }
        }
        r1 || r2
    }

    /// The budget a cache pass over this layer leaves: the dynamic pattern
    /// index spends it.
    pub closed spec fn budget_after(self, limit: u64, level: u64) -> u64 {
        self.regex_tree.budget_after(limit, level)
    }

    /// Spends the compilation budget on the dynamic patterns and returns
    /// what is left.
    pub fn cache(&mut self, limit: u64, level: u64) -> (r: u64)
        requires
            old(self).wf(),
        ensures
            *final(self) == *old(self),
            r == old(self).budget_after(limit, level),
    {
        self.regex_tree.cache(limit, level)
    }
}

/// Whether one of the found items carries this pattern.
#[verifier::loop_isolation(false)]
pub(crate) fn contains_regex(items: &Vec<RegexItem>, regex: &[u8]) -> (r: bool)
    ensures
        r == (exists|j: int| 0 <= j < items@.len() && (#[trigger] items@[j]).regex@ == regex@),
{
    let mut i: usize = 0;
    while i < items.len()
        invariant
            0 <= i <= items@.len(),
            forall|j: int| 0 <= j < i ==> (#[trigger] items@[j]).regex@ != regex@,
        decreases items@.len() - i,
    {
        if bytes_eq(items[i].regex.as_slice(), regex) {
            return true;
        }
        i += 1;
    }
    false
}

proof fn lemma_dynamic_filter_none(ls: Seq<(Vec<u8>, RouteMatcher)>, req: crate::request::RequestModel)
    requires
        forall|j: int, m: RouteModel|
            0 <= j < ls.len() && (#[trigger] ls[j].1.store_ms().contains(m)) ==> !path_ok(m, req),
    ensures
        filter_path(lanes_ms(ls), req) =~= Multiset::<RouteModel>::empty(),
{
    assert forall|m: RouteModel| #[trigger] lanes_ms(ls).contains(m) implies !path_ok(m, req) by {
        lemma_lanes_ms_contains(ls, m);
        let j = choose|j: int| 0 <= j < ls.len() && (#[trigger] ls[j]).1.store_ms().contains(m);
        assert(ls[j].1.store_ms().contains(m));
    }
    lemma_filter_none(lanes_ms(ls), |m: RouteModel| path_ok(m, req));
}

/// Removes `id` from every lane, keeping the lanes in place.
#[verifier::loop_isolation(false)]
fn remove_from_lanes(lanes: &mut Vec<(Vec<u8>, RouteMatcher)>, id: &[u8]) -> (r: bool)
    ensures
        final(lanes)@.len() == old(lanes)@.len(),
        forall|j: int|
            0 <= j < final(lanes)@.len() ==> (#[trigger] final(lanes)@[j]).0@ == old(
                lanes,
            )@[j].0@ && final(lanes)@[j].1.store_ms() == routes_without_id(
                old(lanes)@[j].1.store_ms(),
                id@,
            ),
        lanes_ms(final(lanes)@) =~= routes_without_id(lanes_ms(old(lanes)@), id@),
        r == (routes_with_id(lanes_ms(old(lanes)@), id@).len() > 0),
{
    let mut any = false;
    let mut i: usize = 0;
    proof {
        assert(old(lanes)@.subrange(0, 0) =~= Seq::<(Vec<u8>, RouteMatcher)>::empty());
        assert(routes_without_id(
            lanes_ms(old(lanes)@.subrange(0, 0)),
            id@,
        ) =~= Multiset::<RouteModel>::empty());
        assert(routes_with_id(
            lanes_ms(old(lanes)@.subrange(0, 0)),
            id@,
        ) =~= Multiset::<RouteModel>::empty());
    }
    while i < lanes.len()
        invariant
            0 <= i <= lanes@.len(),
            lanes@.len() == old(lanes)@.len(),
            forall|j: int|
                i <= j < lanes@.len() ==> (#[trigger] lanes@[j]) == old(lanes)@[j],
            forall|j: int|
                0 <= j < i ==> (#[trigger] lanes@[j]).0@ == old(lanes)@[j].0@
                    && lanes@[j].1.store_ms() == routes_without_id(
                    old(lanes)@[j].1.store_ms(),
                    id@,
                ),
            lanes_ms(lanes@.subrange(0, i as int)) =~= routes_without_id(
                lanes_ms(old(lanes)@.subrange(0, i as int)),
                id@,
            ),
            any == (routes_with_id(lanes_ms(old(lanes)@.subrange(0, i as int)), id@).len() > 0),
        decreases lanes@.len() - i,
    {
        let ghost pre_new = lanes@.subrange(0, i as int);
        let ghost pre_old = old(lanes)@.subrange(0, i as int);
        let ghost lane_old = old(lanes)@[i as int];
        let (k, mut sub) = lanes.remove(i);
        let removed = sub.remove(id);
        any = any || removed;
        lanes.insert(i, (k, sub));
        proof {
            assert(lanes@.subrange(0, i as int + 1) =~= pre_new.push((k, sub)));
            assert(old(lanes)@.subrange(0, i as int + 1) =~= pre_old.push(lane_old));
            lemma_lanes_ms_push(pre_new, (k, sub));
            lemma_lanes_ms_push(pre_old, lane_old);
            lemma_filter_add(
                lanes_ms(pre_old),
                lane_old.1.store_ms(),
                |m: RouteModel| m.id != id@,
            );
            lemma_filter_add(
                lanes_ms(pre_old),
                lane_old.1.store_ms(),
                |m: RouteModel| m.id == id@,
            );
            assert forall|j: int| i + 1 <= j < lanes@.len() implies (#[trigger] lanes@[j]) == old(
                lanes,
            )@[j] by {}
        }
        i += 1;
    }
    proof {
        assert(lanes@.subrange(0, lanes@.len() as int) =~= lanes@);
        assert(old(lanes)@.subrange(0, old(lanes)@.len() as int) =~= old(lanes)@);
    }
    any
}

impl Default for PathAndQueryMatcher {
    /// The empty value, as PathAndQueryMatcher::new builds it.
    fn default() -> (r: Self)
        ensures
            r.wf() && r.routes_ms() =~= Multiset::<RouteModel>::empty(),
    {
        PathAndQueryMatcher::new()
    }
}

} // verus!

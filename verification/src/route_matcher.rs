//! The terminal matcher: a plain store of routes, returned whole, because
//! every dimension has already been filtered above it.

use vstd::prelude::*;
use vstd::multiset::Multiset;
use crate::bytes_util::bytes_eq;
use crate::rule::{Route, RouteModel};
use crate::request::Request;
use crate::matching::{routes_of, routes_without_id, routes_with_id, RouteStore,
    lemma_routes_of_empty, lemma_routes_of_push};

verus! {

broadcast use vstd::multiset::group_multiset_axioms, vstd::multiset::group_multiset_properties, vstd::seq_lib::group_to_multiset_ensures;

/// Leaf of the pipeline: holds routes by identifier and returns them all.
pub struct RouteMatcher {
    routes: Vec<Route>,
}

impl RouteStore for RouteMatcher {
    open spec fn store_ms(self) -> Multiset<RouteModel> {
        self.routes_ms()
    }
}

impl RouteMatcher {
    /// The routes this leaf holds.
    pub closed spec fn routes_ms(self) -> Multiset<RouteModel> {
        routes_of(self.routes@)
    }

    /// An empty leaf.
    pub fn new() -> (r: RouteMatcher)
        ensures
            r.routes_ms() =~= Multiset::<RouteModel>::empty(),
    {
        proof {
            lemma_routes_of_empty();
        }
        RouteMatcher { routes: Vec::new() }
    }

    /// Stores one more route.
    pub fn insert(&mut self, route: Route)
        ensures
            final(self).routes_ms() =~= old(self).routes_ms().insert(route.model()),
    {
        proof {
            lemma_routes_of_push(self.routes@, route);
        }
        self.routes.push(route);
    }

    /// Removes every route carrying `id`; true when something was removed.
    pub fn remove(&mut self, id: &[u8]) -> (r: bool)
        ensures
            final(self).routes_ms() =~= routes_without_id(old(self).routes_ms(), id@),
            r == (routes_with_id(old(self).routes_ms(), id@).len() > 0),
    {
        let mut kept: Vec<Route> = Vec::new();
        let mut removed = false;
        let ghost mut kept_ms = Multiset::<RouteModel>::empty();
        let ghost mut dropped_ms = Multiset::<RouteModel>::empty();
        let mut i: usize = 0;
        proof {
            lemma_routes_of_empty();
            assert(self.routes@.subrange(0, 0) =~= Seq::<Route>::empty());
        }
        while i < self.routes.len()
            invariant
                0 <= i <= self.routes@.len(),
                routes_of(kept@) =~= kept_ms,
                routes_of(self.routes@.subrange(0, i as int)) =~= kept_ms.add(dropped_ms),
                forall|m: RouteModel| #[trigger] kept_ms.contains(m) ==> m.id != id@,
                forall|m: RouteModel| #[trigger] dropped_ms.contains(m) ==> m.id == id@,
                removed == (dropped_ms.len() > 0),
            decreases self.routes@.len() - i,
        {
            let ghost pre = self.routes@.subrange(0, i as int);
            proof {
                assert(self.routes@.subrange(0, i as int + 1) =~= pre.push(
                    self.routes@[i as int],
                ));
                lemma_routes_of_push(pre, self.routes@[i as int]);
            }
            let rt = self.routes[i].clone();
            proof {
                assert(rt.model() == self.routes@[i as int].model());
            }
            if bytes_eq(rt.id.as_slice(), id) {
                removed = true;
                proof {
                    let prev = dropped_ms;
                    dropped_ms = dropped_ms.insert(rt.model());
                    assert(dropped_ms.len() > 0);
                    assert forall|m: RouteModel| #[trigger] dropped_ms.contains(m) implies m.id
                        == id@ by {
                        if m != rt.model() {
                            assert(prev.contains(m));
                        }
                    }
                }
            } else {
                proof {
                    let prev = kept_ms;
                    kept_ms = kept_ms.insert(rt.model());
                    lemma_routes_of_push(kept@, rt);
                    assert forall|m: RouteModel| #[trigger] kept_ms.contains(m) implies m.id
                        != id@ by {
                        if m != rt.model() {
                            assert(prev.contains(m));
                        }
                    }
                }
                kept.push(rt);
            }
            i += 1;
        }
        proof {
            assert(self.routes@.subrange(0, self.routes@.len() as int) =~= self.routes@);
            let total = routes_of(self.routes@);
            assert(total =~= kept_ms.add(dropped_ms));
            assert forall|m: RouteModel|
                routes_without_id(total, id@).count(m) == kept_ms.count(m) by {
                if m.id != id@ {
                    if dropped_ms.count(m) > 0 {
                        assert(dropped_ms.contains(m));
                    }
                } else {
                    if kept_ms.count(m) > 0 {
                        assert(kept_ms.contains(m));
                    }
                }
            }
            assert forall|m: RouteModel|
                routes_with_id(total, id@).count(m) == dropped_ms.count(m) by {
                if m.id == id@ {
                    if kept_ms.count(m) > 0 {
                        assert(kept_ms.contains(m));
                    }
                } else {
                    if dropped_ms.count(m) > 0 {
                        assert(dropped_ms.contains(m));
                    }
                }
            }
            assert(routes_without_id(total, id@) =~= kept_ms);
            assert(routes_with_id(total, id@) =~= dropped_ms);
        }
        self.routes = kept;
        removed
    }

    /// Returns every stored route: the layers above have already decided.
    pub fn match_request(&self, _request: &Request) -> (r: Vec<Route>)
        ensures
            routes_of(r@) =~= self.routes_ms(),
    {
        let mut out: Vec<Route> = Vec::new();
        let mut i: usize = 0;
        proof {
            lemma_routes_of_empty();
            assert(self.routes@.subrange(0, 0) =~= Seq::<Route>::empty());
        }
        while i < self.routes.len()
            invariant
                0 <= i <= self.routes@.len(),
                routes_of(out@) =~= routes_of(self.routes@.subrange(0, i as int)),
            decreases self.routes@.len() - i,
        {
            let ghost pre = self.routes@.subrange(0, i as int);
            proof {
                assert(self.routes@.subrange(0, i as int + 1) =~= pre.push(
                    self.routes@[i as int],
                ));
                lemma_routes_of_push(pre, self.routes@[i as int]);
            }
            let rt = self.routes[i].clone();
            proof {
                assert(rt.model() == self.routes@[i as int].model());
                lemma_routes_of_push(out@, rt);
            }
            out.push(rt);
            i += 1;
        }
        proof {
            assert(self.routes@.subrange(0, self.routes@.len() as int) =~= self.routes@);
        }
        out
    }

    /// Number of routes held.
    pub fn len(&self) -> (r: usize)
        ensures
            r == self.routes_ms().len(),
    {
        proof {
            assert(self.routes@.map_values(|x: Route| x.model()).to_multiset().len()
                == self.routes@.len());
        }
        self.routes.len()
    }

    /// One node holding every stored route.
    pub fn trace(&self, request: &Request) -> (r: Vec<crate::trace::Trace>)
        ensures
            crate::trace::Trace::collected_children(r@) =~= self.routes_ms(),
    {
        let routes = self.match_request(request);
        let matched = routes.len() > 0;
        let count = routes.len() as u64;
        let node = crate::trace::Trace::leaf(
            crate::trace::label_bytes("Routes"),
            matched,
            true,
            count,
            routes,
        );
        let mut out: Vec<crate::trace::Trace> = Vec::new();
        proof {
            assert(out@ =~= Seq::<crate::trace::Trace>::empty());
        }
        out.push(node);
        proof {
            crate::trace::lemma_collected_children_push(Seq::<crate::trace::Trace>::empty(), node);
            assert(out@ =~= Seq::<crate::trace::Trace>::empty().push(node));
        }
        out
    }

    /// The budget is untouched here: a leaf holds no patterns.
    pub fn cache(&mut self, limit: u64, _level: u64) -> (r: u64)
        ensures
            *final(self) == *old(self),
            r == limit,
    {
        limit
    }
}

/// Appends the routes of `more` to `out`.
pub fn append_routes(out: &mut Vec<Route>, more: Vec<Route>)
    ensures
        routes_of(final(out)@) =~= routes_of(old(out)@).add(routes_of(more@)),
{
    let ghost base = out@;
    let mut i: usize = 0;
    proof {
        lemma_routes_of_empty();
        assert(more@.subrange(0, 0) =~= Seq::<Route>::empty());
    }
    while i < more.len()
        invariant
            0 <= i <= more@.len(),
            routes_of(out@) =~= routes_of(base).add(routes_of(more@.subrange(0, i as int))),
        decreases more@.len() - i,
    {
        let ghost pre = more@.subrange(0, i as int);
        proof {
            assert(more@.subrange(0, i as int + 1) =~= pre.push(more@[i as int]));
            lemma_routes_of_push(pre, more@[i as int]);
        }
        let rt = more[i].clone();
        proof {
            assert(rt.model() == more@[i as int].model());
            lemma_routes_of_push(out@, rt);
        }
        out.push(rt);
        i += 1;
    }
    proof {
        assert(more@.subrange(0, more@.len() as int) =~= more@);
    }
}

impl Default for RouteMatcher {
    /// The empty value, as RouteMatcher::new builds it.
    fn default() -> (r: Self)
        ensures
            r.routes_ms() =~= Multiset::<RouteModel>::empty(),
    {
        RouteMatcher::new()
    }
}

} // verus!

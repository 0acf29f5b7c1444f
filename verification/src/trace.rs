//! The trace tree: a shadow of the match pipeline recording, for each
//! branching decision, whether it matched and which routes were reached.

use vstd::prelude::*;
use vstd::multiset::Multiset;
use vstd::string::StrSliceExecFns;
use vstd::string::StringSliceAdditionalSpecFns;
use crate::rule::{Rule, RuleModel, Route, RouteModel};
use crate::request::Request;
use crate::matching::{routes_of, models_of, lemma_routes_of_empty, lemma_routes_of_push};
use crate::action::{Action, ActionModel, compose_actions, sort_routes, sort_routes_exec,
    lemma_sort_routes_len};

verus! {

broadcast use vstd::multiset::group_multiset_axioms, vstd::multiset::group_multiset_properties, vstd::seq_lib::group_to_multiset_ensures;

/// One node of the trace tree.
pub struct Trace {
    pub description: Vec<u8>,
    pub matched: bool,
    pub evaluated: bool,
    pub count: u64,
    pub children: Vec<Trace>,
    pub routes: Vec<Route>,
}

impl Trace {
    /// Every route this subtree reached.
    pub open spec fn collected(self) -> Multiset<RouteModel>
        decreases self,
    {
        routes_of(self.routes@).add(Self::collected_children(self.children@))
    }

    pub open spec fn collected_children(ts: Seq<Trace>) -> Multiset<RouteModel>
        decreases ts,
    {
        if ts.len() == 0 {
            Multiset::empty()
        } else {
            ts[0].collected().add(Self::collected_children(ts.subrange(1, ts.len() as int)))
        }
    }

    /// Builds a node.
    pub fn new(
        description: Vec<u8>,
        matched: bool,
        evaluated: bool,
        count: u64,
        children: Vec<Trace>,
        routes: Vec<Route>,
    ) -> (r: Trace)
        ensures
            r.collected() =~= routes_of(routes@).add(Trace::collected_children(children@)),
            r.children@ == children@,
            r.routes@ == routes@,
            r.matched == matched,
            r.evaluated == evaluated,
    {
        Trace { description, matched, evaluated, count, children, routes }
    }

    /// A leaf node holding routes.
    pub fn leaf(description: Vec<u8>, matched: bool, evaluated: bool, count: u64, routes: Vec<
        Route,
    >) -> (r: Trace)
        ensures
            r.collected() =~= routes_of(routes@),
    {
        let children: Vec<Trace> = Vec::new();
        proof {
            assert(children@ =~= Seq::<Trace>::empty());
        }
        Trace { description, matched, evaluated, count, children, routes }
    }

    /// Collects every route a list of traces reached.
    pub fn get_routes_from_traces(traces: &Vec<Trace>) -> (r: Vec<Route>)
        ensures
            routes_of(r@) =~= Trace::collected_children(traces@),
    {
        let mut out: Vec<Route> = Vec::new();
        proof {
            lemma_routes_of_empty();
        }
        collect_traces(traces, &mut out);
        out
    }
}

pub proof fn lemma_collected_children_push(ts: Seq<Trace>, t: Trace)
    ensures
        Trace::collected_children(ts.push(t)) =~= Trace::collected_children(ts).add(
            t.collected(),
        ),
    decreases ts.len(),
{
    if ts.len() == 0 {
        assert(ts.push(t)[0] == t);
        assert(ts.push(t).subrange(1, 1) =~= Seq::<Trace>::empty());
        assert(Trace::collected_children(ts.push(t).subrange(1, 1)) == Multiset::<
            RouteModel,
        >::empty());
    } else {
        let rest = ts.subrange(1, ts.len() as int);
        assert(ts.push(t).subrange(1, ts.push(t).len() as int) =~= rest.push(t));
        lemma_collected_children_push(rest, t);
        assert(ts.push(t)[0] == ts[0]);
    }
}

/// Gathers, into `out`, every route the traces reached.
fn collect_traces(traces: &Vec<Trace>, out: &mut Vec<Route>)
    ensures
        routes_of(final(out)@) =~= routes_of(old(out)@).add(Trace::collected_children(traces@)),
{
    let ghost base = routes_of(out@);
    let mut i: usize = 0;
    proof {
        assert(traces@.subrange(0, 0) =~= Seq::<Trace>::empty());
    }
    while i < traces.len()
        invariant
            0 <= i <= traces@.len(),
            routes_of(out@) =~= base.add(
                Trace::collected_children(traces@.subrange(0, i as int)),
            ),
        decreases traces@.len() - i,
    {
        let ghost pre = traces@.subrange(0, i as int);
        proof {
            assert(traces@.subrange(0, i as int + 1) =~= pre.push(traces@[i as int]));
            lemma_collected_children_push(pre, traces@[i as int]);
        }
        collect_one_trace(&traces[i], out);
        i += 1;
    }
    proof {
        assert(traces@.subrange(0, traces@.len() as int) =~= traces@);
    }
}

fn collect_one_trace(t: &Trace, out: &mut Vec<Route>)
    ensures
        routes_of(final(out)@) =~= routes_of(old(out)@).add(t.collected()),
    decreases t,
{
    let mut i: usize = 0;
    let ghost base = routes_of(out@);
    proof {
        assert(t.routes@.subrange(0, 0) =~= Seq::<Route>::empty());
        lemma_routes_of_empty();
    }
    while i < t.routes.len()
        invariant
            0 <= i <= t.routes@.len(),
            routes_of(out@) =~= base.add(routes_of(t.routes@.subrange(0, i as int))),
        decreases t.routes@.len() - i,
    {
        let ghost pre = t.routes@.subrange(0, i as int);
        proof {
            assert(t.routes@.subrange(0, i as int + 1) =~= pre.push(t.routes@[i as int]));
            lemma_routes_of_push(pre, t.routes@[i as int]);
        }
        let rt = t.routes[i].clone();
        proof {
            assert(rt.model() == t.routes@[i as int].model());
            lemma_routes_of_push(out@, rt);
        }
        out.push(rt);
        i += 1;
    }
    proof {
        assert(t.routes@.subrange(0, t.routes@.len() as int) =~= t.routes@);
    }
    let ghost mid = routes_of(out@);
    let mut c: usize = 0;
    proof {
        assert(t.children@.subrange(0, 0) =~= Seq::<Trace>::empty());
    }
    while c < t.children.len()
        invariant
            0 <= c <= t.children@.len(),
            routes_of(out@) =~= mid.add(
                Trace::collected_children(t.children@.subrange(0, c as int)),
            ),
        decreases t.children@.len() - c,
    {
        let ghost pre = t.children@.subrange(0, c as int);
        proof {
            assert(t.children@.subrange(0, c as int + 1) =~= pre.push(t.children@[c as int]));
            lemma_collected_children_push(pre, t.children@[c as int]);
        }
        collect_one_trace(&t.children[c], out);
        c += 1;
    }
    proof {
        assert(t.children@.subrange(0, t.children@.len() as int) =~= t.children@);
    }
}

/// The bytes of a label.
pub fn label_bytes(s: &str) -> (r: Vec<u8>)
    ensures
        r@ == s.spec_bytes(),
{
    s.as_bytes_vec()
}

/// One step of the composed explanation: the action accumulated so far, and
/// the rule that contributed last.
pub struct TraceAction {
    pub action: Action,
    pub rule: Rule,
}

pub struct TraceActionModel {
    pub action: ActionModel,
    pub rule: RuleModel,
}

impl TraceAction {
    pub open spec fn model(self) -> TraceActionModel {
        TraceActionModel { action: self.action.model(), rule: self.rule.model() }
    }

    /// Replays the composition over the routes a trace reached: one step per
    /// route, highest priority first, each step carrying the action
    /// accumulated so far and the rule that contributed it.
    #[verifier::loop_isolation(false)]
    pub fn from_trace_rules(traces: &Vec<Trace>, request: &Request) -> (r: Vec<TraceAction>)
        ensures
            exists|rs: Seq<RouteModel>|
                #[trigger] rs.to_multiset() == Trace::collected_children(traces@) && r@.len()
                    == rs.len() && (forall|i: int|
                    0 <= i < r@.len() ==> (#[trigger] r@[i]).model().action == compose_actions(
                        sort_routes(rs).subrange(0, i + 1),
                        request.model(),
                    ) && r@[i].model().rule == sort_routes(rs)[i].handler),
    {
        let routes = Trace::get_routes_from_traces(traces);
        let ghost rs = models_of(routes@);
        proof {
            assert(rs.to_multiset() == Trace::collected_children(traces@));
        }
        let sorted = sort_routes_exec(routes);
        let ghost sorted_spec = sort_routes(rs);
        let mut out: Vec<TraceAction> = Vec::new();
        let mut action = Action::new();
        let mut i: usize = 0;
        proof {
            assert(sorted_spec.subrange(0, 0) =~= Seq::<RouteModel>::empty());
        }
        while i < sorted.len()
            invariant
                0 <= i <= sorted@.len(),
                models_of(sorted@) == sorted_spec,
                sorted_spec.len() == sorted@.len(),
                out@.len() == i,
                action.model() == compose_actions(sorted_spec.subrange(0, i as int), request.model()),
                forall|j: int|
                    0 <= j < i ==> (#[trigger] out@[j]).model().action == compose_actions(
                        sorted_spec.subrange(0, j + 1),
                        request.model(),
                    ) && out@[j].model().rule == sorted_spec[j].handler,
            decreases sorted@.len() - i,
        {
            let ghost pre = sorted_spec.subrange(0, i as int);
            proof {
                assert(models_of(sorted@)[i as int] == sorted@[i as int].model());
                assert(sorted@[i as int].model() == sorted_spec[i as int]);
                assert(sorted_spec.subrange(0, i as int + 1) =~= pre.push(sorted_spec[i as int]));
                assert(pre.push(sorted_spec[i as int]).drop_last() =~= pre);
            }
            let one = Action::from_route_rule(&sorted[i], request);
            action.merge(one);
            let step_action = clone_action(&action);
            out.push(TraceAction { action: step_action, rule: sorted[i].handler.clone() });
            i += 1;
        }
        proof {
            lemma_sort_routes_len(rs);
            assert(rs.to_multiset() == Trace::collected_children(traces@));
            assert(out@.len() == rs.len());
            assert(forall|j: int|
                0 <= j < out@.len() ==> (#[trigger] out@[j]).model().action == compose_actions(
                    sort_routes(rs).subrange(0, j + 1),
                    request.model(),
                ) && out@[j].model().rule == sort_routes(rs)[j].handler);
        }
        out
    }
}

/// Clones an action, model for model.
pub fn clone_action(a: &Action) -> (r: Action)
    ensures
        r.model() == a.model(),
{
    let status_code_update = a.status_code_update;
    let mut header_filters: Vec<crate::action::HeaderFilterAction> = Vec::new();
    let mut i: usize = 0;
    while i < a.header_filters.len()
        invariant
            0 <= i <= a.header_filters@.len(),
            header_filters@.map_values(|f: crate::action::HeaderFilterAction| f.model())
                =~= a.header_filters@.subrange(0, i as int).map_values(
                |f: crate::action::HeaderFilterAction| f.model(),
            ),
        decreases a.header_filters@.len() - i,
    {
        let ghost pre = header_filters@.map_values(
            |f: crate::action::HeaderFilterAction| f.model(),
        );
        let cl = a.header_filters[i].clone();
        proof {
            assert(cl.model() == a.header_filters@[i as int].model());
            assert(a.header_filters@.subrange(0, i as int + 1).map_values(
                |f: crate::action::HeaderFilterAction| f.model(),
            ) =~= a.header_filters@.subrange(0, i as int).map_values(
                |f: crate::action::HeaderFilterAction| f.model(),
            ).push(cl.model()));
        }
        header_filters.push(cl);
        proof {
            assert(header_filters@.map_values(
                |f: crate::action::HeaderFilterAction| f.model(),
            ) =~= pre.push(header_filters@.last().model()));
        }
        i += 1;
    }
    proof {
        assert(a.header_filters@.subrange(0, a.header_filters@.len() as int)
            =~= a.header_filters@);
    }
    let mut body_filters: Vec<crate::action::BodyFilterAction> = Vec::new();
    let mut i: usize = 0;
    while i < a.body_filters.len()
        invariant
            0 <= i <= a.body_filters@.len(),
            body_filters@.map_values(|f: crate::action::BodyFilterAction| f.model())
                =~= a.body_filters@.subrange(0, i as int).map_values(
                |f: crate::action::BodyFilterAction| f.model(),
            ),
        decreases a.body_filters@.len() - i,
    {
        let ghost pre = body_filters@.map_values(
            |f: crate::action::BodyFilterAction| f.model(),
        );
        let cl = a.body_filters[i].clone();
        proof {
            assert(cl.model() == a.body_filters@[i as int].model());
            assert(a.body_filters@.subrange(0, i as int + 1).map_values(
                |f: crate::action::BodyFilterAction| f.model(),
            ) =~= a.body_filters@.subrange(0, i as int).map_values(
                |f: crate::action::BodyFilterAction| f.model(),
            ).push(cl.model()));
        }
        body_filters.push(cl);
        proof {
            assert(body_filters@.map_values(
                |f: crate::action::BodyFilterAction| f.model(),
            ) =~= pre.push(body_filters@.last().model()));
        }
        i += 1;
    }
    proof {
        assert(a.body_filters@.subrange(0, a.body_filters@.len() as int) =~= a.body_filters@);
    }
    let rule_ids = crate::rule::clone_bytes_vec(&a.rule_ids);
    let r = Action { status_code_update, header_filters, body_filters, rule_ids };
    proof {
        assert(r.model().header_filters =~= a.model().header_filters);
        assert(r.model().body_filters =~= a.model().body_filters);
        assert(r.model().rule_ids =~= a.model().rule_ids);
    }
    r
}

} // verus!

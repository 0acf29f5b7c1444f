//! The action composer: matched routes merged, highest priority first, into
//! one action applied to the response.

use vstd::prelude::*;
use crate::bytes_util::{lex_leq, bytes_eq, to_ascii_lower, ascii_lower};
use crate::canon::{find_byte, find_byte_exec, canonical_path};
use crate::rule::{RuleModel, Route, RouteModel, PatternModel, HeaderFilter,
    HeaderFilterModel, BodyFilter, BodyFilterModel, StaticOrDynamic};
use crate::request::{Request, RequestModel, Header};
use crate::matching::models_of;
use crate::regex_support::{regex_named_captures, regex_captures_model, regex_accepts};

verus! {

/// A status code rewrite: applied when the response status is
/// `on_response_status_code` (zero meaning always), with a fallback for the
/// other statuses.
#[derive(PartialEq, Eq, Structural, Clone, Copy)]
pub struct StatusCodeUpdate {
    pub status_code: u16,
    pub on_response_status_code: u16,
    pub fallback_status_code: u16,
}

impl StatusCodeUpdate {
    /// The status to send for a response status, zero when untouched.
    pub fn get_status_code(&self, response_status_code: u16) -> (r: u16)
        ensures
            r == spec_update_status(*self, response_status_code),
    {
        if self.on_response_status_code == 0 || self.on_response_status_code
            == response_status_code {
            self.status_code
        } else {
            self.fallback_status_code
        }
    }
}

pub open spec fn spec_update_status(u: StatusCodeUpdate, response: u16) -> u16 {
    if u.on_response_status_code == 0 || u.on_response_status_code == response {
        u.status_code
    } else {
        u.fallback_status_code
    }
}

/// A header filter with the response status it applies on.
pub struct HeaderFilterAction {
    pub filter: HeaderFilter,
    pub on_response_status_code: u16,
}

pub struct HeaderFilterActionModel {
    pub filter: HeaderFilterModel,
    pub on_response_status_code: u16,
}

impl HeaderFilterAction {
    pub open spec fn model(self) -> HeaderFilterActionModel {
        HeaderFilterActionModel {
            filter: self.filter.model(),
            on_response_status_code: self.on_response_status_code,
        }
    }
}

impl Clone for HeaderFilterAction {
    fn clone(&self) -> (r: Self)
        ensures
            r.model() == self.model(),
    {
        HeaderFilterAction {
            filter: self.filter.clone(),
            on_response_status_code: self.on_response_status_code,
        }
    }
}

/// A body filter with the response status it applies on.
pub struct BodyFilterAction {
    pub filter: BodyFilter,
    pub on_response_status_code: u16,
}

pub struct BodyFilterActionModel {
    pub filter: BodyFilterModel,
    pub on_response_status_code: u16,
}

impl BodyFilterAction {
    pub open spec fn model(self) -> BodyFilterActionModel {
        BodyFilterActionModel {
            filter: self.filter.model(),
            on_response_status_code: self.on_response_status_code,
        }
    }
}

impl Clone for BodyFilterAction {
    fn clone(&self) -> (r: Self)
        ensures
            r.model() == self.model(),
    {
        BodyFilterAction {
            filter: self.filter.clone(),
            on_response_status_code: self.on_response_status_code,
        }
    }
}

/// The composed outcome for a matched request.
pub struct Action {
    pub status_code_update: Option<StatusCodeUpdate>,
    pub header_filters: Vec<HeaderFilterAction>,
    pub body_filters: Vec<BodyFilterAction>,
    pub rule_ids: Vec<Vec<u8>>,
}

pub struct ActionModel {
    pub status_code_update: Option<StatusCodeUpdate>,
    pub header_filters: Seq<HeaderFilterActionModel>,
    pub body_filters: Seq<BodyFilterActionModel>,
    pub rule_ids: Seq<Seq<u8>>,
}

impl Action {
    pub open spec fn model(self) -> ActionModel {
        ActionModel {
            status_code_update: self.status_code_update,
            header_filters: self.header_filters@.map_values(
                |f: HeaderFilterAction| f.model(),
            ),
            body_filters: self.body_filters@.map_values(|f: BodyFilterAction| f.model()),
            rule_ids: self.rule_ids.deep_view(),
        }
    }

    /// The action that changes nothing.
    pub fn new() -> (r: Action)
        ensures
            r.model() == empty_action(),
    {
        let r = Action {
            status_code_update: Option::None,
            header_filters: Vec::new(),
            body_filters: Vec::new(),
            rule_ids: Vec::new(),
        };
        proof {
            assert(r.model().header_filters =~= empty_action().header_filters);
            assert(r.model().body_filters =~= empty_action().body_filters);
            assert(r.model().rule_ids =~= empty_action().rule_ids);
        }
        r
    }
}

/// The action that changes nothing.
pub open spec fn empty_action() -> ActionModel {
    ActionModel {
        status_code_update: Option::None,
        header_filters: Seq::empty(),
        body_filters: Seq::empty(),
        rule_ids: Seq::empty(),
    }
}

/// How an incoming status update lands on an accumulated one: it replaces
/// it, except that a conditional newcomer demotes an unconditional holder to
/// its fallback.
pub open spec fn merge_status(
    acc: Option<StatusCodeUpdate>,
    new: Option<StatusCodeUpdate>,
) -> Option<StatusCodeUpdate> {
    match new {
        Option::None => acc,
        Option::Some(n) => match acc {
            Option::None => Option::Some(n),
            Option::Some(o) => if o.on_response_status_code != 0 || n.on_response_status_code
                == 0 {
                Option::Some(n)
            } else {
                Option::Some(
                    StatusCodeUpdate {
                        status_code: n.status_code,
                        on_response_status_code: n.on_response_status_code,
                        fallback_status_code: o.status_code,
                    },
                )
            },
        },
    }
}

/// One merge step: the status updates combine, everything else appends.
pub open spec fn merge_model(acc: ActionModel, new: ActionModel) -> ActionModel {
    ActionModel {
        status_code_update: merge_status(acc.status_code_update, new.status_code_update),
        header_filters: acc.header_filters + new.header_filters,
        body_filters: acc.body_filters + new.body_filters,
        rule_ids: acc.rule_ids + new.rule_ids,
    }
}

impl Action {
    /// Merges another action into this one.
    pub fn merge(&mut self, other: Action)
        ensures
            final(self).model() == merge_model(old(self).model(), other.model()),
    {
        let new_status = match other.status_code_update {
            Option::None => self.status_code_update,
            Option::Some(n) => match self.status_code_update {
                Option::None => Option::Some(n),
                Option::Some(o) => {
                    if o.on_response_status_code != 0 || n.on_response_status_code == 0 {
                        Option::Some(n)
                    } else {
                        Option::Some(
                            StatusCodeUpdate {
                                status_code: n.status_code,
                                on_response_status_code: n.on_response_status_code,
                                fallback_status_code: o.status_code,
                            },
                        )
                    }
                },
            },
        };
        self.status_code_update = new_status;
        let ghost hf0 = self.model().header_filters;
        let ghost bf0 = self.model().body_filters;
        let ghost id0 = self.model().rule_ids;
        let mut other = other;
        append_header_filter_actions(&mut self.header_filters, other.header_filters);
        append_body_filter_actions(&mut self.body_filters, other.body_filters);
        append_ids(&mut self.rule_ids, other.rule_ids);
        proof {
            assert(self.model().header_filters =~= merge_model(
                old(self).model(),
                other.model(),
            ).header_filters);
            assert(self.model().body_filters =~= merge_model(
                old(self).model(),
                other.model(),
            ).body_filters);
            assert(self.model().rule_ids =~= merge_model(
                old(self).model(),
                other.model(),
            ).rule_ids);
        }
    }

    /// The status to send for a response status; zero when the action does
    /// not touch it.
    pub fn get_status_code(&self, response_status_code: u16) -> (r: u16)
        ensures
            r == (match self.model().status_code_update {
                Option::None => 0u16,
                Option::Some(u) => spec_update_status(u, response_status_code),
            }),
    {
        match &self.status_code_update {
            Option::None => 0,
            Option::Some(u) => u.get_status_code(response_status_code),
        }
    }
}

fn append_header_filter_actions(out: &mut Vec<HeaderFilterAction>, more: Vec<HeaderFilterAction>)
    ensures
        final(out)@.map_values(|f: HeaderFilterAction| f.model()) =~= old(out)@.map_values(
            |f: HeaderFilterAction| f.model(),
        ) + more@.map_values(|f: HeaderFilterAction| f.model()),
{
    let mut i: usize = 0;
    let ghost base = out@.map_values(|f: HeaderFilterAction| f.model());
    while i < more.len()
        invariant
            0 <= i <= more@.len(),
            out@.map_values(|f: HeaderFilterAction| f.model()) =~= base + more@.map_values(
                |f: HeaderFilterAction| f.model(),
            ).subrange(0, i as int),
        decreases more@.len() - i,
    {
        let ghost pre = out@.map_values(|f: HeaderFilterAction| f.model());
        let cl = more[i].clone();
        proof {
            assert(cl.model() == more@[i as int].model());
            assert(more@.map_values(|f: HeaderFilterAction| f.model()).subrange(0, i as int + 1)
                =~= more@.map_values(|f: HeaderFilterAction| f.model()).subrange(0, i as int).push(
                more@[i as int].model(),
            ));
        }
        out.push(cl);
        proof {
            assert(out@.map_values(|f: HeaderFilterAction| f.model()) =~= pre.push(
                out@.last().model(),
            ));
        }
        i += 1;
    }
    proof {
        assert(more@.map_values(|f: HeaderFilterAction| f.model()).subrange(
            0,
            more@.len() as int,
        ) =~= more@.map_values(|f: HeaderFilterAction| f.model()));
    }
}

fn append_body_filter_actions(out: &mut Vec<BodyFilterAction>, more: Vec<BodyFilterAction>)
    ensures
        final(out)@.map_values(|f: BodyFilterAction| f.model()) =~= old(out)@.map_values(
            |f: BodyFilterAction| f.model(),
        ) + more@.map_values(|f: BodyFilterAction| f.model()),
{
    let mut i: usize = 0;
    let ghost base = out@.map_values(|f: BodyFilterAction| f.model());
    while i < more.len()
        invariant
            0 <= i <= more@.len(),
            out@.map_values(|f: BodyFilterAction| f.model()) =~= base + more@.map_values(
                |f: BodyFilterAction| f.model(),
            ).subrange(0, i as int),
        decreases more@.len() - i,
    {
        let ghost pre = out@.map_values(|f: BodyFilterAction| f.model());
        let cl = more[i].clone();
        proof {
            assert(cl.model() == more@[i as int].model());
            assert(more@.map_values(|f: BodyFilterAction| f.model()).subrange(0, i as int + 1)
                =~= more@.map_values(|f: BodyFilterAction| f.model()).subrange(0, i as int).push(
                more@[i as int].model(),
            ));
        }
        out.push(cl);
        proof {
            assert(out@.map_values(|f: BodyFilterAction| f.model()) =~= pre.push(
                out@.last().model(),
            ));
        }
        i += 1;
    }
    proof {
        assert(more@.map_values(|f: BodyFilterAction| f.model()).subrange(
            0,
            more@.len() as int,
        ) =~= more@.map_values(|f: BodyFilterAction| f.model()));
    }
}

fn append_ids(out: &mut Vec<Vec<u8>>, more: Vec<Vec<u8>>)
    ensures
        final(out).deep_view() =~= old(out).deep_view() + more.deep_view(),
{
    let mut i: usize = 0;
    let ghost base = out.deep_view();
    while i < more.len()
        invariant
            0 <= i <= more@.len(),
            out.deep_view() =~= base + more.deep_view().subrange(0, i as int),
        decreases more@.len() - i,
    {
        let ghost pre = out.deep_view();
        let cl = more[i].clone();
        proof {
            assert(more.deep_view()[i as int] == more@[i as int]@);
            assert(more.deep_view().subrange(0, i as int + 1) =~= more.deep_view().subrange(
                0,
                i as int,
            ).push(more.deep_view()[i as int]));
        }
        out.push(cl);
        proof {
            assert(out.deep_view() =~= pre.push(out@.last()@));
        }
        i += 1;
    }
    proof {
        assert(more.deep_view().subrange(0, more.deep_view().len() as int) =~= more.deep_view());
    }
}

/// The first capture of this name, when one exists.
pub open spec fn lookup_capture(caps: Seq<(Seq<u8>, Seq<u8>)>, name: Seq<u8>) -> Option<Seq<u8>>
    decreases caps.len(),
{
    if caps.len() == 0 {
        Option::None
    } else if caps[0].0 == name {
        Option::Some(caps[0].1)
    } else {
        lookup_capture(caps.drop_first(), name)
    }
}

/// The template with each `{name}` marker replaced by the capture of that
/// name; markers without a capture stay as they stand.
pub open spec fn replace_markers(t: Seq<u8>, caps: Seq<(Seq<u8>, Seq<u8>)>) -> Seq<u8>
    decreases t.len(),
{
    if t.len() == 0 {
        Seq::empty()
    } else if t[0] == 123 {
        let e = find_byte(t, 125);
        if 0 < e && e < t.len() {
            let name = t.subrange(1, e);
            let rest = replace_markers(t.subrange(e + 1, t.len() as int), caps);
            match lookup_capture(caps, name) {
                Option::Some(v) => v + rest,
                Option::None => t.subrange(0, e + 1) + rest,
            }
        } else {
            seq![t[0]] + replace_markers(t.drop_first(), caps)
        }
    } else {
        seq![t[0]] + replace_markers(t.drop_first(), caps)
    }
}

/// Finds the first capture of this name.
fn lookup_capture_exec(caps: &Vec<(Vec<u8>, Vec<u8>)>, name: &[u8]) -> (r: Option<Vec<u8>>)
    ensures
        r is Some <==> lookup_capture(caps.deep_view(), name@) is Some,
        r is Some ==> (r->Some_0)@ == lookup_capture(caps.deep_view(), name@)->Some_0,
{
    let mut i: usize = 0;
    proof {
        assert(caps.deep_view().subrange(0, caps.deep_view().len() as int) =~= caps.deep_view());
    }
    while i < caps.len()
        invariant
            0 <= i <= caps@.len(),
            caps.deep_view().len() == caps@.len(),
            lookup_capture(caps.deep_view(), name@) == lookup_capture(
                caps.deep_view().subrange(i as int, caps.deep_view().len() as int),
                name@,
            ),
        decreases caps@.len() - i,
    {
        let ghost rest = caps.deep_view().subrange(i as int, caps.deep_view().len() as int);
        proof {
            assert(rest[0] == caps.deep_view()[i as int]);
            assert(caps.deep_view()[i as int] == (caps@[i as int].0@, caps@[i as int].1@));
            assert(rest.drop_first() =~= caps.deep_view().subrange(
                i as int + 1,
                caps.deep_view().len() as int,
            ));
        }
        if bytes_eq(caps[i].0.as_slice(), name) {
            return Option::Some(caps[i].1.clone());
        }
        i += 1;
    }
    proof {
        assert(caps.deep_view().subrange(
            caps.deep_view().len() as int,
            caps.deep_view().len() as int,
        ) =~= Seq::<(Seq<u8>, Seq<u8>)>::empty());
    }
    Option::None
}

/// Renders a template against the captures.
#[verifier::loop_isolation(false)]
pub fn replace_markers_exec(t: &[u8], caps: &Vec<(Vec<u8>, Vec<u8>)>) -> (r: Vec<u8>)
    ensures
        r@ == replace_markers(t@, caps.deep_view()),
{
    let mut out: Vec<u8> = Vec::new();
    let mut i: usize = 0;
    proof {
        assert(t@.subrange(0, t@.len() as int) =~= t@);
        assert(replace_markers(t@, caps.deep_view()) =~= Seq::<u8>::empty() + replace_markers(
            t@,
            caps.deep_view(),
        ));
    }
    while i < t.len()
        invariant
            0 <= i <= t@.len(),
            replace_markers(t@, caps.deep_view()) == out@ + replace_markers(
                t@.subrange(i as int, t@.len() as int),
                caps.deep_view(),
            ),
        decreases t@.len() - i,
    {
        let ghost rest = t@.subrange(i as int, t@.len() as int);
        let b = t[i];
        proof {
            assert(rest[0] == b);
            assert(rest.drop_first() =~= t@.subrange(i as int + 1, t@.len() as int));
        }
        if b == 123 {
            let e_rel = find_byte_exec(crate::canon::slice_from(t, i), 125);
            proof {
                crate::canon::lemma_find_byte(rest, 125);
            }
            if 0 < e_rel && e_rel < t.len() - i {
                let name = crate::canon::copy_range(t, i + 1, i + e_rel);
                proof {
                    assert(name@ =~= rest.subrange(1, e_rel as int));
                    assert(rest.subrange(e_rel as int + 1, rest.len() as int) =~= t@.subrange(
                        i as int + e_rel + 1,
                        t@.len() as int,
                    ));
                }
                match lookup_capture_exec(caps, name.as_slice()) {
                    Option::Some(v) => {
                        crate::canon::append_vec(&mut out, v);
                    },
                    Option::None => {
                        let lit = crate::canon::copy_range(t, i, i + e_rel + 1);
                        proof {
                            assert(lit@ =~= rest.subrange(0, e_rel as int + 1));
                        }
                        crate::canon::append_vec(&mut out, lit);
                    },
                }
                i = i + e_rel + 1;
            } else {
                out.push(b);
                i += 1;
            }
        } else {
            out.push(b);
            i += 1;
        }
    }
    proof {
        assert(t@.subrange(t@.len() as int, t@.len() as int) =~= Seq::<u8>::empty());
        assert(out@ =~= out@ + Seq::<u8>::empty());
    }
    out
}

/// The captures a route takes from a request: named groups of the path
/// pattern against the canonical key, then of the host pattern against the
/// host.
pub open spec fn captures_of(m: RouteModel, req: RequestModel) -> Seq<(Seq<u8>, Seq<u8>)> {
    let canon = canonical_path(req.path_and_query);
    let path_caps: Seq<(Seq<u8>, Seq<u8>)> = match m.path {
        PatternModel::Dynamic(r) => if regex_accepts(r, canon) {
            regex_captures_model(r, canon)
        } else {
            Seq::empty()
        },
        PatternModel::Static(_) => Seq::empty(),
    };
    let host_caps: Seq<(Seq<u8>, Seq<u8>)> = match (m.host, req.host) {
        (Option::Some(PatternModel::Dynamic(r)), Option::Some(h)) => if regex_accepts(r, h) {
            regex_captures_model(r, h)
        } else {
            Seq::empty()
        },
        _ => Seq::empty(),
    };
    path_caps + host_caps
}

/// The per-route action: the redirect as a status update, the rendered
/// target as a Location header filter, then the declared filters.
pub open spec fn action_of_route(m: RouteModel, req: RequestModel) -> ActionModel {
    let rule = m.handler;
    let status = match rule.redirect_code {
        Option::None => Option::<StatusCodeUpdate>::None,
        Option::Some(c) => if c == 0 {
            Option::<StatusCodeUpdate>::None
        } else {
            Option::Some(
                StatusCodeUpdate {
                    status_code: c,
                    on_response_status_code: or_zero(rule.match_on_response_status),
                    fallback_status_code: 0,
                },
            )
        },
    };
    let location: Seq<HeaderFilterActionModel> = match rule.target {
        Option::Some(t) => if t.len() > 0 {
            seq![
                HeaderFilterActionModel {
                    filter: HeaderFilterModel {
                        action: spec_override(),
                        header: spec_location(),
                        value: replace_markers(t, captures_of(m, req)),
                    },
                    on_response_status_code: location_on_status(rule),
                },
            ]
        } else {
            Seq::empty()
        },
        Option::None => Seq::empty(),
    };
    ActionModel {
        status_code_update: status,
        header_filters: location + rule.header_filters.map_values(
            |f: HeaderFilterModel|
                HeaderFilterActionModel {
                    filter: f,
                    on_response_status_code: or_zero(rule.match_on_response_status),
                },
        ),
        body_filters: rule.body_filters.map_values(
            |f: BodyFilterModel|
                BodyFilterActionModel {
                    filter: f,
                    on_response_status_code: or_zero(rule.match_on_response_status),
                },
        ),
        rule_ids: seq![rule.id],
    }
}

pub open spec fn or_zero(v: Option<u16>) -> u16 {
    match v {
        Option::None => 0u16,
        Option::Some(x) => x,
    }
}

/// The status the Location filter applies on: the redirect code when both
/// are set, else the matched response status, else zero.
pub open spec fn location_on_status(rule: RuleModel) -> u16 {
    match rule.match_on_response_status {
        Option::None => 0u16,
        Option::Some(on) => match rule.redirect_code {
            Option::None => on,
            Option::Some(rc) => rc,
        },
    }
}

/// The bytes of "override".
pub open spec fn spec_override() -> Seq<u8> {
    seq![111u8, 118u8, 101u8, 114u8, 114u8, 105u8, 100u8, 101u8]
}

/// The bytes of "Location".
pub open spec fn spec_location() -> Seq<u8> {
    seq![76u8, 111u8, 99u8, 97u8, 116u8, 105u8, 111u8, 110u8]
}

impl Action {
    /// Builds the action one matched route asks for.
    pub fn from_route_rule(route: &Route, request: &Request) -> (r: Action)
        ensures
            r.model() == action_of_route(route.model(), request.model()),
    {
        let rule = &route.handler;
        let status_code_update = match rule.redirect_code {
            Option::None => Option::None,
            Option::Some(c) => {
                if c == 0 {
                    Option::None
                } else {
                    let on = match rule.match_on_response_status {
                        Option::None => 0,
                        Option::Some(x) => x,
                    };
                    Option::Some(
                        StatusCodeUpdate {
                            status_code: c,
                            on_response_status_code: on,
                            fallback_status_code: 0,
                        },
                    )
                }
            },
        };
        let mut header_filters: Vec<HeaderFilterAction> = Vec::new();
        let mut body_filters: Vec<BodyFilterAction> = Vec::new();
        match &rule.target {
            Option::Some(t) => {
                if t.len() > 0 {
                    let caps = Self::collect_captures(route, request);
                    let value = replace_markers_exec(t.as_slice(), &caps);
                    let on = match rule.match_on_response_status {
                        Option::None => 0,
                        Option::Some(on) => match rule.redirect_code {
                            Option::None => on,
                            Option::Some(rc) => rc,
                        },
                    };
                    let mut action_name: Vec<u8> = Vec::new();
                    action_name.push(111);
                    action_name.push(118);
                    action_name.push(101);
                    action_name.push(114);
                    action_name.push(114);
                    action_name.push(105);
                    action_name.push(100);
                    action_name.push(101);
                    let mut header_name: Vec<u8> = Vec::new();
                    header_name.push(76);
                    header_name.push(111);
                    header_name.push(99);
                    header_name.push(97);
                    header_name.push(116);
                    header_name.push(105);
                    header_name.push(111);
                    header_name.push(110);
                    proof {
                        assert(action_name@ =~= spec_override());
                        assert(header_name@ =~= spec_location());
                    }
                    header_filters.push(
                        HeaderFilterAction {
                            filter: HeaderFilter {
                                action: action_name,
                                header: header_name,
                                value,
                            },
                            on_response_status_code: on,
                        },
                    );
                }
            },
            Option::None => {},
        }
        let ghost loc_part = header_filters@.map_values(|f: HeaderFilterAction| f.model());
        let on_declared = match rule.match_on_response_status {
            Option::None => 0,
            Option::Some(x) => x,
        };
        let mut i: usize = 0;
        while i < rule.header_filters.len()
            invariant
                0 <= i <= rule.header_filters@.len(),
                on_declared == or_zero(rule.model().match_on_response_status),
                header_filters@.map_values(|f: HeaderFilterAction| f.model()) =~= loc_part
                    + rule.model().header_filters.subrange(0, i as int).map_values(
                    |f: HeaderFilterModel|
                        HeaderFilterActionModel {
                            filter: f,
                            on_response_status_code: or_zero(
                                rule.model().match_on_response_status,
                            ),
                        },
                ),
            decreases rule.header_filters@.len() - i,
        {
            proof {
                assert(rule.model().header_filters.subrange(0, i as int + 1)
                    =~= rule.model().header_filters.subrange(0, i as int).push(
                    rule.model().header_filters[i as int],
                ));
                assert(rule.model().header_filters[i as int] == rule.header_filters@[i as int]
                    .model());
            }
            let ghost pre = header_filters@.map_values(|f: HeaderFilterAction| f.model());
            let clf = rule.header_filters[i].clone();
            proof {
                assert(clf.model() == rule.header_filters@[i as int].model());
            }
            header_filters.push(
                HeaderFilterAction { filter: clf, on_response_status_code: on_declared },
            );
            proof {
                assert(header_filters@.map_values(|f: HeaderFilterAction| f.model()) =~= pre.push(
                    header_filters@.last().model(),
                ));
            }
            i += 1;
        }
        proof {
            assert(rule.model().header_filters.subrange(
                0,
                rule.model().header_filters.len() as int,
            ) =~= rule.model().header_filters);
        }
        let mut i: usize = 0;
        while i < rule.body_filters.len()
            invariant
                0 <= i <= rule.body_filters@.len(),
                on_declared == or_zero(rule.model().match_on_response_status),
                body_filters@.map_values(|f: BodyFilterAction| f.model()) =~= rule.model()
                    .body_filters.subrange(0, i as int).map_values(
                    |f: BodyFilterModel|
                        BodyFilterActionModel {
                            filter: f,
                            on_response_status_code: or_zero(
                                rule.model().match_on_response_status,
                            ),
                        },
                ),
            decreases rule.body_filters@.len() - i,
        {
            proof {
                assert(rule.model().body_filters.subrange(0, i as int + 1) =~= rule.model()
                    .body_filters.subrange(0, i as int).push(
                    rule.model().body_filters[i as int],
                ));
                assert(rule.model().body_filters[i as int] == rule.body_filters@[i as int]
                    .model());
            }
            let ghost pre = body_filters@.map_values(|f: BodyFilterAction| f.model());
            let clf = rule.body_filters[i].clone();
            proof {
                assert(clf.model() == rule.body_filters@[i as int].model());
            }
            body_filters.push(
                BodyFilterAction { filter: clf, on_response_status_code: on_declared },
            );
            proof {
                assert(body_filters@.map_values(|f: BodyFilterAction| f.model()) =~= pre.push(
                    body_filters@.last().model(),
                ));
            }
            i += 1;
        }
        proof {
            assert(rule.model().body_filters.subrange(0, rule.model().body_filters.len() as int)
                =~= rule.model().body_filters);
        }
        let mut rule_ids: Vec<Vec<u8>> = Vec::new();
        rule_ids.push(rule.id.clone());
        proof {
            assert(rule_ids.deep_view().len() == 1);
            assert(rule_ids.deep_view()[0] == rule_ids@[0]@);
            assert(rule_ids.deep_view() =~= seq![rule.model().id]);
        }
        let r = Action { status_code_update, header_filters, body_filters, rule_ids };
        proof {
            assert(r.model().rule_ids =~= action_of_route(route.model(), request.model())
                .rule_ids);
            assert(r.model().header_filters =~= action_of_route(route.model(), request.model())
                .header_filters);
            assert(r.model().body_filters =~= action_of_route(route.model(), request.model())
                .body_filters);
        }
        r
    }

    /// The named captures of the route's patterns against the request.
    fn collect_captures(route: &Route, request: &Request) -> (r: Vec<(Vec<u8>, Vec<u8>)>)
        ensures
            r.deep_view() == captures_of(route.model(), request.model()),
    {
        let ghost m = route.model();
        let ghost req = request.model();
        let key = request.canonical_key();
        let mut caps: Vec<(Vec<u8>, Vec<u8>)> = Vec::new();
        proof {
            assert(caps.deep_view() =~= Seq::<(Seq<u8>, Seq<u8>)>::empty());
        }
        match &route.path_and_query {
            StaticOrDynamic::Dynamic(p) => {
                match regex_named_captures(p.as_slice(), key.as_slice()) {
                    Option::Some(found) => {
                        caps = found;
                    },
                    Option::None => {},
                }
            },
            StaticOrDynamic::Static(_) => {},
        }
        let ghost path_caps = caps.deep_view();
        match (&route.host, &request.host) {
            (Option::Some(StaticOrDynamic::Dynamic(hr)), Option::Some(h)) => {
                match regex_named_captures(hr.as_slice(), h.as_slice()) {
                    Option::Some(found) => {
                        let mut j: usize = 0;
                        while j < found.len()
                            invariant
                                0 <= j <= found@.len(),
                                caps.deep_view() =~= path_caps + found.deep_view().subrange(
                                    0,
                                    j as int,
                                ),
                            decreases found@.len() - j,
                        {
                            proof {
                                assert(found.deep_view()[j as int] == (
                                    found@[j as int].0@,
                                    found@[j as int].1@,
                                ));
                            }
                            let pair = (found[j].0.clone(), found[j].1.clone());
                            let ghost dpre = caps.deep_view();
                            caps.push(pair);
                            proof {
                                assert(caps.deep_view() =~= dpre.push(
                                    found.deep_view()[j as int],
                                ));
                                assert(path_caps + found.deep_view().subrange(0, j as int + 1)
                                    =~= (path_caps + found.deep_view().subrange(0, j as int))
                                    .push(found.deep_view()[j as int]));
                            }
                            j += 1;
                        }
                        proof {
                            assert(found.deep_view().subrange(0, found.deep_view().len() as int)
                                =~= found.deep_view());
                        }
                    },
                    Option::None => {
                        proof {
                            assert(caps.deep_view() =~= path_caps + Seq::<
                                (Seq<u8>, Seq<u8>),
                            >::empty());
                        }
                    },
                }
            },
            _ => {
                proof {
                    assert(caps.deep_view() =~= path_caps + Seq::<(Seq<u8>, Seq<u8>)>::empty());
                }
            },
        }
        caps
    }
}

/// The composition order: higher priority first, ties by identifier.
pub open spec fn route_leq(a: RouteModel, b: RouteModel) -> bool {
    a.priority > b.priority || (a.priority == b.priority && lex_leq(a.id, b.id))
}

/// Stable insertion into a sorted route sequence.
pub open spec fn insert_route_sorted(ms: Seq<RouteModel>, m: RouteModel) -> Seq<RouteModel>
    decreases ms.len(),
{
    if ms.len() == 0 {
        seq![m]
    } else if route_leq(ms[0], m) {
        seq![ms[0]] + insert_route_sorted(ms.drop_first(), m)
    } else {
        seq![m] + ms
    }
}

/// Stable sort of routes, highest priority first, ties by identifier.
pub open spec fn sort_routes(ms: Seq<RouteModel>) -> Seq<RouteModel>
    decreases ms.len(),
{
    if ms.len() == 0 {
        Seq::empty()
    } else {
        insert_route_sorted(sort_routes(ms.drop_last()), ms.last())
    }
}

pub proof fn lemma_insert_route_sorted_len(ms: Seq<RouteModel>, m: RouteModel)
    ensures
        insert_route_sorted(ms, m).len() == ms.len() + 1,
    decreases ms.len(),
{
    if ms.len() > 0 && route_leq(ms[0], m) {
        lemma_insert_route_sorted_len(ms.drop_first(), m);
    }
}

pub proof fn lemma_sort_routes_len(ms: Seq<RouteModel>)
    ensures
        sort_routes(ms).len() == ms.len(),
    decreases ms.len(),
{
    if ms.len() > 0 {
        lemma_sort_routes_len(ms.drop_last());
        lemma_insert_route_sorted_len(sort_routes(ms.drop_last()), ms.last());
    }
}

/// The actions of the routes, in order, merged left to right.
pub open spec fn compose_actions(ms: Seq<RouteModel>, req: RequestModel) -> ActionModel
    decreases ms.len(),
{
    if ms.len() == 0 {
        empty_action()
    } else {
        merge_model(compose_actions(ms.drop_last(), req), action_of_route(ms.last(), req))
    }
}

/// Decides the composition order of two routes.
fn route_leq_exec(a: &Route, b: &Route) -> (r: bool)
    ensures
        r == route_leq(a.model(), b.model()),
{
    if a.priority > b.priority {
        true
    } else if a.priority < b.priority {
        false
    } else {
        crate::canon::lex_leq_exec(a.id.as_slice(), b.id.as_slice())
    }
}

proof fn lemma_insert_route_at(ms: Seq<RouteModel>, m: RouteModel, k: int)
    requires
        0 <= k <= ms.len(),
        forall|j: int| 0 <= j < k ==> route_leq(#[trigger] ms[j], m),
        k < ms.len() ==> !route_leq(ms[k], m),
    ensures
        insert_route_sorted(ms, m) == ms.insert(k, m),
    decreases ms.len(),
{
    if ms.len() == 0 {
        assert(ms.insert(0, m) =~= seq![m]);
    } else if k == 0 {
        assert(ms.insert(0, m) =~= seq![m] + ms);
    } else {
        lemma_insert_route_at(ms.drop_first(), m, k - 1);
        assert forall|j: int| 0 <= j < k - 1 implies route_leq(
            #[trigger] ms.drop_first()[j],
            m,
        ) by {
            assert(ms.drop_first()[j] == ms[j + 1]);
        }
        assert(k - 1 < ms.drop_first().len() ==> !route_leq(ms.drop_first()[k - 1], m));
        assert(insert_route_sorted(ms, m) == seq![ms[0]] + insert_route_sorted(
            ms.drop_first(),
            m,
        ));
        assert(ms.insert(k, m) =~= seq![ms[0]] + ms.drop_first().insert(k - 1, m));
    }
}

/// Sorts routes for composition: highest priority first, ties by
/// identifier, kept stable.
#[verifier::loop_isolation(false)]
pub fn sort_routes_exec(routes: Vec<Route>) -> (r: Vec<Route>)
    ensures
        models_of(r@) == sort_routes(models_of(routes@)),
{
    let ghost all = models_of(routes@);
    let mut out: Vec<Route> = Vec::new();
    let mut i: usize = 0;
    proof {
        assert(all.subrange(0, 0) =~= Seq::<RouteModel>::empty());
    }
    while i < routes.len()
        invariant
            0 <= i <= routes@.len(),
            all.len() == routes@.len(),
            models_of(out@) == sort_routes(all.subrange(0, i as int)),
        decreases routes@.len() - i,
    {
        let ghost pre = all.subrange(0, i as int);
        let rt = routes[i].clone();
        proof {
            assert(rt.model() == all[i as int]);
            assert(all.subrange(0, i as int + 1) =~= pre.push(all[i as int]));
            assert(pre.push(all[i as int]).drop_last() =~= pre);
            assert(pre.push(all[i as int]).last() == all[i as int]);
        }
        let mut k: usize = 0;
        while k < out.len() && route_leq_exec(&out[k], &rt)
            invariant
                0 <= k <= out@.len(),
                rt.model() == all[i as int],
                forall|j: int|
                    0 <= j < k ==> route_leq((#[trigger] out@[j]).model(), all[i as int]),
            decreases out@.len() - k,
        {
            proof {
                assert(models_of(out@)[k as int] == out@[k as int].model());
            }
            k += 1;
        }
        proof {
            if k < out@.len() {
                assert(models_of(out@)[k as int] == out@[k as int].model());
            }
            let ghost outm = models_of(out@);
            assert forall|j: int| 0 <= j < k implies route_leq(
                #[trigger] outm[j],
                all[i as int],
            ) by {
                assert(outm[j] == out@[j].model());
            }
            lemma_insert_route_at(models_of(out@), all[i as int], k as int);
        }
        let ghost pre_out = models_of(out@);
        out.insert(k, rt);
        proof {
            assert(models_of(out@) =~= pre_out.insert(k as int, all[i as int]));
        }
        i += 1;
    }
    proof {
        assert(all.subrange(0, all.len() as int) =~= all);
    }
    out
}

impl Action {
    /// Sorts the routes, highest priority first and ties by identifier, and
    /// merges their actions in that order.
    #[verifier::loop_isolation(false)]
    pub fn from_routes_rule(routes: Vec<Route>, request: &Request) -> (r: Action)
        ensures
            r.model() == compose_actions(sort_routes(models_of(routes@)), request.model()),
    {
        let ghost req = request.model();
        let ghost sorted_spec = sort_routes(models_of(routes@));
        let sorted = sort_routes_exec(routes);
        let mut action = Action::new();
        let mut i: usize = 0;
        proof {
            assert(sorted_spec.subrange(0, 0) =~= Seq::<RouteModel>::empty());
        }
        while i < sorted.len()
            invariant
                0 <= i <= sorted@.len(),
                models_of(sorted@) == sorted_spec,
                sorted_spec.len() == sorted@.len(),
                action.model() == compose_actions(sorted_spec.subrange(0, i as int), req),
            decreases sorted@.len() - i,
        {
            let ghost pre = sorted_spec.subrange(0, i as int);
            proof {
                assert(models_of(sorted@)[i as int] == sorted@[i as int].model());
                assert(sorted@[i as int].model() == sorted_spec[i as int]);
                assert(sorted_spec.subrange(0, i as int + 1) =~= pre.push(sorted_spec[i as int]));
                assert(pre.push(sorted_spec[i as int]).drop_last() =~= pre);
            }
            let one = Action::from_route_rule(&sorted[i], request);
            action.merge(one);
            i += 1;
        }
        proof {
            assert(sorted_spec.subrange(0, sorted_spec.len() as int) =~= sorted_spec);
        }
        action
    }
}

/// The header filters that speak for this response status.
pub open spec fn applicable_header_filters(
    fs: Seq<HeaderFilterActionModel>,
    response: u16,
) -> Seq<HeaderFilterModel>
    decreases fs.len(),
{
    if fs.len() == 0 {
        Seq::empty()
    } else {
        let rest = applicable_header_filters(fs.drop_last(), response);
        if fs.last().on_response_status_code == 0 || fs.last().on_response_status_code
            == response {
            rest.push(fs.last().filter)
        } else {
            rest
        }
    }
}

/// The body filters that speak for this response status.
pub open spec fn applicable_body_filters(
    fs: Seq<BodyFilterActionModel>,
    response: u16,
) -> Seq<BodyFilterModel>
    decreases fs.len(),
{
    if fs.len() == 0 {
        Seq::empty()
    } else {
        let rest = applicable_body_filters(fs.drop_last(), response);
        if fs.last().on_response_status_code == 0 || fs.last().on_response_status_code
            == response {
            rest.push(fs.last().filter)
        } else {
            rest
        }
    }
}

/// The headers left after one filter: `override` replaces the named header,
/// `add` appends it, `remove` deletes it; names compare lowercased, and any
/// other verb leaves the headers alone.
pub open spec fn apply_one_filter(
    f: HeaderFilterModel,
    hs: Seq<(Seq<u8>, Seq<u8>)>,
) -> Seq<(Seq<u8>, Seq<u8>)> {
    let lname = ascii_lower(f.header);
    if f.action == spec_override() {
        hs.filter(|h: (Seq<u8>, Seq<u8>)| ascii_lower(h.0) != lname).push((f.header, f.value))
    } else if f.action == spec_add() {
        hs.push((f.header, f.value))
    } else if f.action == spec_remove() {
        hs.filter(|h: (Seq<u8>, Seq<u8>)| ascii_lower(h.0) != lname)
    } else {
        hs
    }
}

/// The headers left after every filter, applied in order.
pub open spec fn apply_filters(
    fs: Seq<HeaderFilterModel>,
    hs: Seq<(Seq<u8>, Seq<u8>)>,
) -> Seq<(Seq<u8>, Seq<u8>)>
    decreases fs.len(),
{
    if fs.len() == 0 {
        hs
    } else {
        apply_one_filter(fs.last(), apply_filters(fs.drop_last(), hs))
    }
}

/// The bytes of "add".
pub open spec fn spec_add() -> Seq<u8> {
    seq![97u8, 100u8, 100u8]
}

/// The bytes of "remove".
pub open spec fn spec_remove() -> Seq<u8> {
    seq![114u8, 101u8, 109u8, 111u8, 118u8, 101u8]
}

/// The model of a header list.
pub open spec fn headers_model(hs: Seq<Header>) -> Seq<(Seq<u8>, Seq<u8>)> {
    hs.map_values(|h: Header| (h.name@, h.value@))
}

/// Applies response-header filters in declaration order.
pub struct FilterHeaderAction {
    filters: Vec<HeaderFilter>,
}

impl FilterHeaderAction {
    /// The filters held, in application order.
    pub closed spec fn filters_model(self) -> Seq<HeaderFilterModel> {
        self.filters@.map_values(|f: HeaderFilter| f.model())
    }

    /// Wraps a non-empty filter list; None when there is nothing to do.
    pub fn new(filters: Vec<HeaderFilter>) -> (r: Option<FilterHeaderAction>)
        ensures
            (r is Some) == (filters@.len() > 0),
            r is Some ==> (r->Some_0).filters_model() == filters@.map_values(
                |f: HeaderFilter| f.model(),
            ),
    {
        if filters.len() == 0 {
            Option::None
        } else {
            Option::Some(FilterHeaderAction { filters })
        }
    }

    /// Applies every filter, in order, to the headers.
    #[verifier::loop_isolation(false)]
    pub fn filter(&self, headers: Vec<Header>) -> (r: Vec<Header>)
        ensures
            headers_model(r@) == apply_filters(self.filters_model(), headers_model(headers@)),
    {
        let mut hs = headers;
        let mut i: usize = 0;
        proof {
            assert(self.filters_model().subrange(0, 0) =~= Seq::<HeaderFilterModel>::empty());
        }
        while i < self.filters.len()
            invariant
                0 <= i <= self.filters@.len(),
                headers_model(hs@) == apply_filters(
                    self.filters_model().subrange(0, i as int),
                    headers_model(headers@),
                ),
            decreases self.filters@.len() - i,
        {
            let ghost pre = self.filters_model().subrange(0, i as int);
            proof {
                assert(self.filters_model()[i as int] == self.filters@[i as int].model());
                assert(self.filters_model().subrange(0, i as int + 1) =~= pre.push(
                    self.filters_model()[i as int],
                ));
                assert(pre.push(self.filters_model()[i as int]).drop_last() =~= pre);
            }
            hs = apply_one_filter_exec(&self.filters[i], hs);
            i += 1;
        }
        proof {
            assert(self.filters_model().subrange(0, self.filters_model().len() as int)
                =~= self.filters_model());
        }
        hs
    }
}

/// Applies one header filter.
#[verifier::loop_isolation(false)]
fn apply_one_filter_exec(f: &HeaderFilter, hs: Vec<Header>) -> (r: Vec<Header>)
    ensures
        headers_model(r@) == apply_one_filter(f.model(), headers_model(hs@)),
{
    let lname = to_ascii_lower(f.header.as_slice());
    let is_override = is_override_action(f.action.as_slice());
    let is_add = is_add_action(f.action.as_slice());
    let is_remove = is_remove_action(f.action.as_slice());
    if is_override || is_remove {
        let mut kept: Vec<Header> = Vec::new();
        let mut i: usize = 0;
        proof {
            assert(headers_model(hs@).subrange(0, 0) =~= Seq::<(Seq<u8>, Seq<u8>)>::empty());
            assert(headers_model(hs@).subrange(0, 0).filter(
                |h: (Seq<u8>, Seq<u8>)| ascii_lower(h.0) != lname@,
            ) =~= Seq::<(Seq<u8>, Seq<u8>)>::empty());
            assert(headers_model(kept@) =~= Seq::<(Seq<u8>, Seq<u8>)>::empty());
        }
        while i < hs.len()
            invariant
                0 <= i <= hs@.len(),
                lname@ == ascii_lower(f.model().header),
                headers_model(kept@) =~= headers_model(hs@).subrange(0, i as int).filter(
                    |h: (Seq<u8>, Seq<u8>)| ascii_lower(h.0) != lname@,
                ),
            decreases hs@.len() - i,
        {
            let ghost pre = headers_model(hs@).subrange(0, i as int);
            let ghost hmodel = headers_model(hs@)[i as int];
            proof {
                assert(hmodel == (hs@[i as int].name@, hs@[i as int].value@));
                assert(headers_model(hs@).subrange(0, i as int + 1) =~= pre.push(hmodel));
                lemma_seq_filter_push(
                    pre,
                    hmodel,
                    |h: (Seq<u8>, Seq<u8>)| ascii_lower(h.0) != lname@,
                );
            }
            let hl = to_ascii_lower(hs[i].name.as_slice());
            if !bytes_eq(hl.as_slice(), lname.as_slice()) {
                let ghost kpre = headers_model(kept@);
                kept.push(hs[i].clone());
                proof {
                    assert(headers_model(kept@) =~= kpre.push(hmodel));
                }
            }
            i += 1;
        }
        proof {
            assert(headers_model(hs@).subrange(0, hs@.len() as int) =~= headers_model(hs@));
        }
        if is_override {
            let ghost kpre = headers_model(kept@);
            kept.push(Header { name: f.header.clone(), value: f.value.clone() });
            proof {
                assert(headers_model(kept@) =~= kpre.push((f.model().header, f.model().value)));
            }
            kept
        } else {
            kept
        }
    } else if is_add {
        let mut hs = hs;
        let ghost pre = headers_model(hs@);
        hs.push(Header { name: f.header.clone(), value: f.value.clone() });
        proof {
            assert(headers_model(hs@) =~= pre.push((f.model().header, f.model().value)));
        }
        hs
    } else {
        hs
    }
}

proof fn lemma_seq_filter_push(
    s: Seq<(Seq<u8>, Seq<u8>)>,
    x: (Seq<u8>, Seq<u8>),
    p: spec_fn((Seq<u8>, Seq<u8>)) -> bool,
)
    ensures
        p(x) ==> s.push(x).filter(p) == s.filter(p).push(x),
        !p(x) ==> s.push(x).filter(p) == s.filter(p),
{
    reveal(Seq::filter);
    assert(s.push(x).drop_last() =~= s);
    assert(s.push(x).last() == x);
}

fn is_override_action(a: &[u8]) -> (r: bool)
    ensures
        r == (a@ == spec_override()),
{
    let mut pat: Vec<u8> = Vec::new();
    pat.push(111);
    pat.push(118);
    pat.push(101);
    pat.push(114);
    pat.push(114);
    pat.push(105);
    pat.push(100);
    pat.push(101);
    proof {
        assert(pat@ =~= spec_override());
    }
    bytes_eq(a, pat.as_slice())
}

fn is_add_action(a: &[u8]) -> (r: bool)
    ensures
        r == (a@ == spec_add()),
{
    let mut pat: Vec<u8> = Vec::new();
    pat.push(97);
    pat.push(100);
    pat.push(100);
    proof {
        assert(pat@ =~= spec_add());
    }
    bytes_eq(a, pat.as_slice())
}

fn is_remove_action(a: &[u8]) -> (r: bool)
    ensures
        r == (a@ == spec_remove()),
{
    let mut pat: Vec<u8> = Vec::new();
    pat.push(114);
    pat.push(101);
    pat.push(109);
    pat.push(111);
    pat.push(118);
    pat.push(101);
    proof {
        assert(pat@ =~= spec_remove());
    }
    bytes_eq(a, pat.as_slice())
}

/// Holds the body filters that apply to a response; the streaming itself is
/// outside the engine.
pub struct FilterBodyAction {
    filters: Vec<BodyFilter>,
}

impl FilterBodyAction {
    /// The filters held, in application order.
    pub closed spec fn filters_model(self) -> Seq<BodyFilterModel> {
        self.filters@.map_values(|f: BodyFilter| f.model())
    }

    /// Wraps a non-empty filter list; None when there is nothing to do.
    pub fn new(filters: Vec<BodyFilter>) -> (r: Option<FilterBodyAction>)
        ensures
            (r is Some) == (filters@.len() > 0),
            r is Some ==> (r->Some_0).filters_model() == filters@.map_values(
                |f: BodyFilter| f.model(),
            ),
    {
        if filters.len() == 0 {
            Option::None
        } else {
            Option::Some(FilterBodyAction { filters })
        }
    }

    /// How many filters will run.
    pub fn len(&self) -> (r: usize)
        ensures
            r == self.filters_model().len(),
    {
        self.filters.len()
    }
}

impl Action {
    /// Filters the response headers with every declared filter that speaks
    /// for this status; with no applicable filter nothing is returned.
    #[verifier::loop_isolation(false)]
    pub fn filter_headers(&self, headers: Vec<Header>, response_status_code: u16) -> (r: Vec<
        Header,
    >)
        ensures
            headers_model(r@) == (if applicable_header_filters(
                self.model().header_filters,
                response_status_code,
            ).len() == 0 {
                Seq::<(Seq<u8>, Seq<u8>)>::empty()
            } else {
                apply_filters(
                    applicable_header_filters(
                        self.model().header_filters,
                        response_status_code,
                    ),
                    headers_model(headers@),
                )
            }),
    {
        let mut applicable: Vec<HeaderFilter> = Vec::new();
        let mut i: usize = 0;
        proof {
            assert(self.model().header_filters.subrange(0, 0) =~= Seq::<
                HeaderFilterActionModel,
            >::empty());
            assert(applicable@.map_values(|f: HeaderFilter| f.model()) =~= Seq::<
                HeaderFilterModel,
            >::empty());
        }
        while i < self.header_filters.len()
            invariant
                0 <= i <= self.header_filters@.len(),
                applicable@.map_values(|f: HeaderFilter| f.model())
                    == applicable_header_filters(
                    self.model().header_filters.subrange(0, i as int),
                    response_status_code,
                ),
            decreases self.header_filters@.len() - i,
        {
            let ghost pre = self.model().header_filters.subrange(0, i as int);
            proof {
                assert(self.model().header_filters[i as int] == self.header_filters@[i as int]
                    .model());
                assert(self.model().header_filters.subrange(0, i as int + 1) =~= pre.push(
                    self.model().header_filters[i as int],
                ));
                assert(pre.push(self.model().header_filters[i as int]).drop_last() =~= pre);
            }
            let fa = &self.header_filters[i];
            if fa.on_response_status_code == 0 || fa.on_response_status_code
                == response_status_code {
                let ghost apre = applicable@.map_values(|f: HeaderFilter| f.model());
                applicable.push(fa.filter.clone());
                proof {
                    assert(applicable@.map_values(|f: HeaderFilter| f.model()) =~= apre.push(
                        applicable@.last().model(),
                    ));
                }
            }
            i += 1;
        }
        proof {
            assert(self.model().header_filters.subrange(
                0,
                self.model().header_filters.len() as int,
            ) =~= self.model().header_filters);
        }
        match FilterHeaderAction::new(applicable) {
            Option::None => {
                let r: Vec<Header> = Vec::new();
                proof {
                    assert(headers_model(r@) =~= Seq::<(Seq<u8>, Seq<u8>)>::empty());
                }
                r
            },
            Option::Some(fa) => fa.filter(headers),
        }
    }

    /// The body filters speaking for this status, wrapped for the response
    /// pipeline; None when there is nothing to do.
    #[verifier::loop_isolation(false)]
    pub fn create_filter_body(&self, response_status_code: u16) -> (r: Option<FilterBodyAction>)
        ensures
            (r is Some) == (applicable_body_filters(
                self.model().body_filters,
                response_status_code,
            ).len() > 0),
            r is Some ==> (r->Some_0).filters_model() == applicable_body_filters(
                self.model().body_filters,
                response_status_code,
            ),
    {
        let mut applicable: Vec<BodyFilter> = Vec::new();
        let mut i: usize = 0;
        proof {
            assert(self.model().body_filters.subrange(0, 0) =~= Seq::<
                BodyFilterActionModel,
            >::empty());
            assert(applicable@.map_values(|f: BodyFilter| f.model()) =~= Seq::<
                BodyFilterModel,
            >::empty());
        }
        while i < self.body_filters.len()
            invariant
                0 <= i <= self.body_filters@.len(),
                applicable@.map_values(|f: BodyFilter| f.model()) == applicable_body_filters(
                    self.model().body_filters.subrange(0, i as int),
                    response_status_code,
                ),
            decreases self.body_filters@.len() - i,
        {
            let ghost pre = self.model().body_filters.subrange(0, i as int);
            proof {
                assert(self.model().body_filters[i as int] == self.body_filters@[i as int]
                    .model());
                assert(self.model().body_filters.subrange(0, i as int + 1) =~= pre.push(
                    self.model().body_filters[i as int],
                ));
                assert(pre.push(self.model().body_filters[i as int]).drop_last() =~= pre);
            }
            let fa = &self.body_filters[i];
            if fa.on_response_status_code == 0 || fa.on_response_status_code
                == response_status_code {
                let ghost apre = applicable@.map_values(|f: BodyFilter| f.model());
                applicable.push(fa.filter.clone());
                proof {
                    assert(applicable@.map_values(|f: BodyFilter| f.model()) =~= apre.push(
                        applicable@.last().model(),
                    ));
                }
            }
            i += 1;
        }
        proof {
            assert(self.model().body_filters.subrange(0, self.model().body_filters.len() as int)
                =~= self.model().body_filters);
        }
        FilterBodyAction::new(applicable)
    }
}

/// Sortedness of a route sequence under the composition order.
pub open spec fn routes_sorted(ms: Seq<RouteModel>) -> bool {
    forall|i: int, j: int| 0 <= i < j < ms.len() ==> route_leq(#[trigger] ms[i], #[trigger] ms[j])
}

/// No two routes of the list share an identifier.
pub open spec fn ids_distinct(ms: Seq<RouteModel>) -> bool {
    forall|i: int, j: int| 0 <= i < j < ms.len() ==> (#[trigger] ms[i]).id != (#[trigger] ms[j]).id
}

pub proof fn lemma_route_leq_total(a: RouteModel, b: RouteModel)
    ensures
        route_leq(a, b) || route_leq(b, a),
{
    if a.priority == b.priority {
        crate::bytes_util::lemma_lex_leq_total(a.id, b.id);
    }
}

pub proof fn lemma_insert_route_sorted_props(ms: Seq<RouteModel>, m: RouteModel)
    requires
        routes_sorted(ms),
    ensures
        routes_sorted(insert_route_sorted(ms, m)),
        insert_route_sorted(ms, m).to_multiset() == ms.to_multiset().insert(m),
    decreases ms.len(),
{
    broadcast use vstd::seq_lib::group_to_multiset_ensures, vstd::multiset::group_multiset_axioms;

    let r = insert_route_sorted(ms, m);
    if ms.len() == 0 {
        assert(r =~= Seq::<RouteModel>::empty().push(m));
        assert(Seq::<RouteModel>::empty().push(m).to_multiset() =~= ms.to_multiset().insert(m));
    } else if route_leq(ms[0], m) {
        let rest = ms.drop_first();
        assert forall|i: int, j: int| 0 <= i < j < rest.len() implies route_leq(
            #[trigger] rest[i],
            #[trigger] rest[j],
        ) by {
            assert(rest[i] == ms[i + 1] && rest[j] == ms[j + 1]);
        }
        lemma_insert_route_sorted_props(rest, m);
        let ri = insert_route_sorted(rest, m);
        assert(r == seq![ms[0]] + ri);
        assert forall|i: int, j: int| 0 <= i < j < r.len() implies route_leq(
            #[trigger] r[i],
            #[trigger] r[j],
        ) by {
            if i == 0 {
                assert(r[0] == ms[0]);
                assert(r[j] == ri[j - 1]);
                lemma_route_insert_member(rest, m, j - 1);
                if ri[j - 1] == m {
                } else {
                    let w = choose|w: int| 0 <= w < rest.len() && rest[w] == ri[j - 1];
                    assert(route_leq(ms[0], ms[w + 1]));
                }
            } else {
                assert(r[i] == ri[i - 1] && r[j] == ri[j - 1]);
            }
        }
        assert(ms =~= seq![ms[0]] + rest);
        assert(r.to_multiset() =~= ms.to_multiset().insert(m)) by {
            vstd::seq_lib::lemma_multiset_commutative(seq![ms[0]], ri);
            vstd::seq_lib::lemma_multiset_commutative(seq![ms[0]], rest);
            lemma_route_singleton_multiset(ms[0]);
        }
    } else {
        assert(r == seq![m] + ms);
        lemma_route_leq_total(ms[0], m);
        assert(route_leq(m, ms[0]));
        assert forall|i: int, j: int| 0 <= i < j < r.len() implies route_leq(
            #[trigger] r[i],
            #[trigger] r[j],
        ) by {
            if i == 0 {
                assert(r[0] == m && r[j] == ms[j - 1]);
                if j - 1 > 0 {
                    assert(route_leq(ms[0], ms[j - 1]));
                    lemma_route_leq_transitive(m, ms[0], ms[j - 1]);
                }
            } else {
                assert(r[i] == ms[i - 1] && r[j] == ms[j - 1]);
            }
        }
        assert(r.to_multiset() =~= ms.to_multiset().insert(m)) by {
            vstd::seq_lib::lemma_multiset_commutative(seq![m], ms);
            lemma_route_singleton_multiset(m);
        }
    }
}

proof fn lemma_route_singleton_multiset(m: RouteModel)
    ensures
        seq![m].to_multiset() =~= vstd::multiset::Multiset::<RouteModel>::empty().insert(m),
{
    broadcast use vstd::seq_lib::group_to_multiset_ensures, vstd::multiset::group_multiset_axioms;

    assert(seq![m] =~= Seq::<RouteModel>::empty().push(m));
}

proof fn lemma_route_leq_transitive(a: RouteModel, b: RouteModel, c: RouteModel)
    requires
        route_leq(a, b),
        route_leq(b, c),
    ensures
        route_leq(a, c),
{
    if a.priority == b.priority && b.priority == c.priority {
        crate::bytes_util::lemma_lex_leq_transitive(a.id, b.id, c.id);
    }
}

proof fn lemma_route_insert_member(ms: Seq<RouteModel>, m: RouteModel, k: int)
    requires
        0 <= k < insert_route_sorted(ms, m).len(),
    ensures
        insert_route_sorted(ms, m)[k] == m || (exists|w: int|
            0 <= w < ms.len() && ms[w] == insert_route_sorted(ms, m)[k]),
    decreases ms.len(),
{
    let r = insert_route_sorted(ms, m);
    if ms.len() == 0 {
    } else if route_leq(ms[0], m) {
        if k == 0 {
            assert(r[0] == ms[0]);
        } else {
            lemma_route_insert_member(ms.drop_first(), m, k - 1);
            assert(r[k] == insert_route_sorted(ms.drop_first(), m)[k - 1]);
            if insert_route_sorted(ms.drop_first(), m)[k - 1] != m {
                let w = choose|w: int|
                    0 <= w < ms.drop_first().len() && ms.drop_first()[w] == insert_route_sorted(
                        ms.drop_first(),
                        m,
                    )[k - 1];
                assert(ms[w + 1] == r[k]);
            }
        }
    } else {
        if k > 0 {
            assert(r[k] == ms[k - 1]);
        }
    }
}

/// Sorting routes yields a sorted permutation.
pub proof fn lemma_sort_routes_props(ms: Seq<RouteModel>)
    ensures
        routes_sorted(sort_routes(ms)),
        sort_routes(ms).to_multiset() == ms.to_multiset(),
    decreases ms.len(),
{
    broadcast use vstd::seq_lib::group_to_multiset_ensures, vstd::multiset::group_multiset_axioms;

    if ms.len() > 0 {
        lemma_sort_routes_props(ms.drop_last());
        lemma_insert_route_sorted_props(sort_routes(ms.drop_last()), ms.last());
        assert(ms =~= ms.drop_last().push(ms.last()));
        assert(ms.drop_last().push(ms.last()).to_multiset() =~= ms.drop_last().to_multiset()
            .insert(ms.last()));
    }
}

/// Two sorted route lists with distinct identifiers and the same members
/// are the same list.
pub proof fn lemma_sorted_routes_unique(a: Seq<RouteModel>, b: Seq<RouteModel>)
    requires
        routes_sorted(a),
        routes_sorted(b),
        ids_distinct(a),
        ids_distinct(b),
        a.to_multiset() == b.to_multiset(),
    ensures
        a == b,
    decreases a.len(),
{
    broadcast use vstd::seq_lib::group_to_multiset_ensures, vstd::multiset::group_multiset_axioms;

    if a.len() == 0 {
        assert(a.to_multiset().len() == 0);
        assert(b.to_multiset().len() == b.len());
        assert(a =~= b);
    } else {
        assert(a.to_multiset().len() == a.len());
        assert(b.to_multiset().len() == b.len());
        assert(a.to_multiset().contains(a[0]));
        assert(b.to_multiset().count(a[0]) > 0);
        assert(b.contains(a[0]));
        let j = choose|j: int| 0 <= j < b.len() && b[j] == a[0];
        assert(b.to_multiset().contains(b[0]));
        assert(a.contains(b[0]));
        let i = choose|i: int| 0 <= i < a.len() && a[i] == b[0];
        if j > 0 {
            assert(route_leq(b[0], b[j]));
        } else {
            lemma_route_leq_total(b[0], a[0]);
        }
        if i > 0 {
            assert(route_leq(a[0], a[i]));
        } else {
            lemma_route_leq_total(a[0], b[0]);
        }
        assert(route_leq(b[0], a[0]));
        assert(route_leq(a[0], b[0]));
        if a[0].priority != b[0].priority {
            assert(false);
        }
        crate::bytes_util::lemma_lex_leq_antisymmetric(a[0].id, b[0].id);
        assert(a[0].id == b[0].id);
        if j > 0 {
            assert(b[0].id != b[j].id);
            assert(false);
        }
        assert(b[0] == a[0]);
        let ra = a.drop_first();
        let rb = b.drop_first();
        assert forall|x: int, y: int| 0 <= x < y < ra.len() implies route_leq(
            #[trigger] ra[x],
            #[trigger] ra[y],
        ) && ra[x].id != ra[y].id by {
            assert(ra[x] == a[x + 1] && ra[y] == a[y + 1]);
        }
        assert forall|x: int, y: int| 0 <= x < y < rb.len() implies route_leq(
            #[trigger] rb[x],
            #[trigger] rb[y],
        ) && rb[x].id != rb[y].id by {
            assert(rb[x] == b[x + 1] && rb[y] == b[y + 1]);
        }
        assert(ra.to_multiset() =~= rb.to_multiset()) by {
            assert(a =~= seq![a[0]] + ra);
            assert(b =~= seq![b[0]] + rb);
            vstd::seq_lib::lemma_multiset_commutative(seq![a[0]], ra);
            vstd::seq_lib::lemma_multiset_commutative(seq![b[0]], rb);
            lemma_route_singleton_multiset(a[0]);
            assert forall|x: RouteModel|
                ra.to_multiset().count(x) == rb.to_multiset().count(x) by {
                assert(a.to_multiset().count(x) == seq![a[0]].to_multiset().count(x)
                    + ra.to_multiset().count(x));
                assert(b.to_multiset().count(x) == seq![b[0]].to_multiset().count(x)
                    + rb.to_multiset().count(x));
            }
        }
        lemma_sorted_routes_unique(ra, rb);
        assert forall|k: int| 0 <= k < a.len() implies a[k] == b[k] by {
            if k > 0 {
                assert(a[k] == ra[k - 1]);
                assert(b[k] == rb[k - 1]);
            }
        }
        assert(a =~= b);
    }
}

/// The composed action depends only on which routes matched, not on the
/// order they were gathered in, as long as no identifier repeats.
pub proof fn lemma_compose_order_independent(
    rs1: Seq<RouteModel>,
    rs2: Seq<RouteModel>,
    req: RequestModel,
)
    requires
        rs1.to_multiset() == rs2.to_multiset(),
        ids_distinct(rs1),
    ensures
        compose_actions(sort_routes(rs1), req) == compose_actions(sort_routes(rs2), req),
{
    broadcast use vstd::seq_lib::group_to_multiset_ensures, vstd::multiset::group_multiset_axioms;

    lemma_sort_routes_props(rs1);
    lemma_sort_routes_props(rs2);
    let s1 = sort_routes(rs1);
    let s2 = sort_routes(rs2);
    assert forall|i: int, j: int|
        0 <= i < j < s1.len() implies (#[trigger] s1[i]).id != (#[trigger] s1[j]).id by {
        lemma_route_member_distinct(rs1, s1, i, j);
    }
    assert forall|i: int, j: int|
        0 <= i < j < s2.len() implies (#[trigger] s2[i]).id != (#[trigger] s2[j]).id by {
        assert(s2.to_multiset() == rs1.to_multiset());
        lemma_route_member_distinct(rs1, s2, i, j);
    }
    lemma_sorted_routes_unique(s1, s2);
}

proof fn lemma_route_member_distinct(ms: Seq<RouteModel>, s: Seq<RouteModel>, i: int, j: int)
    requires
        s.to_multiset() == ms.to_multiset(),
        ids_distinct(ms),
        0 <= i < j < s.len(),
    ensures
        s[i].id != s[j].id,
{
    broadcast use vstd::seq_lib::group_to_multiset_ensures, vstd::multiset::group_multiset_axioms;

    if s[i].id == s[j].id {
        if s[i] == s[j] {
            let s0 = s.subrange(0, j);
            let s1 = s.subrange(j, s.len() as int);
            assert(s =~= s0 + s1);
            vstd::seq_lib::lemma_multiset_commutative(s0, s1);
            assert(s0[i] == s[i]);
            assert(s0.contains(s[i]));
            assert(s1[0] == s[j]);
            assert(s1.contains(s[i]));
            assert(s0.to_multiset().count(s[i]) > 0);
            assert(s1.to_multiset().count(s[i]) > 0);
            assert(s.to_multiset().count(s[i]) >= 2);
            assert(ms.no_duplicates()) by {
                assert forall|x: int, y: int|
                    0 <= x < ms.len() && 0 <= y < ms.len() && x != y implies ms[x] != ms[y] by {
                    if x < y {
                        assert(ms[x].id != ms[y].id);
                    } else {
                        assert(ms[y].id != ms[x].id);
                    }
                }
            }
            ms.lemma_multiset_has_no_duplicates();
            assert(ms.to_multiset().contains(s[i]));
            assert(ms.to_multiset().count(s[i]) == 1);
            assert(false);
        } else {
            assert(s.to_multiset().contains(s[i]));
            assert(ms.contains(s[i]));
            assert(s.to_multiset().contains(s[j]));
            assert(ms.contains(s[j]));
            let x = choose|x: int| 0 <= x < ms.len() && ms[x] == s[i];
            let y = choose|y: int| 0 <= y < ms.len() && ms[y] == s[j];
            assert(x != y);
            if x < y {
                assert(ms[x].id != ms[y].id);
            } else {
                assert(ms[y].id != ms[x].id);
            }
            assert(false);
        }
    }
}

impl Default for Action {
    /// The empty value, as Action::new builds it.
    fn default() -> (r: Self)
        ensures
            r.model() == empty_action(),
    {
        Action::new()
    }
}

} // verus!

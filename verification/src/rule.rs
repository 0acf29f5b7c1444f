//! Rules as given to the engine, and Routes, their compiled form.

use vstd::prelude::*;
use crate::bytes_util::{ascii_lower, to_ascii_lower};
use crate::regex_support::{pattern_matches, regex_valid, regex_compile_check};
use crate::canon::canonical_path;

verus! {

/// A compiled source segment: an exact literal, or a regex with named
/// captures embedded in the pattern.
pub enum StaticOrDynamic {
    Static(Vec<u8>),
    Dynamic(Vec<u8>),
}

/// Mathematical image of a pattern.
pub enum PatternModel {
    Static(Seq<u8>),
    Dynamic(Seq<u8>),
}

impl StaticOrDynamic {
    pub open spec fn model(self) -> PatternModel {
        match self {
            StaticOrDynamic::Static(s) => PatternModel::Static(s@),
            StaticOrDynamic::Dynamic(r) => PatternModel::Dynamic(r@),
        }
    }
}

impl Clone for StaticOrDynamic {
    fn clone(&self) -> (r: Self)
        ensures
            r.model() == self.model(),
    {
        match self {
            StaticOrDynamic::Static(s) => StaticOrDynamic::Static(s.clone()),
            StaticOrDynamic::Dynamic(d) => StaticOrDynamic::Dynamic(d.clone()),
        }
    }
}

/// Whether a pattern selects a subject exactly.
pub open spec fn pattern_ok(p: PatternModel, v: Seq<u8>) -> bool {
    match p {
        PatternModel::Static(s) => s == v,
        PatternModel::Dynamic(r) => pattern_matches(r, v),
    }
}

/// A predicate over one request header.
pub enum ValueCondition {
    Static(Vec<u8>),
    Regex(Vec<u8>),
    NotExist,
}

/// Mathematical image of a header value condition.
pub enum ValueConditionModel {
    Static(Seq<u8>),
    Regex(Seq<u8>),
    NotExist,
}

impl ValueCondition {
    pub open spec fn model(self) -> ValueConditionModel {
        match self {
            ValueCondition::Static(s) => ValueConditionModel::Static(s@),
            ValueCondition::Regex(r) => ValueConditionModel::Regex(r@),
            ValueCondition::NotExist => ValueConditionModel::NotExist,
        }
    }
}

impl Clone for ValueCondition {
    fn clone(&self) -> (r: Self)
        ensures
            r.model() == self.model(),
    {
        match self {
            ValueCondition::Static(s) => ValueCondition::Static(s.clone()),
            ValueCondition::Regex(r) => ValueCondition::Regex(r.clone()),
            ValueCondition::NotExist => ValueCondition::NotExist,
        }
    }
}

/// One header condition: a lowercased header name and the condition its
/// values must meet.
pub struct HeaderCondition {
    pub header_name: Vec<u8>,
    pub condition: ValueCondition,
}

pub struct HeaderConditionModel {
    pub header_name: Seq<u8>,
    pub condition: ValueConditionModel,
}

impl HeaderCondition {
    pub open spec fn model(self) -> HeaderConditionModel {
        HeaderConditionModel { header_name: self.header_name@, condition: self.condition.model() }
    }
}

impl Clone for HeaderCondition {
    fn clone(&self) -> (r: Self)
        ensures
            r.model() == self.model(),
    {
        HeaderCondition { header_name: self.header_name.clone(), condition: self.condition.clone() }
    }
}

/// A response-header rewrite declared by a rule.
pub struct HeaderFilter {
    pub action: Vec<u8>,
    pub header: Vec<u8>,
    pub value: Vec<u8>,
}

pub struct HeaderFilterModel {
    pub action: Seq<u8>,
    pub header: Seq<u8>,
    pub value: Seq<u8>,
}

impl HeaderFilter {
    pub open spec fn model(self) -> HeaderFilterModel {
        HeaderFilterModel { action: self.action@, header: self.header@, value: self.value@ }
    }
}

impl Clone for HeaderFilter {
    fn clone(&self) -> (r: Self)
        ensures
            r.model() == self.model(),
    {
        HeaderFilter {
            action: self.action.clone(),
            header: self.header.clone(),
            value: self.value.clone(),
        }
    }
}

/// A response-body rewrite declared by a rule.
pub struct BodyFilter {
    pub action: Vec<u8>,
    pub value: Vec<u8>,
}

pub struct BodyFilterModel {
    pub action: Seq<u8>,
    pub value: Seq<u8>,
}

impl BodyFilter {
    pub open spec fn model(self) -> BodyFilterModel {
        BodyFilterModel { action: self.action@, value: self.value@ }
    }
}

impl Clone for BodyFilter {
    fn clone(&self) -> (r: Self)
        ensures
            r.model() == self.model(),
    {
        BodyFilter { action: self.action.clone(), value: self.value.clone() }
    }
}

/// What a rule matches on.
pub struct Source {
    pub scheme: Option<Vec<u8>>,
    pub host: Option<StaticOrDynamic>,
    pub path_and_query: StaticOrDynamic,
    pub methods: Vec<Vec<u8>>,
    pub headers: Vec<HeaderCondition>,
}

pub struct SourceModel {
    pub scheme: Option<Seq<u8>>,
    pub host: Option<PatternModel>,
    pub path_and_query: PatternModel,
    pub methods: Seq<Seq<u8>>,
    pub headers: Seq<HeaderConditionModel>,
}

impl Source {
    pub open spec fn model(self) -> SourceModel {
        SourceModel {
            scheme: match self.scheme {
                Option::Some(s) => Option::Some(s@),
                Option::None => Option::None,
            },
            host: match self.host {
                Option::Some(h) => Option::Some(h.model()),
                Option::None => Option::None,
            },
            path_and_query: self.path_and_query.model(),
            methods: self.methods.deep_view(),
            headers: self.headers@.map_values(|c: HeaderCondition| c.model()),
        }
    }
}

impl Clone for Source {
    fn clone(&self) -> (r: Self)
        ensures
            r.model() == self.model(),
    {
        let scheme = match &self.scheme {
            Option::Some(s) => Option::Some(s.clone()),
            Option::None => Option::None,
        };
        let host = match &self.host {
            Option::Some(h) => Option::Some(h.clone()),
            Option::None => Option::None,
        };
        let path_and_query = self.path_and_query.clone();
        let methods = clone_bytes_vec(&self.methods);
        let headers = clone_conditions(&self.headers);
        let r = Source { scheme, host, path_and_query, methods, headers };
        proof {
            assert(r.model().scheme == self.model().scheme);
            assert(r.model().host == self.model().host);
            assert(r.model().methods =~= self.model().methods);
            assert(r.model().headers =~= self.model().headers);
        }
        r
    }
}

/// Clones a list of byte strings.
pub fn clone_bytes_vec(v: &Vec<Vec<u8>>) -> (r: Vec<Vec<u8>>)
    ensures
        r.deep_view() =~= v.deep_view(),
{
    let mut out: Vec<Vec<u8>> = Vec::new();
    let mut i: usize = 0;
    while i < v.len()
        invariant
            0 <= i <= v@.len(),
            out@.len() == i,
            forall|j: int| 0 <= j < i ==> out@[j]@ == v@[j]@,
        decreases v@.len() - i,
    {
        out.push(v[i].clone());
        i += 1;
    }
    out
}

pub fn clone_conditions(v: &Vec<HeaderCondition>) -> (r: Vec<HeaderCondition>)
    ensures
        r@.map_values(|c: HeaderCondition| c.model()) =~= v@.map_values(
            |c: HeaderCondition| c.model(),
        ),
{
    let mut out: Vec<HeaderCondition> = Vec::new();
    let mut i: usize = 0;
    while i < v.len()
        invariant
            0 <= i <= v@.len(),
            out@.len() == i,
            forall|j: int| 0 <= j < i ==> (#[trigger] out@[j]).model() == v@[j].model(),
        decreases v@.len() - i,
    {
        out.push(v[i].clone());
        i += 1;
    }
    out
}

/// A rewrite rule as handed to the router.
pub struct Rule {
    pub id: Vec<u8>,
    pub priority: i64,
    pub source: Source,
    pub redirect_code: Option<u16>,
    pub match_on_response_status: Option<u16>,
    pub target: Option<Vec<u8>>,
    pub header_filters: Vec<HeaderFilter>,
    pub body_filters: Vec<BodyFilter>,
}

pub struct RuleModel {
    pub id: Seq<u8>,
    pub priority: int,
    pub source: SourceModel,
    pub redirect_code: Option<u16>,
    pub match_on_response_status: Option<u16>,
    pub target: Option<Seq<u8>>,
    pub header_filters: Seq<HeaderFilterModel>,
    pub body_filters: Seq<BodyFilterModel>,
}

impl Rule {
    pub open spec fn model(self) -> RuleModel {
        RuleModel {
            id: self.id@,
            priority: self.priority as int,
            source: self.source.model(),
            redirect_code: self.redirect_code,
            match_on_response_status: self.match_on_response_status,
            target: match self.target {
                Option::Some(t) => Option::Some(t@),
                Option::None => Option::None,
            },
            header_filters: self.header_filters@.map_values(|f: HeaderFilter| f.model()),
            body_filters: self.body_filters@.map_values(|f: BodyFilter| f.model()),
        }
    }
}

impl Clone for Rule {
    fn clone(&self) -> (r: Self)
        ensures
            r.model() == self.model(),
    {
        let target = match &self.target {
            Option::Some(t) => Option::Some(t.clone()),
            Option::None => Option::None,
        };
        let header_filters = clone_header_filters(&self.header_filters);
        let body_filters = clone_body_filters(&self.body_filters);
        let r = Rule {
            id: self.id.clone(),
            priority: self.priority,
            source: self.source.clone(),
            redirect_code: self.redirect_code,
            match_on_response_status: self.match_on_response_status,
            target,
            header_filters,
            body_filters,
        };
        proof {
            assert(r.model().header_filters =~= self.model().header_filters);
            assert(r.model().body_filters =~= self.model().body_filters);
        }
        r
    }
}

fn clone_header_filters(v: &Vec<HeaderFilter>) -> (r: Vec<HeaderFilter>)
    ensures
        r@.map_values(|f: HeaderFilter| f.model()) =~= v@.map_values(|f: HeaderFilter| f.model()),
{
    let mut out: Vec<HeaderFilter> = Vec::new();
    let mut i: usize = 0;
    while i < v.len()
        invariant
            0 <= i <= v@.len(),
            out@.len() == i,
            forall|j: int| 0 <= j < i ==> (#[trigger] out@[j]).model() == v@[j].model(),
        decreases v@.len() - i,
    {
        out.push(v[i].clone());
        i += 1;
    }
    out
}

fn clone_body_filters(v: &Vec<BodyFilter>) -> (r: Vec<BodyFilter>)
    ensures
        r@.map_values(|f: BodyFilter| f.model()) =~= v@.map_values(|f: BodyFilter| f.model()),
{
    let mut out: Vec<BodyFilter> = Vec::new();
    let mut i: usize = 0;
    while i < v.len()
        invariant
            0 <= i <= v@.len(),
            out@.len() == i,
            forall|j: int| 0 <= j < i ==> (#[trigger] out@[j]).model() == v@[j].model(),
        decreases v@.len() - i,
    {
        out.push(v[i].clone());
        i += 1;
    }
    out
}

/// A compiled rule, ready for the matcher pipeline.
pub struct Route {
    pub id: Vec<u8>,
    pub priority: i64,
    pub scheme: Option<Vec<u8>>,
    pub host: Option<StaticOrDynamic>,
    pub path_and_query: StaticOrDynamic,
    pub methods: Vec<Vec<u8>>,
    pub headers: Vec<HeaderCondition>,
    pub handler: Rule,
}

pub struct RouteModel {
    pub id: Seq<u8>,
    pub priority: int,
    pub scheme: Option<Seq<u8>>,
    pub host: Option<PatternModel>,
    pub path: PatternModel,
    pub methods: Seq<Seq<u8>>,
    pub headers: Seq<HeaderConditionModel>,
    pub handler: RuleModel,
}

impl Route {
    pub open spec fn model(self) -> RouteModel {
        RouteModel {
            id: self.id@,
            priority: self.priority as int,
            scheme: match self.scheme {
                Option::Some(s) => Option::Some(s@),
                Option::None => Option::None,
            },
            host: match self.host {
                Option::Some(h) => Option::Some(h.model()),
                Option::None => Option::None,
            },
            path: self.path_and_query.model(),
            methods: self.methods.deep_view(),
            headers: self.headers@.map_values(|c: HeaderCondition| c.model()),
            handler: self.handler.model(),
        }
    }
}

impl Clone for Route {
    fn clone(&self) -> (r: Self)
        ensures
            r.model() == self.model(),
    {
        let scheme = match &self.scheme {
            Option::Some(s) => Option::Some(s.clone()),
            Option::None => Option::None,
        };
        let host = match &self.host {
            Option::Some(h) => Option::Some(h.clone()),
            Option::None => Option::None,
        };
        let r = Route {
            id: self.id.clone(),
            priority: self.priority,
            scheme,
            host,
            path_and_query: self.path_and_query.clone(),
            methods: clone_bytes_vec(&self.methods),
            headers: clone_conditions(&self.headers),
            handler: self.handler.clone(),
        };
        proof {
            assert(r.model().methods =~= self.model().methods);
            assert(r.model().headers =~= self.model().headers);
        }
        r
    }
}

/// The error raised for a rule whose source cannot be compiled.
#[derive(Debug)]
pub enum InvalidRule {
    InvalidRegex { rule_id: Vec<u8>, pattern: Vec<u8> },
}

/// Whether every dynamic pattern of the rule compiles.
pub open spec fn rule_patterns_valid(r: RuleModel) -> bool {
    &&& (r.source.path_and_query is Dynamic ==> regex_valid(r.source.path_and_query->Dynamic_0))
    &&& (match r.source.host {
        Option::Some(PatternModel::Dynamic(h)) => regex_valid(h),
        _ => true,
    })
}

/// The route a valid rule compiles to: the static path is canonicalised, the
/// header names lowercased, and everything else carried over.
pub open spec fn compiled_route(r: RuleModel) -> RouteModel {
    RouteModel {
        id: r.id,
        priority: r.priority,
        scheme: r.source.scheme,
        host: r.source.host,
        path: match r.source.path_and_query {
            PatternModel::Static(p) => PatternModel::Static(canonical_path(p)),
            PatternModel::Dynamic(d) => PatternModel::Dynamic(d),
        },
        methods: r.source.methods,
        headers: Seq::new(
            r.source.headers.len(),
            |i: int|
                HeaderConditionModel {
                    header_name: ascii_lower(r.source.headers[i].header_name),
                    condition: r.source.headers[i].condition,
                },
        ),
        handler: r,
    }
}

impl Rule {
    /// Compiles the rule into a route, rejecting one whose regex does not
    /// compile.
    pub fn compile(self) -> (r: Result<Route, InvalidRule>)
        ensures
            (r is Ok) == rule_patterns_valid(self.model()),
            r is Ok ==> (r->Ok_0).model() == compiled_route(self.model()),
    {
        match &self.source.path_and_query {
            StaticOrDynamic::Dynamic(d) => {
                if !regex_compile_check(d.as_slice()) {
                    let pattern = d.clone();
                    return Result::Err(
                        InvalidRule::InvalidRegex { rule_id: self.id.clone(), pattern },
                    );
                }
            },
            StaticOrDynamic::Static(_) => {},
        }
        match &self.source.host {
            Option::Some(StaticOrDynamic::Dynamic(h)) => {
                if !regex_compile_check(h.as_slice()) {
                    let pattern = h.clone();
                    return Result::Err(
                        InvalidRule::InvalidRegex { rule_id: self.id.clone(), pattern },
                    );
                }
            },
            _ => {},
        }
        let path = match &self.source.path_and_query {
            StaticOrDynamic::Static(p) => StaticOrDynamic::Static(
                crate::canon::canonical_path_exec(p.as_slice()),
            ),
            StaticOrDynamic::Dynamic(d) => StaticOrDynamic::Dynamic(d.clone()),
        };
        let host = match &self.source.host {
            Option::Some(h) => Option::Some(h.clone()),
            Option::None => Option::None,
        };
        let scheme = match &self.source.scheme {
            Option::Some(s) => Option::Some(s.clone()),
            Option::None => Option::None,
        };
        let mut headers: Vec<HeaderCondition> = Vec::new();
        let mut i: usize = 0;
        while i < self.source.headers.len()
            invariant
                0 <= i <= self.source.headers@.len(),
                headers@.len() == i,
                forall|j: int|
                    0 <= j < i ==> (#[trigger] headers@[j]).model() == (HeaderConditionModel {
                        header_name: ascii_lower(self.source.headers@[j].model().header_name),
                        condition: self.source.headers@[j].model().condition,
                    }),
            decreases self.source.headers@.len() - i,
        {
            let c = &self.source.headers[i];
            let lowered = to_ascii_lower(c.header_name.as_slice());
            headers.push(HeaderCondition { header_name: lowered, condition: c.condition.clone() });
            i += 1;
        }
        let methods = clone_bytes_vec(&self.source.methods);
        let route = Route {
            id: self.id.clone(),
            priority: self.priority,
            scheme,
            host,
            path_and_query: path,
            methods,
            headers,
            handler: self,
        };
        proof {
            assert(route.model().methods =~= compiled_route(self.model()).methods);
            assert(route.model().headers =~= compiled_route(self.model()).headers);
        }
        Result::Ok(route)
    }
}

/// Byte equality of two header conditions.
pub fn condition_eq(a: &HeaderCondition, b: &HeaderCondition) -> (r: bool)
    ensures
        r == (a.model() == b.model()),
{
    if !crate::bytes_util::bytes_eq(a.header_name.as_slice(), b.header_name.as_slice()) {
        return false;
    }
    match (&a.condition, &b.condition) {
        (ValueCondition::NotExist, ValueCondition::NotExist) => true,
        (ValueCondition::Static(x), ValueCondition::Static(y)) => crate::bytes_util::bytes_eq(
            x.as_slice(),
            y.as_slice(),
        ),
        (ValueCondition::Regex(x), ValueCondition::Regex(y)) => crate::bytes_util::bytes_eq(
            x.as_slice(),
            y.as_slice(),
        ),
        _ => false,
    }
}

/// Whether two condition lists are equal, element by element.
pub fn condition_list_eq(a: &Vec<HeaderCondition>, b: &Vec<HeaderCondition>) -> (r: bool)
    ensures
        r == (a@.map_values(|c: HeaderCondition| c.model()) == b@.map_values(
            |c: HeaderCondition| c.model(),
        )),
{
    if a.len() != b.len() {
        proof {
            assert(a@.map_values(|c: HeaderCondition| c.model()).len() != b@.map_values(
                |c: HeaderCondition| c.model(),
            ).len());
        }
        return false;
    }
    let mut i: usize = 0;
    while i < a.len()
        invariant
            0 <= i <= a@.len(),
            a@.len() == b@.len(),
            forall|j: int| 0 <= j < i ==> (#[trigger] a@[j]).model() == b@[j].model(),
        decreases a@.len() - i,
    {
        if !condition_eq(&a[i], &b[i]) {
            proof {
                assert(a@.map_values(|c: HeaderCondition| c.model())[i as int] != b@.map_values(
                    |c: HeaderCondition| c.model(),
                )[i as int]);
            }
            return false;
        }
        i += 1;
    }
    proof {
        assert(a@.map_values(|c: HeaderCondition| c.model()) =~= b@.map_values(
            |c: HeaderCondition| c.model(),
        ));
    }
    true
}

} // verus!

//! The request the engine decides on: plain values only.

use vstd::prelude::*;
use vstd::string::StrSliceExecFns;
use vstd::utf8::encode_utf8;
use crate::bytes_util::{ascii_lower, to_ascii_lower, bytes_eq};
use crate::canon::{canonical_path, canonical_path_exec, sorted_query, build_sorted_query_bytes};

verus! {

/// One request header.
pub struct Header {
    pub name: Vec<u8>,
    pub value: Vec<u8>,
}

impl Clone for Header {
    fn clone(&self) -> (r: Self)
        ensures
            r.name@ == self.name@,
            r.value@ == self.value@,
    {
        Header { name: self.name.clone(), value: self.value.clone() }
    }
}

/// An HTTP request reduced to what matching reads.
pub struct Request {
    pub path_and_query: Vec<u8>,
    pub host: Option<Vec<u8>>,
    pub scheme: Option<Vec<u8>>,
    pub method: Option<Vec<u8>>,
    pub headers: Vec<Header>,
}

/// Mathematical image of a request.
pub struct RequestModel {
    pub path_and_query: Seq<u8>,
    pub host: Option<Seq<u8>>,
    pub scheme: Option<Seq<u8>>,
    pub method: Option<Seq<u8>>,
    pub headers: Seq<(Seq<u8>, Seq<u8>)>,
}

impl Request {
    pub open spec fn model(self) -> RequestModel {
        RequestModel {
            path_and_query: self.path_and_query@,
            host: match self.host {
                Option::Some(h) => Option::Some(h@),
                Option::None => Option::None,
            },
            scheme: match self.scheme {
                Option::Some(s) => Option::Some(s@),
                Option::None => Option::None,
            },
            method: match self.method {
                Option::Some(m) => Option::Some(m@),
                Option::None => Option::None,
            },
            headers: self.headers@.map_values(|h: Header| (h.name@, h.value@)),
        }
    }

    /// Builds a request from its parts. An empty host string counts as no
    /// host at all.
    pub fn new(
        path_and_query: String,
        host: Option<String>,
        scheme: Option<String>,
        method: Option<String>,
    ) -> (r: Request)
        ensures
            r.model().path_and_query == encode_utf8(path_and_query@),
            r.model().headers =~= Seq::<(Seq<u8>, Seq<u8>)>::empty(),
            r.model().host == (match host {
                Option::Some(h) => if encode_utf8(h@).len() == 0 {
                    Option::<Seq<u8>>::None
                } else {
                    Option::<Seq<u8>>::Some(encode_utf8(h@))
                },
                Option::None => Option::<Seq<u8>>::None,
            }),
            r.model().scheme == (match scheme {
                Option::Some(s) => Option::<Seq<u8>>::Some(encode_utf8(s@)),
                Option::None => Option::<Seq<u8>>::None,
            }),
            r.model().method == (match method {
                Option::Some(m) => Option::<Seq<u8>>::Some(encode_utf8(m@)),
                Option::None => Option::<Seq<u8>>::None,
            }),
    {
        let host_b = match host {
            Option::Some(h) => {
                let b = h.as_str().as_bytes_vec();
                if b.len() == 0 {
                    Option::None
                } else {
                    Option::Some(b)
                }
            },
            Option::None => Option::None,
        };
        let scheme_b = match scheme {
            Option::Some(s) => Option::Some(s.as_str().as_bytes_vec()),
            Option::None => Option::None,
        };
        let method_b = match method {
            Option::Some(m) => Option::Some(m.as_str().as_bytes_vec()),
            Option::None => Option::None,
        };
        Request {
            path_and_query: path_and_query.as_str().as_bytes_vec(),
            host: host_b,
            scheme: scheme_b,
            method: method_b,
            headers: Vec::new(),
        }
    }

    /// Appends one header; the value is lowercased when asked to ignore case.
    pub fn add_header(&mut self, name: String, value: String, ignore_case: bool)
        ensures
            final(self).model() == (RequestModel {
                headers: old(self).model().headers.push(
                    (
                        encode_utf8(name@),
                        if ignore_case {
                            ascii_lower(encode_utf8(value@))
                        } else {
                            encode_utf8(value@)
                        },
                    ),
                ),
                ..old(self).model()
            }),
    {
        let name_b = name.as_str().as_bytes_vec();
        let value_raw = value.as_str().as_bytes_vec();
        let value_b = if ignore_case {
            to_ascii_lower(value_raw.as_slice())
        } else {
            value_raw
        };
        let ghost pre = self.headers@;
        self.headers.push(Header { name: name_b, value: value_b });
        proof {
            assert(self.headers@.map_values(|h: Header| (h.name@, h.value@)) =~= pre.map_values(
                |h: Header| (h.name@, h.value@),
            ).push((encode_utf8(name@), self.headers@.last().value@)));
        }
    }

    /// The request method, GET when none was given.
    pub fn method(&self) -> (r: Vec<u8>)
        ensures
            r@ == req_method(self.model()),
    {
        match &self.method {
            Option::None => {
                let mut v: Vec<u8> = Vec::new();
                v.push(71);
                v.push(69);
                v.push(84);
                proof {
                    assert(v@ =~= spec_get());
                }
                v
            },
            Option::Some(m) => m.clone(),
        }
    }

    /// Whether a header of this name exists, names compared lowercased.
    pub fn header_exists(&self, name: &str) -> (r: bool)
        ensures
            r == request_has_header(self.model(), ascii_lower(encode_utf8(name@))),
    {
        let lowered = to_ascii_lower(name.as_bytes());
        let mut i: usize = 0;
        while i < self.headers.len()
            invariant
                0 <= i <= self.headers@.len(),
                lowered@ == ascii_lower(encode_utf8(name@)),
                forall|j: int|
                    0 <= j < i ==> ascii_lower(
                        (#[trigger] self.model().headers[j]).0,
                    ) != lowered@,
            decreases self.headers@.len() - i,
        {
            let hl = to_ascii_lower(self.headers[i].name.as_slice());
            if bytes_eq(hl.as_slice(), lowered.as_slice()) {
                proof {
                    assert(ascii_lower(self.model().headers[i as int].0) == lowered@);
                }
                return true;
            }
            i += 1;
        }
        false
    }

    /// Every value of the named header, in order; names compared lowercased.
    pub fn header_values(&self, name: &str) -> (r: Vec<Vec<u8>>)
        ensures
            r.deep_view() == header_values_of(self.model(), ascii_lower(encode_utf8(name@))),
    {
        let lowered = to_ascii_lower(name.as_bytes());
        let mut out: Vec<Vec<u8>> = Vec::new();
        let mut i: usize = 0;
        proof {
            assert(self.model().headers.subrange(0, 0) =~= Seq::<(Seq<u8>, Seq<u8>)>::empty());
            assert(out.deep_view() =~= values_from(
                self.model().headers.subrange(0, 0),
                lowered@,
            ));
        }
        while i < self.headers.len()
            invariant
                0 <= i <= self.headers@.len(),
                lowered@ == ascii_lower(encode_utf8(name@)),
                self.model().headers.len() == self.headers@.len(),
                out.deep_view() == values_from(
                    self.model().headers.subrange(0, i as int),
                    lowered@,
                ),
            decreases self.headers@.len() - i,
        {
            let ghost pre = self.model().headers.subrange(0, i as int);
            proof {
                assert(self.model().headers.subrange(0, i as int + 1) =~= pre.push(
                    self.model().headers[i as int],
                ));
                lemma_values_from_push(pre, self.model().headers[i as int], lowered@);
            }
            let hl = to_ascii_lower(self.headers[i].name.as_slice());
            if bytes_eq(hl.as_slice(), lowered.as_slice()) {
                let ghost dpre = out.deep_view();
                let cloned = self.headers[i].value.clone();
                out.push(cloned);
                proof {
                    assert(out@.last().deep_view() =~= self.model().headers[i as int].1);
                    assert(out.deep_view() =~= dpre.push(out@.last().deep_view()));
                }
            }
            i += 1;
        }
        proof {
            assert(self.model().headers.subrange(0, self.model().headers.len() as int)
                =~= self.model().headers);
        }
        out
    }

    /// The raw path and query.
    pub fn path_and_query(&self) -> (r: Vec<u8>)
        ensures
            r@ == self.model().path_and_query,
    {
        self.path_and_query.clone()
    }

    /// The canonical matching key of this request.
    pub fn canonical_key(&self) -> (r: Vec<u8>)
        ensures
            r@ == canonical_path(self.model().path_and_query),
    {
        canonical_path_exec(self.path_and_query.as_slice())
    }

    /// The canonical serialisation of a raw query string, or None when
    /// nothing remains of it.
    pub fn build_sorted_query(query: &str) -> (r: Option<Vec<u8>>)
        ensures
            (r is Some) == (sorted_query(encode_utf8(query@)).len() > 0),
            r is Some ==> (r->Some_0)@ == sorted_query(encode_utf8(query@)),
    {
        build_sorted_query_bytes(query.as_bytes())
    }
}

/// Decides whether a header value is visible ASCII or tab throughout.
fn value_decodable_exec(v: &[u8]) -> (r: bool)
    ensures
        r == crate::matching::value_decodable(v@),
{
    let mut i: usize = 0;
    while i < v.len()
        invariant
            0 <= i <= v@.len(),
            forall|j: int| 0 <= j < i ==> (32 <= #[trigger] v@[j] < 127 || v@[j] == 9),
        decreases v@.len() - i,
    {
        let b = v[i];
        if !(32 <= b && b < 127 || b == 9) {
            return false;
        }
        i += 1;
    }
    true
}

/// The bytes of the GET method name.
pub open spec fn spec_get() -> Seq<u8> {
    seq![71u8, 69u8, 84u8]
}

/// The request's method, GET when none was given.
pub open spec fn req_method(m: RequestModel) -> Seq<u8> {
    match m.method {
        Option::Some(v) => v,
        Option::None => spec_get(),
    }
}

/// Whether the request has a header of this lowercased name.
pub open spec fn request_has_header(m: RequestModel, lowered_name: Seq<u8>) -> bool {
    exists|j: int|
        0 <= j < m.headers.len() && ascii_lower((#[trigger] m.headers[j]).0) == lowered_name
}

/// The values of headers with this lowercased name, in order.
pub open spec fn values_from(hs: Seq<(Seq<u8>, Seq<u8>)>, lowered_name: Seq<u8>) -> Seq<Seq<u8>>
    decreases hs.len(),
{
    if hs.len() == 0 {
        Seq::empty()
    } else {
        let rest = values_from(hs.drop_last(), lowered_name);
        if ascii_lower(hs.last().0) == lowered_name {
            rest.push(hs.last().1)
        } else {
            rest
        }
    }
}

pub open spec fn header_values_of(m: RequestModel, lowered_name: Seq<u8>) -> Seq<Seq<u8>> {
    values_from(m.headers, lowered_name)
}

proof fn lemma_values_from_push(hs: Seq<(Seq<u8>, Seq<u8>)>, h: (Seq<u8>, Seq<u8>), name: Seq<u8>)
    ensures
        ascii_lower(h.0) == name ==> values_from(hs.push(h), name) == values_from(hs, name).push(
            h.1,
        ),
        ascii_lower(h.0) != name ==> values_from(hs.push(h), name) == values_from(hs, name),
{
    assert(hs.push(h).drop_last() =~= hs);
    assert(hs.push(h).last() == h);
}

impl Request {
    /// Whether a header of this lowercased name exists.
    pub fn header_exists_lowered(&self, lowered_name: &[u8]) -> (r: bool)
        ensures
            r == request_has_header(self.model(), lowered_name@),
    {
        let mut i: usize = 0;
        while i < self.headers.len()
            invariant
                0 <= i <= self.headers@.len(),
                forall|j: int|
                    0 <= j < i ==> ascii_lower(
                        (#[trigger] self.model().headers[j]).0,
                    ) != lowered_name@,
            decreases self.headers@.len() - i,
        {
            let hl = to_ascii_lower(self.headers[i].name.as_slice());
            if bytes_eq(hl.as_slice(), lowered_name) {
                proof {
                    assert(ascii_lower(self.model().headers[i as int].0) == lowered_name@);
                }
                return true;
            }
            i += 1;
        }
        false
    }

    /// Whether a header of this lowercased name carries exactly this value.
    pub fn header_value_is(&self, lowered_name: &[u8], value: &[u8]) -> (r: bool)
        ensures
            r == (exists|j: int|
                0 <= j < self.model().headers.len() && ascii_lower(
                    (#[trigger] self.model().headers[j]).0,
                ) == lowered_name@ && self.model().headers[j].1 == value@),
    {
        let mut i: usize = 0;
        while i < self.headers.len()
            invariant
                0 <= i <= self.headers@.len(),
                forall|j: int|
                    0 <= j < i ==> !(ascii_lower((#[trigger] self.model().headers[j]).0)
                        == lowered_name@ && self.model().headers[j].1 == value@),
            decreases self.headers@.len() - i,
        {
            let hl = to_ascii_lower(self.headers[i].name.as_slice());
            if bytes_eq(hl.as_slice(), lowered_name) && bytes_eq(
                self.headers[i].value.as_slice(),
                value,
            ) {
                proof {
                    assert(ascii_lower(self.model().headers[i as int].0) == lowered_name@
                        && self.model().headers[i as int].1 == value@);
                }
                return true;
            }
            i += 1;
        }
        false
    }

    /// Whether a decodable value of this lowercased header is selected by
    /// the pattern, searched unanchored; values outside visible ASCII are
    /// skipped as header decoding errors.
    pub fn header_value_found(&self, lowered_name: &[u8], pattern: &[u8]) -> (r: bool)
        ensures
            r == (exists|j: int|
                0 <= j < self.model().headers.len() && ascii_lower(
                    (#[trigger] self.model().headers[j]).0,
                ) == lowered_name@ && crate::matching::value_decodable(self.model().headers[j].1)
                    && crate::regex_support::regex_found(pattern@, self.model().headers[j].1)),
    {
        let mut i: usize = 0;
        while i < self.headers.len()
            invariant
                0 <= i <= self.headers@.len(),
                forall|j: int|
                    0 <= j < i ==> !(ascii_lower((#[trigger] self.model().headers[j]).0)
                        == lowered_name@ && crate::matching::value_decodable(
                        self.model().headers[j].1,
                    ) && crate::regex_support::regex_found(pattern@, self.model().headers[j].1)),
            decreases self.headers@.len() - i,
        {
            let hl = to_ascii_lower(self.headers[i].name.as_slice());
            if bytes_eq(hl.as_slice(), lowered_name) && value_decodable_exec(
                self.headers[i].value.as_slice(),
            ) && crate::regex_support::regex_search(pattern, self.headers[i].value.as_slice()) {
                proof {
                    assert(ascii_lower(self.model().headers[i as int].0) == lowered_name@);
                }
                return true;
            }
            i += 1;
        }
        false
    }
}

/// The router's normalisation switches.
#[derive(PartialEq, Eq, Structural, Clone, Copy)]
pub struct RouterConfig {
    pub ignore_host_case: bool,
    pub ignore_header_case: bool,
}

impl RouterConfig {
    /// The default behaviour: hosts and header values as given.
    pub fn new() -> (r: RouterConfig)
        ensures
            !r.ignore_host_case,
            !r.ignore_header_case,
    {
        RouterConfig { ignore_host_case: false, ignore_header_case: false }
    }
}

impl Request {
    /// Builds a request under a configuration: the host is lowercased when
    /// the configuration ignores host case.
    pub fn from_config(
        config: &RouterConfig,
        path_and_query: String,
        host: Option<String>,
        scheme: Option<String>,
        method: Option<String>,
    ) -> (r: Request)
        ensures
            r.model().path_and_query == encode_utf8(path_and_query@),
            r.model().headers =~= Seq::<(Seq<u8>, Seq<u8>)>::empty(),
            r.model().host == (match host {
                Option::Some(h) => if encode_utf8(h@).len() == 0 {
                    Option::<Seq<u8>>::None
                } else if config.ignore_host_case {
                    Option::<Seq<u8>>::Some(ascii_lower(encode_utf8(h@)))
                } else {
                    Option::<Seq<u8>>::Some(encode_utf8(h@))
                },
                Option::None => Option::<Seq<u8>>::None,
            }),
            r.model().scheme == (match scheme {
                Option::Some(s) => Option::<Seq<u8>>::Some(encode_utf8(s@)),
                Option::None => Option::<Seq<u8>>::None,
            }),
            r.model().method == (match method {
                Option::Some(m) => Option::<Seq<u8>>::Some(encode_utf8(m@)),
                Option::None => Option::<Seq<u8>>::None,
            }),
    {
        let mut request = Request::new(path_and_query, host, scheme, method);
        if config.ignore_host_case {
            let lowered = match &request.host {
                Option::Some(h) => Option::Some(to_ascii_lower(h.as_slice())),
                Option::None => Option::None,
            };
            request.host = lowered;
        }
        request
    }

    /// Rebuilds a request under another configuration: the host and, when
    /// asked, every header value are lowercased.
    pub fn rebuild_with_config(config: &RouterConfig, request: &Request) -> (r: Request)
        ensures
            r.model().path_and_query == request.model().path_and_query,
            r.model().scheme == request.model().scheme,
            r.model().method == request.model().method,
            r.model().host == (match request.model().host {
                Option::Some(h) => if config.ignore_host_case {
                    Option::<Seq<u8>>::Some(ascii_lower(h))
                } else {
                    Option::<Seq<u8>>::Some(h)
                },
                Option::None => Option::<Seq<u8>>::None,
            }),
            r.model().headers.len() == request.model().headers.len(),
            forall|i: int|
                0 <= i < r.model().headers.len() ==> (#[trigger] r.model().headers[i]) == (
                    request.model().headers[i].0,
                    if config.ignore_header_case {
                        ascii_lower(request.model().headers[i].1)
                    } else {
                        request.model().headers[i].1
                    },
                ),
    {
        let host = match &request.host {
            Option::Some(h) => {
                if config.ignore_host_case {
                    Option::Some(to_ascii_lower(h.as_slice()))
                } else {
                    Option::Some(h.clone())
                }
            },
            Option::None => Option::None,
        };
        let scheme = match &request.scheme {
            Option::Some(s) => Option::Some(s.clone()),
            Option::None => Option::None,
        };
        let method = match &request.method {
            Option::Some(m) => Option::Some(m.clone()),
            Option::None => Option::None,
        };
        let mut headers: Vec<Header> = Vec::new();
        let mut i: usize = 0;
        while i < request.headers.len()
            invariant
                0 <= i <= request.headers@.len(),
                headers@.len() == i,
                forall|j: int|
                    0 <= j < i ==> ((#[trigger] headers@[j]).name@, headers@[j].value@) == (
                        request.model().headers[j].0,
                        if config.ignore_header_case {
                            ascii_lower(request.model().headers[j].1)
                        } else {
                            request.model().headers[j].1
                        },
                    ),
            decreases request.headers@.len() - i,
        {
            let value = if config.ignore_header_case {
                to_ascii_lower(request.headers[i].value.as_slice())
            } else {
                request.headers[i].value.clone()
            };
            headers.push(Header { name: request.headers[i].name.clone(), value });
            i += 1;
        }
        let r = Request {
            path_and_query: request.path_and_query.clone(),
            host,
            scheme,
            method,
            headers,
        };
        proof {
            assert forall|j: int| 0 <= j < r.model().headers.len() implies (
            #[trigger] r.model().headers[j]) == (
                request.model().headers[j].0,
                if config.ignore_header_case {
                    ascii_lower(request.model().headers[j].1)
                } else {
                    request.model().headers[j].1
                },
            ) by {
                assert(r.model().headers[j] == (r.headers@[j].name@, r.headers@[j].value@));
            }
        }
        r
    }
}

/// Every string of the list is some forwarded element's candidate value.
pub open spec fn all_candidates(vs: Seq<Seq<u8>>) -> bool {
    forall|i: int|
        0 <= i < vs.len() ==> exists|e: Seq<u8>|
            forwarded_candidate(e) == Option::Some(#[trigger] vs[i])
}

/// The candidate address strings of forwarded headers: each comma- or
/// semicolon-separated element, trimmed of spaces and double quotes, and for
/// elements written as `name=value` only the value of a `for` name.
pub open spec fn forwarded_candidate(elem: Seq<u8>) -> Option<Seq<u8>> {
    let t = trim_spaces(elem);
    let e = crate::canon::find_byte(t, 61);
    if e < t.len() {
        if ascii_lower(t.subrange(0, e)) == spec_for_name() {
            Option::Some(trim_quotes(trim_spaces(t.subrange(e + 1, t.len() as int))))
        } else {
            Option::None
        }
    } else {
        Option::None
    }
}

/// The bytes of "for".
pub open spec fn spec_for_name() -> Seq<u8> {
    seq![102u8, 111u8, 114u8]
}

/// The string without leading and trailing spaces.
pub open spec fn trim_spaces(s: Seq<u8>) -> Seq<u8>
    decreases s.len(),
{
    if s.len() > 0 && s[0] == 32 {
        trim_spaces(s.drop_first())
    } else if s.len() > 0 && s.last() == 32 {
        trim_spaces(s.drop_last())
    } else {
        s
    }
}

/// The string without leading and trailing double quotes.
pub open spec fn trim_quotes(s: Seq<u8>) -> Seq<u8>
    decreases s.len(),
{
    if s.len() > 0 && s[0] == 34 {
        trim_quotes(s.drop_first())
    } else if s.len() > 0 && s.last() == 34 {
        trim_quotes(s.drop_last())
    } else {
        s
    }
}

/// Trims a byte from both ends.
fn trim_byte_exec(s: &[u8], b: u8) -> (r: Vec<u8>)
    ensures
        b == 32 ==> r@ == trim_spaces(s@),
        b == 34 ==> r@ == trim_quotes(s@),
    decreases s@.len(),
{
    if s.len() > 0 && s[0] == b {
        let rest = crate::canon::slice_from(s, 1);
        proof {
            assert(rest@ =~= s@.drop_first());
        }
        trim_byte_exec(rest, b)
    } else if s.len() > 0 && s[s.len() - 1] == b {
        let rest = crate::canon::slice_range(s, 0, s.len() - 1);
        proof {
            assert(rest@ =~= s@.drop_last());
        }
        trim_byte_exec(rest, b)
    } else {
        let r = crate::canon::copy_range(s, 0, s.len());
        proof {
            assert(r@ =~= s@);
        }
        r
    }
}

impl Request {
    /// All values of the named header joined with commas, or None when the
    /// header is absent.
    pub fn header_value(&self, name: &str) -> (r: Option<Vec<u8>>)
        ensures
            (r is Some) == (header_values_of(self.model(), ascii_lower(encode_utf8(name@))).len()
                > 0),
            r is Some ==> (r->Some_0)@ == join_comma(
                header_values_of(self.model(), ascii_lower(encode_utf8(name@))),
            ),
    {
        let values = self.header_values(name);
        if values.len() == 0 {
            proof {
                assert(values.deep_view().len() == 0);
            }
            return Option::None;
        }
        let mut out: Vec<u8> = Vec::new();
        let mut i: usize = 0;
        let ghost vs = values.deep_view();
        proof {
            assert(vs.len() == values@.len());
            assert(out@ =~= join_comma(vs.subrange(0, 0)));
        }
        while i < values.len()
            invariant
                0 < values@.len(),
                0 <= i <= values@.len(),
                vs == values.deep_view(),
                vs.len() == values@.len(),
                out@ == join_comma(vs.subrange(0, i as int)),
            decreases values@.len() - i,
        {
            let ghost pre = vs.subrange(0, i as int);
            proof {
                assert(vs.subrange(0, i as int + 1) =~= pre.push(vs[i as int]));
                lemma_join_comma_push(pre, vs[i as int]);
                assert(vs[i as int] == values@[i as int]@);
            }
            if i > 0 {
                out.push(44);
            }
            crate::canon::append_vec(&mut out, values[i].clone());
            i += 1;
        }
        proof {
            assert(vs.subrange(0, vs.len() as int) =~= vs);
        }
        Option::Some(out)
    }

    /// The candidate forwarded addresses of the request: for each value of
    /// the named header, each separated element's `for` value, trimmed.
    pub fn forwarded_for_candidates(&self) -> (r: Vec<Vec<u8>>)
        ensures
            all_candidates(r.deep_view()),
    {
        let mut fwd_name: Vec<u8> = Vec::new();
        fwd_name.push(102);
        fwd_name.push(111);
        fwd_name.push(114);
        fwd_name.push(119);
        fwd_name.push(97);
        fwd_name.push(114);
        fwd_name.push(100);
        fwd_name.push(101);
        fwd_name.push(100);
        let values = self.header_values_lowered(fwd_name.as_slice());
        let mut out: Vec<Vec<u8>> = Vec::new();
        proof {
            assert(out.deep_view().len() == 0);
        }
        let mut v: usize = 0;
        while v < values.len()
            invariant
                all_candidates(out.deep_view()),
            decreases values@.len() - v,
        {
            collect_forwarded(values[v].as_slice(), &mut out);
            v += 1;
        }
        out
    }

    /// Every value of the header with this lowercased name.
    pub fn header_values_lowered(&self, lowered_name: &[u8]) -> (r: Vec<Vec<u8>>)
        ensures
            r.deep_view() == header_values_of(self.model(), lowered_name@),
    {
        let mut out: Vec<Vec<u8>> = Vec::new();
        let mut i: usize = 0;
        proof {
            assert(self.model().headers.subrange(0, 0) =~= Seq::<(Seq<u8>, Seq<u8>)>::empty());
            assert(out.deep_view() =~= values_from(
                self.model().headers.subrange(0, 0),
                lowered_name@,
            ));
        }
        while i < self.headers.len()
            invariant
                0 <= i <= self.headers@.len(),
                self.model().headers.len() == self.headers@.len(),
                out.deep_view() == values_from(
                    self.model().headers.subrange(0, i as int),
                    lowered_name@,
                ),
            decreases self.headers@.len() - i,
        {
            let ghost pre = self.model().headers.subrange(0, i as int);
            proof {
                assert(self.model().headers.subrange(0, i as int + 1) =~= pre.push(
                    self.model().headers[i as int],
                ));
                lemma_values_from_push(pre, self.model().headers[i as int], lowered_name@);
            }
            let hl = to_ascii_lower(self.headers[i].name.as_slice());
            if bytes_eq(hl.as_slice(), lowered_name) {
                let ghost dpre = out.deep_view();
                let cloned = self.headers[i].value.clone();
                out.push(cloned);
                proof {
                    assert(out@.last().deep_view() =~= self.model().headers[i as int].1);
                    assert(out.deep_view() =~= dpre.push(out@.last().deep_view()));
                }
            }
            i += 1;
        }
        proof {
            assert(self.model().headers.subrange(0, self.model().headers.len() as int)
                =~= self.model().headers);
        }
        out
    }
}

/// Splits one forwarded header value on semicolons and commas and keeps
/// every element's `for` value.
#[verifier::loop_isolation(false)]
fn collect_forwarded(value: &[u8], out: &mut Vec<Vec<u8>>)
    requires
        all_candidates(old(out).deep_view()),
    ensures
        all_candidates(final(out).deep_view()),
{
    let mut start: usize = 0;
    let mut i: usize = 0;
    while i < value.len()
        invariant
            0 <= start <= i <= value@.len(),
            all_candidates(out.deep_view()),
        decreases value@.len() - i,
    {
        if value[i] == 59 || value[i] == 44 {
            let elem = crate::canon::copy_range(value, start, i);
            push_candidate(elem, out);
            start = i + 1;
        }
        i += 1;
    }
    let elem = crate::canon::copy_range(value, start, value.len());
    push_candidate(elem, out);
}

/// Keeps the `for` value of one element, when it has one.
fn push_candidate(elem: Vec<u8>, out: &mut Vec<Vec<u8>>)
    requires
        all_candidates(old(out).deep_view()),
    ensures
        all_candidates(final(out).deep_view()),
{
    let trimmed = trim_byte_exec(elem.as_slice(), 32);
    let e = crate::canon::find_byte_exec(trimmed.as_slice(), 61);
    proof {
        crate::canon::lemma_find_byte(trimmed@, 61);
    }
    if e < trimmed.len() {
        let name = to_ascii_lower(crate::canon::slice_range(trimmed.as_slice(), 0, e));
        let mut for_name: Vec<u8> = Vec::new();
        for_name.push(102);
        for_name.push(111);
        for_name.push(114);
        proof {
            assert(for_name@ =~= spec_for_name());
        }
        if bytes_eq(name.as_slice(), for_name.as_slice()) {
            let raw = crate::canon::copy_range(trimmed.as_slice(), e + 1, trimmed.len());
            let val = trim_byte_exec(trim_byte_exec(raw.as_slice(), 32).as_slice(), 34);
            let ghost dpre = out.deep_view();
            proof {
                assert(raw@ =~= trimmed@.subrange(e as int + 1, trimmed@.len() as int));
                assert(forwarded_candidate(elem@) == Option::Some(val@));
            }
            out.push(val);
            proof {
                assert(out@.last().deep_view() =~= forwarded_candidate(elem@)->Some_0);
                assert(out.deep_view() =~= dpre.push(out@.last().deep_view()));
                assert forall|i: int|
                    0 <= i < out.deep_view().len() implies exists|x: Seq<u8>|
                    forwarded_candidate(x) == Option::Some(
                        #[trigger] out.deep_view()[i],
                    ) by {
                    if i < out.deep_view().len() - 1 {
                        assert(out.deep_view()[i] == dpre[i]);
                        assert(exists|x: Seq<u8>|
                            forwarded_candidate(x) == Option::Some(dpre[i]));
                    } else {
                        assert(out.deep_view()[i] == val@);
                        assert(forwarded_candidate(elem@) == Option::Some(val@));
                    }
                }
            }
        }
    }
}

/// The values joined with commas.
pub open spec fn join_comma(vs: Seq<Seq<u8>>) -> Seq<u8>
    decreases vs.len(),
{
    if vs.len() == 0 {
        Seq::empty()
    } else if vs.len() == 1 {
        vs[0]
    } else {
        join_comma(vs.drop_last()) + seq![44u8] + vs.last()
    }
}

proof fn lemma_join_comma_push(vs: Seq<Seq<u8>>, v: Seq<u8>)
    ensures
        vs.len() == 0 ==> join_comma(vs.push(v)) == v,
        vs.len() > 0 ==> join_comma(vs.push(v)) == join_comma(vs) + seq![44u8] + v,
{
    assert(vs.push(v).drop_last() =~= vs);
    assert(vs.push(v).last() == v);
    if vs.len() == 0 {
        assert(join_comma(vs.push(v)) == vs.push(v)[0]);
    }
}

} // verus!

//! The log record a proxy emits for one handled request.

use vstd::prelude::*;
use vstd::string::StrSliceExecFns;
use vstd::string::StringSliceAdditionalSpecFns;
use crate::bytes_util::{ascii_lower, to_ascii_lower, bytes_eq};
use crate::request::{Request, Header};
use crate::action::Action;

verus! {

/// Where the handled request came from.
pub struct FromLog {
    pub rule_id: Option<Vec<u8>>,
    pub url: Vec<u8>,
    pub method: Option<Vec<u8>>,
    pub scheme: Option<Vec<u8>>,
    pub host: Option<Vec<u8>>,
    pub referer: Option<Vec<u8>>,
    pub user_agent: Option<Vec<u8>>,
}

/// One handled request, as reported.
pub struct Log {
    pub code: u16,
    pub to: Option<Vec<u8>>,
    pub time: u64,
    pub proxy: Vec<u8>,
    pub from: FromLog,
}

/// The value of the last header carrying this lowercased name.
pub open spec fn last_header_value(hs: Seq<(Seq<u8>, Seq<u8>)>, lname: Seq<u8>) -> Option<Seq<u8>>
    decreases hs.len(),
{
    if hs.len() == 0 {
        Option::None
    } else if ascii_lower(hs.last().0) == lname {
        Option::Some(hs.last().1)
    } else {
        last_header_value(hs.drop_last(), lname)
    }
}

/// Finds the value of the last header of this lowercased name.
fn last_header_value_exec(headers: &Vec<Header>, lname: &[u8]) -> (r: Option<Vec<u8>>)
    ensures
        (r is Some) == (last_header_value(
            headers@.map_values(|h: Header| (h.name@, h.value@)),
            lname@,
        ) is Some),
        r is Some ==> (r->Some_0)@ == last_header_value(
            headers@.map_values(|h: Header| (h.name@, h.value@)),
            lname@,
        )->Some_0,
{
    let ghost hs = headers@.map_values(|h: Header| (h.name@, h.value@));
    let mut found: Option<Vec<u8>> = Option::None;
    let mut i: usize = 0;
    proof {
        assert(hs.subrange(0, 0) =~= Seq::<(Seq<u8>, Seq<u8>)>::empty());
    }
    while i < headers.len()
        invariant
            0 <= i <= headers@.len(),
            hs == headers@.map_values(|h: Header| (h.name@, h.value@)),
            hs.len() == headers@.len(),
            (found is Some) == (last_header_value(hs.subrange(0, i as int), lname@) is Some),
            found is Some ==> (found->Some_0)@ == last_header_value(
                hs.subrange(0, i as int),
                lname@,
            )->Some_0,
        decreases headers@.len() - i,
    {
        let ghost pre = hs.subrange(0, i as int);
        proof {
            assert(hs.subrange(0, i as int + 1) =~= pre.push(hs[i as int]));
            assert(pre.push(hs[i as int]).drop_last() =~= pre);
            assert(hs[i as int] == (headers@[i as int].name@, headers@[i as int].value@));
        }
        let hl = to_ascii_lower(headers[i].name.as_slice());
        if bytes_eq(hl.as_slice(), lname) {
            found = Option::Some(headers[i].value.clone());
        }
        i += 1;
    }
    proof {
        assert(hs.subrange(0, hs.len() as int) =~= hs);
    }
    found
}

impl Log {
    /// Builds the record a proxy reports: the response code, the Location
    /// header sent, and what the request carried.
    pub fn from_proxy(
        request: &Request,
        code: u16,
        response_headers: Vec<Header>,
        action: &Action,
        proxy: &str,
        time: u64,
    ) -> (r: Log)
        ensures
            r.code == code,
            r.time == time,
            r.proxy@ == proxy.spec_bytes(),
            ((r.to is Some) == (last_header_value(
                response_headers@.map_values(|h: Header| (h.name@, h.value@)),
                spec_location_lower(),
            ) is Some)),
            r.to is Some ==> (r.to->Some_0)@ == last_header_value(
                response_headers@.map_values(|h: Header| (h.name@, h.value@)),
                spec_location_lower(),
            )->Some_0,
            r.from.url@ == request.model().path_and_query,
            ((r.from.rule_id is Some) == (action.model().rule_ids.len() > 0)),
            r.from.rule_id is Some ==> (r.from.rule_id->Some_0)@ == action.model().rule_ids.last(),
            ((r.from.user_agent is Some) == (last_header_value(
                request.model().headers,
                spec_user_agent_lower(),
            ) is Some)),
            r.from.user_agent is Some ==> (r.from.user_agent->Some_0)@ == last_header_value(
                request.model().headers,
                spec_user_agent_lower(),
            )->Some_0,
            ((r.from.referer is Some) == (last_header_value(
                request.model().headers,
                spec_referer_lower(),
            ) is Some)),
            r.from.referer is Some ==> (r.from.referer->Some_0)@ == last_header_value(
                request.model().headers,
                spec_referer_lower(),
            )->Some_0,
            ((r.from.method is Some) == (request.model().method is Some)),
            r.from.method is Some ==> (r.from.method->Some_0)@ == request.model().method->Some_0,
            ((r.from.scheme is Some) == (request.model().scheme is Some)),
            r.from.scheme is Some ==> (r.from.scheme->Some_0)@ == request.model().scheme->Some_0,
            ((r.from.host is Some) == (request.model().host is Some)),
            r.from.host is Some ==> (r.from.host->Some_0)@ == request.model().host->Some_0,
    {
        let mut ua_name: Vec<u8> = Vec::new();
        ua_name.push(117);
        ua_name.push(115);
        ua_name.push(101);
        ua_name.push(114);
        ua_name.push(45);
        ua_name.push(97);
        ua_name.push(103);
        ua_name.push(101);
        ua_name.push(110);
        ua_name.push(116);
        let mut ref_name: Vec<u8> = Vec::new();
        ref_name.push(114);
        ref_name.push(101);
        ref_name.push(102);
        ref_name.push(101);
        ref_name.push(114);
        ref_name.push(101);
        ref_name.push(114);
        let mut loc_name: Vec<u8> = Vec::new();
        loc_name.push(108);
        loc_name.push(111);
        loc_name.push(99);
        loc_name.push(97);
        loc_name.push(116);
        loc_name.push(105);
        loc_name.push(111);
        loc_name.push(110);
        proof {
            assert(ua_name@ =~= spec_user_agent_lower());
            assert(ref_name@ =~= spec_referer_lower());
            assert(loc_name@ =~= spec_location_lower());
        }
        let user_agent = last_header_value_exec(&request.headers, ua_name.as_slice());
        let referer = last_header_value_exec(&request.headers, ref_name.as_slice());
        let to = last_header_value_exec(&response_headers, loc_name.as_slice());
        let rule_id = if action.rule_ids.len() > 0 {
            let last = action.rule_ids[action.rule_ids.len() - 1].clone();
            proof {
                assert(action.model().rule_ids.last() == action.rule_ids@[action.rule_ids@.len()
                    - 1]@);
            }
            Option::Some(last)
        } else {
            Option::None
        };
        let method = match &request.method {
            Option::Some(m) => Option::Some(m.clone()),
            Option::None => Option::None,
        };
        let scheme = match &request.scheme {
            Option::Some(s) => Option::Some(s.clone()),
            Option::None => Option::None,
        };
        let host = match &request.host {
            Option::Some(h) => Option::Some(h.clone()),
            Option::None => Option::None,
        };
        Log {
            code,
            to,
            time,
            proxy: proxy.as_bytes_vec(),
            from: FromLog {
                rule_id,
                url: request.path_and_query.clone(),
                method,
                scheme,
                host,
                referer,
                user_agent,
            },
        }
    }
}

/// The bytes of "user-agent".
pub open spec fn spec_user_agent_lower() -> Seq<u8> {
    seq![117u8, 115u8, 101u8, 114u8, 45u8, 97u8, 103u8, 101u8, 110u8, 116u8]
}

/// The bytes of "referer".
pub open spec fn spec_referer_lower() -> Seq<u8> {
    seq![114u8, 101u8, 102u8, 101u8, 114u8, 101u8, 114u8]
}

/// The bytes of "location", lowercased.
pub open spec fn spec_location_lower() -> Seq<u8> {
    seq![108u8, 111u8, 99u8, 97u8, 116u8, 105u8, 111u8, 110u8]
}

} // verus!

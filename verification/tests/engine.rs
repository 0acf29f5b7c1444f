use redirectionio::action::Action;
use redirectionio::request::{Header, Request};
use redirectionio::router::Router;
use redirectionio::rule::{
    HeaderCondition, Rule, Source, StaticOrDynamic, ValueCondition,
};
use redirectionio::trace::{Trace, TraceAction};

fn plain_rule(id: &str, priority: i64, path: StaticOrDynamic) -> Rule {
    Rule {
        id: id.as_bytes().to_vec(),
        priority,
        source: Source {
            scheme: None,
            host: None,
            path_and_query: path,
            methods: Vec::new(),
            headers: Vec::new(),
        },
        redirect_code: None,
        match_on_response_status: None,
        target: None,
        header_filters: Vec::new(),
        body_filters: Vec::new(),
    }
}

fn get_request(path: &str) -> Request {
    Request::new(
        path.to_string(),
        Some("x".to_string()),
        Some("http".to_string()),
        Some("GET".to_string()),
    )
}

#[test]
fn static_redirect_composes_action() {
    let mut router = Router::new();
    let mut rule = plain_rule("r1", 0, StaticOrDynamic::Static(b"/old".to_vec()));
    rule.redirect_code = Some(301);
    rule.target = Some(b"/new".to_vec());
    router.insert(rule).unwrap();

    let request = get_request("/old");
    let routes = router.match_request(&request);
    assert_eq!(routes.len(), 1);

    let action = Action::from_routes_rule(routes, &request);
    assert_eq!(action.rule_ids, vec![b"r1".to_vec()]);
    assert_eq!(action.get_status_code(200), 301);
    assert_eq!(action.get_status_code(404), 301);

    let headers = action.filter_headers(Vec::new(), 301);
    assert_eq!(headers.len(), 1);
    assert_eq!(headers[0].name, b"Location".to_vec());
    assert_eq!(headers[0].value, b"/new".to_vec());
}

#[test]
fn priority_fallback_composition() {
    let mut router = Router::new();
    let mut r_hi = plain_rule("r_hi", 100, StaticOrDynamic::Static(b"/p".to_vec()));
    r_hi.redirect_code = Some(301);
    let mut r_lo = plain_rule("r_lo", 10, StaticOrDynamic::Static(b"/p".to_vec()));
    r_lo.redirect_code = Some(302);
    r_lo.match_on_response_status = Some(404);
    router.insert(r_hi).unwrap();
    router.insert(r_lo).unwrap();

    let request = get_request("/p");
    let routes = router.match_request(&request);
    assert_eq!(routes.len(), 2);

    let action = Action::from_routes_rule(routes, &request);
    let update = action.status_code_update.unwrap();
    assert_eq!(update.status_code, 302);
    assert_eq!(update.on_response_status_code, 404);
    assert_eq!(update.fallback_status_code, 301);
    assert_eq!(action.get_status_code(404), 302);
    assert_eq!(action.get_status_code(200), 301);
}

#[test]
fn dynamic_path_capture_renders_target() {
    let mut router = Router::new();
    let mut rule = plain_rule(
        "cap",
        0,
        StaticOrDynamic::Dynamic(b"/u/(?P<id>[0-9]+)".to_vec()),
    );
    rule.redirect_code = Some(302);
    rule.target = Some(b"/users/{id}".to_vec());
    router.insert(rule).unwrap();

    let request = get_request("/u/42");
    let routes = router.match_request(&request);
    assert_eq!(routes.len(), 1);

    let action = Action::from_routes_rule(routes, &request);
    let headers = action.filter_headers(Vec::new(), 302);
    assert_eq!(headers.len(), 1);
    assert_eq!(headers[0].name, b"Location".to_vec());
    assert_eq!(headers[0].value, b"/users/42".to_vec());
}

#[test]
fn query_canonicalisation_sorts_keys() {
    let r1 = get_request("/p?b=2&a=1");
    let r2 = get_request("/p?a=1&b=2");
    assert_eq!(r1.canonical_key(), b"/p?a=1&b=2".to_vec());
    assert_eq!(r2.canonical_key(), b"/p?a=1&b=2".to_vec());

    let mut router = Router::new();
    router
        .insert(plain_rule("q", 0, StaticOrDynamic::Static(b"/p?a=1&b=2".to_vec())))
        .unwrap();
    assert_eq!(router.match_request(&r1).len(), 1);
    assert_eq!(router.match_request(&r2).len(), 1);
}

#[test]
fn canonicalisation_is_idempotent_on_plain_queries() {
    let once = get_request("/p?b=2&a=1").canonical_key();
    let again = Request::new(
        String::from_utf8(once.clone()).unwrap(),
        None,
        None,
        None,
    )
    .canonical_key();
    assert_eq!(once, again);

    let first = get_request("/q?x=a%20b&y=&z=3").canonical_key();
    let second = Request::new(String::from_utf8(first.clone()).unwrap(), None, None, None)
        .canonical_key();
    assert_eq!(first, second);
}

#[test]
fn empty_query_keeps_no_question_mark() {
    assert_eq!(Request::build_sorted_query(""), None);
    assert_eq!(get_request("/p?").canonical_key(), b"/p".to_vec());
}

#[test]
fn empty_host_counts_as_no_host() {
    let request = Request::new("/p".to_string(), Some("".to_string()), None, None);
    let mut router = Router::new();
    router
        .insert(plain_rule("h", 0, StaticOrDynamic::Static(b"/p".to_vec())))
        .unwrap();
    assert_eq!(router.match_request(&request).len(), 1);
}

#[test]
fn header_conjunction_matches_and_fails() {
    let mut rule = plain_rule("hdr", 0, StaticOrDynamic::Static(b"/p".to_vec()));
    rule.source.headers = vec![
        HeaderCondition {
            header_name: b"x-a".to_vec(),
            condition: ValueCondition::Static(b"1".to_vec()),
        },
        HeaderCondition {
            header_name: b"x-b".to_vec(),
            condition: ValueCondition::NotExist,
        },
    ];
    let mut router = Router::new();
    router.insert(rule).unwrap();

    let mut with_a = get_request("/p");
    with_a.add_header("X-A".to_string(), "1".to_string(), false);
    assert_eq!(router.match_request(&with_a).len(), 1);

    let mut with_both = get_request("/p");
    with_both.add_header("X-A".to_string(), "1".to_string(), false);
    with_both.add_header("X-B".to_string(), "0".to_string(), false);
    assert_eq!(router.match_request(&with_both).len(), 0);
}

#[test]
fn not_exist_fails_on_empty_value_too() {
    let mut rule = plain_rule("ne", 0, StaticOrDynamic::Static(b"/p".to_vec()));
    rule.source.headers = vec![HeaderCondition {
        header_name: b"x-b".to_vec(),
        condition: ValueCondition::NotExist,
    }];
    let mut router = Router::new();
    router.insert(rule).unwrap();

    let absent = get_request("/p");
    assert_eq!(router.match_request(&absent).len(), 1);

    let mut empty_value = get_request("/p");
    empty_value.add_header("X-B".to_string(), "".to_string(), false);
    assert_eq!(router.match_request(&empty_value).len(), 0);
}

#[test]
fn shared_prefix_tree_prunes_other_paths() {
    let mut router = Router::new();
    for i in 0..1000 {
        let pattern = format!("/api/v1/item/{}/([0-9]+)", i);
        router
            .insert(plain_rule(
                &format!("rule-{}", i),
                0,
                StaticOrDynamic::Dynamic(pattern.into_bytes()),
            ))
            .unwrap();
    }
    let request = get_request("/other");
    assert_eq!(router.match_request(&request).len(), 0);
    let request2 = get_request("/api/v1/item/42/7");
    assert_eq!(router.match_request(&request2).len(), 1);
}

#[test]
fn insert_then_remove_restores_empty_matches() {
    let mut router = Router::new();
    router
        .insert(plain_rule("gone", 0, StaticOrDynamic::Static(b"/p".to_vec())))
        .unwrap();
    let request = get_request("/p");
    assert_eq!(router.match_request(&request).len(), 1);

    assert!(router.remove("gone"));
    assert_eq!(router.match_request(&request).len(), 0);
    assert!(!router.remove("gone"));
}

#[test]
fn build_order_does_not_change_matches_or_action() {
    let mut a = plain_rule("a", 5, StaticOrDynamic::Static(b"/p".to_vec()));
    a.redirect_code = Some(301);
    let mut b = plain_rule("b", 9, StaticOrDynamic::Static(b"/p".to_vec()));
    b.redirect_code = Some(308);

    let mut router1 = Router::new();
    router1.insert(a.clone()).unwrap();
    router1.insert(b.clone()).unwrap();
    let mut router2 = Router::new();
    router2.insert(b).unwrap();
    router2.insert(a).unwrap();

    let request = get_request("/p");
    let routes1 = router1.match_request(&request);
    let routes2 = router2.match_request(&request);
    assert_eq!(routes1.len(), routes2.len());

    let action1 = Action::from_routes_rule(routes1, &request);
    let action2 = Action::from_routes_rule(routes2, &request);
    assert_eq!(action1.rule_ids, action2.rule_ids);
    assert_eq!(action1.get_status_code(200), action2.get_status_code(200));
    assert_eq!(action1.rule_ids, vec![b"b".to_vec(), b"a".to_vec()]);
}

#[test]
fn trace_collects_exactly_the_match_set() {
    let mut router = Router::new();
    let mut r1 = plain_rule("t1", 3, StaticOrDynamic::Static(b"/p".to_vec()));
    r1.redirect_code = Some(301);
    router.insert(r1).unwrap();
    router
        .insert(plain_rule("t2", 1, StaticOrDynamic::Dynamic(b"/p.*".to_vec())))
        .unwrap();
    router
        .insert(plain_rule("t3", 0, StaticOrDynamic::Static(b"/other".to_vec())))
        .unwrap();

    let request = get_request("/p");
    let mut matched: Vec<Vec<u8>> = router
        .match_request(&request)
        .into_iter()
        .map(|r| r.id)
        .collect();
    matched.sort();

    let traces = router.trace(&request);
    let mut collected: Vec<Vec<u8>> = Trace::get_routes_from_traces(&traces)
        .into_iter()
        .map(|r| r.id)
        .collect();
    collected.sort();

    assert_eq!(matched, collected);
    assert_eq!(collected, vec![b"t1".to_vec(), b"t2".to_vec()]);

    let steps = TraceAction::from_trace_rules(&traces, &request);
    assert_eq!(steps.len(), 2);
    assert_eq!(steps[0].rule.id, b"t1".to_vec());
    assert_eq!(steps[1].rule.id, b"t2".to_vec());
    assert_eq!(steps[1].action.get_status_code(200), 301);
}

#[test]
fn scheme_and_method_lanes_filter() {
    let mut https_only = plain_rule("s", 0, StaticOrDynamic::Static(b"/p".to_vec()));
    https_only.source.scheme = Some(b"https".to_vec());
    let mut post_only = plain_rule("m", 0, StaticOrDynamic::Static(b"/p".to_vec()));
    post_only.source.methods = vec![b"POST".to_vec()];
    let mut router = Router::new();
    router.insert(https_only).unwrap();
    router.insert(post_only).unwrap();

    let request = get_request("/p");
    assert_eq!(router.match_request(&request).len(), 0);

    let https_req = Request::new(
        "/p".to_string(),
        Some("x".to_string()),
        Some("https".to_string()),
        Some("GET".to_string()),
    );
    let ids: Vec<Vec<u8>> = router
        .match_request(&https_req)
        .into_iter()
        .map(|r| r.id)
        .collect();
    assert_eq!(ids, vec![b"s".to_vec()]);

    let post_req = Request::new(
        "/p".to_string(),
        Some("x".to_string()),
        Some("http".to_string()),
        Some("POST".to_string()),
    );
    let ids: Vec<Vec<u8>> = router
        .match_request(&post_req)
        .into_iter()
        .map(|r| r.id)
        .collect();
    assert_eq!(ids, vec![b"m".to_vec()]);
}

#[test]
fn any_host_is_skipped_when_a_specific_host_matches() {
    let mut specific = plain_rule("spec", 0, StaticOrDynamic::Static(b"/p".to_vec()));
    specific.source.host = Some(StaticOrDynamic::Static(b"x".to_vec()));
    let fallback = plain_rule("fall", 0, StaticOrDynamic::Static(b"/p".to_vec()));
    let mut router = Router::new();
    router.insert(specific).unwrap();
    router.insert(fallback).unwrap();

    let request = get_request("/p");
    let ids: Vec<Vec<u8>> = router
        .match_request(&request)
        .into_iter()
        .map(|r| r.id)
        .collect();
    assert_eq!(ids, vec![b"spec".to_vec()]);

    let elsewhere = Request::new(
        "/p".to_string(),
        Some("y".to_string()),
        Some("http".to_string()),
        None,
    );
    let ids: Vec<Vec<u8>> = router
        .match_request(&elsewhere)
        .into_iter()
        .map(|r| r.id)
        .collect();
    assert_eq!(ids, vec![b"fall".to_vec()]);
}

#[test]
fn invalid_regex_rule_is_rejected() {
    let mut router = Router::new();
    let bad = plain_rule("bad", 0, StaticOrDynamic::Dynamic(b"/u/(".to_vec()));
    assert!(router.insert(bad).is_err());
    let good = plain_rule("good", 0, StaticOrDynamic::Static(b"/p".to_vec()));
    assert!(router.insert(good).is_ok());
    assert_eq!(router.match_request(&get_request("/p")).len(), 1);
}

#[test]
fn cache_returns_within_budget_and_keeps_matches() {
    let mut router = Router::new();
    router
        .insert(plain_rule("c1", 0, StaticOrDynamic::Dynamic(b"/a/[0-9]+".to_vec())))
        .unwrap();
    let leftover = router.cache(10, 3);
    assert!(leftover <= 10);
    assert_eq!(router.match_request(&get_request("/a/7")).len(), 1);
}

#[test]
fn filter_headers_applies_add_and_remove() {
    let mut rule = plain_rule("f", 0, StaticOrDynamic::Static(b"/p".to_vec()));
    rule.header_filters = vec![
        redirectionio::rule::HeaderFilter {
            action: b"add".to_vec(),
            header: b"X-Extra".to_vec(),
            value: b"yes".to_vec(),
        },
        redirectionio::rule::HeaderFilter {
            action: b"remove".to_vec(),
            header: b"X-Gone".to_vec(),
            value: Vec::new(),
        },
    ];
    let mut router = Router::new();
    router.insert(rule).unwrap();

    let request = get_request("/p");
    let action = Action::from_routes_rule(router.match_request(&request), &request);
    let headers = vec![Header { name: b"X-Gone".to_vec(), value: b"v".to_vec() }];
    let filtered = action.filter_headers(headers, 200);
    assert_eq!(filtered.len(), 1);
    assert_eq!(filtered[0].name, b"X-Extra".to_vec());
    assert_eq!(filtered[0].value, b"yes".to_vec());
}

#[test]
fn body_filters_apply_on_matching_status_only() {
    let mut rule = plain_rule("b", 0, StaticOrDynamic::Static(b"/p".to_vec()));
    rule.match_on_response_status = Some(404);
    rule.body_filters = vec![redirectionio::rule::BodyFilter {
        action: b"append".to_vec(),
        value: b"tail".to_vec(),
    }];
    let mut router = Router::new();
    router.insert(rule).unwrap();

    let request = get_request("/p");
    let action = Action::from_routes_rule(router.match_request(&request), &request);
    assert!(action.create_filter_body(200).is_none());
    let filter = action.create_filter_body(404).unwrap();
    assert_eq!(filter.len(), 1);
}

#[test]
fn invalid_escapes_and_pluses_decode_like_form_parsing() {
    assert_eq!(
        Request::build_sorted_query("a=%zz&b=1+2"),
        Some(b"a=%zz&b=1%202".to_vec())
    );
    assert_eq!(
        Request::build_sorted_query("a=%41"),
        Some(b"a=A".to_vec())
    );
}

#[test]
fn empty_tree_and_fresh_router_match_nothing() {
    let router = Router::new();
    assert_eq!(router.match_request(&get_request("/anything")).len(), 0);
    let traces = router.trace(&get_request("/anything"));
    assert_eq!(Trace::get_routes_from_traces(&traces).len(), 0);
}

fn collect_descriptions(traces: &[Trace], out: &mut Vec<Vec<u8>>) {
    for t in traces {
        out.push(t.description.clone());
        collect_descriptions(&t.children, out);
    }
}

#[test]
fn trace_reports_lanes_and_conditions() {
    let mut scheme_rule = plain_rule("lane", 0, StaticOrDynamic::Static(b"/p".to_vec()));
    scheme_rule.source.scheme = Some(b"http".to_vec());
    scheme_rule.source.host = Some(StaticOrDynamic::Static(b"x".to_vec()));
    let mut header_rule = plain_rule("cond", 0, StaticOrDynamic::Static(b"/p".to_vec()));
    header_rule.source.headers = vec![HeaderCondition {
        header_name: b"x-a".to_vec(),
        condition: ValueCondition::Static(b"1".to_vec()),
    }];
    let mut router = Router::new();
    router.insert(scheme_rule).unwrap();
    router.insert(header_rule).unwrap();

    let mut request = get_request("/p");
    request.add_header("X-A".to_string(), "1".to_string(), false);
    let traces = router.trace(&request);
    assert_eq!(Trace::get_routes_from_traces(&traces).len(), 2);

    let mut descriptions: Vec<Vec<u8>> = Vec::new();
    collect_descriptions(&traces, &mut descriptions);
    assert!(descriptions.contains(&b"Scheme http".to_vec()));
    assert!(descriptions.contains(&b"Host x".to_vec()));
    assert!(descriptions.contains(&b"Header condition on x-a: Match value 1".to_vec()));
    assert!(descriptions.contains(&b"Header condition group result".to_vec()));
}

use redirectionio::log::Log;
use redirectionio::request::{Header, Request};
use redirectionio::router::Router;
use redirectionio::router_scheme::RouterScheme;
use redirectionio::rule::{Rule, Source, StaticOrDynamic, ValueCondition};
use redirectionio::url_matcher_rules::UrlMatcherRules;
use redirectionio::action::Action;
use redirectionio::request::RouterConfig;
use redirectionio::path_matcher::PathAndQueryMatcher;

fn rule_with(id: &str, scheme: Option<&str>, path: &str) -> Rule {
    Rule {
        id: id.as_bytes().to_vec(),
        priority: 0,
        source: Source {
            scheme: scheme.map(|s| s.as_bytes().to_vec()),
            host: None,
            path_and_query: StaticOrDynamic::Static(path.as_bytes().to_vec()),
            methods: Vec::new(),
            headers: Vec::new(),
        },
        redirect_code: None,
        match_on_response_status: None,
        target: None,
        header_filters: Vec::new(),
        body_filters: Vec::new(),
    }
}

#[test]
fn url_matcher_rules_filters_by_path() {
    let rules = vec![
        rule_with("one", None, "/a"),
        rule_with("two", None, "/b"),
        rule_with("three", None, "/a"),
    ];
    let matcher = UrlMatcherRules::new(rules);
    let hit: Vec<Vec<u8>> = matcher.match_rule("/a").into_iter().map(|r| r.id).collect();
    assert_eq!(hit, vec![b"one".to_vec(), b"three".to_vec()]);
    assert_eq!(matcher.match_rule("/c").len(), 0);
    assert_eq!(matcher.get_rules().len(), 3);

    let items = matcher.trace("/a");
    assert_eq!(items.len(), 1);
    assert!(items[0].matches);
    assert_eq!(items[0].rules_matches.len(), 2);
    assert_eq!(items[0].rules_evaluated.len(), 3);
}

#[test]
fn router_scheme_buckets_and_matches() {
    let rules = vec![
        rule_with("h", Some("http"), "/a"),
        rule_with("s", Some("https"), "/a"),
        rule_with("n", None, "/a"),
        rule_with("w", Some("ws"), "/a"),
    ];
    let scheme_router = RouterScheme::new(rules);

    let on_http: Vec<Vec<u8>> = scheme_router
        .match_rule("/a", "http")
        .into_iter()
        .map(|r| r.id)
        .collect();
    assert_eq!(on_http, vec![b"n".to_vec(), b"w".to_vec(), b"h".to_vec()]);

    let on_https: Vec<Vec<u8>> = scheme_router
        .match_rule("/a", "https")
        .into_iter()
        .map(|r| r.id)
        .collect();
    assert_eq!(on_https, vec![b"n".to_vec(), b"w".to_vec(), b"s".to_vec()]);

    let on_other: Vec<Vec<u8>> = scheme_router
        .match_rule("/a", "ftp")
        .into_iter()
        .map(|r| r.id)
        .collect();
    assert_eq!(on_other, vec![b"n".to_vec(), b"w".to_vec()]);

    let items = scheme_router.trace("/a", "http");
    assert!(items.len() >= 1);
}

#[test]
fn log_reports_rule_location_and_request_headers() {
    let mut request = Request::new(
        "/old?x=1".to_string(),
        Some("example.test".to_string()),
        Some("http".to_string()),
        Some("GET".to_string()),
    );
    request.add_header("User-Agent".to_string(), "probe/1.0".to_string(), false);
    request.add_header("Referer".to_string(), "/from".to_string(), false);

    let mut router = Router::new();
    let mut rule = rule_with("logged", None, "/old?x=1");
    rule.redirect_code = Some(301);
    rule.target = Some(b"/new".to_vec());
    router.insert(rule).unwrap();

    let action = Action::from_routes_rule(router.match_request(&request), &request);
    let response_headers = action.filter_headers(Vec::new(), 301);
    let record = Log::from_proxy(&request, 301, response_headers, &action, "edge-1", 12);

    assert_eq!(record.code, 301);
    assert_eq!(record.time, 12);
    assert_eq!(record.proxy, b"edge-1".to_vec());
    assert_eq!(record.to, Some(b"/new".to_vec()));
    assert_eq!(record.from.rule_id, Some(b"logged".to_vec()));
    assert_eq!(record.from.url, b"/old?x=1".to_vec());
    assert_eq!(record.from.user_agent, Some(b"probe/1.0".to_vec()));
    assert_eq!(record.from.referer, Some(b"/from".to_vec()));
    assert_eq!(record.from.host, Some(b"example.test".to_vec()));
}

#[test]
fn condition_format_reads_naturally() {
    let stat = ValueCondition::Static(b"1".to_vec());
    assert_eq!(stat.format(), "Match value 1".to_string());
    let rex = ValueCondition::Regex(b"[0-9]+".to_vec());
    assert_eq!(rex.format(), "Match regex [0-9]+".to_string());
    let none = ValueCondition::NotExist;
    assert_eq!(none.format(), "Not existing header".to_string());
}

#[test]
fn regex_header_condition_searches_unanchored() {
    let mut rule = rule_with("rx", None, "/p");
    rule.source.headers = vec![redirectionio::rule::HeaderCondition {
        header_name: b"x-token".to_vec(),
        condition: ValueCondition::Regex(b"[0-9]{3}".to_vec()),
    }];
    let mut router = Router::new();
    router.insert(rule).unwrap();

    let mut hit = Request::new("/p".to_string(), None, None, None);
    hit.add_header("X-Token".to_string(), "abc123def".to_string(), false);
    assert_eq!(router.match_request(&hit).len(), 1);

    let mut miss = Request::new("/p".to_string(), None, None, None);
    miss.add_header("X-Token".to_string(), "ab1c".to_string(), false);
    assert_eq!(router.match_request(&miss).len(), 0);
}

#[test]
fn sorted_query_keeps_insertion_order_within_a_key() {
    assert_eq!(
        Request::build_sorted_query("b=2&a=second&c&a=first"),
        Some(b"a=second&a=first&b=2&c".to_vec())
    );
    assert_eq!(
        Request::build_sorted_query("a=a%20b"),
        Some(b"a=a%20b".to_vec())
    );
    assert_eq!(Request::build_sorted_query("&&"), None);
}

#[test]
fn config_lowercases_host_and_header_values() {
    let config = RouterConfig { ignore_host_case: true, ignore_header_case: true };
    let request = Request::from_config(
        &config,
        "/p".to_string(),
        Some("EXAMPLE.Test".to_string()),
        None,
        None,
    );
    let mut router = Router::new();
    let mut rule = rule_with("cfg", None, "/p");
    rule.source.host = Some(StaticOrDynamic::Static(b"example.test".to_vec()));
    router.insert(rule).unwrap();
    assert_eq!(router.match_request(&request).len(), 1);

    let mut raw = Request::new("/p".to_string(), Some("EXAMPLE.Test".to_string()), None, None);
    raw.add_header("X-Mixed".to_string(), "VaLuE".to_string(), false);
    let rebuilt = Request::rebuild_with_config(&config, &raw);
    assert_eq!(rebuilt.host, Some(b"example.test".to_vec()));
    assert_eq!(rebuilt.headers[0].value, b"value".to_vec());
    assert_eq!(rebuilt.headers[0].name, b"X-Mixed".to_vec());
}

#[test]
fn path_matcher_canonical_helpers_agree() {
    let request = Request::new("/p?b=2&a=1".to_string(), None, None, None);
    assert_eq!(PathAndQueryMatcher::request_to_path(&request), b"/p?a=1&b=2".to_vec());
    assert_eq!(
        PathAndQueryMatcher::build_sorted_query("b=2&a=1"),
        Some(b"a=1&b=2".to_vec())
    );
    assert_eq!(PathAndQueryMatcher::build_sorted_query(""), None);
}

#[test]
fn header_value_joins_with_commas() {
    let mut request = Request::new("/p".to_string(), None, None, None);
    assert_eq!(request.header_value("accept"), None);
    request.add_header("Accept".to_string(), "text/html".to_string(), false);
    request.add_header("Accept".to_string(), "text/plain".to_string(), false);
    assert_eq!(
        request.header_value("accept"),
        Some(b"text/html,text/plain".to_vec())
    );
}

#[test]
fn forwarded_header_yields_trimmed_candidates() {
    let mut request = Request::new("/p".to_string(), None, None, None);
    request.add_header(
        "Forwarded".to_string(),
        "for=192.0.2.60;proto=http, for=\"198.51.100.17\"".to_string(),
        false,
    );
    let candidates = request.forwarded_for_candidates();
    assert_eq!(
        candidates,
        vec![b"192.0.2.60".to_vec(), b"198.51.100.17".to_vec()]
    );
}

#[test]
fn regex_condition_skips_undecodable_values() {
    let mut rule = Rule {
        id: b"vis".to_vec(),
        priority: 0,
        source: Source {
            scheme: None,
            host: None,
            path_and_query: StaticOrDynamic::Static(b"/p".to_vec()),
            methods: Vec::new(),
            headers: vec![redirectionio::rule::HeaderCondition {
                header_name: b"x-token".to_vec(),
                condition: ValueCondition::Regex(b"[0-9]{3}".to_vec()),
            }],
        },
        redirect_code: None,
        match_on_response_status: None,
        target: None,
        header_filters: Vec::new(),
        body_filters: Vec::new(),
    };
    rule.priority = 0;
    let mut router = Router::new();
    router.insert(rule).unwrap();

    // the value holds a control byte, so it is skipped, not searched
    let mut undecodable = Request::new("/p".to_string(), None, None, None);
    undecodable.add_header("X-Token".to_string(), "123\u{1}".to_string(), false);
    assert_eq!(router.match_request(&undecodable).len(), 0);

    let mut visible = Request::new("/p".to_string(), None, None, None);
    visible.add_header("X-Token".to_string(), "123".to_string(), false);
    assert_eq!(router.match_request(&visible).len(), 1);
}

//! Core of a URL rewrite/redirect engine: a rule compiler and request-matching
//! pipeline that, given an HTTP request, selects the applicable rewrite rules,
//! merges them into a single action, and can emit a trace of the matching
//! process.

pub mod action;
pub mod bytes_util;
pub mod canon;
pub mod header_matcher;
pub mod host_matcher;
pub mod log;
pub mod matching;
pub mod method_matcher;
pub mod path_matcher;
pub mod radix_tree;
pub mod regex_support;
pub mod request;
pub mod route_matcher;
pub mod router;
pub mod router_scheme;
pub mod rule;
pub mod scheme_matcher;
pub mod trace;
pub mod url_matcher_rules;

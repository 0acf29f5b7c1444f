//! The legacy scheme split: one flat rule bucket per scheme, and one for
//! rules bound to no scheme.

use vstd::prelude::*;
use vstd::string::StringSliceAdditionalSpecFns;
use crate::rule::{Rule, RuleModel};
use crate::url_matcher_rules::{UrlMatcherRules, RouterTraceItem, rule_models, matching_rules};

verus! {

/// The bytes of "http".
pub open spec fn spec_http() -> Seq<u8> {
    seq![104u8, 116u8, 116u8, 112u8]
}

/// The bytes of "https".
pub open spec fn spec_https() -> Seq<u8> {
    seq![104u8, 116u8, 116u8, 112u8, 115u8]
}

/// Which bucket a rule belongs to.
pub open spec fn is_http_rule(m: RuleModel) -> bool {
    m.source.scheme == Option::Some(spec_http())
}

pub open spec fn is_https_rule(m: RuleModel) -> bool {
    m.source.scheme == Option::Some(spec_https())
}

pub open spec fn is_any_scheme_rule(m: RuleModel) -> bool {
    !is_http_rule(m) && !is_https_rule(m)
}

/// Rules split by scheme, each bucket a flat matcher.
pub struct RouterScheme {
    http_router: UrlMatcherRules,
    https_router: UrlMatcherRules,
    any_scheme_router: UrlMatcherRules,
}

impl RouterScheme {
    pub closed spec fn http_rules(self) -> Seq<RuleModel> {
        self.http_router.rules_model()
    }

    pub closed spec fn https_rules(self) -> Seq<RuleModel> {
        self.https_router.rules_model()
    }

    pub closed spec fn any_rules(self) -> Seq<RuleModel> {
        self.any_scheme_router.rules_model()
    }

    /// Splits the rules into the http, https and any-scheme buckets, order
    /// kept.
    #[verifier::loop_isolation(false)]
    pub fn new(rules: Vec<Rule>) -> (r: RouterScheme)
        ensures
            r.http_rules() == rule_models(rules@).filter(|m: RuleModel| is_http_rule(m)),
            r.https_rules() == rule_models(rules@).filter(|m: RuleModel| is_https_rule(m)),
            r.any_rules() == rule_models(rules@).filter(|m: RuleModel| is_any_scheme_rule(m)),
    {
        let ghost all = rule_models(rules@);
        let mut http_rules: Vec<Rule> = Vec::new();
        let mut https_rules: Vec<Rule> = Vec::new();
        let mut any_rules: Vec<Rule> = Vec::new();
        let mut i: usize = 0;
        proof {
            reveal(Seq::filter);
            assert(all.subrange(0, 0) =~= Seq::<RuleModel>::empty());
            assert(rule_models(http_rules@) =~= Seq::<RuleModel>::empty());
            assert(rule_models(https_rules@) =~= Seq::<RuleModel>::empty());
            assert(rule_models(any_rules@) =~= Seq::<RuleModel>::empty());
            assert(Seq::<RuleModel>::empty().filter(|m: RuleModel| is_http_rule(m)) =~= Seq::<
                RuleModel,
            >::empty());
            assert(Seq::<RuleModel>::empty().filter(|m: RuleModel| is_https_rule(m)) =~= Seq::<
                RuleModel,
            >::empty());
            assert(Seq::<RuleModel>::empty().filter(|m: RuleModel| is_any_scheme_rule(m))
                =~= Seq::<RuleModel>::empty());
        }
        while i < rules.len()
            invariant
                0 <= i <= rules@.len(),
                all.len() == rules@.len(),
                rule_models(http_rules@) =~= all.subrange(0, i as int).filter(
                    |m: RuleModel| is_http_rule(m),
                ),
                rule_models(https_rules@) =~= all.subrange(0, i as int).filter(
                    |m: RuleModel| is_https_rule(m),
                ),
                rule_models(any_rules@) =~= all.subrange(0, i as int).filter(
                    |m: RuleModel| is_any_scheme_rule(m),
                ),
            decreases rules@.len() - i,
        {
            let ghost pre = all.subrange(0, i as int);
            let ghost rm = all[i as int];
            proof {
                reveal(Seq::filter);
                assert(rm == rules@[i as int].model());
                assert(all.subrange(0, i as int + 1) =~= pre.push(rm));
                assert(pre.push(rm).drop_last() =~= pre);
                assert(pre.push(rm).last() == rm);
            }
            let rule = rules[i].clone();
            let bucket = match &rule.source.scheme {
                Option::None => 0u8,
                Option::Some(s) => {
                    if is_http_bytes(s.as_slice()) {
                        1u8
                    } else if is_https_bytes(s.as_slice()) {
                        2u8
                    } else {
                        0u8
                    }
                },
            };
            if bucket == 1 {
                proof {
                    assert(is_http_rule(rm));
                }
                let ghost p = rule_models(http_rules@);
                http_rules.push(rule);
                proof {
                    assert(rule_models(http_rules@) =~= p.push(rm));
                }
            } else if bucket == 2 {
                proof {
                    assert(is_https_rule(rm));
                }
                let ghost p = rule_models(https_rules@);
                https_rules.push(rule);
                proof {
                    assert(rule_models(https_rules@) =~= p.push(rm));
                }
            } else {
                proof {
                    assert(is_any_scheme_rule(rm));
                }
                let ghost p = rule_models(any_rules@);
                any_rules.push(rule);
                proof {
                    assert(rule_models(any_rules@) =~= p.push(rm));
                }
            }
            i += 1;
        }
        proof {
            assert(all.subrange(0, all.len() as int) =~= all);
        }
        RouterScheme {
            http_router: UrlMatcherRules::new(http_rules),
            https_router: UrlMatcherRules::new(https_rules),
            any_scheme_router: UrlMatcherRules::new(any_rules),
        }
    }

    /// The matching rules: the any-scheme bucket always, and the bucket of
    /// the request's scheme.
    pub fn match_rule(&self, path_and_query: &str, scheme: &str) -> (r: Vec<Rule>)
        ensures
            rule_models(r@) == matching_rules(self.any_rules(), path_and_query.spec_bytes()) + (
            if scheme.spec_bytes() == spec_http() {
                matching_rules(self.http_rules(), path_and_query.spec_bytes())
            } else if scheme.spec_bytes() == spec_https() {
                matching_rules(self.https_rules(), path_and_query.spec_bytes())
            } else {
                Seq::<RuleModel>::empty()
            }),
    {
        let mut found = self.any_scheme_router.match_rule(path_and_query);
        let ghost any_part = rule_models(found@);
        let sb = scheme.as_bytes();
        if is_http_bytes(sb) {
            let more = self.http_router.match_rule(path_and_query);
            append_rules(&mut found, more);
        } else if is_https_bytes(sb) {
            let more = self.https_router.match_rule(path_and_query);
            append_rules(&mut found, more);
        } else {
            proof {
                assert(rule_models(found@) =~= any_part + Seq::<RuleModel>::empty());
            }
        }
        found
    }

    /// Walks the buckets spending the cache budget; the flat buckets keep no
    /// compiled cache, so the budget is returned whole.
    pub fn build_cache(&mut self, cache_limit: u64, _level: u64) -> (r: u64)
        ensures
            *final(self) == *old(self),
            r == cache_limit,
    {
        cache_limit
    }

    /// The trace of a matching pass: the any-scheme bucket's item first,
    /// then the item of the request's scheme bucket when one was consulted.
    pub fn trace(&self, path_and_query: &str, scheme: &str) -> (r: Vec<RouterTraceItem>)
        ensures
            r@.len() == (if scheme.spec_bytes() == spec_http() || scheme.spec_bytes()
                == spec_https() {
                2int
            } else {
                1int
            }),
            rule_models(r@[0].rules_matches@) == matching_rules(
                self.any_rules(),
                path_and_query.spec_bytes(),
            ),
            scheme.spec_bytes() == spec_http() ==> rule_models(r@[1].rules_matches@)
                == matching_rules(self.http_rules(), path_and_query.spec_bytes()),
            scheme.spec_bytes() == spec_https() ==> rule_models(r@[1].rules_matches@)
                == matching_rules(self.https_rules(), path_and_query.spec_bytes()),
    {
        let mut items = self.any_scheme_router.trace(path_and_query);
        let sb = scheme.as_bytes();
        proof {
            assert(spec_http().len() == 4);
            assert(spec_https().len() == 5);
        }
        if is_http_bytes(sb) {
            let mut more = self.http_router.trace(path_and_query);
            let item = more.remove(0);
            items.push(item);
        } else if is_https_bytes(sb) {
            let mut more = self.https_router.trace(path_and_query);
            let item = more.remove(0);
            items.push(item);
        }
        items
    }
}

fn is_http_bytes(s: &[u8]) -> (r: bool)
    ensures
        r == (s@ == spec_http()),
{
    let mut pat: Vec<u8> = Vec::new();
    pat.push(104);
    pat.push(116);
    pat.push(116);
    pat.push(112);
    proof {
        assert(pat@ =~= spec_http());
    }
    crate::bytes_util::bytes_eq(s, pat.as_slice())
}

fn is_https_bytes(s: &[u8]) -> (r: bool)
    ensures
        r == (s@ == spec_https()),
{
    let mut pat: Vec<u8> = Vec::new();
    pat.push(104);
    pat.push(116);
    pat.push(116);
    pat.push(112);
    pat.push(115);
    proof {
        assert(pat@ =~= spec_https());
    }
    crate::bytes_util::bytes_eq(s, pat.as_slice())
}

/// Appends rules, models preserved.
fn append_rules(out: &mut Vec<Rule>, more: Vec<Rule>)
    ensures
        rule_models(final(out)@) =~= rule_models(old(out)@) + rule_models(more@),
{
    let mut i: usize = 0;
    let ghost base = rule_models(out@);
    proof {
        assert(rule_models(more@).subrange(0, 0) =~= Seq::<RuleModel>::empty());
        assert(base + rule_models(more@).subrange(0, 0) =~= base);
    }
    while i < more.len()
        invariant
            0 <= i <= more@.len(),
            rule_models(more@).len() == more@.len(),
            rule_models(out@) =~= base + rule_models(more@).subrange(0, i as int),
        decreases more@.len() - i,
    {
        let cl = more[i].clone();
        let ghost pre = rule_models(out@);
        proof {
            assert(cl.model() == rule_models(more@)[i as int]);
            assert(rule_models(more@).subrange(0, i as int + 1) =~= rule_models(more@).subrange(
                0,
                i as int,
            ).push(rule_models(more@)[i as int]));
            assert((base + rule_models(more@).subrange(0, i as int)).push(
                rule_models(more@)[i as int],
            ) =~= base + rule_models(more@).subrange(0, i as int + 1));
        }
        out.push(cl);
        proof {
            assert(rule_models(out@) =~= pre.push(cl.model()));
        }
        i += 1;
    }
    proof {
        assert(rule_models(more@).subrange(0, rule_models(more@).len() as int) =~= rule_models(
            more@,
        ));
    }
}

} // verus!

//! A flat rule matcher over one URL: every rule's source path is tried in
//! turn, with no index in front.

use vstd::prelude::*;
use vstd::string::StringSliceAdditionalSpecFns;
use crate::rule::{Rule, RuleModel, StaticOrDynamic, pattern_ok};
use crate::bytes_util::bytes_eq;
use crate::regex_support::regex_full_match;

verus! {

/// Whether a rule's source path selects this raw path-and-query.
pub open spec fn rule_path_matches(m: RuleModel, pq: Seq<u8>) -> bool {
    pattern_ok(m.source.path_and_query, pq)
}

/// The models of a rule sequence.
pub open spec fn rule_models(rs: Seq<Rule>) -> Seq<RuleModel> {
    rs.map_values(|r: Rule| r.model())
}

/// The rules whose source path selects this raw path-and-query, in order.
pub open spec fn matching_rules(rules: Seq<RuleModel>, pq: Seq<u8>) -> Seq<RuleModel> {
    rules.filter(|m: RuleModel| rule_path_matches(m, pq))
}

/// One flat bucket of rules, matched in order.
pub struct UrlMatcherRules {
    rules: Vec<Rule>,
}

/// What one matching pass looked at and found.
pub struct RouterTraceItem {
    pub matches: bool,
    pub prefix: Vec<u8>,
    pub rules_evaluated: Vec<Rule>,
    pub rules_matches: Vec<Rule>,
}

impl UrlMatcherRules {
    /// The rules held, in order.
    pub closed spec fn rules_model(self) -> Seq<RuleModel> {
        rule_models(self.rules@)
    }

    /// Wraps a rule list.
    pub fn new(rules: Vec<Rule>) -> (r: UrlMatcherRules)
        ensures
            r.rules_model() == rule_models(rules@),
    {
        UrlMatcherRules { rules }
    }

    /// The rules whose source path selects the raw path-and-query, in order.
    #[verifier::loop_isolation(false)]
    pub fn match_rule(&self, path_and_query: &str) -> (r: Vec<Rule>)
        ensures
            rule_models(r@) == matching_rules(self.rules_model(), path_and_query.spec_bytes()),
    {
        let pq = path_and_query.as_bytes();
        let ghost f = |m: RuleModel| rule_path_matches(m, path_and_query.spec_bytes());
        let mut out: Vec<Rule> = Vec::new();
        let mut i: usize = 0;
        proof {
            reveal(Seq::filter);
            assert(self.rules_model().subrange(0, 0) =~= Seq::<RuleModel>::empty());
            assert(rule_models(out@) =~= Seq::<RuleModel>::empty());
            assert(matching_rules(Seq::<RuleModel>::empty(), path_and_query.spec_bytes())
                =~= Seq::<RuleModel>::empty());
        }
        while i < self.rules.len()
            invariant
                0 <= i <= self.rules@.len(),
                self.rules_model().len() == self.rules@.len(),
                rule_models(out@) =~= matching_rules(
                    self.rules_model().subrange(0, i as int),
                    path_and_query.spec_bytes(),
                ),
            decreases self.rules@.len() - i,
        {
            let ghost pre = self.rules_model().subrange(0, i as int);
            let ghost rm = self.rules_model()[i as int];
            proof {
                reveal(Seq::filter);
                assert(rm == self.rules@[i as int].model());
                assert(self.rules_model().subrange(0, i as int + 1) =~= pre.push(rm));
                assert(pre.push(rm).drop_last() =~= pre);
                assert(pre.push(rm).last() == rm);
            }
            let hit = match &self.rules[i].source.path_and_query {
                StaticOrDynamic::Static(s) => bytes_eq(s.as_slice(), pq),
                StaticOrDynamic::Dynamic(d) => {
                    let lit = crate::regex_support::literal_prefix_exec(d.as_slice());
                    crate::bytes_util::starts_with(pq, lit.as_slice()) && regex_full_match(
                        d.as_slice(),
                        pq,
                    )
                },
            };
            if hit {
                proof {
                    assert(rule_path_matches(rm, path_and_query.spec_bytes()));
                }
                let cl = self.rules[i].clone();
                let ghost opre = rule_models(out@);
                out.push(cl);
                proof {
                    assert(rule_models(out@) =~= opre.push(rm));
                }
            } else {
                proof {
                    assert(!rule_path_matches(rm, path_and_query.spec_bytes()));
                }
            }
            i += 1;
        }
        proof {
            assert(self.rules_model().subrange(0, self.rules_model().len() as int)
                =~= self.rules_model());
        }
        out
    }

    /// Every rule held, in order.
    #[verifier::loop_isolation(false)]
    pub fn get_rules(&self) -> (r: Vec<Rule>)
        ensures
            rule_models(r@) == self.rules_model(),
    {
        let mut out: Vec<Rule> = Vec::new();
        let mut i: usize = 0;
        proof {
            assert(rule_models(out@) =~= Seq::<RuleModel>::empty());
            assert(self.rules_model().subrange(0, 0) =~= Seq::<RuleModel>::empty());
        }
        while i < self.rules.len()
            invariant
                0 <= i <= self.rules@.len(),
                self.rules_model().len() == self.rules@.len(),
                rule_models(out@) =~= self.rules_model().subrange(0, i as int),
            decreases self.rules@.len() - i,
        {
            let ghost pre = rule_models(out@);
            let cl = self.rules[i].clone();
            proof {
                assert(cl.model() == self.rules_model()[i as int]);
                assert(self.rules_model().subrange(0, i as int + 1) =~= self.rules_model()
                    .subrange(0, i as int).push(self.rules_model()[i as int]));
            }
            out.push(cl);
            proof {
                assert(rule_models(out@) =~= pre.push(cl.model()));
            }
            i += 1;
        }
        proof {
            assert(self.rules_model().subrange(0, self.rules_model().len() as int)
                =~= self.rules_model());
        }
        out
    }

    /// One matching pass reported: what was evaluated and what matched.
    pub fn trace(&self, path_and_query: &str) -> (r: Vec<RouterTraceItem>)
        ensures
            r@.len() == 1,
            rule_models(r@[0].rules_matches@) == matching_rules(
                self.rules_model(),
                path_and_query.spec_bytes(),
            ),
            rule_models(r@[0].rules_evaluated@) == self.rules_model(),
    {
        let matched = self.match_rule(path_and_query);
        let evaluated = self.get_rules();
        let matches = matched.len() > 0;
        let item = RouterTraceItem {
            matches,
            prefix: Vec::new(),
            rules_evaluated: evaluated,
            rules_matches: matched,
        };
        let mut out: Vec<RouterTraceItem> = Vec::new();
        out.push(item);
        out
    }
}

} // verus!

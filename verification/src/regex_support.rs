//! Boundary to the regex engine, and the literal-prefix analysis of patterns.
//!
//! The engine consumes regular expressions; it does not implement them. What a
//! pattern accepts is therefore named, not stated: `regex_accepts`,
//! `regex_found` and `regex_captures_model` stand for the outcome of the regex
//! crate on given pattern and subject, and the wrappers below are the only
//! places that call it.

use vstd::prelude::*;
use crate::bytes_util::is_prefix_of;

verus! {

/// Whether `pattern` compiles and, anchored at both ends, matches all of
/// `value`. False when the pattern does not compile.
pub uninterp spec fn regex_accepts(pattern: Seq<u8>, value: Seq<u8>) -> bool;

/// Whether `pattern` compiles and matches somewhere inside `value`
/// (unanchored search). False when the pattern does not compile.
pub uninterp spec fn regex_found(pattern: Seq<u8>, value: Seq<u8>) -> bool;

/// Whether `pattern` is a well-formed regular expression.
pub uninterp spec fn regex_valid(pattern: Seq<u8>) -> bool;

/// The named capture groups, as (group name, captured text) pairs in group
/// order, of the anchored match of `pattern` against `value`.
pub uninterp spec fn regex_captures_model(pattern: Seq<u8>, value: Seq<u8>) -> Seq<
    (Seq<u8>, Seq<u8>),
>;

/// Relies on regex::bytes::Regex::new and Regex::is_match, with the pattern
/// anchored as `^(?:pattern)$`: full-string match, false on a pattern that
/// does not compile or is not UTF-8.
#[verifier::external_body]
pub fn regex_full_match(pattern: &[u8], value: &[u8]) -> (r: bool)
    ensures
        r == regex_accepts(pattern@, value@),
{
    let p = match core::str::from_utf8(pattern) {
        Ok(p) => p,
        Err(_) => return false,
    };
    match regex::bytes::Regex::new(&["^(?:", p, ")$"].concat()) {
        Ok(re) => re.is_match(value),
        Err(_) => false,
    }
}

/// Relies on regex::bytes::Regex::new and Regex::is_match on the bare
/// pattern: unanchored search, false on a pattern that does not compile or is
/// not UTF-8.
#[verifier::external_body]
pub fn regex_search(pattern: &[u8], value: &[u8]) -> (r: bool)
    ensures
        r == regex_found(pattern@, value@),
        r ==> regex_valid(pattern@),
{
    let p = match core::str::from_utf8(pattern) {
        Ok(p) => p,
        Err(_) => return false,
    };
    match regex::bytes::Regex::new(p) {
        Ok(re) => re.is_match(value),
        Err(_) => false,
    }
}

/// Relies on regex::bytes::Regex::new: whether the pattern compiles.
#[verifier::external_body]
pub fn regex_compile_check(pattern: &[u8]) -> (r: bool)
    ensures
        r == regex_valid(pattern@),
{
    match core::str::from_utf8(pattern) {
        Ok(p) => regex::bytes::Regex::new(p).is_ok(),
        Err(_) => false,
    }
}

/// Relies on regex::bytes::Regex::captures and Regex::capture_names, with the
/// pattern anchored as `^(?:pattern)$`: Some exactly when the anchored match
/// succeeds, holding each named group and the text it captured.
#[verifier::external_body]
pub fn regex_named_captures(pattern: &[u8], value: &[u8]) -> (r: Option<Vec<(Vec<u8>, Vec<u8>)>>)
    ensures
        r is Some <==> regex_accepts(pattern@, value@),
        r is Some ==> r->Some_0.deep_view() == regex_captures_model(pattern@, value@),
{
    let p = core::str::from_utf8(pattern).ok()?;
    let re = regex::bytes::Regex::new(&["^(?:", p, ")$"].concat()).ok()?;
    let caps = re.captures(value)?;
    let mut out = Vec::new();
    for name in re.capture_names().flatten() {
        if let Some(m) = caps.name(name) {
            out.push((name.as_bytes().to_vec(), m.as_bytes().to_vec()));
        }
    }
    Some(out)
}

/// True for the characters the literal-prefix scan stops at: the regex
/// metacharacters `. ^ $ * + ? ( ) [ ] { } | \`.
pub open spec fn is_regex_meta(b: u8) -> bool {
    ||| b == 46
    ||| b == 94
    ||| b == 36
    ||| b == 42
    ||| b == 43
    ||| b == 63
    ||| b == 40
    ||| b == 41
    ||| b == 91
    ||| b == 93
    ||| b == 123
    ||| b == 125
    ||| b == 124
    ||| b == 92
}

/// Number of leading bytes of `r` that are free of regex metacharacters.
pub open spec fn literal_prefix_len(r: Seq<u8>) -> int
    decreases r.len(),
{
    if r.len() == 0 || is_regex_meta(r[0]) {
        0
    } else {
        1 + literal_prefix_len(r.drop_first())
    }
}

/// The longest leading metacharacter-free part of a pattern: the key the
/// radix tree factors on.
pub open spec fn literal_prefix(r: Seq<u8>) -> Seq<u8> {
    r.subrange(0, literal_prefix_len(r))
}

pub proof fn lemma_literal_prefix_len(r: Seq<u8>)
    ensures
        0 <= literal_prefix_len(r) <= r.len(),
        forall|j: int| 0 <= j < literal_prefix_len(r) ==> !is_regex_meta(r[j]),
        literal_prefix_len(r) < r.len() ==> is_regex_meta(r[literal_prefix_len(r)]),
    decreases r.len(),
{
    if r.len() != 0 && !is_regex_meta(r[0]) {
        lemma_literal_prefix_len(r.drop_first());
        assert forall|j: int| 0 <= j < literal_prefix_len(r) implies !is_regex_meta(r[j]) by {
            if j > 0 {
                assert(r.drop_first()[j - 1] == r[j]);
            }
        }
    }
}

/// Computes the literal prefix of a pattern.
pub fn literal_prefix_exec(r: &[u8]) -> (out: Vec<u8>)
    ensures
        out@ =~= literal_prefix(r@),
        is_prefix_of(out@, r@),
{
    proof {
        lemma_literal_prefix_len(r@);
    }
    let mut i: usize = 0;
    let mut out: Vec<u8> = Vec::new();
    while i < r.len()
        invariant
            0 <= i <= r.len(),
            out@ =~= r@.subrange(0, i as int),
            forall|j: int| 0 <= j < i ==> !is_regex_meta(r@[j]),
        decreases r.len() - i,
    {
        let b = r[i];
        let meta = b == 46 || b == 94 || b == 36 || b == 42 || b == 43 || b == 63 || b == 40 || b
            == 41 || b == 91 || b == 93 || b == 123 || b == 125 || b == 124 || b == 92;
        if meta {
            proof {
                lemma_literal_prefix_len(r@);
                assert(literal_prefix_len(r@) <= i);
                assert(literal_prefix_len(r@) >= i);
            }
            return out;
        }
        out.push(b);
        i += 1;
    }
    proof {
        lemma_literal_prefix_len(r@);
    }
    out
}

/// A pattern selects a subject when the subject begins with the pattern's
/// literal prefix and the anchored regex accepts it. This is the matching
/// notion of the whole engine for dynamic patterns.
pub open spec fn pattern_matches(p: Seq<u8>, v: Seq<u8>) -> bool {
    is_prefix_of(literal_prefix(p), v) && regex_accepts(p, v)
}

} // verus!

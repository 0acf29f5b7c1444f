//! Byte-sequence helpers shared by the matchers: equality, prefix tests,
//! longest common prefix and lexicographic comparison.

use vstd::prelude::*;

verus! {

/// True when `pre` is a prefix of `s`.
pub open spec fn is_prefix_of(pre: Seq<u8>, s: Seq<u8>) -> bool {
    pre.len() <= s.len() && s.subrange(0, pre.len() as int) == pre
}

pub proof fn lemma_prefix_transitive(a: Seq<u8>, b: Seq<u8>, c: Seq<u8>)
    requires
        is_prefix_of(a, b),
        is_prefix_of(b, c),
    ensures
        is_prefix_of(a, c),
{
    assert(c.subrange(0, a.len() as int) =~= c.subrange(0, b.len() as int).subrange(
        0,
        a.len() as int,
    ));
}

/// Of two prefixes of one string, the shorter is a prefix of the longer.
pub proof fn lemma_prefix_of_prefix(a: Seq<u8>, b: Seq<u8>, c: Seq<u8>)
    requires
        is_prefix_of(a, c),
        is_prefix_of(b, c),
        a.len() <= b.len(),
    ensures
        is_prefix_of(a, b),
{
    assert(b.subrange(0, a.len() as int) =~= c.subrange(0, b.len() as int).subrange(
        0,
        a.len() as int,
    ));
    assert(c.subrange(0, a.len() as int) =~= c.subrange(0, b.len() as int).subrange(
        0,
        a.len() as int,
    ));
}

/// Lexicographic "less than or equal" on byte strings.
pub open spec fn lex_leq(a: Seq<u8>, b: Seq<u8>) -> bool
    decreases a.len(),
{
    if a.len() == 0 {
        true
    } else if b.len() == 0 {
        false
    } else if a[0] < b[0] {
        true
    } else if a[0] > b[0] {
        false
    } else {
        lex_leq(a.drop_first(), b.drop_first())
    }
}

pub proof fn lemma_lex_leq_total(a: Seq<u8>, b: Seq<u8>)
    ensures
        lex_leq(a, b) || lex_leq(b, a),
    decreases a.len(),
{
    if a.len() != 0 && b.len() != 0 && a[0] == b[0] {
        lemma_lex_leq_total(a.drop_first(), b.drop_first());
    }
}

pub proof fn lemma_lex_leq_antisymmetric(a: Seq<u8>, b: Seq<u8>)
    requires
        lex_leq(a, b),
        lex_leq(b, a),
    ensures
        a == b,
    decreases a.len(),
{
    if a.len() != 0 && b.len() != 0 && a[0] == b[0] {
        lemma_lex_leq_antisymmetric(a.drop_first(), b.drop_first());
        assert(a =~= seq![a[0]] + a.drop_first());
        assert(b =~= seq![b[0]] + b.drop_first());
    } else if a.len() == 0 && b.len() == 0 {
        assert(a =~= b);
    }
}

pub proof fn lemma_lex_leq_transitive(a: Seq<u8>, b: Seq<u8>, c: Seq<u8>)
    requires
        lex_leq(a, b),
        lex_leq(b, c),
    ensures
        lex_leq(a, c),
    decreases a.len(),
{
    if a.len() != 0 && b.len() != 0 && c.len() != 0 && a[0] == b[0] && b[0] == c[0] {
        lemma_lex_leq_transitive(a.drop_first(), b.drop_first(), c.drop_first());
    }
}

/// Compares two byte slices for equality.
pub fn bytes_eq(a: &[u8], b: &[u8]) -> (r: bool)
    ensures
        r == (a@ == b@),
{
    if a.len() != b.len() {
        proof {
            assert(a@.len() != b@.len());
        }
        return false;
    }
    let mut i: usize = 0;
    while i < a.len()
        invariant
            0 <= i <= a.len(),
            a.len() == b.len(),
            forall|j: int| 0 <= j < i ==> a@[j] == b@[j],
        decreases a.len() - i,
    {
        if a[i] != b[i] {
            return false;
        }
        i += 1;
    }
    proof {
        assert(a@ =~= b@);
    }
    true
}

/// Decides whether `pre` is a prefix of `s`.
pub fn starts_with(s: &[u8], pre: &[u8]) -> (r: bool)
    ensures
        r == is_prefix_of(pre@, s@),
{
    if pre.len() > s.len() {
        return false;
    }
    let mut i: usize = 0;
    while i < pre.len()
        invariant
            0 <= i <= pre.len(),
            pre.len() <= s.len(),
            forall|j: int| 0 <= j < i ==> s@[j] == pre@[j],
        decreases pre.len() - i,
    {
        if s[i] != pre[i] {
            proof {
                assert(s@.subrange(0, pre@.len() as int)[i as int] != pre@[i as int]);
            }
            return false;
        }
        i += 1;
    }
    proof {
        assert(s@.subrange(0, pre@.len() as int) =~= pre@);
    }
    true
}

/// Length of the longest common prefix of `a` and `b`.
pub open spec fn common_prefix_len(a: Seq<u8>, b: Seq<u8>) -> int
    decreases a.len(),
{
    if a.len() == 0 || b.len() == 0 || a[0] != b[0] {
        0
    } else {
        1 + common_prefix_len(a.drop_first(), b.drop_first())
    }
}

pub proof fn lemma_common_prefix_len(a: Seq<u8>, b: Seq<u8>)
    ensures
        0 <= common_prefix_len(a, b) <= a.len(),
        common_prefix_len(a, b) <= b.len(),
        forall|j: int| 0 <= j < common_prefix_len(a, b) ==> a[j] == b[j],
        common_prefix_len(a, b) < a.len() && common_prefix_len(a, b) < b.len() ==> a[
            common_prefix_len(a, b)
        ] != b[common_prefix_len(a, b)],
    decreases a.len(),
{
    if a.len() != 0 && b.len() != 0 && a[0] == b[0] {
        lemma_common_prefix_len(a.drop_first(), b.drop_first());
        assert forall|j: int| 0 <= j < common_prefix_len(a, b) implies a[j] == b[j] by {
            if j > 0 {
                assert(a.drop_first()[j - 1] == a[j]);
                assert(b.drop_first()[j - 1] == b[j]);
            }
        }
    }
}

/// The longest common prefix itself, as a fresh vector.
pub fn common_prefix(a: &[u8], b: &[u8]) -> (r: Vec<u8>)
    ensures
        r@ =~= a@.subrange(0, common_prefix_len(a@, b@)),
        is_prefix_of(r@, a@),
        is_prefix_of(r@, b@),
{
    proof {
        lemma_common_prefix_len(a@, b@);
    }
    let mut i: usize = 0;
    let mut out: Vec<u8> = Vec::new();
    let max = if a.len() < b.len() {
        a.len()
    } else {
        b.len()
    };
    while i < max
        invariant
            0 <= i <= max,
            max == vstd::math::min(a@.len() as int, b@.len() as int),
            out@ =~= a@.subrange(0, i as int),
            forall|j: int| 0 <= j < i ==> a@[j] == b@[j],
        decreases max - i,
    {
        if a[i] != b[i] {
            proof {
                lemma_common_prefix_len(a@, b@);
                assert(common_prefix_len(a@, b@) <= i || common_prefix_len(a@, b@) > i);
                if common_prefix_len(a@, b@) > i {
                    assert(a@[i as int] == b@[i as int]);
                }
                if common_prefix_len(a@, b@) < i {
                    assert(a@[common_prefix_len(a@, b@)] != b@[common_prefix_len(a@, b@)]);
                }
            }
            assert(out@ =~= a@.subrange(0, common_prefix_len(a@, b@)));
            assert(b@.subrange(0, i as int) =~= out@);
            return out;
        }
        out.push(a[i]);
        i += 1;
    }
    proof {
        lemma_common_prefix_len(a@, b@);
        if common_prefix_len(a@, b@) < max {
            assert(a@[common_prefix_len(a@, b@)] != b@[common_prefix_len(a@, b@)]);
        }
        assert(out@ =~= a@.subrange(0, common_prefix_len(a@, b@)));
        assert(b@.subrange(0, out@.len() as int) =~= out@);
    }
    out
}

/// Relies on String::from_utf8_lossy: bytes that are valid UTF-8 decode to
/// exactly their characters.
#[verifier::external_body]
pub fn bytes_to_string(b: &[u8]) -> (r: String)
    ensures
        vstd::utf8::valid_utf8(b@) ==> r@ == vstd::utf8::decode_utf8(b@),
{
    String::from_utf8_lossy(b).into_owned()
}

/// ASCII lowercase of one byte.
pub open spec fn ascii_lower_byte(b: u8) -> u8 {
    if 65 <= b <= 90 {
        (b + 32) as u8
    } else {
        b
    }
}

/// ASCII lowercase of a byte string.
pub open spec fn ascii_lower(s: Seq<u8>) -> Seq<u8> {
    s.map_values(|b: u8| ascii_lower_byte(b))
}

/// Lowercases ASCII letters in place semantics: returns a lowered copy.
pub fn to_ascii_lower(s: &[u8]) -> (r: Vec<u8>)
    ensures
        r@ =~= ascii_lower(s@),
{
    let mut out: Vec<u8> = Vec::new();
    let mut i: usize = 0;
    while i < s.len()
        invariant
            0 <= i <= s.len(),
            out@.len() == i,
            forall|j: int| 0 <= j < i ==> out@[j] == ascii_lower_byte(s@[j]),
        decreases s.len() - i,
    {
        let b = s[i];
        if 65 <= b && b <= 90 {
            out.push(b + 32);
        } else {
            out.push(b);
        }
        i += 1;
    }
    out
}

} // verus!

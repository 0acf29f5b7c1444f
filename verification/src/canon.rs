//! Canonicalisation of the path-and-query key every matcher works on.
//!
//! The canonical form of `path?query` is the path followed, when the query
//! holds any pairs, by `?` and the query's pairs sorted by key: the query is
//! percent-decoded, split into key/value pairs, sorted lexicographically by
//! key (insertion order kept within one key), and re-encoded with the set
//! CONTROLS plus space, quote, hash, less-than and greater-than.

use vstd::prelude::*;
use crate::bytes_util::{lex_leq, lemma_lex_leq_total, lemma_lex_leq_transitive,
    lemma_lex_leq_antisymmetric};

verus! {

pub const AMP: u8 = 38;

pub const EQS: u8 = 61;

pub const PLUS: u8 = 43;

pub const PERCENT: u8 = 37;

pub const QMARK: u8 = 63;

pub const SPACE: u8 = 32;

/// First position of `b` in `s`, or the length when absent.
pub open spec fn find_byte(s: Seq<u8>, b: u8) -> int
    decreases s.len(),
{
    if s.len() == 0 {
        0
    } else if s[0] == b {
        0
    } else {
        1 + find_byte(s.drop_first(), b)
    }
}

pub proof fn lemma_find_byte(s: Seq<u8>, b: u8)
    ensures
        0 <= find_byte(s, b) <= s.len(),
        forall|j: int| 0 <= j < find_byte(s, b) ==> s[j] != b,
        find_byte(s, b) < s.len() ==> s[find_byte(s, b)] == b,
    decreases s.len(),
{
    if s.len() != 0 && s[0] != b {
        lemma_find_byte(s.drop_first(), b);
        assert forall|j: int| 0 <= j < find_byte(s, b) implies s[j] != b by {
            if j > 0 {
                assert(s.drop_first()[j - 1] == s[j]);
            }
        }
    }
}

/// Finds the first position of `b`, or the length when absent.
pub fn find_byte_exec(s: &[u8], b: u8) -> (r: usize)
    ensures
        r == find_byte(s@, b),
{
    proof {
        lemma_find_byte(s@, b);
    }
    let mut i: usize = 0;
    while i < s.len()
        invariant
            0 <= i <= s.len(),
            forall|j: int| 0 <= j < i ==> s@[j] != b,
        decreases s.len() - i,
    {
        if s[i] == b {
            proof {
                lemma_find_byte(s@, b);
                assert(find_byte(s@, b) >= i);
                assert(find_byte(s@, b) <= i);
            }
            return i;
        }
        i += 1;
    }
    proof {
        lemma_find_byte(s@, b);
    }
    s.len()
}

pub open spec fn is_hex_digit(b: u8) -> bool {
    (48 <= b <= 57) || (65 <= b <= 70) || (97 <= b <= 102)
}

pub open spec fn hex_val(b: u8) -> u8 {
    if 48 <= b <= 57 {
        (b - 48) as u8
    } else if 65 <= b <= 70 {
        (b - 55) as u8
    } else if 97 <= b <= 102 {
        (b - 87) as u8
    } else {
        0
    }
}

/// Percent-decoding of a query component: `%XY` with two hex digits becomes
/// one byte, `+` becomes a space, anything else stays.
pub open spec fn decode_component(s: Seq<u8>) -> Seq<u8>
    decreases s.len(),
{
    if s.len() == 0 {
        Seq::empty()
    } else if s[0] == PERCENT && s.len() >= 3 && is_hex_digit(s[1]) && is_hex_digit(s[2]) {
        seq![(16 * hex_val(s[1]) + hex_val(s[2])) as u8] + decode_component(
            s.subrange(3, s.len() as int),
        )
    } else if s[0] == PLUS {
        seq![SPACE] + decode_component(s.drop_first())
    } else {
        seq![s[0]] + decode_component(s.drop_first())
    }
}

/// Decodes one query component.
pub fn decode_component_exec(s: &[u8]) -> (r: Vec<u8>)
    ensures
        r@ == decode_component(s@),
{
    let mut out: Vec<u8> = Vec::new();
    let mut i: usize = 0;
    proof {
        assert(s@.subrange(0, s@.len() as int) =~= s@);
        assert(decode_component(s@) =~= Seq::<u8>::empty() + decode_component(s@));
    }
    while i < s.len()
        invariant
            0 <= i <= s.len(),
            decode_component(s@) == out@ + decode_component(s@.subrange(i as int, s@.len() as int)),
        decreases s.len() - i,
    {
        let ghost rest = s@.subrange(i as int, s@.len() as int);
        let b = s[i];
        if b == PERCENT && s.len() - i >= 3 && hex_digit_exec(s[i + 1]) && hex_digit_exec(s[i + 2]) {
            let v = 16 * hex_val_exec(s[i + 1]) + hex_val_exec(s[i + 2]);
            proof {
                assert(rest[0] == PERCENT && rest.len() >= 3);
                assert(rest[1] == s@[i + 1] && rest[2] == s@[i + 2]);
                assert(rest.subrange(3, rest.len() as int) =~= s@.subrange(
                    i as int + 3,
                    s@.len() as int,
                ));
                assert(decode_component(rest) == seq![v] + decode_component(
                    s@.subrange(i as int + 3, s@.len() as int),
                ));
            }
            out.push(v);
            i += 3;
        } else {
            let c = if b == PLUS {
                SPACE
            } else {
                b
            };
            proof {
                assert(rest[0] == b);
                assert(rest.drop_first() =~= s@.subrange(i as int + 1, s@.len() as int));
                if b == PERCENT {
                    assert(!(rest.len() >= 3 && is_hex_digit(rest[1]) && is_hex_digit(rest[2])));
                }
                assert(decode_component(rest) == seq![c] + decode_component(
                    s@.subrange(i as int + 1, s@.len() as int),
                ));
            }
            out.push(c);
            i += 1;
        }
    }
    proof {
        assert(s@.subrange(s@.len() as int, s@.len() as int) =~= Seq::<u8>::empty());
        assert(out@ =~= out@ + Seq::<u8>::empty());
    }
    out
}

fn hex_digit_exec(b: u8) -> (r: bool)
    ensures
        r == is_hex_digit(b),
{
    (48 <= b && b <= 57) || (65 <= b && b <= 70) || (97 <= b && b <= 102)
}

fn hex_val_exec(b: u8) -> (r: u8)
    ensures
        r == hex_val(b),
        r < 16,
{
    if 48 <= b && b <= 57 {
        b - 48
    } else if 65 <= b && b <= 70 {
        b - 55
    } else if 97 <= b && b <= 102 {
        b - 87
    } else {
        0
    }
}

/// One `key[=value]` segment, decoded: the key is what stands before the
/// first `=`, the value what follows it, empty when there is none.
pub open spec fn parse_segment(seg: Seq<u8>) -> (Seq<u8>, Seq<u8>) {
    let e = find_byte(seg, EQS);
    if e < seg.len() {
        (decode_component(seg.subrange(0, e)), decode_component(
            seg.subrange(e + 1, seg.len() as int),
        ))
    } else {
        (decode_component(seg), Seq::empty())
    }
}

/// The decoded key/value pairs of a query string: segments are split on `&`,
/// empty segments dropped.
pub open spec fn parse_pairs(s: Seq<u8>) -> Seq<(Seq<u8>, Seq<u8>)>
    decreases s.len(),
{
    if s.len() == 0 {
        Seq::empty()
    } else {
        let k = find_byte(s, AMP);
        let seg = s.subrange(0, k);
        let rest = if 0 <= k && k < s.len() {
            s.subrange(k + 1, s.len() as int)
        } else {
            Seq::empty()
        };
        let head: Seq<(Seq<u8>, Seq<u8>)> = if seg.len() == 0 {
            Seq::empty()
        } else {
            seq![parse_segment(seg)]
        };
        head + parse_pairs(rest)
    }
}

/// Parses a query string into its decoded pairs.
pub fn parse_pairs_exec(s: &[u8]) -> (r: Vec<(Vec<u8>, Vec<u8>)>)
    ensures
        r.deep_view() == parse_pairs(s@),
{
    let mut out: Vec<(Vec<u8>, Vec<u8>)> = Vec::new();
    let mut i: usize = 0;
    proof {
        assert(s@.subrange(0, s@.len() as int) =~= s@);
        assert(parse_pairs(s@) =~= Seq::<(Seq<u8>, Seq<u8>)>::empty() + parse_pairs(s@));
    }
    while i < s.len()
        invariant
            0 <= i <= s.len(),
            parse_pairs(s@) == out.deep_view() + parse_pairs(
                s@.subrange(i as int, s@.len() as int),
            ),
        decreases s.len() - i,
    {
        let ghost rest = s@.subrange(i as int, s@.len() as int);
        let k_rel = find_byte_exec(slice_from(s, i), AMP);
        proof {
            lemma_find_byte(rest, AMP);
            assert(k_rel <= rest.len());
        }
        let k = i + k_rel;
        let ghost seg_spec = rest.subrange(0, k_rel as int);
        let ghost next_rest = if k_rel < rest.len() {
            rest.subrange(k_rel + 1, rest.len() as int)
        } else {
            Seq::<u8>::empty()
        };
        if k_rel > 0 {
            // a non-empty segment: split it at the first '='
            let seg = copy_range(s, i, k);
            proof {
                assert(seg@ =~= seg_spec);
            }
            let e = find_byte_exec(seg.as_slice(), EQS);
            let pair = if e < seg.len() {
                let key = decode_component_exec(slice_range(seg.as_slice(), 0, e));
                let val = decode_component_exec(slice_range(seg.as_slice(), e + 1, seg.len()));
                proof {
                    assert(seg@.subrange(0, e as int) =~= seg_spec.subrange(0, e as int));
                    assert(seg@.subrange(e as int + 1, seg@.len() as int) =~= seg_spec.subrange(
                        e as int + 1,
                        seg_spec.len() as int,
                    ));
                }
                (key, val)
            } else {
                let key = decode_component_exec(seg.as_slice());
                let val: Vec<u8> = Vec::new();
                (key, val)
            };
            proof {
                assert(pair.deep_view() == parse_segment(seg_spec));
                assert(out.deep_view().push(parse_segment(seg_spec)) =~= out.deep_view() + seq![
                    parse_segment(seg_spec),
                ]);
                assert(parse_pairs(rest) == seq![parse_segment(seg_spec)] + parse_pairs(next_rest));
            }
            let ghost pre_dv = out.deep_view();
            out.push(pair);
            proof {
                assert(out.deep_view() =~= pre_dv.push(pair.deep_view()));
            }
        } else {
            proof {
                assert(parse_pairs(rest) == parse_pairs(next_rest));
            }
        }
        if k < s.len() {
            proof {
                assert(next_rest =~= s@.subrange(k + 1, s@.len() as int));
            }
            i = k + 1;
        } else {
            proof {
                assert(next_rest =~= Seq::<u8>::empty());
                assert(parse_pairs(next_rest) =~= Seq::<(Seq<u8>, Seq<u8>)>::empty());
            }
            i = s.len();
            proof {
                assert(s@.subrange(i as int, s@.len() as int) =~= Seq::<u8>::empty());
            }
        }
    }
    proof {
        assert(s@.subrange(i as int, s@.len() as int) =~= Seq::<u8>::empty());
        assert(parse_pairs(Seq::<u8>::empty()) =~= Seq::<(Seq<u8>, Seq<u8>)>::empty());
        assert(out.deep_view() =~= out.deep_view() + Seq::<(Seq<u8>, Seq<u8>)>::empty());
    }
    out
}

/// A suffix of a slice.
pub fn slice_from<'a>(s: &'a [u8], i: usize) -> (r: &'a [u8])
    requires
        i <= s@.len(),
    ensures
        r@ == s@.subrange(i as int, s@.len() as int),
{
    slice_range(s, i, s.len())
}

/// A sub-slice by index range.
pub fn slice_range<'a>(s: &'a [u8], from: usize, to: usize) -> (r: &'a [u8])
    requires
        from <= to <= s@.len(),
    ensures
        r@ == s@.subrange(from as int, to as int),
{
    let r = vstd::slice::slice_subrange(s, from, to);
    r
}

/// A fresh vector holding a byte range of a slice.
pub fn copy_range(s: &[u8], from: usize, to: usize) -> (r: Vec<u8>)
    requires
        from <= to <= s@.len(),
    ensures
        r@ == s@.subrange(from as int, to as int),
{
    vstd::slice::slice_to_vec(slice_range(s, from, to))
}

/// Stable insertion of a pair into a key-sorted pair sequence: it lands after
/// every pair whose key does not come after its own.
pub open spec fn insert_pair_sorted(ps: Seq<(Seq<u8>, Seq<u8>)>, p: (Seq<u8>, Seq<u8>)) -> Seq<
    (Seq<u8>, Seq<u8>),
>
    decreases ps.len(),
{
    if ps.len() == 0 {
        seq![p]
    } else if lex_leq(ps[0].0, p.0) {
        seq![ps[0]] + insert_pair_sorted(ps.drop_first(), p)
    } else {
        seq![p] + ps
    }
}

/// Stable sort of the pairs by key.
pub open spec fn sort_pairs(ps: Seq<(Seq<u8>, Seq<u8>)>) -> Seq<(Seq<u8>, Seq<u8>)>
    decreases ps.len(),
{
    if ps.len() == 0 {
        Seq::empty()
    } else {
        insert_pair_sorted(sort_pairs(ps.drop_last()), ps.last())
    }
}

/// Key-sortedness of a pair sequence.
pub open spec fn pairs_sorted(ps: Seq<(Seq<u8>, Seq<u8>)>) -> bool {
    forall|i: int, j: int| 0 <= i < j < ps.len() ==> lex_leq(ps[i].0, ps[j].0)
}

/// The percent-encode set for query serialisation: the C0 controls and
/// delete, space, double quote, hash, less-than and greater-than.
pub open spec fn needs_encoding(b: u8) -> bool {
    b < 32 || b == 127 || b == 32 || b == 34 || b == 35 || b == 60 || b == 62
}

/// Uppercase hex digit of a value below sixteen.
pub open spec fn hex_digit_upper(v: u8) -> u8 {
    if v < 10 {
        (48 + v) as u8
    } else {
        (55 + v) as u8
    }
}

/// The encoding of one byte: `%XY` for bytes in the encode set, the byte
/// itself otherwise.
pub open spec fn encode_byte(b: u8) -> Seq<u8> {
    if needs_encoding(b) {
        seq![PERCENT, hex_digit_upper(b / 16), hex_digit_upper(b % 16)]
    } else {
        seq![b]
    }
}

/// Percent-encoding of a whole component.
pub open spec fn encode_component(s: Seq<u8>) -> Seq<u8>
    decreases s.len(),
{
    if s.len() == 0 {
        Seq::empty()
    } else {
        encode_byte(s[0]) + encode_component(s.drop_first())
    }
}

/// Encodes one component.
pub fn encode_component_exec(s: &[u8]) -> (r: Vec<u8>)
    ensures
        r@ == encode_component(s@),
{
    let mut out: Vec<u8> = Vec::new();
    let mut i: usize = 0;
    proof {
        assert(s@.subrange(0, s@.len() as int) =~= s@);
        assert(encode_component(s@) =~= Seq::<u8>::empty() + encode_component(s@));
    }
    while i < s.len()
        invariant
            0 <= i <= s.len(),
            encode_component(s@) == out@ + encode_component(s@.subrange(i as int, s@.len() as int)),
        decreases s.len() - i,
    {
        let ghost rest = s@.subrange(i as int, s@.len() as int);
        let b = s[i];
        proof {
            assert(rest[0] == b);
            assert(rest.drop_first() =~= s@.subrange(i as int + 1, s@.len() as int));
        }
        if b < 32 || b == 127 || b == 32 || b == 34 || b == 35 || b == 60 || b == 62 {
            out.push(PERCENT);
            out.push(hex_digit_upper_exec(b / 16));
            out.push(hex_digit_upper_exec(b % 16));
        } else {
            out.push(b);
        }
        i += 1;
    }
    proof {
        assert(s@.subrange(s@.len() as int, s@.len() as int) =~= Seq::<u8>::empty());
        assert(out@ =~= out@ + Seq::<u8>::empty());
    }
    out
}

fn hex_digit_upper_exec(v: u8) -> (r: u8)
    requires
        v < 16,
    ensures
        r == hex_digit_upper(v),
{
    if v < 10 {
        48 + v
    } else {
        55 + v
    }
}

/// The serialised form of one pair: encoded key, and `=` with the encoded
/// value only when the value is non-empty.
pub open spec fn pair_bytes(p: (Seq<u8>, Seq<u8>)) -> Seq<u8> {
    if p.1.len() > 0 {
        encode_component(p.0) + seq![EQS] + encode_component(p.1)
    } else {
        encode_component(p.0)
    }
}

/// The pairs serialised in order, joined with `&`.
pub open spec fn serialize_pairs(ps: Seq<(Seq<u8>, Seq<u8>)>) -> Seq<u8>
    decreases ps.len(),
{
    if ps.len() == 0 {
        Seq::empty()
    } else if ps.len() == 1 {
        pair_bytes(ps[0])
    } else {
        pair_bytes(ps[0]) + seq![AMP] + serialize_pairs(ps.drop_first())
    }
}

proof fn lemma_serialize_push(ps: Seq<(Seq<u8>, Seq<u8>)>, p: (Seq<u8>, Seq<u8>))
    ensures
        ps.len() == 0 ==> serialize_pairs(ps.push(p)) == pair_bytes(p),
        ps.len() > 0 ==> serialize_pairs(ps.push(p)) == serialize_pairs(ps) + seq![AMP]
            + pair_bytes(p),
    decreases ps.len(),
{
    if ps.len() == 0 {
        assert(ps.push(p)[0] == p);
        assert(ps.push(p).len() == 1);
    } else {
        lemma_serialize_push(ps.drop_first(), p);
        assert(ps.push(p).drop_first() =~= ps.drop_first().push(p));
        assert(ps.push(p)[0] == ps[0]);
        if ps.len() == 1 {
            assert(serialize_pairs(ps.push(p)) == pair_bytes(ps[0]) + seq![AMP] + serialize_pairs(
                ps.push(p).drop_first(),
            ));
            assert(serialize_pairs(ps.drop_first().push(p)) == pair_bytes(p));
        } else {
            assert(serialize_pairs(ps) == pair_bytes(ps[0]) + seq![AMP] + serialize_pairs(
                ps.drop_first(),
            ));
        }
    }
}

/// Serialises pairs in their given order.
pub fn serialize_pairs_exec(ps: &Vec<(Vec<u8>, Vec<u8>)>) -> (r: Vec<u8>)
    ensures
        r@ == serialize_pairs(ps.deep_view()),
{
    let mut out: Vec<u8> = Vec::new();
    let mut i: usize = 0;
    proof {
        assert(ps.deep_view().subrange(0, 0) =~= Seq::<(Seq<u8>, Seq<u8>)>::empty());
    }
    while i < ps.len()
        invariant
            0 <= i <= ps@.len(),
            ps.deep_view().len() == ps@.len(),
            out@ == serialize_pairs(ps.deep_view().subrange(0, i as int)),
        decreases ps@.len() - i,
    {
        let ghost pre = ps.deep_view().subrange(0, i as int);
        proof {
            assert(ps.deep_view().subrange(0, i as int + 1) =~= pre.push(
                ps.deep_view()[i as int],
            ));
            lemma_serialize_push(pre, ps.deep_view()[i as int]);
        }
        if i > 0 {
            out.push(AMP);
        }
        let key_enc = encode_component_exec(ps[i].0.as_slice());
        proof {
            assert(ps[i as int].0@ == ps.deep_view()[i as int].0);
            assert(ps[i as int].1@ == ps.deep_view()[i as int].1);
        }
        append_vec(&mut out, key_enc);
        if ps[i].1.len() > 0 {
            out.push(EQS);
            let val_enc = encode_component_exec(ps[i].1.as_slice());
            append_vec(&mut out, val_enc);
        }
        proof {
            assert(out@ =~= serialize_pairs(ps.deep_view().subrange(0, i as int + 1)));
        }
        i += 1;
    }
    proof {
        assert(ps.deep_view().subrange(0, ps.deep_view().len() as int) =~= ps.deep_view());
    }
    out
}

/// Appends one vector to another.
pub fn append_vec(out: &mut Vec<u8>, tail: Vec<u8>)
    ensures
        final(out)@ == old(out)@ + tail@,
{
    let mut i: usize = 0;
    let ghost base = out@;
    proof {
        assert(base + tail@.subrange(0, 0) =~= base);
    }
    while i < tail.len()
        invariant
            0 <= i <= tail@.len(),
            out@ == base + tail@.subrange(0, i as int),
        decreases tail@.len() - i,
    {
        proof {
            assert(tail@.subrange(0, i as int + 1) =~= tail@.subrange(0, i as int).push(
                tail@[i as int],
            ));
            assert((base + tail@.subrange(0, i as int)).push(tail@[i as int]) =~= base
                + tail@.subrange(0, i as int + 1));
        }
        out.push(tail[i]);
        i += 1;
    }
    proof {
        assert(tail@.subrange(0, tail@.len() as int) =~= tail@);
    }
}

/// Decides the lexicographic order used on keys.
pub fn lex_leq_exec(a: &[u8], b: &[u8]) -> (r: bool)
    ensures
        r == lex_leq(a@, b@),
{
    let mut i: usize = 0;
    proof {
        assert(a@.subrange(0, a@.len() as int) =~= a@);
        assert(b@.subrange(0, b@.len() as int) =~= b@);
    }
    while i < a.len() && i < b.len()
        invariant
            0 <= i <= a@.len(),
            0 <= i <= b@.len(),
            forall|j: int| 0 <= j < i ==> a@[j] == b@[j],
            lex_leq(a@, b@) == lex_leq(
                a@.subrange(i as int, a@.len() as int),
                b@.subrange(i as int, b@.len() as int),
            ),
        decreases a@.len() - i,
    {
        let ghost ra = a@.subrange(i as int, a@.len() as int);
        let ghost rb = b@.subrange(i as int, b@.len() as int);
        proof {
            assert(ra[0] == a@[i as int]);
            assert(rb[0] == b@[i as int]);
            assert(ra.drop_first() =~= a@.subrange(i as int + 1, a@.len() as int));
            assert(rb.drop_first() =~= b@.subrange(i as int + 1, b@.len() as int));
        }
        if a[i] < b[i] {
            return true;
        }
        if a[i] > b[i] {
            return false;
        }
        i += 1;
    }
    proof {
        if i == a@.len() {
            assert(a@.subrange(i as int, a@.len() as int).len() == 0);
        } else {
            assert(b@.subrange(i as int, b@.len() as int).len() == 0);
            assert(a@.subrange(i as int, a@.len() as int).len() > 0);
        }
    }
    i == a.len()
}

proof fn lemma_insert_pair_at(ps: Seq<(Seq<u8>, Seq<u8>)>, p: (Seq<u8>, Seq<u8>), k: int)
    requires
        0 <= k <= ps.len(),
        forall|j: int| 0 <= j < k ==> lex_leq((#[trigger] ps[j]).0, p.0),
        k < ps.len() ==> !lex_leq(ps[k].0, p.0),
    ensures
        insert_pair_sorted(ps, p) == ps.insert(k, p),
    decreases ps.len(),
{
    if ps.len() == 0 {
        assert(ps.insert(0, p) =~= seq![p]);
    } else if k == 0 {
        assert(ps.insert(0, p) =~= seq![p] + ps);
    } else {
        lemma_insert_pair_at(ps.drop_first(), p, k - 1);
        assert forall|j: int| 0 <= j < k - 1 implies lex_leq(
            (#[trigger] ps.drop_first()[j]).0,
            p.0,
        ) by {
            assert(ps.drop_first()[j] == ps[j + 1]);
        }
        assert(k - 1 < ps.drop_first().len() ==> !lex_leq(ps.drop_first()[k - 1].0, p.0));
        assert(insert_pair_sorted(ps, p) == seq![ps[0]] + insert_pair_sorted(
            ps.drop_first(),
            p,
        ));
        assert(ps.insert(k, p) =~= seq![ps[0]] + ps.drop_first().insert(k - 1, p));
    }
}

/// Sorts the pairs by key, keeping the given order within equal keys.
pub fn sort_pairs_exec(ps: Vec<(Vec<u8>, Vec<u8>)>) -> (r: Vec<(Vec<u8>, Vec<u8>)>)
    ensures
        r.deep_view() == sort_pairs(ps.deep_view()),
{
    let mut out: Vec<(Vec<u8>, Vec<u8>)> = Vec::new();
    let mut i: usize = 0;
    proof {
        assert(ps.deep_view().subrange(0, 0) =~= Seq::<(Seq<u8>, Seq<u8>)>::empty());
    }
    while i < ps.len()
        invariant
            0 <= i <= ps@.len(),
            ps.deep_view().len() == ps@.len(),
            out.deep_view() == sort_pairs(ps.deep_view().subrange(0, i as int)),
        decreases ps@.len() - i,
    {
        let ghost pre = ps.deep_view().subrange(0, i as int);
        let ghost pv = ps.deep_view()[i as int];
        let p = (ps[i].0.clone(), ps[i].1.clone());
        proof {
            assert(ps[i as int].0@ == pv.0 && ps[i as int].1@ == pv.1);
            assert(p.deep_view() == pv);
            assert(ps.deep_view().subrange(0, i as int + 1) =~= pre.push(pv));
            assert(pre.push(pv).drop_last() =~= pre);
            assert(pre.push(pv).last() == pv);
        }
        // find the stable insertion point: after every key not above p's
        let mut k: usize = 0;
        while k < out.len() && lex_leq_exec(out[k].0.as_slice(), p.0.as_slice())
            invariant
                0 <= k <= out@.len(),
                out.deep_view().len() == out@.len(),
                forall|j: int| 0 <= j < k ==> lex_leq((#[trigger] out.deep_view()[j]).0, pv.0),
                p.deep_view() == pv,
            decreases out@.len() - k,
        {
            proof {
                assert(out.deep_view()[k as int].0 == out@[k as int].0@);
                assert(p.0@ == pv.0);
                assert(lex_leq(out.deep_view()[k as int].0, pv.0));
            }
            k += 1;
        }
        proof {
            if k < out@.len() {
                assert(out.deep_view()[k as int].0 == out@[k as int].0@);
            }
            lemma_insert_pair_at(out.deep_view(), pv, k as int);
        }
        let ghost pre_out = out.deep_view();
        out.insert(k, p);
        proof {
            assert(out.deep_view() =~= pre_out.insert(k as int, pv));
        }
        i += 1;
    }
    proof {
        assert(ps.deep_view().subrange(0, ps.deep_view().len() as int) =~= ps.deep_view());
    }
    out
}

/// The canonical serialisation of a raw query string: decoded pairs, sorted
/// by key, re-encoded and joined.
pub open spec fn sorted_query(q: Seq<u8>) -> Seq<u8> {
    serialize_pairs(sort_pairs(parse_pairs(q)))
}

/// Builds the canonical query, or None when nothing remains of it.
pub fn build_sorted_query_bytes(q: &[u8]) -> (r: Option<Vec<u8>>)
    ensures
        (r is Some) == (sorted_query(q@).len() > 0),
        r is Some ==> (r->Some_0)@ == sorted_query(q@),
{
    let pairs = parse_pairs_exec(q);
    let sorted = sort_pairs_exec(pairs);
    let ser = serialize_pairs_exec(&sorted);
    if ser.len() == 0 {
        None
    } else {
        Some(ser)
    }
}

/// The canonical matching key of a raw path-and-query: the path, then `?`
/// and the sorted query when any pairs remain.
pub open spec fn canonical_path(pq: Seq<u8>) -> Seq<u8> {
    let q = find_byte(pq, QMARK);
    if q < pq.len() {
        let path = pq.subrange(0, q);
        let sq = sorted_query(pq.subrange(q + 1, pq.len() as int));
        if sq.len() == 0 {
            path
        } else {
            path + seq![QMARK] + sq
        }
    } else {
        pq
    }
}

/// Computes the canonical matching key.
pub fn canonical_path_exec(pq: &[u8]) -> (r: Vec<u8>)
    ensures
        r@ == canonical_path(pq@),
{
    let q = find_byte_exec(pq, QMARK);
    proof {
        lemma_find_byte(pq@, QMARK);
    }
    if q < pq.len() {
        let mut path = copy_range(pq, 0, q);
        match build_sorted_query_bytes(slice_from(pq, q + 1)) {
            None => path,
            Some(sq) => {
                path.push(QMARK);
                proof {
                    assert(path@ =~= pq@.subrange(0, q as int) + seq![QMARK]);
                }
                append_vec(&mut path, sq);
                path
            },
        }
    } else {
        copy_range(pq, 0, pq.len())
    }
}

/// Where the first `b` of a string with a known occurrence stands.
pub proof fn lemma_find_byte_at(s: Seq<u8>, b: u8, k: int)
    requires
        0 <= k <= s.len(),
        forall|j: int| 0 <= j < k ==> s[j] != b,
        k < s.len() ==> s[k] == b,
    ensures
        find_byte(s, b) == k,
{
    lemma_find_byte(s, b);
    let fb = find_byte(s, b);
    if fb < k {
        assert(s[fb] == b);
        assert(s[fb] != b);
    }
    if fb > k {
        assert(k < s.len());
        assert(s[k] != b);
    }
}

/// Bytes that never appear in a percent-encoded component: anything that is
/// not the escape lead, not an uppercase hex digit and not passed through.
pub proof fn lemma_encode_free_of(s: Seq<u8>, b: u8)
    requires
        b != PERCENT,
        !is_hex_digit(b),
        forall|i: int| 0 <= i < s.len() ==> s[i] != b,
    ensures
        forall|i: int| 0 <= i < encode_component(s).len() ==> encode_component(s)[i] != b,
    decreases s.len(),
{
    if s.len() > 0 {
        assert forall|i: int| 0 <= i < s.drop_first().len() implies s.drop_first()[i] != b by {
            assert(s.drop_first()[i] == s[i + 1]);
        }
        lemma_encode_free_of(s.drop_first(), b);
        let head = encode_byte(s[0]);
        assert forall|i: int| 0 <= i < head.len() implies head[i] != b by {
            if needs_encoding(s[0]) {
                assert(head[0] == PERCENT);
                assert(is_hex_digit(hex_digit_upper(s[0] / 16)));
                assert(is_hex_digit(hex_digit_upper(s[0] % 16)));
            } else {
                assert(head[0] == s[0]);
            }
        }
        assert forall|i: int|
            0 <= i < encode_component(s).len() implies encode_component(s)[i] != b by {
            if i < head.len() {
                assert(encode_component(s)[i] == head[i]);
            } else {
                assert(encode_component(s)[i] == encode_component(s.drop_first())[i - head.len()]);
            }
        }
    }
}

/// A component without escape leads or pluses decodes back from its
/// encoding.
pub proof fn lemma_decode_encode(s: Seq<u8>)
    requires
        forall|i: int| 0 <= i < s.len() ==> s[i] != PERCENT && s[i] != PLUS,
    ensures
        decode_component(encode_component(s)) == s,
    decreases s.len(),
{
    if s.len() == 0 {
        assert(encode_component(s).len() == 0);
        assert(decode_component(encode_component(s)) =~= s);
    } else {
        assert forall|i: int|
            0 <= i < s.drop_first().len() implies s.drop_first()[i] != PERCENT
            && s.drop_first()[i] != PLUS by {
            assert(s.drop_first()[i] == s[i + 1]);
        }
        lemma_decode_encode(s.drop_first());
        let head = encode_byte(s[0]);
        let tail = encode_component(s.drop_first());
        let whole = encode_component(s);
        assert(whole == head + tail);
        if needs_encoding(s[0]) {
            let hi = hex_digit_upper(s[0] / 16);
            let lo = hex_digit_upper(s[0] % 16);
            assert(whole[0] == PERCENT && whole.len() >= 3);
            assert(whole[1] == hi && whole[2] == lo);
            assert(is_hex_digit(hi) && is_hex_digit(lo));
            assert(hex_val(hi) == s[0] / 16 && hex_val(lo) == s[0] % 16);
            let b0 = s[0];
            assert(b0 == 16 * (b0 / 16) + b0 % 16) by (bit_vector);
            assert(whole.subrange(3, whole.len() as int) =~= tail);
            assert(decode_component(whole) == seq![(16 * hex_val(whole[1]) + hex_val(
                whole[2],
            )) as u8] + decode_component(tail));
            assert(decode_component(whole) =~= s);
        } else {
            assert(whole[0] == s[0]);
            assert(whole[0] != PERCENT && whole[0] != PLUS);
            assert(whole.drop_first() =~= tail);
            assert(decode_component(whole) == seq![s[0]] + decode_component(tail));
            assert(decode_component(whole) =~= s);
        }
    }
}

/// A pair the round trip preserves: a non-empty key and a value free of the
/// bytes that re-parsing would split or decode differently.
pub open spec fn pair_safe(p: (Seq<u8>, Seq<u8>)) -> bool {
    &&& p.0.len() > 0
    &&& (forall|i: int|
        0 <= i < p.0.len() ==> p.0[i] != PERCENT && p.0[i] != PLUS && p.0[i] != AMP && p.0[i]
            != EQS)
    &&& (forall|i: int|
        0 <= i < p.1.len() ==> p.1[i] != PERCENT && p.1[i] != PLUS && p.1[i] != AMP)
}

/// Every pair of the list is safe.
pub open spec fn pairs_safe(ps: Seq<(Seq<u8>, Seq<u8>)>) -> bool {
    forall|i: int| 0 <= i < ps.len() ==> pair_safe(#[trigger] ps[i])
}

/// A safe pair's serialisation parses back to the pair.
pub proof fn lemma_parse_segment_pair(p: (Seq<u8>, Seq<u8>))
    requires
        pair_safe(p),
    ensures
        pair_bytes(p).len() > 0,
        forall|i: int| 0 <= i < pair_bytes(p).len() ==> pair_bytes(p)[i] != AMP,
        parse_segment(pair_bytes(p)) == p,
{
    let ek = encode_component(p.0);
    assert(ek.len() >= p.0.len()) by {
        lemma_encode_at_least(p.0);
    }
    lemma_encode_free_of(p.0, AMP);
    lemma_encode_free_of(p.0, EQS);
    lemma_decode_encode(p.0);
    if p.1.len() > 0 {
        let ev = encode_component(p.1);
        let pb = pair_bytes(p);
        assert(pb == ek + seq![EQS] + ev);
        lemma_encode_free_of(p.1, AMP);
        lemma_decode_encode(p.1);
        assert forall|i: int| 0 <= i < pb.len() implies pb[i] != AMP by {
            if i < ek.len() {
                assert(pb[i] == ek[i]);
            } else if i == ek.len() {
                assert(pb[i] == EQS);
            } else {
                assert(pb[i] == ev[i - ek.len() - 1]);
            }
        }
        assert forall|j: int| 0 <= j < ek.len() implies pb[j] != EQS by {
            assert(pb[j] == ek[j]);
        }
        assert(pb[ek.len() as int] == EQS);
        lemma_find_byte_at(pb, EQS, ek.len() as int);
        assert(pb.subrange(0, ek.len() as int) =~= ek);
        assert(pb.subrange(ek.len() as int + 1, pb.len() as int) =~= ev);
        assert(parse_segment(pb) == (decode_component(ek), decode_component(ev)));
        assert(parse_segment(pb).0 == p.0 && parse_segment(pb).1 == p.1);
        assert(parse_segment(pb) == p);
    } else {
        let pb = pair_bytes(p);
        assert(pb == ek);
        assert forall|j: int| 0 <= j < pb.len() implies pb[j] != EQS by {
            assert(pb[j] == ek[j]);
        }
        lemma_find_byte_at(pb, EQS, pb.len() as int);
        assert(parse_segment(pb) == (decode_component(ek), Seq::<u8>::empty()));
        assert(p.1 =~= Seq::<u8>::empty());
        assert(parse_segment(pb) == p);
    }
}

/// Encoding never shortens a component.
pub proof fn lemma_encode_at_least(s: Seq<u8>)
    ensures
        encode_component(s).len() >= s.len(),
    decreases s.len(),
{
    if s.len() > 0 {
        lemma_encode_at_least(s.drop_first());
    }
}

/// Safe pairs parse back from their joined serialisation.
pub proof fn lemma_parse_serialize(ps: Seq<(Seq<u8>, Seq<u8>)>)
    requires
        pairs_safe(ps),
    ensures
        parse_pairs(serialize_pairs(ps)) == ps,
    decreases ps.len(),
{
    if ps.len() == 0 {
        assert(parse_pairs(serialize_pairs(ps)) =~= ps);
    } else if ps.len() == 1 {
        let pb = pair_bytes(ps[0]);
        lemma_parse_segment_pair(ps[0]);
        assert(serialize_pairs(ps) == pb);
        lemma_find_byte_at(pb, AMP, pb.len() as int);
        assert(pb.subrange(0, pb.len() as int) =~= pb);
        assert(parse_pairs(pb) == seq![parse_segment(pb)] + parse_pairs(Seq::<u8>::empty()));
        assert(parse_pairs(pb) =~= ps);
    } else {
        let pb = pair_bytes(ps[0]);
        let rest = ps.drop_first();
        assert forall|i: int| 0 <= i < rest.len() implies pair_safe(#[trigger] rest[i]) by {
            assert(rest[i] == ps[i + 1]);
        }
        lemma_parse_serialize(rest);
        lemma_parse_segment_pair(ps[0]);
        let whole = serialize_pairs(ps);
        assert(whole == pb + seq![AMP] + serialize_pairs(rest));
        assert forall|j: int| 0 <= j < pb.len() implies whole[j] != AMP by {
            assert(whole[j] == pb[j]);
        }
        assert(whole[pb.len() as int] == AMP);
        lemma_find_byte_at(whole, AMP, pb.len() as int);
        assert(whole.subrange(0, pb.len() as int) =~= pb);
        assert(whole.subrange(pb.len() as int + 1, whole.len() as int) =~= serialize_pairs(rest));
        assert(parse_pairs(whole) == seq![parse_segment(pb)] + parse_pairs(
            serialize_pairs(rest),
        ));
        assert(parse_pairs(whole) =~= ps);
    }
}

pub proof fn lemma_insert_pair_sorted_props(ps: Seq<(Seq<u8>, Seq<u8>)>, p: (Seq<u8>, Seq<u8>))
    requires
        pairs_sorted(ps),
    ensures
        pairs_sorted(insert_pair_sorted(ps, p)),
        insert_pair_sorted(ps, p).to_multiset() == ps.to_multiset().insert(p),
        insert_pair_sorted(ps, p).len() == ps.len() + 1,
    decreases ps.len(),
{
    broadcast use vstd::seq_lib::group_to_multiset_ensures, vstd::multiset::group_multiset_axioms;

    let r = insert_pair_sorted(ps, p);
    if ps.len() == 0 {
        assert(r =~= Seq::<(Seq<u8>, Seq<u8>)>::empty().push(p));
        assert(Seq::<(Seq<u8>, Seq<u8>)>::empty().push(p).to_multiset() =~= ps.to_multiset()
            .insert(p));
    } else if lex_leq(ps[0].0, p.0) {
        let rest = ps.drop_first();
        assert forall|i: int, j: int| 0 <= i < j < rest.len() implies lex_leq(
            (#[trigger] rest[i]).0,
            (#[trigger] rest[j]).0,
        ) by {
            assert(rest[i] == ps[i + 1] && rest[j] == ps[j + 1]);
        }
        lemma_insert_pair_sorted_props(rest, p);
        let ri = insert_pair_sorted(rest, p);
        assert(r == seq![ps[0]] + ri);
        assert forall|i: int, j: int| 0 <= i < j < r.len() implies lex_leq(
            (#[trigger] r[i]).0,
            (#[trigger] r[j]).0,
        ) by {
            if i == 0 {
                assert(r[0] == ps[0]);
                assert(r[j] == ri[j - 1]);
                lemma_insert_member_key(rest, p, j - 1);
                if ri[j - 1] == p {
                    assert(lex_leq(ps[0].0, p.0));
                } else {
                    let w = choose|w: int| 0 <= w < rest.len() && rest[w] == ri[j - 1];
                    assert(lex_leq(ps[0].0, ps[w + 1].0));
                }
            } else {
                assert(r[i] == ri[i - 1] && r[j] == ri[j - 1]);
            }
        }
        assert(ps =~= seq![ps[0]] + rest);
        assert(r.to_multiset() =~= ps.to_multiset().insert(p)) by {
            assert(seq![ps[0]].to_multiset().add(ri.to_multiset()) =~= r.to_multiset()) by {
                vstd::seq_lib::lemma_multiset_commutative(seq![ps[0]], ri);
                lemma_singleton_multiset(ps[0]);
            }
            assert(seq![ps[0]].to_multiset().add(rest.to_multiset()) =~= ps.to_multiset()) by {
                vstd::seq_lib::lemma_multiset_commutative(seq![ps[0]], rest);
                lemma_singleton_multiset(ps[0]);
            }
        }
    } else {
        assert(r == seq![p] + ps);
        lemma_lex_leq_total(ps[0].0, p.0);
        assert(lex_leq(p.0, ps[0].0));
        assert forall|i: int, j: int| 0 <= i < j < r.len() implies lex_leq(
            (#[trigger] r[i]).0,
            (#[trigger] r[j]).0,
        ) by {
            if i == 0 {
                assert(r[0] == p && r[j] == ps[j - 1]);
                if j - 1 > 0 {
                    assert(lex_leq(ps[0].0, ps[j - 1].0));
                    crate::bytes_util::lemma_lex_leq_transitive(p.0, ps[0].0, ps[j - 1].0);
                }
            } else {
                assert(r[i] == ps[i - 1] && r[j] == ps[j - 1]);
            }
        }
        assert(r.to_multiset() =~= ps.to_multiset().insert(p)) by {
            vstd::seq_lib::lemma_multiset_commutative(seq![p], ps);
            lemma_singleton_multiset(p);
        }
    }
}

proof fn lemma_singleton_multiset(p: (Seq<u8>, Seq<u8>))
    ensures
        seq![p].to_multiset() =~= vstd::multiset::Multiset::<(Seq<u8>, Seq<u8>)>::empty().insert(
            p,
        ),
{
    broadcast use vstd::seq_lib::group_to_multiset_ensures, vstd::multiset::group_multiset_axioms;

    assert(seq![p] =~= Seq::<(Seq<u8>, Seq<u8>)>::empty().push(p));
}

/// Each member of an insertion result is the inserted pair or one of the
/// old members.
proof fn lemma_insert_member_key(ps: Seq<(Seq<u8>, Seq<u8>)>, p: (Seq<u8>, Seq<u8>), k: int)
    requires
        0 <= k < insert_pair_sorted(ps, p).len(),
    ensures
        insert_pair_sorted(ps, p)[k] == p || (exists|w: int|
            0 <= w < ps.len() && ps[w] == insert_pair_sorted(ps, p)[k]),
    decreases ps.len(),
{
    let r = insert_pair_sorted(ps, p);
    if ps.len() == 0 {
    } else if lex_leq(ps[0].0, p.0) {
        if k == 0 {
            assert(r[0] == ps[0]);
        } else {
            lemma_insert_member_key(ps.drop_first(), p, k - 1);
            assert(r[k] == insert_pair_sorted(ps.drop_first(), p)[k - 1]);
            if insert_pair_sorted(ps.drop_first(), p)[k - 1] != p {
                let w = choose|w: int|
                    0 <= w < ps.drop_first().len() && ps.drop_first()[w] == insert_pair_sorted(
                        ps.drop_first(),
                        p,
                    )[k - 1];
                assert(ps[w + 1] == r[k]);
            }
        }
    } else {
        if k > 0 {
            assert(r[k] == ps[k - 1]);
        }
    }
}

/// Sorting yields a key-sorted permutation.
pub proof fn lemma_sort_pairs_props(ps: Seq<(Seq<u8>, Seq<u8>)>)
    ensures
        pairs_sorted(sort_pairs(ps)),
        sort_pairs(ps).to_multiset() == ps.to_multiset(),
        sort_pairs(ps).len() == ps.len(),
    decreases ps.len(),
{
    broadcast use vstd::seq_lib::group_to_multiset_ensures, vstd::multiset::group_multiset_axioms;

    if ps.len() > 0 {
        lemma_sort_pairs_props(ps.drop_last());
        lemma_insert_pair_sorted_props(sort_pairs(ps.drop_last()), ps.last());
        assert(ps =~= ps.drop_last().push(ps.last()));
        assert(ps.drop_last().push(ps.last()).to_multiset() =~= ps.drop_last().to_multiset()
            .insert(ps.last()));
    }
}

/// Sorting an already key-sorted list changes nothing.
pub proof fn lemma_sort_pairs_of_sorted(ps: Seq<(Seq<u8>, Seq<u8>)>)
    requires
        pairs_sorted(ps),
    ensures
        sort_pairs(ps) == ps,
    decreases ps.len(),
{
    if ps.len() > 0 {
        let front = ps.drop_last();
        assert forall|i: int, j: int| 0 <= i < j < front.len() implies lex_leq(
            (#[trigger] front[i]).0,
            (#[trigger] front[j]).0,
        ) by {
            assert(front[i] == ps[i] && front[j] == ps[j]);
        }
        lemma_sort_pairs_of_sorted(front);
        assert forall|j: int| 0 <= j < front.len() implies lex_leq(
            (#[trigger] front[j]).0,
            ps.last().0,
        ) by {
            assert(front[j] == ps[j]);
            assert(lex_leq(ps[j].0, ps[ps.len() - 1].0));
        }
        lemma_insert_pair_at(front, ps.last(), front.len() as int);
        assert(front.insert(front.len() as int, ps.last()) =~= ps);
    }
}

/// No two pairs of the list share a key.
pub open spec fn keys_distinct(ps: Seq<(Seq<u8>, Seq<u8>)>) -> bool {
    forall|i: int, j: int| 0 <= i < j < ps.len() ==> (#[trigger] ps[i]).0 != (#[trigger] ps[j]).0
}

/// Two key-sorted lists of pairs with distinct keys and the same members
/// are the same list.
pub proof fn lemma_sorted_unique(a: Seq<(Seq<u8>, Seq<u8>)>, b: Seq<(Seq<u8>, Seq<u8>)>)
    requires
        pairs_sorted(a),
        pairs_sorted(b),
        keys_distinct(a),
        keys_distinct(b),
        a.to_multiset() == b.to_multiset(),
    ensures
        a == b,
    decreases a.len(),
{
    broadcast use vstd::seq_lib::group_to_multiset_ensures, vstd::multiset::group_multiset_axioms;

    if a.len() == 0 {
        assert(a.to_multiset().len() == 0);
        assert(b.to_multiset().len() == b.len());
        assert(a =~= b);
    } else {
        assert(a.to_multiset().len() == a.len());
        assert(b.to_multiset().len() == b.len());
        assert(b.len() == a.len());
        assert(a.to_multiset().contains(a[0]));
        assert(b.to_multiset().count(a[0]) > 0);
        assert(b.contains(a[0]));
        let j = choose|j: int| 0 <= j < b.len() && b[j] == a[0];
        assert(b.to_multiset().contains(b[0]));
        assert(a.contains(b[0]));
        let i = choose|i: int| 0 <= i < a.len() && a[i] == b[0];
        if j > 0 {
            assert(lex_leq(b[0].0, b[j].0));
        } else {
            lemma_lex_leq_total(b[0].0, a[0].0);
        }
        if i > 0 {
            assert(lex_leq(a[0].0, a[i].0));
        } else {
            lemma_lex_leq_total(a[0].0, b[0].0);
        }
        assert(lex_leq(b[0].0, a[0].0));
        assert(lex_leq(a[0].0, b[0].0));
        crate::bytes_util::lemma_lex_leq_antisymmetric(a[0].0, b[0].0);
        assert(a[0].0 == b[0].0);
        if j > 0 {
            assert(b[0].0 != b[j].0);
            assert(false);
        }
        assert(b[0] == a[0]);
        let ra = a.drop_first();
        let rb = b.drop_first();
        assert forall|x: int, y: int| 0 <= x < y < ra.len() implies lex_leq(
            (#[trigger] ra[x]).0,
            (#[trigger] ra[y]).0,
        ) && ra[x].0 != ra[y].0 by {
            assert(ra[x] == a[x + 1] && ra[y] == a[y + 1]);
        }
        assert forall|x: int, y: int| 0 <= x < y < rb.len() implies lex_leq(
            (#[trigger] rb[x]).0,
            (#[trigger] rb[y]).0,
        ) && rb[x].0 != rb[y].0 by {
            assert(rb[x] == b[x + 1] && rb[y] == b[y + 1]);
        }
        assert(ra.to_multiset() =~= rb.to_multiset()) by {
            assert(a =~= seq![a[0]] + ra);
            assert(b =~= seq![b[0]] + rb);
            vstd::seq_lib::lemma_multiset_commutative(seq![a[0]], ra);
            vstd::seq_lib::lemma_multiset_commutative(seq![b[0]], rb);
            lemma_singleton_multiset(a[0]);
            assert forall|x: (Seq<u8>, Seq<u8>)|
                ra.to_multiset().count(x) == rb.to_multiset().count(x) by {
                assert(a.to_multiset().count(x) == seq![a[0]].to_multiset().count(x)
                    + ra.to_multiset().count(x));
                assert(b.to_multiset().count(x) == seq![b[0]].to_multiset().count(x)
                    + rb.to_multiset().count(x));
            }
        }
        lemma_sorted_unique(ra, rb);
        assert forall|k: int| 0 <= k < a.len() implies a[k] == b[k] by {
            if k > 0 {
                assert(a[k] == ra[k - 1]);
                assert(b[k] == rb[k - 1]);
            }
        }
        assert(a =~= b);
    }
}

/// The canonical serialisation depends only on which pairs the query
/// carries, not on their order, as long as no key repeats.
pub proof fn lemma_sorted_query_deterministic(
    ps1: Seq<(Seq<u8>, Seq<u8>)>,
    ps2: Seq<(Seq<u8>, Seq<u8>)>,
)
    requires
        ps1.to_multiset() == ps2.to_multiset(),
        keys_distinct(ps1),
    ensures
        serialize_pairs(sort_pairs(ps1)) == serialize_pairs(sort_pairs(ps2)),
{
    broadcast use vstd::seq_lib::group_to_multiset_ensures, vstd::multiset::group_multiset_axioms;

    lemma_sort_pairs_props(ps1);
    lemma_sort_pairs_props(ps2);
    let s1 = sort_pairs(ps1);
    let s2 = sort_pairs(ps2);
    assert forall|i: int, j: int|
        0 <= i < j < s1.len() implies (#[trigger] s1[i]).0 != (#[trigger] s1[j]).0 by {
        lemma_member_of_sorted(ps1, s1, i, j);
    }
    assert forall|i: int, j: int|
        0 <= i < j < s2.len() implies (#[trigger] s2[i]).0 != (#[trigger] s2[j]).0 by {
        assert(s2.to_multiset() == ps1.to_multiset());
        lemma_member_of_sorted(ps1, s2, i, j);
    }
    lemma_sorted_unique(s1, s2);
}

/// Two positions of a permutation of a distinct-keyed list carry distinct
/// keys.
proof fn lemma_member_of_sorted(
    ps: Seq<(Seq<u8>, Seq<u8>)>,
    s: Seq<(Seq<u8>, Seq<u8>)>,
    i: int,
    j: int,
)
    requires
        s.to_multiset() == ps.to_multiset(),
        keys_distinct(ps),
        0 <= i < j < s.len(),
    ensures
        s[i].0 != s[j].0,
{
    broadcast use vstd::seq_lib::group_to_multiset_ensures, vstd::multiset::group_multiset_axioms;

    if s[i].0 == s[j].0 {
        if s[i] == s[j] {
            let s0 = s.subrange(0, j);
            let s1 = s.subrange(j, s.len() as int);
            assert(s =~= s0 + s1);
            vstd::seq_lib::lemma_multiset_commutative(s0, s1);
            assert(s0[i] == s[i]);
            assert(s0.contains(s[i]));
            assert(s1[0] == s[j]);
            assert(s1.contains(s[i]));
            assert(s0.to_multiset().count(s[i]) > 0);
            assert(s1.to_multiset().count(s[i]) > 0);
            assert(s.to_multiset().count(s[i]) >= 2);
            assert(ps.no_duplicates()) by {
                assert forall|x: int, y: int|
                    0 <= x < ps.len() && 0 <= y < ps.len() && x != y implies ps[x] != ps[y] by {
                    if x < y {
                        assert(ps[x].0 != ps[y].0);
                    } else {
                        assert(ps[y].0 != ps[x].0);
                    }
                }
            }
            ps.lemma_multiset_has_no_duplicates();
            assert(ps.to_multiset().contains(s[i]));
            assert(ps.to_multiset().count(s[i]) == 1);
            assert(false);
        } else {
            assert(s.to_multiset().contains(s[i]));
            assert(ps.contains(s[i]));
            assert(s.to_multiset().contains(s[j]));
            assert(ps.contains(s[j]));
            let x = choose|x: int| 0 <= x < ps.len() && ps[x] == s[i];
            let y = choose|y: int| 0 <= y < ps.len() && ps[y] == s[j];
            assert(x != y);
            if x < y {
                assert(ps[x].0 != ps[y].0);
            } else {
                assert(ps[y].0 != ps[x].0);
            }
            assert(false);
        }
    }
}

/// The raw query part of a path-and-query: what follows the first `?`.
pub open spec fn query_of(pq: Seq<u8>) -> Seq<u8> {
    let q = find_byte(pq, QMARK);
    if q < pq.len() {
        pq.subrange(q + 1, pq.len() as int)
    } else {
        Seq::empty()
    }
}

/// Sorting keeps every pair, so it keeps their safety.
pub proof fn lemma_sort_preserves_safe(ps: Seq<(Seq<u8>, Seq<u8>)>)
    requires
        pairs_safe(ps),
    ensures
        pairs_safe(sort_pairs(ps)),
{
    broadcast use vstd::seq_lib::group_to_multiset_ensures, vstd::multiset::group_multiset_axioms;

    lemma_sort_pairs_props(ps);
    let s = sort_pairs(ps);
    assert forall|i: int| 0 <= i < s.len() implies pair_safe(#[trigger] s[i]) by {
        assert(s.contains(s[i]));
        assert(s.to_multiset().count(s[i]) > 0);
        assert(ps.to_multiset().contains(s[i]));
        assert(ps.contains(s[i]));
        let w = choose|w: int| 0 <= w < ps.len() && ps[w] == s[i];
        assert(pair_safe(ps[w]));
    }
}

/// A query of safe pairs canonicalises to a fixed point: serialising its
/// sorted pairs and canonicalising again changes nothing.
pub proof fn lemma_sorted_query_fixed_point(qs: Seq<u8>)
    requires
        pairs_safe(parse_pairs(qs)),
    ensures
        sorted_query(sorted_query(qs)) == sorted_query(qs),
{
    let ps = parse_pairs(qs);
    let sorted = sort_pairs(ps);
    lemma_sort_pairs_props(ps);
    lemma_sort_preserves_safe(ps);
    lemma_parse_serialize(sorted);
    assert(parse_pairs(sorted_query(qs)) == sorted);
    lemma_sort_pairs_of_sorted(sorted);
}

/// Canonicalisation is idempotent on a path whose query decodes into safe
/// pairs: non-empty keys, and no byte that re-parsing would split on or
/// decode differently.
pub proof fn lemma_canonical_idempotent(pq: Seq<u8>)
    requires
        pairs_safe(parse_pairs(query_of(pq))),
    ensures
        canonical_path(canonical_path(pq)) == canonical_path(pq),
{
    lemma_find_byte(pq, QMARK);
    let q = find_byte(pq, QMARK);
    if q >= pq.len() {
        // no query separator: the path is already canonical
        assert(canonical_path(pq) == pq);
    } else {
        let path = pq.subrange(0, q);
        let qs = pq.subrange(q + 1, pq.len() as int);
        assert(query_of(pq) == qs);
        let sq = sorted_query(qs);
        lemma_sorted_query_fixed_point(qs);
        if sq.len() == 0 {
            assert(canonical_path(pq) == path);
            assert forall|i: int| 0 <= i < path.len() implies path[i] != QMARK by {
                assert(path[i] == pq[i]);
            }
            lemma_find_byte_at(path, QMARK, path.len() as int);
            assert(canonical_path(path) == path);
        } else {
            let canon = path + seq![QMARK] + sq;
            assert(canonical_path(pq) == canon);
            assert forall|i: int| 0 <= i < q implies canon[i] != QMARK by {
                assert(canon[i] == path[i]);
                assert(path[i] == pq[i]);
            }
            assert(canon[q as int] == QMARK);
            lemma_find_byte_at(canon, QMARK, q);
            assert(canon.subrange(0, q) =~= path);
            assert(canon.subrange(q + 1, canon.len() as int) =~= sq);
            assert(canonical_path(canon) == (if sorted_query(sq).len() == 0 {
                path
            } else {
                path + seq![QMARK] + sorted_query(sq)
            }));
            assert(sorted_query(sq) == sq);
            assert(canonical_path(canon) == canon);
        }
    }
}

/// An empty query leaves no separator behind: the canonical form of
/// `path?` is the path alone.
pub proof fn lemma_empty_query_no_separator(path: Seq<u8>)
    requires
        forall|i: int| 0 <= i < path.len() ==> path[i] != QMARK,
    ensures
        canonical_path(path.push(QMARK)) == path,
        canonical_path(path) == path,
{
    let s = path.push(QMARK);
    assert forall|i: int| 0 <= i < path.len() implies s[i] != QMARK by {
        assert(s[i] == path[i]);
    }
    assert(s[path.len() as int] == QMARK);
    lemma_find_byte_at(s, QMARK, path.len() as int);
    assert(s.subrange(path.len() as int + 1, s.len() as int) =~= Seq::<u8>::empty());
    assert(parse_pairs(Seq::<u8>::empty()) =~= Seq::<(Seq<u8>, Seq<u8>)>::empty());
    assert(sorted_query(Seq::<u8>::empty()).len() == 0);
    assert(s.subrange(0, path.len() as int) =~= path);
    lemma_find_byte_at(path, QMARK, path.len() as int);
}

} // verus!

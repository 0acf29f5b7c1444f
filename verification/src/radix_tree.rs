//! Multi-pattern regex index with shared literal-prefix factoring.
//!
//! The tree holds items that each carry a regex. It factors the literal
//! (metacharacter-free) prefixes shared across patterns, so that a lookup can
//! prune whole subtrees whose factored prefix is not a prefix of the subject,
//! and only then evaluates the full regexes of the nodes it visits.

use vstd::prelude::*;
use vstd::multiset::Multiset;
use vstd::string::StrSliceExecFns;
use vstd::string::StringSliceAdditionalSpecFns;
use crate::bytes_util::{is_prefix_of, bytes_eq, starts_with, common_prefix,
    lemma_prefix_transitive, lemma_prefix_of_prefix, lemma_common_prefix_len};
use crate::regex_support::{literal_prefix, literal_prefix_exec, pattern_matches, regex_full_match,
    regex_compile_check};

verus! {

broadcast use vstd::multiset::group_multiset_axioms, vstd::multiset::group_multiset_properties, vstd::seq_lib::group_to_multiset_ensures;

/// An indexed pattern: an identifier and the regex it carries.
pub struct RegexItem {
    pub id: Vec<u8>,
    pub regex: Vec<u8>,
}

impl Clone for RegexItem {
    fn clone(&self) -> (r: Self)
        ensures
            r.id@ == self.id@,
            r.regex@ == self.regex@,
    {
        RegexItem { id: self.id.clone(), regex: self.regex.clone() }
    }
}

/// Mathematical image of a stored item.
pub struct ItemModel {
    pub id: Seq<u8>,
    pub regex: Seq<u8>,
}

impl RegexItem {
    pub open spec fn model(self) -> ItemModel {
        ItemModel { id: self.id@, regex: self.regex@ }
    }

    /// Builds an item whose identifier is the pattern itself.
    pub fn new(regex: String) -> (r: RegexItem)
        ensures
            r.id@ == vstd::utf8::encode_utf8(regex@),
            r.regex@ == vstd::utf8::encode_utf8(regex@),
    {
        let bytes = regex.as_str().as_bytes_vec();
        let bytes2 = regex.as_str().as_bytes_vec();
        RegexItem { id: bytes, regex: bytes2 }
    }

    /// Builds an item with a separate identifier.
    pub fn with_id(id: String, regex: String) -> (r: RegexItem)
        ensures
            r.id@ == vstd::utf8::encode_utf8(id@),
            r.regex@ == vstd::utf8::encode_utf8(regex@),
    {
        RegexItem { id: id.as_str().as_bytes_vec(), regex: regex.as_str().as_bytes_vec() }
    }
}

/// Whether a stored item's pattern selects `value`.
pub open spec fn item_matches(m: ItemModel, value: Seq<u8>) -> bool {
    pattern_matches(m.regex, value)
}

/// The multiset of models of a sequence of items.
pub open spec fn items_of(items: Seq<RegexItem>) -> Multiset<ItemModel> {
    items.map_values(|it: RegexItem| it.model()).to_multiset()
}

/// The members of `ms` whose pattern selects `value`.
pub open spec fn matched_of(ms: Multiset<ItemModel>, value: Seq<u8>) -> Multiset<ItemModel> {
    ms.filter(|m: ItemModel| item_matches(m, value))
}

/// The members of `ms` whose identifier differs from `id`.
pub open spec fn without_id(ms: Multiset<ItemModel>, id: Seq<u8>) -> Multiset<ItemModel> {
    ms.filter(|m: ItemModel| m.id != id)
}

/// The members of `ms` whose identifier is `id`.
pub open spec fn with_id(ms: Multiset<ItemModel>, id: Seq<u8>) -> Multiset<ItemModel> {
    ms.filter(|m: ItemModel| m.id == id)
}

pub struct TreeNode {
    pub prefix: Vec<u8>,
    pub children: Vec<TreeNode>,
    pub items: Vec<RegexItem>,
}

impl TreeNode {
    /// Every item stored in this subtree, as a multiset of models.
    pub open spec fn subtree_items(self) -> Multiset<ItemModel>
        decreases self,
    {
        items_of(self.items@).add(Self::children_items(self.children@))
    }

    pub open spec fn children_items(cs: Seq<TreeNode>) -> Multiset<ItemModel>
        decreases cs,
    {
        if cs.len() == 0 {
            Multiset::empty()
        } else {
            cs[0].subtree_items().add(Self::children_items(cs.subrange(1, cs.len() as int)))
        }
    }

    /// Shape invariant: items sit at the node their literal prefix names, and
    /// child prefixes strictly extend their parent's.
    pub open spec fn wf(self) -> bool
        decreases self,
    {
        &&& (forall|i: int|
            0 <= i < self.items@.len() ==> literal_prefix((#[trigger] self.items@[i]).regex@)
                == self.prefix@)
        &&& (forall|i: int| 0 <= i < self.children@.len() ==> (#[trigger] self.children@[i]).wf())
        &&& (forall|i: int|
            0 <= i < self.children@.len() ==> is_prefix_of(
                self.prefix@,
                (#[trigger] self.children@[i]).prefix@,
            ) && self.prefix@.len() < self.children@[i].prefix@.len())
    }
}

proof fn lemma_items_of_empty()
    ensures
        items_of(Seq::<RegexItem>::empty()) =~= Multiset::<ItemModel>::empty(),
{
    let s = Seq::<RegexItem>::empty().map_values(|it: RegexItem| it.model());
    assert(s.len() == 0);
    assert forall|m: ItemModel| items_of(Seq::<RegexItem>::empty()).count(m) == 0 by {
        if s.to_multiset().count(m) > 0 {
            assert(s.contains(m));
        }
    }
}

proof fn lemma_items_of_push(items: Seq<RegexItem>, it: RegexItem)
    ensures
        items_of(items.push(it)) == items_of(items).insert(it.model()),
{
    let f = |x: RegexItem| x.model();
    assert(items.push(it).map_values(f) =~= items.map_values(f).push(it.model()));
}

proof fn lemma_children_items_push(cs: Seq<TreeNode>, c: TreeNode)
    ensures
        TreeNode::children_items(cs.push(c)) =~= TreeNode::children_items(cs).add(
            c.subtree_items(),
        ),
    decreases cs.len(),
{
    if cs.len() == 0 {
        assert(cs.push(c)[0] == c);
        assert(cs.push(c).subrange(1, 1) =~= Seq::<TreeNode>::empty());
        assert(TreeNode::children_items(cs.push(c).subrange(1, 1)) == Multiset::<
            ItemModel,
        >::empty());
    } else {
        let rest = cs.subrange(1, cs.len() as int);
        assert(cs.push(c).subrange(1, cs.push(c).len() as int) =~= rest.push(c));
        lemma_children_items_push(rest, c);
        assert(cs.push(c)[0] == cs[0]);
    }
}

proof fn lemma_children_items_remove(cs: Seq<TreeNode>, i: int)
    requires
        0 <= i < cs.len(),
    ensures
        TreeNode::children_items(cs) =~= TreeNode::children_items(cs.remove(i)).add(
            cs[i].subtree_items(),
        ),
    decreases cs.len(),
{
    if i == 0 {
        assert(cs.remove(0) =~= cs.subrange(1, cs.len() as int));
    } else {
        let rest = cs.subrange(1, cs.len() as int);
        lemma_children_items_remove(rest, i - 1);
        assert(cs.remove(i)[0] == cs[0]);
        assert(cs.remove(i).subrange(1, cs.remove(i).len() as int) =~= rest.remove(i - 1));
        assert(rest[i - 1] == cs[i]);
    }
}

proof fn lemma_children_items_contains(cs: Seq<TreeNode>, m: ItemModel)
    ensures
        TreeNode::children_items(cs).contains(m) <==> (exists|i: int|
            0 <= i < cs.len() && (#[trigger] cs[i]).subtree_items().contains(m)),
    decreases cs.len(),
{
    if cs.len() > 0 {
        let rest = cs.subrange(1, cs.len() as int);
        lemma_children_items_contains(rest, m);
        if TreeNode::children_items(cs).contains(m) {
            if cs[0].subtree_items().contains(m) {
            } else {
                let j = choose|j: int|
                    0 <= j < rest.len() && (#[trigger] rest[j]).subtree_items().contains(m);
                assert(cs[j + 1].subtree_items().contains(m));
            }
        }
        if exists|i: int| 0 <= i < cs.len() && (#[trigger] cs[i]).subtree_items().contains(m) {
            let i = choose|i: int|
                0 <= i < cs.len() && (#[trigger] cs[i]).subtree_items().contains(m);
            if i > 0 {
                assert(rest[i - 1] == cs[i]);
            }
        }
    }
}

/// Every item of a well-formed subtree has the node's prefix as a prefix of
/// its literal prefix.
proof fn lemma_subtree_prefix(n: TreeNode)
    requires
        n.wf(),
    ensures
        forall|m: ItemModel| #[trigger]
            n.subtree_items().contains(m) ==> is_prefix_of(n.prefix@, literal_prefix(m.regex)),
    decreases n,
{
    assert forall|m: ItemModel| #[trigger] n.subtree_items().contains(m) implies is_prefix_of(
        n.prefix@,
        literal_prefix(m.regex),
    ) by {
        if items_of(n.items@).contains(m) {
            let s = n.items@.map_values(|it: RegexItem| it.model());
            assert(s.contains(m));
            let i = choose|i: int| 0 <= i < s.len() && s[i] == m;
            assert(n.items@[i].model() == m);
            assert(literal_prefix(m.regex) == n.prefix@);
            assert(n.prefix@.subrange(0, n.prefix@.len() as int) =~= n.prefix@);
        } else {
            assert(TreeNode::children_items(n.children@).contains(m));
            lemma_children_items_contains(n.children@, m);
            let i = choose|i: int|
                0 <= i < n.children@.len() && (#[trigger] n.children@[i]).subtree_items().contains(
                    m,
                );
            lemma_subtree_prefix(n.children@[i]);
            lemma_prefix_transitive(n.prefix@, n.children@[i].prefix@, literal_prefix(m.regex));
        }
    }
}

proof fn lemma_matched_add(a: Multiset<ItemModel>, b: Multiset<ItemModel>, value: Seq<u8>)
    ensures
        matched_of(a.add(b), value) =~= matched_of(a, value).add(matched_of(b, value)),
{
}

proof fn lemma_matched_insert(a: Multiset<ItemModel>, m: ItemModel, value: Seq<u8>)
    ensures
        item_matches(m, value) ==> matched_of(a.insert(m), value) =~= matched_of(a, value).insert(
            m,
        ),
        !item_matches(m, value) ==> matched_of(a.insert(m), value) =~= matched_of(a, value),
{
}

proof fn lemma_matched_none(a: Multiset<ItemModel>, value: Seq<u8>)
    requires
        forall|m: ItemModel| #[trigger] a.contains(m) ==> !item_matches(m, value),
    ensures
        matched_of(a, value) =~= Multiset::empty(),
{
    assert forall|m: ItemModel| matched_of(a, value).count(m) == 0 by {
        if a.count(m) > 0 {
            assert(a.contains(m));
        }
    }
}

/// Collects, into `out`, every item of the subtree that matches `value`.
fn find_node(node: &TreeNode, value: &[u8], out: &mut Vec<RegexItem>)
    requires
        node.wf(),
        is_prefix_of(node.prefix@, value@),
    ensures
        items_of(final(out)@) =~= items_of(old(out)@).add(
            matched_of(node.subtree_items(), value@),
        ),
    decreases node,
{
    let ghost base = items_of(out@);
    let mut i: usize = 0;
    while i < node.items.len()
        invariant
            node.wf(),
            is_prefix_of(node.prefix@, value@),
            0 <= i <= node.items@.len(),
            items_of(out@) =~= base.add(
                matched_of(items_of(node.items@.subrange(0, i as int)), value@),
            ),
        decreases node.items@.len() - i,
    {
        let ghost pre = node.items@.subrange(0, i as int);
        let it = &node.items[i];
        proof {
            assert(node.items@.subrange(0, i as int + 1) =~= pre.push(node.items@[i as int]));
            lemma_items_of_push(pre, node.items@[i as int]);
            lemma_matched_insert(items_of(pre), node.items@[i as int].model(), value@);
            // the item sits at this node, so its literal prefix is the node's
            // prefix, which is a prefix of the value
            assert(literal_prefix(it.regex@) == node.prefix@);
        }
        if regex_full_match(it.regex.as_slice(), value) {
            let cloned = it.clone();
            proof {
                assert(cloned.model() == node.items@[i as int].model());
                lemma_items_of_push(out@, cloned);
            }
            out.push(cloned);
        }
        i += 1;
    }
    proof {
        assert(node.items@.subrange(0, node.items@.len() as int) =~= node.items@);
    }
    let ghost mid = items_of(out@);
    let mut c: usize = 0;
    while c < node.children.len()
        invariant
            node.wf(),
            is_prefix_of(node.prefix@, value@),
            0 <= c <= node.children@.len(),
            items_of(out@) =~= mid.add(
                matched_of(TreeNode::children_items(node.children@.subrange(0, c as int)), value@),
            ),
        decreases node.children@.len() - c,
    {
        let ghost prec = node.children@.subrange(0, c as int);
        let child = &node.children[c];
        proof {
            assert(node.children@.subrange(0, c as int + 1) =~= prec.push(
                node.children@[c as int],
            ));
            lemma_children_items_push(prec, node.children@[c as int]);
            lemma_matched_add(
                TreeNode::children_items(prec),
                node.children@[c as int].subtree_items(),
                value@,
            );
        }
        if starts_with(value, child.prefix.as_slice()) {
            find_node(child, value, out);
        } else {
            proof {
                lemma_subtree_prefix(*child);
                assert forall|m: ItemModel| #[trigger]
                    child.subtree_items().contains(m) implies !item_matches(m, value@) by {
                    if item_matches(m, value@) {
                        lemma_prefix_transitive(child.prefix@, literal_prefix(m.regex), value@);
                    }
                }
                lemma_matched_none(child.subtree_items(), value@);
            }
        }
        c += 1;
    }
    proof {
        assert(node.children@.subrange(0, node.children@.len() as int) =~= node.children@);
        lemma_matched_add(
            items_of(node.items@),
            TreeNode::children_items(node.children@),
            value@,
        );
    }
}

/// Inserts `item`, whose literal prefix is `lit`, into the subtree.
#[verifier::loop_isolation(false)]
fn insert_node(node: TreeNode, item: RegexItem, lit: &Vec<u8>) -> (r: TreeNode)
    requires
        node.wf(),
        lit@ == literal_prefix(item.regex@),
        is_prefix_of(node.prefix@, lit@),
    ensures
        r.wf(),
        r.prefix@ == node.prefix@,
        r.subtree_items() =~= node.subtree_items().insert(item.model()),
    decreases lit@.len() - node.prefix@.len(),
{
    let ghost orig = node;
    let mut node = node;
    if lit.len() == node.prefix.len() {
        proof {
            assert(node.prefix@ =~= lit@);
            lemma_items_of_push(node.items@, item);
        }
        node.items.push(item);
        proof {
            assert(node.subtree_items() =~= orig.subtree_items().insert(item.model()));
        }
        return node;
    }
    // the literal strictly extends this node's prefix: place the item below
    let mut i: usize = 0;
    while i < node.children.len()
        invariant
            node == orig,
            node.wf(),
            is_prefix_of(node.prefix@, lit@),
            lit@ == literal_prefix(item.regex@),
            node.prefix@.len() < lit@.len(),
            0 <= i <= node.children@.len(),
            forall|j: int|
                0 <= j < i ==> !is_prefix_of((#[trigger] node.children@[j]).prefix@, lit@),
        decreases node.children@.len() - i,
    {
        if starts_with(lit.as_slice(), node.children[i].prefix.as_slice()) {
            let child = node.children.remove(i);
            proof {
                assert(child == orig.children@[i as int]);
                assert(child.prefix@.len() > orig.prefix@.len());
                assert(child.prefix@.len() <= lit@.len());
                assert(node.prefix@ == orig.prefix@);
            }
            let child2 = insert_node(child, item, lit);
            proof {
                lemma_children_items_remove(orig.children@, i as int);
            }
            node.children.push(child2);
            proof {
                assert(node.children@ == orig.children@.remove(i as int).push(child2));
                lemma_children_items_push(orig.children@.remove(i as int), child2);
                assert forall|j: int| 0 <= j < node.children@.len() implies (#[trigger]
                    node.children@[j]).wf() && is_prefix_of(node.prefix@, node.children@[j].prefix@)
                    && node.prefix@.len() < node.children@[j].prefix@.len() by {
                    if j < node.children@.len() - 1 {
                        let k = if j < i { j } else { j + 1 };
                        assert(node.children@[j] == orig.children@[k]);
                    }
                }
                assert(node.wf());
                assert(node.subtree_items() =~= orig.subtree_items().insert(item.model()));
            }
            return node;
        }
        i += 1;
    }
    // no child's prefix covers the literal: look for a shared extension
    let mut i: usize = 0;
    while i < node.children.len()
        invariant
            node == orig,
            node.wf(),
            is_prefix_of(node.prefix@, lit@),
            lit@ == literal_prefix(item.regex@),
            node.prefix@.len() < lit@.len(),
            0 <= i <= node.children@.len(),
            forall|j: int|
                0 <= j < node.children@.len() ==> !is_prefix_of(
                    (#[trigger] node.children@[j]).prefix@,
                    lit@,
                ),
        decreases node.children@.len() - i,
    {
        let com = common_prefix(node.children[i].prefix.as_slice(), lit.as_slice());
        if com.len() > node.prefix.len() {
            let child = node.children.remove(i);
            proof {
                assert(child == orig.children@[i as int]);
                lemma_children_items_remove(orig.children@, i as int);
                lemma_common_prefix_len(child.prefix@, lit@);
                // com is a strict prefix of the child's prefix: were it the
                // whole child prefix, that prefix would cover the literal
                if com@.len() == child.prefix@.len() {
                    assert(com@ =~= child.prefix@);
                    assert(is_prefix_of(child.prefix@, lit@));
                    assert(false);
                }
            }
            let split = if com.len() == lit.len() {
                proof {
                    assert(com@ =~= lit@);
                }
                let mut cvec: Vec<TreeNode> = Vec::new();
                cvec.push(child);
                let mut ivec: Vec<RegexItem> = Vec::new();
                ivec.push(item);
                TreeNode { prefix: com, children: cvec, items: ivec }
            } else {
                let mut leaf_items: Vec<RegexItem> = Vec::new();
                leaf_items.push(item);
                let leaf = TreeNode { prefix: lit.clone(), children: Vec::new(), items: leaf_items };
                let mut cvec: Vec<TreeNode> = Vec::new();
                cvec.push(child);
                cvec.push(leaf);
                TreeNode { prefix: com, children: cvec, items: Vec::new() }
            };
            proof {
                lemma_items_of_empty();
                lemma_items_of_push(Seq::<RegexItem>::empty(), item);
                lemma_children_items_push(Seq::<TreeNode>::empty(), child);
                assert(is_prefix_of(split.prefix@, child.prefix@));
                assert(split.prefix@.len() < child.prefix@.len());
                lemma_prefix_of_prefix(node.prefix@, com@, child.prefix@);
                assert(is_prefix_of(node.prefix@, split.prefix@));
                if split.children@.len() == 2 {
                    let leaf = split.children@[1];
                    assert(Seq::<TreeNode>::empty().push(child).push(leaf) =~= split.children@);
                    lemma_children_items_push(Seq::<TreeNode>::empty().push(child), leaf);
                    assert(leaf.items@ =~= Seq::<RegexItem>::empty().push(item));
                    assert(leaf.subtree_items() =~= Multiset::<ItemModel>::empty().insert(
                        item.model(),
                    ));
                    assert forall|j: int| 0 <= j < leaf.items@.len() implies literal_prefix(
                        (#[trigger] leaf.items@[j]).regex@,
                    ) == leaf.prefix@ by {
                        assert(leaf.items@[j] == item);
                    }
                    assert(leaf.wf());
                    assert(is_prefix_of(split.prefix@, leaf.prefix@));
                    assert(split.prefix@.len() < leaf.prefix@.len());
                    assert forall|j: int| 0 <= j < split.children@.len() implies (#[trigger]
                        split.children@[j]).wf() && is_prefix_of(
                        split.prefix@,
                        split.children@[j].prefix@,
                    ) && split.prefix@.len() < split.children@[j].prefix@.len() by {
                        assert(split.children@[j] == child || split.children@[j] == leaf);
                    }
                } else {
                    assert(Seq::<TreeNode>::empty().push(child) =~= split.children@);
                    assert(split.items@ =~= Seq::<RegexItem>::empty().push(item));
                    assert(com@ == lit@);
                    assert forall|j: int| 0 <= j < split.items@.len() implies literal_prefix(
                        (#[trigger] split.items@[j]).regex@,
                    ) == split.prefix@ by {
                        assert(split.items@[j] == item);
                    }
                    assert forall|j: int| 0 <= j < split.children@.len() implies (#[trigger]
                        split.children@[j]).wf() && is_prefix_of(
                        split.prefix@,
                        split.children@[j].prefix@,
                    ) && split.prefix@.len() < split.children@[j].prefix@.len() by {
                        assert(split.children@[j] == child);
                    }
                }
                assert(split.wf());
                assert(split.subtree_items() =~= child.subtree_items().insert(item.model()));
            }
            node.children.push(split);
            proof {
                assert(node.children@ == orig.children@.remove(i as int).push(split));
                lemma_children_items_push(orig.children@.remove(i as int), split);
                assert forall|j: int| 0 <= j < node.children@.len() implies (#[trigger]
                    node.children@[j]).wf() && is_prefix_of(node.prefix@, node.children@[j].prefix@)
                    && node.prefix@.len() < node.children@[j].prefix@.len() by {
                    if j < node.children@.len() - 1 {
                        let k = if j < i { j } else { j + 1 };
                        assert(node.children@[j] == orig.children@[k]);
                    }
                }
                assert(node.wf());
                assert(node.subtree_items() =~= orig.subtree_items().insert(item.model()));
            }
            return node;
        }
        i += 1;
    }
    // nothing shared: a fresh leaf carries the item
    let mut leaf_items: Vec<RegexItem> = Vec::new();
    leaf_items.push(item);
    let leaf = TreeNode { prefix: lit.clone(), children: Vec::new(), items: leaf_items };
    node.children.push(leaf);
    proof {
        lemma_items_of_empty();
        lemma_items_of_push(Seq::<RegexItem>::empty(), item);
        assert(leaf.items@ =~= Seq::<RegexItem>::empty().push(item));
        assert(leaf.subtree_items() =~= Multiset::<ItemModel>::empty().insert(item.model()));
        lemma_children_items_push(orig.children@, leaf);
        assert(node.children@ == orig.children@.push(leaf));
        assert forall|j: int| 0 <= j < node.children@.len() implies (#[trigger]
            node.children@[j]).wf() && is_prefix_of(node.prefix@, node.children@[j].prefix@)
            && node.prefix@.len() < node.children@[j].prefix@.len() by {
            if j < node.children@.len() - 1 {
                assert(node.children@[j] == orig.children@[j]);
            }
        }
        assert(node.wf());
        assert(node.subtree_items() =~= orig.subtree_items().insert(item.model()));
    }
    node
}

/// Collects every item of the subtree.
fn collect_node(node: &TreeNode, out: &mut Vec<RegexItem>)
    ensures
        items_of(final(out)@) =~= items_of(old(out)@).add(node.subtree_items()),
    decreases node,
{
    let ghost base = items_of(out@);
    let mut i: usize = 0;
    while i < node.items.len()
        invariant
            0 <= i <= node.items@.len(),
            items_of(out@) =~= base.add(items_of(node.items@.subrange(0, i as int))),
        decreases node.items@.len() - i,
    {
        let ghost pre = node.items@.subrange(0, i as int);
        let cloned = node.items[i].clone();
        proof {
            assert(node.items@.subrange(0, i as int + 1) =~= pre.push(node.items@[i as int]));
            lemma_items_of_push(pre, node.items@[i as int]);
            assert(cloned.model() == node.items@[i as int].model());
            lemma_items_of_push(out@, cloned);
        }
        out.push(cloned);
        i += 1;
    }
    proof {
        assert(node.items@.subrange(0, node.items@.len() as int) =~= node.items@);
    }
    let ghost mid = items_of(out@);
    let mut c: usize = 0;
    while c < node.children.len()
        invariant
            0 <= c <= node.children@.len(),
            items_of(out@) =~= mid.add(
                TreeNode::children_items(node.children@.subrange(0, c as int)),
            ),
        decreases node.children@.len() - c,
    {
        let ghost prec = node.children@.subrange(0, c as int);
        proof {
            assert(node.children@.subrange(0, c as int + 1) =~= prec.push(
                node.children@[c as int],
            ));
            lemma_children_items_push(prec, node.children@[c as int]);
        }
        collect_node(&node.children[c], out);
        c += 1;
    }
    proof {
        assert(node.children@.subrange(0, node.children@.len() as int) =~= node.children@);
    }
}

/// The budget left after spending one unit per stored pattern, never below
/// zero.
pub open spec fn spend(limit: u64, count: nat) -> u64 {
    if limit >= count {
        (limit - count) as u64
    } else {
        0u64
    }
}

impl TreeNode {
    /// The budget a cache pass leaves: one compilation per item at this
    /// node, then the children in order, `level` levels deep.
    pub open spec fn budget_after(self, limit: u64, level: u64) -> u64
        decreases self, level,
    {
        let after_items = spend(limit, self.items@.len());
        if level > 0 {
            Self::children_budget_after(self.children@, after_items, (level - 1) as u64)
        } else {
            after_items
        }
    }

    pub open spec fn children_budget_after(cs: Seq<TreeNode>, limit: u64, level: u64) -> u64
        decreases cs, level,
    {
        if cs.len() == 0 {
            limit
        } else {
            Self::children_budget_after(
                cs.subrange(1, cs.len() as int),
                cs[0].budget_after(limit, level),
                level,
            )
        }
    }
}

proof fn lemma_children_budget_push(cs: Seq<TreeNode>, c: TreeNode, limit: u64, level: u64)
    ensures
        TreeNode::children_budget_after(cs.push(c), limit, level) == c.budget_after(
            TreeNode::children_budget_after(cs, limit, level),
            level,
        ),
    decreases cs.len(),
{
    if cs.len() == 0 {
        assert(cs.push(c)[0] == c);
        assert(cs.push(c).subrange(1, 1) =~= Seq::<TreeNode>::empty());
        assert(TreeNode::children_budget_after(cs, limit, level) == limit);
        assert(TreeNode::children_budget_after(cs.push(c), limit, level)
            == TreeNode::children_budget_after(
            cs.push(c).subrange(1, 1),
            c.budget_after(limit, level),
            level,
        ));
        assert(TreeNode::children_budget_after(
            Seq::<TreeNode>::empty(),
            c.budget_after(limit, level),
            level,
        ) == c.budget_after(limit, level));
    } else {
        let rest = cs.subrange(1, cs.len() as int);
        assert(cs.push(c).subrange(1, cs.push(c).len() as int) =~= rest.push(c));
        assert(cs.push(c)[0] == cs[0]);
        lemma_children_budget_push(rest, c, cs[0].budget_after(limit, level), level);
        assert(TreeNode::children_budget_after(cs, limit, level)
            == TreeNode::children_budget_after(rest, cs[0].budget_after(limit, level), level));
        assert(TreeNode::children_budget_after(cs.push(c), limit, level)
            == TreeNode::children_budget_after(
            rest.push(c),
            cs[0].budget_after(limit, level),
            level,
        ));
    }
}

pub proof fn lemma_budget_after_le(n: TreeNode, limit: u64, level: u64)
    ensures
        n.budget_after(limit, level) <= limit,
    decreases n, level,
{
    if level > 0 {
        lemma_children_budget_le(
            n.children@,
            spend(limit, n.items@.len()),
            (level - 1) as u64,
        );
    }
}

proof fn lemma_children_budget_le(cs: Seq<TreeNode>, limit: u64, level: u64)
    ensures
        TreeNode::children_budget_after(cs, limit, level) <= limit,
    decreases cs, level,
{
    if cs.len() > 0 {
        lemma_budget_after_le(cs[0], limit, level);
        lemma_children_budget_le(
            cs.subrange(1, cs.len() as int),
            cs[0].budget_after(limit, level),
            level,
        );
    }
}

/// Walks the subtree spending the compilation budget on the patterns it
/// holds, descending `level` levels deep.
#[verifier::loop_isolation(false)]
fn cache_node(node: &TreeNode, limit: u64, level: u64) -> (r: u64)
    ensures
        r == node.budget_after(limit, level),
    decreases node,
{
    let mut budget = limit;
    let mut i: usize = 0;
    while i < node.items.len()
        invariant
            0 <= i <= node.items@.len(),
            budget == spend(limit, i as nat),
        decreases node.items@.len() - i,
    {
        if budget > 0 {
            let _ = regex_compile_check(node.items[i].regex.as_slice());
            budget = budget - 1;
        }
        i += 1;
    }
    if level > 0 {
        let next_level = level - 1;
        let mut c: usize = 0;
        proof {
            assert(node.children@.subrange(0, 0) =~= Seq::<TreeNode>::empty());
        }
        while c < node.children.len()
            invariant
                0 <= c <= node.children@.len(),
                budget == TreeNode::children_budget_after(
                    node.children@.subrange(0, c as int),
                    spend(limit, node.items@.len()),
                    next_level,
                ),
            decreases node.children@.len() - c,
        {
            let ghost pre = node.children@.subrange(0, c as int);
            proof {
                assert(node.children@.subrange(0, c as int + 1) =~= pre.push(
                    node.children@[c as int],
                ));
                lemma_children_budget_push(
                    pre,
                    node.children@[c as int],
                    spend(limit, node.items@.len()),
                    next_level,
                );
            }
            budget = cache_node(&node.children[c], budget, next_level);
            c += 1;
        }
        proof {
            assert(node.children@.subrange(0, node.children@.len() as int) =~= node.children@);
        }
    }
    budget
}

/// Builds the trace node of one tree node.
fn node_trace(node: &TreeNode, value: &[u8]) -> (r: crate::trace::Trace)
    ensures
        r.collected() =~= vstd::multiset::Multiset::<crate::rule::RouteModel>::empty(),
    decreases node,
{
    let mut description = crate::trace::label_bytes("Regex tree prefix ");
    crate::canon::append_vec(&mut description, node.prefix.clone());
    let matched = starts_with(value, node.prefix.as_slice());
    let count = node.items.len() as u64;
    let mut children: Vec<crate::trace::Trace> = Vec::new();
    let mut c: usize = 0;
    proof {
        assert(children@ =~= Seq::<crate::trace::Trace>::empty());
    }
    while c < node.children.len()
        invariant
            0 <= c <= node.children@.len(),
            crate::trace::Trace::collected_children(children@) =~= vstd::multiset::Multiset::<
                crate::rule::RouteModel,
            >::empty(),
        decreases node.children@.len() - c,
    {
        let ghost pre = children@;
        let child = node_trace(&node.children[c], value);
        children.push(child);
        proof {
            crate::trace::lemma_collected_children_push(pre, child);
            assert(children@ =~= pre.push(child));
        }
        c += 1;
    }
    let empty_routes: Vec<crate::rule::Route> = Vec::new();
    let t = crate::trace::Trace::new(description, matched, true, count, children, empty_routes);
    proof {
        crate::matching::lemma_routes_of_empty();
        assert(empty_routes@ =~= Seq::<crate::rule::Route>::empty());
    }
    t
}

/// Prefix-sharing index over regular-expression patterns.
pub struct RegexRadixTree {
    root: TreeNode,
}

impl RegexRadixTree {
    /// Structural soundness of the whole index.
    pub closed spec fn wf(self) -> bool {
        self.root.wf() && self.root.prefix@ == Seq::<u8>::empty()
    }

    /// The multiset of items currently indexed.
    pub closed spec fn items(self) -> Multiset<ItemModel> {
        self.root.subtree_items()
    }

    /// The items whose pattern selects `value`.
    pub open spec fn matched(self, value: Seq<u8>) -> Multiset<ItemModel> {
        matched_of(self.items(), value)
    }

    /// An empty index.
    pub fn new() -> (t: RegexRadixTree)
        ensures
            t.wf(),
            t.items() =~= Multiset::<ItemModel>::empty(),
    {
        let t = RegexRadixTree {
            root: TreeNode { prefix: Vec::new(), children: Vec::new(), items: Vec::new() },
        };
        proof {
            lemma_items_of_empty();
            assert(t.root.items@ =~= Seq::<RegexItem>::empty());
            assert(t.root.children@ =~= Seq::<TreeNode>::empty());
        }
        t
    }

    /// Indexes one more item.
    pub fn insert(&mut self, item: RegexItem)
        requires
            old(self).wf(),
        ensures
            final(self).wf(),
            final(self).items() =~= old(self).items().insert(item.model()),
    {
        let lit = literal_prefix_exec(item.regex.as_slice());
        let mut root = TreeNode { prefix: Vec::new(), children: Vec::new(), items: Vec::new() };
        core::mem::swap(&mut root, &mut self.root);
        proof {
            assert(lit@.subrange(0, 0) =~= Seq::<u8>::empty());
            assert(is_prefix_of(root.prefix@, lit@));
        }
        self.root = insert_node(root, item, &lit);
    }

    /// Removes every item carrying `id`; true when something was removed.
    pub fn remove(&mut self, id: &str) -> (r: bool)
        requires
            old(self).wf(),
        ensures
            final(self).wf(),
            final(self).items() =~= without_id(old(self).items(), id.spec_bytes()),
            r == (with_id(old(self).items(), id.spec_bytes()).len() > 0),
    {
        self.remove_bytes(id.as_bytes())
    }

    /// Removes every item carrying `id`, given as bytes.
    pub fn remove_bytes(&mut self, id_bytes: &[u8]) -> (r: bool)
        requires
            old(self).wf(),
        ensures
            final(self).wf(),
            final(self).items() =~= without_id(old(self).items(), id_bytes@),
            r == (with_id(old(self).items(), id_bytes@).len() > 0),
    {
        let mut all: Vec<RegexItem> = Vec::new();
        collect_node(&self.root, &mut all);
        proof {
            lemma_items_of_empty();
            assert(items_of(all@) =~= old(self).items());
        }
        let mut fresh = RegexRadixTree::new();
        let mut removed = false;
        let ghost idb = id_bytes@;
        let ghost mut kept_ms = Multiset::<ItemModel>::empty();
        let ghost mut dropped_ms = Multiset::<ItemModel>::empty();
        let mut i: usize = 0;
        while i < all.len()
            invariant
                fresh.wf(),
                0 <= i <= all@.len(),
                id_bytes@ == idb,
                items_of(all@) =~= old(self).items(),
                fresh.items() =~= kept_ms,
                items_of(all@.subrange(0, i as int)) =~= kept_ms.add(dropped_ms),
                forall|m: ItemModel| #[trigger] kept_ms.contains(m) ==> m.id != idb,
                forall|m: ItemModel| #[trigger] dropped_ms.contains(m) ==> m.id == idb,
                removed == (dropped_ms.len() > 0),
            decreases all@.len() - i,
        {
            let ghost pre = all@.subrange(0, i as int);
            let it = all[i].clone();
            proof {
                assert(it.model() == all@[i as int].model());
                assert(all@.subrange(0, i as int + 1) =~= pre.push(all@[i as int]));
                lemma_items_of_push(pre, all@[i as int]);
            }
            if bytes_eq(it.id.as_slice(), id_bytes) {
                removed = true;
                proof {
                    let prev = dropped_ms;
                    dropped_ms = dropped_ms.insert(it.model());
                    assert(dropped_ms.len() > 0);
                    assert forall|m: ItemModel| #[trigger] dropped_ms.contains(m) implies m.id
                        == idb by {
                        if m != it.model() {
                            assert(prev.contains(m));
                        }
                    }
                }
            } else {
                fresh.insert(it);
                proof {
                    let prev = kept_ms;
                    kept_ms = kept_ms.insert(it.model());
                    assert forall|m: ItemModel| #[trigger] kept_ms.contains(m) implies m.id
                        != idb by {
                        if m != it.model() {
                            assert(prev.contains(m));
                        }
                    }
                }
            }
            i += 1;
        }
        proof {
            assert(all@.subrange(0, all@.len() as int) =~= all@);
            let total = old(self).items();
            assert(total =~= kept_ms.add(dropped_ms));
            assert forall|m: ItemModel| without_id(total, idb).count(m) == kept_ms.count(m) by {
                if m.id != idb {
                    if dropped_ms.count(m) > 0 {
                        assert(dropped_ms.contains(m));
                    }
                    assert(dropped_ms.count(m) == 0);
                } else {
                    if kept_ms.count(m) > 0 {
                        assert(kept_ms.contains(m));
                    }
                    assert(kept_ms.count(m) == 0);
                }
            }
            assert(without_id(total, idb) =~= kept_ms);
            assert forall|m: ItemModel| with_id(total, idb).count(m) == dropped_ms.count(m) by {
                if m.id == idb {
                    if kept_ms.count(m) > 0 {
                        assert(kept_ms.contains(m));
                    }
                    assert(kept_ms.count(m) == 0);
                } else {
                    if dropped_ms.count(m) > 0 {
                        assert(dropped_ms.contains(m));
                    }
                    assert(dropped_ms.count(m) == 0);
                }
            }
            assert(with_id(total, idb) =~= dropped_ms);
        }
        *self = fresh;
        removed
    }

    /// Returns the items whose pattern selects `value`, or None when there is
    /// none.
    pub fn find(&self, value: &str) -> (r: Option<Vec<RegexItem>>)
        requires
            self.wf(),
        ensures
            (r is None) == (self.matched(value.spec_bytes()).len() == 0),
            r is Some ==> items_of((r->Some_0)@) == self.matched(value.spec_bytes()),
    {
        self.find_bytes(value.as_bytes())
    }

    /// Returns the items whose pattern selects `value`, given as bytes.
    pub fn find_bytes(&self, vbytes: &[u8]) -> (r: Option<Vec<RegexItem>>)
        requires
            self.wf(),
        ensures
            (r is None) == (self.matched(vbytes@).len() == 0),
            r is Some ==> items_of((r->Some_0)@) == self.matched(vbytes@),
    {
        let mut out: Vec<RegexItem> = Vec::new();
        proof {
            assert(vbytes@.subrange(0, 0) =~= Seq::<u8>::empty());
            assert(is_prefix_of(self.root.prefix@, vbytes@));
            lemma_items_of_empty();
            assert(out@ =~= Seq::<RegexItem>::empty());
        }
        find_node(&self.root, vbytes, &mut out);
        if out.len() == 0 {
            proof {
                assert(out@ =~= Seq::<RegexItem>::empty());
                lemma_items_of_empty();
                assert(items_of(out@).len() == 0);
                assert(items_of(out@) =~= Multiset::<ItemModel>::empty().add(
                    matched_of(self.root.subtree_items(), vbytes@),
                ));
                assert(self.matched(vbytes@).len() == 0);
            }
            None
        } else {
            proof {
                assert(items_of(out@).len() == out@.len());
            }
            Some(out)
        }
    }

    /// The shape of the index against a subject: one node per factored
    /// prefix, marked matched when the prefix is a prefix of the subject.
    pub fn trace_shape(&self, value: &[u8]) -> (r: crate::trace::Trace)
        ensures
            r.collected() =~= vstd::multiset::Multiset::<crate::rule::RouteModel>::empty(),
    {
        node_trace(&self.root, value)
    }

    /// The budget a cache pass over this index leaves.
    pub closed spec fn budget_after(self, limit: u64, level: u64) -> u64 {
        self.root.budget_after(limit, level)
    }

    /// Spends up to `limit` regex compilations on the index, one per stored
    /// pattern down to `level` levels, and returns the budget that is left.
    /// The pass warms the regex engine only: no compiled value is kept, so
    /// the index itself does not change.
    pub fn cache(&mut self, limit: u64, level: u64) -> (r: u64)
        requires
            old(self).wf(),
        ensures
            *final(self) == *old(self),
            r == old(self).budget_after(limit, level),
            r <= limit,
    {
        proof {
            lemma_budget_after_le(self.root, limit, level);
        }
        cache_node(&self.root, limit, level)
    }
}

/// Shared-prefix pruning: when every stored pattern's literal prefix
/// extends `pre`, a subject that does not begin with `pre` matches nothing.
pub proof fn lemma_prefix_pruning(t: RegexRadixTree, pre: Seq<u8>, value: Seq<u8>)
    requires
        forall|m: ItemModel|
            #[trigger] t.items().contains(m) ==> is_prefix_of(pre, literal_prefix(m.regex)),
        !is_prefix_of(pre, value),
    ensures
        t.matched(value).len() == 0,
{
    broadcast use vstd::multiset::group_multiset_axioms;

    assert forall|m: ItemModel| #[trigger] t.items().contains(m) implies !item_matches(
        m,
        value,
    ) by {
        if item_matches(m, value) {
            lemma_prefix_transitive(pre, literal_prefix(m.regex), value);
        }
    }
    lemma_matched_none(t.items(), value);
    assert(t.matched(value) =~= Multiset::<ItemModel>::empty());
}

} // verus!

//! The balanced-tree vertex and the tree that owns it: balanced insertion
//! and deletion, bottom-up height and digest maintenance, rotation logic,
//! and proof generation.

use vstd::prelude::*;

use crate::digest;
use crate::merkle_proof::ProofNode;
use crate::Error;
use crate::HashType;
use crate::Key;
use crate::Value;

verus! {

/// One key's entry plus its subtree summary. `hash` is the content digest of
/// the whole subtree and `height` its height; both are recomputed bottom-up
/// after every structural change, so the root digest always reflects current
/// content. Children are exclusively owned: no aliasing, no cycles.
#[derive(Debug, PartialEq)]
pub struct Node {
    pub(crate) key: Key,
    pub(crate) value: Value,
    pub(crate) hash: HashType,
    pub(crate) height: u64,
    pub(crate) left: Option<Box<Node>>,
    pub(crate) right: Option<Box<Node>>,
}

/// The dictionary: owns the root node, or none when empty.
#[derive(Debug, PartialEq)]
pub struct MerkleAvlTree {
    pub(crate) root: Option<Box<Node>>,
}

pub(crate) open spec fn nat_max(a: nat, b: nat) -> nat {
    if a >= b {
        a
    } else {
        b
    }
}

/// The entries of an optional subtree, as a mathematical map.
pub(crate) open spec fn as_map_opt(node: Option<Box<Node>>) -> Map<Key, Value>
    decreases node,
{
    match node {
        None => Map::empty(),
        Some(n) => n.as_map(),
    }
}

/// The height of an optional subtree; an absent subtree has height 0.
pub(crate) open spec fn height_opt(node: Option<Box<Node>>) -> nat
    decreases node,
{
    match node {
        None => 0,
        Some(n) => n.spec_height(),
    }
}

/// The content digest of an optional subtree, recomputed structurally.
pub(crate) open spec fn digest_opt(node: Option<Box<Node>>) -> Option<HashType>
    decreases node,
{
    match node {
        None => None,
        Some(n) => Some(n.spec_digest()),
    }
}

/// Whether every node of an optional subtree keeps its heights within the
/// balance bound.
pub(crate) open spec fn avl_opt(node: Option<Box<Node>>) -> bool
    decreases node,
{
    match node {
        None => true,
        Some(n) => {
            &&& avl_opt(n.left)
            &&& avl_opt(n.right)
            &&& -1 <= height_opt(n.right) - height_opt(n.left) <= 1
        },
    }
}

/// Well-formedness of an optional subtree.
pub(crate) open spec fn wf_opt(node: Option<Box<Node>>) -> bool
    decreases node,
{
    match node {
        None => true,
        Some(n) => n.wf(),
    }
}

/// The stored height and digest at the top of an optional subtree agree
/// with the structure below; weaker than well-formedness, and all that
/// reading a summary field needs.
pub(crate) open spec fn summary_ok_opt(node: Option<Box<Node>>) -> bool {
    match node {
        None => true,
        Some(n) => n.fields_ok(),
    }
}

impl Node {
    /// The entries of this subtree, as a mathematical map.
    pub(crate) open spec fn as_map(self) -> Map<Key, Value>
        decreases self,
    {
        as_map_opt(self.left).union_prefer_right(as_map_opt(self.right)).insert(
            self.key,
            self.value,
        )
    }

    /// The true height of this subtree, independent of the stored field.
    pub(crate) open spec fn spec_height(self) -> nat
        decreases self,
    {
        1 + nat_max(height_opt(self.left), height_opt(self.right))
    }

    /// The true content digest of this subtree, independent of the stored
    /// field: key, value bytes, then each child's digest where present.
    pub(crate) open spec fn spec_digest(self) -> u64
        decreases self,
    {
        digest::combine(
            self.key,
            digest::value_bytes(self.value@),
            digest_opt(self.left),
            digest_opt(self.right),
        )
    }

    /// Search-tree order at this node: every key on the left is smaller,
    /// every key on the right larger.
    pub(crate) open spec fn bst_at(self) -> bool {
        &&& forall|k: Key| as_map_opt(self.left).dom().contains(k) ==> k < self.key
        &&& forall|k: Key| as_map_opt(self.right).dom().contains(k) ==> self.key < k
    }

    /// The stored summary fields agree with the structure below them.
    pub(crate) open spec fn fields_ok(self) -> bool {
        &&& self.height == self.spec_height()
        &&& self.hash == self.spec_digest()
    }

    /// Well-formedness: search-tree order, balance within one, and correct
    /// stored height and digest, at this node and everywhere below it.
    pub(crate) open spec fn wf(self) -> bool
        decreases self,
    {
        &&& self.bst_at()
        &&& wf_opt(self.left)
        &&& wf_opt(self.right)
        &&& self.fields_ok()
        &&& -1 <= height_opt(self.right) - height_opt(self.left) <= 1
    }
}

proof fn lemma_wf_implies_avl(node: Option<Box<Node>>)
    requires
        wf_opt(node),
    ensures
        avl_opt(node),
    decreases node,
{
    match node {
        None => {},
        Some(n) => {
            lemma_wf_implies_avl(n.left);
            lemma_wf_implies_avl(n.right);
        },
    }
}

/// A non-empty subtree holds its own key, so its map is non-empty; an absent
/// subtree's map is empty.
proof fn lemma_map_empty_iff_none(node: Option<Box<Node>>)
    ensures
        node is Some <==> as_map_opt(node).dom().contains(node.unwrap().key),
        node is None ==> as_map_opt(node) == Map::<Key, Value>::empty(),
{
    match node {
        None => {
            assert(as_map_opt(node) =~= Map::<Key, Value>::empty());
        },
        Some(n) => {
            assert(as_map_opt(node).dom().contains(n.key));
        },
    }
}

impl Node {
    /// The stored height of an optional subtree.
    pub(crate) fn height(node: &Option<Box<Node>>) -> (h: u64)
        requires
            summary_ok_opt(*node),
        ensures
            h == height_opt(*node),
    {
        match node {
            None => 0,
            Some(n) => n.height,
        }
    }

    /// The digest a node with this key and value and no children carries.
    pub(crate) fn compute_hash(key: Key, value: &Value) -> (h: HashType)
        ensures
            h == digest::leaf_digest(key, digest::value_bytes(value@)),
    {
        digest::combine_hash(key, value, None, None)
    }

    /// The stored digest of an optional subtree.
    fn child_digest(node: &Option<Box<Node>>) -> (d: Option<HashType>)
        requires
            summary_ok_opt(*node),
        ensures
            d == digest_opt(*node),
    {
        match node {
            None => None,
            Some(n) => Some(n.hash),
        }
    }

    /// A fresh node for a key seen for the first time.
    pub(crate) fn new(key: Key, value: Value) -> (n: Box<Node>)
        ensures
            n.wf(),
            n.as_map() == Map::<Key, Value>::empty().insert(key, value),
            n.spec_height() == 1,
    {
        let hash = Self::compute_hash(key, &value);
        let n = Box::new(Node { key, value, hash, height: 1, left: None, right: None });
        proof {
            assert(as_map_opt(n.left) =~= Map::<Key, Value>::empty());
            assert(as_map_opt(n.right) =~= Map::<Key, Value>::empty());
            assert(n.as_map() =~= Map::<Key, Value>::empty().insert(key, value));
        }
        n
    }

    /// Recomputes this node's height and digest from its children, which
    /// must already carry correct summaries. Called bottom-up after every
    /// structural change, before the node's own parent is touched.
    pub(crate) fn update_height_and_hash(node: &mut Box<Node>)
        requires
            summary_ok_opt(old(node).left),
            summary_ok_opt(old(node).right),
            height_opt(old(node).left) < u64::MAX,
            height_opt(old(node).right) < u64::MAX,
        ensures
            final(node).key == old(node).key,
            final(node).value == old(node).value,
            final(node).left == old(node).left,
            final(node).right == old(node).right,
            final(node).fields_ok(),
    {
        let hl = Self::height(&node.left);
        let hr = Self::height(&node.right);
        node.height = 1 + if hl >= hr {
            hl
        } else {
            hr
        };
        let dl = Self::child_digest(&node.left);
        let dr = Self::child_digest(&node.right);
        node.hash = digest::combine_hash(node.key, &node.value, dl, dr);
    }

    /// The balance factor of a node: height of the right subtree minus
    /// height of the left.
    pub(crate) fn balance_factor(node: &Option<Box<Node>>) -> (bf: i32)
        requires
            node matches Some(n) && summary_ok_opt(n.left) && summary_ok_opt(n.right) && -2
                <= height_opt(n.right) - height_opt(n.left) <= 2,
        ensures
            bf == height_opt(node.unwrap().right) - height_opt(node.unwrap().left),
    {
        let n = node.as_ref().unwrap();
        let hl = Self::height(&n.left);
        let hr = Self::height(&n.right);
        if hr >= hl {
            (hr - hl) as i32
        } else {
            -((hl - hr) as i32)
        }
    }

    /// Rotates this node leftward: its right child becomes the new subtree
    /// root. The node, now a child, has its height and digest recomputed
    /// before the new root's own, preserving the bottom-up digest invariant.
    pub(crate) fn rotate_left(node: Box<Node>) -> (res: Box<Node>)
        requires
            node.right is Some,
            wf_opt(node.left),
            wf_opt(node.right.unwrap().left),
            wf_opt(node.right.unwrap().right),
            forall|k: Key| as_map_opt(node.left).dom().contains(k) ==> k < node.key,
            forall|k: Key| as_map_opt(node.right).dom().contains(k) ==> node.key < k,
            node.right.unwrap().bst_at(),
            nat_max(height_opt(node.left), height_opt(node.right.unwrap().left)) <= u64::MAX - 2,
            height_opt(node.right.unwrap().right) < u64::MAX,
        ensures
            node.right matches Some(r) && {
                &&& res.key == r.key
                &&& res.value == r.value
                &&& res.right == r.right
                &&& res.left matches Some(l) && l.key == node.key && l.value == node.value
                    && l.left == node.left && l.right == r.left && l.fields_ok()
                &&& res.fields_ok()
                &&& as_map_opt(Some(res)) == as_map_opt(Some(node))
            },
    {
        let ghost r = node.right.unwrap();
        let mut node = node;
        let mut new_root = node.right.take().unwrap();
        node.right = new_root.left.take();
        Self::update_height_and_hash(&mut node);
        new_root.left = Some(node);
        Self::update_height_and_hash(&mut new_root);
        proof {
            let old_node = Node { right: Some(r), ..*new_root.left.unwrap() };
            lemma_rotate_map(old_node, *r, *new_root);
        }
        new_root
    }

    /// Rotates this node rightward: its left child becomes the new subtree
    /// root; the mirror image of `rotate_left`.
    pub(crate) fn rotate_right(node: Box<Node>) -> (res: Box<Node>)
        requires
            node.left is Some,
            wf_opt(node.right),
            wf_opt(node.left.unwrap().left),
            wf_opt(node.left.unwrap().right),
            forall|k: Key| as_map_opt(node.left).dom().contains(k) ==> k < node.key,
            forall|k: Key| as_map_opt(node.right).dom().contains(k) ==> node.key < k,
            node.left.unwrap().bst_at(),
            nat_max(height_opt(node.right), height_opt(node.left.unwrap().right)) <= u64::MAX - 2,
            height_opt(node.left.unwrap().left) < u64::MAX,
        ensures
            node.left matches Some(l) && {
                &&& res.key == l.key
                &&& res.value == l.value
                &&& res.left == l.left
                &&& res.right matches Some(nr) && nr.key == node.key && nr.value == node.value
                    && nr.right == node.right && nr.left == l.right && nr.fields_ok()
                &&& res.fields_ok()
                &&& as_map_opt(Some(res)) == as_map_opt(Some(node))
            },
    {
        let ghost l = node.left.unwrap();
        let mut node = node;
        let mut new_root = node.left.take().unwrap();
        node.left = new_root.right.take();
        Self::update_height_and_hash(&mut node);
        new_root.right = Some(node);
        Self::update_height_and_hash(&mut new_root);
        proof {
            let old_node = Node { left: Some(l), ..*new_root.right.unwrap() };
            lemma_rotate_map_right(old_node, *l, *new_root);
        }
        new_root
    }
}

/// A node's map contains its own key and every key of its children's maps.
proof fn lemma_map_dom(n: Node)
    ensures
        forall|k: Key|
            as_map_opt(n.left).dom().contains(k) ==> #[trigger] n.as_map().dom().contains(k),
        forall|k: Key|
            as_map_opt(n.right).dom().contains(k) ==> #[trigger] n.as_map().dom().contains(k),
        n.as_map().dom().contains(n.key),
{
    assert forall|k: Key|
        as_map_opt(n.left).dom().contains(k) || as_map_opt(n.right).dom().contains(
            k,
        ) implies #[trigger] n.as_map().dom().contains(k) by {}
}

/// A left rotation rearranges ownership but carries the same entries: the
/// maps of the subtree before and after are equal.
proof fn lemma_rotate_map(node: Node, r: Node, res: Node)
    requires
        node.right == Some(Box::new(r)),
        forall|k: Key| as_map_opt(node.left).dom().contains(k) ==> k < node.key,
        forall|k: Key| as_map_opt(node.right).dom().contains(k) ==> node.key < k,
        r.bst_at(),
        res.key == r.key,
        res.value == r.value,
        res.right == r.right,
        res.left matches Some(l) && l.key == node.key && l.value == node.value && l.left
            == node.left && l.right == r.left,
    ensures
        res.as_map() == node.as_map(),
{
    assert(as_map_opt(node.right) == r.as_map());
    assert(as_map_opt(res.left) == res.left.unwrap().as_map());
    assert(r.as_map().dom().contains(r.key));
    assert(node.key < r.key);
    assert forall|k: Key| as_map_opt(r.left).dom().contains(k) implies node.key < k && k
        < r.key by {
        assert(r.as_map().dom().contains(k));
    }
    assert forall|k: Key| as_map_opt(r.right).dom().contains(k) implies node.key < k && r.key
        < k by {
        assert(r.as_map().dom().contains(k));
    }
    assert forall|k: Key| as_map_opt(node.left).dom().contains(k) implies k < node.key && k
        < r.key by {}
    let lm = as_map_opt(node.left);
    let rlm = as_map_opt(r.left);
    let rrm = as_map_opt(r.right);
    let before = lm.union_prefer_right(rlm.union_prefer_right(rrm).insert(r.key, r.value)).insert(
        node.key,
        node.value,
    );
    let after = lm.union_prefer_right(rlm).insert(node.key, node.value).union_prefer_right(
        rrm,
    ).insert(r.key, r.value);
    assert(node.as_map() == before);
    assert(res.as_map() == after);
    assert forall|k: Key| before.dom().contains(k) implies after.dom().contains(k) && after[k]
        == before[k] by {
        if k == node.key {
            assert(!rrm.dom().contains(k));
            assert(before[k] == node.value);
            assert(after[k] == node.value);
        } else if k == r.key {
            assert(before[k] == r.value);
            assert(after[k] == r.value);
        } else if rrm.dom().contains(k) {
            assert(before[k] == rrm[k]);
            assert(after[k] == rrm[k]);
        } else if rlm.dom().contains(k) {
            assert(before[k] == rlm[k]);
            assert(after[k] == rlm[k]);
        } else {
            assert(lm.dom().contains(k));
            assert(before[k] == lm[k]);
            assert(after[k] == lm[k]);
        }
    }
    assert forall|k: Key| after.dom().contains(k) implies before.dom().contains(k) by {}
    assert(res.as_map() =~= node.as_map());
}

/// The mirror image of `lemma_rotate_map`.
proof fn lemma_rotate_map_right(node: Node, l: Node, res: Node)
    requires
        node.left == Some(Box::new(l)),
        forall|k: Key| as_map_opt(node.left).dom().contains(k) ==> k < node.key,
        forall|k: Key| as_map_opt(node.right).dom().contains(k) ==> node.key < k,
        l.bst_at(),
        res.key == l.key,
        res.value == l.value,
        res.left == l.left,
        res.right matches Some(nr) && nr.key == node.key && nr.value == node.value && nr.right
            == node.right && nr.left == l.right,
    ensures
        res.as_map() == node.as_map(),
{
    assert(as_map_opt(node.left) == l.as_map());
    assert(as_map_opt(res.right) == res.right.unwrap().as_map());
    assert(l.as_map().dom().contains(l.key));
    assert(l.key < node.key);
    assert forall|k: Key| as_map_opt(l.left).dom().contains(k) implies k < node.key && k
        < l.key by {
        assert(l.as_map().dom().contains(k));
    }
    assert forall|k: Key| as_map_opt(l.right).dom().contains(k) implies k < node.key && l.key
        < k by {
        assert(l.as_map().dom().contains(k));
    }
    assert forall|k: Key| as_map_opt(node.right).dom().contains(k) implies node.key < k && l.key
        < k by {}
    let rm = as_map_opt(node.right);
    let llm = as_map_opt(l.left);
    let lrm = as_map_opt(l.right);
    let before = llm.union_prefer_right(lrm).insert(l.key, l.value).union_prefer_right(rm).insert(
        node.key,
        node.value,
    );
    let after = llm.union_prefer_right(lrm.union_prefer_right(rm).insert(node.key, node.value))
        .insert(l.key, l.value);
    assert(node.as_map() == before);
    assert(res.as_map() == after);
    assert forall|k: Key| before.dom().contains(k) implies after.dom().contains(k) && after[k]
        == before[k] by {
        if k == node.key {
            assert(before[k] == node.value);
            assert(after[k] == node.value);
        } else if k == l.key {
            assert(!rm.dom().contains(k));
            assert(before[k] == l.value);
            assert(after[k] == l.value);
        } else if rm.dom().contains(k) {
            assert(before[k] == rm[k]);
            assert(after[k] == rm[k]);
        } else if lrm.dom().contains(k) {
            assert(before[k] == lrm[k]);
            assert(after[k] == lrm[k]);
        } else {
            assert(llm.dom().contains(k));
            assert(before[k] == llm[k]);
            assert(after[k] == llm[k]);
        }
    }
    assert forall|k: Key| after.dom().contains(k) implies before.dom().contains(k) by {}
    assert(res.as_map() =~= node.as_map());
}

impl Node {
    /// After a leftward rotation whose pieces keep the search-tree order
    /// and whose resulting heights are within one of each other, the new
    /// subtree root is well-formed.
    #[verifier::rlimit(100)]
    #[verifier::spinoff_prover]
    proof fn lemma_rotated_left_wf(nn: Node, rr: Node, res: Node)
        requires
            nn.right == Some(Box::new(rr)),
            forall|k: Key| as_map_opt(nn.left).dom().contains(k) ==> k < nn.key,
            forall|k: Key| as_map_opt(nn.right).dom().contains(k) ==> nn.key < k,
            rr.bst_at(),
            wf_opt(nn.left),
            wf_opt(rr.left),
            wf_opt(rr.right),
            res.key == rr.key,
            res.value == rr.value,
            res.right == rr.right,
            res.left matches Some(l) && l.key == nn.key && l.value == nn.value && l.left
                == nn.left && l.right == rr.left && l.fields_ok(),
            res.fields_ok(),
            -1 <= height_opt(rr.left) - height_opt(nn.left) <= 1,
            -1 <= height_opt(rr.right) - (1 + nat_max(height_opt(nn.left), height_opt(rr.left)))
                <= 1,
        ensures
            res.wf(),
            res.spec_height() == 1 + nat_max(
                1 + nat_max(height_opt(nn.left), height_opt(rr.left)),
                height_opt(rr.right),
            ),
    {
        let l = *res.left.unwrap();
        assert(as_map_opt(nn.right) == rr.as_map());
        lemma_map_dom(rr);
        assert(rr.as_map().dom().contains(rr.key));
        assert(as_map_opt(nn.right).dom().contains(rr.key));
        assert(nn.key < rr.key);
        assert forall|k: Key| as_map_opt(l.right).dom().contains(k) implies nn.key < k by {
            assert(as_map_opt(rr.left).dom().contains(k));
            assert(rr.as_map().dom().contains(k));
            assert(as_map_opt(nn.right).dom().contains(k));
        }
        assert forall|k: Key| as_map_opt(l.left).dom().contains(k) implies k < nn.key by {
            assert(as_map_opt(nn.left).dom().contains(k));
        }
        assert(l.wf());
        lemma_map_dom(l);
        assert forall|k: Key| as_map_opt(res.left).dom().contains(k) implies k < res.key by {
            if as_map_opt(l.left).dom().contains(k) {
                assert(as_map_opt(nn.left).dom().contains(k));
            } else if as_map_opt(l.right).dom().contains(k) {
                assert(as_map_opt(rr.left).dom().contains(k));
            } else {
                assert(k == l.key);
            }
        }
        assert forall|k: Key| as_map_opt(res.right).dom().contains(k) implies res.key < k by {
            assert(as_map_opt(rr.right).dom().contains(k));
        }
        assert(res.wf());
    }

    /// The mirror image of `lemma_rotated_left_wf`.
    #[verifier::rlimit(100)]
    #[verifier::spinoff_prover]
    proof fn lemma_rotated_right_wf(nn: Node, ll: Node, res: Node)
        requires
            nn.left == Some(Box::new(ll)),
            forall|k: Key| as_map_opt(nn.left).dom().contains(k) ==> k < nn.key,
            forall|k: Key| as_map_opt(nn.right).dom().contains(k) ==> nn.key < k,
            ll.bst_at(),
            wf_opt(nn.right),
            wf_opt(ll.left),
            wf_opt(ll.right),
            res.key == ll.key,
            res.value == ll.value,
            res.left == ll.left,
            res.right matches Some(r) && r.key == nn.key && r.value == nn.value && r.right
                == nn.right && r.left == ll.right && r.fields_ok(),
            res.fields_ok(),
            -1 <= height_opt(ll.right) - height_opt(nn.right) <= 1,
            -1 <= (1 + nat_max(height_opt(ll.right), height_opt(nn.right))) - height_opt(ll.left)
                <= 1,
        ensures
            res.wf(),
            res.spec_height() == 1 + nat_max(
                height_opt(ll.left),
                1 + nat_max(height_opt(ll.right), height_opt(nn.right)),
            ),
    {
        let r = *res.right.unwrap();
        assert(as_map_opt(nn.left) == ll.as_map());
        lemma_map_dom(ll);
        assert(ll.as_map().dom().contains(ll.key));
        assert(as_map_opt(nn.left).dom().contains(ll.key));
        assert(ll.key < nn.key);
        assert forall|k: Key| as_map_opt(r.left).dom().contains(k) implies k < nn.key by {
            assert(as_map_opt(ll.right).dom().contains(k));
            assert(ll.as_map().dom().contains(k));
            assert(as_map_opt(nn.left).dom().contains(k));
        }
        assert forall|k: Key| as_map_opt(r.right).dom().contains(k) implies nn.key < k by {
            assert(as_map_opt(nn.right).dom().contains(k));
        }
        assert(r.wf());
        lemma_map_dom(r);
        assert forall|k: Key| as_map_opt(res.right).dom().contains(k) implies res.key < k by {
            if as_map_opt(r.right).dom().contains(k) {
                assert(as_map_opt(nn.right).dom().contains(k));
            } else if as_map_opt(r.left).dom().contains(k) {
                assert(as_map_opt(ll.right).dom().contains(k));
            } else {
                assert(k == r.key);
            }
        }
        assert forall|k: Key| as_map_opt(res.left).dom().contains(k) implies k < res.key by {
            assert(as_map_opt(ll.left).dom().contains(k));
        }
        assert(res.wf());
    }

    /// After the inner rightward rotation of a right-left repair, the new
    /// right child keeps the search-tree order and its own subtrees are
    /// well-formed, though it may itself lean rightward by two.
    #[verifier::rlimit(100)]
    #[verifier::spinoff_prover]
    proof fn lemma_prerotated_right_child(r0: Node, rp: Node)
        requires
            r0.wf(),
            r0.left is Some,
            height_opt(r0.right) + 1 == height_opt(r0.left),
            rp.key == r0.left.unwrap().key,
            rp.value == r0.left.unwrap().value,
            rp.left == r0.left.unwrap().left,
            rp.right matches Some(nr) && nr.key == r0.key && nr.value == r0.value && nr.right
                == r0.right && nr.left == r0.left.unwrap().right && nr.fields_ok(),
            rp.fields_ok(),
        ensures
            rp.bst_at(),
            wf_opt(rp.left),
            wf_opt(rp.right),
            rp.right.unwrap().spec_height() == height_opt(r0.left),
            height_opt(rp.left) + 1 <= height_opt(r0.left),
    {
        let rl = *r0.left.unwrap();
        let nr = *rp.right.unwrap();
        assert(rl.wf());
        lemma_map_dom(rl);
        assert(as_map_opt(r0.left) == rl.as_map());
        assert(rl.as_map().dom().contains(rl.key));
        assert(as_map_opt(r0.left).dom().contains(rl.key));
        assert(rl.key < r0.key);
        assert forall|k: Key| as_map_opt(nr.left).dom().contains(k) implies k < nr.key by {
            assert(as_map_opt(rl.right).dom().contains(k));
            assert(rl.as_map().dom().contains(k));
            assert(as_map_opt(r0.left).dom().contains(k));
        }
        assert forall|k: Key| as_map_opt(nr.right).dom().contains(k) implies nr.key < k by {
            assert(as_map_opt(r0.right).dom().contains(k));
        }
        assert(height_opt(rl.right) + 1 >= height_opt(rl.left));
        assert(nr.wf());
        lemma_map_dom(nr);
        assert forall|k: Key| as_map_opt(rp.left).dom().contains(k) implies k < rp.key by {
            assert(as_map_opt(rl.left).dom().contains(k));
        }
        assert forall|k: Key| as_map_opt(rp.right).dom().contains(k) implies rp.key < k by {
            if as_map_opt(nr.left).dom().contains(k) {
                assert(as_map_opt(rl.right).dom().contains(k));
            } else if as_map_opt(nr.right).dom().contains(k) {
                assert(as_map_opt(r0.right).dom().contains(k));
            } else {
                assert(k == nr.key);
            }
        }
    }

    /// The mirror image of `lemma_prerotated_right_child`, for the inner
    /// leftward rotation of a left-right repair.
    #[verifier::rlimit(100)]
    #[verifier::spinoff_prover]
    proof fn lemma_prerotated_left_child(l0: Node, lp: Node)
        requires
            l0.wf(),
            l0.right is Some,
            height_opt(l0.left) + 1 == height_opt(l0.right),
            lp.key == l0.right.unwrap().key,
            lp.value == l0.right.unwrap().value,
            lp.right == l0.right.unwrap().right,
            lp.left matches Some(nl) && nl.key == l0.key && nl.value == l0.value && nl.left
                == l0.left && nl.right == l0.right.unwrap().left && nl.fields_ok(),
            lp.fields_ok(),
        ensures
            lp.bst_at(),
            wf_opt(lp.left),
            wf_opt(lp.right),
            lp.left.unwrap().spec_height() == height_opt(l0.right),
            height_opt(lp.right) + 1 <= height_opt(l0.right),
    {
        let lr = *l0.right.unwrap();
        let nl = *lp.left.unwrap();
        assert(lr.wf());
        lemma_map_dom(lr);
        assert(as_map_opt(l0.right) == lr.as_map());
        assert(lr.as_map().dom().contains(lr.key));
        assert(as_map_opt(l0.right).dom().contains(lr.key));
        assert(l0.key < lr.key);
        assert forall|k: Key| as_map_opt(nl.right).dom().contains(k) implies nl.key < k by {
            assert(as_map_opt(lr.left).dom().contains(k));
            assert(lr.as_map().dom().contains(k));
            assert(as_map_opt(l0.right).dom().contains(k));
        }
        assert forall|k: Key| as_map_opt(nl.left).dom().contains(k) implies k < nl.key by {
            assert(as_map_opt(l0.left).dom().contains(k));
        }
        assert(height_opt(lr.left) + 1 >= height_opt(lr.right));
        assert(nl.wf());
        lemma_map_dom(nl);
        assert forall|k: Key| as_map_opt(lp.right).dom().contains(k) implies lp.key < k by {
            assert(as_map_opt(lr.right).dom().contains(k));
        }
        assert forall|k: Key| as_map_opt(lp.left).dom().contains(k) implies k < lp.key by {
            if as_map_opt(nl.right).dom().contains(k) {
                assert(as_map_opt(lr.left).dom().contains(k));
            } else if as_map_opt(nl.left).dom().contains(k) {
                assert(as_map_opt(l0.left).dom().contains(k));
            } else {
                assert(k == nl.key);
            }
        }
    }

    /// The right-left rotation pair for a right-heavy subtree whose right
    /// child leans leftward.
    #[verifier::rlimit(100)]
    #[verifier::spinoff_prover]
    fn rebalance_right_double(n: Box<Node>) -> (res: Box<Node>)
        requires
            n.bst_at(),
            wf_opt(n.left),
            wf_opt(n.right),
            n.fields_ok(),
            height_opt(n.right) == height_opt(n.left) + 2,
            height_opt(n.right.unwrap().right) < height_opt(n.right.unwrap().left),
        ensures
            res.wf(),
            as_map_opt(Some(res)) == as_map_opt(Some(n)),
            n.spec_height() - 1 <= res.spec_height() <= n.spec_height(),
    {
        let mut n = n;
        let ghost n0 = *n;
        let ghost a = height_opt(n.left);
        let ghost r0 = *n.right.unwrap();
        proof {
            assert(r0.wf());
            assert(r0.spec_height() == a + 2);
            assert(height_opt(r0.left) == a + 1 && height_opt(r0.right) == a);
            assert(r0.left is Some) by {
                if r0.left is None {
                    assert(height_opt(r0.left) == 0);
                }
            }
            assert(n0.spec_height() == a + 3);
            assert(a + 3 <= u64::MAX);
        }
        let ghost rl0 = *r0.left.unwrap();
        proof {
            assert(rl0.wf());
            assert(rl0.spec_height() == a + 1);
        }
        let rp = Self::rotate_right(n.right.take().unwrap());
        proof {
            Self::lemma_prerotated_right_child(r0, *rp);
        }
        n.right = Some(rp);
        let ghost n1 = *n;
        let ghost rp0 = *n.right.unwrap();
        proof {
            assert(as_map_opt(n1.right) == as_map_opt(n0.right));
            assert forall|k: Key| as_map_opt(n.right).dom().contains(k) implies n.key < k by {
                assert(as_map_opt(n0.right).dom().contains(k));
            }
            assert(rp0.spec_height() == a + 2);
            assert(height_opt(rp0.left) <= a && height_opt(rp0.right) == a + 1);
        }
        let res = Self::rotate_left(n);
        proof {
            Self::lemma_rotated_left_wf(n1, rp0, *res);
            assert(res.spec_height() == a + 2);
            assert(n1.as_map() == n0.as_map());
        }
        res
    }

    /// The single leftward rotation for a right-heavy subtree whose right
    /// child does not lean leftward.
    #[verifier::rlimit(100)]
    #[verifier::spinoff_prover]
    fn rebalance_right_single(n: Box<Node>) -> (res: Box<Node>)
        requires
            n.bst_at(),
            wf_opt(n.left),
            wf_opt(n.right),
            n.fields_ok(),
            height_opt(n.right) == height_opt(n.left) + 2,
            height_opt(n.right.unwrap().left) <= height_opt(n.right.unwrap().right),
        ensures
            res.wf(),
            as_map_opt(Some(res)) == as_map_opt(Some(n)),
            n.spec_height() - 1 <= res.spec_height() <= n.spec_height(),
    {
        let ghost n0 = *n;
        let ghost a = height_opt(n.left);
        let ghost r0 = *n.right.unwrap();
        proof {
            assert(r0.wf());
            assert(r0.spec_height() == a + 2);
            assert(height_opt(r0.right) == a + 1);
            assert(a <= height_opt(r0.left) <= a + 1);
            assert(n0.spec_height() == a + 3);
            assert(a + 3 <= u64::MAX);
        }
        let res = Self::rotate_left(n);
        proof {
            Self::lemma_rotated_left_wf(n0, r0, *res);
            assert(res.spec_height() == a + 2 || res.spec_height() == a + 3);
        }
        res
    }

    /// Repairs a subtree whose right side has grown exactly two taller
    /// than its left: the right-right case takes one leftward rotation, the
    /// right-left case a rightward rotation of the right child first.
    fn rebalance_right(n: Box<Node>) -> (res: Box<Node>)
        requires
            n.bst_at(),
            wf_opt(n.left),
            wf_opt(n.right),
            n.fields_ok(),
            height_opt(n.right) == height_opt(n.left) + 2,
        ensures
            res.wf(),
            as_map_opt(Some(res)) == as_map_opt(Some(n)),
            n.spec_height() - 1 <= res.spec_height() <= n.spec_height(),
    {
        proof {
            assert(n.right is Some);
            assert(wf_opt(n.right.unwrap().left) && wf_opt(n.right.unwrap().right));
            assert(summary_ok_opt(n.right.unwrap().left));
            assert(summary_ok_opt(n.right.unwrap().right));
        }
        if Self::balance_factor(&n.right) < 0 {
            Self::rebalance_right_double(n)
        } else {
            Self::rebalance_right_single(n)
        }
    }

    /// The left-right rotation pair for a left-heavy subtree whose left
    /// child leans rightward.
    #[verifier::rlimit(100)]
    #[verifier::spinoff_prover]
    fn rebalance_left_double(n: Box<Node>) -> (res: Box<Node>)
        requires
            n.bst_at(),
            wf_opt(n.left),
            wf_opt(n.right),
            n.fields_ok(),
            height_opt(n.left) == height_opt(n.right) + 2,
            height_opt(n.left.unwrap().left) < height_opt(n.left.unwrap().right),
        ensures
            res.wf(),
            as_map_opt(Some(res)) == as_map_opt(Some(n)),
            n.spec_height() - 1 <= res.spec_height() <= n.spec_height(),
    {
        let mut n = n;
        let ghost n0 = *n;
        let ghost a = height_opt(n.right);
        let ghost l0 = *n.left.unwrap();
        proof {
            assert(l0.wf());
            assert(l0.spec_height() == a + 2);
            assert(height_opt(l0.right) == a + 1 && height_opt(l0.left) == a);
            assert(l0.right is Some) by {
                if l0.right is None {
                    assert(height_opt(l0.right) == 0);
                }
            }
            assert(n0.spec_height() == a + 3);
            assert(a + 3 <= u64::MAX);
        }
        let ghost lr0 = *l0.right.unwrap();
        proof {
            assert(lr0.wf());
            assert(lr0.spec_height() == a + 1);
        }
        let lp = Self::rotate_left(n.left.take().unwrap());
        proof {
            Self::lemma_prerotated_left_child(l0, *lp);
        }
        n.left = Some(lp);
        let ghost n1 = *n;
        let ghost lp0 = *n.left.unwrap();
        proof {
            assert(as_map_opt(n1.left) == as_map_opt(n0.left));
            assert forall|k: Key| as_map_opt(n.left).dom().contains(k) implies k < n.key by {
                assert(as_map_opt(n0.left).dom().contains(k));
            }
            assert(lp0.spec_height() == a + 2);
            assert(height_opt(lp0.right) <= a && height_opt(lp0.left) == a + 1);
        }
        let res = Self::rotate_right(n);
        proof {
            Self::lemma_rotated_right_wf(n1, lp0, *res);
            assert(res.spec_height() == a + 2);
            assert(n1.as_map() == n0.as_map());
        }
        res
    }

    /// The single rightward rotation for a left-heavy subtree whose left
    /// child does not lean rightward.
    #[verifier::rlimit(100)]
    #[verifier::spinoff_prover]
    fn rebalance_left_single(n: Box<Node>) -> (res: Box<Node>)
        requires
            n.bst_at(),
            wf_opt(n.left),
            wf_opt(n.right),
            n.fields_ok(),
            height_opt(n.left) == height_opt(n.right) + 2,
            height_opt(n.left.unwrap().right) <= height_opt(n.left.unwrap().left),
        ensures
            res.wf(),
            as_map_opt(Some(res)) == as_map_opt(Some(n)),
            n.spec_height() - 1 <= res.spec_height() <= n.spec_height(),
    {
        let ghost n0 = *n;
        let ghost a = height_opt(n.right);
        let ghost l0 = *n.left.unwrap();
        proof {
            assert(l0.wf());
            assert(l0.spec_height() == a + 2);
            assert(height_opt(l0.left) == a + 1);
            assert(a <= height_opt(l0.right) <= a + 1);
            assert(n0.spec_height() == a + 3);
            assert(a + 3 <= u64::MAX);
        }
        let res = Self::rotate_right(n);
        proof {
            Self::lemma_rotated_right_wf(n0, l0, *res);
            assert(res.spec_height() == a + 2 || res.spec_height() == a + 3);
        }
        res
    }

    /// The mirror image of `rebalance_right`, for a subtree whose left
    /// side has grown exactly two taller than its right.
    fn rebalance_left(n: Box<Node>) -> (res: Box<Node>)
        requires
            n.bst_at(),
            wf_opt(n.left),
            wf_opt(n.right),
            n.fields_ok(),
            height_opt(n.left) == height_opt(n.right) + 2,
        ensures
            res.wf(),
            as_map_opt(Some(res)) == as_map_opt(Some(n)),
            n.spec_height() - 1 <= res.spec_height() <= n.spec_height(),
    {
        proof {
            assert(n.left is Some);
            assert(wf_opt(n.left.unwrap().left) && wf_opt(n.left.unwrap().right));
            assert(summary_ok_opt(n.left.unwrap().left));
            assert(summary_ok_opt(n.left.unwrap().right));
        }
        if Self::balance_factor(&n.left) > 0 {
            Self::rebalance_left_double(n)
        } else {
            Self::rebalance_left_single(n)
        }
    }

    /// Restores the balance invariant at the root of a subtree whose
    /// children are well-formed and whose heights differ by at most two,
    /// applying at most one pair of rotations. Exactly one of the four
    /// rotation cases applies when the balance factor is outside [-1, 1].
    pub(crate) fn balance(node: Option<Box<Node>>) -> (res: Option<Box<Node>>)
        requires
            node matches Some(n) ==> {
                &&& n.bst_at()
                &&& wf_opt(n.left)
                &&& wf_opt(n.right)
                &&& n.fields_ok()
                &&& -2 <= height_opt(n.right) - height_opt(n.left) <= 2
            },
        ensures
            wf_opt(res),
            as_map_opt(res) == as_map_opt(node),
            height_opt(node) - 1 <= height_opt(res) <= height_opt(node),
            res is Some <==> node is Some,
            node matches Some(n) && -1 <= height_opt(n.right) - height_opt(n.left) <= 1 ==> res
                == node,
    {
        match node {
            None => None,
            Some(n) => {
                let hl = Self::height(&n.left);
                let hr = Self::height(&n.right);
                if hr > hl && hr - hl > 1 {
                    Some(Self::rebalance_right(n))
                } else if hl > hr && hl - hr > 1 {
                    Some(Self::rebalance_left(n))
                } else {
                    Some(n)
                }
            },
        }
    }
}

/// Whether `p` is exactly the proof that generation records for `key` on
/// this subtree: the search path with each traversed node's key, value and
/// off-path child digest, ending in the matching entry or an absence marker.
pub(crate) open spec fn is_path_proof(p: ProofNode, node: Option<Box<Node>>, key: Key) -> bool
    decreases node,
{
    match node {
        None => p == ProofNode::Empty,
        Some(n) => {
            if key == n.key {
                p == ProofNode::Leaf(n.key, n.value, digest_opt(n.left), digest_opt(n.right))
            } else if key < n.key {
                &&& p matches ProofNode::Left(k, v, dr, rest) && k == n.key && v == n.value && dr
                    == digest_opt(n.right) && is_path_proof(*rest, n.left, key)
            } else {
                &&& p matches ProofNode::Right(rest, k, v, dl) && k == n.key && v == n.value && dl
                    == digest_opt(n.left) && is_path_proof(*rest, n.right, key)
            }
        },
    }
}

/// The recorded path of a present key folds back to the subtree's own
/// digest and carries exactly that key's entry; the path of an absent key
/// carries no entry.
pub(crate) proof fn lemma_path_proof_folds(p: ProofNode, node: Option<Box<Node>>, key: Key)
    requires
        wf_opt(node),
        is_path_proof(p, node, key),
    ensures
        as_map_opt(node).dom().contains(key) ==> (node matches Some(n) && p.digest()
            == n.spec_digest() && p.leaf_entry() == Some((key, as_map_opt(node)[key]))),
        !as_map_opt(node).dom().contains(key) ==> p.leaf_entry() is None,
    decreases node,
{
    match node {
        None => {
            assert(as_map_opt(node) =~= Map::<Key, Value>::empty());
        },
        Some(n) => {
            lemma_map_dom(*n);
            if key == n.key {
                assert(n.as_map().dom().contains(key));
                assert(n.as_map()[key] == n.value);
            } else if key < n.key {
                let rest = p->Left_3;
                lemma_path_proof_folds(*rest, n.left, key);
                assert(!as_map_opt(n.right).dom().contains(key));
                if n.as_map().dom().contains(key) {
                    assert(as_map_opt(n.left).dom().contains(key));
                    assert(n.left is Some);
                    assert(n.as_map()[key] == as_map_opt(n.left)[key]);
                    assert(p.digest() == n.spec_digest());
                } else {
                    assert(!as_map_opt(n.left).dom().contains(key));
                }
            } else {
                let rest = p->Right_0;
                lemma_path_proof_folds(*rest, n.right, key);
                assert(!as_map_opt(n.left).dom().contains(key));
                if n.as_map().dom().contains(key) {
                    assert(as_map_opt(n.right).dom().contains(key));
                    assert(n.right is Some);
                    assert(n.as_map()[key] == as_map_opt(n.right)[key]);
                    assert(p.digest() == n.spec_digest());
                } else {
                    assert(!as_map_opt(n.right).dom().contains(key));
                }
            }
        },
    }
}

impl Node {
    /// Inserts or overwrites one entry in a subtree, recomputing heights
    /// and digests bottom-up and rebalancing on the way back. The subtree
    /// grows by at most one level and never shrinks.
    #[verifier::rlimit(100)]
    #[verifier::spinoff_prover]
    pub(crate) fn insert(node: Option<Box<Node>>, key: Key, value: Value) -> (res: Option<
        Box<Node>,
    >)
        requires
            wf_opt(node),
            height_opt(node) < u64::MAX,
        ensures
            wf_opt(res),
            as_map_opt(res) == as_map_opt(node).insert(key, value),
            height_opt(node) <= height_opt(res) <= height_opt(node) + 1,
            res is Some,
        decreases node,
    {
        match node {
            None => {
                let n = Self::new(key, value);
                proof {
                    assert(as_map_opt(None::<Box<Node>>) =~= Map::<Key, Value>::empty());
                    assert(as_map_opt(Some(n)) =~= as_map_opt(None::<Box<Node>>).insert(
                        key,
                        value,
                    ));
                }
                Some(n)
            },
            Some(n) => {
                let mut n = n;
                let ghost n0 = *n;
                proof {
                    assert(n0.wf());
                    assert(wf_opt(n0.left) && wf_opt(n0.right));
                }
                if key < n.key {
                    let l = n.left.take();
                    n.left = Self::insert(l, key, value);
                    proof {
                        assert(summary_ok_opt(n.left));
                        assert(summary_ok_opt(n.right));
                        assert(height_opt(n.left) <= height_opt(n0.left) + 1);
                        assert(height_opt(n.right) < u64::MAX);
                    }
                    Self::update_height_and_hash(&mut n);
                    proof {
                        assert forall|k2: Key|
                            as_map_opt(n.left).dom().contains(k2) implies k2 < n.key by {
                            if k2 != key {
                                assert(as_map_opt(n0.left).dom().contains(k2));
                            }
                        }
                    }
                    let ghost n1 = *n;
                    let res = Self::balance(Some(n));
                    proof {
                        assert(!as_map_opt(n0.right).dom().contains(key));
                        assert(n1.as_map() =~= n0.as_map().insert(key, value));
                    }
                    res
                } else if key > n.key {
                    let r = n.right.take();
                    n.right = Self::insert(r, key, value);
                    proof {
                        assert(summary_ok_opt(n.left));
                        assert(summary_ok_opt(n.right));
                        assert(height_opt(n.right) <= height_opt(n0.right) + 1);
                        assert(height_opt(n.left) < u64::MAX);
                    }
                    Self::update_height_and_hash(&mut n);
                    proof {
                        assert forall|k2: Key|
                            as_map_opt(n.right).dom().contains(k2) implies n.key < k2 by {
                            if k2 != key {
                                assert(as_map_opt(n0.right).dom().contains(k2));
                            }
                        }
                    }
                    let ghost n1 = *n;
                    let res = Self::balance(Some(n));
                    proof {
                        assert(!as_map_opt(n0.left).dom().contains(key));
                        assert(n1.as_map() =~= n0.as_map().insert(key, value));
                    }
                    res
                } else {
                    n.value = value;
                    proof {
                        assert(summary_ok_opt(n.left));
                        assert(summary_ok_opt(n.right));
                        assert(height_opt(n.left) < u64::MAX && height_opt(n.right) < u64::MAX);
                    }
                    Self::update_height_and_hash(&mut n);
                    proof {
                        assert(!as_map_opt(n0.left).dom().contains(key));
                        assert(!as_map_opt(n0.right).dom().contains(key));
                        assert(n.as_map() =~= n0.as_map().insert(key, value));
                    }
                    Some(n)
                }
            },
        }
    }

    /// Splices out the smallest key of a subtree — the in-order successor
    /// used when a two-child node is deleted — returning the rebalanced
    /// remainder and the removed entry.
    #[verifier::rlimit(100)]
    #[verifier::spinoff_prover]
    pub(crate) fn delete_min(node: Box<Node>) -> (res: (Option<Box<Node>>, Key, Value))
        requires
            node.wf(),
        ensures
            wf_opt(res.0),
            node.as_map().dom().contains(res.1),
            res.2 == node.as_map()[res.1],
            as_map_opt(res.0) == node.as_map().remove(res.1),
            forall|k: Key| node.as_map().dom().contains(k) ==> res.1 <= k,
            node.spec_height() - 1 <= height_opt(res.0) <= node.spec_height(),
        decreases *node,
    {
        let mut n = node;
        let ghost n0 = *n;
        let l = n.left.take();
        match l {
            None => {
                let r = n.right.take();
                let v = n.value.clone();
                proof {
                    assert(as_map_opt(n0.left) =~= Map::<Key, Value>::empty());
                    assert(!as_map_opt(n0.right).dom().contains(n0.key));
                    assert(n0.as_map().dom().contains(n0.key));
                    assert(n0.as_map()[n0.key] == n0.value);
                    assert(as_map_opt(r) =~= n0.as_map().remove(n0.key));
                }
                (r, n.key, v)
            },
            Some(lb) => {
                proof {
                    lemma_map_dom(n0);
                }
                let (nl, mk, mv) = Self::delete_min(lb);
                n.left = nl;
                proof {
                    assert(summary_ok_opt(n.left));
                    assert(summary_ok_opt(n.right)) by {
                        assert(n.right == n0.right);
                        if n0.right is Some {
                            assert(n0.right.unwrap().wf());
                            assert(n0.right.unwrap().fields_ok());
                        }
                    }
                    assert(height_opt(n.left) < u64::MAX && height_opt(n.right) < u64::MAX);
                }
                Self::update_height_and_hash(&mut n);
                proof {
                    assert forall|k2: Key|
                        as_map_opt(n.left).dom().contains(k2) implies k2 < n.key by {
                        assert(as_map_opt(n0.left).dom().contains(k2));
                    }
                    assert(as_map_opt(n0.left).dom().contains(mk));
                    assert(mk < n0.key);
                }
                let ghost n1 = *n;
                let res0 = Self::balance(Some(n));
                proof {
                    assert(!as_map_opt(n0.right).dom().contains(mk));
                    assert(n1.as_map() =~= n0.as_map().remove(mk));
                    assert(n0.as_map()[mk] == as_map_opt(n0.left)[mk]);
                    assert forall|k2: Key| n0.as_map().dom().contains(k2) implies mk <= k2 by {
                        if as_map_opt(n0.left).dom().contains(k2) {
                        } else if as_map_opt(n0.right).dom().contains(k2) {
                            assert(n0.key < k2);
                        } else {
                            assert(k2 == n0.key);
                        }
                    }
                }
                (res0, mk, mv)
            },
        }
    }

    /// Removes one present key from a subtree, rebalancing on the way back
    /// and returning the removed value. A node with two children is
    /// replaced by its in-order successor.
    #[verifier::rlimit(100)]
    #[verifier::spinoff_prover]
    pub(crate) fn delete(node: Option<Box<Node>>, key: Key) -> (res: (Option<Box<Node>>, Value))
        requires
            wf_opt(node),
            as_map_opt(node).dom().contains(key),
        ensures
            wf_opt(res.0),
            as_map_opt(res.0) == as_map_opt(node).remove(key),
            res.1 == as_map_opt(node)[key],
            height_opt(node) - 1 <= height_opt(res.0) <= height_opt(node),
        decreases node,
    {
        proof {
            if node is None {
                assert(as_map_opt(node) =~= Map::<Key, Value>::empty());
            }
        }
        let mut n = node.unwrap();
        let ghost n0 = *n;
        proof {
            assert(n0.wf());
            assert(wf_opt(n0.left) && wf_opt(n0.right));
            lemma_map_dom(n0);
        }
        if key < n.key {
            proof {
                assert(!as_map_opt(n0.right).dom().contains(key));
                assert(as_map_opt(n0.left).dom().contains(key));
                if n0.left is None {
                    assert(as_map_opt(n0.left) =~= Map::<Key, Value>::empty());
                }
            }
            let l = n.left.take();
            let (nl, v) = Self::delete(l, key);
            n.left = nl;
            proof {
                assert(summary_ok_opt(n.left));
                assert(summary_ok_opt(n.right));
                assert(height_opt(n.left) < u64::MAX && height_opt(n.right) < u64::MAX);
            }
            Self::update_height_and_hash(&mut n);
            proof {
                assert forall|k2: Key| as_map_opt(n.left).dom().contains(k2) implies k2 < n.key by {
                    assert(as_map_opt(n0.left).dom().contains(k2));
                }
            }
            let ghost n1 = *n;
            let res0 = Self::balance(Some(n));
            proof {
                assert(n1.as_map() =~= n0.as_map().remove(key));
                assert(n0.as_map()[key] == as_map_opt(n0.left)[key]);
            }
            (res0, v)
        } else if key > n.key {
            proof {
                assert(!as_map_opt(n0.left).dom().contains(key));
                assert(as_map_opt(n0.right).dom().contains(key));
                if n0.right is None {
                    assert(as_map_opt(n0.right) =~= Map::<Key, Value>::empty());
                }
            }
            let r = n.right.take();
            let (nr, v) = Self::delete(r, key);
            n.right = nr;
            proof {
                assert(summary_ok_opt(n.left));
                assert(summary_ok_opt(n.right));
                assert(height_opt(n.left) < u64::MAX && height_opt(n.right) < u64::MAX);
            }
            Self::update_height_and_hash(&mut n);
            proof {
                assert forall|k2: Key|
                    as_map_opt(n.right).dom().contains(k2) implies n.key < k2 by {
                    assert(as_map_opt(n0.right).dom().contains(k2));
                }
            }
            let ghost n1 = *n;
            let res0 = Self::balance(Some(n));
            proof {
                assert(n1.as_map() =~= n0.as_map().remove(key));
                assert(n0.as_map()[key] == as_map_opt(n0.right)[key]);
            }
            (res0, v)
        } else {
            let v = n.value.clone();
            proof {
                assert(!as_map_opt(n0.left).dom().contains(key));
                assert(!as_map_opt(n0.right).dom().contains(key));
                assert(n0.as_map()[key] == n0.value);
            }
            if n.left.is_none() {
                let r = n.right.take();
                proof {
                    assert(as_map_opt(n0.left) =~= Map::<Key, Value>::empty());
                    assert(as_map_opt(r) =~= n0.as_map().remove(key));
                }
                (r, v)
            } else if n.right.is_none() {
                let l = n.left.take();
                proof {
                    assert(as_map_opt(n0.right) =~= Map::<Key, Value>::empty());
                    assert(as_map_opt(l) =~= n0.as_map().remove(key));
                }
                (l, v)
            } else {
                let r = n.right.take().unwrap();
                let ghost r0 = *r;
                let (nr, mk, mv) = Self::delete_min(r);
                n.key = mk;
                n.value = mv;
                n.right = nr;
                proof {
                    assert(summary_ok_opt(n.left));
                    assert(summary_ok_opt(n.right));
                    assert(height_opt(n.left) < u64::MAX && height_opt(n.right) < u64::MAX);
                }
                Self::update_height_and_hash(&mut n);
                proof {
                    assert(r0.as_map().dom().contains(mk));
                    assert(as_map_opt(n0.right).dom().contains(mk));
                    assert(n0.key < mk);
                    assert forall|k2: Key|
                        as_map_opt(n.left).dom().contains(k2) implies k2 < n.key by {
                        assert(as_map_opt(n0.left).dom().contains(k2));
                    }
                    assert forall|k2: Key|
                        as_map_opt(n.right).dom().contains(k2) implies n.key < k2 by {
                        assert(r0.as_map().dom().contains(k2));
                        assert(mk <= k2 && k2 != mk);
                    }
                }
                let ghost n1 = *n;
                let res0 = Self::balance(Some(n));
                proof {
                    assert(n1.as_map() =~= n0.as_map().remove(key)) by {
                        assert forall|k2: Key|
                            n1.as_map().dom().contains(k2)
                                == n0.as_map().remove(key).dom().contains(k2) && (
                            n1.as_map().dom().contains(k2) ==> n1.as_map()[k2]
                                == n0.as_map().remove(key)[k2]) by {
                            if k2 == mk {
                                assert(n1.as_map()[mk] == mv);
                                assert(n0.as_map()[mk] == r0.as_map()[mk]);
                            } else if k2 == key {
                                assert(!as_map_opt(n1.left).dom().contains(k2));
                                assert(!as_map_opt(n1.right).dom().contains(k2)) by {
                                    if as_map_opt(n1.right).dom().contains(k2) {
                                        assert(r0.as_map().dom().contains(k2));
                                    }
                                }
                            } else if as_map_opt(n0.left).dom().contains(k2) {
                                assert(!as_map_opt(n0.right).dom().contains(k2));
                                assert(!r0.as_map().remove(mk).dom().contains(k2));
                            } else if r0.as_map().dom().contains(k2) {
                                assert(n0.as_map()[k2] == r0.as_map()[k2]);
                                assert(n1.as_map()[k2] == r0.as_map().remove(mk)[k2]);
                            } else {
                            }
                        }
                    }
                }
                (res0, v)
            }
        }
    }

    /// Pure recursive search: the stored value of a present key, or
    /// `NotFound` for an absent one. Never mutates.
    pub(crate) fn lookup<'a>(node: &'a Option<Box<Node>>, key: Key) -> (r: Result<
        &'a Value,
        Error,
    >)
        requires
            wf_opt(*node),
        ensures
            match r {
                Ok(v) => as_map_opt(*node).dom().contains(key) && *v == as_map_opt(*node)[key],
                Err(e) => !as_map_opt(*node).dom().contains(key) && e == Error::NotFound,
            },
        decreases *node,
    {
        match node {
            None => {
                proof {
                    assert(as_map_opt(*node) =~= Map::<Key, Value>::empty());
                }
                Err(Error::NotFound)
            },
            Some(n) => {
                proof {
                    lemma_map_dom(**n);
                }
                if key < n.key {
                    proof {
                        assert(!as_map_opt(n.right).dom().contains(key));
                    }
                    Self::lookup(&n.left, key)
                } else if key > n.key {
                    proof {
                        assert(!as_map_opt(n.left).dom().contains(key));
                    }
                    Self::lookup(&n.right, key)
                } else {
                    proof {
                        assert(n.as_map()[key] == n.value);
                    }
                    Ok(&n.value)
                }
            },
        }
    }

    /// Retraces the search path for `key`, recording at each step the
    /// traversed node's key, value and off-path child digest, and ending in
    /// the matching entry — or in an absence marker when the path runs out,
    /// rather than failing as `lookup` does.
    pub(crate) fn generate_proof(node: &Option<Box<Node>>, key: Key) -> (r: Result<
        ProofNode,
        Error,
    >)
        requires
            wf_opt(*node),
        ensures
            r matches Ok(p) && is_path_proof(p, *node, key),
        decreases *node,
    {
        match node {
            None => Ok(ProofNode::Empty),
            Some(n) => {
                proof {
                    assert((**n).wf());
                    assert(wf_opt(n.left) && wf_opt(n.right));
                    assert(summary_ok_opt(n.left)) by {
                        if n.left is Some {
                            assert(n.left.unwrap().wf());
                        }
                    }
                    assert(summary_ok_opt(n.right)) by {
                        if n.right is Some {
                            assert(n.right.unwrap().wf());
                        }
                    }
                }
                if key < n.key {
                    let rest = Self::generate_proof(&n.left, key);
                    match rest {
                        Ok(p) => Ok(
                            ProofNode::Left(
                                n.key,
                                n.value.clone(),
                                Self::child_digest(&n.right),
                                Box::new(p),
                            ),
                        ),
                        Err(e) => Err(e),
                    }
                } else if key > n.key {
                    let rest = Self::generate_proof(&n.right, key);
                    match rest {
                        Ok(p) => Ok(
                            ProofNode::Right(
                                Box::new(p),
                                n.key,
                                n.value.clone(),
                                Self::child_digest(&n.left),
                            ),
                        ),
                        Err(e) => Err(e),
                    }
                } else {
                    Ok(
                        ProofNode::Leaf(
                            n.key,
                            n.value.clone(),
                            Self::child_digest(&n.left),
                            Self::child_digest(&n.right),
                        ),
                    )
                }
            },
        }
    }
}

impl MerkleAvlTree {
    /// The tree interpreted as a mathematical map from keys to values.
    pub closed spec fn as_map(self) -> Map<Key, Value> {
        as_map_opt(self.root)
    }

    /// Well-formedness: search-tree order, the balance invariant, and
    /// correct stored heights and digests at every node.
    pub closed spec fn well_formed(self) -> bool {
        wf_opt(self.root)
    }

    /// The height of the tree; 0 when empty.
    pub closed spec fn height(self) -> nat {
        height_opt(self.root)
    }

    /// The content digest of the root, recomputed structurally from keys,
    /// values and shape alone; `None` when the tree is empty.
    pub closed spec fn root_digest(self) -> Option<HashType> {
        digest_opt(self.root)
    }

    /// Every node keeps the heights of its subtrees within one of each
    /// other.
    pub closed spec fn balanced(self) -> bool {
        avl_opt(self.root)
    }

    /// The number of nodes the tree holds.
    pub closed spec fn node_count(self) -> nat {
        count_opt(self.root)
    }

    /// An empty dictionary.
    pub fn new() -> (tree: MerkleAvlTree)
        ensures
            tree.well_formed(),
            tree@ == Map::<Key, Value>::empty(),
            tree.height() == 0,
    {
        proof {
            assert(as_map_opt(None) =~= Map::<Key, Value>::empty());
        }
        MerkleAvlTree { root: None }
    }

    /// The current root digest, or `None` when the tree is empty; constant
    /// time.
    pub fn root_hash(&self) -> (r: Option<HashType>)
        requires
            self.well_formed(),
        ensures
            r == self.root_digest(),
            r is Some <==> self@ != Map::<Key, Value>::empty(),
    {
        proof {
            lemma_map_empty_iff_none(self.root);
            if self.root is Some {
                assert(self@.dom().contains(self.root.unwrap().key));
            }
        }
        match &self.root {
            None => None,
            Some(n) => Some(n.hash),
        }
    }
}

impl View for MerkleAvlTree {
    type V = Map<Key, Value>;

    open spec fn view(&self) -> Map<Key, Value> {
        self.as_map()
    }
}

impl MerkleAvlTree {
    /// Whether `p` is exactly the proof that `generate_proof` records for
    /// `key` against the current tree.
    pub closed spec fn proof_for(self, p: ProofNode, key: Key) -> bool {
        is_path_proof(p, self.root, key)
    }

    /// Inserts `key` with `value`; an existing key has its value
    /// overwritten in place. Never fails. The tree stays well-formed and
    /// grows by at most one level. The height bound is a machine limit: no
    /// realizable tree comes near it, since each extra level at least
    /// doubles the ancestry a key can have.
    pub fn insert(&mut self, key: Key, value: Value)
        requires
            old(self).well_formed(),
            old(self).height() < u64::MAX,
        ensures
            final(self).well_formed(),
            final(self)@ == old(self)@.insert(key, value),
            old(self).height() <= final(self).height() <= old(self).height() + 1,
    {
        let root = self.root.take();
        self.root = Node::insert(root, key, value);
    }

    /// Removes `key`, rebalancing on the way back up; fails with
    /// `NotFound`, leaving the tree — and so its root digest — entirely
    /// unchanged, exactly when the key is absent.
    pub fn delete(&mut self, key: Key) -> (r: Result<(), Error>)
        requires
            old(self).well_formed(),
        ensures
            final(self).well_formed(),
            old(self)@.dom().contains(key) ==> r is Ok && final(self)@ == old(self)@.remove(key),
            !old(self)@.dom().contains(key) ==> (r matches Err(e) && e == Error::NotFound)
                && *final(self) == *old(self),
    {
        if Node::lookup(&self.root, key).is_err() {
            return Err(Error::NotFound);
        }
        let root = self.root.take();
        let (new_root, _removed) = Node::delete(root, key);
        self.root = new_root;
        Ok(())
    }

    /// The stored value of `key`, or `NotFound` exactly when it is absent;
    /// never mutates.
    pub fn lookup(&self, key: Key) -> (r: Result<&Value, Error>)
        requires
            self.well_formed(),
        ensures
            match r {
                Ok(v) => self@.dom().contains(key) && *v == self@[key],
                Err(e) => !self@.dom().contains(key) && e == Error::NotFound,
            },
    {
        Node::lookup(&self.root, key)
    }

    /// Records the search path for `key` as a standalone proof. For a
    /// present key the proof folds to the current root digest and carries
    /// that key's entry; for an absent key it ends in an absence marker
    /// carrying no entry, rather than failing as `lookup` does — such a
    /// proof never passes verification.
    pub fn generate_proof(&self, key: Key) -> (r: Result<ProofNode, Error>)
        requires
            self.well_formed(),
        ensures
            r matches Ok(p) && self.proof_for(p, key),
            r matches Ok(p) && (self@.dom().contains(key) ==> self.root_digest() == Some(
                p.digest(),
            ) && p.leaf_entry() == Some((key, self@[key]))),
            r matches Ok(p) && (!self@.dom().contains(key) ==> p.leaf_entry() is None),
    {
        let r = Node::generate_proof(&self.root, key);
        proof {
            lemma_path_proof_folds(r.unwrap(), self.root, key);
        }
        r
    }

    /// Folds a proof into a digest and compares it with a trusted root
    /// digest supplied out of band. Succeeds, returning the embedded entry,
    /// exactly when the fold matches and the proof carries an entry; any
    /// mismatch or entry-less proof is `InvalidProof`. A pure function of
    /// its arguments: the live tree is never consulted.
    pub fn verify_proof<'a>(proof_node: &'a ProofNode, root_hash: HashType) -> (r: Result<
        (&'a Key, &'a Value),
        Error,
    >)
        ensures
            r is Ok <==> (proof_node.digest() == root_hash && proof_node.leaf_entry() is Some),
            r matches Ok(kv) ==> proof_node.leaf_entry() == Some((*kv.0, *kv.1)),
            r matches Err(e) ==> e == Error::InvalidProof,
    {
        if proof_node.hash() == root_hash {
            match proof_node.key_value() {
                Some(kv) => Ok(kv),
                None => Err(Error::InvalidProof),
            }
        } else {
            Err(Error::InvalidProof)
        }
    }
}

/// Every node of a well-formed tree keeps the heights of its two subtrees
/// within one of each other — the balance invariant that `insert` and
/// `delete` promise to preserve.
pub proof fn lemma_well_formed_balanced(t: MerkleAvlTree)
    requires
        t.well_formed(),
    ensures
        t.balanced(),
{
    lemma_wf_implies_avl(t.root);
}

/// Looking a key up immediately after inserting it yields the inserted
/// value: `insert` ensures the view gains exactly this entry, and `lookup`
/// returns the view's entry.
pub proof fn lemma_lookup_after_insert(m: Map<Key, Value>, key: Key, value: Value)
    ensures
        m.insert(key, value).dom().contains(key),
        m.insert(key, value)[key] == value,
{
}

/// Looking a key up immediately after deleting it fails: `delete` ensures
/// the view loses the key, and `lookup` fails exactly on absent keys.
pub proof fn lemma_lookup_after_delete(m: Map<Key, Value>, key: Key)
    ensures
        !m.remove(key).dom().contains(key),
{
}

/// Re-inserting an existing key overwrites its value without changing the
/// key set — and a tree holds one node per key, so its node count is
/// unchanged while its digests move with the new value.
pub proof fn lemma_overwrite_keeps_keys(m: Map<Key, Value>, key: Key, value: Value)
    requires
        m.dom().contains(key),
    ensures
        m.insert(key, value).dom() == m.dom(),
        m.insert(key, value)[key] == value,
{
    assert(m.insert(key, value).dom() =~= m.dom());
}

/// One node per key: the number of nodes of an optional subtree.
pub(crate) open spec fn count_opt(node: Option<Box<Node>>) -> nat
    decreases node,
{
    match node {
        None => 0,
        Some(n) => 1 + count_opt(n.left) + count_opt(n.right),
    }
}

/// A well-formed subtree holds exactly one node per key of its map.
proof fn lemma_count_is_key_count(node: Option<Box<Node>>)
    requires
        wf_opt(node),
    ensures
        as_map_opt(node).dom().finite(),
        as_map_opt(node).dom().len() == count_opt(node),
    decreases node,
{
    match node {
        None => {
            assert(as_map_opt(node) =~= Map::<Key, Value>::empty());
        },
        Some(n) => {
            lemma_count_is_key_count(n.left);
            lemma_count_is_key_count(n.right);
            let ld = as_map_opt(n.left).dom();
            let rd = as_map_opt(n.right).dom();
            assert(ld.disjoint(rd)) by {
                assert forall|k: Key| ld.contains(k) implies !rd.contains(k) by {}
            }
            vstd::set_lib::lemma_set_disjoint_lens(ld, rd);
            assert(n.as_map().dom() =~= (ld + rd).insert(n.key));
            assert(!(ld + rd).contains(n.key));
            vstd::set::axiom_set_insert_len(ld + rd, n.key);
        },
    }
}

/// A well-formed tree holds exactly one node per key: its node count is
/// the size of its key set. Together with the unchanged key set of an
/// overwriting insert, the node count is unchanged by a re-insert.
pub proof fn lemma_node_count_is_key_count(t: MerkleAvlTree)
    requires
        t.well_formed(),
    ensures
        t@.dom().finite(),
        t@.dom().len() == t.node_count(),
{
    lemma_count_is_key_count(t.root);
}

/// A proof generated for a present key verifies against the current root
/// digest and returns that key's entry: its fold equals the root digest,
/// so `verify_proof` succeeds with exactly this entry.
pub proof fn lemma_generated_proof_verifies(t: MerkleAvlTree, p: ProofNode, key: Key)
    requires
        t.well_formed(),
        t@.dom().contains(key),
        t.proof_for(p, key),
    ensures
        t.root_digest() == Some(p.digest()),
        p.leaf_entry() == Some((key, t@[key])),
{
    lemma_path_proof_folds(p, t.root, key);
}

/// Holding a valid proof against any digest other than the true root
/// digest makes the fold mismatch, so `verify_proof` fails with
/// `InvalidProof`.
pub proof fn lemma_verify_rejects_altered_digest(
    t: MerkleAvlTree,
    p: ProofNode,
    key: Key,
    altered: HashType,
)
    requires
        t.well_formed(),
        t@.dom().contains(key),
        t.proof_for(p, key),
        Some(altered) != t.root_digest(),
    ensures
        p.digest() != altered,
{
    lemma_path_proof_folds(p, t.root, key);
}

} // verus!

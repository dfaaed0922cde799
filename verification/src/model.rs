//! The mathematical model of a Patricia tree and the meaning of its operations.
use vstd::prelude::*;
use crate::node::PatriciaError;

verus! {

/// The model of a node: its label, its value, and its children keyed by a byte.
#[verifier::ext_equal]
pub struct Tree<V> {
    pub label: Seq<u8>,
    pub value: Option<V>,
    pub children: Map<u8, Tree<V>>,
}

/// Which of the three writing operations is meant.
#[derive(PartialEq, Eq, Structural)]
pub enum Operation {
    /// Add a value under a key that holds none yet.
    Insert,
    /// Replace the value under a key that already holds one.
    Update,
    /// Insert or update, whichever applies.
    Upsert,
}

impl<V> Tree<V> {
    /// A node with no label, no value and no children.
    pub open spec fn empty() -> Tree<V> {
        Tree { label: Seq::empty(), value: None, children: Map::empty() }
    }

    /// A node with the given label and value and no children.
    pub open spec fn leaf(label: Seq<u8>, value: V) -> Tree<V> {
        Tree { label, value: Some(value), children: Map::empty() }
    }

    /// A node with neither a value nor children.
    pub open spec fn is_bare(self) -> bool {
        self.value is None && self.children.dom().is_empty()
    }
}

/// The length of the longest common prefix of `a` and `b`.
pub open spec fn common_prefix_len(a: Seq<u8>, b: Seq<u8>) -> nat
    decreases a.len(),
{
    if a.len() == 0 || b.len() == 0 || a[0] != b[0] {
        0
    } else {
        1 + common_prefix_len(a.drop_first(), b.drop_first())
    }
}

/// `n` is the length of the longest common prefix of `a` and `b`.
pub open spec fn is_common_prefix_len(a: Seq<u8>, b: Seq<u8>, n: nat) -> bool {
    &&& n <= a.len()
    &&& n <= b.len()
    &&& forall|i: int| 0 <= i < n ==> a[i] == b[i]
    &&& (n == a.len() || n == b.len() || a[n as int] != b[n as int])
}

/// `common_prefix_len` is the only length that `is_common_prefix_len` admits.
pub proof fn lemma_common_prefix_len(a: Seq<u8>, b: Seq<u8>)
    ensures
        is_common_prefix_len(a, b, common_prefix_len(a, b)),
        forall|n: nat| is_common_prefix_len(a, b, n) ==> n == common_prefix_len(a, b),
    decreases a.len(),
{
    if a.len() == 0 || b.len() == 0 || a[0] != b[0] {
        assert forall|n: nat| is_common_prefix_len(a, b, n) implies n == 0 by {
            if n > 0 {
                assert(a[0] == b[0]);
            }
        }
    } else {
        let a1 = a.drop_first();
        let b1 = b.drop_first();
        lemma_common_prefix_len(a1, b1);
        let m = common_prefix_len(a1, b1);
        assert forall|i: int| 0 <= i < m + 1 implies a[i] == b[i] by {
            if i > 0 {
                assert(a1[i - 1] == b1[i - 1]);
            }
        }
        assert forall|n: nat| is_common_prefix_len(a, b, n) implies n == common_prefix_len(a, b) by {
            assert(n > 0);
            assert forall|i: int| 0 <= i < n - 1 implies a1[i] == b1[i] by {
                assert(a[i + 1] == b[i + 1]);
            }
            assert(is_common_prefix_len(a1, b1, (n - 1) as nat));
        }
    }
}

/// A label is a prefix of a key exactly when their common prefix is the
/// whole label.
pub proof fn lemma_label_prefix(label: Seq<u8>, key: Seq<u8>)
    ensures
        label.is_prefix_of(key) <==> common_prefix_len(label, key) == label.len(),
        common_prefix_len(label, key) <= label.len(),
        common_prefix_len(label, key) <= key.len(),
{
    lemma_common_prefix_len(label, key);
    if label.is_prefix_of(key) {
        assert forall|i: int| 0 <= i < label.len() implies label[i] == key[i] by {
            assert(label[i] == key.subrange(0, label.len() as int)[i]);
        }
        assert(is_common_prefix_len(label, key, label.len()));
    }
    if common_prefix_len(label, key) == label.len() {
        assert(label =~= key.subrange(0, label.len() as int));
    }
}

/// A tree as the public operations keep it: well formed, and its root either
/// holds nothing at all or holds a value or has at least two children.
pub open spec fn valid_tree<V>(t: Tree<V>) -> bool {
    well_formed(t) && (t.is_bare() || is_compact(t))
}

/// After a write, the key holds a clone of `value` and every other key holds
/// what it held before.
pub open spec fn written<V: Clone>(before: Tree<V>, after: Tree<V>, key: Seq<u8>, value: V) -> bool {
    &&& get_exact(after, key) is Some
    &&& cloned(value, get_exact(after, key).unwrap())
    &&& forall|k: Seq<u8>| k != key ==> #[trigger] get_exact(after, k) == get_exact(before, k)
}

/// After a removal, the key holds nothing and every other key holds what it
/// held before.
pub open spec fn removed<V>(before: Tree<V>, after: Tree<V>, key: Seq<u8>) -> bool {
    &&& get_exact(after, key) is None
    &&& forall|k: Seq<u8>| k != key ==> #[trigger] get_exact(after, k) == get_exact(before, k)
}

/// In a finite map with a single key, that key is the one `choose` picks.
pub proof fn lemma_only_key<V>(m: Map<u8, Tree<V>>, k: u8)
    requires
        m.dom().finite(),
        m.len() == 1,
        m.contains_key(k),
    ensures
        m.dom().choose() == k,
{
    Set::lemma_is_singleton(m.dom());
    assert(m.dom().contains(m.dom().choose()));
}

/// `s` with its first `n` elements dropped.
pub open spec fn suffix_from(s: Seq<u8>, n: nat) -> Seq<u8> {
    s.subrange(n as int, s.len() as int)
}

/// The value stored under exactly `key`: the labels along a path from `t`
/// spell out `key`, and the node at its end holds the value.
pub open spec fn get_exact<V>(t: Tree<V>, key: Seq<u8>) -> Option<V>
    decreases t,
{
    if t.label.is_prefix_of(key) {
        let rest = suffix_from(key, t.label.len());
        if rest.len() == 0 {
            t.value
        } else if t.children.contains_key(rest[0]) {
            get_exact(t.children[rest[0]], rest)
        } else {
            None
        }
    } else {
        None
    }
}

/// The tree and the answer that `insert`, `update` or `upsert` (as `op` says)
/// leaves when it writes `v` under `key` into a node with model `t`. A node that
/// holds nothing becomes a leaf for the key. Otherwise the node's label is
/// matched against the key: when it is matched whole, the rest of the key is
/// written at the node itself (`insert` refused when a value is there,
/// `update` refused when none is) or in the child named by the rest's first
/// byte, or a new leaf child is added (`update` refused). When the key leaves
/// the label before the label ends, the label is split at that point (`update`
/// refused).
pub open spec fn insert_tree<V>(t: Tree<V>, key: Seq<u8>, v: V, op: Operation) -> (Tree<V>, Result<(), PatriciaError>)
    decreases t,
{
    let c = common_prefix_len(t.label, key);
    let rest = suffix_from(key, c);
    if t.is_bare() {
        if op == Operation::Update {
            (t, Err(PatriciaError::NodeNotFound))
        } else {
            (Tree::leaf(key, v), Ok(()))
        }
    } else if c >= t.label.len() {
        if rest.len() == 0 {
            if op == Operation::Insert && t.value is Some {
                (t, Err(PatriciaError::AlreadyExists))
            } else if op == Operation::Update && t.value is None {
                (t, Err(PatriciaError::NodeNotFound))
            } else {
                (Tree { value: Some(v), ..t }, Ok(()))
            }
        } else if t.children.contains_key(rest[0]) {
            let (child, r) = insert_tree(t.children[rest[0]], rest, v, op);
            (Tree { children: t.children.insert(rest[0], child), ..t }, r)
        } else if op != Operation::Update {
            (Tree { children: t.children.insert(rest[0], Tree::leaf(rest, v)), ..t }, Ok(()))
        } else {
            (t, Err(PatriciaError::NodeNotFound))
        }
    } else if op != Operation::Update {
        let lower = Tree { label: suffix_from(t.label, c), ..t };
        let upper = Tree {
            label: key.take(c as int),
            value: Some(v),
            children: Map::empty().insert(t.label[c as int], lower),
        };
        if rest.len() > 0 {
            (Tree { value: None, children: upper.children.insert(rest[0], Tree::leaf(rest, v)), ..upper }, Ok(()))
        } else {
            (upper, Ok(()))
        }
    } else {
        (t, Err(PatriciaError::NodeNotFound))
    }
}

/// A node with no value and exactly one child takes that child's place: the
/// labels are joined and the child's value and children are taken over.
pub open spec fn merge_single_child<V>(t: Tree<V>) -> Tree<V> {
    if t.value is None && t.children.len() == 1 {
        let k = t.children.dom().choose();
        let child = t.children[k];
        Tree { label: t.label + child.label, value: child.value, children: child.children }
    } else {
        t
    }
}

/// The tree and the answer that `remove` leaves when it removes `key` from a
/// node with model `t`: the node's label must be matched whole; then the value
/// is taken from the node itself when the key ends there, or the rest of the
/// key is removed from the child named by its first byte, which is dropped
/// when it holds nothing any more; a node left with no value and one child
/// takes that child's place. A key that leads to no value is refused.
pub open spec fn remove_tree<V>(t: Tree<V>, key: Seq<u8>) -> (Tree<V>, Result<(), PatriciaError>)
    decreases t,
{
    let c = common_prefix_len(t.label, key);
    let rest = suffix_from(key, c);
    if c < t.label.len() {
        (t, Err(PatriciaError::NodeNotFound))
    } else if rest.len() == 0 {
        if t.value is None {
            (t, Err(PatriciaError::NodeNotFound))
        } else {
            (merge_single_child(Tree { value: None, ..t }), Ok(()))
        }
    } else if t.children.contains_key(rest[0]) {
        let k = rest[0];
        let (child, r) = remove_tree(t.children[k], rest);
        if r is Err {
            (t, r)
        } else if child.is_bare() {
            (merge_single_child(Tree { children: t.children.remove(k), ..t }), Ok(()))
        } else {
            (merge_single_child(Tree { children: t.children.insert(k, child), ..t }), Ok(()))
        }
    } else {
        (t, Err(PatriciaError::NodeNotFound))
    }
}

/// A node below the root holds a value or has at least two children.
pub open spec fn is_compact<V>(t: Tree<V>) -> bool {
    t.value is Some || t.children.len() >= 2
}

/// Every child is named by the first byte of its non-empty label and holds a
/// value or has at least two children, and the same holds all the way down.
pub open spec fn well_formed<V>(t: Tree<V>) -> bool
    decreases t,
{
    &&& t.children.dom().finite()
    &&& forall|k: u8| #[trigger] t.children.contains_key(k) ==> {
        let child = t.children[k];
        &&& child.label.len() > 0
        &&& child.label[0] == k
        &&& is_compact(child)
        &&& well_formed(child)
    }
}

/// `b` is a clone of `a`: the same labels and keys all the way down, and each
/// value a clone of the value in the same place.
pub open spec fn tree_cloned<V: Clone>(a: Tree<V>, b: Tree<V>) -> bool
    decreases a,
{
    &&& b.label == a.label
    &&& (a.value is None <==> b.value is None)
    &&& (a.value is Some ==> cloned(a.value.unwrap(), b.value.unwrap()))
    &&& b.children.dom() == a.children.dom()
    &&& forall|k: u8| #[trigger] a.children.contains_key(k) ==> tree_cloned(a.children[k], b.children[k])
}

} // verus!

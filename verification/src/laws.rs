//! What holds of the model's operations on every tree that the public
//! operations keep: the laws of the tree as a map from keys to values.
use vstd::prelude::*;
use crate::model::{
    Tree, Operation, common_prefix_len, lemma_common_prefix_len,
    lemma_label_prefix, suffix_from, insert_tree, remove_tree, merge_single_child, get_exact,
    well_formed, is_compact, valid_tree, lemma_only_key, written, removed,
};
use crate::node::PatriciaError;

verus! {

/// Cutting the same first `j` bytes off a label and off a key does not change
/// what the key finds.
proof fn lemma_get_exact_shift<V>(t: Tree<V>, j: nat, key: Seq<u8>)
    requires
        j <= t.label.len(),
        j <= key.len(),
        t.label.take(j as int) == key.take(j as int),
    ensures
        get_exact(Tree { label: suffix_from(t.label, j), ..t }, suffix_from(key, j)) == get_exact(t, key),
{
    let s = Tree { label: suffix_from(t.label, j), ..t };
    let k = suffix_from(key, j);
    if t.label.is_prefix_of(key) {
        assert forall|i: int| 0 <= i < s.label.len() implies s.label[i] == k[i] by {
            assert(t.label[i + j] == key.subrange(0, t.label.len() as int)[i + j]);
        }
        assert(s.label =~= k.subrange(0, s.label.len() as int));
        assert(suffix_from(k, s.label.len()) =~= suffix_from(key, t.label.len()));
    } else if s.label.is_prefix_of(k) {
        assert(s.label.len() == t.label.len() - j);
        assert(k.len() == key.len() - j);
        assert forall|i: int| 0 <= i < t.label.len() implies t.label[i] == key[i] by {
            if i < j {
                assert(t.label.take(j as int)[i] == key.take(j as int)[i]);
                assert(t.label.take(j as int)[i] == t.label[i]);
                assert(key.take(j as int)[i] == key[i]);
            } else {
                assert(s.label[i - j] == k.subrange(0, s.label.len() as int)[i - j]);
                assert(s.label[i - j] == t.label[i]);
                assert(k[i - j] == key[i]);
            }
        }
        assert(t.label =~= key.subrange(0, t.label.len() as int));
    }
}

/// A label in front of a node's own label: the key must start with it, and the
/// rest of the key is looked up at the node.
proof fn lemma_get_exact_concat<V>(front: Seq<u8>, t: Tree<V>, key: Seq<u8>)
    ensures
        get_exact(Tree { label: front + t.label, ..t }, key) == if front.is_prefix_of(key) {
            get_exact(t, suffix_from(key, front.len()))
        } else {
            None
        },
{
    let joined = Tree { label: front + t.label, ..t };
    if front.is_prefix_of(key) {
        assert(joined.label.take(front.len() as int) =~= key.take(front.len() as int));
        lemma_get_exact_shift(joined, front.len(), key);
        assert(suffix_from(joined.label, front.len()) =~= t.label);
        assert(Tree { label: suffix_from(joined.label, front.len()), ..joined } =~= t);
    } else {
        if joined.label.is_prefix_of(key) {
            assert(front =~= key.subrange(0, front.len() as int)) by {
                assert forall|i: int| 0 <= i < front.len() implies front[i] == key[i] by {
                    assert(joined.label[i] == key.subrange(0, joined.label.len() as int)[i]);
                }
            }
        }
    }
}

/// A node with neither a value nor children finds nothing.
proof fn lemma_get_exact_bare<V>(t: Tree<V>, key: Seq<u8>)
    requires
        t.is_bare(),
    ensures
        get_exact(t, key) is None,
{
    if t.label.is_prefix_of(key) {
        let rest = suffix_from(key, t.label.len());
        if rest.len() > 0 {
            assert(!t.children.dom().contains(rest[0]));
        }
    }
}

/// A prefix agrees with the sequence at each of its positions.
proof fn lemma_prefix_index(front: Seq<u8>, s: Seq<u8>, i: int)
    requires
        front.is_prefix_of(s),
        0 <= i < front.len(),
    ensures
        s[i] == front[i],
{
    assert(front[i] == s.subrange(0, front.len() as int)[i]);
}

/// The first `n` bytes of a prefix are a prefix too.
proof fn lemma_prefix_take(front: Seq<u8>, s: Seq<u8>, n: int)
    requires
        front.is_prefix_of(s),
        0 <= n <= front.len(),
    ensures
        front.take(n).is_prefix_of(s),
{
    assert forall|i: int| 0 <= i < n implies front.take(n)[i] == s[i] by {
        lemma_prefix_index(front, s, i);
    }
    assert(front.take(n) =~= s.subrange(0, n));
}

/// Two keys that share a prefix and agree after it are the same key.
proof fn lemma_same_after_prefix(front: Seq<u8>, a: Seq<u8>, b: Seq<u8>)
    requires
        front.is_prefix_of(a),
        front.is_prefix_of(b),
        suffix_from(a, front.len()) == suffix_from(b, front.len()),
    ensures
        a == b,
{
    assert(suffix_from(a, front.len()).len() == a.len() - front.len());
    assert(suffix_from(b, front.len()).len() == b.len() - front.len());
    assert(a.len() == b.len());
    assert forall|i: int| 0 <= i < a.len() implies a[i] == b[i] by {
        if i < front.len() {
            lemma_prefix_index(front, a, i);
            lemma_prefix_index(front, b, i);
        } else {
            assert(suffix_from(a, front.len())[i - front.len()] == a[i]);
            assert(suffix_from(b, front.len())[i - front.len()] == b[i]);
        }
    }
    assert(a =~= b);
}

/// A leaf finds its value under its own label and nothing under any other key.
proof fn lemma_get_exact_leaf<V>(label: Seq<u8>, v: V)
    ensures
        get_exact(Tree::leaf(label, v), label) == Some(v),
        forall|k: Seq<u8>| k != label ==> #[trigger] get_exact(Tree::leaf(label, v), k) is None,
        well_formed(Tree::<V>::leaf(label, v)),
{
    let leaf = Tree::leaf(label, v);
    assert(label.is_prefix_of(label)) by {
        assert(label =~= label.subrange(0, label.len() as int));
    }
    assert(suffix_from(label, label.len()).len() == 0);
    assert forall|k: Seq<u8>| k != label implies #[trigger] get_exact(leaf, k) is None by {
        if label.is_prefix_of(k) && suffix_from(k, label.len()).len() == 0 {
            assert(k =~= label);
        }
    }
    assert(leaf.children.dom() =~= Set::<u8>::empty());
}

/// Writing (`insert`, `update` or `upsert`) into a valid tree keeps it valid
/// and acts as a write to a map from keys to values: `insert` is refused with
/// `AlreadyExists` exactly when the key holds a value, `update` is refused with
/// `NodeNotFound` exactly when it holds none, `upsert` is never refused; a
/// refused write changes nothing; an accepted one leaves `v` under the key and
/// every other key as it was. Below the root it also keeps the first byte of
/// the label and the node's holding a value or two children.
pub proof fn law_write<V>(t: Tree<V>, key: Seq<u8>, v: V, op: Operation)
    requires
        valid_tree(t),
    ensures
        ({
            let (t2, r) = insert_tree(t, key, v, op);
            &&& valid_tree(t2)
            &&& r is Err ==> t2 == t
            &&& r is Ok ==> get_exact(t2, key) == Some(v)
            &&& r is Ok ==> forall|k2: Seq<u8>| k2 != key ==> #[trigger] get_exact(t2, k2) == get_exact(t, k2)
            &&& op == Operation::Insert ==> (r is Err <==> get_exact(t, key) is Some)
            &&& op == Operation::Insert && r is Err ==> r == Err::<(), PatriciaError>(PatriciaError::AlreadyExists)
            &&& op == Operation::Update ==> (r is Err <==> get_exact(t, key) is None)
            &&& op == Operation::Update && r is Err ==> r == Err::<(), PatriciaError>(PatriciaError::NodeNotFound)
            &&& op == Operation::Upsert ==> r is Ok
            &&& !t.is_bare() && common_prefix_len(t.label, key) > 0 ==> t2.label.len() > 0 && t2.label[0] == t.label[0]
            &&& is_compact(t) ==> is_compact(t2)
        }),
    decreases t,
{
    lemma_common_prefix_len(t.label, key);
    lemma_label_prefix(t.label, key);
    let c = common_prefix_len(t.label, key);
    let rest = suffix_from(key, c);
    let (t2, r) = insert_tree(t, key, v, op);
    if t.is_bare() {
        lemma_get_exact_bare(t, key);
        if op != Operation::Update {
            lemma_get_exact_leaf(key, v);
            assert forall|k2: Seq<u8>| k2 != key implies #[trigger] get_exact(t2, k2) == get_exact(t, k2) by {
                lemma_get_exact_bare(t, k2);
            }
        }
    } else if c >= t.label.len() {
        assert(t.label.is_prefix_of(key));
        if rest.len() == 0 {
            assert(get_exact(t, key) == t.value);
            if r is Ok {
                assert forall|k2: Seq<u8>| k2 != key implies #[trigger] get_exact(t2, k2) == get_exact(t, k2) by {
                    if t.label.is_prefix_of(k2) && suffix_from(k2, t.label.len()).len() == 0 {
                        assert(suffix_from(k2, t.label.len()) =~= suffix_from(key, t.label.len()));
                        lemma_same_after_prefix(t.label, k2, key);
                    }
                }
                assert(t2.children == t.children);
                assert forall|k: u8| #[trigger] t2.children.contains_key(k) implies {
                    let child = t2.children[k];
                    &&& child.label.len() > 0
                    &&& child.label[0] == k
                    &&& is_compact(child)
                    &&& well_formed(child)
                } by {}
            }
        } else if t.children.contains_key(rest[0]) {
            let ch = t.children[rest[0]];
            lemma_common_prefix_len(ch.label, rest);
            law_write(ch, rest, v, op);
            let (ch2, rr) = insert_tree(ch, rest, v, op);
            assert(get_exact(t, key) == get_exact(ch, rest));
            assert(t2.children == t.children.insert(rest[0], ch2));
            assert(t2.children.dom() =~= t.children.dom());
            if rr is Err {
                assert(t2.children =~= t.children);
                assert(t2 =~= t);
            } else {
                assert forall|k2: Seq<u8>| k2 != key implies #[trigger] get_exact(t2, k2) == get_exact(t, k2) by {
                    if t.label.is_prefix_of(k2) {
                        let r2 = suffix_from(k2, t.label.len());
                        if r2.len() > 0 && r2[0] == rest[0] {
                            if r2 == rest {
                                lemma_same_after_prefix(t.label, k2, key);
                            }
                            assert(get_exact(ch2, r2) == get_exact(ch, r2));
                        }
                    }
                }
            }
            assert forall|k: u8| #[trigger] t2.children.contains_key(k) implies {
                let child = t2.children[k];
                &&& child.label.len() > 0
                &&& child.label[0] == k
                &&& is_compact(child)
                &&& well_formed(child)
            } by {}
        } else {
            assert(get_exact(t, key) is None);
            if op != Operation::Update {
                let leaf = Tree::leaf(rest, v);
                lemma_get_exact_leaf(rest, v);
                assert(t2.children[rest[0]] == leaf);
                assert(get_exact(t2, key) == get_exact(leaf, rest));
                assert forall|k2: Seq<u8>| k2 != key implies #[trigger] get_exact(t2, k2) == get_exact(t, k2) by {
                    if t.label.is_prefix_of(k2) {
                        let r2 = suffix_from(k2, t.label.len());
                        if r2.len() > 0 && r2[0] == rest[0] {
                            if r2 == rest {
                                lemma_same_after_prefix(t.label, k2, key);
                            }
                            assert(get_exact(leaf, r2) is None);
                        }
                    }
                }
                assert forall|k: u8| #[trigger] t2.children.contains_key(k) implies {
                    let child = t2.children[k];
                    &&& child.label.len() > 0
                    &&& child.label[0] == k
                    &&& is_compact(child)
                    &&& well_formed(child)
                } by {}
                assert(t2.children.dom() =~= t.children.dom().insert(rest[0]));
            }
        }
    } else {
        assert(!t.label.is_prefix_of(key));
        assert(get_exact(t, key) is None);
        if op != Operation::Update {
            let lower = Tree { label: suffix_from(t.label, c), ..t };
            let head = t.label[c as int];
            assert(lower.label.len() > 0 && lower.label[0] == head);
            assert(well_formed(lower));
            assert(t.label.take(c as int) =~= key.take(c as int));
            assert(t2.label.is_prefix_of(key)) by {
                assert(t2.label =~= key.subrange(0, c as int));
            }
            let leaf = Tree::leaf(rest, v);
            lemma_get_exact_leaf(rest, v);
            assert forall|k2: Seq<u8>| k2 != key implies #[trigger] get_exact(t2, k2) == get_exact(t, k2) by {
                if t2.label.is_prefix_of(k2) {
                    assert(t.label.take(c as int) =~= k2.take(c as int)) by {
                        assert forall|i: int| 0 <= i < c implies t.label[i] == k2[i] by {
                            lemma_prefix_index(t2.label, k2, i);
                        }
                    }
                    let r2 = suffix_from(k2, c);
                    if t.label.is_prefix_of(k2) {
                        lemma_prefix_index(t.label, k2, c as int);
                        assert(r2[0] == head);
                    }
                    if r2.len() == 0 {
                        if rest.len() == 0 {
                            assert(r2 =~= rest);
                            lemma_same_after_prefix(t2.label, k2, key);
                        }
                    } else if r2[0] == head {
                        assert(t2.children[head] == lower);
                        lemma_get_exact_shift(t, c, k2);
                    } else if rest.len() > 0 && r2[0] == rest[0] {
                        assert(t2.children[rest[0]] == leaf);
                        if r2 == rest {
                            lemma_same_after_prefix(t2.label, k2, key);
                        }
                        assert(get_exact(leaf, r2) is None);
                    } else {
                        assert(!t2.children.contains_key(r2[0]));
                    }
                } else {
                    if t.label.is_prefix_of(k2) {
                        lemma_prefix_take(t.label, k2, c as int);
                        assert(t.label.take(c as int) == t2.label);
                    }
                }
            }
            if rest.len() > 0 {
                assert(suffix_from(key, c) =~= rest);
                assert(t2.children[rest[0]] == leaf);
                assert(get_exact(t2, key) == Some(v));
                assert(t2.children.dom() =~= Set::<u8>::empty().insert(head).insert(rest[0]));
            } else {
                assert(suffix_from(key, c).len() == 0);
                assert(get_exact(t2, key) == Some(v));
            }
            assert forall|k: u8| #[trigger] t2.children.contains_key(k) implies {
                let child = t2.children[k];
                &&& child.label.len() > 0
                &&& child.label[0] == k
                &&& is_compact(child)
                &&& well_formed(child)
            } by {}
        }
    }
}

/// A refused write (`insert`, `update` or `upsert`) leaves the tree as it was,
/// whatever the tree.
pub proof fn law_refused_write_changes_nothing<V>(t: Tree<V>, key: Seq<u8>, v: V, op: Operation)
    requires
        insert_tree(t, key, v, op).1 is Err,
    ensures
        insert_tree(t, key, v, op).0 == t,
    decreases t,
{
    let c = common_prefix_len(t.label, key);
    let rest = suffix_from(key, c);
    if !t.is_bare() && c >= t.label.len() && rest.len() > 0 && t.children.contains_key(rest[0]) {
        law_refused_write_changes_nothing(t.children[rest[0]], rest, v, op);
        assert(t.children.insert(rest[0], t.children[rest[0]]) =~= t.children);
    }
}

/// A refused `remove` leaves the tree as it was, whatever the tree.
pub proof fn law_refused_remove_changes_nothing<V>(t: Tree<V>, key: Seq<u8>)
    requires
        remove_tree(t, key).1 is Err,
    ensures
        remove_tree(t, key).0 == t,
{
}

/// Letting a node with no value and a single child take that child's place
/// keeps a well-formed tree well formed, changes what no key finds, only
/// lengthens the label, and gives a node that holds a value or has two
/// children.
pub proof fn law_merge_keeps_contents<V>(t: Tree<V>)
    requires
        well_formed(t),
    ensures
        well_formed(merge_single_child(t)),
        forall|k2: Seq<u8>| #[trigger] get_exact(merge_single_child(t), k2) == get_exact(t, k2),
        t.label.is_prefix_of(merge_single_child(t).label),
        merge_single_child(t) == t || is_compact(merge_single_child(t)),
{
    let m = merge_single_child(t);
    if t.value is None && t.children.len() == 1 {
        let k = t.children.dom().choose();
        assert(t.children.dom().contains(k)) by {
            Set::lemma_is_singleton(t.children.dom());
        }
        let ch = t.children[k];
        assert(well_formed(ch));
        assert(m == Tree { label: t.label + ch.label, ..ch });
        assert forall|k3: u8| #[trigger] m.children.contains_key(k3) implies {
            let child = m.children[k3];
            &&& child.label.len() > 0
            &&& child.label[0] == k3
            &&& is_compact(child)
            &&& well_formed(child)
        } by {
            assert(ch.children.contains_key(k3));
        }
        assert forall|k2: Seq<u8>| #[trigger] get_exact(m, k2) == get_exact(t, k2) by {
            lemma_get_exact_concat(t.label, ch, k2);
            if t.label.is_prefix_of(k2) {
                let r2 = suffix_from(k2, t.label.len());
                if r2.len() > 0 && r2[0] != k {
                    if t.children.contains_key(r2[0]) {
                        lemma_only_key(t.children, r2[0]);
                    }
                    if ch.label.is_prefix_of(r2) {
                        lemma_prefix_index(ch.label, r2, 0);
                    }
                }
            }
        }
        assert(t.label.is_prefix_of(m.label)) by {
            assert(t.label =~= m.label.subrange(0, t.label.len() as int));
        }
    } else {
        assert(t.label.is_prefix_of(m.label)) by {
            assert(t.label =~= m.label.subrange(0, t.label.len() as int));
        }
    }
}

/// Removing a key from a valid tree keeps it valid and acts as a removal from
/// a map from keys to values: it is refused with `NodeNotFound` exactly when
/// the key holds no value, and then changes nothing; otherwise the key holds
/// nothing afterwards and every other key holds what it held. Below the root
/// the node either holds nothing afterwards or keeps its label's first byte.
pub proof fn law_remove<V>(t: Tree<V>, key: Seq<u8>)
    requires
        valid_tree(t),
    ensures
        ({
            let (t2, r) = remove_tree(t, key);
            &&& valid_tree(t2)
            &&& (r is Err <==> get_exact(t, key) is None)
            &&& r is Err ==> r == Err::<(), PatriciaError>(PatriciaError::NodeNotFound) && t2 == t
            &&& r is Ok ==> get_exact(t2, key) is None
            &&& r is Ok ==> forall|k2: Seq<u8>| k2 != key ==> #[trigger] get_exact(t2, k2) == get_exact(t, k2)
            &&& r is Ok && t.label.len() > 0 ==> t2.is_bare() || (t2.label.len() > 0 && t2.label[0] == t.label[0])
        }),
    decreases t,
{
    lemma_common_prefix_len(t.label, key);
    lemma_label_prefix(t.label, key);
    let c = common_prefix_len(t.label, key);
    let rest = suffix_from(key, c);
    let (t2, r) = remove_tree(t, key);
    if c < t.label.len() {
        assert(get_exact(t, key) is None);
    } else if rest.len() == 0 {
        assert(get_exact(t, key) == t.value);
        if t.value is Some {
            let t1 = Tree { value: None, ..t };
            assert(t2 == merge_single_child(t1));
            assert(t1.children == t.children);
            assert(well_formed(t1));
            assert forall|k2: Seq<u8>| k2 != key implies #[trigger] get_exact(t1, k2) == get_exact(t, k2) by {
                if t.label.is_prefix_of(k2) && suffix_from(k2, t.label.len()).len() == 0 {
                    assert(suffix_from(k2, t.label.len()) =~= rest);
                    lemma_same_after_prefix(t.label, k2, key);
                }
            }
            assert(get_exact(t1, key) is None);
            law_merge_keeps_contents(t1);
            if t.label.len() > 0 {
                lemma_prefix_index(t.label, t2.label, 0);
            }
            if !(t1.value is None && t1.children.len() == 1) && !is_compact(t1) {
                t1.children.dom().lemma_len0_is_empty();
            }
        }
    } else if t.children.contains_key(rest[0]) {
        let k = rest[0];
        let ch = t.children[k];
        lemma_common_prefix_len(ch.label, rest);
        law_remove(ch, rest);
        let (ch2, rr) = remove_tree(ch, rest);
        assert(get_exact(t, key) == get_exact(ch, rest));
        if rr is Ok {
            assert(is_compact(t));
            let t1 = if ch2.is_bare() {
                Tree { children: t.children.remove(k), ..t }
            } else {
                Tree { children: t.children.insert(k, ch2), ..t }
            };
            assert(t2 == merge_single_child(t1));
            assert forall|k2: Seq<u8>| k2 != key implies #[trigger] get_exact(t1, k2) == get_exact(t, k2) by {
                if t.label.is_prefix_of(k2) {
                    let r2 = suffix_from(k2, t.label.len());
                    if r2.len() > 0 && r2[0] == k {
                        if r2 == rest {
                            lemma_same_after_prefix(t.label, k2, key);
                        }
                        assert(get_exact(ch2, r2) == get_exact(ch, r2));
                        if ch2.is_bare() {
                            lemma_get_exact_bare(ch2, r2);
                        }
                    }
                }
            }
            if ch2.is_bare() {
                assert(get_exact(t1, key) is None);
                assert(t1.children.dom() =~= t.children.dom().remove(k));
            } else {
                assert(get_exact(t1, key) is None);
                assert(t1.children.dom() =~= t.children.dom());
            }
            assert forall|k3: u8| #[trigger] t1.children.contains_key(k3) implies {
                let child = t1.children[k3];
                &&& child.label.len() > 0
                &&& child.label[0] == k3
                &&& is_compact(child)
                &&& well_formed(child)
            } by {}
            law_merge_keeps_contents(t1);
            if t.label.len() > 0 {
                lemma_prefix_index(t.label, t2.label, 0);
            }
            if !(t1.value is None && t1.children.len() == 1) && !is_compact(t1) {
                t1.children.dom().lemma_len0_is_empty();
            }
        }
    } else {
        assert(get_exact(t, key) is None);
    }
}

/// The empty node is a valid tree, and no key holds a value in it.
pub proof fn law_empty_holds_nothing<V>(key: Seq<u8>)
    ensures
        valid_tree(Tree::<V>::empty()),
        get_exact(Tree::<V>::empty(), key) is None,
{
    lemma_get_exact_bare(Tree::<V>::empty(), key);
    assert(Tree::<V>::empty().children.dom() =~= Set::<u8>::empty());
}

/// A key behind a node's label is looked up in the child named by its first
/// byte.
proof fn lemma_get_exact_child<V>(t: Tree<V>, k: Seq<u8>)
    requires
        k.len() > 0,
        t.children.contains_key(k[0]),
    ensures
        get_exact(t, t.label + k) == get_exact(t.children[k[0]], k),
{
    let key = t.label + k;
    assert(t.label =~= key.subrange(0, t.label.len() as int));
    assert(suffix_from(key, t.label.len()) =~= k);
}

/// A child finds nothing under a key that does not start with the byte that
/// names it.
proof fn lemma_child_finds_only_its_byte<V>(t: Tree<V>, c: u8, k: Seq<u8>)
    requires
        well_formed(t),
        t.children.contains_key(c),
        k.len() == 0 || k[0] != c,
    ensures
        get_exact(t.children[c], k) is None,
{
    let child = t.children[c];
    if child.label.is_prefix_of(k) {
        lemma_prefix_index(child.label, k, 0);
    }
}

/// A node with at least two children has two different bytes naming children.
proof fn lemma_two_children<V>(t: Tree<V>) -> (cs: (u8, u8))
    requires
        t.children.dom().finite(),
        t.children.len() >= 2,
    ensures
        cs.0 != cs.1,
        t.children.contains_key(cs.0),
        t.children.contains_key(cs.1),
{
    let d = t.children.dom();
    vstd::set::axiom_set_choose_len(d);
    let c1 = d.choose();
    let rest = d.remove(c1);
    vstd::set::axiom_set_remove_len(d, c1);
    vstd::set::axiom_set_remove_finite(d, c1);
    vstd::set::axiom_set_choose_len(rest);
    (c1, rest.choose())
}

/// A well-formed node that holds a value or has two children holds a value
/// under some key.
proof fn lemma_holds_some_key<V>(t: Tree<V>) -> (k: Seq<u8>)
    requires
        well_formed(t),
        is_compact(t),
    ensures
        get_exact(t, k) is Some,
    decreases t,
{
    if t.value is Some {
        assert(t.label =~= t.label.subrange(0, t.label.len() as int));
        assert(suffix_from(t.label, t.label.len()).len() == 0);
        t.label
    } else {
        let (c, _) = lemma_two_children(t);
        let child = t.children[c];
        let k1 = lemma_holds_some_key(child);
        lemma_prefix_index(child.label, k1, 0);
        lemma_get_exact_child(t, k1);
        t.label + k1
    }
}

/// Of two trees that hold the same values under the same keys, a well-formed
/// one that holds a value or has two children has the longer label, or one as
/// long.
proof fn lemma_label_not_shorter<V>(a: Tree<V>, b: Tree<V>)
    requires
        well_formed(a),
        is_compact(a),
        forall|k: Seq<u8>| #[trigger] get_exact(a, k) == get_exact(b, k),
    ensures
        b.label.len() <= a.label.len(),
{
    if a.label.len() < b.label.len() {
        if a.value is Some {
            assert(a.label =~= a.label.subrange(0, a.label.len() as int));
            assert(suffix_from(a.label, a.label.len()).len() == 0);
            assert(get_exact(a, a.label) is Some);
            assert(get_exact(b, a.label) is Some);
        } else {
            let (c1, c2) = lemma_two_children(a);
            let k1 = lemma_holds_some_key(a.children[c1]);
            let k2 = lemma_holds_some_key(a.children[c2]);
            lemma_prefix_index(a.children[c1].label, k1, 0);
            lemma_prefix_index(a.children[c2].label, k2, 0);
            lemma_get_exact_child(a, k1);
            lemma_get_exact_child(a, k2);
            let key1 = a.label + k1;
            let key2 = a.label + k2;
            assert(get_exact(b, key1) is Some);
            assert(get_exact(b, key2) is Some);
            lemma_prefix_index(b.label, key1, a.label.len() as int);
            lemma_prefix_index(b.label, key2, a.label.len() as int);
            assert(key1[a.label.len() as int] == k1[0]);
            assert(key2[a.label.len() as int] == k2[0]);
        }
    }
}

/// Two valid trees that hold the same values under the same keys are the same
/// tree, unless one of them holds nothing: a Patricia tree is determined by
/// what it holds.
pub proof fn law_same_contents_same_tree<V>(a: Tree<V>, b: Tree<V>)
    requires
        valid_tree(a),
        valid_tree(b),
        !a.is_bare(),
        !b.is_bare(),
        forall|k: Seq<u8>| #[trigger] get_exact(a, k) == get_exact(b, k),
    ensures
        a == b,
    decreases a,
{
    assert(is_compact(a)) by {
        if a.value is None && a.children.len() < 2 {
            assert(a.children.dom().len() != 0) by {
                if a.children.dom().len() == 0 {
                    a.children.dom().lemma_len0_is_empty();
                }
            }
        }
    }
    assert(is_compact(b)) by {
        if b.value is None && b.children.len() < 2 {
            assert(b.children.dom().len() != 0) by {
                if b.children.dom().len() == 0 {
                    b.children.dom().lemma_len0_is_empty();
                }
            }
        }
    }
    lemma_label_not_shorter(a, b);
    lemma_label_not_shorter(b, a);
    let ka = lemma_holds_some_key(a);
    assert(get_exact(b, ka) is Some);
    assert(a.label =~= b.label) by {
        assert forall|i: int| 0 <= i < a.label.len() implies a.label[i] == b.label[i] by {
            lemma_prefix_index(a.label, ka, i);
            lemma_prefix_index(b.label, ka, i);
        }
    }
    let l = a.label;
    assert(l =~= l.subrange(0, l.len() as int));
    assert(suffix_from(l, l.len()).len() == 0);
    assert(get_exact(a, l) == a.value);
    assert(get_exact(b, l) == b.value);
    assert forall|c: u8| #[trigger] a.children.contains_key(c) implies b.children.contains_key(c) by {
        let k1 = lemma_holds_some_key(a.children[c]);
        lemma_prefix_index(a.children[c].label, k1, 0);
        lemma_get_exact_child(a, k1);
        assert(get_exact(b, l + k1) is Some);
        assert(l =~= (l + k1).subrange(0, l.len() as int));
        assert(suffix_from(l + k1, l.len()) =~= k1);
    }
    assert forall|c: u8| #[trigger] b.children.contains_key(c) implies a.children.contains_key(c) by {
        let k1 = lemma_holds_some_key(b.children[c]);
        lemma_prefix_index(b.children[c].label, k1, 0);
        lemma_get_exact_child(b, k1);
        assert(get_exact(a, l + k1) is Some);
        assert(l =~= (l + k1).subrange(0, l.len() as int));
        assert(suffix_from(l + k1, l.len()) =~= k1);
    }
    assert forall|c: u8| #[trigger] a.children.contains_key(c) implies a.children[c] == b.children[c] by {
        let ca = a.children[c];
        let cb = b.children[c];
        assert forall|k: Seq<u8>| #[trigger] get_exact(ca, k) == get_exact(cb, k) by {
            if k.len() > 0 && k[0] == c {
                lemma_get_exact_child(a, k);
                lemma_get_exact_child(b, k);
                assert(get_exact(a, l + k) == get_exact(b, l + k));
            } else {
                lemma_child_finds_only_its_byte(a, c, k);
                lemma_child_finds_only_its_byte(b, c, k);
            }
        }
        law_same_contents_same_tree(ca, cb);
    }
    assert(a.children =~= b.children);
    assert(a =~= b);
}

/// A valid tree that holds a value under some key is not bare.
proof fn lemma_holding_not_bare<V>(t: Tree<V>, k: Seq<u8>)
    requires
        get_exact(t, k) is Some,
    ensures
        !t.is_bare(),
{
    if t.is_bare() {
        lemma_get_exact_bare(t, k);
    }
}

/// A `remove` of a key that an accepted `insert` has just written gives back
/// the tree that was there before the insert, unless that tree held nothing
/// (then it gives a tree that holds nothing).
pub proof fn law_remove_undoes_insert<V: Clone>(before: Tree<V>, mid: Tree<V>, after: Tree<V>, key: Seq<u8>, v: V)
    requires
        valid_tree(before),
        valid_tree(after),
        get_exact(before, key) is None,
        written(before, mid, key, v),
        removed(mid, after, key),
    ensures
        get_exact(mid, key) is Some,
        forall|k: Seq<u8>| #[trigger] get_exact(after, k) == get_exact(before, k),
        !before.is_bare() ==> after == before,
        before.is_bare() ==> after.is_bare(),
{
    assert forall|k: Seq<u8>| #[trigger] get_exact(after, k) == get_exact(before, k) by {
        if k != key {
            assert(get_exact(mid, k) == get_exact(before, k));
        }
    }
    if !before.is_bare() {
        let k = lemma_holds_some_key(before);
        lemma_holding_not_bare(after, k);
        law_same_contents_same_tree(after, before);
    } else if !after.is_bare() {
        let k = lemma_holds_some_key(after);
        lemma_get_exact_bare(before, k);
    }
}

/// An `upsert` of the value that a key already holds leaves every other key as
/// it was, and leaves the tree as it was when the stored copy equals the value.
pub proof fn law_upsert_again_keeps_contents<V: Clone>(before: Tree<V>, after: Tree<V>, key: Seq<u8>, v: V)
    requires
        valid_tree(before),
        valid_tree(after),
        get_exact(before, key) == Some(v),
        written(before, after, key, v),
    ensures
        forall|k: Seq<u8>| k != key ==> #[trigger] get_exact(after, k) == get_exact(before, k),
        get_exact(after, key) == Some(v) ==> after == before,
{
    if get_exact(after, key) == Some(v) {
        assert forall|k: Seq<u8>| #[trigger] get_exact(after, k) == get_exact(before, k) by {
            if k != key {
                assert(get_exact(after, k) == get_exact(before, k));
            }
        }
        lemma_holding_not_bare(before, key);
        lemma_holding_not_bare(after, key);
        law_same_contents_same_tree(after, before);
    }
}

/// Two keys inserted into the same valid tree give the same tree in either
/// order, when the stored copies of each value are the same both ways.
pub proof fn law_insert_order_irrelevant<V: Clone>(
    t: Tree<V>,
    first: Tree<V>,
    both: Tree<V>,
    other_first: Tree<V>,
    other_both: Tree<V>,
    k1: Seq<u8>,
    v1: V,
    k2: Seq<u8>,
    v2: V,
)
    requires
        valid_tree(both),
        valid_tree(other_both),
        k1 != k2,
        written(t, first, k1, v1),
        written(first, both, k2, v2),
        written(t, other_first, k2, v2),
        written(other_first, other_both, k1, v1),
        get_exact(both, k1) == get_exact(other_both, k1),
        get_exact(both, k2) == get_exact(other_both, k2),
    ensures
        both == other_both,
{
    assert forall|k: Seq<u8>| #[trigger] get_exact(both, k) == get_exact(other_both, k) by {
        if k != k1 && k != k2 {
            assert(get_exact(both, k) == get_exact(first, k));
            assert(get_exact(other_both, k) == get_exact(other_first, k));
        }
    }
    lemma_holding_not_bare(both, k2);
    lemma_holding_not_bare(other_both, k2);
    law_same_contents_same_tree(both, other_both);
}

} // verus!

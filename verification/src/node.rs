//! The executable Patricia tree node.
use std::collections::BTreeMap;
use vstd::prelude::*;
use vstd::std_specs::iter::IteratorSpec;
use vstd::std_specs::cmp::OrdSpec;
use vstd::std_specs::btree::increasing_seq;
use crate::model::{
    Tree, Operation, common_prefix_len, is_common_prefix_len, lemma_common_prefix_len,
    suffix_from, insert_tree, remove_tree, merge_single_child, lemma_only_key, tree_cloned,
    get_exact, valid_tree, written, removed, lemma_label_prefix,
};
use crate::laws::{law_write, law_remove};

verus! {

broadcast use vstd::std_specs::btree::group_btree_axioms;

/// Why a write or a removal was refused.
#[derive(Debug, PartialEq, Eq, Structural)]
pub enum PatriciaError {
    /// The key already holds a value.
    AlreadyExists,
    /// The key holds no value.
    NodeNotFound,
}

/// A node of a Patricia tree: a label, an optional value, and children keyed by
/// the first byte of their labels.
#[derive(Debug, PartialEq, Eq)]
pub struct PatriciaNode<V> {
    label: Vec<u8>,
    children: BTreeMap<u8, PatriciaNode<V>>,
    value: Option<V>,
}

impl<V> PatriciaNode<V> {
    /// The model of this node and everything below it.
    pub closed spec fn model(self) -> Tree<V>
        decreases self,
    {
        Tree {
            label: self.label@,
            value: self.value,
            children: Map::new(
                |k: u8| self.children@.contains_key(k),
                |k: u8|
                    if self.children@.contains_key(k) {
                        self.children@[k].model()
                    } else {
                        Tree::empty()
                    },
            ),
        }
    }
}

impl<V> PatriciaNode<V> {
    /// The model of a node is made of its own label and value and of the
    /// models of its children.
    proof fn lemma_view_parts(&self)
        ensures
            self@.label == self.label@,
            self@.value == self.value,
            self@.children.dom() == self.children@.dom(),
            self@.children.dom().finite(),
            forall|k: u8| #[trigger] self.children@.contains_key(k) ==> self@.children[k] == self.children@[k]@,
    {
        assert(self@.children.dom() =~= self.children@.dom());
    }
}

/// Calls `BTreeMap::pop_first`, which removes and returns the entry with the
/// least key, or returns `None` and leaves the map alone when it is empty.
#[verifier::external_body]
fn pop_first_child<V>(children: &mut BTreeMap<u8, PatriciaNode<V>>) -> (first: Option<(u8, PatriciaNode<V>)>)
    ensures
        match first {
            Some((k, child)) => {
                &&& old(children)@.contains_key(k)
                &&& old(children)@[k] == child
                &&& final(children)@ == old(children)@.remove(k)
                &&& forall|k2: u8| old(children)@.contains_key(k2) ==> k <= k2
            },
            None => {
                &&& old(children)@.is_empty()
                &&& final(children)@ == old(children)@
            },
        },
{
    children.pop_first()
}

impl<V> View for PatriciaNode<V> {
    type V = Tree<V>;

    open spec fn view(&self) -> Tree<V> {
        self.model()
    }
}

impl<V: Clone + std::fmt::Debug> PatriciaNode<V> {
    /// An empty node: no label, no value, no children.
    pub fn new() -> (node: Self)
        ensures
            node@ == Tree::<V>::empty(),
            valid_tree(node@),
    {
        let node = PatriciaNode { label: Vec::new(), children: BTreeMap::new(), value: None };
        assert(node@.children =~= Map::<u8, Tree<V>>::empty());
        assert(node@ =~= Tree::<V>::empty());
        node
    }

    /// A node with the given label, no value and no children.
    pub fn new_with_label(label: &[u8]) -> (node: Self)
        ensures
            node@ == (Tree::<V> { label: label@, value: None, children: Map::empty() }),
            valid_tree(node@),
    {
        let node = PatriciaNode {
            label: vstd::slice::slice_to_vec(label),
            children: BTreeMap::new(),
            value: None,
        };
        assert(node@.children =~= Map::<u8, Tree<V>>::empty());
        assert(node@ =~= (Tree::<V> { label: label@, value: None, children: Map::empty() }));
        node
    }

    /// A node with the given label, a clone of the given value, and no children.
    pub fn new_with_label_and_value(label: &[u8], value: &V) -> (node: Self)
        ensures
            node@.label == label@,
            node@.children == Map::<u8, Tree<V>>::empty(),
            node@.value is Some,
            cloned(*value, node@.value.unwrap()),
            valid_tree(node@),
    {
        let node = PatriciaNode {
            label: vstd::slice::slice_to_vec(label),
            children: BTreeMap::new(),
            value: Some(value.clone()),
        };
        assert(node@.children =~= Map::<u8, Tree<V>>::empty());
        node
    }

    /// The label of this node.
    pub fn label(&self) -> (label: &[u8])
        ensures
            label@ == self@.label,
    {
        self.label.as_slice()
    }

    /// The children of this node, keyed by the first byte of their labels.
    pub fn children(&self) -> (children: &BTreeMap<u8, PatriciaNode<V>>)
        ensures
            children@.dom() == self@.children.dom(),
            forall|k: u8| #[trigger] children@.contains_key(k) ==> children@[k]@ == self@.children[k],
    {
        assert(self.children@.dom() =~= self@.children.dom());
        &self.children
    }

    /// The value held at this node, if any.
    pub fn value(&self) -> (value: Option<&V>)
        ensures
            match value {
                Some(v) => self@.value == Some(*v),
                None => self@.value is None,
            },
    {
        self.value.as_ref()
    }

    /// Splits `label` after the longest prefix it shares with this node's label:
    /// the shared prefix, the rest of `label`, and the prefix's length.
    fn split_common_prefix<'a>(&self, label: &'a [u8]) -> (parts: (&'a [u8], &'a [u8], usize))
        ensures
            parts.2 == common_prefix_len(self@.label, label@),
            is_common_prefix_len(self@.label, label@, parts.2 as nat),
            parts.0@ == label@.take(parts.2 as int),
            parts.1@ == suffix_from(label@, parts.2 as nat),
    {
        let mut i: usize = 0;
        while i < self.label.len() && i < label.len() && self.label[i] == label[i]
            invariant
                i <= self.label@.len(),
                i <= label@.len(),
                forall|j: int| 0 <= j < i ==> self.label@[j] == label@[j],
            decreases self.label@.len() - i,
        {
            i = i + 1;
        }
        proof {
            lemma_common_prefix_len(self.label@, label@);
            assert(is_common_prefix_len(self.label@, label@, i as nat));
            self.lemma_view_parts();
        }
        let (prefix, suffix) = label.split_at(i);
        (prefix, suffix, i)
    }

    /// Writes `value` under `key` as `operation` says; see `insert_tree`.
    fn internal_insert(&mut self, key: &[u8], value: &V, operation: Operation) -> (result: Result<(), PatriciaError>)
        ensures
            exists|v: V| cloned(*value, v) && insert_tree(old(self)@, key@, v, operation) == (final(self)@, result),
        decreases old(self)@,
    {
        proof {
            self.lemma_view_parts();
        }
        let ghost old_self = self@;
        let ghost mut witness: V = *value;
        assert(cloned(*value, *value));
        if self.value.is_none() && self.children.is_empty() {
            if operation == Operation::Update {
                assert(insert_tree(old_self, key@, *value, operation) == (self@, Err::<(), PatriciaError>(PatriciaError::NodeNotFound)));
                return Err(PatriciaError::NodeNotFound);
            }
            let new_node = Self::new_with_label_and_value(key, value);
            let ghost v = new_node@.value.unwrap();
            *self = new_node;
            proof {
                assert(old_self.is_bare());
                assert(self@ =~= Tree::leaf(key@, v));
                assert(insert_tree(old_self, key@, v, operation) == (self@, Ok::<(), PatriciaError>(())));
            }
            return Ok(());
        }
        assert(!old_self.is_bare());
        let (common_prefix, insert_suffix, common_prefix_len) = self.split_common_prefix(key);
        if common_prefix_len == self.label.len() {
            if insert_suffix.len() == 0 {
                if operation == Operation::Insert && self.value.is_some() {
                    assert(insert_tree(old_self, key@, *value, operation) == (self@, Err::<(), PatriciaError>(PatriciaError::AlreadyExists)));
                    return Err(PatriciaError::AlreadyExists);
                }
                if operation == Operation::Update && self.value.is_none() {
                    assert(insert_tree(old_self, key@, *value, operation) == (self@, Err::<(), PatriciaError>(PatriciaError::NodeNotFound)));
                    return Err(PatriciaError::NodeNotFound);
                }
                let v = value.clone();
                self.value = Some(v);
                proof {
                    assert(cloned(*value, v));
                    self.lemma_view_parts();
                    assert(self@ =~= Tree { value: Some(v), ..old_self });
                    assert(insert_tree(old_self, key@, v, operation) == (self@, Ok::<(), PatriciaError>(())));
                }
                return Ok(());
            }
            let head = insert_suffix[0];
            // The child is taken out of the map while it is written to, and put back.
            match self.children.remove(&head) {
                Some(mut child) => {
                    let result = child.internal_insert(insert_suffix, value, operation);
                    let ghost child_model = child@;
                    self.children.insert(head, child);
                    proof {
                        let v = choose|v: V| cloned(*value, v) && insert_tree(old_self.children[head], insert_suffix@, v, operation) == (child_model, result);
                        self.lemma_view_parts();
                        assert(self@.children =~= old_self.children.insert(head, child_model));
                        assert(self@ =~= Tree { children: old_self.children.insert(head, child_model), ..old_self });
                        assert(insert_tree(old_self, key@, v, operation) == (self@, result));
                    }
                    return result;
                },
                None => {
                    proof {
                        self.lemma_view_parts();
                        assert(self.children@ =~= old(self).children@);
                        assert(self@.children =~= old_self.children);
                        assert(self@ =~= old_self);
                    }
                },
            }
            if operation == Operation::Update {
                assert(insert_tree(old_self, key@, *value, operation) == (self@, Err::<(), PatriciaError>(PatriciaError::NodeNotFound)));
                return Err(PatriciaError::NodeNotFound);
            }
            let new_node = Self::new_with_label_and_value(insert_suffix, value);
            let ghost v = new_node@.value.unwrap();
            self.children.insert(head, new_node);
            proof {
                self.lemma_view_parts();
                assert(self@.children =~= old_self.children.insert(head, Tree::leaf(insert_suffix@, v)));
                assert(self@ =~= Tree { children: old_self.children.insert(head, Tree::leaf(insert_suffix@, v)), ..old_self });
                witness = v;
                assert(insert_tree(old_self, key@, v, operation) == (self@, Ok::<(), PatriciaError>(())));
            }
        } else if operation != Operation::Update {
            let (_, label_suffix_slice) = self.label.as_slice().split_at(common_prefix_len);
            let label_suffix = vstd::slice::slice_to_vec(label_suffix_slice);
            let label_suffix_head = label_suffix[0];
            let mut lower_children = BTreeMap::new();
            std::mem::swap(&mut lower_children, &mut self.children);
            let mut lower_value = Some(value.clone());
            let ghost first_clone = lower_value.unwrap();
            std::mem::swap(&mut lower_value, &mut self.value);
            let lower = Self { label: label_suffix, children: lower_children, value: lower_value };
            self.label = vstd::slice::slice_to_vec(common_prefix);
            self.children.insert(label_suffix_head, lower);
            let ghost lower_model = Tree { label: suffix_from(old_self.label, common_prefix_len as nat), ..old_self };
            proof {
                lower.lemma_view_parts();
                assert(lower@.children =~= old_self.children);
                assert(lower@ =~= lower_model);
            }
            if insert_suffix.len() > 0 {
                let insert_node = Self::new_with_label_and_value(insert_suffix, value);
                let ghost v = insert_node@.value.unwrap();
                self.children.insert(insert_suffix[0], insert_node);
                self.value = None;
                proof {
                    self.lemma_view_parts();
                    let upper_children = Map::<u8, Tree<V>>::empty().insert(old_self.label[common_prefix_len as int], lower_model);
                    assert(self@.children =~= upper_children.insert(insert_suffix@[0], Tree::leaf(insert_suffix@, v)));
                    witness = v;
                    assert(insert_tree(old_self, key@, v, operation) == (self@, Ok::<(), PatriciaError>(())));
                }
            } else {
                proof {
                    self.lemma_view_parts();
                    let upper_children = Map::<u8, Tree<V>>::empty().insert(old_self.label[common_prefix_len as int], lower_model);
                    assert(self@.children =~= upper_children);
                    witness = first_clone;
                    assert(insert_tree(old_self, key@, first_clone, operation) == (self@, Ok::<(), PatriciaError>(())));
                }
            }
        } else {
            assert(insert_tree(old_self, key@, *value, operation) == (self@, Err::<(), PatriciaError>(PatriciaError::NodeNotFound)));
            return Err(PatriciaError::NodeNotFound);
        }
        assert(cloned(*value, witness) && insert_tree(old_self, key@, witness, operation) == (self@, Ok::<(), PatriciaError>(())));
        Ok(())
    }

    /// Adds `value` under `key`. On a valid tree it is refused with
    /// `AlreadyExists`, changing nothing, exactly when the key already holds a
    /// value; otherwise the key holds a clone of `value` and every other key
    /// holds what it held.
    pub fn insert(&mut self, key: &[u8], value: &V) -> (result: Result<(), PatriciaError>)
        ensures
            valid_tree(old(self)@) ==> {
                &&& valid_tree(final(self)@)
                &&& (result is Err <==> get_exact(old(self)@, key@) is Some)
                &&& result is Err ==> result == Err::<(), PatriciaError>(PatriciaError::AlreadyExists) && final(self)@ == old(self)@
                &&& result is Ok ==> written(old(self)@, final(self)@, key@, *value)
            },
    {
        let ghost before = self@;
        let result = self.internal_insert(key, value, Operation::Insert);
        proof {
            let v = choose|v: V| cloned(*value, v) && insert_tree(before, key@, v, Operation::Insert) == (self@, result);
            if valid_tree(before) {
                law_write(before, key@, v, Operation::Insert);
            }
        }
        result
    }

    /// Replaces the value under `key`. On a valid tree it is refused with
    /// `NodeNotFound`, changing nothing, exactly when the key holds no value;
    /// otherwise the key holds a clone of `value` and every other key holds
    /// what it held.
    pub fn update(&mut self, key: &[u8], value: &V) -> (result: Result<(), PatriciaError>)
        ensures
            valid_tree(old(self)@) ==> {
                &&& valid_tree(final(self)@)
                &&& (result is Err <==> get_exact(old(self)@, key@) is None)
                &&& result is Err ==> result == Err::<(), PatriciaError>(PatriciaError::NodeNotFound) && final(self)@ == old(self)@
                &&& result is Ok ==> written(old(self)@, final(self)@, key@, *value)
            },
    {
        let ghost before = self@;
        let result = self.internal_insert(key, value, Operation::Update);
        proof {
            let v = choose|v: V| cloned(*value, v) && insert_tree(before, key@, v, Operation::Update) == (self@, result);
            if valid_tree(before) {
                law_write(before, key@, v, Operation::Update);
            }
        }
        result
    }

    /// Inserts or updates the value under `key`: on a valid tree it is never
    /// refused, the key holds a clone of `value` and every other key holds what
    /// it held.
    pub fn upsert(&mut self, key: &[u8], value: &V) -> (result: Result<(), PatriciaError>)
        ensures
            valid_tree(old(self)@) ==> {
                &&& valid_tree(final(self)@)
                &&& result is Ok
                &&& written(old(self)@, final(self)@, key@, *value)
            },
    {
        let ghost before = self@;
        let result = self.internal_insert(key, value, Operation::Upsert);
        proof {
            let v = choose|v: V| cloned(*value, v) && insert_tree(before, key@, v, Operation::Upsert) == (self@, result);
            if valid_tree(before) {
                law_write(before, key@, v, Operation::Upsert);
            }
        }
        result
    }

    /// A clone of the value stored under exactly `key`, if any.
    pub fn search(&self, key: &[u8]) -> (found: Option<V>)
        ensures
            match (get_exact(self@, key@), found) {
                (Some(stored), Some(copy)) => cloned(stored, copy),
                (None, None) => true,
                _ => false,
            },
        decreases self@,
    {
        proof {
            self.lemma_view_parts();
            lemma_label_prefix(self@.label, key@);
        }
        let (_, suffix, common_prefix_len) = self.split_common_prefix(key);
        if common_prefix_len < self.label.len() {
            return None;
        }
        if suffix.len() == 0 {
            return self.value.clone();
        }
        match self.children.get(&suffix[0]) {
            Some(child) => child.search(suffix),
            None => None,
        }
    }

    /// A node with no value and exactly one child takes that child's place.
    fn merge_single_child(&mut self)
        ensures
            final(self)@ == merge_single_child(old(self)@),
    {
        proof {
            self.lemma_view_parts();
        }
        let ghost old_self = self@;
        if self.value.is_none() && self.children.len() == 1 {
            let (k, child) = pop_first_child(&mut self.children).unwrap();
            proof {
                lemma_only_key(old_self.children, k);
                child.lemma_view_parts();
            }
            let ghost child_model = child@;
            let PatriciaNode { label: mut child_label, children: child_children, value: child_value } = child;
            self.label.append(&mut child_label);
            self.value = child_value;
            self.children = child_children;
            proof {
                self.lemma_view_parts();
                assert(self@.children =~= child_model.children);
                assert(self@ =~= merge_single_child(old_self));
            }
        }
    }

    /// Removes the value under `key`; see `remove_tree`.
    fn remove_node(&mut self, key: &[u8]) -> (result: Result<(), PatriciaError>)
        ensures
            remove_tree(old(self)@, key@) == (final(self)@, result),
        decreases old(self)@,
    {
        proof {
            self.lemma_view_parts();
        }
        let ghost old_self = self@;
        let (_, suffix, common_prefix_len) = self.split_common_prefix(key);
        if common_prefix_len < self.label.len() {
            return Err(PatriciaError::NodeNotFound);
        }
        if suffix.len() == 0 {
            if self.value.is_none() {
                return Err(PatriciaError::NodeNotFound);
            }
            self.value = None;
            proof {
                self.lemma_view_parts();
                assert(self@ =~= Tree { value: None, ..old_self });
            }
        } else {
            let k = suffix[0];
            match self.children.remove(&k) {
                Some(mut child) => {
                    match child.remove_node(suffix) {
                        Err(e) => {
                            self.children.insert(k, child);
                            proof {
                                self.lemma_view_parts();
                                assert(self@.children =~= old_self.children);
                                assert(self@ =~= old_self);
                            }
                            return Err(e);
                        },
                        Ok(()) => {},
                    }
                    if !(child.value.is_none() && child.children.is_empty()) {
                        proof {
                            child.lemma_view_parts();
                        }
                        let ghost child_model = child@;
                        self.children.insert(k, child);
                        proof {
                            self.lemma_view_parts();
                            assert(self@.children =~= old_self.children.insert(k, child_model));
                            assert(self@ =~= Tree { children: old_self.children.insert(k, child_model), ..old_self });
                        }
                    } else {
                        proof {
                            child.lemma_view_parts();
                            self.lemma_view_parts();
                            assert(self@.children =~= old_self.children.remove(k));
                            assert(self@ =~= Tree { children: old_self.children.remove(k), ..old_self });
                        }
                    }
                },
                None => {
                    proof {
                        self.lemma_view_parts();
                        assert(self.children@ =~= old(self).children@);
                        assert(self@.children =~= old_self.children);
                        assert(self@ =~= old_self);
                    }
                    return Err(PatriciaError::NodeNotFound);
                },
            }
        }
        self.merge_single_child();
        Ok(())
    }

    /// Removes the value under `key`. On a valid tree it is refused with
    /// `NodeNotFound`, changing nothing, exactly when the key holds no value;
    /// otherwise the key holds nothing afterwards and every other key holds
    /// what it held.
    pub fn remove(&mut self, key: &[u8]) -> (result: Result<(), PatriciaError>)
        ensures
            valid_tree(old(self)@) ==> {
                &&& valid_tree(final(self)@)
                &&& (result is Err <==> get_exact(old(self)@, key@) is None)
                &&& result is Err ==> result == Err::<(), PatriciaError>(PatriciaError::NodeNotFound) && final(self)@ == old(self)@
                &&& result is Ok ==> removed(old(self)@, final(self)@, key@)
            },
    {
        let ghost before = self@;
        let result = self.remove_node(key);
        proof {
            if valid_tree(before) {
                law_remove(before, key@);
            }
        }
        result
    }
}

/// Keys in increasing order are all different.
proof fn lemma_increasing_keys_distinct(keys: Seq<u8>)
    requires
        increasing_seq(keys),
    ensures
        forall|i: int, j: int| 0 <= i < j < keys.len() ==> keys[i] != keys[j],
{
    assert forall|i: int, j: int| 0 <= i < j < keys.len() implies keys[i] != keys[j] by {
        assert(keys[i].cmp_spec(&keys[j]) is Less);
    }
}

impl<V: Clone> Clone for PatriciaNode<V> {
    /// A copy of the whole tree below this node, with each value cloned.
    fn clone(&self) -> (copy: Self)
        ensures
            tree_cloned(self@, copy@),
        decreases self,
    {
        proof {
            self.lemma_view_parts();
        }
        let mut children: BTreeMap<u8, PatriciaNode<V>> = BTreeMap::new();
        let entries = self.children.iter();
        let ghost v = vstd::std_specs::btree::spec_btree_map_iter(&self.children).remaining();
        let ghost mut done: int = 0;
        proof {
            let ks = v.map_values(|kv: (&u8, &PatriciaNode<V>)| *kv.0);
            assert(increasing_seq(ks));
            lemma_increasing_keys_distinct(ks);
            assert forall|i: int, j: int| 0 <= i < j < v.len() implies *v[i].0 != *v[j].0 by {
                assert(ks[i] != ks[j]);
            }
        }
        for entry in it: entries
            invariant
                v == vstd::std_specs::btree::spec_btree_map_iter(&self.children).remaining(),
                it.seq() == v,
                done == it.index(),
                forall|i: int, j: int| 0 <= i < j < v.len() ==> *v[i].0 != *v[j].0,
                children@.dom() =~= Set::new(|k: u8| exists|i: int| 0 <= i < done && *v[i].0 == k),
                forall|i: int| 0 <= i < done ==> #[trigger] tree_cloned((*v[i].1)@, children@[*v[i].0]@),
        {
            let (k, child) = entry;
            proof {
                assert(entry == it.seq()[it.index()]);
                assert(self.children@.contains_key(*k));
                assert(self.children@[*k] == *child);
            }
            let child_copy = child.clone();
            children.insert(*k, child_copy);
            proof {
                done = done + 1;
            }
        }
        assert(done == v.len());
        let copy = PatriciaNode { label: self.label.clone(), children, value: self.value.clone() };
        proof {
            copy.lemma_view_parts();
            assert(copy@.label =~= self@.label);
            assert forall|k: u8| #[trigger] copy@.children.dom().contains(k) <==> self@.children.dom().contains(k) by {
                if self.children@.contains_key(k) {
                    assert(v.contains((&k, &self.children@[k])));
                    let i = choose|i: int| 0 <= i < v.len() && v[i] == (&k, &self.children@[k]);
                    assert(*v[i].0 == k);
                }
                if copy.children@.contains_key(k) {
                    let i = choose|i: int| 0 <= i < done && *v[i].0 == k;
                    assert(self.children@.contains_key(*v[i].0));
                }
            }
            assert(copy@.children.dom() =~= self@.children.dom());
            assert forall|k: u8| #[trigger] self@.children.contains_key(k) implies tree_cloned(self@.children[k], copy@.children[k]) by {
                let i = choose|i: int| 0 <= i < done && *v[i].0 == k;
                assert(self.children@[*v[i].0] == *v[i].1);
            }
        }
        copy
    }
}

} // verus!

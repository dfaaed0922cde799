use patricia_tree::label::IntoLabel;
use patricia_tree::node::{PatriciaError, PatriciaNode};

fn s(text: &str) -> String {
    text.to_string()
}

fn tree_of(keys: &[&str]) -> PatriciaNode<String> {
    let mut node = PatriciaNode::new();
    for key in keys {
        node.insert(key.as_bytes(), &s(key)).unwrap();
    }
    node
}

#[test]
fn empty_tree_finds_nothing() {
    let node: PatriciaNode<String> = PatriciaNode::new();
    assert_eq!(node.search(b""), None);
    assert_eq!(node.search(b"a"), None);
    assert_eq!(node.search(b"tea"), None);
    assert_eq!(node.label(), b"");
    assert!(node.children().is_empty());
    assert_eq!(node.value(), None);
}

#[test]
fn search_gives_back_each_written_value() {
    let keys = ["romane", "romanus", "romulus", "rubens", "ruber", "rubicon", "rubicundus"];
    let node = tree_of(&keys);
    for key in keys {
        assert_eq!(node.search(key.as_bytes()), Some(s(key)));
    }
    assert_eq!(node.search(b"rom"), None);
    assert_eq!(node.search(b"rubicons"), None);
}

#[test]
fn insert_of_existing_key_is_refused_and_changes_nothing() {
    let mut node = tree_of(&["tea", "team", "teapot"]);
    let before = node.clone();
    assert_eq!(node.insert(b"team", &s("other")), Err(PatriciaError::AlreadyExists));
    assert_eq!(node, before);
    assert_eq!(node.search(b"team"), Some(s("team")));
}

#[test]
fn refused_update_changes_nothing() {
    let mut node = tree_of(&["tea", "team"]);
    let before = node.clone();
    assert_eq!(node.update(b"unknown", &s("x")), Err(PatriciaError::NodeNotFound));
    assert_eq!(node, before);
}

#[test]
fn update_of_stored_key_replaces_only_its_value() {
    let mut node = tree_of(&["t", "tea", "team", "teapot", "teapod"]);
    assert_eq!(node.update(b"teapot", &s("new")), Ok(()));
    assert_eq!(node.search(b"teapot"), Some(s("new")));
    for key in ["t", "tea", "team", "teapod"] {
        assert_eq!(node.search(key.as_bytes()), Some(s(key)));
    }
    assert_eq!(node.upsert(b"team", &s("newer")), Ok(()));
    assert_eq!(node.search(b"team"), Some(s("newer")));
}

#[test]
fn upsert_of_new_key_inserts_it() {
    let mut node = tree_of(&["tea", "team"]);
    assert_eq!(node.upsert(b"teapot", &s("teapot")), Ok(()));
    assert_eq!(node.search(b"teapot"), Some(s("teapot")));
    assert_eq!(node.search(b"tea"), Some(s("tea")));
    assert_eq!(node.search(b"team"), Some(s("team")));
}

#[test]
fn remove_of_stored_key_keeps_the_others() {
    let keys = ["t", "tea", "team", "teapot", "teapod", "ten"];
    let mut node = tree_of(&keys);
    assert_eq!(node.remove(b"teapot"), Ok(()));
    assert_eq!(node.search(b"teapot"), None);
    for key in ["t", "tea", "team", "teapod", "ten"] {
        assert_eq!(node.search(key.as_bytes()), Some(s(key)));
    }
    assert_eq!(node.remove(b"ten"), Ok(()));
    assert_eq!(node.search(b"ten"), None);
    for key in ["t", "tea", "team", "teapod"] {
        assert_eq!(node.search(key.as_bytes()), Some(s(key)));
    }
}

#[test]
fn removing_the_last_child_merges_labels() {
    let mut node = tree_of(&["te", "tea"]);
    assert_eq!(node.remove(b"te"), Ok(()));
    assert_eq!(node.label(), b"tea");
    assert_eq!(node.value(), Some(&s("tea")));
    assert!(node.children().is_empty());
}

#[test]
fn remove_refused_when_key_stops_inside_a_label() {
    let mut node = tree_of(&["tea"]);
    let before = node.clone();
    assert_eq!(node.remove(b"te"), Err(PatriciaError::NodeNotFound));
    assert_eq!(node, before);
}

#[test]
fn empty_key_on_new_node_is_stored() {
    let mut node: PatriciaNode<String> = PatriciaNode::new();
    assert_eq!(node.insert(b"", &s("x")), Ok(()));
    assert_eq!(node.search(b""), Some(s("x")));
    assert_eq!(node.insert(b"", &s("y")), Err(PatriciaError::AlreadyExists));
    assert_eq!(node.upsert(b"", &s("y")), Ok(()));
    assert_eq!(node.search(b""), Some(s("y")));
    assert_eq!(node.search(b"a"), None);
}

#[test]
fn key_ending_inside_a_label_holds_nothing() {
    let node = tree_of(&["tea"]);
    assert_eq!(node.search(b"te"), None);
    let node = tree_of(&["tea", "team", "t", "teapot", "teapod"]);
    assert_eq!(node.search(b"te"), None);
    assert_eq!(node.search(b"tem"), None);
    assert_eq!(node.search(b"teapo"), None);
    assert_eq!(node.search(b"tz"), None);
}

#[test]
fn key_with_no_shared_first_byte_splits_the_root() {
    let mut node = tree_of(&["tea", "team"]);
    assert_eq!(node.upsert(b"unknown", &s("unknown")), Ok(()));
    assert_eq!(node.label(), b"");
    assert_eq!(node.children().len(), 2);
    assert_eq!(node.search(b"tea"), Some(s("tea")));
    assert_eq!(node.search(b"team"), Some(s("team")));
    assert_eq!(node.search(b"unknown"), Some(s("unknown")));
}

#[test]
fn keys_with_different_first_bytes_are_all_found() {
    let mut node = tree_of(&["tea", "xyz"]);
    assert_eq!(node.search(b"tea"), Some(s("tea")));
    assert_eq!(node.search(b"xyz"), Some(s("xyz")));
    assert_eq!(node.remove(b"xyz"), Ok(()));
    assert_eq!(node.search(b"xyz"), None);
    assert_eq!(node.search(b"tea"), Some(s("tea")));
}

#[test]
fn remove_below_a_root_with_an_empty_label() {
    let mut node = PatriciaNode::new_with_label_and_value(b"tea", &s("tea"));
    assert_eq!(node.insert(b"x", &s("x")), Ok(()));
    assert_eq!(node.label(), b"");
    assert_eq!(node.remove(b"x"), Ok(()));
    assert_eq!(node.search(b"x"), None);
    assert_eq!(node.search(b"tea"), Some(s("tea")));
}

#[test]
fn insert_at_a_branch_without_value() {
    let mut node = tree_of(&["tea", "team", "t", "teapot", "teapod"]);
    assert_eq!(node.insert(b"teapo", &s("teapo")), Ok(()));
    for key in ["teapo", "tea", "team", "t", "teapot", "teapod"] {
        assert_eq!(node.search(key.as_bytes()), Some(s(key)));
    }
}

#[test]
fn insert_after_everything_was_removed() {
    let mut node = tree_of(&["tea"]);
    assert_eq!(node.remove(b"tea"), Ok(()));
    assert_eq!(node.search(b"tea"), None);
    assert_eq!(node.insert(b"teapot", &s("teapot")), Ok(()));
    assert_eq!(node.search(b"teapot"), Some(s("teapot")));
    assert_eq!(node.search(b"pot"), None);
    assert_eq!(node.search(b"tea"), None);
}

#[test]
fn update_of_a_key_that_holds_nothing_is_refused() {
    let mut node = tree_of(&["tea", "team", "t", "teapot", "teapod"]);
    let before = node.clone();
    for key in ["tz", "te", "teapo", "x", "teapots"] {
        assert_eq!(node.update(key.as_bytes(), &s("x")), Err(PatriciaError::NodeNotFound));
        assert_eq!(node, before);
    }
}

#[test]
fn remove_of_a_key_that_holds_nothing_is_refused() {
    let mut node = tree_of(&["tea", "team", "t", "teapot", "teapod"]);
    let before = node.clone();
    for key in ["tz", "tm", "tem", "te", "teapo", "x", ""] {
        assert_eq!(node.remove(key.as_bytes()), Err(PatriciaError::NodeNotFound));
        assert_eq!(node, before);
    }
    assert_eq!(node.search(b"team"), Some(s("team")));
}

#[test]
fn upsert_of_the_same_value_again_keeps_contents() {
    let keys = ["tea", "team", "t", "teapot", "teapod"];
    let mut node = tree_of(&keys);
    let before = node.clone();
    assert_eq!(node.upsert(b"teapot", &s("teapot")), Ok(()));
    for key in keys {
        assert_eq!(node.search(key.as_bytes()), Some(s(key)));
    }
    assert_eq!(node, before);
}

#[test]
fn same_keys_in_any_order_give_the_same_tree() {
    let keys = ["romane", "romanus", "romulus", "rubens", "ruber", "rubicon", "rubicundus"];
    let forward = tree_of(&keys);
    let mut reversed = keys;
    reversed.reverse();
    assert_eq!(tree_of(&reversed), forward);
    assert_eq!(tree_of(&["ruber", "romane", "rubicundus", "romulus", "rubens", "romanus", "rubicon"]), forward);
}

#[test]
fn two_inserts_commute() {
    let mut one = tree_of(&["tea", "team"]);
    let mut other = one.clone();
    assert_eq!(one.insert(b"teapot", &s("teapot")), Ok(()));
    assert_eq!(one.insert(b"t", &s("t")), Ok(()));
    assert_eq!(other.insert(b"t", &s("t")), Ok(()));
    assert_eq!(other.insert(b"teapot", &s("teapot")), Ok(()));
    assert_eq!(one, other);
}

#[test]
fn new_nodes_hold_what_they_are_given() {
    let node: PatriciaNode<String> = PatriciaNode::new_with_label(b"abc");
    assert_eq!(node.label(), b"abc");
    assert_eq!(node.value(), None);
    let node = PatriciaNode::new_with_label_and_value(b"abc", &s("v"));
    assert_eq!(node.label(), b"abc");
    assert_eq!(node.value(), Some(&s("v")));
    assert!(node.children().is_empty());
}

#[test]
fn clone_is_equal() {
    let node = tree_of(&["t", "tea", "team", "teapot"]);
    let copy = node.clone();
    assert_eq!(copy, node);
    assert_eq!(copy.search(b"teapot"), Some(s("teapot")));
}

#[test]
fn labels_from_strings_and_bytes() {
    assert_eq!(&*"tea".into_label(), b"tea");
    assert_eq!(&*String::from("teapot").into_label(), b"teapot");
    let mut bytes = "team".bytes();
    bytes.next();
    assert_eq!(&*bytes.into_label(), b"eam");
    assert_eq!(&*"ü".into_label(), "ü".as_bytes());
}

#[test]
fn remove_undoes_insert() {
    let mut node = tree_of(&["tea", "team"]);
    let before = node.clone();
    assert_eq!(node.insert(b"teapot", &s("teapot")), Ok(()));
    assert_eq!(node.remove(b"teapot"), Ok(()));
    assert_eq!(node.search(b"tea"), Some(s("tea")));
    assert_eq!(node.search(b"team"), Some(s("team")));
    assert_eq!(node.search(b"teapot"), None);
    assert_eq!(node, before);
}

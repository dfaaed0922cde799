use patricia_tree::node::{PatriciaError, PatriciaNode};

/// The shape a node is expected to have: label, value and children.
struct Shape {
    label: Vec<u8>,
    value: Option<String>,
    children: Vec<(u8, Shape)>,
}

fn shape(label: &[u8], value: Option<&String>, children: Vec<(u8, Shape)>) -> Shape {
    Shape { label: label.to_vec(), value: value.cloned(), children }
}

fn assert_shape(node: &PatriciaNode<String>, expected: &Shape) {
    assert_eq!(node.label(), expected.label.as_slice());
    assert_eq!(node.value(), expected.value.as_ref());
    assert_eq!(node.children().len(), expected.children.len());
    for (key, child_shape) in &expected.children {
        let child = node.children().get(key).expect("missing child");
        assert_shape(child, child_shape);
    }
}

fn build() -> (PatriciaNode<String>, [String; 5]) {
    let mut node = PatriciaNode::new();
    let tea = String::from("tea");
    node.insert(tea.as_bytes(), &tea).unwrap();
    let team = String::from("team");
    node.insert(team.as_bytes(), &team).unwrap();
    let t = String::from("t");
    node.insert(t.as_bytes(), &t).unwrap();
    let teapot = String::from("teapot");
    node.insert(teapot.as_bytes(), &teapot).unwrap();
    let teapod = String::from("teapod");
    node.insert(teapod.as_bytes(), &teapod).unwrap();
    (node, [tea, team, t, teapot, teapod])
}

#[test]
fn test_insert() {
    let mut node = PatriciaNode::new();

    assert_shape(&node, &shape(&[], None, vec![]));

    let tea = String::from("tea");
    let result = node.insert(tea.as_bytes(), &tea);
    assert!(result.is_ok());
    assert_shape(&node, &shape(tea.as_bytes(), Some(&tea), vec![]));

    let team = String::from("team");
    let result = node.insert(team.as_bytes(), &team);
    assert!(result.is_ok());
    assert_shape(
        &node,
        &shape(tea.as_bytes(), Some(&tea), vec![(b'm', shape(&[b'm'], Some(&team), vec![]))]),
    );

    let t = String::from("t");
    let result = node.insert(t.as_bytes(), &t);
    assert!(result.is_ok());
    assert_shape(
        &node,
        &shape(
            &[b't'],
            Some(&t),
            vec![(
                b'e',
                shape(&[b'e', b'a'], Some(&tea), vec![(b'm', shape(&[b'm'], Some(&team), vec![]))]),
            )],
        ),
    );

    let teapot = String::from("teapot");
    let result = node.insert(teapot.as_bytes(), &teapot);
    assert!(result.is_ok());
    assert_shape(
        &node,
        &shape(
            &[b't'],
            Some(&t),
            vec![(
                b'e',
                shape(
                    &[b'e', b'a'],
                    Some(&tea),
                    vec![
                        (b'm', shape(&[b'm'], Some(&team), vec![])),
                        (b'p', shape(&[b'p', b'o', b't'], Some(&teapot), vec![])),
                    ],
                ),
            )],
        ),
    );

    let teapod = String::from("teapod");
    let result = node.insert(teapod.as_bytes(), &teapod);
    assert!(result.is_ok());
    assert_shape(
        &node,
        &shape(
            &[b't'],
            Some(&t),
            vec![(
                b'e',
                shape(
                    &[b'e', b'a'],
                    Some(&tea),
                    vec![
                        (b'm', shape(&[b'm'], Some(&team), vec![])),
                        (
                            b'p',
                            shape(
                                &[b'p', b'o'],
                                None,
                                vec![
                                    (b't', shape(&[b't'], Some(&teapot), vec![])),
                                    (b'd', shape(&[b'd'], Some(&teapod), vec![])),
                                ],
                            ),
                        ),
                    ],
                ),
            )],
        ),
    );

    let result = node.insert(teapot.as_bytes(), &teapot);
    assert!(result.is_err());
    assert_eq!(result.unwrap_err(), PatriciaError::AlreadyExists);
}

#[test]
fn test_update() {
    let (mut node, [tea, ..]) = build();

    let new_tea = String::from("new_tea");
    let result = node.update(tea.as_bytes(), &new_tea);
    assert!(result.is_ok());

    let new_unknown = String::from("new_unknown");
    let result = node.update(b"unknown", &new_unknown);
    assert!(result.is_err());
    assert_eq!(result.unwrap_err(), PatriciaError::NodeNotFound);
}

#[test]
fn test_upsert() {
    let (mut node, [tea, ..]) = build();

    let new_tea = String::from("new_tea");
    let result = node.upsert(tea.as_bytes(), &new_tea);
    assert!(result.is_ok());

    let new_unknown = String::from("new_unknown");
    let result = node.upsert(b"unknown", &new_unknown);
    assert!(result.is_ok());
}

#[test]
fn test_search() {
    let (node, [tea, team, t, teapot, teapod]) = build();

    assert_eq!(node.search(b"tea"), Some(tea.clone()));
    assert_eq!(node.search(b"team"), Some(team.clone()));
    assert_eq!(node.search(b"t"), Some(t.clone()));
    assert_eq!(node.search(b"teapot"), Some(teapot.clone()));
    assert_eq!(node.search(b"teapod"), Some(teapod.clone()));
    assert_eq!(node.search(b"teaa"), None);
    assert_eq!(node.search(b"unknown"), None);
}

#[test]
fn test_remove() {
    let (mut node, [tea, team, t, teapot, teapod]) = build();

    let full = shape(
        &[b't'],
        Some(&t),
        vec![(
            b'e',
            shape(
                &[b'e', b'a'],
                Some(&tea),
                vec![
                    (b'm', shape(&[b'm'], Some(&team), vec![])),
                    (
                        b'p',
                        shape(
                            &[b'p', b'o'],
                            None,
                            vec![
                                (b't', shape(&[b't'], Some(&teapot), vec![])),
                                (b'd', shape(&[b'd'], Some(&teapod), vec![])),
                            ],
                        ),
                    ),
                ],
            ),
        )],
    );
    assert_shape(&node, &full);

    let result = node.remove(b"teapot");
    assert!(result.is_ok());
    assert_shape(
        &node,
        &shape(
            &[b't'],
            Some(&t),
            vec![(
                b'e',
                shape(
                    &[b'e', b'a'],
                    Some(&tea),
                    vec![
                        (b'm', shape(&[b'm'], Some(&team), vec![])),
                        (b'p', shape(&[b'p', b'o', b'd'], Some(&teapod), vec![])),
                    ],
                ),
            )],
        ),
    );

    let after_t = || {
        shape(
            &[b't', b'e', b'a'],
            Some(&tea),
            vec![
                (b'm', shape(&[b'm'], Some(&team), vec![])),
                (b'p', shape(&[b'p', b'o', b'd'], Some(&teapod), vec![])),
            ],
        )
    };
    let result = node.remove(b"t");
    assert!(result.is_ok());
    assert_shape(&node, &after_t());

    let result = node.remove(b"t");
    assert!(result.is_err());
    assert_eq!(result.unwrap_err(), PatriciaError::NodeNotFound);
    assert_shape(&node, &after_t());

    let after_tea = || {
        shape(
            &[b't', b'e', b'a'],
            None,
            vec![
                (b'm', shape(&[b'm'], Some(&team), vec![])),
                (b'p', shape(&[b'p', b'o', b'd'], Some(&teapod), vec![])),
            ],
        )
    };
    let result = node.remove(b"tea");
    assert!(result.is_ok());
    assert_shape(&node, &after_tea());

    let result = node.remove(b"unknown");
    assert!(result.is_err());
    assert_eq!(result.unwrap_err(), PatriciaError::NodeNotFound);
    assert_shape(&node, &after_tea());
}

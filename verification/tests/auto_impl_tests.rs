use patricia_tree::auto_impl::common::{
    gen_all_types, parse_ident_from_expr, parse_type_from_expr, AttrError, AttrErrorKind, ExprShape,
    IdentPlan, TypeChoice, TypeKey, TypePlan,
};
use patricia_tree::auto_impl::convert::{attr_arg, generate_auto_try_from, AttrArg, AutoTryFromAttrs};

fn chars(s: &str) -> Vec<char> {
    s.chars().collect()
}

fn path(segments: usize) -> ExprShape {
    ExprShape::Path { segments }
}

fn string(s: &str) -> ExprShape {
    ExprShape::StrLit { text: chars(s) }
}

fn reference(inner: ExprShape) -> ExprShape {
    ExprShape::Reference { inner: Box::new(inner) }
}

fn array(elems: Vec<ExprShape>) -> ExprShape {
    ExprShape::Array { elems }
}

fn repeat(elem: ExprShape) -> ExprShape {
    ExprShape::Repeat { elem: Box::new(elem) }
}

fn other_type(text: &str) -> TypeKey {
    TypeKey::Other { text: chars(text) }
}

fn ref_type(elem: TypeKey) -> TypeKey {
    TypeKey::Reference { modifiers: Vec::new(), elem: Box::new(elem) }
}

fn render(key: &TypeKey) -> String {
    match key {
        TypeKey::Reference { modifiers, elem } => {
            format!("&{}{}", modifiers.iter().collect::<String>(), render(elem))
        }
        TypeKey::Other { text } => text.iter().collect(),
    }
}

fn render_choice(types: &[TypeKey], choice: &TypeChoice) -> String {
    match *choice {
        TypeChoice::Source(i) => render(&types[i]),
        TypeChoice::ReferenceTo(i) => format!("&{}", render(&types[i])),
    }
}

fn rendered(types: &Vec<TypeKey>) -> Vec<String> {
    let all = gen_all_types(types).unwrap();
    all.iter().map(|c| render_choice(types, c)).collect()
}

#[test]
fn test_parse_ident_from_expr() {
    let result = parse_ident_from_expr(&string("MyMethod"));
    assert!(result.is_ok());
    assert_eq!(result.unwrap(), IdentPlan::FromText);

    let result = parse_ident_from_expr(&path(1));
    assert!(result.is_ok());
    assert_eq!(result.unwrap(), IdentPlan::FromPath);

    // 123
    assert!(parse_ident_from_expr(&ExprShape::OtherLit).is_err());
    // [u8; 2]
    assert!(parse_ident_from_expr(&repeat(path(1))).is_err());
    assert!(parse_ident_from_expr(&string("invalid identifier!")).is_err());
    // 42
    assert!(parse_ident_from_expr(&ExprShape::OtherLit).is_err());
    // std::io::Error
    assert!(parse_ident_from_expr(&path(3)).is_err());
    assert!(parse_ident_from_expr(&string("")).is_err());
    assert!(parse_ident_from_expr(&string("123invalid")).is_err());
    // 3.14
    assert!(parse_ident_from_expr(&ExprShape::OtherLit).is_err());
    // true
    assert!(parse_ident_from_expr(&ExprShape::OtherLit).is_err());
    // 1 + 2
    assert!(parse_ident_from_expr(&ExprShape::Other).is_err());
}

#[test]
fn test_parse_type_from_expr() {
    // MyType
    assert_eq!(parse_type_from_expr(&path(1)).unwrap(), TypePlan::Path);
    // &MyRefType
    assert_eq!(
        parse_type_from_expr(&reference(path(1))).unwrap(),
        TypePlan::Reference(Box::new(TypePlan::Path))
    );
    // &[u8]
    assert_eq!(
        parse_type_from_expr(&reference(array(vec![path(1)]))).unwrap(),
        TypePlan::SliceReference(Box::new(TypePlan::Path))
    );
    // [u8; 2]
    assert_eq!(parse_type_from_expr(&repeat(path(1))).unwrap(), TypePlan::Array);

    assert!(parse_type_from_expr(&string("Vec<u8>")).is_ok());
    assert!(parse_type_from_expr(&string("literal")).is_err());
    // ["literal"; 2]
    assert!(parse_type_from_expr(&repeat(string("literal"))).is_err());
    // 123
    assert!(parse_type_from_expr(&ExprShape::OtherLit).is_err());
    // 3.14
    assert!(parse_type_from_expr(&ExprShape::OtherLit).is_err());
    // true
    assert!(parse_type_from_expr(&ExprShape::OtherLit).is_err());
    assert!(parse_type_from_expr(&string("invalid_type")).is_err());
    assert!(parse_type_from_expr(&string("")).is_err());
    // 1 + 2
    assert!(parse_type_from_expr(&ExprShape::Other).is_err());
}

#[test]
fn test_gen_all_types() {
    let types = vec![other_type("MyType"), ref_type(other_type("MyType")), ref_type(other_type("MyRefType"))];
    let all = rendered(&types);
    assert_eq!(all.len(), 3);
    assert!(all.contains(&"MyType".to_string()));
    assert!(all.contains(&"&MyRefType".to_string()));
    assert!(all.contains(&"&MyType".to_string()));

    let types = vec![other_type("MyType"), other_type("MyType"), ref_type(other_type("MyType"))];
    let all = rendered(&types);
    assert_eq!(all.len(), 2);
    assert!(all.contains(&"MyType".to_string()));
    assert!(all.contains(&"&MyType".to_string()));

    let types: Vec<TypeKey> = vec![];
    assert_eq!(rendered(&types).len(), 0);

    let types = vec![ref_type(other_type("str")), ref_type(other_type("[u8]"))];
    let all = rendered(&types);
    assert_eq!(all.len(), 2);
    assert!(all.contains(&"&str".to_string()));
    assert!(all.contains(&"&[u8]".to_string()));
}

fn attrs_with(method: Option<ExprShape>, error: Option<ExprShape>, types: Option<Vec<TypeKey>>) -> AutoTryFromAttrs {
    let mut attrs = AutoTryFromAttrs::new();
    if let Some(m) = method {
        attrs.take_method(&m).unwrap();
    }
    if let Some(e) = error {
        attrs.take_error(&e).unwrap();
    }
    if let Some(t) = types {
        attrs.take_types(t);
    }
    attrs
}

#[test]
fn test_generate_auto_try_from() {
    // method = try_from_bytes, error = HardwareTypeError, types = [&[u8], [u8; 2], Vec<u8>, Box<[u8]>]
    let types = vec![
        ref_type(other_type("[u8]")),
        other_type("[u8 ; 2]"),
        other_type("Vec < u8 >"),
        other_type("Box < [u8] >"),
    ];
    let attrs = attrs_with(Some(path(1)), Some(path(1)), Some(types));
    let result = generate_auto_try_from(&attrs);
    assert!(result.is_ok());
    let all: Vec<String> = result.unwrap().iter().map(|c| render_choice(&attrs.sources, c)).collect();
    assert!(all.contains(&"&[u8]".to_string()));
    assert!(all.contains(&"[u8 ; 2]".to_string()));
    assert!(all.contains(&"&[u8 ; 2]".to_string()));
    assert!(all.contains(&"Vec < u8 >".to_string()));
    assert!(all.contains(&"Box < [u8] >".to_string()));
    assert_eq!(all.len(), 7);

    // #[auto_try_from()]
    assert!(generate_auto_try_from(&attrs_with(None, None, None)).is_err());
    // method only
    assert!(generate_auto_try_from(&attrs_with(Some(path(1)), None, None)).is_err());
    // error only
    assert!(generate_auto_try_from(&attrs_with(None, Some(path(1)), None)).is_err());
    // types only
    assert!(generate_auto_try_from(&attrs_with(None, None, Some(vec![other_type("u8")]))).is_err());
    // unknown_param = value
    assert_eq!(
        attr_arg(&chars("unknown_param")),
        Err(AttrError { kind: AttrErrorKind::UnknownAttribute, depth: 0 })
    );
}

#[test]
fn missing_arguments_are_named_in_order() {
    let err = generate_auto_try_from(&attrs_with(None, None, None)).unwrap_err();
    assert_eq!(err, AttrError { kind: AttrErrorKind::MissingMethod, depth: 0 });
    let err = generate_auto_try_from(&attrs_with(Some(path(1)), None, None)).unwrap_err();
    assert_eq!(err, AttrError { kind: AttrErrorKind::MissingError, depth: 0 });
}

#[test]
fn attribute_names_are_recognised() {
    assert_eq!(attr_arg(&chars("method")), Ok(AttrArg::Method));
    assert_eq!(attr_arg(&chars("error")), Ok(AttrArg::Error));
    assert_eq!(attr_arg(&chars("types")), Ok(AttrArg::Types));
    assert_eq!(
        attr_arg(&chars("Method")).unwrap_err().kind,
        AttrErrorKind::UnknownAttribute
    );
}

#[test]
fn ident_errors_carry_their_kind() {
    assert_eq!(
        parse_ident_from_expr(&string("123invalid")).unwrap_err(),
        AttrError { kind: AttrErrorKind::InvalidIdentifierText, depth: 0 }
    );
    assert_eq!(
        parse_ident_from_expr(&ExprShape::OtherLit).unwrap_err(),
        AttrError { kind: AttrErrorKind::ExpectedStringLiteral, depth: 0 }
    );
    assert_eq!(
        parse_ident_from_expr(&path(2)).unwrap_err(),
        AttrError { kind: AttrErrorKind::ExpectedSingleIdentifier, depth: 0 }
    );
    assert_eq!(parse_ident_from_expr(&string("r#type")).unwrap(), IdentPlan::FromText);
}

#[test]
fn type_errors_carry_their_kind_and_depth() {
    assert_eq!(
        parse_type_from_expr(&repeat(string("literal"))).unwrap_err(),
        AttrError { kind: AttrErrorKind::ExpectedArrayElementPath, depth: 1 }
    );
    assert_eq!(
        parse_type_from_expr(&string("Vec<")).unwrap_err(),
        AttrError { kind: AttrErrorKind::TypeTextUnparsable, depth: 0 }
    );
    assert_eq!(
        parse_type_from_expr(&string("literal")).unwrap_err(),
        AttrError { kind: AttrErrorKind::NotATypeName, depth: 0 }
    );
    assert_eq!(
        parse_type_from_expr(&reference(reference(array(vec![ExprShape::Other])))).unwrap_err(),
        AttrError { kind: AttrErrorKind::UnsupportedTypeExpr, depth: 2 }
    );
    // A reference to a two-element array is a reference to an array expression.
    assert_eq!(
        parse_type_from_expr(&reference(array(vec![path(1), path(1)]))).unwrap_err(),
        AttrError { kind: AttrErrorKind::UnsupportedTypeExpr, depth: 1 }
    );
    assert_eq!(parse_type_from_expr(&string("Ärger")).unwrap_err().kind, AttrErrorKind::NotATypeName);
}

#[test]
fn reference_before_its_type_is_listed_once() {
    let types = vec![ref_type(other_type("MyType")), other_type("MyType")];
    let all = rendered(&types);
    assert_eq!(all, vec!["&MyType".to_string(), "MyType".to_string()]);
    let types = vec![other_type("MyType"), other_type("MyType"), ref_type(other_type("MyType"))];
    assert_eq!(rendered(&types), vec!["MyType".to_string(), "&MyType".to_string()]);
}

#[test]
fn references_with_lifetime_or_mut_are_other_types() {
    let types = vec![
        other_type("T"),
        TypeKey::Reference { modifiers: chars("|mut"), elem: Box::new(other_type("T")) },
    ];
    let all = rendered(&types);
    assert_eq!(all, vec!["T".to_string(), "&T".to_string(), "&|mutT".to_string()]);
}

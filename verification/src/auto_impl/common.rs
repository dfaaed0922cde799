//! Reading identifiers and types out of attribute expressions, and listing the
//! source types together with their reference types.
use vstd::prelude::*;

verus! {

/// What the derive reads of an expression written in its attribute.
pub enum ExprShape {
    /// A path with the given number of segments.
    Path { segments: usize },
    /// A reference expression `&inner`.
    Reference { inner: Box<ExprShape> },
    /// An array expression `[elems, ..]`.
    Array { elems: Vec<ExprShape> },
    /// A repeat expression `[elem; len]`.
    Repeat { elem: Box<ExprShape> },
    /// A string literal holding `text`.
    StrLit { text: Vec<char> },
    /// A literal of another kind.
    OtherLit,
    /// Any other expression.
    Other,
}

/// Where the identifier comes from.
#[derive(Debug, PartialEq, Eq, Structural)]
pub enum IdentPlan {
    /// The single segment of the path.
    FromPath,
    /// The text of the string literal, parsed as an identifier.
    FromText,
}

/// How the type is built from the expression.
#[derive(Debug, PartialEq, Eq)]
pub enum TypePlan {
    /// The expression's path, as a type path.
    Path,
    /// A shared reference to the type built from the referenced expression.
    Reference(Box<TypePlan>),
    /// A shared reference to a slice of the type built from the one element of
    /// the referenced array expression.
    SliceReference(Box<TypePlan>),
    /// An array of the repeat expression's element path, with its length.
    Array,
    /// The text of the string literal, parsed as a type.
    FromText,
}

/// Why an attribute could not be read.
#[derive(Debug, PartialEq, Eq, Structural)]
pub enum AttrErrorKind {
    /// A string literal whose text is not an identifier.
    InvalidIdentifierText,
    /// A literal that is not a string literal.
    ExpectedStringLiteral,
    /// An expression that is not a single identifier.
    ExpectedSingleIdentifier,
    /// A repeat expression whose element is not a path.
    ExpectedArrayElementPath,
    /// A string literal whose text is not taken for a type name.
    NotATypeName,
    /// A string literal whose text does not parse as a type.
    TypeTextUnparsable,
    /// An expression of a kind that does not describe a type.
    UnsupportedTypeExpr,
    /// The attribute names no `method`.
    MissingMethod,
    /// The attribute names no `error`.
    MissingError,
    /// The attribute names an argument it does not know.
    UnknownAttribute,
}

/// An error and how many steps below the expression it was found: a step goes
/// from a reference expression to what it references (to the single element
/// when that is a one-element array), or from a repeat expression to its element.
#[derive(Debug, PartialEq, Eq, Structural)]
pub struct AttrError {
    pub kind: AttrErrorKind,
    pub depth: usize,
}

/// Whether the text parses as an identifier (`syn::parse_str::<syn::Ident>`).
pub uninterp spec fn ident_text_parses(text: Seq<char>) -> bool;

/// Whether the text parses as a type (`syn::parse_str::<syn::Type>`).
pub uninterp spec fn type_text_parses(text: Seq<char>) -> bool;

/// Calls `syn::parse_str::<syn::Ident>` on the text and reports whether it parsed.
#[verifier::external_body]
fn text_parses_as_ident(text: &Vec<char>) -> (parses: bool)
    ensures
        parses == ident_text_parses(text@),
{
    let text: String = text.iter().collect();
    syn::parse_str::<syn::Ident>(&text).is_ok()
}

/// Calls `syn::parse_str::<syn::Type>` on the text and reports whether it parsed.
#[verifier::external_body]
fn text_parses_as_type(text: &Vec<char>) -> (parses: bool)
    ensures
        parses == type_text_parses(text@),
{
    let text: String = text.iter().collect();
    syn::parse_str::<syn::Type>(&text).is_ok()
}

/// An error found at the expression itself.
pub open spec fn error_here(kind: AttrErrorKind) -> AttrError {
    AttrError { kind, depth: 0 }
}

/// The same error, one step further below.
pub open spec fn one_step_down(e: AttrError) -> AttrError {
    AttrError { kind: e.kind, depth: if e.depth < usize::MAX { (e.depth + 1) as usize } else { e.depth } }
}

/// The identifier that an expression names: a one-segment path, or a string
/// literal whose text parses as an identifier.
pub open spec fn ident_plan(e: ExprShape) -> Result<IdentPlan, AttrError> {
    match e {
        ExprShape::Path { segments } => if segments == 1 {
            Ok(IdentPlan::FromPath)
        } else {
            Err(error_here(AttrErrorKind::ExpectedSingleIdentifier))
        },
        ExprShape::StrLit { text } => if ident_text_parses(text@) {
            Ok(IdentPlan::FromText)
        } else {
            Err(error_here(AttrErrorKind::InvalidIdentifierText))
        },
        ExprShape::OtherLit => Err(error_here(AttrErrorKind::ExpectedStringLiteral)),
        _ => Err(error_here(AttrErrorKind::ExpectedSingleIdentifier)),
    }
}

/// The word that a type-name string literal may not be.
pub open spec fn literal_word() -> Seq<char> {
    seq!['l', 'i', 't', 'e', 'r', 'a', 'l']
}

/// The text starts with an ASCII capital letter.
pub open spec fn starts_uppercase(text: Seq<char>) -> bool {
    text.len() > 0 && 'A' <= text[0] && text[0] <= 'Z'
}

/// The type that an expression describes: a path; a reference to a type (to a
/// slice when it references a one-element array); an array of a path element;
/// or a string literal that starts with a capital, is not `literal`, and parses
/// as a type.
pub open spec fn type_plan(e: ExprShape) -> Result<TypePlan, AttrError>
    decreases e,
{
    match e {
        ExprShape::Path { .. } => Ok(TypePlan::Path),
        ExprShape::Reference { inner } => {
            if (*inner is Array) && (*inner)->elems@.len() == 1 {
                match type_plan((*inner)->elems@[0]) {
                    Ok(p) => Ok(TypePlan::SliceReference(Box::new(p))),
                    Err(x) => Err(one_step_down(x)),
                }
            } else {
                match type_plan(*inner) {
                    Ok(p) => Ok(TypePlan::Reference(Box::new(p))),
                    Err(x) => Err(one_step_down(x)),
                }
            }
        },
        ExprShape::Repeat { elem } => if *elem is Path {
            Ok(TypePlan::Array)
        } else {
            Err(AttrError { kind: AttrErrorKind::ExpectedArrayElementPath, depth: 1 })
        },
        ExprShape::StrLit { text } => if text@ == literal_word() || !starts_uppercase(text@) {
            Err(error_here(AttrErrorKind::NotATypeName))
        } else if type_text_parses(text@) {
            Ok(TypePlan::FromText)
        } else {
            Err(error_here(AttrErrorKind::TypeTextUnparsable))
        },
        ExprShape::OtherLit => Err(error_here(AttrErrorKind::ExpectedStringLiteral)),
        ExprShape::Other => Err(error_here(AttrErrorKind::UnsupportedTypeExpr)),
        ExprShape::Array { .. } => Err(error_here(AttrErrorKind::UnsupportedTypeExpr)),
    }
}

/// Reads the identifier that an attribute expression names; see `ident_plan`.
pub fn parse_ident_from_expr(expr: &ExprShape) -> (plan: Result<IdentPlan, AttrError>)
    ensures
        plan == ident_plan(*expr),
{
    match expr {
        ExprShape::Path { segments } => {
            if *segments == 1 {
                Ok(IdentPlan::FromPath)
            } else {
                Err(AttrError { kind: AttrErrorKind::ExpectedSingleIdentifier, depth: 0 })
            }
        },
        ExprShape::StrLit { text } => {
            if text_parses_as_ident(text) {
                Ok(IdentPlan::FromText)
            } else {
                Err(AttrError { kind: AttrErrorKind::InvalidIdentifierText, depth: 0 })
            }
        },
        ExprShape::OtherLit => Err(AttrError { kind: AttrErrorKind::ExpectedStringLiteral, depth: 0 }),
        _ => Err(AttrError { kind: AttrErrorKind::ExpectedSingleIdentifier, depth: 0 }),
    }
}

/// Whether the text is exactly `literal`.
fn is_literal_word(text: &Vec<char>) -> (is_word: bool)
    ensures
        is_word == (text@ == literal_word()),
{
    let word: [char; 7] = ['l', 'i', 't', 'e', 'r', 'a', 'l'];
    if text.len() != 7 {
        return false;
    }
    let mut i: usize = 0;
    while i < 7
        invariant
            text@.len() == 7,
            word@ == literal_word(),
            i <= 7,
            forall|j: int| 0 <= j < i ==> text@[j] == literal_word()[j],
        decreases 7 - i,
    {
        if text[i] != word[i] {
            return false;
        }
        i = i + 1;
    }
    assert(text@ =~= literal_word());
    true
}

/// Adds one step to the depth at which an error was found.
fn step_down(e: AttrError) -> (deeper: AttrError)
    ensures
        deeper == one_step_down(e),
{
    AttrError { kind: e.kind, depth: e.depth.saturating_add(1) }
}

/// Reads the type that an attribute expression describes; see `type_plan`.
pub fn parse_type_from_expr(expr: &ExprShape) -> (plan: Result<TypePlan, AttrError>)
    ensures
        plan == type_plan(*expr),
    decreases expr,
{
    match expr {
        ExprShape::Path { .. } => Ok(TypePlan::Path),
        ExprShape::Reference { inner } => {
            match &**inner {
                ExprShape::Array { elems } if elems.len() == 1 => {
                    match parse_type_from_expr(&elems[0]) {
                        Ok(p) => Ok(TypePlan::SliceReference(Box::new(p))),
                        Err(x) => Err(step_down(x)),
                    }
                },
                target => {
                    match parse_type_from_expr(target) {
                        Ok(p) => Ok(TypePlan::Reference(Box::new(p))),
                        Err(x) => Err(step_down(x)),
                    }
                },
            }
        },
        ExprShape::Repeat { elem } => {
            match &**elem {
                ExprShape::Path { .. } => Ok(TypePlan::Array),
                _ => Err(AttrError { kind: AttrErrorKind::ExpectedArrayElementPath, depth: 1 }),
            }
        },
        ExprShape::StrLit { text } => {
            let first_is_upper = text.len() > 0 && 'A' <= text[0] && text[0] <= 'Z';
            if is_literal_word(text) || !first_is_upper {
                return Err(AttrError { kind: AttrErrorKind::NotATypeName, depth: 0 });
            }
            if text_parses_as_type(text) {
                Ok(TypePlan::FromText)
            } else {
                Err(AttrError { kind: AttrErrorKind::TypeTextUnparsable, depth: 0 })
            }
        },
        ExprShape::OtherLit => Err(AttrError { kind: AttrErrorKind::ExpectedStringLiteral, depth: 0 }),
        _ => Err(AttrError { kind: AttrErrorKind::UnsupportedTypeExpr, depth: 0 }),
    }
}

/// A type as the derive compares it: a reference, with the text of its
/// lifetime and `mut` (empty for a plain `&T`) and the type it refers to; or
/// any other type, by the text of its tokens.
pub enum TypeKey {
    Reference { modifiers: Vec<char>, elem: Box<TypeKey> },
    Other { text: Vec<char> },
}

/// An entry of the list of source types: a type of the attribute's list, or a
/// plain shared reference to one.
#[derive(Clone, Copy, Debug, PartialEq, Eq, Structural)]
pub enum TypeChoice {
    Source(usize),
    ReferenceTo(usize),
}

/// Two types are the same type.
pub open spec fn same_key(a: TypeKey, b: TypeKey) -> bool
    decreases a,
{
    match a {
        TypeKey::Reference { modifiers: m1, elem: e1 } => match b {
            TypeKey::Reference { modifiers: m2, elem: e2 } => m1@ == m2@ && same_key(*e1, *e2),
            TypeKey::Other { .. } => false,
        },
        TypeKey::Other { text: t1 } => match b {
            TypeKey::Other { text: t2 } => t1@ == t2@,
            TypeKey::Reference { .. } => false,
        },
    }
}

/// `t` is the same type as a plain shared reference to `target`.
pub open spec fn is_plain_reference_to(t: TypeKey, target: TypeKey) -> bool {
    &&& t is Reference
    &&& t->modifiers@.len() == 0
    &&& same_key(target, *t->elem)
}

/// The entry `c`, read against `keys`, is the same type as `t`.
pub open spec fn choice_matches(keys: Seq<TypeKey>, c: TypeChoice, t: TypeKey) -> bool {
    match c {
        TypeChoice::Source(i) => same_key(keys[i as int], t),
        TypeChoice::ReferenceTo(i) => is_plain_reference_to(t, keys[i as int]),
    }
}

/// Some entry of `list`, read against `keys`, is the same type as `t`.
pub open spec fn listed(keys: Seq<TypeKey>, list: Seq<TypeChoice>, t: TypeKey) -> bool {
    exists|j: int| 0 <= j < list.len() && #[trigger] choice_matches(keys, list[j], t)
}

/// The list that the first `n` types of `keys` give: each type in turn is
/// skipped when the list already holds the same type; otherwise it is added,
/// followed by a plain shared reference to it when it is not a reference and
/// the list does not hold that reference already.
pub open spec fn all_types_upto(keys: Seq<TypeKey>, n: nat) -> Seq<TypeChoice>
    decreases n,
{
    if n == 0 {
        Seq::empty()
    } else {
        let prev = all_types_upto(keys, (n - 1) as nat);
        let i = (n - 1) as usize;
        if listed(keys, prev, keys[i as int]) {
            prev
        } else if keys[i as int] is Reference || reference_listed(keys, prev, keys[i as int]) {
            prev.push(TypeChoice::Source(i))
        } else {
            prev.push(TypeChoice::Source(i)).push(TypeChoice::ReferenceTo(i))
        }
    }
}

/// The index of the attribute's type that an entry stands on.
pub open spec fn choice_index(c: TypeChoice) -> usize {
    match c {
        TypeChoice::Source(i) => i,
        TypeChoice::ReferenceTo(i) => i,
    }
}

/// Whether two character sequences are equal.
fn chars_equal(a: &Vec<char>, b: &Vec<char>) -> (equal: bool)
    ensures
        equal == (a@ == b@),
{
    if a.len() != b.len() {
        return false;
    }
    let mut i: usize = 0;
    while i < a.len()
        invariant
            a@.len() == b@.len(),
            i <= a@.len(),
            forall|j: int| 0 <= j < i ==> a@[j] == b@[j],
        decreases a@.len() - i,
    {
        if a[i] != b[i] {
            return false;
        }
        i = i + 1;
    }
    assert(a@ =~= b@);
    true
}

/// Whether two types are the same type.
fn same_type(a: &TypeKey, b: &TypeKey) -> (same: bool)
    ensures
        same == same_key(*a, *b),
    decreases a,
{
    match a {
        TypeKey::Reference { modifiers: m1, elem: e1 } => match b {
            TypeKey::Reference { modifiers: m2, elem: e2 } => chars_equal(m1, m2) && same_type(e1, e2),
            TypeKey::Other { .. } => false,
        },
        TypeKey::Other { text: t1 } => match b {
            TypeKey::Other { text: t2 } => chars_equal(t1, t2),
            TypeKey::Reference { .. } => false,
        },
    }
}

/// Whether the entry `c` is the same type as `t`.
fn choice_equals(types: &Vec<TypeKey>, c: TypeChoice, t: &TypeKey) -> (equal: bool)
    requires
        choice_index(c) < types@.len(),
    ensures
        equal == choice_matches(types@, c, *t),
{
    match c {
        TypeChoice::Source(i) => same_type(&types[i], t),
        TypeChoice::ReferenceTo(i) => match t {
            TypeKey::Reference { modifiers, elem } => modifiers.len() == 0 && same_type(&types[i], elem),
            TypeKey::Other { .. } => false,
        },
    }
}

/// Whether an entry of `list` is the same type as `t`.
fn is_listed(types: &Vec<TypeKey>, list: &Vec<TypeChoice>, t: &TypeKey) -> (found: bool)
    requires
        forall|k: int| 0 <= k < list@.len() ==> choice_index(#[trigger] list@[k]) < types@.len(),
    ensures
        found == listed(types@, list@, *t),
{
    let mut found = false;
    let mut j: usize = 0;
    while j < list.len()
        invariant
            j <= list@.len(),
            forall|k: int| 0 <= k < list@.len() ==> choice_index(#[trigger] list@[k]) < types@.len(),
            found == listed(types@, list@.take(j as int), *t),
        decreases list@.len() - j,
    {
        let matches = choice_equals(types, list[j], t);
        proof {
            let before = list@.take(j as int);
            let after = list@.take(j + 1);
            if matches {
                assert(after[j as int] == list@[j as int]);
                assert(choice_matches(types@, after[j as int], *t));
            }
            if listed(types@, before, *t) {
                let k = choose|k: int| 0 <= k < before.len() && #[trigger] choice_matches(types@, before[k], *t);
                assert(after[k] == before[k]);
            }
            if listed(types@, after, *t) {
                let k = choose|k: int| 0 <= k < after.len() && #[trigger] choice_matches(types@, after[k], *t);
                if k < j {
                    assert(after[k] == before[k]);
                }
            }
        }
        if matches {
            found = true;
        }
        j = j + 1;
    }
    assert(list@.take(list@.len() as int) =~= list@);
    found
}

/// Whether the entry `c` is the same type as a plain shared reference to `t`.
fn choice_refers_to(types: &Vec<TypeKey>, c: TypeChoice, t: &TypeKey) -> (refers: bool)
    requires
        choice_index(c) < types@.len(),
    ensures
        refers == choice_is_reference_of(types@, c, *t),
{
    match c {
        TypeChoice::Source(i) => match &types[i] {
            TypeKey::Reference { modifiers, elem } => modifiers.len() == 0 && same_type(t, elem),
            TypeKey::Other { .. } => false,
        },
        TypeChoice::ReferenceTo(i) => same_type(&types[i], t),
    }
}

/// Whether an entry of `list` is the same type as a plain shared reference to `t`.
fn is_reference_listed(types: &Vec<TypeKey>, list: &Vec<TypeChoice>, t: &TypeKey) -> (found: bool)
    requires
        forall|k: int| 0 <= k < list@.len() ==> choice_index(#[trigger] list@[k]) < types@.len(),
    ensures
        found == reference_listed(types@, list@, *t),
{
    let mut found = false;
    let mut j: usize = 0;
    while j < list.len()
        invariant
            j <= list@.len(),
            forall|k: int| 0 <= k < list@.len() ==> choice_index(#[trigger] list@[k]) < types@.len(),
            found == reference_listed(types@, list@.take(j as int), *t),
        decreases list@.len() - j,
    {
        let matches = choice_refers_to(types, list[j], t);
        proof {
            let before = list@.take(j as int);
            let after = list@.take(j + 1);
            if matches {
                assert(after[j as int] == list@[j as int]);
                assert(choice_is_reference_of(types@, after[j as int], *t));
            }
            if reference_listed(types@, before, *t) {
                let k = choose|k: int| 0 <= k < before.len() && #[trigger] choice_is_reference_of(types@, before[k], *t);
                assert(after[k] == before[k]);
            }
            if reference_listed(types@, after, *t) {
                let k = choose|k: int| 0 <= k < after.len() && #[trigger] choice_is_reference_of(types@, after[k], *t);
                if k < j {
                    assert(after[k] == before[k]);
                }
            }
        }
        if matches {
            found = true;
        }
        j = j + 1;
    }
    assert(list@.take(list@.len() as int) =~= list@);
    found
}

/// The source types for the impls: the attribute's types in order, each one
/// skipped when the list already holds the same type, and each one that is not
/// a reference followed by a plain shared reference to it unless the list
/// already holds that reference.
pub fn gen_all_types(types: &Vec<TypeKey>) -> (all: Result<Vec<TypeChoice>, AttrError>)
    ensures
        all is Ok,
        all.unwrap()@ == all_types_upto(types@, types@.len()),
{
    let mut all_types: Vec<TypeChoice> = Vec::new();
    let mut i: usize = 0;
    while i < types.len()
        invariant
            i <= types@.len(),
            all_types@ == all_types_upto(types@, i as nat),
            forall|j: int| 0 <= j < all_types@.len() ==> choice_index(#[trigger] all_types@[j]) < i,
        decreases types@.len() - i,
    {
        let t = &types[i];
        let seen = is_listed(types, &all_types, t);
        if !seen {
            let is_reference = match t {
                TypeKey::Reference { .. } => true,
                TypeKey::Other { .. } => false,
            };
            let reference_seen = is_reference_listed(types, &all_types, t);
            all_types.push(TypeChoice::Source(i));
            if !is_reference && !reference_seen {
                all_types.push(TypeChoice::ReferenceTo(i));
            }
        }
        i = i + 1;
    }
    Ok(all_types)
}

/// `same_key` is reflexive, symmetric and transitive.
pub proof fn lemma_same_key_equivalence(a: TypeKey, b: TypeKey, c: TypeKey)
    ensures
        same_key(a, a),
        same_key(a, b) ==> same_key(b, a),
        same_key(a, b) && same_key(b, c) ==> same_key(a, c),
    decreases a,
{
    match a {
        TypeKey::Reference { elem: ea, .. } => {
            match b {
                TypeKey::Reference { elem: eb, .. } => {
                    match c {
                        TypeKey::Reference { elem: ec, .. } => lemma_same_key_equivalence(*ea, *eb, *ec),
                        TypeKey::Other { .. } => lemma_same_key_equivalence(*ea, *eb, *eb),
                    }
                },
                TypeKey::Other { .. } => lemma_same_key_equivalence(*ea, *ea, *ea),
            }
        },
        TypeKey::Other { .. } => {},
    }
}

/// The entry `c`, read against `keys`, is the same type as a plain shared
/// reference to `target`.
pub open spec fn choice_is_reference_of(keys: Seq<TypeKey>, c: TypeChoice, target: TypeKey) -> bool {
    match c {
        TypeChoice::Source(k) => is_plain_reference_to(keys[k as int], target),
        TypeChoice::ReferenceTo(k) => same_key(keys[k as int], target),
    }
}

/// Two entries, read against `keys`, are the same type.
pub open spec fn choices_same(keys: Seq<TypeKey>, c1: TypeChoice, c2: TypeChoice) -> bool {
    match (c1, c2) {
        (TypeChoice::Source(a), TypeChoice::Source(b)) => same_key(keys[a as int], keys[b as int]),
        (TypeChoice::Source(a), TypeChoice::ReferenceTo(b)) => is_plain_reference_to(keys[a as int], keys[b as int]),
        (TypeChoice::ReferenceTo(a), TypeChoice::Source(b)) => is_plain_reference_to(keys[b as int], keys[a as int]),
        (TypeChoice::ReferenceTo(a), TypeChoice::ReferenceTo(b)) => same_key(keys[a as int], keys[b as int]),
    }
}

/// The list for `n` types extends the list for one type fewer.
proof fn lemma_all_types_extends(keys: Seq<TypeKey>, n: nat)
    requires
        n > 0,
    ensures
        all_types_upto(keys, (n - 1) as nat).is_prefix_of(all_types_upto(keys, n)),
{
    let prev = all_types_upto(keys, (n - 1) as nat);
    let out = all_types_upto(keys, n);
    assert(prev =~= out.subrange(0, prev.len() as int));
}

/// The entries of the list for `n` types stand on the first `n` types, and a
/// reference entry follows the entry of its type.
proof fn lemma_all_types_indices(keys: Seq<TypeKey>, n: nat)
    ensures
        forall|j: int| 0 <= j < all_types_upto(keys, n).len() ==> choice_index(#[trigger] all_types_upto(keys, n)[j]) < n,
        forall|j: int| 0 <= j < all_types_upto(keys, n).len() && (#[trigger] all_types_upto(keys, n)[j]) is ReferenceTo ==>
            j > 0 && all_types_upto(keys, n)[j - 1] == TypeChoice::Source(choice_index(all_types_upto(keys, n)[j])),
    decreases n,
{
    if n > 0 {
        lemma_all_types_indices(keys, (n - 1) as nat);
        lemma_all_types_extends(keys, n);
        let prev = all_types_upto(keys, (n - 1) as nat);
        let out = all_types_upto(keys, n);
        assert forall|j: int| 0 <= j < out.len() implies choice_index(#[trigger] out[j]) < n by {
            if j < prev.len() {
                assert(out[j] == prev.subrange(0, prev.len() as int)[j]);
                assert(choice_index(prev[j]) < n - 1);
            }
        }
        assert forall|j: int| 0 <= j < out.len() && (#[trigger] out[j]) is ReferenceTo implies
            j > 0 && out[j - 1] == TypeChoice::Source(choice_index(out[j])) by {
            if j < prev.len() {
                assert(out[j] == prev.subrange(0, prev.len() as int)[j]);
                assert(out[j - 1] == prev.subrange(0, prev.len() as int)[j - 1]);
            }
        }
    }
}

/// A list that holds a type still holds it when entries are added at its end.
proof fn lemma_listed_extends(keys: Seq<TypeKey>, prev: Seq<TypeChoice>, out: Seq<TypeChoice>, t: TypeKey)
    requires
        prev.is_prefix_of(out),
        listed(keys, prev, t),
    ensures
        listed(keys, out, t),
{
    let j = choose|j: int| 0 <= j < prev.len() && #[trigger] choice_matches(keys, prev[j], t);
    assert(out[j] == out.subrange(0, prev.len() as int)[j]);
}

/// Every type of the attribute's list is in the list of source types.
pub proof fn law_all_types_covers_sources(keys: Seq<TypeKey>, n: nat)
    requires
        n <= keys.len(),
        keys.len() <= usize::MAX,
    ensures
        forall|i: int| 0 <= i < n ==> #[trigger] listed(keys, all_types_upto(keys, n), keys[i]),
    decreases n,
{
    if n > 0 {
        law_all_types_covers_sources(keys, (n - 1) as nat);
        lemma_all_types_extends(keys, n);
        let prev = all_types_upto(keys, (n - 1) as nat);
        let out = all_types_upto(keys, n);
        assert forall|i: int| 0 <= i < n implies #[trigger] listed(keys, out, keys[i]) by {
            if i < n - 1 {
                assert(listed(keys, prev, keys[i]));
                lemma_listed_extends(keys, prev, out, keys[i]);
            } else if !listed(keys, prev, keys[i]) {
                lemma_same_key_equivalence(keys[i], keys[i], keys[i]);
                assert(choice_matches(keys, out[prev.len() as int], keys[i]));
            } else {
                lemma_listed_extends(keys, prev, out, keys[i]);
            }
        }
    }
}

/// Some entry of `list`, read against `keys`, is the same type as a plain
/// shared reference to `t`.
pub open spec fn reference_listed(keys: Seq<TypeKey>, list: Seq<TypeChoice>, t: TypeKey) -> bool {
    exists|j: int| 0 <= j < list.len() && #[trigger] choice_is_reference_of(keys, list[j], t)
}

/// For every type of the attribute's list that is not a reference, a
/// plain shared reference to it is in the list of source types.
pub proof fn law_all_types_adds_references(keys: Seq<TypeKey>, n: nat)
    requires
        n <= keys.len(),
        keys.len() <= usize::MAX,
    ensures
        forall|i: int| 0 <= i < n && !(keys[i] is Reference) ==> #[trigger] reference_listed(keys, all_types_upto(keys, n), keys[i]),
    decreases n,
{
    if n > 0 {
        law_all_types_adds_references(keys, (n - 1) as nat);
        lemma_all_types_extends(keys, n);
        lemma_all_types_indices(keys, (n - 1) as nat);
        let prev = all_types_upto(keys, (n - 1) as nat);
        let out = all_types_upto(keys, n);
        assert forall|i: int| 0 <= i < n && !(keys[i] is Reference) implies #[trigger] reference_listed(keys, out, keys[i]) by {
            if i < n - 1 {
                assert(reference_listed(keys, prev, keys[i]));
                let j = choose|j: int| 0 <= j < prev.len() && #[trigger] choice_is_reference_of(keys, prev[j], keys[i]);
                assert(out[j] == out.subrange(0, prev.len() as int)[j]);
            } else if !listed(keys, prev, keys[i]) {
                if reference_listed(keys, prev, keys[i]) {
                    let j = choose|j: int| 0 <= j < prev.len() && #[trigger] choice_is_reference_of(keys, prev[j], keys[i]);
                    assert(out[j] == out.subrange(0, prev.len() as int)[j]);
                    assert(choice_is_reference_of(keys, out[j], keys[i]));
                } else {
                    lemma_same_key_equivalence(keys[i], keys[i], keys[i]);
                    assert(choice_is_reference_of(keys, out[prev.len() + 1int], keys[i]));
                }
            } else {
                let j = choose|j: int| 0 <= j < prev.len() && #[trigger] choice_matches(keys, prev[j], keys[i]);
                match prev[j] {
                    TypeChoice::Source(k) => {
                        assert(choice_index(prev[j]) < n - 1);
                        assert(!(keys[k as int] is Reference));
                        assert(reference_listed(keys, prev, keys[k as int]));
                        let j2 = choose|j2: int| 0 <= j2 < prev.len() && #[trigger] choice_is_reference_of(keys, prev[j2], keys[k as int]);
                        assert(out[j2] == out.subrange(0, prev.len() as int)[j2]);
                        match prev[j2] {
                            TypeChoice::Source(k2) => {
                                let e = *keys[k2 as int]->elem;
                                lemma_same_key_equivalence(keys[k as int], e, keys[i]);
                                lemma_same_key_equivalence(keys[i], keys[k as int], e);
                                lemma_same_key_equivalence(keys[k as int], keys[i], e);
                            },
                            TypeChoice::ReferenceTo(k2) => {
                                lemma_same_key_equivalence(keys[k2 as int], keys[k as int], keys[i]);
                            },
                        }
                        assert(choice_is_reference_of(keys, out[j2], keys[i]));
                    },
                    TypeChoice::ReferenceTo(k) => {
                        assert(keys[i] is Reference);
                    },
                }
            }
        }
    }
}

/// No type is listed twice.
pub proof fn law_all_types_no_repeats(keys: Seq<TypeKey>, n: nat)
    requires
        n <= keys.len(),
        keys.len() <= usize::MAX,
    ensures
        forall|j1: int, j2: int| 0 <= j1 < j2 < all_types_upto(keys, n).len() ==>
            !choices_same(keys, #[trigger] all_types_upto(keys, n)[j1], #[trigger] all_types_upto(keys, n)[j2]),
    decreases n,
{
    if n > 0 {
        law_all_types_no_repeats(keys, (n - 1) as nat);
        lemma_all_types_extends(keys, n);
        lemma_all_types_indices(keys, (n - 1) as nat);
        let prev = all_types_upto(keys, (n - 1) as nat);
        let out = all_types_upto(keys, n);
        let i = n - 1;
        assert forall|j1: int, j2: int| 0 <= j1 < j2 < out.len() implies
            !choices_same(keys, #[trigger] out[j1], #[trigger] out[j2]) by {
            if j2 < prev.len() {
                assert(out[j1] == prev.subrange(0, prev.len() as int)[j1]);
                assert(out[j2] == prev.subrange(0, prev.len() as int)[j2]);
                assert(!choices_same(keys, prev[j1], prev[j2]));
            } else {
                assert(!listed(keys, prev, keys[i]));
                if j1 < prev.len() {
                    assert(out[j1] == prev.subrange(0, prev.len() as int)[j1]);
                    assert(!choice_matches(keys, prev[j1], keys[i]));
                    if j2 == prev.len() + 1 {
                        assert(!reference_listed(keys, prev, keys[i]));
                        assert(!choice_is_reference_of(keys, prev[j1], keys[i]));
                    }
                }
            }
        }
    }
}

/// Every entry of the list stands on a type of the attribute's list, and a
/// reference entry stands on a type that is not a reference.
pub proof fn law_all_types_only_listed_types(keys: Seq<TypeKey>, n: nat)
    requires
        n <= keys.len(),
        keys.len() <= usize::MAX,
    ensures
        forall|j: int| 0 <= j < all_types_upto(keys, n).len() ==> choice_index(#[trigger] all_types_upto(keys, n)[j]) < n,
        forall|j: int| 0 <= j < all_types_upto(keys, n).len() && (#[trigger] all_types_upto(keys, n)[j]) is ReferenceTo ==>
            !(keys[choice_index(all_types_upto(keys, n)[j]) as int] is Reference),
    decreases n,
{
    lemma_all_types_indices(keys, n);
    if n > 0 {
        law_all_types_only_listed_types(keys, (n - 1) as nat);
        lemma_all_types_extends(keys, n);
        let prev = all_types_upto(keys, (n - 1) as nat);
        let out = all_types_upto(keys, n);
        assert forall|j: int| 0 <= j < out.len() && (#[trigger] out[j]) is ReferenceTo implies
            !(keys[choice_index(out[j]) as int] is Reference) by {
            if j < prev.len() {
                assert(out[j] == prev.subrange(0, prev.len() as int)[j]);
            }
        }
    }
}


/// A path expression describes a type whatever its number of segments
/// (`Error`, `io::Error`, `std::io::Error`): the type is that path. A shared
/// reference to a path, and an array of a path element, describe types too.
pub proof fn law_every_path_is_a_type(segments: usize, len_segments: usize)
    ensures
        type_plan(ExprShape::Path { segments }) == Ok::<TypePlan, AttrError>(TypePlan::Path),
        type_plan(ExprShape::Reference { inner: Box::new(ExprShape::Path { segments }) })
            == Ok::<TypePlan, AttrError>(TypePlan::Reference(Box::new(TypePlan::Path))),
        type_plan(ExprShape::Repeat { elem: Box::new(ExprShape::Path { segments: len_segments }) })
            == Ok::<TypePlan, AttrError>(TypePlan::Array),
{
}

/// A string literal names the method exactly when its text parses as an
/// identifier, whatever characters it holds; the identifier is then taken
/// from the text. A path names it exactly when it has a single segment.
pub proof fn law_method_names(text: Vec<char>, segments: usize)
    ensures
        ident_plan(ExprShape::StrLit { text }) is Ok <==> ident_text_parses(text@),
        ident_text_parses(text@) ==> ident_plan(ExprShape::StrLit { text }) == Ok::<IdentPlan, AttrError>(IdentPlan::FromText),
        ident_plan(ExprShape::Path { segments }) is Ok <==> segments == 1,
{
}

/// Two types that are not references are the same type exactly when their
/// texts are equal; a reference is never the same type as one that is not.
pub proof fn law_same_type_by_text(t1: Vec<char>, t2: Vec<char>, m: Vec<char>, e: TypeKey)
    ensures
        same_key(TypeKey::Other { text: t1 }, TypeKey::Other { text: t2 }) <==> t1@ == t2@,
        !same_key(TypeKey::Other { text: t1 }, TypeKey::Reference { modifiers: m, elem: Box::new(e) }),
        !same_key(TypeKey::Reference { modifiers: m, elem: Box::new(e) }, TypeKey::Other { text: t1 }),
{
}

/// Types that are not references and whose texts all differ each give two
/// entries, in order: the type, then a plain shared reference to it. So for
/// `n` such types there are `2 * n` impls.
pub proof fn law_distinct_plain_types_all_listed(keys: Seq<TypeKey>, n: nat)
    requires
        n <= keys.len(),
        keys.len() <= usize::MAX,
        forall|i: int| 0 <= i < keys.len() ==> #[trigger] keys[i] is Other,
        forall|i: int, j: int| 0 <= i < j < keys.len() ==> (#[trigger] keys[i])->text@ != (#[trigger] keys[j])->text@,
    ensures
        all_types_upto(keys, n).len() == 2 * n,
        forall|i: int| 0 <= i < n ==> #[trigger] all_types_upto(keys, n)[2 * i] == TypeChoice::Source(i as usize),
        forall|i: int| 0 <= i < n ==> #[trigger] all_types_upto(keys, n)[2 * i + 1] == TypeChoice::ReferenceTo(i as usize),
    decreases n,
{
    if n > 0 {
        law_distinct_plain_types_all_listed(keys, (n - 1) as nat);
        lemma_all_types_indices(keys, (n - 1) as nat);
        let prev = all_types_upto(keys, (n - 1) as nat);
        let m = n - 1;
        let t = keys[m];
        assert(t is Other);
        assert(!listed(keys, prev, t)) by {
            assert forall|j: int| 0 <= j < prev.len() implies !#[trigger] choice_matches(keys, prev[j], t) by {
                let k = choice_index(prev[j]) as int;
                assert(k < m);
                assert(keys[k] is Other);
                assert(keys[k]->text@ != keys[m]->text@);
            }
        }
        assert(!reference_listed(keys, prev, t)) by {
            assert forall|j: int| 0 <= j < prev.len() implies !#[trigger] choice_is_reference_of(keys, prev[j], t) by {
                let k = choice_index(prev[j]) as int;
                assert(k < m);
                assert(keys[k] is Other);
                assert(keys[k]->text@ != keys[m]->text@);
            }
        }
        let out = all_types_upto(keys, n);
        assert(out == prev.push(TypeChoice::Source(m as usize)).push(TypeChoice::ReferenceTo(m as usize)));
        assert forall|i: int| 0 <= i < n implies #[trigger] out[2 * i] == TypeChoice::Source(i as usize) by {
            if i < m {
                assert(out[2 * i] == prev[2 * i]);
            }
        }
        assert forall|i: int| 0 <= i < n implies #[trigger] out[2 * i + 1] == TypeChoice::ReferenceTo(i as usize) by {
            if i < m {
                assert(out[2 * i + 1] == prev[2 * i + 1]);
            }
        }
    }
}

/// A string literal describes the error type exactly when its text starts
/// with a capital letter, is not `literal`, and parses as a type; the type is
/// then parsed from the text.
pub proof fn law_type_strings(text: Vec<char>)
    ensures
        type_plan(ExprShape::StrLit { text }) is Ok <==> (starts_uppercase(text@) && text@ != literal_word()
            && type_text_parses(text@)),
        type_plan(ExprShape::StrLit { text }) is Ok ==> type_plan(ExprShape::StrLit { text }) == Ok::<TypePlan, AttrError>(TypePlan::FromText),
{
}

/// A reference expression describes a type exactly when what it references
/// does (the single element, for a one-element array): a shared reference to
/// that type, or to a slice of it; an error below is reported one step deeper.
pub proof fn law_reference_types(inner: ExprShape)
    ensures
        !(inner is Array && inner->elems@.len() == 1) ==> type_plan(ExprShape::Reference { inner: Box::new(inner) }) == match type_plan(inner) {
            Ok(p) => Ok::<TypePlan, AttrError>(TypePlan::Reference(Box::new(p))),
            Err(x) => Err(AttrError { kind: x.kind, depth: if x.depth < usize::MAX { (x.depth + 1) as usize } else { x.depth } }),
        },
        (inner is Array && inner->elems@.len() == 1) ==> type_plan(ExprShape::Reference { inner: Box::new(inner) }) == match type_plan(inner->elems@[0]) {
            Ok(p) => Ok::<TypePlan, AttrError>(TypePlan::SliceReference(Box::new(p))),
            Err(x) => Err(AttrError { kind: x.kind, depth: if x.depth < usize::MAX { (x.depth + 1) as usize } else { x.depth } }),
        },
{
}

} // verus!

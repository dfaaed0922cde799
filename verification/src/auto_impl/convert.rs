//! Reading the `auto_try_from` attribute and planning the `TryFrom` impls.
use vstd::prelude::*;
use crate::auto_impl::common::{
    ExprShape, IdentPlan, TypePlan, TypeKey, TypeChoice, AttrError, AttrErrorKind, ident_plan,
    type_plan, all_types_upto, error_here, parse_ident_from_expr, parse_type_from_expr,
    gen_all_types,
};

verus! {

/// What the `auto_try_from` attributes have given so far.
pub struct AutoTryFromAttrs {
    pub method: Option<IdentPlan>,
    pub error: Option<TypePlan>,
    pub sources: Vec<TypeKey>,
}

/// The arguments that the attribute knows.
#[derive(Debug, PartialEq, Eq, Structural)]
pub enum AttrArg {
    /// `method = ..`: the constructor that the impls call.
    Method,
    /// `error = ..`: the impls' error type.
    Error,
    /// `types = [..]`: the source types.
    Types,
}

/// The argument that a name stands for; any other name is refused with
/// `UnknownAttribute`.
pub open spec fn attr_arg_of(name: Seq<char>) -> Result<AttrArg, AttrError> {
    if name == seq!['m', 'e', 't', 'h', 'o', 'd'] {
        Ok(AttrArg::Method)
    } else if name == seq!['e', 'r', 'r', 'o', 'r'] {
        Ok(AttrArg::Error)
    } else if name == seq!['t', 'y', 'p', 'e', 's'] {
        Ok(AttrArg::Types)
    } else {
        Err(error_here(AttrErrorKind::UnknownAttribute))
    }
}

/// Whether `name` spells `word`.
fn spells(name: &Vec<char>, word: &[char]) -> (same: bool)
    ensures
        same == (name@ == word@),
{
    if name.len() != word.len() {
        return false;
    }
    let mut i: usize = 0;
    while i < name.len()
        invariant
            name@.len() == word@.len(),
            i <= name@.len(),
            forall|j: int| 0 <= j < i ==> name@[j] == word@[j],
        decreases name@.len() - i,
    {
        if name[i] != word[i] {
            return false;
        }
        i = i + 1;
    }
    assert(name@ =~= word@);
    true
}

/// The argument that a name stands for; see `attr_arg_of`.
pub fn attr_arg(name: &Vec<char>) -> (arg: Result<AttrArg, AttrError>)
    ensures
        arg == attr_arg_of(name@),
{
    let method: [char; 6] = ['m', 'e', 't', 'h', 'o', 'd'];
    let error: [char; 5] = ['e', 'r', 'r', 'o', 'r'];
    let types: [char; 5] = ['t', 'y', 'p', 'e', 's'];
    assert(method@ =~= seq!['m', 'e', 't', 'h', 'o', 'd']);
    assert(error@ =~= seq!['e', 'r', 'r', 'o', 'r']);
    assert(types@ =~= seq!['t', 'y', 'p', 'e', 's']);
    if spells(name, method.as_slice()) {
        Ok(AttrArg::Method)
    } else if spells(name, error.as_slice()) {
        Ok(AttrArg::Error)
    } else if spells(name, types.as_slice()) {
        Ok(AttrArg::Types)
    } else {
        Err(AttrError { kind: AttrErrorKind::UnknownAttribute, depth: 0 })
    }
}

impl AutoTryFromAttrs {
    /// Nothing given yet.
    pub fn new() -> (attrs: Self)
        ensures
            attrs.method is None,
            attrs.error is None,
            attrs.sources@.len() == 0,
    {
        AutoTryFromAttrs { method: None, error: None, sources: Vec::new() }
    }

    /// Takes the expression given as `method`: it must name an identifier.
    pub fn take_method(&mut self, expr: &ExprShape) -> (result: Result<(), AttrError>)
        ensures
            match ident_plan(*expr) {
                Ok(plan) => result is Ok && final(self).method == Some(plan),
                Err(e) => result == Err::<(), AttrError>(e) && final(self).method == old(self).method,
            },
            final(self).error == old(self).error,
            final(self).sources@ == old(self).sources@,
    {
        let plan = parse_ident_from_expr(expr)?;
        self.method = Some(plan);
        Ok(())
    }

    /// Takes the expression given as `error`: it must describe a type.
    pub fn take_error(&mut self, expr: &ExprShape) -> (result: Result<(), AttrError>)
        ensures
            match type_plan(*expr) {
                Ok(plan) => result is Ok && final(self).error == Some(plan),
                Err(e) => result == Err::<(), AttrError>(e) && final(self).error == old(self).error,
            },
            final(self).method == old(self).method,
            final(self).sources@ == old(self).sources@,
    {
        let plan = parse_type_from_expr(expr)?;
        self.error = Some(plan);
        Ok(())
    }

    /// Takes the list given as `types`; it replaces any list given before.
    pub fn take_types(&mut self, types: Vec<TypeKey>)
        ensures
            final(self).sources@ == types@,
            final(self).method == old(self).method,
            final(self).error == old(self).error,
    {
        self.sources = types;
    }
}

/// The source types of the `TryFrom` impls that the attributes ask for: it
/// fails with `MissingMethod` when no method was given, else with
/// `MissingError` when no error type was given, and otherwise lists the types
/// as `gen_all_types` does.
pub fn generate_auto_try_from(attrs: &AutoTryFromAttrs) -> (sources: Result<Vec<TypeChoice>, AttrError>)
    ensures
        attrs.method is None ==> sources == Err::<Vec<TypeChoice>, AttrError>(error_here(AttrErrorKind::MissingMethod)),
        attrs.method is Some && attrs.error is None ==> sources == Err::<Vec<TypeChoice>, AttrError>(error_here(AttrErrorKind::MissingError)),
        attrs.method is Some && attrs.error is Some ==> sources is Ok && sources.unwrap()@ == all_types_upto(attrs.sources@, attrs.sources@.len()),
{
    if attrs.method.is_none() {
        return Err(AttrError { kind: AttrErrorKind::MissingMethod, depth: 0 });
    }
    if attrs.error.is_none() {
        return Err(AttrError { kind: AttrErrorKind::MissingError, depth: 0 });
    }
    gen_all_types(&attrs.sources)
}

} // verus!

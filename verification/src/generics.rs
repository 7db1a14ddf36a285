//! Generic classes: the keys by which generic parameters and base initializers are
//! compared, and the `'static` bounds that impls over boxed values need.

use vstd::prelude::*;

use crate::names::names_view;

verus! {

/// A generic parameter of a class, by kind, with its identifier (a lifetime's
/// identifier without the `'`).
pub enum GenericParam {
    Type { ident: String },
    Lifetime { ident: String },
    Const { ident: String },
}

/// The identifier of a generic parameter, whatever its kind.
pub open spec fn param_ident(p: GenericParam) -> Seq<char> {
    match p {
        GenericParam::Type { ident } => ident@,
        GenericParam::Lifetime { ident } => ident@,
        GenericParam::Const { ident } => ident@,
    }
}

/// The identifiers of `params`, in declaration order. Two classes with equal keys
/// name their parameters alike, position by position.
pub open spec fn params_key(params: Seq<GenericParam>) -> Seq<Seq<char>> {
    params.map_values(|p: GenericParam| param_ident(p))
}

/// The key of a list of generic parameters (see `params_key`).
pub fn generic_params_key(params: &[GenericParam]) -> (res: Vec<String>)
    ensures
        names_view(res@) == params_key(params@),
{
    let mut res: Vec<String> = Vec::new();
    let mut k: usize = 0;
    while k < params.len()
        invariant
            k <= params@.len(),
            res@.len() == k,
            forall|j: int| 0 <= j < k ==> #[trigger] res@[j]@ == param_ident(params@[j]),
        decreases params@.len() - k,
    {
        let ident = match &params[k] {
            GenericParam::Type { ident } => ident.clone(),
            GenericParam::Lifetime { ident } => ident.clone(),
            GenericParam::Const { ident } => ident.clone(),
        };
        res.push(ident);
        k = k + 1;
    }
    assert(names_view(res@) =~= params_key(params@));
    res
}

/// The generics of a class as an impl header uses them: the parameters, and the
/// predicates of the `where` clause, each as its source text.
pub struct Generics {
    pub params: Vec<GenericParam>,
    pub where_predicates: Vec<String>,
}

/// The predicate that bounds the type parameter `ident` by `'static`.
pub open spec fn static_bound(ident: Seq<char>) -> Seq<char> {
    ident + ": 'static"@
}

/// One `'static` bound for each type parameter among `params`, in declaration order;
/// lifetime and const parameters get none.
pub open spec fn static_bounds(params: Seq<GenericParam>) -> Seq<Seq<char>>
    decreases params.len(),
{
    if params.len() == 0 {
        Seq::empty()
    } else {
        static_bounds(params.drop_last()) + match params.last() {
            GenericParam::Type { ident } => seq![static_bound(ident@)],
            _ => Seq::empty(),
        }
    }
}

/// Adds `T: 'static` to the `where` clause for every type parameter `T`, after the
/// predicates already there; the parameters stay as they are.
pub fn add_static_type_param_bounds(generics: &mut Generics)
    ensures
        final(generics).params@ == old(generics).params@,
        names_view(final(generics).where_predicates@) == names_view(old(generics).where_predicates@)
            + static_bounds(old(generics).params@),
{
    let ghost start = names_view(generics.where_predicates@);
    let mut k: usize = 0;
    assert(generics.params@.take(0) =~= Seq::<GenericParam>::empty());
    assert(start + Seq::<Seq<char>>::empty() =~= start);
    while k < generics.params.len()
        invariant
            k <= generics.params@.len(),
            generics.params@ == old(generics).params@,
            start == names_view(old(generics).where_predicates@),
            names_view(generics.where_predicates@) == start + static_bounds(
                generics.params@.take(k as int),
            ),
        decreases generics.params@.len() - k,
    {
        let ghost before = names_view(generics.where_predicates@);
        let ghost taken = generics.params@.take(k + 1);
        proof {
            reveal_strlit(": 'static");
            assert(taken.drop_last() =~= generics.params@.take(k as int));
            assert(taken.last() == generics.params@[k as int]);
        }
        let bound = match &generics.params[k] {
            GenericParam::Type { ident } => {
                let mut text = ident.clone();
                text.append(": 'static");
                assert(text@ == static_bound(ident@));
                Some(text)
            },
            _ => None,
        };
        match bound {
            Some(text) => {
                generics.where_predicates.push(text);
                assert(names_view(generics.where_predicates@) =~= before.push(text@));
            },
            None => {},
        }
        proof {
            assert(names_view(generics.where_predicates@) =~= start + static_bounds(taken));
        }
        k = k + 1;
    }
    assert(generics.params@.take(generics.params@.len() as int) =~= generics.params@);
}

/// An initializer `Base(..)` or `Base<..>(..)` of a constructor: the base's name,
/// the texts of the generic arguments written on its type (none for `Base`), the
/// type's text, and the number of that text among the written base types of the
/// block (the numbering of `BaseEdge::type_id`).
pub struct ConstructorBaseCall {
    pub base: String,
    pub type_args: Vec<String>,
    pub type_text: String,
    pub type_id: usize,
}

/// Whether the initializer's type gives explicit generic arguments.
pub open spec fn explicit_generics(call: ConstructorBaseCall) -> bool {
    call.type_args@.len() > 0
}

/// The key of an initializer: the type's text when the type gives explicit generic
/// arguments (so that two specializations of one generic base differ), else the
/// base's name.
pub open spec fn base_call_key(call: ConstructorBaseCall) -> Seq<char> {
    if explicit_generics(call) {
        call.type_text@
    } else {
        call.base@
    }
}

/// The key of an initializer (see `base_call_key`).
pub fn constructor_base_call_key(base_call: &ConstructorBaseCall) -> (res: String)
    ensures
        res@ == base_call_key(*base_call),
{
    if base_call.type_args.len() > 0 {
        base_call.type_text.clone()
    } else {
        base_call.base.clone()
    }
}

} // verus!

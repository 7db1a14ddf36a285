use vstd::prelude::*;

use crate::c3::seqs_view;

verus! {

/// How a method takes `self`.
#[derive(Clone, Copy, Debug, PartialEq, Eq, Structural)]
pub enum ReceiverKind {
    Shared,
    Mutable,
}

/// What method resolution reads of a method declared directly in a class. `name`
/// and `signature` identify the method's name and signature key: equal ids for
/// equal texts, and name ids ordered as the names are.
#[derive(Clone, Copy, Debug, PartialEq, Eq, Structural)]
pub struct MethodDecl {
    pub owner: usize,
    pub name: usize,
    pub signature: usize,
    pub is_virtual: bool,
    pub is_abstract: bool,
    pub is_override: bool,
    pub is_async: bool,
    pub is_unsafe: bool,
    pub receiver: ReceiverKind,
}

/// A rule of method resolution that a class breaks.
#[derive(Clone, Copy, Debug, PartialEq, Eq, Structural)]
pub enum ResolveIssue {
    /// The class marks `name` `#[override]` but inherits no virtual `name`.
    OverrideWithoutBase { class: usize, name: usize },
    /// The class overrides an inherited virtual `name` without `#[override]`.
    MissingOverride { class: usize, name: usize },
    /// The class declares `name` abstract with a signature that differs from the
    /// declaration inherited from `inherited_owner`.
    AbstractIncompatible { class: usize, name: usize, inherited_owner: usize },
    /// The class implements `name` with a signature that differs from the
    /// declaration inherited from `inherited_owner`.
    SignatureMismatch { class: usize, name: usize, inherited_owner: usize },
    /// The class inherits implementations of `name` with different signatures.
    IncompatibleInherited { class: usize, name: usize },
    /// The implementation of `name` inherited from `implementer` does not have the
    /// signature of the abstract declaration inherited from `declarer`.
    AbstractUnsatisfied { class: usize, name: usize, implementer: usize, declarer: usize },
    /// The class inherits abstract declarations of `name` with different signatures.
    AbstractConflict { class: usize, name: usize },
}

/// The outcome of method resolution.
pub struct Resolution {
    /// For each class, the implementation it dispatches each virtual method to,
    /// ordered by name.
    pub selected: Vec<Vec<MethodDecl>>,
    /// For each class, the virtual methods it leaves abstract, ordered by name.
    pub unresolved: Vec<Vec<MethodDecl>>,
    /// The broken rules, class by class and name by name.
    pub issues: Vec<ResolveIssue>,
}

pub open spec fn decls_view(direct: Seq<Vec<MethodDecl>>) -> Seq<Seq<MethodDecl>> {
    direct.map_values(|ds: Vec<MethodDecl>| ds@)
}

/// The first declaration named `n`.
pub open spec fn lookup(ds: Seq<MethodDecl>, n: usize) -> Option<MethodDecl>
    decreases ds.len(),
{
    if ds.len() == 0 {
        None
    } else if ds[0].name == n {
        Some(ds[0])
    } else {
        lookup(ds.drop_first(), n)
    }
}

/// The virtual declarations of `n` by the classes of `mro`, in that order.
pub open spec fn virtual_decls(direct: Seq<Seq<MethodDecl>>, mro: Seq<usize>, n: usize) -> Seq<
    MethodDecl,
>
    decreases mro.len(),
{
    if mro.len() == 0 {
        Seq::empty()
    } else {
        let rest = virtual_decls(direct, mro.drop_last(), n);
        match lookup(direct[mro.last() as int], n) {
            Some(d) => if d.is_virtual {
                rest.push(d)
            } else {
                rest
            },
            None => rest,
        }
    }
}

/// The declarations of `ds` that are abstract (`abstract_ones`) or not.
pub open spec fn with_abstract(ds: Seq<MethodDecl>, abstract_ones: bool) -> Seq<MethodDecl>
    decreases ds.len(),
{
    if ds.len() == 0 {
        Seq::empty()
    } else {
        let rest = with_abstract(ds.drop_last(), abstract_ones);
        if ds.last().is_abstract == abstract_ones {
            rest.push(ds.last())
        } else {
            rest
        }
    }
}

/// The first declaration of `ds` whose signature is not `sig`.
pub open spec fn first_mismatch(ds: Seq<MethodDecl>, sig: usize) -> Option<MethodDecl>
    decreases ds.len(),
{
    if ds.len() == 0 {
        None
    } else if ds[0].signature != sig {
        Some(ds[0])
    } else {
        first_mismatch(ds.drop_first(), sig)
    }
}

/// One `SignatureMismatch` per declaration of `ds` whose signature is not `sig`.
pub open spec fn signature_mismatches(ds: Seq<MethodDecl>, sig: usize, c: usize, n: usize) -> Seq<
    ResolveIssue,
>
    decreases ds.len(),
{
    if ds.len() == 0 {
        Seq::empty()
    } else {
        let rest = signature_mismatches(ds.drop_last(), sig, c, n);
        if ds.last().signature != sig {
            rest.push(ResolveIssue::SignatureMismatch { class: c, name: n, inherited_owner: ds.last().owner })
        } else {
            rest
        }
    }
}

/// One `AbstractUnsatisfied` per abstract declaration of `ds` whose signature is not
/// that of the implementation `sel`.
pub open spec fn unsatisfied_abstracts(ds: Seq<MethodDecl>, sel: MethodDecl, c: usize, n: usize) -> Seq<
    ResolveIssue,
>
    decreases ds.len(),
{
    if ds.len() == 0 {
        Seq::empty()
    } else {
        let rest = unsatisfied_abstracts(ds.drop_last(), sel, c, n);
        if ds.last().signature != sel.signature {
            rest.push(
                ResolveIssue::AbstractUnsatisfied {
                    class: c,
                    name: n,
                    implementer: sel.owner,
                    declarer: ds.last().owner,
                },
            )
        } else {
            rest
        }
    }
}

pub open spec fn opt_seq(o: Option<MethodDecl>) -> Seq<MethodDecl> {
    match o {
        Some(d) => seq![d],
        None => Seq::empty(),
    }
}

/// How class `c`, whose method resolution order is `mro`, resolves the method named
/// `n`: the implementation it selects, the abstract declaration it leaves
/// unresolved, and the rules it breaks.
///
/// A virtual declaration in `c` itself wins; it must carry `#[override]` exactly
/// when a class later in the order also declares `n` virtual, and its signature
/// must match theirs. Otherwise the first implementation in the order is selected,
/// which all other implementations and all abstract declarations must match; with
/// no implementation, the first abstract declaration stays unresolved.
pub open spec fn resolve_name(direct: Seq<Seq<MethodDecl>>, mro: Seq<usize>, c: usize, n: usize) -> (
    Option<MethodDecl>,
    Option<MethodDecl>,
    Seq<ResolveIssue>,
) {
    let decls = virtual_decls(direct, mro, n);
    if decls.len() == 0 {
        (None, None, Seq::empty())
    } else if lookup(direct[c as int], n) is Some && lookup(direct[c as int], n)->0.is_virtual {
        let cur = lookup(direct[c as int], n)->0;
        let inherited = decls.drop_first();
        let i1 = if cur.is_override && decls.len() == 1 {
            seq![ResolveIssue::OverrideWithoutBase { class: c, name: n }]
        } else {
            Seq::empty()
        };
        let i2 = if !cur.is_override && decls.len() > 1 {
            seq![ResolveIssue::MissingOverride { class: c, name: n }]
        } else {
            Seq::empty()
        };
        if cur.is_abstract {
            let i3 = match first_mismatch(inherited, cur.signature) {
                Some(d) => seq![
                    ResolveIssue::AbstractIncompatible { class: c, name: n, inherited_owner: d.owner },
                ],
                None => Seq::empty(),
            };
            (None, Some(cur), i1 + i2 + i3)
        } else {
            (Some(cur), None, i1 + i2 + signature_mismatches(inherited, cur.signature, c, n))
        }
    } else {
        let concrete = with_abstract(decls, false);
        let abstracts = with_abstract(decls, true);
        if concrete.len() > 0 {
            let sel = concrete[0];
            let i1 = if first_mismatch(concrete.drop_first(), sel.signature) is Some {
                seq![ResolveIssue::IncompatibleInherited { class: c, name: n }]
            } else {
                Seq::empty()
            };
            (Some(sel), None, i1 + unsatisfied_abstracts(abstracts, sel, c, n))
        } else if abstracts.len() > 0 {
            let req = abstracts[0];
            let i1 = if first_mismatch(abstracts.drop_first(), req.signature) is Some {
                seq![ResolveIssue::AbstractConflict { class: c, name: n }]
            } else {
                Seq::empty()
            };
            (None, Some(req), i1)
        } else {
            (None, None, Seq::empty())
        }
    }
}

/// Method resolution of class `c` for the names below `upto`, name by name.
pub open spec fn resolve_names(direct: Seq<Seq<MethodDecl>>, mro: Seq<usize>, c: usize, upto: nat) -> (
    Seq<MethodDecl>,
    Seq<MethodDecl>,
    Seq<ResolveIssue>,
)
    decreases upto,
{
    if upto == 0 {
        (Seq::empty(), Seq::empty(), Seq::empty())
    } else {
        let prev = resolve_names(direct, mro, c, (upto - 1) as nat);
        let here = resolve_name(direct, mro, c, (upto - 1) as usize);
        (prev.0 + opt_seq(here.0), prev.1 + opt_seq(here.1), prev.2 + here.2)
    }
}

/// The broken rules of the classes below `k`, class by class.
pub open spec fn resolve_issues(
    direct: Seq<Seq<MethodDecl>>,
    mros: Seq<Seq<usize>>,
    names: nat,
    k: nat,
) -> Seq<ResolveIssue>
    decreases k,
{
    if k == 0 {
        Seq::empty()
    } else {
        resolve_issues(direct, mros, names, (k - 1) as nat) + resolve_names(
            direct,
            mros[k - 1],
            (k - 1) as usize,
            names,
        ).2
    }
}


/// The first declaration of `s`, if any.
pub open spec fn first_of(s: Seq<MethodDecl>) -> Option<MethodDecl> {
    if s.len() > 0 {
        Some(s[0])
    } else {
        None
    }
}

/// Whether class `c` itself declares `n` as an abstract virtual method.
pub open spec fn declares_abstract(direct: Seq<Seq<MethodDecl>>, c: usize, n: usize) -> bool {
    lookup(direct[c as int], n) matches Some(d) && d.is_virtual && d.is_abstract
}

/// A virtual declaration of `n` by the first class of `mro` comes first among the
/// virtual declarations along `mro`.
proof fn lemma_own_decl_first(direct: Seq<Seq<MethodDecl>>, mro: Seq<usize>, n: usize)
    requires
        mro.len() > 0,
        lookup(direct[mro[0] as int], n) matches Some(d) && d.is_virtual,
    ensures
        virtual_decls(direct, mro, n).len() > 0,
        virtual_decls(direct, mro, n)[0] == lookup(direct[mro[0] as int], n)->0,
    decreases mro.len(),
{
    if mro.len() > 1 {
        let rest = mro.drop_last();
        assert(rest[0] == mro[0]);
        lemma_own_decl_first(direct, rest, n);
        let r = virtual_decls(direct, rest, n);
        let l = lookup(direct[mro.last() as int], n);
        if l is Some && l->0.is_virtual {
            assert(virtual_decls(direct, mro, n) == r.push(l->0));
            assert(r.push(l->0)[0] == r[0]);
        } else {
            assert(virtual_decls(direct, mro, n) == r);
        }
    } else {
        assert(mro.drop_last() =~= Seq::<usize>::empty());
        assert(mro.last() == mro[0]);
        let d = lookup(direct[mro[0] as int], n)->0;
        assert(virtual_decls(direct, mro.drop_last(), n) =~= Seq::<MethodDecl>::empty());
        assert(virtual_decls(direct, mro, n) =~= seq![d]);
    }
}

/// A first declaration of the wanted kind stays first after the split.
proof fn lemma_with_abstract_first(ds: Seq<MethodDecl>, abstract_ones: bool)
    requires
        ds.len() > 0,
        ds[0].is_abstract == abstract_ones,
    ensures
        with_abstract(ds, abstract_ones).len() > 0,
        with_abstract(ds, abstract_ones)[0] == ds[0],
    decreases ds.len(),
{
    if ds.len() > 1 {
        let rest = ds.drop_last();
        assert(rest[0] == ds[0]);
        lemma_with_abstract_first(rest, abstract_ones);
        let r = with_abstract(rest, abstract_ones);
        if ds.last().is_abstract == abstract_ones {
            assert(with_abstract(ds, abstract_ones) == r.push(ds.last()));
            assert(r.push(ds.last())[0] == r[0]);
        } else {
            assert(with_abstract(ds, abstract_ones) == r);
        }
    } else {
        assert(ds.drop_last() =~= Seq::<MethodDecl>::empty());
        assert(ds.last() == ds[0]);
        assert(with_abstract(ds.drop_last(), abstract_ones) =~= Seq::<MethodDecl>::empty());
        assert(with_abstract(ds, abstract_ones) =~= seq![ds[0]]);
    }
}

/// Dispatch follows the method resolution order: a class whose order starts with
/// itself dispatches `n` to the first implementation (a virtual declaration that
/// is not abstract) along its order, unless it declares `n` abstract itself, in
/// which case it dispatches `n` nowhere.
pub proof fn lemma_dispatch_first_implementation(
    direct: Seq<Seq<MethodDecl>>,
    mro: Seq<usize>,
    c: usize,
    n: usize,
)
    requires
        mro.len() > 0,
        mro[0] == c,
    ensures
        resolve_name(direct, mro, c, n).0 == if declares_abstract(direct, c, n) {
            None
        } else {
            first_of(with_abstract(virtual_decls(direct, mro, n), false))
        },
{
    let decls = virtual_decls(direct, mro, n);
    let own = lookup(direct[c as int], n);
    if own is Some && own->0.is_virtual {
        lemma_own_decl_first(direct, mro, n);
        if !own->0.is_abstract {
            lemma_with_abstract_first(decls, false);
        }
    } else if decls.len() == 0 {
        assert(with_abstract(decls, false) =~= Seq::<MethodDecl>::empty());
    }
}

/// Every declaration of `s` is named `n`.
pub open spec fn all_named(s: Seq<MethodDecl>, n: usize) -> bool {
    forall|i: int| 0 <= i < s.len() ==> (#[trigger] s[i]).name == n
}

/// The names along `s` strictly increase.
pub open spec fn sorted_by_name(s: Seq<MethodDecl>) -> bool {
    forall|i: int, j: int| 0 <= i < j < s.len() ==> (#[trigger] s[i]).name < (#[trigger] s[j]).name
}

proof fn lemma_lookup_named(ds: Seq<MethodDecl>, n: usize)
    ensures
        lookup(ds, n) matches Some(d) ==> d.name == n,
    decreases ds.len(),
{
    if ds.len() > 0 && ds[0].name != n {
        lemma_lookup_named(ds.drop_first(), n);
    }
}

proof fn lemma_virtual_decls_named(direct: Seq<Seq<MethodDecl>>, mro: Seq<usize>, n: usize)
    ensures
        all_named(virtual_decls(direct, mro, n), n),
    decreases mro.len(),
{
    if mro.len() > 0 {
        lemma_virtual_decls_named(direct, mro.drop_last(), n);
        lemma_lookup_named(direct[mro.last() as int], n);
    }
}

proof fn lemma_with_abstract_named(ds: Seq<MethodDecl>, abstract_ones: bool, n: usize)
    requires
        all_named(ds, n),
    ensures
        all_named(with_abstract(ds, abstract_ones), n),
    decreases ds.len(),
{
    if ds.len() > 0 {
        let rest = ds.drop_last();
        assert(all_named(rest, n)) by {
            assert forall|i: int| 0 <= i < rest.len() implies (#[trigger] rest[i]).name == n by {
                assert(rest[i] == ds[i]);
            }
        }
        lemma_with_abstract_named(rest, abstract_ones, n);
        assert(ds.last() == ds[ds.len() - 1]);
    }
}

/// What resolution selects or leaves abstract for the name `n` is named `n`.
proof fn lemma_resolve_name_named(direct: Seq<Seq<MethodDecl>>, mro: Seq<usize>, c: usize, n: usize)
    ensures
        resolve_name(direct, mro, c, n).0 matches Some(d) ==> d.name == n,
        resolve_name(direct, mro, c, n).1 matches Some(d) ==> d.name == n,
{
    let decls = virtual_decls(direct, mro, n);
    lemma_lookup_named(direct[c as int], n);
    lemma_virtual_decls_named(direct, mro, n);
    lemma_with_abstract_named(decls, false, n);
    lemma_with_abstract_named(decls, true, n);
}

proof fn lemma_push_sorted(s: Seq<MethodDecl>, o: Option<MethodDecl>, n: usize)
    requires
        sorted_by_name(s),
        forall|i: int| 0 <= i < s.len() ==> (#[trigger] s[i]).name < n,
        o matches Some(d) ==> d.name == n,
    ensures
        sorted_by_name(s + opt_seq(o)),
        forall|i: int| 0 <= i < (s + opt_seq(o)).len() ==> (#[trigger] (s + opt_seq(o))[i]).name <= n,
{
    let t = s + opt_seq(o);
    assert forall|i: int, j: int| 0 <= i < j < t.len() implies (#[trigger] t[i]).name < (#[trigger] t[j]).name by {
        if j < s.len() {
            assert(t[i] == s[i] && t[j] == s[j]);
        } else {
            assert(t[i] == s[i]);
        }
    }
    assert forall|i: int| 0 <= i < t.len() implies (#[trigger] t[i]).name <= n by {
        if i < s.len() {
            assert(t[i] == s[i]);
        }
    }
}

/// Resolution lists what it selects, and what it leaves abstract, in name order,
/// every name below `upto`.
pub proof fn lemma_resolve_names_sorted(direct: Seq<Seq<MethodDecl>>, mro: Seq<usize>, c: usize, upto: nat)
    requires
        upto <= usize::MAX,
    ensures
        sorted_by_name(resolve_names(direct, mro, c, upto).0),
        sorted_by_name(resolve_names(direct, mro, c, upto).1),
        forall|i: int|
            0 <= i < resolve_names(direct, mro, c, upto).0.len() ==> (#[trigger] resolve_names(
                direct,
                mro,
                c,
                upto,
            ).0[i]).name < upto,
        forall|i: int|
            0 <= i < resolve_names(direct, mro, c, upto).1.len() ==> (#[trigger] resolve_names(
                direct,
                mro,
                c,
                upto,
            ).1[i]).name < upto,
    decreases upto,
{
    if upto > 0 {
        let n = (upto - 1) as usize;
        lemma_resolve_names_sorted(direct, mro, c, (upto - 1) as nat);
        lemma_resolve_name_named(direct, mro, c, n);
        let prev = resolve_names(direct, mro, c, (upto - 1) as nat);
        let here = resolve_name(direct, mro, c, n);
        lemma_push_sorted(prev.0, here.0, n);
        lemma_push_sorted(prev.1, here.1, n);
    }
}

/// What a class leaves abstract follows the method resolution order: a class whose
/// order starts with itself leaves `n` abstract, with its own declaration, when it
/// declares `n` abstract itself; otherwise it leaves `n` abstract, with the first
/// abstract declaration along its order, exactly when no class along the order
/// implements `n` (a virtual declaration that is not abstract); an implemented
/// method is never left abstract.
pub proof fn lemma_abstract_only_without_implementation(
    direct: Seq<Seq<MethodDecl>>,
    mro: Seq<usize>,
    c: usize,
    n: usize,
)
    requires
        mro.len() > 0,
        mro[0] == c,
    ensures
        resolve_name(direct, mro, c, n).1 == if declares_abstract(direct, c, n) {
            lookup(direct[c as int], n)
        } else if with_abstract(virtual_decls(direct, mro, n), false).len() == 0 {
            first_of(with_abstract(virtual_decls(direct, mro, n), true))
        } else {
            None
        },
{
    let decls = virtual_decls(direct, mro, n);
    let own = lookup(direct[c as int], n);
    if own is Some && own->0.is_virtual {
        lemma_own_decl_first(direct, mro, n);
        if !own->0.is_abstract {
            lemma_with_abstract_first(decls, false);
        }
    } else if decls.len() == 0 {
        assert(with_abstract(decls, false) =~= Seq::<MethodDecl>::empty());
        assert(with_abstract(decls, true) =~= Seq::<MethodDecl>::empty());
    }
}

/// For one name, a class either dispatches it to an implementation or leaves it
/// abstract, never both; it does one of the two exactly when some class along its
/// order declares the name virtual.
pub proof fn lemma_selected_or_abstract(direct: Seq<Seq<MethodDecl>>, mro: Seq<usize>, c: usize, n: usize)
    requires
        mro.len() > 0,
        mro[0] == c,
    ensures
        !(resolve_name(direct, mro, c, n).0 is Some && resolve_name(direct, mro, c, n).1 is Some),
        (resolve_name(direct, mro, c, n).0 is Some || resolve_name(direct, mro, c, n).1 is Some) <==> virtual_decls(
            direct,
            mro,
            n,
        ).len() > 0,
        resolve_name(direct, mro, c, n).0 matches Some(d) ==> d.is_virtual && !d.is_abstract,
        resolve_name(direct, mro, c, n).1 matches Some(d) ==> d.is_virtual && d.is_abstract,
{
    lemma_dispatch_first_implementation(direct, mro, c, n);
    lemma_abstract_only_without_implementation(direct, mro, c, n);
    let decls = virtual_decls(direct, mro, n);
    lemma_with_abstract_split(decls);
    lemma_virtual_decls_virtual(direct, mro, n);
    lemma_with_abstract_kind(decls, false);
    lemma_with_abstract_kind(decls, true);
    let own = lookup(direct[c as int], n);
    if own is Some && own->0.is_virtual {
        lemma_own_decl_first(direct, mro, n);
    }
}

/// Every declaration of `with_abstract(ds, a)` is a declaration of `ds` of that kind.
proof fn lemma_with_abstract_kind(ds: Seq<MethodDecl>, abstract_ones: bool)
    ensures
        forall|i: int|
            0 <= i < with_abstract(ds, abstract_ones).len() ==> (#[trigger] with_abstract(ds, abstract_ones)[i]).is_abstract
                == abstract_ones && ds.contains(with_abstract(ds, abstract_ones)[i]),
    decreases ds.len(),
{
    if ds.len() > 0 {
        let rest = ds.drop_last();
        lemma_with_abstract_kind(rest, abstract_ones);
        let w = with_abstract(ds, abstract_ones);
        let r = with_abstract(rest, abstract_ones);
        assert forall|i: int| 0 <= i < w.len() implies (#[trigger] w[i]).is_abstract == abstract_ones && ds.contains(w[i]) by {
            if i < r.len() {
                assert(w[i] == r[i]);
                let j = choose|j: int| 0 <= j < rest.len() && rest[j] == r[i];
                assert(ds[j] == rest[j]);
            } else {
                assert(w[i] == ds.last());
                assert(ds[ds.len() - 1] == ds.last());
            }
        }
    }
}

/// A list of declarations is empty exactly when both of its kinds are.
proof fn lemma_with_abstract_split(ds: Seq<MethodDecl>)
    ensures
        ds.len() > 0 <==> (with_abstract(ds, false).len() > 0 || with_abstract(ds, true).len() > 0),
    decreases ds.len(),
{
    if ds.len() > 0 {
        lemma_with_abstract_split(ds.drop_last());
    }
}

proof fn lemma_virtual_decls_virtual(direct: Seq<Seq<MethodDecl>>, mro: Seq<usize>, n: usize)
    ensures
        forall|i: int|
            0 <= i < virtual_decls(direct, mro, n).len() ==> (#[trigger] virtual_decls(direct, mro, n)[i]).is_virtual,
    decreases mro.len(),
{
    if mro.len() > 0 {
        lemma_virtual_decls_virtual(direct, mro.drop_last(), n);
        let r = virtual_decls(direct, mro.drop_last(), n);
        assert forall|i: int| 0 <= i < virtual_decls(direct, mro, n).len() implies (#[trigger] virtual_decls(direct, mro, n)[i]).is_virtual by {
            if i < r.len() {
                assert(virtual_decls(direct, mro, n)[i] == r[i]);
            }
        }
    }
}

/// Over all names, what a class dispatches and what it leaves abstract never share
/// a name: a method a class (or an ancestor) implements is not reported abstract.
pub proof fn lemma_selected_and_abstract_disjoint(direct: Seq<Seq<MethodDecl>>, mro: Seq<usize>, c: usize, upto: nat)
    requires
        mro.len() > 0,
        mro[0] == c,
        upto <= usize::MAX,
    ensures
        forall|i: int, j: int|
            0 <= i < resolve_names(direct, mro, c, upto).0.len() && 0 <= j < resolve_names(
                direct,
                mro,
                c,
                upto,
            ).1.len() ==> (#[trigger] resolve_names(direct, mro, c, upto).0[i]).name != (
            #[trigger] resolve_names(direct, mro, c, upto).1[j]).name,
    decreases upto,
{
    if upto > 0 {
        let n = (upto - 1) as usize;
        lemma_selected_and_abstract_disjoint(direct, mro, c, (upto - 1) as nat);
        lemma_resolve_names_sorted(direct, mro, c, (upto - 1) as nat);
        lemma_resolve_name_named(direct, mro, c, n);
        lemma_selected_or_abstract(direct, mro, c, n);
        let prev = resolve_names(direct, mro, c, (upto - 1) as nat);
        let here = resolve_name(direct, mro, c, n);
        let a = prev.0 + opt_seq(here.0);
        let b = prev.1 + opt_seq(here.1);
        assert(resolve_names(direct, mro, c, upto).0 == a);
        assert(resolve_names(direct, mro, c, upto).1 == b);
        assert forall|i: int, j: int| 0 <= i < a.len() && 0 <= j < b.len() implies (#[trigger] a[i]).name != (
            #[trigger] b[j]).name by {
            if i < prev.0.len() && j < prev.1.len() {
                assert(a[i] == prev.0[i] && b[j] == prev.1[j]);
            } else if i < prev.0.len() {
                assert(a[i] == prev.0[i]);
                assert(prev.0[i].name < upto - 1);
            } else if j < prev.1.len() {
                assert(b[j] == prev.1[j]);
                assert(prev.1[j].name < upto - 1);
            } else {
                assert(here.0 is Some && here.1 is Some);
            }
        }
    }
}

proof fn lemma_signature_mismatches_contain(
    ds: Seq<MethodDecl>,
    sig: usize,
    c: usize,
    n: usize,
    x: ResolveIssue,
)
    ensures
        signature_mismatches(ds, sig, c, n).contains(x) <==> exists|k: int|
            0 <= k < ds.len() && (#[trigger] ds[k]).signature != sig && x == (ResolveIssue::SignatureMismatch {
                class: c,
                name: n,
                inherited_owner: ds[k].owner,
            }),
    decreases ds.len(),
{
    if ds.len() > 0 {
        let rest = ds.drop_last();
        lemma_signature_mismatches_contain(rest, sig, c, n, x);
        let r = signature_mismatches(rest, sig, c, n);
        let whole = signature_mismatches(ds, sig, c, n);
        if whole.contains(x) {
            let i = choose|i: int| 0 <= i < whole.len() && whole[i] == x;
            if i < r.len() {
                assert(r[i] == x);
                let k = choose|k: int|
                    0 <= k < rest.len() && (#[trigger] rest[k]).signature != sig && x == (ResolveIssue::SignatureMismatch {
                        class: c,
                        name: n,
                        inherited_owner: rest[k].owner,
                    });
                assert(ds[k] == rest[k]);
            } else {
                assert(ds[ds.len() - 1] == ds.last());
            }
        }
        if exists|k: int|
            0 <= k < ds.len() && (#[trigger] ds[k]).signature != sig && x == (ResolveIssue::SignatureMismatch {
                class: c,
                name: n,
                inherited_owner: ds[k].owner,
            }) {
            let k = choose|k: int|
                0 <= k < ds.len() && (#[trigger] ds[k]).signature != sig && x == (ResolveIssue::SignatureMismatch {
                    class: c,
                    name: n,
                    inherited_owner: ds[k].owner,
                });
            if k < rest.len() {
                assert(rest[k] == ds[k]);
                let i = choose|i: int| 0 <= i < r.len() && r[i] == x;
                assert(whole[i] == x);
            } else {
                assert(ds[k] == ds.last());
                assert(whole[whole.len() - 1] == x);
            }
        }
    }
}

proof fn lemma_unsatisfied_abstracts_contain(
    ds: Seq<MethodDecl>,
    sel: MethodDecl,
    c: usize,
    n: usize,
    x: ResolveIssue,
)
    ensures
        unsatisfied_abstracts(ds, sel, c, n).contains(x) <==> exists|k: int|
            0 <= k < ds.len() && (#[trigger] ds[k]).signature != sel.signature && x == (ResolveIssue::AbstractUnsatisfied {
                class: c,
                name: n,
                implementer: sel.owner,
                declarer: ds[k].owner,
            }),
    decreases ds.len(),
{
    if ds.len() > 0 {
        let rest = ds.drop_last();
        lemma_unsatisfied_abstracts_contain(rest, sel, c, n, x);
        let r = unsatisfied_abstracts(rest, sel, c, n);
        let whole = unsatisfied_abstracts(ds, sel, c, n);
        if whole.contains(x) {
            let i = choose|i: int| 0 <= i < whole.len() && whole[i] == x;
            if i < r.len() {
                assert(r[i] == x);
                let k = choose|k: int|
                    0 <= k < rest.len() && (#[trigger] rest[k]).signature != sel.signature && x == (ResolveIssue::AbstractUnsatisfied {
                        class: c,
                        name: n,
                        implementer: sel.owner,
                        declarer: rest[k].owner,
                    });
                assert(ds[k] == rest[k]);
            } else {
                assert(ds[ds.len() - 1] == ds.last());
            }
        }
        if exists|k: int|
            0 <= k < ds.len() && (#[trigger] ds[k]).signature != sel.signature && x == (ResolveIssue::AbstractUnsatisfied {
                class: c,
                name: n,
                implementer: sel.owner,
                declarer: ds[k].owner,
            }) {
            let k = choose|k: int|
                0 <= k < ds.len() && (#[trigger] ds[k]).signature != sel.signature && x == (ResolveIssue::AbstractUnsatisfied {
                    class: c,
                    name: n,
                    implementer: sel.owner,
                    declarer: ds[k].owner,
                });
            if k < rest.len() {
                assert(rest[k] == ds[k]);
                let i = choose|i: int| 0 <= i < r.len() && r[i] == x;
                assert(whole[i] == x);
            } else {
                assert(ds[k] == ds.last());
                assert(whole[whole.len() - 1] == x);
            }
        }
    }
}

/// The class itself declares `n` virtual.
pub open spec fn declares_virtual(direct: Seq<Seq<MethodDecl>>, c: usize, n: usize) -> bool {
    lookup(direct[c as int], n) matches Some(d) && d.is_virtual
}

/// The rules about `#[override]` that resolution reports for a name: a class that
/// declares `n` virtual must mark it `#[override]` exactly when a class later in its
/// order also declares `n` virtual; a class that does not declare `n` virtual is
/// never reported for it.
pub proof fn lemma_override_rules(direct: Seq<Seq<MethodDecl>>, mro: Seq<usize>, c: usize, n: usize)
    requires
        mro.len() > 0,
        mro[0] == c,
    ensures
        resolve_name(direct, mro, c, n).2.contains((ResolveIssue::OverrideWithoutBase { class: c, name: n }))
            <==> (declares_virtual(direct, c, n) && lookup(direct[c as int], n)->0.is_override && virtual_decls(
            direct,
            mro,
            n,
        ).len() == 1),
        resolve_name(direct, mro, c, n).2.contains((ResolveIssue::MissingOverride { class: c, name: n }))
            <==> (declares_virtual(direct, c, n) && !lookup(direct[c as int], n)->0.is_override && virtual_decls(
            direct,
            mro,
            n,
        ).len() > 1),
{
    let decls = virtual_decls(direct, mro, n);
    let own = lookup(direct[c as int], n);
    let r = resolve_name(direct, mro, c, n);
    let ow = ResolveIssue::OverrideWithoutBase { class: c, name: n };
    let mo = ResolveIssue::MissingOverride { class: c, name: n };
    if declares_virtual(direct, c, n) {
        lemma_own_decl_first(direct, mro, n);
        let cur = own->0;
        let i1 = if cur.is_override && decls.len() == 1 { seq![ow] } else { Seq::empty() };
        let i2 = if !cur.is_override && decls.len() > 1 { seq![mo] } else { Seq::empty() };
        if cur.is_abstract {
            let i3 = match first_mismatch(decls.drop_first(), cur.signature) {
                Some(d) => seq![ResolveIssue::AbstractIncompatible { class: c, name: n, inherited_owner: d.owner }],
                None => Seq::<ResolveIssue>::empty(),
            };
            assert(r.2 == i1 + i2 + i3);
            if i1.len() > 0 {
                assert((i1 + i2 + i3)[0] == ow);
            }
            if i2.len() > 0 {
                assert((i1 + i2 + i3)[i1.len() as int] == mo);
            }
            assert(!(i1 + i2 + i3).contains(ow) || i1.len() > 0);
            assert(!(i1 + i2 + i3).contains(mo) || i2.len() > 0);
        } else {
            let i3 = signature_mismatches(decls.drop_first(), cur.signature, c, n);
            assert(r.2 == i1 + i2 + i3);
            lemma_signature_mismatches_contain(decls.drop_first(), cur.signature, c, n, ow);
            lemma_signature_mismatches_contain(decls.drop_first(), cur.signature, c, n, mo);
            if i1.len() > 0 {
                assert((i1 + i2 + i3)[0] == ow);
            }
            if i2.len() > 0 {
                assert((i1 + i2 + i3)[i1.len() as int] == mo);
            }
            if (i1 + i2 + i3).contains(ow) {
                let k = choose|k: int| 0 <= k < (i1 + i2 + i3).len() && (i1 + i2 + i3)[k] == ow;
                if k >= i1.len() + i2.len() {
                    assert(i3[k - i1.len() - i2.len()] == ow);
                }
            }
            if (i1 + i2 + i3).contains(mo) {
                let k = choose|k: int| 0 <= k < (i1 + i2 + i3).len() && (i1 + i2 + i3)[k] == mo;
                if k >= i1.len() + i2.len() {
                    assert(i3[k - i1.len() - i2.len()] == mo);
                }
            }
        }
    } else if decls.len() > 0 {
        let concrete = with_abstract(decls, false);
        let abstracts = with_abstract(decls, true);
        if concrete.len() > 0 {
            let sel = concrete[0];
            let i1 = if first_mismatch(concrete.drop_first(), sel.signature) is Some {
                seq![ResolveIssue::IncompatibleInherited { class: c, name: n }]
            } else {
                Seq::empty()
            };
            let i2 = unsatisfied_abstracts(abstracts, sel, c, n);
            assert(r.2 == i1 + i2);
            lemma_unsatisfied_abstracts_contain(abstracts, sel, c, n, ow);
            lemma_unsatisfied_abstracts_contain(abstracts, sel, c, n, mo);
            if (i1 + i2).contains(ow) {
                let k = choose|k: int| 0 <= k < (i1 + i2).len() && (i1 + i2)[k] == ow;
                if k >= i1.len() {
                    assert(i2[k - i1.len()] == ow);
                }
            }
            if (i1 + i2).contains(mo) {
                let k = choose|k: int| 0 <= k < (i1 + i2).len() && (i1 + i2)[k] == mo;
                if k >= i1.len() {
                    assert(i2[k - i1.len()] == mo);
                }
            }
        }
    }
}

proof fn lemma_with_abstract_complete(ds: Seq<MethodDecl>, abstract_ones: bool)
    ensures
        forall|k: int|
            0 <= k < ds.len() && (#[trigger] ds[k]).is_abstract == abstract_ones ==> with_abstract(
                ds,
                abstract_ones,
            ).contains(ds[k]),
    decreases ds.len(),
{
    if ds.len() > 0 {
        let rest = ds.drop_last();
        lemma_with_abstract_complete(rest, abstract_ones);
        let w = with_abstract(ds, abstract_ones);
        let r = with_abstract(rest, abstract_ones);
        assert forall|k: int| 0 <= k < ds.len() && (#[trigger] ds[k]).is_abstract == abstract_ones implies w.contains(ds[k]) by {
            if k < rest.len() {
                assert(rest[k] == ds[k]);
                let i = choose|i: int| 0 <= i < r.len() && r[i] == rest[k];
                assert(w[i] == r[i]);
            } else {
                assert(ds[k] == ds.last());
                assert(w[w.len() - 1] == ds.last());
            }
        }
    }
}

/// The signature rule of an implementation a class declares: it is reported
/// against an ancestor's declaration exactly when a class later in the order
/// declares `n` virtual with another signature; a class that does not implement
/// `n` itself is never reported for it.
pub proof fn lemma_signature_rule(direct: Seq<Seq<MethodDecl>>, mro: Seq<usize>, c: usize, n: usize, o: usize)
    requires
        mro.len() > 0,
        mro[0] == c,
    ensures
        resolve_name(direct, mro, c, n).2.contains((ResolveIssue::SignatureMismatch { class: c, name: n, inherited_owner: o }))
            <==> (declares_virtual(direct, c, n) && !lookup(direct[c as int], n)->0.is_abstract && exists|k: int|
            1 <= k < virtual_decls(direct, mro, n).len() && (#[trigger] virtual_decls(direct, mro, n)[k]).owner == o
                && virtual_decls(direct, mro, n)[k].signature != lookup(direct[c as int], n)->0.signature),
{
    let decls = virtual_decls(direct, mro, n);
    let own = lookup(direct[c as int], n);
    let r = resolve_name(direct, mro, c, n);
    let x = ResolveIssue::SignatureMismatch { class: c, name: n, inherited_owner: o };
    if declares_virtual(direct, c, n) {
        lemma_own_decl_first(direct, mro, n);
        let cur = own->0;
        let ow = ResolveIssue::OverrideWithoutBase { class: c, name: n };
        let mo = ResolveIssue::MissingOverride { class: c, name: n };
        let i1 = if cur.is_override && decls.len() == 1 { seq![ow] } else { Seq::empty() };
        let i2 = if !cur.is_override && decls.len() > 1 { seq![mo] } else { Seq::empty() };
        if cur.is_abstract {
            let i3 = match first_mismatch(decls.drop_first(), cur.signature) {
                Some(d) => seq![ResolveIssue::AbstractIncompatible { class: c, name: n, inherited_owner: d.owner }],
                None => Seq::<ResolveIssue>::empty(),
            };
            assert(r.2 == i1 + i2 + i3);
            if (i1 + i2 + i3).contains(x) {
                let k = choose|k: int| 0 <= k < (i1 + i2 + i3).len() && (i1 + i2 + i3)[k] == x;
                if k < i1.len() {
                    assert(i1[k] == x);
                } else if k < i1.len() + i2.len() {
                    assert(i2[k - i1.len()] == x);
                } else {
                    assert(i3[k - i1.len() - i2.len()] == x);
                }
            }
        } else {
            let inh = decls.drop_first();
            let i3 = signature_mismatches(inh, cur.signature, c, n);
            assert(r.2 == i1 + i2 + i3);
            lemma_signature_mismatches_contain(inh, cur.signature, c, n, x);
            if (i1 + i2 + i3).contains(x) {
                let k = choose|k: int| 0 <= k < (i1 + i2 + i3).len() && (i1 + i2 + i3)[k] == x;
                if k < i1.len() {
                    assert(i1[k] == x);
                } else if k < i1.len() + i2.len() {
                    assert(i2[k - i1.len()] == x);
                } else {
                    assert(i3[k - i1.len() - i2.len()] == x);
                }
                let j = choose|j: int|
                    0 <= j < inh.len() && (#[trigger] inh[j]).signature != cur.signature && x == (ResolveIssue::SignatureMismatch {
                        class: c,
                        name: n,
                        inherited_owner: inh[j].owner,
                    });
                assert(decls[j + 1] == inh[j]);
            }
            if exists|k: int|
                1 <= k < decls.len() && (#[trigger] decls[k]).owner == o && decls[k].signature != cur.signature {
                let k = choose|k: int|
                    1 <= k < decls.len() && (#[trigger] decls[k]).owner == o && decls[k].signature != cur.signature;
                assert(inh[k - 1] == decls[k]);
                assert(i3.contains(x));
                let j = choose|j: int| 0 <= j < i3.len() && i3[j] == x;
                assert((i1 + i2 + i3)[i1.len() + i2.len() + j] == x);
            }
        }
    } else if decls.len() > 0 {
        let concrete = with_abstract(decls, false);
        let abstracts = with_abstract(decls, true);
        if concrete.len() > 0 {
            let sel = concrete[0];
            let i1 = if first_mismatch(concrete.drop_first(), sel.signature) is Some {
                seq![ResolveIssue::IncompatibleInherited { class: c, name: n }]
            } else {
                Seq::empty()
            };
            let i2 = unsatisfied_abstracts(abstracts, sel, c, n);
            assert(r.2 == i1 + i2);
            lemma_unsatisfied_abstracts_contain(abstracts, sel, c, n, x);
            if (i1 + i2).contains(x) {
                let k = choose|k: int| 0 <= k < (i1 + i2).len() && (i1 + i2)[k] == x;
                if k < i1.len() {
                    assert(i1[k] == x);
                } else {
                    assert(i2[k - i1.len()] == x);
                }
            }
        } else if abstracts.len() > 0 {
            let req = abstracts[0];
            let i1 = if first_mismatch(abstracts.drop_first(), req.signature) is Some {
                seq![ResolveIssue::AbstractConflict { class: c, name: n }]
            } else {
                Seq::empty()
            };
            assert(r.2 == i1);
            if i1.contains(x) {
                let k = choose|k: int| 0 <= k < i1.len() && i1[k] == x;
                assert(i1[k] == x);
            }
        }
    }
}

/// An implementation a class inherits must satisfy every abstract declaration
/// along the order: with no own virtual declaration of `n`, resolution reports the
/// first implementation along the order against exactly the abstract declarations
/// whose signature differs from it.
pub proof fn lemma_inherited_implementation_rule(
    direct: Seq<Seq<MethodDecl>>,
    mro: Seq<usize>,
    c: usize,
    n: usize,
    implementer: usize,
    declarer: usize,
)
    requires
        mro.len() > 0,
        mro[0] == c,
    ensures
        resolve_name(direct, mro, c, n).2.contains(
            (ResolveIssue::AbstractUnsatisfied { class: c, name: n, implementer: implementer, declarer: declarer }),
        ) <==> (!declares_virtual(direct, c, n) && first_of(with_abstract(virtual_decls(direct, mro, n), false))
            is Some && first_of(with_abstract(virtual_decls(direct, mro, n), false))->0.owner == implementer
            && exists|k: int|
            0 <= k < virtual_decls(direct, mro, n).len() && (#[trigger] virtual_decls(direct, mro, n)[k]).is_abstract
                && virtual_decls(direct, mro, n)[k].owner == declarer && virtual_decls(direct, mro, n)[k].signature
                != first_of(with_abstract(virtual_decls(direct, mro, n), false))->0.signature),
{
    let decls = virtual_decls(direct, mro, n);
    let own = lookup(direct[c as int], n);
    let r = resolve_name(direct, mro, c, n);
    let x = ResolveIssue::AbstractUnsatisfied { class: c, name: n, implementer: implementer, declarer: declarer };
    let concrete = with_abstract(decls, false);
    let abstracts = with_abstract(decls, true);
    lemma_with_abstract_kind(decls, true);
    lemma_with_abstract_complete(decls, true);
    if declares_virtual(direct, c, n) {
        lemma_own_decl_first(direct, mro, n);
        let cur = own->0;
        let ow = ResolveIssue::OverrideWithoutBase { class: c, name: n };
        let mo = ResolveIssue::MissingOverride { class: c, name: n };
        let i1 = if cur.is_override && decls.len() == 1 { seq![ow] } else { Seq::empty() };
        let i2 = if !cur.is_override && decls.len() > 1 { seq![mo] } else { Seq::empty() };
        if cur.is_abstract {
            let i3 = match first_mismatch(decls.drop_first(), cur.signature) {
                Some(d) => seq![ResolveIssue::AbstractIncompatible { class: c, name: n, inherited_owner: d.owner }],
                None => Seq::<ResolveIssue>::empty(),
            };
            assert(r.2 == i1 + i2 + i3);
            if (i1 + i2 + i3).contains(x) {
                let k = choose|k: int| 0 <= k < (i1 + i2 + i3).len() && (i1 + i2 + i3)[k] == x;
                if k < i1.len() {
                    assert(i1[k] == x);
                } else if k < i1.len() + i2.len() {
                    assert(i2[k - i1.len()] == x);
                } else {
                    assert(i3[k - i1.len() - i2.len()] == x);
                }
            }
        } else {
            let inh = decls.drop_first();
            let i3 = signature_mismatches(inh, cur.signature, c, n);
            assert(r.2 == i1 + i2 + i3);
            lemma_signature_mismatches_contain(inh, cur.signature, c, n, x);
            if (i1 + i2 + i3).contains(x) {
                let k = choose|k: int| 0 <= k < (i1 + i2 + i3).len() && (i1 + i2 + i3)[k] == x;
                if k < i1.len() {
                    assert(i1[k] == x);
                } else if k < i1.len() + i2.len() {
                    assert(i2[k - i1.len()] == x);
                } else {
                    assert(i3[k - i1.len() - i2.len()] == x);
                }
            }
        }
    } else if decls.len() > 0 {
        if concrete.len() > 0 {
            let sel = concrete[0];
            let i1 = if first_mismatch(concrete.drop_first(), sel.signature) is Some {
                seq![ResolveIssue::IncompatibleInherited { class: c, name: n }]
            } else {
                Seq::empty()
            };
            let i2 = unsatisfied_abstracts(abstracts, sel, c, n);
            assert(r.2 == i1 + i2);
            lemma_unsatisfied_abstracts_contain(abstracts, sel, c, n, x);
            if (i1 + i2).contains(x) {
                let k = choose|k: int| 0 <= k < (i1 + i2).len() && (i1 + i2)[k] == x;
                if k < i1.len() {
                    assert(i1[k] == x);
                } else {
                    assert(i2[k - i1.len()] == x);
                }
                let j = choose|j: int|
                    0 <= j < abstracts.len() && (#[trigger] abstracts[j]).signature != sel.signature && x == (ResolveIssue::AbstractUnsatisfied {
                        class: c,
                        name: n,
                        implementer: sel.owner,
                        declarer: abstracts[j].owner,
                    });
                assert(decls.contains(abstracts[j]));
                let k2 = choose|k2: int| 0 <= k2 < decls.len() && decls[k2] == abstracts[j];
                assert(decls[k2].is_abstract);
            }
            if sel.owner == implementer && exists|k: int|
                0 <= k < decls.len() && (#[trigger] decls[k]).is_abstract && decls[k].owner == declarer
                    && decls[k].signature != sel.signature {
                let k = choose|k: int|
                    0 <= k < decls.len() && (#[trigger] decls[k]).is_abstract && decls[k].owner == declarer
                        && decls[k].signature != sel.signature;
                assert(abstracts.contains(decls[k]));
                let j = choose|j: int| 0 <= j < abstracts.len() && abstracts[j] == decls[k];
                assert(i2.contains(x));
                let m = choose|m: int| 0 <= m < i2.len() && i2[m] == x;
                assert((i1 + i2)[i1.len() + m] == x);
            }
        } else {
            if abstracts.len() > 0 {
                let req = abstracts[0];
                let i1 = if first_mismatch(abstracts.drop_first(), req.signature) is Some {
                    seq![ResolveIssue::AbstractConflict { class: c, name: n }]
                } else {
                    Seq::empty()
                };
                assert(r.2 == i1);
                if i1.contains(x) {
                    let k = choose|k: int| 0 <= k < i1.len() && i1[k] == x;
                    assert(i1[k] == x);
                }
            }
        }
    } else {
        assert(concrete =~= Seq::<MethodDecl>::empty());
    }
}

/// The lists resolution gives a class hold exactly its answer for each name below
/// `upto`: a declaration is selected (left abstract) exactly when it is the one the
/// class selects (leaves abstract) for its name.
pub proof fn lemma_resolve_names_members(direct: Seq<Seq<MethodDecl>>, mro: Seq<usize>, c: usize, upto: nat, d: MethodDecl)
    requires
        upto <= usize::MAX,
    ensures
        resolve_names(direct, mro, c, upto).0.contains(d) <==> (d.name < upto && resolve_name(direct, mro, c, d.name).0
            == Some(d)),
        resolve_names(direct, mro, c, upto).1.contains(d) <==> (d.name < upto && resolve_name(direct, mro, c, d.name).1
            == Some(d)),
    decreases upto,
{
    if upto > 0 {
        let n = (upto - 1) as usize;
        lemma_resolve_names_members(direct, mro, c, (upto - 1) as nat, d);
        lemma_resolve_name_named(direct, mro, c, n);
        let prev = resolve_names(direct, mro, c, (upto - 1) as nat);
        let here = resolve_name(direct, mro, c, n);
        let a = prev.0 + opt_seq(here.0);
        let b = prev.1 + opt_seq(here.1);
        assert(resolve_names(direct, mro, c, upto).0 == a);
        assert(resolve_names(direct, mro, c, upto).1 == b);
        if a.contains(d) {
            let i = choose|i: int| 0 <= i < a.len() && a[i] == d;
            if i < prev.0.len() {
                assert(prev.0[i] == d);
            }
        }
        if d.name < upto && resolve_name(direct, mro, c, d.name).0 == Some(d) {
            if d.name == n {
                assert(a[a.len() - 1] == d);
            } else {
                let i = choose|i: int| 0 <= i < prev.0.len() && prev.0[i] == d;
                assert(a[i] == d);
            }
        }
        if b.contains(d) {
            let i = choose|i: int| 0 <= i < b.len() && b[i] == d;
            if i < prev.1.len() {
                assert(prev.1[i] == d);
            }
        }
        if d.name < upto && resolve_name(direct, mro, c, d.name).1 == Some(d) {
            if d.name == n {
                assert(b[b.len() - 1] == d);
            } else {
                let i = choose|i: int| 0 <= i < prev.1.len() && prev.1[i] == d;
                assert(b[i] == d);
            }
        }
    }
}

/// The interface of a class from what it selects and what it leaves abstract, both
/// in name order: every name of either, in name order, with the abstract
/// declaration where both have the name.
pub open spec fn merge_by_name(a: Seq<MethodDecl>, b: Seq<MethodDecl>) -> Seq<MethodDecl>
    decreases a.len() + b.len(),
{
    if a.len() == 0 {
        b
    } else if b.len() == 0 {
        a
    } else if a[0].name < b[0].name {
        seq![a[0]] + merge_by_name(a.drop_first(), b)
    } else if b[0].name < a[0].name {
        seq![b[0]] + merge_by_name(a, b.drop_first())
    } else {
        seq![b[0]] + merge_by_name(a.drop_first(), b.drop_first())
    }
}

/// The virtual methods of a class's interface (see `merge_by_name`): `selected` and
/// `unresolved` are what resolution gives the class.
pub fn interface_methods(selected: &Vec<MethodDecl>, unresolved: &Vec<MethodDecl>) -> (res: Vec<MethodDecl>)
    ensures
        res@ == merge_by_name(selected@, unresolved@),
{
    let mut res: Vec<MethodDecl> = Vec::new();
    let mut i: usize = 0;
    let mut j: usize = 0;
    assert(selected@.subrange(0, selected@.len() as int) =~= selected@);
    assert(unresolved@.subrange(0, unresolved@.len() as int) =~= unresolved@);
    while i < selected.len() || j < unresolved.len()
        invariant
            i <= selected@.len(),
            j <= unresolved@.len(),
            res@ + merge_by_name(
                selected@.subrange(i as int, selected@.len() as int),
                unresolved@.subrange(j as int, unresolved@.len() as int),
            ) == merge_by_name(selected@, unresolved@),
        decreases selected@.len() - i + unresolved@.len() - j,
    {
        let ghost a = selected@.subrange(i as int, selected@.len() as int);
        let ghost b = unresolved@.subrange(j as int, unresolved@.len() as int);
        let ghost before = res@;
        if i < selected.len() {
            assert(a[0] == selected@[i as int]);
            assert(a.drop_first() =~= selected@.subrange(i + 1, selected@.len() as int));
        }
        if j < unresolved.len() {
            assert(b[0] == unresolved@[j as int]);
            assert(b.drop_first() =~= unresolved@.subrange(j + 1, unresolved@.len() as int));
        }
        if j == unresolved.len() {
            res.push(selected[i]);
            i = i + 1;
            assert(b.len() == 0);
            assert(merge_by_name(a, b) == a);
            assert(a =~= seq![a[0]] + a.drop_first());
            assert(merge_by_name(a.drop_first(), b) == a.drop_first());
            assert(before + merge_by_name(a, b) =~= res@ + merge_by_name(a.drop_first(), b));
        } else if i == selected.len() {
            res.push(unresolved[j]);
            j = j + 1;
            assert(a.len() == 0);
            assert(b =~= seq![b[0]] + b.drop_first());
            assert(before + merge_by_name(a, b) =~= res@ + merge_by_name(a, b.drop_first()));
        } else if selected[i].name < unresolved[j].name {
            res.push(selected[i]);
            i = i + 1;
            assert(before + merge_by_name(a, b) =~= res@ + merge_by_name(a.drop_first(), b));
        } else if unresolved[j].name < selected[i].name {
            res.push(unresolved[j]);
            j = j + 1;
            assert(before + merge_by_name(a, b) =~= res@ + merge_by_name(a, b.drop_first()));
        } else {
            res.push(unresolved[j]);
            i = i + 1;
            j = j + 1;
            assert(before + merge_by_name(a, b) =~= res@ + merge_by_name(a.drop_first(), b.drop_first()));
        }
    }
    assert(selected@.subrange(i as int, selected@.len() as int) =~= Seq::<MethodDecl>::empty());
    assert(unresolved@.subrange(j as int, unresolved@.len() as int) =~= Seq::<MethodDecl>::empty());
    assert(res@ + Seq::<MethodDecl>::empty() =~= res@);
    res
}

/// The implementation that the virtual table of a class runs for the interface
/// method `m` of one of its ancestors: the implementation the class selects for
/// `m`'s name, when it has `m`'s signature; else none, and the entry reports the
/// method as abstract.
pub open spec fn vtable_target(selected: Seq<MethodDecl>, m: MethodDecl) -> Option<MethodDecl> {
    match lookup(selected, m.name) {
        Some(d) => if d.signature == m.signature {
            Some(d)
        } else {
            None
        },
        None => None,
    }
}

/// The implementation behind a virtual-table entry (see `vtable_target`).
pub fn vtable_entry(selected: &Vec<MethodDecl>, method: MethodDecl) -> (res: Option<MethodDecl>)
    ensures
        res == vtable_target(selected@, method),
{
    match find_decl(selected, method.name) {
        Some(d) => if d.signature == method.signature {
            Some(d)
        } else {
            None
        },
        None => None,
    }
}

pub(crate) fn find_decl(ds: &Vec<MethodDecl>, n: usize) -> (res: Option<MethodDecl>)
    ensures
        res == lookup(ds@, n),
{
    let mut k: usize = 0;
    assert(ds@.subrange(0, ds@.len() as int) =~= ds@);
    while k < ds.len()
        invariant
            k <= ds@.len(),
            lookup(ds@, n) == lookup(ds@.subrange(k as int, ds@.len() as int), n),
        decreases ds@.len() - k,
    {
        let ghost rest = ds@.subrange(k as int, ds@.len() as int);
        assert(rest[0] == ds@[k as int]);
        assert(rest.drop_first() =~= ds@.subrange(k + 1, ds@.len() as int));
        if ds[k].name == n {
            return Some(ds[k]);
        }
        k = k + 1;
    }
    None
}

fn collect_virtual_decls(direct: &[Vec<MethodDecl>], mro: &Vec<usize>, n: usize) -> (res: Vec<MethodDecl>)
    requires
        forall|k: int| 0 <= k < mro@.len() ==> #[trigger] mro@[k] < direct@.len(),
    ensures
        res@ == virtual_decls(decls_view(direct@), mro@, n),
{
    let ghost dv = decls_view(direct@);
    let mut res: Vec<MethodDecl> = Vec::new();
    let mut t: usize = 0;
    assert(mro@.take(0) =~= Seq::<usize>::empty());
    while t < mro.len()
        invariant
            dv == decls_view(direct@),
            forall|k: int| 0 <= k < mro@.len() ==> #[trigger] mro@[k] < direct@.len(),
            t <= mro@.len(),
            res@ == virtual_decls(dv, mro@.take(t as int), n),
        decreases mro@.len() - t,
    {
        let mc = mro[t];
        proof {
            assert(mro@.take(t + 1).drop_last() =~= mro@.take(t as int));
            assert(mro@.take(t + 1).last() == mc);
            assert(dv[mc as int] == direct@[mc as int]@);
        }
        match find_decl(&direct[mc], n) {
            Some(d) => {
                if d.is_virtual {
                    res.push(d);
                }
            },
            None => {},
        }
        t = t + 1;
    }
    assert(mro@.take(mro@.len() as int) =~= mro@);
    res
}

fn split_abstract(ds: &Vec<MethodDecl>, abstract_ones: bool) -> (res: Vec<MethodDecl>)
    ensures
        res@ == with_abstract(ds@, abstract_ones),
{
    let mut res: Vec<MethodDecl> = Vec::new();
    let mut t: usize = 0;
    assert(ds@.take(0) =~= Seq::<MethodDecl>::empty());
    while t < ds.len()
        invariant
            t <= ds@.len(),
            res@ == with_abstract(ds@.take(t as int), abstract_ones),
        decreases ds@.len() - t,
    {
        proof {
            assert(ds@.take(t + 1).drop_last() =~= ds@.take(t as int));
            assert(ds@.take(t + 1).last() == ds@[t as int]);
        }
        if ds[t].is_abstract == abstract_ones {
            res.push(ds[t]);
        }
        t = t + 1;
    }
    assert(ds@.take(ds@.len() as int) =~= ds@);
    res
}

/// The first declaration of `ds[from..]` whose signature is not `sig`.
fn find_mismatch(ds: &Vec<MethodDecl>, from: usize, sig: usize) -> (res: Option<MethodDecl>)
    requires
        from <= ds@.len(),
    ensures
        res == first_mismatch(ds@.subrange(from as int, ds@.len() as int), sig),
{
    let mut k: usize = from;
    while k < ds.len()
        invariant
            from <= k <= ds@.len(),
            first_mismatch(ds@.subrange(from as int, ds@.len() as int), sig) == first_mismatch(
                ds@.subrange(k as int, ds@.len() as int),
                sig,
            ),
        decreases ds@.len() - k,
    {
        let ghost rest = ds@.subrange(k as int, ds@.len() as int);
        assert(rest[0] == ds@[k as int]);
        assert(rest.drop_first() =~= ds@.subrange(k + 1, ds@.len() as int));
        if ds[k].signature != sig {
            return Some(ds[k]);
        }
        k = k + 1;
    }
    None
}

fn push_signature_mismatches(
    ds: &Vec<MethodDecl>,
    from: usize,
    sig: usize,
    c: usize,
    n: usize,
    issues: &mut Vec<ResolveIssue>,
)
    requires
        from <= ds@.len(),
    ensures
        final(issues)@ == old(issues)@ + signature_mismatches(
            ds@.subrange(from as int, ds@.len() as int),
            sig,
            c,
            n,
        ),
{
    let ghost start = issues@;
    let mut k: usize = from;
    assert(ds@.subrange(from as int, from as int) =~= Seq::<MethodDecl>::empty());
    assert(start + Seq::<ResolveIssue>::empty() =~= start);
    while k < ds.len()
        invariant
            from <= k <= ds@.len(),
            issues@ == start + signature_mismatches(ds@.subrange(from as int, k as int), sig, c, n),
        decreases ds@.len() - k,
    {
        proof {
            let pre = ds@.subrange(from as int, k + 1);
            assert(pre.drop_last() =~= ds@.subrange(from as int, k as int));
            assert(pre.last() == ds@[k as int]);
        }
        if ds[k].signature != sig {
            issues.push(ResolveIssue::SignatureMismatch { class: c, name: n, inherited_owner: ds[k].owner });
        }
        k = k + 1;
    }
}

fn push_unsatisfied_abstracts(
    ds: &Vec<MethodDecl>,
    sel: MethodDecl,
    c: usize,
    n: usize,
    issues: &mut Vec<ResolveIssue>,
)
    ensures
        final(issues)@ == old(issues)@ + unsatisfied_abstracts(ds@, sel, c, n),
{
    let ghost start = issues@;
    let mut k: usize = 0;
    assert(ds@.take(0) =~= Seq::<MethodDecl>::empty());
    assert(start + Seq::<ResolveIssue>::empty() =~= start);
    while k < ds.len()
        invariant
            k <= ds@.len(),
            issues@ == start + unsatisfied_abstracts(ds@.take(k as int), sel, c, n),
        decreases ds@.len() - k,
    {
        proof {
            assert(ds@.take(k + 1).drop_last() =~= ds@.take(k as int));
            assert(ds@.take(k + 1).last() == ds@[k as int]);
        }
        if ds[k].signature != sel.signature {
            issues.push(
                ResolveIssue::AbstractUnsatisfied {
                    class: c,
                    name: n,
                    implementer: sel.owner,
                    declarer: ds[k].owner,
                },
            );
        }
        k = k + 1;
    }
    assert(ds@.take(ds@.len() as int) =~= ds@);
}

/// Resolves the method named `n` in class `c` (see `resolve_name`), appending the
/// outcome to `selected`, `unresolved` and `issues`.
fn resolve_one(
    direct: &[Vec<MethodDecl>],
    mro: &Vec<usize>,
    c: usize,
    n: usize,
    selected: &mut Vec<MethodDecl>,
    unresolved: &mut Vec<MethodDecl>,
    issues: &mut Vec<ResolveIssue>,
)
    requires
        c < direct@.len(),
        forall|k: int| 0 <= k < mro@.len() ==> #[trigger] mro@[k] < direct@.len(),
    ensures
        ({
            let r = resolve_name(decls_view(direct@), mro@, c, n);
            &&& final(selected)@ == old(selected)@ + opt_seq(r.0)
            &&& final(unresolved)@ == old(unresolved)@ + opt_seq(r.1)
            &&& final(issues)@ == old(issues)@ + r.2
        }),
{
    let ghost dv = decls_view(direct@);
    let ghost s0 = selected@;
    let ghost u0 = unresolved@;
    let ghost i0 = issues@;
    let decls = collect_virtual_decls(direct, mro, n);
    if decls.len() == 0 {
        assert(s0 + opt_seq(None) =~= s0);
        assert(u0 + opt_seq(None) =~= u0);
        assert(i0 + Seq::<ResolveIssue>::empty() =~= i0);
        return;
    }
    assert(dv[c as int] == direct@[c as int]@);
    let current = find_decl(&direct[c], n);
    let ghost r = resolve_name(dv, mro@, c, n);
    match current {
        Some(cur) if cur.is_virtual => {
            if cur.is_override && decls.len() == 1 {
                issues.push(ResolveIssue::OverrideWithoutBase { class: c, name: n });
            }
            if !cur.is_override && decls.len() > 1 {
                issues.push(ResolveIssue::MissingOverride { class: c, name: n });
            }
            let ghost i12 = issues@;
            assert(decls@.subrange(1, decls@.len() as int) =~= decls@.drop_first());
            if cur.is_abstract {
                match find_mismatch(&decls, 1, cur.signature) {
                    Some(d) => {
                        issues.push(
                            ResolveIssue::AbstractIncompatible { class: c, name: n, inherited_owner: d.owner },
                        );
                    },
                    None => {},
                }
                unresolved.push(cur);
                assert(s0 + opt_seq(None) =~= s0);
                assert(issues@ =~= i0 + r.2);
            } else {
                push_signature_mismatches(&decls, 1, cur.signature, c, n, issues);
                selected.push(cur);
                assert(u0 + opt_seq(None) =~= u0);
                assert(issues@ =~= i0 + r.2);
            }
        },
        _ => {
            let concrete = split_abstract(&decls, false);
            let abstracts = split_abstract(&decls, true);
            if concrete.len() > 0 {
                let sel = concrete[0];
                assert(concrete@.subrange(1, concrete@.len() as int) =~= concrete@.drop_first());
                if find_mismatch(&concrete, 1, sel.signature).is_some() {
                    issues.push(ResolveIssue::IncompatibleInherited { class: c, name: n });
                }
                push_unsatisfied_abstracts(&abstracts, sel, c, n, issues);
                selected.push(sel);
                assert(u0 + opt_seq(None) =~= u0);
                assert(issues@ =~= i0 + r.2);
            } else if abstracts.len() > 0 {
                let req = abstracts[0];
                assert(abstracts@.subrange(1, abstracts@.len() as int) =~= abstracts@.drop_first());
                if find_mismatch(&abstracts, 1, req.signature).is_some() {
                    issues.push(ResolveIssue::AbstractConflict { class: c, name: n });
                }
                unresolved.push(req);
                assert(s0 + opt_seq(None) =~= s0);
                assert(issues@ =~= i0 + r.2);
            } else {
                assert(s0 + opt_seq(None) =~= s0);
                assert(u0 + opt_seq(None) =~= u0);
                assert(i0 + Seq::<ResolveIssue>::empty() =~= i0);
            }
        },
    }
}

/// Resolves the virtual methods of every class: `direct[c]` lists the methods class
/// `c` declares, ordered by name id with each name once, `mros[c]` is its method
/// resolution order, and name ids are below `name_count`.
pub fn resolve_methods(direct: &[Vec<MethodDecl>], mros: &[Vec<usize>], name_count: usize) -> (res:
    Resolution)
    requires
        mros@.len() <= direct@.len(),
        forall|c: int, k: int|
            0 <= c < mros@.len() && 0 <= k < mros@[c]@.len() ==> #[trigger] mros@[c]@[k]
                < direct@.len(),
    ensures
        res.selected@.len() == mros@.len(),
        res.unresolved@.len() == mros@.len(),
        forall|c: int|
            0 <= c < mros@.len() ==> (#[trigger] res.selected@[c])@ == resolve_names(
                decls_view(direct@),
                mros@[c]@,
                c as usize,
                name_count as nat,
            ).0,
        forall|c: int|
            0 <= c < mros@.len() ==> (#[trigger] res.unresolved@[c])@ == resolve_names(
                decls_view(direct@),
                mros@[c]@,
                c as usize,
                name_count as nat,
            ).1,
        res.issues@ == resolve_issues(
            decls_view(direct@),
            seqs_view(mros@),
            name_count as nat,
            mros@.len() as nat,
        ),
        forall|c: int|
            0 <= c < mros@.len() ==> sorted_by_name((#[trigger] res.selected@[c])@) && sorted_by_name(
                res.unresolved@[c]@,
            ),
{
    let ghost dv = decls_view(direct@);
    let ghost mv = seqs_view(mros@);
    let mut selected_by_class: Vec<Vec<MethodDecl>> = Vec::new();
    let mut abstract_by_class: Vec<Vec<MethodDecl>> = Vec::new();
    let mut issues: Vec<ResolveIssue> = Vec::new();
    let mut c: usize = 0;
    while c < mros.len()
        invariant
            dv == decls_view(direct@),
            mv == seqs_view(mros@),
            mros@.len() <= direct@.len(),
            forall|c2: int, k: int|
                0 <= c2 < mros@.len() && 0 <= k < mros@[c2]@.len() ==> #[trigger] mros@[c2]@[k]
                    < direct@.len(),
            c <= mros@.len(),
            selected_by_class@.len() == c,
            abstract_by_class@.len() == c,
            forall|c2: int|
                0 <= c2 < c ==> (#[trigger] selected_by_class@[c2])@ == resolve_names(
                    dv,
                    mros@[c2]@,
                    c2 as usize,
                    name_count as nat,
                ).0,
            forall|c2: int|
                0 <= c2 < c ==> (#[trigger] abstract_by_class@[c2])@ == resolve_names(
                    dv,
                    mros@[c2]@,
                    c2 as usize,
                    name_count as nat,
                ).1,
            issues@ == resolve_issues(dv, mv, name_count as nat, c as nat),
        decreases mros@.len() - c,
    {
        let mro = &mros[c];
        let mut selected: Vec<MethodDecl> = Vec::new();
        let mut unresolved: Vec<MethodDecl> = Vec::new();
        let ghost before = issues@;
        let mut n: usize = 0;
        while n < name_count
            invariant
                dv == decls_view(direct@),
                c < direct@.len(),
                mro@ == mros@[c as int]@,
                forall|k: int| 0 <= k < mro@.len() ==> #[trigger] mro@[k] < direct@.len(),
                n <= name_count,
                ({
                    let r = resolve_names(dv, mro@, c, n as nat);
                    &&& selected@ == r.0
                    &&& unresolved@ == r.1
                    &&& issues@ == before + r.2
                }),
            decreases name_count - n,
        {
            let ghost prev = issues@;
            proof {
                assert forall|k: int| 0 <= k < mro@.len() implies #[trigger] mro@[k] < direct@.len() by {}
            }
            resolve_one(direct, mro, c, n, &mut selected, &mut unresolved, &mut issues);
            proof {
                let r = resolve_names(dv, mro@, c, n as nat);
                let h = resolve_name(dv, mro@, c, n);
                assert(((n + 1) - 1) as usize == n);
                assert(issues@ =~= before + (r.2 + h.2));
            }
            n = n + 1;
        }
        proof {
            assert(mv[c as int] == mros@[c as int]@);
            assert(issues@ =~= resolve_issues(dv, mv, name_count as nat, (c + 1) as nat));
        }
        selected_by_class.push(selected);
        abstract_by_class.push(unresolved);
        c = c + 1;
    }
    proof {
        assert forall|c2: int| 0 <= c2 < mros@.len() implies sorted_by_name(
            (#[trigger] selected_by_class@[c2])@,
        ) && sorted_by_name(abstract_by_class@[c2]@) by {
            lemma_resolve_names_sorted(dv, mros@[c2]@, c2 as usize, name_count as nat);
        }
    }
    Resolution { selected: selected_by_class, unresolved: abstract_by_class, issues }
}

/// How the virtual-table function of a class runs an interface method: the
/// implementation it calls (`None`: it reports the method as abstract), whether it
/// returns a boxed future (the method is `async`), whether it is itself an
/// `unsafe fn` (the interface method is), and whether the call of the
/// implementation sits in an `unsafe` block (the implementation is `unsafe`).
#[derive(Clone, Copy, Debug, PartialEq, Eq, Structural)]
pub struct VtableDispatch {
    pub target: Option<MethodDecl>,
    pub is_async: bool,
    pub unsafe_fn: bool,
    pub unsafe_call: bool,
}

pub open spec fn dispatch_of(selected: Seq<MethodDecl>, m: MethodDecl) -> VtableDispatch {
    VtableDispatch {
        target: vtable_target(selected, m),
        is_async: m.is_async,
        unsafe_fn: m.is_unsafe,
        unsafe_call: match vtable_target(selected, m) {
            Some(d) => d.is_unsafe,
            None => false,
        },
    }
}

/// The dispatch of a virtual-table entry (see `dispatch_of`).
pub fn vtable_dispatch(selected: &Vec<MethodDecl>, method: MethodDecl) -> (res: VtableDispatch)
    ensures
        res == dispatch_of(selected@, method),
{
    let target = vtable_entry(selected, method);
    let unsafe_call = match target {
        Some(d) => d.is_unsafe,
        None => false,
    };
    VtableDispatch { target, is_async: method.is_async, unsafe_fn: method.is_unsafe, unsafe_call }
}

} // verus!

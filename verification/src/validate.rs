use vstd::prelude::*;

use crate::c3::seqs_view;
use crate::c3::well_formed;
use crate::graph::{acyclic, edge_graph, BaseEdge};
use crate::subobjects::{virtual_base_type_list, virtual_base_types};
use crate::methods::{decls_view, lookup, MethodDecl, ReceiverKind};
use crate::names::names_view;
use crate::text::{starts_with, str_eq};
use crate::generics::{base_call_key, constructor_base_call_key, explicit_generics, ConstructorBaseCall};

verus! {

// ---------------------------------------------------------------------------
// Class declarations and their bases
// ---------------------------------------------------------------------------

/// A rule that the class declarations of a block break.
#[derive(Clone, Copy, Debug, PartialEq, Eq, Structural)]
pub enum DeclIssue {
    /// `#[override]` on a class.
    OverrideOnClass { class: usize },
    /// A class with the name of an earlier class.
    DuplicateClass { class: usize },
    /// The base-cast trait `As<name>` of the class would have a class's name.
    CastNameConflict { class: usize },
    /// The base at `position` names no class.
    UnknownBase { class: usize, position: usize },
    /// The base at `position` repeats an earlier base of the class.
    DuplicateBase { class: usize, position: usize },
}

/// The resolved bases of every class and the broken rules.
pub struct Declarations {
    pub bases: Vec<Vec<usize>>,
    /// The same bases as edges, each marked virtual or not.
    pub edges: Vec<Vec<BaseEdge>>,
    pub issues: Vec<DeclIssue>,
}

/// The index of the last class named `x`; a later class with a repeated name
/// shadows the earlier one.
pub open spec fn last_named(names: Seq<Seq<char>>, x: Seq<char>) -> Option<usize>
    decreases names.len(),
{
    if names.len() == 0 {
        None
    } else if names.last() == x {
        Some((names.len() - 1) as usize)
    } else {
        last_named(names.drop_last(), x)
    }
}

/// Some item before index `k` of `s` equals `s[k]`.
pub open spec fn repeats_earlier<T>(s: Seq<T>, k: int) -> bool {
    exists|j: int| 0 <= j < k && s[j] == s[k]
}

pub open spec fn name_issues(names: Seq<Seq<char>>, overrides: Seq<bool>, k: nat) -> Seq<DeclIssue>
    decreases k,
{
    if k == 0 {
        Seq::empty()
    } else {
        let c = (k - 1) as usize;
        name_issues(names, overrides, (k - 1) as nat) + (if overrides[c as int] {
            seq![DeclIssue::OverrideOnClass { class: c }]
        } else {
            Seq::empty()
        }) + (if repeats_earlier(names, c as int) {
            seq![DeclIssue::DuplicateClass { class: c }]
        } else {
            Seq::empty()
        })
    }
}

pub open spec fn cast_issues(names: Seq<Seq<char>>, k: nat) -> Seq<DeclIssue>
    decreases k,
{
    if k == 0 {
        Seq::empty()
    } else {
        let c = (k - 1) as usize;
        cast_issues(names, (k - 1) as nat) + if last_named(names, "As"@ + names[c as int]) is Some {
            seq![DeclIssue::CastNameConflict { class: c }]
        } else {
            Seq::empty()
        }
    }
}

/// The issues of the first `p` bases `bs` of class `c`.
pub open spec fn base_issues(names: Seq<Seq<char>>, c: usize, bs: Seq<Seq<char>>, p: nat) -> Seq<
    DeclIssue,
>
    decreases p,
{
    if p == 0 {
        Seq::empty()
    } else {
        let q = (p - 1) as usize;
        base_issues(names, c, bs, (p - 1) as nat) + if last_named(names, bs[q as int]) is None {
            seq![DeclIssue::UnknownBase { class: c, position: q }]
        } else if repeats_earlier(bs, q as int) {
            seq![DeclIssue::DuplicateBase { class: c, position: q }]
        } else {
            Seq::empty()
        }
    }
}

/// The classes the first `p` bases `bs` name, skipping unknown and repeated ones.
pub open spec fn resolved_bases(names: Seq<Seq<char>>, bs: Seq<Seq<char>>, p: nat) -> Seq<usize>
    decreases p,
{
    if p == 0 {
        Seq::empty()
    } else {
        let q = (p - 1) as int;
        let prev = resolved_bases(names, bs, (p - 1) as nat);
        if last_named(names, bs[q]) is Some && !repeats_earlier(bs, q) {
            prev.push(last_named(names, bs[q])->0)
        } else {
            prev
        }
    }
}

/// The edges to the classes the first `p` bases `bs` name, skipping unknown and
/// repeated ones; `virt[q]` tells whether base `q` is declared `virtual` and
/// `types[q]` numbers the type it is written as.
pub open spec fn resolved_edges(
    names: Seq<Seq<char>>,
    bs: Seq<Seq<char>>,
    virt: Seq<bool>,
    types: Seq<usize>,
    p: nat,
) -> Seq<BaseEdge>
    decreases p,
{
    if p == 0 {
        Seq::empty()
    } else {
        let q = (p - 1) as int;
        let prev = resolved_edges(names, bs, virt, types, (p - 1) as nat);
        if last_named(names, bs[q]) is Some && !repeats_earlier(bs, q) {
            prev.push(BaseEdge { base: last_named(names, bs[q])->0, is_virtual: virt[q], type_id: types[q] })
        } else {
            prev
        }
    }
}

pub open spec fn all_base_issues(names: Seq<Seq<char>>, base_names: Seq<Seq<Seq<char>>>, k: nat) -> Seq<
    DeclIssue,
>
    decreases k,
{
    if k == 0 {
        Seq::empty()
    } else {
        let c = (k - 1) as usize;
        all_base_issues(names, base_names, (k - 1) as nat) + base_issues(
            names,
            c,
            base_names[c as int],
            base_names[c as int].len(),
        )
    }
}

pub open spec fn base_names_view(base_names: Seq<Vec<String>>) -> Seq<Seq<Seq<char>>> {
    base_names.map_values(|v: Vec<String>| names_view(v@))
}

/// The index of the last class named `x`.
pub fn find_class(names: &[String], x: &str) -> (res: Option<usize>)
    ensures
        res == last_named(names_view(names@), x@),
{
    let ghost nv = names_view(names@);
    let mut k: usize = names.len();
    assert(nv.take(names@.len() as int) =~= nv);
    while k > 0
        invariant
            nv == names_view(names@),
            k <= names@.len(),
            last_named(nv, x@) == last_named(nv.take(k as int), x@),
        decreases k,
    {
        let ghost pre = nv.take(k as int);
        assert(pre.drop_last() =~= nv.take(k - 1));
        assert(pre.last() == names@[k - 1]@);
        if str_eq(names[k - 1].as_str(), x) {
            return Some(k - 1);
        }
        k = k - 1;
    }
    None
}

/// Whether `names[k]` repeats an earlier name.
fn repeats_earlier_name(names: &[String], k: usize) -> (res: bool)
    requires
        k < names@.len(),
    ensures
        res == repeats_earlier(names_view(names@), k as int),
{
    let ghost nv = names_view(names@);
    let mut j: usize = 0;
    while j < k
        invariant
            nv == names_view(names@),
            j <= k < names@.len(),
            forall|i: int| 0 <= i < j ==> nv[i] != nv[k as int],
        decreases k - j,
    {
        if str_eq(names[j].as_str(), names[k].as_str()) {
            assert(nv[j as int] == nv[k as int]);
            return true;
        }
        j = j + 1;
    }
    false
}

/// Resolves the names of the classes of a block and of their bases: `names[c]` is
/// the name of class `c`, `is_override[c]` whether it carries `#[override]`, and
/// `base_names[c]` the names of its bases, `base_virtual[c]` which of them are
/// declared `virtual`, and `base_types[c]` the numbers of the types they are
/// written as.
pub fn resolve_declarations(
    names: &[String],
    is_override: &[bool],
    base_names: &[Vec<String>],
    base_virtual: &[Vec<bool>],
    base_types: &[Vec<usize>],
) -> (res: Declarations)
    requires
        is_override@.len() == names@.len(),
        base_names@.len() == names@.len(),
        base_virtual@.len() == names@.len(),
        forall|c: int| 0 <= c < names@.len() ==> (#[trigger] base_virtual@[c])@.len() == base_names@[c]@.len(),
        base_types@.len() == names@.len(),
        forall|c: int| 0 <= c < names@.len() ==> (#[trigger] base_types@[c])@.len() == base_names@[c]@.len(),
    ensures
        res.bases@.len() == names@.len(),
        res.edges@.len() == names@.len(),
        forall|c: int|
            0 <= c < names@.len() ==> (#[trigger] res.edges@[c])@ == resolved_edges(
                names_view(names@),
                base_names_view(base_names@)[c],
                base_virtual@[c]@,
                base_types@[c]@,
                base_names_view(base_names@)[c].len(),
            ),
        forall|c: int|
            0 <= c < names@.len() ==> (#[trigger] res.bases@[c])@ == resolved_bases(
                names_view(names@),
                base_names_view(base_names@)[c],
                base_names_view(base_names@)[c].len(),
            ),
        res.issues@ == name_issues(names_view(names@), is_override@, names@.len() as nat)
            + cast_issues(names_view(names@), names@.len() as nat) + all_base_issues(
            names_view(names@),
            base_names_view(base_names@),
            names@.len() as nat,
        ),
{
    let ghost nv = names_view(names@);
    let ghost bv = base_names_view(base_names@);
    let n = names.len();
    let mut issues: Vec<DeclIssue> = Vec::new();
    let mut k: usize = 0;
    while k < n
        invariant
            nv == names_view(names@),
            n == names@.len(),
            is_override@.len() == n,
            k <= n,
            issues@ == name_issues(nv, is_override@, k as nat),
        decreases n - k,
    {
        if is_override[k] {
            issues.push(DeclIssue::OverrideOnClass { class: k });
        }
        if repeats_earlier_name(names, k) {
            issues.push(DeclIssue::DuplicateClass { class: k });
        }
        proof {
            let o = if is_override@[k as int] {
                seq![DeclIssue::OverrideOnClass { class: k }]
            } else {
                Seq::empty()
            };
            let d = if repeats_earlier(nv, k as int) {
                seq![DeclIssue::DuplicateClass { class: k }]
            } else {
                Seq::empty()
            };
            assert(((k + 1) - 1) as usize == k);
            assert(issues@ =~= name_issues(nv, is_override@, k as nat) + o + d);
        }
        k = k + 1;
    }
    let ghost first = issues@;
    k = 0;
    assert(first + cast_issues(nv, 0) =~= first);
    while k < n
        invariant
            nv == names_view(names@),
            n == names@.len(),
            k <= n,
            issues@ == first + cast_issues(nv, k as nat),
        decreases n - k,
    {
        let cast_name = String::from_str("As").concat(names[k].as_str());
        assert(nv[k as int] == names@[k as int]@);
        if find_class(names, cast_name.as_str()).is_some() {
            issues.push(DeclIssue::CastNameConflict { class: k });
        }
        proof {
            assert(((k + 1) - 1) as usize == k);
            let t = if last_named(nv, "As"@ + nv[k as int]) is Some {
                seq![DeclIssue::CastNameConflict { class: k }]
            } else {
                Seq::empty()
            };
            assert(issues@ =~= first + cast_issues(nv, k as nat) + t);
        }
        k = k + 1;
    }
    let ghost second = issues@;
    let mut bases: Vec<Vec<usize>> = Vec::new();
    let mut edges: Vec<Vec<BaseEdge>> = Vec::new();
    k = 0;
    assert(second + all_base_issues(nv, bv, 0) =~= second);
    while k < n
        invariant
            nv == names_view(names@),
            bv == base_names_view(base_names@),
            n == names@.len(),
            base_names@.len() == n,
            k <= n,
            bases@.len() == k,
            edges@.len() == k,
            base_virtual@.len() == n,
            forall|c: int| 0 <= c < n ==> (#[trigger] base_virtual@[c])@.len() == base_names@[c]@.len(),
            base_types@.len() == n,
            forall|c: int| 0 <= c < n ==> (#[trigger] base_types@[c])@.len() == base_names@[c]@.len(),
            forall|c: int|
                0 <= c < k ==> (#[trigger] bases@[c])@ == resolved_bases(nv, bv[c], bv[c].len()),
            forall|c: int|
                0 <= c < k ==> (#[trigger] edges@[c])@ == resolved_edges(
                    nv,
                    bv[c],
                    base_virtual@[c]@,
                    base_types@[c]@,
                    bv[c].len(),
                ),
            issues@ == second + all_base_issues(nv, bv, k as nat),
        decreases n - k,
    {
        let class_bases = &base_names[k];
        assert(bv[k as int] == names_view(class_bases@));
        let ghost before = issues@;
        let mut resolved: Vec<usize> = Vec::new();
        let mut resolved_e: Vec<BaseEdge> = Vec::new();
        let virt = &base_virtual[k];
        let types = &base_types[k];
        let mut p: usize = 0;
        assert(before + base_issues(nv, k, bv[k as int], 0) =~= before);
        while p < class_bases.len()
            invariant
                nv == names_view(names@),
                bv[k as int] == names_view(class_bases@),
                p <= class_bases@.len(),
                resolved@ == resolved_bases(nv, bv[k as int], p as nat),
                virt@.len() == class_bases@.len(),
                types@.len() == class_bases@.len(),
                resolved_e@ == resolved_edges(nv, bv[k as int], virt@, types@, p as nat),
                issues@ == before + base_issues(nv, k, bv[k as int], p as nat),
            decreases class_bases@.len() - p,
        {
            let ghost bs = bv[k as int];
            assert(bs[p as int] == class_bases@[p as int]@);
            let found = find_class(names, class_bases[p].as_str());
            let ghost prev_issues = issues@;
            match found {
                None => {
                    issues.push(DeclIssue::UnknownBase { class: k, position: p });
                },
                Some(index) => {
                    if repeats_earlier_name(class_bases.as_slice(), p) {
                        issues.push(DeclIssue::DuplicateBase { class: k, position: p });
                    } else {
                        resolved.push(index);
                        resolved_e.push(BaseEdge { base: index, is_virtual: virt[p], type_id: types[p] });
                    }
                },
            }
            proof {
                assert(((p + 1) - 1) as usize == p);
                let t = if last_named(nv, bs[p as int]) is None {
                    seq![DeclIssue::UnknownBase { class: k, position: p }]
                } else if repeats_earlier(bs, p as int) {
                    seq![DeclIssue::DuplicateBase { class: k, position: p }]
                } else {
                    Seq::empty()
                };
                assert(issues@ =~= prev_issues + t);
                assert(issues@ =~= before + base_issues(nv, k, bs, (p + 1) as nat));
            }
            p = p + 1;
        }
        bases.push(resolved);
        edges.push(resolved_e);
        proof {
            assert(((k + 1) - 1) as usize == k);
            assert(issues@ =~= second + all_base_issues(nv, bv, (k + 1) as nat));
        }
        k = k + 1;
    }
    Declarations { bases, edges, issues }
}


// ---------------------------------------------------------------------------
// Members of a class
// ---------------------------------------------------------------------------

#[derive(Clone, Copy, Debug, PartialEq, Eq, Structural)]
pub enum MemberKind {
    Field,
    Method,
    AssociatedConst,
    StaticField,
    AssociatedType,
    Constructor,
}

/// What the member rules read of an item of a class body. `checks_ok` tells
/// whether the item passed its own syntactic checks: the signature rules for a
/// method, the use of the class's generic parameters for a static field.
/// `is_mutable` marks a `static mut` field.
pub struct Member {
    pub kind: MemberKind,
    pub name: String,
    pub is_override: bool,
    pub is_virtual: bool,
    pub is_abstract_decl: bool,
    pub has_body: bool,
    pub is_mutable: bool,
    pub checks_ok: bool,
}

/// A member rule that item `item` breaks.
#[derive(Clone, Copy, Debug, PartialEq, Eq, Structural)]
pub enum MemberIssue {
    /// `#[override]` on a field.
    OverrideOnField { item: usize },
    /// A field name starting with `__oop_`.
    ReservedFieldName { item: usize },
    /// A field with the name of an earlier field.
    DuplicateField { item: usize },
    /// `#[override]` on a method that is not `virtual`.
    OverrideNotVirtual { item: usize },
    /// A method without a body that is not `abstract virtual`.
    MustBeAbstractVirtual { item: usize },
    /// A method without a body in a class that is not abstract.
    AbstractInConcreteClass { item: usize },
    /// An `abstract` method with a body.
    AbstractWithBody { item: usize },
    /// A method name starting with `__oop_`.
    ReservedMethodName { item: usize },
    /// A method with the name of an earlier method.
    DuplicateMethod { item: usize },
    /// A method, associated const or static field with the name of an earlier one
    /// of these (and, for a method, of no earlier method).
    DuplicateAssociatedItem { item: usize },
    /// The signature rules of the method failed; their errors belong here.
    MethodAnalysis { item: usize },
    /// `#[override]` on an associated const, static field or associated type.
    OverrideOnItem { item: usize },
    /// An associated const or static field name starting with `__oop_`.
    ReservedAssociatedName { item: usize },
    /// A `static mut` field.
    MutableStatic { item: usize },
    /// The static field uses the class's generic parameters; the errors of that
    /// check belong here.
    StaticGenerics { item: usize },
    /// An associated type, which class bodies do not support.
    UnsupportedAssociatedType { item: usize },
}

/// The outcome of the member rules for one class.
pub struct MemberCheck {
    pub issues: Vec<MemberIssue>,
    /// The virtual methods the class declares, in item order: each one that passed
    /// its signature rules and whose name no earlier method, associated const or
    /// static field has.
    pub methods: Vec<usize>,
}

/// The flags of a member, with its name as characters.
pub struct MemberView {
    pub kind: MemberKind,
    pub name: Seq<char>,
    pub is_override: bool,
    pub is_virtual: bool,
    pub is_abstract_decl: bool,
    pub has_body: bool,
    pub is_mutable: bool,
    pub checks_ok: bool,
}

pub open spec fn member_view(m: Member) -> MemberView {
    MemberView {
        kind: m.kind,
        name: m.name@,
        is_override: m.is_override,
        is_virtual: m.is_virtual,
        is_abstract_decl: m.is_abstract_decl,
        has_body: m.has_body,
        is_mutable: m.is_mutable,
        checks_ok: m.checks_ok,
    }
}

pub open spec fn members_view(items: Seq<Member>) -> Seq<MemberView> {
    items.map_values(|m: Member| member_view(m))
}

pub open spec fn reserved(name: Seq<char>) -> bool {
    "__oop_"@.len() <= name.len() && name.subrange(0, "__oop_"@.len() as int) == "__oop_"@
}

/// Methods, associated consts and static fields share one namespace.
pub open spec fn is_associated(kind: MemberKind) -> bool {
    kind == MemberKind::Method || kind == MemberKind::AssociatedConst || kind == MemberKind::StaticField
}

/// An item before `i` of kind `kind` has the name of item `i`.
pub open spec fn named_before(items: Seq<MemberView>, i: int, kind: MemberKind) -> bool {
    exists|j: int| 0 <= j < i && items[j].kind == kind && items[j].name == items[i].name
}

/// A method, associated const or static field before `i` has the name of item `i`.
pub open spec fn associated_before(items: Seq<MemberView>, i: int) -> bool {
    exists|j: int| 0 <= j < i && is_associated(items[j].kind) && items[j].name == items[i].name
}

pub open spec fn flag_issue(b: bool, issue: MemberIssue) -> Seq<MemberIssue> {
    if b {
        seq![issue]
    } else {
        Seq::empty()
    }
}

/// The rules the field at item `i` breaks, in the order they are reported.
pub open spec fn field_issues(items: Seq<MemberView>, i: int) -> Seq<MemberIssue> {
    let m = items[i];
    let k = i as usize;
    flag_issue(m.is_override, MemberIssue::OverrideOnField { item: k }) + flag_issue(
        reserved(m.name),
        MemberIssue::ReservedFieldName { item: k },
    ) + flag_issue(named_before(items, i, MemberKind::Field), MemberIssue::DuplicateField { item: k })
}

/// The rules about the body of a method declared at item `k`.
pub open spec fn body_issues(
    has_body: bool,
    is_abstract_decl: bool,
    is_virtual: bool,
    class_is_abstract: bool,
    k: usize,
) -> Seq<MemberIssue> {
    if !has_body {
        flag_issue(
            !(is_abstract_decl && is_virtual),
            MemberIssue::MustBeAbstractVirtual { item: k },
        ) + flag_issue(!class_is_abstract, MemberIssue::AbstractInConcreteClass { item: k })
    } else {
        flag_issue(is_abstract_decl, MemberIssue::AbstractWithBody { item: k })
    }
}

/// The uniqueness of the method at item `i`: against earlier methods, else
/// against earlier associated consts and static fields.
pub open spec fn uniqueness_issues(items: Seq<MemberView>, i: int) -> Seq<MemberIssue> {
    if named_before(items, i, MemberKind::Method) {
        seq![MemberIssue::DuplicateMethod { item: i as usize }]
    } else {
        flag_issue(associated_before(items, i), MemberIssue::DuplicateAssociatedItem { item: i as usize })
    }
}

/// The rules the method at item `i` breaks, in the order they are reported.
pub open spec fn method_issues(items: Seq<MemberView>, class_is_abstract: bool, i: int) -> Seq<
    MemberIssue,
> {
    let m = items[i];
    let k = i as usize;
    flag_issue(m.is_override && !m.is_virtual, MemberIssue::OverrideNotVirtual { item: k })
        + body_issues(m.has_body, m.is_abstract_decl, m.is_virtual, class_is_abstract, k) + flag_issue(
        reserved(m.name),
        MemberIssue::ReservedMethodName { item: k },
    ) + uniqueness_issues(items, i) + flag_issue(!m.checks_ok, MemberIssue::MethodAnalysis { item: k })
}

/// The rules an associated const (or, with its own checks, a static field) at
/// item `i` breaks.
pub open spec fn associated_issues(items: Seq<MemberView>, i: int) -> Seq<MemberIssue> {
    let m = items[i];
    let k = i as usize;
    let is_static = m.kind == MemberKind::StaticField;
    flag_issue(m.is_override, MemberIssue::OverrideOnItem { item: k }) + flag_issue(
        is_static && m.is_mutable,
        MemberIssue::MutableStatic { item: k },
    ) + flag_issue(reserved(m.name), MemberIssue::ReservedAssociatedName { item: k }) + flag_issue(
        associated_before(items, i),
        MemberIssue::DuplicateAssociatedItem { item: k },
    ) + flag_issue(is_static && !m.checks_ok, MemberIssue::StaticGenerics { item: k })
}

/// The member rules item `i` breaks, in the order they are reported.
pub open spec fn item_issues(items: Seq<MemberView>, class_is_abstract: bool, i: int) -> Seq<MemberIssue> {
    match items[i].kind {
        MemberKind::Field => field_issues(items, i),
        MemberKind::Method => method_issues(items, class_is_abstract, i),
        MemberKind::AssociatedConst => associated_issues(items, i),
        MemberKind::StaticField => associated_issues(items, i),
        MemberKind::AssociatedType => flag_issue(
            items[i].is_override,
            MemberIssue::OverrideOnItem { item: i as usize },
        ).push(MemberIssue::UnsupportedAssociatedType { item: i as usize }),
        MemberKind::Constructor => Seq::empty(),
    }
}

pub open spec fn member_issues(items: Seq<MemberView>, class_is_abstract: bool, k: nat) -> Seq<
    MemberIssue,
>
    decreases k,
{
    if k == 0 {
        Seq::empty()
    } else {
        member_issues(items, class_is_abstract, (k - 1) as nat) + item_issues(
            items,
            class_is_abstract,
            k - 1,
        )
    }
}

/// Item `i` holds a virtual method of the class: it passed its signature rules and
/// is the first of its name among methods, associated consts and static fields.
pub open spec fn kept_method(items: Seq<MemberView>, i: int) -> bool {
    &&& items[i].kind == MemberKind::Method
    &&& items[i].is_virtual
    &&& items[i].checks_ok
    &&& !associated_before(items, i)
}

/// The items below `k` that hold a virtual method of the class, in item order.
pub open spec fn kept_methods(items: Seq<MemberView>, k: nat) -> Seq<usize>
    decreases k,
{
    if k == 0 {
        Seq::empty()
    } else {
        let prev = kept_methods(items, (k - 1) as nat);
        if kept_method(items, k - 1) {
            prev.push((k - 1) as usize)
        } else {
            prev
        }
    }
}

/// Whether an item before `i` has the name of item `i` and is of kind `kind`, or,
/// with `associated`, of any kind in the shared namespace.
fn earlier_named(items: &Vec<Member>, i: usize, kind: MemberKind, associated: bool) -> (res: bool)
    requires
        i < items@.len(),
    ensures
        associated ==> res == associated_before(members_view(items@), i as int),
        !associated ==> res == named_before(members_view(items@), i as int, kind),
{
    let ghost iv = members_view(items@);
    let mut j: usize = 0;
    while j < i
        invariant
            iv == members_view(items@),
            j <= i < items@.len(),
            forall|x: int|
                0 <= x < j ==> !((if associated {
                    is_associated(iv[x].kind)
                } else {
                    iv[x].kind == kind
                }) && iv[x].name == iv[i as int].name),
        decreases i - j,
    {
        let k = items[j].kind;
        let kind_ok = if associated {
            k == MemberKind::Method || k == MemberKind::AssociatedConst || k == MemberKind::StaticField
        } else {
            k == kind
        };
        if kind_ok && str_eq(items[j].name.as_str(), items[i].name.as_str()) {
            assert(iv[j as int].name == iv[i as int].name);
            return true;
        }
        j = j + 1;
    }
    false
}

fn push_flag(b: bool, issue: MemberIssue, issues: &mut Vec<MemberIssue>)
    ensures
        final(issues)@ == old(issues)@ + flag_issue(b, issue),
{
    if b {
        issues.push(issue);
    } else {
        assert(old(issues)@ + Seq::<MemberIssue>::empty() =~= old(issues)@);
    }
}

fn push_field_issues(items: &Vec<Member>, i: usize, issues: &mut Vec<MemberIssue>)
    requires
        i < items@.len(),
    ensures
        final(issues)@ == old(issues)@ + field_issues(members_view(items@), i as int),
{
    let ghost iv = members_view(items@);
    let ghost before = issues@;
    let item = &items[i];
    assert(iv[i as int] == member_view(items@[i as int]));
    if item.is_override {
        issues.push(MemberIssue::OverrideOnField { item: i });
    }
    if starts_with(item.name.as_str(), "__oop_") {
        issues.push(MemberIssue::ReservedFieldName { item: i });
    }
    if earlier_named(items, i, MemberKind::Field, false) {
        issues.push(MemberIssue::DuplicateField { item: i });
    }
    assert(issues@ =~= before + field_issues(iv, i as int));
}

fn push_body_issues(
    has_body: bool,
    is_abstract_decl: bool,
    is_virtual: bool,
    class_is_abstract: bool,
    i: usize,
    issues: &mut Vec<MemberIssue>,
)
    ensures
        final(issues)@ == old(issues)@ + body_issues(
            has_body,
            is_abstract_decl,
            is_virtual,
            class_is_abstract,
            i,
        ),
{
    let ghost before = issues@;
    if !has_body {
        if !(is_abstract_decl && is_virtual) {
            issues.push(MemberIssue::MustBeAbstractVirtual { item: i });
        }
        if !class_is_abstract {
            issues.push(MemberIssue::AbstractInConcreteClass { item: i });
        }
        assert(issues@ =~= before + (flag_issue(
            !(is_abstract_decl && is_virtual),
            MemberIssue::MustBeAbstractVirtual { item: i },
        ) + flag_issue(!class_is_abstract, MemberIssue::AbstractInConcreteClass { item: i })));
    } else {
        if is_abstract_decl {
            issues.push(MemberIssue::AbstractWithBody { item: i });
        }
        assert(issues@ =~= before + flag_issue(is_abstract_decl, MemberIssue::AbstractWithBody { item: i }));
    }
}

fn push_method_issues(items: &Vec<Member>, i: usize, class_is_abstract: bool, issues: &mut Vec<MemberIssue>)
    requires
        i < items@.len(),
    ensures
        final(issues)@ == old(issues)@ + method_issues(members_view(items@), class_is_abstract, i as int),
{
    let ghost iv = members_view(items@);
    let ghost before = issues@;
    let item = &items[i];
    let ghost m = iv[i as int];
    assert(m == member_view(items@[i as int]));
    push_flag(item.is_override && !item.is_virtual, MemberIssue::OverrideNotVirtual { item: i }, issues);
    let ghost after1 = issues@;
    push_body_issues(item.has_body, item.is_abstract_decl, item.is_virtual, class_is_abstract, i, issues);
    let ghost after2 = issues@;
    push_flag(starts_with(item.name.as_str(), "__oop_"), MemberIssue::ReservedMethodName { item: i }, issues);
    let ghost after3 = issues@;
    push_uniqueness_issues(items, i, issues);
    let ghost after4 = issues@;
    push_flag(!item.checks_ok, MemberIssue::MethodAnalysis { item: i }, issues);
    proof {
        let s1 = flag_issue(m.is_override && !m.is_virtual, MemberIssue::OverrideNotVirtual { item: i });
        let s2 = body_issues(m.has_body, m.is_abstract_decl, m.is_virtual, class_is_abstract, i);
        let s3 = flag_issue(reserved(m.name), MemberIssue::ReservedMethodName { item: i });
        let s4 = uniqueness_issues(iv, i as int);
        let s5 = flag_issue(!m.checks_ok, MemberIssue::MethodAnalysis { item: i });
        lemma_concat5(before, s1, s2, s3, s4, s5, after1, after2, after3, after4, issues@);
        assert(method_issues(iv, class_is_abstract, i as int) == s1 + s2 + s3 + s4 + s5);
    }
}

proof fn lemma_concat5<T>(
    before: Seq<T>,
    s1: Seq<T>,
    s2: Seq<T>,
    s3: Seq<T>,
    s4: Seq<T>,
    s5: Seq<T>,
    a1: Seq<T>,
    a2: Seq<T>,
    a3: Seq<T>,
    a4: Seq<T>,
    a5: Seq<T>,
)
    requires
        a1 == before + s1,
        a2 == a1 + s2,
        a3 == a2 + s3,
        a4 == a3 + s4,
        a5 == a4 + s5,
    ensures
        a5 == before + (s1 + s2 + s3 + s4 + s5),
{
    assert(a5 =~= before + (s1 + s2 + s3 + s4 + s5));
}

fn push_uniqueness_issues(items: &Vec<Member>, i: usize, issues: &mut Vec<MemberIssue>)
    requires
        i < items@.len(),
    ensures
        final(issues)@ == old(issues)@ + uniqueness_issues(members_view(items@), i as int),
{
    if earlier_named(items, i, MemberKind::Method, false) {
        issues.push(MemberIssue::DuplicateMethod { item: i });
    } else {
        push_flag(earlier_named(items, i, MemberKind::Method, true), MemberIssue::DuplicateAssociatedItem { item: i }, issues);
    }
}

fn push_associated_issues(items: &Vec<Member>, i: usize, issues: &mut Vec<MemberIssue>)
    requires
        i < items@.len(),
    ensures
        final(issues)@ == old(issues)@ + associated_issues(members_view(items@), i as int),
{
    let ghost iv = members_view(items@);
    let ghost before = issues@;
    let item = &items[i];
    assert(iv[i as int] == member_view(items@[i as int]));
    let is_static = item.kind == MemberKind::StaticField;
    push_flag(item.is_override, MemberIssue::OverrideOnItem { item: i }, issues);
    let ghost a1 = issues@;
    push_flag(is_static && item.is_mutable, MemberIssue::MutableStatic { item: i }, issues);
    let ghost a2 = issues@;
    push_flag(starts_with(item.name.as_str(), "__oop_"), MemberIssue::ReservedAssociatedName { item: i }, issues);
    let ghost a3 = issues@;
    push_flag(earlier_named(items, i, MemberKind::Method, true), MemberIssue::DuplicateAssociatedItem { item: i }, issues);
    let ghost a4 = issues@;
    push_flag(is_static && !item.checks_ok, MemberIssue::StaticGenerics { item: i }, issues);
    assert(issues@ =~= before + associated_issues(iv, i as int));
}

/// Applies the member rules to the items of a class body.
pub fn check_members(items: &Vec<Member>, class_is_abstract: bool) -> (res: MemberCheck)
    ensures
        res.issues@ == member_issues(members_view(items@), class_is_abstract, items@.len() as nat),
        res.methods@ == kept_methods(members_view(items@), items@.len() as nat),
{
    let ghost iv = members_view(items@);
    let mut issues: Vec<MemberIssue> = Vec::new();
    let mut methods: Vec<usize> = Vec::new();
    let mut i: usize = 0;
    while i < items.len()
        invariant
            iv == members_view(items@),
            i <= items@.len(),
            issues@ == member_issues(iv, class_is_abstract, i as nat),
            methods@ == kept_methods(iv, i as nat),
        decreases items@.len() - i,
    {
        let item = &items[i];
        let ghost before = issues@;
        proof {
            assert(iv[i as int] == member_view(items@[i as int]));
        }
        match item.kind {
            MemberKind::Field => push_field_issues(items, i, &mut issues),
            MemberKind::Method => push_method_issues(items, i, class_is_abstract, &mut issues),
            MemberKind::AssociatedConst => push_associated_issues(items, i, &mut issues),
            MemberKind::StaticField => push_associated_issues(items, i, &mut issues),
            MemberKind::AssociatedType => {
                push_flag(item.is_override, MemberIssue::OverrideOnItem { item: i }, &mut issues);
                issues.push(MemberIssue::UnsupportedAssociatedType { item: i });
            },
            MemberKind::Constructor => {
                assert(issues@ =~= before + item_issues(iv, class_is_abstract, i as int));
            },
        }
        if item.kind == MemberKind::Method && item.is_virtual && item.checks_ok && !earlier_named(
            items,
            i,
            MemberKind::Method,
            true,
        ) {
            methods.push(i);
        }
        i = i + 1;
    }
    MemberCheck { issues, methods }
}


// ---------------------------------------------------------------------------
// Constructors
// ---------------------------------------------------------------------------

/// What the constructor rules read of a constructor: whether it carries
/// `#[override]`, whether its inputs passed their own checks, and its base
/// initializers.
pub struct ConstructorDecl {
    pub is_override: bool,
    pub inputs_ok: bool,
    pub base_calls: Vec<ConstructorBaseCall>,
}

/// A constructor rule that a class breaks.
#[derive(Clone, Copy, Debug, PartialEq, Eq, Structural)]
pub enum CtorIssue {
    /// A constructor after the first.
    DuplicateConstructor { ctor: usize },
    /// The class declares a method `new` beside a constructor, which generates `new`.
    NewConflict { item: usize },
    /// The class declares an associated const, static field or associated type
    /// `new` beside a constructor.
    NewConflictAssociated { item: usize },
    /// `#[override]` on a constructor.
    OverrideOnConstructor { ctor: usize },
    /// The inputs of the constructor failed their checks; their errors belong here.
    ConstructorInputs { ctor: usize },
    /// An initializer whose key repeats an earlier initializer's.
    DuplicateInitializer { ctor: usize, call: usize },
    /// An initializer naming no class.
    UnknownInitializer { ctor: usize, call: usize },
    /// An initializer naming a class that is neither a direct base nor a virtual
    /// base of the class.
    NotDirectOrVirtualBase { ctor: usize, call: usize },
    /// An initializer naming a class that is a virtual base under several types.
    AmbiguousInitializer { ctor: usize, call: usize },
    /// A direct base that no initializer of the constructor initializes.
    MissingInitializer { ctor: usize, base: usize },
}

pub open spec fn duplicate_ctor_issues(k: nat) -> Seq<CtorIssue>
    decreases k,
{
    if k <= 1 {
        Seq::empty()
    } else {
        duplicate_ctor_issues((k - 1) as nat).push(CtorIssue::DuplicateConstructor { ctor: (k - 1) as usize })
    }
}

pub open spec fn new_conflicts(items: Seq<MemberView>, has_constructor: bool, k: nat) -> Seq<CtorIssue>
    decreases k,
{
    if k == 0 {
        Seq::empty()
    } else {
        let i = k - 1;
        let prev = new_conflicts(items, has_constructor, (k - 1) as nat);
        let kind = items[i].kind;
        if !has_constructor || items[i].name != "new"@ {
            prev
        } else if kind == MemberKind::Method {
            prev.push(CtorIssue::NewConflict { item: i as usize })
        } else if kind == MemberKind::AssociatedConst || kind == MemberKind::StaticField || kind
            == MemberKind::AssociatedType {
            prev.push(CtorIssue::NewConflictAssociated { item: i as usize })
        } else {
            prev
        }
    }
}

/// An initializer as the rules read it.
pub struct BaseCallView {
    pub base: Seq<char>,
    pub key: Seq<char>,
    pub explicit: bool,
    pub type_id: usize,
}

pub open spec fn call_view(c: ConstructorBaseCall) -> BaseCallView {
    BaseCallView {
        base: c.base@,
        key: base_call_key(c),
        explicit: explicit_generics(c),
        type_id: c.type_id,
    }
}

pub open spec fn calls_view(calls: Seq<ConstructorBaseCall>) -> Seq<BaseCallView> {
    calls.map_values(|c: ConstructorBaseCall| call_view(c))
}

pub open spec fn call_keys(calls: Seq<BaseCallView>) -> Seq<Seq<char>> {
    calls.map_values(|c: BaseCallView| c.key)
}

/// The number of different texts among the first `k` of `keys`.
pub open spec fn distinct_count<T>(keys: Seq<T>, k: nat) -> nat
    decreases k,
{
    if k == 0 {
        0
    } else {
        distinct_count(keys, (k - 1) as nat) + if repeats_earlier(keys, k - 1) {
            0nat
        } else {
            1nat
        }
    }
}

/// Under how many different types (`types`, see `virtual_base_type_list`) the
/// initializer's class is a virtual base that the initializer can mean: with
/// explicit generic arguments only its own type, else every type.
pub open spec fn virtual_target_count(c: BaseCallView, types: Seq<usize>) -> nat {
    if c.explicit {
        if types.contains(c.type_id) {
            1
        } else {
            0
        }
    } else {
        distinct_count(types, types.len())
    }
}

/// The issues of the first `p` base initializers `calls` of constructor `k`.
pub open spec fn initializer_issues(
    names: Seq<Seq<char>>,
    edges: Seq<Vec<BaseEdge>>,
    class: usize,
    k: usize,
    calls: Seq<BaseCallView>,
    p: nat,
) -> Seq<CtorIssue>
    decreases p,
{
    if p == 0 {
        Seq::empty()
    } else {
        let q = (p - 1) as usize;
        let prev = initializer_issues(names, edges, class, k, calls, (p - 1) as nat);
        let call = calls[q as int];
        let direct = edge_graph(edges)[class as int];
        if repeats_earlier(call_keys(calls), q as int) {
            prev.push(CtorIssue::DuplicateInitializer { ctor: k, call: q })
        } else if last_named(names, call.base) is None {
            prev.push(CtorIssue::UnknownInitializer { ctor: k, call: q })
        } else if direct.contains(last_named(names, call.base)->0) {
            prev
        } else if virtual_target_count(
            call,
            virtual_base_type_list(edges, class, last_named(names, call.base)->0),
        ) == 0 {
            prev.push(CtorIssue::NotDirectOrVirtualBase { ctor: k, call: q })
        } else if virtual_target_count(
            call,
            virtual_base_type_list(edges, class, last_named(names, call.base)->0),
        ) > 1 {
            prev.push(CtorIssue::AmbiguousInitializer { ctor: k, call: q })
        } else {
            prev
        }
    }
}

/// Some initializer of `calls` that repeats no earlier key names class `b`.
pub open spec fn initializes(names: Seq<Seq<char>>, calls: Seq<BaseCallView>, b: usize) -> bool {
    exists|q: int|
        0 <= q < calls.len() && !repeats_earlier(call_keys(calls), q) && last_named(names, #[trigger] calls[q].base)
            == Some(b)
}

/// The first `t` direct bases that constructor `k` leaves uninitialized.
pub open spec fn missing_initializers(
    names: Seq<Seq<char>>,
    direct: Seq<usize>,
    k: usize,
    calls: Seq<BaseCallView>,
    t: nat,
) -> Seq<CtorIssue>
    decreases t,
{
    if t == 0 {
        Seq::empty()
    } else {
        let b = direct[t - 1];
        missing_initializers(names, direct, k, calls, (t - 1) as nat) + if initializes(names, calls, b) {
            Seq::empty()
        } else {
            seq![CtorIssue::MissingInitializer { ctor: k, base: b }]
        }
    }
}

pub struct ConstructorView {
    pub is_override: bool,
    pub inputs_ok: bool,
    pub calls: Seq<BaseCallView>,
}

pub open spec fn ctors_view(ctors: Seq<ConstructorDecl>) -> Seq<ConstructorView> {
    ctors.map_values(
        |c: ConstructorDecl|
            ConstructorView {
                is_override: c.is_override,
                inputs_ok: c.inputs_ok,
                calls: calls_view(c.base_calls@),
            },
    )
}

/// The rules constructor `c` breaks, in the order they are reported.
pub open spec fn one_ctor_issues(
    names: Seq<Seq<char>>,
    edges: Seq<Vec<BaseEdge>>,
    class: usize,
    ctor: ConstructorView,
    c: usize,
) -> Seq<CtorIssue> {
    let direct = edge_graph(edges)[class as int];
    (if ctor.is_override {
        seq![CtorIssue::OverrideOnConstructor { ctor: c }]
    } else {
        Seq::empty()
    }) + (if !ctor.inputs_ok {
        seq![CtorIssue::ConstructorInputs { ctor: c }]
    } else {
        Seq::empty()
    }) + initializer_issues(names, edges, class, c, ctor.calls, ctor.calls.len()) + missing_initializers(
        names,
        direct,
        c,
        ctor.calls,
        direct.len(),
    )
}

pub open spec fn ctor_issues(
    names: Seq<Seq<char>>,
    edges: Seq<Vec<BaseEdge>>,
    class: usize,
    ctors: Seq<ConstructorView>,
    k: nat,
) -> Seq<CtorIssue>
    decreases k,
{
    if k == 0 {
        Seq::empty()
    } else {
        let c = (k - 1) as usize;
        ctor_issues(names, edges, class, ctors, (k - 1) as nat) + one_ctor_issues(
            names,
            edges,
            class,
            ctors[c as int],
            c,
        )
    }
}

/// The constructor rules class `class` breaks: `names` are the class names,
/// `edges` the base edges of the block, `items` the members of the class and
/// `ctors` its constructors.
pub open spec fn constructor_issues(
    names: Seq<Seq<char>>,
    edges: Seq<Vec<BaseEdge>>,
    class: usize,
    items: Seq<MemberView>,
    ctors: Seq<ConstructorView>,
) -> Seq<CtorIssue> {
    duplicate_ctor_issues(ctors.len()) + new_conflicts(items, ctors.len() > 0, items.len())
        + ctor_issues(names, edges, class, ctors, ctors.len())
}

fn count_virtual_targets(
    edges: &[Vec<BaseEdge>],
    class: usize,
    target: usize,
    call: &ConstructorBaseCall,
) -> (res: usize)
    requires
        well_formed(edge_graph(edges@)),
        acyclic(edge_graph(edges@)),
        class < edges@.len(),
    ensures
        res == virtual_target_count(call_view(*call), virtual_base_type_list(edges@, class, target)),
{
    let types = virtual_base_types(edges, class, target);
    if call.type_args.len() > 0 {
        let mut j: usize = 0;
        while j < types.len()
            invariant
                j <= types@.len(),
                call.type_args@.len() > 0,
                types@ == virtual_base_type_list(edges@, class, target),
                forall|x: int| 0 <= x < j ==> types@[x] != call.type_id,
            decreases types@.len() - j,
        {
            if types[j] == call.type_id {
                assert(types@[j as int] == call.type_id);
                assert(types@.contains(call.type_id));
                assert(call_view(*call).explicit);
                assert(call_view(*call).type_id == call.type_id);
                return 1;
            }
            j = j + 1;
        }
        0
    } else {
        let mut count: usize = 0;
        let mut i: usize = 0;
        while i < types.len()
            invariant
                i <= types@.len(),
                call.type_args@.len() == 0,
                types@ == virtual_base_type_list(edges@, class, target),
                count == distinct_count(types@, i as nat),
                count <= i,
            decreases types@.len() - i,
        {
            let mut seen = false;
            let mut j: usize = 0;
            while j < i
                invariant
                    i < types@.len(),
                    j <= i,
                    seen == exists|x: int| 0 <= x < j && types@[x] == types@[i as int],
                decreases i - j,
            {
                if types[j] == types[i] {
                    seen = true;
                }
                j = j + 1;
            }
            assert(seen == repeats_earlier(types@, i as int));
            if !seen {
                count = count + 1;
            }
            assert(((i + 1) - 1) as usize == i);
            i = i + 1;
        }
        count
    }
}

fn call_key_list(calls: &Vec<ConstructorBaseCall>) -> (res: Vec<String>)
    ensures
        names_view(res@) == call_keys(calls_view(calls@)),
        res@.len() == calls@.len(),
{
    let mut res: Vec<String> = Vec::new();
    let mut p: usize = 0;
    while p < calls.len()
        invariant
            p <= calls@.len(),
            res@.len() == p,
            forall|j: int| 0 <= j < p ==> #[trigger] res@[j]@ == base_call_key(calls@[j]),
        decreases calls@.len() - p,
    {
        res.push(constructor_base_call_key(&calls[p]));
        p = p + 1;
    }
    assert(names_view(res@) =~= call_keys(calls_view(calls@)));
    res
}

fn push_initializer_issues(
    names: &[String],
    edges: &[Vec<BaseEdge>],
    class: usize,
    direct: &Vec<usize>,
    k: usize,
    calls: &Vec<ConstructorBaseCall>,
    keys: &Vec<String>,
    issues: &mut Vec<CtorIssue>,
)
    requires
        names_view(keys@) == call_keys(calls_view(calls@)),
        keys@.len() == calls@.len(),
        well_formed(edge_graph(edges@)),
        acyclic(edge_graph(edges@)),
        class < edges@.len(),
        direct@ == edge_graph(edges@)[class as int],
    ensures
        final(issues)@ == old(issues)@ + initializer_issues(
            names_view(names@),
            edges@,
            class,
            k,
            calls_view(calls@),
            calls@.len() as nat,
        ),
{
    let ghost nv = names_view(names@);
    let ghost cv = calls_view(calls@);
    let ghost start = issues@;
    let mut p: usize = 0;
    assert(start + Seq::<CtorIssue>::empty() =~= start);
    while p < calls.len()
        invariant
            nv == names_view(names@),
            cv == calls_view(calls@),
            names_view(keys@) == call_keys(cv),
            keys@.len() == calls@.len(),
            well_formed(edge_graph(edges@)),
            acyclic(edge_graph(edges@)),
            class < edges@.len(),
            direct@ == edge_graph(edges@)[class as int],
            p <= calls@.len(),
            issues@ == start + initializer_issues(nv, edges@, class, k, cv, p as nat),
        decreases calls@.len() - p,
    {
        assert(cv[p as int] == call_view(calls@[p as int]));
        if repeats_earlier_name(keys.as_slice(), p) {
            issues.push(CtorIssue::DuplicateInitializer { ctor: k, call: p });
        } else {
            match find_class(names, calls[p].base.as_str()) {
                None => {
                    issues.push(CtorIssue::UnknownInitializer { ctor: k, call: p });
                },
                Some(index) => {
                    if !crate::graph::vec_contains(direct, index) {
                        let count = count_virtual_targets(edges, class, index, &calls[p]);
                        if count == 0 {
                            issues.push(CtorIssue::NotDirectOrVirtualBase { ctor: k, call: p });
                        } else if count > 1 {
                            issues.push(CtorIssue::AmbiguousInitializer { ctor: k, call: p });
                        }
                    }
                },
            }
        }
        proof {
            assert(((p + 1) - 1) as usize == p);
            assert(issues@ =~= start + initializer_issues(nv, edges@, class, k, cv, (p + 1) as nat));
        }
        p = p + 1;
    }
}

fn initializes_base(names: &[String], calls: &Vec<ConstructorBaseCall>, keys: &Vec<String>, b: usize) -> (res: bool)
    requires
        names_view(keys@) == call_keys(calls_view(calls@)),
        keys@.len() == calls@.len(),
    ensures
        res == initializes(names_view(names@), calls_view(calls@), b),
{
    let ghost nv = names_view(names@);
    let ghost cv = calls_view(calls@);
    let mut q: usize = 0;
    while q < calls.len()
        invariant
            nv == names_view(names@),
            cv == calls_view(calls@),
            names_view(keys@) == call_keys(cv),
            keys@.len() == calls@.len(),
            q <= calls@.len(),
            forall|j: int|
                0 <= j < q ==> !(!repeats_earlier(call_keys(cv), j) && last_named(nv, #[trigger] cv[j].base)
                    == Some(b)),
        decreases calls@.len() - q,
    {
        assert(cv[q as int] == call_view(calls@[q as int]));
        if !repeats_earlier_name(keys.as_slice(), q) && find_class(names, calls[q].base.as_str()) == Some(b) {
            assert(!repeats_earlier(call_keys(cv), q as int) && last_named(nv, cv[q as int].base) == Some(b));
            return true;
        }
        q = q + 1;
    }
    false
}

fn push_constructor_issues(
    names: &[String],
    edges: &[Vec<BaseEdge>],
    class: usize,
    direct: &Vec<usize>,
    k: usize,
    ctor: &ConstructorDecl,
    issues: &mut Vec<CtorIssue>,
)
    requires
        well_formed(edge_graph(edges@)),
        acyclic(edge_graph(edges@)),
        class < edges@.len(),
        direct@ == edge_graph(edges@)[class as int],
    ensures
        final(issues)@ == old(issues)@ + one_ctor_issues(
            names_view(names@),
            edges@,
            class,
            ctors_view(seq![*ctor])[0],
            k,
        ),
{
    let ghost nv = names_view(names@);
    let ghost view = ctors_view(seq![*ctor])[0];
    assert(view.calls == calls_view(ctor.base_calls@));
    let ghost before = issues@;
    if ctor.is_override {
        issues.push(CtorIssue::OverrideOnConstructor { ctor: k });
    }
    if !ctor.inputs_ok {
        issues.push(CtorIssue::ConstructorInputs { ctor: k });
    }
    let ghost mid = issues@;
    let keys = call_key_list(&ctor.base_calls);
    push_initializer_issues(names, edges, class, direct, k, &ctor.base_calls, &keys, issues);
    let ghost after = issues@;
    let mut t: usize = 0;
    assert(after + missing_initializers(nv, direct@, k, view.calls, 0) =~= after);
    while t < direct.len()
        invariant
            nv == names_view(names@),
            view.calls == calls_view(ctor.base_calls@),
            names_view(keys@) == call_keys(view.calls),
            keys@.len() == ctor.base_calls@.len(),
            t <= direct@.len(),
            issues@ == after + missing_initializers(nv, direct@, k, view.calls, t as nat),
        decreases direct@.len() - t,
    {
        let b = direct[t];
        if !initializes_base(names, &ctor.base_calls, &keys, b) {
            issues.push(CtorIssue::MissingInitializer { ctor: k, base: b });
        }
        proof {
            assert(((t + 1) - 1) as usize == t);
            assert(issues@ =~= after + missing_initializers(nv, direct@, k, view.calls, (t + 1) as nat));
        }
        t = t + 1;
    }
    proof {
        let o = if view.is_override {
            seq![CtorIssue::OverrideOnConstructor { ctor: k }]
        } else {
            Seq::empty()
        };
        let n = if !view.inputs_ok {
            seq![CtorIssue::ConstructorInputs { ctor: k }]
        } else {
            Seq::empty()
        };
        assert(mid =~= before + o + n);
        assert(issues@ =~= before + one_ctor_issues(nv, edges@, class, view, k));
    }
}

/// The classes the edges lead to, in order.
fn edge_bases(es: &Vec<BaseEdge>) -> (res: Vec<usize>)
    ensures
        res@ == es@.map_values(|e: BaseEdge| e.base),
{
    let mut res: Vec<usize> = Vec::new();
    let mut k: usize = 0;
    while k < es.len()
        invariant
            k <= es@.len(),
            res@ == es@.take(k as int).map_values(|e: BaseEdge| e.base),
        decreases es@.len() - k,
    {
        res.push(es[k].base);
        assert(es@.take(k + 1) =~= es@.take(k as int).push(es@[k as int]));
        assert(res@ =~= es@.take(k + 1).map_values(|e: BaseEdge| e.base));
        k = k + 1;
    }
    assert(es@.take(es@.len() as int) =~= es@);
    res
}

/// Applies the constructor rules to class `class` (see `constructor_issues`).
pub fn check_constructors(
    names: &[String],
    edges: &[Vec<BaseEdge>],
    class: usize,
    items: &Vec<Member>,
    ctors: &Vec<ConstructorDecl>,
) -> (res: Vec<CtorIssue>)
    requires
        well_formed(edge_graph(edges@)),
        acyclic(edge_graph(edges@)),
        class < edges@.len(),
    ensures
        res@ == constructor_issues(
            names_view(names@),
            edges@,
            class,
            members_view(items@),
            ctors_view(ctors@),
        ),
{
    let ghost nv = names_view(names@);
    let ghost iv = members_view(items@);
    let ghost cv = ctors_view(ctors@);
    let direct = edge_bases(&edges[class]);
    assert(direct@ == edge_graph(edges@)[class as int]);
    let mut issues: Vec<CtorIssue> = Vec::new();
    let mut k: usize = 1;
    while k < ctors.len()
        invariant
            1 <= k,
            k <= ctors@.len() || ctors@.len() == 0,
            issues@ == duplicate_ctor_issues(if ctors@.len() == 0 { 0 } else { k as nat }),
        decreases ctors@.len() - k,
    {
        issues.push(CtorIssue::DuplicateConstructor { ctor: k });
        assert(((k + 1) - 1) as usize == k);
        k = k + 1;
    }
    proof {
        if ctors@.len() == 0 {
            assert(duplicate_ctor_issues(0) == duplicate_ctor_issues(ctors@.len() as nat));
        }
    }
    let ghost first = issues@;
    let has_constructor = ctors.len() > 0;
    let mut i: usize = 0;
    assert(first + new_conflicts(iv, has_constructor, 0) =~= first);
    while i < items.len()
        invariant
            iv == members_view(items@),
            i <= items@.len(),
            issues@ == first + new_conflicts(iv, has_constructor, i as nat),
        decreases items@.len() - i,
    {
        assert(iv[i as int] == member_view(items@[i as int]));
        proof {
            reveal_strlit("new");
        }
        if has_constructor && str_eq(items[i].name.as_str(), "new") {
            let kind = items[i].kind;
            if kind == MemberKind::Method {
                issues.push(CtorIssue::NewConflict { item: i });
            } else if kind == MemberKind::AssociatedConst || kind == MemberKind::StaticField || kind
                == MemberKind::AssociatedType {
                issues.push(CtorIssue::NewConflictAssociated { item: i });
            }
        }
        proof {
            assert(((i + 1) - 1) as usize == i);
            assert(issues@ =~= first + new_conflicts(iv, has_constructor, (i + 1) as nat));
        }
        i = i + 1;
    }
    let ghost second = issues@;
    k = 0;
    assert(second + ctor_issues(nv, edges@, class, cv, 0) =~= second);
    while k < ctors.len()
        invariant
            nv == names_view(names@),
            cv == ctors_view(ctors@),
            k <= ctors@.len(),
            well_formed(edge_graph(edges@)),
            acyclic(edge_graph(edges@)),
            class < edges@.len(),
            direct@ == edge_graph(edges@)[class as int],
            issues@ == second + ctor_issues(nv, edges@, class, cv, k as nat),
        decreases ctors@.len() - k,
    {
        let ghost before = issues@;
        push_constructor_issues(names, edges, class, &direct, k, &ctors[k], &mut issues);
        proof {
            assert(ctors_view(seq![ctors@[k as int]])[0] == cv[k as int]);
            assert(((k + 1) - 1) as usize == k);
            assert(issues@ =~= second + ctor_issues(nv, edges@, class, cv, (k + 1) as nat));
        }
        k = k + 1;
    }
    proof {
        assert(issues@ =~= duplicate_ctor_issues(ctors@.len() as nat) + new_conflicts(iv, has_constructor, items@.len() as nat)
            + ctor_issues(nv, edges@, class, cv, ctors@.len() as nat));
    }
    issues
}

// ---------------------------------------------------------------------------
// Concrete classes and `super_call!`
// ---------------------------------------------------------------------------

/// The classes that are not declared abstract but leave abstract methods
/// unresolved, in order.
pub open spec fn missing_implementations_upto(
    is_abstract: Seq<bool>,
    unresolved: Seq<Vec<MethodDecl>>,
    k: nat,
) -> Seq<usize>
    decreases k,
{
    if k == 0 {
        Seq::empty()
    } else {
        let c = (k - 1) as usize;
        let prev = missing_implementations_upto(is_abstract, unresolved, (k - 1) as nat);
        if !is_abstract[c as int] && unresolved[c as int]@.len() > 0 {
            prev.push(c)
        } else {
            prev
        }
    }
}

/// The concrete classes that must implement abstract methods they inherit.
pub fn missing_implementations(is_abstract: &[bool], unresolved: &[Vec<MethodDecl>]) -> (res: Vec<usize>)
    requires
        unresolved@.len() == is_abstract@.len(),
    ensures
        res@ == missing_implementations_upto(is_abstract@, unresolved@, is_abstract@.len() as nat),
{
    let mut res: Vec<usize> = Vec::new();
    let mut c: usize = 0;
    while c < is_abstract.len()
        invariant
            unresolved@.len() == is_abstract@.len(),
            c <= is_abstract@.len(),
            res@ == missing_implementations_upto(is_abstract@, unresolved@, c as nat),
        decreases is_abstract@.len() - c,
    {
        if !is_abstract[c] && unresolved[c].len() > 0 {
            res.push(c);
        }
        assert(((c + 1) - 1) as usize == c);
        c = c + 1;
    }
    res
}

/// Why a `super_call!` cannot be rewritten.
#[derive(Clone, Copy, Debug, PartialEq, Eq, Structural)]
pub enum SuperCallIssue {
    /// The target names no class.
    UnknownTarget,
    /// The target is the calling class itself.
    TargetIsCurrent,
    /// The target is not in the method resolution order of the calling class.
    NotInMro,
    /// The target dispatches no virtual method of that name.
    NoSuchMethod,
    /// A `&mut self` method called from a `&self` method.
    MutableFromShared,
    /// The receiver expression is not `self`.
    ReceiverNotSelf,
}

/// The method a `super_call!` in class `current` (in a method taking `self` as
/// `current_receiver`) calls: the implementation class `target` selects for the
/// method named `method`; or why the call is refused.
pub open spec fn super_call_outcome(
    mros: Seq<Seq<usize>>,
    selected: Seq<Seq<MethodDecl>>,
    current: usize,
    current_receiver: ReceiverKind,
    target: Option<usize>,
    method: Option<usize>,
    receiver_is_self: bool,
) -> Result<MethodDecl, SuperCallIssue> {
    match target {
        None => Err(SuperCallIssue::UnknownTarget),
        Some(t) => if t == current {
            Err(SuperCallIssue::TargetIsCurrent)
        } else if !mros[current as int].contains(t) {
            Err(SuperCallIssue::NotInMro)
        } else if method is None || lookup(selected[t as int], method->0) is None {
            Err(SuperCallIssue::NoSuchMethod)
        } else if lookup(selected[t as int], method->0)->0.receiver == ReceiverKind::Mutable
            && current_receiver == ReceiverKind::Shared {
            Err(SuperCallIssue::MutableFromShared)
        } else if !receiver_is_self {
            Err(SuperCallIssue::ReceiverNotSelf)
        } else {
            Ok(lookup(selected[t as int], method->0)->0)
        },
    }
}

/// Decides a `super_call!` (see `super_call_outcome`).
pub fn check_super_call(
    mros: &[Vec<usize>],
    selected: &[Vec<MethodDecl>],
    current: usize,
    current_receiver: ReceiverKind,
    target: Option<usize>,
    method: Option<usize>,
    receiver_is_self: bool,
) -> (res: Result<MethodDecl, SuperCallIssue>)
    requires
        current < mros@.len(),
        target matches Some(t) ==> t < selected@.len(),
    ensures
        res == super_call_outcome(
            seqs_view(mros@),
            decls_view(selected@),
            current,
            current_receiver,
            target,
            method,
            receiver_is_self,
        ),
{
    let t = match target {
        None => return Err(SuperCallIssue::UnknownTarget),
        Some(t) => t,
    };
    if t == current {
        return Err(SuperCallIssue::TargetIsCurrent);
    }
    assert(seqs_view(mros@)[current as int] == mros@[current as int]@);
    if !crate::graph::vec_contains(&mros[current], t) {
        return Err(SuperCallIssue::NotInMro);
    }
    let m = match method {
        None => return Err(SuperCallIssue::NoSuchMethod),
        Some(m) => m,
    };
    assert(decls_view(selected@)[t as int] == selected@[t as int]@);
    let d = match crate::methods::find_decl(&selected[t], m) {
        None => return Err(SuperCallIssue::NoSuchMethod),
        Some(d) => d,
    };
    if d.receiver == ReceiverKind::Mutable && current_receiver == ReceiverKind::Shared {
        return Err(SuperCallIssue::MutableFromShared);
    }
    if !receiver_is_self {
        return Err(SuperCallIssue::ReceiverNotSelf);
    }
    Ok(d)
}

} // verus!

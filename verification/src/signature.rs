//! The rules on the signatures of methods and constructors, and the key by which
//! two method signatures are compared.

use vstd::prelude::*;

use crate::methods::ReceiverKind;

verus! {

/// A parameter of a method or constructor, as the rules read it.
#[derive(Clone, Copy, Debug, PartialEq, Eq, Structural)]
pub enum ArgView {
    /// A `self` parameter: `&self` and `&mut self` are references without a type.
    Receiver { is_reference: bool, has_type: bool, is_mutable: bool },
    /// A `pattern: Type` parameter; `simple_pattern` when the pattern is a plain
    /// identifier.
    Typed { simple_pattern: bool },
}

/// The qualifiers of a method signature that the rules refuse.
#[derive(Clone, Copy, Debug, PartialEq, Eq, Structural)]
pub struct SignatureFlags {
    pub is_const: bool,
    pub is_async: bool,
    pub is_unsafe: bool,
    pub has_abi: bool,
    pub has_generics: bool,
    pub is_variadic: bool,
}

/// A rule that a method signature breaks; `arg` is the parameter's position.
#[derive(Clone, Copy, Debug, PartialEq, Eq, Structural)]
pub enum SignatureIssue {
    /// A method that is both `const` and `async`.
    ConstAsyncMethod,
    /// A virtual `const` method.
    VirtualConstMethod,
    /// An `extern` method.
    ExternMethod,
    /// A virtual method with generic parameters or a `where` clause.
    GenericVirtualMethod,
    /// A variadic method.
    VariadicMethod,
    /// A virtual method with no parameter at all.
    MissingReceiver,
    /// A `self` parameter taken by value.
    ByValueReceiver,
    /// A `self` parameter with a type.
    TypedReceiver,
    /// The first parameter of a virtual method is not `self`.
    ReceiverNotFirst,
    /// A `self` parameter after the first.
    ExtraReceiver { arg: usize },
    /// A parameter whose pattern is not a plain identifier.
    PatternArgument { arg: usize },
}

pub open spec fn issue_if(b: bool, issue: SignatureIssue) -> Seq<SignatureIssue> {
    if b {
        seq![issue]
    } else {
        Seq::empty()
    }
}

/// The refused combinations of qualifiers, in the order they are checked. `async`
/// and `unsafe` are accepted, on virtual methods too, and `const` on non-virtual
/// methods that are not `async`.
pub open spec fn flag_issues(f: SignatureFlags, is_virtual: bool) -> Seq<SignatureIssue> {
    issue_if(f.is_const && f.is_async, SignatureIssue::ConstAsyncMethod) + issue_if(
        is_virtual && f.is_const,
        SignatureIssue::VirtualConstMethod,
    ) + issue_if(f.has_abi, SignatureIssue::ExternMethod) + issue_if(
        is_virtual && f.has_generics,
        SignatureIssue::GenericVirtualMethod,
    ) + issue_if(f.is_variadic, SignatureIssue::VariadicMethod)
}

/// What is wrong with a `self` parameter, which must be `&self` or `&mut self`.
pub open spec fn self_issues(is_reference: bool, has_type: bool) -> Seq<SignatureIssue> {
    if !is_reference {
        seq![SignatureIssue::ByValueReceiver]
    } else if has_type {
        seq![SignatureIssue::TypedReceiver]
    } else {
        Seq::empty()
    }
}

/// What is wrong with the first parameter of a virtual method.
pub open spec fn receiver_issues(a: ArgView) -> Seq<SignatureIssue> {
    match a {
        ArgView::Receiver { is_reference, has_type, .. } => self_issues(is_reference, has_type),
        ArgView::Typed { .. } => seq![SignatureIssue::ReceiverNotFirst],
    }
}

/// How the method takes `self`, when its first parameter is `&self` or `&mut self`.
pub open spec fn receiver_kind(a: ArgView) -> Option<ReceiverKind> {
    match a {
        ArgView::Receiver { is_reference, has_type, is_mutable } => if is_reference && !has_type {
            Some(
                if is_mutable {
                    ReceiverKind::Mutable
                } else {
                    ReceiverKind::Shared
                },
            )
        } else {
            None
        },
        ArgView::Typed { .. } => None,
    }
}

/// What is wrong with the parameter at position `i`, when it is not the receiver
/// of a virtual method: `self` is only allowed first, and then as `&self` or
/// `&mut self`; other patterns must be plain identifiers.
pub open spec fn argument_issue(a: ArgView, i: usize) -> Seq<SignatureIssue> {
    match a {
        ArgView::Receiver { is_reference, has_type, .. } => if i == 0 {
            self_issues(is_reference, has_type)
        } else {
            seq![SignatureIssue::ExtraReceiver { arg: i }]
        },
        ArgView::Typed { simple_pattern } => issue_if(!simple_pattern, SignatureIssue::PatternArgument { arg: i }),
    }
}

/// The issues of the parameters at positions `from .. k`, in order.
pub open spec fn argument_issues(args: Seq<ArgView>, from: nat, k: nat) -> Seq<SignatureIssue>
    decreases k,
{
    if k <= from {
        Seq::empty()
    } else {
        argument_issues(args, from, (k - 1) as nat) + argument_issue(args[k - 1], (k - 1) as usize)
    }
}

/// The rules a method signature breaks, in the order they are checked: the
/// qualifiers; then, for a non-virtual method, every parameter; for a virtual one,
/// the receiver (a method without parameters stops there), then the other
/// parameters.
pub open spec fn signature_issues(is_virtual: bool, f: SignatureFlags, args: Seq<ArgView>) -> Seq<SignatureIssue> {
    if !is_virtual {
        flag_issues(f, false) + argument_issues(args, 0, args.len())
    } else if args.len() == 0 {
        flag_issues(f, true).push(SignatureIssue::MissingReceiver)
    } else {
        flag_issues(f, true) + receiver_issues(args[0]) + argument_issues(args, 1, args.len())
    }
}

fn push_issue_if(b: bool, issue: SignatureIssue, issues: &mut Vec<SignatureIssue>)
    ensures
        final(issues)@ == old(issues)@ + issue_if(b, issue),
{
    if b {
        issues.push(issue);
    } else {
        assert(old(issues)@ + Seq::<SignatureIssue>::empty() =~= old(issues)@);
    }
}

fn push_argument_issues(args: &[ArgView], from: usize, issues: &mut Vec<SignatureIssue>)
    requires
        from <= args@.len(),
    ensures
        final(issues)@ == old(issues)@ + argument_issues(args@, from as nat, args@.len() as nat),
{
    let ghost start = issues@;
    let mut k: usize = from;
    assert(start + argument_issues(args@, from as nat, from as nat) =~= start);
    while k < args.len()
        invariant
            from <= k <= args@.len(),
            issues@ == start + argument_issues(args@, from as nat, k as nat),
        decreases args@.len() - k,
    {
        match args[k] {
            ArgView::Receiver { is_reference, has_type, .. } => {
                if k == 0 {
                    if !is_reference {
                        issues.push(SignatureIssue::ByValueReceiver);
                    } else if has_type {
                        issues.push(SignatureIssue::TypedReceiver);
                    }
                } else {
                    issues.push(SignatureIssue::ExtraReceiver { arg: k });
                }
            },
            ArgView::Typed { simple_pattern } => {
                push_issue_if(!simple_pattern, SignatureIssue::PatternArgument { arg: k }, issues);
            },
        }
        proof {
            assert(((k + 1) - 1) as usize == k);
            assert(issues@ =~= start + argument_issues(args@, from as nat, (k + 1) as nat));
        }
        k = k + 1;
    }
}

/// Checks a method signature (see `signature_issues`). A virtual method that
/// breaks no rule gives the kind of its receiver, by which it is dispatched
/// (`async` and `unsafe` ones too); a non-virtual one gives `None`.
pub fn check_signature(is_virtual: bool, flags: SignatureFlags, args: &[ArgView]) -> (res: Result<
    Option<ReceiverKind>,
    Vec<SignatureIssue>,
>)
    ensures
        match res {
            Ok(None) => !is_virtual && signature_issues(is_virtual, flags, args@).len() == 0,
            Ok(Some(kind)) => is_virtual && signature_issues(is_virtual, flags, args@).len() == 0
                && args@.len() > 0 && receiver_kind(args@[0]) == Some(kind),
            Err(issues) => issues@ == signature_issues(is_virtual, flags, args@) && issues@.len() > 0,
        },
{
    let mut issues: Vec<SignatureIssue> = Vec::new();
    push_issue_if(flags.is_const && flags.is_async, SignatureIssue::ConstAsyncMethod, &mut issues);
    push_issue_if(is_virtual && flags.is_const, SignatureIssue::VirtualConstMethod, &mut issues);
    push_issue_if(flags.has_abi, SignatureIssue::ExternMethod, &mut issues);
    push_issue_if(is_virtual && flags.has_generics, SignatureIssue::GenericVirtualMethod, &mut issues);
    push_issue_if(flags.is_variadic, SignatureIssue::VariadicMethod, &mut issues);
    assert(issues@ =~= flag_issues(flags, is_virtual));
    if !is_virtual {
        push_argument_issues(args, 0, &mut issues);
        assert(issues@ =~= signature_issues(is_virtual, flags, args@));
        if issues.len() == 0 {
            return Ok(None);
        }
        return Err(issues);
    }
    if args.len() == 0 {
        issues.push(SignatureIssue::MissingReceiver);
        return Err(issues);
    }
    let ghost after_flags = issues@;
    let kind = match args[0] {
        ArgView::Receiver { is_reference, has_type, is_mutable } => {
            if !is_reference {
                issues.push(SignatureIssue::ByValueReceiver);
                None
            } else if has_type {
                issues.push(SignatureIssue::TypedReceiver);
                None
            } else if is_mutable {
                Some(ReceiverKind::Mutable)
            } else {
                Some(ReceiverKind::Shared)
            }
        },
        ArgView::Typed { .. } => {
            issues.push(SignatureIssue::ReceiverNotFirst);
            None
        },
    };
    assert(issues@ =~= after_flags + receiver_issues(args@[0]));
    push_argument_issues(args, 1, &mut issues);
    assert(issues@ =~= signature_issues(is_virtual, flags, args@));
    match kind {
        Some(kind) => {
            if issues.len() == 0 {
                Ok(Some(kind))
            } else {
                Err(issues)
            }
        },
        None => Err(issues),
    }
}

/// A rule that the parameters of a constructor break; `arg` is the position.
#[derive(Clone, Copy, Debug, PartialEq, Eq, Structural)]
pub enum ConstructorInputIssue {
    /// A `self` parameter.
    SelfReceiver { arg: usize },
    /// A parameter whose pattern is not a plain identifier.
    PatternArgument { arg: usize },
}

pub open spec fn constructor_input_issue(a: ArgView, i: usize) -> Seq<ConstructorInputIssue> {
    match a {
        ArgView::Receiver { .. } => seq![ConstructorInputIssue::SelfReceiver { arg: i }],
        ArgView::Typed { simple_pattern } => if simple_pattern {
            Seq::empty()
        } else {
            seq![ConstructorInputIssue::PatternArgument { arg: i }]
        },
    }
}

/// The issues of the constructor parameters at positions `0 .. k`, in order.
pub open spec fn constructor_input_issues(args: Seq<ArgView>, k: nat) -> Seq<ConstructorInputIssue>
    decreases k,
{
    if k == 0 {
        Seq::empty()
    } else {
        constructor_input_issues(args, (k - 1) as nat) + constructor_input_issue(args[k - 1], (k - 1) as usize)
    }
}

/// Checks the parameters of a constructor: no `self`, and plain identifiers only.
pub fn check_constructor_inputs(args: &[ArgView]) -> (res: Vec<ConstructorInputIssue>)
    ensures
        res@ == constructor_input_issues(args@, args@.len() as nat),
{
    let mut issues: Vec<ConstructorInputIssue> = Vec::new();
    let mut k: usize = 0;
    while k < args.len()
        invariant
            k <= args@.len(),
            issues@ == constructor_input_issues(args@, k as nat),
        decreases args@.len() - k,
    {
        match args[k] {
            ArgView::Receiver { .. } => {
                issues.push(ConstructorInputIssue::SelfReceiver { arg: k });
            },
            ArgView::Typed { simple_pattern } => {
                if !simple_pattern {
                    issues.push(ConstructorInputIssue::PatternArgument { arg: k });
                }
            },
        }
        proof {
            assert(((k + 1) - 1) as usize == k);
            assert(issues@ =~= constructor_input_issues(args@, (k + 1) as nat));
        }
        k = k + 1;
    }
    issues
}

/// The name of a receiver kind, as the signature key spells it.
pub open spec fn receiver_text(kind: ReceiverKind) -> Seq<char> {
    match kind {
        ReceiverKind::Shared => "Shared"@,
        ReceiverKind::Mutable => "Mutable"@,
    }
}

/// The texts of `parts` joined by `,`.
pub open spec fn comma_joined(parts: Seq<Seq<char>>) -> Seq<char>
    decreases parts.len(),
{
    if parts.len() == 0 {
        Seq::empty()
    } else if parts.len() == 1 {
        parts[0]
    } else {
        comma_joined(parts.drop_last()) + ","@ + parts.last()
    }
}

/// `async` or `sync`, and `unsafe` or `safe`, as the signature key spells them.
pub open spec fn qualifier_text(is_async: bool, is_unsafe: bool) -> Seq<char> {
    (if is_async {
        "async"@
    } else {
        "sync"@
    }) + "|"@ + (if is_unsafe {
        "unsafe"@
    } else {
        "safe"@
    })
}

/// The key of a method signature: whether it is `async` and `unsafe`, the receiver
/// kind, the argument types and the return type (empty for none), separated by
/// `|`. Two methods have compatible signatures exactly when their keys are equal.
pub open spec fn signature_key_text(
    is_async: bool,
    is_unsafe: bool,
    kind: ReceiverKind,
    arg_types: Seq<Seq<char>>,
    output: Seq<char>,
) -> Seq<char> {
    qualifier_text(is_async, is_unsafe) + "|"@ + receiver_text(kind) + "|"@ + comma_joined(arg_types) + "|"@
        + output
}

/// The key of a method signature (see `signature_key_text`); `arg_types` and
/// `output` are the source texts of the types.
pub fn signature_key(
    is_async: bool,
    is_unsafe: bool,
    kind: ReceiverKind,
    arg_types: &[String],
    output: &str,
) -> (res: String)
    ensures
        res@ == signature_key_text(is_async, is_unsafe, kind, crate::names::names_view(arg_types@), output@),
{
    let ghost parts = crate::names::names_view(arg_types@);
    let mut res = if is_async {
        String::from_str("async")
    } else {
        String::from_str("sync")
    };
    res.append("|");
    if is_unsafe {
        res.append("unsafe");
    } else {
        res.append("safe");
    }
    res.append("|");
    match kind {
        ReceiverKind::Shared => res.append("Shared"),
        ReceiverKind::Mutable => res.append("Mutable"),
    };
    res.append("|");
    let ghost prefix = res@;
    let mut k: usize = 0;
    assert(parts.take(0) =~= Seq::<Seq<char>>::empty());
    assert(prefix + comma_joined(parts.take(0)) =~= prefix);
    while k < arg_types.len()
        invariant
            parts == crate::names::names_view(arg_types@),
            k <= arg_types@.len(),
            res@ == prefix + comma_joined(parts.take(k as int)),
        decreases arg_types@.len() - k,
    {
        proof {
            reveal_strlit(",");
            let taken = parts.take(k + 1);
            assert(taken.drop_last() =~= parts.take(k as int));
            assert(taken.last() == arg_types@[k as int]@);
        }
        if k > 0 {
            res.append(",");
        }
        res.append(arg_types[k].as_str());
        proof {
            if k == 0 {
                assert(parts.take(1) =~= seq![arg_types@[0]@]);
            }
            assert(res@ =~= prefix + comma_joined(parts.take(k + 1)));
        }
        k = k + 1;
    }
    assert(parts.take(arg_types@.len() as int) =~= parts);
    res.append("|");
    res.append(output);
    proof {
        reveal_strlit("Shared");
        reveal_strlit("Mutable");
        reveal_strlit("|");
        reveal_strlit("async");
        reveal_strlit("sync");
        reveal_strlit("unsafe");
        reveal_strlit("safe");
        assert(res@ =~= signature_key_text(is_async, is_unsafe, kind, parts, output@));
    }
    res
}

} // verus!

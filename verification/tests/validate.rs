use oop_mro_macros::generics::ConstructorBaseCall;
use oop_mro_macros::graph::BaseEdge;
use oop_mro_macros::methods::{MethodDecl, ReceiverKind};
use oop_mro_macros::validate::{
    check_constructors, check_members, check_super_call, missing_implementations,
    resolve_declarations, ConstructorDecl, CtorIssue, DeclIssue, Member, MemberIssue, MemberKind,
    SuperCallIssue,
};

fn strings(names: &[&str]) -> Vec<String> {
    names.iter().map(|name| String::from(*name)).collect()
}

#[test]
fn declarations_resolve_bases() {
    let names = strings(&["Entity", "Named", "Tagged", "Document"]);
    let base_names = vec![
        vec![],
        strings(&["Entity"]),
        strings(&["Entity"]),
        strings(&["Named", "Tagged"]),
    ];
    let virtual_flags = vec![vec![], vec![true], vec![false], vec![false, false]];
    let type_ids = vec![vec![], vec![0], vec![0], vec![1, 2]];
    let declarations = resolve_declarations(&names, &[false; 4], &base_names, &virtual_flags, &type_ids);
    assert_eq!(declarations.bases, vec![vec![], vec![0], vec![0], vec![1, 2]]);
    assert_eq!(declarations.edges[1], vec![BaseEdge { base: 0, is_virtual: true, type_id: 0 }]);
    assert_eq!(declarations.edges[2], vec![BaseEdge { base: 0, is_virtual: false, type_id: 0 }]);
    assert!(declarations.issues.is_empty());
}

#[test]
fn declaration_issues_in_order() {
    let names = strings(&["A", "AsA", "A", "B"]);
    let base_names = vec![vec![], strings(&["Missing"]), vec![], strings(&["A", "A", "AsA"])];
    let virtual_flags = vec![vec![], vec![false], vec![], vec![true, false, false]];
    let type_ids = vec![vec![], vec![7], vec![], vec![4, 5, 6]];
    let declarations = resolve_declarations(
        &names,
        &[false, true, false, false],
        &base_names,
        &virtual_flags,
        &type_ids,
    );
    assert_eq!(
        declarations.issues,
        vec![
            DeclIssue::OverrideOnClass { class: 1 },
            DeclIssue::DuplicateClass { class: 2 },
            DeclIssue::CastNameConflict { class: 0 },
            DeclIssue::CastNameConflict { class: 2 },
            DeclIssue::UnknownBase { class: 1, position: 0 },
            DeclIssue::DuplicateBase { class: 3, position: 1 },
        ]
    );
    // the later of two classes with one name is the one a base names
    assert_eq!(declarations.bases[3], vec![2, 1]);
    assert_eq!(
        declarations.edges[3],
        vec![
            BaseEdge { base: 2, is_virtual: true, type_id: 4 },
            BaseEdge { base: 1, is_virtual: false, type_id: 6 },
        ]
    );
}

fn field(name: &str, is_override: bool) -> Member {
    Member {
        kind: MemberKind::Field,
        name: String::from(name),
        is_override,
        is_virtual: false,
        is_abstract_decl: false,
        has_body: false,
        is_mutable: false,
        checks_ok: true,
    }
}

fn item(kind: MemberKind, name: &str) -> Member {
    Member {
        kind,
        name: String::from(name),
        is_override: false,
        is_virtual: false,
        is_abstract_decl: false,
        has_body: false,
        is_mutable: false,
        checks_ok: true,
    }
}

fn method(name: &str, is_virtual: bool, is_abstract_decl: bool, has_body: bool) -> Member {
    Member {
        kind: MemberKind::Method,
        name: String::from(name),
        is_override: false,
        is_virtual,
        is_abstract_decl,
        has_body,
        is_mutable: false,
        checks_ok: true,
    }
}

#[test]
fn member_rules() {
    let mut bad = method("__oop_x", false, false, true);
    bad.is_override = true;
    let mut failing = method("speak", true, false, true);
    failing.checks_ok = false;
    let items = vec![
        field("name", false),
        field("name", true),
        field("__oop_hidden", false),
        method("speak", true, false, true),
        method("speak", true, false, true),
        bad,
        method("abstract_one", false, false, false),
        method("impl_abstract", true, true, true),
        failing,
    ];
    let check = check_members(&items, false);
    assert_eq!(
        check.issues,
        vec![
            MemberIssue::OverrideOnField { item: 1 },
            MemberIssue::DuplicateField { item: 1 },
            MemberIssue::ReservedFieldName { item: 2 },
            MemberIssue::DuplicateMethod { item: 4 },
            MemberIssue::OverrideNotVirtual { item: 5 },
            MemberIssue::ReservedMethodName { item: 5 },
            MemberIssue::MustBeAbstractVirtual { item: 6 },
            MemberIssue::AbstractInConcreteClass { item: 6 },
            MemberIssue::AbstractWithBody { item: 7 },
            MemberIssue::DuplicateMethod { item: 8 },
            MemberIssue::MethodAnalysis { item: 8 },
        ]
    );
    // the first method of a name is kept, and only virtual ones
    assert_eq!(check.methods, vec![3, 7]);
}

#[test]
fn associated_items_share_the_method_namespace() {
    let mut mutable_static = item(MemberKind::StaticField, "COUNT");
    mutable_static.is_mutable = true;
    let mut generic_static = item(MemberKind::StaticField, "CACHE");
    generic_static.checks_ok = false;
    let mut overridden_type = item(MemberKind::AssociatedType, "Output");
    overridden_type.is_override = true;
    let items = vec![
        item(MemberKind::AssociatedConst, "ID"),
        method("ID", true, false, true),
        mutable_static,
        item(MemberKind::AssociatedConst, "COUNT"),
        item(MemberKind::AssociatedConst, "__oop_x"),
        generic_static,
        overridden_type,
        method("run", true, false, true),
    ];
    let check = check_members(&items, false);
    assert_eq!(
        check.issues,
        vec![
            MemberIssue::DuplicateAssociatedItem { item: 1 },
            MemberIssue::MutableStatic { item: 2 },
            MemberIssue::DuplicateAssociatedItem { item: 3 },
            MemberIssue::ReservedAssociatedName { item: 4 },
            MemberIssue::StaticGenerics { item: 5 },
            MemberIssue::OverrideOnItem { item: 6 },
            MemberIssue::UnsupportedAssociatedType { item: 6 },
        ]
    );
    assert_eq!(check.methods, vec![7]);
}

#[test]
fn abstract_class_may_leave_methods_unimplemented() {
    let items = vec![method("speak", true, true, false)];
    let check = check_members(&items, true);
    assert!(check.issues.is_empty());
    assert_eq!(check.methods, vec![0]);
}

fn call(base: &str) -> ConstructorBaseCall {
    ConstructorBaseCall {
        base: String::from(base),
        type_args: vec![],
        type_text: String::from(base),
        type_id: 0,
    }
}

fn edge(base: usize, is_virtual: bool, type_id: usize) -> BaseEdge {
    BaseEdge { base, is_virtual, type_id }
}

#[test]
fn constructor_rules() {
    let names = strings(&["Root", "Left", "Other"]);
    // Left: Root
    let edges = vec![vec![], vec![edge(0, false, 0)], vec![]];
    let items = vec![method("new", false, false, true), field("x", false), item(MemberKind::AssociatedConst, "new")];
    let ctors = vec![
        ConstructorDecl {
            is_override: true,
            inputs_ok: false,
            base_calls: vec![call("Root"), call("Root"), call("Missing"), call("Other")],
        },
        ConstructorDecl { is_override: false, inputs_ok: true, base_calls: vec![] },
    ];
    let issues = check_constructors(&names, &edges, 1, &items, &ctors);
    assert_eq!(
        issues,
        vec![
            CtorIssue::DuplicateConstructor { ctor: 1 },
            CtorIssue::NewConflict { item: 0 },
            CtorIssue::NewConflictAssociated { item: 2 },
            CtorIssue::OverrideOnConstructor { ctor: 0 },
            CtorIssue::ConstructorInputs { ctor: 0 },
            CtorIssue::DuplicateInitializer { ctor: 0, call: 1 },
            CtorIssue::UnknownInitializer { ctor: 0, call: 2 },
            CtorIssue::NotDirectOrVirtualBase { ctor: 0, call: 3 },
            CtorIssue::MissingInitializer { ctor: 1, base: 0 },
        ]
    );
}

#[test]
fn virtual_roots_may_be_initialized() {
    // Root, Left: virtual Root, Right: virtual Root, Diamond: Left, Right
    let names = strings(&["Root", "Left", "Right", "Diamond"]);
    let edges = vec![
        vec![],
        vec![edge(0, true, 0)],
        vec![edge(0, true, 0)],
        vec![edge(1, false, 1), edge(2, false, 2)],
    ];
    let ctors = vec![ConstructorDecl {
        is_override: false,
        inputs_ok: true,
        base_calls: vec![call("Left"), call("Right"), call("Root")],
    }];
    assert!(check_constructors(&names, &edges, 3, &vec![], &ctors).is_empty());

    // a non-virtual root cannot be initialized from the diamond
    let plain = vec![
        vec![],
        vec![edge(0, false, 0)],
        vec![edge(0, false, 0)],
        vec![edge(1, false, 1), edge(2, false, 2)],
    ];
    assert_eq!(
        check_constructors(&names, &plain, 3, &vec![], &ctors),
        vec![CtorIssue::NotDirectOrVirtualBase { ctor: 0, call: 2 }]
    );
}

#[test]
fn virtual_specializations_must_be_named() {
    // Holder<T>, A: virtual Holder<u8> (type 1), B: virtual Holder<u16> (type 2), C: A, B
    let names = strings(&["Holder", "A", "B", "C"]);
    let edges = vec![
        vec![],
        vec![edge(0, true, 1)],
        vec![edge(0, true, 2)],
        vec![edge(1, false, 3), edge(2, false, 4)],
    ];
    let mut specific = call("Holder");
    specific.type_args = strings(&["u8"]);
    specific.type_text = String::from("Holder < u8 >");
    specific.type_id = 1;
    let mut missing = call("Holder");
    missing.type_args = strings(&["u32"]);
    missing.type_text = String::from("Holder < u32 >");
    missing.type_id = 9;
    let ctors = vec![ConstructorDecl {
        is_override: false,
        inputs_ok: true,
        base_calls: vec![call("A"), call("B"), call("Holder"), specific, missing],
    }];
    assert_eq!(
        check_constructors(&names, &edges, 3, &vec![], &ctors),
        vec![
            CtorIssue::AmbiguousInitializer { ctor: 0, call: 2 },
            CtorIssue::NotDirectOrVirtualBase { ctor: 0, call: 4 },
        ]
    );
}

#[test]
fn every_direct_base_needs_an_initializer() {
    let names = strings(&["A", "B", "C"]);
    let edges = vec![vec![], vec![], vec![edge(0, false, 0), edge(1, false, 1)]];
    let ctors = vec![ConstructorDecl { is_override: false, inputs_ok: true, base_calls: vec![call("B")] }];
    assert_eq!(
        check_constructors(&names, &edges, 2, &vec![], &ctors),
        vec![CtorIssue::MissingInitializer { ctor: 0, base: 0 }]
    );
}

#[test]
fn method_new_is_fine_without_constructor() {
    let names = strings(&["Root"]);
    let items = vec![method("new", false, false, true)];
    assert!(check_constructors(&names, &vec![vec![]], 0, &items, &vec![]).is_empty());
}

fn shared(owner: usize, name: usize, receiver: ReceiverKind) -> MethodDecl {
    MethodDecl {
        owner,
        name,
        signature: 0,
        is_virtual: true,
        is_abstract: false,
        is_override: false,
        is_async: false,
        is_unsafe: false,
        receiver,
    }
}

#[test]
fn super_call_decisions() {
    let mros = vec![vec![0], vec![1, 0], vec![2]];
    let selected = vec![
        vec![shared(0, 0, ReceiverKind::Shared), shared(0, 1, ReceiverKind::Mutable)],
        vec![shared(1, 0, ReceiverKind::Shared)],
        vec![],
    ];
    let call = |target, method, receiver, is_self| {
        check_super_call(&mros, &selected, 1, receiver, target, method, is_self)
    };
    assert_eq!(call(Some(0), Some(0), ReceiverKind::Shared, true), Ok(shared(0, 0, ReceiverKind::Shared)));
    assert_eq!(call(None, Some(0), ReceiverKind::Shared, true), Err(SuperCallIssue::UnknownTarget));
    assert_eq!(call(Some(1), Some(0), ReceiverKind::Shared, true), Err(SuperCallIssue::TargetIsCurrent));
    assert_eq!(call(Some(2), Some(0), ReceiverKind::Shared, true), Err(SuperCallIssue::NotInMro));
    assert_eq!(call(Some(0), Some(5), ReceiverKind::Shared, true), Err(SuperCallIssue::NoSuchMethod));
    assert_eq!(call(Some(0), None, ReceiverKind::Shared, true), Err(SuperCallIssue::NoSuchMethod));
    assert_eq!(call(Some(0), Some(1), ReceiverKind::Shared, true), Err(SuperCallIssue::MutableFromShared));
    assert_eq!(call(Some(0), Some(1), ReceiverKind::Mutable, true), Ok(shared(0, 1, ReceiverKind::Mutable)));
    assert_eq!(call(Some(0), Some(0), ReceiverKind::Shared, false), Err(SuperCallIssue::ReceiverNotSelf));
}

#[test]
fn concrete_classes_need_implementations() {
    let unresolved = vec![vec![shared(0, 0, ReceiverKind::Shared)], vec![shared(0, 0, ReceiverKind::Shared)], vec![]];
    assert_eq!(missing_implementations(&[true, false, false], &unresolved), vec![1]);
}

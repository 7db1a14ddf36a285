use oop_mro_macros::c3::linearize_all;
use oop_mro_macros::methods::{
    interface_methods, resolve_methods, vtable_dispatch, vtable_entry, MethodDecl, ReceiverKind,
    ResolveIssue, VtableDispatch,
};

fn decl(owner: usize, name: usize, signature: usize, is_abstract: bool, is_override: bool) -> MethodDecl {
    MethodDecl {
        owner,
        name,
        signature,
        is_virtual: true,
        is_abstract,
        is_override,
        is_async: false,
        is_unsafe: false,
        receiver: ReceiverKind::Shared,
    }
}

#[test]
fn first_override_in_the_order_is_selected() {
    // Entity, Named: Entity, Tagged: Entity, Document: Named, Tagged, Document2: Tagged, Named
    let bases = vec![vec![], vec![0], vec![0], vec![1, 2], vec![2, 1]];
    let mros = linearize_all(&bases).unwrap();
    let direct = vec![
        vec![decl(0, 0, 7, false, false)],
        vec![decl(1, 0, 7, false, true)],
        vec![decl(2, 0, 7, false, true)],
        vec![],
        vec![],
    ];
    let resolution = resolve_methods(&direct, &mros, 1);
    assert_eq!(resolution.issues, vec![]);
    assert_eq!(resolution.selected[3], vec![decl(1, 0, 7, false, true)]);
    assert_eq!(resolution.selected[4], vec![decl(2, 0, 7, false, true)]);
    assert_eq!(resolution.selected[0], vec![decl(0, 0, 7, false, false)]);
    assert!(resolution.unresolved.iter().all(|u| u.is_empty()));
}

#[test]
fn override_rules_are_enforced() {
    let bases = vec![vec![], vec![0]];
    let mros = linearize_all(&bases).unwrap();
    // name 0: overridden without #[override]; name 1: #[override] with nothing to override
    let direct = vec![
        vec![decl(0, 0, 1, false, false)],
        vec![decl(1, 0, 1, false, false), decl(1, 1, 1, false, true)],
    ];
    let resolution = resolve_methods(&direct, &mros, 2);
    assert_eq!(
        resolution.issues,
        vec![
            ResolveIssue::MissingOverride { class: 1, name: 0 },
            ResolveIssue::OverrideWithoutBase { class: 1, name: 1 },
        ]
    );
}

#[test]
fn signature_mismatch_is_reported_per_inherited_declaration() {
    let bases = vec![vec![], vec![0]];
    let mros = linearize_all(&bases).unwrap();
    let direct = vec![vec![decl(0, 0, 1, false, false)], vec![decl(1, 0, 2, false, true)]];
    let resolution = resolve_methods(&direct, &mros, 1);
    assert_eq!(
        resolution.issues,
        vec![ResolveIssue::SignatureMismatch { class: 1, name: 0, inherited_owner: 0 }]
    );
    assert_eq!(resolution.selected[1], vec![decl(1, 0, 2, false, true)]);
}

#[test]
fn abstract_methods_stay_unresolved_until_implemented() {
    // Animal (abstract speak), Mammal: Animal, Dog: Mammal (implements speak)
    let bases = vec![vec![], vec![0], vec![1]];
    let mros = linearize_all(&bases).unwrap();
    let direct = vec![vec![decl(0, 0, 3, true, false)], vec![], vec![decl(2, 0, 3, false, true)]];
    let resolution = resolve_methods(&direct, &mros, 1);
    assert_eq!(resolution.issues, vec![]);
    assert_eq!(resolution.unresolved[0], vec![decl(0, 0, 3, true, false)]);
    assert_eq!(resolution.unresolved[1], vec![decl(0, 0, 3, true, false)]);
    assert!(resolution.unresolved[2].is_empty());
    assert_eq!(resolution.selected[2], vec![decl(2, 0, 3, false, true)]);
}

#[test]
fn inherited_conflicts_are_reported() {
    // A, B independent; C: A, B inherits both
    let bases = vec![vec![], vec![], vec![0, 1]];
    let mros = linearize_all(&bases).unwrap();
    let direct = vec![
        vec![decl(0, 0, 1, false, false), decl(0, 1, 1, true, false)],
        vec![decl(1, 0, 2, false, false), decl(1, 1, 2, true, false)],
        vec![],
    ];
    let resolution = resolve_methods(&direct, &mros, 2);
    assert_eq!(
        resolution.issues,
        vec![
            ResolveIssue::IncompatibleInherited { class: 2, name: 0 },
            ResolveIssue::AbstractConflict { class: 2, name: 1 },
        ]
    );
}

#[test]
fn implementation_must_match_inherited_abstract() {
    let bases = vec![vec![], vec![], vec![0, 1]];
    let mros = linearize_all(&bases).unwrap();
    let direct = vec![vec![decl(0, 0, 1, false, false)], vec![decl(1, 0, 2, true, false)], vec![]];
    let resolution = resolve_methods(&direct, &mros, 1);
    assert_eq!(
        resolution.issues,
        vec![ResolveIssue::AbstractUnsatisfied { class: 2, name: 0, implementer: 0, declarer: 1 }]
    );
}

#[test]
fn abstract_redeclaration_must_match() {
    let bases = vec![vec![], vec![0]];
    let mros = linearize_all(&bases).unwrap();
    let direct = vec![vec![decl(0, 0, 1, false, false)], vec![decl(1, 0, 2, true, true)]];
    let resolution = resolve_methods(&direct, &mros, 1);
    assert_eq!(
        resolution.issues,
        vec![ResolveIssue::AbstractIncompatible { class: 1, name: 0, inherited_owner: 0 }]
    );
    assert_eq!(resolution.unresolved[1], vec![decl(1, 0, 2, true, true)]);
}

#[test]
fn interface_merges_selected_and_abstract_by_name() {
    let selected = vec![decl(0, 0, 1, false, false), decl(1, 3, 1, false, false)];
    let unresolved = vec![decl(2, 1, 2, true, false), decl(2, 4, 2, true, false)];
    let interface = interface_methods(&selected, &unresolved);
    assert_eq!(
        interface,
        vec![
            decl(0, 0, 1, false, false),
            decl(2, 1, 2, true, false),
            decl(1, 3, 1, false, false),
            decl(2, 4, 2, true, false),
        ]
    );
    assert_eq!(interface_methods(&vec![], &unresolved), unresolved);
    assert_eq!(interface_methods(&selected, &vec![]), selected);
}

#[test]
fn vtable_entry_needs_the_same_signature() {
    let selected = vec![decl(3, 0, 5, false, true), decl(1, 2, 6, false, false)];
    assert_eq!(vtable_entry(&selected, decl(0, 0, 5, true, false)), Some(decl(3, 0, 5, false, true)));
    assert_eq!(vtable_entry(&selected, decl(0, 0, 9, true, false)), None);
    assert_eq!(vtable_entry(&selected, decl(0, 1, 5, true, false)), None);
}

#[test]
fn resolution_lists_methods_in_name_order() {
    let bases = vec![vec![], vec![0]];
    let mros = linearize_all(&bases).unwrap();
    let direct = vec![
        vec![decl(0, 0, 1, false, false), decl(0, 2, 1, true, false)],
        vec![decl(1, 1, 1, false, false), decl(1, 2, 1, false, true)],
    ];
    let resolution = resolve_methods(&direct, &mros, 3);
    assert_eq!(resolution.issues, vec![]);
    let names: Vec<usize> = resolution.selected[1].iter().map(|d| d.name).collect();
    assert_eq!(names, vec![0, 1, 2]);
    assert_eq!(resolution.unresolved[0], vec![decl(0, 2, 1, true, false)]);
}

#[test]
fn vtable_dispatch_carries_async_and_unsafe() {
    let mut implementation = decl(3, 0, 5, false, true);
    implementation.is_unsafe = true;
    implementation.is_async = true;
    let selected = vec![implementation];
    let mut interface = decl(0, 0, 5, true, false);
    interface.is_unsafe = true;
    interface.is_async = true;
    assert_eq!(
        vtable_dispatch(&selected, interface),
        VtableDispatch { target: Some(implementation), is_async: true, unsafe_fn: true, unsafe_call: true }
    );
    let mut other = decl(0, 0, 9, true, false);
    other.is_async = true;
    assert_eq!(
        vtable_dispatch(&selected, other),
        VtableDispatch { target: None, is_async: true, unsafe_fn: false, unsafe_call: false }
    );
}

use oop_mro_macros::graph::BaseEdge;
use oop_mro_macros::types::TypeToken;
use oop_mro_macros::subobjects::{
    ancestor_views, base_via_target, base_via_views, build_cast_target_ids,
    owned_base_via_candidates, subobject_id, virtual_base_chains, virtual_base_types, owned_downcast_candidates, subobject_views,
    vtable_cast_views, SubobjectView,
};

fn edges(bases: &[Vec<usize>], virtual_bases: &[(usize, usize)]) -> Vec<Vec<BaseEdge>> {
    bases
        .iter()
        .enumerate()
        .map(|(class, direct)| {
            direct
                .iter()
                .map(|&base| BaseEdge {
                    base,
                    is_virtual: virtual_bases.contains(&(class, base)),
                    type_id: base,
                })
                .collect()
        })
        .collect()
}

fn views(vs: &[SubobjectView]) -> Vec<(usize, Vec<usize>)> {
    vs.iter().map(|v| (v.class_index, v.path.clone())).collect()
}

// Root, Left: Root, Right: Root, Diamond: Left, Right
fn diamond() -> Vec<Vec<usize>> {
    vec![vec![], vec![0], vec![0], vec![1, 2]]
}

#[test]
fn non_virtual_diamond_has_two_roots() {
    let e = edges(&diamond(), &[]);
    assert_eq!(
        views(&subobject_views(&e, 3)),
        vec![(3, vec![]), (1, vec![1]), (0, vec![1, 0]), (2, vec![2]), (0, vec![2, 0])]
    );
    // the root is ambiguous: `as_base` leaves it out
    assert_eq!(views(&ancestor_views(&e, 3)), vec![(3, vec![]), (1, vec![1]), (2, vec![2])]);
}

#[test]
fn virtual_diamond_shares_its_root() {
    let e = edges(&diamond(), &[(1, 0), (2, 0)]);
    assert_eq!(
        views(&subobject_views(&e, 3)),
        vec![(3, vec![]), (1, vec![1]), (0, vec![1, 0]), (2, vec![2])]
    );
    assert_eq!(
        views(&ancestor_views(&e, 3)),
        vec![(3, vec![]), (1, vec![1]), (0, vec![1, 0]), (2, vec![2])]
    );
}

#[test]
fn base_via_paths_must_follow_edges() {
    let e = edges(&diamond(), &[]);
    assert_eq!(base_via_target(&e, 3, &[2, 0]), Some(0));
    assert_eq!(base_via_target(&e, 3, &[]), Some(3));
    assert_eq!(base_via_target(&e, 3, &[0]), None);
    assert_eq!(base_via_target(&e, 3, &[1, 2]), None);
    assert_eq!(base_via_target(&e, 9, &[1]), None);
}

#[test]
fn cast_views_go_through_the_slot_first() {
    let e = edges(&diamond(), &[]);
    // the table of Diamond seen as its Right subobject
    assert_eq!(
        views(&vtable_cast_views(&e, 3, 2, &vec![2])),
        vec![(2, vec![2]), (0, vec![2, 0]), (3, vec![]), (1, vec![1])]
    );
}

/// No class is generic: every base edge carries no arguments.
fn no_generics(bases: &[Vec<usize>]) -> (Vec<Vec<Vec<Vec<TypeToken>>>>, Vec<usize>, Vec<Vec<String>>) {
    let args = bases.iter().map(|direct| vec![Vec::new(); direct.len()]).collect();
    (args, vec![0; bases.len()], vec![Vec::new(); bases.len()])
}

fn found(candidates: &[oop_mro_macros::subobjects::DowncastCandidate]) -> Vec<(usize, Vec<usize>, Vec<usize>)> {
    candidates
        .iter()
        .map(|c| (c.complete, c.source_path.clone(), c.target_path.clone()))
        .collect()
}

#[test]
fn owned_downcasts_need_one_containing_target() {
    let bases = diamond();
    let mros = vec![vec![0], vec![1, 0], vec![2, 0], vec![3, 1, 2, 0]];
    let (args, n_params, keys) = no_generics(&bases);
    let plain = edges(&bases, &[]);
    let candidates = owned_downcast_candidates(
        &[false, false, false, false],
        &mros,
        &plain,
        &args,
        &n_params,
        &keys,
        0,
        1,
        &Vec::new(),
        &Vec::new(),
    );
    assert_eq!(found(&candidates), vec![(1, vec![0], vec![]), (3, vec![1, 0], vec![1])]);

    // with a shared root, only Left contains it in Diamond as well
    let shared = edges(&bases, &[(1, 0), (2, 0)]);
    let candidates = owned_downcast_candidates(
        &[false, false, false, true],
        &mros,
        &shared,
        &args,
        &n_params,
        &keys,
        0,
        2,
        &Vec::new(),
        &Vec::new(),
    );
    assert_eq!(found(&candidates), vec![(2, vec![0], vec![])]);
}

// class Root<T>; class A: Root<u8>; class B: Root<u16>; class C: A, B
const U8: TypeToken = TypeToken::Atom(1);
const U16: TypeToken = TypeToken::Atom(2);
const I32: TypeToken = TypeToken::Atom(3);

fn specialized() -> (Vec<Vec<BaseEdge>>, Vec<Vec<usize>>, Vec<Vec<Vec<Vec<TypeToken>>>>, Vec<usize>) {
    let bases = vec![vec![], vec![0], vec![0], vec![1, 2]];
    let mros = vec![vec![0], vec![1, 0], vec![2, 0], vec![3, 1, 2, 0]];
    let args = vec![vec![], vec![vec![vec![U8]]], vec![vec![vec![U16]]], vec![vec![], vec![]]];
    (edges(&bases, &[]), mros, args, vec![1, 0, 0, 0])
}

#[test]
fn owned_downcasts_pick_the_specialization_asked_for() {
    let (e, mros, args, n_params) = specialized();
    let keys = vec![vec![String::from("T")], vec![], vec![], vec![]];
    let concrete = [true, false, false, false];
    let from = |wanted: TypeToken| {
        found(&owned_downcast_candidates(
            &concrete,
            &mros,
            &e,
            &args,
            &n_params,
            &keys,
            0,
            3,
            &vec![vec![wanted]],
            &Vec::new(),
        ))
    };
    assert_eq!(from(U8), vec![(3, vec![1, 0], vec![])]);
    assert_eq!(from(U16), vec![(3, vec![2, 0], vec![])]);
    assert_eq!(from(I32), vec![]);
}

#[test]
fn owned_downcasts_need_generics_named_alike() {
    let (e, mros, args, n_params) = specialized();
    let concrete = [true, false, false, false];
    let alike = vec![vec![String::from("T")], vec![], vec![], vec![]];
    let candidates = owned_downcast_candidates(
        &concrete, &mros, &e, &args, &n_params, &alike, 0, 1, &vec![vec![U8]], &Vec::new(),
    );
    assert_eq!(found(&candidates), vec![(1, vec![0], vec![]), (3, vec![1, 0], vec![1])]);

    let differ = vec![vec![String::from("T")], vec![], vec![], vec![String::from("X")]];
    let candidates = owned_downcast_candidates(
        &concrete, &mros, &e, &args, &n_params, &differ, 0, 1, &vec![vec![U8]], &Vec::new(),
    );
    assert_eq!(found(&candidates), vec![(1, vec![0], vec![])]);
}

fn via(vs: &[oop_mro_macros::subobjects::BaseViaView]) -> Vec<(usize, Vec<usize>, Vec<usize>)> {
    vs.iter().map(|v| (v.class_index, v.path.clone(), v.via.clone())).collect()
}

#[test]
fn ambiguous_bases_are_named_by_their_chains() {
    let e = edges(&diamond(), &[]);
    assert_eq!(
        via(&base_via_views(&e, 3)),
        vec![(0, vec![1, 0], vec![1]), (0, vec![2, 0], vec![2])]
    );
    // a shared root is not ambiguous
    let shared = edges(&diamond(), &[(1, 0), (2, 0)]);
    assert!(base_via_views(&shared, 3).is_empty());

    // Root, Mid: Root, Left: Mid, Right: Mid, Bottom: Left, Right
    let e = edges(&[vec![], vec![0], vec![1], vec![1], vec![2, 3]], &[]);
    assert_eq!(
        via(&base_via_views(&e, 4)),
        vec![
            (1, vec![2, 1], vec![2]),
            (1, vec![3, 1], vec![3]),
            (0, vec![2, 1, 0], vec![2]),
            (0, vec![2, 1, 0], vec![2, 1]),
            (0, vec![3, 1, 0], vec![3]),
            (0, vec![3, 1, 0], vec![3, 1]),
        ]
    );
}

#[test]
fn virtual_roots_are_found_through_each_virtual_edge() {
    let shared = edges(&diamond(), &[(1, 0), (2, 0)]);
    assert_eq!(virtual_base_chains(&shared, 3, 0), vec![vec![1, 0], vec![2, 0]]);
    let plain = edges(&diamond(), &[]);
    assert!(virtual_base_chains(&plain, 3, 0).is_empty());
}

#[test]
fn subobject_ids_number_every_subobject_of_the_block() {
    let plain = edges(&diamond(), &[]);
    assert_eq!(subobject_id(&plain, 0, &vec![]), Some(0));
    assert_eq!(subobject_id(&plain, 3, &vec![]), Some(5));
    assert_eq!(subobject_id(&plain, 3, &vec![2, 0]), Some(9));
    assert_eq!(subobject_id(&plain, 3, &vec![0]), None);
    // with a shared root both chains to it give the one subobject
    let shared = edges(&diamond(), &[(1, 0), (2, 0)]);
    assert_eq!(subobject_id(&shared, 3, &vec![1, 0]), Some(7));
    assert_eq!(subobject_id(&shared, 3, &vec![2, 0]), Some(7));
    assert_eq!(subobject_id(&shared, 3, &vec![2]), Some(8));
}

#[test]
fn cast_targets_number_classes_then_new_specializations() {
    let plain = edges(&diamond(), &[]);
    assert_eq!(build_cast_target_ids(&plain, &[0, 1, 2, 3]), vec![(0, 0), (1, 1), (2, 2), (3, 3)]);
    // Holder, A: virtual Holder<u8> (type 1), B: virtual Holder<u16> (type 2), C: A, B
    let generic = vec![
        vec![],
        vec![BaseEdge { base: 0, is_virtual: true, type_id: 1 }],
        vec![BaseEdge { base: 0, is_virtual: true, type_id: 2 }],
        vec![
            BaseEdge { base: 1, is_virtual: false, type_id: 3 },
            BaseEdge { base: 2, is_virtual: false, type_id: 4 },
        ],
    ];
    assert_eq!(
        build_cast_target_ids(&generic, &[0, 3, 4, 5]),
        vec![(0, 0), (1, 3), (2, 4), (3, 5), (0, 1), (0, 2)]
    );
    assert_eq!(virtual_base_types(&generic, 3, 0), vec![1, 2]);
}

#[test]
fn owned_base_via_candidates_follow_each_source_subobject() {
    let plain = edges(&diamond(), &[]);
    let mros = vec![vec![0], vec![1, 0], vec![2, 0], vec![3, 1, 2, 0]];
    let found: Vec<(usize, Option<usize>, Vec<usize>)> =
        owned_base_via_candidates(&[false; 4], &mros, &plain, 1, &vec![0])
            .iter()
            .map(|c| (c.complete, c.source_id, c.path.clone()))
            .collect();
    assert_eq!(found, vec![(1, Some(1), vec![0]), (3, Some(6), vec![1, 0])]);
    let found = owned_base_via_candidates(&[false, true, false, false], &mros, &plain, 1, &vec![0]);
    assert_eq!(found.len(), 1);
}

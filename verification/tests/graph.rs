use oop_mro_macros::c3::linearize_all;
use oop_mro_macros::graph::{
    collect_all_inheritance_paths, find_base_path_in, is_acyclic, reaches_base, virtual_aware_mro_bases,
    vtable_slots, BaseEdge,
};
use std::collections::HashSet;

fn diamond() -> Vec<Vec<usize>> {
    // Root, Left: Root, Right: Root, Diamond: Left, Right
    vec![vec![], vec![0], vec![0], vec![1, 2]]
}

fn edges(bases: &[Vec<usize>], virtual_bases: &[(usize, usize)]) -> Vec<Vec<BaseEdge>> {
    bases
        .iter()
        .enumerate()
        .map(|(class, direct)| {
            direct
                .iter()
                .map(|&base| BaseEdge {
                    base,
                    is_virtual: virtual_bases.contains(&(class, base)),
                    type_id: base,
                })
                .collect()
        })
        .collect()
}

#[test]
fn base_path_takes_first_base_toward_target() {
    let bases = diamond();
    let mros = linearize_all(&bases).unwrap();
    assert_eq!(find_base_path_in(&bases, &mros, 3, 0), Some(vec![1, 0]));
    assert_eq!(find_base_path_in(&bases, &mros, 3, 2), Some(vec![2]));
    assert_eq!(find_base_path_in(&bases, &mros, 1, 2), None);
    assert_eq!(find_base_path_in(&bases, &mros, 0, 0), None);
}

#[test]
fn base_path_through_long_chain() {
    let bases = vec![vec![], vec![0], vec![1], vec![2]];
    let mros = linearize_all(&bases).unwrap();
    assert_eq!(find_base_path_in(&bases, &mros, 3, 0), Some(vec![2, 1, 0]));
}

#[test]
fn vtable_slots_list_paths_depth_first() {
    let bases = diamond();
    let has_interface = vec![true, false, true, true];
    let slots = vtable_slots(&bases, &has_interface, 3);
    let found: Vec<(usize, Vec<usize>)> =
        slots.into_iter().map(|slot| (slot.ancestor, slot.path)).collect();
    assert_eq!(
        found,
        vec![(3, vec![]), (0, vec![1, 0]), (2, vec![2]), (0, vec![2, 0])]
    );
}

#[test]
fn vtable_slots_empty_without_interfaces() {
    let bases = diamond();
    let has_interface = vec![false; 4];
    assert!(vtable_slots(&bases, &has_interface, 3).is_empty());
}

#[test]
fn all_inheritance_paths_in_depth_first_order() {
    let base_edges = edges(&diamond(), &[]);
    let mut paths = Vec::new();
    collect_all_inheritance_paths(&base_edges, 3, Vec::new(), &mut paths);
    assert_eq!(paths, vec![vec![1], vec![1, 0], vec![2], vec![2, 0]]);

    let mut prefixed = vec![vec![9]];
    collect_all_inheritance_paths(&base_edges, 1, vec![3, 1], &mut prefixed);
    assert_eq!(prefixed, vec![vec![9], vec![3, 1, 0]]);
}

#[test]
fn reachability_follows_base_edges() {
    let base_edges = edges(&diamond(), &[]);
    let mut visited = HashSet::new();
    assert!(reaches_base(&base_edges, 3, 0, &mut visited));
    let mut visited = HashSet::new();
    assert!(!reaches_base(&base_edges, 1, 2, &mut visited));
    let mut visited = HashSet::new();
    assert!(!reaches_base(&base_edges, 0, 0, &mut visited));
}

#[test]
fn virtual_base_reached_through_another_base_is_left_out() {
    // Root, Left: virtual Root, Right: virtual Root, Diamond: Left, Right, virtual Root
    let bases = vec![vec![], vec![0], vec![0], vec![1, 2, 0]];
    let base_edges = edges(&bases, &[(1, 0), (2, 0), (3, 0)]);
    let mro_bases = virtual_aware_mro_bases(&base_edges, &bases);
    assert_eq!(mro_bases, vec![vec![], vec![0], vec![0], vec![1, 2]]);
}

#[test]
fn non_virtual_base_is_kept() {
    let bases = vec![vec![], vec![0], vec![1, 0]];
    let base_edges = edges(&bases, &[]);
    let mro_bases = virtual_aware_mro_bases(&base_edges, &bases);
    assert_eq!(mro_bases, bases);
}

#[test]
fn inheritance_paths_need_only_an_acyclic_graph() {
    // A: B, C and D: C, B cannot be merged in E: A, D, yet the graph is acyclic
    let bases = vec![vec![], vec![], vec![0, 1], vec![1, 0], vec![2, 3]];
    let e = edges(&bases, &[]);
    assert!(linearize_all(&bases).is_err());
    let mut paths = Vec::new();
    collect_all_inheritance_paths(&e, 4, vec![], &mut paths);
    assert_eq!(
        paths,
        vec![vec![2], vec![2, 0], vec![2, 1], vec![3], vec![3, 1], vec![3, 0]]
    );
}

#[test]
fn acyclicity_is_decided() {
    assert!(is_acyclic(&edges(&diamond(), &[])));
    assert!(!is_acyclic(&edges(&[vec![1], vec![0]], &[])));
    assert!(!is_acyclic(&edges(&[vec![0]], &[])));
}

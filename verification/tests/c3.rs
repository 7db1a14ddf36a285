use oop_mro_macros::c3::{linearize_all, merge, C3Error};

#[test]
fn single_inheritance() {
    let bases = vec![vec![], vec![0], vec![1]];

    let mros = linearize_all(&bases).unwrap();

    assert_eq!(mros[0], vec![0]);
    assert_eq!(mros[1], vec![1, 0]);
    assert_eq!(mros[2], vec![2, 1, 0]);
}

#[test]
fn diamond_inheritance() {
    let bases = vec![vec![], vec![0], vec![0], vec![1, 2]];

    let mros = linearize_all(&bases).unwrap();

    assert_eq!(mros[3], vec![3, 1, 2, 0]);
}

#[test]
fn inconsistent_hierarchy_is_rejected() {
    let bases = vec![vec![], vec![], vec![0, 1], vec![1, 0], vec![2, 3]];

    let error = linearize_all(&bases).unwrap_err();

    assert_eq!(error, C3Error::Inconsistent { class: 4 });
}

#[test]
fn cycles_are_rejected() {
    let bases = vec![vec![1], vec![0]];

    let error = linearize_all(&bases).unwrap_err();

    assert!(matches!(error, C3Error::Cycle { .. }));
}

#[test]
fn declaration_order_decides_between_siblings() {
    // Entity, Named: Entity, Tagged: Entity, Document: Named, Tagged, Document2: Tagged, Named
    let bases = vec![vec![], vec![0], vec![0], vec![1, 2], vec![2, 1]];

    let mros = linearize_all(&bases).unwrap();

    assert_eq!(mros[3], vec![3, 1, 2, 0]);
    assert_eq!(mros[4], vec![4, 2, 1, 0]);
}

#[test]
fn empty_hierarchy_has_no_orders() {
    let bases: Vec<Vec<usize>> = Vec::new();
    assert_eq!(linearize_all(&bases).unwrap(), Vec::<Vec<usize>>::new());
}

#[test]
fn self_inheritance_is_a_cycle() {
    let bases = vec![vec![], vec![1]];
    assert_eq!(linearize_all(&bases).unwrap_err(), C3Error::Cycle { class: 1 });
}

#[test]
fn cycle_is_reported_on_the_cycle() {
    // 0 -> 1 -> 2 -> 1: the cycle is found when class 1 is reached again.
    let bases = vec![vec![1], vec![2], vec![1]];
    assert_eq!(linearize_all(&bases).unwrap_err(), C3Error::Cycle { class: 1 });
}

#[test]
fn repeated_base_is_inconsistent() {
    let bases = vec![vec![], vec![0, 0]];
    assert_eq!(linearize_all(&bases).unwrap_err(), C3Error::Inconsistent { class: 1 });
}

#[test]
fn deep_hierarchy_laws_hold() {
    // A classic example: O=0, A=1, B=2, C=3, D=4, E=5, K1=6, K2=7, K3=8, Z=9
    let bases = vec![
        vec![],
        vec![0],
        vec![0],
        vec![0],
        vec![0],
        vec![0],
        vec![1, 2, 3],
        vec![4, 2, 5],
        vec![4, 1],
        vec![6, 7, 8],
    ];
    let mros = linearize_all(&bases).unwrap();
    assert_eq!(mros[6], vec![6, 1, 2, 3, 0]);
    assert_eq!(mros[7], vec![7, 4, 2, 5, 0]);
    assert_eq!(mros[8], vec![8, 4, 1, 0]);
    assert_eq!(mros[9], vec![9, 6, 7, 8, 4, 1, 2, 3, 5, 0]);
    for (class, mro) in mros.iter().enumerate() {
        assert_eq!(mro[0], class);
        for (a, x) in mro.iter().enumerate() {
            for y in mro.iter().skip(a + 1) {
                assert_ne!(x, y);
            }
        }
    }
}

#[test]
fn merge_takes_first_free_head() {
    assert_eq!(merge(vec![vec![1, 0], vec![2, 0], vec![1, 2]]), Some(vec![1, 2, 0]));
    assert_eq!(merge(vec![vec![], vec![]]), Some(vec![]));
    assert_eq!(merge(vec![vec![0, 1], vec![1, 0]]), None);
}

#[test]
fn messages_name_the_class() {
    let names = vec![String::from("Alpha"), String::from("Beta")];
    assert_eq!(
        C3Error::Cycle { class: 1 }.message(&names),
        "inheritance cycle involving class `Beta`"
    );
    assert_eq!(
        C3Error::Inconsistent { class: 0 }.message(&names),
        "cannot compute a consistent C3 method resolution order for class `Alpha`"
    );
}

#[test]
fn display_shows_the_index() {
    assert_eq!(C3Error::Cycle { class: 7 }.to_display_string(), "cycle at class index 7");
    assert_eq!(
        C3Error::Inconsistent { class: 1204 }.to_display_string(),
        "inconsistent class index 1204"
    );
    assert_eq!(C3Error::Cycle { class: 0 }.to_display_string(), "cycle at class index 0");
}

#[test]
fn empty_sequences_do_not_change_the_merge() {
    let seqs = vec![vec![1, 0], vec![2, 0], vec![1, 2]];
    for k in 0..=seqs.len() {
        let mut with_empty = seqs.clone();
        with_empty.insert(k, vec![]);
        assert_eq!(merge(with_empty), merge(seqs.clone()));
    }
    assert_eq!(merge(vec![vec![], vec![0, 1], vec![1, 0]]), None);
}

#[test]
fn depth_first_walk_names_the_class_met_again() {
    let bases = vec![vec![1], vec![0]];
    assert_eq!(linearize_all(&bases).unwrap_err(), C3Error::Cycle { class: 0 });
    let bases = vec![vec![], vec![2], vec![3], vec![2]];
    assert_eq!(linearize_all(&bases).unwrap_err(), C3Error::Cycle { class: 2 });
}

#[test]
fn merge_fails_exactly_on_conflicting_orders() {
    assert_eq!(merge(vec![vec![1, 2], vec![2, 1]]), None);
    assert_eq!(merge(vec![vec![1, 2], vec![2, 3], vec![3, 1]]), None);
    assert_eq!(merge(vec![vec![1, 2], vec![2, 3], vec![1, 3]]), Some(vec![1, 2, 3]));
    assert_eq!(merge(vec![vec![4, 4]]), None);
}

use oop_mro_macros::graph::VtableSlot;
use oop_mro_macros::names::{
    base_cast_method_name, base_field_name, to_snake, vtable_function_name, vtable_slot_name,
    vtable_static_name,
};

#[test]
fn snake_case_splits_words() {
    assert_eq!(to_snake("PathExampleRoot"), "path_example_root");
    assert_eq!(to_snake("Animal"), "animal");
    assert_eq!(to_snake("already_snake"), "already_snake");
    assert_eq!(to_snake("Under_Score"), "under_score");
    assert_eq!(to_snake("HTTP"), "h_t_t_p");
    assert_eq!(to_snake(""), "");
    assert_eq!(to_snake("é2X"), "é2_x");
}

fn names() -> Vec<String> {
    vec![
        String::from("Root"),
        String::from("Left"),
        String::from("Right"),
        String::from("Diamond"),
    ]
}

#[test]
fn slot_names() {
    let names = names();
    let own = VtableSlot { ancestor: 3, path: vec![] };
    let via = VtableSlot { ancestor: 0, path: vec![1, 0] };
    assert_eq!(vtable_slot_name(&names, &own), "Diamond");
    assert_eq!(vtable_slot_name(&names, &via), "Left_Root");
    assert_eq!(vtable_static_name(&names, 3, &via), "__OOP_VTABLE_Diamond_AS_Left_Root");
    assert_eq!(
        vtable_function_name(&names, 3, &via, "speak"),
        "__oop_vcall_diamond_as_left_root_speak"
    );
}

#[test]
fn cast_and_field_names() {
    assert_eq!(base_field_name("PathExampleLeft"), "__oop_base_path_example_left");
    assert_eq!(base_cast_method_name("Animal", false), "as_animal");
    assert_eq!(base_cast_method_name("BigCat", true), "as_big_cat_mut");
}

#[test]
fn snake_case_is_idempotent() {
    for name in ["PathExampleRoot", "HTTP", "Under_Score", "already_snake", "é2X", ""] {
        let once = to_snake(name);
        assert_eq!(to_snake(&once), once);
    }
}

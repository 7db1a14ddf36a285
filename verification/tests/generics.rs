use oop_mro_macros::generics::{
    add_static_type_param_bounds, constructor_base_call_key, generic_params_key, ConstructorBaseCall,
    GenericParam, Generics,
};

fn sample_params() -> Vec<GenericParam> {
    vec![
        GenericParam::Lifetime { ident: String::from("a") },
        GenericParam::Type { ident: String::from("T") },
        GenericParam::Const { ident: String::from("N") },
        GenericParam::Type { ident: String::from("U") },
    ]
}

#[test]
fn params_key_lists_every_identifier_in_order() {
    assert_eq!(generic_params_key(&sample_params()), vec!["a", "T", "N", "U"]);
    assert!(generic_params_key(&[]).is_empty());
}

#[test]
fn static_bounds_follow_existing_predicates() {
    let mut generics = Generics {
        params: sample_params(),
        where_predicates: vec![String::from("T: Clone")],
    };
    add_static_type_param_bounds(&mut generics);
    assert_eq!(generics.where_predicates, vec!["T: Clone", "T: 'static", "U: 'static"]);
    assert_eq!(generic_params_key(&generics.params), vec!["a", "T", "N", "U"]);
}

#[test]
fn no_type_parameter_means_no_bound() {
    let mut generics = Generics {
        params: vec![GenericParam::Lifetime { ident: String::from("a") }],
        where_predicates: Vec::new(),
    };
    add_static_type_param_bounds(&mut generics);
    assert!(generics.where_predicates.is_empty());
}

#[test]
fn base_call_key_uses_type_only_with_explicit_generics() {
    let plain = ConstructorBaseCall {
        base: String::from("Holder"),
        type_args: vec![],
        type_text: String::from("Holder"),
        type_id: 0,
    };
    assert_eq!(constructor_base_call_key(&plain), "Holder");
    let specialized = ConstructorBaseCall {
        base: String::from("Holder"),
        type_args: vec![String::from("u32")],
        type_text: String::from("Holder < u32 >"),
        type_id: 0,
    };
    assert_eq!(constructor_base_call_key(&specialized), "Holder < u32 >");
}

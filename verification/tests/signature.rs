use oop_mro_macros::methods::ReceiverKind;
use oop_mro_macros::signature::{
    check_constructor_inputs, check_signature, signature_key, ArgView, ConstructorInputIssue,
    SignatureFlags, SignatureIssue,
};

fn plain() -> SignatureFlags {
    SignatureFlags {
        is_const: false,
        is_async: false,
        is_unsafe: false,
        has_abi: false,
        has_generics: false,
        is_variadic: false,
    }
}

fn shared_self() -> ArgView {
    ArgView::Receiver { is_reference: true, has_type: false, is_mutable: false }
}

fn typed(simple_pattern: bool) -> ArgView {
    ArgView::Typed { simple_pattern }
}

#[test]
fn receivers_give_their_kind() {
    assert_eq!(
        check_signature(true, plain(), &[shared_self(), typed(true)]),
        Ok(Some(ReceiverKind::Shared))
    );
    let mutable = ArgView::Receiver { is_reference: true, has_type: false, is_mutable: true };
    assert_eq!(check_signature(true, plain(), &[mutable]), Ok(Some(ReceiverKind::Mutable)));
}

#[test]
fn async_and_unsafe_virtual_methods_are_dispatched() {
    let flags = SignatureFlags { is_async: true, is_unsafe: true, ..plain() };
    assert_eq!(check_signature(true, flags, &[shared_self()]), Ok(Some(ReceiverKind::Shared)));
}

#[test]
fn const_functions_are_accepted_when_not_virtual() {
    let flags = SignatureFlags { is_const: true, ..plain() };
    assert_eq!(check_signature(false, flags, &[shared_self(), typed(true)]), Ok(None));
    assert_eq!(check_signature(false, flags, &[typed(true)]), Ok(None));
    assert_eq!(
        check_signature(true, flags, &[shared_self()]),
        Err(vec![SignatureIssue::VirtualConstMethod])
    );
}

#[test]
fn refused_qualifiers_come_first_in_order() {
    let flags = SignatureFlags {
        is_const: true,
        is_async: true,
        is_unsafe: true,
        has_abi: true,
        has_generics: true,
        is_variadic: true,
    };
    assert_eq!(
        check_signature(true, flags, &[]),
        Err(vec![
            SignatureIssue::ConstAsyncMethod,
            SignatureIssue::VirtualConstMethod,
            SignatureIssue::ExternMethod,
            SignatureIssue::GenericVirtualMethod,
            SignatureIssue::VariadicMethod,
            SignatureIssue::MissingReceiver,
        ])
    );
    let generic = SignatureFlags { has_generics: true, ..plain() };
    assert_eq!(check_signature(false, generic, &[]), Ok(None));
}

#[test]
fn receiver_rules() {
    let by_value = ArgView::Receiver { is_reference: false, has_type: false, is_mutable: false };
    assert_eq!(check_signature(true, plain(), &[by_value]), Err(vec![SignatureIssue::ByValueReceiver]));
    assert_eq!(check_signature(false, plain(), &[by_value]), Err(vec![SignatureIssue::ByValueReceiver]));
    let typed_self = ArgView::Receiver { is_reference: true, has_type: true, is_mutable: false };
    assert_eq!(check_signature(true, plain(), &[typed_self]), Err(vec![SignatureIssue::TypedReceiver]));
    assert_eq!(
        check_signature(true, plain(), &[typed(true), shared_self(), typed(false)]),
        Err(vec![
            SignatureIssue::ReceiverNotFirst,
            SignatureIssue::ExtraReceiver { arg: 1 },
            SignatureIssue::PatternArgument { arg: 2 },
        ])
    );
    assert_eq!(
        check_signature(false, plain(), &[typed(false), shared_self()]),
        Err(vec![
            SignatureIssue::PatternArgument { arg: 0 },
            SignatureIssue::ExtraReceiver { arg: 1 },
        ])
    );
}

#[test]
fn constructor_inputs() {
    assert_eq!(check_constructor_inputs(&[typed(true), typed(true)]), vec![]);
    assert_eq!(
        check_constructor_inputs(&[shared_self(), typed(false), typed(true)]),
        vec![
            ConstructorInputIssue::SelfReceiver { arg: 0 },
            ConstructorInputIssue::PatternArgument { arg: 1 },
        ]
    );
}

#[test]
fn signature_keys() {
    let args = vec![String::from("u32"), String::from("& str")];
    assert_eq!(
        signature_key(false, false, ReceiverKind::Shared, &args, "String"),
        "sync|safe|Shared|u32,& str|String"
    );
    assert_eq!(signature_key(true, true, ReceiverKind::Mutable, &[], ""), "async|unsafe|Mutable||");
    assert_eq!(signature_key(false, true, ReceiverKind::Shared, &[String::from("T")], ""), "sync|unsafe|Shared|T|");
}

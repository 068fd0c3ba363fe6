use autocxx_engine::api::{Api, ConvertError, Outcome, Use};
use autocxx_engine::types::{Namespace, TypeName};

fn ns_of(segments: &[&str]) -> Namespace {
    let mut ns = Namespace::new();
    for segment in segments {
        ns = ns.push(segment.to_string());
    }
    ns
}

fn bare_api(ns: Namespace, id: &str, use_stmt: Use, id_for_allowlist: Option<&str>) -> Api {
    Api {
        ns,
        id: id.to_string(),
        use_stmt,
        deps: Vec::new(),
        extern_c_mod_item: None,
        bridge_items: Vec::new(),
        global_items: Vec::new(),
        additional_cpp: None,
        id_for_allowlist: id_for_allowlist.map(|id| id.to_string()),
        bindgen_mod_item: None,
        impl_entry: None,
    }
}

fn every_error() -> Vec<ConvertError> {
    vec![
        ConvertError::NoContent,
        ConvertError::UnsafePODType("detail".to_string()),
        ConvertError::UnexpectedForeignItem,
        ConvertError::UnexpectedOuterItem,
        ConvertError::UnexpectedItemInMod,
        ConvertError::ComplexTypedefTarget("T<U>".to_string()),
        ConvertError::UnexpectedThisType(ns_of(&["a"]), "f".to_string()),
        ConvertError::UnsupportedBuiltInType(TypeName::new(&Namespace::new(), "char16_t")),
        ConvertError::VirtualThisType(ns_of(&["a", "b"]), "g".to_string()),
        ConvertError::ConflictingTemplatedArgsWithTypedef(TypeName::new(&ns_of(&["n"]), "V")),
    ]
}

#[test]
fn only_two_kinds_are_ignorable() {
    let ignorable: Vec<bool> = every_error().iter().map(|e| e.is_ignorable()).collect();
    assert_eq!(
        ignorable,
        vec![false, false, false, false, false, false, false, true, true, false]
    );
}

#[test]
fn virtual_this_type_is_ignorable() {
    assert!(ConvertError::VirtualThisType(Namespace::new(), "f".to_string()).is_ignorable());
}

#[test]
fn unsupported_built_in_type_is_ignorable() {
    let ty = TypeName::new(&Namespace::new(), "char16_t");
    assert!(ConvertError::UnsupportedBuiltInType(ty).is_ignorable());
}

#[test]
fn unexpected_this_type_is_fatal() {
    assert!(!ConvertError::UnexpectedThisType(Namespace::new(), "f".to_string()).is_ignorable());
}

#[test]
fn outcome_skips_what_is_ignorable_and_aborts_on_the_rest() {
    for error in every_error() {
        match error.outcome() {
            Outcome::Skip => assert!(error.is_ignorable()),
            Outcome::Abort(message) => {
                assert!(!error.is_ignorable());
                assert_eq!(message, error.message());
            }
        }
    }
}

#[test]
fn message_no_content() {
    assert_eq!(
        ConvertError::NoContent.message(),
        "The initial run of 'bindgen' did not generate any content. This might be because none of the requested items for generation could be converted."
    );
}

#[test]
fn message_unsafe_pod_type() {
    assert_eq!(
        ConvertError::UnsafePODType("It has a destructor.".to_string()).message(),
        "An item was requested using 'generate_pod' which was not safe to hold by value in Rust. It has a destructor."
    );
}

#[test]
fn message_unexpected_foreign_item() {
    assert_eq!(
        ConvertError::UnexpectedForeignItem.message(),
        "Bindgen generated some unexpected code in a foreign mod section. You may have specified something in a 'generate' directive which is not currently compatible with autocxx."
    );
}

#[test]
fn message_unexpected_outer_item() {
    assert_eq!(
        ConvertError::UnexpectedOuterItem.message(),
        "Bindgen generated some unexpected code in its outermost mod section. You may have specified something in a 'generate' directive which is not currently compatible with autocxx."
    );
}

#[test]
fn message_unexpected_item_in_mod() {
    assert_eq!(
        ConvertError::UnexpectedItemInMod.message(),
        "Bindgen generated some unexpected code in an inner namespace mod. You may have specified something in a 'generate' directive which is not currently compatible with autocxx."
    );
}

#[test]
fn message_complex_typedef_target() {
    assert_eq!(
        ConvertError::ComplexTypedefTarget("A<B>".to_string()).message(),
        "autocxx was unable to produce a typdef pointing to the complex type A<B>."
    );
}

#[test]
fn message_unexpected_this_type() {
    assert_eq!(
        ConvertError::UnexpectedThisType(ns_of(&["a", "b"]), "get".to_string()).message(),
        "Unexpected type for 'this' in the function get (in namespace a::b)."
    );
    assert_eq!(
        ConvertError::UnexpectedThisType(Namespace::new(), "get".to_string()).message(),
        "Unexpected type for 'this' in the function get."
    );
}

#[test]
fn message_unsupported_built_in_type() {
    let ty = TypeName::new(&Namespace::new(), "char16_t");
    assert_eq!(
        ConvertError::UnsupportedBuiltInType(ty).message(),
        "autocxx does not yet know how to support the built-in C++ type char16_t - please raise an issue on github"
    );
}

#[test]
fn message_virtual_this_type() {
    assert_eq!(
        ConvertError::VirtualThisType(ns_of(&["n"]), "run".to_string()).message(),
        "Member function encountered where the 'this' type is 'void*', but we were unable to recognize which type that corresponds to. Function run (in namespace n)."
    );
}

#[test]
fn message_conflicting_templated_args() {
    let ty = TypeName::new(&ns_of(&["a", "b"]), "Vec");
    assert_eq!(
        ConvertError::ConflictingTemplatedArgsWithTypedef(ty).message(),
        "Type a::b::Vec has templatd arguments and so does the typedef to which it points"
    );
}

#[test]
fn typename_is_namespace_and_id() {
    let api = bare_api(ns_of(&["a"]), "Foo", Use::UsedWithAlias("Bar".to_string()), Some("Baz"));
    assert_eq!(api.typename(), TypeName::new(&ns_of(&["a"]), "Foo"));
}

#[test]
fn allowlist_name_prefers_the_override() {
    let api = bare_api(ns_of(&["a"]), "Foo", Use::UsedWithAlias("Bar".to_string()), Some("Baz"));
    assert_eq!(api.typename_for_allowlist(), TypeName::new(&ns_of(&["a"]), "Baz"));
}

#[test]
fn allowlist_name_falls_back_to_the_alias() {
    let api = bare_api(ns_of(&["a"]), "Foo", Use::UsedWithAlias("Bar".to_string()), None);
    assert_eq!(api.typename_for_allowlist(), TypeName::new(&ns_of(&["a"]), "Bar"));
}

#[test]
fn allowlist_name_falls_back_to_the_id() {
    let used = bare_api(Namespace::new(), "Foo", Use::Used, None);
    assert_eq!(used.typename_for_allowlist(), TypeName::new(&Namespace::new(), "Foo"));
    let unused = bare_api(Namespace::new(), "Foo", Use::Unused, None);
    assert_eq!(unused.typename_for_allowlist(), TypeName::new(&Namespace::new(), "Foo"));
}

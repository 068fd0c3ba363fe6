use autocxx_engine::known_types::KnownTypes;
use autocxx_engine::types::{Namespace, TypeName};

fn namespace_of(segments: &[&str]) -> Namespace {
    let mut ns = Namespace::new();
    for segment in segments {
        ns = ns.push(segment.to_string());
    }
    ns
}

#[test]
fn root_namespace_is_empty() {
    let ns = Namespace::new();
    assert!(ns.is_empty());
    assert_eq!(ns.len(), 0);
    assert_eq!(ns.get(0), None);
    assert_eq!(ns.to_path_string(), "");
    assert_eq!(ns.to_display_suffix(), "");
}

#[test]
fn push_leaves_the_outer_namespace_alone() {
    let outer = namespace_of(&["a"]);
    let inner = outer.push("b".to_string());
    assert_eq!(outer.len(), 1);
    assert_eq!(inner.len(), 2);
    assert_eq!(inner.get(0), Some(&"a".to_string()));
    assert_eq!(inner.get(1), Some(&"b".to_string()));
    assert_eq!(inner.get(2), None);
    assert!(!inner.is_empty());
}

#[test]
fn path_string_joins_with_double_colon() {
    assert_eq!(namespace_of(&["a"]).to_path_string(), "a");
    assert_eq!(namespace_of(&["a", "b"]).to_path_string(), "a::b");
    assert_eq!(namespace_of(&["a", "b", "c"]).to_path_string(), "a::b::c");
}

#[test]
fn display_suffix_names_the_namespace() {
    assert_eq!(namespace_of(&["a", "b"]).to_display_suffix(), " (in namespace a::b)");
    assert_eq!(namespace_of(&["x"]).to_display_suffix(), " (in namespace x)");
}

#[test]
fn namespaces_compare_by_segments() {
    assert_eq!(namespace_of(&["a", "b"]), namespace_of(&["a", "b"]));
    assert_ne!(namespace_of(&["a", "b"]), namespace_of(&["a"]));
    assert_ne!(namespace_of(&["a", "b"]), namespace_of(&["a", "c"]));
    assert_ne!(namespace_of(&["a", "b"]), namespace_of(&["b", "a"]));
    assert_eq!(Namespace::new(), namespace_of(&[]));
}

#[test]
fn namespace_clone_is_equal() {
    let ns = namespace_of(&["a", "b"]);
    assert_eq!(ns.clone(), ns);
}

#[test]
fn type_name_parts() {
    let ty = TypeName::new(&namespace_of(&["std", "os"]), "c_int");
    assert_eq!(ty.get_final_ident(), "c_int");
    assert_eq!(ty.get_namespace(), &namespace_of(&["std", "os"]));
    assert_eq!(ty.to_cpp_name(), "std::os::c_int");
}

#[test]
fn type_name_in_root_has_no_prefix() {
    let ty = TypeName::new(&Namespace::new(), "Foo");
    assert_eq!(ty.to_cpp_name(), "Foo");
}

#[test]
fn type_names_compare_by_namespace_and_name() {
    let a = TypeName::new(&namespace_of(&["a"]), "T");
    assert_eq!(a, TypeName::new(&namespace_of(&["a"]), "T"));
    assert_eq!(a.clone(), a);
    assert_ne!(a, TypeName::new(&namespace_of(&["b"]), "T"));
    assert_ne!(a, TypeName::new(&namespace_of(&["a"]), "U"));
    assert_ne!(a, TypeName::new(&Namespace::new(), "T"));
}

#[test]
fn known_types_recognize_what_they_hold() {
    let c_int = TypeName::new(&namespace_of(&["autocxx"]), "c_int");
    let c_long = TypeName::new(&namespace_of(&["autocxx"]), "c_long");
    let known = KnownTypes::new(vec![c_int.clone(), c_long.clone()]);
    assert!(known.is_ctype(&c_int));
    assert!(known.is_ctype(&c_long));
    assert!(!known.is_ctype(&TypeName::new(&Namespace::new(), "c_int")));
    assert!(!known.is_ctype(&TypeName::new(&namespace_of(&["autocxx"]), "c_short")));
    assert!(!KnownTypes::new(Vec::new()).is_ctype(&c_int));
}

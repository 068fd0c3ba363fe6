use autocxx_engine::additional_cpp::AdditionalNeed;
use autocxx_engine::api::{Api, Use};
use autocxx_engine::use_statements::UseStatements;
use autocxx_engine::codegen::{flatten, remove_nones, CodeGenerator, CodegenResults};
use autocxx_engine::known_types::KnownTypes;
use autocxx_engine::output::{ForeignDecl, OutputItem};
use autocxx_engine::types::{Namespace, TypeName};

fn ns(segments: &[&str]) -> Namespace {
    let mut ns = Namespace::new();
    for segment in segments {
        ns = ns.push(segment.to_string());
    }
    ns
}

fn api(segments: &[&str], id: &str, use_stmt: Use) -> Api {
    Api {
        ns: ns(segments),
        id: id.to_string(),
        use_stmt,
        deps: Vec::new(),
        extern_c_mod_item: None,
        bridge_items: Vec::new(),
        global_items: Vec::new(),
        additional_cpp: None,
        id_for_allowlist: None,
        bindgen_mod_item: None,
        impl_entry: None,
    }
}

fn item(source: &str) -> syn::Item {
    syn::parse_str(source).unwrap()
}

fn foreign_item(source: &str) -> syn::ForeignItem {
    syn::parse_str(source).unwrap()
}

fn impl_item(source: &str) -> syn::ImplItem {
    syn::parse_str(source).unwrap()
}

fn container() -> syn::ItemMod {
    syn::parse_str("mod bindgen {}").unwrap()
}

fn c_int() -> TypeName {
    TypeName::new(&ns(&["autocxx"]), "c_int")
}

fn c_long() -> TypeName {
    TypeName::new(&ns(&["autocxx"]), "c_long")
}

fn known() -> KnownTypes {
    KnownTypes::new(vec![c_int(), c_long()])
}

fn generate(apis: Vec<Api>, includes: &[String], uses: UseStatements) -> CodegenResults {
    let known = known();
    CodeGenerator::generate_code(apis, includes, uses, container(), &known)
}

fn uses(item: &str) -> OutputItem {
    OutputItem::Use { id: item.to_string() }
}

fn module(name: &str, items: Vec<OutputItem>) -> OutputItem {
    OutputItem::Mod { name: name.to_string(), items }
}

fn header_named(header: &str) -> ForeignDecl {
    ForeignDecl::Include { header: header.to_string() }
}

fn bridge_with(decls: Vec<ForeignDecl>) -> OutputItem {
    OutputItem::Bridge { items: vec![OutputItem::UnsafeForeignMod { decls }] }
}

#[test]
fn remove_nones_keeps_the_values_in_order() {
    assert_eq!(remove_nones(vec![Some(3), None, Some(1), None, None, Some(2)]), vec![3, 1, 2]);
    assert_eq!(remove_nones::<u8>(vec![None, None]), Vec::<u8>::new());
    assert_eq!(remove_nones(Vec::<Option<u8>>::new()), Vec::<u8>::new());
    assert_eq!(remove_nones(vec![Some("a")]), vec!["a"]);
}

#[test]
fn flatten_puts_the_lists_end_to_end() {
    assert_eq!(flatten(vec![vec![1, 2], vec![], vec![3], vec![4, 5]]), vec![1, 2, 3, 4, 5]);
    assert_eq!(flatten(vec![Vec::<u8>::new(), Vec::new()]), Vec::<u8>::new());
    assert_eq!(flatten(Vec::<Vec<u8>>::new()), Vec::<u8>::new());
}

#[test]
fn one_used_record_in_the_root_gives_one_reexport() {
    let apis = vec![api(&[], "Foo", Use::Used)];
    assert_eq!(CodeGenerator::generate_final_use_statements(&apis), vec![uses("Foo")]);
    let results = generate(apis, &[], UseStatements::new());
    assert_eq!(results.items, vec![bridge_with(vec![]), uses("Foo")]);
    assert!(results.additional_cpp_needs.is_empty());
}

#[test]
fn unused_records_are_not_reexported() {
    let apis = vec![
        api(&[], "A", Use::Unused),
        api(&["n"], "B", Use::Unused),
        api(&["n", "m"], "C", Use::Unused),
    ];
    assert_eq!(CodeGenerator::generate_final_use_statements(&apis), Vec::<OutputItem>::new());
}

#[test]
fn an_alias_is_what_the_reexport_binds() {
    let apis = vec![api(&[], "Foo", Use::UsedWithAlias("Bar".to_string()))];
    assert_eq!(
        CodeGenerator::generate_final_use_statements(&apis),
        vec![OutputItem::UseAs { id: "Foo".to_string(), alias: "Bar".to_string() }]
    );
}

#[test]
fn reexports_keep_the_order_of_the_records() {
    let apis = vec![
        api(&[], "C", Use::Used),
        api(&[], "X", Use::Unused),
        api(&[], "A", Use::UsedWithAlias("Z".to_string())),
        api(&[], "B", Use::Used),
    ];
    assert_eq!(
        CodeGenerator::generate_final_use_statements(&apis),
        vec![
            uses("C"),
            OutputItem::UseAs { id: "A".to_string(), alias: "Z".to_string() },
            uses("B"),
        ]
    );
}

#[test]
fn reexports_nest_by_namespace() {
    let apis = vec![
        api(&["a"], "X", Use::Used),
        api(&[], "R", Use::Used),
        api(&["a", "b"], "Y", Use::Used),
        api(&["c"], "Z", Use::Used),
        api(&["a"], "W", Use::Used),
    ];
    assert_eq!(
        CodeGenerator::generate_final_use_statements(&apis),
        vec![
            uses("R"),
            module(
                "a",
                vec![
                    OutputItem::ImportBridge,
                    uses("X"),
                    uses("W"),
                    module("b", vec![OutputItem::ImportBridge, uses("Y")]),
                ]
            ),
            module("c", vec![OutputItem::ImportBridge, uses("Z")]),
        ]
    );
}

#[test]
fn modules_without_reexports_are_left_out() {
    let apis = vec![
        api(&["empty"], "A", Use::Unused),
        api(&["outer", "inner"], "B", Use::Used),
        api(&["outer", "hollow"], "C", Use::Unused),
    ];
    assert_eq!(
        CodeGenerator::generate_final_use_statements(&apis),
        vec![module(
            "outer",
            vec![
                OutputItem::ImportBridge,
                module("inner", vec![OutputItem::ImportBridge, uses("B")]),
            ]
        )]
    );
}

#[test]
fn no_records_give_only_the_bridge() {
    let results = generate(Vec::new(), &[], UseStatements::new());
    assert_eq!(results.items, vec![bridge_with(vec![])]);
    assert!(results.additional_cpp_needs.is_empty());
}

#[test]
fn a_declaration_is_followed_by_the_use_statements_of_its_namespace() {
    let mut record = api(&["ns1"], "Foo", Use::Unused);
    record.bindgen_mod_item = Some(item("pub struct Foo { _unused: [u8; 0] }"));
    let mut use_stmts = UseStatements::new();
    use_stmts.insert(ns(&["ns1"]), vec![item("use super::root;")]);
    let results = generate(vec![record], &[], use_stmts);
    assert_eq!(
        results.items,
        vec![
            OutputItem::Container {
                module: container(),
                items: vec![module(
                    "root",
                    vec![module(
                        "ns1",
                        vec![
                            OutputItem::Fragment(item("pub struct Foo { _unused: [u8; 0] }")),
                            OutputItem::Fragment(item("use super::root;")),
                        ]
                    )]
                )],
            },
            bridge_with(vec![]),
        ]
    );
}

#[test]
fn use_statements_of_an_empty_namespace_are_dropped_with_it() {
    let mut use_stmts = UseStatements::new();
    use_stmts.insert(ns(&["ns1"]), vec![item("use super::root;")]);
    let results = generate(vec![api(&["ns1"], "Foo", Use::Unused)], &[], use_stmts);
    assert_eq!(results.items, vec![bridge_with(vec![])]);
}

#[test]
fn use_statements_of_the_root_come_last_in_the_root_module() {
    let mut in_root = api(&[], "A", Use::Unused);
    in_root.bindgen_mod_item = Some(item("pub struct A;"));
    let mut in_n = api(&["n"], "B", Use::Unused);
    in_n.bindgen_mod_item = Some(item("pub struct B;"));
    let mut use_stmts = UseStatements::new();
    use_stmts.insert(Namespace::new(), vec![item("use std::os::raw::c_int;")]);
    let results = generate(vec![in_n, in_root], &[], use_stmts);
    assert_eq!(
        results.items,
        vec![
            OutputItem::Container {
                module: container(),
                items: vec![module(
                    "root",
                    vec![
                        OutputItem::Fragment(item("pub struct A;")),
                        module("n", vec![OutputItem::Fragment(item("pub struct B;"))]),
                        OutputItem::Fragment(item("use std::os::raw::c_int;")),
                    ]
                )],
            },
            bridge_with(vec![]),
        ]
    );
}

#[test]
fn use_statements_of_the_root_alone_make_a_root_module() {
    let mut use_stmts = UseStatements::new();
    use_stmts.insert(Namespace::new(), vec![item("use a::b;")]);
    let results = generate(Vec::new(), &[], use_stmts);
    assert_eq!(
        results.items,
        vec![
            OutputItem::Container {
                module: container(),
                items: vec![module("root", vec![OutputItem::Fragment(item("use a::b;"))])],
            },
            bridge_with(vec![]),
        ]
    );
}

#[test]
fn later_use_statements_replace_earlier_ones() {
    let mut record = api(&["n"], "Foo", Use::Unused);
    record.bindgen_mod_item = Some(item("pub struct Foo;"));
    let mut use_stmts = UseStatements::new();
    use_stmts.insert(ns(&["n"]), vec![item("use first::x;")]);
    use_stmts.insert(ns(&["m"]), vec![item("use other::y;")]);
    use_stmts.insert(ns(&["n"]), vec![item("use second::z;")]);
    assert_eq!(use_stmts.get(&ns(&["n"])), Some(&vec![item("use second::z;")]));
    assert_eq!(use_stmts.get(&ns(&["m"])), Some(&vec![item("use other::y;")]));
    assert_eq!(use_stmts.get(&ns(&["k"])), None);
    let results = generate(vec![record], &[], use_stmts);
    assert_eq!(
        results.items[0],
        OutputItem::Container {
            module: container(),
            items: vec![module(
                "root",
                vec![module(
                    "n",
                    vec![
                        OutputItem::Fragment(item("pub struct Foo;")),
                        OutputItem::Fragment(item("use second::z;")),
                    ]
                )]
            )],
        }
    );
}

#[test]
fn methods_of_one_type_merge_into_one_block() {
    let mut first = api(&["n"], "T", Use::Unused);
    first.impl_entry = Some(impl_item("fn a(&self) {}"));
    let mut other = api(&["n"], "U", Use::Unused);
    other.impl_entry = Some(impl_item("fn b(&self) {}"));
    let mut second = api(&["n"], "T", Use::Unused);
    second.impl_entry = Some(impl_item("fn c(&self) {}"));
    let mut elsewhere = api(&["m"], "T", Use::Unused);
    elsewhere.impl_entry = Some(impl_item("fn d(&self) {}"));
    let mut declared = api(&["n"], "V", Use::Unused);
    declared.bindgen_mod_item = Some(item("pub struct V;"));
    let results = generate(
        vec![first, other, second, elsewhere, declared],
        &[],
        UseStatements::new(),
    );
    assert_eq!(
        results.items[0],
        OutputItem::Container {
            module: container(),
            items: vec![module(
                "root",
                vec![
                    module(
                        "n",
                        vec![
                            OutputItem::Fragment(item("pub struct V;")),
                            OutputItem::Impl {
                                ty: "T".to_string(),
                                entries: vec![
                                    impl_item("fn a(&self) {}"),
                                    impl_item("fn c(&self) {}"),
                                ],
                            },
                            OutputItem::Impl {
                                ty: "U".to_string(),
                                entries: vec![impl_item("fn b(&self) {}")],
                            },
                        ]
                    ),
                    module(
                        "m",
                        vec![OutputItem::Impl {
                            ty: "T".to_string(),
                            entries: vec![impl_item("fn d(&self) {}")],
                        }]
                    ),
                ]
            )],
        }
    );
}

#[test]
fn one_sized_type_gives_one_alias_and_one_need() {
    let mut in_root = api(&[], "f", Use::Unused);
    in_root.deps = vec![c_int()];
    let mut in_a = api(&["a"], "g", Use::Unused);
    in_a.deps = vec![c_int()];
    let results = generate(vec![in_root, in_a], &[], UseStatements::new());
    assert_eq!(
        results.items,
        vec![bridge_with(vec![
            ForeignDecl::TypeAlias { id: "c_int".to_string() },
            header_named("autocxxgen.h"),
        ])]
    );
    assert_eq!(results.additional_cpp_needs, vec![AdditionalNeed::CTypeTypedef(c_int())]);
}

#[test]
fn sized_types_come_in_the_order_of_first_mention() {
    let mut first = api(&[], "f", Use::Unused);
    first.deps = vec![TypeName::new(&Namespace::new(), "Foo"), c_long(), c_int(), c_long()];
    let mut second = api(&[], "g", Use::Unused);
    second.deps = vec![c_int(), TypeName::new(&Namespace::new(), "c_int")];
    second.additional_cpp = Some(AdditionalNeed::MakeStringConstructor);
    let results = generate(vec![first, second], &[], UseStatements::new());
    assert_eq!(
        results.items,
        vec![bridge_with(vec![
            ForeignDecl::TypeAlias { id: "c_long".to_string() },
            ForeignDecl::TypeAlias { id: "c_int".to_string() },
            header_named("autocxxgen.h"),
        ])]
    );
    assert_eq!(
        results.additional_cpp_needs,
        vec![
            AdditionalNeed::MakeStringConstructor,
            AdditionalNeed::CTypeTypedef(c_long()),
            AdditionalNeed::CTypeTypedef(c_int()),
        ]
    );
}

#[test]
fn types_of_fixed_width_give_no_alias() {
    let mut record = api(&[], "f", Use::Unused);
    record.deps = vec![TypeName::new(&Namespace::new(), "Foo")];
    let results = generate(vec![record], &["foo.h".to_string()], UseStatements::new());
    assert_eq!(results.items, vec![bridge_with(vec![header_named("foo.h")])]);
    assert!(results.additional_cpp_needs.is_empty());
}

#[test]
fn the_generated_header_is_included_after_the_configured_ones() {
    let mut record = api(&[], "f", Use::Unused);
    record.additional_cpp = Some(AdditionalNeed::FunctionWrapper("f_wrapper".to_string()));
    let results = generate(vec![record], &["foo.h".to_string()], UseStatements::new());
    assert_eq!(
        results.items,
        vec![bridge_with(vec![header_named("foo.h"), header_named("autocxxgen.h")])]
    );
    assert_eq!(
        results.additional_cpp_needs,
        vec![AdditionalNeed::FunctionWrapper("f_wrapper".to_string())]
    );
}

#[test]
fn without_needs_only_the_configured_headers_are_included() {
    let includes = vec!["foo.h".to_string(), "bar.h".to_string()];
    let results = generate(vec![api(&[], "f", Use::Unused)], &includes, UseStatements::new());
    assert_eq!(results.items, vec![bridge_with(vec![header_named("foo.h"), header_named("bar.h")])]);
}

#[test]
fn the_final_order_is_top_level_declarations_bridge_reexports() {
    let mut first = api(&["n"], "Foo", Use::Used);
    first.global_items = vec![item("pub struct G1;"), item("pub struct G2;")];
    first.bridge_items = vec![item("pub struct B1;")];
    first.extern_c_mod_item = Some(foreign_item("type Foo;"));
    first.bindgen_mod_item = Some(item("pub struct Foo;"));
    first.deps = vec![c_int()];
    let mut second = api(&[], "bar", Use::UsedWithAlias("baz".to_string()));
    second.global_items = vec![item("pub struct G3;")];
    second.bridge_items = vec![item("pub struct B2;"), item("pub struct B3;")];
    second.extern_c_mod_item = Some(foreign_item("fn bar();"));
    second.additional_cpp = Some(AdditionalNeed::MakeStringConstructor);
    let results = generate(vec![first, second], &["foo.h".to_string()], UseStatements::new());
    assert_eq!(
        results.items,
        vec![
            OutputItem::Fragment(item("pub struct G1;")),
            OutputItem::Fragment(item("pub struct G2;")),
            OutputItem::Fragment(item("pub struct G3;")),
            OutputItem::Container {
                module: container(),
                items: vec![module(
                    "root",
                    vec![module("n", vec![OutputItem::Fragment(item("pub struct Foo;"))])]
                )],
            },
            OutputItem::Bridge {
                items: vec![
                    OutputItem::Fragment(item("pub struct B1;")),
                    OutputItem::Fragment(item("pub struct B2;")),
                    OutputItem::Fragment(item("pub struct B3;")),
                    OutputItem::UnsafeForeignMod {
                        decls: vec![
                            ForeignDecl::Fragment(foreign_item("type Foo;")),
                            ForeignDecl::Fragment(foreign_item("fn bar();")),
                            ForeignDecl::TypeAlias { id: "c_int".to_string() },
                            header_named("foo.h"),
                            header_named("autocxxgen.h"),
                        ],
                    },
                ],
            },
            OutputItem::UseAs { id: "bar".to_string(), alias: "baz".to_string() },
            module("n", vec![OutputItem::ImportBridge, uses("Foo")]),
        ]
    );
    assert_eq!(
        results.additional_cpp_needs,
        vec![AdditionalNeed::MakeStringConstructor, AdditionalNeed::CTypeTypedef(c_int())]
    );
}

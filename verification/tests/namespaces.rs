use autocxx_engine::api::{Api, Use};
use autocxx_engine::namespace_organizer::NamespaceEntries;
use autocxx_engine::types::Namespace;

fn path(segments: &[&str]) -> Namespace {
    let mut ns = Namespace::new();
    for segment in segments {
        ns = ns.push(segment.to_string());
    }
    ns
}

fn record(segments: &[&str], id: &str) -> Api {
    Api {
        ns: path(segments),
        id: id.to_string(),
        use_stmt: Use::Unused,
        deps: Vec::new(),
        extern_c_mod_item: None,
        bridge_items: Vec::new(),
        global_items: Vec::new(),
        additional_cpp: None,
        id_for_allowlist: None,
        bindgen_mod_item: None,
        impl_entry: None,
    }
}

fn ids(node: &NamespaceEntries) -> Vec<String> {
    node.entries().iter().map(|api| api.id.clone()).collect()
}

fn child_names(node: &NamespaceEntries) -> Vec<String> {
    node.children().iter().map(|(name, _)| (*name).clone()).collect()
}

#[test]
fn empty_list_gives_an_empty_root() {
    let apis: Vec<Api> = Vec::new();
    let tree = NamespaceEntries::new(&apis);
    assert!(tree.entries().is_empty());
    assert!(tree.children().is_empty());
}

#[test]
fn records_of_the_root_stay_in_list_order() {
    let apis = vec![record(&[], "C"), record(&[], "A"), record(&[], "B")];
    let tree = NamespaceEntries::new(&apis);
    assert_eq!(ids(&tree), vec!["C", "A", "B"]);
    assert!(tree.children().is_empty());
}

#[test]
fn records_group_by_their_whole_namespace() {
    let apis = vec![
        record(&[], "C"),
        record(&["A"], "B"),
        record(&["A"], "C"),
        record(&["D"], "A"),
        record(&["G"], "E"),
        record(&["D"], "F"),
        record(&["G"], "H"),
        record(&["A", "J"], "I"),
        record(&["D", "K"], "L"),
        record(&["A"], "M"),
    ];
    let tree = NamespaceEntries::new(&apis);
    assert_eq!(ids(&tree), vec!["C"]);
    assert_eq!(child_names(&tree), vec!["A", "D", "G"]);
    let a = &tree.children()[0].1;
    assert_eq!(ids(a), vec!["B", "C", "M"]);
    assert_eq!(child_names(a), vec!["J"]);
    assert_eq!(ids(&a.children()[0].1), vec!["I"]);
    assert!(a.children()[0].1.children().is_empty());
    let d = &tree.children()[1].1;
    assert_eq!(ids(d), vec!["A", "F"]);
    assert_eq!(child_names(d), vec!["K"]);
    assert_eq!(ids(&d.children()[0].1), vec!["L"]);
    let g = &tree.children()[2].1;
    assert_eq!(ids(g), vec!["E", "H"]);
    assert!(g.children().is_empty());
}

#[test]
fn children_come_in_the_order_of_first_appearance() {
    let apis = vec![record(&["z"], "1"), record(&["a"], "2"), record(&["z"], "3")];
    let tree = NamespaceEntries::new(&apis);
    assert_eq!(child_names(&tree), vec!["z", "a"]);
    assert_eq!(ids(&tree.children()[0].1), vec!["1", "3"]);
    assert_eq!(ids(&tree.children()[1].1), vec!["2"]);
}

#[test]
fn a_namespace_with_records_only_below_it_has_a_node_without_entries() {
    let apis = vec![record(&["a", "b", "c"], "X")];
    let tree = NamespaceEntries::new(&apis);
    assert!(tree.entries().is_empty());
    assert_eq!(child_names(&tree), vec!["a"]);
    let a = &tree.children()[0].1;
    assert!(a.entries().is_empty());
    assert_eq!(child_names(a), vec!["b"]);
    let b = &a.children()[0].1;
    assert!(b.entries().is_empty());
    assert_eq!(child_names(b), vec!["c"]);
    let c = &b.children()[0].1;
    assert_eq!(ids(c), vec!["X"]);
    assert!(c.children().is_empty());
}

#[test]
fn same_last_segment_under_different_parents_is_not_merged() {
    let apis = vec![record(&["a", "x"], "1"), record(&["b", "x"], "2"), record(&["x"], "3")];
    let tree = NamespaceEntries::new(&apis);
    assert_eq!(child_names(&tree), vec!["a", "b", "x"]);
    assert_eq!(ids(&tree.children()[0].1.children()[0].1), vec!["1"]);
    assert_eq!(ids(&tree.children()[1].1.children()[0].1), vec!["2"]);
    assert_eq!(ids(&tree.children()[2].1), vec!["3"]);
    assert!(tree.children()[2].1.children().is_empty());
}

#[test]
fn records_with_the_same_name_and_namespace_both_stay() {
    let apis = vec![record(&["a"], "X"), record(&["a"], "X")];
    let tree = NamespaceEntries::new(&apis);
    assert_eq!(ids(&tree.children()[0].1), vec!["X", "X"]);
}

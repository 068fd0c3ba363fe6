//! Assembling the generated code from the records.
//!
//! The output is, in this order: the fragments that records place at the top
//! level; the regenerated declarations, nested by namespace inside the root
//! container, unless there are none; the bridge module; and the re-exports,
//! nested by namespace. What each part holds is defined in
//! [`crate::codegen_spec`].

use crate::additional_cpp::{needs, AdditionalNeed, NeedView};
use crate::api::{Api, Use};
use crate::codegen_spec::{
    alias_decls, all_deps, bridge_slots, ctypes_among, decl_items, decl_mod, decl_mods,
    declaration_of, declaration_tree, declarations, dep_slots, foreign_block, foreign_slots,
    generated_items, generated_needs, global_slots, header_decls, impl_blocks, impl_entries_for,
    impl_entry_for, impl_type_of, impl_types, include_decls, is_ctype_in, joined,
    lemma_no_entries_for_other_type, need_slots, reexport_of, reexports, somes, type_ref_names,
    typedef_needs, use_items, use_mod, use_mods, use_tree,
};
use crate::known_types::KnownTypes;
use crate::namespace_organizer::{records, NamespaceEntries};
use crate::output::{
    append_fragments, append_items, decl_views, foreign_fragments, fragments, item_views,
    push_decl, push_item, ForeignDecl, ForeignDeclView, ItemView, OutputItem,
};
use crate::sequences::{distinct, lemma_distinct_no_duplicates, lemma_distinct_push};
use crate::types::{find_name, names, type_names, Namespace, TypeName};
use crate::use_statements::{uses_at, UseStatements};
use vstd::prelude::*;

verus! {

/// What the assembly stage produces.
pub struct CodegenResults {
    /// The items of the generated code, in their final order.
    pub items: Vec<OutputItem>,
    /// What has to be generated on the foreign side.
    pub additional_cpp_needs: Vec<AdditionalNeed>,
}

/// Drops the empty slots.
pub fn remove_nones<T>(input: Vec<Option<T>>) -> (output: Vec<T>)
    ensures
        output@ == somes(input@),
{
    let mut output: Vec<T> = Vec::new();
    let ghost all = input@;
    for slot in iter: input.into_iter()
        invariant
            iter.seq() == all,
            output@ == somes(all.take(iter.index() as int)),
    {
        proof {
            Seq::lemma_filter_map_take_succ(all, |slot: Option<T>| slot, iter.index() as int);
        }
        match slot {
            Some(value) => {
                output.push(value);
            },
            None => {},
        }
    }
    assert(all.take(all.len() as int) =~= all);
    output
}

/// Puts the lists one after the other.
pub fn flatten<T>(input: Vec<Vec<T>>) -> (output: Vec<T>)
    ensures
        output@ == joined(input@),
{
    let mut output: Vec<T> = Vec::new();
    let ghost all = input@;
    for part in iter: input.into_iter()
        invariant
            iter.seq() == all,
            output@ == joined(all.take(iter.index() as int)),
    {
        proof {
            assert(all.take(iter.index() + 1).drop_last() =~= all.take(iter.index() as int));
        }
        let mut part = part;
        output.append(&mut part);
    }
    assert(all.take(all.len() as int) =~= all);
    output
}

/// Splits the records into what each adds to the foreign block, to the top
/// level and to the bridge module, what each needs on the foreign side, and
/// the types each mentions.
fn unzip_apis(all_apis: Vec<Api>) -> (parts: (
    Vec<Option<syn::ForeignItem>>,
    Vec<Vec<syn::Item>>,
    Vec<Vec<syn::Item>>,
    Vec<Option<AdditionalNeed>>,
    Vec<Vec<TypeName>>,
))
    ensures
        parts.0@ == foreign_slots(all_apis@),
        parts.1@ == global_slots(all_apis@),
        parts.2@ == bridge_slots(all_apis@),
        parts.3@ == need_slots(all_apis@),
        parts.4@ == dep_slots(all_apis@),
{
    let mut extern_c_mod_items: Vec<Option<syn::ForeignItem>> = Vec::new();
    let mut all_items: Vec<Vec<syn::Item>> = Vec::new();
    let mut bridge_items: Vec<Vec<syn::Item>> = Vec::new();
    let mut additional_cpp_needs: Vec<Option<AdditionalNeed>> = Vec::new();
    let mut deps: Vec<Vec<TypeName>> = Vec::new();
    let ghost all = all_apis@;
    for api in iter: all_apis.into_iter()
        invariant
            iter.seq() == all,
            extern_c_mod_items@ == foreign_slots(all.take(iter.index() as int)),
            all_items@ == global_slots(all.take(iter.index() as int)),
            bridge_items@ == bridge_slots(all.take(iter.index() as int)),
            additional_cpp_needs@ == need_slots(all.take(iter.index() as int)),
            deps@ == dep_slots(all.take(iter.index() as int)),
    {
        let ghost seen = all.take(iter.index() as int);
        let ghost next = all.take(iter.index() + 1);
        extern_c_mod_items.push(api.extern_c_mod_item);
        all_items.push(api.global_items);
        bridge_items.push(api.bridge_items);
        additional_cpp_needs.push(api.additional_cpp);
        deps.push(api.deps);
        proof {
            assert(next =~= seen.push(api));
            assert(extern_c_mod_items@ =~= foreign_slots(next));
            assert(all_items@ =~= global_slots(next));
            assert(bridge_items@ =~= bridge_slots(next));
            assert(additional_cpp_needs@ =~= need_slots(next));
            assert(deps@ =~= dep_slots(next));
        }
    }
    assert(all.take(all.len() as int) =~= all);
    (extern_c_mod_items, all_items, bridge_items, additional_cpp_needs, deps)
}

/// Each fragment as an item of the output.
fn wrap_items(items: Vec<syn::Item>) -> (wrapped: Vec<OutputItem>)
    ensures
        item_views(wrapped@) == fragments(items@),
{
    let mut wrapped: Vec<OutputItem> = Vec::new();
    let ghost all = items@;
    for item in iter: items.into_iter()
        invariant
            iter.seq() == all,
            item_views(wrapped@) == fragments(all.take(iter.index() as int)),
    {
        push_item(&mut wrapped, OutputItem::Fragment(item));
        assert(item_views(wrapped@) =~= fragments(all.take(iter.index() + 1)));
    }
    assert(all.take(all.len() as int) =~= all);
    wrapped
}

/// Each foreign fragment as a declaration of the foreign block.
fn wrap_foreign_items(items: Vec<syn::ForeignItem>) -> (wrapped: Vec<ForeignDecl>)
    ensures
        decl_views(wrapped@) == foreign_fragments(items@),
{
    let mut wrapped: Vec<ForeignDecl> = Vec::new();
    let ghost all = items@;
    for item in iter: items.into_iter()
        invariant
            iter.seq() == all,
            decl_views(wrapped@) == foreign_fragments(all.take(iter.index() as int)),
    {
        push_decl(&mut wrapped, ForeignDecl::Fragment(item));
        assert(decl_views(wrapped@) =~= foreign_fragments(all.take(iter.index() + 1)));
    }
    assert(all.take(all.len() as int) =~= all);
    wrapped
}

/// Whether `ty` is among `found`.
fn contains_type(found: &Vec<&TypeName>, ty: &TypeName) -> (present: bool)
    ensures
        present == type_ref_names(found@).contains(ty@),
{
    let mut i: usize = 0;
    while i < found.len()
        invariant
            i <= found@.len(),
            forall|j: int| 0 <= j < i ==> found@[j]@ != ty@,
        decreases found.len() - i,
    {
        if *found[i] == *ty {
            assert(type_ref_names(found@)[i as int] == ty@);
            return true;
        }
        i += 1;
    }
    false
}

/// Assembles the generated code from the records.
pub struct CodeGenerator<'a> {
    include_list: &'a [String],
    use_stmts_by_mod: UseStatements,
    bindgen_mod: syn::ItemMod,
    known_types: &'a KnownTypes,
}

impl<'a> CodeGenerator<'a> {
    /// Generates the tree of modules of `use` statements that re-export the
    /// records from the bridge module by namespace.
    pub fn generate_final_use_statements(input_items: &[Api]) -> (output_items: Vec<OutputItem>)
        ensures
            item_views(output_items@) == use_tree(input_items@),
    {
        let mut output_items: Vec<OutputItem> = Vec::new();
        let ns_entries = NamespaceEntries::new(input_items);
        Self::append_child_use_namespace(&ns_entries, &mut output_items);
        assert(item_views(output_items@) =~= use_tree(input_items@));
        output_items
    }

    /// Appends the re-exports of the namespace whose records and namespaces
    /// one level down are `ns_entries`.
    fn append_child_use_namespace(ns_entries: &NamespaceEntries, output_items: &mut Vec<OutputItem>)
        ensures
            item_views(final(output_items)@) == item_views(old(output_items)@) + use_items(
                ns_entries@,
            ),
        decreases ns_entries@,
    {
        let ghost start = item_views(output_items@);
        let ghost tree = ns_entries@;
        let entries = ns_entries.entries();
        let mut i: usize = 0;
        while i < entries.len()
            invariant
                i <= entries@.len(),
                records(entries@) == tree.entries,
                item_views(output_items@) == start + reexports(tree.entries.take(i as int)),
            decreases entries.len() - i,
        {
            let item = entries[i];
            proof {
                assert(tree.entries[i as int] == *item);
                Seq::lemma_filter_map_take_succ(
                    tree.entries,
                    |api: Api| reexport_of(api),
                    i as int,
                );
            }
            match &item.use_stmt {
                Use::UsedWithAlias(alias) => {
                    push_item(
                        output_items,
                        OutputItem::UseAs { id: item.id.clone(), alias: alias.clone() },
                    );
                },
                Use::Used => {
                    push_item(output_items, OutputItem::Use { id: item.id.clone() });
                },
                Use::Unused => {},
            }
            assert(item_views(output_items@) =~= start + reexports(tree.entries.take(i + 1)));
            i += 1;
        }
        assert(tree.entries.take(tree.entries.len() as int) =~= tree.entries);
        let children = ns_entries.children();
        let ghost middle = item_views(output_items@);
        let mut k: usize = 0;
        while k < children.len()
            invariant
                k <= children@.len(),
                tree == ns_entries@,
                children@.len() == tree.children.len(),
                forall|j: int|
                    0 <= j < children@.len() ==> (#[trigger] children@[j]).0@
                        == tree.children[j].name && children@[j].1@ == tree.children[j].tree,
                item_views(output_items@) == middle + use_mods(tree.children.take(k as int)),
            decreases children.len() - k,
        {
            let child_name: &String = children[k].0;
            let child_ns_entries = &children[k].1;
            proof {
                assert(tree.children.take(k + 1).drop_last() =~= tree.children.take(k as int));
                assert(tree.children.take(k + 1).last() == tree.children[k as int]);
            }
            let mut content: Vec<OutputItem> = Vec::new();
            push_item(&mut content, OutputItem::ImportBridge);
            Self::append_child_use_namespace(child_ns_entries, &mut content);
            proof {
                let child = tree.children[k as int];
                assert(item_views(content@) =~= seq![ItemView::ImportBridge] + use_items(child.tree));
                assert(item_views(content@).len() == content@.len());
                assert(use_mods(tree.children.take(k + 1)) == use_mods(tree.children.take(k as int))
                    + use_mod(child));
            }
            if content.len() > 1 {
                push_item(output_items, OutputItem::module(child_name.clone(), content));
            }
            assert(item_views(output_items@) =~= middle + use_mods(tree.children.take(k + 1)));
            k += 1;
        }
        assert(tree.children.take(tree.children.len() as int) =~= tree.children);
        assert(item_views(output_items@) =~= start + use_items(tree));
    }

    /// Appends the use statements recorded for `ns`.
    fn append_uses_for_ns(&self, items: &mut Vec<OutputItem>, ns: &Namespace)
        ensures
            item_views(final(items)@) == item_views(old(items)@) + fragments(
                uses_at(self.use_stmts_by_mod@, ns@),
            ),
    {
        match self.use_stmts_by_mod.get(ns) {
            Some(use_stmts) => {
                append_fragments(items, use_stmts);
            },
            None => {
                assert(item_views(items@) =~= item_views(items@) + fragments(
                    Seq::<syn::Item>::empty(),
                ));
            },
        }
    }

    /// Appends the blocks of methods that `entries` give rise to.
    fn append_impl_blocks(entries: &[&Api], output_items: &mut Vec<OutputItem>)
        ensures
            item_views(final(output_items)@) == item_views(old(output_items)@) + impl_blocks(
                records(entries@),
            ),
    {
        let ghost start = item_views(output_items@);
        let ghost list = records(entries@);
        let mut types: Vec<&String> = Vec::new();
        let mut impl_entries_by_type: Vec<Vec<syn::ImplItem>> = Vec::new();
        let mut i: usize = 0;
        while i < entries.len()
            invariant
                i <= entries@.len(),
                list == records(entries@),
                types@.len() == impl_entries_by_type@.len(),
                names(types@) == impl_types(list.take(i as int)),
                forall|k: int|
                    0 <= k < types@.len() ==> (#[trigger] impl_entries_by_type@[k])@
                        == impl_entries_for(list.take(i as int), types@[k]@),
            decreases entries.len() - i,
        {
            let item = entries[i];
            let ghost seen = list.take(i as int);
            let ghost named = seen.filter_map(|api: Api| impl_type_of(api));
            proof {
                assert(list[i as int] == *item);
                Seq::lemma_filter_map_take_succ(list, |api: Api| impl_type_of(api), i as int);
                lemma_distinct_no_duplicates(named);
                assert forall|k: int| 0 <= k < types@.len() implies impl_entries_for(
                    list.take(i + 1),
                    types@[k]@,
                ) == impl_entries_for(seen, types@[k]@) + (match impl_entry_for(
                    *item,
                    types@[k]@,
                ) {
                    Some(entry) => seq![entry],
                    None => Seq::empty(),
                }) by {
                    Seq::lemma_filter_map_take_succ(
                        list,
                        |api: Api| impl_entry_for(api, types@[k]@),
                        i as int,
                    );
                }
            }
            match &item.impl_entry {
                Some(impl_entry) => {
                    let k = find_name(&types, &item.id);
                    proof {
                        assert(list.take(i + 1).filter_map(|api: Api| impl_type_of(api))
                            =~= named.push(item.id@));
                        lemma_distinct_push(named, item.id@);
                    }
                    if k < types.len() {
                        let ghost old_groups = impl_entries_by_type@;
                        impl_entries_by_type[k].push(impl_entry.clone());
                        proof {
                            assert(names(types@)[k as int] == item.id@);
                            assert(names(types@).contains(item.id@));
                            assert forall|j: int| 0 <= j < types@.len() implies (
                            #[trigger] impl_entries_by_type@[j])@ == impl_entries_for(
                                list.take(i + 1),
                                types@[j]@,
                            ) by {
                                if j == k {
                                    assert(impl_entries_by_type@[j]@ =~= old_groups[j]@.push(
                                        *impl_entry,
                                    ));
                                } else {
                                    assert(impl_entries_by_type@[j] == old_groups[j]);
                                    assert(names(types@)[j] != names(types@)[k as int]);
                                    assert(impl_entries_by_type@[j]@ =~= impl_entries_for(
                                        list.take(i + 1),
                                        types@[j]@,
                                    ));
                                }
                            }
                        }
                    } else {
                        let ghost old_groups = impl_entries_by_type@;
                        let ghost old_types = types@;
                        proof {
                            lemma_no_entries_for_other_type(seen, item.id@);
                            Seq::lemma_filter_map_take_succ(
                                list,
                                |api: Api| impl_entry_for(api, item.id@),
                                i as int,
                            );
                        }
                        types.push(&item.id);
                        let mut first: Vec<syn::ImplItem> = Vec::new();
                        first.push(impl_entry.clone());
                        impl_entries_by_type.push(first);
                        proof {
                            assert(names(types@) =~= distinct(named).push(item.id@));
                            assert forall|j: int| 0 <= j < types@.len() implies (
                            #[trigger] impl_entries_by_type@[j])@ == impl_entries_for(
                                list.take(i + 1),
                                types@[j]@,
                            ) by {
                                if j < old_types.len() {
                                    assert(impl_entries_by_type@[j] == old_groups[j]);
                                    assert(types@[j] == old_types[j]);
                                    assert(names(old_types)[j] == old_types[j]@);
                                    assert(names(old_types).contains(old_types[j]@));
                                    assert(impl_entries_by_type@[j]@ =~= impl_entries_for(
                                        list.take(i + 1),
                                        types@[j]@,
                                    ));
                                } else {
                                    assert(first@ =~= impl_entries_for(
                                        list.take(i + 1),
                                        item.id@,
                                    ));
                                }
                            }
                        }
                    }
                },
                None => {
                    proof {
                        assert forall|j: int| 0 <= j < types@.len() implies (
                        #[trigger] impl_entries_by_type@[j])@ == impl_entries_for(
                            list.take(i + 1),
                            types@[j]@,
                        ) by {
                            assert(impl_entries_by_type@[j]@ =~= impl_entries_for(
                                list.take(i + 1),
                                types@[j]@,
                            ));
                        }
                    }
                },
            }
            i += 1;
        }
        assert(list.take(list.len() as int) =~= list);
        let ghost groups = impl_entries_by_type@;
        let ghost blocks = impl_blocks(list);
        let mut k: usize = 0;
        for entries_of_type in iter: impl_entries_by_type.into_iter()
            invariant
                k == iter.index(),
                iter.seq() == groups,
                groups.len() == types@.len(),
                names(types@) == impl_types(list),
                blocks == impl_blocks(list),
                forall|k: int|
                    0 <= k < types@.len() ==> (#[trigger] groups[k])@ == impl_entries_for(
                        list,
                        types@[k]@,
                    ),
                item_views(output_items@) == start + blocks.take(iter.index() as int),
        {
            let ty: &String = types[k];
            proof {
                assert(names(types@)[k as int] == ty@);
                assert(blocks.take(k + 1) =~= blocks.take(k as int).push(blocks[k as int]));
            }
            push_item(output_items, OutputItem::Impl { ty: ty.clone(), entries: entries_of_type });
            assert(k < types.len());
            k += 1;
        }
        assert(blocks.take(blocks.len() as int) =~= blocks);
    }

    /// Appends the regenerated declarations of the namespace `ns`, whose
    /// records and namespaces one level down are `ns_entries`.
    fn append_child_bindgen_namespace(
        &self,
        ns_entries: &NamespaceEntries,
        output_items: &mut Vec<OutputItem>,
        ns: &Namespace,
    )
        ensures
            item_views(final(output_items)@) == item_views(old(output_items)@) + decl_items(
                ns_entries@,
                self.use_stmts_by_mod@,
                ns@,
            ),
        decreases ns_entries@,
    {
        let ghost start = item_views(output_items@);
        let ghost tree = ns_entries@;
        let ghost uses = self.use_stmts_by_mod@;
        let entries = ns_entries.entries();
        let mut i: usize = 0;
        while i < entries.len()
            invariant
                i <= entries@.len(),
                records(entries@) == tree.entries,
                item_views(output_items@) == start + declarations(tree.entries.take(i as int)),
            decreases entries.len() - i,
        {
            let item = entries[i];
            proof {
                assert(tree.entries[i as int] == *item);
                Seq::lemma_filter_map_take_succ(
                    tree.entries,
                    |api: Api| declaration_of(api),
                    i as int,
                );
            }
            match &item.bindgen_mod_item {
                Some(declaration) => {
                    push_item(output_items, OutputItem::Fragment(declaration.clone()));
                },
                None => {},
            }
            assert(item_views(output_items@) =~= start + declarations(
                tree.entries.take(i + 1),
            ));
            i += 1;
        }
        assert(tree.entries.take(tree.entries.len() as int) =~= tree.entries);
        Self::append_impl_blocks(entries, output_items);
        let children = ns_entries.children();
        let ghost middle = item_views(output_items@);
        let mut k: usize = 0;
        while k < children.len()
            invariant
                k <= children@.len(),
                tree == ns_entries@,
                uses == self.use_stmts_by_mod@,
                children@.len() == tree.children.len(),
                forall|j: int|
                    0 <= j < children@.len() ==> (#[trigger] children@[j]).0@
                        == tree.children[j].name && children@[j].1@ == tree.children[j].tree,
                item_views(output_items@) == middle + decl_mods(
                    tree.children.take(k as int),
                    uses,
                    ns@,
                ),
            decreases children.len() - k,
        {
            let child_name: &String = children[k].0;
            let child_ns_entries = &children[k].1;
            let new_ns = ns.push(child_name.clone());
            let mut inner_output_items: Vec<OutputItem> = Vec::new();
            self.append_child_bindgen_namespace(child_ns_entries, &mut inner_output_items, &new_ns);
            proof {
                let child = tree.children[k as int];
                assert(tree.children.take(k + 1).drop_last() =~= tree.children.take(k as int));
                assert(tree.children.take(k + 1).last() == child);
                assert(item_views(inner_output_items@) =~= decl_items(child.tree, uses, new_ns@));
                assert(item_views(inner_output_items@).len() == inner_output_items@.len());
                assert(decl_mods(tree.children.take(k + 1), uses, ns@) == decl_mods(
                    tree.children.take(k as int),
                    uses,
                    ns@,
                ) + decl_mod(child, uses, ns@));
            }
            if !inner_output_items.is_empty() {
                self.append_uses_for_ns(&mut inner_output_items, &new_ns);
                push_item(output_items, OutputItem::module(child_name.clone(), inner_output_items));
            }
            assert(item_views(output_items@) =~= middle + decl_mods(
                tree.children.take(k + 1),
                uses,
                ns@,
            ));
            k += 1;
        }
        assert(tree.children.take(tree.children.len() as int) =~= tree.children);
        assert(item_views(output_items@) =~= start + decl_items(tree, uses, ns@));
    }

    /// Generates code for the records that conversion produced.
    pub fn generate_code(
        all_apis: Vec<Api>,
        include_list: &'a [String],
        use_stmts_by_mod: UseStatements,
        bindgen_mod: syn::ItemMod,
        known_types: &'a KnownTypes,
    ) -> (results: CodegenResults)
        ensures
            item_views(results.items@) == generated_items(
                all_apis@,
                include_list@,
                use_stmts_by_mod@,
                bindgen_mod,
                *known_types,
            ),
            needs(results.additional_cpp_needs@) == generated_needs(all_apis@, *known_types),
    {
        let c = CodeGenerator { include_list, use_stmts_by_mod, bindgen_mod, known_types };
        c.codegen(all_apis)
    }

    /// Assembles the output from the records, using up the generator.
    fn codegen(self, all_apis: Vec<Api>) -> (results: CodegenResults)
        ensures
            item_views(results.items@) == generated_items(
                all_apis@,
                self.include_list@,
                self.use_stmts_by_mod@,
                self.bindgen_mod,
                *self.known_types,
            ),
            needs(results.additional_cpp_needs@) == generated_needs(
                all_apis@,
                *self.known_types,
            ),
    {
        let ghost apis = all_apis@;
        let ghost known = *self.known_types;
        // First, the modules of `use` statements that are what the users of the
        // generated code see.
        let use_statements = Self::generate_final_use_statements(all_apis.as_slice());
        // Next, the regenerated declarations.
        let bindgen_root_items = self.generate_final_bindgen_mods(all_apis.as_slice());
        // Both of the above are nested by namespace. From here on, things are
        // flat.
        let (extern_c_mod_items, all_items, bridge_items, additional_cpp_needs, deps) = unzip_apis(
            all_apis,
        );
        // Items for the bridge module.
        let mut bridge_items: Vec<OutputItem> = wrap_items(flatten(bridge_items));
        // Things for the foreign block inside the bridge module.
        let mut extern_c_mod_items: Vec<ForeignDecl> = wrap_foreign_items(
            remove_nones(extern_c_mod_items),
        );
        // The items at the top level.
        let mut all_items: Vec<OutputItem> = wrap_items(flatten(all_items));
        // What has to be generated on the foreign side.
        let mut additional_cpp_needs: Vec<AdditionalNeed> = remove_nones(additional_cpp_needs);
        // The types of platform-defined width that have to be declared.
        self.append_ctype_information(&deps, &mut extern_c_mod_items, &mut additional_cpp_needs);
        let mut includes = self.build_include_foreign_items(!additional_cpp_needs.is_empty());
        proof {
            assert(needs(additional_cpp_needs@).len() == additional_cpp_needs@.len());
        }
        let ghost before_includes = decl_views(extern_c_mod_items@);
        let ghost include_views = decl_views(includes@);
        extern_c_mod_items.append(&mut includes);
        proof {
            assert(decl_views(extern_c_mod_items@) =~= before_includes + include_views);
            assert(decl_views(extern_c_mod_items@) =~= foreign_block(
                apis,
                self.include_list@,
                known,
            ));
        }
        // The foreign block is always there, even where no record adds to it:
        // the bridge still has to know the types.
        push_item(&mut bridge_items, Self::make_foreign_mod_unsafe(extern_c_mod_items));
        if !bindgen_root_items.is_empty() {
            proof {
                assert(item_views(bindgen_root_items@).len() == bindgen_root_items@.len());
            }
            let mut content: Vec<OutputItem> = Vec::new();
            push_item(
                &mut content,
                OutputItem::module(String::from_str("root"), bindgen_root_items),
            );
            proof {
                assert(item_views(content@) =~= seq![
                    ItemView::Mod {
                        name: "root"@,
                        items: declaration_tree(apis, self.use_stmts_by_mod@),
                    },
                ]);
            }
            push_item(&mut all_items, OutputItem::container(self.bindgen_mod, content));
        } else {
            proof {
                assert(item_views(bindgen_root_items@).len() == bindgen_root_items@.len());
            }
        }
        push_item(&mut all_items, OutputItem::bridge(bridge_items));
        append_items(&mut all_items, use_statements);
        proof {
            assert(item_views(all_items@) =~= generated_items(
                apis,
                self.include_list@,
                self.use_stmts_by_mod@,
                self.bindgen_mod,
                known,
            ));
        }
        CodegenResults { items: all_items, additional_cpp_needs }
    }

    /// Marks the foreign block as one whose declarations the compiler takes
    /// on trust.
    fn make_foreign_mod_unsafe(decls: Vec<ForeignDecl>) -> (item: OutputItem)
        ensures
            item@ == (ItemView::UnsafeForeignMod { decls: decl_views(decls@) }),
    {
        OutputItem::UnsafeForeignMod { decls }
    }

    /// Appends, for each type of platform-defined width that `deps` mention,
    /// its alias to the foreign block and the request for its typedef to the
    /// needs.
    fn append_ctype_information(
        &self,
        deps: &Vec<Vec<TypeName>>,
        extern_c_mod_items: &mut Vec<ForeignDecl>,
        additional_cpp_needs: &mut Vec<AdditionalNeed>,
    )
        ensures
            decl_views(final(extern_c_mod_items)@) == decl_views(old(extern_c_mod_items)@)
                + alias_decls(ctypes_among(deps@, *self.known_types)),
            needs(final(additional_cpp_needs)@) == needs(old(additional_cpp_needs)@)
                + typedef_needs(ctypes_among(deps@, *self.known_types)),
    {
        let ghost known = *self.known_types;
        let mut ctypes: Vec<&TypeName> = Vec::new();
        let mut i: usize = 0;
        while i < deps.len()
            invariant
                i <= deps@.len(),
                known == *self.known_types,
                type_ref_names(ctypes@) == ctypes_among(deps@.take(i as int), known),
            decreases deps.len() - i,
        {
            let mentioned = &deps[i];
            let ghost before = all_deps(deps@.take(i as int));
            let mut j: usize = 0;
            proof {
                assert(mentioned@.take(0) =~= Seq::<TypeName>::empty());
                assert(before + type_names(mentioned@.take(0)) =~= before);
            }
            while j < mentioned.len()
                invariant
                    j <= mentioned@.len(),
                    known == *self.known_types,
                    type_ref_names(ctypes@) == distinct(
                        (before + type_names(mentioned@.take(j as int))).filter(
                            is_ctype_in(known),
                        ),
                    ),
                decreases mentioned.len() - j,
            {
                let ty = &mentioned[j];
                let ghost so_far = before + type_names(mentioned@.take(j as int));
                proof {
                    assert(before + type_names(mentioned@.take(j + 1)) =~= so_far.push(ty@));
                    Seq::lemma_filter_push(so_far, ty@, is_ctype_in(known));
                    lemma_distinct_push(so_far.filter(is_ctype_in(known)), ty@);
                }
                if self.known_types.is_ctype(ty) && !contains_type(&ctypes, ty) {
                    let ghost found = type_ref_names(ctypes@);
                    ctypes.push(ty);
                    assert(type_ref_names(ctypes@) =~= found.push(ty@));
                }
                j += 1;
            }
            proof {
                assert(mentioned@.take(mentioned@.len() as int) =~= mentioned@);
                assert(deps@.take(i + 1).drop_last() =~= deps@.take(i as int));
                assert(deps@.take(i + 1).last() == deps@[i as int]);
            }
            i += 1;
        }
        assert(deps@.take(deps@.len() as int) =~= deps@);
        let ghost wanted = ctypes_among(deps@, known);
        let ghost decls_start = decl_views(extern_c_mod_items@);
        let ghost needs_start = needs(additional_cpp_needs@);
        let mut k: usize = 0;
        while k < ctypes.len()
            invariant
                k <= ctypes@.len(),
                type_ref_names(ctypes@) == wanted,
                decl_views(extern_c_mod_items@) == decls_start + alias_decls(wanted).take(
                    k as int,
                ),
                needs(additional_cpp_needs@) == needs_start + typedef_needs(wanted).take(k as int),
            decreases ctypes.len() - k,
        {
            let ctype: &TypeName = ctypes[k];
            let ghost decls_before = decl_views(extern_c_mod_items@);
            let ghost needs_before = needs(additional_cpp_needs@);
            let id = String::from_str(ctype.get_final_ident());
            push_decl(extern_c_mod_items, ForeignDecl::TypeAlias { id });
            additional_cpp_needs.push(AdditionalNeed::CTypeTypedef(ctype.clone()));
            proof {
                assert(type_ref_names(ctypes@)[k as int] == ctype@);
                assert(decl_views(extern_c_mod_items@) =~= decls_before.push(
                    ForeignDeclView::TypeAlias { id: ctype@.name },
                ));
                assert(needs(additional_cpp_needs@) =~= needs_before.push(
                    NeedView::CTypeTypedef(ctype@),
                ));
                assert(alias_decls(wanted).take(k + 1) =~= alias_decls(wanted).take(k as int).push(
                    ForeignDeclView::TypeAlias { id: ctype@.name },
                ));
                assert(typedef_needs(wanted).take(k + 1) =~= typedef_needs(wanted).take(
                    k as int,
                ).push(NeedView::CTypeTypedef(ctype@)));
            }
            k += 1;
        }
        assert(alias_decls(wanted).take(wanted.len() as int) =~= alias_decls(wanted));
        assert(typedef_needs(wanted).take(wanted.len() as int) =~= typedef_needs(wanted));
    }

    /// The inclusion directives of the foreign block.
    fn build_include_foreign_items(&self, has_additional_cpp_needs: bool) -> (includes: Vec<
        ForeignDecl,
    >)
        ensures
            decl_views(includes@) == include_decls(self.include_list@, has_additional_cpp_needs),
    {
        let mut includes: Vec<ForeignDecl> = Vec::new();
        let ghost configured = header_decls(self.include_list@);
        let mut i: usize = 0;
        while i < self.include_list.len()
            invariant
                i <= self.include_list@.len(),
                configured == header_decls(self.include_list@),
                decl_views(includes@) == configured.take(i as int),
            decreases self.include_list.len() - i,
        {
            push_decl(&mut includes, ForeignDecl::Include { header: self.include_list[i].clone() });
            proof {
                assert(configured.take(i + 1) =~= configured.take(i as int).push(
                    configured[i as int],
                ));
            }
            i += 1;
        }
        assert(configured.take(configured.len() as int) =~= configured);
        if has_additional_cpp_needs {
            push_decl(
                &mut includes,
                ForeignDecl::Include { header: String::from_str("autocxxgen.h") },
            );
        }
        assert(decl_views(includes@) =~= include_decls(
            self.include_list@,
            has_additional_cpp_needs,
        ));
        includes
    }

    /// Generates the regenerated declarations, nested by namespace.
    fn generate_final_bindgen_mods(&self, input_items: &[Api]) -> (output_items: Vec<OutputItem>)
        ensures
            item_views(output_items@) == declaration_tree(input_items@, self.use_stmts_by_mod@),
    {
        let mut output_items: Vec<OutputItem> = Vec::new();
        let ns = Namespace::new();
        let ns_entries = NamespaceEntries::new(input_items);
        self.append_child_bindgen_namespace(&ns_entries, &mut output_items, &ns);
        self.append_uses_for_ns(&mut output_items, &ns);
        assert(item_views(output_items@) =~= declaration_tree(
            input_items@,
            self.use_stmts_by_mod@,
        ));
        output_items
    }
}

} // verus!

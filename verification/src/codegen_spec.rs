//! What the assembly stage generates, as mathematics.
//!
//! The functions here say, for a list of records, what each part of the
//! output is; the proofs say what holds of those parts whatever the records
//! are. The code that computes the output is in [`crate::codegen`].

use crate::additional_cpp::{needs, AdditionalNeed, NeedView};
use crate::api::{Api, Use};
use crate::known_types::KnownTypes;
use crate::namespace_organizer::{group, NsChild, NsTree};
use crate::output::{foreign_fragments, fragments, ForeignDeclView, ItemView};
use crate::sequences::{
    distinct, kept_positions, lemma_distinct_contains, lemma_distinct_no_duplicates,
    lemma_filter_map_keeps_order,
};
use crate::types::{type_names, QualifiedName, TypeName};
use crate::use_statements::uses_at;
use vstd::prelude::*;

verus! {

/// The values that are present, in order.
pub open spec fn somes<T>(input: Seq<Option<T>>) -> Seq<T> {
    input.filter_map(|slot: Option<T>| slot)
}

/// The sequences one after the other.
pub open spec fn joined<T>(input: Seq<Vec<T>>) -> Seq<T>
    decreases input.len(),
{
    if input.len() == 0 {
        Seq::empty()
    } else {
        joined(input.drop_last()) + input.last()@
    }
}

/// How a record is re-exported: not at all where it is unused, under its own
/// name where it is used, and under its alias where it has one.
pub open spec fn reexport_of(api: Api) -> Option<ItemView> {
    match api.use_stmt {
        Use::UsedWithAlias(alias) => Some(ItemView::UseAs { id: api.id@, alias: alias@ }),
        Use::Used => Some(ItemView::Use { id: api.id@ }),
        Use::Unused => None,
    }
}

/// The re-exports of the records of one namespace, in the order of the
/// records.
pub open spec fn reexports(entries: Seq<Api>) -> Seq<ItemView> {
    entries.filter_map(|api: Api| reexport_of(api))
}

/// The re-exports of a namespace: those of its own records, then one module
/// for each namespace one level down that has any re-export in it or below
/// it.
pub open spec fn use_items(tree: NsTree) -> Seq<ItemView>
    decreases tree,
{
    reexports(tree.entries) + use_mods(tree.children)
}

/// The modules of re-exports of the namespaces `children`.
pub open spec fn use_mods(children: Seq<NsChild>) -> Seq<ItemView>
    decreases children,
{
    if children.len() == 0 {
        Seq::empty()
    } else {
        use_mods(children.drop_last()) + use_mod(children.last())
    }
}

/// The module of re-exports of the namespace `child`, which starts by
/// bringing the bridge module into scope; nothing where the namespace has no
/// re-export in it or below it.
pub open spec fn use_mod(child: NsChild) -> Seq<ItemView>
    decreases child,
{
    let inner = use_items(child.tree);
    if inner.len() > 0 {
        seq![ItemView::Mod { name: child.name, items: seq![ItemView::ImportBridge] + inner }]
    } else {
        Seq::empty()
    }
}

/// The re-exports of all of `apis`, nested by namespace.
pub open spec fn use_tree(apis: Seq<Api>) -> Seq<ItemView> {
    use_items(group(apis, Seq::empty()))
}

/// What a record places among the regenerated declarations.
pub open spec fn declaration_of(api: Api) -> Option<ItemView> {
    match api.bindgen_mod_item {
        Some(item) => Some(ItemView::Fragment(item)),
        None => None,
    }
}

/// The regenerated declarations of the records of one namespace, in the order
/// of the records.
pub open spec fn declarations(entries: Seq<Api>) -> Seq<ItemView> {
    entries.filter_map(|api: Api| declaration_of(api))
}

/// The name of the type to whose methods a record adds one, if it does.
pub open spec fn impl_type_of(api: Api) -> Option<Seq<char>> {
    if api.impl_entry is Some {
        Some(api.id@)
    } else {
        None
    }
}

/// The method that a record adds to the type `ty`, if it adds one to that
/// type.
pub open spec fn impl_entry_for(api: Api, ty: Seq<char>) -> Option<syn::ImplItem> {
    if api.id@ == ty {
        api.impl_entry
    } else {
        None
    }
}

/// The names of the types that get methods from the records of one namespace,
/// each once, in the order in which the records first name them.
pub open spec fn impl_types(entries: Seq<Api>) -> Seq<Seq<char>> {
    distinct(entries.filter_map(|api: Api| impl_type_of(api)))
}

/// The methods that the records of one namespace add to the type `ty`, in the
/// order of the records.
pub open spec fn impl_entries_for(entries: Seq<Api>, ty: Seq<char>) -> Seq<syn::ImplItem> {
    entries.filter_map(|api: Api| impl_entry_for(api, ty))
}

/// The blocks of methods of one namespace: one for each type that gets any,
/// holding all the methods of that type.
pub open spec fn impl_blocks(entries: Seq<Api>) -> Seq<ItemView> {
    let types = impl_types(entries);
    Seq::new(
        types.len(),
        |i: int| ItemView::Impl { ty: types[i], entries: impl_entries_for(entries, types[i]) },
    )
}

/// The regenerated declarations of the namespace `path`, without the use
/// statements of `path` itself: the declarations of its records, then their
/// blocks of methods, then one module for each namespace one level down that
/// has any declaration in it or below it.
pub open spec fn decl_items(
    tree: NsTree,
    uses: Map<Seq<Seq<char>>, Seq<syn::Item>>,
    path: Seq<Seq<char>>,
) -> Seq<ItemView>
    decreases tree,
{
    declarations(tree.entries) + impl_blocks(tree.entries) + decl_mods(tree.children, uses, path)
}

/// The modules of regenerated declarations of the namespaces `children`, which
/// lie one level below `path`.
pub open spec fn decl_mods(
    children: Seq<NsChild>,
    uses: Map<Seq<Seq<char>>, Seq<syn::Item>>,
    path: Seq<Seq<char>>,
) -> Seq<ItemView>
    decreases children,
{
    if children.len() == 0 {
        Seq::empty()
    } else {
        decl_mods(children.drop_last(), uses, path) + decl_mod(children.last(), uses, path)
    }
}

/// The module of regenerated declarations of the namespace `child`, which lies
/// one level below `path`: what the namespace holds, followed by the use
/// statements recorded for it. Nothing where the namespace holds nothing.
pub open spec fn decl_mod(
    child: NsChild,
    uses: Map<Seq<Seq<char>>, Seq<syn::Item>>,
    path: Seq<Seq<char>>,
) -> Seq<ItemView>
    decreases child,
{
    let ns = path.push(child.name);
    let inner = decl_items(child.tree, uses, ns);
    if inner.len() > 0 {
        seq![ItemView::Mod { name: child.name, items: inner + fragments(uses_at(uses, ns)) }]
    } else {
        Seq::empty()
    }
}

/// The regenerated declarations of all of `apis`, nested by namespace, followed
/// by the use statements recorded for the root namespace.
pub open spec fn declaration_tree(
    apis: Seq<Api>,
    uses: Map<Seq<Seq<char>>, Seq<syn::Item>>,
) -> Seq<ItemView> {
    decl_items(group(apis, Seq::empty()), uses, Seq::empty()) + fragments(
        uses_at(uses, Seq::empty()),
    )
}

/// No record of `entries` adds a method to a type that is not among
/// `impl_types(entries)`.
pub proof fn lemma_no_entries_for_other_type(entries: Seq<Api>, ty: Seq<char>)
    requires
        !impl_types(entries).contains(ty),
    ensures
        impl_entries_for(entries, ty) == Seq::<syn::ImplItem>::empty(),
    decreases entries.len(),
{
    let named = entries.filter_map(|api: Api| impl_type_of(api));
    lemma_distinct_contains(named, ty);
    if entries.len() > 0 {
        let rest = entries.drop_last();
        let rest_named = rest.filter_map(|api: Api| impl_type_of(api));
        lemma_distinct_contains(rest_named, ty);
        if rest_named.contains(ty) {
            let i = choose|i: int| 0 <= i < rest_named.len() && rest_named[i] == ty;
            assert(named[i] == ty);
        }
        lemma_no_entries_for_other_type(rest, ty);
        if impl_type_of(entries.last()) == Some(ty) {
            assert(named[named.len() - 1] == ty);
        }
    }
}

/// What each record adds to the foreign block of the bridge.
pub open spec fn foreign_slots(apis: Seq<Api>) -> Seq<Option<syn::ForeignItem>> {
    apis.map_values(|api: Api| api.extern_c_mod_item)
}

/// What each record places at the top level of the output.
pub open spec fn global_slots(apis: Seq<Api>) -> Seq<Vec<syn::Item>> {
    apis.map_values(|api: Api| api.global_items)
}

/// What each record adds to the bridge module.
pub open spec fn bridge_slots(apis: Seq<Api>) -> Seq<Vec<syn::Item>> {
    apis.map_values(|api: Api| api.bridge_items)
}

/// What each record needs on the foreign side.
pub open spec fn need_slots(apis: Seq<Api>) -> Seq<Option<AdditionalNeed>> {
    apis.map_values(|api: Api| api.additional_cpp)
}

/// The types that each record mentions.
pub open spec fn dep_slots(apis: Seq<Api>) -> Seq<Vec<TypeName>> {
    apis.map_values(|api: Api| api.deps)
}

/// The values of the type names that a sequence of references points to.
pub open spec fn type_ref_names(refs: Seq<&TypeName>) -> Seq<QualifiedName> {
    Seq::new(refs.len(), |i: int| refs[i]@)
}

/// All the types that are mentioned, in order, with repetitions.
pub open spec fn all_deps(deps: Seq<Vec<TypeName>>) -> Seq<QualifiedName>
    decreases deps.len(),
{
    if deps.len() == 0 {
        Seq::empty()
    } else {
        all_deps(deps.drop_last()) + type_names(deps.last()@)
    }
}

/// Whether a type is of platform-defined width according to `known`.
pub open spec fn is_ctype_in(known: KnownTypes) -> spec_fn(QualifiedName) -> bool {
    |ty: QualifiedName| known.recognizes(ty)
}

/// The mentioned types that are of platform-defined width, each once, in the
/// order in which they are first mentioned.
pub open spec fn ctypes_among(deps: Seq<Vec<TypeName>>, known: KnownTypes) -> Seq<QualifiedName> {
    distinct(all_deps(deps).filter(is_ctype_in(known)))
}

/// For each type, the alias that binds its name in the foreign block.
pub open spec fn alias_decls(ctypes: Seq<QualifiedName>) -> Seq<ForeignDeclView> {
    Seq::new(ctypes.len(), |i: int| ForeignDeclView::TypeAlias { id: ctypes[i].name })
}

/// For each type, the request for its typedef on the foreign side.
pub open spec fn typedef_needs(ctypes: Seq<QualifiedName>) -> Seq<NeedView> {
    Seq::new(ctypes.len(), |i: int| NeedView::CTypeTypedef(ctypes[i]))
}

/// One inclusion directive for each header, in order.
pub open spec fn header_decls(include_list: Seq<String>) -> Seq<ForeignDeclView> {
    Seq::new(include_list.len(), |i: int| ForeignDeclView::Include { header: include_list[i]@ })
}

/// The inclusion directives: one for each configured header, in order, then
/// one for the header generated on the foreign side if `generated` says that
/// there is one.
pub open spec fn include_decls(include_list: Seq<String>, generated: bool) -> Seq<
    ForeignDeclView,
> {
    header_decls(include_list) + if generated {
        seq![ForeignDeclView::Include { header: "autocxxgen.h"@ }]
    } else {
        Seq::empty()
    }
}

/// What has to be generated on the foreign side: what the records ask for, in
/// their order, then one typedef for each type of platform-defined width that
/// any record mentions.
pub open spec fn generated_needs(apis: Seq<Api>, known: KnownTypes) -> Seq<NeedView> {
    needs(somes(need_slots(apis))) + typedef_needs(ctypes_among(dep_slots(apis), known))
}

/// The foreign block of the bridge: what the records add to it, in their
/// order, then one alias for each type of platform-defined width that any
/// record mentions, then the inclusion directives. The generated header is
/// included exactly if anything has to be generated on the foreign side.
pub open spec fn foreign_block(apis: Seq<Api>, include_list: Seq<String>, known: KnownTypes) -> Seq<
    ForeignDeclView,
> {
    foreign_fragments(somes(foreign_slots(apis))) + alias_decls(
        ctypes_among(dep_slots(apis), known),
    ) + include_decls(include_list, generated_needs(apis, known).len() > 0)
}

/// The bridge module: what the records add to it, in their order, then the
/// foreign block.
pub open spec fn bridge_module(apis: Seq<Api>, include_list: Seq<String>, known: KnownTypes) -> ItemView {
    ItemView::Bridge {
        items: fragments(joined(bridge_slots(apis))).push(
            ItemView::UnsafeForeignMod { decls: foreign_block(apis, include_list, known) },
        ),
    }
}

/// The root container holding the module `root` with the regenerated
/// declarations; nothing where there are no regenerated declarations.
pub open spec fn declaration_module(
    apis: Seq<Api>,
    uses: Map<Seq<Seq<char>>, Seq<syn::Item>>,
    container: syn::ItemMod,
) -> Seq<ItemView> {
    let declarations = declaration_tree(apis, uses);
    if declarations.len() > 0 {
        seq![
            ItemView::Container {
                module: container,
                items: seq![ItemView::Mod { name: "root"@, items: declarations }],
            },
        ]
    } else {
        Seq::empty()
    }
}

/// The generated code: the fragments that the records place at the top level;
/// then the regenerated declarations, if there are any; then the bridge
/// module; then the re-exports.
pub open spec fn generated_items(
    apis: Seq<Api>,
    include_list: Seq<String>,
    uses: Map<Seq<Seq<char>>, Seq<syn::Item>>,
    container: syn::ItemMod,
    known: KnownTypes,
) -> Seq<ItemView> {
    fragments(joined(global_slots(apis))) + declaration_module(apis, uses, container)
        + seq![bridge_module(apis, include_list, known)] + use_tree(apis)
}

/// The positions, among the records of one namespace, of those that are
/// re-exported.
pub open spec fn reexport_sources(entries: Seq<Api>) -> Seq<int> {
    kept_positions(entries, |api: Api| reexport_of(api))
}

/// The re-exports of a namespace stand in the order of its records: there is
/// one for each record that is not unused and none for any other, and the
/// `k`-th of them is that of the `k`-th such record.
pub proof fn lemma_reexports_follow_records(entries: Seq<Api>)
    ensures
        reexport_sources(entries).len() == reexports(entries).len(),
        forall|k: int|
            0 <= k < reexports(entries).len() ==> 0 <= #[trigger] reexport_sources(entries)[k]
                < entries.len() && reexport_of(entries[reexport_sources(entries)[k]]) == Some(
                reexports(entries)[k],
            ),
        forall|j: int, k: int|
            0 <= j < k < reexports(entries).len() ==> reexport_sources(entries)[j]
                < reexport_sources(entries)[k],
        forall|p: int|
            0 <= p < entries.len() ==> (reexport_sources(entries).contains(p) <==> !((
            #[trigger] entries[p]).use_stmt is Unused)),
{
    lemma_filter_map_keeps_order(entries, |api: Api| reexport_of(api));
}

/// An unused record has no re-export; a used one is re-exported under its own
/// name; one used with an alias is re-exported under the alias and not under
/// its own name.
pub proof fn lemma_reexport_binds(api: Api)
    ensures
        api.use_stmt is Unused <==> reexport_of(api) is None,
        api.use_stmt is Used ==> reexport_of(api) == Some(ItemView::Use { id: api.id@ })
            && reexport_of(api).unwrap().bound_name() == Some(api.id@),
        api.use_stmt is UsedWithAlias ==> reexport_of(api) == Some(
            ItemView::UseAs { id: api.id@, alias: api.use_stmt->UsedWithAlias_0@ },
        ) && reexport_of(api).unwrap().bound_name() == Some(api.use_stmt->UsedWithAlias_0@),
{
}

/// The positions, among the records of one namespace, of those that add a
/// method to the type `ty`.
pub open spec fn impl_sources(entries: Seq<Api>, ty: Seq<char>) -> Seq<int> {
    kept_positions(entries, |api: Api| impl_entry_for(api, ty))
}

/// The methods of the records of one namespace are merged by type: there is
/// one block for each type that gets a method and no type has two; every
/// record that adds a method finds the block of its type.
pub proof fn lemma_one_block_per_type(entries: Seq<Api>)
    ensures
        impl_blocks(entries).len() == impl_types(entries).len(),
        impl_types(entries).no_duplicates(),
        forall|b: int|
            0 <= b < impl_blocks(entries).len() ==> #[trigger] impl_blocks(entries)[b] == (
            ItemView::Impl {
                ty: impl_types(entries)[b],
                entries: impl_entries_for(entries, impl_types(entries)[b]),
            }),
        forall|p: int|
            0 <= p < entries.len() && (#[trigger] entries[p]).impl_entry is Some ==> impl_types(
                entries,
            ).contains(entries[p].id@),
{
    let named = entries.filter_map(|api: Api| impl_type_of(api));
    lemma_distinct_no_duplicates(named);
    lemma_filter_map_keeps_order(entries, |api: Api| impl_type_of(api));
    let sources = kept_positions(entries, |api: Api| impl_type_of(api));
    assert forall|p: int|
        0 <= p < entries.len() && (#[trigger] entries[p]).impl_entry is Some implies impl_types(
        entries,
    ).contains(entries[p].id@) by {
        assert(impl_type_of(entries[p]) is Some);
        assert(sources.contains(p));
        let k = choose|k: int| 0 <= k < sources.len() && sources[k] == p;
        assert(named[k] == entries[p].id@);
        lemma_distinct_contains(named, entries[p].id@);
    }
}

/// The block of the type `ty` holds the methods of exactly the records that
/// are called `ty` and add a method, in the order of those records: methods
/// of records of another name are not in it.
pub proof fn lemma_block_follows_records(entries: Seq<Api>, ty: Seq<char>)
    ensures
        impl_sources(entries, ty).len() == impl_entries_for(entries, ty).len(),
        forall|k: int|
            0 <= k < impl_entries_for(entries, ty).len() ==> 0 <= #[trigger] impl_sources(
                entries,
                ty,
            )[k] < entries.len() && entries[impl_sources(entries, ty)[k]].id@ == ty
                && entries[impl_sources(entries, ty)[k]].impl_entry == Some(
                impl_entries_for(entries, ty)[k],
            ),
        forall|j: int, k: int|
            0 <= j < k < impl_entries_for(entries, ty).len() ==> impl_sources(entries, ty)[j]
                < impl_sources(entries, ty)[k],
        forall|p: int|
            0 <= p < entries.len() ==> (impl_sources(entries, ty).contains(p) <==> (
            #[trigger] entries[p]).id@ == ty && entries[p].impl_entry is Some),
{
    lemma_filter_map_keeps_order(entries, |api: Api| impl_entry_for(api, ty));
}

/// A type is among all the mentioned ones exactly if some record mentions it.
pub proof fn lemma_mentioned(deps: Seq<Vec<TypeName>>, ty: QualifiedName)
    ensures
        all_deps(deps).contains(ty) <==> exists|i: int, j: int|
            0 <= i < deps.len() && 0 <= j < deps[i]@.len() && (#[trigger] deps[i]@[j])@ == ty,
    decreases deps.len(),
{
    if deps.len() > 0 {
        let rest = deps.drop_last();
        let last = type_names(deps.last()@);
        lemma_mentioned(rest, ty);
        if all_deps(deps).contains(ty) {
            let k = choose|k: int| 0 <= k < all_deps(deps).len() && all_deps(deps)[k] == ty;
            if k < all_deps(rest).len() {
                assert(all_deps(rest)[k] == ty);
                let (i, j) = choose|i: int, j: int|
                    0 <= i < rest.len() && 0 <= j < rest[i]@.len() && (#[trigger] rest[i]@[j])@
                        == ty;
                assert(deps[i]@[j]@ == ty);
            } else {
                let j = k - all_deps(rest).len();
                assert(last[j] == ty);
                assert(deps[deps.len() - 1]@[j]@ == ty);
            }
        }
        if exists|i: int, j: int|
            0 <= i < deps.len() && 0 <= j < deps[i]@.len() && (#[trigger] deps[i]@[j])@ == ty {
            let (i, j) = choose|i: int, j: int|
                0 <= i < deps.len() && 0 <= j < deps[i]@.len() && (#[trigger] deps[i]@[j])@ == ty;
            if i < rest.len() {
                assert(rest[i]@[j]@ == ty);
                let k = choose|k: int| 0 <= k < all_deps(rest).len() && all_deps(rest)[k] == ty;
                assert(all_deps(deps)[k] == ty);
            } else {
                assert(last[j] == ty);
                assert(all_deps(deps)[all_deps(rest).len() + j] == ty);
            }
        }
    }
}

/// However many records mention a type of platform-defined width, the type
/// gets one alias and one request for a typedef: it stands once among the
/// types for which these are made, and each of those types gets one of each.
/// A type that no record mentions, or whose width is fixed, gets none.
pub proof fn lemma_ctype_emitted_once(deps: Seq<Vec<TypeName>>, known: KnownTypes, ty: QualifiedName)
    ensures
        ctypes_among(deps, known).no_duplicates(),
        ctypes_among(deps, known).contains(ty) <==> all_deps(deps).contains(ty)
            && known.recognizes(ty),
        alias_decls(ctypes_among(deps, known)).len() == ctypes_among(deps, known).len(),
        typedef_needs(ctypes_among(deps, known)).len() == ctypes_among(deps, known).len(),
        forall|k: int|
            0 <= k < ctypes_among(deps, known).len() ==> (#[trigger] typedef_needs(
                ctypes_among(deps, known),
            )[k] == NeedView::CTypeTypedef(ty) <==> ctypes_among(deps, known)[k] == ty),
{
    let wide = all_deps(deps).filter(is_ctype_in(known));
    lemma_distinct_no_duplicates(wide);
    lemma_distinct_contains(wide, ty);
    if wide.contains(ty) {
        let k = choose|k: int| 0 <= k < wide.len() && wide[k] == ty;
        Seq::lemma_filter_pred(all_deps(deps), is_ctype_in(known), k);
        Seq::lemma_filter_contains_rev(all_deps(deps), is_ctype_in(known), ty);
    }
    if all_deps(deps).contains(ty) && known.recognizes(ty) {
        let k = choose|k: int| 0 <= k < all_deps(deps).len() && all_deps(deps)[k] == ty;
        Seq::lemma_filter_contains(all_deps(deps), is_ctype_in(known), k);
    }
}

/// The generated code is always in this order: what the records place at the
/// top level, then the regenerated declarations in the root container, if
/// there are any, then the bridge module, then the re-exports.
pub proof fn lemma_final_order(
    apis: Seq<Api>,
    include_list: Seq<String>,
    uses: Map<Seq<Seq<char>>, Seq<syn::Item>>,
    container: syn::ItemMod,
    known: KnownTypes,
)
    ensures
        ({
            let output = generated_items(apis, include_list, uses, container, known);
            let top = fragments(joined(global_slots(apis)));
            let declarations = declaration_module(apis, uses, container);
            let bridge = top.len() + declarations.len();
            &&& declarations.len() <= 1
            &&& declarations.len() == 1 <==> declaration_tree(apis, uses).len() > 0
            &&& output.len() == bridge + 1 + use_tree(apis).len()
            &&& output.subrange(0, top.len() as int) == top
            &&& output.subrange(top.len() as int, bridge as int) == declarations
            &&& declarations.len() == 1 ==> output[top.len() as int] is Container
            &&& output[bridge as int] == bridge_module(apis, include_list, known)
            &&& output.subrange(bridge as int + 1, output.len() as int) == use_tree(apis)
        }),
{
    let output = generated_items(apis, include_list, uses, container, known);
    let top = fragments(joined(global_slots(apis)));
    let declarations = declaration_module(apis, uses, container);
    let bridge = top.len() + declarations.len();
    assert(output.subrange(0, top.len() as int) =~= top);
    assert(output.subrange(top.len() as int, bridge as int) =~= declarations);
    assert(output.subrange(bridge as int + 1, output.len() as int) =~= use_tree(apis));
}

/// Whether a record is re-exported.
pub open spec fn is_reexported() -> spec_fn(Api) -> bool {
    |api: Api| reexport_of(api) is Some
}

/// Whether a record adds anything to the regenerated declarations.
pub open spec fn is_declared() -> spec_fn(Api) -> bool {
    |api: Api| api.bindgen_mod_item is Some || api.impl_entry is Some
}

/// Whether any record of the namespace, or of a namespace below it, meets the
/// condition.
pub open spec fn any_record(tree: NsTree, meets: spec_fn(Api) -> bool) -> bool
    decreases tree,
{
    ||| exists|i: int| 0 <= i < tree.entries.len() && meets(#[trigger] tree.entries[i])
    ||| exists|k: int|
        0 <= k < tree.children.len() && any_record((#[trigger] tree.children[k]).tree, meets)
}

/// A namespace has a module of re-exports exactly if a record in it or below
/// it is re-exported: no module of re-exports is without one.
pub proof fn lemma_use_items_pruned(tree: NsTree)
    ensures
        use_items(tree).len() > 0 <==> any_record(tree, is_reexported()),
        forall|k: int|
            0 <= k < tree.children.len() ==> (use_mod(#[trigger] tree.children[k]).len() > 0
                <==> any_record(tree.children[k].tree, is_reexported())),
    decreases tree,
{
    lemma_filter_map_keeps_order(tree.entries, |api: Api| reexport_of(api));
    let sources = kept_positions(tree.entries, |api: Api| reexport_of(api));
    if reexports(tree.entries).len() > 0 {
        assert(is_reexported()(tree.entries[sources[0]]));
    }
    if exists|i: int| 0 <= i < tree.entries.len() && is_reexported()(#[trigger] tree.entries[i]) {
        let i = choose|i: int|
            0 <= i < tree.entries.len() && is_reexported()(#[trigger] tree.entries[i]);
        assert(sources.contains(i));
    }
    assert forall|k: int| 0 <= k < tree.children.len() implies (use_mod(
        #[trigger] tree.children[k],
    ).len() > 0 <==> any_record(tree.children[k].tree, is_reexported())) by {
        lemma_use_items_pruned(tree.children[k].tree);
    }
    lemma_use_mods_pruned(tree.children);
}

/// The namespaces `children` have a module of re-exports among them exactly
/// if one of them has one.
pub proof fn lemma_use_mods_pruned(children: Seq<NsChild>)
    ensures
        use_mods(children).len() > 0 <==> exists|k: int|
            0 <= k < children.len() && use_mod(#[trigger] children[k]).len() > 0,
    decreases children.len(),
{
    if children.len() > 0 {
        let rest = children.drop_last();
        lemma_use_mods_pruned(rest);
        if exists|k: int| 0 <= k < rest.len() && use_mod(#[trigger] rest[k]).len() > 0 {
            let k = choose|k: int| 0 <= k < rest.len() && use_mod(#[trigger] rest[k]).len() > 0;
            assert(use_mod(children[k]).len() > 0);
        }
        if exists|k: int| 0 <= k < children.len() && use_mod(#[trigger] children[k]).len() > 0 {
            let k = choose|k: int|
                0 <= k < children.len() && use_mod(#[trigger] children[k]).len() > 0;
            if k < rest.len() {
                assert(use_mod(rest[k]).len() > 0);
            }
        }
    }
}

/// A namespace has a module of regenerated declarations exactly if a record
/// in it or below it adds a declaration or a method: no such module is empty,
/// and use statements alone do not make one.
pub proof fn lemma_decl_items_pruned(
    tree: NsTree,
    uses: Map<Seq<Seq<char>>, Seq<syn::Item>>,
    path: Seq<Seq<char>>,
)
    ensures
        decl_items(tree, uses, path).len() > 0 <==> any_record(tree, is_declared()),
        forall|k: int|
            0 <= k < tree.children.len() ==> (decl_mod(
                #[trigger] tree.children[k],
                uses,
                path,
            ).len() > 0 <==> any_record(tree.children[k].tree, is_declared())),
    decreases tree,
{
    lemma_filter_map_keeps_order(tree.entries, |api: Api| declaration_of(api));
    lemma_filter_map_keeps_order(tree.entries, |api: Api| impl_type_of(api));
    let declared = kept_positions(tree.entries, |api: Api| declaration_of(api));
    let typed = kept_positions(tree.entries, |api: Api| impl_type_of(api));
    let named = tree.entries.filter_map(|api: Api| impl_type_of(api));
    if declarations(tree.entries).len() > 0 {
        assert(is_declared()(tree.entries[declared[0]]));
    }
    if impl_blocks(tree.entries).len() > 0 {
        assert(impl_types(tree.entries).contains(impl_types(tree.entries)[0]));
        lemma_distinct_contains(named, impl_types(tree.entries)[0]);
        assert(named.len() > 0);
        assert(is_declared()(tree.entries[typed[0]]));
    }
    if exists|i: int| 0 <= i < tree.entries.len() && is_declared()(#[trigger] tree.entries[i]) {
        let i = choose|i: int|
            0 <= i < tree.entries.len() && is_declared()(#[trigger] tree.entries[i]);
        if tree.entries[i].bindgen_mod_item is Some {
            assert(declared.contains(i));
        } else {
            assert(typed.contains(i));
            assert(named.contains(named[0]));
            lemma_distinct_contains(named, named[0]);
            assert(impl_types(tree.entries).len() > 0);
        }
    }
    assert forall|k: int| 0 <= k < tree.children.len() implies (decl_mod(
        #[trigger] tree.children[k],
        uses,
        path,
    ).len() > 0 <==> any_record(tree.children[k].tree, is_declared())) by {
        lemma_decl_items_pruned(tree.children[k].tree, uses, path.push(tree.children[k].name));
    }
    lemma_decl_mods_pruned(tree.children, uses, path);
}

/// The namespaces `children` have a module of regenerated declarations among
/// them exactly if one of them has one.
pub proof fn lemma_decl_mods_pruned(
    children: Seq<NsChild>,
    uses: Map<Seq<Seq<char>>, Seq<syn::Item>>,
    path: Seq<Seq<char>>,
)
    ensures
        decl_mods(children, uses, path).len() > 0 <==> exists|k: int|
            0 <= k < children.len() && decl_mod(#[trigger] children[k], uses, path).len() > 0,
    decreases children.len(),
{
    if children.len() > 0 {
        let rest = children.drop_last();
        lemma_decl_mods_pruned(rest, uses, path);
        if exists|k: int| 0 <= k < rest.len() && decl_mod(#[trigger] rest[k], uses, path).len() > 0 {
            let k = choose|k: int|
                0 <= k < rest.len() && decl_mod(#[trigger] rest[k], uses, path).len() > 0;
            assert(decl_mod(children[k], uses, path).len() > 0);
        }
        if exists|k: int|
            0 <= k < children.len() && decl_mod(#[trigger] children[k], uses, path).len() > 0 {
            let k = choose|k: int|
                0 <= k < children.len() && decl_mod(#[trigger] children[k], uses, path).len() > 0;
            if k < rest.len() {
                assert(decl_mod(rest[k], uses, path).len() > 0);
            }
        }
    }
}

} // verus!

//! The items that the assembly stage produces.
//!
//! An item is either a fragment of syntax that was handed in and is passed on
//! as it is, or one of the few forms that this stage itself writes: a
//! re-export, a module, a block of methods, the bridge module and its foreign
//! block. Each form stands for a piece of source text, given with its variant.

use vstd::prelude::*;

verus! {

/// The mathematical value of a [`ForeignDecl`].
pub enum ForeignDeclView {
    Fragment(syn::ForeignItem),
    TypeAlias { id: Seq<char> },
    Include { header: Seq<char> },
}

/// One item of the foreign block of the bridge.
#[derive(Debug, PartialEq)]
pub enum ForeignDecl {
    /// A foreign item that was handed in.
    Fragment(syn::ForeignItem),
    /// `type id = autocxx::id;`: the type of platform-defined width called
    /// `id`, bound to the host's type of the same name.
    TypeAlias { id: String },
    /// `include!("header");`: the directive that includes `header`.
    Include { header: String },
}

impl View for ForeignDecl {
    type V = ForeignDeclView;

    open spec fn view(&self) -> ForeignDeclView {
        match self {
            ForeignDecl::Fragment(item) => ForeignDeclView::Fragment(*item),
            ForeignDecl::TypeAlias { id } => ForeignDeclView::TypeAlias { id: id@ },
            ForeignDecl::Include { header } => ForeignDeclView::Include { header: header@ },
        }
    }
}

/// The values of a sequence of foreign declarations.
pub open spec fn decl_views(decls: Seq<ForeignDecl>) -> Seq<ForeignDeclView> {
    Seq::new(decls.len(), |i: int| decls[i]@)
}

/// The mathematical value of an [`OutputItem`].
pub enum ItemView {
    Fragment(syn::Item),
    Use { id: Seq<char> },
    UseAs { id: Seq<char>, alias: Seq<char> },
    ImportBridge,
    Mod { name: Seq<char>, items: Seq<ItemView> },
    Impl { ty: Seq<char>, entries: Seq<syn::ImplItem> },
    Container { module: syn::ItemMod, items: Seq<ItemView> },
    Bridge { items: Seq<ItemView> },
    UnsafeForeignMod { decls: Seq<ForeignDeclView> },
}

impl ItemView {
    /// The name that a re-export brings into scope; `None` for an item that
    /// is no re-export.
    pub open spec fn bound_name(self) -> Option<Seq<char>> {
        match self {
            ItemView::Use { id } => Some(id),
            ItemView::UseAs { id, alias } => Some(alias),
            _ => None,
        }
    }
}

/// One item of the generated code.
#[derive(Debug, PartialEq)]
pub enum OutputItem {
    /// An item that was handed in.
    Fragment(syn::Item),
    /// `pub use cxxbridge::id;`: the re-export of `id` from the bridge module.
    Use { id: String },
    /// `pub use cxxbridge::id as alias;`: the re-export of `id` from the
    /// bridge module under the name `alias`.
    UseAs { id: String, alias: String },
    /// `use super::cxxbridge;`: what lets a module of re-exports see the
    /// bridge module.
    ImportBridge,
    /// `pub mod name { items }`.
    Mod { name: String, items: Vec<OutputItem> },
    /// `impl ty { entries }`.
    Impl { ty: String, entries: Vec<syn::ImplItem> },
    /// The module that was handed in as the root container, with `items` as
    /// its whole content.
    Container { module: syn::ItemMod, items: Vec<OutputItem> },
    /// `#[cxx::bridge] pub mod cxxbridge { items }`: the bridge module.
    Bridge { items: Vec<OutputItem> },
    /// `unsafe extern "C++" { decls }`: the foreign block, marked as one
    /// whose declarations the compiler takes on trust.
    UnsafeForeignMod { decls: Vec<ForeignDecl> },
}

impl View for OutputItem {
    type V = ItemView;

    open spec fn view(&self) -> ItemView
        decreases self,
    {
        match self {
            OutputItem::Fragment(item) => ItemView::Fragment(*item),
            OutputItem::Use { id } => ItemView::Use { id: id@ },
            OutputItem::UseAs { id, alias } => ItemView::UseAs { id: id@, alias: alias@ },
            OutputItem::ImportBridge => ItemView::ImportBridge,
            OutputItem::Mod { name, items } => ItemView::Mod {
                name: name@,
                items: Seq::new(
                    items.len() as nat,
                    |i: int|
                        if 0 <= i < items.len() {
                            items[i]@
                        } else {
                            ItemView::ImportBridge
                        },
                ),
            },
            OutputItem::Impl { ty, entries } => ItemView::Impl { ty: ty@, entries: entries@ },
            OutputItem::Container { module, items } => ItemView::Container {
                module: *module,
                items: Seq::new(
                    items.len() as nat,
                    |i: int|
                        if 0 <= i < items.len() {
                            items[i]@
                        } else {
                            ItemView::ImportBridge
                        },
                ),
            },
            OutputItem::Bridge { items } => ItemView::Bridge {
                items: Seq::new(
                    items.len() as nat,
                    |i: int|
                        if 0 <= i < items.len() {
                            items[i]@
                        } else {
                            ItemView::ImportBridge
                        },
                ),
            },
            OutputItem::UnsafeForeignMod { decls } => ItemView::UnsafeForeignMod {
                decls: decl_views(decls@),
            },
        }
    }
}

/// The values of a sequence of items.
pub open spec fn item_views(items: Seq<OutputItem>) -> Seq<ItemView> {
    Seq::new(items.len(), |i: int| items[i]@)
}

/// Each fragment as an item value.
pub open spec fn fragments(items: Seq<syn::Item>) -> Seq<ItemView> {
    Seq::new(items.len(), |i: int| ItemView::Fragment(items[i]))
}

/// Each foreign fragment as a foreign declaration value.
pub open spec fn foreign_fragments(items: Seq<syn::ForeignItem>) -> Seq<ForeignDeclView> {
    Seq::new(items.len(), |i: int| ForeignDeclView::Fragment(items[i]))
}

impl OutputItem {
    /// The module called `name` that holds `items`.
    pub fn module(name: String, items: Vec<OutputItem>) -> (item: OutputItem)
        ensures
            item@ == (ItemView::Mod { name: name@, items: item_views(items@) }),
    {
        let item = OutputItem::Mod { name, items };
        assert(item@->Mod_items =~= item_views(items@));
        item
    }

    /// The root container `module` with `items` as its content.
    pub fn container(module: syn::ItemMod, items: Vec<OutputItem>) -> (item: OutputItem)
        ensures
            item@ == (ItemView::Container { module, items: item_views(items@) }),
    {
        let item = OutputItem::Container { module, items };
        assert(item@->Container_items =~= item_views(items@));
        item
    }

    /// The bridge module that holds `items`.
    pub fn bridge(items: Vec<OutputItem>) -> (item: OutputItem)
        ensures
            item@ == (ItemView::Bridge { items: item_views(items@) }),
    {
        let item = OutputItem::Bridge { items };
        assert(item@->Bridge_items =~= item_views(items@));
        item
    }
}

/// Appends `decl` to `decls`.
pub fn push_decl(decls: &mut Vec<ForeignDecl>, decl: ForeignDecl)
    ensures
        decl_views(final(decls)@) == decl_views(old(decls)@).push(decl@),
{
    decls.push(decl);
    assert(decl_views(decls@) =~= decl_views(old(decls)@).push(decl@));
}

/// Appends `item` to `items`.
pub fn push_item(items: &mut Vec<OutputItem>, item: OutputItem)
    ensures
        item_views(final(items)@) == item_views(old(items)@).push(item@),
{
    items.push(item);
    assert(item_views(items@) =~= item_views(old(items)@).push(item@));
}

/// Appends all of `more` to `items`.
pub fn append_items(items: &mut Vec<OutputItem>, more: Vec<OutputItem>)
    ensures
        item_views(final(items)@) == item_views(old(items)@) + item_views(more@),
{
    let ghost added = more@;
    let mut more = more;
    items.append(&mut more);
    assert(item_views(items@) =~= item_views(old(items)@) + item_views(added));
}

/// Appends a copy of each fragment in `more` to `items`.
pub fn append_fragments(items: &mut Vec<OutputItem>, more: &Vec<syn::Item>)
    ensures
        item_views(final(items)@) == item_views(old(items)@) + fragments(more@),
{
    let mut i: usize = 0;
    while i < more.len()
        invariant
            i <= more.len(),
            item_views(items@) == item_views(old(items)@) + fragments(more@.take(i as int)),
        decreases more.len() - i,
    {
        let ghost before = items@;
        items.push(OutputItem::Fragment(more[i].clone()));
        assert(item_views(items@) =~= item_views(before).push(ItemView::Fragment(more@[i as int])));
        assert(fragments(more@.take(i + 1)) =~= fragments(more@.take(i as int)).push(
            ItemView::Fragment(more@[i as int]),
        ));
        i += 1;
    }
    assert(more@.take(more@.len() as int) =~= more@);
}

} // verus!

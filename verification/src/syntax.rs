//! The syntax fragments that pass through this crate.
//!
//! The fragments are values of `syn`. Nothing here reads them: they are moved
//! or copied into the output.

use vstd::prelude::*;

verus! {

/// `syn::Item`, an item of Rust source. Its contents are not visible to the
/// verifier.
#[verifier::external_type_specification]
#[verifier::external_body]
pub struct ExItem(syn::Item);

/// `syn::ForeignItem`, an item inside a foreign block. Its contents are not
/// visible to the verifier.
#[verifier::external_type_specification]
#[verifier::external_body]
pub struct ExForeignItem(syn::ForeignItem);

/// `syn::ImplItem`, an item inside an `impl` block. Its contents are not
/// visible to the verifier.
#[verifier::external_type_specification]
#[verifier::external_body]
pub struct ExImplItem(syn::ImplItem);

/// `syn::ItemMod`, a module. Its contents are not visible to the verifier.
#[verifier::external_type_specification]
#[verifier::external_body]
pub struct ExItemMod(syn::ItemMod);

/// `Clone::clone` of `syn::Item` copies the item variant by variant and field
/// by field. Assumed, not proved: the copy is the same value as the item.
pub assume_specification[ <syn::Item as Clone>::clone ](item: &syn::Item) -> (copy: syn::Item)
    ensures
        copy == *item,
;

/// `Clone::clone` of `syn::ImplItem` copies the item variant by variant and
/// field by field. Assumed, not proved: the copy is the same value as the
/// item.
pub assume_specification[ <syn::ImplItem as Clone>::clone ](item: &syn::ImplItem) -> (copy:
    syn::ImplItem)
    ensures
        copy == *item,
;

} // verus!

//! Requests for code on the foreign side.

use crate::types::{QualifiedName, TypeName};
use vstd::prelude::*;

verus! {

/// The mathematical value of an [`AdditionalNeed`].
pub enum NeedView {
    MakeStringConstructor,
    FunctionWrapper(Seq<char>),
    CTypeTypedef(QualifiedName),
}

/// Something that has to be generated on the foreign side for the bindings to
/// work.
#[derive(Debug, PartialEq, Eq)]
pub enum AdditionalNeed {
    /// A function that builds a foreign string from a host string.
    MakeStringConstructor,
    /// A wrapper around the foreign function of this name.
    FunctionWrapper(String),
    /// A typedef that gives a built-in type of platform-defined width the name
    /// under which the bridge knows it.
    CTypeTypedef(TypeName),
}

impl View for AdditionalNeed {
    type V = NeedView;

    open spec fn view(&self) -> NeedView {
        match self {
            AdditionalNeed::MakeStringConstructor => NeedView::MakeStringConstructor,
            AdditionalNeed::FunctionWrapper(name) => NeedView::FunctionWrapper(name@),
            AdditionalNeed::CTypeTypedef(ty) => NeedView::CTypeTypedef(ty@),
        }
    }
}

/// The values of a sequence of needs.
pub open spec fn needs(v: Seq<AdditionalNeed>) -> Seq<NeedView> {
    Seq::new(v.len(), |i: int| v[i]@)
}

} // verus!

//! The built-in types whose width the platform decides.

use crate::types::{type_names, QualifiedName, TypeName};
use vstd::prelude::*;

verus! {

/// The table of built-in foreign types of platform-defined width. A type in
/// this table needs a typedef on the foreign side and an alias in the bridge
/// before the two sides agree on it.
pub struct KnownTypes {
    ctypes: Vec<TypeName>,
}

impl KnownTypes {
    /// Whether `ty` is in the table.
    pub closed spec fn recognizes(&self, ty: QualifiedName) -> bool {
        type_names(self.ctypes@).contains(ty)
    }

    /// The table that holds exactly `ctypes`.
    pub fn new(ctypes: Vec<TypeName>) -> (table: Self)
        ensures
            forall|ty: QualifiedName| table.recognizes(ty) <==> type_names(ctypes@).contains(ty),
    {
        KnownTypes { ctypes }
    }

    /// Whether `ty` is one of the types of platform-defined width.
    pub fn is_ctype(&self, ty: &TypeName) -> (known: bool)
        ensures
            known == self.recognizes(ty@),
    {
        let mut i: usize = 0;
        while i < self.ctypes.len()
            invariant
                i <= self.ctypes.len(),
                forall|j: int| 0 <= j < i ==> self.ctypes@[j]@ != ty@,
            decreases self.ctypes.len() - i,
        {
            if self.ctypes[i] == *ty {
                assert(type_names(self.ctypes@)[i as int] == ty@);
                return true;
            }
            i += 1;
        }
        false
    }
}

} // verus!

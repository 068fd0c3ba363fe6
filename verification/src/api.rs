//! The records that the conversion phase hands to the assembly stage, and the
//! reasons for which converting a declaration can fail.

use crate::additional_cpp::AdditionalNeed;
use crate::types::{cpp_name, display_suffix, Namespace, QualifiedName, TypeName};
use crate::use_statements::UseStatements;
use vstd::prelude::*;

verus! {

/// Why a declaration of the foreign interface could not be converted.
#[derive(Debug)]
pub enum ConvertError {
    /// The whole run produced nothing that could be converted.
    NoContent,
    /// A type that was asked for by value is not safe to hold by value.
    UnsafePODType(String),
    /// The foreign block of the input held something unrecognized.
    UnexpectedForeignItem,
    /// The outermost module of the input held something unrecognized.
    UnexpectedOuterItem,
    /// A namespace module of the input held something unrecognized.
    UnexpectedItemInMod,
    /// The target of an alias is too complex to be expressed again.
    ComplexTypedefTarget(String),
    /// The receiver type of a member function could not be resolved.
    UnexpectedThisType(Namespace, String),
    /// A built-in foreign type has no known mapping.
    UnsupportedBuiltInType(TypeName),
    /// The receiver of a member function is an untyped pointer.
    VirtualThisType(Namespace, String),
    /// A type and the target of its typedef both carry template arguments.
    ConflictingTemplatedArgsWithTypedef(TypeName),
}

/// What becomes of a declaration whose conversion failed.
#[derive(Debug)]
pub enum Outcome {
    /// The declaration is left out and the run goes on.
    Skip,
    /// The run ends with this message.
    Abort(String),
}

impl ConvertError {
    /// The message shown to the user for this error.
    pub open spec fn message_text(&self) -> Seq<char> {
        match self {
            ConvertError::NoContent =>
                "The initial run of 'bindgen' did not generate any content. This might be because none of the requested items for generation could be converted."@,
            ConvertError::UnsafePODType(err) =>
                "An item was requested using 'generate_pod' which was not safe to hold by value in Rust. "@
                    + err@,
            ConvertError::UnexpectedForeignItem =>
                "Bindgen generated some unexpected code in a foreign mod section. You may have specified something in a 'generate' directive which is not currently compatible with autocxx."@,
            ConvertError::UnexpectedOuterItem =>
                "Bindgen generated some unexpected code in its outermost mod section. You may have specified something in a 'generate' directive which is not currently compatible with autocxx."@,
            ConvertError::UnexpectedItemInMod =>
                "Bindgen generated some unexpected code in an inner namespace mod. You may have specified something in a 'generate' directive which is not currently compatible with autocxx."@,
            ConvertError::ComplexTypedefTarget(ty) =>
                "autocxx was unable to produce a typdef pointing to the complex type "@ + ty@
                    + "."@,
            ConvertError::UnexpectedThisType(ns, fn_name) =>
                "Unexpected type for 'this' in the function "@ + fn_name@ + display_suffix(ns@)
                    + "."@,
            ConvertError::UnsupportedBuiltInType(ty) =>
                "autocxx does not yet know how to support the built-in C++ type "@ + cpp_name(
                    ty@,
                ) + " - please raise an issue on github"@,
            ConvertError::VirtualThisType(ns, fn_name) =>
                "Member function encountered where the 'this' type is 'void*', but we were unable to recognize which type that corresponds to. Function "@
                    + fn_name@ + display_suffix(ns@) + "."@,
            ConvertError::ConflictingTemplatedArgsWithTypedef(ty) =>
                "Type "@ + cpp_name(ty@)
                    + " has templatd arguments and so does the typedef to which it points"@,
        }
    }

    /// The message shown to the user for this error.
    pub fn message(&self) -> (text: String)
        ensures
            text@ == self.message_text(),
    {
        match self {
            ConvertError::NoContent => String::from_str(
                "The initial run of 'bindgen' did not generate any content. This might be because none of the requested items for generation could be converted.",
            ),
            ConvertError::UnsafePODType(err) => {
                let mut text = String::from_str(
                    "An item was requested using 'generate_pod' which was not safe to hold by value in Rust. ",
                );
                text.append(err.as_str());
                text
            },
            ConvertError::UnexpectedForeignItem => String::from_str(
                "Bindgen generated some unexpected code in a foreign mod section. You may have specified something in a 'generate' directive which is not currently compatible with autocxx.",
            ),
            ConvertError::UnexpectedOuterItem => String::from_str(
                "Bindgen generated some unexpected code in its outermost mod section. You may have specified something in a 'generate' directive which is not currently compatible with autocxx.",
            ),
            ConvertError::UnexpectedItemInMod => String::from_str(
                "Bindgen generated some unexpected code in an inner namespace mod. You may have specified something in a 'generate' directive which is not currently compatible with autocxx.",
            ),
            ConvertError::ComplexTypedefTarget(ty) => {
                let mut text = String::from_str(
                    "autocxx was unable to produce a typdef pointing to the complex type ",
                );
                text.append(ty.as_str());
                text.append(".");
                text
            },
            ConvertError::UnexpectedThisType(ns, fn_name) => {
                let mut text = String::from_str("Unexpected type for 'this' in the function ");
                text.append(fn_name.as_str());
                let suffix = ns.to_display_suffix();
                text.append(suffix.as_str());
                text.append(".");
                text
            },
            ConvertError::UnsupportedBuiltInType(ty) => {
                let mut text = String::from_str(
                    "autocxx does not yet know how to support the built-in C++ type ",
                );
                let name = ty.to_cpp_name();
                text.append(name.as_str());
                text.append(" - please raise an issue on github");
                text
            },
            ConvertError::VirtualThisType(ns, fn_name) => {
                let mut text = String::from_str(
                    "Member function encountered where the 'this' type is 'void*', but we were unable to recognize which type that corresponds to. Function ",
                );
                text.append(fn_name.as_str());
                let suffix = ns.to_display_suffix();
                text.append(suffix.as_str());
                text.append(".");
                text
            },
            ConvertError::ConflictingTemplatedArgsWithTypedef(ty) => {
                let mut text = String::from_str("Type ");
                let name = ty.to_cpp_name();
                text.append(name.as_str());
                text.append(" has templatd arguments and so does the typedef to which it points");
                text
            },
        }
    }

    /// Whether the declaration that caused this error is simply left out. Every
    /// other error ends the run.
    pub fn is_ignorable(&self) -> (ignorable: bool)
        ensures
            ignorable <==> (self is VirtualThisType || self is UnsupportedBuiltInType),
    {
        match self {
            ConvertError::VirtualThisType(_, _) => true,
            ConvertError::UnsupportedBuiltInType(_) => true,
            _ => false,
        }
    }

    /// What becomes of the declaration that caused this error: it is skipped
    /// where the error can be ignored, and the run ends with the error's
    /// message where it cannot.
    pub fn outcome(&self) -> (outcome: Outcome)
        ensures
            (self is VirtualThisType || self is UnsupportedBuiltInType) ==> outcome is Skip,
            !(self is VirtualThisType || self is UnsupportedBuiltInType) ==> outcome is Abort
                && outcome->Abort_0@ == self.message_text(),
    {
        if self.is_ignorable() {
            Outcome::Skip
        } else {
            Outcome::Abort(self.message())
        }
    }
}

/// Whether, and under which name, a declaration is exposed to the users of the
/// generated code.
pub enum Use {
    /// Not exposed.
    Unused,
    /// Exposed under its own name.
    Used,
    /// Exposed under this other name.
    UsedWithAlias(String),
}

/// One convertible declaration of the foreign interface: where it lives, how
/// it is exposed, and the fragments of syntax it contributes to each part of
/// the output.
pub struct Api {
    /// The namespace of the declaration.
    pub ns: Namespace,
    /// The name of the declaration.
    pub id: String,
    /// Whether and how the declaration is re-exported.
    pub use_stmt: Use,
    /// The types that the declaration mentions.
    pub deps: Vec<TypeName>,
    /// What the declaration adds to the foreign block of the bridge.
    pub extern_c_mod_item: Option<syn::ForeignItem>,
    /// What the declaration adds to the bridge module.
    pub bridge_items: Vec<syn::Item>,
    /// What the declaration adds at the top level of the output.
    pub global_items: Vec<syn::Item>,
    /// What the declaration needs on the foreign side.
    pub additional_cpp: Option<AdditionalNeed>,
    /// The name under which the declaration is looked up in the allow list,
    /// where that is neither its own name nor its alias.
    pub id_for_allowlist: Option<String>,
    /// What the declaration adds to the regenerated declarations.
    pub bindgen_mod_item: Option<syn::Item>,
    /// What the declaration adds to the methods of the type named `id`.
    pub impl_entry: Option<syn::ImplItem>,
}

impl Api {
    /// The name under which the declaration is looked up in the allow list: the
    /// override where there is one, else the alias where there is one, else
    /// the declaration's own name.
    pub open spec fn allowlist_name(&self) -> Seq<char> {
        match self.id_for_allowlist {
            Some(id) => id@,
            None => match self.use_stmt {
                Use::UsedWithAlias(alias) => alias@,
                _ => self.id@,
            },
        }
    }

    /// The qualified name of the declaration.
    pub fn typename(&self) -> (name: TypeName)
        ensures
            name@ == (QualifiedName { ns: self.ns@, name: self.id@ }),
    {
        TypeName::new(&self.ns, self.id.as_str())
    }

    /// The qualified name under which the declaration is looked up in the allow
    /// list.
    pub fn typename_for_allowlist(&self) -> (name: TypeName)
        ensures
            name@ == (QualifiedName { ns: self.ns@, name: self.allowlist_name() }),
    {
        let id_for_allowlist = match &self.id_for_allowlist {
            None => match &self.use_stmt {
                Use::UsedWithAlias(alias) => alias,
                _ => &self.id,
            },
            Some(id) => id,
        };
        TypeName::new(&self.ns, id_for_allowlist.as_str())
    }
}

/// What the conversion phase hands over: the records, and the use statements
/// of the input by namespace.
pub struct ParseResults {
    pub apis: Vec<Api>,
    pub use_stmts_by_mod: UseStatements,
}

} // verus!

//! The assembly stage of a binding generator.
//!
//! A flat list of [`api::Api`] records, each describing one convertible
//! declaration of the foreign interface, is merged into the items that make up
//! the generated code: the regenerated declarations nested by namespace, one
//! bridge module, and a tree of re-exports nested by namespace. Alongside the
//! items comes the list of requests for code on the foreign side.
//!
//! Fragments of syntax are carried through as `syn` values and never looked
//! into. What this stage adds around them is described by [`output::OutputItem`],
//! so that every result has a mathematical value which the contracts state.

pub mod additional_cpp;
pub mod api;
pub mod codegen;
pub mod codegen_spec;
pub mod known_types;
pub mod namespace_organizer;
pub mod output;
pub mod sequences;
pub mod syntax;
pub mod types;
pub mod use_statements;

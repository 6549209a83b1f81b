//! A compiler from a small expression language to C, as a sequence of verified passes over
//! a syntax tree.
use vstd::prelude::*;

pub mod ast;
pub mod text;
pub mod entry_list;
pub mod names;
pub mod errors;
pub mod wrap;
pub mod tree;
pub mod convert_names;
pub mod explicate;
pub mod bindings;
pub mod flatten_names;
pub mod flatten_definitions;
pub mod flatten_operands;
pub mod flatten_bindings;
pub mod operators;
pub mod infer;
pub mod check;
pub mod c_convert;
pub mod compiler;
pub mod parse;
pub mod validate_nodes;
pub mod check_types;
pub mod format_context;
pub mod format_node;
pub mod remove_single_sequences;
pub mod insert_returns;
pub mod make_definition_names_unique;
pub mod extract_sequences;
pub mod extract_conditionals;
pub mod extract_conditionals_domain;
pub mod write_c;
pub mod simplify_bindings;
pub mod infer_types;
pub mod build_definition_types;
pub mod pass_messages;
pub mod specs_source;
pub mod specs_flat;
pub mod specs_c_convert;

verus! {
} // verus!

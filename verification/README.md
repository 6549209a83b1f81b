# lib: a verified compiler from a small expression language to C

The library is a sequence of passes over a syntax tree (`ast`), each written in Verus with a
contract that states exactly what it does to the tree, over a mathematical model of the tree
(`NodeSpec`). Laws about the passes (what every pass keeps, what it leaves behind) are proof
functions next to them.

- `src/ast.rs`, `src/tree.rs`: the tree, its model, and taking nodes apart and back together.
- `src/compiler.rs`: the pipeline (type inference and checking, flattening of names,
  definitions, operands and bindings, explication of the main function and of returns,
  C names, conversion to C text).
- `src/infer.rs`, `src/check.rs`, `src/flatten_*.rs`, `src/explicate.rs`,
  `src/convert_names.rs`, `src/c_convert.rs`: the passes of the pipeline.
- `src/extract_sequences.rs`, `src/extract_conditionals.rs` (where it applies:
  `src/extract_conditionals_domain.rs`), `src/simplify_bindings.rs`,
  `src/insert_returns.rs`, `src/make_definition_names_unique.rs`,
  `src/remove_single_sequences.rs`, `src/build_definition_types.rs`: further tree passes.
- `src/validate_nodes.rs`, `src/check_types.rs`, `src/specs_source.rs`, `src/specs_flat.rs`:
  validation of trees, with their messages (`src/pass_messages.rs`, `src/errors.rs`).
- `src/format_context.rs`, `src/format_node.rs`, `src/write_c.rs`, `src/specs_c_convert.rs`:
  writing C text.
- `src/infer_types.rs`: type inference over a type environment.
- `src/bindings.rs`, `src/names.rs`, `src/entry_list.rs`: scoped symbol tables and
  temporary names.
- `src/parse.rs`, `src/text.rs`, `src/operators.rs`: reading numerals and writing text.
- `tests/`: tests of the library on concrete trees.
- `app/`: printing of messages and the reading of floating-point literals.

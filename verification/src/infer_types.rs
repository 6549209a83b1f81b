//! Inference of types: each variable takes the type of the symbol it names, operators and
//! calls take the types their operands give them, and sequences take the type of their
//! result; with the environment of symbol types used on the way (the types of the bindings
//! and of the definitions in view, by name).
use vstd::prelude::*;
use crate::ast::{
    arguments_view, group_ast_views, lemma_nodes_view, nodes_view, result_index, Argument,
    ArgumentSpec, Node, NodeSpec, Operator, SequenceMode, Type, TypeSpec, get_result_index,
    node_type,
};
use crate::tree::{
    children, fits, lemma_children_smaller, lemma_size_seq_element, put_children, size, size_seq,
    take_children, tree_all, with_children,
};
use crate::entry_list::{
    entries_map, keys_distinct, lemma_entries_map_empty, lemma_entries_map_index,
    lemma_entries_map_push, lemma_entries_map_update,
};

verus! {

broadcast use group_ast_views;

/// Model of a [`TypeEnvironment`]: the type of each binding and of each definition in view.
pub struct TypeEnvironmentSpec {
    pub bindings: Map<Seq<char>, TypeSpec>,
    pub definitions: Map<Seq<char>, TypeSpec>,
}

/// The type of a symbol: that of the binding of the name if there is one, else that of the
/// definition of the name, if any.
pub open spec fn type_of(e: TypeEnvironmentSpec, name: Seq<char>) -> Option<TypeSpec> {
    if e.bindings.contains_key(name) {
        Some(e.bindings[name])
    } else if e.definitions.contains_key(name) {
        Some(e.definitions[name])
    } else {
        None
    }
}

/// The environment with `name` bound to a value of type `t`.
pub open spec fn env_add_binding(e: TypeEnvironmentSpec, name: Seq<char>, t: TypeSpec) -> TypeEnvironmentSpec {
    TypeEnvironmentSpec { bindings: e.bindings.insert(name, t), definitions: e.definitions }
}

/// The environment with `name` defined with type `t`.
pub open spec fn env_add_definition(e: TypeEnvironmentSpec, name: Seq<char>, t: TypeSpec) -> TypeEnvironmentSpec {
    TypeEnvironmentSpec { bindings: e.bindings, definitions: e.definitions.insert(name, t) }
}

/// The environment of a function body: the definitions in view, and no binding.
pub open spec fn env_definitions_only(e: TypeEnvironmentSpec) -> TypeEnvironmentSpec {
    TypeEnvironmentSpec { bindings: Map::empty(), definitions: e.definitions }
}

/// The model of a list of typed names.
pub open spec fn typed_entries(v: Seq<(String, Type)>) -> Seq<(Seq<char>, TypeSpec)> {
    v.map_values(|p: (String, Type)| (p.0@, p.1@))
}

/// The types of the symbols in view while inferring types.
pub struct TypeEnvironment {
    bindings: Vec<(String, Type)>,
    definitions: Vec<(String, Type)>,
}

/// The index of the entry for `name` in a list, if any.
fn find_entry(v: &Vec<(String, Type)>, name: &String) -> (r: Option<usize>)
    ensures
        match r {
            Some(i) => i < v.len() && v@[i as int].0@ == name@,
            None => forall|i: int| 0 <= i < v.len() ==> #[trigger] v@[i].0@ != name@,
        },
{
    let mut i: usize = 0;
    while i < v.len()
        invariant
            i <= v.len(),
            forall|j: int| 0 <= j < i ==> #[trigger] v@[j].0@ != name@,
        decreases v.len() - i,
    {
        if v[i].0 == *name {
            return Some(i);
        }
        i += 1;
    }
    None
}

/// The list with `name` set to `t` (replacing the entry for `name`, if any).
fn set_entry(v: &mut Vec<(String, Type)>, name: String, t: Type)
    requires
        keys_distinct(typed_entries(old(v)@)),
    ensures
        keys_distinct(typed_entries(final(v)@)),
        entries_map(typed_entries(final(v)@)) == entries_map(typed_entries(old(v)@)).insert(name@, t@),
{
    let ghost old_entries = typed_entries(v@);
    let ghost k = name@;
    let ghost tv = t@;
    match find_entry(v, &name) {
        Some(i) => {
            v.set(i, (name, t));
            proof {
                assert(typed_entries(v@) =~= old_entries.update(i as int, (k, tv)));
                lemma_entries_map_update(old_entries, i as int, tv);
            }
        },
        None => {
            v.push((name, t));
            proof {
                assert(typed_entries(v@) =~= old_entries.push((k, tv)));
                assert forall|j: int| 0 <= j < old_entries.len() implies #[trigger] old_entries[j].0 != k by {
                    assert(old_entries[j].0 == old(v)@[j].0@);
                }
                lemma_entries_map_push(old_entries, k, tv);
            }
        },
    }
}

/// The type of the entry for `name` in a list, if any.
fn get_entry<'a>(v: &'a Vec<(String, Type)>, name: &String) -> (r: Option<&'a Type>)
    requires
        keys_distinct(typed_entries(v@)),
    ensures
        match r {
            Some(t) => entries_map(typed_entries(v@)).contains_key(name@)
                && entries_map(typed_entries(v@))[name@] == t@,
            None => !entries_map(typed_entries(v@)).contains_key(name@),
        },
{
    let ghost entries = typed_entries(v@);
    match find_entry(v, name) {
        Some(i) => {
            proof {
                lemma_entries_map_index(entries, i as int);
            }
            Some(&v[i].1)
        },
        None => {
            proof {
                assert forall|j: int| 0 <= j < entries.len() implies #[trigger] entries[j].0 != name@ by {
                    assert(entries[j].0 == v@[j].0@);
                }
            }
            None
        },
    }
}

/// A copy of a list of typed names.
fn copy_entries(v: &Vec<(String, Type)>) -> (r: Vec<(String, Type)>)
    ensures
        typed_entries(r@) == typed_entries(v@),
{
    let mut r: Vec<(String, Type)> = Vec::new();
    let mut i: usize = 0;
    while i < v.len()
        invariant
            i <= v.len(),
            r.len() == i,
            forall|j: int| 0 <= j < i ==> (#[trigger] r@[j]).0@ == v@[j].0@ && r@[j].1@ == v@[j].1@,
        decreases v.len() - i,
    {
        let name = v[i].0.clone();
        let t = v[i].1.copy();
        r.push((name, t));
        i += 1;
    }
    assert(typed_entries(r@) =~= typed_entries(v@));
    r
}

impl TypeEnvironment {
    /// The model of the environment.
    pub closed spec fn model(&self) -> TypeEnvironmentSpec {
        TypeEnvironmentSpec {
            bindings: entries_map(typed_entries(self.bindings@)),
            definitions: entries_map(typed_entries(self.definitions@)),
        }
    }

    /// Whether each list has one entry per name.
    pub closed spec fn wf(&self) -> bool {
        keys_distinct(typed_entries(self.bindings@)) && keys_distinct(typed_entries(self.definitions@))
    }

    /// Binds `name` to a value of type `binding_type`.
    pub fn add_binding(&mut self, name: String, binding_type: Type)
        requires
            old(self).wf(),
        ensures
            final(self).wf(),
            final(self).model() == env_add_binding(old(self).model(), name@, binding_type@),
    {
        set_entry(&mut self.bindings, name, binding_type);
    }

    /// Defines `name` with type `definition_type`.
    pub fn add_definition(&mut self, name: String, definition_type: Type)
        requires
            old(self).wf(),
        ensures
            final(self).wf(),
            final(self).model() == env_add_definition(old(self).model(), name@, definition_type@),
    {
        set_entry(&mut self.definitions, name, definition_type);
    }

    /// The type of the symbol `name`: its binding's first, then its definition's.
    pub fn get_type_of(&self, name: &String) -> (r: Option<&Type>)
        requires
            self.wf(),
        ensures
            match r {
                Some(t) => type_of(self.model(), name@) == Some(t@),
                None => type_of(self.model(), name@) is None,
            },
    {
        // Check bindings first
        match get_entry(&self.bindings, name) {
            Some(value) => {
                return Some(value);
            },
            None => {},
        }
        // Then check definitions
        get_entry(&self.definitions, name)
    }

    /// An environment with no symbol.
    pub fn new() -> (r: Self)
        ensures
            r.wf(),
            r.model() == (TypeEnvironmentSpec { bindings: Map::empty(), definitions: Map::empty() }),
    {
        let r = Self { bindings: Vec::new(), definitions: Vec::new() };
        proof {
            assert(typed_entries(r.bindings@) =~= Seq::<(Seq<char>, TypeSpec)>::empty());
            assert(typed_entries(r.definitions@) =~= Seq::<(Seq<char>, TypeSpec)>::empty());
            lemma_entries_map_empty::<TypeSpec>();
        }
        r
    }

    /// A copy of this environment, so that inner scopes don't leak bindings or definitions.
    pub fn fork(&self) -> (r: TypeEnvironment)
        requires
            self.wf(),
        ensures
            r.wf(),
            r.model() == self.model(),
    {
        TypeEnvironment {
            bindings: copy_entries(&self.bindings),
            definitions: copy_entries(&self.definitions),
        }
    }

    /// A copy of this environment's definitions, with no binding (for function bodies).
    pub fn fork_definitions_only(&self) -> (r: TypeEnvironment)
        requires
            self.wf(),
        ensures
            r.wf(),
            r.model() == env_definitions_only(self.model()),
    {
        let r = TypeEnvironment { bindings: Vec::new(), definitions: copy_entries(&self.definitions) };
        proof {
            assert(typed_entries(r.bindings@) =~= Seq::<(Seq<char>, TypeSpec)>::empty());
            lemma_entries_map_empty::<TypeSpec>();
        }
        r
    }
}

/// After binding a name, the name has the bound type (whatever was defined under it).
pub proof fn lemma_type_of_added_binding(e: TypeEnvironmentSpec, name: Seq<char>, t: TypeSpec)
    ensures
        type_of(env_add_binding(e, name, t), name) == Some(t),
{
}

/// Binding or defining a name leaves the type of every other name as it was.
pub proof fn lemma_type_of_other_names(
    e: TypeEnvironmentSpec,
    name: Seq<char>,
    other: Seq<char>,
    t: TypeSpec,
)
    requires
        name != other,
    ensures
        type_of(env_add_binding(e, name, t), other) == type_of(e, other),
        type_of(env_add_definition(e, name, t), other) == type_of(e, other),
{
}

/// A definition gives the type of its name only where no binding of the name is in view.
pub proof fn lemma_definition_shadowed_by_binding(e: TypeEnvironmentSpec, name: Seq<char>, t: TypeSpec)
    ensures
        e.bindings.contains_key(name) ==> type_of(env_add_definition(e, name, t), name) == Some(
            e.bindings[name],
        ),
        !e.bindings.contains_key(name) ==> type_of(env_add_definition(e, name, t), name) == Some(t),
{
}

/// In the environment of a function body, a name has the type of its definition, if any:
/// no binding from outside is in view.
pub proof fn lemma_definitions_only_type_of(e: TypeEnvironmentSpec, name: Seq<char>)
    ensures
        type_of(env_definitions_only(e), name) == (if e.definitions.contains_key(name) {
            Some(e.definitions[name])
        } else {
            None
        }),
{
}

/// Whether an operator compares two values.
pub open spec fn is_comparison(op: Operator) -> bool {
    op == Operator::Equal || op == Operator::NotEqual || op == Operator::Less || op
        == Operator::Greater || op == Operator::LessEqual || op == Operator::GreaterEqual
}

/// The type of a primitive operator that does not depend on its operands: `+` takes two
/// integers to an integer; `&&`, `||` and `^` take two booleans to a boolean. The other
/// operators keep their type (theirs is found at the call).
pub open spec fn primitive_operator_type(op: Operator, typ: TypeSpec) -> TypeSpec {
    if op == Operator::Add {
        TypeSpec::Function(seq![TypeSpec::Integer, TypeSpec::Integer], Box::new(TypeSpec::Integer))
    } else if op == Operator::And || op == Operator::Or || op == Operator::ExclusiveOr {
        TypeSpec::Function(seq![TypeSpec::Boolean, TypeSpec::Boolean], Box::new(TypeSpec::Boolean))
    } else {
        typ
    }
}

/// A node after its children, typed: a comparison operator called with two or more operands
/// takes two values of its first operand's type to a boolean, and a call whose operator has
/// a function type gets its return type; a reference has the type of a reference to its
/// target's type; a dereference of a reference has the referenced type; a binding binds its
/// name to the type of its value in the environment.
pub open spec fn exit_typed(m: NodeSpec, e: TypeEnvironmentSpec) -> (NodeSpec, TypeEnvironmentSpec) {
    match m {
        NodeSpec::Call { operator, operands, typ } => {
            let op2 = match *operator {
                NodeSpec::PrimitiveOperator { operator: o, .. } => if is_comparison(o)
                    && operands.len() >= 2 {
                    NodeSpec::PrimitiveOperator {
                        operator: o,
                        typ: TypeSpec::Function(
                            seq![node_type(operands[0]), node_type(operands[0])],
                            Box::new(TypeSpec::Boolean),
                        ),
                    }
                } else {
                    *operator
                },
                _ => *operator,
            };
            let typ2 = match node_type(op2) {
                TypeSpec::Function(_, ret) => *ret,
                _ => typ,
            };
            (NodeSpec::Call { operator: Box::new(op2), operands, typ: typ2 }, e)
        },
        NodeSpec::Reference { mode, target, .. } => (
            NodeSpec::Reference {
                mode,
                target,
                typ: TypeSpec::Reference(mode, Box::new(node_type(*target))),
            },
            e,
        ),
        NodeSpec::Dereference { target, typ } => (
            match node_type(*target) {
                TypeSpec::Reference(_, t) => NodeSpec::Dereference { target, typ: *t },
                _ => m,
            },
            e,
        ),
        NodeSpec::Binding { name, binding } => (m, env_add_binding(e, name, node_type(*binding))),
        _ => (m, e),
    }
}

/// The environment with each function among `nodes` defined with its type, in order.
pub open spec fn env_add_definitions(e: TypeEnvironmentSpec, nodes: Seq<NodeSpec>) -> TypeEnvironmentSpec
    decreases nodes.len(),
{
    if nodes.len() == 0 {
        e
    } else {
        let e1 = env_add_definitions(e, nodes.drop_last());
        match nodes.last() {
            NodeSpec::Function { name, typ, .. } => env_add_definition(e1, name, typ),
            _ => e1,
        }
    }
}

/// The environment with each argument bound to its type, in order.
pub open spec fn env_add_arguments(e: TypeEnvironmentSpec, args: Seq<ArgumentSpec>) -> TypeEnvironmentSpec
    decreases args.len(),
{
    if args.len() == 0 {
        e
    } else {
        env_add_binding(env_add_arguments(e, args.drop_last()), args.last().name, args.last().typ)
    }
}

/// The type of a sequence after inference: that of its result node (its last node that is
/// not a definition), else that of its last node, else void.
pub open spec fn inferred_sequence_type(nodes: Seq<NodeSpec>) -> TypeSpec {
    match result_index(nodes) {
        Some(i) => node_type(nodes[i]),
        None => if nodes.len() > 0 {
            node_type(nodes.last())
        } else {
            TypeSpec::Void
        },
    }
}

/// The tree `n` with its types inferred in the environment `e`, and the environment after
/// it. Children come first, in order, sharing the environment; a scope sequence works in a
/// copy of the environment with the functions it defines added first (a transparent one adds
/// them to the environment itself); a function body works in an environment of the
/// definitions in view and the function's arguments.
pub open spec fn types_inferred(n: NodeSpec, e: TypeEnvironmentSpec) -> (NodeSpec, TypeEnvironmentSpec)
    decreases size(n), 0nat,
{
    proof {
        lemma_children_smaller(n);
    }
    match n {
        NodeSpec::Variable { name, typ } => match type_of(e, name) {
            Some(t) => (NodeSpec::Variable { name, typ: t }, e),
            None => (n, e),
        },
        NodeSpec::PrimitiveOperator { operator, typ } => (
            NodeSpec::PrimitiveOperator { operator, typ: primitive_operator_type(operator, typ) },
            e,
        ),
        NodeSpec::Sequence { mode, nodes, typ } => {
            let r = types_inferred_seq(nodes, env_add_definitions(e, nodes));
            (
                NodeSpec::Sequence { mode, nodes: r.0, typ: inferred_sequence_type(r.0) },
                if mode == SequenceMode::Transparent {
                    r.1
                } else {
                    e
                },
            )
        },
        NodeSpec::Function { name, arguments, return_type, body, typ } => {
            proof {
                assert(children(n)[0] == *body);
            }
            let r = types_inferred(*body, env_add_arguments(env_definitions_only(e), arguments));
            (NodeSpec::Function { name, arguments, return_type, body: Box::new(r.0), typ }, e)
        },
        _ => {
            let r = types_inferred_seq(children(n), e);
            exit_typed(with_children(n, r.0), r.1)
        },
    }
}

/// [`types_inferred`] of each tree of a sequence, in order, threading the environment.
pub open spec fn types_inferred_seq(s: Seq<NodeSpec>, e: TypeEnvironmentSpec) -> (
    Seq<NodeSpec>,
    TypeEnvironmentSpec,
)
    decreases size_seq(s), 1nat,
{
    if s.len() == 0 {
        (s, e)
    } else {
        proof {
            lemma_size_seq_element(s, s.len() - 1);
        }
        let r = types_inferred_seq(s.drop_last(), e);
        let x = types_inferred(s.last(), r.1);
        (r.0.push(x.0), x.1)
    }
}

/// The environment in which inference starts: no symbol.
pub open spec fn empty_type_environment() -> TypeEnvironmentSpec {
    TypeEnvironmentSpec { bindings: Map::empty(), definitions: Map::empty() }
}

/// The tree with its types inferred, from an empty environment.
pub open spec fn tree_types_inferred(root: NodeSpec) -> NodeSpec {
    types_inferred(root, empty_type_environment()).0
}

/// The inferred sequence keeps the number of trees.
pub proof fn lemma_types_inferred_seq_len(s: Seq<NodeSpec>, e: TypeEnvironmentSpec)
    ensures
        types_inferred_seq(s, e).0.len() == s.len(),
    decreases s.len(),
{
    if s.len() > 0 {
        lemma_types_inferred_seq_len(s.drop_last(), e);
    }
}

/// Whether a node's type agrees with what inference gives it from its children: a sequence
/// has the type of its result; `+`, `&&`, `||` and `^` have their fixed function types; a
/// call whose operator has a function type has its return type; a reference has the type
/// of a reference to its target's type; a dereference of a reference has the referenced
/// type.
pub open spec fn inference_settled(m: NodeSpec) -> bool {
    match m {
        NodeSpec::Sequence { nodes, typ, .. } => typ == inferred_sequence_type(nodes),
        NodeSpec::PrimitiveOperator { operator, typ } => (operator == Operator::Add || operator
            == Operator::And || operator == Operator::Or || operator == Operator::ExclusiveOr)
            ==> typ == primitive_operator_type(operator, typ),
        NodeSpec::Call { operator, typ, .. } => node_type(*operator) matches TypeSpec::Function(
            _,
            ret,
        ) ==> typ == *ret,
        NodeSpec::Reference { mode, target, typ } => typ == TypeSpec::Reference(
            mode,
            Box::new(node_type(*target)),
        ),
        NodeSpec::Dereference { target, typ } => node_type(*target) matches TypeSpec::Reference(
            _,
            t,
        ) ==> typ == *t,
        _ => true,
    }
}

/// After inference, every node of the tree has the type that inference gives it from its
/// children (see [`inference_settled`]).
pub proof fn lemma_inference_settled(n: NodeSpec, e: TypeEnvironmentSpec)
    ensures
        tree_all(types_inferred(n, e).0, |m: NodeSpec| inference_settled(m)),
    decreases size(n), 0nat,
{
    let p = |m: NodeSpec| inference_settled(m);
    lemma_children_smaller(n);
    let out = types_inferred(n, e).0;
    match n {
        NodeSpec::Variable { .. } => {},
        NodeSpec::PrimitiveOperator { .. } => {},
        NodeSpec::Sequence { nodes, .. } => {
            let r = types_inferred_seq(nodes, env_add_definitions(e, nodes));
            lemma_inference_settled_seq(nodes, env_add_definitions(e, nodes));
            crate::tree::lemma_tree_all_seq(r.0, p);
        },
        NodeSpec::Function { body, .. } => {
            assert(children(n)[0] == *body);
            let r = types_inferred(*body, env_add_arguments(env_definitions_only(e), n->Function_arguments));
            lemma_inference_settled(*body, env_add_arguments(env_definitions_only(e), n->Function_arguments));
            assert(children(out) =~= seq![r.0]);
            crate::tree::lemma_tree_all_seq(children(out), p);
        },
        _ => {
            let r = types_inferred_seq(children(n), e);
            lemma_inference_settled_seq(children(n), e);
            lemma_types_inferred_seq_len(children(n), e);
            crate::tree::lemma_fits_children(n);
            crate::flatten_definitions::lemma_children_of_with_children(n, r.0);
            let m = with_children(n, r.0);
            assert(children(m) == r.0);
            match m {
                NodeSpec::Call { operator, operands, .. } => {
                    let op2 = out->Call_operator;
                    assert(children(m) == seq![*operator] + operands);
                    assert(children(out) =~= seq![*op2] + operands);
                    assert(tree_all(*op2, p)) by {
                        if *op2 != *operator {
                            assert(children(*op2) =~= Seq::<NodeSpec>::empty());
                            crate::tree::lemma_tree_all_seq(children(*op2), p);
                        } else {
                            assert(r.0[0] == *operator);
                        }
                    }
                    assert forall|i: int| 0 <= i < children(out).len() implies tree_all(
                        #[trigger] children(out)[i],
                        p,
                    ) by {
                        if i > 0 {
                            assert(children(out)[i] == r.0[i]);
                        }
                    }
                    crate::tree::lemma_tree_all_seq(children(out), p);
                },
                NodeSpec::Reference { .. } | NodeSpec::Dereference { .. } => {
                    assert(children(out) == children(m));
                    crate::tree::lemma_tree_all_seq(children(out), p);
                },
                _ => {
                    assert(out == m);
                    crate::tree::lemma_tree_all_seq(children(out), p);
                },
            }
        },
    }
}

/// [`lemma_inference_settled`] for each tree of a sequence.
pub proof fn lemma_inference_settled_seq(s: Seq<NodeSpec>, e: TypeEnvironmentSpec)
    ensures
        types_inferred_seq(s, e).0.len() == s.len(),
        forall|i: int| 0 <= i < s.len() ==> tree_all(
            #[trigger] types_inferred_seq(s, e).0[i],
            |m: NodeSpec| inference_settled(m),
        ),
    decreases size_seq(s), 1nat,
{
    lemma_types_inferred_seq_len(s, e);
    if s.len() > 0 {
        lemma_size_seq_element(s, s.len() - 1);
        let r = types_inferred_seq(s.drop_last(), e);
        lemma_inference_settled_seq(s.drop_last(), e);
        lemma_inference_settled(s.last(), r.1);
        let out = types_inferred_seq(s, e).0;
        assert forall|i: int| 0 <= i < s.len() implies tree_all(
            #[trigger] out[i],
            |m: NodeSpec| inference_settled(m),
        ) by {
            if i < s.len() - 1 {
                assert(out[i] == r.0[i]);
            }
        }
    }
}

/// After inferring a binding, its name has the type of its (inferred) value.
pub proof fn lemma_binding_takes_value_type(n: NodeSpec, e: TypeEnvironmentSpec)
    requires
        n is Binding,
    ensures
        types_inferred(n, e).0 is Binding,
        type_of(types_inferred(n, e).1, n->Binding_name) == Some(
            node_type(*types_inferred(n, e).0->Binding_binding),
        ),
{
    let r = types_inferred_seq(children(n), e);
    lemma_types_inferred_seq_len(children(n), e);
}

/// Whether an operator compares two values (see [`is_comparison`]).
fn is_comparison_operator(op: Operator) -> (r: bool)
    ensures
        r == is_comparison(op),
{
    match op {
        Operator::Equal | Operator::NotEqual | Operator::Less | Operator::Greater
        | Operator::LessEqual | Operator::GreaterEqual => true,
        _ => false,
    }
}

/// The function type from two values of type `a` to a value of type `r`.
fn binary_function_type(a: Type, r: Type) -> (t: Type)
    ensures
        t@ == TypeSpec::Function(seq![a@, a@], Box::new(r@)),
{
    let mut args: Vec<Type> = Vec::new();
    args.push(a.copy());
    args.push(a);
    proof {
        broadcast use crate::ast::lemma_types_view;
    }
    let t = Type::Function(args, Box::new(r));
    proof {
        broadcast use crate::ast::lemma_types_view;
        assert(crate::ast::types_view(args) =~= seq![a@, a@]);
    }
    t
}

/// The type of a primitive operator (see [`primitive_operator_type`]).
fn primitive_type(op: Operator, typ: Type) -> (r: Type)
    ensures
        r@ == primitive_operator_type(op, typ@),
{
    match op {
        Operator::Add => binary_function_type(Type::Integer, Type::Integer),
        Operator::And | Operator::Or | Operator::ExclusiveOr => binary_function_type(
            Type::Boolean,
            Type::Boolean,
        ),
        _ => typ,
    }
}

/// The type of a sequence after inference (see [`inferred_sequence_type`]).
fn sequence_result_type(nodes: &Vec<Node>) -> (r: Type)
    ensures
        r@ == inferred_sequence_type(nodes_view(*nodes)),
{
    proof {
        lemma_nodes_view(*nodes);
        crate::ast::lemma_result_index(nodes_view(*nodes));
    }
    match get_result_index(nodes) {
        Some(i) => nodes[i].get_type(),
        None => {
            if nodes.len() > 0 {
                nodes[nodes.len() - 1].get_type()
            } else {
                Type::Void
            }
        },
    }
}

/// Defines each function among `nodes` with its type, in order.
fn collect_definition_types(nodes: &Vec<Node>, environment: &mut TypeEnvironment)
    requires
        old(environment).wf(),
    ensures
        final(environment).wf(),
        final(environment).model() == env_add_definitions(old(environment).model(), nodes_view(*nodes)),
{
    proof {
        lemma_nodes_view(*nodes);
    }
    let ghost ns = nodes_view(*nodes);
    let ghost e0 = environment.model();
    let mut i: usize = 0;
    assert(ns.take(0) =~= Seq::<NodeSpec>::empty());
    while i < nodes.len()
        invariant
            i <= nodes.len(),
            ns == nodes_view(*nodes),
            ns.len() == nodes.len(),
            forall|j: int| 0 <= j < nodes.len() ==> ns[j] == (#[trigger] nodes@[j])@,
            environment.wf(),
            environment.model() == env_add_definitions(e0, ns.take(i as int)),
        decreases nodes.len() - i,
    {
        let ghost t = ns.take(i + 1);
        assert(t.drop_last() =~= ns.take(i as int));
        assert(t.last() == ns[i as int]);
        match &nodes[i] {
            Node::Function { name, typ, .. } => {
                environment.add_definition(name.clone(), typ.copy());
            },
            _ => {},
        }
        i += 1;
    }
    assert(ns.take(nodes.len() as int) =~= ns);
}

/// Binds each argument to its type, in order.
fn add_argument_bindings(arguments: &Vec<Argument>, environment: &mut TypeEnvironment)
    requires
        old(environment).wf(),
    ensures
        final(environment).wf(),
        final(environment).model() == env_add_arguments(old(environment).model(), arguments_view(*arguments)),
{
    let ghost args = arguments_view(*arguments);
    let ghost e0 = environment.model();
    let mut i: usize = 0;
    assert(args.take(0) =~= Seq::<ArgumentSpec>::empty());
    while i < arguments.len()
        invariant
            i <= arguments.len(),
            args == arguments_view(*arguments),
            args.len() == arguments.len(),
            environment.wf(),
            environment.model() == env_add_arguments(e0, args.take(i as int)),
        decreases arguments.len() - i,
    {
        let ghost t = args.take(i + 1);
        assert(t.drop_last() =~= args.take(i as int));
        assert(t.last() == args[i as int]);
        assert(args[i as int] == arguments@[i as int]@);
        environment.add_binding(arguments[i].name.clone(), arguments[i].typ.copy());
        i += 1;
    }
    assert(args.take(arguments.len() as int) =~= args);
}

/// A node after its children, typed (see [`exit_typed`]).
fn type_after_children(m: Node, environment: &mut TypeEnvironment) -> (r: Node)
    requires
        old(environment).wf(),
    ensures
        final(environment).wf(),
        (r@, final(environment).model()) == exit_typed(m@, old(environment).model()),
{
    let ghost mv = m@;
    let ghost e0 = environment.model();
    match m {
        Node::Call { operator, operands, typ } => {
            let op = *operator;
            let ghost ov = nodes_view(operands);
            let op2 = match op {
                Node::PrimitiveOperator { operator: o, typ: ot } => {
                    if is_comparison_operator(o) && operands.len() >= 2 {
                        let a = operands[0].get_type();
                        assert(a@ == node_type(ov[0]));
                        Node::PrimitiveOperator {
                            operator: o,
                            typ: binary_function_type(a, Type::Boolean),
                        }
                    } else {
                        Node::PrimitiveOperator { operator: o, typ: ot }
                    }
                },
                other => other,
            };
            let t2 = match op2.get_type() {
                Type::Function(_, ret) => *ret,
                _ => typ,
            };
            let r = Node::Call { operator: Box::new(op2), operands, typ: t2 };
            assert(r@ == exit_typed(mv, e0).0);
            r
        },
        Node::Reference { mode, target, typ } => {
            let t = target.get_type();
            Node::Reference { mode, target, typ: Type::Reference(mode, Box::new(t)) }
        },
        Node::Dereference { target, typ } => {
            match target.get_type() {
                Type::Reference(_, inner) => Node::Dereference { target, typ: *inner },
                _ => Node::Dereference { target, typ },
            }
        },
        Node::Binding { name, binding } => {
            let t = binding.get_type();
            environment.add_binding(name.clone(), t);
            Node::Binding { name, binding }
        },
        other => other,
    }
}

/// Infers the types of the trees of a list, in order, threading the environment.
fn infer_list(nodes: Vec<Node>, environment: &mut TypeEnvironment) -> (r: Vec<Node>)
    requires
        old(environment).wf(),
    ensures
        final(environment).wf(),
        (nodes_view(r), final(environment).model()) == types_inferred_seq(
            nodes_view(nodes),
            old(environment).model(),
        ),
    decreases size_seq(nodes_view(nodes)), 1nat,
{
    let ghost cs = nodes_view(nodes);
    let ghost e0 = environment.model();
    let mut done: Vec<Node> = Vec::new();
    let mut rest = nodes;
    proof {
        lemma_nodes_view(rest);
        lemma_nodes_view(done);
        assert(cs.take(0) =~= Seq::<NodeSpec>::empty());
        assert forall|j: int| 0 <= j < cs.len() implies size(#[trigger] cs[j]) <= size_seq(cs) by {
            lemma_size_seq_element(cs, j);
        }
    }
    while rest.len() > 0
        invariant
            done.len() + rest.len() == cs.len(),
            forall|j: int| 0 <= j < rest.len() ==> (#[trigger] rest@[j])@ == cs[done.len() + j],
            forall|j: int| 0 <= j < cs.len() ==> size(#[trigger] cs[j]) <= size_seq(cs),
            cs == nodes_view(nodes),
            environment.wf(),
            (nodes_view(done), environment.model()) == types_inferred_seq(
                cs.take(done.len() as int),
                e0,
            ),
        decreases rest.len(),
    {
        let ghost i = done.len() as int;
        let ghost before = rest@;
        let k = rest.remove(0);
        assert(k@ == cs[i]);
        let ghost dv = nodes_view(done);
        let ghost env_before = environment.model();
        proof {
            lemma_nodes_view(done);
        }
        let k2 = infer_type(k, environment);
        let ghost kv = k2@;
        done.push(k2);
        proof {
            lemma_nodes_view(done);
            assert(nodes_view(done) =~= dv.push(kv));
            let t = cs.take(i + 1);
            assert(t.drop_last() =~= cs.take(i));
            assert(t.last() == cs[i]);
            assert(nodes_view(done) =~= types_inferred_seq(t, e0).0);
            assert forall|j: int| 0 <= j < rest.len() implies (#[trigger] rest@[j])@
                == cs[done.len() + j] by {
                assert(rest@[j] == before[j + 1]);
            }
        }
    }
    assert(cs.take(cs.len() as int) =~= cs);
    done
}

/// Infers the types of a tree (see [`types_inferred`]).
fn infer_type(node: Node, environment: &mut TypeEnvironment) -> (r: Node)
    requires
        old(environment).wf(),
    ensures
        final(environment).wf(),
        (r@, final(environment).model()) == types_inferred(node@, old(environment).model()),
    decreases size(node@), 0nat,
{
    let ghost n = node@;
    proof {
        lemma_children_smaller(n);
    }
    match node {
        Node::Variable { name, typ } => {
            match environment.get_type_of(&name) {
                Some(t) => {
                    let t2 = t.copy();
                    Node::Variable { name, typ: t2 }
                },
                None => Node::Variable { name, typ },
            }
        },
        Node::PrimitiveOperator { operator, typ } => {
            Node::PrimitiveOperator { operator, typ: primitive_type(operator, typ) }
        },
        Node::Sequence { mode, nodes, typ } => {
            match mode {
                SequenceMode::Scope => {
                    let mut inner = environment.fork();
                    collect_definition_types(&nodes, &mut inner);
                    let done = infer_list(nodes, &mut inner);
                    let t = sequence_result_type(&done);
                    Node::Sequence { mode, nodes: done, typ: t }
                },
                SequenceMode::Transparent => {
                    collect_definition_types(&nodes, environment);
                    let done = infer_list(nodes, environment);
                    let t = sequence_result_type(&done);
                    Node::Sequence { mode, nodes: done, typ: t }
                },
            }
        },
        Node::Function { name, arguments, return_type, body, typ } => {
            let mut inner = environment.fork_definitions_only();
            add_argument_bindings(&arguments, &mut inner);
            assert(children(n)[0] == (*body)@);
            let b = infer_type(*body, &mut inner);
            Node::Function { name, arguments, return_type, body: Box::new(b), typ }
        },
        other => {
            let (shell, kids) = take_children(other);
            let done = infer_list(kids, environment);
            proof {
                lemma_nodes_view(done);
                lemma_types_inferred_seq_len(children(n), old(environment).model());
            }
            let m = put_children(shell, done);
            type_after_children(m, environment)
        },
    }
}

/// Infers the types of the whole tree, starting from an empty environment.
pub fn apply(root: &mut Node)
    ensures
        final(root)@ == tree_types_inferred(old(root)@),
{
    let mut environment = TypeEnvironment::new();
    let n = root.extract_temp();
    *root = infer_type(n, &mut environment);
}

} // verus!

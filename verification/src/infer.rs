//! Infer Types pass: fills in the type of every node.
use vstd::prelude::*;
use crate::ast::{
    get_result_index, group_ast_views, lemma_nodes_view, lemma_result_index, lemma_types_view,
    arguments_view, node_type, nodes_view, sequence_type, types_view, Argument, ArgumentSpec,
    Node, NodeSpec, Operator, Type, TypeSpec,
};
use crate::bindings::{
    function_spec_name, functions_spec, lemma_added_bindings, lemma_added_definitions,
    lemma_functions_of, state_add_binding, state_add_bindings, state_add_definitions,
    state_enter, state_leave, state_lookup, state_root, state_wf, BindingState, StateSpec,
};
use crate::errors::{errors_view, Error, ErrorSpec, ResultLog};
use crate::flatten_names::opens_scope;
use crate::operators::{operator_c_form, operator_c_text};
use crate::text::{push_str, text};
use crate::tree::{
    child_refs, children, lemma_children_smaller, lemma_size_seq_element, lemma_tree_all_children,
    lemma_tree_all_seq, put_children, size, size_seq, take_children, tree_all, with_children,
};

verus! {

broadcast use group_ast_views;

/// The type of a logic operator: `(bool bool -> bool)` for the binary ones, `(bool -> bool)`
/// for `not`; other operators keep the type they have.
pub open spec fn logic_operator_type(op: Operator, typ: TypeSpec) -> TypeSpec {
    match op {
        Operator::And | Operator::Or | Operator::ExclusiveOr => TypeSpec::Function(
            seq![TypeSpec::Boolean, TypeSpec::Boolean],
            Box::new(TypeSpec::Boolean),
        ),
        Operator::Not => TypeSpec::Function(seq![TypeSpec::Boolean], Box::new(TypeSpec::Boolean)),
        _ => typ,
    }
}

/// Whether the type of a primitive operator is inferred from its operands.
pub open spec fn is_inferred_operator(op: Operator) -> bool {
    match op {
        Operator::Subtract | Operator::Add | Operator::Multiply | Operator::Divide
        | Operator::Greater | Operator::Less | Operator::GreaterEqual | Operator::LessEqual
        | Operator::Equal | Operator::NotEqual => true,
        _ => false,
    }
}

/// Whether `ts` is exactly the two types `a`, `b`.
pub open spec fn is_pair(ts: Seq<TypeSpec>, a: TypeSpec, b: TypeSpec) -> bool {
    ts.len() == 2 && ts[0] == a && ts[1] == b
}

/// Whether `ts` is exactly the one type `a`.
pub open spec fn is_single(ts: Seq<TypeSpec>, a: TypeSpec) -> bool {
    ts.len() == 1 && ts[0] == a
}

/// Whether `ts` is two numbers of which at least one is a float.
pub open spec fn is_mixed_numbers(ts: Seq<TypeSpec>) -> bool {
    is_pair(ts, TypeSpec::Float, TypeSpec::Float) || is_pair(ts, TypeSpec::Integer, TypeSpec::Float)
        || is_pair(ts, TypeSpec::Float, TypeSpec::Integer)
}

/// The result type of a primitive operator applied to operands of types `ts`, when the
/// table of the operator has a line for them.
///
/// - `-`: (int int), (float float), (int float), (float int), (float), (int)
/// - `+`, `*`, `/`: (int int) gives int; two numbers with a float give float
/// - `<`, `>`, `<=`, `>=`: two numbers give bool
/// - `==`, `!=`: two numbers, or (bool bool), give bool
pub open spec fn primitive_result(op: Operator, ts: Seq<TypeSpec>) -> Option<TypeSpec> {
    match op {
        Operator::Subtract => if is_pair(ts, TypeSpec::Integer, TypeSpec::Integer) {
            Some(TypeSpec::Integer)
        } else if is_mixed_numbers(ts) {
            Some(TypeSpec::Float)
        } else if is_single(ts, TypeSpec::Float) {
            Some(TypeSpec::Float)
        } else if is_single(ts, TypeSpec::Integer) {
            Some(TypeSpec::Integer)
        } else {
            None
        },
        Operator::Add | Operator::Multiply | Operator::Divide => if is_pair(
            ts,
            TypeSpec::Integer,
            TypeSpec::Integer,
        ) {
            Some(TypeSpec::Integer)
        } else if is_mixed_numbers(ts) {
            Some(TypeSpec::Float)
        } else {
            None
        },
        Operator::Greater | Operator::Less | Operator::GreaterEqual | Operator::LessEqual => if is_pair(
            ts,
            TypeSpec::Integer,
            TypeSpec::Integer,
        ) || is_mixed_numbers(ts) {
            Some(TypeSpec::Boolean)
        } else {
            None
        },
        Operator::Equal | Operator::NotEqual => if is_pair(ts, TypeSpec::Integer, TypeSpec::Integer)
            || is_mixed_numbers(ts) || is_pair(ts, TypeSpec::Boolean, TypeSpec::Boolean) {
            Some(TypeSpec::Boolean)
        } else {
            None
        },
        _ => None,
    }
}

/// The types of a sequence of nodes.
pub open spec fn operand_types(s: Seq<NodeSpec>) -> Seq<TypeSpec> {
    s.map_values(|n: NodeSpec| node_type(n))
}

/// The message of an error about operands that no line of an operator's table accepts.
pub open spec fn unexpected_operands_message(op: Operator) -> Seq<char> {
    seq!['U', 'n', 'e', 'x', 'p', 'e', 'c', 't', 'e', 'd', ' ', 'o', 'p', 'e', 'r', 'a', 'n', 'd', 's', ' ', 'f', 'o', 'r', ' ', 'p', 'r', 'i', 'm', 'i', 't', 'i', 'v', 'e', ' ', 'o', 'p', 'e', 'r', 'a', 't', 'o', 'r', ':', ' '] + operator_c_form(op).1
}

/// The message of an error about an operator whose type is not inferred from operands.
pub open spec fn unexpected_operator_message(op: Operator) -> Seq<char> {
    seq!['U', 'n', 'e', 'x', 'p', 'e', 'c', 't', 'e', 'd', ' ', 'p', 'r', 'i', 'm', 'i', 't', 'i', 'v', 'e', ' ', 'o', 'p', 'e', 'r', 'a', 't', 'o', 'r', ':', ' '] + operator_c_form(op).1
}

/// The type that a primitive operator gets from its operands' types: the function type
/// from those types to the result of the operator's table.
pub open spec fn inferred_operator_type(op: Operator, ts: Seq<TypeSpec>) -> Option<TypeSpec> {
    if is_inferred_operator(op) {
        match primitive_result(op, ts) {
            Some(t) => Some(TypeSpec::Function(ts, Box::new(t))),
            None => None,
        }
    } else {
        None
    }
}

/// A call after its children: an operator of unknown type that is primitive gets its type
/// from the operands, and the call gets the return type of its operator's function type.
pub open spec fn call_exit(operator: NodeSpec, operands: Seq<NodeSpec>, typ: TypeSpec) -> NodeSpec {
    let op2 = if node_type(operator) is Unknown {
        match operator {
            NodeSpec::PrimitiveOperator { operator: o, .. } => match inferred_operator_type(
                o,
                operand_types(operands),
            ) {
                Some(t) => NodeSpec::PrimitiveOperator { operator: o, typ: t },
                None => operator,
            },
            _ => operator,
        }
    } else {
        operator
    };
    let typ2 = match node_type(op2) {
        TypeSpec::Function(_, ret) => *ret,
        _ => typ,
    };
    NodeSpec::Call { operator: Box::new(op2), operands, typ: typ2 }
}

/// A node after its children, in binding state `st`: the node with its type filled in, the
/// state after it, and the errors it gives.
pub open spec fn infer_exit(n: NodeSpec, st: StateSpec<TypeSpec>) -> (
    NodeSpec,
    StateSpec<TypeSpec>,
    Seq<ErrorSpec>,
) {
    match n {
        NodeSpec::Variable { name, typ } => match state_lookup(st, name) {
            Some(t) => (NodeSpec::Variable { name, typ: t }, st, Seq::empty()),
            None => (n, st, seq![ErrorSpec::UnboundSymbolType(name)]),
        },
        NodeSpec::PrimitiveOperator { operator, typ } => (
            NodeSpec::PrimitiveOperator { operator, typ: logic_operator_type(operator, typ) },
            st,
            Seq::empty(),
        ),
        NodeSpec::Call { operator, operands, typ } => (
            call_exit(*operator, operands, typ),
            st,
            Seq::empty(),
        ),
        NodeSpec::Reference { mode, target, typ } => (
            NodeSpec::Reference {
                mode,
                target,
                typ: TypeSpec::Reference(mode, Box::new(node_type(*target))),
            },
            st,
            Seq::empty(),
        ),
        NodeSpec::Dereference { target, typ } => match node_type(*target) {
            TypeSpec::Reference(_, t) => (NodeSpec::Dereference { target, typ: *t }, st, Seq::empty()),
            other => (n, st, seq![ErrorSpec::BadDereferenceType(other)]),
        },
        NodeSpec::Binding { name, binding } => (
            n,
            state_add_binding(st, name, node_type(*binding)),
            Seq::empty(),
        ),
        NodeSpec::Sequence { mode, nodes, .. } => (
            NodeSpec::Sequence { mode, nodes, typ: sequence_type(nodes) },
            st,
            Seq::empty(),
        ),
        NodeSpec::Conditional { condition, then_branch, else_branch, .. } => (
            NodeSpec::Conditional {
                condition,
                then_branch,
                else_branch,
                typ: node_type(*else_branch),
            },
            st,
            Seq::empty(),
        ),
        _ => (n, st, Seq::empty()),
    }
}

/// The definitions a scoped sequence adds: each function's name, bound to its type.
pub open spec fn typed_definitions(nodes: Seq<NodeSpec>) -> Seq<(Seq<char>, TypeSpec)> {
    functions_spec(nodes).map_values(|f: NodeSpec| (function_spec_name(f), node_type(f)))
}

/// The bindings of a function's arguments: each argument's name, bound to its type.
pub open spec fn typed_arguments(arguments: Seq<ArgumentSpec>) -> Seq<(Seq<char>, TypeSpec)> {
    arguments.map_values(|a: ArgumentSpec| (a.name, a.typ))
}

/// The binding state of the children of a node: a scoped sequence sees its functions (and
/// all that its parent sees); a function body sees its arguments and the definitions that
/// its parent sees, but not its parent's bindings.
pub open spec fn infer_inner_state(n: NodeSpec, st: StateSpec<TypeSpec>) -> StateSpec<TypeSpec> {
    match n {
        NodeSpec::Sequence { mode: crate::ast::SequenceMode::Scope, nodes, .. } => state_add_definitions(
            state_enter(st, true, true),
            typed_definitions(nodes),
        ),
        NodeSpec::Function { arguments, .. } => state_add_bindings(
            state_enter(st, true, false),
            typed_arguments(arguments),
        ),
        _ => st,
    }
}

/// The tree `n`, in binding state `st`, with every type filled in; with the state after it
/// and the errors found so far (`es` before).
pub open spec fn inferred(n: NodeSpec, st: StateSpec<TypeSpec>, es: Seq<ErrorSpec>) -> (
    NodeSpec,
    StateSpec<TypeSpec>,
    Seq<ErrorSpec>,
)
    decreases size(n), 0nat,
{
    proof {
        lemma_children_smaller(n);
    }
    let st1 = infer_inner_state(n, st);
    let r = inferred_seq(children(n), st1, es);
    let st2 = if opens_scope(n) {
        state_leave(r.1)
    } else {
        r.1
    };
    let e = infer_exit(with_children(n, r.0), st2);
    (e.0, e.1, r.2 + e.2)
}

/// [`inferred`] of each tree of a sequence, in order, threading the state and the errors.
pub open spec fn inferred_seq(s: Seq<NodeSpec>, st: StateSpec<TypeSpec>, es: Seq<ErrorSpec>) -> (
    Seq<NodeSpec>,
    StateSpec<TypeSpec>,
    Seq<ErrorSpec>,
)
    decreases size_seq(s), 1nat,
{
    if s.len() == 0 {
        (s, st, es)
    } else {
        proof {
            lemma_size_seq_element(s, s.len() - 1);
        }
        let r = inferred_seq(s.drop_last(), st, es);
        let e = inferred(s.last(), r.1, r.2);
        (r.0.push(e.0), e.1, e.2)
    }
}

/// Whether a node is not a property access (whose type this pass does not infer).
pub open spec fn not_access(n: NodeSpec) -> bool {
    !(n is Access)
}

/// Whether a type is a number: an integer or a float.
pub open spec fn is_number(t: TypeSpec) -> bool {
    t == TypeSpec::Integer || t == TypeSpec::Float
}

/// Whether an operator is arithmetic on two numbers: `+`, `-`, `*` or `/`.
pub open spec fn is_arithmetic(op: Operator) -> bool {
    op == Operator::Add || op == Operator::Subtract || op == Operator::Multiply || op == Operator::Divide
}

/// Whether an operator compares two values: `<`, `>`, `<=`, `>=`, `==` or `!=`.
pub open spec fn is_comparison(op: Operator) -> bool {
    op == Operator::Less || op == Operator::Greater || op == Operator::LessEqual || op
        == Operator::GreaterEqual || op == Operator::Equal || op == Operator::NotEqual
}

/// On two numbers, arithmetic gives an integer exactly when both operands are integers and a
/// float otherwise (a float operand always makes the result a float), and a comparison gives
/// a boolean; the operator's inferred type takes the operands' types to that result.
pub proof fn lemma_number_operator_types(op: Operator, a: TypeSpec, b: TypeSpec)
    requires
        is_number(a),
        is_number(b),
    ensures
        is_arithmetic(op) ==> inferred_operator_type(op, seq![a, b]) == Some(
            TypeSpec::Function(
                seq![a, b],
                Box::new(
                    if a == TypeSpec::Integer && b == TypeSpec::Integer {
                        TypeSpec::Integer
                    } else {
                        TypeSpec::Float
                    },
                ),
            ),
        ),
        is_arithmetic(op) && (a == TypeSpec::Float || b == TypeSpec::Float) ==> primitive_result(
            op,
            seq![a, b],
        ) == Some(TypeSpec::Float),
        is_comparison(op) ==> inferred_operator_type(op, seq![a, b]) == Some(
            TypeSpec::Function(seq![a, b], Box::new(TypeSpec::Boolean)),
        ),
{
}

/// `==` and `!=` also compare two booleans, while the ordering comparisons and arithmetic
/// take no booleans; `-` on a single number keeps its type.
pub proof fn lemma_boolean_and_unary_operator_types(op: Operator, t: TypeSpec)
    ensures
        (op == Operator::Equal || op == Operator::NotEqual) ==> primitive_result(
            op,
            seq![TypeSpec::Boolean, TypeSpec::Boolean],
        ) == Some(TypeSpec::Boolean),
        (is_arithmetic(op) || op == Operator::Less || op == Operator::Greater || op
            == Operator::LessEqual || op == Operator::GreaterEqual) ==> primitive_result(
            op,
            seq![TypeSpec::Boolean, t],
        ) is None && primitive_result(op, seq![t, TypeSpec::Boolean]) is None,
        is_number(t) ==> primitive_result(Operator::Subtract, seq![t]) == Some(t),
{
}

/// `+`, `*` and `/` have a type only on two numbers, and give an integer only when both
/// are integers.
pub proof fn lemma_arithmetic_needs_numbers(op: Operator, ts: Seq<TypeSpec>)
    requires
        op == Operator::Add || op == Operator::Multiply || op == Operator::Divide,
        primitive_result(op, ts) is Some,
    ensures
        ts.len() == 2,
        is_number(ts[0]) && is_number(ts[1]),
        primitive_result(op, ts) == Some(TypeSpec::Integer) <==> (ts[0] == TypeSpec::Integer
            && ts[1] == TypeSpec::Integer),
{
}

/// ## Infer Types
///
/// - Fill in type information for all nodes
pub struct Infer {}

/// The code of a basic type: 1 for integers, 2 for floats, 3 for booleans, 0 for others.
pub open spec fn basic_code(t: TypeSpec) -> u8 {
    match t {
        TypeSpec::Integer => 1,
        TypeSpec::Float => 2,
        TypeSpec::Boolean => 3,
        _ => 0,
    }
}

fn basic(t: &Type) -> (r: u8)
    ensures
        r == basic_code(t@),
{
    match t {
        Type::Integer => 1,
        Type::Float => 2,
        Type::Boolean => 3,
        _ => 0,
    }
}

/// The result type of a primitive operator for operands of the given types (see
/// [`primitive_result`]).
fn primitive_result_of(op: Operator, ts: &Vec<Type>) -> (r: Option<Type>)
    ensures
        match r {
            Some(t) => primitive_result(op, types_view(*ts)) == Some(t@),
            None => primitive_result(op, types_view(*ts)) is None,
        },
{
    proof {
        lemma_types_view(*ts);
    }
    let n = ts.len();
    let a: u8 = if n >= 1 { basic(&ts[0]) } else { 0 };
    let b: u8 = if n >= 2 { basic(&ts[1]) } else { 0 };
    let ghost v = types_view(*ts);
    assert(is_pair(v, TypeSpec::Integer, TypeSpec::Integer) <==> (n == 2 && a == 1 && b == 1));
    assert(is_pair(v, TypeSpec::Float, TypeSpec::Float) <==> (n == 2 && a == 2 && b == 2));
    assert(is_pair(v, TypeSpec::Integer, TypeSpec::Float) <==> (n == 2 && a == 1 && b == 2));
    assert(is_pair(v, TypeSpec::Float, TypeSpec::Integer) <==> (n == 2 && a == 2 && b == 1));
    assert(is_pair(v, TypeSpec::Boolean, TypeSpec::Boolean) <==> (n == 2 && a == 3 && b == 3));
    assert(is_single(v, TypeSpec::Integer) <==> (n == 1 && a == 1));
    assert(is_single(v, TypeSpec::Float) <==> (n == 1 && a == 2));
    let int_pair = n == 2 && a == 1 && b == 1;
    let mixed = n == 2 && ((a == 2 && b == 2) || (a == 1 && b == 2) || (a == 2 && b == 1));
    let bool_pair = n == 2 && a == 3 && b == 3;
    match op {
        Operator::Subtract => if int_pair {
            Some(Type::Integer)
        } else if mixed {
            Some(Type::Float)
        } else if n == 1 && a == 2 {
            Some(Type::Float)
        } else if n == 1 && a == 1 {
            Some(Type::Integer)
        } else {
            None
        },
        Operator::Add | Operator::Multiply | Operator::Divide => if int_pair {
            Some(Type::Integer)
        } else if mixed {
            Some(Type::Float)
        } else {
            None
        },
        Operator::Greater | Operator::Less | Operator::GreaterEqual | Operator::LessEqual => if int_pair
            || mixed {
            Some(Type::Boolean)
        } else {
            None
        },
        Operator::Equal | Operator::NotEqual => if int_pair || mixed || bool_pair {
            Some(Type::Boolean)
        } else {
            None
        },
        _ => None,
    }
}

/// The types of a vector of nodes.
pub(crate) fn get_operand_types(operands: &Vec<Node>) -> (r: Vec<Type>)
    ensures
        types_view(r) == operand_types(nodes_view(*operands)),
{
    proof {
        lemma_nodes_view(*operands);
    }
    let mut r: Vec<Type> = Vec::new();
    let mut i: usize = 0;
    while i < operands.len()
        invariant
            i <= operands.len(),
            r.len() == i,
            nodes_view(*operands).len() == operands.len(),
            forall|j: int| 0 <= j < operands.len() ==> nodes_view(*operands)[j] == (#[trigger] operands@[j])@,
            forall|j: int| 0 <= j < i ==> (#[trigger] r@[j])@ == node_type(operands@[j]@),
        decreases operands.len() - i,
    {
        r.push(operands[i].get_type());
        i += 1;
    }
    proof {
        lemma_types_view(r);
    }
    assert(types_view(r) =~= operand_types(nodes_view(*operands)));
    r
}

/// Infers the type of a primitive operator from its operands: the function type from the
/// operands' types to the result that the operator's table gives for them.
///
/// Fails with `UnexpectedOperands` when the table has no line for the operands' types, and
/// with `Internal` for an operator whose type is not inferred from its operands.
pub fn infer_primitive_operator_type(operator: Operator, operands: &Vec<Node>) -> (r: ResultLog<
    Type,
    Error,
>)
    ensures
        ({
            let ts = operand_types(nodes_view(*operands));
            &&& !is_inferred_operator(operator) ==> (r matches ResultLog::Error(e, w) && errors_view(e)
                == seq![ErrorSpec::Internal(unexpected_operator_message(operator))] && w@.len() == 0)
            &&& is_inferred_operator(operator) && primitive_result(operator, ts) is None ==> (r matches ResultLog::Error(
                e,
                w,
            ) && errors_view(e) == seq![ErrorSpec::UnexpectedOperands(unexpected_operands_message(operator))]
                && w@.len() == 0)
            &&& is_inferred_operator(operator) && primitive_result(operator, ts) is Some ==> (r matches ResultLog::Success(
                t,
            ) && Some(t@) == inferred_operator_type(operator, ts))
        }),
{
    let ts = get_operand_types(operands);
    let inferred_op = match operator {
        Operator::Subtract | Operator::Add | Operator::Multiply | Operator::Divide
        | Operator::Greater | Operator::Less | Operator::GreaterEqual | Operator::LessEqual
        | Operator::Equal | Operator::NotEqual => true,
        _ => false,
    };
    if !inferred_op {
        proof {
            reveal_strlit("Unexpected primitive operator: ");
        }
        let mut message = text("Unexpected primitive operator: ");
        let (_, symbol) = operator_c_text(operator);
        push_str(&mut message, symbol);
        let error = Error::Internal(message);
        let r = ResultLog::new_error(error);
        proof {
            assert(message@ =~= unexpected_operator_message(operator));
            assert(errors_view(r->Error_0) =~= seq![ErrorSpec::Internal(unexpected_operator_message(operator))]);
        }
        return r;
    }
    match primitive_result_of(operator, &ts) {
        Some(result) => {
            let t = Type::Function(ts, Box::new(result));
            ResultLog::Success(t)
        },
        None => {
            proof {
                reveal_strlit("Unexpected operands for primitive operator: ");
            }
            let mut message = text("Unexpected operands for primitive operator: ");
            let (_, symbol) = operator_c_text(operator);
            push_str(&mut message, symbol);
            let error = Error::UnexpectedOperands(message);
            let r = ResultLog::new_error(error);
            proof {
                assert(message@ =~= unexpected_operands_message(operator));
                assert(errors_view(r->Error_0) =~= seq![ErrorSpec::UnexpectedOperands(unexpected_operands_message(operator))]);
            }
            r
        },
    }
}

/// Pushes an error, keeping the models in order.
fn push_error(errors: &mut Vec<Error>, e: Error)
    ensures
        errors_view(*final(errors)) == errors_view(*old(errors)).push(e@),
{
    errors.push(e);
    assert(errors_view(*errors) =~= errors_view(*old(errors)).push(e@));
}

impl Infer {
    pub fn new() -> Infer {
        Infer {}
    }

    fn exit(&self, node: Node, state: &mut BindingState<Type>, errors: &mut Vec<Error>) -> (r: Node)
        requires
            state_wf(old(state).model()),
            !(node@ is Access),
        ensures
            state_wf(final(state).model()),
            final(state).model().bindings.len() == old(state).model().bindings.len(),
            ({
                let e = infer_exit(node@, old(state).model());
                r@ == e.0 && final(state).model() == e.1 && errors_view(*final(errors))
                    == errors_view(*old(errors)) + e.2
            }),
    {
        let ghost es0 = errors_view(*errors);
        match node {
            Node::Variable { name, typ } => {
                // Look up variables in the current scope
                let found: Option<Type> = match state.lookup(&name) {
                    Some(t) => Some(t.copy()),
                    None => None,
                };
                match found {
                    Some(t) => {
                        assert(es0 + Seq::<ErrorSpec>::empty() =~= es0);
                        Node::Variable { name, typ: t }
                    },
                    None => {
                        push_error(errors, Error::UnboundSymbolType(name.clone()));
                        assert(es0.push(ErrorSpec::UnboundSymbolType(name@)) =~= es0 + seq![ErrorSpec::UnboundSymbolType(name@)]);
                        Node::Variable { name, typ }
                    },
                }
            },
            Node::PrimitiveOperator { operator, typ } => {
                assert(es0 + Seq::<ErrorSpec>::empty() =~= es0);
                let typ = match operator {
                    Operator::And | Operator::Or | Operator::ExclusiveOr => {
                        // Binary logic operators are always (bool bool -> bool)
                        let mut arguments = Vec::new();
                        arguments.push(Type::Boolean);
                        arguments.push(Type::Boolean);
                        proof {
                            lemma_types_view(arguments);
                            assert(types_view(arguments) =~= seq![TypeSpec::Boolean, TypeSpec::Boolean]);
                        }
                        Type::Function(arguments, Box::new(Type::Boolean))
                    },
                    Operator::Not => {
                        // Unary logic operators are always (bool -> bool)
                        let mut arguments = Vec::new();
                        arguments.push(Type::Boolean);
                        proof {
                            lemma_types_view(arguments);
                            assert(types_view(arguments) =~= seq![TypeSpec::Boolean]);
                        }
                        Type::Function(arguments, Box::new(Type::Boolean))
                    },
                    // Other operators need to be inferred from their operands
                    _ => typ,
                };
                Node::PrimitiveOperator { operator, typ }
            },
            Node::Call { operator, operands, typ } => {
                assert(es0 + Seq::<ErrorSpec>::empty() =~= es0);
                let ghost ov = (*operator)@;
                let mut operator = operator;
                let unknown = match operator.get_type() {
                    Type::Unknown => true,
                    _ => false,
                };
                if unknown {
                    // Try to infer the operator type from its operands if it is not already known
                    let inferred_type: Option<Type> = match &*operator {
                        Node::PrimitiveOperator { operator: primitive, .. } => {
                            match infer_primitive_operator_type(*primitive, &operands) {
                                ResultLog::Success(t) => Some(t),
                                ResultLog::Warn(t, _) => Some(t),
                                ResultLog::Error(_, _) => None,
                            }
                        },
                        _ => None,
                    };
                    match inferred_type {
                        Some(t) => {
                            match &*operator {
                                Node::PrimitiveOperator { operator: primitive, .. } => {
                                    let primitive = *primitive;
                                    operator = Box::new(Node::PrimitiveOperator { operator: primitive, typ: t });
                                },
                                _ => {},
                            }
                        },
                        None => {},
                    }
                }
                // Get return type from operator if possible
                let typ = match operator.get_type() {
                    Type::Function(_, ret) => *ret,
                    _ => typ,
                };
                Node::Call { operator, operands, typ }
            },
            Node::Reference { mode, target, typ } => {
                assert(es0 + Seq::<ErrorSpec>::empty() =~= es0);
                let target_type = target.get_type();
                let reference_type = Type::Reference(mode, Box::new(target_type));
                Node::Reference { mode, target, typ: reference_type }
            },
            Node::Dereference { target, typ } => {
                let target_type = target.get_type();
                match target_type {
                    Type::Reference(_, t) => {
                        assert(es0 + Seq::<ErrorSpec>::empty() =~= es0);
                        Node::Dereference { target, typ: *t }
                    },
                    other => {
                        let ghost tv = other@;
                        push_error(errors, Error::BadDereferenceType(other));
                        assert(es0.push(ErrorSpec::BadDereferenceType(tv)) =~= es0 + seq![ErrorSpec::BadDereferenceType(tv)]);
                        Node::Dereference { target, typ }
                    },
                }
            },
            Node::Binding { name, binding } => {
                // Track the binding in the current state
                assert(es0 + Seq::<ErrorSpec>::empty() =~= es0);
                state.add_binding(&name, binding.get_type());
                Node::Binding { name, binding }
            },
            Node::Sequence { mode, nodes, typ } => {
                assert(es0 + Seq::<ErrorSpec>::empty() =~= es0);
                proof {
                    lemma_nodes_view(nodes);
                }
                let result_type = match get_result_index(&nodes) {
                    Some(i) => {
                        proof {
                            lemma_result_index(nodes_view(nodes));
                        }
                        nodes[i].get_type()
                    },
                    None => Type::Void,
                };
                Node::Sequence { mode, nodes, typ: result_type }
            },
            Node::Conditional { condition, then_branch, else_branch, typ } => {
                assert(es0 + Seq::<ErrorSpec>::empty() =~= es0);
                let else_type = else_branch.get_type();
                Node::Conditional { condition, then_branch, else_branch, typ: else_type }
            },
            other => {
                assert(es0 + Seq::<ErrorSpec>::empty() =~= es0);
                other
            },
        }
    }

    /// Opens the scope of the children of a scoped sequence: its functions, by their types.
    fn enter_sequence(state: &mut BindingState<Type>, nodes: &Vec<Node>)
        requires
            state_wf(old(state).model()),
        ensures
            state_wf(final(state).model()),
            final(state).model().bindings.len() == old(state).model().bindings.len() + 1,
            final(state).model() == state_add_definitions(
                state_enter(old(state).model(), true, true),
                typed_definitions(nodes_view(*nodes)),
            ),
    {
        state.enter(true, true);
        let ghost entered = state.model();
        let get_binding = |function: &Node| -> (r: Type)
            ensures
                r@ == node_type(function@),
        { function.get_type() };
        state.add_definitions_from_functions(nodes, get_binding);
        proof {
            lemma_functions_of(*nodes);
            let entries = typed_definitions(nodes_view(*nodes));
            let after = state.model().definitions.last().local;
            assert(entered.definitions.last().local.len() == 0);
            assert forall|j: int| 0 <= j < entries.len() implies after[j] == entries[j] by {
                assert(after[entered.definitions.last().local.len() + j] == after[j]);
            }
            assert(after =~= entered.definitions.last().local + entries);
            lemma_added_definitions(entered, state.model(), entries);
        }
    }

    /// Opens the scope of the body of a function: its arguments, by their types.
    fn enter_function(state: &mut BindingState<Type>, arguments: &Vec<Argument>)
        requires
            state_wf(old(state).model()),
        ensures
            state_wf(final(state).model()),
            final(state).model().bindings.len() == old(state).model().bindings.len() + 1,
            final(state).model() == state_add_bindings(
                state_enter(old(state).model(), true, false),
                typed_arguments(arguments_view(*arguments)),
            ),
    {
        state.enter(true, false);
        let ghost entered = state.model();
        let get_binding = |argument: &Argument| -> (r: Type)
            ensures
                r@ == argument.typ@,
        { argument.typ.copy() };
        state.add_bindings_from_arguments(arguments, get_binding);
        proof {
            crate::ast::lemma_arguments_view(*arguments);
            let entries = typed_arguments(arguments_view(*arguments));
            let after = state.model().bindings.last().local;
            assert(entered.bindings.last().local.len() == 0);
            assert forall|j: int| 0 <= j < entries.len() implies after[j] == entries[j] by {
                assert(after[entered.bindings.last().local.len() + j] == after[j]);
            }
            assert(after =~= entered.bindings.last().local + entries);
            lemma_added_bindings(entered, state.model(), entries);
        }
    }

    fn walk(&self, node: Node, state: &mut BindingState<Type>, errors: &mut Vec<Error>) -> (r: Node)
        requires
            state_wf(old(state).model()),
            tree_all(node@, |x: NodeSpec| not_access(x)),
        ensures
            state_wf(final(state).model()),
            final(state).model().bindings.len() == old(state).model().bindings.len(),
            (r@, final(state).model(), errors_view(*final(errors))) == inferred(
                node@,
                old(state).model(),
                errors_view(*old(errors)),
            ),
        decreases size(node@),
    {
        let ghost n = node@;
        let ghost st0 = state.model();
        let ghost es0 = errors_view(*errors);
        proof {
            lemma_children_smaller(n);
            lemma_tree_all_children(n, |x: NodeSpec| not_access(x));
        }
        let opens = match &node {
            Node::Sequence { mode: crate::ast::SequenceMode::Scope, .. } => true,
            Node::Function { .. } => true,
            _ => false,
        };
        match &node {
            Node::Sequence { mode: crate::ast::SequenceMode::Scope, nodes, .. } => {
                Self::enter_sequence(state, nodes);
            },
            Node::Function { arguments, .. } => {
                Self::enter_function(state, arguments);
            },
            _ => {},
        }
        let ghost st1 = state.model();
        let ghost depth = state.model().bindings.len();
        assert(st1 == infer_inner_state(n, st0));
        let (shell, kids) = take_children(node);
        let ghost cs = children(n);
        let mut done: Vec<Node> = Vec::new();
        let mut rest = kids;
        proof {
            lemma_nodes_view(rest);
            lemma_nodes_view(done);
            assert(cs.take(0) =~= Seq::<NodeSpec>::empty());
        }
        while rest.len() > 0
            invariant
                n == node@,
                state_wf(state.model()),
                state.model().bindings.len() == depth,
                done.len() + rest.len() == cs.len(),
                forall|j: int| 0 <= j < rest.len() ==> (#[trigger] rest@[j])@ == cs[done.len() + j],
                forall|j: int| 0 <= j < cs.len() ==> size(#[trigger] cs[j]) < size(n),
                forall|j: int| 0 <= j < cs.len() ==> tree_all(#[trigger] cs[j], |x: NodeSpec| not_access(x)),
                (nodes_view(done), state.model(), errors_view(*errors)) == inferred_seq(
                    cs.take(done.len() as int),
                    st1,
                    es0,
                ),
            decreases rest.len(),
        {
            let ghost i = done.len() as int;
            let ghost before = rest@;
            let k = rest.remove(0);
            assert(k@ == cs[i]);
            let k2 = self.walk(k, state, errors);
            done.push(k2);
            proof {
                lemma_nodes_view(done);
                let t = cs.take(i + 1);
                assert(t.drop_last() =~= cs.take(i));
                assert(t.last() == cs[i]);
                assert(nodes_view(done) =~= inferred_seq(t, st1, es0).0);
                assert forall|j: int| 0 <= j < rest.len() implies (#[trigger] rest@[j])@
                    == cs[done.len() + j] by {
                    assert(rest@[j] == before[j + 1]);
                }
            }
        }
        assert(cs.take(cs.len() as int) =~= cs);
        if opens {
            state.leave();
        }
        let rebuilt = put_children(shell, done);
        proof {
            crate::flatten_definitions::lemma_children_of_with_children(n, nodes_view(done));
        }
        self.exit(rebuilt, state, errors)
    }

    /// Fills in the type of every node of the tree, reporting variables bound to nothing and
    /// dereferences of values that are not references.
    pub fn apply(&mut self, node: &mut Node) -> (r: ResultLog<(), Error>)
        requires
            tree_all(old(node)@, |x: NodeSpec| not_access(x)),
        ensures
            ({
                let e = inferred(old(node)@, state_root(), Seq::empty());
                &&& final(node)@ == e.0
                &&& e.2.len() == 0 ==> r is Success
                &&& e.2.len() != 0 ==> (r matches ResultLog::Error(errors, warnings) && errors_view(
                    errors,
                ) == e.2 && warnings@.len() == 0)
            }),
    {
        let n = node.extract_temp();
        let mut state: BindingState<Type> = BindingState::root();
        let mut errors: Vec<Error> = Vec::new();
        assert(errors_view(errors) =~= Seq::<ErrorSpec>::empty());
        *node = self.walk(n, &mut state, &mut errors);
        let ghost ev = errors_view(errors);
        let r = ResultLog::maybe_error((), Vec::new(), errors);
        proof {
            if ev.len() != 0 {
                assert(errors_view(r->Error_0) =~= ev);
            }
        }
        r
    }
}


/// Whether no property access occurs in a tree (type inference does not handle them).
pub fn is_access_free(node: &Node) -> (r: bool)
    ensures
        r == tree_all(node@, |x: NodeSpec| not_access(x)),
    decreases size(node@),
{
    let ghost n = node@;
    proof {
        lemma_children_smaller(n);
        lemma_tree_all_seq(children(n), |x: NodeSpec| not_access(x));
    }
    if let Node::Access { .. } = node {
        return false;
    }
    let kids = child_refs(node);
    let ghost cs = children(n);
    let mut i: usize = 0;
    while i < kids.len()
        invariant
            i <= kids.len(),
            kids.len() == cs.len(),
            n == node@,
            forall|j: int| 0 <= j < kids.len() ==> (#[trigger] kids@[j])@ == cs[j],
            forall|j: int| 0 <= j < cs.len() ==> size(#[trigger] cs[j]) < size(n),
            forall|j: int| 0 <= j < i ==> tree_all(#[trigger] cs[j], |x: NodeSpec| not_access(x)),
            tree_all(n, |x: NodeSpec| not_access(x)) == (not_access(n) && forall|j: int|
                0 <= j < cs.len() ==> tree_all(#[trigger] cs[j], |x: NodeSpec| not_access(x))),
        decreases kids.len() - i,
    {
        if !is_access_free(kids[i]) {
            return false;
        }
        i += 1;
    }
    true
}

} // verus!

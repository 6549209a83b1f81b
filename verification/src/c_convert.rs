//! C Convert pass: collapses the whole tree into a single piece of C text.
use vstd::prelude::*;
use crate::ast::{
    arguments_view, group_ast_views, lemma_arguments_view, lemma_nodes_view, node_type,
    nodes_view, type_view, types_view, Argument, ArgumentSpec, CNode, CNodeType, Node, NodeSpec,
    SequenceMode, Type, TypeSpec,
};
use crate::errors::{errors_view, Error, ErrorSpec, ResultLog};
use crate::flatten_definitions::lemma_children_of_with_children;
use crate::operators::{operator_c_form, operator_c_text};
use crate::text::{push_str, push_string, signed_decimal, text, write_signed_decimal};
use crate::tree::{
    children, fits, lemma_children_smaller, lemma_size_seq_element, lemma_tree_all_children,
    put_children, size, size_seq, take_children, tree_all, with_children,
};

verus! {

broadcast use group_ast_views;

/// The message of the error `Expected infix operands to be CNodes`.
pub open spec fn msg_infix_operands() -> Seq<char> {
    seq!['E', 'x', 'p', 'e', 'c', 't', 'e', 'd', ' ', 'i', 'n', 'f', 'i', 'x', ' ', 'o', 'p', 'e', 'r', 'a', 'n', 'd', 's', ' ', 't', 'o', ' ', 'b', 'e', ' ', 'C', 'N', 'o', 'd', 'e', 's']
}

/// The message of the error `Expected prefix operand to be a CNode`.
pub open spec fn msg_prefix_operand() -> Seq<char> {
    seq!['E', 'x', 'p', 'e', 'c', 't', 'e', 'd', ' ', 'p', 'r', 'e', 'f', 'i', 'x', ' ', 'o', 'p', 'e', 'r', 'a', 'n', 'd', ' ', 't', 'o', ' ', 'b', 'e', ' ', 'a', ' ', 'C', 'N', 'o', 'd', 'e']
}

/// The message of the error `Expected call operand to be a CNode`.
pub open spec fn msg_call_operand() -> Seq<char> {
    seq!['E', 'x', 'p', 'e', 'c', 't', 'e', 'd', ' ', 'c', 'a', 'l', 'l', ' ', 'o', 'p', 'e', 'r', 'a', 'n', 'd', ' ', 't', 'o', ' ', 'b', 'e', ' ', 'a', ' ', 'C', 'N', 'o', 'd', 'e']
}

/// The message of the error `Expected call operator to be a CNode`.
pub open spec fn msg_call_operator() -> Seq<char> {
    seq!['E', 'x', 'p', 'e', 'c', 't', 'e', 'd', ' ', 'c', 'a', 'l', 'l', ' ', 'o', 'p', 'e', 'r', 'a', 't', 'o', 'r', ' ', 't', 'o', ' ', 'b', 'e', ' ', 'a', ' ', 'C', 'N', 'o', 'd', 'e']
}

/// The message of the error `Expected reference target to be a CNode`.
pub open spec fn msg_reference_target() -> Seq<char> {
    seq!['E', 'x', 'p', 'e', 'c', 't', 'e', 'd', ' ', 'r', 'e', 'f', 'e', 'r', 'e', 'n', 'c', 'e', ' ', 't', 'a', 'r', 'g', 'e', 't', ' ', 't', 'o', ' ', 'b', 'e', ' ', 'a', ' ', 'C', 'N', 'o', 'd', 'e']
}

/// The message of the error `Expected dereference target to be a CNode`.
pub open spec fn msg_dereference_target() -> Seq<char> {
    seq!['E', 'x', 'p', 'e', 'c', 't', 'e', 'd', ' ', 'd', 'e', 'r', 'e', 'f', 'e', 'r', 'e', 'n', 'c', 'e', ' ', 't', 'a', 'r', 'g', 'e', 't', ' ', 't', 'o', ' ', 'b', 'e', ' ', 'a', ' ', 'C', 'N', 'o', 'd', 'e']
}

/// The message of the error `Expected assign lhs and rhs to be CNodes`.
pub open spec fn msg_assign_sides() -> Seq<char> {
    seq!['E', 'x', 'p', 'e', 'c', 't', 'e', 'd', ' ', 'a', 's', 's', 'i', 'g', 'n', ' ', 'l', 'h', 's', ' ', 'a', 'n', 'd', ' ', 'r', 'h', 's', ' ', 't', 'o', ' ', 'b', 'e', ' ', 'C', 'N', 'o', 'd', 'e', 's']
}

/// The message of the error `Expected access target to be a CNode`.
pub open spec fn msg_access_target() -> Seq<char> {
    seq!['E', 'x', 'p', 'e', 'c', 't', 'e', 'd', ' ', 'a', 'c', 'c', 'e', 's', 's', ' ', 't', 'a', 'r', 'g', 'e', 't', ' ', 't', 'o', ' ', 'b', 'e', ' ', 'a', ' ', 'C', 'N', 'o', 'd', 'e']
}

/// The message of the error `Expected binding to be a CNode`.
pub open spec fn msg_binding_value() -> Seq<char> {
    seq!['E', 'x', 'p', 'e', 'c', 't', 'e', 'd', ' ', 'b', 'i', 'n', 'd', 'i', 'n', 'g', ' ', 't', 'o', ' ', 'b', 'e', ' ', 'a', ' ', 'C', 'N', 'o', 'd', 'e']
}

/// The message of the error `Expected sequence node to be a CNode`.
pub open spec fn msg_sequence_node() -> Seq<char> {
    seq!['E', 'x', 'p', 'e', 'c', 't', 'e', 'd', ' ', 's', 'e', 'q', 'u', 'e', 'n', 'c', 'e', ' ', 'n', 'o', 'd', 'e', ' ', 't', 'o', ' ', 'b', 'e', ' ', 'a', ' ', 'C', 'N', 'o', 'd', 'e']
}

/// The message of the error `Expected conditional nodes to be CNodes`.
pub open spec fn msg_conditional_nodes() -> Seq<char> {
    seq!['E', 'x', 'p', 'e', 'c', 't', 'e', 'd', ' ', 'c', 'o', 'n', 'd', 'i', 't', 'i', 'o', 'n', 'a', 'l', ' ', 'n', 'o', 'd', 'e', 's', ' ', 't', 'o', ' ', 'b', 'e', ' ', 'C', 'N', 'o', 'd', 'e', 's']
}

/// The message of the error `Expected function body to be a CNode`.
pub open spec fn msg_function_body() -> Seq<char> {
    seq!['E', 'x', 'p', 'e', 'c', 't', 'e', 'd', ' ', 'f', 'u', 'n', 'c', 't', 'i', 'o', 'n', ' ', 'b', 'o', 'd', 'y', ' ', 't', 'o', ' ', 'b', 'e', ' ', 'a', ' ', 'C', 'N', 'o', 'd', 'e']
}

/// The message of the error `Expected node`.
pub open spec fn msg_expected_node() -> Seq<char> {
    seq!['E', 'x', 'p', 'e', 'c', 't', 'e', 'd', ' ', 'n', 'o', 'd', 'e']
}

/// The text of a piece of C, in parentheses when it is a bare operator application.
pub open spec fn non_bare_text(t: CNodeType, s: Seq<char>) -> Seq<char> {
    if t == CNodeType::Bare {
        seq!['('] + s + seq![')']
    } else {
        s
    }
}

/// The text of a piece of C, in parentheses unless it is already wrapped.
pub open spec fn wrapped_text(t: CNodeType, s: Seq<char>) -> Seq<char> {
    if t == CNodeType::Wrapped {
        s
    } else {
        seq!['('] + s + seq![')']
    }
}

/// The text of a piece of C, in braces unless it is already a block: `{ text; }`.
pub open spec fn block_text(t: CNodeType, s: Seq<char>) -> Seq<char> {
    if t == CNodeType::Block {
        s
    } else {
        seq!['{', ' '] + s + seq![';', ' ', '}']
    }
}

/// How a type is written in C: `int`, `float`, `bool`, `void`, a structure's name, the
/// target type followed by `*` for a reference; `_UNKNOWN_` and `_CALLABLE_` for unknown and
/// function types, which have no C form.
pub open spec fn type_c_text(t: TypeSpec) -> Seq<char>
    decreases t,
{
    match t {
        TypeSpec::Unknown => seq!['_', 'U', 'N', 'K', 'N', 'O', 'W', 'N', '_'],
        TypeSpec::Void => seq!['v', 'o', 'i', 'd'],
        TypeSpec::Integer => seq!['i', 'n', 't'],
        TypeSpec::Float => seq!['f', 'l', 'o', 'a', 't'],
        TypeSpec::Boolean => seq!['b', 'o', 'o', 'l'],
        TypeSpec::Struct(name) => name,
        TypeSpec::Function(_, _) => seq!['_', 'C', 'A', 'L', 'L', 'A', 'B', 'L', 'E', '_'],
        TypeSpec::Reference(_, target) => type_c_text(*target) + seq!['*'],
    }
}

/// The C text of a boolean.
pub open spec fn bool_text(b: bool) -> Seq<char> {
    if b {
        seq!['t', 'r', 'u', 'e']
    } else {
        seq!['f', 'a', 'l', 's', 'e']
    }
}

/// A node of C text.
pub open spec fn cnode(t: CNodeType, s: Seq<char>, typ: TypeSpec) -> NodeSpec {
    NodeSpec::CNode { node_type: t, text: s, typ }
}

/// The texts of the operands of a function call, separated by `, `, when all are C text.
pub open spec fn call_arguments_text(s: Seq<NodeSpec>) -> Option<Seq<char>>
    decreases s.len(),
{
    if s.len() == 0 {
        Some(Seq::empty())
    } else {
        match (call_arguments_text(s.drop_last()), s.last()) {
            (Some(prev), NodeSpec::CNode { text, .. }) => Some(
                if s.len() == 1 {
                    text
                } else {
                    prev + seq![',', ' '] + text
                },
            ),
            _ => None,
        }
    }
}

/// What a node of C text adds to the text of the sequence it is in: nothing for nothing;
/// a space and its text for blocks, conditionals, functions and comments; a space, its text
/// and `;` for the others.
pub open spec fn sequence_piece(t: CNodeType, s: Seq<char>) -> Seq<char> {
    match t {
        CNodeType::Nothing => Seq::empty(),
        CNodeType::Block | CNodeType::BlockTransparent | CNodeType::Conditional
        | CNodeType::Function | CNodeType::Comment => seq![' '] + s,
        _ => seq![' '] + s + seq![';'],
    }
}

/// The pieces of the nodes of a sequence, when all are C text.
pub open spec fn sequence_body_text(s: Seq<NodeSpec>) -> Option<Seq<char>>
    decreases s.len(),
{
    if s.len() == 0 {
        Some(Seq::empty())
    } else {
        match (sequence_body_text(s.drop_last()), s.last()) {
            (Some(prev), NodeSpec::CNode { node_type, text, .. }) => Some(
                prev + sequence_piece(node_type, text),
            ),
            _ => None,
        }
    }
}

/// The arguments of a function in C: each argument's type and name, separated by `, `.
pub open spec fn arguments_text(args: Seq<ArgumentSpec>) -> Seq<char>
    decreases args.len(),
{
    if args.len() == 0 {
        Seq::empty()
    } else {
        arguments_text(args.drop_last()) + (if args.len() == 1 {
            Seq::empty()
        } else {
            seq![',', ' ']
        }) + type_c_text(args.last().typ) + seq![' '] + args.last().name
    }
}

/// Whether a node is C text for a prefix or infix operator.
pub open spec fn operator_cnode(n: NodeSpec) -> bool {
    n matches NodeSpec::CNode { node_type, .. } && (node_type == CNodeType::InfixOperator
        || node_type == CNodeType::PrefixOperator)
}

/// A call of C text: an infix operator between its first two operands (when it has two or
/// more), a prefix (or infix) operator before its first operand, or a function call.
pub open spec fn convert_call(operator: NodeSpec, operands: Seq<NodeSpec>, typ: TypeSpec) -> Result<
    NodeSpec,
    ErrorSpec,
> {
    match operator {
        NodeSpec::CNode { node_type: ot, text: otext, .. } => if ot == CNodeType::InfixOperator
            && operands.len() > 1 {
            match (operands[0], operands[1]) {
                (
                    NodeSpec::CNode { node_type: at, text: atext, .. },
                    NodeSpec::CNode { node_type: bt, text: btext, .. },
                ) => Ok(
                    cnode(
                        CNodeType::Bare,
                        non_bare_text(at, atext) + seq![' '] + otext + seq![' '] + non_bare_text(
                            bt,
                            btext,
                        ),
                        typ,
                    ),
                ),
                _ => Err(ErrorSpec::Internal(msg_infix_operands())),
            }
        } else if ot == CNodeType::PrefixOperator || ot == CNodeType::InfixOperator {
            match operands[0] {
                NodeSpec::CNode { node_type: at, text: atext, .. } => Ok(
                    cnode(CNodeType::Bare, otext + seq![' '] + non_bare_text(at, atext), typ),
                ),
                _ => Err(ErrorSpec::Internal(msg_prefix_operand())),
            }
        } else {
            match call_arguments_text(operands) {
                Some(arguments) => Ok(
                    cnode(CNodeType::Call, otext + seq!['('] + arguments + seq![')'], typ),
                ),
                None => Err(ErrorSpec::Internal(msg_call_operand())),
            }
        },
        _ => Err(ErrorSpec::Internal(msg_call_operator())),
    }
}

/// A node after its children, as C text; or the error when a child is not C text.
pub open spec fn convert_exit(n: NodeSpec) -> Result<NodeSpec, ErrorSpec> {
    match n {
        NodeSpec::Comment { content } => Ok(
            cnode(
                CNodeType::Comment,
                seq!['/', '*', ' '] + content + seq![' ', '*', '/'],
                TypeSpec::Void,
            ),
        ),
        NodeSpec::Integer { value } => Ok(
            cnode(CNodeType::Atomic, signed_decimal(value as int), TypeSpec::Integer),
        ),
        NodeSpec::Boolean { value } => Ok(
            cnode(CNodeType::Atomic, bool_text(value), TypeSpec::Boolean),
        ),
        NodeSpec::Variable { name, typ } => Ok(cnode(CNodeType::Atomic, name, typ)),
        NodeSpec::Nothing { typ } => Ok(cnode(CNodeType::Nothing, Seq::empty(), typ)),
        NodeSpec::PrimitiveOperator { operator, typ } => Ok(
            cnode(operator_c_form(operator).0, operator_c_form(operator).1, typ),
        ),
        NodeSpec::Call { operator, operands, typ } => convert_call(*operator, operands, typ),
        NodeSpec::Reference { target, typ, .. } => match *target {
            NodeSpec::CNode { node_type, text, .. } => Ok(
                cnode(CNodeType::Bare, seq!['&'] + non_bare_text(node_type, text), typ),
            ),
            _ => Err(ErrorSpec::Internal(msg_reference_target())),
        },
        NodeSpec::Dereference { target, typ } => match *target {
            NodeSpec::CNode { node_type, text, .. } => Ok(
                cnode(CNodeType::Bare, seq!['*'] + non_bare_text(node_type, text), typ),
            ),
            _ => Err(ErrorSpec::Internal(msg_dereference_target())),
        },
        NodeSpec::Assign { lhs, rhs } => match (*lhs, *rhs) {
            (NodeSpec::CNode { text: ltext, .. }, NodeSpec::CNode { text: rtext, .. }) => Ok(
                cnode(CNodeType::Bare, ltext + seq![' ', '=', ' '] + rtext, TypeSpec::Void),
            ),
            _ => Err(ErrorSpec::Internal(msg_assign_sides())),
        },
        NodeSpec::Access { target, property, typ } => match *target {
            NodeSpec::CNode { node_type, text, .. } => Ok(
                cnode(
                    CNodeType::Bare,
                    non_bare_text(node_type, text) + seq!['.'] + property,
                    typ,
                ),
            ),
            _ => Err(ErrorSpec::Internal(msg_access_target())),
        },
        NodeSpec::Binding { name, binding } => match *binding {
            NodeSpec::CNode { node_type, text, typ } => Ok(
                cnode(
                    CNodeType::Bare,
                    type_c_text(typ) + seq![' '] + name + (if node_type == CNodeType::Nothing {
                        Seq::empty()
                    } else {
                        seq![' ', '=', ' '] + text
                    }),
                    TypeSpec::Void,
                ),
            ),
            _ => Err(ErrorSpec::Internal(msg_binding_value())),
        },
        NodeSpec::Sequence { mode, nodes, typ } => match sequence_body_text(nodes) {
            Some(body) => Ok(
                if mode == SequenceMode::Scope {
                    cnode(CNodeType::Block, seq!['{'] + body + seq![' ', '}'], typ)
                } else {
                    cnode(CNodeType::BlockTransparent, body + seq![' '], typ)
                },
            ),
            None => Err(ErrorSpec::Internal(msg_sequence_node())),
        },
        NodeSpec::Conditional { condition, then_branch, else_branch, typ } => match (
            *condition,
            *then_branch,
            *else_branch,
        ) {
            (
                NodeSpec::CNode { node_type: ct, text: ctext, .. },
                NodeSpec::CNode { node_type: tt, text: ttext, .. },
                NodeSpec::CNode { node_type: et, text: etext, .. },
            ) => Ok(
                cnode(
                    CNodeType::Conditional,
                    seq!['i', 'f', ' '] + wrapped_text(ct, ctext) + seq![' '] + block_text(tt, ttext)
                        + (if et == CNodeType::Nothing {
                        Seq::empty()
                    } else {
                        seq![' ', 'e', 'l', 's', 'e', ' '] + block_text(et, etext)
                    }),
                    typ,
                ),
            ),
            _ => Err(ErrorSpec::Internal(msg_conditional_nodes())),
        },
        NodeSpec::Function { name, arguments, return_type, body, typ } => match *body {
            NodeSpec::CNode { node_type, text, .. } => Ok(
                cnode(
                    CNodeType::Function,
                    type_c_text(return_type) + seq![' '] + name + seq!['('] + arguments_text(
                        arguments,
                    ) + seq![')'] + block_text(node_type, text),
                    typ,
                ),
            ),
            _ => Err(ErrorSpec::Internal(msg_function_body())),
        },
        NodeSpec::CNode { .. } => Err(ErrorSpec::Internal(msg_expected_node())),
    }
}

/// The tree `n` collapsed into C text as far as it goes, and the errors found so far (`es`
/// before): a node whose children are not all C text stays as it is, with an error.
pub open spec fn converted(n: NodeSpec, es: Seq<ErrorSpec>) -> (NodeSpec, Seq<ErrorSpec>)
    decreases size(n), 0nat,
{
    proof {
        lemma_children_smaller(n);
    }
    let r = converted_seq(children(n), es);
    let m = with_children(n, r.0);
    match convert_exit(m) {
        Ok(c) => (c, r.1),
        Err(e) => (m, r.1.push(e)),
    }
}

/// [`converted`] of each tree of a sequence, in order.
pub open spec fn converted_seq(s: Seq<NodeSpec>, es: Seq<ErrorSpec>) -> (Seq<NodeSpec>, Seq<ErrorSpec>)
    decreases size_seq(s), 1nat,
{
    if s.len() == 0 {
        (s, es)
    } else {
        proof {
            lemma_size_seq_element(s, s.len() - 1);
        }
        let r = converted_seq(s.drop_last(), es);
        let e = converted(s.last(), r.1);
        (r.0.push(e.0), e.1)
    }
}

/// Whether a node is a call without operands of an operator that becomes a prefix or infix
/// operator in C (such a call has no C form).
pub open spec fn operator_call_without_operands(n: NodeSpec) -> bool {
    n matches NodeSpec::Call { operator, operands, .. } && operands.len() == 0 && (
    operator_cnode(*operator) || (*operator matches NodeSpec::PrimitiveOperator { operator: o, .. }
        && (operator_c_form(o).0 == CNodeType::InfixOperator || operator_c_form(o).0
        == CNodeType::PrefixOperator)))
}

/// Whether a tree can be collapsed: no call in it lacks the operands of its prefix or infix
/// operator.
pub open spec fn convertible(n: NodeSpec) -> bool {
    tree_all(n, |x: NodeSpec| !operator_call_without_operands(x))
}

/// A node that becomes C text for a prefix or infix operator was a primitive operator with
/// such a C form, or already such C text.
pub proof fn lemma_converted_operator(n: NodeSpec, es: Seq<ErrorSpec>)
    ensures
        operator_cnode(converted(n, es).0) ==> operator_cnode(n) || (n matches NodeSpec::PrimitiveOperator {
            operator: o,
            ..
        } && (operator_c_form(o).0 == CNodeType::InfixOperator || operator_c_form(o).0
            == CNodeType::PrefixOperator)),
{
    lemma_children_smaller(n);
    let r = converted_seq(children(n), es);
    lemma_converted_seq_len(children(n), es);
    lemma_children_of_with_children(n, r.0);
    let m = with_children(n, r.0);
    if n is CNode {
        assert(m == n);
    }
}

/// Collapsing keeps the number of trees of a sequence, and the first tree is collapsed
/// with the errors found before the sequence.
pub proof fn lemma_converted_seq_len(s: Seq<NodeSpec>, es: Seq<ErrorSpec>)
    ensures
        converted_seq(s, es).0.len() == s.len(),
        s.len() > 0 ==> converted_seq(s, es).0[0] == converted(s[0], es).0,
    decreases s.len(),
{
    if s.len() > 0 {
        lemma_converted_seq_len(s.drop_last(), es);
        if s.len() > 1 {
            assert(s.drop_last()[0] == s[0]);
        }
    }
}

fn error_infix_operands() -> (r: Error)
    ensures
        r@ == ErrorSpec::Internal(msg_infix_operands()),
{
    proof {
        reveal_strlit("Expected infix operands to be CNodes");
        assert("Expected infix operands to be CNodes"@ =~= msg_infix_operands());
    }
    Error::Internal(text("Expected infix operands to be CNodes"))
}

fn error_prefix_operand() -> (r: Error)
    ensures
        r@ == ErrorSpec::Internal(msg_prefix_operand()),
{
    proof {
        reveal_strlit("Expected prefix operand to be a CNode");
        assert("Expected prefix operand to be a CNode"@ =~= msg_prefix_operand());
    }
    Error::Internal(text("Expected prefix operand to be a CNode"))
}

fn error_call_operand() -> (r: Error)
    ensures
        r@ == ErrorSpec::Internal(msg_call_operand()),
{
    proof {
        reveal_strlit("Expected call operand to be a CNode");
        assert("Expected call operand to be a CNode"@ =~= msg_call_operand());
    }
    Error::Internal(text("Expected call operand to be a CNode"))
}

fn error_call_operator() -> (r: Error)
    ensures
        r@ == ErrorSpec::Internal(msg_call_operator()),
{
    proof {
        reveal_strlit("Expected call operator to be a CNode");
        assert("Expected call operator to be a CNode"@ =~= msg_call_operator());
    }
    Error::Internal(text("Expected call operator to be a CNode"))
}

fn error_reference_target() -> (r: Error)
    ensures
        r@ == ErrorSpec::Internal(msg_reference_target()),
{
    proof {
        reveal_strlit("Expected reference target to be a CNode");
        assert("Expected reference target to be a CNode"@ =~= msg_reference_target());
    }
    Error::Internal(text("Expected reference target to be a CNode"))
}

fn error_dereference_target() -> (r: Error)
    ensures
        r@ == ErrorSpec::Internal(msg_dereference_target()),
{
    proof {
        reveal_strlit("Expected dereference target to be a CNode");
        assert("Expected dereference target to be a CNode"@ =~= msg_dereference_target());
    }
    Error::Internal(text("Expected dereference target to be a CNode"))
}

fn error_assign_sides() -> (r: Error)
    ensures
        r@ == ErrorSpec::Internal(msg_assign_sides()),
{
    proof {
        reveal_strlit("Expected assign lhs and rhs to be CNodes");
        assert("Expected assign lhs and rhs to be CNodes"@ =~= msg_assign_sides());
    }
    Error::Internal(text("Expected assign lhs and rhs to be CNodes"))
}

fn error_access_target() -> (r: Error)
    ensures
        r@ == ErrorSpec::Internal(msg_access_target()),
{
    proof {
        reveal_strlit("Expected access target to be a CNode");
        assert("Expected access target to be a CNode"@ =~= msg_access_target());
    }
    Error::Internal(text("Expected access target to be a CNode"))
}

fn error_binding_value() -> (r: Error)
    ensures
        r@ == ErrorSpec::Internal(msg_binding_value()),
{
    proof {
        reveal_strlit("Expected binding to be a CNode");
        assert("Expected binding to be a CNode"@ =~= msg_binding_value());
    }
    Error::Internal(text("Expected binding to be a CNode"))
}

fn error_sequence_node() -> (r: Error)
    ensures
        r@ == ErrorSpec::Internal(msg_sequence_node()),
{
    proof {
        reveal_strlit("Expected sequence node to be a CNode");
        assert("Expected sequence node to be a CNode"@ =~= msg_sequence_node());
    }
    Error::Internal(text("Expected sequence node to be a CNode"))
}

fn error_conditional_nodes() -> (r: Error)
    ensures
        r@ == ErrorSpec::Internal(msg_conditional_nodes()),
{
    proof {
        reveal_strlit("Expected conditional nodes to be CNodes");
        assert("Expected conditional nodes to be CNodes"@ =~= msg_conditional_nodes());
    }
    Error::Internal(text("Expected conditional nodes to be CNodes"))
}

fn error_function_body() -> (r: Error)
    ensures
        r@ == ErrorSpec::Internal(msg_function_body()),
{
    proof {
        reveal_strlit("Expected function body to be a CNode");
        assert("Expected function body to be a CNode"@ =~= msg_function_body());
    }
    Error::Internal(text("Expected function body to be a CNode"))
}

fn error_expected_node() -> (r: Error)
    ensures
        r@ == ErrorSpec::Internal(msg_expected_node()),
{
    proof {
        reveal_strlit("Expected node");
        assert("Expected node"@ =~= msg_expected_node());
    }
    Error::Internal(text("Expected node"))
}

/// The text of `s` in parentheses when `t` is a bare operator application.
pub(crate) fn non_bare(t: CNodeType, s: &String) -> (r: String)
    ensures
        r@ == non_bare_text(t, s@),
{
    if t == CNodeType::Bare {
        proof {
            reveal_strlit("(");
            reveal_strlit(")");
        }
        let mut r = text("(");
        push_string(&mut r, s);
        push_str(&mut r, ")");
        assert(r@ =~= non_bare_text(t, s@));
        r
    } else {
        s.clone()
    }
}

/// The text of `s` in parentheses unless `t` is already wrapped.
pub(crate) fn wrapped(t: CNodeType, s: &String) -> (r: String)
    ensures
        r@ == wrapped_text(t, s@),
{
    if t == CNodeType::Wrapped {
        s.clone()
    } else {
        proof {
            reveal_strlit("(");
            reveal_strlit(")");
        }
        let mut r = text("(");
        push_string(&mut r, s);
        push_str(&mut r, ")");
        assert(r@ =~= wrapped_text(t, s@));
        r
    }
}

/// The text of `s` in braces unless `t` is already a block.
pub(crate) fn block(t: CNodeType, s: &String) -> (r: String)
    ensures
        r@ == block_text(t, s@),
{
    if t == CNodeType::Block {
        s.clone()
    } else {
        proof {
            reveal_strlit("{ ");
            reveal_strlit("; }");
        }
        let mut r = text("{ ");
        push_string(&mut r, s);
        push_str(&mut r, "; }");
        assert(r@ =~= block_text(t, s@));
        r
    }
}

impl CNode {
    /// Wrap a CNode's text in parentheses if it's a bare operator application
    pub fn get_text_non_bare(&self) -> (r: String)
        ensures
            r@ == non_bare_text(self.node_type, self.text@),
    {
        non_bare(self.node_type, &self.text)
    }

    /// Wrap a CNode's text in parentheses if it isn't already wrapped
    pub fn get_text_wrapped(&self) -> (r: String)
        ensures
            r@ == wrapped_text(self.node_type, self.text@),
    {
        wrapped(self.node_type, &self.text)
    }

    /// Wrap a CNode's text in braces if it isn't already a block
    pub fn get_text_block(&self) -> (r: String)
        ensures
            r@ == block_text(self.node_type, self.text@),
    {
        block(self.node_type, &self.text)
    }
}

impl Type {
    /// Get the C version of a type
    pub fn get_c_text(&self) -> (r: String)
        ensures
            r@ == type_c_text(self@),
        decreases self,
    {
        match self {
            Type::Unknown => {
                proof {
                    reveal_strlit("_UNKNOWN_");
                }
                text("_UNKNOWN_")
            },
            Type::Void => {
                proof {
                    reveal_strlit("void");
                }
                text("void")
            },
            Type::Integer => {
                proof {
                    reveal_strlit("int");
                }
                text("int")
            },
            Type::Float => {
                proof {
                    reveal_strlit("float");
                }
                text("float")
            },
            Type::Boolean => {
                proof {
                    reveal_strlit("bool");
                }
                text("bool")
            },
            Type::Struct(name) => name.clone(),
            Type::Function(_, _) => {
                proof {
                    reveal_strlit("_CALLABLE_");
                }
                text("_CALLABLE_")
            },
            Type::Reference(_, target) => {
                proof {
                    reveal_strlit("*");
                }
                let mut r = target.get_c_text();
                push_str(&mut r, "*");
                r
            },
        }
    }
}

/// The type and text of a node of C text.
pub(crate) fn cnode_parts(n: &Node) -> (r: Option<(CNodeType, String)>)
    ensures
        match n@ {
            NodeSpec::CNode { node_type, text, .. } => r matches Some(p) && p.0 == node_type
                && p.1@ == text,
            _ => r is None,
        },
{
    match n {
        Node::CNode(c) => Some((c.node_type, c.text.clone())),
        _ => None,
    }
}

/// Whether a node is a call without operands whose operator is C text for a prefix or infix
/// operator.
pub open spec fn call_without_operands(n: NodeSpec) -> bool {
    n matches NodeSpec::Call { operator, operands, .. } && operands.len() == 0 && operator_cnode(
        *operator,
    )
}

/// Once an operand of a call is not C text, the operands have no text.
pub(crate) proof fn lemma_call_arguments_none(s: Seq<NodeSpec>, k: int)
    requires
        0 <= k <= s.len(),
        call_arguments_text(s.take(k)) is None,
    ensures
        call_arguments_text(s) is None,
    decreases s.len() - k,
{
    if k < s.len() {
        let t = s.take(k + 1);
        assert(t.drop_last() =~= s.take(k));
        lemma_call_arguments_none(s, k + 1);
    } else {
        assert(s.take(k) =~= s);
    }
}

/// Once a node of a sequence is not C text, the sequence has no text.
pub(crate) proof fn lemma_sequence_body_none(s: Seq<NodeSpec>, k: int)
    requires
        0 <= k <= s.len(),
        sequence_body_text(s.take(k)) is None,
    ensures
        sequence_body_text(s) is None,
    decreases s.len() - k,
{
    if k < s.len() {
        let t = s.take(k + 1);
        assert(t.drop_last() =~= s.take(k));
        lemma_sequence_body_none(s, k + 1);
    } else {
        assert(s.take(k) =~= s);
    }
}

/// The result of converting one node: the C text, or the node unchanged with an error.
pub open spec fn exit_result(n: NodeSpec, result: Result<NodeSpec, ErrorSpec>, r: (Node, Option<Error>)) -> bool {
    match result {
        Ok(c) => r.0@ == c && r.1 is None,
        Err(e) => r.0@ == n && (r.1 matches Some(x) && x@ == e),
    }
}

/// The type, text and C type text of a node of C text.
pub(crate) fn bound_parts(n: &Node) -> (r: Option<(CNodeType, String, String)>)
    ensures
        match n@ {
            NodeSpec::CNode { node_type, text, typ } => r matches Some(p) && p.0 == node_type
                && p.1@ == text && p.2@ == type_c_text(typ),
            _ => r is None,
        },
{
    match n {
        Node::CNode(c) => Some((c.node_type, c.text.clone(), c.typ.get_c_text())),
        _ => None,
    }
}

/// The texts of the operands of a function call, separated by `, `, when all are C text.
pub(crate) fn call_arguments(operands: &Vec<Node>) -> (r: Option<String>)
    ensures
        match r {
            Some(t) => call_arguments_text(nodes_view(*operands)) == Some(t@),
            None => call_arguments_text(nodes_view(*operands)) is None,
        },
{
    proof {
        lemma_nodes_view(*operands);
    }
    let ghost ops = nodes_view(*operands);
    let mut t = String::new();
    let mut i: usize = 0;
    assert(ops.take(0) =~= Seq::<NodeSpec>::empty());
    assert(t@ =~= Seq::<char>::empty());
    while i < operands.len()
        invariant
            i <= operands.len(),
            ops == nodes_view(*operands),
            ops.len() == operands.len(),
            forall|j: int| 0 <= j < operands.len() ==> ops[j] == (#[trigger] operands@[j])@,
            call_arguments_text(ops.take(i as int)) is Some,
            t@ == call_arguments_text(ops.take(i as int))->0,
        decreases operands.len() - i,
    {
        proof {
            reveal_strlit(", ");
        }
        let ghost prev = t@;
        let ghost tk = ops.take(i + 1);
        assert(tk.drop_last() =~= ops.take(i as int));
        assert(tk.last() == ops[i as int]);
        match cnode_parts(&operands[i]) {
            Some((_, operand_text)) => {
                if i > 0 {
                    push_str(&mut t, ", ");
                }
                push_string(&mut t, &operand_text);
                if i == 0 {
                    assert(ops.take(0) =~= Seq::<NodeSpec>::empty());
                }
                assert(call_arguments_text(tk) == Some(
                    if tk.len() == 1 {
                        operand_text@
                    } else {
                        call_arguments_text(ops.take(i as int))->0 + seq![',', ' '] + operand_text@
                    },
                ));
                assert(t@ =~= call_arguments_text(tk)->0);
            },
            None => {
                proof {
                    assert(!(ops[i as int] is CNode));
                    assert(call_arguments_text(tk) is None);
                    lemma_call_arguments_none(ops, i + 1);
                }
                return None;
            },
        }
        i += 1;
    }
    assert(ops.take(operands.len() as int) =~= ops);
    Some(t)
}

/// The pieces of the nodes of a sequence (see [`sequence_body_text`]), when all are C text.
pub(crate) fn sequence_body(nodes: &Vec<Node>) -> (r: Option<String>)
    ensures
        match r {
            Some(t) => sequence_body_text(nodes_view(*nodes)) == Some(t@),
            None => sequence_body_text(nodes_view(*nodes)) is None,
        },
{
    proof {
        lemma_nodes_view(*nodes);
        reveal_strlit(" ");
        reveal_strlit(";");
    }
    let ghost ns = nodes_view(*nodes);
    let mut body = String::new();
    let mut i: usize = 0;
    assert(ns.take(0) =~= Seq::<NodeSpec>::empty());
    assert(body@ =~= Seq::<char>::empty());
    while i < nodes.len()
        invariant
            i <= nodes.len(),
            ns == nodes_view(*nodes),
            ns.len() == nodes.len(),
            forall|j: int| 0 <= j < nodes.len() ==> ns[j] == (#[trigger] nodes@[j])@,
            sequence_body_text(ns.take(i as int)) is Some,
            body@ == sequence_body_text(ns.take(i as int))->0,
        decreases nodes.len() - i,
    {
        proof {
            reveal_strlit(" ");
            reveal_strlit(";");
        }
        let ghost tk = ns.take(i + 1);
        assert(tk.drop_last() =~= ns.take(i as int));
        assert(tk.last() == ns[i as int]);
        match cnode_parts(&nodes[i]) {
            Some((node_type, node_text)) => {
                let ghost prev = body@;
                match node_type {
                    CNodeType::Nothing => {},
                    CNodeType::Block | CNodeType::BlockTransparent | CNodeType::Conditional
                    | CNodeType::Function | CNodeType::Comment => {
                        push_str(&mut body, " ");
                        push_string(&mut body, &node_text);
                    },
                    _ => {
                        push_str(&mut body, " ");
                        push_string(&mut body, &node_text);
                        push_str(&mut body, ";");
                    },
                }
                assert(sequence_body_text(tk) == Some(
                    sequence_body_text(ns.take(i as int))->0 + sequence_piece(node_type, node_text@),
                ));
                assert(body@ =~= prev + sequence_piece(node_type, node_text@));
            },
            None => {
                proof {
                    assert(!(ns[i as int] is CNode));
                    assert(sequence_body_text(tk) is None);
                    lemma_sequence_body_none(ns, i + 1);
                }
                return None;
            },
        }
        i += 1;
    }
    assert(ns.take(nodes.len() as int) =~= ns);
    Some(body)
}

/// The C text of a sequence with the given body: a block in braces for a scope, the body
/// followed by a space for a transparent sequence.
pub(crate) fn sequence_cnode(mode: SequenceMode, body: String, typ: Type) -> (r: Node)
    ensures
        r@ == (if mode == SequenceMode::Scope {
            cnode(CNodeType::Block, seq!['{'] + body@ + seq![' ', '}'], typ@)
        } else {
            cnode(CNodeType::BlockTransparent, body@ + seq![' '], typ@)
        }),
{
    proof {
        reveal_strlit("{");
        reveal_strlit(" }");
        reveal_strlit(" ");
    }
    match mode {
        SequenceMode::Scope => {
            let mut t = text("{");
            push_string(&mut t, &body);
            push_str(&mut t, " }");
            assert(t@ =~= seq!['{'] + body@ + seq![' ', '}']);
            Node::CNode(CNode { node_type: CNodeType::Block, text: t, typ })
        },
        SequenceMode::Transparent => {
            let mut t = body;
            let ghost bv = t@;
            push_str(&mut t, " ");
            assert(t@ =~= bv + seq![' ']);
            Node::CNode(CNode { node_type: CNodeType::BlockTransparent, text: t, typ })
        },
    }
}

/// The C text of a function: its return type, name, arguments and body as a block.
pub(crate) fn function_text(
    name: &String,
    arguments: &Vec<Argument>,
    return_type: &Type,
    body_type: CNodeType,
    body_text: &String,
) -> (r: String)
    ensures
        r@ == type_c_text(return_type@) + seq![' '] + name@ + seq!['('] + arguments_text(
            arguments_view(*arguments),
        ) + seq![')'] + block_text(body_type, body_text@),
{
    proof {
        lemma_arguments_view(*arguments);
        reveal_strlit(" ");
        reveal_strlit("(");
        reveal_strlit(")");
        reveal_strlit(", ");
    }
    let ghost args = arguments_view(*arguments);
    let mut t = return_type.get_c_text();
    push_str(&mut t, " ");
    push_string(&mut t, name);
    push_str(&mut t, "(");
    let ghost head = t@;
    let mut i: usize = 0;
    assert(args.take(0) =~= Seq::<ArgumentSpec>::empty());
    assert(t@ =~= head + arguments_text(args.take(0)));
    while i < arguments.len()
        invariant
            i <= arguments.len(),
            args == arguments_view(*arguments),
            args.len() == arguments.len(),
            forall|j: int| 0 <= j < arguments.len() ==> args[j] == (#[trigger] arguments@[j])@,
            t@ == head + arguments_text(args.take(i as int)),
        decreases arguments.len() - i,
    {
        proof {
            reveal_strlit(", ");
            reveal_strlit(" ");
        }
        let ghost tk = args.take(i + 1);
        assert(tk.drop_last() =~= args.take(i as int));
        assert(tk.last() == args[i as int]);
        if i > 0 {
            push_str(&mut t, ", ");
        }
        let type_text = arguments[i].typ.get_c_text();
        push_string(&mut t, &type_text);
        push_str(&mut t, " ");
        push_string(&mut t, &arguments[i].name);
        assert(arguments_text(tk) == arguments_text(args.take(i as int)) + (if tk.len() == 1 {
            Seq::empty()
        } else {
            seq![',', ' ']
        }) + type_c_text(args[i as int].typ) + seq![' '] + args[i as int].name);
        assert(t@ =~= head + arguments_text(tk));
        i += 1;
    }
    assert(args.take(arguments.len() as int) =~= args);
    push_str(&mut t, ")");
    let b = block(body_type, body_text);
    push_string(&mut t, &b);
    assert(t@ =~= type_c_text(return_type@) + seq![' '] + name@ + seq!['('] + arguments_text(args)
        + seq![')'] + block_text(body_type, body_text@));
    t
}

/// Whether `part` occurs in `whole` as a run of consecutive characters.
pub open spec fn occurs_in(part: Seq<char>, whole: Seq<char>) -> bool {
    exists|k: int| 0 <= k && k + part.len() <= whole.len() && #[trigger] whole.subrange(k, k + part.len()) == part
}

/// A text occurs in itself, and in any text that holds it between two others.
proof fn lemma_occurs_between(a: Seq<char>, part: Seq<char>, b: Seq<char>)
    ensures
        occurs_in(part, a + part + b),
{
    let whole = a + part + b;
    assert(whole.subrange(a.len() as int, (a.len() + part.len()) as int) =~= part);
}

/// The text of a piece of C occurs in its parenthesized, wrapped and block forms.
proof fn lemma_forms_hold_text(t: CNodeType, s: Seq<char>)
    ensures
        occurs_in(s, non_bare_text(t, s)),
        occurs_in(s, wrapped_text(t, s)),
        occurs_in(s, block_text(t, s)),
{
    lemma_occurs_between(Seq::empty(), s, Seq::empty());
    assert(Seq::<char>::empty() + s + Seq::<char>::empty() =~= s);
    lemma_occurs_between(seq!['('], s, seq![')']);
    lemma_occurs_between(seq!['{', ' '], s, seq![';', ' ', '}']);
}

/// A text that occurs in a part of a concatenation occurs in the whole.
proof fn lemma_occurs_in_concat(part: Seq<char>, x: Seq<char>, a: Seq<char>, b: Seq<char>)
    requires
        occurs_in(part, x),
    ensures
        occurs_in(part, a + x + b),
{
    let k = choose|k: int| 0 <= k && k + part.len() <= x.len() && #[trigger] x.subrange(k, k + part.len()) == part;
    let whole = a + x + b;
    assert(whole.subrange(a.len() + k, a.len() + k + part.len()) =~= x.subrange(k, k + part.len()));
}

/// A conditional of C text becomes C text that starts with `if ` and holds the text of its
/// condition and of its then branch, and the text of its else branch unless that branch is
/// nothing; it has an `else` part exactly when the else branch is not nothing.
pub proof fn lemma_conditional_text(
    condition: NodeSpec,
    then_branch: NodeSpec,
    else_branch: NodeSpec,
    typ: TypeSpec,
)
    requires
        condition is CNode,
        then_branch is CNode,
        else_branch is CNode,
    ensures
        ({
            let n = NodeSpec::Conditional {
                condition: Box::new(condition),
                then_branch: Box::new(then_branch),
                else_branch: Box::new(else_branch),
                typ,
            };
            let r = convert_exit(n);
            &&& r matches Ok(c) && c is CNode && c->CNode_node_type == CNodeType::Conditional
            &&& r->Ok_0->CNode_text.take(3) == seq!['i', 'f', ' ']
            &&& occurs_in(condition->CNode_text, r->Ok_0->CNode_text)
            &&& occurs_in(then_branch->CNode_text, r->Ok_0->CNode_text)
            &&& else_branch->CNode_node_type != CNodeType::Nothing ==> occurs_in(
                else_branch->CNode_text,
                r->Ok_0->CNode_text,
            ) && occurs_in(seq![' ', 'e', 'l', 's', 'e', ' '], r->Ok_0->CNode_text)
        }),
{
    let ct = condition->CNode_node_type;
    let ctext = condition->CNode_text;
    let tt = then_branch->CNode_node_type;
    let ttext = then_branch->CNode_text;
    let et = else_branch->CNode_node_type;
    let etext = else_branch->CNode_text;
    let w = wrapped_text(ct, ctext);
    let b = block_text(tt, ttext);
    let tail = if et == CNodeType::Nothing {
        Seq::empty()
    } else {
        seq![' ', 'e', 'l', 's', 'e', ' '] + block_text(et, etext)
    };
    let head = seq!['i', 'f', ' '];
    let text = head + w + seq![' '] + b + tail;
    lemma_forms_hold_text(ct, ctext);
    lemma_forms_hold_text(tt, ttext);
    lemma_forms_hold_text(et, etext);
    lemma_occurs_in_concat(ctext, w, head, seq![' '] + b + tail);
    assert(head + w + (seq![' '] + b + tail) =~= text);
    lemma_occurs_in_concat(ttext, b, head + w + seq![' '], tail);
    assert(text.take(3) =~= head);
    if et != CNodeType::Nothing {
        let eb = block_text(et, etext);
        lemma_occurs_in_concat(etext, eb, head + w + seq![' '] + b + seq![' ', 'e', 'l', 's', 'e', ' '], Seq::empty());
        assert(head + w + seq![' '] + b + seq![' ', 'e', 'l', 's', 'e', ' '] + eb + Seq::<char>::empty() =~= text);
        lemma_occurs_between(head + w + seq![' '] + b, seq![' ', 'e', 'l', 's', 'e', ' '], eb);
        assert(head + w + seq![' '] + b + seq![' ', 'e', 'l', 's', 'e', ' '] + eb =~= text);
    }
}

/// Assignments, bindings and functions of C text keep the texts they are made of: an
/// assignment holds both sides, a binding holds its name (and its value unless that is
/// nothing), and a function holds its name and its body.
pub proof fn lemma_statement_texts(lhs: NodeSpec, rhs: NodeSpec, name: Seq<char>, f: NodeSpec)
    requires
        lhs is CNode,
        rhs is CNode,
        f is Function,
        *f->Function_body is CNode,
    ensures
        ({
            let a = convert_exit(NodeSpec::Assign { lhs: Box::new(lhs), rhs: Box::new(rhs) });
            a is Ok && occurs_in(lhs->CNode_text, a->Ok_0->CNode_text) && occurs_in(
                rhs->CNode_text,
                a->Ok_0->CNode_text,
            )
        }),
        ({
            let b = convert_exit(NodeSpec::Binding { name, binding: Box::new(rhs) });
            b is Ok && occurs_in(name, b->Ok_0->CNode_text) && (rhs->CNode_node_type
                != CNodeType::Nothing ==> occurs_in(rhs->CNode_text, b->Ok_0->CNode_text))
        }),
        ({
            let r = convert_exit(f);
            r is Ok && r->Ok_0->CNode_node_type == CNodeType::Function && occurs_in(
                f->Function_name,
                r->Ok_0->CNode_text,
            ) && occurs_in(f->Function_body->CNode_text, r->Ok_0->CNode_text)
        }),
{
    let lt = lhs->CNode_text;
    let rt = rhs->CNode_text;
    lemma_occurs_between(Seq::empty(), lt, seq![' ', '=', ' '] + rt);
    assert(Seq::<char>::empty() + lt + (seq![' ', '=', ' '] + rt) =~= lt + seq![' ', '=', ' '] + rt);
    lemma_occurs_between(lt + seq![' ', '=', ' '], rt, Seq::empty());
    assert(lt + seq![' ', '=', ' '] + rt + Seq::<char>::empty() =~= lt + seq![' ', '=', ' '] + rt);
    let ty = type_c_text(rhs->CNode_typ);
    let tail = if rhs->CNode_node_type == CNodeType::Nothing {
        Seq::empty()
    } else {
        seq![' ', '=', ' '] + rt
    };
    lemma_occurs_between(ty + seq![' '], name, tail);
    assert(ty + seq![' '] + name + tail =~= ty + seq![' '] + name + tail);
    if rhs->CNode_node_type != CNodeType::Nothing {
        lemma_occurs_between(ty + seq![' '] + name + seq![' ', '=', ' '], rt, Seq::empty());
        assert(ty + seq![' '] + name + seq![' ', '=', ' '] + rt + Seq::<char>::empty() =~= ty
            + seq![' '] + name + (seq![' ', '=', ' '] + rt));
    }
    let fname = f->Function_name;
    let body = *f->Function_body;
    let head = type_c_text(f->Function_return_type) + seq![' '];
    let args = seq!['('] + arguments_text(f->Function_arguments) + seq![')'];
    let bt = block_text(body->CNode_node_type, body->CNode_text);
    lemma_occurs_between(head, fname, args + bt);
    assert(head + fname + (args + bt) =~= head + fname + args + bt);
    lemma_forms_hold_text(body->CNode_node_type, body->CNode_text);
    lemma_occurs_in_concat(body->CNode_text, bt, head + fname + args, Seq::empty());
    assert(head + fname + args + bt + Seq::<char>::empty() =~= head + fname + args + bt);
    let r = convert_exit(f);
    assert(r->Ok_0->CNode_text =~= head + fname + args + bt);
    assert(r->Ok_0->CNode_text =~= head + fname + (args + bt));
}

/// ## C Convert Pass
///
/// - Try and collapse the whole node tree into a CNode with the final C output program
pub struct Convert {}

/// Pass state for Convert (the pass keeps no state per node).
pub struct PassState {}

impl PassState {
    pub fn new() -> PassState {
        PassState {}
    }
}

impl Convert {
    pub fn new() -> Convert {
        Convert {}
    }

    fn convert_call(&self, operator: Box<Node>, operands: Vec<Node>, typ: Type) -> (r: (Node, Option<Error>))
        requires
            operands.len() == 0 ==> !operator_cnode(operator@),
        ensures
            exit_result(
                NodeSpec::Call {
                    operator: Box::new(operator@),
                    operands: nodes_view(operands),
                    typ: typ@,
                },
                convert_call(operator@, nodes_view(operands), typ@),
                r,
            ),
    {
        proof {
            lemma_nodes_view(operands);
        }
        let ghost ops = nodes_view(operands);
        match cnode_parts(&operator) {
            None => {
                let n = Node::Call { operator, operands, typ };
                (n, Some(error_call_operator()))
            },
            Some((ot, otext)) => {
                proof {
                    reveal_strlit(" ");
                    reveal_strlit("(");
                    reveal_strlit(")");
                    reveal_strlit(", ");
                }
                if ot == CNodeType::InfixOperator && operands.len() > 1 {
                    let a = cnode_parts(&operands[0]);
                    let b = cnode_parts(&operands[1]);
                    match (a, b) {
                        (Some((at, atext)), Some((bt, btext))) => {
                            let mut t = non_bare(at, &atext);
                            push_str(&mut t, " ");
                            push_string(&mut t, &otext);
                            push_str(&mut t, " ");
                            let bb = non_bare(bt, &btext);
                            push_string(&mut t, &bb);
                            assert(t@ =~= non_bare_text(at, atext@) + seq![' '] + otext@ + seq![' ']
                                + non_bare_text(bt, btext@));
                            (Node::CNode(CNode { node_type: CNodeType::Bare, text: t, typ }), None)
                        },
                        _ => (Node::Call { operator, operands, typ }, Some(error_infix_operands())),
                    }
                } else if ot == CNodeType::PrefixOperator || ot == CNodeType::InfixOperator {
                    // Infix operators with one operand are handled as prefix operators
                    match cnode_parts(&operands[0]) {
                        Some((at, atext)) => {
                            let mut t = otext;
                            let ghost ov = t@;
                            push_str(&mut t, " ");
                            let aa = non_bare(at, &atext);
                            push_string(&mut t, &aa);
                            assert(t@ =~= ov + seq![' '] + non_bare_text(at, atext@));
                            (Node::CNode(CNode { node_type: CNodeType::Bare, text: t, typ }), None)
                        },
                        None => (Node::Call { operator, operands, typ }, Some(error_prefix_operand())),
                    }
                } else {
                    match call_arguments(&operands) {
                        Some(arguments) => {
                            let mut t = otext;
                            let ghost ov = t@;
                            push_str(&mut t, "(");
                            push_string(&mut t, &arguments);
                            push_str(&mut t, ")");
                            assert(t@ =~= ov + seq!['('] + arguments@ + seq![')']);
                            (Node::CNode(CNode { node_type: CNodeType::Call, text: t, typ }), None)
                        },
                        None => (Node::Call { operator, operands, typ }, Some(error_call_operand())),
                    }
                }
            },
        }
    }

    fn convert_sequence(&self, mode: SequenceMode, nodes: Vec<Node>, typ: Type) -> (r: (Node, Option<Error>))
        ensures
            exit_result(
                NodeSpec::Sequence { mode, nodes: nodes_view(nodes), typ: typ@ },
                convert_exit(NodeSpec::Sequence { mode, nodes: nodes_view(nodes), typ: typ@ }),
                r,
            ),
    {
        match sequence_body(&nodes) {
            Some(body) => (sequence_cnode(mode, body, typ), None),
            None => (Node::Sequence { mode, nodes, typ }, Some(error_sequence_node())),
        }
    }

    fn convert_function(
        &self,
        name: String,
        arguments: Vec<Argument>,
        return_type: Type,
        body: Box<Node>,
        typ: Type,
    ) -> (r: (Node, Option<Error>))
        ensures
            ({
                let n = NodeSpec::Function {
                    name: name@,
                    arguments: arguments_view(arguments),
                    return_type: return_type@,
                    body: Box::new(body@),
                    typ: typ@,
                };
                exit_result(n, convert_exit(n), r)
            }),
    {
        match cnode_parts(&body) {
            Some((body_type, body_text)) => {
                let t = function_text(&name, &arguments, &return_type, body_type, &body_text);
                (Node::CNode(CNode { node_type: CNodeType::Function, text: t, typ }), None)
            },
            None => (
                Node::Function { name, arguments, return_type, body, typ },
                Some(error_function_body()),
            ),
        }
    }

    #[verifier::spinoff_prover]
    #[verifier::rlimit(80)]
    fn exit(&self, node: Node) -> (r: (Node, Option<Error>))
        requires
            !call_without_operands(node@),
        ensures
            exit_result(node@, convert_exit(node@), r),
    {
        proof {
            reveal_strlit("/* ");
            reveal_strlit(" */");
            reveal_strlit("true");
            reveal_strlit("false");
            reveal_strlit("&");
            reveal_strlit("*");
            reveal_strlit(" = ");
            reveal_strlit(".");
            reveal_strlit(" ");
            reveal_strlit("if ");
            reveal_strlit(" else ");
        }
        let ghost nv = node@;
        match node {
            Node::Comment { content } => {
                let mut t = text("/* ");
                push_string(&mut t, &content);
                push_str(&mut t, " */");
                assert(t@ =~= seq!['/', '*', ' '] + content@ + seq![' ', '*', '/']);
                (Node::CNode(CNode { node_type: CNodeType::Comment, text: t, typ: Type::Void }), None)
            },
            Node::Integer { value } => {
                let mut t = String::new();
                write_signed_decimal(&mut t, value);
                assert(t@ =~= signed_decimal(value as int));
                (Node::CNode(CNode { node_type: CNodeType::Atomic, text: t, typ: Type::Integer }), None)
            },
            Node::Boolean { value } => {
                let t = if value {
                    text("true")
                } else {
                    text("false")
                };
                assert(t@ == bool_text(value));
                let r = (Node::CNode(CNode { node_type: CNodeType::Atomic, text: t, typ: Type::Boolean }), None);
                assert(exit_result(nv, convert_exit(nv), r));
                r
            },
            Node::Variable { name, typ } => {
                (Node::CNode(CNode { node_type: CNodeType::Atomic, text: name, typ }), None)
            },
            Node::Nothing { typ } => {
                let t = String::new();
                assert(t@ =~= Seq::<char>::empty());
                (Node::CNode(CNode { node_type: CNodeType::Nothing, text: t, typ }), None)
            },
            Node::PrimitiveOperator { operator, typ } => {
                let (node_type, symbol) = operator_c_text(operator);
                (Node::CNode(CNode { node_type, text: text(symbol), typ }), None)
            },
            Node::Call { operator, operands, typ } => {
                proof {
                    lemma_nodes_view(operands);
                }
                let r = self.convert_call(operator, operands, typ);
                assert(exit_result(nv, convert_exit(nv), r));
                r
            },
            Node::Reference { mode, target, typ } => match cnode_parts(&target) {
                Some((target_type, target_text)) => {
                    let mut t = text("&");
                    let tt = non_bare(target_type, &target_text);
                    push_string(&mut t, &tt);
                    assert(t@ =~= seq!['&'] + non_bare_text(target_type, target_text@));
                    (Node::CNode(CNode { node_type: CNodeType::Bare, text: t, typ }), None)
                },
                None => (Node::Reference { mode, target, typ }, Some(error_reference_target())),
            },
            Node::Dereference { target, typ } => match cnode_parts(&target) {
                Some((target_type, target_text)) => {
                    let mut t = text("*");
                    let tt = non_bare(target_type, &target_text);
                    push_string(&mut t, &tt);
                    assert(t@ =~= seq!['*'] + non_bare_text(target_type, target_text@));
                    (Node::CNode(CNode { node_type: CNodeType::Bare, text: t, typ }), None)
                },
                None => (Node::Dereference { target, typ }, Some(error_dereference_target())),
            },
            Node::Assign { lhs, rhs } => match (cnode_parts(&lhs), cnode_parts(&rhs)) {
                (Some((_, lhs_text)), Some((_, rhs_text))) => {
                    let mut t = lhs_text;
                    let ghost lv = t@;
                    push_str(&mut t, " = ");
                    push_string(&mut t, &rhs_text);
                    assert(t@ =~= lv + seq![' ', '=', ' '] + rhs_text@);
                    (Node::CNode(CNode { node_type: CNodeType::Bare, text: t, typ: Type::Void }), None)
                },
                _ => (Node::Assign { lhs, rhs }, Some(error_assign_sides())),
            },
            Node::Access { target, property, typ } => match cnode_parts(&target) {
                Some((target_type, target_text)) => {
                    let mut t = non_bare(target_type, &target_text);
                    let ghost tv = t@;
                    push_str(&mut t, ".");
                    push_string(&mut t, &property);
                    assert(t@ =~= tv + seq!['.'] + property@);
                    (Node::CNode(CNode { node_type: CNodeType::Bare, text: t, typ }), None)
                },
                None => (Node::Access { target, property, typ }, Some(error_access_target())),
            },
            Node::Binding { name, binding } => {
                let info = bound_parts(&binding);
                match info {
                    Some((binding_type, binding_text, type_text)) => {
                        let mut t = type_text;
                        let ghost tv = t@;
                        push_str(&mut t, " ");
                        push_string(&mut t, &name);
                        let ghost lv = t@;
                        if binding_type != CNodeType::Nothing {
                            push_str(&mut t, " = ");
                            push_string(&mut t, &binding_text);
                            assert(t@ =~= lv + (seq![' ', '=', ' '] + binding_text@));
                        } else {
                            assert(t@ =~= lv + Seq::<char>::empty());
                        }
                        assert(lv =~= tv + seq![' '] + name@);
                        let r = (Node::CNode(CNode { node_type: CNodeType::Bare, text: t, typ: Type::Void }), None);
                        assert(exit_result(nv, convert_exit(nv), r));
                        r
                    },
                    None => (Node::Binding { name, binding }, Some(error_binding_value())),
                }
            },
            Node::Sequence { mode, nodes, typ } => {
                let r = self.convert_sequence(mode, nodes, typ);
                assert(exit_result(nv, convert_exit(nv), r));
                r
            },
            Node::Conditional { condition, then_branch, else_branch, typ } => {
                match (
                    cnode_parts(&condition),
                    cnode_parts(&then_branch),
                    cnode_parts(&else_branch),
                ) {
                    (
                        Some((condition_type, condition_text)),
                        Some((then_type, then_text)),
                        Some((else_type, else_text)),
                    ) => {
                        let mut t = text("if ");
                        let c = wrapped(condition_type, &condition_text);
                        push_string(&mut t, &c);
                        push_str(&mut t, " ");
                        let b = block(then_type, &then_text);
                        push_string(&mut t, &b);
                        let ghost head = t@;
                        if else_type != CNodeType::Nothing {
                            push_str(&mut t, " else ");
                            let e = block(else_type, &else_text);
                            push_string(&mut t, &e);
                            assert(t@ =~= head + (seq![' ', 'e', 'l', 's', 'e', ' '] + block_text(
                                else_type,
                                else_text@,
                            )));
                        } else {
                            assert(t@ =~= head + Seq::<char>::empty());
                        }
                        assert(head =~= seq!['i', 'f', ' '] + wrapped_text(condition_type, condition_text@)
                            + seq![' '] + block_text(then_type, then_text@));
                        let r = (Node::CNode(CNode { node_type: CNodeType::Conditional, text: t, typ }), None);
                        assert(exit_result(nv, convert_exit(nv), r));
                        r
                    },
                    _ => (
                        Node::Conditional { condition, then_branch, else_branch, typ },
                        Some(error_conditional_nodes()),
                    ),
                }
            },
            Node::Function { name, arguments, return_type, body, typ } => {
                let r = self.convert_function(name, arguments, return_type, body, typ);
                assert(exit_result(nv, convert_exit(nv), r));
                r
            },
            Node::CNode(c) => (Node::CNode(c), Some(error_expected_node())),
        }
    }

    fn walk(&self, node: Node, errors: &mut Vec<Error>) -> (r: Node)
        requires
            convertible(node@),
        ensures
            (r@, errors_view(*final(errors))) == converted(node@, errors_view(*old(errors))),
        decreases size(node@),
    {
        let ghost n = node@;
        let ghost es0 = errors_view(*errors);
        proof {
            lemma_children_smaller(n);
            lemma_tree_all_children(n, |x: NodeSpec| !operator_call_without_operands(x));
        }
        let (shell, kids) = take_children(node);
        let ghost cs = children(n);
        let mut done: Vec<Node> = Vec::new();
        let mut rest = kids;
        proof {
            lemma_nodes_view(rest);
            lemma_nodes_view(done);
            assert(cs.take(0) =~= Seq::<NodeSpec>::empty());
        }
        while rest.len() > 0
            invariant
                n == node@,
                done.len() + rest.len() == cs.len(),
                forall|j: int| 0 <= j < rest.len() ==> (#[trigger] rest@[j])@ == cs[done.len() + j],
                forall|j: int| 0 <= j < cs.len() ==> size(#[trigger] cs[j]) < size(n),
                forall|j: int| 0 <= j < cs.len() ==> convertible(#[trigger] cs[j]),
                (nodes_view(done), errors_view(*errors)) == converted_seq(
                    cs.take(done.len() as int),
                    es0,
                ),
            decreases rest.len(),
        {
            let ghost i = done.len() as int;
            let ghost before = rest@;
            let k = rest.remove(0);
            assert(k@ == cs[i]);
            let k2 = self.walk(k, errors);
            done.push(k2);
            proof {
                lemma_nodes_view(done);
                let t = cs.take(i + 1);
                assert(t.drop_last() =~= cs.take(i));
                assert(t.last() == cs[i]);
                assert(nodes_view(done) =~= converted_seq(t, es0).0);
                assert forall|j: int| 0 <= j < rest.len() implies (#[trigger] rest@[j])@
                    == cs[done.len() + j] by {
                    assert(rest@[j] == before[j + 1]);
                }
            }
        }
        assert(cs.take(cs.len() as int) =~= cs);
        let rebuilt = put_children(shell, done);
        proof {
            let cv = converted_seq(cs, es0).0;
            lemma_converted_seq_len(cs, es0);
            lemma_children_of_with_children(n, cv);
            if n is Call {
                let operator = *n->Call_operator;
                assert(cs[0] == operator);
                lemma_converted_operator(operator, es0);
                assert(cv.drop_first().len() == n->Call_operands.len());
            }
        }
        let (converted_node, error) = self.exit(rebuilt);
        match error {
            Some(e) => {
                errors.push(e);
                assert(errors_view(*errors) =~= converted(n, es0).1);
            },
            None => {},
        }
        converted_node
    }

    /// Collapses the tree into C text as far as it goes; a node whose children are not all C
    /// text stays as it is and gives an internal error.
    pub fn apply(&mut self, node: &mut Node) -> (r: ResultLog<(), Error>)
        requires
            convertible(old(node)@),
        ensures
            ({
                let e = converted(old(node)@, Seq::empty());
                &&& final(node)@ == e.0
                &&& e.1.len() == 0 ==> r is Success
                &&& e.1.len() != 0 ==> (r matches ResultLog::Error(errors, warnings) && errors_view(
                    errors,
                ) == e.1 && warnings@.len() == 0)
            }),
    {
        let n = node.extract_temp();
        let mut errors: Vec<Error> = Vec::new();
        assert(errors_view(errors) =~= Seq::<ErrorSpec>::empty());
        *node = self.walk(n, &mut errors);
        let ghost ev = errors_view(errors);
        let r = ResultLog::maybe_error((), Vec::new(), errors);
        proof {
            if ev.len() != 0 {
                assert(errors_view(r->Error_0) =~= ev);
            }
        }
        r
    }
}

} // verus!

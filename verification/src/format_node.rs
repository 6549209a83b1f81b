//! Writing a syntax tree as C text, statement by statement, with indentation.
use vstd::prelude::*;
use crate::ast::{lemma_arguments_view, lemma_nodes_view, node_type, nodes_view, arguments_view, Argument, ArgumentSpec, Node, NodeSpec, Operator, SequenceMode, TypeSpec};
use crate::c_convert::bool_text;
use crate::convert_names::c_safe_name;
use crate::format_context::{
    ctx_dedent, ctx_end_line, ctx_indent, ctx_pop_group, ctx_push_group, ctx_start_line, ctx_write,
    ctx_write_comment, last_group, type_text, typed_identifier, FormatContext, FormatSpec,
};
use crate::text::{push_str, push_string, signed_decimal, text, write_signed_decimal};
use crate::tree::{
    child_refs, children, lemma_children_smaller, lemma_size_seq_element, lemma_tree_all_children, size,
    size_seq, tree_all,
};

verus! {

/// The text `invalid nothing`.
pub open spec fn msg_invalid_nothing() -> Seq<char> {
    seq!['i', 'n', 'v', 'a', 'l', 'i', 'd', ' ', 'n', 'o', 't', 'h', 'i', 'n', 'g']
}

/// The text `invalid primitive `.
pub open spec fn msg_invalid_primitive() -> Seq<char> {
    seq!['i', 'n', 'v', 'a', 'l', 'i', 'd', ' ', 'p', 'r', 'i', 'm', 'i', 't', 'i', 'v', 'e', ' ']
}

/// The text `Invalid call primitive operarand`.
pub open spec fn msg_invalid_operands() -> Seq<char> {
    seq!['I', 'n', 'v', 'a', 'l', 'i', 'd', ' ', 'c', 'a', 'l', 'l', ' ', 'p', 'r', 'i', 'm', 'i', 't', 'i', 'v', 'e', ' ', 'o', 'p', 'e', 'r', 'a', 'r', 'a', 'n', 'd']
}

/// The text `__OPERATOR__`.
pub open spec fn unary_operator_text() -> Seq<char> {
    seq!['_', '_', 'O', 'P', 'E', 'R', 'A', 'T', 'O', 'R', '_', '_']
}

/// The text `condition`.
pub open spec fn group_condition() -> Seq<char> {
    seq!['c', 'o', 'n', 'd', 'i', 't', 'i', 'o', 'n']
}

/// The text `function_args`.
pub open spec fn group_function_args() -> Seq<char> {
    seq!['f', 'u', 'n', 'c', 't', 'i', 'o', 'n', '_', 'a', 'r', 'g', 's']
}

/// The text `return`.
pub open spec fn return_name() -> Seq<char> {
    seq!['r', 'e', 't', 'u', 'r', 'n']
}

/// The text `return `.
pub open spec fn return_prefix() -> Seq<char> {
    seq!['r', 'e', 't', 'u', 'r', 'n', ' ']
}

/// The text `ref`.
pub open spec fn group_ref() -> Seq<char> {
    seq!['r', 'e', 'f']
}

/// The text `deref`.
pub open spec fn group_deref() -> Seq<char> {
    seq!['d', 'e', 'r', 'e', 'f']
}

/// The text `binding`.
pub open spec fn group_binding() -> Seq<char> {
    seq!['b', 'i', 'n', 'd', 'i', 'n', 'g']
}

/// The text `assign`.
pub open spec fn group_assign() -> Seq<char> {
    seq!['a', 's', 's', 'i', 'g', 'n']
}

/// The text `sequence`.
pub open spec fn group_sequence() -> Seq<char> {
    seq!['s', 'e', 'q', 'u', 'e', 'n', 'c', 'e']
}

/// The text `conditional`.
pub open spec fn group_conditional() -> Seq<char> {
    seq!['c', 'o', 'n', 'd', 'i', 't', 'i', 'o', 'n', 'a', 'l']
}

/// The text `access`.
pub open spec fn group_access() -> Seq<char> {
    seq!['a', 'c', 'c', 'e', 's', 's']
}

/// The text `function `.
pub open spec fn function_prefix() -> Seq<char> {
    seq!['f', 'u', 'n', 'c', 't', 'i', 'o', 'n', ' ']
}

/// The text `else`.
pub open spec fn else_text() -> Seq<char> {
    seq!['e', 'l', 's', 'e']
}

/// The text `_OPERATOR_`.
pub open spec fn unknown_binary() -> Seq<char> {
    seq!['_', 'O', 'P', 'E', 'R', 'A', 'T', 'O', 'R', '_']
}

/// The name of an operator as printed in diagnostics.
pub open spec fn operator_debug_name(op: Operator) -> Seq<char> {
    match op {
        Operator::Add => seq!['A', 'd', 'd'],
        Operator::Subtract => seq!['S', 'u', 'b', 't', 'r', 'a', 'c', 't'],
        Operator::Multiply => seq!['M', 'u', 'l', 't', 'i', 'p', 'l', 'y'],
        Operator::Divide => seq!['D', 'i', 'v', 'i', 'd', 'e'],
        Operator::Modulo => seq!['M', 'o', 'd', 'u', 'l', 'o'],
        Operator::Equal => seq!['E', 'q', 'u', 'a', 'l'],
        Operator::NotEqual => seq!['N', 'o', 't', 'E', 'q', 'u', 'a', 'l'],
        Operator::Less => seq!['L', 'e', 's', 's'],
        Operator::Greater => seq!['G', 'r', 'e', 'a', 't', 'e', 'r'],
        Operator::LessEqual => seq!['L', 'e', 's', 's', 'E', 'q', 'u', 'a', 'l'],
        Operator::GreaterEqual => seq!['G', 'r', 'e', 'a', 't', 'e', 'r', 'E', 'q', 'u', 'a', 'l'],
        Operator::Not => seq!['N', 'o', 't'],
        Operator::And => seq!['A', 'n', 'd'],
        Operator::Or => seq!['O', 'r'],
        Operator::ExclusiveOr => seq!['E', 'x', 'c', 'l', 'u', 's', 'i', 'v', 'e', 'O', 'r'],
        Operator::Return => seq!['R', 'e', 't', 'u', 'r', 'n'],
        Operator::Create => seq!['C', 'r', 'e', 'a', 't', 'e'],
    }
}

/// The C text of a binary operator (`_OPERATOR_` for those without one).
pub open spec fn binary_operator_text(op: Operator) -> Seq<char> {
    match op {
        Operator::Add => seq!['+'],
        Operator::Equal => seq!['=', '='],
        Operator::NotEqual => seq!['!', '='],
        Operator::Less => seq!['<'],
        Operator::Greater => seq!['>'],
        Operator::LessEqual => seq!['<', '='],
        Operator::GreaterEqual => seq!['>', '='],
        Operator::And => seq!['&', '&'],
        Operator::Or => seq!['|', '|'],
        Operator::ExclusiveOr => seq!['^'],
        _ => unknown_binary(),
    }
}

/// Whether an operator is written between two operands when formatting: the arithmetic
/// `+`, the comparisons and the logical `&&`, `||`, `^`.
pub open spec fn is_written_binary(op: Operator) -> bool {
    op == Operator::Add || op == Operator::Equal || op == Operator::NotEqual || op == Operator::Less
        || op == Operator::Greater || op == Operator::LessEqual || op == Operator::GreaterEqual || op
        == Operator::And || op == Operator::Or || op == Operator::ExclusiveOr
}

/// Each operator written between two operands is written as its C operator, the same text
/// that the C conversion gives it, and never as the placeholder for operators without one.
pub proof fn lemma_binary_operator_is_c_operator(op: Operator)
    requires
        is_written_binary(op),
    ensures
        binary_operator_text(op) == crate::operators::operator_c_form(op).1,
        crate::operators::operator_c_form(op).0 == crate::ast::CNodeType::InfixOperator,
        binary_operator_text(op) != unknown_binary(),
{
    assert(binary_operator_text(op).len() != unknown_binary().len());
}

/// Distinct operators are written differently: formatting never confuses two of them.
pub proof fn lemma_binary_operator_texts_distinct(a: Operator, b: Operator)
    requires
        is_written_binary(a),
        is_written_binary(b),
        a != b,
    ensures
        binary_operator_text(a) != binary_operator_text(b),
{
    let x = binary_operator_text(a);
    let y = binary_operator_text(b);
    if x.len() == y.len() {
        assert(x[0] != y[0] || (x.len() > 1 && x[1] != y[1]));
    }
}

/// Whether a branch or a body is written in braces of its own: unless it is a scoped
/// sequence (which writes its own braces).
pub open spec fn branch_needs_bracket(b: NodeSpec) -> bool {
    !(b matches NodeSpec::Sequence { mode: SequenceMode::Scope, .. })
}

/// Whether a node is a `return` call (a call of the variable `return`) without operands.
pub open spec fn return_without_operand(n: NodeSpec) -> bool {
    n matches NodeSpec::Call { operator, operands, .. } && operands.len() == 0
        && (*operator matches NodeSpec::Variable { name, .. } && name == return_name())
}

/// Whether a tree can be written: every `return` call has an operand.
pub open spec fn formattable(n: NodeSpec) -> bool {
    tree_all(n, |x: NodeSpec| !return_without_operand(x))
}

/// The context after writing the node `n`.
pub open spec fn format_node(n: NodeSpec, c: FormatSpec) -> FormatSpec
    decreases size(n), 0nat,
{
    match n {
        NodeSpec::Nothing { .. } => ctx_write_comment(c, msg_invalid_nothing()),
        NodeSpec::Comment { content } => ctx_write_comment(c, content),
        NodeSpec::Integer { value } => ctx_write(c, signed_decimal(value as int)),
        NodeSpec::Boolean { value } => ctx_write(c, bool_text(value)),
        NodeSpec::Variable { name, .. } => ctx_write(c, c_safe_name(name)),
        NodeSpec::PrimitiveOperator { operator, .. } => ctx_write_comment(
            c,
            msg_invalid_primitive() + operator_debug_name(operator),
        ),
        NodeSpec::Call { operator, operands, .. } => {
            proof {
                if operands.len() > 0 {
                    lemma_size_seq_element(operands, 0);
                }
                if operands.len() > 1 {
                    lemma_size_seq_element(operands, 1);
                }
            }
            match *operator {
                NodeSpec::PrimitiveOperator { operator: op, .. } => if operands.len() == 1 {
                    let s = unary_operator_text();
                    if last_group(c) == group_condition() {
                        format_node(operands[0], ctx_write(c, s + seq![' ']))
                    } else {
                        ctx_pop_group(
                            format_node(
                                operands[0],
                                ctx_write(ctx_push_group(c, s, true, false), s + seq![' ']),
                            ),
                        )
                    }
                } else if operands.len() == 2 {
                    let s = binary_operator_text(op);
                    let infix = seq![' '] + s + seq![' '];
                    if last_group(c) == group_condition() {
                        format_node(operands[1], ctx_write(format_node(operands[0], c), infix))
                    } else {
                        ctx_pop_group(
                            format_node(
                                operands[1],
                                ctx_write(
                                    format_node(operands[0], ctx_push_group(c, s, true, false)),
                                    infix,
                                ),
                            ),
                        )
                    }
                } else {
                    ctx_write_comment(c, msg_invalid_operands())
                },
                NodeSpec::Variable { name, .. } if name == return_name() && operands.len() > 0 => {
                    ctx_pop_group(
                        format_node(
                            operands[0],
                            ctx_write(ctx_push_group(c, return_name(), false, false), return_prefix()),
                        ),
                    )
                },
                _ => ctx_pop_group(
                    format_operands(
                        operands,
                        ctx_push_group(format_node(*operator, c), group_function_args(), true, true),
                    ),
                ),
            }
        },
        NodeSpec::Reference { target, .. } => ctx_pop_group(
            format_node(*target, ctx_write(ctx_push_group(c, group_ref(), true, false), seq!['&'])),
        ),
        NodeSpec::Dereference { target, .. } => ctx_pop_group(
            format_node(*target, ctx_write(ctx_push_group(c, group_deref(), true, false), seq!['*'])),
        ),
        NodeSpec::Binding { name, binding } => {
            let c1 = ctx_write(c, typed_identifier(name, node_type(*binding)));
            if *binding is Nothing {
                c1
            } else {
                ctx_pop_group(
                    format_node(
                        *binding,
                        ctx_push_group(ctx_write(c1, seq![' ', '=', ' ']), group_binding(), false, false),
                    ),
                )
            }
        },
        NodeSpec::Assign { lhs, rhs } => ctx_pop_group(
            format_node(
                *rhs,
                ctx_write(
                    format_node(*lhs, ctx_push_group(c, group_assign(), false, false)),
                    seq![' ', '=', ' '],
                ),
            ),
        ),
        NodeSpec::Sequence { mode, nodes, .. } => {
            let scoped = mode == SequenceMode::Scope;
            let c1 = ctx_push_group(c, group_sequence(), false, false);
            let c2 = if scoped {
                ctx_write(c1, seq!['{'])
            } else {
                c1
            };
            let c3 = format_lines(nodes, ctx_indent(c2));
            let c4 = ctx_start_line(ctx_dedent(c3));
            let c5 = if scoped {
                ctx_write(c4, seq!['}'])
            } else {
                c4
            };
            ctx_pop_group(c5)
        },
        NodeSpec::Conditional { condition, then_branch, else_branch, .. } => {
            let c1 = ctx_write(ctx_push_group(c, group_conditional(), false, false), seq!['i', 'f', ' ']);
            let c2 = ctx_pop_group(
                format_node(*condition, ctx_push_group(c1, group_condition(), true, true)),
            );
            let c3 = format_branch(*then_branch, ctx_start_line(c2));
            if *else_branch is Nothing {
                ctx_pop_group(c3)
            } else {
                let c4 = ctx_start_line(ctx_write(ctx_start_line(c3), else_text()));
                ctx_pop_group(format_branch(*else_branch, c4))
            }
        },
        NodeSpec::Function { name, .. } => ctx_write_comment(c, function_prefix() + name),
        NodeSpec::Access { target, property, .. } => {
            let c1 = format_node(*target, ctx_push_group(c, group_access(), true, false));
            let c2 = ctx_write(
                c1,
                if node_type(*target) is Reference {
                    seq!['-', '>']
                } else {
                    seq!['.']
                },
            );
            ctx_pop_group(ctx_write(c2, property))
        },
        NodeSpec::CNode { text, .. } => ctx_write(c, text),
    }
}

/// The context after writing the operands of a call, separated by `, `.
pub open spec fn format_operands(s: Seq<NodeSpec>, c: FormatSpec) -> FormatSpec
    decreases size_seq(s), 1nat,
{
    if s.len() == 0 {
        c
    } else {
        proof {
            lemma_size_seq_element(s, s.len() - 1);
        }
        let c1 = format_operands(s.drop_last(), c);
        let c2 = if s.len() > 1 {
            ctx_write(c1, seq![',', ' '])
        } else {
            c1
        };
        format_node(s.last(), c2)
    }
}

/// The context after writing the nodes of a sequence, each on a line of its own.
pub open spec fn format_lines(s: Seq<NodeSpec>, c: FormatSpec) -> FormatSpec
    decreases size_seq(s), 1nat,
{
    if s.len() == 0 {
        c
    } else {
        proof {
            lemma_size_seq_element(s, s.len() - 1);
        }
        let c1 = format_lines(s.drop_last(), c);
        ctx_end_line(format_node(s.last(), ctx_start_line(c1)), s.last())
    }
}

/// The context after writing a branch or a body, in braces of its own when it needs them.
pub open spec fn format_branch(b: NodeSpec, c: FormatSpec) -> FormatSpec
    decreases size(b), 1nat,
{
    if branch_needs_bracket(b) {
        let c1 = ctx_start_line(ctx_indent(ctx_write(c, seq!['{'])));
        let c2 = ctx_end_line(format_node(b, c1), b);
        ctx_write(ctx_start_line(ctx_dedent(c2)), seq!['}'])
    } else {
        format_node(b, c)
    }
}

/// The name of an operator as printed in diagnostics.
fn operator_debug_text(op: Operator) -> (r: &'static str)
    ensures
        r@ == operator_debug_name(op),
{
    match op {
        Operator::Add => {
            proof {
                reveal_strlit("Add");
            }
            "Add"
        },
        Operator::Subtract => {
            proof {
                reveal_strlit("Subtract");
            }
            "Subtract"
        },
        Operator::Multiply => {
            proof {
                reveal_strlit("Multiply");
            }
            "Multiply"
        },
        Operator::Divide => {
            proof {
                reveal_strlit("Divide");
            }
            "Divide"
        },
        Operator::Modulo => {
            proof {
                reveal_strlit("Modulo");
            }
            "Modulo"
        },
        Operator::Equal => {
            proof {
                reveal_strlit("Equal");
            }
            "Equal"
        },
        Operator::NotEqual => {
            proof {
                reveal_strlit("NotEqual");
            }
            "NotEqual"
        },
        Operator::Less => {
            proof {
                reveal_strlit("Less");
            }
            "Less"
        },
        Operator::Greater => {
            proof {
                reveal_strlit("Greater");
            }
            "Greater"
        },
        Operator::LessEqual => {
            proof {
                reveal_strlit("LessEqual");
            }
            "LessEqual"
        },
        Operator::GreaterEqual => {
            proof {
                reveal_strlit("GreaterEqual");
            }
            "GreaterEqual"
        },
        Operator::Not => {
            proof {
                reveal_strlit("Not");
            }
            "Not"
        },
        Operator::And => {
            proof {
                reveal_strlit("And");
            }
            "And"
        },
        Operator::Or => {
            proof {
                reveal_strlit("Or");
            }
            "Or"
        },
        Operator::ExclusiveOr => {
            proof {
                reveal_strlit("ExclusiveOr");
            }
            "ExclusiveOr"
        },
        Operator::Return => {
            proof {
                reveal_strlit("Return");
            }
            "Return"
        },
        Operator::Create => {
            proof {
                reveal_strlit("Create");
            }
            "Create"
        },
    }
}

/// The C text of a binary operator.
fn binary_operator_str(op: Operator) -> (r: &'static str)
    ensures
        r@ == binary_operator_text(op),
{
    match op {
        Operator::Add => {
            proof {
                reveal_strlit("+");
            }
            "+"
        },
        Operator::Equal => {
            proof {
                reveal_strlit("==");
            }
            "=="
        },
        Operator::NotEqual => {
            proof {
                reveal_strlit("!=");
            }
            "!="
        },
        Operator::Less => {
            proof {
                reveal_strlit("<");
            }
            "<"
        },
        Operator::Greater => {
            proof {
                reveal_strlit(">");
            }
            ">"
        },
        Operator::LessEqual => {
            proof {
                reveal_strlit("<=");
            }
            "<="
        },
        Operator::GreaterEqual => {
            proof {
                reveal_strlit(">=");
            }
            ">="
        },
        Operator::And => {
            proof {
                reveal_strlit("&&");
            }
            "&&"
        },
        Operator::Or => {
            proof {
                reveal_strlit("||");
            }
            "||"
        },
        Operator::ExclusiveOr => {
            proof {
                reveal_strlit("^");
            }
            "^"
        },
        _ => {
            proof {
                reveal_strlit("_OPERATOR_");
            }
            "_OPERATOR_"
        },
    }
}

/// Whether the innermost open group of the context is named `name`.
fn in_group(ctx: &FormatContext, name: &str) -> (r: bool)
    ensures
        r == (last_group(ctx.model()) == name@),
{
    let last = ctx.get_last_group();
    let n = text(name);
    last.eq(&n)
}

/// Writes a node.
pub fn parse_node(node: &Node, ctx: &mut FormatContext)
    requires
        formattable(node@),
        old(ctx).model().indent + size(node@) < usize::MAX,
    ensures
        final(ctx).model() == format_node(node@, old(ctx).model()),
        final(ctx).model().indent == old(ctx).model().indent,
    decreases size(node@), 1nat,
{
    proof {
        lemma_children_smaller(node@);
        lemma_tree_all_children(node@, |x: NodeSpec| !return_without_operand(x));
    }
    match node {
        Node::Nothing { .. } => {
            proof {
                reveal_strlit("invalid nothing");
                assert("invalid nothing"@ =~= msg_invalid_nothing());
            }
            ctx.write_comment_str("invalid nothing");
        },
        Node::Comment { content } => {
            ctx.write_comment(content.clone());
        },
        Node::Integer { value } => {
            let mut s = String::new();
            write_signed_decimal(&mut s, *value);
            assert(s@ =~= signed_decimal(*value as int));
            ctx.write(s);
        },
        Node::Boolean { value } => {
            proof {
                reveal_strlit("true");
                reveal_strlit("false");
            }
            let s = if *value {
                text("true")
            } else {
                text("false")
            };
            assert(s@ == bool_text(*value));
            ctx.write(s);
        },
        Node::Variable { name, .. } => {
            let s = ctx.get_identifier(name);
            ctx.write(s);
        },
        Node::PrimitiveOperator { operator, .. } => {
            proof {
                reveal_strlit("invalid primitive ");
                assert("invalid primitive "@ =~= msg_invalid_primitive());
            }
            let mut s = text("invalid primitive ");
            push_str(&mut s, operator_debug_text(*operator));
            ctx.write_comment(s);
        },
        Node::Call { operator, operands, .. } => {
            format_call(node, operator, operands, ctx);
        },
        Node::Reference { target, .. } => {
            proof {
                reveal_strlit("ref");
                reveal_strlit("&");
        assert("&"@ =~= seq!['&']);
                assert("ref"@ =~= group_ref());
            }
            let ghost t = (**target)@;
            assert(children(node@)[0] == t);
            ctx.push_group("ref", true, false);
            ctx.write_str("&");
            parse_node(target, ctx);
            ctx.pop_group();
        },
        Node::Dereference { target, .. } => {
            proof {
                reveal_strlit("deref");
                reveal_strlit("*");
        assert("*"@ =~= seq!['*']);
                assert("deref"@ =~= group_deref());
            }
            let ghost t = (**target)@;
            assert(children(node@)[0] == t);
            ctx.push_group("deref", true, false);
            ctx.write_str("*");
            parse_node(target, ctx);
            ctx.pop_group();
        },
        Node::Binding { name, binding } => {
            let ghost b = (**binding)@;
            assert(children(node@)[0] == b);
            let t = binding.get_type();
            let s = ctx.get_typed_identifier(name, &t);
            ctx.write(s);
            match &**binding {
                Node::Nothing { .. } => {},
                _ => {
                    proof {
                        reveal_strlit(" = ");
        assert(" = "@ =~= seq![' ', '=', ' ']);
                        reveal_strlit("binding");
                        assert("binding"@ =~= group_binding());
                    }
                    ctx.write_str(" = ");
                    ctx.push_group("binding", false, false);
                    parse_node(binding, ctx);
                    ctx.pop_group();
                },
            }
        },
        Node::Assign { lhs, rhs } => {
            proof {
                reveal_strlit(" = ");
        assert(" = "@ =~= seq![' ', '=', ' ']);
                reveal_strlit("assign");
                assert("assign"@ =~= group_assign());
            }
            assert(children(node@)[0] == (**lhs)@);
            assert(children(node@)[1] == (**rhs)@);
            ctx.push_group("assign", false, false);
            parse_node(lhs, ctx);
            ctx.write_str(" = ");
            parse_node(rhs, ctx);
            ctx.pop_group();
        },
        Node::Sequence { mode, nodes, .. } => {
            format_sequence(node, *mode, nodes, ctx);
        },
        Node::Conditional { condition, then_branch, else_branch, .. } => {
            format_conditional(node, condition, then_branch, else_branch, ctx);
        },
        Node::Function { name, .. } => {
            proof {
                reveal_strlit("function ");
                assert("function "@ =~= function_prefix());
            }
            let mut s = text("function ");
            push_string(&mut s, name);
            ctx.write_comment(s);
        },
        Node::Access { target, property, .. } => {
            proof {
                reveal_strlit("access");
                reveal_strlit("->");
        assert("->"@ =~= seq!['-', '>']);
                reveal_strlit(".");
        assert("."@ =~= seq!['.']);
                assert("access"@ =~= group_access());
            }
            assert(children(node@)[0] == (**target)@);
            ctx.push_group("access", true, false);
            parse_node(target, ctx);
            let target_type = target.get_type();
            match target_type {
                crate::ast::Type::Reference(..) => ctx.write_str("->"),
                _ => ctx.write_str("."),
            }
            ctx.write(property.clone());
            ctx.pop_group();
        },
        Node::CNode(c) => {
            ctx.write(c.text.clone());
        },
    }
}

/// Writes a call.
fn format_call(node: &Node, operator: &Node, operands: &Vec<Node>, ctx: &mut FormatContext)
    requires
        node@ == (NodeSpec::Call {
            operator: Box::new(operator@),
            operands: nodes_view(*operands),
            typ: node@->Call_typ,
        }),
        forall|i: int| 0 <= i < children(node@).len() ==> formattable(#[trigger] children(node@)[i]),
        !return_without_operand(node@),
        old(ctx).model().indent + size(node@) < usize::MAX,
    ensures
        final(ctx).model() == format_node(node@, old(ctx).model()),
        final(ctx).model().indent == old(ctx).model().indent,
    decreases size(node@), 0nat,
{
    proof {
        lemma_nodes_view(*operands);
        lemma_children_smaller(node@);
    }
    let ghost ops = nodes_view(*operands);
    assert(children(node@)[0] == operator@);
    assert(forall|i: int| 0 <= i < ops.len() ==> children(node@)[i + 1] == #[trigger] ops[i]);
    proof {
        if ops.len() > 0 {
            assert(children(node@)[1] == ops[0]);
        }
        if ops.len() > 1 {
            assert(children(node@)[2] == ops[1]);
        }
    }
    match operator {
        Node::PrimitiveOperator { operator: op, .. } => {
            if operands.len() == 1 {
                proof {
                    reveal_strlit("__OPERATOR__");
                    reveal_strlit("__OPERATOR__ ");
                    reveal_strlit("condition");
                    assert("__OPERATOR__"@ =~= unary_operator_text());
                    assert("__OPERATOR__ "@ =~= unary_operator_text() + seq![' ']);
                    assert("condition"@ =~= group_condition());
                }
                if in_group(ctx, "condition") {
                    ctx.write_str("__OPERATOR__ ");
                    parse_node(&operands[0], ctx);
                } else {
                    ctx.push_group("__OPERATOR__", true, false);
                    ctx.write_str("__OPERATOR__ ");
                    parse_node(&operands[0], ctx);
                    ctx.pop_group();
                }
            } else if operands.len() == 2 {
                proof {
                    reveal_strlit(" ");
        assert(" "@ =~= seq![' ']);
                    reveal_strlit("condition");
                    assert("condition"@ =~= group_condition());
                }
                let s = binary_operator_str(*op);
                let mut infix = text(" ");
                push_str(&mut infix, s);
                push_str(&mut infix, " ");
                assert(infix@ =~= seq![' '] + binary_operator_text(*op) + seq![' ']);
                if in_group(ctx, "condition") {
                    parse_node(&operands[0], ctx);
                    ctx.write(infix);
                    parse_node(&operands[1], ctx);
                } else {
                    ctx.push_group(s, true, false);
                    parse_node(&operands[0], ctx);
                    ctx.write(infix);
                    parse_node(&operands[1], ctx);
                    ctx.pop_group();
                }
            } else {
                proof {
                    reveal_strlit("Invalid call primitive operarand");
                    assert("Invalid call primitive operarand"@ =~= msg_invalid_operands());
                }
                ctx.write_comment_str("Invalid call primitive operarand");
            }
        },
        _ => {
            proof {
                reveal_strlit("return");
                reveal_strlit("return ");
                reveal_strlit("function_args");
                assert("return"@ =~= return_name());
                assert("return "@ =~= return_prefix());
                assert("function_args"@ =~= group_function_args());
            }
            let is_return = match operator {
                Node::Variable { name, .. } => {
                    let r = text("return");
                    name.eq(&r)
                },
                _ => false,
            };
            if is_return && operands.len() > 0 {
                ctx.push_group("return", false, false);
                ctx.write_str("return ");
                parse_node(&operands[0], ctx);
                ctx.pop_group();
            } else {
                parse_node(operator, ctx);
                ctx.push_group("function_args", true, true);
                let ghost c0 = ctx.model();
                let mut i: usize = 0;
                assert(ops.take(0) =~= Seq::<NodeSpec>::empty());
                while i < operands.len()
                    invariant
                        i <= operands.len(),
                        ops == nodes_view(*operands),
                        ops.len() == operands.len(),
                        forall|j: int| 0 <= j < operands.len() ==> ops[j] == (#[trigger] operands@[j])@,
                        forall|j: int| 0 <= j < ops.len() ==> formattable(#[trigger] ops[j]),
                        forall|j: int| 0 <= j < ops.len() ==> size(#[trigger] ops[j]) < size(node@),
                        ctx.model() == format_operands(ops.take(i as int), c0),
                        ctx.model().indent == c0.indent,
                        c0.indent + size(node@) < usize::MAX,
                    decreases operands.len() - i,
                {
                    proof {
                        reveal_strlit(", ");
        assert(", "@ =~= seq![',', ' ']);
                    }
                    let ghost t = ops.take(i + 1);
                    assert(t.drop_last() =~= ops.take(i as int));
                    assert(t.last() == ops[i as int]);
                    if i > 0 {
                        ctx.write_str(", ");
                    }
                    parse_node(&operands[i], ctx);
                    i += 1;
                }
                assert(ops.take(operands.len() as int) =~= ops);
                ctx.pop_group();
            }
        },
    }
}

/// Writes a sequence, one node per line.
fn format_sequence(node: &Node, mode: SequenceMode, nodes: &Vec<Node>, ctx: &mut FormatContext)
    requires
        node@ == (NodeSpec::Sequence { mode, nodes: nodes_view(*nodes), typ: node@->Sequence_typ }),
        forall|i: int| 0 <= i < children(node@).len() ==> formattable(#[trigger] children(node@)[i]),
        old(ctx).model().indent + size(node@) < usize::MAX,
    ensures
        final(ctx).model() == format_node(node@, old(ctx).model()),
        final(ctx).model().indent == old(ctx).model().indent,
    decreases size(node@), 0nat,
{
    proof {
        lemma_nodes_view(*nodes);
        lemma_children_smaller(node@);
        reveal_strlit("sequence");
        reveal_strlit("{");
        assert("{"@ =~= seq!['{']);
        reveal_strlit("}");
        assert("}"@ =~= seq!['}']);
        assert("sequence"@ =~= group_sequence());
    }
    let ghost ns = nodes_view(*nodes);
    let scoped = mode == SequenceMode::Scope;
    ctx.push_group("sequence", false, false);
    if scoped {
        ctx.write_str("{");
    }
    ctx.indent();
    let ghost c0 = ctx.model();
    let mut i: usize = 0;
    assert(ns.take(0) =~= Seq::<NodeSpec>::empty());
    while i < nodes.len()
        invariant
            i <= nodes.len(),
            ns == nodes_view(*nodes),
            ns.len() == nodes.len(),
            forall|j: int| 0 <= j < nodes.len() ==> ns[j] == (#[trigger] nodes@[j])@,
            forall|j: int| 0 <= j < ns.len() ==> formattable(#[trigger] ns[j]),
            forall|j: int| 0 <= j < ns.len() ==> size(#[trigger] ns[j]) < size(node@),
            ctx.model() == format_lines(ns.take(i as int), c0),
            ctx.model().indent == c0.indent,
            c0.indent + size(node@) <= usize::MAX,
        decreases nodes.len() - i,
    {
        let ghost t = ns.take(i + 1);
        assert(t.drop_last() =~= ns.take(i as int));
        assert(t.last() == ns[i as int]);
        ctx.start_line();
        parse_node(&nodes[i], ctx);
        ctx.end_line(&nodes[i]);
        i += 1;
    }
    assert(ns.take(nodes.len() as int) =~= ns);
    ctx.dedent();
    ctx.start_line();
    if scoped {
        ctx.write_str("}");
    }
    ctx.pop_group();
}

/// Writes a branch or a body, in braces of its own when it needs them.
fn format_branch_node(b: &Node, ctx: &mut FormatContext)
    requires
        formattable(b@),
        old(ctx).model().indent + size(b@) + 1 < usize::MAX,
    ensures
        final(ctx).model() == format_branch(b@, old(ctx).model()),
        final(ctx).model().indent == old(ctx).model().indent,
    decreases size(b@), 2nat,
{
    let needs_bracket = match b {
        Node::Sequence { mode: SequenceMode::Scope, .. } => false,
        _ => true,
    };
    if needs_bracket {
        proof {
            reveal_strlit("{");
        assert("{"@ =~= seq!['{']);
            reveal_strlit("}");
        assert("}"@ =~= seq!['}']);
        }
        ctx.write_str("{");
        ctx.indent();
        ctx.start_line();
        parse_node(b, ctx);
        ctx.end_line(b);
        ctx.dedent();
        ctx.start_line();
        ctx.write_str("}");
    } else {
        parse_node(b, ctx);
    }
}

/// Writes a conditional.
fn format_conditional(
    node: &Node,
    condition: &Node,
    then_branch: &Node,
    else_branch: &Node,
    ctx: &mut FormatContext,
)
    requires
        node@ == (NodeSpec::Conditional {
            condition: Box::new(condition@),
            then_branch: Box::new(then_branch@),
            else_branch: Box::new(else_branch@),
            typ: node@->Conditional_typ,
        }),
        forall|i: int| 0 <= i < children(node@).len() ==> formattable(#[trigger] children(node@)[i]),
        old(ctx).model().indent + size(node@) < usize::MAX,
    ensures
        final(ctx).model() == format_node(node@, old(ctx).model()),
        final(ctx).model().indent == old(ctx).model().indent,
    decreases size(node@), 0nat,
{
    proof {
        lemma_children_smaller(node@);
        reveal_strlit("conditional");
        reveal_strlit("condition");
        reveal_strlit("if ");
        assert("if "@ =~= seq!['i', 'f', ' ']);
        reveal_strlit("else");
        assert("conditional"@ =~= group_conditional());
        assert("condition"@ =~= group_condition());
        assert("else"@ =~= else_text());
    }
    assert(children(node@)[0] == condition@);
    assert(children(node@)[1] == then_branch@);
    assert(children(node@)[2] == else_branch@);
    ctx.push_group("conditional", false, false);
    ctx.write_str("if ");
    ctx.push_group("condition", true, true);
    parse_node(condition, ctx);
    ctx.pop_group();
    ctx.start_line();
    format_branch_node(then_branch, ctx);
    match else_branch {
        Node::Nothing { .. } => {},
        _ => {
            ctx.start_line();
            ctx.write_str("else");
            ctx.start_line();
            format_branch_node(else_branch, ctx);
        },
    }
    ctx.pop_group();
}

/// The C text of the statements of a program.
pub fn get_program_body(node: &Node) -> (r: String)
    requires
        formattable(node@),
        size(node@) < usize::MAX,
    ensures
        r@ == format_node(
            node@,
            FormatSpec { result: Seq::empty(), groups: Seq::empty(), indent: 0, declaration_mode: false },
        ).result,
{
    let mut ctx = FormatContext::new(String::new());
    parse_node(node, &mut ctx);
    ctx.get_result()
}


/// The context after writing the arguments of a function, typed, separated by `, `.
pub open spec fn format_arguments(args: Seq<ArgumentSpec>, c: FormatSpec) -> FormatSpec
    decreases args.len(),
{
    if args.len() == 0 {
        c
    } else {
        let c1 = format_arguments(args.drop_last(), c);
        let c2 = if args.len() > 1 {
            ctx_write(c1, seq![',', ' '])
        } else {
            c1
        };
        ctx_write(c2, typed_identifier(args.last().name, args.last().typ))
    }
}

/// The context after writing a function: its signature on a new line, then, unless only
/// declarations are written (then a `;`), its body (in braces of its own unless it is a
/// sequence).
pub open spec fn format_function(
    name: Seq<char>,
    arguments: Seq<ArgumentSpec>,
    return_type: TypeSpec,
    body: NodeSpec,
    c: FormatSpec,
) -> FormatSpec {
    let c1 = ctx_write(ctx_start_line(c), type_text(return_type) + seq![' '] + c_safe_name(name));
    let c2 = ctx_pop_group(
        format_arguments(arguments, ctx_push_group(c1, group_function_args(), true, true)),
    );
    if c.declaration_mode {
        ctx_write(c2, seq![';'])
    } else {
        let c3 = ctx_start_line(c2);
        if !(body is Sequence) {
            let c4 = ctx_start_line(ctx_indent(ctx_write(c3, seq!['{'])));
            let c5 = ctx_end_line(format_node(body, c4), body);
            ctx_write(ctx_start_line(ctx_dedent(c5)), seq!['}'])
        } else {
            format_node(body, c3)
        }
    }
}

/// The context after writing every function of a tree, outer functions before the ones
/// they contain.
pub open spec fn format_definitions(n: NodeSpec, c: FormatSpec) -> FormatSpec
    decreases size(n), 0nat,
{
    proof {
        lemma_children_smaller(n);
    }
    let c1 = match n {
        NodeSpec::Function { name, arguments, return_type, body, .. } => format_function(
            name,
            arguments,
            return_type,
            *body,
            c,
        ),
        _ => c,
    };
    format_definitions_seq(children(n), c1)
}

/// [`format_definitions`] of each tree of a sequence, in order.
pub open spec fn format_definitions_seq(s: Seq<NodeSpec>, c: FormatSpec) -> FormatSpec
    decreases size_seq(s), 1nat,
{
    if s.len() == 0 {
        c
    } else {
        proof {
            lemma_size_seq_element(s, s.len() - 1);
        }
        format_definitions(s.last(), format_definitions_seq(s.drop_last(), c))
    }
}

/// Writes a function (see [`format_function`]).
fn write_function(
    name: &String,
    arguments: &Vec<Argument>,
    return_type: &crate::ast::Type,
    body: &Node,
    ctx: &mut FormatContext,
)
    requires
        formattable(body@),
        old(ctx).model().indent + size(body@) + 1 < usize::MAX,
    ensures
        final(ctx).model() == format_function(
            name@,
            arguments_view(*arguments),
            return_type@,
            body@,
            old(ctx).model(),
        ),
        final(ctx).model().indent == old(ctx).model().indent,
{
    proof {
        lemma_arguments_view(*arguments);
        reveal_strlit(" ");
        reveal_strlit("function_args");
        reveal_strlit(";");
        reveal_strlit("{");
        reveal_strlit("}");
        assert("function_args"@ =~= group_function_args());
    }
    let c0 = ctx.is_declaration_mode();
    let return_type_string = ctx.get_type(return_type);
    let function_name = ctx.get_identifier(name);
    ctx.start_line();
    let mut signature = return_type_string;
    let ghost rt = signature@;
    push_str(&mut signature, " ");
    push_string(&mut signature, &function_name);
    assert(signature@ =~= rt + seq![' '] + function_name@);
    ctx.write(signature);
    ctx.push_group("function_args", true, true);
    let ghost args = arguments_view(*arguments);
    let ghost start = ctx.model();
    let mut i: usize = 0;
    assert(args.take(0) =~= Seq::<ArgumentSpec>::empty());
    while i < arguments.len()
        invariant
            i <= arguments.len(),
            args == arguments_view(*arguments),
            args.len() == arguments.len(),
            forall|j: int| 0 <= j < arguments.len() ==> args[j] == (#[trigger] arguments@[j])@,
            ctx.model() == format_arguments(args.take(i as int), start),
            ctx.model().indent == start.indent,
        decreases arguments.len() - i,
    {
        proof {
            reveal_strlit(", ");
            assert(", "@ =~= seq![',', ' ']);
        }
        let ghost t = args.take(i + 1);
        assert(t.drop_last() =~= args.take(i as int));
        assert(t.last() == args[i as int]);
        let argument_string = ctx.get_typed_identifier(&arguments[i].name, &arguments[i].typ);
        if i > 0 {
            ctx.write_str(", ");
        }
        ctx.write(argument_string);
        i += 1;
    }
    assert(args.take(arguments.len() as int) =~= args);
    ctx.pop_group();
    if c0 {
        ctx.write_str(";");
        assert(";"@ =~= seq![';']);
    } else {
        ctx.start_line();
        let body_needs_bracket = match body {
            Node::Sequence { .. } => false,
            _ => true,
        };
        if body_needs_bracket {
            assert("{"@ =~= seq!['{']);
            assert("}"@ =~= seq!['}']);
            ctx.write_str("{");
            ctx.indent();
            ctx.start_line();
            parse_node(body, ctx);
            ctx.end_line(body);
            ctx.dedent();
            ctx.start_line();
            ctx.write_str("}");
        } else {
            parse_node(body, ctx);
        }
    }
}

/// Writes every function of a tree (see [`format_definitions`]).
fn parse_function_definitions(node: &Node, ctx: &mut FormatContext)
    requires
        formattable(node@),
        old(ctx).model().indent + size(node@) < usize::MAX,
    ensures
        final(ctx).model() == format_definitions(node@, old(ctx).model()),
        final(ctx).model().indent == old(ctx).model().indent,
    decreases size(node@),
{
    let ghost n = node@;
    proof {
        lemma_children_smaller(n);
        lemma_tree_all_children(n, |x: NodeSpec| !return_without_operand(x));
    }
    match node {
        Node::Function { name, arguments, return_type, body, .. } => {
            assert(children(n)[0] == (**body)@);
            write_function(name, arguments, return_type, body, ctx);
        },
        _ => {},
    }
    let ghost c1 = ctx.model();
    let kids = child_refs(node);
    let ghost cs = children(n);
    let mut i: usize = 0;
    assert(cs.take(0) =~= Seq::<NodeSpec>::empty());
    while i < kids.len()
        invariant
            i <= kids.len(),
            kids.len() == cs.len(),
            n == node@,
            forall|j: int| 0 <= j < kids.len() ==> (#[trigger] kids@[j])@ == cs[j],
            forall|j: int| 0 <= j < cs.len() ==> size(#[trigger] cs[j]) < size(n),
            forall|j: int| 0 <= j < cs.len() ==> formattable(#[trigger] cs[j]),
            ctx.model() == format_definitions_seq(cs.take(i as int), c1),
            ctx.model().indent == c1.indent,
            c1.indent + size(n) < usize::MAX,
        decreases kids.len() - i,
    {
        let ghost t = cs.take(i + 1);
        assert(t.drop_last() =~= cs.take(i as int));
        assert(t.last() == cs[i as int]);
        parse_function_definitions(kids[i], ctx);
        i += 1;
    }
    assert(cs.take(cs.len() as int) =~= cs);
}

/// The C text of every function of a program: only their declarations when
/// `declarations_only` holds, else their definitions.
pub fn get_functions(node: &Node, declarations_only: bool) -> (r: String)
    requires
        formattable(node@),
        size(node@) < usize::MAX,
    ensures
        r@ == format_definitions(
            node@,
            FormatSpec {
                result: Seq::empty(),
                groups: Seq::empty(),
                indent: 0,
                declaration_mode: declarations_only,
            },
        ).result,
{
    let mut ctx = FormatContext::new(String::new());
    ctx.set_declaration_mode(declarations_only);
    parse_function_definitions(node, &mut ctx);
    ctx.get_result()
}

} // verus!

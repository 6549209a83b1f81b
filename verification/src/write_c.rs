//! Direct C output: the tree written as the body of the program's C main function, one node
//! at a time.
use vstd::prelude::*;
use crate::ast::{
    group_ast_views, lemma_nodes_view, node_type, nodes_view, Node, NodeSpec, Operator,
    SequenceMode, Type, TypeSpec,
};
use crate::convert_names::{c_safe_name, ConvertNames};
use crate::operators::{operator_c_form, operator_c_text};
use crate::text::{push_str, push_string, signed_decimal, write_signed_decimal};
use crate::tree::{
    children, lemma_children_smaller, lemma_size_seq_element, lemma_tree_all_children, size,
    size_seq, tree_all,
};

verus! {

broadcast use group_ast_views;

/// Whether an operator is one of the binary operators that this output writes.
pub open spec fn is_written_operator(op: Operator) -> bool {
    match op {
        Operator::Add | Operator::Equal | Operator::NotEqual | Operator::Less | Operator::Greater
        | Operator::LessEqual | Operator::GreaterEqual | Operator::And | Operator::Or
        | Operator::ExclusiveOr => true,
        _ => false,
    }
}

/// The name of an operator, as written in a comment.
pub open spec fn operator_name(op: Operator) -> Seq<char> {
    match op {
        Operator::Add => seq!['A', 'd', 'd'],
        Operator::Equal => seq!['E', 'q', 'u', 'a', 'l'],
        Operator::NotEqual => seq!['N', 'o', 't', 'E', 'q', 'u', 'a', 'l'],
        Operator::Less => seq!['L', 'e', 's', 's'],
        Operator::Greater => seq!['G', 'r', 'e', 'a', 't', 'e', 'r'],
        Operator::LessEqual => seq!['L', 'e', 's', 's', 'E', 'q', 'u', 'a', 'l'],
        Operator::GreaterEqual => seq!['G', 'r', 'e', 'a', 't', 'e', 'r', 'E', 'q', 'u', 'a', 'l'],
        Operator::And => seq!['A', 'n', 'd'],
        Operator::Or => seq!['O', 'r'],
        _ => seq!['E', 'x', 'c', 'l', 'u', 's', 'i', 'v', 'e', 'O', 'r'],
    }
}

/// Whether a node is one this output writes: no comment, access, function or C text node,
/// only the written operators, and a call on a primitive operator has two operands or more.
pub open spec fn writable_node(n: NodeSpec) -> bool {
    match n {
        NodeSpec::Comment { .. } | NodeSpec::Access { .. } | NodeSpec::Function { .. }
        | NodeSpec::CNode { .. } => false,
        NodeSpec::PrimitiveOperator { operator, .. } => is_written_operator(operator),
        NodeSpec::Call { operator, operands, .. } => match *operator {
            NodeSpec::PrimitiveOperator { .. } => operands.len() >= 2,
            _ => true,
        },
        _ => true,
    }
}

/// Whether every node of a tree is one this output writes.
pub open spec fn writable(n: NodeSpec) -> bool {
    tree_all(n, |m: NodeSpec| writable_node(m))
}

/// The innermost type under any reference layers.
pub open spec fn base_type(t: TypeSpec) -> TypeSpec
    decreases t,
{
    match t {
        TypeSpec::Reference(_, inner) => base_type(*inner),
        _ => t,
    }
}

/// The number of reference layers of a type.
pub open spec fn reference_layers(t: TypeSpec) -> nat
    decreases t,
{
    match t {
        TypeSpec::Reference(_, inner) => 1 + reference_layers(*inner),
        _ => 0,
    }
}

/// `k` stars.
pub open spec fn stars(k: nat) -> Seq<char>
    decreases k,
{
    if k == 0 {
        Seq::empty()
    } else {
        stars((k - 1) as nat) + seq!['*']
    }
}

/// The C type of a type: `int`, `void`, `bool` (or `???` for others), with a `*` for each
/// reference layer.
pub open spec fn c_type_text(t: TypeSpec) -> Seq<char> {
    let base = match base_type(t) {
        TypeSpec::Integer => seq!['i', 'n', 't'],
        TypeSpec::Void => seq!['v', 'o', 'i', 'd'],
        TypeSpec::Boolean => seq!['b', 'o', 'o', 'l'],
        _ => seq!['?', '?', '?'],
    };
    base + stars(reference_layers(t))
}

/// The text of a boolean.
pub open spec fn bool_text(b: bool) -> Seq<char> {
    if b {
        seq!['t', 'r', 'u', 'e']
    } else {
        seq!['f', 'a', 'l', 's', 'e']
    }
}

/// The C text of a tree.
pub open spec fn c_text(n: NodeSpec) -> Seq<char>
    decreases size(n), 0nat,
{
    proof {
        lemma_children_smaller(n);
    }
    match n {
        NodeSpec::Nothing { .. } => "/* invalid nothing node */"@,
        NodeSpec::Variable { name, .. } => c_safe_name(name),
        NodeSpec::Integer { value } => signed_decimal(value as int),
        NodeSpec::Boolean { value } => bool_text(value),
        NodeSpec::Call { operator, operands, .. } => match *operator {
            NodeSpec::PrimitiveOperator { operator: op, .. } => if operands.len() >= 2 {
                seq!['('] + c_text(children(n)[1]) + seq![' '] + operator_c_form(op).1 + seq![' ']
                    + c_text(children(n)[2]) + seq![')']
            } else {
                Seq::empty()
            },
            _ => "/* invalid operator node: call */"@,
        },
        NodeSpec::PrimitiveOperator { operator, .. } => "/* unhandled primitive operator "@
            + operator_name(operator) + " */"@,
        NodeSpec::Reference { .. } => "(& "@ + c_text(children(n)[0]) + ")"@,
        NodeSpec::Dereference { .. } => "(* "@ + c_text(children(n)[0]) + ")"@,
        NodeSpec::Binding { name, binding } => {
            let type_string = c_type_text(node_type(*binding));
            if *binding is Nothing {
                type_string + seq![' '] + c_safe_name(name)
            } else {
                type_string + seq![' '] + c_safe_name(name) + " = "@ + c_text(children(n)[0])
            }
        },
        NodeSpec::Assign { .. } => c_text(children(n)[0]) + " = "@ + c_text(children(n)[1]),
        NodeSpec::Sequence { mode, nodes, .. } => {
            let body = statements_text(nodes);
            if mode == SequenceMode::Transparent {
                body
            } else {
                "{ "@ + body + " }"@
            }
        },
        NodeSpec::Conditional { else_branch, .. } => {
            let head = "if ("@ + c_text(children(n)[0]) + ") {"@ + c_text(children(n)[1]) + seq!['}'];
            if *else_branch is Nothing {
                head
            } else {
                head + " else {"@ + c_text(children(n)[2]) + seq!['}']
            }
        },
        _ => Seq::empty(),
    }
}

/// The C text of each tree of a sequence, each followed by `;`.
pub open spec fn statements_text(s: Seq<NodeSpec>) -> Seq<char>
    decreases size_seq(s), 1nat,
{
    if s.len() == 0 {
        Seq::empty()
    } else {
        proof {
            lemma_size_seq_element(s, s.len() - 1);
        }
        statements_text(s.drop_last()) + c_text(s.last()) + seq![';']
    }
}

/// The whole C program: the runtime header and a main function whose body is the tree.
pub open spec fn program_text(n: NodeSpec) -> Seq<char> {
    "#include \"specs_runtime.h\"\nint _USER_MAIN() \n{\n"@ + c_text(n) + "\n}"@
}

/// The C type of a type (see [`c_type_text`]).
fn get_c_type(original_type: &Type) -> (r: String)
    ensures
        r@ == c_type_text(original_type@),
    decreases original_type,
{
    match original_type {
        Type::Reference(_, inner) => {
            let mut result = get_c_type(inner);
            push_str(&mut result, "*");
            proof {
                reveal_strlit("*");
                assert(stars(reference_layers(inner@) + 1) =~= stars(reference_layers(inner@)) + seq!['*']);
            }
            result
        },
        Type::Integer => {
            let mut result = String::new();
            push_str(&mut result, "int");
            proof {
                reveal_strlit("int");
                assert(result@ =~= c_type_text(original_type@));
            }
            result
        },
        Type::Void => {
            let mut result = String::new();
            push_str(&mut result, "void");
            proof {
                reveal_strlit("void");
                assert(result@ =~= c_type_text(original_type@));
            }
            result
        },
        Type::Boolean => {
            let mut result = String::new();
            push_str(&mut result, "bool");
            proof {
                reveal_strlit("bool");
                assert(result@ =~= c_type_text(original_type@));
            }
            result
        },
        _ => {
            let mut result = String::new();
            push_str(&mut result, "???");
            proof {
                reveal_strlit("???");
                assert(result@ =~= c_type_text(original_type@));
            }
            result
        },
    }
}

/// The C-safe version of a name.
fn c_name(name: &String) -> (r: String)
    ensures
        r@ == c_safe_name(name@),
{
    ConvertNames::new().convert_name(name.clone())
}

/// The name of an operator (see [`operator_name`]).
fn operator_name_text(op: Operator) -> (r: &'static str)
    requires
        is_written_operator(op),
    ensures
        r@ == operator_name(op),
{
    match op {
        Operator::Add => {
            proof {
                reveal_strlit("Add");
            }
            "Add"
        },
        Operator::Equal => {
            proof {
                reveal_strlit("Equal");
            }
            "Equal"
        },
        Operator::NotEqual => {
            proof {
                reveal_strlit("NotEqual");
            }
            "NotEqual"
        },
        Operator::Less => {
            proof {
                reveal_strlit("Less");
            }
            "Less"
        },
        Operator::Greater => {
            proof {
                reveal_strlit("Greater");
            }
            "Greater"
        },
        Operator::LessEqual => {
            proof {
                reveal_strlit("LessEqual");
            }
            "LessEqual"
        },
        Operator::GreaterEqual => {
            proof {
                reveal_strlit("GreaterEqual");
            }
            "GreaterEqual"
        },
        Operator::And => {
            proof {
                reveal_strlit("And");
            }
            "And"
        },
        Operator::Or => {
            proof {
                reveal_strlit("Or");
            }
            "Or"
        },
        _ => {
            proof {
                reveal_strlit("ExclusiveOr");
            }
            "ExclusiveOr"
        },
    }
}

/// The C text of a call (see [`c_text`]).
fn call_c(node: &Node, indent: usize) -> (r: String)
    requires
        writable(node@),
        node@ is Call,
    ensures
        r@ == c_text(node@),
    decreases size(node@), 0nat,
{
    let ghost n = node@;
    proof {
        lemma_children_smaller(n);
        lemma_tree_all_children(n, |m: NodeSpec| writable_node(m));
    }
    let mut result = String::new();
    match node {
        Node::Call { operator, operands, .. } => {
            proof {
                lemma_nodes_view(*operands);
            }
            match &**operator {
                Node::PrimitiveOperator { operator: op, .. } => {
                    assert(writable_node(n));
                    assert(children(n) == seq![(**operator)@] + nodes_view(*operands));
                    assert(children(n)[1] == operands@[0]@);
                    assert(children(n)[2] == operands@[1]@);
                    let a_string = get_c(&operands[0], indent);
                    let b_string = get_c(&operands[1], indent);
                    let (_, operator_string) = operator_c_text(*op);
                    push_str(&mut result, "(");
                    push_string(&mut result, &a_string);
                    push_str(&mut result, " ");
                    push_str(&mut result, operator_string);
                    push_str(&mut result, " ");
                    push_string(&mut result, &b_string);
                    push_str(&mut result, ")");
                    proof {
                        reveal_strlit("(");
                        reveal_strlit(" ");
                        reveal_strlit(")");
                        assert(result@ =~= c_text(n));
                    }
                },
                _ => {
                    push_str(&mut result, "/* invalid operator node: call */");
                },
            }
        },
        _ => {},
    }
    result
}

/// The C text of a binding (see [`c_text`]).
fn binding_c(node: &Node, indent: usize) -> (r: String)
    requires
        writable(node@),
        node@ is Binding,
    ensures
        r@ == c_text(node@),
    decreases size(node@), 0nat,
{
    let ghost n = node@;
    proof {
        lemma_children_smaller(n);
        lemma_tree_all_children(n, |m: NodeSpec| writable_node(m));
    }
    let mut result = String::new();
    match node {
        Node::Binding { name, binding } => {
            assert(children(n)[0] == (**binding)@);
            let type_string = get_c_type(&binding.get_type());
            let c_safe = c_name(name);
            push_string(&mut result, &type_string);
            push_str(&mut result, " ");
            push_string(&mut result, &c_safe);
            let is_nothing = match &**binding {
                Node::Nothing { .. } => true,
                _ => false,
            };
            if !is_nothing {
                let binding_string = get_c(binding, indent);
                push_str(&mut result, " = ");
                push_string(&mut result, &binding_string);
            }
            proof {
                reveal_strlit(" ");
                assert(result@ =~= c_text(n));
            }
        },
        _ => {},
    }
    result
}

/// The C text of a sequence (see [`c_text`]).
fn sequence_c(node: &Node, indent: usize) -> (r: String)
    requires
        writable(node@),
        node@ is Sequence,
    ensures
        r@ == c_text(node@),
    decreases size(node@), 0nat,
{
    let ghost n = node@;
    proof {
        lemma_children_smaller(n);
        lemma_tree_all_children(n, |m: NodeSpec| writable_node(m));
    }
    let mut result = String::new();
    match node {
        Node::Sequence { mode, nodes, .. } => {
            let ghost s = nodes_view(*nodes);
            proof {
                lemma_nodes_view(*nodes);
            }
            let mut body = String::new();
            let mut i: usize = 0;
            while i < nodes.len()
                invariant
                    i <= nodes.len(),
                    s == nodes_view(*nodes),
                    s.len() == nodes.len(),
                    s == children(n),
                    forall|j: int| 0 <= j < nodes.len() ==> s[j] == (#[trigger] nodes@[j])@,
                    forall|j: int| 0 <= j < s.len() ==> size(#[trigger] s[j]) < size(n),
                    forall|j: int| 0 <= j < s.len() ==> writable(#[trigger] s[j]),
                    n == node@,
                    body@ == statements_text(s.take(i as int)),
                decreases nodes.len() - i,
            {
                assert(writable(s[i as int]));
                let node_string = get_c(&nodes[i], indent);
                push_string(&mut body, &node_string);
                push_str(&mut body, ";");
                proof {
                    reveal_strlit(";");
                    let t = s.take(i + 1);
                    assert(t.drop_last() =~= s.take(i as int));
                    assert(t.last() == s[i as int]);
                }
                i += 1;
            }
            assert(s.take(nodes.len() as int) =~= s);
            match mode {
                SequenceMode::Transparent => {
                    result = body;
                },
                SequenceMode::Scope => {
                    push_str(&mut result, "{ ");
                    push_string(&mut result, &body);
                    push_str(&mut result, " }");
                },
            }
        },
        _ => {},
    }
    result
}

/// The C text of a conditional (see [`c_text`]).
fn conditional_c(node: &Node, indent: usize) -> (r: String)
    requires
        writable(node@),
        node@ is Conditional,
    ensures
        r@ == c_text(node@),
    decreases size(node@), 0nat,
{
    let ghost n = node@;
    proof {
        lemma_children_smaller(n);
        lemma_tree_all_children(n, |m: NodeSpec| writable_node(m));
    }
    let mut result = String::new();
    match node {
        Node::Conditional { condition, then_branch, else_branch, .. } => {
            assert(children(n)[0] == (**condition)@);
            assert(children(n)[1] == (**then_branch)@);
            assert(children(n)[2] == (**else_branch)@);
            let condition_string = get_c(condition, indent);
            let then_string = get_c(then_branch, indent);
            push_str(&mut result, "if (");
            push_string(&mut result, &condition_string);
            push_str(&mut result, ") {");
            push_string(&mut result, &then_string);
            push_str(&mut result, "}");
            let has_else = match &**else_branch {
                Node::Nothing { .. } => false,
                _ => true,
            };
            if has_else {
                let else_string = get_c(else_branch, indent);
                push_str(&mut result, " else {");
                push_string(&mut result, &else_string);
                push_str(&mut result, "}");
            }
            proof {
                reveal_strlit("}");
                assert(result@ =~= c_text(n));
            }
        },
        _ => {},
    }
    result
}

/// The C text of a tree (see [`c_text`]).
fn get_c(node: &Node, indent: usize) -> (r: String)
    requires
        writable(node@),
    ensures
        r@ == c_text(node@),
    decreases size(node@), 1nat,
{
    let ghost n = node@;
    proof {
        lemma_children_smaller(n);
        lemma_tree_all_children(n, |m: NodeSpec| writable_node(m));
    }
    let mut result = String::new();
    match node {
        Node::Nothing { .. } => {
            push_str(&mut result, "/* invalid nothing node */");
        },
        Node::Variable { name, .. } => {
            result = c_name(name);
        },
        Node::Integer { value } => {
            write_signed_decimal(&mut result, *value);
        },
        Node::Boolean { value } => {
            if *value {
                push_str(&mut result, "true");
                proof {
                    reveal_strlit("true");
                }
            } else {
                push_str(&mut result, "false");
                proof {
                    reveal_strlit("false");
                }
            }
        },
        Node::Call { .. } => {
            result = call_c(node, indent);
        },
        Node::PrimitiveOperator { operator, .. } => {
            push_str(&mut result, "/* unhandled primitive operator ");
            push_str(&mut result, operator_name_text(*operator));
            push_str(&mut result, " */");
        },
        Node::Reference { target, .. } => {
            assert(children(n)[0] == (**target)@);
            let target_string = get_c(target, indent);
            push_str(&mut result, "(& ");
            push_string(&mut result, &target_string);
            push_str(&mut result, ")");
        },
        Node::Dereference { target, .. } => {
            assert(children(n)[0] == (**target)@);
            let target_string = get_c(target, indent);
            push_str(&mut result, "(* ");
            push_string(&mut result, &target_string);
            push_str(&mut result, ")");
        },
        Node::Binding { .. } => {
            result = binding_c(node, indent);
        },
        Node::Assign { lhs, rhs } => {
            assert(children(n)[0] == (**lhs)@);
            assert(children(n)[1] == (**rhs)@);
            let lhs_string = get_c(lhs, indent);
            let rhs_string = get_c(rhs, indent);
            push_string(&mut result, &lhs_string);
            push_str(&mut result, " = ");
            push_string(&mut result, &rhs_string);
        },
        Node::Sequence { .. } => {
            result = sequence_c(node, indent);
        },
        Node::Conditional { .. } => {
            result = conditional_c(node, indent);
        },
        _ => {},
    }
    result
}

/// The whole C program whose main function's body is the tree.
pub fn apply(node: &Node) -> (r: String)
    requires
        writable(node@),
    ensures
        r@ == program_text(node@),
{
    let mut result = String::new();
    push_str(&mut result, "#include \"specs_runtime.h\"\nint _USER_MAIN() \n{\n");
    let body = get_c(node, 1);
    push_string(&mut result, &body);
    push_str(&mut result, "\n}");
    result
}

} // verus!

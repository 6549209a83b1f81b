//! The C conversion pass of the message-reporting pass framework: each node becomes a piece
//! of C text once its children have, and each node whose children could not all become C
//! text is left as it is and reported.
use vstd::prelude::*;
use crate::ast::{
    arguments_view, group_ast_views, lemma_nodes_view, nodes_view, Argument, CNode, CNodeType,
    Node, NodeSpec, Operator, SequenceMode, Type, TypeSpec,
};
use crate::c_convert::{
    arguments_text, block, block_text, bool_text, bound_parts, call_arguments, call_arguments_text,
    call_without_operands, cnode, cnode_parts, function_text, msg_access_target,
    msg_assign_sides, msg_binding_value, msg_call_operator, msg_conditional_nodes,
    msg_dereference_target, msg_function_body, msg_sequence_node, non_bare, non_bare_text,
    operator_cnode, sequence_body, sequence_body_text, sequence_cnode, type_c_text, wrapped,
    wrapped_text,
};
use crate::flatten_definitions::lemma_children_of_with_children;
use crate::operators::{operator_c_form, operator_c_text};
use crate::pass_messages::{error_pass, messages_view, MessageSpec, PassMessageContext, PassResult};
use crate::text::{push_str, push_string, signed_decimal, text, write_signed_decimal};
use crate::tree::{
    children, lemma_children_smaller, lemma_size_seq_element, lemma_tree_all_children,
    put_children, size, size_seq, take_children, tree_all, with_children,
};
use crate::validate_nodes::{get_kind_name, kind_name};

verus! {

broadcast use group_ast_views;

/// The name of the pass.
pub open spec fn convert_pass_name() -> Seq<char> {
    "ConvertC"@
}

/// How an operator is written in C by this pass: as by [`operator_c_form`], except that
/// `return` is atomic text.
pub open spec fn specs_operator_form(op: Operator) -> (CNodeType, Seq<char>) {
    if op == Operator::Return {
        (CNodeType::Atomic, seq!['r', 'e', 't', 'u', 'r', 'n'])
    } else {
        operator_c_form(op)
    }
}

/// The message about a call whose operands are not C text.
pub open spec fn msg_call_operands() -> Seq<char> {
    "Expected call operands to be CNodes"@
}

/// The message about a call of a prefix operator whose operand is not C text.
pub open spec fn msg_prefix_call_operand() -> Seq<char> {
    "Expected call operand to be CNodes"@
}

/// The message about a reference whose target is not C text.
pub open spec fn msg_reference() -> Seq<char> {
    "Expected reference target to be CNode"@
}

/// The first tree of a sequence that is not C text, if there is one.
pub open spec fn first_not_c_text(s: Seq<NodeSpec>) -> Option<NodeSpec>
    decreases s.len(),
{
    if s.len() == 0 {
        None
    } else if !(s[0] is CNode) {
        Some(s[0])
    } else {
        first_not_c_text(s.drop_first())
    }
}

/// A call as C text: an infix operator between its two operands, a prefix (or infix)
/// operator before its first operand, or a function call; or the message about the call.
pub open spec fn specs_convert_call(n: NodeSpec, operator: NodeSpec, operands: Seq<NodeSpec>, typ: TypeSpec) -> Result<
    NodeSpec,
    (Seq<char>, NodeSpec),
> {
    match operator {
        NodeSpec::CNode { node_type: ot, text: otext, .. } => if ot == CNodeType::InfixOperator
            && operands.len() == 2 {
            match (operands[0], operands[1]) {
                (
                    NodeSpec::CNode { node_type: at, text: atext, .. },
                    NodeSpec::CNode { node_type: bt, text: btext, .. },
                ) => Ok(
                    cnode(
                        CNodeType::Bare,
                        non_bare_text(at, atext) + seq![' '] + otext + seq![' '] + non_bare_text(
                            bt,
                            btext,
                        ),
                        typ,
                    ),
                ),
                _ => Err((msg_call_operands(), n)),
            }
        } else if ot == CNodeType::PrefixOperator || ot == CNodeType::InfixOperator {
            match operands[0] {
                NodeSpec::CNode { node_type: at, text: atext, .. } => Ok(
                    cnode(CNodeType::Bare, otext + seq![' '] + non_bare_text(at, atext), typ),
                ),
                _ => Err((msg_prefix_call_operand(), n)),
            }
        } else {
            match call_arguments_text(operands) {
                Some(arguments) => Ok(
                    cnode(CNodeType::Call, otext + seq!['('] + arguments + seq![')'], typ),
                ),
                None => Err((msg_call_operands(), n)),
            }
        },
        _ => Err((msg_call_operator(), n)),
    }
}

/// A node after its children, as C text; or, when a child is not C text, the message and
/// the node it is about (for a sequence, its first node that is not C text). C text stays
/// as it is.
pub open spec fn specs_convert_node(n: NodeSpec) -> Result<NodeSpec, (Seq<char>, NodeSpec)> {
    match n {
        NodeSpec::Comment { content } => Ok(
            cnode(
                CNodeType::Comment,
                seq!['/', '*', ' '] + content + seq![' ', '*', '/'],
                TypeSpec::Void,
            ),
        ),
        NodeSpec::Integer { value } => Ok(
            cnode(CNodeType::Atomic, signed_decimal(value as int), TypeSpec::Integer),
        ),
        NodeSpec::Boolean { value } => Ok(
            cnode(CNodeType::Atomic, bool_text(value), TypeSpec::Boolean),
        ),
        NodeSpec::Variable { name, typ } => Ok(cnode(CNodeType::Atomic, name, typ)),
        NodeSpec::Nothing { typ } => Ok(cnode(CNodeType::Nothing, Seq::empty(), typ)),
        NodeSpec::PrimitiveOperator { operator, typ } => Ok(
            cnode(specs_operator_form(operator).0, specs_operator_form(operator).1, typ),
        ),
        NodeSpec::Call { operator, operands, typ } => specs_convert_call(n, *operator, operands, typ),
        NodeSpec::Reference { target, typ, .. } => match *target {
            NodeSpec::CNode { node_type, text, .. } => Ok(
                cnode(CNodeType::Bare, seq!['&'] + non_bare_text(node_type, text), typ),
            ),
            _ => Err((msg_reference(), n)),
        },
        NodeSpec::Dereference { target, typ } => match *target {
            NodeSpec::CNode { node_type, text, .. } => Ok(
                cnode(CNodeType::Bare, seq!['&'] + non_bare_text(node_type, text), typ),
            ),
            _ => Err((msg_dereference_target(), n)),
        },
        NodeSpec::Assign { lhs, rhs } => match (*lhs, *rhs) {
            (NodeSpec::CNode { text: ltext, .. }, NodeSpec::CNode { text: rtext, .. }) => Ok(
                cnode(CNodeType::Bare, ltext + seq![' ', '=', ' '] + rtext, TypeSpec::Void),
            ),
            _ => Err((msg_assign_sides(), n)),
        },
        NodeSpec::Access { target, property, typ } => match *target {
            NodeSpec::CNode { node_type, text, .. } => Ok(
                cnode(
                    CNodeType::Bare,
                    non_bare_text(node_type, text) + seq!['.'] + property,
                    typ,
                ),
            ),
            _ => Err((msg_access_target(), n)),
        },
        NodeSpec::Binding { name, binding } => match *binding {
            NodeSpec::CNode { node_type, text, typ } => Ok(
                cnode(
                    CNodeType::Bare,
                    type_c_text(typ) + seq![' '] + name + (if node_type == CNodeType::Nothing {
                        Seq::empty()
                    } else {
                        seq![' ', '=', ' '] + text
                    }),
                    TypeSpec::Void,
                ),
            ),
            _ => Err((msg_binding_value(), n)),
        },
        NodeSpec::Sequence { mode, nodes, typ } => match sequence_body_text(nodes) {
            Some(body) => Ok(
                if mode == SequenceMode::Scope {
                    cnode(CNodeType::Block, seq!['{'] + body + seq![' ', '}'], typ)
                } else {
                    cnode(CNodeType::BlockTransparent, body + seq![' '], typ)
                },
            ),
            None => Err((msg_sequence_node(), first_not_c_text(nodes)->0)),
        },
        NodeSpec::Conditional { condition, then_branch, else_branch, typ } => match (
            *condition,
            *then_branch,
            *else_branch,
        ) {
            (
                NodeSpec::CNode { node_type: ct, text: ctext, .. },
                NodeSpec::CNode { node_type: tt, text: ttext, .. },
                NodeSpec::CNode { node_type: et, text: etext, .. },
            ) => Ok(
                cnode(
                    CNodeType::Conditional,
                    seq!['i', 'f', ' '] + wrapped_text(ct, ctext) + seq![' '] + block_text(tt, ttext)
                        + (if et == CNodeType::Nothing {
                        Seq::empty()
                    } else {
                        seq![' ', 'e', 'l', 's', 'e', ' '] + block_text(et, etext)
                    }),
                    typ,
                ),
            ),
            _ => Err((msg_conditional_nodes(), n)),
        },
        NodeSpec::Function { name, arguments, return_type, body, typ } => match *body {
            NodeSpec::CNode { node_type, text, .. } => Ok(
                cnode(
                    CNodeType::Function,
                    type_c_text(return_type) + seq![' '] + name + seq!['('] + arguments_text(
                        arguments,
                    ) + seq![')'] + block_text(node_type, text),
                    typ,
                ),
            ),
            _ => Err((msg_function_body(), n)),
        },
        NodeSpec::CNode { .. } => Ok(n),
    }
}

/// The error message of the pass about the node `about`, at the given depth.
pub open spec fn problem_message(message: Seq<char>, about: NodeSpec, depth: nat) -> MessageSpec {
    MessageSpec {
        pass: error_pass(convert_pass_name()),
        name: "InvalidNode"@,
        message,
        source: kind_name(about),
        indent: depth,
    }
}

/// The tree `n` (at the given depth) with each node made C text once its children are, and
/// the messages of the pass in the order it reports them: those of the children (each at
/// the next depth, in order), then the one about the node itself, if any.
pub open spec fn c_converted(n: NodeSpec, depth: nat) -> (NodeSpec, Seq<MessageSpec>)
    decreases size(n), 0nat,
{
    proof {
        lemma_children_smaller(n);
    }
    let r = c_converted_seq(children(n), depth + 1);
    let m = with_children(n, r.0);
    match specs_convert_node(m) {
        Ok(c) => (c, r.1),
        Err(p) => (m, r.1.push(problem_message(p.0, p.1, depth))),
    }
}

/// [`c_converted`] of each tree of a sequence, in order.
pub open spec fn c_converted_seq(s: Seq<NodeSpec>, depth: nat) -> (Seq<NodeSpec>, Seq<MessageSpec>)
    decreases size_seq(s), 1nat,
{
    if s.len() == 0 {
        (s, Seq::empty())
    } else {
        proof {
            lemma_size_seq_element(s, s.len() - 1);
        }
        let r = c_converted_seq(s.drop_last(), depth);
        let e = c_converted(s.last(), depth);
        (r.0.push(e.0), r.1 + e.1)
    }
}

/// Whether a node is a call without operands of an operator that this pass writes as a
/// prefix or infix operator (such a call has no C form).
pub open spec fn specs_operator_call_without_operands(n: NodeSpec) -> bool {
    n matches NodeSpec::Call { operator, operands, .. } && operands.len() == 0 && (
    operator_cnode(*operator) || (*operator matches NodeSpec::PrimitiveOperator { operator: o, .. }
        && (specs_operator_form(o).0 == CNodeType::InfixOperator || specs_operator_form(o).0
        == CNodeType::PrefixOperator)))
}

/// Whether the pass can run over a tree: no call in it lacks the operand of its prefix or
/// infix operator.
pub open spec fn specs_convertible(n: NodeSpec) -> bool {
    tree_all(n, |x: NodeSpec| !specs_operator_call_without_operands(x))
}

/// What a node becomes is C text whenever the node has a C form.
proof fn lemma_converted_node_is_c_text(n: NodeSpec)
    ensures
        specs_convert_node(n) matches Ok(c) ==> c is CNode,
{
}

/// A node that becomes C text for a prefix or infix operator was a primitive operator that
/// this pass writes so, or already such C text.
proof fn lemma_c_converted_operator(n: NodeSpec, depth: nat)
    ensures
        operator_cnode(c_converted(n, depth).0) ==> operator_cnode(n) || (n matches NodeSpec::PrimitiveOperator {
            operator: o,
            ..
        } && (specs_operator_form(o).0 == CNodeType::InfixOperator || specs_operator_form(o).0
            == CNodeType::PrefixOperator)),
{
    lemma_children_smaller(n);
    let r = c_converted_seq(children(n), depth + 1);
    lemma_c_converted_seq_len(children(n), depth + 1);
    lemma_children_of_with_children(n, r.0);
    let m = with_children(n, r.0);
    if n is CNode {
        assert(m == n);
    }
}

/// The pass keeps the number of trees of a sequence, and the first tree is converted on
/// its own.
proof fn lemma_c_converted_seq_len(s: Seq<NodeSpec>, depth: nat)
    ensures
        c_converted_seq(s, depth).0.len() == s.len(),
        s.len() > 0 ==> c_converted_seq(s, depth).0[0] == c_converted(s[0], depth).0,
    decreases s.len(),
{
    if s.len() > 0 {
        lemma_c_converted_seq_len(s.drop_last(), depth);
        if s.len() > 1 {
            assert(s.drop_last()[0] == s[0]);
        }
    }
}

/// The operands of a function call have a text when all are C text.
proof fn lemma_all_c_text_arguments(s: Seq<NodeSpec>)
    requires
        forall|j: int| 0 <= j < s.len() ==> #[trigger] s[j] is CNode,
    ensures
        call_arguments_text(s) is Some,
    decreases s.len(),
{
    if s.len() > 0 {
        let t = s.drop_last();
        assert forall|j: int| 0 <= j < t.len() implies #[trigger] t[j] is CNode by {
            assert(t[j] == s[j]);
        }
        lemma_all_c_text_arguments(t);
        assert(s.last() == s[s.len() - 1]);
    }
}

/// On every tree it can run over, the pass reports nothing and collapses the whole tree into
/// one piece of C text.
pub proof fn lemma_conversion_complete(n: NodeSpec, depth: nat)
    requires
        specs_convertible(n),
    ensures
        c_converted(n, depth).1.len() == 0,
        c_converted(n, depth).0 is CNode,
    decreases size(n), 0nat,
{
    lemma_children_smaller(n);
    lemma_tree_all_children(n, |x: NodeSpec| !specs_operator_call_without_operands(x));
    let cs = children(n);
    lemma_conversion_complete_seq(cs, depth + 1);
    let r = c_converted_seq(cs, depth + 1);
    lemma_c_converted_seq_len(cs, depth + 1);
    lemma_children_of_with_children(n, r.0);
    let m = with_children(n, r.0);
    match n {
        NodeSpec::Call { operator, operands, .. } => {
            lemma_c_converted_operator(*operator, depth + 1);
            let ops = m->Call_operands;
            assert(ops == r.0.drop_first());
            assert forall|j: int| 0 <= j < ops.len() implies #[trigger] ops[j] is CNode by {
                assert(ops[j] == r.0[j + 1]);
            }
            lemma_all_c_text_arguments(ops);
            assert(*m->Call_operator == r.0[0]);
        },
        NodeSpec::Sequence { .. } => {
            assert(m->Sequence_nodes == r.0);
            lemma_all_c_text_body(r.0);
        },
        _ => {},
    }
    lemma_converted_node_is_c_text(m);
}

/// [`lemma_conversion_complete`] for each tree of a sequence.
pub proof fn lemma_conversion_complete_seq(s: Seq<NodeSpec>, depth: nat)
    requires
        forall|j: int| 0 <= j < s.len() ==> specs_convertible(#[trigger] s[j]),
    ensures
        c_converted_seq(s, depth).1.len() == 0,
        forall|j: int| 0 <= j < s.len() ==> #[trigger] c_converted_seq(s, depth).0[j] is CNode,
    decreases size_seq(s), 1nat,
{
    lemma_c_converted_seq_len(s, depth);
    if s.len() > 0 {
        lemma_size_seq_element(s, s.len() - 1);
        let t = s.drop_last();
        assert forall|j: int| 0 <= j < t.len() implies specs_convertible(#[trigger] t[j]) by {
            assert(t[j] == s[j]);
        }
        lemma_conversion_complete_seq(t, depth);
        lemma_c_converted_seq_len(t, depth);
        lemma_conversion_complete(s.last(), depth);
        let r = c_converted_seq(s, depth).0;
        assert forall|j: int| 0 <= j < s.len() implies #[trigger] r[j] is CNode by {
            if j < s.len() - 1 {
                assert(r[j] == c_converted_seq(t, depth).0[j]);
            }
        }
    }
}

/// The first tree that is not C text, when all trees before the `i`-th are C text and the
/// `i`-th is not.
proof fn lemma_first_not_c_text(s: Seq<NodeSpec>, i: int)
    requires
        0 <= i < s.len(),
        forall|j: int| 0 <= j < i ==> #[trigger] s[j] is CNode,
        !(s[i] is CNode),
    ensures
        first_not_c_text(s) == Some(s[i]),
    decreases i,
{
    if i > 0 {
        let t = s.drop_first();
        assert forall|j: int| 0 <= j < i - 1 implies #[trigger] t[j] is CNode by {
            assert(t[j] == s[j + 1]);
        }
        assert(t[i - 1] == s[i]);
        lemma_first_not_c_text(t, i - 1);
    }
}

/// A sequence of C text has a body.
proof fn lemma_all_c_text_body(s: Seq<NodeSpec>)
    requires
        forall|j: int| 0 <= j < s.len() ==> #[trigger] s[j] is CNode,
    ensures
        sequence_body_text(s) is Some,
    decreases s.len(),
{
    if s.len() > 0 {
        let t = s.drop_last();
        assert forall|j: int| 0 <= j < t.len() implies #[trigger] t[j] is CNode by {
            assert(t[j] == s[j]);
        }
        lemma_all_c_text_body(t);
        assert(s.last() == s[s.len() - 1]);
    }
}

/// The index of the first node of a sequence that is not C text, when the sequence has no
/// body.
fn first_not_c_text_index(nodes: &Vec<Node>) -> (r: usize)
    requires
        sequence_body_text(nodes_view(*nodes)) is None,
    ensures
        r < nodes.len(),
        first_not_c_text(nodes_view(*nodes)) == Some(nodes_view(*nodes)[r as int]),
{
    proof {
        lemma_nodes_view(*nodes);
    }
    let ghost ns = nodes_view(*nodes);
    let mut i: usize = 0;
    while i < nodes.len()
        invariant
            i <= nodes.len(),
            ns == nodes_view(*nodes),
            ns.len() == nodes.len(),
            forall|j: int| 0 <= j < nodes.len() ==> ns[j] == (#[trigger] nodes@[j])@,
            forall|j: int| 0 <= j < i ==> #[trigger] ns[j] is CNode,
        decreases nodes.len() - i,
    {
        if let Node::CNode(_) = &nodes[i] {
            assert(ns[i as int] is CNode);
            i += 1;
        } else {
            assert(!(ns[i as int] is CNode));
            proof {
                lemma_first_not_c_text(ns, i as int);
            }
            return i;
        }
    }
    proof {
        lemma_all_c_text_body(ns);
    }
    0
}

/// ## Convert C Pass
///
/// - Converts the whole tree into a CNode by converting every node into a CNode and
///   formatting its C text
pub struct Pass {}

/// The state of the pass (it keeps none).
pub struct State {}

impl State {
    pub fn empty() -> Self {
        State {}
    }
}

impl Pass {
    pub fn new() -> Self {
        Self {}
    }

    /// The name of the pass.
    pub fn get_name(&self) -> (r: String)
        ensures
            r@ == convert_pass_name(),
    {
        text("ConvertC")
    }

    fn convert_call(&self, operator: Box<Node>, operands: Vec<Node>, typ: Type) -> (r: (
        Node,
        Option<(String, String)>,
    ))
        requires
            operands.len() == 0 ==> !operator_cnode(operator@),
        ensures
            ({
                let n = NodeSpec::Call {
                    operator: Box::new(operator@),
                    operands: nodes_view(operands),
                    typ: typ@,
                };
                match specs_convert_call(n, operator@, nodes_view(operands), typ@) {
                    Ok(c) => r.0@ == c && r.1 is None,
                    Err(p) => r.0@ == n && (r.1 matches Some(x) && x.0@ == p.0 && x.1@ == kind_name(
                        p.1,
                    )),
                }
            }),
    {
        proof {
            lemma_nodes_view(operands);
            reveal_strlit(" ");
            reveal_strlit("(");
            reveal_strlit(")");
            reveal_strlit("Expected call operator to be a CNode");
            reveal_strlit("Expected call operands to be CNodes");
            reveal_strlit("Expected call operand to be CNodes");
        }
        match cnode_parts(&operator) {
            None => {
                let n = Node::Call { operator, operands, typ };
                let kind = get_kind_name(&n);
                assert("Expected call operator to be a CNode"@ =~= msg_call_operator());
                (n, Some((text("Expected call operator to be a CNode"), kind)))
            },
            Some((ot, otext)) => {
                if ot == CNodeType::InfixOperator && operands.len() == 2 {
                    let a = cnode_parts(&operands[0]);
                    let b = cnode_parts(&operands[1]);
                    match (a, b) {
                        (Some((at, atext)), Some((bt, btext))) => {
                            let mut t = non_bare(at, &atext);
                            push_str(&mut t, " ");
                            push_string(&mut t, &otext);
                            push_str(&mut t, " ");
                            let bb = non_bare(bt, &btext);
                            push_string(&mut t, &bb);
                            assert(t@ =~= non_bare_text(at, atext@) + seq![' '] + otext@ + seq![' ']
                                + non_bare_text(bt, btext@));
                            (Node::CNode(CNode { node_type: CNodeType::Bare, text: t, typ }), None)
                        },
                        _ => {
                            let n = Node::Call { operator, operands, typ };
                            let kind = get_kind_name(&n);
                            (n, Some((text("Expected call operands to be CNodes"), kind)))
                        },
                    }
                } else if ot == CNodeType::PrefixOperator || ot == CNodeType::InfixOperator {
                    match cnode_parts(&operands[0]) {
                        Some((at, atext)) => {
                            let mut t = otext;
                            let ghost ov = t@;
                            push_str(&mut t, " ");
                            let aa = non_bare(at, &atext);
                            push_string(&mut t, &aa);
                            assert(t@ =~= ov + seq![' '] + non_bare_text(at, atext@));
                            (Node::CNode(CNode { node_type: CNodeType::Bare, text: t, typ }), None)
                        },
                        None => {
                            let n = Node::Call { operator, operands, typ };
                            let kind = get_kind_name(&n);
                            (n, Some((text("Expected call operand to be CNodes"), kind)))
                        },
                    }
                } else {
                    match call_arguments(&operands) {
                        Some(arguments) => {
                            let mut t = otext;
                            let ghost ov = t@;
                            push_str(&mut t, "(");
                            push_string(&mut t, &arguments);
                            push_str(&mut t, ")");
                            assert(t@ =~= ov + seq!['('] + arguments@ + seq![')']);
                            (Node::CNode(CNode { node_type: CNodeType::Call, text: t, typ }), None)
                        },
                        None => {
                            let n = Node::Call { operator, operands, typ };
                            let kind = get_kind_name(&n);
                            (n, Some((text("Expected call operands to be CNodes"), kind)))
                        },
                    }
                }
            },
        }
    }

    /// One node, once its children are done: its C text, or the node as it is with the
    /// message and the kind of the node the message is about.
    #[verifier::spinoff_prover]
    #[verifier::rlimit(80)]
    fn convert(&self, node: Node) -> (r: (Node, Option<(String, String)>))
        requires
            !call_without_operands(node@),
        ensures
            match specs_convert_node(node@) {
                Ok(c) => r.0@ == c && r.1 is None,
                Err(p) => r.0@ == node@ && (r.1 matches Some(x) && x.0@ == p.0 && x.1@ == kind_name(
                    p.1,
                )),
            },
    {
        proof {
            reveal_strlit("/* ");
            reveal_strlit(" */");
            reveal_strlit("true");
            reveal_strlit("false");
            reveal_strlit("&");
            reveal_strlit("return");
            reveal_strlit(" = ");
            reveal_strlit(".");
            reveal_strlit(" ");
            reveal_strlit("if ");
            reveal_strlit(" else ");
            reveal_strlit("Expected reference target to be CNode");
            reveal_strlit("Expected dereference target to be a CNode");
            reveal_strlit("Expected assign lhs and rhs to be CNodes");
            reveal_strlit("Expected access target to be a CNode");
            reveal_strlit("Expected binding to be a CNode");
            reveal_strlit("Expected sequence node to be a CNode");
            reveal_strlit("Expected conditional nodes to be CNodes");
            reveal_strlit("Expected function body to be a CNode");
        }
        let ghost nv = node@;
        match node {
            Node::Comment { content } => {
                let mut t = text("/* ");
                push_string(&mut t, &content);
                push_str(&mut t, " */");
                assert(t@ =~= seq!['/', '*', ' '] + content@ + seq![' ', '*', '/']);
                (Node::CNode(CNode { node_type: CNodeType::Comment, text: t, typ: Type::Void }), None)
            },
            Node::Integer { value } => {
                let mut t = String::new();
                write_signed_decimal(&mut t, value);
                assert(t@ =~= signed_decimal(value as int));
                (Node::CNode(CNode { node_type: CNodeType::Atomic, text: t, typ: Type::Integer }), None)
            },
            Node::Boolean { value } => {
                let t = if value {
                    text("true")
                } else {
                    text("false")
                };
                assert(t@ == bool_text(value));
                (Node::CNode(CNode { node_type: CNodeType::Atomic, text: t, typ: Type::Boolean }), None)
            },
            Node::Variable { name, typ } => {
                (Node::CNode(CNode { node_type: CNodeType::Atomic, text: name, typ }), None)
            },
            Node::Nothing { typ } => {
                let t = String::new();
                assert(t@ =~= Seq::<char>::empty());
                (Node::CNode(CNode { node_type: CNodeType::Nothing, text: t, typ }), None)
            },
            Node::PrimitiveOperator { operator, typ } => {
                if operator == Operator::Return {
                    assert("return"@ =~= seq!['r', 'e', 't', 'u', 'r', 'n']);
                    (Node::CNode(CNode { node_type: CNodeType::Atomic, text: text("return"), typ }), None)
                } else {
                    let (node_type, symbol) = operator_c_text(operator);
                    (Node::CNode(CNode { node_type, text: text(symbol), typ }), None)
                }
            },
            Node::Call { operator, operands, typ } => {
                proof {
                    lemma_nodes_view(operands);
                }
                self.convert_call(operator, operands, typ)
            },
            Node::Reference { mode, target, typ } => match cnode_parts(&target) {
                Some((target_type, target_text)) => {
                    let mut t = text("&");
                    let tt = non_bare(target_type, &target_text);
                    push_string(&mut t, &tt);
                    assert(t@ =~= seq!['&'] + non_bare_text(target_type, target_text@));
                    (Node::CNode(CNode { node_type: CNodeType::Bare, text: t, typ }), None)
                },
                None => {
                    let n = Node::Reference { mode, target, typ };
                    let kind = get_kind_name(&n);
                    (n, Some((text("Expected reference target to be CNode"), kind)))
                },
            },
            Node::Dereference { target, typ } => match cnode_parts(&target) {
                Some((target_type, target_text)) => {
                    let mut t = text("&");
                    let tt = non_bare(target_type, &target_text);
                    push_string(&mut t, &tt);
                    assert(t@ =~= seq!['&'] + non_bare_text(target_type, target_text@));
                    (Node::CNode(CNode { node_type: CNodeType::Bare, text: t, typ }), None)
                },
                None => {
                    let n = Node::Dereference { target, typ };
                    let kind = get_kind_name(&n);
                    assert("Expected dereference target to be a CNode"@ =~= msg_dereference_target());
                    (n, Some((text("Expected dereference target to be a CNode"), kind)))
                },
            },
            Node::Assign { lhs, rhs } => match (cnode_parts(&lhs), cnode_parts(&rhs)) {
                (Some((_, lhs_text)), Some((_, rhs_text))) => {
                    let mut t = lhs_text;
                    let ghost lv = t@;
                    push_str(&mut t, " = ");
                    push_string(&mut t, &rhs_text);
                    assert(t@ =~= lv + seq![' ', '=', ' '] + rhs_text@);
                    (Node::CNode(CNode { node_type: CNodeType::Bare, text: t, typ: Type::Void }), None)
                },
                _ => {
                    let n = Node::Assign { lhs, rhs };
                    let kind = get_kind_name(&n);
                    assert("Expected assign lhs and rhs to be CNodes"@ =~= msg_assign_sides());
                    (n, Some((text("Expected assign lhs and rhs to be CNodes"), kind)))
                },
            },
            Node::Access { target, property, typ } => match cnode_parts(&target) {
                Some((target_type, target_text)) => {
                    let mut t = non_bare(target_type, &target_text);
                    let ghost tv = t@;
                    push_str(&mut t, ".");
                    push_string(&mut t, &property);
                    assert(t@ =~= tv + seq!['.'] + property@);
                    (Node::CNode(CNode { node_type: CNodeType::Bare, text: t, typ }), None)
                },
                None => {
                    let n = Node::Access { target, property, typ };
                    let kind = get_kind_name(&n);
                    assert("Expected access target to be a CNode"@ =~= msg_access_target());
                    (n, Some((text("Expected access target to be a CNode"), kind)))
                },
            },
            Node::Binding { name, binding } => {
                match bound_parts(&binding) {
                    Some((binding_type, binding_text, type_text)) => {
                        let mut t = type_text;
                        let ghost tv = t@;
                        push_str(&mut t, " ");
                        push_string(&mut t, &name);
                        let ghost lv = t@;
                        if binding_type != CNodeType::Nothing {
                            push_str(&mut t, " = ");
                            push_string(&mut t, &binding_text);
                            assert(t@ =~= lv + (seq![' ', '=', ' '] + binding_text@));
                        } else {
                            assert(t@ =~= lv + Seq::<char>::empty());
                        }
                        assert(lv =~= tv + seq![' '] + name@);
                        (Node::CNode(CNode { node_type: CNodeType::Bare, text: t, typ: Type::Void }), None)
                    },
                    None => {
                        let n = Node::Binding { name, binding };
                        let kind = get_kind_name(&n);
                        assert("Expected binding to be a CNode"@ =~= msg_binding_value());
                        (n, Some((text("Expected binding to be a CNode"), kind)))
                    },
                }
            },
            Node::Sequence { mode, nodes, typ } => match sequence_body(&nodes) {
                Some(body) => (sequence_cnode(mode, body, typ), None),
                None => {
                    let i = first_not_c_text_index(&nodes);
                    proof {
                        lemma_nodes_view(nodes);
                    }
                    let kind = get_kind_name(&nodes[i]);
                    assert("Expected sequence node to be a CNode"@ =~= msg_sequence_node());
                    (
                        Node::Sequence { mode, nodes, typ },
                        Some((text("Expected sequence node to be a CNode"), kind)),
                    )
                },
            },
            Node::Conditional { condition, then_branch, else_branch, typ } => {
                match (
                    cnode_parts(&condition),
                    cnode_parts(&then_branch),
                    cnode_parts(&else_branch),
                ) {
                    (
                        Some((condition_type, condition_text)),
                        Some((then_type, then_text)),
                        Some((else_type, else_text)),
                    ) => {
                        let mut t = text("if ");
                        let c = wrapped(condition_type, &condition_text);
                        push_string(&mut t, &c);
                        push_str(&mut t, " ");
                        let b = block(then_type, &then_text);
                        push_string(&mut t, &b);
                        let ghost head = t@;
                        if else_type != CNodeType::Nothing {
                            push_str(&mut t, " else ");
                            let e = block(else_type, &else_text);
                            push_string(&mut t, &e);
                            assert(t@ =~= head + (seq![' ', 'e', 'l', 's', 'e', ' '] + block_text(
                                else_type,
                                else_text@,
                            )));
                        } else {
                            assert(t@ =~= head + Seq::<char>::empty());
                        }
                        assert(head =~= seq!['i', 'f', ' '] + wrapped_text(condition_type, condition_text@)
                            + seq![' '] + block_text(then_type, then_text@));
                        (Node::CNode(CNode { node_type: CNodeType::Conditional, text: t, typ }), None)
                    },
                    _ => {
                        let n = Node::Conditional { condition, then_branch, else_branch, typ };
                        let kind = get_kind_name(&n);
                        assert("Expected conditional nodes to be CNodes"@ =~= msg_conditional_nodes());
                        (n, Some((text("Expected conditional nodes to be CNodes"), kind)))
                    },
                }
            },
            Node::Function { name, arguments, return_type, body, typ } => match cnode_parts(&body) {
                Some((body_type, body_text)) => {
                    let t = function_text(&name, &arguments, &return_type, body_type, &body_text);
                    (Node::CNode(CNode { node_type: CNodeType::Function, text: t, typ }), None)
                },
                None => {
                    let n = Node::Function { name, arguments, return_type, body, typ };
                    let kind = get_kind_name(&n);
                    assert("Expected function body to be a CNode"@ =~= msg_function_body());
                    (n, Some((text("Expected function body to be a CNode"), kind)))
                },
            },
            Node::CNode(c) => (Node::CNode(c), None),
        }
    }

    /// Makes one node C text once its children are, or reports it at the context's current
    /// depth.
    pub fn transform(&self, node: &mut Node, messages: &mut PassMessageContext)
        requires
            old(messages).model().pass_name == convert_pass_name(),
            !specs_operator_call_without_operands(old(node)@),
        ensures
            final(messages).model().pass_name == convert_pass_name(),
            final(messages).model().current_indent == old(messages).model().current_indent,
            match specs_convert_node(old(node)@) {
                Ok(c) => final(node)@ == c && final(messages).model() == old(messages).model(),
                Err(p) => final(node)@ == old(node)@ && final(messages).model().messages == old(
                    messages,
                ).model().messages.push(
                    problem_message(p.0, p.1, old(messages).model().current_indent),
                ) && final(messages).model().has_errors,
            },
    {
        let n = node.extract_temp();
        let (converted, problem) = self.convert(n);
        *node = converted;
        match problem {
            Some((message, source)) => {
                proof {
                    reveal_strlit("InvalidNode");
                }
                messages.add_error(text("InvalidNode"), message, source);
            },
            None => {},
        }
    }

    /// Visits the tree, children first, each node at its depth.
    fn walk(&self, node: Node, depth: usize, messages: &mut PassMessageContext) -> (r: Node)
        requires
            old(messages).model().pass_name == convert_pass_name(),
            depth + size(node@) <= usize::MAX,
            specs_convertible(node@),
        ensures
            final(messages).model().pass_name == convert_pass_name(),
            r@ == c_converted(node@, depth as nat).0,
            final(messages).model().messages == old(messages).model().messages + c_converted(
                node@,
                depth as nat,
            ).1,
            final(messages).model().has_errors == (old(messages).model().has_errors
                || c_converted(node@, depth as nat).1.len() > 0),
        decreases size(node@),
    {
        let ghost n = node@;
        let ghost before = messages.model().messages;
        proof {
            lemma_children_smaller(n);
            lemma_tree_all_children(n, |x: NodeSpec| !specs_operator_call_without_operands(x));
        }
        let (shell, kids) = take_children(node);
        let ghost cs = children(n);
        let ghost d1 = (depth + 1) as nat;
        let mut done: Vec<Node> = Vec::new();
        let mut rest = kids;
        proof {
            lemma_nodes_view(rest);
            lemma_nodes_view(done);
            assert(cs.take(0) =~= Seq::<NodeSpec>::empty());
            assert(before + Seq::<MessageSpec>::empty() =~= before);
        }
        while rest.len() > 0
            invariant
                n == node@,
                depth + size(n) <= usize::MAX,
                d1 == depth + 1,
                done.len() + rest.len() == cs.len(),
                forall|j: int| 0 <= j < rest.len() ==> (#[trigger] rest@[j])@ == cs[done.len() + j],
                forall|j: int| 0 <= j < cs.len() ==> size(#[trigger] cs[j]) < size(n),
                forall|j: int| 0 <= j < cs.len() ==> specs_convertible(#[trigger] cs[j]),
                messages.model().pass_name == convert_pass_name(),
                nodes_view(done) == c_converted_seq(cs.take(done.len() as int), d1).0,
                messages.model().messages == before + c_converted_seq(cs.take(done.len() as int), d1).1,
                messages.model().has_errors == (old(messages).model().has_errors
                    || c_converted_seq(cs.take(done.len() as int), d1).1.len() > 0),
            decreases rest.len(),
        {
            let ghost i = done.len() as int;
            let ghost prev = rest@;
            let ghost mid = messages.model().messages;
            let k = rest.remove(0);
            assert(k@ == cs[i]);
            let k2 = self.walk(k, depth + 1, messages);
            done.push(k2);
            proof {
                lemma_nodes_view(done);
                let t = cs.take(i + 1);
                assert(t.drop_last() =~= cs.take(i));
                assert(t.last() == cs[i]);
                assert(nodes_view(done) =~= c_converted_seq(t, d1).0);
                assert(messages.model().messages =~= before + c_converted_seq(t, d1).1);
                assert forall|j: int| 0 <= j < rest.len() implies (#[trigger] rest@[j])@
                    == cs[done.len() + j] by {
                    assert(rest@[j] == prev[j + 1]);
                }
            }
        }
        assert(cs.take(cs.len() as int) =~= cs);
        let mut rebuilt = put_children(shell, done);
        proof {
            let cv = c_converted_seq(cs, d1).0;
            lemma_c_converted_seq_len(cs, d1);
            lemma_children_of_with_children(n, cv);
            if n is Call {
                let operator = *n->Call_operator;
                assert(cs[0] == operator);
                lemma_c_converted_operator(operator, d1);
                assert(cv.drop_first().len() == n->Call_operands.len());
            }
        }
        messages.set_indent(depth);
        self.transform(&mut rebuilt, messages);
        proof {
            let m = with_children(n, c_converted_seq(cs, d1).0);
            match specs_convert_node(m) {
                Ok(_) => {},
                Err(p) => {
                    assert(messages.model().messages =~= before + c_converted(n, depth as nat).1);
                },
            }
        }
        rebuilt
    }

    /// Runs the pass over the tree: the tree becomes C text as far as it can, and the result
    /// is a failure, with the messages, when some node could not.
    pub fn apply(&self, root: &mut Node) -> (r: PassResult)
        requires
            size(old(root)@) <= usize::MAX,
            specs_convertible(old(root)@),
        ensures
            final(root)@ == c_converted(old(root)@, 0).0,
            match r {
                PassResult::Success(m) => messages_view(m@) == c_converted(old(root)@, 0).1
                    && c_converted(old(root)@, 0).1.len() == 0,
                PassResult::Failure(m) => messages_view(m@) == c_converted(old(root)@, 0).1
                    && c_converted(old(root)@, 0).1.len() > 0,
            },
    {
        let mut messages = PassMessageContext::new(self.get_name());
        let n = root.extract_temp();
        assert(Seq::<MessageSpec>::empty() + c_converted(n@, 0).1 =~= c_converted(n@, 0).1);
        *root = self.walk(n, 0, &mut messages);
        let (all, _has_warnings, has_errors) = messages.destructure();
        if has_errors {
            PassResult::Failure(all)
        } else {
            PassResult::Success(all)
        }
    }
}

} // verus!

//! Structural validation of a syntax tree: which kinds of nodes may stand where.
use vstd::prelude::*;
use crate::ast::{group_ast_views, lemma_nodes_view, nodes_view, Node, NodeSpec};
use crate::text::{push_string, text};
use crate::tree::{
    child_refs, children, lemma_children_smaller, lemma_size_seq_element, size, size_seq,
};

verus! {

broadcast use group_ast_views;

/// The name of the kind of a node, as used in messages.
pub open spec fn kind_name(n: NodeSpec) -> Seq<char> {
    match n {
        NodeSpec::Nothing { .. } => seq!['n', 'o', 't', 'h', 'i', 'n', 'g'],
        NodeSpec::Comment { .. } => seq!['c', 'o', 'm', 'm', 'e', 'n', 't'],
        NodeSpec::Integer { .. } => seq!['i', 'n', 't', 'e', 'g', 'e', 'r'],
        NodeSpec::Boolean { .. } => seq!['b', 'o', 'o', 'l', 'e', 'a', 'n'],
        NodeSpec::Variable { .. } => seq!['v', 'a', 'r', 'i', 'a', 'b', 'l', 'e'],
        NodeSpec::PrimitiveOperator { .. } => seq!['p', 'r', 'i', 'm', 'i', 't', 'i', 'v', 'e', ' ', 'o', 'p', 'e', 'r', 'a', 't', 'o', 'r'],
        NodeSpec::Call { .. } => seq!['c', 'a', 'l', 'l'],
        NodeSpec::Reference { .. } => seq!['r', 'e', 'f', 'e', 'r', 'e', 'n', 'c', 'e'],
        NodeSpec::Dereference { .. } => seq!['d', 'e', 'r', 'e', 'f', 'e', 'r', 'e', 'n', 'c', 'e'],
        NodeSpec::Assign { .. } => seq!['a', 's', 's', 'i', 'g', 'n'],
        NodeSpec::Access { .. } => seq!['a', 'c', 'c', 'e', 's', 's'],
        NodeSpec::Binding { .. } => seq!['b', 'i', 'n', 'd', 'i', 'n', 'g'],
        NodeSpec::Sequence { .. } => seq!['s', 'e', 'q', 'u', 'e', 'n', 'c', 'e'],
        NodeSpec::Conditional { .. } => seq!['c', 'o', 'n', 'd', 'i', 't', 'i', 'o', 'n', 'a', 'l'],
        NodeSpec::Function { .. } => seq!['f', 'u', 'n', 'c', 't', 'i', 'o', 'n'],
        NodeSpec::CNode { .. } => seq!['c', ' ', 'n', 'o', 'd', 'e'],
    }
}

/// The name of the kind of a node, as used in messages.
pub fn get_kind_name(n: &Node) -> (r: String)
    ensures
        r@ == kind_name(n@),
{
    match n {
        Node::Nothing { .. } => {
            proof {
                reveal_strlit("nothing");
            }
            text("nothing")
        },
        Node::Comment { .. } => {
            proof {
                reveal_strlit("comment");
            }
            text("comment")
        },
        Node::Integer { .. } => {
            proof {
                reveal_strlit("integer");
            }
            text("integer")
        },
        Node::Boolean { .. } => {
            proof {
                reveal_strlit("boolean");
            }
            text("boolean")
        },
        Node::Variable { .. } => {
            proof {
                reveal_strlit("variable");
            }
            text("variable")
        },
        Node::PrimitiveOperator { .. } => {
            proof {
                reveal_strlit("primitive operator");
            }
            text("primitive operator")
        },
        Node::Call { .. } => {
            proof {
                reveal_strlit("call");
            }
            text("call")
        },
        Node::Reference { .. } => {
            proof {
                reveal_strlit("reference");
            }
            text("reference")
        },
        Node::Dereference { .. } => {
            proof {
                reveal_strlit("dereference");
            }
            text("dereference")
        },
        Node::Assign { .. } => {
            proof {
                reveal_strlit("assign");
            }
            text("assign")
        },
        Node::Access { .. } => {
            proof {
                reveal_strlit("access");
            }
            text("access")
        },
        Node::Binding { .. } => {
            proof {
                reveal_strlit("binding");
            }
            text("binding")
        },
        Node::Sequence { .. } => {
            proof {
                reveal_strlit("sequence");
            }
            text("sequence")
        },
        Node::Conditional { .. } => {
            proof {
                reveal_strlit("conditional");
            }
            text("conditional")
        },
        Node::Function { .. } => {
            proof {
                reveal_strlit("function");
            }
            text("function")
        },
        Node::CNode(..) => {
            proof {
                reveal_strlit("c node");
            }
            text("c node")
        },
    }
}

/// A structural error, naming the kind of the offending node.
#[derive(Debug)]
pub enum NodeError {
    InvalidOperator(String),
    InvalidOperand(String),
    InvalidReference(String),
    InvalidDereference(String),
    InvalidBinding(String),
    InvalidLHS(String),
    InvalidRHS(String),
    EmptySequence,
    InvalidCondition(String),
    InvalidBlock(String),
    InvalidAccessTarget(String),
}

/// Model of [`NodeError`].
pub enum NodeErrorSpec {
    InvalidOperator(Seq<char>),
    InvalidOperand(Seq<char>),
    InvalidReference(Seq<char>),
    InvalidDereference(Seq<char>),
    InvalidBinding(Seq<char>),
    InvalidLHS(Seq<char>),
    InvalidRHS(Seq<char>),
    EmptySequence,
    InvalidCondition(Seq<char>),
    InvalidBlock(Seq<char>),
    InvalidAccessTarget(Seq<char>),
}

impl View for NodeError {
    type V = NodeErrorSpec;

    open spec fn view(&self) -> NodeErrorSpec {
        match self {
            NodeError::InvalidOperator(s) => NodeErrorSpec::InvalidOperator(s@),
            NodeError::InvalidOperand(s) => NodeErrorSpec::InvalidOperand(s@),
            NodeError::InvalidReference(s) => NodeErrorSpec::InvalidReference(s@),
            NodeError::InvalidDereference(s) => NodeErrorSpec::InvalidDereference(s@),
            NodeError::InvalidBinding(s) => NodeErrorSpec::InvalidBinding(s@),
            NodeError::InvalidLHS(s) => NodeErrorSpec::InvalidLHS(s@),
            NodeError::InvalidRHS(s) => NodeErrorSpec::InvalidRHS(s@),
            NodeError::EmptySequence => NodeErrorSpec::EmptySequence,
            NodeError::InvalidCondition(s) => NodeErrorSpec::InvalidCondition(s@),
            NodeError::InvalidBlock(s) => NodeErrorSpec::InvalidBlock(s@),
            NodeError::InvalidAccessTarget(s) => NodeErrorSpec::InvalidAccessTarget(s@),
        }
    }
}

/// The models of a vector of structural errors, in order.
pub open spec fn node_errors_view(v: Vec<NodeError>) -> Seq<NodeErrorSpec> {
    Seq::new(v.len() as nat, |i: int| v@[i]@)
}

/// Whether a node may stand as the operator of a call: not an integer, boolean, reference,
/// binding or assignment, and not nothing.
pub open spec fn valid_operator(n: NodeSpec) -> bool {
    !(n is Nothing || n is Integer || n is Boolean || n is Reference || n is Binding || n is Assign)
}

/// Whether a node may stand as an operand, a bound value or an assigned value: not a
/// primitive operator, binding or assignment, and not nothing.
pub open spec fn valid_value(n: NodeSpec) -> bool {
    !(n is Nothing || n is PrimitiveOperator || n is Binding || n is Assign)
}

/// Whether a node may be the target of a reference.
pub open spec fn valid_reference_target(n: NodeSpec) -> bool {
    n is Variable || n is Dereference || n is Sequence || n is Conditional || n is Access
}

/// Whether a node may be the target of a dereference.
pub open spec fn valid_dereference_target(n: NodeSpec) -> bool {
    n is Variable || n is Call || n is Reference || n is Dereference || n is Sequence
        || n is Conditional || n is Access
}

/// Whether a node may be assigned to.
pub open spec fn valid_assign_target(n: NodeSpec) -> bool {
    n is Variable || n is Dereference || n is Conditional || n is Access
}

/// Whether a node may be the condition of a conditional.
pub open spec fn valid_condition(n: NodeSpec) -> bool {
    n is Boolean || n is Variable || n is Call || n is Dereference || n is Sequence
        || n is Conditional || n is Access
}

/// Whether a node may be a block (a branch or a function body): anything but nothing.
pub open spec fn valid_block(n: NodeSpec) -> bool {
    !(n is Nothing)
}

/// Whether a node may be the target of a property access.
pub open spec fn valid_access_target(n: NodeSpec) -> bool {
    !(n is Nothing || n is PrimitiveOperator || n is Binding || n is Assign || n is Function)
}

/// The errors of the operands of a call, in order.
pub open spec fn operand_errors(operands: Seq<NodeSpec>) -> Seq<NodeErrorSpec>
    decreases operands.len(),
{
    if operands.len() == 0 {
        Seq::empty()
    } else if valid_value(operands.last()) {
        operand_errors(operands.drop_last())
    } else {
        operand_errors(operands.drop_last()).push(
            NodeErrorSpec::InvalidOperand(kind_name(operands.last())),
        )
    }
}

/// An error when `ok` fails.
pub open spec fn error_unless(ok: bool, e: NodeErrorSpec) -> Seq<NodeErrorSpec> {
    if ok {
        Seq::empty()
    } else {
        seq![e]
    }
}

/// The structural errors of one node, about its immediate children.
pub open spec fn node_errors(n: NodeSpec) -> Seq<NodeErrorSpec> {
    match n {
        NodeSpec::Call { operator, operands, .. } => error_unless(
            valid_operator(*operator),
            NodeErrorSpec::InvalidOperator(kind_name(*operator)),
        ) + operand_errors(operands),
        NodeSpec::Reference { target, .. } => error_unless(
            valid_reference_target(*target),
            NodeErrorSpec::InvalidReference(kind_name(*target)),
        ),
        NodeSpec::Dereference { target, .. } => error_unless(
            valid_dereference_target(*target),
            NodeErrorSpec::InvalidDereference(kind_name(*target)),
        ),
        NodeSpec::Binding { binding, .. } => error_unless(
            valid_value(*binding),
            NodeErrorSpec::InvalidBinding(kind_name(*binding)),
        ),
        NodeSpec::Assign { lhs, rhs } => error_unless(
            valid_assign_target(*lhs),
            NodeErrorSpec::InvalidLHS(kind_name(*lhs)),
        ) + error_unless(valid_value(*rhs), NodeErrorSpec::InvalidBinding(kind_name(*rhs))),
        NodeSpec::Sequence { nodes, .. } => error_unless(
            nodes.len() > 0,
            NodeErrorSpec::EmptySequence,
        ),
        NodeSpec::Conditional { condition, then_branch, .. } => error_unless(
            valid_condition(*condition),
            NodeErrorSpec::InvalidCondition(kind_name(*condition)),
        ) + error_unless(valid_block(*then_branch), NodeErrorSpec::InvalidBlock(kind_name(*then_branch))),
        NodeSpec::Function { body, .. } => error_unless(
            valid_block(*body),
            NodeErrorSpec::InvalidBlock(kind_name(*body)),
        ),
        NodeSpec::Access { target, .. } => error_unless(
            valid_access_target(*target),
            NodeErrorSpec::InvalidAccessTarget(kind_name(*target)),
        ),
        _ => Seq::empty(),
    }
}

/// The structural errors of a tree, children before their parent, after `es`.
pub open spec fn validation_errors(n: NodeSpec, es: Seq<NodeErrorSpec>) -> Seq<NodeErrorSpec>
    decreases size(n), 0nat,
{
    proof {
        lemma_children_smaller(n);
    }
    validation_errors_seq(children(n), es) + node_errors(n)
}

/// [`validation_errors`] of each tree of a sequence, in order.
pub open spec fn validation_errors_seq(s: Seq<NodeSpec>, es: Seq<NodeErrorSpec>) -> Seq<NodeErrorSpec>
    decreases size_seq(s), 1nat,
{
    if s.len() == 0 {
        es
    } else {
        proof {
            lemma_size_seq_element(s, s.len() - 1);
        }
        validation_errors(s.last(), validation_errors_seq(s.drop_last(), es))
    }
}

fn push_node_error(errors: &mut Vec<NodeError>, e: NodeError)
    ensures
        node_errors_view(*final(errors)) == node_errors_view(*old(errors)).push(e@),
{
    errors.push(e);
    assert(node_errors_view(*errors) =~= node_errors_view(*old(errors)).push(e@));
}

/// Checks that the structural constraints of a node on its immediate children are met,
/// appending the errors.
#[verifier::spinoff_prover]
#[verifier::rlimit(40)]
fn check_node(node: &Node, errors: &mut Vec<NodeError>)
    ensures
        node_errors_view(*final(errors)) == node_errors_view(*old(errors)) + node_errors(node@),
{
    let ghost e0 = node_errors_view(*errors);
    match node {
        Node::Call { operator, operands, .. } => {
            let op: &Node = &**operator;
            let ok = !matches!(op, Node::Nothing { .. } | Node::Integer { .. } | Node::Boolean { .. }
                | Node::Reference { .. } | Node::Binding { .. } | Node::Assign { .. });
            if !ok {
                push_node_error(errors, NodeError::InvalidOperator(get_kind_name(op)));
            }
            let ghost e1 = node_errors_view(*errors);
            assert(e1 == e0 + error_unless(valid_operator(op@), NodeErrorSpec::InvalidOperator(kind_name(op@))));
            proof {
                lemma_nodes_view(*operands);
            }
            let ghost ops = nodes_view(*operands);
            let mut i: usize = 0;
            assert(ops.take(0) =~= Seq::<NodeSpec>::empty());
            assert(e1 + operand_errors(ops.take(0)) =~= e1);
            while i < operands.len()
                invariant
                    i <= operands.len(),
                    ops == nodes_view(*operands),
                    ops.len() == operands.len(),
                    forall|j: int| 0 <= j < operands.len() ==> ops[j] == (#[trigger] operands@[j])@,
                    node_errors_view(*errors) == e1 + operand_errors(ops.take(i as int)),
                decreases operands.len() - i,
            {
                let ghost t = ops.take(i + 1);
                assert(t.drop_last() =~= ops.take(i as int));
                assert(t.last() == ops[i as int]);
                let o = &operands[i];
                let ok = !matches!(o, Node::Nothing { .. } | Node::PrimitiveOperator { .. }
                    | Node::Binding { .. } | Node::Assign { .. });
                let ghost before = node_errors_view(*errors);
                if !ok {
                    push_node_error(errors, NodeError::InvalidOperand(get_kind_name(o)));
                    assert(node_errors_view(*errors) =~= e1 + operand_errors(t));
                } else {
                    assert(operand_errors(t) == operand_errors(ops.take(i as int)));
                }
                i += 1;
            }
            assert(ops.take(operands.len() as int) =~= ops);
            assert(node_errors_view(*errors) =~= e0 + node_errors(node@));
        },
        Node::Reference { target, .. } => {
            let t: &Node = &**target;
            let ok = matches!(t, Node::Variable { .. } | Node::Dereference { .. } | Node::Sequence { .. }
                | Node::Conditional { .. } | Node::Access { .. });
            assert(ok == valid_reference_target(t@));
            if !ok {
                push_node_error(errors, NodeError::InvalidReference(get_kind_name(t)));
            }
            assert(node_errors_view(*errors) =~= e0 + node_errors(node@));
        },
        Node::Dereference { target, .. } => {
            let t: &Node = &**target;
            let ok = matches!(t, Node::Variable { .. } | Node::Call { .. } | Node::Reference { .. }
                | Node::Dereference { .. } | Node::Sequence { .. } | Node::Conditional { .. }
                | Node::Access { .. });
            assert(ok == valid_dereference_target(t@));
            if !ok {
                push_node_error(errors, NodeError::InvalidDereference(get_kind_name(t)));
            }
            assert(node_errors_view(*errors) =~= e0 + node_errors(node@));
        },
        Node::Binding { binding, .. } => {
            let b: &Node = &**binding;
            let ok = !matches!(b, Node::Nothing { .. } | Node::PrimitiveOperator { .. }
                | Node::Binding { .. } | Node::Assign { .. });
            assert(ok == valid_value(b@));
            if !ok {
                push_node_error(errors, NodeError::InvalidBinding(get_kind_name(b)));
            }
            assert(node_errors_view(*errors) =~= e0 + node_errors(node@));
        },
        Node::Assign { lhs, rhs } => {
            let l: &Node = &**lhs;
            let r: &Node = &**rhs;
            let ok_lhs = matches!(l, Node::Variable { .. } | Node::Dereference { .. }
                | Node::Conditional { .. } | Node::Access { .. });
            assert(ok_lhs == valid_assign_target(l@));
            if !ok_lhs {
                push_node_error(errors, NodeError::InvalidLHS(get_kind_name(l)));
            }
            let ghost e1 = node_errors_view(*errors);
            let ok_rhs = !matches!(r, Node::Nothing { .. } | Node::PrimitiveOperator { .. }
                | Node::Binding { .. } | Node::Assign { .. });
            assert(ok_rhs == valid_value(r@));
            if !ok_rhs {
                push_node_error(errors, NodeError::InvalidBinding(get_kind_name(r)));
            }
            assert(e1 =~= e0 + error_unless(ok_lhs, NodeErrorSpec::InvalidLHS(kind_name(l@))));
            assert(node_errors_view(*errors) =~= e1 + error_unless(ok_rhs, NodeErrorSpec::InvalidBinding(kind_name(r@))));
            assert(node_errors_view(*errors) =~= e0 + node_errors(node@));
        },
        Node::Sequence { nodes, .. } => {
            proof {
                lemma_nodes_view(*nodes);
            }
            if nodes.len() == 0 {
                push_node_error(errors, NodeError::EmptySequence);
            }
            assert(node_errors_view(*errors) =~= e0 + node_errors(node@));
        },
        Node::Conditional { condition, then_branch, .. } => {
            let c: &Node = &**condition;
            let t: &Node = &**then_branch;
            let ok_condition = matches!(c, Node::Boolean { .. } | Node::Variable { .. }
                | Node::Call { .. } | Node::Dereference { .. } | Node::Sequence { .. }
                | Node::Conditional { .. } | Node::Access { .. });
            assert(ok_condition == valid_condition(c@));
            if !ok_condition {
                push_node_error(errors, NodeError::InvalidCondition(get_kind_name(c)));
            }
            let ghost e1 = node_errors_view(*errors);
            let ok_then = !matches!(t, Node::Nothing { .. });
            assert(ok_then == valid_block(t@));
            if !ok_then {
                push_node_error(errors, NodeError::InvalidBlock(get_kind_name(t)));
            }
            assert(e1 =~= e0 + error_unless(ok_condition, NodeErrorSpec::InvalidCondition(kind_name(c@))));
            assert(node_errors_view(*errors) =~= e1 + error_unless(ok_then, NodeErrorSpec::InvalidBlock(kind_name(t@))));
            assert(node_errors_view(*errors) =~= e0 + node_errors(node@));
        },
        Node::Function { body, .. } => {
            let b: &Node = &**body;
            if matches!(b, Node::Nothing { .. }) {
                push_node_error(errors, NodeError::InvalidBlock(get_kind_name(b)));
            }
            assert(node_errors_view(*errors) =~= e0 + node_errors(node@));
        },
        Node::Access { target, .. } => {
            let t: &Node = &**target;
            let ok = !matches!(t, Node::Nothing { .. } | Node::PrimitiveOperator { .. }
                | Node::Binding { .. } | Node::Assign { .. } | Node::Function { .. });
            assert(ok == valid_access_target(t@));
            if !ok {
                push_node_error(errors, NodeError::InvalidAccessTarget(get_kind_name(t)));
            }
            assert(node_errors_view(*errors) =~= e0 + node_errors(node@));
        },
        _ => {
            assert(node_errors_view(*errors) =~= e0 + node_errors(node@));
        },
    }
}

/// Accumulates the errors of a tree, children first.
fn check(node: &Node, errors: &mut Vec<NodeError>)
    ensures
        node_errors_view(*final(errors)) == validation_errors(node@, node_errors_view(*old(errors))),
    decreases size(node@),
{
    let ghost n = node@;
    let ghost e0 = node_errors_view(*errors);
    proof {
        lemma_children_smaller(n);
    }
    let kids = child_refs(node);
    let ghost cs = children(n);
    let mut i: usize = 0;
    assert(cs.take(0) =~= Seq::<NodeSpec>::empty());
    while i < kids.len()
        invariant
            i <= kids.len(),
            kids.len() == cs.len(),
            forall|j: int| 0 <= j < kids.len() ==> (#[trigger] kids@[j])@ == cs[j],
            forall|j: int| 0 <= j < cs.len() ==> size(#[trigger] cs[j]) < size(n),
            n == node@,
            node_errors_view(*errors) == validation_errors_seq(cs.take(i as int), e0),
        decreases kids.len() - i,
    {
        let ghost t = cs.take(i + 1);
        assert(t.drop_last() =~= cs.take(i as int));
        assert(t.last() == cs[i as int]);
        check(kids[i], errors);
        i += 1;
    }
    assert(cs.take(cs.len() as int) =~= cs);
    check_node(node, errors);
}

/// Checks the structure of a whole tree: the errors of all its nodes, children before
/// their parent, or nothing when there are none.
pub fn apply(root: &Node) -> (r: Option<Vec<NodeError>>)
    ensures
        match r {
            Some(errors) => node_errors_view(errors) == validation_errors(root@, Seq::empty())
                && errors.len() > 0,
            None => validation_errors(root@, Seq::empty()).len() == 0,
        },
{
    let mut errors: Vec<NodeError> = Vec::new();
    assert(node_errors_view(errors) =~= Seq::<NodeErrorSpec>::empty());
    check(root, &mut errors);
    if errors.len() == 0 {
        None
    } else {
        Some(errors)
    }
}


/// The text of a structural error.
pub open spec fn node_error_message(e: NodeErrorSpec) -> Seq<char> {
    match e {
        NodeErrorSpec::InvalidOperator(m) => "Invalid operator node: "@ + m,
        NodeErrorSpec::InvalidOperand(m) => "Invalid operand node: "@ + m,
        NodeErrorSpec::InvalidReference(m) => "Invalid reference target: "@ + m,
        NodeErrorSpec::InvalidDereference(m) => "Invalid dereference target: "@ + m,
        NodeErrorSpec::InvalidBinding(m) => "Invalid binding: "@ + m,
        NodeErrorSpec::InvalidLHS(m) => "Invalid assignment lhs: "@ + m,
        NodeErrorSpec::InvalidRHS(m) => "Invalid assignment rhs: "@ + m,
        NodeErrorSpec::InvalidCondition(m) => "Invalid branch condition: "@ + m,
        NodeErrorSpec::InvalidBlock(m) => "Invalid block: "@ + m,
        NodeErrorSpec::InvalidAccessTarget(m) => "Invalid access target: "@ + m,
        NodeErrorSpec::EmptySequence => "Empty sequence"@,
    }
}

impl NodeError {
    /// The text of the error.
    pub fn message(&self) -> (r: String)
        ensures
            r@ == node_error_message(self@),
    {
        match self {
            NodeError::InvalidOperator(m) => {
                let mut r = text("Invalid operator node: ");
                push_string(&mut r, m);
                r
            },
            NodeError::InvalidOperand(m) => {
                let mut r = text("Invalid operand node: ");
                push_string(&mut r, m);
                r
            },
            NodeError::InvalidReference(m) => {
                let mut r = text("Invalid reference target: ");
                push_string(&mut r, m);
                r
            },
            NodeError::InvalidDereference(m) => {
                let mut r = text("Invalid dereference target: ");
                push_string(&mut r, m);
                r
            },
            NodeError::InvalidBinding(m) => {
                let mut r = text("Invalid binding: ");
                push_string(&mut r, m);
                r
            },
            NodeError::InvalidLHS(m) => {
                let mut r = text("Invalid assignment lhs: ");
                push_string(&mut r, m);
                r
            },
            NodeError::InvalidRHS(m) => {
                let mut r = text("Invalid assignment rhs: ");
                push_string(&mut r, m);
                r
            },
            NodeError::InvalidCondition(m) => {
                let mut r = text("Invalid branch condition: ");
                push_string(&mut r, m);
                r
            },
            NodeError::InvalidBlock(m) => {
                let mut r = text("Invalid block: ");
                push_string(&mut r, m);
                r
            },
            NodeError::InvalidAccessTarget(m) => {
                let mut r = text("Invalid access target: ");
                push_string(&mut r, m);
                r
            },
            NodeError::EmptySequence => text("Empty sequence"),
        }
    }
}

} // verus!

//! Wrapping the nodes that give a tree its value.
//!
//! A node is in a result context when its value is the value of the whole tree: the root,
//! the result node of a sequence in a result context, and the branches of a conditional in
//! a result context. Wrapping replaces every non-complex node in a result context `n` by
//! `wrap(n)` (a return of `n`, or an assignment of `n` to a variable).
use vstd::prelude::*;
use crate::ast::{
    group_ast_views, lemma_nodes_view, lemma_result_index, nodes_view, result_index, Node, NodeSpec, Operator, Type,
    TypeSpec, get_result_index,
};

verus! {

broadcast use group_ast_views;

/// What a wrapped node becomes.
#[derive(Debug)]
pub enum Wrap {
    /// `return n`
    Return,
    /// `name = n`, where the variable `name` has the given type.
    AssignTo(String, Type),
}

/// Model of [`Wrap`].
pub enum WrapSpec {
    Return,
    AssignTo(Seq<char>, TypeSpec),
}

impl View for Wrap {
    type V = WrapSpec;

    open spec fn view(&self) -> WrapSpec {
        match self {
            Wrap::Return => WrapSpec::Return,
            Wrap::AssignTo(name, t) => WrapSpec::AssignTo(name@, t@),
        }
    }
}

/// The call of the `return` operator on `n`.
pub open spec fn return_of(n: NodeSpec) -> NodeSpec {
    NodeSpec::Call {
        operator: Box::new(
            NodeSpec::PrimitiveOperator { operator: Operator::Return, typ: TypeSpec::Unknown },
        ),
        operands: seq![n],
        typ: TypeSpec::Unknown,
    }
}

/// The assignment of `n` to the variable `name` of type `t`.
pub open spec fn assign_to(name: Seq<char>, t: TypeSpec, n: NodeSpec) -> NodeSpec {
    NodeSpec::Assign {
        lhs: Box::new(NodeSpec::Variable { name, typ: t }),
        rhs: Box::new(n),
    }
}

/// The node that wraps `n`.
pub open spec fn wrap_node(w: WrapSpec, n: NodeSpec) -> NodeSpec {
    match w {
        WrapSpec::Return => return_of(n),
        WrapSpec::AssignTo(name, t) => assign_to(name, t, n),
    }
}

/// The tree `n` (in a result context) with every non-complex node in a result context wrapped.
pub open spec fn wrap_results(w: WrapSpec, n: NodeSpec) -> NodeSpec
    decreases n,
{
    match n {
        NodeSpec::Sequence { mode, nodes, typ } => match result_index(nodes) {
            Some(i) => if 0 <= i < nodes.len() {
                NodeSpec::Sequence { mode, nodes: nodes.update(i, wrap_results(w, nodes[i])), typ }
            } else {
                n
            },
            None => n,
        },
        NodeSpec::Conditional { condition, then_branch, else_branch, typ } => {
            NodeSpec::Conditional {
                condition,
                then_branch: Box::new(wrap_results(w, *then_branch)),
                else_branch: Box::new(wrap_results(w, *else_branch)),
                typ,
            }
        },
        _ => wrap_node(w, n),
    }
}

/// Replaces the element at `i` of a vector with its image under `wrap_results`.
proof fn lemma_update_view(old_nodes: Vec<Node>, new_nodes: Vec<Node>, i: int, x: NodeSpec)
    requires
        0 <= i < old_nodes.len(),
        new_nodes@ == old_nodes@.remove(i).insert(i, new_nodes@[i]),
        new_nodes@[i]@ == x,
    ensures
        nodes_view(new_nodes) == nodes_view(old_nodes).update(i, x),
{
    assert(new_nodes.len() == old_nodes.len());
    lemma_nodes_view(new_nodes);
    lemma_nodes_view(old_nodes);
    assert forall|j: int| 0 <= j < new_nodes.len() implies nodes_view(new_nodes)[j] == nodes_view(
        old_nodes,
    ).update(i, x)[j] by {
        if j < i {
            assert(old_nodes@.remove(i).insert(i, new_nodes@[i])[j] == old_nodes@[j]);
        } else if j > i {
            assert(old_nodes@.remove(i)[j - 1] == old_nodes@[j]);
            assert(old_nodes@.remove(i).insert(i, new_nodes@[i])[j] == old_nodes@[j]);
        }
    }
    assert(nodes_view(new_nodes) =~= nodes_view(old_nodes).update(i, x));
}

/// Wraps the result of a node tree with the given wrap function.
pub struct WrapPass {
    wrap: Wrap,
}

/// Pass state for WrapPass: whether the current node is in a result context.
pub struct WrapPassState {
    pub is_result_context: bool,
}

impl WrapPassState {
    pub fn new(is_result_context: bool) -> (r: WrapPassState)
        ensures
            r.is_result_context == is_result_context,
    {
        WrapPassState { is_result_context }
    }
}

impl WrapPass {
    /// The wrap function of this pass.
    pub closed spec fn wrapper(&self) -> WrapSpec {
        self.wrap@
    }

    pub fn new(wrap: Wrap) -> (r: WrapPass)
        ensures
            r.wrapper() == wrap@,
    {
        WrapPass { wrap }
    }

    fn make_wrapper(&self, n: Node) -> (r: Node)
        ensures
            r@ == wrap_node(self.wrapper(), n@),
    {
        match &self.wrap {
            Wrap::Return => {
                let operator = Node::PrimitiveOperator { operator: Operator::Return, typ: Type::Unknown };
                assert(operator@ == NodeSpec::PrimitiveOperator {
                    operator: Operator::Return,
                    typ: TypeSpec::Unknown,
                });
                let ghost nv = n@;
                let mut operands = Vec::new();
                operands.push(n);
                proof { lemma_nodes_view(operands); }
                assert(nodes_view(operands) =~= seq![nv]);
                let r = Node::Call { operator: Box::new(operator), operands, typ: Type::Unknown };
                assert(r@ == return_of(nv));
                r
            },
            Wrap::AssignTo(name, t) => {
                let variable = Node::Variable { name: name.clone(), typ: t.copy() };
                assert(variable@ == NodeSpec::Variable { name: name@, typ: t@ });
                Node::Assign { lhs: Box::new(variable), rhs: Box::new(n) }
            },
        }
    }

    /// The tree `node`, taken in the context given by `state`, with its result nodes wrapped.
    fn wrap_node(&self, node: Node, state: WrapPassState) -> (r: Node)
        ensures
            state.is_result_context ==> r@ == wrap_results(self.wrapper(), node@),
            !state.is_result_context ==> r@ == node@,
        decreases node,
    {
        if !state.is_result_context {
            return node;
        }
        match node {
            Node::Sequence { mode, mut nodes, typ } => {
                let ghost old_nodes = nodes;
                match get_result_index(&nodes) {
                    Some(i) => {
                        proof { lemma_result_index(nodes_view(nodes)); }
                        let child = nodes.remove(i);
                        let child = self.wrap_node(child, WrapPassState::new(true));
                        nodes.insert(i, child);
                        proof {
                            assert(nodes@ == old_nodes@.remove(i as int).insert(i as int, nodes@[i as int]));
                            lemma_update_view(old_nodes, nodes, i as int, nodes@[i as int]@);
                        }
                    },
                    None => {},
                }
                Node::Sequence { mode, nodes, typ }
            },
            Node::Conditional { condition, then_branch, else_branch, typ } => {
                let then_branch = self.wrap_node(*then_branch, WrapPassState::new(true));
                let else_branch = self.wrap_node(*else_branch, WrapPassState::new(true));
                Node::Conditional {
                    condition,
                    then_branch: Box::new(then_branch),
                    else_branch: Box::new(else_branch),
                    typ,
                }
            },
            n => self.make_wrapper(n),
        }
    }

    /// Wraps every non-complex node in a result context of `node` (the root is in one).
    pub fn apply(&self, node: &mut Node)
        ensures
            final(node)@ == wrap_results(self.wrapper(), old(node)@),
    {
        let n = node.extract_temp();
        *node = self.wrap_node(n, WrapPassState::new(true));
    }
}

} // verus!

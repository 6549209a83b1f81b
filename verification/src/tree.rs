//! The children of a node, the size of a tree, and taking a node apart and back together.
use vstd::prelude::*;
use crate::ast::{
    arguments_view, group_ast_views, lemma_arguments_view, lemma_nodes_view, node_view,
    nodes_view, Argument, CNode, Node, NodeSpec, Type,
};

verus! {

broadcast use group_ast_views;

/// The number of nodes of a tree.
pub open spec fn size(n: NodeSpec) -> nat
    decreases n, 0nat,
{
    match n {
        NodeSpec::Call { operator, operands, .. } => 1 + size(*operator) + size_seq(operands),
        NodeSpec::Reference { target, .. } => 1 + size(*target),
        NodeSpec::Dereference { target, .. } => 1 + size(*target),
        NodeSpec::Assign { lhs, rhs } => 1 + size(*lhs) + size(*rhs),
        NodeSpec::Access { target, .. } => 1 + size(*target),
        NodeSpec::Binding { binding, .. } => 1 + size(*binding),
        NodeSpec::Sequence { nodes, .. } => 1 + size_seq(nodes),
        NodeSpec::Conditional { condition, then_branch, else_branch, .. } => 1 + size(*condition)
            + size(*then_branch) + size(*else_branch),
        NodeSpec::Function { body, .. } => 1 + size(*body),
        _ => 1,
    }
}

/// The number of nodes of a sequence of trees.
pub open spec fn size_seq(s: Seq<NodeSpec>) -> nat
    decreases s, s.len(),
{
    if s.len() == 0 {
        0
    } else {
        size_seq(s.drop_last()) + size(s.last())
    }
}

/// The immediate children of a node, in evaluation order.
pub open spec fn children(n: NodeSpec) -> Seq<NodeSpec> {
    match n {
        NodeSpec::Call { operator, operands, .. } => seq![*operator] + operands,
        NodeSpec::Reference { target, .. } => seq![*target],
        NodeSpec::Dereference { target, .. } => seq![*target],
        NodeSpec::Assign { lhs, rhs } => seq![*lhs, *rhs],
        NodeSpec::Access { target, .. } => seq![*target],
        NodeSpec::Binding { binding, .. } => seq![*binding],
        NodeSpec::Sequence { nodes, .. } => nodes,
        NodeSpec::Conditional { condition, then_branch, else_branch, .. } => seq![
            *condition,
            *then_branch,
            *else_branch,
        ],
        NodeSpec::Function { body, .. } => seq![*body],
        _ => Seq::empty(),
    }
}

/// The node `n` with its children replaced, in order, by `cs` (which has as many elements).
pub open spec fn with_children(n: NodeSpec, cs: Seq<NodeSpec>) -> NodeSpec {
    match n {
        NodeSpec::Call { typ, .. } => NodeSpec::Call {
            operator: Box::new(cs[0]),
            operands: cs.drop_first(),
            typ,
        },
        NodeSpec::Reference { mode, typ, .. } => NodeSpec::Reference {
            mode,
            target: Box::new(cs[0]),
            typ,
        },
        NodeSpec::Dereference { typ, .. } => NodeSpec::Dereference { target: Box::new(cs[0]), typ },
        NodeSpec::Assign { .. } => NodeSpec::Assign {
            lhs: Box::new(cs[0]),
            rhs: Box::new(cs[1]),
        },
        NodeSpec::Access { property, typ, .. } => NodeSpec::Access {
            target: Box::new(cs[0]),
            property,
            typ,
        },
        NodeSpec::Binding { name, .. } => NodeSpec::Binding { name, binding: Box::new(cs[0]) },
        NodeSpec::Sequence { mode, typ, .. } => NodeSpec::Sequence { mode, nodes: cs, typ },
        NodeSpec::Conditional { typ, .. } => NodeSpec::Conditional {
            condition: Box::new(cs[0]),
            then_branch: Box::new(cs[1]),
            else_branch: Box::new(cs[2]),
            typ,
        },
        NodeSpec::Function { name, arguments, return_type, typ, .. } => NodeSpec::Function {
            name,
            arguments,
            return_type,
            body: Box::new(cs[0]),
            typ,
        },
        _ => n,
    }
}

/// The size of a concatenation is the sum of the sizes.
pub proof fn lemma_size_seq_append(a: Seq<NodeSpec>, b: Seq<NodeSpec>)
    ensures
        size_seq(a + b) == size_seq(a) + size_seq(b),
    decreases b.len(),
{
    if b.len() == 0 {
        assert(a + b =~= a);
    } else {
        lemma_size_seq_append(a, b.drop_last());
        assert((a + b).drop_last() =~= a + b.drop_last());
        assert((a + b).last() == b.last());
    }
}

/// Each element of a sequence is at most as large as the whole sequence.
pub proof fn lemma_size_seq_element(s: Seq<NodeSpec>, i: int)
    requires
        0 <= i < s.len(),
    ensures
        size(s[i]) <= size_seq(s),
    decreases s.len(),
{
    if i < s.len() - 1 {
        lemma_size_seq_element(s.drop_last(), i);
    }
}

/// A node is larger than all its children together; each child is smaller than the node.
pub proof fn lemma_children_smaller(n: NodeSpec)
    ensures
        size_seq(children(n)) < size(n),
        forall|i: int| 0 <= i < children(n).len() ==> size(#[trigger] children(n)[i]) < size(n),
{
    reveal_with_fuel(size_seq, 4);
    let cs = children(n);
    match n {
        NodeSpec::Call { operator, operands, .. } => {
            lemma_size_seq_append(seq![*operator], operands);
            assert(seq![*operator].drop_last() =~= Seq::<NodeSpec>::empty());
        },
        NodeSpec::Sequence { .. } => {},
        NodeSpec::Assign { lhs, rhs } => {
            assert(seq![*lhs, *rhs].drop_last() =~= seq![*lhs]);
            assert(seq![*lhs].drop_last() =~= Seq::<NodeSpec>::empty());
        },
        NodeSpec::Conditional { condition, then_branch, else_branch, .. } => {
            assert(seq![*condition, *then_branch, *else_branch].drop_last() =~= seq![
                *condition,
                *then_branch,
            ]);
            assert(seq![*condition, *then_branch].drop_last() =~= seq![*condition]);
            assert(seq![*condition].drop_last() =~= Seq::<NodeSpec>::empty());
        },
        _ => {
            if cs.len() == 1 {
                assert(cs.drop_last() =~= Seq::<NodeSpec>::empty());
            }
        },
    }
    assert forall|i: int| 0 <= i < cs.len() implies size(#[trigger] cs[i]) < size(n) by {
        lemma_size_seq_element(cs, i);
    }
}

/// Replacing the children of a node by its own children gives the node back.
pub proof fn lemma_with_own_children(n: NodeSpec)
    ensures
        with_children(n, children(n)) == n,
{
    match n {
        NodeSpec::Call { operator, operands, .. } => {
            assert((seq![*operator] + operands).drop_first() =~= operands);
        },
        _ => {},
    }
}

/// Whether every node of a tree satisfies `p`.
pub open spec fn tree_all(n: NodeSpec, p: spec_fn(NodeSpec) -> bool) -> bool
    decreases size(n), 0nat,
{
    proof {
        lemma_children_smaller(n);
    }
    p(n) && tree_all_seq(children(n), p)
}

/// Whether every node of every tree of a sequence satisfies `p`.
pub open spec fn tree_all_seq(s: Seq<NodeSpec>, p: spec_fn(NodeSpec) -> bool) -> bool
    decreases size_seq(s), 1nat,
{
    if s.len() == 0 {
        true
    } else {
        proof {
            lemma_size_seq_element(s, s.len() - 1);
        }
        tree_all_seq(s.drop_last(), p) && tree_all(s.last(), p)
    }
}

/// A sequence of trees satisfies `p` everywhere exactly when each of its trees does.
pub proof fn lemma_tree_all_seq(s: Seq<NodeSpec>, p: spec_fn(NodeSpec) -> bool)
    ensures
        tree_all_seq(s, p) <==> forall|i: int| 0 <= i < s.len() ==> tree_all(#[trigger] s[i], p),
    decreases s.len(),
{
    if s.len() > 0 {
        lemma_tree_all_seq(s.drop_last(), p);
        assert forall|i: int| 0 <= i < s.len() - 1 implies s.drop_last()[i] == s[i] by {}
        if forall|i: int| 0 <= i < s.len() ==> tree_all(#[trigger] s[i], p) {
            assert(tree_all(s[s.len() - 1], p));
        }
    }
}

/// The children of a tree that satisfies `p` everywhere do too.
pub proof fn lemma_tree_all_children(n: NodeSpec, p: spec_fn(NodeSpec) -> bool)
    requires
        tree_all(n, p),
    ensures
        p(n),
        forall|i: int| 0 <= i < children(n).len() ==> tree_all(#[trigger] children(n)[i], p),
{
    lemma_tree_all_seq(children(n), p);
}

/// Takes a node apart into a shell (with placeholder children) and its children.
pub fn take_children(n: Node) -> (r: (Node, Vec<Node>))
    ensures
        nodes_view(r.1) == children(n@),
        fits(r.0@, children(n@).len()),
        forall|cs: Seq<NodeSpec>| #[trigger]
            with_children(r.0@, cs) == with_children(n@, cs),
{
    let mut kids: Vec<Node> = Vec::new();
    let shell = match n {
        Node::Call { operator, operands, typ } => {
            let ghost ops = operands;
            let mut operands = operands;
            kids.push(*operator);
            kids.append(&mut operands);
            proof {
                lemma_nodes_view(ops);
                lemma_nodes_view(kids);
                assert(nodes_view(kids) =~= seq![node_view(*operator)] + nodes_view(ops));
            }
            Node::Call { operator: Box::new(Node::nothing()), operands: Vec::new(), typ }
        },
        Node::Reference { mode, target, typ } => {
            kids.push(*target);
            Node::Reference { mode, target: Box::new(Node::nothing()), typ }
        },
        Node::Dereference { target, typ } => {
            kids.push(*target);
            Node::Dereference { target: Box::new(Node::nothing()), typ }
        },
        Node::Assign { lhs, rhs } => {
            kids.push(*lhs);
            kids.push(*rhs);
            Node::Assign { lhs: Box::new(Node::nothing()), rhs: Box::new(Node::nothing()) }
        },
        Node::Access { target, property, typ } => {
            kids.push(*target);
            Node::Access { target: Box::new(Node::nothing()), property, typ }
        },
        Node::Binding { name, binding } => {
            kids.push(*binding);
            Node::Binding { name, binding: Box::new(Node::nothing()) }
        },
        Node::Sequence { mode, nodes, typ } => {
            kids = nodes;
            Node::Sequence { mode, nodes: Vec::new(), typ }
        },
        Node::Conditional { condition, then_branch, else_branch, typ } => {
            kids.push(*condition);
            kids.push(*then_branch);
            kids.push(*else_branch);
            Node::Conditional {
                condition: Box::new(Node::nothing()),
                then_branch: Box::new(Node::nothing()),
                else_branch: Box::new(Node::nothing()),
                typ,
            }
        },
        Node::Function { name, arguments, return_type, body, typ } => {
            kids.push(*body);
            Node::Function { name, arguments, return_type, body: Box::new(Node::nothing()), typ }
        },
        other => other,
    };
    proof {
        lemma_nodes_view(kids);
        if !(n is Call) && !(n is Sequence) {
            assert(nodes_view(kids) =~= children(n@));
        }
    }
    (shell, kids)
}

/// The children of a node, by reference, in order.
pub fn child_refs(n: &Node) -> (r: Vec<&Node>)
    ensures
        r.len() == children(n@).len(),
        forall|i: int| 0 <= i < r.len() ==> (#[trigger] r@[i])@ == children(n@)[i],
{
    let mut r: Vec<&Node> = Vec::new();
    match n {
        Node::Call { operator, operands, .. } => {
            r.push(&**operator);
            let mut i: usize = 0;
            proof {
                lemma_nodes_view(*operands);
            }
            while i < operands.len()
                invariant
                    i <= operands.len(),
                    r.len() == i + 1,
                    r@[0]@ == (**operator)@,
                    nodes_view(*operands).len() == operands.len(),
                    forall|j: int| 0 <= j < operands.len() ==> nodes_view(*operands)[j] == (#[trigger] operands@[j])@,
                    forall|j: int| 1 <= j < r.len() ==> (#[trigger] r@[j])@ == operands@[j - 1]@,
                decreases operands.len() - i,
            {
                r.push(&operands[i]);
                i += 1;
            }
            proof {
                assert forall|i: int| 0 <= i < r.len() implies (#[trigger] r@[i])@ == children(n@)[i] by {
                    if i > 0 {
                        assert(children(n@)[i] == nodes_view(*operands)[i - 1]);
                    }
                }
            }
        },
        Node::Reference { target, .. } => {
            r.push(&**target);
        },
        Node::Dereference { target, .. } => {
            r.push(&**target);
        },
        Node::Assign { lhs, rhs } => {
            r.push(&**lhs);
            r.push(&**rhs);
        },
        Node::Access { target, .. } => {
            r.push(&**target);
        },
        Node::Binding { binding, .. } => {
            r.push(&**binding);
        },
        Node::Sequence { nodes, .. } => {
            let mut i: usize = 0;
            proof {
                lemma_nodes_view(*nodes);
            }
            while i < nodes.len()
                invariant
                    i <= nodes.len(),
                    r.len() == i,
                    nodes_view(*nodes).len() == nodes.len(),
                    forall|j: int| 0 <= j < nodes.len() ==> nodes_view(*nodes)[j] == (#[trigger] nodes@[j])@,
                    forall|j: int| 0 <= j < r.len() ==> (#[trigger] r@[j])@ == nodes@[j]@,
                decreases nodes.len() - i,
            {
                r.push(&nodes[i]);
                i += 1;
            }
        },
        Node::Conditional { condition, then_branch, else_branch, .. } => {
            r.push(&**condition);
            r.push(&**then_branch);
            r.push(&**else_branch);
        },
        Node::Function { body, .. } => {
            r.push(&**body);
        },
        _ => {},
    }
    r
}

/// Whether `k` children fit the shape of node `n`.
pub open spec fn fits(n: NodeSpec, k: nat) -> bool {
    match n {
        NodeSpec::Call { .. } => k >= 1,
        NodeSpec::Sequence { .. } => true,
        NodeSpec::Assign { .. } => k == 2,
        NodeSpec::Conditional { .. } => k == 3,
        NodeSpec::Reference { .. } | NodeSpec::Dereference { .. } | NodeSpec::Access { .. }
        | NodeSpec::Binding { .. } | NodeSpec::Function { .. } => k == 1,
        _ => k == 0,
    }
}

/// A node's own children fit it.
pub proof fn lemma_fits_children(n: NodeSpec)
    ensures
        fits(n, children(n).len()),
{
}

/// Puts a node back together from a shell and its new children.
pub fn put_children(shell: Node, cs: Vec<Node>) -> (r: Node)
    requires
        fits(shell@, cs.len() as nat),
    ensures
        r@ == with_children(shell@, nodes_view(cs)),
{
    let ghost csv = nodes_view(cs);
    proof { lemma_nodes_view(cs); }
    let mut cs = cs;
    match shell {
        Node::Call { typ, .. } => {
            let operator = cs.remove(0);
            proof { lemma_nodes_view(cs); assert(nodes_view(cs) =~= csv.drop_first()); }
            Node::Call { operator: Box::new(operator), operands: cs, typ }
        },
        Node::Reference { mode, typ, .. } => {
            let target = cs.remove(0);
            Node::Reference { mode, target: Box::new(target), typ }
        },
        Node::Dereference { typ, .. } => {
            let target = cs.remove(0);
            Node::Dereference { target: Box::new(target), typ }
        },
        Node::Assign { .. } => {
            let lhs = cs.remove(0);
            let rhs = cs.remove(0);
            Node::Assign { lhs: Box::new(lhs), rhs: Box::new(rhs) }
        },
        Node::Access { property, typ, .. } => {
            let target = cs.remove(0);
            Node::Access { target: Box::new(target), property, typ }
        },
        Node::Binding { name, .. } => {
            let binding = cs.remove(0);
            Node::Binding { name, binding: Box::new(binding) }
        },
        Node::Sequence { mode, typ, .. } => {
            assert(nodes_view(cs) == csv);
            Node::Sequence { mode, nodes: cs, typ }
        },
        Node::Conditional { typ, .. } => {
            let condition = cs.remove(0);
            let then_branch = cs.remove(0);
            let else_branch = cs.remove(0);
            Node::Conditional {
                condition: Box::new(condition),
                then_branch: Box::new(then_branch),
                else_branch: Box::new(else_branch),
                typ,
            }
        },
        Node::Function { name, arguments, return_type, typ, .. } => {
            let body = cs.remove(0);
            Node::Function { name, arguments, return_type, body: Box::new(body), typ }
        },
        other => other,
    }
}

/// A copy of a tree, with the same model.
pub fn copy_node(n: &Node) -> (r: Node)
    ensures
        r@ == n@,
    decreases size(n@), 0nat,
{
    proof {
        lemma_children_smaller(n@);
    }
    match n {
        Node::Nothing { typ } => Node::Nothing { typ: typ.copy() },
        Node::Comment { content } => Node::Comment { content: content.clone() },
        Node::Integer { value } => Node::Integer { value: *value },
        Node::Boolean { value } => Node::Boolean { value: *value },
        Node::Variable { name, typ } => Node::Variable { name: name.clone(), typ: typ.copy() },
        Node::PrimitiveOperator { operator, typ } => Node::PrimitiveOperator {
            operator: *operator,
            typ: typ.copy(),
        },
        Node::Call { operator, operands, typ } => {
            proof {
                lemma_nodes_view(*operands);
                assert(children(n@)[0] == (**operator)@);
                crate::tree::lemma_size_seq_append(seq![(**operator)@], nodes_view(*operands));
                assert(seq![(**operator)@].drop_last() =~= Seq::<NodeSpec>::empty());
            }
            let o = copy_node(operator);
            let ops = copy_nodes(operands);
            Node::Call { operator: Box::new(o), operands: ops, typ: typ.copy() }
        },
        Node::Reference { mode, target, typ } => {
            assert(children(n@)[0] == (**target)@);
            Node::Reference { mode: *mode, target: Box::new(copy_node(target)), typ: typ.copy() }
        },
        Node::Dereference { target, typ } => {
            assert(children(n@)[0] == (**target)@);
            Node::Dereference { target: Box::new(copy_node(target)), typ: typ.copy() }
        },
        Node::Assign { lhs, rhs } => {
            assert(children(n@)[0] == (**lhs)@);
            assert(children(n@)[1] == (**rhs)@);
            Node::Assign { lhs: Box::new(copy_node(lhs)), rhs: Box::new(copy_node(rhs)) }
        },
        Node::Access { target, property, typ } => {
            assert(children(n@)[0] == (**target)@);
            Node::Access {
                target: Box::new(copy_node(target)),
                property: property.clone(),
                typ: typ.copy(),
            }
        },
        Node::Binding { name, binding } => {
            assert(children(n@)[0] == (**binding)@);
            Node::Binding { name: name.clone(), binding: Box::new(copy_node(binding)) }
        },
        Node::Sequence { mode, nodes, typ } => {
            proof {
                lemma_nodes_view(*nodes);
            }
            Node::Sequence { mode: *mode, nodes: copy_nodes(nodes), typ: typ.copy() }
        },
        Node::Conditional { condition, then_branch, else_branch, typ } => {
            assert(children(n@)[0] == (**condition)@);
            assert(children(n@)[1] == (**then_branch)@);
            assert(children(n@)[2] == (**else_branch)@);
            Node::Conditional {
                condition: Box::new(copy_node(condition)),
                then_branch: Box::new(copy_node(then_branch)),
                else_branch: Box::new(copy_node(else_branch)),
                typ: typ.copy(),
            }
        },
        Node::Function { name, arguments, return_type, body, typ } => {
            assert(children(n@)[0] == (**body)@);
            let mut copied: Vec<Argument> = Vec::new();
            let mut i: usize = 0;
            while i < arguments.len()
                invariant
                    i <= arguments.len(),
                    copied.len() == i,
                    forall|j: int| 0 <= j < i ==> (#[trigger] copied@[j])@ == arguments@[j]@,
                decreases arguments.len() - i,
            {
                copied.push(Argument { name: arguments[i].name.clone(), typ: arguments[i].typ.copy() });
                i += 1;
            }
            proof {
                lemma_arguments_view(copied);
                lemma_arguments_view(*arguments);
                assert(arguments_view(copied) =~= arguments_view(*arguments));
            }
            Node::Function {
                name: name.clone(),
                arguments: copied,
                return_type: return_type.copy(),
                body: Box::new(copy_node(body)),
                typ: typ.copy(),
            }
        },
        Node::CNode(c) => Node::CNode(CNode { node_type: c.node_type, text: c.text.clone(), typ: c.typ.copy() }),
    }
}

/// A copy of a vector of trees, with the same models.
pub fn copy_nodes(v: &Vec<Node>) -> (r: Vec<Node>)
    ensures
        nodes_view(r) == nodes_view(*v),
    decreases size_seq(nodes_view(*v)), 1nat,
{
    let ghost s = nodes_view(*v);
    proof {
        lemma_nodes_view(*v);
        assert forall|j: int| 0 <= j < s.len() implies size(#[trigger] s[j]) <= size_seq(s) by {
            lemma_size_seq_element(s, j);
        }
    }
    let mut r: Vec<Node> = Vec::new();
    let mut i: usize = 0;
    while i < v.len()
        invariant
            i <= v.len(),
            s == nodes_view(*v),
            s.len() == v.len(),
            forall|j: int| 0 <= j < v.len() ==> s[j] == (#[trigger] v@[j])@,
            forall|j: int| 0 <= j < s.len() ==> size(#[trigger] s[j]) <= size_seq(s),
            r.len() == i,
            forall|j: int| 0 <= j < i ==> (#[trigger] r@[j])@ == s[j],
        decreases v.len() - i,
    {
        assert(size(s[i as int]) <= size_seq(s));
        r.push(copy_node(&v[i]));
        i += 1;
    }
    proof {
        lemma_nodes_view(r);
    }
    assert(nodes_view(r) =~= s);
    r
}

} // verus!

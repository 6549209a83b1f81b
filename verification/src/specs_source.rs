//! Validation of a source tree: bindings, assignments and definitions cannot be used where a
//! value is expected (as an operator, an operand, a target, a bound value, a side of an
//! assignment or a condition).
use vstd::prelude::*;
use crate::ast::{group_ast_views, lemma_nodes_view, nodes_view, Node, NodeSpec};
use crate::pass_messages::{error_pass, messages_view, MessageSpec, PassMessageContext, PassResult};
use crate::text::{decimal, push_str, push_string, text, usize_text};
use crate::tree::{child_refs, children, lemma_children_smaller, lemma_size_seq_element, size, size_seq};
use crate::validate_nodes::{get_kind_name, kind_name};

verus! {

broadcast use group_ast_views;

/// Whether a node can be used where a value is expected.
pub open spec fn is_valid_operand(n: NodeSpec) -> bool {
    !(n is Binding || n is Assign || n is Function)
}

/// The message about `n` used as `place`, when it cannot be.
pub open spec fn misuse(n: NodeSpec, place: Seq<char>) -> Seq<Seq<char>> {
    if is_valid_operand(n) {
        Seq::empty()
    } else {
        seq!["Can't use "@ + kind_name(n) + " as "@ + place]
    }
}

/// The messages about the operands of a call, from the `k`-th on.
pub open spec fn operand_misuses(operands: Seq<NodeSpec>, k: nat) -> Seq<Seq<char>>
    decreases operands.len() - k,
{
    if k >= operands.len() {
        Seq::empty()
    } else {
        misuse(operands[k as int], "call operand "@ + decimal(k)) + operand_misuses(operands, k + 1)
    }
}

/// The messages about one node (its children are not looked into).
pub open spec fn source_problems(n: NodeSpec) -> Seq<Seq<char>> {
    match n {
        NodeSpec::Call { operator, operands, .. } => misuse(*operator, "call operator"@)
            + operand_misuses(operands, 0),
        NodeSpec::Reference { target, .. } => misuse(*target, "reference target"@),
        NodeSpec::Dereference { target, .. } => misuse(*target, "dereference target"@),
        NodeSpec::Assign { lhs, rhs } => misuse(*lhs, "assign LHS"@) + misuse(*rhs, "assign RHS"@),
        NodeSpec::Access { target, .. } => misuse(*target, "access target"@),
        NodeSpec::Binding { binding, .. } => misuse(*binding, "binding expression"@),
        NodeSpec::Conditional { condition, .. } => misuse(*condition, "condition"@),
        _ => Seq::empty(),
    }
}

/// The name of the pass.
pub open spec fn source_pass_name() -> Seq<char> {
    "ValidateSpecsSource"@
}

/// The error messages for the problems of node `n` at the given depth.
pub open spec fn problem_messages(problems: Seq<Seq<char>>, n: NodeSpec, depth: nat) -> Seq<MessageSpec> {
    problems.map_values(
        |message: Seq<char>|
            MessageSpec {
                pass: error_pass(source_pass_name()),
                name: "InvalidOperand"@,
                message,
                source: kind_name(n),
                indent: depth,
            },
    )
}

/// The messages of the pass on a tree at the given depth: those of its children (each at
/// the next depth, in order), then those of the node itself.
pub open spec fn source_messages(n: NodeSpec, depth: nat) -> Seq<MessageSpec>
    decreases size(n), 0nat,
{
    proof {
        lemma_children_smaller(n);
    }
    source_messages_seq(children(n), depth + 1) + problem_messages(source_problems(n), n, depth)
}

/// [`source_messages`] of each tree of a sequence, in order.
pub open spec fn source_messages_seq(s: Seq<NodeSpec>, depth: nat) -> Seq<MessageSpec>
    decreases size_seq(s), 1nat,
{
    if s.len() == 0 {
        Seq::empty()
    } else {
        proof {
            lemma_size_seq_element(s, s.len() - 1);
        }
        source_messages_seq(s.drop_last(), depth) + source_messages(s.last(), depth)
    }
}

/// The message about `node` used as `place`, if it cannot be.
fn check_operand(node: &Node, place: &str, problems: &mut Vec<String>)
    ensures
        final(problems)@.map_values(|s: String| s@) == old(problems)@.map_values(|s: String| s@)
            + misuse(node@, place@),
{
    let ghost before = problems@.map_values(|s: String| s@);
    let valid = match node {
        Node::Binding { .. } | Node::Assign { .. } | Node::Function { .. } => false,
        _ => true,
    };
    if !valid {
        let mut message = text("Can't use ");
        let kind = get_kind_name(node);
        push_string(&mut message, &kind);
        push_str(&mut message, " as ");
        push_str(&mut message, place);
        let ghost mv = message@;
        problems.push(message);
        assert(problems@.map_values(|s: String| s@) =~= before.push(mv));
    } else {
        assert(misuse(node@, place@) =~= Seq::<Seq<char>>::empty());
        assert(problems@.map_values(|s: String| s@) =~= before);
    }
}

/// The messages about one node (see [`source_problems`]).
fn node_problems(node: &Node) -> (r: Vec<String>)
    ensures
        r@.map_values(|s: String| s@) == source_problems(node@),
{
    let mut problems: Vec<String> = Vec::new();
    assert(problems@.map_values(|s: String| s@) =~= Seq::<Seq<char>>::empty());
    match node {
        Node::Call { operator, operands, .. } => {
            check_operand(operator, "call operator", &mut problems);
            let ghost ov = nodes_view(*operands);
            let ghost first = problems@.map_values(|s: String| s@);
            proof {
                lemma_nodes_view(*operands);
            }
            let mut i: usize = 0;
            while i < operands.len()
                invariant
                    i <= operands.len(),
                    ov == nodes_view(*operands),
                    ov.len() == operands.len(),
                    forall|j: int| 0 <= j < operands.len() ==> ov[j] == (#[trigger] operands@[j])@,
                    problems@.map_values(|s: String| s@) + operand_misuses(ov, i as nat) == first
                        + operand_misuses(ov, 0),
                decreases operands.len() - i,
            {
                let mut place = text("call operand ");
                let index = usize_text(i);
                push_string(&mut place, &index);
                proof {
                    reveal_strlit("call operand ");
                    assert(ov[i as int] == operands@[i as int]@);
                }
                let ghost before = problems@.map_values(|s: String| s@);
                check_operand(&operands[i], place.as_str(), &mut problems);
                proof {
                    assert(operand_misuses(ov, i as nat) == misuse(ov[i as int], "call operand "@ + decimal(i as nat))
                        + operand_misuses(ov, (i + 1) as nat));
                    assert(before + operand_misuses(ov, i as nat) =~= problems@.map_values(|s: String| s@) + operand_misuses(ov, (i + 1) as nat));
                }
                i += 1;
            }
            assert(problems@.map_values(|s: String| s@) =~= first + operand_misuses(ov, 0));
        },
        Node::Reference { target, .. } => {
            check_operand(target, "reference target", &mut problems);
        },
        Node::Dereference { target, .. } => {
            check_operand(target, "dereference target", &mut problems);
        },
        Node::Assign { lhs, rhs } => {
            check_operand(lhs, "assign LHS", &mut problems);
            check_operand(rhs, "assign RHS", &mut problems);
        },
        Node::Access { target, .. } => {
            check_operand(target, "access target", &mut problems);
        },
        Node::Binding { binding, .. } => {
            check_operand(binding, "binding expression", &mut problems);
        },
        Node::Conditional { condition, .. } => {
            check_operand(condition, "condition", &mut problems);
        },
        _ => {},
    }
    problems
}

/// ## Validate Specs Source Pass
///
/// - Reports each binding, assignment or definition used where a value is expected
pub struct Pass {}

impl Pass {
    pub fn new() -> Self {
        Self {}
    }

    /// The name of the pass.
    pub fn get_name(&self) -> (r: String)
        ensures
            r@ == source_pass_name(),
    {
        text("ValidateSpecsSource")
    }

    /// Reports the problems of one node, at the context's current depth.
    pub fn transform(&self, node: &Node, messages: &mut PassMessageContext)
        requires
            old(messages).model().pass_name == source_pass_name(),
        ensures
            final(messages).model().pass_name == source_pass_name(),
            final(messages).model().current_indent == old(messages).model().current_indent,
            final(messages).model().messages == old(messages).model().messages + problem_messages(
                source_problems(node@),
                node@,
                old(messages).model().current_indent,
            ),
            final(messages).model().has_errors == (old(messages).model().has_errors
                || source_problems(node@).len() > 0),
    {
        let problems = node_problems(node);
        let ghost pv = problems@.map_values(|s: String| s@);
        let ghost before = messages.model().messages;
        let ghost depth = messages.model().current_indent;
        let mut i: usize = 0;
        while i < problems.len()
            invariant
                i <= problems.len(),
                pv == problems@.map_values(|s: String| s@),
                messages.model().pass_name == source_pass_name(),
                messages.model().current_indent == depth,
                messages.model().messages == before + problem_messages(pv.take(i as int), node@, depth),
                messages.model().has_errors == (old(messages).model().has_errors || i > 0),
            decreases problems.len() - i,
        {
            let name = text("InvalidOperand");
            let source = get_kind_name(node);
            let message = problems[i].clone();
            proof {
                reveal_strlit("InvalidOperand");
            }
            messages.add_error(name, message, source);
            proof {
                let t = pv.take(i + 1);
                assert(t.drop_last() =~= pv.take(i as int));
                assert(problem_messages(t, node@, depth) =~= problem_messages(pv.take(i as int), node@, depth).push(
                    problem_messages(t, node@, depth).last(),
                ));
            }
            i += 1;
        }
        assert(pv.take(problems.len() as int) =~= pv);
    }

    /// Visits the tree, children first, each node at its depth.
    fn walk(&self, node: &Node, depth: usize, messages: &mut PassMessageContext)
        requires
            old(messages).model().pass_name == source_pass_name(),
            depth + size(node@) <= usize::MAX,
        ensures
            final(messages).model().pass_name == source_pass_name(),
            final(messages).model().messages == old(messages).model().messages + source_messages(
                node@,
                depth as nat,
            ),
            final(messages).model().has_errors == (old(messages).model().has_errors
                || source_messages(node@, depth as nat).len() > 0),
        decreases size(node@),
    {
        let ghost n = node@;
        proof {
            lemma_children_smaller(n);
        }
        let ghost before = messages.model().messages;
        let kids = child_refs(node);
        let ghost cs = children(n);
        let mut i: usize = 0;
        while i < kids.len()
            invariant
                i <= kids.len(),
                kids.len() == cs.len(),
                forall|j: int| 0 <= j < kids.len() ==> (#[trigger] kids@[j])@ == cs[j],
                forall|j: int| 0 <= j < cs.len() ==> size(#[trigger] cs[j]) < size(n),
                n == node@,
                cs == children(n),
                depth + size(n) <= usize::MAX,
                messages.model().pass_name == source_pass_name(),
                messages.model().messages == before + source_messages_seq(cs.take(i as int), (depth + 1) as nat),
                messages.model().has_errors == (old(messages).model().has_errors
                    || source_messages_seq(cs.take(i as int), (depth + 1) as nat).len() > 0),
            decreases kids.len() - i,
        {
            let ghost mid = messages.model().messages;
            self.walk(kids[i], depth + 1, messages);
            proof {
                let t = cs.take(i + 1);
                assert(t.drop_last() =~= cs.take(i as int));
                assert(t.last() == cs[i as int]);
                assert(messages.model().messages =~= before + source_messages_seq(t, (depth + 1) as nat));
            }
            i += 1;
        }
        assert(cs.take(cs.len() as int) =~= cs);
        messages.set_indent(depth);
        self.transform(node, messages);
        assert(messages.model().messages =~= old(messages).model().messages + source_messages(n, depth as nat));
    }

    /// Runs the pass over the tree: a failure, with the messages, when some node is misused.
    pub fn apply(&self, root: &Node) -> (r: PassResult)
        requires
            size(root@) <= usize::MAX,
        ensures
            match r {
                PassResult::Success(m) => messages_view(m@) == source_messages(root@, 0)
                    && source_messages(root@, 0).len() == 0,
                PassResult::Failure(m) => messages_view(m@) == source_messages(root@, 0)
                    && source_messages(root@, 0).len() > 0,
            },
    {
        let mut messages = PassMessageContext::new(self.get_name());
        self.walk(root, 0, &mut messages);
        let (all, _has_warnings, has_errors) = messages.destructure();
        if has_errors {
            PassResult::Failure(all)
        } else {
            PassResult::Success(all)
        }
    }
}

} // verus!

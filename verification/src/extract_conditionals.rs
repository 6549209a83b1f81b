//! Extraction of conditionals: a conditional that stands where a value is used is turned into
//! a statement that assigns each branch's value to a new temporary variable, which takes its
//! place:
//!
//! ```text
//! (F (if X then Y else Z))   =>   {  let t = Nothing
//!                                    (if X then (t = Y) else (t = Z))
//!                                    (F t)  }
//! ```
//!
//! A conditional operator is handled by calling each branch on temporaries bound to the
//! operands; a conditional on either side of an assignment goes through a temporary
//! reference. Each assignment that the extraction builds is handled again. A conditional
//! whose condition is a conditional is not handled: the pass does not apply to such trees.
use vstd::prelude::*;
use crate::ast::{
    group_ast_views, lemma_nodes_view, new_sequence, node_type, nodes_view, Node, NodeSpec,
    ReferenceMode, SequenceMode, Type, TypeSpec,
};
use crate::names::{next_count, temp_name, TempNameGenerator};
use crate::tree::{
    children, fits, lemma_children_smaller, lemma_fits_children, lemma_size_seq_element,
    lemma_tree_all_children, lemma_tree_all_seq, lemma_with_own_children, put_children, size,
    size_seq, take_children, tree_all, with_children, copy_node, copy_nodes,
};

verus! {

broadcast use group_ast_views;

/// The prefix of the temporary variables of this pass.
pub open spec fn conditional_prefix() -> Seq<char> {
    seq!['x', 'c', 'o', 'n', 'd']
}

/// A variable of the given type.
pub open spec fn typed_variable(name: Seq<char>, typ: TypeSpec) -> NodeSpec {
    NodeSpec::Variable { name, typ }
}

/// The declaration of a temporary variable, bound to nothing yet.
pub open spec fn empty_binding(name: Seq<char>, typ: TypeSpec) -> NodeSpec {
    NodeSpec::Binding { name, binding: Box::new(NodeSpec::Nothing { typ }) }
}

/// A mutable reference to `n`, typed after it.
pub open spec fn mutable_reference(n: NodeSpec) -> NodeSpec {
    NodeSpec::Reference {
        mode: ReferenceMode::Mutable,
        target: Box::new(n),
        typ: TypeSpec::Reference(ReferenceMode::Mutable, Box::new(node_type(n))),
    }
}

/// A dereference of `n` (of a type not yet known).
pub open spec fn dereference(n: NodeSpec) -> NodeSpec {
    NodeSpec::Dereference { target: Box::new(n), typ: TypeSpec::Unknown }
}

/// The type of a mutable reference to a value of type `t`.
pub open spec fn reference_type(t: TypeSpec) -> TypeSpec {
    TypeSpec::Reference(ReferenceMode::Mutable, Box::new(t))
}

/// The assignment of a branch to `lhs` (of a mutable reference to it when `by_reference`).
pub open spec fn branch_assignment(lhs: NodeSpec, branch: NodeSpec, by_reference: bool) -> NodeSpec {
    NodeSpec::Assign {
        lhs: Box::new(lhs),
        rhs: Box::new(if by_reference { mutable_reference(branch) } else { branch }),
    }
}

/// The conditional `cnd` with each branch turned into its assignment to `lhs`, the then
/// branch first, each handled again; with the count after them. `None` where the pass does
/// not apply or `fuel` does not reach.
pub open spec fn branches_assigned(
    cnd: NodeSpec,
    lhs: NodeSpec,
    by_reference: bool,
    c: nat,
    fuel: nat,
) -> Option<(NodeSpec, nat)>
    decreases fuel, 0nat, 0nat,
{
    match cnd {
        NodeSpec::Conditional { condition, then_branch, else_branch, typ } => {
            if fuel == 0 {
                None
            } else {
                match conditionals_extracted(
                    branch_assignment(lhs, *then_branch, by_reference),
                    c,
                    (fuel - 1) as nat,
                ) {
                    Some((t, c1)) => match conditionals_extracted(
                        branch_assignment(lhs, *else_branch, by_reference),
                        c1,
                        (fuel - 1) as nat,
                    ) {
                        Some((e, c2)) => Some(
                            (
                                NodeSpec::Conditional {
                                    condition,
                                    then_branch: Box::new(t),
                                    else_branch: Box::new(e),
                                    typ,
                                },
                                c2,
                            ),
                        ),
                        None => None,
                    },
                    None => None,
                }
            }
        },
        _ => None,
    }
}

/// The tree `n` after the pass (its children first, then the node itself), with the count of
/// temporary names drawn after it (`c` before); `None` where the pass does not apply or
/// `fuel` (the depth of nested re-handling) does not reach.
pub open spec fn conditionals_extracted(n: NodeSpec, c: nat, fuel: nat) -> Option<(NodeSpec, nat)>
    decreases fuel, size(n), 0nat,
{
    proof {
        lemma_children_smaller(n);
    }
    match conditionals_extracted_seq(children(n), c, fuel) {
        Some((cs, c1)) => conditional_exit(with_children(n, cs), c1, fuel),
        None => None,
    }
}

/// [`conditionals_extracted`] of each tree of a sequence, in order.
pub open spec fn conditionals_extracted_seq(s: Seq<NodeSpec>, c: nat, fuel: nat) -> Option<
    (Seq<NodeSpec>, nat),
>
    decreases fuel, size_seq(s), 1nat,
{
    if s.len() == 0 {
        Some((s, c))
    } else {
        proof {
            lemma_size_seq_element(s, s.len() - 1);
        }
        match conditionals_extracted_seq(s.drop_last(), c, fuel) {
            Some((done, c1)) => match conditionals_extracted(s.last(), c1, fuel) {
                Some((x, c2)) => Some((done.push(x), c2)),
                None => None,
            },
            None => None,
        }
    }
}

/// The child of `m` at `k`, a conditional, turned into the assignment of its branches to a
/// new temporary: a transparent sequence of the temporary's declaration, that conditional,
/// and `m` with the temporary in place of the child.
pub open spec fn conditional_lifted(m: NodeSpec, k: int, c: nat, fuel: nat) -> Option<(NodeSpec, nat)>
    decreases fuel, 0nat, 1nat,
{
    if 0 <= k < children(m).len() {
        let t = children(m)[k];
        let name = temp_name(conditional_prefix(), next_count(c));
        let variable = typed_variable(name, node_type(t));
        match branches_assigned(t, variable, false, next_count(c), fuel) {
            Some((assigned, c2)) => {
                let using = with_children(m, children(m).update(k, variable));
                Some(
                    (
                        new_sequence(
                            SequenceMode::Transparent,
                            seq![empty_binding(name, node_type(t)), assigned, using],
                        ),
                        c2,
                    ),
                )
            },
            None => None,
        }
    } else {
        None
    }
}

/// Each operand bound to a new temporary (each binding handled again): the temporaries, the
/// bindings, and the count after them.
pub open spec fn operands_bound(ops: Seq<NodeSpec>, c: nat, fuel: nat) -> Option<
    (Seq<NodeSpec>, Seq<NodeSpec>, nat),
>
    decreases fuel, 0nat, ops.len(),
{
    if ops.len() == 0 {
        Some((ops, Seq::empty(), c))
    } else if fuel == 0 {
        None
    } else {
        match operands_bound(ops.drop_last(), c, fuel) {
            Some((variables, bindings, c1)) => {
                let x = ops.last();
                let name = temp_name(conditional_prefix(), next_count(c1));
                let binding = NodeSpec::Binding { name, binding: Box::new(x) };
                match conditionals_extracted(binding, next_count(c1), (fuel - 1) as nat) {
                    Some((b, c2)) => Some(
                        (variables.push(typed_variable(name, node_type(x))), bindings.push(b), c2),
                    ),
                    None => None,
                }
            },
            None => None,
        }
    }
}

/// Each conditional operand turned into the assignment of its branches to a new temporary,
/// which takes its place: the new operands, the temporaries' declarations and conditionals,
/// and the count after them.
pub open spec fn conditional_operands_lifted(ops: Seq<NodeSpec>, c: nat, fuel: nat) -> Option<
    (Seq<NodeSpec>, Seq<NodeSpec>, nat),
>
    decreases fuel, 0nat, ops.len(),
{
    if ops.len() == 0 {
        Some((ops, Seq::empty(), c))
    } else {
        match conditional_operands_lifted(ops.drop_last(), c, fuel) {
            Some((done, temps, c1)) => {
                let x = ops.last();
                if x is Conditional {
                    let name = temp_name(conditional_prefix(), next_count(c1));
                    let variable = typed_variable(name, node_type(x));
                    match branches_assigned(x, variable, false, next_count(c1), fuel) {
                        Some((assigned, c2)) => Some(
                            (
                                done.push(variable),
                                temps.push(empty_binding(name, node_type(x))).push(assigned),
                                c2,
                            ),
                        ),
                        None => None,
                    }
                } else {
                    Some((done.push(x), temps, c1))
                }
            },
            None => None,
        }
    }
}

/// The index of the child of `m` that is lifted when it is a conditional: the target of a
/// reference, dereference or access, or the bound value of a binding.
pub open spec fn lifted_target(m: NodeSpec) -> bool {
    m is Reference || m is Dereference || m is Binding || m is Access
}

/// A call whose operator is a conditional: the condition and the operands are bound first,
/// then each branch is called on the operands and its result assigned to a new temporary,
/// which is the value of the whole.
pub open spec fn conditional_call(
    cnd: NodeSpec,
    operands: Seq<NodeSpec>,
    typ: TypeSpec,
    c: nat,
    fuel: nat,
) -> Option<(NodeSpec, nat)>
    decreases fuel, 0nat, operands.len() + 1,
{
    match cnd {
        NodeSpec::Conditional { condition, then_branch, else_branch, .. } => match operands_bound(
            operands,
            c,
            fuel,
        ) {
            Some((variables, bindings, c1)) => {
                let condition_name = temp_name(conditional_prefix(), next_count(c1));
                let result_name = temp_name(conditional_prefix(), next_count(next_count(c1)));
                let result = typed_variable(result_name, typ);
                let then_call = NodeSpec::Assign {
                    lhs: Box::new(result),
                    rhs: Box::new(
                        NodeSpec::Call { operator: then_branch, operands: variables, typ: TypeSpec::Unknown },
                    ),
                };
                let else_call = NodeSpec::Assign {
                    lhs: Box::new(result),
                    rhs: Box::new(
                        NodeSpec::Call { operator: else_branch, operands: variables, typ: TypeSpec::Unknown },
                    ),
                };
                let new_conditional = NodeSpec::Conditional {
                    condition: Box::new(typed_variable(condition_name, node_type(*condition))),
                    then_branch: Box::new(then_call),
                    else_branch: Box::new(else_call),
                    typ: TypeSpec::Unknown,
                };
                let bind_condition = NodeSpec::Binding { name: condition_name, binding: condition };
                Some(
                    (
                        new_sequence(
                            SequenceMode::Scope,
                            seq![bind_condition] + bindings + seq![
                                empty_binding(result_name, typ),
                                new_conditional,
                                result,
                            ],
                        ),
                        next_count(next_count(c1)),
                    ),
                )
            },
            None => None,
        },
        _ => None,
    }
}

/// An assignment with a conditional on either side: the place assigned is taken through a
/// temporary mutable reference.
pub open spec fn conditional_assignment(lhs: NodeSpec, rhs: NodeSpec, c: nat, fuel: nat) -> Option<
    (NodeSpec, nat),
>
    decreases fuel, 0nat, 1nat,
{
    let name = temp_name(conditional_prefix(), next_count(c));
    let temp_type = reference_type(node_type(lhs));
    let temp = typed_variable(name, temp_type);
    if lhs is Conditional && rhs is Conditional {
        match branches_assigned(lhs, temp, true, next_count(c), fuel) {
            Some((lhs_assigned, c1)) => match branches_assigned(rhs, dereference(temp), false, c1, fuel) {
                Some((rhs_assigned, c2)) => Some(
                    (
                        new_sequence(
                            SequenceMode::Scope,
                            seq![empty_binding(name, temp_type), lhs_assigned, rhs_assigned],
                        ),
                        c2,
                    ),
                ),
                None => None,
            },
            None => None,
        }
    } else if lhs is Conditional {
        match branches_assigned(lhs, temp, true, next_count(c), fuel) {
            Some((lhs_assigned, c1)) => {
                let using = NodeSpec::Assign { lhs: Box::new(dereference(temp)), rhs: Box::new(rhs) };
                Some(
                    (
                        new_sequence(
                            SequenceMode::Scope,
                            seq![empty_binding(name, temp_type), lhs_assigned, using],
                        ),
                        c1,
                    ),
                )
            },
            None => None,
        }
    } else {
        match branches_assigned(rhs, dereference(temp), false, next_count(c), fuel) {
            Some((rhs_assigned, c1)) => {
                let bind_temp = NodeSpec::Binding { name, binding: Box::new(mutable_reference(lhs)) };
                Some((new_sequence(SequenceMode::Scope, seq![bind_temp, rhs_assigned]), c1))
            },
            None => None,
        }
    }
}

/// A sequence with a value whose final node is a conditional: the conditional assigns its
/// branches to a new temporary, which then gives the value.
pub open spec fn final_conditional_lifted(
    mode: SequenceMode,
    nodes: Seq<NodeSpec>,
    typ: TypeSpec,
    c: nat,
    fuel: nat,
) -> Option<(NodeSpec, nat)>
    decreases fuel, 0nat, 1nat,
{
    let t = nodes.last();
    let name = temp_name(conditional_prefix(), next_count(c));
    let variable = typed_variable(name, node_type(t));
    match branches_assigned(t, variable, false, next_count(c), fuel) {
        Some((assigned, c1)) => {
            let using = NodeSpec::Sequence { mode, nodes: nodes.drop_last().push(assigned), typ };
            Some(
                (
                    new_sequence(
                        SequenceMode::Transparent,
                        seq![empty_binding(name, node_type(t)), using, variable],
                    ),
                    c1,
                ),
            )
        },
        None => None,
    }
}

/// A node after its children: conditionals where values are used are turned into
/// statements before it.
pub open spec fn conditional_exit(m: NodeSpec, c: nat, fuel: nat) -> Option<(NodeSpec, nat)>
    decreases fuel, 0nat, children(m).len() + 3,
{
    match m {
        NodeSpec::Call { operator, operands, typ } => {
            if *operator is Conditional {
                conditional_call(*operator, operands, typ, c, fuel)
            } else {
                match conditional_operands_lifted(operands, c, fuel) {
                    Some((new_operands, temps, c1)) => {
                        let call = NodeSpec::Call { operator, operands: new_operands, typ };
                        if temps.len() > 0 {
                            Some((new_sequence(SequenceMode::Scope, temps.push(call)), c1))
                        } else {
                            Some((call, c1))
                        }
                    },
                    None => None,
                }
            }
        },
        NodeSpec::Assign { lhs, rhs } => {
            if *lhs is Conditional || *rhs is Conditional {
                conditional_assignment(*lhs, *rhs, c, fuel)
            } else {
                Some((m, c))
            }
        },
        NodeSpec::Sequence { mode, nodes, typ } => {
            if nodes.len() > 0 && nodes.last() is Conditional && typ != TypeSpec::Void {
                final_conditional_lifted(mode, nodes, typ, c, fuel)
            } else {
                Some((m, c))
            }
        },
        NodeSpec::Conditional { condition, .. } => {
            if *condition is Conditional {
                None
            } else {
                Some((m, c))
            }
        },
        _ => {
            if lifted_target(m) && children(m)[0] is Conditional {
                conditional_lifted(m, 0, c, fuel)
            } else {
                Some((m, c))
            }
        },
    }
}

/// [`conditionals_extracted_seq`] is defined on every prefix of a sequence on which it is
/// defined.
pub proof fn lemma_extracted_seq_prefix(s: Seq<NodeSpec>, c: nat, fuel: nat, i: int)
    requires
        conditionals_extracted_seq(s, c, fuel) is Some,
        0 <= i <= s.len(),
    ensures
        conditionals_extracted_seq(s.take(i), c, fuel) is Some,
    decreases s.len(),
{
    if i == s.len() {
        assert(s.take(i) =~= s);
    } else {
        assert(s.drop_last().take(i) =~= s.take(i));
        lemma_extracted_seq_prefix(s.drop_last(), c, fuel, i);
    }
}

/// The extracted sequence has as many trees as the given one.
pub proof fn lemma_extracted_seq_len(s: Seq<NodeSpec>, c: nat, fuel: nat)
    requires
        conditionals_extracted_seq(s, c, fuel) is Some,
    ensures
        conditionals_extracted_seq(s, c, fuel).unwrap().0.len() == s.len(),
    decreases s.len(),
{
    if s.len() > 0 {
        lemma_extracted_seq_len(s.drop_last(), c, fuel);
    }
}

/// [`operands_bound`] is defined on every prefix of a list on which it is defined.
pub proof fn lemma_operands_bound_prefix(s: Seq<NodeSpec>, c: nat, fuel: nat, i: int)
    requires
        operands_bound(s, c, fuel) is Some,
        0 <= i <= s.len(),
    ensures
        operands_bound(s.take(i), c, fuel) is Some,
    decreases s.len(),
{
    if i == s.len() {
        assert(s.take(i) =~= s);
    } else {
        assert(s.drop_last().take(i) =~= s.take(i));
        lemma_operands_bound_prefix(s.drop_last(), c, fuel, i);
    }
}

/// [`conditional_operands_lifted`] is defined on every prefix of a list on which it is
/// defined.
pub proof fn lemma_operands_lifted_prefix(s: Seq<NodeSpec>, c: nat, fuel: nat, i: int)
    requires
        conditional_operands_lifted(s, c, fuel) is Some,
        0 <= i <= s.len(),
    ensures
        conditional_operands_lifted(s.take(i), c, fuel) is Some,
    decreases s.len(),
{
    if i == s.len() {
        assert(s.take(i) =~= s);
    } else {
        assert(s.drop_last().take(i) =~= s.take(i));
        lemma_operands_lifted_prefix(s.drop_last(), c, fuel, i);
    }
}

/// Whether the pass applies to a whole tree with some depth of re-handling.
pub open spec fn pass_applies(root: NodeSpec) -> bool {
    exists|fuel: nat| #[trigger] conditionals_extracted_seq(children(root), 0, fuel) is Some
}

/// A depth of re-handling that the pass reaches on the tree (where it applies).
pub open spec fn pass_fuel(root: NodeSpec) -> nat {
    choose|fuel: nat| #[trigger] conditionals_extracted_seq(children(root), 0, fuel) is Some
}

/// What the pass does to the whole tree: each child of the root is handled in turn.
pub open spec fn pass_result(root: NodeSpec) -> NodeSpec {
    with_children(root, conditionals_extracted_seq(children(root), 0, pass_fuel(root)).unwrap().0)
}

/// Whether no value that a node uses directly is a conditional: the operands of a call, the
/// target of a reference, dereference or access, the bound value of a binding, either side
/// of an assignment, the condition of a conditional. (The operator of a call is not
/// included: the branches of a conditional operator are called as they are.)
pub open spec fn uses_no_conditional(n: NodeSpec) -> bool {
    match n {
        NodeSpec::Call { operands, .. } => forall|i: int|
            0 <= i < operands.len() ==> !(#[trigger] operands[i] is Conditional),
        NodeSpec::Reference { target, .. } => !(*target is Conditional),
        NodeSpec::Dereference { target, .. } => !(*target is Conditional),
        NodeSpec::Access { target, .. } => !(*target is Conditional),
        NodeSpec::Binding { binding, .. } => !(*binding is Conditional),
        NodeSpec::Assign { lhs, rhs } => !(*lhs is Conditional) && !(*rhs is Conditional),
        NodeSpec::Conditional { condition, .. } => !(*condition is Conditional),
        _ => true,
    }
}

/// Whether no node of a tree uses a conditional directly as a value.
pub open spec fn conditionals_extracted_everywhere(n: NodeSpec) -> bool {
    tree_all(n, |m: NodeSpec| uses_no_conditional(m))
}

/// A node that uses no conditional directly, with children in which none does, has none
/// anywhere.
pub proof fn lemma_everywhere_from_children(m: NodeSpec)
    requires
        uses_no_conditional(m),
        forall|i: int| 0 <= i < children(m).len() ==> conditionals_extracted_everywhere(
            #[trigger] children(m)[i],
        ),
    ensures
        conditionals_extracted_everywhere(m),
{
    lemma_tree_all_seq(children(m), |x: NodeSpec| uses_no_conditional(x));
}

/// The children of a tree in which no node uses a conditional directly have none either.
pub proof fn lemma_everywhere_children(m: NodeSpec)
    requires
        conditionals_extracted_everywhere(m),
    ensures
        uses_no_conditional(m),
        forall|i: int| 0 <= i < children(m).len() ==> conditionals_extracted_everywhere(
            #[trigger] children(m)[i],
        ),
{
    lemma_tree_all_children(m, |x: NodeSpec| uses_no_conditional(x));
}

/// A new sequence of trees in which no node uses a conditional directly has none.
pub proof fn lemma_everywhere_new_sequence(mode: SequenceMode, s: Seq<NodeSpec>)
    requires
        forall|i: int| 0 <= i < s.len() ==> conditionals_extracted_everywhere(#[trigger] s[i]),
    ensures
        conditionals_extracted_everywhere(new_sequence(mode, s)),
{
    let q = new_sequence(mode, s);
    assert(children(q) == s);
    lemma_everywhere_from_children(q);
}

/// A leaf (a node without children) that uses no conditional has none anywhere.
pub proof fn lemma_everywhere_leaf(m: NodeSpec)
    requires
        children(m).len() == 0,
        uses_no_conditional(m),
    ensures
        conditionals_extracted_everywhere(m),
{
    lemma_everywhere_from_children(m);
}

/// After the pass, no node of a tree uses a conditional directly as a value.
pub proof fn lemma_extracted_everywhere(n: NodeSpec, c: nat, fuel: nat)
    requires
        conditionals_extracted(n, c, fuel) is Some,
    ensures
        conditionals_extracted_everywhere(conditionals_extracted(n, c, fuel).unwrap().0),
    decreases fuel, size(n), 0nat,
{
    lemma_children_smaller(n);
    let cs = children(n);
    let r = conditionals_extracted_seq(cs, c, fuel).unwrap();
    lemma_extracted_seq_everywhere(cs, c, fuel);
    lemma_extracted_seq_len(cs, c, fuel);
    lemma_fits_children(n);
    let m = with_children(n, r.0);
    crate::flatten_definitions::lemma_children_of_with_children(n, r.0);
    lemma_exit_everywhere(m, r.1, fuel);
}

/// [`lemma_extracted_everywhere`] for each tree of a sequence.
pub proof fn lemma_extracted_seq_everywhere(s: Seq<NodeSpec>, c: nat, fuel: nat)
    requires
        conditionals_extracted_seq(s, c, fuel) is Some,
    ensures
        forall|i: int| 0 <= i < conditionals_extracted_seq(s, c, fuel).unwrap().0.len()
            ==> conditionals_extracted_everywhere(
            #[trigger] conditionals_extracted_seq(s, c, fuel).unwrap().0[i],
        ),
    decreases fuel, size_seq(s), 1nat,
{
    if s.len() > 0 {
        lemma_size_seq_element(s, s.len() - 1);
        lemma_extracted_seq_everywhere(s.drop_last(), c, fuel);
        let r = conditionals_extracted_seq(s.drop_last(), c, fuel).unwrap();
        lemma_extracted_everywhere(s.last(), r.1, fuel);
    }
}

/// Assigning the branches of a conditional in which no node uses a conditional directly
/// gives a conditional in which none does either.
pub proof fn lemma_branches_everywhere(
    cnd: NodeSpec,
    lhs: NodeSpec,
    by_reference: bool,
    c: nat,
    fuel: nat,
)
    requires
        conditionals_extracted_everywhere(cnd),
        branches_assigned(cnd, lhs, by_reference, c, fuel) is Some,
    ensures
        conditionals_extracted_everywhere(branches_assigned(cnd, lhs, by_reference, c, fuel).unwrap().0),
    decreases fuel, 0nat, 0nat,
{
    let then_assignment = branch_assignment(lhs, *cnd->Conditional_then_branch, by_reference);
    let else_assignment = branch_assignment(lhs, *cnd->Conditional_else_branch, by_reference);
    lemma_extracted_everywhere(then_assignment, c, (fuel - 1) as nat);
    let t = conditionals_extracted(then_assignment, c, (fuel - 1) as nat).unwrap();
    lemma_extracted_everywhere(else_assignment, t.1, (fuel - 1) as nat);
    let r = branches_assigned(cnd, lhs, by_reference, c, fuel).unwrap().0;
    lemma_everywhere_children(cnd);
    assert(children(r)[0] == children(cnd)[0]);
    lemma_everywhere_from_children(r);
}

/// Binding operands to temporaries gives variables and bindings in which no node uses a
/// conditional directly.
pub proof fn lemma_bound_everywhere(ops: Seq<NodeSpec>, c: nat, fuel: nat)
    requires
        operands_bound(ops, c, fuel) is Some,
    ensures
        operands_bound(ops, c, fuel).unwrap().0.len() == ops.len(),
        forall|i: int| 0 <= i < ops.len() ==> (#[trigger] operands_bound(ops, c, fuel).unwrap().0[i]) is Variable,
        forall|i: int| 0 <= i < operands_bound(ops, c, fuel).unwrap().1.len()
            ==> conditionals_extracted_everywhere(#[trigger] operands_bound(ops, c, fuel).unwrap().1[i]),
    decreases fuel, 0nat, ops.len(),
{
    if ops.len() > 0 {
        lemma_bound_everywhere(ops.drop_last(), c, fuel);
        let prev = operands_bound(ops.drop_last(), c, fuel).unwrap();
        let r = operands_bound(ops, c, fuel).unwrap();
        let name = temp_name(conditional_prefix(), next_count(prev.2));
        let binding = NodeSpec::Binding { name, binding: Box::new(ops.last()) };
        lemma_extracted_everywhere(binding, next_count(prev.2), (fuel - 1) as nat);
        assert forall|i: int| 0 <= i < ops.len() implies (#[trigger] r.0[i]) is Variable by {
            if i < ops.len() - 1 {
                assert(r.0[i] == prev.0[i]);
            }
        }
        assert forall|i: int| 0 <= i < r.1.len() implies conditionals_extracted_everywhere(
            #[trigger] r.1[i],
        ) by {
            if i < prev.1.len() {
                assert(r.1[i] == prev.1[i]);
            }
        }
    }
}

/// Lifting conditional operands, in which no node uses a conditional directly, gives
/// operands that are not conditionals and temporaries, all with no such node.
pub proof fn lemma_operands_lifted_everywhere(ops: Seq<NodeSpec>, c: nat, fuel: nat)
    requires
        forall|i: int| 0 <= i < ops.len() ==> conditionals_extracted_everywhere(#[trigger] ops[i]),
        conditional_operands_lifted(ops, c, fuel) is Some,
    ensures
        conditional_operands_lifted(ops, c, fuel).unwrap().0.len() == ops.len(),
        forall|i: int| 0 <= i < ops.len() ==> !(#[trigger] conditional_operands_lifted(ops, c, fuel).unwrap().0[i] is Conditional),
        forall|i: int| 0 <= i < ops.len() ==> conditionals_extracted_everywhere(
            #[trigger] conditional_operands_lifted(ops, c, fuel).unwrap().0[i],
        ),
        forall|i: int| 0 <= i < conditional_operands_lifted(ops, c, fuel).unwrap().1.len()
            ==> conditionals_extracted_everywhere(
            #[trigger] conditional_operands_lifted(ops, c, fuel).unwrap().1[i],
        ),
    decreases fuel, 0nat, ops.len(),
{
    if ops.len() > 0 {
        assert forall|i: int| 0 <= i < ops.len() - 1 implies conditionals_extracted_everywhere(
            #[trigger] ops.drop_last()[i],
        ) by {
            assert(ops.drop_last()[i] == ops[i]);
        }
        lemma_operands_lifted_everywhere(ops.drop_last(), c, fuel);
        let prev = conditional_operands_lifted(ops.drop_last(), c, fuel).unwrap();
        let r = conditional_operands_lifted(ops, c, fuel).unwrap();
        let x = ops.last();
        assert(conditionals_extracted_everywhere(x));
        if x is Conditional {
            let name = temp_name(conditional_prefix(), next_count(prev.2));
            let variable = typed_variable(name, node_type(x));
            lemma_branches_everywhere(x, variable, false, next_count(prev.2), fuel);
            lemma_everywhere_leaf(variable);
            let declaration = empty_binding(name, node_type(x));
            let nothing = NodeSpec::Nothing { typ: node_type(x) };
            lemma_everywhere_leaf(nothing);
            assert(children(declaration) == seq![nothing]);
            lemma_everywhere_from_children(declaration);
            assert forall|i: int| 0 <= i < r.1.len() implies conditionals_extracted_everywhere(
                #[trigger] r.1[i],
            ) by {
                if i < prev.1.len() {
                    assert(r.1[i] == prev.1[i]);
                }
            }
        }
        assert forall|i: int| 0 <= i < ops.len() implies !(#[trigger] r.0[i] is Conditional)
            && conditionals_extracted_everywhere(r.0[i]) by {
            if i < ops.len() - 1 {
                assert(r.0[i] == prev.0[i]);
            }
        }
    }
}

/// A declaration of a temporary has no node that uses a conditional directly.
pub proof fn lemma_empty_binding_everywhere(name: Seq<char>, typ: TypeSpec)
    ensures
        conditionals_extracted_everywhere(empty_binding(name, typ)),
{
    let nothing = NodeSpec::Nothing { typ };
    lemma_everywhere_leaf(nothing);
    assert(children(empty_binding(name, typ)) == seq![nothing]);
    lemma_everywhere_from_children(empty_binding(name, typ));
}

/// A call through a conditional operator in which no node uses a conditional directly gives
/// a tree with no such node.
pub proof fn lemma_call_everywhere(
    cnd: NodeSpec,
    operands: Seq<NodeSpec>,
    typ: TypeSpec,
    c: nat,
    fuel: nat,
)
    requires
        conditionals_extracted_everywhere(cnd),
        conditional_call(cnd, operands, typ, c, fuel) is Some,
    ensures
        conditionals_extracted_everywhere(conditional_call(cnd, operands, typ, c, fuel).unwrap().0),
    decreases fuel, 0nat, operands.len() + 1,
{
    lemma_bound_everywhere(operands, c, fuel);
    let bound = operands_bound(operands, c, fuel).unwrap();
    lemma_everywhere_children(cnd);
    let condition = *cnd->Conditional_condition;
    let then_branch = *cnd->Conditional_then_branch;
    let else_branch = *cnd->Conditional_else_branch;
    assert(children(cnd) == seq![condition, then_branch, else_branch]);
    assert(conditionals_extracted_everywhere(condition)) by {
        assert(children(cnd)[0] == condition);
    }
    assert(conditionals_extracted_everywhere(then_branch)) by {
        assert(children(cnd)[1] == then_branch);
    }
    assert(conditionals_extracted_everywhere(else_branch)) by {
        assert(children(cnd)[2] == else_branch);
    }
    let condition_name = temp_name(conditional_prefix(), next_count(bound.2));
    let result_name = temp_name(conditional_prefix(), next_count(next_count(bound.2)));
    let result = typed_variable(result_name, typ);
    lemma_everywhere_leaf(result);
    assert forall|i: int| 0 <= i < bound.0.len() implies conditionals_extracted_everywhere(
        #[trigger] bound.0[i],
    ) by {
        lemma_everywhere_leaf(bound.0[i]);
    }
    let then_call_value = NodeSpec::Call {
        operator: Box::new(then_branch),
        operands: bound.0,
        typ: TypeSpec::Unknown,
    };
    let else_call_value = NodeSpec::Call {
        operator: Box::new(else_branch),
        operands: bound.0,
        typ: TypeSpec::Unknown,
    };
    assert(children(then_call_value) == seq![then_branch] + bound.0);
    assert(children(else_call_value) == seq![else_branch] + bound.0);
    assert forall|i: int| 0 <= i < children(then_call_value).len() implies conditionals_extracted_everywhere(
        #[trigger] children(then_call_value)[i],
    ) by {
        if i > 0 {
            assert(children(then_call_value)[i] == bound.0[i - 1]);
        }
    }
    assert forall|i: int| 0 <= i < children(else_call_value).len() implies conditionals_extracted_everywhere(
        #[trigger] children(else_call_value)[i],
    ) by {
        if i > 0 {
            assert(children(else_call_value)[i] == bound.0[i - 1]);
        }
    }
    lemma_everywhere_from_children(then_call_value);
    lemma_everywhere_from_children(else_call_value);
    let then_call = NodeSpec::Assign { lhs: Box::new(result), rhs: Box::new(then_call_value) };
    let else_call = NodeSpec::Assign { lhs: Box::new(result), rhs: Box::new(else_call_value) };
    assert(children(then_call) == seq![result, then_call_value]);
    assert(children(else_call) == seq![result, else_call_value]);
    lemma_everywhere_from_children(then_call);
    lemma_everywhere_from_children(else_call);
    let condition_variable = typed_variable(condition_name, node_type(condition));
    lemma_everywhere_leaf(condition_variable);
    let new_conditional = NodeSpec::Conditional {
        condition: Box::new(condition_variable),
        then_branch: Box::new(then_call),
        else_branch: Box::new(else_call),
        typ: TypeSpec::Unknown,
    };
    assert(children(new_conditional) == seq![condition_variable, then_call, else_call]);
    lemma_everywhere_from_children(new_conditional);
    let bind_condition = NodeSpec::Binding { name: condition_name, binding: Box::new(condition) };
    assert(children(bind_condition) == seq![condition]);
    lemma_everywhere_from_children(bind_condition);
    lemma_empty_binding_everywhere(result_name, typ);
    let s = seq![bind_condition] + bound.1 + seq![empty_binding(result_name, typ), new_conditional, result];
    assert forall|i: int| 0 <= i < s.len() implies conditionals_extracted_everywhere(#[trigger] s[i]) by {
        if 1 <= i < 1 + bound.1.len() {
            assert(s[i] == bound.1[i - 1]);
        }
    }
    lemma_everywhere_new_sequence(SequenceMode::Scope, s);
}

/// An assignment with a conditional side, both sides having no node that uses a conditional
/// directly, gives a tree with no such node.
pub proof fn lemma_assignment_everywhere(lhs: NodeSpec, rhs: NodeSpec, c: nat, fuel: nat)
    requires
        conditionals_extracted_everywhere(lhs),
        conditionals_extracted_everywhere(rhs),
        conditional_assignment(lhs, rhs, c, fuel) is Some,
    ensures
        conditionals_extracted_everywhere(conditional_assignment(lhs, rhs, c, fuel).unwrap().0),
    decreases fuel, 0nat, 1nat,
{
    let name = temp_name(conditional_prefix(), next_count(c));
    let temp_type = reference_type(node_type(lhs));
    let temp = typed_variable(name, temp_type);
    lemma_everywhere_leaf(temp);
    let deref_temp = dereference(temp);
    assert(children(deref_temp) == seq![temp]);
    lemma_everywhere_from_children(deref_temp);
    lemma_empty_binding_everywhere(name, temp_type);
    if lhs is Conditional && rhs is Conditional {
        lemma_branches_everywhere(lhs, temp, true, next_count(c), fuel);
        let l = branches_assigned(lhs, temp, true, next_count(c), fuel).unwrap();
        lemma_branches_everywhere(rhs, deref_temp, false, l.1, fuel);
        let r = branches_assigned(rhs, deref_temp, false, l.1, fuel).unwrap();
        let s = seq![empty_binding(name, temp_type), l.0, r.0];
        assert forall|i: int| 0 <= i < s.len() implies conditionals_extracted_everywhere(#[trigger] s[i]) by {}
        lemma_everywhere_new_sequence(SequenceMode::Scope, s);
    } else if lhs is Conditional {
        lemma_branches_everywhere(lhs, temp, true, next_count(c), fuel);
        let l = branches_assigned(lhs, temp, true, next_count(c), fuel).unwrap();
        let using = NodeSpec::Assign { lhs: Box::new(deref_temp), rhs: Box::new(rhs) };
        assert(children(using) == seq![deref_temp, rhs]);
        lemma_everywhere_from_children(using);
        let s = seq![empty_binding(name, temp_type), l.0, using];
        assert forall|i: int| 0 <= i < s.len() implies conditionals_extracted_everywhere(#[trigger] s[i]) by {}
        lemma_everywhere_new_sequence(SequenceMode::Scope, s);
    } else {
        lemma_branches_everywhere(rhs, deref_temp, false, next_count(c), fuel);
        let r = branches_assigned(rhs, deref_temp, false, next_count(c), fuel).unwrap();
        let reference = mutable_reference(lhs);
        assert(children(reference) == seq![lhs]);
        lemma_everywhere_from_children(reference);
        let bind_temp = NodeSpec::Binding { name, binding: Box::new(reference) };
        assert(children(bind_temp) == seq![reference]);
        lemma_everywhere_from_children(bind_temp);
        let s = seq![bind_temp, r.0];
        assert forall|i: int| 0 <= i < s.len() implies conditionals_extracted_everywhere(#[trigger] s[i]) by {}
        lemma_everywhere_new_sequence(SequenceMode::Scope, s);
    }
}

/// A sequence whose final conditional is lifted, its nodes having no node that uses a
/// conditional directly, gives a tree with no such node.
pub proof fn lemma_final_everywhere(
    mode: SequenceMode,
    nodes: Seq<NodeSpec>,
    typ: TypeSpec,
    c: nat,
    fuel: nat,
)
    requires
        nodes.len() > 0,
        forall|i: int| 0 <= i < nodes.len() ==> conditionals_extracted_everywhere(#[trigger] nodes[i]),
        final_conditional_lifted(mode, nodes, typ, c, fuel) is Some,
    ensures
        conditionals_extracted_everywhere(final_conditional_lifted(mode, nodes, typ, c, fuel).unwrap().0),
    decreases fuel, 0nat, 1nat,
{
    let t = nodes.last();
    let name = temp_name(conditional_prefix(), next_count(c));
    let variable = typed_variable(name, node_type(t));
    assert(conditionals_extracted_everywhere(nodes[nodes.len() - 1]));
    lemma_branches_everywhere(t, variable, false, next_count(c), fuel);
    let a = branches_assigned(t, variable, false, next_count(c), fuel).unwrap();
    let new_nodes = nodes.drop_last().push(a.0);
    let using = NodeSpec::Sequence { mode, nodes: new_nodes, typ };
    assert(children(using) == new_nodes);
    assert forall|i: int| 0 <= i < new_nodes.len() implies conditionals_extracted_everywhere(
        #[trigger] new_nodes[i],
    ) by {
        if i < new_nodes.len() - 1 {
            assert(new_nodes[i] == nodes[i]);
        }
    }
    lemma_everywhere_from_children(using);
    lemma_everywhere_leaf(variable);
    lemma_empty_binding_everywhere(name, node_type(t));
    let s = seq![empty_binding(name, node_type(t)), using, variable];
    assert forall|i: int| 0 <= i < s.len() implies conditionals_extracted_everywhere(#[trigger] s[i]) by {}
    lemma_everywhere_new_sequence(SequenceMode::Transparent, s);
}

/// Lifting the conditional target of a node, whose children have no node that uses a
/// conditional directly, gives a tree with no such node.
pub proof fn lemma_lifted_everywhere(m: NodeSpec, c: nat, fuel: nat)
    requires
        lifted_target(m),
        forall|i: int| 0 <= i < children(m).len() ==> conditionals_extracted_everywhere(
            #[trigger] children(m)[i],
        ),
        conditional_lifted(m, 0, c, fuel) is Some,
    ensures
        conditionals_extracted_everywhere(conditional_lifted(m, 0, c, fuel).unwrap().0),
    decreases fuel, 0nat, 1nat,
{
    let t = children(m)[0];
    let name = temp_name(conditional_prefix(), next_count(c));
    let variable = typed_variable(name, node_type(t));
    lemma_branches_everywhere(t, variable, false, next_count(c), fuel);
    let a = branches_assigned(t, variable, false, next_count(c), fuel).unwrap();
    lemma_everywhere_leaf(variable);
    let new_children = children(m).update(0, variable);
    lemma_fits_children(m);
    crate::flatten_definitions::lemma_children_of_with_children(m, new_children);
    let using = with_children(m, new_children);
    assert(children(using)[0] == variable);
    assert forall|i: int| 0 <= i < children(using).len() implies conditionals_extracted_everywhere(
        #[trigger] children(using)[i],
    ) by {
        if i != 0 {
            assert(children(using)[i] == children(m)[i]);
        }
    }
    lemma_everywhere_from_children(using);
    lemma_empty_binding_everywhere(name, node_type(t));
    let s = seq![empty_binding(name, node_type(t)), a.0, using];
    assert forall|i: int| 0 <= i < s.len() implies conditionals_extracted_everywhere(#[trigger] s[i]) by {}
    lemma_everywhere_new_sequence(SequenceMode::Transparent, s);
}

/// The exit step on a node whose children have no node that uses a conditional directly
/// gives a tree with no such node.
pub proof fn lemma_exit_everywhere(m: NodeSpec, c: nat, fuel: nat)
    requires
        forall|i: int| 0 <= i < children(m).len() ==> conditionals_extracted_everywhere(
            #[trigger] children(m)[i],
        ),
        conditional_exit(m, c, fuel) is Some,
    ensures
        conditionals_extracted_everywhere(conditional_exit(m, c, fuel).unwrap().0),
    decreases fuel, 0nat, children(m).len() + 3,
{
    match m {
        NodeSpec::Call { operator, operands, typ } => {
            assert(children(m) == seq![*operator] + operands);
            assert forall|i: int| 0 <= i < operands.len() implies conditionals_extracted_everywhere(
                #[trigger] operands[i],
            ) by {
                assert(children(m)[i + 1] == operands[i]);
            }
            assert(conditionals_extracted_everywhere(*operator)) by {
                assert(children(m)[0] == *operator);
            }
            if *operator is Conditional {
                lemma_call_everywhere(*operator, operands, typ, c, fuel);
            } else {
                lemma_operands_lifted_everywhere(operands, c, fuel);
                let lo = conditional_operands_lifted(operands, c, fuel).unwrap();
                let call = NodeSpec::Call { operator, operands: lo.0, typ };
                assert(children(call) == seq![*operator] + lo.0);
                assert forall|i: int| 0 <= i < children(call).len() implies conditionals_extracted_everywhere(
                    #[trigger] children(call)[i],
                ) by {
                    if i > 0 {
                        assert(children(call)[i] == lo.0[i - 1]);
                    }
                }
                lemma_everywhere_from_children(call);
                if lo.1.len() > 0 {
                    let s = lo.1.push(call);
                    assert forall|i: int| 0 <= i < s.len() implies conditionals_extracted_everywhere(
                        #[trigger] s[i],
                    ) by {
                        if i < s.len() - 1 {
                            assert(s[i] == lo.1[i]);
                        }
                    }
                    lemma_everywhere_new_sequence(SequenceMode::Scope, s);
                }
            }
        },
        NodeSpec::Assign { lhs, rhs } => {
            assert(children(m) == seq![*lhs, *rhs]);
            assert(conditionals_extracted_everywhere(*lhs)) by {
                assert(children(m)[0] == *lhs);
            }
            assert(conditionals_extracted_everywhere(*rhs)) by {
                assert(children(m)[1] == *rhs);
            }
            if *lhs is Conditional || *rhs is Conditional {
                lemma_assignment_everywhere(*lhs, *rhs, c, fuel);
            } else {
                lemma_everywhere_from_children(m);
            }
        },
        NodeSpec::Sequence { mode, nodes, typ } => {
            if nodes.len() > 0 && nodes.last() is Conditional && typ != TypeSpec::Void {
                lemma_final_everywhere(mode, nodes, typ, c, fuel);
            } else {
                lemma_everywhere_from_children(m);
            }
        },
        _ => {
            if lifted_target(m) && children(m)[0] is Conditional {
                lemma_lifted_everywhere(m, c, fuel);
            } else {
                lemma_everywhere_from_children(m);
            }
        },
    }
}

/// After the pass, no node below the root uses a conditional directly as a value: no
/// operand, target, bound value, side of an assignment or condition is a conditional.
pub proof fn lemma_pass_extracts_everywhere(root: NodeSpec)
    requires
        pass_applies(root),
    ensures
        forall|i: int| 0 <= i < children(pass_result(root)).len()
            ==> conditionals_extracted_everywhere(#[trigger] children(pass_result(root))[i]),
{
    let fuel = pass_fuel(root);
    let cs = children(root);
    lemma_extracted_seq_everywhere(cs, 0, fuel);
    lemma_extracted_seq_len(cs, 0, fuel);
    lemma_fits_children(root);
    crate::flatten_definitions::lemma_children_of_with_children(
        root,
        conditionals_extracted_seq(cs, 0, fuel).unwrap().0,
    );
}

/// A larger depth bound gives the same result wherever a smaller one gives one: the result of
/// the pass does not depend on the bound chosen.
pub proof fn lemma_extracted_fuel(n: NodeSpec, c: nat, fuel: nat, more: nat)
    requires
        conditionals_extracted(n, c, fuel) is Some,
        fuel <= more,
    ensures
        conditionals_extracted(n, c, more) == conditionals_extracted(n, c, fuel),
    decreases fuel, size(n), 0nat,
{
    lemma_children_smaller(n);
    let cs = children(n);
    lemma_extracted_seq_fuel(cs, c, fuel, more);
    lemma_extracted_seq_len(cs, c, fuel);
    let r = conditionals_extracted_seq(cs, c, fuel).unwrap();
    lemma_fits_children(n);
    crate::flatten_definitions::lemma_children_of_with_children(n, r.0);
    lemma_exit_fuel(with_children(n, r.0), r.1, fuel, more);
}

/// [`lemma_extracted_fuel`] for sequences of trees.
pub proof fn lemma_extracted_seq_fuel(s: Seq<NodeSpec>, c: nat, fuel: nat, more: nat)
    requires
        conditionals_extracted_seq(s, c, fuel) is Some,
        fuel <= more,
    ensures
        conditionals_extracted_seq(s, c, more) == conditionals_extracted_seq(s, c, fuel),
    decreases fuel, size_seq(s), 1nat,
{
    if s.len() > 0 {
        lemma_size_seq_element(s, s.len() - 1);
        lemma_extracted_seq_fuel(s.drop_last(), c, fuel, more);
        let r = conditionals_extracted_seq(s.drop_last(), c, fuel).unwrap();
        lemma_extracted_fuel(s.last(), r.1, fuel, more);
    }
}

/// [`lemma_extracted_fuel`] for the assignment of branches.
pub proof fn lemma_branches_fuel(
    cnd: NodeSpec,
    lhs: NodeSpec,
    by_reference: bool,
    c: nat,
    fuel: nat,
    more: nat,
)
    requires
        branches_assigned(cnd, lhs, by_reference, c, fuel) is Some,
        fuel <= more,
    ensures
        branches_assigned(cnd, lhs, by_reference, c, more) == branches_assigned(
            cnd,
            lhs,
            by_reference,
            c,
            fuel,
        ),
    decreases fuel, 0nat, 0nat,
{
    let then_assignment = branch_assignment(lhs, *cnd->Conditional_then_branch, by_reference);
    let else_assignment = branch_assignment(lhs, *cnd->Conditional_else_branch, by_reference);
    lemma_extracted_fuel(then_assignment, c, (fuel - 1) as nat, (more - 1) as nat);
    let t = conditionals_extracted(then_assignment, c, (fuel - 1) as nat).unwrap();
    lemma_extracted_fuel(else_assignment, t.1, (fuel - 1) as nat, (more - 1) as nat);
}

/// [`lemma_extracted_fuel`] for the binding of operands.
pub proof fn lemma_bound_fuel(ops: Seq<NodeSpec>, c: nat, fuel: nat, more: nat)
    requires
        operands_bound(ops, c, fuel) is Some,
        fuel <= more,
    ensures
        operands_bound(ops, c, more) == operands_bound(ops, c, fuel),
    decreases fuel, 0nat, ops.len(),
{
    if ops.len() > 0 {
        lemma_bound_fuel(ops.drop_last(), c, fuel, more);
        let prev = operands_bound(ops.drop_last(), c, fuel).unwrap();
        let name = temp_name(conditional_prefix(), next_count(prev.2));
        let binding = NodeSpec::Binding { name, binding: Box::new(ops.last()) };
        lemma_extracted_fuel(binding, next_count(prev.2), (fuel - 1) as nat, (more - 1) as nat);
    }
}

/// [`lemma_extracted_fuel`] for the lifting of conditional operands.
pub proof fn lemma_operands_lifted_fuel(ops: Seq<NodeSpec>, c: nat, fuel: nat, more: nat)
    requires
        conditional_operands_lifted(ops, c, fuel) is Some,
        fuel <= more,
    ensures
        conditional_operands_lifted(ops, c, more) == conditional_operands_lifted(ops, c, fuel),
    decreases fuel, 0nat, ops.len(),
{
    if ops.len() > 0 {
        lemma_operands_lifted_fuel(ops.drop_last(), c, fuel, more);
        let prev = conditional_operands_lifted(ops.drop_last(), c, fuel).unwrap();
        let x = ops.last();
        if x is Conditional {
            let name = temp_name(conditional_prefix(), next_count(prev.2));
            lemma_branches_fuel(x, typed_variable(name, node_type(x)), false, next_count(prev.2), fuel, more);
        }
    }
}

/// [`lemma_extracted_fuel`] for a call through a conditional operator.
pub proof fn lemma_call_fuel(
    cnd: NodeSpec,
    operands: Seq<NodeSpec>,
    typ: TypeSpec,
    c: nat,
    fuel: nat,
    more: nat,
)
    requires
        conditional_call(cnd, operands, typ, c, fuel) is Some,
        fuel <= more,
    ensures
        conditional_call(cnd, operands, typ, c, more) == conditional_call(cnd, operands, typ, c, fuel),
    decreases fuel, 0nat, operands.len() + 1,
{
    lemma_bound_fuel(operands, c, fuel, more);
}

/// [`lemma_extracted_fuel`] for an assignment with a conditional side.
pub proof fn lemma_assignment_fuel(lhs: NodeSpec, rhs: NodeSpec, c: nat, fuel: nat, more: nat)
    requires
        conditional_assignment(lhs, rhs, c, fuel) is Some,
        fuel <= more,
    ensures
        conditional_assignment(lhs, rhs, c, more) == conditional_assignment(lhs, rhs, c, fuel),
    decreases fuel, 0nat, 1nat,
{
    let name = temp_name(conditional_prefix(), next_count(c));
    let temp = typed_variable(name, reference_type(node_type(lhs)));
    if lhs is Conditional && rhs is Conditional {
        lemma_branches_fuel(lhs, temp, true, next_count(c), fuel, more);
        let l = branches_assigned(lhs, temp, true, next_count(c), fuel).unwrap();
        lemma_branches_fuel(rhs, dereference(temp), false, l.1, fuel, more);
    } else if lhs is Conditional {
        lemma_branches_fuel(lhs, temp, true, next_count(c), fuel, more);
    } else {
        lemma_branches_fuel(rhs, dereference(temp), false, next_count(c), fuel, more);
    }
}

/// [`lemma_extracted_fuel`] for a sequence whose final conditional is lifted.
pub proof fn lemma_final_fuel(
    mode: SequenceMode,
    nodes: Seq<NodeSpec>,
    typ: TypeSpec,
    c: nat,
    fuel: nat,
    more: nat,
)
    requires
        final_conditional_lifted(mode, nodes, typ, c, fuel) is Some,
        fuel <= more,
    ensures
        final_conditional_lifted(mode, nodes, typ, c, more) == final_conditional_lifted(
            mode,
            nodes,
            typ,
            c,
            fuel,
        ),
    decreases fuel, 0nat, 1nat,
{
    let t = nodes.last();
    let name = temp_name(conditional_prefix(), next_count(c));
    lemma_branches_fuel(t, typed_variable(name, node_type(t)), false, next_count(c), fuel, more);
}

/// [`lemma_extracted_fuel`] for the lifting of a conditional target.
pub proof fn lemma_lifted_fuel(m: NodeSpec, k: int, c: nat, fuel: nat, more: nat)
    requires
        conditional_lifted(m, k, c, fuel) is Some,
        fuel <= more,
    ensures
        conditional_lifted(m, k, c, more) == conditional_lifted(m, k, c, fuel),
    decreases fuel, 0nat, 1nat,
{
    let t = children(m)[k];
    let name = temp_name(conditional_prefix(), next_count(c));
    lemma_branches_fuel(t, typed_variable(name, node_type(t)), false, next_count(c), fuel, more);
}

/// [`lemma_extracted_fuel`] for the exit step.
pub proof fn lemma_exit_fuel(m: NodeSpec, c: nat, fuel: nat, more: nat)
    requires
        conditional_exit(m, c, fuel) is Some,
        fuel <= more,
    ensures
        conditional_exit(m, c, more) == conditional_exit(m, c, fuel),
    decreases fuel, 0nat, children(m).len() + 3,
{
    match m {
        NodeSpec::Call { operator, operands, typ } => {
            if *operator is Conditional {
                lemma_call_fuel(*operator, operands, typ, c, fuel, more);
            } else {
                lemma_operands_lifted_fuel(operands, c, fuel, more);
            }
        },
        NodeSpec::Assign { lhs, rhs } => {
            if *lhs is Conditional || *rhs is Conditional {
                lemma_assignment_fuel(*lhs, *rhs, c, fuel, more);
            }
        },
        NodeSpec::Sequence { mode, nodes, typ } => {
            if nodes.len() > 0 && nodes.last() is Conditional && typ != TypeSpec::Void {
                lemma_final_fuel(mode, nodes, typ, c, fuel, more);
            }
        },
        NodeSpec::Conditional { .. } => {},
        _ => {
            if lifted_target(m) && children(m)[0] is Conditional {
                lemma_lifted_fuel(m, 0, c, fuel, more);
            }
        },
    }
}

/// Whether no node of a tree is a conditional.
pub open spec fn no_conditionals(n: NodeSpec) -> bool {
    tree_all(n, |m: NodeSpec| !(m is Conditional))
}

/// A tree without conditionals is left as it is, with any depth bound, and draws no name.
pub proof fn lemma_no_conditionals_unchanged(n: NodeSpec, c: nat, fuel: nat)
    requires
        no_conditionals(n),
    ensures
        conditionals_extracted(n, c, fuel) == Some((n, c)),
    decreases size(n), 0nat,
{
    lemma_children_smaller(n);
    lemma_tree_all_children(n, |m: NodeSpec| !(m is Conditional));
    let cs = children(n);
    lemma_no_conditionals_seq_unchanged(cs, c, fuel);
    lemma_with_own_children(n);
    assert forall|i: int| 0 <= i < cs.len() implies !(#[trigger] cs[i] is Conditional) by {
        lemma_tree_all_children(cs[i], |m: NodeSpec| !(m is Conditional));
    }
    match n {
        NodeSpec::Call { operator, operands, .. } => {
            assert(children(n) == seq![*operator] + operands);
            assert forall|i: int| 0 <= i < operands.len() implies !(#[trigger] operands[i] is Conditional) by {
                assert(cs[i + 1] == operands[i]);
            }
            assert(cs[0] == *operator);
            lemma_no_conditional_operands(operands, c, fuel);
        },
        NodeSpec::Assign { lhs, rhs } => {
            assert(cs[0] == *lhs);
            assert(cs[1] == *rhs);
        },
        NodeSpec::Sequence { nodes, .. } => {
            if nodes.len() > 0 {
                assert(cs[nodes.len() - 1] == nodes.last());
            }
        },
        _ => {},
    }
}

/// [`lemma_no_conditionals_unchanged`] for sequences of trees.
pub proof fn lemma_no_conditionals_seq_unchanged(s: Seq<NodeSpec>, c: nat, fuel: nat)
    requires
        forall|i: int| 0 <= i < s.len() ==> no_conditionals(#[trigger] s[i]),
    ensures
        conditionals_extracted_seq(s, c, fuel) == Some((s, c)),
    decreases size_seq(s), 1nat,
{
    if s.len() > 0 {
        lemma_size_seq_element(s, s.len() - 1);
        assert forall|i: int| 0 <= i < s.len() - 1 implies no_conditionals(#[trigger] s.drop_last()[i]) by {
            assert(s.drop_last()[i] == s[i]);
        }
        lemma_no_conditionals_seq_unchanged(s.drop_last(), c, fuel);
        assert(no_conditionals(s[s.len() - 1]));
        lemma_no_conditionals_unchanged(s.last(), c, fuel);
        assert(s.drop_last().push(s.last()) =~= s);
    }
}

/// Operands none of which is a conditional are kept, with no temporary.
pub proof fn lemma_no_conditional_operands(ops: Seq<NodeSpec>, c: nat, fuel: nat)
    requires
        forall|i: int| 0 <= i < ops.len() ==> !(#[trigger] ops[i] is Conditional),
    ensures
        conditional_operands_lifted(ops, c, fuel) == Some((ops, Seq::<NodeSpec>::empty(), c)),
    decreases ops.len(),
{
    if ops.len() > 0 {
        assert forall|i: int| 0 <= i < ops.len() - 1 implies !(#[trigger] ops.drop_last()[i] is Conditional) by {
            assert(ops.drop_last()[i] == ops[i]);
        }
        lemma_no_conditional_operands(ops.drop_last(), c, fuel);
        assert(!(ops[ops.len() - 1] is Conditional));
        assert(ops.drop_last().push(ops.last()) =~= ops);
    }
}

/// The pass applies to a program in which no node below the root is a conditional, and
/// leaves it as it is.
pub proof fn lemma_pass_keeps_conditional_free(root: NodeSpec)
    requires
        forall|i: int| 0 <= i < children(root).len() ==> no_conditionals(#[trigger] children(root)[i]),
    ensures
        pass_applies(root),
        pass_result(root) == root,
{
    let cs = children(root);
    lemma_no_conditionals_seq_unchanged(cs, 0, 0);
    assert(conditionals_extracted_seq(cs, 0, 0) is Some);
    let fuel = pass_fuel(root);
    lemma_no_conditionals_seq_unchanged(cs, 0, fuel);
    lemma_with_own_children(root);
}

/// Whether nothing is extracted at a node: no value it uses directly is a conditional (see
/// [`uses_no_conditional`]), its operator (for a call) is no conditional, and its final node
/// (for a sequence with a value) is no conditional.
pub open spec fn nothing_to_extract(m: NodeSpec) -> bool {
    &&& uses_no_conditional(m)
    &&& (m matches NodeSpec::Call { operator, .. } ==> !(*operator is Conditional))
    &&& (m matches NodeSpec::Sequence { nodes, typ, .. } ==> (nodes.len() > 0 && typ
        != TypeSpec::Void ==> !(nodes.last() is Conditional)))
}

/// Whether nothing is extracted anywhere in a tree.
pub open spec fn nothing_to_extract_everywhere(n: NodeSpec) -> bool {
    tree_all(n, |m: NodeSpec| nothing_to_extract(m))
}

/// A tree in which nothing is to be extracted is left as it is, with any depth bound, and
/// draws no name.
pub proof fn lemma_nothing_to_extract_unchanged(n: NodeSpec, c: nat, fuel: nat)
    requires
        nothing_to_extract_everywhere(n),
    ensures
        conditionals_extracted(n, c, fuel) == Some((n, c)),
    decreases size(n), 0nat,
{
    lemma_children_smaller(n);
    lemma_tree_all_children(n, |m: NodeSpec| nothing_to_extract(m));
    let cs = children(n);
    lemma_nothing_to_extract_seq_unchanged(cs, c, fuel);
    lemma_with_own_children(n);
    match n {
        NodeSpec::Call { operator, operands, .. } => {
            assert(children(n) == seq![*operator] + operands);
            lemma_no_conditional_operands(operands, c, fuel);
        },
        _ => {},
    }
}

/// [`lemma_nothing_to_extract_unchanged`] for sequences of trees.
pub proof fn lemma_nothing_to_extract_seq_unchanged(s: Seq<NodeSpec>, c: nat, fuel: nat)
    requires
        forall|i: int| 0 <= i < s.len() ==> nothing_to_extract_everywhere(#[trigger] s[i]),
    ensures
        conditionals_extracted_seq(s, c, fuel) == Some((s, c)),
    decreases size_seq(s), 1nat,
{
    if s.len() > 0 {
        lemma_size_seq_element(s, s.len() - 1);
        assert forall|i: int| 0 <= i < s.len() - 1 implies nothing_to_extract_everywhere(
            #[trigger] s.drop_last()[i],
        ) by {
            assert(s.drop_last()[i] == s[i]);
        }
        lemma_nothing_to_extract_seq_unchanged(s.drop_last(), c, fuel);
        assert(nothing_to_extract_everywhere(s[s.len() - 1]));
        lemma_nothing_to_extract_unchanged(s.last(), c, fuel);
        assert(s.drop_last().push(s.last()) =~= s);
    }
}

/// The pass applies to every program in which nothing stands to be extracted below the
/// root (no conditional is used as a value, as a condition, as a called operator, or as the
/// final node of a sequence with a value), and leaves it as it is.
pub proof fn lemma_pass_keeps_extracted_program(root: NodeSpec)
    requires
        forall|i: int| 0 <= i < children(root).len() ==> nothing_to_extract_everywhere(
            #[trigger] children(root)[i],
        ),
    ensures
        pass_applies(root),
        pass_result(root) == root,
{
    let cs = children(root);
    lemma_nothing_to_extract_seq_unchanged(cs, 0, 0);
    assert(conditionals_extracted_seq(cs, 0, 0) is Some);
    let fuel = pass_fuel(root);
    lemma_nothing_to_extract_seq_unchanged(cs, 0, fuel);
    lemma_with_own_children(root);
}

/// A variable of the given type.
fn variable_node(name: &String, typ: &Type) -> (r: Node)
    ensures
        r@ == typed_variable(name@, typ@),
{
    Node::Variable { name: name.clone(), typ: typ.copy() }
}

/// The declaration of a temporary variable, bound to nothing yet.
fn empty_binding_node(name: &String, typ: &Type) -> (r: Node)
    ensures
        r@ == empty_binding(name@, typ@),
{
    let nothing = Node::Nothing { typ: typ.copy() };
    let declared = name.clone();
    assert(declared@ == name@);
    assert(nothing@ == NodeSpec::Nothing { typ: typ@ });
    Node::Binding { name: declared, binding: Box::new(nothing) }
}

/// A mutable reference to `n`, typed after it.
fn mutable_reference_node(n: Node) -> (r: Node)
    ensures
        r@ == mutable_reference(n@),
{
    let t = n.get_type();
    Node::Reference {
        mode: ReferenceMode::Mutable,
        target: Box::new(n),
        typ: Type::Reference(ReferenceMode::Mutable, Box::new(t)),
    }
}

/// Whether a node is a conditional.
fn is_conditional(n: &Node) -> (r: bool)
    ensures
        r == (n@ is Conditional),
{
    match n {
        Node::Conditional { .. } => true,
        _ => false,
    }
}

/// The assignment of a branch to `lhs`, handled again (one level deeper).
fn assign_branch(
    lhs: &Node,
    branch: Node,
    by_reference: bool,
    temp_names: &mut TempNameGenerator,
    Ghost(fuel): Ghost<nat>,
) -> (r: Node)
    requires
        old(temp_names).prefix() == conditional_prefix(),
        fuel > 0,
        conditionals_extracted(
            branch_assignment(lhs@, branch@, by_reference),
            old(temp_names).count(),
            (fuel - 1) as nat,
        ) is Some,
    ensures
        final(temp_names).prefix() == conditional_prefix(),
        (r@, final(temp_names).count()) == conditionals_extracted(
            branch_assignment(lhs@, branch@, by_reference),
            old(temp_names).count(),
            (fuel - 1) as nat,
        ).unwrap(),
    decreases fuel, 0nat, 0nat, 1nat,
{
    let value = if by_reference {
        mutable_reference_node(branch)
    } else {
        branch
    };
    let assignment = Node::Assign { lhs: Box::new(copy_node(lhs)), rhs: Box::new(value) };
    extract_conditionals(assignment, temp_names, Ghost((fuel - 1) as nat))
}

/// The conditional `cnd` with each branch turned into its assignment to `lhs`.
fn assign_branches(
    cnd: Node,
    lhs: &Node,
    by_reference: bool,
    temp_names: &mut TempNameGenerator,
    Ghost(fuel): Ghost<nat>,
) -> (r: Node)
    requires
        old(temp_names).prefix() == conditional_prefix(),
        branches_assigned(cnd@, lhs@, by_reference, old(temp_names).count(), fuel) is Some,
    ensures
        final(temp_names).prefix() == conditional_prefix(),
        (r@, final(temp_names).count()) == branches_assigned(
            cnd@,
            lhs@,
            by_reference,
            old(temp_names).count(),
            fuel,
        ).unwrap(),
    decreases fuel, 0nat, 0nat, 2nat,
{
    match cnd {
        Node::Conditional { condition, then_branch, else_branch, typ } => {
            // Convert then into an assignment (the RHS could be a conditional)
            let t = assign_branch(lhs, *then_branch, by_reference, temp_names, Ghost(fuel));
            // Convert else into an assignment (the RHS could be a conditional)
            let e = assign_branch(lhs, *else_branch, by_reference, temp_names, Ghost(fuel));
            Node::Conditional { condition, then_branch: Box::new(t), else_branch: Box::new(e), typ }
        },
        other => other,
    }
}

/// The tree `node` after the pass: its children first, then the node itself.
fn extract_conditionals(
    node: Node,
    temp_names: &mut TempNameGenerator,
    Ghost(fuel): Ghost<nat>,
) -> (r: Node)
    requires
        old(temp_names).prefix() == conditional_prefix(),
        conditionals_extracted(node@, old(temp_names).count(), fuel) is Some,
    ensures
        final(temp_names).prefix() == conditional_prefix(),
        (r@, final(temp_names).count()) == conditionals_extracted(
            node@,
            old(temp_names).count(),
            fuel,
        ).unwrap(),
    decreases fuel, size(node@), 0nat, 0nat,
{
    let ghost n = node@;
    let ghost c0 = temp_names.count();
    proof {
        lemma_children_smaller(n);
    }
    // First make sure all child nodes are handled
    let (shell, kids) = take_children(node);
    let done = extract_all(kids, temp_names, Ghost(fuel));
    proof {
        lemma_nodes_view(done);
        lemma_extracted_seq_len(children(n), c0, fuel);
        lemma_fits_children(n);
    }
    let m = put_children(shell, done);
    exit_node(m, temp_names, Ghost(fuel))
}

/// [`extract_conditionals`] on each node of a list, in order.
fn extract_all(
    nodes: Vec<Node>,
    temp_names: &mut TempNameGenerator,
    Ghost(fuel): Ghost<nat>,
) -> (r: Vec<Node>)
    requires
        old(temp_names).prefix() == conditional_prefix(),
        conditionals_extracted_seq(nodes_view(nodes), old(temp_names).count(), fuel) is Some,
    ensures
        final(temp_names).prefix() == conditional_prefix(),
        (nodes_view(r), final(temp_names).count()) == conditionals_extracted_seq(
            nodes_view(nodes),
            old(temp_names).count(),
            fuel,
        ).unwrap(),
    decreases fuel, size_seq(nodes_view(nodes)), 1nat, 0nat,
{
    let ghost cs = nodes_view(nodes);
    let ghost c0 = temp_names.count();
    let mut done: Vec<Node> = Vec::new();
    let mut rest = nodes;
    proof {
        lemma_nodes_view(rest);
        lemma_nodes_view(done);
        assert forall|j: int| 0 <= j < cs.len() implies size(#[trigger] cs[j]) <= size_seq(cs) by {
            lemma_size_seq_element(cs, j);
        }
        assert(cs.take(0) =~= Seq::<NodeSpec>::empty());
    }
    while rest.len() > 0
        invariant
            cs == nodes_view(nodes),
            temp_names.prefix() == conditional_prefix(),
            conditionals_extracted_seq(cs, c0, fuel) is Some,
            done.len() + rest.len() == cs.len(),
            forall|j: int| 0 <= j < rest.len() ==> (#[trigger] rest@[j])@ == cs[done.len() + j],
            forall|j: int| 0 <= j < cs.len() ==> size(#[trigger] cs[j]) <= size_seq(cs),
            conditionals_extracted_seq(cs.take(done.len() as int), c0, fuel) is Some,
            (nodes_view(done), temp_names.count()) == conditionals_extracted_seq(
                cs.take(done.len() as int),
                c0,
                fuel,
            ).unwrap(),
        decreases rest.len(),
    {
        let ghost i = done.len() as int;
        let ghost before = rest@;
        let k = rest.remove(0);
        assert(k@ == cs[i]);
        let ghost t = cs.take(i + 1);
        proof {
            lemma_extracted_seq_prefix(cs, c0, fuel, i + 1);
            assert(t.drop_last() =~= cs.take(i));
            assert(t.last() == cs[i]);
        }
        let k2 = extract_conditionals(k, temp_names, Ghost(fuel));
        done.push(k2);
        proof {
            lemma_nodes_view(done);
            assert(nodes_view(done) =~= conditionals_extracted_seq(t, c0, fuel).unwrap().0);
            assert forall|j: int| 0 <= j < rest.len() implies (#[trigger] rest@[j])@
                == cs[done.len() + j] by {
                assert(rest@[j] == before[j + 1]);
            }
        }
    }
    assert(cs.take(cs.len() as int) =~= cs);
    done
}

/// The child of `m` at `k`, a conditional, turned into the assignment of its branches to a
/// new temporary before `m`.
fn lift_conditional(
    m: Node,
    k: usize,
    temp_names: &mut TempNameGenerator,
    Ghost(fuel): Ghost<nat>,
) -> (r: Node)
    requires
        old(temp_names).prefix() == conditional_prefix(),
        conditional_lifted(m@, k as int, old(temp_names).count(), fuel) is Some,
    ensures
        final(temp_names).prefix() == conditional_prefix(),
        (r@, final(temp_names).count()) == conditional_lifted(
            m@,
            k as int,
            old(temp_names).count(),
            fuel,
        ).unwrap(),
    decreases fuel, 0nat, 1nat, 0nat,
{
    let ghost mv = m@;
    let (shell, kids) = take_children(m);
    let mut kids = kids;
    proof {
        lemma_nodes_view(kids);
    }
    let temp_name = temp_names.next();
    let target = kids.remove(k);
    let target_type = target.get_type();
    assert(target@ == children(mv)[k as int]);
    // Extract the target node, replacing it with a temporary variable
    let variable = variable_node(&temp_name, &target_type);
    let ghost vv = variable@;
    let assigned = assign_branches(target, &variable, false, temp_names, Ghost(fuel));
    kids.insert(k, variable);
    proof {
        lemma_nodes_view(kids);
        assert(nodes_view(kids) =~= children(mv).update(k as int, vv));
        lemma_fits_children(mv);
    }
    let declaration = empty_binding_node(&temp_name, &target_type);
    let using = put_children(shell, kids);
    let mut outer: Vec<Node> = Vec::new();
    outer.push(declaration);
    outer.push(assigned);
    outer.push(using);
    let ghost ov = seq![outer@[0]@, outer@[1]@, outer@[2]@];
    proof {
        lemma_nodes_view(outer);
        assert(nodes_view(outer) =~= ov);
    }
    Node::new_sequence(SequenceMode::Transparent, outer)
}

/// Each operand bound to a new temporary: the temporaries and the bindings.
fn bind_operands(
    ops: Vec<Node>,
    temp_names: &mut TempNameGenerator,
    Ghost(fuel): Ghost<nat>,
) -> (r: (Vec<Node>, Vec<Node>))
    requires
        old(temp_names).prefix() == conditional_prefix(),
        operands_bound(nodes_view(ops), old(temp_names).count(), fuel) is Some,
    ensures
        final(temp_names).prefix() == conditional_prefix(),
        (nodes_view(r.0), nodes_view(r.1), final(temp_names).count()) == operands_bound(
            nodes_view(ops),
            old(temp_names).count(),
            fuel,
        ).unwrap(),
    decreases fuel, 0nat, ops.len(), 0nat,
{
    let ghost cs = nodes_view(ops);
    let ghost c0 = temp_names.count();
    let mut variables: Vec<Node> = Vec::new();
    let mut bindings: Vec<Node> = Vec::new();
    let mut rest = ops;
    proof {
        lemma_nodes_view(rest);
        lemma_nodes_view(variables);
        lemma_nodes_view(bindings);
        assert(cs.take(0) =~= Seq::<NodeSpec>::empty());
    }
    while rest.len() > 0
        invariant
            cs == nodes_view(ops),
            cs.len() == ops.len(),
            temp_names.prefix() == conditional_prefix(),
            operands_bound(cs, c0, fuel) is Some,
            variables.len() + rest.len() == cs.len(),
            forall|j: int| 0 <= j < rest.len() ==> (#[trigger] rest@[j])@ == cs[variables.len() + j],
            operands_bound(cs.take(variables.len() as int), c0, fuel) is Some,
            (nodes_view(variables), nodes_view(bindings), temp_names.count()) == operands_bound(
                cs.take(variables.len() as int),
                c0,
                fuel,
            ).unwrap(),
        decreases rest.len(),
    {
        let ghost i = variables.len() as int;
        let ghost before = rest@;
        let ghost bv = nodes_view(bindings);
        let operand = rest.remove(0);
        assert(operand@ == cs[i]);
        let ghost t = cs.take(i + 1);
        proof {
            lemma_operands_bound_prefix(cs, c0, fuel, i + 1);
            assert(t.drop_last() =~= cs.take(i));
            assert(t.last() == cs[i]);
        }
        let temp_name = temp_names.next();
        let operand_type = operand.get_type();
        variables.push(variable_node(&temp_name, &operand_type));
        // Bind the temporary variable to the original operand (which could be a conditional)
        let binding = Node::Binding { name: temp_name, binding: Box::new(operand) };
        let bound = extract_conditionals(binding, temp_names, Ghost((fuel - 1) as nat));
        let ghost b = bound@;
        bindings.push(bound);
        proof {
            lemma_nodes_view(variables);
            lemma_nodes_view(bindings);
            assert(nodes_view(bindings) =~= bv.push(b));
            assert(nodes_view(variables) =~= operands_bound(t, c0, fuel).unwrap().0);
            assert forall|j: int| 0 <= j < rest.len() implies (#[trigger] rest@[j])@
                == cs[variables.len() + j] by {
                assert(rest@[j] == before[j + 1]);
            }
        }
    }
    assert(cs.take(cs.len() as int) =~= cs);
    (variables, bindings)
}

/// Each conditional operand turned into the assignment of its branches to a new temporary,
/// which takes its place: the new operands, and the temporaries' declarations and
/// conditionals.
fn lift_conditional_operands(
    ops: Vec<Node>,
    temp_names: &mut TempNameGenerator,
    Ghost(fuel): Ghost<nat>,
) -> (r: (Vec<Node>, Vec<Node>))
    requires
        old(temp_names).prefix() == conditional_prefix(),
        conditional_operands_lifted(nodes_view(ops), old(temp_names).count(), fuel) is Some,
    ensures
        final(temp_names).prefix() == conditional_prefix(),
        (nodes_view(r.0), nodes_view(r.1), final(temp_names).count())
            == conditional_operands_lifted(nodes_view(ops), old(temp_names).count(), fuel).unwrap(),
    decreases fuel, 0nat, ops.len(), 0nat,
{
    let ghost cs = nodes_view(ops);
    let ghost c0 = temp_names.count();
    let mut done: Vec<Node> = Vec::new();
    let mut temps: Vec<Node> = Vec::new();
    let mut rest = ops;
    proof {
        lemma_nodes_view(rest);
        lemma_nodes_view(done);
        lemma_nodes_view(temps);
        assert(cs.take(0) =~= Seq::<NodeSpec>::empty());
    }
    while rest.len() > 0
        invariant
            cs == nodes_view(ops),
            cs.len() == ops.len(),
            temp_names.prefix() == conditional_prefix(),
            conditional_operands_lifted(cs, c0, fuel) is Some,
            done.len() + rest.len() == cs.len(),
            forall|j: int| 0 <= j < rest.len() ==> (#[trigger] rest@[j])@ == cs[done.len() + j],
            conditional_operands_lifted(cs.take(done.len() as int), c0, fuel) is Some,
            (nodes_view(done), nodes_view(temps), temp_names.count()) == conditional_operands_lifted(
                cs.take(done.len() as int),
                c0,
                fuel,
            ).unwrap(),
        decreases rest.len(),
    {
        let ghost i = done.len() as int;
        let ghost before = rest@;
        let ghost tv = nodes_view(temps);
        let operand = rest.remove(0);
        assert(operand@ == cs[i]);
        let ghost t = cs.take(i + 1);
        proof {
            lemma_operands_lifted_prefix(cs, c0, fuel, i + 1);
            assert(t.drop_last() =~= cs.take(i));
            assert(t.last() == cs[i]);
        }
        if is_conditional(&operand) {
            let temp_name = temp_names.next();
            let operand_type = operand.get_type();
            let variable = variable_node(&temp_name, &operand_type);
            let assigned = assign_branches(operand, &variable, false, temp_names, Ghost(fuel));
            let declaration = empty_binding_node(&temp_name, &operand_type);
            let ghost dv = declaration@;
            let ghost av = assigned@;
            temps.push(declaration);
            temps.push(assigned);
            done.push(variable);
            proof {
                lemma_nodes_view(temps);
                assert(nodes_view(temps) =~= tv.push(dv).push(av));
            }
        } else {
            done.push(operand);
        }
        proof {
            lemma_nodes_view(done);
            assert(nodes_view(done) =~= conditional_operands_lifted(t, c0, fuel).unwrap().0);
            assert forall|j: int| 0 <= j < rest.len() implies (#[trigger] rest@[j])@
                == cs[done.len() + j] by {
                assert(rest@[j] == before[j + 1]);
            }
        }
    }
    assert(cs.take(cs.len() as int) =~= cs);
    (done, temps)
}

/// A call whose operator is the conditional `cnd`: each branch is called on the operands
/// (bound to temporaries first) and its result assigned to a new temporary.
fn call_conditional_operator(
    cnd: Node,
    operands: Vec<Node>,
    typ: Type,
    temp_names: &mut TempNameGenerator,
    Ghost(fuel): Ghost<nat>,
) -> (r: Node)
    requires
        old(temp_names).prefix() == conditional_prefix(),
        conditional_call(cnd@, nodes_view(operands), typ@, old(temp_names).count(), fuel) is Some,
    ensures
        final(temp_names).prefix() == conditional_prefix(),
        (r@, final(temp_names).count()) == conditional_call(
            cnd@,
            nodes_view(operands),
            typ@,
            old(temp_names).count(),
            fuel,
        ).unwrap(),
    decreases fuel, 0nat, operands.len() + 1, 0nat,
{
    proof {
        lemma_nodes_view(operands);
    }
    match cnd {
        Node::Conditional { condition, then_branch, else_branch, .. } => {
            let (variables, bindings) = bind_operands(operands, temp_names, Ghost(fuel));
            let condition_name = temp_names.next();
            let result_name = temp_names.next();
            let condition_type = condition.get_type();
            // Construct the new calls (all operands are now temporary variables)
            let ghost vv = nodes_view(variables);
            let then_operands = copy_nodes(&variables);
            let result_variable = variable_node(&result_name, &typ);
            let ghost rv = result_variable@;
            let then_call_value = Node::Call { operator: then_branch, operands: then_operands, typ: Type::Unknown };
            assert(then_call_value@ == NodeSpec::Call { operator: Box::new((*then_branch)@), operands: vv, typ: TypeSpec::Unknown });
            let ghost tcv = then_call_value@;
            let then_call = Node::Assign { lhs: Box::new(result_variable), rhs: Box::new(then_call_value) };
            assert(then_call@ == NodeSpec::Assign { lhs: Box::new(rv), rhs: Box::new(tcv) });
            let else_call_value = Node::Call { operator: else_branch, operands: variables, typ: Type::Unknown };
            assert(else_call_value@ == NodeSpec::Call { operator: Box::new((*else_branch)@), operands: vv, typ: TypeSpec::Unknown });
            let else_call = Node::Assign {
                lhs: Box::new(variable_node(&result_name, &typ)),
                rhs: Box::new(else_call_value),
            };
            let ghost ecv = else_call@;
            assert(ecv == NodeSpec::Assign { lhs: Box::new(rv), rhs: Box::new(NodeSpec::Call { operator: Box::new((*else_branch)@), operands: vv, typ: TypeSpec::Unknown }) });
            let condition_variable = variable_node(&condition_name, &condition_type);
            let ghost cvv = condition_variable@;
            let ghost thv = then_call@;
            let new_conditional = Node::Conditional {
                condition: Box::new(condition_variable),
                then_branch: Box::new(then_call),
                else_branch: Box::new(else_call),
                typ: Type::Unknown,
            };
            assert(new_conditional@ == NodeSpec::Conditional { condition: Box::new(cvv), then_branch: Box::new(thv), else_branch: Box::new(ecv), typ: TypeSpec::Unknown });
            let bind_result = empty_binding_node(&result_name, &typ);
            let return_result = variable_node(&result_name, &typ);
            // Bind the condition so it is evaluated first
            let bind_condition = Node::Binding { name: condition_name, binding: condition };
            let ghost bcv = bind_condition@;
            let ghost bsv = nodes_view(bindings);
            let ghost tail = seq![bind_result@, new_conditional@, return_result@];
            let mut nodes: Vec<Node> = Vec::new();
            nodes.push(bind_condition);
            let mut bindings = bindings;
            nodes.append(&mut bindings);
            nodes.push(bind_result);
            nodes.push(new_conditional);
            nodes.push(return_result);
            proof {
                lemma_nodes_view(nodes);
                assert(nodes_view(nodes) =~= seq![bcv] + bsv + tail);
            }
            Node::new_sequence(SequenceMode::Scope, nodes)
        },
        other => other,
    }
}

/// An assignment with a conditional on either side, taken through a temporary mutable
/// reference.
fn assign_through_reference(
    lhs: Node,
    rhs: Node,
    temp_names: &mut TempNameGenerator,
    Ghost(fuel): Ghost<nat>,
) -> (r: Node)
    requires
        old(temp_names).prefix() == conditional_prefix(),
        conditional_assignment(lhs@, rhs@, old(temp_names).count(), fuel) is Some,
    ensures
        final(temp_names).prefix() == conditional_prefix(),
        (r@, final(temp_names).count()) == conditional_assignment(
            lhs@,
            rhs@,
            old(temp_names).count(),
            fuel,
        ).unwrap(),
    decreases fuel, 0nat, 1nat, 0nat,
{
    let temp_name = temp_names.next();
    let temp_type = Type::Reference(ReferenceMode::Mutable, Box::new(lhs.get_type()));
    let temp = variable_node(&temp_name, &temp_type);
    let deref_temp = Node::Dereference { target: Box::new(variable_node(&temp_name, &temp_type)), typ: Type::Unknown };
    let declaration = empty_binding_node(&temp_name, &temp_type);
    let mut nodes: Vec<Node> = Vec::new();
    if is_conditional(&lhs) && is_conditional(&rhs) {
        // (if A then (temp = (ref B)) else (temp = (ref C)))
        let lhs_assigned = assign_branches(lhs, &temp, true, temp_names, Ghost(fuel));
        // (if X then ((deref temp) = Y) else ((deref temp) = Z))
        let rhs_assigned = assign_branches(rhs, &deref_temp, false, temp_names, Ghost(fuel));
        nodes.push(declaration);
        nodes.push(lhs_assigned);
        nodes.push(rhs_assigned);
    } else if is_conditional(&lhs) {
        let lhs_assigned = assign_branches(lhs, &temp, true, temp_names, Ghost(fuel));
        let using = Node::Assign { lhs: Box::new(deref_temp), rhs: Box::new(rhs) };
        nodes.push(declaration);
        nodes.push(lhs_assigned);
        nodes.push(using);
    } else {
        let rhs_assigned = assign_branches(rhs, &deref_temp, false, temp_names, Ghost(fuel));
        // Bind a reference to the original LHS
        let bind_temp = Node::Binding { name: temp_name, binding: Box::new(mutable_reference_node(lhs)) };
        nodes.push(bind_temp);
        nodes.push(rhs_assigned);
    }
    proof {
        lemma_nodes_view(nodes);
        if nodes.len() == 3 {
            assert(nodes_view(nodes) =~= seq![nodes@[0]@, nodes@[1]@, nodes@[2]@]);
        } else {
            assert(nodes_view(nodes) =~= seq![nodes@[0]@, nodes@[1]@]);
        }
    }
    Node::new_sequence(SequenceMode::Scope, nodes)
}

/// A sequence with a value whose final node is a conditional: the conditional assigns its
/// branches to a new temporary, which then gives the value.
fn final_conditional(
    mode: SequenceMode,
    nodes: Vec<Node>,
    typ: Type,
    temp_names: &mut TempNameGenerator,
    Ghost(fuel): Ghost<nat>,
) -> (r: Node)
    requires
        old(temp_names).prefix() == conditional_prefix(),
        nodes.len() > 0,
        final_conditional_lifted(mode, nodes_view(nodes), typ@, old(temp_names).count(), fuel) is Some,
    ensures
        final(temp_names).prefix() == conditional_prefix(),
        (r@, final(temp_names).count()) == final_conditional_lifted(
            mode,
            nodes_view(nodes),
            typ@,
            old(temp_names).count(),
            fuel,
        ).unwrap(),
    decreases fuel, 0nat, 1nat, 0nat,
{
    let ghost nv = nodes_view(nodes);
    let mut nodes = nodes;
    proof {
        lemma_nodes_view(nodes);
    }
    let temp_name = temp_names.next();
    let target = nodes.pop().unwrap();
    proof {
        lemma_nodes_view(nodes);
        assert(nodes_view(nodes) =~= nv.drop_last());
        assert(target@ == nv.last());
    }
    let target_type = target.get_type();
    let variable = variable_node(&temp_name, &target_type);
    let assigned = assign_branches(target, &variable, false, temp_names, Ghost(fuel));
    let ghost av = assigned@;
    // Put the conditional back where it was in the sequence
    nodes.push(assigned);
    proof {
        lemma_nodes_view(nodes);
        assert(nodes_view(nodes) =~= nv.drop_last().push(av));
    }
    let declaration = empty_binding_node(&temp_name, &target_type);
    let using = Node::Sequence { mode, nodes, typ };
    let mut outer: Vec<Node> = Vec::new();
    outer.push(declaration);
    outer.push(using);
    outer.push(variable);
    proof {
        lemma_nodes_view(outer);
        assert(nodes_view(outer) =~= seq![outer@[0]@, outer@[1]@, outer@[2]@]);
    }
    Node::new_sequence(SequenceMode::Transparent, outer)
}

/// A node after its children: conditionals where values are used are turned into
/// statements before it.
fn exit_node(m: Node, temp_names: &mut TempNameGenerator, Ghost(fuel): Ghost<nat>) -> (r: Node)
    requires
        old(temp_names).prefix() == conditional_prefix(),
        conditional_exit(m@, old(temp_names).count(), fuel) is Some,
    ensures
        final(temp_names).prefix() == conditional_prefix(),
        (r@, final(temp_names).count()) == conditional_exit(m@, old(temp_names).count(), fuel).unwrap(),
    decreases fuel, 0nat, children(m@).len() + 3, 0nat,
{
    let ghost mv = m@;
    match m {
        Node::Call { operator, operands, typ } => {
            proof {
                lemma_nodes_view(operands);
            }
            if is_conditional(&operator) {
                call_conditional_operator(*operator, operands, typ, temp_names, Ghost(fuel))
            } else {
                let (new_operands, temps) = lift_conditional_operands(operands, temp_names, Ghost(fuel));
                let call = Node::Call { operator, operands: new_operands, typ };
                if temps.len() > 0 {
                    let ghost tv = nodes_view(temps);
                    let ghost cv = call@;
                    let mut nodes = temps;
                    nodes.push(call);
                    proof {
                        lemma_nodes_view(nodes);
                        assert(nodes_view(nodes) =~= tv.push(cv));
                    }
                    Node::new_sequence(SequenceMode::Scope, nodes)
                } else {
                    call
                }
            }
        },
        Node::Assign { lhs, rhs } => {
            if is_conditional(&lhs) || is_conditional(&rhs) {
                assign_through_reference(*lhs, *rhs, temp_names, Ghost(fuel))
            } else {
                Node::Assign { lhs, rhs }
            }
        },
        Node::Sequence { mode, nodes, typ } => {
            proof {
                lemma_nodes_view(nodes);
            }
            // Ignore non-returning sequences, since no value is needed from them
            let is_void = match typ {
                Type::Void => true,
                _ => false,
            };
            if nodes.len() > 0 && is_conditional(&nodes[nodes.len() - 1]) && !is_void {
                final_conditional(mode, nodes, typ, temp_names, Ghost(fuel))
            } else {
                Node::Sequence { mode, nodes, typ }
            }
        },
        Node::Conditional { condition, then_branch, else_branch, typ } => {
            Node::Conditional { condition, then_branch, else_branch, typ }
        },
        other => {
            let lifted = match &other {
                Node::Reference { target, .. } | Node::Dereference { target, .. }
                | Node::Access { target, .. } => is_conditional(target),
                Node::Binding { binding, .. } => is_conditional(binding),
                _ => false,
            };
            if lifted {
                lift_conditional(other, 0, temp_names, Ghost(fuel))
            } else {
                other
            }
        },
    }
}

/// Turns every conditional that stands where a value is used into a statement that assigns
/// its branches to a new temporary variable, which takes its place.
pub fn apply(root_node: &mut Node)
    requires
        pass_applies(old(root_node)@),
    ensures
        final(root_node)@ == pass_result(old(root_node)@),
{
    let ghost n = root_node@;
    let ghost fuel = pass_fuel(n);
    let mut temp_names = TempNameGenerator::new("xcond");
    proof {
        reveal_strlit("xcond");
        assert("xcond"@ =~= conditional_prefix());
    }
    let root = root_node.extract_temp();
    let (shell, kids) = take_children(root);
    let done = extract_all(kids, &mut temp_names, Ghost(fuel));
    proof {
        lemma_nodes_view(done);
        lemma_extracted_seq_len(children(n), 0, fuel);
        lemma_fits_children(n);
    }
    *root_node = put_children(shell, done);
}

} // verus!

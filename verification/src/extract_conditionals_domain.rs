//! Where the extraction of conditionals applies: on every tree in which no conditional has a
//! conditional as its condition, the pass reaches a result with a depth of re-handling no
//! larger than the number of conditionals in the tree.
use vstd::prelude::*;
use crate::ast::{group_ast_views, new_sequence, node_type, NodeSpec, SequenceMode, TypeSpec};
use crate::extract_conditionals::{
    branch_assignment, branches_assigned, conditional_assignment, conditional_call,
    conditional_exit, conditional_lifted, conditional_operands_lifted, conditional_prefix,
    conditionals_extracted, conditionals_extracted_seq, dereference, empty_binding,
    final_conditional_lifted, lifted_target, mutable_reference, operands_bound, pass_applies,
    reference_type, typed_variable,
};
use crate::flatten_definitions::lemma_children_of_with_children;
use crate::names::{next_count, temp_name};
use crate::tree::{
    children, fits, lemma_children_smaller, lemma_fits_children, lemma_size_seq_element,
    lemma_tree_all_children, lemma_tree_all_seq, size, size_seq, tree_all, with_children,
};

verus! {

broadcast use group_ast_views;

/// The number of conditionals in a tree.
pub open spec fn conditional_count(n: NodeSpec) -> nat
    decreases size(n), 0nat,
{
    proof {
        lemma_children_smaller(n);
    }
    (if n is Conditional {
        1nat
    } else {
        0nat
    }) + conditional_count_seq(children(n))
}

/// The number of conditionals in the trees of a sequence.
pub open spec fn conditional_count_seq(s: Seq<NodeSpec>) -> nat
    decreases size_seq(s), 1nat,
{
    if s.len() == 0 {
        0
    } else {
        proof {
            lemma_size_seq_element(s, s.len() - 1);
        }
        conditional_count_seq(s.drop_last()) + conditional_count(s.last())
    }
}

/// Whether a node is no conditional whose condition is a conditional.
pub open spec fn plain_condition(m: NodeSpec) -> bool {
    m matches NodeSpec::Conditional { condition, .. } ==> !(*condition is Conditional)
}

/// Whether no conditional of a tree has a conditional as its condition.
pub open spec fn supported(n: NodeSpec) -> bool {
    tree_all(n, |m: NodeSpec| plain_condition(m))
}

proof fn lemma_count_push(s: Seq<NodeSpec>, x: NodeSpec)
    ensures
        conditional_count_seq(s.push(x)) == conditional_count_seq(s) + conditional_count(x),
{
    assert(s.push(x).drop_last() =~= s);
}

proof fn lemma_count_append(a: Seq<NodeSpec>, b: Seq<NodeSpec>)
    ensures
        conditional_count_seq(a + b) == conditional_count_seq(a) + conditional_count_seq(b),
    decreases b.len(),
{
    if b.len() > 0 {
        lemma_count_append(a, b.drop_last());
        assert((a + b).drop_last() =~= a + b.drop_last());
        assert((a + b).last() == b.last());
    } else {
        assert(a + b =~= a);
    }
}

proof fn lemma_count_element(s: Seq<NodeSpec>, i: int)
    requires
        0 <= i < s.len(),
    ensures
        conditional_count(s[i]) <= conditional_count_seq(s),
    decreases s.len(),
{
    if i < s.len() - 1 {
        lemma_count_element(s.drop_last(), i);
        assert(s.drop_last()[i] == s[i]);
    }
}

proof fn lemma_count_update(s: Seq<NodeSpec>, k: int, v: NodeSpec)
    requires
        0 <= k < s.len(),
    ensures
        conditional_count_seq(s.update(k, v)) + conditional_count(s[k]) == conditional_count_seq(s)
            + conditional_count(v),
    decreases s.len(),
{
    let t = s.update(k, v);
    if k < s.len() - 1 {
        lemma_count_update(s.drop_last(), k, v);
        assert(t.drop_last() =~= s.drop_last().update(k, v));
        assert(s.drop_last()[k] == s[k]);
    } else {
        assert(t.drop_last() =~= s.drop_last());
    }
}

proof fn lemma_count_pointwise(a: Seq<NodeSpec>, b: Seq<NodeSpec>)
    requires
        a.len() == b.len(),
        forall|i: int| 0 <= i < a.len() ==> conditional_count(#[trigger] a[i]) <= conditional_count(b[i]),
    ensures
        conditional_count_seq(a) <= conditional_count_seq(b),
    decreases a.len(),
{
    if a.len() > 0 {
        assert forall|i: int| 0 <= i < a.len() - 1 implies conditional_count(
            #[trigger] a.drop_last()[i],
        ) <= conditional_count(b.drop_last()[i]) by {
            assert(a.drop_last()[i] == a[i]);
            assert(b.drop_last()[i] == b[i]);
        }
        lemma_count_pointwise(a.drop_last(), b.drop_last());
        assert(conditional_count(a[a.len() - 1]) <= conditional_count(b[b.len() - 1]));
    }
}

proof fn lemma_count_pair(a: NodeSpec, b: NodeSpec)
    ensures
        conditional_count_seq(seq![a]) == conditional_count(a),
        conditional_count_seq(seq![a, b]) == conditional_count(a) + conditional_count(b),
{
    assert(seq![a] =~= Seq::<NodeSpec>::empty().push(a));
    lemma_count_push(Seq::<NodeSpec>::empty(), a);
    assert(seq![a, b] =~= seq![a].push(b));
    lemma_count_push(seq![a], b);
}

proof fn lemma_count_triple(a: NodeSpec, b: NodeSpec, c: NodeSpec)
    ensures
        conditional_count_seq(seq![a, b, c]) == conditional_count(a) + conditional_count(b)
            + conditional_count(c),
{
    lemma_count_pair(a, b);
    assert(seq![a, b, c] =~= seq![a, b].push(c));
    lemma_count_push(seq![a, b], c);
}

/// A node rebuilt with new children that fit it counts its own conditional and theirs.
proof fn lemma_count_with_children(n: NodeSpec, cs: Seq<NodeSpec>)
    requires
        fits(n, cs.len()),
    ensures
        children(with_children(n, cs)) == cs,
        (with_children(n, cs) is Conditional) == (n is Conditional),
        conditional_count(with_children(n, cs)) == (if n is Conditional {
            1nat
        } else {
            0nat
        }) + conditional_count_seq(cs),
{
    lemma_children_of_with_children(n, cs);
}

/// A node with a plain condition whose children are supported is supported.
proof fn lemma_supported_from_children(m: NodeSpec)
    requires
        plain_condition(m),
        forall|i: int| 0 <= i < children(m).len() ==> supported(#[trigger] children(m)[i]),
    ensures
        supported(m),
{
    lemma_tree_all_seq(children(m), |x: NodeSpec| plain_condition(x));
}

/// The children of a supported tree are supported, and it has a plain condition.
proof fn lemma_supported_children(m: NodeSpec)
    requires
        supported(m),
    ensures
        plain_condition(m),
        forall|i: int| 0 <= i < children(m).len() ==> supported(#[trigger] children(m)[i]),
{
    lemma_tree_all_children(m, |x: NodeSpec| plain_condition(x));
}

/// A leaf (a node without children) that is not a conditional counts none and is supported.
proof fn lemma_leaf(m: NodeSpec)
    requires
        children(m).len() == 0,
        !(m is Conditional),
    ensures
        conditional_count(m) == 0,
        supported(m),
{
    lemma_supported_from_children(m);
}

/// A sequence of trees each of which counts no conditional counts none.
proof fn lemma_count_zero(s: Seq<NodeSpec>)
    requires
        forall|i: int| 0 <= i < s.len() ==> conditional_count(#[trigger] s[i]) == 0,
    ensures
        conditional_count_seq(s) == 0,
    decreases s.len(),
{
    if s.len() > 0 {
        assert forall|i: int| 0 <= i < s.len() - 1 implies conditional_count(#[trigger] s.drop_last()[i])
            == 0 by {
            assert(s.drop_last()[i] == s[i]);
        }
        lemma_count_zero(s.drop_last());
        assert(conditional_count(s[s.len() - 1]) == 0);
    }
}

/// A variable counts no conditional and is supported.
proof fn lemma_variable(name: Seq<char>, typ: TypeSpec)
    ensures
        conditional_count(typed_variable(name, typ)) == 0,
        supported(typed_variable(name, typ)),
{
    lemma_leaf(typed_variable(name, typ));
}

/// The declaration of a temporary counts no conditional and is supported.
proof fn lemma_declaration(name: Seq<char>, typ: TypeSpec)
    ensures
        conditional_count(empty_binding(name, typ)) == 0,
        supported(empty_binding(name, typ)),
{
    let nothing = NodeSpec::Nothing { typ };
    lemma_leaf(nothing);
    let d = empty_binding(name, typ);
    assert(children(d) == seq![nothing]);
    lemma_count_pair(nothing, nothing);
    lemma_supported_from_children(d);
}

/// A node with one child counts the child's conditionals (when it is not a conditional
/// itself), and is supported when its child is.
proof fn lemma_one_child(m: NodeSpec, a: NodeSpec)
    requires
        children(m) == seq![a],
        !(m is Conditional),
        supported(a),
    ensures
        conditional_count(m) == conditional_count(a),
        supported(m),
{
    lemma_count_pair(a, a);
    lemma_supported_from_children(m);
}

/// A node with two children counts theirs, and is supported when they are.
proof fn lemma_two_children(m: NodeSpec, a: NodeSpec, b: NodeSpec)
    requires
        children(m) == seq![a, b],
        !(m is Conditional),
        supported(a),
        supported(b),
    ensures
        conditional_count(m) == conditional_count(a) + conditional_count(b),
        supported(m),
{
    lemma_count_pair(a, b);
    assert forall|i: int| 0 <= i < children(m).len() implies supported(#[trigger] children(m)[i]) by {
        if i == 0 {
            assert(children(m)[i] == a);
        } else {
            assert(children(m)[i] == b);
        }
    }
    lemma_supported_from_children(m);
}

/// A sequence of three supported trees counts theirs and is supported.
proof fn lemma_three_nodes(mode: SequenceMode, a: NodeSpec, b: NodeSpec, c: NodeSpec)
    requires
        supported(a),
        supported(b),
        supported(c),
    ensures
        conditional_count(new_sequence(mode, seq![a, b, c])) == conditional_count(a)
            + conditional_count(b) + conditional_count(c),
        supported(new_sequence(mode, seq![a, b, c])),
        new_sequence(mode, seq![a, b, c]) is Sequence,
{
    let m = new_sequence(mode, seq![a, b, c]);
    lemma_count_triple(a, b, c);
    assert forall|i: int| 0 <= i < children(m).len() implies supported(#[trigger] children(m)[i]) by {
        if i == 0 {
            assert(children(m)[i] == a);
        } else if i == 1 {
            assert(children(m)[i] == b);
        } else {
            assert(children(m)[i] == c);
        }
    }
    lemma_supported_from_children(m);
}

/// A sequence of supported trees counts theirs and is supported.
proof fn lemma_sequence_node(mode: SequenceMode, nodes: Seq<NodeSpec>, typ: TypeSpec)
    requires
        forall|i: int| 0 <= i < nodes.len() ==> supported(#[trigger] nodes[i]),
    ensures
        conditional_count(NodeSpec::Sequence { mode, nodes, typ }) == conditional_count_seq(nodes),
        supported(NodeSpec::Sequence { mode, nodes, typ }),
{
    lemma_supported_from_children(NodeSpec::Sequence { mode, nodes, typ });
}

/// Whether a result is reached, with a tree that counts at most `bound` conditionals and is
/// supported.
pub open spec fn reaches(r: Option<(NodeSpec, nat)>, bound: nat) -> bool {
    r matches Some(p) && conditional_count(p.0) <= bound && supported(p.0)
}

/// On a supported tree, the pass reaches a result with a depth bound as large as the number
/// of conditionals in the tree; the result counts no more conditionals, is supported, and is
/// a conditional only where the tree is.
pub proof fn lemma_extracted_reaches(n: NodeSpec, c: nat, f: nat)
    requires
        supported(n),
        conditional_count(n) <= f,
    ensures
        reaches(conditionals_extracted(n, c, f), conditional_count(n)),
        conditionals_extracted(n, c, f) matches Some(p) ==> (p.0 is Conditional ==> n is Conditional),
    decreases f, size(n), 0nat,
{
    lemma_children_smaller(n);
    lemma_supported_children(n);
    let cs = children(n);
    lemma_extracted_seq_reaches(cs, c, f);
    let r = conditionals_extracted_seq(cs, c, f).unwrap();
    lemma_fits_children(n);
    lemma_count_with_children(n, r.0);
    let m = with_children(n, r.0);
    if n is Conditional {
        assert(cs[0] == *n->Conditional_condition);
        assert(children(m)[0] == *m->Conditional_condition);
        assert(!(r.0[0] is Conditional));
    }
    assert(plain_condition(m));
    lemma_supported_from_children(m);
    lemma_exit_reaches(m, r.1, f);
}

/// [`lemma_extracted_reaches`] for each tree of a sequence.
pub proof fn lemma_extracted_seq_reaches(s: Seq<NodeSpec>, c: nat, f: nat)
    requires
        forall|i: int| 0 <= i < s.len() ==> supported(#[trigger] s[i]),
        conditional_count_seq(s) <= f,
    ensures
        conditionals_extracted_seq(s, c, f) matches Some(p) && p.0.len() == s.len()
            && conditional_count_seq(p.0) <= conditional_count_seq(s) && (forall|i: int|
            0 <= i < s.len() ==> supported(#[trigger] p.0[i]) && (p.0[i] is Conditional
                ==> s[i] is Conditional)),
    decreases f, size_seq(s), 1nat,
{
    if s.len() > 0 {
        lemma_size_seq_element(s, s.len() - 1);
        let t = s.drop_last();
        assert forall|i: int| 0 <= i < t.len() implies supported(#[trigger] t[i]) by {
            assert(t[i] == s[i]);
        }
        lemma_extracted_seq_reaches(t, c, f);
        let r = conditionals_extracted_seq(t, c, f).unwrap();
        assert(supported(s[s.len() - 1]));
        lemma_extracted_reaches(s.last(), r.1, f);
        let x = conditionals_extracted(s.last(), r.1, f).unwrap();
        lemma_count_push(r.0, x.0);
        let out = r.0.push(x.0);
        assert forall|i: int| 0 <= i < s.len() implies supported(#[trigger] out[i]) && (out[i] is Conditional
            ==> s[i] is Conditional) by {
            if i < s.len() - 1 {
                assert(out[i] == r.0[i]);
                assert(t[i] == s[i]);
            }
        }
    }
}

/// Assigning the branches of a supported conditional reaches a supported conditional with
/// no more conditionals.
pub proof fn lemma_branches_reach(cnd: NodeSpec, lhs: NodeSpec, by_reference: bool, c: nat, f: nat)
    requires
        cnd is Conditional,
        supported(cnd),
        supported(lhs),
        conditional_count(lhs) == 0,
        !(lhs is Conditional),
        conditional_count(cnd) <= f,
    ensures
        branches_assigned(cnd, lhs, by_reference, c, f) matches Some(p) && p.0 is Conditional
            && conditional_count(p.0) <= conditional_count(cnd) && supported(p.0),
    decreases f, 0nat, 0nat,
{
    lemma_supported_children(cnd);
    let condition = *cnd->Conditional_condition;
    let then_branch = *cnd->Conditional_then_branch;
    let else_branch = *cnd->Conditional_else_branch;
    assert(children(cnd) == seq![condition, then_branch, else_branch]);
    lemma_count_triple(condition, then_branch, else_branch);
    assert(children(cnd)[0] == condition && children(cnd)[1] == then_branch && children(cnd)[2]
        == else_branch);
    lemma_assignment_count(lhs, then_branch, by_reference);
    lemma_assignment_count(lhs, else_branch, by_reference);
    let ta = branch_assignment(lhs, then_branch, by_reference);
    let ea = branch_assignment(lhs, else_branch, by_reference);
    lemma_extracted_reaches(ta, c, (f - 1) as nat);
    let t = conditionals_extracted(ta, c, (f - 1) as nat).unwrap();
    lemma_extracted_reaches(ea, t.1, (f - 1) as nat);
    let e = conditionals_extracted(ea, t.1, (f - 1) as nat).unwrap();
    let out = branches_assigned(cnd, lhs, by_reference, c, f).unwrap().0;
    assert(children(out) == seq![condition, t.0, e.0]);
    lemma_count_triple(condition, t.0, e.0);
    assert forall|i: int| 0 <= i < children(out).len() implies supported(#[trigger] children(out)[i]) by {
        if i == 0 {
            assert(children(out)[i] == condition);
        } else if i == 1 {
            assert(children(out)[i] == t.0);
        } else {
            assert(children(out)[i] == e.0);
        }
    }
    lemma_supported_from_children(out);
}

/// The assignment of a branch counts the branch's conditionals and is supported with it.
proof fn lemma_assignment_count(lhs: NodeSpec, branch: NodeSpec, by_reference: bool)
    requires
        supported(lhs),
        supported(branch),
        conditional_count(lhs) == 0,
    ensures
        conditional_count(branch_assignment(lhs, branch, by_reference)) == conditional_count(branch),
        supported(branch_assignment(lhs, branch, by_reference)),
{
    let rhs = if by_reference {
        mutable_reference(branch)
    } else {
        branch
    };
    if by_reference {
        lemma_one_child(rhs, branch);
    }
    lemma_two_children(branch_assignment(lhs, branch, by_reference), lhs, rhs);
}

/// Lifting the conditional target of a supported node reaches a supported sequence with no
/// more conditionals.
pub proof fn lemma_lifted_reach(m: NodeSpec, c: nat, f: nat)
    requires
        supported(m),
        lifted_target(m),
        children(m)[0] is Conditional,
        conditional_count(m) <= f,
    ensures
        conditional_lifted(m, 0, c, f) matches Some(p) && conditional_count(p.0) <= conditional_count(m)
            && supported(p.0) && !(p.0 is Conditional),
    decreases f, 0nat, 1nat,
{
    lemma_supported_children(m);
    let cs = children(m);
    let t = cs[0];
    assert(cs == seq![t]);
    lemma_count_pair(t, t);
    let name = temp_name(conditional_prefix(), next_count(c));
    let variable = typed_variable(name, node_type(t));
    lemma_variable(name, node_type(t));
    lemma_branches_reach(t, variable, false, next_count(c), f);
    let assigned = branches_assigned(t, variable, false, next_count(c), f).unwrap().0;
    let using = with_children(m, cs.update(0, variable));
    lemma_fits_children(m);
    lemma_count_with_children(m, cs.update(0, variable));
    lemma_count_update(cs, 0, variable);
    assert(cs.update(0, variable) == seq![variable]);
    lemma_one_child(using, variable);
    lemma_declaration(name, node_type(t));
    lemma_three_nodes(SequenceMode::Transparent, empty_binding(name, node_type(t)), assigned, using);
}

/// Binding supported operands, each with fewer conditionals than the depth bound, reaches
/// variables and supported bindings with no more conditionals.
pub proof fn lemma_bound_reach(ops: Seq<NodeSpec>, c: nat, f: nat)
    requires
        forall|i: int| 0 <= i < ops.len() ==> supported(#[trigger] ops[i]),
        forall|i: int| 0 <= i < ops.len() ==> conditional_count(#[trigger] ops[i]) < f,
    ensures
        operands_bound(ops, c, f) matches Some(p) && p.0.len() == ops.len() && (forall|i: int|
            0 <= i < ops.len() ==> conditional_count(#[trigger] p.0[i]) == 0 && supported(p.0[i])
                && !(p.0[i] is Conditional)) && conditional_count_seq(p.1)
            <= conditional_count_seq(ops) && (forall|i: int|
            0 <= i < p.1.len() ==> supported(#[trigger] p.1[i])),
    decreases f, 0nat, ops.len(),
{
    if ops.len() > 0 {
        let t = ops.drop_last();
        assert forall|i: int| 0 <= i < t.len() implies supported(#[trigger] t[i]) && conditional_count(
            t[i],
        ) < f by {
            assert(t[i] == ops[i]);
        }
        lemma_bound_reach(t, c, f);
        let prev = operands_bound(t, c, f).unwrap();
        let x = ops.last();
        assert(supported(ops[ops.len() - 1]) && conditional_count(ops[ops.len() - 1]) < f);
        let name = temp_name(conditional_prefix(), next_count(prev.2));
        let binding = NodeSpec::Binding { name, binding: Box::new(x) };
        lemma_one_child(binding, x);
        lemma_extracted_reaches(binding, next_count(prev.2), (f - 1) as nat);
        let b = conditionals_extracted(binding, next_count(prev.2), (f - 1) as nat).unwrap();
        let r = operands_bound(ops, c, f).unwrap();
        let v = typed_variable(name, node_type(x));
        lemma_variable(name, node_type(x));
        assert(r.0 == prev.0.push(v));
        assert(r.1 == prev.1.push(b.0));
        lemma_count_push(prev.1, b.0);
        lemma_count_push(t, x);
        assert(t.push(x) =~= ops);
        assert forall|i: int| 0 <= i < ops.len() implies conditional_count(#[trigger] r.0[i]) == 0
            && supported(r.0[i]) && !(r.0[i] is Conditional) by {
            if i < ops.len() - 1 {
                assert(r.0[i] == prev.0[i]);
            }
        }
        assert forall|i: int| 0 <= i < r.1.len() implies supported(#[trigger] r.1[i]) by {
            if i < prev.1.len() {
                assert(r.1[i] == prev.1[i]);
            }
        }
    }
}

/// Lifting the conditional operands among supported operands reaches supported operands and
/// temporaries with no more conditionals in all.
pub proof fn lemma_operands_lifted_reach(ops: Seq<NodeSpec>, c: nat, f: nat)
    requires
        forall|i: int| 0 <= i < ops.len() ==> supported(#[trigger] ops[i]),
        forall|i: int| 0 <= i < ops.len() ==> conditional_count(#[trigger] ops[i]) <= f,
    ensures
        conditional_operands_lifted(ops, c, f) matches Some(p) && p.0.len() == ops.len()
            && conditional_count_seq(p.0) + conditional_count_seq(p.1) <= conditional_count_seq(ops)
            && (forall|i: int| 0 <= i < p.0.len() ==> supported(#[trigger] p.0[i])) && (forall|i: int|
            0 <= i < p.1.len() ==> supported(#[trigger] p.1[i])),
    decreases f, 0nat, ops.len(),
{
    if ops.len() > 0 {
        let t = ops.drop_last();
        assert forall|i: int| 0 <= i < t.len() implies supported(#[trigger] t[i]) && conditional_count(
            t[i],
        ) <= f by {
            assert(t[i] == ops[i]);
        }
        lemma_operands_lifted_reach(t, c, f);
        let prev = conditional_operands_lifted(t, c, f).unwrap();
        let x = ops.last();
        assert(supported(ops[ops.len() - 1]) && conditional_count(ops[ops.len() - 1]) <= f);
        lemma_count_push(t, x);
        assert(t.push(x) =~= ops);
        let r = conditional_operands_lifted(ops, c, f).unwrap();
        if x is Conditional {
            let name = temp_name(conditional_prefix(), next_count(prev.2));
            let variable = typed_variable(name, node_type(x));
            lemma_variable(name, node_type(x));
            lemma_branches_reach(x, variable, false, next_count(prev.2), f);
            let assigned = branches_assigned(x, variable, false, next_count(prev.2), f).unwrap().0;
            let declaration = empty_binding(name, node_type(x));
            lemma_declaration(name, node_type(x));
            assert(r.0 == prev.0.push(variable));
            assert(r.1 == prev.1.push(declaration).push(assigned));
            lemma_count_push(prev.0, variable);
            lemma_count_push(prev.1, declaration);
            lemma_count_push(prev.1.push(declaration), assigned);
            assert forall|i: int| 0 <= i < r.0.len() implies supported(#[trigger] r.0[i]) by {
                if i < prev.0.len() {
                    assert(r.0[i] == prev.0[i]);
                }
            }
            assert forall|i: int| 0 <= i < r.1.len() implies supported(#[trigger] r.1[i]) by {
                if i < prev.1.len() {
                    assert(r.1[i] == prev.1[i]);
                } else if i == prev.1.len() {
                    assert(r.1[i] == declaration);
                } else {
                    assert(r.1[i] == assigned);
                }
            }
        } else {
            assert(r.0 == prev.0.push(x));
            assert(r.1 == prev.1);
            lemma_count_push(prev.0, x);
            assert forall|i: int| 0 <= i < r.0.len() implies supported(#[trigger] r.0[i]) by {
                if i < prev.0.len() {
                    assert(r.0[i] == prev.0[i]);
                }
            }
        }
    }
}

/// A call counts the conditionals of its operator and operands, and is supported when they
/// are.
proof fn lemma_call_node(operator: NodeSpec, operands: Seq<NodeSpec>, typ: TypeSpec)
    requires
        supported(operator),
        forall|i: int| 0 <= i < operands.len() ==> supported(#[trigger] operands[i]),
    ensures
        conditional_count(NodeSpec::Call { operator: Box::new(operator), operands, typ })
            == conditional_count(operator) + conditional_count_seq(operands),
        supported(NodeSpec::Call { operator: Box::new(operator), operands, typ }),
{
    let m = NodeSpec::Call { operator: Box::new(operator), operands, typ };
    lemma_count_append(seq![operator], operands);
    lemma_count_pair(operator, operator);
    assert forall|i: int| 0 <= i < children(m).len() implies supported(#[trigger] children(m)[i]) by {
        if i > 0 {
            assert(children(m)[i] == operands[i - 1]);
        }
    }
    lemma_supported_from_children(m);
}

/// A sequence of two supported trees counts theirs and is supported.
proof fn lemma_two_nodes(mode: SequenceMode, a: NodeSpec, b: NodeSpec)
    requires
        supported(a),
        supported(b),
    ensures
        conditional_count(new_sequence(mode, seq![a, b])) == conditional_count(a) + conditional_count(b),
        supported(new_sequence(mode, seq![a, b])),
        new_sequence(mode, seq![a, b]) is Sequence,
{
    let m = new_sequence(mode, seq![a, b]);
    lemma_count_pair(a, b);
    assert forall|i: int| 0 <= i < children(m).len() implies supported(#[trigger] children(m)[i]) by {
        if i == 0 {
            assert(children(m)[i] == a);
        } else {
            assert(children(m)[i] == b);
        }
    }
    lemma_supported_from_children(m);
}

/// Calling through a supported conditional operator on supported operands reaches a
/// supported sequence with no more conditionals.
pub proof fn lemma_call_reach(cnd: NodeSpec, operands: Seq<NodeSpec>, typ: TypeSpec, c: nat, f: nat)
    requires
        cnd is Conditional,
        supported(cnd),
        forall|i: int| 0 <= i < operands.len() ==> supported(#[trigger] operands[i]),
        conditional_count(cnd) + conditional_count_seq(operands) <= f,
    ensures
        conditional_call(cnd, operands, typ, c, f) matches Some(p) && conditional_count(p.0)
            <= conditional_count(cnd) + conditional_count_seq(operands) && supported(p.0) && !(
        p.0 is Conditional),
    decreases f, 0nat, operands.len() + 1,
{
    lemma_supported_children(cnd);
    let condition = *cnd->Conditional_condition;
    let then_branch = *cnd->Conditional_then_branch;
    let else_branch = *cnd->Conditional_else_branch;
    assert(children(cnd) == seq![condition, then_branch, else_branch]);
    lemma_count_triple(condition, then_branch, else_branch);
    assert(children(cnd)[0] == condition && children(cnd)[1] == then_branch && children(cnd)[2]
        == else_branch);
    assert forall|i: int| 0 <= i < operands.len() implies conditional_count(#[trigger] operands[i]) < f by {
        lemma_count_element(operands, i);
    }
    lemma_bound_reach(operands, c, f);
    let b = operands_bound(operands, c, f).unwrap();
    let variables = b.0;
    let bindings = b.1;
    let c1 = b.2;
    lemma_count_zero(variables);
    let condition_name = temp_name(conditional_prefix(), next_count(c1));
    let result_name = temp_name(conditional_prefix(), next_count(next_count(c1)));
    let result = typed_variable(result_name, typ);
    lemma_variable(result_name, typ);
    let then_inner = NodeSpec::Call { operator: Box::new(then_branch), operands: variables, typ: TypeSpec::Unknown };
    let else_inner = NodeSpec::Call { operator: Box::new(else_branch), operands: variables, typ: TypeSpec::Unknown };
    lemma_call_node(then_branch, variables, TypeSpec::Unknown);
    lemma_call_node(else_branch, variables, TypeSpec::Unknown);
    let then_call = NodeSpec::Assign { lhs: Box::new(result), rhs: Box::new(then_inner) };
    let else_call = NodeSpec::Assign { lhs: Box::new(result), rhs: Box::new(else_inner) };
    lemma_two_children(then_call, result, then_inner);
    lemma_two_children(else_call, result, else_inner);
    let condition_variable = typed_variable(condition_name, node_type(condition));
    lemma_variable(condition_name, node_type(condition));
    let new_conditional = NodeSpec::Conditional {
        condition: Box::new(condition_variable),
        then_branch: Box::new(then_call),
        else_branch: Box::new(else_call),
        typ: TypeSpec::Unknown,
    };
    assert(children(new_conditional) == seq![condition_variable, then_call, else_call]);
    lemma_count_triple(condition_variable, then_call, else_call);
    assert forall|i: int| 0 <= i < children(new_conditional).len() implies supported(
        #[trigger] children(new_conditional)[i],
    ) by {
        if i == 0 {
            assert(children(new_conditional)[i] == condition_variable);
        } else if i == 1 {
            assert(children(new_conditional)[i] == then_call);
        } else {
            assert(children(new_conditional)[i] == else_call);
        }
    }
    lemma_supported_from_children(new_conditional);
    let bind_condition = NodeSpec::Binding { name: condition_name, binding: Box::new(condition) };
    lemma_one_child(bind_condition, condition);
    let declaration = empty_binding(result_name, typ);
    lemma_declaration(result_name, typ);
    let tail = seq![declaration, new_conditional, result];
    lemma_count_triple(declaration, new_conditional, result);
    let nodes = seq![bind_condition] + bindings + tail;
    lemma_count_append(seq![bind_condition], bindings);
    lemma_count_append(seq![bind_condition] + bindings, tail);
    lemma_count_pair(bind_condition, bind_condition);
    assert forall|i: int| 0 <= i < nodes.len() implies supported(#[trigger] nodes[i]) by {
        if i == 0 {
            assert(nodes[i] == bind_condition);
        } else if i <= bindings.len() {
            assert(nodes[i] == bindings[i - 1]);
        } else if i == bindings.len() + 1 {
            assert(nodes[i] == declaration);
        } else if i == bindings.len() + 2 {
            assert(nodes[i] == new_conditional);
        } else {
            assert(nodes[i] == result);
        }
    }
    lemma_sequence_node(SequenceMode::Scope, nodes, crate::ast::sequence_type(nodes));
}

/// An assignment with a supported conditional side reaches a supported sequence with no
/// more conditionals.
pub proof fn lemma_assignment_reach(lhs: NodeSpec, rhs: NodeSpec, c: nat, f: nat)
    requires
        supported(lhs),
        supported(rhs),
        lhs is Conditional || rhs is Conditional,
        conditional_count(lhs) + conditional_count(rhs) <= f,
    ensures
        conditional_assignment(lhs, rhs, c, f) matches Some(p) && conditional_count(p.0)
            <= conditional_count(lhs) + conditional_count(rhs) && supported(p.0) && !(p.0 is Conditional),
    decreases f, 0nat, 1nat,
{
    let name = temp_name(conditional_prefix(), next_count(c));
    let temp_type = reference_type(node_type(lhs));
    let temp = typed_variable(name, temp_type);
    lemma_variable(name, temp_type);
    let dt = dereference(temp);
    assert(children(dt) == seq![temp]);
    lemma_one_child(dt, temp);
    let declaration = empty_binding(name, temp_type);
    lemma_declaration(name, temp_type);
    if lhs is Conditional && rhs is Conditional {
        lemma_branches_reach(lhs, temp, true, next_count(c), f);
        let la = branches_assigned(lhs, temp, true, next_count(c), f).unwrap();
        lemma_branches_reach(rhs, dt, false, la.1, f);
        let ra = branches_assigned(rhs, dt, false, la.1, f).unwrap();
        lemma_three_nodes(SequenceMode::Scope, declaration, la.0, ra.0);
    } else if lhs is Conditional {
        lemma_branches_reach(lhs, temp, true, next_count(c), f);
        let la = branches_assigned(lhs, temp, true, next_count(c), f).unwrap();
        let using = NodeSpec::Assign { lhs: Box::new(dt), rhs: Box::new(rhs) };
        lemma_two_children(using, dt, rhs);
        lemma_three_nodes(SequenceMode::Scope, declaration, la.0, using);
    } else {
        lemma_branches_reach(rhs, dt, false, next_count(c), f);
        let ra = branches_assigned(rhs, dt, false, next_count(c), f).unwrap();
        let reference = mutable_reference(lhs);
        lemma_one_child(reference, lhs);
        let bind_temp = NodeSpec::Binding { name, binding: Box::new(reference) };
        lemma_one_child(bind_temp, reference);
        lemma_two_nodes(SequenceMode::Scope, bind_temp, ra.0);
    }
}

/// A sequence with a value whose final node is a supported conditional reaches a supported
/// sequence with no more conditionals.
pub proof fn lemma_final_reach(mode: SequenceMode, nodes: Seq<NodeSpec>, typ: TypeSpec, c: nat, f: nat)
    requires
        nodes.len() > 0,
        nodes.last() is Conditional,
        forall|i: int| 0 <= i < nodes.len() ==> supported(#[trigger] nodes[i]),
        conditional_count_seq(nodes) <= f,
    ensures
        final_conditional_lifted(mode, nodes, typ, c, f) matches Some(p) && conditional_count(p.0)
            <= conditional_count_seq(nodes) && supported(p.0) && !(p.0 is Conditional),
    decreases f, 0nat, 1nat,
{
    let t = nodes.last();
    assert(supported(nodes[nodes.len() - 1]));
    lemma_count_element(nodes, nodes.len() - 1);
    let name = temp_name(conditional_prefix(), next_count(c));
    let variable = typed_variable(name, node_type(t));
    lemma_variable(name, node_type(t));
    lemma_branches_reach(t, variable, false, next_count(c), f);
    let assigned = branches_assigned(t, variable, false, next_count(c), f).unwrap();
    let rest = nodes.drop_last().push(assigned.0);
    lemma_count_push(nodes.drop_last(), assigned.0);
    assert forall|i: int| 0 <= i < rest.len() implies supported(#[trigger] rest[i]) by {
        if i < nodes.len() - 1 {
            assert(rest[i] == nodes[i]);
        }
    }
    lemma_sequence_node(mode, rest, typ);
    let using = NodeSpec::Sequence { mode, nodes: rest, typ };
    let declaration = empty_binding(name, node_type(t));
    lemma_declaration(name, node_type(t));
    lemma_three_nodes(SequenceMode::Transparent, declaration, using, variable);
}

/// The exit step on a supported node reaches a supported tree with no more conditionals,
/// which is a conditional only where the node is.
pub proof fn lemma_exit_reaches(m: NodeSpec, c: nat, f: nat)
    requires
        supported(m),
        conditional_count(m) <= f,
    ensures
        reaches(conditional_exit(m, c, f), conditional_count(m)),
        conditional_exit(m, c, f) matches Some(p) ==> (p.0 is Conditional ==> m is Conditional),
    decreases f, 0nat, children(m).len() + 3,
{
    lemma_supported_children(m);
    match m {
        NodeSpec::Call { operator, operands, typ } => {
            assert(children(m) == seq![*operator] + operands);
            assert(children(m)[0] == *operator);
            assert forall|i: int| 0 <= i < operands.len() implies supported(#[trigger] operands[i]) by {
                assert(children(m)[i + 1] == operands[i]);
            }
            lemma_call_node(*operator, operands, typ);
            if *operator is Conditional {
                lemma_call_reach(*operator, operands, typ, c, f);
            } else {
                assert forall|i: int| 0 <= i < operands.len() implies conditional_count(
                    #[trigger] operands[i],
                ) <= f by {
                    lemma_count_element(operands, i);
                }
                lemma_operands_lifted_reach(operands, c, f);
                let r = conditional_operands_lifted(operands, c, f).unwrap();
                let call = NodeSpec::Call { operator, operands: r.0, typ };
                lemma_call_node(*operator, r.0, typ);
                if r.1.len() > 0 {
                    let nodes = r.1.push(call);
                    lemma_count_push(r.1, call);
                    assert forall|i: int| 0 <= i < nodes.len() implies supported(#[trigger] nodes[i]) by {
                        if i < r.1.len() {
                            assert(nodes[i] == r.1[i]);
                        }
                    }
                    lemma_sequence_node(SequenceMode::Scope, nodes, crate::ast::sequence_type(nodes));
                }
            }
        },
        NodeSpec::Assign { lhs, rhs } => {
            assert(children(m) == seq![*lhs, *rhs]);
            assert(children(m)[0] == *lhs && children(m)[1] == *rhs);
            lemma_two_children(m, *lhs, *rhs);
            if *lhs is Conditional || *rhs is Conditional {
                lemma_assignment_reach(*lhs, *rhs, c, f);
            }
        },
        NodeSpec::Sequence { mode, nodes, typ } => {
            assert(children(m) == nodes);
            if nodes.len() > 0 && nodes.last() is Conditional && typ != TypeSpec::Void {
                lemma_final_reach(mode, nodes, typ, c, f);
            }
        },
        NodeSpec::Conditional { .. } => {},
        _ => {
            if lifted_target(m) && children(m)[0] is Conditional {
                lemma_lifted_reach(m, c, f);
            }
        },
    }
}

/// The pass applies to every program in which no conditional has a conditional as its
/// condition: a depth of re-handling as large as the number of conditionals suffices.
pub proof fn lemma_pass_applies_without_nested_conditions(root: NodeSpec)
    requires
        forall|i: int| 0 <= i < children(root).len() ==> supported(#[trigger] children(root)[i]),
    ensures
        pass_applies(root),
{
    let cs = children(root);
    lemma_extracted_seq_reaches(cs, 0, conditional_count_seq(cs));
    assert(conditionals_extracted_seq(cs, 0, conditional_count_seq(cs)) is Some);
}

} // verus!

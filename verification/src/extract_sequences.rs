//! Extraction of sequences: a sequence that stands where a value is used (an operand, an
//! operator, the target of a reference or dereference, a bound value, the right-hand side of
//! an assignment, the final node of a sequence with a value) is moved before its use. Its
//! final node is assigned to a new temporary variable, which takes its place:
//!
//! ```text
//! (F {... a} b)   =>   /  let t = Nothing
//!                         {... (t = a)}
//!                         (F t b)  \
//! ```
//!
//! The assignment `(t = a)` that the extraction builds is itself handled again, which can
//! extract further sequences. A conditional whose condition is a sequence is not handled,
//! and neither is an empty sequence in a place of use: the pass does not apply to such
//! trees.
use vstd::prelude::*;
use crate::ast::{
    group_ast_views, lemma_nodes_view, new_sequence, node_type, nodes_view, Node, NodeSpec,
    SequenceMode, Type, TypeSpec,
};
use crate::names::{next_count, temp_name, TempNameGenerator};
use crate::tree::{
    children, fits, lemma_children_smaller, lemma_fits_children, lemma_size_seq_element,
    put_children, size, size_seq, take_children, tree_all, lemma_with_own_children, lemma_tree_all_seq, lemma_tree_all_children, with_children,
};

verus! {

broadcast use group_ast_views;

/// The prefix of the temporary variables of this pass.
pub open spec fn sequence_prefix() -> Seq<char> {
    seq!['x', 's', 'e', 'q']
}

/// A temporary variable of the given type.
pub open spec fn temp_variable(name: Seq<char>, typ: TypeSpec) -> NodeSpec {
    NodeSpec::Variable { name, typ }
}

/// The declaration of a temporary variable, bound to nothing yet.
pub open spec fn temp_declaration(name: Seq<char>, typ: TypeSpec) -> NodeSpec {
    NodeSpec::Binding { name, binding: Box::new(NodeSpec::Nothing { typ }) }
}

/// Extraction of the sequence `t` into the temporary `name`: the declaration of the
/// temporary, and `t` with its final node `a` replaced by `(name = a)` (handled again), with
/// the count of names drawn after it; `None` where the pass does not apply (an empty
/// sequence) or `fuel` does not reach.
pub open spec fn parts_lifted(t: NodeSpec, name: Seq<char>, c: nat, fuel: nat) -> Option<
    (NodeSpec, NodeSpec, nat),
>
    decreases fuel, 0nat, 0nat,
{
    match t {
        NodeSpec::Sequence { mode, nodes, typ } => {
            if nodes.len() == 0 || fuel == 0 {
                None
            } else {
                let assignment = NodeSpec::Assign {
                    lhs: Box::new(temp_variable(name, typ)),
                    rhs: Box::new(nodes.last()),
                };
                match extracted(assignment, c, (fuel - 1) as nat) {
                    Some((a, c2)) => Some(
                        (
                            temp_declaration(name, typ),
                            NodeSpec::Sequence { mode, nodes: nodes.drop_last().push(a), typ },
                            c2,
                        ),
                    ),
                    None => None,
                }
            }
        },
        _ => None,
    }
}

/// The tree `n` after the pass (its children first, then the node itself), with the count of
/// temporary names drawn after it (`c` before); `None` where the pass does not apply or
/// `fuel` (the depth of nested re-handling) does not reach.
pub open spec fn extracted(n: NodeSpec, c: nat, fuel: nat) -> Option<(NodeSpec, nat)>
    decreases fuel, size(n), 0nat,
{
    proof {
        lemma_children_smaller(n);
    }
    match extracted_seq(children(n), c, fuel) {
        Some((cs, c1)) => exit_extracted(with_children(n, cs), c1, fuel),
        None => None,
    }
}

/// [`extracted`] of each tree of a sequence, in order.
pub open spec fn extracted_seq(s: Seq<NodeSpec>, c: nat, fuel: nat) -> Option<
    (Seq<NodeSpec>, nat),
>
    decreases fuel, size_seq(s), 1nat,
{
    if s.len() == 0 {
        Some((s, c))
    } else {
        proof {
            lemma_size_seq_element(s, s.len() - 1);
        }
        match extracted_seq(s.drop_last(), c, fuel) {
            Some((done, c1)) => match extracted(s.last(), c1, fuel) {
                Some((x, c2)) => Some((done.push(x), c2)),
                None => None,
            },
            None => None,
        }
    }
}

/// The operands `ops`, each sequence among them replaced by a temporary: the new operands,
/// the declarations and extracted sequences of the temporaries (in order), and the count
/// after them.
pub open spec fn operands_lifted(ops: Seq<NodeSpec>, c: nat, fuel: nat) -> Option<
    (Seq<NodeSpec>, Seq<NodeSpec>, nat),
>
    decreases fuel, 0nat, ops.len(),
{
    if ops.len() == 0 {
        Some((ops, Seq::empty(), c))
    } else {
        match operands_lifted(ops.drop_last(), c, fuel) {
            Some((done, temps, c1)) => {
                let x = ops.last();
                if x is Sequence {
                    let name = temp_name(sequence_prefix(), next_count(c1));
                    match parts_lifted(x, name, next_count(c1), fuel) {
                        Some((declaration, assignment, c2)) => Some(
                            (
                                done.push(temp_variable(name, node_type(x))),
                                temps.push(declaration).push(assignment),
                                c2,
                            ),
                        ),
                        None => None,
                    }
                } else {
                    Some((done.push(x), temps, c1))
                }
            },
            None => None,
        }
    }
}

/// The child of `m` at `k`, a sequence, extracted into a new temporary: a transparent
/// sequence of the temporary's declaration, the extracted sequence, and `m` with the
/// temporary in place of the child.
pub open spec fn child_lifted(m: NodeSpec, k: int, c: nat, fuel: nat) -> Option<(NodeSpec, nat)>
    decreases fuel, 0nat, 1nat,
{
    if 0 <= k < children(m).len() {
        let t = children(m)[k];
        let name = temp_name(sequence_prefix(), next_count(c));
        match parts_lifted(t, name, next_count(c), fuel) {
            Some((declaration, assignment, c2)) => {
                let using = with_children(m, children(m).update(k, temp_variable(name, node_type(t))));
                Some((new_sequence(SequenceMode::Transparent, seq![declaration, assignment, using]), c2))
            },
            None => None,
        }
    } else {
        None
    }
}

/// The index of the child of `m` that must not be a sequence, for nodes with one such
/// child: the target of a reference or dereference, the bound value, the right-hand side of
/// an assignment, the final node of a sequence that has a value.
pub open spec fn lifted_child(m: NodeSpec) -> Option<int> {
    match m {
        NodeSpec::Reference { .. } | NodeSpec::Dereference { .. } | NodeSpec::Binding { .. } => Some(0),
        NodeSpec::Assign { .. } => Some(1),
        NodeSpec::Sequence { nodes, typ, .. } => if typ != TypeSpec::Void && nodes.len() > 0 {
            Some(nodes.len() - 1)
        } else {
            None
        },
        _ => None,
    }
}

/// A node after its children: sequences where values are used are extracted before it.
pub open spec fn exit_extracted(m: NodeSpec, c: nat, fuel: nat) -> Option<(NodeSpec, nat)>
    decreases fuel, 0nat, children(m).len() + 2,
{
    match m {
        NodeSpec::Call { operator, operands, typ } => match operands_lifted(operands, c, fuel) {
            Some((new_operands, temps, c1)) => {
                if *operator is Sequence {
                    let name = temp_name(sequence_prefix(), next_count(c1));
                    match parts_lifted(*operator, name, next_count(c1), fuel) {
                        Some((declaration, assignment, c2)) => {
                            let call = NodeSpec::Call {
                                operator: Box::new(temp_variable(name, node_type(*operator))),
                                operands: new_operands,
                                typ,
                            };
                            Some(
                                (
                                    new_sequence(
                                        SequenceMode::Transparent,
                                        seq![declaration, assignment] + temps.push(call),
                                    ),
                                    c2,
                                ),
                            )
                        },
                        None => None,
                    }
                } else if temps.len() > 0 {
                    let call = NodeSpec::Call { operator, operands: new_operands, typ };
                    Some((new_sequence(SequenceMode::Transparent, temps.push(call)), c1))
                } else {
                    Some((NodeSpec::Call { operator, operands: new_operands, typ }, c1))
                }
            },
            None => None,
        },
        NodeSpec::Conditional { condition, .. } => if *condition is Sequence {
            None
        } else {
            Some((m, c))
        },
        _ => match lifted_child(m) {
            Some(k) => if children(m)[k] is Sequence {
                child_lifted(m, k, c, fuel)
            } else {
                Some((m, c))
            },
            None => Some((m, c)),
        },
    }
}

/// [`extracted_seq`] is defined on every prefix of a sequence on which it is defined.
pub proof fn lemma_extracted_seq_prefix(s: Seq<NodeSpec>, c: nat, fuel: nat, i: int)
    requires
        extracted_seq(s, c, fuel) is Some,
        0 <= i <= s.len(),
    ensures
        extracted_seq(s.take(i), c, fuel) is Some,
    decreases s.len(),
{
    if i == s.len() {
        assert(s.take(i) =~= s);
    } else {
        assert(s.drop_last().take(i) =~= s.take(i));
        lemma_extracted_seq_prefix(s.drop_last(), c, fuel, i);
    }
}

/// [`operands_lifted`] is defined on every prefix of a list on which it is defined.
pub proof fn lemma_operands_lifted_prefix(s: Seq<NodeSpec>, c: nat, fuel: nat, i: int)
    requires
        operands_lifted(s, c, fuel) is Some,
        0 <= i <= s.len(),
    ensures
        operands_lifted(s.take(i), c, fuel) is Some,
    decreases s.len(),
{
    if i == s.len() {
        assert(s.take(i) =~= s);
    } else {
        assert(s.drop_last().take(i) =~= s.take(i));
        lemma_operands_lifted_prefix(s.drop_last(), c, fuel, i);
    }
}

/// The extracted sequence has as many trees as the given one.
pub proof fn lemma_extracted_seq_len(s: Seq<NodeSpec>, c: nat, fuel: nat)
    requires
        extracted_seq(s, c, fuel) is Some,
    ensures
        extracted_seq(s, c, fuel).unwrap().0.len() == s.len(),
    decreases s.len(),
{
    if s.len() > 0 {
        lemma_extracted_seq_len(s.drop_last(), c, fuel);
    }
}

/// Whether no value that a node uses directly is a sequence: the operator and operands of a
/// call, the target of a reference or dereference, the bound value of a binding, the
/// right-hand side of an assignment.
pub open spec fn uses_no_sequence(n: NodeSpec) -> bool {
    match n {
        NodeSpec::Call { operator, operands, .. } => !(*operator is Sequence) && forall|i: int|
            0 <= i < operands.len() ==> !(#[trigger] operands[i] is Sequence),
        NodeSpec::Reference { target, .. } => !(*target is Sequence),
        NodeSpec::Dereference { target, .. } => !(*target is Sequence),
        NodeSpec::Binding { binding, .. } => !(*binding is Sequence),
        NodeSpec::Assign { rhs, .. } => !(*rhs is Sequence),
        _ => true,
    }
}

/// Whether no node of a tree uses a sequence directly as a value.
pub open spec fn sequences_extracted_everywhere(n: NodeSpec) -> bool {
    tree_all(n, |m: NodeSpec| uses_no_sequence(m))
}

/// A node that uses no sequence directly, with children in which none does, has none
/// anywhere.
pub proof fn lemma_everywhere_from_children(m: NodeSpec)
    requires
        uses_no_sequence(m),
        forall|i: int| 0 <= i < children(m).len() ==> sequences_extracted_everywhere(
            #[trigger] children(m)[i],
        ),
    ensures
        sequences_extracted_everywhere(m),
{
    lemma_tree_all_seq(children(m), |x: NodeSpec| uses_no_sequence(x));
}

/// The children of a tree in which no node uses a sequence directly have none either.
pub proof fn lemma_everywhere_children(m: NodeSpec)
    requires
        sequences_extracted_everywhere(m),
    ensures
        uses_no_sequence(m),
        forall|i: int| 0 <= i < children(m).len() ==> sequences_extracted_everywhere(
            #[trigger] children(m)[i],
        ),
{
    lemma_tree_all_children(m, |x: NodeSpec| uses_no_sequence(x));
}

/// A new transparent sequence of trees in which no node uses a sequence directly has none.
pub proof fn lemma_everywhere_new_sequence(s: Seq<NodeSpec>)
    requires
        forall|i: int| 0 <= i < s.len() ==> sequences_extracted_everywhere(#[trigger] s[i]),
    ensures
        sequences_extracted_everywhere(new_sequence(SequenceMode::Transparent, s)),
{
    let q = new_sequence(SequenceMode::Transparent, s);
    assert(children(q) == s);
    lemma_everywhere_from_children(q);
}

/// After the pass, no node of a tree uses a sequence directly as a value.
pub proof fn lemma_extracted_everywhere(n: NodeSpec, c: nat, fuel: nat)
    requires
        extracted(n, c, fuel) is Some,
    ensures
        sequences_extracted_everywhere(extracted(n, c, fuel).unwrap().0),
    decreases fuel, size(n), 0nat,
{
    lemma_children_smaller(n);
    let cs = children(n);
    let r = extracted_seq(cs, c, fuel).unwrap();
    lemma_extracted_seq_everywhere(cs, c, fuel);
    lemma_extracted_seq_len(cs, c, fuel);
    lemma_fits_children(n);
    let m = with_children(n, r.0);
    crate::flatten_definitions::lemma_children_of_with_children(n, r.0);
    lemma_exit_everywhere(m, r.1, fuel);
}

/// [`lemma_extracted_everywhere`] for each tree of a sequence.
pub proof fn lemma_extracted_seq_everywhere(s: Seq<NodeSpec>, c: nat, fuel: nat)
    requires
        extracted_seq(s, c, fuel) is Some,
    ensures
        forall|i: int| 0 <= i < extracted_seq(s, c, fuel).unwrap().0.len()
            ==> sequences_extracted_everywhere(#[trigger] extracted_seq(s, c, fuel).unwrap().0[i]),
    decreases fuel, size_seq(s), 1nat,
{
    if s.len() > 0 {
        lemma_size_seq_element(s, s.len() - 1);
        lemma_extracted_seq_everywhere(s.drop_last(), c, fuel);
        let r = extracted_seq(s.drop_last(), c, fuel).unwrap();
        lemma_extracted_everywhere(s.last(), r.1, fuel);
    }
}

/// Extracting a sequence in which no node uses a sequence directly gives a declaration and
/// a sequence in which none does either.
pub proof fn lemma_parts_everywhere(t: NodeSpec, name: Seq<char>, c: nat, fuel: nat)
    requires
        sequences_extracted_everywhere(t),
        parts_lifted(t, name, c, fuel) is Some,
    ensures
        sequences_extracted_everywhere(parts_lifted(t, name, c, fuel).unwrap().0),
        sequences_extracted_everywhere(parts_lifted(t, name, c, fuel).unwrap().1),
    decreases fuel, 0nat, 0nat,
{
    let nodes = t->Sequence_nodes;
    let typ = t->Sequence_typ;
    let assignment = NodeSpec::Assign {
        lhs: Box::new(temp_variable(name, typ)),
        rhs: Box::new(nodes.last()),
    };
    lemma_extracted_everywhere(assignment, c, (fuel - 1) as nat);
    let a = extracted(assignment, c, (fuel - 1) as nat).unwrap().0;
    let r = parts_lifted(t, name, c, fuel).unwrap();
    let nothing = NodeSpec::Nothing { typ };
    assert(children(nothing) =~= Seq::<NodeSpec>::empty());
    lemma_everywhere_from_children(nothing);
    assert(children(r.0) == seq![nothing]);
    lemma_everywhere_from_children(r.0);
    lemma_everywhere_children(t);
    let new_nodes = nodes.drop_last().push(a);
    assert(children(r.1) == new_nodes);
    assert forall|i: int| 0 <= i < new_nodes.len() implies sequences_extracted_everywhere(
        #[trigger] new_nodes[i],
    ) by {
        if i < new_nodes.len() - 1 {
            assert(new_nodes[i] == children(t)[i]);
        }
    }
    lemma_everywhere_from_children(r.1);
}

/// Lifting operands in which no node uses a sequence directly gives operands that are not
/// sequences, and temporaries and operands in which no node uses a sequence directly.
pub proof fn lemma_operands_everywhere(ops: Seq<NodeSpec>, c: nat, fuel: nat)
    requires
        forall|i: int| 0 <= i < ops.len() ==> sequences_extracted_everywhere(#[trigger] ops[i]),
        operands_lifted(ops, c, fuel) is Some,
    ensures
        operands_lifted(ops, c, fuel).unwrap().0.len() == ops.len(),
        forall|i: int| 0 <= i < ops.len() ==> !(#[trigger] operands_lifted(ops, c, fuel).unwrap().0[i] is Sequence),
        forall|i: int| 0 <= i < ops.len() ==> sequences_extracted_everywhere(
            #[trigger] operands_lifted(ops, c, fuel).unwrap().0[i],
        ),
        forall|i: int| 0 <= i < operands_lifted(ops, c, fuel).unwrap().1.len()
            ==> sequences_extracted_everywhere(#[trigger] operands_lifted(ops, c, fuel).unwrap().1[i]),
    decreases fuel, 0nat, ops.len(),
{
    if ops.len() > 0 {
        assert forall|i: int| 0 <= i < ops.len() - 1 implies sequences_extracted_everywhere(
            #[trigger] ops.drop_last()[i],
        ) by {
            assert(ops.drop_last()[i] == ops[i]);
        }
        lemma_operands_everywhere(ops.drop_last(), c, fuel);
        let prev = operands_lifted(ops.drop_last(), c, fuel).unwrap();
        let r = operands_lifted(ops, c, fuel).unwrap();
        let x = ops.last();
        assert(sequences_extracted_everywhere(x));
        if x is Sequence {
            let name = temp_name(sequence_prefix(), next_count(prev.2));
            lemma_parts_everywhere(x, name, next_count(prev.2), fuel);
            let v = temp_variable(name, node_type(x));
            assert(children(v) =~= Seq::<NodeSpec>::empty());
            lemma_everywhere_from_children(v);
            assert forall|i: int| 0 <= i < r.1.len() implies sequences_extracted_everywhere(
                #[trigger] r.1[i],
            ) by {
                if i < prev.1.len() {
                    assert(r.1[i] == prev.1[i]);
                }
            }
        }
        assert forall|i: int| 0 <= i < ops.len() implies !(#[trigger] r.0[i] is Sequence)
            && sequences_extracted_everywhere(r.0[i]) by {
            if i < ops.len() - 1 {
                assert(r.0[i] == prev.0[i]);
            }
        }
    }
}

/// Lifting a child of a node whose other children have no node that uses a sequence
/// directly gives a tree with no such node.
pub proof fn lemma_child_everywhere(m: NodeSpec, k: int, c: nat, fuel: nat)
    requires
        forall|i: int| 0 <= i < children(m).len() ==> sequences_extracted_everywhere(
            #[trigger] children(m)[i],
        ),
        lifted_child(m) == Some(k),
        child_lifted(m, k, c, fuel) is Some,
    ensures
        sequences_extracted_everywhere(child_lifted(m, k, c, fuel).unwrap().0),
    decreases fuel, 0nat, 1nat,
{
    let t = children(m)[k];
    let name = temp_name(sequence_prefix(), next_count(c));
    lemma_parts_everywhere(t, name, next_count(c), fuel);
    let parts = parts_lifted(t, name, next_count(c), fuel).unwrap();
    let v = temp_variable(name, node_type(t));
    assert(children(v) =~= Seq::<NodeSpec>::empty());
    lemma_everywhere_from_children(v);
    let new_children = children(m).update(k, v);
    lemma_fits_children(m);
    crate::flatten_definitions::lemma_children_of_with_children(m, new_children);
    let using = with_children(m, new_children);
    assert(uses_no_sequence(using)) by {
        assert(children(using)[k] == v);
        match m {
            NodeSpec::Assign { .. } => {
                assert(children(using)[1] == v);
            },
            _ => {},
        }
    }
    assert forall|i: int| 0 <= i < children(using).len() implies sequences_extracted_everywhere(
        #[trigger] children(using)[i],
    ) by {
        if i != k {
            assert(children(using)[i] == children(m)[i]);
        }
    }
    lemma_everywhere_from_children(using);
    let s = seq![parts.0, parts.1, using];
    assert forall|i: int| 0 <= i < s.len() implies sequences_extracted_everywhere(#[trigger] s[i]) by {}
    lemma_everywhere_new_sequence(s);
}

/// The exit step on a node whose children have no node that uses a sequence directly gives
/// a tree with no such node.
pub proof fn lemma_exit_everywhere(m: NodeSpec, c: nat, fuel: nat)
    requires
        forall|i: int| 0 <= i < children(m).len() ==> sequences_extracted_everywhere(
            #[trigger] children(m)[i],
        ),
        exit_extracted(m, c, fuel) is Some,
    ensures
        sequences_extracted_everywhere(exit_extracted(m, c, fuel).unwrap().0),
    decreases fuel, 0nat, children(m).len() + 2,
{
    match m {
        NodeSpec::Call { operator, operands, typ } => {
            assert(children(m) == seq![*operator] + operands);
            assert forall|i: int| 0 <= i < operands.len() implies sequences_extracted_everywhere(
                #[trigger] operands[i],
            ) by {
                assert(children(m)[i + 1] == operands[i]);
            }
            assert(sequences_extracted_everywhere(*operator)) by {
                assert(children(m)[0] == *operator);
            }
            lemma_operands_everywhere(operands, c, fuel);
            let lo = operands_lifted(operands, c, fuel).unwrap();
            if *operator is Sequence {
                let name = temp_name(sequence_prefix(), next_count(lo.2));
                lemma_parts_everywhere(*operator, name, next_count(lo.2), fuel);
                let parts = parts_lifted(*operator, name, next_count(lo.2), fuel).unwrap();
                let v = temp_variable(name, node_type(*operator));
                assert(children(v) =~= Seq::<NodeSpec>::empty());
                lemma_everywhere_from_children(v);
                let call = NodeSpec::Call { operator: Box::new(v), operands: lo.0, typ };
                assert(children(call) == seq![v] + lo.0);
                assert forall|i: int| 0 <= i < children(call).len() implies sequences_extracted_everywhere(
                    #[trigger] children(call)[i],
                ) by {
                    if i > 0 {
                        assert(children(call)[i] == lo.0[i - 1]);
                    }
                }
                lemma_everywhere_from_children(call);
                let s = seq![parts.0, parts.1] + lo.1.push(call);
                assert forall|i: int| 0 <= i < s.len() implies sequences_extracted_everywhere(
                    #[trigger] s[i],
                ) by {
                    if 2 <= i < s.len() - 1 {
                        assert(s[i] == lo.1[i - 2]);
                    }
                }
                lemma_everywhere_new_sequence(s);
            } else {
                let call = NodeSpec::Call { operator, operands: lo.0, typ };
                assert(children(call) == seq![*operator] + lo.0);
                assert forall|i: int| 0 <= i < children(call).len() implies sequences_extracted_everywhere(
                    #[trigger] children(call)[i],
                ) by {
                    if i > 0 {
                        assert(children(call)[i] == lo.0[i - 1]);
                    }
                }
                lemma_everywhere_from_children(call);
                if lo.1.len() > 0 {
                    let s = lo.1.push(call);
                    assert forall|i: int| 0 <= i < s.len() implies sequences_extracted_everywhere(
                        #[trigger] s[i],
                    ) by {
                        if i < s.len() - 1 {
                            assert(s[i] == lo.1[i]);
                        }
                    }
                    lemma_everywhere_new_sequence(s);
                }
            }
        },
        NodeSpec::Conditional { .. } => {
            lemma_everywhere_from_children(m);
        },
        _ => {
            match lifted_child(m) {
                Some(k) => {
                    if children(m)[k] is Sequence {
                        lemma_child_everywhere(m, k, c, fuel);
                    } else {
                        lemma_everywhere_from_children(m);
                    }
                },
                None => {
                    lemma_everywhere_from_children(m);
                },
            }
        },
    }
}

/// After the pass, no node below the root uses a sequence directly as a value: every
/// operand, operator, target, bound value and assigned value is something other than a
/// sequence.
pub proof fn lemma_pass_extracts_everywhere(root: NodeSpec)
    requires
        pass_applies(root),
    ensures
        forall|i: int| 0 <= i < children(sequences_extracted(root)).len()
            ==> sequences_extracted_everywhere(#[trigger] children(sequences_extracted(root))[i]),
{
    let fuel = pass_fuel(root);
    let cs = children(root);
    lemma_extracted_seq_everywhere(cs, 0, fuel);
    lemma_extracted_seq_len(cs, 0, fuel);
    lemma_fits_children(root);
    crate::flatten_definitions::lemma_children_of_with_children(
        root,
        extracted_seq(cs, 0, fuel).unwrap().0,
    );
}

/// A larger depth bound gives the same result wherever a smaller one gives one: the result of
/// the pass does not depend on the bound chosen.
pub proof fn lemma_extracted_fuel(n: NodeSpec, c: nat, fuel: nat, more: nat)
    requires
        extracted(n, c, fuel) is Some,
        fuel <= more,
    ensures
        extracted(n, c, more) == extracted(n, c, fuel),
    decreases fuel, size(n), 0nat,
{
    lemma_children_smaller(n);
    let cs = children(n);
    lemma_extracted_seq_fuel(cs, c, fuel, more);
    lemma_extracted_seq_len(cs, c, fuel);
    let r = extracted_seq(cs, c, fuel).unwrap();
    lemma_fits_children(n);
    crate::flatten_definitions::lemma_children_of_with_children(n, r.0);
    lemma_exit_fuel(with_children(n, r.0), r.1, fuel, more);
}

/// [`lemma_extracted_fuel`] for sequences of trees.
pub proof fn lemma_extracted_seq_fuel(s: Seq<NodeSpec>, c: nat, fuel: nat, more: nat)
    requires
        extracted_seq(s, c, fuel) is Some,
        fuel <= more,
    ensures
        extracted_seq(s, c, more) == extracted_seq(s, c, fuel),
    decreases fuel, size_seq(s), 1nat,
{
    if s.len() > 0 {
        lemma_size_seq_element(s, s.len() - 1);
        lemma_extracted_seq_fuel(s.drop_last(), c, fuel, more);
        let r = extracted_seq(s.drop_last(), c, fuel).unwrap();
        lemma_extracted_fuel(s.last(), r.1, fuel, more);
    }
}

/// [`lemma_extracted_fuel`] for the extraction of one sequence.
pub proof fn lemma_parts_fuel(t: NodeSpec, name: Seq<char>, c: nat, fuel: nat, more: nat)
    requires
        parts_lifted(t, name, c, fuel) is Some,
        fuel <= more,
    ensures
        parts_lifted(t, name, c, more) == parts_lifted(t, name, c, fuel),
    decreases fuel, 0nat, 0nat,
{
    let nodes = t->Sequence_nodes;
    let typ = t->Sequence_typ;
    let assignment = NodeSpec::Assign {
        lhs: Box::new(temp_variable(name, typ)),
        rhs: Box::new(nodes.last()),
    };
    lemma_extracted_fuel(assignment, c, (fuel - 1) as nat, (more - 1) as nat);
}

/// [`lemma_extracted_fuel`] for the lifting of operands.
pub proof fn lemma_operands_fuel(ops: Seq<NodeSpec>, c: nat, fuel: nat, more: nat)
    requires
        operands_lifted(ops, c, fuel) is Some,
        fuel <= more,
    ensures
        operands_lifted(ops, c, more) == operands_lifted(ops, c, fuel),
    decreases fuel, 0nat, ops.len(),
{
    if ops.len() > 0 {
        lemma_operands_fuel(ops.drop_last(), c, fuel, more);
        let prev = operands_lifted(ops.drop_last(), c, fuel).unwrap();
        if ops.last() is Sequence {
            let name = temp_name(sequence_prefix(), next_count(prev.2));
            lemma_parts_fuel(ops.last(), name, next_count(prev.2), fuel, more);
        }
    }
}

/// [`lemma_extracted_fuel`] for the lifting of one child.
pub proof fn lemma_child_fuel(m: NodeSpec, k: int, c: nat, fuel: nat, more: nat)
    requires
        child_lifted(m, k, c, fuel) is Some,
        fuel <= more,
    ensures
        child_lifted(m, k, c, more) == child_lifted(m, k, c, fuel),
    decreases fuel, 0nat, 1nat,
{
    let name = temp_name(sequence_prefix(), next_count(c));
    lemma_parts_fuel(children(m)[k], name, next_count(c), fuel, more);
}

/// [`lemma_extracted_fuel`] for the exit step.
pub proof fn lemma_exit_fuel(m: NodeSpec, c: nat, fuel: nat, more: nat)
    requires
        exit_extracted(m, c, fuel) is Some,
        fuel <= more,
    ensures
        exit_extracted(m, c, more) == exit_extracted(m, c, fuel),
    decreases fuel, 0nat, children(m).len() + 2,
{
    match m {
        NodeSpec::Call { operator, operands, .. } => {
            lemma_operands_fuel(operands, c, fuel, more);
            let lo = operands_lifted(operands, c, fuel).unwrap();
            if *operator is Sequence {
                let name = temp_name(sequence_prefix(), next_count(lo.2));
                lemma_parts_fuel(*operator, name, next_count(lo.2), fuel, more);
            }
        },
        NodeSpec::Conditional { .. } => {},
        _ => {
            if let Some(k) = lifted_child(m) {
                if children(m)[k] is Sequence {
                    lemma_child_fuel(m, k, c, fuel, more);
                }
            }
        },
    }
}

/// Whether no node of a tree is a sequence.
pub open spec fn no_sequences(n: NodeSpec) -> bool {
    tree_all(n, |m: NodeSpec| !(m is Sequence))
}

/// A tree without sequences is left as it is, with any depth bound, and draws no name.
pub proof fn lemma_no_sequences_unchanged(n: NodeSpec, c: nat, fuel: nat)
    requires
        no_sequences(n),
    ensures
        extracted(n, c, fuel) == Some((n, c)),
    decreases size(n), 0nat,
{
    lemma_children_smaller(n);
    lemma_tree_all_children(n, |m: NodeSpec| !(m is Sequence));
    let cs = children(n);
    lemma_no_sequences_seq_unchanged(cs, c, fuel);
    lemma_with_own_children(n);
    match n {
        NodeSpec::Call { operator, operands, .. } => {
            assert(children(n) == seq![*operator] + operands);
            assert forall|i: int| 0 <= i < operands.len() implies no_sequences(#[trigger] operands[i]) by {
                assert(children(n)[i + 1] == operands[i]);
            }
            assert(no_sequences(*operator)) by {
                assert(children(n)[0] == *operator);
            }
            lemma_tree_all_children(*operator, |m: NodeSpec| !(m is Sequence));
            lemma_no_sequence_operands(operands, c, fuel);
        },
        NodeSpec::Conditional { condition, .. } => {
            assert(children(n)[0] == *condition);
            lemma_tree_all_children(*condition, |m: NodeSpec| !(m is Sequence));
        },
        _ => {
            if let Some(k) = lifted_child(n) {
                lemma_tree_all_children(cs[k], |m: NodeSpec| !(m is Sequence));
            }
        },
    }
}

/// [`lemma_no_sequences_unchanged`] for sequences of trees.
pub proof fn lemma_no_sequences_seq_unchanged(s: Seq<NodeSpec>, c: nat, fuel: nat)
    requires
        forall|i: int| 0 <= i < s.len() ==> no_sequences(#[trigger] s[i]),
    ensures
        extracted_seq(s, c, fuel) == Some((s, c)),
    decreases size_seq(s), 1nat,
{
    if s.len() > 0 {
        lemma_size_seq_element(s, s.len() - 1);
        assert forall|i: int| 0 <= i < s.len() - 1 implies no_sequences(#[trigger] s.drop_last()[i]) by {
            assert(s.drop_last()[i] == s[i]);
        }
        lemma_no_sequences_seq_unchanged(s.drop_last(), c, fuel);
        assert(no_sequences(s[s.len() - 1]));
        lemma_no_sequences_unchanged(s.last(), c, fuel);
        assert(s.drop_last().push(s.last()) =~= s);
    }
}

/// Operands none of which is a sequence are kept, with no temporary.
pub proof fn lemma_no_sequence_operands(ops: Seq<NodeSpec>, c: nat, fuel: nat)
    requires
        forall|i: int| 0 <= i < ops.len() ==> no_sequences(#[trigger] ops[i]),
    ensures
        operands_lifted(ops, c, fuel) == Some((ops, Seq::<NodeSpec>::empty(), c)),
    decreases ops.len(),
{
    if ops.len() > 0 {
        assert forall|i: int| 0 <= i < ops.len() - 1 implies no_sequences(#[trigger] ops.drop_last()[i]) by {
            assert(ops.drop_last()[i] == ops[i]);
        }
        lemma_no_sequence_operands(ops.drop_last(), c, fuel);
        assert(no_sequences(ops[ops.len() - 1]));
        lemma_tree_all_children(ops.last(), |m: NodeSpec| !(m is Sequence));
        assert(ops.drop_last().push(ops.last()) =~= ops);
    }
}

/// The pass applies to a program in which no node below the root is a sequence, and leaves
/// it as it is.
pub proof fn lemma_pass_keeps_sequence_free(root: NodeSpec)
    requires
        forall|i: int| 0 <= i < children(root).len() ==> no_sequences(#[trigger] children(root)[i]),
    ensures
        pass_applies(root),
        sequences_extracted(root) == root,
{
    let cs = children(root);
    lemma_no_sequences_seq_unchanged(cs, 0, 0);
    assert(extracted_seq(cs, 0, 0) is Some);
    let fuel = pass_fuel(root);
    lemma_no_sequences_seq_unchanged(cs, 0, fuel);
    lemma_with_own_children(root);
}

/// Whether nothing is extracted at a node: no value it uses directly is a sequence (see
/// [`uses_no_sequence`]), its condition (for a conditional) is no sequence, and its final
/// node (for a sequence with a value) is no sequence.
pub open spec fn nothing_to_extract(m: NodeSpec) -> bool {
    &&& uses_no_sequence(m)
    &&& (m matches NodeSpec::Conditional { condition, .. } ==> !(*condition is Sequence))
    &&& (lifted_child(m) matches Some(k) ==> !(children(m)[k] is Sequence))
}

/// Whether nothing is extracted anywhere in a tree.
pub open spec fn nothing_to_extract_everywhere(n: NodeSpec) -> bool {
    tree_all(n, |m: NodeSpec| nothing_to_extract(m))
}

/// A tree in which nothing is to be extracted is left as it is, with any depth bound, and
/// draws no name.
pub proof fn lemma_nothing_to_extract_unchanged(n: NodeSpec, c: nat, fuel: nat)
    requires
        nothing_to_extract_everywhere(n),
    ensures
        extracted(n, c, fuel) == Some((n, c)),
    decreases size(n), 0nat,
{
    lemma_children_smaller(n);
    lemma_tree_all_children(n, |m: NodeSpec| nothing_to_extract(m));
    let cs = children(n);
    lemma_nothing_to_extract_seq_unchanged(cs, c, fuel);
    lemma_with_own_children(n);
    match n {
        NodeSpec::Call { operator, operands, .. } => {
            assert(children(n) == seq![*operator] + operands);
            lemma_plain_operands(operands, c, fuel);
        },
        _ => {},
    }
}

/// [`lemma_nothing_to_extract_unchanged`] for sequences of trees.
pub proof fn lemma_nothing_to_extract_seq_unchanged(s: Seq<NodeSpec>, c: nat, fuel: nat)
    requires
        forall|i: int| 0 <= i < s.len() ==> nothing_to_extract_everywhere(#[trigger] s[i]),
    ensures
        extracted_seq(s, c, fuel) == Some((s, c)),
    decreases size_seq(s), 1nat,
{
    if s.len() > 0 {
        lemma_size_seq_element(s, s.len() - 1);
        assert forall|i: int| 0 <= i < s.len() - 1 implies nothing_to_extract_everywhere(
            #[trigger] s.drop_last()[i],
        ) by {
            assert(s.drop_last()[i] == s[i]);
        }
        lemma_nothing_to_extract_seq_unchanged(s.drop_last(), c, fuel);
        assert(nothing_to_extract_everywhere(s[s.len() - 1]));
        lemma_nothing_to_extract_unchanged(s.last(), c, fuel);
        assert(s.drop_last().push(s.last()) =~= s);
    }
}

/// Operands none of which is a sequence are kept, with no temporary.
pub proof fn lemma_plain_operands(ops: Seq<NodeSpec>, c: nat, fuel: nat)
    requires
        forall|i: int| 0 <= i < ops.len() ==> !(#[trigger] ops[i] is Sequence),
    ensures
        operands_lifted(ops, c, fuel) == Some((ops, Seq::<NodeSpec>::empty(), c)),
    decreases ops.len(),
{
    if ops.len() > 0 {
        assert forall|i: int| 0 <= i < ops.len() - 1 implies !(#[trigger] ops.drop_last()[i] is Sequence) by {
            assert(ops.drop_last()[i] == ops[i]);
        }
        lemma_plain_operands(ops.drop_last(), c, fuel);
        assert(!(ops[ops.len() - 1] is Sequence));
        assert(ops.drop_last().push(ops.last()) =~= ops);
    }
}

/// The pass applies to every program in which nothing stands to be extracted below the
/// root (no sequence is used as a value, as a condition, or as the final node of a sequence
/// with a value), and leaves it as it is.
pub proof fn lemma_pass_keeps_extracted_program(root: NodeSpec)
    requires
        forall|i: int| 0 <= i < children(root).len() ==> nothing_to_extract_everywhere(
            #[trigger] children(root)[i],
        ),
    ensures
        pass_applies(root),
        sequences_extracted(root) == root,
{
    let cs = children(root);
    lemma_nothing_to_extract_seq_unchanged(cs, 0, 0);
    assert(extracted_seq(cs, 0, 0) is Some);
    let fuel = pass_fuel(root);
    lemma_nothing_to_extract_seq_unchanged(cs, 0, fuel);
    lemma_with_own_children(root);
}

/// Whether the pass applies to a whole tree with some depth of re-handling.
pub open spec fn pass_applies(root: NodeSpec) -> bool {
    exists|fuel: nat| #[trigger] extracted_seq(children(root), 0, fuel) is Some
}

/// A depth of re-handling that the pass reaches on the tree (where it applies).
pub open spec fn pass_fuel(root: NodeSpec) -> nat {
    choose|fuel: nat| #[trigger] extracted_seq(children(root), 0, fuel) is Some
}

/// What the pass does to the whole tree: each child of the root is handled in turn.
pub open spec fn sequences_extracted(root: NodeSpec) -> NodeSpec {
    with_children(root, extracted_seq(children(root), 0, pass_fuel(root)).unwrap().0)
}

/// A temporary variable of the given type.
fn make_temp_variable(name: &String, node_type: &Type) -> (r: Node)
    ensures
        r@ == temp_variable(name@, node_type@),
{
    Node::Variable { name: name.clone(), typ: node_type.copy() }
}

/// Whether a node is a sequence.
fn is_sequence(n: &Node) -> (r: bool)
    ensures
        r == (n@ is Sequence),
{
    match n {
        Node::Sequence { .. } => true,
        _ => false,
    }
}

/// The declaration of the temporary `name`, and the sequence `target` with its final node
/// `a` replaced by `(name = a)`, handled again.
fn lift_parts(
    target: Node,
    name: &String,
    temp_names: &mut TempNameGenerator,
    Ghost(fuel): Ghost<nat>,
) -> (r: (Node, Node))
    requires
        old(temp_names).prefix() == sequence_prefix(),
        parts_lifted(target@, name@, old(temp_names).count(), fuel) is Some,
    ensures
        final(temp_names).prefix() == sequence_prefix(),
        (r.0@, r.1@, final(temp_names).count()) == parts_lifted(
            target@,
            name@,
            old(temp_names).count(),
            fuel,
        ).unwrap(),
    decreases fuel, 0nat, 0nat,
{
    let ghost t = target@;
    match target {
        Node::Sequence { mode, nodes, typ } => {
            let ghost nv = nodes_view(nodes);
            let mut nodes = nodes;
            proof {
                lemma_nodes_view(nodes);
            }
            // Convert final node into an assignment
            let last = nodes.pop().unwrap();
            proof {
                lemma_nodes_view(nodes);
                assert(nodes_view(nodes) =~= nv.drop_last());
                assert(last@ == nv.last());
            }
            let assignment = Node::Assign {
                lhs: Box::new(make_temp_variable(name, &typ)),
                rhs: Box::new(last),
            };
            // The new right-hand side could be a sequence
            let handled = extract_sequences(assignment, temp_names, Ghost((fuel - 1) as nat));
            let ghost hv = handled@;
            nodes.push(handled);
            proof {
                lemma_nodes_view(nodes);
                assert(nodes_view(nodes) =~= nv.drop_last().push(hv));
            }
            // let temp = Nothing
            let declared_name = name.clone();
            let nothing = Node::Nothing { typ: typ.copy() };
            assert(declared_name@ == name@);
            assert(nothing@ == NodeSpec::Nothing { typ: typ@ });
            let declaration = Node::Binding { name: declared_name, binding: Box::new(nothing) };
            let result = Node::Sequence { mode, nodes, typ };
            (declaration, result)
        },
        other => (other, Node::nothing()),
    }
}

/// The tree `node` after the pass: its children first, then the node itself.
fn extract_sequences(
    node: Node,
    temp_names: &mut TempNameGenerator,
    Ghost(fuel): Ghost<nat>,
) -> (r: Node)
    requires
        old(temp_names).prefix() == sequence_prefix(),
        extracted(node@, old(temp_names).count(), fuel) is Some,
    ensures
        final(temp_names).prefix() == sequence_prefix(),
        (r@, final(temp_names).count()) == extracted(node@, old(temp_names).count(), fuel).unwrap(),
    decreases fuel, size(node@), 0nat,
{
    let ghost n = node@;
    let ghost c0 = temp_names.count();
    proof {
        lemma_children_smaller(n);
    }
    // First make sure all child nodes are handled
    let (shell, kids) = take_children(node);
    let done = extract_all(kids, temp_names, Ghost(fuel));
    proof {
        lemma_nodes_view(done);
        lemma_extracted_seq_len(children(n), c0, fuel);
        lemma_fits_children(n);
    }
    let m = put_children(shell, done);
    extract_exit(m, temp_names, Ghost(fuel))
}

/// [`extract_sequences`] on each node of a list, in order.
fn extract_all(
    nodes: Vec<Node>,
    temp_names: &mut TempNameGenerator,
    Ghost(fuel): Ghost<nat>,
) -> (r: Vec<Node>)
    requires
        old(temp_names).prefix() == sequence_prefix(),
        extracted_seq(nodes_view(nodes), old(temp_names).count(), fuel) is Some,
    ensures
        final(temp_names).prefix() == sequence_prefix(),
        (nodes_view(r), final(temp_names).count()) == extracted_seq(
            nodes_view(nodes),
            old(temp_names).count(),
            fuel,
        ).unwrap(),
    decreases fuel, size_seq(nodes_view(nodes)), 1nat,
{
    let ghost cs = nodes_view(nodes);
    let ghost c0 = temp_names.count();
    let mut done: Vec<Node> = Vec::new();
    let mut rest = nodes;
    proof {
        lemma_nodes_view(rest);
        lemma_nodes_view(done);
        assert forall|j: int| 0 <= j < cs.len() implies size(#[trigger] cs[j]) <= size_seq(cs) by {
            lemma_size_seq_element(cs, j);
        }
        assert(cs.take(0) =~= Seq::<NodeSpec>::empty());
    }
    while rest.len() > 0
        invariant
            cs == nodes_view(nodes),
            temp_names.prefix() == sequence_prefix(),
            extracted_seq(cs, c0, fuel) is Some,
            done.len() + rest.len() == cs.len(),
            forall|j: int| 0 <= j < rest.len() ==> (#[trigger] rest@[j])@ == cs[done.len() + j],
            forall|j: int| 0 <= j < cs.len() ==> size(#[trigger] cs[j]) <= size_seq(cs),
            extracted_seq(cs.take(done.len() as int), c0, fuel) is Some,
            (nodes_view(done), temp_names.count()) == extracted_seq(
                cs.take(done.len() as int),
                c0,
                fuel,
            ).unwrap(),
        decreases rest.len(),
    {
        let ghost i = done.len() as int;
        let ghost before = rest@;
        let k = rest.remove(0);
        assert(k@ == cs[i]);
        let ghost t = cs.take(i + 1);
        proof {
            lemma_extracted_seq_prefix(cs, c0, fuel, i + 1);
            assert(t.drop_last() =~= cs.take(i));
            assert(t.last() == cs[i]);
        }
        let k2 = extract_sequences(k, temp_names, Ghost(fuel));
        done.push(k2);
        proof {
            lemma_nodes_view(done);
            assert(nodes_view(done) =~= extracted_seq(t, c0, fuel).unwrap().0);
            assert forall|j: int| 0 <= j < rest.len() implies (#[trigger] rest@[j])@
                == cs[done.len() + j] by {
                assert(rest@[j] == before[j + 1]);
            }
        }
    }
    assert(cs.take(cs.len() as int) =~= cs);
    done
}

/// The operands with each sequence among them replaced by a temporary, and the
/// declarations and extracted sequences of the temporaries.
fn lift_operands(
    ops: Vec<Node>,
    temp_names: &mut TempNameGenerator,
    Ghost(fuel): Ghost<nat>,
) -> (r: (Vec<Node>, Vec<Node>))
    requires
        old(temp_names).prefix() == sequence_prefix(),
        operands_lifted(nodes_view(ops), old(temp_names).count(), fuel) is Some,
    ensures
        final(temp_names).prefix() == sequence_prefix(),
        (nodes_view(r.0), nodes_view(r.1), final(temp_names).count()) == operands_lifted(
            nodes_view(ops),
            old(temp_names).count(),
            fuel,
        ).unwrap(),
    decreases fuel, 0nat, ops.len(),
{
    let ghost cs = nodes_view(ops);
    let ghost c0 = temp_names.count();
    let mut done: Vec<Node> = Vec::new();
    let mut temps: Vec<Node> = Vec::new();
    let mut rest = ops;
    proof {
        lemma_nodes_view(rest);
        lemma_nodes_view(done);
        lemma_nodes_view(temps);
        assert(cs.take(0) =~= Seq::<NodeSpec>::empty());
    }
    while rest.len() > 0
        invariant
            cs == nodes_view(ops),
            cs.len() == ops.len(),
            temp_names.prefix() == sequence_prefix(),
            operands_lifted(cs, c0, fuel) is Some,
            done.len() + rest.len() == cs.len(),
            forall|j: int| 0 <= j < rest.len() ==> (#[trigger] rest@[j])@ == cs[done.len() + j],
            operands_lifted(cs.take(done.len() as int), c0, fuel) is Some,
            (nodes_view(done), nodes_view(temps), temp_names.count()) == operands_lifted(
                cs.take(done.len() as int),
                c0,
                fuel,
            ).unwrap(),
        decreases rest.len(),
    {
        let ghost i = done.len() as int;
        let ghost before = rest@;
        let ghost tv = nodes_view(temps);
        let operand = rest.remove(0);
        assert(operand@ == cs[i]);
        let ghost t = cs.take(i + 1);
        proof {
            lemma_operands_lifted_prefix(cs, c0, fuel, i + 1);
            assert(t.drop_last() =~= cs.take(i));
            assert(t.last() == cs[i]);
        }
        if is_sequence(&operand) {
            let temp_name = temp_names.next();
            let operand_type = operand.get_type();
            let (declaration, assignment) = lift_parts(operand, &temp_name, temp_names, Ghost(fuel));
            let ghost dv = declaration@;
            let ghost av = assignment@;
            temps.push(declaration);
            temps.push(assignment);
            done.push(make_temp_variable(&temp_name, &operand_type));
            proof {
                lemma_nodes_view(temps);
                assert(nodes_view(temps) =~= tv.push(dv).push(av));
            }
        } else {
            done.push(operand);
        }
        proof {
            lemma_nodes_view(done);
            assert(nodes_view(done) =~= operands_lifted(t, c0, fuel).unwrap().0);
            assert forall|j: int| 0 <= j < rest.len() implies (#[trigger] rest@[j])@
                == cs[done.len() + j] by {
                assert(rest@[j] == before[j + 1]);
            }
        }
    }
    assert(cs.take(cs.len() as int) =~= cs);
    (done, temps)
}

/// The child of `m` at `k`, a sequence, extracted into a new temporary before `m`.
fn lift_child(
    m: Node,
    k: usize,
    temp_names: &mut TempNameGenerator,
    Ghost(fuel): Ghost<nat>,
) -> (r: Node)
    requires
        old(temp_names).prefix() == sequence_prefix(),
        child_lifted(m@, k as int, old(temp_names).count(), fuel) is Some,
    ensures
        final(temp_names).prefix() == sequence_prefix(),
        (r@, final(temp_names).count()) == child_lifted(m@, k as int, old(temp_names).count(), fuel).unwrap(),
    decreases fuel, 0nat, 1nat,
{
    let ghost mv = m@;
    let (shell, kids) = take_children(m);
    let mut kids = kids;
    proof {
        lemma_nodes_view(kids);
    }
    let temp_name = temp_names.next();
    let target = kids.remove(k);
    let target_type = target.get_type();
    let ghost tv = target@;
    assert(tv == children(mv)[k as int]);
    // Extract the target node, replacing it with a temporary variable
    let variable = make_temp_variable(&temp_name, &target_type);
    let ghost vv = variable@;
    kids.insert(k, variable);
    proof {
        lemma_nodes_view(kids);
        assert(nodes_view(kids) =~= children(mv).update(k as int, vv));
        lemma_fits_children(mv);
    }
    let (declaration, assignment) = lift_parts(target, &temp_name, temp_names, Ghost(fuel));
    let using = put_children(shell, kids);
    let mut outer: Vec<Node> = Vec::new();
    outer.push(declaration);
    outer.push(assignment);
    outer.push(using);
    let ghost ov = seq![outer@[0]@, outer@[1]@, outer@[2]@];
    proof {
        lemma_nodes_view(outer);
        assert(nodes_view(outer) =~= ov);
    }
    Node::new_sequence(SequenceMode::Transparent, outer)
}

/// The index of the child of `m` that must not be a sequence and is one, if any.
fn lifted_child_index(m: &Node) -> (r: Option<usize>)
    ensures
        match r {
            Some(k) => lifted_child(m@) == Some(k as int) && children(m@)[k as int] is Sequence,
            None => !(lifted_child(m@) matches Some(k) && children(m@)[k] is Sequence),
        },
{
    match m {
        Node::Reference { target, .. } | Node::Dereference { target, .. } => {
            if is_sequence(target) {
                Some(0)
            } else {
                None
            }
        },
        Node::Binding { binding, .. } => {
            if is_sequence(binding) {
                Some(0)
            } else {
                None
            }
        },
        Node::Assign { rhs, .. } => {
            if is_sequence(rhs) {
                Some(1)
            } else {
                None
            }
        },
        Node::Sequence { nodes, typ, .. } => {
            proof {
                lemma_nodes_view(*nodes);
            }
            // Don't worry about void sequences
            let is_void = match typ {
                Type::Void => true,
                _ => false,
            };
            if !is_void && nodes.len() > 0 && is_sequence(&nodes[nodes.len() - 1]) {
                Some(nodes.len() - 1)
            } else {
                None
            }
        },
        _ => None,
    }
}

/// A node after its children: sequences where values are used are extracted before it.
fn extract_exit(m: Node, temp_names: &mut TempNameGenerator, Ghost(fuel): Ghost<nat>) -> (r: Node)
    requires
        old(temp_names).prefix() == sequence_prefix(),
        exit_extracted(m@, old(temp_names).count(), fuel) is Some,
    ensures
        final(temp_names).prefix() == sequence_prefix(),
        (r@, final(temp_names).count()) == exit_extracted(m@, old(temp_names).count(), fuel).unwrap(),
    decreases fuel, 0nat, children(m@).len() + 2,
{
    let ghost mv = m@;
    match m {
        Node::Call { operator, operands, typ } => {
            proof {
                lemma_nodes_view(operands);
            }
            let (new_operands, temps) = lift_operands(operands, temp_names, Ghost(fuel));
            if is_sequence(&operator) {
                let temp_name = temp_names.next();
                let operator_type = operator.get_type();
                let (declaration, assignment) = lift_parts(*operator, &temp_name, temp_names, Ghost(fuel));
                let call = Node::Call {
                    operator: Box::new(make_temp_variable(&temp_name, &operator_type)),
                    operands: new_operands,
                    typ,
                };
                let ghost tv = nodes_view(temps);
                let ghost dv = declaration@;
                let ghost av = assignment@;
                let ghost cv = call@;
                let mut nodes: Vec<Node> = Vec::new();
                nodes.push(declaration);
                nodes.push(assignment);
                let mut temps = temps;
                nodes.append(&mut temps);
                nodes.push(call);
                proof {
                    lemma_nodes_view(nodes);
                    lemma_nodes_view(temps);
                    assert(nodes_view(nodes) =~= seq![dv, av] + tv.push(cv));
                }
                Node::new_sequence(SequenceMode::Transparent, nodes)
            } else if temps.len() > 0 {
                let call = Node::Call { operator, operands: new_operands, typ };
                let ghost tv = nodes_view(temps);
                let ghost cv = call@;
                let mut nodes = temps;
                nodes.push(call);
                proof {
                    lemma_nodes_view(nodes);
                    assert(nodes_view(nodes) =~= tv.push(cv));
                }
                Node::new_sequence(SequenceMode::Transparent, nodes)
            } else {
                Node::Call { operator, operands: new_operands, typ }
            }
        },
        Node::Conditional { condition, then_branch, else_branch, typ } => {
            Node::Conditional { condition, then_branch, else_branch, typ }
        },
        other => {
            match lifted_child_index(&other) {
                Some(k) => lift_child(other, k, temp_names, Ghost(fuel)),
                None => other,
            }
        },
    }
}

/// Moves every sequence that stands where a value is used before its use, assigning its
/// final node to a new temporary variable that takes its place.
pub fn apply(root_node: &mut Node)
    requires
        pass_applies(old(root_node)@),
    ensures
        final(root_node)@ == sequences_extracted(old(root_node)@),
{
    let ghost n = root_node@;
    let ghost fuel = pass_fuel(n);
    let mut temp_names = TempNameGenerator::new("xseq");
    proof {
        reveal_strlit("xseq");
        assert("xseq"@ =~= sequence_prefix());
    }
    let root = root_node.extract_temp();
    let (shell, kids) = take_children(root);
    let done = extract_all(kids, &mut temp_names, Ghost(fuel));
    proof {
        lemma_nodes_view(done);
        lemma_extracted_seq_len(children(n), 0, fuel);
        lemma_fits_children(n);
    }
    *root_node = put_children(shell, done);
}

} // verus!

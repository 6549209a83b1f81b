//! Simplification of bindings and assignments of sequences: the value of the sequence is
//! assigned to a new temporary, which is then bound or assigned.
//!
//! ```text
//! let x = { ... y }   =>   / let t = Nothing
//!                            { ... (t = y) }
//!                            let x = t \
//!
//! x = { ... y }       =>   / let t = Nothing
//!                            { ... (t = y) }
//!                            x = t \
//! ```
//!
//! The assignment `(t = y)` that the simplification builds is itself simplified again.
use vstd::prelude::*;
use crate::ast::{
    group_ast_views, lemma_nodes_view, new_sequence, node_type, nodes_view, Node, NodeSpec,
    SequenceMode, Type, TypeSpec,
};
use crate::names::{next_count, temp_name, TempNameGenerator};
use crate::tree::{
    children, lemma_children_smaller, lemma_fits_children, lemma_size_seq_element,
    lemma_tree_all_children, lemma_with_own_children, put_children, size, size_seq,
    take_children, tree_all, with_children,
};

verus! {

broadcast use group_ast_views;

/// The prefix of the temporary variables of this pass.
pub open spec fn binding_prefix() -> Seq<char> {
    seq!['b', 'i', 'n', 'd', 's', 'e', 'q']
}

/// The sequence `s` with its final node `y` (if any) replaced by `(name = y)` simplified
/// again, the variable typed `typ`; with the count after it.
pub open spec fn final_assigned(s: NodeSpec, name: Seq<char>, typ: TypeSpec, c: nat, fuel: nat) -> Option<
    (NodeSpec, nat),
>
    decreases fuel, 0nat, 0nat,
{
    match s {
        NodeSpec::Sequence { mode, nodes, typ: sequence_type } => {
            if nodes.len() == 0 {
                Some((s, c))
            } else if fuel == 0 {
                None
            } else {
                let assignment = NodeSpec::Assign {
                    lhs: Box::new(NodeSpec::Variable { name, typ }),
                    rhs: Box::new(nodes.last()),
                };
                match bindings_simplified(assignment, c, (fuel - 1) as nat) {
                    Some((a, c1)) => Some(
                        (NodeSpec::Sequence { mode, nodes: nodes.drop_last().push(a), typ: sequence_type }, c1),
                    ),
                    None => None,
                }
            }
        },
        _ => None,
    }
}

/// The tree `n` after the pass (its children first, then the node itself), with the count of
/// temporary names drawn after it (`c` before); `None` where `fuel` (the depth of nested
/// simplification) does not reach.
pub open spec fn bindings_simplified(n: NodeSpec, c: nat, fuel: nat) -> Option<(NodeSpec, nat)>
    decreases fuel, size(n), 1nat,
{
    proof {
        lemma_children_smaller(n);
    }
    match bindings_simplified_seq(children(n), c, fuel) {
        Some((cs, c1)) => simplify_exit(with_children(n, cs), c1, fuel),
        None => None,
    }
}

/// [`bindings_simplified`] of each tree of a sequence, in order.
pub open spec fn bindings_simplified_seq(s: Seq<NodeSpec>, c: nat, fuel: nat) -> Option<
    (Seq<NodeSpec>, nat),
>
    decreases fuel, size_seq(s), 2nat,
{
    if s.len() == 0 {
        Some((s, c))
    } else {
        proof {
            lemma_size_seq_element(s, s.len() - 1);
        }
        match bindings_simplified_seq(s.drop_last(), c, fuel) {
            Some((done, c1)) => match bindings_simplified(s.last(), c1, fuel) {
                Some((x, c2)) => Some((done.push(x), c2)),
                None => None,
            },
            None => None,
        }
    }
}

/// A node after its children: a binding or an assignment of a sequence goes through a new
/// temporary.
pub open spec fn simplify_exit(m: NodeSpec, c: nat, fuel: nat) -> Option<(NodeSpec, nat)>
    decreases fuel, 0nat, 1nat,
{
    match m {
        NodeSpec::Binding { name, binding } => {
            if *binding is Sequence {
                let temp = temp_name(binding_prefix(), next_count(c));
                let binding_type = node_type(*binding);
                match final_assigned(*binding, temp, binding_type, next_count(c), fuel) {
                    Some((inner, c1)) => Some(
                        (
                            new_sequence(
                                SequenceMode::Transparent,
                                seq![
                                    NodeSpec::Binding {
                                        name: temp,
                                        binding: Box::new(NodeSpec::Nothing { typ: binding_type }),
                                    },
                                    inner,
                                    NodeSpec::Binding {
                                        name,
                                        binding: Box::new(NodeSpec::Variable { name: temp, typ: binding_type }),
                                    },
                                ],
                            ),
                            c1,
                        ),
                    ),
                    None => None,
                }
            } else {
                Some((m, c))
            }
        },
        NodeSpec::Assign { lhs, rhs } => {
            if *rhs is Sequence {
                let temp = temp_name(binding_prefix(), next_count(c));
                let rhs_type = node_type(*rhs);
                match final_assigned(*rhs, temp, TypeSpec::Unknown, next_count(c), fuel) {
                    Some((inner, c1)) => Some(
                        (
                            new_sequence(
                                SequenceMode::Transparent,
                                seq![
                                    NodeSpec::Binding {
                                        name: temp,
                                        binding: Box::new(NodeSpec::Nothing { typ: rhs_type }),
                                    },
                                    inner,
                                    NodeSpec::Assign {
                                        lhs,
                                        rhs: Box::new(NodeSpec::Variable { name: temp, typ: TypeSpec::Unknown }),
                                    },
                                ],
                            ),
                            c1,
                        ),
                    ),
                    None => None,
                }
            } else {
                Some((m, c))
            }
        },
        _ => Some((m, c)),
    }
}

/// [`bindings_simplified_seq`] is defined on every prefix of a sequence on which it is
/// defined.
pub proof fn lemma_simplified_seq_prefix(s: Seq<NodeSpec>, c: nat, fuel: nat, i: int)
    requires
        bindings_simplified_seq(s, c, fuel) is Some,
        0 <= i <= s.len(),
    ensures
        bindings_simplified_seq(s.take(i), c, fuel) is Some,
    decreases s.len(),
{
    if i == s.len() {
        assert(s.take(i) =~= s);
    } else {
        assert(s.drop_last().take(i) =~= s.take(i));
        lemma_simplified_seq_prefix(s.drop_last(), c, fuel, i);
    }
}

/// The simplified sequence has as many trees as the given one.
pub proof fn lemma_simplified_seq_len(s: Seq<NodeSpec>, c: nat, fuel: nat)
    requires
        bindings_simplified_seq(s, c, fuel) is Some,
    ensures
        bindings_simplified_seq(s, c, fuel).unwrap().0.len() == s.len(),
    decreases s.len(),
{
    if s.len() > 0 {
        lemma_simplified_seq_len(s.drop_last(), c, fuel);
    }
}

/// Whether no binding binds, and no assignment assigns, a sequence directly.
pub open spec fn binds_no_sequence(n: NodeSpec) -> bool {
    match n {
        NodeSpec::Binding { binding, .. } => !(*binding is Sequence),
        NodeSpec::Assign { rhs, .. } => !(*rhs is Sequence),
        _ => true,
    }
}

/// Whether no node of a tree binds or assigns a sequence directly.
pub open spec fn bindings_simple(n: NodeSpec) -> bool {
    tree_all(n, |m: NodeSpec| binds_no_sequence(m))
}

/// A node that binds or assigns no sequence, with children in which none does, has none
/// anywhere.
pub proof fn lemma_simple_from_children(m: NodeSpec)
    requires
        binds_no_sequence(m),
        forall|i: int| 0 <= i < children(m).len() ==> bindings_simple(#[trigger] children(m)[i]),
    ensures
        bindings_simple(m),
{
    crate::tree::lemma_tree_all_seq(children(m), |x: NodeSpec| binds_no_sequence(x));
}

/// After the pass, no node of a tree binds or assigns a sequence directly.
pub proof fn lemma_simplified_simple(n: NodeSpec, c: nat, fuel: nat)
    requires
        bindings_simplified(n, c, fuel) is Some,
    ensures
        bindings_simple(bindings_simplified(n, c, fuel).unwrap().0),
    decreases fuel, size(n), 1nat,
{
    lemma_children_smaller(n);
    let cs = children(n);
    lemma_simplified_seq_simple(cs, c, fuel);
    lemma_simplified_seq_len(cs, c, fuel);
    let r = bindings_simplified_seq(cs, c, fuel).unwrap();
    lemma_fits_children(n);
    crate::flatten_definitions::lemma_children_of_with_children(n, r.0);
    lemma_exit_simple(with_children(n, r.0), r.1, fuel);
}

/// [`lemma_simplified_simple`] for each tree of a sequence.
pub proof fn lemma_simplified_seq_simple(s: Seq<NodeSpec>, c: nat, fuel: nat)
    requires
        bindings_simplified_seq(s, c, fuel) is Some,
    ensures
        forall|i: int| 0 <= i < bindings_simplified_seq(s, c, fuel).unwrap().0.len()
            ==> bindings_simple(#[trigger] bindings_simplified_seq(s, c, fuel).unwrap().0[i]),
    decreases fuel, size_seq(s), 2nat,
{
    if s.len() > 0 {
        lemma_size_seq_element(s, s.len() - 1);
        lemma_simplified_seq_simple(s.drop_last(), c, fuel);
        let r = bindings_simplified_seq(s.drop_last(), c, fuel).unwrap();
        lemma_simplified_simple(s.last(), r.1, fuel);
    }
}

/// Assigning the final node of a sequence in which no node binds or assigns a sequence
/// gives a sequence in which none does either.
pub proof fn lemma_final_simple(s: NodeSpec, name: Seq<char>, typ: TypeSpec, c: nat, fuel: nat)
    requires
        bindings_simple(s),
        final_assigned(s, name, typ, c, fuel) is Some,
    ensures
        bindings_simple(final_assigned(s, name, typ, c, fuel).unwrap().0),
    decreases fuel, 0nat, 0nat,
{
    let nodes = s->Sequence_nodes;
    if nodes.len() > 0 {
        let assignment = NodeSpec::Assign {
            lhs: Box::new(NodeSpec::Variable { name, typ }),
            rhs: Box::new(nodes.last()),
        };
        lemma_simplified_simple(assignment, c, (fuel - 1) as nat);
        let a = bindings_simplified(assignment, c, (fuel - 1) as nat).unwrap().0;
        let r = final_assigned(s, name, typ, c, fuel).unwrap().0;
        lemma_tree_all_children(s, |x: NodeSpec| binds_no_sequence(x));
        let new_nodes = nodes.drop_last().push(a);
        assert(children(r) == new_nodes);
        assert forall|i: int| 0 <= i < new_nodes.len() implies bindings_simple(#[trigger] new_nodes[i]) by {
            if i < new_nodes.len() - 1 {
                assert(new_nodes[i] == children(s)[i]);
            }
        }
        lemma_simple_from_children(r);
    }
}

/// A leaf that binds or assigns no sequence has none anywhere.
pub proof fn lemma_simple_leaf(m: NodeSpec)
    requires
        children(m).len() == 0,
    ensures
        bindings_simple(m),
{
    lemma_simple_from_children(m);
}

/// The exit step on a node whose children bind or assign no sequence gives a tree in which
/// none does.
pub proof fn lemma_exit_simple(m: NodeSpec, c: nat, fuel: nat)
    requires
        forall|i: int| 0 <= i < children(m).len() ==> bindings_simple(#[trigger] children(m)[i]),
        simplify_exit(m, c, fuel) is Some,
    ensures
        bindings_simple(simplify_exit(m, c, fuel).unwrap().0),
    decreases fuel, 0nat, 1nat,
{
    match m {
        NodeSpec::Binding { name, binding } => {
            if *binding is Sequence {
                assert(children(m)[0] == *binding);
                let temp = temp_name(binding_prefix(), next_count(c));
                let binding_type = node_type(*binding);
                lemma_final_simple(*binding, temp, binding_type, next_count(c), fuel);
                let inner = final_assigned(*binding, temp, binding_type, next_count(c), fuel).unwrap().0;
                let nothing = NodeSpec::Nothing { typ: binding_type };
                lemma_simple_leaf(nothing);
                let declaration = NodeSpec::Binding { name: temp, binding: Box::new(nothing) };
                assert(children(declaration) == seq![nothing]);
                lemma_simple_from_children(declaration);
                let variable = NodeSpec::Variable { name: temp, typ: binding_type };
                lemma_simple_leaf(variable);
                let rebind = NodeSpec::Binding { name, binding: Box::new(variable) };
                assert(children(rebind) == seq![variable]);
                lemma_simple_from_children(rebind);
                let s = seq![declaration, inner, rebind];
                let q = new_sequence(SequenceMode::Transparent, s);
                assert(children(q) == s);
                assert forall|i: int| 0 <= i < s.len() implies bindings_simple(#[trigger] s[i]) by {}
                lemma_simple_from_children(q);
            } else {
                lemma_simple_from_children(m);
            }
        },
        NodeSpec::Assign { lhs, rhs } => {
            if *rhs is Sequence {
                assert(children(m)[0] == *lhs);
                assert(children(m)[1] == *rhs);
                let temp = temp_name(binding_prefix(), next_count(c));
                let rhs_type = node_type(*rhs);
                lemma_final_simple(*rhs, temp, TypeSpec::Unknown, next_count(c), fuel);
                let inner = final_assigned(*rhs, temp, TypeSpec::Unknown, next_count(c), fuel).unwrap().0;
                let nothing = NodeSpec::Nothing { typ: rhs_type };
                lemma_simple_leaf(nothing);
                let declaration = NodeSpec::Binding { name: temp, binding: Box::new(nothing) };
                assert(children(declaration) == seq![nothing]);
                lemma_simple_from_children(declaration);
                let variable = NodeSpec::Variable { name: temp, typ: TypeSpec::Unknown };
                lemma_simple_leaf(variable);
                let using = NodeSpec::Assign { lhs, rhs: Box::new(variable) };
                assert(children(using) == seq![*lhs, variable]);
                lemma_simple_from_children(using);
                let s = seq![declaration, inner, using];
                let q = new_sequence(SequenceMode::Transparent, s);
                assert(children(q) == s);
                assert forall|i: int| 0 <= i < s.len() implies bindings_simple(#[trigger] s[i]) by {}
                lemma_simple_from_children(q);
            } else {
                lemma_simple_from_children(m);
            }
        },
        _ => {
            lemma_simple_from_children(m);
        },
    }
}

/// A larger depth bound gives the same result wherever a smaller one gives one.
pub proof fn lemma_simplified_fuel(n: NodeSpec, c: nat, fuel: nat, more: nat)
    requires
        bindings_simplified(n, c, fuel) is Some,
        fuel <= more,
    ensures
        bindings_simplified(n, c, more) == bindings_simplified(n, c, fuel),
    decreases fuel, size(n), 1nat,
{
    lemma_children_smaller(n);
    let cs = children(n);
    lemma_simplified_seq_fuel(cs, c, fuel, more);
    let r = bindings_simplified_seq(cs, c, fuel).unwrap();
    lemma_exit_fuel(with_children(n, r.0), r.1, fuel, more);
}

/// [`lemma_simplified_fuel`] for sequences of trees.
pub proof fn lemma_simplified_seq_fuel(s: Seq<NodeSpec>, c: nat, fuel: nat, more: nat)
    requires
        bindings_simplified_seq(s, c, fuel) is Some,
        fuel <= more,
    ensures
        bindings_simplified_seq(s, c, more) == bindings_simplified_seq(s, c, fuel),
    decreases fuel, size_seq(s), 2nat,
{
    if s.len() > 0 {
        lemma_size_seq_element(s, s.len() - 1);
        lemma_simplified_seq_fuel(s.drop_last(), c, fuel, more);
        let r = bindings_simplified_seq(s.drop_last(), c, fuel).unwrap();
        lemma_simplified_fuel(s.last(), r.1, fuel, more);
    }
}

/// [`lemma_simplified_fuel`] for the assignment of a final node.
pub proof fn lemma_final_fuel(s: NodeSpec, name: Seq<char>, typ: TypeSpec, c: nat, fuel: nat, more: nat)
    requires
        final_assigned(s, name, typ, c, fuel) is Some,
        fuel <= more,
    ensures
        final_assigned(s, name, typ, c, more) == final_assigned(s, name, typ, c, fuel),
    decreases fuel, 0nat, 0nat,
{
    let nodes = s->Sequence_nodes;
    if nodes.len() > 0 {
        let assignment = NodeSpec::Assign {
            lhs: Box::new(NodeSpec::Variable { name, typ }),
            rhs: Box::new(nodes.last()),
        };
        lemma_simplified_fuel(assignment, c, (fuel - 1) as nat, (more - 1) as nat);
    }
}

/// [`lemma_simplified_fuel`] for the exit step.
pub proof fn lemma_exit_fuel(m: NodeSpec, c: nat, fuel: nat, more: nat)
    requires
        simplify_exit(m, c, fuel) is Some,
        fuel <= more,
    ensures
        simplify_exit(m, c, more) == simplify_exit(m, c, fuel),
    decreases fuel, 0nat, 1nat,
{
    match m {
        NodeSpec::Binding { binding, .. } => {
            if *binding is Sequence {
                let temp = temp_name(binding_prefix(), next_count(c));
                lemma_final_fuel(*binding, temp, node_type(*binding), next_count(c), fuel, more);
            }
        },
        NodeSpec::Assign { rhs, .. } => {
            if *rhs is Sequence {
                let temp = temp_name(binding_prefix(), next_count(c));
                lemma_final_fuel(*rhs, temp, TypeSpec::Unknown, next_count(c), fuel, more);
            }
        },
        _ => {},
    }
}

/// A tree in which no node binds or assigns a sequence is left as it is, with any depth
/// bound, and draws no name.
pub proof fn lemma_simple_unchanged(n: NodeSpec, c: nat, fuel: nat)
    requires
        bindings_simple(n),
    ensures
        bindings_simplified(n, c, fuel) == Some((n, c)),
    decreases size(n), 0nat,
{
    lemma_children_smaller(n);
    lemma_tree_all_children(n, |m: NodeSpec| binds_no_sequence(m));
    let cs = children(n);
    lemma_simple_seq_unchanged(cs, c, fuel);
    lemma_with_own_children(n);
}

/// [`lemma_simple_unchanged`] for sequences of trees.
pub proof fn lemma_simple_seq_unchanged(s: Seq<NodeSpec>, c: nat, fuel: nat)
    requires
        forall|i: int| 0 <= i < s.len() ==> bindings_simple(#[trigger] s[i]),
    ensures
        bindings_simplified_seq(s, c, fuel) == Some((s, c)),
    decreases size_seq(s), 1nat,
{
    if s.len() > 0 {
        lemma_size_seq_element(s, s.len() - 1);
        assert forall|i: int| 0 <= i < s.len() - 1 implies bindings_simple(#[trigger] s.drop_last()[i]) by {
            assert(s.drop_last()[i] == s[i]);
        }
        lemma_simple_seq_unchanged(s.drop_last(), c, fuel);
        assert(bindings_simple(s[s.len() - 1]));
        lemma_simple_unchanged(s.last(), c, fuel);
        assert(s.drop_last().push(s.last()) =~= s);
    }
}

/// The pass changes nothing in its own result: simplifying a simplified tree gives it back.
pub proof fn lemma_simplified_idempotent(n: NodeSpec, c: nat, fuel: nat, c2: nat, fuel2: nat)
    requires
        bindings_simplified(n, c, fuel) is Some,
    ensures
        bindings_simplified(bindings_simplified(n, c, fuel).unwrap().0, c2, fuel2) == Some(
            (bindings_simplified(n, c, fuel).unwrap().0, c2),
        ),
{
    lemma_simplified_simple(n, c, fuel);
    lemma_simple_unchanged(bindings_simplified(n, c, fuel).unwrap().0, c2, fuel2);
}

/// How deep sequences are nested through their final nodes.
pub open spec fn final_depth(n: NodeSpec) -> nat
    decreases size(n),
{
    match n {
        NodeSpec::Sequence { nodes, .. } => if nodes.len() > 0 {
            proof {
                lemma_children_smaller(n);
            }
            1 + final_depth(children(n)[nodes.len() - 1])
        } else {
            0
        },
        _ => 0,
    }
}

/// Assigning a tree in which nothing binds or assigns a sequence to a variable reaches a
/// result within the depth of its final sequences.
pub proof fn lemma_assignment_reaches(v: NodeSpec, x: NodeSpec, c: nat, fuel: nat)
    requires
        v is Variable,
        bindings_simple(x),
        final_depth(x) <= fuel,
    ensures
        bindings_simplified(NodeSpec::Assign { lhs: Box::new(v), rhs: Box::new(x) }, c, fuel) is Some,
    decreases size(x),
{
    let a = NodeSpec::Assign { lhs: Box::new(v), rhs: Box::new(x) };
    assert(children(v) =~= Seq::<NodeSpec>::empty());
    lemma_simple_leaf(v);
    let cs = seq![v, x];
    assert(children(a) == cs);
    assert forall|i: int| 0 <= i < cs.len() implies bindings_simple(#[trigger] cs[i]) by {}
    lemma_simple_seq_unchanged(cs, c, fuel);
    assert(with_children(a, cs) == a);
    lemma_children_smaller(a);
    assert(bindings_simplified(a, c, fuel) == simplify_exit(a, c, fuel));
    if x is Sequence {
        let nodes = x->Sequence_nodes;
        if nodes.len() > 0 {
            lemma_children_smaller(x);
            lemma_tree_all_children(x, |m: NodeSpec| binds_no_sequence(m));
            let last = children(x)[nodes.len() - 1];
            assert(last == nodes.last());
            let temp = temp_name(binding_prefix(), next_count(c));
            lemma_assignment_reaches(
                NodeSpec::Variable { name: temp, typ: TypeSpec::Unknown },
                last,
                next_count(c),
                (fuel - 1) as nat,
            );
            assert(final_assigned(x, temp, TypeSpec::Unknown, next_count(c), fuel) is Some);
        }
    }
}

/// The result of the pass on a tree has final sequences no deeper than the tree is large.
pub proof fn lemma_result_final_depth(n: NodeSpec, c: nat, fuel: nat)
    requires
        bindings_simplified(n, c, fuel) is Some,
    ensures
        final_depth(bindings_simplified(n, c, fuel).unwrap().0) <= size(n),
    decreases size(n),
{
    lemma_children_smaller(n);
    let cs = children(n);
    let r = bindings_simplified_seq(cs, c, fuel).unwrap();
    lemma_simplified_seq_len(cs, c, fuel);
    lemma_fits_children(n);
    let m = with_children(n, r.0);
    crate::flatten_definitions::lemma_children_of_with_children(n, r.0);
    match n {
        NodeSpec::Sequence { nodes, .. } => {
            if nodes.len() > 0 {
                let prev = bindings_simplified_seq(cs.drop_last(), c, fuel).unwrap();
                assert(r.0.last() == bindings_simplified(cs.last(), prev.1, fuel).unwrap().0);
                lemma_result_final_depth(cs.last(), prev.1, fuel);
                lemma_children_smaller(m);
                assert(children(m)[nodes.len() - 1] == r.0.last());
            }
        },
        NodeSpec::Binding { .. } | NodeSpec::Assign { .. } => {
            let out = bindings_simplified(n, c, fuel).unwrap().0;
            if out is Sequence {
                lemma_children_smaller(out);
                let last = children(out)[children(out).len() - 1];
                assert(final_depth(last) == 0);
            }
        },
        _ => {},
    }
}

/// The pass always reaches a result: a depth bound as large as the tree suffices.
pub proof fn lemma_simplified_reaches(n: NodeSpec, c: nat, fuel: nat)
    requires
        size(n) <= fuel,
    ensures
        bindings_simplified(n, c, fuel) is Some,
    decreases size(n), 0nat,
{
    lemma_children_smaller(n);
    let cs = children(n);
    lemma_simplified_seq_reaches(cs, c, fuel);
    let r = bindings_simplified_seq(cs, c, fuel).unwrap();
    lemma_simplified_seq_len(cs, c, fuel);
    lemma_fits_children(n);
    let m = with_children(n, r.0);
    crate::flatten_definitions::lemma_children_of_with_children(n, r.0);
    match n {
        NodeSpec::Binding { binding, .. } => {
            assert(cs == seq![*binding]);
            assert(cs.drop_last() =~= Seq::<NodeSpec>::empty());
            let value = r.0[0];
            assert(value == bindings_simplified(*binding, c, fuel).unwrap().0);
            lemma_value_reaches(value, *binding, c, r.1, fuel, node_type(value));
        },
        NodeSpec::Assign { lhs, rhs } => {
            assert(cs == seq![*lhs, *rhs]);
            assert(cs.drop_last() =~= seq![*lhs]);
            let prev = bindings_simplified_seq(cs.drop_last(), c, fuel).unwrap();
            let value = r.0[1];
            assert(value == bindings_simplified(*rhs, prev.1, fuel).unwrap().0);
            lemma_value_reaches(value, *rhs, prev.1, r.1, fuel, TypeSpec::Unknown);
        },
        _ => {},
    }
}

/// A bound or assigned value that the pass produced from `original` gets its final node
/// assigned within the bound.
proof fn lemma_value_reaches(
    value: NodeSpec,
    original: NodeSpec,
    c0: nat,
    c: nat,
    fuel: nat,
    typ: TypeSpec,
)
    requires
        bindings_simplified(original, c0, fuel) is Some,
        value == bindings_simplified(original, c0, fuel).unwrap().0,
        size(original) < fuel,
    ensures
        value is Sequence ==> final_assigned(
            value,
            temp_name(binding_prefix(), next_count(c)),
            typ,
            next_count(c),
            fuel,
        ) is Some,
{
    if value is Sequence {
        let nodes = value->Sequence_nodes;
        if nodes.len() > 0 {
            lemma_simplified_simple(original, c0, fuel);
            lemma_result_final_depth(original, c0, fuel);
            lemma_children_smaller(value);
            lemma_tree_all_children(value, |m: NodeSpec| binds_no_sequence(m));
            let last = children(value)[nodes.len() - 1];
            assert(last == nodes.last());
            let temp = temp_name(binding_prefix(), next_count(c));
            lemma_assignment_reaches(
                NodeSpec::Variable { name: temp, typ },
                last,
                next_count(c),
                (fuel - 1) as nat,
            );
        }
    }
}

/// [`lemma_simplified_reaches`] for sequences of trees.
pub proof fn lemma_simplified_seq_reaches(s: Seq<NodeSpec>, c: nat, fuel: nat)
    requires
        forall|i: int| 0 <= i < s.len() ==> size(#[trigger] s[i]) <= fuel,
    ensures
        bindings_simplified_seq(s, c, fuel) is Some,
    decreases size_seq(s), 1nat,
{
    if s.len() > 0 {
        lemma_size_seq_element(s, s.len() - 1);
        assert forall|i: int| 0 <= i < s.len() - 1 implies size(#[trigger] s.drop_last()[i]) <= fuel by {
            assert(s.drop_last()[i] == s[i]);
        }
        lemma_simplified_seq_reaches(s.drop_last(), c, fuel);
        let r = bindings_simplified_seq(s.drop_last(), c, fuel).unwrap();
        assert(size(s[s.len() - 1]) <= fuel);
        lemma_simplified_reaches(s.last(), r.1, fuel);
    }
}

/// Whether the pass reaches a result on the whole tree with some depth bound.
pub open spec fn pass_applies(root: NodeSpec) -> bool {
    exists|fuel: nat| #[trigger] bindings_simplified(root, 0, fuel) is Some
}

/// A depth bound that the pass reaches on the tree (where it applies).
pub open spec fn pass_fuel(root: NodeSpec) -> nat {
    choose|fuel: nat| #[trigger] bindings_simplified(root, 0, fuel) is Some
}

/// What the pass does to the whole tree, the root included.
pub open spec fn pass_result(root: NodeSpec) -> NodeSpec {
    bindings_simplified(root, 0, pass_fuel(root)).unwrap().0
}

/// After the pass, no node binds or assigns a sequence directly.
pub proof fn lemma_pass_simplifies(root: NodeSpec)
    requires
        pass_applies(root),
    ensures
        bindings_simple(pass_result(root)),
{
    lemma_simplified_simple(root, 0, pass_fuel(root));
}

/// The pass always applies, and leaves a tree in which nothing binds or assigns a sequence
/// as it is.
pub proof fn lemma_pass_applies(root: NodeSpec)
    ensures
        pass_applies(root),
        bindings_simple(root) ==> pass_result(root) == root,
{
    lemma_simplified_reaches(root, 0, size(root));
    assert(bindings_simplified(root, 0, size(root)) is Some);
    if bindings_simple(root) {
        lemma_simple_unchanged(root, 0, pass_fuel(root));
    }
}

/// The sequence `s` with its final node `y` (if any) replaced by `(name = y)`, simplified
/// again.
fn assign_final(
    s: Node,
    name: &String,
    typ: &Type,
    temp_name_generator: &mut TempNameGenerator,
    Ghost(fuel): Ghost<nat>,
) -> (r: Node)
    requires
        old(temp_name_generator).prefix() == binding_prefix(),
        final_assigned(s@, name@, typ@, old(temp_name_generator).count(), fuel) is Some,
    ensures
        final(temp_name_generator).prefix() == binding_prefix(),
        (r@, final(temp_name_generator).count()) == final_assigned(s@, name@, typ@, old(temp_name_generator).count(), fuel).unwrap(),
    decreases fuel, 0nat, 0nat,
{
    match s {
        Node::Sequence { mode, nodes, typ: sequence_type } => {
            let ghost nv = nodes_view(nodes);
            let mut nodes = nodes;
            proof {
                lemma_nodes_view(nodes);
            }
            if nodes.len() == 0 {
                return Node::Sequence { mode, nodes, typ: sequence_type };
            }
            // Change the last node of the sequence to an assignment to the temporary
            let final_node = nodes.pop().unwrap();
            proof {
                lemma_nodes_view(nodes);
                assert(nodes_view(nodes) =~= nv.drop_last());
                assert(final_node@ == nv.last());
            }
            let variable_name = name.clone();
            let variable_type = typ.copy();
            assert(variable_name@ == name@);
            let variable = Node::Variable { name: variable_name, typ: variable_type };
            assert(variable@ == NodeSpec::Variable { name: name@, typ: typ@ });
            let assignment = Node::Assign { lhs: Box::new(variable), rhs: Box::new(final_node) };
            assert(fuel > 0);
            assert(assignment@ == NodeSpec::Assign {
                lhs: Box::new(NodeSpec::Variable { name: name@, typ: typ@ }),
                rhs: Box::new(nv.last()),
            });
            // Make sure the right-hand side of the assignment isn't a sequence
            let simplified = simplify_sequences(assignment, temp_name_generator, Ghost((fuel - 1) as nat));
            let ghost sv = simplified@;
            nodes.push(simplified);
            proof {
                lemma_nodes_view(nodes);
                assert(nodes_view(nodes) =~= nv.drop_last().push(sv));
            }
            Node::Sequence { mode, nodes, typ: sequence_type }
        },
        other => other,
    }
}

/// The tree `node` after the pass: its children first, then the node itself.
fn simplify_sequences(
    node: Node,
    temp_name_generator: &mut TempNameGenerator,
    Ghost(fuel): Ghost<nat>,
) -> (r: Node)
    requires
        old(temp_name_generator).prefix() == binding_prefix(),
        bindings_simplified(node@, old(temp_name_generator).count(), fuel) is Some,
    ensures
        final(temp_name_generator).prefix() == binding_prefix(),
        (r@, final(temp_name_generator).count()) == bindings_simplified(node@, old(temp_name_generator).count(), fuel).unwrap(),
    decreases fuel, size(node@), 1nat,
{
    let ghost n = node@;
    let ghost c0 = temp_name_generator.count();
    proof {
        lemma_children_smaller(n);
    }
    // Make sure bindings to sequences have been simplified in child nodes
    let (shell, kids) = take_children(node);
    let done = simplify_all(kids, temp_name_generator, Ghost(fuel));
    proof {
        lemma_nodes_view(done);
        lemma_simplified_seq_len(children(n), c0, fuel);
        lemma_fits_children(n);
    }
    let m = put_children(shell, done);
    simplify_node(m, temp_name_generator, Ghost(fuel))
}

/// [`simplify_sequences`] on each node of a list, in order.
fn simplify_all(
    nodes: Vec<Node>,
    temp_name_generator: &mut TempNameGenerator,
    Ghost(fuel): Ghost<nat>,
) -> (r: Vec<Node>)
    requires
        old(temp_name_generator).prefix() == binding_prefix(),
        bindings_simplified_seq(nodes_view(nodes), old(temp_name_generator).count(), fuel) is Some,
    ensures
        final(temp_name_generator).prefix() == binding_prefix(),
        (nodes_view(r), final(temp_name_generator).count()) == bindings_simplified_seq(
            nodes_view(nodes),
            old(temp_name_generator).count(),
            fuel,
        ).unwrap(),
    decreases fuel, size_seq(nodes_view(nodes)), 2nat,
{
    let ghost cs = nodes_view(nodes);
    let ghost c0 = temp_name_generator.count();
    let mut done: Vec<Node> = Vec::new();
    let mut rest = nodes;
    proof {
        lemma_nodes_view(rest);
        lemma_nodes_view(done);
        assert forall|j: int| 0 <= j < cs.len() implies size(#[trigger] cs[j]) <= size_seq(cs) by {
            lemma_size_seq_element(cs, j);
        }
        assert(cs.take(0) =~= Seq::<NodeSpec>::empty());
    }
    while rest.len() > 0
        invariant
            cs == nodes_view(nodes),
            temp_name_generator.prefix() == binding_prefix(),
            bindings_simplified_seq(cs, c0, fuel) is Some,
            done.len() + rest.len() == cs.len(),
            forall|j: int| 0 <= j < rest.len() ==> (#[trigger] rest@[j])@ == cs[done.len() + j],
            forall|j: int| 0 <= j < cs.len() ==> size(#[trigger] cs[j]) <= size_seq(cs),
            bindings_simplified_seq(cs.take(done.len() as int), c0, fuel) is Some,
            (nodes_view(done), temp_name_generator.count()) == bindings_simplified_seq(
                cs.take(done.len() as int),
                c0,
                fuel,
            ).unwrap(),
        decreases rest.len(),
    {
        let ghost i = done.len() as int;
        let ghost before = rest@;
        let k = rest.remove(0);
        assert(k@ == cs[i]);
        let ghost t = cs.take(i + 1);
        proof {
            lemma_simplified_seq_prefix(cs, c0, fuel, i + 1);
            assert(t.drop_last() =~= cs.take(i));
            assert(t.last() == cs[i]);
        }
        let k2 = simplify_sequences(k, temp_name_generator, Ghost(fuel));
        done.push(k2);
        proof {
            lemma_nodes_view(done);
            assert(nodes_view(done) =~= bindings_simplified_seq(t, c0, fuel).unwrap().0);
            assert forall|j: int| 0 <= j < rest.len() implies (#[trigger] rest@[j])@
                == cs[done.len() + j] by {
                assert(rest@[j] == before[j + 1]);
            }
        }
    }
    assert(cs.take(cs.len() as int) =~= cs);
    done
}

/// Whether a node is a sequence.
fn is_sequence(n: &Node) -> (r: bool)
    ensures
        r == (n@ is Sequence),
{
    match n {
        Node::Sequence { .. } => true,
        _ => false,
    }
}

/// A node after its children: a binding or an assignment of a sequence goes through a new
/// temporary.
fn simplify_node(m: Node, temp_name_generator: &mut TempNameGenerator, Ghost(fuel): Ghost<nat>) -> (r: Node)
    requires
        old(temp_name_generator).prefix() == binding_prefix(),
        simplify_exit(m@, old(temp_name_generator).count(), fuel) is Some,
    ensures
        final(temp_name_generator).prefix() == binding_prefix(),
        (r@, final(temp_name_generator).count()) == simplify_exit(m@, old(temp_name_generator).count(), fuel).unwrap(),
    decreases fuel, 0nat, 1nat,
{
    match m {
        Node::Binding { name, binding } => {
            if is_sequence(&binding) {
                let binding_type = binding.get_type();
                // Create a temporary variable to hold the result of the sequence
                let temp = temp_name_generator.next();
                let inner = assign_final(*binding, &temp, &binding_type, temp_name_generator, Ghost(fuel));
                // let temp = nothing (the binding type is kept)
                let nothing_type = binding_type.copy();
                let nothing = Node::Nothing { typ: nothing_type };
                let declared = temp.clone();
                assert(declared@ == temp@);
                let ghost bt = binding_type@;
                let ghost tn = temp@;
                assert(nothing@ == NodeSpec::Nothing { typ: bt });
                let bind_temp = Node::Binding { name: declared, binding: Box::new(nothing) };
                assert(bind_temp@ == NodeSpec::Binding { name: tn, binding: Box::new(NodeSpec::Nothing { typ: bt }) });
                // let x = temp
                let variable = Node::Variable { name: temp, typ: binding_type };
                assert(variable@ == NodeSpec::Variable { name: tn, typ: bt });
                let ghost nn = name@;
                let rebind = Node::Binding { name, binding: Box::new(variable) };
                assert(rebind@ == NodeSpec::Binding { name: nn, binding: Box::new(NodeSpec::Variable { name: tn, typ: bt }) });
                let mut outer: Vec<Node> = Vec::new();
                outer.push(bind_temp);
                outer.push(inner);
                outer.push(rebind);
                proof {
                    lemma_nodes_view(outer);
                    assert(nodes_view(outer) =~= seq![outer@[0]@, outer@[1]@, outer@[2]@]);
                }
                // Transparent, so the binding isn't trapped inside a new scope
                Node::new_sequence(SequenceMode::Transparent, outer)
            } else {
                Node::Binding { name, binding }
            }
        },
        Node::Assign { lhs, rhs } => {
            if is_sequence(&rhs) {
                let temp = temp_name_generator.next();
                let rhs_type = rhs.get_type();
                let unknown = Type::Unknown;
                let inner = assign_final(*rhs, &temp, &unknown, temp_name_generator, Ghost(fuel));
                let ghost rt = rhs_type@;
                let ghost tn = temp@;
                let nothing = Node::Nothing { typ: rhs_type };
                assert(nothing@ == NodeSpec::Nothing { typ: rt });
                let declared = temp.clone();
                assert(declared@ == temp@);
                let create_temp = Node::Binding { name: declared, binding: Box::new(nothing) };
                assert(create_temp@ == NodeSpec::Binding { name: tn, binding: Box::new(NodeSpec::Nothing { typ: rt }) });
                let variable = Node::Variable { name: temp, typ: Type::Unknown };
                assert(variable@ == NodeSpec::Variable { name: tn, typ: TypeSpec::Unknown });
                let ghost lv = (*lhs)@;
                let assignment = Node::Assign { lhs, rhs: Box::new(variable) };
                assert(assignment@ == NodeSpec::Assign { lhs: Box::new(lv), rhs: Box::new(NodeSpec::Variable { name: tn, typ: TypeSpec::Unknown }) });
                let mut outer: Vec<Node> = Vec::new();
                outer.push(create_temp);
                outer.push(inner);
                outer.push(assignment);
                proof {
                    lemma_nodes_view(outer);
                    assert(nodes_view(outer) =~= seq![outer@[0]@, outer@[1]@, outer@[2]@]);
                }
                Node::new_sequence(SequenceMode::Transparent, outer)
            } else {
                Node::Assign { lhs, rhs }
            }
        },
        other => other,
    }
}

/// Moves each sequence that is bound or assigned before its binding or assignment, through a
/// new temporary that holds its value.
pub fn apply(root: &mut Node)
    ensures
        final(root)@ == pass_result(old(root)@),
{
    proof {
        lemma_pass_applies(root@);
    }
    let ghost fuel = pass_fuel(root@);
    let mut temp_name_generator = TempNameGenerator::new("bindseq");
    proof {
        reveal_strlit("bindseq");
        assert("bindseq"@ =~= binding_prefix());
    }
    let node = root.extract_temp();
    *root = simplify_sequences(node, &mut temp_name_generator, Ghost(fuel));
}

} // verus!

//! Flatten Bindings pass: turns bindings of complex nodes into assignments to a temporary.
use vstd::prelude::*;
use crate::ast::{
    group_ast_views, is_complex, lemma_nodes_view, new_sequence, node_type, nodes_view, Node,
    NodeSpec, SequenceMode, Type, TypeSpec,
};
use crate::errors::{Error, ResultLog};
use crate::names::{next_count, temp_name, TempNameGenerator};
use crate::tree::{
    children, fits, lemma_children_smaller, lemma_size_seq_element, lemma_tree_all_seq,
    put_children, size, size_seq, take_children, tree_all, tree_all_seq, with_children,
};
use crate::flatten_definitions::lemma_children_of_with_children;
use crate::wrap::{wrap_results, Wrap, WrapPass, WrapSpec};

verus! {

broadcast use group_ast_views;

/// The prefix of the temporary variables of this pass.
pub open spec fn binding_prefix() -> Seq<char> {
    seq!['x', 'b', 'i', 'n', 'd']
}

/// A node after its children: a binding of a complex node `let name = value` becomes
///
/// ```text
/// let temp = [nothing]
/// value, with each result `r` replaced by `temp = r`
/// let name = temp
/// ```
///
/// in a transparent sequence, where `temp` is a new temporary of the value's type.
pub open spec fn bindings_exit(n: NodeSpec, c: nat) -> (NodeSpec, nat) {
    match n {
        NodeSpec::Binding { name, binding } => if is_complex(*binding) {
            let t = temp_name(binding_prefix(), next_count(c));
            let ty = node_type(*binding);
            (
                new_sequence(
                    SequenceMode::Transparent,
                    seq![
                        NodeSpec::Binding {
                            name: t,
                            binding: Box::new(NodeSpec::Nothing { typ: ty }),
                        },
                        wrap_results(WrapSpec::AssignTo(t, ty), *binding),
                        NodeSpec::Binding {
                            name,
                            binding: Box::new(NodeSpec::Variable { name: t, typ: ty }),
                        },
                    ],
                ),
                next_count(c),
            )
        } else {
            (n, c)
        },
        _ => (n, c),
    }
}

/// The tree `n` with every binding of a complex node flattened, and the count of temporary
/// names drawn after it (`c` before).
pub open spec fn flattened_bindings(n: NodeSpec, c: nat) -> (NodeSpec, nat)
    decreases size(n), 0nat,
{
    proof {
        lemma_children_smaller(n);
    }
    let r = flattened_bindings_seq(children(n), c);
    bindings_exit(with_children(n, r.0), r.1)
}

/// [`flattened_bindings`] of each tree of a sequence, in order.
pub open spec fn flattened_bindings_seq(s: Seq<NodeSpec>, c: nat) -> (Seq<NodeSpec>, nat)
    decreases size_seq(s), 1nat,
{
    if s.len() == 0 {
        (s, c)
    } else {
        proof {
            lemma_size_seq_element(s, s.len() - 1);
        }
        let r = flattened_bindings_seq(s.drop_last(), c);
        let e = flattened_bindings(s.last(), r.1);
        (r.0.push(e.0), e.1)
    }
}

/// ## Flatten Bindings Pass
///
/// - Converts complex bindings into an empty temporary variable followed by a complex expression
///     that assigns to the temporary
///
/// ex.
///
/// ```text
///     let foo = { bar }
///     ==>
///     /
///         let _temp = [nothing]
///         {
///             temp = bar
///         }
///         let foo = temp
///     \
/// ```
pub struct FlattenBindings {
    temp_names: TempNameGenerator,
}

/// Pass state for FlattenBindings (the pass keeps no state per node).
pub struct PassState {}

impl PassState {
    pub fn new() -> PassState {
        PassState {}
    }
}

impl FlattenBindings {
    /// How many temporary names were drawn so far.
    pub closed spec fn count(&self) -> nat {
        self.temp_names.count()
    }

    /// Whether the names drawn are those of this pass's temporaries.
    pub closed spec fn wf(&self) -> bool {
        self.temp_names.prefix() == binding_prefix()
    }

    pub fn new() -> (r: FlattenBindings)
        ensures
            r.wf(),
            r.count() == 0,
    {
        proof {
            reveal_strlit("xbind");
            assert("xbind"@ =~= binding_prefix());
        }
        FlattenBindings { temp_names: TempNameGenerator::new("xbind") }
    }

    fn exit(&mut self, node: Node) -> (r: Node)
        requires
            old(self).wf(),
        ensures
            final(self).wf(),
            (r@, final(self).count()) == bindings_exit(node@, old(self).count()),
    {
        match node {
            Node::Binding { name, binding } => {
                if !binding.is_complex() {
                    return Node::Binding { name, binding };
                }
                let binding_type = binding.get_type();

                // Create a new temporary variable
                let temporary_name = self.temp_names.next();
                let nothing = Node::Nothing { typ: binding_type.copy() };
                assert(nothing@ == NodeSpec::Nothing { typ: binding_type@ });
                let bind_temporary = Node::Binding {
                    name: temporary_name.clone(),
                    binding: Box::new(nothing),
                };

                // Extract the original binding, replacing it with the temporary variable
                let temporary_variable = Node::Variable {
                    name: temporary_name.clone(),
                    typ: binding_type.copy(),
                };
                assert(temporary_variable@ == NodeSpec::Variable {
                    name: temporary_name@,
                    typ: binding_type@,
                });
                let mut binding = binding;
                let mut assign_temporary = binding.extract(temporary_variable);

                // Wrap the result of the original binding with an assignment to the temporary
                let wrap_pass = WrapPass::new(Wrap::AssignTo(temporary_name, binding_type));
                wrap_pass.apply(&mut assign_temporary);

                // Get the original binding node (let original = temporary)
                let bind_original = Node::Binding { name, binding };
                let ghost b1 = bind_temporary@;
                let ghost b2 = assign_temporary@;
                let ghost b3 = bind_original@;
                let mut nodes = Vec::new();
                nodes.push(bind_temporary);
                nodes.push(assign_temporary);
                nodes.push(bind_original);
                proof {
                    lemma_nodes_view(nodes);
                    assert(nodes_view(nodes) =~= seq![b1, b2, b3]);
                }
                Node::new_sequence(SequenceMode::Transparent, nodes)
            },
            other => other,
        }
    }

    fn walk(&mut self, node: Node) -> (r: Node)
        requires
            old(self).wf(),
        ensures
            final(self).wf(),
            (r@, final(self).count()) == flattened_bindings(node@, old(self).count()),
        decreases size(node@),
    {
        let ghost n = node@;
        let ghost c0 = self.count();
        proof {
            lemma_children_smaller(n);
        }
        let (shell, kids) = take_children(node);
        let ghost cs = children(n);
        let mut done: Vec<Node> = Vec::new();
        let mut rest = kids;
        proof {
            lemma_nodes_view(rest);
            lemma_nodes_view(done);
            assert(cs.take(0) =~= Seq::<NodeSpec>::empty());
        }
        while rest.len() > 0
            invariant
                n == node@,
                self.wf(),
                done.len() + rest.len() == cs.len(),
                forall|j: int| 0 <= j < rest.len() ==> (#[trigger] rest@[j])@ == cs[done.len() + j],
                forall|j: int| 0 <= j < cs.len() ==> size(#[trigger] cs[j]) < size(n),
                (nodes_view(done), self.count()) == flattened_bindings_seq(
                    cs.take(done.len() as int),
                    c0,
                ),
            decreases rest.len(),
        {
            let ghost i = done.len() as int;
            let ghost before = rest@;
            let k = rest.remove(0);
            assert(k@ == cs[i]);
            let k2 = self.walk(k);
            done.push(k2);
            proof {
                lemma_nodes_view(done);
                let t = cs.take(i + 1);
                assert(t.drop_last() =~= cs.take(i));
                assert(t.last() == cs[i]);
                assert(nodes_view(done) =~= flattened_bindings_seq(t, c0).0);
                assert forall|j: int| 0 <= j < rest.len() implies (#[trigger] rest@[j])@
                    == cs[done.len() + j] by {
                    assert(rest@[j] == before[j + 1]);
                }
            }
        }
        assert(cs.take(cs.len() as int) =~= cs);
        proof {
            lemma_flattened_bindings_seq_len(cs, c0);
        }
        let rebuilt = put_children(shell, done);
        self.exit(rebuilt)
    }

    /// Flattens every binding of a complex node in the tree.
    pub fn apply(&mut self, node: &mut Node) -> (r: ResultLog<(), Error>)
        requires
            old(self).wf(),
        ensures
            final(self).wf(),
            (final(node)@, final(self).count()) == flattened_bindings(old(node)@, old(self).count()),
            r is Success,
    {
        let n = node.extract_temp();
        *node = self.walk(n);
        ResultLog::Success(())
    }
}

/// The pass keeps the number of trees of a sequence.
pub proof fn lemma_flattened_bindings_seq_len(s: Seq<NodeSpec>, c: nat)
    ensures
        flattened_bindings_seq(s, c).0.len() == s.len(),
    decreases s.len(),
{
    if s.len() > 0 {
        lemma_flattened_bindings_seq_len(s.drop_last(), c);
    }
}


/// Whether a node is not a binding of a complex node.
pub open spec fn simple_binding(n: NodeSpec) -> bool {
    !(n matches NodeSpec::Binding { binding, .. } && is_complex(*binding))
}

/// Wrapping the results of a tree in which no binding binds a complex node keeps it so.
pub proof fn lemma_wrap_keeps_simple_bindings(w: WrapSpec, x: NodeSpec)
    requires
        tree_all(x, |y: NodeSpec| simple_binding(y)),
    ensures
        tree_all(wrap_results(w, x), |y: NodeSpec| simple_binding(y)),
    decreases x,
{
    let p = |y: NodeSpec| simple_binding(y);
    lemma_tree_all_seq(children(x), p);
    match x {
        NodeSpec::Sequence { mode, nodes, typ } => {
            match crate::ast::result_index(nodes) {
                Some(i) => {
                    if 0 <= i < nodes.len() {
                        lemma_wrap_keeps_simple_bindings(w, nodes[i]);
                        let updated = nodes.update(i, wrap_results(w, nodes[i]));
                        lemma_tree_all_seq(updated, p);
                        assert(children(wrap_results(w, x)) == updated);
                    }
                },
                None => {},
            }
        },
        NodeSpec::Conditional { condition, then_branch, else_branch, typ } => {
            lemma_wrap_keeps_simple_bindings(w, *then_branch);
            lemma_wrap_keeps_simple_bindings(w, *else_branch);
            let r = wrap_results(w, x);
            assert(children(x)[0] == *condition);
            lemma_tree_all_seq(children(r), p);
        },
        _ => {
            let r = wrap_results(w, x);
            assert(children(x).len() >= 0);
            match w {
                WrapSpec::Return => {
                    let op = NodeSpec::PrimitiveOperator {
                        operator: crate::ast::Operator::Return,
                        typ: TypeSpec::Unknown,
                    };
                    assert(children(op) =~= Seq::<NodeSpec>::empty());
                    assert(tree_all(op, p));
                    assert(children(r) =~= seq![op, x]);
                    lemma_tree_all_seq(children(r), p);
                },
                WrapSpec::AssignTo(name, t) => {
                    let v = NodeSpec::Variable { name, typ: t };
                    assert(children(v) =~= Seq::<NodeSpec>::empty());
                    assert(tree_all(v, p));
                    assert(children(r) =~= seq![v, x]);
                    lemma_tree_all_seq(children(r), p);
                },
            }
        },
    }
}

/// After the pass, no binding binds a complex node (a sequence or a conditional).
pub proof fn lemma_flattened_bindings_simple(n: NodeSpec, c: nat)
    ensures
        tree_all(flattened_bindings(n, c).0, |y: NodeSpec| simple_binding(y)),
    decreases size(n), 0nat,
{
    let p = |y: NodeSpec| simple_binding(y);
    lemma_children_smaller(n);
    let cs = children(n);
    lemma_flattened_bindings_seq_simple(cs, c);
    lemma_flattened_bindings_seq_len(cs, c);
    let r = flattened_bindings_seq(cs, c);
    assert(fits(n, cs.len()));
    lemma_children_of_with_children(n, r.0);
    let m = with_children(n, r.0);
    lemma_tree_all_seq(r.0, p);
    match m {
        NodeSpec::Binding { name, binding } => {
            if is_complex(*binding) {
                let t = temp_name(binding_prefix(), next_count(r.1));
                let ty = node_type(*binding);
                assert(r.0[0] == *binding);
                lemma_wrap_keeps_simple_bindings(WrapSpec::AssignTo(t, ty), *binding);
                let nothing = NodeSpec::Nothing { typ: ty };
                let b1 = NodeSpec::Binding { name: t, binding: Box::new(nothing) };
                let variable = NodeSpec::Variable { name: t, typ: ty };
                let b3 = NodeSpec::Binding { name, binding: Box::new(variable) };
                assert(children(nothing) =~= Seq::<NodeSpec>::empty());
                assert(tree_all(nothing, p));
                assert(children(b1) =~= seq![nothing]);
                lemma_tree_all_seq(children(b1), p);
                assert(tree_all(b1, p));
                assert(children(variable) =~= Seq::<NodeSpec>::empty());
                assert(tree_all(variable, p));
                assert(children(b3) =~= seq![variable]);
                lemma_tree_all_seq(children(b3), p);
                assert(tree_all(b3, p));
                let nodes = seq![b1, wrap_results(WrapSpec::AssignTo(t, ty), *binding), b3];
                lemma_tree_all_seq(nodes, p);
                assert(children(flattened_bindings(n, c).0) == nodes);
            } else {
                assert(tree_all(m, p));
            }
        },
        _ => {
            assert(tree_all(m, p));
        },
    }
}

/// [`lemma_flattened_bindings_simple`] for sequences of trees.
pub proof fn lemma_flattened_bindings_seq_simple(s: Seq<NodeSpec>, c: nat)
    ensures
        tree_all_seq(flattened_bindings_seq(s, c).0, |y: NodeSpec| simple_binding(y)),
    decreases size_seq(s), 1nat,
{
    let p = |y: NodeSpec| simple_binding(y);
    if s.len() > 0 {
        lemma_size_seq_element(s, s.len() - 1);
        lemma_flattened_bindings_seq_simple(s.drop_last(), c);
        let r = flattened_bindings_seq(s.drop_last(), c);
        lemma_flattened_bindings_simple(s.last(), r.1);
        let out = flattened_bindings_seq(s, c).0;
        assert(out.drop_last() =~= r.0);
    }
}

} // verus!

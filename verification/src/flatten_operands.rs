//! Flatten Operands pass: binds complex operands to temporary variables.
use vstd::prelude::*;
use crate::ast::{
    group_ast_views, is_complex, lemma_nodes_view, new_sequence, nodes_view, Node, NodeSpec,
    SequenceMode, Type, TypeSpec,
};
use crate::errors::{Error, ResultLog};
use crate::flatten_definitions::lemma_children_of_with_children;
use crate::names::{next_count, temp_name, TempNameGenerator};
use crate::tree::{
    children, fits, lemma_children_smaller, lemma_size_seq_element, put_children, size, size_seq,
    take_children, with_children,
};

verus! {

broadcast use group_ast_views;

/// The prefix of the temporary variables of this pass.
pub open spec fn operand_prefix() -> Seq<char> {
    seq!['x', 'o', 'p']
}

/// Each complex node of `s` replaced by a new temporary variable: the new nodes, the
/// bindings of the temporaries to the complex nodes (in order), and the count of temporary
/// names drawn.
pub open spec fn bind_complex(s: Seq<NodeSpec>, c: nat) -> (Seq<NodeSpec>, Seq<NodeSpec>, nat)
    decreases s.len(),
{
    if s.len() == 0 {
        (s, Seq::empty(), c)
    } else {
        let r = bind_complex(s.drop_last(), c);
        let x = s.last();
        if is_complex(x) {
            let name = temp_name(operand_prefix(), next_count(r.2));
            (
                r.0.push(NodeSpec::Variable { name, typ: TypeSpec::Unknown }),
                r.1.push(NodeSpec::Binding { name, binding: Box::new(x) }),
                next_count(r.2),
            )
        } else {
            (r.0.push(x), r.1, r.2)
        }
    }
}

/// `n` preceded by `bindings` in a transparent sequence, or `n` itself when there are none.
pub open spec fn prepend_bindings(n: NodeSpec, bindings: Seq<NodeSpec>) -> NodeSpec {
    if bindings.len() == 0 {
        n
    } else {
        new_sequence(SequenceMode::Transparent, bindings.push(n))
    }
}

/// Whether every child of a node must be simple (call-like nodes).
pub open spec fn is_call_like(n: NodeSpec) -> bool {
    n is Call || n is Reference || n is Dereference || n is Assign || n is Access
}

/// A node after its children: complex children of call-like nodes, and a complex condition
/// of a conditional, are bound to temporaries first.
pub open spec fn operands_exit(n: NodeSpec, c: nat) -> (NodeSpec, nat) {
    if is_call_like(n) {
        let b = bind_complex(children(n), c);
        (prepend_bindings(with_children(n, b.0), b.1), b.2)
    } else {
        match n {
            NodeSpec::Conditional { condition, then_branch, else_branch, typ } => {
                let b = bind_complex(seq![*condition], c);
                (
                    prepend_bindings(
                        NodeSpec::Conditional { condition: Box::new(b.0[0]), then_branch, else_branch, typ },
                        b.1,
                    ),
                    b.2,
                )
            },
            _ => (n, c),
        }
    }
}

/// The tree `n` with every complex operand bound to a temporary, and the count of temporary
/// names drawn after it (`c` before).
pub open spec fn flattened_operands(n: NodeSpec, c: nat) -> (NodeSpec, nat)
    decreases size(n), 0nat,
{
    proof {
        lemma_children_smaller(n);
    }
    let r = flattened_operands_seq(children(n), c);
    operands_exit(with_children(n, r.0), r.1)
}

/// [`flattened_operands`] of each tree of a sequence, in order.
pub open spec fn flattened_operands_seq(s: Seq<NodeSpec>, c: nat) -> (Seq<NodeSpec>, nat)
    decreases size_seq(s), 1nat,
{
    if s.len() == 0 {
        (s, c)
    } else {
        proof {
            lemma_size_seq_element(s, s.len() - 1);
        }
        let r = flattened_operands_seq(s.drop_last(), c);
        let e = flattened_operands(s.last(), r.1);
        (r.0.push(e.0), e.1)
    }
}

/// Whether the operands of a node are simple: no child of a call-like node, and no
/// condition of a conditional, is complex.
pub open spec fn simple_operands_here(n: NodeSpec) -> bool {
    &&& is_call_like(n) ==> forall|i: int| 0 <= i < children(n).len() ==> !is_complex(#[trigger] children(n)[i])
    &&& n matches NodeSpec::Conditional { condition, .. } ==> !is_complex(*condition)
}

/// Whether every operand in a tree is simple.
pub open spec fn operands_simple(n: NodeSpec) -> bool
    decreases size(n), 0nat,
{
    proof {
        lemma_children_smaller(n);
    }
    simple_operands_here(n) && operands_simple_seq(children(n))
}

/// Whether every operand in a sequence of trees is simple.
pub open spec fn operands_simple_seq(s: Seq<NodeSpec>) -> bool
    decreases size_seq(s), 1nat,
{
    if s.len() == 0 {
        true
    } else {
        proof {
            lemma_size_seq_element(s, s.len() - 1);
        }
        operands_simple_seq(s.drop_last()) && operands_simple(s.last())
    }
}

/// Binding complex nodes keeps the length, leaves no complex node, and binds only trees
/// whose operands are simple when the given ones are.
pub proof fn lemma_bind_complex(s: Seq<NodeSpec>, c: nat)
    requires
        operands_simple_seq(s),
    ensures
        bind_complex(s, c).0.len() == s.len(),
        forall|i: int| 0 <= i < s.len() ==> !is_complex(#[trigger] bind_complex(s, c).0[i]),
        forall|i: int| 0 <= i < s.len() ==> (operands_simple(s[i]) ==> operands_simple(
            #[trigger] bind_complex(s, c).0[i],
        )),
        operands_simple_seq(bind_complex(s, c).0),
        operands_simple_seq(bind_complex(s, c).1),
    decreases s.len(),
{
    if s.len() > 0 {
        lemma_bind_complex(s.drop_last(), c);
        let r = bind_complex(s.drop_last(), c);
        let b = bind_complex(s, c);
        assert(b.0.drop_last() =~= r.0);
        assert forall|i: int| 0 <= i < s.len() implies !is_complex(#[trigger] b.0[i]) by {
            if i < s.len() - 1 {
                assert(b.0[i] == r.0[i]);
            }
        }
        if is_complex(s.last()) {
            let name = temp_name(operand_prefix(), next_count(r.2));
            let v = NodeSpec::Variable { name, typ: TypeSpec::Unknown };
            let bd = NodeSpec::Binding { name, binding: Box::new(s.last()) };
            assert(children(v) =~= Seq::<NodeSpec>::empty());
            assert(operands_simple(v));
            assert(children(bd) =~= seq![s.last()]);
            assert(seq![s.last()].drop_last() =~= Seq::<NodeSpec>::empty());
            assert(operands_simple_seq(children(bd)));
            assert(operands_simple(bd));
            assert(b.1.drop_last() =~= r.1);
        } else {
            assert(b.1 == r.1);
        }
    }
}

/// Binding complex nodes keeps the length of the sequence.
pub proof fn lemma_bind_complex_len(s: Seq<NodeSpec>, c: nat)
    ensures
        bind_complex(s, c).0.len() == s.len(),
    decreases s.len(),
{
    if s.len() > 0 {
        lemma_bind_complex_len(s.drop_last(), c);
    }
}

/// Every tree of a sequence whose operands are all simple has simple operands, and the
/// converse.
pub proof fn lemma_operands_simple_seq(s: Seq<NodeSpec>)
    ensures
        operands_simple_seq(s) <==> forall|i: int| 0 <= i < s.len() ==> operands_simple(#[trigger] s[i]),
    decreases s.len(),
{
    if s.len() > 0 {
        lemma_operands_simple_seq(s.drop_last());
        assert forall|i: int| 0 <= i < s.len() - 1 implies s.drop_last()[i] == s[i] by {}
        if forall|i: int| 0 <= i < s.len() ==> operands_simple(#[trigger] s[i]) {
            assert(operands_simple(s[s.len() - 1]));
        }
    }
}

/// After the pass, every operand in the tree is simple: no child of a call-like node, and
/// no condition of a conditional, is a sequence or a conditional.
pub proof fn lemma_flattened_operands_simple(n: NodeSpec, c: nat)
    ensures
        operands_simple(flattened_operands(n, c).0),
    decreases size(n), 0nat,
{
    lemma_children_smaller(n);
    let cs = children(n);
    lemma_flattened_operands_seq_simple(cs, c);
    let r = flattened_operands_seq(cs, c);
    let m = with_children(n, r.0);
    assert(fits(n, cs.len()));
    lemma_children_of_with_children(n, r.0);
    lemma_operands_simple_seq(r.0);
    if is_call_like(m) {
        let b = bind_complex(children(m), r.1);
        lemma_bind_complex(children(m), r.1);
        let m2 = with_children(m, b.0);
        assert(fits(m, b.0.len()));
        lemma_children_of_with_children(m, b.0);
        assert(operands_simple(m2));
        lemma_prepend_simple(m2, b.1);
    } else if m is Conditional {
        let condition = *m->Conditional_condition;
        assert(children(m) == seq![condition, *m->Conditional_then_branch, *m->Conditional_else_branch]);
        assert(operands_simple(condition)) by {
            assert(children(m)[0] == condition);
        }
        let cseq = seq![condition];
        assert(cseq.drop_last() =~= Seq::<NodeSpec>::empty());
        assert(cseq.last() == condition);
        assert(operands_simple_seq(Seq::<NodeSpec>::empty()));
        assert(operands_simple_seq(cseq));
        let b = bind_complex(cseq, r.1);
        lemma_bind_complex(cseq, r.1);
        let m2 = NodeSpec::Conditional {
            condition: Box::new(b.0[0]),
            then_branch: m->Conditional_then_branch,
            else_branch: m->Conditional_else_branch,
            typ: m->Conditional_typ,
        };
        assert(children(m2) == children(m).update(0, b.0[0]));
        lemma_operands_simple_seq(children(m2));
        assert forall|i: int| 0 <= i < children(m2).len() implies operands_simple(
            #[trigger] children(m2)[i],
        ) by {
            if i > 0 {
                assert(children(m2)[i] == children(m)[i]);
            }
        }
        assert(operands_simple(m2));
        lemma_prepend_simple(m2, b.1);
    } else {
        assert(operands_simple(m));
    }
}

/// [`lemma_flattened_operands_simple`] for sequences of trees; the sequence keeps its length.
pub proof fn lemma_flattened_operands_seq_simple(s: Seq<NodeSpec>, c: nat)
    ensures
        flattened_operands_seq(s, c).0.len() == s.len(),
        operands_simple_seq(flattened_operands_seq(s, c).0),
    decreases size_seq(s), 1nat,
{
    if s.len() > 0 {
        lemma_size_seq_element(s, s.len() - 1);
        lemma_flattened_operands_seq_simple(s.drop_last(), c);
        let r = flattened_operands_seq(s.drop_last(), c);
        lemma_flattened_operands_simple(s.last(), r.1);
        let out = flattened_operands_seq(s, c).0;
        assert(out.drop_last() =~= r.0);
    }
}

/// Prepending bindings whose operands are simple to a tree whose operands are simple keeps
/// the operands simple.
pub proof fn lemma_prepend_simple(n: NodeSpec, bindings: Seq<NodeSpec>)
    requires
        operands_simple(n),
        operands_simple_seq(bindings),
    ensures
        operands_simple(prepend_bindings(n, bindings)),
{
    if bindings.len() > 0 {
        let all = bindings.push(n);
        assert(all.drop_last() =~= bindings);
        let sq = new_sequence(SequenceMode::Transparent, all);
        assert(children(sq) == all);
        assert(operands_simple_seq(all));
    }
}

/// ## Flatten Operands Pass
///
/// - Substitutes complex nodes used in operand context with a temporary binding such that all
///     operands are simple (either atomic or a call on simple operands)
pub struct FlattenOperands {
    temp_names: TempNameGenerator,
}

/// Pass state for FlattenOperands (the pass keeps no state per node).
pub struct PassState {}

impl PassState {
    pub fn new() -> PassState {
        PassState {}
    }
}

impl FlattenOperands {
    /// How many temporary names were drawn so far.
    pub closed spec fn count(&self) -> nat {
        self.temp_names.count()
    }

    /// Whether the names drawn are those of this pass's temporaries.
    pub closed spec fn wf(&self) -> bool {
        self.temp_names.prefix() == operand_prefix()
    }

    pub fn new() -> (r: FlattenOperands)
        ensures
            r.wf(),
            r.count() == 0,
    {
        proof {
            reveal_strlit("xop");
            assert("xop"@ =~= operand_prefix());
        }
        FlattenOperands { temp_names: TempNameGenerator::new("xop") }
    }

    /// Extract complex nodes, replacing each with a reference to a temporary variable
    ///
    /// - Returns the new nodes and a list of Binding nodes for each temporary variable
    ///   (which should go before the original node)
    fn bind_complex(&mut self, nodes: Vec<Node>) -> (r: (Vec<Node>, Vec<Node>))
        requires
            old(self).wf(),
        ensures
            final(self).wf(),
            (nodes_view(r.0), nodes_view(r.1), final(self).count()) == bind_complex(
                nodes_view(nodes),
                old(self).count(),
            ),
    {
        let ghost s = nodes_view(nodes);
        let ghost c0 = self.count();
        proof {
            lemma_nodes_view(nodes);
        }
        let mut rest = nodes;
        let mut done: Vec<Node> = Vec::new();
        let mut bindings: Vec<Node> = Vec::new();
        proof {
            lemma_nodes_view(done);
            lemma_nodes_view(bindings);
            assert(s.take(0) =~= Seq::<NodeSpec>::empty());
        }
        while rest.len() > 0
            invariant
                self.wf(),
                done.len() + rest.len() == s.len(),
                forall|j: int| 0 <= j < rest.len() ==> (#[trigger] rest@[j])@ == s[done.len() + j],
                (nodes_view(done), nodes_view(bindings), self.count()) == bind_complex(
                    s.take(done.len() as int),
                    c0,
                ),
            decreases rest.len(),
        {
            let ghost i = done.len() as int;
            let ghost before = rest@;
            let ghost bv = nodes_view(bindings);
            let mut k = rest.remove(0);
            assert(k@ == s[i]);
            let ghost t = s.take(i + 1);
            assert(t.drop_last() =~= s.take(i));
            assert(t.last() == s[i]);
            if k.is_complex() {
                let temp_name = self.temp_names.next();
                let variable = Node::Variable { name: temp_name.clone(), typ: Type::Unknown };
                let original = k.extract(variable);
                let ghost ov = original@;
                let binding = Node::Binding { name: temp_name, binding: Box::new(original) };
                bindings.push(binding);
                proof {
                    lemma_nodes_view(bindings);
                    assert(nodes_view(bindings) =~= bv.push(binding@));
                }
            }
            done.push(k);
            proof {
                lemma_nodes_view(done);
                assert(nodes_view(done) =~= bind_complex(t, c0).0);
                assert forall|j: int| 0 <= j < rest.len() implies (#[trigger] rest@[j])@
                    == s[done.len() + j] by {
                    assert(rest@[j] == before[j + 1]);
                }
            }
        }
        assert(s.take(s.len() as int) =~= s);
        (done, bindings)
    }

    /// Takes a node and prepends it with a list of bindings for all temporary complex operand
    /// variables
    fn prepend_bindings(node: Node, bindings: Vec<Node>) -> (r: Node)
        ensures
            r@ == prepend_bindings(node@, nodes_view(bindings)),
    {
        if bindings.len() == 0 {
            proof {
                lemma_nodes_view(bindings);
            }
            return node;
        }
        let ghost bv = nodes_view(bindings);
        let ghost nv = node@;
        let mut bindings = bindings;
        proof {
            lemma_nodes_view(bindings);
        }
        bindings.push(node);
        proof {
            lemma_nodes_view(bindings);
            assert(nodes_view(bindings) =~= bv.push(nv));
        }
        Node::new_sequence(SequenceMode::Transparent, bindings)
    }

    fn exit(&mut self, node: Node) -> (r: Node)
        requires
            old(self).wf(),
        ensures
            final(self).wf(),
            (r@, final(self).count()) == operands_exit(node@, old(self).count()),
    {
        let call_like = match &node {
            Node::Call { .. } | Node::Reference { .. } | Node::Dereference { .. }
            | Node::Assign { .. } | Node::Access { .. } => true,
            _ => false,
        };
        if call_like {
            // All children of call-like nodes must be simple
            let ghost nv = node@;
            let (shell, kids) = take_children(node);
            let ghost kv = nodes_view(kids);
            let ghost c0 = self.count();
            let (kids, bindings) = self.bind_complex(kids);
            proof {
                lemma_nodes_view(kids);
                lemma_bind_complex_len(kv, c0);
            }
            let rebuilt = put_children(shell, kids);
            Self::prepend_bindings(rebuilt, bindings)
        } else {
            match node {
                Node::Conditional { condition, then_branch, else_branch, typ } => {
                    // Only the condition node of a Conditional must be simple
                    let ghost cv = (*condition)@;
                    let mut conditions = Vec::new();
                    conditions.push(*condition);
                    proof {
                        lemma_nodes_view(conditions);
                        assert(nodes_view(conditions) =~= seq![cv]);
                    }
                    let ghost c0 = self.count();
                    let (mut conditions, bindings) = self.bind_complex(conditions);
                    proof {
                        lemma_nodes_view(conditions);
                        lemma_bind_complex_len(seq![cv], c0);
                    }
                    let condition = conditions.remove(0);
                    let rebuilt = Node::Conditional {
                        condition: Box::new(condition),
                        then_branch,
                        else_branch,
                        typ,
                    };
                    Self::prepend_bindings(rebuilt, bindings)
                },
                other => other,
            }
        }
    }

    fn walk(&mut self, node: Node) -> (r: Node)
        requires
            old(self).wf(),
        ensures
            final(self).wf(),
            (r@, final(self).count()) == flattened_operands(node@, old(self).count()),
        decreases size(node@),
    {
        let ghost n = node@;
        let ghost c0 = self.count();
        proof {
            lemma_children_smaller(n);
        }
        let (shell, kids) = take_children(node);
        let ghost cs = children(n);
        let mut done: Vec<Node> = Vec::new();
        let mut rest = kids;
        proof {
            lemma_nodes_view(rest);
            lemma_nodes_view(done);
            assert(cs.take(0) =~= Seq::<NodeSpec>::empty());
        }
        while rest.len() > 0
            invariant
                n == node@,
                self.wf(),
                done.len() + rest.len() == cs.len(),
                forall|j: int| 0 <= j < rest.len() ==> (#[trigger] rest@[j])@ == cs[done.len() + j],
                forall|j: int| 0 <= j < cs.len() ==> size(#[trigger] cs[j]) < size(n),
                (nodes_view(done), self.count()) == flattened_operands_seq(
                    cs.take(done.len() as int),
                    c0,
                ),
            decreases rest.len(),
        {
            let ghost i = done.len() as int;
            let ghost before = rest@;
            let k = rest.remove(0);
            assert(k@ == cs[i]);
            let k2 = self.walk(k);
            done.push(k2);
            proof {
                lemma_nodes_view(done);
                let t = cs.take(i + 1);
                assert(t.drop_last() =~= cs.take(i));
                assert(t.last() == cs[i]);
                assert(nodes_view(done) =~= flattened_operands_seq(t, c0).0);
                assert forall|j: int| 0 <= j < rest.len() implies (#[trigger] rest@[j])@
                    == cs[done.len() + j] by {
                    assert(rest@[j] == before[j + 1]);
                }
            }
        }
        assert(cs.take(cs.len() as int) =~= cs);
        proof {
            lemma_flattened_operands_seq_simple(cs, c0);
        }
        let rebuilt = put_children(shell, done);
        self.exit(rebuilt)
    }

    /// Binds every complex operand of the tree to a temporary variable.
    pub fn apply(&mut self, node: &mut Node) -> (r: ResultLog<(), Error>)
        requires
            old(self).wf(),
        ensures
            final(self).wf(),
            (final(node)@, final(self).count()) == flattened_operands(old(node)@, old(self).count()),
            r is Success,
    {
        let n = node.extract_temp();
        *node = self.walk(n);
        ResultLog::Success(())
    }
}

} // verus!

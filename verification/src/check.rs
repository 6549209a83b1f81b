//! Check Types pass: verifies that the inferred and annotated types of calls agree.
use vstd::prelude::*;
use crate::ast::{
    group_ast_views, lemma_nodes_view, lemma_types_view, node_type, nodes_view, type_lists_equal,
    types_view, Node, NodeSpec, Type, TypeSpec,
};
use crate::errors::{errors_view, Error, ErrorSpec, ResultLog};
use crate::flatten_definitions::lemma_children_of_with_children;
use crate::infer::operand_types;
use crate::tree::{
    children, lemma_children_smaller, lemma_size_seq_element, lemma_with_own_children,
    put_children, size, size_seq, take_children, tree_all, with_children,
};

verus! {

broadcast use group_ast_views;

/// The errors of one node: a call whose operator is not a function, or whose operands'
/// types are not, in number and in order, the function's argument types.
pub open spec fn check_exit(n: NodeSpec) -> Seq<ErrorSpec> {
    match n {
        NodeSpec::Call { operator, operands, .. } => match node_type(*operator) {
            TypeSpec::Function(arguments, _) => if operand_types(operands) == arguments {
                Seq::empty()
            } else {
                seq![ErrorSpec::BadOperandTypes(operand_types(operands), arguments)]
            },
            other => seq![ErrorSpec::BadOperatorType(other)],
        },
        _ => Seq::empty(),
    }
}

/// The errors of a tree, children before their parent, after the errors `es` found before.
pub open spec fn check_errors(n: NodeSpec, es: Seq<ErrorSpec>) -> Seq<ErrorSpec>
    decreases size(n), 0nat,
{
    proof {
        lemma_children_smaller(n);
    }
    check_errors_seq(children(n), es) + check_exit(n)
}

/// [`check_errors`] of each tree of a sequence, in order.
pub open spec fn check_errors_seq(s: Seq<NodeSpec>, es: Seq<ErrorSpec>) -> Seq<ErrorSpec>
    decreases size_seq(s), 1nat,
{
    if s.len() == 0 {
        es
    } else {
        proof {
            lemma_size_seq_element(s, s.len() - 1);
        }
        check_errors(s.last(), check_errors_seq(s.drop_last(), es))
    }
}

/// Whether a call's operands have, in number and one by one, the argument types of its
/// operator's function type (true of nodes that are not calls of a function).
pub open spec fn operands_fit(n: NodeSpec) -> bool {
    n matches NodeSpec::Call { operator, operands, .. } && node_type(*operator) matches TypeSpec::Function(
        arguments,
        _,
    ) ==> operands.len() == arguments.len() && forall|i: int|
        0 <= i < operands.len() ==> #[trigger] node_type(operands[i]) == arguments[i]
}

/// A call of an operator of function type is reported exactly when some operand's type
/// differs from the argument type at its place (or the numbers differ), and then with the
/// operands' types and the argument types; a call of anything else is reported as such.
pub proof fn lemma_call_checked(n: NodeSpec)
    requires
        n is Call,
    ensures
        node_type(*n->Call_operator) is Function ==> (check_exit(n).len() == 0 <==> operands_fit(n)),
        node_type(*n->Call_operator) is Function && !operands_fit(n) ==> check_exit(n) == seq![
            ErrorSpec::BadOperandTypes(
                n->Call_operands.map_values(|x: NodeSpec| node_type(x)),
                node_type(*n->Call_operator)->Function_0,
            ),
        ],
        !(node_type(*n->Call_operator) is Function) ==> check_exit(n) == seq![
            ErrorSpec::BadOperatorType(node_type(*n->Call_operator)),
        ],
{
    let operands = n->Call_operands;
    let ts = operand_types(operands);
    if let TypeSpec::Function(arguments, _) = node_type(*n->Call_operator) {
        if operands_fit(n) {
            assert(ts =~= arguments);
        } else if ts == arguments {
            assert forall|i: int| 0 <= i < operands.len() implies #[trigger] node_type(operands[i])
                == arguments[i] by {
                assert(ts[i] == node_type(operands[i]));
            }
        }
    }
}

/// The checker reports nothing on a tree exactly when every call in it is a call of a
/// function whose operands fit its argument types.
pub proof fn lemma_checked_tree(n: NodeSpec, es: Seq<ErrorSpec>)
    ensures
        check_errors(n, es).len() >= es.len(),
        check_errors(n, es).subrange(0, es.len() as int) == es,
        check_errors(n, es).len() == es.len() <==> tree_all(n, |m: NodeSpec| call_well_typed(m)),
    decreases size(n), 0nat,
{
    lemma_children_smaller(n);
    lemma_checked_tree_seq(children(n), es);
    crate::tree::lemma_tree_all_seq(children(n), |m: NodeSpec| call_well_typed(m));
    let r = check_errors_seq(children(n), es);
    assert((r + check_exit(n)).subrange(0, es.len() as int) =~= r.subrange(0, es.len() as int));
    if n is Call {
        lemma_call_checked(n);
    }
}

/// [`lemma_checked_tree`] for the trees of a sequence.
pub proof fn lemma_checked_tree_seq(s: Seq<NodeSpec>, es: Seq<ErrorSpec>)
    ensures
        check_errors_seq(s, es).len() >= es.len(),
        check_errors_seq(s, es).subrange(0, es.len() as int) == es,
        check_errors_seq(s, es).len() == es.len() <==> (forall|i: int|
            0 <= i < s.len() ==> tree_all(#[trigger] s[i], |m: NodeSpec| call_well_typed(m))),
    decreases size_seq(s), 1nat,
{
    if s.len() == 0 {
        assert(es.subrange(0, es.len() as int) =~= es);
    } else {
        lemma_size_seq_element(s, s.len() - 1);
        let t = s.drop_last();
        lemma_checked_tree_seq(t, es);
        let r = check_errors_seq(t, es);
        lemma_checked_tree(s.last(), r);
        let r2 = check_errors(s.last(), r);
        assert(r2.subrange(0, es.len() as int) =~= r2.subrange(0, r.len() as int).subrange(
            0,
            es.len() as int,
        ));
        if forall|i: int| 0 <= i < s.len() ==> tree_all(#[trigger] s[i], |m: NodeSpec| call_well_typed(m)) {
            assert forall|i: int| 0 <= i < t.len() implies tree_all(#[trigger] t[i], |m: NodeSpec| call_well_typed(m)) by {
                assert(t[i] == s[i]);
            }
            assert(tree_all(s[s.len() - 1], |m: NodeSpec| call_well_typed(m)));
        }
        if r2.len() == es.len() {
            assert forall|i: int| 0 <= i < s.len() implies tree_all(#[trigger] s[i], |m: NodeSpec| call_well_typed(m)) by {
                if i < s.len() - 1 {
                    assert(t[i] == s[i]);
                }
            }
        }
    }
}

/// Whether a node is well typed for the checker: a call is a call of a function whose
/// operands fit its argument types.
pub open spec fn call_well_typed(n: NodeSpec) -> bool {
    n is Call ==> node_type(*n->Call_operator) is Function && operands_fit(n)
}

/// ## Check Types
///
/// - Verify that all inferred and annotated type information makes sense
pub struct Check {}

/// Pass state for Check (the pass keeps no state per node).
pub struct State {}

impl Check {
    pub fn new() -> Check {
        Check {}
    }

    fn exit(&self, node: &Node, errors: &mut Vec<Error>)
        ensures
            errors_view(*final(errors)) == errors_view(*old(errors)) + check_exit(node@),
    {
        let ghost es0 = errors_view(*errors);
        match node {
            Node::Call { operator, operands, .. } => {
                let operator_type = operator.get_type();
                let operand_types = crate::infer::get_operand_types(operands);
                match operator_type {
                    Type::Function(arguments, _) => {
                        // Check that the operands match the function arguments in number and type
                        if !type_lists_equal(&operand_types, &arguments) {
                            let ghost e = ErrorSpec::BadOperandTypes(
                                types_view(operand_types),
                                types_view(arguments),
                            );
                            errors.push(Error::BadOperandTypes(operand_types, arguments));
                            assert(errors_view(*errors) =~= es0 + seq![e]);
                        } else {
                            assert(errors_view(*errors) =~= es0 + Seq::<ErrorSpec>::empty());
                        }
                    },
                    other => {
                        let ghost e = ErrorSpec::BadOperatorType(other@);
                        errors.push(Error::BadOperatorType(other));
                        assert(errors_view(*errors) =~= es0 + seq![e]);
                    },
                }
            },
            _ => {
                assert(errors_view(*errors) =~= es0 + Seq::<ErrorSpec>::empty());
            },
        }
    }

    fn walk(&self, node: Node, errors: &mut Vec<Error>) -> (r: Node)
        ensures
            r@ == node@,
            errors_view(*final(errors)) == check_errors(node@, errors_view(*old(errors))),
        decreases size(node@),
    {
        let ghost n = node@;
        let ghost es0 = errors_view(*errors);
        proof {
            lemma_children_smaller(n);
        }
        let (shell, kids) = take_children(node);
        let ghost cs = children(n);
        let mut done: Vec<Node> = Vec::new();
        let mut rest = kids;
        proof {
            lemma_nodes_view(rest);
            lemma_nodes_view(done);
            assert(cs.take(0) =~= Seq::<NodeSpec>::empty());
        }
        while rest.len() > 0
            invariant
                n == node@,
                done.len() + rest.len() == cs.len(),
                forall|j: int| 0 <= j < rest.len() ==> (#[trigger] rest@[j])@ == cs[done.len() + j],
                forall|j: int| 0 <= j < cs.len() ==> size(#[trigger] cs[j]) < size(n),
                nodes_view(done) == cs.take(done.len() as int),
                errors_view(*errors) == check_errors_seq(cs.take(done.len() as int), es0),
            decreases rest.len(),
        {
            let ghost i = done.len() as int;
            let ghost before = rest@;
            let k = rest.remove(0);
            assert(k@ == cs[i]);
            let k2 = self.walk(k, errors);
            done.push(k2);
            proof {
                lemma_nodes_view(done);
                let t = cs.take(i + 1);
                assert(t.drop_last() =~= cs.take(i));
                assert(t.last() == cs[i]);
                assert(nodes_view(done) =~= t);
                assert forall|j: int| 0 <= j < rest.len() implies (#[trigger] rest@[j])@
                    == cs[done.len() + j] by {
                    assert(rest@[j] == before[j + 1]);
                }
            }
        }
        assert(cs.take(cs.len() as int) =~= cs);
        let rebuilt = put_children(shell, done);
        proof {
            lemma_with_own_children(n);
        }
        self.exit(&rebuilt, errors);
        rebuilt
    }

    /// Checks every call of the tree, leaving the tree unchanged.
    pub fn apply(&mut self, node: &mut Node) -> (r: ResultLog<(), Error>)
        ensures
            final(node)@ == old(node)@,
            ({
                let e = check_errors(old(node)@, Seq::empty());
                &&& e.len() == 0 ==> r is Success
                &&& e.len() != 0 ==> (r matches ResultLog::Error(errors, warnings) && errors_view(
                    errors,
                ) == e && warnings@.len() == 0)
            }),
    {
        let n = node.extract_temp();
        let mut errors: Vec<Error> = Vec::new();
        assert(errors_view(errors) =~= Seq::<ErrorSpec>::empty());
        *node = self.walk(n, &mut errors);
        let ghost ev = errors_view(errors);
        let r = ResultLog::maybe_error((), Vec::new(), errors);
        proof {
            if ev.len() != 0 {
                assert(errors_view(r->Error_0) =~= ev);
            }
        }
        r
    }
}

} // verus!

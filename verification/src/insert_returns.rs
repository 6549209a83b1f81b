//! Insertion of returns: every value that ends a function body (or the program) is wrapped
//! in a call of `return`.
use vstd::prelude::*;
use crate::ast::{
    get_result_index, group_ast_views, is_definition, lemma_nodes_view, nodes_view,
    result_index, Node, NodeSpec, Type, TypeSpec,
};
use crate::text::text;
use crate::tree::{
    children, fits, lemma_children_smaller, lemma_fits_children, lemma_with_own_children,
    put_children, size, take_children, tree_all, lemma_tree_all_children, with_children,
};

verus! {

broadcast use group_ast_views;

/// The name of the operator that returns from a function.
pub open spec fn return_name() -> Seq<char> {
    seq!['r', 'e', 't', 'u', 'r', 'n']
}

/// Whether a node produces a value that can be returned as it stands.
pub open spec fn is_returnable(n: NodeSpec) -> bool {
    n is Integer || n is Boolean || n is Variable || n is Call || n is Reference
        || n is Dereference
}

/// A call of `return` on `n`.
pub open spec fn return_call(n: NodeSpec) -> NodeSpec {
    NodeSpec::Call {
        operator: Box::new(NodeSpec::Variable { name: return_name(), typ: TypeSpec::Unknown }),
        operands: seq![n],
        typ: TypeSpec::Unknown,
    }
}

/// Whether the child at index `i` of `n` is in a returning context, given that `n` is in
/// one exactly when `ctx` holds: the result node of a sequence and the branches of a
/// conditional inherit the context, the body of a function always returns, and every other
/// child does not.
pub open spec fn child_context(n: NodeSpec, i: int, ctx: bool) -> bool {
    match n {
        NodeSpec::Sequence { nodes, .. } => ctx && result_index(nodes) == Some(i),
        NodeSpec::Conditional { .. } => i != 0 && ctx,
        NodeSpec::Function { .. } => true,
        _ => false,
    }
}

/// The tree `n`, in a returning context when `ctx` holds, with every returnable node in a
/// returning context wrapped in a call of `return` (and left as it is inside).
pub open spec fn leaves_converted(n: NodeSpec, ctx: bool) -> NodeSpec
    decreases size(n), children(n).len() + 1,
{
    if ctx && is_returnable(n) {
        return_call(n)
    } else {
        with_children(n, converted_children(n, ctx, children(n).len()))
    }
}

/// The first `k` children of `n` converted, each in its own context.
pub open spec fn converted_children(n: NodeSpec, ctx: bool, k: nat) -> Seq<NodeSpec>
    decreases size(n), k,
{
    if k == 0 || k > children(n).len() {
        Seq::empty()
    } else {
        proof {
            lemma_children_smaller(n);
        }
        converted_children(n, ctx, (k - 1) as nat).push(
            leaves_converted(children(n)[k - 1], child_context(n, k - 1, ctx)),
        )
    }
}

/// The converted children are the children, each converted in its context.
pub proof fn lemma_converted_children(n: NodeSpec, ctx: bool, k: nat)
    requires
        k <= children(n).len(),
    ensures
        converted_children(n, ctx, k).len() == k,
        forall|i: int| 0 <= i < k ==> #[trigger] converted_children(n, ctx, k)[i]
            == leaves_converted(children(n)[i], child_context(n, i, ctx)),
    decreases k,
{
    if k > 0 {
        lemma_converted_children(n, ctx, (k - 1) as nat);
    }
}

/// What the pass does to the whole tree: the root is in a returning context.
pub open spec fn with_returns(root: NodeSpec) -> NodeSpec {
    leaves_converted(root, true)
}

/// Whether `n` is a call of `return` on one operand.
pub open spec fn is_return_call(n: NodeSpec) -> bool {
    match n {
        NodeSpec::Call { operator, operands, .. } => operands.len() == 1 && match *operator {
            NodeSpec::Variable { name, .. } => name == return_name(),
            _ => false,
        },
        _ => false,
    }
}

/// Whether every tail of a tree (the node itself, the result node of a sequence, the
/// branches of a conditional, followed down) that is returnable is a call of `return`.
pub open spec fn tails_return(n: NodeSpec) -> bool
    decreases size(n),
{
    if is_return_call(n) {
        true
    } else if is_returnable(n) {
        false
    } else {
        proof {
            lemma_children_smaller(n);
            if n is Sequence {
                crate::ast::lemma_result_index(n->Sequence_nodes);
            }
        }
        match n {
            NodeSpec::Sequence { nodes, .. } => match result_index(nodes) {
                Some(i) => tails_return(children(n)[i]),
                None => true,
            },
            NodeSpec::Conditional { .. } => tails_return(children(n)[1]) && tails_return(children(n)[2]),
            _ => true,
        }
    }
}

/// Converting keeps whether a node is a definition.
pub proof fn lemma_converted_definition(n: NodeSpec, ctx: bool)
    ensures
        is_definition(leaves_converted(n, ctx)) == is_definition(n),
{
}

/// Converting each node of a sequence keeps its result index.
pub proof fn lemma_result_index_kept(a: Seq<NodeSpec>, b: Seq<NodeSpec>)
    requires
        a.len() == b.len(),
        forall|i: int| 0 <= i < a.len() ==> is_definition(#[trigger] a[i]) == is_definition(b[i]),
    ensures
        result_index(a) == result_index(b),
    decreases a.len(),
{
    if a.len() > 0 {
        assert forall|i: int| 0 <= i < a.len() - 1 implies is_definition(
            #[trigger] a.drop_last()[i],
        ) == is_definition(b.drop_last()[i]) by {
            assert(a.drop_last()[i] == a[i]);
            assert(b.drop_last()[i] == b[i]);
        }
        lemma_result_index_kept(a.drop_last(), b.drop_last());
        assert(is_definition(a[a.len() - 1]) == is_definition(b[b.len() - 1]));
    }
}

/// In a returning context, every returnable tail of the converted tree is a call of
/// `return`.
pub proof fn lemma_tails_return(n: NodeSpec)
    ensures
        tails_return(leaves_converted(n, true)),
    decreases size(n),
{
    lemma_children_smaller(n);
    if is_returnable(n) {
        assert(is_return_call(return_call(n)));
    } else {
        let cs = children(n);
        lemma_converted_children(n, true, cs.len());
        let rs = converted_children(n, true, cs.len());
        let m = with_children(n, rs);
        lemma_fits_children(n);
        crate::flatten_definitions::lemma_children_of_with_children(n, rs);
        lemma_children_smaller(m);
        match n {
            NodeSpec::Sequence { nodes, .. } => {
                assert forall|i: int| 0 <= i < nodes.len() implies is_definition(
                    #[trigger] nodes[i],
                ) == is_definition(rs[i]) by {
                    lemma_converted_definition(nodes[i], child_context(n, i, true));
                }
                lemma_result_index_kept(nodes, rs);
                if let Some(i) = result_index(nodes) {
                    crate::ast::lemma_result_index(nodes);
                    assert(child_context(n, i, true));
                    lemma_tails_return(nodes[i]);
                }
            },
            NodeSpec::Conditional { .. } => {
                lemma_tails_return(cs[1]);
                lemma_tails_return(cs[2]);
                assert(child_context(n, 1, true));
                assert(child_context(n, 2, true));
            },
            _ => {},
        }
    }
}

/// Whether a node is not a function definition.
pub open spec fn not_function(n: NodeSpec) -> bool {
    !(n is Function)
}

/// Outside a returning context, a tree without function definitions is left as it is:
/// only a function body starts a returning context.
pub proof fn lemma_no_function_unchanged(n: NodeSpec)
    requires
        tree_all(n, |m: NodeSpec| not_function(m)),
    ensures
        leaves_converted(n, false) == n,
    decreases size(n),
{
    lemma_children_smaller(n);
    lemma_tree_all_children(n, |m: NodeSpec| not_function(m));
    let cs = children(n);
    lemma_converted_children(n, false, cs.len());
    let rs = converted_children(n, false, cs.len());
    assert forall|i: int| 0 <= i < cs.len() implies #[trigger] rs[i] == cs[i] by {
        assert(!child_context(n, i, false));
        lemma_no_function_unchanged(cs[i]);
    }
    assert(rs =~= cs);
    lemma_with_own_children(n);
}

/// Converts the tree under `node`, which is in a returning context when
/// `is_return_context` holds; the flag itself is left as it is.
fn convert_leaves(node: &mut Node, is_return_context: &mut bool)
    ensures
        final(node)@ == leaves_converted(old(node)@, *old(is_return_context)),
        *final(is_return_context) == *old(is_return_context),
    decreases size(old(node)@),
{
    let ghost n = node@;
    let ctx = *is_return_context;
    let returnable = match &*node {
        Node::Integer { .. } | Node::Boolean { .. } | Node::Variable { .. } | Node::Call { .. }
        | Node::Reference { .. } | Node::Dereference { .. } => true,
        _ => false,
    };
    if ctx && returnable {
        // If we are in a returning context, replace returnable nodes with a return statement
        let original = node.extract_temp();
        let mut operands: Vec<Node> = Vec::new();
        operands.push(original);
        proof {
            lemma_nodes_view(operands);
            assert(nodes_view(operands) =~= seq![n]);
            reveal_strlit("return");
            assert("return"@ =~= return_name());
        }
        let name = text("return");
        let operator = Node::Variable { name, typ: Type::Unknown };
        assert(operator@ == NodeSpec::Variable { name: return_name(), typ: TypeSpec::Unknown });
        let ghost ov = nodes_view(operands);
        let call = Node::Call { operator: Box::new(operator), operands, typ: Type::Unknown };
        assert(call@ == return_call(n));
        *node = call;
        return;
    }
    proof {
        lemma_children_smaller(n);
        lemma_converted_children(n, ctx, children(n).len());
    }
    let result_index = match &*node {
        Node::Sequence { nodes, .. } => get_result_index(nodes),
        _ => None,
    };
    let kind = match &*node {
        Node::Sequence { .. } => 0u8,
        Node::Conditional { .. } => 1u8,
        Node::Function { .. } => 2u8,
        _ => 3u8,
    };
    let (shell, kids) = take_children(node.extract_temp());
    let ghost cs = children(n);
    let mut done: Vec<Node> = Vec::new();
    let mut rest = kids;
    proof {
        lemma_nodes_view(rest);
        lemma_nodes_view(done);
    }
    while rest.len() > 0
        invariant
            n is Sequence ==> (result_index matches Some(k) ==> crate::ast::result_index(n->Sequence_nodes) == Some(k as int)) && (result_index is None ==> crate::ast::result_index(n->Sequence_nodes) is None),
            kind == 0 <==> n is Sequence,
            kind == 1 <==> n is Conditional,
            kind == 2 <==> n is Function,
            cs == children(n),
            done.len() + rest.len() == cs.len(),
            forall|j: int| 0 <= j < rest.len() ==> (#[trigger] rest@[j])@ == cs[done.len() + j],
            forall|j: int| 0 <= j < cs.len() ==> size(#[trigger] cs[j]) < size(n),
            n == old(node)@,
            ctx == *old(is_return_context),
            nodes_view(done) == converted_children(n, ctx, done.len() as nat),
        decreases rest.len(),
    {
        let ghost i = done.len() as int;
        let ghost before = rest@;
        let mut k = rest.remove(0);
        assert(k@ == cs[i]);
        let i_exec = done.len();
        let mut child_ctx = if kind == 0 {
            ctx && match result_index {
                Some(r) => r == i_exec,
                None => false,
            }
        } else if kind == 1 {
            i_exec != 0 && ctx
        } else {
            kind == 2
        };
        assert(child_ctx == child_context(n, i, ctx));
        convert_leaves(&mut k, &mut child_ctx);
        done.push(k);
        proof {
            lemma_nodes_view(done);
            assert(nodes_view(done) =~= converted_children(n, ctx, done.len() as nat));
            assert forall|j: int| 0 <= j < rest.len() implies (#[trigger] rest@[j])@
                == cs[done.len() + j] by {
                assert(rest@[j] == before[j + 1]);
            }
        }
    }
    proof {
        lemma_fits_children(n);
    }
    *node = put_children(shell, done);
}

/// Wraps every value that ends the program or a function body in a call of `return`.
pub fn apply(root_node: &mut Node)
    ensures
        final(root_node)@ == with_returns(old(root_node)@),
{
    let mut root_is_return_context = true;
    convert_leaves(root_node, &mut root_is_return_context);
}

} // verus!

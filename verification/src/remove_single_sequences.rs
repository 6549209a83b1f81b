//! Removal of sequences that hold a single node: such a sequence is replaced by its node.
use vstd::prelude::*;
use crate::ast::{group_ast_views, lemma_nodes_view, nodes_view, Node, NodeSpec};
use crate::tree::{
    children, fits, lemma_children_smaller, lemma_size_seq_element, lemma_with_own_children,
    put_children, size, size_seq, take_children, tree_all, lemma_tree_all_children, with_children,
};

verus! {

broadcast use group_ast_views;

/// Whether a node is a sequence of exactly one node.
pub open spec fn is_single_sequence(n: NodeSpec) -> bool {
    n matches NodeSpec::Sequence { nodes, .. } && nodes.len() == 1
}

/// The node that takes the place of `n`: its only node when `n` is a single sequence,
/// else `n` itself.
pub open spec fn unwrap_single(n: NodeSpec) -> NodeSpec {
    if is_single_sequence(n) {
        n->Sequence_nodes[0]
    } else {
        n
    }
}

/// The children of the node that replaces `n` are smaller than `n`.
pub proof fn lemma_unwrap_single_smaller(n: NodeSpec)
    ensures
        size(unwrap_single(n)) <= size(n),
        forall|i: int| 0 <= i < children(unwrap_single(n)).len()
            ==> size(#[trigger] children(unwrap_single(n))[i]) < size(n),
{
    lemma_children_smaller(n);
    lemma_children_smaller(unwrap_single(n));
    if is_single_sequence(n) {
        assert(children(n)[0] == unwrap_single(n));
    }
}

/// The tree `n` with each single sequence found on the way down replaced by its node: a
/// single sequence is unwrapped once, and then the children of what took its place are
/// handled.
pub open spec fn singles_removed(n: NodeSpec) -> NodeSpec
    decreases size(n), 0nat,
{
    let m = unwrap_single(n);
    proof {
        lemma_unwrap_single_smaller(n);
        lemma_children_smaller(m);
    }
    with_children(m, singles_removed_seq(children(m)))
}

/// [`singles_removed`] of each tree of a sequence, in order.
pub open spec fn singles_removed_seq(s: Seq<NodeSpec>) -> Seq<NodeSpec>
    decreases size_seq(s), 1nat,
{
    if s.len() == 0 {
        s
    } else {
        proof {
            lemma_size_seq_element(s, s.len() - 1);
        }
        singles_removed_seq(s.drop_last()).push(singles_removed(s.last()))
    }
}

/// The map over a sequence keeps its length and maps each element.
pub proof fn lemma_singles_removed_seq(s: Seq<NodeSpec>)
    ensures
        singles_removed_seq(s).len() == s.len(),
        forall|i: int| 0 <= i < s.len() ==> #[trigger] singles_removed_seq(s)[i] == singles_removed(s[i]),
    decreases s.len(),
{
    if s.len() > 0 {
        lemma_singles_removed_seq(s.drop_last());
        assert forall|i: int| 0 <= i < s.len() implies #[trigger] singles_removed_seq(s)[i]
            == singles_removed(s[i]) by {
            if i < s.len() - 1 {
                assert(s.drop_last()[i] == s[i]);
            }
        }
    }
}

/// What the pass does to the whole tree: the root is kept, and each of its children has its
/// single sequences removed.
pub open spec fn pass_result(root: NodeSpec) -> NodeSpec {
    with_children(root, singles_removed_seq(children(root)))
}

/// Whether no node of a tree is a single sequence.
pub open spec fn no_single_sequences(n: NodeSpec) -> bool {
    tree_all(n, |m: NodeSpec| !is_single_sequence(m))
}

/// A tree in which no sequence holds a single node is left as it is.
pub proof fn lemma_no_singles_unchanged(n: NodeSpec)
    requires
        no_single_sequences(n),
    ensures
        singles_removed(n) == n,
    decreases size(n),
{
    lemma_children_smaller(n);
    let cs = children(n);
    lemma_tree_all_children(n, |m: NodeSpec| !is_single_sequence(m));
    assert forall|i: int| 0 <= i < cs.len() implies singles_removed(#[trigger] cs[i]) == cs[i] by {
        lemma_no_singles_unchanged(cs[i]);
    }
    lemma_singles_removed_seq(cs);
    assert(singles_removed_seq(cs) =~= cs);
    lemma_with_own_children(n);
}

/// The pass never makes a tree larger.
pub proof fn lemma_singles_removed_size(n: NodeSpec)
    ensures
        size(singles_removed(n)) <= size(n),
    decreases size(n),
{
    let m = unwrap_single(n);
    lemma_unwrap_single_smaller(n);
    lemma_children_smaller(m);
    let cs = children(m);
    lemma_singles_removed_seq(cs);
    let rs = singles_removed_seq(cs);
    assert forall|i: int| 0 <= i < cs.len() implies size(#[trigger] rs[i]) <= size(cs[i]) by {
        lemma_singles_removed_size(cs[i]);
    }
    lemma_size_seq_pointwise(rs, cs);
    lemma_size_with_children(m, rs);
}

/// Whether a node is a single sequence whose only node is a single sequence too (the pass
/// unwraps one level of such a nest and leaves the other).
pub open spec fn nested_single(n: NodeSpec) -> bool {
    is_single_sequence(n) && is_single_sequence(n->Sequence_nodes[0])
}

/// A tree in which no single sequence holds another single sequence is left by the pass
/// with no single sequence at all.
pub proof fn lemma_singles_removed_everywhere(n: NodeSpec)
    requires
        tree_all(n, |x: NodeSpec| !nested_single(x)),
    ensures
        no_single_sequences(singles_removed(n)),
    decreases size(n),
{
    let p = |x: NodeSpec| !nested_single(x);
    let m = unwrap_single(n);
    lemma_unwrap_single_smaller(n);
    lemma_children_smaller(n);
    lemma_children_smaller(m);
    lemma_tree_all_children(n, p);
    if is_single_sequence(n) {
        assert(children(n)[0] == m);
        lemma_tree_all_children(m, p);
    }
    assert(tree_all(m, p));
    lemma_tree_all_children(m, p);
    let cs = children(m);
    lemma_singles_removed_seq(cs);
    let rs = singles_removed_seq(cs);
    assert forall|i: int| 0 <= i < rs.len() implies no_single_sequences(#[trigger] rs[i]) by {
        lemma_singles_removed_everywhere(cs[i]);
    }
    crate::tree::lemma_fits_children(m);
    crate::flatten_definitions::lemma_children_of_with_children(m, rs);
    let r = with_children(m, rs);
    assert(!is_single_sequence(r)) by {
        if r is Sequence {
            assert(r->Sequence_nodes == rs);
            assert(m->Sequence_nodes == cs);
        }
    }
    crate::tree::lemma_tree_all_seq(rs, |x: NodeSpec| !is_single_sequence(x));
}

/// After the pass, no node below the root is a sequence of a single node, unless the
/// program nests single sequences in each other.
pub proof fn lemma_pass_removes_singles(root: NodeSpec)
    requires
        forall|i: int| 0 <= i < children(root).len() ==> tree_all(
            #[trigger] children(root)[i],
            |x: NodeSpec| !nested_single(x),
        ),
    ensures
        forall|i: int| 0 <= i < children(pass_result(root)).len() ==> no_single_sequences(
            #[trigger] children(pass_result(root))[i],
        ),
{
    let cs = children(root);
    lemma_singles_removed_seq(cs);
    crate::tree::lemma_fits_children(root);
    crate::flatten_definitions::lemma_children_of_with_children(root, singles_removed_seq(cs));
    assert forall|i: int| 0 <= i < cs.len() implies no_single_sequences(
        #[trigger] singles_removed_seq(cs)[i],
    ) by {
        lemma_singles_removed_everywhere(cs[i]);
    }
}

/// A sequence of trees each no larger than its counterpart is no larger in all.
pub proof fn lemma_size_seq_pointwise(a: Seq<NodeSpec>, b: Seq<NodeSpec>)
    requires
        a.len() == b.len(),
        forall|i: int| 0 <= i < a.len() ==> size(#[trigger] a[i]) <= size(b[i]),
    ensures
        size_seq(a) <= size_seq(b),
    decreases a.len(),
{
    if a.len() > 0 {
        assert forall|i: int| 0 <= i < a.len() - 1 implies size(#[trigger] a.drop_last()[i]) <= size(
            b.drop_last()[i],
        ) by {
            assert(a.drop_last()[i] == a[i]);
            assert(b.drop_last()[i] == b[i]);
        }
        lemma_size_seq_pointwise(a.drop_last(), b.drop_last());
        assert(size(a[a.len() - 1]) <= size(b[b.len() - 1]));
    }
}

/// Replacing the children of a node by trees no larger in all gives a tree no larger.
pub proof fn lemma_size_with_children(n: NodeSpec, cs: Seq<NodeSpec>)
    requires
        cs.len() == children(n).len(),
        size_seq(cs) <= size_seq(children(n)),
    ensures
        size(with_children(n, cs)) <= size(n),
{
    reveal_with_fuel(size_seq, 4);
    let old_cs = children(n);
    match n {
        NodeSpec::Call { operator, operands, .. } => {
            crate::tree::lemma_size_seq_append(seq![*operator], operands);
            crate::tree::lemma_size_seq_append(seq![cs[0]], cs.drop_first());
            assert(seq![cs[0]] + cs.drop_first() =~= cs);
            assert(seq![*operator].drop_last() =~= Seq::<NodeSpec>::empty());
            assert(seq![cs[0]].drop_last() =~= Seq::<NodeSpec>::empty());
        },
        NodeSpec::Assign { .. } => {
            assert(cs.drop_last() =~= seq![cs[0]]);
            assert(seq![cs[0]].drop_last() =~= Seq::<NodeSpec>::empty());
            assert(old_cs.drop_last() =~= seq![old_cs[0]]);
            assert(seq![old_cs[0]].drop_last() =~= Seq::<NodeSpec>::empty());
        },
        NodeSpec::Conditional { .. } => {
            assert(cs.drop_last() =~= seq![cs[0], cs[1]]);
            assert(seq![cs[0], cs[1]].drop_last() =~= seq![cs[0]]);
            assert(seq![cs[0]].drop_last() =~= Seq::<NodeSpec>::empty());
            assert(old_cs.drop_last() =~= seq![old_cs[0], old_cs[1]]);
            assert(seq![old_cs[0], old_cs[1]].drop_last() =~= seq![old_cs[0]]);
            assert(seq![old_cs[0]].drop_last() =~= Seq::<NodeSpec>::empty());
        },
        NodeSpec::Sequence { .. } => {},
        _ => {
            if cs.len() == 1 {
                assert(cs.drop_last() =~= Seq::<NodeSpec>::empty());
                assert(old_cs.drop_last() =~= Seq::<NodeSpec>::empty());
            }
        },
    }
}

/// Replaces a single sequence by its node, then handles the children of what stands there.
fn remove_singles(node: Node) -> (r: Node)
    ensures
        r@ == singles_removed(node@),
    decreases size(node@),
{
    let ghost n = node@;
    proof {
        lemma_unwrap_single_smaller(n);
    }
    let current = match node {
        Node::Sequence { mode, nodes, typ } => {
            if nodes.len() == 1 {
                let mut nodes = nodes;
                proof {
                    lemma_nodes_view(nodes);
                }
                nodes.remove(0)
            } else {
                Node::Sequence { mode, nodes, typ }
            }
        },
        other => other,
    };
    let ghost m = current@;
    assert(m == unwrap_single(n));
    proof {
        lemma_children_smaller(m);
    }
    let (shell, kids) = take_children(current);
    let ghost cs = children(m);
    let mut done: Vec<Node> = Vec::new();
    let mut rest = kids;
    proof {
        lemma_nodes_view(rest);
        lemma_nodes_view(done);
    }
    while rest.len() > 0
        invariant
            n == node@,
            done.len() + rest.len() == cs.len(),
            forall|j: int| 0 <= j < rest.len() ==> (#[trigger] rest@[j])@ == cs[done.len() + j],
            forall|j: int| 0 <= j < cs.len() ==> size(#[trigger] cs[j]) < size(n),
            nodes_view(done) == singles_removed_seq(cs.take(done.len() as int)),

        decreases rest.len(),
    {
        let ghost i = done.len() as int;
        let ghost before = rest@;
        let k = rest.remove(0);
        assert(k@ == cs[i]);
        let k2 = remove_singles(k);
        done.push(k2);
        proof {
            lemma_nodes_view(done);
            let t = cs.take(i + 1);
            assert(t.drop_last() =~= cs.take(i));
            assert(t.last() == cs[i]);
            assert(nodes_view(done) =~= singles_removed_seq(t));
            assert forall|j: int| 0 <= j < rest.len() implies (#[trigger] rest@[j])@
                == cs[done.len() + j] by {
                assert(rest@[j] == before[j + 1]);
            }
        }
    }
    proof {
        assert(cs.take(cs.len() as int) =~= cs);
        lemma_singles_removed_seq(cs);
        crate::tree::lemma_fits_children(m);
    }
    put_children(shell, done)
}

/// Removes every sequence of a single node below the root, replacing it by that node.
pub fn apply(root_node: &mut Node)
    ensures
        final(root_node)@ == pass_result(old(root_node)@),
{
    let root = root_node.extract_temp();
    let ghost n = root@;
    let (shell, kids) = take_children(root);
    let ghost cs = children(n);
    let mut done: Vec<Node> = Vec::new();
    let mut rest = kids;
    proof {
        lemma_nodes_view(rest);
        lemma_nodes_view(done);
    }
    while rest.len() > 0
        invariant
            done.len() + rest.len() == cs.len(),
            forall|j: int| 0 <= j < rest.len() ==> (#[trigger] rest@[j])@ == cs[done.len() + j],
            nodes_view(done) == singles_removed_seq(cs.take(done.len() as int)),
        decreases rest.len(),
    {
        let ghost i = done.len() as int;
        let ghost before = rest@;
        let k = rest.remove(0);
        assert(k@ == cs[i]);
        let k2 = remove_singles(k);
        done.push(k2);
        proof {
            lemma_nodes_view(done);
            let t = cs.take(i + 1);
            assert(t.drop_last() =~= cs.take(i));
            assert(t.last() == cs[i]);
            assert(nodes_view(done) =~= singles_removed_seq(t));
            assert forall|j: int| 0 <= j < rest.len() implies (#[trigger] rest@[j])@
                == cs[done.len() + j] by {
                assert(rest@[j] == before[j + 1]);
            }
        }
    }
    proof {
        assert(cs.take(cs.len() as int) =~= cs);
        crate::tree::lemma_fits_children(n);
    }
    *root_node = put_children(shell, done);
}

} // verus!

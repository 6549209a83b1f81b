//! Flatten Definitions pass: moves every definition to the top-level sequence.
use vstd::prelude::*;
use crate::ast::{group_ast_views, lemma_nodes_view, nodes_view, Node, NodeSpec};
use crate::errors::{Error, ResultLog};
use crate::text::{push_string, text};
use crate::tree::{
    children, fits, lemma_children_smaller, lemma_size_seq_element, put_children, size, size_seq,
    take_children, with_children,
};

verus! {

broadcast use group_ast_views;

/// The comment left where a function named `name` was taken out: `fn name`.
pub open spec fn function_comment(name: Seq<char>) -> NodeSpec {
    NodeSpec::Comment { content: seq!['f', 'n', ' '] + name }
}

/// A node after its children: a function is taken out (appended to `fs`) and replaced by a
/// comment that names it.
pub open spec fn extract_exit(n: NodeSpec, fs: Seq<NodeSpec>) -> (NodeSpec, Seq<NodeSpec>) {
    match n {
        NodeSpec::Function { name, .. } => (function_comment(name), fs.push(n)),
        _ => (n, fs),
    }
}

/// The tree `n` (not the root) with every function taken out, innermost first, and appended
/// to `fs`.
pub open spec fn extracted(n: NodeSpec, fs: Seq<NodeSpec>) -> (NodeSpec, Seq<NodeSpec>)
    decreases size(n), 0nat,
{
    proof {
        lemma_children_smaller(n);
    }
    let r = extracted_seq(children(n), fs);
    extract_exit(with_children(n, r.0), r.1)
}

/// [`extracted`] of each tree of a sequence, in order.
pub open spec fn extracted_seq(s: Seq<NodeSpec>, fs: Seq<NodeSpec>) -> (Seq<NodeSpec>, Seq<NodeSpec>)
    decreases size_seq(s), 1nat,
{
    if s.len() == 0 {
        (s, fs)
    } else {
        proof {
            lemma_size_seq_element(s, s.len() - 1);
        }
        let r = extracted_seq(s.drop_last(), fs);
        let e = extracted(s.last(), r.1);
        (r.0.push(e.0), e.1)
    }
}

/// The root after the pass: every function below it is taken out; a root sequence then
/// starts with all of them (and with the functions pending from before), and nothing stays
/// pending.
pub open spec fn flattened_definitions(root: NodeSpec, pending: Seq<NodeSpec>) -> (
    NodeSpec,
    Seq<NodeSpec>,
) {
    let r = extracted_seq(children(root), pending);
    let m = with_children(root, r.0);
    match m {
        NodeSpec::Sequence { mode, nodes, typ } => (
            NodeSpec::Sequence { mode, nodes: r.1 + nodes, typ },
            Seq::empty(),
        ),
        _ => extract_exit(m, r.1),
    }
}

/// Whether no function occurs anywhere in a tree.
pub open spec fn function_free(n: NodeSpec) -> bool
    decreases size(n), 0nat,
{
    proof {
        lemma_children_smaller(n);
    }
    !(n is Function) && function_free_seq(children(n))
}

/// Whether no function occurs anywhere in a sequence of trees.
pub open spec fn function_free_seq(s: Seq<NodeSpec>) -> bool
    decreases size_seq(s), 1nat,
{
    if s.len() == 0 {
        true
    } else {
        proof {
            lemma_size_seq_element(s, s.len() - 1);
        }
        function_free_seq(s.drop_last()) && function_free(s.last())
    }
}

/// Whether a node is a function in which no other function occurs.
pub open spec fn flat_function(n: NodeSpec) -> bool {
    n is Function && function_free_seq(children(n))
}

/// The children of a node rebuilt from children that fit it are those children.
pub proof fn lemma_children_of_with_children(n: NodeSpec, cs: Seq<NodeSpec>)
    requires
        fits(n, cs.len()),
    ensures
        children(with_children(n, cs)) == cs,
        with_children(n, cs) is Function <==> n is Function,
        with_children(n, cs) is Sequence <==> n is Sequence,
{
    match n {
        NodeSpec::Call { .. } => {
            assert(seq![cs[0]] + cs.drop_first() =~= cs);
        },
        NodeSpec::Assign { .. } => {
            assert(seq![cs[0], cs[1]] =~= cs);
        },
        NodeSpec::Conditional { .. } => {
            assert(seq![cs[0], cs[1], cs[2]] =~= cs);
        },
        NodeSpec::Sequence { .. } => {},
        NodeSpec::Reference { .. } | NodeSpec::Dereference { .. } | NodeSpec::Access { .. }
        | NodeSpec::Binding { .. } | NodeSpec::Function { .. } => {
            assert(seq![cs[0]] =~= cs);
        },
        _ => {
            assert(cs =~= Seq::<NodeSpec>::empty());
        },
    }
}

/// Taking the functions out of a tree leaves it free of functions, keeps the functions
/// taken out before, and takes out only functions in which no other function occurs.
pub proof fn lemma_extracted(n: NodeSpec, fs: Seq<NodeSpec>)
    ensures
        function_free(extracted(n, fs).0),
        extracted(n, fs).1.len() >= fs.len(),
        extracted(n, fs).1.take(fs.len() as int) == fs,
        forall|j: int|
            fs.len() <= j < extracted(n, fs).1.len() ==> flat_function(
                #[trigger] extracted(n, fs).1[j],
            ),
    decreases size(n), 0nat,
{
    lemma_children_smaller(n);
    let cs = children(n);
    let r = extracted_seq(cs, fs);
    lemma_extracted_seq(cs, fs);
    let m = with_children(n, r.0);
    assert(fits(n, cs.len()));
    lemma_children_of_with_children(n, r.0);
    if m is Function {
        let c = function_comment(function_spec_name_of(m));
        assert(children(c) =~= Seq::<NodeSpec>::empty());
        assert(function_free(extracted(n, fs).0));
        assert(r.1.push(m).take(fs.len() as int) =~= r.1.take(fs.len() as int));
        assert forall|j: int| fs.len() <= j < extracted(n, fs).1.len() implies flat_function(
            #[trigger] extracted(n, fs).1[j],
        ) by {
            if j < r.1.len() {
                assert(extracted(n, fs).1[j] == r.1[j]);
            }
        }
    }
}

/// The name of a function node model.
pub open spec fn function_spec_name_of(n: NodeSpec) -> Seq<char> {
    match n {
        NodeSpec::Function { name, .. } => name,
        _ => Seq::empty(),
    }
}

/// [`lemma_extracted`] for sequences of trees; the sequence keeps its length.
pub proof fn lemma_extracted_seq(s: Seq<NodeSpec>, fs: Seq<NodeSpec>)
    ensures
        extracted_seq(s, fs).0.len() == s.len(),
        function_free_seq(extracted_seq(s, fs).0),
        extracted_seq(s, fs).1.len() >= fs.len(),
        extracted_seq(s, fs).1.take(fs.len() as int) == fs,
        forall|j: int|
            fs.len() <= j < extracted_seq(s, fs).1.len() ==> flat_function(
                #[trigger] extracted_seq(s, fs).1[j],
            ),
    decreases size_seq(s), 1nat,
{
    if s.len() == 0 {
        assert(fs.take(fs.len() as int) =~= fs);
    } else {
        lemma_size_seq_element(s, s.len() - 1);
        let r = extracted_seq(s.drop_last(), fs);
        lemma_extracted_seq(s.drop_last(), fs);
        let e = extracted(s.last(), r.1);
        lemma_extracted(s.last(), r.1);
        let out = r.0.push(e.0);
        assert(out.drop_last() =~= r.0);
        assert(e.1.take(fs.len() as int) =~= r.1.take(fs.len() as int)) by {
            assert forall|j: int| 0 <= j < fs.len() implies e.1[j] == r.1[j] by {
                assert(e.1.take(r.1.len() as int)[j] == r.1[j]);
            }
        }
        assert forall|j: int| fs.len() <= j < e.1.len() implies flat_function(#[trigger] e.1[j]) by {
            if j < r.1.len() {
                assert(e.1.take(r.1.len() as int)[j] == r.1[j]);
                assert(e.1[j] == r.1[j]);
            }
        }
    }
}

/// After the pass (with nothing pending), the root sequence holds first the functions of
/// the program, in none of which another function occurs, and then its other nodes, in
/// none of which a function occurs: every definition is at the top level.
pub proof fn lemma_definitions_at_top_level(root: NodeSpec)
    requires
        root is Sequence,
    ensures
        flattened_definitions(root, Seq::empty()).0 matches NodeSpec::Sequence { nodes, .. }
            && (exists|k: int| #[trigger] functions_first(nodes, k)),
{
    let cs = children(root);
    let fs = Seq::<NodeSpec>::empty();
    lemma_extracted_seq(cs, fs);
    let r = extracted_seq(cs, fs);
    lemma_function_free_seq_elements(r.0);
    lemma_children_of_with_children(root, r.0);
    let m = with_children(root, r.0);
    assert(m->Sequence_nodes == r.0);
    let nodes = r.1 + r.0;
    let k = r.1.len() as int;
    assert forall|i: int| 0 <= i < k implies flat_function(#[trigger] nodes[i]) by {
        assert(nodes[i] == r.1[i]);
    }
    assert forall|i: int| k <= i < nodes.len() implies function_free(#[trigger] nodes[i]) by {
        assert(nodes[i] == r.0[i - k]);
    }
    assert(functions_first(nodes, k));
    assert(flattened_definitions(root, fs).0->Sequence_nodes == nodes);
    assert(functions_first(flattened_definitions(root, fs).0->Sequence_nodes, k));
}

/// Whether the first `k` nodes are functions in which no other function occurs, and no
/// function occurs in the others.
pub open spec fn functions_first(nodes: Seq<NodeSpec>, k: int) -> bool {
    &&& 0 <= k <= nodes.len()
    &&& forall|i: int| 0 <= i < k ==> flat_function(#[trigger] nodes[i])
    &&& forall|i: int| k <= i < nodes.len() ==> function_free(#[trigger] nodes[i])
}

/// Every tree of a function-free sequence is function-free.
pub proof fn lemma_function_free_seq_elements(s: Seq<NodeSpec>)
    requires
        function_free_seq(s),
    ensures
        forall|i: int| 0 <= i < s.len() ==> function_free(#[trigger] s[i]),
    decreases s.len(),
{
    if s.len() > 0 {
        lemma_function_free_seq_elements(s.drop_last());
        assert forall|i: int| 0 <= i < s.len() implies function_free(#[trigger] s[i]) by {
            if i < s.len() - 1 {
                assert(s[i] == s.drop_last()[i]);
            }
        }
    }
}

/// ## Flatten Definitions Pass
///
/// - Moves all definitions to the top-level sequence
/// - Definition names should have been made unique (and variable references updated) in FlattenNames
pub struct FlattenDefinitions {
    functions: Vec<Node>,
}

/// Pass state for FlattenDefinitions
///
/// - Track if we should dump the accumulated definitions at this node
pub struct PassState {
    pub is_root: bool,
}

impl PassState {
    pub fn new(is_root: bool) -> (r: PassState)
        ensures
            r.is_root == is_root,
    {
        PassState { is_root }
    }
}

impl FlattenDefinitions {
    /// The functions taken out and not yet placed.
    pub closed spec fn pending(&self) -> Seq<NodeSpec> {
        nodes_view(self.functions)
    }

    pub fn new() -> (r: FlattenDefinitions)
        ensures
            r.pending() == Seq::<NodeSpec>::empty(),
    {
        let r = FlattenDefinitions { functions: Vec::new() };
        proof {
            lemma_nodes_view(r.functions);
        }
        r
    }

    fn exit(&mut self, node: Node) -> (r: Node)
        ensures
            (r@, final(self).pending()) == extract_exit(node@, old(self).pending()),
    {
        match node {
            Node::Function { name, arguments, return_type, body, typ } => {
                proof {
                    reveal_strlit("fn ");
                }
                let mut content = text("fn ");
                push_string(&mut content, &name);
                assert(content@ =~= seq!['f', 'n', ' '] + name@);
                let original = Node::Function { name, arguments, return_type, body, typ };
                let ghost ov = original@;
                let ghost before = self.pending();
                self.functions.push(original);
                proof {
                    lemma_nodes_view(self.functions);
                    lemma_nodes_view(old(self).functions);
                    assert(self.pending() =~= before.push(ov));
                }
                let r = Node::Comment { content };
                assert(r@ == function_comment(ov->Function_name));
                r
            },
            other => other,
        }
    }

    fn extract(&mut self, node: Node) -> (r: Node)
        ensures
            (r@, final(self).pending()) == extracted(node@, old(self).pending()),
        decreases size(node@),
    {
        let ghost n = node@;
        let ghost fs0 = self.pending();
        proof {
            lemma_children_smaller(n);
        }
        let (shell, kids) = take_children(node);
        let rebuilt = self.extract_children(shell, kids, Ghost(n));
        self.exit(rebuilt)
    }

    fn extract_children(&mut self, shell: Node, kids: Vec<Node>, Ghost(n): Ghost<NodeSpec>) -> (r: Node)
        requires
            nodes_view(kids) == children(n),
            fits(shell@, children(n).len()),
            forall|cs: Seq<NodeSpec>| #[trigger] with_children(shell@, cs) == with_children(n, cs),
        ensures
            ({
                let e = extracted_seq(children(n), old(self).pending());
                r@ == with_children(n, e.0) && final(self).pending() == e.1
            }),
        decreases size(n), 1nat,
    {
        proof {
            lemma_children_smaller(n);
        }
        let ghost cs = children(n);
        let ghost fs0 = self.pending();
        let mut done: Vec<Node> = Vec::new();
        let mut rest = kids;
        proof {
            lemma_nodes_view(rest);
            lemma_nodes_view(done);
            assert(cs.take(0) =~= Seq::<NodeSpec>::empty());
        }
        while rest.len() > 0
            invariant
                done.len() + rest.len() == cs.len(),
                forall|j: int| 0 <= j < rest.len() ==> (#[trigger] rest@[j])@ == cs[done.len() + j],
                forall|j: int| 0 <= j < cs.len() ==> size(#[trigger] cs[j]) < size(n),
                (nodes_view(done), self.pending()) == extracted_seq(
                    cs.take(done.len() as int),
                    fs0,
                ),
            decreases rest.len(),
        {
            let ghost i = done.len() as int;
            let ghost before = rest@;
            let k = rest.remove(0);
            assert(k@ == cs[i]);
            let k2 = self.extract(k);
            done.push(k2);
            proof {
                lemma_nodes_view(done);
                let t = cs.take(i + 1);
                assert(t.drop_last() =~= cs.take(i));
                assert(t.last() == cs[i]);
                assert(nodes_view(done) =~= extracted_seq(t, fs0).0);
                assert forall|j: int| 0 <= j < rest.len() implies (#[trigger] rest@[j])@
                    == cs[done.len() + j] by {
                    assert(rest@[j] == before[j + 1]);
                }
            }
        }
        assert(cs.take(cs.len() as int) =~= cs);
        proof {
            lemma_extracted_seq(cs, fs0);
        }
        put_children(shell, done)
    }

    /// Takes every function out of the tree, replacing it by a comment that names it; a root
    /// sequence then starts with all the functions taken out.
    pub fn apply(&mut self, node: &mut Node) -> (r: ResultLog<(), Error>)
        ensures
            (final(node)@, final(self).pending()) == flattened_definitions(
                old(node)@,
                old(self).pending(),
            ),
            r is Success,
    {
        let n = node.extract_temp();
        let ghost nv = n@;
        let (shell, kids) = take_children(n);
        let rebuilt = self.extract_children(shell, kids, Ghost(nv));
        let state = PassState::new(true);
        match rebuilt {
            Node::Sequence { mode, nodes, typ } if state.is_root => {
                let ghost pv = self.pending();
                let mut new_nodes = Vec::new();
                let mut original_nodes = nodes;
                let ghost ov = nodes_view(original_nodes);
                let ghost fvec = self.functions;
                let ghost ovec = original_nodes;
                new_nodes.append(&mut self.functions);
                new_nodes.append(&mut original_nodes);
                proof {
                    lemma_nodes_view(new_nodes);
                    lemma_nodes_view(self.functions);
                    lemma_nodes_view(fvec);
                    lemma_nodes_view(ovec);
                    assert(nodes_view(new_nodes) =~= pv + ov);
                    assert(self.pending() =~= Seq::<NodeSpec>::empty());
                }
                *node = Node::Sequence { mode, nodes: new_nodes, typ };
            },
            other => {
                *node = self.exit(other);
            },
        }
        ResultLog::Success(())
    }
}

} // verus!

//! Explicate Main pass (moves the program body into a main function) and Explicate Returns
//! pass (inserts return operators at the result nodes of functions).
use vstd::prelude::*;
use crate::ast::{
    group_ast_views, is_definition, lemma_nodes_view, new_sequence, nodes_view, placeholder,
    Argument, Node, NodeSpec, SequenceMode, Type, TypeSpec,
};
use crate::errors::{Error, ResultLog};
use crate::text::text;
use crate::tree::{
    children, lemma_children_smaller, lemma_size_seq_element, put_children, size, size_seq,
    take_children, with_children,
};
use crate::wrap::{wrap_results, Wrap, WrapPass, WrapSpec};

verus! {

broadcast use group_ast_views;

/// The nodes of a sequence that are not definitions, in order.
pub open spec fn non_definitions(s: Seq<NodeSpec>) -> Seq<NodeSpec>
    decreases s.len(),
{
    if s.len() == 0 {
        s
    } else if is_definition(s.last()) {
        non_definitions(s.drop_last())
    } else {
        non_definitions(s.drop_last()).push(s.last())
    }
}

/// A sequence with every node that is not a definition replaced by the placeholder.
pub open spec fn keep_definitions(s: Seq<NodeSpec>) -> Seq<NodeSpec>
    decreases s.len(),
{
    if s.len() == 0 {
        s
    } else if is_definition(s.last()) {
        keep_definitions(s.drop_last()).push(s.last())
    } else {
        keep_definitions(s.drop_last()).push(placeholder())
    }
}

/// The main function with the given name and body nodes: no arguments, returns an integer.
pub open spec fn main_function(name: Seq<char>, body_nodes: Seq<NodeSpec>) -> NodeSpec {
    NodeSpec::Function {
        name,
        arguments: Seq::empty(),
        return_type: TypeSpec::Integer,
        body: Box::new(new_sequence(SequenceMode::Scope, body_nodes)),
        typ: TypeSpec::Function(Seq::empty(), Box::new(TypeSpec::Integer)),
    }
}

/// A root sequence whose non-definition nodes are moved, in order, into a main function
/// appended at its end; the sequence becomes transparent. Other roots are unchanged.
pub open spec fn explicated_main(root: NodeSpec, name: Seq<char>) -> NodeSpec {
    match root {
        NodeSpec::Sequence { nodes, typ, .. } => NodeSpec::Sequence {
            mode: SequenceMode::Transparent,
            nodes: keep_definitions(nodes).push(main_function(name, non_definitions(nodes))),
            typ,
        },
        _ => root,
    }
}

/// ## Explicate Main Pass
///
/// - Moves all non-definition nodes from the root sequence into a main function
pub struct ExplicateMain {
    name: String,
}

impl ExplicateMain {
    /// The name of the main function.
    pub closed spec fn main_name(&self) -> Seq<char> {
        self.name@
    }

    pub fn new(name: &str) -> (r: ExplicateMain)
        ensures
            r.main_name() == name@,
    {
        ExplicateMain { name: text(name) }
    }

    /// Moves the non-definition nodes of the root sequence into the main function.
    pub fn apply(&mut self, node: &mut Node) -> (r: ResultLog<(), Error>)
        ensures
            final(node)@ == explicated_main(old(node)@, old(self).main_name()),
            final(self).main_name() == old(self).main_name(),
            r is Success,
    {
        let n = node.extract_temp();
        match n {
            Node::Sequence { mode, nodes, typ } => {
                let ghost old_nodes = nodes_view(nodes);
                proof { lemma_nodes_view(nodes); }
                let mut nodes = nodes;
                let mut main_nodes: Vec<Node> = Vec::new();
                let mut kept: Vec<Node> = Vec::new();
                let mut i: usize = 0;
                while nodes.len() > 0
                    invariant
                        i + nodes.len() == old_nodes.len(),
                        old_nodes.len() <= usize::MAX,
                        forall|j: int| 0 <= j < nodes.len() ==> (#[trigger] nodes@[j])@
                            == old_nodes[i + j],
                        nodes_view(main_nodes) == non_definitions(old_nodes.take(i as int)),
                        nodes_view(kept) == keep_definitions(old_nodes.take(i as int)),
                    decreases nodes.len(),
                {
                    let ghost before = nodes@;
                    let mut n = nodes.remove(0);
                    assert(n@ == old_nodes[i as int]);
                    let ghost nv = n@;
                    if !n.is_definition() {
                        let m = n.extract_temp();
                        main_nodes.push(m);
                    }
                    kept.push(n);
                    proof {
                        lemma_nodes_view(main_nodes);
                        lemma_nodes_view(kept);
                        let t = old_nodes.take(i + 1);
                        assert(t.drop_last() =~= old_nodes.take(i as int));
                        assert(t.last() == nv);
                        assert(nodes_view(main_nodes) =~= non_definitions(t));
                        assert(nodes_view(kept) =~= keep_definitions(t));
                        assert forall|j: int| 0 <= j < nodes.len() implies (#[trigger] nodes@[j])@
                            == old_nodes[i + 1 + j] by {
                            assert(nodes@[j] == before[j + 1]);
                        }
                    }
                    i += 1;
                }
                assert(old_nodes.take(old_nodes.len() as int) =~= old_nodes);
                let body = Node::new_sequence(SequenceMode::Scope, main_nodes);
                let no_types: Vec<Type> = Vec::new();
                assert(crate::ast::types_view_upto(no_types, 0) =~= Seq::empty());
                assert(crate::ast::type_view(Type::Integer) == TypeSpec::Integer);
                let main_type = Type::Function(no_types, Box::new(Type::Integer));
                assert(main_type@ == TypeSpec::Function(Seq::empty(), Box::new(TypeSpec::Integer)));
                let arguments: Vec<Argument> = Vec::new();
                assert(crate::ast::arguments_view(arguments) =~= Seq::empty());
                let main = Node::Function {
                    name: self.name.clone(),
                    arguments,
                    return_type: Type::Integer,
                    body: Box::new(body),
                    typ: main_type,
                };
                let ghost kept_view = nodes_view(kept);
                kept.push(main);
                proof {
                    lemma_nodes_view(kept);
                    assert(nodes_view(kept) =~= kept_view.push(main_function(self.name@, non_definitions(old_nodes))));
                }
                *node = Node::Sequence { mode: SequenceMode::Transparent, nodes: kept, typ };
            },
            other => {
                *node = other;
            },
        }
        ResultLog::Success(())
    }
}

/// A function node whose body has every result node wrapped in a return.
pub open spec fn returns_explicit(n: NodeSpec) -> NodeSpec {
    match n {
        NodeSpec::Function { name, arguments, return_type, body, typ } => NodeSpec::Function {
            name,
            arguments,
            return_type,
            body: Box::new(wrap_results(WrapSpec::Return, *body)),
            typ,
        },
        _ => n,
    }
}

/// The tree with return operators inserted at the result nodes of every function.
pub open spec fn explicated_returns(n: NodeSpec) -> NodeSpec
    decreases size(n), 0nat,
{
    proof {
        lemma_children_smaller(n);
    }
    returns_explicit(with_children(n, explicated_returns_seq(children(n))))
}

/// [`explicated_returns`] of each tree of a sequence.
pub open spec fn explicated_returns_seq(s: Seq<NodeSpec>) -> Seq<NodeSpec>
    decreases size_seq(s), 1nat,
{
    if s.len() == 0 {
        s
    } else {
        proof {
            lemma_size_seq_element(s, s.len() - 1);
        }
        explicated_returns_seq(s.drop_last()).push(explicated_returns(s.last()))
    }
}

/// ## Explicate Returns Pass
///
/// - Inserts return operators at result nodes in functions
pub struct ExplicateReturns {}

impl ExplicateReturns {
    pub fn new() -> ExplicateReturns {
        ExplicateReturns {}
    }

    fn exit(&self, node: Node) -> (r: Node)
        ensures
            r@ == returns_explicit(node@),
    {
        match node {
            Node::Function { name, arguments, return_type, body, typ } => {
                let wrap_pass = WrapPass::new(Wrap::Return);
                let mut body = body;
                wrap_pass.apply(&mut *body);
                Node::Function { name, arguments, return_type, body, typ }
            },
            other => other,
        }
    }

    fn walk(&self, node: Node) -> (r: Node)
        ensures
            r@ == explicated_returns(node@),
        decreases size(node@),
    {
        let ghost n = node@;
        proof {
            lemma_children_smaller(n);
        }
        let (shell, kids) = take_children(node);
        let ghost cs = children(n);
        let mut done: Vec<Node> = Vec::new();
        let mut rest = kids;
        proof {
            lemma_nodes_view(rest);
        }
        while rest.len() > 0
            invariant
                n == node@,
                done.len() + rest.len() == cs.len(),
                nodes_view(done) == explicated_returns_seq(cs.take(done.len() as int)),
                forall|j: int| 0 <= j < rest.len() ==> (#[trigger] rest@[j])@ == cs[done.len() + j],
                forall|j: int| 0 <= j < cs.len() ==> size(#[trigger] cs[j]) < size(n),
            decreases rest.len(),
        {
            let ghost i = done.len() as int;
            let ghost before = rest@;
            let k = rest.remove(0);
            assert(k@ == cs[i]);
            let k2 = self.walk(k);
            done.push(k2);
            proof {
                lemma_nodes_view(done);
                let t = cs.take(i + 1);
                assert(t.drop_last() =~= cs.take(i));
                assert(t.last() == cs[i]);
                assert(nodes_view(done) =~= explicated_returns_seq(t));
                assert forall|j: int| 0 <= j < rest.len() implies (#[trigger] rest@[j])@
                    == cs[done.len() + j] by {
                    assert(rest@[j] == before[j + 1]);
                }
            }
        }
        assert(cs.take(cs.len() as int) =~= cs);
        let rebuilt = put_children(shell, done);
        self.exit(rebuilt)
    }

    /// Wraps the result nodes of every function body in a return.
    pub fn apply(&mut self, node: &mut Node) -> (r: ResultLog<(), Error>)
        ensures
            final(node)@ == explicated_returns(old(node)@),
            r is Success,
    {
        let n = node.extract_temp();
        *node = self.walk(n);
        ResultLog::Success(())
    }
}

} // verus!

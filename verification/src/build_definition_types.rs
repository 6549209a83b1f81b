//! Types of definitions: each function is given the function type of its arguments and
//! return type. (This is the pass that types function definitions; the tree has no type
//! definitions, so there are no structure types to build.)
use vstd::prelude::*;
use crate::ast::{
    arguments_view, group_ast_views, lemma_arguments_view, lemma_nodes_view, nodes_view,
    types_view, ArgumentSpec, Node, NodeSpec, Type, TypeSpec,
};
use crate::text::text;
use crate::tree::{
    children, lemma_children_smaller, lemma_fits_children, lemma_size_seq_element,
    lemma_tree_all_seq, put_children, size, size_seq, take_children, tree_all, with_children,
};

verus! {

broadcast use group_ast_views;

/// The type of a function with the given arguments and return type.
pub open spec fn definition_type(arguments: Seq<ArgumentSpec>, return_type: TypeSpec) -> TypeSpec {
    TypeSpec::Function(arguments.map_values(|a: ArgumentSpec| a.typ), Box::new(return_type))
}

/// A node with its type built if it is a function definition.
pub open spec fn typed_definition(n: NodeSpec) -> NodeSpec {
    match n {
        NodeSpec::Function { name, arguments, return_type, body, .. } => NodeSpec::Function {
            name,
            arguments,
            return_type,
            body,
            typ: definition_type(arguments, return_type),
        },
        _ => n,
    }
}

/// The tree with every function definition typed (children first, then the node).
pub open spec fn definitions_typed(n: NodeSpec) -> NodeSpec
    decreases size(n), 0nat,
{
    proof {
        lemma_children_smaller(n);
    }
    typed_definition(with_children(n, definitions_typed_seq(children(n))))
}

/// [`definitions_typed`] of each tree of a sequence, in order.
pub open spec fn definitions_typed_seq(s: Seq<NodeSpec>) -> Seq<NodeSpec>
    decreases size_seq(s), 1nat,
{
    if s.len() == 0 {
        s
    } else {
        proof {
            lemma_size_seq_element(s, s.len() - 1);
        }
        definitions_typed_seq(s.drop_last()).push(definitions_typed(s.last()))
    }
}

/// Whether a node, if it is a function definition, has the type of its arguments and
/// return type.
pub open spec fn definition_typed_here(n: NodeSpec) -> bool {
    n matches NodeSpec::Function { arguments, return_type, typ, .. } ==> typ == definition_type(
        arguments,
        return_type,
    )
}

/// Whether every function definition of a tree has its type built.
pub open spec fn all_definitions_typed(n: NodeSpec) -> bool {
    tree_all(n, |m: NodeSpec| definition_typed_here(m))
}

/// The typed sequence keeps the length and types each tree.
pub proof fn lemma_definitions_typed_seq(s: Seq<NodeSpec>)
    ensures
        definitions_typed_seq(s).len() == s.len(),
        forall|i: int| 0 <= i < s.len() ==> #[trigger] definitions_typed_seq(s)[i]
            == definitions_typed(s[i]),
    decreases s.len(),
{
    if s.len() > 0 {
        lemma_definitions_typed_seq(s.drop_last());
        assert forall|i: int| 0 <= i < s.len() implies #[trigger] definitions_typed_seq(s)[i]
            == definitions_typed(s[i]) by {
            if i < s.len() - 1 {
                assert(s.drop_last()[i] == s[i]);
            }
        }
    }
}

/// After the pass, every function definition of the tree has the type of its arguments and
/// return type.
pub proof fn lemma_all_definitions_typed(n: NodeSpec)
    ensures
        all_definitions_typed(definitions_typed(n)),
    decreases size(n),
{
    lemma_children_smaller(n);
    let cs = children(n);
    lemma_definitions_typed_seq(cs);
    let rs = definitions_typed_seq(cs);
    assert forall|i: int| 0 <= i < rs.len() implies all_definitions_typed(#[trigger] rs[i]) by {
        lemma_all_definitions_typed(cs[i]);
    }
    lemma_fits_children(n);
    let m = with_children(n, rs);
    crate::flatten_definitions::lemma_children_of_with_children(n, rs);
    let r = typed_definition(m);
    assert(children(r) == children(m));
    lemma_tree_all_seq(rs, |x: NodeSpec| definition_typed_here(x));
}

/// ## Build Definition Types Pass
///
/// - Gives each function definition the function type of its arguments and return type
pub struct Pass {}

impl Pass {
    pub fn new() -> Self {
        Self {}
    }

    /// Builds the type of a node if it is a function definition (its children are not
    /// visited).
    pub fn transform(&self, node: &mut Node)
        ensures
            final(node)@ == typed_definition(old(node)@),
    {
        match node {
            Node::Function { arguments, return_type, typ, .. } => {
                let mut argument_types: Vec<Type> = Vec::new();
                let mut i: usize = 0;
                proof {
                    lemma_arguments_view(*arguments);
                }
                while i < arguments.len()
                    invariant
                        i <= arguments.len(),
                        argument_types.len() == i,
                        forall|j: int| 0 <= j < i ==> (#[trigger] argument_types@[j])@ == arguments@[j].typ@,
                    decreases arguments.len() - i,
                {
                    argument_types.push(arguments[i].typ.copy());
                    i += 1;
                }
                proof {
                    lemma_types_view_of(argument_types);
                    assert(types_view(argument_types) =~= arguments_view(*arguments).map_values(
                        |a: ArgumentSpec| a.typ,
                    ));
                }
                *typ = Type::Function(argument_types, Box::new(return_type.copy()));
            },
            _ => {},
        }
    }

    /// Gives every function definition of the tree its type.
    pub fn apply(&self, root: &mut Node)
        ensures
            final(root)@ == definitions_typed(old(root)@),
        decreases size(old(root)@),
    {
        let ghost n = root@;
        proof {
            lemma_children_smaller(n);
        }
        let node = root.extract_temp();
        let (shell, kids) = take_children(node);
        let ghost cs = children(n);
        let mut done: Vec<Node> = Vec::new();
        let mut rest = kids;
        proof {
            lemma_nodes_view(rest);
            lemma_nodes_view(done);
        }
        while rest.len() > 0
            invariant
                n == old(root)@,
                done.len() + rest.len() == cs.len(),
                forall|j: int| 0 <= j < rest.len() ==> (#[trigger] rest@[j])@ == cs[done.len() + j],
                forall|j: int| 0 <= j < cs.len() ==> size(#[trigger] cs[j]) < size(n),
                nodes_view(done) == definitions_typed_seq(cs.take(done.len() as int)),
            decreases rest.len(),
        {
            let ghost i = done.len() as int;
            let ghost before = rest@;
            let mut k = rest.remove(0);
            assert(k@ == cs[i]);
            self.apply(&mut k);
            done.push(k);
            proof {
                lemma_nodes_view(done);
                let t = cs.take(i + 1);
                assert(t.drop_last() =~= cs.take(i));
                assert(t.last() == cs[i]);
                assert(nodes_view(done) =~= definitions_typed_seq(t));
                assert forall|j: int| 0 <= j < rest.len() implies (#[trigger] rest@[j])@
                    == cs[done.len() + j] by {
                    assert(rest@[j] == before[j + 1]);
                }
            }
        }
        proof {
            assert(cs.take(cs.len() as int) =~= cs);
            lemma_definitions_typed_seq(cs);
            lemma_fits_children(n);
        }
        *root = put_children(shell, done);
        self.transform(root);
    }

    /// The name of the pass.
    pub fn get_name(&self) -> (r: String)
        ensures
            r@ == "BuildDefinitionTypes"@,
    {
        text("BuildDefinitionTypes")
    }
}

/// The models of a vector of types are the models of its elements, in order.
proof fn lemma_types_view_of(v: Vec<Type>)
    ensures
        types_view(v).len() == v.len(),
        forall|i: int| 0 <= i < v.len() ==> #[trigger] types_view(v)[i] == v@[i]@,
{
    crate::ast::lemma_types_view(v);
}

} // verus!

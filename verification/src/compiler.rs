//! The compiler: the passes from a syntax tree to C, in order.
use vstd::prelude::*;
use crate::ast::{lemma_nodes_view, nodes_view, CNode, Node, NodeSpec};
use crate::bindings::state_root;
use crate::c_convert::{convertible, converted, operator_call_without_operands, Convert};
use crate::check::{check_errors, Check};
use crate::convert_names::{converted_names, ConvertNames};
use crate::errors::{errors_view, Error, ErrorSpec, ResultLog};
use crate::explicate::{explicated_main, explicated_returns, ExplicateMain, ExplicateReturns};
use crate::flatten_bindings::{flattened_bindings, FlattenBindings};
use crate::flatten_definitions::{flattened_definitions, FlattenDefinitions};
use crate::flatten_names::{flattened_names, root_names_state, FlattenNames, ScopeSpec};
use crate::flatten_operands::{flattened_operands, FlattenOperands};
use crate::infer::{inferred, not_access, Infer};
use crate::text::text;
use crate::tree::{
    children, lemma_children_smaller, lemma_tree_all_seq, put_children, size, take_children,
    tree_all, tree_all_seq,
};

verus! {

/// The name of the function that holds the program's statements.
pub open spec fn main_function_name() -> Seq<char> {
    seq!['_', '_', 'S', 'p', 'e', 'c', 's', 'M', 'a', 'i', 'n', '_', '_']
}

/// The message of the error given when a call of an operator lacks its operands.
pub open spec fn msg_missing_operands() -> Seq<char> {
    seq![
        'C', 'a', 'l', 'l', ' ', 'o', 'f', ' ', 'a', 'n', ' ', 'o', 'p', 'e', 'r', 'a', 't', 'o',
        'r', ' ', 'w', 'i', 't', 'h', 'o', 'u', 't', ' ', 'o', 'p', 'e', 'r', 'a', 'n', 'd', 's',
    ]
}

/// The message of the error given when the program does not collapse into C text.
pub open spec fn msg_no_root_cnode() -> Seq<char> {
    seq![
        'F', 'a', 'i', 'l', 'e', 'd', ' ', 't', 'o', ' ', 'g', 'e', 't', ' ', 'r', 'o', 'o', 't',
        ' ', 'C', 'N', 'o', 'd', 'e',
    ]
}

/// The outcome of compiling a tree: its C text, or the errors that stopped the compiler.
pub enum CompileSpec {
    Compiled(NodeSpec),
    Failed(Seq<ErrorSpec>),
}

/// The tree after type inference.
#[verifier::opaque]
pub open spec fn typed_tree(root: NodeSpec) -> NodeSpec {
    inferred(root, state_root(), Seq::empty()).0
}

/// The errors of type inference, or when there are none, those of type checking.
#[verifier::opaque]
pub open spec fn typing_errors(root: NodeSpec) -> Seq<ErrorSpec> {
    let typed = inferred(root, state_root(), Seq::empty());
    if typed.2.len() != 0 {
        typed.2
    } else {
        check_errors(typed.0, Seq::empty())
    }
}

/// The tree after the passes that follow type checking, up to the conversion of names.
#[verifier::opaque]
pub open spec fn lowered(checked: NodeSpec) -> NodeSpec {
    let names = flattened_names(checked, ScopeSpec::Outside, root_names_state(checked), 0).0;
    let definitions = flattened_definitions(names, Seq::empty()).0;
    let operands = flattened_operands(definitions, 0).0;
    let bindings = flattened_bindings(operands, 0).0;
    let main = explicated_main(bindings, main_function_name());
    let explicit = explicated_returns(main);
    converted_names(explicit)
}

/// The outcome of collapsing a lowered tree into C text.
#[verifier::opaque]
pub open spec fn emitted(low: NodeSpec) -> CompileSpec {
    if !convertible(low) {
        CompileSpec::Failed(seq![ErrorSpec::Internal(msg_missing_operands())])
    } else {
        let c = converted(low, Seq::empty());
        if c.1.len() != 0 {
            CompileSpec::Failed(c.1)
        } else if c.0 is CNode {
            CompileSpec::Compiled(c.0)
        } else {
            CompileSpec::Failed(seq![ErrorSpec::Internal(msg_no_root_cnode())])
        }
    }
}

/// What compiling a tree gives: type inference and checking, then the lowering passes, and
/// the conversion to C text; the first pass with errors stops the compiler with them.
pub open spec fn compiled(root: NodeSpec) -> CompileSpec {
    if typing_errors(root).len() != 0 {
        CompileSpec::Failed(typing_errors(root))
    } else {
        emitted(lowered(typed_tree(root)))
    }
}

/// The model of a node of C text.
pub open spec fn cnode_view(c: CNode) -> NodeSpec {
    NodeSpec::CNode { node_type: c.node_type, text: c.text@, typ: c.typ@ }
}

/// Whether a tree can be collapsed into C text (see [`convertible`]), with the tree back.
pub fn check_convertible(node: Node) -> (r: (Node, bool))
    ensures
        r.0@ == node@,
        r.1 == convertible(node@),
    decreases size(node@),
{
    let ghost n = node@;
    proof {
        lemma_children_smaller(n);
    }
    let here = !call_lacks_operands(&node);
    assert(here == !operator_call_without_operands(n));
    let (shell, kids) = take_children(node);
    let ghost cs = children(n);
    let mut done: Vec<Node> = Vec::new();
    let mut rest = kids;
    let mut all = true;
    proof {
        lemma_nodes_view(rest);
        lemma_nodes_view(done);
    }
    while rest.len() > 0
        invariant
            n == node@,
            done.len() + rest.len() == cs.len(),
            forall|j: int| 0 <= j < rest.len() ==> (#[trigger] rest@[j])@ == cs[done.len() + j],
            forall|j: int| 0 <= j < cs.len() ==> size(#[trigger] cs[j]) < size(n),
            nodes_view(done) == cs.take(done.len() as int),
            all == (forall|j: int| 0 <= j < done.len() ==> convertible(#[trigger] cs[j])),
        decreases rest.len(),
    {
        let ghost i = done.len() as int;
        let ghost before = rest@;
        let k = rest.remove(0);
        assert(k@ == cs[i]);
        let (k2, ok) = check_convertible(k);
        all = all && ok;
        let ghost done_before = done;
        done.push(k2);
        proof {
            lemma_nodes_view(done);
            lemma_nodes_view(done_before);
            assert(nodes_view(done) =~= cs.take(i + 1));
            assert forall|j: int| 0 <= j < rest.len() implies (#[trigger] rest@[j])@
                == cs[done.len() + j] by {
                assert(rest@[j] == before[j + 1]);
            }
        }
    }
    assert(cs.take(cs.len() as int) =~= cs);
    proof {
        lemma_tree_all_seq(cs, |x: NodeSpec| !operator_call_without_operands(x));
        crate::tree::lemma_with_own_children(n);
    }
    let rebuilt = put_children(shell, done);
    (rebuilt, here && all)
}

/// Whether a node is a call without operands of an operator that becomes a prefix or
/// infix operator in C.
fn call_lacks_operands(node: &Node) -> (r: bool)
    ensures
        r == operator_call_without_operands(node@),
{
    match node {
        Node::Call { operator, operands, .. } => {
            proof {
                lemma_nodes_view(*operands);
            }
            if operands.len() == 0 {
                match &**operator {
                    Node::CNode(c) => {
                        assert((**operator)@ == NodeSpec::CNode {
                            node_type: c.node_type,
                            text: c.text@,
                            typ: c.typ@,
                        });
                        c.node_type == crate::ast::CNodeType::InfixOperator || c.node_type
                            == crate::ast::CNodeType::PrefixOperator
                    },
                    Node::PrimitiveOperator { operator: o, typ } => {
                        assert((**operator)@ == NodeSpec::PrimitiveOperator { operator: *o, typ: typ@ });
                        let (k, _) = crate::operators::operator_c_text(*o);
                        k == crate::ast::CNodeType::InfixOperator || k
                            == crate::ast::CNodeType::PrefixOperator
                    },
                    _ => false,
                }
            } else {
                false
            }
        },
        _ => false,
    }
}

/// A compiler instance with associated configuration, etc.
pub struct Compiler {}

impl Compiler {
    pub fn new() -> Compiler {
        Compiler {}
    }

    /// Runs the passes that follow type checking, up to the conversion of names.
    fn lower(&self, node: &mut Node)
        ensures
            final(node)@ == lowered(old(node)@),
    {
        reveal(lowered);
        let mut flatten_names = FlattenNames::new();
        flatten_names.apply(node);
        let mut flatten_definitions = FlattenDefinitions::new();
        flatten_definitions.apply(node);
        let mut flatten_operands = FlattenOperands::new();
        flatten_operands.apply(node);
        let mut flatten_bindings = FlattenBindings::new();
        flatten_bindings.apply(node);
        proof {
            reveal_strlit("__SpecsMain__");
            assert("__SpecsMain__"@ =~= main_function_name());
        }
        let mut explicate_main = ExplicateMain::new("__SpecsMain__");
        explicate_main.apply(node);
        let mut explicate_returns = ExplicateReturns::new();
        explicate_returns.apply(node);
        let mut convert_names = ConvertNames::new();
        convert_names.apply(node);
    }

    /// Compiles a tree to C: fills in and checks types, gives every definition a unique
    /// name, moves definitions to the top level, binds complex operands and bindings to
    /// temporaries, moves the program's statements into a main function, makes returns
    /// explicit, makes names C-safe and collapses the tree into C text.
    /// Infers and checks types; gives the errors when there are any.
    fn typecheck(&self, node: &mut Node) -> (r: Option<Vec<Error>>)
        requires
            tree_all(old(node)@, |x: NodeSpec| not_access(x)),
        ensures
            match r {
                Some(e) => errors_view(e) == typing_errors(old(node)@) && typing_errors(
                    old(node)@,
                ).len() != 0,
                None => typing_errors(old(node)@).len() == 0 && final(node)@ == typed_tree(
                    old(node)@,
                ),
            },
    {
        reveal(typing_errors);
        reveal(typed_tree);
        let mut infer = Infer::new();
        match infer.apply(node) {
            ResultLog::Error(errors, _) => {
                return Some(errors);
            },
            _ => {},
        }
        let mut check = Check::new();
        match check.apply(node) {
            ResultLog::Error(errors, _) => {
                return Some(errors);
            },
            _ => {},
        }
        None
    }

    /// Collapses a lowered tree into C text.
    fn emit(&self, node: Node) -> (r: ResultLog<CNode, Error>)
        ensures
            match emitted(node@) {
                CompileSpec::Compiled(c) => r matches ResultLog::Success(cn) && cnode_view(cn) == c,
                CompileSpec::Failed(es) => r matches ResultLog::Error(e, w) && errors_view(e) == es
                    && w@.len() == 0,
            },
    {
        reveal(emitted);
        let (lowered_node, ok) = check_convertible(node);
        let mut node = lowered_node;
        if !ok {
            proof {
                reveal_strlit("Call of an operator without operands");
                assert("Call of an operator without operands"@ =~= msg_missing_operands());
            }
            let r = ResultLog::new_error(Error::Internal(text("Call of an operator without operands")));
            assert(errors_view(r->Error_0) =~= seq![ErrorSpec::Internal(msg_missing_operands())]);
            return r;
        }
        let mut convert = Convert::new();
        match convert.apply(&mut node) {
            ResultLog::Error(errors, warnings) => {
                return ResultLog::Error(errors, warnings);
            },
            _ => {},
        }
        match node {
            Node::CNode(cnode) => ResultLog::maybe_warn(cnode, Vec::new()),
            _ => {
                proof {
                    reveal_strlit("Failed to get root CNode");
                    assert("Failed to get root CNode"@ =~= msg_no_root_cnode());
                }
                let r = ResultLog::new_error(Error::Internal(text("Failed to get root CNode")));
                assert(errors_view(r->Error_0) =~= seq![ErrorSpec::Internal(msg_no_root_cnode())]);
                r
            },
        }
    }

    /// Compiles a tree to C: fills in and checks types, gives every definition a unique
    /// name, moves definitions to the top level, binds complex operands and bindings to
    /// temporaries, moves the program's statements into a main function, makes returns
    /// explicit, makes names C-safe and collapses the tree into C text.
    pub fn compile_c(&self, node: Node) -> (r: ResultLog<CNode, Error>)
        requires
            tree_all(node@, |x: NodeSpec| not_access(x)),
        ensures
            match compiled(node@) {
                CompileSpec::Compiled(c) => r matches ResultLog::Success(cn) && cnode_view(cn) == c,
                CompileSpec::Failed(es) => r matches ResultLog::Error(e, w) && errors_view(e) == es
                    && w@.len() == 0,
            },
    {
        let mut node = node;
        match self.typecheck(&mut node) {
            Some(errors) => {
                return ResultLog::Error(errors, Vec::new());
            },
            None => {},
        }
        self.lower(&mut node);
        self.emit(node)
    }
}

} // verus!

//! Type validation of a whole tree: every variable and binding has a type, and calls,
//! dereferences, assignments and conditionals agree with the types of their parts.
use vstd::prelude::*;
use crate::ast::{
    group_ast_views, lemma_nodes_view, lemma_types_view, node_type, nodes_view, types_equal,
    types_view, Node, NodeSpec, Type, TypeSpec,
};
use crate::infer::operand_types;
use crate::c_convert::type_c_text;
use crate::text::{decimal, push_str, push_string, text, usize_text};
use crate::tree::{
    child_refs, children, lemma_children_smaller, lemma_size_seq_element, size, size_seq,
};

verus! {

broadcast use group_ast_views;

/// A type error.
#[derive(Debug)]
pub enum TypeError {
    UnknownSymbolType(String),
    InvalidOperatorType(Type),
    InvalidArgumentType(usize, Type, Type),
    InvalidArgumentCount(usize, usize),
    InvalidDereference(Type),
    InvalidBindingType(String, Type),
    InvalidAssignment(Type, Type),
    InvalidConditionType(Type),
    NonmatchingBranchTypes(Type, Type),
}

/// Model of [`TypeError`].
pub enum TypeErrorSpec {
    UnknownSymbolType(Seq<char>),
    InvalidOperatorType(TypeSpec),
    InvalidArgumentType(nat, TypeSpec, TypeSpec),
    InvalidArgumentCount(nat, nat),
    InvalidDereference(TypeSpec),
    InvalidBindingType(Seq<char>, TypeSpec),
    InvalidAssignment(TypeSpec, TypeSpec),
    InvalidConditionType(TypeSpec),
    NonmatchingBranchTypes(TypeSpec, TypeSpec),
}

impl View for TypeError {
    type V = TypeErrorSpec;

    open spec fn view(&self) -> TypeErrorSpec {
        match self {
            TypeError::UnknownSymbolType(name) => TypeErrorSpec::UnknownSymbolType(name@),
            TypeError::InvalidOperatorType(t) => TypeErrorSpec::InvalidOperatorType(t@),
            TypeError::InvalidArgumentType(i, a, b) => TypeErrorSpec::InvalidArgumentType(
                *i as nat,
                a@,
                b@,
            ),
            TypeError::InvalidArgumentCount(a, b) => TypeErrorSpec::InvalidArgumentCount(
                *a as nat,
                *b as nat,
            ),
            TypeError::InvalidDereference(t) => TypeErrorSpec::InvalidDereference(t@),
            TypeError::InvalidBindingType(name, t) => TypeErrorSpec::InvalidBindingType(name@, t@),
            TypeError::InvalidAssignment(a, b) => TypeErrorSpec::InvalidAssignment(a@, b@),
            TypeError::InvalidConditionType(t) => TypeErrorSpec::InvalidConditionType(t@),
            TypeError::NonmatchingBranchTypes(a, b) => TypeErrorSpec::NonmatchingBranchTypes(
                a@,
                b@,
            ),
        }
    }
}

/// The models of a vector of type errors, in order.
pub open spec fn type_errors_view(v: Vec<TypeError>) -> Seq<TypeErrorSpec> {
    Seq::new(v.len() as nat, |i: int| v@[i]@)
}

/// The errors of the arguments of a call whose argument count matches: one for each
/// argument whose type is not its operand's type, in order.
pub open spec fn argument_errors(arguments: Seq<TypeSpec>, operands: Seq<TypeSpec>, k: nat) -> Seq<
    TypeErrorSpec,
>
    decreases k,
{
    if k == 0 {
        Seq::empty()
    } else {
        let i = (k - 1) as nat;
        let prev = argument_errors(arguments, operands, i);
        if arguments[i as int] != operands[i as int] {
            prev.push(TypeErrorSpec::InvalidArgumentType(i, arguments[i as int], operands[i as int]))
        } else {
            prev
        }
    }
}

/// The type errors of one node.
pub open spec fn type_errors(n: NodeSpec) -> Seq<TypeErrorSpec> {
    match n {
        NodeSpec::Variable { name, typ } => if typ is Unknown {
            seq![TypeErrorSpec::UnknownSymbolType(name)]
        } else {
            Seq::empty()
        },
        NodeSpec::Call { operator, operands, .. } => match node_type(*operator) {
            TypeSpec::Function(arguments, _) => if arguments.len() == operands.len() {
                argument_errors(arguments, operand_types(operands), arguments.len())
            } else {
                seq![TypeErrorSpec::InvalidArgumentCount(arguments.len(), operands.len())]
            },
            other => seq![TypeErrorSpec::InvalidOperatorType(other)],
        },
        NodeSpec::Dereference { target, .. } => if !(node_type(*target) is Reference) {
            seq![TypeErrorSpec::InvalidDereference(node_type(*target))]
        } else {
            Seq::empty()
        },
        NodeSpec::Binding { name, binding } => if node_type(*binding) is Unknown {
            seq![TypeErrorSpec::InvalidBindingType(name, node_type(*binding))]
        } else {
            Seq::empty()
        },
        NodeSpec::Assign { lhs, rhs } => if node_type(*lhs) != node_type(*rhs) {
            seq![TypeErrorSpec::InvalidAssignment(node_type(*lhs), node_type(*rhs))]
        } else {
            Seq::empty()
        },
        NodeSpec::Conditional { condition, then_branch, else_branch, .. } => (if node_type(
            *condition,
        ) != TypeSpec::Boolean {
            seq![TypeErrorSpec::InvalidConditionType(node_type(*condition))]
        } else {
            Seq::empty()
        }) + (if !(*else_branch is Nothing) && node_type(*else_branch) != node_type(*then_branch) {
            seq![
                TypeErrorSpec::NonmatchingBranchTypes(
                    node_type(*then_branch),
                    node_type(*else_branch),
                ),
            ]
        } else {
            Seq::empty()
        }),
        _ => Seq::empty(),
    }
}

/// The type errors of a tree, children before their parent, after `es`.
pub open spec fn tree_type_errors(n: NodeSpec, es: Seq<TypeErrorSpec>) -> Seq<TypeErrorSpec>
    decreases size(n), 0nat,
{
    proof {
        lemma_children_smaller(n);
    }
    tree_type_errors_seq(children(n), es) + type_errors(n)
}

/// [`tree_type_errors`] of each tree of a sequence, in order.
pub open spec fn tree_type_errors_seq(s: Seq<NodeSpec>, es: Seq<TypeErrorSpec>) -> Seq<TypeErrorSpec>
    decreases size_seq(s), 1nat,
{
    if s.len() == 0 {
        es
    } else {
        proof {
            lemma_size_seq_element(s, s.len() - 1);
        }
        tree_type_errors(s.last(), tree_type_errors_seq(s.drop_last(), es))
    }
}

fn push_type_error(errors: &mut Vec<TypeError>, e: TypeError)
    ensures
        type_errors_view(*final(errors)) == type_errors_view(*old(errors)).push(e@),
{
    errors.push(e);
    assert(type_errors_view(*errors) =~= type_errors_view(*old(errors)).push(e@));
}

/// Checks the arguments of a call against its operands' types.
fn check_arguments(arguments: &Vec<Type>, operand_types: &Vec<Type>, errors: &mut Vec<TypeError>)
    requires
        arguments.len() == operand_types.len(),
    ensures
        type_errors_view(*final(errors)) == type_errors_view(*old(errors)) + argument_errors(
            types_view(*arguments),
            types_view(*operand_types),
            arguments.len() as nat,
        ),
{
    proof {
        lemma_types_view(*arguments);
        lemma_types_view(*operand_types);
    }
    let ghost e0 = type_errors_view(*errors);
    let ghost a = types_view(*arguments);
    let ghost o = types_view(*operand_types);
    let mut i: usize = 0;
    assert(e0 + argument_errors(a, o, 0) =~= e0);
    while i < arguments.len()
        invariant
            i <= arguments.len(),
            arguments.len() == operand_types.len(),
            a == types_view(*arguments),
            o == types_view(*operand_types),
            a.len() == arguments.len(),
            o.len() == operand_types.len(),
            forall|j: int| 0 <= j < arguments.len() ==> a[j] == (#[trigger] arguments@[j])@,
            forall|j: int| 0 <= j < operand_types.len() ==> o[j] == (#[trigger] operand_types@[j])@,
            type_errors_view(*errors) == e0 + argument_errors(a, o, i as nat),
        decreases arguments.len() - i,
    {
        if !types_equal(&arguments[i], &operand_types[i]) {
            let e = TypeError::InvalidArgumentType(i, arguments[i].copy(), operand_types[i].copy());
            push_type_error(errors, e);
            assert(type_errors_view(*errors) =~= e0 + argument_errors(a, o, (i + 1) as nat));
        } else {
            assert(argument_errors(a, o, (i + 1) as nat) == argument_errors(a, o, i as nat));
        }
        i += 1;
    }
}

/// Checks the types of one node, appending the errors.
#[verifier::spinoff_prover]
#[verifier::rlimit(40)]
fn check_type(node: &Node, errors: &mut Vec<TypeError>)
    ensures
        type_errors_view(*final(errors)) == type_errors_view(*old(errors)) + type_errors(node@),
{
    let ghost e0 = type_errors_view(*errors);
    match node {
        Node::Variable { name, typ } => {
            // Ensure that all variables have types
            if matches!(typ, Type::Unknown) {
                push_type_error(errors, TypeError::UnknownSymbolType(name.clone()));
            }
            assert(type_errors_view(*errors) =~= e0 + type_errors(node@));
        },
        Node::Call { operator, operands, .. } => {
            // Ensure that all calls have callable operator types and correct argument types
            let operator_type = operator.get_type();
            match operator_type {
                Type::Function(arguments, _) => {
                    proof {
                        lemma_nodes_view(*operands);
                        lemma_types_view(arguments);
                    }
                    if arguments.len() == operands.len() {
                        let types = crate::infer::get_operand_types(operands);
                        proof {
                            lemma_types_view(types);
                        }
                        check_arguments(&arguments, &types, errors);
                    } else {
                        push_type_error(
                            errors,
                            TypeError::InvalidArgumentCount(arguments.len(), operands.len()),
                        );
                    }
                },
                other => {
                    push_type_error(errors, TypeError::InvalidOperatorType(other));
                },
            }
            assert(type_errors_view(*errors) =~= e0 + type_errors(node@));
        },
        Node::Dereference { target, .. } => {
            let target_type = target.get_type();
            if !matches!(target_type, Type::Reference(..)) {
                push_type_error(errors, TypeError::InvalidDereference(target_type));
            }
            assert(type_errors_view(*errors) =~= e0 + type_errors(node@));
        },
        Node::Binding { name, binding } => {
            // Ensure that all variable bindings have types
            let binding_type = binding.get_type();
            if matches!(binding_type, Type::Unknown) {
                push_type_error(errors, TypeError::InvalidBindingType(name.clone(), binding_type));
            }
            assert(type_errors_view(*errors) =~= e0 + type_errors(node@));
        },
        Node::Assign { lhs, rhs } => {
            // Ensure the LHS and RHS have the same types
            let lhs_type = lhs.get_type();
            let rhs_type = rhs.get_type();
            if !types_equal(&lhs_type, &rhs_type) {
                push_type_error(errors, TypeError::InvalidAssignment(lhs_type, rhs_type));
            }
            assert(type_errors_view(*errors) =~= e0 + type_errors(node@));
        },
        Node::Conditional { condition, then_branch, else_branch, .. } => {
            let condition_type = condition.get_type();
            if !types_equal(&condition_type, &Type::Boolean) {
                push_type_error(errors, TypeError::InvalidConditionType(condition_type));
            }
            let ghost e1 = type_errors_view(*errors);
            let has_else = !matches!(**else_branch, Node::Nothing { .. });
            let then_type = then_branch.get_type();
            let else_type = else_branch.get_type();
            if has_else && !types_equal(&else_type, &then_type) {
                push_type_error(errors, TypeError::NonmatchingBranchTypes(then_type, else_type));
            }
            assert(type_errors_view(*errors) =~= e0 + type_errors(node@));
        },
        _ => {
            assert(type_errors_view(*errors) =~= e0 + type_errors(node@));
        },
    }
}

/// Accumulates the type errors of a tree, children first.
fn check(node: &Node, errors: &mut Vec<TypeError>)
    ensures
        type_errors_view(*final(errors)) == tree_type_errors(node@, type_errors_view(*old(errors))),
    decreases size(node@),
{
    let ghost n = node@;
    let ghost e0 = type_errors_view(*errors);
    proof {
        lemma_children_smaller(n);
    }
    let kids = child_refs(node);
    let ghost cs = children(n);
    let mut i: usize = 0;
    assert(cs.take(0) =~= Seq::<NodeSpec>::empty());
    while i < kids.len()
        invariant
            i <= kids.len(),
            kids.len() == cs.len(),
            n == node@,
            forall|j: int| 0 <= j < kids.len() ==> (#[trigger] kids@[j])@ == cs[j],
            forall|j: int| 0 <= j < cs.len() ==> size(#[trigger] cs[j]) < size(n),
            type_errors_view(*errors) == tree_type_errors_seq(cs.take(i as int), e0),
        decreases kids.len() - i,
    {
        let ghost t = cs.take(i + 1);
        assert(t.drop_last() =~= cs.take(i as int));
        assert(t.last() == cs[i as int]);
        check(kids[i], errors);
        i += 1;
    }
    assert(cs.take(cs.len() as int) =~= cs);
    check_type(node, errors);
}

/// Checks the types of a whole tree: the errors of all its nodes, children before their
/// parent, or nothing when there are none.
pub fn apply(root: &Node) -> (r: Option<Vec<TypeError>>)
    ensures
        match r {
            Some(errors) => type_errors_view(errors) == tree_type_errors(root@, Seq::empty())
                && errors.len() > 0,
            None => tree_type_errors(root@, Seq::empty()).len() == 0,
        },
{
    let mut errors: Vec<TypeError> = Vec::new();
    assert(type_errors_view(errors) =~= Seq::<TypeErrorSpec>::empty());
    check(root, &mut errors);
    if errors.len() == 0 {
        None
    } else {
        Some(errors)
    }
}


/// The text of a type error.
pub open spec fn type_error_message(e: TypeErrorSpec) -> Seq<char> {
    match e {
        TypeErrorSpec::UnknownSymbolType(symbol) => "Unknown symbol '"@ + symbol + "'"@,
        TypeErrorSpec::InvalidOperatorType(t) => "Invalid operator type "@ + type_c_text(t),
        TypeErrorSpec::InvalidArgumentType(index, expected, found) => "Invalid argument type (index="@
            + decimal(index) + "): expected "@ + type_c_text(expected) + ", found "@ + type_c_text(found),
        TypeErrorSpec::InvalidArgumentCount(expected, found) => "Invalid argument count: expected "@
            + decimal(expected) + ", found "@ + decimal(found),
        TypeErrorSpec::InvalidDereference(t) => "Invalid dereference: can't dereference value-type "@
            + type_c_text(t),
        TypeErrorSpec::InvalidBindingType(name, t) => "Invalid type for binding '"@ + name
            + "': found "@ + type_c_text(t),
        TypeErrorSpec::InvalidAssignment(lhs, rhs) => "Invalid assignment: assigning "@ + type_c_text(rhs)
            + " to target "@ + type_c_text(lhs),
        TypeErrorSpec::InvalidConditionType(t) => "Invalid condition type: found "@ + type_c_text(t),
        TypeErrorSpec::NonmatchingBranchTypes(then_type, else_type) => "Else branch doesn't match then branch: expected "@
            + type_c_text(then_type) + ", found "@ + type_c_text(else_type),
    }
}

impl TypeError {
    /// The text of the error.
    pub fn message(&self) -> (r: String)
        ensures
            r@ == type_error_message(self@),
    {
        match self {
            TypeError::UnknownSymbolType(symbol) => {
                let mut r = text("Unknown symbol '");
                push_string(&mut r, symbol);
                push_str(&mut r, "'");
                r
            },
            TypeError::InvalidOperatorType(t) => {
                let mut r = text("Invalid operator type ");
                let tt = t.get_c_text();
                push_string(&mut r, &tt);
                r
            },
            TypeError::InvalidArgumentType(index, expected, found) => {
                let mut r = text("Invalid argument type (index=");
                let i = usize_text(*index);
                push_string(&mut r, &i);
                push_str(&mut r, "): expected ");
                let e = expected.get_c_text();
                push_string(&mut r, &e);
                push_str(&mut r, ", found ");
                let f = found.get_c_text();
                push_string(&mut r, &f);
                r
            },
            TypeError::InvalidArgumentCount(expected, found) => {
                let mut r = text("Invalid argument count: expected ");
                let e = usize_text(*expected);
                push_string(&mut r, &e);
                push_str(&mut r, ", found ");
                let f = usize_text(*found);
                push_string(&mut r, &f);
                r
            },
            TypeError::InvalidDereference(t) => {
                let mut r = text("Invalid dereference: can't dereference value-type ");
                let tt = t.get_c_text();
                push_string(&mut r, &tt);
                r
            },
            TypeError::InvalidBindingType(name, t) => {
                let mut r = text("Invalid type for binding '");
                push_string(&mut r, name);
                push_str(&mut r, "': found ");
                let tt = t.get_c_text();
                push_string(&mut r, &tt);
                r
            },
            TypeError::InvalidAssignment(lhs, rhs) => {
                let mut r = text("Invalid assignment: assigning ");
                let rt = rhs.get_c_text();
                push_string(&mut r, &rt);
                push_str(&mut r, " to target ");
                let lt = lhs.get_c_text();
                push_string(&mut r, &lt);
                r
            },
            TypeError::InvalidConditionType(t) => {
                let mut r = text("Invalid condition type: found ");
                let tt = t.get_c_text();
                push_string(&mut r, &tt);
                r
            },
            TypeError::NonmatchingBranchTypes(then_type, else_type) => {
                let mut r = text("Else branch doesn't match then branch: expected ");
                let t = then_type.get_c_text();
                push_string(&mut r, &t);
                push_str(&mut r, ", found ");
                let e = else_type.get_c_text();
                push_string(&mut r, &e);
                r
            },
        }
    }
}

} // verus!

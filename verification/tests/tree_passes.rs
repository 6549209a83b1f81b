use lib::ast::{Node, Operator, ReferenceMode, SequenceMode, Type};
use lib::build_definition_types;
use lib::extract_conditionals;
use lib::pass_messages::{PassMessage, PassMessageContext, PassResult};
use lib::specs_c_convert;
use lib::specs_flat;
use lib::specs_source;
use lib::infer_types::{self, TypeEnvironment};
use lib::simplify_bindings;
use lib::write_c;
use lib::extract_sequences;
use lib::insert_returns;
use lib::make_definition_names_unique::{self, Context, Environment};
use lib::remove_single_sequences;

fn integer(v: i64) -> Node {
    Node::Integer { value: v }
}

fn var(name: &str) -> Node {
    Node::Variable { name: name.to_string(), typ: Type::Unknown }
}

fn call(operator: Node, operands: Vec<Node>) -> Node {
    Node::Call { operator: Box::new(operator), operands, typ: Type::Unknown }
}

fn scope(nodes: Vec<Node>) -> Node {
    Node::Sequence { mode: SequenceMode::Scope, nodes, typ: Type::Unknown }
}

fn bind(name: &str, value: Node) -> Node {
    Node::Binding { name: name.to_string(), binding: Box::new(value) }
}

fn assign(lhs: Node, rhs: Node) -> Node {
    Node::Assign { lhs: Box::new(lhs), rhs: Box::new(rhs) }
}

fn function(name: &str, body: Node) -> Node {
    Node::Function {
        name: name.to_string(),
        arguments: vec![],
        return_type: Type::Integer,
        body: Box::new(body),
        typ: Type::Function(vec![], Box::new(Type::Integer)),
    }
}

fn conditional(c: Node, t: Node, e: Node) -> Node {
    Node::Conditional {
        condition: Box::new(c),
        then_branch: Box::new(t),
        else_branch: Box::new(e),
        typ: Type::Unknown,
    }
}

fn show(n: &Node) -> String {
    format!("{:?}", n)
}

fn nodes_of(n: &Node) -> &Vec<Node> {
    match n {
        Node::Sequence { nodes, .. } => nodes,
        _ => panic!("not a sequence: {:?}", n),
    }
}

fn name_of(n: &Node) -> &str {
    match n {
        Node::Variable { name, .. } | Node::Binding { name, .. } | Node::Function { name, .. } => name,
        _ => panic!("no name: {:?}", n),
    }
}

fn body_of(n: &Node) -> &Node {
    match n {
        Node::Function { body, .. } => body,
        _ => panic!("not a function: {:?}", n),
    }
}

fn is_return_of(n: &Node, expected: &Node) -> bool {
    match n {
        Node::Call { operator, operands, .. } => {
            name_of(operator) == "return" && operands.len() == 1 && show(&operands[0]) == show(expected)
        }
        _ => false,
    }
}

// Removing single sequences

#[test]
fn single_sequences_below_the_root_are_unwrapped() {
    // { {1}  {2 3}  x = {4} }
    let mut root = scope(vec![
        scope(vec![integer(1)]),
        scope(vec![integer(2), integer(3)]),
        assign(var("x"), scope(vec![integer(4)])),
    ]);
    remove_single_sequences::apply(&mut root);
    let expected = scope(vec![
        integer(1),
        scope(vec![integer(2), integer(3)]),
        assign(var("x"), integer(4)),
    ]);
    assert_eq!(show(&root), show(&expected));
}

#[test]
fn the_root_sequence_is_kept_even_when_single() {
    let mut root = scope(vec![integer(7)]);
    remove_single_sequences::apply(&mut root);
    assert_eq!(show(&root), show(&scope(vec![integer(7)])));
}

#[test]
fn nested_single_sequences_are_unwrapped_once_per_visit() {
    // { {{5}} } : the outer single is unwrapped to {5}; its children are then visited, and
    // 5 is no sequence, so {5} stays.
    let mut root = scope(vec![scope(vec![scope(vec![integer(5)])])]);
    remove_single_sequences::apply(&mut root);
    assert_eq!(show(&root), show(&scope(vec![scope(vec![integer(5)])])));
}

#[test]
fn a_tree_without_single_sequences_is_unchanged() {
    let original = scope(vec![bind("a", integer(1)), call(var("f"), vec![var("a"), integer(2)])]);
    let mut root = scope(vec![bind("a", integer(1)), call(var("f"), vec![var("a"), integer(2)])]);
    remove_single_sequences::apply(&mut root);
    assert_eq!(show(&root), show(&original));
}

// Inserting returns

#[test]
fn the_value_of_the_program_is_returned() {
    let mut root = scope(vec![bind("a", integer(1)), var("a")]);
    insert_returns::apply(&mut root);
    let nodes = nodes_of(&root);
    assert_eq!(show(&nodes[0]), show(&bind("a", integer(1))));
    assert!(is_return_of(&nodes[1], &var("a")));
}

#[test]
fn a_returnable_root_is_wrapped() {
    let mut root = integer(3);
    insert_returns::apply(&mut root);
    assert!(is_return_of(&root, &integer(3)));
}

#[test]
fn both_branches_of_a_final_conditional_return() {
    let mut root = conditional(var("c"), integer(1), integer(2));
    insert_returns::apply(&mut root);
    match &root {
        Node::Conditional { condition, then_branch, else_branch, .. } => {
            assert_eq!(show(condition), show(&var("c")));
            assert!(is_return_of(then_branch, &integer(1)));
            assert!(is_return_of(else_branch, &integer(2)));
        }
        _ => panic!("not a conditional: {:?}", root),
    }
}

#[test]
fn function_bodies_return_and_definitions_are_skipped() {
    // { (f)  fn f() { x = 1  2 } } : the result node of the root is the call, since the
    // function after it is a definition.
    let f = function("f", scope(vec![assign(var("x"), integer(1)), integer(2)]));
    let mut root = scope(vec![call(var("f"), vec![]), f]);
    insert_returns::apply(&mut root);
    let nodes = nodes_of(&root);
    assert!(is_return_of(&nodes[0], &call(var("f"), vec![])));
    let body = nodes_of(body_of(&nodes[1]));
    assert_eq!(show(&body[0]), show(&assign(var("x"), integer(1))));
    assert!(is_return_of(&body[1], &integer(2)));
}

#[test]
fn bindings_and_assignments_are_not_returned() {
    let mut root = scope(vec![assign(var("x"), integer(1))]);
    insert_returns::apply(&mut root);
    assert_eq!(show(&root), show(&scope(vec![assign(var("x"), integer(1))])));
}

// Making definition names unique

#[test]
fn scoped_names_follow_the_scopes() {
    let mut environment = Environment::new();
    assert_eq!(environment.get_scoped_name(&"f".to_string()), "f");
    assert!(matches!(environment.get_current_context(), Context::Generic));
    environment.push_scope("main".to_string(), Context::FunctionBody);
    assert!(matches!(environment.get_current_context(), Context::FunctionBody));
    environment.push_anonymous_scope();
    assert!(matches!(environment.get_current_context(), Context::Generic));
    assert_eq!(environment.get_scoped_name(&"f".to_string()), "_main/_scope_1/f");
    environment.pop_scope();
    assert_eq!(environment.get_scoped_name(&"f".to_string()), "_main/f");
    environment.pop_scope();
    environment.pop_scope();
    assert_eq!(environment.get_scoped_name(&"f".to_string()), "f");
}

#[test]
fn overrides_are_added_replaced_and_removed() {
    let mut environment = Environment::new();
    let f = "f".to_string();
    assert!(environment.get_override(&f).is_none());
    environment.add_override(&f);
    assert_eq!(environment.get_override(&f).unwrap(), "f");
    environment.push_scope("g".to_string(), Context::FunctionBody);
    environment.add_override(&f);
    assert_eq!(environment.get_override(&f).unwrap(), "_g/f");
    environment.remove_override(&f);
    assert!(environment.get_override(&f).is_none());
    environment.remove_override(&f);
    assert!(environment.get_override(&f).is_none());
}

#[test]
fn an_override_keeps_the_scoped_name_of_its_latest_addition() {
    let mut environment = Environment::new();
    let f = "f".to_string();
    let g = "g".to_string();
    environment.push_scope("a".to_string(), Context::FunctionBody);
    environment.add_override(&f);
    environment.push_scope("b".to_string(), Context::Generic);
    environment.add_override(&f);
    environment.add_override(&g);
    environment.pop_scope();
    environment.pop_scope();
    // Leaving scopes does not change the renaming
    assert_eq!(environment.get_override(&f).unwrap(), "_a/b/f");
    // Removing another name leaves it too
    environment.remove_override(&g);
    assert_eq!(environment.get_override(&f).unwrap(), "_a/b/f");
    assert!(environment.get_override(&g).is_none());
}

#[test]
fn nested_functions_and_their_references_are_renamed() {
    // { fn f() { fn g() {1}  (g) }  (f) }
    let g = function("g", scope(vec![integer(1)]));
    let f = function("f", scope(vec![g, call(var("g"), vec![])]));
    let mut root = scope(vec![f, call(var("f"), vec![])]);
    make_definition_names_unique::apply(&mut root);
    let top = nodes_of(&root);
    assert_eq!(name_of(&top[0]), "f");
    let f_body = nodes_of(body_of(&top[0]));
    assert_eq!(name_of(&f_body[0]), "_f/g");
    match &f_body[1] {
        Node::Call { operator, .. } => assert_eq!(name_of(operator), "_f/g"),
        _ => panic!(),
    }
    match &top[1] {
        Node::Call { operator, .. } => assert_eq!(name_of(operator), "f"),
        _ => panic!(),
    }
}

#[test]
fn anonymous_scopes_are_opened_for_definitions_outside_function_bodies() {
    // { { fn h() {1}  (h) }  { fn h() {2}  (h) }  let h = 3  h }
    let first = scope(vec![function("h", scope(vec![integer(1)])), call(var("h"), vec![])]);
    let second = scope(vec![function("h", scope(vec![integer(2)])), call(var("h"), vec![])]);
    let mut root = scope(vec![first, second, bind("h", integer(3)), var("h")]);
    make_definition_names_unique::apply(&mut root);
    let top = nodes_of(&root);
    let first = nodes_of(&top[0]);
    assert_eq!(name_of(&first[0]), "__scope_1/h");
    match &first[1] {
        Node::Call { operator, .. } => assert_eq!(name_of(operator), "__scope_1/h"),
        _ => panic!(),
    }
    let second = nodes_of(&top[1]);
    assert_eq!(name_of(&second[0]), "__scope_2/h");
    match &second[1] {
        Node::Call { operator, .. } => assert_eq!(name_of(operator), "__scope_2/h"),
        _ => panic!(),
    }
    // Outside the sequences that defined it, h is the variable again
    assert_eq!(name_of(&top[2]), "h");
    assert_eq!(name_of(&top[3]), "h");
}

#[test]
fn a_binding_ends_the_renaming_of_its_name() {
    // { fn k() {1}  let k = 2  k } below a function body, so no anonymous scope is opened
    let inner = scope(vec![function("k", scope(vec![integer(1)])), bind("k", integer(2)), var("k")]);
    let mut root = scope(vec![function("main", inner)]);
    make_definition_names_unique::apply(&mut root);
    let main_body = nodes_of(body_of(&nodes_of(&root)[0]));
    assert_eq!(name_of(&main_body[0]), "_main/k");
    assert_eq!(name_of(&main_body[1]), "k");
    assert_eq!(name_of(&main_body[2]), "k");
}

// Extracting sequences

fn transparent(nodes: Vec<Node>, typ: Type) -> Node {
    Node::Sequence { mode: SequenceMode::Transparent, nodes, typ }
}

fn declare(name: &str) -> Node {
    Node::Binding { name: name.to_string(), binding: Box::new(Node::Nothing { typ: Type::Unknown }) }
}

#[test]
fn a_sequence_operand_is_moved_before_the_call() {
    // { (+ {1 2} 3) }
    let add = Node::PrimitiveOperator { operator: Operator::Add, typ: Type::Unknown };
    let mut root = scope(vec![call(add, vec![scope(vec![integer(1), integer(2)]), integer(3)])]);
    extract_sequences::apply(&mut root);
    let add = Node::PrimitiveOperator { operator: Operator::Add, typ: Type::Unknown };
    let expected = scope(vec![transparent(
        vec![
            declare("_xseq_1"),
            scope(vec![integer(1), assign(var("_xseq_1"), integer(2))]),
            call(add, vec![var("_xseq_1"), integer(3)]),
        ],
        Type::Unknown,
    )]);
    assert_eq!(show(&root), show(&expected));
}

#[test]
fn a_sequence_bound_to_a_name_is_moved_before_the_binding() {
    // { let x = {5} }
    let mut root = scope(vec![bind("x", scope(vec![integer(5)]))]);
    extract_sequences::apply(&mut root);
    let expected = scope(vec![transparent(
        vec![declare("_xseq_1"), scope(vec![assign(var("_xseq_1"), integer(5))]), bind("x", var("_xseq_1"))],
        Type::Void,
    )]);
    assert_eq!(show(&root), show(&expected));
}

#[test]
fn the_operator_is_extracted_after_the_operands_and_placed_first() {
    // { ({f} {a}) }
    let mut root = scope(vec![call(scope(vec![var("f")]), vec![scope(vec![var("a")])])]);
    extract_sequences::apply(&mut root);
    let expected = scope(vec![transparent(
        vec![
            declare("_xseq_2"),
            scope(vec![assign(var("_xseq_2"), var("f"))]),
            declare("_xseq_1"),
            scope(vec![assign(var("_xseq_1"), var("a"))]),
            call(var("_xseq_2"), vec![var("_xseq_1")]),
        ],
        Type::Unknown,
    )]);
    assert_eq!(show(&root), show(&expected));
}

#[test]
fn a_tree_without_sequences_below_the_root_is_unchanged() {
    let original = scope(vec![bind("a", integer(1)), call(var("f"), vec![var("a")])]);
    let mut root = scope(vec![bind("a", integer(1)), call(var("f"), vec![var("a")])]);
    extract_sequences::apply(&mut root);
    assert_eq!(show(&root), show(&original));
}

#[test]
fn blocks_used_as_statements_stay_in_place() {
    // { {1}  (f x)  fn g() {2} }: the inner blocks are statements and a function body
    let make = || scope(vec![scope(vec![integer(1)]), call(var("f"), vec![var("x")]), function("g", scope(vec![integer(2)]))]);
    let original = make();
    let mut root = make();
    extract_sequences::apply(&mut root);
    assert_eq!(show(&root), show(&original));
}

#[test]
fn a_void_sequence_keeps_its_final_sequence() {
    // { {x = 1  {y = 2}} } where the inner sequences are void
    let inner = Node::Sequence {
        mode: SequenceMode::Scope,
        nodes: vec![assign(var("y"), integer(2))],
        typ: Type::Void,
    };
    let outer = Node::Sequence {
        mode: SequenceMode::Scope,
        nodes: vec![assign(var("x"), integer(1)), inner],
        typ: Type::Void,
    };
    let expected = format!("{:?}", outer);
    let mut root = scope(vec![outer]);
    extract_sequences::apply(&mut root);
    assert_eq!(show(&nodes_of(&root)[0]), expected);
}

// Extracting conditionals

fn typed(name: &str, typ: Type) -> Node {
    Node::Variable { name: name.to_string(), typ }
}

fn mutable_reference_type() -> Type {
    Type::Reference(ReferenceMode::Mutable, Box::new(Type::Unknown))
}

#[test]
fn a_conditional_operand_is_assigned_to_a_temporary() {
    // { (f (if c then 1 else 2)) }
    let mut root = scope(vec![call(var("f"), vec![conditional(var("c"), integer(1), integer(2))])]);
    extract_conditionals::apply(&mut root);
    let expected = scope(vec![scope(vec![
        declare("_xcond_1"),
        conditional(var("c"), assign(var("_xcond_1"), integer(1)), assign(var("_xcond_1"), integer(2))),
        call(var("f"), vec![var("_xcond_1")]),
    ])]);
    assert_eq!(show(&root), show(&expected));
}

#[test]
fn a_conditional_bound_to_a_name_is_assigned_first() {
    // { let x = (if c then 1 else 2) }
    let mut root = scope(vec![bind("x", conditional(var("c"), integer(1), integer(2)))]);
    extract_conditionals::apply(&mut root);
    let expected = scope(vec![transparent(
        vec![
            declare("_xcond_1"),
            conditional(var("c"), assign(var("_xcond_1"), integer(1)), assign(var("_xcond_1"), integer(2))),
            bind("x", var("_xcond_1")),
        ],
        Type::Void,
    )]);
    assert_eq!(show(&root), show(&expected));
}

#[test]
fn a_conditional_operator_calls_each_branch_on_bound_operands() {
    // { ((if c then f else g) a) }
    let mut root = scope(vec![call(conditional(var("c"), var("f"), var("g")), vec![var("a")])]);
    extract_conditionals::apply(&mut root);
    let expected = scope(vec![scope(vec![
        bind("_xcond_2", var("c")),
        bind("_xcond_1", var("a")),
        declare("_xcond_3"),
        conditional(
            var("_xcond_2"),
            assign(var("_xcond_3"), call(var("f"), vec![var("_xcond_1")])),
            assign(var("_xcond_3"), call(var("g"), vec![var("_xcond_1")])),
        ),
        var("_xcond_3"),
    ])]);
    assert_eq!(show(&root), show(&expected));
}

#[test]
fn a_conditional_assigned_value_goes_through_a_reference() {
    // { x = (if c then 1 else 2) }
    let mut root = scope(vec![assign(var("x"), conditional(var("c"), integer(1), integer(2)))]);
    extract_conditionals::apply(&mut root);
    let temp = || typed("_xcond_1", mutable_reference_type());
    let deref_temp = || Node::Dereference { target: Box::new(temp()), typ: Type::Unknown };
    let expected = scope(vec![scope(vec![
        bind(
            "_xcond_1",
            Node::Reference {
                mode: ReferenceMode::Mutable,
                target: Box::new(var("x")),
                typ: mutable_reference_type(),
            },
        ),
        conditional(var("c"), assign(deref_temp(), integer(1)), assign(deref_temp(), integer(2))),
    ])]);
    assert_eq!(show(&root), show(&expected));
}

#[test]
fn conditionals_used_as_statements_stay_in_place() {
    // { (if c then 1 else 2)  fn g() { (if d then 3 else 4) } }
    let make = || {
        scope(vec![
            conditional(var("c"), integer(1), integer(2)),
            function("g", Node::Sequence {
                mode: SequenceMode::Scope,
                nodes: vec![conditional(var("d"), integer(3), integer(4))],
                typ: Type::Void,
            }),
        ])
    };
    let original = make();
    let mut root = make();
    extract_conditionals::apply(&mut root);
    assert_eq!(show(&root), show(&original));
}

#[test]
fn a_tree_without_conditionals_below_the_root_is_unchanged() {
    let add = Node::PrimitiveOperator { operator: Operator::Add, typ: Type::Unknown };
    let original = format!("{:?}", scope(vec![bind("a", integer(1)), call(add, vec![var("a"), integer(2)])]));
    let add = Node::PrimitiveOperator { operator: Operator::Add, typ: Type::Unknown };
    let mut root = scope(vec![bind("a", integer(1)), call(add, vec![var("a"), integer(2)])]);
    extract_conditionals::apply(&mut root);
    assert_eq!(show(&root), original);
}

// Simplifying bindings

#[test]
fn a_bound_sequence_goes_through_a_temporary() {
    // { let x = {1 2} }
    let mut root = scope(vec![bind("x", scope(vec![integer(1), integer(2)]))]);
    simplify_bindings::apply(&mut root);
    let expected = scope(vec![transparent(
        vec![
            declare("_bindseq_1"),
            scope(vec![integer(1), assign(var("_bindseq_1"), integer(2))]),
            bind("x", var("_bindseq_1")),
        ],
        Type::Void,
    )]);
    assert_eq!(show(&root), show(&expected));
}

#[test]
fn an_assigned_sequence_goes_through_a_temporary() {
    // { x = {5} }
    let mut root = scope(vec![assign(var("x"), scope(vec![integer(5)]))]);
    simplify_bindings::apply(&mut root);
    let expected = scope(vec![transparent(
        vec![
            declare("_bindseq_1"),
            scope(vec![assign(var("_bindseq_1"), integer(5))]),
            assign(var("x"), var("_bindseq_1")),
        ],
        Type::Void,
    )]);
    assert_eq!(show(&root), show(&expected));
}

#[test]
fn an_empty_bound_sequence_is_kept_empty() {
    let mut root = bind("x", scope(vec![]));
    simplify_bindings::apply(&mut root);
    let expected = transparent(vec![declare("_bindseq_1"), scope(vec![]), bind("x", var("_bindseq_1"))], Type::Void);
    assert_eq!(show(&root), show(&expected));
}

#[test]
fn bindings_without_sequences_are_unchanged() {
    let original = format!("{:?}", scope(vec![bind("a", integer(1)), assign(var("a"), integer(2))]));
    let mut root = scope(vec![bind("a", integer(1)), assign(var("a"), integer(2))]);
    simplify_bindings::apply(&mut root);
    assert_eq!(show(&root), original);
}

// Writing C directly

const HEADER: &str = "#include \"specs_runtime.h\"\nint _USER_MAIN() \n{\n";

fn program(body: &str) -> String {
    format!("{}{}\n}}", HEADER, body)
}

#[test]
fn a_program_is_written_into_the_main_function() {
    let add = Node::PrimitiveOperator { operator: Operator::Add, typ: Type::Unknown };
    let root = scope(vec![bind("x", integer(1)), call(add, vec![var("x"), integer(2)])]);
    assert_eq!(write_c::apply(&root), program("{ int x = 1;(x + 2); }"));
}

#[test]
fn declarations_are_typed_with_a_star_per_reference() {
    let typ = Type::Reference(ReferenceMode::Mutable, Box::new(Type::Integer));
    let root = Node::Binding { name: "p".to_string(), binding: Box::new(Node::Nothing { typ }) };
    assert_eq!(write_c::apply(&root), program("int* p"));
    let root = bind("b", Node::Boolean { value: true });
    assert_eq!(write_c::apply(&root), program("bool b = true"));
    let root = bind("u", var("v"));
    assert_eq!(write_c::apply(&root), program("??? u = v"));
}

#[test]
fn transparent_sequences_have_no_braces() {
    let root = transparent(vec![assign(var("x"), integer(-5)), var("x")], Type::Unknown);
    assert_eq!(write_c::apply(&root), program("x = -5;x;"));
}

#[test]
fn conditionals_are_written_with_and_without_else() {
    let with_else = conditional(var("c"), integer(1), integer(2));
    assert_eq!(write_c::apply(&with_else), program("if (c) {1} else {2}"));
    let without_else = conditional(var("c"), integer(1), Node::Nothing { typ: Type::Unknown });
    assert_eq!(write_c::apply(&without_else), program("if (c) {1}"));
}

#[test]
fn names_references_and_invalid_nodes() {
    let reference = Node::Reference { mode: ReferenceMode::Mutable, target: Box::new(var("a/b-c")), typ: Type::Unknown };
    assert_eq!(write_c::apply(&reference), program("(& a__b_c)"));
    let dereference = Node::Dereference { target: Box::new(var("p")), typ: Type::Unknown };
    assert_eq!(write_c::apply(&dereference), program("(* p)"));
    let operator = Node::PrimitiveOperator { operator: Operator::LessEqual, typ: Type::Unknown };
    assert_eq!(write_c::apply(&operator), program("/* unhandled primitive operator LessEqual */"));
    assert_eq!(write_c::apply(&call(var("f"), vec![])), program("/* invalid operator node: call */"));
    assert_eq!(write_c::apply(&Node::Nothing { typ: Type::Unknown }), program("/* invalid nothing node */"));
}

// The environment of symbol types

#[test]
fn bindings_come_before_definitions() {
    let mut environment = TypeEnvironment::new();
    let f = "f".to_string();
    assert!(environment.get_type_of(&f).is_none());
    environment.add_definition(f.clone(), Type::Function(vec![], Box::new(Type::Integer)));
    assert_eq!(format!("{:?}", environment.get_type_of(&f)), format!("{:?}", Some(&Type::Function(vec![], Box::new(Type::Integer)))));
    environment.add_binding(f.clone(), Type::Boolean);
    assert!(matches!(environment.get_type_of(&f), Some(Type::Boolean)));
    environment.add_binding(f.clone(), Type::Integer);
    assert!(matches!(environment.get_type_of(&f), Some(Type::Integer)));
    assert!(environment.get_type_of(&"g".to_string()).is_none());
}

#[test]
fn forks_keep_what_they_should() {
    let mut environment = TypeEnvironment::new();
    environment.add_binding("x".to_string(), Type::Integer);
    environment.add_definition("f".to_string(), Type::Void);
    let fork = environment.fork();
    assert!(matches!(fork.get_type_of(&"x".to_string()), Some(Type::Integer)));
    assert!(matches!(fork.get_type_of(&"f".to_string()), Some(Type::Void)));
    let body = environment.fork_definitions_only();
    assert!(body.get_type_of(&"x".to_string()).is_none());
    assert!(matches!(body.get_type_of(&"f".to_string()), Some(Type::Void)));
    // A fork is independent of the environment it came from
    let mut inner = environment.fork();
    inner.add_binding("y".to_string(), Type::Boolean);
    assert!(environment.get_type_of(&"y".to_string()).is_none());
}

// Building definition types

#[test]
fn functions_get_the_type_of_their_arguments_and_return_type() {
    let inner = Node::Function {
        name: "g".to_string(),
        arguments: vec![lib::ast::Argument { name: "b".to_string(), typ: Type::Boolean }],
        return_type: Type::Void,
        body: Box::new(scope(vec![])),
        typ: Type::Unknown,
    };
    let outer = Node::Function {
        name: "f".to_string(),
        arguments: vec![
            lib::ast::Argument { name: "a".to_string(), typ: Type::Integer },
            lib::ast::Argument { name: "b".to_string(), typ: Type::Boolean },
        ],
        return_type: Type::Integer,
        body: Box::new(scope(vec![inner, integer(1)])),
        typ: Type::Unknown,
    };
    let mut root = scope(vec![outer]);
    let pass = build_definition_types::Pass::new();
    assert_eq!(pass.get_name(), "BuildDefinitionTypes");
    pass.apply(&mut root);
    let f = &nodes_of(&root)[0];
    match f {
        Node::Function { typ, body, .. } => {
            assert_eq!(
                format!("{:?}", typ),
                format!("{:?}", Type::Function(vec![Type::Integer, Type::Boolean], Box::new(Type::Integer)))
            );
            match &nodes_of(body)[0] {
                Node::Function { typ, .. } => assert_eq!(
                    format!("{:?}", typ),
                    format!("{:?}", Type::Function(vec![Type::Boolean], Box::new(Type::Void)))
                ),
                other => panic!("not a function: {:?}", other),
            }
        }
        other => panic!("not a function: {:?}", other),
    }
}

// Pass messages and the validation passes

#[test]
fn messages_are_written_on_three_indented_lines() {
    let m = PassMessage::new("P".to_string(), "N".to_string(), "text".to_string(), "node".to_string(), 2);
    assert_eq!(m.text(), "\t\t[P::N]\n\t\t- 'text'\n\t\t\t@ node");
}

#[test]
fn the_context_collects_errors_and_warnings() {
    let mut context = PassMessageContext::new("Check".to_string());
    context.add_warning("W".to_string(), "first".to_string(), "a".to_string());
    context.set_indent(1);
    context.add_error("E".to_string(), "second".to_string(), "b".to_string());
    assert!(context.has_errors);
    assert!(context.has_warnings);
    let (messages, has_warnings, has_errors) = context.destructure();
    assert!(has_warnings && has_errors);
    assert_eq!(messages.len(), 2);
    assert_eq!(messages[0].text(), "[warning: Check::W]\n- 'first'\n\t@ a");
    assert_eq!(messages[1].text(), "\t[ERROR: Check::E]\n\t- 'second'\n\t\t@ b");
}

#[test]
fn a_binding_used_as_an_operand_is_reported() {
    let root = scope(vec![call(var("f"), vec![bind("x", integer(1))])]);
    let pass = specs_source::Pass::new();
    assert_eq!(pass.get_name(), "ValidateSpecsSource");
    match pass.apply(&root) {
        PassResult::Failure(messages) => {
            assert_eq!(messages.len(), 1);
            assert_eq!(
                messages[0].text(),
                "\t[ERROR: ValidateSpecsSource::InvalidOperand]\n\t- 'Can't use binding as call operand 0'\n\t\t@ call"
            );
        }
        PassResult::Success(_) => panic!("the misuse was not reported"),
    }
}

#[test]
fn a_valid_source_tree_passes() {
    let root = scope(vec![bind("x", integer(1)), call(var("f"), vec![var("x")])]);
    match specs_source::Pass::new().apply(&root) {
        PassResult::Success(messages) => assert_eq!(messages.len(), 0),
        PassResult::Failure(_) => panic!("a valid tree was reported"),
    }
}

#[test]
fn a_sequence_left_as_a_value_is_reported() {
    let root = assign(var("x"), scope(vec![integer(1)]));
    let pass = specs_flat::Pass::new();
    assert_eq!(pass.get_name(), "ValidateSpecsFlat");
    match pass.apply(&root) {
        PassResult::Failure(messages) => {
            assert_eq!(messages.len(), 1);
            assert_eq!(
                messages[0].text(),
                "[ERROR: ValidateSpecsFlat::InvalidOperand]\n- 'sequence as assign RHS should have been flattened'\n\t@ assign"
            );
        }
        PassResult::Success(_) => panic!("the sequence was not reported"),
    }
}

#[test]
fn a_flat_tree_passes() {
    let root = scope(vec![bind("x", integer(1)), assign(var("x"), call(var("f"), vec![var("x")]))]);
    match specs_flat::Pass::new().apply(&root) {
        PassResult::Success(messages) => assert_eq!(messages.len(), 0),
        PassResult::Failure(_) => panic!("a flat tree was reported"),
    }
}

// The C conversion pass with messages

fn prim(operator: Operator) -> Node {
    Node::PrimitiveOperator { operator, typ: Type::Unknown }
}

fn c_text_of(n: &Node) -> &str {
    match n {
        Node::CNode(c) => &c.text,
        _ => panic!("not C text: {:?}", n),
    }
}

#[test]
fn the_whole_tree_becomes_c_text() {
    // { let x = 1 + 2  (return x) }
    let sum = Node::Call {
        operator: Box::new(prim(Operator::Add)),
        operands: vec![integer(1), integer(2)],
        typ: Type::Integer,
    };
    let mut root = scope(vec![bind("x", sum), call(prim(Operator::Return), vec![var("x")])]);
    let pass = specs_c_convert::Pass::new();
    assert_eq!(pass.get_name(), "ConvertC");
    match pass.apply(&mut root) {
        PassResult::Success(messages) => assert_eq!(messages.len(), 0),
        PassResult::Failure(_) => panic!("the conversion reported a problem"),
    }
    // return is written as a function call by this pass
    assert_eq!(c_text_of(&root), "{ int x = 1 + 2; return(x); }");
}

#[test]
fn a_dereference_is_written_with_an_ampersand() {
    let mut root = Node::Dereference { target: Box::new(var("p")), typ: Type::Integer };
    match specs_c_convert::Pass::new().apply(&mut root) {
        PassResult::Success(messages) => assert_eq!(messages.len(), 0),
        PassResult::Failure(_) => panic!("the conversion reported a problem"),
    }
    assert_eq!(c_text_of(&root), "&p");
}

#[test]
fn an_infix_operator_needs_exactly_two_operands() {
    // With three operands, + is written before its first operand only
    let mut three = call(prim(Operator::Add), vec![integer(1), integer(2), integer(3)]);
    let _ = specs_c_convert::Pass::new().apply(&mut three);
    assert_eq!(c_text_of(&three), "+ 1");
    let mut two = call(prim(Operator::Less), vec![call(prim(Operator::Add), vec![integer(1), integer(2)]), integer(3)]);
    let _ = specs_c_convert::Pass::new().apply(&mut two);
    assert_eq!(c_text_of(&two), "(1 + 2) < 3");
}

#[test]
fn functions_and_conditionals_are_written_as_blocks() {
    let body = scope(vec![conditional(var("c"), integer(1), Node::Nothing { typ: Type::Void })]);
    let mut root = scope(vec![function("f", body), Node::Comment { content: "end".to_string() }]);
    let _ = specs_c_convert::Pass::new().apply(&mut root);
    assert_eq!(c_text_of(&root), "{ int f(){ if (c) { 1; } } /* end */ }");
}

#[test]
fn c_text_already_there_is_kept() {
    let mut root = scope(vec![Node::CNode(lib::ast::CNode {
        node_type: lib::ast::CNodeType::Atomic,
        text: "y".to_string(),
        typ: Type::Integer,
    })]);
    let _ = specs_c_convert::Pass::new().apply(&mut root);
    assert_eq!(c_text_of(&root), "{ y; }");
}

#[test]
fn the_message_context_records_problems_at_the_current_depth() {
    let mut messages = PassMessageContext::new("ConvertC".to_string());
    messages.set_indent(1);
    let mut node = Node::Comment { content: "c".to_string() };
    specs_c_convert::Pass::new().transform(&mut node, &mut messages);
    assert_eq!(c_text_of(&node), "/* c */");
    let (all, has_warnings, has_errors) = messages.destructure();
    assert!(all.is_empty() && !has_warnings && !has_errors);
}

// Inferring types

fn type_of_node(n: &Node) -> &Type {
    match n {
        Node::Variable { typ, .. }
        | Node::Call { typ, .. }
        | Node::PrimitiveOperator { typ, .. }
        | Node::Reference { typ, .. }
        | Node::Dereference { typ, .. }
        | Node::Sequence { typ, .. } => typ,
        _ => panic!("no type field: {:?}", n),
    }
}

#[test]
fn a_comparison_of_a_bound_variable_is_boolean() {
    // { let x = 1  (== x 2) }
    let mut root = scope(vec![bind("x", integer(1)), call(prim(Operator::Equal), vec![var("x"), integer(2)])]);
    infer_types::apply(&mut root);
    let nodes = nodes_of(&root);
    match &nodes[1] {
        Node::Call { operator, operands, typ } => {
            assert!(matches!(typ, Type::Boolean));
            assert!(matches!(type_of_node(&operands[0]), Type::Integer));
            match type_of_node(operator) {
                Type::Function(arguments, ret) => {
                    assert_eq!(arguments.len(), 2);
                    assert!(matches!(arguments[0], Type::Integer) && matches!(arguments[1], Type::Integer));
                    assert!(matches!(**ret, Type::Boolean));
                }
                other => panic!("operator not typed: {:?}", other),
            }
        }
        other => panic!("not a call: {:?}", other),
    }
    // The sequence has the type of its result
    assert!(matches!(type_of_node(&root), Type::Boolean));
}

#[test]
fn a_call_of_a_function_defined_later_in_the_scope_has_its_return_type() {
    // { (f)  fn f() { 1 } }
    let mut root = scope(vec![call(var("f"), vec![]), function("f", scope(vec![integer(1)]))]);
    infer_types::apply(&mut root);
    let nodes = nodes_of(&root);
    assert!(matches!(type_of_node(&nodes[0]), Type::Integer));
    // The function's body is typed by its result
    assert!(matches!(type_of_node(body_of(&nodes[1])), Type::Integer));
    // The result of the scope is the call, not the definition
    assert!(matches!(type_of_node(&root), Type::Integer));
}

#[test]
fn references_and_dereferences_are_typed_from_their_targets() {
    // { let x = 1  (ref x)  (deref (ref x))  (+ 1 2) }
    let reference = |n: Node| Node::Reference { mode: ReferenceMode::Immutable, target: Box::new(n), typ: Type::Unknown };
    let dereference = Node::Dereference { target: Box::new(reference(var("x"))), typ: Type::Unknown };
    let mut root = scope(vec![
        bind("x", integer(1)),
        reference(var("x")),
        dereference,
        call(prim(Operator::Add), vec![integer(1), integer(2)]),
        var("y"),
    ]);
    infer_types::apply(&mut root);
    let nodes = nodes_of(&root);
    match type_of_node(&nodes[1]) {
        Type::Reference(ReferenceMode::Immutable, inner) => assert!(matches!(**inner, Type::Integer)),
        other => panic!("not a reference type: {:?}", other),
    }
    assert!(matches!(type_of_node(&nodes[2]), Type::Integer));
    assert!(matches!(type_of_node(&nodes[3]), Type::Integer));
    // An unknown name keeps its type
    assert!(matches!(type_of_node(&nodes[4]), Type::Unknown));
}

#[test]
fn bindings_do_not_reach_into_function_bodies() {
    // { let x = 1  fn g() { x } }
    let mut root = scope(vec![bind("x", integer(1)), function("g", scope(vec![var("x")]))]);
    infer_types::apply(&mut root);
    let nodes = nodes_of(&root);
    let body = nodes_of(body_of(&nodes[1]));
    assert!(matches!(type_of_node(&body[0]), Type::Unknown));
    // The result of the scope is its last node that is not a definition: the binding,
    // whose type is void
    assert!(matches!(type_of_node(&root), Type::Void));
}

#[test]
fn no_single_sequence_is_left_below_the_root() {
    // { (f {x})  {{y} z} } : no single sequence holds another one
    let mut root = scope(vec![call(var("f"), vec![scope(vec![var("x")])]), scope(vec![scope(vec![var("y")]), var("z")])]);
    remove_single_sequences::apply(&mut root);
    let nodes = nodes_of(&root);
    match &nodes[0] {
        Node::Call { operands, .. } => assert_eq!(name_of(&operands[0]), "x"),
        other => panic!("not a call: {:?}", other),
    }
    let second = nodes_of(&nodes[1]);
    assert_eq!(second.len(), 2);
    assert_eq!(name_of(&second[0]), "y");
}

#[test]
fn a_binding_takes_the_type_of_its_value() {
    // { let b = (< 1 2)  b }
    let mut root = scope(vec![bind("b", call(prim(Operator::Less), vec![integer(1), integer(2)])), var("b")]);
    infer_types::apply(&mut root);
    let nodes = nodes_of(&root);
    assert!(matches!(type_of_node(&nodes[1]), Type::Boolean));
    assert!(matches!(type_of_node(&root), Type::Boolean));
}

use lib::ast::{Argument, CNode, CNodeType, Node, Operator, ReferenceMode, SequenceMode, Type};
use lib::c_convert::Convert;
use lib::check::Check;
use lib::convert_names::ConvertNames;
use lib::errors::{Error, ResultLog};
use lib::explicate::{ExplicateMain, ExplicateReturns};
use lib::flatten_bindings::FlattenBindings;
use lib::flatten_definitions::FlattenDefinitions;
use lib::flatten_names::{FlattenNames, ParentScope};
use lib::flatten_operands::FlattenOperands;
use lib::infer::{infer_primitive_operator_type, Infer};
use lib::wrap::{Wrap, WrapPass};

fn integer(v: i64) -> Node {
    Node::Integer { value: v }
}

fn boolean(v: bool) -> Node {
    Node::Boolean { value: v }
}

fn op(o: Operator) -> Node {
    Node::PrimitiveOperator { operator: o, typ: Type::Unknown }
}

fn call(operator: Node, operands: Vec<Node>) -> Node {
    Node::Call { operator: Box::new(operator), operands, typ: Type::Unknown }
}

fn var(name: &str) -> Node {
    Node::Variable { name: name.to_string(), typ: Type::Unknown }
}

fn typed_var(name: &str, t: Type) -> Node {
    Node::Variable { name: name.to_string(), typ: t }
}

fn seq_of(mode: SequenceMode, nodes: Vec<Node>) -> Node {
    Node::Sequence { mode, nodes, typ: Type::Unknown }
}

fn scope(nodes: Vec<Node>) -> Node {
    seq_of(SequenceMode::Scope, nodes)
}

fn bind(name: &str, value: Node) -> Node {
    Node::Binding { name: name.to_string(), binding: Box::new(value) }
}

fn function(name: &str, arguments: Vec<(&str, Type)>, body: Node) -> Node {
    let argument_types: Vec<Type> = arguments.iter().map(|(_, t)| copy_type(t)).collect();
    Node::Function {
        name: name.to_string(),
        arguments: arguments
            .into_iter()
            .map(|(n, t)| Argument { name: n.to_string(), typ: t })
            .collect(),
        return_type: Type::Integer,
        body: Box::new(body),
        typ: Type::Function(argument_types, Box::new(Type::Integer)),
    }
}

fn copy_type(t: &Type) -> Type {
    t.copy()
}

fn conditional(c: Node, t: Node, e: Node) -> Node {
    Node::Conditional {
        condition: Box::new(c),
        then_branch: Box::new(t),
        else_branch: Box::new(e),
        typ: Type::Unknown,
    }
}

fn show(n: &Node) -> String {
    format!("{:?}", n)
}

fn nodes_of(n: &Node) -> &Vec<Node> {
    match n {
        Node::Sequence { nodes, .. } => nodes,
        _ => panic!("not a sequence: {:?}", n),
    }
}

fn name_of(n: &Node) -> &str {
    match n {
        Node::Variable { name, .. } | Node::Binding { name, .. } | Node::Function { name, .. } => name,
        _ => panic!("no name: {:?}", n),
    }
}

#[test]
fn parent_scope_names() {
    assert_eq!(ParentScope::Outside.get_name(), "");
    assert_eq!(ParentScope::Root.get_name(), "");
    assert_eq!(ParentScope::Function("f".to_string()).get_name(), "f");
    assert_eq!(ParentScope::Root.get_child_name(&"g".to_string()), "g");
    assert_eq!(ParentScope::Function("f".to_string()).get_child_name(&"g".to_string()), "f/g");
    assert_eq!(ParentScope::Sequence("f/_scope_1".to_string()).get_child_name(&"g".to_string()), "f/_scope_1/g");
}

#[test]
fn flatten_names_renames_nested_definitions() {
    // { fn f() { fn g() {1}  (g) }  (f) }
    let g = function("g", vec![], scope(vec![integer(1)]));
    let f = function("f", vec![], scope(vec![g, call(var("g"), vec![])]));
    let mut root = scope(vec![f, call(var("f"), vec![])]);
    let r = FlattenNames::new().apply(&mut root);
    assert!(matches!(r, ResultLog::Success(())));
    let top = nodes_of(&root);
    assert_eq!(name_of(&top[0]), "f");
    let f_body = match &top[0] {
        Node::Function { body, .. } => nodes_of(body),
        _ => panic!(),
    };
    assert_eq!(name_of(&f_body[0]), "f/g");
    match &f_body[1] {
        Node::Call { operator, .. } => assert_eq!(name_of(operator), "f/g"),
        _ => panic!(),
    }
    match &top[1] {
        Node::Call { operator, .. } => assert_eq!(name_of(operator), "f"),
        _ => panic!(),
    }
}

#[test]
fn flatten_names_names_anonymous_scopes_and_respects_shadowing() {
    // { { fn h() {1}  (h) }  let h = 2  h }
    let inner = scope(vec![function("h", vec![], scope(vec![integer(1)])), call(var("h"), vec![])]);
    let mut root = scope(vec![inner, bind("h", integer(2)), var("h")]);
    FlattenNames::new().apply(&mut root);
    let top = nodes_of(&root);
    let inner = nodes_of(&top[0]);
    assert_eq!(name_of(&inner[0]), "_scope_1/h");
    match &inner[1] {
        Node::Call { operator, .. } => assert_eq!(name_of(operator), "_scope_1/h"),
        _ => panic!(),
    }
    // The outer `h` is a binding, not the inner function.
    assert_eq!(name_of(&top[2]), "h");
}

#[test]
fn flatten_names_arguments_shadow_definitions() {
    // { fn f(g) { fn g() {1}  g } }: inside f, `g` is the argument, not the nested function.
    let g = function("g", vec![], scope(vec![integer(1)]));
    let f = function("f", vec![("g", Type::Integer)], scope(vec![g, var("g")]));
    let mut root = scope(vec![f]);
    FlattenNames::new().apply(&mut root);
    let top = nodes_of(&root);
    let body = match &top[0] {
        Node::Function { body, .. } => nodes_of(body),
        _ => panic!(),
    };
    assert_eq!(name_of(&body[0]), "f/g");
    assert_eq!(name_of(&body[1]), "f/g");
}

#[test]
fn flatten_definitions_moves_functions_to_top() {
    let g = function("g", vec![], scope(vec![integer(1)]));
    let f = function("f", vec![], scope(vec![g, integer(2)]));
    let mut root = scope(vec![integer(0), f]);
    FlattenDefinitions::new().apply(&mut root);
    let top = nodes_of(&root);
    assert_eq!(top.len(), 4);
    assert_eq!(name_of(&top[0]), "g");
    assert_eq!(name_of(&top[1]), "f");
    assert!(matches!(&top[2], Node::Integer { value: 0 }));
    assert!(matches!(&top[3], Node::Comment { content } if content == "fn f"));
    let f_body = match &top[1] {
        Node::Function { body, .. } => nodes_of(body),
        _ => panic!(),
    };
    assert!(matches!(&f_body[0], Node::Comment { content } if content == "fn g"));
}

#[test]
fn flatten_operands_binds_complex_operands() {
    // (+ {1} 2)  =>  / let _xop_1 = {1}  (+ _xop_1 2) \
    let mut root = call(op(Operator::Add), vec![scope(vec![integer(1)]), integer(2)]);
    FlattenOperands::new().apply(&mut root);
    match &root {
        Node::Sequence { mode: SequenceMode::Transparent, nodes, .. } => {
            assert_eq!(nodes.len(), 2);
            assert_eq!(name_of(&nodes[0]), "_xop_1");
            match &nodes[1] {
                Node::Call { operands, .. } => {
                    assert_eq!(name_of(&operands[0]), "_xop_1");
                    assert!(matches!(&operands[1], Node::Integer { value: 2 }));
                },
                _ => panic!(),
            }
        },
        _ => panic!("{:?}", root),
    }
}

#[test]
fn flatten_operands_binds_complex_conditions_only() {
    let mut root = conditional(scope(vec![boolean(true)]), scope(vec![integer(1)]), integer(2));
    FlattenOperands::new().apply(&mut root);
    let nodes = nodes_of(&root);
    assert_eq!(nodes.len(), 2);
    match &nodes[1] {
        Node::Conditional { condition, then_branch, .. } => {
            assert_eq!(name_of(condition), "_xop_1");
            assert!(matches!(**then_branch, Node::Sequence { .. }));
        },
        _ => panic!(),
    }
}

#[test]
fn flatten_operands_leaves_simple_operands() {
    let mut root = call(op(Operator::Add), vec![integer(1), integer(2)]);
    let before = show(&root);
    FlattenOperands::new().apply(&mut root);
    assert_eq!(show(&root), before);
}

#[test]
fn flatten_bindings_assigns_to_a_temporary() {
    // let x = {1}  =>  / let _xbind_1 = [nothing]  { _xbind_1 = 1 }  let x = _xbind_1 \
    let value = Node::Sequence { mode: SequenceMode::Scope, nodes: vec![integer(1)], typ: Type::Integer };
    let mut root = bind("x", value);
    FlattenBindings::new().apply(&mut root);
    let nodes = nodes_of(&root);
    assert_eq!(nodes.len(), 3);
    match &nodes[0] {
        Node::Binding { name, binding } => {
            assert_eq!(name, "_xbind_1");
            assert!(matches!(**binding, Node::Nothing { typ: Type::Integer }));
        },
        _ => panic!(),
    }
    let assigned = nodes_of(&nodes[1]);
    match &assigned[0] {
        Node::Assign { lhs, rhs } => {
            assert_eq!(name_of(lhs), "_xbind_1");
            assert!(matches!(**rhs, Node::Integer { value: 1 }));
        },
        _ => panic!(),
    }
    match &nodes[2] {
        Node::Binding { name, binding } => {
            assert_eq!(name, "x");
            assert_eq!(name_of(binding), "_xbind_1");
        },
        _ => panic!(),
    }
}

#[test]
fn wrap_pass_wraps_results_of_branches() {
    // if c {1} else 2  =>  if c {return 1} else return 2
    let mut root = conditional(var("c"), scope(vec![integer(1)]), integer(2));
    WrapPass::new(Wrap::Return).apply(&mut root);
    match &root {
        Node::Conditional { condition, then_branch, else_branch, .. } => {
            assert_eq!(name_of(condition), "c");
            let then_nodes = nodes_of(then_branch);
            assert!(matches!(&then_nodes[0], Node::Call { operator, .. }
                if matches!(**operator, Node::PrimitiveOperator { operator: Operator::Return, .. })));
            assert!(matches!(**else_branch, Node::Call { .. }));
        },
        _ => panic!(),
    }
}

#[test]
fn explicate_main_moves_statements() {
    let f = function("f", vec![], scope(vec![integer(1)]));
    let mut root = scope(vec![integer(7), f, integer(8)]);
    ExplicateMain::new("main").apply(&mut root);
    match &root {
        Node::Sequence { mode: SequenceMode::Transparent, nodes, .. } => {
            assert_eq!(nodes.len(), 4);
            assert!(matches!(&nodes[0], Node::Nothing { .. }));
            assert_eq!(name_of(&nodes[1]), "f");
            assert!(matches!(&nodes[2], Node::Nothing { .. }));
            assert_eq!(name_of(&nodes[3]), "main");
            match &nodes[3] {
                Node::Function { body, arguments, return_type, .. } => {
                    assert!(arguments.is_empty());
                    assert!(matches!(return_type, Type::Integer));
                    let statements = nodes_of(body);
                    assert_eq!(statements.len(), 2);
                    assert!(matches!(&statements[0], Node::Integer { value: 7 }));
                    assert!(matches!(&statements[1], Node::Integer { value: 8 }));
                },
                _ => panic!(),
            }
        },
        _ => panic!(),
    }
}

#[test]
fn explicate_returns_wraps_function_results() {
    let mut root = scope(vec![function("f", vec![], scope(vec![integer(1), integer(2)]))]);
    ExplicateReturns::new().apply(&mut root);
    let body = match &nodes_of(&root)[0] {
        Node::Function { body, .. } => nodes_of(body).len(),
        _ => panic!(),
    };
    assert_eq!(body, 2);
    match &nodes_of(&root)[0] {
        Node::Function { body, .. } => {
            let nodes = nodes_of(body);
            assert!(matches!(&nodes[0], Node::Integer { value: 1 }));
            assert!(matches!(&nodes[1], Node::Call { operands, .. } if matches!(operands[0], Node::Integer { value: 2 })));
        },
        _ => panic!(),
    }
}

#[test]
fn convert_names_makes_names_c_safe() {
    let converter = ConvertNames::new();
    assert_eq!(converter.convert_name("f/_scope_1/g".to_string()), "f___scope_1__g");
    assert_eq!(converter.convert_name("my-name".to_string()), "my_name");
    assert_eq!(converter.convert_name("plain".to_string()), "plain");
    let mut root = scope(vec![bind("a-b", var("c/d"))]);
    ConvertNames::new().apply(&mut root);
    match &nodes_of(&root)[0] {
        Node::Binding { name, binding } => {
            assert_eq!(name, "a_b");
            assert_eq!(name_of(binding), "c__d");
        },
        _ => panic!(),
    }
}

#[test]
fn infer_fills_in_types() {
    let mut root = scope(vec![
        bind("x", integer(1)),
        call(op(Operator::Add), vec![var("x"), integer(2)]),
    ]);
    let r = Infer::new().apply(&mut root);
    assert!(matches!(r, ResultLog::Success(())));
    match &root {
        Node::Sequence { nodes, typ, .. } => {
            assert!(matches!(typ, Type::Integer));
            match &nodes[1] {
                Node::Call { operator, operands, typ } => {
                    assert!(matches!(typ, Type::Integer));
                    assert!(matches!(&operands[0], Node::Variable { typ: Type::Integer, .. }));
                    assert!(matches!(**operator, Node::PrimitiveOperator { typ: Type::Function(..), .. }));
                },
                _ => panic!(),
            }
        },
        _ => panic!(),
    }
}

#[test]
fn infer_reports_unbound_variables_and_bad_dereferences() {
    let mut root = scope(vec![var("nope"), Node::Dereference { target: Box::new(integer(1)), typ: Type::Unknown }]);
    match Infer::new().apply(&mut root) {
        ResultLog::Error(errors, warnings) => {
            assert!(warnings.is_empty());
            assert_eq!(errors.len(), 2);
            assert!(matches!(&errors[0], Error::UnboundSymbolType(n) if n == "nope"));
            assert!(matches!(&errors[1], Error::BadDereferenceType(Type::Integer)));
        },
        _ => panic!(),
    }
}

#[test]
fn infer_types_references_and_dereferences() {
    let mut root = scope(vec![
        bind("x", integer(1)),
        Node::Dereference {
            target: Box::new(Node::Reference { mode: ReferenceMode::Mutable, target: Box::new(var("x")), typ: Type::Unknown }),
            typ: Type::Unknown,
        },
    ]);
    assert!(matches!(Infer::new().apply(&mut root), ResultLog::Success(())));
    match &nodes_of(&root)[1] {
        Node::Dereference { target, typ } => {
            assert!(matches!(typ, Type::Integer));
            assert!(matches!(**target, Node::Reference { typ: Type::Reference(ReferenceMode::Mutable, _), .. }));
        },
        _ => panic!(),
    }
}

#[test]
fn primitive_operator_types() {
    let r = infer_primitive_operator_type(Operator::Less, &vec![integer(1), Node::Variable { name: "f".to_string(), typ: Type::Float }]);
    assert!(matches!(r, ResultLog::Success(Type::Function(ref args, ref ret))
        if args.len() == 2 && matches!(**ret, Type::Boolean)));
    let r = infer_primitive_operator_type(Operator::Subtract, &vec![integer(1)]);
    assert!(matches!(r, ResultLog::Success(Type::Function(_, ref ret)) if matches!(**ret, Type::Integer)));
    let r = infer_primitive_operator_type(Operator::Equal, &vec![boolean(true), boolean(false)]);
    assert!(matches!(r, ResultLog::Success(Type::Function(_, ref ret)) if matches!(**ret, Type::Boolean)));
    let r = infer_primitive_operator_type(Operator::Add, &vec![boolean(true), integer(1)]);
    assert!(matches!(r, ResultLog::Error(ref es, _)
        if matches!(&es[0], Error::UnexpectedOperands(m) if m == "Unexpected operands for primitive operator: +")));
    let r = infer_primitive_operator_type(Operator::Modulo, &vec![integer(1), integer(2)]);
    assert!(matches!(r, ResultLog::Error(ref es, _)
        if matches!(&es[0], Error::Internal(m) if m == "Unexpected primitive operator: %")));
}

#[test]
fn check_reports_bad_operands_and_operators() {
    let f_type = Type::Function(vec![Type::Integer], Box::new(Type::Integer));
    let mut root = scope(vec![
        call(typed_var("f", f_type), vec![boolean(true)]),
        call(integer(3), vec![]),
    ]);
    match Check::new().apply(&mut root) {
        ResultLog::Error(errors, _) => {
            assert_eq!(errors.len(), 2);
            assert!(matches!(&errors[0], Error::BadOperandTypes(ops, args)
                if matches!(ops[..], [Type::Boolean]) && matches!(args[..], [Type::Integer])));
            assert!(matches!(&errors[1], Error::BadOperatorType(Type::Integer)));
        },
        _ => panic!(),
    }
    let mut fine = call(typed_var("f", Type::Function(vec![Type::Integer], Box::new(Type::Integer))), vec![integer(1)]);
    assert!(matches!(Check::new().apply(&mut fine), ResultLog::Success(())));
}

#[test]
fn convert_writes_c_text() {
    let mut root = conditional(boolean(true), scope(vec![integer(1)]), Node::Nothing { typ: Type::Void });
    assert!(matches!(Convert::new().apply(&mut root), ResultLog::Success(())));
    match &root {
        Node::CNode(c) => {
            assert!(matches!(c.node_type, CNodeType::Conditional));
            assert_eq!(c.text, "if (true) { 1; }");
        },
        _ => panic!(),
    }
    let mut neg = call(op(Operator::Subtract), vec![integer(-4)]);
    Convert::new().apply(&mut neg);
    assert!(matches!(&neg, Node::CNode(c) if c.text == "- -4"));
    let mut comparison = call(op(Operator::Less), vec![call(op(Operator::Add), vec![integer(1), integer(2)]), integer(3)]);
    Convert::new().apply(&mut comparison);
    assert!(matches!(&comparison, Node::CNode(c) if c.text == "(1 + 2) < 3"));
    let mut function_call = call(var("f"), vec![integer(1), boolean(false)]);
    Convert::new().apply(&mut function_call);
    assert!(matches!(&function_call, Node::CNode(c) if c.text == "f(1, false)" && matches!(c.node_type, CNodeType::Call)));
}

#[test]
fn convert_reports_nodes_that_are_c_text_already() {
    let mut root = Node::CNode(CNode { node_type: CNodeType::Atomic, text: "x".to_string(), typ: Type::Integer });
    match Convert::new().apply(&mut root) {
        ResultLog::Error(errors, _) => {
            assert_eq!(errors.len(), 1);
            assert!(matches!(&errors[0], Error::Internal(m) if m == "Expected node"));
        },
        _ => panic!(),
    }
}

#[test]
fn cnode_text_helpers() {
    let bare = CNode { node_type: CNodeType::Bare, text: "a + b".to_string(), typ: Type::Integer };
    assert_eq!(bare.get_text_non_bare(), "(a + b)");
    assert_eq!(bare.get_text_wrapped(), "(a + b)");
    assert_eq!(bare.get_text_block(), "{ a + b; }");
    let wrapped = CNode { node_type: CNodeType::Wrapped, text: "(x)".to_string(), typ: Type::Integer };
    assert_eq!(wrapped.get_text_non_bare(), "(x)");
    assert_eq!(wrapped.get_text_wrapped(), "(x)");
    let block = CNode { node_type: CNodeType::Block, text: "{ x; }".to_string(), typ: Type::Void };
    assert_eq!(block.get_text_block(), "{ x; }");
}

#[test]
fn c_type_texts() {
    assert_eq!(Type::Integer.get_c_text(), "int");
    assert_eq!(Type::Boolean.get_c_text(), "bool");
    assert_eq!(Type::Void.get_c_text(), "void");
    assert_eq!(Type::Float.get_c_text(), "float");
    assert_eq!(Type::Struct("point".to_string()).get_c_text(), "point");
    assert_eq!(Type::Reference(ReferenceMode::Immutable, Box::new(Type::Integer)).get_c_text(), "int*");
    assert_eq!(Type::Unknown.get_c_text(), "_UNKNOWN_");
}

use lib::ast::{Argument, Node, Operator, SequenceMode, Type};
use lib::compiler::Compiler;
use lib::errors::{Error, ResultLog};

fn integer(v: i64) -> Node {
    Node::Integer { value: v }
}

fn op(o: Operator) -> Node {
    Node::PrimitiveOperator { operator: o, typ: Type::Unknown }
}

fn call(operator: Node, operands: Vec<Node>) -> Node {
    Node::Call { operator: Box::new(operator), operands, typ: Type::Unknown }
}

fn var(name: &str) -> Node {
    Node::Variable { name: name.to_string(), typ: Type::Unknown }
}

fn scope(nodes: Vec<Node>) -> Node {
    Node::Sequence { mode: SequenceMode::Scope, nodes, typ: Type::Unknown }
}

fn c_text(r: ResultLog<lib::ast::CNode, Error>) -> String {
    match r {
        ResultLog::Success(c) => c.text,
        ResultLog::Warn(c, _) => c.text,
        ResultLog::Error(errors, _) => panic!("compilation failed with {} errors", errors.len()),
    }
}

#[test]
fn compiles_arithmetic_into_main() {
    let program = scope(vec![call(op(Operator::Add), vec![integer(1), integer(2)])]);
    let text = c_text(Compiler::new().compile_c(program));
    assert_eq!(text, " int __SpecsMain__(){ return (1 + 2); } ");
}

#[test]
fn compiles_binding_and_variable() {
    let program = scope(vec![
        Node::Binding { name: "x".to_string(), binding: Box::new(integer(5)) },
        call(op(Operator::Multiply), vec![var("x"), integer(3)]),
    ]);
    let text = c_text(Compiler::new().compile_c(program));
    assert_eq!(text, " int __SpecsMain__(){ int x = 5; return (x * 3); } ");
}

#[test]
fn unbound_variable_is_an_error() {
    let program = scope(vec![var("y")]);
    match Compiler::new().compile_c(program) {
        ResultLog::Error(errors, warnings) => {
            assert_eq!(errors.len(), 1);
            assert!(warnings.is_empty());
            assert!(matches!(&errors[0], Error::UnboundSymbolType(name) if name == "y"));
        },
        _ => panic!("expected an error"),
    }
}

#[test]
fn mismatched_operands_are_an_error() {
    let program = scope(vec![call(op(Operator::Add), vec![integer(1), Node::Boolean { value: true }])]);
    match Compiler::new().compile_c(program) {
        ResultLog::Error(errors, _) => {
            assert_eq!(errors.len(), 1);
            assert!(matches!(&errors[0], Error::BadOperatorType(Type::Unknown)));
        },
        _ => panic!("expected an error"),
    }
}

#[test]
fn nested_function_is_moved_to_top_level() {
    let function = Node::Function {
        name: "f".to_string(),
        arguments: vec![Argument { name: "a".to_string(), typ: Type::Integer }],
        return_type: Type::Integer,
        body: Box::new(scope(vec![call(op(Operator::Add), vec![var("a"), integer(1)])])),
        typ: Type::Function(vec![Type::Integer], Box::new(Type::Integer)),
    };
    let program = scope(vec![function, call(var("f"), vec![integer(2)])]);
    let text = c_text(Compiler::new().compile_c(program));
    assert_eq!(
        text,
        " int f(int a){ return (a + 1); } int __SpecsMain__(){ /* fn f */ return f(2); } "
    );
}

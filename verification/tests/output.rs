use lib::ast::{Argument, Node, Operator, ReferenceMode, SequenceMode, Type};
use lib::check_types::{self, TypeError};
use lib::format_context::FormatContext;
use lib::format_node::{get_functions, get_program_body, parse_node};
use lib::validate_nodes::{self, NodeError};

fn integer(v: i64) -> Node {
    Node::Integer { value: v }
}

fn var(name: &str, t: Type) -> Node {
    Node::Variable { name: name.to_string(), typ: t }
}

fn op(o: Operator) -> Node {
    Node::PrimitiveOperator { operator: o, typ: Type::Unknown }
}

fn call(operator: Node, operands: Vec<Node>) -> Node {
    Node::Call { operator: Box::new(operator), operands, typ: Type::Unknown }
}

fn scope(nodes: Vec<Node>) -> Node {
    Node::Sequence { mode: SequenceMode::Scope, nodes, typ: Type::Unknown }
}

#[test]
fn format_context_writes_and_groups() {
    let mut ctx = FormatContext::new(String::new());
    ctx.write_str("a");
    ctx.write("b".to_string());
    ctx.push_group("g", true, false);
    ctx.write_str("x");
    ctx.push_group("g", true, false);
    ctx.write_str("y");
    ctx.pop_group();
    ctx.push_group("g", false, true);
    ctx.pop_group();
    ctx.pop_group();
    ctx.pop_group();
    assert_eq!(ctx.get_result(), "ab(xy())");
    assert_eq!(ctx.get_last_group(), "");
}

#[test]
fn format_context_lines_and_comments() {
    let mut ctx = FormatContext::new("start".to_string());
    ctx.indent();
    ctx.indent();
    ctx.start_line();
    ctx.write_comment("note".to_string());
    ctx.end_line(&integer(1));
    ctx.dedent();
    ctx.start_line();
    ctx.write_comment_str("done");
    ctx.end_line(&scope(vec![]));
    assert_eq!(ctx.get_result(), "start\n\t\t/* note */;\n\t/* done */");
}

#[test]
fn format_context_types_and_identifiers() {
    let ctx = FormatContext::new(String::new());
    assert_eq!(ctx.get_identifier(&"a/b-c".to_string()), "a__b_c");
    assert_eq!(ctx.get_type(&Type::Integer), "int*");
    assert_eq!(ctx.get_type(&Type::Reference(ReferenceMode::Mutable, Box::new(Type::Boolean))), "bool *");
    assert_eq!(
        ctx.get_type(&Type::Reference(
            ReferenceMode::Mutable,
            Box::new(Type::Reference(ReferenceMode::Immutable, Box::new(Type::Void)))
        )),
        "void **"
    );
    assert_eq!(ctx.get_typed_identifier(&"x".to_string(), &Type::Integer), "int* x");
    assert_eq!(
        ctx.get_typed_identifier(&"f".to_string(), &Type::Function(vec![], Box::new(Type::Void))),
        "_FUNCTION_ f"
    );
}

#[test]
fn program_body_text() {
    let body = scope(vec![
        Node::Binding { name: "x".to_string(), binding: Box::new(integer(1)) },
        call(op(Operator::Add), vec![var("x", Type::Integer), integer(2)]),
    ]);
    assert_eq!(get_program_body(&body), "{\n\tint* x = 1;\n\t(x + 2);\n}");
}

#[test]
fn program_body_conditionals_and_calls() {
    let c = Node::Conditional {
        condition: Box::new(call(op(Operator::Less), vec![integer(1), integer(2)])),
        then_branch: Box::new(call(var("f", Type::Unknown), vec![integer(3), integer(4)])),
        else_branch: Box::new(Node::Nothing { typ: Type::Void }),
        typ: Type::Void,
    };
    assert_eq!(get_program_body(&c), "if (1 < 2)\n{\n\tf(3, 4);\n}");
    let r = call(var("return", Type::Unknown), vec![integer(5)]);
    assert_eq!(get_program_body(&r), "return 5");
    assert_eq!(get_program_body(&op(Operator::Add)), "/* invalid primitive Add */");
    assert_eq!(get_program_body(&Node::Nothing { typ: Type::Unknown }), "/* invalid nothing */");
}

#[test]
fn parse_node_keeps_writing_after_existing_text() {
    let mut ctx = FormatContext::new("x = ".to_string());
    parse_node(&call(op(Operator::Not), vec![var("b", Type::Boolean)]), &mut ctx);
    assert_eq!(ctx.get_result(), "x = (__OPERATOR__ b)");
}

#[test]
fn function_declarations_and_definitions() {
    let f = Node::Function {
        name: "f".to_string(),
        arguments: vec![Argument { name: "a".to_string(), typ: Type::Integer }],
        return_type: Type::Integer,
        body: Box::new(integer(1)),
        typ: Type::Function(vec![Type::Integer], Box::new(Type::Integer)),
    };
    let root = scope(vec![f]);
    assert_eq!(get_functions(&root, true), "\nint* f(int* a);");
    assert_eq!(get_functions(&root, false), "\nint* f(int* a)\n{\n\t1;\n}");
}

#[test]
fn validation_accepts_well_formed_trees() {
    let root = scope(vec![call(op(Operator::Add), vec![integer(1), integer(2)])]);
    assert!(validate_nodes::apply(&root).is_none());
}

#[test]
fn validation_reports_structural_errors() {
    let root = scope(vec![
        call(integer(1), vec![op(Operator::Add)]),
        Node::Reference { mode: ReferenceMode::Immutable, target: Box::new(integer(2)), typ: Type::Unknown },
        Node::Assign { lhs: Box::new(integer(3)), rhs: Box::new(Node::Nothing { typ: Type::Void }) },
        scope(vec![]),
    ]);
    let errors = validate_nodes::apply(&root).expect("errors");
    assert_eq!(errors.len(), 6);
    assert!(matches!(&errors[0], NodeError::InvalidOperator(k) if k == "integer"));
    assert!(matches!(&errors[1], NodeError::InvalidOperand(k) if k == "primitive operator"));
    assert!(matches!(&errors[2], NodeError::InvalidReference(k) if k == "integer"));
    assert!(matches!(&errors[3], NodeError::InvalidLHS(k) if k == "integer"));
    assert!(matches!(&errors[4], NodeError::InvalidBinding(k) if k == "nothing"));
    assert!(matches!(&errors[5], NodeError::EmptySequence));
}

#[test]
fn type_check_reports_type_errors() {
    let f_type = Type::Function(vec![Type::Integer, Type::Boolean], Box::new(Type::Integer));
    let root = scope(vec![
        var("x", Type::Unknown),
        call(var("f", f_type), vec![integer(1), integer(2)]),
        Node::Dereference { target: Box::new(integer(1)), typ: Type::Unknown },
        Node::Conditional {
            condition: Box::new(integer(1)),
            then_branch: Box::new(integer(2)),
            else_branch: Box::new(Node::Boolean { value: true }),
            typ: Type::Unknown,
        },
    ]);
    let errors = check_types::apply(&root).expect("errors");
    assert_eq!(errors.len(), 5);
    assert!(matches!(&errors[0], TypeError::UnknownSymbolType(n) if n == "x"));
    assert!(matches!(&errors[1], TypeError::InvalidArgumentType(1, Type::Boolean, Type::Integer)));
    assert!(matches!(&errors[2], TypeError::InvalidDereference(Type::Integer)));
    assert!(matches!(&errors[3], TypeError::InvalidConditionType(Type::Integer)));
    assert!(matches!(&errors[4], TypeError::NonmatchingBranchTypes(Type::Integer, Type::Boolean)));
}

#[test]
fn type_check_counts_arguments() {
    let f_type = Type::Function(vec![Type::Integer], Box::new(Type::Integer));
    let root = call(var("f", f_type), vec![]);
    let errors = check_types::apply(&root).expect("errors");
    assert!(matches!(&errors[..], [TypeError::InvalidArgumentCount(1, 0)]));
    let ok = call(var("f", Type::Function(vec![Type::Integer], Box::new(Type::Integer))), vec![integer(1)]);
    assert!(check_types::apply(&ok).is_none());
}

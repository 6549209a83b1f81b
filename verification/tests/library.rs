use lib::bindings::BindingState;
use lib::errors::{Error, ErrorTrait, ParseError, ResultLog, SExpressionError};
use lib::names::TempNameGenerator;
use lib::parse::parse_integer;
use lib::ast::{Node, Type};

#[test]
fn temp_names_are_numbered_from_one() {
    let mut names = TempNameGenerator::new("xop");
    assert_eq!(names.next(), "_xop_1");
    assert_eq!(names.next(), "_xop_2");
    assert_eq!(names.next(), "_xop_3");
}

#[test]
fn temp_names_never_repeat() {
    let mut names = TempNameGenerator::new("scope");
    let mut seen: Vec<String> = Vec::new();
    for _ in 0..100 {
        let n = names.next();
        assert!(!seen.contains(&n));
        seen.push(n);
    }
    assert_eq!(seen[99], "_scope_100");
}

#[test]
fn result_log_new_warning_and_error() {
    let w: ResultLog<i32, i32> = ResultLog::new_warning(5, 7);
    assert!(matches!(w, ResultLog::Warn(5, ref ws) if ws == &vec![7]));
    let e: ResultLog<i32, i32> = ResultLog::new_error(3);
    assert!(matches!(e, ResultLog::Error(ref es, ref ws) if es == &vec![3] && ws.is_empty()));
}

#[test]
fn result_log_maybe_warn() {
    let ok: ResultLog<i32, i32> = ResultLog::maybe_warn(1, vec![]);
    assert!(matches!(ok, ResultLog::Success(1)));
    let warn: ResultLog<i32, i32> = ResultLog::maybe_warn(1, vec![2, 3]);
    assert!(matches!(warn, ResultLog::Warn(1, ref ws) if ws == &vec![2, 3]));
}

#[test]
fn result_log_maybe_error() {
    let ok: ResultLog<i32, i32> = ResultLog::maybe_error(1, vec![], vec![]);
    assert!(matches!(ok, ResultLog::Success(1)));
    let warn: ResultLog<i32, i32> = ResultLog::maybe_error(1, vec![4], vec![]);
    assert!(matches!(warn, ResultLog::Warn(1, ref ws) if ws == &vec![4]));
    let err: ResultLog<i32, i32> = ResultLog::maybe_error(1, vec![4], vec![5, 6]);
    assert!(matches!(err, ResultLog::Error(ref es, ref ws) if es == &vec![5, 6] && ws == &vec![4]));
    assert!(err.is_error());
}

#[test]
fn result_log_add_warning() {
    let ok: ResultLog<i32, i32> = ResultLog::Success(1);
    assert!(matches!(ok.add_warning(2), ResultLog::Warn(1, ref ws) if ws == &vec![2]));
    let warn: ResultLog<i32, i32> = ResultLog::Warn(1, vec![2]);
    assert!(matches!(warn.add_warning(3), ResultLog::Warn(1, ref ws) if ws == &vec![2, 3]));
    let err: ResultLog<i32, i32> = ResultLog::Error(vec![9], vec![]);
    assert!(matches!(err.add_warning(3), ResultLog::Error(ref es, ref ws) if es == &vec![9] && ws == &vec![3]));
}

#[test]
fn result_log_add_error() {
    let ok: ResultLog<i32, i32> = ResultLog::Success(1);
    let r = ok.add_error(2);
    assert!(r.is_error());
    assert!(matches!(r, ResultLog::Error(ref es, ref ws) if es == &vec![2] && ws.is_empty()));
    let warn: ResultLog<i32, i32> = ResultLog::Warn(1, vec![2]);
    assert!(matches!(warn.add_error(3), ResultLog::Error(ref es, ref ws) if es.is_empty() && ws == &vec![2]));
    let err: ResultLog<i32, i32> = ResultLog::Error(vec![9], vec![1]);
    assert!(matches!(err.add_error(3), ResultLog::Error(ref es, ref ws) if es == &vec![9, 3] && ws == &vec![1]));
}

#[test]
fn error_descriptions() {
    let e = Error::UnexpectedOperands("bad".to_string());
    assert_eq!(e.get_description(), Some("bad".to_string()));
    assert!(e.show());
    assert_eq!(Error::Internal("x".to_string()).get_description(), None);
    let p = ParseError::BadFunctionName("f".to_string());
    assert_eq!(p.get_description(), Some("f".to_string()));
    assert!(p.show());
    assert!(!ParseError::Internal("x".to_string()).show());
    assert_eq!(ParseError::UnknownSymbol("s".to_string()).get_description(), None);
    assert_eq!(SExpressionError::FailedToParse.get_description(), None);
    assert!(SExpressionError::UnclosedBracket("(".to_string()).show());
}

#[test]
fn binding_state_reads_back_what_was_bound() {
    let mut state: BindingState<Type> = BindingState::root();
    let x = "x".to_string();
    state.add_binding(&x, Type::Integer);
    assert!(matches!(state.lookup(&x), Some(Type::Integer)));
    assert!(matches!(state.get(&x), Some(Type::Integer)));
    assert!(state.lookup(&"y".to_string()).is_none());
    state.add_binding(&x, Type::Boolean);
    assert!(matches!(state.lookup(&x), Some(Type::Boolean)));
}

#[test]
fn binding_state_scopes() {
    let mut state: BindingState<Type> = BindingState::root();
    let f = "f".to_string();
    let a = "a".to_string();
    assert!(!state.add_definition(f.clone(), Type::Integer));
    assert!(state.add_definition(f.clone(), Type::Float));
    state.add_binding(&a, Type::Boolean);
    // A function body sees definitions but not bindings of the enclosing scope.
    state.enter(true, false);
    assert!(matches!(state.lookup(&f), Some(Type::Float)));
    assert!(state.lookup(&a).is_none());
    // An argument shadows a definition of the same name.
    state.add_binding(&f, Type::Void);
    assert!(matches!(state.lookup(&f), Some(Type::Void)));
    assert!(matches!(state.get_definition(&f), Some(Type::Float)));
    state.leave();
    assert!(matches!(state.lookup(&a), Some(Type::Boolean)));
    assert!(matches!(state.lookup(&f), Some(Type::Float)));
    // A scope that inherits nothing sees nothing.
    state.enter(false, false);
    assert!(state.lookup(&f).is_none());
    assert!(state.lookup(&a).is_none());
}

#[test]
fn binding_state_extend() {
    let root: BindingState<Type> = BindingState::root();
    let mut state = BindingState::extend_with_definitions(root, true, vec![("g".to_string(), Type::Integer)]);
    assert!(matches!(state.lookup(&"g".to_string()), Some(Type::Integer)));
    state.add_definitions(vec![("h".to_string(), Type::Boolean), ("g".to_string(), Type::Void)]);
    assert!(matches!(state.lookup(&"g".to_string()), Some(Type::Void)));
    let state = BindingState::extend_with_bindings(state, false, vec![("g".to_string(), Type::Float)]);
    assert!(matches!(state.lookup(&"g".to_string()), Some(Type::Float)));
    assert!(matches!(state.get_definition(&"g".to_string()), Some(Type::Void)));
    let state = BindingState::empty(state, false, false);
    assert!(state.lookup(&"h".to_string()).is_none());
}

fn parsed(s: &str) -> Option<i64> {
    match parse_integer(&s.to_string()) {
        Some(Node::Integer { value }) => Some(value),
        Some(_) => panic!("not an integer node"),
        None => None,
    }
}

#[test]
fn parse_integer_accepts_numerals() {
    assert_eq!(parsed("123"), Some(123));
    assert_eq!(parsed("-999"), Some(-999));
    assert_eq!(parsed("+5"), Some(5));
    assert_eq!(parsed("007"), Some(7));
    assert_eq!(parsed("9223372036854775807"), Some(i64::MAX));
    assert_eq!(parsed("-9223372036854775808"), Some(i64::MIN));
}

#[test]
fn parse_integer_rejects_others() {
    assert_eq!(parsed(""), None);
    assert_eq!(parsed("-"), None);
    assert_eq!(parsed("+"), None);
    assert_eq!(parsed("12a"), None);
    assert_eq!(parsed(" 1"), None);
    assert_eq!(parsed("1.5"), None);
    assert_eq!(parsed("9223372036854775808"), None);
    assert_eq!(parsed("-9223372036854775809"), None);
    assert_eq!(parsed("99999999999999999999999"), None);
}

#[test]
fn parse_integer_reads_back_written_numerals() {
    for v in [0i64, 1, -1, 42, -42, 1000000, i64::MAX, i64::MIN] {
        assert_eq!(parsed(&v.to_string()), Some(v));
    }
}

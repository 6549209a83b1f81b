//! Results that carry warnings and errors, and the error kinds of the compiler.
use vstd::prelude::*;
use crate::ast::{types_view, Type, TypeSpec};
use crate::text::{push_str, push_string, text};
use crate::c_convert::type_c_text;
use crate::ast::lemma_types_view;

verus! {

/// A result together with the warnings produced on the way, or the errors (and warnings)
/// that prevented a result.
#[derive(Debug)]
pub enum ResultLog<TResult, TError> {
    Success(TResult),
    Warn(TResult, Vec<TError>),
    Error(Vec<TError>, Vec<TError>),
}

/// Common queries on error kinds.
pub trait ErrorTrait {
    /// A longer description of the error, when there is one.
    fn get_description(&self) -> Option<String>;

    /// Whether the error should be shown to the user.
    fn show(&self) -> bool;
}

impl<TResult, TError> ResultLog<TResult, TError> {
    /// A result with a single warning.
    pub fn new_warning(result: TResult, warning: TError) -> (r: Self)
        ensures
            r matches ResultLog::Warn(res, warnings) && res == result && warnings@ == seq![warning],
    {
        ResultLog::Warn(result, vec![warning])
    }

    /// A failure with a single error and no warnings.
    pub fn new_error(error: TError) -> (r: Self)
        ensures
            r matches ResultLog::Error(errors, warnings) && errors@ == seq![error]
                && warnings@.len() == 0,
    {
        ResultLog::Error(vec![error], Vec::new())
    }

    /// A result, with warnings when there are any.
    pub fn maybe_warn(result: TResult, warnings: Vec<TError>) -> (r: Self)
        ensures
            warnings@.len() == 0 ==> r == ResultLog::<TResult, TError>::Success(result),
            warnings@.len() != 0 ==> (r matches ResultLog::Warn(res, w) && res == result && w@
                == warnings@),
    {
        if warnings.is_empty() {
            ResultLog::Success(result)
        } else {
            ResultLog::Warn(result, warnings)
        }
    }

    /// A failure when there are errors, else a result (with warnings when there are any).
    pub fn maybe_error(result: TResult, warnings: Vec<TError>, errors: Vec<TError>) -> (r: Self)
        ensures
            errors@.len() != 0 ==> (r matches ResultLog::Error(e, w) && e@ == errors@ && w@
                == warnings@),
            errors@.len() == 0 && warnings@.len() != 0 ==> (r matches ResultLog::Warn(res, w)
                && res == result && w@ == warnings@),
            errors@.len() == 0 && warnings@.len() == 0 ==> r == ResultLog::<TResult, TError>::Success(
                result,
            ),
    {
        let no_errors = errors.is_empty();
        let no_warnings = warnings.is_empty();
        if !no_errors {
            ResultLog::Error(errors, warnings)
        } else if !no_warnings {
            ResultLog::Warn(result, warnings)
        } else {
            ResultLog::Success(result)
        }
    }

    /// Adds a warning, keeping the result or the errors.
    pub fn add_warning(self, warning: TError) -> (r: Self)
        ensures
            self matches ResultLog::Success(res) ==> (r matches ResultLog::Warn(res2, w) && res2 == res
                && w@ == seq![warning]),
            self matches ResultLog::Warn(res, ws) ==> (r matches ResultLog::Warn(res2, w) && res2
                == res && w@ == ws@.push(warning)),
            self matches ResultLog::Error(es, ws) ==> (r matches ResultLog::Error(e, w) && e@
                == es@ && w@ == ws@.push(warning)),
    {
        match self {
            ResultLog::Success(result) => ResultLog::Warn(result, vec![warning]),
            ResultLog::Warn(result, mut warnings) => {
                warnings.push(warning);
                ResultLog::Warn(result, warnings)
            },
            ResultLog::Error(errors, mut warnings) => {
                warnings.push(warning);
                ResultLog::Error(errors, warnings)
            },
        }
    }

    /// Adds an error, turning any result into a failure.
    ///
    /// A result with warnings becomes a failure that keeps the warnings but not the new error.
    pub fn add_error(self, error: TError) -> (r: Self)
        ensures
            self is Success ==> (r matches ResultLog::Error(e, w) && e@ == seq![error] && w@.len()
                == 0),
            self matches ResultLog::Warn(res, ws) ==> (r matches ResultLog::Error(e, w) && e@.len()
                == 0 && w@ == ws@),
            self matches ResultLog::Error(es, ws) ==> (r matches ResultLog::Error(e, w) && e@
                == es@.push(error) && w@ == ws@),
    {
        match self {
            ResultLog::Success(_result) => ResultLog::Error(vec![error], Vec::new()),
            ResultLog::Warn(_result, warnings) => ResultLog::Error(Vec::new(), warnings),
            ResultLog::Error(mut errors, warnings) => {
                errors.push(error);
                ResultLog::Error(errors, warnings)
            },
        }
    }

    /// Whether this is a failure.
    pub fn is_error(&self) -> (r: bool)
        ensures
            r == (self is Error),
    {
        match self {
            ResultLog::Error(..) => true,
            _ => false,
        }
    }
}

/// Errors found while compiling a syntax tree.
#[derive(Debug)]
pub enum Error {
    UnboundSymbolType(String),
    BadDereferenceType(Type),
    UnexpectedOperands(String),
    FailedToInferOperator(String),
    BadOperatorType(Type),
    BadOperandTypes(Vec<Type>, Vec<Type>),
    BadAssignTypes(Type, Type),
    BadReturnType(Type, Type),
    BadConditionType(Type),
    BadBranchTypes(Type, Type),
    Internal(String),
}

/// Model of [`Error`].
pub enum ErrorSpec {
    UnboundSymbolType(Seq<char>),
    BadDereferenceType(TypeSpec),
    UnexpectedOperands(Seq<char>),
    FailedToInferOperator(Seq<char>),
    BadOperatorType(TypeSpec),
    BadOperandTypes(Seq<TypeSpec>, Seq<TypeSpec>),
    BadAssignTypes(TypeSpec, TypeSpec),
    BadReturnType(TypeSpec, TypeSpec),
    BadConditionType(TypeSpec),
    BadBranchTypes(TypeSpec, TypeSpec),
    Internal(Seq<char>),
}

impl View for Error {
    type V = ErrorSpec;

    open spec fn view(&self) -> ErrorSpec {
        match self {
            Error::UnboundSymbolType(name) => ErrorSpec::UnboundSymbolType(name@),
            Error::BadDereferenceType(t) => ErrorSpec::BadDereferenceType(t@),
            Error::UnexpectedOperands(d) => ErrorSpec::UnexpectedOperands(d@),
            Error::FailedToInferOperator(d) => ErrorSpec::FailedToInferOperator(d@),
            Error::BadOperatorType(t) => ErrorSpec::BadOperatorType(t@),
            Error::BadOperandTypes(a, b) => ErrorSpec::BadOperandTypes(types_view(*a), types_view(*b)),
            Error::BadAssignTypes(a, b) => ErrorSpec::BadAssignTypes(a@, b@),
            Error::BadReturnType(a, b) => ErrorSpec::BadReturnType(a@, b@),
            Error::BadConditionType(t) => ErrorSpec::BadConditionType(t@),
            Error::BadBranchTypes(a, b) => ErrorSpec::BadBranchTypes(a@, b@),
            Error::Internal(d) => ErrorSpec::Internal(d@),
        }
    }
}

/// The models of a vector of errors, in order.
pub open spec fn errors_view(v: Vec<Error>) -> Seq<ErrorSpec> {
    Seq::new(v.len() as nat, |i: int| v@[i]@)
}

/// The C texts of a list of types, separated by spaces.
pub open spec fn types_text(ts: Seq<TypeSpec>) -> Seq<char>
    decreases ts.len(),
{
    if ts.len() == 0 {
        Seq::empty()
    } else if ts.len() == 1 {
        type_c_text(ts[0])
    } else {
        types_text(ts.drop_last()) + " "@ + type_c_text(ts.last())
    }
}

/// The text of a compile error.
pub open spec fn error_message(e: ErrorSpec) -> Seq<char> {
    match e {
        ErrorSpec::UnboundSymbolType(name) => "Unbound Symbol '"@ + name + "'"@,
        ErrorSpec::BadDereferenceType(t) => "Can't dereference type '"@ + type_c_text(t) + "'"@,
        ErrorSpec::UnexpectedOperands(_) => "Unexpected operand types"@,
        ErrorSpec::FailedToInferOperator(_) => "Failed to infer operator type"@,
        ErrorSpec::BadOperatorType(t) => "Expected operator type to be function, found: "@
            + type_c_text(t),
        ErrorSpec::BadOperandTypes(found, expected) => "Unexpected operands for call, expected: ("@
            + types_text(expected) + "), found: ("@ + types_text(found) + ")"@,
        ErrorSpec::BadAssignTypes(found, expected) => "Unexpected types in assign statement, expected: "@
            + type_c_text(expected) + ", found: "@ + type_c_text(found),
        ErrorSpec::BadReturnType(found, expected) => "Return type of function body doesn't match definition, expected: "@
            + type_c_text(expected) + ", found: "@ + type_c_text(found),
        ErrorSpec::BadConditionType(t) => "Unexpected type in condition statement, expected: bool, found: "@
            + type_c_text(t),
        ErrorSpec::BadBranchTypes(then_type, else_type) => "Conditional branch types do not match, then: "@
            + type_c_text(then_type) + ", else: "@ + type_c_text(else_type),
        ErrorSpec::Internal(message) => "Internal '"@ + message + "'"@,
    }
}

/// Appends the C texts of a list of types, separated by spaces.
fn push_types_text(r: &mut String, ts: &Vec<Type>)
    ensures
        final(r)@ == old(r)@ + types_text(types_view(*ts)),
{
    proof {
        lemma_types_view(*ts);
    }
    let ghost v = types_view(*ts);
    let ghost start = r@;
    let mut i: usize = 0;
    assert(v.take(0) =~= Seq::<TypeSpec>::empty());
    assert(r@ =~= start + types_text(v.take(0)));
    while i < ts.len()
        invariant
            i <= ts.len(),
            v == types_view(*ts),
            v.len() == ts.len(),
            forall|j: int| 0 <= j < ts.len() ==> v[j] == (#[trigger] ts@[j])@,
            r@ == start + types_text(v.take(i as int)),
        decreases ts.len() - i,
    {
        let ghost t = v.take(i + 1);
        assert(t.drop_last() =~= v.take(i as int));
        assert(t.last() == v[i as int]);
        if i > 0 {
            push_str(r, " ");
        } else {
            assert(t =~= seq![v[0]]);
        }
        let text = ts[i].get_c_text();
        push_string(r, &text);
        assert(r@ =~= start + types_text(t));
        i += 1;
    }
    assert(v.take(ts.len() as int) =~= v);
}

impl Error {
    /// The text of the error.
    pub fn message(&self) -> (r: String)
        ensures
            r@ == error_message(self@),
    {
        match self {
            Error::UnboundSymbolType(name) => {
                let mut r = text("Unbound Symbol '");
                push_string(&mut r, name);
                push_str(&mut r, "'");
                r
            },
            Error::BadDereferenceType(t) => {
                let mut r = text("Can't dereference type '");
                let tt = t.get_c_text();
                push_string(&mut r, &tt);
                push_str(&mut r, "'");
                r
            },
            Error::UnexpectedOperands(_) => text("Unexpected operand types"),
            Error::FailedToInferOperator(_) => text("Failed to infer operator type"),
            Error::BadOperatorType(t) => {
                let mut r = text("Expected operator type to be function, found: ");
                let tt = t.get_c_text();
                push_string(&mut r, &tt);
                r
            },
            Error::BadOperandTypes(found, expected) => {
                let mut r = text("Unexpected operands for call, expected: (");
                push_types_text(&mut r, expected);
                push_str(&mut r, "), found: (");
                push_types_text(&mut r, found);
                push_str(&mut r, ")");
                r
            },
            Error::BadAssignTypes(found, expected) => {
                let mut r = text("Unexpected types in assign statement, expected: ");
                let e = expected.get_c_text();
                push_string(&mut r, &e);
                push_str(&mut r, ", found: ");
                let f = found.get_c_text();
                push_string(&mut r, &f);
                r
            },
            Error::BadReturnType(found, expected) => {
                let mut r = text(
                    "Return type of function body doesn't match definition, expected: ",
                );
                let e = expected.get_c_text();
                push_string(&mut r, &e);
                push_str(&mut r, ", found: ");
                let f = found.get_c_text();
                push_string(&mut r, &f);
                r
            },
            Error::BadConditionType(t) => {
                let mut r = text(
                    "Unexpected type in condition statement, expected: bool, found: ",
                );
                let tt = t.get_c_text();
                push_string(&mut r, &tt);
                r
            },
            Error::BadBranchTypes(then_type, else_type) => {
                let mut r = text("Conditional branch types do not match, then: ");
                let t = then_type.get_c_text();
                push_string(&mut r, &t);
                push_str(&mut r, ", else: ");
                let e = else_type.get_c_text();
                push_string(&mut r, &e);
                r
            },
            Error::Internal(message) => {
                let mut r = text("Internal '");
                push_string(&mut r, message);
                push_str(&mut r, "'");
                r
            },
        }
    }
}

impl ErrorTrait for Error {
    fn get_description(&self) -> (r: Option<String>)
        ensures
            (self matches Error::UnexpectedOperands(d) && r matches Some(s) && s@ == d@)
                || (self matches Error::FailedToInferOperator(d) && r matches Some(s) && s@ == d@)
                || (!(self is UnexpectedOperands) && !(self is FailedToInferOperator) && r is None),
    {
        match self {
            Error::UnexpectedOperands(description) => Some(description.clone()),
            Error::FailedToInferOperator(description) => Some(description.clone()),
            _ => None,
        }
    }

    fn show(&self) -> (r: bool)
        ensures
            r,
    {
        true
    }
}

/// Errors found while reading a program.
#[derive(Debug)]
pub enum ParseError {
    UnknownExpression(String),
    UnknownSymbol(String),
    UnexpectedKeyword(String),
    BadFunctionName(String),
    BadFunctionLayout(String),
    BadFunctionArgument(String),
    Internal(String),
}

/// The text of an error found while reading a program.
pub open spec fn parse_error_message(e: ParseError) -> Seq<char> {
    match e {
        ParseError::UnknownExpression(_) => "Unknown expression"@,
        ParseError::UnknownSymbol(symbol) => "Unknown symbol '"@ + symbol@ + "'"@,
        ParseError::UnexpectedKeyword(symbol) => "Unexpected keyword '"@ + symbol@ + "'"@,
        ParseError::BadFunctionName(_) => "Bad function name"@,
        ParseError::BadFunctionLayout(_) => "Bad function layout"@,
        ParseError::BadFunctionArgument(_) => "Bad function argument"@,
        ParseError::Internal(message) => "Internal '"@ + message@ + "'"@,
    }
}

impl ParseError {
    /// The text of the error.
    pub fn message(&self) -> (r: String)
        ensures
            r@ == parse_error_message(*self),
    {
        match self {
            ParseError::UnknownExpression(_) => text("Unknown expression"),
            ParseError::UnknownSymbol(symbol) => {
                let mut r = text("Unknown symbol '");
                push_string(&mut r, symbol);
                push_str(&mut r, "'");
                r
            },
            ParseError::UnexpectedKeyword(symbol) => {
                let mut r = text("Unexpected keyword '");
                push_string(&mut r, symbol);
                push_str(&mut r, "'");
                r
            },
            ParseError::BadFunctionName(_) => text("Bad function name"),
            ParseError::BadFunctionLayout(_) => text("Bad function layout"),
            ParseError::BadFunctionArgument(_) => text("Bad function argument"),
            ParseError::Internal(message) => {
                let mut r = text("Internal '");
                push_string(&mut r, message);
                push_str(&mut r, "'");
                r
            },
        }
    }
}

impl ErrorTrait for ParseError {
    fn get_description(&self) -> (r: Option<String>)
        ensures
            (self matches ParseError::UnknownExpression(d) && r matches Some(s) && s@ == d@)
                || (self matches ParseError::BadFunctionName(d) && r matches Some(s) && s@ == d@)
                || (self matches ParseError::BadFunctionLayout(d) && r matches Some(s) && s@ == d@)
                || (self matches ParseError::BadFunctionArgument(d) && r matches Some(s) && s@
                == d@) || ((self is UnknownSymbol || self is UnexpectedKeyword
                || self is Internal) && r is None),
    {
        match self {
            ParseError::UnknownExpression(description) => Some(description.clone()),
            ParseError::UnknownSymbol(..) => None,
            ParseError::UnexpectedKeyword(..) => None,
            ParseError::BadFunctionName(description) => Some(description.clone()),
            ParseError::BadFunctionLayout(description) => Some(description.clone()),
            ParseError::BadFunctionArgument(description) => Some(description.clone()),
            ParseError::Internal(..) => None,
        }
    }

    /// Internal errors are hidden from the user.
    fn show(&self) -> (r: bool)
        ensures
            r == !(self is Internal),
    {
        match self {
            ParseError::Internal(..) => false,
            _ => true,
        }
    }
}

/// The text of an error found while reading bracketed expressions.
pub open spec fn s_expression_message(e: SExpressionError) -> Seq<char> {
    match e {
        SExpressionError::Internal(message) => "Internal error: "@ + message@,
        SExpressionError::UnclosedBracket(bracket) => "Unclosed Bracket '"@ + bracket@ + "'"@,
        SExpressionError::FailedToParse => "Failed to parse text"@,
    }
}

/// Errors found while reading bracketed expressions.
#[derive(Debug)]
pub enum SExpressionError {
    Internal(String),
    UnclosedBracket(String),
    FailedToParse,
}

impl SExpressionError {
    /// The text of the error.
    pub fn message(&self) -> (r: String)
        ensures
            r@ == s_expression_message(*self),
    {
        match self {
            SExpressionError::Internal(message) => {
                let mut r = text("Internal error: ");
                push_string(&mut r, message);
                r
            },
            SExpressionError::UnclosedBracket(bracket) => {
                let mut r = text("Unclosed Bracket '");
                push_string(&mut r, bracket);
                push_str(&mut r, "'");
                r
            },
            SExpressionError::FailedToParse => text("Failed to parse text"),
        }
    }
}

impl ErrorTrait for SExpressionError {
    fn get_description(&self) -> (r: Option<String>)
        ensures
            r is None,
    {
        None
    }

    fn show(&self) -> (r: bool)
        ensures
            r,
    {
        true
    }
}

} // verus!

//! How the operators of the language are written in C.
use vstd::prelude::*;
use crate::ast::{CNodeType, Operator};

verus! {

/// How an operator is written in C: whether it is an infix or a prefix operator, and its
/// text. (The `create` operator has no C form.)
pub open spec fn operator_c_form(op: Operator) -> (CNodeType, Seq<char>) {
    match op {
        Operator::Add => (CNodeType::InfixOperator, seq!['+']),
        Operator::Subtract => (CNodeType::InfixOperator, seq!['-']),
        Operator::Multiply => (CNodeType::InfixOperator, seq!['*']),
        Operator::Divide => (CNodeType::InfixOperator, seq!['/']),
        Operator::Modulo => (CNodeType::InfixOperator, seq!['%']),
        Operator::Equal => (CNodeType::InfixOperator, seq!['=', '=']),
        Operator::NotEqual => (CNodeType::InfixOperator, seq!['!', '=']),
        Operator::Less => (CNodeType::InfixOperator, seq!['<']),
        Operator::Greater => (CNodeType::InfixOperator, seq!['>']),
        Operator::LessEqual => (CNodeType::InfixOperator, seq!['<', '=']),
        Operator::GreaterEqual => (CNodeType::InfixOperator, seq!['>', '=']),
        Operator::Not => (CNodeType::PrefixOperator, seq!['!']),
        Operator::And => (CNodeType::InfixOperator, seq!['&', '&']),
        Operator::Or => (CNodeType::InfixOperator, seq!['|', '|']),
        Operator::ExclusiveOr => (CNodeType::InfixOperator, seq!['^']),
        Operator::Return => (CNodeType::PrefixOperator, seq!['r', 'e', 't', 'u', 'r', 'n']),
        Operator::Create => (CNodeType::Atomic, seq!['u', 'n', 'k', 'n', 'o', 'w', 'n', '_', 'o', 'p', 'e', 'r', 'a', 't', 'o', 'r']),
    }
}

/// Distinct operators that C writes as operators are written differently: the conversion
/// never confuses two of them.
pub proof fn lemma_c_operator_texts_distinct(a: Operator, b: Operator)
    requires
        operator_c_form(a).0 != CNodeType::Atomic,
        operator_c_form(b).0 != CNodeType::Atomic,
        a != b,
    ensures
        operator_c_form(a).1 != operator_c_form(b).1,
{
    let x = operator_c_form(a).1;
    let y = operator_c_form(b).1;
    if x.len() == y.len() {
        assert(x[0] != y[0] || (x.len() > 1 && x[1] != y[1]) || (x.len() > 2 && x[2] != y[2]));
    }
}

/// How an operator is written in C (see [`operator_c_form`]).
pub fn operator_c_text(op: Operator) -> (r: (CNodeType, &'static str))
    ensures
        (r.0, r.1@) == operator_c_form(op),
{
    match op {
        Operator::Add => {
            proof {
                reveal_strlit("+");
            }
            (CNodeType::InfixOperator, "+")
        },
        Operator::Subtract => {
            proof {
                reveal_strlit("-");
            }
            (CNodeType::InfixOperator, "-")
        },
        Operator::Multiply => {
            proof {
                reveal_strlit("*");
            }
            (CNodeType::InfixOperator, "*")
        },
        Operator::Divide => {
            proof {
                reveal_strlit("/");
            }
            (CNodeType::InfixOperator, "/")
        },
        Operator::Modulo => {
            proof {
                reveal_strlit("%");
            }
            (CNodeType::InfixOperator, "%")
        },
        Operator::Equal => {
            proof {
                reveal_strlit("==");
            }
            (CNodeType::InfixOperator, "==")
        },
        Operator::NotEqual => {
            proof {
                reveal_strlit("!=");
            }
            (CNodeType::InfixOperator, "!=")
        },
        Operator::Less => {
            proof {
                reveal_strlit("<");
            }
            (CNodeType::InfixOperator, "<")
        },
        Operator::Greater => {
            proof {
                reveal_strlit(">");
            }
            (CNodeType::InfixOperator, ">")
        },
        Operator::LessEqual => {
            proof {
                reveal_strlit("<=");
            }
            (CNodeType::InfixOperator, "<=")
        },
        Operator::GreaterEqual => {
            proof {
                reveal_strlit(">=");
            }
            (CNodeType::InfixOperator, ">=")
        },
        Operator::Not => {
            proof {
                reveal_strlit("!");
            }
            (CNodeType::PrefixOperator, "!")
        },
        Operator::And => {
            proof {
                reveal_strlit("&&");
            }
            (CNodeType::InfixOperator, "&&")
        },
        Operator::Or => {
            proof {
                reveal_strlit("||");
            }
            (CNodeType::InfixOperator, "||")
        },
        Operator::ExclusiveOr => {
            proof {
                reveal_strlit("^");
            }
            (CNodeType::InfixOperator, "^")
        },
        Operator::Return => {
            proof {
                reveal_strlit("return");
            }
            (CNodeType::PrefixOperator, "return")
        },
        Operator::Create => {
            proof {
                reveal_strlit("unknown_operator");
            }
            (CNodeType::Atomic, "unknown_operator")
        },
    }
}

} // verus!

//! Reading literal values from symbols.
use vstd::prelude::*;
use crate::ast::{Node, NodeSpec};
use crate::text::{chars_of, decimal, digit_char, signed_decimal};

verus! {

/// Whether a character is an ASCII decimal digit.
pub open spec fn is_digit(c: char) -> bool {
    '0' <= c && c <= '9'
}

/// The value of a string of decimal digits.
pub open spec fn digits_value(s: Seq<char>) -> int
    decreases s.len(),
{
    if s.len() == 0 {
        0
    } else {
        digits_value(s.drop_last()) * 10 + (s.last() as int - '0' as int)
    }
}

/// The digits of a numeral: after a leading `+` or `-`, if any.
pub open spec fn numeral_digits(s: Seq<char>) -> Seq<char> {
    if s.len() > 0 && (s[0] == '-' || s[0] == '+') {
        s.drop_first()
    } else {
        s
    }
}

/// The integer written by a numeral: an optional `+` or `-` sign followed by one or more
/// decimal digits (the way integers are read from text).
pub open spec fn numeral_value(s: Seq<char>) -> Option<int> {
    let digits = numeral_digits(s);
    if digits.len() == 0 || !(forall|i: int| 0 <= i < digits.len() ==> is_digit(#[trigger] digits[i])) {
        None
    } else if s[0] == '-' {
        Some(-digits_value(digits))
    } else {
        Some(digits_value(digits))
    }
}

/// A string of digits has a value at least that of each of its prefixes.
proof fn lemma_digits_value_prefix(s: Seq<char>, k: int)
    requires
        0 <= k <= s.len(),
        forall|i: int| 0 <= i < s.len() ==> is_digit(#[trigger] s[i]),
    ensures
        0 <= digits_value(s.take(k)) <= digits_value(s),
    decreases s.len(),
{
    if s.len() > 0 {
        if k == s.len() {
            assert(s.take(k) =~= s);
            lemma_digits_value_prefix(s.drop_last(), k - 1);
            assert(s.drop_last().take(k - 1) =~= s.drop_last());
        } else {
            lemma_digits_value_prefix(s.drop_last(), k);
            assert(s.drop_last().take(k) =~= s.take(k));
            lemma_digits_value_prefix(s.drop_last(), s.len() - 1);
            assert(s.drop_last().take(s.len() - 1) =~= s.drop_last());
        }
    } else {
        assert(s.take(k) =~= s);
    }
}

/// Reads an integer symbol (ex. `123`, `-999`): the integer node of its value, when the
/// symbol is a numeral whose value fits in 64 bits.
pub fn parse_integer(symbol: &String) -> (r: Option<Node>)
    ensures
        match numeral_value(symbol@) {
            Some(v) => if i64::MIN <= v <= i64::MAX {
                r matches Some(n) && n@ == NodeSpec::Integer { value: v as i64 }
            } else {
                r is None
            },
            None => r is None,
        },
{
    let chars = chars_of(symbol);
    let ghost s = symbol@;
    let n = chars.len();
    if n == 0 {
        return None;
    }
    let negative = chars[0] == '-';
    let start: usize = if chars[0] == '-' || chars[0] == '+' {
        1
    } else {
        0
    };
    let ghost digits = numeral_digits(s);
    assert(digits =~= s.subrange(start as int, n as int));
    if start == n {
        return None;
    }
    let limit: u64 = 9223372036854775808u64;
    let mut value: u64 = 0;
    let mut i: usize = start;
    while i < n
        invariant
            start <= i <= n,
            n == s.len(),
            chars@ == s,
            digits == s.subrange(start as int, n as int),
            forall|j: int| 0 <= j < i - start ==> is_digit(#[trigger] digits[j]),
            value == digits_value(digits.take(i - start)),
            value <= limit,
            limit == 9223372036854775808u64,
            digits == numeral_digits(s),
            digits.len() > 0,
            s.len() > 0,
            negative == (s[0] == '-'),
            s == symbol@,
        decreases n - i,
    {
        let c = chars[i];
        assert(digits[i - start] == c);
        if !('0' <= c && c <= '9') {
            assert(!is_digit(digits[i - start]));
            return None;
        }
        let d = (c as u64) - ('0' as u64);
        let ghost t = digits.take(i - start + 1);
        assert(t.drop_last() =~= digits.take(i - start));
        assert(t.last() == c);
        if value > (limit - d) / 10 {
            // The value so far is too large already: the numeral is out of range or invalid.
            proof {
                assert(digits_value(t) > limit) by (nonlinear_arith)
                    requires
                        digits_value(t) == value * 10 + d,
                        value > (limit - d) / 10,
                        d <= 9,
                        limit == 9223372036854775808u64;
                if forall|j: int| 0 <= j < digits.len() ==> is_digit(#[trigger] digits[j]) {
                    lemma_digits_value_prefix(digits, i - start + 1);
                    assert(digits_value(digits) > limit);
                    if s[0] == '-' {
                        assert(numeral_value(s) == Some(-digits_value(digits)));
                    } else {
                        assert(numeral_value(s) == Some(digits_value(digits)));
                    }
                }
            }
            return None;
        }
        assert(value * 10 + d <= limit) by (nonlinear_arith)
            requires
                value <= (limit - d) / 10,
                d <= 9,
                limit == 9223372036854775808u64;
        value = value * 10 + d;
        i += 1;
    }
    assert(digits.take(n - start) =~= digits);
    if negative {
        if value == limit {
            Some(Node::Integer { value: i64::MIN })
        } else {
            Some(Node::Integer { value: -(value as i64) })
        }
    } else {
        if value == limit {
            None
        } else {
            Some(Node::Integer { value: value as i64 })
        }
    }
}


/// The numeral of a natural number is made of digits, and reads back as that number.
pub proof fn lemma_decimal_digits(n: nat)
    ensures
        decimal(n).len() >= 1,
        forall|i: int| 0 <= i < decimal(n).len() ==> is_digit(#[trigger] decimal(n)[i]),
        digits_value(decimal(n)) == n,
    decreases n,
{
    let d = (n % 10) as nat;
    assert(is_digit(digit_char(d)) && digit_char(d) as int - '0' as int == d) by {
        assert(d < 10);
    }
    if n >= 10 {
        lemma_decimal_digits(n / 10);
        let s = decimal(n);
        assert(s.drop_last() == decimal(n / 10));
        assert(s.last() == digit_char(d));
        assert((n / 10) * 10 + n % 10 == n) by (nonlinear_arith);
        assert(digits_value(s) == digits_value(s.drop_last()) * 10 + (s.last() as int - '0' as int));
        assert(digits_value(s.drop_last()) == n / 10);
        assert(s.last() as int - '0' as int == d);
        assert forall|i: int| 0 <= i < s.len() implies is_digit(#[trigger] s[i]) by {
            if i < s.len() - 1 {
                assert(s[i] == decimal(n / 10)[i]);
            }
        }
    } else {
        assert(n % 10 == n);
        let s = decimal(n);
        assert(s.drop_last() =~= Seq::<char>::empty());
        assert(s.last() == digit_char(n));
        assert(digits_value(s) == digits_value(s.drop_last()) * 10 + (s.last() as int - '0' as int));
    }
}

/// Reading the numeral written for an integer gives the integer back.
pub proof fn lemma_numeral_round_trip(v: int)
    ensures
        numeral_value(signed_decimal(v)) == Some(v),
{
    if v < 0 {
        let m = (-v) as nat;
        lemma_decimal_digits(m);
        let s = signed_decimal(v);
        assert(s[0] == '-');
        assert(numeral_digits(s) =~= decimal(m));
    } else {
        lemma_decimal_digits(v as nat);
        let s = signed_decimal(v);
        assert(is_digit(s[0]));
        assert(numeral_digits(s) == decimal(v as nat));
    }
}

} // verus!

//! Lexical and structural analysis: turns a raw expression string into a
//! validated, flat, ordered sequence of tokens.

use vstd::prelude::*;

verus! {

/// A numeric literal: a 64-bit value tagged with the radix it was written in.
/// The tag records only how the literal was spelled; arithmetic always uses
/// the plain value.
#[derive(Debug, Copy, Clone, PartialEq, Eq, Structural)]
pub enum Number {
    Binary(i64),
    Octal(i64),
    Decimal(i64),
    Hexadecimal(i64),
}

/// One of the four binary arithmetic operators.
#[derive(Debug, Copy, Clone, PartialEq, Eq, Structural)]
pub enum Operator {
    Add,
    Subtract,
    Multiply,
    Divide,
}

/// A parenthesis marker.
#[derive(Debug, Copy, Clone, PartialEq, Eq, Structural)]
pub enum Paran {
    Open,
    Close,
}

/// A token of an expression: a number, an operator, or a parenthesis marker.
#[derive(Debug, Copy, Clone, PartialEq, Eq, Structural)]
pub enum Token {
    Number(Number),
    Operator(Operator),
    Paran(Paran),
}

/// The ways an expression string can be rejected.
#[derive(Debug, Copy, Clone, PartialEq, Eq, Structural)]
pub enum ParseError {
    /// Unequal or misordered `(` / `)`.
    MismatchedParentheses,
    /// Two operators with no operand between them (or a leading operator).
    ConsecutiveOperators,
    /// Malformed numeral, stray characters, or a numeral directly adjacent
    /// to a parenthesis without an operator.
    InvalidExpression,
    /// A digit out of range for the declared radix, such as `0b2`.
    InvalidRadixDigit,
}

/// The precedence rank of an operator: addition and subtraction bind at
/// rank 1, multiplication and division at rank 2.
pub open spec fn spec_precedence(op: Operator) -> int {
    match op {
        Operator::Add => 1,
        Operator::Subtract => 1,
        Operator::Multiply => 2,
        Operator::Divide => 2,
    }
}

impl Operator {
    /// Returns the precedence rank of this operator.
    pub fn precedence(&self) -> (r: i32)
        ensures
            r == spec_precedence(*self),
    {
        match self {
            Operator::Add => 1,
            Operator::Subtract => 1,
            Operator::Multiply => 2,
            Operator::Divide => 2,
        }
    }

    /// Returns the associativity of this operator: `0` for left-associative.
    /// Every operator in the language is left-associative.
    pub fn associativity(&self) -> (r: i32)
        ensures
            r == 0,
    {
        match self {
            Operator::Add => 0,
            Operator::Subtract => 0,
            Operator::Multiply => 0,
            Operator::Divide => 0,
        }
    }
}

/// The operator denoted by a single character, if any.
pub open spec fn char_op(c: char) -> Option<Operator> {
    if c == '+' {
        Some(Operator::Add)
    } else if c == '-' {
        Some(Operator::Subtract)
    } else if c == '*' {
        Some(Operator::Multiply)
    } else if c == '/' {
        Some(Operator::Divide)
    } else {
        None
    }
}

/// The value of a single digit character: `0`-`9` give 0 to 9 and the hex
/// letters `a`-`f` / `A`-`F` give 10 to 15; every other character yields the
/// sentinel 16, which is out of range for every supported radix.
pub open spec fn digit_val(c: char) -> int {
    let u = c as u32;
    if 48 <= u <= 57 {
        u - 48
    } else if 97 <= u <= 102 {
        u - 87
    } else if 65 <= u <= 70 {
        u - 55
    } else {
        16
    }
}

/// Whether `s` is a non-empty run of digits that are all in range for
/// `base`.
pub open spec fn digits_ok(s: Seq<char>, base: int) -> bool {
    s.len() > 0 && forall|i: int| 0 <= i < s.len() ==> digit_val(s[i]) < base
}

/// The value of a digit string read most-significant first in `base`.
pub open spec fn digits_value(s: Seq<char>, base: int) -> int
    decreases s.len(),
{
    if s.len() == 0 {
        0
    } else {
        digits_value(s.drop_last(), base) * base + digit_val(s.last())
    }
}

/// The radix selected by a literal's prefix: `0b` is base 2, `0o` base 8,
/// `0x` base 16; no prefix means base 10.
pub open spec fn radix_prefix_base(s: Seq<char>) -> Option<int> {
    if s.len() >= 2 && s[0] == '0' && s[1] == 'b' {
        Some(2)
    } else if s.len() >= 2 && s[0] == '0' && s[1] == 'o' {
        Some(8)
    } else if s.len() >= 2 && s[0] == '0' && s[1] == 'x' {
        Some(16)
    } else {
        None
    }
}

/// The number denoted by `s`, if `s` is a well-formed numeric literal whose
/// value fits in an `i64`: an optional radix prefix followed by a non-empty
/// run of digits valid for that radix. Literals carry no sign.
pub open spec fn spec_number(s: Seq<char>) -> Option<Number> {
    match radix_prefix_base(s) {
        Some(base) => {
            let digits = s.subrange(2, s.len() as int);
            if digits_ok(digits, base) && digits_value(digits, base) <= i64::MAX {
                if base == 2 {
                    Some(Number::Binary(digits_value(digits, base) as i64))
                } else if base == 8 {
                    Some(Number::Octal(digits_value(digits, base) as i64))
                } else {
                    Some(Number::Hexadecimal(digits_value(digits, base) as i64))
                }
            } else {
                None
            }
        },
        None => {
            if digits_ok(s, 10) && digits_value(s, 10) <= i64::MAX {
                Some(Number::Decimal(digits_value(s, 10) as i64))
            } else {
                None
            }
        },
    }
}

/// The error reported for a substring in operand position that is not a
/// valid numeral: when it has a radix prefix and its digits are digit
/// characters but one of them is out of range for the radix, the failure is
/// `InvalidRadixDigit`; anything else is `InvalidExpression`.
pub open spec fn number_failure(s: Seq<char>) -> ParseError {
    match radix_prefix_base(s) {
        Some(base) => {
            let digits = s.subrange(2, s.len() as int);
            if digits.len() > 0 && (forall|i: int|
                0 <= i < digits.len() ==> digit_val(digits[i]) < 16) && (exists|i: int|
                0 <= i < digits.len() && digit_val(digits[i]) >= base) {
                ParseError::InvalidRadixDigit
            } else {
                ParseError::InvalidExpression
            }
        },
        None => ParseError::InvalidExpression,
    }
}

/// Whether `c` is a parenthesis character.
pub open spec fn is_paren_char(c: char) -> bool {
    c == '(' || c == ')'
}

/// The index of the first operator character of `s`, if any.
pub open spec fn first_op(s: Seq<char>) -> Option<int>
    decreases s.len(),
{
    if s.len() == 0 {
        None
    } else if char_op(s[0]) is Some {
        Some(0)
    } else {
        match first_op(s.subrange(1, s.len() as int)) {
            None => None,
            Some(i) => Some(i + 1),
        }
    }
}

/// The index of the first parenthesis character of `s`, if any.
pub open spec fn first_paren(s: Seq<char>) -> Option<int>
    decreases s.len(),
{
    if s.len() == 0 {
        None
    } else if is_paren_char(s[0]) {
        Some(0)
    } else {
        match first_paren(s.subrange(1, s.len() as int)) {
            None => None,
            Some(i) => Some(i + 1),
        }
    }
}

/// The first operator character of `s` is within bounds, is an operator
/// character, and nothing before it is one; if there is none, no character
/// of `s` is an operator character.
pub proof fn lemma_first_op_props(s: Seq<char>)
    ensures
        match first_op(s) {
            None => forall|j: int| 0 <= j < s.len() ==> char_op(s[j]) is None,
            Some(i) => 0 <= i < s.len() && char_op(s[i]) is Some && forall|j: int|
                0 <= j < i ==> char_op(s[j]) is None,
        },
    decreases s.len(),
{
    if s.len() > 0 && char_op(s[0]) is None {
        lemma_first_op_props(s.subrange(1, s.len() as int));
        assert forall|j: int| 1 <= j < s.len() implies s[j] == s.subrange(1, s.len() as int)[j
            - 1] by {}
    }
}

/// The first parenthesis character of `s` is within bounds, is a
/// parenthesis, and nothing before it is one; if there is none, no
/// character of `s` is a parenthesis.
pub proof fn lemma_first_paren_props(s: Seq<char>)
    ensures
        match first_paren(s) {
            None => forall|j: int| 0 <= j < s.len() ==> !is_paren_char(s[j]),
            Some(i) => 0 <= i < s.len() && is_paren_char(s[i]) && forall|j: int|
                0 <= j < i ==> !is_paren_char(s[j]),
        },
    decreases s.len(),
{
    if s.len() > 0 && !is_paren_char(s[0]) {
        lemma_first_paren_props(s.subrange(1, s.len() as int));
        assert forall|j: int| 1 <= j < s.len() implies s[j] == s.subrange(1, s.len() as int)[j
            - 1] by {}
    }
}

/// The token sequence produced by scanning an operator-free,
/// non-numeral substring for parentheses. Content between parenthesis
/// characters must be empty or a numeral standing immediately before a `)`;
/// `last_close` records whether the scan position directly follows a `)`,
/// in which case a trailing numeral is an illegal adjacency.
pub open spec fn spec_paren_scan(s: Seq<char>, last_close: bool) -> Result<Seq<Token>, ParseError>
    decreases s.len(),
    via spec_paren_scan_decreases
{
    match first_paren(s) {
        None => {
            if s.len() == 0 {
                Ok(Seq::empty())
            } else if last_close {
                Err(ParseError::InvalidExpression)
            } else {
                match spec_number(s) {
                    Some(n) => Ok(seq![Token::Number(n)]),
                    None => Err(number_failure(s)),
                }
            }
        },
        Some(q) => {
            if s[q] == '(' {
                if q != 0 {
                    Err(ParseError::InvalidExpression)
                } else {
                    match spec_paren_scan(s.subrange(1, s.len() as int), false) {
                        Ok(rest) => Ok(seq![Token::Paran(Paran::Open)] + rest),
                        Err(e) => Err(e),
                    }
                }
            } else {
                let seg = s.subrange(0, q);
                if seg.len() == 0 {
                    match spec_paren_scan(s.subrange(q + 1, s.len() as int), true) {
                        Ok(rest) => Ok(seq![Token::Paran(Paran::Close)] + rest),
                        Err(e) => Err(e),
                    }
                } else {
                    match spec_number(seg) {
                        Some(n) => match spec_paren_scan(s.subrange(q + 1, s.len() as int), true) {
                            Ok(rest) => Ok(
                                seq![Token::Number(n), Token::Paran(Paran::Close)] + rest,
                            ),
                            Err(e) => Err(e),
                        },
                        None => Err(number_failure(seg)),
                    }
                }
            }
        },
    }
}

#[via_fn]
proof fn spec_paren_scan_decreases(s: Seq<char>, last_close: bool) {
    lemma_first_paren_props(s);
}

/// The token sequence produced by an operator-free substring: a single
/// numeral, or a parenthesis group scan.
pub open spec fn spec_leaf(s: Seq<char>) -> Result<Seq<Token>, ParseError> {
    match spec_number(s) {
        Some(n) => Ok(seq![Token::Number(n)]),
        None => spec_paren_scan(s, false),
    }
}

/// The token sequence denoted by an expression substring: the substring is
/// split at every operator character, each operator-free segment yields its
/// tokens, and the operators stand between them in source order. An empty
/// segment before an operator is a `ConsecutiveOperators` failure.
pub open spec fn spec_tree(s: Seq<char>) -> Result<Seq<Token>, ParseError>
    decreases s.len(),
    via spec_tree_decreases
{
    match first_op(s) {
        None => spec_leaf(s),
        Some(p) => {
            if p == 0 {
                Err(ParseError::ConsecutiveOperators)
            } else {
                match spec_leaf(s.subrange(0, p)) {
                    Err(e) => Err(e),
                    Ok(left) => match spec_tree(s.subrange(p + 1, s.len() as int)) {
                        Err(e) => Err(e),
                        Ok(rest) => Ok(
                            left + seq![Token::Operator(char_op(s[p]).unwrap())] + rest,
                        ),
                    },
                }
            }
        },
    }
}

#[via_fn]
proof fn spec_tree_decreases(s: Seq<char>) {
    lemma_first_op_props(s);
}

/// Whether `c` is ASCII whitespace, which is insignificant in an
/// expression.
pub open spec fn is_ws(c: char) -> bool {
    c == ' ' || c == '\t' || c == '\n' || c == '\r'
}

/// `s` with every ASCII whitespace character removed.
pub open spec fn strip_ws(s: Seq<char>) -> Seq<char>
    decreases s.len(),
{
    if s.len() == 0 {
        Seq::empty()
    } else if is_ws(s.last()) {
        strip_ws(s.drop_last())
    } else {
        strip_ws(s.drop_last()).push(s.last())
    }
}

/// The net count of `(` minus `)` among the characters of `s`.
pub open spec fn paren_surplus(s: Seq<char>) -> int
    decreases s.len(),
{
    if s.len() == 0 {
        0
    } else {
        paren_surplus(s.drop_last()) + (if s.last() == '(' {
            1int
        } else if s.last() == ')' {
            -1int
        } else {
            0int
        })
    }
}

/// Every prefix of `s` closes no more parentheses than it opens.
pub open spec fn parens_nested(s: Seq<char>) -> bool
    decreases s.len(),
{
    if s.len() == 0 {
        true
    } else {
        parens_nested(s.drop_last()) && paren_surplus(s) >= 0
    }
}

/// Every `)` of `s` has a matching earlier `(`, and every `(` a matching
/// later `)`.
pub open spec fn parens_balanced(s: Seq<char>) -> bool {
    parens_nested(s) && paren_surplus(s) == 0
}

/// The result of parsing an expression string: whitespace is stripped, the
/// parentheses must balance, and the remainder is tokenized by
/// `spec_tree`.
pub open spec fn spec_parse(s: Seq<char>) -> Result<Seq<Token>, ParseError> {
    let t = strip_ws(s);
    if !parens_balanced(t) {
        Err(ParseError::MismatchedParentheses)
    } else {
        spec_tree(t)
    }
}

/// Matches the character of `s` at `idx` against the four operator
/// characters.
pub fn match_operator(s: &str, idx: usize) -> (r: Option<Operator>)
    requires
        idx < s@.len(),
    ensures
        r == char_op(s@[idx as int]),
{
    let c = s.get_char(idx);
    match_op_char(c)
}

/// Matches one character against the four operator characters.
fn match_op_char(c: char) -> (r: Option<Operator>)
    ensures
        r == char_op(c),
{
    if c == '+' {
        Some(Operator::Add)
    } else if c == '-' {
        Some(Operator::Subtract)
    } else if c == '*' {
        Some(Operator::Multiply)
    } else if c == '/' {
        Some(Operator::Divide)
    } else {
        None
    }
}

/// Collects the characters of `s` into a vector.
fn str_chars(s: &str) -> (v: Vec<char>)
    ensures
        v@ == s@,
{
    let n = s.unicode_len();
    let mut v: Vec<char> = Vec::new();
    let mut i: usize = 0;
    while i < n
        invariant
            i <= n,
            n == s@.len(),
            v@ == s@.subrange(0, i as int),
        decreases n - i,
    {
        v.push(s.get_char(i));
        i = i + 1;
        proof {
            assert(v@ =~= s@.subrange(0, i as int));
        }
    }
    proof {
        assert(v@ =~= s@);
    }
    v
}

/// A nested sequence stays nested when truncated.
proof fn lemma_parens_nested_prefix(s: Seq<char>, k: int)
    requires
        parens_nested(s),
        0 <= k <= s.len(),
    ensures
        parens_nested(s.subrange(0, k)),
    decreases s.len(),
{
    if k == s.len() {
        assert(s.subrange(0, k) =~= s);
    } else {
        assert(s.subrange(0, k) =~= s.drop_last().subrange(0, k));
        lemma_parens_nested_prefix(s.drop_last(), k);
    }
}

/// Checks that the parentheses of `chars` are balanced, by a scan that
/// keeps the count of currently open groups.
fn check_parens_chars(chars: &Vec<char>) -> (r: bool)
    ensures
        r == parens_balanced(chars@),
{
    let n = chars.len();
    let mut count: usize = 0;
    let mut i: usize = 0;
    while i < n
        invariant
            i <= n,
            n == chars@.len(),
            count == paren_surplus(chars@.subrange(0, i as int)),
            parens_nested(chars@.subrange(0, i as int)),
        decreases n - i,
    {
        let c = chars[i];
        proof {
            assert(chars@.subrange(0, i + 1).drop_last() =~= chars@.subrange(0, i as int));
        }
        if c == '(' {
            proof {
                lemma_paren_surplus_le_len(chars@.subrange(0, i as int));
            }
            count = count + 1;
        } else if c == ')' {
            if count == 0 {
                proof {
                    lemma_parens_nested_prefix_not(chars@, i + 1);
                }
                return false;
            }
            count = count - 1;
        }
        i = i + 1;
    }
    proof {
        assert(chars@.subrange(0, n as int) =~= chars@);
    }
    count == 0
}

/// The surplus of open parentheses never exceeds the length of the
/// sequence.
proof fn lemma_paren_surplus_le_len(s: Seq<char>)
    ensures
        paren_surplus(s) <= s.len(),
    decreases s.len(),
{
    if s.len() > 0 {
        lemma_paren_surplus_le_len(s.drop_last());
    }
}

/// A sequence with a non-nested prefix is not balanced.
proof fn lemma_parens_nested_prefix_not(s: Seq<char>, k: int)
    requires
        0 <= k <= s.len(),
        !parens_nested(s.subrange(0, k)),
    ensures
        !parens_balanced(s),
{
    if parens_nested(s) {
        lemma_parens_nested_prefix(s, k);
    }
}

/// Checks whether all parentheses of `s` are matching: every `)` closes an
/// earlier `(` and none stays open at the end.
pub fn check_parantheses(s: &str) -> (r: bool)
    ensures
        r == parens_balanced(s@),
{
    let chars = str_chars(s);
    check_parens_chars(&chars)
}

/// The value of a digit string is never negative.
proof fn lemma_digits_value_nonneg(s: Seq<char>, base: int)
    requires
        base >= 1,
    ensures
        digits_value(s, base) >= 0,
    decreases s.len(),
{
    if s.len() > 0 {
        lemma_digits_value_nonneg(s.drop_last(), base);
        assert(digits_value(s.drop_last(), base) * base >= 0) by (nonlinear_arith)
            requires
                digits_value(s.drop_last(), base) >= 0,
                base >= 1,
        ;
    }
}

/// Reading more digits never makes the value smaller.
proof fn lemma_digits_value_prefix_le(s: Seq<char>, base: int, k: int)
    requires
        base >= 1,
        0 <= k <= s.len(),
    ensures
        digits_value(s.subrange(0, k), base) <= digits_value(s, base),
    decreases s.len(),
{
    if k == s.len() {
        assert(s.subrange(0, k) =~= s);
    } else {
        assert(s.subrange(0, k) =~= s.drop_last().subrange(0, k));
        lemma_digits_value_prefix_le(s.drop_last(), base, k);
        lemma_digits_value_nonneg(s.drop_last(), base);
        assert(digits_value(s.drop_last(), base) * base >= digits_value(s.drop_last(), base))
            by (nonlinear_arith)
            requires
                digits_value(s.drop_last(), base) >= 0,
                base >= 1,
        ;
    }
}

/// Reads the digit run `chars[dlo..hi]` in `base`, returning its value when
/// every digit is in range and the value fits in an `i64`.
fn parse_digits(chars: &Vec<char>, dlo: usize, hi: usize, base: i64) -> (r: Option<i64>)
    requires
        dlo <= hi <= chars@.len(),
        2 <= base <= 16,
    ensures
        ({
            let digits = chars@.subrange(dlo as int, hi as int);
            match r {
                Some(v) => digits_ok(digits, base as int) && v == digits_value(digits, base as int),
                None => !(digits_ok(digits, base as int) && digits_value(digits, base as int)
                    <= i64::MAX),
            }
        }),
{
    let ghost digits = chars@.subrange(dlo as int, hi as int);
    if dlo == hi {
        return None;
    }
    let mut acc: i64 = 0;
    let mut i: usize = dlo;
    while i < hi
        invariant
            dlo <= i <= hi <= chars@.len(),
            2 <= base <= 16,
            digits == chars@.subrange(dlo as int, hi as int),
            acc == digits_value(chars@.subrange(dlo as int, i as int), base as int),
            acc >= 0,
            forall|j: int| dlo <= j < i ==> digit_val(chars@[j]) < base,
        decreases hi - i,
    {
        let c = chars[i];
        let u = c as u32;
        let d: i64 = if 48 <= u && u <= 57 {
            (u - 48) as i64
        } else if 97 <= u && u <= 102 {
            (u - 87) as i64
        } else if 65 <= u && u <= 70 {
            (u - 55) as i64
        } else {
            16
        };
        proof {
            assert(d == digit_val(c));
        }
        if d >= base {
            proof {
                assert(digits[i - dlo] == chars@[i as int]);
                assert(!digits_ok(digits, base as int));
            }
            return None;
        }
        proof {
            assert(chars@.subrange(dlo as int, i + 1).drop_last() =~= chars@.subrange(
                dlo as int,
                i as int,
            ));
            assert(chars@.subrange(dlo as int, i + 1).last() == chars@[i as int]);
        }
        let step = match acc.checked_mul(base) {
            Some(m) => m.checked_add(d),
            None => None,
        };
        match step {
            Some(v) => {
                acc = v;
            },
            None => {
                proof {
                    assert(acc * base >= 0) by (nonlinear_arith)
                        requires
                            acc >= 0,
                            base >= 2,
                    ;
                    let part = chars@.subrange(dlo as int, i + 1);
                    assert(digits_value(part, base as int) == acc * base + d);
                    assert(digits_value(part, base as int) > i64::MAX);
                    assert(part =~= digits.subrange(0, i + 1 - dlo));
                    lemma_digits_value_prefix_le(digits, base as int, i + 1 - dlo);
                }
                return None;
            },
        }
        i = i + 1;
    }
    proof {
        assert(chars@.subrange(dlo as int, i as int) =~= digits);
    }
    Some(acc)
}

/// Classifies a substring in operand position that failed to read as a
/// numeral, mirroring `number_failure`.
fn classify_number_range(chars: &Vec<char>, lo: usize, hi: usize) -> (e: ParseError)
    requires
        lo <= hi <= chars@.len(),
    ensures
        e == number_failure(chars@.subrange(lo as int, hi as int)),
{
    let ghost s = chars@.subrange(lo as int, hi as int);
    if hi - lo >= 2 && chars[lo] == '0' && (chars[lo + 1] == 'b' || chars[lo + 1] == 'o'
        || chars[lo + 1] == 'x') {
        let base: i64 = if chars[lo + 1] == 'b' {
            2
        } else if chars[lo + 1] == 'o' {
            8
        } else {
            16
        };
        let ghost digits = s.subrange(2, s.len() as int);
        let mut all_digitlike = true;
        let mut any_out_of_range = false;
        let mut i: usize = lo + 2;
        while i < hi
            invariant
                lo + 2 <= i <= hi <= chars@.len(),
                2 <= base <= 16,
                digits == chars@.subrange(lo + 2, hi as int),
                all_digitlike == forall|j: int| 0 <= j < i - lo - 2 ==> digit_val(digits[j]) < 16,
                any_out_of_range == exists|j: int|
                    0 <= j < i - lo - 2 && digit_val(digits[j]) >= base,
            decreases hi - i,
        {
            let c = chars[i];
            let u = c as u32;
            let d: i64 = if 48 <= u && u <= 57 {
                (u - 48) as i64
            } else if 97 <= u && u <= 102 {
                (u - 87) as i64
            } else if 65 <= u && u <= 70 {
                (u - 55) as i64
            } else {
                16
            };
            proof {
                assert(d == digit_val(c));
                assert(digits[i - lo - 2] == chars@[i as int]);
            }
            if d >= 16 {
                all_digitlike = false;
            }
            if d >= base {
                any_out_of_range = true;
            }
            i = i + 1;
        }
        proof {
            assert(digits =~= s.subrange(2, s.len() as int));
        }
        if hi - lo > 2 && all_digitlike && any_out_of_range {
            ParseError::InvalidRadixDigit
        } else {
            ParseError::InvalidExpression
        }
    } else {
        ParseError::InvalidExpression
    }
}

/// Reads `chars[lo..hi]` as a numeric literal, dispatching on the radix
/// prefix.
fn match_number_range(chars: &Vec<char>, lo: usize, hi: usize) -> (r: Option<Number>)
    requires
        lo <= hi <= chars@.len(),
    ensures
        r == spec_number(chars@.subrange(lo as int, hi as int)),
{
    let ghost s = chars@.subrange(lo as int, hi as int);
    if hi - lo >= 2 && chars[lo] == '0' && (chars[lo + 1] == 'b' || chars[lo + 1] == 'o'
        || chars[lo + 1] == 'x') {
        proof {
            assert(s.subrange(2, s.len() as int) =~= chars@.subrange(lo + 2, hi as int));
        }
        if chars[lo + 1] == 'b' {
            match parse_digits(chars, lo + 2, hi, 2) {
                Some(v) => Some(Number::Binary(v)),
                None => None,
            }
        } else if chars[lo + 1] == 'o' {
            match parse_digits(chars, lo + 2, hi, 8) {
                Some(v) => Some(Number::Octal(v)),
                None => None,
            }
        } else {
            match parse_digits(chars, lo + 2, hi, 16) {
                Some(v) => Some(Number::Hexadecimal(v)),
                None => None,
            }
        }
    } else {
        match parse_digits(chars, lo, hi, 10) {
            Some(v) => Some(Number::Decimal(v)),
            None => None,
        }
    }
}

/// Matches a whole string against the numeric literal grammar: an optional
/// radix prefix (`0b`, `0o`, `0x`) followed by digits of that radix, with
/// decimal assumed when there is no prefix.
pub fn match_number(s: &str) -> (r: Option<Number>)
    ensures
        r == spec_number(s@),
{
    let chars = str_chars(s);
    let n = chars.len();
    let r = match_number_range(&chars, 0, n);
    proof {
        assert(chars@.subrange(0, n as int) =~= s@);
    }
    r
}

/// Finds the first operator character in `chars[lo..hi]`.
fn find_first_op(chars: &Vec<char>, lo: usize, hi: usize) -> (r: Option<usize>)
    requires
        lo <= hi <= chars@.len(),
    ensures
        ({
            match first_op(chars@.subrange(lo as int, hi as int)) {
                None => r is None,
                Some(i) => r == Some((lo + i) as usize),
            }
        }),
    decreases hi - lo,
{
    let ghost s = chars@.subrange(lo as int, hi as int);
    if lo >= hi {
        None
    } else if match_op_char(chars[lo]).is_some() {
        Some(lo)
    } else {
        let r = find_first_op(chars, lo + 1, hi);
        proof {
            assert(s.subrange(1, s.len() as int) =~= chars@.subrange(lo + 1, hi as int));
        }
        r
    }
}

/// Finds the first parenthesis character in `chars[lo..hi]`.
fn find_first_paren(chars: &Vec<char>, lo: usize, hi: usize) -> (r: Option<usize>)
    requires
        lo <= hi <= chars@.len(),
    ensures
        ({
            match first_paren(chars@.subrange(lo as int, hi as int)) {
                None => r is None,
                Some(i) => r == Some((lo + i) as usize),
            }
        }),
    decreases hi - lo,
{
    let ghost s = chars@.subrange(lo as int, hi as int);
    if lo >= hi {
        None
    } else if chars[lo] == '(' || chars[lo] == ')' {
        Some(lo)
    } else {
        let r = find_first_paren(chars, lo + 1, hi);
        proof {
            assert(s.subrange(1, s.len() as int) =~= chars@.subrange(lo + 1, hi as int));
        }
        r
    }
}

/// Scans `chars[lo..hi]` (known to contain no operator that concerns this
/// level and to not be a numeral as a whole) for parenthesis groups,
/// appending the emitted tokens to `tokens`.
#[verifier::rlimit(60)]
fn paren_scan_range(
    chars: &Vec<char>,
    lo: usize,
    hi: usize,
    last_close: bool,
    tokens: Vec<Token>,
) -> (r: Result<Vec<Token>, ParseError>)
    requires
        lo <= hi <= chars@.len(),
    ensures
        ({
            match spec_paren_scan(chars@.subrange(lo as int, hi as int), last_close) {
                Ok(em) => r is Ok && r->Ok_0@ == tokens@ + em,
                Err(e) => r is Err && r->Err_0 == e,
            }
        }),
    decreases hi - lo,
{
    let ghost s = chars@.subrange(lo as int, hi as int);
    let mut tokens = tokens;
    let ghost toks0 = tokens@;
    match find_first_paren(chars, lo, hi) {
        None => {
            if lo == hi {
                proof {
                    assert(tokens@ + Seq::<Token>::empty() =~= tokens@);
                }
                Ok(tokens)
            } else if last_close {
                Err(ParseError::InvalidExpression)
            } else {
                match match_number_range(chars, lo, hi) {
                    Some(n) => {
                        tokens.push(Token::Number(n));
                        proof {
                            assert(tokens@ =~= tokens@.drop_last() + seq![
                                Token::Number(spec_number(s)->Some_0),
                            ]);
                        }
                        Ok(tokens)
                    },
                    None => Err(classify_number_range(chars, lo, hi)),
                }
            }
        },
        Some(q) => {
            proof {
                lemma_first_paren_props(s);
                assert(s[q - lo] == chars@[q as int]);
            }
            if chars[q] == '(' {
                if q != lo {
                    Err(ParseError::InvalidExpression)
                } else {
                    tokens.push(Token::Paran(Paran::Open));
                    proof {
                        assert(s.subrange(1, s.len() as int) =~= chars@.subrange(lo + 1, hi as int));
                    }
                    let r = paren_scan_range(chars, lo + 1, hi, false, tokens);
                    proof {
                        if spec_paren_scan(s, last_close) is Ok {
                            let rest = spec_paren_scan(s.subrange(1, s.len() as int), false)->Ok_0;
                            assert(r->Ok_0@ =~= toks0 + (seq![Token::Paran(Paran::Open)] + rest));
                        }
                    }
                    r
                }
            } else {
                let ghost seg = s.subrange(0, q - lo);
                proof {
                    assert(seg =~= chars@.subrange(lo as int, q as int));
                    assert(s.subrange(q - lo + 1, s.len() as int) =~= chars@.subrange(
                        q + 1,
                        hi as int,
                    ));
                }
                if q == lo {
                    tokens.push(Token::Paran(Paran::Close));
                    let r = paren_scan_range(chars, q + 1, hi, true, tokens);
                    proof {
                        if spec_paren_scan(s, last_close) is Ok {
                            let rest = spec_paren_scan(
                                s.subrange(q - lo + 1, s.len() as int),
                                true,
                            )->Ok_0;
                            assert(r->Ok_0@ =~= toks0 + (seq![Token::Paran(Paran::Close)] + rest));
                        }
                    }
                    r
                } else {
                    match match_number_range(chars, lo, q) {
                        Some(n) => {
                            tokens.push(Token::Number(n));
                            tokens.push(Token::Paran(Paran::Close));
                            let r = paren_scan_range(chars, q + 1, hi, true, tokens);
                            proof {
                                if spec_paren_scan(s, last_close) is Ok {
                                    let rest = spec_paren_scan(
                                        s.subrange(q - lo + 1, s.len() as int),
                                        true,
                                    )->Ok_0;
                                    assert(r->Ok_0@ =~= toks0 + (seq![
                                        Token::Number(n),
                                        Token::Paran(Paran::Close),
                                    ] + rest));
                                }
                            }
                            r
                        },
                        None => Err(classify_number_range(chars, lo, q)),
                    }
                }
            }
        },
    }
}

/// Tokenizes the operator-free substring `chars[lo..hi]`: a single numeral,
/// or a scan for parenthesis groups.
fn leaf_range(chars: &Vec<char>, lo: usize, hi: usize, tokens: Vec<Token>) -> (r: Result<
    Vec<Token>,
    ParseError,
>)
    requires
        lo <= hi <= chars@.len(),
    ensures
        ({
            match spec_leaf(chars@.subrange(lo as int, hi as int)) {
                Ok(em) => r is Ok && r->Ok_0@ == tokens@ + em,
                Err(e) => r is Err && r->Err_0 == e,
            }
        }),
{
    let ghost s = chars@.subrange(lo as int, hi as int);
    let mut tokens = tokens;
    match match_number_range(chars, lo, hi) {
        Some(n) => {
            tokens.push(Token::Number(n));
            proof {
                assert(tokens@ =~= tokens@.drop_last() + seq![Token::Number(n)]);
            }
            Ok(tokens)
        },
        None => paren_scan_range(chars, lo, hi, false, tokens),
    }
}

/// Recursively decomposes `chars[lo..hi]` at its operator characters,
/// appending the emitted tokens to `tokens`.
#[verifier::rlimit(60)]
fn tree_range(chars: &Vec<char>, lo: usize, hi: usize, tokens: Vec<Token>) -> (r: Result<
    Vec<Token>,
    ParseError,
>)
    requires
        lo <= hi <= chars@.len(),
    ensures
        ({
            match spec_tree(chars@.subrange(lo as int, hi as int)) {
                Ok(em) => r is Ok && r->Ok_0@ == tokens@ + em,
                Err(e) => r is Err && r->Err_0 == e,
            }
        }),
    decreases hi - lo,
{
    let ghost s = chars@.subrange(lo as int, hi as int);
    let ghost toks0 = tokens@;
    match find_first_op(chars, lo, hi) {
        None => leaf_range(chars, lo, hi, tokens),
        Some(p) => {
            proof {
                lemma_first_op_props(s);
            }
            if p == lo {
                Err(ParseError::ConsecutiveOperators)
            } else {
                proof {
                    assert(s.subrange(0, p - lo) =~= chars@.subrange(lo as int, p as int));
                    assert(s[p - lo] == chars@[p as int]);
                    assert(s.subrange(p - lo + 1, s.len() as int) =~= chars@.subrange(
                        p + 1,
                        hi as int,
                    ));
                }
                match leaf_range(chars, lo, p, tokens) {
                    Err(e) => Err(e),
                    Ok(mut toks) => {
                        let op = match match_op_char(chars[p]) {
                            Some(op) => op,
                            None => {
                                assert(false);
                                Operator::Add
                            },
                        };
                        toks.push(Token::Operator(op));
                        let r = tree_range(chars, p + 1, hi, toks);
                        proof {
                            if spec_tree(s) is Ok {
                                let left = spec_leaf(s.subrange(0, p - lo))->Ok_0;
                                let rest = spec_tree(s.subrange(p - lo + 1, s.len() as int))->Ok_0;
                                assert(r->Ok_0@ =~= toks0 + (left + seq![Token::Operator(op)]
                                    + rest));
                            }
                        }
                        r
                    },
                }
            }
        },
    }
}

/// Recursively divides an expression into sub-expressions at its operators
/// and appends the resulting tokens to the accumulator, which must be
/// present.
pub fn tree(expr: &str, tokens: Option<Vec<Token>>) -> (r: Result<Vec<Token>, ParseError>)
    requires
        tokens is Some,
    ensures
        ({
            match spec_tree(expr@) {
                Ok(em) => r is Ok && r->Ok_0@ == tokens->Some_0@ + em,
                Err(e) => r is Err && r->Err_0 == e,
            }
        }),
{
    let toks = tokens.unwrap();
    let chars = str_chars(expr);
    let n = chars.len();
    proof {
        assert(chars@.subrange(0, n as int) =~= expr@);
    }
    tree_range(&chars, 0, n, toks)
}

/// Parses an expression string into its flat token sequence: whitespace is
/// stripped, the parentheses are checked for balance, and the remainder is
/// recursively decomposed into numbers, operators, and parenthesis
/// markers.
pub fn parse(expr: &str) -> (r: Result<Vec<Token>, ParseError>)
    ensures
        ({
            match spec_parse(expr@) {
                Ok(em) => r is Ok && r->Ok_0@ == em,
                Err(e) => r is Err && r->Err_0 == e,
            }
        }),
{
    let chars = str_chars(expr);
    let n = chars.len();
    let mut stripped: Vec<char> = Vec::new();
    let mut i: usize = 0;
    while i < n
        invariant
            i <= n,
            n == chars@.len(),
            stripped@ == strip_ws(chars@.subrange(0, i as int)),
        decreases n - i,
    {
        let c = chars[i];
        proof {
            assert(chars@.subrange(0, i + 1).drop_last() =~= chars@.subrange(0, i as int));
            assert(chars@.subrange(0, i + 1).last() == chars@[i as int]);
        }
        if !(c == ' ' || c == '\t' || c == '\n' || c == '\r') {
            stripped.push(c);
        }
        i = i + 1;
    }
    proof {
        assert(chars@.subrange(0, n as int) =~= expr@);
    }
    if !check_parens_chars(&stripped) {
        return Err(ParseError::MismatchedParentheses);
    }
    let m = stripped.len();
    proof {
        assert(stripped@.subrange(0, m as int) =~= stripped@);
    }
    let r = tree_range(&stripped, 0, m, Vec::new());
    proof {
        if spec_parse(expr@) is Ok {
            assert(r->Ok_0@ =~= Seq::<Token>::empty() + spec_tree(stripped@)->Ok_0);
            assert(Seq::<Token>::empty() + spec_tree(stripped@)->Ok_0 =~= spec_tree(
                stripped@,
            )->Ok_0);
        }
    }
    r
}

} // verus!

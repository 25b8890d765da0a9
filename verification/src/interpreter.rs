//! Shunting-yard conversion of an infix token sequence to postfix order,
//! and evaluation of a postfix sequence to a 64-bit result.

use vstd::multiset::Multiset;
use vstd::prelude::*;

use crate::parser::Number;
use crate::parser::Operator;
use crate::parser::Paran;
use crate::parser::ParseError;
use crate::parser::Token;
use crate::parser::char_op;
use crate::parser::digit_val;
use crate::parser::first_op;
use crate::parser::first_paren;
use crate::parser::is_paren_char;
use crate::parser::lemma_first_op_props;
use crate::parser::lemma_first_paren_props;
use crate::parser::paren_surplus;
use crate::parser::parens_nested;
use crate::parser::parse;
use crate::parser::radix_prefix_base;
use crate::parser::spec_leaf;
use crate::parser::spec_number;
use crate::parser::spec_paren_scan;
use crate::parser::spec_parse;
use crate::parser::spec_precedence;
use crate::parser::spec_tree;
use crate::parser::strip_ws;

verus! {

/// The ways a postfix sequence can fail to evaluate. Arithmetic is checked:
/// a result outside the 64-bit signed range is reported as
/// `IntegerOverflow` rather than wrapped.
#[derive(Debug, Copy, Clone, PartialEq, Eq, Structural)]
pub enum EvalError {
    /// A division whose divisor is zero.
    DivideByZero,
    /// An operator reached with fewer than two operands on the stack.
    StackUnderflow,
    /// An addition, subtraction, multiplication, or division whose result
    /// does not fit in an `i64`.
    IntegerOverflow,
    /// A parenthesis marker in postfix position, or a terminal stack that
    /// does not hold exactly one value.
    MalformedPostfixSequence,
}

/// The plain 64-bit value a number token carries, radix tag ignored.
pub open spec fn number_value(n: Number) -> i64 {
    match n {
        Number::Binary(v) => v,
        Number::Octal(v) => v,
        Number::Decimal(v) => v,
        Number::Hexadecimal(v) => v,
    }
}

/// The net count of open-parenthesis tokens minus close-parenthesis tokens
/// in `s`.
pub open spec fn token_paren_surplus(s: Seq<Token>) -> int
    decreases s.len(),
{
    if s.len() == 0 {
        0
    } else {
        token_paren_surplus(s.drop_last()) + (match s.last() {
            Token::Paran(Paran::Open) => 1int,
            Token::Paran(Paran::Close) => -1int,
            _ => 0int,
        })
    }
}

/// Every prefix of `s` closes no more parenthesis groups than it opens:
/// each close-parenthesis token has a matching earlier open-parenthesis
/// token.
pub open spec fn token_parens_nested(s: Seq<Token>) -> bool
    decreases s.len(),
{
    if s.len() == 0 {
        true
    } else {
        token_parens_nested(s.drop_last()) && token_paren_surplus(s) >= 0
    }
}

/// The number of open-parenthesis tokens in `s`.
pub open spec fn count_opens(s: Seq<Token>) -> int
    decreases s.len(),
{
    if s.len() == 0 {
        0
    } else {
        count_opens(s.drop_last()) + (if s.last() == Token::Paran(Paran::Open) {
            1int
        } else {
            0int
        })
    }
}

/// A nested token sequence stays nested when truncated.
pub proof fn lemma_token_nested_prefix(s: Seq<Token>, k: int)
    requires
        token_parens_nested(s),
        0 <= k <= s.len(),
    ensures
        token_parens_nested(s.subrange(0, k)),
    decreases s.len(),
{
    if k == s.len() {
        assert(s.subrange(0, k) =~= s);
    } else {
        assert(s.subrange(0, k) =~= s.drop_last().subrange(0, k));
        lemma_token_nested_prefix(s.drop_last(), k);
    }
}

/// The stack and output after popping every stacked operator that binds at
/// least as tightly as `op` (all operators are left-associative, so equal
/// precedence pops too). Popping stops at an open parenthesis or at an
/// operator of lower precedence.
pub open spec fn pop_ops(op: Operator, stack: Seq<Token>, output: Seq<Token>) -> (Seq<Token>, Seq<
    Token,
>)
    decreases stack.len(),
{
    if stack.len() == 0 {
        (stack, output)
    } else {
        match stack.last() {
            Token::Operator(top) => {
                if spec_precedence(top) >= spec_precedence(op) {
                    pop_ops(op, stack.drop_last(), output.push(Token::Operator(top)))
                } else {
                    (stack, output)
                }
            },
            _ => (stack, output),
        }
    }
}

/// The stack and output after popping operators down to, and discarding,
/// the topmost open parenthesis.
pub open spec fn pop_until_open(stack: Seq<Token>, output: Seq<Token>) -> (Seq<Token>, Seq<Token>)
    decreases stack.len(),
{
    if stack.len() == 0 {
        (stack, output)
    } else if stack.last() == Token::Paran(Paran::Open) {
        (stack.drop_last(), output)
    } else {
        pop_until_open(stack.drop_last(), output.push(stack.last()))
    }
}

/// The output after the whole remaining stack is popped onto it.
pub open spec fn drain(stack: Seq<Token>, output: Seq<Token>) -> Seq<Token>
    decreases stack.len(),
{
    if stack.len() == 0 {
        output
    } else {
        drain(stack.drop_last(), output.push(stack.last()))
    }
}

/// One step of the shunting yard per input token: numbers go straight to
/// the output, operators pop tighter-binding stacked operators first, an
/// open parenthesis is stacked, and a close parenthesis pops down to its
/// matching open; the exhausted input drains the stack.
pub open spec fn shunt_rec(input: Seq<Token>, stack: Seq<Token>, output: Seq<Token>) -> Seq<Token>
    decreases input.len(),
{
    if input.len() == 0 {
        drain(stack, output)
    } else {
        let rest = input.subrange(1, input.len() as int);
        match input[0] {
            Token::Number(n) => shunt_rec(rest, stack, output.push(input[0])),
            Token::Operator(op) => {
                let (stack2, output2) = pop_ops(op, stack, output);
                shunt_rec(rest, stack2.push(Token::Operator(op)), output2)
            },
            Token::Paran(Paran::Open) => shunt_rec(rest, stack.push(input[0]), output),
            Token::Paran(Paran::Close) => {
                let (stack2, output2) = pop_until_open(stack, output);
                shunt_rec(rest, stack2, output2)
            },
        }
    }
}

/// The postfix order of an infix token sequence under the shunting-yard
/// algorithm.
pub open spec fn spec_shunt(tokens: Seq<Token>) -> Seq<Token> {
    shunt_rec(tokens, Seq::empty(), Seq::empty())
}

/// The number-and-operator tokens of `s` as a multiset; parenthesis
/// markers are left out.
pub open spec fn non_paren_multiset(s: Seq<Token>) -> Multiset<Token>
    decreases s.len(),
{
    if s.len() == 0 {
        Multiset::empty()
    } else if s.last() is Paran {
        non_paren_multiset(s.drop_last())
    } else {
        non_paren_multiset(s.drop_last()).insert(s.last())
    }
}

/// Nesting relative to `k` already-open groups: scanning `s` with `k`
/// opens on hand never closes more than is open.
spec fn nested_from(s: Seq<Token>, k: int) -> bool
    decreases s.len(),
{
    if s.len() == 0 {
        true
    } else {
        nested_from(s.drop_last(), k) && k + token_paren_surplus(s) >= 0
    }
}

/// Nesting from zero open groups is plain nesting.
proof fn lemma_nested_from_zero(s: Seq<Token>)
    ensures
        nested_from(s, 0) == token_parens_nested(s),
    decreases s.len(),
{
    if s.len() > 0 {
        lemma_nested_from_zero(s.drop_last());
    }
}

/// The count of open-parenthesis tokens is never negative.
proof fn lemma_count_opens_nonneg(s: Seq<Token>)
    ensures
        count_opens(s) >= 0,
    decreases s.len(),
{
    if s.len() > 0 {
        lemma_count_opens_nonneg(s.drop_last());
    }
}

/// The parenthesis surplus distributes over concatenation.
proof fn lemma_token_surplus_concat(a: Seq<Token>, b: Seq<Token>)
    ensures
        token_paren_surplus(a + b) == token_paren_surplus(a) + token_paren_surplus(b),
    decreases b.len(),
{
    if b.len() == 0 {
        assert(a + b =~= a);
    } else {
        assert((a + b).drop_last() =~= a + b.drop_last());
        assert((a + b).last() == b.last());
        lemma_token_surplus_concat(a, b.drop_last());
    }
}

/// Relative nesting splits over concatenation: the second part starts with
/// the opens the first part leaves behind.
proof fn lemma_nested_from_concat(a: Seq<Token>, b: Seq<Token>, k: int)
    ensures
        nested_from(a + b, k) == (nested_from(a, k) && nested_from(b, k + token_paren_surplus(a))),
    decreases b.len(),
{
    if b.len() == 0 {
        assert(a + b =~= a);
    } else {
        assert((a + b).drop_last() =~= a + b.drop_last());
        assert((a + b).last() == b.last());
        lemma_nested_from_concat(a, b.drop_last(), k);
        lemma_token_surplus_concat(a, b);
    }
}

/// The multiset of non-parenthesis tokens distributes over concatenation.
proof fn lemma_non_paren_multiset_concat(a: Seq<Token>, b: Seq<Token>)
    ensures
        non_paren_multiset(a + b) == non_paren_multiset(a).add(non_paren_multiset(b)),
    decreases b.len(),
{
    if b.len() == 0 {
        assert(a + b =~= a);
        assert(non_paren_multiset(a).add(Multiset::empty()) =~= non_paren_multiset(a));
    } else {
        assert((a + b).drop_last() =~= a + b.drop_last());
        assert((a + b).last() == b.last());
        lemma_non_paren_multiset_concat(a, b.drop_last());
        if !(b.last() is Paran) {
            assert(non_paren_multiset(a).add(
                non_paren_multiset(b.drop_last()).insert(b.last()),
            ) =~= non_paren_multiset(a).add(non_paren_multiset(b.drop_last())).insert(b.last()));
        }
    }
}

/// Popping operators ahead of a new operator moves tokens from the stack
/// to the output: nothing is created, dropped, or duplicated, and the open
/// parentheses stay put.
proof fn lemma_pop_ops_ms(op: Operator, stack: Seq<Token>, output: Seq<Token>)
    requires
        forall|j: int|
            0 <= j < stack.len() ==> (stack[j] is Operator || stack[j] == Token::Paran(
                Paran::Open,
            )),
    ensures
        ({
            let (st2, out2) = pop_ops(op, stack, output);
            &&& forall|j: int|
                0 <= j < st2.len() ==> (st2[j] is Operator || st2[j] == Token::Paran(Paran::Open))
            &&& count_opens(st2) == count_opens(stack)
            &&& out2.to_multiset().add(non_paren_multiset(st2)) == output.to_multiset().add(
                non_paren_multiset(stack),
            )
        }),
    decreases stack.len(),
{
    broadcast use vstd::seq_lib::group_to_multiset_ensures;

    if stack.len() > 0 {
        match stack.last() {
            Token::Operator(top) => {
                if spec_precedence(top) >= spec_precedence(op) {
                    lemma_pop_ops_ms(op, stack.drop_last(), output.push(Token::Operator(top)));
                    let (st2, out2) = pop_ops(op, stack, output);
                    assert(out2.to_multiset().add(non_paren_multiset(st2)) =~= output.to_multiset()
                        .add(non_paren_multiset(stack)));
                }
            },
            _ => {},
        }
    }
}

/// Popping down to the matching open parenthesis moves operators to the
/// output and discards exactly one open parenthesis, which carries no
/// number or operator.
proof fn lemma_pop_until_open_ms(stack: Seq<Token>, output: Seq<Token>)
    requires
        forall|j: int|
            0 <= j < stack.len() ==> (stack[j] is Operator || stack[j] == Token::Paran(
                Paran::Open,
            )),
        count_opens(stack) >= 1,
    ensures
        ({
            let (st2, out2) = pop_until_open(stack, output);
            &&& forall|j: int|
                0 <= j < st2.len() ==> (st2[j] is Operator || st2[j] == Token::Paran(Paran::Open))
            &&& count_opens(st2) == count_opens(stack) - 1
            &&& out2.to_multiset().add(non_paren_multiset(st2)) == output.to_multiset().add(
                non_paren_multiset(stack),
            )
        }),
    decreases stack.len(),
{
    broadcast use vstd::seq_lib::group_to_multiset_ensures;

    if stack.last() == Token::Paran(Paran::Open) {
    } else {
        lemma_pop_until_open_ms(stack.drop_last(), output.push(stack.last()));
        let (st2, out2) = pop_until_open(stack, output);
        assert(out2.to_multiset().add(non_paren_multiset(st2)) =~= output.to_multiset().add(
            non_paren_multiset(stack),
        ));
    }
}

/// Draining a stack that holds no open parenthesis appends exactly its
/// operators to the output.
proof fn lemma_drain_ms(stack: Seq<Token>, output: Seq<Token>)
    requires
        forall|j: int|
            0 <= j < stack.len() ==> (stack[j] is Operator || stack[j] == Token::Paran(
                Paran::Open,
            )),
        count_opens(stack) == 0,
    ensures
        drain(stack, output).to_multiset() == output.to_multiset().add(non_paren_multiset(stack)),
    decreases stack.len(),
{
    broadcast use vstd::seq_lib::group_to_multiset_ensures;

    if stack.len() == 0 {
        assert(output.to_multiset().add(Multiset::empty()) =~= output.to_multiset());
    } else {
        lemma_count_opens_nonneg(stack.drop_last());
        assert(!(stack.last() == Token::Paran(Paran::Open)));
        lemma_drain_ms(stack.drop_last(), output.push(stack.last()));
        assert(drain(stack, output).to_multiset() =~= output.to_multiset().add(
            non_paren_multiset(stack),
        ));
    }
}

/// The surplus and the non-parenthesis multiset of a one-token sequence.
proof fn lemma_singleton_token(t: Token)
    ensures
        token_paren_surplus(seq![t]) == (match t {
            Token::Paran(Paran::Open) => 1int,
            Token::Paran(Paran::Close) => -1int,
            _ => 0int,
        }),
        t is Paran ==> non_paren_multiset(seq![t]) == Multiset::<Token>::empty(),
        !(t is Paran) ==> non_paren_multiset(seq![t]) == Multiset::<Token>::empty().insert(t),
        forall|k: int| nested_from(seq![t], k) == (k + token_paren_surplus(seq![t]) >= 0),
{
    assert(seq![t].drop_last() =~= Seq::<Token>::empty());
    reveal_with_fuel(token_paren_surplus, 2);
    reveal_with_fuel(non_paren_multiset, 2);
    reveal_with_fuel(nested_from, 2);
}

/// One shunting step at a time, every number and operator of the input and
/// the stack ends up in the output exactly once, provided the input closes
/// no more groups than are open and closes all of them by its end.
proof fn lemma_shunt_rec_ms(input: Seq<Token>, stack: Seq<Token>, output: Seq<Token>)
    requires
        forall|j: int|
            0 <= j < stack.len() ==> (stack[j] is Operator || stack[j] == Token::Paran(
                Paran::Open,
            )),
        nested_from(input, count_opens(stack)),
        count_opens(stack) + token_paren_surplus(input) == 0,
    ensures
        shunt_rec(input, stack, output).to_multiset() == output.to_multiset().add(
            non_paren_multiset(stack),
        ).add(non_paren_multiset(input)),
    decreases input.len(),
{
    broadcast use vstd::seq_lib::group_to_multiset_ensures;

    if input.len() == 0 {
        lemma_drain_ms(stack, output);
        assert(output.to_multiset().add(non_paren_multiset(stack)).add(Multiset::empty())
            =~= output.to_multiset().add(non_paren_multiset(stack)));
    } else {
        let t = input[0];
        let rest = input.subrange(1, input.len() as int);
        assert(input =~= seq![t] + rest);
        lemma_token_surplus_concat(seq![t], rest);
        lemma_nested_from_concat(seq![t], rest, count_opens(stack));
        lemma_non_paren_multiset_concat(seq![t], rest);
        lemma_singleton_token(t);
        match t {
            Token::Number(_) => {
                lemma_shunt_rec_ms(rest, stack, output.push(t));
                assert(shunt_rec(input, stack, output).to_multiset() =~= output.to_multiset().add(
                    non_paren_multiset(stack),
                ).add(non_paren_multiset(input)));
            },
            Token::Operator(op) => {
                lemma_pop_ops_ms(op, stack, output);
                let (st2, out2) = pop_ops(op, stack, output);
                let st3 = st2.push(Token::Operator(op));
                assert(st3.drop_last() =~= st2);
                lemma_shunt_rec_ms(rest, st3, out2);
                assert(shunt_rec(input, stack, output).to_multiset() =~= output.to_multiset().add(
                    non_paren_multiset(stack),
                ).add(non_paren_multiset(input)));
            },
            Token::Paran(Paran::Open) => {
                let st3 = stack.push(t);
                assert(st3.drop_last() =~= stack);
                lemma_shunt_rec_ms(rest, st3, output);
                assert(shunt_rec(input, stack, output).to_multiset() =~= output.to_multiset().add(
                    non_paren_multiset(stack),
                ).add(non_paren_multiset(input)));
            },
            Token::Paran(Paran::Close) => {
                assert(nested_from(seq![t], count_opens(stack)));
                assert(count_opens(stack) >= 1);
                lemma_pop_until_open_ms(stack, output);
                let (st2, out2) = pop_until_open(stack, output);
                lemma_shunt_rec_ms(rest, st2, out2);
                assert(shunt_rec(input, stack, output).to_multiset() =~= output.to_multiset().add(
                    non_paren_multiset(stack),
                ).add(non_paren_multiset(input)));
            },
        }
    }
}

/// Shunting conserves the work: the postfix sequence of a balanced infix
/// sequence holds every number and operator token of the input exactly
/// once, and the parenthesis markers are consumed and dropped.
pub proof fn lemma_shunt_conserves_tokens(tokens: Seq<Token>)
    requires
        token_parens_nested(tokens),
        token_paren_surplus(tokens) == 0,
    ensures
        spec_shunt(tokens).to_multiset() == non_paren_multiset(tokens),
{
    broadcast use vstd::seq_lib::group_to_multiset_ensures;

    lemma_nested_from_zero(tokens);
    lemma_shunt_rec_ms(tokens, Seq::empty(), Seq::empty());
    assert(Seq::<Token>::empty().to_multiset() =~= Multiset::<Token>::empty());
    assert(Multiset::<Token>::empty().add(Multiset::empty()).add(non_paren_multiset(tokens))
        =~= non_paren_multiset(tokens));
}

/// A parenthesis marker never counts in the non-parenthesis multiset.
proof fn lemma_non_paren_multiset_no_paren(s: Seq<Token>, t: Token)
    requires
        t is Paran,
    ensures
        non_paren_multiset(s).count(t) == 0,
    decreases s.len(),
{
    if s.len() > 0 {
        lemma_non_paren_multiset_no_paren(s.drop_last(), t);
    }
}

/// No parenthesis marker reaches the postfix sequence of a balanced infix
/// sequence: shunting consumes them all.
pub proof fn lemma_shunt_drops_parens(tokens: Seq<Token>)
    requires
        token_parens_nested(tokens),
        token_paren_surplus(tokens) == 0,
    ensures
        forall|i: int| 0 <= i < spec_shunt(tokens).len() ==> !(spec_shunt(tokens)[i] is Paran),
{
    broadcast use vstd::seq_lib::group_to_multiset_ensures;

    lemma_shunt_conserves_tokens(tokens);
    assert forall|i: int|
        0 <= i < spec_shunt(tokens).len() implies !(spec_shunt(tokens)[i] is Paran) by {
        let t = spec_shunt(tokens)[i];
        if t is Paran {
            assert(spec_shunt(tokens).contains(t));
            lemma_non_paren_multiset_no_paren(tokens, t);
        }
    }
}

/// Whether the stack's topmost token is an open parenthesis.
fn top_is_open(stack: &Vec<Token>) -> (r: bool)
    requires
        stack@.len() > 0,
    ensures
        r == (stack@.last() == Token::Paran(Paran::Open)),
{
    let n = stack.len();
    stack[n - 1] == Token::Paran(Paran::Open)
}

/// Whether the stack's topmost token is an operator that must be popped
/// before `op` is pushed.
fn top_pops_before(op: Operator, stack: &Vec<Token>) -> (r: bool)
    ensures
        r == (stack@.len() > 0 && match stack@.last() {
            Token::Operator(top) => spec_precedence(top) >= spec_precedence(op),
            _ => false,
        }),
{
    let n = stack.len();
    if n == 0 {
        return false;
    }
    match stack[n - 1] {
        Token::Operator(top) => top.precedence() >= op.precedence(),
        _ => false,
    }
}

/// Reorders a well-formed infix token sequence into postfix order with the
/// shunting-yard algorithm. Numbers and operators all reach the output;
/// parenthesis markers are consumed. The input must be nested: shunting a
/// close parenthesis with no matching open would pop past the bottom of
/// the operator stack.
pub fn shunt(tokens: Vec<Token>) -> (r: Vec<Token>)
    requires
        token_parens_nested(tokens@),
    ensures
        r@ == spec_shunt(tokens@),
{
    let n = tokens.len();
    let mut output: Vec<Token> = Vec::new();
    let mut stack: Vec<Token> = Vec::new();
    let mut i: usize = 0;
    proof {
        assert(tokens@.subrange(0, n as int) =~= tokens@);
        assert(tokens@.subrange(0, 0) =~= Seq::<Token>::empty());
    }
    while i < n
        invariant
            i <= n,
            n == tokens@.len(),
            token_parens_nested(tokens@),
            shunt_rec(tokens@.subrange(i as int, n as int), stack@, output@) == spec_shunt(
                tokens@,
            ),
            count_opens(stack@) == token_paren_surplus(tokens@.subrange(0, i as int)),
            forall|j: int|
                0 <= j < stack@.len() ==> (stack@[j] is Operator || stack@[j] == Token::Paran(
                    Paran::Open,
                )),
        decreases n - i,
    {
        let ghost remaining = tokens@.subrange(i as int, n as int);
        let ghost st0 = stack@;
        let ghost out0 = output@;
        proof {
            assert(remaining[0] == tokens@[i as int]);
            assert(remaining.subrange(1, remaining.len() as int) =~= tokens@.subrange(
                i + 1,
                n as int,
            ));
            assert(tokens@.subrange(0, i + 1).drop_last() =~= tokens@.subrange(0, i as int));
            assert(tokens@.subrange(0, i + 1).last() == tokens@[i as int]);
        }
        let token = tokens[i];
        match token {
            Token::Number(_) => {
                output.push(token);
            },
            Token::Operator(op1) => {
                while top_pops_before(op1, &stack)
                    invariant
                        pop_ops(op1, stack@, output@) == pop_ops(op1, st0, out0),
                        count_opens(stack@) == count_opens(st0),
                        forall|j: int|
                            0 <= j < stack@.len() ==> (stack@[j] is Operator || stack@[j]
                                == Token::Paran(Paran::Open)),
                    decreases stack@.len(),
                {
                    let ghost st_b = stack@;
                    let top = stack.pop().unwrap();
                    output.push(top);
                    proof {
                        assert(stack@ =~= st_b.drop_last());
                    }
                }
                proof {
                    assert((stack@, output@) == pop_ops(op1, st0, out0));
                }
                stack.push(Token::Operator(op1));
                proof {
                    assert(stack@.drop_last() =~= pop_ops(op1, st0, out0).0);
                }
            },
            Token::Paran(Paran::Open) => {
                stack.push(token);
                proof {
                    assert(stack@.drop_last() =~= st0);
                }
            },
            Token::Paran(Paran::Close) => {
                proof {
                    lemma_token_nested_prefix(tokens@, i + 1);
                    assert(token_paren_surplus(tokens@.subrange(0, i + 1))
                        == token_paren_surplus(tokens@.subrange(0, i as int)) - 1);
                }
                while !top_is_open(&stack)
                    invariant
                        count_opens(stack@) >= 1,
                        stack@.len() > 0,
                        pop_until_open(stack@, output@) == pop_until_open(st0, out0),
                        count_opens(stack@) == count_opens(st0),
                        forall|j: int|
                            0 <= j < stack@.len() ==> (stack@[j] is Operator || stack@[j]
                                == Token::Paran(Paran::Open)),
                    decreases stack@.len(),
                {
                    let ghost st_b = stack@;
                    let top = stack.pop().unwrap();
                    output.push(top);
                    proof {
                        assert(stack@ =~= st_b.drop_last());
                        assert(count_opens(st_b) == count_opens(stack@));
                    }
                }
                let ghost st_l = stack@;
                let _ = stack.pop();
                proof {
                    assert(stack@ =~= st_l.drop_last());
                    assert((stack@, output@) == pop_until_open(st0, out0));
                    assert(count_opens(stack@) == count_opens(st_l) - 1);
                }
            },
        }
        i = i + 1;
    }
    proof {
        assert(tokens@.subrange(n as int, n as int) =~= Seq::<Token>::empty());
    }
    let ghost st_e = stack@;
    let ghost out_e = output@;
    while stack.len() > 0
        invariant
            drain(stack@, output@) == drain(st_e, out_e),
        decreases stack@.len(),
    {
        let ghost st_b = stack@;
        let top = stack.pop().unwrap();
        output.push(top);
        proof {
            assert(stack@ =~= st_b.drop_last());
        }
    }
    output
}

/// Truncating signed division, the semantics of the `/` operator on
/// machine integers: the quotient is rounded toward zero.
pub open spec fn trunc_div(a: int, b: int) -> int {
    if a == 0 {
        0
    } else if a > 0 && b > 0 {
        a / b
    } else if a < 0 && b < 0 {
        (a * -1) / (b * -1)
    } else if a < 0 {
        ((a * -1) / b) * -1
    } else {
        (a / (b * -1)) * -1
    }
}

/// The result of one operator applied to the operands `a` and `b` (in that
/// order) with checked 64-bit signed arithmetic: a zero divisor is
/// `DivideByZero`, and a result outside the `i64` range is
/// `IntegerOverflow`.
pub open spec fn apply_op(op: Operator, a: i64, b: i64) -> Result<i64, EvalError> {
    match op {
        Operator::Add => {
            if a + b > i64::MAX || a + b < i64::MIN {
                Err(EvalError::IntegerOverflow)
            } else {
                Ok((a + b) as i64)
            }
        },
        Operator::Subtract => {
            if a - b > i64::MAX || a - b < i64::MIN {
                Err(EvalError::IntegerOverflow)
            } else {
                Ok((a - b) as i64)
            }
        },
        Operator::Multiply => {
            if a * b > i64::MAX || a * b < i64::MIN {
                Err(EvalError::IntegerOverflow)
            } else {
                Ok((a * b) as i64)
            }
        },
        Operator::Divide => {
            if b == 0 {
                Err(EvalError::DivideByZero)
            } else if trunc_div(a as int, b as int) > i64::MAX || trunc_div(a as int, b as int)
                < i64::MIN {
                Err(EvalError::IntegerOverflow)
            } else {
                Ok(trunc_div(a as int, b as int) as i64)
            }
        },
    }
}

/// The outcome of evaluating a postfix token sequence against a value
/// stack: a number pushes its value, an operator pops the right operand
/// `b`, then the left operand `a`, and pushes `a OP b`; at the end exactly
/// one value must remain.
pub open spec fn interp_rec(tokens: Seq<Token>, stack: Seq<i64>) -> Result<i64, EvalError>
    decreases tokens.len(),
{
    if tokens.len() == 0 {
        if stack.len() == 1 {
            Ok(stack[0])
        } else {
            Err(EvalError::MalformedPostfixSequence)
        }
    } else {
        let rest = tokens.subrange(1, tokens.len() as int);
        match tokens[0] {
            Token::Number(n) => interp_rec(rest, stack.push(number_value(n))),
            Token::Operator(op) => {
                if stack.len() < 2 {
                    Err(EvalError::StackUnderflow)
                } else {
                    let b = stack.last();
                    let a = stack[stack.len() - 2];
                    match apply_op(op, a, b) {
                        Err(e) => Err(e),
                        Ok(v) => interp_rec(rest, stack.drop_last().drop_last().push(v)),
                    }
                }
            },
            Token::Paran(_) => Err(EvalError::MalformedPostfixSequence),
        }
    }
}

/// The outcome of evaluating a postfix token sequence from an empty stack.
pub open spec fn spec_interpret(tokens: Seq<Token>) -> Result<i64, EvalError> {
    interp_rec(tokens, Seq::empty())
}

/// Evaluates a postfix token sequence to a single 64-bit value over a
/// value stack. A number pushes its value; an operator pops the right
/// operand, then the left, and pushes the checked result. Exactly one
/// value must remain at the end. Every failure is a reported error, never
/// a panic: a zero divisor, an out-of-range result, an operator with fewer
/// than two operands, a parenthesis marker in the input, or a terminal
/// stack of the wrong size.
pub fn interpret(tokens: Vec<Token>) -> (r: Result<i64, EvalError>)
    ensures
        r == spec_interpret(tokens@),
{
    let n = tokens.len();
    let mut stack: Vec<i64> = Vec::new();
    let mut i: usize = 0;
    proof {
        assert(tokens@.subrange(0, n as int) =~= tokens@);
    }
    while i < n
        invariant
            i <= n,
            n == tokens@.len(),
            interp_rec(tokens@.subrange(i as int, n as int), stack@) == spec_interpret(tokens@),
        decreases n - i,
    {
        let ghost remaining = tokens@.subrange(i as int, n as int);
        let ghost st0 = stack@;
        proof {
            assert(remaining[0] == tokens@[i as int]);
            assert(remaining.subrange(1, remaining.len() as int) =~= tokens@.subrange(
                i + 1,
                n as int,
            ));
        }
        let token = tokens[i];
        match token {
            Token::Number(num) => {
                let v = match num {
                    Number::Binary(v) => v,
                    Number::Octal(v) => v,
                    Number::Decimal(v) => v,
                    Number::Hexadecimal(v) => v,
                };
                stack.push(v);
            },
            Token::Operator(op) => {
                if stack.len() < 2 {
                    return Err(EvalError::StackUnderflow);
                }
                let b = stack.pop().unwrap();
                let a = stack.pop().unwrap();
                proof {
                    assert(stack@ =~= st0.drop_last().drop_last());
                }
                let res = match op {
                    Operator::Add => a.checked_add(b),
                    Operator::Subtract => a.checked_sub(b),
                    Operator::Multiply => a.checked_mul(b),
                    Operator::Divide => {
                        if b == 0 {
                            return Err(EvalError::DivideByZero);
                        }
                        a.checked_div(b)
                    },
                };
                match res {
                    Some(v) => stack.push(v),
                    None => {
                        return Err(EvalError::IntegerOverflow);
                    },
                }
            },
            Token::Paran(_) => {
                return Err(EvalError::MalformedPostfixSequence);
            },
        }
        i = i + 1;
    }
    proof {
        assert(tokens@.subrange(n as int, n as int) =~= Seq::<Token>::empty());
    }
    if stack.len() == 1 {
        Ok(stack[0])
    } else {
        Err(EvalError::MalformedPostfixSequence)
    }
}

/// The parenthesis characters of `s` in order, `(` as `true` and `)` as
/// `false`.
spec fn pproj_chars(s: Seq<char>) -> Seq<bool>
    decreases s.len(),
{
    if s.len() == 0 {
        Seq::empty()
    } else {
        pproj_chars(s.drop_last()) + (if s.last() == '(' {
            seq![true]
        } else if s.last() == ')' {
            seq![false]
        } else {
            Seq::empty()
        })
    }
}

/// The parenthesis tokens of `s` in order, open as `true` and close as
/// `false`.
spec fn pproj_toks(s: Seq<Token>) -> Seq<bool>
    decreases s.len(),
{
    if s.len() == 0 {
        Seq::empty()
    } else {
        pproj_toks(s.drop_last()) + (match s.last() {
            Token::Paran(Paran::Open) => seq![true],
            Token::Paran(Paran::Close) => seq![false],
            _ => Seq::<bool>::empty(),
        })
    }
}

/// The net count of opens minus closes in a parenthesis projection.
spec fn bsurplus(p: Seq<bool>) -> int
    decreases p.len(),
{
    if p.len() == 0 {
        0
    } else {
        bsurplus(p.drop_last()) + (if p.last() {
            1int
        } else {
            -1int
        })
    }
}

/// Every prefix of a parenthesis projection has a non-negative surplus.
spec fn bnested(p: Seq<bool>) -> bool
    decreases p.len(),
{
    if p.len() == 0 {
        true
    } else {
        bnested(p.drop_last()) && bsurplus(p) >= 0
    }
}

/// The character projection distributes over concatenation.
proof fn lemma_pproj_chars_concat(a: Seq<char>, b: Seq<char>)
    ensures
        pproj_chars(a + b) == pproj_chars(a) + pproj_chars(b),
    decreases b.len(),
{
    if b.len() == 0 {
        assert(a + b =~= a);
        assert(pproj_chars(a) + Seq::<bool>::empty() =~= pproj_chars(a));
    } else {
        assert((a + b).drop_last() =~= a + b.drop_last());
        assert((a + b).last() == b.last());
        lemma_pproj_chars_concat(a, b.drop_last());
        assert(pproj_chars(a) + pproj_chars(b) =~= (pproj_chars(a) + pproj_chars(b.drop_last()))
            + (if b.last() == '(' {
            seq![true]
        } else if b.last() == ')' {
            seq![false]
        } else {
            Seq::<bool>::empty()
        }));
    }
}

/// The token projection distributes over concatenation.
proof fn lemma_pproj_toks_concat(a: Seq<Token>, b: Seq<Token>)
    ensures
        pproj_toks(a + b) == pproj_toks(a) + pproj_toks(b),
    decreases b.len(),
{
    if b.len() == 0 {
        assert(a + b =~= a);
        assert(pproj_toks(a) + Seq::<bool>::empty() =~= pproj_toks(a));
    } else {
        assert((a + b).drop_last() =~= a + b.drop_last());
        assert((a + b).last() == b.last());
        lemma_pproj_toks_concat(a, b.drop_last());
        assert(pproj_toks(a) + pproj_toks(b) =~= (pproj_toks(a) + pproj_toks(b.drop_last())) + (
        match b.last() {
            Token::Paran(Paran::Open) => seq![true],
            Token::Paran(Paran::Close) => seq![false],
            _ => Seq::<bool>::empty(),
        }));
    }
}

/// Nesting of a character sequence coincides with nesting of its
/// parenthesis projection.
proof fn lemma_chars_nested_iff(s: Seq<char>)
    ensures
        bsurplus(pproj_chars(s)) == paren_surplus(s),
        parens_nested(s) <==> bnested(pproj_chars(s)),
    decreases s.len(),
{
    if s.len() > 0 {
        lemma_chars_nested_iff(s.drop_last());
        let p = pproj_chars(s.drop_last());
        if s.last() == '(' || s.last() == ')' {
            let b = s.last() == '(';
            assert(pproj_chars(s) =~= p + seq![b]);
            assert((p + seq![b]).drop_last() =~= p);
        }
    }
}

/// Nesting of a token sequence coincides with nesting of its parenthesis
/// projection.
proof fn lemma_toks_nested_iff(s: Seq<Token>)
    ensures
        bsurplus(pproj_toks(s)) == token_paren_surplus(s),
        token_parens_nested(s) <==> bnested(pproj_toks(s)),
    decreases s.len(),
{
    if s.len() > 0 {
        lemma_toks_nested_iff(s.drop_last());
        let p = pproj_toks(s.drop_last());
        if s.last() == Token::Paran(Paran::Open) || s.last() == Token::Paran(Paran::Close) {
            let b = s.last() == Token::Paran(Paran::Open);
            assert(pproj_toks(s) =~= p + seq![b]);
            assert((p + seq![b]).drop_last() =~= p);
        }
    }
}

/// A sequence without parenthesis characters projects to nothing.
proof fn lemma_no_paren_proj(s: Seq<char>)
    requires
        forall|i: int| 0 <= i < s.len() ==> !is_paren_char(s[i]),
    ensures
        pproj_chars(s) == Seq::<bool>::empty(),
    decreases s.len(),
{
    if s.len() > 0 {
        lemma_no_paren_proj(s.drop_last());
        assert(pproj_chars(s) =~= Seq::<bool>::empty());
    }
}

/// A well-formed numeral contains no parenthesis character.
proof fn lemma_number_no_paren(s: Seq<char>)
    requires
        spec_number(s) is Some,
    ensures
        forall|i: int| 0 <= i < s.len() ==> !is_paren_char(s[i]),
{
    assert forall|i: int| 0 <= i < s.len() implies !is_paren_char(s[i]) by {
        match radix_prefix_base(s) {
            Some(base) => {
                if i >= 2 {
                    let digits = s.subrange(2, s.len() as int);
                    assert(digits[i - 2] == s[i]);
                    assert(digit_val(s[i]) < base);
                }
            },
            None => {
                assert(digit_val(s[i]) < 10);
            },
        }
    }
}

/// A successful parenthesis scan emits exactly the parenthesis characters
/// of its input, in order.
proof fn lemma_paren_scan_proj(s: Seq<char>, last_close: bool)
    ensures
        spec_paren_scan(s, last_close) is Ok ==> pproj_toks(
            spec_paren_scan(s, last_close)->Ok_0,
        ) == pproj_chars(s),
    decreases s.len(),
{
    if spec_paren_scan(s, last_close) is Ok {
        reveal_with_fuel(pproj_toks, 3);
        reveal_with_fuel(pproj_chars, 3);
        let em = spec_paren_scan(s, last_close)->Ok_0;
        lemma_first_paren_props(s);
        match first_paren(s) {
            None => {
                lemma_no_paren_proj(s);
                if s.len() == 0 {
                } else {
                    let n = spec_number(s)->Some_0;
                    assert(em =~= seq![Token::Number(n)]);
                    assert(seq![Token::Number(n)].drop_last() =~= Seq::<Token>::empty());
                    assert(pproj_toks(em) =~= Seq::<bool>::empty());
                }
            },
            Some(q) => {
                let rest_chars = s.subrange(q + 1, s.len() as int);
                if s[q] == '(' {
                    let rest = spec_paren_scan(s.subrange(1, s.len() as int), false)->Ok_0;
                    lemma_paren_scan_proj(s.subrange(1, s.len() as int), false);
                    assert(s =~= seq![s[0]] + s.subrange(1, s.len() as int));
                    lemma_pproj_chars_concat(seq![s[0]], s.subrange(1, s.len() as int));
                    assert(seq![s[0]].drop_last() =~= Seq::<char>::empty());
                    assert(pproj_chars(seq![s[0]]) =~= seq![true]);
                    lemma_pproj_toks_concat(seq![Token::Paran(Paran::Open)], rest);
                    assert(seq![Token::Paran(Paran::Open)].drop_last() =~= Seq::<Token>::empty());
                    assert(pproj_toks(seq![Token::Paran(Paran::Open)]) =~= seq![true]);
                    assert(pproj_toks(em) =~= pproj_chars(s));
                } else {
                    let seg = s.subrange(0, q);
                    let rest = spec_paren_scan(rest_chars, true)->Ok_0;
                    lemma_paren_scan_proj(rest_chars, true);
                    assert(s =~= seg + seq![s[q]] + rest_chars);
                    lemma_pproj_chars_concat(seg + seq![s[q]], rest_chars);
                    lemma_pproj_chars_concat(seg, seq![s[q]]);
                    lemma_no_paren_proj(seg);
                    assert(seq![s[q]].drop_last() =~= Seq::<char>::empty());
                    assert(pproj_chars(seq![s[q]]) =~= seq![false]);
                    if seg.len() == 0 {
                        lemma_pproj_toks_concat(seq![Token::Paran(Paran::Close)], rest);
                        assert(seq![Token::Paran(Paran::Close)].drop_last() =~= Seq::<
                            Token,
                        >::empty());
                        assert(pproj_toks(seq![Token::Paran(Paran::Close)]) =~= seq![false]);
                        assert(pproj_toks(em) =~= pproj_chars(s));
                    } else {
                        let n = spec_number(seg)->Some_0;
                        let pair = seq![Token::Number(n), Token::Paran(Paran::Close)];
                        lemma_pproj_toks_concat(pair, rest);
                        assert(pair.drop_last() =~= seq![Token::Number(n)]);
                        assert(seq![Token::Number(n)].drop_last() =~= Seq::<Token>::empty());
                        assert(pproj_toks(pair) =~= seq![false]);
                        assert(pproj_toks(em) =~= pproj_chars(s));
                    }
                }
            },
        }
    }
}

/// A successful leaf emits exactly the parenthesis characters of its
/// input, in order.
proof fn lemma_leaf_proj(s: Seq<char>)
    ensures
        spec_leaf(s) is Ok ==> pproj_toks(spec_leaf(s)->Ok_0) == pproj_chars(s),
{
    if spec_leaf(s) is Ok {
        reveal_with_fuel(pproj_toks, 3);
        match spec_number(s) {
            Some(n) => {
                lemma_number_no_paren(s);
                lemma_no_paren_proj(s);
                assert(seq![Token::Number(n)].drop_last() =~= Seq::<Token>::empty());
                assert(pproj_toks(seq![Token::Number(n)]) =~= Seq::<bool>::empty());
            },
            None => {
                lemma_paren_scan_proj(s, false);
            },
        }
    }
}

/// A successful tree decomposition emits exactly the parenthesis
/// characters of its input, in order.
#[verifier::rlimit(60)]
proof fn lemma_tree_proj(s: Seq<char>)
    ensures
        spec_tree(s) is Ok ==> pproj_toks(spec_tree(s)->Ok_0) == pproj_chars(s),
    decreases s.len(),
{
    if spec_tree(s) is Ok {
        reveal_with_fuel(pproj_toks, 3);
        reveal_with_fuel(pproj_chars, 3);
        lemma_first_op_props(s);
        match first_op(s) {
            None => {
                lemma_leaf_proj(s);
            },
            Some(p) => {
                let seg = s.subrange(0, p);
                let rest_chars = s.subrange(p + 1, s.len() as int);
                let left = spec_leaf(seg)->Ok_0;
                let rest = spec_tree(rest_chars)->Ok_0;
                let op_tok = seq![Token::Operator(char_op(s[p]).unwrap())];
                lemma_leaf_proj(seg);
                lemma_tree_proj(rest_chars);
                assert(s =~= seg + seq![s[p]] + rest_chars);
                lemma_pproj_chars_concat(seg + seq![s[p]], rest_chars);
                lemma_pproj_chars_concat(seg, seq![s[p]]);
                assert(seq![s[p]].drop_last() =~= Seq::<char>::empty());
                assert(pproj_chars(seq![s[p]]) =~= Seq::<bool>::empty());
                lemma_pproj_toks_concat(left + op_tok, rest);
                lemma_pproj_toks_concat(left, op_tok);
                assert(op_tok.drop_last() =~= Seq::<Token>::empty());
                assert(pproj_toks(op_tok) =~= Seq::<bool>::empty());
                assert(pproj_toks(spec_tree(s)->Ok_0) =~= pproj_chars(s));
            },
        }
    }
}

/// The token sequence of a successfully parsed expression is nested: every
/// close-parenthesis token has a matching earlier open, so it may be
/// handed to `shunt`.
pub proof fn lemma_parse_parens_nested(s: Seq<char>)
    ensures
        spec_parse(s) is Ok ==> token_parens_nested(spec_parse(s)->Ok_0),
{
    if spec_parse(s) is Ok {
        let t = strip_ws(s);
        lemma_tree_proj(t);
        lemma_chars_nested_iff(t);
        lemma_toks_nested_iff(spec_parse(s)->Ok_0);
    }
}

/// A failure of the whole pipeline: either the expression string was
/// rejected by the parser, or the postfix evaluation failed.
#[derive(Debug, Copy, Clone, PartialEq, Eq, Structural)]
pub enum CalcError {
    Parse(ParseError),
    Eval(EvalError),
}

/// The outcome of the whole pipeline on an expression string: parse,
/// shunt, interpret.
pub open spec fn spec_evaluate(s: Seq<char>) -> Result<i64, CalcError> {
    match spec_parse(s) {
        Err(e) => Err(CalcError::Parse(e)),
        Ok(tokens) => match spec_interpret(spec_shunt(tokens)) {
            Ok(v) => Ok(v),
            Err(e) => Err(CalcError::Eval(e)),
        },
    }
}

/// Evaluates an expression string to a 64-bit value by running the whole
/// pipeline: parse to infix tokens, shunt to postfix order, interpret over
/// a value stack.
pub fn evaluate(expr: &str) -> (r: Result<i64, CalcError>)
    ensures
        r == spec_evaluate(expr@),
{
    match parse(expr) {
        Err(e) => Err(CalcError::Parse(e)),
        Ok(tokens) => {
            proof {
                lemma_parse_parens_nested(expr@);
            }
            let postfix = shunt(tokens);
            match interpret(postfix) {
                Ok(v) => Ok(v),
                Err(e) => Err(CalcError::Eval(e)),
            }
        },
    }
}

/// Evaluation is deterministic: the outcome of the pipeline is a function
/// of the expression string alone, so two evaluations of the same string
/// agree. Together with the contract of `evaluate`, whose result always
/// equals `spec_evaluate` of its input, repeated calls return the same
/// value.
pub proof fn lemma_evaluate_deterministic(
    expr: Seq<char>,
    r1: Result<i64, CalcError>,
    r2: Result<i64, CalcError>,
)
    requires
        r1 == spec_evaluate(expr),
        r2 == spec_evaluate(expr),
    ensures
        r1 == r2,
{
}

} // verus!

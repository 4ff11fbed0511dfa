//! Infix-to-postfix conversion and postfix evaluation.
//!
//! `to_rpn` runs the shunting-yard algorithm over a token sequence and
//! `eval_rpn` evaluates the resulting postfix sequence against a value
//! stack of exact rational numbers.

use crate::error::CalcError;
use crate::number::Number;
use crate::number::add_pair;
use crate::number::div_pair;
use crate::number::fits_pair;
use crate::number::mul_pair;
use crate::number::spec_try_pow;
use crate::number::sub_pair;
use crate::parser::Token;
use crate::parser::paren_balance;
use crate::parser::parens_ok;
use crate::parser::prec;
use crate::parser::wf_tokens;
use std::collections::VecDeque;
use vstd::prelude::*;

verus! {

/// What the shunting-yard conversion yields: the postfix sequence, or
/// an unmatched-parenthesis failure.
pub enum ShuntOut {
    Out { toks: Seq<Token> },
    Unmatched,
}

/// No parenthesis token occurs in the sequence.
pub open spec fn paren_free(s: Seq<Token>) -> bool {
    forall|i: int|
        0 <= i < s.len() ==> !((#[trigger] s[i]) is LParen) && !(s[i] is RParen)
}

/// No closing parenthesis occurs in the sequence (the operator stack
/// may hold opening parentheses, never closing ones).
pub open spec fn no_rparen(s: Seq<Token>) -> bool {
    forall|i: int| 0 <= i < s.len() ==> !((#[trigger] s[i]) is RParen)
}

/// The scan a closing parenthesis triggers: operators move from the
/// stack to the output until an opening parenthesis is popped and
/// discarded. `None` reports an unmatched parenthesis: the stack is
/// empty before the scan begins, or empties on a popped operator
/// before an opening parenthesis is found.
pub open spec fn spec_close(st: Seq<Token>, out: Seq<Token>) -> Option<(Seq<Token>, Seq<Token>)>
    decreases st.len(),
{
    if st.len() == 0 {
        None
    } else if st.last() == Token::LParen {
        Some((st.drop_last(), out))
    } else if st.len() == 1 {
        None
    } else {
        spec_close(st.drop_last(), out.push(st.last()))
    }
}

/// Pops every stacked operator whose precedence is at least `p` into
/// the output.
pub open spec fn spec_popge(st: Seq<Token>, out: Seq<Token>, p: int) -> (Seq<Token>, Seq<Token>)
    decreases st.len(),
{
    if st.len() > 0 && prec(st.last()) >= p {
        spec_popge(st.drop_last(), out.push(st.last()), p)
    } else {
        (st, out)
    }
}

/// Moves the remaining operators into the output once the input is
/// exhausted; a leftover opening parenthesis is an unmatched one.
pub open spec fn spec_drain(st: Seq<Token>, out: Seq<Token>) -> ShuntOut
    decreases st.len(),
{
    if st.len() == 0 {
        ShuntOut::Out { toks: out }
    } else if st.last() == Token::LParen {
        ShuntOut::Unmatched
    } else {
        spec_drain(st.drop_last(), out.push(st.last()))
    }
}

/// The shunting-yard scan from position `i` with the given output and
/// operator stack: numbers go straight to the output; opening
/// parentheses, unary minus and power are pushed; a closing parenthesis
/// unwinds to the matching open; a binary operator first pops every
/// operator of precedence at least its own, which makes `+ - * /`
/// left-associative and, because power is pushed without comparison,
/// makes `^` right-associative.
pub open spec fn spec_shunt(toks: Seq<Token>, i: int, out: Seq<Token>, st: Seq<Token>) -> ShuntOut
    decreases toks.len() - i,
{
    if i < 0 || i >= toks.len() {
        spec_drain(st, out)
    } else {
        match toks[i] {
            Token::Number(_) => spec_shunt(toks, i + 1, out.push(toks[i]), st),
            Token::LParen => spec_shunt(toks, i + 1, out, st.push(toks[i])),
            Token::UnaryMinus => spec_shunt(toks, i + 1, out, st.push(toks[i])),
            Token::Power => spec_shunt(toks, i + 1, out, st.push(toks[i])),
            Token::RParen => match spec_close(st, out) {
                None => ShuntOut::Unmatched,
                Some(p) => spec_shunt(toks, i + 1, p.1, p.0),
            },
            _ => {
                let r = spec_popge(st, out, prec(toks[i]));
                spec_shunt(toks, i + 1, r.1, r.0.push(toks[i]))
            },
        }
    }
}

/// The full conversion of a token sequence to postfix order.
pub open spec fn spec_to_rpn(toks: Seq<Token>) -> ShuntOut {
    spec_shunt(toks, 0, Seq::empty(), Seq::empty())
}

/// Converts an infix token sequence to postfix (reverse Polish) order
/// with the shunting-yard algorithm, reporting `UnmatchedParens` when a
/// parenthesis has no partner. Parenthesis tokens never appear in the
/// output.
#[verifier::loop_isolation(false)]
pub fn to_rpn(tokens: Vec<Token>) -> (r: Result<VecDeque<Token>, CalcError>)
    ensures
        match r {
            Ok(q) => {
                &&& spec_to_rpn(tokens@) == (ShuntOut::Out { toks: q@ })
                &&& paren_free(q@)
                &&& wf_tokens(tokens@) ==> wf_tokens(q@)
            },
            Err(e) => spec_to_rpn(tokens@) is Unmatched && e is UnmatchedParens,
        },
{
    let ghost s = tokens@;
    let mut output: VecDeque<Token> = VecDeque::new();
    let mut operators: Vec<Token> = Vec::new();
    let mut i: usize = 0;
    while i < tokens.len()
        invariant
            0 <= i <= s.len(),
            spec_to_rpn(s) == spec_shunt(s, i as int, output@, operators@),
            paren_free(output@),
            no_rparen(operators@),
            wf_tokens(s) ==> wf_tokens(output@) && wf_tokens(operators@),
        decreases s.len() - i,
    {
        let ghost out0 = output@;
        let ghost st0 = operators@;
        match tokens[i] {
            Token::Number(x) => {
                output.push_back(Token::Number(x));
            },
            Token::LParen => {
                operators.push(Token::LParen);
            },
            Token::UnaryMinus => {
                operators.push(Token::UnaryMinus);
            },
            Token::Power => {
                operators.push(Token::Power);
            },
            Token::RParen => {
                if operators.len() == 0 {
                    return Err(CalcError::UnmatchedParens);
                }
                let mut done = false;
                while !done
                    invariant
                        !done ==> operators@.len() >= 1,
                        spec_close(st0, out0) == if done {
                            Some((operators@, output@))
                        } else {
                            spec_close(operators@, output@)
                        },
                        paren_free(output@),
                        no_rparen(operators@),
                        wf_tokens(s) ==> wf_tokens(output@) && wf_tokens(operators@),
                    decreases (if done {
                        0int
                    } else {
                        operators@.len() as int + 1
                    }),
                {
                    match operators.pop() {
                        None => unreached(),
                        Some(top) => {
                            match top {
                                Token::LParen => {
                                    done = true;
                                },
                                _ => {
                                    output.push_back(top);
                                    if operators.len() == 0 {
                                        return Err(CalcError::UnmatchedParens);
                                    }
                                },
                            }
                        },
                    }
                }
            },
            _ => {
                let token = tokens[i];
                let p = token.precedence();
                while operators.len() > 0 && operators[operators.len() - 1].precedence() >= p
                    invariant
                        spec_popge(st0, out0, p as int) == spec_popge(
                            operators@,
                            output@,
                            p as int,
                        ),
                        paren_free(output@),
                        no_rparen(operators@),
                        wf_tokens(s) ==> wf_tokens(output@) && wf_tokens(operators@),
                    decreases operators@.len(),
                {
                    let top = match operators.pop() {
                        Some(t) => t,
                        None => unreached(),
                    };
                    output.push_back(top);
                }
                operators.push(token);
            },
        }
        i = i + 1;
    }
    let ghost out0 = output@;
    let ghost st0 = operators@;
    while operators.len() > 0
        invariant
            spec_drain(st0, out0) == spec_drain(operators@, output@),
            paren_free(output@),
            no_rparen(operators@),
            wf_tokens(s) ==> wf_tokens(output@) && wf_tokens(operators@),
        decreases operators@.len(),
    {
        let top = match operators.pop() {
            Some(t) => t,
            None => unreached(),
        };
        match top {
            Token::LParen => {
                return Err(CalcError::UnmatchedParens);
            },
            _ => {
                output.push_back(top);
            },
        }
    }
    Ok(output)
}

/// What postfix evaluation yields: a value, an arithmetic failure, or
/// a structural failure with its message.
pub enum EvalOut {
    Val { n: int, d: int },
    DivZero,
    NoRep,
    Bad { msg: Seq<char> },
}

/// The name under which a token appears in evaluator messages.
pub open spec fn op_name(t: Token) -> Seq<char> {
    match t {
        Token::Number(_) => "Number"@,
        Token::Plus => "Plus"@,
        Token::Minus => "Minus"@,
        Token::Multiply => "Multiply"@,
        Token::Divide => "Divide"@,
        Token::Power => "Power"@,
        Token::UnaryMinus => "UnaryMinus"@,
        Token::LParen => "LParen"@,
        Token::RParen => "RParen"@,
    }
}

/// The message for a token that found fewer than two stacked operands.
pub open spec fn arity_msg(t: Token) -> Seq<char> {
    "Недостаточно операндов для операции '"@ + op_name(t) + "'"@
}

/// The message for a parenthesis that reached the evaluator.
pub open spec fn unsupported_msg(t: Token) -> Seq<char> {
    "Неподдерживаемый токен: "@ + op_name(t)
}

/// A representable pair becomes a value; any other is out of range.
pub open spec fn fits_or(p: (int, int)) -> EvalOut {
    if fits_pair(p) {
        EvalOut::Val { n: p.0, d: p.1 }
    } else {
        EvalOut::NoRep
    }
}

/// Applies a token to its two popped operands `a` and `b` (with `b`
/// popped first, so `a` is the left-hand side): exact arithmetic for
/// the binary operators, `DivZero` for a zero divisor, and a failure
/// for a parenthesis, which a well-formed postfix sequence never holds.
pub open spec fn apply_binop(t: Token, a: (int, int), b: (int, int)) -> EvalOut {
    match t {
        Token::Plus => fits_or(add_pair(a, b)),
        Token::Minus => fits_or(sub_pair(a, b)),
        Token::Multiply => fits_or(mul_pair(a, b)),
        Token::Divide => if b.0 == 0 {
            EvalOut::DivZero
        } else {
            fits_or(div_pair(a, b))
        },
        Token::Power => match spec_try_pow(a, b) {
            Some(p) => EvalOut::Val { n: p.0, d: p.1 },
            None => EvalOut::NoRep,
        },
        _ => EvalOut::Bad { msg: unsupported_msg(t) },
    }
}

/// The left-to-right postfix scan from position `i` against a value
/// stack: numbers are pushed, unary minus negates the top, and every
/// other token pops two operands and pushes the operation's result.
/// At the end exactly one stacked value must remain.
pub open spec fn spec_eval_rec(s: Seq<Token>, i: int, st: Seq<(int, int)>) -> EvalOut
    decreases s.len() - i,
{
    if i < 0 || i >= s.len() {
        if st.len() == 1 {
            EvalOut::Val { n: st[0].0, d: st[0].1 }
        } else if st.len() == 0 {
            EvalOut::Bad { msg: "Стек пуст после вычислений"@ }
        } else {
            EvalOut::Bad { msg: "В стеке остались лишние числа"@ }
        }
    } else {
        match s[i] {
            Token::Number(x) => spec_eval_rec(s, i + 1, st.push((x.num as int, x.den as int))),
            Token::UnaryMinus => {
                if st.len() == 0 {
                    EvalOut::Bad { msg: "Унарный минус требует одного операнда"@ }
                } else {
                    spec_eval_rec(s, i + 1, st.drop_last().push((-st.last().0, st.last().1)))
                }
            },
            t => {
                if st.len() < 2 {
                    EvalOut::Bad { msg: arity_msg(t) }
                } else {
                    let b = st.last();
                    let a = st[st.len() - 2];
                    match apply_binop(t, a, b) {
                        EvalOut::Val { n, d } => spec_eval_rec(
                            s,
                            i + 1,
                            st.drop_last().drop_last().push((n, d)),
                        ),
                        other => other,
                    }
                }
            },
        }
    }
}

/// The full evaluation of a postfix token sequence.
pub open spec fn spec_eval(s: Seq<Token>) -> EvalOut {
    spec_eval_rec(s, 0, Seq::empty())
}

/// The executable result agrees with the specified outcome: an `Ok`
/// carries exactly the specified value, and each error variant matches
/// the specified failure, message included.
pub open spec fn eval_matches(r: Result<Number, CalcError>, o: EvalOut) -> bool {
    match r {
        Ok(c) => c.wf() && o == (EvalOut::Val { n: c.num as int, d: c.den as int }),
        Err(e) => match e {
            CalcError::DivideByZero => o is DivZero,
            CalcError::NotRepresentable => o is NoRep,
            CalcError::InvalidExpression(m) => o matches EvalOut::Bad { msg } && m@ == msg,
            _ => false,
        },
    }
}

/// The value stack as a sequence of unbounded fraction pairs.
pub open spec fn stack_pairs(v: Seq<Number>) -> Seq<(int, int)> {
    Seq::new(v.len(), |i: int| (v[i].num as int, v[i].den as int))
}

/// Every stacked value is well-formed.
pub open spec fn wf_stack(v: Seq<Number>) -> bool {
    forall|i: int| 0 <= i < v.len() ==> (#[trigger] v[i]).wf()
}

/// The evaluator's display name for a token.
fn op_name_str(t: &Token) -> (r: &'static str)
    ensures
        r@ == op_name(*t),
{
    match t {
        Token::Number(_) => "Number",
        Token::Plus => "Plus",
        Token::Minus => "Minus",
        Token::Multiply => "Multiply",
        Token::Divide => "Divide",
        Token::Power => "Power",
        Token::UnaryMinus => "UnaryMinus",
        Token::LParen => "LParen",
        Token::RParen => "RParen",
    }
}

/// Evaluates a postfix token sequence left to right against a value
/// stack: numbers are pushed, unary minus negates one operand, and a
/// binary operator pops `b` then `a` and pushes the exact result of
/// `a <op> b`. Division by a zero operand reports `DivideByZero`;
/// missing operands, leftover values and an empty final stack report
/// `InvalidExpression`.
#[verifier::loop_isolation(false)]
pub fn eval_rpn(rpn: VecDeque<Token>) -> (r: Result<Number, CalcError>)
    requires
        wf_tokens(rpn@),
    ensures
        eval_matches(r, spec_eval(rpn@)),
{
    let ghost s = rpn@;
    let mut stack: Vec<Number> = Vec::new();
    let mut i: usize = 0;
    proof {
        assert(stack_pairs(stack@) =~= Seq::<(int, int)>::empty());
    }
    while i < rpn.len()
        invariant
            0 <= i <= s.len(),
            wf_stack(stack@),
            spec_eval(s) == spec_eval_rec(s, i as int, stack_pairs(stack@)),
        decreases s.len() - i,
    {
        let ghost st0 = stack_pairs(stack@);
        let token = rpn[i];
        match token {
            Token::Number(x) => {
                stack.push(x);
                proof {
                    assert(stack_pairs(stack@) =~= st0.push((x.num as int, x.den as int)));
                }
            },
            Token::UnaryMinus => {
                match stack.pop() {
                    None => {
                        return Err(
                            CalcError::InvalidExpression(
                                "Унарный минус требует одного операнда".to_owned(),
                            ),
                        );
                    },
                    Some(x) => {
                        let y = x.neg();
                        stack.push(y);
                        proof {
                            assert(stack_pairs(stack@) =~= st0.drop_last().push(
                                (-st0.last().0, st0.last().1),
                            ));
                        }
                    },
                }
            },
            _ => {
                if stack.len() < 2 {
                    let text = "Недостаточно операндов для операции '".to_owned().concat(
                        op_name_str(&token),
                    ).concat("'");
                    return Err(CalcError::InvalidExpression(text));
                }
                let b = match stack.pop() {
                    Some(v) => v,
                    None => unreached(),
                };
                let a = match stack.pop() {
                    Some(v) => v,
                    None => unreached(),
                };
                let ghost ap = (a.num as int, a.den as int);
                let ghost bp = (b.num as int, b.den as int);
                proof {
                    assert(bp == st0.last());
                    assert(ap == st0[st0.len() - 2]);
                }
                let c = match token {
                    Token::Plus => match a.try_add(b) {
                        Ok(c) => c,
                        Err(e) => {
                            return Err(e);
                        },
                    },
                    Token::Minus => match a.try_sub(b) {
                        Ok(c) => c,
                        Err(e) => {
                            return Err(e);
                        },
                    },
                    Token::Multiply => match a.try_mul(b) {
                        Ok(c) => c,
                        Err(e) => {
                            return Err(e);
                        },
                    },
                    Token::Divide => {
                        if b.num == 0 {
                            return Err(CalcError::DivideByZero);
                        }
                        match a.try_div(b) {
                            Ok(c) => c,
                            Err(e) => {
                                return Err(e);
                            },
                        }
                    },
                    Token::Power => match a.try_pow(b) {
                        Ok(c) => c,
                        Err(e) => {
                            return Err(e);
                        },
                    },
                    _ => {
                        let text = "Неподдерживаемый токен: ".to_owned().concat(
                            op_name_str(&token),
                        );
                        return Err(CalcError::InvalidExpression(text));
                    },
                };
                stack.push(c);
                proof {
                    assert(stack_pairs(stack@) =~= st0.drop_last().drop_last().push(
                        (c.num as int, c.den as int),
                    ));
                }
            },
        }
        i = i + 1;
    }
    match stack.pop() {
        Some(result) => {
            if stack.len() == 0 {
                Ok(result)
            } else {
                Err(CalcError::InvalidExpression("В стеке остались лишние числа".to_owned()))
            }
        },
        None => Err(CalcError::InvalidExpression("Стек пуст после вычислений".to_owned())),
    }
}

/// How many stacked operands a token consumes during evaluation.
pub open spec fn needs(t: Token) -> int {
    match t {
        Token::Number(_) => 0,
        Token::UnaryMinus => 1,
        _ => 2,
    }
}

/// The net effect of a token on the height of the value stack.
pub open spec fn stack_delta(t: Token) -> int {
    match t {
        Token::Number(_) => 1,
        Token::UnaryMinus => 0,
        _ => -1,
    }
}

/// The height of the value stack after evaluating the sequence.
pub open spec fn stack_size(s: Seq<Token>) -> int
    decreases s.len(),
{
    if s.len() == 0 {
        0
    } else {
        stack_size(s.drop_last()) + stack_delta(s.last())
    }
}

/// A valid postfix sequence: no parentheses, every token finds the
/// operands it consumes, and exactly one value remains at the end.
pub open spec fn wf_postfix(s: Seq<Token>) -> bool {
    &&& paren_free(s)
    &&& stack_size(s) == 1
    &&& forall|i: int| 0 <= i < s.len() ==> stack_size(#[trigger] s.take(i)) >= needs(s[i])
}

/// On a valid postfix sequence the evaluator leaves exactly one value
/// on its stack: it never reports a structural `InvalidExpression`
/// failure, so the outcome is the value itself or an arithmetic
/// failure of an individual operation.
pub proof fn lemma_eval_wf_postfix(s: Seq<Token>)
    requires
        wf_postfix(s),
    ensures
        !(spec_eval(s) is Bad),
{
    lemma_eval_rec_wf(s, 0, Seq::empty());
}

/// The inductive step behind `lemma_eval_wf_postfix`: from any
/// position whose stack height matches the sequence's stack effect so
/// far, evaluation never fails structurally.
proof fn lemma_eval_rec_wf(s: Seq<Token>, i: int, st: Seq<(int, int)>)
    requires
        wf_postfix(s),
        0 <= i <= s.len(),
        st.len() == stack_size(s.take(i)),
    ensures
        !(spec_eval_rec(s, i, st) is Bad),
    decreases s.len() - i,
{
    if i == s.len() {
        assert(s.take(i) =~= s);
    } else {
        assert(s.take(i + 1).drop_last() =~= s.take(i));
        assert(s.take(i + 1).last() == s[i]);
        assert(stack_size(s.take(i)) >= needs(s[i]));
        match s[i] {
            Token::Number(x) => {
                lemma_eval_rec_wf(s, i + 1, st.push((x.num as int, x.den as int)));
            },
            Token::UnaryMinus => {
                lemma_eval_rec_wf(s, i + 1, st.drop_last().push((-st.last().0, st.last().1)));
            },
            t => {
                let b = st.last();
                let a = st[st.len() - 2];
                match apply_binop(t, a, b) {
                    EvalOut::Val { n, d } => {
                        lemma_eval_rec_wf(s, i + 1, st.drop_last().drop_last().push((n, d)));
                    },
                    _ => {},
                }
            },
        }
    }
}

/// The token is one of the five binary operators.
pub open spec fn is_binop(t: Token) -> bool {
    match t {
        Token::Plus => true,
        Token::Minus => true,
        Token::Multiply => true,
        Token::Divide => true,
        Token::Power => true,
        _ => false,
    }
}

/// How many binary operators a stack holds.
pub open spec fn binop_count(st: Seq<Token>) -> int
    decreases st.len(),
{
    if st.len() == 0 {
        0
    } else {
        binop_count(st.drop_last()) + if is_binop(st.last()) {
            1int
        } else {
            0int
        }
    }
}

/// How many opening parentheses a stack holds.
pub open spec fn lparen_count(st: Seq<Token>) -> int
    decreases st.len(),
{
    if st.len() == 0 {
        0
    } else {
        lparen_count(st.drop_last()) + if st.last() == Token::LParen {
            1int
        } else {
            0int
        }
    }
}

/// The shapes the operator stack can hold: binary operators, unary
/// minus, and opening parentheses.
pub open spec fn st_ok(st: Seq<Token>) -> bool {
    forall|i: int|
        0 <= i < st.len() ==> is_binop(#[trigger] st[i]) || st[i] == Token::UnaryMinus || st[i]
            == Token::LParen
}

/// The output built so far is a prefix of a valid postfix sequence:
/// parenthesis-free, with every token finding its operands.
pub open spec fn out_ok(out: Seq<Token>) -> bool {
    &&& paren_free(out)
    &&& forall|i: int| 0 <= i < out.len() ==> stack_size(#[trigger] out.take(i)) >= needs(out[i])
}

/// Grammatical well-formedness of an infix token sequence (with unary
/// minus already resolved), scanned from position `i`: `expect` says
/// whether an operand is expected next, `depth` counts open
/// parentheses. A number or an opening parenthesis may stand where an
/// operand is expected; a binary operator or a closing parenthesis
/// where one is not; unary minus keeps expecting its operand. The scan
/// must end expecting no operand, with every parenthesis closed.
pub open spec fn infix_from(s: Seq<Token>, i: int, expect: bool, depth: int) -> bool
    decreases s.len() - i,
{
    if i < 0 || i >= s.len() {
        !expect && depth == 0
    } else {
        match s[i] {
            Token::Number(_) => expect && infix_from(s, i + 1, false, depth),
            Token::UnaryMinus => expect && infix_from(s, i + 1, true, depth),
            Token::LParen => expect && infix_from(s, i + 1, true, depth + 1),
            Token::RParen => !expect && depth > 0 && infix_from(s, i + 1, false, depth - 1),
            _ => !expect && infix_from(s, i + 1, true, depth),
        }
    }
}

/// A grammatically well-formed infix token sequence.
pub open spec fn wf_infix(s: Seq<Token>) -> bool {
    infix_from(s, 0, true, 0)
}

/// Appending a number or operator to a valid postfix prefix keeps it
/// valid when its operands are present.
proof fn lemma_out_push(out: Seq<Token>, t: Token)
    requires
        out_ok(out),
        stack_size(out) >= needs(t),
        !(t is LParen),
        !(t is RParen),
    ensures
        out_ok(out.push(t)),
        stack_size(out.push(t)) == stack_size(out) + stack_delta(t),
{
    let o = out.push(t);
    assert(o.drop_last() =~= out);
    assert(o.last() == t);
    assert forall|i: int| 0 <= i < o.len() implies stack_size(#[trigger] o.take(i)) >= needs(
        o[i],
    ) by {
        assert(o.take(i) =~= out.take(i));
        if i < out.len() {
            assert(stack_size(out.take(i)) >= needs(out[i]));
        } else {
            assert(out.take(i) =~= out);
        }
    }
    assert forall|i: int| 0 <= i < o.len() implies !((#[trigger] o[i]) is LParen) && !(o[i]
        is RParen) by {
        if i < out.len() {
            assert(o[i] == out[i]);
        }
    }
}

/// A stack keeps its shape and counts when its top is removed.
proof fn lemma_st_drop(st: Seq<Token>)
    requires
        st_ok(st),
        st.len() > 0,
    ensures
        st_ok(st.drop_last()),
    decreases st.len(),
{
    assert forall|i: int| 0 <= i < st.drop_last().len() implies is_binop(
        #[trigger] st.drop_last()[i],
    ) || st.drop_last()[i] == Token::UnaryMinus || st.drop_last()[i] == Token::LParen by {
        assert(st.drop_last()[i] == st[i]);
    }
}

/// A stack keeps its shape when a new operator is pushed.
proof fn lemma_st_push(st: Seq<Token>, t: Token)
    requires
        st_ok(st),
        is_binop(t) || t == Token::UnaryMinus || t == Token::LParen,
    ensures
        st_ok(st.push(t)),
        binop_count(st.push(t)) == binop_count(st) + if is_binop(t) {
            1int
        } else {
            0int
        },
        lparen_count(st.push(t)) == lparen_count(st) + if t == Token::LParen {
            1int
        } else {
            0int
        },
{
    assert(st.push(t).drop_last() =~= st);
    assert(st.push(t).last() == t);
    assert forall|i: int| 0 <= i < st.push(t).len() implies is_binop(#[trigger] st.push(t)[i])
        || st.push(t)[i] == Token::UnaryMinus || st.push(t)[i] == Token::LParen by {
        if i < st.len() {
            assert(st.push(t)[i] == st[i]);
        } else {
            assert(st.push(t)[i] == t);
        }
    }
}

/// Unwinding to a matching opening parenthesis succeeds whenever one
/// is on the stack, and keeps the output a valid postfix prefix.
proof fn lemma_close_ok(st: Seq<Token>, out: Seq<Token>)
    requires
        st_ok(st),
        out_ok(out),
        lparen_count(st) >= 1,
        stack_size(out) == binop_count(st) + 1,
    ensures
        spec_close(st, out) matches Some(p) && {
            &&& st_ok(p.0)
            &&& out_ok(p.1)
            &&& lparen_count(p.0) == lparen_count(st) - 1
            &&& stack_size(p.1) == binop_count(p.0) + 1
        },
    decreases st.len(),
{
    assert(st.len() > 0);
    let top = st.last();
    assert(is_binop(top) || top == Token::UnaryMinus || top == Token::LParen);
    lemma_st_drop(st);
    lemma_binop_count_nonneg(st.drop_last());
    if top == Token::LParen {
    } else {
        assert(lparen_count(st.drop_last()) == lparen_count(st));
        if st.len() == 1 {
            assert(st.drop_last() =~= Seq::<Token>::empty());
            assert(lparen_count(st) == if top == Token::LParen {
                1int
            } else {
                0int
            });
            assert(false);
        }
        if is_binop(top) {
            assert(binop_count(st) == binop_count(st.drop_last()) + 1);
            lemma_out_push(out, top);
        } else {
            lemma_out_push(out, top);
        }
        lemma_close_ok(st.drop_last(), out.push(top));
    }
}

/// Popping operators of high precedence keeps the output a valid
/// postfix prefix and never removes a parenthesis.
proof fn lemma_popge_ok(st: Seq<Token>, out: Seq<Token>, p: int)
    requires
        st_ok(st),
        out_ok(out),
        p >= 2,
        stack_size(out) == binop_count(st) + 1,
    ensures
        ({
            let r = spec_popge(st, out, p);
            &&& st_ok(r.0)
            &&& out_ok(r.1)
            &&& lparen_count(r.0) == lparen_count(st)
            &&& stack_size(r.1) == binop_count(r.0) + 1
        }),
    decreases st.len(),
{
    if st.len() > 0 && prec(st.last()) >= p {
        let top = st.last();
        assert(top != Token::LParen);
        lemma_st_drop(st);
        lemma_binop_count_nonneg(st.drop_last());
        lemma_out_push(out, top);
        lemma_popge_ok(st.drop_last(), out.push(top), p);
    }
}

/// Draining a stack without parentheses yields a valid postfix
/// sequence.
proof fn lemma_drain_ok(st: Seq<Token>, out: Seq<Token>)
    requires
        st_ok(st),
        out_ok(out),
        lparen_count(st) == 0,
        stack_size(out) == binop_count(st) + 1,
    ensures
        spec_drain(st, out) matches ShuntOut::Out { toks } && wf_postfix(toks),
    decreases st.len(),
{
    if st.len() == 0 {
        assert(spec_drain(st, out) == (ShuntOut::Out { toks: out }));
    } else {
        let top = st.last();
        lemma_st_drop(st);
        lemma_binop_count_nonneg(st.drop_last());
        if top == Token::LParen {
            assert(lparen_count(st) >= lparen_count(st.drop_last()) + 1);
            lemma_lparen_count_nonneg(st.drop_last());
            assert(false);
        }
        lemma_out_push(out, top);
        lemma_drain_ok(st.drop_last(), out.push(top));
    }
}

/// A stack never holds a negative number of parentheses.
proof fn lemma_lparen_count_nonneg(st: Seq<Token>)
    ensures
        lparen_count(st) >= 0,
    decreases st.len(),
{
    if st.len() > 0 {
        lemma_lparen_count_nonneg(st.drop_last());
    }
}

/// A stack never holds a negative number of binary operators.
proof fn lemma_binop_count_nonneg(st: Seq<Token>)
    ensures
        binop_count(st) >= 0,
    decreases st.len(),
{
    if st.len() > 0 {
        lemma_binop_count_nonneg(st.drop_last());
    }
}

/// The inductive heart of the conversion theorem: from any scan state
/// whose stack matches the grammar state, the shunting-yard scan of a
/// well-formed remainder yields a valid postfix sequence.
proof fn lemma_shunt_ok(
    s: Seq<Token>,
    i: int,
    expect: bool,
    depth: int,
    out: Seq<Token>,
    st: Seq<Token>,
)
    requires
        infix_from(s, i, expect, depth),
        0 <= i <= s.len(),
        st_ok(st),
        out_ok(out),
        lparen_count(st) == depth,
        stack_size(out) == binop_count(st) + if expect {
            0int
        } else {
            1int
        },
    ensures
        spec_shunt(s, i, out, st) matches ShuntOut::Out { toks } && wf_postfix(toks),
    decreases s.len() - i,
{
    lemma_binop_count_nonneg(st);
    if i == s.len() {
        lemma_drain_ok(st, out);
    } else {
        match s[i] {
            Token::Number(x) => {
                lemma_out_push(out, s[i]);
                lemma_shunt_ok(s, i + 1, false, depth, out.push(s[i]), st);
            },
            Token::UnaryMinus => {
                lemma_st_push(st, Token::UnaryMinus);
                lemma_shunt_ok(s, i + 1, true, depth, out, st.push(Token::UnaryMinus));
            },
            Token::LParen => {
                lemma_st_push(st, Token::LParen);
                lemma_shunt_ok(s, i + 1, true, depth + 1, out, st.push(Token::LParen));
            },
            Token::Power => {
                lemma_st_push(st, Token::Power);
                lemma_shunt_ok(s, i + 1, true, depth, out, st.push(Token::Power));
            },
            Token::RParen => {
                lemma_close_ok(st, out);
                let p = spec_close(st, out)->Some_0;
                lemma_shunt_ok(s, i + 1, false, depth - 1, p.1, p.0);
            },
            _ => {
                lemma_popge_ok(st, out, prec(s[i]));
                let r = spec_popge(st, out, prec(s[i]));
                lemma_st_push(r.0, s[i]);
                lemma_shunt_ok(s, i + 1, true, depth, r.1, r.0.push(s[i]));
            },
        }
    }
}

/// Unwinding to a matching opening parenthesis succeeds whenever one
/// is on the stack, whatever the output holds, and consumes exactly
/// that parenthesis.
proof fn lemma_close_balanced(st: Seq<Token>, out: Seq<Token>)
    requires
        lparen_count(st) >= 1,
    ensures
        spec_close(st, out) matches Some(p) && lparen_count(p.0) == lparen_count(st) - 1,
    decreases st.len(),
{
    assert(st.len() > 0);
    if st.last() == Token::LParen {
    } else {
        if st.len() == 1 {
            assert(st.drop_last() =~= Seq::<Token>::empty());
            assert(lparen_count(st.drop_last()) == 0);
            assert(lparen_count(st) == 0);
            assert(false);
        }
        lemma_close_balanced(st.drop_last(), out.push(st.last()));
    }
}

/// Popping operators by precedence never removes a parenthesis.
proof fn lemma_popge_balanced(st: Seq<Token>, out: Seq<Token>, p: int)
    requires
        p >= 2,
    ensures
        lparen_count(spec_popge(st, out, p).0) == lparen_count(st),
    decreases st.len(),
{
    if st.len() > 0 && prec(st.last()) >= p {
        lemma_popge_balanced(st.drop_last(), out.push(st.last()), p);
    }
}

/// Draining a stack that holds no parentheses cannot fail.
proof fn lemma_drain_balanced(st: Seq<Token>, out: Seq<Token>)
    requires
        lparen_count(st) == 0,
    ensures
        spec_drain(st, out) is Out,
    decreases st.len(),
{
    if st.len() > 0 {
        if st.last() == Token::LParen {
            lemma_lparen_count_nonneg(st.drop_last());
            assert(false);
        }
        lemma_drain_balanced(st.drop_last(), out.push(st.last()));
    }
}

/// From any scan position whose stack holds exactly the parentheses
/// opened so far, the conversion of a balanced sequence succeeds.
proof fn lemma_shunt_balanced(s: Seq<Token>, i: int, out: Seq<Token>, st: Seq<Token>)
    requires
        parens_ok(s),
        0 <= i <= s.len(),
        lparen_count(st) == paren_balance(s.take(i)),
    ensures
        spec_shunt(s, i, out, st) is Out,
    decreases s.len() - i,
{
    if i == s.len() {
        assert(s.take(i) =~= s);
        lemma_drain_balanced(st, out);
    } else {
        assert(s.take(i + 1).drop_last() =~= s.take(i));
        assert(s.take(i + 1).last() == s[i]);
        assert(paren_balance(s.take(i + 1)) >= 0);
        match s[i] {
            Token::Number(x) => {
                lemma_shunt_balanced(s, i + 1, out.push(s[i]), st);
            },
            Token::UnaryMinus => {
                assert(st.push(s[i]).drop_last() =~= st);
                lemma_shunt_balanced(s, i + 1, out, st.push(s[i]));
            },
            Token::Power => {
                assert(st.push(s[i]).drop_last() =~= st);
                lemma_shunt_balanced(s, i + 1, out, st.push(s[i]));
            },
            Token::LParen => {
                assert(st.push(s[i]).drop_last() =~= st);
                lemma_shunt_balanced(s, i + 1, out, st.push(s[i]));
            },
            Token::RParen => {
                lemma_close_balanced(st, out);
                let p = spec_close(st, out)->Some_0;
                lemma_shunt_balanced(s, i + 1, p.1, p.0);
            },
            _ => {
                lemma_popge_balanced(st, out, prec(s[i]));
                let r = spec_popge(st, out, prec(s[i]));
                assert(r.0.push(s[i]).drop_last() =~= r.0);
                lemma_shunt_balanced(s, i + 1, r.1, r.0.push(s[i]));
            },
        }
    }
}

/// On a token sequence whose parentheses balance, the shunting-yard
/// conversion never fails: after `validate_parens` passes, `to_rpn`
/// cannot report `UnmatchedParens`.
pub proof fn lemma_convert_balanced(s: Seq<Token>)
    requires
        parens_ok(s),
    ensures
        spec_to_rpn(s) is Out,
{
    assert(s.take(0) =~= Seq::<Token>::empty());
    lemma_shunt_balanced(s, 0, Seq::empty(), Seq::empty());
}

/// On a grammatically well-formed infix sequence the shunting-yard
/// conversion always succeeds, and what it produces is a valid postfix
/// sequence.
pub proof fn lemma_convert_wf_infix(s: Seq<Token>)
    requires
        wf_infix(s),
    ensures
        spec_to_rpn(s) matches ShuntOut::Out { toks } && wf_postfix(toks),
{
    lemma_shunt_ok(s, 0, true, 0, Seq::empty(), Seq::empty());
}

/// The round-trip guarantee of the pipeline's back half: converting a
/// grammatically well-formed infix sequence and evaluating the result
/// leaves exactly one value on the evaluator's stack, so the outcome
/// is a value or an arithmetic failure, never a structural
/// `InvalidExpression`.
pub proof fn lemma_pipeline_wf_infix(s: Seq<Token>)
    requires
        wf_infix(s),
    ensures
        spec_to_rpn(s) matches ShuntOut::Out { toks } && !(spec_eval(toks) is Bad),
{
    lemma_convert_wf_infix(s);
    let toks = spec_to_rpn(s)->Out_toks;
    lemma_eval_wf_postfix(toks);
}

} // verus!

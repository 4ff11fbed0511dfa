//! An exact arithmetic expression evaluator.
//!
//! Expression text passes through four stages: lexical tokenization,
//! a parenthesis balance check, a unary-minus resolution pass,
//! infix-to-postfix conversion (shunting-yard), and postfix evaluation
//! over exact rational numbers. Any stage failure short-circuits the
//! pipeline and is returned as a classified [`error::CalcError`].

pub mod error;
pub mod number;
pub mod parser;
pub mod render;
pub mod rpn;

use crate::error::CalcError;
use crate::number::Number;
use crate::parser::TokOut;
use crate::parser::mark_unary;
use crate::parser::parens_ok;
use crate::parser::spec_tokenize;
use crate::rpn::EvalOut;
use crate::rpn::ShuntOut;
use crate::rpn::spec_eval;
use crate::rpn::spec_to_rpn;
use vstd::prelude::*;

verus! {

/// What the whole pipeline yields for a piece of expression text: an
/// exact value, or one of the classified failures with its message.
pub enum CalcOut {
    Value { n: int, d: int },
    Lexical { msg: Seq<char> },
    Parens,
    DivZero,
    NoRep,
    Malformed { msg: Seq<char> },
}

/// The composition of the pipeline stages: tokenize, check the
/// parenthesis nesting, resolve unary minus, convert to postfix, and
/// evaluate. The first failing stage decides the outcome.
pub open spec fn spec_calculate(s: Seq<char>) -> CalcOut {
    match spec_tokenize(s) {
        TokOut::Fail { msg } => CalcOut::Lexical { msg },
        TokOut::Toks { toks } => {
            if !parens_ok(toks) {
                CalcOut::Parens
            } else {
                match spec_to_rpn(mark_unary(toks)) {
                    ShuntOut::Unmatched => CalcOut::Parens,
                    ShuntOut::Out { toks: q } => match spec_eval(q) {
                        EvalOut::Val { n, d } => CalcOut::Value { n, d },
                        EvalOut::DivZero => CalcOut::DivZero,
                        EvalOut::NoRep => CalcOut::NoRep,
                        EvalOut::Bad { msg } => CalcOut::Malformed { msg },
                    },
                }
            }
        },
    }
}

/// The executable result agrees with the specified pipeline outcome:
/// an `Ok` carries exactly the specified value, and each error variant
/// matches the specified failure, message included.
pub open spec fn calc_matches(r: Result<Number, CalcError>, o: CalcOut) -> bool {
    match r {
        Ok(c) => c.wf() && o == (CalcOut::Value { n: c.num as int, d: c.den as int }),
        Err(e) => match e {
            CalcError::InvalidToken(m) => o == (CalcOut::Lexical { msg: m@ }),
            CalcError::UnmatchedParens => o is Parens,
            CalcError::DivideByZero => o is DivZero,
            CalcError::NotRepresentable => o is NoRep,
            CalcError::InvalidExpression(m) => o == (CalcOut::Malformed { msg: m@ }),
        },
    }
}

/// Evaluates a textual infix expression to an exact rational value or
/// a classified error, running the whole pipeline in order.
pub fn calculate(input: &str) -> (r: Result<Number, CalcError>)
    ensures
        calc_matches(r, spec_calculate(input@)),
{
    let tokens = match parser::tokenize(input) {
        Ok(v) => v,
        Err(e) => {
            return Err(e);
        },
    };
    match parser::validate_parens(tokens.as_slice()) {
        Ok(()) => {},
        Err(e) => {
            return Err(e);
        },
    }
    let marked = parser::resolve_unary(tokens);
    let q = match rpn::to_rpn(marked) {
        Ok(q) => q,
        Err(e) => {
            return Err(e);
        },
    };
    rpn::eval_rpn(q)
}

/// The pipeline reports `UnmatchedParens` exactly when tokenization
/// succeeds and the token sequence's parentheses do not balance: the
/// nesting check alone decides, and the conversion stage never adds
/// such a failure for balanced input.
pub proof fn lemma_paren_error_classified(s: Seq<char>)
    ensures
        spec_calculate(s) is Parens <==> (spec_tokenize(s) matches TokOut::Toks { toks }
            && !parens_ok(toks)),
{
    match spec_tokenize(s) {
        TokOut::Toks { toks } => {
            if parens_ok(toks) {
                crate::parser::lemma_mark_unary_parens(toks);
                crate::rpn::lemma_convert_balanced(mark_unary(toks));
            }
        },
        TokOut::Fail { msg } => {},
    }
}

/// The round-trip guarantee of the whole pipeline: when tokenization
/// succeeds and the resolved token sequence is grammatically
/// well-formed, evaluation of the converted postfix sequence leaves
/// exactly one value, so the pipeline returns that value or an
/// arithmetic error, never a structural `InvalidExpression`.
pub proof fn lemma_calculate_well_formed(s: Seq<char>)
    requires
        spec_tokenize(s) matches TokOut::Toks { toks } && crate::rpn::wf_infix(mark_unary(toks)),
    ensures
        !(spec_calculate(s) is Malformed),
{
    let toks = spec_tokenize(s)->Toks_toks;
    if parens_ok(toks) {
        crate::rpn::lemma_pipeline_wf_infix(mark_unary(toks));
    }
}

} // verus!

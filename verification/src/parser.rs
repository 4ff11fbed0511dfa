//! Lexical analysis and token-level checks.
//!
//! `tokenize` turns expression text into a token sequence,
//! `validate_parens` checks parenthesis nesting, and `resolve_unary`
//! rewrites the minus signs that act as a prefix into `UnaryMinus`.

use crate::error::CalcError;
use crate::number::Number;
use vstd::prelude::*;

verus! {

/// One lexical element of an arithmetic expression.
#[derive(Clone, Copy, Debug, PartialEq, Eq, Structural)]
pub enum Token {
    Number(Number),
    Plus,
    Minus,
    Multiply,
    Divide,
    Power,
    UnaryMinus,
    LParen,
    RParen,
}

/// The precedence rank of a token: numbers are lowest, then parens,
/// additive operators, multiplicative operators, and finally power and
/// unary minus.
pub open spec fn prec(t: Token) -> int {
    match t {
        Token::Number(_) => 0,
        Token::LParen => 1,
        Token::RParen => 1,
        Token::Plus => 2,
        Token::Minus => 2,
        Token::Multiply => 3,
        Token::Divide => 3,
        Token::Power => 4,
        Token::UnaryMinus => 4,
    }
}

impl Token {
    /// The precedence rank used by the infix-to-postfix conversion.
    pub fn precedence(&self) -> (r: u8)
        ensures
            r == prec(*self),
    {
        match self {
            Token::Number(_) => 0,
            Token::LParen | Token::RParen => 1,
            Token::Plus | Token::Minus => 2,
            Token::Multiply | Token::Divide => 3,
            Token::Power | Token::UnaryMinus => 4,
        }
    }

    /// The token is a number whose fraction is well-formed.
    pub open spec fn wf(self) -> bool {
        match self {
            Token::Number(x) => x.wf(),
            _ => true,
        }
    }
}

/// Every number token in the sequence is well-formed.
pub open spec fn wf_tokens(s: Seq<Token>) -> bool {
    forall|i: int| 0 <= i < s.len() ==> (#[trigger] s[i]).wf()
}

/// The contribution of one token to the running parenthesis balance.
pub open spec fn paren_delta(t: Token) -> int {
    match t {
        Token::LParen => 1,
        Token::RParen => -1,
        _ => 0,
    }
}

/// The parenthesis balance of a token sequence: opens minus closes.
pub open spec fn paren_balance(s: Seq<Token>) -> int
    decreases s.len(),
{
    if s.len() == 0 {
        0
    } else {
        paren_balance(s.drop_last()) + paren_delta(s.last())
    }
}

/// Parentheses nest correctly: no prefix closes more than it opens,
/// and the whole sequence is balanced.
pub open spec fn parens_ok(s: Seq<Token>) -> bool {
    &&& paren_balance(s) == 0
    &&& forall|i: int| 0 <= i <= s.len() ==> #[trigger] paren_balance(s.take(i)) >= 0
}

/// Checks that parentheses nest correctly, reporting `UnmatchedParens`
/// as soon as a close has no matching open, or at the end when opens
/// remain unclosed.
pub fn validate_parens(tokens: &[Token]) -> (r: Result<(), CalcError>)
    ensures
        match r {
            Ok(()) => parens_ok(tokens@),
            Err(e) => !parens_ok(tokens@) && e is UnmatchedParens,
        },
{
    let ghost s = tokens@;
    let mut balance: usize = 0;
    let mut i: usize = 0;
    while i < tokens.len()
        invariant
            s == tokens@,
            0 <= i <= s.len(),
            balance <= i,
            balance == paren_balance(s.take(i as int)),
            forall|j: int| 0 <= j <= i ==> #[trigger] paren_balance(s.take(j)) >= 0,
        decreases s.len() - i,
    {
        proof {
            assert(s.take(i + 1).drop_last() =~= s.take(i as int));
            assert(s.take(i + 1).last() == s[i as int]);
        }
        match tokens[i] {
            Token::LParen => {
                balance = balance + 1;
            },
            Token::RParen => {
                if balance == 0 {
                    assert(paren_balance(s.take(i + 1)) < 0);
                    return Err(CalcError::UnmatchedParens);
                }
                balance = balance - 1;
            },
            _ => {},
        }
        i = i + 1;
    }
    proof {
        assert(s.take(s.len() as int) =~= s);
    }
    if balance != 0 {
        return Err(CalcError::UnmatchedParens);
    }
    Ok(())
}

/// The character is an ASCII digit.
pub open spec fn is_digit_char(c: char) -> bool {
    48 <= (c as u32) && (c as u32) <= 57
}

/// The numeric value of an ASCII digit.
pub open spec fn digit_val(c: char) -> int {
    (c as u32) - 48
}

/// The character may extend a pending numeric literal.
pub open spec fn is_num_char(c: char) -> bool {
    is_digit_char(c) || c == '.'
}

/// The character is skipped as whitespace.
pub open spec fn is_space_char(c: char) -> bool {
    c == ' ' || c == '\t' || c == '\n' || c == '\r'
}

/// The token for a single-character operator or parenthesis, if any.
pub open spec fn op_token(c: char) -> Option<Token> {
    if c == '+' {
        Some(Token::Plus)
    } else if c == '-' {
        Some(Token::Minus)
    } else if c == '*' {
        Some(Token::Multiply)
    } else if c == '/' {
        Some(Token::Divide)
    } else if c == '^' {
        Some(Token::Power)
    } else if c == '(' {
        Some(Token::LParen)
    } else if c == ')' {
        Some(Token::RParen)
    } else {
        None
    }
}

/// Every character of the buffer is a digit or a dot.
pub open spec fn all_num_chars(b: Seq<char>) -> bool {
    forall|i: int| 0 <= i < b.len() ==> is_num_char(#[trigger] b[i])
}

/// How many dots the buffer holds.
pub open spec fn dot_count(b: Seq<char>) -> int
    decreases b.len(),
{
    if b.len() == 0 {
        0
    } else {
        dot_count(b.drop_last()) + if b.last() == '.' {
            1int
        } else {
            0int
        }
    }
}

/// The digits of the buffer read as one whole number, dots skipped.
pub open spec fn mantissa(b: Seq<char>) -> int
    decreases b.len(),
{
    if b.len() == 0 {
        0
    } else if b.last() == '.' {
        mantissa(b.drop_last())
    } else {
        10 * mantissa(b.drop_last()) + digit_val(b.last())
    }
}

/// How many digits follow the last dot of the buffer.
pub open spec fn frac_digits(b: Seq<char>) -> int
    decreases b.len(),
{
    if b.len() == 0 {
        0
    } else if b.last() == '.' {
        0
    } else {
        frac_digits(b.drop_last()) + 1
    }
}

/// The power of ten that scales the buffer's fractional part.
pub open spec fn frac_exp(b: Seq<char>) -> int {
    if dot_count(b) == 0 {
        0
    } else {
        frac_digits(b)
    }
}

/// Ten to the `k`-th power.
pub open spec fn pow10(k: nat) -> int
    decreases k,
{
    if k == 0 {
        1
    } else {
        10 * pow10((k - 1) as nat)
    }
}

/// The buffer parses as a numeric literal: at most one dot, at least
/// one digit, and a value whose exact representation fits `Number`.
pub open spec fn buf_ok(b: Seq<char>) -> bool {
    &&& dot_count(b) <= 1
    &&& dot_count(b) < b.len()
    &&& mantissa(b) <= i64::MAX
    &&& frac_exp(b) <= 18
}

/// The number token that a valid buffer parses to.
pub open spec fn buf_token(b: Seq<char>) -> Token {
    Token::Number(
        Number { num: mantissa(b) as i64, den: pow10(frac_exp(b) as nat) as i64 },
    )
}

/// What tokenization yields: a token sequence, or the text of an
/// `InvalidToken` failure.
pub enum TokOut {
    Toks { toks: Seq<Token> },
    Fail { msg: Seq<char> },
}

/// Puts one token in front of a tokenization outcome.
pub open spec fn prepend_out(t: Token, o: TokOut) -> TokOut {
    match o {
        TokOut::Toks { toks } => TokOut::Toks { toks: seq![t] + toks },
        TokOut::Fail { msg } => TokOut::Fail { msg },
    }
}

/// Puts finished tokens in front of a tokenization outcome.
pub open spec fn append_out(ts: Seq<Token>, o: TokOut) -> TokOut {
    match o {
        TokOut::Toks { toks } => TokOut::Toks { toks: ts + toks },
        TokOut::Fail { msg } => TokOut::Fail { msg },
    }
}

/// The message reported for a character that no token recognizes.
pub open spec fn invalid_char_msg(c: char) -> Seq<char> {
    "Некорректный символ в выражении: '"@ + seq![c] + "'"@
}

/// One left-to-right scan step of the tokenizer over the remaining
/// text `s` with the pending numeric buffer `b`: digits and dots
/// extend the buffer, any other character first flushes it, whitespace
/// is skipped, and operator characters map to their tokens.
pub open spec fn tok_rec(s: Seq<char>, b: Seq<char>) -> TokOut
    decreases s.len(), b.len(),
{
    if s.len() == 0 {
        if b.len() == 0 {
            TokOut::Toks { toks: Seq::empty() }
        } else if buf_ok(b) {
            TokOut::Toks { toks: seq![buf_token(b)] }
        } else {
            TokOut::Fail { msg: b }
        }
    } else {
        let c = s[0];
        if is_num_char(c) {
            tok_rec(s.drop_first(), b.push(c))
        } else if b.len() > 0 {
            if buf_ok(b) {
                prepend_out(buf_token(b), tok_rec(s, Seq::empty()))
            } else {
                TokOut::Fail { msg: b }
            }
        } else if is_space_char(c) {
            tok_rec(s.drop_first(), b)
        } else {
            match op_token(c) {
                Some(t) => prepend_out(t, tok_rec(s.drop_first(), b)),
                None => TokOut::Fail { msg: invalid_char_msg(c) },
            }
        }
    }
}

/// The full tokenization of an input text.
pub open spec fn spec_tokenize(s: Seq<char>) -> TokOut {
    tok_rec(s, Seq::empty())
}

/// A number in the shape the tokenizer produces: a non-negative
/// numerator over a small power of ten.
pub open spec fn canonical_number(x: Number) -> bool {
    &&& 0 <= x.num
    &&& exists|f: nat| f <= 18 && x.den == #[trigger] pow10(f)
}

/// A token the tokenizer can produce: never `UnaryMinus`, and numbers
/// in canonical shape.
pub open spec fn canonical_token(t: Token) -> bool {
    match t {
        Token::Number(x) => canonical_number(x),
        Token::UnaryMinus => false,
        _ => true,
    }
}

/// Every token of the sequence is one the tokenizer can produce.
pub open spec fn canonical_tokens(s: Seq<Token>) -> bool {
    forall|i: int| 0 <= i < s.len() ==> canonical_token(#[trigger] s[i])
}

/// After these tokens a minus sign acts as a prefix: at the start of the
/// input, after an opening parenthesis, and after any operator.
pub open spec fn unary_context(t: Token) -> bool {
    match t {
        Token::Number(_) => false,
        Token::RParen => false,
        _ => true,
    }
}

/// The token sequence with every prefix minus rewritten to `UnaryMinus`.
pub open spec fn mark_unary(s: Seq<Token>) -> Seq<Token> {
    Seq::new(
        s.len(),
        |i: int|
            if s[i] is Minus && (i == 0 || unary_context(s[i - 1])) {
                Token::UnaryMinus
            } else {
                s[i]
            },
    )
}

/// Rewrites every minus sign that stands at the start of the input,
/// after an opening parenthesis, or after an operator into `UnaryMinus`,
/// leaving all other tokens unchanged.
pub fn resolve_unary(tokens: Vec<Token>) -> (r: Vec<Token>)
    ensures
        r@ == mark_unary(tokens@),
        wf_tokens(tokens@) ==> wf_tokens(r@),
{
    let ghost s = tokens@;
    let mut out: Vec<Token> = Vec::new();
    let mut i: usize = 0;
    while i < tokens.len()
        invariant
            s == tokens@,
            0 <= i <= s.len(),
            out@ =~= mark_unary(s).take(i as int),
        decreases s.len() - i,
    {
        let unary = match tokens[i] {
            Token::Minus => {
                if i == 0 {
                    true
                } else {
                    match tokens[i - 1] {
                        Token::Number(_) => false,
                        Token::RParen => false,
                        _ => true,
                    }
                }
            },
            _ => false,
        };
        if unary {
            out.push(Token::UnaryMinus);
        } else {
            out.push(tokens[i]);
        }
        i = i + 1;
        proof {
            assert(out@ =~= mark_unary(s).take(i as int));
        }
    }
    proof {
        assert(mark_unary(s).take(s.len() as int) =~= mark_unary(s));
        assert forall|k: int| 0 <= k < mark_unary(s).len() && wf_tokens(s) implies (
        #[trigger] mark_unary(s)[k]).wf() by {
            assert(s[k].wf());
        }
    }
    out
}

/// Each prefix of the resolved sequence has the balance of the same
/// prefix of the raw one: unary minus changes no parenthesis.
proof fn lemma_mark_unary_balance(s: Seq<Token>, i: int)
    requires
        0 <= i <= s.len(),
    ensures
        paren_balance(mark_unary(s).take(i)) == paren_balance(s.take(i)),
    decreases i,
{
    if i > 0 {
        lemma_mark_unary_balance(s, i - 1);
        let m = mark_unary(s);
        assert(m.take(i).drop_last() =~= m.take(i - 1));
        assert(s.take(i).drop_last() =~= s.take(i - 1));
        assert(m.take(i).last() == m[i - 1]);
        assert(s.take(i).last() == s[i - 1]);
        assert(paren_delta(m[i - 1]) == paren_delta(s[i - 1]));
    }
}

/// Resolving unary minus preserves whether the parentheses nest
/// correctly.
pub proof fn lemma_mark_unary_parens(s: Seq<Token>)
    ensures
        parens_ok(mark_unary(s)) <==> parens_ok(s),
{
    let m = mark_unary(s);
    assert(m.len() == s.len());
    assert forall|i: int| 0 <= i <= s.len() implies #[trigger] paren_balance(m.take(i))
        == paren_balance(s.take(i)) by {
        lemma_mark_unary_balance(s, i);
    }
    assert(m.take(s.len() as int) =~= m);
    assert(s.take(s.len() as int) =~= s);
    if parens_ok(s) {
        assert(paren_balance(m) == 0);
        assert forall|i: int| 0 <= i <= m.len() implies #[trigger] paren_balance(m.take(i))
            >= 0 by {
            assert(paren_balance(s.take(i)) >= 0);
        }
    }
    if parens_ok(m) {
        assert(paren_balance(s) == 0);
        assert forall|i: int| 0 <= i <= s.len() implies #[trigger] paren_balance(s.take(i))
            >= 0 by {
            assert(paren_balance(m.take(i)) >= 0);
        }
    }
}

/// The mantissa of a digit-and-dot buffer is never negative.
proof fn lemma_mantissa_nonneg(b: Seq<char>)
    requires
        all_num_chars(b),
    ensures
        0 <= mantissa(b),
    decreases b.len(),
{
    if b.len() > 0 {
        assert(all_num_chars(b.drop_last())) by {
            assert(forall|i: int|
                0 <= i < b.len() - 1 ==> #[trigger] b.drop_last()[i] == b[i]);
        }
        lemma_mantissa_nonneg(b.drop_last());
        if b.last() != '.' {
            assert(is_num_char(b[b.len() - 1]));
        }
    }
}

/// A prefix of the buffer never holds more dots than the whole buffer.
proof fn lemma_dot_count_prefix(b: Seq<char>, j: int)
    requires
        0 <= j <= b.len(),
    ensures
        dot_count(b.take(j)) <= dot_count(b),
    decreases b.len(),
{
    if j == b.len() {
        assert(b.take(j) =~= b);
    } else {
        assert(b.drop_last().take(j) =~= b.take(j));
        lemma_dot_count_prefix(b.drop_last(), j);
    }
}

/// A prefix of the buffer never has a larger mantissa than the whole
/// buffer.
proof fn lemma_mantissa_prefix(b: Seq<char>, j: int)
    requires
        all_num_chars(b),
        0 <= j <= b.len(),
    ensures
        mantissa(b.take(j)) <= mantissa(b),
    decreases b.len(),
{
    if j == b.len() {
        assert(b.take(j) =~= b);
    } else {
        assert(all_num_chars(b.drop_last())) by {
            assert(forall|i: int|
                0 <= i < b.len() - 1 ==> #[trigger] b.drop_last()[i] == b[i]);
        }
        assert(b.drop_last().take(j) =~= b.take(j));
        lemma_mantissa_prefix(b.drop_last(), j);
        lemma_mantissa_nonneg(b.drop_last());
        if b.last() != '.' {
            assert(is_num_char(b[b.len() - 1]));
        }
    }
}

/// When the whole buffer holds a single dot that already appears in a
/// prefix, the digits after the dot only grow with the buffer.
proof fn lemma_frac_digits_suffix(b: Seq<char>, j: int)
    requires
        dot_count(b) <= 1,
        0 <= j <= b.len(),
        dot_count(b.take(j)) == 1,
    ensures
        frac_digits(b) >= frac_digits(b.take(j)),
    decreases b.len(),
{
    if j == b.len() {
        assert(b.take(j) =~= b);
    } else {
        assert(b.drop_last().take(j) =~= b.take(j));
        if b.last() == '.' {
            lemma_dot_count_prefix(b.drop_last(), j);
            assert(false);
        } else {
            lemma_frac_digits_suffix(b.drop_last(), j);
        }
    }
}

/// The count of digits after the last dot is never negative.
proof fn lemma_frac_digits_nonneg(b: Seq<char>)
    ensures
        0 <= frac_digits(b),
        0 <= frac_exp(b),
        0 <= dot_count(b),
    decreases b.len(),
{
    if b.len() > 0 {
        lemma_frac_digits_nonneg(b.drop_last());
    }
}

/// Ten to any power is positive.
pub(crate) proof fn lemma_pow10_pos(k: nat)
    ensures
        1 <= pow10(k),
    decreases k,
{
    if k > 0 {
        lemma_pow10_pos((k - 1) as nat);
    }
}

/// Powers of ten grow with the exponent.
proof fn lemma_pow10_mono(i: nat, j: nat)
    requires
        i <= j,
    ensures
        pow10(i) <= pow10(j),
    decreases j,
{
    if i < j {
        lemma_pow10_mono(i, (j - 1) as nat);
        lemma_pow10_pos((j - 1) as nat);
    }
}

/// The largest power of ten a denominator may take.
proof fn lemma_pow10_18()
    ensures
        pow10(18) == 1000000000000000000,
{
    assert(pow10(0) == 1);
    assert(pow10(1) == 10);
    assert(pow10(2) == 100);
    assert(pow10(3) == 1000);
    assert(pow10(4) == 10000);
    assert(pow10(5) == 100000);
    assert(pow10(6) == 1000000);
    assert(pow10(7) == 10000000);
    assert(pow10(8) == 100000000);
    assert(pow10(9) == 1000000000);
    assert(pow10(10) == 10000000000);
    assert(pow10(11) == 100000000000);
    assert(pow10(12) == 1000000000000);
    assert(pow10(13) == 10000000000000);
    assert(pow10(14) == 100000000000000);
    assert(pow10(15) == 1000000000000000);
    assert(pow10(16) == 10000000000000000);
    assert(pow10(17) == 100000000000000000);
    assert(pow10(18) == 1000000000000000000);
}

/// Computes ten to the `k`-th power for the denominators of parsed
/// literals.
fn pow10_exec(k: usize) -> (r: i64)
    requires
        k <= 18,
    ensures
        r == pow10(k as nat),
        1 <= r <= 1000000000000000000,
{
    proof {
        lemma_pow10_18();
    }
    let mut r: i64 = 1;
    let mut j: usize = 0;
    while j < k
        invariant
            0 <= j <= k <= 18,
            r == pow10(j as nat),
            1 <= r <= 1000000000000000000,
        decreases k - j,
    {
        proof {
            lemma_pow10_mono((j + 1) as nat, 18);
            lemma_pow10_18();
            lemma_pow10_pos(j as nat);
        }
        r = r * 10;
        j = j + 1;
    }
    proof {
        lemma_pow10_mono(k as nat, 18);
        lemma_pow10_18();
    }
    r
}

/// Relies on collecting an iterator of `char` into a `String`: the
/// result holds exactly the characters of the vector, in order.
#[verifier::external_body]
pub(crate) fn chars_to_string(chars: &Vec<char>) -> (s: String)
    ensures
        s@ == chars@,
{
    chars.iter().collect()
}

/// Maps a single operator or parenthesis character to its token, and
/// reports any other character as an `InvalidToken` failure.
fn get_token(c: char) -> (r: Result<Token, CalcError>)
    ensures
        match r {
            Ok(t) => op_token(c) == Some(t),
            Err(e) => {
                &&& op_token(c) is None
                &&& e matches CalcError::InvalidToken(m) && m@ == invalid_char_msg(c)
            },
        },
{
    match c {
        '+' => Ok(Token::Plus),
        '-' => Ok(Token::Minus),
        '*' => Ok(Token::Multiply),
        '/' => Ok(Token::Divide),
        '^' => Ok(Token::Power),
        '(' => Ok(Token::LParen),
        ')' => Ok(Token::RParen),
        _ => {
            let mut one: Vec<char> = Vec::new();
            one.push(c);
            let text = "Некорректный символ в выражении: '".to_owned().concat(
                chars_to_string(&one).as_str(),
            ).concat("'");
            proof {
                assert(one@ =~= seq![c]);
            }
            Err(CalcError::InvalidToken(text))
        },
    }
}

/// Parses the pending numeric buffer into an exact `Number`, failing
/// with `InvalidToken` over the buffer's own text when it is malformed
/// or does not fit the exact representation.
fn parse_number(buf: &Vec<char>) -> (r: Result<Number, CalcError>)
    requires
        all_num_chars(buf@),
        buf@.len() > 0,
    ensures
        match r {
            Ok(x) => {
                &&& buf_ok(buf@)
                &&& x.wf()
                &&& 0 <= x.num
                &&& x.num == mantissa(buf@)
                &&& x.den == pow10(frac_exp(buf@) as nat)
                &&& Token::Number(x) == buf_token(buf@)
            },
            Err(e) => {
                &&& !buf_ok(buf@)
                &&& e matches CalcError::InvalidToken(m) && m@ == buf@
            },
        },
{
    let ghost b = buf@;
    let mut acc: i64 = 0;
    let mut seen_dot: bool = false;
    let mut fcnt: usize = 0;
    let mut j: usize = 0;
    while j < buf.len()
        invariant
            b == buf@,
            all_num_chars(b),
            0 <= j <= b.len(),
            0 <= acc <= i64::MAX,
            acc == mantissa(b.take(j as int)),
            dot_count(b.take(j as int)) == if seen_dot {
                1int
            } else {
                0int
            },
            dot_count(b.take(j as int)) <= j,
            seen_dot ==> fcnt == frac_digits(b.take(j as int)) && fcnt <= 18,
        decreases b.len() - j,
    {
        let c = buf[j];
        proof {
            assert(b.take(j + 1).drop_last() =~= b.take(j as int));
            assert(b.take(j + 1).last() == b[j as int]);
            assert(is_num_char(b[j as int]));
        }
        if c == '.' {
            if seen_dot {
                proof {
                    lemma_dot_count_prefix(b, j + 1);
                }
                return Err(CalcError::InvalidToken(chars_to_string(buf)));
            }
            seen_dot = true;
            fcnt = 0;
        } else {
            let d = (c as u32 - 48) as i64;
            let wide = acc as i128 * 10 + d as i128;
            if wide > i64::MAX as i128 {
                proof {
                    lemma_mantissa_prefix(b, j + 1);
                }
                return Err(CalcError::InvalidToken(chars_to_string(buf)));
            }
            acc = wide as i64;
            if seen_dot {
                if fcnt == 18 {
                    proof {
                        if dot_count(b) <= 1 {
                            lemma_dot_count_prefix(b, j + 1);
                            lemma_frac_digits_suffix(b, j + 1);
                        }
                    }
                    return Err(CalcError::InvalidToken(chars_to_string(buf)));
                }
                fcnt = fcnt + 1;
            }
        }
        j = j + 1;
    }
    proof {
        assert(b.take(b.len() as int) =~= b);
    }
    let digits = if seen_dot {
        buf.len() - 1
    } else {
        buf.len()
    };
    if digits == 0 {
        return Err(CalcError::InvalidToken(chars_to_string(buf)));
    }
    let exp = if seen_dot {
        fcnt
    } else {
        0
    };
    let den = pow10_exec(exp);
    proof {
        lemma_mantissa_nonneg(b);
    }
    Ok(Number { num: acc, den })
}

/// Splits expression text into tokens: numeric literals of digits and
/// dots, the operators `+ - * / ^`, and parentheses, with whitespace
/// skipped. The output preserves input order; empty input yields an
/// empty sequence.
pub fn tokenize(input: &str) -> (r: Result<Vec<Token>, CalcError>)
    ensures
        match r {
            Ok(v) => {
                &&& spec_tokenize(input@) == (TokOut::Toks { toks: v@ })
                &&& wf_tokens(v@)
                &&& canonical_tokens(v@)
            },
            Err(e) => {
                &&& e matches CalcError::InvalidToken(m)
                    && spec_tokenize(input@) == (TokOut::Fail { msg: m@ })
            },
        },
{
    let ghost s = input@;
    let n = input.unicode_len();
    let mut tokens: Vec<Token> = Vec::new();
    let mut buf: Vec<char> = Vec::new();
    let mut i: usize = 0;
    proof {
        assert(s.skip(0) =~= s);
        lemma_append_out_empty(tok_rec(s, Seq::empty()));
    }
    while i < n
        invariant
            s == input@,
            n == s.len(),
            0 <= i <= n,
            all_num_chars(buf@),
            spec_tokenize(s) == append_out(tokens@, tok_rec(s.skip(i as int), buf@)),
            wf_tokens(tokens@),
            canonical_tokens(tokens@),
        decreases n - i,
    {
        let c = input.get_char(i);
        let ghost rem = s.skip(i as int);
        proof {
            assert(rem[0] == s[i as int]);
            assert(rem.drop_first() =~= s.skip(i + 1));
        }
        let u = c as u32;
        if (48 <= u && u <= 57) || c == '.' {
            buf.push(c);
            i = i + 1;
        } else {
            if buf.len() > 0 {
                match parse_number(&buf) {
                    Ok(x) => {
                        proof {
                            lemma_append_prepend(tokens@, buf_token(buf@), tok_rec(rem, Seq::empty()));
                            lemma_pow10_pos(frac_exp(buf@) as nat);
                            lemma_frac_digits_nonneg(buf@);
                            assert(canonical_number(x)) by {
                                assert(frac_exp(buf@) as nat <= 18 && x.den == pow10(
                                    frac_exp(buf@) as nat,
                                ));
                            }
                            lemma_push_token(tokens@, Token::Number(x));
                        }
                        tokens.push(Token::Number(x));
                        buf = Vec::new();
                    },
                    Err(e) => {
                        return Err(e);
                    },
                }
            }
            if c == ' ' || c == '\t' || c == '\n' || c == '\r' {
                i = i + 1;
            } else {
                match get_token(c) {
                    Ok(t) => {
                        proof {
                            lemma_append_prepend(tokens@, t, tok_rec(s.skip(i + 1), buf@));
                            assert(t.wf() && canonical_token(t));
                            lemma_push_token(tokens@, t);
                        }
                        tokens.push(t);
                        i = i + 1;
                    },
                    Err(e) => {
                        return Err(e);
                    },
                }
            }
        }
    }
    proof {
        assert(s.skip(n as int) =~= Seq::<char>::empty());
    }
    if buf.len() > 0 {
        match parse_number(&buf) {
            Ok(x) => {
                proof {
                    lemma_pow10_pos(frac_exp(buf@) as nat);
                    lemma_frac_digits_nonneg(buf@);
                    assert(canonical_number(x)) by {
                        assert(frac_exp(buf@) as nat <= 18 && x.den == pow10(
                            frac_exp(buf@) as nat,
                        ));
                    }
                    lemma_push_token(tokens@, Token::Number(x));
                }
                let ghost old_toks = tokens@;
                tokens.push(Token::Number(x));
                proof {
                    assert(tokens@ =~= old_toks.push(Token::Number(x)));
                    assert(old_toks + seq![buf_token(buf@)] =~= tokens@);
                }
            },
            Err(e) => {
                return Err(e);
            },
        }
    }
    proof {
        assert(tokens@ + Seq::<Token>::empty() =~= tokens@);
    }
    Ok(tokens)
}

/// Appending no finished tokens leaves an outcome unchanged.
proof fn lemma_append_out_empty(o: TokOut)
    ensures
        append_out(Seq::empty(), o) == o,
{
    match o {
        TokOut::Toks { toks } => {
            assert(Seq::empty() + toks =~= toks);
        },
        TokOut::Fail { msg } => {},
    }
}

/// Pushing a well-formed canonical token keeps a token sequence
/// well-formed and canonical.
proof fn lemma_push_token(s: Seq<Token>, t: Token)
    requires
        wf_tokens(s),
        canonical_tokens(s),
        t.wf(),
        canonical_token(t),
    ensures
        wf_tokens(s.push(t)),
        canonical_tokens(s.push(t)),
{
    assert forall|i: int| 0 <= i < s.push(t).len() implies (#[trigger] s.push(t)[i]).wf()
        && canonical_token(s.push(t)[i]) by {
        if i < s.len() {
            assert(s.push(t)[i] == s[i]);
            assert(s[i].wf() && canonical_token(s[i]));
        } else {
            assert(s.push(t)[i] == t);
        }
    }
}

/// Finished tokens can be moved from the pending outcome into the
/// accumulated output one at a time.
proof fn lemma_append_prepend(ts: Seq<Token>, t: Token, o: TokOut)
    ensures
        append_out(ts, prepend_out(t, o)) == append_out(ts.push(t), o),
{
    match o {
        TokOut::Toks { toks } => {
            assert(ts + (seq![t] + toks) =~= ts.push(t) + toks);
        },
        TokOut::Fail { msg } => {},
    }
}

} // verus!

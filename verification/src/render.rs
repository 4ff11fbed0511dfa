//! Rendering tokens back to expression text.
//!
//! `serialize_tokens` writes a token sequence as text that the
//! tokenizer reads back to the identical sequence; the round trip is
//! proved in `lemma_serialize_round_trip`.

use crate::parser::Token;
use crate::parser::all_num_chars;
use crate::parser::buf_ok;
use crate::parser::buf_token;
use crate::parser::canonical_token;
use crate::parser::canonical_tokens;
use crate::parser::chars_to_string;
use crate::parser::digit_val;
use crate::parser::dot_count;
use crate::parser::frac_digits;
use crate::parser::frac_exp;
use crate::parser::is_digit_char;
use crate::parser::is_num_char;
use crate::parser::is_space_char;
use crate::parser::mantissa;
use crate::parser::op_token;
use crate::parser::pow10;
use crate::parser::prepend_out;
use crate::parser::spec_tokenize;
use crate::parser::tok_rec;
use crate::parser::TokOut;
use crate::number::Number;
use vstd::prelude::*;

verus! {

/// The character for one decimal digit.
pub open spec fn digit_char(d: int) -> char {
    ((48 + d) as u8) as char
}

/// The decimal digits of a non-negative number, most significant
/// first.
pub open spec fn dec_digits(n: int) -> Seq<char>
    decreases n,
{
    if n < 10 {
        seq![digit_char(n)]
    } else {
        dec_digits(n / 10).push(digit_char(n % 10))
    }
}

/// A run of `k` zero characters (none when `k` is not positive).
pub open spec fn zeros(k: int) -> Seq<char> {
    Seq::new(
        if k < 0 {
            0
        } else {
            k as nat
        },
        |i: int| '0',
    )
}

/// The text of the fraction `n / 10^f`: the digits of `n`, left-padded
/// with zeros so that a digit stands before the dot, and the dot
/// inserted `f` places from the right (no dot when `f` is zero).
pub open spec fn num_text(n: int, f: int) -> Seq<char> {
    let ds = dec_digits(n);
    let w = zeros(f + 1 - ds.len()) + ds;
    if f == 0 {
        w
    } else {
        w.take(w.len() - f) + seq!['.'] + w.skip(w.len() - f)
    }
}

/// The exponent of a power of ten: how often it divides by ten before
/// reaching one.
pub open spec fn den_exp(d: int) -> nat
    decreases d,
{
    if d <= 1 {
        0
    } else {
        1 + den_exp(d / 10)
    }
}

/// The text of one token.
pub open spec fn token_text(t: Token) -> Seq<char> {
    match t {
        Token::Number(x) => num_text(x.num as int, den_exp(x.den as int) as int),
        Token::Plus => seq!['+'],
        Token::Minus => seq!['-'],
        Token::Multiply => seq!['*'],
        Token::Divide => seq!['/'],
        Token::Power => seq!['^'],
        Token::UnaryMinus => seq!['-'],
        Token::LParen => seq!['('],
        Token::RParen => seq![')'],
    }
}

/// The text of a token sequence: each token's text followed by one
/// space.
pub open spec fn spec_serialize(toks: Seq<Token>) -> Seq<char>
    decreases toks.len(),
{
    if toks.len() == 0 {
        Seq::empty()
    } else {
        token_text(toks[0]) + seq![' '] + spec_serialize(toks.drop_first())
    }
}

/// A digit character reads back as the digit it was made from.
proof fn lemma_digit_char_val(d: int)
    requires
        0 <= d <= 9,
    ensures
        is_digit_char(digit_char(d)),
        !(digit_char(d) == '.'),
        digit_val(digit_char(d)) == d,
{
}

/// Appends every character of `add` to `out`.
fn push_all(out: &mut Vec<char>, add: &Vec<char>)
    ensures
        final(out)@ == old(out)@ + add@,
{
    let mut i: usize = 0;
    proof {
        assert(out@ =~= old(out)@ + add@.take(0));
    }
    while i < add.len()
        invariant
            0 <= i <= add@.len(),
            out@ == old(out)@ + add@.take(i as int),
        decreases add@.len() - i,
    {
        out.push(add[i]);
        i = i + 1;
        proof {
            assert(old(out)@ + add@.take(i as int) =~= (old(out)@ + add@.take(
                i - 1,
            )).push(add@[i - 1]));
        }
    }
    proof {
        assert(add@.take(add@.len() as int) =~= add@);
    }
}

/// The executable counterpart of `dec_digits`.
fn dec_digits_exec(n: u64) -> (v: Vec<char>)
    ensures
        v@ == dec_digits(n as int),
    decreases n,
{
    if n < 10 {
        let mut v: Vec<char> = Vec::new();
        v.push((48 + n as u8) as char);
        proof {
            assert(v@ =~= seq![digit_char(n as int)]);
        }
        v
    } else {
        let mut v = dec_digits_exec(n / 10);
        v.push((48 + (n % 10) as u8) as char);
        proof {
            assert(v@ =~= dec_digits((n / 10) as int).push(digit_char((n % 10) as int)));
            assert((n / 10) as int == (n as int) / 10);
            assert((n % 10) as int == (n as int) % 10);
        }
        v
    }
}

/// The executable counterpart of `den_exp` for a denominator that is a
/// power of ten.
fn den_exp_exec(den: i64) -> (f: usize)
    requires
        exists|f0: nat| f0 <= 18 && den == pow10(f0),
    ensures
        f as nat == den_exp(den as int),
        f <= 18,
{
    let ghost f0 = choose|f0: nat| f0 <= 18 && den == pow10(f0);
    proof {
        lemma_den_exp_pow10(f0);
        crate::parser::lemma_pow10_pos(f0);
    }
    let mut d = den;
    let mut f: usize = 0;
    while d > 1
        invariant
            f <= f0 <= 18,
            d == pow10((f0 - f) as nat),
            1 <= d,
        decreases d,
    {
        proof {
            let g = (f0 - f) as nat;
            if g == 0 {
                assert(d == 1);
                assert(false);
            }
            crate::parser::lemma_pow10_pos((g - 1) as nat);
            assert(d == 10 * pow10((g - 1) as nat));
            assert((10 * pow10((g - 1) as nat)) / 10 == pow10((g - 1) as nat))
                by (nonlinear_arith);
        }
        d = d / 10;
        f = f + 1;
    }
    proof {
        let g = (f0 - f) as nat;
        if g > 0 {
            crate::parser::lemma_pow10_pos((g - 1) as nat);
            assert(d == 10 * pow10((g - 1) as nat));
            assert(d > 1);
            assert(false);
        }
        assert(f == f0);
    }
    f
}

/// Appends the text of the fraction `x` to `out`.
fn push_number(out: &mut Vec<char>, x: Number)
    requires
        0 <= x.num,
        exists|f0: nat| f0 <= 18 && x.den == pow10(f0),
    ensures
        final(out)@ == old(out)@ + num_text(x.num as int, den_exp(x.den as int) as int),
{
    let f = den_exp_exec(x.den);
    let ds = dec_digits_exec(x.num as u64);
    let pad: usize = if ds.len() >= f + 1 {
        0
    } else {
        f + 1 - ds.len()
    };
    let mut w: Vec<char> = Vec::new();
    let mut j: usize = 0;
    while j < pad
        invariant
            0 <= j <= pad,
            w@ =~= zeros(j as int),
        decreases pad - j,
    {
        w.push('0');
        j = j + 1;
        proof {
            assert(w@ =~= zeros(j as int));
        }
    }
    proof {
        assert(zeros(pad as int) =~= zeros(f + 1 - ds@.len()));
    }
    push_all(&mut w, &ds);
    let ghost wspec = zeros(f + 1 - ds@.len()) + dec_digits(x.num as int);
    proof {
        assert(w@ == wspec);
    }
    if f == 0 {
        push_all(out, &w);
        proof {
            assert(num_text(x.num as int, 0) == wspec);
        }
    } else {
        let k = w.len() - f;
        let ghost out0 = out@;
        let mut j2: usize = 0;
        while j2 < k
            invariant
                0 <= j2 <= k,
                k == w@.len() - f,
                w@ == wspec,
                out@ == out0 + w@.take(j2 as int),
            decreases k - j2,
        {
            out.push(w[j2]);
            j2 = j2 + 1;
            proof {
                assert(out0 + w@.take(j2 as int) =~= (out0 + w@.take(j2 - 1)).push(
                    w@[j2 - 1],
                ));
            }
        }
        out.push('.');
        let ghost out1 = out@;
        proof {
            assert(out1 =~= out0 + w@.take(k as int) + seq!['.']);
        }
        let mut j3: usize = k;
        while j3 < w.len()
            invariant
                k <= j3 <= w@.len(),
                w@ == wspec,
                out1 == out0 + w@.take(k as int) + seq!['.'],
                out@ == out1 + w@.skip(k as int).take(j3 - k),
            decreases w@.len() - j3,
        {
            out.push(w[j3]);
            j3 = j3 + 1;
            proof {
                assert(w@.skip(k as int)[j3 - 1 - k] == w@[j3 - 1]);
                assert(out1 + w@.skip(k as int).take(j3 - k) =~= (out1 + w@.skip(k as int).take(
                    j3 - 1 - k,
                )).push(w@[j3 - 1]));
            }
        }
        proof {
            assert(w@.skip(k as int).take(w@.len() - k) =~= w@.skip(k as int));
            assert(out@ =~= out0 + (w@.take(k as int) + seq!['.'] + w@.skip(k as int)));
            assert(num_text(x.num as int, f as int) == w@.take(k as int) + seq!['.'] + w@.skip(
                k as int,
            ));
        }
    }
}

/// Renders a token sequence as expression text: each token's text
/// followed by a single space, numbers written as decimal literals.
pub fn serialize_tokens(tokens: &Vec<Token>) -> (r: String)
    requires
        canonical_tokens(tokens@),
    ensures
        r@ == spec_serialize(tokens@),
{
    let ghost s = tokens@;
    let mut out: Vec<char> = Vec::new();
    let mut i: usize = 0;
    proof {
        assert(s.skip(0) =~= s);
        assert(Seq::<char>::empty() + spec_serialize(s) =~= spec_serialize(s));
    }
    while i < tokens.len()
        invariant
            s == tokens@,
            0 <= i <= s.len(),
            canonical_tokens(s),
            spec_serialize(s) == out@ + spec_serialize(s.skip(i as int)),
        decreases s.len() - i,
    {
        let ghost rem = s.skip(i as int);
        let ghost out0 = out@;
        proof {
            assert(rem[0] == s[i as int]);
            assert(rem.drop_first() =~= s.skip(i + 1));
            assert(canonical_token(s[i as int]));
        }
        let t = tokens[i];
        match t {
            Token::Number(x) => {
                push_number(&mut out, x);
            },
            Token::Plus => out.push('+'),
            Token::Minus => out.push('-'),
            Token::Multiply => out.push('*'),
            Token::Divide => out.push('/'),
            Token::Power => out.push('^'),
            Token::LParen => out.push('('),
            Token::RParen => out.push(')'),
            Token::UnaryMinus => unreached(),
        }
        proof {
            assert(out@ =~= out0 + token_text(t));
        }
        out.push(' ');
        i = i + 1;
        proof {
            assert(out@ =~= (out0 + token_text(t)).push(' '));
            assert(spec_serialize(rem) == token_text(t) + seq![' '] + spec_serialize(
                rem.drop_first(),
            ));
            assert(out0 + (token_text(t) + seq![' '] + spec_serialize(s.skip(i as int)))
                =~= (out0 + token_text(t)).push(' ') + spec_serialize(s.skip(i as int)));
        }
    }
    proof {
        assert(s.skip(s.len() as int) =~= Seq::<Token>::empty());
        assert(out@ + Seq::<char>::empty() =~= out@);
    }
    chars_to_string(&out)
}

/// Every character of the sequence is a digit.
pub open spec fn all_digits(s: Seq<char>) -> bool {
    forall|i: int| 0 <= i < s.len() ==> is_digit_char(#[trigger] s[i])
}

/// The decimal digits of `n` are digits, nonempty, and read back as
/// `n`.
proof fn lemma_dec_digits(n: int)
    requires
        0 <= n,
    ensures
        all_digits(dec_digits(n)),
        dec_digits(n).len() >= 1,
        mantissa(dec_digits(n)) == n,
    decreases n,
{
    if n < 10 {
        lemma_digit_char_val(n);
        let ds = dec_digits(n);
        assert(ds.len() == 1);
        assert(ds.last() == digit_char(n));
        assert(ds.drop_last() =~= Seq::<char>::empty());
        assert(mantissa(ds.drop_last()) == 0);
        assert(mantissa(ds) == 10 * mantissa(ds.drop_last()) + digit_val(ds.last()));
        assert(mantissa(ds) == n);
    } else {
        lemma_dec_digits(n / 10);
        lemma_digit_char_val(n % 10);
        let pre = dec_digits(n / 10);
        let ds = dec_digits(n);
        assert(ds == pre.push(digit_char(n % 10)));
        assert(ds.drop_last() =~= pre);
        assert(ds.last() == digit_char(n % 10));
        assert(mantissa(ds) == 10 * (n / 10) + n % 10);
        assert forall|i: int| 0 <= i < ds.len() implies is_digit_char(#[trigger] ds[i]) by {
            if i < pre.len() {
                assert(ds[i] == pre[i]);
            }
        }
    }
}

/// A sequence of digits holds no dot, and all its characters count as
/// digits after the (absent) dot.
proof fn lemma_all_digits_facts(s: Seq<char>)
    requires
        all_digits(s),
    ensures
        dot_count(s) == 0,
        frac_digits(s) == s.len(),
        all_num_chars(s),
    decreases s.len(),
{
    if s.len() > 0 {
        assert(is_digit_char(s[s.len() - 1]));
        assert(s.last() != '.');
        assert forall|i: int| 0 <= i < s.drop_last().len() implies is_digit_char(
            #[trigger] s.drop_last()[i],
        ) by {
            assert(s.drop_last()[i] == s[i]);
        }
        lemma_all_digits_facts(s.drop_last());
    }
}

/// Prepending zeros leaves the mantissa of a digit sequence unchanged.
proof fn lemma_mantissa_zero_prefix(u: Seq<char>, v: Seq<char>)
    requires
        forall|i: int| 0 <= i < u.len() ==> u[i] == '0',
    ensures
        mantissa(u + v) == mantissa(v),
    decreases v.len(),
{
    if v.len() == 0 {
        assert(u + v =~= u);
        lemma_mantissa_all_zeros(u);
    } else {
        assert((u + v).drop_last() =~= u + v.drop_last());
        assert((u + v).last() == v.last());
        lemma_mantissa_zero_prefix(u, v.drop_last());
    }
}

/// A sequence of zeros has mantissa zero.
proof fn lemma_mantissa_all_zeros(u: Seq<char>)
    requires
        forall|i: int| 0 <= i < u.len() ==> u[i] == '0',
    ensures
        mantissa(u) == 0,
    decreases u.len(),
{
    if u.len() > 0 {
        assert(u.last() == '0');
        lemma_digit_char_val(0);
        assert(digit_char(0) == '0');
        assert forall|i: int| 0 <= i < u.drop_last().len() implies u.drop_last()[i] == '0' by {
            assert(u.drop_last()[i] == u[i]);
        }
        lemma_mantissa_all_zeros(u.drop_last());
    }
}

/// Inserting a dot `k` places into a digit sequence keeps the
/// mantissa, puts exactly one dot, and leaves `len - k` digits after
/// it.
proof fn lemma_dot_insert(w: Seq<char>, k: int)
    requires
        all_digits(w),
        0 <= k <= w.len(),
    ensures
        mantissa(w.take(k) + seq!['.'] + w.skip(k)) == mantissa(w),
        dot_count(w.take(k) + seq!['.'] + w.skip(k)) == 1,
        frac_digits(w.take(k) + seq!['.'] + w.skip(k)) == w.len() - k,
        all_num_chars(w.take(k) + seq!['.'] + w.skip(k)),
    decreases w.len() - k,
{
    let t = w.take(k) + seq!['.'] + w.skip(k);
    lemma_all_digits_facts(w);
    assert forall|i: int| 0 <= i < t.len() implies is_num_char(#[trigger] t[i]) by {
        if i < k {
            assert(t[i] == w[i]);
        } else if i == k {
            assert(t[i] == '.');
        } else {
            assert(t[i] == w[i - 1]);
        }
    }
    if k == w.len() {
        assert(t =~= w.push('.'));
        assert(t.drop_last() =~= w);
        assert(t.last() == '.');
    } else {
        let w1 = w.drop_last();
        assert forall|i: int| 0 <= i < w1.len() implies is_digit_char(#[trigger] w1[i]) by {
            assert(w1[i] == w[i]);
        }
        lemma_dot_insert(w1, k);
        let t1 = w1.take(k) + seq!['.'] + w1.skip(k);
        assert(w1.take(k) =~= w.take(k));
        assert(w1.skip(k) =~= w.skip(k).drop_last());
        assert(t.drop_last() =~= t1);
        assert(t.last() == w.last());
        assert(is_digit_char(w[w.len() - 1]));
    }
}

/// The rendered text of the fraction `n / 10^f` is a valid numeric
/// literal that parses back to exactly that fraction.
proof fn lemma_num_text(n: int, f: int)
    requires
        0 <= n <= i64::MAX,
        0 <= f <= 18,
    ensures
        all_num_chars(num_text(n, f)),
        num_text(n, f).len() > 0,
        buf_ok(num_text(n, f)),
        mantissa(num_text(n, f)) == n,
        frac_exp(num_text(n, f)) == f,
{
    lemma_dec_digits(n);
    let ds = dec_digits(n);
    let z = zeros(f + 1 - ds.len());
    let w = z + ds;
    assert(forall|i: int| 0 <= i < z.len() ==> z[i] == '0');
    lemma_digit_char_val(0);
    assert forall|i: int| 0 <= i < w.len() implies is_digit_char(#[trigger] w[i]) by {
        if i < z.len() {
            assert(w[i] == z[i]);
            assert(w[i] == '0');
        } else {
            assert(w[i] == ds[i - z.len()]);
        }
    }
    lemma_all_digits_facts(w);
    lemma_mantissa_zero_prefix(z, ds);
    assert(mantissa(w) == n);
    assert(w.len() >= f + 1);
    if f == 0 {
        assert(num_text(n, f) == w);
    } else {
        let k = w.len() - f;
        lemma_dot_insert(w, k);
    }
}

/// `den_exp` recovers the exponent of a power of ten.
proof fn lemma_den_exp_pow10(f: nat)
    ensures
        den_exp(pow10(f)) == f,
    decreases f,
{
    if f > 0 {
        crate::parser::lemma_pow10_pos((f - 1) as nat);
        let p = pow10((f - 1) as nat);
        assert(pow10(f) == 10 * p);
        assert((10 * p) / 10 == p) by (nonlinear_arith);
        assert(10 * p > 1);
        lemma_den_exp_pow10((f - 1) as nat);
    }
}

/// Text that begins with buffer characters tokenizes like the rest of
/// the text with those characters already in the buffer.
proof fn lemma_tok_append_num(u: Seq<char>, v: Seq<char>, b: Seq<char>)
    requires
        all_num_chars(u),
    ensures
        tok_rec(u + v, b) == tok_rec(v, b + u),
    decreases u.len(),
{
    if u.len() == 0 {
        assert(u + v =~= v);
        assert(b + u =~= b);
    } else {
        let c = u[0];
        assert(is_num_char(c));
        assert((u + v).len() > 0);
        assert((u + v)[0] == c);
        assert((u + v).drop_first() =~= u.drop_first() + v);
        assert forall|i: int| 0 <= i < u.drop_first().len() implies is_num_char(
            #[trigger] u.drop_first()[i],
        ) by {
            assert(u.drop_first()[i] == u[i + 1]);
        }
        lemma_tok_append_num(u.drop_first(), v, b.push(c));
        assert(b.push(c) + u.drop_first() =~= b + u);
    }
}

/// Tokenizing the rendered text of a canonical token sequence yields
/// exactly that sequence back: serialization loses no information.
pub proof fn lemma_serialize_round_trip(toks: Seq<Token>)
    requires
        canonical_tokens(toks),
    ensures
        spec_tokenize(spec_serialize(toks)) == (TokOut::Toks { toks }),
    decreases toks.len(),
{
    if toks.len() == 0 {
        assert(spec_serialize(toks) == Seq::<char>::empty());
        assert(toks =~= Seq::<Token>::empty());
    } else {
        let t = toks[0];
        let rest = toks.drop_first();
        assert(canonical_token(t));
        assert forall|i: int| 0 <= i < rest.len() implies canonical_token(#[trigger] rest[i]) by {
            assert(rest[i] == toks[i + 1]);
        }
        lemma_serialize_round_trip(rest);
        let srest = spec_serialize(rest);
        let tail = seq![' '] + srest;
        assert(spec_serialize(toks) =~= token_text(t) + tail);
        assert(tail[0] == ' ');
        assert(tail.drop_first() =~= srest);
        match t {
            Token::Number(x) => {
                let f = choose|f: nat| f <= 18 && x.den == pow10(f);
                lemma_den_exp_pow10(f);
                let txt = num_text(x.num as int, f as int);
                assert(token_text(t) == txt);
                lemma_num_text(x.num as int, f as int);
                lemma_tok_append_num(txt, tail, Seq::empty());
                assert(Seq::<char>::empty() + txt =~= txt);
                assert(tok_rec(txt + tail, Seq::empty()) == tok_rec(tail, txt));
                assert(!is_num_char(' '));
                assert(buf_token(txt) == t) by {
                    assert(mantissa(txt) == x.num as int);
                    assert(frac_exp(txt) == f as int);
                    assert(pow10(frac_exp(txt) as nat) == x.den as int);
                }
                assert(tok_rec(tail, txt) == prepend_out(t, tok_rec(tail, Seq::empty())));
                assert(tok_rec(tail, Seq::empty()) == tok_rec(srest, Seq::empty()));
                assert(prepend_out(t, TokOut::Toks { toks: rest }) == (TokOut::Toks {
                    toks: seq![t] + rest,
                }));
                assert(seq![t] + rest =~= toks);
            },
            Token::UnaryMinus => {
                assert(false);
            },
            _ => {
                let c = token_text(t)[0];
                assert(token_text(t) =~= seq![c]);
                let s = spec_serialize(toks);
                assert(s[0] == c);
                assert(s.drop_first() =~= tail);
                assert(op_token(c) == Some(t));
                assert(!is_num_char(c));
                assert(!is_space_char(c));
                assert(tok_rec(s, Seq::empty()) == prepend_out(t, tok_rec(tail, Seq::empty())));
                assert(tok_rec(tail, Seq::empty()) == tok_rec(srest, Seq::empty()));
                assert(prepend_out(t, TokOut::Toks { toks: rest }) == (TokOut::Toks {
                    toks: seq![t] + rest,
                }));
                assert(seq![t] + rest =~= toks);
            },
        }
    }
}

} // verus!

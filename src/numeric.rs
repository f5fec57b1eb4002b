use vstd::prelude::*;
use smallvec::SmallVec;
use crate::ast::{Number, ParserError, Value};
use crate::block_parser::{tokens_wf, BlockParser};
use crate::token::{is_trivia, is_trivia_kind, Span, Token, TokenKind};

verus! {

/// A small buffer of tokens kept inline; its contents are `buf_items`.
#[verifier::external_body]
pub struct TokenBuf {
    inner: SmallVec<[Token; 4]>,
}

/// The tokens held by a buffer, in order.
pub uninterp spec fn buf_items(v: TokenBuf) -> Seq<Token>;

/// Relies on `smallvec::SmallVec::new`: the new vector holds nothing.
#[verifier::external_body]
fn buf_new() -> (r: TokenBuf)
    ensures
        buf_items(r) == Seq::<Token>::empty(),
{
    TokenBuf { inner: SmallVec::new() }
}

/// Relies on `smallvec::SmallVec::push`: the item is added at the end.
#[verifier::external_body]
fn buf_push(v: &mut TokenBuf, t: Token)
    ensures
        buf_items(*final(v)) == buf_items(*old(v)).push(t),
{
    v.inner.push(t)
}

/// Relies on `smallvec::SmallVec::as_slice`: the items, in order.
#[verifier::external_body]
fn buf_slice(v: &TokenBuf) -> (r: &[Token])
    ensures
        r@ == buf_items(*v),
{
    v.inner.as_slice()
}

pub open spec fn is_digit(b: u8) -> bool {
    48u8 <= b <= 57u8
}

pub open spec fn all_digits(s: Seq<u8>) -> bool {
    forall|i: int| 0 <= i < s.len() ==> is_digit(#[trigger] s[i])
}

/// The number that a string of decimal digits writes.
pub open spec fn digits_value(s: Seq<u8>) -> nat
    decreases s.len(),
{
    if s.len() == 0 {
        0
    } else {
        digits_value(s.drop_last()) * 10 + (s.last() - 48u8) as nat
    }
}

pub open spec fn pow10(k: nat) -> nat
    decreases k,
{
    if k == 0 {
        1
    } else {
        10 * pow10((k - 1) as nat)
    }
}

proof fn lemma_digits_monotone(s: Seq<u8>, i: int)
    requires
        0 <= i <= s.len(),
        all_digits(s),
    ensures
        digits_value(s.subrange(0, i)) <= digits_value(s),
    decreases s.len() - i,
{
    if i < s.len() {
        lemma_digits_monotone(s, i + 1);
        assert(s.subrange(0, i + 1).drop_last() == s.subrange(0, i));
    } else {
        assert(s.subrange(0, i) == s);
    }
}

proof fn lemma_digits_below_pow(s: Seq<u8>)
    requires
        all_digits(s),
    ensures
        digits_value(s) < pow10(s.len()),
    decreases s.len(),
{
    if s.len() > 0 {
        let d = s.drop_last();
        assert(all_digits(d)) by {
            assert forall|i: int| 0 <= i < d.len() implies is_digit(#[trigger] d[i]) by {
                assert(d[i] == s[i]);
            }
        }
        lemma_digits_below_pow(d);
        assert(is_digit(s[s.len() - 1]));
        assert(digits_value(s) <= (pow10(d.len()) - 1) * 10 + 9) by (nonlinear_arith)
            requires
                digits_value(s) == digits_value(d) * 10 + (s.last() - 48u8) as nat,
                digits_value(d) <= pow10(d.len()) - 1,
                (s.last() - 48u8) as nat <= 9,
        ;
    }
}

/// Reads a string of decimal digits that fits in 64 bits.
pub fn parse_digits(s: &[u8]) -> (r: Option<u64>)
    ensures
        r.is_some() <==> (all_digits(s@) && digits_value(s@) <= u64::MAX),
        r.is_some() ==> r.unwrap() == digits_value(s@),
{
    let mut v: u64 = 0;
    let mut i: usize = 0;
    while i < s.len()
        invariant
            i <= s@.len(),
            all_digits(s@.subrange(0, i as int)),
            v == digits_value(s@.subrange(0, i as int)),
        decreases s@.len() - i,
    {
        let b = s[i];
        assert(s@.subrange(0, i + 1).drop_last() == s@.subrange(0, i as int));
        if b < 48u8 || b > 57u8 {
            assert(!is_digit(s@[i as int]));
            return None;
        }
        let next: u128 = v as u128 * 10 + (b - 48u8) as u128;
        if next > u64::MAX as u128 {
            proof {
                assert(all_digits(s@.subrange(0, i + 1)));
                if all_digits(s@) {
                    lemma_digits_monotone(s@, i + 1);
                }
            }
            return None;
        }
        v = next as u64;
        i += 1;
    }
    assert(s@.subrange(0, i as int) == s@);
    Some(v)
}

/// The value of an integer literal: it must fit in 32 bits.
pub open spec fn int_spec(bytes: Seq<u8>, span: Span) -> Result<Number, ParserError> {
    if bytes.len() > 0 && all_digits(bytes) && digits_value(bytes) <= u32::MAX {
        Ok(Number { numer: digits_value(bytes) as u64, denom: 1 })
    } else {
        Err(ParserError::ParseInt { bad_bit: span })
    }
}

/// The position of the first `.` in `s`, or `s.len()`.
pub open spec fn dot_at(s: Seq<u8>) -> nat
    decreases s.len(),
{
    if s.len() == 0 {
        0
    } else if s[0] == 46u8 {
        0
    } else {
        1 + dot_at(s.drop_first())
    }
}

/// The exact value of a decimal literal `a.b`, when its numerator and
/// denominator both fit in 64 bits.
pub open spec fn float_spec(bytes: Seq<u8>, span: Span) -> Result<Number, ParserError> {
    let k = dot_at(bytes);
    let a = bytes.subrange(0, k as int);
    let b = bytes.subrange(k as int + 1, bytes.len() as int);
    if k < bytes.len() && bytes.len() > 1 && all_digits(a) && all_digits(b)
        && pow10(b.len()) <= u64::MAX
        && digits_value(a) * pow10(b.len()) + digits_value(b) <= u64::MAX {
        Ok(Number {
            numer: (digits_value(a) * pow10(b.len()) + digits_value(b)) as u64,
            denom: pow10(b.len()) as u64,
        })
    } else {
        Err(ParserError::ParseFloat { bad_bit: span })
    }
}

proof fn lemma_dot_at(s: Seq<u8>)
    ensures
        dot_at(s) <= s.len(),
        forall|i: int| 0 <= i < dot_at(s) ==> #[trigger] s[i] != 46u8,
        dot_at(s) < s.len() ==> s[dot_at(s) as int] == 46u8,
    decreases s.len(),
{
    if s.len() > 0 && s[0] != 46u8 {
        lemma_dot_at(s.drop_first());
        assert forall|i: int| 0 <= i < dot_at(s) implies #[trigger] s[i] != 46u8 by {
            if i > 0 {
                assert(s[i] == s.drop_first()[i - 1]);
            }
        }
    }
}

proof fn lemma_dot_exact(s: Seq<u8>, k: nat)
    requires
        k <= s.len(),
        forall|i: int| 0 <= i < k ==> #[trigger] s[i] != 46u8,
        k < s.len() ==> s[k as int] == 46u8,
    ensures
        dot_at(s) == k,
    decreases s.len(),
{
    if k > 0 {
        assert(s[0] != 46u8);
        assert forall|i: int| 0 <= i < k - 1 implies #[trigger] s.drop_first()[i] != 46u8 by {
            assert(s.drop_first()[i] == s[i + 1]);
        }
        if k < s.len() {
            assert(s.drop_first()[k - 1] == s[k as int]);
        }
        lemma_dot_exact(s.drop_first(), (k - 1) as nat);
    }
}

/// Finds the first `.` of `s`.
fn find_dot(s: &[u8]) -> (r: usize)
    ensures
        r == dot_at(s@),
{
    let mut i: usize = 0;
    while i < s.len() && s[i] != 46u8
        invariant
            i <= s@.len(),
            forall|j: int| 0 <= j < i ==> #[trigger] s@[j] != 46u8,
        decreases s@.len() - i,
    {
        i += 1;
    }
    proof { lemma_dot_exact(s@, i as nat); }
    i
}

/// `10^k` when it fits in 64 bits.
fn pow10_checked(k: usize) -> (r: Option<u64>)
    ensures
        r.is_some() <==> pow10(k as nat) <= u64::MAX,
        r.is_some() ==> r.unwrap() == pow10(k as nat),
{
    let mut p: u64 = 1;
    let mut i: usize = 0;
    while i < k
        invariant
            i <= k,
            p == pow10(i as nat),
        decreases k - i,
    {
        if p > u64::MAX / 10 {
            proof { lemma_pow10_grows(i as nat, k as nat); }
            return None;
        }
        p = p * 10;
        i += 1;
    }
    Some(p)
}

proof fn lemma_pow10_grows(i: nat, k: nat)
    requires
        i < k,
    ensures
        pow10(k) >= 10 * pow10(i),
    decreases k - i,
{
    if i + 1 < k {
        lemma_pow10_grows(i + 1, k);
        lemma_pow10_pos(i);
    }
}

proof fn lemma_pow10_pos(k: nat)
    ensures
        pow10(k) >= 1,
    decreases k,
{
    if k > 0 {
        lemma_pow10_pos((k - 1) as nat);
    }
}

impl<'t, 'i> BlockParser<'t, 'i> {
    /// The source bytes of a token.
    pub open spec fn bytes_of(&self, t: Token) -> Seq<u8> {
        self.input@.subrange(t.span.start as int, t.span.end as int)
    }
}

/// Reads an integer literal.
pub fn int_value(tok: Token, bp: &BlockParser) -> (r: Result<Number, ParserError>)
    requires
        tok.kind == TokenKind::Int,
        tok.span.start <= tok.span.end <= bp.input@.len(),
    ensures
        r == int_spec(bp.bytes_of(tok), tok.span),
{
    let bytes = bp.as_bytes(tok);
    if bytes.len() == 0 {
        return Err(ParserError::ParseInt { bad_bit: tok.span });
    }
    match parse_digits(bytes.as_slice()) {
        Some(v) if v <= u32::MAX as u64 => Ok(Number { numer: v, denom: 1 }),
        _ => Err(ParserError::ParseInt { bad_bit: tok.span }),
    }
}

/// Reads a decimal literal exactly.
pub fn float_value(tok: Token, bp: &BlockParser) -> (r: Result<Number, ParserError>)
    requires
        tok.kind == TokenKind::Float,
        tok.span.start <= tok.span.end <= bp.input@.len(),
    ensures
        r == float_spec(bp.bytes_of(tok), tok.span),
{
    let bytes = bp.as_bytes(tok);
    let ghost s = bytes@;
    let k = find_dot(bytes.as_slice());
    if k >= bytes.len() || bytes.len() <= 1 {
        return Err(ParserError::ParseFloat { bad_bit: tok.span });
    }
    let a = &bytes.as_slice()[0..k];
    let b = &bytes.as_slice()[k + 1..bytes.len()];
    let pa = parse_digits(a);
    let pb = parse_digits(b);
    let pk = pow10_checked(b.len());
    proof {
        if all_digits(b@) {
            lemma_digits_below_pow(b@);
        }
    }
    match (pa, pb, pk) {
        (Some(x), Some(y), Some(p)) => {
            assert(x as u128 * p as u128 <= 0xffff_ffff_ffff_fffe_0000_0000_0000_0001u128) by (nonlinear_arith)
                requires x <= u64::MAX, p <= u64::MAX;
            let n: u128 = x as u128 * p as u128 + y as u128;
            if n > u64::MAX as u128 {
                Err(ParserError::ParseFloat { bad_bit: tok.span })
            } else {
                Ok(Number { numer: n as u64, denom: p })
            }
        },
        _ => {
            proof {
                if all_digits(a@) && all_digits(b@) && pow10(b@.len()) <= u64::MAX
                    && digits_value(a@) * pow10(b@.len()) + digits_value(b@) <= u64::MAX {
                    lemma_pow10_pos(b@.len());
                    assert(digits_value(a@) <= digits_value(a@) * pow10(b@.len())) by (nonlinear_arith)
                        requires pow10(b@.len()) >= 1;
                }
            }
            Err(ParserError::ParseFloat { bad_bit: tok.span })
        },
    }
}

/// The tokens of a run that carry a value: white space and comments left
/// out.
pub open spec fn significant(tokens: Seq<Token>) -> Seq<Token>
    decreases tokens.len(),
{
    if tokens.len() == 0 {
        Seq::empty()
    } else if is_trivia(tokens.last().kind) {
        significant(tokens.drop_last())
    } else {
        significant(tokens.drop_last()).push(tokens.last())
    }
}

proof fn lemma_significant_from(tokens: Seq<Token>)
    ensures
        forall|j: int| 0 <= j < significant(tokens).len() ==> exists|i: int|
            0 <= i < tokens.len() && tokens[i] == #[trigger] significant(tokens)[j],
    decreases tokens.len(),
{
    if tokens.len() > 0 {
        let d = tokens.drop_last();
        lemma_significant_from(d);
        assert forall|j: int| 0 <= j < significant(tokens).len() implies exists|i: int|
            0 <= i < tokens.len() && tokens[i] == #[trigger] significant(tokens)[j] by {
            if j < significant(d).len() {
                let i = choose|i: int| 0 <= i < d.len() && d[i] == significant(d)[j];
                assert(tokens[i] == d[i]);
            } else {
                assert(tokens[tokens.len() - 1] == significant(tokens)[j]);
            }
        }
    }
}

/// The value of a token that is an integer or a decimal literal.
pub open spec fn num_spec(input: Seq<u8>, t: Token) -> Result<Number, ParserError> {
    let bytes = input.subrange(t.span.start as int, t.span.end as int);
    if t.kind == TokenKind::Int {
        int_spec(bytes, t.span)
    } else {
        float_spec(bytes, t.span)
    }
}

/// The fraction `a/b` of two integer literals; a zero denominator is an
/// error over the span of the whole fraction.
pub open spec fn frac_spec(input: Seq<u8>, a: Token, b: Token) -> Result<Number, ParserError> {
    match num_spec(input, a) {
        Err(e) => Err(e),
        Ok(x) => match num_spec(input, b) {
            Err(e) => Err(e),
            Ok(y) => if y.numer == 0 {
                Err(ParserError::DivisionByZero { bad_bit: Span { start: a.span.start, end: b.span.end } })
            } else {
                Ok(Number { numer: x.numer, denom: y.numer })
            },
        },
    }
}

/// The mixed number `i a/b`.
pub open spec fn mixed_spec(input: Seq<u8>, i: Token, a: Token, b: Token) -> Result<Number, ParserError> {
    match num_spec(input, i) {
        Err(e) => Err(e),
        Ok(w) => match frac_spec(input, a, b) {
            Err(e) => Err(e),
            Ok(f) => Ok(Number { numer: (w.numer * f.denom + f.numer) as u64, denom: f.denom }),
        },
    }
}

pub open spec fn is_num_kind(k: TokenKind) -> bool {
    k == TokenKind::Int || k == TokenKind::Float
}

/// What a run of significant tokens reads as when it is a number: an
/// integer, a decimal, a mixed number, a fraction or (when ranges are on) a
/// range. `None` when it is none of these.
pub open spec fn numeric_spec(input: Seq<u8>, s: Seq<Token>, ranges: bool) -> Option<Result<Value, ParserError>> {
    if s.len() == 1 && is_num_kind(s[0].kind) {
        Some(match num_spec(input, s[0]) {
            Ok(n) => Ok(Value::Number(n)),
            Err(e) => Err(e),
        })
    } else if s.len() == 4 && s[0].kind == TokenKind::Int && s[1].kind == TokenKind::Int
        && s[2].kind == TokenKind::Slash && s[3].kind == TokenKind::Int {
        Some(match mixed_spec(input, s[0], s[1], s[3]) {
            Ok(n) => Ok(Value::Number(n)),
            Err(e) => Err(e),
        })
    } else if s.len() == 3 && s[0].kind == TokenKind::Int && s[1].kind == TokenKind::Slash
        && s[2].kind == TokenKind::Int {
        Some(match frac_spec(input, s[0], s[2]) {
            Ok(n) => Ok(Value::Number(n)),
            Err(e) => Err(e),
        })
    } else if ranges && s.len() == 3 && is_num_kind(s[0].kind) && s[1].kind == TokenKind::Minus
        && is_num_kind(s[2].kind) {
        Some(match num_spec(input, s[0]) {
            Err(e) => Err(e),
            Ok(a) => match num_spec(input, s[2]) {
                Err(e) => Err(e),
                Ok(b) => Ok(Value::Range { start: a, end: b }),
            },
        })
    } else {
        None
    }
}

/// Reads an integer or a decimal literal.
pub fn num(t: Token, bp: &BlockParser) -> (r: Result<Number, ParserError>)
    requires
        t.span.start <= t.span.end <= bp.input@.len(),
        is_num_kind(t.kind),
    ensures
        r == num_spec(bp.input@, t),
{
    if t.kind == TokenKind::Int {
        int_value(t, bp)
    } else {
        float_value(t, bp)
    }
}

pub fn frac(a: Token, b: Token, bp: &BlockParser) -> (r: Result<Number, ParserError>)
    requires
        a.span.start <= a.span.end <= bp.input@.len(),
        b.span.start <= b.span.end <= bp.input@.len(),
        a.kind == TokenKind::Int,
        b.kind == TokenKind::Int,
    ensures
        r == frac_spec(bp.input@, a, b),
{
    let span = Span::new(a.span.start, b.span.end);
    let x = num(a, bp)?;
    let y = num(b, bp)?;
    if y.numer == 0 {
        Err(ParserError::DivisionByZero { bad_bit: span })
    } else {
        Ok(Number { numer: x.numer, denom: y.numer })
    }
}

pub fn mixed_num(i: Token, a: Token, b: Token, bp: &BlockParser) -> (r: Result<Number, ParserError>)
    requires
        i.span.start <= i.span.end <= bp.input@.len(),
        a.span.start <= a.span.end <= bp.input@.len(),
        b.span.start <= b.span.end <= bp.input@.len(),
        i.kind == TokenKind::Int,
        a.kind == TokenKind::Int,
        b.kind == TokenKind::Int,
    ensures
        r == mixed_spec(bp.input@, i, a, b),
{
    let w = num(i, bp)?;
    let f = frac(a, b, bp)?;
    assert(w.numer * f.denom + f.numer <= u64::MAX) by (nonlinear_arith)
        requires w.numer <= u32::MAX, f.denom <= u32::MAX, f.numer <= u32::MAX;
    Ok(Number { numer: w.numer * f.denom + f.numer, denom: f.denom })
}

/// Reads a run of tokens as a number, if it has the shape of one.
pub fn numeric_value(tokens: &[Token], bp: &BlockParser) -> (r: Option<Result<Value, ParserError>>)
    requires
        tokens_wf(tokens@, bp.input@.len()),
    ensures
        r == numeric_spec(bp.input@, significant(tokens@), bp.extensions.range_values),
{
    let mut buf = buf_new();
    let mut i: usize = 0;
    while i < tokens.len()
        invariant
            i <= tokens@.len(),
            buf_items(buf) == significant(tokens@.subrange(0, i as int)),
        decreases tokens@.len() - i,
    {
        assert(tokens@.subrange(0, i + 1).drop_last() == tokens@.subrange(0, i as int));
        if !is_trivia_kind(tokens[i].kind) {
            buf_push(&mut buf, tokens[i]);
        }
        i += 1;
    }
    assert(tokens@.subrange(0, i as int) == tokens@);
    let s = buf_slice(&buf);
    proof {
        lemma_significant_from(tokens@);
        assert forall|j: int| 0 <= j < s@.len() implies (#[trigger] s@[j]).span.start <= s@[j].span.end
            <= bp.input@.len() by {
            let k = choose|k: int| 0 <= k < tokens@.len() && tokens@[k] == significant(tokens@)[j];
            assert(tokens@[k].span.start <= tokens@[k].span.end);
        }
    }
    let n = s.len();
    if n == 1 && (s[0].kind == TokenKind::Int || s[0].kind == TokenKind::Float) {
        Some(match num(s[0], bp) {
            Ok(v) => Ok(Value::Number(v)),
            Err(e) => Err(e),
        })
    } else if n == 4 && s[0].kind == TokenKind::Int && s[1].kind == TokenKind::Int
        && s[2].kind == TokenKind::Slash && s[3].kind == TokenKind::Int {
        Some(match mixed_num(s[0], s[1], s[3], bp) {
            Ok(v) => Ok(Value::Number(v)),
            Err(e) => Err(e),
        })
    } else if n == 3 && s[0].kind == TokenKind::Int && s[1].kind == TokenKind::Slash
        && s[2].kind == TokenKind::Int {
        Some(match frac(s[0], s[2], bp) {
            Ok(v) => Ok(Value::Number(v)),
            Err(e) => Err(e),
        })
    } else if bp.extensions.range_values && n == 3 && (s[0].kind == TokenKind::Int
        || s[0].kind == TokenKind::Float) && s[1].kind == TokenKind::Minus && (s[2].kind
        == TokenKind::Int || s[2].kind == TokenKind::Float) {
        Some(match num(s[0], bp) {
            Err(e) => Err(e),
            Ok(a) => match num(s[2], bp) {
                Err(e) => Err(e),
                Ok(b) => Ok(Value::Range { start: a, end: b }),
            },
        })
    } else {
        None
    }
}

/// A fraction or a mixed number whose denominator is zero reads as a
/// division by zero over the fraction, never as a number (when its other
/// integers fit in 32 bits).
pub proof fn fraction_zero_guard(input: Seq<u8>, tokens: Seq<Token>, ranges: bool)
    requires
        ({
            let s = significant(tokens);
            &&& s.len() == 3 || s.len() == 4
            &&& forall|j: int| 0 <= j < s.len() && j != s.len() - 2 ==> (#[trigger] s[j]).kind
                == TokenKind::Int && num_spec(input, s[j]).is_ok()
            &&& s[s.len() - 2].kind == TokenKind::Slash
            &&& num_spec(input, s.last()).unwrap().numer == 0
        }),
    ensures
        ({
            let s = significant(tokens);
            numeric_spec(input, s, ranges) == Some(
                Err::<Value, ParserError>(ParserError::DivisionByZero {
                    bad_bit: Span { start: s[s.len() - 3].span.start, end: s.last().span.end },
                }),
            )
        }),
{
    let s = significant(tokens);
    assert(s[s.len() - 1].kind == TokenKind::Int);
    assert(s[s.len() - 3].kind == TokenKind::Int);
    if s.len() == 4 {
        assert(s[0].kind == TokenKind::Int);
        assert(num_spec(input, s[0]).is_ok());
    }
}

} // verus!

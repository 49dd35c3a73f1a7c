//! Reading a list of tokens as an expression.
//!
//! The grammar has three levels, from loosest to tightest binding:
//!
//! ```text
//! additive       := multiplicative { ("+" | "-") multiplicative }
//! multiplicative := primary { ("*" | "/") primary }
//! primary        := "print" "(" additive ")" | "(" additive ")" | integer
//! ```
//!
//! Operators of one level group from the left. Reading stops before the first
//! token that cannot continue the expression; what follows is for the caller
//! to judge.
//!
//! There is no unary minus: `+` and `-` always stand between two operands. A
//! token that spells a signed literal by itself, such as `-5`, is a number,
//! but no such token comes out of source text, where `-` is a token of its
//! own.
//!
//! Tokens are read by position and taken from the list in one step at the
//! end, so that reading is linear in the number of tokens and a list that
//! holds no expression is handed back untouched.

use vstd::prelude::*;
use vstd::string::StrSliceExecFns;
use crate::expr::Expr;
use crate::lexer::texts;
use crate::numeral::{integer_literal, parse_integer};

verus! {

/// Why a list of tokens is not an expression.
#[derive(Debug, Clone, Copy, PartialEq, Eq)]
pub enum ParseError {
    /// The tokens ended where one more was needed.
    UnexpectedEnd,
    /// The token after `print` is not `(`.
    ExpectedOpenParen,
    /// The token after a bracketed expression is not `)`.
    ExpectedCloseParen,
    /// A token that should be an integer literal is not one.
    InvalidNumber,
    /// Tokens are left over after a complete expression.
    TrailingTokens,
}

/// What a list of tokens spells.
pub type Tokens = Seq<Seq<char>>;

/// What reading from the front of a token list gives: the expression and the
/// number of tokens it was read from, or the reason why there is none.
pub type Reading = Result<(Expr, nat), ParseError>;

/// The token that consists of the character `c` alone.
pub open spec fn symbol(c: char) -> Seq<char> {
    seq![c]
}

/// The token `print`.
pub open spec fn print_keyword() -> Seq<char> {
    seq!['p', 'r', 'i', 'n', 't']
}

/// Whether `token` is an operator of the additive level.
pub open spec fn is_additive(token: Seq<char>) -> bool {
    token == symbol('+') || token == symbol('-')
}

/// Whether `token` is an operator of the multiplicative level.
pub open spec fn is_multiplicative(token: Seq<char>) -> bool {
    token == symbol('*') || token == symbol('/')
}

/// The node that the operator `op` makes of two operands.
pub open spec fn binary(op: Seq<char>, left: Expr, right: Expr) -> Expr {
    if op == symbol('+') {
        Expr::Add(Box::new(left), Box::new(right))
    } else if op == symbol('-') {
        Expr::Sub(Box::new(left), Box::new(right))
    } else if op == symbol('*') {
        Expr::Mul(Box::new(left), Box::new(right))
    } else {
        Expr::Div(Box::new(left), Box::new(right))
    }
}

/// The tokens of `toks` that follow the first `n`.
pub open spec fn rest(toks: Tokens, n: nat) -> Tokens {
    if n <= toks.len() {
        toks.skip(n as int)
    } else {
        Seq::empty()
    }
}

/// A reading that began `by` tokens further to the left.
pub open spec fn advance(reading: Reading, by: nat) -> Reading {
    match reading {
        Ok((e, n)) => Ok((e, by + n)),
        Err(err) => Err(err),
    }
}

/// The reading of a bracketed expression, where `inner` is the reading of the
/// tokens that follow the first `from` tokens, the last of them `(`: the
/// token after the inner expression has to be `)`.
pub open spec fn closing(toks: Tokens, from: nat, inner: Reading) -> Reading {
    match inner {
        Ok((e, n)) => if from + n >= toks.len() {
            Err(ParseError::UnexpectedEnd)
        } else if toks[(from + n) as int] != symbol(')') {
            Err(ParseError::ExpectedCloseParen)
        } else {
            Ok((e, from + n + 1))
        },
        Err(err) => Err(err),
    }
}

/// The reading of an expression from the front of `toks`.
#[verifier::opaque]
pub open spec fn expression(toks: Tokens) -> Reading
    decreases toks.len(), 5nat,
{
    additive(toks)
}

/// The reading of an additive expression from the front of `toks`: terms of
/// the multiplicative level joined by `+` and `-`, grouped from the left.
#[verifier::opaque]
pub open spec fn additive(toks: Tokens) -> Reading
    decreases toks.len(), 4nat,
{
    match multiplicative(toks) {
        Ok((first, n)) => advance(additive_tail(first, rest(toks, n)), n),
        Err(err) => Err(err),
    }
}

/// The reading of the additive expression that begins with `left`, already
/// read, and goes on with `toks`.
#[verifier::opaque]
pub open spec fn additive_tail(left: Expr, toks: Tokens) -> Reading
    decreases toks.len(), 3nat,
{
    if toks.len() > 0 && is_additive(toks[0]) {
        match multiplicative(rest(toks, 1)) {
            Ok((right, n)) => advance(
                additive_tail(binary(toks[0], left, right), rest(toks, 1 + n)),
                1 + n,
            ),
            Err(err) => Err(err),
        }
    } else {
        Ok((left, 0))
    }
}

/// The reading of a multiplicative expression from the front of `toks`:
/// primaries joined by `*` and `/`, grouped from the left.
#[verifier::opaque]
pub open spec fn multiplicative(toks: Tokens) -> Reading
    decreases toks.len(), 2nat,
{
    match primary(toks) {
        Ok((first, n)) => advance(multiplicative_tail(first, rest(toks, n)), n),
        Err(err) => Err(err),
    }
}

/// The reading of the multiplicative expression that begins with `left`,
/// already read, and goes on with `toks`.
#[verifier::opaque]
pub open spec fn multiplicative_tail(left: Expr, toks: Tokens) -> Reading
    decreases toks.len(), 1nat,
{
    if toks.len() > 0 && is_multiplicative(toks[0]) {
        match primary(rest(toks, 1)) {
            Ok((right, n)) => advance(
                multiplicative_tail(binary(toks[0], left, right), rest(toks, 1 + n)),
                1 + n,
            ),
            Err(err) => Err(err),
        }
    } else {
        Ok((left, 0))
    }
}

/// The reading of a primary from the front of `toks`: `print` with its
/// bracketed argument, a bracketed expression, or an integer literal.
#[verifier::opaque]
pub open spec fn primary(toks: Tokens) -> Reading
    decreases toks.len(), 0nat,
{
    if toks.len() == 0 {
        Err(ParseError::UnexpectedEnd)
    } else if toks[0] == print_keyword() {
        if toks.len() == 1 {
            Err(ParseError::UnexpectedEnd)
        } else if toks[1] != symbol('(') {
            Err(ParseError::ExpectedOpenParen)
        } else {
            match closing(toks, 2, expression(rest(toks, 2))) {
                Ok((inner, n)) => Ok((Expr::Print(Box::new(inner)), n)),
                Err(err) => Err(err),
            }
        }
    } else if toks[0] == symbol('(') {
        closing(toks, 1, expression(rest(toks, 1)))
    } else {
        match integer_literal(toks[0]) {
            Some(v) => Ok((Expr::Num(v), 1)),
            None => Err(ParseError::InvalidNumber),
        }
    }
}

/// What a reading hands to the caller: the expression or the error.
pub open spec fn outcome(reading: Reading) -> Result<Expr, ParseError> {
    match reading {
        Ok((e, _)) => Ok(e),
        Err(err) => Err(err),
    }
}

/// The number of tokens that a reading takes from the list: those of the
/// expression, or none where there is no expression.
pub open spec fn consumed(reading: Reading) -> nat {
    match reading {
        Ok((_, n)) => n,
        Err(_) => 0,
    }
}

/// Whether `found`, the result of reading `tokens` from position `pos` on, is
/// what `reading` says of the tokens from there on.
pub open spec fn agrees(
    found: Result<(Expr, usize), ParseError>,
    reading: Reading,
    pos: usize,
    len: nat,
) -> bool {
    match reading {
        Ok((e, n)) => pos + n <= len && found == Ok::<(Expr, usize), ParseError>(
            (e, (pos + n) as usize),
        ),
        Err(err) => found == Err::<(Expr, usize), ParseError>(err),
    }
}

/// Tokens of one character are equal only where the characters are.
pub proof fn lemma_symbols_differ(c: char, d: char)
    ensures
        symbol(c) == symbol(d) <==> c == d,
{
    assert(symbol(c)[0] == c);
    assert(symbol(d)[0] == d);
}

/// Skipping in two steps is skipping once.
proof fn lemma_rest_of_skip(toks: Tokens, pos: int, n: nat)
    requires
        0 <= pos,
        pos + n <= toks.len(),
    ensures
        rest(toks.skip(pos), n) == toks.skip(pos + n),
        toks.skip(pos).len() == toks.len() - pos,
{
    assert(toks.skip(pos).skip(n as int) =~= toks.skip(pos + n));
}

/// Whether `token` consists of the character `c` alone.
fn is_symbol(token: &String, c: char) -> (r: bool)
    ensures
        r == (token@ == symbol(c)),
{
    let text = token.as_str();
    let r = text.unicode_len() == 1 && text.get_char(0) == c;
    assert(r ==> token@ =~= symbol(c));
    r
}

/// Whether `token` is the word `print`.
fn is_print(token: &String) -> (r: bool)
    ensures
        r == (token@ == print_keyword()),
{
    let text = token.as_str();
    let r = text.unicode_len() == 5 && text.get_char(0) == 'p' && text.get_char(1) == 'r'
        && text.get_char(2) == 'i' && text.get_char(3) == 'n' && text.get_char(4) == 't';
    assert(r ==> token@ =~= print_keyword());
    r
}

/// Reads the `)` that has to stand at position `at`: gives the position
/// after it.
fn close_at(tokens: &Vec<String>, at: usize) -> (r: Result<usize, ParseError>)
    requires
        at <= tokens.len(),
    ensures
        r == if at >= tokens.len() {
            Err::<usize, ParseError>(ParseError::UnexpectedEnd)
        } else if tokens@[at as int]@ != symbol(')') {
            Err::<usize, ParseError>(ParseError::ExpectedCloseParen)
        } else {
            Ok::<usize, ParseError>((at + 1) as usize)
        },
{
    if at >= tokens.len() {
        Err(ParseError::UnexpectedEnd)
    } else if !is_symbol(&tokens[at], ')') {
        Err(ParseError::ExpectedCloseParen)
    } else {
        Ok(at + 1)
    }
}

/// Reads a primary that begins at position `pos`: gives it with the position
/// after it.
fn primary_at(tokens: &Vec<String>, pos: usize) -> (r: Result<(Expr, usize), ParseError>)
    requires
        pos <= tokens.len(),
    ensures
        agrees(r, primary(texts(tokens@).skip(pos as int)), pos, tokens@.len()),
    decreases tokens.len() - pos, 0nat,
{
    let ghost all = texts(tokens@);
    let ghost toks = all.skip(pos as int);
    proof {
        reveal(primary);
        reveal(expression);
    }
    if pos >= tokens.len() {
        return Err(ParseError::UnexpectedEnd);
    }
    let token = &tokens[pos];
    assert(toks[0] == token@);
    if is_print(token) {
        if pos + 1 >= tokens.len() {
            return Err(ParseError::UnexpectedEnd);
        }
        assert(toks[1] == tokens@[pos + 1]@);
        if !is_symbol(&tokens[pos + 1], '(') {
            return Err(ParseError::ExpectedOpenParen);
        }
        proof {
            lemma_rest_of_skip(all, pos as int, 2);
        }
        let (inner, at) = expr_at(tokens, pos + 2)?;
        assert(at < tokens.len() ==> toks[at - pos] == tokens@[at as int]@);
        let end = close_at(tokens, at)?;
        Ok((Expr::Print(Box::new(inner)), end))
    } else if is_symbol(token, '(') {
        proof {
            lemma_rest_of_skip(all, pos as int, 1);
        }
        let (inner, at) = expr_at(tokens, pos + 1)?;
        assert(at < tokens.len() ==> toks[at - pos] == tokens@[at as int]@);
        let end = close_at(tokens, at)?;
        Ok((inner, end))
    } else {
        match parse_integer(token.as_str()) {
            Some(v) => Ok((Expr::Num(v), pos + 1)),
            None => Err(ParseError::InvalidNumber),
        }
    }
}

/// Reads a multiplicative expression that begins at position `pos`: gives it
/// with the position after it.
fn mul_div_at(tokens: &Vec<String>, pos: usize) -> (r: Result<(Expr, usize), ParseError>)
    requires
        pos <= tokens.len(),
    ensures
        agrees(r, multiplicative(texts(tokens@).skip(pos as int)), pos, tokens@.len()),
    decreases tokens.len() - pos, 1nat,
{
    let ghost all = texts(tokens@);
    proof {
        reveal(multiplicative);
        reveal(multiplicative_tail);
        reveal(primary);
    }
    let (first, start) = primary_at(tokens, pos)?;
    let mut expr = first;
    let mut at = start;
    proof {
        lemma_rest_of_skip(all, pos as int, (at - pos) as nat);
    }
    loop
        invariant
            pos <= at <= tokens.len(),
            all == texts(tokens@),
            multiplicative(all.skip(pos as int)) == advance(
                multiplicative_tail(expr, all.skip(at as int)),
                (at - pos) as nat,
            ),
        decreases tokens.len() - at,
    {
        proof {
            reveal(multiplicative_tail);
            reveal(primary);
        }
        if at >= tokens.len() {
            return Ok((expr, at));
        }
        assert(all.skip(at as int)[0] == tokens@[at as int]@);
        let times = is_symbol(&tokens[at], '*');
        if !times && !is_symbol(&tokens[at], '/') {
            return Ok((expr, at));
        }
        proof {
            lemma_rest_of_skip(all, at as int, 1);
        }
        let (right, next) = primary_at(tokens, at + 1)?;
        proof {
            lemma_rest_of_skip(all, at as int, (next - at) as nat);
            lemma_symbols_differ('*', '+');
            lemma_symbols_differ('*', '-');
            lemma_symbols_differ('/', '+');
            lemma_symbols_differ('/', '-');
            lemma_symbols_differ('/', '*');
        }
        expr = if times {
            Expr::Mul(Box::new(expr), Box::new(right))
        } else {
            Expr::Div(Box::new(expr), Box::new(right))
        };
        at = next;
    }
}

/// Reads an additive expression that begins at position `pos`: gives it with
/// the position after it.
fn add_sub_at(tokens: &Vec<String>, pos: usize) -> (r: Result<(Expr, usize), ParseError>)
    requires
        pos <= tokens.len(),
    ensures
        agrees(r, additive(texts(tokens@).skip(pos as int)), pos, tokens@.len()),
    decreases tokens.len() - pos, 2nat,
{
    let ghost all = texts(tokens@);
    proof {
        reveal(additive);
        reveal(additive_tail);
        reveal(multiplicative);
    }
    let (first, start) = mul_div_at(tokens, pos)?;
    let mut expr = first;
    let mut at = start;
    proof {
        lemma_rest_of_skip(all, pos as int, (at - pos) as nat);
    }
    loop
        invariant
            pos <= at <= tokens.len(),
            all == texts(tokens@),
            additive(all.skip(pos as int)) == advance(
                additive_tail(expr, all.skip(at as int)),
                (at - pos) as nat,
            ),
        decreases tokens.len() - at,
    {
        proof {
            reveal(additive_tail);
            reveal(multiplicative);
        }
        if at >= tokens.len() {
            return Ok((expr, at));
        }
        assert(all.skip(at as int)[0] == tokens@[at as int]@);
        let plus = is_symbol(&tokens[at], '+');
        if !plus && !is_symbol(&tokens[at], '-') {
            return Ok((expr, at));
        }
        proof {
            lemma_rest_of_skip(all, at as int, 1);
        }
        let (right, next) = mul_div_at(tokens, at + 1)?;
        proof {
            lemma_rest_of_skip(all, at as int, (next - at) as nat);
            lemma_symbols_differ('-', '+');
        }
        expr = if plus {
            Expr::Add(Box::new(expr), Box::new(right))
        } else {
            Expr::Sub(Box::new(expr), Box::new(right))
        };
        at = next;
    }
}

/// Reads an expression that begins at position `pos`: gives it with the
/// position after it.
fn expr_at(tokens: &Vec<String>, pos: usize) -> (r: Result<(Expr, usize), ParseError>)
    requires
        pos <= tokens.len(),
    ensures
        agrees(r, expression(texts(tokens@).skip(pos as int)), pos, tokens@.len()),
    decreases tokens.len() - pos, 3nat,
{
    proof {
        reveal(expression);
        reveal(additive);
    }
    add_sub_at(tokens, pos)
}

/// Takes from the front of `tokens` what `found` was read from, and gives
/// what was read.
fn settle(tokens: &mut Vec<String>, found: Result<(Expr, usize), ParseError>) -> (r: Result<
    Expr,
    ParseError,
>)
    requires
        found matches Ok((_, n)) ==> n <= old(tokens).len(),
    ensures
        match found {
            Ok((e, n)) => r == Ok::<Expr, ParseError>(e) && final(tokens)@ == old(tokens)@.skip(
                n as int,
            ),
            Err(err) => r == Err::<Expr, ParseError>(err) && final(tokens)@ == old(tokens)@,
        },
{
    match found {
        Ok((e, n)) => {
            let left = tokens.split_off(n);
            *tokens = left;
            Ok(e)
        },
        Err(err) => Err(err),
    }
}

/// Reads an expression from the front of `tokens` and removes the tokens it
/// was read from. Where there is no expression, `tokens` is left as it was.
pub fn parse_expr(tokens: &mut Vec<String>) -> (r: Result<Expr, ParseError>)
    ensures
        r == outcome(expression(texts(old(tokens)@))),
        consumed(expression(texts(old(tokens)@))) <= old(tokens)@.len(),
        final(tokens)@ == old(tokens)@.skip(consumed(expression(texts(old(tokens)@))) as int),
{
    assert(texts(tokens@).skip(0) =~= texts(tokens@));
    assert(tokens@.skip(0) =~= tokens@);
    let found = expr_at(tokens, 0);
    settle(tokens, found)
}

/// Reads an additive expression from the front of `tokens` and removes the
/// tokens it was read from. Where there is none, `tokens` is left as it was.
pub fn parse_add_sub(tokens: &mut Vec<String>) -> (r: Result<Expr, ParseError>)
    ensures
        r == outcome(additive(texts(old(tokens)@))),
        consumed(additive(texts(old(tokens)@))) <= old(tokens)@.len(),
        final(tokens)@ == old(tokens)@.skip(consumed(additive(texts(old(tokens)@))) as int),
{
    assert(texts(tokens@).skip(0) =~= texts(tokens@));
    assert(tokens@.skip(0) =~= tokens@);
    let found = add_sub_at(tokens, 0);
    settle(tokens, found)
}

/// Reads a multiplicative expression from the front of `tokens` and removes
/// the tokens it was read from. Where there is none, `tokens` is left as it
/// was.
pub fn parse_mul_div(tokens: &mut Vec<String>) -> (r: Result<Expr, ParseError>)
    ensures
        r == outcome(multiplicative(texts(old(tokens)@))),
        consumed(multiplicative(texts(old(tokens)@))) <= old(tokens)@.len(),
        final(tokens)@ == old(tokens)@.skip(
            consumed(multiplicative(texts(old(tokens)@))) as int,
        ),
{
    assert(texts(tokens@).skip(0) =~= texts(tokens@));
    assert(tokens@.skip(0) =~= tokens@);
    let found = mul_div_at(tokens, 0);
    settle(tokens, found)
}

/// Reads a primary from the front of `tokens` and removes the tokens it was
/// read from. Where there is none, `tokens` is left as it was.
pub fn parse_primary(tokens: &mut Vec<String>) -> (r: Result<Expr, ParseError>)
    ensures
        r == outcome(primary(texts(old(tokens)@))),
        consumed(primary(texts(old(tokens)@))) <= old(tokens)@.len(),
        final(tokens)@ == old(tokens)@.skip(consumed(primary(texts(old(tokens)@))) as int),
{
    assert(texts(tokens@).skip(0) =~= texts(tokens@));
    assert(tokens@.skip(0) =~= tokens@);
    let found = primary_at(tokens, 0);
    settle(tokens, found)
}

/// A primary is read from one token at least, and from no more tokens than
/// there are.
pub proof fn lemma_primary_within(toks: Tokens)
    ensures
        primary(toks) matches Ok((_, n)) ==> 1 <= n <= toks.len(),
    decreases toks.len(), 0nat,
{
    reveal(primary);
    reveal(expression);
    if toks.len() >= 2 && toks[0] == print_keyword() {
        lemma_expression_within(rest(toks, 2));
    } else if toks.len() >= 1 && toks[0] == symbol('(') {
        lemma_expression_within(rest(toks, 1));
    }
}

/// What continues a multiplicative expression is read from no more tokens
/// than there are.
pub proof fn lemma_multiplicative_tail_within(left: Expr, toks: Tokens)
    ensures
        multiplicative_tail(left, toks) matches Ok((_, n)) ==> n <= toks.len(),
    decreases toks.len(), 1nat,
{
    reveal(multiplicative_tail);
    reveal(primary);
    if toks.len() > 0 && is_multiplicative(toks[0]) {
        lemma_primary_within(rest(toks, 1));
        if let Ok((right, n)) = primary(rest(toks, 1)) {
            lemma_multiplicative_tail_within(binary(toks[0], left, right), rest(toks, 1 + n));
        }
    }
}

/// A multiplicative expression is read from one token at least, and from no
/// more tokens than there are.
pub proof fn lemma_multiplicative_within(toks: Tokens)
    ensures
        multiplicative(toks) matches Ok((_, n)) ==> 1 <= n <= toks.len(),
    decreases toks.len(), 2nat,
{
    reveal(multiplicative);
    reveal(multiplicative_tail);
    reveal(primary);
    lemma_primary_within(toks);
    if let Ok((first, n)) = primary(toks) {
        lemma_multiplicative_tail_within(first, rest(toks, n));
    }
}

/// What continues an additive expression is read from no more tokens than
/// there are.
pub proof fn lemma_additive_tail_within(left: Expr, toks: Tokens)
    ensures
        additive_tail(left, toks) matches Ok((_, n)) ==> n <= toks.len(),
    decreases toks.len(), 3nat,
{
    reveal(additive_tail);
    reveal(multiplicative);
    if toks.len() > 0 && is_additive(toks[0]) {
        lemma_multiplicative_within(rest(toks, 1));
        if let Ok((right, n)) = multiplicative(rest(toks, 1)) {
            lemma_additive_tail_within(binary(toks[0], left, right), rest(toks, 1 + n));
        }
    }
}

/// An additive expression is read from one token at least, and from no more
/// tokens than there are.
pub proof fn lemma_additive_within(toks: Tokens)
    ensures
        additive(toks) matches Ok((_, n)) ==> 1 <= n <= toks.len(),
    decreases toks.len(), 4nat,
{
    reveal(additive);
    reveal(additive_tail);
    reveal(multiplicative);
    lemma_multiplicative_within(toks);
    if let Ok((first, n)) = multiplicative(toks) {
        lemma_additive_tail_within(first, rest(toks, n));
    }
}

/// An expression is read from one token at least, and from no more tokens
/// than there are.
pub proof fn lemma_expression_within(toks: Tokens)
    ensures
        expression(toks) matches Ok((_, n)) ==> 1 <= n <= toks.len(),
    decreases toks.len(), 5nat,
{
    reveal(expression);
    reveal(additive);
    lemma_additive_within(toks);
}

} // verus!

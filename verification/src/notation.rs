//! Writing expressions down, and reading them back.
//!
//! A [`Syntax`] is an expression as it stands on the page: a tree that keeps
//! its brackets. Where it is written as the grammar asks, the parser reads
//! from its tokens exactly the tree that it draws. Operator precedence and
//! grouping from the left are what "as the grammar asks" comes to.

use vstd::prelude::*;
use crate::eval::printed;
use crate::expr::Expr;
use crate::interp::{evaluated, output, parsed, result};
use crate::lexer::{
    is_delimiter, is_token, is_word, lemma_spelled_reads_back, spelled, tokens,
};
use crate::numeral::{is_digit, lemma_decimal_reads_back, lemma_numeral_reads_back, numeral};
use crate::parser::{
    additive, additive_tail, advance, binary, expression, is_additive, is_multiplicative,
    lemma_symbols_differ, multiplicative, multiplicative_tail, primary, print_keyword, rest,
    symbol, ParseError, Tokens,
};

verus! {

/// An expression as it is written.
pub enum Syntax {
    /// An integer literal.
    Literal(i64),
    /// Two operands with an operator character between them.
    Binary(char, Box<Syntax>, Box<Syntax>),
    /// An expression in brackets.
    Group(Box<Syntax>),
    /// `print` with its argument in brackets.
    Print(Box<Syntax>),
}

/// Whether `s` may stand where the grammar expects an operand of tightness
/// `level`: 0 is any expression, 1 a term of a sum, 2 a factor of a product.
/// The left operand of an operator is of the operator's own level, so that
/// operators of one level group from the left; the right operand is of the
/// next tighter level.
pub open spec fn conforms(s: Syntax, level: nat) -> bool
    decreases s,
{
    match s {
        Syntax::Literal(_) => true,
        Syntax::Group(inner) => conforms(*inner, 0),
        Syntax::Print(inner) => conforms(*inner, 0),
        Syntax::Binary(op, left, right) => if op == '+' || op == '-' {
            level == 0 && conforms(*left, 0) && conforms(*right, 1)
        } else {
            (op == '*' || op == '/') && level <= 1 && conforms(*left, 1) && conforms(*right, 2)
        },
    }
}

/// The tokens that write `s`.
pub open spec fn notation(s: Syntax) -> Tokens
    decreases s,
{
    match s {
        Syntax::Literal(v) => seq![numeral(v as int)],
        Syntax::Binary(op, left, right) => notation(*left) + seq![symbol(op)] + notation(*right),
        Syntax::Group(inner) => seq![symbol('(')] + notation(*inner) + seq![symbol(')')],
        Syntax::Print(inner) => seq![print_keyword(), symbol('(')] + notation(*inner) + seq![
            symbol(')'),
        ],
    }
}

/// The tree that `s` draws: `s` without its brackets.
pub open spec fn tree(s: Syntax) -> Expr
    decreases s,
{
    match s {
        Syntax::Literal(v) => Expr::Num(v),
        Syntax::Binary(op, left, right) => binary(symbol(op), tree(*left), tree(*right)),
        Syntax::Group(inner) => tree(*inner),
        Syntax::Print(inner) => Expr::Print(Box::new(tree(*inner))),
    }
}

/// Whether `toks` begins with an operator.
pub open spec fn starts_with_operator(toks: Tokens) -> bool {
    toks.len() > 0 && (is_additive(toks[0]) || is_multiplicative(toks[0]))
}

/// The way a number is written is neither `print` nor `(`.
proof fn lemma_numeral_is_no_keyword(v: i64)
    ensures
        numeral(v as int) != print_keyword(),
        numeral(v as int) != symbol('('),
{
    let text = numeral(v as int);
    if v < 0 {
        assert(text[0] == '-');
    } else {
        lemma_decimal_reads_back(v as nat);
        assert(is_digit(text[0]));
    }
    assert(print_keyword()[0] == 'p');
    assert(symbol('(')[0] == '(');
}

/// A closing bracket is no operator.
proof fn lemma_close_is_no_operator(tail: Tokens)
    ensures
        !starts_with_operator(seq![symbol(')')] + tail),
{
    let toks = seq![symbol(')')] + tail;
    assert(toks[0] == symbol(')'));
    lemma_symbols_differ(')', '+');
    lemma_symbols_differ(')', '-');
    lemma_symbols_differ(')', '*');
    lemma_symbols_differ(')', '/');
}

/// A factor is read from its tokens as it is drawn, whatever follows.
pub proof fn lemma_reads_primary(s: Syntax, tail: Tokens)
    requires
        conforms(s, 2),
    ensures
        primary(notation(s) + tail) == Ok::<(Expr, nat), ParseError>(
            (tree(s), notation(s).len()),
        ),
    decreases s, 0nat,
{
    reveal(primary);
    reveal(expression);
    let toks = notation(s) + tail;
    match s {
        Syntax::Literal(v) => {
            lemma_numeral_reads_back(v);
            lemma_numeral_is_no_keyword(v);
            assert(toks[0] == numeral(v as int));
        },
        Syntax::Group(inner) => {
            let n = notation(*inner).len();
            let close = seq![symbol(')')] + tail;
            assert(toks[0] == symbol('('));
            assert(symbol('(').len() != print_keyword().len());
            assert(rest(toks, 1) =~= notation(*inner) + close);
            lemma_close_is_no_operator(tail);
            theorem_reads_expression(*inner, close);
            assert(toks[(1 + n) as int] == symbol(')'));
        },
        Syntax::Print(inner) => {
            let n = notation(*inner).len();
            let close = seq![symbol(')')] + tail;
            assert(toks[0] == print_keyword());
            assert(toks[1] == symbol('('));
            assert(rest(toks, 2) =~= notation(*inner) + close);
            lemma_close_is_no_operator(tail);
            theorem_reads_expression(*inner, close);
            assert(toks[(2 + n) as int] == symbol(')'));
        },
        Syntax::Binary(_, _, _) => {},
    }
}

/// A term is read from its tokens as it is drawn, and the reading goes on
/// with what follows.
pub proof fn lemma_reads_multiplicative(s: Syntax, tail: Tokens)
    requires
        conforms(s, 1),
    ensures
        multiplicative(notation(s) + tail) == advance(
            multiplicative_tail(tree(s), tail),
            notation(s).len(),
        ),
    decreases s, 1nat,
{
    let toks = notation(s) + tail;
    match s {
        Syntax::Binary(op, left, right) => {
            let m = notation(*right).len();
            let more = seq![symbol(op)] + (notation(*right) + tail);
            assert(toks =~= notation(*left) + more);
            lemma_reads_multiplicative(*left, more);
            assert(more[0] == symbol(op));
            assert(rest(more, 1) =~= notation(*right) + tail);
            lemma_reads_primary(*right, tail);
            assert(rest(more, 1 + m) =~= tail);
            assert(multiplicative_tail(tree(*left), more) == advance(
                multiplicative_tail(tree(s), tail),
                1 + m,
            )) by {
                reveal(multiplicative_tail);
                reveal(primary);
            }
        },
        _ => {
            lemma_reads_primary(s, tail);
            assert(rest(toks, notation(s).len()) =~= tail);
            assert(multiplicative(toks) == advance(
                multiplicative_tail(tree(s), tail),
                notation(s).len(),
            )) by {
                reveal(multiplicative);
                reveal(multiplicative_tail);
                reveal(primary);
            }
        },
    }
}

/// A term is read from its tokens as it is drawn, and nothing of what
/// follows is taken, provided that `*` or `/` does not follow.
pub proof fn lemma_reads_term(s: Syntax, tail: Tokens)
    requires
        conforms(s, 1),
        tail.len() == 0 || !is_multiplicative(tail[0]),
    ensures
        multiplicative(notation(s) + tail) == Ok::<(Expr, nat), ParseError>(
            (tree(s), notation(s).len()),
        ),
    decreases s, 2nat,
{
    reveal(multiplicative_tail);
    lemma_reads_multiplicative(s, tail);
}

/// An expression is read from its tokens as it is drawn, and the reading
/// goes on with what follows, which must not bind tighter.
pub proof fn lemma_reads_additive(s: Syntax, tail: Tokens)
    requires
        conforms(s, 0),
        tail.len() == 0 || !is_multiplicative(tail[0]),
    ensures
        additive(notation(s) + tail) == advance(additive_tail(tree(s), tail), notation(s).len()),
    decreases s, 3nat,
{
    let toks = notation(s) + tail;
    match s {
        Syntax::Binary(op, left, right) if op == '+' || op == '-' => {
            let m = notation(*right).len();
            let more = seq![symbol(op)] + (notation(*right) + tail);
            assert(toks =~= notation(*left) + more);
            assert(more[0] == symbol(op));
            lemma_symbols_differ(op, '*');
            lemma_symbols_differ(op, '/');
            lemma_reads_additive(*left, more);
            assert(rest(more, 1) =~= notation(*right) + tail);
            lemma_reads_term(*right, tail);
            assert(rest(more, 1 + m) =~= tail);
            assert(additive_tail(tree(*left), more) == advance(
                additive_tail(tree(s), tail),
                1 + m,
            )) by {
                reveal(additive_tail);
                reveal(multiplicative);
            }
        },
        _ => {
            lemma_reads_term(s, tail);
            assert(rest(toks, notation(s).len()) =~= tail);
            assert(additive(toks) == advance(additive_tail(tree(s), tail), notation(s).len()))
                by {
                reveal(additive);
                reveal(additive_tail);
                reveal(multiplicative);
            }
        },
    }
}

/// An expression written as the grammar asks is read from its tokens as it
/// is drawn, and nothing of what follows is taken, provided that no operator
/// follows.
pub proof fn theorem_reads_expression(s: Syntax, tail: Tokens)
    requires
        conforms(s, 0),
        !starts_with_operator(tail),
    ensures
        expression(notation(s) + tail) == Ok::<(Expr, nat), ParseError>(
            (tree(s), notation(s).len()),
        ),
    decreases s, 4nat,
{
    reveal(expression);
    reveal(additive);
    reveal(additive_tail);
    lemma_reads_additive(s, tail);
}

/// Whether no literal of `s` is negative, so that each is written without a
/// sign.
pub open spec fn unsigned_literals(s: Syntax) -> bool
    decreases s,
{
    match s {
        Syntax::Literal(v) => v >= 0,
        Syntax::Binary(_, left, right) => unsigned_literals(*left) && unsigned_literals(*right),
        Syntax::Group(inner) => unsigned_literals(*inner),
        Syntax::Print(inner) => unsigned_literals(*inner),
    }
}

/// What may stand as an operand of one level may stand as an operand of
/// every looser level.
pub proof fn lemma_conforms_looser(s: Syntax, level: nat, looser: nat)
    requires
        conforms(s, level),
        looser <= level,
    ensures
        conforms(s, looser),
{
}

/// The tokens that write an expression without signed literals have the form
/// of tokens: none of them would be cut in two when read from text.
pub proof fn lemma_notation_is_tokens(s: Syntax, level: nat)
    requires
        conforms(s, level),
        unsigned_literals(s),
    ensures
        forall|i: int| 0 <= i < notation(s).len() ==> is_token(#[trigger] notation(s)[i]),
    decreases s,
{
    let toks = notation(s);
    assert(is_word(print_keyword())) by {
        let word = print_keyword();
        assert(word[0] == 'p' && word[1] == 'r' && word[2] == 'i' && word[3] == 'n' && word[4]
            == 't');
    }
    assert forall|c: char| is_delimiter(c) implies is_token(#[trigger] symbol(c)) by {
        assert(symbol(c)[0] == c);
    }
    match s {
        Syntax::Literal(v) => {
            lemma_decimal_reads_back(v as nat);
            assert(is_word(numeral(v as int)));
        },
        Syntax::Binary(op, left, right) => {
            if op == '+' || op == '-' {
                lemma_notation_is_tokens(*left, 0);
                lemma_notation_is_tokens(*right, 1);
            } else {
                lemma_notation_is_tokens(*left, 1);
                lemma_notation_is_tokens(*right, 2);
            }
            let a = notation(*left);
            let b = notation(*right);
            assert forall|i: int| 0 <= i < toks.len() implies is_token(#[trigger] toks[i]) by {
                if i < a.len() {
                    assert(toks[i] == a[i]);
                } else if i == a.len() {
                    assert(toks[i] == symbol(op));
                } else {
                    assert(toks[i] == b[i - a.len() - 1]);
                }
            }
        },
        Syntax::Group(inner) => {
            lemma_notation_is_tokens(*inner, 0);
            let a = notation(*inner);
            assert forall|i: int| 0 <= i < toks.len() implies is_token(#[trigger] toks[i]) by {
                if i == 0 {
                    assert(toks[i] == symbol('('));
                } else if i <= a.len() {
                    assert(toks[i] == a[i - 1]);
                } else {
                    assert(toks[i] == symbol(')'));
                }
            }
        },
        Syntax::Print(inner) => {
            lemma_notation_is_tokens(*inner, 0);
            let a = notation(*inner);
            assert forall|i: int| 0 <= i < toks.len() implies is_token(#[trigger] toks[i]) by {
                if i == 0 {
                    assert(toks[i] == print_keyword());
                } else if i == 1 {
                    assert(toks[i] == symbol('('));
                } else if i <= a.len() + 1 {
                    assert(toks[i] == a[i - 2]);
                } else {
                    assert(toks[i] == symbol(')'));
                }
            }
        },
    }
}

/// Precedence and grouping: a text whose tokens write an expression as the
/// grammar asks is read as the tree that the expression draws, however the
/// tokens are laid out. Its result and its reports are those of that tree.
pub proof fn theorem_text_reads_back(text: Seq<char>, s: Syntax)
    requires
        conforms(s, 0),
        tokens(text) == notation(s),
    ensures
        parsed(text) == Ok::<Expr, ParseError>(tree(s)),
        result(text) == evaluated(tree(s)),
        output(text) == printed(tree(s)),
{
    assert(notation(s) + Seq::<Seq<char>>::empty() =~= notation(s));
    theorem_reads_expression(s, Seq::empty());
}

/// Every expression without signed literals that is written as the grammar
/// asks has such a text: its tokens a space apart.
pub proof fn theorem_source_reads_back(s: Syntax)
    requires
        conforms(s, 0),
        unsigned_literals(s),
    ensures
        tokens(spelled(notation(s))) == notation(s),
        parsed(spelled(notation(s))) == Ok::<Expr, ParseError>(tree(s)),
        result(spelled(notation(s))) == evaluated(tree(s)),
        output(spelled(notation(s))) == printed(tree(s)),
{
    lemma_notation_is_tokens(s, 0);
    lemma_spelled_reads_back(notation(s));
    theorem_text_reads_back(spelled(notation(s)), s);
}

/// `print(..)` around an expression leaves its result as it is, and where
/// there is a value, reports it once more, after everything that the
/// expression reports itself.
pub proof fn theorem_print_reports_value(s: Syntax)
    requires
        conforms(s, 0),
        unsigned_literals(s),
    ensures
        result(spelled(notation(Syntax::Print(Box::new(s))))) == result(spelled(notation(s))),
        output(spelled(notation(Syntax::Print(Box::new(s))))) == match result(
            spelled(notation(s)),
        ) {
            Ok(v) => output(spelled(notation(s))).push(v),
            Err(_) => output(spelled(notation(s))),
        },
{
    theorem_source_reads_back(s);
    theorem_source_reads_back(Syntax::Print(Box::new(s)));
}

/// `e` with brackets round every operation.
pub open spec fn bracketed(e: Expr) -> Syntax
    decreases e,
{
    match e {
        Expr::Num(v) => Syntax::Literal(v),
        Expr::Add(a, b) => Syntax::Group(
            Box::new(Syntax::Binary('+', Box::new(bracketed(*a)), Box::new(bracketed(*b)))),
        ),
        Expr::Sub(a, b) => Syntax::Group(
            Box::new(Syntax::Binary('-', Box::new(bracketed(*a)), Box::new(bracketed(*b)))),
        ),
        Expr::Mul(a, b) => Syntax::Group(
            Box::new(Syntax::Binary('*', Box::new(bracketed(*a)), Box::new(bracketed(*b)))),
        ),
        Expr::Div(a, b) => Syntax::Group(
            Box::new(Syntax::Binary('/', Box::new(bracketed(*a)), Box::new(bracketed(*b)))),
        ),
        Expr::Print(a) => Syntax::Print(Box::new(bracketed(*a))),
    }
}

/// The level at which the operation at the root of `e` binds: 0 for `+` and
/// `-`, 1 for `*` and `/`, 2 for what has no operator at its root.
pub open spec fn level_of(e: Expr) -> nat {
    match e {
        Expr::Add(_, _) | Expr::Sub(_, _) => 0,
        Expr::Mul(_, _) | Expr::Div(_, _) => 1,
        _ => 2,
    }
}

/// `e` written for a place of tightness `level`, with brackets only where
/// the tree would otherwise be read differently.
pub open spec fn plain(e: Expr, level: nat) -> Syntax
    decreases e,
{
    let bare = match e {
        Expr::Num(v) => Syntax::Literal(v),
        Expr::Add(a, b) => Syntax::Binary('+', Box::new(plain(*a, 0)), Box::new(plain(*b, 1))),
        Expr::Sub(a, b) => Syntax::Binary('-', Box::new(plain(*a, 0)), Box::new(plain(*b, 1))),
        Expr::Mul(a, b) => Syntax::Binary('*', Box::new(plain(*a, 1)), Box::new(plain(*b, 2))),
        Expr::Div(a, b) => Syntax::Binary('/', Box::new(plain(*a, 1)), Box::new(plain(*b, 2))),
        Expr::Print(a) => Syntax::Print(Box::new(plain(*a, 0))),
    };
    if level_of(e) < level {
        Syntax::Group(Box::new(bare))
    } else {
        bare
    }
}

/// Whether no literal of `e` is negative.
pub open spec fn unsigned_numbers(e: Expr) -> bool
    decreases e,
{
    match e {
        Expr::Num(v) => v >= 0,
        Expr::Print(a) => unsigned_numbers(*a),
        Expr::Add(a, b) | Expr::Sub(a, b) | Expr::Mul(a, b) | Expr::Div(a, b) => unsigned_numbers(
            *a,
        ) && unsigned_numbers(*b),
    }
}

/// The four operators are four different tokens.
proof fn lemma_operators_differ()
    ensures
        symbol('-') != symbol('+'),
        symbol('*') != symbol('+'),
        symbol('*') != symbol('-'),
        symbol('/') != symbol('+'),
        symbol('/') != symbol('-'),
        symbol('/') != symbol('*'),
{
    lemma_symbols_differ('-', '+');
    lemma_symbols_differ('*', '+');
    lemma_symbols_differ('*', '-');
    lemma_symbols_differ('/', '+');
    lemma_symbols_differ('/', '-');
    lemma_symbols_differ('/', '*');
}

/// A tree with brackets round every operation may stand anywhere, and draws
/// the tree it was made from.
pub proof fn lemma_bracketed_conforms(e: Expr)
    ensures
        conforms(bracketed(e), 2),
        tree(bracketed(e)) == e,
        unsigned_numbers(e) ==> unsigned_literals(bracketed(e)),
    decreases e,
{
    lemma_operators_differ();
    reveal_with_fuel(conforms, 2);
    reveal_with_fuel(tree, 2);
    reveal_with_fuel(unsigned_literals, 2);
    match e {
        Expr::Num(_) => {},
        Expr::Print(a) => {
            lemma_bracketed_conforms(*a);
            lemma_conforms_looser(bracketed(*a), 2, 0);
        },
        Expr::Add(a, b) | Expr::Sub(a, b) | Expr::Mul(a, b) | Expr::Div(a, b) => {
            lemma_bracketed_conforms(*a);
            lemma_bracketed_conforms(*b);
            lemma_conforms_looser(bracketed(*a), 2, 0);
            lemma_conforms_looser(bracketed(*a), 2, 1);
            lemma_conforms_looser(bracketed(*b), 2, 1);
        },
    }
}

/// A tree written with brackets only where they are needed is written as the
/// grammar asks, and draws the tree it was made from.
pub proof fn lemma_plain_conforms(e: Expr, level: nat)
    requires
        level <= 2,
    ensures
        conforms(plain(e, level), level),
        tree(plain(e, level)) == e,
        unsigned_numbers(e) ==> unsigned_literals(plain(e, level)),
    decreases e,
{
    lemma_operators_differ();
    reveal_with_fuel(conforms, 2);
    reveal_with_fuel(tree, 2);
    reveal_with_fuel(unsigned_literals, 2);
    match e {
        Expr::Num(_) => {},
        Expr::Print(a) => {
            lemma_plain_conforms(*a, 0);
        },
        Expr::Add(a, b) | Expr::Sub(a, b) => {
            lemma_plain_conforms(*a, 0);
            lemma_plain_conforms(*b, 1);
        },
        Expr::Mul(a, b) | Expr::Div(a, b) => {
            lemma_plain_conforms(*a, 1);
            lemma_plain_conforms(*b, 2);
        },
    }
}

/// Brackets round every operation change nothing: the tokens that write any
/// `e` so are read as `e` again, all of them.
pub proof fn theorem_bracketed_tokens_read_back(e: Expr)
    ensures
        expression(notation(bracketed(e))) == Ok::<(Expr, nat), ParseError>(
            (e, notation(bracketed(e)).len()),
        ),
{
    lemma_bracketed_conforms(e);
    lemma_conforms_looser(bracketed(e), 2, 0);
    assert(notation(bracketed(e)) + Seq::<Seq<char>>::empty() =~= notation(bracketed(e)));
    theorem_reads_expression(bracketed(e), Seq::empty());
}

/// Brackets round every operation change nothing: the text that writes `e`
/// so, its literals unsigned, is read as `e` again, with the result and the
/// reports of `e`.
pub proof fn theorem_bracketed_reads_back(e: Expr)
    requires
        unsigned_numbers(e),
    ensures
        parsed(spelled(notation(bracketed(e)))) == Ok::<Expr, ParseError>(e),
        result(spelled(notation(bracketed(e)))) == evaluated(e),
        output(spelled(notation(bracketed(e)))) == printed(e),
{
    lemma_bracketed_conforms(e);
    lemma_conforms_looser(bracketed(e), 2, 0);
    theorem_source_reads_back(bracketed(e));
}

/// Brackets are needed only against precedence and grouping from the left:
/// the text that writes `e` with no others is read as `e` again, with the
/// result and the reports of `e`.
pub proof fn theorem_plain_reads_back(e: Expr)
    requires
        unsigned_numbers(e),
    ensures
        parsed(spelled(notation(plain(e, 0)))) == Ok::<Expr, ParseError>(e),
        result(spelled(notation(plain(e, 0)))) == evaluated(e),
        output(spelled(notation(plain(e, 0)))) == printed(e),
{
    lemma_plain_conforms(e, 0);
    theorem_source_reads_back(plain(e, 0));
}

} // verus!

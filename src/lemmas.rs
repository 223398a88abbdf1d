//! Facts relating the lexer, the parser and the evaluator.
use vstd::prelude::*;
use crate::lexer::{
    digit_run_end, digit_value, digits_value, is_digit, lemma_digit_run_end_bounds, lex, lex_from,
    prepend, symbol_token, BracketType, LexerError, OperatorType, Token,
};
use crate::parser::{
    parse_expr, parse_expr_rest, parse_factor, parse_term, parse_term_rest, parse_tokens,
    parse_unary, token_at, Node, ParseError,
};
use crate::evaluator::value;

verus! {

/// Characters that arithmetic text is made of: digits, the four operators,
/// brackets and spaces.
pub open spec fn is_arith_char(c: char) -> bool {
    is_digit(c) || c == '+' || c == '-' || c == '*' || c == '/' || c == '(' || c == ')' || c
        == ' '
}

proof fn lemma_lex_from_arith(s: Seq<char>, i: int)
    requires
        0 <= i <= s.len(),
        forall|k: int| 0 <= k < s.len() ==> is_arith_char(#[trigger] s[k]),
    ensures
        lex_from(s, i) is Ok || lex_from(s, i) == Err::<Seq<Token>, LexerError>(
            LexerError::NumberFormatError,
        ),
    decreases s.len() - i,
{
    if i < s.len() {
        if s[i] == ' ' {
            lemma_lex_from_arith(s, i + 1);
        } else if is_digit(s[i]) {
            lemma_digit_run_end_bounds(s, i);
            lemma_lex_from_arith(s, digit_run_end(s, i));
        } else {
            lemma_lex_from_arith(s, i + 1);
        }
    }
}

/// `k` starts a maximal run of digits.
pub open spec fn run_start(s: Seq<char>, k: int) -> bool {
    0 <= k < s.len() && is_digit(s[k]) && (k == 0 || !is_digit(s[k - 1]))
}

/// A maximal run of digits starts at `k` and denotes a number above `i32::MAX`.
pub open spec fn oversized_run(s: Seq<char>, k: int) -> bool {
    run_start(s, k) && digits_value(s.subrange(k, digit_run_end(s, k))) > i32::MAX
}

/// `i` does not fall inside a run of digits.
spec fn at_boundary(s: Seq<char>, i: int) -> bool {
    i == 0 || i >= s.len() || !is_digit(s[i - 1]) || !is_digit(s[i])
}

proof fn lemma_lex_from_number_error(s: Seq<char>, i: int)
    requires
        0 <= i <= s.len(),
        at_boundary(s, i),
        forall|k: int| 0 <= k < s.len() ==> is_arith_char(#[trigger] s[k]),
    ensures
        lex_from(s, i) == Err::<Seq<Token>, LexerError>(LexerError::NumberFormatError) <==> exists|
            k: int,
        | i <= k && #[trigger] oversized_run(s, k),
    decreases s.len() - i,
{
    let nfe = Err::<Seq<Token>, LexerError>(LexerError::NumberFormatError);
    if i < s.len() {
        if is_digit(s[i]) {
            lemma_digit_run_end_bounds(s, i);
            let j = digit_run_end(s, i);
            if oversized_run(s, i) {
                assert(lex_from(s, i) == nfe);
            } else {
                lemma_lex_from_number_error(s, j);
                assert((exists|k: int| i <= k && #[trigger] oversized_run(s, k)) ==> exists|k: int|
                    j <= k && #[trigger] oversized_run(s, k)) by {
                    if exists|k: int| i <= k && #[trigger] oversized_run(s, k) {
                        let k = choose|k: int| i <= k && #[trigger] oversized_run(s, k);
                        if k < j {
                            assert(is_digit(s[k - 1]));
                        }
                    }
                }
                assert((exists|k: int| j <= k && #[trigger] oversized_run(s, k)) ==> exists|k: int|
                    i <= k && #[trigger] oversized_run(s, k));
            }
        } else {
            lemma_lex_from_number_error(s, i + 1);
            assert(!oversized_run(s, i));
            assert((exists|k: int| i <= k && #[trigger] oversized_run(s, k)) ==> exists|k: int|
                i + 1 <= k && #[trigger] oversized_run(s, k)) by {
                if exists|k: int| i <= k && #[trigger] oversized_run(s, k) {
                    let k = choose|k: int| i <= k && #[trigger] oversized_run(s, k);
                    assert(k != i);
                }
            }
            assert((exists|k: int| i + 1 <= k && #[trigger] oversized_run(s, k)) ==> exists|k: int|
                i <= k && #[trigger] oversized_run(s, k));
        }
    }
}

/// On text made only of digits, operators, brackets and spaces, lexing either
/// succeeds or fails because a number is out of range, and it fails exactly
/// when some maximal run of digits denotes a number above `i32::MAX`. The
/// token sequence is the function `lex` of the text.
pub proof fn lemma_lex_arith_text(s: Seq<char>)
    requires
        forall|k: int| 0 <= k < s.len() ==> is_arith_char(#[trigger] s[k]),
    ensures
        lex(s) is Ok || lex(s) == Err::<Seq<Token>, LexerError>(LexerError::NumberFormatError),
        lex(s) == Err::<Seq<Token>, LexerError>(LexerError::NumberFormatError) <==> exists|k: int|
            #[trigger] oversized_run(s, k),
{
    lemma_lex_from_arith(s, 0);
    lemma_lex_from_number_error(s, 0);
    assert((exists|k: int| #[trigger] oversized_run(s, k)) ==> exists|k: int|
        0 <= k && #[trigger] oversized_run(s, k));
}

/// A lexeme starts at `k`: an operator, a bracket, or the first digit of a run.
pub open spec fn lexeme_start(s: Seq<char>, k: int) -> bool {
    0 <= k < s.len() && (run_start(s, k) || symbol_token(s[k]) is Some)
}

/// The positions, from `i` on, at which lexemes start, in increasing order.
pub open spec fn lexeme_starts(s: Seq<char>, i: int) -> Seq<int>
    decreases s.len() - i,
{
    if i < 0 || i >= s.len() {
        Seq::empty()
    } else if lexeme_start(s, i) {
        seq![i] + lexeme_starts(s, i + 1)
    } else {
        lexeme_starts(s, i + 1)
    }
}

/// The token that the lexeme starting at `k` stands for.
pub open spec fn lexeme_token(s: Seq<char>, k: int) -> Token {
    if is_digit(s[k]) {
        Token::Number(digits_value(s.subrange(k, digit_run_end(s, k))) as i32)
    } else {
        symbol_token(s[k])->Some_0
    }
}

proof fn lemma_skip_run(s: Seq<char>, k: int, j: int)
    requires
        1 <= k <= j <= s.len(),
        forall|m: int| k - 1 <= m < j ==> is_digit(#[trigger] s[m]),
    ensures
        lexeme_starts(s, k) == lexeme_starts(s, j),
    decreases j - k,
{
    if k < j {
        assert(is_digit(s[k - 1]) && is_digit(s[k]));
        lemma_skip_run(s, k + 1, j);
    }
}

proof fn lemma_lex_from_lexemes(s: Seq<char>, i: int)
    requires
        0 <= i <= s.len(),
        at_boundary(s, i),
    ensures
        lex_from(s, i) matches Ok(ts) ==> ts == lexeme_starts(s, i).map_values(
            |k: int| lexeme_token(s, k),
        ),
    decreases s.len() - i,
{
    let f = |k: int| lexeme_token(s, k);
    if i < s.len() {
        if is_digit(s[i]) {
            lemma_digit_run_end_bounds(s, i);
            let j = digit_run_end(s, i);
            lemma_lex_from_lexemes(s, j);
            lemma_skip_run(s, i + 1, j);
            assert(lexeme_start(s, i));
            if let Ok(ts) = lex_from(s, i) {
                let rest = lexeme_starts(s, j);
                assert(lexeme_starts(s, i) == seq![i] + rest);
                assert((seq![i] + rest).map_values(f) =~= seq![f(i)] + rest.map_values(f));
            }
        } else if s[i] == ' ' {
            lemma_lex_from_lexemes(s, i + 1);
        } else {
            lemma_lex_from_lexemes(s, i + 1);
            if let Ok(ts) = lex_from(s, i) {
                let rest = lexeme_starts(s, i + 1);
                assert(lexeme_starts(s, i) == seq![i] + rest);
                assert((seq![i] + rest).map_values(f) =~= seq![f(i)] + rest.map_values(f));
            }
        }
    }
}

/// When lexing succeeds, its tokens are the lexemes of the text in order, one
/// token for each operator, bracket and maximal run of digits, spaces giving
/// none.
pub proof fn lemma_lex_tokens_are_lexemes(s: Seq<char>)
    ensures
        lex(s) matches Ok(ts) ==> ts == lexeme_starts(s, 0).map_values(
            |k: int| lexeme_token(s, k),
        ),
        lex(s) matches Ok(ts) ==> ts.len() == lexeme_starts(s, 0).len(),
{
    lemma_lex_from_lexemes(s, 0);
}

pub open spec fn digit_char(d: nat) -> char {
    ('0' as int + d) as char
}

/// The decimal digits of `n`, without leading zeros.
pub open spec fn decimal(n: nat) -> Seq<char>
    decreases n,
{
    if n < 10 {
        seq![digit_char(n)]
    } else {
        decimal(n / 10).push(digit_char(n % 10))
    }
}

/// The decimal form of an integer, with a leading `-` when it is negative.
pub open spec fn decimal_text(n: int) -> Seq<char> {
    if n < 0 {
        seq!['-'] + decimal((-n) as nat)
    } else {
        decimal(n as nat)
    }
}

proof fn lemma_decimal(n: nat)
    ensures
        decimal(n).len() >= 1,
        forall|k: int| 0 <= k < decimal(n).len() ==> is_digit(#[trigger] decimal(n)[k]),
        digits_value(decimal(n)) == n,
    decreases n,
{
    let d = decimal(n);
    if n < 10 {
        assert(d.drop_last() =~= Seq::<char>::empty());
        assert(digits_value(d.drop_last()) == 0);
        assert(digit_value(digit_char(n)) == n);
    } else {
        lemma_decimal(n / 10);
        assert(d.drop_last() =~= decimal(n / 10));
        assert(digit_value(digit_char(n % 10)) == n % 10);
        assert(d.last() == digit_char(n % 10));
        assert(n == (n / 10) * 10 + n % 10);
        assert(forall|k: int| 0 <= k < d.len() ==> is_digit(#[trigger] d[k])) by {
            assert forall|k: int| 0 <= k < d.len() implies is_digit(#[trigger] d[k]) by {
                if k < d.len() - 1 {
                    assert(d[k] == decimal(n / 10)[k]);
                }
            }
        }
    }
}

proof fn lemma_run_to_end(s: Seq<char>, i: int)
    requires
        0 <= i <= s.len(),
        forall|k: int| i <= k < s.len() ==> is_digit(#[trigger] s[k]),
    ensures
        digit_run_end(s, i) == s.len(),
    decreases s.len() - i,
{
    if i < s.len() {
        lemma_run_to_end(s, i + 1);
    }
}

/// Lexing the digits of an `i32` from position `i` to the end.
proof fn lemma_lex_digits(s: Seq<char>, i: int, n: nat)
    requires
        0 <= i < s.len(),
        s.subrange(i, s.len() as int) == decimal(n),
        n <= i32::MAX,
    ensures
        lex_from(s, i) == Ok::<Seq<Token>, LexerError>(seq![Token::Number(n as i32)]),
{
    lemma_decimal(n);
    assert forall|k: int| i <= k < s.len() implies is_digit(#[trigger] s[k]) by {
        assert(s[k] == decimal(n)[k - i]);
    }
    assert(s[i] == decimal(n)[0]);
    lemma_run_to_end(s, i);
    assert(lex_from(s, s.len() as int) == Ok::<Seq<Token>, LexerError>(Seq::empty()));
    assert(seq![Token::Number(n as i32)] + Seq::<Token>::empty() =~= seq![
        Token::Number(n as i32),
    ]);
}

proof fn lemma_parse_number(k: i32)
    ensures
        parse_tokens(seq![Token::Number(k)]) == Ok::<Node, ParseError>(Node::Number(k)),
{
    let ts = seq![Token::Number(k)];
    let num = Node::Number(k);
    assert(parse_factor(ts, 0, false) == Ok::<(Node, int), ParseError>((num, 1)));
    assert(parse_unary(ts, 0) == parse_factor(ts, 0, false));
    assert(parse_term_rest(ts, num, 1) == Ok::<(Node, int), ParseError>((num, 1)));
    assert(parse_term(ts, 0) == Ok::<(Node, int), ParseError>((num, 1)));
    assert(parse_expr_rest(ts, num, 1) == Ok::<(Node, int), ParseError>((num, 1)));
    assert(parse_expr(ts, 0) == Ok::<(Node, int), ParseError>((num, 1)));
}

proof fn lemma_parse_negated(k: i32)
    ensures
        parse_tokens(seq![Token::Operator(OperatorType::Sub), Token::Number(k)])
            == Ok::<Node, ParseError>(
            Node::UnaryExpr { op: OperatorType::Sub, child: Box::new(Node::Number(k)) },
        ),
{
    let ts = seq![Token::Operator(OperatorType::Sub), Token::Number(k)];
    let neg = Node::UnaryExpr { op: OperatorType::Sub, child: Box::new(Node::Number(k)) };
    assert(parse_factor(ts, 1, true) == Ok::<(Node, int), ParseError>((neg, 2)));
    assert(parse_unary(ts, 0) == parse_factor(ts, 1, true));
    assert(parse_term_rest(ts, neg, 2) == Ok::<(Node, int), ParseError>((neg, 2)));
    assert(parse_term(ts, 0) == Ok::<(Node, int), ParseError>((neg, 2)));
    assert(parse_expr_rest(ts, neg, 2) == Ok::<(Node, int), ParseError>((neg, 2)));
    assert(parse_expr(ts, 0) == Ok::<(Node, int), ParseError>((neg, 2)));
}

/// The decimal form of any `i32` above `i32::MIN` lexes to its digits, with a
/// leading minus for a negative number, and parses and evaluates back to the
/// same integer. (`i32::MIN` has no such form: its digits exceed `i32::MAX`.)
pub proof fn lemma_number_round_trip(n: int)
    requires
        i32::MIN < n <= i32::MAX,
    ensures
        n >= 0 ==> lex(decimal_text(n)) == Ok::<Seq<Token>, LexerError>(
            seq![Token::Number(n as i32)],
        ),
        n < 0 ==> lex(decimal_text(n)) == Ok::<Seq<Token>, LexerError>(
            seq![Token::Operator(OperatorType::Sub), Token::Number((-n) as i32)],
        ),
        lex(decimal_text(n)) matches Ok(ts) && parse_tokens(ts) matches Ok(node) && value(node)
            == n,
{
    let s = decimal_text(n);
    if n >= 0 {
        assert(s.subrange(0, s.len() as int) =~= decimal(n as nat));
        lemma_lex_digits(s, 0, n as nat);
        lemma_parse_number(n as i32);
    } else {
        let m = (-n) as nat;
        lemma_decimal(m);
        assert(s.subrange(1, s.len() as int) =~= decimal(m));
        lemma_lex_digits(s, 1, m);
        assert(s[0] == '-');
        assert(symbol_token(s[0]) == Some(Token::Operator(OperatorType::Sub)));
        assert(lex_from(s, 0) == prepend(Token::Operator(OperatorType::Sub), lex_from(s, 1)));
        assert(seq![Token::Operator(OperatorType::Sub)] + seq![Token::Number(m as i32)] =~= seq![
            Token::Operator(OperatorType::Sub),
            Token::Number(m as i32),
        ]);
        lemma_parse_negated(m as i32);
        let neg = Node::UnaryExpr { op: OperatorType::Sub, child: Box::new(Node::Number(m as i32)) };
        assert(value(Node::Number(m as i32)) == m as i32);
        assert(value(neg) == 0i32.wrapping_sub(m as i32));
        assert(value(neg) == n);
    }
}

/// `x` is `w` followed by `)` and possibly more tokens.
pub open spec fn closes_after(w: Seq<Token>, x: Seq<Token>) -> bool {
    &&& x.len() > w.len()
    &&& forall|k: int| 0 <= k < w.len() ==> #[trigger] x[k] == w[k]
    &&& x[w.len() as int] == Token::Bracket(BracketType::Right)
}

proof fn lemma_close_expr(w: Seq<Token>, x: Seq<Token>, i: int)
    requires
        closes_after(w, x),
        0 <= i <= w.len(),
    ensures
        parse_expr(w, i) is Ok ==> parse_expr(x, i) == parse_expr(w, i),
    decreases w.len() - i, 3int,
{
    lemma_close_term(w, x, i);
    if let Ok((t, j)) = parse_term(w, i) {
        if i < j <= w.len() {
            lemma_close_expr_rest(w, x, t, j);
        }
    }
}

proof fn lemma_close_expr_rest(w: Seq<Token>, x: Seq<Token>, lhs: Node, i: int)
    requires
        closes_after(w, x),
        0 <= i <= w.len(),
    ensures
        parse_expr_rest(w, lhs, i) is Ok ==> parse_expr_rest(x, lhs, i) == parse_expr_rest(
            w,
            lhs,
            i,
        ),
    decreases w.len() - i, 0int,
{
    if i < w.len() {
        assert(token_at(x, i) == token_at(w, i));
        if let Some(Token::Operator(op)) = token_at(w, i) {
            lemma_close_term(w, x, i + 1);
            if let Ok((t, j)) = parse_term(w, i + 1) {
                if i < j <= w.len() {
                    lemma_close_expr_rest(
                        w,
                        x,
                        Node::BinaryExpr { op, lhs: Box::new(lhs), rhs: Box::new(t) },
                        j,
                    );
                }
            }
        }
    }
}

proof fn lemma_close_term(w: Seq<Token>, x: Seq<Token>, i: int)
    requires
        closes_after(w, x),
        0 <= i <= w.len(),
    ensures
        parse_term(w, i) is Ok ==> parse_term(x, i) == parse_term(w, i),
    decreases w.len() - i, 2int,
{
    lemma_close_unary(w, x, i);
    if let Ok((v, j)) = parse_unary(w, i) {
        if i < j <= w.len() {
            lemma_close_term_rest(w, x, v, j);
        }
    }
}

proof fn lemma_close_term_rest(w: Seq<Token>, x: Seq<Token>, lhs: Node, i: int)
    requires
        closes_after(w, x),
        0 <= i <= w.len(),
    ensures
        parse_term_rest(w, lhs, i) is Ok ==> parse_term_rest(x, lhs, i) == parse_term_rest(
            w,
            lhs,
            i,
        ),
    decreases w.len() - i, 0int,
{
    if i < w.len() {
        assert(token_at(x, i) == token_at(w, i));
        if let Some(Token::Operator(op)) = token_at(w, i) {
            lemma_close_unary(w, x, i + 1);
            if let Ok((v, j)) = parse_unary(w, i + 1) {
                if i < j <= w.len() {
                    lemma_close_term_rest(
                        w,
                        x,
                        Node::BinaryExpr { op, lhs: Box::new(lhs), rhs: Box::new(v) },
                        j,
                    );
                }
            }
        }
    }
}

proof fn lemma_close_unary(w: Seq<Token>, x: Seq<Token>, i: int)
    requires
        closes_after(w, x),
        0 <= i <= w.len(),
    ensures
        parse_unary(w, i) is Ok ==> parse_unary(x, i) == parse_unary(w, i),
    decreases w.len() - i, 1int,
{
    lemma_close_factor(w, x, i, false);
    if i < w.len() {
        assert(token_at(x, i) == token_at(w, i));
        lemma_close_factor(w, x, i + 1, true);
    }
}

proof fn lemma_close_factor(w: Seq<Token>, x: Seq<Token>, i: int, neg: bool)
    requires
        closes_after(w, x),
        0 <= i <= w.len(),
    ensures
        parse_factor(w, i, neg) is Ok ==> parse_factor(x, i, neg) == parse_factor(w, i, neg),
    decreases w.len() - i, 0int,
{
    if i < w.len() {
        assert(token_at(x, i) == token_at(w, i));
        if token_at(w, i) == Some(Token::Bracket(BracketType::Left)) {
            lemma_close_expr(w, x, i + 1);
            if let Ok((e, j)) = parse_expr(w, i + 1) {
                if 0 <= j < w.len() {
                    assert(token_at(x, j) == token_at(w, j));
                }
            }
        }
    }
}

/// A `)` right after a complete expression at top level ends it as the end of
/// the input does: the same tree comes out, and the `)` and all that follows
/// it are left unread.
pub proof fn lemma_closing_bracket_ends_expression(w: Seq<Token>, rest: Seq<Token>, a: Node)
    requires
        parse_expr(w, 0) == Ok::<(Node, int), ParseError>((a, w.len() as int)),
    ensures
        parse_expr(w + seq![Token::Bracket(BracketType::Right)] + rest, 0) == Ok::<
            (Node, int),
            ParseError,
        >((a, w.len() as int)),
        parse_tokens(w + seq![Token::Bracket(BracketType::Right)] + rest) == Ok::<
            Node,
            ParseError,
        >(a),
{
    let x = w + seq![Token::Bracket(BracketType::Right)] + rest;
    assert(closes_after(w, x));
    lemma_close_expr(w, x, 0);
}

/// Evaluation is a function of the tree: equal trees have equal values, so
/// evaluating one tree twice gives one result.
pub proof fn lemma_eval_repeatable(a: Node, b: Node)
    requires
        a == b,
    ensures
        value(a) == value(b),
{
}

} // verus!

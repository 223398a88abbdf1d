use vstd::prelude::*;

verus! {

/// Why a piece of source text could not be split into tokens.
#[derive(Debug, PartialEq, Eq, Structural)]
pub enum LexerError {
    /// A run of digits does not fit in an `i32`.
    NumberFormatError,
    /// A character that no token starts with.
    UnknownChar,
    /// An internal inconsistency; never produced.
    LexError,
}

#[derive(Debug, PartialEq, Eq, Structural, Clone, Copy)]
pub enum OperatorType {
    Plus,
    Sub,
    Div,
    Mul,
}

#[derive(Debug, PartialEq, Eq, Structural, Clone, Copy)]
pub enum BracketType {
    Left,
    Right,
}

#[derive(Debug, PartialEq, Eq, Structural, Clone, Copy)]
pub enum Token {
    Number(i32),
    Operator(OperatorType),
    Bracket(BracketType),
}

pub open spec fn is_digit(c: char) -> bool {
    '0' <= c <= '9'
}

pub open spec fn digit_value(c: char) -> nat {
    (c as int - '0' as int) as nat
}

/// The number that a sequence of decimal digits denotes.
pub open spec fn digits_value(d: Seq<char>) -> nat
    decreases d.len(),
{
    if d.len() == 0 {
        0
    } else {
        digits_value(d.drop_last()) * 10 + digit_value(d.last())
    }
}

/// The end of the maximal run of digits that starts at `i`.
pub open spec fn digit_run_end(s: Seq<char>, i: int) -> int
    decreases s.len() - i,
{
    if 0 <= i < s.len() && is_digit(s[i]) {
        digit_run_end(s, i + 1)
    } else {
        i
    }
}

/// The token that a single-character operator or bracket stands for.
pub open spec fn symbol_token(c: char) -> Option<Token> {
    if c == '+' {
        Some(Token::Operator(OperatorType::Plus))
    } else if c == '-' {
        Some(Token::Operator(OperatorType::Sub))
    } else if c == '*' {
        Some(Token::Operator(OperatorType::Mul))
    } else if c == '/' {
        Some(Token::Operator(OperatorType::Div))
    } else if c == '(' {
        Some(Token::Bracket(BracketType::Left))
    } else if c == ')' {
        Some(Token::Bracket(BracketType::Right))
    } else {
        None
    }
}

/// `r` with one token put in front, when it holds tokens.
pub open spec fn prepend(t: Token, r: Result<Seq<Token>, LexerError>) -> Result<Seq<Token>, LexerError> {
    match r {
        Ok(ts) => Ok(seq![t] + ts),
        Err(e) => Err(e),
    }
}

/// `r` with the tokens `p` put in front, when it holds tokens.
pub open spec fn prepend_all(p: Seq<Token>, r: Result<Seq<Token>, LexerError>) -> Result<Seq<Token>, LexerError> {
    match r {
        Ok(ts) => Ok(p + ts),
        Err(e) => Err(e),
    }
}

/// Tokens of `s` from position `i` on, or the first error met scanning left to right.
/// A run of digits always ends past its start (`lemma_digit_run_end_bounds`), so
/// the `LexError` branch is never taken.
pub open spec fn lex_from(s: Seq<char>, i: int) -> Result<Seq<Token>, LexerError>
    decreases s.len() - i, 0int,
{
    if i < 0 || i >= s.len() {
        Ok(Seq::empty())
    } else if s[i] == ' ' {
        lex_from(s, i + 1)
    } else if is_digit(s[i]) {
        let j = digit_run_end(s, i);
        if !(i < j <= s.len()) {
            Err(LexerError::LexError)
        } else if digits_value(s.subrange(i, j)) > i32::MAX {
            Err(LexerError::NumberFormatError)
        } else {
            let v = digits_value(s.subrange(i, j));
            prepend(Token::Number(v as i32), lex_from(s, j))
        }
    } else {
        match symbol_token(s[i]) {
            Some(t) => prepend(t, lex_from(s, i + 1)),
            None => Err(LexerError::UnknownChar),
        }
    }
}

/// The token sequence of a whole source text.
pub open spec fn lex(s: Seq<char>) -> Result<Seq<Token>, LexerError> {
    lex_from(s, 0)
}

/// `digit_run_end` stays between its start and the end of the text.
pub proof fn lemma_digit_run_end_bounds(s: Seq<char>, i: int)
    requires
        0 <= i <= s.len(),
    ensures
        i <= digit_run_end(s, i) <= s.len(),
        i < s.len() && is_digit(s[i]) ==> i < digit_run_end(s, i),
        forall|k: int| i <= k < digit_run_end(s, i) ==> is_digit(#[trigger] s[k]),
        digit_run_end(s, i) < s.len() ==> !is_digit(s[digit_run_end(s, i)]),
    decreases s.len() - i,
{
    if i < s.len() && is_digit(s[i]) {
        lemma_digit_run_end_bounds(s, i + 1);
    }
}

proof fn lemma_prepend_push(p: Seq<Token>, t: Token, r: Result<Seq<Token>, LexerError>)
    ensures
        prepend_all(p, prepend(t, r)) == prepend_all(p.push(t), r),
{
    if let Ok(ts) = r {
        assert(p + (seq![t] + ts) =~= p.push(t) + ts);
    }
}

/// A cursor over the characters of a source text.
struct Scanner {
    raw: Vec<char>,
    pos: usize,
}

impl Scanner {
    fn new(s: &str) -> (r: Scanner)
        ensures
            r.raw@ == s@,
            r.pos == 0,
    {
        let n = s.unicode_len();
        let mut raw: Vec<char> = Vec::new();
        let mut i: usize = 0;
        while i < n
            invariant
                n == s@.len(),
                i <= n,
                raw@ == s@.subrange(0, i as int),
            decreases n - i,
        {
            raw.push(s.get_char(i));
            i += 1;
            assert(raw@ =~= s@.subrange(0, i as int));
        }
        assert(raw@ =~= s@);
        Scanner { raw, pos: 0 }
    }

    /// The character under the cursor, if any.
    fn peek(&self) -> (r: Option<char>)
        ensures
            r == (if self.pos < self.raw@.len() {
                Some(self.raw@[self.pos as int])
            } else {
                None::<char>
            }),
    {
        if self.pos < self.raw.len() {
            Some(self.raw[self.pos])
        } else {
            None
        }
    }

    /// The character under the cursor, if any, moving past it.
    fn next(&mut self) -> (r: Option<char>)
        ensures
            r == old(self).peek_spec(),
            final(self).raw == old(self).raw,
            final(self).pos == (if old(self).pos < old(self).raw@.len() {
                old(self).pos + 1
            } else {
                old(self).pos as int
            }),
    {
        if self.pos < self.raw.len() {
            let c = self.raw[self.pos];
            self.pos += 1;
            Some(c)
        } else {
            None
        }
    }

    spec fn peek_spec(&self) -> Option<char> {
        if self.pos < self.raw@.len() {
            Some(self.raw@[self.pos as int])
        } else {
            None
        }
    }
}

/// The tokens of a source text, with a cursor for reading them in order.
#[derive(Debug)]
pub struct Lexer {
    tokens: Vec<Token>,
    pos: usize,
}

impl Lexer {
    /// The whole token sequence.
    pub closed spec fn tokens(&self) -> Seq<Token> {
        self.tokens@
    }

    /// The index of the next token to be read.
    pub closed spec fn pos(&self) -> int {
        self.pos as int
    }

    /// The bounds that machine integers put on the token count and the
    /// cursor. The cursor may stand past the last token.
    pub open spec fn well_formed(&self) -> bool {
        self.tokens().len() <= usize::MAX && 0 <= self.pos() <= usize::MAX
    }

    /// The token under the cursor, or `None` once every token has been read.
    pub open spec fn current(&self) -> Option<Token> {
        if self.pos() < self.tokens().len() {
            Some(self.tokens()[self.pos()])
        } else {
            None
        }
    }

    /// Splits `s` into tokens; the cursor starts at the first one.
    pub fn new(s: &str) -> (r: Result<Lexer, LexerError>)
        ensures
            r is Ok <==> lex(s@) is Ok,
            r matches Ok(l) ==> l.tokens() == lex(s@)->Ok_0 && l.pos() == 0 && l.well_formed(),
            r matches Err(e) ==> lex(s@) == Err::<Seq<Token>, LexerError>(e),
    {
        let mut scanner = Scanner::new(s);
        let mut tokens: Vec<Token> = Vec::new();
        let ghost src = s@;
        assert(prepend_all(tokens@, lex_from(src, 0)) == lex(src)) by {
            if let Ok(ts) = lex_from(src, 0) {
                assert(tokens@ + ts =~= ts);
            }
        }
        loop
            invariant
                src == s@,
                scanner.raw@ == src,
                scanner.pos <= src.len(),
                tokens@.len() <= scanner.pos,
                lex(src) == prepend_all(tokens@, lex_from(src, scanner.pos as int)),
            ensures
                tokens@.len() <= scanner.pos,
                scanner.pos == src.len(),
                lex(src) == prepend_all(tokens@, lex_from(src, scanner.pos as int)),
            decreases src.len() - scanner.pos,
        {
            let start = scanner.pos;
            let ch = match scanner.peek() {
                Some(c) => c,
                None => break,
            };
            if ch == '+' || ch == '-' || ch == '*' || ch == '/' {
                let op = if ch == '+' {
                    OperatorType::Plus
                } else if ch == '-' {
                    OperatorType::Sub
                } else if ch == '*' {
                    OperatorType::Mul
                } else {
                    OperatorType::Div
                };
                proof {
                    lemma_prepend_push(tokens@, Token::Operator(op), lex_from(src, start + 1));
                }
                tokens.push(Token::Operator(op));
                scanner.next();
            } else if '0' <= ch && ch <= '9' {
                let mut acc: i32 = 0;
                let mut too_big = false;
                proof {
                    lemma_digit_run_end_bounds(src, start as int);
                    assert(src.subrange(start as int, start as int) =~= Seq::<char>::empty());
                }
                loop
                    invariant
                        src == s@,
                        scanner.raw@ == src,
                        start <= scanner.pos <= src.len(),
                        tokens@.len() <= start,
                        start < src.len() && is_digit(src[start as int]),
                        lex(src) == prepend_all(tokens@, lex_from(src, start as int)),
                        start < digit_run_end(src, start as int),
                        digit_run_end(src, start as int) == digit_run_end(src, scanner.pos as int),
                        too_big ==> digits_value(src.subrange(start as int, scanner.pos as int))
                            > i32::MAX,
                        !too_big ==> acc == digits_value(
                            src.subrange(start as int, scanner.pos as int),
                        ),
                    ensures
                        scanner.raw@ == src,
                        lex(src) == prepend_all(tokens@, lex_from(src, start as int)),
                        start < scanner.pos,
                        start <= scanner.pos <= src.len(),
                        digit_run_end(src, start as int) == scanner.pos,
                        too_big ==> digits_value(src.subrange(start as int, scanner.pos as int))
                            > i32::MAX,
                        !too_big ==> acc == digits_value(
                            src.subrange(start as int, scanner.pos as int),
                        ),
                    decreases src.len() - scanner.pos,
                {
                    let d = match scanner.peek() {
                        Some(c) => c,
                        None => break,
                    };
                    if !('0' <= d && d <= '9') {
                        break;
                    }
                    let ghost before = src.subrange(start as int, scanner.pos as int);
                    let ghost after = src.subrange(start as int, scanner.pos + 1);
                    assert(after.drop_last() =~= before);
                    if !too_big {
                        let next: i64 = acc as i64 * 10 + (d as u32 - '0' as u32) as i64;
                        if next > i32::MAX as i64 {
                            too_big = true;
                        } else {
                            acc = next as i32;
                        }
                    } else {
                        assert(digits_value(after) >= digits_value(before)) by (nonlinear_arith)
                            requires
                                digits_value(after) == digits_value(after.drop_last()) * 10
                                    + digit_value(after.last()),
                                after.drop_last() == before,
                        ;
                    }
                    scanner.next();
                }
                proof {
                    lemma_digit_run_end_bounds(src, scanner.pos as int);
                }
                if too_big {
                    return Err(LexerError::NumberFormatError);
                }
                proof {
                    lemma_prepend_push(tokens@, Token::Number(acc), lex_from(src, scanner.pos as int));
                }
                tokens.push(Token::Number(acc));
            } else if ch == '(' || ch == ')' {
                let br = if ch == '(' {
                    BracketType::Left
                } else {
                    BracketType::Right
                };
                proof {
                    lemma_prepend_push(tokens@, Token::Bracket(br), lex_from(src, start + 1));
                }
                tokens.push(Token::Bracket(br));
                scanner.next();
            } else if ch == ' ' {
                scanner.next();
            } else {
                return Err(LexerError::UnknownChar);
            }
        }
        assert(lex_from(src, scanner.pos as int) == Ok::<Seq<Token>, LexerError>(Seq::empty()));
        assert(tokens@ + Seq::<Token>::empty() =~= tokens@);
        Ok(Lexer { tokens, pos: 0 })
    }

    /// The token under the cursor, if any; the cursor moves on by one either way.
    pub fn next(&mut self) -> (r: Option<&Token>)
        requires
            old(self).well_formed(),
            old(self).pos() < usize::MAX,
        ensures
            final(self).well_formed(),
            final(self).tokens() == old(self).tokens(),
            match r {
                Some(t) => old(self).current() == Some(*t),
                None => old(self).current() is None,
            },
            final(self).pos() == old(self).pos() + 1,
    {
        self.pos += 1;
        if self.pos - 1 < self.tokens.len() {
            Some(&self.tokens[self.pos - 1])
        } else {
            None
        }
    }

    /// The token under the cursor, without moving.
    pub fn peek(&self) -> (r: Option<&Token>)
        ensures
            match r {
                Some(t) => self.current() == Some(*t),
                None => self.current() is None,
            },
    {
        if self.pos < self.tokens.len() {
            Some(&self.tokens[self.pos])
        } else {
            None
        }
    }
}

} // verus!

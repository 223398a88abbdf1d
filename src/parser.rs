//! Recursive-descent parser for the grammar
//!
//! ```plaintext
//! E  -> T E'
//! E' -> + T E' | - T E' | ε
//! T  -> V T'
//! T' -> * V T' | / V T' | ε
//! V  -> - F | F
//! F  -> Number | ( E )
//! ```
use vstd::prelude::*;
use crate::lexer::{BracketType, Lexer, OperatorType, Token};

verus! {

/// Why a token sequence is not an expression.
#[derive(Debug, PartialEq, Eq, Structural)]
pub enum ParseError {
    /// A group opened by `(` is not closed by `)`.
    MissingBracket,
    /// No production applies at the current token.
    Unmatch,
}

/// Syntax tree of an expression; every child is owned by its parent.
#[derive(Debug, PartialEq)]
pub enum Node {
    Number(i32),
    UnaryExpr { op: OperatorType, child: Box<Node> },
    BinaryExpr { op: OperatorType, lhs: Box<Node>, rhs: Box<Node> },
}

/// A parsed node and the position of the first token after it.
pub type Parsed = Result<(Node, int), ParseError>;

pub open spec fn token_at(toks: Seq<Token>, i: int) -> Option<Token> {
    if 0 <= i < toks.len() {
        Some(toks[i])
    } else {
        None
    }
}

pub open spec fn negate_if(neg: bool, n: Node) -> Node {
    if neg {
        Node::UnaryExpr { op: OperatorType::Sub, child: Box::new(n) }
    } else {
        n
    }
}

/// `E -> T E'`. A sub-parse that succeeds always moves forward; the position
/// check only keeps the definition well founded.
pub open spec fn parse_expr(toks: Seq<Token>, i: int) -> Parsed
    decreases toks.len() - i, 3int,
{
    match parse_term(toks, i) {
        Ok((t, j)) => if i < j <= toks.len() {
            parse_expr_rest(toks, t, j)
        } else {
            Err(ParseError::Unmatch)
        },
        Err(e) => Err(e),
    }
}

/// `E' -> + T E' | - T E' | ε`, folding each operand into `lhs` from the left.
pub open spec fn parse_expr_rest(toks: Seq<Token>, lhs: Node, i: int) -> Parsed
    decreases toks.len() - i, 0int,
{
    match token_at(toks, i) {
        Some(Token::Operator(op)) => if op == OperatorType::Plus || op == OperatorType::Sub {
            match parse_term(toks, i + 1) {
                Ok((t, j)) => if i < j <= toks.len() {
                    parse_expr_rest(
                        toks,
                        Node::BinaryExpr { op, lhs: Box::new(lhs), rhs: Box::new(t) },
                        j,
                    )
                } else {
                    Err(ParseError::Unmatch)
                },
                Err(e) => Err(e),
            }
        } else {
            Err(ParseError::Unmatch)
        },
        Some(Token::Bracket(BracketType::Right)) => Ok((lhs, i)),
        None => Ok((lhs, i)),
        _ => Err(ParseError::Unmatch),
    }
}

/// `T -> V T'`.
pub open spec fn parse_term(toks: Seq<Token>, i: int) -> Parsed
    decreases toks.len() - i, 2int,
{
    match parse_unary(toks, i) {
        Ok((v, j)) => if i < j <= toks.len() {
            parse_term_rest(toks, v, j)
        } else {
            Err(ParseError::Unmatch)
        },
        Err(e) => Err(e),
    }
}

/// `T' -> * V T' | / V T' | ε`, folding each operand into `lhs` from the left.
pub open spec fn parse_term_rest(toks: Seq<Token>, lhs: Node, i: int) -> Parsed
    decreases toks.len() - i, 0int,
{
    match token_at(toks, i) {
        Some(Token::Operator(op)) => if op == OperatorType::Mul || op == OperatorType::Div {
            match parse_unary(toks, i + 1) {
                Ok((v, j)) => if i < j <= toks.len() {
                    parse_term_rest(
                        toks,
                        Node::BinaryExpr { op, lhs: Box::new(lhs), rhs: Box::new(v) },
                        j,
                    )
                } else {
                    Err(ParseError::Unmatch)
                },
                Err(e) => Err(e),
            }
        } else {
            Ok((lhs, i))
        },
        Some(Token::Bracket(BracketType::Right)) => Ok((lhs, i)),
        None => Ok((lhs, i)),
        _ => Err(ParseError::Unmatch),
    }
}

/// `V -> - F | F`: at most one leading minus, which negates a number or a
/// whole group.
pub open spec fn parse_unary(toks: Seq<Token>, i: int) -> Parsed
    decreases toks.len() - i, 1int,
{
    if token_at(toks, i) == Some(Token::Operator(OperatorType::Sub)) {
        parse_factor(toks, i + 1, true)
    } else {
        parse_factor(toks, i, false)
    }
}

/// `F -> Number | ( E )`, negated when `neg` holds. An error inside a group
/// takes precedence over a missing `)`.
pub open spec fn parse_factor(toks: Seq<Token>, i: int, neg: bool) -> Parsed
    decreases toks.len() - i, 0int,
{
    match token_at(toks, i) {
        Some(Token::Number(n)) => Ok((negate_if(neg, Node::Number(n)), i + 1)),
        Some(Token::Bracket(BracketType::Left)) => match parse_expr(toks, i + 1) {
            Ok((e, j)) => if token_at(toks, j) == Some(Token::Bracket(BracketType::Right)) {
                Ok((negate_if(neg, e), j + 1))
            } else {
                Err(ParseError::MissingBracket)
            },
            Err(err) => Err(err),
        },
        _ => Err(ParseError::Unmatch),
    }
}

/// The syntax tree of a whole token sequence.
pub open spec fn parse_tokens(toks: Seq<Token>) -> Result<Node, ParseError> {
    match parse_expr(toks, 0) {
        Ok((n, _)) => Ok(n),
        Err(e) => Err(e),
    }
}

proof fn lemma_expr_rest_forward(toks: Seq<Token>, lhs: Node, i: int)
    requires
        0 <= i <= toks.len(),
    ensures
        parse_expr_rest(toks, lhs, i) matches Ok((_, j)) ==> i <= j <= toks.len(),
    decreases toks.len() - i,
{
    if let Some(Token::Operator(op)) = token_at(toks, i) {
        if let Ok((t, j)) = parse_term(toks, i + 1) {
            if i < j <= toks.len() {
                lemma_expr_rest_forward(
                    toks,
                    Node::BinaryExpr { op, lhs: Box::new(lhs), rhs: Box::new(t) },
                    j,
                );
            }
        }
    }
}

proof fn lemma_term_rest_forward(toks: Seq<Token>, lhs: Node, i: int)
    requires
        0 <= i <= toks.len(),
    ensures
        parse_term_rest(toks, lhs, i) matches Ok((_, j)) ==> i <= j <= toks.len(),
    decreases toks.len() - i,
{
    if let Some(Token::Operator(op)) = token_at(toks, i) {
        if let Ok((v, j)) = parse_unary(toks, i + 1) {
            if i < j <= toks.len() {
                lemma_term_rest_forward(
                    toks,
                    Node::BinaryExpr { op, lhs: Box::new(lhs), rhs: Box::new(v) },
                    j,
                );
            }
        }
    }
}

proof fn lemma_factor_forward(toks: Seq<Token>, i: int, neg: bool)
    requires
        0 <= i <= toks.len(),
    ensures
        parse_factor(toks, i, neg) matches Ok((_, j)) ==> i < j <= toks.len(),
{
    if i < toks.len() {
        if let Ok((t, j)) = parse_term(toks, i + 1) {
            if i + 1 < j <= toks.len() {
                lemma_expr_rest_forward(toks, t, j);
            }
        }
    }
}

/// A successful parse of `E`, `T`, `V` or `F` consumes at least one token,
/// and one of `E'` or `T'` none or more; none reads past the end. So the
/// position checks in the definitions above always hold.
pub proof fn lemma_parse_moves_forward(toks: Seq<Token>, i: int, lhs: Node, neg: bool)
    requires
        0 <= i <= toks.len(),
    ensures
        parse_expr(toks, i) matches Ok((_, j)) ==> i < j <= toks.len(),
        parse_term(toks, i) matches Ok((_, j)) ==> i < j <= toks.len(),
        parse_unary(toks, i) matches Ok((_, j)) ==> i < j <= toks.len(),
        parse_factor(toks, i, neg) matches Ok((_, j)) ==> i < j <= toks.len(),
        parse_expr_rest(toks, lhs, i) matches Ok((_, j)) ==> i <= j <= toks.len(),
        parse_term_rest(toks, lhs, i) matches Ok((_, j)) ==> i <= j <= toks.len(),
{
    lemma_expr_rest_forward(toks, lhs, i);
    lemma_term_rest_forward(toks, lhs, i);
    lemma_factor_forward(toks, i, neg);
    lemma_factor_forward(toks, i, false);
    if i < toks.len() {
        lemma_factor_forward(toks, i + 1, true);
    }
    if let Ok((t, j)) = parse_term(toks, i) {
        if i < j <= toks.len() {
            lemma_expr_rest_forward(toks, t, j);
        }
    }
    if let Ok((v, j)) = parse_unary(toks, i) {
        if i < j <= toks.len() {
            lemma_term_rest_forward(toks, v, j);
        }
    }
}

/// Whether an executable parse result, with the cursor left at `pos`, is
/// the one that `expected` describes.
pub open spec fn agrees(r: Result<Node, ParseError>, pos: int, expected: Parsed) -> bool {
    match expected {
        Ok((n, j)) => r == Ok::<Node, ParseError>(n) && pos == j,
        Err(e) => r == Err::<Node, ParseError>(e),
    }
}

/// A recursive-descent parser over the tokens of a `Lexer`.
pub struct Parser {
    lexer: Lexer,
}

impl Parser {
    /// The token stream being read.
    pub closed spec fn lexer(&self) -> Lexer {
        self.lexer
    }

    pub open spec fn tokens(&self) -> Seq<Token> {
        self.lexer().tokens()
    }

    pub open spec fn pos(&self) -> int {
        self.lexer().pos()
    }

    pub fn new(lexer: Lexer) -> (r: Parser)
        ensures
            r.lexer() == lexer,
    {
        Parser { lexer }
    }

    /// Parses one expression from the cursor on.
    pub fn parse(&mut self) -> (r: Result<Node, ParseError>)
        requires
            old(self).lexer().well_formed(),
        ensures
            final(self).lexer().well_formed(),
            final(self).tokens() == old(self).tokens(),
            agrees(r, final(self).pos(), parse_expr(old(self).tokens(), old(self).pos())),
    {
        self.e()
    }

    // E -> T E'
    fn e(&mut self) -> (r: Result<Node, ParseError>)
        requires
            old(self).lexer().well_formed(),
        ensures
            final(self).lexer().well_formed(),
            final(self).tokens() == old(self).tokens(),
            agrees(r, final(self).pos(), parse_expr(old(self).tokens(), old(self).pos())),
            r is Ok ==> old(self).pos() < final(self).pos() <= final(self).tokens().len(),
        decreases old(self).tokens().len() - old(self).pos(), 3int,
    {
        let t = match self.t() {
            Ok(t) => t,
            Err(e) => return Err(e),
        };
        self.equote(t)
    }

    // E' -> +TE' | -TE' | ε
    fn equote(&mut self, val: Node) -> (r: Result<Node, ParseError>)
        requires
            old(self).lexer().well_formed(),
            old(self).pos() <= old(self).tokens().len(),
        ensures
            final(self).lexer().well_formed(),
            final(self).tokens() == old(self).tokens(),
            agrees(r, final(self).pos(), parse_expr_rest(old(self).tokens(), val, old(self).pos())),
            match old(self).lexer().current() {
                Some(Token::Number(_)) | Some(Token::Bracket(BracketType::Left)) | Some(
                    Token::Operator(OperatorType::Mul),
                ) | Some(Token::Operator(OperatorType::Div)) => final(self).pos() == old(self).pos(),
                _ => true,
            },
            r is Ok ==> old(self).pos() <= final(self).pos() <= final(self).tokens().len(),
        decreases old(self).tokens().len() - old(self).pos(), 0int,
    {
        match self.lexer.peek() {
            Some(Token::Operator(op)) => {
                let op = *op;
                if op == OperatorType::Plus || op == OperatorType::Sub {
                    self.lexer.next();
                    let t = match self.t() {
                        Ok(t) => t,
                        Err(e) => return Err(e),
                    };
                    self.equote(Node::BinaryExpr { op, lhs: Box::new(val), rhs: Box::new(t) })
                } else {
                    Err(ParseError::Unmatch)
                }
            },
            Some(Token::Bracket(BracketType::Right)) | None => Ok(val),
            _ => Err(ParseError::Unmatch),
        }
    }

    // T -> VT'
    fn t(&mut self) -> (r: Result<Node, ParseError>)
        requires
            old(self).lexer().well_formed(),
        ensures
            final(self).lexer().well_formed(),
            final(self).tokens() == old(self).tokens(),
            agrees(r, final(self).pos(), parse_term(old(self).tokens(), old(self).pos())),
            r is Ok ==> old(self).pos() < final(self).pos() <= final(self).tokens().len(),
        decreases old(self).tokens().len() - old(self).pos(), 2int,
    {
        let v = match self.v() {
            Ok(v) => v,
            Err(e) => return Err(e),
        };
        self.tquote(v)
    }

    // T' -> *VT' | /VT' | ε
    fn tquote(&mut self, val: Node) -> (r: Result<Node, ParseError>)
        requires
            old(self).lexer().well_formed(),
            old(self).pos() <= old(self).tokens().len(),
        ensures
            final(self).lexer().well_formed(),
            final(self).tokens() == old(self).tokens(),
            agrees(r, final(self).pos(), parse_term_rest(old(self).tokens(), val, old(self).pos())),
            match old(self).lexer().current() {
                Some(Token::Number(_)) | Some(Token::Bracket(BracketType::Left)) => final(self).pos()
                    == old(self).pos(),
                _ => true,
            },
            r is Ok ==> old(self).pos() <= final(self).pos() <= final(self).tokens().len(),
        decreases old(self).tokens().len() - old(self).pos(), 0int,
    {
        match self.lexer.peek() {
            Some(Token::Operator(op)) => {
                let op = *op;
                if op == OperatorType::Mul || op == OperatorType::Div {
                    self.lexer.next();
                    let v = match self.v() {
                        Ok(v) => v,
                        Err(e) => return Err(e),
                    };
                    self.tquote(Node::BinaryExpr { op, lhs: Box::new(val), rhs: Box::new(v) })
                } else {
                    Ok(val)
                }
            },
            Some(Token::Bracket(BracketType::Right)) | None => Ok(val),
            _ => Err(ParseError::Unmatch),
        }
    }

    // V -> -F | F
    fn v(&mut self) -> (r: Result<Node, ParseError>)
        requires
            old(self).lexer().well_formed(),
        ensures
            final(self).lexer().well_formed(),
            final(self).tokens() == old(self).tokens(),
            agrees(r, final(self).pos(), parse_unary(old(self).tokens(), old(self).pos())),
            r is Ok ==> old(self).pos() < final(self).pos() <= final(self).tokens().len(),
        decreases old(self).tokens().len() - old(self).pos(), 1int,
    {
        match self.lexer.peek() {
            Some(Token::Operator(OperatorType::Sub)) => {
                self.lexer.next();
                self.f(Some(OperatorType::Sub))
            },
            _ => self.f(None),
        }
    }

    // F -> i | (E)
    fn f(&mut self, val: Option<OperatorType>) -> (r: Result<Node, ParseError>)
        requires
            old(self).lexer().well_formed(),
        ensures
            final(self).lexer().well_formed(),
            final(self).tokens() == old(self).tokens(),
            agrees(
                r,
                final(self).pos(),
                parse_factor(old(self).tokens(), old(self).pos(), val == Some(OperatorType::Sub)),
            ),
            match old(self).lexer().current() {
                Some(Token::Number(_)) | Some(Token::Bracket(BracketType::Left)) => true,
                _ => final(self).pos() == old(self).pos(),
            },
            r is Ok ==> old(self).pos() < final(self).pos() <= final(self).tokens().len(),
        decreases old(self).tokens().len() - old(self).pos(), 0int,
    {
        let neg = match val {
            Some(OperatorType::Sub) => true,
            _ => false,
        };
        match self.lexer.peek() {
            Some(Token::Number(n)) => {
                let n = *n;
                self.lexer.next();
                let node = Node::Number(n);
                if neg {
                    Ok(Node::UnaryExpr { op: OperatorType::Sub, child: Box::new(node) })
                } else {
                    Ok(node)
                }
            },
            Some(Token::Bracket(BracketType::Left)) => {
                self.lexer.next();
                let e = match self.e() {
                    Ok(e) => e,
                    Err(err) => return Err(err),
                };
                match self.lexer.peek() {
                    Some(Token::Bracket(BracketType::Right)) => {
                        self.lexer.next();
                        if neg {
                            Ok(Node::UnaryExpr { op: OperatorType::Sub, child: Box::new(e) })
                        } else {
                            Ok(e)
                        }
                    },
                    _ => Err(ParseError::MissingBracket),
                }
            },
            _ => Err(ParseError::Unmatch),
        }
    }
}

} // verus!

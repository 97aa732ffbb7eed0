//! Recursive-descent parsing of a token sequence into an expression tree,
//! with two precedence tiers and grouping.
//!
//! The grammar, with addition and subtraction binding loosest:
//!
//! ```text
//! expr   := factor ( (Plus | Minus) factor )*
//! factor := term   ( (Star | Slash) term )*
//! term   := Number | LParen expr RParen
//! ```
//!
//! `spec_expr`, `spec_factor` and `spec_term` are the mathematical model,
//! one spec function per production; each says which tree and which
//! next-cursor position (or which error) parsing from a position yields.
//! Same-tier operators combine left-associatively. The `Parser` methods
//! are the executable parser, proved to agree with the model.

use vstd::prelude::*;

use crate::ast::BinOp;
use crate::ast::Expr;
use crate::ast::SpecExpr;
use crate::ast::expr_wf;
use crate::lexer::SpecToken;
use crate::lexer::Token;
use crate::lexer::number_token_wf;
use crate::lexer::spec_tokenize;
use crate::lexer::lemma_tokenize_numbers_wf;
use crate::lexer::token_views;

verus! {

/// A parse error, each terminal: an operator without its required operand,
/// an opening bracket whose expression is not followed by a closing
/// bracket, or an input in which no term can be parsed at all.
#[derive(Clone, Copy, Debug, PartialEq, Eq, Structural)]
pub enum ParseError {
    MissingOperand,
    UnmatchedBrace,
    EmptyExpression,
}

/// What parsing one `term` at `pos` yields: a `Number` token becomes a
/// leaf; an `LParen` wraps a full expression, which must be followed by an
/// `RParen`, else the parse fails with `UnmatchedBrace`; any other token
/// yields no term (`None`), which the caller turns into its own error.
pub open spec fn spec_term(ts: Seq<SpecToken>, pos: int) -> Result<
    Option<(SpecExpr, int)>,
    ParseError,
>
    decreases ts.len() - pos, 0int
        when 0 <= pos <= ts.len()
{
    if pos >= ts.len() {
        Ok(None)
    } else {
        match ts[pos] {
            SpecToken::Number(text) => Ok(Some((SpecExpr::Leaf(text), pos + 1))),
            SpecToken::LParen => match spec_expr(ts, pos + 1) {
                Err(e) => Err(e),
                Ok((e, p)) => if p < ts.len() && ts[p] is RParen {
                    Ok(Some((e, p + 1)))
                } else {
                    Err(ParseError::UnmatchedBrace)
                },
            },
            _ => Ok(None),
        }
    }
}

/// The Star/Slash continuation of a `factor`: with `acc` parsed so far,
/// each further `(Star | Slash) term` combines left-associatively; a
/// missing right operand fails with `MissingOperand`.
///
/// The position bounds in the `Ok(Some(...))` arm always hold of what
/// `spec_term` returns; they stand here so that the recursion visibly
/// moves right.
pub open spec fn spec_factor_rest(ts: Seq<SpecToken>, pos: int, acc: SpecExpr) -> Result<
    (SpecExpr, int),
    ParseError,
>
    decreases ts.len() - pos, 1int
        when 0 <= pos <= ts.len()
{
    if pos < ts.len() && (ts[pos] is Star || ts[pos] is Slash) {
        let op = if ts[pos] is Star {
            BinOp::Multiply
        } else {
            BinOp::Divide
        };
        match spec_term(ts, pos + 1) {
            Err(e) => Err(e),
            Ok(None) => Err(ParseError::MissingOperand),
            Ok(Some((r, p2))) => if pos + 1 <= p2 <= ts.len() {
                spec_factor_rest(
                    ts,
                    p2,
                    SpecExpr::BinaryOp { op, left: Box::new(acc), right: Box::new(r) },
                )
            } else {
                Err(ParseError::MissingOperand)
            },
        }
    } else {
        Ok((acc, pos))
    }
}

/// A factor's continuation outcome, seen as a factor outcome: a parsed
/// pair becomes `Ok(Some(...))`, an error stays itself.
pub open spec fn factor_outcome(r: Result<(SpecExpr, int), ParseError>) -> Result<
    Option<(SpecExpr, int)>,
    ParseError,
> {
    match r {
        Ok((e, p)) => Ok(Some((e, p))),
        Err(e) => Err(e),
    }
}

/// What parsing one `factor` at `pos` yields: a `term`, then its
/// Star/Slash continuation. No term here yields `None`.
///
/// The position bounds, here as in `spec_expr`, always hold of what the
/// inner production returns (`lemma_parse_wf` proves it); they stand in
/// the definition so that the recursion visibly moves right.
pub open spec fn spec_factor(ts: Seq<SpecToken>, pos: int) -> Result<
    Option<(SpecExpr, int)>,
    ParseError,
>
    decreases ts.len() - pos, 2int
        when 0 <= pos <= ts.len()
{
    match spec_term(ts, pos) {
        Err(e) => Err(e),
        Ok(None) => Ok(None),
        Ok(Some((e, p))) => if pos <= p <= ts.len() {
            match spec_factor_rest(ts, p, e) {
                Err(e2) => Err(e2),
                Ok((e2, p2)) => Ok(Some((e2, p2))),
            }
        } else {
            Ok(None)
        },
    }
}

/// The Plus/Minus continuation of an expression, combining
/// left-associatively, as `spec_factor_rest` does at its tier.
pub open spec fn spec_expr_rest(ts: Seq<SpecToken>, pos: int, acc: SpecExpr) -> Result<
    (SpecExpr, int),
    ParseError,
>
    decreases ts.len() - pos, 3int
        when 0 <= pos <= ts.len()
{
    if pos < ts.len() && (ts[pos] is Plus || ts[pos] is Minus) {
        let op = if ts[pos] is Plus {
            BinOp::Add
        } else {
            BinOp::Subtract
        };
        match spec_factor(ts, pos + 1) {
            Err(e) => Err(e),
            Ok(None) => Err(ParseError::MissingOperand),
            Ok(Some((r, p2))) => if pos + 1 <= p2 <= ts.len() {
                spec_expr_rest(
                    ts,
                    p2,
                    SpecExpr::BinaryOp { op, left: Box::new(acc), right: Box::new(r) },
                )
            } else {
                Err(ParseError::MissingOperand)
            },
        }
    } else {
        Ok((acc, pos))
    }
}

/// What parsing a full expression at `pos` yields: a `factor`, then its
/// Plus/Minus continuation. No factor at all is an `EmptyExpression`
/// where the input is exhausted — nothing stands there but `EndOfInput` —
/// and a `MissingOperand` where a token that cannot begin a term does, as
/// for a leading operator: the expression is structurally incomplete.
pub open spec fn spec_expr(ts: Seq<SpecToken>, pos: int) -> Result<(SpecExpr, int), ParseError>
    decreases ts.len() - pos, 4int
        when 0 <= pos <= ts.len()
{
    match spec_factor(ts, pos) {
        Err(e) => Err(e),
        Ok(None) => if pos >= ts.len() || ts[pos] is EndOfInput {
            Err(ParseError::EmptyExpression)
        } else {
            Err(ParseError::MissingOperand)
        },
        Ok(Some((e, p))) => if pos <= p <= ts.len() {
            spec_expr_rest(ts, p, e)
        } else {
            Err(ParseError::EmptyExpression)
        },
    }
}

/// Every `Number` token of the sequence is well-formed.
pub open spec fn tokens_numbers_wf(ts: Seq<SpecToken>) -> bool {
    forall|i: int| 0 <= i < ts.len() ==> number_token_wf(#[trigger] ts[i])
}

proof fn lemma_factor_rest_wf(ts: Seq<SpecToken>, pos: int, acc: SpecExpr)
    requires
        0 <= pos <= ts.len(),
        tokens_numbers_wf(ts),
        expr_wf(acc),
    ensures
        (spec_factor_rest(ts, pos, acc) matches Ok((e, p)) ==> (expr_wf(e) && pos <= p
            <= ts.len())),
    decreases ts.len() - pos,
{
    if pos < ts.len() && (ts[pos] is Star || ts[pos] is Slash) {
        lemma_parse_wf(ts, pos + 1);
        let op = if ts[pos] is Star {
            BinOp::Multiply
        } else {
            BinOp::Divide
        };
        match spec_term(ts, pos + 1) {
            Ok(Some((r, p2))) => {
                lemma_factor_rest_wf(
                    ts,
                    p2,
                    SpecExpr::BinaryOp { op, left: Box::new(acc), right: Box::new(r) },
                );
            },
            _ => {},
        }
    }
}

proof fn lemma_expr_rest_wf(ts: Seq<SpecToken>, pos: int, acc: SpecExpr)
    requires
        0 <= pos <= ts.len(),
        tokens_numbers_wf(ts),
        expr_wf(acc),
    ensures
        (spec_expr_rest(ts, pos, acc) matches Ok((e, p)) ==> (expr_wf(e) && pos <= p <= ts.len())),
    decreases ts.len() - pos,
{
    if pos < ts.len() && (ts[pos] is Plus || ts[pos] is Minus) {
        lemma_parse_wf(ts, pos + 1);
        let op = if ts[pos] is Plus {
            BinOp::Add
        } else {
            BinOp::Subtract
        };
        match spec_factor(ts, pos + 1) {
            Ok(Some((r, p2))) => {
                lemma_expr_rest_wf(
                    ts,
                    p2,
                    SpecExpr::BinaryOp { op, left: Box::new(acc), right: Box::new(r) },
                );
            },
            _ => {},
        }
    }
}

/// Law: parsing consumes at least one token, never reads past the end,
/// and, on a token sequence whose number tokens are well-formed, builds a
/// tree whose every leaf is well-formed — the parser only rearranges
/// tokens, it never invents a literal.
pub proof fn lemma_parse_wf(ts: Seq<SpecToken>, pos: int)
    requires
        0 <= pos <= ts.len(),
        tokens_numbers_wf(ts),
    ensures
        (spec_term(ts, pos) matches Ok(Some((e, p))) ==> (expr_wf(e) && pos < p <= ts.len())),
        (spec_factor(ts, pos) matches Ok(Some((e, p))) ==> (expr_wf(e) && pos < p <= ts.len())),
        (spec_expr(ts, pos) matches Ok((e, p)) ==> (expr_wf(e) && pos < p <= ts.len())),
    decreases ts.len() - pos,
{
    if pos < ts.len() {
        match ts[pos] {
            SpecToken::Number(text) => {
                assert(number_token_wf(ts[pos]));
            },
            SpecToken::LParen => {
                lemma_parse_wf(ts, pos + 1);
            },
            _ => {},
        }
    }
    match spec_term(ts, pos) {
        Ok(Some((e, p))) => {
            lemma_factor_rest_wf(ts, p, e);
        },
        _ => {},
    }
    match spec_factor(ts, pos) {
        Ok(Some((e, p))) => {
            lemma_expr_rest_wf(ts, p, e);
        },
        _ => {},
    }
}

/// Law: whenever tokenization accepts an input and parsing accepts the
/// tokens, every leaf of the resulting tree is well-formed, so each one
/// reads as a floating-point number.
pub proof fn lemma_pipeline_wf(input: Seq<char>)
    ensures
        (spec_tokenize(input, 0) matches Ok(ts) ==> (spec_expr(ts, 0) matches Ok(ep) ==> expr_wf(
            ep.0,
        ))),
{
    lemma_tokenize_numbers_wf(input, 0);
    match spec_tokenize(input, 0) {
        Ok(ts) => {
            lemma_parse_wf(ts, 0);
        },
        Err(_) => {},
    }
}

/// A cursor over one token sequence, consumed strictly left to right with
/// one token of lookahead.
pub struct Parser {
    pub tokens: Vec<Token>,
    pub position: usize,
}

impl Parser {
    /// The cursor never stands past the end of the tokens.
    pub open spec fn wf(&self) -> bool {
        self.position <= self.tokens@.len()
    }

    pub fn new(tokens: Vec<Token>) -> (p: Parser)
        ensures
            p.tokens@ == tokens@,
            p.position == 0,
            p.wf(),
    {
        Parser { tokens, position: 0 }
    }

    pub fn current_token(&self) -> (r: Option<&Token>)
        ensures
            self.position < self.tokens@.len() ==> (r matches Some(t) && *t
                == self.tokens@[self.position as int]),
            self.position >= self.tokens@.len() ==> r is None,
    {
        if self.position < self.tokens.len() {
            Some(&self.tokens[self.position])
        } else {
            None
        }
    }

    pub fn next(&mut self)
        requires
            old(self).position < old(self).tokens@.len(),
        ensures
            final(self).tokens == old(self).tokens,
            final(self).position == old(self).position + 1,
    {
        proof {
            assert(self.tokens.len() == self.tokens@.len());
        }
        self.position = self.position + 1;
    }

    /// Parses one term, as `spec_term` says: a number becomes a leaf; a
    /// bracketed expression must close with `RParen` or the parse fails
    /// with `UnmatchedBrace`; any other token yields no term.
    pub fn term(&mut self) -> (r: Result<Option<Expr>, ParseError>)
        requires
            old(self).wf(),
        ensures
            final(self).wf(),
            final(self).tokens@ == old(self).tokens@,
            ({
                let s = spec_term(token_views(old(self).tokens@), old(self).position as int);
                &&& (s matches Err(e) ==> (r matches Err(e2) && e2 == e))
                &&& (s matches Ok(None) ==> (r matches Ok(None) && final(self).position == old(self).position))
                &&& (s matches Ok(Some((e, p))) ==> (r matches Ok(Some(ex)) && ex@ == e
                    && final(self).position == p && old(self).position < p))
            }),
        decreases old(self).tokens@.len() - old(self).position, 0int,
    {
        let ghost vts = token_views(self.tokens@);
        let ghost pos0 = self.position as int;
        if self.position >= self.tokens.len() {
            return Ok(None);
        }
        match &self.tokens[self.position] {
            Token::Number(lit) => {
                let e = Expr::Leaf(lit.clone());
                proof {
                    assert(vts[pos0] == SpecToken::Number(lit@));
                }
                self.next();
                Ok(Some(e))
            },
            Token::LParen => {
                proof {
                    assert(vts[pos0] is LParen);
                }
                self.next();
                let e = match self.parse_expr() {
                    Ok(e) => e,
                    Err(err) => {
                        return Err(err);
                    },
                };
                match self.current_token() {
                    Some(Token::RParen) => {
                        self.next();
                        Ok(Some(e))
                    },
                    _ => Err(ParseError::UnmatchedBrace),
                }
            },
            _ => Ok(None),
        }
    }

    /// Parses one factor, as `spec_factor` says: a term, then every
    /// following `(Star | Slash) term`, combined left-associatively; an
    /// operator without its term fails with `MissingOperand`.
    pub fn factor(&mut self) -> (r: Result<Option<Expr>, ParseError>)
        requires
            old(self).wf(),
        ensures
            final(self).wf(),
            final(self).tokens@ == old(self).tokens@,
            ({
                let s = spec_factor(token_views(old(self).tokens@), old(self).position as int);
                &&& (s matches Err(e) ==> (r matches Err(e2) && e2 == e))
                &&& (s matches Ok(None) ==> (r matches Ok(None) && final(self).position == old(self).position))
                &&& (s matches Ok(Some((e, p))) ==> (r matches Ok(Some(ex)) && ex@ == e
                    && final(self).position == p && old(self).position < p))
            }),
        decreases old(self).tokens@.len() - old(self).position, 1int,
    {
        let ghost vts = token_views(self.tokens@);
        let ghost pos0 = self.position as int;
        let mut acc = match self.term() {
            Err(e) => {
                return Err(e);
            },
            Ok(None) => {
                return Ok(None);
            },
            Ok(Some(e)) => e,
        };
        loop
            invariant
                old(self).wf(),
                vts == token_views(old(self).tokens@),
                pos0 == old(self).position as int,
                self.tokens@ == old(self).tokens@,
                self.wf(),
                pos0 < self.position as int,
                spec_factor(vts, pos0) == factor_outcome(
                    spec_factor_rest(vts, self.position as int, acc@),
                ),
            ensures
                self.tokens@ == old(self).tokens@,
                self.wf(),
                pos0 < self.position as int,
                spec_factor(vts, pos0) == Ok::<Option<(SpecExpr, int)>, ParseError>(
                    Some((acc@, self.position as int)),
                ),
            decreases vts.len() - self.position as int,
        {
            let op = match self.current_token() {
                Some(Token::Star) => BinOp::Multiply,
                Some(Token::Slash) => BinOp::Divide,
                _ => {
                    break;
                },
            };
            self.next();
            let rhs = match self.term() {
                Err(e) => {
                    return Err(e);
                },
                Ok(None) => {
                    return Err(ParseError::MissingOperand);
                },
                Ok(Some(e)) => e,
            };
            acc = Expr::BinaryOp { op, left: Box::new(acc), right: Box::new(rhs) };
        }
        Ok(Some(acc))
    }

    /// Parses one full expression, as `spec_expr` says: a factor, then
    /// every following `(Plus | Minus) factor`, combined
    /// left-associatively; no factor at all fails with `EmptyExpression`,
    /// an operator without its factor with `MissingOperand`.
    pub fn parse_expr(&mut self) -> (r: Result<Expr, ParseError>)
        requires
            old(self).wf(),
        ensures
            final(self).wf(),
            final(self).tokens@ == old(self).tokens@,
            ({
                let s = spec_expr(token_views(old(self).tokens@), old(self).position as int);
                &&& (s matches Err(e) ==> (r matches Err(e2) && e2 == e))
                &&& (s matches Ok((e, p)) ==> (r matches Ok(ex) && ex@ == e
                    && final(self).position == p && old(self).position < p))
            }),
        decreases old(self).tokens@.len() - old(self).position, 2int,
    {
        let ghost vts = token_views(self.tokens@);
        let ghost pos0 = self.position as int;
        let mut acc = match self.factor() {
            Err(e) => {
                return Err(e);
            },
            Ok(None) => {
                return Err(
                    match self.current_token() {
                        None => ParseError::EmptyExpression,
                        Some(Token::EndOfInput) => ParseError::EmptyExpression,
                        Some(_) => ParseError::MissingOperand,
                    },
                );
            },
            Ok(Some(e)) => e,
        };
        loop
            invariant
                old(self).wf(),
                vts == token_views(old(self).tokens@),
                pos0 == old(self).position as int,
                self.tokens@ == old(self).tokens@,
                self.wf(),
                pos0 < self.position as int,
                spec_expr(vts, pos0) == spec_expr_rest(vts, self.position as int, acc@),
            ensures
                self.tokens@ == old(self).tokens@,
                self.wf(),
                pos0 < self.position as int,
                spec_expr(vts, pos0) == Ok::<(SpecExpr, int), ParseError>(
                    (acc@, self.position as int),
                ),
            decreases vts.len() - self.position as int,
        {
            let op = match self.current_token() {
                Some(Token::Plus) => BinOp::Add,
                Some(Token::Minus) => BinOp::Subtract,
                _ => {
                    break;
                },
            };
            self.next();
            let rhs = match self.factor() {
                Err(e) => {
                    return Err(e);
                },
                Ok(None) => {
                    return Err(ParseError::MissingOperand);
                },
                Ok(Some(e)) => e,
            };
            acc = Expr::BinaryOp { op, left: Box::new(acc), right: Box::new(rhs) };
        }
        Ok(acc)
    }
}

/// Parses one token sequence from its start into an expression tree, as
/// `spec_expr` says. Tokens after the parsed expression (the `EndOfInput`
/// at least) are left unconsumed.
pub fn parse(tokens: Vec<Token>) -> (r: Result<Expr, ParseError>)
    ensures
        ({
            let s = spec_expr(token_views(tokens@), 0);
            &&& (s matches Err(e) ==> (r matches Err(e2) && e2 == e))
            &&& (s matches Ok((e, p)) ==> (r matches Ok(ex) && ex@ == e))
        }),
{
    let mut parser = Parser::new(tokens);
    parser.parse_expr()
}

} // verus!

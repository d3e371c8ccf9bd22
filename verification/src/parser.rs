//! The parser: one token of lookahead, no backtracking. The grammar accepts a
//! sequence of statement lines, each `primary operator primary` followed by a
//! line break, where a primary expression is an identifier or a literal.
//!
//! The whole parse is specified by [`parse_from`]; the executable
//! [`Parser::parse`] is proved to return exactly its result.

use vstd::prelude::*;
use crate::error::{Error, ErrorKind, ErrorKindV, ErrorV, Position};
use crate::lexer::{Lexer, Literal, LiteralV, Operator, Token, TokenV};

verus! {

// ---------------------------------------------------------------------------
// Expression trees
// ---------------------------------------------------------------------------

/// A parsed syntactic construct. `Binary` and `Call` are reserved for a
/// future expression grammar and are never produced by the current one.
#[derive(Debug)]
pub enum ExprKind {
    Assignment { operator: Operator, left: Expr, right: Expr },
    Binary { operator: Operator, left: Expr, right: Expr },
    Call { callee: Expr, arguments: Vec<Expr> },
    Identifier(String),
    Literal(Literal),
}

/// An expression node: its kind and the span it covers in the source.
#[derive(Debug)]
pub struct Expr {
    pub kind: Box<ExprKind>,
    pub position: Position,
}

/// Mathematical model of an `ExprKind`.
pub enum ExprKindV {
    Assignment { operator: Operator, left: Box<ExprV>, right: Box<ExprV> },
    Binary { operator: Operator, left: Box<ExprV>, right: Box<ExprV> },
    Call { callee: Box<ExprV>, arguments: Seq<ExprV> },
    Identifier(Seq<char>),
    Literal(LiteralV),
}

/// Mathematical model of an `Expr`.
pub struct ExprV {
    pub kind: ExprKindV,
    pub position: Position,
}

pub open spec fn expr_view(e: Expr) -> ExprV
    decreases e,
{
    ExprV { kind: expr_kind_view(*e.kind), position: e.position }
}

pub open spec fn exprs_view(list: Seq<Expr>) -> Seq<ExprV>
    decreases list,
{
    if list.len() == 0 {
        Seq::empty()
    } else {
        exprs_view(list.drop_last()).push(expr_view(list.last()))
    }
}

pub open spec fn expr_kind_view(k: ExprKind) -> ExprKindV
    decreases k,
{
    match k {
        ExprKind::Assignment { operator, left, right } => ExprKindV::Assignment {
            operator,
            left: Box::new(expr_view(left)),
            right: Box::new(expr_view(right)),
        },
        ExprKind::Binary { operator, left, right } => ExprKindV::Binary {
            operator,
            left: Box::new(expr_view(left)),
            right: Box::new(expr_view(right)),
        },
        ExprKind::Call { callee, arguments } => ExprKindV::Call {
            callee: Box::new(expr_view(callee)),
            arguments: exprs_view(arguments@),
        },
        ExprKind::Identifier(name) => ExprKindV::Identifier(name@),
        ExprKind::Literal(lit) => ExprKindV::Literal(lit@),
    }
}

impl View for Expr {
    type V = ExprV;

    open spec fn view(&self) -> ExprV {
        expr_view(*self)
    }
}

/// A primary expression is an identifier or a literal.
pub open spec fn primary_kind(k: ExprKindV) -> bool {
    k is Identifier || k is Literal
}

/// What the current grammar guarantees of every statement it produces: an
/// assignment by `=` or `::` whose two sides are primary expressions.
pub open spec fn wf_statement(e: ExprV) -> bool {
    match e.kind {
        ExprKindV::Assignment { operator, left, right } => (operator == Operator::Equal
            || operator == Operator::ConstantEqual) && primary_kind((*left).kind) && primary_kind(
            (*right).kind,
        ),
        _ => false,
    }
}

// ---------------------------------------------------------------------------
// The specification parser
// ---------------------------------------------------------------------------

/// What parsing one primary expression from token `t` at position `p` yields.
pub open spec fn primary_of(t: TokenV, p: Position) -> Result<ExprV, ErrorV> {
    match t {
        TokenV::Identifier(name) => Ok(ExprV { kind: ExprKindV::Identifier(name), position: p }),
        TokenV::Literal(lit) => Ok(ExprV { kind: ExprKindV::Literal(lit), position: p }),
        _ => Err(ErrorV { kind: ErrorKindV::ExpectedToken("expression"@), position: p }),
    }
}

/// The assignment node built from an operator and its two sides: its span
/// runs from the left side's start column to the right side's end column, on
/// the left side's line.
pub open spec fn assignment_node(op: Operator, l: ExprV, r: ExprV) -> ExprV {
    ExprV {
        kind: ExprKindV::Assignment { operator: op, left: Box::new(l), right: Box::new(r) },
        position: Position {
            line: l.position.line,
            columns: (l.position.columns.0, r.position.columns.1),
        },
    }
}

/// What parsing one statement starting at token index `k` yields. A statement
/// always spans exactly three tokens: primary, operator, primary.
pub open spec fn statement_spec(toks: Seq<(TokenV, Position)>, k: int) -> Result<ExprV, ErrorV> {
    match primary_of(toks[k].0, toks[k].1) {
        Err(e) => Err(e),
        Ok(lexpr) => {
            match toks[k + 1].0 {
                TokenV::Operator(op) => {
                    if op == Operator::Equal || op == Operator::ConstantEqual {
                        match primary_of(toks[k + 2].0, toks[k + 2].1) {
                            Err(e) => Err(e),
                            Ok(rexpr) => Ok(assignment_node(op, lexpr, rexpr)),
                        }
                    } else {
                        Err(
                            ErrorV {
                                kind: ErrorKindV::ExpectedToken("operator"@),
                                position: toks[k + 1].1,
                            },
                        )
                    }
                },
                _ => Err(
                    ErrorV { kind: ErrorKindV::ExpectedToken("operator"@), position: toks[k + 1].1 },
                ),
            }
        },
    }
}

/// Prepend one statement to a parse outcome: an error passes through
/// unchanged.
pub open spec fn prefix_parse(head: ExprV, rest: Result<Seq<ExprV>, ErrorV>) -> Result<
    Seq<ExprV>,
    ErrorV,
> {
    match rest {
        Ok(stmts) => Ok(seq![head] + stmts),
        Err(e) => Err(e),
    }
}

/// The whole parse from token index `k`: statement lines until `EndOfInput`,
/// each statement followed by a required line break.
pub open spec fn parse_from(toks: Seq<(TokenV, Position)>, k: int) -> Result<Seq<ExprV>, ErrorV>
    decreases toks.len() - k
        when 0 <= k <= toks.len()
{
    if k >= toks.len() {
        Ok(Seq::empty())
    } else if toks[k].0 == TokenV::EndOfInput {
        Ok(Seq::empty())
    } else {
        match statement_spec(toks, k) {
            Err(e) => Err(e),
            Ok(stmt) => {
                if k + 3 < toks.len() && toks[k + 3].0 == TokenV::LineBreak {
                    prefix_parse(stmt, parse_from(toks, k + 4))
                } else {
                    Err(
                        ErrorV {
                            kind: ErrorKindV::ExpectedToken("new line"@),
                            position: toks[k + 3].1,
                        },
                    )
                }
            },
        }
    }
}

/// What parsing a whole token stream yields: the statement sequence or the
/// first syntax error.
pub open spec fn parse_spec(toks: Seq<(TokenV, Position)>) -> Result<Seq<ExprV>, ErrorV> {
    parse_from(toks, 0)
}

/// Every statement the grammar produces is a well-formed assignment.
pub proof fn lemma_parse_from_wf(toks: Seq<(TokenV, Position)>, k: int)
    requires
        0 <= k <= toks.len(),
    ensures
        match parse_from(toks, k) {
            Ok(stmts) => forall|i: int| 0 <= i < stmts.len() ==> wf_statement(#[trigger] stmts[i]),
            Err(_) => true,
        },
    decreases toks.len() - k,
{
    if k < toks.len() && toks[k].0 != TokenV::EndOfInput {
        match statement_spec(toks, k) {
            Err(_) => {},
            Ok(stmt) => {
                if k + 3 < toks.len() && toks[k + 3].0 == TokenV::LineBreak {
                    lemma_parse_from_wf(toks, k + 4);
                    assert(wf_statement(stmt));
                    match parse_from(toks, k + 4) {
                        Ok(stmts) => {
                            let whole = seq![stmt] + stmts;
                            assert(forall|i: int|
                                0 < i < whole.len() ==> whole[i] == stmts[i - 1]);
                        },
                        Err(_) => {},
                    }
                }
            },
        }
    }
}

// ---------------------------------------------------------------------------
// The executable parser
// ---------------------------------------------------------------------------

/// The mathematical model of a statement sequence.
pub open spec fn tree_view(stmts: Seq<Expr>) -> Seq<ExprV> {
    Seq::new(stmts.len(), |i: int| expr_view(stmts[i]))
}

/// The result of one parse: the ordered statement trees, one per source line.
#[derive(Debug)]
pub struct Parser {
    pub tree: Vec<Expr>,
}

impl View for Parser {
    type V = Seq<ExprV>;

    open spec fn view(&self) -> Seq<ExprV> {
        tree_view(self.tree@)
    }
}

/// Append the statements already parsed in front of the outcome of the rest
/// of the parse.
pub open spec fn parse_continuation(done: Seq<ExprV>, rest: Result<Seq<ExprV>, ErrorV>) -> Result<
    Seq<ExprV>,
    ErrorV,
> {
    match rest {
        Ok(stmts) => Ok(done + stmts),
        Err(e) => Err(e),
    }
}

proof fn lemma_parse_continuation_push(done: Seq<ExprV>, head: ExprV, rest: Result<Seq<ExprV>, ErrorV>)
    ensures
        parse_continuation(done, prefix_parse(head, rest)) == parse_continuation(
            done.push(head),
            rest,
        ),
{
    match rest {
        Ok(stmts) => {
            assert(done + (seq![head] + stmts) =~= done.push(head) + stmts);
        },
        Err(_) => {},
    }
}

proof fn lemma_tree_view_push(stmts: Seq<Expr>, e: Expr)
    ensures
        tree_view(stmts.push(e)) == tree_view(stmts).push(expr_view(e)),
{
    assert(tree_view(stmts.push(e)) =~= tree_view(stmts).push(expr_view(e)));
}

fn clone_literal(lit: &Literal) -> (r: Literal)
    ensures
        r@ == lit@,
{
    match lit {
        Literal::True => Literal::True,
        Literal::False => Literal::False,
        Literal::Integer(value) => Literal::Integer(*value),
        Literal::Float(text) => Literal::Float(text.clone()),
        Literal::Str(text) => Literal::Str(text.clone()),
    }
}

/// Parse one primary expression out of a token: an identifier or a literal;
/// every other token is a controlled syntax error.
fn primary(pair: &(Token, Position)) -> (r: Result<Expr, Error>)
    ensures
        match r {
            Ok(e) => primary_of(pair.0@, pair.1) == Ok::<ExprV, ErrorV>(e@),
            Err(err) => primary_of(pair.0@, pair.1) == Err::<ExprV, ErrorV>(err@),
        },
{
    match &pair.0 {
        Token::Identifier(name) => Ok(
            Expr { kind: Box::new(ExprKind::Identifier(name.clone())), position: pair.1 },
        ),
        Token::Literal(lit) => Ok(
            Expr { kind: Box::new(ExprKind::Literal(clone_literal(lit))), position: pair.1 },
        ),
        _ => Err(
            Error::new(ErrorKind::ExpectedToken(String::from_str("expression")), pair.1),
        ),
    }
}

impl Parser {
    /// Parse a scanned token stream into its statement trees, or report the
    /// first syntax error. The result is exactly what [`parse_spec`] says,
    /// and every statement produced is a well-formed assignment.
    pub fn parse(lexer: &Lexer) -> (r: Result<Parser, Error>)
        requires
            lexer@.len() > 0,
            lexer@.last().0 == TokenV::EndOfInput,
            forall|j: int| 0 <= j < lexer@.len() - 1 ==> lexer@[j].0 != TokenV::EndOfInput,
        ensures
            match r {
                Ok(parser) => parse_spec(lexer@) == Ok::<Seq<ExprV>, ErrorV>(parser@) && (forall|
                    i: int,
                |
                    0 <= i < parser@.len() ==> wf_statement(#[trigger] parser@[i])),
                Err(e) => parse_spec(lexer@) == Err::<Seq<ExprV>, ErrorV>(e@),
            },
    {
        let ghost toks = lexer@;
        let n = lexer.tokens.len();
        let mut tree: Vec<Expr> = Vec::new();
        let mut k: usize = 0;
        proof {
            assert(toks.len() == n);
        }
        loop
            invariant
                toks == lexer@,
                n == lexer.tokens@.len(),
                toks.len() == n,
                toks.last().0 == TokenV::EndOfInput,
                forall|j: int| 0 <= j < toks.len() - 1 ==> toks[j].0 != TokenV::EndOfInput,
                k < n,
                parse_spec(toks) == parse_continuation(
                    tree_view(tree@),
                    parse_from(toks, k as int),
                ),
                forall|i: int| 0 <= i < tree@.len() ==> wf_statement(#[trigger] tree_view(tree@)[i]),
            decreases n - k,
        {
            let ghost gk = k as int;
            let ghost pre = tree@;
            let eof = matches!(&lexer.tokens[k].0, Token::EndOfInput);
            if eof {
                proof {
                    assert(toks[gk].0 == TokenV::EndOfInput);
                    assert(tree_view(tree@) + Seq::<ExprV>::empty() =~= tree_view(tree@));
                }
                return Ok(Parser { tree });
            }
            proof {
                assert(toks[gk].0 != TokenV::EndOfInput);
                assert(gk < n - 1);
            }
            let left = match primary(&lexer.tokens[k]) {
                Ok(e) => e,
                Err(err) => {
                    return Err(err);
                },
            };
            let op: Operator = match &lexer.tokens[k + 1].0 {
                Token::Operator(op) => {
                    match op {
                        Operator::Equal => Operator::Equal,
                        Operator::ConstantEqual => Operator::ConstantEqual,
                        Operator::Plus => {
                            return Err(
                                Error::new(
                                    ErrorKind::ExpectedToken(String::from_str("operator")),
                                    lexer.tokens[k + 1].1,
                                ),
                            );
                        },
                    }
                },
                _ => {
                    return Err(
                        Error::new(
                            ErrorKind::ExpectedToken(String::from_str("operator")),
                            lexer.tokens[k + 1].1,
                        ),
                    );
                },
            };
            proof {
                assert(toks[gk + 1].0 != TokenV::EndOfInput);
                assert(gk + 1 < n - 1);
            }
            let right = match primary(&lexer.tokens[k + 2]) {
                Ok(e) => e,
                Err(err) => {
                    return Err(err);
                },
            };
            proof {
                assert(toks[gk + 2].0 != TokenV::EndOfInput);
                assert(gk + 2 < n - 1);
            }
            let posn = Position {
                line: left.position.line,
                columns: (left.position.columns.0, right.position.columns.1),
            };
            let ghost lv = left@;
            let ghost rv = right@;
            let node = Expr {
                kind: Box::new(ExprKind::Assignment { operator: op, left, right }),
                position: posn,
            };
            proof {
                assert(node@ == assignment_node(op, lv, rv));
                assert(statement_spec(toks, gk) == Ok::<ExprV, ErrorV>(node@));
            }
            match &lexer.tokens[k + 3].0 {
                Token::LineBreak => {},
                _ => {
                    return Err(
                        Error::new(
                            ErrorKind::ExpectedToken(String::from_str("new line")),
                            lexer.tokens[k + 3].1,
                        ),
                    );
                },
            }
            proof {
                assert(toks[gk + 3].0 == TokenV::LineBreak);
                assert(gk + 3 < n - 1);
                lemma_parse_continuation_push(
                    tree_view(pre),
                    node@,
                    parse_from(toks, gk + 4),
                );
                lemma_tree_view_push(pre, node);
            }
            tree.push(node);
            k = k + 4;
        }
    }
}


/// Law: a statement whose line is not ended — the three statement tokens
/// followed directly by `EndOfInput` instead of a line break — fails with
/// `ExpectedToken("new line")` at the end-of-input position.
pub proof fn lemma_missing_line_break(toks: Seq<(TokenV, Position)>, k: int)
    requires
        0 <= k,
        k + 3 < toks.len(),
        toks[k].0 is Identifier || toks[k].0 is Literal,
        toks[k + 1].0 == TokenV::Operator(Operator::Equal) || toks[k + 1].0 == TokenV::Operator(
            Operator::ConstantEqual,
        ),
        toks[k + 2].0 is Identifier || toks[k + 2].0 is Literal,
        toks[k + 3].0 == TokenV::EndOfInput,
    ensures
        parse_from(toks, k) == Err::<Seq<ExprV>, ErrorV>(
            ErrorV { kind: ErrorKindV::ExpectedToken("new line"@), position: toks[k + 3].1 },
        ),
{
}

} // verus!

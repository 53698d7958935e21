use vstd::prelude::*;
use crate::expr::{Expr, Binary, Grouping, Literal, Logical, Unary, Variable};
use crate::grammar::{sync_point, starts_primary, starts_expression, block_at, lemma_stmts_index, operand_at, unary_at, primary_at, whole_expr_at, left_operand, right_operand, operator_of, ends_expression, ends_operand, lemma_expr_first, lemma_spine, lemma_spine_follow, lemma_spine_head, lemma_stmt_first, on_spine, spine_head, spine_parent, expr_level, expr_width, kind_at, op_level, parsed_expr_at, program_at, stmt_at, stmt_width, stmts_at, stmts_width};
use crate::stmt::Stmt;
use crate::token::{Token, TokenType};

verus! {

/// What a syntax error found.
#[derive(Clone, Copy, Debug, PartialEq, Eq, Structural)]
pub enum ParseErrorKind {
    /// No expression starts at the token.
    ExpectExpression,
    /// The token is not the one the construct needs next.
    Expected(TokenType),
    /// The left-hand side of `=` is not a variable.
    InvalidAssignmentTarget,
}

/// The syntax error of kind `kind` at the token of `ts` at position `q`.
pub open spec fn syntax_error(ts: Seq<Token>, q: int, kind: ParseErrorKind) -> ParseError {
    ParseError { token: ts[q], position: q as usize, kind }
}

/// The error's token is the token of `ts` at the error's position.
pub open spec fn located(ts: Seq<Token>, e: ParseError) -> bool {
    e.position < ts.len() && e.token == ts[e.position as int]
}

/// The statements `ss` are written from `q` on, and the statement after
/// them fails with `err`.
pub open spec fn fails_from(ts: Seq<Token>, q: int, ss: Seq<Stmt>, err: ParseError) -> bool {
    stmts_at(ss, ss.len() as int, ts, q) && stmt_fails_with(ts, q + stmts_width(ss, ss.len() as int), err)
}

/// Where parsing resumes after a statement fails at position `q`: at the
/// first statement boundary after the offending token, or at `q` itself when
/// that token ends the input.
pub open spec fn resume_point(ts: Seq<Token>, q: int) -> int {
    if ts[q].token_type == TokenType::EOF {
        q
    } else {
        sync_point(ts, q + 1)
    }
}

/// The error an expression statement written from `p` fails with: no
/// expression starts there; or the left-hand side of `=` is no variable; or
/// the expression is not followed by `;`.
pub open spec fn expr_stmt_fails_with(ts: Seq<Token>, p: int, err: ParseError) -> bool {
    ||| !starts_expression(ts[p].token_type) && err == syntax_error(ts, p, ParseErrorKind::ExpectExpression)
    ||| exists|e: Expr, v: Expr|
        #![trigger operand_at(e, ts, p, 1), whole_expr_at(v, ts, p + expr_width(e) + 1)]
        {
            &&& operand_at(e, ts, p, 1)
            &&& !(e is Variable)
            &&& kind_at(ts, p + expr_width(e)) == Some(TokenType::EQUAL)
            &&& whole_expr_at(v, ts, p + expr_width(e) + 1)
            &&& err == syntax_error(ts, p + expr_width(e), ParseErrorKind::InvalidAssignmentTarget)
        }
    ||| exists|e: Expr|
        {
            &&& #[trigger] whole_expr_at(e, ts, p)
            &&& kind_at(ts, p + expr_width(e)) != Some(TokenType::SEMICOLON)
            &&& err == syntax_error(ts, p + expr_width(e), ParseErrorKind::Expected(TokenType::SEMICOLON))
        }
}

/// The error a statement starting at `p` fails with, in these cases: `print`,
/// `if` or `while` not followed by `(`; `var` not followed by a name; an
/// expression statement that fails as `expr_stmt_fails_with` says.
pub open spec fn stmt_fails_with(ts: Seq<Token>, p: int, err: ParseError) -> bool {
    &&& 0 <= p
    &&& p + 1 < ts.len()
    &&& {
        let k = ts[p].token_type;
        if k == TokenType::PRINT || k == TokenType::IF || k == TokenType::WHILE {
            kind_at(ts, p + 1) != Some(TokenType::LEFT_PAREN) && err == syntax_error(
                ts,
                p + 1,
                ParseErrorKind::Expected(TokenType::LEFT_PAREN),
            )
        } else if k == TokenType::VAR {
            kind_at(ts, p + 1) != Some(TokenType::IDENTIFIER) && err == syntax_error(
                ts,
                p + 1,
                ParseErrorKind::Expected(TokenType::IDENTIFIER),
            )
        } else if k == TokenType::LEFT_BRACE || k == TokenType::EOF {
            false
        } else {
            expr_stmt_fails_with(ts, p, err)
        }
    }
}

/// A syntax error: the offending token and what was expected there.
pub struct ParseError {
    pub token: Token,
    /// The position of the token in the parsed sequence.
    pub position: usize,
    pub kind: ParseErrorKind,
}

impl ParseError {
    pub fn new(token: &Token, position: usize, kind: ParseErrorKind) -> (r: ParseError)
        ensures
            r.token == *token,
            r.position == position,
            r.kind == kind,
    {
        ParseError { token: token.duplicate(), position, kind }
    }
}

/// The recursive-descent parser.
pub struct Parser {
    tokens: Vec<Token>,
    current: usize,
    errors: Vec<ParseError>,
}

/// The token sequence ends with the end-of-input token.
pub open spec fn ends_with_eof(ts: Seq<Token>) -> bool {
    ts.len() >= 1 && ts.last().token_type == TokenType::EOF
}

impl Parser {
    pub closed spec fn wf(&self) -> bool {
        &&& ends_with_eof(self.tokens@)
        &&& self.current < self.tokens@.len()
    }

    pub closed spec fn toks(&self) -> Seq<Token> {
        self.tokens@
    }

    pub closed spec fn pos(&self) -> int {
        self.current as int
    }

    /// The syntax errors reported by `parse`, in order.
    pub closed spec fn syntax_errors(&self) -> Seq<ParseError> {
        self.errors@
    }

    /// `new` is `old` moved forward over the same tokens.
    pub open spec fn moved(old: &Parser, new: &Parser) -> bool {
        &&& new.wf()
        &&& new.toks() == old.toks()
        &&& old.pos() <= new.pos()
        &&& new.syntax_errors() == old.syntax_errors()
    }

    /// A parser over `tokens`; an end-of-input token is added when the
    /// sequence does not already end with one.
    pub fn new(tokens: Vec<Token>) -> (r: Parser)
        ensures
            r.wf(),
            r.pos() == 0,
            r.syntax_errors().len() == 0,
            ends_with_eof(tokens@) ==> r.toks() == tokens@,
            !ends_with_eof(tokens@) ==> r.toks().drop_last() == tokens@,
    {
        let ghost given = tokens@;
        let mut tokens = tokens;
        let n = tokens.len();
        if n == 0 || tokens[n - 1].token_type != TokenType::EOF {
            let line = if n == 0 { 1 } else { tokens[n - 1].line };
            tokens.push(Token::new(TokenType::EOF, String::new(), None, line));
            assert(tokens@.drop_last() =~= given);
        }
        Parser { tokens, current: 0, errors: Vec::new() }
    }

    pub fn peek(&self) -> (r: &Token)
        requires
            self.wf(),
        ensures
            *r == self.toks()[self.pos()],
    {
        &self.tokens[self.current]
    }

    pub fn previous(&self) -> (r: &Token)
        requires
            self.wf(),
            self.pos() > 0,
        ensures
            *r == self.toks()[self.pos() - 1],
    {
        &self.tokens[self.current - 1]
    }

    pub fn is_at_end(&self) -> (r: bool)
        requires
            self.wf(),
        ensures
            r == (self.toks()[self.pos()].token_type == TokenType::EOF),
    {
        self.peek().token_type == TokenType::EOF
    }

    /// The current token has kind `k` (never true at the end of input).
    pub fn check(&self, k: TokenType) -> (r: bool)
        requires
            self.wf(),
        ensures
            r == (self.toks()[self.pos()].token_type != TokenType::EOF
                && self.toks()[self.pos()].token_type == k),
    {
        if self.is_at_end() {
            return false;
        }
        self.peek().token_type == k
    }

    /// Moves past the current token, unless it ends the input.
    pub fn advance(&mut self)
        requires
            old(self).wf(),
        ensures
            Parser::moved(old(self), final(self)),
            old(self).toks()[old(self).pos()].token_type != TokenType::EOF ==> final(self).pos()
                == old(self).pos() + 1,
            old(self).toks()[old(self).pos()].token_type == TokenType::EOF ==> final(self).pos()
                == old(self).pos(),
    {
        if !self.is_at_end() {
            let n = self.tokens.len();
            assert(self.current + 1 < n);
            self.current = self.current + 1;
        }
    }

    /// When the current token's kind is one of `types`, moves past it.
    pub fn match_tokens(&mut self, types: &[TokenType]) -> (r: bool)
        requires
            old(self).wf(),
        ensures
            Parser::moved(old(self), final(self)),
            r == (old(self).toks()[old(self).pos()].token_type != TokenType::EOF && types@.contains(
                old(self).toks()[old(self).pos()].token_type,
            )),
            r ==> final(self).pos() == old(self).pos() + 1,
            !r ==> final(self).pos() == old(self).pos(),
    {
        let mut i: usize = 0;
        while i < types.len()
            invariant
                self.wf(),
                *self == *old(self),
                i <= types@.len(),
                forall|j: int| 0 <= j < i ==> !(self.toks()[self.pos()].token_type != TokenType::EOF
                    && types@[j] == self.toks()[self.pos()].token_type),
            decreases types@.len() - i,
        {
            if self.check(types[i]) {
                self.advance();
                assert(types@.contains(old(self).toks()[old(self).pos()].token_type)) by {
                    assert(types@[i as int] == old(self).toks()[old(self).pos()].token_type);
                }
                return true;
            }
            i = i + 1;
        }
        false
    }

    fn consume(&mut self, k: TokenType) -> (r: Result<Token, ParseError>)
        requires
            old(self).wf(),
        ensures
            Parser::moved(old(self), final(self)),
            r matches Err(e) ==> located(old(self).toks(), e) && e.position >= old(self).pos(),
            r is Ok <==> kind_at(old(self).toks(), old(self).pos()) == Some(k) && k != TokenType::EOF,
            r matches Ok(t) ==> t == old(self).toks()[old(self).pos()] && final(self).pos() == old(self).pos() + 1,
            r is Err ==> r == Err::<Token, ParseError>(syntax_error(old(self).toks(), old(self).pos(), ParseErrorKind::Expected(k)))
                && final(self).pos() == old(self).pos(),
    {
        if self.check(k) {
            let t = self.peek().duplicate();
            self.advance();
            Ok(t)
        } else {
            Err(ParseError::new(self.peek(), self.current, ParseErrorKind::Expected(k)))
        }
    }

    fn expression(&mut self) -> (r: Result<Expr, ParseError>)
        requires
            old(self).wf(),
        ensures
            Parser::moved(old(self), final(self)),
            r matches Err(e) ==> located(old(self).toks(), e) && e.position >= old(self).pos(),
            r matches Ok(e) ==> parsed_expr_at(e, old(self).toks(), old(self).pos())
                && final(self).pos() == old(self).pos() + expr_width(e),
            forall|e: Expr| #[trigger] whole_expr_at(e, old(self).toks(), old(self).pos())
                ==> r == Ok::<Expr, ParseError>(e),
            !starts_expression(old(self).toks()[old(self).pos()].token_type) ==> r == Err::<Expr, ParseError>(
                syntax_error(old(self).toks(), old(self).pos(), ParseErrorKind::ExpectExpression),
            ) && final(self).pos() == old(self).pos(),
            forall|e: Expr, v: Expr|
                #![trigger operand_at(e, old(self).toks(), old(self).pos(), 1), whole_expr_at(v, old(self).toks(), old(self).pos() + expr_width(e) + 1)]
                operand_at(e, old(self).toks(), old(self).pos(), 1) && !(e is Variable)
                    && kind_at(old(self).toks(), old(self).pos() + expr_width(e)) == Some(TokenType::EQUAL)
                    && whole_expr_at(v, old(self).toks(), old(self).pos() + expr_width(e) + 1)
                    ==> r == Err::<Expr, ParseError>(syntax_error(
                        old(self).toks(),
                        old(self).pos() + expr_width(e),
                        ParseErrorKind::InvalidAssignmentTarget,
                    )),
        decreases old(self).toks().len() - old(self).pos(), 13int,
    {
        self.assignment()
    }

    fn assignment(&mut self) -> (r: Result<Expr, ParseError>)
        requires
            old(self).wf(),
        ensures
            Parser::moved(old(self), final(self)),
            r matches Err(e) ==> located(old(self).toks(), e) && e.position >= old(self).pos(),
            r matches Ok(e) ==> parsed_expr_at(e, old(self).toks(), old(self).pos())
                && final(self).pos() == old(self).pos() + expr_width(e),
            forall|e: Expr| #[trigger] whole_expr_at(e, old(self).toks(), old(self).pos())
                ==> r == Ok::<Expr, ParseError>(e),
            !starts_expression(old(self).toks()[old(self).pos()].token_type) ==> r == Err::<Expr, ParseError>(
                syntax_error(old(self).toks(), old(self).pos(), ParseErrorKind::ExpectExpression),
            ) && final(self).pos() == old(self).pos(),
            forall|e: Expr, v: Expr|
                #![trigger operand_at(e, old(self).toks(), old(self).pos(), 1), whole_expr_at(v, old(self).toks(), old(self).pos() + expr_width(e) + 1)]
                operand_at(e, old(self).toks(), old(self).pos(), 1) && !(e is Variable)
                    && kind_at(old(self).toks(), old(self).pos() + expr_width(e)) == Some(TokenType::EQUAL)
                    && whole_expr_at(v, old(self).toks(), old(self).pos() + expr_width(e) + 1)
                    ==> r == Err::<Expr, ParseError>(syntax_error(
                        old(self).toks(),
                        old(self).pos() + expr_width(e),
                        ParseErrorKind::InvalidAssignmentTarget,
                    )),
        decreases old(self).toks().len() - old(self).pos(), 12int,
    {
        let ghost ts = self.toks();
        let ghost p = self.pos();
        let expr = match self.infix(1) {
            Ok(x) => x,
            Err(err) => {
                proof {
                    assert forall|e: Expr| #[trigger] whole_expr_at(e, ts, p) implies false by {
                        lemma_assignment_witness(e, ts, p);
                    }
                }
                return Err(err);
            },
        };
        let equals_at = self.current;
        if self.match_tokens(&[TokenType::EQUAL]) {
            let value = match self.assignment() {
                Ok(x) => x,
                Err(err) => {
                    proof {
                        assert forall|e: Expr| #[trigger] whole_expr_at(e, ts, p) implies false by {
                            lemma_assignment_witness(e, ts, p);
                            if let Expr::Assign(_, v) = e {
                                assert(whole_expr_at(*v, ts, p + 2));
                            }
                        }
                    }
                    return Err(err);
                },
            };
            if let Expr::Variable(var) = expr {
                let r = Ok(Expr::Assign(var.name, Box::new(value)));
                proof {
                    assert forall|e: Expr| #[trigger] whole_expr_at(e, ts, p) implies r == Ok::<Expr, ParseError>(e) by {
                        lemma_assignment_witness(e, ts, p);
                        if let Expr::Assign(_, v) = e {
                            assert(whole_expr_at(*v, ts, p + 2));
                        }
                    }
                }
                return r;
            }
            proof {
                assert forall|e: Expr| #[trigger] whole_expr_at(e, ts, p) implies false by {
                    lemma_assignment_witness(e, ts, p);
                }
            }
            return Err(ParseError::new(&self.tokens[equals_at], equals_at, ParseErrorKind::InvalidAssignmentTarget));
        }
        proof {
            assert forall|e: Expr| #[trigger] whole_expr_at(e, ts, p) implies expr == e by {
                lemma_assignment_witness(e, ts, p);
            }
        }
        Ok(expr)
    }

    /// An infix rule: operands of the next stronger rule, joined by the
    /// operators of binding strength `level`, grouped to the left.
    fn infix(&mut self, level: u8) -> (r: Result<Expr, ParseError>)
        requires
            old(self).wf(),
            1 <= level <= 6,
        ensures
            Parser::moved(old(self), final(self)),
            r matches Err(e) ==> located(old(self).toks(), e) && e.position >= old(self).pos(),
            r matches Ok(e) ==> parsed_expr_at(e, old(self).toks(), old(self).pos())
                && final(self).pos() == old(self).pos() + expr_width(e)
                && expr_level(e) >= level,
            forall|e: Expr| #[trigger] operand_at(e, old(self).toks(), old(self).pos(), level as nat)
                ==> r == Ok::<Expr, ParseError>(e),
            !starts_expression(old(self).toks()[old(self).pos()].token_type) ==> r == Err::<Expr, ParseError>(
                syntax_error(old(self).toks(), old(self).pos(), ParseErrorKind::ExpectExpression),
            ) && final(self).pos() == old(self).pos(),
        decreases old(self).toks().len() - old(self).pos(), 12 - level,
    {
        let ghost ts = self.toks();
        let ghost start = self.pos();
        let ghost lv = level as nat;
        let first = if level == 6 {
            self.unary()
        } else {
            self.infix(level + 1)
        };
        let ghost first_result = first;
        proof {
            if !starts_expression(ts[start].token_type) {
                assert(first_result == Err::<Expr, ParseError>(
                    syntax_error(ts, start, ParseErrorKind::ExpectExpression),
                ));
            }
        }
        let mut expr = match first {
            Ok(x) => {
                assert(first_result == Ok::<Expr, ParseError>(x));
                x
            },
            Err(err) => {
                assert(first_result == Err::<Expr, ParseError>(err));
                proof {
                    assert forall|e: Expr| #[trigger] operand_at(e, ts, start, lv) implies false by {
                        lemma_head_operand(e, ts, start, lv);
                    }
                }
                return Err(err);
            },
        };
        proof {
            assert forall|e: Expr| #[trigger] operand_at(e, ts, start, lv) implies on_spine(expr, e, lv) by {
                lemma_head_operand(e, ts, start, lv);
                let h = spine_head(e, lv);
                if lv == 6 {
                    assert(unary_at(h, ts, start));
                } else {
                    assert(operand_at(h, ts, start, (level + 1) as nat));
                }
                assert(first_result == Ok::<Expr, ParseError>(h));
                assert(expr == h);
            }
        }
        while !self.is_at_end() && op_level_of(self.peek().token_type) == level
            invariant
                Parser::moved(old(self), self),
                1 <= level <= 6,
                lv == level as nat,
                ts == old(self).toks(),
                start == old(self).pos(),
                starts_expression(ts[start].token_type),
                parsed_expr_at(expr, self.toks(), start),
                self.pos() == start + expr_width(expr),
                expr_level(expr) >= level,
                forall|e: Expr| #[trigger] operand_at(e, ts, start, lv) ==> on_spine(expr, e, lv),
            decreases self.toks().len() - self.pos(),
        {
            let ghost cur = self.pos();
            let ghost before = expr;
            proof {
                assert forall|e: Expr| #[trigger] operand_at(e, ts, start, lv) implies expr != e by {
                    lemma_spine_follow(expr, e, lv, ts, start);
                }
            }
            let operator = self.peek().duplicate();
            self.advance();
            let second = if level == 6 {
                self.unary()
            } else {
                self.infix(level + 1)
            };
            let right = match second {
                Ok(x) => x,
                Err(err) => {
                    proof {
                        assert forall|e: Expr| #[trigger] operand_at(e, ts, start, lv) implies false by {
                            lemma_next_operand(before, e, ts, start, lv);
                        }
                    }
                    return Err(err);
                },
            };
            if level <= 2 {
                expr = Expr::Logical(Logical::new(Box::new(expr), operator, Box::new(right)));
            } else {
                expr = Expr::Binary(Binary::new(Box::new(expr), operator, Box::new(right)));
            }
            proof {
                assert forall|e: Expr| #[trigger] operand_at(e, ts, start, lv) implies on_spine(expr, e, lv) by {
                    lemma_next_operand(before, e, ts, start, lv);
                }
            }
        }
        proof {
            assert forall|e: Expr| #[trigger] operand_at(e, ts, start, lv) implies expr == e by {
                lemma_spine_follow(expr, e, lv, ts, start);
            }
        }
        Ok(expr)
    }

    fn unary(&mut self) -> (r: Result<Expr, ParseError>)
        requires
            old(self).wf(),
        ensures
            Parser::moved(old(self), final(self)),
            r matches Err(e) ==> located(old(self).toks(), e) && e.position >= old(self).pos(),
            r matches Ok(e) ==> parsed_expr_at(e, old(self).toks(), old(self).pos())
                && final(self).pos() == old(self).pos() + expr_width(e)
                && expr_level(e) >= 7,
            forall|e: Expr| #[trigger] unary_at(e, old(self).toks(), old(self).pos()) ==> r == Ok::<Expr, ParseError>(e),
            !starts_expression(old(self).toks()[old(self).pos()].token_type) ==> r == Err::<Expr, ParseError>(
                syntax_error(old(self).toks(), old(self).pos(), ParseErrorKind::ExpectExpression),
            ) && final(self).pos() == old(self).pos(),
        decreases old(self).toks().len() - old(self).pos(), 5int,
    {
        let ghost ts = self.toks();
        let ghost p = self.pos();
        if self.match_tokens(&[TokenType::BANG, TokenType::MINUS]) {
            let operator = self.previous().duplicate();
            let right = match self.unary() {
                Ok(x) => x,
                Err(err) => {
                    proof {
                        assert forall|e: Expr| #[trigger] unary_at(e, ts, p) implies false by {
                            if let Expr::Unary(u) = e {
                                assert(unary_at(*u.right, ts, p + 1));
                            }
                        }
                    }
                    return Err(err);
                },
            };
            let r = Ok(Expr::Unary(Unary::new(operator, Box::new(right))));
            proof {
                assert forall|e: Expr| #[trigger] unary_at(e, ts, p) implies r == Ok::<Expr, ParseError>(e) by {
                    if let Expr::Unary(u) = e {
                        assert(unary_at(*u.right, ts, p + 1));
                    }
                }
            }
            return r;
        }
        proof {
            assert forall|e: Expr| #[trigger] unary_at(e, ts, p) implies primary_at(e, ts, p) by {
                lemma_expr_first(e, ts, p);
            }
        }
        self.primary()
    }

    fn primary(&mut self) -> (r: Result<Expr, ParseError>)
        requires
            old(self).wf(),
        ensures
            Parser::moved(old(self), final(self)),
            r matches Err(e) ==> located(old(self).toks(), e) && e.position >= old(self).pos(),
            r matches Ok(e) ==> parsed_expr_at(e, old(self).toks(), old(self).pos())
                && final(self).pos() == old(self).pos() + expr_width(e)
                && expr_level(e) == 8,
            forall|e: Expr| #[trigger] primary_at(e, old(self).toks(), old(self).pos()) ==> r == Ok::<Expr, ParseError>(e),
            !starts_primary(old(self).toks()[old(self).pos()].token_type) ==> r == Err::<Expr, ParseError>(
                syntax_error(old(self).toks(), old(self).pos(), ParseErrorKind::ExpectExpression),
            ) && final(self).pos() == old(self).pos(),
        decreases old(self).toks().len() - old(self).pos(), 4int,
    {
        let ghost ts = self.toks();
        let ghost p = self.pos();
        if self.match_tokens(
            &[TokenType::FALSE, TokenType::TRUE, TokenType::NIL, TokenType::NUMBER, TokenType::STRING],
        ) {
            let t = self.previous();
            return match &t.literal {
                Some(v) => Ok(Expr::Literal(Literal::new(v.duplicate()))),
                None => Err(ParseError::new(t, self.current - 1, ParseErrorKind::ExpectExpression)),
            };
        }
        if self.match_tokens(&[TokenType::IDENTIFIER]) {
            let name = self.previous().duplicate();
            return Ok(Expr::Variable(Variable::new(name)));
        }
        if self.match_tokens(&[TokenType::LEFT_PAREN]) {
            let expr = match self.expression() {
                Ok(x) => x,
                Err(err) => {
                    proof {
                        assert forall|e: Expr| #[trigger] primary_at(e, ts, p) implies false by {
                            if let Expr::Grouping(g) = e {
                                assert(whole_expr_at(*g.expression, ts, p + 1));
                            }
                        }
                    }
                    return Err(err);
                },
            };
            match self.consume(TokenType::RIGHT_PAREN) {
                Ok(_) => {},
                Err(err) => {
                    proof {
                        assert forall|e: Expr| #[trigger] primary_at(e, ts, p) implies false by {
                            if let Expr::Grouping(g) = e {
                                assert(whole_expr_at(*g.expression, ts, p + 1));
                            }
                        }
                    }
                    return Err(err);
                },
            }
            let r = Ok(Expr::Grouping(Grouping::new(Box::new(expr))));
            proof {
                assert forall|e: Expr| #[trigger] primary_at(e, ts, p) implies r == Ok::<Expr, ParseError>(e) by {
                    if let Expr::Grouping(g) = e {
                        assert(whole_expr_at(*g.expression, ts, p + 1));
                    }
                }
            }
            return r;
        }
        Err(ParseError::new(self.peek(), self.current, ParseErrorKind::ExpectExpression))
    }

    /// Parses the whole token sequence. Each statement that fails to parse
    /// is reported, and parsing resumes at the next statement boundary;
    /// the result is `None` when any statement failed, and otherwise the
    /// program's statements. Whenever the tokens write a program, parsing
    /// succeeds. A parser parses its tokens once.
    pub fn parse(&mut self) -> (r: Option<Vec<Stmt>>)
        requires
            old(self).wf(),
            old(self).pos() == 0,
            old(self).syntax_errors().len() == 0,
        ensures
            final(self).wf(),
            final(self).toks() == old(self).toks(),
            r is None <==> final(self).syntax_errors().len() > 0,
            r matches Some(v) ==> program_at(v@, old(self).toks()),
            forall|ss: Seq<Stmt>| #[trigger] program_at(ss, old(self).toks()) ==> r is Some,
            forall|ss: Seq<Stmt>, err: ParseError|
                #![trigger stmts_at(ss, ss.len() as int, old(self).toks(), 0), stmt_fails_with(old(self).toks(), stmts_width(ss, ss.len() as int) as int, err)]
                stmts_at(ss, ss.len() as int, old(self).toks(), 0) && stmt_fails_with(
                    old(self).toks(),
                    stmts_width(ss, ss.len() as int) as int,
                    err,
                ) ==> r is None && final(self).syntax_errors().len() > 0 && final(self).syntax_errors()[0] == err,
            forall|i: int, ss: Seq<Stmt>, err: ParseError|
                #![trigger final(self).syntax_errors()[i], fails_from(old(self).toks(), resume_point(old(self).toks(), final(self).syntax_errors()[i].position as int), ss, err)]
                0 <= i < final(self).syntax_errors().len() && fails_from(
                    old(self).toks(),
                    resume_point(old(self).toks(), final(self).syntax_errors()[i].position as int),
                    ss,
                    err,
                ) ==> i + 1 < final(self).syntax_errors().len() && final(self).syntax_errors()[i + 1] == err,
    {
        let ghost ts = self.toks();
        let ghost mut seg_start: int = 0;
        let ghost mut seg_k: int = 0;
        let mut statements: Vec<Stmt> = Vec::new();
        let mut failed = false;
        while !self.is_at_end()
            invariant
                self.wf(),
                self.toks() == old(self).toks(),
                ts == old(self).toks(),
                failed <==> self.errors@.len() > 0,
                !failed ==> stmts_at(statements@, statements@.len() as int, self.toks(), 0)
                    && self.pos() == stmts_width(statements@, statements@.len() as int),
                forall|ss: Seq<Stmt>| #[trigger] program_at(ss, ts) ==> !failed && statements@.len() <= ss.len()
                    && self.pos() == stmts_width(ss, statements@.len() as int),
                forall|ss: Seq<Stmt>, err: ParseError|
                    #![trigger stmts_at(ss, ss.len() as int, ts, 0), stmt_fails_with(ts, stmts_width(ss, ss.len() as int) as int, err)]
                    stmts_at(ss, ss.len() as int, ts, 0) && stmt_fails_with(ts, stmts_width(ss, ss.len() as int) as int, err)
                    ==> (!failed && statements@.len() <= ss.len() && self.pos() == stmts_width(ss, statements@.len() as int))
                    || (failed && self.errors@[0] == err),
                failed ==> located(ts, self.errors@.last()) && seg_start == resume_point(ts, self.errors@.last().position as int),
                failed ==> 0 <= seg_k,
                forall|i: int, ss: Seq<Stmt>, err: ParseError|
                    #![trigger self.errors@[i], fails_from(ts, resume_point(ts, self.errors@[i].position as int), ss, err)]
                    0 <= i < self.errors@.len() - 1 && fails_from(ts, resume_point(ts, self.errors@[i].position as int), ss, err)
                    ==> self.errors@[i + 1] == err,
                failed ==> forall|ss: Seq<Stmt>, err: ParseError| #[trigger] fails_from(ts, seg_start, ss, err)
                    ==> seg_k <= ss.len() && self.pos() == seg_start + stmts_width(ss, seg_k),
            decreases self.toks().len() - self.pos(),
        {
            let ghost before = statements@;
            let ghost at = self.pos();
            let ghost k = statements@.len() as int;
            proof {
                assert forall|ss: Seq<Stmt>| #[trigger] program_at(ss, ts) implies k < ss.len()
                    && stmt_at(ss[k], ts, at) by {
                    if k < ss.len() {
                        lemma_stmts_index(ss, ss.len() as int, k, ts, 0);
                    }
                }
            }
            let ghost was_failed = failed;
            let ghost errs_before = self.errors@;
            let result = self.statement();
            proof {
                assert forall|ss: Seq<Stmt>, err: ParseError| failed && #[trigger] fails_from(ts, seg_start, ss, err)
                    implies (seg_k < ss.len() ==> result is Ok && self.pos() == seg_start + stmts_width(ss, seg_k + 1))
                    && (seg_k == ss.len() ==> result == Err::<Stmt, ParseError>(err)) by {
                    if seg_k < ss.len() {
                        lemma_stmts_index(ss, ss.len() as int, seg_k, ts, seg_start);
                    }
                }
                assert forall|ss: Seq<Stmt>, err: ParseError|
                    #![trigger stmts_at(ss, ss.len() as int, ts, 0), stmt_fails_with(ts, stmts_width(ss, ss.len() as int) as int, err)]
                    stmts_at(ss, ss.len() as int, ts, 0) && stmt_fails_with(ts, stmts_width(ss, ss.len() as int) as int, err)
                    && !was_failed && k == ss.len() implies result == Err::<Stmt, ParseError>(err) by {
                }
            }
            match result {
                Ok(stmt) => {
                    statements.push(stmt);
                    proof {
                        if !failed {
                            lemma_stmts_push(before, stmt, self.toks(), 0);
                        }
                        assert forall|ss: Seq<Stmt>, err: ParseError|
                            #![trigger stmts_at(ss, ss.len() as int, ts, 0), stmt_fails_with(ts, stmts_width(ss, ss.len() as int) as int, err)]
                            stmts_at(ss, ss.len() as int, ts, 0) && stmt_fails_with(ts, stmts_width(ss, ss.len() as int) as int, err)
                            implies (!failed && statements@.len() <= ss.len() && self.pos() == stmts_width(ss, statements@.len() as int))
                            || (failed && self.errors@[0] == err) by {
                            if !failed && k < ss.len() {
                                lemma_stmts_index(ss, ss.len() as int, k, ts, 0);
                            }
                        }
                        assert forall|ss: Seq<Stmt>| #[trigger] program_at(ss, ts) implies statements@.len()
                            <= ss.len() && self.pos() == stmts_width(ss, statements@.len() as int) by {
                            lemma_stmts_index(ss, ss.len() as int, k, ts, 0);
                        }
                    }
                    proof {
                        seg_k = seg_k + 1;
                    }
                },
                Err(e) => {
                    let ghost old_errs = self.errors@;
                    let ghost old_seg = seg_start;
                    let ghost pos_e = e.position as int;
                    self.current = e.position;
                    self.errors.push(e);
                    failed = true;
                    self.synchronize();
                    proof {
                        seg_start = resume_point(ts, pos_e);
                        seg_k = 0;
                        assert(self.errors@.last() == e);
                        assert forall|i: int, ss: Seq<Stmt>, err: ParseError|
                            #![trigger self.errors@[i], fails_from(ts, resume_point(ts, self.errors@[i].position as int), ss, err)]
                            0 <= i < self.errors@.len() - 1 && fails_from(ts, resume_point(ts, self.errors@[i].position as int), ss, err)
                            implies self.errors@[i + 1] == err by {
                            assert(self.errors@[i] == old_errs[i]);
                            if i < old_errs.len() - 1 {
                                assert(self.errors@[i + 1] == old_errs[i + 1]);
                            } else {
                                assert(fails_from(ts, old_seg, ss, err));
                            }
                        }
                        assert forall|ss: Seq<Stmt>, err: ParseError|
                            #![trigger stmts_at(ss, ss.len() as int, ts, 0), stmt_fails_with(ts, stmts_width(ss, ss.len() as int) as int, err)]
                            stmts_at(ss, ss.len() as int, ts, 0) && stmt_fails_with(ts, stmts_width(ss, ss.len() as int) as int, err)
                            implies self.errors@[0] == err by {
                            if !was_failed {
                                if k < ss.len() {
                                    lemma_stmts_index(ss, ss.len() as int, k, ts, 0);
                                }
                                assert(errs_before.len() == 0);
                            } else {
                                assert(self.errors@[0] == errs_before[0]);
                            }
                        }
                    }
                },
            }
        }
        proof {
            assert forall|ss: Seq<Stmt>| #[trigger] program_at(ss, ts) implies statements@.len() == ss.len() by {
                let k = statements@.len() as int;
                if k < ss.len() {
                    lemma_stmts_index(ss, ss.len() as int, k, ts, 0);
                    lemma_stmt_first(ss[k], ts, stmts_width(ss, k) as int);
                }
            }
        }
        proof {
            assert forall|ss: Seq<Stmt>, err: ParseError|
                #![trigger stmts_at(ss, ss.len() as int, ts, 0), stmt_fails_with(ts, stmts_width(ss, ss.len() as int) as int, err)]
                stmts_at(ss, ss.len() as int, ts, 0) && stmt_fails_with(ts, stmts_width(ss, ss.len() as int) as int, err)
                implies failed by {
                let k = statements@.len() as int;
                if !failed && k < ss.len() {
                    lemma_stmts_index(ss, ss.len() as int, k, ts, 0);
                    lemma_stmt_first(ss[k], ts, stmts_width(ss, k) as int);
                }
            }
        }
        proof {
            assert forall|i: int, ss: Seq<Stmt>, err: ParseError|
                #![trigger self.errors@[i], fails_from(ts, resume_point(ts, self.errors@[i].position as int), ss, err)]
                0 <= i < self.errors@.len() && fails_from(ts, resume_point(ts, self.errors@[i].position as int), ss, err)
                implies i + 1 < self.errors@.len() && self.errors@[i + 1] == err by {
                if i == self.errors@.len() - 1 {
                    assert(fails_from(ts, seg_start, ss, err));
                    if seg_k < ss.len() {
                        lemma_stmts_index(ss, ss.len() as int, seg_k, ts, seg_start);
                        lemma_stmt_first(ss[seg_k], ts, seg_start + stmts_width(ss, seg_k));
                    }
                }
            }
        }
        if failed {
            None
        } else {
            Some(statements)
        }
    }

    /// The syntax errors reported by `parse`, in order.
    pub fn errors(&self) -> (r: &Vec<ParseError>)
        ensures
            r@ == self.syntax_errors(),
    {
        &self.errors
    }

    /// After a syntax error: skips tokens up to a statement boundary, that
    /// is, just past a `;`, or before a keyword that starts a statement.
    fn synchronize(&mut self)
        requires
            old(self).wf(),
        ensures
            Parser::moved(old(self), final(self)),
            old(self).toks()[old(self).pos()].token_type != TokenType::EOF ==> final(self).pos() > old(self).pos()
                && final(self).pos() == sync_point(old(self).toks(), old(self).pos() + 1),
            old(self).toks()[old(self).pos()].token_type == TokenType::EOF ==> final(self).pos() == old(self).pos(),
    {
        self.advance();
        while !self.is_at_end()
            invariant
                Parser::moved(old(self), self),
                old(self).toks()[old(self).pos()].token_type != TokenType::EOF ==> self.pos() > old(self).pos()
                    && sync_point(self.toks(), self.pos()) == sync_point(old(self).toks(), old(self).pos() + 1),
                old(self).toks()[old(self).pos()].token_type == TokenType::EOF ==> self.pos() == old(self).pos(),
            decreases self.toks().len() - self.pos(),
        {
            if self.previous().token_type == TokenType::SEMICOLON {
                return;
            }
            match self.peek().token_type {
                TokenType::CLASS
                | TokenType::FUN
                | TokenType::VAR
                | TokenType::FOR
                | TokenType::IF
                | TokenType::WHILE
                | TokenType::PRINT
                | TokenType::RETURN => {
                    return;
                },
                _ => {},
            }
            self.advance();
        }
    }

    fn statement(&mut self) -> (r: Result<Stmt, ParseError>)
        requires
            old(self).wf(),
        ensures
            Parser::moved(old(self), final(self)),
            r matches Err(e) ==> located(old(self).toks(), e) && e.position >= old(self).pos(),
            r matches Ok(s) ==> stmt_at(s, old(self).toks(), old(self).pos())
                && final(self).pos() == old(self).pos() + stmt_width(s)
                && stmt_width(s) >= 1,
            forall|s: Stmt| #[trigger] stmt_at(s, old(self).toks(), old(self).pos()) ==> r is Ok
                && final(self).pos() == old(self).pos() + stmt_width(s),
            forall|err: ParseError| #[trigger] stmt_fails_with(old(self).toks(), old(self).pos(), err)
                ==> r == Err::<Stmt, ParseError>(err),
        decreases old(self).toks().len() - old(self).pos(), 20int,
    {
        let ghost ts = self.toks();
        let ghost p = self.pos();
        if self.match_tokens(&[TokenType::VAR]) {
            proof {
                assert forall|s: Stmt| #[trigger] stmt_at(s, ts, p) implies stmt_at(s, ts, (p + 1) - 1) by {
                    lemma_stmt_first(s, ts, p);
                }
            }
            return self.variable_declaration();
        }
        if self.match_tokens(&[TokenType::PRINT]) {
            proof {
                assert forall|s: Stmt| #[trigger] stmt_at(s, ts, p) implies stmt_at(s, ts, (p + 1) - 1) by {
                    lemma_stmt_first(s, ts, p);
                }
            }
            return self.print_statement();
        }
        if self.match_tokens(&[TokenType::LEFT_BRACE]) {
            let statements = match self.block() {
                Ok(v) => v,
                Err(err) => {
                    proof {
                        assert forall|s: Stmt| #[trigger] stmt_at(s, ts, p) implies false by {
                            lemma_stmt_first(s, ts, p);
                            if let Stmt::Block(v) = s {
                                assert(block_at(v@, ts, p + 1));
                            }
                        }
                    }
                    return Err(err);
                },
            };
            let r = Ok(Stmt::Block(statements));
            proof {
                assert forall|s: Stmt| #[trigger] stmt_at(s, ts, p) implies r is Ok && self.pos() == p + stmt_width(s) by {
                    lemma_stmt_first(s, ts, p);
                    if let Stmt::Block(v) = s {
                        assert(block_at(v@, ts, p + 1));
                    }
                }
            }
            return r;
        }
        if self.match_tokens(&[TokenType::IF]) {
            proof {
                assert forall|s: Stmt| #[trigger] stmt_at(s, ts, p) implies stmt_at(s, ts, (p + 1) - 1) by {
                    lemma_stmt_first(s, ts, p);
                }
            }
            return self.if_statement();
        }
        if self.match_tokens(&[TokenType::WHILE]) {
            proof {
                assert forall|s: Stmt| #[trigger] stmt_at(s, ts, p) implies stmt_at(s, ts, (p + 1) - 1) by {
                    lemma_stmt_first(s, ts, p);
                }
            }
            return self.while_statement();
        }
        proof {
            assert forall|s: Stmt| #[trigger] stmt_at(s, ts, p) implies s is Expression by {
                lemma_stmt_first(s, ts, p);
            }
        }
        self.expression_statement()
    }

    fn print_statement(&mut self) -> (r: Result<Stmt, ParseError>)
        requires
            old(self).wf(),
            old(self).pos() > 0,
            kind_at(old(self).toks(), old(self).pos() - 1) == Some(TokenType::PRINT),
        ensures
            Parser::moved(old(self), final(self)),
            r matches Err(e) ==> located(old(self).toks(), e) && e.position >= old(self).pos(),
            r matches Ok(s) ==> stmt_at(s, old(self).toks(), old(self).pos() - 1)
                && final(self).pos() == old(self).pos() - 1 + stmt_width(s),
            forall|s: Stmt| #[trigger] stmt_at(s, old(self).toks(), old(self).pos() - 1) ==> r is Ok
                && final(self).pos() == old(self).pos() - 1 + stmt_width(s),
            kind_at(old(self).toks(), old(self).pos()) != Some(TokenType::LEFT_PAREN) ==> r == Err::<Stmt, ParseError>(
                syntax_error(old(self).toks(), old(self).pos(), ParseErrorKind::Expected(TokenType::LEFT_PAREN)),
            ),
        decreases old(self).toks().len() - old(self).pos(), 19int,
    {
        let ghost ts = self.toks();
        let ghost p = self.pos() - 1;
        proof {
            assert forall|s: Stmt| #[trigger] stmt_at(s, ts, p) implies s is Print by {
                lemma_stmt_first(s, ts, p);
            }
        }
        self.consume(TokenType::LEFT_PAREN)?;
        let value = match self.expression() {
            Ok(x) => x,
            Err(err) => {
                proof {
                    assert forall|s: Stmt| #[trigger] stmt_at(s, ts, p) implies false by {
                        if let Stmt::Print { expression } = s {
                            assert(whole_expr_at(expression, ts, p + 2));
                        }
                    }
                }
                return Err(err);
            },
        };
        proof {
            assert forall|s: Stmt| #[trigger] stmt_at(s, ts, p) implies s == (Stmt::Print { expression: value }) by {
                if let Stmt::Print { expression } = s {
                    assert(whole_expr_at(expression, ts, p + 2));
                }
            }
        }
        self.consume(TokenType::RIGHT_PAREN)?;
        self.consume(TokenType::SEMICOLON)?;
        Ok(Stmt::Print { expression: value })
    }

    fn expression_statement(&mut self) -> (r: Result<Stmt, ParseError>)
        requires
            old(self).wf(),
        ensures
            Parser::moved(old(self), final(self)),
            r matches Err(e) ==> located(old(self).toks(), e) && e.position >= old(self).pos(),
            r matches Ok(s) ==> stmt_at(s, old(self).toks(), old(self).pos())
                && final(self).pos() == old(self).pos() + stmt_width(s),
            forall|s: Stmt| #[trigger] stmt_at(s, old(self).toks(), old(self).pos()) && s is Expression ==> r is Ok
                && final(self).pos() == old(self).pos() + stmt_width(s),
            forall|err: ParseError| #[trigger] expr_stmt_fails_with(old(self).toks(), old(self).pos(), err)
                ==> r == Err::<Stmt, ParseError>(err),
        decreases old(self).toks().len() - old(self).pos(), 19int,
    {
        let ghost ts = self.toks();
        let ghost p = self.pos();
        let expr = match self.expression() {
            Ok(x) => x,
            Err(err) => {
                proof {
                    assert forall|s: Stmt| #[trigger] stmt_at(s, ts, p) && s is Expression implies false by {
                        if let Stmt::Expression { expression } = s {
                            assert(whole_expr_at(expression, ts, p));
                        }
                    }
                }
                return Err(err);
            },
        };
        proof {
            assert forall|s: Stmt| #[trigger] stmt_at(s, ts, p) && s is Expression implies s == (Stmt::Expression {
                expression: expr,
            }) by {
                if let Stmt::Expression { expression } = s {
                    assert(whole_expr_at(expression, ts, p));
                }
            }
        }
        self.consume(TokenType::SEMICOLON)?;
        Ok(Stmt::Expression { expression: expr })
    }

    fn variable_declaration(&mut self) -> (r: Result<Stmt, ParseError>)
        requires
            old(self).wf(),
            old(self).pos() > 0,
            kind_at(old(self).toks(), old(self).pos() - 1) == Some(TokenType::VAR),
        ensures
            Parser::moved(old(self), final(self)),
            r matches Err(e) ==> located(old(self).toks(), e) && e.position >= old(self).pos(),
            r matches Ok(s) ==> stmt_at(s, old(self).toks(), old(self).pos() - 1)
                && final(self).pos() == old(self).pos() - 1 + stmt_width(s),
            forall|s: Stmt| #[trigger] stmt_at(s, old(self).toks(), old(self).pos() - 1) ==> r is Ok
                && final(self).pos() == old(self).pos() - 1 + stmt_width(s),
            kind_at(old(self).toks(), old(self).pos()) != Some(TokenType::IDENTIFIER) ==> r == Err::<Stmt, ParseError>(
                syntax_error(old(self).toks(), old(self).pos(), ParseErrorKind::Expected(TokenType::IDENTIFIER)),
            ),
        decreases old(self).toks().len() - old(self).pos(), 19int,
    {
        let ghost ts = self.toks();
        let ghost p = self.pos() - 1;
        proof {
            assert forall|s: Stmt| #[trigger] stmt_at(s, ts, p) implies s is Var by {
                lemma_stmt_first(s, ts, p);
            }
        }
        let name_token = self.consume(TokenType::IDENTIFIER)?;
        let name = name_token.lexeme;
        let initializer = if self.match_tokens(&[TokenType::EQUAL]) {
            match self.expression() {
                Ok(x) => Some(x),
                Err(err) => {
                    proof {
                        assert forall|s: Stmt| #[trigger] stmt_at(s, ts, p) implies false by {
                            if let Stmt::Var { name: _, initializer: Some(e) } = s {
                                assert(whole_expr_at(e, ts, p + 3));
                            }
                        }
                    }
                    return Err(err);
                },
            }
        } else {
            None
        };
        proof {
            assert forall|s: Stmt| #[trigger] stmt_at(s, ts, p) implies s == (Stmt::Var { name, initializer }) by {
                if let Stmt::Var { name: _, initializer: Some(e) } = s {
                    assert(whole_expr_at(e, ts, p + 3));
                }
            }
        }
        self.consume(TokenType::SEMICOLON)?;
        Ok(Stmt::Var { name, initializer })
    }

    /// The statements of a block, after its `{`, and the closing `}`.
    fn block(&mut self) -> (r: Result<Vec<Stmt>, ParseError>)
        requires
            old(self).wf(),
        ensures
            Parser::moved(old(self), final(self)),
            r matches Err(e) ==> located(old(self).toks(), e) && e.position >= old(self).pos(),
            r matches Ok(v) ==> stmts_at(v@, v@.len() as int, old(self).toks(), old(self).pos())
                && kind_at(old(self).toks(), old(self).pos() + stmts_width(v@, v@.len() as int))
                    == Some(TokenType::RIGHT_BRACE)
                && final(self).pos() == old(self).pos() + stmts_width(v@, v@.len() as int) + 1,
            forall|v: Seq<Stmt>| #[trigger] block_at(v, old(self).toks(), old(self).pos()) ==> r is Ok
                && final(self).pos() == old(self).pos() + stmts_width(v, v.len() as int) + 1,
        decreases old(self).toks().len() - old(self).pos(), 21int,
    {
        let ghost ts = self.toks();
        let ghost start = self.pos();
        let mut statements: Vec<Stmt> = Vec::new();
        while !self.check(TokenType::RIGHT_BRACE) && !self.is_at_end()
            invariant
                Parser::moved(old(self), self),
                ts == old(self).toks(),
                start == old(self).pos(),
                stmts_at(statements@, statements@.len() as int, self.toks(), old(self).pos()),
                self.pos() == old(self).pos() + stmts_width(statements@, statements@.len() as int),
                forall|v: Seq<Stmt>| #[trigger] block_at(v, ts, start) ==> statements@.len() <= v.len()
                    && self.pos() == start + stmts_width(v, statements@.len() as int),
            decreases self.toks().len() - self.pos(),
        {
            let ghost before = statements@;
            let ghost at = self.pos();
            let ghost k = statements@.len() as int;
            proof {
                assert forall|v: Seq<Stmt>| #[trigger] block_at(v, ts, start) implies k < v.len()
                    && stmt_at(v[k], ts, at) by {
                    if k < v.len() {
                        lemma_stmts_index(v, v.len() as int, k, ts, start);
                    }
                }
            }
            let stmt = match self.statement() {
                Ok(s) => s,
                Err(err) => {
                    return Err(err);
                },
            };
            statements.push(stmt);
            proof {
                lemma_stmts_push(before, stmt, self.toks(), old(self).pos());
                assert forall|v: Seq<Stmt>| #[trigger] block_at(v, ts, start) implies statements@.len() <= v.len()
                    && self.pos() == start + stmts_width(v, statements@.len() as int) by {
                    lemma_stmts_index(v, v.len() as int, k, ts, start);
                }
            }
        }
        proof {
            assert forall|v: Seq<Stmt>| #[trigger] block_at(v, ts, start) implies statements@.len() == v.len() by {
                let k = statements@.len() as int;
                if k < v.len() {
                    lemma_stmts_index(v, v.len() as int, k, ts, start);
                    lemma_stmt_first(v[k], ts, start + stmts_width(v, k));
                }
            }
        }
        self.consume(TokenType::RIGHT_BRACE)?;
        Ok(statements)
    }

    fn if_statement(&mut self) -> (r: Result<Stmt, ParseError>)
        requires
            old(self).wf(),
            old(self).pos() > 0,
            kind_at(old(self).toks(), old(self).pos() - 1) == Some(TokenType::IF),
        ensures
            Parser::moved(old(self), final(self)),
            r matches Err(e) ==> located(old(self).toks(), e) && e.position >= old(self).pos(),
            r matches Ok(s) ==> stmt_at(s, old(self).toks(), old(self).pos() - 1)
                && final(self).pos() == old(self).pos() - 1 + stmt_width(s),
            forall|s: Stmt| #[trigger] stmt_at(s, old(self).toks(), old(self).pos() - 1) ==> r is Ok
                && final(self).pos() == old(self).pos() - 1 + stmt_width(s),
            kind_at(old(self).toks(), old(self).pos()) != Some(TokenType::LEFT_PAREN) ==> r == Err::<Stmt, ParseError>(
                syntax_error(old(self).toks(), old(self).pos(), ParseErrorKind::Expected(TokenType::LEFT_PAREN)),
            ),
        decreases old(self).toks().len() - old(self).pos(), 19int,
    {
        let ghost ts = self.toks();
        let ghost p = self.pos() - 1;
        let keyword = self.previous().duplicate();
        proof {
            assert forall|s: Stmt| #[trigger] stmt_at(s, ts, p) implies s is If by {
                lemma_stmt_first(s, ts, p);
            }
        }
        self.consume(TokenType::LEFT_PAREN)?;
        let condition = match self.expression() {
            Ok(x) => x,
            Err(err) => {
                proof {
                    assert forall|s: Stmt| #[trigger] stmt_at(s, ts, p) implies false by {
                        if let Stmt::If { condition, then_branch: _, else_branch: _, .. } = s {
                            assert(whole_expr_at(condition, ts, p + 2));
                        }
                    }
                }
                return Err(err);
            },
        };
        proof {
            assert forall|s: Stmt| #[trigger] stmt_at(s, ts, p) implies s->If_condition == condition by {
                if let Stmt::If { condition, then_branch: _, else_branch: _, .. } = s {
                    assert(whole_expr_at(condition, ts, p + 2));
                }
            }
        }
        self.consume(TokenType::RIGHT_PAREN)?;
        let ghost t = self.pos();
        let then_branch = match self.statement() {
            Ok(x) => Box::new(x),
            Err(err) => {
                proof {
                    assert forall|s: Stmt| #[trigger] stmt_at(s, ts, p) implies false by {
                        if let Stmt::If { condition: _, then_branch, else_branch: _, .. } = s {
                            assert(stmt_at(*then_branch, ts, t));
                        }
                    }
                }
                return Err(err);
            },
        };
        let ghost e = self.pos();
        proof {
            assert forall|s: Stmt| #[trigger] stmt_at(s, ts, p) implies e == t + stmt_width(*s->If_then_branch) by {
                if let Stmt::If { condition: _, then_branch, else_branch: _, .. } = s {
                    assert(stmt_at(*then_branch, ts, t));
                }
            }
        }
        let else_branch = if self.match_tokens(&[TokenType::ELSE]) {
            match self.statement() {
                Ok(x) => Some(Box::new(x)),
                Err(err) => {
                    proof {
                        assert forall|s: Stmt| #[trigger] stmt_at(s, ts, p) implies false by {
                            if let Stmt::If { condition: _, then_branch: _, else_branch: Some(x), .. } = s {
                                assert(stmt_at(*x, ts, e + 1));
                            }
                        }
                    }
                    return Err(err);
                },
            }
        } else {
            None
        };
        let r = Ok(Stmt::If { keyword, condition, then_branch, else_branch });
        proof {
            assert forall|s: Stmt| #[trigger] stmt_at(s, ts, p) implies r is Ok && self.pos() == p + stmt_width(s) by {
                if let Stmt::If { condition: _, then_branch: _, else_branch: Some(x), .. } = s {
                    assert(stmt_at(*x, ts, e + 1));
                }
            }
        }
        r
    }

    fn while_statement(&mut self) -> (r: Result<Stmt, ParseError>)
        requires
            old(self).wf(),
            old(self).pos() > 0,
            kind_at(old(self).toks(), old(self).pos() - 1) == Some(TokenType::WHILE),
        ensures
            Parser::moved(old(self), final(self)),
            r matches Err(e) ==> located(old(self).toks(), e) && e.position >= old(self).pos(),
            r matches Ok(s) ==> stmt_at(s, old(self).toks(), old(self).pos() - 1)
                && final(self).pos() == old(self).pos() - 1 + stmt_width(s),
            forall|s: Stmt| #[trigger] stmt_at(s, old(self).toks(), old(self).pos() - 1) ==> r is Ok
                && final(self).pos() == old(self).pos() - 1 + stmt_width(s),
            kind_at(old(self).toks(), old(self).pos()) != Some(TokenType::LEFT_PAREN) ==> r == Err::<Stmt, ParseError>(
                syntax_error(old(self).toks(), old(self).pos(), ParseErrorKind::Expected(TokenType::LEFT_PAREN)),
            ),
        decreases old(self).toks().len() - old(self).pos(), 19int,
    {
        let ghost ts = self.toks();
        let ghost p = self.pos() - 1;
        let keyword = self.previous().duplicate();
        proof {
            assert forall|s: Stmt| #[trigger] stmt_at(s, ts, p) implies s is While by {
                lemma_stmt_first(s, ts, p);
            }
        }
        self.consume(TokenType::LEFT_PAREN)?;
        let condition = match self.expression() {
            Ok(x) => x,
            Err(err) => {
                proof {
                    assert forall|s: Stmt| #[trigger] stmt_at(s, ts, p) implies false by {
                        if let Stmt::While { condition, body: _, .. } = s {
                            assert(whole_expr_at(condition, ts, p + 2));
                        }
                    }
                }
                return Err(err);
            },
        };
        proof {
            assert forall|s: Stmt| #[trigger] stmt_at(s, ts, p) implies s->While_condition == condition by {
                if let Stmt::While { condition, body: _, .. } = s {
                    assert(whole_expr_at(condition, ts, p + 2));
                }
            }
        }
        self.consume(TokenType::RIGHT_PAREN)?;
        let ghost b = self.pos();
        let body = match self.statement() {
            Ok(x) => x,
            Err(err) => {
                proof {
                    assert forall|s: Stmt| #[trigger] stmt_at(s, ts, p) implies false by {
                        if let Stmt::While { condition: _, body, .. } = s {
                            assert(stmt_at(*body, ts, b));
                        }
                    }
                }
                return Err(err);
            },
        };
        let r = Ok(Stmt::While { keyword, condition, body: Box::new(body) });
        proof {
            assert forall|s: Stmt| #[trigger] stmt_at(s, ts, p) implies r is Ok && self.pos() == p + stmt_width(s) by {
                if let Stmt::While { condition: _, body, .. } = s {
                    assert(stmt_at(*body, ts, b));
                }
            }
        }
        r
    }
}

/// Adding a statement that is written right after a run of statements
/// extends the run.
proof fn lemma_stmts_push(ss: Seq<Stmt>, s: Stmt, ts: Seq<Token>, pos: int)
    requires
        stmts_at(ss, ss.len() as int, ts, pos),
        stmt_at(s, ts, pos + stmts_width(ss, ss.len() as int)),
    ensures
        stmts_at(ss.push(s), ss.len() + 1int, ts, pos),
        stmts_width(ss.push(s), ss.len() + 1int) == stmts_width(ss, ss.len() as int) + stmt_width(s),
{
    lemma_stmts_prefix(ss, s, ss.len() as int, ts, pos);
}

proof fn lemma_stmts_prefix(ss: Seq<Stmt>, s: Stmt, n: int, ts: Seq<Token>, pos: int)
    requires
        0 <= n <= ss.len(),
    ensures
        stmts_width(ss.push(s), n) == stmts_width(ss, n),
        stmts_at(ss.push(s), n, ts, pos) == stmts_at(ss, n, ts, pos),
    decreases n,
{
    if n > 0 {
        lemma_stmts_prefix(ss, s, n - 1, ts, pos);
        assert(ss.push(s)[n - 1] == ss[n - 1]);
    }
}

/// What a whole expression written at `p` tells the assignment rule: either
/// it is an assignment, whose target is an operand of the `or` rule followed
/// by `=`, or it is itself such an operand, not followed by `=`.
proof fn lemma_assignment_witness(e: Expr, ts: Seq<Token>, p: int)
    requires
        whole_expr_at(e, ts, p),
    ensures
        e is Assign ==> ({
            let (name, v) = (e->Assign_0, *e->Assign_1);
            &&& operand_at(Expr::Variable(Variable { name }), ts, p, 1)
            &&& kind_at(ts, p + 1) == Some(TokenType::EQUAL)
            &&& whole_expr_at(v, ts, p + 2)
        }),
        !(e is Assign) ==> operand_at(e, ts, p, 1),
{
}

/// The first operand that an infix rule reads, for a witness `e`.
proof fn lemma_head_operand(e: Expr, ts: Seq<Token>, p: int, lv: nat)
    requires
        operand_at(e, ts, p, lv),
        1 <= lv <= 6,
    ensures
        on_spine(spine_head(e, lv), e, lv),
        lv == 6 ==> unary_at(spine_head(e, lv), ts, p),
        lv < 6 ==> operand_at(spine_head(e, lv), ts, p, lv + 1),
{
    lemma_spine_head(e, lv, ts, p);
    lemma_spine(spine_head(e, lv), e, lv, ts, p);
    lemma_spine_follow(spine_head(e, lv), e, lv, ts, p);
}

/// After an operator that follows the spine node `c` of a witness `e`, the
/// next operand is the right operand of `c`'s parent, and joining the two
/// gives that parent.
proof fn lemma_next_operand(c: Expr, e: Expr, ts: Seq<Token>, p: int, lv: nat)
    requires
        operand_at(e, ts, p, lv),
        on_spine(c, e, lv),
        !ends_operand(ts, p + expr_width(c), lv),
        1 <= lv <= 6,
    ensures
        c != e,
        lv == 6 ==> unary_at(right_operand(spine_parent(c, e, lv)), ts, p + expr_width(c) + 1),
        lv < 6 ==> operand_at(right_operand(spine_parent(c, e, lv)), ts, p + expr_width(c) + 1, lv + 1),
        on_spine(spine_parent(c, e, lv), e, lv),
        left_operand(spine_parent(c, e, lv)) == c,
        operator_of(spine_parent(c, e, lv)) == ts[p + expr_width(c)],
        spine_parent(c, e, lv) is Binary <==> lv >= 3,
        spine_parent(c, e, lv) is Logical <==> lv <= 2,
{
    lemma_spine(c, e, lv, ts, p);
    lemma_spine_follow(c, e, lv, ts, p);
    if c != e {
        let par = spine_parent(c, e, lv);
        lemma_spine(par, e, lv, ts, p);
        lemma_spine_follow(par, e, lv, ts, p);
    }
}

fn op_level_of(k: TokenType) -> (r: u8)
    ensures
        r == op_level(k),
{
    match k {
        TokenType::OR => 1,
        TokenType::AND => 2,
        TokenType::BANG_EQUAL | TokenType::EQUAL_EQUAL => 3,
        TokenType::GREATER | TokenType::GREATER_EQUAL | TokenType::LESS | TokenType::LESS_EQUAL => 4,
        TokenType::MINUS | TokenType::PLUS => 5,
        TokenType::SLASH | TokenType::STAR => 6,
        _ => 0,
    }
}

} // verus!

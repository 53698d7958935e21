use vstd::prelude::*;
use crate::expr::{Expr, Variable};
use crate::stmt::Stmt;
use crate::token::{Token, TokenType};

verus! {

/// Binding strength of an infix operator: `or` 1, `and` 2, equality 3,
/// comparison 4, `+ -` 5, `* /` 6; 0 for a token that is no infix operator.
pub open spec fn op_level(k: TokenType) -> nat {
    match k {
        TokenType::OR => 1,
        TokenType::AND => 2,
        TokenType::BANG_EQUAL | TokenType::EQUAL_EQUAL => 3,
        TokenType::GREATER | TokenType::GREATER_EQUAL | TokenType::LESS | TokenType::LESS_EQUAL => 4,
        TokenType::MINUS | TokenType::PLUS => 5,
        TokenType::SLASH | TokenType::STAR => 6,
        _ => 0,
    }
}

/// Binding strength of an expression's outermost node: assignment 0, infix
/// nodes their operator's level, unary 7, the rest 8.
pub open spec fn expr_level(e: Expr) -> nat {
    match e {
        Expr::Assign(_, _) => 0,
        Expr::Logical(l) => op_level(l.operator.token_type),
        Expr::Binary(b) => op_level(b.operator.token_type),
        Expr::Unary(_) => 7,
        Expr::Conditional { .. } => 0,
        _ => 8,
    }
}

/// The tree respects precedence and associativity: an operand binds at least
/// as strongly as its operator, and the right operand of an infix operator
/// strictly more strongly (infix operators group to the left).
pub open spec fn well_nested(e: Expr) -> bool
    decreases e,
{
    match e {
        Expr::Literal(_) => true,
        Expr::Variable(_) => true,
        Expr::Assign(_, v) => well_nested(*v),
        Expr::Unary(u) => expr_level(*u.right) >= 7 && well_nested(*u.right),
        Expr::Binary(b) => {
            let lv = op_level(b.operator.token_type);
            &&& 3 <= lv
            &&& expr_level(*b.left) >= lv
            &&& expr_level(*b.right) > lv
            &&& well_nested(*b.left)
            &&& well_nested(*b.right)
        },
        Expr::Logical(l) => {
            let lv = op_level(l.operator.token_type);
            &&& 1 <= lv <= 2
            &&& expr_level(*l.left) >= lv
            &&& expr_level(*l.right) > lv
            &&& well_nested(*l.left)
            &&& well_nested(*l.right)
        },
        Expr::Grouping(g) => well_nested(*g.expression),
        Expr::Conditional { .. } => false,
    }
}

/// The number of tokens an expression is written with.
pub open spec fn expr_width(e: Expr) -> nat
    decreases e,
{
    match e {
        Expr::Literal(_) => 1,
        Expr::Variable(_) => 1,
        Expr::Assign(_, v) => 2 + expr_width(*v),
        Expr::Unary(u) => 1 + expr_width(*u.right),
        Expr::Binary(b) => expr_width(*b.left) + 1 + expr_width(*b.right),
        Expr::Logical(l) => expr_width(*l.left) + 1 + expr_width(*l.right),
        Expr::Grouping(g) => 2 + expr_width(*g.expression),
        Expr::Conditional { .. } => 0,
    }
}

pub open spec fn kind_at(ts: Seq<Token>, i: int) -> Option<TokenType> {
    if 0 <= i < ts.len() {
        Some(ts[i].token_type)
    } else {
        None
    }
}

pub open spec fn is_literal_kind(k: TokenType) -> bool {
    k == TokenType::NUMBER || k == TokenType::STRING || k == TokenType::TRUE || k == TokenType::FALSE
        || k == TokenType::NIL
}

/// The expression is written by the tokens of `ts` from position `pos` on.
pub open spec fn expr_at(e: Expr, ts: Seq<Token>, pos: int) -> bool
    decreases e,
{
    match e {
        Expr::Literal(l) => {
            &&& 0 <= pos < ts.len()
            &&& is_literal_kind(ts[pos].token_type)
            &&& ts[pos].literal == Some(l.value)
        },
        Expr::Variable(v) => {
            &&& kind_at(ts, pos) == Some(TokenType::IDENTIFIER)
            &&& v.name == ts[pos]
        },
        Expr::Assign(name, v) => {
            &&& kind_at(ts, pos) == Some(TokenType::IDENTIFIER)
            &&& name == ts[pos]
            &&& kind_at(ts, pos + 1) == Some(TokenType::EQUAL)
            &&& expr_at(*v, ts, pos + 2)
        },
        Expr::Unary(u) => {
            &&& 0 <= pos < ts.len()
            &&& u.operator == ts[pos]
            &&& (ts[pos].token_type == TokenType::BANG || ts[pos].token_type == TokenType::MINUS)
            &&& expr_at(*u.right, ts, pos + 1)
        },
        Expr::Binary(b) => {
            let p = pos + expr_width(*b.left);
            &&& expr_at(*b.left, ts, pos)
            &&& 0 <= p < ts.len()
            &&& b.operator == ts[p]
            &&& expr_at(*b.right, ts, p + 1)
        },
        Expr::Logical(l) => {
            let p = pos + expr_width(*l.left);
            &&& expr_at(*l.left, ts, pos)
            &&& 0 <= p < ts.len()
            &&& l.operator == ts[p]
            &&& expr_at(*l.right, ts, p + 1)
        },
        Expr::Grouping(g) => {
            &&& kind_at(ts, pos) == Some(TokenType::LEFT_PAREN)
            &&& expr_at(*g.expression, ts, pos + 1)
            &&& kind_at(ts, pos + 1 + expr_width(*g.expression)) == Some(TokenType::RIGHT_PAREN)
        },
        Expr::Conditional { .. } => false,
    }
}

/// The expression is written by `ts` from `pos` on and respects precedence.
pub open spec fn parsed_expr_at(e: Expr, ts: Seq<Token>, pos: int) -> bool {
    expr_at(e, ts, pos) && well_nested(e)
}

/// The number of tokens a statement is written with.
pub open spec fn stmt_width(s: Stmt) -> nat
    decreases s, 0int,
{
    match s {
        Stmt::Expression { expression } => expr_width(expression) + 1,
        Stmt::Print { expression } => expr_width(expression) + 4,
        Stmt::Var { name, initializer } => match initializer {
            None => 3,
            Some(e) => 4 + expr_width(e),
        },
        Stmt::Block(v) => 2 + stmts_width(v@, v@.len() as int),
        Stmt::If { condition, then_branch, else_branch, .. } => 3 + expr_width(condition) + stmt_width(
            *then_branch,
        ) + match else_branch {
            None => 0,
            Some(e) => 1 + stmt_width(*e),
        },
        Stmt::While { condition, body, .. } => 3 + expr_width(condition) + stmt_width(*body),
        Stmt::Input { .. } => 0,
    }
}

/// The number of tokens the first `n` statements of `ss` are written with.
pub open spec fn stmts_width(ss: Seq<Stmt>, n: int) -> nat
    decreases ss, n,
{
    if n <= 0 || n > ss.len() {
        0
    } else {
        stmts_width(ss, n - 1) + stmt_width(ss[n - 1])
    }
}

/// The statement is written by the tokens of `ts` from position `pos` on,
/// its expressions respecting precedence, and an `if` without `else` not
/// followed by `else` (an `else` belongs to the nearest open `if`).
pub open spec fn stmt_at(s: Stmt, ts: Seq<Token>, pos: int) -> bool
    decreases s, 0int,
{
    match s {
        Stmt::Expression { expression } => {
            &&& parsed_expr_at(expression, ts, pos)
            &&& kind_at(ts, pos + expr_width(expression)) == Some(TokenType::SEMICOLON)
        },
        Stmt::Print { expression } => {
            &&& kind_at(ts, pos) == Some(TokenType::PRINT)
            &&& kind_at(ts, pos + 1) == Some(TokenType::LEFT_PAREN)
            &&& parsed_expr_at(expression, ts, pos + 2)
            &&& kind_at(ts, pos + 2 + expr_width(expression)) == Some(TokenType::RIGHT_PAREN)
            &&& kind_at(ts, pos + 3 + expr_width(expression)) == Some(TokenType::SEMICOLON)
        },
        Stmt::Var { name, initializer } => {
            &&& kind_at(ts, pos) == Some(TokenType::VAR)
            &&& kind_at(ts, pos + 1) == Some(TokenType::IDENTIFIER)
            &&& name == ts[pos + 1].lexeme
            &&& match initializer {
                None => kind_at(ts, pos + 2) == Some(TokenType::SEMICOLON),
                Some(e) => {
                    &&& kind_at(ts, pos + 2) == Some(TokenType::EQUAL)
                    &&& parsed_expr_at(e, ts, pos + 3)
                    &&& kind_at(ts, pos + 3 + expr_width(e)) == Some(TokenType::SEMICOLON)
                },
            }
        },
        Stmt::Block(v) => {
            &&& kind_at(ts, pos) == Some(TokenType::LEFT_BRACE)
            &&& stmts_at(v@, v@.len() as int, ts, pos + 1)
            &&& kind_at(ts, pos + 1 + stmts_width(v@, v@.len() as int)) == Some(TokenType::RIGHT_BRACE)
        },
        Stmt::If { keyword, condition, then_branch, else_branch } => {
            let t = pos + 3 + expr_width(condition);
            let e = t + stmt_width(*then_branch);
            &&& kind_at(ts, pos) == Some(TokenType::IF)
            &&& keyword == ts[pos]
            &&& kind_at(ts, pos + 1) == Some(TokenType::LEFT_PAREN)
            &&& parsed_expr_at(condition, ts, pos + 2)
            &&& kind_at(ts, t - 1) == Some(TokenType::RIGHT_PAREN)
            &&& stmt_at(*then_branch, ts, t)
            &&& match else_branch {
                None => kind_at(ts, e) != Some(TokenType::ELSE),
                Some(x) => kind_at(ts, e) == Some(TokenType::ELSE) && stmt_at(*x, ts, e + 1),
            }
        },
        Stmt::While { keyword, condition, body } => {
            let b = pos + 3 + expr_width(condition);
            &&& kind_at(ts, pos) == Some(TokenType::WHILE)
            &&& keyword == ts[pos]
            &&& kind_at(ts, pos + 1) == Some(TokenType::LEFT_PAREN)
            &&& parsed_expr_at(condition, ts, pos + 2)
            &&& kind_at(ts, b - 1) == Some(TokenType::RIGHT_PAREN)
            &&& stmt_at(*body, ts, b)
        },
        Stmt::Input { .. } => false,
    }
}

/// The first `n` statements of `ss` are written one after the other by the
/// tokens of `ts` from position `pos` on.
pub open spec fn stmts_at(ss: Seq<Stmt>, n: int, ts: Seq<Token>, pos: int) -> bool
    decreases ss, n,
{
    if n <= 0 {
        true
    } else if n > ss.len() {
        false
    } else {
        stmts_at(ss, n - 1, ts, pos) && stmt_at(ss[n - 1], ts, pos + stmts_width(ss, n - 1))
    }
}

/// The statements are the whole program that the tokens write: one after the
/// other from the first token up to the end-of-input token.
pub open spec fn program_at(ss: Seq<Stmt>, ts: Seq<Token>) -> bool {
    &&& stmts_at(ss, ss.len() as int, ts, 0)
    &&& kind_at(ts, stmts_width(ss, ss.len() as int) as int) == Some(TokenType::EOF)
}

/// The token at `q` cannot continue an operand of binding strength `lv`: it
/// is no infix operator binding at least as strongly.
pub open spec fn ends_operand(ts: Seq<Token>, q: int, lv: nat) -> bool {
    match kind_at(ts, q) {
        Some(k) => k == TokenType::EOF || op_level(k) < lv,
        None => true,
    }
}

/// The token at `q` can follow a whole expression: it is no infix operator
/// and no `=`.
pub open spec fn ends_expression(ts: Seq<Token>, q: int) -> bool {
    ends_operand(ts, q, 1) && kind_at(ts, q) != Some(TokenType::EQUAL)
}

/// `e` is written at `p` as an operand of an infix rule of binding strength
/// `lv`: it binds at least that strongly, and the token after it cannot
/// continue it.
pub open spec fn operand_at(e: Expr, ts: Seq<Token>, p: int, lv: nat) -> bool {
    parsed_expr_at(e, ts, p) && expr_level(e) >= lv && ends_operand(ts, p + expr_width(e), lv)
}

/// `e` is written at `p` as a unary expression.
pub open spec fn unary_at(e: Expr, ts: Seq<Token>, p: int) -> bool {
    parsed_expr_at(e, ts, p) && expr_level(e) >= 7
}

/// `e` is written at `p` as a primary expression.
pub open spec fn primary_at(e: Expr, ts: Seq<Token>, p: int) -> bool {
    parsed_expr_at(e, ts, p) && expr_level(e) == 8
}

/// `e` is written at `p` as a whole expression.
pub open spec fn whole_expr_at(e: Expr, ts: Seq<Token>, p: int) -> bool {
    parsed_expr_at(e, ts, p) && ends_expression(ts, p + expr_width(e))
}

/// The statements of `v`, then a `}`, are written from `p` on.
pub open spec fn block_at(v: Seq<Stmt>, ts: Seq<Token>, p: int) -> bool {
    stmts_at(v, v.len() as int, ts, p) && kind_at(ts, p + stmts_width(v, v.len() as int))
        == Some(TokenType::RIGHT_BRACE)
}

/// Each statement of a run is written where the ones before it end.
pub proof fn lemma_stmts_index(v: Seq<Stmt>, n: int, k: int, ts: Seq<Token>, p: int)
    requires
        stmts_at(v, n, ts, p),
        0 <= k < n <= v.len(),
    ensures
        stmt_at(v[k], ts, p + stmts_width(v, k)),
        stmts_width(v, k + 1) == stmts_width(v, k) + stmt_width(v[k]),
    decreases n,
{
    if k < n - 1 {
        lemma_stmts_index(v, n - 1, k, ts, p);
    }
}

/// The keywords that start a statement, where parsing resumes after a
/// syntax error.
pub open spec fn is_statement_keyword(k: TokenType) -> bool {
    k == TokenType::CLASS || k == TokenType::FUN || k == TokenType::VAR || k == TokenType::FOR
        || k == TokenType::IF || k == TokenType::WHILE || k == TokenType::PRINT || k == TokenType::RETURN
}

/// The first statement boundary at or after `q`: the end of input, the
/// token just past a `;`, or a keyword that starts a statement.
pub open spec fn sync_point(ts: Seq<Token>, q: int) -> int
    decreases ts.len() - q,
{
    if q < 1 || q >= ts.len() {
        q
    } else if ts[q].token_type == TokenType::EOF || ts[q - 1].token_type == TokenType::SEMICOLON
        || is_statement_keyword(ts[q].token_type) {
        q
    } else {
        sync_point(ts, q + 1)
    }
}

/// The kinds of token a primary expression can start with.
pub open spec fn starts_primary(k: TokenType) -> bool {
    is_literal_kind(k) || k == TokenType::IDENTIFIER || k == TokenType::LEFT_PAREN
}

/// The kinds of token an expression can start with.
pub open spec fn starts_expression(k: TokenType) -> bool {
    is_literal_kind(k) || k == TokenType::IDENTIFIER || k == TokenType::LEFT_PAREN || k == TokenType::BANG
        || k == TokenType::MINUS
}

/// An infix node whose operator has binding strength `lv`.
pub open spec fn is_level_node(e: Expr, lv: nat) -> bool {
    match e {
        Expr::Binary(b) => op_level(b.operator.token_type) == lv,
        Expr::Logical(l) => op_level(l.operator.token_type) == lv,
        _ => false,
    }
}

/// `c` is on the left spine of the chain of level-`lv` operators that `e`
/// starts: `e` itself, or on the spine of its left operand when `e` is such
/// an operator node.
pub open spec fn on_spine(c: Expr, e: Expr, lv: nat) -> bool
    decreases e,
{
    c == e || match e {
        Expr::Binary(b) => op_level(b.operator.token_type) == lv && on_spine(c, *b.left, lv),
        Expr::Logical(l) => op_level(l.operator.token_type) == lv && on_spine(c, *l.left, lv),
        _ => false,
    }
}

/// The node of `e`'s spine whose left operand is `c`.
pub open spec fn spine_parent(c: Expr, e: Expr, lv: nat) -> Expr
    decreases e,
{
    match e {
        Expr::Binary(b) => if *b.left == c { e } else { spine_parent(c, *b.left, lv) },
        Expr::Logical(l) => if *l.left == c { e } else { spine_parent(c, *l.left, lv) },
        _ => e,
    }
}

/// The first operand of the chain of level-`lv` operators that `e` starts.
pub open spec fn spine_head(e: Expr, lv: nat) -> Expr
    decreases e,
{
    match e {
        Expr::Binary(b) => if op_level(b.operator.token_type) == lv { spine_head(*b.left, lv) } else { e },
        Expr::Logical(l) => if op_level(l.operator.token_type) == lv { spine_head(*l.left, lv) } else { e },
        _ => e,
    }
}

pub open spec fn left_operand(e: Expr) -> Expr {
    match e {
        Expr::Binary(b) => *b.left,
        Expr::Logical(l) => *l.left,
        _ => e,
    }
}

pub open spec fn right_operand(e: Expr) -> Expr {
    match e {
        Expr::Binary(b) => *b.right,
        Expr::Logical(l) => *l.right,
        _ => e,
    }
}

pub open spec fn operator_of(e: Expr) -> Token {
    match e {
        Expr::Binary(b) => b.operator,
        Expr::Logical(l) => l.operator,
        _ => arbitrary(),
    }
}

/// An expression starts with a token that can start one.
pub proof fn lemma_expr_first(e: Expr, ts: Seq<Token>, p: int)
    requires
        expr_at(e, ts, p),
    ensures
        0 <= p < ts.len(),
        starts_expression(ts[p].token_type),
    decreases e,
{
    match e {
        Expr::Binary(b) => lemma_expr_first(*b.left, ts, p),
        Expr::Logical(l) => lemma_expr_first(*l.left, ts, p),
        _ => {},
    }
}

/// A statement starts with a token that is neither `}` nor the end of input;
/// an expression statement with one that can start an expression.
pub proof fn lemma_stmt_first(s: Stmt, ts: Seq<Token>, p: int)
    requires
        stmt_at(s, ts, p),
    ensures
        0 <= p < ts.len(),
        ts[p].token_type != TokenType::EOF,
        ts[p].token_type != TokenType::RIGHT_BRACE,
        s is Expression ==> starts_expression(ts[p].token_type),
{
    match s {
        Stmt::Expression { expression } => lemma_expr_first(expression, ts, p),
        _ => {},
    }
}

/// Facts on a node `c` of the spine of a well-nested `e` written at `p`:
/// `c` is written at `p` too, and unless `c` is `e`, the token after it is
/// the operator of its parent on the spine, whose right operand follows.
pub proof fn lemma_spine(c: Expr, e: Expr, lv: nat, ts: Seq<Token>, p: int)
    requires
        on_spine(c, e, lv),
        expr_at(e, ts, p),
        well_nested(e),
        expr_level(e) >= lv,
        1 <= lv <= 6,
    ensures
        expr_at(c, ts, p),
        well_nested(c),
        expr_level(c) >= lv,
        expr_width(c) <= expr_width(e),
        c != e ==> ({
            let par = spine_parent(c, e, lv);
            &&& on_spine(par, e, lv)
            &&& is_level_node(par, lv)
            &&& left_operand(par) == c
            &&& expr_at(par, ts, p)
            &&& well_nested(par)
            &&& 0 <= p + expr_width(c) < ts.len()
            &&& ts[p + expr_width(c)] == operator_of(par)
            &&& op_level(ts[p + expr_width(c)].token_type) == lv
            &&& parsed_expr_at(right_operand(par), ts, p + expr_width(c) + 1)
            &&& expr_level(right_operand(par)) > lv
            &&& expr_width(par) == expr_width(c) + 1 + expr_width(right_operand(par))
            &&& (par is Binary <==> lv >= 3)
            &&& (par is Logical <==> lv <= 2)
        }),
    decreases e,
{
    if c != e {
        match e {
            Expr::Binary(b) => {
                lemma_spine(c, *b.left, lv, ts, p);
            },
            Expr::Logical(l) => {
                lemma_spine(c, *l.left, lv, ts, p);
            },
            _ => {},
        }
    }
}

/// The token after a spine node can never continue an operand binding more
/// strongly than the spine's operators.
pub proof fn lemma_spine_follow(c: Expr, e: Expr, lv: nat, ts: Seq<Token>, p: int)
    requires
        on_spine(c, e, lv),
        expr_at(e, ts, p),
        well_nested(e),
        expr_level(e) >= lv,
        1 <= lv <= 6,
        ends_operand(ts, p + expr_width(e), lv),
    ensures
        ends_operand(ts, p + expr_width(c), lv + 1),
        c != e ==> !ends_operand(ts, p + expr_width(c), lv),
{
    lemma_spine(c, e, lv, ts, p);
}

/// The first operand of a chain lies on its spine and binds more strongly.
pub proof fn lemma_spine_head(e: Expr, lv: nat, ts: Seq<Token>, p: int)
    requires
        expr_at(e, ts, p),
        well_nested(e),
        expr_level(e) >= lv,
        1 <= lv <= 6,
    ensures
        on_spine(spine_head(e, lv), e, lv),
        expr_level(spine_head(e, lv)) > lv,
    decreases e,
{
    match e {
        Expr::Binary(b) => if op_level(b.operator.token_type) == lv {
            lemma_spine_head(*b.left, lv, ts, p);
        },
        Expr::Logical(l) => if op_level(l.operator.token_type) == lv {
            lemma_spine_head(*l.left, lv, ts, p);
        },
        _ => {},
    }
}

/// Every well-nested expression is written with at least one token.
pub proof fn lemma_expr_width_pos(e: Expr, ts: Seq<Token>, p: int)
    requires
        expr_at(e, ts, p),
    ensures
        expr_width(e) >= 1,
        p + expr_width(e) <= ts.len(),
    decreases e,
{
    match e {
        Expr::Assign(_, v) => lemma_expr_width_pos(*v, ts, p + 2),
        Expr::Unary(u) => lemma_expr_width_pos(*u.right, ts, p + 1),
        Expr::Binary(b) => {
            lemma_expr_width_pos(*b.left, ts, p);
            lemma_expr_width_pos(*b.right, ts, p + expr_width(*b.left) + 1);
        },
        Expr::Logical(l) => {
            lemma_expr_width_pos(*l.left, ts, p);
            lemma_expr_width_pos(*l.right, ts, p + expr_width(*l.left) + 1);
        },
        Expr::Grouping(g) => lemma_expr_width_pos(*g.expression, ts, p + 1),
        _ => {},
    }
}

/// At most one whole expression is written at a position: the grammar with
/// its precedence and grouping rules is unambiguous.
pub proof fn lemma_unique_whole(e1: Expr, e2: Expr, ts: Seq<Token>, p: int)
    requires
        whole_expr_at(e1, ts, p),
        whole_expr_at(e2, ts, p),
    ensures
        e1 == e2,
    decreases ts.len() - p, 20int, 0int,
{
    lemma_expr_first(e1, ts, p);
    if let Expr::Assign(n1, v1) = e1 {
        if let Expr::Assign(n2, v2) = e2 {
            lemma_expr_width_pos(*v1, ts, p + 2);
            lemma_unique_whole(*v1, *v2, ts, p + 2);
        } else {
            let var = Expr::Variable(Variable { name: n1 });
            assert(operand_at(var, ts, p, 1));
            lemma_unique_operand(var, e2, ts, p, 1);
        }
    } else if let Expr::Assign(n2, _) = e2 {
        let var = Expr::Variable(Variable { name: n2 });
        assert(operand_at(var, ts, p, 1));
        lemma_unique_operand(var, e1, ts, p, 1);
    } else {
        lemma_unique_operand(e1, e2, ts, p, 1);
    }
}

/// At most one operand of a given binding strength is written at a position.
pub proof fn lemma_unique_operand(e1: Expr, e2: Expr, ts: Seq<Token>, p: int, lv: nat)
    requires
        operand_at(e1, ts, p, lv),
        operand_at(e2, ts, p, lv),
        1 <= lv <= 6,
    ensures
        e1 == e2,
    decreases ts.len() - p, 2 * (8 - lv) + 1, 0int,
{
    lemma_expr_first(e1, ts, p);
    let h1 = spine_head(e1, lv);
    let h2 = spine_head(e2, lv);
    lemma_spine_head(e1, lv, ts, p);
    lemma_spine_head(e2, lv, ts, p);
    lemma_spine(h1, e1, lv, ts, p);
    lemma_spine(h2, e2, lv, ts, p);
    lemma_spine_follow(h1, e1, lv, ts, p);
    lemma_spine_follow(h2, e2, lv, ts, p);
    if lv == 6 {
        lemma_unique_unary(h1, h2, ts, p);
    } else {
        lemma_unique_operand(h1, h2, ts, p, lv + 1);
    }
    lemma_unique_spine(h1, e1, e2, ts, p, lv);
}

/// Two operands of strength `lv` written at `p` whose spines share the node
/// `c` are equal: from `c` on, both chains read the same operators and the
/// same right operands.
pub proof fn lemma_unique_spine(c: Expr, e1: Expr, e2: Expr, ts: Seq<Token>, p: int, lv: nat)
    requires
        operand_at(e1, ts, p, lv),
        operand_at(e2, ts, p, lv),
        on_spine(c, e1, lv),
        on_spine(c, e2, lv),
        1 <= lv <= 6,
    ensures
        e1 == e2,
    decreases ts.len() - p, 2 * (8 - lv), expr_width(e1) - expr_width(c),
{
    lemma_expr_first(e1, ts, p);
    lemma_spine(c, e1, lv, ts, p);
    lemma_spine(c, e2, lv, ts, p);
    lemma_spine_follow(c, e1, lv, ts, p);
    lemma_spine_follow(c, e2, lv, ts, p);
    if c != e1 && c != e2 {
        let p1 = spine_parent(c, e1, lv);
        let p2 = spine_parent(c, e2, lv);
        let q = p + expr_width(c) + 1;
        lemma_expr_width_pos(c, ts, p);
        lemma_spine(p1, e1, lv, ts, p);
        lemma_spine_follow(p1, e1, lv, ts, p);
        lemma_spine(p2, e2, lv, ts, p);
        lemma_spine_follow(p2, e2, lv, ts, p);
        if lv == 6 {
            lemma_unique_unary(right_operand(p1), right_operand(p2), ts, q);
        } else {
            lemma_unique_operand(right_operand(p1), right_operand(p2), ts, q, lv + 1);
        }
        assert(p1 == p2);
        lemma_unique_spine(p1, e1, e2, ts, p, lv);
    }
}

/// At most one unary expression is written at a position.
pub proof fn lemma_unique_unary(e1: Expr, e2: Expr, ts: Seq<Token>, p: int)
    requires
        unary_at(e1, ts, p),
        unary_at(e2, ts, p),
    ensures
        e1 == e2,
    decreases ts.len() - p, 3int, 0int,
{
    lemma_expr_first(e1, ts, p);
    if let Expr::Unary(u1) = e1 {
        if let Expr::Unary(u2) = e2 {
            lemma_expr_width_pos(*u1.right, ts, p + 1);
            lemma_unique_unary(*u1.right, *u2.right, ts, p + 1);
        }
    } else {
        lemma_unique_primary(e1, e2, ts, p);
    }
}

/// At most one primary expression is written at a position.
pub proof fn lemma_unique_primary(e1: Expr, e2: Expr, ts: Seq<Token>, p: int)
    requires
        primary_at(e1, ts, p),
        primary_at(e2, ts, p),
    ensures
        e1 == e2,
    decreases ts.len() - p, 2int, 0int,
{
    lemma_expr_first(e1, ts, p);
    if let Expr::Grouping(g1) = e1 {
        if let Expr::Grouping(g2) = e2 {
            lemma_expr_width_pos(*g1.expression, ts, p + 1);
            lemma_unique_whole(*g1.expression, *g2.expression, ts, p + 1);
        }
    }
}

/// Two statements are the same tree, blocks compared by their statements.
pub open spec fn stmt_eqv(s1: Stmt, s2: Stmt) -> bool
    decreases s1, 0int,
{
    match s1 {
        Stmt::Expression { expression: a } => s2 == Stmt::Expression { expression: a },
        Stmt::Print { expression: a } => s2 == Stmt::Print { expression: a },
        Stmt::Var { name, initializer } => s2 == Stmt::Var { name, initializer },
        Stmt::Block(v1) => match s2 {
            Stmt::Block(v2) => v1@.len() == v2@.len() && stmts_eqv(v1@, v2@, v1@.len() as int),
            _ => false,
        },
        Stmt::If { keyword: k1, condition: c1, then_branch: t1, else_branch: e1 } => match s2 {
            Stmt::If { keyword: k2, condition: c2, then_branch: t2, else_branch: e2 } => {
                &&& k1 == k2
                &&& c1 == c2
                &&& stmt_eqv(*t1, *t2)
                &&& match e1 {
                    None => e2 is None,
                    Some(x) => e2 is Some && stmt_eqv(*x, *e2->0),
                }
            },
            _ => false,
        },
        Stmt::While { keyword: k1, condition: c1, body: b1 } => match s2 {
            Stmt::While { keyword: k2, condition: c2, body: b2 } => k1 == k2 && c1 == c2 && stmt_eqv(*b1, *b2),
            _ => false,
        },
        Stmt::Input { name } => s2 == Stmt::Input { name },
    }
}

/// The first `n` statements of `v1` and `v2` are pairwise the same trees.
pub open spec fn stmts_eqv(v1: Seq<Stmt>, v2: Seq<Stmt>, n: int) -> bool
    decreases v1, n,
{
    if n <= 0 {
        true
    } else if n > v1.len() || n > v2.len() {
        false
    } else {
        stmts_eqv(v1, v2, n - 1) && stmt_eqv(v1[n - 1], v2[n - 1])
    }
}

pub proof fn lemma_stmts_eqv_index(v1: Seq<Stmt>, v2: Seq<Stmt>, n: int, i: int)
    requires
        stmts_eqv(v1, v2, n),
        0 <= i < n,
    ensures
        stmt_eqv(v1[i], v2[i]),
    decreases n,
{
    if i < n - 1 {
        lemma_stmts_eqv_index(v1, v2, n - 1, i);
    }
}

/// At most one statement is written at a position, up to the identity of
/// its blocks' vectors; and it is written with a fixed number of tokens.
pub proof fn lemma_unique_stmt(s1: Stmt, s2: Stmt, ts: Seq<Token>, p: int)
    requires
        stmt_at(s1, ts, p),
        stmt_at(s2, ts, p),
    ensures
        stmt_eqv(s1, s2),
        stmt_width(s1) == stmt_width(s2),
    decreases s1, 0int,
{
    lemma_stmt_first(s1, ts, p);
    lemma_stmt_first(s2, ts, p);
    match s1 {
        Stmt::Expression { expression: a } => {
            if let Stmt::Expression { expression: b } = s2 {
                lemma_unique_whole(a, b, ts, p);
            }
        },
        Stmt::Print { expression: a } => {
            if let Stmt::Print { expression: b } = s2 {
                lemma_unique_whole(a, b, ts, p + 2);
            }
        },
        Stmt::Var { name: _, initializer: i1 } => {
            if let Stmt::Var { name: _, initializer: i2 } = s2 {
                if let Some(a) = i1 {
                    if let Some(b) = i2 {
                        lemma_unique_whole(a, b, ts, p + 3);
                    }
                }
            }
        },
        Stmt::Block(v1) => {
            if let Stmt::Block(v2) = s2 {
                lemma_unique_run(v1@, v2@, ts, p + 1, TokenType::RIGHT_BRACE);
            }
        },
        Stmt::If { condition: c1, then_branch: t1, else_branch: e1, .. } => {
            if let Stmt::If { condition: c2, then_branch: t2, else_branch: e2, .. } = s2 {
                lemma_unique_whole(c1, c2, ts, p + 2);
                lemma_unique_stmt(*t1, *t2, ts, p + 3 + expr_width(c1));
                if let Some(x) = e1 {
                    if let Some(y) = e2 {
                        lemma_unique_stmt(*x, *y, ts, p + 4 + expr_width(c1) + stmt_width(*t1));
                    }
                }
            }
        },
        Stmt::While { condition: c1, body: b1, .. } => {
            if let Stmt::While { condition: c2, body: b2, .. } = s2 {
                lemma_unique_whole(c1, c2, ts, p + 2);
                lemma_unique_stmt(*b1, *b2, ts, p + 3 + expr_width(c1));
            }
        },
        Stmt::Input { .. } => {},
    }
}

/// Two runs of statements written from `p` on, each ended by a token of kind
/// `end` (which no statement starts with), are the same run.
pub proof fn lemma_unique_run(v1: Seq<Stmt>, v2: Seq<Stmt>, ts: Seq<Token>, p: int, end: TokenType)
    requires
        stmts_at(v1, v1.len() as int, ts, p),
        stmts_at(v2, v2.len() as int, ts, p),
        kind_at(ts, p + stmts_width(v1, v1.len() as int)) == Some(end),
        kind_at(ts, p + stmts_width(v2, v2.len() as int)) == Some(end),
        end == TokenType::RIGHT_BRACE || end == TokenType::EOF,
    ensures
        v1.len() == v2.len(),
        stmts_eqv(v1, v2, v1.len() as int),
        stmts_width(v1, v1.len() as int) == stmts_width(v2, v2.len() as int),
    decreases v1, v1.len() + 1,
{
    let n = if v1.len() < v2.len() { v1.len() as int } else { v2.len() as int };
    lemma_unique_prefix(v1, v2, n, ts, p);
    if v1.len() < v2.len() {
        lemma_stmts_index(v2, v2.len() as int, n, ts, p);
        lemma_stmt_first(v2[n], ts, p + stmts_width(v2, n));
    } else if v2.len() < v1.len() {
        lemma_stmts_index(v1, v1.len() as int, n, ts, p);
        lemma_stmt_first(v1[n], ts, p + stmts_width(v1, n));
    }
}

/// The first `k` statements of two runs written from the same position are
/// pairwise the same and end at the same position.
pub proof fn lemma_unique_prefix(v1: Seq<Stmt>, v2: Seq<Stmt>, k: int, ts: Seq<Token>, p: int)
    requires
        stmts_at(v1, v1.len() as int, ts, p),
        stmts_at(v2, v2.len() as int, ts, p),
        0 <= k <= v1.len(),
        k <= v2.len(),
    ensures
        stmts_eqv(v1, v2, k),
        stmts_width(v1, k) == stmts_width(v2, k),
    decreases v1, k,
{
    if k > 0 {
        lemma_unique_prefix(v1, v2, k - 1, ts, p);
        lemma_stmts_index(v1, v1.len() as int, k - 1, ts, p);
        lemma_stmts_index(v2, v2.len() as int, k - 1, ts, p);
        lemma_unique_stmt(v1[k - 1], v2[k - 1], ts, p + stmts_width(v1, k - 1));
    }
}

/// At most one program is written by a token sequence, up to the identity
/// of its blocks' vectors.
pub proof fn lemma_unique_program(ss1: Seq<Stmt>, ss2: Seq<Stmt>, ts: Seq<Token>)
    requires
        program_at(ss1, ts),
        program_at(ss2, ts),
    ensures
        ss1.len() == ss2.len(),
        stmts_eqv(ss1, ss2, ss1.len() as int),
{
    lemma_unique_run(ss1, ss2, ts, 0, TokenType::EOF);
}

} // verus!

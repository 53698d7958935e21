use vstd::prelude::*;
use crate::expr::Expr;
use crate::token::Token;

verus! {

/// A statement node; statements, like expressions, form a tree.
#[allow(inconsistent_fields)]
pub enum Stmt {
    Expression { expression: Expr },
    Print { expression: Expr },
    Var { name: String, initializer: Option<Expr> },
    Block(Vec<Stmt>),
    /// `keyword` is the `if` token, where a condition error is reported.
    If { keyword: Token, condition: Expr, then_branch: Box<Stmt>, else_branch: Option<Box<Stmt>> },
    /// `keyword` is the `while` token, where a loop that runs past the
    /// iteration limit is reported.
    While { keyword: Token, condition: Expr, body: Box<Stmt> },
    /// Reads a line of input into the declared variable named by the token.
    Input { name: Token },
}

} // verus!

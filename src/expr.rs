use vstd::prelude::*;
use crate::token::Token;
use crate::value::Value;

verus! {

/// An expression node. Each node owns its children: the expressions form a tree.
pub enum Expr {
    Literal(Literal),
    Variable(Variable),
    /// Assignment to the variable named by the token.
    Assign(Token, Box<Expr>),
    Unary(Unary),
    Binary(Binary),
    /// `and` / `or`, which evaluate their right operand only when needed.
    Logical(Logical),
    Grouping(Grouping),
    Conditional { condition: Box<Expr>, then_branch: Box<Expr>, else_branch: Option<Box<Expr>> },
}

pub struct Literal {
    pub value: Value,
}

pub struct Variable {
    pub name: Token,
}

pub struct Unary {
    pub operator: Token,
    pub right: Box<Expr>,
}

pub struct Binary {
    pub left: Box<Expr>,
    pub operator: Token,
    pub right: Box<Expr>,
}

pub struct Logical {
    pub left: Box<Expr>,
    pub operator: Token,
    pub right: Box<Expr>,
}

pub struct Grouping {
    pub expression: Box<Expr>,
}

impl Literal {
    pub fn new(value: Value) -> (r: Literal)
        ensures
            r.value == value,
    {
        Literal { value }
    }
}

impl Variable {
    pub fn new(name: Token) -> (r: Variable)
        ensures
            r.name == name,
    {
        Variable { name }
    }
}

impl Unary {
    pub fn new(operator: Token, right: Box<Expr>) -> (r: Unary)
        ensures
            r.operator == operator,
            r.right == right,
    {
        Unary { operator, right }
    }
}

impl Binary {
    pub fn new(left: Box<Expr>, operator: Token, right: Box<Expr>) -> (r: Binary)
        ensures
            r.left == left,
            r.operator == operator,
            r.right == right,
    {
        Binary { left, operator, right }
    }
}

impl Logical {
    pub fn new(left: Box<Expr>, operator: Token, right: Box<Expr>) -> (r: Logical)
        ensures
            r.left == left,
            r.operator == operator,
            r.right == right,
    {
        Logical { left, operator, right }
    }
}

impl Grouping {
    pub fn new(expression: Box<Expr>) -> (r: Grouping)
        ensures
            r.expression == expression,
    {
        Grouping { expression }
    }
}

} // verus!

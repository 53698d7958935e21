use vstd::prelude::*;
use crate::expr::Expr;
use crate::value::{string_of, value_text};

verus! {

/// The fully parenthesised text of an expression, for debugging: every
/// operator node is written `(op operand ...)`.
pub open spec fn expr_text(e: Expr) -> Seq<char>
    decreases e,
{
    match e {
        Expr::Literal(l) => value_text(l.value@),
        Expr::Variable(v) => v.name.lexeme@,
        Expr::Assign(name, v) => seq!['(', '='] + seq![' '] + name.lexeme@ + seq![' '] + expr_text(*v) + seq![')'],
        Expr::Unary(u) => seq!['('] + u.operator.lexeme@ + seq![' '] + expr_text(*u.right) + seq![')'],
        Expr::Binary(b) => seq!['('] + b.operator.lexeme@ + seq![' '] + expr_text(*b.left) + seq![' ']
            + expr_text(*b.right) + seq![')'],
        Expr::Logical(l) => seq!['('] + l.operator.lexeme@ + seq![' '] + expr_text(*l.left) + seq![' ']
            + expr_text(*l.right) + seq![')'],
        Expr::Grouping(g) => seq!['(', 'g', 'r', 'o', 'u', 'p', ' '] + expr_text(*g.expression) + seq![')'],
        Expr::Conditional { condition, then_branch, else_branch } => {
            let tail = match else_branch {
                Some(x) => seq![' '] + expr_text(*x),
                None => Seq::empty(),
            };
            seq!['(', 'i', 'f', ' '] + expr_text(*condition) + seq![' '] + expr_text(*then_branch) + tail + seq![')']
        },
    }
}

/// Prints expressions as parenthesised prefix text.
pub struct AstPrinter;

impl AstPrinter {
    pub fn new() -> (r: AstPrinter) {
        AstPrinter
    }

    /// The parenthesised text of `expr`.
    pub fn print(&self, expr: &Expr) -> (r: String)
        ensures
            r@ == expr_text(*expr),
    {
        let mut out: Vec<char> = Vec::new();
        push_expr(expr, &mut out);
        let r = string_of(&out, 0, out.len());
        assert(out@.subrange(0, out@.len() as int) =~= out@);
        r
    }
}

fn push_all(s: &String, out: &mut Vec<char>)
    ensures
        final(out)@ == old(out)@ + s@,
{
    crate::value::push_str_chars(s, out);
}

/// Appends `(name`, the operands each after a space, and `)`: the
/// parenthesised form of a node.
fn push_expr(e: &Expr, out: &mut Vec<char>)
    ensures
        final(out)@ == old(out)@ + expr_text(*e),
    decreases e,
{
    let ghost start = out@;
    match e {
        Expr::Literal(l) => l.value.push_text(out),
        Expr::Variable(v) => push_all(&v.name.lexeme, out),
        Expr::Assign(name, v) => {
            out.push('(');
            out.push('=');
            out.push(' ');
            push_all(&name.lexeme, out);
            out.push(' ');
            push_expr(v, out);
            out.push(')');
        },
        Expr::Unary(u) => {
            out.push('(');
            push_all(&u.operator.lexeme, out);
            out.push(' ');
            push_expr(&u.right, out);
            out.push(')');
        },
        Expr::Binary(b) => {
            out.push('(');
            push_all(&b.operator.lexeme, out);
            out.push(' ');
            push_expr(&b.left, out);
            out.push(' ');
            push_expr(&b.right, out);
            out.push(')');
        },
        Expr::Logical(l) => {
            out.push('(');
            push_all(&l.operator.lexeme, out);
            out.push(' ');
            push_expr(&l.left, out);
            out.push(' ');
            push_expr(&l.right, out);
            out.push(')');
        },
        Expr::Grouping(g) => {
            out.push('(');
            out.push('g');
            out.push('r');
            out.push('o');
            out.push('u');
            out.push('p');
            out.push(' ');
            push_expr(&g.expression, out);
            out.push(')');
        },
        Expr::Conditional { condition, then_branch, else_branch } => {
            out.push('(');
            out.push('i');
            out.push('f');
            out.push(' ');
            push_expr(condition, out);
            out.push(' ');
            push_expr(then_branch, out);
            match else_branch {
                Some(x) => {
                    out.push(' ');
                    push_expr(x, out);
                },
                None => {},
            }
            out.push(')');
        },
    }
    assert(out@ =~= start + expr_text(*e));
}

} // verus!

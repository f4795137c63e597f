//! The expression tree, and how a parse tree folds into it.

use crate::grammar::{
    atom_at, chain_at, complete, error_offset, expr_at, file_tree, skip, Rule, Tree,
};
use crate::parser::{views, Grammar, Pair, SyntaxError};
use crate::shape::{lemma_formula_well_formed, well_formed};
use vstd::prelude::*;
use vstd::string::*;

verus! {

/// The five binary operators.
#[derive(Clone, Copy, Debug, PartialEq, Eq, Structural)]
pub enum Op {
    Add,
    Sub,
    Mul,
    Div,
    Pow,
}

/// An expression. A number is kept as the text of its literal and a
/// variable as its name; a summation keeps the texts of its two bounds.
#[derive(Debug)]
pub enum Expr {
    Num(String),
    Var(String),
    Add(Box<Expr>, Box<Expr>),
    Sub(Box<Expr>, Box<Expr>),
    Mul(Box<Expr>, Box<Expr>),
    Div(Box<Expr>, Box<Expr>),
    Pow(Box<Expr>, Box<Expr>),
    Sum { var: String, start: String, end: String, body: Box<Expr> },
    Assign(Box<Expr>),
}

/// The mathematical expression that an `Expr` stands for.
pub ghost enum Ast {
    Num(Seq<char>),
    Var(Seq<char>),
    Binary(Op, Box<Ast>, Box<Ast>),
    Sum { var: Seq<char>, start: Seq<char>, end: Seq<char>, body: Box<Ast> },
    Assign(Box<Ast>),
}

impl Expr {
    /// The mathematical expression that `self` stands for.
    pub open spec fn model(&self) -> Ast
        decreases self,
    {
        match self {
            Expr::Num(text) => Ast::Num(text@),
            Expr::Var(name) => Ast::Var(name@),
            Expr::Add(a, b) => Ast::Binary(Op::Add, Box::new(a.model()), Box::new(b.model())),
            Expr::Sub(a, b) => Ast::Binary(Op::Sub, Box::new(a.model()), Box::new(b.model())),
            Expr::Mul(a, b) => Ast::Binary(Op::Mul, Box::new(a.model()), Box::new(b.model())),
            Expr::Div(a, b) => Ast::Binary(Op::Div, Box::new(a.model()), Box::new(b.model())),
            Expr::Pow(a, b) => Ast::Binary(Op::Pow, Box::new(a.model()), Box::new(b.model())),
            Expr::Sum { var, start, end, body } => Ast::Sum {
                var: var@,
                start: start@,
                end: end@,
                body: Box::new(body.model()),
            },
            Expr::Assign(value) => Ast::Assign(Box::new(value.model())),
        }
    }
}

impl View for Expr {
    type V = Ast;

    open spec fn view(&self) -> Ast {
        self.model()
    }
}

/// The number zero, which stands for a node that is no expression.
pub open spec fn zero() -> Ast {
    Ast::Num(seq!['0'])
}

/// The operator that an operator node stands for.
pub open spec fn operation(rule: Rule) -> Op {
    match rule {
        Rule::Plus => Op::Add,
        Rule::Minus => Op::Sub,
        Rule::Mul => Op::Mul,
        Rule::Div => Op::Div,
        _ => Op::Pow,
    }
}

/// The expression of a parse tree. The wrapping rules (`File`, `Expr`,
/// `Atom`) stand for their first subtree, an assignment wraps its right
/// side, sums and products group to the left and powers to the right.
pub open spec fn ast_of(t: Tree) -> Ast
    decreases t, 0int,
{
    match t.rule {
        Rule::File | Rule::Expr | Rule::Atom => if t.inner.len() >= 1 {
            ast_of(t.inner[0])
        } else {
            zero()
        },
        Rule::Assign => if t.inner.len() >= 2 {
            Ast::Assign(Box::new(ast_of(t.inner[1])))
        } else {
            zero()
        },
        Rule::Summation => if t.inner.len() >= 5 {
            Ast::Sum {
                var: t.inner[1].text,
                start: t.inner[2].text,
                end: t.inner[3].text,
                body: Box::new(ast_of(t.inner[4])),
            }
        } else {
            zero()
        },
        Rule::Sum | Rule::Product => left_fold(t.inner, (t.inner.len() - 1) / 2),
        Rule::Power => right_fold(t.inner, 0),
        Rule::Number => Ast::Num(t.text),
        Rule::Ident => Ast::Var(t.text),
        _ => zero(),
    }
}

/// The first operand of `inner` joined with its next `n` operands, each
/// operator taking all that stands before it as its left side:
/// `((a + b) - c) + d`.
pub open spec fn left_fold(inner: Seq<Tree>, n: int) -> Ast
    decreases inner, n,
{
    if 0 < n && 2 * n < inner.len() {
        Ast::Binary(
            operation(inner[2 * n - 1].rule),
            Box::new(left_fold(inner, n - 1)),
            Box::new(ast_of(inner[2 * n])),
        )
    } else if inner.len() >= 1 {
        ast_of(inner[0])
    } else {
        zero()
    }
}

/// The operands of `inner` from the `i`-th on, each operator taking all
/// that stands after it as its right side: `a ^ (b ^ (c ^ d))`.
pub open spec fn right_fold(inner: Seq<Tree>, i: int) -> Ast
    decreases inner, inner.len() - i,
{
    if 0 <= i && 2 * i + 2 < inner.len() {
        Ast::Binary(
            operation(inner[2 * i + 1].rule),
            Box::new(ast_of(inner[2 * i])),
            Box::new(right_fold(inner, i + 1)),
        )
    } else if 0 <= i && 2 * i < inner.len() {
        ast_of(inner[2 * i])
    } else {
        zero()
    }
}

/// The expression that a text stands for, if it is a formula.
pub open spec fn formula(s: Seq<u8>) -> Option<Ast> {
    match file_tree(s) {
        Some(t) => Some(ast_of(t)),
        None => None,
    }
}

/// What `rule` gives at the first byte of `x` that is no blank.
pub open spec fn first(rule: Rule, x: Seq<u8>) -> Option<(Tree, int)> {
    match rule {
        Rule::Atom => atom_at(x, skip(x, 0)),
        Rule::Power | Rule::Product | Rule::Sum => chain_at(rule, x, skip(x, 0)),
        _ => expr_at(x, skip(x, 0)),
    }
}

/// The expression of a text that is, but for blanks around it, one whole
/// match of `rule`: of `Atom`, `Power`, `Product` or `Sum`, and of `Expr`
/// for every other rule.
pub open spec fn reading(rule: Rule, x: Seq<u8>) -> Option<Ast> {
    match first(rule, x) {
        Some((t, q)) => if skip(x, q) == x.len() {
            Some(ast_of(t))
        } else {
            None
        },
        None => None,
    }
}

/// The node for `left op right`.
fn binary(rule: Rule, left: Expr, right: Expr) -> (r: Expr)
    ensures
        r@ == Ast::Binary(operation(rule), Box::new(left@), Box::new(right@)),
{
    match rule {
        Rule::Plus => Expr::Add(Box::new(left), Box::new(right)),
        Rule::Minus => Expr::Sub(Box::new(left), Box::new(right)),
        Rule::Mul => Expr::Mul(Box::new(left), Box::new(right)),
        Rule::Div => Expr::Div(Box::new(left), Box::new(right)),
        _ => Expr::Pow(Box::new(left), Box::new(right)),
    }
}

/// Builds the expression of a parse tree that has, at every node, the
/// subtrees that the node's rule needs. A tree from [`Grammar::parse`] is
/// such a tree. The node of an operator alone stands for the number `0`.
pub fn parse_expr(pair: &Pair) -> (r: Expr)
    requires
        complete(pair@),
    ensures
        r@ == ast_of(pair@),
    decreases pair,
{
    let ghost inner = pair@.inner;
    assert(inner == views(pair.inner@));
    match pair.rule {
        Rule::File | Rule::Expr | Rule::Atom => parse_expr(&pair.inner[0]),
        Rule::Assign => Expr::Assign(Box::new(parse_expr(&pair.inner[1]))),
        Rule::Summation => {
            let body = parse_expr(&pair.inner[4]);
            Expr::Sum {
                var: pair.inner[1].text.clone(),
                start: pair.inner[2].text.clone(),
                end: pair.inner[3].text.clone(),
                body: Box::new(body),
            }
        },
        Rule::Sum | Rule::Product => {
            let mut e = parse_expr(&pair.inner[0]);
            let mut k: usize = 0;
            while pair.inner.len() - k > 2
                invariant
                    inner == views(pair.inner@),
                    inner == pair@.inner,
                    complete(pair@),
                    pair.rule == Rule::Sum || pair.rule == Rule::Product,
                    k % 2 == 0,
                    k < pair.inner.len(),
                    e@ == left_fold(inner, k as int / 2),
                decreases pair.inner.len() - k,
            {
                assert(complete(inner[k + 2]));
                let rhs = parse_expr(&pair.inner[k + 2]);
                e = binary(pair.inner[k + 1].rule, e, rhs);
                k = k + 2;
            }
            e
        },
        Rule::Power => {
            let mut k: usize = pair.inner.len() - 1;
            assert(complete(inner[k as int]));
            let mut e = parse_expr(&pair.inner[k]);
            while k > 0
                invariant
                    inner == views(pair.inner@),
                    inner == pair@.inner,
                    complete(pair@),
                    pair.rule == Rule::Power,
                    k % 2 == 0,
                    k < pair.inner.len(),
                    e@ == right_fold(inner, k as int / 2),
                decreases k,
            {
                k = k - 2;
                assert(complete(inner[k as int]));
                let lhs = parse_expr(&pair.inner[k]);
                e = binary(pair.inner[k + 1].rule, lhs, e);
            }
            e
        },
        Rule::Number => Expr::Num(pair.text.clone()),
        Rule::Ident => Expr::Var(pair.text.clone()),
        _ => {
            proof {
                reveal_strlit("0");
                assert("0"@ =~= seq!['0']);
            }
            Expr::Num("0".to_owned())
        },
    }
}

/// Parses a formula. Returns its expression exactly when the text is a
/// formula of the grammar, and otherwise the offset at which it stops
/// being one. In the expression every number is a numeral and every name
/// an identifier.
pub fn parse_formula(text: &str) -> (r: Result<Expr, SyntaxError>)
    ensures
        match r {
            Ok(e) => formula(text.spec_bytes()) == Some(e@) && well_formed(e@),
            Err(err) => formula(text.spec_bytes()) is None && err.offset == error_offset(
                text.spec_bytes(),
            ),
        },
{
    proof {
        lemma_formula_well_formed(text.spec_bytes());
    }
    match Grammar::parse(text) {
        Ok(pair) => Ok(parse_expr(&pair)),
        Err(err) => Err(err),
    }
}

} // verus!

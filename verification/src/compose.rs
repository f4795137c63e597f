//! The grammar, construct by construct: what a text stands for that is
//! put together from smaller texts.
//!
//! An operator between two texts takes them as its sides if the left one
//! is of the operator's own level and the right one of the level below it
//! (for `^` the other way round). So `^` binds before `*` and `/`, these
//! before `+` and `-`; `^` groups to the right, the others to the left.
//! With the laws on numerals, names, brackets and blanks, on assignments
//! and on summations, this says what every formula stands for without
//! going through the rules byte by byte.

use crate::ast::{ast_of, first, formula, left_fold, operation, reading, right_fold, Ast, Op};
use crate::context::{
    blank, holds, lemma_atom, lemma_blanks_around_reading, lemma_chain, lemma_expr, lemma_lone_name,
    lemma_operand, lemma_operator_moved, lemma_reading_formula, lemma_rules_advance,
    lemma_skip_moved, lemma_tail_stops, open_at, strikes,
};
use crate::eval::evaluates;
use crate::grammar::{
    assign_at, at, atom_at, below, chain_at, digits_end, expr_at, head_at, ident_end, is_blank,
    is_digit, is_level, is_word, lemma_skip, lemma_word_end, mark, node, number_end, operand_at,
    operator_at, skip, summation_at, tail_at, token, word_end, Rule, Tree,
};
use vstd::prelude::*;
use vstd::utf8::decode_utf8;

verus! {

/// The operator that a byte stands for.
pub open spec fn sign(b: u8) -> Op {
    if b == 0x2b {
        Op::Add
    } else if b == 0x2d {
        Op::Sub
    } else if b == 0x2a {
        Op::Mul
    } else if b == 0x2f {
        Op::Div
    } else {
        Op::Pow
    }
}

/// The text `x`, the byte `b`, the text `y`.
pub open spec fn joined(x: Seq<u8>, b: u8, y: Seq<u8>) -> Seq<u8> {
    x + seq![b] + y
}

/// After the end of a text a level adds nothing.
proof fn lemma_tail_at_end(level: Rule, s: Seq<u8>, q: int, acc: Seq<Tree>)
    requires
        0 <= q <= s.len(),
        skip(s, q) == s.len(),
    ensures
        tail_at(level, s, q, acc) == (acc, q),
{
}

/// A whole operand of a level is a whole match of that level, and stands
/// for the same expression.
pub proof fn lemma_raise(level: Rule, x: Seq<u8>)
    requires
        is_level(level),
        reading(below(level), x) is Some,
    ensures
        reading(level, x) == reading(below(level), x),
{
    let p = skip(x, 0);
    lemma_skip(x, 0);
    let (t, q) = operand_at(level, x, p)->0;
    assert(first(below(level), x) == operand_at(level, x, p));
    lemma_rules_advance(x, p);
    lemma_tail_at_end(level, x, q, seq![t]);
    assert(chain_at(level, x, p) == Some((node(level, seq![t]), q)));
    assert(left_fold(seq![t], 0) == ast_of(t));
    assert(right_fold(seq![t], 0) == ast_of(t));
}

/// A whole sum is a formula, and stands for the same expression.
pub proof fn lemma_raise_sum(x: Seq<u8>)
    requires
        reading(Rule::Sum, x) is Some,
    ensures
        formula(x) == reading(Rule::Sum, x),
{
    let p = skip(x, 0);
    lemma_skip(x, 0);
    let (t, q) = chain_at(Rule::Sum, x, p)->0;
    if assign_at(x, p) is Some {
        lemma_lone_name(x, p);
    }
    assert(expr_at(x, p) == Some((node(Rule::Expr, seq![t]), q)));
    lemma_reading_formula(x);
    assert(ast_of(node(Rule::Expr, seq![t])) == ast_of(t));
}

/// A level adds an even number of subtrees.
proof fn lemma_tail_odd(level: Rule, s: Seq<u8>, p: int, acc: Seq<Tree>)
    requires
        acc.len() % 2 == 1,
    ensures
        tail_at(level, s, p, acc).0.len() % 2 == 1,
    decreases s.len() - p,
{
    let j = skip(s, p);
    let k = skip(s, j + 1);
    if let Some(op) = operator_at(level, s, j) {
        if 0 <= p <= s.len() {
            lemma_skip(s, p);
            lemma_skip(s, j + 1);
            if let Some((t, q)) = operand_at(level, s, k) {
                if p < q <= s.len() {
                    lemma_tail_odd(level, s, q, acc.push(mark(op)).push(t));
                }
            }
        }
    }
}

/// What a level adds does not depend on what was there before.
proof fn lemma_tail_prefix(level: Rule, s: Seq<u8>, p: int, pre: Seq<Tree>, acc: Seq<Tree>)
    ensures
        tail_at(level, s, p, pre + acc) == (
            pre + tail_at(level, s, p, acc).0,
            tail_at(level, s, p, acc).1,
        ),
    decreases s.len() - p,
{
    let j = skip(s, p);
    let k = skip(s, j + 1);
    if let Some(op) = operator_at(level, s, j) {
        if 0 <= p <= s.len() {
            lemma_skip(s, p);
            lemma_skip(s, j + 1);
            if let Some((t, q)) = operand_at(level, s, k) {
                if p < q <= s.len() {
                    lemma_tail_prefix(level, s, q, pre, acc.push(mark(op)).push(t));
                    assert((pre + acc).push(mark(op)).push(t) =~= pre + acc.push(mark(op)).push(
                        t,
                    ));
                }
            }
        }
    }
}

/// Grouping to the left looks only at the subtrees that it joins.
proof fn lemma_left_fold_prefix(a: Seq<Tree>, b: Seq<Tree>, k: int)
    requires
        0 <= k,
        2 * k < a.len() <= b.len(),
        forall|i: int| 0 <= i < a.len() ==> b[i] == a[i],
    ensures
        left_fold(b, k) == left_fold(a, k),
    decreases k,
{
    if k > 0 {
        lemma_left_fold_prefix(a, b, k - 1);
    }
}

/// Grouping to the right looks only at the subtrees that it joins.
proof fn lemma_right_fold_shift(pre: Seq<Tree>, inner: Seq<Tree>, i: int)
    requires
        pre.len() == 2,
        0 <= i,
    ensures
        right_fold(pre + inner, i + 1) == right_fold(inner, i),
    decreases inner.len() - 2 * i,
{
    let all = pre + inner;
    if 2 * i + 2 < inner.len() {
        lemma_right_fold_shift(pre, inner, i + 1);
        assert(all[2 * i + 3] == inner[2 * i + 1]);
        assert(all[2 * i + 2] == inner[2 * i]);
    } else if 2 * i < inner.len() {
        assert(all[2 * i + 2] == inner[2 * i]);
    }
}

/// In a text that goes on with an operator of a level, the level reads on
/// from where it stopped at the end of the shorter text.
proof fn lemma_tail_goes_on(level: Rule, x: Seq<u8>, l: Seq<u8>, q: int, acc: Seq<Tree>)
    requires
        holds(x, l, 0, level),
        is_level(level),
        0 <= q <= x.len(),
        skip(x, tail_at(level, x, q, acc).1) == x.len(),
    ensures
        q <= tail_at(level, x, q, acc).1 <= x.len(),
        tail_at(level, l, q, acc) == tail_at(
            level,
            l,
            tail_at(level, x, q, acc).1,
            tail_at(level, x, q, acc).0,
        ),
    decreases x.len() - q,
{
    lemma_skip_moved(x, l, 0, level, q);
    lemma_skip(x, q);
    let j = skip(x, q);
    lemma_operator_moved(level, x, l, 0, level, j);
    if let Some(op) = operator_at(level, x, j) {
        lemma_skip_moved(x, l, 0, level, j + 1);
        lemma_skip(x, j + 1);
        let k = skip(x, j + 1);
        lemma_operand(level, x, l, 0, level, k);
        if let Some((t, q2)) = operand_at(level, x, k) {
            let more = acc.push(mark(op)).push(t);
            if open_at(below(level), x, q2) {
                lemma_tail_stops(level, x, q2, more);
            } else {
                lemma_tail_goes_on(level, x, l, q2, more);
            }
        }
    }
}

/// The two texts of a joined text are held by it.
proof fn lemma_joined_holds(level: Rule, x: Seq<u8>, b: u8, y: Seq<u8>)
    requires
        is_level(level),
        strikes(level, b),
    ensures
        holds(x, joined(x, b, y), 0, level),
        holds(y, joined(x, b, y), x.len() as int + 1, Rule::File),
        joined(x, b, y).len() == x.len() + 1 + y.len(),
        operator_at(level, joined(x, b, y), x.len() as int) is Some,
        operation(operator_at(level, joined(x, b, y), x.len() as int)->0) == sign(b),
{
    let l = joined(x, b, y);
    let n = x.len() as int;
    assert(l[n] == b);
    assert forall|i: int| 0 <= i < y.len() implies l[i + n + 1] == #[trigger] y[i] by {}
    lemma_skip(l, l.len() as int);
}

/// The left side of a joined text: the longer text reads what the shorter
/// one reads, up to the operator.
proof fn lemma_left_side(level: Rule, x: Seq<u8>, l: Seq<u8>)
    requires
        holds(x, l, 0, level),
        is_level(level),
        reading(level, x) is Some,
    ensures
        ({
            let p = skip(x, 0);
            let (t1, q1) = operand_at(level, x, p)->0;
            let (left, qx) = tail_at(level, x, q1, seq![t1]);
            &&& skip(l, 0) == p
            &&& operand_at(level, x, p) is Some
            &&& operand_at(level, l, p) == operand_at(level, x, p)
            &&& 0 <= p <= q1 <= qx <= x.len()
            &&& tail_at(level, l, q1, seq![t1]) == tail_at(level, l, qx, left)
            &&& skip(l, qx) == x.len()
            &&& left.len() % 2 == 1
            &&& chain_at(level, x, p) == Some((node(level, left), qx))
        }),
{
    let p = skip(x, 0);
    lemma_skip_moved(x, l, 0, level, 0);
    lemma_skip(x, 0);
    lemma_rules_advance(x, p);
    let (t1, q1) = operand_at(level, x, p)->0;
    lemma_operand(level, x, l, 0, level, p);
    if open_at(below(level), x, q1) {
        lemma_tail_stops(level, x, q1, seq![t1]);
    }
    lemma_tail_goes_on(level, x, l, q1, seq![t1]);
    let (left, qx) = tail_at(level, x, q1, seq![t1]);
    lemma_tail_odd(level, x, q1, seq![t1]);
    lemma_skip_moved(x, l, 0, level, qx);
}

/// The right side of a joined text: the longer text reads, after the
/// operator, what the text on the right reads, up to its end.
proof fn lemma_right_side(rule: Rule, y: Seq<u8>, l: Seq<u8>, d: int)
    requires
        holds(y, l, d, Rule::File),
        y.len() + d == l.len(),
        rule == Rule::Atom || is_level(rule),
        reading(rule, y) is Some,
    ensures
        ({
            let (t, q) = first(rule, y)->0;
            &&& first(rule, y) is Some
            &&& skip(l, d) == skip(y, 0) + d
            &&& d < q + d <= l.len()
            &&& skip(l, q + d) == l.len()
            &&& match rule {
                Rule::Atom => atom_at(l, skip(l, d)),
                _ => chain_at(rule, l, skip(l, d)),
            } == Some((t, q + d))
        }),
{
    let p = skip(y, 0);
    lemma_skip(y, 0);
    lemma_skip_moved(y, l, d, Rule::File, 0);
    lemma_rules_advance(y, p);
    let (t, q) = first(rule, y)->0;
    if rule == Rule::Atom {
        lemma_atom(y, l, d, Rule::File, p);
    } else {
        lemma_chain(rule, y, l, d, Rule::File, p);
    }
    lemma_skip_moved(y, l, d, Rule::File, q);
    lemma_skip(l, l.len() as int);
}

/// One more round of a level: an operator, an operand that ends the text.
proof fn lemma_last_round(
    level: Rule,
    l: Seq<u8>,
    q: int,
    acc: Seq<Tree>,
    n: int,
    t: Tree,
    end: int,
)
    requires
        is_level(level),
        0 <= q <= n < end <= l.len(),
        skip(l, q) == n,
        operator_at(level, l, n) is Some,
        operand_at(level, l, skip(l, n + 1)) == Some((t, end)),
        skip(l, end) == l.len(),
    ensures
        tail_at(level, l, q, acc) == (
            acc.push(mark(operator_at(level, l, n)->0)).push(t),
            end,
        ),
{
    let op = operator_at(level, l, n)->0;
    lemma_tail_at_end(level, l, end, acc.push(mark(op)).push(t));
}

/// The tree of a joined text: that of the left side with the operator and
/// the tree of the right side added.
proof fn lemma_join_tree(level: Rule, x: Seq<u8>, l: Seq<u8>, y: Seq<u8>)
    requires
        holds(x, l, 0, level),
        holds(y, l, x.len() as int + 1, Rule::File),
        l.len() == x.len() + 1 + y.len(),
        is_level(level),
        reading(level, x) is Some,
        reading(below(level), y) is Some,
    ensures
        operator_at(level, l, x.len() as int) is Some,
        reading(level, l) == Some(
            ast_of(
                node(
                    level,
                    (first(level, x)->0).0.inner.push(
                        mark(operator_at(level, l, x.len() as int)->0),
                    ).push((first(below(level), y)->0).0),
                ),
            ),
        ),
{
    let n = x.len() as int;
    lemma_left_side(level, x, l);
    lemma_right_side(below(level), y, l, n + 1);
    let p = skip(x, 0);
    let (t1, q1) = operand_at(level, x, p)->0;
    let (left, qx) = tail_at(level, x, q1, seq![t1]);
    let (t2, q2) = first(below(level), y)->0;
    let op = operator_at(level, l, n)->0;
    let all = left.push(mark(op)).push(t2);
    assert(operand_at(level, l, skip(l, n + 1)) == Some((t2, q2 + n + 1)));
    lemma_last_round(level, l, qx, left, n, t2, q2 + n + 1);
    assert(tail_at(level, l, q1, seq![t1]) == (all, q2 + n + 1));
    assert(chain_at(level, l, p) == Some((node(level, all), q2 + n + 1)));
}

/// One more operator and operand on the right of a sum or a product take
/// all that stands before them as their left side.
proof fn lemma_join_ast(level: Rule, left: Seq<Tree>, op: Rule, t: Tree)
    requires
        level == Rule::Sum || level == Rule::Product,
        left.len() % 2 == 1,
    ensures
        ast_of(node(level, left.push(mark(op)).push(t))) == Ast::Binary(
            operation(op),
            Box::new(ast_of(node(level, left))),
            Box::new(ast_of(t)),
        ),
{
    let all = left.push(mark(op)).push(t);
    let k = (left.len() - 1) / 2;
    lemma_left_fold_prefix(left, all, k);
    assert(all[2 * k + 1] == mark(op));
    assert(all[2 * k + 2] == t);
    assert(ast_of(node(level, all)) == left_fold(all, k + 1));
    assert(ast_of(node(level, left)) == left_fold(left, k));
}

/// A power after an atom and `^` is the right side of that `^`.
proof fn lemma_join_power_ast(t: Tree, right: Seq<Tree>)
    requires
        right.len() >= 1,
    ensures
        ast_of(node(Rule::Power, seq![t, mark(Rule::Pow)] + right)) == Ast::Binary(
            Op::Pow,
            Box::new(ast_of(t)),
            Box::new(ast_of(node(Rule::Power, right))),
        ),
{
    let pre = seq![t, mark(Rule::Pow)];
    let all = pre + right;
    lemma_right_fold_shift(pre, right, 0);
    assert(all[0] == t);
    assert(all[1] == mark(Rule::Pow));
    assert(ast_of(node(Rule::Power, all)) == right_fold(all, 0));
    assert(ast_of(node(Rule::Power, right)) == right_fold(right, 0));
}

/// An operator of `+ -` or of `* /` between a text of its own level and a
/// text of the level below takes the two as its sides: the text is of the
/// operator's level again, and stands for the operator applied to what
/// the two texts stand for.
pub proof fn lemma_join(level: Rule, x: Seq<u8>, b: u8, y: Seq<u8>)
    requires
        level == Rule::Sum || level == Rule::Product,
        strikes(level, b),
        reading(level, x) is Some,
        reading(below(level), y) is Some,
    ensures
        reading(level, joined(x, b, y)) == Some(
            Ast::Binary(
                sign(b),
                Box::new(reading(level, x)->0),
                Box::new(reading(below(level), y)->0),
            ),
        ),
{
    let l = joined(x, b, y);
    lemma_joined_holds(level, x, b, y);
    lemma_join_tree(level, x, l, y);
    let tx = (first(level, x)->0).0;
    lemma_left_side(level, x, l);
    assert(tx.inner.len() % 2 == 1);
    assert(tx == node(level, tx.inner));
    lemma_join_ast(
        level,
        tx.inner,
        operator_at(level, l, x.len() as int)->0,
        (first(below(level), y)->0).0,
    );
}

/// The tree of an atom, `^` and a power: that of the power with the atom
/// and the operator put before it.
proof fn lemma_join_power_tree(x: Seq<u8>, l: Seq<u8>, y: Seq<u8>)
    requires
        holds(x, l, 0, Rule::Power),
        holds(y, l, x.len() as int + 1, Rule::File),
        l.len() == x.len() + 1 + y.len(),
        at(l, x.len() as int, 0x5e),
        reading(Rule::Atom, x) is Some,
        reading(Rule::Power, y) is Some,
    ensures
        (first(Rule::Power, y)->0).0.inner.len() >= 1,
        (first(Rule::Power, y)->0).0 == node(Rule::Power, (first(Rule::Power, y)->0).0.inner),
        reading(Rule::Power, l) == Some(
            ast_of(
                node(
                    Rule::Power,
                    seq![(first(Rule::Atom, x)->0).0, mark(Rule::Pow)] + (first(
                        Rule::Power,
                        y,
                    )->0).0.inner,
                ),
            ),
        ),
{
    let level = Rule::Power;
    let n = x.len() as int;
    lemma_right_side(level, y, l, n + 1);
    let p = skip(x, 0);
    let (t1, q1) = atom_at(x, p)->0;
    assert(atom_at(l, p) == Some((t1, q1)) && skip(l, 0) == p && skip(l, q1) == n && 0 <= p
        <= q1 <= n) by {
        lemma_skip_moved(x, l, 0, level, 0);
        lemma_skip(x, 0);
        lemma_rules_advance(x, p);
        lemma_atom(x, l, 0, level, p);
        lemma_skip_moved(x, l, 0, level, q1);
    }
    let start = skip(l, n + 1);
    let (t2, q2) = chain_at(level, y, skip(y, 0))->0;
    let right = t2.inner;
    assert(chain_at(level, l, start) == Some((t2, q2 + n + 1)));
    assert(atom_at(l, start) is Some);
    let (ta, qa) = atom_at(l, start)->0;
    assert(tail_at(level, l, qa, seq![ta]) == (right, q2 + n + 1));
    lemma_tail_odd(level, l, qa, seq![ta]);
    let pre = seq![t1, mark(Rule::Pow)];
    let all = pre + right;
    assert(tail_at(level, l, qa, seq![t1].push(mark(Rule::Pow)).push(ta)) == (all, q2 + n + 1))
        by {
        lemma_tail_prefix(level, l, qa, pre, seq![ta]);
        assert(pre + seq![ta] =~= seq![t1].push(mark(Rule::Pow)).push(ta));
    }
    assert(operator_at(level, l, n) == Some(Rule::Pow));
    assert(tail_at(level, l, q1, seq![t1]) == (all, q2 + n + 1));
    assert(chain_at(level, l, p) == Some((node(level, all), q2 + n + 1)));
}

/// `^` between an atom and a power takes the two as its sides: the text is
/// a power again, and stands for the atom raised to what the power stands
/// for.
pub proof fn lemma_join_power(x: Seq<u8>, y: Seq<u8>)
    requires
        reading(Rule::Atom, x) is Some,
        reading(Rule::Power, y) is Some,
    ensures
        reading(Rule::Power, joined(x, 0x5e, y)) == Some(
            Ast::Binary(
                Op::Pow,
                Box::new(reading(Rule::Atom, x)->0),
                Box::new(reading(Rule::Power, y)->0),
            ),
        ),
{
    let l = joined(x, 0x5e, y);
    lemma_joined_holds(Rule::Power, x, 0x5e, y);
    lemma_join_power_tree(x, l, y);
    lemma_join_power_ast((first(Rule::Atom, x)->0).0, (first(Rule::Power, y)->0).0.inner);
}

/// A numeral is an atom, and stands for the number that it writes.
pub proof fn lemma_number_reading(x: Seq<u8>)
    requires
        number_end(x, 0) == Some(x.len() as int),
    ensures
        reading(Rule::Atom, x) == Some(Ast::Num(decode_utf8(x))),
{
    assert(skip(x, 0) == 0);
    assert(x.subrange(0, x.len() as int) =~= x);
    lemma_skip(x, x.len() as int);
    let leaf = token(Rule::Number, x, 0, x.len() as int);
    assert(atom_at(x, 0) == Some((node(Rule::Atom, seq![leaf]), x.len() as int)));
    assert(ast_of(node(Rule::Atom, seq![leaf])) == ast_of(leaf));
}

/// A name is an atom, and stands for the variable of that name.
pub proof fn lemma_name_reading(x: Seq<u8>)
    requires
        ident_end(x, 0) == Some(x.len() as int),
    ensures
        reading(Rule::Atom, x) == Some(Ast::Var(decode_utf8(x))),
{
    assert(skip(x, 0) == 0);
    assert(number_end(x, 0) is None);
    assert(x.subrange(0, x.len() as int) =~= x);
    lemma_skip(x, x.len() as int);
    let leaf = token(Rule::Ident, x, 0, x.len() as int);
    assert(atom_at(x, 0) == Some((node(Rule::Atom, seq![leaf]), x.len() as int)));
    assert(ast_of(node(Rule::Atom, seq![leaf])) == ast_of(leaf));
}

/// True when `x` is a name with nothing but blanks around it.
pub open spec fn is_name(x: Seq<u8>) -> bool {
    ident_end(x, skip(x, 0)) matches Some(q) && skip(x, q) == x.len()
}

/// Blanks are skipped alike in a text and in a longer one that goes on
/// with a byte that is no blank.
proof fn lemma_skip_prefix(x: Seq<u8>, l: Seq<u8>, p: int)
    requires
        x.len() < l.len(),
        forall|i: int| 0 <= i < x.len() ==> l[i] == #[trigger] x[i],
        !is_blank(l[x.len() as int]),
        0 <= p <= x.len(),
    ensures
        skip(l, p) == skip(x, p),
    decreases x.len() - p,
{
    if p < x.len() {
        assert(l[p] == x[p]);
        if is_blank(x[p]) {
            lemma_skip_prefix(x, l, p + 1);
        }
    }
}

/// A word ends alike in a text and in a longer one that goes on with a
/// byte that is no part of a word.
proof fn lemma_word_prefix(x: Seq<u8>, l: Seq<u8>, p: int)
    requires
        x.len() < l.len(),
        forall|i: int| 0 <= i < x.len() ==> l[i] == #[trigger] x[i],
        !is_word(l[x.len() as int]),
        0 <= p <= x.len(),
    ensures
        word_end(l, p) == word_end(x, p),
        p <= word_end(x, p) <= x.len(),
    decreases x.len() - p,
{
    if p < x.len() {
        assert(l[p] == x[p]);
        if is_word(x[p]) {
            lemma_word_prefix(x, l, p + 1);
        }
    }
}

/// `=` between a name and a sum makes an assignment: the text is a formula,
/// and stands for the assignment of what the sum stands for.
pub proof fn lemma_join_assign(x: Seq<u8>, y: Seq<u8>)
    requires
        is_name(x),
        reading(Rule::Sum, y) is Some,
    ensures
        formula(joined(x, 0x3d, y)) == Some(Ast::Assign(Box::new(reading(Rule::Sum, y)->0))),
{
    let l = joined(x, 0x3d, y);
    let n = x.len() as int;
    assert(l[n] == 0x3d);
    assert forall|i: int| 0 <= i < y.len() implies l[i + n + 1] == #[trigger] y[i] by {}
    lemma_skip(l, l.len() as int);
    assert(holds(y, l, n + 1, Rule::File));
    lemma_right_side(Rule::Sum, y, l, n + 1);
    let p = skip(x, 0);
    lemma_skip(x, 0);
    lemma_skip_prefix(x, l, 0);
    let q = ident_end(x, p)->0;
    assert(l[p] == x[p]);
    lemma_word_prefix(x, l, p + 1);
    lemma_skip_prefix(x, l, q);
    assert(ident_end(l, p) == Some(q));
    assert(skip(l, q) == n);
    let (t, end) = first(Rule::Sum, y)->0;
    let name = token(Rule::Ident, l, p, q);
    let whole = node(Rule::Assign, seq![name, t]);
    assert(assign_at(l, p) == Some((whole, end + n + 1)));
    assert(expr_at(l, p) == Some((node(Rule::Expr, seq![whole]), end + n + 1)));
    lemma_reading_formula(l);
    assert(ast_of(node(Rule::Expr, seq![whole])) == ast_of(whole));
    assert(ast_of(whole) == Ast::Assign(Box::new(ast_of(t))));
}

/// True when `l` holds a copy of `w` from position `d` on, and a byte
/// after it.
pub open spec fn copies(w: Seq<u8>, l: Seq<u8>, d: int) -> bool {
    &&& 0 <= d
    &&& w.len() + d < l.len()
    &&& forall|i: int| 0 <= i < w.len() ==> l[i + d] == #[trigger] w[i]
}

/// Blanks are skipped in the copy as in the text itself, if no blank
/// stands after the copy.
proof fn lemma_skip_piece(w: Seq<u8>, l: Seq<u8>, d: int, p: int)
    requires
        copies(w, l, d),
        !is_blank(l[w.len() + d]),
        0 <= p <= w.len(),
    ensures
        skip(l, p + d) == skip(w, p) + d,
    decreases w.len() - p,
{
    if p < w.len() {
        assert(l[p + d] == w[p]);
        if is_blank(w[p]) {
            lemma_skip_piece(w, l, d, p + 1);
        }
    }
}

/// A word ends in the copy as in the text itself, if no part of a word
/// stands after the copy.
proof fn lemma_word_piece(w: Seq<u8>, l: Seq<u8>, d: int, p: int)
    requires
        copies(w, l, d),
        !is_word(l[w.len() + d]),
        0 <= p <= w.len(),
    ensures
        word_end(l, p + d) == word_end(w, p) + d,
    decreases w.len() - p,
{
    if p < w.len() {
        assert(l[p + d] == w[p]);
        if is_word(w[p]) {
            lemma_word_piece(w, l, d, p + 1);
        }
    }
}

/// A run of digits ends in the copy as in the text itself, if no digit
/// stands after the copy.
proof fn lemma_digits_piece(w: Seq<u8>, l: Seq<u8>, d: int, p: int)
    requires
        copies(w, l, d),
        !is_digit(l[w.len() + d]),
        0 <= p <= w.len(),
    ensures
        digits_end(l, p + d) == digits_end(w, p) + d,
        p <= digits_end(w, p) <= w.len(),
    decreases w.len() - p,
{
    if p < w.len() {
        assert(l[p + d] == w[p]);
        if is_digit(w[p]) {
            lemma_digits_piece(w, l, d, p + 1);
        }
    }
}

/// True when `x` is a number with nothing but blanks around it.
pub open spec fn is_number(x: Seq<u8>) -> bool {
    number_end(x, skip(x, 0)) matches Some(q) && skip(x, q) == x.len()
}

/// The characters of the name or the number that `x` is, bar blanks.
pub open spec fn word_of(x: Seq<u8>) -> Seq<char> {
    let p = skip(x, 0);
    let q = if ident_end(x, p) is Some {
        ident_end(x, p)->0
    } else {
        number_end(x, p)->0
    };
    decode_utf8(x.subrange(p, q))
}

/// A name with blanks around it, held by a longer text before a byte that
/// is no blank and no part of a word, is read there as in itself.
proof fn lemma_name_piece(w: Seq<u8>, l: Seq<u8>, d: int)
    requires
        copies(w, l, d),
        is_name(w),
        !is_blank(l[w.len() + d]),
        !is_word(l[w.len() + d]),
    ensures
        ident_end(l, skip(l, d)) is Some,
        skip(l, ident_end(l, skip(l, d))->0) == w.len() + d,
        token(Rule::Ident, l, skip(l, d), ident_end(l, skip(l, d))->0).text == word_of(w),
{
    let p = skip(w, 0);
    lemma_skip(w, 0);
    lemma_skip_piece(w, l, d, 0);
    let q = ident_end(w, p)->0;
    assert(l[p + d] == w[p]);
    lemma_word_end(w, p + 1);
    lemma_word_piece(w, l, d, p + 1);
    lemma_skip_piece(w, l, d, q);
    assert(l.subrange(p + d, q + d) =~= w.subrange(p, q));
}

/// A number with blanks around it, held by a longer text before a byte
/// that is no blank, no digit and no point, is read there as in itself.
proof fn lemma_number_piece(w: Seq<u8>, l: Seq<u8>, d: int)
    requires
        copies(w, l, d),
        is_number(w),
        !is_blank(l[w.len() + d]),
        !is_digit(l[w.len() + d]),
        l[w.len() + d] != 0x2e,
    ensures
        number_end(l, skip(l, d)) is Some,
        skip(l, number_end(l, skip(l, d))->0) == w.len() + d,
        token(Rule::Number, l, skip(l, d), number_end(l, skip(l, d))->0).text == word_of(w),
{
    let p = skip(w, 0);
    lemma_skip(w, 0);
    lemma_skip_piece(w, l, d, 0);
    let q = number_end(w, p)->0;
    assert(l[p + d] == w[p]);
    let a = if at(w, p, 0x2d) {
        p + 1
    } else {
        p
    };
    assert(l[a + d] == w[a]);
    lemma_digits_piece(w, l, d, a);
    let b = digits_end(w, a);
    if b < w.len() {
        assert(l[b + d] == w[b]);
    }
    if at(w, b, 0x2e) && b + 1 < w.len() && is_digit(w[b + 1]) {
        assert(l[b + 1 + d] == w[b + 1]);
        lemma_digits_piece(w, l, d, b + 1);
    } else if at(w, b, 0x2e) {
        if b + 1 < w.len() {
            assert(l[b + 1 + d] == w[b + 1]);
        }
    }
    assert(number_end(l, p + d) == Some(q + d));
    assert(ident_end(w, p) is None);
    lemma_skip_piece(w, l, d, q);
    assert(l.subrange(p + d, q + d) =~= w.subrange(p, q));
}

/// The text of a summation: `Σ`, the variable, `=`, the lower bound, `to`,
/// the upper bound, and the body between brackets.
pub open spec fn summation_text(v: Seq<u8>, a: Seq<u8>, b: Seq<u8>, body: Seq<u8>) -> Seq<u8> {
    seq![0xceu8, 0xa3u8] + v + seq![0x3du8] + a + seq![0x74u8, 0x6fu8] + b + seq![0x28u8] + body
        + seq![0x29u8]
}

/// Where the parts of a summation text stand.
proof fn lemma_summation_pieces(v: Seq<u8>, a: Seq<u8>, b: Seq<u8>, body: Seq<u8>)
    ensures
        ({
            let l = summation_text(v, a, b, body);
            let oa = 3 + (v.len() as int);
            let ob = oa + (a.len() as int) + 2;
            let ox = ob + (b.len() as int) + 1;
            &&& (l.len() as int) == ox + (body.len() as int) + 1
            &&& l[0] == 0xce
            &&& l[1] == 0xa3
            &&& copies(v, l, 2)
            &&& l[oa - 1] == 0x3d
            &&& copies(a, l, oa)
            &&& l[ob - 2] == 0x74
            &&& l[ob - 1] == 0x6f
            &&& copies(b, l, ob)
            &&& l[ox - 1] == 0x28
            &&& holds(body, l, ox, Rule::File)
        }),
{
    let l = summation_text(v, a, b, body);
    let oa = 3 + (v.len() as int);
    let ob = oa + (a.len() as int) + 2;
    let ox = ob + (b.len() as int) + 1;
    assert forall|i: int| 0 <= i < (v.len() as int) implies l[i + 2] == #[trigger] v[i] by {}
    assert forall|i: int| 0 <= i < (a.len() as int) implies l[i + oa] == #[trigger] a[i] by {}
    assert forall|i: int| 0 <= i < (b.len() as int) implies l[i + ob] == #[trigger] b[i] by {}
    assert forall|i: int| 0 <= i < (body.len() as int) implies l[i + ox] == #[trigger] body[i] by {}
    assert(l[ox + (body.len() as int)] == 0x29);
}

/// The head of a summation text.
proof fn lemma_summation_head(l: Seq<u8>, v: Seq<u8>, a: Seq<u8>, b: Seq<u8>)
    requires
        is_name(v),
        is_number(a),
        is_number(b),
        (l.len() as int) > 6 + (v.len() as int) + (a.len() as int) + (b.len() as int),
        l[0] == 0xce,
        l[1] == 0xa3,
        copies(v, l, 2),
        l[2 + (v.len() as int)] == 0x3d,
        copies(a, l, 3 + (v.len() as int)),
        l[3 + (v.len() as int) + (a.len() as int)] == 0x74,
        l[4 + (v.len() as int) + (a.len() as int)] == 0x6f,
        copies(b, l, 5 + (v.len() as int) + (a.len() as int)),
        l[5 + (v.len() as int) + (a.len() as int) + (b.len() as int)] == 0x28,
    ensures
        head_at(l, 0) matches Some(h) && {
            &&& h.body == skip(l, 6 + (v.len() as int) + (a.len() as int) + (b.len() as int))
            &&& token(Rule::Ident, l, h.var.0, h.var.1).text == word_of(v)
            &&& token(Rule::Number, l, h.start.0, h.start.1).text == word_of(a)
            &&& token(Rule::Number, l, h.end.0, h.end.1).text == word_of(b)
        },
{
    let oa = 3 + (v.len() as int);
    let ob = oa + (a.len() as int) + 2;
    lemma_name_piece(v, l, 2);
    lemma_number_piece(a, l, oa);
    lemma_number_piece(b, l, ob);
    let a0 = skip(l, 2);
    let a1 = ident_end(l, a0)->0;
    assert(skip(l, a1) == oa - 1);
    assert(at(l, oa - 1, 0x3d));
    let d0 = skip(l, oa);
    let d1 = number_end(l, d0)->0;
    assert(skip(l, d1) == ob - 2);
    assert(at(l, ob - 2, 0x74) && at(l, ob - 1, 0x6f));
    let g0 = skip(l, ob);
    let g1 = number_end(l, g0)->0;
    assert(skip(l, g1) == ob + (b.len() as int));
    assert(at(l, ob + (b.len() as int), 0x28));
}

/// A text with the head of a summation, a formula and `)` is a summation.
proof fn lemma_summation_body(l: Seq<u8>, body: Seq<u8>, ox: int)
    requires
        head_at(l, 0) is Some,
        (head_at(l, 0)->0).body == skip(l, ox),
        holds(body, l, ox, Rule::File),
        l.len() == ox + body.len() + 1,
        l[l.len() - 1] == 0x29,
        l[0] == 0xce,
        formula(body) is Some,
    ensures
        ({
            let h = head_at(l, 0)->0;
            reading(Rule::Atom, l) == Some(
                Ast::Sum {
                    var: token(Rule::Ident, l, h.var.0, h.var.1).text,
                    start: token(Rule::Number, l, h.start.0, h.start.1).text,
                    end: token(Rule::Number, l, h.end.0, h.end.1).text,
                    body: Box::new(formula(body)->0),
                },
            )
        }),
{
    let h = head_at(l, 0)->0;
    let start = skip(body, 0);
    lemma_skip(body, 0);
    lemma_reading_formula(body);
    let (t, q) = expr_at(body, start)->0;
    assert(expr_at(l, h.body) == Some((t, q + ox)) && skip(l, q + ox) == l.len() - 1 && 0 < h.body
        <= l.len()) by {
        lemma_skip_moved(body, l, ox, Rule::File, 0);
        lemma_rules_advance(body, start);
        lemma_expr(body, l, ox, Rule::File, start);
        lemma_skip_moved(body, l, ox, Rule::File, q);
    }
    let whole = node(
        Rule::Summation,
        seq![
            mark(Rule::Sigma),
            token(Rule::Ident, l, h.var.0, h.var.1),
            token(Rule::Number, l, h.start.0, h.start.1),
            token(Rule::Number, l, h.end.0, h.end.1),
            t,
        ],
    );
    assert(at(l, l.len() - 1, 0x29));
    assert(summation_at(l, 0) == Some((whole, l.len() as int)));
    assert(skip(l, 0) == 0);
    assert(number_end(l, 0) is None);
    assert(ident_end(l, 0) is None);
    assert(atom_at(l, 0) == Some((node(Rule::Atom, seq![whole]), l.len() as int)));
    lemma_skip(l, l.len() as int);
    assert(ast_of(node(Rule::Atom, seq![whole])) == ast_of(whole));
}

/// `Σ`, a name, `=`, a number, `to`, a number and a formula between
/// brackets make a summation: the text is an atom, and stands for the
/// summation of what the formula stands for, over the name and between
/// the two numbers.
pub proof fn lemma_summation_reading(v: Seq<u8>, a: Seq<u8>, b: Seq<u8>, body: Seq<u8>)
    requires
        is_name(v),
        is_number(a),
        is_number(b),
        formula(body) is Some,
    ensures
        reading(Rule::Atom, summation_text(v, a, b, body)) == Some(
            Ast::Sum {
                var: word_of(v),
                start: word_of(a),
                end: word_of(b),
                body: Box::new(formula(body)->0),
            },
        ),
{
    let l = summation_text(v, a, b, body);
    let ox = 6 + v.len() + a.len() + b.len();
    lemma_summation_pieces(v, a, b, body);
    lemma_summation_head(l, v, a, b);
    lemma_summation_body(l, body, ox as int);
}

/// Blanks before and after an operator change nothing.
pub proof fn lemma_blanks_at_operator(
    level: Rule,
    x: Seq<u8>,
    before: Seq<u8>,
    b: u8,
    after: Seq<u8>,
    y: Seq<u8>,
)
    requires
        level == Rule::Sum || level == Rule::Product,
        strikes(level, b),
        blank(before),
        blank(after),
        reading(level, x) is Some,
        reading(below(level), y) is Some,
    ensures
        reading(level, joined(x + before, b, after + y)) == reading(level, joined(x, b, y)),
{
    let none = Seq::<u8>::empty();
    lemma_blanks_around_reading(level, none, x, before);
    assert(none + x + before =~= x + before);
    lemma_blanks_around_reading(below(level), after, y, none);
    assert(after + y + none =~= after + y);
    lemma_join(level, x, b, y);
    lemma_join(level, x + before, b, after + y);
}

/// The values of a sum, a difference, a product or a quotient of two texts
/// are what `arith` makes of a value of the left text and a value of the
/// right text.
pub proof fn lemma_join_value<N: Fn(&str) -> u64, A: Fn(Op, u64, u64) -> u64>(
    level: Rule,
    x: Seq<u8>,
    b: u8,
    y: Seq<u8>,
    env: Map<Seq<char>, u64>,
    number: &N,
    arith: &A,
    r: u64,
)
    requires
        level == Rule::Sum || level == Rule::Product,
        strikes(level, b),
        reading(level, x) is Some,
        reading(below(level), y) is Some,
    ensures
        reading(level, joined(x, b, y)) is Some,
        evaluates(reading(level, joined(x, b, y))->0, env, number, arith, r) == (exists|
            u: u64,
            v: u64,
        |
            evaluates(reading(level, x)->0, env, number, arith, u) && evaluates(
                reading(below(level), y)->0,
                env,
                number,
                arith,
                v,
            ) && #[trigger] call_ensures(*arith, (sign(b), u, v), r)),
{
    lemma_join(level, x, b, y);
}

/// The values of a power of two texts are what `arith` makes of a value of
/// the left text and a value of the right text.
pub proof fn lemma_join_power_value<N: Fn(&str) -> u64, A: Fn(Op, u64, u64) -> u64>(
    x: Seq<u8>,
    y: Seq<u8>,
    env: Map<Seq<char>, u64>,
    number: &N,
    arith: &A,
    r: u64,
)
    requires
        reading(Rule::Atom, x) is Some,
        reading(Rule::Power, y) is Some,
    ensures
        reading(Rule::Power, joined(x, 0x5e, y)) is Some,
        evaluates(reading(Rule::Power, joined(x, 0x5e, y))->0, env, number, arith, r) == (exists|
            u: u64,
            v: u64,
        |
            evaluates(reading(Rule::Atom, x)->0, env, number, arith, u) && evaluates(
                reading(Rule::Power, y)->0,
                env,
                number,
                arith,
                v,
            ) && #[trigger] call_ensures(*arith, (Op::Pow, u, v), r)),
{
    lemma_join_power(x, y);
}

} // verus!

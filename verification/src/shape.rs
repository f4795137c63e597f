//! What the trees of the grammar look like, and what follows for the
//! expressions: every number in them is a numeral, every name an
//! identifier.

use crate::ast::{ast_of, formula, left_fold, right_fold, Ast};
use crate::eval::literals;
use crate::grammar::{
    assign_at, at, atom_at, below, chain_at, complete, digits_end, expr_at, file_tree, head_at,
    ident_end, is_digit, is_level, is_word, joins, lemma_digits_end, lemma_skip, lemma_word_end,
    mark, node, number_end, operand_at, operator_at, rank, skip, summation_at, tail_at, token,
    word_end, Rule, Tree,
};
use vstd::prelude::*;
use vstd::utf8::decode_utf8;

verus! {

/// True when the bytes `b` are one number of the grammar, no more and no
/// less.
pub open spec fn is_numeral(b: Seq<u8>) -> bool {
    number_end(b, 0) == Some(b.len() as int)
}

/// True when the bytes `b` are one identifier of the grammar, no more and
/// no less.
pub open spec fn is_identifier(b: Seq<u8>) -> bool {
    ident_end(b, 0) == Some(b.len() as int)
}

/// True when `text` is the characters of a number of the grammar.
pub open spec fn numeral(text: Seq<char>) -> bool {
    exists|b: Seq<u8>| #[trigger] is_numeral(b) && text == decode_utf8(b)
}

/// True when `text` is the characters of an identifier of the grammar.
pub open spec fn identifier(text: Seq<char>) -> bool {
    exists|b: Seq<u8>| #[trigger] is_identifier(b) && text == decode_utf8(b)
}

/// In a cut that ends with digits, a run of digits ends where the cut
/// ends.
proof fn lemma_digits_cut(s: Seq<u8>, p: int, q: int, i: int)
    requires
        0 <= p <= i <= q <= s.len(),
        forall|k: int| i <= k < q ==> is_digit(#[trigger] s[k]),
    ensures
        digits_end(s.subrange(p, q), i - p) == q - p,
    decreases q - i,
{
    let cut = s.subrange(p, q);
    if i < q {
        assert(cut[i - p] == s[i]);
        lemma_digits_cut(s, p, q, i + 1);
    }
}

/// In a cut, a run of digits ends at the byte at which it ends in the
/// text.
proof fn lemma_digits_stop(s: Seq<u8>, p: int, q: int, i: int, e: int)
    requires
        0 <= p <= i <= e < q <= s.len(),
        forall|k: int| i <= k < e ==> is_digit(#[trigger] s[k]),
        !is_digit(s[e]),
    ensures
        digits_end(s.subrange(p, q), i - p) == e - p,
    decreases e - i,
{
    let cut = s.subrange(p, q);
    if i < e {
        assert(cut[i - p] == s[i]);
        lemma_digits_stop(s, p, q, i + 1, e);
    } else {
        assert(cut[e - p] == s[e]);
    }
}

/// In a cut that ends with a word, the word ends where the cut ends.
proof fn lemma_word_cut(s: Seq<u8>, p: int, q: int, i: int)
    requires
        0 <= p <= i <= q <= s.len(),
        forall|k: int| i <= k < q ==> is_word(#[trigger] s[k]),
    ensures
        word_end(s.subrange(p, q), i - p) == q - p,
    decreases q - i,
{
    let cut = s.subrange(p, q);
    if i < q {
        assert(cut[i - p] == s[i]);
        lemma_word_cut(s, p, q, i + 1);
    }
}

/// The bytes of a number that the grammar finds in a text are a numeral.
pub proof fn lemma_numeral_cut(s: Seq<u8>, p: int)
    requires
        0 <= p,
        number_end(s, p) is Some,
    ensures
        p < number_end(s, p)->0 <= s.len(),
        is_numeral(s.subrange(p, number_end(s, p)->0)),
{
    let q = number_end(s, p)->0;
    let a = if at(s, p, 0x2d) {
        p + 1
    } else {
        p
    };
    lemma_digits_end(s, a);
    lemma_digits_end(s, a + 1);
    let b = digits_end(s, a);
    let cut = s.subrange(p, q);
    if at(s, b, 0x2e) && b + 1 < s.len() && is_digit(s[b + 1]) {
        lemma_digits_end(s, b + 1);
        assert(cut[0] == s[p]);
        assert(cut[a - p] == s[a]);
        lemma_digits_stop(s, p, q, a, b);
        assert(cut[b - p] == s[b]);
        assert(cut[b + 1 - p] == s[b + 1]);
        lemma_digits_cut(s, p, q, b + 1);
    } else {
        assert(cut[0] == s[p]);
        assert(cut[a - p] == s[a]);
        lemma_digits_cut(s, p, q, a);
    }
}

/// The bytes of an identifier that the grammar finds in a text are an
/// identifier.
pub proof fn lemma_identifier_cut(s: Seq<u8>, p: int)
    requires
        0 <= p,
        ident_end(s, p) is Some,
    ensures
        p < ident_end(s, p)->0 <= s.len(),
        is_identifier(s.subrange(p, ident_end(s, p)->0)),
{
    let q = ident_end(s, p)->0;
    lemma_word_end(s, p + 1);
    let cut = s.subrange(p, q);
    assert(cut[0] == s[p]);
    lemma_word_cut(s, p, q, p + 1);
}

/// True when `t` is built as the grammar builds its trees: every node has
/// the subtrees of its rule, in their order, a `Number` holds a numeral
/// and an `Ident` an identifier.
pub open spec fn conforms(t: Tree) -> bool
    decreases t,
{
    match t.rule {
        Rule::File => t.inner.len() == 1 && t.inner[0].rule == Rule::Expr && conforms(
            t.inner[0],
        ),
        Rule::Expr => t.inner.len() == 1 && (t.inner[0].rule == Rule::Assign || t.inner[0].rule
            == Rule::Sum) && conforms(t.inner[0]),
        Rule::Assign => t.inner.len() == 2 && t.inner[0].rule == Rule::Ident && conforms(
            t.inner[0],
        ) && t.inner[1].rule == Rule::Sum && conforms(t.inner[1]),
        Rule::Sum | Rule::Product | Rule::Power => {
            &&& t.inner.len() % 2 == 1
            &&& forall|i: int|
                0 <= i < t.inner.len() ==> if i % 2 == 0 {
                    (#[trigger] t.inner[i]).rule == below(t.rule) && conforms(t.inner[i])
                } else {
                    joins(t.rule, t.inner[i].rule) && t.inner[i].inner.len() == 0
                }
        },
        Rule::Atom => t.inner.len() == 1 && (t.inner[0].rule == Rule::Number || t.inner[0].rule
            == Rule::Ident || t.inner[0].rule == Rule::Expr || t.inner[0].rule
            == Rule::Summation) && conforms(t.inner[0]),
        Rule::Summation => {
            &&& t.inner.len() == 5
            &&& t.inner[0] == mark(Rule::Sigma)
            &&& t.inner[1].rule == Rule::Ident && conforms(t.inner[1])
            &&& t.inner[2].rule == Rule::Number && conforms(t.inner[2])
            &&& t.inner[3].rule == Rule::Number && conforms(t.inner[3])
            &&& t.inner[4].rule == Rule::Expr && conforms(t.inner[4])
        },
        Rule::Number => t.inner.len() == 0 && numeral(t.text),
        Rule::Ident => t.inner.len() == 0 && identifier(t.text),
        _ => t.inner.len() == 0,
    }
}

/// True when `inner` holds operands and operators of `level` in turn, each
/// built as the grammar builds it.
pub open spec fn linked(level: Rule, inner: Seq<Tree>) -> bool {
    &&& inner.len() % 2 == 1
    &&& forall|i: int|
        0 <= i < inner.len() ==> if i % 2 == 0 {
            (#[trigger] inner[i]).rule == below(level) && conforms(inner[i])
        } else {
            joins(level, inner[i].rule) && inner[i].inner.len() == 0
        }
}

/// True when a successful result is a tree of `rule`, built as the grammar
/// builds it.
pub open spec fn fits(rule: Rule, r: Option<(Tree, int)>) -> bool {
    r matches Some((t, q)) ==> t.rule == rule && conforms(t)
}

/// The leaf of a number conforms.
proof fn lemma_number_leaf(s: Seq<u8>, p: int)
    requires
        0 <= p,
        number_end(s, p) is Some,
    ensures
        conforms(token(Rule::Number, s, p, number_end(s, p)->0)),
{
    lemma_numeral_cut(s, p);
    assert(is_numeral(s.subrange(p, number_end(s, p)->0)));
}

/// The leaf of an identifier conforms.
proof fn lemma_ident_leaf(s: Seq<u8>, p: int)
    requires
        0 <= p,
        ident_end(s, p) is Some,
    ensures
        conforms(token(Rule::Ident, s, p, ident_end(s, p)->0)),
{
    lemma_identifier_cut(s, p);
    assert(is_identifier(s.subrange(p, ident_end(s, p)->0)));
}

/// What `expr` gives conforms.
proof fn lemma_fits_expr(s: Seq<u8>, p: int)
    requires
        0 <= p <= s.len(),
    ensures
        fits(Rule::Expr, expr_at(s, p)),
    decreases s.len() - p, 9int,
{
    lemma_fits_assign(s, p);
    lemma_fits_chain(Rule::Sum, s, p);
}

/// What `assign` gives conforms.
proof fn lemma_fits_assign(s: Seq<u8>, p: int)
    requires
        0 <= p <= s.len(),
    ensures
        fits(Rule::Assign, assign_at(s, p)),
    decreases s.len() - p, 8int,
{
    if let Some(i) = ident_end(s, p) {
        lemma_word_end(s, p + 1);
        lemma_skip(s, i);
        let j = skip(s, i);
        if at(s, j, 0x3d) {
            lemma_skip(s, j + 1);
            lemma_fits_chain(Rule::Sum, s, skip(s, j + 1));
            lemma_ident_leaf(s, p);
        }
    }
}

/// What the operand of a level gives conforms.
proof fn lemma_fits_operand(level: Rule, s: Seq<u8>, p: int)
    requires
        0 <= p <= s.len(),
        is_level(level),
    ensures
        fits(below(level), operand_at(level, s, p)),
    decreases s.len() - p, rank(level) - 1,
{
    match level {
        Rule::Sum => lemma_fits_chain(Rule::Product, s, p),
        Rule::Product => lemma_fits_chain(Rule::Power, s, p),
        _ => lemma_fits_atom(s, p),
    }
}

/// What a level gives conforms.
proof fn lemma_fits_chain(level: Rule, s: Seq<u8>, p: int)
    requires
        0 <= p <= s.len(),
        is_level(level),
    ensures
        fits(level, chain_at(level, s, p)),
    decreases s.len() - p, rank(level),
{
    lemma_fits_operand(level, s, p);
    if let Some((t, q)) = operand_at(level, s, p) {
        if p <= q <= s.len() {
            lemma_fits_tail(level, s, q, seq![t]);
        }
    }
}

/// What the repeated part of a level adds is linked.
proof fn lemma_fits_tail(level: Rule, s: Seq<u8>, p: int, acc: Seq<Tree>)
    requires
        0 <= p <= s.len(),
        is_level(level),
        linked(level, acc),
    ensures
        linked(level, tail_at(level, s, p, acc).0),
    decreases s.len() - p, rank(level) - 2,
{
    lemma_skip(s, p);
    let j = skip(s, p);
    if let Some(op) = operator_at(level, s, j) {
        lemma_skip(s, j + 1);
        let k = skip(s, j + 1);
        lemma_fits_operand(level, s, k);
        if let Some((t, q)) = operand_at(level, s, k) {
            if p < q <= s.len() {
                let more = acc.push(mark(op)).push(t);
                assert forall|i: int| 0 <= i < more.len() implies if i % 2 == 0 {
                    (#[trigger] more[i]).rule == below(level) && conforms(more[i])
                } else {
                    joins(level, more[i].rule) && more[i].inner.len() == 0
                } by {
                    if i < acc.len() {
                        assert(more[i] == acc[i]);
                    }
                }
                lemma_fits_tail(level, s, q, more);
            }
        }
    }
}

/// What `atom` gives conforms.
proof fn lemma_fits_atom(s: Seq<u8>, p: int)
    requires
        0 <= p <= s.len(),
    ensures
        fits(Rule::Atom, atom_at(s, p)),
    decreases s.len() - p, 1int,
{
    if number_end(s, p) is Some {
        lemma_number_leaf(s, p);
    } else if ident_end(s, p) is Some {
        lemma_ident_leaf(s, p);
    } else if at(s, p, 0x28) {
        lemma_skip(s, p + 1);
        lemma_fits_expr(s, skip(s, p + 1));
    } else {
        lemma_fits_summation(s, p);
    }
}

/// What `summation` gives conforms.
proof fn lemma_fits_summation(s: Seq<u8>, p: int)
    requires
        0 <= p <= s.len(),
    ensures
        fits(Rule::Summation, summation_at(s, p)),
    decreases s.len() - p, 0int,
{
    if let Some(h) = head_at(s, p) {
        if p < h.body <= s.len() {
            lemma_fits_expr(s, h.body);
            lemma_skip(s, p + 2);
            lemma_ident_leaf(s, h.var.0);
            let b = ident_end(s, h.var.0)->0;
            lemma_word_end(s, h.var.0 + 1);
            lemma_skip(s, b);
            let c = skip(s, b);
            lemma_skip(s, c + 1);
            lemma_number_leaf(s, h.start.0);
            lemma_numeral_cut(s, h.start.0);
            let e = number_end(s, h.start.0)->0;
            lemma_skip(s, e);
            let f = skip(s, e);
            lemma_skip(s, f + 2);
            lemma_number_leaf(s, h.end.0);
        }
    }
}

/// The tree of a formula is built as the grammar builds its trees.
pub proof fn lemma_tree_conforms(s: Seq<u8>)
    ensures
        file_tree(s) matches Some(t) ==> conforms(t),
{
    lemma_skip(s, 0);
    lemma_fits_expr(s, skip(s, 0));
}

/// A tree that is built as the grammar builds its trees is complete.
pub proof fn lemma_conforms_complete(t: Tree)
    requires
        conforms(t),
    ensures
        complete(t),
    decreases t,
{
    match t.rule {
        Rule::File | Rule::Expr | Rule::Atom => lemma_conforms_complete(t.inner[0]),
        Rule::Assign => lemma_conforms_complete(t.inner[1]),
        Rule::Summation => lemma_conforms_complete(t.inner[4]),
        Rule::Sum | Rule::Product | Rule::Power => {
            assert forall|i: int| 0 <= i < t.inner.len() implies if i % 2 == 0 {
                complete(#[trigger] t.inner[i])
            } else {
                joins(t.rule, t.inner[i].rule)
            } by {
                if i % 2 == 0 {
                    lemma_conforms_complete(t.inner[i]);
                }
            }
        },
        _ => {},
    }
}

/// True when every number of `a` and every bound of its summations is a
/// numeral, and every name an identifier.
pub open spec fn well_formed(a: Ast) -> bool
    decreases a,
{
    match a {
        Ast::Num(text) => numeral(text),
        Ast::Var(name) => identifier(name),
        Ast::Binary(op, x, y) => well_formed(*x) && well_formed(*y),
        Ast::Assign(x) => well_formed(*x),
        Ast::Sum { var, start, end, body } => identifier(var) && numeral(start) && numeral(end)
            && well_formed(*body),
    }
}

/// True for the rules whose trees stand for an expression: all but the
/// operators.
pub open spec fn is_expression(rule: Rule) -> bool {
    rule == Rule::File || rule == Rule::Expr || rule == Rule::Assign || rule == Rule::Sum || rule
        == Rule::Product || rule == Rule::Power || rule == Rule::Atom || rule == Rule::Summation
        || rule == Rule::Number || rule == Rule::Ident
}

/// The expression of a tree that is built as the grammar builds its trees
/// is well formed.
pub proof fn lemma_ast_well_formed(t: Tree)
    requires
        conforms(t),
        is_expression(t.rule),
    ensures
        well_formed(ast_of(t)),
    decreases t, 0int,
{
    match t.rule {
        Rule::File | Rule::Expr | Rule::Atom => lemma_ast_well_formed(t.inner[0]),
        Rule::Assign => lemma_ast_well_formed(t.inner[1]),
        Rule::Summation => {
            lemma_ast_well_formed(t.inner[4]);
            assert(identifier(t.inner[1].text)) by {
                assert(conforms(t.inner[1]));
            }
            assert(numeral(t.inner[2].text)) by {
                assert(conforms(t.inner[2]));
            }
            assert(numeral(t.inner[3].text)) by {
                assert(conforms(t.inner[3]));
            }
        },
        Rule::Sum | Rule::Product => lemma_left_fold_well_formed(
            t.rule,
            t.inner,
            (t.inner.len() - 1) / 2,
        ),
        Rule::Power => lemma_right_fold_well_formed(t.inner, 0),
        _ => {},
    }
}

/// Operands grouped to the left are well formed.
proof fn lemma_left_fold_well_formed(level: Rule, inner: Seq<Tree>, k: int)
    requires
        is_level(level),
        linked(level, inner),
        0 <= k,
        2 * k < inner.len(),
    ensures
        well_formed(left_fold(inner, k)),
    decreases inner, k,
{
    if k > 0 {
        lemma_left_fold_well_formed(level, inner, k - 1);
        assert(inner[2 * k].rule == below(level));
        lemma_ast_well_formed(inner[2 * k]);
    } else {
        assert(inner[0].rule == below(level));
        lemma_ast_well_formed(inner[0]);
    }
}

/// Operands grouped to the right are well formed.
proof fn lemma_right_fold_well_formed(inner: Seq<Tree>, i: int)
    requires
        linked(Rule::Power, inner),
        0 <= i,
        2 * i < inner.len(),
    ensures
        well_formed(right_fold(inner, i)),
    decreases inner, inner.len() - i,
{
    assert(inner[2 * i].rule == below(Rule::Power));
    lemma_ast_well_formed(inner[2 * i]);
    if 2 * i + 2 < inner.len() {
        lemma_right_fold_well_formed(inner, i + 1);
    }
}

/// The expression of a formula is well formed.
pub proof fn lemma_formula_well_formed(s: Seq<u8>)
    ensures
        formula(s) matches Some(a) ==> well_formed(a),
{
    lemma_tree_conforms(s);
    if let Some(t) = file_tree(s) {
        lemma_ast_well_formed(t);
    }
}

/// Every literal of a well-formed expression is a numeral.
pub proof fn lemma_literals_numerals(a: Ast, text: Seq<char>)
    requires
        well_formed(a),
        literals(a).contains(text),
    ensures
        numeral(text),
    decreases a,
{
    match a {
        Ast::Binary(op, x, y) => {
            if literals(*x).contains(text) {
                lemma_literals_numerals(*x, text);
            } else {
                lemma_literals_numerals(*y, text);
            }
        },
        Ast::Assign(x) => lemma_literals_numerals(*x, text),
        Ast::Sum { var, start, end, body } => {
            if literals(*body).contains(text) {
                lemma_literals_numerals(*body, text);
            }
        },
        _ => {},
    }
}

} // verus!

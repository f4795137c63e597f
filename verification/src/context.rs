//! A formula inside a longer text: blanks before and after it change
//! nothing, and neither does a pair of brackets around it.
//!
//! Both rest on one comparison, rule by rule, of a text with a longer one
//! that holds a copy of it, followed by `)`, by blanks alone, or by an
//! operator. The two are read alike, with two exceptions. The reading of
//! the short text may run into its end while a `)` is still owed or an
//! operand is still missing; what was read so far is then no part of a
//! formula that fills the short text. And where the longer text goes on
//! with an operator, a rule that reached the end of the short text may take
//! the operator up.

use crate::ast::{ast_of, first, formula, left_fold, reading, right_fold, Op};
use crate::eval::evaluates;
use crate::grammar::{
    assign_at, at, atom_at, below, chain_at, digits_end, expr_at, file_tree, head_at, ident_end,
    is_blank, is_digit, is_level, is_word, lemma_digits_end, lemma_skip, lemma_word_end, mark, node,
    number_end, operand_at, operator_at, rank, skip, summation_at, tail_at, token, word_end, Head,
    Rule, Tree,
};
use vstd::prelude::*;

verus! {

/// True when `long` holds a copy of `short` from position `d` on, and
/// right after the copy, if `top` is a level of operators, an operator of
/// that level, and otherwise either `)` or nothing but blanks.
pub open spec fn holds(short: Seq<u8>, long: Seq<u8>, d: int, top: Rule) -> bool {
    &&& 0 <= d
    &&& short.len() + d <= long.len()
    &&& forall|i: int| 0 <= i < short.len() ==> long[i + d] == #[trigger] short[i]
    &&& if is_level(top) {
        operator_at(top, long, short.len() + d) is Some
    } else {
        at(long, short.len() + d, 0x29) || skip(long, short.len() + d) == long.len()
    }
}

/// Orders the rules by how loosely they bind.
pub open spec fn grade(rule: Rule) -> int {
    match rule {
        Rule::Power => 3,
        Rule::Product => 5,
        Rule::Sum => 7,
        Rule::Assign => 8,
        Rule::Expr => 9,
        _ => 1,
    }
}

/// True when `rule` can go on with an operator of the level `top`.
pub open spec fn reaches(rule: Rule, top: Rule) -> bool {
    is_level(top) && grade(rule) >= grade(top)
}

/// True when `b` is an operator of the level `top`.
pub open spec fn strikes(top: Rule, b: u8) -> bool {
    match top {
        Rule::Sum => b == 0x2b || b == 0x2d,
        Rule::Product => b == 0x2a || b == 0x2f,
        Rule::Power => b == 0x5e,
        _ => false,
    }
}

/// The place in `long` of the place `x` in `short`: `d` further on, but for
/// the end of `short`, which goes to where the blanks after the copy end.
pub open spec fn image(short: Seq<u8>, long: Seq<u8>, d: int, x: int) -> int {
    if x < short.len() {
        x + d
    } else {
        skip(long, short.len() + d)
    }
}

/// The same result, `d` positions further on.
pub open spec fn moved(r: Option<(Tree, int)>, d: int) -> Option<(Tree, int)> {
    match r {
        Some((t, q)) => Some((t, q + d)),
        None => None,
    }
}

/// The bytes that can stand after an incomplete part of a rule: the
/// operators of the levels below it, and `=` after an expression.
pub open spec fn loose(rule: Rule, b: u8) -> bool {
    match rule {
        Rule::Power => b == 0x5e,
        Rule::Product => b == 0x5e || b == 0x2a || b == 0x2f,
        Rule::Sum | Rule::Assign => b == 0x5e || b == 0x2a || b == 0x2f || b == 0x2b || b == 0x2d,
        Rule::Expr => b == 0x5e || b == 0x2a || b == 0x2f || b == 0x2b || b == 0x2d || b == 0x3d,
        _ => false,
    }
}

/// True when the first byte after `q` that is no blank is loose for `rule`.
pub open spec fn open_at(rule: Rule, s: Seq<u8>, q: int) -> bool {
    skip(s, q) < s.len() && loose(rule, s[skip(s, q)])
}

/// True when a result in `s` is a failure or leaves a loose byte behind.
/// Such a result never is part of a formula that fills `s`.
pub open spec fn spoiled(rule: Rule, s: Seq<u8>, r: Option<(Tree, int)>) -> bool {
    match r {
        Some((t, q)) => open_at(rule, s, q),
        None => true,
    }
}

/// True when a result in `s` ends where `s` ends, bar blanks.
pub open spec fn touches(s: Seq<u8>, r: Option<(Tree, int)>) -> bool {
    match r {
        Some((t, q)) => skip(s, q) == s.len(),
        None => false,
    }
}

/// True when a result in `s` may be read otherwise in a longer text: it is
/// spoiled, or it ends where `s` ends, bar blanks, and the longer text goes
/// on with an operator that `rule` can take up.
pub open spec fn parted(rule: Rule, s: Seq<u8>, r: Option<(Tree, int)>, top: Rule) -> bool {
    spoiled(rule, s, r) || (reaches(rule, top) && touches(s, r))
}

/// True when a successful result that started at `p` ends after `p` and
/// within `s`.
pub open spec fn within(s: Seq<u8>, p: int, r: Option<(Tree, int)>) -> bool {
    r matches Some((t, q)) ==> p < q <= s.len()
}

/// Blanks are skipped in the copy as in the text itself.
pub(crate) proof fn lemma_skip_moved(s: Seq<u8>, l: Seq<u8>, d: int, top: Rule, p: int)
    requires
        holds(s, l, d, top),
        0 <= p <= s.len(),
    ensures
        skip(l, p + d) == image(s, l, d, skip(s, p)),
        p <= skip(s, p) <= s.len(),
        p + d <= image(s, l, d, skip(s, p)) <= l.len(),
    decreases s.len() - p,
{
    lemma_skip(l, s.len() + d);
    if p < s.len() {
        assert(l[p + d] == s[p]);
        if is_blank(s[p]) {
            lemma_skip_moved(s, l, d, top, p + 1);
        }
    }
}

/// A run of digits ends in the copy as in the text itself.
pub(crate) proof fn lemma_digits_moved(s: Seq<u8>, l: Seq<u8>, d: int, top: Rule, p: int)
    requires
        holds(s, l, d, top),
        0 <= p <= s.len(),
    ensures
        digits_end(l, p + d) == digits_end(s, p) + d,
    decreases s.len() - p,
{
    if p < s.len() {
        assert(l[p + d] == s[p]);
        if is_digit(s[p]) {
            lemma_digits_moved(s, l, d, top, p + 1);
        }
    }
}

/// A word ends in the copy as in the text itself.
pub(crate) proof fn lemma_word_moved(s: Seq<u8>, l: Seq<u8>, d: int, top: Rule, p: int)
    requires
        holds(s, l, d, top),
        0 <= p <= s.len(),
    ensures
        word_end(l, p + d) == word_end(s, p) + d,
    decreases s.len() - p,
{
    if p < s.len() {
        assert(l[p + d] == s[p]);
        if is_word(s[p]) {
            lemma_word_moved(s, l, d, top, p + 1);
        }
    }
}

/// A byte stands at a place of `s` exactly when it stands at that place
/// of the copy; at the end of `s` this holds of the bytes that cannot
/// stand right after the copy.
pub(crate) proof fn lemma_at_moved(s: Seq<u8>, l: Seq<u8>, d: int, top: Rule, p: int, b: u8)
    requires
        holds(s, l, d, top),
        0 <= p <= s.len(),
    ensures
        p < s.len() || (b != 0x29 && !is_blank(b) && !strikes(top, b)) ==> at(l, p + d, b) == at(
            s,
            p,
            b,
        ) && at(l, image(s, l, d, p), b) == at(s, p, b),
{
    lemma_skip(l, s.len() + d);
    if p < s.len() {
        assert(l[p + d] == s[p]);
    }
}

/// An identifier is found in the copy as in the text itself.
pub(crate) proof fn lemma_ident_moved(s: Seq<u8>, l: Seq<u8>, d: int, top: Rule, p: int)
    requires
        holds(s, l, d, top),
        0 <= p <= s.len(),
    ensures
        ident_end(l, p + d) == match ident_end(s, p) {
            Some(q) => Some(q + d),
            None => None,
        },
        ident_end(l, image(s, l, d, p)) == ident_end(l, p + d),
        ident_end(s, p) matches Some(q) ==> p < q <= s.len(),
{
    lemma_skip(l, s.len() + d);
    if p < s.len() {
        assert(l[p + d] == s[p]);
        lemma_word_moved(s, l, d, top, p + 1);
        lemma_word_end(s, p + 1);
    }
}

/// A number is found in the copy as in the text itself.
pub(crate) proof fn lemma_number_moved(s: Seq<u8>, l: Seq<u8>, d: int, top: Rule, p: int)
    requires
        holds(s, l, d, top),
        0 <= p <= s.len(),
    ensures
        p < s.len() ==> number_end(l, p + d) == match number_end(s, p) {
            Some(q) => Some(q + d),
            None => None,
        },
        p < s.len() ==> number_end(l, image(s, l, d, p)) == number_end(l, p + d),
        number_end(s, p) matches Some(q) ==> p < q <= s.len(),
{
    lemma_skip(l, s.len() + d);
    lemma_at_moved(s, l, d, top, p, 0x2d);
    let a = if at(s, p, 0x2d) {
        p + 1
    } else {
        p
    };
    if a < s.len() {
        assert(l[a + d] == s[a]);
        if is_digit(s[a]) {
            lemma_digits_moved(s, l, d, top, a);
            lemma_digits_end(s, a);
            lemma_digits_end(s, a + 1);
            let b = digits_end(s, a);
            lemma_at_moved(s, l, d, top, b, 0x2e);
            if b + 1 < s.len() {
                assert(l[b + 1 + d] == s[b + 1]);
                lemma_digits_moved(s, l, d, top, b + 1);
                lemma_digits_end(s, b + 1);
            }
        }
    }
}

/// The same bytes make the same leaf, wherever they stand.
pub(crate) proof fn lemma_token_moved(
    rule: Rule,
    s: Seq<u8>,
    l: Seq<u8>,
    d: int,
    top: Rule,
    p: int,
    q: int,
)
    requires
        holds(s, l, d, top),
        0 <= p <= q <= s.len(),
    ensures
        token(rule, l, p + d, q + d) == token(rule, s, p, q),
{
    assert(l.subrange(p + d, q + d) =~= s.subrange(p, q));
}

/// An operator is found in the copy as in the text itself, but for the
/// operator that stands right after the copy.
pub(crate) proof fn lemma_operator_moved(
    level: Rule,
    s: Seq<u8>,
    l: Seq<u8>,
    d: int,
    top: Rule,
    p: int,
)
    requires
        holds(s, l, d, top),
        0 <= p <= s.len(),
        is_level(level),
    ensures
        operator_at(level, l, image(s, l, d, p)) == operator_at(level, s, p) || (p == s.len()
            && level == top),
        operator_at(level, s, p) is Some ==> p < s.len() && loose(level, s[p]),
{
    lemma_at_moved(s, l, d, top, p, 0x2b);
    lemma_at_moved(s, l, d, top, p, 0x2d);
    lemma_at_moved(s, l, d, top, p, 0x2a);
    lemma_at_moved(s, l, d, top, p, 0x2f);
    lemma_at_moved(s, l, d, top, p, 0x5e);
}

/// The head of a summation, `d` positions further on.
pub open spec fn moved_head(h: Option<Head>, d: int) -> Option<
    Head,
> {
    match h {
        Some(h) => Some(
            Head {
                var: (h.var.0 + d, h.var.1 + d),
                start: (h.start.0 + d, h.start.1 + d),
                end: (h.end.0 + d, h.end.1 + d),
                body: h.body + d,
            },
        ),
        None => None,
    }
}

/// The head of a summation is found in the copy as in the text itself.
pub(crate) proof fn lemma_head_moved(s: Seq<u8>, l: Seq<u8>, d: int, top: Rule, p: int)
    requires
        holds(s, l, d, top),
        0 <= p <= s.len(),
    ensures
        head_at(s, p) matches Some(h) ==> h.body < s.len() ==> head_at(l, p + d) == moved_head(
            head_at(s, p),
            d,
        ),
        head_at(s, p) matches Some(h) ==> {
            &&& p < h.var.0 <= h.var.1 <= s.len()
            &&& 0 <= h.start.0 <= h.start.1 <= s.len()
            &&& 0 <= h.end.0 <= h.end.1 <= s.len()
            &&& p < h.body <= s.len()
        },
{
    lemma_at_moved(s, l, d, top, p, 0xce);
    if at(s, p, 0xce) {
        lemma_at_moved(s, l, d, top, p + 1, 0xa3);
        if at(s, p + 1, 0xa3) {
            lemma_skip_moved(s, l, d, top, p + 2);
            lemma_skip(s, p + 2);
            let a = skip(s, p + 2);
            lemma_ident_moved(s, l, d, top, a);
            if let Some(b) = ident_end(s, a) {
                lemma_skip_moved(s, l, d, top, b);
                lemma_skip(s, b);
                let c = skip(s, b);
                lemma_at_moved(s, l, d, top, c, 0x3d);
                if at(s, c, 0x3d) {
                    lemma_skip_moved(s, l, d, top, c + 1);
                    lemma_skip(s, c + 1);
                    let e0 = skip(s, c + 1);
                    lemma_number_moved(s, l, d, top, e0);
                    if let Some(e) = number_end(s, e0) {
                        lemma_skip_moved(s, l, d, top, e);
                        lemma_skip(s, e);
                        let f = skip(s, e);
                        lemma_at_moved(s, l, d, top, f, 0x74);
                        if at(s, f, 0x74) {
                            lemma_at_moved(s, l, d, top, f + 1, 0x6f);
                            if at(s, f + 1, 0x6f) {
                                lemma_skip_moved(s, l, d, top, f + 2);
                                lemma_skip(s, f + 2);
                                let g = skip(s, f + 2);
                                lemma_number_moved(s, l, d, top, g);
                                if let Some(h) = number_end(s, g) {
                                    lemma_skip_moved(s, l, d, top, h);
                                    lemma_skip(s, h);
                                    let i = skip(s, h);
                                    lemma_at_moved(s, l, d, top, i, 0x28);
                                    if at(s, i, 0x28) {
                                        lemma_skip_moved(s, l, d, top, i + 1);
                                        lemma_skip(s, i + 1);
                                    }
                                }
                            }
                        }
                    }
                }
            }
        }
    }
}

/// `expr` reads the copy as the text itself, or what it reads in the text
/// is parted.
pub(crate) proof fn lemma_expr(s: Seq<u8>, l: Seq<u8>, d: int, top: Rule, p: int)
    requires
        holds(s, l, d, top),
        0 <= p <= s.len(),
    ensures
        within(s, p, expr_at(s, p)),
        expr_at(l, p + d) == moved(expr_at(s, p), d) || parted(
            Rule::Expr,
            s,
            expr_at(s, p),
            top,
        ),
    decreases s.len() - p, 9int,
{
    lemma_assign(s, l, d, top, p);
    lemma_chain(Rule::Sum, s, l, d, top, p);
    if assign_at(l, p + d) != moved(assign_at(s, p), d) && assign_at(s, p) is None {
        let i = ident_end(s, p)->0;
        lemma_lone_name(s, p);
    }
}

/// A name with `=` after it is, read as a sum, that name alone.
pub(crate) proof fn lemma_lone_name(s: Seq<u8>, p: int)
    requires
        0 <= p <= s.len(),
        ident_end(s, p) is Some,
        at(s, skip(s, ident_end(s, p)->0), 0x3d),
    ensures
        chain_at(Rule::Sum, s, p) matches Some((t, q)) && q == ident_end(s, p)->0,
{
    let i = ident_end(s, p)->0;
    lemma_word_end(s, p + 1);
    assert(number_end(s, p) is None);
    assert(atom_at(s, p) matches Some((t, q)) && q == i);
    let a = (atom_at(s, p)->0).0;
    assert(operator_at(Rule::Power, s, skip(s, i)) is None);
    assert(tail_at(Rule::Power, s, i, seq![a]) == (seq![a], i));
    assert(chain_at(Rule::Power, s, p) matches Some((t, q)) && q == i);
    let b = (chain_at(Rule::Power, s, p)->0).0;
    assert(operator_at(Rule::Product, s, skip(s, i)) is None);
    assert(tail_at(Rule::Product, s, i, seq![b]) == (seq![b], i));
    assert(chain_at(Rule::Product, s, p) matches Some((t, q)) && q == i);
    let c = (chain_at(Rule::Product, s, p)->0).0;
    assert(operator_at(Rule::Sum, s, skip(s, i)) is None);
    assert(tail_at(Rule::Sum, s, i, seq![c]) == (seq![c], i));
}

/// `assign` reads the copy as the text itself, or what it reads in the
/// text is parted; then the text has a name and `=` at that place.
pub(crate) proof fn lemma_assign(s: Seq<u8>, l: Seq<u8>, d: int, top: Rule, p: int)
    requires
        holds(s, l, d, top),
        0 <= p <= s.len(),
    ensures
        within(s, p, assign_at(s, p)),
        assign_at(l, p + d) == moved(assign_at(s, p), d) || (parted(
            Rule::Assign,
            s,
            assign_at(s, p),
            top,
        ) && ident_end(s, p) is Some && at(s, skip(s, ident_end(s, p)->0), 0x3d)),
    decreases s.len() - p, 8int,
{
    lemma_ident_moved(s, l, d, top, p);
    if let Some(i) = ident_end(s, p) {
        lemma_skip_moved(s, l, d, top, i);
        lemma_skip(s, i);
        let j = skip(s, i);
        lemma_at_moved(s, l, d, top, j, 0x3d);
        if at(s, j, 0x3d) {
            lemma_skip_moved(s, l, d, top, j + 1);
            lemma_skip(s, j + 1);
            let k = skip(s, j + 1);
            lemma_chain(Rule::Sum, s, l, d, top, k);
            lemma_token_moved(Rule::Ident, s, l, d, top, p, i);
        }
    }
}

/// After a byte that is loose for its operand, a level adds nothing.
pub(crate) proof fn lemma_tail_stops(level: Rule, s: Seq<u8>, q: int, acc: Seq<Tree>)
    requires
        is_level(level),
        open_at(below(level), s, q),
    ensures
        tail_at(level, s, q, acc) == (acc, q),
        open_at(level, s, q),
{
}

/// A level reads the copy as the text itself, or what it reads in the
/// text is parted.
pub(crate) proof fn lemma_chain(level: Rule, s: Seq<u8>, l: Seq<u8>, d: int, top: Rule, p: int)
    requires
        holds(s, l, d, top),
        0 <= p <= s.len(),
        is_level(level),
    ensures
        within(s, p, chain_at(level, s, p)),
        chain_at(level, l, p + d) == moved(chain_at(level, s, p), d) || parted(
            level,
            s,
            chain_at(level, s, p),
            top,
        ),
    decreases s.len() - p, rank(level),
{
    lemma_operand(level, s, l, d, top, p);
    if let Some((t, q)) = operand_at(level, s, p) {
        if operand_at(level, l, p + d) == moved(operand_at(level, s, p), d) {
            lemma_tail(level, s, l, d, top, q, seq![t]);
        } else {
            if open_at(below(level), s, q) {
                lemma_tail_stops(level, s, q, seq![t]);
            }
        }
    }
}

/// The operand of a level is read in the copy as in the text itself, or
/// what is read in the text is parted.
pub(crate) proof fn lemma_operand(level: Rule, s: Seq<u8>, l: Seq<u8>, d: int, top: Rule, p: int)
    requires
        holds(s, l, d, top),
        0 <= p <= s.len(),
        is_level(level),
    ensures
        within(s, p, operand_at(level, s, p)),
        operand_at(level, l, p + d) == moved(operand_at(level, s, p), d) || parted(
            below(level),
            s,
            operand_at(level, s, p),
            top,
        ),
    decreases s.len() - p, rank(level) - 1,
{
    match level {
        Rule::Sum => lemma_chain(Rule::Product, s, l, d, top, p),
        Rule::Product => lemma_chain(Rule::Power, s, l, d, top, p),
        _ => lemma_atom(s, l, d, top, p),
    }
}

/// The repeated part of a level reads the copy as the text itself, or it
/// ends in the text before a loose byte, or at the end of the text while
/// the longer text goes on with an operator of a level that it can take up.
pub(crate) proof fn lemma_tail(
    level: Rule,
    s: Seq<u8>,
    l: Seq<u8>,
    d: int,
    top: Rule,
    p: int,
    acc: Seq<Tree>,
)
    requires
        holds(s, l, d, top),
        0 <= p <= s.len(),
        is_level(level),
    ensures
        p <= tail_at(level, s, p, acc).1 <= s.len(),
        tail_at(level, l, p + d, acc) == (
            tail_at(level, s, p, acc).0,
            tail_at(level, s, p, acc).1 + d,
        ) || open_at(level, s, tail_at(level, s, p, acc).1) || (reaches(level, top) && skip(
            s,
            tail_at(level, s, p, acc).1,
        ) == s.len()),
    decreases s.len() - p, rank(level) - 2,
{
    lemma_skip_moved(s, l, d, top, p);
    lemma_skip(s, p);
    let j = skip(s, p);
    lemma_operator_moved(level, s, l, d, top, j);
    if let Some(op) = operator_at(level, s, j) {
        lemma_skip_moved(s, l, d, top, j + 1);
        lemma_skip(s, j + 1);
        let k = skip(s, j + 1);
        lemma_operand(level, s, l, d, top, k);
        if let Some((t, q)) = operand_at(level, s, k) {
            let more = acc.push(mark(op)).push(t);
            if operand_at(level, l, k + d) == moved(operand_at(level, s, k), d) {
                lemma_tail(level, s, l, d, top, q, more);
            } else {
                if open_at(below(level), s, q) {
                    lemma_tail_stops(level, s, q, more);
                }
            }
        }
    }
}

/// `atom` reads the copy as the text itself, or fails in the text.
pub(crate) proof fn lemma_atom(s: Seq<u8>, l: Seq<u8>, d: int, top: Rule, p: int)
    requires
        holds(s, l, d, top),
        0 <= p <= s.len(),
    ensures
        within(s, p, atom_at(s, p)),
        atom_at(l, p + d) == moved(atom_at(s, p), d) || atom_at(s, p) is None,
    decreases s.len() - p, 1int,
{
    lemma_number_moved(s, l, d, top, p);
    lemma_ident_moved(s, l, d, top, p);
    if let Some(q) = number_end(s, p) {
        lemma_token_moved(Rule::Number, s, l, d, top, p, q);
    } else if let Some(q) = ident_end(s, p) {
        lemma_token_moved(Rule::Ident, s, l, d, top, p, q);
    } else {
        lemma_at_moved(s, l, d, top, p, 0x28);
        if at(s, p, 0x28) {
            lemma_skip_moved(s, l, d, top, p + 1);
            lemma_skip(s, p + 1);
            let k = skip(s, p + 1);
            lemma_expr(s, l, d, top, k);
            if let Some((t, q)) = expr_at(s, k) {
                lemma_skip_moved(s, l, d, top, q);
                lemma_skip(s, q);
                let c = skip(s, q);
                if c < s.len() {
                    assert(l[c + d] == s[c]);
                }
            }
        } else {
            lemma_summation(s, l, d, top, p);
        }
    }
}

/// `summation` reads the copy as the text itself, or fails in the text.
pub(crate) proof fn lemma_summation(s: Seq<u8>, l: Seq<u8>, d: int, top: Rule, p: int)
    requires
        holds(s, l, d, top),
        0 <= p <= s.len(),
    ensures
        within(s, p, summation_at(s, p)),
        summation_at(l, p + d) == moved(summation_at(s, p), d) || summation_at(s, p) is None,
    decreases s.len() - p, 0int,
{
    lemma_head_moved(s, l, d, top, p);
    if let Some(h) = head_at(s, p) {
        lemma_expr(s, l, d, top, h.body);
        if let Some((t, q)) = expr_at(s, h.body) {
            lemma_skip_moved(s, l, d, top, q);
            lemma_skip(s, q);
            let c = skip(s, q);
            if c < s.len() {
                assert(l[c + d] == s[c]);
            }
            lemma_token_moved(Rule::Ident, s, l, d, top, h.var.0, h.var.1);
            lemma_token_moved(Rule::Number, s, l, d, top, h.start.0, h.start.1);
            lemma_token_moved(Rule::Number, s, l, d, top, h.end.0, h.end.1);
        }
    }
}

/// The text `s` between `(` and `)`.
pub open spec fn bracketed(s: Seq<u8>) -> Seq<u8> {
    seq![0x28u8] + s + seq![0x29u8]
}

/// A formula between brackets is a formula, and stands for the same
/// expression as without them. It is an atom, too: it can stand wherever a
/// number can.
pub proof fn lemma_bracketed_formula(s: Seq<u8>)
    requires
        formula(s) is Some,
    ensures
        formula(bracketed(s)) == formula(s),
        reading(Rule::Atom, bracketed(s)) == formula(s),
{
    let l = bracketed(s);
    let n = s.len() as int;
    assert(holds(s, l, 1, Rule::File));
    lemma_skip(s, 0);
    let start = skip(s, 0);
    lemma_expr(s, l, 1, Rule::File, start);
    let (t, q) = expr_at(s, start)->0;
    assert(skip(s, q) == n);
    assert(expr_at(l, start + 1) == Some((t, q + 1)));
    lemma_skip_moved(s, l, 1, Rule::File, 0);
    lemma_skip_moved(s, l, 1, Rule::File, q);
    assert(l[0] == 0x28);
    assert(skip(l, 0) == 0);
    assert(number_end(l, 0) is None);
    assert(ident_end(l, 0) is None);
    assert(at(l, n + 1, 0x29));
    let atom = node(Rule::Atom, seq![t]);
    assert(atom_at(l, 0) == Some((atom, n + 2)));
    assert(skip(l, n + 2) == n + 2);
    let power = node(Rule::Power, seq![atom]);
    assert(tail_at(Rule::Power, l, n + 2, seq![atom]) == (seq![atom], n + 2));
    assert(chain_at(Rule::Power, l, 0) == Some((power, n + 2)));
    let product = node(Rule::Product, seq![power]);
    assert(tail_at(Rule::Product, l, n + 2, seq![power]) == (seq![power], n + 2));
    assert(chain_at(Rule::Product, l, 0) == Some((product, n + 2)));
    let sum = node(Rule::Sum, seq![product]);
    assert(tail_at(Rule::Sum, l, n + 2, seq![product]) == (seq![product], n + 2));
    assert(chain_at(Rule::Sum, l, 0) == Some((sum, n + 2)));
    assert(assign_at(l, 0) is None);
    let expr = node(Rule::Expr, seq![sum]);
    assert(expr_at(l, 0) == Some((expr, n + 2)));
    assert(file_tree(l) == Some(node(Rule::File, seq![expr])));
    assert(file_tree(s) == Some(node(Rule::File, seq![t])));
    assert(ast_of(atom) == ast_of(t));
    assert(ast_of(power) == ast_of(atom)) by {
        assert(right_fold(seq![atom], 0) == ast_of(atom));
    }
    assert(ast_of(product) == ast_of(power)) by {
        assert(left_fold(seq![power], 0) == ast_of(power));
    }
    assert(ast_of(sum) == ast_of(product)) by {
        assert(left_fold(seq![product], 0) == ast_of(product));
    }
    assert(ast_of(expr) == ast_of(sum));
    assert(ast_of(node(Rule::File, seq![expr])) == ast_of(expr));
    assert(ast_of(node(Rule::File, seq![t])) == ast_of(t));
}

/// A formula between brackets has the values that it has without them,
/// whatever the variables and the arithmetic are.
pub proof fn lemma_bracketed_value<N: Fn(&str) -> u64, A: Fn(Op, u64, u64) -> u64>(
    s: Seq<u8>,
    env: Map<Seq<char>, u64>,
    number: &N,
    arith: &A,
    r: u64,
)
    requires
        formula(s) is Some,
    ensures
        formula(bracketed(s)) is Some,
        evaluates(formula(bracketed(s))->0, env, number, arith, r) == evaluates(
            formula(s)->0,
            env,
            number,
            arith,
            r,
        ),
{
    lemma_bracketed_formula(s);
}

/// True when every byte of `s` is a blank.
pub open spec fn blank(s: Seq<u8>) -> bool {
    forall|i: int| 0 <= i < s.len() ==> is_blank(#[trigger] s[i])
}

/// Skipping blanks from the start of a run of blanks is skipping them
/// from its end.
pub(crate) proof fn lemma_skip_run(l: Seq<u8>, a: int, b: int)
    requires
        0 <= a <= b <= l.len(),
        forall|i: int| a <= i < b ==> is_blank(#[trigger] l[i]),
    ensures
        skip(l, a) == skip(l, b),
    decreases b - a,
{
    if a < b {
        lemma_skip_run(l, a + 1, b);
    }
}

/// Blanks before and after a text that is one whole match of a rule change
/// nothing: the longer text is such a match again, and stands for the same
/// expression.
pub proof fn lemma_blanks_around_reading(
    rule: Rule,
    before: Seq<u8>,
    s: Seq<u8>,
    after: Seq<u8>,
)
    requires
        blank(before),
        blank(after),
        reading(rule, s) is Some,
    ensures
        reading(rule, before + s + after) == reading(rule, s),
{
    let l = before + s + after;
    let d = before.len() as int;
    let n = s.len() as int;
    assert forall|i: int| n + d <= i < l.len() implies is_blank(#[trigger] l[i]) by {
        assert(l[i] == after[i - n - d]);
    }
    assert forall|i: int| 0 <= i < d implies is_blank(#[trigger] l[i]) by {
        assert(l[i] == before[i]);
    }
    lemma_skip_run(l, n + d, l.len() as int);
    lemma_skip_run(l, 0, d);
    assert(holds(s, l, d, Rule::File));
    let start = skip(s, 0);
    lemma_skip_moved(s, l, d, Rule::File, 0);
    lemma_rules_advance(s, start);
    match rule {
        Rule::Atom => lemma_atom(s, l, d, Rule::File, start),
        Rule::Power | Rule::Product | Rule::Sum => lemma_chain(
            rule,
            s,
            l,
            d,
            Rule::File,
            start,
        ),
        _ => lemma_expr(s, l, d, Rule::File, start),
    }
    let (t, q) = first(rule, s)->0;
    lemma_skip_moved(s, l, d, Rule::File, q);
    assert(first(rule, l) == Some((t, q + d)));
}

/// Blanks before and after a formula change nothing: the text is a formula
/// again, and stands for the same expression.
pub proof fn lemma_blanks_around(before: Seq<u8>, s: Seq<u8>, after: Seq<u8>)
    requires
        blank(before),
        blank(after),
        formula(s) is Some,
    ensures
        formula(before + s + after) == formula(s),
{
    lemma_reading_formula(s);
    lemma_reading_formula(before + s + after);
    lemma_blanks_around_reading(Rule::Expr, before, s, after);
}

/// A whole formula is what the rule `Expr` reads.
pub proof fn lemma_reading_formula(x: Seq<u8>)
    ensures
        reading(Rule::Expr, x) == formula(x),
{
    if let Some((t, q)) = expr_at(x, skip(x, 0)) {
        if skip(x, q) == x.len() {
            assert(file_tree(x) == Some(node(Rule::File, seq![t])));
            assert(ast_of(node(Rule::File, seq![t])) == ast_of(t));
        }
    }
}

/// A rule that matches ends after its start and within the text. So the
/// tests on positions in the functions of the grammar never fail.
pub proof fn lemma_rules_advance(s: Seq<u8>, p: int)
    requires
        0 <= p <= s.len(),
    ensures
        within(s, p, expr_at(s, p)),
        within(s, p, assign_at(s, p)),
        within(s, p, chain_at(Rule::Sum, s, p)),
        within(s, p, chain_at(Rule::Product, s, p)),
        within(s, p, chain_at(Rule::Power, s, p)),
        within(s, p, atom_at(s, p)),
        within(s, p, summation_at(s, p)),
{
    assert(holds(s, s, 0, Rule::File));
    lemma_expr(s, s, 0, Rule::File, p);
    lemma_assign(s, s, 0, Rule::File, p);
    lemma_chain(Rule::Sum, s, s, 0, Rule::File, p);
    lemma_chain(Rule::Product, s, s, 0, Rule::File, p);
    lemma_chain(Rule::Power, s, s, 0, Rule::File, p);
    lemma_atom(s, s, 0, Rule::File, p);
    lemma_summation(s, s, 0, Rule::File, p);
}

} // verus!

//! The formula grammar, stated as functions on bytes.
//!
//! ```text
//! file       = expr, then the end of the input
//! expr       = assign | sum
//! assign     = ident "=" sum
//! sum        = product { ("+" | "-") product }
//! product    = power { ("*" | "/") power }
//! power      = atom { "^" atom }
//! atom       = number | ident | "(" expr ")" | summation
//! summation  = "Σ" ident "=" number "to" number "(" expr ")"
//! ident      = letter { letter | digit | "_" }
//! number     = [ "-" ] digit { digit } [ "." digit { digit } ]
//! ```
//!
//! Choices are ordered, repetitions are greedy, and blanks (space, tab,
//! newline) may stand between any two tokens of a rule, but not inside an
//! identifier or a number.
//!
//! Each rule is a function of a text and a position in it: it gives the
//! tree that the rule matches there and the position after the match, or
//! nothing. Where such a function tests that a match ends after its start
//! and within the text, the test only shows that the function is well
//! defined; it never fails.

use vstd::prelude::*;
use vstd::utf8::decode_utf8;

verus! {

/// The rules of the grammar; each node of a parse tree carries one.
#[derive(Clone, Copy, Debug, PartialEq, Eq, Structural)]
pub enum Rule {
    File,
    Expr,
    Assign,
    Sum,
    Product,
    Power,
    Atom,
    Summation,
    Ident,
    Number,
    Plus,
    Minus,
    Mul,
    Div,
    Pow,
    Sigma,
}

/// The mathematical parse tree: a rule, the characters matched (for an
/// identifier or a number; empty otherwise) and the subtrees in input order.
pub ghost struct Tree {
    pub rule: Rule,
    pub text: Seq<char>,
    pub inner: Seq<Tree>,
}

/// Space, tab and newline.
pub open spec fn is_blank(b: u8) -> bool {
    b == 0x20 || b == 0x09 || b == 0x0a
}

/// The ten digits.
pub open spec fn is_digit(b: u8) -> bool {
    0x30 <= b <= 0x39
}

/// The letters of ASCII.
pub open spec fn is_letter(b: u8) -> bool {
    (0x41 <= b <= 0x5a) || (0x61 <= b <= 0x7a)
}

/// What an identifier can hold after its first letter.
pub open spec fn is_word(b: u8) -> bool {
    is_letter(b) || is_digit(b) || b == 0x5f
}

/// True when byte `b` stands at position `p` of `s`.
pub open spec fn at(s: Seq<u8>, p: int, b: u8) -> bool {
    0 <= p < s.len() && s[p] == b
}

/// The first position at or after `p` that holds no blank.
pub open spec fn skip(s: Seq<u8>, p: int) -> int
    decreases s.len() - p,
{
    if 0 <= p < s.len() && is_blank(s[p]) {
        skip(s, p + 1)
    } else {
        p
    }
}

/// The end of the longest run of digits that starts at `p`.
pub open spec fn digits_end(s: Seq<u8>, p: int) -> int
    decreases s.len() - p,
{
    if 0 <= p < s.len() && is_digit(s[p]) {
        digits_end(s, p + 1)
    } else {
        p
    }
}

/// The end of the longest run of letters, digits and underscores that
/// starts at `p`.
pub open spec fn word_end(s: Seq<u8>, p: int) -> int
    decreases s.len() - p,
{
    if 0 <= p < s.len() && is_word(s[p]) {
        word_end(s, p + 1)
    } else {
        p
    }
}

/// Where the identifier that starts at `p` ends, if one starts there.
pub open spec fn ident_end(s: Seq<u8>, p: int) -> Option<int> {
    if 0 <= p < s.len() && is_letter(s[p]) {
        Some(word_end(s, p + 1))
    } else {
        None
    }
}

/// Where the number that starts at `p` ends, if one starts there.
pub open spec fn number_end(s: Seq<u8>, p: int) -> Option<int> {
    let a = if at(s, p, 0x2d) { p + 1 } else { p };
    if 0 <= a < s.len() && is_digit(s[a]) {
        let b = digits_end(s, a);
        if at(s, b, 0x2e) && b + 1 < s.len() && is_digit(s[b + 1]) {
            Some(digits_end(s, b + 1))
        } else {
            Some(b)
        }
    } else {
        None
    }
}

/// A leaf that keeps the characters of `s` between `p` and `q`.
pub open spec fn token(rule: Rule, s: Seq<u8>, p: int, q: int) -> Tree {
    Tree { rule, text: decode_utf8(s.subrange(p, q)), inner: Seq::empty() }
}

/// A leaf without text, for an operator.
pub open spec fn mark(rule: Rule) -> Tree {
    Tree { rule, text: Seq::empty(), inner: Seq::empty() }
}

/// An inner node.
pub open spec fn node(rule: Rule, inner: Seq<Tree>) -> Tree {
    Tree { rule, text: Seq::empty(), inner }
}

/// Blanks are skipped up to the first byte that is none.
pub proof fn lemma_skip(s: Seq<u8>, p: int)
    requires
        0 <= p <= s.len(),
    ensures
        p <= skip(s, p) <= s.len(),
        forall|i: int| p <= i < skip(s, p) ==> is_blank(#[trigger] s[i]),
        skip(s, p) < s.len() ==> !is_blank(s[skip(s, p)]),
    decreases s.len() - p,
{
    if p < s.len() && is_blank(s[p]) {
        lemma_skip(s, p + 1);
    }
}

/// A run of digits ends at the first byte that is none.
pub proof fn lemma_digits_end(s: Seq<u8>, p: int)
    requires
        0 <= p <= s.len(),
    ensures
        p <= digits_end(s, p) <= s.len(),
        forall|i: int| p <= i < digits_end(s, p) ==> is_digit(#[trigger] s[i]),
        digits_end(s, p) < s.len() ==> !is_digit(s[digits_end(s, p)]),
    decreases s.len() - p,
{
    if p < s.len() && is_digit(s[p]) {
        lemma_digits_end(s, p + 1);
    }
}

/// A run of letters, digits and underscores ends at the first byte that
/// is none.
pub proof fn lemma_word_end(s: Seq<u8>, p: int)
    requires
        0 <= p <= s.len(),
    ensures
        p <= word_end(s, p) <= s.len(),
        forall|i: int| p <= i < word_end(s, p) ==> is_word(#[trigger] s[i]),
        word_end(s, p) < s.len() ==> !is_word(s[word_end(s, p)]),
    decreases s.len() - p,
{
    if p < s.len() && is_word(s[p]) {
        lemma_word_end(s, p + 1);
    }
}

/// The positions of the parts of a summation head that starts at `p`: the
/// loop variable, the two bounds, and where the body starts.
pub ghost struct Head {
    pub var: (int, int),
    pub start: (int, int),
    pub end: (int, int),
    pub body: int,
}

/// The head of a summation: `Σ ident = number to number (`.
pub open spec fn head_at(s: Seq<u8>, p: int) -> Option<Head> {
    if at(s, p, 0xce) && at(s, p + 1, 0xa3) {
        let a = skip(s, p + 2);
        match ident_end(s, a) {
            Some(b) => {
                let c = skip(s, b);
                let d = skip(s, c + 1);
                match number_end(s, d) {
                    Some(e) => {
                        let f = skip(s, e);
                        let g = skip(s, f + 2);
                        match number_end(s, g) {
                            Some(h) => {
                                let i = skip(s, h);
                                if at(s, c, 0x3d) && at(s, f, 0x74) && at(s, f + 1, 0x6f) && at(
                                    s,
                                    i,
                                    0x28,
                                ) {
                                    Some(
                                        Head {
                                            var: (a, b),
                                            start: (d, e),
                                            end: (g, h),
                                            body: skip(s, i + 1),
                                        },
                                    )
                                } else {
                                    None
                                }
                            },
                            None => None,
                        }
                    },
                    None => None,
                }
            },
            None => None,
        }
    } else {
        None
    }
}

/// The operator of a level (`Sum`, `Product` or `Power`) that stands at `p`.
pub open spec fn operator_at(level: Rule, s: Seq<u8>, p: int) -> Option<Rule> {
    match level {
        Rule::Sum => if at(s, p, 0x2b) {
            Some(Rule::Plus)
        } else if at(s, p, 0x2d) {
            Some(Rule::Minus)
        } else {
            None
        },
        Rule::Product => if at(s, p, 0x2a) {
            Some(Rule::Mul)
        } else if at(s, p, 0x2f) {
            Some(Rule::Div)
        } else {
            None
        },
        _ => if at(s, p, 0x5e) {
            Some(Rule::Pow)
        } else {
            None
        },
    }
}

/// Orders the rules that can call one another at one position.
pub open spec fn rank(level: Rule) -> int {
    match level {
        Rule::Sum => 7,
        Rule::Product => 5,
        _ => 3,
    }
}

/// `expr = assign | sum`: the tree and the position just after it.
pub open spec fn expr_at(s: Seq<u8>, p: int) -> Option<(Tree, int)>
    decreases s.len() - p, 9int,
{
    match assign_at(s, p) {
        Some((t, q)) => Some((node(Rule::Expr, seq![t]), q)),
        None => match chain_at(Rule::Sum, s, p) {
            Some((t, q)) => Some((node(Rule::Expr, seq![t]), q)),
            None => None,
        },
    }
}

/// `assign = ident "=" sum`.
pub open spec fn assign_at(s: Seq<u8>, p: int) -> Option<(Tree, int)>
    decreases s.len() - p, 8int,
{
    match ident_end(s, p) {
        Some(i) => {
            let j = skip(s, i);
            let k = skip(s, j + 1);
            if at(s, j, 0x3d) {
                proof {
                    lemma_word_end(s, p + 1);
                    lemma_skip(s, i);
                    lemma_skip(s, j + 1);
                }
                match chain_at(Rule::Sum, s, k) {
                    Some((t, q)) => Some(
                        (node(Rule::Assign, seq![token(Rule::Ident, s, p, i), t]), q),
                    ),
                    None => None,
                }
            } else {
                None
            }
        },
        None => None,
    }
}

/// One level of binary operators: an operand, then operator and operand as
/// often as both are there. `level` is `Sum`, `Product` or `Power`.
pub open spec fn chain_at(level: Rule, s: Seq<u8>, p: int) -> Option<(Tree, int)>
    decreases s.len() - p, rank(level),
{
    let first = match level {
        Rule::Sum => chain_at(Rule::Product, s, p),
        Rule::Product => chain_at(Rule::Power, s, p),
        _ => atom_at(s, p),
    };
    match first {
        Some((t, q)) => if p <= q <= s.len() {
            let (inner, end) = tail_at(level, s, q, seq![t]);
            Some((node(level, inner), end))
        } else {
            None
        },
        None => None,
    }
}

/// The repeated part of a level: what it adds to `acc`, and where it ends.
pub open spec fn tail_at(level: Rule, s: Seq<u8>, p: int, acc: Seq<Tree>) -> (Seq<Tree>, int)
    decreases s.len() - p, rank(level) - 1,
{
    let j = skip(s, p);
    let k = skip(s, j + 1);
    match operator_at(level, s, j) {
        Some(op) => {
            proof {
                if 0 <= p <= s.len() {
                    lemma_skip(s, p);
                    lemma_skip(s, j + 1);
                }
            }
            let next = if 0 <= p <= s.len() {
                match level {
                    Rule::Sum => chain_at(Rule::Product, s, k),
                    Rule::Product => chain_at(Rule::Power, s, k),
                    _ => atom_at(s, k),
                }
            } else {
                None
            };
            match next {
                Some((t, q)) => if p < q <= s.len() {
                    tail_at(level, s, q, acc.push(mark(op)).push(t))
                } else {
                    (acc, p)
                },
                None => (acc, p),
            }
        },
        None => (acc, p),
    }
}

/// `atom = number | ident | "(" expr ")" | summation`.
pub open spec fn atom_at(s: Seq<u8>, p: int) -> Option<(Tree, int)>
    decreases s.len() - p, 1int,
{
    match number_end(s, p) {
        Some(q) => Some((node(Rule::Atom, seq![token(Rule::Number, s, p, q)]), q)),
        None => match ident_end(s, p) {
            Some(q) => Some((node(Rule::Atom, seq![token(Rule::Ident, s, p, q)]), q)),
            None => if at(s, p, 0x28) {
                proof {
                    lemma_skip(s, p + 1);
                }
                match expr_at(s, skip(s, p + 1)) {
                    Some((t, q)) => if at(s, skip(s, q), 0x29) {
                        Some((node(Rule::Atom, seq![t]), skip(s, q) + 1))
                    } else {
                        None
                    },
                    None => None,
                }
            } else {
                match summation_at(s, p) {
                    Some((t, q)) => Some((node(Rule::Atom, seq![t]), q)),
                    None => None,
                }
            },
        },
    }
}

/// `summation = "Σ" ident "=" number "to" number "(" expr ")"`.
pub open spec fn summation_at(s: Seq<u8>, p: int) -> Option<(Tree, int)>
    decreases s.len() - p, 0int,
{
    match head_at(s, p) {
        Some(h) => if p < h.body <= s.len() {
            match expr_at(s, h.body) {
                Some((t, q)) => if at(s, skip(s, q), 0x29) {
                    Some(
                        (
                            node(
                                Rule::Summation,
                                seq![
                                    mark(Rule::Sigma),
                                    token(Rule::Ident, s, h.var.0, h.var.1),
                                    token(Rule::Number, s, h.start.0, h.start.1),
                                    token(Rule::Number, s, h.end.0, h.end.1),
                                    t,
                                ],
                            ),
                            skip(s, q) + 1,
                        ),
                    )
                } else {
                    None
                },
                None => None,
            }
        } else {
            None
        },
        None => None,
    }
}

/// Where a text that is no formula stops being one: the first byte that
/// cannot start an expression, or the first one left over after it.
pub open spec fn error_offset(s: Seq<u8>) -> int {
    match expr_at(s, skip(s, 0)) {
        Some((t, q)) => skip(s, q),
        None => skip(s, 0),
    }
}

/// `file`: an expression, blanks around it, and nothing else.
pub open spec fn file_tree(s: Seq<u8>) -> Option<Tree> {
    match expr_at(s, skip(s, 0)) {
        Some((t, q)) => if skip(s, q) == s.len() {
            Some(node(Rule::File, seq![t]))
        } else {
            None
        },
        None => None,
    }
}

/// True when `rule` is an operator of `level`: `+ -` of `Sum`, `* /` of
/// `Product`, `^` of `Power`.
pub open spec fn joins(level: Rule, rule: Rule) -> bool {
    match level {
        Rule::Sum => rule == Rule::Plus || rule == Rule::Minus,
        Rule::Product => rule == Rule::Mul || rule == Rule::Div,
        Rule::Power => rule == Rule::Pow,
        _ => false,
    }
}

/// True when every node of `t` has the subtrees that its rule needs: one for
/// `File`, `Expr` and `Atom`, two for `Assign`, five for `Summation`, and for
/// a level an odd number of them, operands and operators of the level in
/// turn. Every tree that the grammar gives a text is complete.
pub open spec fn complete(t: Tree) -> bool
    decreases t,
{
    match t.rule {
        Rule::File | Rule::Expr | Rule::Atom => t.inner.len() >= 1 && complete(t.inner[0]),
        Rule::Assign => t.inner.len() >= 2 && complete(t.inner[1]),
        Rule::Summation => t.inner.len() >= 5 && complete(t.inner[4]),
        Rule::Sum | Rule::Product | Rule::Power => {
            &&& t.inner.len() % 2 == 1
            &&& forall|i: int|
                0 <= i < t.inner.len() ==> if i % 2 == 0 {
                    complete(#[trigger] t.inner[i])
                } else {
                    joins(t.rule, t.inner[i].rule)
                }
        },
        _ => true,
    }
}

/// True for the three rules that are levels of binary operators.
pub open spec fn is_level(rule: Rule) -> bool {
    rule == Rule::Sum || rule == Rule::Product || rule == Rule::Power
}

/// The rule of a level's operand.
pub open spec fn below(level: Rule) -> Rule {
    match level {
        Rule::Sum => Rule::Product,
        Rule::Product => Rule::Power,
        _ => Rule::Atom,
    }
}

/// What a level's operand is, as the grammar has it.
pub open spec fn operand_at(level: Rule, s: Seq<u8>, p: int) -> Option<(Tree, int)> {
    match level {
        Rule::Sum => chain_at(Rule::Product, s, p),
        Rule::Product => chain_at(Rule::Power, s, p),
        _ => atom_at(s, p),
    }
}

} // verus!

//! The parser: from text to the parse tree that the grammar defines.

use crate::grammar::{
    assign_at, at, atom_at, chain_at, complete, digits_end, error_offset, expr_at, file_tree,
    head_at, ident_end, is_digit, is_letter, is_word, lemma_digits_end, node, number_end,
    operand_at, operator_at, rank, skip, summation_at, tail_at, token, word_end, Head, Rule, Tree,
};
use crate::shape::{conforms, lemma_conforms_complete, lemma_tree_conforms};
use vstd::prelude::*;
use vstd::string::*;
use vstd::utf8::*;

verus! {

/// A node of the parse tree. `text` holds the characters of an identifier or
/// of a number and is empty on every other node; `inner` holds the subtrees
/// in input order.
#[derive(Debug)]
pub struct Pair {
    pub rule: Rule,
    pub text: String,
    pub inner: Vec<Pair>,
}

/// The trees that a sequence of nodes stands for.
pub open spec fn views(pairs: Seq<Pair>) -> Seq<Tree>
    decreases pairs,
{
    Seq::new(
        pairs.len(),
        |i: int|
            if 0 <= i < pairs.len() {
                pairs[i].view()
            } else {
                arbitrary()
            },
    )
}

impl View for Pair {
    type V = Tree;

    open spec fn view(&self) -> Tree
        decreases self,
    {
        Tree { rule: self.rule, text: self.text@, inner: views(self.inner@) }
    }
}

/// One more node stands for one more tree.
proof fn lemma_views_push(pairs: Seq<Pair>, last: Pair)
    ensures
        views(pairs.push(last)) == views(pairs).push(last@),
{
    assert(views(pairs.push(last)) =~= views(pairs).push(last@));
}

/// No nodes stand for no trees.
proof fn lemma_views_empty()
    ensures
        views(Seq::<Pair>::empty()) == Seq::<Tree>::empty(),
{
    assert(views(Seq::<Pair>::empty()) =~= Seq::<Tree>::empty());
}

/// In valid UTF-8, a character starts right after a one-byte character.
proof fn lemma_boundary_after_ascii(bytes: Seq<u8>, i: int)
    requires
        valid_utf8(bytes),
        0 <= i < bytes.len(),
        bytes[i] < 0x80,
    ensures
        is_char_boundary(bytes, i),
        is_char_boundary(bytes, i + 1),
{
    is_char_boundary_iff_not_is_continuation_byte(bytes, i);
    valid_utf8_split(bytes, i);
    let rest = bytes.subrange(i, bytes.len() as int);
    assert(rest[0] == bytes[i]);
    assert(valid_utf8(rest));
    assert(pop_first_scalar(rest) =~= bytes.subrange(i + 1, bytes.len() as int));
    if i + 1 < bytes.len() {
        assert(is_char_boundary(rest, 1)) by {
            reveal_with_fuel(is_char_boundary, 2);
            assert(valid_utf8(pop_first_scalar(rest)));
        }
        is_char_boundary_iff_not_is_continuation_byte(rest, 1);
        assert(rest[1] == bytes[i + 1]);
        is_char_boundary_iff_not_is_continuation_byte(bytes, i + 1);
    } else {
        is_char_boundary_start_end_of_seq(bytes);
    }
}

/// The leaf for the bytes of `text` from `p` to `q`, which are all ASCII.
fn leaf(text: &str, rule: Rule, p: usize, q: usize) -> (r: Pair)
    requires
        p < q <= text.spec_bytes().len(),
        forall|i: int| p <= i < q ==> text.spec_bytes()[i] < 0x80,
    ensures
        r@ == token(rule, text.spec_bytes(), p as int, q as int),
{
    let ghost bytes = text.spec_bytes();
    proof {
        encode_utf8_valid_utf8(text@);
        lemma_boundary_after_ascii(bytes, q - 1);
    }
    let (front, _) = text.split_at(q);
    proof {
        encode_utf8_valid_utf8(front@);
        lemma_boundary_after_ascii(front.spec_bytes(), p as int);
    }
    let (_, word) = front.split_at(p);
    let owned = word.to_owned();
    proof {
        assert(word.spec_bytes() =~= bytes.subrange(p as int, q as int));
        encode_utf8_decode_utf8(word@);
        lemma_views_empty();
    }
    Pair { rule, text: owned, inner: Vec::new() }
}

/// What a rule function returns, held against what the grammar says of the
/// rule at `p`: the same tree and end on success, and failure for failure.
spec fn agrees(found: Option<(Pair, usize)>, stated: Option<(Tree, int)>) -> bool {
    match found {
        Some((pair, q)) => stated == Some((pair@, q as int)),
        None => stated is None,
    }
}

/// Tells whether the byte `b` stands at position `p`.
fn byte_is(text: &str, p: usize, b: u8) -> (r: bool)
    ensures
        r == at(text.spec_bytes(), p as int, b),
        text.spec_bytes().len() <= usize::MAX,
{
    let bytes = text.as_bytes();
    p < bytes.len() && bytes[p] == b
}

/// The first position at or after `p` that holds no blank.
fn skip_blanks(text: &str, p: usize) -> (q: usize)
    requires
        p <= text.spec_bytes().len(),
    ensures
        q == skip(text.spec_bytes(), p as int),
        p <= q <= text.spec_bytes().len(),
{
    let bytes = text.as_bytes();
    let mut i: usize = p;
    while i < bytes.len() && (bytes[i] == 0x20 || bytes[i] == 0x09 || bytes[i] == 0x0a)
        invariant
            bytes@ == text.spec_bytes(),
            p <= i <= bytes@.len(),
            skip(bytes@, p as int) == skip(bytes@, i as int),
        decreases bytes@.len() - i,
    {
        i = i + 1;
    }
    i
}

/// The end of the run of digits that starts at `p`.
fn scan_digits(text: &str, p: usize) -> (q: usize)
    requires
        p <= text.spec_bytes().len(),
    ensures
        q == digits_end(text.spec_bytes(), p as int),
        p <= q <= text.spec_bytes().len(),
        forall|i: int| p <= i < q ==> is_digit(#[trigger] text.spec_bytes()[i]),
{
    let bytes = text.as_bytes();
    let mut i: usize = p;
    while i < bytes.len() && 0x30 <= bytes[i] && bytes[i] <= 0x39
        invariant
            bytes@ == text.spec_bytes(),
            p <= i <= bytes@.len(),
            digits_end(bytes@, p as int) == digits_end(bytes@, i as int),
            forall|k: int| p <= k < i ==> is_digit(#[trigger] bytes@[k]),
        decreases bytes@.len() - i,
    {
        i = i + 1;
    }
    i
}

/// Tells whether `b` is a letter.
fn letter(b: u8) -> (r: bool)
    ensures
        r == is_letter(b),
{
    (0x41 <= b && b <= 0x5a) || (0x61 <= b && b <= 0x7a)
}

/// The end of the run of letters, digits and underscores that starts at
/// `p`.
fn scan_word(text: &str, p: usize) -> (q: usize)
    requires
        p <= text.spec_bytes().len(),
    ensures
        q == word_end(text.spec_bytes(), p as int),
        p <= q <= text.spec_bytes().len(),
        forall|i: int| p <= i < q ==> is_word(#[trigger] text.spec_bytes()[i]),
{
    let bytes = text.as_bytes();
    let mut i: usize = p;
    while i < bytes.len() && (letter(bytes[i]) || (0x30 <= bytes[i] && bytes[i] <= 0x39)
        || bytes[i] == 0x5f)
        invariant
            bytes@ == text.spec_bytes(),
            p <= i <= bytes@.len(),
            word_end(bytes@, p as int) == word_end(bytes@, i as int),
            forall|k: int| p <= k < i ==> is_word(#[trigger] bytes@[k]),
        decreases bytes@.len() - i,
    {
        i = i + 1;
    }
    i
}

/// The end of the identifier that starts at `p`.
fn ident(text: &str, p: usize) -> (r: Option<usize>)
    requires
        p <= text.spec_bytes().len(),
    ensures
        match r {
            Some(q) => ident_end(text.spec_bytes(), p as int) == Some(q as int) && p < q
                <= text.spec_bytes().len() && forall|i: int|
                p <= i < q ==> #[trigger] text.spec_bytes()[i] < 0x80,
            None => ident_end(text.spec_bytes(), p as int) is None,
        },
{
    let bytes = text.as_bytes();
    if p < bytes.len() && letter(bytes[p]) {
        let q = scan_word(text, p + 1);
        assert forall|i: int| p <= i < q implies #[trigger] text.spec_bytes()[i] < 0x80 by {
            if p < i {
                assert(is_word(text.spec_bytes()[i]));
            }
        }
        Some(q)
    } else {
        None
    }
}

/// The end of the number that starts at `p`.
fn number(text: &str, p: usize) -> (r: Option<usize>)
    requires
        p <= text.spec_bytes().len(),
    ensures
        match r {
            Some(q) => number_end(text.spec_bytes(), p as int) == Some(q as int) && p < q
                <= text.spec_bytes().len() && forall|i: int|
                p <= i < q ==> #[trigger] text.spec_bytes()[i] < 0x80,
            None => number_end(text.spec_bytes(), p as int) is None,
        },
{
    let bytes = text.as_bytes();
    let a = if p < bytes.len() && bytes[p] == 0x2d {
        p + 1
    } else {
        p
    };
    if a < bytes.len() && 0x30 <= bytes[a] && bytes[a] <= 0x39 {
        let b = scan_digits(text, a);
        proof {
            lemma_digits_end(text.spec_bytes(), a + 1);
        }
        if b < bytes.len() && bytes[b] == 0x2e && b + 1 < bytes.len() && 0x30 <= bytes[b + 1]
            && bytes[b + 1] <= 0x39 {
            let q = scan_digits(text, b + 1);
            assert forall|i: int| p <= i < q implies #[trigger] text.spec_bytes()[i] < 0x80 by {
                if a <= i < b {
                    assert(is_digit(text.spec_bytes()[i]));
                } else if b + 1 <= i {
                    assert(is_digit(text.spec_bytes()[i]));
                }
            }
            Some(q)
        } else {
            assert forall|i: int| p <= i < b implies #[trigger] text.spec_bytes()[i] < 0x80 by {
                if a <= i {
                    assert(is_digit(text.spec_bytes()[i]));
                }
            }
            Some(b)
        }
    } else {
        None
    }
}

/// Where the parts of a summation head stand.
struct Header {
    var: (usize, usize),
    start: (usize, usize),
    end: (usize, usize),
    body: usize,
}

impl View for Header {
    type V = Head;

    closed spec fn view(&self) -> Head {
        Head {
            var: (self.var.0 as int, self.var.1 as int),
            start: (self.start.0 as int, self.start.1 as int),
            end: (self.end.0 as int, self.end.1 as int),
            body: self.body as int,
        }
    }
}

/// True when every byte of `s` from `p` to `q` is ASCII, and `p < q`.
spec fn plain(s: Seq<u8>, p: usize, q: usize) -> bool {
    p < q <= s.len() && forall|i: int| p <= i < q ==> #[trigger] s[i] < 0x80
}

/// The head of the summation that starts at `p`.
fn header(text: &str, p: usize) -> (r: Option<Header>)
    requires
        p <= text.spec_bytes().len(),
    ensures
        match r {
            Some(h) => {
                &&& head_at(text.spec_bytes(), p as int) == Some(h@)
                &&& plain(text.spec_bytes(), h.var.0, h.var.1)
                &&& plain(text.spec_bytes(), h.start.0, h.start.1)
                &&& plain(text.spec_bytes(), h.end.0, h.end.1)
                &&& p < h.body <= text.spec_bytes().len()
            },
            None => head_at(text.spec_bytes(), p as int) is None,
        },
{
    if !(byte_is(text, p, 0xce) && byte_is(text, p + 1, 0xa3)) {
        return None;
    }
    let a = skip_blanks(text, p + 2);
    let b = match ident(text, a) {
        Some(b) => b,
        None => { return None; },
    };
    let c = skip_blanks(text, b);
    if !byte_is(text, c, 0x3d) {
        return None;
    }
    let d = skip_blanks(text, c + 1);
    let e = match number(text, d) {
        Some(e) => e,
        None => { return None; },
    };
    let f = skip_blanks(text, e);
    if !(byte_is(text, f, 0x74) && byte_is(text, f + 1, 0x6f)) {
        return None;
    }
    let g = skip_blanks(text, f + 2);
    let h = match number(text, g) {
        Some(h) => h,
        None => { return None; },
    };
    let i = skip_blanks(text, h);
    if !byte_is(text, i, 0x28) {
        return None;
    }
    let body = skip_blanks(text, i + 1);
    Some(Header { var: (a, b), start: (d, e), end: (g, h), body })
}

/// The operator of `level` that stands at `p`.
fn operator(text: &str, level: Rule, p: usize) -> (r: Option<Rule>)
    ensures
        r == operator_at(level, text.spec_bytes(), p as int),
        text.spec_bytes().len() <= usize::MAX,
{
    match level {
        Rule::Sum => if byte_is(text, p, 0x2b) {
            Some(Rule::Plus)
        } else if byte_is(text, p, 0x2d) {
            Some(Rule::Minus)
        } else {
            None
        },
        Rule::Product => if byte_is(text, p, 0x2a) {
            Some(Rule::Mul)
        } else if byte_is(text, p, 0x2f) {
            Some(Rule::Div)
        } else {
            None
        },
        _ => if byte_is(text, p, 0x5e) {
            Some(Rule::Pow)
        } else {
            None
        },
    }
}

/// A node without text.
fn branch(rule: Rule, inner: Vec<Pair>) -> (r: Pair)
    ensures
        r@ == node(rule, views(inner@)),
{
    Pair { rule, text: String::new(), inner }
}

/// A node with one subtree.
fn wrap(rule: Rule, only: Pair) -> (r: Pair)
    ensures
        r@ == node(rule, seq![only@]),
{
    let mut inner: Vec<Pair> = Vec::new();
    proof {
        lemma_views_empty();
        lemma_views_push(inner@, only);
    }
    inner.push(only);
    assert(seq![only@] =~= Seq::<Tree>::empty().push(only@));
    branch(rule, inner)
}

/// True when `found` ends after `p` and within `s`.
spec fn forward(found: Option<(Pair, usize)>, s: Seq<u8>, p: usize) -> bool {
    found matches Some((pair, q)) ==> p < q <= s.len()
}

/// `expr = assign | sum`.
fn parse_expr_rule(text: &str, p: usize) -> (r: Option<(Pair, usize)>)
    requires
        p <= text.spec_bytes().len(),
    ensures
        agrees(r, expr_at(text.spec_bytes(), p as int)),
        forward(r, text.spec_bytes(), p),
    decreases text.spec_bytes().len() - p, 9int,
{
    match parse_assign(text, p) {
        Some((t, q)) => Some((wrap(Rule::Expr, t), q)),
        None => match parse_chain(text, Rule::Sum, p) {
            Some((t, q)) => Some((wrap(Rule::Expr, t), q)),
            None => None,
        },
    }
}

/// `assign = ident "=" sum`.
fn parse_assign(text: &str, p: usize) -> (r: Option<(Pair, usize)>)
    requires
        p <= text.spec_bytes().len(),
    ensures
        agrees(r, assign_at(text.spec_bytes(), p as int)),
        forward(r, text.spec_bytes(), p),
    decreases text.spec_bytes().len() - p, 8int,
{
    let i = match ident(text, p) {
        Some(i) => i,
        None => { return None; },
    };
    let j = skip_blanks(text, i);
    if !byte_is(text, j, 0x3d) {
        return None;
    }
    let k = skip_blanks(text, j + 1);
    match parse_chain(text, Rule::Sum, k) {
        Some((t, q)) => {
            let name = leaf(text, Rule::Ident, p, i);
            let mut inner: Vec<Pair> = Vec::new();
            proof {
                lemma_views_empty();
                lemma_views_push(inner@, name);
                lemma_views_push(inner@.push(name), t);
                assert(seq![name@, t@] =~= Seq::<Tree>::empty().push(name@).push(t@));
            }
            inner.push(name);
            inner.push(t);
            Some((branch(Rule::Assign, inner), q))
        },
        None => None,
    }
}

/// An operand of `level`: a product, a power or an atom.
fn parse_operand(text: &str, level: Rule, p: usize) -> (r: Option<(Pair, usize)>)
    requires
        p <= text.spec_bytes().len(),
    ensures
        agrees(r, operand_at(level, text.spec_bytes(), p as int)),
        forward(r, text.spec_bytes(), p),
    decreases text.spec_bytes().len() - p, rank(level) - 1,
{
    match level {
        Rule::Sum => parse_chain(text, Rule::Product, p),
        Rule::Product => parse_chain(text, Rule::Power, p),
        _ => parse_atom(text, p),
    }
}

/// One level of binary operators: an operand, then operator and operand
/// as often as both are there.
fn parse_chain(text: &str, level: Rule, p: usize) -> (r: Option<(Pair, usize)>)
    requires
        p <= text.spec_bytes().len(),
    ensures
        agrees(r, chain_at(level, text.spec_bytes(), p as int)),
        forward(r, text.spec_bytes(), p),
    decreases text.spec_bytes().len() - p, rank(level),
{
    let ghost s = text.spec_bytes();
    let (first, start) = match parse_operand(text, level, p) {
        Some(found) => found,
        None => { return None; },
    };
    let ghost head = first@;
    let mut inner: Vec<Pair> = Vec::new();
    proof {
        lemma_views_empty();
        lemma_views_push(inner@, first);
        assert(seq![head] =~= Seq::<Tree>::empty().push(head));
    }
    inner.push(first);
    let mut end: usize = start;
    loop
        invariant
            s == text.spec_bytes(),
            p < start <= end <= s.len(),
            tail_at(level, s, start as int, seq![head]) == tail_at(
                level,
                s,
                end as int,
                views(inner@),
            ),
        ensures
            p < end <= s.len(),
            tail_at(level, s, start as int, seq![head]) == (views(inner@), end as int),
        decreases s.len() - end,
    {
        let j = skip_blanks(text, end);
        let op = match operator(text, level, j) {
            Some(op) => op,
            None => { break ; },
        };
        let k = skip_blanks(text, j + 1);
        match parse_operand(text, level, k) {
            Some((t, q)) => {
                let sign = branch(op, Vec::new());
                proof {
                    lemma_views_empty();
                    lemma_views_push(inner@, sign);
                    lemma_views_push(inner@.push(sign), t);
                }
                inner.push(sign);
                inner.push(t);
                end = q;
            },
            None => { break ; },
        }
    }
    Some((branch(level, inner), end))
}

/// `atom = number | ident | "(" expr ")" | summation`.
fn parse_atom(text: &str, p: usize) -> (r: Option<(Pair, usize)>)
    requires
        p <= text.spec_bytes().len(),
    ensures
        agrees(r, atom_at(text.spec_bytes(), p as int)),
        forward(r, text.spec_bytes(), p),
    decreases text.spec_bytes().len() - p, 1int,
{
    if let Some(q) = number(text, p) {
        return Some((wrap(Rule::Atom, leaf(text, Rule::Number, p, q)), q));
    }
    if let Some(q) = ident(text, p) {
        return Some((wrap(Rule::Atom, leaf(text, Rule::Ident, p, q)), q));
    }
    if byte_is(text, p, 0x28) {
        let k = skip_blanks(text, p + 1);
        match parse_expr_rule(text, k) {
            Some((t, q)) => {
                let c = skip_blanks(text, q);
                if byte_is(text, c, 0x29) {
                    Some((wrap(Rule::Atom, t), c + 1))
                } else {
                    None
                }
            },
            None => None,
        }
    } else {
        match parse_summation(text, p) {
            Some((t, q)) => Some((wrap(Rule::Atom, t), q)),
            None => None,
        }
    }
}

/// `summation = "Σ" ident "=" number "to" number "(" expr ")"`.
fn parse_summation(text: &str, p: usize) -> (r: Option<(Pair, usize)>)
    requires
        p <= text.spec_bytes().len(),
    ensures
        agrees(r, summation_at(text.spec_bytes(), p as int)),
        forward(r, text.spec_bytes(), p),
    decreases text.spec_bytes().len() - p, 0int,
{
    let h = match header(text, p) {
        Some(h) => h,
        None => { return None; },
    };
    let (body, q) = match parse_expr_rule(text, h.body) {
        Some(found) => found,
        None => { return None; },
    };
    let c = skip_blanks(text, q);
    if !byte_is(text, c, 0x29) {
        return None;
    }
    let sigma = branch(Rule::Sigma, Vec::new());
    let var = leaf(text, Rule::Ident, h.var.0, h.var.1);
    let start = leaf(text, Rule::Number, h.start.0, h.start.1);
    let end = leaf(text, Rule::Number, h.end.0, h.end.1);
    let mut inner: Vec<Pair> = Vec::new();
    proof {
        lemma_views_empty();
        lemma_views_push(inner@, sigma);
        lemma_views_push(inner@.push(sigma), var);
        lemma_views_push(inner@.push(sigma).push(var), start);
        lemma_views_push(inner@.push(sigma).push(var).push(start), end);
        lemma_views_push(inner@.push(sigma).push(var).push(start).push(end), body);
        assert(seq![sigma@, var@, start@, end@, body@] =~= Seq::<Tree>::empty().push(
            sigma@,
        ).push(var@).push(start@).push(end@).push(body@));
    }
    inner.push(sigma);
    inner.push(var);
    inner.push(start);
    inner.push(end);
    inner.push(body);
    Some((branch(Rule::Summation, inner), c + 1))
}

/// Why a text is no formula: the byte offset at which it stops being one.
#[derive(Clone, Copy, Debug, PartialEq, Eq, Structural)]
pub struct SyntaxError {
    pub offset: usize,
}

/// The parser of the formula grammar.
#[derive(Clone, Copy, Debug)]
pub struct Grammar;

impl Grammar {
    /// Parses a whole text as a formula. Succeeds exactly on the texts that
    /// the grammar's `file` rule matches, with the tree that it gives them,
    /// and otherwise tells where the text stops being a formula.
    pub fn parse(text: &str) -> (r: Result<Pair, SyntaxError>)
        ensures
            match r {
                Ok(pair) => file_tree(text.spec_bytes()) == Some(pair@) && conforms(pair@)
                    && complete(pair@),
                Err(e) => file_tree(text.spec_bytes()) is None && e.offset == error_offset(
                    text.spec_bytes(),
                ),
            },
    {
        let start = skip_blanks(text, 0);
        match parse_expr_rule(text, start) {
            Some((t, q)) => {
                let end = skip_blanks(text, q);
                if end == text.as_bytes().len() {
                    let pair = wrap(Rule::File, t);
                    proof {
                        lemma_tree_conforms(text.spec_bytes());
                        lemma_conforms_complete(pair@);
                    }
                    Ok(pair)
                } else {
                    Err(SyntaxError { offset: end })
                }
            },
            None => Err(SyntaxError { offset: start }),
        }
    }
}

} // verus!

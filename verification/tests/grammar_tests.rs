use expression_parser::{parse_expr, parse_formula, Expr, Grammar, Pair, Rule, SyntaxError};

fn show(e: &Expr) -> String {
    match e {
        Expr::Num(t) => t.clone(),
        Expr::Var(n) => n.clone(),
        Expr::Add(a, b) => format!("({} + {})", show(a), show(b)),
        Expr::Sub(a, b) => format!("({} - {})", show(a), show(b)),
        Expr::Mul(a, b) => format!("({} * {})", show(a), show(b)),
        Expr::Div(a, b) => format!("({} / {})", show(a), show(b)),
        Expr::Pow(a, b) => format!("({} ^ {})", show(a), show(b)),
        Expr::Sum { var, start, end, body } => {
            format!("sum[{} = {} to {}]{}", var, start, end, show(body))
        }
        Expr::Assign(v) => format!("let {}", show(v)),
    }
}

fn shape(text: &str) -> String {
    show(&parse_formula(text).unwrap())
}

fn offset(text: &str) -> usize {
    match parse_formula(text) {
        Ok(e) => panic!("{:?} is a formula: {}", text, show(&e)),
        Err(SyntaxError { offset }) => offset,
    }
}

fn outline(p: &Pair) -> String {
    let mut s = format!("{:?}", p.rule);
    if !p.text.is_empty() {
        s.push_str(&format!("<{}>", p.text));
    }
    if !p.inner.is_empty() {
        let parts: Vec<String> = p.inner.iter().map(outline).collect();
        s.push_str(&format!("[{}]", parts.join(" ")));
    }
    s
}

#[test]
fn sums_and_products_group_to_the_left() {
    assert_eq!(shape("a - b + c - d"), "(((a - b) + c) - d)");
    assert_eq!(shape("a / b * c / d"), "(((a / b) * c) / d)");
}

#[test]
fn powers_group_to_the_right() {
    assert_eq!(shape("a ^ b ^ c ^ d"), "(a ^ (b ^ (c ^ d)))");
    assert_eq!(shape("a^b"), "(a ^ b)");
}

#[test]
fn precedence_is_power_then_product_then_sum() {
    assert_eq!(shape("1 + 2 * 3 ^ 4"), "(1 + (2 * (3 ^ 4)))");
    assert_eq!(shape("1 ^ 2 * 3 + 4"), "(((1 ^ 2) * 3) + 4)");
    assert_eq!(shape("(1 + 2) * 3"), "((1 + 2) * 3)");
}

#[test]
fn assignment_keeps_only_its_right_side() {
    assert_eq!(shape("ROI = (R - C) / C * 100"), "let (((R - C) / C) * 100)");
    assert_eq!(shape("(x = 1)"), "let 1");
    assert_eq!(shape("2 * (y = 3 + 4)"), "(2 * let (3 + 4))");
}

#[test]
fn summation_keeps_its_parts() {
    assert_eq!(shape("Σi=1to4(i^2 + 1)"), "sum[i = 1 to 4]((i ^ 2) + 1)");
    assert_eq!(shape("Σ k = -2.5 to 10 ( k )"), "sum[k = -2.5 to 10]k");
    assert_eq!(shape("Σi=1to2(Σj=2to3(i*j))"), "sum[i = 1 to 2]sum[j = 2 to 3](i * j)");
}

#[test]
fn numbers_take_an_optional_sign_and_fraction() {
    assert_eq!(shape("-3"), "-3");
    assert_eq!(shape("2.50"), "2.50");
    assert_eq!(shape("-0.125"), "-0.125");
    assert_eq!(shape("5 -3"), "(5 - 3)");
    assert_eq!(shape("5 - -3"), "(5 - -3)");
    assert_eq!(shape("5--3"), "(5 - -3)");
    assert_eq!(shape("007"), "007");
}

#[test]
fn names_are_case_sensitive_words() {
    assert_eq!(shape("x + X + x_1 + A9_"), "(((x + X) + x_1) + A9_)");
    assert_eq!(shape("to + Σto=1to2(to)"), "(to + sum[to = 1 to 2]to)");
}

#[test]
fn blanks_between_tokens_change_nothing() {
    assert_eq!(shape("1+2"), shape("  1  +  2  "));
    assert_eq!(shape("a*(b+c)^d"), shape("\ta\n*\t(  b +\nc )\n^ d \n"));
    assert_eq!(shape("Σi=1to4(i)"), shape(" Σ i = 1 to 4 ( i ) "));
    assert_eq!(shape("r=1"), shape("r = 1"));
}

#[test]
fn brackets_change_nothing() {
    for text in ["1", "x", "1 + 2 * 3", "a ^ b ^ c", "r = 2 + 3", "Σi=1to4(i^2 + 1)", " 7 "] {
        assert_eq!(shape(&format!("({})", text)), shape(text));
        assert_eq!(shape(&format!("(({}))", text)), shape(text));
    }
}

#[test]
fn brackets_can_make_a_formula_of_what_is_none() {
    assert!(parse_formula("1) + (2").is_err());
    assert_eq!(shape("(1) + (2)"), "(1 + 2)");
}

#[test]
fn empty_and_blank_texts_are_rejected() {
    assert_eq!(offset(""), 0);
    assert_eq!(offset("   "), 3);
    assert_eq!(offset("\n\t"), 2);
}

#[test]
fn unmatched_brackets_are_rejected() {
    assert_eq!(offset("(1 + 2"), 0);
    assert_eq!(offset("1 + 2)"), 5);
    assert_eq!(offset("((1)"), 0);
    assert_eq!(offset("()"), 0);
}

#[test]
fn trailing_input_is_rejected_at_its_first_byte() {
    assert_eq!(offset("1 + 2 )"), 6);
    assert_eq!(offset("1 2"), 2);
    assert_eq!(offset("1 +"), 2);
    assert_eq!(offset("x = "), 2);
    assert_eq!(offset("x = = 1"), 2);
    assert_eq!(offset("1."), 1);
    assert_eq!(offset("1.5.2"), 3);
    assert_eq!(offset("2 ^"), 2);
    assert_eq!(offset("3 * / 4"), 2);
}

#[test]
fn unknown_bytes_are_rejected() {
    assert_eq!(offset("1 % 2"), 2);
    assert_eq!(offset("#"), 0);
    assert_eq!(offset("1\r\n"), 1);
    assert_eq!(offset("- 3"), 0);
    assert_eq!(offset(".5"), 0);
    assert_eq!(offset("_x"), 0);
}

#[test]
fn names_outside_ascii_are_rejected() {
    assert_eq!(offset("é + 1"), 0);
    assert_eq!(offset("x + ж"), 2);
    assert_eq!(offset("aé"), 1);
    assert_eq!(offset("Σ"), 0);
}

#[test]
fn malformed_summations_are_rejected() {
    assert_eq!(offset("Σi=1to4"), 0);
    assert_eq!(offset("Σi=1to4(i"), 0);
    assert_eq!(offset("Σi=1 4(i)"), 0);
    assert_eq!(offset("Σi=ato4(i)"), 0);
    assert_eq!(offset("Σ=1to4(i)"), 0);
    assert_eq!(offset("Σi 1to4(i)"), 0);
    assert_eq!(offset("Σi=1to(2)(i)"), 0);
    assert_eq!(offset("Σj=i to 3(j)"), 0);
    assert_eq!(offset("1 + Σi=1t o4(i)"), 2);
    assert_eq!(offset("Σi=1to4(i))"), 11);
}

#[test]
fn the_tree_follows_the_rules() {
    let tree = Grammar::parse("a = 1 + 2 * x").unwrap();
    assert_eq!(
        outline(&tree),
        "File[Expr[Assign[Ident<a> Sum[\
         Product[Power[Atom[Number<1>]]] Plus \
         Product[Power[Atom[Number<2>]] Mul Power[Atom[Ident<x>]]]]]]]"
    );
    let tree = Grammar::parse("Σi=1to2((i)^2)").unwrap();
    assert_eq!(
        outline(&tree),
        "File[Expr[Sum[Product[Power[Atom[Summation[Sigma Ident<i> Number<1> Number<2> \
         Expr[Sum[Product[Power[Atom[Expr[Sum[Product[Power[Atom[Ident<i>]]]]]] Pow \
         Atom[Number<2>]]]]]]]]]]]]"
    );
}

#[test]
fn a_tree_built_by_hand_folds_like_a_parsed_one() {
    fn leaf(rule: Rule, text: &str) -> Pair {
        Pair { rule, text: text.to_string(), inner: Vec::new() }
    }
    fn node(rule: Rule, inner: Vec<Pair>) -> Pair {
        Pair { rule, text: String::new(), inner }
    }
    let power = |p: Pair| node(Rule::Power, vec![node(Rule::Atom, vec![p])]);
    let tree = node(
        Rule::Sum,
        vec![
            node(Rule::Product, vec![power(leaf(Rule::Number, "1"))]),
            leaf(Rule::Minus, ""),
            node(
                Rule::Product,
                vec![power(leaf(Rule::Ident, "x")), leaf(Rule::Div, ""), power(leaf(Rule::Number, "2"))],
            ),
        ],
    );
    assert_eq!(show(&parse_expr(&tree)), "(1 - (x / 2))");
    assert_eq!(show(&parse_expr(&leaf(Rule::Plus, ""))), "0");
}

#[test]
fn parse_and_fold_make_parse_formula() {
    for text in ["1 + 2 * 3", "a ^ b ^ c", "r = Σi=1to4(i^2 + 1) / 2"] {
        let tree = Grammar::parse(text).unwrap();
        assert_eq!(show(&parse_expr(&tree)), shape(text));
    }
    assert_eq!(Grammar::parse("1 +").unwrap_err(), SyntaxError { offset: 2 });
}

const ATOMS: [&str; 6] = ["1", "-2.5", "x", "(a + b)", " ( r = 1 ) ", "Σi=1to2(i)"];
const POWERS: [&str; 3] = ["2 ^ k", "a^b^c", "(x)^-1 "];
const PRODUCTS: [&str; 3] = ["a * b", " 1/2/3", "x ^ 2 * y"];
const SUMS: [&str; 3] = ["a + b", "1 - 2 - 3 ", "x * 2 + y ^ 2"];

fn powers() -> Vec<&'static str> {
    ATOMS.iter().chain(POWERS.iter()).copied().collect()
}

fn products() -> Vec<&'static str> {
    powers().into_iter().chain(PRODUCTS.iter().copied()).collect()
}

fn sums() -> Vec<&'static str> {
    products().into_iter().chain(SUMS.iter().copied()).collect()
}

#[test]
fn plus_and_minus_take_a_sum_on_the_left_and_a_product_on_the_right() {
    for x in sums() {
        for y in products() {
            for (sign, name) in [("+", "+"), ("-", "-")] {
                let text = format!("{}{}{}", x, sign, y);
                assert_eq!(shape(&text), format!("({} {} {})", shape(x), name, shape(y)), "{}", text);
            }
        }
    }
}

#[test]
fn times_and_over_take_a_product_on_the_left_and_a_power_on_the_right() {
    for x in products() {
        for y in powers() {
            for sign in ["*", "/"] {
                let text = format!("{}{}{}", x, sign, y);
                assert_eq!(shape(&text), format!("({} {} {})", shape(x), sign, shape(y)), "{}", text);
            }
        }
    }
}

#[test]
fn the_power_sign_takes_an_atom_on_the_left_and_a_power_on_the_right() {
    for x in ATOMS {
        for y in powers() {
            let text = format!("{}^{}", x, y);
            assert_eq!(shape(&text), format!("({} ^ {})", shape(x), shape(y)), "{}", text);
        }
    }
}

#[test]
fn the_equals_sign_takes_a_name_on_the_left_and_a_sum_on_the_right() {
    for x in ["r", " ROI ", "x_1\t"] {
        for y in sums() {
            let text = format!("{}={}", x, y);
            assert_eq!(shape(&text), format!("let {}", shape(y)), "{}", text);
        }
    }
}

#[test]
fn blanks_around_a_formula_change_nothing() {
    for text in sums() {
        let plain = shape(text);
        assert_eq!(shape(&format!(" {}", text)), plain);
        assert_eq!(shape(&format!("{}\n", text)), plain);
        assert_eq!(shape(&format!("\t \n{} \t\n ", text)), plain);
    }
}

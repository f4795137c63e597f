use expression_parser::{Grammar, Pair, Rule};
use pest::iterators::Pair as PestPair;
use pest_vm::Vm;

const GRAMMAR: &str = r#"
WHITESPACE = _{ " " | "\t" | "\n" }
file       = { SOI ~ expr ~ EOI }
expr       = { assign | sum }
assign     = { ident ~ "=" ~ sum }
sum        = { product ~ ((plus | minus) ~ product)* }
product    = { power ~ ((mul | div) ~ power)* }
power      = { atom ~ (pow ~ atom)* }
atom       = { number | ident | "(" ~ expr ~ ")" | summation }
summation  = { sigma ~ ident ~ "=" ~ number ~ "to" ~ number ~ "(" ~ expr ~ ")" }
ident      = @{ ASCII_ALPHA ~ (ASCII_ALPHANUMERIC | "_")* }
number     = @{ "-"? ~ ASCII_DIGIT+ ~ ("." ~ ASCII_DIGIT+)? }
plus       = { "+" }
minus      = { "-" }
mul        = { "*" }
div        = { "/" }
pow        = { "^" }
sigma      = { "Σ" }
"#;

fn machine() -> Vm {
    let (_, rules) = pest_meta::parse_and_optimize(GRAMMAR).unwrap();
    Vm::new(rules)
}

fn name(rule: Rule) -> &'static str {
    match rule {
        Rule::File => "file",
        Rule::Expr => "expr",
        Rule::Assign => "assign",
        Rule::Sum => "sum",
        Rule::Product => "product",
        Rule::Power => "power",
        Rule::Atom => "atom",
        Rule::Summation => "summation",
        Rule::Ident => "ident",
        Rule::Number => "number",
        Rule::Plus => "plus",
        Rule::Minus => "minus",
        Rule::Mul => "mul",
        Rule::Div => "div",
        Rule::Pow => "pow",
        Rule::Sigma => "sigma",
    }
}

fn ours(p: &Pair) -> String {
    let mut s = name(p.rule).to_string();
    if p.rule == Rule::Ident || p.rule == Rule::Number {
        s.push_str(&format!("<{}>", p.text));
    } else {
        assert_eq!(p.text, "");
    }
    if !p.inner.is_empty() {
        let parts: Vec<String> = p.inner.iter().map(ours).collect();
        s.push_str(&format!("[{}]", parts.join(" ")));
    }
    s
}

fn theirs(p: PestPair<&str>) -> String {
    let rule = p.as_rule();
    let mut s = rule.to_string();
    if rule == "ident" || rule == "number" {
        s.push_str(&format!("<{}>", p.as_str()));
    }
    let parts: Vec<String> = p.into_inner().filter(|c| c.as_rule() != "EOI").map(theirs).collect();
    if !parts.is_empty() {
        s.push_str(&format!("[{}]", parts.join(" ")));
    }
    s
}

fn compare(vm: &Vm, text: &str) -> bool {
    let mine = Grammar::parse(text).ok().map(|p| ours(&p));
    let other = vm.parse("file", text).ok().map(|mut ps| theirs(ps.next().unwrap()));
    assert_eq!(mine, other, "{:?}", text);
    mine.is_some()
}

#[test]
fn agrees_with_the_grammar_run_by_pest_on_chosen_texts() {
    let vm = machine();
    let texts = [
        "",
        " ",
        "1",
        "-1",
        "- 1",
        "1.5",
        "1.",
        ".5",
        "1.5.2",
        "x",
        "_x",
        "x_1",
        "x y",
        "1 + 2 * 3",
        "(1 + 2) * 3",
        "1 + 2 )",
        "( 1 + 2",
        "()",
        "((1))",
        "a ^ b ^ c",
        "5 -3",
        "5--3",
        "5---3",
        "a = 1",
        "a = b = 1",
        "a == 1",
        "(a = 1) + (b = 2)",
        "a = (b = 2)",
        "1 = 2",
        "a + = 1",
        "ROI = (R - C) / C * 100",
        "Σi=1to4(i^2 + 1)",
        " Σ i = 1 to 4 ( i ) ",
        "Σi=1 to4(i)",
        "Σi=1to 4(i)",
        "Σi=1t o4(i)",
        "Σ i=1to4 i",
        "Σi=1to4(i",
        "Σi=ato4(i)",
        "Σto=1to2(to)",
        "Σi=1to-4(i)",
        "Σi=-1.5to4.25(i)",
        "ΣΣ",
        "Σ",
        "to",
        "1to2",
        "x + Σi=1to2(Σj=3to4(i*j))",
        "1\r\n",
        "1\n+\t2",
        "é",
        "aé",
        "1 % 2",
        "2 ^",
        "3 * / 4",
        "1 + (x = (2",
        "x = (1",
        "((((((((((1))))))))))",
    ];
    let mut accepted = 0;
    for text in texts {
        if compare(&vm, text) {
            accepted += 1;
        }
    }
    assert_eq!(accepted, 26);
}

#[test]
fn agrees_with_the_grammar_run_by_pest_on_made_up_texts() {
    let vm = machine();
    let parts = [
        "1", "2.5", "-3", "07", "x", "y_1", "to", "t", "+", "-", "*", "/", "^", "(", ")", "=",
        " ", " ", "\t", "\n", "Σ", ".", "_", "é", "\r", "Σi=1to2(", "(", ")", "x=",
    ];
    let mut state: u64 = 0x2545_f491_4f6c_dd1d;
    let mut next = move |bound: usize| {
        state = state.wrapping_mul(6364136223846793005).wrapping_add(1442695040888963407);
        ((state >> 33) as usize) % bound
    };
    let mut accepted = 0;
    for _ in 0..4000 {
        let len = 1 + next(10);
        let mut text = String::new();
        for _ in 0..len {
            text.push_str(parts[next(parts.len())]);
        }
        if compare(&vm, &text) {
            accepted += 1;
        }
    }
    assert!(accepted > 100, "{}", accepted);
}

#[test]
fn agrees_with_the_grammar_run_by_pest_on_made_up_formulas() {
    let vm = machine();
    let atoms = ["1", "2.5", "-3", "x", "y_1", "(a)", "(a+b)", "Σi=1to2(i)", "( x = 2 )"];
    let ops = ["+", "-", "*", "/", "^", " + ", " - ", " * ", " / ", " ^ ", "\n+\t"];
    let mut state: u64 = 0x9e37_79b9_7f4a_7c15;
    let mut next = move |bound: usize| {
        state = state.wrapping_mul(6364136223846793005).wrapping_add(1442695040888963407);
        ((state >> 33) as usize) % bound
    };
    for _ in 0..2000 {
        let mut text = String::new();
        if next(4) == 0 {
            text.push_str("r = ");
        }
        text.push_str(atoms[next(atoms.len())]);
        for _ in 0..next(6) {
            text.push_str(ops[next(ops.len())]);
            text.push_str(atoms[next(atoms.len())]);
        }
        assert!(compare(&vm, &text), "{:?}", text);
    }
}

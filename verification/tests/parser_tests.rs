use expression_parser::{eval, parse_formula, Bindings, Op};
use std::collections::HashMap;

fn number(text: &str) -> u64 {
    text.parse::<f64>().unwrap().to_bits()
}

fn arith(op: Op, a: u64, b: u64) -> u64 {
    let (x, y) = (f64::from_bits(a), f64::from_bits(b));
    let r = match op {
        Op::Add => x + y,
        Op::Sub => x - y,
        Op::Mul => x * y,
        Op::Div => x / y,
        Op::Pow => x.powf(y),
    };
    r.to_bits()
}

fn table(vars: &HashMap<String, f64>) -> Bindings {
    let mut t = Bindings::new();
    for (name, value) in vars {
        t.insert(name.clone(), value.to_bits());
    }
    t
}

fn value(text: &str, vars: &HashMap<String, f64>) -> f64 {
    let expr = parse_formula(text).unwrap();
    f64::from_bits(eval(&expr, &table(vars), &number, &arith))
}

#[test]
fn test_whitespace() {
    let vars = HashMap::new();
    let result = value("  1   +   2 ", &vars);
    assert_eq!(result, 3.0);
}

#[test]
fn test_file_rule() {
    let vars = HashMap::new();
    let result = value("1 + 2", &vars);
    assert_eq!(result, 3.0);
}

#[test]
fn test_expr_rule() {
    let vars = HashMap::new();
    let result_assign = value("result = 2 + 3", &vars);
    assert_eq!(result_assign, 5.0);

    let vars = HashMap::new();
    let result_sum = value("4 + 6 / 2", &vars);
    assert_eq!(result_sum, 7.0);
}

#[test]
fn test_assign_rule() {
    let mut vars = HashMap::new();
    vars.insert("R".into(), 1500.0);
    vars.insert("C".into(), 1000.0);

    let result = value("ROI = (R - C) / C * 100", &vars);
    assert_eq!(result, 50.0);
}

#[test]
fn test_sum_rule() {
    let vars = HashMap::new();
    let result = value("2 + 3 - 1", &vars);
    assert_eq!(result, 4.0);
}

#[test]
fn test_product_rule() {
    let vars = HashMap::new();
    let result = value("4 * 3 / 2", &vars);
    assert_eq!(result, 6.0);
}

#[test]
fn test_power_operation() {
    let vars = HashMap::new();
    let result = value("2 ^ 3", &vars);
    assert_eq!(result, 8.0);
}

#[test]
fn test_atom_rule() {
    let mut vars = HashMap::new();
    vars.insert("x".into(), 2.0);
    vars.insert("y".into(), 3.0);

    let result = value("5 + (x + y) * 3 + Σi=1to2(i)", &vars);
    assert_eq!(result, 23.0);
}

#[test]
fn test_summation_basic() {
    let vars = HashMap::new();
    let result = value("Σk=1to3(k^2)", &vars);
    assert_eq!(result, 14.0);
}

#[test]
fn test_summation_with_expression() {
    let vars = HashMap::new();
    let result = value("Σi=1to4(i^2 + 1)", &vars);
    assert_eq!(result, 34.0);
}

#[test]
fn test_ident_rule() {
    let mut vars = HashMap::new();
    vars.insert("x".into(), 2.0);
    vars.insert("ROI".into(), 50.0);
    vars.insert("Revenue_2025".into(), 1000.0);

    let result = value("x + ROI + Revenue_2025", &vars);
    assert_eq!(result, 1052.0);
}

#[test]
fn test_number_rule() {
    let vars = HashMap::new();
    let result = value("5 + (-3) + 2.5", &vars);
    assert_eq!(result, 4.5);
}

#[test]
fn test_simple_addition() {
    let vars = HashMap::new();
    let result = value("1 + 2 * 3", &vars);
    assert_eq!(result, 7.0);
}

#[test]
fn test_parentheses_precedence() {
    let vars = HashMap::new();
    let result = value("(1 + 2) * 3", &vars);
    assert_eq!(result, 9.0);
}

#[test]
fn test_variables_usage() {
    let mut vars = HashMap::new();
    vars.insert("A".into(), 3.0);
    vars.insert("B".into(), 4.0);
    let result = value("A + B * 2", &vars);
    assert_eq!(result, 11.0);
}

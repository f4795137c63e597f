use expression_parser::{eval, parse_formula, Bindings, Expr, Op};

fn number(text: &str) -> u64 {
    text.parse::<f64>().unwrap().to_bits()
}

fn arith(op: Op, a: u64, b: u64) -> u64 {
    let (x, y) = (f64::from_bits(a), f64::from_bits(b));
    let r = match op {
        Op::Add => x + y,
        Op::Sub => x - y,
        Op::Mul => x * y,
        Op::Div => x / y,
        Op::Pow => x.powf(y),
    };
    r.to_bits()
}

fn table(vars: &[(&str, f64)]) -> Bindings {
    let mut t = Bindings::new();
    for (name, value) in vars {
        t.insert(name.to_string(), value.to_bits());
    }
    t
}

fn value(text: &str, vars: &[(&str, f64)]) -> f64 {
    let expr = parse_formula(text).unwrap();
    f64::from_bits(eval(&expr, &table(vars), &number, &arith))
}

#[test]
fn arithmetic_follows_precedence() {
    assert_eq!(value("1 + 2 * 3", &[]), 7.0);
    assert_eq!(value("(1 + 2) * 3", &[]), 9.0);
    assert_eq!(value("2 * 3 ^ 2", &[]), 18.0);
    assert_eq!(value("10 - 4 - 3", &[]), 3.0);
    assert_eq!(value("16 / 4 / 2", &[]), 2.0);
    assert_eq!(value("2 + 3 * 4 - 6 / 2", &[]), 11.0);
    assert_eq!(value("0.1 + 0.2", &[]), 0.1 + 0.2);
    assert_eq!(value("1 / 3", &[]), 1.0 / 3.0);
}

#[test]
fn power_is_right_associative() {
    assert_eq!(value("2 ^ 3 ^ 2", &[]), 512.0);
    assert_eq!(value("(2 ^ 3) ^ 2", &[]), 64.0);
    assert_eq!(value("2 ^ 3", &[]), 8.0);
    assert_eq!(value("4 ^ 0.5", &[]), 2.0);
    assert_eq!(value("2 ^ -1", &[]), 0.5);
}

#[test]
fn variables_are_looked_up() {
    assert_eq!(value("A + B * 2", &[("A", 3.0), ("B", 4.0)]), 11.0);
    assert_eq!(value("ROI = (R - C) / C * 100", &[("R", 1500.0), ("C", 1000.0)]), 50.0);
    assert_eq!(value("a + A", &[("a", 1.0), ("A", 10.0)]), 11.0);
}

#[test]
fn an_unbound_variable_is_zero() {
    assert_eq!(value("x", &[]).to_bits(), 0.0f64.to_bits());
    assert_eq!(value("x + 5", &[("y", 3.0)]), 5.0);
    assert_eq!(value("ROI = (R - C) / C", &[]).is_nan(), true);
    let lone = Expr::Var("missing".to_string());
    assert_eq!(eval(&lone, &Bindings::new(), &number, &arith), 0);
}

#[test]
fn assignment_binds_nothing() {
    assert_eq!(value("x = 5", &[]), 5.0);
    assert_eq!(value("(x = 5) + x", &[]), 5.0);
    assert_eq!(value("(x = 5) + x", &[("x", 2.0)]), 7.0);
}

#[test]
fn division_by_zero_and_bad_powers_are_no_errors() {
    assert_eq!(value("1 / 0", &[]), f64::INFINITY);
    assert_eq!(value("-1 / 0", &[]), f64::NEG_INFINITY);
    assert!(value("0 / 0", &[]).is_nan());
    assert!(value("(-8) ^ 0.5", &[]).is_nan());
}

#[test]
fn summation_adds_up_its_body() {
    assert_eq!(value("Σi=1to4(i^2 + 1)", &[]), 34.0);
    assert_eq!(value("Σk=1to3(k^2)", &[]), 14.0);
    assert_eq!(value("Σi=-2to2(i)", &[]), 0.0);
    assert_eq!(value("Σi=1to100(i)", &[]), 5050.0);
    assert_eq!(value("Σi=1to3(Σj=1to2(i*j))", &[]), 18.0);
    assert_eq!(value("Σi=1to10(0.1)", &[]), {
        let mut s = 0.0;
        for _ in 0..10 {
            s += 0.1;
        }
        s
    });
}

#[test]
fn an_empty_summation_is_zero() {
    assert_eq!(value("Σi=5to1(i)", &[]).to_bits(), 0.0f64.to_bits());
    assert_eq!(value("Σi=1to0(1 / 0)", &[]).to_bits(), 0.0f64.to_bits());
    assert_eq!(value("Σi=0to-1(i)", &[]), 0.0);
}

#[test]
fn a_summation_over_one_integer_is_its_body_once() {
    assert_eq!(value("Σi=3to3(i * 10)", &[]), 30.0);
    assert_eq!(value("Σi=-4to-4(i)", &[]), -4.0);
    assert_eq!(value("Σi=0to0(7)", &[]), 7.0);
}

#[test]
fn summation_bounds_are_truncated_toward_zero() {
    assert_eq!(value("Σi=1.9to3.1(i)", &[]), 6.0);
    assert_eq!(value("Σi=-1.9to1.9(1)", &[]), 3.0);
    assert_eq!(value("Σi=1.5to1.2(i)", &[]), 1.0);
    assert_eq!(value("Σi=0.9to0.1(5)", &[]), 5.0);
}

#[test]
fn the_loop_variable_is_bound_only_in_the_body() {
    assert_eq!(value("Σi=1to2(i) + i", &[("i", 10.0)]), 13.0);
    assert_eq!(value("i + Σi=1to2(i)", &[("i", 10.0)]), 13.0);
    assert_eq!(value("Σi=1to2(i + x)", &[("x", 100.0)]), 203.0);
    assert_eq!(value("Σi=1to2(Σi=5to6(i)) + i", &[]), 22.0);
    assert_eq!(value("Σi=1to2(Σj=1to2(i)) ", &[("j", 9.0)]), 6.0);
}

#[test]
fn the_table_of_the_caller_is_left_alone() {
    let expr = parse_formula("Σi=1to3(i)").unwrap();
    let vars = table(&[("i", 42.0), ("k", 1.0)]);
    assert_eq!(f64::from_bits(eval(&expr, &vars, &number, &arith)), 6.0);
    assert_eq!(vars.get(&"i".to_string()), Some(42.0f64.to_bits()));
    assert_eq!(vars.get(&"k".to_string()), Some(1.0f64.to_bits()));
}

#[test]
fn brackets_do_not_change_a_value() {
    let vars = [("x", 2.5), ("y", -4.0)];
    for text in ["1 + 2 * 3", "x ^ 2 - y", "r = x / y", "Σi=1to4(i * x)", "x"] {
        let plain = value(text, &vars).to_bits();
        assert_eq!(value(&format!("({})", text), &vars).to_bits(), plain);
    }
}

#[test]
fn blanks_do_not_change_a_value() {
    assert_eq!(value("1+2", &[]), value("  1  +  2  ", &[]));
    assert_eq!(value("  1  +  2  ", &[]), 3.0);
}

#[test]
fn literals_are_handed_to_the_caller_as_written() {
    let expr = parse_formula("-2.50 + 007").unwrap();
    let seen = std::cell::RefCell::new(Vec::new());
    let spy = |text: &str| {
        seen.borrow_mut().push(text.to_string());
        number(text)
    };
    assert_eq!(f64::from_bits(eval(&expr, &Bindings::new(), &spy, &arith)), 4.5);
    assert_eq!(*seen.borrow(), vec!["-2.50".to_string(), "007".to_string()]);
}

#[test]
fn operators_are_applied_left_side_first() {
    let expr = parse_formula("a - b * c").unwrap();
    let seen = std::cell::RefCell::new(Vec::new());
    let spy = |op: Op, a: u64, b: u64| {
        seen.borrow_mut().push((op, f64::from_bits(a), f64::from_bits(b)));
        arith(op, a, b)
    };
    let vars = table(&[("a", 10.0), ("b", 2.0), ("c", 3.0)]);
    assert_eq!(f64::from_bits(eval(&expr, &vars, &number, &spy)), 4.0);
    assert_eq!(*seen.borrow(), vec![(Op::Mul, 2.0, 3.0), (Op::Sub, 10.0, 6.0)]);
}

#[test]
fn a_summation_starts_from_zero() {
    let expr = parse_formula("Σi=2to3(i)").unwrap();
    let seen = std::cell::RefCell::new(Vec::new());
    let spy = |op: Op, a: u64, b: u64| {
        seen.borrow_mut().push((op, f64::from_bits(a), f64::from_bits(b)));
        arith(op, a, b)
    };
    assert_eq!(f64::from_bits(eval(&expr, &Bindings::new(), &number, &spy)), 5.0);
    assert_eq!(*seen.borrow(), vec![(Op::Add, 0.0, 2.0), (Op::Add, 2.0, 3.0)]);
}

#[test]
fn bindings_hold_one_value_for_a_name() {
    let mut t = Bindings::new();
    assert_eq!(t.get(&"x".to_string()), None);
    t.insert("x".to_string(), 1);
    t.insert("y".to_string(), 2);
    t.insert("x".to_string(), 3);
    assert_eq!(t.get(&"x".to_string()), Some(3));
    assert_eq!(t.get(&"y".to_string()), Some(2));
    assert_eq!(t.get(&"X".to_string()), None);
    let mut u = t.copy();
    u.insert("y".to_string(), 9);
    u.insert("z".to_string(), 7);
    assert_eq!(t.get(&"y".to_string()), Some(2));
    assert_eq!(t.get(&"z".to_string()), None);
    assert_eq!(u.get(&"x".to_string()), Some(3));
    assert_eq!(u.get(&"y".to_string()), Some(9));
}

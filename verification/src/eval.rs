//! The evaluator: an expression and a table of variables to one number.
//!
//! Numbers are IEEE 754 binary64 bit patterns. The library holds no
//! floating-point code, so the caller supplies the two things that need
//! it, as closures: `number`, which reads a decimal literal, and `arith`,
//! which applies one of the five operators to two numbers. What `eval`
//! promises is stated over whatever those two promise.

use crate::ast::{Ast, Expr, Op};
use crate::number::{encoded, from_int, truncate, truncated, ZERO};
use vstd::prelude::*;

verus! {

/// The map that a list of entries stands for: of two entries with one
/// name, the earlier one counts.
pub open spec fn table(entries: Seq<(String, u64)>) -> Map<Seq<char>, u64>
    decreases entries.len(),
{
    if entries.len() == 0 {
        Map::empty()
    } else {
        table(entries.drop_first()).insert(entries[0].0@, entries[0].1)
    }
}

/// True when none of the first `n` entries has the name `name`.
pub open spec fn absent(entries: Seq<(String, u64)>, n: int, name: Seq<char>) -> bool {
    forall|k: int| 0 <= k < n ==> (#[trigger] entries[k]).0@ != name
}

/// The first entry of a name is what the table binds the name to.
proof fn lemma_table_first(entries: Seq<(String, u64)>, i: int, name: Seq<char>)
    requires
        0 <= i < entries.len(),
        absent(entries, i, name),
        entries[i].0@ == name,
    ensures
        table(entries).contains_key(name),
        table(entries)[name] == entries[i].1,
    decreases i,
{
    if i > 0 {
        let rest = entries.drop_first();
        assert(entries[0].0@ != name);
        assert forall|k: int| 0 <= k < i - 1 implies (#[trigger] rest[k]).0@ != name by {
            assert(rest[k] == entries[k + 1]);
        }
        lemma_table_first(rest, i - 1, name);
    }
}

/// A name without an entry is not bound.
proof fn lemma_table_none(entries: Seq<(String, u64)>, name: Seq<char>)
    requires
        absent(entries, entries.len() as int, name),
    ensures
        !table(entries).contains_key(name),
    decreases entries.len(),
{
    if entries.len() > 0 {
        let rest = entries.drop_first();
        assert(entries[0].0@ != name);
        assert forall|k: int| 0 <= k < rest.len() implies (#[trigger] rest[k]).0@ != name by {
            assert(rest[k] == entries[k + 1]);
        }
        lemma_table_none(rest, name);
    }
}

/// A new value in the first entry of a name binds the name to it and
/// leaves the other names alone.
proof fn lemma_table_update(entries: Seq<(String, u64)>, i: int, entry: (String, u64))
    requires
        0 <= i < entries.len(),
        absent(entries, i, entry.0@),
        entries[i].0@ == entry.0@,
    ensures
        table(entries.update(i, entry)) == table(entries).insert(entry.0@, entry.1),
    decreases i,
{
    let after = entries.update(i, entry);
    if i > 0 {
        let rest = entries.drop_first();
        assert(entries[0].0@ != entry.0@);
        assert forall|k: int| 0 <= k < i - 1 implies (#[trigger] rest[k]).0@ != entry.0@ by {
            assert(rest[k] == entries[k + 1]);
        }
        lemma_table_update(rest, i - 1, entry);
        assert(after.drop_first() =~= rest.update(i - 1, entry));
        assert(after[0] == entries[0]);
        assert(table(after) =~= table(entries).insert(entry.0@, entry.1));
    } else {
        assert(after.drop_first() =~= entries.drop_first());
        assert(table(after) =~= table(entries).insert(entry.0@, entry.1));
    }
}

/// A new entry for a name without one binds the name and leaves the other
/// names alone.
proof fn lemma_table_push(entries: Seq<(String, u64)>, entry: (String, u64))
    requires
        absent(entries, entries.len() as int, entry.0@),
    ensures
        table(entries.push(entry)) == table(entries).insert(entry.0@, entry.1),
    decreases entries.len(),
{
    let after = entries.push(entry);
    if entries.len() > 0 {
        let rest = entries.drop_first();
        assert(entries[0].0@ != entry.0@);
        assert forall|k: int| 0 <= k < rest.len() implies (#[trigger] rest[k]).0@ != entry.0@ by {
            assert(rest[k] == entries[k + 1]);
        }
        lemma_table_push(rest, entry);
        assert(after.drop_first() =~= rest.push(entry));
        assert(after[0] == entries[0]);
        assert(table(after) =~= table(entries).insert(entry.0@, entry.1));
    } else {
        assert(after.drop_first() =~= entries);
        assert(table(after) =~= table(entries).insert(entry.0@, entry.1));
    }
}

/// A table of variables: names and the numbers bound to them.
#[derive(Debug)]
pub struct Bindings {
    entries: Vec<(String, u64)>,
}

impl View for Bindings {
    type V = Map<Seq<char>, u64>;

    closed spec fn view(&self) -> Map<Seq<char>, u64> {
        table(self.entries@)
    }
}

impl Bindings {
    /// The empty table.
    pub fn new() -> (r: Bindings)
        ensures
            r@ == Map::<Seq<char>, u64>::empty(),
    {
        Bindings { entries: Vec::new() }
    }

    /// The index of the first entry named `name`.
    fn find(&self, name: &String) -> (r: Option<usize>)
        ensures
            match r {
                Some(i) => i < self.entries@.len() && absent(self.entries@, i as int, name@)
                    && self.entries@[i as int].0@ == name@,
                None => absent(self.entries@, self.entries@.len() as int, name@),
            },
    {
        let mut i: usize = 0;
        while i < self.entries.len()
            invariant
                i <= self.entries@.len(),
                absent(self.entries@, i as int, name@),
            decreases self.entries@.len() - i,
        {
            if self.entries[i].0 == *name {
                return Some(i);
            }
            i = i + 1;
        }
        None
    }

    /// Binds `name` to `value`, in place of what it was bound to.
    pub fn insert(&mut self, name: String, value: u64)
        ensures
            final(self)@ == old(self)@.insert(name@, value),
    {
        match self.find(&name) {
            Some(i) => {
                proof {
                    lemma_table_update(self.entries@, i as int, (name, value));
                }
                self.entries.set(i, (name, value));
            },
            None => {
                proof {
                    lemma_table_push(self.entries@, (name, value));
                }
                self.entries.push((name, value));
            },
        }
    }

    /// The number bound to `name`, if there is one.
    pub fn get(&self, name: &String) -> (r: Option<u64>)
        ensures
            r == if self@.contains_key(name@) {
                Some(self@[name@])
            } else {
                None
            },
    {
        match self.find(name) {
            Some(i) => {
                proof {
                    lemma_table_first(self.entries@, i as int, name@);
                }
                Some(self.entries[i].1)
            },
            None => {
                proof {
                    lemma_table_none(self.entries@, name@);
                }
                None
            },
        }
    }

    /// A table of its own with the same bindings.
    pub fn copy(&self) -> (r: Bindings)
        ensures
            r@ == self@,
    {
        let mut entries: Vec<(String, u64)> = Vec::new();
        let mut i: usize = 0;
        while i < self.entries.len()
            invariant
                i <= self.entries@.len(),
                entries@.len() == i,
                forall|k: int|
                    0 <= k < i ==> (#[trigger] entries@[k]).0@ == self.entries@[k].0@
                        && entries@[k].1 == self.entries@[k].1,
            decreases self.entries@.len() - i,
        {
            entries.push((self.entries[i].0.clone(), self.entries[i].1));
            i = i + 1;
        }
        proof {
            lemma_table_same(entries@, self.entries@);
        }
        Bindings { entries }
    }
}

/// Entries with the same names and values make the same table.
proof fn lemma_table_same(a: Seq<(String, u64)>, b: Seq<(String, u64)>)
    requires
        a.len() == b.len(),
        forall|k: int| 0 <= k < a.len() ==> (#[trigger] a[k]).0@ == b[k].0@ && a[k].1 == b[k].1,
    ensures
        table(a) == table(b),
    decreases a.len(),
{
    if a.len() > 0 {
        assert forall|k: int| 0 <= k < a.len() - 1 implies (#[trigger] a.drop_first()[k]).0@
            == b.drop_first()[k].0@ && a.drop_first()[k].1 == b.drop_first()[k].1 by {
            assert(a.drop_first()[k] == a[k + 1]);
            assert(b.drop_first()[k] == b[k + 1]);
        }
        lemma_table_same(a.drop_first(), b.drop_first());
        assert(a[0].0@ == b[0].0@);
    }
}

/// What a variable stands for: the number bound to it, or zero.
pub open spec fn lookup(env: Map<Seq<char>, u64>, name: Seq<char>) -> u64 {
    if env.contains_key(name) {
        env[name]
    } else {
        ZERO
    }
}

/// The literals of an expression: the texts of its numbers and of the
/// bounds of its summations.
pub open spec fn literals(e: Ast) -> Set<Seq<char>>
    decreases e,
{
    match e {
        Ast::Num(text) => set![text],
        Ast::Var(name) => Set::empty(),
        Ast::Binary(op, a, b) => literals(*a).union(literals(*b)),
        Ast::Assign(a) => literals(*a),
        Ast::Sum { var, start, end, body } => literals(*body).insert(start).insert(end),
    }
}

/// True when `r` is a number that `number` may return for the literal
/// `text`.
pub open spec fn reads<N: Fn(&str) -> u64>(number: &N, text: Seq<char>, r: u64) -> bool {
    exists|s: &str| s@ == text && #[trigger] call_ensures(*number, (s,), r)
}

/// True when `r` is a value of `e` under `env`: a literal is read by
/// `number`, a variable is looked up, an operator is applied by `arith`
/// to a value of each side, an assignment has the values of its right
/// side, and a summation adds up, from zero and in ascending order, a
/// value of its body for each integer from its lower to its upper bound,
/// both truncated, with the loop variable bound to that integer.
pub open spec fn evaluates<N: Fn(&str) -> u64, A: Fn(Op, u64, u64) -> u64>(
    e: Ast,
    env: Map<Seq<char>, u64>,
    number: &N,
    arith: &A,
    r: u64,
) -> bool
    decreases e, 0int, 0int,
{
    match e {
        Ast::Num(text) => reads(number, text, r),
        Ast::Var(name) => r == lookup(env, name),
        Ast::Binary(op, a, b) => exists|x: u64, y: u64|
            evaluates(*a, env, number, arith, x) && evaluates(*b, env, number, arith, y)
                && #[trigger] call_ensures(*arith, (op, x, y), r),
        Ast::Assign(a) => evaluates(*a, env, number, arith, r),
        Ast::Sum { var, start, end, body } => exists|lo: u64, hi: u64|
            #![trigger truncated(lo), truncated(hi)]
            reads(number, start, lo) && reads(number, end, hi) && sums(
                *body,
                env,
                var,
                truncated(lo),
                truncated(hi),
                ZERO,
                number,
                arith,
                r,
            ),
    }
}

/// True when `r` is what a summation comes to that has reached the
/// integer `i` with `acc` added up so far and goes on to `last`.
pub open spec fn sums<N: Fn(&str) -> u64, A: Fn(Op, u64, u64) -> u64>(
    body: Ast,
    env: Map<Seq<char>, u64>,
    var: Seq<char>,
    i: int,
    last: int,
    acc: u64,
    number: &N,
    arith: &A,
    r: u64,
) -> bool
    decreases body, 1int, last - i + 1,
{
    if i > last {
        r == acc
    } else {
        exists|v: u64, next: u64|
            evaluates(body, env.insert(var, encoded(i) as u64), number, arith, v)
                && #[trigger] call_ensures(*arith, (Op::Add, acc, v), next) && sums(
                body,
                env,
                var,
                i + 1,
                last,
                next,
                number,
                arith,
                r,
            )
    }
}

/// A value of a summation, from readings of its bounds and a sum over
/// its range.
proof fn lemma_summation<N: Fn(&str) -> u64, A: Fn(Op, u64, u64) -> u64>(
    var: Seq<char>,
    start: Seq<char>,
    end: Seq<char>,
    body: Ast,
    env: Map<Seq<char>, u64>,
    number: &N,
    arith: &A,
    lo: u64,
    hi: u64,
    r: u64,
)
    requires
        reads(number, start, lo),
        reads(number, end, hi),
        sums(body, env, var, truncated(lo), truncated(hi), ZERO, number, arith, r),
    ensures
        evaluates(Ast::Sum { var, start, end, body: Box::new(body) }, env, number, arith, r),
{
}

/// Evaluates `e` with the variables of `vars`. A variable that `vars`
/// does not bind counts as zero; `vars` itself is left as it is, also by
/// a summation, which binds its loop variable in a copy.
pub fn eval<N: Fn(&str) -> u64, A: Fn(Op, u64, u64) -> u64>(
    e: &Expr,
    vars: &Bindings,
    number: &N,
    arith: &A,
) -> (r: u64)
    requires
        forall|s: &str| literals(e@).contains(s@) ==> #[trigger] call_requires(*number, (s,)),
        forall|op: Op, x: u64, y: u64| #[trigger] call_requires(*arith, (op, x, y)),
    ensures
        evaluates(e@, vars@, number, arith, r),
    decreases e, 0int,
{
    match e {
        Expr::Num(text) => {
            let r = read(text, number);
            assert(evaluates(e@, vars@, number, arith, r));
            r
        },
        Expr::Var(name) => {
            let r = match vars.get(name) {
                Some(v) => v,
                None => ZERO,
            };
            assert(evaluates(e@, vars@, number, arith, r));
            r
        },
        Expr::Add(a, b) => {
            let x = eval(a, vars, number, arith);
            let y = eval(b, vars, number, arith);
            let r = arith(Op::Add, x, y);
            assert(evaluates(e@, vars@, number, arith, r));
            r
        },
        Expr::Sub(a, b) => {
            let x = eval(a, vars, number, arith);
            let y = eval(b, vars, number, arith);
            let r = arith(Op::Sub, x, y);
            assert(evaluates(e@, vars@, number, arith, r));
            r
        },
        Expr::Mul(a, b) => {
            let x = eval(a, vars, number, arith);
            let y = eval(b, vars, number, arith);
            let r = arith(Op::Mul, x, y);
            assert(evaluates(e@, vars@, number, arith, r));
            r
        },
        Expr::Div(a, b) => {
            let x = eval(a, vars, number, arith);
            let y = eval(b, vars, number, arith);
            let r = arith(Op::Div, x, y);
            assert(evaluates(e@, vars@, number, arith, r));
            r
        },
        Expr::Pow(a, b) => {
            let x = eval(a, vars, number, arith);
            let y = eval(b, vars, number, arith);
            let r = arith(Op::Pow, x, y);
            assert(evaluates(e@, vars@, number, arith, r));
            r
        },
        Expr::Assign(a) => {
            let r = eval(a, vars, number, arith);
            assert(evaluates(e@, vars@, number, arith, r));
            r
        },
        Expr::Sum { var, start, end, body } => {
            let from = read(start, number);
            let to = read(end, number);
            let r = total(body, var, truncate(from), truncate(to), vars, number, arith);
            assert(sums(
                body@,
                vars@,
                var@,
                truncated(from),
                truncated(to),
                ZERO,
                number,
                arith,
                r,
            ));
            assert(e@ == Ast::Sum {
                var: var@,
                start: start@,
                end: end@,
                body: Box::new(body@),
            });
            proof {
                lemma_summation(var@, start@, end@, body@, vars@, number, arith, from, to, r);
            }
            r
        },
    }
}

/// Adds up the values of `body` for the integers from `lo` to `hi`.
fn total<N: Fn(&str) -> u64, A: Fn(Op, u64, u64) -> u64>(
    body: &Expr,
    var: &String,
    lo: i64,
    hi: i64,
    vars: &Bindings,
    number: &N,
    arith: &A,
) -> (acc: u64)
    requires
        forall|s: &str| literals(body@).contains(s@) ==> #[trigger] call_requires(*number, (s,)),
        forall|op: Op, x: u64, y: u64| #[trigger] call_requires(*arith, (op, x, y)),
    ensures
        sums(body@, vars@, var@, lo as int, hi as int, ZERO, number, arith, acc),
    decreases body, 1int,
{
    let mut acc: u64 = ZERO;
    if lo > hi {
        return acc;
    }
    let mut scope = vars.copy();
    let mut i: i64 = lo;
    loop
        invariant_except_break
            forall|r: u64|
                sums(body@, vars@, var@, i as int, hi as int, acc, number, arith, r)
                    ==> #[trigger] sums(
                    body@,
                    vars@,
                    var@,
                    lo as int,
                    hi as int,
                    ZERO,
                    number,
                    arith,
                    r,
                ),
        invariant
            forall|s: &str|
                literals(body@).contains(s@) ==> #[trigger] call_requires(*number, (s,)),
            forall|op: Op, x: u64, y: u64| #[trigger] call_requires(*arith, (op, x, y)),
            lo <= i <= hi,
            scope@.remove(var@) == vars@.remove(var@),
        ensures
            sums(body@, vars@, var@, lo as int, hi as int, ZERO, number, arith, acc),
        decreases hi - i,
    {
        let ghost before = acc;
        let ghost outer = scope@;
        scope.insert(var.clone(), from_int(i));
        assert(scope@.remove(var@) =~= outer.remove(var@));
        assert(scope@ =~= vars@.insert(var@, encoded(i as int) as u64)) by {
            assert forall|k: Seq<char>| k != var@ implies #[trigger] scope@.contains_key(k)
                == vars@.contains_key(k) && scope@[k] == vars@[k] by {
                assert(outer.remove(var@).contains_key(k) == vars@.remove(var@).contains_key(k));
                assert(outer.remove(var@)[k] == vars@.remove(var@)[k]);
            }
        }
        let v = eval(body, &scope, number, arith);
        let next = arith(Op::Add, acc, v);
        acc = next;
        assert forall|r: u64|
            sums(
                body@,
                vars@,
                var@,
                i as int + 1,
                hi as int,
                next,
                number,
                arith,
                r,
            ) implies #[trigger] sums(
            body@,
            vars@,
            var@,
            lo as int,
            hi as int,
            ZERO,
            number,
            arith,
            r,
        ) by {
            assert(sums(body@, vars@, var@, i as int, hi as int, before, number, arith, r));
        }
        if i == hi {
            assert(sums(body@, vars@, var@, i as int + 1, hi as int, next, number, arith, next));
            break ;
        }
        i = i + 1;
    }
    acc
}

/// Reads a literal.
fn read<N: Fn(&str) -> u64>(text: &String, number: &N) -> (r: u64)
    requires
        forall|s: &str| s@ == text@ ==> #[trigger] call_requires(*number, (s,)),
    ensures
        reads(number, text@, r),
{
    let s = text.as_str();
    let r = number(s);
    assert(call_ensures(*number, (s,), r));
    r
}

/// A variable that the table does not bind has the value zero.
pub proof fn lemma_unbound_variable<N: Fn(&str) -> u64, A: Fn(Op, u64, u64) -> u64>(
    name: Seq<char>,
    env: Map<Seq<char>, u64>,
    number: &N,
    arith: &A,
    r: u64,
)
    requires
        !env.contains_key(name),
        evaluates(Ast::Var(name), env, number, arith, r),
    ensures
        r == ZERO,
{
}

/// A summation whose upper bound, truncated, lies below its lower bound,
/// truncated, has the value zero.
pub proof fn lemma_empty_summation<N: Fn(&str) -> u64, A: Fn(Op, u64, u64) -> u64>(
    var: Seq<char>,
    start: Seq<char>,
    end: Seq<char>,
    body: Ast,
    env: Map<Seq<char>, u64>,
    number: &N,
    arith: &A,
    r: u64,
)
    requires
        evaluates(Ast::Sum { var, start, end, body: Box::new(body) }, env, number, arith, r),
        forall|lo: u64, hi: u64|
            #![trigger truncated(lo), truncated(hi)]
            reads(number, start, lo) && reads(number, end, hi) ==> truncated(lo) > truncated(
                hi,
            ),
    ensures
        r == ZERO,
{
    let (lo, hi) = choose|lo: u64, hi: u64|
        #![trigger truncated(lo), truncated(hi)]
        reads(number, start, lo) && reads(number, end, hi) && sums(
            body,
            env,
            var,
            truncated(lo),
            truncated(hi),
            ZERO,
            number,
            arith,
            r,
        );
    assert(truncated(lo) > truncated(hi));
}

/// A summation whose two bounds truncate to one integer `n` has the value
/// of zero plus a value of its body, taken with the loop variable bound to
/// `n` and with every other variable as outside.
pub proof fn lemma_single_summation<N: Fn(&str) -> u64, A: Fn(Op, u64, u64) -> u64>(
    var: Seq<char>,
    start: Seq<char>,
    end: Seq<char>,
    body: Ast,
    env: Map<Seq<char>, u64>,
    number: &N,
    arith: &A,
    n: int,
    r: u64,
)
    requires
        evaluates(Ast::Sum { var, start, end, body: Box::new(body) }, env, number, arith, r),
        forall|lo: u64, hi: u64|
            #![trigger truncated(lo), truncated(hi)]
            reads(number, start, lo) && reads(number, end, hi) ==> truncated(lo) == n
                && truncated(hi) == n,
    ensures
        exists|v: u64|
            evaluates(body, env.insert(var, encoded(n) as u64), number, arith, v)
                && #[trigger] call_ensures(*arith, (Op::Add, ZERO, v), r),
{
    let (lo, hi) = choose|lo: u64, hi: u64|
        #![trigger truncated(lo), truncated(hi)]
        reads(number, start, lo) && reads(number, end, hi) && sums(
            body,
            env,
            var,
            truncated(lo),
            truncated(hi),
            ZERO,
            number,
            arith,
            r,
        );
    assert(sums(body, env, var, n, n, ZERO, number, arith, r));
    let (v, next) = choose|v: u64, next: u64|
        evaluates(body, env.insert(var, encoded(n) as u64), number, arith, v)
            && #[trigger] call_ensures(*arith, (Op::Add, ZERO, v), next) && sums(
            body,
            env,
            var,
            n + 1,
            n,
            next,
            number,
            arith,
            r,
        );
    assert(next == r);
}

} // verus!

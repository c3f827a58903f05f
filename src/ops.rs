use vstd::prelude::*;

use crate::error::{ErrorKind, EvalError};
use crate::host::Host;
use crate::value::{bool_value, copy_list, lemma_models, models, Expression, Value};

verus! {

/// The four arithmetic forms that fold over their arguments.
#[derive(Debug, Clone, Copy, PartialEq, Eq, Structural)]
pub enum ArithOp {
    Add,
    Sub,
    Mul,
    Div,
}

pub open spec fn is_number(v: Value) -> bool {
    v is Integer || v is Float
}

pub open spec fn all_numbers(vs: Seq<Value>) -> bool {
    forall|i: int| 0 <= i < vs.len() ==> is_number(#[trigger] vs[i])
}

pub open spec fn any_float(vs: Seq<Value>) -> bool {
    exists|i: int| 0 <= i < vs.len() && #[trigger] vs[i] is Float
}

pub open spec fn int_of(v: Value) -> i64 {
    match v {
        Value::Integer(i) => i,
        _ => 0,
    }
}

/// One step of integer arithmetic; `None` where it overflows or divides by
/// zero. Division truncates toward zero.
pub open spec fn int_step(op: ArithOp, a: i64, b: i64) -> Option<i64> {
    match op {
        ArithOp::Add => a.checked_add(b),
        ArithOp::Sub => a.checked_sub(b),
        ArithOp::Mul => a.checked_mul(b),
        ArithOp::Div => a.checked_div(b),
    }
}

/// `acc` combined with each of `vs` in turn, from the left.
pub open spec fn int_fold(op: ArithOp, acc: i64, vs: Seq<Value>) -> Option<i64>
    decreases vs.len(),
{
    if vs.len() == 0 {
        Some(acc)
    } else {
        match int_fold(op, acc, vs.drop_last()) {
            Some(a) => int_step(op, a, int_of(vs.last())),
            None => None,
        }
    }
}

/// Whether a form needs at least one argument: subtraction and division
/// start from their first argument, addition and multiplication from 0
/// and 1.
pub open spec fn needs_first(op: ArithOp) -> bool {
    op is Sub || op is Div
}

/// The integer result of a fold over integers.
pub open spec fn int_result(op: ArithOp, vs: Seq<Value>) -> Option<i64> {
    match op {
        ArithOp::Add => int_fold(op, 0, vs),
        ArithOp::Mul => int_fold(op, 1, vs),
        _ => if vs.len() == 0 {
            None
        } else {
            int_fold(op, int_of(vs[0]), vs.drop_first())
        },
    }
}

fn int_step_exec(op: ArithOp, a: i64, b: i64) -> (r: Option<i64>)
    ensures
        r == int_step(op, a, b),
{
    match op {
        ArithOp::Add => a.checked_add(b),
        ArithOp::Sub => a.checked_sub(b),
        ArithOp::Mul => a.checked_mul(b),
        ArithOp::Div => a.checked_div(b),
    }
}

fn float_step<H: Host>(host: &H, op: ArithOp, a: u64, b: u64) -> u64 {
    match op {
        ArithOp::Add => host.float_add(a, b),
        ArithOp::Sub => host.float_sub(a, b),
        ArithOp::Mul => host.float_mul(a, b),
        ArithOp::Div => host.float_div(a, b),
    }
}

/// A number as a float: integers are converted.
fn to_float<H: Host>(host: &H, e: &Expression) -> u64 {
    match e {
        Expression::Float(f) => *f,
        Expression::Integer(i) => host.float_from_int(*i),
        _ => 0,
    }
}

/// Checks that every value is a number; reports whether one is a float.
pub fn check_numbers(vals: &Vec<Expression>) -> (r: Result<bool, EvalError>)
    ensures
        r is Ok <==> all_numbers(models(vals@)),
        r is Ok ==> r->Ok_0 == any_float(models(vals@)),
        r is Err ==> r->Err_0.kind == ErrorKind::Type,
{
    let ghost ms = models(vals@);
    let mut saw_float = false;
    let mut i: usize = 0;
    while i < vals.len()
        invariant
            i <= vals@.len(),
            ms == models(vals@),
            forall|j: int| 0 <= j < i ==> is_number(#[trigger] ms[j]),
            saw_float == exists|j: int| 0 <= j < i && #[trigger] ms[j] is Float,
        decreases vals@.len() - i,
    {
        assert(ms[i as int] == vals@[i as int].model());
        match &vals[i] {
            Expression::Integer(_) => {},
            Expression::Float(_) => {
                saw_float = true;
            },
            _ => {
                assert(!is_number(ms[i as int]));
                return Err(EvalError::new(ErrorKind::Type, "not a number"));
            },
        }
        i = i + 1;
    }
    Ok(saw_float)
}

/// What the folding arithmetic forms give on the values `vs`: a float
/// exactly when some value is a float, otherwise the integer fold; an
/// error where a value is not a number, where subtraction or division has
/// nothing to start from, or where the integers overflow or divide by zero.
pub open spec fn arith_outcome(op: ArithOp, vs: Seq<Value>, r: Result<Expression, EvalError>) -> bool {
    &&& !all_numbers(vs) ==> r is Err && r->Err_0.kind == ErrorKind::Type
    &&& all_numbers(vs) && needs_first(op) && vs.len() == 0 ==> r is Err && r->Err_0.kind
        == ErrorKind::Arity
    &&& all_numbers(vs) && (!needs_first(op) || vs.len() > 0) ==> {
        &&& any_float(vs) ==> r is Ok && r->Ok_0 is Float
        &&& !any_float(vs) ==> {
            &&& r is Ok <==> int_result(op, vs) is Some
            &&& r is Ok ==> r->Ok_0.model() == Value::Integer(int_result(op, vs)->0)
            &&& r is Err ==> r->Err_0.kind == ErrorKind::Arithmetic
        }
    }
}

/// The four folding arithmetic forms on evaluated arguments. The result is
/// a float exactly when some argument is a float (integers are then
/// converted); otherwise it is the integer fold, which fails where it
/// overflows or divides by zero.
pub fn arith<H: Host>(host: &H, op: ArithOp, vals: &Vec<Expression>) -> (r: Result<
    Expression,
    EvalError,
>)
    ensures
        arith_outcome(op, models(vals@), r),
{
    let floats = check_numbers(vals)?;
    let ghost ms = models(vals@);
    let n = vals.len();
    let is_first = op == ArithOp::Sub || op == ArithOp::Div;
    if is_first && n == 0 {
        return Err(EvalError::new(ErrorKind::Arity, "needs at least one argument"));
    }
    if floats {
        let mut acc: u64 = if is_first {
            to_float(host, &vals[0])
        } else if op == ArithOp::Add {
            host.float_from_int(0)
        } else {
            host.float_from_int(1)
        };
        let mut i: usize = if is_first {
            1
        } else {
            0
        };
        while i < n
            invariant
                n == vals@.len(),
            decreases n - i,
        {
            acc = float_step(host, op, acc, to_float(host, &vals[i]));
            i = i + 1;
        }
        return Ok(Expression::Float(acc));
    }
    let start: usize = if is_first {
        1
    } else {
        0
    };
    let mut acc: i64 = if is_first {
        vals[0].as_i64().unwrap()
    } else if op == ArithOp::Add {
        0
    } else {
        1
    };
    let ghost rest = if is_first {
        ms.drop_first()
    } else {
        ms
    };
    let ghost acc0 = acc;
    assert(!any_float(ms));
    proof {
        if is_first {
            assert(ms.drop_first() =~= ms.subrange(1, n as int));
            assert(int_of(ms[0]) == acc0);
        } else {
            assert(ms =~= ms.subrange(0, n as int));
        }
        assert(int_result(op, ms) == int_fold(op, acc0, rest));
    }
    let mut i: usize = start;
    while i < n
        invariant
            start <= i <= n,
            n == vals@.len(),
            ms == models(vals@),
            !any_float(ms),
            all_numbers(ms),
            rest == ms.subrange(start as int, n as int),
            int_fold(op, acc0, rest.subrange(0, i - start)) == Some(acc),
            int_result(op, ms) == int_fold(op, acc0, rest),
        decreases n - i,
    {
        assert(ms[i as int] is Integer);
        assert(ms[i as int] == vals@[i as int].model());
        let x = vals[i].as_i64().unwrap();
        assert(rest.subrange(0, i + 1 - start).drop_last() =~= rest.subrange(0, i - start));
        match int_step_exec(op, acc, x) {
            Some(a) => {
                acc = a;
            },
            None => {
                proof {
                    let k = (i + 1 - start) as int;
                    assert(int_fold(op, acc0, rest.subrange(0, k)) is None);
                    lemma_fold_stays_none(op, acc0, rest, k);
                    assert(rest.subrange(0, rest.len() as int) =~= rest);
                }
                return Err(EvalError::new(ErrorKind::Arithmetic, "integer overflow or division by zero"));
            },
        }
        i = i + 1;
    }
    assert(rest.subrange(0, n - start) =~= rest);
    Ok(Expression::Integer(acc))
}

/// Once a fold has failed, folding more values keeps it failed.
pub proof fn lemma_fold_stays_none(op: ArithOp, acc: i64, vs: Seq<Value>, k: int)
    requires
        0 <= k <= vs.len(),
        int_fold(op, acc, vs.subrange(0, k)) is None,
    ensures
        int_fold(op, acc, vs.subrange(0, vs.len() as int)) is None,
    decreases vs.len() - k,
{
    if k < vs.len() {
        assert(vs.subrange(0, k + 1).drop_last() =~= vs.subrange(0, k));
        lemma_fold_stays_none(op, acc, vs, k + 1);
    }
}

/// The four ordering forms.
#[derive(Debug, Clone, Copy, PartialEq, Eq, Structural)]
pub enum CmpOp {
    Greater,
    GreaterEqual,
    Less,
    LessEqual,
}

pub open spec fn int_cmp(op: CmpOp, a: i64, b: i64) -> bool {
    match op {
        CmpOp::Greater => a > b,
        CmpOp::GreaterEqual => a >= b,
        CmpOp::Less => a < b,
        CmpOp::LessEqual => a <= b,
    }
}

/// Whether the first value stands in the order `op` to each of the others.
pub open spec fn first_against_rest(op: CmpOp, vs: Seq<Value>) -> bool {
    forall|i: int| 1 <= i < vs.len() ==> int_cmp(op, int_of(vs[0]), int_of(#[trigger] vs[i]))
}

pub open spec fn is_bool_value(v: Value) -> bool {
    v == bool_value(true) || v == bool_value(false)
}

fn float_cmp<H: Host>(host: &H, op: CmpOp, a: u64, b: u64) -> bool {
    match op {
        CmpOp::Greater => host.float_less(b, a),
        CmpOp::GreaterEqual => host.float_less_eq(b, a),
        CmpOp::Less => host.float_less(a, b),
        CmpOp::LessEqual => host.float_less_eq(a, b),
    }
}

/// The ordering forms on evaluated arguments: whether the first argument
/// stands in the order to every other one. Integers are compared exactly;
/// where some argument is a float, all are compared as floats.
pub fn compare<H: Host>(host: &H, op: CmpOp, vals: &Vec<Expression>) -> (r: Result<
    Expression,
    EvalError,
>)
    ensures
        !all_numbers(models(vals@)) ==> r is Err && r->Err_0.kind == ErrorKind::Type,
        all_numbers(models(vals@)) && vals@.len() == 0 ==> r is Err && r->Err_0.kind
            == ErrorKind::Arity,
        all_numbers(models(vals@)) && vals@.len() > 0 ==> r is Ok && is_bool_value(
            r->Ok_0.model(),
        ),
        all_numbers(models(vals@)) && vals@.len() > 0 && !any_float(models(vals@)) ==> r is Ok
            && r->Ok_0.model() == bool_value(first_against_rest(op, models(vals@))),
{
    let floats = check_numbers(vals)?;
    let ghost ms = models(vals@);
    let n = vals.len();
    if n == 0 {
        return Err(EvalError::new(ErrorKind::Arity, "needs at least one argument"));
    }
    if floats {
        let a = to_float(host, &vals[0]);
        let mut all = true;
        let mut i: usize = 1;
        while i < n
            invariant
                n == vals@.len(),
            decreases n - i,
        {
            if !float_cmp(host, op, a, to_float(host, &vals[i])) {
                all = false;
            }
            i = i + 1;
        }
        return Ok(Expression::from_bool(all));
    }
    assert(ms[0] == vals@[0].model());
    let a = vals[0].as_i64().unwrap();
    let mut i: usize = 1;
    while i < n
        invariant
            1 <= i <= n,
            n == vals@.len(),
            ms == models(vals@),
            !any_float(ms),
            all_numbers(ms),
            a == int_of(ms[0]),
            forall|j: int| 1 <= j < i ==> int_cmp(op, a, int_of(#[trigger] ms[j])),
        decreases n - i,
    {
        assert(ms[i as int] is Integer);
        assert(ms[i as int] == vals@[i as int].model());
        let b = vals[i].as_i64().unwrap();
        let holds = match op {
            CmpOp::Greater => a > b,
            CmpOp::GreaterEqual => a >= b,
            CmpOp::Less => a < b,
            CmpOp::LessEqual => a <= b,
        };
        if !holds {
            assert(!first_against_rest(op, ms));
            return Ok(Expression::from_bool(false));
        }
        i = i + 1;
    }
    Ok(Expression::from_bool(true))
}

/// `=` on evaluated arguments: whether every argument equals the first.
pub fn all_equal(vals: &Vec<Expression>) -> (r: Result<Expression, EvalError>)
    ensures
        vals@.len() == 0 ==> r is Err && r->Err_0.kind == ErrorKind::Arity,
        vals@.len() > 0 ==> r is Ok && r->Ok_0.model() == bool_value(
            forall|i: int|
                0 <= i < vals@.len() ==> #[trigger] models(vals@)[i] == models(vals@)[0],
        ),
{
    let ghost ms = models(vals@);
    if vals.len() == 0 {
        return Err(EvalError::new(ErrorKind::Arity, "needs at least one argument"));
    }
    let mut i: usize = 1;
    assert(ms[0] == vals@[0].model());
    while i < vals.len()
        invariant
            1 <= i <= vals@.len(),
            ms == models(vals@),
            forall|j: int| 0 <= j < i ==> #[trigger] ms[j] == ms[0],
        decreases vals@.len() - i,
    {
        assert(ms[i as int] == vals@[i as int].model());
        assert(ms[0] == vals@[0].model());
        if !crate::value::values_equal(&vals[i], &vals[0]) {
            return Ok(Expression::from_bool(false));
        }
        i = i + 1;
    }
    Ok(Expression::from_bool(true))
}

/// `%` on two evaluated numbers: for integers the remainder with the sign
/// of `a`; where either is a float, a float remainder computed by the host.
pub fn modulo<H: Host>(host: &H, a: &Expression, b: &Expression) -> (r: Result<Expression, EvalError>)
    ensures
        !(is_number(a.model()) && is_number(b.model())) ==> r is Err && r->Err_0.kind == ErrorKind::Type,
        is_number(a.model()) && is_number(b.model()) && (a is Float || b is Float) ==> r is Ok
            && r->Ok_0 is Float,
        a is Integer && b is Integer ==> {
            &&& r is Ok <==> int_of(a.model()).checked_rem(int_of(b.model())) is Some
            &&& r is Ok ==> r->Ok_0.model() == Value::Integer(
                int_of(a.model()).checked_rem(int_of(b.model()))->0,
            )
            &&& r is Err ==> r->Err_0.kind == ErrorKind::Arithmetic
        },
{
    match (a, b) {
        (Expression::Integer(x), Expression::Integer(y)) => match x.checked_rem(*y) {
            Some(m) => Ok(Expression::Integer(m)),
            None => Err(EvalError::new(ErrorKind::Arithmetic, "division by zero or overflow")),
        },
        (Expression::Integer(_), Expression::Float(_)) | (Expression::Float(_), Expression::Integer(_))
        | (Expression::Float(_), Expression::Float(_)) => {
            Ok(Expression::Float(host.float_rem(to_float(host, a), to_float(host, b))))
        },
        _ => Err(EvalError::new(ErrorKind::Type, "not a number")),
    }
}

/// The `len` elements of `list` from index `start` on. A negative start or
/// length, or a slice that runs past the end, is an error: nothing is
/// clamped.
pub fn slice(start: i64, len: i64, list: &Vec<Expression>) -> (r: Result<
    Vec<Expression>,
    EvalError,
>)
    ensures
        r is Ok <==> (0 <= start && 0 <= len && start + len <= list@.len()),
        r is Ok ==> models(r->Ok_0@) == models(list@).subrange(
            start as int,
            start + len,
        ),
        r is Err ==> r->Err_0.kind == ErrorKind::Bounds,
{
    if start < 0 {
        return Err(EvalError::new(ErrorKind::Bounds, "slice starts below zero"));
    }
    if len < 0 {
        return Err(EvalError::new(ErrorKind::Bounds, "slice has a negative length"));
    }
    if start as u64 > list.len() as u64 || len as u64 > list.len() as u64 - start as u64 {
        return Err(EvalError::new(ErrorKind::Bounds, "slice runs past the end of the list"));
    }
    let s = start as usize;
    let e = s + len as usize;
    let mut r: Vec<Expression> = Vec::new();
    let mut i: usize = s;
    while i < e
        invariant
            s <= i <= e,
            e <= list@.len(),
            r@.len() == i - s,
            forall|j: int| 0 <= j < r@.len() ==> #[trigger] r@[j].model() == list@[s + j].model(),
        decreases e - i,
    {
        r.push(list[i].clone());
        i = i + 1;
    }
    proof {
        lemma_models(r@);
        lemma_models(list@);
    }
    assert(models(r@) =~= models(list@).subrange(s as int, e as int));
    Ok(r)
}

/// The element of `list` at index `i`; an index below zero or past the end
/// is an error.
pub fn index(i: i64, list: &Vec<Expression>) -> (r: Result<Expression, EvalError>)
    ensures
        r is Ok <==> 0 <= i < list@.len(),
        r is Ok ==> r->Ok_0.model() == list@[i as int].model(),
        r is Err ==> r->Err_0.kind == ErrorKind::Bounds,
{
    if i < 0 || i as u64 >= list.len() as u64 {
        return Err(EvalError::new(ErrorKind::Bounds, "index outside the list"));
    }
    Ok(list[i as usize].clone())
}

/// The integers from `a` up to, not including, `b`.
pub fn range(a: i64, b: i64) -> (r: Vec<Expression>)
    ensures
        a >= b ==> r@.len() == 0,
        a < b ==> r@.len() == b - a,
        forall|k: int| 0 <= k < r@.len() ==> #[trigger] r@[k].model() == Value::Integer(
            (a + k) as i64,
        ),
{
    let mut r: Vec<Expression> = Vec::new();
    let mut x = a;
    while x < b
        invariant
            a <= b ==> a <= x <= b,
            a > b ==> x == a,
            r@.len() == x - a,
            forall|k: int| 0 <= k < r@.len() ==> #[trigger] r@[k].model() == Value::Integer(
                (a + k) as i64,
            ),
        decreases b - x,
    {
        r.push(Expression::Integer(x));
        x = x + 1;
    }
    r
}

/// The elements of `list` in reverse order.
pub fn reverse(list: &Vec<Expression>) -> (r: Vec<Expression>)
    ensures
        models(r@) == models(list@).reverse(),
{
    let mut r: Vec<Expression> = Vec::new();
    let n = list.len();
    let mut i: usize = 0;
    while i < n
        invariant
            i <= n,
            n == list@.len(),
            r@.len() == i,
            forall|j: int| 0 <= j < i ==> #[trigger] r@[j].model() == list@[n - 1 - j].model(),
        decreases n - i,
    {
        r.push(list[n - 1 - i].clone());
        i = i + 1;
    }
    proof {
        lemma_models(r@);
        lemma_models(list@);
    }
    assert(models(r@) =~= models(list@).reverse());
    r
}

/// `list` with `x` added at the end.
pub fn append(list: &Vec<Expression>, x: &Expression) -> (r: Vec<Expression>)
    ensures
        models(r@) == models(list@).push(x.model()),
{
    let mut r = copy_list(list);
    let ghost before = r@;
    r.push(x.clone());
    assert(models(r@) =~= models(list@).push(x.model())) by {
        assert(forall|j: int| 0 <= j < before.len() ==> r@[j] == before[j]);
        assert(forall|j: int| 0 <= j < before.len() ==> models(before)[j] == before[j].model());
    }
    r
}

/// `list` with `x` added at the front.
pub fn prepend(list: &Vec<Expression>, x: &Expression) -> (r: Vec<Expression>)
    ensures
        models(r@) == seq![x.model()] + models(list@),
{
    let mut r: Vec<Expression> = Vec::new();
    r.push(x.clone());
    let mut i: usize = 0;
    while i < list.len()
        invariant
            i <= list@.len(),
            r@.len() == i + 1,
            r@[0].model() == x.model(),
            forall|j: int| 0 <= j < i ==> #[trigger] r@[j + 1].model() == list@[j].model(),
        decreases list@.len() - i,
    {
        r.push(list[i].clone());
        i = i + 1;
    }
    assert forall|j: int| 0 <= j < r@.len() implies models(r@)[j] == (seq![x.model()] + models(list@))[j] by {
        if j > 0 {
            assert(r@[(j - 1) + 1].model() == list@[j - 1].model());
        }
    }
    assert(models(r@) =~= seq![x.model()] + models(list@));
    r
}

/// The first `m` elements of `xs` with `w` between each two neighbours.
pub open spec fn tangled(w: Value, xs: Seq<Value>, m: int) -> Seq<Value>
    decreases m,
{
    if m <= 0 {
        seq![]
    } else if m == 1 {
        seq![xs[0]]
    } else {
        tangled(w, xs, m - 1).push(w).push(xs[m - 1])
    }
}

/// `with` placed between each two neighbouring elements of `list`.
pub fn tangle(with: &Expression, list: &Vec<Expression>) -> (r: Vec<Expression>)
    ensures
        list@.len() == 0 ==> r@.len() == 0,
        list@.len() > 0 ==> r@.len() == 2 * list@.len() - 1,
        forall|j: int| 0 <= j < list@.len() ==> #[trigger] r@[2 * j].model() == list@[j].model(),
        forall|j: int| 0 <= j < list@.len() - 1 ==> #[trigger] r@[2 * j + 1].model() == with.model(),
        models(r@) == tangled(with.model(), models(list@), list@.len() as int),
{
    let mut r: Vec<Expression> = Vec::new();
    let n = list.len();
    let mut i: usize = 0;
    while i < n
        invariant
            i <= n,
            n == list@.len(),
            i == 0 ==> r@.len() == 0,
            i > 0 ==> r@.len() == 2 * i - 1,
            forall|j: int| 0 <= j < i ==> #[trigger] r@[2 * j].model() == list@[j].model(),
            forall|j: int| 0 <= j < i - 1 ==> #[trigger] r@[2 * j + 1].model() == with.model(),
            models(r@) == tangled(with.model(), models(list@), i as int),
        decreases n - i,
    {
        let ghost before = r@;
        if i > 0 {
            r.push(with.clone());
        }
        r.push(list[i].clone());
        proof {
            lemma_models(before);
            lemma_models(r@);
            lemma_models(list@);
            if i > 0 {
                assert(models(r@) =~= models(before).push(with.model()).push(models(list@)[i as int]));
            } else {
                assert(models(r@) =~= seq![models(list@)[0]]);
            }
        }
        i = i + 1;
    }
    r
}

/// Pairs of the elements of `a` and `b` at the same index, as far as the
/// shorter one goes.
pub fn zip(a: &Vec<Expression>, b: &Vec<Expression>) -> (r: Vec<Expression>)
    ensures
        r@.len() == if a@.len() <= b@.len() {
            a@.len()
        } else {
            b@.len()
        },
        forall|j: int|
            0 <= j < r@.len() ==> #[trigger] r@[j].model() == Value::List(
                seq![a@[j].model(), b@[j].model()],
            ),
{
    let n = if a.len() <= b.len() {
        a.len()
    } else {
        b.len()
    };
    let mut r: Vec<Expression> = Vec::new();
    let mut i: usize = 0;
    while i < n
        invariant
            i <= n,
            n <= a@.len(),
            n <= b@.len(),
            n == if a@.len() <= b@.len() {
                a@.len()
            } else {
                b@.len()
            },
            r@.len() == i,
            forall|j: int|
                0 <= j < i ==> #[trigger] r@[j].model() == Value::List(
                    seq![a@[j].model(), b@[j].model()],
                ),
        decreases n - i,
    {
        let mut pair: Vec<Expression> = Vec::new();
        pair.push(a[i].clone());
        pair.push(b[i].clone());
        assert(models(pair@) =~= seq![a@[i as int].model(), b@[i as int].model()]);
        r.push(Expression::List(pair));
        i = i + 1;
    }
    r
}

pub open spec fn text_of(v: Value) -> Seq<char> {
    match v {
        Value::Str(s) => s,
        Value::Symbol(s) => s,
        _ => seq![],
    }
}

/// The texts of `vs` written one after another.
pub open spec fn joined(vs: Seq<Value>) -> Seq<char>
    decreases vs.len(),
{
    if vs.len() == 0 {
        seq![]
    } else {
        joined(vs.drop_last()) + text_of(vs.last())
    }
}

pub open spec fn is_text(v: Value, symbols: bool) -> bool {
    if symbols {
        v is Symbol
    } else {
        v is Str
    }
}

/// Whether every value is a string (or, with `symbols`, a symbol).
pub open spec fn all_texts(vs: Seq<Value>, symbols: bool) -> bool {
    forall|i: int| 0 <= i < vs.len() ==> is_text(#[trigger] vs[i], symbols)
}

/// The strings (or, with `symbols`, the symbols) `vals[from..]` joined into
/// one text; a value of another kind is an error.
pub fn join_texts(vals: &Vec<Expression>, from: usize, symbols: bool) -> (r: Result<
    String,
    EvalError,
>)
    requires
        from <= vals@.len(),
    ensures
        r is Ok <==> all_texts(models(vals@).skip(from as int), symbols),
        r is Ok ==> r->Ok_0@ == joined(models(vals@).skip(from as int)),
        r is Err ==> r->Err_0.kind == ErrorKind::Type,
{
    let ghost ms = models(vals@).skip(from as int);
    proof {
        lemma_models(vals@);
    }
    let mut out = String::new();
    let mut i = from;
    while i < vals.len()
        invariant
            from <= i <= vals@.len(),
            ms == models(vals@).skip(from as int),
            forall|j: int| 0 <= j < vals@.len() ==> #[trigger] models(vals@)[j] == vals@[j].model(),
            all_texts(ms.subrange(0, i - from), symbols),
            out@ == joined(ms.subrange(0, i - from)),
        decreases vals@.len() - i,
    {
        assert(ms.subrange(0, i + 1 - from).drop_last() =~= ms.subrange(0, i - from));
        assert(ms[i - from] == vals@[i as int].model());
        let piece = match &vals[i] {
            Expression::String(t) => {
                if symbols {
                    None
                } else {
                    Some(t)
                }
            },
            Expression::Symbol(t) => {
                if symbols {
                    Some(t)
                } else {
                    None
                }
            },
            _ => None,
        };
        match piece {
            Some(t) => {
                out = crate::text::join2(out, t.as_str());
            },
            None => {
                assert(!all_texts(ms, symbols)) by {
                    assert(!is_text(ms[i - from], symbols));
                }
                return Err(EvalError::new(ErrorKind::Type, "not a text"));
            },
        }
        i = i + 1;
        assert(all_texts(ms.subrange(0, i - from), symbols)) by {
            assert forall|j: int| 0 <= j < i - from implies is_text(#[trigger] ms.subrange(0, i - from)[j], symbols) by {
                if j < i - 1 - from {
                    assert(ms.subrange(0, i - from)[j] == ms.subrange(0, i - 1 - from)[j]);
                }
            }
        }
    }
    assert(ms.subrange(0, vals@.len() - from) =~= ms);
    Ok(out)
}

} // verus!
